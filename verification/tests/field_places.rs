use mir::drop_plans::DropPlan;
use mir::ids::{DropPlanId, LocalId, ProjectionPathId};
use mir::locals::{OwnershipKind, ScalarType, ValueRepresentation};
use mir::lower::projections::{push_field_place, FieldSegment};
use mir::lower::BuildError;
use mir::model::{Place, ProjectionElement};
use mir::resolution::{ResolveModel, TypeFacts, TypeShape, TypeSymbolKind};
use mir::semantic::{DefId, TyId};

fn model() -> ResolveModel {
    let handle = TypeShape {
        symbol: 0,
        kind: TypeSymbolKind::Struct,
        destructor: Some(DefId::from_index(3)),
        fields: Vec::new(),
        variants: Vec::new(),
        alias_target: None,
    };
    ResolveModel {
        symbol_count: 1,
        types: vec![
            TypeFacts { copy: Some(true), shape: None },
            TypeFacts { copy: Some(false), shape: Some(handle) },
            TypeFacts { copy: Some(false), shape: None },
        ],
    }
}

fn segment(offset: u64, ty: usize, representation: ValueRepresentation, ownership: OwnershipKind) -> FieldSegment {
    FieldSegment { offset, ty: TyId::from_index(ty), representation, ownership }
}

#[test]
fn nested_fields_get_one_path_per_step_and_share_them() {
    let mut projections = Vec::new();
    let mut plans: Vec<DropPlan> = Vec::new();
    let base = Place::local(LocalId::from_index(1));
    let outer = segment(8, 1, ValueRepresentation::Aggregate, OwnershipKind::Move);
    let inner = segment(0, 0, ValueRepresentation::Scalar(ScalarType::I32), OwnershipKind::Copy);
    let (place, representation) =
        push_field_place(base, &[outer, inner], &model(), &mut projections, &mut plans).unwrap();
    assert_eq!(place, Place::projected(LocalId::from_index(1), ProjectionPathId::from_index(1)));
    assert_eq!(representation, ValueRepresentation::Scalar(ScalarType::I32));
    assert_eq!(projections.len(), 2);
    assert_eq!(projections[0].element, ProjectionElement::Field { offset: 8 });
    assert_eq!(projections[0].parent, None);
    assert_eq!(projections[0].drop_plan, Some(DropPlanId::from_index(0)));
    assert_eq!(projections[1].parent, Some(ProjectionPathId::from_index(0)));
    assert_eq!(projections[1].drop_plan, None);
    assert_eq!(plans, vec![DropPlan::Direct { destructor: DefId::from_index(3) }]);

    let (again, _) = push_field_place(base, &[outer], &model(), &mut projections, &mut plans).unwrap();
    assert_eq!(again, Place::projected(LocalId::from_index(1), ProjectionPathId::from_index(0)));
    assert_eq!(projections.len(), 2);
    assert_eq!(plans.len(), 1);
}

#[test]
fn field_places_need_a_step_and_plans_for_moved_fields() {
    let mut projections = Vec::new();
    let mut plans = Vec::new();
    let base = Place::local(LocalId::from_index(1));
    assert_eq!(
        push_field_place(base, &[], &model(), &mut projections, &mut plans),
        Err(BuildError::UnsupportedClaimedExpression)
    );
    let unplannable = segment(0, 2, ValueRepresentation::Aggregate, OwnershipKind::Move);
    assert_eq!(
        push_field_place(base, &[unplannable], &model(), &mut projections, &mut plans),
        Err(BuildError::UnsupportedClaimedExpression)
    );
    assert!(projections.is_empty());
}
