use mir::drop_plans::DropPlan;
use mir::ids::{DropPlanId, LocalId, ScopeId};
use mir::locals::{Local, LocalOrigin, LocalStorage, OwnershipKind, ScalarType, ValueRepresentation};
use mir::lower::parameters::{add_parameter_locals, return_local_of, ParameterFacts, ReturnFacts};
use mir::lower::BuildError;
use mir::resolution::{ResolveModel, TypeFacts, TypeShape, TypeSymbolKind};
use mir::semantic::{DefId, LocalSymbolId, TyId};

fn model() -> ResolveModel {
    let handle = TypeShape {
        symbol: 0,
        kind: TypeSymbolKind::Struct,
        destructor: Some(DefId::from_index(3)),
        fields: Vec::new(),
        variants: Vec::new(),
        alias_target: None,
    };
    let reader = TypeShape {
        symbol: 1,
        kind: TypeSymbolKind::Interface,
        destructor: None,
        fields: Vec::new(),
        variants: Vec::new(),
        alias_target: None,
    };
    ResolveModel {
        symbol_count: 2,
        types: vec![
            TypeFacts { copy: Some(true), shape: None },
            TypeFacts { copy: Some(false), shape: Some(handle) },
            TypeFacts { copy: Some(false), shape: Some(reader) },
        ],
    }
}

fn parameter(symbol: usize, ty: usize, representation: ValueRepresentation) -> ParameterFacts {
    ParameterFacts {
        symbol: Some(LocalSymbolId::from_index(symbol)),
        ty: Some(TyId::from_index(ty)),
        representation: Some(representation),
        readwrite: None,
    }
}

fn return_local() -> Local {
    Local::unit(TyId::from_index(0), LocalStorage::Return, LocalOrigin::Return, ScopeId::from_index(0))
}

#[test]
fn parameters_become_locals_in_order() {
    let mut locals = vec![return_local()];
    let mut bindings = Vec::new();
    let mut plans = Vec::new();
    let mut borrowed = parameter(5, 0, ValueRepresentation::Borrow);
    borrowed.readwrite = Some(true);
    let parameters = [
        parameter(4, 0, ValueRepresentation::Scalar(ScalarType::I32)),
        borrowed,
        parameter(6, 1, ValueRepresentation::Aggregate),
    ];
    let root = ScopeId::from_index(0);
    assert_eq!(add_parameter_locals(&mut locals, &mut bindings, &mut plans, &parameters, &model(), root), Ok(()));
    assert_eq!(locals.len(), 4);
    assert_eq!(
        locals[1],
        Local::scalar(
            TyId::from_index(0),
            ScalarType::I32,
            LocalStorage::Parameter { ordinal: 0 },
            LocalOrigin::Parameter(LocalSymbolId::from_index(4)),
            root,
        )
    );
    assert_eq!(locals[2].ownership, OwnershipKind::Borrowed { readwrite: true });
    assert_eq!(locals[2].storage, LocalStorage::Parameter { ordinal: 1 });
    assert_eq!(locals[3].ownership, OwnershipKind::Move);
    assert_eq!(locals[3].drop_plan, Some(DropPlanId::from_index(0)));
    assert_eq!(plans, vec![DropPlan::Direct { destructor: DefId::from_index(3) }]);
    assert_eq!(
        bindings,
        vec![
            (LocalSymbolId::from_index(4), LocalId::from_index(1)),
            (LocalSymbolId::from_index(5), LocalId::from_index(2)),
            (LocalSymbolId::from_index(6), LocalId::from_index(3)),
        ]
    );
}

#[test]
fn copied_aggregate_parameters_have_no_plan() {
    let mut locals = vec![return_local()];
    let mut bindings = Vec::new();
    let mut plans = Vec::new();
    let parameters = [parameter(4, 0, ValueRepresentation::Aggregate)];
    let root = ScopeId::from_index(0);
    assert_eq!(add_parameter_locals(&mut locals, &mut bindings, &mut plans, &parameters, &model(), root), Ok(()));
    assert_eq!(locals[1].ownership, OwnershipKind::Copy);
    assert_eq!(locals[1].drop_plan, None);
    assert!(plans.is_empty());
}

#[test]
fn parameter_errors_come_from_the_first_failing_parameter() {
    let root = ScopeId::from_index(0);
    let mut missing_symbol = parameter(4, 0, ValueRepresentation::Unit);
    missing_symbol.symbol = None;
    let mut missing_type = parameter(4, 0, ValueRepresentation::Unit);
    missing_type.ty = None;
    let unsupported_borrow = parameter(4, 0, ValueRepresentation::Borrow);
    let unplannable = parameter(4, 2, ValueRepresentation::Aggregate);
    for (parameters, expected) in [
        (vec![missing_type, missing_symbol], BuildError::MissingParameterType),
        (vec![missing_symbol], BuildError::MissingLocalSymbol),
        (vec![unsupported_borrow], BuildError::UnsupportedClaimedExpression),
        (vec![unplannable], BuildError::UnsupportedClaimedExpression),
    ] {
        let mut locals = vec![return_local()];
        let mut bindings = Vec::new();
        let mut plans = Vec::new();
        assert_eq!(
            add_parameter_locals(&mut locals, &mut bindings, &mut plans, &parameters, &model(), root),
            Err(expected)
        );
    }
}

fn returning(ty: usize, representation: ValueRepresentation, outcome: bool) -> ReturnFacts {
    ReturnFacts { ty: TyId::from_index(ty), representation, readwrite: None, outcome }
}

#[test]
fn a_moved_result_gets_its_plan_unless_it_is_an_outcome() {
    let root = ScopeId::from_index(0);
    let mut plans = Vec::new();
    let local = return_local_of(&returning(1, ValueRepresentation::Aggregate, false), &model(), root, &mut plans).unwrap();
    assert_eq!(local.ownership, OwnershipKind::Move);
    assert_eq!(local.storage, LocalStorage::Return);
    assert_eq!(local.origin, LocalOrigin::Return);
    assert_eq!(local.drop_plan, Some(DropPlanId::from_index(0)));
    assert_eq!(plans.len(), 1);
    let mut plans = Vec::new();
    let local = return_local_of(&returning(1, ValueRepresentation::Aggregate, true), &model(), root, &mut plans).unwrap();
    assert_eq!(local.ownership, OwnershipKind::Move);
    assert_eq!(local.drop_plan, None);
    assert!(plans.is_empty());
}

#[test]
fn scalar_and_copied_results_need_no_plan() {
    let root = ScopeId::from_index(0);
    let mut plans = Vec::new();
    let scalar = return_local_of(
        &returning(0, ValueRepresentation::Scalar(ScalarType::Bool), false),
        &model(),
        root,
        &mut plans,
    );
    assert_eq!(
        scalar,
        Ok(Local::scalar(TyId::from_index(0), ScalarType::Bool, LocalStorage::Return, LocalOrigin::Return, root))
    );
    let copied = return_local_of(&returning(0, ValueRepresentation::Aggregate, false), &model(), root, &mut plans).unwrap();
    assert_eq!(copied.ownership, OwnershipKind::Copy);
    assert!(plans.is_empty());
}

#[test]
fn unsupported_results_are_reported() {
    let root = ScopeId::from_index(0);
    let mut plans = Vec::new();
    for (facts, expected) in [
        (returning(9, ValueRepresentation::Aggregate, false), BuildError::MissingTypedExpression),
        (returning(0, ValueRepresentation::Borrow, false), BuildError::UnsupportedClaimedExpression),
        (returning(0, ValueRepresentation::Error, false), BuildError::UnsupportedClaimedExpression),
        (returning(2, ValueRepresentation::Aggregate, false), BuildError::UnsupportedClaimedExpression),
    ] {
        assert_eq!(return_local_of(&facts, &model(), root, &mut plans), Err(expected));
    }
}
