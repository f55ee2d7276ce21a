use mir::drop_plans::{build, is_supported, DropPlan, DropPlanField, DropPlanVariant};
use mir::ids::{DropPlanId, LocalId, ScopeId};
use mir::locals::{LocalOrigin, OwnershipKind, ValueRepresentation};
use mir::lower::context::LoweringContext;
use mir::lower::BuildError;
use mir::model::Scope;
use mir::resolution::{ResolveModel, TypeFacts, TypeShape, TypeSymbolKind, VariantShape};
use mir::semantic::{ByteSpan, DefId, ExprId, SourceId, TyId};

fn facts(copy: Option<bool>, shape: Option<TypeShape>) -> TypeFacts {
    TypeFacts { copy, shape }
}

fn shape(symbol: usize, kind: TypeSymbolKind, destructor: Option<usize>) -> TypeShape {
    TypeShape {
        symbol,
        kind,
        destructor: destructor.map(DefId::from_index),
        fields: Vec::new(),
        variants: Vec::new(),
        alias_target: None,
    }
}

fn ty(index: usize) -> TyId {
    TyId::from_index(index)
}

/// Types: 0 `i32` (copied), 1 `Handle` (destructor 7), 2 `Pair { i32, Handle }`,
/// 3 `Token` (no destructor), 4 `Choice { A(Handle), B(i32) }`, 5 `Alias = Pair`,
/// 6 `Reader` (interface), 7 `Node { Node }` (recursive), 8 `Broken { A }` (variant
/// without definition), 9 `Guarded` (enum with destructor 5 and a payload).
fn model() -> ResolveModel {
    let mut pair = shape(2, TypeSymbolKind::Struct, None);
    pair.fields = vec![ty(0), ty(1)];
    let mut choice = shape(4, TypeSymbolKind::Enum, None);
    choice.variants = vec![
        VariantShape { definition: Some(DefId::from_index(40)), payload: vec![ty(1)] },
        VariantShape { definition: Some(DefId::from_index(41)), payload: vec![ty(0)] },
    ];
    let mut alias = shape(5, TypeSymbolKind::Alias, None);
    alias.alias_target = Some(ty(2));
    let mut node = shape(7, TypeSymbolKind::Struct, None);
    node.fields = vec![ty(7)];
    let mut broken = shape(8, TypeSymbolKind::Enum, None);
    broken.variants = vec![VariantShape { definition: None, payload: vec![ty(1)] }];
    let mut guarded = shape(9, TypeSymbolKind::Enum, Some(5));
    guarded.variants = vec![VariantShape { definition: Some(DefId::from_index(90)), payload: vec![ty(1)] }];
    ResolveModel {
        symbol_count: 10,
        types: vec![
            facts(Some(true), None),
            facts(Some(false), Some(shape(1, TypeSymbolKind::Struct, Some(7)))),
            facts(Some(false), Some(pair)),
            facts(Some(false), Some(shape(3, TypeSymbolKind::Struct, None))),
            facts(Some(false), Some(choice)),
            facts(Some(false), Some(alias)),
            facts(Some(false), Some(shape(6, TypeSymbolKind::Interface, None))),
            facts(Some(false), Some(node)),
            facts(Some(false), Some(broken)),
            facts(Some(false), Some(guarded)),
        ],
    }
}

#[test]
fn copied_types_need_no_plan() {
    let mut plans = Vec::new();
    assert_eq!(build(ty(0), &model(), &mut plans), None);
    assert!(plans.is_empty());
}

#[test]
fn unknown_types_have_no_plan() {
    let mut plans = Vec::new();
    assert_eq!(build(ty(42), &model(), &mut plans), None);
    assert!(plans.is_empty());
}

#[test]
fn a_destructor_alone_is_a_direct_plan() {
    let mut plans = Vec::new();
    assert_eq!(build(ty(1), &model(), &mut plans), Some(DropPlanId::from_index(0)));
    assert_eq!(plans, vec![DropPlan::Direct { destructor: DefId::from_index(7) }]);
}

#[test]
fn a_plain_moved_struct_is_a_noop_plan() {
    let mut plans = Vec::new();
    assert_eq!(build(ty(3), &model(), &mut plans), Some(DropPlanId::from_index(0)));
    assert_eq!(plans, vec![DropPlan::Noop]);
}

#[test]
fn struct_plans_keep_only_owned_fields_after_their_plans() {
    let mut plans = vec![DropPlan::Noop];
    assert_eq!(build(ty(2), &model(), &mut plans), Some(DropPlanId::from_index(2)));
    assert_eq!(
        plans,
        vec![
            DropPlan::Noop,
            DropPlan::Direct { destructor: DefId::from_index(7) },
            DropPlan::Struct {
                destructor: None,
                fields: vec![DropPlanField { index: 1, ty: ty(1), plan: DropPlanId::from_index(1) }],
            },
        ]
    );
}

#[test]
fn enum_plans_keep_variants_with_owned_payloads() {
    let mut plans = Vec::new();
    assert_eq!(build(ty(4), &model(), &mut plans), Some(DropPlanId::from_index(1)));
    assert_eq!(
        plans[1],
        DropPlan::Enum {
            variants: vec![DropPlanVariant {
                definition: DefId::from_index(40),
                fields: vec![DropPlanField { index: 0, ty: ty(1), plan: DropPlanId::from_index(0) }],
            }],
        }
    );
}

#[test]
fn an_enum_with_a_destructor_is_destroyed_directly() {
    let mut plans = Vec::new();
    assert_eq!(build(ty(9), &model(), &mut plans), Some(DropPlanId::from_index(1)));
    assert_eq!(plans[1], DropPlan::Direct { destructor: DefId::from_index(5) });
}

#[test]
fn aliases_are_planned_as_their_target() {
    let mut plans = Vec::new();
    assert_eq!(build(ty(5), &model(), &mut plans), Some(DropPlanId::from_index(1)));
    assert_eq!(plans.len(), 2);
    assert!(matches!(plans[1], DropPlan::Struct { destructor: None, .. }));
}

#[test]
fn interfaces_and_variants_without_definitions_have_no_plan() {
    let mut plans = Vec::new();
    assert_eq!(build(ty(6), &model(), &mut plans), None);
    assert_eq!(build(ty(8), &model(), &mut plans), None);
    assert!(!is_supported(ty(6), &model()));
    assert!(is_supported(ty(2), &model()));
}

#[test]
fn a_recursive_field_is_skipped() {
    let mut plans = Vec::new();
    assert_eq!(build(ty(7), &model(), &mut plans), Some(DropPlanId::from_index(0)));
    assert_eq!(plans, vec![DropPlan::Noop]);
}

fn context() -> LoweringContext {
    let span = ByteSpan::new(SourceId::new(0), 0, 1);
    LoweringContext::new(Vec::new(), Vec::new(), Vec::new(), ScopeId::from_index(0), Scope::root(span))
}

#[test]
fn aggregate_temporaries_of_copied_types_have_no_plan() {
    let mut context = context();
    let origin = LocalOrigin::Temporary(ExprId::from_index(3));
    let id = context.aggregate_temporary(ty(0), origin, ScopeId::from_index(0), &model());
    assert_eq!(id, Ok(LocalId::from_index(0)));
    assert_eq!(context.locals[0].ownership, OwnershipKind::Copy);
    assert_eq!(context.locals[0].representation, ValueRepresentation::Aggregate);
    assert_eq!(context.locals[0].drop_plan, None);
    assert!(context.drop_plans.is_empty());
}

#[test]
fn aggregate_temporaries_of_moved_types_carry_their_plan() {
    let mut context = context();
    let origin = LocalOrigin::Temporary(ExprId::from_index(3));
    let id = context.aggregate_temporary(ty(2), origin, ScopeId::from_index(0), &model());
    assert_eq!(id, Ok(LocalId::from_index(0)));
    assert_eq!(context.locals[0].ownership, OwnershipKind::Move);
    assert_eq!(context.locals[0].drop_plan, Some(DropPlanId::from_index(1)));
    assert_eq!(context.drop_plans.len(), 2);
}

#[test]
fn aggregate_temporaries_report_unknown_and_unplannable_types() {
    let mut context = context();
    let origin = LocalOrigin::Temporary(ExprId::from_index(3));
    assert_eq!(
        context.aggregate_temporary(ty(99), origin, ScopeId::from_index(0), &model()),
        Err(BuildError::MissingTypedExpression)
    );
    assert_eq!(
        context.aggregate_temporary(ty(6), origin, ScopeId::from_index(0), &model()),
        Err(BuildError::UnsupportedClaimedExpression)
    );
    assert!(context.locals.is_empty());
}
