use mir::calls::{CallInstance, CallInstanceKey};
use mir::drop_plans::{DropPlan, DropPlanField, DropPlanVariant};
use mir::ids::{BasicBlockId, DropPlanId, LocalId, ScopeId};
use mir::index::{BodyCache, BodyInstanceKey};
use mir::lower::BuildError;
use mir::model::{
    BasicBlock, Body, CallArgument, CallContinuation, Operand, Origin, Place, ReturnMode, Rvalue, Scope,
    Statement, Terminator, VariantLeaf,
};
use mir::names::name_precedes;
use mir::semantic::{BodyId, ByteSpan, DefId, ExprId, LiteralShape, SourceId, TyId, TypeExpr, TypeReference};

fn named_type(name: &str) -> TypeExpr {
    TypeExpr::Reference(TypeReference {
        span: ByteSpan::new(SourceId::new(0), 0, 1),
        name: name.to_string(),
    })
}

fn returning_body(index: usize) -> Body {
    let span = ByteSpan::new(SourceId::new(0), 0, 1);
    Body {
        source_body: BodyId::from_index(index),
        source_span: span,
        return_local: LocalId::from_index(0),
        return_mode: ReturnMode::Plain,
        root_scope: ScopeId::from_index(0),
        scopes: vec![Scope::root(span)],
        locals: Vec::new(),
        entry: BasicBlockId::from_index(0),
        blocks: vec![BasicBlock {
            scope: ScopeId::from_index(0),
            statements: Vec::new(),
            terminator: Terminator::Return,
        }],
        loop_regions: Vec::new(),
        allocation_regions: Vec::new(),
        allocation_overrides: Vec::new(),
        loans: Vec::new(),
        projections: Vec::new(),
        drop_plans: Vec::new(),
    }
}

#[test]
fn body_instance_key_is_order_independent_and_type_sensitive() {
    let body = BodyId::from_index(7);
    let source = SourceId::new(2);
    let first = vec![
        ("T".to_string(), named_type("i32")),
        ("U".to_string(), named_type("bool")),
    ];
    let reordered = vec![
        ("U".to_string(), named_type("bool")),
        ("T".to_string(), named_type("i32")),
    ];
    let different = vec![
        ("T".to_string(), named_type("usize")),
        ("U".to_string(), named_type("bool")),
    ];

    assert_eq!(
        BodyInstanceKey::new(source, body, &first),
        BodyInstanceKey::new(source, body, &reordered)
    );
    assert_ne!(
        BodyInstanceKey::new(source, body, &first),
        BodyInstanceKey::new(source, body, &different)
    );
    assert_ne!(
        BodyInstanceKey::new(SourceId::new(3), body, &first),
        BodyInstanceKey::new(source, body, &first)
    );
}

#[test]
fn literal_instance_is_part_of_the_body_cache_identity() {
    let body = BodyId::from_index(7);
    let source = SourceId::new(2);
    let substitutions = vec![("T".to_string(), named_type("i32"))];
    let definition = DefId::from_index(3);
    let empty = CallInstanceKey::from_literal_types(
        definition,
        LiteralShape::Sequence,
        &named_type("Vec"),
        &[],
    );
    let populated = CallInstanceKey::from_literal_types(
        definition,
        LiteralShape::Sequence,
        &named_type("Vec"),
        &[(None, None), (None, None)],
    );
    assert_ne!(
        BodyInstanceKey::literal(source, body, &substitutions, empty),
        BodyInstanceKey::literal(source, body, &substitutions, populated),
    );
}

#[test]
fn keys_compare_by_structure() {
    let source = SourceId::new(2);
    let body = BodyId::from_index(7);
    let first = vec![
        ("B".to_string(), named_type("i32")),
        ("A".to_string(), named_type("bool")),
        ("AB".to_string(), named_type("u8")),
    ];
    let second = vec![
        ("AB".to_string(), named_type("u8")),
        ("B".to_string(), named_type("i32")),
        ("A".to_string(), named_type("bool")),
    ];
    let key = BodyInstanceKey::new(source, body, &first);
    assert!(key.same(&BodyInstanceKey::new(source, body, &second)));
    assert!(!key.same(&BodyInstanceKey::new(source, BodyId::from_index(8), &second)));
}

#[test]
fn names_are_ordered_by_character() {
    assert!(name_precedes(&"A".to_string(), &"AB".to_string()));
    assert!(name_precedes(&"AB".to_string(), &"B".to_string()));
    assert!(!name_precedes(&"B".to_string(), &"AB".to_string()));
    assert!(!name_precedes(&"T".to_string(), &"T".to_string()));
    assert!(name_precedes(&"".to_string(), &"a".to_string()));
    assert!(name_precedes(&"Z".to_string(), &"a".to_string()));
}

#[test]
fn cache_builds_each_instance_once() {
    let mut cache = BodyCache::default();
    let source = SourceId::new(1);
    let substitutions = vec![("T".to_string(), named_type("i32"))];
    let mut builds = 0;
    let first = cache.get_or_build_specialized(source, BodyId::from_index(4), &substitutions, || {
        builds += 1;
        Ok(returning_body(4))
    });
    assert_eq!(first, Ok(returning_body(4)));
    let second = cache.get_or_build_specialized(source, BodyId::from_index(4), &substitutions, || {
        builds += 1;
        Err(BuildError::MissingSourceBody)
    });
    assert_eq!(second, Ok(returning_body(4)));
    assert_eq!(builds, 1);
    assert_eq!(cache.len(), 1);

    let failed = cache.get_or_build_specialized(source, BodyId::from_index(5), &substitutions, || {
        Err(BuildError::MissingSourceBody)
    });
    assert_eq!(failed, Err(BuildError::MissingSourceBody));
    let cached_failure = cache.get_or_build_specialized(
        source,
        BodyId::from_index(5),
        &substitutions,
        || Ok(returning_body(5)),
    );
    assert_eq!(cached_failure, Err(BuildError::MissingSourceBody));
    assert_eq!(cache.len(), 2);

    let literal = CallInstanceKey::from_literal_types(
        DefId::from_index(3),
        LiteralShape::Sequence,
        &named_type("Vec"),
        &[],
    );
    let for_literal = cache.get_or_build_literal_specialized(
        source,
        BodyId::from_index(4),
        &substitutions,
        literal,
        || Ok(returning_body(6)),
    );
    assert_eq!(for_literal, Ok(returning_body(6)));
    assert_eq!(cache.len(), 3);
}

#[test]
fn a_cached_body_with_nested_contents_is_answered_alike() {
    let mut body = returning_body(8);
    body.blocks[0].statements.push(Statement::Assign {
        destination: Place::local(LocalId::from_index(0)),
        value: Rvalue::Variant {
            definition: DefId::from_index(2),
            leaves: vec![VariantLeaf {
                offset: 8,
                operand: Operand::StaticStr { ty: TyId::from_index(1), bytes: b"boom".to_vec() },
            }],
        },
        origin: Origin::Expression(ExprId::from_index(0)),
    });
    body.blocks.push(BasicBlock {
        scope: ScopeId::from_index(0),
        statements: Vec::new(),
        terminator: Terminator::Call {
            origin: Origin::Expression(ExprId::from_index(1)),
            callee: CallInstance::specialized(DefId::from_index(9), Some(TyId::from_index(3)), vec![TyId::from_index(4)]),
            arguments: vec![CallArgument { operand: Operand::Move(Place::local(LocalId::from_index(0))) }],
            continuation: CallContinuation::Continue { target: BasicBlockId::from_index(0) },
        },
    });
    body.drop_plans.push(DropPlan::Enum {
        variants: vec![DropPlanVariant {
            definition: DefId::from_index(5),
            fields: vec![DropPlanField { index: 0, ty: TyId::from_index(6), plan: DropPlanId::from_index(0) }],
        }],
    });

    let mut cache = BodyCache::default();
    let source = SourceId::new(1);
    let substitutions: Vec<(String, TypeExpr)> = Vec::new();
    let built = body.clone();
    let first = cache.get_or_build_specialized(source, BodyId::from_index(8), &substitutions, move || Ok(built));
    let second = cache.get_or_build_specialized(source, BodyId::from_index(8), &substitutions, || {
        Err(BuildError::MissingSourceBody)
    });
    assert_eq!(first, Ok(body.clone()));
    assert_eq!(second, Ok(body));
}
