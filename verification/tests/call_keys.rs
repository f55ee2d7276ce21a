use mir::calls::{CallInstance, CallInstanceKey, LiteralSegment, MonoItemRegistry};
use mir::semantic::{
    ByteSpan, CallableCapability, DefId, GenericType, IntrinsicId, LiteralShape, MonoItemId,
    SequenceSpreadMode, SourceId, TyId, TypeExpr, TypeIdentity, TypeReference, TypeTable,
};

fn reference(name: &str) -> TypeExpr {
    TypeExpr::Reference(TypeReference {
        span: ByteSpan::new(SourceId::new(0), 0, 1),
        name: name.to_string(),
    })
}

fn generic(name: &str, arguments: Vec<TypeExpr>) -> TypeExpr {
    TypeExpr::Generic(GenericType {
        span: ByteSpan::new(SourceId::new(0), 0, 1),
        name: name.to_string(),
        name_span: ByteSpan::new(SourceId::new(0), 0, 1),
        arguments,
    })
}

#[test]
fn registry_requires_an_exact_structured_instance_key() {
    let definition = DefId::from_index(4);
    let receiver = TypeExpr::Generic(GenericType {
        span: ByteSpan::new(SourceId::new(0), 0, 1),
        name: "package.Box".to_string(),
        name_span: ByteSpan::new(SourceId::new(0), 0, 1),
        arguments: vec![reference("i32")],
    });
    let key = CallInstanceKey::from_types(definition, Some(&receiver), &[&reference("bool")]);
    let different = CallInstanceKey::from_types(definition, Some(&receiver), &[&reference("usize")]);
    let mut registry = MonoItemRegistry::default();
    let id = registry.insert(key.clone(), "Box<bool>.call");
    assert_eq!(registry.resolve(&key), Some(id));
    assert_eq!(registry.value_for(&key), Some(&"Box<bool>.call"));
    assert_eq!(registry.resolve(&different), None);
}

#[test]
fn type_identity_ignores_spans_and_keeps_structure() {
    let here = TypeExpr::Reference(TypeReference {
        span: ByteSpan::new(SourceId::new(1), 4, 7),
        name: "i32".to_string(),
    });
    assert!(TypeIdentity::of(&here).same(&TypeIdentity::of(&reference("i32"))));
    assert!(!TypeIdentity::of(&reference("i32")).same(&TypeIdentity::of(&reference("u8"))));
    let nested = generic("Pair", vec![generic("Box", vec![reference("i32")]), reference("bool")]);
    let flat = generic("Pair", vec![generic("Box", vec![]), reference("i32"), reference("bool")]);
    assert!(!TypeIdentity::of(&nested).same(&TypeIdentity::of(&flat)));
    assert!(TypeIdentity::of(&nested).same(&TypeIdentity::of(&generic(
        "Pair",
        vec![generic("Box", vec![reference("i32")]), reference("bool")],
    ))));
}

#[test]
fn inserting_a_key_twice_keeps_its_first_identity_and_value() {
    let key = CallInstanceKey::from_types(DefId::from_index(1), None, &[]);
    let other = CallInstanceKey::from_types(DefId::from_index(2), None, &[]);
    let mut registry = MonoItemRegistry::default();
    let first = registry.insert(key.clone(), 10);
    let second = registry.insert(other.clone(), 20);
    let again = registry.insert(key.clone(), 30);
    assert_eq!(first, MonoItemId::from_index(0));
    assert_eq!(second, MonoItemId::from_index(1));
    assert_eq!(again, first);
    assert_eq!(registry.value_for(&key), Some(&10));
    assert_eq!(registry.get(second), Some(&20));
    assert_eq!(registry.get(MonoItemId::from_index(2)), None);
}

#[test]
fn registry_from_entries_keeps_the_first_of_equal_keys() {
    let key = CallInstanceKey::from_callable_type(&reference("fn"), CallableCapability::Shared);
    let once = CallInstanceKey::from_callable_type(&reference("fn"), CallableCapability::Once);
    let registry = MonoItemRegistry::from_entries(vec![
        (key.clone(), "shared"),
        (once.clone(), "once"),
        (key.clone(), "again"),
    ]);
    assert_eq!(registry.resolve(&key), Some(MonoItemId::from_index(0)));
    assert_eq!(registry.resolve(&once), Some(MonoItemId::from_index(1)));
    assert_eq!(registry.value_for(&key), Some(&"shared"));
    assert_eq!(registry.get(MonoItemId::from_index(2)), None);
}

#[test]
fn literal_keys_distinguish_spread_segments() {
    let definition = DefId::from_index(3);
    let vec_type = reference("Vec");
    let iterator = reference("Range");
    let values = CallInstanceKey::from_literal_types(
        definition,
        LiteralShape::Sequence,
        &vec_type,
        &[(None, None)],
    );
    let spread = CallInstanceKey::from_literal_types(
        definition,
        LiteralShape::Sequence,
        &vec_type,
        &[(Some(SequenceSpreadMode::Owned), Some(&iterator))],
    );
    let borrowed = CallInstanceKey::from_literal_types(
        definition,
        LiteralShape::Sequence,
        &vec_type,
        &[(Some(SequenceSpreadMode::Borrowed), Some(&iterator))],
    );
    assert!(!values.same(&spread));
    assert!(!spread.same(&borrowed));
    assert!(spread.same(&spread.clone()));
    assert_ne!(values, spread);
}

#[test]
fn instance_keys_look_their_types_up() {
    let table = TypeTable {
        types: vec![reference("i32"), reference("bool"), reference("fn"), reference("Range")],
    };
    let specialized = CallInstance::specialized(
        DefId::from_index(5),
        Some(TyId::from_index(0)),
        vec![TyId::from_index(1)],
    );
    let expected = CallInstanceKey::from_types(
        DefId::from_index(5),
        Some(&reference("i32")),
        &[&reference("bool")],
    );
    assert_eq!(CallInstanceKey::from_instance(&specialized, &table), Some(expected));

    let missing = CallInstance::specialized(DefId::from_index(5), None, vec![TyId::from_index(9)]);
    assert_eq!(CallInstanceKey::from_instance(&missing, &table), None);

    let intrinsic = CallInstance::intrinsic(IntrinsicId::from_index(0));
    assert_eq!(CallInstanceKey::from_instance(&intrinsic, &table), None);

    let value = CallInstance::value(TyId::from_index(2), CallableCapability::Mutable);
    assert_eq!(
        CallInstanceKey::from_instance(&value, &table),
        Some(CallInstanceKey::from_callable_type(&reference("fn"), CallableCapability::Mutable))
    );

    let literal = CallInstance::literal(
        DefId::from_index(6),
        LiteralShape::Collection,
        TyId::from_index(1),
        vec![
            LiteralSegment::Value,
            LiteralSegment::Spread { mode: SequenceSpreadMode::Owned, iterator: TyId::from_index(3) },
        ],
    );
    let range = reference("Range");
    assert_eq!(
        CallInstanceKey::from_instance(&literal, &table),
        Some(CallInstanceKey::from_literal_types(
            DefId::from_index(6),
            LiteralShape::Collection,
            &reference("bool"),
            &[(None, None), (Some(SequenceSpreadMode::Owned), Some(&range))],
        ))
    );

    let broken = CallInstance::literal(
        DefId::from_index(6),
        LiteralShape::Collection,
        TyId::from_index(1),
        vec![LiteralSegment::Spread { mode: SequenceSpreadMode::Owned, iterator: TyId::from_index(8) }],
    );
    assert_eq!(CallInstanceKey::from_instance(&broken, &table), None);
}
