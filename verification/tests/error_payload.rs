use mir::contracts::{value_representation, scalar_type, AbiType, AbiTypeContract, AbiValue};
use mir::error_values::{static_error_payload, StaticErrorPayload};
use mir::ids::{BasicBlockId, LocalId, ScopeId};
use mir::locals::{ScalarType, ValueRepresentation, ViewKind};
use mir::model::{BasicBlock, Body, Operand, Origin, Place, ReturnMode, Rvalue, Scope, Statement, Terminator};
use mir::semantic::{BodyId, ByteSpan, ExprId, IntegerType, SourceId, TyId};

fn helper(statements: Vec<Statement>, terminator: Terminator) -> Body {
    let span = ByteSpan::new(SourceId::new(0), 0, 1);
    Body {
        source_body: BodyId::from_index(0),
        source_span: span,
        return_local: LocalId::from_index(0),
        return_mode: ReturnMode::Plain,
        root_scope: ScopeId::from_index(0),
        scopes: vec![Scope::root(span)],
        locals: Vec::new(),
        entry: BasicBlockId::from_index(0),
        blocks: vec![BasicBlock { scope: ScopeId::from_index(0), statements, terminator }],
        loop_regions: Vec::new(),
        allocation_regions: Vec::new(),
        allocation_overrides: Vec::new(),
        loans: Vec::new(),
        projections: Vec::new(),
        drop_plans: Vec::new(),
    }
}

fn text(bytes: &[u8]) -> Operand {
    Operand::StaticStr { ty: TyId::from_index(0), bytes: bytes.to_vec() }
}

fn error_into(local: usize, code: Operand, message: Operand) -> Statement {
    Statement::Assign {
        destination: Place::local(LocalId::from_index(local)),
        value: Rvalue::Error { code, message },
        origin: Origin::Expression(ExprId::from_index(0)),
    }
}

#[test]
fn static_error_helper_yields_its_payload() {
    let body = helper(vec![error_into(0, text(b"E1"), text(b"broken"))], Terminator::Return);
    assert_eq!(
        static_error_payload(&body),
        Some(StaticErrorPayload { code: b"E1".to_vec(), message: b"broken".to_vec() })
    );
}

#[test]
fn other_shapes_have_no_static_payload() {
    let into_other = helper(vec![error_into(1, text(b"E1"), text(b"m"))], Terminator::Return);
    assert_eq!(static_error_payload(&into_other), None);
    let not_returning = helper(vec![error_into(0, text(b"E1"), text(b"m"))], Terminator::Trap);
    assert_eq!(static_error_payload(&not_returning), None);
    let dynamic = helper(
        vec![error_into(0, Operand::Copy(Place::local(LocalId::from_index(1))), text(b"m"))],
        Terminator::Return,
    );
    assert_eq!(static_error_payload(&dynamic), None);
    let two = helper(
        vec![error_into(0, text(b"E1"), text(b"m")), error_into(0, text(b"E2"), text(b"m"))],
        Terminator::Return,
    );
    assert_eq!(static_error_payload(&two), None);
}

#[test]
fn return_contracts_map_to_representations() {
    assert_eq!(value_representation(&AbiTypeContract::Void), Some(ValueRepresentation::Unit));
    assert_eq!(value_representation(&AbiTypeContract::Never), Some(ValueRepresentation::Unit));
    assert_eq!(value_representation(&AbiTypeContract::Error), Some(ValueRepresentation::Error));
    let value = |ty| AbiTypeContract::Value(AbiValue { ty });
    assert_eq!(
        value_representation(&value(AbiType::Pointer)),
        Some(ValueRepresentation::Scalar(ScalarType::Usize))
    );
    assert_eq!(
        value_representation(&value(AbiType::SliceView)),
        Some(ValueRepresentation::View(ViewKind::Slice))
    );
    assert_eq!(value_representation(&value(AbiType::Struct)), Some(ValueRepresentation::Aggregate));
    assert_eq!(
        value_representation(&value(AbiType::Integer(IntegerType::I64))),
        Some(ValueRepresentation::Scalar(ScalarType::Integer(IntegerType::I64)))
    );
    assert_eq!(scalar_type(&AbiType::Integer(IntegerType::U8)), Some(ScalarType::U8));
    assert_eq!(scalar_type(&AbiType::Bool), None);
}

