//! Shared native contracts projected from checked source types.
//!
//! MIR construction, buildability, and machine-IR projection must agree on
//! one return representation. This module maps the ABI class of a resolved
//! callable result type onto MIR's logical representation.

use crate::locals::{ScalarType, ValueRepresentation, ViewKind};
use crate::semantic::IntegerType;
use vstd::prelude::*;

verus! {

/// The ABI class of a value, as far as MIR reads it.
#[derive(Debug, Clone, Copy, PartialEq, Eq, Structural)]
pub enum AbiType {
    Bool,
    Pointer,
    StrView,
    SliceView,
    Borrow,
    Array,
    Struct,
    Enum,
    Outcome,
    Integer(IntegerType),
}

impl AbiType {
    /// The integer type of an integer class.
    pub fn integer_type(&self) -> (kind: Option<IntegerType>)
        ensures
            kind == (match *self {
                AbiType::Integer(integer) => Some(integer),
                _ => None::<IntegerType>,
            }),
    {
        match self {
            AbiType::Integer(kind) => Some(*kind),
            _ => None,
        }
    }
}

/// A value of an ABI class.
#[derive(Debug, Clone, Copy, PartialEq, Eq, Structural)]
pub struct AbiValue {
    pub ty: AbiType,
}

/// What a callable returns, by ABI class.
#[derive(Debug, Clone, Copy, PartialEq, Eq, Structural)]
pub enum AbiTypeContract {
    Void,
    Never,
    Error,
    Value(AbiValue),
}

/// The scalar type of an integer type.
pub open spec fn integer_scalar(kind: IntegerType) -> ScalarType {
    match kind {
        IntegerType::I32 => ScalarType::I32,
        IntegerType::U8 => ScalarType::U8,
        IntegerType::Usize => ScalarType::Usize,
        kind => ScalarType::Integer(kind),
    }
}

/// The logical representation of a value of ABI class `ty`.
pub open spec fn representation_of(ty: AbiType) -> Option<ValueRepresentation> {
    match ty {
        AbiType::Bool => Some(ValueRepresentation::Scalar(ScalarType::Bool)),
        AbiType::Pointer => Some(ValueRepresentation::Scalar(ScalarType::Usize)),
        AbiType::StrView => Some(ValueRepresentation::View(ViewKind::Str)),
        AbiType::SliceView => Some(ValueRepresentation::View(ViewKind::Slice)),
        AbiType::Borrow => Some(ValueRepresentation::Borrow),
        AbiType::Array | AbiType::Struct | AbiType::Enum | AbiType::Outcome => Some(
            ValueRepresentation::Aggregate,
        ),
        AbiType::Integer(kind) => Some(ValueRepresentation::Scalar(integer_scalar(kind))),
    }
}

/// The logical representation of what a callable with `contract` returns.
pub open spec fn contract_representation(contract: AbiTypeContract) -> Option<ValueRepresentation> {
    match contract {
        AbiTypeContract::Void | AbiTypeContract::Never => Some(ValueRepresentation::Unit),
        AbiTypeContract::Error => Some(ValueRepresentation::Error),
        AbiTypeContract::Value(value) => representation_of(value.ty),
    }
}

/// The logical representation of what a callable with `contract` returns.
pub fn value_representation(contract: &AbiTypeContract) -> (representation: Option<ValueRepresentation>)
    ensures
        representation == contract_representation(*contract),
{
    match contract {
        AbiTypeContract::Void | AbiTypeContract::Never => Some(ValueRepresentation::Unit),
        AbiTypeContract::Error => Some(ValueRepresentation::Error),
        AbiTypeContract::Value(value) => match value.ty {
            AbiType::Bool => Some(ValueRepresentation::Scalar(ScalarType::Bool)),
            AbiType::Pointer => Some(ValueRepresentation::Scalar(ScalarType::Usize)),
            AbiType::StrView => Some(ValueRepresentation::View(ViewKind::Str)),
            AbiType::SliceView => Some(ValueRepresentation::View(ViewKind::Slice)),
            AbiType::Borrow => Some(ValueRepresentation::Borrow),
            AbiType::Array | AbiType::Struct | AbiType::Enum | AbiType::Outcome => Some(
                ValueRepresentation::Aggregate,
            ),
            ty => match scalar_type(&ty) {
                Some(scalar) => Some(ValueRepresentation::Scalar(scalar)),
                None => None,
            },
        },
    }
}

/// The scalar type of an integer ABI class.
pub fn scalar_type(ty: &AbiType) -> (scalar: Option<ScalarType>)
    ensures
        scalar == (match *ty {
            AbiType::Integer(kind) => Some(integer_scalar(kind)),
            _ => None::<ScalarType>,
        }),
{
    let kind = match ty.integer_type() {
        Some(kind) => kind,
        None => return None,
    };
    Some(
        match kind {
            IntegerType::I32 => ScalarType::I32,
            IntegerType::U8 => ScalarType::U8,
            IntegerType::Usize => ScalarType::Usize,
            kind => ScalarType::Integer(kind),
        },
    )
}


/// Views are represented by their own kind, and nothing else is a view:
/// exactly the string view class returns a string view, and exactly the
/// slice view class a slice view.
pub proof fn lemma_view_representations(contract: AbiTypeContract)
    ensures
        contract_representation(contract) == Some(ValueRepresentation::View(ViewKind::Str)) <==> contract
            == AbiTypeContract::Value(AbiValue { ty: AbiType::StrView }),
        contract_representation(contract) == Some(ValueRepresentation::View(ViewKind::Slice)) <==> contract
            == AbiTypeContract::Value(AbiValue { ty: AbiType::SliceView }),
{
}

/// Every value class has a representation, and it keeps what matters of
/// the class: aggregates are represented as aggregates, borrows as borrows,
/// booleans as boolean scalars, and nothing else is.
pub proof fn lemma_value_class_representations(ty: AbiType)
    ensures
        representation_of(ty) is Some,
        representation_of(ty) == Some(ValueRepresentation::Aggregate) <==> (ty == AbiType::Array || ty
            == AbiType::Struct || ty == AbiType::Enum || ty == AbiType::Outcome),
        representation_of(ty) == Some(ValueRepresentation::Borrow) <==> ty == AbiType::Borrow,
        representation_of(ty) == Some(ValueRepresentation::Scalar(ScalarType::Bool)) <==> ty == AbiType::Bool,
{
}

/// Callables that return nothing are represented as unit, and failing ones
/// as errors; a value contract is represented as its class.
pub proof fn lemma_contract_representations(contract: AbiTypeContract)
    ensures
        contract_representation(contract) == Some(ValueRepresentation::Unit) <==> (contract == AbiTypeContract::Void
            || contract == AbiTypeContract::Never),
        contract_representation(contract) == Some(ValueRepresentation::Error) <==> contract
            == AbiTypeContract::Error,
        contract matches AbiTypeContract::Value(value) ==> contract_representation(contract) == representation_of(
            value.ty,
        ),
{
}

} // verus!

