//! Construction of checked MIR bodies: the errors a construction reports
//! and the construction-only state that lowering threads through.

pub mod body_builder;
pub mod context;
pub mod coverage;
pub mod explicit_drops;
pub mod parameters;
pub mod projections;
pub mod statements;
pub mod syntax;

use crate::validate::ValidationError;
use vstd::prelude::*;

verus! {

/// Why a body could not be built.
#[derive(Debug, PartialEq, Eq)]
pub enum BuildError {
    MissingSourceBody,
    MissingTypedExpression,
    MissingSpecializedReceiverType,
    MissingMethodReceiverType,
    MissingCallExpression,
    InvalidScalarConstant,
    MissingLocalSymbol,
    MissingParameterType,
    MissingCallTarget,
    MissingOpenBlock,
    OpenBlockNotTerminated,
    BlockAlreadyTerminated,
    UnterminatedReservedBlock,
    UnsupportedClaimedExpression,
    Context { operation: &'static str, source: Box<BuildError> },
    ClosurePreparation(&'static str),
    ClosureBody(Box<BuildError>),
    InvalidMir(Vec<ValidationError>),
}

/// Two errors say the same: equal variants and fields, nested errors that
/// say the same, and validation errors listed alike.
pub open spec fn same_error(a: BuildError, b: BuildError) -> bool
    decreases a,
{
    match (a, b) {
        (
            BuildError::Context { operation: first, source: inner },
            BuildError::Context { operation: second, source: other },
        ) => first == second && same_error(*inner, *other),
        (BuildError::ClosureBody(inner), BuildError::ClosureBody(other)) => same_error(*inner, *other),
        (BuildError::InvalidMir(first), BuildError::InvalidMir(second)) => first@ == second@,
        (BuildError::Context { .. }, _) => false,
        (BuildError::ClosureBody(_), _) => false,
        (BuildError::InvalidMir(_), _) => false,
        _ => a == b,
    }
}

/// Saying the same is symmetric and transitive.
pub proof fn lemma_alike_errors(a: BuildError, b: BuildError, c: BuildError)
    ensures
        same_error(a, b) ==> same_error(b, a),
        same_error(a, b) && same_error(b, c) ==> same_error(a, c),
    decreases a,
{
    match (a, b) {
        (BuildError::Context { source: x, .. }, BuildError::Context { source: y, .. }) => {
            match c {
                BuildError::Context { source: z, .. } => lemma_alike_errors(*x, *y, *z),
                _ => lemma_alike_errors(*x, *y, *y),
            }
        },
        (BuildError::ClosureBody(x), BuildError::ClosureBody(y)) => {
            match c {
                BuildError::ClosureBody(z) => lemma_alike_errors(*x, *y, *z),
                _ => lemma_alike_errors(*x, *y, *y),
            }
        },
        _ => {},
    }
}

impl Clone for BuildError {
    fn clone(&self) -> (copy: Self)
        ensures
            same_error(*self, copy),
        decreases self,
    {
        match self {
            BuildError::MissingSourceBody => BuildError::MissingSourceBody,
            BuildError::MissingTypedExpression => BuildError::MissingTypedExpression,
            BuildError::MissingSpecializedReceiverType => BuildError::MissingSpecializedReceiverType,
            BuildError::MissingMethodReceiverType => BuildError::MissingMethodReceiverType,
            BuildError::MissingCallExpression => BuildError::MissingCallExpression,
            BuildError::InvalidScalarConstant => BuildError::InvalidScalarConstant,
            BuildError::MissingLocalSymbol => BuildError::MissingLocalSymbol,
            BuildError::MissingParameterType => BuildError::MissingParameterType,
            BuildError::MissingCallTarget => BuildError::MissingCallTarget,
            BuildError::MissingOpenBlock => BuildError::MissingOpenBlock,
            BuildError::OpenBlockNotTerminated => BuildError::OpenBlockNotTerminated,
            BuildError::BlockAlreadyTerminated => BuildError::BlockAlreadyTerminated,
            BuildError::UnterminatedReservedBlock => BuildError::UnterminatedReservedBlock,
            BuildError::UnsupportedClaimedExpression => BuildError::UnsupportedClaimedExpression,
            BuildError::Context { operation, source } => BuildError::Context {
                operation,
                source: Box::new((**source).clone()),
            },
            BuildError::ClosurePreparation(operation) => BuildError::ClosurePreparation(operation),
            BuildError::ClosureBody(source) => BuildError::ClosureBody(Box::new((**source).clone())),
            BuildError::InvalidMir(errors) => BuildError::InvalidMir(errors.clone()),
        }
    }
}

impl BuildError {
    /// Wraps this error with the operation that was under way.
    pub fn context(self, operation: &'static str) -> (error: Self)
        ensures
            error == (BuildError::Context { operation, source: Box::new(self) }),
    {
        BuildError::Context { operation, source: Box::new(self) }
    }
}

} // verus!
