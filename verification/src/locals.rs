//! MIR-local type, ownership, storage, and source-identity contracts.
//!
//! These axes deliberately remain independent. A semantic type does not
//! determine where one body-local value is stored, and path-sensitive
//! initialization is not a property of the type or its source declaration.

use crate::ids::{DropPlanId, ScopeId};
use crate::semantic::{ByteSpan, ExprId, IntegerType, LocalSymbolId, TyId};
use vstd::prelude::*;

verus! {

/// One body-local value.
#[derive(Debug, Clone, Copy, PartialEq, Eq, Structural)]
pub struct Local {
    pub ty: TyId,
    pub representation: ValueRepresentation,
    pub ownership: OwnershipKind,
    pub storage: LocalStorage,
    pub origin: LocalOrigin,
    pub scope: ScopeId,
    pub drop_plan: Option<DropPlanId>,
}

/// Logical representation of a value.
#[derive(Debug, Clone, Copy, PartialEq, Eq, Structural)]
pub enum ValueRepresentation {
    Unit,
    Scalar(ScalarType),
    Borrow,
    View(ViewKind),
    Error,
    Aggregate,
}

/// Kind of a borrowed view.
#[derive(Debug, Clone, Copy, PartialEq, Eq, Structural)]
pub enum ViewKind {
    Str,
    Slice,
}

/// Scalar machine types of MIR values.
#[derive(Debug, Clone, Copy, PartialEq, Eq, Structural)]
pub enum ScalarType {
    I32,
    U8,
    Usize,
    Integer(IntegerType),
    Bool,
}

/// Static ownership behavior of a local's type. Runtime initialization and
/// drop obligations are represented separately on control-flow paths.
#[derive(Debug, Clone, Copy, PartialEq, Eq, Structural)]
pub enum OwnershipKind {
    Copy,
    Move,
    Borrowed { readwrite: bool },
}

/// Where a local is stored.
#[derive(Debug, Clone, Copy, PartialEq, Eq, Structural)]
pub enum LocalStorage {
    Return,
    Parameter { ordinal: usize },
    Local,
}

/// The source construct a local stands for.
#[derive(Debug, Clone, Copy, PartialEq, Eq, Structural)]
pub enum LocalOrigin {
    Return,
    Parameter(LocalSymbolId),
    CallableReceiver(ExprId),
    Binding(LocalSymbolId),
    Temporary(ExprId),
    Desugared(ByteSpan),
}

impl Local {
    /// A unit-valued local.
    pub fn unit(ty: TyId, storage: LocalStorage, origin: LocalOrigin, scope: ScopeId) -> (local: Self)
        ensures
            local == (Local {
                ty,
                representation: ValueRepresentation::Unit,
                ownership: OwnershipKind::Copy,
                storage,
                origin,
                scope,
                drop_plan: None,
            }),
    {
        Local {
            ty,
            representation: ValueRepresentation::Unit,
            ownership: OwnershipKind::Copy,
            storage,
            origin,
            scope,
            drop_plan: None,
        }
    }

    /// The same local, carrying the given destruction plan.
    pub fn with_drop_plan(self, plan: DropPlanId) -> (local: Self)
        ensures
            local == (Local { drop_plan: Some(plan), ..self }),
    {
        let mut local = self;
        local.drop_plan = Some(plan);
        local
    }

    /// A scalar-valued local.
    pub fn scalar(
        ty: TyId,
        scalar: ScalarType,
        storage: LocalStorage,
        origin: LocalOrigin,
        scope: ScopeId,
    ) -> (local: Self)
        ensures
            local == (Local {
                ty,
                representation: ValueRepresentation::Scalar(scalar),
                ownership: OwnershipKind::Copy,
                storage,
                origin,
                scope,
                drop_plan: None,
            }),
    {
        Local {
            ty,
            representation: ValueRepresentation::Scalar(scalar),
            ownership: OwnershipKind::Copy,
            storage,
            origin,
            scope,
            drop_plan: None,
        }
    }

    /// An aggregate-valued local with the given ownership.
    pub fn aggregate(
        ty: TyId,
        ownership: OwnershipKind,
        storage: LocalStorage,
        origin: LocalOrigin,
        scope: ScopeId,
    ) -> (local: Self)
        ensures
            local == (Local {
                ty,
                representation: ValueRepresentation::Aggregate,
                ownership,
                storage,
                origin,
                scope,
                drop_plan: None,
            }),
    {
        Local {
            ty,
            representation: ValueRepresentation::Aggregate,
            ownership,
            storage,
            origin,
            scope,
            drop_plan: None,
        }
    }

    /// A borrow-valued local; `readwrite` selects a mutable borrow.
    pub fn borrow(
        ty: TyId,
        readwrite: bool,
        storage: LocalStorage,
        origin: LocalOrigin,
        scope: ScopeId,
    ) -> (local: Self)
        ensures
            local == (Local {
                ty,
                representation: ValueRepresentation::Borrow,
                ownership: OwnershipKind::Borrowed { readwrite },
                storage,
                origin,
                scope,
                drop_plan: None,
            }),
    {
        Local {
            ty,
            representation: ValueRepresentation::Borrow,
            ownership: OwnershipKind::Borrowed { readwrite },
            storage,
            origin,
            scope,
            drop_plan: None,
        }
    }

    /// A local holding a value of the builtin `error` type.
    pub fn error(ty: TyId, storage: LocalStorage, origin: LocalOrigin, scope: ScopeId) -> (local: Self)
        ensures
            local == (Local {
                ty,
                representation: ValueRepresentation::Error,
                ownership: OwnershipKind::Copy,
                storage,
                origin,
                scope,
                drop_plan: None,
            }),
    {
        Local {
            ty,
            representation: ValueRepresentation::Error,
            ownership: OwnershipKind::Copy,
            storage,
            origin,
            scope,
            drop_plan: None,
        }
    }

    /// A local holding a view of the given kind.
    pub fn view(
        ty: TyId,
        kind: ViewKind,
        storage: LocalStorage,
        origin: LocalOrigin,
        scope: ScopeId,
    ) -> (local: Self)
        ensures
            local == (Local {
                ty,
                representation: ValueRepresentation::View(kind),
                ownership: OwnershipKind::Copy,
                storage,
                origin,
                scope,
                drop_plan: None,
            }),
    {
        Local {
            ty,
            representation: ValueRepresentation::View(kind),
            ownership: OwnershipKind::Copy,
            storage,
            origin,
            scope,
            drop_plan: None,
        }
    }

    /// The scalar type of a scalar local, and `None` for any other local.
    pub fn scalar_type(&self) -> (scalar: Option<ScalarType>)
        ensures
            scalar == match self.representation {
                ValueRepresentation::Scalar(s) => Some(s),
                _ => None,
            },
    {
        match self.representation {
            ValueRepresentation::Scalar(scalar) => Some(scalar),
            ValueRepresentation::Borrow
            | ValueRepresentation::View(_)
            | ValueRepresentation::Aggregate
            | ValueRepresentation::Error
            | ValueRepresentation::Unit => None,
        }
    }
}

} // verus!
