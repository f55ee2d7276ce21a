//! What name resolution and type checking say of each checked type that
//! destruction planning reads: whether values of it are copied, and the
//! declaration it resolves to, with the types of its fields and payloads
//! given by identity after substitution of its type arguments.

use crate::semantic::{DefId, TyId};
use vstd::prelude::*;

verus! {

/// What a type declaration declares.
#[derive(Debug, Clone, Copy, PartialEq, Eq, Structural)]
pub enum TypeSymbolKind {
    Struct,
    Enum,
    Alias,
    Interface,
}

/// One variant of an enum type: its semantic definition, where resolution
/// found one, and the types of its payload values.
pub struct VariantShape {
    pub definition: Option<DefId>,
    pub payload: Vec<TyId>,
}

/// The declaration a checked type resolves to.
pub struct TypeShape {
    /// The identity of the declaring symbol; instances of one generic
    /// declaration share it.
    pub symbol: usize,
    pub kind: TypeSymbolKind,
    /// The destructor's semantic definition, where the type declares one
    /// and resolution found it.
    pub destructor: Option<DefId>,
    /// The types of the struct's fields, in declaration order.
    pub fields: Vec<TyId>,
    pub variants: Vec<VariantShape>,
    /// The type an alias stands for, where it names one.
    pub alias_target: Option<TyId>,
}

/// What is known of one checked type.
pub struct TypeFacts {
    /// Whether its values are copied; `None` where type checking cannot tell.
    pub copy: Option<bool>,
    /// The declaration it resolves to; `None` for a type that no declaration
    /// of a supported kind names.
    pub shape: Option<TypeShape>,
}

/// The facts of every checked type, indexed by type identity, and the
/// number of declaring symbols.
pub struct ResolveModel {
    pub symbol_count: usize,
    pub types: Vec<TypeFacts>,
}

impl ResolveModel {
    /// Every shape names one of the declaring symbols.
    pub open spec fn wf(&self) -> bool {
        forall|i: int|
            0 <= i < self.types@.len() ==> match (#[trigger] self.types@[i]).shape {
                Some(shape) => shape.symbol < self.symbol_count,
                None => true,
            }
    }

    /// Whether `ty` is a checked type of the model.
    pub open spec fn knows(&self, ty: TyId) -> bool {
        ty.0 < self.types@.len()
    }

    /// Whether type checking says that values of `ty` are copied.
    pub open spec fn is_copy(&self, ty: TyId) -> bool {
        self.knows(ty) && self.types@[ty.0 as int].copy == Some(true)
    }

    /// The declaration `ty` resolves to.
    pub open spec fn shape_of(&self, ty: TyId) -> Option<TypeShape> {
        if self.knows(ty) {
            self.types@[ty.0 as int].shape
        } else {
            None
        }
    }

    /// Whether values of `ty` are copied.
    pub fn type_is_copy(&self, ty: TyId) -> (copy: bool)
        ensures
            copy == self.is_copy(ty),
    {
        let index = ty.index();
        index < self.types.len() && match self.types[index].copy {
            Some(copy) => copy,
            None => false,
        }
    }

    /// The declaration `ty` resolves to.
    pub fn shape(&self, ty: TyId) -> (shape: Option<&TypeShape>)
        ensures
            match shape {
                Some(shape) => self.shape_of(ty) == Some(*shape),
                None => self.shape_of(ty) is None,
            },
    {
        let index = ty.index();
        if index < self.types.len() {
            match &self.types[index].shape {
                Some(shape) => Some(shape),
                None => None,
            }
        } else {
            None
        }
    }
}

} // verus!
