//! Semantic identities that checked MIR refers to.
//!
//! MIR never inspects these values: it only carries them from the checked
//! program into bodies, keys and plans.

use vstd::prelude::*;

verus! {

/// Identity of one source file.
#[derive(Debug, Clone, Copy, PartialEq, Eq, Structural, Hash)]
pub struct SourceId(pub u32);

impl SourceId {
    pub fn new(index: u32) -> (id: Self)
        ensures
            id.0 == index,
    {
        SourceId(index)
    }
}

/// A byte range of one source file.
#[derive(Debug, Clone, Copy, PartialEq, Eq, Structural, Hash)]
pub struct ByteSpan {
    pub source: SourceId,
    pub start: u32,
    pub end: u32,
}

impl ByteSpan {
    pub fn new(source: SourceId, start: u32, end: u32) -> (span: Self)
        ensures
            span == (ByteSpan { source, start, end }),
    {
        ByteSpan { source, start, end }
    }
}

/// Identity of a checked semantic type.
#[derive(Debug, Clone, Copy, PartialEq, Eq, Structural, Hash)]
pub struct TyId(pub u32);

impl TyId {
    /// Builds the identity of the given index; the index is kept modulo 2^32.
    pub fn from_index(index: usize) -> (id: Self)
        ensures
            id.0 == index as u32,
    {
        TyId(index as u32)
    }

    /// The index this identity stands for.
    pub fn index(self) -> (index: usize)
        ensures
            index == self.0,
    {
        self.0 as usize
    }
}

/// Identity of a semantic definition.
#[derive(Debug, Clone, Copy, PartialEq, Eq, Structural, Hash)]
pub struct DefId(pub u32);

impl DefId {
    /// Builds the identity of the given index; the index is kept modulo 2^32.
    pub fn from_index(index: usize) -> (id: Self)
        ensures
            id.0 == index as u32,
    {
        DefId(index as u32)
    }

    /// The index this identity stands for.
    pub fn index(self) -> (index: usize)
        ensures
            index == self.0,
    {
        self.0 as usize
    }
}

/// Identity of a checked source expression.
#[derive(Debug, Clone, Copy, PartialEq, Eq, Structural, Hash)]
pub struct ExprId(pub u32);

impl ExprId {
    /// Builds the identity of the given index; the index is kept modulo 2^32.
    pub fn from_index(index: usize) -> (id: Self)
        ensures
            id.0 == index as u32,
    {
        ExprId(index as u32)
    }

    /// The index this identity stands for.
    pub fn index(self) -> (index: usize)
        ensures
            index == self.0,
    {
        self.0 as usize
    }
}

/// Identity of a source body.
#[derive(Debug, Clone, Copy, PartialEq, Eq, Structural, Hash)]
pub struct BodyId(pub u32);

impl BodyId {
    /// Builds the identity of the given index; the index is kept modulo 2^32.
    pub fn from_index(index: usize) -> (id: Self)
        ensures
            id.0 == index as u32,
    {
        BodyId(index as u32)
    }

    /// The index this identity stands for.
    pub fn index(self) -> (index: usize)
        ensures
            index == self.0,
    {
        self.0 as usize
    }
}

/// Identity of a resolved local symbol.
#[derive(Debug, Clone, Copy, PartialEq, Eq, Structural, Hash)]
pub struct LocalSymbolId(pub u32);

impl LocalSymbolId {
    /// Builds the identity of the given index; the index is kept modulo 2^32.
    pub fn from_index(index: usize) -> (id: Self)
        ensures
            id.0 == index as u32,
    {
        LocalSymbolId(index as u32)
    }

    /// The index this identity stands for.
    pub fn index(self) -> (index: usize)
        ensures
            index == self.0,
    {
        self.0 as usize
    }
}

/// Identity of a monomorphized item.
#[derive(Debug, Clone, Copy, PartialEq, Eq, Structural, Hash)]
pub struct MonoItemId(pub u32);

impl MonoItemId {
    /// The identity of the given index, kept modulo 2^32.
    pub open spec fn at(index: int) -> Self {
        MonoItemId(index as u32)
    }

    /// Builds the identity of the given index; the index is kept modulo 2^32.
    pub fn from_index(index: usize) -> (id: Self)
        ensures
            id == Self::at(index as int),
            id.0 == index as u32,
    {
        MonoItemId(index as u32)
    }

    /// The index this identity stands for.
    pub fn index(self) -> (index: usize)
        ensures
            index == self.0,
    {
        self.0 as usize
    }
}

/// Identity of a compiler intrinsic.
#[derive(Debug, Clone, Copy, PartialEq, Eq, Structural, Hash)]
pub struct IntrinsicId(pub u32);

impl IntrinsicId {
    /// Builds the identity of the given index; the index is kept modulo 2^32.
    pub fn from_index(index: usize) -> (id: Self)
        ensures
            id.0 == index as u32,
    {
        IntrinsicId(index as u32)
    }

    /// The index this identity stands for.
    pub fn index(self) -> (index: usize)
        ensures
            index == self.0,
    {
        self.0 as usize
    }
}

/// Fixed-width integer types of the source language.
#[derive(Debug, Clone, Copy, PartialEq, Eq, Structural, Hash)]
pub enum IntegerType {
    I8,
    I16,
    I32,
    I64,
    U8,
    U16,
    U32,
    U64,
    Usize,
}

/// How a callable value may be invoked.
#[derive(Debug, Clone, Copy, PartialEq, Eq, Structural, Hash)]
pub enum CallableCapability {
    Shared,
    Mutable,
    Once,
}

/// Shape of a collection literal.
#[derive(Debug, Clone, Copy, PartialEq, Eq, Structural, Hash)]
pub enum LiteralShape {
    Sequence,
    Dictionary,
    Collection,
}

/// How a spread segment of a sequence literal consumes its iterator.
#[derive(Debug, Clone, Copy, PartialEq, Eq, Structural, Hash)]
pub enum SequenceSpreadMode {
    Borrowed,
    Owned,
}

/// One layer of an optional or fallible result.
#[derive(Debug, Clone, Copy, PartialEq, Eq, Structural, Hash)]
pub enum OutcomeLayer {
    Optional,
    Fallible,
}

/// A type named by a path.
#[derive(Debug, Clone, PartialEq, Eq)]
pub struct TypeReference {
    pub span: ByteSpan,
    pub name: String,
}

/// A generic type applied to type arguments.
#[derive(Debug, PartialEq, Eq)]
pub struct GenericType {
    pub span: ByteSpan,
    pub name: String,
    pub name_span: ByteSpan,
    pub arguments: Vec<TypeExpr>,
}

/// A source type expression.
#[derive(Debug, PartialEq, Eq)]
pub enum TypeExpr {
    Reference(TypeReference),
    Generic(GenericType),
}

/// The structural identity of a type: its nodes in pre-order, each with its
/// name and its number of type arguments. Spans take no part in it.
pub open spec fn type_nodes(ty: TypeExpr) -> Seq<(Seq<char>, nat)>
    decreases ty, 0nat,
{
    match ty {
        TypeExpr::Reference(reference) => seq![(reference.name@, 0nat)],
        TypeExpr::Generic(generic) => seq![(generic.name@, generic.arguments@.len())]
            + argument_nodes(generic.arguments@, generic.arguments@.len()),
    }
}

/// The identities of the first `count` of `arguments`, one after the other.
pub open spec fn argument_nodes(arguments: Seq<TypeExpr>, count: nat) -> Seq<(Seq<char>, nat)>
    decreases arguments, count,
{
    if count == 0 || count > arguments.len() {
        Seq::empty()
    } else {
        argument_nodes(arguments, (count - 1) as nat) + type_nodes(arguments[count - 1])
    }
}

/// One node of a type identity.
#[derive(Debug, Clone, PartialEq, Eq, Hash)]
pub struct TypeNode {
    name: String,
    arity: usize,
}

impl View for TypeNode {
    type V = (Seq<char>, nat);

    closed spec fn view(&self) -> (Seq<char>, nat) {
        (self.name@, self.arity as nat)
    }
}

/// The structural identity of a type expression.
#[derive(Debug, Clone, PartialEq, Eq, Hash)]
pub struct TypeIdentity {
    nodes: Vec<TypeNode>,
}

impl View for TypeIdentity {
    type V = Seq<(Seq<char>, nat)>;

    closed spec fn view(&self) -> Seq<(Seq<char>, nat)> {
        self.nodes@.map_values(|node: TypeNode| node@)
    }
}

/// Appends the nodes of `ty` to `nodes`.
fn append_type_nodes(ty: &TypeExpr, nodes: &mut Vec<TypeNode>)
    ensures
        final(nodes)@.map_values(|node: TypeNode| node@) == old(nodes)@.map_values(
            |node: TypeNode| node@,
        ) + type_nodes(*ty),
    decreases ty,
{
    match ty {
        TypeExpr::Reference(reference) => {
            let ghost before = nodes@;
            let node = TypeNode { name: reference.name.clone(), arity: 0 };
            nodes.push(node);
            proof {
                assert(nodes@.map_values(|node: TypeNode| node@) =~= before.map_values(
                    |node: TypeNode| node@,
                ) + type_nodes(*ty));
            }
        },
        TypeExpr::Generic(generic) => {
            let ghost before = nodes@.map_values(|node: TypeNode| node@);
            let node = TypeNode { name: generic.name.clone(), arity: generic.arguments.len() };
            nodes.push(node);
            let ghost head = before + seq![(generic.name@, generic.arguments@.len())];
            proof {
                assert(nodes@.map_values(|node: TypeNode| node@) =~= head);
                assert(argument_nodes(generic.arguments@, 0) =~= Seq::empty());
                assert(head + argument_nodes(generic.arguments@, 0) =~= head);
            }
            let mut index: usize = 0;
            while index < generic.arguments.len()
                invariant
                    index <= generic.arguments@.len(),
                    *ty == TypeExpr::Generic(*generic),
                    nodes@.map_values(|node: TypeNode| node@) == head + argument_nodes(
                        generic.arguments@,
                        index as nat,
                    ),
                decreases generic.arguments@.len() - index,
            {
                let ghost middle = nodes@.map_values(|node: TypeNode| node@);
                proof {
                    broadcast use vstd::std_specs::vec::axiom_vec_index_decreases;

                    assert(decreases_to!(generic.arguments => generic.arguments[index as int]));
                    assert(decreases_to!(*generic => generic.arguments));
                    assert(decreases_to!(*ty => (*ty)->Generic_0));
                    assert(decreases_to!(*ty => generic.arguments[index as int]));
                }
                append_type_nodes(&generic.arguments[index], nodes);
                index = index + 1;
                proof {
                    assert(argument_nodes(generic.arguments@, index as nat) == argument_nodes(
                        generic.arguments@,
                        (index - 1) as nat,
                    ) + type_nodes(generic.arguments@[index - 1]));
                    assert(nodes@.map_values(|node: TypeNode| node@) =~= head + argument_nodes(
                        generic.arguments@,
                        index as nat,
                    ));
                }
            }
            proof {
                assert(nodes@.map_values(|node: TypeNode| node@) =~= before + type_nodes(*ty));
            }
        },
    }
}

impl TypeIdentity {
    /// The identity of `ty`.
    pub fn of(ty: &TypeExpr) -> (identity: Self)
        ensures
            identity@ == type_nodes(*ty),
    {
        let mut nodes: Vec<TypeNode> = Vec::new();
        proof {
            assert(nodes@.map_values(|node: TypeNode| node@) =~= Seq::empty());
        }
        append_type_nodes(ty, &mut nodes);
        proof {
            assert(Seq::<(Seq<char>, nat)>::empty() + type_nodes(*ty) =~= type_nodes(*ty));
        }
        TypeIdentity { nodes }
    }

    /// Whether two identities name the same type.
    pub fn same(&self, other: &Self) -> (same: bool)
        ensures
            same == (self@ == other@),
    {
        if self.nodes.len() != other.nodes.len() {
            proof {
                assert(self@.len() != other@.len());
            }
            return false;
        }
        let mut index: usize = 0;
        while index < self.nodes.len()
            invariant
                index <= self.nodes@.len(),
                self.nodes@.len() == other.nodes@.len(),
                forall|i: int| 0 <= i < index ==> #[trigger] self.nodes@[i]@ == other.nodes@[i]@,
            decreases self.nodes@.len() - index,
        {
            let mine = &self.nodes[index];
            let theirs = &other.nodes[index];
            if mine.arity != theirs.arity || mine.name != theirs.name {
                proof {
                    assert(self@[index as int] != other@[index as int]);
                }
                return false;
            }
            index = index + 1;
        }
        proof {
            assert(self@ =~= other@);
        }
        true
    }
}

/// The checked types of a program, by identity.
pub struct TypeTable {
    pub types: Vec<TypeExpr>,
}

impl TypeTable {
    /// The type expression that `id` stands for, if the table has it.
    pub fn type_expr_by_id(&self, id: TyId) -> (ty: Option<&TypeExpr>)
        ensures
            match ty {
                Some(ty) => id.0 < self.types@.len() && *ty == self.types@[id.0 as int],
                None => id.0 >= self.types@.len(),
            },
    {
        let index = id.index();
        if index < self.types.len() {
            Some(&self.types[index])
        } else {
            None
        }
    }
}

} // verus!
