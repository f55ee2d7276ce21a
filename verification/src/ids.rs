//! Opaque identities local to one MIR body.

use vstd::prelude::*;

verus! {

/// Identity of a basic block within one MIR body.
#[derive(Debug, Clone, Copy, PartialEq, Eq, Structural, Hash)]
pub struct BasicBlockId(pub u32);

impl View for BasicBlockId {
    type V = nat;

    open spec fn view(&self) -> nat {
        self.0 as nat
    }
}

impl BasicBlockId {
    /// The identity of the given index, kept modulo 2^32.
    pub open spec fn at(index: int) -> Self {
        BasicBlockId(index as u32)
    }

    /// Builds the identity of the given index; the index is kept modulo 2^32.
    pub fn from_index(index: usize) -> (id: Self)
        ensures
            id == Self::at(index as int),
            index <= u32::MAX ==> id@ == index,
    {
        BasicBlockId(index as u32)
    }

    /// The index this identity stands for.
    pub fn index(self) -> (index: usize)
        ensures
            index == self@,
    {
        self.0 as usize
    }
}

/// Identity of a body-local value within one MIR body.
#[derive(Debug, Clone, Copy, PartialEq, Eq, Structural, Hash)]
pub struct LocalId(pub u32);

impl View for LocalId {
    type V = nat;

    open spec fn view(&self) -> nat {
        self.0 as nat
    }
}

impl LocalId {
    /// The identity of the given index, kept modulo 2^32.
    pub open spec fn at(index: int) -> Self {
        LocalId(index as u32)
    }

    /// Builds the identity of the given index; the index is kept modulo 2^32.
    pub fn from_index(index: usize) -> (id: Self)
        ensures
            id == Self::at(index as int),
            index <= u32::MAX ==> id@ == index,
    {
        LocalId(index as u32)
    }

    /// The index this identity stands for.
    pub fn index(self) -> (index: usize)
        ensures
            index == self@,
    {
        self.0 as usize
    }
}

/// Identity of a loan within one MIR body.
#[derive(Debug, Clone, Copy, PartialEq, Eq, Structural, Hash)]
pub struct LoanId(pub u32);

impl View for LoanId {
    type V = nat;

    open spec fn view(&self) -> nat {
        self.0 as nat
    }
}

impl LoanId {
    /// The identity of the given index, kept modulo 2^32.
    pub open spec fn at(index: int) -> Self {
        LoanId(index as u32)
    }

    /// Builds the identity of the given index; the index is kept modulo 2^32.
    pub fn from_index(index: usize) -> (id: Self)
        ensures
            id == Self::at(index as int),
            index <= u32::MAX ==> id@ == index,
    {
        LoanId(index as u32)
    }

    /// The index this identity stands for.
    pub fn index(self) -> (index: usize)
        ensures
            index == self@,
    {
        self.0 as usize
    }
}

/// Identity of a destruction plan within one MIR body.
#[derive(Debug, Clone, Copy, PartialEq, Eq, Structural, Hash)]
pub struct DropPlanId(pub u32);

impl View for DropPlanId {
    type V = nat;

    open spec fn view(&self) -> nat {
        self.0 as nat
    }
}

impl DropPlanId {
    /// The identity of the given index, kept modulo 2^32.
    pub open spec fn at(index: int) -> Self {
        DropPlanId(index as u32)
    }

    /// Builds the identity of the given index; the index is kept modulo 2^32.
    pub fn from_index(index: usize) -> (id: Self)
        ensures
            id == Self::at(index as int),
            index <= u32::MAX ==> id@ == index,
    {
        DropPlanId(index as u32)
    }

    /// The index this identity stands for.
    pub fn index(self) -> (index: usize)
        ensures
            index == self@,
    {
        self.0 as usize
    }
}

/// Identity of a projection path within one MIR body.
#[derive(Debug, Clone, Copy, PartialEq, Eq, Structural, Hash)]
pub struct ProjectionPathId(pub u32);

impl View for ProjectionPathId {
    type V = nat;

    open spec fn view(&self) -> nat {
        self.0 as nat
    }
}

impl ProjectionPathId {
    /// The identity of the given index, kept modulo 2^32.
    pub open spec fn at(index: int) -> Self {
        ProjectionPathId(index as u32)
    }

    /// Builds the identity of the given index; the index is kept modulo 2^32.
    pub fn from_index(index: usize) -> (id: Self)
        ensures
            id == Self::at(index as int),
            index <= u32::MAX ==> id@ == index,
    {
        ProjectionPathId(index as u32)
    }

    /// The index this identity stands for.
    pub fn index(self) -> (index: usize)
        ensures
            index == self@,
    {
        self.0 as usize
    }
}

/// Identity of a lexical scope within one MIR body.
#[derive(Debug, Clone, Copy, PartialEq, Eq, Structural, Hash)]
pub struct ScopeId(pub u32);

impl View for ScopeId {
    type V = nat;

    open spec fn view(&self) -> nat {
        self.0 as nat
    }
}

impl ScopeId {
    /// The identity of the given index, kept modulo 2^32.
    pub open spec fn at(index: int) -> Self {
        ScopeId(index as u32)
    }

    /// Builds the identity of the given index; the index is kept modulo 2^32.
    pub fn from_index(index: usize) -> (id: Self)
        ensures
            id == Self::at(index as int),
            index <= u32::MAX ==> id@ == index,
    {
        ScopeId(index as u32)
    }

    /// The index this identity stands for.
    pub fn index(self) -> (index: usize)
        ensures
            index == self@,
    {
        self.0 as usize
    }
}

/// Identity of an allocation region within one MIR body.
#[derive(Debug, Clone, Copy, PartialEq, Eq, Structural, Hash)]
pub struct RegionId(pub u32);

impl View for RegionId {
    type V = nat;

    open spec fn view(&self) -> nat {
        self.0 as nat
    }
}

impl RegionId {
    /// The identity of the given index, kept modulo 2^32.
    pub open spec fn at(index: int) -> Self {
        RegionId(index as u32)
    }

    /// Builds the identity of the given index; the index is kept modulo 2^32.
    pub fn from_index(index: usize) -> (id: Self)
        ensures
            id == Self::at(index as int),
            index <= u32::MAX ==> id@ == index,
    {
        RegionId(index as u32)
    }

    /// The index this identity stands for.
    pub fn index(self) -> (index: usize)
        ensures
            index == self@,
    {
        self.0 as usize
    }
}

/// Identity of an allocation override within one MIR body.
#[derive(Debug, Clone, Copy, PartialEq, Eq, Structural, Hash)]
pub struct AllocationOverrideId(pub u32);

impl View for AllocationOverrideId {
    type V = nat;

    open spec fn view(&self) -> nat {
        self.0 as nat
    }
}

impl AllocationOverrideId {
    /// The identity of the given index, kept modulo 2^32.
    pub open spec fn at(index: int) -> Self {
        AllocationOverrideId(index as u32)
    }

    /// Builds the identity of the given index; the index is kept modulo 2^32.
    pub fn from_index(index: usize) -> (id: Self)
        ensures
            id == Self::at(index as int),
            index <= u32::MAX ==> id@ == index,
    {
        AllocationOverrideId(index as u32)
    }

    /// The index this identity stands for.
    pub fn index(self) -> (index: usize)
        ensures
            index == self@,
    {
        self.0 as usize
    }
}

} // verus!
