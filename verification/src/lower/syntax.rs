//! The statement structure of a source body as lowering reads it.
//!
//! Statements and blocks are kept with their nesting; an expression is
//! either a conditional, whose blocks lowering enters, or a handle of the
//! typed expression that lowering looks up by identity.

use crate::semantic::{ByteSpan, ExprId, LocalSymbolId};
use vstd::prelude::*;

verus! {

/// A source expression: a local named by its symbol, a conditional, a
/// call, or another typed expression.
#[derive(Debug)]
pub enum Expr {
    Identifier(LocalSymbolId),
    If(Box<IfStmt>),
    Call(ExprId),
    Typed(ExprId),
}

/// A block: its statements and its optional result expression.
#[derive(Debug)]
pub struct Block {
    pub span: ByteSpan,
    pub statements: Vec<Stmt>,
    pub result: Option<Box<Expr>>,
}

/// `let name = value`.
#[derive(Debug)]
pub struct BindingStmt {
    pub name: LocalSymbolId,
    pub value: Expr,
}

/// `target = value`.
#[derive(Debug)]
pub struct AssignmentStmt {
    pub target: Expr,
    pub value: Expr,
}

/// `if condition { then } else { otherwise }`.
#[derive(Debug)]
pub struct IfStmt {
    pub span: ByteSpan,
    pub condition: Expr,
    pub then_block: Block,
    pub else_block: Option<Block>,
}

/// `for binding in start..end { body }`.
#[derive(Debug)]
pub struct ForRangeStmt {
    pub binding: LocalSymbolId,
    pub start: Expr,
    pub end: Expr,
    pub body: Block,
}

/// `loop { body }`.
#[derive(Debug)]
pub struct LoopStmt {
    pub span: ByteSpan,
    pub body: Block,
}

/// `while condition { body }`.
#[derive(Debug)]
pub struct WhileStmt {
    pub span: ByteSpan,
    pub condition: Expr,
    pub body: Block,
}

/// `region name = allocator { body }`.
#[derive(Debug)]
pub struct RegionStmt {
    pub name: LocalSymbolId,
    pub allocator: Expr,
    pub body: Block,
}

/// An expression evaluated for its effect.
#[derive(Debug)]
pub struct ExpressionStmt {
    pub expression: Expr,
}

/// `return` with an optional value.
#[derive(Debug)]
pub struct ReturnStmt {
    pub expression: Option<Expr>,
}

/// A source statement.
#[derive(Debug)]
pub enum Stmt {
    Binding(BindingStmt),
    Assignment(AssignmentStmt),
    If(IfStmt),
    ForRange(ForRangeStmt),
    Loop(LoopStmt),
    While(WhileStmt),
    Region(RegionStmt),
    Expression(ExpressionStmt),
    Break(ByteSpan),
    Continue(ByteSpan),
    Return(ReturnStmt),
    Import(ByteSpan),
    FromImport(ByteSpan),
    Drop(LocalSymbolId),
}

impl Stmt {
    /// Whether the statement is an import, which has no run-time effect.
    pub open spec fn is_import_spec(&self) -> bool {
        self is Import || self is FromImport
    }

    /// Whether the statement is an import.
    pub fn is_import(&self) -> (import: bool)
        ensures
            import == self.is_import_spec(),
    {
        match self {
            Stmt::Import(_) | Stmt::FromImport(_) => true,
            _ => false,
        }
    }
}

} // verus!
