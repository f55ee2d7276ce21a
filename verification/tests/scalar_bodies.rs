use mir::lower::coverage::{scalar_body_parts, ScalarStatement, ScalarTail};
use mir::lower::syntax::{
    BindingStmt, Block, Expr, ExpressionStmt, IfStmt, LoopStmt, ReturnStmt, Stmt,
};
use mir::semantic::{ByteSpan, ExprId, LocalSymbolId, SourceId};

fn span() -> ByteSpan {
    ByteSpan::new(SourceId::new(0), 0, 1)
}

fn value(index: usize) -> Expr {
    Expr::Typed(ExprId::from_index(index))
}

fn block(statements: Vec<Stmt>, result: Option<Expr>) -> Block {
    Block { span: span(), statements, result: result.map(Box::new) }
}

fn binding(index: usize) -> Stmt {
    Stmt::Binding(BindingStmt { name: LocalSymbolId::from_index(index), value: value(index) })
}

fn conditional() -> IfStmt {
    IfStmt { span: span(), condition: value(9), then_block: block(Vec::new(), None), else_block: None }
}

#[test]
fn a_result_expression_is_the_tail_and_imports_are_skipped() {
    let body = block(vec![Stmt::Import(span()), binding(1), Stmt::FromImport(span())], Some(value(5)));
    let (statements, tail) = scalar_body_parts(&body).unwrap();
    assert_eq!(statements.len(), 1);
    assert!(matches!(statements[0], ScalarStatement::Binding(b) if b.name == LocalSymbolId::from_index(1)));
    assert!(matches!(tail.expression(), Some(Expr::Typed(id)) if *id == ExprId::from_index(5)));
    assert!(!tail.is_explicit_return());
    assert!(tail.conditional().is_none());
}

#[test]
fn a_final_return_with_a_value_is_the_tail() {
    let body = block(
        vec![binding(1), Stmt::Return(ReturnStmt { expression: Some(value(7)) }), Stmt::Import(span())],
        None,
    );
    let (statements, tail) = scalar_body_parts(&body).unwrap();
    assert_eq!(statements.len(), 1);
    assert!(tail.is_explicit_return());
    assert!(matches!(tail, ScalarTail::Return(Expr::Typed(id)) if *id == ExprId::from_index(7)));
}

#[test]
fn a_final_conditional_is_the_tail() {
    let body = block(vec![Stmt::Loop(LoopStmt { span: span(), body: block(Vec::new(), None) }), Stmt::If(conditional())], None);
    let (statements, tail) = scalar_body_parts(&body).unwrap();
    assert!(matches!(statements[0], ScalarStatement::Loop(_)));
    assert!(matches!(tail, ScalarTail::Conditional(_)));
    assert!(tail.conditional().is_some());
    assert!(tail.expression().is_none());
}

#[test]
fn a_conditional_result_expression_is_its_conditional() {
    let body = block(Vec::new(), Some(Expr::If(Box::new(conditional()))));
    let (statements, tail) = scalar_body_parts(&body).unwrap();
    assert!(statements.is_empty());
    assert!(tail.conditional().is_some());
}

#[test]
fn bodies_without_a_tail_are_not_scalar() {
    assert!(scalar_body_parts(&block(Vec::new(), None)).is_none());
    assert!(scalar_body_parts(&block(vec![Stmt::Import(span())], None)).is_none());
    assert!(scalar_body_parts(&block(vec![binding(1)], None)).is_none());
    assert!(scalar_body_parts(&block(vec![Stmt::Return(ReturnStmt { expression: None })], None)).is_none());
}

#[test]
fn leading_statements_must_be_scalar() {
    let body = block(
        vec![Stmt::Drop(LocalSymbolId::from_index(4)), Stmt::Expression(ExpressionStmt { expression: value(2) })],
        Some(value(3)),
    );
    assert!(scalar_body_parts(&body).is_none());
    let body = block(vec![Stmt::Break(span()), Stmt::Continue(span())], Some(value(3)));
    let (statements, _) = scalar_body_parts(&body).unwrap();
    assert!(matches!(statements[0], ScalarStatement::Break));
    assert!(matches!(statements[1], ScalarStatement::Continue));
}
