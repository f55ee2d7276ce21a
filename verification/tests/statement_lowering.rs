use mir::ids::{BasicBlockId, LocalId, ScopeId};
use mir::locals::ScalarType;
use mir::lower::context::LoweringContext;
use mir::lower::coverage::{
    scalar_conditional_statement_is_supported, scalar_linear_block_statements, scalar_loop_block_statements,
    ScalarStatement,
};
use mir::lower::statements::{LoopTargets, StatementLowerer};
use mir::lower::syntax::{BindingStmt, Block, Expr, IfStmt, LoopStmt, Stmt, WhileStmt};
use mir::lower::BuildError;
use mir::model::{BasicBlock, Constant, LoopRegion, Operand, Place, Scope, Terminator};
use mir::semantic::{ByteSpan, ExprId, LocalSymbolId, SourceId, TyId};

fn span() -> ByteSpan {
    ByteSpan::new(SourceId::new(0), 0, 1)
}

fn block(statements: Vec<Stmt>) -> Block {
    Block { span: span(), statements, result: None }
}

fn flag() -> Expr {
    Expr::Identifier(LocalSymbolId::from_index(7))
}

fn flag_operand() -> Operand {
    Operand::Copy(Place::local(LocalId::from_index(1)))
}

fn context() -> LoweringContext {
    LoweringContext::new(
        Vec::new(),
        vec![(LocalSymbolId::from_index(7), LocalId::from_index(1))],
        Vec::new(),
        ScopeId::from_index(0),
        Scope::root(span()),
    )
}

fn lowerer() -> StatementLowerer {
    StatementLowerer { bool_ty: Some(TyId::from_index(2)) }
}

fn finished(mut context: LoweringContext) -> Vec<BasicBlock> {
    assert_eq!(context.control_flow.terminate(Terminator::Return), Ok(()));
    context.finish().unwrap().blocks
}

fn goto(target: usize) -> Terminator {
    Terminator::Goto { target: BasicBlockId::from_index(target) }
}

fn switch(condition: Operand, then_target: usize, else_target: usize, join: Option<usize>) -> Terminator {
    Terminator::Switch {
        condition,
        then_target: BasicBlockId::from_index(then_target),
        else_target: BasicBlockId::from_index(else_target),
        join_target: join.map(BasicBlockId::from_index),
    }
}

fn always() -> Operand {
    Operand::Constant(Constant { ty: TyId::from_index(2), scalar: ScalarType::Bool, value: 1 })
}

#[test]
fn a_loop_with_a_break_builds_header_body_and_exit() {
    let mut context = context();
    let statement = LoopStmt { span: span(), body: block(vec![Stmt::Break(span())]) };
    let statements = [ScalarStatement::Loop(&statement)];
    assert_eq!(lowerer().lower_in_context(&mut context, &statements, None, ScopeId::from_index(0)), Ok(false));
    assert_eq!(
        context.loop_regions,
        vec![LoopRegion {
            header: BasicBlockId::from_index(1),
            condition: BasicBlockId::from_index(1),
            body: BasicBlockId::from_index(2),
            continue_target: BasicBlockId::from_index(1),
            exit: BasicBlockId::from_index(3),
        }]
    );
    assert_eq!(context.scopes.len(), 3);
    let blocks = finished(context);
    assert_eq!(blocks.len(), 4);
    assert_eq!(blocks[0].terminator, goto(1));
    assert_eq!(blocks[1].terminator, switch(always(), 2, 3, None));
    assert_eq!(blocks[2].terminator, goto(3));
    assert_eq!(blocks[2].scope, ScopeId::from_index(2));
    assert_eq!(blocks[3].terminator, Terminator::Return);
    assert_eq!(blocks[3].scope, ScopeId::from_index(0));
}

#[test]
fn a_while_loop_tests_its_condition_and_continues_to_it() {
    let mut context = context();
    let statement = WhileStmt { span: span(), condition: flag(), body: block(vec![Stmt::Continue(span())]) };
    let statements = [ScalarStatement::While(&statement)];
    assert_eq!(lowerer().lower_in_context(&mut context, &statements, None, ScopeId::from_index(0)), Ok(false));
    let blocks = finished(context);
    assert_eq!(blocks[0].terminator, goto(1));
    assert_eq!(blocks[1].terminator, switch(flag_operand(), 2, 3, None));
    assert_eq!(blocks[2].terminator, goto(1));
    assert_eq!(blocks[3].terminator, Terminator::Return);
}

#[test]
fn a_conditional_joins_its_branches() {
    let mut context = context();
    let statement = IfStmt { span: span(), condition: flag(), then_block: block(Vec::new()), else_block: None };
    let statements = [ScalarStatement::If(&statement)];
    assert_eq!(lowerer().lower_in_context(&mut context, &statements, None, ScopeId::from_index(0)), Ok(false));
    let blocks = finished(context);
    assert_eq!(blocks.len(), 4);
    assert_eq!(blocks[0].terminator, switch(flag_operand(), 1, 2, Some(3)));
    assert_eq!(blocks[1].terminator, goto(3));
    assert_eq!(blocks[2].terminator, goto(3));
    assert_eq!(blocks[3].terminator, Terminator::Return);
}

#[test]
fn a_conditional_whose_branches_both_leave_has_no_join() {
    let mut context = context();
    let conditional = IfStmt {
        span: span(),
        condition: flag(),
        then_block: block(vec![Stmt::Break(span())]),
        else_block: Some(block(vec![Stmt::Continue(span())])),
    };
    let statement = LoopStmt { span: span(), body: block(vec![Stmt::If(conditional)]) };
    let statements = [ScalarStatement::Loop(&statement)];
    assert_eq!(lowerer().lower_in_context(&mut context, &statements, None, ScopeId::from_index(0)), Ok(false));
    let blocks = finished(context);
    assert_eq!(blocks.len(), 6);
    assert_eq!(blocks[1].terminator, switch(always(), 2, 3, None));
    assert_eq!(blocks[2].terminator, switch(flag_operand(), 4, 5, None));
    assert_eq!(blocks[4].terminator, goto(3));
    assert_eq!(blocks[5].terminator, goto(1));
    assert_eq!(blocks[3].terminator, Terminator::Return);
}

#[test]
fn break_inside_a_loop_body_goes_to_the_break_target() {
    let mut context = context();
    let targets = LoopTargets { break_target: BasicBlockId::from_index(9), continue_target: BasicBlockId::from_index(8) };
    let statements = [ScalarStatement::Break];
    assert_eq!(lowerer().lower_in_context(&mut context, &statements, Some(targets), ScopeId::from_index(0)), Ok(true));
    assert_eq!(context.control_flow.current_block(), Err(BuildError::MissingOpenBlock));
}

#[test]
fn an_empty_statement_list_leaves_the_block_open() {
    let mut context = context();
    assert_eq!(lowerer().lower_in_context(&mut context, &[], None, ScopeId::from_index(0)), Ok(false));
    assert_eq!(context.control_flow.current_block(), Ok(BasicBlockId::from_index(0)));
}

#[test]
fn statement_lowering_reports_what_it_cannot_lower() {
    let mut context = context();
    assert_eq!(
        lowerer().lower_in_context(&mut context, &[ScalarStatement::Break], None, ScopeId::from_index(0)),
        Err(BuildError::UnsupportedClaimedExpression)
    );
    let unbound = WhileStmt {
        span: span(),
        condition: Expr::Identifier(LocalSymbolId::from_index(3)),
        body: block(Vec::new()),
    };
    let mut context = self::context();
    assert_eq!(
        lowerer().lower_in_context(&mut context, &[ScalarStatement::While(&unbound)], None, ScopeId::from_index(0)),
        Err(BuildError::MissingLocalSymbol)
    );
    let looped = LoopStmt { span: span(), body: block(Vec::new()) };
    let mut context = self::context();
    assert_eq!(
        StatementLowerer { bool_ty: None }.lower_in_context(
            &mut context,
            &[ScalarStatement::Loop(&looped)],
            None,
            ScopeId::from_index(0),
        ),
        Err(BuildError::MissingTypedExpression)
    );
    let binding = BindingStmt { name: LocalSymbolId::from_index(7), value: Expr::Typed(ExprId::from_index(1)) };
    let mut context = self::context();
    assert_eq!(
        lowerer().lower_in_context(&mut context, &[ScalarStatement::Binding(&binding)], None, ScopeId::from_index(0)),
        Err(BuildError::UnsupportedClaimedExpression)
    );
}

#[test]
fn block_statements_keep_the_shapes_lowering_takes() {
    let conditional = IfStmt { span: span(), condition: flag(), then_block: block(Vec::new()), else_block: None };
    let with_conditional = block(vec![Stmt::If(conditional)]);
    assert!(scalar_linear_block_statements(&with_conditional, true).is_none());
    assert_eq!(scalar_loop_block_statements(&with_conditional).map(|s| s.len()), Some(1));
    let nested = block(vec![Stmt::Loop(LoopStmt { span: span(), body: block(Vec::new()) })]);
    assert!(scalar_loop_block_statements(&nested).is_none());
    let breaking = block(vec![Stmt::Break(span())]);
    assert!(scalar_linear_block_statements(&breaking, false).is_none());
    assert_eq!(scalar_linear_block_statements(&breaking, true).map(|s| s.len()), Some(1));
    let after_break = block(vec![Stmt::Break(span()), Stmt::Continue(span())]);
    assert!(scalar_loop_block_statements(&after_break).is_none());
    let with_result = Block { span: span(), statements: Vec::new(), result: Some(Box::new(flag())) };
    assert!(scalar_linear_block_statements(&with_result, false).is_none());
}

#[test]
fn a_rebound_name_refers_to_its_latest_local() {
    let mut context = LoweringContext::new(
        Vec::new(),
        vec![
            (LocalSymbolId::from_index(7), LocalId::from_index(1)),
            (LocalSymbolId::from_index(7), LocalId::from_index(2)),
        ],
        Vec::new(),
        ScopeId::from_index(0),
        Scope::root(span()),
    );
    assert_eq!(context.local_of_symbol(LocalSymbolId::from_index(7)), Some(LocalId::from_index(2)));
    let statement = IfStmt { span: span(), condition: flag(), then_block: block(Vec::new()), else_block: None };
    let statements = [ScalarStatement::If(&statement)];
    assert_eq!(lowerer().lower_in_context(&mut context, &statements, None, ScopeId::from_index(0)), Ok(false));
    let blocks = finished(context);
    assert_eq!(blocks[0].terminator, switch(Operand::Copy(Place::local(LocalId::from_index(2))), 1, 2, Some(3)));
}

#[test]
fn conditionals_whose_branches_both_leave_are_not_taken() {
    let both = IfStmt {
        span: span(),
        condition: flag(),
        then_block: block(vec![Stmt::Break(span())]),
        else_block: Some(block(vec![Stmt::Continue(span())])),
    };
    assert!(!scalar_conditional_statement_is_supported(&both, true));
    let one = IfStmt { span: span(), condition: flag(), then_block: block(vec![Stmt::Break(span())]), else_block: None };
    assert!(scalar_conditional_statement_is_supported(&one, true));
    assert!(!scalar_conditional_statement_is_supported(&one, false));
}
