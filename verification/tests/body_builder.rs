use mir::calls::CallInstance;
use mir::ids::{BasicBlockId, DropPlanId, LocalId, ScopeId};
use mir::lower::body_builder::ControlFlowBuilder;
use mir::lower::BuildError;
use mir::model::{
    CallContinuation, Constant, Operand, Origin, Place, Rvalue, Statement, Terminator,
};
use mir::locals::ScalarType;
use mir::semantic::{DefId, ExprId, OutcomeLayer, TyId};

fn assign(local: usize, value: u64) -> Statement {
    Statement::Assign {
        destination: Place::local(LocalId::from_index(local)),
        value: Rvalue::Use(Operand::Constant(Constant {
            ty: TyId::from_index(0),
            scalar: ScalarType::I32,
            value,
        })),
        origin: Origin::Expression(ExprId::from_index(0)),
    }
}

fn condition() -> Operand {
    Operand::Copy(Place::local(LocalId::from_index(1)))
}

#[test]
fn straight_line_body_finishes_with_its_statements() {
    let mut builder = ControlFlowBuilder::new(ScopeId::from_index(0));
    assert_eq!(builder.current_block(), Ok(BasicBlockId::from_index(0)));
    assert_eq!(builder.push_statement(assign(0, 1)), Ok(()));
    assert_eq!(builder.push_statement(assign(0, 2)), Ok(()));
    assert_eq!(builder.terminate(Terminator::Return), Ok(()));
    assert_eq!(builder.current_block(), Err(BuildError::MissingOpenBlock));
    let blocks = builder.finish().unwrap();
    assert_eq!(blocks.len(), 1);
    assert_eq!(blocks[0].statements, vec![assign(0, 1), assign(0, 2)]);
    assert_eq!(blocks[0].terminator, Terminator::Return);
    assert_eq!(blocks[0].scope, ScopeId::from_index(0));
}

#[test]
fn statements_need_an_open_block() {
    let mut builder = ControlFlowBuilder::new(ScopeId::from_index(0));
    builder.terminate(Terminator::Return).unwrap();
    assert_eq!(builder.push_statement(assign(0, 1)), Err(BuildError::MissingOpenBlock));
    assert_eq!(builder.terminate(Terminator::Trap), Err(BuildError::MissingOpenBlock));
    assert_eq!(builder.current_block_mut(), Err(BuildError::MissingOpenBlock));
}

#[test]
fn finish_rejects_open_and_unterminated_blocks() {
    let open = ControlFlowBuilder::new(ScopeId::from_index(0));
    assert_eq!(open.finish().unwrap_err(), BuildError::OpenBlockNotTerminated);

    let mut reserved = ControlFlowBuilder::new(ScopeId::from_index(0));
    let next = reserved.reserve_block(ScopeId::from_index(0));
    assert_eq!(next, BasicBlockId::from_index(1));
    reserved.terminate(Terminator::Goto { target: next }).unwrap();
    assert_eq!(reserved.finish().unwrap_err(), BuildError::UnterminatedReservedBlock);
}

#[test]
fn selecting_requires_a_closed_current_block_and_an_open_target() {
    let mut builder = ControlFlowBuilder::new(ScopeId::from_index(0));
    let next = builder.reserve_block(ScopeId::from_index(1));
    assert_eq!(builder.select_block(next), Err(BuildError::OpenBlockNotTerminated));
    builder.terminate(Terminator::Goto { target: next }).unwrap();
    assert_eq!(
        builder.select_block(BasicBlockId::from_index(0)),
        Err(BuildError::BlockAlreadyTerminated)
    );
    assert_eq!(
        builder.select_block(BasicBlockId::from_index(7)),
        Err(BuildError::MissingOpenBlock)
    );
    assert_eq!(builder.select_block(next), Ok(()));
    assert_eq!(builder.current_scope(), Ok(ScopeId::from_index(1)));
    builder.terminate(Terminator::Return).unwrap();
    let blocks = builder.finish().unwrap();
    assert_eq!(blocks.len(), 2);
    assert_eq!(blocks[1].scope, ScopeId::from_index(1));
}

#[test]
fn terminating_a_closed_block_keeps_the_new_terminator_and_reports_it() {
    let mut builder = ControlFlowBuilder::new(ScopeId::from_index(0));
    let next = builder.reserve_block(ScopeId::from_index(0));
    builder.terminate(Terminator::Goto { target: next }).unwrap();
    builder.select_block(next).unwrap();
    builder.terminate(Terminator::Return).unwrap();
    assert_eq!(builder.terminate(Terminator::Trap), Err(BuildError::MissingOpenBlock));
    let blocks = builder.finish().unwrap();
    assert_eq!(blocks[0].terminator, Terminator::Goto { target: next });
}

#[test]
fn switch_join_is_recorded_on_switches_only() {
    let mut builder = ControlFlowBuilder::new(ScopeId::from_index(0));
    let then_block = builder.reserve_block(ScopeId::from_index(0));
    let else_block = builder.reserve_block(ScopeId::from_index(0));
    let join = builder.reserve_block(ScopeId::from_index(0));
    builder
        .terminate(Terminator::Switch {
            condition: condition(),
            then_target: then_block,
            else_target: else_block,
            join_target: None,
        })
        .unwrap();
    assert_eq!(builder.set_switch_join(BasicBlockId::from_index(0), Some(join)), Ok(()));
    assert_eq!(
        builder.set_switch_join(then_block, Some(join)),
        Err(BuildError::UnsupportedClaimedExpression)
    );
    assert_eq!(
        builder.set_switch_join(BasicBlockId::from_index(9), Some(join)),
        Err(BuildError::MissingOpenBlock)
    );
    for block in [then_block, else_block] {
        builder.select_block(block).unwrap();
        builder.terminate(Terminator::Goto { target: join }).unwrap();
    }
    builder.select_block(join).unwrap();
    builder.terminate(Terminator::Return).unwrap();
    let blocks = builder.finish().unwrap();
    assert_eq!(
        blocks[0].terminator,
        Terminator::Switch {
            condition: condition(),
            then_target: then_block,
            else_target: else_block,
            join_target: Some(join),
        }
    );
}

#[test]
fn only_the_last_empty_reserved_block_can_be_discarded() {
    let mut builder = ControlFlowBuilder::new(ScopeId::from_index(0));
    let first = builder.reserve_block(ScopeId::from_index(0));
    let second = builder.reserve_block(ScopeId::from_index(0));
    assert_eq!(
        builder.discard_last_reserved_block(second),
        Err(BuildError::UnsupportedClaimedExpression)
    );
    builder.terminate(Terminator::Goto { target: first }).unwrap();
    assert_eq!(
        builder.discard_last_reserved_block(first),
        Err(BuildError::UnsupportedClaimedExpression)
    );
    assert_eq!(builder.discard_last_reserved_block(second), Ok(()));
    builder.select_block(first).unwrap();
    builder.terminate(Terminator::Return).unwrap();
    assert_eq!(builder.finish().unwrap().len(), 2);
}

#[test]
fn returning_call_continues_in_a_fresh_block_of_the_same_scope() {
    let mut builder = ControlFlowBuilder::new(ScopeId::from_index(2));
    let callee = CallInstance::direct(DefId::from_index(1));
    builder
        .emit_returning_call(ExprId::from_index(3), callee.clone(), Vec::new(), LocalId::from_index(4))
        .unwrap();
    assert_eq!(builder.current_block(), Ok(BasicBlockId::from_index(1)));
    builder.emit_drop(Place::local(LocalId::from_index(4)), DropPlanId::from_index(0)).unwrap();
    builder.emit_effect_call(ExprId::from_index(5), callee.clone(), Vec::new()).unwrap();
    builder.emit_never_call(ExprId::from_index(6), callee.clone(), Vec::new()).unwrap();
    assert_eq!(builder.current_block(), Err(BuildError::MissingOpenBlock));
    let blocks = builder.finish().unwrap();
    assert_eq!(blocks.len(), 4);
    assert!(blocks.iter().all(|block| block.scope == ScopeId::from_index(2)));
    assert_eq!(
        blocks[0].terminator,
        Terminator::Call {
            origin: Origin::Expression(ExprId::from_index(3)),
            callee: callee.clone(),
            arguments: Vec::new(),
            continuation: CallContinuation::Return {
                destination: Place::local(LocalId::from_index(4)),
                target: BasicBlockId::from_index(1),
            },
        }
    );
    assert_eq!(
        blocks[1].terminator,
        Terminator::Drop {
            place: Place::local(LocalId::from_index(4)),
            plan: DropPlanId::from_index(0),
            target: BasicBlockId::from_index(2),
        }
    );
    assert_eq!(
        blocks[3].terminator,
        Terminator::Call {
            origin: Origin::Expression(ExprId::from_index(6)),
            callee,
            arguments: Vec::new(),
            continuation: CallContinuation::Never,
        }
    );
}

#[test]
fn trapping_outcome_call_closes_its_failure_block() {
    let mut builder = ControlFlowBuilder::new(ScopeId::from_index(0));
    let callee = CallInstance::direct(DefId::from_index(1));
    builder
        .emit_trapping_outcome_call(ExprId::from_index(0), callee.clone(), Vec::new(), LocalId::from_index(2))
        .unwrap();
    assert_eq!(builder.current_block(), Ok(BasicBlockId::from_index(1)));
    builder
        .emit_propagating_outcome_effect(ExprId::from_index(1), callee.clone(), Vec::new())
        .unwrap();
    assert_eq!(builder.current_block(), Ok(BasicBlockId::from_index(3)));
    builder.terminate(Terminator::Return).unwrap();
    let blocks = builder.finish().unwrap();
    assert_eq!(blocks.len(), 5);
    assert_eq!(blocks[2].terminator, Terminator::Trap);
    assert_eq!(blocks[4].terminator, Terminator::PropagateFailure);
    assert_eq!(
        blocks[0].terminator,
        Terminator::Call {
            origin: Origin::Expression(ExprId::from_index(0)),
            callee: callee.clone(),
            arguments: Vec::new(),
            continuation: CallContinuation::Outcome {
                destination: Place::local(LocalId::from_index(2)),
                success: BasicBlockId::from_index(1),
                failure: BasicBlockId::from_index(2),
                failure_payload: None,
            },
        }
    );
    assert_eq!(
        blocks[1].terminator,
        Terminator::Call {
            origin: Origin::Expression(ExprId::from_index(1)),
            callee,
            arguments: Vec::new(),
            continuation: CallContinuation::OutcomeEffect {
                success: BasicBlockId::from_index(3),
                failure: BasicBlockId::from_index(4),
                failure_payload: None,
            },
        }
    );
}

#[test]
fn handled_outcome_opens_the_failure_block_in_its_own_scope() {
    let mut builder = ControlFlowBuilder::new(ScopeId::from_index(0));
    let callee = CallInstance::direct(DefId::from_index(1));
    let success = builder
        .begin_handled_outcome_call(
            ExprId::from_index(0),
            callee,
            Vec::new(),
            LocalId::from_index(1),
            ScopeId::from_index(3),
            Some(LocalId::from_index(2)),
        )
        .unwrap();
    assert_eq!(success, BasicBlockId::from_index(1));
    assert_eq!(builder.current_block(), Ok(BasicBlockId::from_index(2)));
    assert_eq!(builder.current_scope(), Ok(ScopeId::from_index(3)));
    builder.terminate(Terminator::Goto { target: success }).unwrap();
    builder.select_block(success).unwrap();
    let inspected = builder
        .begin_stored_outcome_inspection(
            Origin::Expression(ExprId::from_index(4)),
            Operand::Move(Place::local(LocalId::from_index(1))),
            OutcomeLayer::Optional,
            LocalId::from_index(5),
            ScopeId::from_index(0),
            None,
        )
        .unwrap();
    assert_eq!(inspected, BasicBlockId::from_index(3));
    assert_eq!(builder.current_block(), Ok(BasicBlockId::from_index(4)));
    builder.terminate(Terminator::ReturnOptionalNone).unwrap();
    builder.select_block(inspected).unwrap();
    builder
        .emit_stored_outcome_inspection(
            Origin::Expression(ExprId::from_index(6)),
            Operand::Move(Place::local(LocalId::from_index(5))),
            OutcomeLayer::Fallible,
            LocalId::from_index(6),
            Terminator::PropagateFailure,
        )
        .unwrap();
    assert_eq!(builder.current_block(), Ok(BasicBlockId::from_index(5)));
    builder.terminate(Terminator::Return).unwrap();
    let blocks = builder.finish().unwrap();
    assert_eq!(blocks.len(), 7);
    assert_eq!(blocks[2].scope, ScopeId::from_index(3));
    assert_eq!(blocks[6].terminator, Terminator::PropagateFailure);
}

#[test]
fn calls_without_an_open_block_change_nothing() {
    let mut builder = ControlFlowBuilder::new(ScopeId::from_index(0));
    builder.terminate(Terminator::Return).unwrap();
    let callee = CallInstance::direct(DefId::from_index(1));
    assert_eq!(
        builder.emit_returning_call(ExprId::from_index(0), callee.clone(), Vec::new(), LocalId::from_index(0)),
        Err(BuildError::MissingOpenBlock)
    );
    assert_eq!(
        builder.emit_trapping_outcome_effect(ExprId::from_index(0), callee, Vec::new()),
        Err(BuildError::MissingOpenBlock)
    );
    assert_eq!(builder.finish().unwrap().len(), 1);
}
