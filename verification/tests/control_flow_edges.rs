use mir::control_flow::{distinct_targets, successors, switch_targets};
use mir::ids::{BasicBlockId, LocalId};
use mir::locals::ScalarType;
use mir::model::{CallContinuation, Constant, Operand, Place, Terminator};
use mir::semantic::TyId;

#[test]
fn selects_only_the_executable_constant_boolean_edge() {
    let condition = Operand::Constant(Constant {
        ty: TyId::from_index(0),
        scalar: ScalarType::Bool,
        value: 0,
    });
    assert_eq!(
        switch_targets(
            &condition,
            BasicBlockId::from_index(1),
            BasicBlockId::from_index(2),
        ),
        vec![BasicBlockId::from_index(2)]
    );
}

#[test]
fn retains_both_edges_for_a_runtime_boolean() {
    let condition = Operand::Copy(Place::local(LocalId::from_index(0)));
    assert_eq!(
        switch_targets(
            &condition,
            BasicBlockId::from_index(1),
            BasicBlockId::from_index(2),
        ),
        vec![BasicBlockId::from_index(1), BasicBlockId::from_index(2)]
    );
}

#[test]
fn a_true_constant_selects_the_then_edge() {
    let condition = Operand::Constant(Constant {
        ty: TyId::from_index(0),
        scalar: ScalarType::Bool,
        value: 1,
    });
    assert_eq!(
        switch_targets(&condition, BasicBlockId::from_index(4), BasicBlockId::from_index(5)),
        vec![BasicBlockId::from_index(4)]
    );
}

#[test]
fn a_non_boolean_constant_keeps_both_edges() {
    let condition = Operand::Constant(Constant {
        ty: TyId::from_index(0),
        scalar: ScalarType::I32,
        value: 1,
    });
    assert_eq!(
        switch_targets(&condition, BasicBlockId::from_index(4), BasicBlockId::from_index(5)),
        vec![BasicBlockId::from_index(4), BasicBlockId::from_index(5)]
    );
}

#[test]
fn coinciding_targets_are_listed_once() {
    assert_eq!(
        distinct_targets(BasicBlockId::from_index(3), BasicBlockId::from_index(3)),
        vec![BasicBlockId::from_index(3)]
    );
}

#[test]
fn exits_and_diverging_calls_have_no_successors() {
    assert!(successors(&Terminator::Return).is_empty());
    assert!(successors(&Terminator::Trap).is_empty());
    let call = Terminator::Call {
        origin: mir::model::Origin::Expression(mir::semantic::ExprId::from_index(0)),
        callee: mir::calls::CallInstance::direct(mir::semantic::DefId::from_index(0)),
        arguments: Vec::new(),
        continuation: CallContinuation::Never,
    };
    assert!(successors(&call).is_empty());
    let outcome = Terminator::Call {
        origin: mir::model::Origin::Expression(mir::semantic::ExprId::from_index(0)),
        callee: mir::calls::CallInstance::direct(mir::semantic::DefId::from_index(0)),
        arguments: Vec::new(),
        continuation: CallContinuation::Outcome {
            destination: Place::local(LocalId::from_index(0)),
            success: BasicBlockId::from_index(1),
            failure: BasicBlockId::from_index(2),
            failure_payload: None,
        },
    };
    assert_eq!(
        successors(&outcome),
        vec![BasicBlockId::from_index(1), BasicBlockId::from_index(2)]
    );
}
