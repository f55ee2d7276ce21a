//! Executable edges for validation without changing structural MIR topology.

use crate::ids::BasicBlockId;
use crate::locals::ScalarType;
use crate::model::{CallContinuation, Operand, Terminator};
use vstd::prelude::*;

verus! {

/// The targets of a two-way branch, with a repeated target listed once.
pub open spec fn distinct_target_seq(first: BasicBlockId, second: BasicBlockId) -> Seq<BasicBlockId> {
    if first == second {
        seq![first]
    } else {
        seq![first, second]
    }
}

/// The targets a switch on `condition` can take: a constant boolean selects
/// exactly one of them.
pub open spec fn switch_target_seq(
    condition: Operand,
    then_target: BasicBlockId,
    else_target: BasicBlockId,
) -> Seq<BasicBlockId> {
    match condition {
        Operand::Constant(constant) => {
            if constant.scalar == ScalarType::Bool && constant.value <= 1 {
                if constant.value == 1 {
                    seq![then_target]
                } else {
                    seq![else_target]
                }
            } else {
                distinct_target_seq(then_target, else_target)
            }
        },
        _ => distinct_target_seq(then_target, else_target),
    }
}

/// The blocks that control can reach directly from `terminator`.
pub open spec fn successor_seq(terminator: Terminator) -> Seq<BasicBlockId> {
    match terminator {
        Terminator::Goto { target } => seq![target],
        Terminator::Drop { target, .. } => seq![target],
        Terminator::Switch { condition, then_target, else_target, .. } => switch_target_seq(
            condition,
            then_target,
            else_target,
        ),
        Terminator::Call { continuation, .. } => match continuation {
            CallContinuation::Continue { target } => seq![target],
            CallContinuation::Return { target, .. } => seq![target],
            CallContinuation::Outcome { success, failure, .. } => distinct_target_seq(success, failure),
            CallContinuation::OutcomeEffect { success, failure, .. } => distinct_target_seq(
                success,
                failure,
            ),
            CallContinuation::Never => seq![],
        },
        Terminator::InspectOutcome { success, failure, .. } => distinct_target_seq(success, failure),
        _ => seq![],
    }
}

/// The executable successors of a terminator, in order and without repeats.
pub fn successors(terminator: &Terminator) -> (targets: Vec<BasicBlockId>)
    ensures
        targets@ == successor_seq(*terminator),
{
    match terminator {
        Terminator::Goto { target } => vec![*target],
        Terminator::Drop { target, .. } => vec![*target],
        Terminator::Switch { condition, then_target, else_target, .. } => switch_targets(
            condition,
            *then_target,
            *else_target,
        ),
        Terminator::Call { continuation, .. } => match continuation {
            CallContinuation::Continue { target } => vec![*target],
            CallContinuation::Return { target, .. } => vec![*target],
            CallContinuation::Outcome { success, failure, .. } => distinct_targets(*success, *failure),
            CallContinuation::OutcomeEffect { success, failure, .. } => distinct_targets(
                *success,
                *failure,
            ),
            CallContinuation::Never => Vec::new(),
        },
        Terminator::InspectOutcome { success, failure, .. } => distinct_targets(*success, *failure),
        Terminator::Trap
        | Terminator::PropagateFailure
        | Terminator::ReturnOutcome { .. }
        | Terminator::ReturnFailure { .. }
        | Terminator::ReturnOutcomeSuccess { .. }
        | Terminator::ReturnOptionalNone
        | Terminator::ReturnValue { .. }
        | Terminator::Return => Vec::new(),
    }
}

/// The targets a switch on `condition` can take.
pub fn switch_targets(
    condition: &Operand,
    then_target: BasicBlockId,
    else_target: BasicBlockId,
) -> (targets: Vec<BasicBlockId>)
    ensures
        targets@ == switch_target_seq(*condition, then_target, else_target),
{
    let constant = match condition {
        Operand::Constant(constant) => *constant,
        _ => {
            return distinct_targets(then_target, else_target);
        },
    };
    if constant.scalar != ScalarType::Bool || constant.value > 1 {
        return distinct_targets(then_target, else_target);
    }
    vec![if constant.value == 1 {
        then_target
    } else {
        else_target
    }]
}

/// Both targets of a branch, or one when they coincide.
pub fn distinct_targets(then_target: BasicBlockId, else_target: BasicBlockId) -> (targets: Vec<BasicBlockId>)
    ensures
        targets@ == distinct_target_seq(then_target, else_target),
{
    if then_target == else_target {
        vec![then_target]
    } else {
        vec![then_target, else_target]
    }
}

} // verus!
