//! Explicit source `drop` statements projected onto checked MIR ownership
//! edges.

use crate::ids::BasicBlockId;
use crate::lower::body_builder::{ControlFlowBuilder, PendingView};
use crate::lower::context::{bound_local, LoweringContext};
use crate::lower::BuildError;
use crate::model::{Place, Terminator};
use crate::semantic::LocalSymbolId;
use vstd::prelude::*;

verus! {

/// Lowers `drop name`: the open block ends by destroying the local bound
/// to the name with its plan, and continues in a fresh block of the same
/// scope. Fails for a name bound to no local, and for a local without a
/// plan, whose value is not owned.
pub fn lower(context: &mut LoweringContext, symbol: LocalSymbolId) -> (lowered: Result<(), BuildError>)
    requires
        old(context).control_flow.pending().len() < u32::MAX,
        bound_local(old(context).locals_by_symbol@, symbol) matches Some(local) ==> local.0 < old(context).locals@.len(),
    ensures
        final(context).locals == old(context).locals,
        final(context).locals_by_symbol == old(context).locals_by_symbol,
        final(context).drop_plans == old(context).drop_plans,
        final(context).scopes == old(context).scopes,
        final(context).loop_regions == old(context).loop_regions,
        match bound_local(old(context).locals_by_symbol@, symbol) {
            None => lowered == Err::<(), BuildError>(BuildError::MissingLocalSymbol)
                && final(context).control_flow == old(context).control_flow,
            Some(local) => match old(context).locals@[local.0 as int].drop_plan {
                None => lowered == Err::<(), BuildError>(BuildError::UnsupportedClaimedExpression)
                    && final(context).control_flow == old(context).control_flow,
                Some(plan) => ControlFlowBuilder::closed_and_reserved(
                    old(context).control_flow,
                    final(context).control_flow,
                    ControlFlowBuilder::failure_of(lowered),
                    Terminator::Drop {
                        place: Place { local, projection: None },
                        plan,
                        target: BasicBlockId::at(old(context).control_flow.pending().len() as int),
                    },
                    seq![PendingView::fresh(old(context).control_flow.open_scope())],
                    seq![PendingView::fresh(old(context).control_flow.open_scope())],
                    Some(BasicBlockId::at(old(context).control_flow.pending().len() as int)),
                ),
            },
        },
{
    let local = match context.local_of_symbol(symbol) {
        Some(local) => local,
        None => return Err(BuildError::MissingLocalSymbol),
    };
    let plan = match context.locals[local.index()].drop_plan {
        Some(plan) => plan,
        None => return Err(BuildError::UnsupportedClaimedExpression),
    };
    context.control_flow.emit_drop(Place::local(local), plan)
}

} // verus!
