//! The meaning of drop-obligation analysis: what one block does to the
//! places that may and must own a live obligation, and what the analysis
//! guarantees of the entry states it settles on.

use crate::drop_obligations::{
    exit_error, owns_obligation, place_owns_obligation, DropObligationError,
    DropObligationErrorKind, DropObligationLocation,
};
use crate::ids::{BasicBlockId, LocalId};
use crate::initialization::rvalue_operand_seq;
use crate::initialization_flow::{edge_targets, reachable, reachable_within, whole, Available};
use crate::model::{Body, CallArgument, CallContinuation, Operand, Place, Statement, Terminator};
use crate::places::{paths_of_place, PlaceState};
use vstd::prelude::*;

verus! {

/// What may own a live obligation, and what must.
pub type Obligations = (Available, Available);

/// `first` claims less than `second`: at most what `second` may hold live,
/// at least what `second` must hold live.
pub open spec fn weaker(first: Obligations, second: Obligations) -> bool {
    &&& first.0.0.subset_of(second.0.0)
    &&& first.0.1.subset_of(second.0.1)
    &&& second.1.0.subset_of(first.1.0)
    &&& second.1.1.subset_of(first.1.1)
}

/// The join of two states: what either may hold live, what both must.
pub open spec fn join(first: Obligations, second: Obligations) -> Obligations {
    (
        (first.0.0.union(second.0.0), first.0.1.union(second.0.1)),
        (first.1.0.intersect(second.1.0), first.1.1.intersect(second.1.1)),
    )
}

/// Moving out of `operand` releases the obligation of its place.
pub open spec fn consumed(body: Body, view: Obligations, operand: Operand) -> Obligations {
    match operand {
        Operand::Move(place) => (
            PlaceState::moved_out(view.0, body, place),
            PlaceState::moved_out(view.1, body, place),
        ),
        _ => view,
    }
}

/// Moving out of each of `operands` in turn.
pub open spec fn consumed_all(body: Body, view: Obligations, operands: Seq<Operand>) -> Obligations
    decreases operands.len(),
{
    if operands.len() == 0 {
        view
    } else {
        consumed(body, consumed_all(body, view, operands.drop_last()), operands.last())
    }
}

/// Moving out of each call argument in turn.
pub open spec fn consumed_arguments(body: Body, view: Obligations, arguments: Seq<CallArgument>) -> Obligations
    decreases arguments.len(),
{
    if arguments.len() == 0 {
        view
    } else {
        consumed(body, consumed_arguments(body, view, arguments.drop_last()), arguments.last().operand)
    }
}

/// Writing into `place`: an owned place becomes live, and writing over one
/// that may still be live is an overwrite.
pub open spec fn activated(
    body: Body,
    view: Obligations,
    place: Place,
    block: BasicBlockId,
    location: DropObligationLocation,
) -> (Set<DropObligationError>, Obligations) {
    if place_owns_obligation(body, place) {
        (
            if PlaceState::any_within_in(view.0, body, place) {
                set![
                    DropObligationError {
                        block,
                        location,
                        local: place.local,
                        kind: DropObligationErrorKind::Overwrite,
                    },
                ]
            } else {
                Set::empty()
            },
            (
                PlaceState::initialized(view.0, body, place),
                PlaceState::initialized(view.1, body, place),
            ),
        )
    } else {
        (Set::empty(), view)
    }
}

/// The owned locals, other than the return local, that may still be live
/// when `block` leaves the body.
pub open spec fn exit_errors(body: Body, view: Obligations, block: BasicBlockId) -> Set<DropObligationError> {
    Set::new(|error: DropObligationError| exit_error(body, view.0, block, error))
}

/// Statement `index` of `block` applied to `view`.
pub open spec fn statement_step(
    body: Body,
    view: Obligations,
    statement: Statement,
    block: BasicBlockId,
    index: usize,
) -> (Set<DropObligationError>, Obligations) {
    match statement {
        Statement::FinishAggregate { destination } => (
            Set::empty(),
            if place_owns_obligation(body, destination) {
                (
                    PlaceState::initialized(view.0, body, destination),
                    PlaceState::initialized(view.1, body, destination),
                )
            } else {
                view
            },
        ),
        Statement::Assign { destination, value, .. } => activated(
            body,
            consumed_all(body, view, rvalue_operand_seq(value)),
            destination,
            block,
            DropObligationLocation::Assignment(index),
        ),
        _ => (Set::empty(), view),
    }
}

/// The statements of `block` applied in order to `view`.
pub open spec fn statements_step(
    body: Body,
    view: Obligations,
    statements: Seq<Statement>,
    block: BasicBlockId,
) -> (Set<DropObligationError>, Obligations)
    decreases statements.len(),
{
    if statements.len() == 0 {
        (Set::empty(), view)
    } else {
        let before = statements_step(body, view, statements.drop_last(), block);
        let last = statement_step(
            body,
            before.1,
            statements.last(),
            block,
            (statements.len() - 1) as usize,
        );
        (before.0.union(last.0), last.1)
    }
}

/// What a block does: the errors it reports and the state it sends along
/// each edge it leaves by, in order.
pub struct ObligationFlow {
    pub errors: Set<DropObligationError>,
    pub edges: Seq<(BasicBlockId, Obligations)>,
}

/// What the terminator of `block` does, entered with `view`.
pub open spec fn terminator_flow(
    body: Body,
    view: Obligations,
    terminator: Terminator,
    block: BasicBlockId,
) -> ObligationFlow {
    match terminator {
        Terminator::Goto { target } => ObligationFlow { errors: Set::empty(), edges: seq![(target, view)] },
        Terminator::Switch { condition, then_target, else_target, .. } => {
            let after = consumed(body, view, condition);
            ObligationFlow {
                errors: Set::empty(),
                edges: seq![(then_target, after), (else_target, after)],
            }
        },
        Terminator::Call { arguments, continuation, .. } => {
            let after = consumed_arguments(body, view, arguments@);
            match continuation {
                CallContinuation::Continue { target } => ObligationFlow {
                    errors: Set::empty(),
                    edges: seq![(target, after)],
                },
                CallContinuation::Return { destination, target } => {
                    let written = activated(body, after, destination, block, DropObligationLocation::Exit);
                    ObligationFlow { errors: written.0, edges: seq![(target, written.1)] }
                },
                CallContinuation::Outcome { destination, success, failure, .. } => {
                    let written = activated(body, after, destination, block, DropObligationLocation::Exit);
                    ObligationFlow {
                        errors: written.0,
                        edges: seq![(success, written.1), (failure, after)],
                    }
                },
                CallContinuation::OutcomeEffect { success, failure, .. } => ObligationFlow {
                    errors: Set::empty(),
                    edges: seq![(success, after), (failure, after)],
                },
                CallContinuation::Never => ObligationFlow {
                    errors: exit_errors(body, after, block),
                    edges: seq![],
                },
            }
        },
        Terminator::InspectOutcome { destination, success, failure, .. } => {
            let written = activated(body, view, destination, block, DropObligationLocation::Exit);
            ObligationFlow { errors: written.0, edges: seq![(success, written.1), (failure, view)] }
        },
        Terminator::Drop { place, target, .. } => {
            if !owns_obligation(body, place.local) {
                ObligationFlow {
                    errors: set![
                        DropObligationError {
                            block,
                            location: DropObligationLocation::Drop,
                            local: place.local,
                            kind: DropObligationErrorKind::DropOfNonOwned,
                        },
                    ],
                    edges: seq![(target, view)],
                }
            } else if !PlaceState::available_in(view.1, body, place) {
                ObligationFlow {
                    errors: set![
                        DropObligationError {
                            block,
                            location: DropObligationLocation::Drop,
                            local: place.local,
                            kind: DropObligationErrorKind::DropOfInactive,
                        },
                    ],
                    edges: seq![(target, view)],
                }
            } else {
                ObligationFlow {
                    errors: Set::empty(),
                    edges: seq![
                        (
                            target,
                            (
                                PlaceState::moved_out(view.0, body, place),
                                PlaceState::moved_out(view.1, body, place),
                            ),
                        ),
                    ],
                }
            }
        },
        Terminator::ReturnValue { source }
        | Terminator::ReturnOutcome { source }
        | Terminator::ReturnOutcomeSuccess { source } => ObligationFlow {
            errors: exit_errors(body, consumed(body, view, source), block),
            edges: seq![],
        },
        Terminator::ReturnFailure { code, message } => ObligationFlow {
            errors: exit_errors(body, consumed(body, consumed(body, view, code), message), block),
            edges: seq![],
        },
        _ => ObligationFlow { errors: exit_errors(body, view, block), edges: seq![] },
    }
}

/// What block `block` of `body` does, entered with `entry`.
pub open spec fn block_flow(body: Body, block: BasicBlockId, entry: Obligations) -> ObligationFlow {
    let statements = statements_step(body, entry, body.blocks@[block@ as int].statements@, block);
    let end = terminator_flow(body, statements.1, body.blocks@[block@ as int].terminator, block);
    ObligationFlow { errors: statements.0.union(end.errors), edges: end.edges }
}

/// Every error the statements of `block` report names `block`.
proof fn lemma_statement_errors_at_block(
    body: Body,
    view: Obligations,
    statements: Seq<Statement>,
    block: BasicBlockId,
    error: DropObligationError,
)
    requires
        statements_step(body, view, statements, block).0.contains(error),
    ensures
        error.block == block,
    decreases statements.len(),
{
    if statements.len() > 0 {
        let before = statements_step(body, view, statements.drop_last(), block);
        if before.0.contains(error) {
            lemma_statement_errors_at_block(body, view, statements.drop_last(), block, error);
        }
    }
}

/// Every error a block reports names that block.
pub proof fn lemma_flow_errors_at_block(body: Body, block: BasicBlockId, entry: Obligations, error: DropObligationError)
    requires
        block_flow(body, block, entry).errors.contains(error),
    ensures
        error.block == block,
{
    let statements = statements_step(body, entry, body.blocks@[block@ as int].statements@, block);
    if statements.0.contains(error) {
        lemma_statement_errors_at_block(body, entry, body.blocks@[block@ as int].statements@, block, error);
    }
}

/// Moving out of an operand keeps one state claiming less than another.
pub proof fn lemma_consumed_weaker(body: Body, first: Obligations, second: Obligations, operand: Operand)
    requires
        weaker(first, second),
    ensures
        weaker(consumed(body, first, operand), consumed(body, second, operand)),
{
}

/// Moving out of operands keeps one state claiming less than another.
pub proof fn lemma_consumed_all_weaker(body: Body, first: Obligations, second: Obligations, operands: Seq<Operand>)
    requires
        weaker(first, second),
    ensures
        weaker(consumed_all(body, first, operands), consumed_all(body, second, operands)),
    decreases operands.len(),
{
    if operands.len() > 0 {
        lemma_consumed_all_weaker(body, first, second, operands.drop_last());
        lemma_consumed_weaker(
            body,
            consumed_all(body, first, operands.drop_last()),
            consumed_all(body, second, operands.drop_last()),
            operands.last(),
        );
    }
}

/// Moving out of call arguments keeps one state claiming less than
/// another.
pub proof fn lemma_consumed_arguments_weaker(
    body: Body,
    first: Obligations,
    second: Obligations,
    arguments: Seq<CallArgument>,
)
    requires
        weaker(first, second),
    ensures
        weaker(consumed_arguments(body, first, arguments), consumed_arguments(body, second, arguments)),
    decreases arguments.len(),
{
    if arguments.len() > 0 {
        lemma_consumed_arguments_weaker(body, first, second, arguments.drop_last());
        lemma_consumed_weaker(
            body,
            consumed_arguments(body, first, arguments.drop_last()),
            consumed_arguments(body, second, arguments.drop_last()),
            arguments.last().operand,
        );
    }
}

/// Writing a place from a state that claims less reports no more and
/// leaves a state that claims less.
pub proof fn lemma_activated_monotone(
    body: Body,
    first: Obligations,
    second: Obligations,
    place: Place,
    block: BasicBlockId,
    location: DropObligationLocation,
)
    requires
        weaker(first, second),
    ensures
        activated(body, first, place, block, location).0.subset_of(activated(body, second, place, block, location).0),
        weaker(activated(body, first, place, block, location).1, activated(body, second, place, block, location).1),
{
    if place_owns_obligation(body, place) && PlaceState::any_within_in(first.0, body, place) {
        if place.projection is None && first.0.0.contains(place.local@) {
            assert(second.0.0.contains(place.local@));
        } else {
            let q = choose|q: nat| first.0.1.contains(q) && #[trigger] paths_of_place(body, place).contains(q);
            assert(second.0.1.contains(q));
        }
    }
}

/// A statement run from a state that claims less reports no more and
/// leaves a state that claims less.
pub proof fn lemma_statement_step_monotone(
    body: Body,
    first: Obligations,
    second: Obligations,
    statement: Statement,
    block: BasicBlockId,
    index: usize,
)
    requires
        weaker(first, second),
    ensures
        statement_step(body, first, statement, block, index).0.subset_of(
            statement_step(body, second, statement, block, index).0,
        ),
        weaker(statement_step(body, first, statement, block, index).1, statement_step(body, second, statement, block, index).1),
{
    if let Statement::Assign { destination, value, .. } = statement {
        lemma_consumed_all_weaker(body, first, second, rvalue_operand_seq(value));
        lemma_activated_monotone(
            body,
            consumed_all(body, first, rvalue_operand_seq(value)),
            consumed_all(body, second, rvalue_operand_seq(value)),
            destination,
            block,
            DropObligationLocation::Assignment(index),
        );
    }
}

/// Statements run from a state that claims less report no more and leave a
/// state that claims less.
pub proof fn lemma_statements_step_monotone(
    body: Body,
    first: Obligations,
    second: Obligations,
    statements: Seq<Statement>,
    block: BasicBlockId,
)
    requires
        weaker(first, second),
    ensures
        statements_step(body, first, statements, block).0.subset_of(statements_step(body, second, statements, block).0),
        weaker(statements_step(body, first, statements, block).1, statements_step(body, second, statements, block).1),
    decreases statements.len(),
{
    if statements.len() > 0 {
        lemma_statements_step_monotone(body, first, second, statements.drop_last(), block);
        lemma_statement_step_monotone(
            body,
            statements_step(body, first, statements.drop_last(), block).1,
            statements_step(body, second, statements.drop_last(), block).1,
            statements.last(),
            block,
            (statements.len() - 1) as usize,
        );
    }
}

/// Leaving the body from a state that claims less reports no more.
pub proof fn lemma_exit_errors_monotone(body: Body, first: Obligations, second: Obligations, block: BasicBlockId)
    requires
        weaker(first, second),
    ensures
        exit_errors(body, first, block).subset_of(exit_errors(body, second, block)),
{
    assert forall|e: DropObligationError| exit_errors(body, first, block).contains(e) implies exit_errors(
        body,
        second,
        block,
    ).contains(e) by {
        let place = Place { local: e.local, projection: None };
        if !first.0.0.contains(e.local@) {
            let q = choose|q: nat| first.0.1.contains(q) && #[trigger] paths_of_place(body, place).contains(q);
            assert(second.0.1.contains(q));
        }
    }
}

/// A block entered with a state that claims less reports no more errors.
pub proof fn lemma_block_errors_monotone(body: Body, block: BasicBlockId, first: Obligations, second: Obligations)
    requires
        weaker(first, second),
    ensures
        block_flow(body, block, first).errors.subset_of(block_flow(body, block, second).errors),
{
    let statements = body.blocks@[block@ as int].statements@;
    lemma_statements_step_monotone(body, first, second, statements, block);
    let a = statements_step(body, first, statements, block).1;
    let b = statements_step(body, second, statements, block).1;
    match body.blocks@[block@ as int].terminator {
        Terminator::Switch { condition, .. } => {},
        Terminator::Call { arguments, continuation, .. } => {
            lemma_consumed_arguments_weaker(body, a, b, arguments@);
            let x = consumed_arguments(body, a, arguments@);
            let y = consumed_arguments(body, b, arguments@);
            match continuation {
                CallContinuation::Return { destination, .. } => {
                    lemma_activated_monotone(body, x, y, destination, block, DropObligationLocation::Exit);
                },
                CallContinuation::Outcome { destination, .. } => {
                    lemma_activated_monotone(body, x, y, destination, block, DropObligationLocation::Exit);
                },
                CallContinuation::Never => {
                    lemma_exit_errors_monotone(body, x, y, block);
                },
                _ => {},
            }
        },
        Terminator::InspectOutcome { destination, .. } => {
            lemma_activated_monotone(body, a, b, destination, block, DropObligationLocation::Exit);
        },
        Terminator::Drop { place, .. } => {},
        Terminator::ReturnValue { source } => {
            lemma_consumed_weaker(body, a, b, source);
            lemma_exit_errors_monotone(body, consumed(body, a, source), consumed(body, b, source), block);
        },
        Terminator::ReturnOutcome { source } => {
            lemma_consumed_weaker(body, a, b, source);
            lemma_exit_errors_monotone(body, consumed(body, a, source), consumed(body, b, source), block);
        },
        Terminator::ReturnOutcomeSuccess { source } => {
            lemma_consumed_weaker(body, a, b, source);
            lemma_exit_errors_monotone(body, consumed(body, a, source), consumed(body, b, source), block);
        },
        Terminator::ReturnFailure { code, message } => {
            lemma_consumed_weaker(body, a, b, code);
            lemma_consumed_weaker(body, consumed(body, a, code), consumed(body, b, code), message);
            lemma_exit_errors_monotone(
                body,
                consumed(body, consumed(body, a, code), message),
                consumed(body, consumed(body, b, code), message),
                block,
            );
        },
        Terminator::Goto { .. } => {},
        _ => {
            lemma_exit_errors_monotone(body, a, b, block);
        },
    }
}

/// The errors of states that claim no more than a solution's entries are
/// errors of the entries themselves.
pub proof fn lemma_possible_errors_settled(body: Body, entries: Seq<Option<Obligations>>)
    ensures
        possible_errors(body, entries).subset_of(settled_errors(body, entries)),
{
    assert forall|e: DropObligationError| possible_errors(body, entries).contains(e) implies settled_errors(
        body,
        entries,
    ).contains(e) by {
        let (b, state) = choose|b: int, state: Obligations|
            0 <= b < entries.len() && (#[trigger] entries[b] matches Some(entry) && weaker(state, entry)
                && #[trigger] block_flow(body, BasicBlockId::at(b), state).errors.contains(e));
        let entry = entries[b]->Some_0;
        lemma_block_errors_monotone(body, BasicBlockId::at(b), state, entry);
    }
}

/// The owned aggregate parameters among the first `count` locals.
pub open spec fn owned_parameters(body: Body, count: nat) -> Available
    decreases count,
{
    if count == 0 {
        (Set::empty(), Set::empty())
    } else {
        let before = owned_parameters(body, (count - 1) as nat);
        let local = body.locals@[count - 1];
        if local.storage is Parameter && owns_obligation(body, LocalId::at(count - 1)) {
            PlaceState::initialized(before, body, whole(LocalId::at(count - 1)))
        } else {
            before
        }
    }
}

/// The state the body is entered with: every owned aggregate parameter is
/// live on every path.
pub open spec fn initial_obligations(body: Body) -> Obligations {
    (owned_parameters(body, body.locals@.len()), owned_parameters(body, body.locals@.len()))
}

/// Every edge that leaves reached block `b` goes to a reached block whose
/// entry state claims no more than the edge: what the edge may hold live is
/// in the entry's may-set, what the entry must hold live the edge does too.
pub open spec fn edges_joined(body: Body, entries: Seq<Option<Obligations>>, b: int) -> bool {
    entries[b] matches Some(state) ==> forall|k: int|
        0 <= k < block_flow(body, BasicBlockId::at(b), state).edges.len() ==> (#[trigger] block_flow(
            body,
            BasicBlockId::at(b),
            state,
        ).edges[k]).0@ < entries.len() ==> (entries[block_flow(
            body,
            BasicBlockId::at(b),
            state,
        ).edges[k].0@ as int] matches Some(target) && weaker(
            block_flow(body, BasicBlockId::at(b), state).edges[k].1,
            target,
        ))
}

/// The entry states are a solution of drop-obligation analysis: the
/// reachable blocks have one, the entry block's accounts for the owned
/// parameters, and every edge's state is accounted for at its target.
pub open spec fn obligation_solution(body: Body, entries: Seq<Option<Obligations>>) -> bool {
    &&& entries.len() == body.blocks@.len()
    &&& entries[body.entry@ as int] matches Some(state) && weaker(initial_obligations(body), state)
    &&& forall|b: int| 0 <= b < entries.len() ==> (#[trigger] entries[b] is Some <==> reachable(body, b))
    &&& forall|b: int| 0 <= b < entries.len() ==> #[trigger] edges_joined(body, entries, b)
}

/// The errors of every reached block, entered with its state in `entries`.
pub open spec fn settled_errors(body: Body, entries: Seq<Option<Obligations>>) -> Set<DropObligationError> {
    Set::new(
        |error: DropObligationError|
            exists|b: int|
                0 <= b < entries.len() && (#[trigger] entries[b] matches Some(state)
                    && block_flow(body, BasicBlockId::at(b), state).errors.contains(error)),
    )
}

/// The errors a reached block reports when entered with some state that
/// claims no more than its entry in `entries`.
pub open spec fn possible_errors(body: Body, entries: Seq<Option<Obligations>>) -> Set<DropObligationError> {
    Set::new(
        |error: DropObligationError|
            exists|b: int, state: Obligations|
                0 <= b < entries.len() && (#[trigger] entries[b] matches Some(entry) && weaker(
                    state,
                    entry,
                ) && #[trigger] block_flow(body, BasicBlockId::at(b), state).errors.contains(error)),
    )
}

/// `entries` with `incoming` joined into the entry of `target`.
pub open spec fn merged(entries: Seq<Option<Obligations>>, target: BasicBlockId, incoming: Obligations) -> Seq<
    Option<Obligations>,
> {
    if target@ < entries.len() {
        entries.update(
            target@ as int,
            Some(
                match entries[target@ as int] {
                    None => incoming,
                    Some(existing) => join(existing, incoming),
                },
            ),
        )
    } else {
        entries
    }
}

/// `entries` with the state of each of `edges` joined into its target, in
/// order.
pub open spec fn merged_all(entries: Seq<Option<Obligations>>, edges: Seq<(BasicBlockId, Obligations)>) -> Seq<
    Option<Obligations>,
>
    decreases edges.len(),
{
    if edges.len() == 0 {
        entries
    } else {
        merged(merged_all(entries, edges.drop_last()), edges.last().0, edges.last().1)
    }
}

/// The queue after joining `incoming` into the entry of `target`: `target`
/// is queued again when its entry changed.
pub open spec fn requeued(
    entries: Seq<Option<Obligations>>,
    queue: Seq<BasicBlockId>,
    target: BasicBlockId,
    incoming: Obligations,
) -> Seq<BasicBlockId> {
    if target@ < entries.len() && merged(entries, target, incoming)[target@ as int] != entries[target@ as int] {
        queue.push(target)
    } else {
        queue
    }
}

/// The queue after joining the state of each of `edges` into its target, in
/// order.
pub open spec fn requeued_all(
    entries: Seq<Option<Obligations>>,
    queue: Seq<BasicBlockId>,
    edges: Seq<(BasicBlockId, Obligations)>,
) -> Seq<BasicBlockId>
    decreases edges.len(),
{
    if edges.len() == 0 {
        queue
    } else {
        requeued(
            merged_all(entries, edges.drop_last()),
            requeued_all(entries, queue, edges.drop_last()),
            edges.last().0,
            edges.last().1,
        )
    }
}

/// Where the analysis stands: the entry states, the queue of blocks to
/// visit, and the errors reported so far.
pub type AnalysisState = (Seq<Option<Obligations>>, Seq<BasicBlockId>, Set<DropObligationError>);

/// The analysis before its first step: only the entry block has a state,
/// the owned parameters live on every path, and it alone is queued.
pub open spec fn analysis_start(body: Body) -> AnalysisState {
    (
        Seq::new(
            body.blocks@.len(),
            |b: int|
                if b == body.entry@ {
                    Some(initial_obligations(body))
                } else {
                    None
                },
        ),
        seq![body.entry],
        Set::empty(),
    )
}

/// One step of the analysis: the first queued block, if it has a state, is
/// run from it; its errors are reported and the states it sends are joined
/// into their targets, which are queued again when their entries change.
pub open spec fn analysis_step(body: Body, state: AnalysisState) -> AnalysisState {
    let (entries, queue, errors) = state;
    if queue.len() == 0 {
        state
    } else {
        let block = queue[0];
        let rest = queue.drop_first();
        if block@ < entries.len() && entries[block@ as int] is Some {
            let flow = block_flow(body, block, entries[block@ as int]->Some_0);
            (merged_all(entries, flow.edges), requeued_all(entries, rest, flow.edges), errors.union(flow.errors))
        } else {
            (entries, rest, errors)
        }
    }
}

/// The analysis after `steps` steps.
pub open spec fn analysis_after(body: Body, steps: nat) -> AnalysisState
    decreases steps,
{
    if steps == 0 {
        analysis_start(body)
    } else {
        analysis_step(body, analysis_after(body, (steps - 1) as nat))
    }
}

/// The analysis once its queue is empty; from then on it stays as it is.
/// Its entry states solve the analysis equations; they are not stated to
/// be the least solution, since a drop of a place that must be live
/// releases the place with all its parts, so the state sent along a drop
/// edge does not grow with the state the drop is reached with.
pub open spec fn analysis_settled(body: Body) -> AnalysisState {
    analysis_after(body, choose|steps: nat| analysis_after(body, steps).1.len() == 0)
}

/// A settled analysis takes no more steps.
pub proof fn lemma_settled_stays(body: Body, settled: nat, later: nat)
    requires
        analysis_after(body, settled).1.len() == 0,
        settled <= later,
    ensures
        analysis_after(body, later) == analysis_after(body, settled),
    decreases later - settled,
{
    if later > settled {
        lemma_settled_stays(body, settled, (later - 1) as nat);
    }
}

/// Any step count at which the queue is empty gives the settled analysis.
pub proof fn lemma_settled_unique(body: Body, steps: nat)
    requires
        analysis_after(body, steps).1.len() == 0,
    ensures
        analysis_settled(body) == analysis_after(body, steps),
{
    let chosen = choose|n: nat| analysis_after(body, n).1.len() == 0;
    if chosen <= steps {
        lemma_settled_stays(body, chosen, steps);
    } else {
        lemma_settled_stays(body, steps, chosen);
    }
}

/// The queue grew from `before` to `after` by blocks with an entry, and
/// holds every block whose entry changed.
pub open spec fn queue_follows(
    before: Seq<BasicBlockId>,
    after: Seq<BasicBlockId>,
    old_entries: Seq<Option<Obligations>>,
    new_entries: Seq<Option<Obligations>>,
) -> bool {
    &&& new_entries.len() == old_entries.len()
    &&& forall|i: int|
        0 <= i < old_entries.len() && (#[trigger] old_entries[i]) is Some ==> new_entries[i] is Some
    &&& forall|q: BasicBlockId| #[trigger] before.contains(q) ==> after.contains(q)
    &&& forall|q: BasicBlockId|
        #[trigger] after.contains(q) ==> before.contains(q) || (q@ < new_entries.len()
            && new_entries[q@ as int] is Some)
    &&& forall|i: int|
        0 <= i < old_entries.len() && #[trigger] new_entries[i] != old_entries[i] ==> after.contains(
            BasicBlockId::at(i),
        )
}

/// Queue growth composes.
pub proof fn lemma_queue_follows_trans(
    first: Seq<BasicBlockId>,
    second: Seq<BasicBlockId>,
    third: Seq<BasicBlockId>,
    first_entries: Seq<Option<Obligations>>,
    second_entries: Seq<Option<Obligations>>,
    third_entries: Seq<Option<Obligations>>,
)
    requires
        queue_follows(first, second, first_entries, second_entries),
        queue_follows(second, third, second_entries, third_entries),
    ensures
        queue_follows(first, third, first_entries, third_entries),
{
    assert forall|i: int|
        0 <= i < first_entries.len() && #[trigger] third_entries[i] != first_entries[i] implies third.contains(
        BasicBlockId::at(i),
    ) by {
        if second_entries[i] != first_entries[i] {
            assert(second.contains(BasicBlockId::at(i)));
        }
    }
    assert forall|q: BasicBlockId| #[trigger] third.contains(q) implies first.contains(q) || (q@
        < third_entries.len() && third_entries[q@ as int] is Some) by {
        if second.contains(q) && !first.contains(q) {
            assert(second_entries[q@ as int] is Some);
        }
    }
}

/// A queue and entries that did not change follow themselves.
pub proof fn lemma_queue_follows_same(queue: Seq<BasicBlockId>, entries: Seq<Option<Obligations>>)
    ensures
        queue_follows(queue, queue, entries, entries),
{
}

/// Merging one edge.
pub proof fn lemma_merged_one(entries: Seq<Option<Obligations>>, target: BasicBlockId, state: Obligations)
    ensures
        merged_all(entries, seq![(target, state)]) == merged(entries, target, state),
        forall|queue: Seq<BasicBlockId>|
            requeued_all(entries, queue, seq![(target, state)]) == #[trigger] requeued(entries, queue, target, state),
{
    let edges = seq![(target, state)];
    assert(edges.drop_last() =~= Seq::<(BasicBlockId, Obligations)>::empty());
    assert(merged_all(entries, Seq::<(BasicBlockId, Obligations)>::empty()) == entries);
    assert forall|queue: Seq<BasicBlockId>| requeued_all(entries, queue, edges) == #[trigger] requeued(
        entries,
        queue,
        target,
        state,
    ) by {
        assert(requeued_all(entries, queue, Seq::<(BasicBlockId, Obligations)>::empty()) == queue);
        assert(edges.last() == (target, state));
    }
}

/// Merging two edges, one after the other.
pub proof fn lemma_merged_two(
    entries: Seq<Option<Obligations>>,
    first: (BasicBlockId, Obligations),
    second: (BasicBlockId, Obligations),
)
    ensures
        merged_all(entries, seq![first, second]) == merged(
            merged(entries, first.0, first.1),
            second.0,
            second.1,
        ),
        forall|queue: Seq<BasicBlockId>|
            requeued_all(entries, queue, seq![first, second]) == requeued(
                merged(entries, first.0, first.1),
                #[trigger] requeued(entries, queue, first.0, first.1),
                second.0,
                second.1,
            ),
{
    assert(seq![first, second].drop_last() =~= seq![first]);
    lemma_merged_one(entries, first.0, first.1);
}

/// Joining keeps the number of entries, keeps every present entry present
/// and claiming more, and adds entries only at targets, each then claiming
/// more than every edge into it.
pub proof fn lemma_merged_all_shape(entries: Seq<Option<Obligations>>, edges: Seq<(BasicBlockId, Obligations)>)
    ensures
        merged_all(entries, edges).len() == entries.len(),
        forall|i: int|
            0 <= i < entries.len() && (#[trigger] entries[i]) is Some ==> merged_all(entries, edges)[i]
                is Some && weaker(entries[i]->0, merged_all(entries, edges)[i]->0),
        forall|i: int|
            0 <= i < entries.len() && (#[trigger] merged_all(entries, edges)[i]) != entries[i]
                ==> exists|k: int| 0 <= k < edges.len() && (#[trigger] edges[k]).0@ == i,
        forall|k: int|
            0 <= k < edges.len() && (#[trigger] edges[k]).0@ < entries.len() ==> merged_all(
                entries,
                edges,
            )[edges[k].0@ as int] is Some && weaker(
                edges[k].1,
                merged_all(entries, edges)[edges[k].0@ as int]->0,
            ),
    decreases edges.len(),
{
    if edges.len() > 0 {
        let front = edges.drop_last();
        lemma_merged_all_shape(entries, front);
        let before = merged_all(entries, front);
        let last = edges.last();
        let after = merged(before, last.0, last.1);
        assert forall|i: int|
            0 <= i < entries.len() && (#[trigger] after[i]) != entries[i] implies exists|k: int|
            0 <= k < edges.len() && (#[trigger] edges[k]).0@ == i by {
            if before[i] != entries[i] {
                let k = choose|k: int| 0 <= k < front.len() && (#[trigger] front[k]).0@ == i;
                assert(edges[k] == front[k]);
            } else {
                assert(edges[edges.len() - 1].0@ == i);
            }
        }
        assert forall|k: int|
            0 <= k < edges.len() && (#[trigger] edges[k]).0@ < entries.len() implies after[edges[k].0@ as int]
            is Some && weaker(edges[k].1, after[edges[k].0@ as int]->0) by {
            if k < edges.len() - 1 {
                assert(front[k] == edges[k]);
            }
        }
    }
}

/// Block `b`'s errors at its entry state are reported and its edges are
/// accounted for at their targets.
pub open spec fn settled(
    body: Body,
    entries: Seq<Option<Obligations>>,
    b: int,
    errors: Set<DropObligationError>,
) -> bool {
    entries[b] matches Some(state) ==> {
        &&& block_flow(body, BasicBlockId::at(b), state).errors.subset_of(errors)
        &&& edges_joined(body, entries, b)
    }
}

/// What holds between iterations of the analysis.
pub open spec fn worklist_invariant(
    body: Body,
    entries: Seq<Option<Obligations>>,
    queue: Seq<BasicBlockId>,
    errors: Set<DropObligationError>,
) -> bool {
    &&& entries.len() == body.blocks@.len()
    &&& body.entry@ < entries.len()
    &&& entries[body.entry@ as int] matches Some(state) && weaker(initial_obligations(body), state)
    &&& forall|b: int| 0 <= b < entries.len() && (#[trigger] entries[b]) is Some ==> reachable(body, b)
    &&& errors.subset_of(possible_errors(body, entries))
    &&& forall|b: int|
        0 <= b < entries.len() && !queue.contains(BasicBlockId::at(b)) ==> #[trigger] settled(
            body,
            entries,
            b,
            errors,
        )
    &&& forall|q: BasicBlockId|
        #[trigger] queue.contains(q) ==> q@ < entries.len() && entries[q@ as int] is Some
}

/// The edges of a block go to its terminator's targets.
pub proof fn lemma_flow_targets(body: Body, block: BasicBlockId, entry: Obligations)
    ensures
        block_flow(body, block, entry).edges.len() == edge_targets(
            body.blocks@[block@ as int].terminator,
        ).len(),
        forall|k: int|
            0 <= k < block_flow(body, block, entry).edges.len() ==> (#[trigger] block_flow(
                body,
                block,
                entry,
            ).edges[k]).0 == edge_targets(body.blocks@[block@ as int].terminator)[k],
{
}

/// A target of a reachable block is reachable.
proof fn lemma_reachable_step(body: Body, p: int, k: int)
    requires
        0 <= p < body.blocks@.len(),
        reachable(body, p),
        0 <= k < edge_targets(body.blocks@[p].terminator).len(),
    ensures
        reachable(body, edge_targets(body.blocks@[p].terminator)[k]@ as int),
{
    let steps = choose|steps: nat| reachable_within(body, p, steps);
    let target = edge_targets(body.blocks@[p].terminator)[k]@ as int;
    assert(reachable_within(body, target, steps + 1));
}

/// Every block reachable in `steps` edges has an entry.
proof fn lemma_reachable_has_entry(body: Body, entries: Seq<Option<Obligations>>, b: int, steps: nat)
    requires
        entries.len() == body.blocks@.len(),
        body.entry@ < entries.len(),
        entries[body.entry@ as int] is Some,
        forall|c: int| 0 <= c < entries.len() ==> #[trigger] edges_joined(body, entries, c),
        0 <= b < entries.len(),
        reachable_within(body, b, steps),
    ensures
        entries[b] is Some,
    decreases steps,
{
    if b != body.entry@ {
        let (p, k) = choose|p: int, k: int|
            0 <= p < body.blocks@.len() && 0 <= k < edge_targets(body.blocks@[p].terminator).len()
                && #[trigger] edge_targets(body.blocks@[p].terminator)[k]@ == b && reachable_within(
                body,
                p,
                (steps - 1) as nat,
            );
        lemma_reachable_has_entry(body, entries, p, (steps - 1) as nat);
        let state = entries[p]->0;
        lemma_flow_targets(body, BasicBlockId::at(p), state);
        assert(edges_joined(body, entries, p));
        assert(block_flow(body, BasicBlockId::at(p), state).edges[k].0@ == b);
    }
}

/// Claiming less is transitive.
proof fn lemma_weaker_trans(first: Obligations, second: Obligations, third: Obligations)
    requires
        weaker(first, second),
        weaker(second, third),
    ensures
        weaker(first, third),
{
}

/// One iteration of the analysis keeps its invariant.
pub proof fn lemma_worklist_step(
    body: Body,
    entries: Seq<Option<Obligations>>,
    queue: Seq<BasicBlockId>,
    errors: Set<DropObligationError>,
    new_entries: Seq<Option<Obligations>>,
    new_queue: Seq<BasicBlockId>,
    new_errors: Set<DropObligationError>,
)
    requires
        body.addressable(),
        worklist_invariant(body, entries, queue, errors),
        queue.len() > 0,
        ({
            let b = queue[0];
            let flow = block_flow(body, b, entries[b@ as int]->0);
            &&& new_errors == errors.union(flow.errors)
            &&& new_entries == merged_all(entries, flow.edges)
            &&& queue_follows(queue.drop_first(), new_queue, entries, new_entries)
        }),
    ensures
        worklist_invariant(body, new_entries, new_queue, new_errors),
{
    let b = queue[0];
    assert(queue.contains(b));
    let bi = b@ as int;
    assert(BasicBlockId::at(bi) == b);
    let state = entries[bi]->0;
    let flow = block_flow(body, b, state);
    let rest = queue.drop_first();
    lemma_merged_all_shape(entries, flow.edges);
    lemma_flow_targets(body, b, state);
    lemma_weaker_trans(
        initial_obligations(body),
        entries[body.entry@ as int]->0,
        new_entries[body.entry@ as int]->0,
    );
    assert forall|i: int| 0 <= i < new_entries.len() && (#[trigger] new_entries[i]) is Some implies reachable(
        body,
        i,
    ) by {
        if entries[i] is None {
            let k = choose|k: int| 0 <= k < flow.edges.len() && (#[trigger] flow.edges[k]).0@ == i;
            lemma_reachable_step(body, bi, k);
        }
    }
    assert forall|e: DropObligationError| #[trigger] new_errors.contains(e) implies possible_errors(
        body,
        new_entries,
    ).contains(e) by {
        if errors.contains(e) {
            assert(possible_errors(body, entries).contains(e));
            let (c, s) = choose|c: int, s: Obligations|
                0 <= c < entries.len() && (#[trigger] entries[c] matches Some(entry) && weaker(
                    s,
                    entry,
                ) && #[trigger] block_flow(body, BasicBlockId::at(c), s).errors.contains(e));
            lemma_weaker_trans(s, entries[c]->0, new_entries[c]->0);
            assert(new_entries[c] matches Some(entry) && weaker(s, entry) && block_flow(
                body,
                BasicBlockId::at(c),
                s,
            ).errors.contains(e));
        } else {
            assert(new_entries[bi] matches Some(entry) && weaker(state, entry) && block_flow(
                body,
                BasicBlockId::at(bi),
                state,
            ).errors.contains(e));
        }
    }
    assert forall|c: int|
        0 <= c < new_entries.len() && !new_queue.contains(BasicBlockId::at(c)) implies #[trigger] settled(
        body,
        new_entries,
        c,
        new_errors,
    ) by {
        let id = BasicBlockId::at(c);
        if new_entries[c] is Some {
            assert(new_entries[c] == entries[c]);
            let current = new_entries[c]->0;
            let current_flow = block_flow(body, id, current);
            if c == bi {
                assert forall|k: int|
                    0 <= k < current_flow.edges.len() && (#[trigger] current_flow.edges[k]).0@
                        < new_entries.len() implies (new_entries[current_flow.edges[k].0@ as int] matches Some(
                    target,
                ) && weaker(current_flow.edges[k].1, target)) by {}
                assert(edges_joined(body, new_entries, c));
            } else {
                assert(!rest.contains(id));
                if queue.contains(id) {
                    let k = choose|k: int| 0 <= k < queue.len() && queue[k] == id;
                    assert(k != 0);
                    assert(rest[k - 1] == id);
                }
                assert(settled(body, entries, c, errors));
                assert forall|k: int|
                    0 <= k < current_flow.edges.len() && (#[trigger] current_flow.edges[k]).0@
                        < new_entries.len() implies (new_entries[current_flow.edges[k].0@ as int] matches Some(
                    target,
                ) && weaker(current_flow.edges[k].1, target)) by {
                    let t = current_flow.edges[k].0@ as int;
                    assert(entries[t] is Some);
                    lemma_weaker_trans(current_flow.edges[k].1, entries[t]->0, new_entries[t]->0);
                }
                assert(edges_joined(body, new_entries, c));
            }
        }
    }
    assert forall|q: BasicBlockId| #[trigger] new_queue.contains(q) implies q@ < new_entries.len()
        && new_entries[q@ as int] is Some by {
        if rest.contains(q) {
            let k = choose|k: int| 0 <= k < rest.len() && rest[k] == q;
            assert(queue[k + 1] == q);
            assert(queue.contains(q));
            assert(entries[q@ as int] is Some);
        }
    }
}

/// When the queue is empty, the entries are a solution, and the reported
/// errors include every error of the entries and only errors of states
/// claiming no more than them.
pub proof fn lemma_worklist_done(body: Body, entries: Seq<Option<Obligations>>, errors: Set<DropObligationError>)
    requires
        body.addressable(),
        worklist_invariant(body, entries, Seq::empty(), errors),
    ensures
        obligation_solution(body, entries),
        settled_errors(body, entries).subset_of(errors),
        errors.subset_of(possible_errors(body, entries)),
{
    assert forall|b: int| 0 <= b < entries.len() implies #[trigger] settled(body, entries, b, errors) by {
        assert(!Seq::<BasicBlockId>::empty().contains(BasicBlockId::at(b)));
    }
    assert forall|b: int| 0 <= b < entries.len() implies #[trigger] edges_joined(body, entries, b) by {
        assert(settled(body, entries, b, errors));
    }
    assert forall|b: int| 0 <= b < entries.len() implies (#[trigger] entries[b] is Some <==> reachable(
        body,
        b,
    )) by {
        if reachable(body, b) {
            let steps = choose|steps: nat| reachable_within(body, b, steps);
            lemma_reachable_has_entry(body, entries, b, steps);
        }
    }
    assert forall|e: DropObligationError| #[trigger] settled_errors(body, entries).contains(e) implies errors.contains(
        e,
    ) by {
        let b = choose|b: int|
            0 <= b < entries.len() && (#[trigger] entries[b] matches Some(s)
                && block_flow(body, BasicBlockId::at(b), s).errors.contains(e));
        assert(settled(body, entries, b, errors));
    }
}

/// Dropping a local that owns nothing is reported at the drop.
pub proof fn lemma_drop_of_non_owned_reported(
    body: Body,
    view: Obligations,
    place: Place,
    plan: crate::ids::DropPlanId,
    target: BasicBlockId,
    block: BasicBlockId,
)
    requires
        !owns_obligation(body, place.local),
    ensures
        terminator_flow(body, view, Terminator::Drop { place, plan, target }, block).errors.contains(
            DropObligationError {
                block,
                location: DropObligationLocation::Drop,
                local: place.local,
                kind: DropObligationErrorKind::DropOfNonOwned,
            },
        ),
{
}

/// Dropping an owned place that is not live on every path is reported at
/// the drop.
pub proof fn lemma_drop_of_inactive_reported(
    body: Body,
    view: Obligations,
    place: Place,
    plan: crate::ids::DropPlanId,
    target: BasicBlockId,
    block: BasicBlockId,
)
    requires
        owns_obligation(body, place.local),
        !PlaceState::available_in(view.1, body, place),
    ensures
        terminator_flow(body, view, Terminator::Drop { place, plan, target }, block).errors.contains(
            DropObligationError {
                block,
                location: DropObligationLocation::Drop,
                local: place.local,
                kind: DropObligationErrorKind::DropOfInactive,
            },
        ),
{
}

/// Leaving the body while an owned local other than the result may still
/// be live reports it at the exit.
pub proof fn lemma_live_owned_at_exit_reported(
    body: Body,
    view: Obligations,
    block: BasicBlockId,
    local: LocalId,
)
    requires
        local != body.return_local,
        owns_obligation(body, local),
        PlaceState::any_within_in(view.0, body, Place { local, projection: None }),
    ensures
        terminator_flow(body, view, Terminator::Return, block).errors.contains(
            DropObligationError {
                block,
                location: DropObligationLocation::Exit,
                local,
                kind: DropObligationErrorKind::LiveAtExit,
            },
        ),
{
    let error = DropObligationError {
        block,
        location: DropObligationLocation::Exit,
        local,
        kind: DropObligationErrorKind::LiveAtExit,
    };
    assert(exit_error(body, view.0, block, error));
}

/// Writing an owned place that may still hold a live value overwrites it.
pub proof fn lemma_overwrite_reported(
    body: Body,
    view: Obligations,
    destination: Place,
    block: BasicBlockId,
    location: DropObligationLocation,
)
    requires
        place_owns_obligation(body, destination),
        PlaceState::any_within_in(view.0, body, destination),
    ensures
        activated(body, view, destination, block, location).0.contains(
            DropObligationError {
                block,
                location,
                local: destination.local,
                kind: DropObligationErrorKind::Overwrite,
            },
        ),
{
}

/// An assignment to an owned place whose value may still be live after its
/// operands are read reports the overwrite at itself.
pub proof fn lemma_assignment_overwrite_reported(
    body: Body,
    view: Obligations,
    destination: Place,
    value: crate::model::Rvalue,
    origin: crate::model::Origin,
    block: BasicBlockId,
    index: usize,
)
    requires
        place_owns_obligation(body, destination),
        PlaceState::any_within_in(consumed_all(body, view, rvalue_operand_seq(value)).0, body, destination),
    ensures
        statement_step(body, view, Statement::Assign { destination, value, origin }, block, index).0.contains(
            DropObligationError {
                block,
                location: DropObligationLocation::Assignment(index),
                local: destination.local,
                kind: DropObligationErrorKind::Overwrite,
            },
        ),
{
}

/// Dropping an owned place that is live on every path releases it: on the
/// edge to the drop's target it is live on no path.
pub proof fn lemma_drop_releases_place(
    body: Body,
    view: Obligations,
    place: Place,
    plan: crate::ids::DropPlanId,
    target: BasicBlockId,
    block: BasicBlockId,
)
    requires
        owns_obligation(body, place.local),
        PlaceState::available_in(view.1, body, place),
        crate::initialization_flow::addressable_place(body, place),
    ensures
        terminator_flow(body, view, Terminator::Drop { place, plan, target }, block).errors.is_empty(),
        terminator_flow(body, view, Terminator::Drop { place, plan, target }, block).edges.len() == 1,
        terminator_flow(body, view, Terminator::Drop { place, plan, target }, block).edges[0].0 == target,
        !PlaceState::available_in(
            terminator_flow(body, view, Terminator::Drop { place, plan, target }, block).edges[0].1.0,
            body,
            place,
        ),
        !PlaceState::available_in(
            terminator_flow(body, view, Terminator::Drop { place, plan, target }, block).edges[0].1.1,
            body,
            place,
        ),
{
    crate::places::lemma_write_and_move(view.0, body, place);
    crate::places::lemma_write_and_move(view.1, body, place);
}

/// Writing an owned place makes it live on every path.
pub proof fn lemma_write_activates_place(
    body: Body,
    view: Obligations,
    destination: Place,
    block: BasicBlockId,
    location: DropObligationLocation,
)
    requires
        place_owns_obligation(body, destination),
        crate::initialization_flow::addressable_place(body, destination),
    ensures
        PlaceState::available_in(activated(body, view, destination, block, location).1.0, body, destination),
        PlaceState::available_in(activated(body, view, destination, block, location).1.1, body, destination),
{
    crate::places::lemma_write_and_move(view.0, body, destination);
    crate::places::lemma_write_and_move(view.1, body, destination);
}

} // verus!

