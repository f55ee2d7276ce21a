//! The meaning of definite-initialization analysis: what one block does to
//! the set of available places, and the solution the analysis computes.

use crate::ids::{BasicBlockId, LocalId};
use crate::initialization::{
    after_operand, operand_error, rvalue_operand_seq, InitializationError, InitializationLocation,
};
use crate::locals::LocalStorage;
use crate::model::{Body, CallArgument, CallContinuation, Operand, Place, Statement, Terminator};
use crate::places::PlaceState;
use vstd::prelude::*;

verus! {

/// The whole locals and the projection paths that are available.
pub type Available = (Set<nat>, Set<nat>);

/// `first` has at most what `second` has available.
pub open spec fn below(first: Available, second: Available) -> bool {
    first.0.subset_of(second.0) && first.1.subset_of(second.1)
}

/// The errors that reading `operand` from `view` reports.
pub open spec fn operand_errors(
    body: Body,
    view: Available,
    operand: Operand,
    block: BasicBlockId,
    location: InitializationLocation,
) -> Set<InitializationError> {
    match operand_error(body, view, operand, block, location) {
        Some(error) => set![error],
        None => Set::empty(),
    }
}

/// Reading `operands` in order from `view`, all at `location`: the errors
/// reported and the state after.
pub open spec fn read_operands(
    body: Body,
    view: Available,
    operands: Seq<Operand>,
    block: BasicBlockId,
    location: InitializationLocation,
) -> (Set<InitializationError>, Available)
    decreases operands.len(),
{
    if operands.len() == 0 {
        (Set::empty(), view)
    } else {
        let before = read_operands(body, view, operands.drop_last(), block, location);
        (
            before.0.union(operand_errors(body, before.1, operands.last(), block, location)),
            after_operand(body, before.1, operands.last()),
        )
    }
}

/// Reading call `arguments` in order from `view`, each at its own location.
pub open spec fn read_arguments(
    body: Body,
    view: Available,
    arguments: Seq<CallArgument>,
    block: BasicBlockId,
) -> (Set<InitializationError>, Available)
    decreases arguments.len(),
{
    if arguments.len() == 0 {
        (Set::empty(), view)
    } else {
        let before = read_arguments(body, view, arguments.drop_last(), block);
        let location = InitializationLocation::CallArgument((arguments.len() - 1) as usize);
        (
            before.0.union(
                operand_errors(body, before.1, arguments.last().operand, block, location),
            ),
            after_operand(body, before.1, arguments.last().operand),
        )
    }
}

/// The whole of `local`.
pub open spec fn whole(local: LocalId) -> Place {
    Place { local, projection: None }
}

/// Statement `index` of `block` applied to `view`: the errors it reports and
/// the state after.
pub open spec fn statement_step(
    body: Body,
    view: Available,
    statement: Statement,
    block: BasicBlockId,
    index: usize,
) -> (Set<InitializationError>, Available) {
    let location = InitializationLocation::Statement(index);
    match statement {
        Statement::Assign { destination, value, .. } => {
            let read = read_operands(body, view, rvalue_operand_seq(value), block, location);
            (read.0, PlaceState::initialized(read.1, body, destination))
        },
        Statement::BeginLoan { loan, .. } => if loan@ < body.loans@.len() {
            let declaration = body.loans@[loan@ as int];
            let source = Operand::Copy(declaration.source);
            (
                operand_errors(body, view, source, block, location),
                PlaceState::initialized(
                    after_operand(body, view, source),
                    body,
                    whole(declaration.destination),
                ),
            )
        } else {
            (Set::empty(), view)
        },
        Statement::EndLoan { loan } => if loan@ < body.loans@.len() {
            (
                Set::empty(),
                PlaceState::moved_out(view, body, whole(body.loans@[loan@ as int].destination)),
            )
        } else {
            (Set::empty(), view)
        },
        Statement::FinishAggregate { destination } => (
            Set::empty(),
            PlaceState::initialized(view, body, destination),
        ),
        _ => (Set::empty(), view),
    }
}

/// The statements of `block` applied in order to `view`.
pub open spec fn statements_step(
    body: Body,
    view: Available,
    statements: Seq<Statement>,
    block: BasicBlockId,
) -> (Set<InitializationError>, Available)
    decreases statements.len(),
{
    if statements.len() == 0 {
        (Set::empty(), view)
    } else {
        let before = statements_step(body, view, statements.drop_last(), block);
        let last = statement_step(
            body,
            before.1,
            statements.last(),
            block,
            (statements.len() - 1) as usize,
        );
        (before.0.union(last.0), last.1)
    }
}

/// What a block does: the errors it reports, the state it sends along each
/// edge it leaves by, in order, and the state it leaves the body with.
pub struct BlockFlow {
    pub errors: Set<InitializationError>,
    pub edges: Seq<(BasicBlockId, Available)>,
    pub exit: Option<Available>,
}

/// The blocks a terminator leaves to, in the order the analysis follows them.
pub open spec fn edge_targets(terminator: Terminator) -> Seq<BasicBlockId> {
    match terminator {
        Terminator::Goto { target } => seq![target],
        Terminator::Switch { then_target, else_target, .. } => seq![then_target, else_target],
        Terminator::Call { continuation, .. } => match continuation {
            CallContinuation::Continue { target } => seq![target],
            CallContinuation::Return { target, .. } => seq![target],
            CallContinuation::Outcome { success, failure, .. } => seq![success, failure],
            CallContinuation::OutcomeEffect { success, failure, .. } => seq![success, failure],
            CallContinuation::Never => seq![],
        },
        Terminator::InspectOutcome { success, failure, .. } => seq![success, failure],
        Terminator::Drop { target, .. } => seq![target],
        _ => seq![],
    }
}

/// What the terminator of `block` does, entered with `view`.
pub open spec fn terminator_flow(body: Body, view: Available, terminator: Terminator, block: BasicBlockId) -> BlockFlow {
    match terminator {
        Terminator::Goto { target } => BlockFlow {
            errors: Set::empty(),
            edges: seq![(target, view)],
            exit: None,
        },
        Terminator::Switch { condition, then_target, else_target, .. } => {
            let after = after_operand(body, view, condition);
            BlockFlow {
                errors: operand_errors(body, view, condition, block, InitializationLocation::Switch),
                edges: seq![(then_target, after), (else_target, after)],
                exit: None,
            }
        },
        Terminator::Call { arguments, continuation, .. } => {
            let read = read_arguments(body, view, arguments@, block);
            let after = read.1;
            BlockFlow {
                errors: read.0,
                edges: match continuation {
                    CallContinuation::Continue { target } => seq![(target, after)],
                    CallContinuation::Return { destination, target } => seq![
                        (target, PlaceState::initialized(after, body, destination)),
                    ],
                    CallContinuation::Outcome { destination, success, failure, .. } => seq![
                        (success, PlaceState::initialized(after, body, destination)),
                        (failure, after),
                    ],
                    CallContinuation::OutcomeEffect { success, failure, .. } => seq![
                        (success, after),
                        (failure, after),
                    ],
                    CallContinuation::Never => seq![],
                },
                exit: None,
            }
        },
        Terminator::InspectOutcome { source, destination, success, failure, .. } => {
            let after = after_operand(body, view, source);
            BlockFlow {
                errors: operand_errors(body, view, source, block, InitializationLocation::Inspection),
                edges: seq![
                    (success, PlaceState::initialized(after, body, destination)),
                    (failure, after),
                ],
                exit: None,
            }
        },
        Terminator::Drop { place, target, .. } => BlockFlow {
            errors: operand_errors(
                body,
                view,
                Operand::Move(place),
                block,
                InitializationLocation::Drop,
            ),
            edges: seq![(target, after_operand(body, view, Operand::Move(place)))],
            exit: None,
        },
        Terminator::Return => BlockFlow {
            errors: if body.return_local@ < body.locals@.len() && !PlaceState::available_in(
                view,
                body,
                whole(body.return_local),
            ) {
                set![
                    InitializationError {
                        block,
                        location: InitializationLocation::Return,
                        local: body.return_local,
                    },
                ]
            } else {
                Set::empty()
            },
            edges: seq![],
            exit: Some(view),
        },
        Terminator::ReturnValue { source }
        | Terminator::ReturnOutcome { source }
        | Terminator::ReturnOutcomeSuccess { source } => BlockFlow {
            errors: operand_errors(body, view, source, block, InitializationLocation::Return),
            edges: seq![],
            exit: Some(after_operand(body, view, source)),
        },
        Terminator::ReturnFailure { code, message } => {
            let read = read_operands(
                body,
                view,
                seq![code, message],
                block,
                InitializationLocation::Return,
            );
            BlockFlow { errors: read.0, edges: seq![], exit: Some(read.1) }
        },
        _ => BlockFlow { errors: Set::empty(), edges: seq![], exit: Some(view) },
    }
}

/// What block `block` of `body` does, entered with `entry`.
pub open spec fn block_flow(body: Body, block: BasicBlockId, entry: Available) -> BlockFlow {
    let statements = statements_step(body, entry, body.blocks@[block@ as int].statements@, block);
    let end = terminator_flow(body, statements.1, body.blocks@[block@ as int].terminator, block);
    BlockFlow { errors: statements.0.union(end.errors), edges: end.edges, exit: end.exit }
}

/// What is available when the body is entered: the first `count` locals
/// that are parameters.
pub open spec fn parameters_available(body: Body, count: nat) -> Available
    decreases count,
{
    if count == 0 {
        (Set::empty(), Set::empty())
    } else {
        let before = parameters_available(body, (count - 1) as nat);
        if body.locals@[count - 1].storage is Parameter {
            PlaceState::initialized(before, body, whole(LocalId::at(count - 1)))
        } else {
            before
        }
    }
}

/// What is available when the body is entered: its parameters.
pub open spec fn initial_available(body: Body) -> Available {
    parameters_available(body, body.locals@.len())
}

/// `x` assigns every block a state that the entry state and the edges from
/// reachable blocks allow: a post-fixpoint of the analysis.
pub open spec fn post_fixpoint(body: Body, x: Seq<Available>) -> bool {
    &&& x.len() == body.blocks@.len()
    &&& body.entry@ < x.len() ==> below(x[body.entry@ as int], initial_available(body))
    &&& forall|b: int, k: int|
        0 <= b < x.len() && reachable(body, b) && 0 <= k < block_flow(
            body,
            BasicBlockId::at(b),
            x[b],
        ).edges.len() ==> (
        #[trigger] block_flow(body, BasicBlockId::at(b), x[b]).edges[k]).0@ < x.len() ==> below(
            x[block_flow(body, BasicBlockId::at(b), x[b]).edges[k].0@ as int],
            block_flow(body, BasicBlockId::at(b), x[b]).edges[k].1,
        )
}

/// Every present entry of `entries` has at least what `x` has.
pub open spec fn dominates(entries: Seq<Option<Available>>, x: Seq<Available>) -> bool {
    forall|b: int|
        0 <= b < entries.len() ==> (#[trigger] entries[b] matches Some(state) ==> below(x[b], state))
}

/// Every edge that leaves reached block `b` goes to a reached block whose
/// entry state has at most what the edge carries.
pub open spec fn edges_respected(body: Body, entries: Seq<Option<Available>>, b: int) -> bool {
    entries[b] matches Some(state) ==> forall|k: int|
        0 <= k < block_flow(body, BasicBlockId::at(b), state).edges.len() ==> (#[trigger] block_flow(
            body,
            BasicBlockId::at(b),
            state,
        ).edges[k]).0@ < entries.len() ==> (entries[block_flow(
            body,
            BasicBlockId::at(b),
            state,
        ).edges[k].0@ as int] matches Some(target) && below(
            target,
            block_flow(body, BasicBlockId::at(b), state).edges[k].1,
        ))
}

/// Block `b` can be reached from the entry block in at most `steps` edges.
pub open spec fn reachable_within(body: Body, b: int, steps: nat) -> bool
    decreases steps,
{
    b == body.entry@ || (steps > 0 && exists|p: int, k: int|
        0 <= p < body.blocks@.len() && 0 <= k < edge_targets(body.blocks@[p].terminator).len()
            && #[trigger] edge_targets(body.blocks@[p].terminator)[k]@ == b && reachable_within(
            body,
            p,
            (steps - 1) as nat,
        ))
}

/// Block `b` can be reached from the entry block.
pub open spec fn reachable(body: Body, b: int) -> bool {
    exists|steps: nat| reachable_within(body, b, steps)
}

/// The errors of every reached block, entered with its state in `entries`.
pub open spec fn solution_errors(body: Body, entries: Seq<Option<Available>>) -> Set<InitializationError> {
    Set::new(
        |error: InitializationError|
            exists|b: int|
                0 <= b < entries.len() && (#[trigger] entries[b] matches Some(state)
                    && block_flow(body, BasicBlockId::at(b), state).errors.contains(error)),
    )
}

/// The state the last of `edges` to `target` carries, if any goes there.
pub open spec fn last_edge_to(edges: Seq<(BasicBlockId, Available)>, target: BasicBlockId) -> Option<Available>
    decreases edges.len(),
{
    if edges.len() == 0 {
        None
    } else if edges.last().0 == target {
        Some(edges.last().1)
    } else {
        last_edge_to(edges.drop_last(), target)
    }
}

/// The state on each edge leaving a reached block: the last of its edges to
/// the target.
pub open spec fn solution_edges(body: Body, entries: Seq<Option<Available>>) -> Map<
    (BasicBlockId, BasicBlockId),
    Available,
> {
    Map::new(
        |key: (BasicBlockId, BasicBlockId)|
            key.0@ < entries.len() && (entries[key.0@ as int] matches Some(state) && last_edge_to(
                block_flow(body, key.0, state).edges,
                key.1,
            ) is Some),
        |key: (BasicBlockId, BasicBlockId)|
            last_edge_to(block_flow(body, key.0, entries[key.0@ as int]->0).edges, key.1)->0,
    )
}

/// The state each reached block leaves the body with.
pub open spec fn solution_exits(body: Body, entries: Seq<Option<Available>>) -> Map<BasicBlockId, Available> {
    Map::new(
        |block: BasicBlockId|
            block@ < entries.len() && (entries[block@ as int] matches Some(state) && block_flow(
                body,
                block,
                state,
            ).exit is Some),
        |block: BasicBlockId| block_flow(body, block, entries[block@ as int]->0).exit->0,
    )
}

/// The entry states of definite-initialization analysis: a state exactly for
/// the reachable blocks, the greatest assignment that the entry state and the
/// edges allow.
pub open spec fn analysis_solution(body: Body, entries: Seq<Option<Available>>) -> bool {
    &&& entries.len() == body.blocks@.len()
    &&& entries[body.entry@ as int] matches Some(state) && below(state, initial_available(body))
    &&& forall|b: int| 0 <= b < entries.len() ==> (#[trigger] entries[b] is Some <==> reachable(body, b))
    &&& forall|b: int| 0 <= b < entries.len() ==> #[trigger] edges_respected(body, entries, b)
    &&& forall|x: Seq<Available>| #[trigger] post_fixpoint(body, x) ==> dominates(entries, x)
}

// Monotonicity: a state with less available reports at least the same
// errors and sends at most as much along each edge.
/// Making a place available keeps the order of states.
pub proof fn lemma_initialized_monotone(body: Body, first: Available, second: Available, place: Place)
    requires
        below(first, second),
    ensures
        below(
            PlaceState::initialized(first, body, place),
            PlaceState::initialized(second, body, place),
        ),
{
}

/// Moving a place out keeps the order of states.
pub proof fn lemma_moved_out_monotone(body: Body, first: Available, second: Available, place: Place)
    requires
        below(first, second),
    ensures
        below(PlaceState::moved_out(first, body, place), PlaceState::moved_out(second, body, place)),
{
}

/// Reading an operand keeps the order of states and reports more errors
/// from the smaller one.
pub proof fn lemma_operand_monotone(
    body: Body,
    first: Available,
    second: Available,
    operand: Operand,
    block: BasicBlockId,
    location: InitializationLocation,
)
    requires
        below(first, second),
    ensures
        below(after_operand(body, first, operand), after_operand(body, second, operand)),
        operand_errors(body, second, operand, block, location).subset_of(
            operand_errors(body, first, operand, block, location),
        ),
{
}

/// Reading operands in order keeps the order of states and reports more
/// errors from the smaller one.
pub proof fn lemma_read_operands_monotone(
    body: Body,
    first: Available,
    second: Available,
    operands: Seq<Operand>,
    block: BasicBlockId,
    location: InitializationLocation,
)
    requires
        below(first, second),
    ensures
        below(
            read_operands(body, first, operands, block, location).1,
            read_operands(body, second, operands, block, location).1,
        ),
        read_operands(body, second, operands, block, location).0.subset_of(
            read_operands(body, first, operands, block, location).0,
        ),
    decreases operands.len(),
{
    if operands.len() > 0 {
        lemma_read_operands_monotone(body, first, second, operands.drop_last(), block, location);
        lemma_operand_monotone(
            body,
            read_operands(body, first, operands.drop_last(), block, location).1,
            read_operands(body, second, operands.drop_last(), block, location).1,
            operands.last(),
            block,
            location,
        );
    }
}

/// Reading call arguments keeps the order of states and reports more errors
/// from the smaller one.
pub proof fn lemma_read_arguments_monotone(
    body: Body,
    first: Available,
    second: Available,
    arguments: Seq<CallArgument>,
    block: BasicBlockId,
)
    requires
        below(first, second),
    ensures
        below(read_arguments(body, first, arguments, block).1, read_arguments(body, second, arguments, block).1),
        read_arguments(body, second, arguments, block).0.subset_of(
            read_arguments(body, first, arguments, block).0,
        ),
    decreases arguments.len(),
{
    if arguments.len() > 0 {
        lemma_read_arguments_monotone(body, first, second, arguments.drop_last(), block);
        lemma_operand_monotone(
            body,
            read_arguments(body, first, arguments.drop_last(), block).1,
            read_arguments(body, second, arguments.drop_last(), block).1,
            arguments.last().operand,
            block,
            InitializationLocation::CallArgument((arguments.len() - 1) as usize),
        );
    }
}

/// Applying statements keeps the order of states and reports more errors
/// from the smaller one.
pub proof fn lemma_statements_monotone(
    body: Body,
    first: Available,
    second: Available,
    statements: Seq<Statement>,
    block: BasicBlockId,
)
    requires
        below(first, second),
    ensures
        below(
            statements_step(body, first, statements, block).1,
            statements_step(body, second, statements, block).1,
        ),
        statements_step(body, second, statements, block).0.subset_of(
            statements_step(body, first, statements, block).0,
        ),
    decreases statements.len(),
{
    if statements.len() > 0 {
        lemma_statements_monotone(body, first, second, statements.drop_last(), block);
        let a = statements_step(body, first, statements.drop_last(), block).1;
        let b = statements_step(body, second, statements.drop_last(), block).1;
        let index = (statements.len() - 1) as usize;
        let location = InitializationLocation::Statement(index);
        match statements.last() {
            Statement::Assign { destination, value, .. } => {
                lemma_read_operands_monotone(body, a, b, rvalue_operand_seq(value), block, location);
                lemma_initialized_monotone(
                    body,
                    read_operands(body, a, rvalue_operand_seq(value), block, location).1,
                    read_operands(body, b, rvalue_operand_seq(value), block, location).1,
                    destination,
                );
            },
            Statement::BeginLoan { loan, .. } => {
                if loan@ < body.loans@.len() {
                    let declaration = body.loans@[loan@ as int];
                    let source = Operand::Copy(declaration.source);
                    lemma_operand_monotone(body, a, b, source, block, location);
                    lemma_initialized_monotone(
                        body,
                        after_operand(body, a, source),
                        after_operand(body, b, source),
                        whole(declaration.destination),
                    );
                }
            },
            Statement::EndLoan { loan } => {
                if loan@ < body.loans@.len() {
                    lemma_moved_out_monotone(
                        body,
                        a,
                        b,
                        whole(body.loans@[loan@ as int].destination),
                    );
                }
            },
            Statement::FinishAggregate { destination } => {
                lemma_initialized_monotone(body, a, b, destination);
            },
            _ => {},
        }
    }
}

/// A block entered with less sends at most as much along each of the same
/// edges, leaves with at most as much, and reports more errors.
pub proof fn lemma_block_flow_monotone(body: Body, block: BasicBlockId, first: Available, second: Available)
    requires
        below(first, second),
    ensures
        ({
            let small = block_flow(body, block, first);
            let large = block_flow(body, block, second);
            &&& large.errors.subset_of(small.errors)
            &&& small.edges.len() == large.edges.len()
            &&& forall|k: int|
                0 <= k < small.edges.len() ==> (#[trigger] small.edges[k]).0 == large.edges[k].0
                    && below(small.edges[k].1, large.edges[k].1)
            &&& small.exit is Some == large.exit is Some
            &&& small.exit is Some ==> below(small.exit->0, large.exit->0)
        }),
{
    let statements = body.blocks@[block@ as int].statements@;
    lemma_statements_monotone(body, first, second, statements, block);
    let a = statements_step(body, first, statements, block).1;
    let b = statements_step(body, second, statements, block).1;
    match body.blocks@[block@ as int].terminator {
        Terminator::Switch { condition, .. } => {
            lemma_operand_monotone(body, a, b, condition, block, InitializationLocation::Switch);
        },
        Terminator::Call { arguments, continuation, .. } => {
            lemma_read_arguments_monotone(body, a, b, arguments@, block);
            let ra = read_arguments(body, a, arguments@, block).1;
            let rb = read_arguments(body, b, arguments@, block).1;
            match continuation {
                CallContinuation::Return { destination, .. } => {
                    lemma_initialized_monotone(body, ra, rb, destination);
                },
                CallContinuation::Outcome { destination, .. } => {
                    lemma_initialized_monotone(body, ra, rb, destination);
                },
                _ => {},
            }
        },
        Terminator::InspectOutcome { source, destination, .. } => {
            lemma_operand_monotone(body, a, b, source, block, InitializationLocation::Inspection);
            lemma_initialized_monotone(
                body,
                after_operand(body, a, source),
                after_operand(body, b, source),
                destination,
            );
        },
        Terminator::Drop { place, .. } => {
            lemma_operand_monotone(
                body,
                a,
                b,
                Operand::Move(place),
                block,
                InitializationLocation::Drop,
            );
        },
        Terminator::ReturnValue { source }
        | Terminator::ReturnOutcome { source }
        | Terminator::ReturnOutcomeSuccess { source } => {
            lemma_operand_monotone(body, a, b, source, block, InitializationLocation::Return);
        },
        Terminator::ReturnFailure { code, message } => {
            lemma_read_operands_monotone(
                body,
                a,
                b,
                seq![code, message],
                block,
                InitializationLocation::Return,
            );
        },
        _ => {},
    }
}

/// The edges of a block go to its terminator's targets, whatever it was
/// entered with.
pub proof fn lemma_flow_targets(body: Body, block: BasicBlockId, entry: Available)
    ensures
        block_flow(body, block, entry).edges.len() == edge_targets(
            body.blocks@[block@ as int].terminator,
        ).len(),
        forall|k: int|
            0 <= k < block_flow(body, block, entry).edges.len() ==> (#[trigger] block_flow(
                body,
                block,
                entry,
            ).edges[k]).0 == edge_targets(body.blocks@[block@ as int].terminator)[k],
{
}

/// What both states have available.
pub open spec fn meet(first: Available, second: Available) -> Available {
    (first.0.intersect(second.0), first.1.intersect(second.1))
}

/// `entries` with `incoming` merged into the entry of `target`.
pub open spec fn merged(entries: Seq<Option<Available>>, target: BasicBlockId, incoming: Available) -> Seq<
    Option<Available>,
> {
    if target@ < entries.len() {
        entries.update(
            target@ as int,
            Some(
                match entries[target@ as int] {
                    None => incoming,
                    Some(existing) => meet(existing, incoming),
                },
            ),
        )
    } else {
        entries
    }
}

/// `entries` with the state of each of `edges` merged into its target, in
/// order.
pub open spec fn merged_all(entries: Seq<Option<Available>>, edges: Seq<(BasicBlockId, Available)>) -> Seq<
    Option<Available>,
>
    decreases edges.len(),
{
    if edges.len() == 0 {
        entries
    } else {
        merged(merged_all(entries, edges.drop_last()), edges.last().0, edges.last().1)
    }
}

/// The queue grew from `before` to `after` by blocks with an entry, and
/// holds every block whose entry changed.
pub open spec fn queue_follows(
    before: Seq<BasicBlockId>,
    after: Seq<BasicBlockId>,
    old_entries: Seq<Option<Available>>,
    new_entries: Seq<Option<Available>>,
) -> bool {
    &&& new_entries.len() == old_entries.len()
    &&& forall|i: int|
        0 <= i < old_entries.len() && (#[trigger] old_entries[i]) is Some ==> new_entries[i] is Some
    &&& forall|q: BasicBlockId| #[trigger] before.contains(q) ==> after.contains(q)
    &&& forall|q: BasicBlockId|
        #[trigger] after.contains(q) ==> before.contains(q) || (q@ < new_entries.len()
            && new_entries[q@ as int] is Some)
    &&& forall|i: int|
        0 <= i < old_entries.len() && #[trigger] new_entries[i] != old_entries[i] ==> after.contains(
            BasicBlockId::at(i),
        )
}

/// Queue growth composes.
pub proof fn lemma_queue_follows_trans(
    first: Seq<BasicBlockId>,
    second: Seq<BasicBlockId>,
    third: Seq<BasicBlockId>,
    first_entries: Seq<Option<Available>>,
    second_entries: Seq<Option<Available>>,
    third_entries: Seq<Option<Available>>,
)
    requires
        queue_follows(first, second, first_entries, second_entries),
        queue_follows(second, third, second_entries, third_entries),
    ensures
        queue_follows(first, third, first_entries, third_entries),
{
    assert forall|i: int|
        0 <= i < first_entries.len() && #[trigger] third_entries[i] != first_entries[i] implies third.contains(
        BasicBlockId::at(i),
    ) by {
        if second_entries[i] != first_entries[i] {
            assert(second.contains(BasicBlockId::at(i)));
        }
    }
    assert forall|q: BasicBlockId| #[trigger] third.contains(q) implies first.contains(q) || (q@
        < third_entries.len() && third_entries[q@ as int] is Some) by {
        if second.contains(q) && !first.contains(q) {
            assert(second_entries[q@ as int] is Some);
        }
    }
}

/// `edges` recorded in turn for the edges leaving `block`.
pub open spec fn recorded_edges(
    records: Map<(BasicBlockId, BasicBlockId), Available>,
    block: BasicBlockId,
    edges: Seq<(BasicBlockId, Available)>,
) -> Map<(BasicBlockId, BasicBlockId), Available>
    decreases edges.len(),
{
    if edges.len() == 0 {
        records
    } else {
        recorded_edges(records, block, edges.drop_last()).insert(
            (block, edges.last().0),
            edges.last().1,
        )
    }
}

/// Merging one edge.
pub proof fn lemma_merged_one(entries: Seq<Option<Available>>, target: BasicBlockId, state: Available)
    ensures
        merged_all(entries, seq![(target, state)]) == merged(entries, target, state),
{
    assert(seq![(target, state)].drop_last() =~= Seq::<(BasicBlockId, Available)>::empty());
    assert(merged_all(entries, Seq::<(BasicBlockId, Available)>::empty()) == entries);
}

/// Merging two edges, one after the other.
pub proof fn lemma_merged_two(
    entries: Seq<Option<Available>>,
    first: (BasicBlockId, Available),
    second: (BasicBlockId, Available),
)
    ensures
        merged_all(entries, seq![first, second]) == merged(
            merged(entries, first.0, first.1),
            second.0,
            second.1,
        ),
{
    assert(seq![first, second].drop_last() =~= seq![first]);
    lemma_merged_one(entries, first.0, first.1);
}

/// Recording one edge.
pub proof fn lemma_recorded_one(
    records: Map<(BasicBlockId, BasicBlockId), Available>,
    block: BasicBlockId,
    edge: (BasicBlockId, Available),
)
    ensures
        recorded_edges(records, block, seq![edge]) == records.insert((block, edge.0), edge.1),
{
    assert(seq![edge].drop_last() =~= Seq::<(BasicBlockId, Available)>::empty());
    assert(recorded_edges(records, block, Seq::<(BasicBlockId, Available)>::empty()) == records);
}

/// Recording two edges, one after the other.
pub proof fn lemma_recorded_two(
    records: Map<(BasicBlockId, BasicBlockId), Available>,
    block: BasicBlockId,
    first: (BasicBlockId, Available),
    second: (BasicBlockId, Available),
)
    ensures
        recorded_edges(records, block, seq![first, second]) == records.insert(
            (block, first.0),
            first.1,
        ).insert((block, second.0), second.1),
{
    assert(seq![first, second].drop_last() =~= seq![first]);
    lemma_recorded_one(records, block, first);
}

/// A queue and entries that did not change follow themselves.
pub proof fn lemma_queue_follows_same(queue: Seq<BasicBlockId>, entries: Seq<Option<Available>>)
    ensures
        queue_follows(queue, queue, entries, entries),
{
}

/// The terminator of a block leaves the body whatever the block was entered
/// with.
pub open spec fn leaves_body(terminator: Terminator) -> bool {
    match terminator {
        Terminator::Goto { .. } | Terminator::Switch { .. } | Terminator::Call { .. }
        | Terminator::InspectOutcome { .. } | Terminator::Drop { .. } => false,
        _ => true,
    }
}

/// A block leaves the body exactly when its terminator does.
pub proof fn lemma_flow_exit(body: Body, block: BasicBlockId, entry: Available)
    ensures
        block_flow(body, block, entry).exit is Some <==> leaves_body(
            body.blocks@[block@ as int].terminator,
        ),
{
}

/// Merging keeps the number of entries, keeps every present entry present
/// with at most what it had, and adds entries only at targets.
pub proof fn lemma_merged_all_shape(entries: Seq<Option<Available>>, edges: Seq<(BasicBlockId, Available)>)
    ensures
        merged_all(entries, edges).len() == entries.len(),
        forall|i: int|
            0 <= i < entries.len() && (#[trigger] entries[i]) is Some ==> merged_all(entries, edges)[i]
                is Some && below(merged_all(entries, edges)[i]->0, entries[i]->0),
        forall|i: int|
            0 <= i < entries.len() && (#[trigger] merged_all(entries, edges)[i]) != entries[i]
                ==> exists|k: int| 0 <= k < edges.len() && (#[trigger] edges[k]).0@ == i,
        forall|k: int|
            0 <= k < edges.len() && (#[trigger] edges[k]).0@ < entries.len() ==> merged_all(
                entries,
                edges,
            )[edges[k].0@ as int] is Some && below(
                merged_all(entries, edges)[edges[k].0@ as int]->0,
                edges[k].1,
            ),
    decreases edges.len(),
{
    if edges.len() > 0 {
        let front = edges.drop_last();
        lemma_merged_all_shape(entries, front);
        let before = merged_all(entries, front);
        let last = edges.last();
        let after = merged(before, last.0, last.1);
        assert forall|i: int|
            0 <= i < entries.len() && (#[trigger] after[i]) != entries[i] implies exists|k: int|
            0 <= k < edges.len() && (#[trigger] edges[k]).0@ == i by {
            if before[i] != entries[i] {
                let k = choose|k: int| 0 <= k < front.len() && (#[trigger] front[k]).0@ == i;
                assert(edges[k] == front[k]);
            } else {
                assert(edges[edges.len() - 1].0@ == i);
            }
        }
        assert forall|k: int|
            0 <= k < edges.len() && (#[trigger] edges[k]).0@ < entries.len() implies after[edges[k].0@ as int]
            is Some && below(after[edges[k].0@ as int]->0, edges[k].1) by {
            if k < edges.len() - 1 {
                assert(front[k] == edges[k]);
            }
        }
    }
}

/// Merging edges whose states have at least what `x` has at their targets
/// keeps `x` dominated.
pub proof fn lemma_merged_all_dominates(
    entries: Seq<Option<Available>>,
    edges: Seq<(BasicBlockId, Available)>,
    x: Seq<Available>,
)
    requires
        x.len() == entries.len(),
        dominates(entries, x),
        forall|k: int|
            0 <= k < edges.len() && (#[trigger] edges[k]).0@ < x.len() ==> below(
                x[edges[k].0@ as int],
                edges[k].1,
            ),
    ensures
        dominates(merged_all(entries, edges), x),
    decreases edges.len(),
{
    lemma_merged_all_shape(entries, edges);
    if edges.len() > 0 {
        let front = edges.drop_last();
        assert forall|k: int|
            0 <= k < front.len() && (#[trigger] front[k]).0@ < x.len() implies below(
            x[front[k].0@ as int],
            front[k].1,
        ) by {
            assert(edges[k] == front[k]);
        }
        lemma_merged_all_dominates(entries, front, x);
        lemma_merged_all_shape(entries, front);
        let last = edges.last();
        assert(edges[edges.len() - 1] == last);
    }
}

/// Recording edges of `block` changes only the keys of `block`; a key of
/// `block` is then present when it was or when an edge goes to its target,
/// with the state of the last such edge.
pub proof fn lemma_recorded_edges(
    records: Map<(BasicBlockId, BasicBlockId), Available>,
    block: BasicBlockId,
    edges: Seq<(BasicBlockId, Available)>,
)
    ensures
        forall|key: (BasicBlockId, BasicBlockId)|
            key.0 != block ==> (#[trigger] recorded_edges(records, block, edges).contains_key(key)
                == records.contains_key(key) && (records.contains_key(key) ==> recorded_edges(
                records,
                block,
                edges,
            )[key] == records[key])),
        forall|target: BasicBlockId|
            #[trigger] recorded_edges(records, block, edges).contains_key((block, target)) == (
            records.contains_key((block, target)) || last_edge_to(edges, target) is Some),
        forall|target: BasicBlockId|
            #[trigger] last_edge_to(edges, target) is Some ==> recorded_edges(records, block, edges)[(
                block,
                target,
            )] == last_edge_to(edges, target)->0,
    decreases edges.len(),
{
    if edges.len() > 0 {
        let front = edges.drop_last();
        lemma_recorded_edges(records, block, front);
        let before = recorded_edges(records, block, front);
        let last = edges.last();
        assert(recorded_edges(records, block, edges) == before.insert((block, last.0), last.1));
        assert forall|target: BasicBlockId|
            #[trigger] recorded_edges(records, block, edges).contains_key((block, target)) == (
            records.contains_key((block, target)) || last_edge_to(edges, target) is Some) by {
            if last.0 != target {
                assert(last_edge_to(edges, target) == last_edge_to(front, target));
            }
        }
        assert forall|target: BasicBlockId| #[trigger]
            last_edge_to(edges, target) is Some implies recorded_edges(records, block, edges)[(
            block,
            target,
        )] == last_edge_to(edges, target)->0 by {
            if last.0 != target {
                assert(last_edge_to(edges, target) == last_edge_to(front, target));
            }
        }
    } else {
        assert(recorded_edges(records, block, edges) == records);
        assert forall|target: BasicBlockId|
            #[trigger] recorded_edges(records, block, edges).contains_key((block, target)) == (
            records.contains_key((block, target)) || last_edge_to(edges, target) is Some) by {
            assert(last_edge_to(edges, target) is None);
        }
    }
}

/// `last_edge_to` finds an edge exactly when one goes to the target.
pub proof fn lemma_last_edge_to(edges: Seq<(BasicBlockId, Available)>, target: BasicBlockId)
    ensures
        last_edge_to(edges, target) is Some <==> exists|k: int|
            0 <= k < edges.len() && (#[trigger] edges[k]).0 == target,
        last_edge_to(edges, target) is Some ==> exists|k: int|
            0 <= k < edges.len() && (#[trigger] edges[k]).0 == target && edges[k].1 == last_edge_to(
                edges,
                target,
            )->0,
    decreases edges.len(),
{
    if edges.len() > 0 {
        let front = edges.drop_last();
        lemma_last_edge_to(front, target);
        if edges.last().0 != target {
            if exists|k: int| 0 <= k < edges.len() && (#[trigger] edges[k]).0 == target {
                let k = choose|k: int| 0 <= k < edges.len() && (#[trigger] edges[k]).0 == target;
                assert(front[k] == edges[k]);
            }
            if last_edge_to(front, target) is Some {
                let k = choose|k: int|
                    0 <= k < front.len() && (#[trigger] front[k]).0 == target && front[k].1
                        == last_edge_to(front, target)->0;
                assert(edges[k] == front[k]);
            }
        } else {
            assert(edges[edges.len() - 1].0 == target);
        }
    }
}

/// Block `b`'s results are up to date with its entry state: its errors are
/// reported, its edges respected and recorded, its exit recorded.
pub open spec fn settled(
    body: Body,
    entries: Seq<Option<Available>>,
    b: int,
    errors: Set<InitializationError>,
    edges: Map<(BasicBlockId, BasicBlockId), Available>,
    exits: Map<BasicBlockId, Available>,
) -> bool {
    entries[b] matches Some(state) ==> {
        let flow = block_flow(body, BasicBlockId::at(b), state);
        &&& flow.errors.subset_of(errors)
        &&& edges_respected(body, entries, b)
        &&& forall|t: BasicBlockId|
            #[trigger] edges.contains_key((BasicBlockId::at(b), t)) <==> last_edge_to(flow.edges, t)
                is Some
        &&& forall|t: BasicBlockId|
            #[trigger] edges.contains_key((BasicBlockId::at(b), t)) ==> edges[(
                BasicBlockId::at(b),
                t,
            )] == last_edge_to(flow.edges, t)->0
        &&& exits.contains_key(BasicBlockId::at(b)) <==> flow.exit is Some
        &&& exits.contains_key(BasicBlockId::at(b)) ==> exits[BasicBlockId::at(b)] == flow.exit->0
    }
}

/// What holds between iterations of the analysis: the entries are sound
/// and dominate every post-fixpoint, every reported error is one of the
/// entries' errors, and every block outside the queue is settled.
pub open spec fn worklist_invariant(
    body: Body,
    entries: Seq<Option<Available>>,
    queue: Seq<BasicBlockId>,
    errors: Set<InitializationError>,
    edges: Map<(BasicBlockId, BasicBlockId), Available>,
    exits: Map<BasicBlockId, Available>,
) -> bool {
    &&& entries.len() == body.blocks@.len()
    &&& body.entry@ < entries.len()
    &&& entries[body.entry@ as int] matches Some(state) && below(state, initial_available(body))
    &&& forall|b: int| 0 <= b < entries.len() && (#[trigger] entries[b]) is Some ==> reachable(body, b)
    &&& forall|x: Seq<Available>| #[trigger] post_fixpoint(body, x) ==> dominates(entries, x)
    &&& errors.subset_of(solution_errors(body, entries))
    &&& forall|b: int|
        0 <= b < entries.len() && !queue.contains(BasicBlockId::at(b)) ==> #[trigger] settled(
            body,
            entries,
            b,
            errors,
            edges,
            exits,
        )
    &&& forall|q: BasicBlockId|
        #[trigger] queue.contains(q) ==> q@ < entries.len() && entries[q@ as int] is Some
    &&& forall|key: (BasicBlockId, BasicBlockId)|
        #[trigger] edges.contains_key(key) ==> key.0@ < entries.len() && entries[key.0@ as int]
            is Some && edge_targets(body.blocks@[key.0@ as int].terminator).contains(key.1)
    &&& forall|block: BasicBlockId|
        #[trigger] exits.contains_key(block) ==> block@ < entries.len() && entries[block@ as int]
            is Some && leaves_body(body.blocks@[block@ as int].terminator)
}

/// A target of a reachable block is reachable.
pub proof fn lemma_reachable_step(body: Body, p: int, k: int)
    requires
        0 <= p < body.blocks@.len(),
        reachable(body, p),
        0 <= k < edge_targets(body.blocks@[p].terminator).len(),
    ensures
        reachable(body, edge_targets(body.blocks@[p].terminator)[k]@ as int),
{
    let steps = choose|steps: nat| reachable_within(body, p, steps);
    let target = edge_targets(body.blocks@[p].terminator)[k]@ as int;
    assert(reachable_within(body, target, steps + 1));
}

/// Every block reachable in `steps` edges has an entry, when the entry block
/// has one and every edge is respected.
pub proof fn lemma_reachable_has_entry(body: Body, entries: Seq<Option<Available>>, b: int, steps: nat)
    requires
        entries.len() == body.blocks@.len(),
        body.entry@ < entries.len(),
        entries[body.entry@ as int] is Some,
        forall|c: int| 0 <= c < entries.len() ==> #[trigger] edges_respected(body, entries, c),
        0 <= b < entries.len(),
        reachable_within(body, b, steps),
    ensures
        entries[b] is Some,
    decreases steps,
{
    if b != body.entry@ {
        let (p, k) = choose|p: int, k: int|
            0 <= p < body.blocks@.len() && 0 <= k < edge_targets(body.blocks@[p].terminator).len()
                && #[trigger] edge_targets(body.blocks@[p].terminator)[k]@ == b && reachable_within(
                body,
                p,
                (steps - 1) as nat,
            );
        lemma_reachable_has_entry(body, entries, p, (steps - 1) as nat);
        let state = entries[p]->0;
        lemma_flow_targets(body, BasicBlockId::at(p), state);
        assert(edges_respected(body, entries, p));
        assert(block_flow(body, BasicBlockId::at(p), state).edges[k].0@ == b);
    }
}

/// An error of a block entered with a state has a witness among the
/// solution's errors.
pub proof fn lemma_solution_error(
    body: Body,
    entries: Seq<Option<Available>>,
    b: int,
    error: InitializationError,
)
    requires
        0 <= b < entries.len(),
        entries[b] is Some,
        block_flow(body, BasicBlockId::at(b), entries[b]->0).errors.contains(error),
    ensures
        solution_errors(body, entries).contains(error),
{
}

/// One iteration of the analysis keeps its invariant.
pub proof fn lemma_worklist_step(
    body: Body,
    entries: Seq<Option<Available>>,
    queue: Seq<BasicBlockId>,
    errors: Set<InitializationError>,
    edges: Map<(BasicBlockId, BasicBlockId), Available>,
    exits: Map<BasicBlockId, Available>,
    new_entries: Seq<Option<Available>>,
    new_queue: Seq<BasicBlockId>,
    new_errors: Set<InitializationError>,
    new_edges: Map<(BasicBlockId, BasicBlockId), Available>,
    new_exits: Map<BasicBlockId, Available>,
)
    requires
        body.addressable(),
        worklist_invariant(body, entries, queue, errors, edges, exits),
        queue.len() > 0,
        ({
            let b = queue[0];
            let flow = block_flow(body, b, entries[b@ as int]->0);
            &&& new_errors == errors.union(flow.errors)
            &&& new_entries == merged_all(entries, flow.edges)
            &&& queue_follows(queue.drop_first(), new_queue, entries, new_entries)
            &&& new_edges == recorded_edges(edges, b, flow.edges)
            &&& new_exits == match flow.exit {
                Some(state) => exits.insert(b, state),
                None => exits,
            }
        }),
    ensures
        worklist_invariant(body, new_entries, new_queue, new_errors, new_edges, new_exits),
{
    let b = queue[0];
    assert(queue.contains(b));
    let bi = b@ as int;
    assert(BasicBlockId::at(bi) == b);
    let state = entries[bi]->0;
    let flow = block_flow(body, b, state);
    let rest = queue.drop_first();
    lemma_merged_all_shape(entries, flow.edges);
    lemma_recorded_edges(edges, b, flow.edges);
    lemma_flow_targets(body, b, state);
    lemma_flow_exit(body, b, state);
    // The entry block keeps a state below the initial one.
    // Reached blocks stay reachable, and new ones are targets of `b`.
    assert forall|i: int| 0 <= i < new_entries.len() && (#[trigger] new_entries[i]) is Some implies reachable(
        body,
        i,
    ) by {
        if entries[i] is None {
            let k = choose|k: int| 0 <= k < flow.edges.len() && (#[trigger] flow.edges[k]).0@ == i;
            lemma_reachable_step(body, bi, k);
        }
    }
    // Every post-fixpoint stays dominated.
    assert(reachable(body, bi));
    assert forall|x: Seq<Available>| #[trigger] post_fixpoint(body, x) implies dominates(new_entries, x) by {
        assert(dominates(entries, x));
        lemma_block_flow_monotone(body, b, x[bi], state);
        assert forall|k: int|
            0 <= k < flow.edges.len() && (#[trigger] flow.edges[k]).0@ < x.len() implies below(
            x[flow.edges[k].0@ as int],
            flow.edges[k].1,
        ) by {
            let small = block_flow(body, BasicBlockId::at(bi), x[bi]);
            assert(small.edges[k].0 == flow.edges[k].0);
            assert(below(x[small.edges[k].0@ as int], small.edges[k].1));
        }
        lemma_merged_all_dominates(entries, flow.edges, x);
    }
    // Reported errors stay errors of the smaller entries.
    assert forall|e: InitializationError| #[trigger] new_errors.contains(e) implies solution_errors(
        body,
        new_entries,
    ).contains(e) by {
        if errors.contains(e) {
            assert(solution_errors(body, entries).contains(e));
            let c = choose|c: int|
                0 <= c < entries.len() && (#[trigger] entries[c] matches Some(s)
                    && block_flow(body, BasicBlockId::at(c), s).errors.contains(e));
            lemma_block_flow_monotone(body, BasicBlockId::at(c), new_entries[c]->0, entries[c]->0);
            lemma_solution_error(body, new_entries, c, e);
        } else {
            lemma_block_flow_monotone(body, b, new_entries[bi]->0, state);
            lemma_solution_error(body, new_entries, bi, e);
        }
    }
    // Blocks outside the queue are settled.
    assert forall|c: int|
        0 <= c < new_entries.len() && !new_queue.contains(BasicBlockId::at(c)) implies #[trigger] settled(
        body,
        new_entries,
        c,
        new_errors,
        new_edges,
        new_exits,
    ) by {
        let id = BasicBlockId::at(c);
        if new_entries[c] is Some {
            assert(new_entries[c] == entries[c]);
            let current = new_entries[c]->0;
            let current_flow = block_flow(body, id, current);
            assert(current_flow.errors.subset_of(new_errors)) by {
                if c != bi {
                    assert(!rest.contains(id));
                    if queue.contains(id) {
                        let k = choose|k: int| 0 <= k < queue.len() && queue[k] == id;
                        assert(k != 0);
                        assert(rest[k - 1] == id);
                    }
                    assert(settled(body, entries, c, errors, edges, exits));
                }
            }
            if c == bi {
                assert forall|k: int|
                    0 <= k < current_flow.edges.len() && (#[trigger] current_flow.edges[k]).0@
                        < new_entries.len() implies (new_entries[current_flow.edges[k].0@ as int] matches Some(
                    target,
                ) && below(target, current_flow.edges[k].1)) by {}
                assert(edges_respected(body, new_entries, c));
                assert forall|t: BasicBlockId|
                    #[trigger] new_edges.contains_key((id, t)) <==> last_edge_to(current_flow.edges, t)
                        is Some by {
                    lemma_last_edge_to(flow.edges, t);
                    if edges.contains_key((id, t)) {
                        let k = choose|k: int|
                            0 <= k < edge_targets(body.blocks@[bi].terminator).len()
                                && edge_targets(body.blocks@[bi].terminator)[k] == t;
                        assert(flow.edges[k].0 == t);
                    }
                }
                if flow.exit is None {
                    assert(!exits.contains_key(id));
                }
            } else {
                assert(!rest.contains(id));
                if queue.contains(id) {
                    let k = choose|k: int| 0 <= k < queue.len() && queue[k] == id;
                    assert(k != 0);
                    assert(rest[k - 1] == id);
                }
                assert(settled(body, entries, c, errors, edges, exits));
                assert forall|k: int|
                    0 <= k < current_flow.edges.len() && (#[trigger] current_flow.edges[k]).0@
                        < new_entries.len() implies (new_entries[current_flow.edges[k].0@ as int] matches Some(
                    target,
                ) && below(target, current_flow.edges[k].1)) by {
                    let t = current_flow.edges[k].0@ as int;
                    assert(entries[t] is Some);
                }
                assert(edges_respected(body, new_entries, c));
                assert forall|t: BasicBlockId|
                    #[trigger] new_edges.contains_key((id, t)) == edges.contains_key((id, t)) by {}
            }
        }
    }
    // The queue holds blocks with entries.
    assert forall|q: BasicBlockId| #[trigger] new_queue.contains(q) implies q@ < new_entries.len()
        && new_entries[q@ as int] is Some by {
        if rest.contains(q) {
            let k = choose|k: int| 0 <= k < rest.len() && rest[k] == q;
            assert(queue[k + 1] == q);
            assert(queue.contains(q));
            assert(entries[q@ as int] is Some);
        }
    }
    // Recorded edges and exits belong to blocks with entries.
    assert forall|key: (BasicBlockId, BasicBlockId)| #[trigger] new_edges.contains_key(key) implies key.0@
        < new_entries.len() && new_entries[key.0@ as int] is Some && edge_targets(
        body.blocks@[key.0@ as int].terminator,
    ).contains(key.1) by {
        if !edges.contains_key(key) {
            assert(key.0 == b);
            lemma_last_edge_to(flow.edges, key.1);
            let k = choose|k: int| 0 <= k < flow.edges.len() && (#[trigger] flow.edges[k]).0 == key.1;
            assert(edge_targets(body.blocks@[bi].terminator)[k] == key.1);
        }
    }
}

/// When the queue is empty, the entries are the analysis solution and the
/// reported errors and recorded states are exactly the solution's.
pub proof fn lemma_worklist_done(
    body: Body,
    entries: Seq<Option<Available>>,
    errors: Set<InitializationError>,
    edges: Map<(BasicBlockId, BasicBlockId), Available>,
    exits: Map<BasicBlockId, Available>,
)
    requires
        body.addressable(),
        worklist_invariant(body, entries, Seq::empty(), errors, edges, exits),
    ensures
        analysis_solution(body, entries),
        errors == solution_errors(body, entries),
        edges == solution_edges(body, entries),
        exits == solution_exits(body, entries),
{
    assert forall|b: int| 0 <= b < entries.len() implies #[trigger] settled(
        body,
        entries,
        b,
        errors,
        edges,
        exits,
    ) by {
        assert(!Seq::<BasicBlockId>::empty().contains(BasicBlockId::at(b)));
    }
    assert forall|b: int| 0 <= b < entries.len() implies #[trigger] edges_respected(body, entries, b) by {
        assert(settled(body, entries, b, errors, edges, exits));
    }
    assert forall|b: int| 0 <= b < entries.len() implies (#[trigger] entries[b] is Some <==> reachable(
        body,
        b,
    )) by {
        if reachable(body, b) {
            let steps = choose|steps: nat| reachable_within(body, b, steps);
            lemma_reachable_has_entry(body, entries, b, steps);
        }
    }
    assert forall|e: InitializationError| #[trigger] solution_errors(body, entries).contains(e) implies errors.contains(
        e,
    ) by {
        let b = choose|b: int|
            0 <= b < entries.len() && (#[trigger] entries[b] matches Some(s)
                && block_flow(body, BasicBlockId::at(b), s).errors.contains(e));
        assert(settled(body, entries, b, errors, edges, exits));
    }
    assert(errors =~= solution_errors(body, entries));
    assert forall|key: (BasicBlockId, BasicBlockId)| #[trigger] edges.contains_key(key) <==> solution_edges(
        body,
        entries,
    ).contains_key(key) by {
        if key.0@ < entries.len() {
            let b = key.0@ as int;
            assert(BasicBlockId::at(b) == key.0);
            assert(settled(body, entries, b, errors, edges, exits));
        }
    }
    assert forall|key: (BasicBlockId, BasicBlockId)| #[trigger] edges.contains_key(key) implies edges[key]
        == solution_edges(body, entries)[key] by {
        let b = key.0@ as int;
        assert(BasicBlockId::at(b) == key.0);
        assert(settled(body, entries, b, errors, edges, exits));
    }
    assert(edges =~= solution_edges(body, entries));
    assert forall|block: BasicBlockId| #[trigger] exits.contains_key(block) <==> solution_exits(
        body,
        entries,
    ).contains_key(block) by {
        if block@ < entries.len() {
            let b = block@ as int;
            assert(BasicBlockId::at(b) == block);
            assert(settled(body, entries, b, errors, edges, exits));
        }
    }
    assert forall|block: BasicBlockId| #[trigger] exits.contains_key(block) implies exits[block]
        == solution_exits(body, entries)[block] by {
        let b = block@ as int;
        assert(BasicBlockId::at(b) == block);
        assert(settled(body, entries, b, errors, edges, exits));
    }
    assert(exits =~= solution_exits(body, entries));
}

/// The analysis solution is unique.
pub proof fn lemma_solution_unique(body: Body, first: Seq<Option<Available>>, second: Seq<Option<Available>>)
    requires
        analysis_solution(body, first),
        analysis_solution(body, second),
    ensures
        first == second,
{
    let x = total(first);
    let y = total(second);
    lemma_total_post_fixpoint(body, first);
    lemma_total_post_fixpoint(body, second);
    assert(dominates(second, x));
    assert(dominates(first, y));
    assert forall|b: int| 0 <= b < first.len() implies first[b] == second[b] by {
        if first[b] is Some {
            assert(reachable(body, b));
            assert(second[b] is Some);
            assert(below(x[b], second[b]->0));
            assert(below(y[b], first[b]->0));
            let (mine, theirs) = (first[b]->0, second[b]->0);
            assert(mine.0 =~= theirs.0);
            assert(mine.1 =~= theirs.1);
        } else {
            assert(!reachable(body, b));
        }
    }
    assert(first =~= second);
}

/// The entries, with nothing available where there is no entry.
pub open spec fn total(entries: Seq<Option<Available>>) -> Seq<Available> {
    Seq::new(
        entries.len(),
        |i: int|
            match entries[i] {
                Some(state) => state,
                None => (Set::empty(), Set::empty()),
            },
    )
}

/// A solution, completed with empty states, is a post-fixpoint.
pub proof fn lemma_total_post_fixpoint(body: Body, entries: Seq<Option<Available>>)
    requires
        analysis_solution(body, entries),
    ensures
        post_fixpoint(body, total(entries)),
{
    let x = total(entries);
    assert forall|b: int, k: int|
        0 <= b < x.len() && reachable(body, b) && 0 <= k < block_flow(
            body,
            BasicBlockId::at(b),
            x[b],
        ).edges.len() implies (#[trigger] block_flow(body, BasicBlockId::at(b), x[b]).edges[k]).0@
        < x.len() ==> below(
        x[block_flow(body, BasicBlockId::at(b), x[b]).edges[k].0@ as int],
        block_flow(body, BasicBlockId::at(b), x[b]).edges[k].1,
    ) by {
        assert(entries[b] is Some);
        assert(edges_respected(body, entries, b));
    }
}

/// The definite-initialization solution of `body`: the entry states of its
/// reachable blocks.
pub open spec fn solution(body: Body) -> Seq<Option<Available>> {
    choose|entries: Seq<Option<Available>>| analysis_solution(body, entries)
}

/// Any solution is the solution.
pub proof fn lemma_is_solution(body: Body, entries: Seq<Option<Available>>)
    requires
        analysis_solution(body, entries),
    ensures
        solution(body) == entries,
{
    lemma_solution_unique(body, solution(body), entries);
}


/// Beginning a loan reads its source: where the source place is not
/// available before the loan begins, the statement reports an error at
/// itself naming the source's local.
pub proof fn lemma_loan_reads_source(
    body: Body,
    view: Available,
    loan: crate::ids::LoanId,
    origin: crate::model::Origin,
    block: BasicBlockId,
    index: usize,
)
    requires
        loan@ < body.loans@.len(),
        body.loans@[loan@ as int].source.local@ < body.locals@.len(),
        !PlaceState::available_in(view, body, body.loans@[loan@ as int].source),
    ensures
        statement_step(body, view, Statement::BeginLoan { loan, origin }, block, index).0.contains(
            InitializationError {
                block,
                location: InitializationLocation::Statement(index),
                local: body.loans@[loan@ as int].source.local,
            },
        ),
{
}

/// `operand` reads a place of the body that is not available in `view`.
pub open spec fn reads_unavailable(body: Body, view: Available, operand: Operand) -> bool {
    crate::initialization::operand_place(operand) matches Some(place) && place.local@ < body.locals@.len()
        && !PlaceState::available_in(view, body, place)
}

/// The error reading an unavailable place reports at `location`.
pub open spec fn read_error(operand: Operand, block: BasicBlockId, location: InitializationLocation) -> InitializationError {
    InitializationError {
        block,
        location,
        local: crate::initialization::operand_place(operand)->0.local,
    }
}

/// Reading operands in order reports the first one when it reads an
/// unavailable place.
pub proof fn lemma_first_read_reported(
    body: Body,
    view: Available,
    operands: Seq<Operand>,
    block: BasicBlockId,
    location: InitializationLocation,
)
    requires
        operands.len() > 0,
        reads_unavailable(body, view, operands[0]),
    ensures
        read_operands(body, view, operands, block, location).0.contains(read_error(operands[0], block, location)),
    decreases operands.len(),
{
    if operands.len() > 1 {
        assert(operands.drop_last()[0] == operands[0]);
        lemma_first_read_reported(body, view, operands.drop_last(), block, location);
    } else {
        assert(operands.drop_last().len() == 0);
        assert(operands.last() == operands[0]);
        assert(read_operands(body, view, operands.drop_last(), block, location).1 == view);
        assert(operand_error(body, view, operands[0], block, location) == Some(read_error(operands[0], block, location)));
    }
}

/// An assignment reads the operands of its value first: where the first
/// one reads an unavailable place, the assignment reports it at itself.
pub proof fn lemma_assignment_reads_operands(
    body: Body,
    view: Available,
    destination: Place,
    value: crate::model::Rvalue,
    origin: crate::model::Origin,
    block: BasicBlockId,
    index: usize,
)
    requires
        rvalue_operand_seq(value).len() > 0,
        reads_unavailable(body, view, rvalue_operand_seq(value)[0]),
    ensures
        statement_step(body, view, Statement::Assign { destination, value, origin }, block, index).0.contains(
            read_error(rvalue_operand_seq(value)[0], block, InitializationLocation::Statement(index)),
        ),
{
    lemma_first_read_reported(
        body,
        view,
        rvalue_operand_seq(value),
        block,
        InitializationLocation::Statement(index),
    );
}

/// A switch reads its condition: an unavailable one is reported at the
/// switch.
pub proof fn lemma_switch_reads_condition(
    body: Body,
    view: Available,
    condition: Operand,
    then_target: BasicBlockId,
    else_target: BasicBlockId,
    join_target: Option<BasicBlockId>,
    block: BasicBlockId,
)
    requires
        reads_unavailable(body, view, condition),
    ensures
        terminator_flow(body, view, Terminator::Switch { condition, then_target, else_target, join_target }, block).errors.contains(
            read_error(condition, block, InitializationLocation::Switch),
        ),
{
}

/// A call reads its arguments in order: an unavailable first argument is
/// reported at that argument.
pub proof fn lemma_call_reads_first_argument(
    body: Body,
    view: Available,
    arguments: Seq<CallArgument>,
    block: BasicBlockId,
)
    requires
        arguments.len() > 0,
        reads_unavailable(body, view, arguments[0].operand),
    ensures
        read_arguments(body, view, arguments, block).0.contains(
            read_error(arguments[0].operand, block, InitializationLocation::CallArgument(0)),
        ),
    decreases arguments.len(),
{
    if arguments.len() > 1 {
        assert(arguments.drop_last()[0] == arguments[0]);
        lemma_call_reads_first_argument(body, view, arguments.drop_last(), block);
    } else {
        assert(arguments.last() == arguments[0]);
        assert(read_arguments(body, view, arguments.drop_last(), block).1 == view);
        assert(operand_error(body, view, arguments[0].operand, block, InitializationLocation::CallArgument(0))
            == Some(read_error(arguments[0].operand, block, InitializationLocation::CallArgument(0))));
    }
}

/// Inspecting an outcome reads it: an unavailable source is reported at
/// the inspection.
pub proof fn lemma_inspection_reads_source(
    body: Body,
    view: Available,
    origin: crate::model::Origin,
    source: Operand,
    layer: crate::semantic::OutcomeLayer,
    destination: Place,
    success: BasicBlockId,
    failure: BasicBlockId,
    failure_payload: Option<LocalId>,
    block: BasicBlockId,
)
    requires
        reads_unavailable(body, view, source),
    ensures
        terminator_flow(
            body,
            view,
            Terminator::InspectOutcome { origin, source, layer, destination, success, failure, failure_payload },
            block,
        ).errors.contains(read_error(source, block, InitializationLocation::Inspection)),
{
}

/// Dropping moves the place out: an unavailable place is reported at the
/// drop, and afterwards the place is not available.
pub proof fn lemma_drop_reads_place(
    body: Body,
    view: Available,
    place: Place,
    plan: crate::ids::DropPlanId,
    target: BasicBlockId,
    block: BasicBlockId,
)
    requires
        reads_unavailable(body, view, Operand::Move(place)),
    ensures
        terminator_flow(body, view, Terminator::Drop { place, plan, target }, block).errors.contains(
            read_error(Operand::Move(place), block, InitializationLocation::Drop),
        ),
{
}

/// Returning a value reads it: an unavailable one is reported at the return.
pub proof fn lemma_return_reads_value(body: Body, view: Available, source: Operand, block: BasicBlockId)
    requires
        reads_unavailable(body, view, source),
    ensures
        terminator_flow(body, view, Terminator::ReturnValue { source }, block).errors.contains(
            read_error(source, block, InitializationLocation::Return),
        ),
        terminator_flow(body, view, Terminator::ReturnOutcome { source }, block).errors.contains(
            read_error(source, block, InitializationLocation::Return),
        ),
        terminator_flow(body, view, Terminator::ReturnOutcomeSuccess { source }, block).errors.contains(
            read_error(source, block, InitializationLocation::Return),
        ),
{
}

/// A plain return reads the return local: where it is not available, the
/// return reports it.
pub proof fn lemma_return_reads_result(body: Body, view: Available, block: BasicBlockId)
    requires
        body.return_local@ < body.locals@.len(),
        !PlaceState::available_in(view, body, whole(body.return_local)),
    ensures
        terminator_flow(body, view, Terminator::Return, block).errors.contains(
            InitializationError { block, location: InitializationLocation::Return, local: body.return_local },
        ),
{
}

/// A call reports an unavailable first argument at that argument.
pub proof fn lemma_call_terminator_reads_arguments(
    body: Body,
    view: Available,
    origin: crate::model::Origin,
    callee: crate::calls::CallInstance,
    arguments: Vec<CallArgument>,
    continuation: CallContinuation,
    block: BasicBlockId,
)
    requires
        arguments@.len() > 0,
        reads_unavailable(body, view, arguments@[0].operand),
    ensures
        terminator_flow(body, view, Terminator::Call { origin, callee, arguments, continuation }, block).errors.contains(
            read_error(arguments@[0].operand, block, InitializationLocation::CallArgument(0)),
        ),
{
    lemma_call_reads_first_argument(body, view, arguments@, block);
}

/// `place` is a whole local of the body or a valid path of one.
pub open spec fn addressable_place(body: Body, place: Place) -> bool {
    match place.projection {
        None => place.local@ < body.locals@.len(),
        Some(_) => crate::places::valid_path(body, place),
    }
}

/// After an assignment its destination is available; after a loan begins
/// the borrow's local is, and after it ends that local is not.
pub proof fn lemma_statements_write_places(
    body: Body,
    view: Available,
    destination: Place,
    value: crate::model::Rvalue,
    origin: crate::model::Origin,
    loan: crate::ids::LoanId,
    block: BasicBlockId,
    index: usize,
)
    ensures
        addressable_place(body, destination) ==> PlaceState::available_in(
            statement_step(body, view, Statement::Assign { destination, value, origin }, block, index).1,
            body,
            destination,
        ),
        loan@ < body.loans@.len() && body.loans@[loan@ as int].destination@ < body.locals@.len() ==> PlaceState::available_in(
            statement_step(body, view, Statement::BeginLoan { loan, origin }, block, index).1,
            body,
            whole(body.loans@[loan@ as int].destination),
        ),
        loan@ < body.loans@.len() && body.loans@[loan@ as int].destination@ < body.locals@.len() ==> !PlaceState::available_in(
            statement_step(body, view, Statement::EndLoan { loan }, block, index).1,
            body,
            whole(body.loans@[loan@ as int].destination),
        ),
{
    let read = read_operands(
        body,
        view,
        rvalue_operand_seq(value),
        block,
        InitializationLocation::Statement(index),
    );
    if addressable_place(body, destination) {
        crate::places::lemma_write_and_move(read.1, body, destination);
    }
    if loan@ < body.loans@.len() && body.loans@[loan@ as int].destination@ < body.locals@.len() {
        let declaration = body.loans@[loan@ as int];
        crate::places::lemma_write_and_move(
            after_operand(body, view, Operand::Copy(declaration.source)),
            body,
            whole(declaration.destination),
        );
        crate::places::lemma_write_and_move(view, body, whole(declaration.destination));
    }
}

/// Dropping a place moves it out: on the edge to the drop's target the
/// place is not available.
pub proof fn lemma_drop_moves_place(
    body: Body,
    view: Available,
    place: Place,
    plan: crate::ids::DropPlanId,
    target: BasicBlockId,
    block: BasicBlockId,
)
    requires
        addressable_place(body, place),
        place.local@ < body.locals@.len(),
    ensures
        terminator_flow(body, view, Terminator::Drop { place, plan, target }, block).edges == seq![
            (target, terminator_flow(body, view, Terminator::Drop { place, plan, target }, block).edges[0].1),
        ],
        !PlaceState::available_in(
            terminator_flow(body, view, Terminator::Drop { place, plan, target }, block).edges[0].1,
            body,
            place,
        ),
{
    crate::places::lemma_write_and_move(view, body, place);
}

} // verus!

