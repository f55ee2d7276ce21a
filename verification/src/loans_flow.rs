//! The meaning of loan analysis: what one block does to the loans that may
//! and must be active, and the solution the analysis computes.

use crate::ids::{BasicBlockId, LoanId};
use crate::initialization::rvalue_operand_seq;
use crate::initialization_flow::{edge_targets, reachable, reachable_within};
use crate::loans::{conflicts_with, touch_error, LoanError, LoanErrorKind};
use crate::model::{Body, CallArgument, CallContinuation, Operand, Place, Statement, Terminator};
use vstd::prelude::*;

verus! {

/// The loans that may be active, and those that must be.
pub type Activity = (Set<nat>, Set<nat>);

/// `first` claims less than `second`: at most the loans `second` may have
/// active, at least those it must have active.
pub open spec fn weaker(first: Activity, second: Activity) -> bool {
    first.0.subset_of(second.0) && second.1.subset_of(first.1)
}

/// The join of two states: what either may have active, what both must.
pub open spec fn join(first: Activity, second: Activity) -> Activity {
    (first.0.union(second.0), first.1.intersect(second.1))
}

/// The errors touching `place` with an action of `kind` reports.
pub open spec fn touch_errors(
    body: Body,
    view: Activity,
    place: Place,
    block: BasicBlockId,
    kind: LoanErrorKind,
) -> Set<LoanError> {
    Set::new(|error: LoanError| touch_error(body, view.0, place, block, kind, error))
}

/// The errors a move out of `operand` reports.
pub open spec fn move_errors(body: Body, view: Activity, operand: Operand, block: BasicBlockId) -> Set<LoanError> {
    match operand {
        Operand::Move(place) => touch_errors(body, view, place, block, LoanErrorKind::MoveWhileBorrowed),
        _ => Set::empty(),
    }
}

/// The errors the moves out of `operands` report.
pub open spec fn moves_errors(body: Body, view: Activity, operands: Seq<Operand>, block: BasicBlockId) -> Set<
    LoanError,
>
    decreases operands.len(),
{
    if operands.len() == 0 {
        Set::empty()
    } else {
        moves_errors(body, view, operands.drop_last(), block).union(
            move_errors(body, view, operands.last(), block),
        )
    }
}

/// The operands of call arguments.
pub open spec fn argument_operands(arguments: Seq<CallArgument>) -> Seq<Operand> {
    arguments.map_values(|argument: CallArgument| argument.operand)
}

/// The errors beginning `loan` reports: an unknown loan, a loan that may
/// already be active, a conflict with a loan that may be active.
pub open spec fn begin_errors(body: Body, view: Activity, loan: LoanId, block: BasicBlockId) -> Set<LoanError> {
    Set::new(
        |e: LoanError|
            e.block == Some(block) && e.loan == loan && ((e.kind == LoanErrorKind::InvalidIdentity
                && loan@ >= body.loans@.len()) || (e.kind == LoanErrorKind::AlreadyActive && loan@
                < body.loans@.len() && view.0.contains(loan@)) || (e.kind
                == LoanErrorKind::ConflictingBorrow && exists|other: int|
                conflicts_with(body, view.0, other, loan))),
    )
}

/// The loans that may still be active when `block` leaves the body.
pub open spec fn live_errors(body: Body, view: Activity, block: BasicBlockId) -> Set<LoanError> {
    Set::new(
        |e: LoanError|
            e.block == Some(block) && e.kind == LoanErrorKind::LiveAtExit && e.loan@
                < body.loans@.len() && view.0.contains(e.loan@),
    )
}

/// Statement `index` of `block` applied to `view`.
pub open spec fn statement_step(body: Body, view: Activity, statement: Statement, block: BasicBlockId) -> (
    Set<LoanError>,
    Activity,
) {
    match statement {
        Statement::Assign { destination, value, .. } => (
            touch_errors(body, view, destination, block, LoanErrorKind::MutateWhileBorrowed).union(
                moves_errors(body, view, rvalue_operand_seq(value), block),
            ),
            view,
        ),
        Statement::BeginLoan { loan, .. } => (
            begin_errors(body, view, loan, block),
            if loan@ < body.loans@.len() {
                (view.0.insert(loan@), view.1.insert(loan@))
            } else {
                view
            },
        ),
        Statement::EndLoan { loan } => (
            if view.1.contains(loan@) {
                Set::empty()
            } else {
                set![LoanError { block: Some(block), loan, kind: LoanErrorKind::EndOfInactive }]
            },
            (view.0.remove(loan@), view.1.remove(loan@)),
        ),
        _ => (Set::empty(), view),
    }
}

/// The statements of `block` applied in order to `view`.
pub open spec fn statements_step(body: Body, view: Activity, statements: Seq<Statement>, block: BasicBlockId) -> (
    Set<LoanError>,
    Activity,
)
    decreases statements.len(),
{
    if statements.len() == 0 {
        (Set::empty(), view)
    } else {
        let before = statements_step(body, view, statements.drop_last(), block);
        let last = statement_step(body, before.1, statements.last(), block);
        (before.0.union(last.0), last.1)
    }
}

/// What a block does: the errors it reports, the loans that must be active
/// after its statements, and the state it sends along each edge, in order.
pub struct LoanFlow {
    pub errors: Set<LoanError>,
    pub after_statements: Activity,
    pub edges: Seq<(BasicBlockId, Activity)>,
}

/// The errors and edges of the terminator of `block`, entered with `view`.
pub open spec fn terminator_flow(body: Body, view: Activity, terminator: Terminator, block: BasicBlockId) -> (
    Set<LoanError>,
    Seq<(BasicBlockId, Activity)>,
) {
    match terminator {
        Terminator::Goto { target } => (Set::empty(), seq![(target, view)]),
        Terminator::Switch { condition, then_target, else_target, .. } => (
            move_errors(body, view, condition, block),
            seq![(then_target, view), (else_target, view)],
        ),
        Terminator::Call { arguments, continuation, .. } => {
            let moves = moves_errors(body, view, argument_operands(arguments@), block);
            match continuation {
                CallContinuation::Continue { target } => (moves, seq![(target, view)]),
                CallContinuation::Return { target, .. } => (moves, seq![(target, view)]),
                CallContinuation::Outcome { success, failure, .. } => (
                    moves,
                    seq![(success, view), (failure, view)],
                ),
                CallContinuation::OutcomeEffect { success, failure, .. } => (
                    moves,
                    seq![(success, view), (failure, view)],
                ),
                CallContinuation::Never => (moves.union(live_errors(body, view, block)), seq![]),
            }
        },
        Terminator::InspectOutcome { source, success, failure, .. } => (
            move_errors(body, view, source, block),
            seq![(success, view), (failure, view)],
        ),
        Terminator::Drop { place, target, .. } => (
            touch_errors(body, view, place, block, LoanErrorKind::MoveWhileBorrowed),
            seq![(target, view)],
        ),
        Terminator::ReturnValue { source }
        | Terminator::ReturnOutcome { source }
        | Terminator::ReturnOutcomeSuccess { source } => (
            move_errors(body, view, source, block).union(live_errors(body, view, block)),
            seq![],
        ),
        Terminator::ReturnFailure { code, message } => (
            move_errors(body, view, code, block).union(move_errors(body, view, message, block)).union(
                live_errors(body, view, block),
            ),
            seq![],
        ),
        _ => (live_errors(body, view, block), seq![]),
    }
}

/// What block `block` of `body` does, entered with `entry`.
pub open spec fn block_flow(body: Body, block: BasicBlockId, entry: Activity) -> LoanFlow {
    let statements = statements_step(body, entry, body.blocks@[block@ as int].statements@, block);
    let end = terminator_flow(body, statements.1, body.blocks@[block@ as int].terminator, block);
    LoanFlow { errors: statements.0.union(end.0), after_statements: statements.1, edges: end.1 }
}

/// No loan is active when the body is entered.
pub open spec fn initial_activity() -> Activity {
    (Set::empty(), Set::empty())
}

/// `x` assigns every block a state that accounts for the entry and for the
/// edges from reachable blocks: a post-fixpoint of the analysis.
pub open spec fn post_fixpoint(body: Body, x: Seq<Activity>) -> bool {
    &&& x.len() == body.blocks@.len()
    &&& body.entry@ < x.len() ==> weaker(initial_activity(), x[body.entry@ as int])
    &&& forall|b: int, k: int|
        0 <= b < x.len() && reachable(body, b) && 0 <= k < block_flow(
            body,
            BasicBlockId::at(b),
            x[b],
        ).edges.len() ==> (#[trigger] block_flow(body, BasicBlockId::at(b), x[b]).edges[k]).0@
            < x.len() ==> weaker(
            block_flow(body, BasicBlockId::at(b), x[b]).edges[k].1,
            x[block_flow(body, BasicBlockId::at(b), x[b]).edges[k].0@ as int],
        )
}

/// Every present entry of `entries` claims no more than `x`.
pub open spec fn dominated(entries: Seq<Option<Activity>>, x: Seq<Activity>) -> bool {
    forall|b: int|
        0 <= b < entries.len() ==> (#[trigger] entries[b] matches Some(state) ==> weaker(state, x[b]))
}

/// Every edge that leaves reached block `b` goes to a reached block whose
/// entry state accounts for it.
pub open spec fn edges_joined(body: Body, entries: Seq<Option<Activity>>, b: int) -> bool {
    entries[b] matches Some(state) ==> forall|k: int|
        0 <= k < block_flow(body, BasicBlockId::at(b), state).edges.len() ==> (#[trigger] block_flow(
            body,
            BasicBlockId::at(b),
            state,
        ).edges[k]).0@ < entries.len() ==> (entries[block_flow(
            body,
            BasicBlockId::at(b),
            state,
        ).edges[k].0@ as int] matches Some(target) && weaker(
            block_flow(body, BasicBlockId::at(b), state).edges[k].1,
            target,
        ))
}

/// The entry states of loan analysis: a state exactly for the reachable
/// blocks, the least assignment that accounts for the entry and the edges.
pub open spec fn loan_solution(body: Body, entries: Seq<Option<Activity>>) -> bool {
    &&& entries.len() == body.blocks@.len()
    &&& entries[body.entry@ as int] matches Some(state) && weaker(initial_activity(), state)
    &&& forall|b: int| 0 <= b < entries.len() ==> (#[trigger] entries[b] is Some <==> reachable(body, b))
    &&& forall|b: int| 0 <= b < entries.len() ==> #[trigger] edges_joined(body, entries, b)
    &&& forall|x: Seq<Activity>| #[trigger] post_fixpoint(body, x) ==> dominated(entries, x)
}

/// The errors of every reached block, entered with its state in `entries`.
pub open spec fn solution_errors(body: Body, entries: Seq<Option<Activity>>) -> Set<LoanError> {
    Set::new(
        |error: LoanError|
            exists|b: int|
                0 <= b < entries.len() && (#[trigger] entries[b] matches Some(state)
                    && block_flow(body, BasicBlockId::at(b), state).errors.contains(error)),
    )
}

/// The loans that must be active after the statements of each reached block.
pub open spec fn solution_active(body: Body, entries: Seq<Option<Activity>>) -> Map<BasicBlockId, Set<nat>> {
    Map::new(
        |block: BasicBlockId| block@ < entries.len() && entries[block@ as int] is Some,
        |block: BasicBlockId| block_flow(body, block, entries[block@ as int]->0).after_statements.1,
    )
}

// Monotonicity: a state that claims more reports at least the same errors
// and sends states that claim more.
/// Moves out of operands report more errors from a state that may have more
/// loans active.
pub proof fn lemma_moves_monotone(body: Body, first: Activity, second: Activity, operands: Seq<Operand>, block: BasicBlockId)
    requires
        weaker(first, second),
    ensures
        moves_errors(body, first, operands, block).subset_of(moves_errors(body, second, operands, block)),
    decreases operands.len(),
{
    if operands.len() > 0 {
        lemma_moves_monotone(body, first, second, operands.drop_last(), block);
    }
}

/// Applying statements keeps the order of states and reports more errors
/// from the state that claims more.
pub proof fn lemma_statements_monotone(
    body: Body,
    first: Activity,
    second: Activity,
    statements: Seq<Statement>,
    block: BasicBlockId,
)
    requires
        weaker(first, second),
    ensures
        weaker(statements_step(body, first, statements, block).1, statements_step(body, second, statements, block).1),
        statements_step(body, first, statements, block).0.subset_of(
            statements_step(body, second, statements, block).0,
        ),
    decreases statements.len(),
{
    if statements.len() > 0 {
        lemma_statements_monotone(body, first, second, statements.drop_last(), block);
        let a = statements_step(body, first, statements.drop_last(), block).1;
        let b = statements_step(body, second, statements.drop_last(), block).1;
        match statements.last() {
            Statement::Assign { value, .. } => {
                lemma_moves_monotone(body, a, b, rvalue_operand_seq(value), block);
            },
            Statement::BeginLoan { loan, .. } => {
                assert forall|e: LoanError| #[trigger] begin_errors(body, a, loan, block).contains(e) implies begin_errors(
                    body,
                    b,
                    loan,
                    block,
                ).contains(e) by {
                    if e.kind == LoanErrorKind::ConflictingBorrow {
                        let other = choose|other: int| conflicts_with(body, a.0, other, loan);
                        assert(conflicts_with(body, b.0, other, loan));
                    }
                }
            },
            _ => {},
        }
    }
}

/// A block entered with a state claiming less sends states claiming less
/// along the same edges, and reports fewer errors.
pub proof fn lemma_block_flow_monotone(body: Body, block: BasicBlockId, first: Activity, second: Activity)
    requires
        weaker(first, second),
    ensures
        ({
            let small = block_flow(body, block, first);
            let large = block_flow(body, block, second);
            &&& small.errors.subset_of(large.errors)
            &&& small.edges.len() == large.edges.len()
            &&& forall|k: int|
                0 <= k < small.edges.len() ==> (#[trigger] small.edges[k]).0 == large.edges[k].0
                    && weaker(small.edges[k].1, large.edges[k].1)
        }),
{
    let statements = body.blocks@[block@ as int].statements@;
    lemma_statements_monotone(body, first, second, statements, block);
    let a = statements_step(body, first, statements, block).1;
    let b = statements_step(body, second, statements, block).1;
    match body.blocks@[block@ as int].terminator {
        Terminator::Call { arguments, .. } => {
            lemma_moves_monotone(body, a, b, argument_operands(arguments@), block);
        },
        _ => {},
    }
}

/// The edges of a block go to its terminator's targets.
pub proof fn lemma_flow_targets(body: Body, block: BasicBlockId, entry: Activity)
    ensures
        block_flow(body, block, entry).edges.len() == edge_targets(
            body.blocks@[block@ as int].terminator,
        ).len(),
        forall|k: int|
            0 <= k < block_flow(body, block, entry).edges.len() ==> (#[trigger] block_flow(
                body,
                block,
                entry,
            ).edges[k]).0 == edge_targets(body.blocks@[block@ as int].terminator)[k],
{
}

/// `entries` with `incoming` joined into the entry of `target`.
pub open spec fn merged(entries: Seq<Option<Activity>>, target: BasicBlockId, incoming: Activity) -> Seq<
    Option<Activity>,
> {
    if target@ < entries.len() {
        entries.update(
            target@ as int,
            Some(
                match entries[target@ as int] {
                    None => incoming,
                    Some(existing) => join(existing, incoming),
                },
            ),
        )
    } else {
        entries
    }
}

/// `entries` with the state of each of `edges` joined into its target, in
/// order.
pub open spec fn merged_all(entries: Seq<Option<Activity>>, edges: Seq<(BasicBlockId, Activity)>) -> Seq<
    Option<Activity>,
>
    decreases edges.len(),
{
    if edges.len() == 0 {
        entries
    } else {
        merged(merged_all(entries, edges.drop_last()), edges.last().0, edges.last().1)
    }
}

/// The queue grew from `before` to `after` by blocks with an entry, and
/// holds every block whose entry changed.
pub open spec fn queue_follows(
    before: Seq<BasicBlockId>,
    after: Seq<BasicBlockId>,
    old_entries: Seq<Option<Activity>>,
    new_entries: Seq<Option<Activity>>,
) -> bool {
    &&& new_entries.len() == old_entries.len()
    &&& forall|i: int|
        0 <= i < old_entries.len() && (#[trigger] old_entries[i]) is Some ==> new_entries[i] is Some
    &&& forall|q: BasicBlockId| #[trigger] before.contains(q) ==> after.contains(q)
    &&& forall|q: BasicBlockId|
        #[trigger] after.contains(q) ==> before.contains(q) || (q@ < new_entries.len()
            && new_entries[q@ as int] is Some)
    &&& forall|i: int|
        0 <= i < old_entries.len() && #[trigger] new_entries[i] != old_entries[i] ==> after.contains(
            BasicBlockId::at(i),
        )
}

/// Queue growth composes.
pub proof fn lemma_queue_follows_trans(
    first: Seq<BasicBlockId>,
    second: Seq<BasicBlockId>,
    third: Seq<BasicBlockId>,
    first_entries: Seq<Option<Activity>>,
    second_entries: Seq<Option<Activity>>,
    third_entries: Seq<Option<Activity>>,
)
    requires
        queue_follows(first, second, first_entries, second_entries),
        queue_follows(second, third, second_entries, third_entries),
    ensures
        queue_follows(first, third, first_entries, third_entries),
{
    assert forall|i: int|
        0 <= i < first_entries.len() && #[trigger] third_entries[i] != first_entries[i] implies third.contains(
        BasicBlockId::at(i),
    ) by {
        if second_entries[i] != first_entries[i] {
            assert(second.contains(BasicBlockId::at(i)));
        }
    }
    assert forall|q: BasicBlockId| #[trigger] third.contains(q) implies first.contains(q) || (q@
        < third_entries.len() && third_entries[q@ as int] is Some) by {
        if second.contains(q) && !first.contains(q) {
            assert(second_entries[q@ as int] is Some);
        }
    }
}

/// A queue and entries that did not change follow themselves.
pub proof fn lemma_queue_follows_same(queue: Seq<BasicBlockId>, entries: Seq<Option<Activity>>)
    ensures
        queue_follows(queue, queue, entries, entries),
{
}

/// Merging one edge.
pub proof fn lemma_merged_one(entries: Seq<Option<Activity>>, target: BasicBlockId, state: Activity)
    ensures
        merged_all(entries, seq![(target, state)]) == merged(entries, target, state),
{
    assert(seq![(target, state)].drop_last() =~= Seq::<(BasicBlockId, Activity)>::empty());
    assert(merged_all(entries, Seq::<(BasicBlockId, Activity)>::empty()) == entries);
}

/// Merging two edges, one after the other.
pub proof fn lemma_merged_two(entries: Seq<Option<Activity>>, first: (BasicBlockId, Activity), second: (BasicBlockId, Activity))
    ensures
        merged_all(entries, seq![first, second]) == merged(
            merged(entries, first.0, first.1),
            second.0,
            second.1,
        ),
{
    assert(seq![first, second].drop_last() =~= seq![first]);
    lemma_merged_one(entries, first.0, first.1);
}

/// Joining keeps the number of entries, keeps every present entry present
/// and claiming more, and adds entries only at targets, each then claiming
/// more than every edge into it.
pub proof fn lemma_merged_all_shape(entries: Seq<Option<Activity>>, edges: Seq<(BasicBlockId, Activity)>)
    ensures
        merged_all(entries, edges).len() == entries.len(),
        forall|i: int|
            0 <= i < entries.len() && (#[trigger] entries[i]) is Some ==> merged_all(entries, edges)[i]
                is Some && weaker(entries[i]->0, merged_all(entries, edges)[i]->0),
        forall|i: int|
            0 <= i < entries.len() && (#[trigger] merged_all(entries, edges)[i]) != entries[i]
                ==> exists|k: int| 0 <= k < edges.len() && (#[trigger] edges[k]).0@ == i,
        forall|k: int|
            0 <= k < edges.len() && (#[trigger] edges[k]).0@ < entries.len() ==> merged_all(
                entries,
                edges,
            )[edges[k].0@ as int] is Some && weaker(
                edges[k].1,
                merged_all(entries, edges)[edges[k].0@ as int]->0,
            ),
    decreases edges.len(),
{
    if edges.len() > 0 {
        let front = edges.drop_last();
        lemma_merged_all_shape(entries, front);
        let before = merged_all(entries, front);
        let last = edges.last();
        let after = merged(before, last.0, last.1);
        assert forall|i: int|
            0 <= i < entries.len() && (#[trigger] after[i]) != entries[i] implies exists|k: int|
            0 <= k < edges.len() && (#[trigger] edges[k]).0@ == i by {
            if before[i] != entries[i] {
                let k = choose|k: int| 0 <= k < front.len() && (#[trigger] front[k]).0@ == i;
                assert(edges[k] == front[k]);
            } else {
                assert(edges[edges.len() - 1].0@ == i);
            }
        }
        assert forall|k: int|
            0 <= k < edges.len() && (#[trigger] edges[k]).0@ < entries.len() implies after[edges[k].0@ as int]
            is Some && weaker(edges[k].1, after[edges[k].0@ as int]->0) by {
            if k < edges.len() - 1 {
                assert(front[k] == edges[k]);
            }
        }
    }
}

/// Joining edges whose states claim no more than `x` at their targets keeps
/// the entries dominated by `x`.
pub proof fn lemma_merged_all_dominated(
    entries: Seq<Option<Activity>>,
    edges: Seq<(BasicBlockId, Activity)>,
    x: Seq<Activity>,
)
    requires
        x.len() == entries.len(),
        dominated(entries, x),
        forall|k: int|
            0 <= k < edges.len() && (#[trigger] edges[k]).0@ < x.len() ==> weaker(
                edges[k].1,
                x[edges[k].0@ as int],
            ),
    ensures
        dominated(merged_all(entries, edges), x),
    decreases edges.len(),
{
    lemma_merged_all_shape(entries, edges);
    if edges.len() > 0 {
        let front = edges.drop_last();
        assert forall|k: int|
            0 <= k < front.len() && (#[trigger] front[k]).0@ < x.len() implies weaker(
            front[k].1,
            x[front[k].0@ as int],
        ) by {
            assert(edges[k] == front[k]);
        }
        lemma_merged_all_dominated(entries, front, x);
        lemma_merged_all_shape(entries, front);
        let last = edges.last();
        assert(edges[edges.len() - 1] == last);
    }
}

/// Block `b`'s results are up to date with its entry state.
pub open spec fn settled(
    body: Body,
    entries: Seq<Option<Activity>>,
    b: int,
    errors: Set<LoanError>,
    active: Map<BasicBlockId, Set<nat>>,
) -> bool {
    entries[b] matches Some(state) ==> {
        let flow = block_flow(body, BasicBlockId::at(b), state);
        &&& flow.errors.subset_of(errors)
        &&& edges_joined(body, entries, b)
        &&& active.contains_key(BasicBlockId::at(b))
        &&& active[BasicBlockId::at(b)] == flow.after_statements.1
    }
}

/// What holds between iterations of the analysis.
pub open spec fn worklist_invariant(
    body: Body,
    entries: Seq<Option<Activity>>,
    queue: Seq<BasicBlockId>,
    errors: Set<LoanError>,
    active: Map<BasicBlockId, Set<nat>>,
) -> bool {
    &&& entries.len() == body.blocks@.len()
    &&& body.entry@ < entries.len()
    &&& entries[body.entry@ as int] matches Some(state) && weaker(initial_activity(), state)
    &&& forall|b: int| 0 <= b < entries.len() && (#[trigger] entries[b]) is Some ==> reachable(body, b)
    &&& forall|x: Seq<Activity>| #[trigger] post_fixpoint(body, x) ==> dominated(entries, x)
    &&& errors.subset_of(solution_errors(body, entries))
    &&& forall|b: int|
        0 <= b < entries.len() && !queue.contains(BasicBlockId::at(b)) ==> #[trigger] settled(
            body,
            entries,
            b,
            errors,
            active,
        )
    &&& forall|q: BasicBlockId|
        #[trigger] queue.contains(q) ==> q@ < entries.len() && entries[q@ as int] is Some
    &&& forall|block: BasicBlockId|
        #[trigger] active.contains_key(block) ==> block@ < entries.len() && entries[block@ as int]
            is Some
}

/// A target of a reachable block is reachable.
proof fn lemma_reachable_step(body: Body, p: int, k: int)
    requires
        0 <= p < body.blocks@.len(),
        reachable(body, p),
        0 <= k < edge_targets(body.blocks@[p].terminator).len(),
    ensures
        reachable(body, edge_targets(body.blocks@[p].terminator)[k]@ as int),
{
    let steps = choose|steps: nat| reachable_within(body, p, steps);
    let target = edge_targets(body.blocks@[p].terminator)[k]@ as int;
    assert(reachable_within(body, target, steps + 1));
}

/// Every block reachable in `steps` edges has an entry.
proof fn lemma_reachable_has_entry(body: Body, entries: Seq<Option<Activity>>, b: int, steps: nat)
    requires
        entries.len() == body.blocks@.len(),
        body.entry@ < entries.len(),
        entries[body.entry@ as int] is Some,
        forall|c: int| 0 <= c < entries.len() ==> #[trigger] edges_joined(body, entries, c),
        0 <= b < entries.len(),
        reachable_within(body, b, steps),
    ensures
        entries[b] is Some,
    decreases steps,
{
    if b != body.entry@ {
        let (p, k) = choose|p: int, k: int|
            0 <= p < body.blocks@.len() && 0 <= k < edge_targets(body.blocks@[p].terminator).len()
                && #[trigger] edge_targets(body.blocks@[p].terminator)[k]@ == b && reachable_within(
                body,
                p,
                (steps - 1) as nat,
            );
        lemma_reachable_has_entry(body, entries, p, (steps - 1) as nat);
        let state = entries[p]->0;
        lemma_flow_targets(body, BasicBlockId::at(p), state);
        assert(edges_joined(body, entries, p));
        assert(block_flow(body, BasicBlockId::at(p), state).edges[k].0@ == b);
    }
}

/// Claiming less is transitive.
proof fn lemma_weaker_trans(first: Activity, second: Activity, third: Activity)
    requires
        weaker(first, second),
        weaker(second, third),
    ensures
        weaker(first, third),
{
}

/// One iteration of the analysis keeps its invariant.
pub proof fn lemma_worklist_step(
    body: Body,
    entries: Seq<Option<Activity>>,
    queue: Seq<BasicBlockId>,
    errors: Set<LoanError>,
    active: Map<BasicBlockId, Set<nat>>,
    new_entries: Seq<Option<Activity>>,
    new_queue: Seq<BasicBlockId>,
    new_errors: Set<LoanError>,
    new_active: Map<BasicBlockId, Set<nat>>,
)
    requires
        body.addressable(),
        worklist_invariant(body, entries, queue, errors, active),
        queue.len() > 0,
        ({
            let b = queue[0];
            let flow = block_flow(body, b, entries[b@ as int]->0);
            &&& new_errors == errors.union(flow.errors)
            &&& new_entries == merged_all(entries, flow.edges)
            &&& queue_follows(queue.drop_first(), new_queue, entries, new_entries)
            &&& new_active == active.insert(b, flow.after_statements.1)
        }),
    ensures
        worklist_invariant(body, new_entries, new_queue, new_errors, new_active),
{
    let b = queue[0];
    assert(queue.contains(b));
    let bi = b@ as int;
    assert(BasicBlockId::at(bi) == b);
    let state = entries[bi]->0;
    let flow = block_flow(body, b, state);
    let rest = queue.drop_first();
    lemma_merged_all_shape(entries, flow.edges);
    lemma_flow_targets(body, b, state);
    lemma_weaker_trans(
        initial_activity(),
        entries[body.entry@ as int]->0,
        new_entries[body.entry@ as int]->0,
    );
    assert forall|i: int| 0 <= i < new_entries.len() && (#[trigger] new_entries[i]) is Some implies reachable(
        body,
        i,
    ) by {
        if entries[i] is None {
            let k = choose|k: int| 0 <= k < flow.edges.len() && (#[trigger] flow.edges[k]).0@ == i;
            lemma_reachable_step(body, bi, k);
        }
    }
    assert(reachable(body, bi));
    assert forall|x: Seq<Activity>| #[trigger] post_fixpoint(body, x) implies dominated(new_entries, x) by {
        assert(dominated(entries, x));
        lemma_block_flow_monotone(body, b, state, x[bi]);
        assert forall|k: int|
            0 <= k < flow.edges.len() && (#[trigger] flow.edges[k]).0@ < x.len() implies weaker(
            flow.edges[k].1,
            x[flow.edges[k].0@ as int],
        ) by {
            let large = block_flow(body, BasicBlockId::at(bi), x[bi]);
            assert(large.edges[k].0 == flow.edges[k].0);
            assert(weaker(large.edges[k].1, x[large.edges[k].0@ as int]));
            lemma_weaker_trans(flow.edges[k].1, large.edges[k].1, x[flow.edges[k].0@ as int]);
        }
        lemma_merged_all_dominated(entries, flow.edges, x);
    }
    assert forall|e: LoanError| #[trigger] new_errors.contains(e) implies solution_errors(body, new_entries).contains(
        e,
    ) by {
        if errors.contains(e) {
            assert(solution_errors(body, entries).contains(e));
            let c = choose|c: int|
                0 <= c < entries.len() && (#[trigger] entries[c] matches Some(s)
                    && block_flow(body, BasicBlockId::at(c), s).errors.contains(e));
            lemma_block_flow_monotone(body, BasicBlockId::at(c), entries[c]->0, new_entries[c]->0);
            assert(new_entries[c] matches Some(s) && block_flow(body, BasicBlockId::at(c), s).errors.contains(
                e,
            ));
        } else {
            lemma_block_flow_monotone(body, b, state, new_entries[bi]->0);
            assert(new_entries[bi] matches Some(s) && block_flow(body, BasicBlockId::at(bi), s).errors.contains(
                e,
            ));
        }
    }
    assert forall|c: int|
        0 <= c < new_entries.len() && !new_queue.contains(BasicBlockId::at(c)) implies #[trigger] settled(
        body,
        new_entries,
        c,
        new_errors,
        new_active,
    ) by {
        let id = BasicBlockId::at(c);
        if new_entries[c] is Some {
            assert(new_entries[c] == entries[c]);
            let current = new_entries[c]->0;
            let current_flow = block_flow(body, id, current);
            if c == bi {
                assert forall|k: int|
                    0 <= k < current_flow.edges.len() && (#[trigger] current_flow.edges[k]).0@
                        < new_entries.len() implies (new_entries[current_flow.edges[k].0@ as int] matches Some(
                    target,
                ) && weaker(current_flow.edges[k].1, target)) by {}
                assert(edges_joined(body, new_entries, c));
            } else {
                assert(!rest.contains(id));
                if queue.contains(id) {
                    let k = choose|k: int| 0 <= k < queue.len() && queue[k] == id;
                    assert(k != 0);
                    assert(rest[k - 1] == id);
                }
                assert(settled(body, entries, c, errors, active));
                assert forall|k: int|
                    0 <= k < current_flow.edges.len() && (#[trigger] current_flow.edges[k]).0@
                        < new_entries.len() implies (new_entries[current_flow.edges[k].0@ as int] matches Some(
                    target,
                ) && weaker(current_flow.edges[k].1, target)) by {
                    let t = current_flow.edges[k].0@ as int;
                    assert(entries[t] is Some);
                    lemma_weaker_trans(current_flow.edges[k].1, entries[t]->0, new_entries[t]->0);
                }
                assert(edges_joined(body, new_entries, c));
            }
        }
    }
    assert forall|q: BasicBlockId| #[trigger] new_queue.contains(q) implies q@ < new_entries.len()
        && new_entries[q@ as int] is Some by {
        if rest.contains(q) {
            let k = choose|k: int| 0 <= k < rest.len() && rest[k] == q;
            assert(queue[k + 1] == q);
            assert(queue.contains(q));
            assert(entries[q@ as int] is Some);
        }
    }
    assert forall|block: BasicBlockId| #[trigger] new_active.contains_key(block) implies block@
        < new_entries.len() && new_entries[block@ as int] is Some by {
        if block != b {
            assert(active.contains_key(block));
        }
    }
}

/// When the queue is empty, the entries are the analysis solution, and the
/// reported errors and recorded states are exactly the solution's.
pub proof fn lemma_worklist_done(
    body: Body,
    entries: Seq<Option<Activity>>,
    errors: Set<LoanError>,
    active: Map<BasicBlockId, Set<nat>>,
)
    requires
        body.addressable(),
        worklist_invariant(body, entries, Seq::empty(), errors, active),
    ensures
        loan_solution(body, entries),
        errors == solution_errors(body, entries),
        active == solution_active(body, entries),
{
    assert forall|b: int| 0 <= b < entries.len() implies #[trigger] settled(body, entries, b, errors, active) by {
        assert(!Seq::<BasicBlockId>::empty().contains(BasicBlockId::at(b)));
    }
    assert forall|b: int| 0 <= b < entries.len() implies #[trigger] edges_joined(body, entries, b) by {
        assert(settled(body, entries, b, errors, active));
    }
    assert forall|b: int| 0 <= b < entries.len() implies (#[trigger] entries[b] is Some <==> reachable(
        body,
        b,
    )) by {
        if reachable(body, b) {
            let steps = choose|steps: nat| reachable_within(body, b, steps);
            lemma_reachable_has_entry(body, entries, b, steps);
        }
    }
    assert forall|e: LoanError| #[trigger] solution_errors(body, entries).contains(e) implies errors.contains(e) by {
        let b = choose|b: int|
            0 <= b < entries.len() && (#[trigger] entries[b] matches Some(s)
                && block_flow(body, BasicBlockId::at(b), s).errors.contains(e));
        assert(settled(body, entries, b, errors, active));
    }
    assert(errors =~= solution_errors(body, entries));
    assert forall|block: BasicBlockId| #[trigger] active.contains_key(block) <==> solution_active(
        body,
        entries,
    ).contains_key(block) by {
        if block@ < entries.len() {
            let b = block@ as int;
            assert(BasicBlockId::at(b) == block);
            assert(settled(body, entries, b, errors, active));
        }
    }
    assert forall|block: BasicBlockId| #[trigger] active.contains_key(block) implies active[block]
        == solution_active(body, entries)[block] by {
        let b = block@ as int;
        assert(BasicBlockId::at(b) == block);
        assert(settled(body, entries, b, errors, active));
    }
    assert(active =~= solution_active(body, entries));
}

/// The entries, with nothing active where there is no entry.
pub open spec fn total(entries: Seq<Option<Activity>>) -> Seq<Activity> {
    Seq::new(
        entries.len(),
        |i: int|
            match entries[i] {
                Some(state) => state,
                None => (Set::empty(), Set::empty()),
            },
    )
}

/// A solution, completed with empty states, is a post-fixpoint.
proof fn lemma_total_post_fixpoint(body: Body, entries: Seq<Option<Activity>>)
    requires
        loan_solution(body, entries),
    ensures
        post_fixpoint(body, total(entries)),
{
    let x = total(entries);
    assert forall|b: int, k: int|
        0 <= b < x.len() && reachable(body, b) && 0 <= k < block_flow(
            body,
            BasicBlockId::at(b),
            x[b],
        ).edges.len() implies (#[trigger] block_flow(body, BasicBlockId::at(b), x[b]).edges[k]).0@
        < x.len() ==> weaker(
        block_flow(body, BasicBlockId::at(b), x[b]).edges[k].1,
        x[block_flow(body, BasicBlockId::at(b), x[b]).edges[k].0@ as int],
    ) by {
        assert(entries[b] is Some);
        assert(edges_joined(body, entries, b));
    }
}

/// The loan solution is unique.
pub proof fn lemma_solution_unique(body: Body, first: Seq<Option<Activity>>, second: Seq<Option<Activity>>)
    requires
        loan_solution(body, first),
        loan_solution(body, second),
    ensures
        first == second,
{
    lemma_total_post_fixpoint(body, first);
    lemma_total_post_fixpoint(body, second);
    let x = total(first);
    let y = total(second);
    assert(dominated(second, x));
    assert(dominated(first, y));
    assert forall|b: int| 0 <= b < first.len() implies first[b] == second[b] by {
        if first[b] is Some {
            assert(reachable(body, b));
            assert(second[b] is Some);
            let (mine, theirs) = (first[b]->0, second[b]->0);
            assert(weaker(theirs, x[b]));
            assert(weaker(mine, y[b]));
            assert(mine.0 =~= theirs.0);
            assert(mine.1 =~= theirs.1);
        } else {
            assert(!reachable(body, b));
        }
    }
    assert(first =~= second);
}

/// The loan solution of `body`: the entry states of its reachable blocks.
pub open spec fn solution(body: Body) -> Seq<Option<Activity>> {
    choose|entries: Seq<Option<Activity>>| loan_solution(body, entries)
}

/// Any solution is the solution.
pub proof fn lemma_is_solution(body: Body, entries: Seq<Option<Activity>>)
    requires
        loan_solution(body, entries),
    ensures
        solution(body) == entries,
{
    lemma_solution_unique(body, solution(body), entries);
}


/// Destroying a place while a loan of an overlapping place may be active is
/// a move while borrowed: the dropping block reports it for that loan.
pub proof fn lemma_drop_of_borrowed_reported(
    body: Body,
    view: Activity,
    place: Place,
    plan: crate::ids::DropPlanId,
    target: BasicBlockId,
    block: BasicBlockId,
    loan: LoanId,
)
    requires
        loan@ < body.loans@.len(),
        view.0.contains(loan@),
        crate::places::places_overlap(body, body.loans@[loan@ as int].source, place),
    ensures
        terminator_flow(body, view, Terminator::Drop { place, plan, target }, block).0.contains(
            LoanError { block: Some(block), loan, kind: LoanErrorKind::MoveWhileBorrowed },
        ),
{
}

/// The error a loan that may be active reports when `place`, overlapping
/// its source, is touched by an action of `kind` in `block`.
pub open spec fn touched_loan_error(block: BasicBlockId, loan: LoanId, kind: LoanErrorKind) -> LoanError {
    LoanError { block: Some(block), loan, kind }
}

/// Loan `loan` may be active in `view` and its source overlaps `place`.
pub open spec fn borrows(body: Body, view: Activity, loan: LoanId, place: Place) -> bool {
    loan@ < body.loans@.len() && view.0.contains(loan@) && crate::places::places_overlap(
        body,
        body.loans@[loan@ as int].source,
        place,
    )
}

/// Assigning to a place while a loan of an overlapping place may be active
/// mutates it while borrowed.
pub proof fn lemma_assignment_to_borrowed_reported(
    body: Body,
    view: Activity,
    destination: Place,
    value: crate::model::Rvalue,
    origin: crate::model::Origin,
    block: BasicBlockId,
    loan: LoanId,
)
    requires
        borrows(body, view, loan, destination),
    ensures
        statement_step(body, view, Statement::Assign { destination, value, origin }, block).0.contains(
            touched_loan_error(block, loan, LoanErrorKind::MutateWhileBorrowed),
        ),
{
}

/// Beginning a loan reports an unknown loan, a loan that may already be
/// active, and a loan that may be active and conflicts with it.
pub proof fn lemma_begin_loan_reported(
    body: Body,
    view: Activity,
    loan: LoanId,
    origin: crate::model::Origin,
    block: BasicBlockId,
    other: int,
)
    ensures
        loan@ >= body.loans@.len() ==> statement_step(body, view, Statement::BeginLoan { loan, origin }, block).0.contains(
            touched_loan_error(block, loan, LoanErrorKind::InvalidIdentity),
        ),
        loan@ < body.loans@.len() && view.0.contains(loan@) ==> statement_step(
            body,
            view,
            Statement::BeginLoan { loan, origin },
            block,
        ).0.contains(touched_loan_error(block, loan, LoanErrorKind::AlreadyActive)),
        conflicts_with(body, view.0, other, loan) ==> statement_step(
            body,
            view,
            Statement::BeginLoan { loan, origin },
            block,
        ).0.contains(touched_loan_error(block, loan, LoanErrorKind::ConflictingBorrow)),
        loan@ < body.loans@.len() ==> statement_step(body, view, Statement::BeginLoan { loan, origin }, block).1.0.contains(
            loan@,
        ) && statement_step(body, view, Statement::BeginLoan { loan, origin }, block).1.1.contains(loan@),
{
}

/// Ending a loan that may not be active reports it; afterwards the loan is
/// not active.
pub proof fn lemma_end_loan_reported(body: Body, view: Activity, loan: LoanId, block: BasicBlockId)
    ensures
        !view.1.contains(loan@) ==> statement_step(body, view, Statement::EndLoan { loan }, block).0.contains(
            touched_loan_error(block, loan, LoanErrorKind::EndOfInactive),
        ),
        !statement_step(body, view, Statement::EndLoan { loan }, block).1.0.contains(loan@),
        !statement_step(body, view, Statement::EndLoan { loan }, block).1.1.contains(loan@),
{
}

/// Leaving the body while a loan may be active reports it.
pub proof fn lemma_live_loan_at_exit_reported(body: Body, view: Activity, source: Operand, block: BasicBlockId, loan: LoanId)
    requires
        loan@ < body.loans@.len(),
        view.0.contains(loan@),
    ensures
        terminator_flow(body, view, Terminator::Return, block).0.contains(
            touched_loan_error(block, loan, LoanErrorKind::LiveAtExit),
        ),
        terminator_flow(body, view, Terminator::ReturnValue { source }, block).0.contains(
            touched_loan_error(block, loan, LoanErrorKind::LiveAtExit),
        ),
        terminator_flow(body, view, Terminator::ReturnOutcome { source }, block).0.contains(
            touched_loan_error(block, loan, LoanErrorKind::LiveAtExit),
        ),
        terminator_flow(body, view, Terminator::ReturnOutcomeSuccess { source }, block).0.contains(
            touched_loan_error(block, loan, LoanErrorKind::LiveAtExit),
        ),
{
}

/// Moving a borrowed place into a switch condition moves it while borrowed.
pub proof fn lemma_move_of_borrowed_condition_reported(
    body: Body,
    view: Activity,
    place: Place,
    then_target: BasicBlockId,
    else_target: BasicBlockId,
    join_target: Option<BasicBlockId>,
    block: BasicBlockId,
    loan: LoanId,
)
    requires
        borrows(body, view, loan, place),
    ensures
        terminator_flow(
            body,
            view,
            Terminator::Switch { condition: Operand::Move(place), then_target, else_target, join_target },
            block,
        ).0.contains(touched_loan_error(block, loan, LoanErrorKind::MoveWhileBorrowed)),
{
}

} // verus!

