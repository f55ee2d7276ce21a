//! Path-sensitive validation of owned MIR cleanup obligations.
//!
//! A type's drop shape is immutable semantic information. This pass tracks
//! only whether one concrete local currently owns a live obligation. Keeping
//! that state in MIR replaces syntax-shaped cleanup heuristics in lowering.

use crate::dataflow::word_count;
use crate::ids::{BasicBlockId, LocalId};
use crate::locals::{LocalStorage, OwnershipKind, ValueRepresentation};
use crate::model::{Body, CallContinuation, Operand, Place, Rvalue, Statement, Terminator};
use crate::drop_obligations_flow::{
    activated, block_flow, consumed, consumed_all, consumed_arguments, initial_obligations,
    analysis_after, analysis_settled, analysis_start, lemma_merged_one, lemma_merged_two,
    lemma_queue_follows_same, lemma_settled_unique, requeued, requeued_all, lemma_queue_follows_trans,
    lemma_possible_errors_settled, lemma_worklist_done, lemma_worklist_step, merged, merged_all, owned_parameters,
    queue_follows, settled, settled_errors, statement_step, statements_step,
    terminator_flow, worklist_invariant, obligation_solution, lemma_flow_errors_at_block, ObligationFlow,
    Obligations,
};
use crate::initialization::rvalue_operand_seq;
use crate::initialization_flow::{reachable, reachable_within};
use crate::model::CallArgument;
use crate::places::{valid_path, PlaceState};
use crate::sorted::{insert_sorted, strictly_sorted, Keyed, SortKey};
use crate::worklist::{lemma_total_update, total_measure, FlowState};
use std::collections::VecDeque;
use vstd::prelude::*;

verus! {

/// The obligation states of one program point: `may_live` holds what is
/// live on some path, `must_live` what is live on every path.
pub struct ObligationState {
    pub may_live: PlaceState,
    pub must_live: PlaceState,
}

impl ObligationState {
    /// Both components are sized for `body`.
    pub open spec fn fits(&self, body: Body) -> bool {
        self.may_live.fits(body) && self.must_live.fits(body)
    }

    /// A copy of the state.
    pub fn duplicate(&self, body: &Body) -> (copy: Self)
        requires
            self.fits(*body),
        ensures
            copy.fits(*body),
            copy.may_live@ == self.may_live@,
            copy.must_live@ == self.must_live@,
    {
        ObligationState {
            may_live: self.may_live.duplicate(body),
            must_live: self.must_live.duplicate(body),
        }
    }
}

impl View for ObligationState {
    type V = Obligations;

    open spec fn view(&self) -> Obligations {
        (self.may_live@, self.must_live@)
    }
}

/// What each entry state claims.
pub open spec fn entry_views(entries: Seq<Option<ObligationState>>) -> Seq<Option<Obligations>> {
    entries.map_values(
        |entry: Option<ObligationState>|
            match entry {
                Some(state) => Some(state@),
                None => None,
            },
    )
}

/// The errors among `errors`.
pub open spec fn error_set(errors: Seq<DropObligationError>) -> Set<DropObligationError> {
    Set::new(|error: DropObligationError| errors.contains(error))
}

impl FlowState for ObligationState {
    /// Merging only grows `may_live` and shrinks `must_live`.
    open spec fn measure(&self) -> nat {
        (self.may_live.capacity_bound() - self.may_live.measure()) as nat + self.must_live.measure()
    }
}

/// Where in a block an obligation error happens.
#[derive(Debug, Clone, Copy, PartialEq, Eq, Structural, Hash)]
pub enum DropObligationLocation {
    Assignment(usize),
    Drop,
    Exit,
}

/// What is wrong with an obligation.
#[derive(Debug, Clone, Copy, PartialEq, Eq, Structural, Hash)]
pub enum DropObligationErrorKind {
    /// A place that may own a live value is overwritten.
    Overwrite,
    /// A drop runs on a path where the value may already be gone.
    DropOfInactive,
    /// A drop of a local that owns nothing.
    DropOfNonOwned,
    /// An owned value may still be live when the body exits.
    LiveAtExit,
}

/// One obligation error.
#[derive(Debug, Clone, Copy, PartialEq, Eq, Structural, Hash)]
pub struct DropObligationError {
    pub block: BasicBlockId,
    pub location: DropObligationLocation,
    pub local: LocalId,
    pub kind: DropObligationErrorKind,
}

/// The position of `location` in the order errors are reported in.
pub open spec fn location_rank(location: DropObligationLocation) -> usize {
    match location {
        DropObligationLocation::Assignment(index) => index,
        DropObligationLocation::Drop => (usize::MAX - 1) as usize,
        DropObligationLocation::Exit => usize::MAX,
    }
}

/// The position of `kind` in the order errors are reported in.
pub open spec fn kind_rank(kind: DropObligationErrorKind) -> usize {
    match kind {
        DropObligationErrorKind::Overwrite => 0,
        DropObligationErrorKind::DropOfInactive => 1,
        DropObligationErrorKind::DropOfNonOwned => 2,
        DropObligationErrorKind::LiveAtExit => 3,
    }
}

/// The position of `location` in the order errors are reported in.
pub fn location_order(location: DropObligationLocation) -> (order: usize)
    ensures
        order == location_rank(location),
{
    match location {
        DropObligationLocation::Assignment(index) => index,
        DropObligationLocation::Drop => usize::MAX - 1,
        DropObligationLocation::Exit => usize::MAX,
    }
}

/// The position of `kind` in the order errors are reported in.
pub fn error_kind_order(kind: DropObligationErrorKind) -> (order: usize)
    ensures
        order == kind_rank(kind),
{
    match kind {
        DropObligationErrorKind::Overwrite => 0,
        DropObligationErrorKind::DropOfInactive => 1,
        DropObligationErrorKind::DropOfNonOwned => 2,
        DropObligationErrorKind::LiveAtExit => 3,
    }
}

/// Distinguishes locations that share a position.
pub open spec fn location_tag(location: DropObligationLocation) -> u64 {
    match location {
        DropObligationLocation::Assignment(_) => 0,
        DropObligationLocation::Drop => 1,
        DropObligationLocation::Exit => 2,
    }
}

impl Keyed for DropObligationError {
    open spec fn key_of(self) -> SortKey {
        (
            self.block@ as u64,
            location_rank(self.location) as u64,
            location_tag(self.location),
            self.local@ as u64,
            kind_rank(self.kind) as u64,
        )
    }

    fn sort_key(&self) -> (key: SortKey) {
        let tag: u64 = match self.location {
            DropObligationLocation::Assignment(_) => 0,
            DropObligationLocation::Drop => 1,
            DropObligationLocation::Exit => 2,
        };
        (
            self.block.0 as u64,
            location_order(self.location) as u64,
            tag,
            self.local.0 as u64,
            error_kind_order(self.kind) as u64,
        )
    }

    proof fn lemma_key_identifies(a: Self, b: Self) {
        assert(a.block == b.block);
        assert(a.local == b.local);
        assert(a.location == b.location);
        assert(a.kind == b.kind);
    }
}

/// Every error names an existing block of `body`.
pub open spec fn errors_in_body(body: Body, errors: Seq<DropObligationError>) -> bool {
    forall|i: int| 0 <= i < errors.len() ==> (#[trigger] errors[i]).block@ < body.blocks@.len()
}

/// The local is a moved aggregate, the only kind of local that owns a drop
/// obligation.
pub open spec fn owns_obligation(body: Body, local: LocalId) -> bool {
    local@ < body.locals@.len() && body.locals@[local@ as int].ownership == OwnershipKind::Move
        && body.locals@[local@ as int].representation == ValueRepresentation::Aggregate
}

/// The place owns a drop obligation of its own.
pub open spec fn place_owns_obligation(body: Body, place: Place) -> bool {
    match place.projection {
        None => owns_obligation(body, place.local),
        Some(p) => p@ < body.projections@.len() && body.projections@[p@ as int].base == place.local
            && body.projections@[p@ as int].ownership == OwnershipKind::Move
            && body.projections@[p@ as int].representation == ValueRepresentation::Aggregate,
    }
}

/// Whether `local` owns a drop obligation.
pub fn owned_local(body: &Body, local: LocalId) -> (owned: bool)
    ensures
        owned == owns_obligation(*body, local),
{
    local.index() < body.locals.len() && body.locals[local.index()].ownership == OwnershipKind::Move
        && body.locals[local.index()].representation == ValueRepresentation::Aggregate
}

/// Whether `place` owns a drop obligation.
pub fn owned_place(body: &Body, place: Place) -> (owned: bool)
    ensures
        owned == place_owns_obligation(*body, place),
{
    match place.projection {
        None => owned_local(body, place.local),
        Some(projection) => {
            projection.index() < body.projections.len() && {
                let path = body.projections[projection.index()];
                path.base == place.local && path.ownership == OwnershipKind::Move
                    && path.representation == ValueRepresentation::Aggregate
            }
        },
    }
}

/// A move out of `operand` releases the obligation of its place.
pub fn consume_operand_move(body: &Body, operand: &Operand, state: &mut ObligationState)
    requires
        old(state).fits(*body),
        body.addressable(),
    ensures
        final(state).fits(*body),
        final(state).may_live@ == match *operand {
            Operand::Move(place) => PlaceState::moved_out(old(state).may_live@, *body, place),
            _ => old(state).may_live@,
        },
        final(state).must_live@ == match *operand {
            Operand::Move(place) => PlaceState::moved_out(old(state).must_live@, *body, place),
            _ => old(state).must_live@,
        },
{
    if let Operand::Move(place) = operand {
        state.may_live.move_out(body, *place);
        state.must_live.move_out(body, *place);
    }
}

/// Every move out of an operand of `value` releases its obligation.
pub fn consume_rvalue_moves(body: &Body, value: &Rvalue, state: &mut ObligationState)
    requires
        old(state).fits(*body),
        body.addressable(),
    ensures
        final(state).fits(*body),
        final(state)@ == consumed_all(*body, old(state)@, rvalue_operand_seq(*value)),
{
    let ghost start = state@;
    match value {
        Rvalue::Use(operand) => {
            consume_operand_move(body, operand, state);
            proof {
                lemma_consumed_one(*body, start, *operand);
            }
        },
        Rvalue::Variant { leaves, .. } => {
            let ghost operands = rvalue_operand_seq(*value);
            let mut index: usize = 0;
            proof {
                assert(operands.take(0) =~= Seq::<Operand>::empty());
            }
            while index < leaves.len()
                invariant
                    index <= leaves@.len(),
                    operands.len() == leaves@.len(),
                    forall|i: int| 0 <= i < leaves@.len() ==> operands[i] == leaves@[i].operand,
                    state.fits(*body),
                    body.addressable(),
                    state@ == consumed_all(*body, start, operands.take(index as int)),
                decreases leaves@.len() - index,
            {
                consume_operand_move(body, &leaves[index].operand, state);
                proof {
                    assert(operands.take(index + 1).drop_last() =~= operands.take(index as int));
                }
                index = index + 1;
            }
            proof {
                assert(operands.take(index as int) =~= operands);
            }
        },
        Rvalue::Unary { operand, .. } | Rvalue::Cast { operand, .. } => {
            consume_operand_move(body, operand, state);
            proof {
                lemma_consumed_one(*body, start, *operand);
            }
        },
        Rvalue::Binary { left, right, .. } | Rvalue::Compare { left, right, .. } => {
            consume_operand_move(body, left, state);
            consume_operand_move(body, right, state);
            proof {
                lemma_consumed_two(*body, start, *left, *right);
            }
        },
        Rvalue::Error { code, message } => {
            consume_operand_move(body, code, state);
            consume_operand_move(body, message, state);
            proof {
                lemma_consumed_two(*body, start, *code, *message);
            }
        },
    }
}

proof fn lemma_consumed_one(body: Body, view: Obligations, operand: Operand)
    ensures
        consumed_all(body, view, seq![operand]) == consumed(body, view, operand),
{
    assert(seq![operand].drop_last() =~= Seq::<Operand>::empty());
    assert(consumed_all(body, view, Seq::<Operand>::empty()) == view);
}

proof fn lemma_consumed_two(body: Body, view: Obligations, first: Operand, second: Operand)
    ensures
        consumed_all(body, view, seq![first, second]) == consumed(
            body,
            consumed(body, view, first),
            second,
        ),
{
    assert(seq![first, second].drop_last() =~= seq![first]);
    lemma_consumed_one(body, view, first);
}

/// Completing an aggregate in an owned place makes its obligation live.
pub fn finish_destination(body: &Body, place: Place, state: &mut ObligationState)
    requires
        old(state).fits(*body),
        body.addressable(),
    ensures
        final(state).fits(*body),
        final(state).may_live@ == if place_owns_obligation(*body, place) {
            PlaceState::initialized(old(state).may_live@, *body, place)
        } else {
            old(state).may_live@
        },
        final(state).must_live@ == if place_owns_obligation(*body, place) {
            PlaceState::initialized(old(state).must_live@, *body, place)
        } else {
            old(state).must_live@
        },
{
    if !owned_place(body, place) {
        return;
    }
    state.may_live.finish_aggregate(body, place);
    state.must_live.finish_aggregate(body, place);
}

/// Writing a value into an owned place makes its obligation live; writing
/// over a place that may still own a live value is an overwrite.
pub fn activate_destination(
    body: &Body,
    place: Place,
    state: &mut ObligationState,
    block: BasicBlockId,
    location: DropObligationLocation,
    errors: &mut Vec<DropObligationError>,
)
    requires
        old(state).fits(*body),
        body.addressable(),
        block@ < body.blocks@.len(),
        strictly_sorted(old(errors)@),
        errors_in_body(*body, old(errors)@),
    ensures
        final(state).fits(*body),
        final(state).may_live@ == if place_owns_obligation(*body, place) {
            PlaceState::initialized(old(state).may_live@, *body, place)
        } else {
            old(state).may_live@
        },
        final(state).must_live@ == if place_owns_obligation(*body, place) {
            PlaceState::initialized(old(state).must_live@, *body, place)
        } else {
            old(state).must_live@
        },
        strictly_sorted(final(errors)@),
        errors_in_body(*body, final(errors)@),
        forall|e: DropObligationError|
            final(errors)@.contains(e) <==> (old(errors)@.contains(e) || (place_owns_obligation(
                *body,
                place,
            ) && PlaceState::any_within_in(old(state).may_live@, *body, place) && e == (
            DropObligationError {
                block,
                location,
                local: place.local,
                kind: DropObligationErrorKind::Overwrite,
            }))),
{
    if !owned_place(body, place) {
        return;
    }
    if state.may_live.any_available_within(body, place) {
        record_error(
            body,
            errors,
            DropObligationError {
                block,
                location,
                local: place.local,
                kind: DropObligationErrorKind::Overwrite,
            },
        );
    }
    state.may_live.initialize(body, place);
    state.must_live.initialize(body, place);
}

/// Adds one error of an existing block and local.
fn record_error(body: &Body, errors: &mut Vec<DropObligationError>, error: DropObligationError)
    requires
        error.block@ < body.blocks@.len(),
        strictly_sorted(old(errors)@),
        errors_in_body(*body, old(errors)@),
    ensures
        strictly_sorted(final(errors)@),
        errors_in_body(*body, final(errors)@),
        forall|e: DropObligationError| final(errors)@.contains(e) <==> (old(errors)@.contains(e) || e == error),
{
    let ghost before = errors@;
    insert_sorted(errors, error);
    proof {
        assert forall|i: int| 0 <= i < errors@.len() implies (#[trigger] errors@[i]).block@
            < body.blocks@.len() by {
            assert(errors@.contains(errors@[i]));
            if before.contains(errors@[i]) {
                let k = choose|k: int| 0 <= k < before.len() && before[k] == errors@[i];
                assert(before[k].block@ < body.blocks@.len());
            }
        }
    }
}

/// The obligation errors at an exit of the body: every owned local other than
/// the return local that may still be live.
pub open spec fn exit_error(
    body: Body,
    may_live: (Set<nat>, Set<nat>),
    block: BasicBlockId,
    e: DropObligationError,
) -> bool {
    &&& e.block == block
    &&& e.location == DropObligationLocation::Exit
    &&& e.kind == DropObligationErrorKind::LiveAtExit
    &&& e.local != body.return_local
    &&& owns_obligation(body, e.local)
    &&& PlaceState::any_within_in(may_live, body, Place { local: e.local, projection: None })
}

/// Reports every owned local that may still be live when `block` exits.
pub fn validate_exit(
    body: &Body,
    block: BasicBlockId,
    state: &ObligationState,
    errors: &mut Vec<DropObligationError>,
)
    requires
        state.fits(*body),
        body.addressable(),
        block@ < body.blocks@.len(),
        strictly_sorted(old(errors)@),
        errors_in_body(*body, old(errors)@),
    ensures
        strictly_sorted(final(errors)@),
        errors_in_body(*body, final(errors)@),
        forall|e: DropObligationError|
            final(errors)@.contains(e) <==> (old(errors)@.contains(e) || exit_error(
                *body,
                state.may_live@,
                block,
                e,
            )),
{
    let count = body.locals.len();
    let mut index: usize = 0;
    while index < count
        invariant
            count == body.locals@.len(),
            index <= count,
            state.fits(*body),
            body.addressable(),
            block@ < body.blocks@.len(),
            strictly_sorted(errors@),
            errors_in_body(*body, errors@),
            forall|e: DropObligationError|
                errors@.contains(e) <==> (old(errors)@.contains(e) || (exit_error(
                    *body,
                    state.may_live@,
                    block,
                    e,
                ) && e.local@ < index)),
        decreases count - index,
    {
        let id = LocalId::from_index(index);
        let local = body.locals[index];
        if id != body.return_local && local.ownership == OwnershipKind::Move && local.representation
            == ValueRepresentation::Aggregate && state.may_live.any_available_within(
            body,
            Place::local(id),
        ) {
            record_error(
                body,
                errors,
                DropObligationError {
                    block,
                    location: DropObligationLocation::Exit,
                    local: id,
                    kind: DropObligationErrorKind::LiveAtExit,
                },
            );
        }
        index = index + 1;
    }
    assert forall|e: DropObligationError|
        errors@.contains(e) <==> (old(errors)@.contains(e) || exit_error(*body, state.may_live@, block, e)) by {
        if exit_error(*body, state.may_live@, block, e) {
            assert(e.local@ < count);
        }
    }
}


/// Every present entry state fits `body`.
pub open spec fn entries_fit(body: Body, entries: Seq<Option<ObligationState>>) -> bool {
    forall|i: int| 0 <= i < entries.len() ==> (#[trigger] entries[i] matches Some(state) ==> state.fits(body))
}

/// The measure of an absent entry: more than any fitting state.
pub open spec fn ceiling(body: Body) -> nat {
    word_count(body.locals@.len()) * 64 + word_count(body.projections@.len()) * 64 + body.locals@.len()
        + body.projections@.len() + 1
}

/// Twice the total entry measure plus the queue length.
pub open spec fn progress(body: Body, entries: Seq<Option<ObligationState>>, queue: Seq<BasicBlockId>) -> nat {
    2 * total_measure(entries, ceiling(body)) + queue.len()
}

proof fn lemma_state_below_ceiling(state: &ObligationState, body: Body)
    requires
        state.fits(body),
    ensures
        state.measure() < ceiling(body),
{
    state.may_live.lemma_capacity(body);
    state.must_live.lemma_capacity(body);
}

/// Merges `incoming` into the entry of `target`: what may be live is united,
/// what must be live is intersected; a changed entry queues `target`.
pub fn merge_entry(
    entries: &mut Vec<Option<ObligationState>>,
    queue: &mut VecDeque<BasicBlockId>,
    target: BasicBlockId,
    incoming: ObligationState,
    body: &Body,
)
    requires
        entries_fit(*body, old(entries)@),
        incoming.fits(*body),
    ensures
        final(entries)@.len() == old(entries)@.len(),
        entries_fit(*body, final(entries)@),
        progress(*body, final(entries)@, final(queue)@) <= progress(*body, old(entries)@, old(queue)@),
        forall|i: int| 0 <= i < old(entries)@.len() && i != target@ ==> final(entries)@[i] == old(entries)@[i],
        target@ < old(entries)@.len() ==> (final(entries)@[target@ as int] matches Some(state) && match old(
            entries,
        )@[target@ as int] {
            None => state.may_live@ == incoming.may_live@ && state.must_live@ == incoming.must_live@,
            Some(existing) => state.may_live@ == (
                existing.may_live@.0.union(incoming.may_live@.0),
                existing.may_live@.1.union(incoming.may_live@.1),
            ) && state.must_live@ == (
                existing.must_live@.0.intersect(incoming.must_live@.0),
                existing.must_live@.1.intersect(incoming.must_live@.1),
            ),
        }),
        entry_views(final(entries)@) == merged(entry_views(old(entries)@), target, incoming@),
        final(queue)@ == requeued(entry_views(old(entries)@), old(queue)@, target, incoming@),
        queue_follows(old(queue)@, final(queue)@, entry_views(old(entries)@), entry_views(final(entries)@)),
{
    let index = target.index();
    if index >= entries.len() {
        return;
    }
    let merged = match &entries[index] {
        None => {
            proof {
                lemma_state_below_ceiling(&incoming, *body);
            }
            incoming
        },
        Some(existing) => {
            let mut merged = existing.duplicate(body);
            let may_changed = merged.may_live.union_with(&incoming.may_live, body);
            let must_changed = merged.must_live.intersect_with(&incoming.must_live, body);
            if !(may_changed || must_changed) {
                return;
            }
            proof {
                existing.may_live.lemma_capacity(*body);
                merged.may_live.lemma_capacity(*body);
                if may_changed {
                    merged.may_live.lemma_union_raises(&existing.may_live, *body, incoming.may_live@);
                }
                if must_changed {
                    merged.must_live.lemma_intersect_lowers(&existing.must_live, *body, incoming.must_live@);
                }
                assert(merged.measure() < existing.measure());
            }
            merged
        },
    };
    proof {
        lemma_total_update(entries@, ceiling(*body), index as int, Some(merged));
    }
    let ghost before = entries@;
    let ghost queued = queue@;
    entries.set(index, Some(merged));
    queue.push_back(target);
    proof {
        assert(entry_views(entries@) =~= crate::drop_obligations_flow::merged(
            entry_views(before),
            target,
            incoming@,
        ));
        assert(BasicBlockId::at(index as int) == target);
        assert(queue@ == queued.push(target));
        assert forall|q: BasicBlockId| #[trigger] queue@.contains(q) implies queued.contains(q) || q
            == target by {
            let k = choose|k: int| 0 <= k < queue@.len() && queue@[k] == q;
            if k < queued.len() {
                assert(queued[k] == q);
            }
        }
        assert forall|q: BasicBlockId| #[trigger] queued.contains(q) implies queue@.contains(q) by {
            let k = choose|k: int| 0 <= k < queued.len() && queued[k] == q;
            assert(queue@[k] == q);
        }
        assert(queue@[queued.len() as int] == target);
    }
}

/// Applies the statements of one block to the obligation state.
fn apply_statements(
    body: &Body,
    block_id: BasicBlockId,
    state: &mut ObligationState,
    errors: &mut Vec<DropObligationError>,
)
    requires
        old(state).fits(*body),
        body.addressable(),
        block_id@ < body.blocks@.len(),
        strictly_sorted(old(errors)@),
        errors_in_body(*body, old(errors)@),
    ensures
        final(state).fits(*body),
        strictly_sorted(final(errors)@),
        errors_in_body(*body, final(errors)@),
        final(state)@ == statements_step(
            *body,
            old(state)@,
            body.blocks@[block_id@ as int].statements@,
            block_id,
        ).1,
        forall|e: DropObligationError|
            #[trigger] final(errors)@.contains(e) <==> (old(errors)@.contains(e) || statements_step(
                *body,
                old(state)@,
                body.blocks@[block_id@ as int].statements@,
                block_id,
            ).0.contains(e)),
{
    let statements = &body.blocks[block_id.index()].statements;
    let ghost start = state@;
    let ghost start_errors = errors@;
    let mut statement_index: usize = 0;
    proof {
        assert(statements@.take(0) =~= Seq::<Statement>::empty());
    }
    while statement_index < statements.len()
        invariant
            statements == &body.blocks@[block_id@ as int].statements,
            statement_index <= statements@.len(),
            state.fits(*body),
            body.addressable(),
            block_id@ < body.blocks@.len(),
            strictly_sorted(errors@),
            errors_in_body(*body, errors@),
            state@ == statements_step(*body, start, statements@.take(statement_index as int), block_id).1,
            forall|e: DropObligationError|
                #[trigger] errors@.contains(e) <==> (start_errors.contains(e) || statements_step(
                    *body,
                    start,
                    statements@.take(statement_index as int),
                    block_id,
                ).0.contains(e)),
        decreases statements@.len() - statement_index,
    {
        let ghost before = state@;
        let ghost before_errors = errors@;
        let ghost step = statement_step(
            *body,
            before,
            statements@[statement_index as int],
            block_id,
            statement_index,
        );
        match &statements[statement_index] {
            Statement::FinishAggregate { destination } => {
                finish_destination(body, *destination, state);
            },
            Statement::Assign { destination, value, .. } => {
                consume_rvalue_moves(body, value, state);
                activate_destination(
                    body,
                    *destination,
                    state,
                    block_id,
                    DropObligationLocation::Assignment(statement_index),
                    errors,
                );
            },
            Statement::BeginAggregate { .. }
            | Statement::EnterRegion { .. }
            | Statement::ExitRegion { .. }
            | Statement::ExitAllocationContext { .. }
            | Statement::BeginLoan { .. }
            | Statement::EndLoan { .. } => {},
        }
        proof {
            assert(state@ == step.1);
            assert(forall|e: DropObligationError|
                #[trigger] errors@.contains(e) <==> (before_errors.contains(e) || step.0.contains(e)));
            assert(statements@.take(statement_index + 1).drop_last() =~= statements@.take(
                statement_index as int,
            ));
        }
        statement_index = statement_index + 1;
    }
    proof {
        assert(statements@.take(statement_index as int) =~= statements@);
    }
}

/// The errors, entries and queue after a terminator did `flow`: its errors
/// were added and its edges joined into their targets.
pub open spec fn flow_applied(
    old_errors: Seq<DropObligationError>,
    new_errors: Seq<DropObligationError>,
    old_entries: Seq<Option<ObligationState>>,
    new_entries: Seq<Option<ObligationState>>,
    old_queue: Seq<BasicBlockId>,
    new_queue: Seq<BasicBlockId>,
    flow: ObligationFlow,
) -> bool {
    &&& forall|e: DropObligationError|
        #[trigger] new_errors.contains(e) <==> (old_errors.contains(e) || flow.errors.contains(e))
    &&& entry_views(new_entries) == merged_all(entry_views(old_entries), flow.edges)
    &&& new_queue == requeued_all(entry_views(old_entries), old_queue, flow.edges)
    &&& queue_follows(old_queue, new_queue, entry_views(old_entries), entry_views(new_entries))
}

/// Applies a call terminator of `block_id` and propagates its states.
fn apply_call(
    body: &Body,
    block_id: BasicBlockId,
    arguments: &Vec<CallArgument>,
    continuation: CallContinuation,
    state: ObligationState,
    entries: &mut Vec<Option<ObligationState>>,
    queue: &mut VecDeque<BasicBlockId>,
    errors: &mut Vec<DropObligationError>,
)
    requires
        state.fits(*body),
        body.addressable(),
        block_id@ < body.blocks@.len(),
        body.blocks@[block_id@ as int].terminator matches Terminator::Call {
            arguments: called_with,
            continuation: continued,
            ..
        } && called_with@ == arguments@ && continued == continuation,
        strictly_sorted(old(errors)@),
        errors_in_body(*body, old(errors)@),
        entries_fit(*body, old(entries)@),
    ensures
        strictly_sorted(final(errors)@),
        errors_in_body(*body, final(errors)@),
        final(entries)@.len() == old(entries)@.len(),
        entries_fit(*body, final(entries)@),
        progress(*body, final(entries)@, final(queue)@) <= progress(*body, old(entries)@, old(queue)@),
        flow_applied(
            old(errors)@,
            final(errors)@,
            old(entries)@,
            final(entries)@,
            old(queue)@,
            final(queue)@,
            terminator_flow(*body, state@, body.blocks@[block_id@ as int].terminator, block_id),
        ),
{
    let ghost start = state@;
    let ghost start_errors = errors@;
    let ghost entries0 = entry_views(entries@);
    let ghost queue0 = queue@;
    let mut state = state;
    let mut index: usize = 0;
    proof {
        assert(arguments@.take(0) =~= Seq::<CallArgument>::empty());
    }
    while index < arguments.len()
        invariant
            index <= arguments@.len(),
            state.fits(*body),
            body.addressable(),
            state@ == consumed_arguments(*body, start, arguments@.take(index as int)),
        decreases arguments@.len() - index,
    {
        consume_operand_move(body, &arguments[index].operand, &mut state);
        proof {
            assert(arguments@.take(index + 1).drop_last() =~= arguments@.take(index as int));
        }
        index = index + 1;
    }
    proof {
        assert(arguments@.take(index as int) =~= arguments@);
    }
    let ghost after = state@;
    match continuation {
        CallContinuation::Continue { target } => {
            merge_entry(entries, queue, target, state, body);
            proof {
                lemma_merged_one(entries0, target, after);
            }
        },
        CallContinuation::Return { destination, target } => {
            activate_destination(
                body,
                destination,
                &mut state,
                block_id,
                DropObligationLocation::Exit,
                errors,
            );
            let ghost written = state@;
            merge_entry(entries, queue, target, state, body);
            proof {
                lemma_merged_one(entries0, target, written);
            }
        },
        CallContinuation::Outcome { destination, success, failure, .. } => {
            let failure_state = state.duplicate(body);
            activate_destination(
                body,
                destination,
                &mut state,
                block_id,
                DropObligationLocation::Exit,
                errors,
            );
            let ghost written = state@;
            merge_entry(entries, queue, success, state, body);
            let ghost entries1 = entry_views(entries@);
            let ghost queue1 = queue@;
            merge_entry(entries, queue, failure, failure_state, body);
            proof {
                lemma_merged_two(entries0, (success, written), (failure, after));
                lemma_queue_follows_trans(queue0, queue1, queue@, entries0, entries1, entry_views(entries@));
            }
        },
        CallContinuation::OutcomeEffect { success, failure, .. } => {
            let failure_state = state.duplicate(body);
            merge_entry(entries, queue, success, state, body);
            let ghost entries1 = entry_views(entries@);
            let ghost queue1 = queue@;
            merge_entry(entries, queue, failure, failure_state, body);
            proof {
                lemma_merged_two(entries0, (success, after), (failure, after));
                lemma_queue_follows_trans(queue0, queue1, queue@, entries0, entries1, entry_views(entries@));
            }
        },
        CallContinuation::Never => {
            validate_exit(body, block_id, &state, errors);
            proof {
                lemma_queue_follows_same(queue0, entries0);
            }
        },
    }
}

/// Applies the terminator of `block_id` and propagates its states, or checks
/// the obligations left at an exit.
fn apply_terminator(
    body: &Body,
    block_id: BasicBlockId,
    state: ObligationState,
    entries: &mut Vec<Option<ObligationState>>,
    queue: &mut VecDeque<BasicBlockId>,
    errors: &mut Vec<DropObligationError>,
)
    requires
        state.fits(*body),
        body.addressable(),
        block_id@ < body.blocks@.len(),
        strictly_sorted(old(errors)@),
        errors_in_body(*body, old(errors)@),
        entries_fit(*body, old(entries)@),
    ensures
        strictly_sorted(final(errors)@),
        errors_in_body(*body, final(errors)@),
        final(entries)@.len() == old(entries)@.len(),
        entries_fit(*body, final(entries)@),
        progress(*body, final(entries)@, final(queue)@) <= progress(*body, old(entries)@, old(queue)@),
        flow_applied(
            old(errors)@,
            final(errors)@,
            old(entries)@,
            final(entries)@,
            old(queue)@,
            final(queue)@,
            terminator_flow(*body, state@, body.blocks@[block_id@ as int].terminator, block_id),
        ),
{
    let ghost start = state@;
    let ghost entries0 = entry_views(entries@);
    let ghost queue0 = queue@;
    let mut state = state;
    match &body.blocks[block_id.index()].terminator {
        Terminator::Goto { target } => {
            merge_entry(entries, queue, *target, state, body);
            proof {
                lemma_merged_one(entries0, *target, start);
            }
        },
        Terminator::Switch { condition, then_target, else_target, .. } => {
            consume_operand_move(body, condition, &mut state);
            let ghost after = state@;
            let then_state = state.duplicate(body);
            merge_entry(entries, queue, *then_target, then_state, body);
            let ghost entries1 = entry_views(entries@);
            let ghost queue1 = queue@;
            merge_entry(entries, queue, *else_target, state, body);
            proof {
                lemma_merged_two(entries0, (*then_target, after), (*else_target, after));
                lemma_queue_follows_trans(queue0, queue1, queue@, entries0, entries1, entry_views(entries@));
            }
        },
        Terminator::Call { arguments, continuation, .. } => {
            apply_call(body, block_id, arguments, *continuation, state, entries, queue, errors);
        },
        Terminator::InspectOutcome { destination, success, failure, .. } => {
            let failure_state = state.duplicate(body);
            activate_destination(
                body,
                *destination,
                &mut state,
                block_id,
                DropObligationLocation::Exit,
                errors,
            );
            let ghost written = state@;
            merge_entry(entries, queue, *success, state, body);
            let ghost entries1 = entry_views(entries@);
            let ghost queue1 = queue@;
            merge_entry(entries, queue, *failure, failure_state, body);
            proof {
                lemma_merged_two(entries0, (*success, written), (*failure, start));
                lemma_queue_follows_trans(queue0, queue1, queue@, entries0, entries1, entry_views(entries@));
            }
        },
        Terminator::Drop { place, target, .. } => {
            if !owned_local(body, place.local) {
                record_error(
                    body,
                    errors,
                    DropObligationError {
                        block: block_id,
                        location: DropObligationLocation::Drop,
                        local: place.local,
                        kind: DropObligationErrorKind::DropOfNonOwned,
                    },
                );
            } else if !state.must_live.is_available(body, *place) {
                record_error(
                    body,
                    errors,
                    DropObligationError {
                        block: block_id,
                        location: DropObligationLocation::Drop,
                        local: place.local,
                        kind: DropObligationErrorKind::DropOfInactive,
                    },
                );
            } else {
                state.may_live.move_out(body, *place);
                state.must_live.move_out(body, *place);
            }
            let ghost after = state@;
            merge_entry(entries, queue, *target, state, body);
            proof {
                lemma_merged_one(entries0, *target, after);
            }
        },
        Terminator::ReturnValue { source }
        | Terminator::ReturnOutcome { source }
        | Terminator::ReturnOutcomeSuccess { source } => {
            consume_operand_move(body, source, &mut state);
            validate_exit(body, block_id, &state, errors);
            proof {
                lemma_queue_follows_same(queue0, entries0);
            }
        },
        Terminator::ReturnFailure { code, message } => {
            consume_operand_move(body, code, &mut state);
            consume_operand_move(body, message, &mut state);
            validate_exit(body, block_id, &state, errors);
            proof {
                lemma_queue_follows_same(queue0, entries0);
            }
        },
        Terminator::Return
        | Terminator::ReturnOptionalNone
        | Terminator::Trap
        | Terminator::PropagateFailure => {
            validate_exit(body, block_id, &state, errors);
            proof {
                lemma_queue_follows_same(queue0, entries0);
            }
        },
    }
}

/// The drop-obligation errors of `body`, each reported once, ordered by
/// block, location, local and kind. Owned aggregate parameters start live;
/// at each join what may be live is united and what must be live is
/// intersected. The analysis settles on entry states that solve these
/// equations, and the errors reported are exactly those of the reachable
/// blocks entered with their settled states.
pub fn validate(body: &Body) -> (errors: Vec<DropObligationError>)
    requires
        body.addressable(),
    ensures
        strictly_sorted(errors@),
        errors_in_body(*body, errors@),
        body.entry@ < body.blocks@.len() ==> {
            &&& obligation_solution(*body, analysis_settled(*body).0)
            &&& error_set(errors@) == settled_errors(*body, analysis_settled(*body).0)
            &&& error_set(errors@) == analysis_settled(*body).2
        },
        body.entry@ >= body.blocks@.len() ==> errors@.len() == 0,
        forall|i: int| 0 <= i < errors@.len() ==> reachable(*body, (#[trigger] errors@[i]).block@ as int),
{
    let block_count = body.blocks.len();
    if body.entry.index() >= block_count {
        return Vec::new();
    }
    let mut initial = PlaceState::new(body);
    let mut local_index: usize = 0;
    while local_index < body.locals.len()
        invariant
            local_index <= body.locals@.len(),
            initial.fits(*body),
            body.addressable(),
            initial@ == owned_parameters(*body, local_index as nat),
        decreases body.locals@.len() - local_index,
    {
        let local = body.locals[local_index];
        if let LocalStorage::Parameter { .. } = local.storage {
            if local.ownership == OwnershipKind::Move && local.representation
                == ValueRepresentation::Aggregate {
                initial.initialize(body, Place::local(LocalId::from_index(local_index)));
            }
        }
        local_index = local_index + 1;
    }
    let mut entries: Vec<Option<ObligationState>> = Vec::new();
    while entries.len() < block_count
        invariant
            entries@.len() <= block_count,
            entries_fit(*body, entries@),
            forall|i: int| 0 <= i < entries@.len() ==> (#[trigger] entries@[i]) is None,
        decreases block_count - entries@.len(),
    {
        entries.push(None);
    }
    let must_live = initial.duplicate(body);
    let initial_state = ObligationState { may_live: initial, must_live };
    let ghost initial_view = initial_state@;
    entries.set(body.entry.index(), Some(initial_state));
    let mut queue: VecDeque<BasicBlockId> = VecDeque::new();
    queue.push_back(body.entry);
    let mut errors: Vec<DropObligationError> = Vec::new();
    proof {
        let views = entry_views(entries@);
        let entry = body.entry@ as int;
        assert(views[entry] == Some(initial_view));
        assert(initial_view == initial_obligations(*body));
        assert(reachable_within(*body, entry, 0));
        assert(forall|b: int| 0 <= b < views.len() && b != entry ==> views[b] is None);
        assert(queue@ == seq![body.entry]);
        assert(BasicBlockId::at(entry) == body.entry);
        assert(error_set(errors@) =~= Set::<DropObligationError>::empty());
        assert forall|b: int| 0 <= b < views.len() && (#[trigger] views[b]) is Some implies reachable(
            *body,
            b,
        ) by {
            assert(b == entry);
        }
        assert forall|b: int|
            0 <= b < views.len() && !queue@.contains(BasicBlockId::at(b)) implies #[trigger] settled(
            *body,
            views,
            b,
            error_set(errors@),
        ) by {
            if b == entry {
                assert(queue@[0] == BasicBlockId::at(b));
            }
        }
        assert forall|q: BasicBlockId| #[trigger] queue@.contains(q) implies q@ < views.len()
            && views[q@ as int] is Some by {
            assert(q == body.entry);
        }
    }
    let ghost mut steps: nat = 0;
    proof {
        assert(entry_views(entries@) =~= analysis_start(*body).0);
        assert(error_set(errors@) =~= Set::<DropObligationError>::empty());
    }
    loop
        invariant
            body.addressable(),
            block_count == body.blocks@.len(),
            body.entry@ < block_count,
            entries@.len() == block_count,
            entries_fit(*body, entries@),
            strictly_sorted(errors@),
            errors_in_body(*body, errors@),
            worklist_invariant(*body, entry_views(entries@), queue@, error_set(errors@)),
            analysis_after(*body, steps) == (entry_views(entries@), queue@, error_set(errors@)),
        ensures
            worklist_invariant(*body, entry_views(entries@), Seq::empty(), error_set(errors@)),
            strictly_sorted(errors@),
            errors_in_body(*body, errors@),
            analysis_after(*body, steps) == (entry_views(entries@), Seq::<BasicBlockId>::empty(), error_set(errors@)),
        decreases progress(*body, entries@, queue@),
    {
        let ghost queued = queue@;
        let ghost views = entry_views(entries@);
        let ghost errors_before = errors@;
        let next = queue.pop_front();
        let block_id = match next {
            None => {
                proof {
                    assert(queued =~= Seq::<BasicBlockId>::empty());
                }
                break;
            },
            Some(block_id) => block_id,
        };
        proof {
            assert(queued[0] == block_id);
            assert(queued.contains(block_id));
            assert(queue@ == queued.drop_first());
            steps = steps + 1;
        }
        if block_id.index() >= block_count {
            continue;
        }
        let mut state = match &entries[block_id.index()] {
            None => {
                continue;
            },
            Some(state) => state.duplicate(body),
        };
        let ghost entry_state = state@;
        apply_statements(body, block_id, &mut state, &mut errors);
        apply_terminator(body, block_id, state, &mut entries, &mut queue, &mut errors);
        proof {
            let flow = block_flow(*body, block_id, entry_state);
            assert(views[block_id@ as int] == Some(entry_state));
            assert(error_set(errors@) =~= error_set(errors_before).union(flow.errors));
            lemma_worklist_step(
                *body,
                views,
                queued,
                error_set(errors_before),
                entry_views(entries@),
                queue@,
                error_set(errors@),
            );
        }
    }
    proof {
        lemma_worklist_done(*body, entry_views(entries@), error_set(errors@));
        lemma_possible_errors_settled(*body, entry_views(entries@));
        assert(error_set(errors@) =~= settled_errors(*body, entry_views(entries@)));
        lemma_settled_unique(*body, steps);
        let settled = analysis_settled(*body).0;
        assert forall|i: int| 0 <= i < errors@.len() implies reachable(*body, (#[trigger] errors@[i]).block@ as int) by {
            let error = errors@[i];
            assert(error_set(errors@).contains(error));
            assert(settled_errors(*body, settled).contains(error));
            let b = choose|b: int|
                0 <= b < settled.len() && (#[trigger] settled[b] matches Some(state)
                    && block_flow(*body, BasicBlockId::at(b), state).errors.contains(error));
            lemma_flow_errors_at_block(*body, BasicBlockId::at(b), settled[b]->0, error);
            assert(settled[b] is Some);
        }
    }
    errors
}

} // verus!
