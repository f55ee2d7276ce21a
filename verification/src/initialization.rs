//! Path-sensitive definite-initialization validation for MIR locals.

use crate::ids::{BasicBlockId, LocalId};
use crate::locals::LocalStorage;
use crate::model::{Body, CallContinuation, Operand, Place, Rvalue, Statement, Terminator};
use crate::initialization_flow::{
    block_flow, initial_available, lemma_is_solution, lemma_worklist_done, lemma_worklist_step,
    parameters_available, reachable, reachable_within, settled, solution, solution_edges, solution_errors,
    solution_exits, worklist_invariant, lemma_merged_one, lemma_merged_two, lemma_queue_follows_same,
    lemma_queue_follows_trans, lemma_recorded_one, lemma_recorded_two, merged, merged_all,
    queue_follows, read_arguments, read_operands, recorded_edges, statement_step, statements_step,
    terminator_flow, Available, BlockFlow,
};
use crate::model::CallArgument;
use crate::places::PlaceState;
use crate::sorted::{insert_sorted, strictly_sorted, Keyed, SortKey};
use crate::worklist::{entry_measure, lemma_total_update, total_measure, FlowState};
use std::collections::VecDeque;
use vstd::prelude::*;

verus! {

/// Where in a block an uninitialized read happens.
#[derive(Debug, Clone, Copy, PartialEq, Eq, Structural, Hash)]
pub enum InitializationLocation {
    Statement(usize),
    Switch,
    CallArgument(usize),
    Inspection,
    Drop,
    Return,
}

/// A read of `local` at `location` of `block` on a path where it may be
/// uninitialized.
#[derive(Debug, Clone, Copy, PartialEq, Eq, Structural, Hash)]
pub struct InitializationError {
    pub block: BasicBlockId,
    pub location: InitializationLocation,
    pub local: LocalId,
}

/// Rank and index of a location: statements first, in order, then call
/// arguments in order, then the switch condition, the inspected outcome, a
/// dropped place, and the return.
pub open spec fn location_rank(location: InitializationLocation) -> (usize, usize) {
    match location {
        InitializationLocation::Statement(index) => (0, index),
        InitializationLocation::CallArgument(index) => (1, index),
        InitializationLocation::Switch => (2, 0),
        InitializationLocation::Inspection => (3, 0),
        InitializationLocation::Drop => (4, 0),
        InitializationLocation::Return => (5, 0),
    }
}

/// The position of `location` in the order errors are reported in.
pub fn location_order(location: InitializationLocation) -> (order: (usize, usize))
    ensures
        order == location_rank(location),
{
    match location {
        InitializationLocation::Statement(index) => (0, index),
        InitializationLocation::CallArgument(index) => (1, index),
        InitializationLocation::Switch => (2, 0),
        InitializationLocation::Inspection => (3, 0),
        InitializationLocation::Drop => (4, 0),
        InitializationLocation::Return => (5, 0),
    }
}

impl Keyed for InitializationError {
    open spec fn key_of(self) -> SortKey {
        (
            self.block@ as u64,
            location_rank(self.location).0 as u64,
            location_rank(self.location).1 as u64,
            self.local@ as u64,
            0,
        )
    }

    fn sort_key(&self) -> (key: SortKey) {
        let (rank, index) = location_order(self.location);
        (self.block.0 as u64, rank as u64, index as u64, self.local.0 as u64, 0)
    }

    proof fn lemma_key_identifies(a: Self, b: Self) {
        assert(a.block == b.block);
        assert(a.local == b.local);
        assert(a.location == b.location);
    }
}

/// The place an operand reads, if any.
pub open spec fn operand_place(operand: Operand) -> Option<Place> {
    match operand {
        Operand::Copy(place) => Some(place),
        Operand::Move(place) => Some(place),
        _ => None,
    }
}

/// The error reading `operand` reports in a state with view `view`.
pub open spec fn operand_error(
    body: Body,
    view: (Set<nat>, Set<nat>),
    operand: Operand,
    block: BasicBlockId,
    location: InitializationLocation,
) -> Option<InitializationError> {
    match operand_place(operand) {
        None => None,
        Some(place) => if place.local@ < body.locals@.len() && !PlaceState::available_in(
            view,
            body,
            place,
        ) {
            Some(InitializationError { block, location, local: place.local })
        } else {
            None
        },
    }
}

/// The state after reading `operand`: a move makes its place unavailable.
pub open spec fn after_operand(body: Body, view: (Set<nat>, Set<nat>), operand: Operand) -> (Set<nat>, Set<nat>) {
    match operand {
        Operand::Move(place) => if place.local@ < body.locals@.len() {
            PlaceState::moved_out(view, body, place)
        } else {
            view
        },
        _ => view,
    }
}

/// Every error names an existing block and local of `body`.
pub open spec fn errors_in_body(body: Body, errors: Seq<InitializationError>) -> bool {
    forall|i: int|
        0 <= i < errors.len() ==> (#[trigger] errors[i]).block@ < body.blocks@.len()
            && errors[i].local@ < body.locals@.len()
}

/// Reports a read of `operand` that may see an uninitialized place, then
/// applies a move.
pub fn validate_and_apply_operand(
    operand: &Operand,
    initialized: &mut PlaceState,
    block: BasicBlockId,
    location: InitializationLocation,
    body: &Body,
    errors: &mut Vec<InitializationError>,
)
    requires
        old(initialized).fits(*body),
        body.addressable(),
        block@ < body.blocks@.len(),
        strictly_sorted(old(errors)@),
        errors_in_body(*body, old(errors)@),
    ensures
        final(initialized).fits(*body),
        final(initialized)@ == after_operand(*body, old(initialized)@, *operand),
        strictly_sorted(final(errors)@),
        errors_in_body(*body, final(errors)@),
        forall|e: InitializationError|
            final(errors)@.contains(e) <==> (old(errors)@.contains(e) || Some(e) == operand_error(
                *body,
                old(initialized)@,
                *operand,
                block,
                location,
            )),
{
    let place = match operand {
        Operand::Copy(place) => *place,
        Operand::Move(place) => *place,
        _ => {
            return;
        },
    };
    if place.local.index() >= body.locals.len() {
        return;
    }
    if !initialized.is_available(body, place) {
        let error = InitializationError { block, location, local: place.local };
        let ghost before = errors@;
        insert_sorted(errors, error);
        proof {
            assert forall|i: int| 0 <= i < errors@.len() implies (#[trigger] errors@[i]).block@
                < body.blocks@.len() && errors@[i].local@ < body.locals@.len() by {
                assert(errors@.contains(errors@[i]));
                if before.contains(errors@[i]) {
                    let k = choose|k: int| 0 <= k < before.len() && before[k] == errors@[i];
                    assert(before[k].block@ < body.blocks@.len());
                }
            }
        }
    }
    if let Operand::Move(_) = operand {
        initialized.move_out(body, place);
    }
}


/// The operands an rvalue reads, in evaluation order.
pub open spec fn rvalue_operand_seq(value: Rvalue) -> Seq<Operand> {
    match value {
        Rvalue::Use(operand) => seq![operand],
        Rvalue::Unary { operand, .. } => seq![operand],
        Rvalue::Cast { operand, .. } => seq![operand],
        Rvalue::Binary { left, right, .. } => seq![left, right],
        Rvalue::Compare { left, right, .. } => seq![left, right],
        Rvalue::Variant { leaves, .. } => Seq::new(leaves@.len(), |i: int| leaves@[i].operand),
        Rvalue::Error { code, message } => seq![code, message],
    }
}

/// The operands `value` reads, in evaluation order.
pub fn rvalue_operands(value: &Rvalue) -> (operands: Vec<&Operand>)
    ensures
        operands@.len() == rvalue_operand_seq(*value).len(),
        forall|i: int| 0 <= i < operands@.len() ==> *operands@[i] == rvalue_operand_seq(*value)[i],
{
    let mut operands: Vec<&Operand> = Vec::new();
    match value {
        Rvalue::Use(operand) => operands.push(operand),
        Rvalue::Unary { operand, .. } => operands.push(operand),
        Rvalue::Cast { operand, .. } => operands.push(operand),
        Rvalue::Binary { left, right, .. } => {
            operands.push(left);
            operands.push(right);
        },
        Rvalue::Compare { left, right, .. } => {
            operands.push(left);
            operands.push(right);
        },
        Rvalue::Variant { leaves, .. } => {
            let mut index: usize = 0;
            while index < leaves.len()
                invariant
                    index <= leaves@.len(),
                    operands@.len() == index,
                    forall|i: int| 0 <= i < index ==> *operands@[i] == leaves@[i].operand,
                decreases leaves@.len() - index,
            {
                operands.push(&leaves[index].operand);
                index = index + 1;
            }
        },
        Rvalue::Error { code, message } => {
            operands.push(code);
            operands.push(message);
        },
    }
    operands
}

/// A state recorded for the edge from `from` to `to`.
pub struct EdgeState {
    pub from: BasicBlockId,
    pub to: BasicBlockId,
    pub state: PlaceState,
}

/// A state recorded at the exit of `block`.
pub struct ExitState {
    pub block: BasicBlockId,
    pub state: PlaceState,
}

/// The latest state recorded for each edge.
pub open spec fn edge_map(records: Seq<EdgeState>) -> Map<(BasicBlockId, BasicBlockId), (Set<nat>, Set<nat>)>
    decreases records.len(),
{
    if records.len() == 0 {
        Map::empty()
    } else {
        let last = records.last();
        edge_map(records.drop_last()).insert((last.from, last.to), last.state@)
    }
}

/// The latest state recorded for each exiting block.
pub open spec fn exit_map(records: Seq<ExitState>) -> Map<BasicBlockId, (Set<nat>, Set<nat>)>
    decreases records.len(),
{
    if records.len() == 0 {
        Map::empty()
    } else {
        let last = records.last();
        exit_map(records.drop_last()).insert(last.block, last.state@)
    }
}

/// Every recorded edge state fits `body`.
pub open spec fn edges_fit(body: Body, records: Seq<EdgeState>) -> bool {
    forall|i: int| 0 <= i < records.len() ==> (#[trigger] records[i]).state.fits(body)
}

/// Every recorded exit state fits `body`.
pub open spec fn exits_fit(body: Body, records: Seq<ExitState>) -> bool {
    forall|i: int| 0 <= i < records.len() ==> (#[trigger] records[i]).state.fits(body)
}

/// What each entry state has available.
pub open spec fn entry_views(entries: Seq<Option<PlaceState>>) -> Seq<Option<Available>> {
    entries.map_values(
        |entry: Option<PlaceState>|
            match entry {
                Some(state) => Some(state@),
                None => None,
            },
    )
}

/// The errors, entries, queue and records after a terminator of `block`
/// did `flow`: its errors were added, its edges merged into their targets and
/// recorded, and its exit state recorded.
pub open spec fn flow_applied(
    old_errors: Seq<InitializationError>,
    new_errors: Seq<InitializationError>,
    old_entries: Seq<Option<PlaceState>>,
    new_entries: Seq<Option<PlaceState>>,
    old_queue: Seq<BasicBlockId>,
    new_queue: Seq<BasicBlockId>,
    old_edges: Seq<EdgeState>,
    new_edges: Seq<EdgeState>,
    old_exits: Seq<ExitState>,
    new_exits: Seq<ExitState>,
    block: BasicBlockId,
    flow: BlockFlow,
) -> bool {
    &&& forall|e: InitializationError|
        #[trigger] new_errors.contains(e) <==> (old_errors.contains(e) || flow.errors.contains(e))
    &&& entry_views(new_entries) == merged_all(entry_views(old_entries), flow.edges)
    &&& queue_follows(old_queue, new_queue, entry_views(old_entries), entry_views(new_entries))
    &&& edge_map(new_edges) == recorded_edges(edge_map(old_edges), block, flow.edges)
    &&& exit_map(new_exits) == match flow.exit {
        Some(state) => exit_map(old_exits).insert(block, state),
        None => exit_map(old_exits),
    }
}

/// Every present entry state fits `body`.
pub open spec fn entries_fit(body: Body, entries: Seq<Option<PlaceState>>) -> bool {
    forall|i: int| 0 <= i < entries.len() ==> (#[trigger] entries[i] matches Some(state) ==> state.fits(body))
}

/// The measure of an absent entry: more than any fitting state.
pub open spec fn ceiling(body: Body) -> nat {
    body.locals@.len() + body.projections@.len() + 1
}

/// The result of definite-initialization analysis of one body.
pub struct InitializationAnalysis {
    errors: Vec<InitializationError>,
    entries: Vec<Option<PlaceState>>,
    edge_states: Vec<EdgeState>,
    exit_states: Vec<ExitState>,
}

impl InitializationAnalysis {
    /// Every recorded state fits `body`.
    pub closed spec fn states_fit(&self, body: Body) -> bool {
        &&& entries_fit(body, self.entries@)
        &&& edges_fit(body, self.edge_states@)
        &&& exits_fit(body, self.exit_states@)
    }

    /// The analysis describes `body`.
    pub open spec fn wf(&self, body: Body) -> bool {
        &&& strictly_sorted(self.errors_seq())
        &&& errors_in_body(body, self.errors_seq())
        &&& self.states_fit(body)
    }

    /// The recorded states depend only on the locals and paths of a body.
    pub proof fn lemma_states_fit_same_tables(&self, a: Body, b: Body)
        requires
            self.states_fit(a),
            a.locals@.len() == b.locals@.len(),
            a.projections@.len() == b.projections@.len(),
        ensures
            self.states_fit(b),
    {
        assert(entries_fit(b, self.entries@));
        assert(edges_fit(b, self.edge_states@));
        assert(exits_fit(b, self.exit_states@));
    }

    /// The reported errors, ordered by block, location and local.
    pub closed spec fn errors_seq(&self) -> Seq<InitializationError> {
        self.errors@
    }

    /// The state on each edge that control took during the analysis.
    pub closed spec fn edges(&self) -> Map<(BasicBlockId, BasicBlockId), (Set<nat>, Set<nat>)> {
        edge_map(self.edge_states@)
    }

    /// The state at the exit of each block that leaves the body.
    pub closed spec fn exits(&self) -> Map<BasicBlockId, (Set<nat>, Set<nat>)> {
        exit_map(self.exit_states@)
    }

    /// What is available on entry to each block the analysis reached.
    pub closed spec fn entry_states(&self) -> Seq<Option<Available>> {
        entry_views(self.entries@)
    }

    /// The state at the entry of each reached block.
    pub open spec fn entry(&self, block: BasicBlockId) -> Option<(Set<nat>, Set<nat>)> {
        if block@ < self.entry_states().len() {
            self.entry_states()[block@ as int]
        } else {
            None
        }
    }

    /// Whether `place` is definitely initialized on the edge from `from` to `to`.
    pub fn initialized_on_edge(&self, body: &Body, from: BasicBlockId, to: BasicBlockId, place: Place) -> (initialized: bool)
        requires
            self.wf(*body),
        ensures
            initialized == (self.edges().contains_key((from, to)) && PlaceState::available_in(
                self.edges()[(from, to)],
                *body,
                place,
            )),
    {
        let mut index = self.edge_states.len();
        assert(self.edge_states@.subrange(0, index as int) =~= self.edge_states@);
        while index > 0
            invariant
                index <= self.edge_states@.len(),
                self.wf(*body),
                edge_map(self.edge_states@.subrange(0, index as int)).contains_key((from, to)) == self.edges().contains_key((from, to)),
                edge_map(self.edge_states@.subrange(0, index as int)).contains_key((from, to)) ==> edge_map(self.edge_states@.subrange(0, index as int))[(from, to)] == self.edges()[(from, to)],
            decreases index,
        {
            let ghost prefix = self.edge_states@.subrange(0, index as int);
            assert(prefix.drop_last() =~= self.edge_states@.subrange(0, index - 1));
            let record = &self.edge_states[index - 1];
            if record.from == from && record.to == to {
                assert(edges_fit(*body, self.edge_states@));
                assert(self.edge_states@[index - 1].state.fits(*body));
                return record.state.is_available(body, place);
            }
            index = index - 1;
        }
        false
    }

    /// Whether `place` is definitely initialized when `block` leaves the body.
    pub fn initialized_at_exit(&self, body: &Body, block: BasicBlockId, place: Place) -> (initialized: bool)
        requires
            self.wf(*body),
        ensures
            initialized == (self.exits().contains_key(block) && PlaceState::available_in(
                self.exits()[block],
                *body,
                place,
            )),
    {
        let mut index = self.exit_states.len();
        assert(self.exit_states@.subrange(0, index as int) =~= self.exit_states@);
        while index > 0
            invariant
                index <= self.exit_states@.len(),
                self.wf(*body),
                exit_map(self.exit_states@.subrange(0, index as int)).contains_key(block) == self.exits().contains_key(block),
                exit_map(self.exit_states@.subrange(0, index as int)).contains_key(block) ==> exit_map(self.exit_states@.subrange(0, index as int))[block] == self.exits()[block],
            decreases index,
        {
            let ghost prefix = self.exit_states@.subrange(0, index as int);
            assert(prefix.drop_last() =~= self.exit_states@.subrange(0, index - 1));
            let record = &self.exit_states[index - 1];
            if record.block == block {
                assert(exits_fit(*body, self.exit_states@));
                assert(self.exit_states@[index - 1].state.fits(*body));
                return record.state.is_available(body, place);
            }
            index = index - 1;
        }
        false
    }

    /// Whether `place` is definitely initialized on entry to `block`.
    pub fn initialized_at_entry(&self, body: &Body, block: BasicBlockId, place: Place) -> (initialized: bool)
        requires
            self.wf(*body),
        ensures
            initialized == (self.entry(block) matches Some(view) && PlaceState::available_in(view, *body, place)),
    {
        if block.index() < self.entries.len() {
            match &self.entries[block.index()] {
                Some(state) => state.is_available(body, place),
                None => false,
            }
        } else {
            false
        }
    }
}


/// Twice the total entry measure plus the queue length: the quantity every
/// iteration of the analysis lowers.
pub open spec fn progress(body: Body, entries: Seq<Option<PlaceState>>, queue: Seq<BasicBlockId>) -> nat {
    2 * total_measure(entries, ceiling(body)) + queue.len()
}

/// Merges `incoming` into the entry state of `target` by intersection and
/// queues `target` when its entry changed.
pub fn merge_entry(
    entries: &mut Vec<Option<PlaceState>>,
    queue: &mut VecDeque<BasicBlockId>,
    target: BasicBlockId,
    incoming: PlaceState,
    body: &Body,
)
    requires
        entries_fit(*body, old(entries)@),
        incoming.fits(*body),
    ensures
        final(entries)@.len() == old(entries)@.len(),
        entries_fit(*body, final(entries)@),
        progress(*body, final(entries)@, final(queue)@) <= progress(*body, old(entries)@, old(queue)@),
        forall|i: int| 0 <= i < old(entries)@.len() && i != target@ ==> final(entries)@[i] == old(entries)@[i],
        target@ < old(entries)@.len() ==> (final(entries)@[target@ as int] matches Some(state) && state@
            == match old(entries)@[target@ as int] {
            None => incoming@,
            Some(existing) => (existing@.0.intersect(incoming@.0), existing@.1.intersect(incoming@.1)),
        }),
        entry_views(final(entries)@) == merged(entry_views(old(entries)@), target, incoming@),
        queue_follows(old(queue)@, final(queue)@, entry_views(old(entries)@), entry_views(final(entries)@)),
{
    let index = target.index();
    if index >= entries.len() {
        return;
    }
    let merged = match &entries[index] {
        None => {
            proof {
                incoming.lemma_measure_bounded(*body);
            }
            incoming
        },
        Some(existing) => {
            let mut merged = existing.duplicate(body);
            let changed = merged.intersect_with(&incoming, body);
            if !changed {
                return;
            }
            proof {
                merged.lemma_intersect_lowers(existing, *body, incoming@);
            }
            merged
        },
    };
    proof {
        lemma_total_update(entries@, ceiling(*body), index as int, Some(merged));
    }
    let ghost before = entries@;
    let ghost queued = queue@;
    entries.set(index, Some(merged));
    queue.push_back(target);
    proof {
        assert(queue@ == queued.push(target));
        assert forall|q: BasicBlockId| #[trigger] queue@.contains(q) implies queued.contains(q) || q
            == target by {
            let k = choose|k: int| 0 <= k < queue@.len() && queue@[k] == q;
            if k < queued.len() {
                assert(queued[k] == q);
            }
        }
        assert forall|q: BasicBlockId| #[trigger] queued.contains(q) implies queue@.contains(q) by {
            let k = choose|k: int| 0 <= k < queued.len() && queued[k] == q;
            assert(queue@[k] == q);
        }
        assert(queue@[queued.len() as int] == target);
        assert(entry_views(entries@) =~= crate::initialization_flow::merged(
            entry_views(before),
            target,
            incoming@,
        ));
        assert(BasicBlockId::at(index as int) == target);
    }
}

/// Records the state on the edge from `from` to `to`.
fn record_edge(edges: &mut Vec<EdgeState>, from: BasicBlockId, to: BasicBlockId, state: PlaceState, body: &Body)
    requires
        edges_fit(*body, old(edges)@),
        state.fits(*body),
    ensures
        edges_fit(*body, final(edges)@),
        edge_map(final(edges)@) == edge_map(old(edges)@).insert((from, to), state@),
{
    edges.push(EdgeState { from, to, state });
    assert(edges@.drop_last() =~= old(edges)@);
}

/// Records the state at the exit of `block`.
fn record_exit(exits: &mut Vec<ExitState>, block: BasicBlockId, state: PlaceState, body: &Body)
    requires
        exits_fit(*body, old(exits)@),
        state.fits(*body),
    ensures
        exits_fit(*body, final(exits)@),
        exit_map(final(exits)@) == exit_map(old(exits)@).insert(block, state@),
{
    exits.push(ExitState { block, state });
    assert(exits@.drop_last() =~= old(exits)@);
}

/// Applies the statements of one block to `initialized`, reporting reads of
/// places that may be uninitialized.
fn apply_statements(
    body: &Body,
    block_id: BasicBlockId,
    initialized: &mut PlaceState,
    errors: &mut Vec<InitializationError>,
)
    requires
        old(initialized).fits(*body),
        body.addressable(),
        block_id@ < body.blocks@.len(),
        strictly_sorted(old(errors)@),
        errors_in_body(*body, old(errors)@),
    ensures
        final(initialized).fits(*body),
        strictly_sorted(final(errors)@),
        errors_in_body(*body, final(errors)@),
        final(initialized)@ == statements_step(
            *body,
            old(initialized)@,
            body.blocks@[block_id@ as int].statements@,
            block_id,
        ).1,
        forall|e: InitializationError|
            #[trigger] final(errors)@.contains(e) <==> (old(errors)@.contains(e) || statements_step(
                *body,
                old(initialized)@,
                body.blocks@[block_id@ as int].statements@,
                block_id,
            ).0.contains(e)),
{
    let statements = &body.blocks[block_id.index()].statements;
    let ghost start = initialized@;
    let ghost start_errors = errors@;
    let mut statement_index: usize = 0;
    proof {
        assert(statements@.take(0) =~= Seq::<Statement>::empty());
    }
    while statement_index < statements.len()
        invariant
            statements == &body.blocks@[block_id@ as int].statements,
            statement_index <= statements@.len(),
            initialized.fits(*body),
            body.addressable(),
            block_id@ < body.blocks@.len(),
            strictly_sorted(errors@),
            errors_in_body(*body, errors@),
            initialized@ == statements_step(
                *body,
                start,
                statements@.take(statement_index as int),
                block_id,
            ).1,
            forall|e: InitializationError|
                #[trigger] errors@.contains(e) <==> (start_errors.contains(e) || statements_step(
                    *body,
                    start,
                    statements@.take(statement_index as int),
                    block_id,
                ).0.contains(e)),
        decreases statements@.len() - statement_index,
    {
        let location = InitializationLocation::Statement(statement_index);
        let ghost before = initialized@;
        let ghost before_errors = errors@;
        let ghost step = statement_step(
            *body,
            before,
            statements@[statement_index as int],
            block_id,
            statement_index,
        );
        match &statements[statement_index] {
            Statement::Assign { destination, value, .. } => {
                let operands = rvalue_operands(value);
                let ghost operand_seq = rvalue_operand_seq(*value);
                let mut operand_index: usize = 0;
                proof {
                    assert(operand_seq.take(0) =~= Seq::<Operand>::empty());
                }
                while operand_index < operands.len()
                    invariant
                        operand_index <= operands@.len(),
                        operands@.len() == operand_seq.len(),
                        forall|i: int| 0 <= i < operands@.len() ==> *operands@[i] == operand_seq[i],
                        initialized.fits(*body),
                        body.addressable(),
                        block_id@ < body.blocks@.len(),
                        strictly_sorted(errors@),
                        errors_in_body(*body, errors@),
                        initialized@ == read_operands(
                            *body,
                            before,
                            operand_seq.take(operand_index as int),
                            block_id,
                            location,
                        ).1,
                        forall|e: InitializationError|
                            #[trigger] errors@.contains(e) <==> (before_errors.contains(e)
                                || read_operands(
                                *body,
                                before,
                                operand_seq.take(operand_index as int),
                                block_id,
                                location,
                            ).0.contains(e)),
                    decreases operands@.len() - operand_index,
                {
                    validate_and_apply_operand(
                        operands[operand_index],
                        initialized,
                        block_id,
                        location,
                        body,
                        errors,
                    );
                    proof {
                        assert(operand_seq.take(operand_index + 1).drop_last() =~= operand_seq.take(
                            operand_index as int,
                        ));
                    }
                    operand_index = operand_index + 1;
                }
                initialized.initialize(body, *destination);
                proof {
                    assert(operand_seq.take(operand_index as int) =~= operand_seq);
                }
            },
            Statement::BeginLoan { loan, .. } => {
                if loan.index() < body.loans.len() {
                    let declaration = body.loans[loan.index()];
                    validate_and_apply_operand(
                        &Operand::Copy(declaration.source),
                        initialized,
                        block_id,
                        location,
                        body,
                        errors,
                    );
                    initialized.initialize(body, Place::local(declaration.destination));
                }
            },
            Statement::EndLoan { loan } => {
                if loan.index() < body.loans.len() {
                    let declaration = body.loans[loan.index()];
                    initialized.move_out(body, Place::local(declaration.destination));
                }
            },
            Statement::FinishAggregate { destination } => {
                initialized.finish_aggregate(body, *destination);
            },
            Statement::BeginAggregate { .. }
            | Statement::EnterRegion { .. }
            | Statement::ExitRegion { .. }
            | Statement::ExitAllocationContext { .. } => {},
        }
        proof {
            assert(initialized@ == step.1);
            assert(forall|e: InitializationError|
                #[trigger] errors@.contains(e) <==> (before_errors.contains(e) || step.0.contains(e)));
            assert(statements@.take(statement_index + 1).drop_last() =~= statements@.take(
                statement_index as int,
            ));
        }
        statement_index = statement_index + 1;
    }
    proof {
        assert(statements@.take(statement_index as int) =~= statements@);
    }
}

/// Sends `state` along the edge to `target`.
fn follow_edge(
    body: &Body,
    block_id: BasicBlockId,
    target: BasicBlockId,
    state: PlaceState,
    entries: &mut Vec<Option<PlaceState>>,
    queue: &mut VecDeque<BasicBlockId>,
    edges: &mut Vec<EdgeState>,
)
    requires
        state.fits(*body),
        entries_fit(*body, old(entries)@),
        edges_fit(*body, old(edges)@),
    ensures
        final(entries)@.len() == old(entries)@.len(),
        entries_fit(*body, final(entries)@),
        edges_fit(*body, final(edges)@),
        progress(*body, final(entries)@, final(queue)@) <= progress(*body, old(entries)@, old(queue)@),
        entry_views(final(entries)@) == merged(entry_views(old(entries)@), target, state@),
        queue_follows(old(queue)@, final(queue)@, entry_views(old(entries)@), entry_views(final(entries)@)),
        edge_map(final(edges)@) == edge_map(old(edges)@).insert((block_id, target), state@),
{
    record_edge(edges, block_id, target, state.duplicate(body), body);
    merge_entry(entries, queue, target, state, body);
}

/// Applies a call terminator of `block_id` to `initialized` and propagates
/// the resulting states.
fn apply_call(
    body: &Body,
    block_id: BasicBlockId,
    arguments: &Vec<CallArgument>,
    continuation: CallContinuation,
    initialized: PlaceState,
    entries: &mut Vec<Option<PlaceState>>,
    queue: &mut VecDeque<BasicBlockId>,
    errors: &mut Vec<InitializationError>,
    edges: &mut Vec<EdgeState>,
    exits: &mut Vec<ExitState>,
)
    requires
        initialized.fits(*body),
        body.addressable(),
        block_id@ < body.blocks@.len(),
        body.blocks@[block_id@ as int].terminator matches Terminator::Call {
            arguments: called_with,
            continuation: continued,
            ..
        } && called_with@ == arguments@ && continued == continuation,
        strictly_sorted(old(errors)@),
        errors_in_body(*body, old(errors)@),
        entries_fit(*body, old(entries)@),
        edges_fit(*body, old(edges)@),
        exits_fit(*body, old(exits)@),
    ensures
        strictly_sorted(final(errors)@),
        errors_in_body(*body, final(errors)@),
        final(entries)@.len() == old(entries)@.len(),
        entries_fit(*body, final(entries)@),
        edges_fit(*body, final(edges)@),
        exits_fit(*body, final(exits)@),
        progress(*body, final(entries)@, final(queue)@) <= progress(*body, old(entries)@, old(queue)@),
        flow_applied(
            old(errors)@,
            final(errors)@,
            old(entries)@,
            final(entries)@,
            old(queue)@,
            final(queue)@,
            old(edges)@,
            final(edges)@,
            old(exits)@,
            final(exits)@,
            block_id,
            terminator_flow(*body, initialized@, body.blocks@[block_id@ as int].terminator, block_id),
        ),
{
    let ghost start = initialized@;
    let ghost start_errors = errors@;
    let mut initialized = initialized;
    let mut index: usize = 0;
    proof {
        assert(arguments@.take(0) =~= Seq::<CallArgument>::empty());
    }
    while index < arguments.len()
        invariant
            index <= arguments@.len(),
            initialized.fits(*body),
            body.addressable(),
            block_id@ < body.blocks@.len(),
            strictly_sorted(errors@),
            errors_in_body(*body, errors@),
            initialized@ == read_arguments(*body, start, arguments@.take(index as int), block_id).1,
            forall|e: InitializationError|
                #[trigger] errors@.contains(e) <==> (start_errors.contains(e) || read_arguments(
                    *body,
                    start,
                    arguments@.take(index as int),
                    block_id,
                ).0.contains(e)),
        decreases arguments@.len() - index,
    {
        validate_and_apply_operand(
            &arguments[index].operand,
            &mut initialized,
            block_id,
            InitializationLocation::CallArgument(index),
            body,
            errors,
        );
        proof {
            assert(arguments@.take(index + 1).drop_last() =~= arguments@.take(index as int));
        }
        index = index + 1;
    }
    proof {
        assert(arguments@.take(index as int) =~= arguments@);
    }
    let ghost after = initialized@;
    let ghost entries0 = entry_views(entries@);
    let ghost queue0 = queue@;
    let ghost edges0 = edge_map(edges@);
    match continuation {
        CallContinuation::Continue { target } => {
            follow_edge(body, block_id, target, initialized, entries, queue, edges);
            proof {
                lemma_merged_one(entries0, target, after);
                lemma_recorded_one(edges0, block_id, (target, after));
            }
        },
        CallContinuation::Return { destination, target } => {
            initialized.initialize(body, destination);
            let ghost sent = initialized@;
            follow_edge(body, block_id, target, initialized, entries, queue, edges);
            proof {
                lemma_merged_one(entries0, target, sent);
                lemma_recorded_one(edges0, block_id, (target, sent));
            }
        },
        CallContinuation::Outcome { destination, success, failure, .. } => {
            let failure_state = initialized.duplicate(body);
            initialized.initialize(body, destination);
            let ghost sent = initialized@;
            follow_edge(body, block_id, success, initialized, entries, queue, edges);
            let ghost entries1 = entry_views(entries@);
            let ghost queue1 = queue@;
            follow_edge(body, block_id, failure, failure_state, entries, queue, edges);
            proof {
                lemma_merged_two(entries0, (success, sent), (failure, after));
                lemma_recorded_two(edges0, block_id, (success, sent), (failure, after));
                lemma_queue_follows_trans(
                    queue0,
                    queue1,
                    queue@,
                    entries0,
                    entries1,
                    entry_views(entries@),
                );
            }
        },
        CallContinuation::OutcomeEffect { success, failure, .. } => {
            let failure_state = initialized.duplicate(body);
            follow_edge(body, block_id, success, initialized, entries, queue, edges);
            let ghost entries1 = entry_views(entries@);
            let ghost queue1 = queue@;
            follow_edge(body, block_id, failure, failure_state, entries, queue, edges);
            proof {
                lemma_merged_two(entries0, (success, after), (failure, after));
                lemma_recorded_two(edges0, block_id, (success, after), (failure, after));
                lemma_queue_follows_trans(
                    queue0,
                    queue1,
                    queue@,
                    entries0,
                    entries1,
                    entry_views(entries@),
                );
            }
        },
        CallContinuation::Never => {
            proof {
                lemma_queue_follows_same(queue0, entries0);
            }
        },
    }
}

/// Applies the terminator of `block_id` to `initialized` and propagates the
/// resulting states to successors or records the exit state.
fn apply_terminator(
    body: &Body,
    block_id: BasicBlockId,
    initialized: PlaceState,
    entries: &mut Vec<Option<PlaceState>>,
    queue: &mut VecDeque<BasicBlockId>,
    errors: &mut Vec<InitializationError>,
    edges: &mut Vec<EdgeState>,
    exits: &mut Vec<ExitState>,
)
    requires
        initialized.fits(*body),
        body.addressable(),
        block_id@ < body.blocks@.len(),
        strictly_sorted(old(errors)@),
        errors_in_body(*body, old(errors)@),
        entries_fit(*body, old(entries)@),
        edges_fit(*body, old(edges)@),
        exits_fit(*body, old(exits)@),
    ensures
        strictly_sorted(final(errors)@),
        errors_in_body(*body, final(errors)@),
        final(entries)@.len() == old(entries)@.len(),
        entries_fit(*body, final(entries)@),
        edges_fit(*body, final(edges)@),
        exits_fit(*body, final(exits)@),
        progress(*body, final(entries)@, final(queue)@) <= progress(*body, old(entries)@, old(queue)@),
        flow_applied(
            old(errors)@,
            final(errors)@,
            old(entries)@,
            final(entries)@,
            old(queue)@,
            final(queue)@,
            old(edges)@,
            final(edges)@,
            old(exits)@,
            final(exits)@,
            block_id,
            terminator_flow(*body, initialized@, body.blocks@[block_id@ as int].terminator, block_id),
        ),
{
    let ghost start = initialized@;
    let ghost start_errors = errors@;
    let ghost entries0 = entry_views(entries@);
    let ghost queue0 = queue@;
    let ghost edges0 = edge_map(edges@);
    let ghost exits0 = exit_map(exits@);
    let mut initialized = initialized;
    match &body.blocks[block_id.index()].terminator {
        Terminator::Goto { target } => {
            follow_edge(body, block_id, *target, initialized, entries, queue, edges);
            proof {
                lemma_merged_one(entries0, *target, start);
                lemma_recorded_one(edges0, block_id, (*target, start));
            }
        },
        Terminator::Switch { condition, then_target, else_target, .. } => {
            validate_and_apply_operand(
                condition,
                &mut initialized,
                block_id,
                InitializationLocation::Switch,
                body,
                errors,
            );
            let ghost after = initialized@;
            let then_state = initialized.duplicate(body);
            follow_edge(body, block_id, *then_target, then_state, entries, queue, edges);
            let ghost entries1 = entry_views(entries@);
            let ghost queue1 = queue@;
            follow_edge(body, block_id, *else_target, initialized, entries, queue, edges);
            proof {
                lemma_merged_two(entries0, (*then_target, after), (*else_target, after));
                lemma_recorded_two(edges0, block_id, (*then_target, after), (*else_target, after));
                lemma_queue_follows_trans(
                    queue0,
                    queue1,
                    queue@,
                    entries0,
                    entries1,
                    entry_views(entries@),
                );
            }
        },
        Terminator::Call { arguments, continuation, .. } => {
            apply_call(
                body,
                block_id,
                arguments,
                *continuation,
                initialized,
                entries,
                queue,
                errors,
                edges,
                exits,
            );
        },
        Terminator::InspectOutcome { source, destination, success, failure, .. } => {
            validate_and_apply_operand(
                source,
                &mut initialized,
                block_id,
                InitializationLocation::Inspection,
                body,
                errors,
            );
            let ghost after = initialized@;
            let failure_state = initialized.duplicate(body);
            initialized.initialize(body, *destination);
            let ghost sent = initialized@;
            follow_edge(body, block_id, *success, initialized, entries, queue, edges);
            let ghost entries1 = entry_views(entries@);
            let ghost queue1 = queue@;
            follow_edge(body, block_id, *failure, failure_state, entries, queue, edges);
            proof {
                lemma_merged_two(entries0, (*success, sent), (*failure, after));
                lemma_recorded_two(edges0, block_id, (*success, sent), (*failure, after));
                lemma_queue_follows_trans(
                    queue0,
                    queue1,
                    queue@,
                    entries0,
                    entries1,
                    entry_views(entries@),
                );
            }
        },
        Terminator::Drop { place, target, .. } => {
            validate_and_apply_operand(
                &Operand::Move(*place),
                &mut initialized,
                block_id,
                InitializationLocation::Drop,
                body,
                errors,
            );
            let ghost after = initialized@;
            follow_edge(body, block_id, *target, initialized, entries, queue, edges);
            proof {
                lemma_merged_one(entries0, *target, after);
                lemma_recorded_one(edges0, block_id, (*target, after));
            }
        },
        Terminator::Return => {
            if body.return_local.index() < body.locals.len() && !initialized.is_available(
                body,
                Place::local(body.return_local),
            ) {
                let ghost before = errors@;
                let error = InitializationError {
                    block: block_id,
                    location: InitializationLocation::Return,
                    local: body.return_local,
                };
                insert_sorted(errors, error);
                proof {
                    assert forall|i: int| 0 <= i < errors@.len() implies (#[trigger] errors@[i]).block@
                        < body.blocks@.len() && errors@[i].local@ < body.locals@.len() by {
                        assert(errors@.contains(errors@[i]));
                        if before.contains(errors@[i]) {
                            let k = choose|k: int| 0 <= k < before.len() && before[k] == errors@[i];
                            assert(before[k].block@ < body.blocks@.len());
                        }
                    }
                }
            }
            record_exit(exits, block_id, initialized, body);
            proof {
                lemma_queue_follows_same(queue0, entries0);
            }
        },
        Terminator::ReturnValue { source }
        | Terminator::ReturnOutcome { source }
        | Terminator::ReturnOutcomeSuccess { source } => {
            validate_and_apply_operand(
                source,
                &mut initialized,
                block_id,
                InitializationLocation::Return,
                body,
                errors,
            );
            record_exit(exits, block_id, initialized, body);
            proof {
                lemma_queue_follows_same(queue0, entries0);
            }
        },
        Terminator::ReturnFailure { code, message } => {
            validate_and_apply_operand(
                code,
                &mut initialized,
                block_id,
                InitializationLocation::Return,
                body,
                errors,
            );
            let ghost middle = initialized@;
            let ghost middle_errors = errors@;
            validate_and_apply_operand(
                message,
                &mut initialized,
                block_id,
                InitializationLocation::Return,
                body,
                errors,
            );
            record_exit(exits, block_id, initialized, body);
            proof {
                lemma_queue_follows_same(queue0, entries0);
                let operands = seq![*code, *message];
                let location = InitializationLocation::Return;
                assert(operands.drop_last() =~= seq![*code]);
                assert(seq![*code].drop_last() =~= Seq::<Operand>::empty());
                assert(read_operands(*body, start, Seq::<Operand>::empty(), block_id, location) == (
                    Set::<InitializationError>::empty(),
                    start,
                ));
                let first = read_operands(*body, start, seq![*code], block_id, location);
                assert(first.1 == middle);
                assert(forall|e: InitializationError|
                    #[trigger] middle_errors.contains(e) <==> (start_errors.contains(e)
                        || first.0.contains(e)));
                let both = read_operands(*body, start, operands, block_id, location);
                assert(both.1 == initialized@);
                assert(forall|e: InitializationError|
                    #[trigger] errors@.contains(e) <==> (start_errors.contains(e) || both.0.contains(e)));
            }
        },
        Terminator::ReturnOptionalNone | Terminator::Trap | Terminator::PropagateFailure => {
            record_exit(exits, block_id, initialized, body);
            proof {
                lemma_queue_follows_same(queue0, entries0);
            }
        },
    }
}

/// The errors among `errors`.
pub open spec fn error_set(errors: Seq<InitializationError>) -> Set<InitializationError> {
    Set::new(|error: InitializationError| errors.contains(error))
}

/// Runs definite-initialization analysis over every block reachable from
/// the entry block. Parameters start initialized; each block's entry state is
/// the intersection of the states on its incoming edges.
pub fn analyze(body: &Body) -> (analysis: InitializationAnalysis)
    requires
        body.addressable(),
    ensures
        analysis.wf(*body),
        body.entry@ < body.blocks@.len() ==> {
            &&& analysis.entry_states() == solution(*body)
            &&& error_set(analysis.errors_seq()) == solution_errors(*body, solution(*body))
            &&& analysis.edges() == solution_edges(*body, solution(*body))
            &&& analysis.exits() == solution_exits(*body, solution(*body))
        },
        body.entry@ >= body.blocks@.len() ==> {
            &&& analysis.entry_states().len() == 0
            &&& analysis.errors_seq().len() == 0
            &&& analysis.edges() == Map::<(BasicBlockId, BasicBlockId), Available>::empty()
            &&& analysis.exits() == Map::<BasicBlockId, Available>::empty()
        },
{
    let block_count = body.blocks.len();
    if body.entry.index() >= block_count {
        let analysis = InitializationAnalysis {
            errors: Vec::new(),
            entries: Vec::new(),
            edge_states: Vec::new(),
            exit_states: Vec::new(),
        };
        proof {
            assert(analysis.entry_states() =~= Seq::<Option<Available>>::empty());
            assert(analysis.edges() =~= Map::<(BasicBlockId, BasicBlockId), Available>::empty());
            assert(analysis.exits() =~= Map::<BasicBlockId, Available>::empty());
        }
        return analysis;
    }
    let mut initial = PlaceState::new(body);
    let mut local_index: usize = 0;
    while local_index < body.locals.len()
        invariant
            local_index <= body.locals@.len(),
            initial.fits(*body),
            body.addressable(),
            initial@ == parameters_available(*body, local_index as nat),
        decreases body.locals@.len() - local_index,
    {
        if let LocalStorage::Parameter { .. } = body.locals[local_index].storage {
            initial.initialize(body, Place::local(LocalId::from_index(local_index)));
        }
        local_index = local_index + 1;
    }
    let mut entries: Vec<Option<PlaceState>> = Vec::new();
    while entries.len() < block_count
        invariant
            entries@.len() <= block_count,
            entries_fit(*body, entries@),
            forall|i: int| 0 <= i < entries@.len() ==> (#[trigger] entries@[i]) is None,
        decreases block_count - entries@.len(),
    {
        entries.push(None);
    }
    let ghost initial_view = initial@;
    entries.set(body.entry.index(), Some(initial));
    let mut queue: VecDeque<BasicBlockId> = VecDeque::new();
    queue.push_back(body.entry);
    let mut errors: Vec<InitializationError> = Vec::new();
    let mut edges: Vec<EdgeState> = Vec::new();
    let mut exits: Vec<ExitState> = Vec::new();
    proof {
        let views = entry_views(entries@);
        let entry = body.entry@ as int;
        assert(views[entry] == Some(initial_view));
        assert(initial_view == initial_available(*body));
        assert(reachable_within(*body, entry, 0));
        assert(forall|b: int| 0 <= b < views.len() && b != entry ==> views[b] is None);
        assert(queue@ == seq![body.entry]);
        assert(BasicBlockId::at(entry) == body.entry);
        assert(error_set(errors@) =~= Set::<InitializationError>::empty());
        assert(edge_map(edges@) == Map::<(BasicBlockId, BasicBlockId), Available>::empty());
        assert(exit_map(exits@) == Map::<BasicBlockId, Available>::empty());
        assert forall|b: int| 0 <= b < views.len() && (#[trigger] views[b]) is Some implies reachable(
            *body,
            b,
        ) by {
            assert(b == entry);
        }
        assert forall|b: int|
            0 <= b < views.len() && !queue@.contains(BasicBlockId::at(b)) implies #[trigger] settled(
            *body,
            views,
            b,
            error_set(errors@),
            edge_map(edges@),
            exit_map(exits@),
        ) by {
            if b == entry {
                assert(queue@[0] == BasicBlockId::at(b));
            }
        }
        assert forall|q: BasicBlockId| #[trigger] queue@.contains(q) implies q@ < views.len()
            && views[q@ as int] is Some by {
            assert(q == body.entry);
        }
    }
    loop
        invariant
            body.addressable(),
            block_count == body.blocks@.len(),
            body.entry@ < block_count,
            entries@.len() == block_count,
            entries_fit(*body, entries@),
            strictly_sorted(errors@),
            errors_in_body(*body, errors@),
            edges_fit(*body, edges@),
            exits_fit(*body, exits@),
            worklist_invariant(
                *body,
                entry_views(entries@),
                queue@,
                error_set(errors@),
                edge_map(edges@),
                exit_map(exits@),
            ),
        ensures
            worklist_invariant(
                *body,
                entry_views(entries@),
                Seq::empty(),
                error_set(errors@),
                edge_map(edges@),
                exit_map(exits@),
            ),
            entries@.len() == block_count,
            entries_fit(*body, entries@),
            strictly_sorted(errors@),
            errors_in_body(*body, errors@),
            edges_fit(*body, edges@),
            exits_fit(*body, exits@),
        decreases progress(*body, entries@, queue@),
    {
        let ghost queued = queue@;
        let ghost views = entry_views(entries@);
        let ghost errors_before = errors@;
        let ghost edges_before = edge_map(edges@);
        let ghost exits_before = exit_map(exits@);
        let next = queue.pop_front();
        let block_id = match next {
            None => {
                proof {
                    assert(queued =~= Seq::<BasicBlockId>::empty());
                }
                break;
            },
            Some(block_id) => block_id,
        };
        proof {
            assert(queued[0] == block_id);
            assert(queued.contains(block_id));
        }
        if block_id.index() >= block_count {
            continue;
        }
        let mut initialized = match &entries[block_id.index()] {
            None => {
                continue;
            },
            Some(state) => state.duplicate(body),
        };
        let ghost entry_state = initialized@;
        apply_statements(body, block_id, &mut initialized, &mut errors);
        let ghost errors_middle = errors@;
        let ghost after_statements = initialized@;
        apply_terminator(
            body,
            block_id,
            initialized,
            &mut entries,
            &mut queue,
            &mut errors,
            &mut edges,
            &mut exits,
        );
        proof {
            let flow = block_flow(*body, block_id, entry_state);
            assert(views[block_id@ as int] == Some(entry_state));
            assert(error_set(errors@) =~= error_set(errors_before).union(flow.errors));
            lemma_worklist_step(
                *body,
                views,
                queued,
                error_set(errors_before),
                edges_before,
                exits_before,
                entry_views(entries@),
                queue@,
                error_set(errors@),
                edge_map(edges@),
                exit_map(exits@),
            );
        }
    }
    proof {
        lemma_worklist_done(
            *body,
            entry_views(entries@),
            error_set(errors@),
            edge_map(edges@),
            exit_map(exits@),
        );
        lemma_is_solution(*body, entry_views(entries@));
    }
    InitializationAnalysis { errors, entries, edge_states: edges, exit_states: exits }
}

/// The definite-initialization errors of `body`, ordered by block, location
/// and local, each reported once: the errors of every reachable block entered
/// with its state in the solution.
pub fn validate(body: &Body) -> (errors: Vec<InitializationError>)
    requires
        body.addressable(),
    ensures
        strictly_sorted(errors@),
        errors_in_body(*body, errors@),
        forall|error: InitializationError|
            #[trigger] errors@.contains(error) <==> (body.entry@ < body.blocks@.len()
                && solution_errors(*body, solution(*body)).contains(error)),
{
    let analysis = analyze(body);
    proof {
        assert forall|error: InitializationError| #[trigger] analysis.errors@.contains(error) <==> (
        body.entry@ < body.blocks@.len() && solution_errors(*body, solution(*body)).contains(error)) by {
            assert(error_set(analysis.errors_seq()).contains(error) == analysis.errors@.contains(error));
        }
    }
    analysis.errors
}

} // verus!
