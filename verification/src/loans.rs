//! Path-sensitive validation of MIR loans.
//!
//! Borrow types describe values; loans describe one concrete borrow's live
//! interval. Explicit begin/end statements make ownership conflicts a CFG
//! property instead of something reconstructed from AST nesting.

use crate::dataflow::{word_count, LoanSet};
use crate::ids::{BasicBlockId, LoanId};
use crate::locals::OwnershipKind;
use crate::model::{Body, BorrowKind, CallContinuation, Operand, Place, Rvalue, Statement, Terminator};
use crate::initialization::rvalue_operand_seq;
use crate::initialization_flow::{reachable, reachable_within};
use crate::loans_flow::{
    argument_operands, begin_errors, block_flow, lemma_is_solution, lemma_merged_one,
    lemma_merged_two, lemma_queue_follows_same, lemma_queue_follows_trans, lemma_worklist_done,
    lemma_worklist_step, live_errors, merged, merged_all, move_errors, moves_errors,
    queue_follows, settled, solution, solution_active, solution_errors, statement_step,
    statements_step, terminator_flow, worklist_invariant, Activity,
};
use crate::model::CallArgument;
use crate::places::{overlap, places_overlap};
use crate::sorted::{insert_sorted, strictly_sorted, Keyed, SortKey};
use crate::worklist::{lemma_strict_subset_len, lemma_total_update, total_measure, FlowState};
use std::collections::VecDeque;
use vstd::prelude::*;

verus! {

/// What is wrong with a loan.
#[derive(Debug, Clone, Copy, PartialEq, Eq, Structural, Hash)]
pub enum LoanErrorKind {
    InvalidIdentity,
    InvalidSource,
    InvalidDestination,
    InvalidScope,
    AlreadyActive,
    ConflictingBorrow,
    EndOfInactive,
    MutateWhileBorrowed,
    MoveWhileBorrowed,
    LiveAtExit,
}

/// One loan error; declaration errors have no block.
#[derive(Debug, Clone, Copy, PartialEq, Eq, Structural, Hash)]
pub struct LoanError {
    pub block: Option<BasicBlockId>,
    pub loan: LoanId,
    pub kind: LoanErrorKind,
}

/// The position of `kind` in the order errors are reported in.
pub open spec fn kind_rank(kind: LoanErrorKind) -> usize {
    match kind {
        LoanErrorKind::InvalidIdentity => 0,
        LoanErrorKind::InvalidSource => 1,
        LoanErrorKind::InvalidDestination => 2,
        LoanErrorKind::InvalidScope => 3,
        LoanErrorKind::AlreadyActive => 4,
        LoanErrorKind::ConflictingBorrow => 5,
        LoanErrorKind::EndOfInactive => 6,
        LoanErrorKind::MutateWhileBorrowed => 7,
        LoanErrorKind::MoveWhileBorrowed => 8,
        LoanErrorKind::LiveAtExit => 9,
    }
}

/// The position of `kind` in the order errors are reported in.
pub fn error_kind_order(kind: LoanErrorKind) -> (order: usize)
    ensures
        order == kind_rank(kind),
{
    match kind {
        LoanErrorKind::InvalidIdentity => 0,
        LoanErrorKind::InvalidSource => 1,
        LoanErrorKind::InvalidDestination => 2,
        LoanErrorKind::InvalidScope => 3,
        LoanErrorKind::AlreadyActive => 4,
        LoanErrorKind::ConflictingBorrow => 5,
        LoanErrorKind::EndOfInactive => 6,
        LoanErrorKind::MutateWhileBorrowed => 7,
        LoanErrorKind::MoveWhileBorrowed => 8,
        LoanErrorKind::LiveAtExit => 9,
    }
}

/// Errors of blocks come in block order; declaration errors come last.
pub open spec fn block_rank(block: Option<BasicBlockId>) -> u64 {
    match block {
        Some(block) => block@ as u64,
        None => u64::MAX,
    }
}

impl Keyed for LoanError {
    open spec fn key_of(self) -> SortKey {
        (block_rank(self.block), self.loan@ as u64, kind_rank(self.kind) as u64, 0, 0)
    }

    fn sort_key(&self) -> (key: SortKey) {
        let block: u64 = match self.block {
            Some(block) => block.0 as u64,
            None => u64::MAX,
        };
        (block, self.loan.0 as u64, error_kind_order(self.kind) as u64, 0, 0)
    }

    proof fn lemma_key_identifies(a: Self, b: Self) {
        assert(a.block == b.block);
        assert(a.loan == b.loan);
        assert(a.kind == b.kind);
    }
}

/// Every error of a block names an existing block of `body`.
pub open spec fn errors_in_body(body: Body, errors: Seq<LoanError>) -> bool {
    forall|i: int|
        0 <= i < errors.len() ==> ((#[trigger] errors[i]).block matches Some(block) ==> block@
            < body.blocks@.len())
}

/// Adds one error.
fn record_error(body: &Body, errors: &mut Vec<LoanError>, error: LoanError)
    requires
        error.block matches Some(block) ==> block@ < body.blocks@.len(),
        strictly_sorted(old(errors)@),
    ensures
        strictly_sorted(final(errors)@),
        errors_in_body(*body, old(errors)@) ==> errors_in_body(*body, final(errors)@),
        forall|e: LoanError| final(errors)@.contains(e) <==> (old(errors)@.contains(e) || e == error),
{
    let ghost before = errors@;
    insert_sorted(errors, error);
    proof {
        if errors_in_body(*body, before) {
            assert forall|i: int| 0 <= i < errors@.len() implies ((#[trigger] errors@[i]).block matches Some(
                block,
            ) ==> block@ < body.blocks@.len()) by {
                assert(errors@.contains(errors@[i]));
                if before.contains(errors@[i]) {
                    let k = choose|k: int| 0 <= k < before.len() && before[k] == errors@[i];
                    assert(before[k] == errors@[i]);
                }
            }
        }
    }
}

/// The loans possibly and definitely active at one program point.
pub struct LoanState {
    pub may_active: LoanSet,
    pub must_active: LoanSet,
}

impl LoanState {
    /// Both sets are sized for the loans of `body`.
    pub open spec fn fits(&self, body: Body) -> bool {
        &&& self.may_active.capacity() == word_count(body.loans@.len()) * 64
        &&& self.must_active.capacity() == word_count(body.loans@.len()) * 64
    }

    /// A copy of the state.
    pub fn duplicate(&self) -> (copy: Self)
        ensures
            copy.may_active@ == self.may_active@,
            copy.must_active@ == self.must_active@,
            copy.may_active.capacity() == self.may_active.capacity(),
            copy.must_active.capacity() == self.must_active.capacity(),
    {
        LoanState { may_active: self.may_active.clone(), must_active: self.must_active.clone() }
    }
}

impl View for LoanState {
    type V = Activity;

    open spec fn view(&self) -> Activity {
        (self.may_active@, self.must_active@)
    }
}

/// What each entry state claims.
pub open spec fn entry_views(entries: Seq<Option<LoanState>>) -> Seq<Option<Activity>> {
    entries.map_values(
        |entry: Option<LoanState>|
            match entry {
                Some(state) => Some(state@),
                None => None,
            },
    )
}

/// The errors among `errors`.
pub open spec fn error_set(errors: Seq<LoanError>) -> Set<LoanError> {
    Set::new(|error: LoanError| errors.contains(error))
}

impl FlowState for LoanState {
    /// Merging only grows `may_active` and shrinks `must_active`.
    open spec fn measure(&self) -> nat {
        (self.may_active.capacity() - self.may_active@.len()) as nat + self.must_active@.len()
    }
}

/// A loan other than one being begun makes the new loan conflict.
pub open spec fn conflicts_with(body: Body, may_active: Set<nat>, other: int, loan: LoanId) -> bool {
    &&& 0 <= other < body.loans@.len()
    &&& loan@ < body.loans@.len()
    &&& may_active.contains(other as nat)
    &&& places_overlap(body, body.loans@[other].source, body.loans@[loan@ as int].source)
    &&& (body.loans@[other].kind == BorrowKind::Readwrite || body.loans@[loan@ as int].kind
        == BorrowKind::Readwrite)
}

/// The errors that touching `place` with an action of `kind` reports: one per
/// possibly active loan whose source overlaps `place`.
pub open spec fn touch_error(
    body: Body,
    may_active: Set<nat>,
    place: Place,
    block: BasicBlockId,
    kind: LoanErrorKind,
    e: LoanError,
) -> bool {
    &&& e.block == Some(block)
    &&& e.kind == kind
    &&& e.loan@ < body.loans@.len()
    &&& may_active.contains(e.loan@)
    &&& places_overlap(body, body.loans@[e.loan@ as int].source, place)
}

/// Reports each possibly active loan whose source overlaps `place`.
fn reject_touch(
    body: &Body,
    block: BasicBlockId,
    place: Place,
    state: &LoanState,
    kind: LoanErrorKind,
    errors: &mut Vec<LoanError>,
)
    requires
        body.addressable(),
        block@ < body.blocks@.len(),
        strictly_sorted(old(errors)@),
        errors_in_body(*body, old(errors)@),
    ensures
        strictly_sorted(final(errors)@),
        errors_in_body(*body, final(errors)@),
        forall|e: LoanError|
            final(errors)@.contains(e) <==> (old(errors)@.contains(e) || touch_error(
                *body,
                state.may_active@,
                place,
                block,
                kind,
                e,
            )),
{
    let count = body.loans.len();
    let mut index: usize = 0;
    while index < count
        invariant
            count == body.loans@.len(),
            index <= count,
            body.addressable(),
            block@ < body.blocks@.len(),
            strictly_sorted(errors@),
            errors_in_body(*body, errors@),
            forall|e: LoanError|
                errors@.contains(e) <==> (old(errors)@.contains(e) || (touch_error(
                    *body,
                    state.may_active@,
                    place,
                    block,
                    kind,
                    e,
                ) && e.loan@ < index)),
        decreases count - index,
    {
        let id = LoanId::from_index(index);
        if state.may_active.contains(id) && overlap(body, body.loans[index].source, place) {
            record_error(body, errors, LoanError { block: Some(block), loan: id, kind });
        }
        index = index + 1;
    }
}

/// Reports writing `place` while a loan of it may be active.
pub fn reject_mutation(
    body: &Body,
    block: BasicBlockId,
    place: Place,
    state: &LoanState,
    errors: &mut Vec<LoanError>,
)
    requires
        body.addressable(),
        block@ < body.blocks@.len(),
        strictly_sorted(old(errors)@),
        errors_in_body(*body, old(errors)@),
    ensures
        strictly_sorted(final(errors)@),
        errors_in_body(*body, final(errors)@),
        forall|e: LoanError|
            final(errors)@.contains(e) <==> (old(errors)@.contains(e) || touch_error(
                *body,
                state.may_active@,
                place,
                block,
                LoanErrorKind::MutateWhileBorrowed,
                e,
            )),
{
    reject_touch(body, block, place, state, LoanErrorKind::MutateWhileBorrowed, errors)
}

/// Reports moving `place` while a loan of it may be active.
pub fn reject_move(
    body: &Body,
    block: BasicBlockId,
    place: Place,
    state: &LoanState,
    errors: &mut Vec<LoanError>,
)
    requires
        body.addressable(),
        block@ < body.blocks@.len(),
        strictly_sorted(old(errors)@),
        errors_in_body(*body, old(errors)@),
    ensures
        strictly_sorted(final(errors)@),
        errors_in_body(*body, final(errors)@),
        forall|e: LoanError|
            final(errors)@.contains(e) <==> (old(errors)@.contains(e) || touch_error(
                *body,
                state.may_active@,
                place,
                block,
                LoanErrorKind::MoveWhileBorrowed,
                e,
            )),
{
    reject_touch(body, block, place, state, LoanErrorKind::MoveWhileBorrowed, errors)
}

/// Reports a move out of `operand` while a loan of its place may be active.
pub fn reject_operand_move(
    body: &Body,
    block: BasicBlockId,
    operand: &Operand,
    state: &LoanState,
    errors: &mut Vec<LoanError>,
)
    requires
        body.addressable(),
        block@ < body.blocks@.len(),
        strictly_sorted(old(errors)@),
        errors_in_body(*body, old(errors)@),
    ensures
        strictly_sorted(final(errors)@),
        errors_in_body(*body, final(errors)@),
        forall|e: LoanError|
            final(errors)@.contains(e) <==> (old(errors)@.contains(e) || match *operand {
                Operand::Move(place) => touch_error(
                    *body,
                    state.may_active@,
                    place,
                    block,
                    LoanErrorKind::MoveWhileBorrowed,
                    e,
                ),
                _ => false,
            }),
{
    if let Operand::Move(place) = operand {
        reject_move(body, block, *place, state, errors);
    }
}

/// Reports moves out of the operands of `value` while loans of them may be
/// active.
pub fn reject_rvalue_moves(
    body: &Body,
    block: BasicBlockId,
    value: &Rvalue,
    state: &LoanState,
    errors: &mut Vec<LoanError>,
)
    requires
        body.addressable(),
        block@ < body.blocks@.len(),
        strictly_sorted(old(errors)@),
        errors_in_body(*body, old(errors)@),
    ensures
        strictly_sorted(final(errors)@),
        errors_in_body(*body, final(errors)@),
        forall|e: LoanError|
            #[trigger] final(errors)@.contains(e) <==> (old(errors)@.contains(e) || moves_errors(
                *body,
                state@,
                rvalue_operand_seq(*value),
                block,
            ).contains(e)),
{
    let ghost operands = rvalue_operand_seq(*value);
    let ghost start_errors = errors@;
    let mut index: usize = 0;
    let count: usize = match value {
        Rvalue::Use(..) | Rvalue::Unary { .. } | Rvalue::Cast { .. } => 1,
        Rvalue::Binary { .. } | Rvalue::Compare { .. } | Rvalue::Error { .. } => 2,
        Rvalue::Variant { leaves, .. } => leaves.len(),
    };
    proof {
        assert(operands.take(0) =~= Seq::<Operand>::empty());
    }
    while index < count
        invariant
            count == operands.len(),
            operands == rvalue_operand_seq(*value),
            index <= count,
            body.addressable(),
            block@ < body.blocks@.len(),
            strictly_sorted(errors@),
            errors_in_body(*body, errors@),
            forall|e: LoanError|
                #[trigger] errors@.contains(e) <==> (start_errors.contains(e) || moves_errors(
                    *body,
                    state@,
                    operands.take(index as int),
                    block,
                ).contains(e)),
        decreases count - index,
    {
        let operand = match value {
            Rvalue::Use(operand) | Rvalue::Unary { operand, .. } | Rvalue::Cast { operand, .. } => operand,
            Rvalue::Binary { left, right, .. } | Rvalue::Compare { left, right, .. } => {
                if index == 0 {
                    left
                } else {
                    right
                }
            },
            Rvalue::Error { code, message } => {
                if index == 0 {
                    code
                } else {
                    message
                }
            },
            Rvalue::Variant { leaves, .. } => &leaves[index].operand,
        };
        proof {
            assert(*operand == operands[index as int]);
        }
        reject_operand_move(body, block, operand, state, errors);
        proof {
            assert(operands.take(index + 1).drop_last() =~= operands.take(index as int));
        }
        index = index + 1;
    }
    proof {
        assert(operands.take(index as int) =~= operands);
    }
}

/// Reports every loan that may still be active when `block` exits.
pub fn reject_live_at_exit(body: &Body, block: BasicBlockId, state: &LoanState, errors: &mut Vec<LoanError>)
    requires
        body.addressable(),
        block@ < body.blocks@.len(),
        strictly_sorted(old(errors)@),
        errors_in_body(*body, old(errors)@),
    ensures
        strictly_sorted(final(errors)@),
        errors_in_body(*body, final(errors)@),
        forall|e: LoanError|
            final(errors)@.contains(e) <==> (old(errors)@.contains(e) || (e.block == Some(block)
                && e.kind == LoanErrorKind::LiveAtExit && e.loan@ < body.loans@.len()
                && state.may_active@.contains(e.loan@))),
{
    let count = body.loans.len();
    let mut index: usize = 0;
    while index < count
        invariant
            count == body.loans@.len(),
            index <= count,
            body.addressable(),
            block@ < body.blocks@.len(),
            strictly_sorted(errors@),
            errors_in_body(*body, errors@),
            forall|e: LoanError|
                errors@.contains(e) <==> (old(errors)@.contains(e) || (e.block == Some(block)
                    && e.kind == LoanErrorKind::LiveAtExit && e.loan@ < index
                    && state.may_active@.contains(e.loan@))),
        decreases count - index,
    {
        let id = LoanId::from_index(index);
        if state.may_active.contains(id) {
            record_error(body, errors, LoanError { block: Some(block), loan: id, kind: LoanErrorKind::LiveAtExit });
        }
        index = index + 1;
    }
}

/// The declaration of loan `index` is malformed in the way `kind` names.
pub open spec fn declaration_error(body: Body, index: int, kind: LoanErrorKind) -> bool {
    let loan = body.loans@[index];
    match kind {
        LoanErrorKind::InvalidIdentity => loan.id@ != index,
        LoanErrorKind::InvalidSource => loan.source.local@ >= body.locals@.len() || match loan.source.projection {
            Some(p) => p@ >= body.projections@.len() || body.projections@[p@ as int].base != loan.source.local,
            None => false,
        },
        LoanErrorKind::InvalidDestination => !(loan.destination@ < body.locals@.len() && match (
            loan.kind,
            body.locals@[loan.destination@ as int].ownership,
        ) {
            (BorrowKind::Readonly, OwnershipKind::Borrowed { readwrite: false }) => true,
            (BorrowKind::Readwrite, OwnershipKind::Borrowed { readwrite: true }) => true,
            _ => false,
        }),
        LoanErrorKind::InvalidScope => loan.scope@ >= body.scopes@.len(),
        _ => false,
    }
}

/// Reports every malformed loan declaration: an identity other than its
/// index, a source outside the body, a destination whose ownership does not
/// match the loan's kind, or a scope outside the body.
pub fn validate_declarations(body: &Body, errors: &mut Vec<LoanError>)
    requires
        body.addressable(),
        strictly_sorted(old(errors)@),
    ensures
        strictly_sorted(final(errors)@),
        errors_in_body(*body, old(errors)@) ==> errors_in_body(*body, final(errors)@),
        forall|e: LoanError|
            final(errors)@.contains(e) <==> (old(errors)@.contains(e) || (e.block is None
                && e.loan@ < body.loans@.len() && declaration_error(*body, e.loan@ as int, e.kind))),
{
    let count = body.loans.len();
    let mut index: usize = 0;
    while index < count
        invariant
            count == body.loans@.len(),
            index <= count,
            body.addressable(),
            strictly_sorted(errors@),
            errors_in_body(*body, old(errors)@) ==> errors_in_body(*body, errors@),
            forall|e: LoanError|
                errors@.contains(e) <==> (old(errors)@.contains(e) || (e.block is None && e.loan@
                    < index && declaration_error(*body, e.loan@ as int, e.kind))),
        decreases count - index,
    {
        let loan = body.loans[index];
        let expected = LoanId::from_index(index);
        let ghost before = errors@;
        if loan.id != expected {
            record_error(body, errors, LoanError { block: None, loan: expected, kind: LoanErrorKind::InvalidIdentity });
        }
        let source_invalid = loan.source.local.index() >= body.locals.len() || match loan.source.projection {
            Some(projection) => projection.index() >= body.projections.len()
                || body.projections[projection.index()].base != loan.source.local,
            None => false,
        };
        if source_invalid {
            record_error(body, errors, LoanError { block: None, loan: expected, kind: LoanErrorKind::InvalidSource });
        }
        let destination_valid = loan.destination.index() < body.locals.len() && match (
            loan.kind,
            body.locals[loan.destination.index()].ownership,
        ) {
            (BorrowKind::Readonly, OwnershipKind::Borrowed { readwrite: false }) => true,
            (BorrowKind::Readwrite, OwnershipKind::Borrowed { readwrite: true }) => true,
            _ => false,
        };
        if !destination_valid {
            record_error(body, errors, LoanError { block: None, loan: expected, kind: LoanErrorKind::InvalidDestination });
        }
        if loan.scope.index() >= body.scopes.len() {
            record_error(body, errors, LoanError { block: None, loan: expected, kind: LoanErrorKind::InvalidScope });
        }
        proof {
            assert forall|e: LoanError|
                errors@.contains(e) <==> (old(errors)@.contains(e) || (e.block is None && e.loan@
                    < index + 1 && declaration_error(*body, e.loan@ as int, e.kind))) by {
                if e.block is None && e.loan@ == index && declaration_error(*body, e.loan@ as int, e.kind) {
                    assert(e.loan == expected);
                }
            }
        }
        index = index + 1;
    }
}


/// Every present entry state fits `body`.
pub open spec fn entries_fit(body: Body, entries: Seq<Option<LoanState>>) -> bool {
    forall|i: int| 0 <= i < entries.len() ==> (#[trigger] entries[i] matches Some(state) ==> state.fits(body))
}

/// The measure of an absent entry: more than any fitting state.
pub open spec fn ceiling(body: Body) -> nat {
    2 * word_count(body.loans@.len()) * 64 + 1
}

/// Twice the total entry measure plus the queue length.
pub open spec fn progress(body: Body, entries: Seq<Option<LoanState>>, queue: Seq<BasicBlockId>) -> nat {
    2 * total_measure(entries, ceiling(body)) + queue.len()
}

/// Merges `incoming` into the entry of `target`: possibly active loans are
/// united, definitely active loans intersected; a changed entry queues
/// `target`.
pub fn merge_entry(
    entries: &mut Vec<Option<LoanState>>,
    queue: &mut VecDeque<BasicBlockId>,
    target: BasicBlockId,
    incoming: LoanState,
    body: &Body,
)
    requires
        entries_fit(*body, old(entries)@),
        incoming.fits(*body),
    ensures
        final(entries)@.len() == old(entries)@.len(),
        entries_fit(*body, final(entries)@),
        progress(*body, final(entries)@, final(queue)@) <= progress(*body, old(entries)@, old(queue)@),
        forall|i: int| 0 <= i < old(entries)@.len() && i != target@ ==> final(entries)@[i] == old(entries)@[i],
        target@ < old(entries)@.len() ==> (final(entries)@[target@ as int] matches Some(state) && match old(
            entries,
        )@[target@ as int] {
            None => state.may_active@ == incoming.may_active@ && state.must_active@ == incoming.must_active@,
            Some(existing) => state.may_active@ == existing.may_active@.union(incoming.may_active@)
                && state.must_active@ == existing.must_active@.intersect(incoming.must_active@),
        }),
        entry_views(final(entries)@) == merged(entry_views(old(entries)@), target, incoming@),
        queue_follows(old(queue)@, final(queue)@, entry_views(old(entries)@), entry_views(final(entries)@)),
{
    let index = target.index();
    if index >= entries.len() {
        return;
    }
    let merged = match &entries[index] {
        None => {
            proof {
                incoming.may_active.lemma_bounded();
                incoming.must_active.lemma_bounded();
            }
            incoming
        },
        Some(existing) => {
            let mut merged = existing.duplicate();
            let may_changed = merged.may_active.union_with(&incoming.may_active);
            let must_changed = merged.must_active.intersect_with(&incoming.must_active);
            if !(may_changed || must_changed) {
                return;
            }
            proof {
                existing.may_active.lemma_bounded();
                existing.must_active.lemma_bounded();
                merged.may_active.lemma_bounded();
                merged.must_active.lemma_bounded();
                vstd::set_lib::lemma_len_subset(existing.may_active@, merged.may_active@);
                vstd::set_lib::lemma_len_subset(merged.must_active@, existing.must_active@);
                if may_changed {
                    lemma_strict_subset_len(merged.may_active@, existing.may_active@);
                }
                if must_changed {
                    lemma_strict_subset_len(existing.must_active@, merged.must_active@);
                }
            }
            merged
        },
    };
    proof {
        lemma_total_update(entries@, ceiling(*body), index as int, Some(merged));
    }
    let ghost before = entries@;
    let ghost queued = queue@;
    entries.set(index, Some(merged));
    queue.push_back(target);
    proof {
        assert(entry_views(entries@) =~= crate::loans_flow::merged(
            entry_views(before),
            target,
            incoming@,
        ));
        assert(BasicBlockId::at(index as int) == target);
        assert(queue@ == queued.push(target));
        assert forall|q: BasicBlockId| #[trigger] queue@.contains(q) implies queued.contains(q) || q
            == target by {
            let k = choose|k: int| 0 <= k < queue@.len() && queue@[k] == q;
            if k < queued.len() {
                assert(queued[k] == q);
            }
        }
        assert forall|q: BasicBlockId| #[trigger] queued.contains(q) implies queue@.contains(q) by {
            let k = choose|k: int| 0 <= k < queued.len() && queued[k] == q;
            assert(queue@[k] == q);
        }
        assert(queue@[queued.len() as int] == target);
    }
}

/// Begins loan `loan`: reports an unknown loan, a loan begun twice, and each
/// possibly active loan it conflicts with, then marks it active.
fn begin_loan(body: &Body, block_id: BasicBlockId, loan: LoanId, state: &mut LoanState, errors: &mut Vec<LoanError>)
    requires
        old(state).fits(*body),
        body.addressable(),
        block_id@ < body.blocks@.len(),
        strictly_sorted(old(errors)@),
        errors_in_body(*body, old(errors)@),
    ensures
        final(state).fits(*body),
        strictly_sorted(final(errors)@),
        errors_in_body(*body, final(errors)@),
        loan@ < body.loans@.len() ==> final(state).may_active@ == old(state).may_active@.insert(loan@)
            && final(state).must_active@ == old(state).must_active@.insert(loan@),
        loan@ >= body.loans@.len() ==> final(state)@ == old(state)@,
        forall|e: LoanError|
            final(errors)@.contains(e) <==> (old(errors)@.contains(e) || (e.block == Some(block_id)
                && e.loan == loan && ((e.kind == LoanErrorKind::InvalidIdentity && loan@ >= body.loans@.len())
                || (e.kind == LoanErrorKind::AlreadyActive && loan@ < body.loans@.len()
                && old(state).may_active@.contains(loan@)) || (e.kind == LoanErrorKind::ConflictingBorrow
                && exists|other: int| conflicts_with(*body, old(state).may_active@, other, loan))))),
{
    if loan.index() >= body.loans.len() {
        record_error(body, errors, LoanError { block: Some(block_id), loan, kind: LoanErrorKind::InvalidIdentity });
        return;
    }
    let declaration = body.loans[loan.index()];
    if state.may_active.contains(loan) {
        record_error(body, errors, LoanError { block: Some(block_id), loan, kind: LoanErrorKind::AlreadyActive });
    }
    let ghost middle = errors@;
    let count = body.loans.len();
    let mut index: usize = 0;
    let mut conflicting = false;
    while index < count
        invariant
            count == body.loans@.len(),
            index <= count,
            loan@ < count,
            declaration == body.loans@[loan@ as int],
            body.addressable(),
            conflicting == exists|other: int| 0 <= other < index && conflicts_with(*body, state.may_active@, other, loan),
        decreases count - index,
    {
        let other = body.loans[index];
        if state.may_active.contains(LoanId::from_index(index)) && overlap(body, other.source, declaration.source)
            && (other.kind == BorrowKind::Readwrite || declaration.kind == BorrowKind::Readwrite) {
            conflicting = true;
            assert(conflicts_with(*body, state.may_active@, index as int, loan));
        }
        index = index + 1;
    }
    if conflicting {
        record_error(body, errors, LoanError { block: Some(block_id), loan, kind: LoanErrorKind::ConflictingBorrow });
    }
    state.may_active.insert(loan);
    state.must_active.insert(loan);
    proof {
        state.may_active.lemma_bounded();
    }
}

/// Applies the statements of one block to the loan state.
fn apply_statements(body: &Body, block_id: BasicBlockId, state: &mut LoanState, errors: &mut Vec<LoanError>)
    requires
        old(state).fits(*body),
        body.addressable(),
        block_id@ < body.blocks@.len(),
        strictly_sorted(old(errors)@),
        errors_in_body(*body, old(errors)@),
    ensures
        final(state).fits(*body),
        strictly_sorted(final(errors)@),
        errors_in_body(*body, final(errors)@),
        final(state)@ == statements_step(
            *body,
            old(state)@,
            body.blocks@[block_id@ as int].statements@,
            block_id,
        ).1,
        forall|e: LoanError|
            #[trigger] final(errors)@.contains(e) <==> (old(errors)@.contains(e) || statements_step(
                *body,
                old(state)@,
                body.blocks@[block_id@ as int].statements@,
                block_id,
            ).0.contains(e)),
{
    let statements = &body.blocks[block_id.index()].statements;
    let ghost start = state@;
    let ghost start_errors = errors@;
    let mut statement_index: usize = 0;
    proof {
        assert(statements@.take(0) =~= Seq::<Statement>::empty());
    }
    while statement_index < statements.len()
        invariant
            statements == &body.blocks@[block_id@ as int].statements,
            statement_index <= statements@.len(),
            state.fits(*body),
            body.addressable(),
            block_id@ < body.blocks@.len(),
            strictly_sorted(errors@),
            errors_in_body(*body, errors@),
            state@ == statements_step(*body, start, statements@.take(statement_index as int), block_id).1,
            forall|e: LoanError|
                #[trigger] errors@.contains(e) <==> (start_errors.contains(e) || statements_step(
                    *body,
                    start,
                    statements@.take(statement_index as int),
                    block_id,
                ).0.contains(e)),
        decreases statements@.len() - statement_index,
    {
        let ghost before = state@;
        let ghost before_errors = errors@;
        let ghost step = statement_step(*body, before, statements@[statement_index as int], block_id);
        match &statements[statement_index] {
            Statement::Assign { destination, value, .. } => {
                reject_mutation(body, block_id, *destination, state, errors);
                reject_rvalue_moves(body, block_id, value, state, errors);
            },
            Statement::BeginLoan { loan, .. } => {
                begin_loan(body, block_id, *loan, state, errors);
                proof {
                    assert forall|e: LoanError| #[trigger] errors@.contains(e) <==> (before_errors.contains(e)
                        || begin_errors(*body, before, *loan, block_id).contains(e)) by {}
                }
            },
            Statement::EndLoan { loan } => {
                if !state.must_active.contains(*loan) {
                    record_error(
                        body,
                        errors,
                        LoanError { block: Some(block_id), loan: *loan, kind: LoanErrorKind::EndOfInactive },
                    );
                }
                state.may_active.remove(*loan);
                state.must_active.remove(*loan);
            },
            Statement::BeginAggregate { .. }
            | Statement::FinishAggregate { .. }
            | Statement::EnterRegion { .. }
            | Statement::ExitRegion { .. }
            | Statement::ExitAllocationContext { .. } => {},
        }
        proof {
            assert(state@ == step.1);
            assert(forall|e: LoanError|
                #[trigger] errors@.contains(e) <==> (before_errors.contains(e) || step.0.contains(e)));
            assert(statements@.take(statement_index + 1).drop_last() =~= statements@.take(
                statement_index as int,
            ));
        }
        statement_index = statement_index + 1;
    }
    proof {
        assert(statements@.take(statement_index as int) =~= statements@);
    }
}

/// The errors, entries and queue after a terminator reported `errors_added`
/// and sent `edges`: the errors were added and the edges joined into their
/// targets.
pub open spec fn flow_applied(
    old_errors: Seq<LoanError>,
    new_errors: Seq<LoanError>,
    old_entries: Seq<Option<LoanState>>,
    new_entries: Seq<Option<LoanState>>,
    old_queue: Seq<BasicBlockId>,
    new_queue: Seq<BasicBlockId>,
    errors_added: Set<LoanError>,
    edges: Seq<(BasicBlockId, Activity)>,
) -> bool {
    &&& forall|e: LoanError|
        #[trigger] new_errors.contains(e) <==> (old_errors.contains(e) || errors_added.contains(e))
    &&& entry_views(new_entries) == merged_all(entry_views(old_entries), edges)
    &&& queue_follows(old_queue, new_queue, entry_views(old_entries), entry_views(new_entries))
}

/// Applies the terminator of `block_id` and propagates its states, or
/// reports loans live at an exit.
fn apply_terminator(
    body: &Body,
    block_id: BasicBlockId,
    state: LoanState,
    entries: &mut Vec<Option<LoanState>>,
    queue: &mut VecDeque<BasicBlockId>,
    errors: &mut Vec<LoanError>,
)
    requires
        state.fits(*body),
        body.addressable(),
        block_id@ < body.blocks@.len(),
        strictly_sorted(old(errors)@),
        errors_in_body(*body, old(errors)@),
        entries_fit(*body, old(entries)@),
    ensures
        strictly_sorted(final(errors)@),
        errors_in_body(*body, final(errors)@),
        final(entries)@.len() == old(entries)@.len(),
        entries_fit(*body, final(entries)@),
        progress(*body, final(entries)@, final(queue)@) <= progress(*body, old(entries)@, old(queue)@),
        flow_applied(
            old(errors)@,
            final(errors)@,
            old(entries)@,
            final(entries)@,
            old(queue)@,
            final(queue)@,
            terminator_flow(*body, state@, body.blocks@[block_id@ as int].terminator, block_id).0,
            terminator_flow(*body, state@, body.blocks@[block_id@ as int].terminator, block_id).1,
        ),
{
    let ghost start = state@;
    let ghost start_errors = errors@;
    let ghost entries0 = entry_views(entries@);
    let ghost queue0 = queue@;
    match &body.blocks[block_id.index()].terminator {
        Terminator::Goto { target } => {
            merge_entry(entries, queue, *target, state, body);
            proof {
                lemma_merged_one(entries0, *target, start);
            }
        },
        Terminator::Switch { condition, then_target, else_target, .. } => {
            reject_operand_move(body, block_id, condition, &state, errors);
            let then_state = state.duplicate();
            merge_entry(entries, queue, *then_target, then_state, body);
            let ghost entries1 = entry_views(entries@);
            let ghost queue1 = queue@;
            merge_entry(entries, queue, *else_target, state, body);
            proof {
                lemma_merged_two(entries0, (*then_target, start), (*else_target, start));
                lemma_queue_follows_trans(queue0, queue1, queue@, entries0, entries1, entry_views(entries@));
            }
        },
        Terminator::Call { arguments, continuation, .. } => {
            let ghost operands = argument_operands(arguments@);
            let mut index: usize = 0;
            proof {
                assert(operands.take(0) =~= Seq::<Operand>::empty());
            }
            while index < arguments.len()
                invariant
                    index <= arguments@.len(),
                    operands == argument_operands(arguments@),
                    start == state@,
                    body.addressable(),
                    block_id@ < body.blocks@.len(),
                    strictly_sorted(errors@),
                    errors_in_body(*body, errors@),
                    forall|e: LoanError|
                        #[trigger] errors@.contains(e) <==> (start_errors.contains(e) || moves_errors(
                            *body,
                            start,
                            operands.take(index as int),
                            block_id,
                        ).contains(e)),
                decreases arguments@.len() - index,
            {
                reject_operand_move(body, block_id, &arguments[index].operand, &state, errors);
                proof {
                    assert(operands[index as int] == arguments@[index as int].operand);
                    assert(operands.take(index + 1).drop_last() =~= operands.take(index as int));
                }
                index = index + 1;
            }
            proof {
                assert(operands.take(index as int) =~= operands);
            }
            match continuation {
                CallContinuation::Continue { target } | CallContinuation::Return { target, .. } => {
                    merge_entry(entries, queue, *target, state, body);
                    proof {
                        lemma_merged_one(entries0, *target, start);
                    }
                },
                CallContinuation::Outcome { success, failure, .. }
                | CallContinuation::OutcomeEffect { success, failure, .. } => {
                    let failure_state = state.duplicate();
                    merge_entry(entries, queue, *success, state, body);
                    let ghost entries1 = entry_views(entries@);
                    let ghost queue1 = queue@;
                    merge_entry(entries, queue, *failure, failure_state, body);
                    proof {
                        lemma_merged_two(entries0, (*success, start), (*failure, start));
                        lemma_queue_follows_trans(queue0, queue1, queue@, entries0, entries1, entry_views(entries@));
                    }
                },
                CallContinuation::Never => {
                    reject_live_at_exit(body, block_id, &state, errors);
                    proof {
                        lemma_queue_follows_same(queue0, entries0);
                    }
                },
            }
        },
        Terminator::InspectOutcome { source, success, failure, .. } => {
            reject_operand_move(body, block_id, source, &state, errors);
            let failure_state = state.duplicate();
            merge_entry(entries, queue, *success, state, body);
            let ghost entries1 = entry_views(entries@);
            let ghost queue1 = queue@;
            merge_entry(entries, queue, *failure, failure_state, body);
            proof {
                lemma_merged_two(entries0, (*success, start), (*failure, start));
                lemma_queue_follows_trans(queue0, queue1, queue@, entries0, entries1, entry_views(entries@));
            }
        },
        Terminator::Drop { place, target, .. } => {
            reject_move(body, block_id, *place, &state, errors);
            merge_entry(entries, queue, *target, state, body);
            proof {
                lemma_merged_one(entries0, *target, start);
            }
        },
        Terminator::ReturnValue { source }
        | Terminator::ReturnOutcome { source }
        | Terminator::ReturnOutcomeSuccess { source } => {
            reject_operand_move(body, block_id, source, &state, errors);
            reject_live_at_exit(body, block_id, &state, errors);
            proof {
                lemma_queue_follows_same(queue0, entries0);
            }
        },
        Terminator::ReturnFailure { code, message } => {
            reject_operand_move(body, block_id, code, &state, errors);
            reject_operand_move(body, block_id, message, &state, errors);
            reject_live_at_exit(body, block_id, &state, errors);
            proof {
                lemma_queue_follows_same(queue0, entries0);
            }
        },
        Terminator::Return
        | Terminator::ReturnOptionalNone
        | Terminator::Trap
        | Terminator::PropagateFailure => {
            reject_live_at_exit(body, block_id, &state, errors);
            proof {
                lemma_queue_follows_same(queue0, entries0);
            }
        },
    }
}

/// The loans definitely active after the statements of one block.
pub struct ExitLoans {
    pub block: BasicBlockId,
    pub active: LoanSet,
}

/// The latest recorded set for each block.
pub open spec fn exit_map(records: Seq<ExitLoans>) -> Map<BasicBlockId, Set<nat>>
    decreases records.len(),
{
    if records.len() == 0 {
        Map::empty()
    } else {
        let last = records.last();
        exit_map(records.drop_last()).insert(last.block, last.active@)
    }
}

/// The result of loan analysis of one body.
pub struct LoanAnalysis {
    errors: Vec<LoanError>,
    exits: Vec<ExitLoans>,
}

impl LoanAnalysis {
    /// The analysis describes `body`.
    pub open spec fn wf(&self, body: Body) -> bool {
        strictly_sorted(self.errors_seq()) && errors_in_body(body, self.errors_seq())
    }

    /// The loans definitely active after the statements of each reached block.
    pub closed spec fn active_at_exit(&self) -> Map<BasicBlockId, Set<nat>> {
        exit_map(self.exits@)
    }

    /// The reported errors.
    pub closed spec fn errors_seq(&self) -> Seq<LoanError> {
        self.errors@
    }

    /// Whether `loan` is definitely active after the statements of `block`.
    pub fn definitely_active_at_exit(&self, block: BasicBlockId, loan: LoanId) -> (active: bool)
        ensures
            active == (self.active_at_exit().contains_key(block) && self.active_at_exit()[block].contains(
                loan@,
            )),
    {
        let mut index = self.exits.len();
        assert(self.exits@.subrange(0, index as int) =~= self.exits@);
        while index > 0
            invariant
                index <= self.exits@.len(),
                exit_map(self.exits@.subrange(0, index as int)).contains_key(block) == self.active_at_exit().contains_key(block),
                exit_map(self.exits@.subrange(0, index as int)).contains_key(block) ==> exit_map(self.exits@.subrange(0, index as int))[block] == self.active_at_exit()[block],
            decreases index,
        {
            let ghost prefix = self.exits@.subrange(0, index as int);
            assert(prefix.drop_last() =~= self.exits@.subrange(0, index - 1));
            let record = &self.exits[index - 1];
            if record.block == block {
                return record.active.contains(loan);
            }
            index = index - 1;
        }
        false
    }
}

/// The malformed declarations of `body`, as errors without a block.
pub open spec fn declaration_errors(body: Body) -> Set<LoanError> {
    Set::new(
        |e: LoanError|
            e.block is None && e.loan@ < body.loans@.len() && declaration_error(body, e.loan@ as int, e.kind),
    )
}

/// The loan errors of `body`: its malformed declarations, and the errors of
/// every reachable block entered with its state in the loan solution.
pub open spec fn loan_errors(body: Body) -> Set<LoanError> {
    if body.entry@ < body.blocks@.len() {
        declaration_errors(body).union(solution_errors(body, solution(body)))
    } else {
        declaration_errors(body)
    }
}

/// Runs loan analysis over every block reachable from the entry block:
/// malformed declarations, conflicting or repeated borrows, ends of inactive
/// loans, writes and moves of borrowed places, and loans live at exits.
pub fn analyze(body: &Body) -> (analysis: LoanAnalysis)
    requires
        body.addressable(),
    ensures
        analysis.wf(*body),
        error_set(analysis.errors_seq()) == loan_errors(*body),
        analysis.active_at_exit() == if body.entry@ < body.blocks@.len() {
            solution_active(*body, solution(*body))
        } else {
            Map::<BasicBlockId, Set<nat>>::empty()
        },
{
    let mut errors: Vec<LoanError> = Vec::new();
    validate_declarations(body, &mut errors);
    let mut exits: Vec<ExitLoans> = Vec::new();
    let ghost declared = error_set(errors@);
    proof {
        assert(declared =~= declaration_errors(*body));
    }
    let block_count = body.blocks.len();
    if body.entry.index() >= block_count {
        let analysis = LoanAnalysis { errors, exits };
        proof {
            assert(analysis.active_at_exit() =~= Map::<BasicBlockId, Set<nat>>::empty());
        }
        return analysis;
    }
    let initial = LoanSet::new(body.loans.len());
    let mut entries: Vec<Option<LoanState>> = Vec::new();
    while entries.len() < block_count
        invariant
            entries@.len() <= block_count,
            entries_fit(*body, entries@),
            forall|i: int| 0 <= i < entries@.len() ==> (#[trigger] entries@[i]) is None,
        decreases block_count - entries@.len(),
    {
        entries.push(None);
    }
    let must_active = initial.clone();
    let initial_state = LoanState { may_active: initial, must_active };
    let ghost initial_view = initial_state@;
    entries.set(body.entry.index(), Some(initial_state));
    let mut queue: VecDeque<BasicBlockId> = VecDeque::new();
    queue.push_back(body.entry);
    let ghost mut found = Set::<LoanError>::empty();
    proof {
        let views = entry_views(entries@);
        let entry = body.entry@ as int;
        assert(views[entry] == Some(initial_view));
        assert(initial_view.0 =~= Set::<nat>::empty());
        assert(initial_view.1 =~= Set::<nat>::empty());
        assert(reachable_within(*body, entry, 0));
        assert(forall|b: int| 0 <= b < views.len() && b != entry ==> views[b] is None);
        assert(queue@ == seq![body.entry]);
        assert(BasicBlockId::at(entry) == body.entry);
        assert(exit_map(exits@) == Map::<BasicBlockId, Set<nat>>::empty());
        assert(error_set(errors@) =~= declared.union(found));
        assert forall|b: int| 0 <= b < views.len() && (#[trigger] views[b]) is Some implies reachable(
            *body,
            b,
        ) by {
            assert(b == entry);
        }
        assert forall|b: int|
            0 <= b < views.len() && !queue@.contains(BasicBlockId::at(b)) implies #[trigger] settled(
            *body,
            views,
            b,
            found,
            exit_map(exits@),
        ) by {
            if b == entry {
                assert(queue@[0] == BasicBlockId::at(b));
            }
        }
        assert forall|q: BasicBlockId| #[trigger] queue@.contains(q) implies q@ < views.len()
            && views[q@ as int] is Some by {
            assert(q == body.entry);
        }
    }
    loop
        invariant
            body.addressable(),
            block_count == body.blocks@.len(),
            body.entry@ < block_count,
            entries@.len() == block_count,
            entries_fit(*body, entries@),
            strictly_sorted(errors@),
            errors_in_body(*body, errors@),
            declared == declaration_errors(*body),
            error_set(errors@) == declared.union(found),
            worklist_invariant(*body, entry_views(entries@), queue@, found, exit_map(exits@)),
        ensures
            worklist_invariant(*body, entry_views(entries@), Seq::empty(), found, exit_map(exits@)),
            strictly_sorted(errors@),
            errors_in_body(*body, errors@),
            error_set(errors@) == declared.union(found),
        decreases progress(*body, entries@, queue@),
    {
        let ghost queued = queue@;
        let ghost views = entry_views(entries@);
        let ghost errors_before = errors@;
        let ghost exits_before = exit_map(exits@);
        let next = queue.pop_front();
        let block_id = match next {
            None => {
                proof {
                    assert(queued =~= Seq::<BasicBlockId>::empty());
                }
                break;
            },
            Some(block_id) => block_id,
        };
        proof {
            assert(queued[0] == block_id);
            assert(queued.contains(block_id));
        }
        if block_id.index() >= block_count {
            continue;
        }
        let mut state = match &entries[block_id.index()] {
            None => {
                continue;
            },
            Some(state) => state.duplicate(),
        };
        let ghost entry_state = state@;
        apply_statements(body, block_id, &mut state, &mut errors);
        let ghost after_statements = state@;
        let ghost errors_middle = errors@;
        let ghost records_before = exits@;
        exits.push(ExitLoans { block: block_id, active: state.must_active.clone() });
        proof {
            assert(exits@.drop_last() =~= records_before);
        }
        apply_terminator(body, block_id, state, &mut entries, &mut queue, &mut errors);
        proof {
            let flow = block_flow(*body, block_id, entry_state);
            let statements = statements_step(
                *body,
                entry_state,
                body.blocks@[block_id@ as int].statements@,
                block_id,
            );
            let end = terminator_flow(
                *body,
                after_statements,
                body.blocks@[block_id@ as int].terminator,
                block_id,
            );
            assert(statements.1 == after_statements);
            assert(flow.errors == statements.0.union(end.0));
            assert(forall|e: LoanError|
                #[trigger] errors_middle.contains(e) <==> (errors_before.contains(e)
                    || statements.0.contains(e)));
            assert(forall|e: LoanError|
                #[trigger] errors@.contains(e) <==> (errors_middle.contains(e) || end.0.contains(e)));
            assert(views[block_id@ as int] == Some(entry_state));
            assert forall|e: LoanError| #[trigger] error_set(errors@).contains(e) == declared.union(
                found.union(flow.errors),
            ).contains(e) by {
                assert(error_set(errors_before).contains(e) == errors_before.contains(e));
                assert(declared.union(found).contains(e) == error_set(errors_before).contains(e));
            }
            assert(error_set(errors@) =~= declared.union(found.union(flow.errors)));
            assert(exit_map(exits@) == exits_before.insert(block_id, flow.after_statements.1));
            lemma_worklist_step(
                *body,
                views,
                queued,
                found,
                exits_before,
                entry_views(entries@),
                queue@,
                found.union(flow.errors),
                exit_map(exits@),
            );
            found = found.union(flow.errors);
        }
    }
    proof {
        lemma_worklist_done(*body, entry_views(entries@), found, exit_map(exits@));
        lemma_is_solution(*body, entry_views(entries@));
    }
    LoanAnalysis { errors, exits }
}

/// The distinct errors of `errors`, ordered by block (errors of
/// declarations last), loan and kind.
pub fn sorted(errors: Vec<LoanError>) -> (ordered: Vec<LoanError>)
    ensures
        strictly_sorted(ordered@),
        forall|error: LoanError| #[trigger] ordered@.contains(error) <==> errors@.contains(error),
{
    let mut ordered: Vec<LoanError> = Vec::new();
    let mut index: usize = 0;
    while index < errors.len()
        invariant
            index <= errors@.len(),
            strictly_sorted(ordered@),
            forall|error: LoanError| #[trigger] ordered@.contains(error) <==> errors@.take(index as int).contains(error),
        decreases errors@.len() - index,
    {
        let ghost before = ordered@;
        insert_sorted(&mut ordered, errors[index]);
        proof {
            let next = errors@.take(index + 1);
            assert(next =~= errors@.take(index as int).push(errors@[index as int]));
            assert forall|error: LoanError| #[trigger] ordered@.contains(error) <==> next.contains(error) by {
                assert(ordered@.contains(error) <==> (before.contains(error) || error == errors@[index as int]));
                if error == errors@[index as int] {
                    assert(next[index as int] == error);
                }
                if next.contains(error) {
                    let k = choose|k: int| 0 <= k < next.len() && next[k] == error;
                    if k < index {
                        assert(errors@.take(index as int)[k] == error);
                    }
                }
                if errors@.take(index as int).contains(error) {
                    let k = choose|k: int| 0 <= k < index && errors@.take(index as int)[k] == error;
                    assert(next[k] == error);
                }
            }
        }
        index = index + 1;
    }
    assert(errors@.take(errors@.len() as int) =~= errors@);
    ordered
}

/// The loan errors of `body`, each reported once, ordered by block (errors
/// of declarations last), loan and kind.
pub fn validate(body: &Body) -> (errors: Vec<LoanError>)
    requires
        body.addressable(),
    ensures
        strictly_sorted(errors@),
        errors_in_body(*body, errors@),
        forall|error: LoanError| #[trigger] errors@.contains(error) <==> loan_errors(*body).contains(error),
{
    let analysis = analyze(body);
    proof {
        assert forall|error: LoanError| #[trigger] analysis.errors@.contains(error) <==> loan_errors(
            *body,
        ).contains(error) by {
            assert(error_set(analysis.errors_seq()).contains(error) == analysis.errors@.contains(error));
        }
    }
    let ordered = sorted(analysis.errors);
    proof {
        assert forall|i: int| 0 <= i < ordered@.len() implies ((#[trigger] ordered@[i]).block matches Some(
            block,
        ) ==> block@ < body.blocks@.len()) by {
            assert(ordered@.contains(ordered@[i]));
            let k = choose|k: int| 0 <= k < analysis.errors@.len() && analysis.errors@[k] == ordered@[i];
        }
    }
    ordered
}

} // verus!
