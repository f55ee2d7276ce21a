//! Termination measure shared by the worklist dataflow analyses.
//!
//! Each analysis keeps an optional entry state per block. Merging an incoming
//! state into an entry either leaves it unchanged or strictly lowers the
//! entry's measure, and only a change re-queues the block; so twice the sum of
//! the measures plus the queue length drops on every iteration.

use vstd::prelude::*;

verus! {

/// A dataflow state with a measure that every change lowers.
pub trait FlowState: Sized {
    spec fn measure(&self) -> nat;
}

/// Measure of an entry: an absent entry counts `ceiling`.
pub open spec fn entry_measure<S: FlowState>(entry: Option<S>, ceiling: nat) -> nat {
    match entry {
        None => ceiling,
        Some(state) => state.measure(),
    }
}

/// Sum of the measures of all entries.
pub open spec fn total_measure<S: FlowState>(entries: Seq<Option<S>>, ceiling: nat) -> nat
    decreases entries.len(),
{
    if entries.len() == 0 {
        0
    } else {
        total_measure(entries.drop_last(), ceiling) + entry_measure(entries.last(), ceiling)
    }
}

/// Replacing one entry changes the sum by the difference of the two measures.
pub proof fn lemma_total_update<S: FlowState>(entries: Seq<Option<S>>, ceiling: nat, index: int, entry: Option<S>)
    requires
        0 <= index < entries.len(),
    ensures
        total_measure(entries.update(index, entry), ceiling) + entry_measure(entries[index], ceiling)
            == total_measure(entries, ceiling) + entry_measure(entry, ceiling),
    decreases entries.len(),
{
    let updated = entries.update(index, entry);
    if index == entries.len() - 1 {
        assert(updated.drop_last() =~= entries.drop_last());
    } else {
        lemma_total_update(entries.drop_last(), ceiling, index, entry);
        assert(updated.drop_last() =~= entries.drop_last().update(index, entry));
    }
}

/// A strict subset of a finite set is smaller.
pub proof fn lemma_strict_subset_len<A>(whole: Set<A>, part: Set<A>)
    requires
        whole.finite(),
        part.subset_of(whole),
        part != whole,
    ensures
        part.len() < whole.len(),
{
    if forall|x: A| whole.contains(x) ==> part.contains(x) {
        assert(part =~= whole);
    }
    let x = choose|x: A| whole.contains(x) && !part.contains(x);
    assert(part.subset_of(whole.remove(x)));
    vstd::set_lib::lemma_len_subset(part, whole.remove(x));
}

} // verus!
