//! Ordered, duplicate-free collections of diagnostics.
//!
//! Validation reports each distinct error once, ordered by a key that
//! identifies the error. Keeping the list strictly ordered while it is built
//! gives both properties at once.

use vstd::prelude::*;

verus! {

/// A five-component ordering key.
pub type SortKey = (u64, u64, u64, u64, u64);

/// Lexicographic order on keys.
pub open spec fn key_less(a: SortKey, b: SortKey) -> bool {
    a.0 < b.0 || (a.0 == b.0 && (a.1 < b.1 || (a.1 == b.1 && (a.2 < b.2 || (a.2 == b.2 && (a.3
        < b.3 || (a.3 == b.3 && a.4 < b.4)))))))
}

/// A value identified by its ordering key.
pub trait Keyed: Copy + Sized {
    spec fn key_of(self) -> SortKey;

    fn sort_key(&self) -> (key: SortKey)
        ensures
            key == self.key_of(),
    ;

    proof fn lemma_key_identifies(a: Self, b: Self)
        requires
            a.key_of() == b.key_of(),
        ensures
            a == b,
    ;
}

/// Every element's key is smaller than the keys of all later elements.
pub open spec fn strictly_sorted<E: Keyed>(items: Seq<E>) -> bool {
    forall|i: int, j: int|
        0 <= i < j < items.len() ==> key_less(#[trigger] items[i].key_of(), #[trigger] items[j].key_of())
}

/// Whether key `a` orders before key `b`.
pub fn key_precedes(a: SortKey, b: SortKey) -> (less: bool)
    ensures
        less == key_less(a, b),
{
    a.0 < b.0 || (a.0 == b.0 && (a.1 < b.1 || (a.1 == b.1 && (a.2 < b.2 || (a.2 == b.2 && (a.3
        < b.3 || (a.3 == b.3 && a.4 < b.4)))))))
}

/// Adds `item` to a strictly sorted list unless it is already present.
pub fn insert_sorted<E: Keyed>(items: &mut Vec<E>, item: E)
    requires
        strictly_sorted(old(items)@),
    ensures
        strictly_sorted(final(items)@),
        forall|x: E| final(items)@.contains(x) <==> (old(items)@.contains(x) || x == item),
{
    let key = item.sort_key();
    let mut position: usize = 0;
    while position < items.len()
        invariant
            position <= items@.len(),
            items@ == old(items)@,
            key == item.key_of(),
            strictly_sorted(items@),
            forall|i: int| 0 <= i < position ==> key_less(#[trigger] items@[i].key_of(), key),
        ensures
            position <= items@.len(),
            items@ == old(items)@,
            forall|i: int| 0 <= i < position ==> key_less(#[trigger] items@[i].key_of(), key),
            position < items@.len() ==> !key_less(items@[position as int].key_of(), key),
        decreases items@.len() - position,
    {
        if !key_precedes(items[position].sort_key(), key) {
            break;
        }
        position = position + 1;
    }
    if position < items.len() && !key_precedes(key, items[position].sort_key()) {
        proof {
            E::lemma_key_identifies(items@[position as int], item);
            assert(items@[position as int] == item);
            assert(old(items)@.contains(item));
            assert(items@ == old(items)@);
            assert(forall|x: E| items@.contains(x) <==> (old(items)@.contains(x) || x == item));
        }
    } else {
        let ghost before = items@;
        items.insert(position, item);
        proof {
            assert forall|i: int, j: int| 0 <= i < j < items@.len() implies key_less(
                #[trigger] items@[i].key_of(),
                #[trigger] items@[j].key_of(),
            ) by {
                if j == position {
                    assert(key_less(before[i].key_of(), key));
                } else if i == position {
                    assert(items@[j] == before[j - 1]);
                    if j - 1 > position {
                        assert(key_less(before[position as int].key_of(), before[j - 1].key_of()));
                    }
                } else {
                    if i < position && j > position {
                        assert(items@[j] == before[j - 1]);
                        assert(key_less(before[i].key_of(), key));
                        if j - 1 > position {
                            assert(key_less(before[position as int].key_of(), before[j - 1].key_of()));
                        }
                    }
                }
            }
            assert forall|x: E| items@.contains(x) <==> (old(items)@.contains(x) || x == item) by {
                assert(before == old(items)@);
                if items@.contains(x) {
                    let k = choose|k: int| 0 <= k < items@.len() && items@[k] == x;
                    if k < position {
                        assert(before[k] == x);
                    } else if k > position {
                        assert(before[k - 1] == x);
                    }
                }
                if before.contains(x) {
                    let k = choose|k: int| 0 <= k < before.len() && before[k] == x;
                    if k < position {
                        assert(items@[k] == x);
                    } else {
                        assert(items@[k + 1] == x);
                    }
                }
                if x == item {
                    assert(items@[position as int] == x);
                }
            }
        }
    }
}

} // verus!
