//! Dense sets over typed identity domains local to one MIR body.
//!
//! A set is a vector of 64-bit words; identity `i` is present when bit
//! `i % 64` of word `i / 64` is set. Its meaning is the finite set of indices
//! present, always a subset of `0..capacity`.

use crate::ids::{LoanId, LocalId, ProjectionPathId};
use core::marker::PhantomData;
use vstd::prelude::*;

verus! {

/// An identity that indexes a dense set.
pub trait DenseId: Copy {
    spec fn dense_index(self) -> nat;

    fn index(self) -> (index: usize)
        ensures
            index == self.dense_index(),
    ;
}

impl DenseId for LocalId {
    open spec fn dense_index(self) -> nat {
        self@
    }

    fn index(self) -> (index: usize) {
        LocalId::index(self)
    }
}

impl DenseId for LoanId {
    open spec fn dense_index(self) -> nat {
        self@
    }

    fn index(self) -> (index: usize) {
        LoanId::index(self)
    }
}

impl DenseId for ProjectionPathId {
    open spec fn dense_index(self) -> nat {
        self@
    }

    fn index(self) -> (index: usize) {
        ProjectionPathId::index(self)
    }
}

/// Whether bit `bit` of `word` is set.
pub open spec fn word_bit(word: u64, bit: u64) -> bool {
    (word >> bit) & 1u64 == 1u64
}

/// Number of 64-bit words needed for `count` identities.
pub open spec fn word_count(count: nat) -> nat {
    (count + 63) / 64
}

proof fn lemma_zero_bits(k: u64)
    by (bit_vector)
    requires
        k < 64,
    ensures
        !word_bit(0u64, k),
{
}

proof fn lemma_or_single_bit(w: u64, b: u64, k: u64)
    by (bit_vector)
    requires
        b < 64,
        k < 64,
    ensures
        word_bit(w | (1u64 << b), k) == (k == b || word_bit(w, k)),
{
}

proof fn lemma_clear_single_bit(w: u64, b: u64, k: u64)
    by (bit_vector)
    requires
        b < 64,
        k < 64,
    ensures
        word_bit(w & !(1u64 << b), k) == (k != b && word_bit(w, k)),
{
}

proof fn lemma_test_single_bit(w: u64, b: u64)
    by (bit_vector)
    requires
        b < 64,
    ensures
        (w & (1u64 << b) != 0u64) == word_bit(w, b),
{
}

proof fn lemma_and_bits(a: u64, b: u64, k: u64)
    by (bit_vector)
    requires
        k < 64,
    ensures
        word_bit(a & b, k) == (word_bit(a, k) && word_bit(b, k)),
{
}

proof fn lemma_or_bits(a: u64, b: u64, k: u64)
    by (bit_vector)
    requires
        k < 64,
    ensures
        word_bit(a | b, k) == (word_bit(a, k) || word_bit(b, k)),
{
}

/// Two words that agree on one more bit agree on one more high-order
/// shift: the bits below `n + 1` of `a` and `b` are equal.
proof fn lemma_agree_one_more_bit(a: u64, b: u64, n: u64)
    by (bit_vector)
    requires
        n < 64,
        a << ((64 - n) as u64) == b << ((64 - n) as u64),
        word_bit(a, n) == word_bit(b, n),
    ensures
        a << ((63 - n) as u64) == b << ((63 - n) as u64),
{
}

/// Two words that agree on their bits below `n` agree once shifted so
/// that only those bits remain.
proof fn lemma_low_bits_agree(a: u64, b: u64, n: u64)
    requires
        n <= 64,
        forall|k: u64| k < n ==> word_bit(a, k) == word_bit(b, k),
    ensures
        a << ((64 - n) as u64) == b << ((64 - n) as u64),
    decreases n,
{
    if n == 0 {
        assert(a << 64u64 == b << 64u64) by (bit_vector);
    } else {
        lemma_low_bits_agree(a, b, (n - 1) as u64);
        lemma_agree_one_more_bit(a, b, (n - 1) as u64);
    }
}

/// Two words whose 64 bits agree are equal.
proof fn lemma_bits_determine_word(a: u64, b: u64)
    requires
        forall|k: u64| k < 64 ==> word_bit(a, k) == word_bit(b, k),
    ensures
        a == b,
{
    lemma_low_bits_agree(a, b, 64);
    assert(a << 0u64 == a && b << 0u64 == b) by (bit_vector);
}

/// A set of identities of one kind, stored one bit per identity.
#[derive(Debug, PartialEq, Eq)]
pub struct DenseSet<I> {
    words: Vec<u64>,
    identity: PhantomData<I>,
}

impl<I> View for DenseSet<I> {
    type V = Set<nat>;

    closed spec fn view(&self) -> Set<nat> {
        Set::new(
            |i: nat|
                i < self.words@.len() * 64 && word_bit(self.words@[(i / 64) as int], (i % 64) as u64),
        )
    }
}

impl<I> Clone for DenseSet<I> {
    fn clone(&self) -> (copy: Self)
        ensures
            copy@ == self@,
            copy.capacity() == self.capacity(),
    {
        let words = self.words.clone();
        assert(words@ =~= self.words@);
        DenseSet { words, identity: PhantomData }
    }
}

impl<I> DenseSet<I> {
    /// Number of identities the set can hold.
    pub closed spec fn capacity(&self) -> nat {
        self.words@.len() * 64
    }

    /// The set holds only identities below its capacity, so it is finite and
    /// no larger than its capacity.
    pub proof fn lemma_bounded(&self)
        ensures
            forall|i: nat| self@.contains(i) ==> i < self.capacity(),
            self@.finite(),
            self@.len() <= self.capacity(),
    {
        let range = Set::<nat>::range(0, self.capacity());
        <nat as vstd::set_lib::FiniteRange>::range_properties(0, self.capacity());
        assert(self@.subset_of(range));
        vstd::set_lib::lemma_len_subset(self@, range);
    }
}

impl<I: DenseId> DenseSet<I> {
    /// An empty set able to hold `identity_count` identities.
    pub fn new(identity_count: usize) -> (set: Self)
        ensures
            set@ == Set::<nat>::empty(),
            set.capacity() == word_count(identity_count as nat) * 64,
            identity_count <= set.capacity(),
    {
        let count = identity_count / 64 + if identity_count % 64 == 0 {
            0
        } else {
            1
        };
        let mut words: Vec<u64> = Vec::new();
        let mut filled: usize = 0;
        while filled < count
            invariant
                filled <= count,
                words@.len() == filled,
                forall|j: int| 0 <= j < filled ==> words@[j] == 0u64,
            decreases count - filled,
        {
            words.push(0u64);
            filled = filled + 1;
        }
        let set = DenseSet { words, identity: PhantomData };
        assert(set@ =~= Set::<nat>::empty()) by {
            assert forall|i: nat| !set@.contains(i) by {
                if i < set.words@.len() * 64 {
                    lemma_zero_bits((i % 64) as u64);
                }
            }
        }
        set
    }

    /// Adds `identity`; an identity beyond the capacity is ignored.
    pub fn insert(&mut self, identity: I)
        ensures
            final(self).capacity() == old(self).capacity(),
            final(self)@ == if identity.dense_index() < old(self).capacity() {
                old(self)@.insert(identity.dense_index())
            } else {
                old(self)@
            },
    {
        let index = identity.index();
        let word = index / 64;
        let bit = index % 64;
        if word < self.words.len() {
            let current = self.words[word];
            self.words.set(word, current | (1u64 << (bit as u64)));
            proof {
                assert forall|i: nat| #[trigger] self@.contains(i) == old(self)@.insert(index as nat).contains(i) by {
                    if i < self.words@.len() * 64 {
                        lemma_or_single_bit(current, bit as u64, (i % 64) as u64);
                    }
                }
                assert(self@ =~= old(self)@.insert(index as nat));
            }
        } else {
            assert(self@ =~= old(self)@);
        }
    }

    /// Whether `identity` is present.
    pub fn contains(&self, identity: I) -> (present: bool)
        ensures
            present == self@.contains(identity.dense_index()),
    {
        let index = identity.index();
        let word = index / 64;
        let bit = index % 64;
        if word < self.words.len() {
            let current = self.words[word];
            proof {
                lemma_test_single_bit(current, bit as u64);
            }
            current & (1u64 << (bit as u64)) != 0
        } else {
            false
        }
    }

    /// Removes `identity`.
    pub fn remove(&mut self, identity: I)
        ensures
            final(self).capacity() == old(self).capacity(),
            final(self)@ == old(self)@.remove(identity.dense_index()),
    {
        let index = identity.index();
        let word = index / 64;
        let bit = index % 64;
        if word < self.words.len() {
            let current = self.words[word];
            self.words.set(word, current & !(1u64 << (bit as u64)));
            proof {
                assert forall|i: nat| #[trigger] self@.contains(i) == old(self)@.remove(index as nat).contains(i) by {
                    if i < self.words@.len() * 64 {
                        lemma_clear_single_bit(current, bit as u64, (i % 64) as u64);
                    }
                }
                assert(self@ =~= old(self)@.remove(index as nat));
            }
        } else {
            assert(self@ =~= old(self)@.remove(index as nat));
        }
    }

    /// Intersects `self` with `other` and reports whether the set changed.
    pub fn intersect_with(&mut self, other: &Self) -> (changed: bool)
        requires
            old(self).capacity() == other.capacity(),
        ensures
            final(self).capacity() == old(self).capacity(),
            final(self)@ == old(self)@.intersect(other@),
            changed == (final(self)@ != old(self)@),
    {
        let length = self.words.len();
        let mut changed = false;
        let mut position: usize = 0;
        while position < length
            invariant
                length == self.words@.len(),
                length == old(self).words@.len(),
                length == other.words@.len(),
                position <= length,
                forall|j: int|
                    0 <= j < position ==> #[trigger] self.words@[j] == old(self).words@[j]
                        & other.words@[j],
                forall|j: int| position <= j < length ==> #[trigger] self.words@[j] == old(self).words@[j],
                changed == exists|j: int|
                    0 <= j < position && #[trigger] self.words@[j] != old(self).words@[j],
            decreases length - position,
        {
            let current = self.words[position];
            let intersection = current & other.words[position];
            let ghost before = self.words@;
            let ghost was_changed = changed;
            if intersection != current {
                changed = true;
            }
            self.words.set(position, intersection);
            proof {
                assert(forall|j: int| 0 <= j < position ==> self.words@[j] == before[j]);
                if was_changed {
                    let w = choose|j: int| 0 <= j < position && #[trigger] before[j] != old(self).words@[j];
                    assert(self.words@[w] != old(self).words@[w]);
                }
                if intersection != current {
                    assert(self.words@[position as int] != old(self).words@[position as int]);
                }
            }
            position = position + 1;
        }
        proof {
            assert forall|i: nat| #[trigger] self@.contains(i) == old(self)@.intersect(other@).contains(i) by {
                if i < length * 64 {
                    lemma_and_bits(old(self).words@[(i / 64) as int], other.words@[(i / 64) as int], (i % 64) as u64);
                }
            }
            assert(self@ =~= old(self)@.intersect(other@));
            self.lemma_words_differ(old(self));
        }
        changed
    }

    /// Unions `self` with `other` and reports whether the set changed.
    pub fn union_with(&mut self, other: &Self) -> (changed: bool)
        requires
            old(self).capacity() == other.capacity(),
        ensures
            final(self).capacity() == old(self).capacity(),
            final(self)@ == old(self)@.union(other@),
            changed == (final(self)@ != old(self)@),
    {
        let length = self.words.len();
        let mut changed = false;
        let mut position: usize = 0;
        while position < length
            invariant
                length == self.words@.len(),
                length == old(self).words@.len(),
                length == other.words@.len(),
                position <= length,
                forall|j: int|
                    0 <= j < position ==> #[trigger] self.words@[j] == old(self).words@[j]
                        | other.words@[j],
                forall|j: int| position <= j < length ==> #[trigger] self.words@[j] == old(self).words@[j],
                changed == exists|j: int|
                    0 <= j < position && #[trigger] self.words@[j] != old(self).words@[j],
            decreases length - position,
        {
            let current = self.words[position];
            let union = current | other.words[position];
            let ghost before = self.words@;
            let ghost was_changed = changed;
            if union != current {
                changed = true;
            }
            self.words.set(position, union);
            proof {
                assert(forall|j: int| 0 <= j < position ==> self.words@[j] == before[j]);
                if was_changed {
                    let w = choose|j: int| 0 <= j < position && #[trigger] before[j] != old(self).words@[j];
                    assert(self.words@[w] != old(self).words@[w]);
                }
                if union != current {
                    assert(self.words@[position as int] != old(self).words@[position as int]);
                }
            }
            position = position + 1;
        }
        proof {
            assert forall|i: nat| #[trigger] self@.contains(i) == old(self)@.union(other@).contains(i) by {
                if i < length * 64 {
                    lemma_or_bits(old(self).words@[(i / 64) as int], other.words@[(i / 64) as int], (i % 64) as u64);
                }
            }
            assert(self@ =~= old(self)@.union(other@));
            self.lemma_words_differ(old(self));
        }
        changed
    }

    /// Two sets of equal capacity have the same members exactly when their
    /// words agree.
    proof fn lemma_words_differ(&self, before: &Self)
        requires
            self.words@.len() == before.words@.len(),
        ensures
            (exists|j: int| 0 <= j < self.words@.len() && #[trigger] self.words@[j] != before.words@[j])
                == (self@ != before@),
    {
        if exists|j: int| 0 <= j < self.words@.len() && #[trigger] self.words@[j] != before.words@[j] {
            let j = choose|j: int| 0 <= j < self.words@.len() && #[trigger] self.words@[j] != before.words@[j];
            if forall|k: u64| k < 64 ==> word_bit(self.words@[j], k) == word_bit(before.words@[j], k) {
                lemma_bits_determine_word(self.words@[j], before.words@[j]);
            }
            let k = choose|k: u64| k < 64 && word_bit(self.words@[j], k) != word_bit(before.words@[j], k);
            let i: nat = (j * 64 + k) as nat;
            assert(i / 64 == j);
            assert(i % 64 == k);
            assert(self@.contains(i) != before@.contains(i));
        } else {
            assert(self@ =~= before@);
        }
    }
}

/// A set of body locals.
pub type LocalSet = DenseSet<LocalId>;

/// A set of loans.
pub type LoanSet = DenseSet<LoanId>;

/// A set of projection paths.
pub type ProjectionSet = DenseSet<ProjectionPathId>;

} // verus!
