//! The order of names: lexicographic by character, as `String` orders them.

use vstd::prelude::*;
use vstd::string::StrSliceExecFns;

verus! {

/// `first` precedes `second`, comparing from position `from` on: at the first
/// position where they differ the smaller character wins, and a name that
/// ends first precedes the longer one.
pub open spec fn precedes_from(first: Seq<char>, second: Seq<char>, from: nat) -> bool
    decreases first.len() - from,
{
    if from >= first.len() {
        from < second.len()
    } else if from >= second.len() {
        false
    } else if first[from as int] != second[from as int] {
        (first[from as int] as int) < (second[from as int] as int)
    } else {
        precedes_from(first, second, from + 1)
    }
}

/// `first` precedes `second` in the order of names.
pub open spec fn precedes(first: Seq<char>, second: Seq<char>) -> bool {
    precedes_from(first, second, 0)
}

/// No name precedes itself.
pub proof fn lemma_precedes_irreflexive(name: Seq<char>, from: nat)
    ensures
        !precedes_from(name, name, from),
    decreases name.len() - from,
{
    if from < name.len() {
        lemma_precedes_irreflexive(name, from + 1);
    }
}

/// Of two different names that agree before `from`, one precedes the other.
pub proof fn lemma_precedes_total(first: Seq<char>, second: Seq<char>, from: nat)
    requires
        first != second,
        from <= first.len(),
        from <= second.len(),
        forall|i: int| 0 <= i < from ==> first[i] == second[i],
    ensures
        precedes_from(first, second, from) || precedes_from(second, first, from),
    decreases first.len() - from,
{
    if from == first.len() && from == second.len() {
        assert(first =~= second);
    } else if from < first.len() && from < second.len() && first[from as int] == second[from as int] {
        lemma_precedes_total(first, second, from + 1);
    }
}

/// The order of names is transitive.
pub proof fn lemma_precedes_transitive(first: Seq<char>, second: Seq<char>, third: Seq<char>, from: nat)
    requires
        precedes_from(first, second, from),
        precedes_from(second, third, from),
    ensures
        precedes_from(first, third, from),
    decreases first.len() - from,
{
    if from < first.len() && from < second.len() && from < third.len()
        && first[from as int] == second[from as int] && second[from as int] == third[from as int] {
        lemma_precedes_transitive(first, second, third, from + 1);
    }
}

/// Of two names, one precedes the other, or they are equal.
pub proof fn lemma_names_comparable(first: Seq<char>, second: Seq<char>)
    ensures
        first == second || precedes(first, second) || precedes(second, first),
{
    if first != second {
        lemma_precedes_total(first, second, 0);
    }
}

/// Whether `first` precedes `second` in the order of names.
pub fn name_precedes(first: &String, second: &String) -> (result: bool)
    ensures
        result == precedes(first@, second@),
{
    let first_str = first.as_str();
    let second_str = second.as_str();
    let first_len = first_str.unicode_len();
    let second_len = second_str.unicode_len();
    let mut index: usize = 0;
    while index < first_len && index < second_len
        invariant
            first_str@ == first@,
            second_str@ == second@,
            first_len == first@.len(),
            second_len == second@.len(),
            index <= first_len,
            index <= second_len,
            precedes_from(first@, second@, 0) == precedes_from(first@, second@, index as nat),
        decreases first_len - index,
    {
        let mine = first_str.get_char(index);
        let theirs = second_str.get_char(index);
        if mine != theirs {
            proof {
                assert(first@[index as int] != second@[index as int]);
            }
            return (mine as u32) < (theirs as u32);
        }
        index = index + 1;
    }
    index >= first_len && index < second_len
}

} // verus!
