//! Retained MIR products shared by buildability and machine-IR lowering.

use crate::calls::{CallInstanceKey, CallKeyView};
use crate::lower::{lemma_alike_errors, same_error, BuildError};
use crate::model::{lemma_alike_bodies, same_body, Body};
use crate::names::{
    lemma_names_comparable, lemma_precedes_irreflexive, lemma_precedes_transitive, name_precedes,
    precedes,
};
use crate::semantic::{type_nodes, BodyId, SourceId, TypeExpr, TypeIdentity};
use vstd::prelude::*;

verus! {

/// One substitution of a type parameter, with the type taken by its identity.
pub type SubstitutionView = (Seq<char>, Seq<(Seq<char>, nat)>);

/// What a body instance key identifies.
pub struct BodyKeyView {
    pub source: SourceId,
    pub body: BodyId,
    pub substitutions: Seq<SubstitutionView>,
    pub callable: Option<CallKeyView>,
}

/// No two substitutions name the same type parameter.
pub open spec fn distinct_names(substitutions: Seq<(String, TypeExpr)>) -> bool {
    forall|i: int, j: int|
        0 <= i < j < substitutions.len() ==> (#[trigger] substitutions[i]).0@
            != (#[trigger] substitutions[j]).0@
}

/// The substitutions, each type taken by its identity.
pub open spec fn substitution_views(substitutions: Seq<(String, TypeExpr)>) -> Seq<SubstitutionView> {
    substitutions.map_values(|entry: (String, TypeExpr)| (entry.0@, type_nodes(entry.1)))
}

/// The substitutions are in the order of their parameter names, no name
/// twice.
pub open spec fn sorted_by_name(substitutions: Seq<SubstitutionView>) -> bool {
    forall|i: int, j: int|
        0 <= i < j < substitutions.len() ==> precedes(
            (#[trigger] substitutions[i]).0,
            (#[trigger] substitutions[j]).0,
        )
}

/// The two sequences hold the same elements.
pub open spec fn same_elements<A>(first: Seq<A>, second: Seq<A>) -> bool {
    forall|x: A| first.contains(x) <==> second.contains(x)
}

/// `sorted` with `entry` put before the first entry whose name it precedes.
pub open spec fn insert_by_name(sorted: Seq<SubstitutionView>, entry: SubstitutionView) -> Seq<
    SubstitutionView,
>
    decreases sorted.len(),
{
    if sorted.len() == 0 {
        seq![entry]
    } else if precedes(entry.0, sorted[0].0) {
        seq![entry] + sorted
    } else {
        seq![sorted[0]] + insert_by_name(sorted.drop_first(), entry)
    }
}

/// `substitutions` in the order of their names, each put in place in turn.
pub open spec fn sort_by_name(substitutions: Seq<SubstitutionView>) -> Seq<SubstitutionView>
    decreases substitutions.len(),
{
    if substitutions.len() == 0 {
        Seq::empty()
    } else {
        insert_by_name(sort_by_name(substitutions.drop_last()), substitutions.last())
    }
}

/// The substitutions in the order of their parameter names.
pub open spec fn canonical_substitutions(substitutions: Seq<(String, TypeExpr)>) -> Seq<
    SubstitutionView,
> {
    sort_by_name(substitution_views(substitutions))
}

/// The key of `body` of `source` specialized by `substitutions`.
pub open spec fn specialized_key(
    source: SourceId,
    body: BodyId,
    substitutions: Seq<(String, TypeExpr)>,
) -> BodyKeyView {
    BodyKeyView {
        source,
        body,
        substitutions: canonical_substitutions(substitutions),
        callable: None,
    }
}

/// The key of the literal construction `callable` of `body` of `source`
/// specialized by `substitutions`.
pub open spec fn literal_key(
    source: SourceId,
    body: BodyId,
    substitutions: Seq<(String, TypeExpr)>,
    callable: CallKeyView,
) -> BodyKeyView {
    BodyKeyView {
        source,
        body,
        substitutions: canonical_substitutions(substitutions),
        callable: Some(callable),
    }
}

/// Two sequences in the order of names that hold the same elements are
/// equal: the order of names leaves no choice.
pub proof fn lemma_sorted_unique(first: Seq<SubstitutionView>, second: Seq<SubstitutionView>)
    requires
        sorted_by_name(first),
        sorted_by_name(second),
        same_elements(first, second),
    ensures
        first == second,
    decreases first.len(),
{
    if first.len() == 0 {
        if second.len() > 0 {
            assert(second.contains(second[0]));
        }
        assert(first =~= second);
    } else {
        assert(first.contains(first[0]));
        let m = choose|m: int| 0 <= m < second.len() && second[m] == first[0];
        assert(second.contains(second[0]));
        let k = choose|k: int| 0 <= k < first.len() && first[k] == second[0];
        if k > 0 && m > 0 {
            assert(precedes(first[0].0, first[k].0));
            assert(precedes(second[0].0, second[m].0));
            lemma_precedes_transitive(first[0].0, second[0].0, first[0].0, 0);
            lemma_precedes_irreflexive(first[0].0, 0);
        }
        assert(first[0] == second[0]);
        let rest = first.drop_first();
        let other = second.drop_first();
        assert forall|x: SubstitutionView| rest.contains(x) <==> other.contains(x) by {
            if rest.contains(x) {
                let i = choose|i: int| 0 <= i < rest.len() && rest[i] == x;
                assert(first[i + 1] == x);
                assert(first.contains(x));
                assert(precedes(first[0].0, first[i + 1].0));
                lemma_precedes_irreflexive(x.0, 0);
                let j = choose|j: int| 0 <= j < second.len() && second[j] == x;
                assert(j != 0);
                assert(other[j - 1] == x);
            }
            if other.contains(x) {
                let i = choose|i: int| 0 <= i < other.len() && other[i] == x;
                assert(second[i + 1] == x);
                assert(second.contains(x));
                assert(precedes(second[0].0, second[i + 1].0));
                lemma_precedes_irreflexive(x.0, 0);
                let j = choose|j: int| 0 <= j < first.len() && first[j] == x;
                assert(j != 0);
                assert(rest[j - 1] == x);
            }
        }
        lemma_sorted_unique(rest, other);
        assert(first =~= second) by {
            assert forall|i: int| 0 <= i < first.len() implies first[i] == second[i] by {
                if i > 0 {
                    assert(rest[i - 1] == other[i - 1]);
                }
            }
        }
    }
}

/// The substitutions of `substitutions`, with each type taken by its
/// identity, in the order of their parameter names.
fn sorted_substitutions(substitutions: &[(String, TypeExpr)]) -> (sorted: Vec<(String, TypeIdentity)>)
    requires
        distinct_names(substitutions@),
    ensures
        sorted@.map_values(|entry: (String, TypeIdentity)| (entry.0@, entry.1@))
            == canonical_substitutions(substitutions@),
{
    let ghost all = substitution_views(substitutions@);
    let mut sorted: Vec<(String, TypeIdentity)> = Vec::new();
    let mut index: usize = 0;
    while index < substitutions.len()
        invariant
            index <= substitutions@.len(),
            all == substitution_views(substitutions@),
            distinct_names(substitutions@),
            sorted_by_name(sorted@.map_values(|entry: (String, TypeIdentity)| (entry.0@, entry.1@))),
            same_elements(
                sorted@.map_values(|entry: (String, TypeIdentity)| (entry.0@, entry.1@)),
                all.take(index as int),
            ),
        decreases substitutions@.len() - index,
    {
        let ghost before = sorted@.map_values(|entry: (String, TypeIdentity)| (entry.0@, entry.1@));
        let name = substitutions[index].0.clone();
        let identity = TypeIdentity::of(&substitutions[index].1);
        let ghost entry: SubstitutionView = (name@, identity@);
        proof {
            assert(entry == all[index as int]);
            assert forall|j: int| 0 <= j < before.len() implies (#[trigger] before[j]).0 != name@ by {
                assert(before.contains(before[j]));
                assert(all.take(index as int).contains(before[j]));
                let i = choose|i: int| 0 <= i < index && #[trigger] all.take(index as int)[i] == before[j];
                assert(substitutions@[i].0@ != substitutions@[index as int].0@);
            }
        }
        let mut position: usize = 0;
        while position < sorted.len() && !name_precedes(&name, &sorted[position].0)
            invariant
                position <= sorted@.len(),
                before == sorted@.map_values(|entry: (String, TypeIdentity)| (entry.0@, entry.1@)),
                forall|j: int| 0 <= j < position ==> !precedes(name@, (#[trigger] before[j]).0),
            decreases sorted@.len() - position,
        {
            position = position + 1;
        }
        proof {
            assert forall|k: int| position <= k < before.len() implies precedes(
                entry.0,
                (#[trigger] before[k]).0,
            ) by {
                if k > position {
                    lemma_precedes_transitive(entry.0, before[position as int].0, before[k].0, 0);
                }
            }
        }
        sorted.insert(position, (name, identity));
        let ghost after = sorted@.map_values(|entry: (String, TypeIdentity)| (entry.0@, entry.1@));
        proof {
            assert(after =~= before.insert(position as int, entry));
            assert forall|j: int| 0 <= j < position implies precedes(
                (#[trigger] before[j]).0,
                entry.0,
            ) by {
                lemma_names_comparable(before[j].0, entry.0);
            }
            assert forall|i: int, j: int| 0 <= i < j < after.len() implies precedes(
                (#[trigger] after[i]).0,
                (#[trigger] after[j]).0,
            ) by {
                if j == position {
                } else if i == position {
                    assert(precedes(entry.0, before[j - 1].0));
                } else if i < position && j > position {
                    lemma_precedes_transitive(before[i].0, entry.0, before[j - 1].0, 0);
                } else if i > position {
                    assert(precedes(before[i - 1].0, before[j - 1].0));
                }
            }
            assert(all.take(index + 1) =~= all.take(index as int).push(entry));
            assert forall|x: SubstitutionView| after.contains(x) <==> all.take(index + 1).contains(
                x,
            ) by {
                if after.contains(x) {
                    let i = choose|i: int| 0 <= i < after.len() && after[i] == x;
                    if i != position {
                        let j = if i < position {
                            i
                        } else {
                            i - 1
                        };
                        assert(before[j] == x);
                        assert(before.contains(x));
                        assert(all.take(index as int).contains(x));
                        let k = choose|k: int| 0 <= k < index && #[trigger] all.take(index as int)[k] == x;
                        assert(all.take(index + 1)[k] == x);
                    } else {
                        assert(all.take(index + 1)[index as int] == x);
                    }
                }
                if all.take(index + 1).contains(x) {
                    let k = choose|k: int| 0 <= k <= index && #[trigger] all.take(index + 1)[k] == x;
                    if k == index {
                        assert(after[position as int] == x);
                    } else {
                        assert(all.take(index as int)[k] == x);
                        assert(all.take(index as int).contains(x));
                        let j = choose|j: int| 0 <= j < before.len() && before[j] == x;
                        if j < position {
                            assert(after[j] == x);
                        } else {
                            assert(after[j + 1] == x);
                        }
                    }
                }
            }
        }
        index = index + 1;
    }
    proof {
        let result = sorted@.map_values(|entry: (String, TypeIdentity)| (entry.0@, entry.1@));
        assert(all.take(index as int) =~= all);
        lemma_views_distinct(substitutions@);
        lemma_sort_by_name(all);
        lemma_sorted_unique(result, canonical_substitutions(substitutions@));
    }
    sorted
}

/// The identity of one specialization of a source body.
#[derive(Debug, Clone, PartialEq, Eq, Hash)]
pub struct BodyInstanceKey {
    source: SourceId,
    body: BodyId,
    substitutions: Vec<(String, TypeIdentity)>,
    callable: Option<CallInstanceKey>,
}

impl View for BodyInstanceKey {
    type V = BodyKeyView;

    closed spec fn view(&self) -> BodyKeyView {
        BodyKeyView {
            source: self.source,
            body: self.body,
            substitutions: self.substitutions@.map_values(
                |entry: (String, TypeIdentity)| (entry.0@, entry.1@),
            ),
            callable: match self.callable {
                Some(callable) => Some(callable@),
                None => None,
            },
        }
    }
}

impl BodyInstanceKey {
    /// The key of `body` of `source` specialized by `substitutions`; the
    /// order in which the substitutions are given takes no part in it.
    pub fn new(source: SourceId, body: BodyId, substitutions: &[(String, TypeExpr)]) -> (key: Self)
        requires
            distinct_names(substitutions@),
        ensures
            key@ == specialized_key(source, body, substitutions@),
    {
        BodyInstanceKey {
            source,
            body,
            substitutions: sorted_substitutions(substitutions),
            callable: None,
        }
    }

    /// The key of the literal construction `callable` of `body` of `source`
    /// specialized by `substitutions`.
    pub fn literal(
        source: SourceId,
        body: BodyId,
        substitutions: &[(String, TypeExpr)],
        callable: CallInstanceKey,
    ) -> (key: Self)
        requires
            distinct_names(substitutions@),
        ensures
            key@ == literal_key(source, body, substitutions@, callable@),
    {
        let mut key = Self::new(source, body, substitutions);
        key.callable = Some(callable);
        key
    }

    /// Whether two keys identify the same body instance.
    pub fn same(&self, other: &Self) -> (same: bool)
        ensures
            same == (self@ == other@),
    {
        if self.source != other.source || self.body != other.body {
            return false;
        }
        let callables = match (&self.callable, &other.callable) {
            (Some(callable), Some(other_callable)) => callable.same(other_callable),
            (None, None) => true,
            _ => false,
        };
        if !callables {
            return false;
        }
        if self.substitutions.len() != other.substitutions.len() {
            proof {
                assert(self@.substitutions.len() != other@.substitutions.len());
            }
            return false;
        }
        let mut index: usize = 0;
        while index < self.substitutions.len()
            invariant
                index <= self.substitutions@.len(),
                self.substitutions@.len() == other.substitutions@.len(),
                forall|i: int|
                    0 <= i < index ==> #[trigger] self@.substitutions[i] == other@.substitutions[i],
            decreases self.substitutions@.len() - index,
        {
            let mine = &self.substitutions[index];
            let theirs = &other.substitutions[index];
            if mine.0 != theirs.0 || !mine.1.same(&theirs.1) {
                proof {
                    assert(self@.substitutions[index as int] != other@.substitutions[index as int]);
                }
                return false;
            }
            index = index + 1;
        }
        proof {
            assert(self@.substitutions =~= other@.substitutions);
        }
        true
    }
}

/// Two keys of the same body built from the same substitutions, given in
/// any order, are equal.
pub proof fn lemma_key_order_independent(
    source: SourceId,
    body: BodyId,
    first: Seq<(String, TypeExpr)>,
    second: Seq<(String, TypeExpr)>,
)
    requires
        distinct_names(first),
        distinct_names(second),
        same_elements(substitution_views(first), substitution_views(second)),
    ensures
        specialized_key(source, body, first) == specialized_key(source, body, second),
{
    lemma_views_distinct(first);
    lemma_views_distinct(second);
    lemma_sort_by_name(substitution_views(first));
    lemma_sort_by_name(substitution_views(second));
    lemma_sorted_unique(canonical_substitutions(first), canonical_substitutions(second));
}

/// Putting an entry with a new name in place keeps the order and adds
/// exactly that entry.
proof fn lemma_insert_by_name(sorted: Seq<SubstitutionView>, entry: SubstitutionView)
    requires
        sorted_by_name(sorted),
        forall|i: int| 0 <= i < sorted.len() ==> (#[trigger] sorted[i]).0 != entry.0,
    ensures
        sorted_by_name(insert_by_name(sorted, entry)),
        forall|x: SubstitutionView|
            #[trigger] insert_by_name(sorted, entry).contains(x) <==> (sorted.contains(x) || x
                == entry),
        insert_by_name(sorted, entry).len() == sorted.len() + 1,
    decreases sorted.len(),
{
    let inserted = insert_by_name(sorted, entry);
    if sorted.len() == 0 {
        assert forall|x: SubstitutionView| inserted.contains(x) <==> (sorted.contains(x) || x
            == entry) by {
            if inserted.contains(x) {
                assert(inserted[0] == x);
            }
            if x == entry {
                assert(inserted[0] == x);
            }
        }
    } else if precedes(entry.0, sorted[0].0) {
        assert forall|i: int, j: int| 0 <= i < j < inserted.len() implies precedes(
            (#[trigger] inserted[i]).0,
            (#[trigger] inserted[j]).0,
        ) by {
            if i == 0 && j > 1 {
                lemma_precedes_transitive(entry.0, sorted[0].0, sorted[j - 1].0, 0);
            } else if i > 0 {
                assert(precedes(sorted[i - 1].0, sorted[j - 1].0));
            }
        }
        assert forall|x: SubstitutionView| inserted.contains(x) <==> (sorted.contains(x) || x
            == entry) by {
            if inserted.contains(x) {
                let k = choose|k: int| 0 <= k < inserted.len() && inserted[k] == x;
                if k > 0 {
                    assert(sorted[k - 1] == x);
                }
            }
            if sorted.contains(x) {
                let k = choose|k: int| 0 <= k < sorted.len() && sorted[k] == x;
                assert(inserted[k + 1] == x);
            }
            if x == entry {
                assert(inserted[0] == x);
            }
        }
    } else {
        let rest = sorted.drop_first();
        assert(sorted_by_name(rest)) by {
            assert forall|i: int, j: int| 0 <= i < j < rest.len() implies precedes(
                (#[trigger] rest[i]).0,
                (#[trigger] rest[j]).0,
            ) by {
                assert(precedes(sorted[i + 1].0, sorted[j + 1].0));
            }
        }
        assert forall|i: int| 0 <= i < rest.len() implies (#[trigger] rest[i]).0 != entry.0 by {
            assert(sorted[i + 1].0 != entry.0);
        }
        lemma_insert_by_name(rest, entry);
        let tail = insert_by_name(rest, entry);
        assert(inserted == seq![sorted[0]] + tail);
        lemma_names_comparable(sorted[0].0, entry.0);
        assert forall|k: int| 0 <= k < tail.len() implies precedes(
            sorted[0].0,
            (#[trigger] tail[k]).0,
        ) by {
            assert(tail.contains(tail[k]));
            if tail[k] != entry {
                assert(rest.contains(tail[k]));
                let m = choose|m: int| 0 <= m < rest.len() && rest[m] == tail[k];
                assert(precedes(sorted[0].0, sorted[m + 1].0));
            }
        }
        assert forall|i: int, j: int| 0 <= i < j < inserted.len() implies precedes(
            (#[trigger] inserted[i]).0,
            (#[trigger] inserted[j]).0,
        ) by {
            if i == 0 {
                assert(inserted[j] == tail[j - 1]);
            } else {
                assert(precedes(tail[i - 1].0, tail[j - 1].0));
            }
        }
        assert forall|x: SubstitutionView| inserted.contains(x) <==> (sorted.contains(x) || x
            == entry) by {
            if inserted.contains(x) {
                let k = choose|k: int| 0 <= k < inserted.len() && inserted[k] == x;
                if k > 0 {
                    assert(tail.contains(tail[k - 1]));
                    if x != entry {
                        assert(rest.contains(x));
                        let m = choose|m: int| 0 <= m < rest.len() && rest[m] == x;
                        assert(sorted[m + 1] == x);
                    }
                } else {
                    assert(sorted[0] == x);
                }
            }
            if sorted.contains(x) {
                let k = choose|k: int| 0 <= k < sorted.len() && sorted[k] == x;
                if k == 0 {
                    assert(inserted[0] == x);
                } else {
                    assert(rest[k - 1] == x);
                    assert(rest.contains(x));
                    assert(tail.contains(x));
                    let m = choose|m: int| 0 <= m < tail.len() && tail[m] == x;
                    assert(inserted[m + 1] == x);
                }
            }
            if x == entry {
                assert(tail.contains(x));
                let m = choose|m: int| 0 <= m < tail.len() && tail[m] == x;
                assert(inserted[m + 1] == x);
            }
        }
    }
}

/// Sorting entries with distinct names orders them by name and keeps
/// exactly their elements.
proof fn lemma_sort_by_name(entries: Seq<SubstitutionView>)
    requires
        forall|i: int, j: int|
            0 <= i < j < entries.len() ==> (#[trigger] entries[i]).0 != (#[trigger] entries[j]).0,
    ensures
        sorted_by_name(sort_by_name(entries)),
        same_elements(sort_by_name(entries), entries),
    decreases entries.len(),
{
    if entries.len() == 0 {
        assert(sort_by_name(entries) =~= entries);
    } else {
        let front = entries.drop_last();
        assert forall|i: int, j: int| 0 <= i < j < front.len() implies (#[trigger] front[i]).0
            != (#[trigger] front[j]).0 by {
            assert(entries[i].0 != entries[j].0);
        }
        lemma_sort_by_name(front);
        let sorted = sort_by_name(front);
        assert forall|i: int| 0 <= i < sorted.len() implies (#[trigger] sorted[i]).0
            != entries.last().0 by {
            assert(sorted.contains(sorted[i]));
            assert(front.contains(sorted[i]));
            let k = choose|k: int| 0 <= k < front.len() && front[k] == sorted[i];
            assert(entries[k].0 != entries[entries.len() - 1].0);
        }
        lemma_insert_by_name(sorted, entries.last());
        assert forall|x: SubstitutionView| sort_by_name(entries).contains(x) <==> entries.contains(
            x,
        ) by {
            if entries.contains(x) {
                let k = choose|k: int| 0 <= k < entries.len() && entries[k] == x;
                if k < entries.len() - 1 {
                    assert(front[k] == x);
                    assert(front.contains(x));
                }
            }
            if front.contains(x) {
                let k = choose|k: int| 0 <= k < front.len() && front[k] == x;
                assert(entries[k] == x);
            }
        }
    }
}

/// The views of substitutions with distinct names have distinct names.
proof fn lemma_views_distinct(substitutions: Seq<(String, TypeExpr)>)
    requires
        distinct_names(substitutions),
    ensures
        forall|i: int, j: int|
            0 <= i < j < substitution_views(substitutions).len() ==> (#[trigger] substitution_views(
                substitutions,
            )[i]).0 != (#[trigger] substitution_views(substitutions)[j]).0,
{
    assert forall|i: int, j: int|
        0 <= i < j < substitution_views(substitutions).len() implies (#[trigger] substitution_views(
        substitutions,
    )[i]).0 != (#[trigger] substitution_views(substitutions)[j]).0 by {
        assert(substitutions[i].0@ != substitutions[j].0@);
    }
}

/// The position of `key` among `entries`, if it occurs.
pub open spec fn cached_position(entries: Seq<(BodyKeyView, Result<Body, BuildError>)>, key: BodyKeyView) -> Option<
    int,
> {
    if exists|i: int| 0 <= i < entries.len() && (#[trigger] entries[i]).0 == key {
        Some(choose|i: int| 0 <= i < entries.len() && (#[trigger] entries[i]).0 == key)
    } else {
        None
    }
}

/// No key occurs twice among `entries`.
pub open spec fn distinct_cached(entries: Seq<(BodyKeyView, Result<Body, BuildError>)>) -> bool {
    forall|i: int, j: int|
        0 <= i < j < entries.len() ==> (#[trigger] entries[i]).0 != (#[trigger] entries[j]).0
}

/// A request for `key` was served from `before`, leaving `after`: a cached
/// key is answered by a copy of its entry and changes nothing; otherwise
/// `build` produced the answer and a copy of it is kept under `key`.
pub open spec fn served<F: FnOnce() -> Result<Body, BuildError>>(
    before: Seq<(BodyKeyView, Result<Body, BuildError>)>,
    after: Seq<(BodyKeyView, Result<Body, BuildError>)>,
    key: BodyKeyView,
    answer: Result<Body, BuildError>,
    build: F,
) -> bool {
    match cached_position(before, key) {
        Some(position) => after == before && copied(before[position].1, answer),
        None => {
            &&& call_ensures(build, (), answer)
            &&& after.len() == before.len() + 1
            &&& after.drop_last() == before
            &&& after.last().0 == key
            &&& copied(answer, after.last().1)
        },
    }
}

/// `copy` is a copy of `kept`: a body alike for a body, and for an error an
/// error that says the same.
pub open spec fn copied(kept: Result<Body, BuildError>, copy: Result<Body, BuildError>) -> bool {
    match (kept, copy) {
        (Ok(first), Ok(second)) => same_body(first, second),
        (Err(first), Err(second)) => same_error(first, second),
        _ => false,
    }
}

/// Asking twice for one key: the second request is answered from the cache
/// and changes nothing, and its answer is alike the first.
pub proof fn lemma_second_request_cached<F: FnOnce() -> Result<Body, BuildError>, G: FnOnce() -> Result<
    Body,
    BuildError,
>>(
    before: Seq<(BodyKeyView, Result<Body, BuildError>)>,
    middle: Seq<(BodyKeyView, Result<Body, BuildError>)>,
    after: Seq<(BodyKeyView, Result<Body, BuildError>)>,
    key: BodyKeyView,
    first: Result<Body, BuildError>,
    second: Result<Body, BuildError>,
    build: F,
    rebuild: G,
)
    requires
        served(before, middle, key, first, build),
        served(middle, after, key, second, rebuild),
    ensures
        cached_position(middle, key) is Some,
        after == middle,
        copied(first, second),
{
    let kept = match cached_position(before, key) {
        Some(position) => {
            assert(middle == before);
            before[position].1
        },
        None => {
            let last = middle.len() - 1;
            assert(middle[last].0 == key);
            let chosen = cached_position(middle, key)->0;
            if chosen != last {
                assert(middle[chosen] == before[chosen]);
                assert(false);
            }
            middle[last].1
        },
    };
    assert(cached_position(middle, key) is Some);
    assert(copied(kept, second));
    match (first, kept, second) {
        (Ok(a), Ok(b), Ok(c)) => {
            lemma_alike_bodies(b, a, c);
            lemma_alike_bodies(a, b, c);
        },
        (Err(a), Err(b), Err(c)) => {
            lemma_alike_errors(b, a, c);
            lemma_alike_errors(a, b, c);
        },
        _ => {},
    }
}

/// A copy of a cached result.
fn copy_cached(cached: &Result<Body, BuildError>) -> (copy: Result<Body, BuildError>)
    ensures
        copied(*cached, copy),
{
    match cached {
        Ok(body) => Ok(body.clone()),
        Err(error) => Err(error.clone()),
    }
}

/// The MIR bodies built so far, by body instance.
#[derive(Debug)]
pub struct BodyCache {
    entries: Vec<(BodyInstanceKey, Result<Body, BuildError>)>,
}

impl View for BodyCache {
    type V = Seq<(BodyKeyView, Result<Body, BuildError>)>;

    closed spec fn view(&self) -> Seq<(BodyKeyView, Result<Body, BuildError>)> {
        self.entries@.map_values(
            |entry: (BodyInstanceKey, Result<Body, BuildError>)| (entry.0@, entry.1),
        )
    }
}

impl Default for BodyCache {
    fn default() -> (cache: Self)
        ensures
            cache@ == Seq::<(BodyKeyView, Result<Body, BuildError>)>::empty(),
    {
        let cache = BodyCache { entries: Vec::new() };
        proof {
            assert(cache@ =~= Seq::<(BodyKeyView, Result<Body, BuildError>)>::empty());
        }
        cache
    }
}

impl BodyCache {
    #[verifier::type_invariant]
    spec fn keys_are_distinct(self) -> bool {
        distinct_cached(self@)
    }

    /// The position of `key` among the cached bodies.
    fn position(&self, key: &BodyInstanceKey) -> (position: Option<usize>)
        ensures
            match position {
                Some(index) => cached_position(self@, key@) == Some(index as int),
                None => cached_position(self@, key@) is None,
            },
    {
        proof {
            use_type_invariant(self);
        }
        let mut index: usize = 0;
        while index < self.entries.len()
            invariant
                index <= self.entries@.len(),
                distinct_cached(self@),
                forall|i: int| 0 <= i < index ==> (#[trigger] self@[i]).0 != key@,
            decreases self.entries@.len() - index,
        {
            if self.entries[index].0.same(key) {
                proof {
                    assert(self@[index as int].0 == key@);
                    let chosen = cached_position(self@, key@)->0;
                    assert(chosen == index);
                }
                return Some(index);
            }
            index = index + 1;
        }
        None
    }

    /// Answers a request for `key` from the cache, or by `build`.
    fn get_or_build<F: FnOnce() -> Result<Body, BuildError>>(&mut self, key: BodyInstanceKey, build: F) -> (body:
        Result<Body, BuildError>)
        requires
            call_requires(build, ()),
        ensures
            served(old(self)@, final(self)@, key@, body, build),
    {
        proof {
            use_type_invariant(&*self);
        }
        match self.position(&key) {
            Some(index) => {
                let copy = copy_cached(&self.entries[index].1);
                proof {
                    assert(self@[index as int].1 == self.entries@[index as int].1);
                }
                copy
            },
            None => {
                let body = build();
                let stored = copy_cached(&body);
                let ghost before = self.entries@;
                let ghost viewed = self@;
                let ghost key_view = key@;
                let mut entries: Vec<(BodyInstanceKey, Result<Body, BuildError>)> = Vec::new();
                std::mem::swap(&mut entries, &mut self.entries);
                entries.push((key, stored));
                proof {
                    assert(entries@.map_values(
                        |entry: (BodyInstanceKey, Result<Body, BuildError>)| (entry.0@, entry.1),
                    ) =~= viewed.push((key_view, stored)));
                    assert(forall|i: int| 0 <= i < viewed.len() ==> (#[trigger] viewed[i]).0 != key_view);
                    assert(viewed.push((key_view, stored)).drop_last() =~= viewed);
                }
                self.entries = entries;
                body
            },
        }
    }

    /// The body of `id` in `source` specialized by `substitutions`: the
    /// cached one, or the one `build` produces, which is then cached.
    pub fn get_or_build_specialized<F: FnOnce() -> Result<Body, BuildError>>(
        &mut self,
        source: SourceId,
        id: BodyId,
        substitutions: &[(String, TypeExpr)],
        build: F,
    ) -> (body: Result<Body, BuildError>)
        requires
            distinct_names(substitutions@),
            call_requires(build, ()),
        ensures
            served(old(self)@, final(self)@, specialized_key(source, id, substitutions@), body, build),
    {
        let key = BodyInstanceKey::new(source, id, substitutions);
        self.get_or_build(key, build)
    }

    /// The body of the literal construction `callable` of `id` in `source`
    /// specialized by `substitutions`: the cached one, or the one `build`
    /// produces, which is then cached.
    pub fn get_or_build_literal_specialized<F: FnOnce() -> Result<Body, BuildError>>(
        &mut self,
        source: SourceId,
        id: BodyId,
        substitutions: &[(String, TypeExpr)],
        callable: CallInstanceKey,
        build: F,
    ) -> (body: Result<Body, BuildError>)
        requires
            distinct_names(substitutions@),
            call_requires(build, ()),
        ensures
            served(
                old(self)@,
                final(self)@,
                literal_key(source, id, substitutions@, callable@),
                body,
                build,
            ),
    {
        let key = BodyInstanceKey::literal(source, id, substitutions, callable);
        self.get_or_build(key, build)
    }

    /// The number of cached bodies.
    pub fn len(&self) -> (count: usize)
        ensures
            count == self@.len(),
    {
        self.entries.len()
    }
}

} // verus!
