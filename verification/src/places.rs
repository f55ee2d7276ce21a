//! Path-sensitive availability of places.
//!
//! A place state records, for every local of a body, whether the whole local
//! is available, and for every projection path whether the part it selects
//! is available. Initializing a whole local makes all of its parts available;
//! moving a part out makes the whole local, the part's ancestors and the
//! part's descendants unavailable, while the remaining parts stay available.

use crate::dataflow::{word_count, LocalSet, ProjectionSet};
use crate::ids::{LocalId, ProjectionPathId};
use crate::model::{Body, Place, ProjectionPath};
use crate::worklist::{lemma_strict_subset_len, FlowState};
use vstd::prelude::*;

verus! {

/// `path` is `ancestor` or reaches it through at most `fuel` parent links.
pub open spec fn reaches(projections: Seq<ProjectionPath>, path: nat, ancestor: nat, fuel: nat) -> bool
    decreases fuel,
{
    if path == ancestor {
        true
    } else if fuel == 0 || path >= projections.len() {
        false
    } else {
        match projections[path as int].parent {
            None => false,
            Some(parent) => reaches(projections, parent@, ancestor, (fuel - 1) as nat),
        }
    }
}

/// `path` lies within `ancestor`: it is `ancestor` or one of its descendants.
pub open spec fn within(projections: Seq<ProjectionPath>, path: nat, ancestor: nat) -> bool {
    reaches(projections, path, ancestor, projections.len())
}

/// The projection paths rooted at `local`.
pub open spec fn rooted_paths(body: Body, local: nat) -> Set<nat> {
    Set::new(|q: nat| q < body.projections@.len() && body.projections@[q as int].base@ == local)
}

/// The projection paths of `local` that lie within `path`.
pub open spec fn paths_within(body: Body, local: nat, path: nat) -> Set<nat> {
    Set::new(
        |q: nat|
            q < body.projections@.len() && body.projections@[q as int].base@ == local && within(
                body.projections@,
                q,
                path,
            ),
    )
}

/// The projection paths of `local` that lie within `path` or contain it.
pub open spec fn paths_related(body: Body, local: nat, path: nat) -> Set<nat> {
    Set::new(
        |q: nat|
            q < body.projections@.len() && body.projections@[q as int].base@ == local && (within(
                body.projections@,
                q,
                path,
            ) || within(body.projections@, path, q)),
    )
}

/// The projection paths that lie within `place`.
pub open spec fn paths_of_place(body: Body, place: Place) -> Set<nat> {
    match place.projection {
        None => rooted_paths(body, place.local@),
        Some(p) => paths_within(body, place.local@, p@),
    }
}

/// The projection paths that moving `place` out makes unavailable.
pub open spec fn paths_touching_place(body: Body, place: Place) -> Set<nat> {
    match place.projection {
        None => rooted_paths(body, place.local@),
        Some(p) => paths_related(body, place.local@, p@),
    }
}

/// `place` names an existing projection path of its own local.
pub open spec fn valid_path(body: Body, place: Place) -> bool {
    match place.projection {
        None => false,
        Some(p) => p@ < body.projections@.len() && body.projections@[p@ as int].base == place.local,
    }
}

/// Two places may share storage.
pub open spec fn places_overlap(body: Body, first: Place, second: Place) -> bool {
    first.local == second.local && match (first.projection, second.projection) {
        (Some(a), Some(b)) => within(body.projections@, a@, b@) || within(body.projections@, b@, a@),
        _ => true,
    }
}

/// Whether `path` lies within `ancestor`, following at most one parent link
/// per projection path of the body.
pub fn path_within(projections: &Vec<ProjectionPath>, path: ProjectionPathId, ancestor: ProjectionPathId) -> (result: bool)
    ensures
        result == within(projections@, path@, ancestor@),
{
    let target = ancestor.index();
    let mut current = path.index();
    let mut fuel = projections.len();
    loop
        invariant
            fuel <= projections@.len(),
            target == ancestor@,
            within(projections@, path@, ancestor@) == reaches(projections@, current as nat, target as nat, fuel as nat),
        decreases fuel,
    {
        if current == target {
            return true;
        }
        if fuel == 0 || current >= projections.len() {
            return false;
        }
        match projections[current].parent {
            None => {
                return false;
            },
            Some(parent) => {
                current = parent.index();
                fuel = fuel - 1;
            },
        }
    }
}

/// Whether two places may share storage: the same local, and either one of
/// them is the whole local or one projection lies within the other.
pub fn overlap(body: &Body, first: Place, second: Place) -> (result: bool)
    ensures
        result == places_overlap(*body, first, second),
{
    if first.local != second.local {
        return false;
    }
    match (first.projection, second.projection) {
        (Some(a), Some(b)) => path_within(&body.projections, a, b) || path_within(&body.projections, b, a),
        _ => true,
    }
}

/// Availability of every local and every projection path of one body.
#[derive(Debug)]
pub struct PlaceState {
    roots: LocalSet,
    paths: ProjectionSet,
}

impl View for PlaceState {
    type V = (Set<nat>, Set<nat>);

    closed spec fn view(&self) -> (Set<nat>, Set<nat>) {
        (self.roots@, self.paths@)
    }
}

impl PlaceState {
    /// The state is sized for `locals` locals and `paths` projection paths
    /// and mentions only those.
    pub closed spec fn fits_sizes(&self, locals: nat, paths: nat) -> bool {
        &&& self.roots.capacity() == word_count(locals) * 64
        &&& self.paths.capacity() == word_count(paths) * 64
        &&& forall|l: nat| self.roots@.contains(l) ==> l < locals
        &&& forall|q: nat| self.paths@.contains(q) ==> q < paths
    }

    /// The state is sized for `body` and mentions only its locals and paths.
    pub open spec fn fits(&self, body: Body) -> bool {
        self.fits_sizes(body.locals@.len(), body.projections@.len())
    }

    /// Whether `place` is available in a state with the given view.
    pub open spec fn available_in(view: (Set<nat>, Set<nat>), body: Body, place: Place) -> bool {
        match place.projection {
            None => view.0.contains(place.local@),
            Some(p) => valid_path(body, place) && view.1.contains(p@),
        }
    }

    /// Whether any part of `place` is available in a state with the given view.
    pub open spec fn any_within_in(view: (Set<nat>, Set<nat>), body: Body, place: Place) -> bool {
        let parts = exists|q: nat| view.1.contains(q) && #[trigger] paths_of_place(body, place).contains(q);
        match place.projection {
            None => view.0.contains(place.local@) || parts,
            Some(p) => valid_path(body, place) && parts,
        }
    }

    /// The view after making `place` available.
    pub open spec fn initialized(view: (Set<nat>, Set<nat>), body: Body, place: Place) -> (Set<nat>, Set<nat>) {
        match place.projection {
            None => if place.local@ < body.locals@.len() {
                (view.0.insert(place.local@), view.1.union(rooted_paths(body, place.local@)))
            } else {
                view
            },
            Some(p) => if valid_path(body, place) {
                (view.0, view.1.union(paths_within(body, place.local@, p@)))
            } else {
                view
            },
        }
    }

    /// The view after moving `place` out.
    pub open spec fn moved_out(view: (Set<nat>, Set<nat>), body: Body, place: Place) -> (Set<nat>, Set<nat>) {
        match place.projection {
            None => (view.0.remove(place.local@), view.1.difference(rooted_paths(body, place.local@))),
            Some(p) => if valid_path(body, place) {
                (view.0.remove(place.local@), view.1.difference(paths_related(body, place.local@, p@)))
            } else {
                view
            },
        }
    }

    /// The states of two incoming paths agree on what is available.
    pub proof fn lemma_bounded(&self, body: Body)
        requires
            self.fits(body),
        ensures
            self@.0.finite(),
            self@.1.finite(),
            self@.0.len() <= body.locals@.len(),
            self@.1.len() <= body.projections@.len(),
    {
        let locals = Set::<nat>::range(0, body.locals@.len());
        let paths = Set::<nat>::range(0, body.projections@.len());
        <nat as vstd::set_lib::FiniteRange>::range_properties(0, body.locals@.len());
        <nat as vstd::set_lib::FiniteRange>::range_properties(0, body.projections@.len());
        assert(self@.0.subset_of(locals));
        assert(self@.1.subset_of(paths));
        vstd::set_lib::lemma_len_subset(self@.0, locals);
        vstd::set_lib::lemma_len_subset(self@.1, paths);
    }

    /// A state where nothing is available.
    pub fn new(body: &Body) -> (state: Self)
        ensures
            state.fits(*body),
            state@ == (Set::<nat>::empty(), Set::<nat>::empty()),
    {
        PlaceState { roots: LocalSet::new(body.locals.len()), paths: ProjectionSet::new(body.projections.len()) }
    }

    /// A copy of this state.
    pub fn duplicate(&self, body: &Body) -> (copy: Self)
        requires
            self.fits(*body),
        ensures
            copy.fits(*body),
            copy@ == self@,
    {
        PlaceState { roots: self.roots.clone(), paths: self.paths.clone() }
    }

    /// Whether `place` is available.
    pub fn is_available(&self, body: &Body, place: Place) -> (available: bool)
        requires
            self.fits(*body),
        ensures
            available == Self::available_in(self@, *body, place),
    {
        match place.projection {
            None => self.roots.contains(place.local),
            Some(path) => {
                path.index() < body.projections.len()
                    && body.projections[path.index()].base == place.local
                    && self.paths.contains(path)
            },
        }
    }

    /// Whether `place` or any part of it is available.
    pub fn any_available_within(&self, body: &Body, place: Place) -> (available: bool)
        requires
            self.fits(*body),
            body.tables_addressable(),
        ensures
            available == Self::any_within_in(self@, *body, place),
    {
        let root = match place.projection {
            None => {
                if self.roots.contains(place.local) {
                    return true;
                }
                None
            },
            Some(path) => {
                if !(path.index() < body.projections.len() && body.projections[path.index()].base
                    == place.local) {
                    return false;
                }
                Some(path)
            },
        };
        let count = body.projections.len();
        let mut index: usize = 0;
        while index < count
            invariant
                count == body.projections@.len(),
                count <= u32::MAX,
                index <= count,
                self.fits(*body),
                root == place.projection,
                place.projection is None ==> !self@.0.contains(place.local@),
                place.projection is Some ==> valid_path(*body, place),
                forall|q: nat| q < index ==> !(self@.1.contains(q) && #[trigger] paths_of_place(*body, place).contains(q)),
            decreases count - index,
        {
            let id = ProjectionPathId::from_index(index);
            let selected = body.projections[index].base == place.local && match root {
                None => true,
                Some(path) => path_within(&body.projections, id, path),
            };
            if selected && self.paths.contains(id) {
                assert(paths_of_place(*body, place).contains(index as nat));
                return true;
            }
            index = index + 1;
        }
        proof {
            assert forall|q: nat| self@.1.contains(q) implies !#[trigger] paths_of_place(*body, place).contains(q) by {
                assert(q < count);
            }
        }
        false
    }

    /// Whether projection path `index` lies within (or, with `related`, is
    /// related to) `place`.
    fn path_selected(body: &Body, place: Place, index: usize, related: bool) -> (selected: bool)
        requires
            index < body.projections@.len(),
            index <= u32::MAX,
            place.projection is Some ==> valid_path(*body, place),
        ensures
            selected == if related {
                paths_touching_place(*body, place).contains(index as nat)
            } else {
                paths_of_place(*body, place).contains(index as nat)
            },
    {
        if body.projections[index].base != place.local {
            return false;
        }
        match place.projection {
            None => true,
            Some(path) => {
                let id = ProjectionPathId::from_index(index);
                path_within(&body.projections, id, path) || (related && path_within(
                    &body.projections,
                    path,
                    id,
                ))
            },
        }
    }

    /// Marks every projection path selected by `place` as available, or with
    /// `remove`, as unavailable.
    fn update_paths(&mut self, body: &Body, place: Place, remove: bool)
        requires
            old(self).fits(*body),
            body.tables_addressable(),
            place.projection is Some ==> valid_path(*body, place),
        ensures
            final(self).fits(*body),
            final(self)@.0 == old(self)@.0,
            final(self)@.1 == if remove {
                old(self)@.1.difference(paths_touching_place(*body, place))
            } else {
                old(self)@.1.union(paths_of_place(*body, place))
            },
    {
        let count = body.projections.len();
        let ghost selection = if remove {
            paths_touching_place(*body, place)
        } else {
            paths_of_place(*body, place)
        };
        let mut index: usize = 0;
        while index < count
            invariant
                count == body.projections@.len(),
                count <= u32::MAX,
                index <= count,
                body.tables_addressable(),
                place.projection is Some ==> valid_path(*body, place),
                self.fits(*body),
                self@.0 == old(self)@.0,
                selection == if remove {
                    paths_touching_place(*body, place)
                } else {
                    paths_of_place(*body, place)
                },
                self@.1 == if remove {
                    old(self)@.1.difference(Set::new(|q: nat| q < index && selection.contains(q)))
                } else {
                    old(self)@.1.union(Set::new(|q: nat| q < index && selection.contains(q)))
                },
            decreases count - index,
        {
            let ghost before = self@.1;
            if Self::path_selected(body, place, index, remove) {
                let id = ProjectionPathId::from_index(index);
                if remove {
                    self.paths.remove(id);
                } else {
                    self.paths.insert(id);
                }
            }
            proof {
                let next = Set::new(|q: nat| q < index + 1 && selection.contains(q));
                if remove {
                    assert(self@.1 =~= old(self)@.1.difference(next));
                } else {
                    assert(self@.1 =~= old(self)@.1.union(next));
                }
            }
            index = index + 1;
        }
        proof {
            let all = Set::new(|q: nat| q < count && selection.contains(q));
            assert(all =~= selection);
        }
    }

    /// Makes `place` available: the whole local with all of its parts, or the
    /// selected part with all of its descendants.
    pub fn initialize(&mut self, body: &Body, place: Place)
        requires
            old(self).fits(*body),
            body.tables_addressable(),
        ensures
            final(self).fits(*body),
            final(self)@ == Self::initialized(old(self)@, *body, place),
    {
        match place.projection {
            None => {
                if place.local.index() < body.locals.len() {
                    self.roots.insert(place.local);
                    self.update_paths(body, place, false);
                }
            },
            Some(path) => {
                if path.index() < body.projections.len() && body.projections[path.index()].base
                    == place.local {
                    self.update_paths(body, place, false);
                }
            },
        }
    }

    /// Completes an aggregate built in `place`, which makes it available.
    pub fn finish_aggregate(&mut self, body: &Body, place: Place)
        requires
            old(self).fits(*body),
            body.tables_addressable(),
        ensures
            final(self).fits(*body),
            final(self)@ == Self::initialized(old(self)@, *body, place),
    {
        self.initialize(body, place)
    }

    /// Moves `place` out: the whole local becomes unavailable, and so do the
    /// moved part, its ancestors and its descendants.
    pub fn move_out(&mut self, body: &Body, place: Place)
        requires
            old(self).fits(*body),
            body.tables_addressable(),
        ensures
            final(self).fits(*body),
            final(self)@ == Self::moved_out(old(self)@, *body, place),
    {
        match place.projection {
            None => {
                self.roots.remove(place.local);
                self.update_paths(body, place, true);
            },
            Some(path) => {
                if path.index() < body.projections.len() && body.projections[path.index()].base
                    == place.local {
                    self.roots.remove(place.local);
                    self.update_paths(body, place, true);
                }
            },
        }
    }

    /// Keeps only what both states have available; reports whether this
    /// state changed.
    pub fn intersect_with(&mut self, other: &Self, body: &Body) -> (changed: bool)
        requires
            old(self).fits(*body),
            other.fits(*body),
        ensures
            final(self).fits(*body),
            final(self)@ == (old(self)@.0.intersect(other@.0), old(self)@.1.intersect(other@.1)),
            changed == (final(self)@ != old(self)@),
    {
        let roots_changed = self.roots.intersect_with(&other.roots);
        let paths_changed = self.paths.intersect_with(&other.paths);
        roots_changed || paths_changed
    }

    /// Adds what either state has available; reports whether this state
    /// changed.
    pub fn union_with(&mut self, other: &Self, body: &Body) -> (changed: bool)
        requires
            old(self).fits(*body),
            other.fits(*body),
        ensures
            final(self).fits(*body),
            final(self)@ == (old(self)@.0.union(other@.0), old(self)@.1.union(other@.1)),
            changed == (final(self)@ != old(self)@),
    {
        let roots_changed = self.roots.union_with(&other.roots);
        let paths_changed = self.paths.union_with(&other.paths);
        roots_changed || paths_changed
    }
}


impl FlowState for PlaceState {
    /// The number of available locals and paths; intersection lowers it.
    open spec fn measure(&self) -> nat {
        self@.0.len() + self@.1.len()
    }
}

impl PlaceState {
    /// A fitting state has measure at most the number of locals and paths.
    pub proof fn lemma_measure_bounded(&self, body: Body)
        requires
            self.fits(body),
        ensures
            self.measure() <= body.locals@.len() + body.projections@.len(),
    {
        self.lemma_bounded(body);
    }

    /// Intersecting with another state either keeps the state or lowers its
    /// measure.
    pub proof fn lemma_intersect_lowers(&self, before: &Self, body: Body, other: (Set<nat>, Set<nat>))
        requires
            before.fits(body),
            self@ == (before@.0.intersect(other.0), before@.1.intersect(other.1)),
            self@ != before@,
        ensures
            self.measure() < before.measure(),
    {
        before.lemma_bounded(body);
        vstd::set_lib::lemma_len_intersect(before@.0, other.0);
        vstd::set_lib::lemma_len_intersect(before@.1, other.1);
        if self@.0 != before@.0 {
            lemma_strict_subset_len(before@.0, self@.0);
        } else {
            lemma_strict_subset_len(before@.1, self@.1);
        }
    }
}


impl PlaceState {
    /// The total capacity of the state's two sets.
    pub closed spec fn capacity_bound(&self) -> nat {
        self.roots.capacity() + self.paths.capacity()
    }

    /// A fitting state's capacity is determined by the body, and bounds its
    /// measure.
    pub proof fn lemma_capacity(&self, body: Body)
        requires
            self.fits(body),
        ensures
            self.capacity_bound() == word_count(body.locals@.len()) * 64 + word_count(
                body.projections@.len(),
            ) * 64,
            self.measure() <= body.locals@.len() + body.projections@.len(),
            body.locals@.len() + body.projections@.len() <= self.capacity_bound(),
    {
        self.lemma_bounded(body);
        assert(body.locals@.len() <= word_count(body.locals@.len()) * 64);
        assert(body.projections@.len() <= word_count(body.projections@.len()) * 64);
    }

    /// Uniting with another state either keeps the state or raises its
    /// measure.
    pub proof fn lemma_union_raises(&self, before: &Self, body: Body, other: (Set<nat>, Set<nat>))
        requires
            before.fits(body),
            self.fits(body),
            self@ == (before@.0.union(other.0), before@.1.union(other.1)),
            self@ != before@,
        ensures
            self.measure() > before.measure(),
            self.capacity_bound() == before.capacity_bound(),
    {
        self.lemma_bounded(body);
        before.lemma_bounded(body);
        self.lemma_capacity(body);
        before.lemma_capacity(body);
        vstd::set_lib::lemma_len_subset(before@.0, self@.0);
        vstd::set_lib::lemma_len_subset(before@.1, self@.1);
        if self@.0 != before@.0 {
            lemma_strict_subset_len(self@.0, before@.0);
        } else {
            lemma_strict_subset_len(self@.1, before@.1);
        }
    }
}

/// Writing a place makes it available, and moving it out makes it
/// unavailable, whether it is a whole local of the body or a valid path.
pub proof fn lemma_write_and_move(view: (Set<nat>, Set<nat>), body: Body, place: Place)
    requires
        match place.projection {
            None => place.local@ < body.locals@.len(),
            Some(_) => valid_path(body, place),
        },
    ensures
        PlaceState::available_in(PlaceState::initialized(view, body, place), body, place),
        !PlaceState::available_in(PlaceState::moved_out(view, body, place), body, place),
{
    match place.projection {
        None => {},
        Some(p) => {
            assert(within(body.projections@, p@, p@));
            assert(paths_within(body, place.local@, p@).contains(p@));
            assert(paths_related(body, place.local@, p@).contains(p@));
        },
    }
}

} // verus!

