//! Materialization of lexical cleanup edges in checked MIR.
//!
//! This pass consumes definite-initialization facts and the retained scope
//! tree. It does not inspect source blocks or rediscover exits from syntax.

use crate::ids::{AllocationOverrideId, BasicBlockId, DropPlanId, LoanId, LocalId, RegionId, ScopeId};
use crate::initialization::InitializationAnalysis;
use crate::loans::LoanAnalysis;
use crate::locals::{OwnershipKind, ValueRepresentation};
use crate::model::{
    BasicBlock, Body, CallArgument, CallContinuation, LoanLifetime, Operand, Place, Statement,
    Terminator,
};
use crate::places::PlaceState;
use crate::scopes::{ancestors, exited_scope_seq, exited_scopes, scope_chain};
use vstd::prelude::*;

verus! {

/// One step of a cleanup chain.
#[derive(Debug, Clone, Copy, PartialEq, Eq, Structural)]
pub enum CleanupAction {
    EndLoan(LoanId),
    Drop(Place),
    Region(RegionId),
    Override(AllocationOverrideId),
}

/// Which initialization facts a cleanup consults: those of one edge, or those
/// at the exit of one block.
#[derive(Debug, Clone, Copy, PartialEq, Eq, Structural)]
pub enum Availability {
    OnEdge { from: BasicBlockId, to: BasicBlockId },
    AtExit { block: BasicBlockId },
    /// Initialized on the edge but not on entry to its target.
    OnlyOnEdge { from: BasicBlockId, to: BasicBlockId },
}

impl Availability {
    /// The block control leaves.
    pub open spec fn source(self) -> BasicBlockId {
        match self {
            Availability::OnEdge { from, .. } => from,
            Availability::AtExit { block } => block,
            Availability::OnlyOnEdge { from, .. } => from,
        }
    }
}

/// Whether `place` is definitely initialized where `query` points.
pub open spec fn initialized_for(
    analysis: InitializationAnalysis,
    query: Availability,
    body: Body,
    place: Place,
) -> bool {
    match query {
        Availability::OnEdge { from, to } => analysis.edges().contains_key((from, to))
            && PlaceState::available_in(analysis.edges()[(from, to)], body, place),
        Availability::AtExit { block } => analysis.exits().contains_key(block)
            && PlaceState::available_in(analysis.exits()[block], body, place),
        Availability::OnlyOnEdge { from, to } => analysis.edges().contains_key((from, to))
            && PlaceState::available_in(analysis.edges()[(from, to)], body, place) && !(analysis.entry(
            to,
        ) matches Some(view) && PlaceState::available_in(view, body, place)),
    }
}

/// Whether `loan` is definitely active when control leaves the query's block.
pub open spec fn active_for(loans: LoanAnalysis, query: Availability, loan: LoanId) -> bool {
    loans.active_at_exit().contains_key(query.source()) && loans.active_at_exit()[query.source()].contains(
        loan@,
    )
}

/// Whether `place` is definitely initialized where `query` points.
fn place_initialized(
    body: &Body,
    analysis: &InitializationAnalysis,
    query: Availability,
    place: Place,
) -> (initialized: bool)
    requires
        analysis.wf(*body),
    ensures
        initialized == initialized_for(*analysis, query, *body, place),
{
    match query {
        Availability::OnEdge { from, to } => analysis.initialized_on_edge(body, from, to, place),
        Availability::AtExit { block } => analysis.initialized_at_exit(body, block, place),
        Availability::OnlyOnEdge { from, to } => analysis.initialized_on_edge(body, from, to, place)
            && !analysis.initialized_at_entry(body, to, place),
    }
}

/// Whether `terminator` is an exit into which an edge also drops what it
/// alone initialized: a return, a returned outcome or failure, a propagated
/// failure, or a trap.
pub open spec fn terminal_exit(terminator: Terminator) -> bool {
    match terminator {
        Terminator::Return
        | Terminator::ReturnOutcome { .. }
        | Terminator::ReturnFailure { .. }
        | Terminator::PropagateFailure
        | Terminator::Trap => true,
        _ => false,
    }
}

/// Whether `terminator` is an exit into which an edge also drops what it
/// alone initialized: a return, a returned outcome or failure, a propagated
/// failure, or a trap.
pub fn is_terminal_exit(terminator: &Terminator) -> (exits: bool)
    ensures
        exits == terminal_exit(*terminator),
{
    match terminator {
        Terminator::Return
        | Terminator::ReturnOutcome { .. }
        | Terminator::ReturnFailure { .. }
        | Terminator::PropagateFailure
        | Terminator::Trap => true,
        _ => false,
    }
}

/// `start` and its enclosing scopes, innermost first.
pub fn scope_ancestors(body: &Body, start: ScopeId) -> (scopes: Vec<ScopeId>)
    requires
        body.tables_addressable(),
    ensures
        scopes@ == ancestors(body.scopes@, start),
{
    scope_chain(&body.scopes, start)
}

/// Local `index` owns a cleanup obligation when one of `exited` is left: it
/// is a moved aggregate of one of those scopes other than the return local.
pub open spec fn local_candidate(body: Body, exited: Seq<ScopeId>, index: int) -> bool {
    &&& 0 <= index < body.locals@.len()
    &&& LocalId::at(index) != body.return_local
    &&& exited.contains(body.locals@[index].scope)
    &&& body.locals@[index].representation == ValueRepresentation::Aggregate
    &&& body.locals@[index].ownership == OwnershipKind::Move
}

/// Projection path `index` is an initialized, owned part of `local` whose
/// parent part is not itself initialized.
pub open spec fn projection_candidate(
    body: Body,
    analysis: InitializationAnalysis,
    query: Availability,
    local: LocalId,
    index: int,
) -> bool {
    let path = body.projections@[index];
    &&& 0 <= index < body.projections@.len()
    &&& path.base == local
    &&& path.representation == ValueRepresentation::Aggregate
    &&& path.ownership == OwnershipKind::Move
    &&& initialized_for(analysis, query, body, Place { local, projection: Some(path.id) })
    &&& match path.parent {
        None => true,
        Some(parent) => !initialized_for(analysis, query, body, Place { local, projection: Some(parent) }),
    }
}

/// `place` must be dropped when the scopes `exited` are left: the whole of a
/// candidate local when it is initialized, otherwise each outermost
/// initialized owned part of it.
pub open spec fn cleanup_place(
    body: Body,
    analysis: InitializationAnalysis,
    query: Availability,
    exited: Seq<ScopeId>,
    place: Place,
) -> bool {
    let root = Place { local: place.local, projection: None };
    &&& local_candidate(body, exited, place.local@ as int)
    &&& match place.projection {
        None => initialized_for(analysis, query, body, root),
        Some(p) => !initialized_for(analysis, query, body, root) && exists|index: int|
            projection_candidate(body, analysis, query, place.local, index) && #[trigger] body.projections@[index].id == p,
    }
}

/// The parts `part(i)` for `i` from `hi - 1` down to `lo`, concatenated.
pub open spec fn descending<A>(part: spec_fn(int) -> Seq<A>, lo: int, hi: int) -> Seq<A>
    decreases hi - lo,
{
    if lo >= hi {
        Seq::empty()
    } else {
        part(hi - 1) + descending(part, lo, hi - 1)
    }
}

/// The parts `part(i)` for `i` from `lo` up to `hi - 1`, concatenated.
pub open spec fn ascending<A>(part: spec_fn(int) -> Seq<A>, lo: int, hi: int) -> Seq<A>
    decreases hi - lo,
{
    if lo >= hi {
        Seq::empty()
    } else {
        ascending(part, lo, hi - 1) + part(hi - 1)
    }
}

/// Going one further down appends that part.
proof fn lemma_descending_lower<A>(part: spec_fn(int) -> Seq<A>, lo: int, hi: int)
    requires
        lo <= hi,
    ensures
        descending(part, lo - 1, hi) == descending(part, lo, hi) + part(lo - 1),
    decreases hi - lo,
{
    if lo == hi {
        assert(descending(part, lo - 1, hi - 1) =~= Seq::<A>::empty());
        assert(descending(part, lo, hi) + part(lo - 1) =~= part(lo - 1));
        assert(part(hi - 1) + Seq::<A>::empty() =~= part(hi - 1));
    } else {
        lemma_descending_lower(part, lo, hi - 1);
        assert(part(hi - 1) + (descending(part, lo, hi - 1) + part(lo - 1)) =~= (part(hi - 1) + descending(
            part,
            lo,
            hi - 1,
        )) + part(lo - 1));
    }
}

/// Whether path `q` of `local` is to be dropped on its own, as one place.
pub open spec fn path_part(
    body: Body,
    analysis: InitializationAnalysis,
    query: Availability,
    local: LocalId,
    q: int,
) -> Seq<Place> {
    if projection_candidate(body, analysis, query, local, q) {
        seq![Place { local, projection: Some(body.projections@[q].id) }]
    } else {
        Seq::empty()
    }
}

/// The parts of `local` indexed by path.
pub open spec fn path_parts(
    body: Body,
    analysis: InitializationAnalysis,
    query: Availability,
    local: LocalId,
) -> spec_fn(int) -> Seq<Place> {
    |q: int| path_part(body, analysis, query, local, q)
}

/// The places of local `l` to drop per `query`: the whole local when it is
/// initialized, otherwise each initialized owned path of it whose parent is
/// not, from the last path to the first.
pub open spec fn local_places(body: Body, analysis: InitializationAnalysis, query: Availability, l: int) -> Seq<
    Place,
> {
    let local = LocalId::at(l);
    if initialized_for(analysis, query, body, Place { local, projection: None }) {
        seq![Place { local, projection: None }]
    } else {
        descending(path_parts(body, analysis, query, local), 0, body.projections@.len() as int)
    }
}

/// The places of local `index` that must be dropped.
fn places_of_local(
    body: &Body,
    analysis: &InitializationAnalysis,
    query: Availability,
    index: usize,
) -> (places: Vec<Place>)
    requires
        analysis.wf(*body),
        body.tables_addressable(),
        index < body.locals@.len(),
    ensures
        places@ == local_places(*body, *analysis, query, index as int),
        forall|place: Place|
            places@.contains(place) <==> (place.local == LocalId::at(index as int) && match place.projection {
                None => initialized_for(*analysis, query, *body, place),
                Some(p) => !initialized_for(
                    *analysis,
                    query,
                    *body,
                    Place { local: place.local, projection: None },
                ) && exists|q: int|
                    projection_candidate(*body, *analysis, query, place.local, q) && #[trigger] body.projections@[q].id == p,
            }),
{
    let id = LocalId::from_index(index);
    let root = Place::local(id);
    let mut places: Vec<Place> = Vec::new();
    if place_initialized(body, analysis, query, root) {
        places.push(root);
        proof {
            assert forall|place: Place| places@.contains(place) <==> (place.local == LocalId::at(index as int) && match place.projection {
                None => initialized_for(*analysis, query, *body, place),
                Some(p) => !initialized_for(
                    *analysis,
                    query,
                    *body,
                    Place { local: place.local, projection: None },
                ) && exists|q: int|
                    projection_candidate(*body, *analysis, query, place.local, q) && #[trigger] body.projections@[q].id == p,
            }) by {
                if places@.contains(place) {
                    assert(places@[0] == root);
                }
                if place.local == LocalId::at(index as int) && place.projection is None {
                    assert(place == root);
                    assert(places@[0] == place);
                }
            }
        }
        return places;
    }
    let mut remaining = body.projections.len();
    while remaining > 0
        invariant
            remaining <= body.projections@.len(),
            analysis.wf(*body),
            body.tables_addressable(),
            places@ == descending(path_parts(*body, *analysis, query, id), remaining as int, body.projections@.len() as int),
            !initialized_for(*analysis, query, *body, root),
            root == (Place { local: id, projection: None }),
            id == LocalId::at(index as int),
            forall|place: Place|
                places@.contains(place) <==> (place.local == id && match place.projection {
                    None => false,
                    Some(p) => exists|q: int|
                        remaining <= q && projection_candidate(*body, *analysis, query, id, q) && #[trigger] body.projections@[q].id == p,
                }),
        decreases remaining,
    {
        remaining = remaining - 1;
        let path = body.projections[remaining];
        let ghost before = places@;
        proof {
            lemma_descending_lower(
                path_parts(*body, *analysis, query, id),
                remaining + 1,
                body.projections@.len() as int,
            );
        }
        if path.base == id && path.representation == ValueRepresentation::Aggregate && path.ownership
            == OwnershipKind::Move {
            let place = Place::projected(id, path.id);
            if place_initialized(body, analysis, query, place) && match path.parent {
                None => true,
                Some(parent) => !place_initialized(body, analysis, query, Place::projected(id, parent)),
            } {
                places.push(place);
                assert(projection_candidate(*body, *analysis, query, id, remaining as int));
            }
        }
        proof {
            assert forall|place: Place|
                places@.contains(place) <==> (place.local == id && match place.projection {
                    None => false,
                    Some(p) => exists|q: int|
                        remaining <= q && projection_candidate(*body, *analysis, query, id, q) && #[trigger] body.projections@[q].id == p,
                }) by {
                if places@.contains(place) && !before.contains(place) {
                    assert(place == places@.last());
                    assert(body.projections@[remaining as int].id == place.projection.unwrap());
                }
                if place.local == id && place.projection is Some {
                    let p = place.projection.unwrap();
                    if exists|q: int| remaining <= q && projection_candidate(*body, *analysis, query, id, q) && #[trigger] body.projections@[q].id == p {
                        let q = choose|q: int| remaining <= q && projection_candidate(*body, *analysis, query, id, q) && #[trigger] body.projections@[q].id == p;
                        if q == remaining {
                            assert(places@.last() == place);
                            assert(places@.contains(place));
                        } else {
                            assert(before.contains(place));
                            let k = choose|k: int| 0 <= k < before.len() && before[k] == place;
                            assert(places@[k] == place);
                        }
                    }
                }
            }
        }
    }
    places
}


/// Extends `places` with `part`.
fn append_places(places: &mut Vec<Place>, part: &Vec<Place>)
    ensures
        final(places)@ == old(places)@ + part@,
        forall|p: Place| #[trigger] final(places)@.contains(p) <==> (old(places)@.contains(p) || part@.contains(p)),
{
    let mut index: usize = 0;
    while index < part.len()
        invariant
            index <= part@.len(),
            places@ == old(places)@ + part@.take(index as int),
            forall|p: Place| places@.contains(p) <==> (old(places)@.contains(p) || part@.take(index as int).contains(p)),
        decreases part@.len() - index,
    {
        let ghost before = places@;
        places.push(part[index]);
        proof {
            assert forall|p: Place| places@.contains(p) <==> (old(places)@.contains(p) || part@.take(index + 1).contains(p)) by {
                if places@.contains(p) {
                    let k = choose|k: int| 0 <= k < places@.len() && places@[k] == p;
                    if k < before.len() {
                        assert(before[k] == p);
                        if part@.take(index as int).contains(p) {
                            let m = choose|m: int| 0 <= m < index && #[trigger] part@.take(index as int)[m] == p;
                            assert(part@.take(index + 1)[m] == p);
                        }
                    } else {
                        assert(part@.take(index + 1)[index as int] == p);
                    }
                }
                if part@.take(index + 1).contains(p) {
                    let m = choose|m: int| 0 <= m < index + 1 && #[trigger] part@.take(index + 1)[m] == p;
                    if m < index {
                        assert(part@.take(index as int)[m] == p);
                        assert(before.contains(p));
                        let k = choose|k: int| 0 <= k < before.len() && before[k] == p;
                        assert(places@[k] == p);
                    } else {
                        assert(places@[before.len() as int] == p);
                    }
                }
                if old(places)@.contains(p) {
                    assert(before.contains(p));
                    let k = choose|k: int| 0 <= k < before.len() && before[k] == p;
                    assert(places@[k] == p);
                }
            }
        }
        index = index + 1;
    }
    assert(part@.take(part@.len() as int) =~= part@);
}

/// Local `l` owns a cleanup obligation when `scope` is left: it is a moved
/// aggregate of `scope` other than the return local.
pub open spec fn owned_in_scope(body: Body, scope: ScopeId, l: int) -> bool {
    &&& 0 <= l < body.locals@.len()
    &&& LocalId::at(l) != body.return_local
    &&& body.locals@[l].scope == scope
    &&& body.locals@[l].representation == ValueRepresentation::Aggregate
    &&& body.locals@[l].ownership == OwnershipKind::Move
}

/// The places of the locals of `scope`, indexed by local.
pub open spec fn scope_local_parts(
    body: Body,
    analysis: InitializationAnalysis,
    query: Availability,
    scope: ScopeId,
) -> spec_fn(int) -> Seq<Place> {
    |l: int|
        if owned_in_scope(body, scope, l) {
            local_places(body, analysis, query, l)
        } else {
            Seq::empty()
        }
}

/// The places to drop when `scope` is left, from the last local to the
/// first.
pub open spec fn scope_places(body: Body, analysis: InitializationAnalysis, query: Availability, scope: ScopeId) -> Seq<
    Place,
> {
    descending(scope_local_parts(body, analysis, query, scope), 0, body.locals@.len() as int)
}

/// The places to drop for each of `exited`, indexed by position.
pub open spec fn exited_place_parts(
    body: Body,
    analysis: InitializationAnalysis,
    query: Availability,
    exited: Seq<ScopeId>,
) -> spec_fn(int) -> Seq<Place> {
    |k: int| scope_places(body, analysis, query, exited[k])
}

/// The places to drop when the scopes `exited` are left: for each scope, and
/// within it from the last local to the first, the whole of each initialized
/// owned local, or else its outermost initialized owned parts.
pub fn cleanup_places(
    body: &Body,
    exited: &Vec<ScopeId>,
    analysis: &InitializationAnalysis,
    query: Availability,
) -> (places: Vec<Place>)
    requires
        analysis.wf(*body),
        body.tables_addressable(),
    ensures
        places@ == ascending(exited_place_parts(*body, *analysis, query, exited@), 0, exited@.len() as int),
        forall|place: Place| places@.contains(place) <==> cleanup_place(*body, *analysis, query, exited@, place),
{
    let mut places: Vec<Place> = Vec::new();
    let mut scope_index: usize = 0;
    while scope_index < exited.len()
        invariant
            scope_index <= exited@.len(),
            analysis.wf(*body),
            body.tables_addressable(),
            places@ == ascending(exited_place_parts(*body, *analysis, query, exited@), 0, scope_index as int),
            forall|place: Place|
                places@.contains(place) <==> cleanup_place(
                    *body,
                    *analysis,
                    query,
                    exited@.take(scope_index as int),
                    place,
                ),
        decreases exited@.len() - scope_index,
    {
        let scope = exited[scope_index];
        let ghost done = exited@.take(scope_index as int);
        let ghost current = seq![scope];
        let ghost prior = places@;
        let mut remaining = body.locals.len();
        while remaining > 0
            invariant
                remaining <= body.locals@.len(),
                analysis.wf(*body),
                body.tables_addressable(),
                places@ == prior + descending(
                    scope_local_parts(*body, *analysis, query, scope),
                    remaining as int,
                    body.locals@.len() as int,
                ),
                current == seq![scope],
                done == exited@.take(scope_index as int),
                scope_index < exited@.len(),
                scope == exited@[scope_index as int],
                forall|place: Place|
                    places@.contains(place) <==> (cleanup_place(*body, *analysis, query, done, place) || (
                    cleanup_place(*body, *analysis, query, current, place) && place.local@ >= remaining)),
            decreases remaining,
        {
            remaining = remaining - 1;
            let local = body.locals[remaining];
            let ghost before = places@;
            proof {
                lemma_descending_lower(
                    scope_local_parts(*body, *analysis, query, scope),
                    remaining + 1,
                    body.locals@.len() as int,
                );
            }
            let chosen = LocalId::from_index(remaining) != body.return_local && local.scope == scope
                && local.representation == ValueRepresentation::Aggregate && local.ownership
                == OwnershipKind::Move;
            proof {
                assert(chosen == owned_in_scope(*body, scope, remaining as int));
                if !chosen {
                    assert(before + Seq::<Place>::empty() =~= before);
                }
            }
            if chosen {
                let part = places_of_local(body, analysis, query, remaining);
                proof {
                    assert(current[0] == scope);
                    assert(current.contains(scope));
                    assert(local_candidate(*body, current, remaining as int));
                    assert forall|place: Place|
                        part@.contains(place) <==> (cleanup_place(*body, *analysis, query, current, place) && place.local@ == remaining) by {
                        if cleanup_place(*body, *analysis, query, current, place) && place.local@ == remaining {
                            assert(place.local == LocalId::at(remaining as int));
                        }
                    }
                }
                append_places(&mut places, &part);
                assert(forall|p: Place| #[trigger] places@.contains(p) <==> (before.contains(p) || part@.contains(p)));
                proof {
                    assert forall|place: Place|
                        places@.contains(place) <==> (cleanup_place(*body, *analysis, query, done, place) || (
                        cleanup_place(*body, *analysis, query, current, place) && place.local@ >= remaining)) by {
                        assert(places@.contains(place) <==> (before.contains(place) || part@.contains(place)));
                    }
                }
            }
            proof {
                assert forall|place: Place|
                    places@.contains(place) <==> (cleanup_place(*body, *analysis, query, done, place) || (
                    cleanup_place(*body, *analysis, query, current, place) && place.local@ >= remaining)) by {
                    if cleanup_place(*body, *analysis, query, current, place) && place.local@ == remaining {
                        assert(current.contains(body.locals@[remaining as int].scope));
                        let k = choose|k: int| 0 <= k < current.len() && current[k] == body.locals@[remaining as int].scope;
                        assert(k == 0);
                        assert(place.local == LocalId::at(remaining as int));
                        assert(chosen);
                    }
                }
            }
        }
        proof {
            let next = exited@.take(scope_index + 1);
            assert forall|x: ScopeId| next.contains(x) <==> (done.contains(x) || current.contains(x)) by {
                if next.contains(x) {
                    let k = choose|k: int| 0 <= k < next.len() && next[k] == x;
                    if k < scope_index {
                        assert(done[k] == x);
                    } else {
                        assert(current[0] == x);
                    }
                }
                if done.contains(x) {
                    let k = choose|k: int| 0 <= k < done.len() && done[k] == x;
                    assert(next[k] == x);
                }
                if current.contains(x) {
                    assert(next[scope_index as int] == x);
                }
            }
            assert forall|place: Place|
                places@.contains(place) <==> cleanup_place(*body, *analysis, query, next, place) by {
                let s = body.locals@[place.local@ as int].scope;
                assert(next.contains(s) <==> (done.contains(s) || current.contains(s)));
            }
        }
        scope_index = scope_index + 1;
    }
    assert(exited@.take(exited@.len() as int) =~= exited@);
    places
}


/// `action` is part of the cleanup when the scopes `exited` are left.
pub open spec fn cleanup_action(
    body: Body,
    analysis: InitializationAnalysis,
    loans: LoanAnalysis,
    query: Availability,
    exited: Seq<ScopeId>,
    action: CleanupAction,
) -> bool {
    match action {
        CleanupAction::EndLoan(loan) => exists|i: int|
            0 <= i < body.loans@.len() && #[trigger] body.loans@[i].id == loan && body.loans@[i].lifetime
                == LoanLifetime::Scope && exited.contains(body.loans@[i].scope) && active_for(
                loans,
                query,
                loan,
            ),
        CleanupAction::Drop(place) => cleanup_place(body, analysis, query, exited, place),
        CleanupAction::Override(id) => exists|i: int|
            0 <= i < body.allocation_overrides@.len() && #[trigger] body.allocation_overrides@[i].id == id
                && exited.contains(body.allocation_overrides@[i].scope),
        CleanupAction::Region(id) => exists|i: int|
            0 <= i < body.allocation_regions@.len() && #[trigger] body.allocation_regions@[i].id == id
                && exited.contains(body.allocation_regions@[i].scope),
    }
}

/// Extends `actions` with `part`.
fn append_actions(actions: &mut Vec<CleanupAction>, part: &Vec<CleanupAction>)
    ensures
        final(actions)@ == old(actions)@ + part@,
        forall|a: CleanupAction| #[trigger] final(actions)@.contains(a) <==> (old(actions)@.contains(a) || part@.contains(a)),
{
    let mut index: usize = 0;
    while index < part.len()
        invariant
            index <= part@.len(),
            actions@ == old(actions)@ + part@.take(index as int),
        decreases part@.len() - index,
    {
        actions.push(part[index]);
        assert(part@.take(index + 1) =~= part@.take(index as int).push(part@[index as int]));
        index = index + 1;
    }
    assert(part@.take(part@.len() as int) =~= part@);
    assert forall|a: CleanupAction| #[trigger] actions@.contains(a) <==> (old(actions)@.contains(a) || part@.contains(a)) by {
        if actions@.contains(a) {
            let k = choose|k: int| 0 <= k < actions@.len() && actions@[k] == a;
            if k >= old(actions)@.len() {
                assert(part@[k - old(actions)@.len()] == a);
            }
        }
        if old(actions)@.contains(a) {
            let k = choose|k: int| 0 <= k < old(actions)@.len() && old(actions)@[k] == a;
            assert(actions@[k] == a);
        }
        if part@.contains(a) {
            let k = choose|k: int| 0 <= k < part@.len() && part@[k] == a;
            assert(actions@[old(actions)@.len() + k] == a);
        }
    }
}

/// One drop action per place, in order.
fn drop_actions(places: &Vec<Place>) -> (actions: Vec<CleanupAction>)
    ensures
        actions@ == drops_of(places@),
        actions@.len() == places@.len(),
        forall|i: int| 0 <= i < places@.len() ==> actions@[i] == CleanupAction::Drop(places@[i]),
        forall|a: CleanupAction| #[trigger] actions@.contains(a) <==> (a is Drop && places@.contains(a->Drop_0)),
{
    let mut actions: Vec<CleanupAction> = Vec::new();
    let mut index: usize = 0;
    while index < places.len()
        invariant
            index <= places@.len(),
            actions@.len() == index,
            forall|i: int| 0 <= i < index ==> actions@[i] == CleanupAction::Drop(places@[i]),
        decreases places@.len() - index,
    {
        actions.push(CleanupAction::Drop(places[index]));
        index = index + 1;
    }
    assert(actions@ =~= drops_of(places@));
    assert forall|a: CleanupAction| #[trigger] actions@.contains(a) <==> (a is Drop && places@.contains(a->Drop_0)) by {
        if actions@.contains(a) {
            let k = choose|k: int| 0 <= k < actions@.len() && actions@[k] == a;
            assert(places@[k] == a->Drop_0);
        }
        if a is Drop && places@.contains(a->Drop_0) {
            let k = choose|k: int| 0 <= k < places@.len() && places@[k] == a->Drop_0;
            assert(actions@[k] == a);
        }
    }
    actions
}

/// A drop of each of `places`, in order.
pub open spec fn drops_of(places: Seq<Place>) -> Seq<CleanupAction> {
    places.map_values(|place: Place| CleanupAction::Drop(place))
}

/// The end of loan `i` when it is bound to `scope` and active per `query`.
pub open spec fn scope_loan_part(body: Body, loans: LoanAnalysis, query: Availability, scope: ScopeId, i: int) -> Seq<
    CleanupAction,
> {
    let loan = body.loans@[i];
    if loan.lifetime == LoanLifetime::Scope && loan.scope == scope && active_for(loans, query, loan.id) {
        seq![CleanupAction::EndLoan(loan.id)]
    } else {
        Seq::empty()
    }
}

/// The loan ends of `scope`, indexed by loan.
pub open spec fn scope_loan_parts(body: Body, loans: LoanAnalysis, query: Availability, scope: ScopeId) -> spec_fn(
    int,
) -> Seq<CleanupAction> {
    |i: int| scope_loan_part(body, loans, query, scope, i)
}

/// The exits of the allocation overrides of `scope`, indexed by override.
pub open spec fn override_parts(body: Body, scope: ScopeId) -> spec_fn(int) -> Seq<CleanupAction> {
    |i: int|
        if body.allocation_overrides@[i].scope == scope {
            seq![CleanupAction::Override(body.allocation_overrides@[i].id)]
        } else {
            Seq::empty()
        }
}

/// The exits of the allocation regions of `scope`, indexed by region.
pub open spec fn region_parts(body: Body, scope: ScopeId) -> spec_fn(int) -> Seq<CleanupAction> {
    |i: int|
        if body.allocation_regions@[i].scope == scope {
            seq![CleanupAction::Region(body.allocation_regions@[i].id)]
        } else {
            Seq::empty()
        }
}

/// The cleanup of `scope`, in order: the ends of its active scope-bound
/// loans, newest first; the drops of its places; the exits of its
/// allocation overrides and then of its regions, newest first.
pub open spec fn scope_cleanup(
    body: Body,
    analysis: InitializationAnalysis,
    loans: LoanAnalysis,
    query: Availability,
    scope: ScopeId,
) -> Seq<CleanupAction> {
    descending(scope_loan_parts(body, loans, query, scope), 0, body.loans@.len() as int) + drops_of(
        scope_places(body, analysis, query, scope),
    ) + descending(override_parts(body, scope), 0, body.allocation_overrides@.len() as int) + descending(
        region_parts(body, scope),
        0,
        body.allocation_regions@.len() as int,
    )
}

/// The cleanup of each of `exited`, indexed by position.
pub open spec fn exited_cleanup_parts(
    body: Body,
    analysis: InitializationAnalysis,
    loans: LoanAnalysis,
    query: Availability,
    exited: Seq<ScopeId>,
) -> spec_fn(int) -> Seq<CleanupAction> {
    |k: int| scope_cleanup(body, analysis, loans, query, exited[k])
}

/// The cleanup when the scopes `exited` are left, scope by scope in order.
pub open spec fn cleanup_sequence(
    body: Body,
    analysis: InitializationAnalysis,
    loans: LoanAnalysis,
    query: Availability,
    exited: Seq<ScopeId>,
) -> Seq<CleanupAction> {
    ascending(exited_cleanup_parts(body, analysis, loans, query, exited), 0, exited.len() as int)
}

/// The cleanup of one scope: its scope-bound loans that are active, newest
/// first, then its owned places, then its allocation overrides and regions,
/// newest first.
fn scope_actions(
    body: &Body,
    analysis: &InitializationAnalysis,
    loans: &LoanAnalysis,
    query: Availability,
    scope: ScopeId,
) -> (actions: Vec<CleanupAction>)
    requires
        analysis.wf(*body),
        body.tables_addressable(),
    ensures
        actions@ == scope_cleanup(*body, *analysis, *loans, query, scope),
        forall|a: CleanupAction|
            #[trigger] actions@.contains(a) <==> cleanup_action(*body, *analysis, *loans, query, seq![scope], a),
{
    let ghost only = seq![scope];
    assert(only.contains(scope)) by {
        assert(only[0] == scope);
    }
    assert forall|x: ScopeId| only.contains(x) <==> x == scope by {
        if only.contains(x) {
            let k = choose|k: int| 0 <= k < only.len() && only[k] == x;
            assert(k == 0);
        }
    }
    let mut actions: Vec<CleanupAction> = Vec::new();
    let mut remaining = body.loans.len();
    while remaining > 0
        invariant
            remaining <= body.loans@.len(),
            actions@ == descending(scope_loan_parts(*body, *loans, query, scope), remaining as int, body.loans@.len() as int),
            only == seq![scope],
            forall|x: ScopeId| only.contains(x) <==> x == scope,
            forall|a: CleanupAction|
                #[trigger] actions@.contains(a) <==> (a is EndLoan && exists|i: int|
                    remaining <= i < body.loans@.len() && #[trigger] body.loans@[i].id == a->EndLoan_0
                        && body.loans@[i].lifetime == LoanLifetime::Scope && body.loans@[i].scope == scope
                        && active_for(*loans, query, a->EndLoan_0)),
        decreases remaining,
    {
        remaining = remaining - 1;
        let loan = body.loans[remaining];
        let ghost before = actions@;
        proof {
            lemma_descending_lower(scope_loan_parts(*body, *loans, query, scope), remaining + 1, body.loans@.len() as int);
            assert(before + Seq::<CleanupAction>::empty() =~= before);
        }
        if loan.lifetime == LoanLifetime::Scope && loan.scope == scope && loans.definitely_active_at_exit(
            match query {
                Availability::OnEdge { from, .. } => from,
                Availability::AtExit { block } => block,
                Availability::OnlyOnEdge { from, .. } => from,
            },
            loan.id,
        ) {
            actions.push(CleanupAction::EndLoan(loan.id));
        }
        proof {
            assert forall|a: CleanupAction|
                #[trigger] actions@.contains(a) <==> (a is EndLoan && exists|i: int|
                    remaining <= i < body.loans@.len() && #[trigger] body.loans@[i].id == a->EndLoan_0
                        && body.loans@[i].lifetime == LoanLifetime::Scope && body.loans@[i].scope == scope
                        && active_for(*loans, query, a->EndLoan_0)) by {
                if actions@.contains(a) && !before.contains(a) {
                    assert(a == actions@.last());
                    assert(body.loans@[remaining as int].id == a->EndLoan_0);
                }
                if before.contains(a) {
                    let k = choose|k: int| 0 <= k < before.len() && before[k] == a;
                    assert(actions@[k] == a);
                }
                if a is EndLoan && exists|i: int|
                    remaining <= i < body.loans@.len() && #[trigger] body.loans@[i].id == a->EndLoan_0
                        && body.loans@[i].lifetime == LoanLifetime::Scope && body.loans@[i].scope == scope
                        && active_for(*loans, query, a->EndLoan_0) {
                    let i = choose|i: int|
                        remaining <= i < body.loans@.len() && #[trigger] body.loans@[i].id == a->EndLoan_0
                            && body.loans@[i].lifetime == LoanLifetime::Scope && body.loans@[i].scope == scope
                            && active_for(*loans, query, a->EndLoan_0);
                    if i == remaining {
                        assert(actions@.last() == a);
                    } else {
                        assert(before.contains(a));
                    }
                }
            }
        }
    }
    let scopes = vec![scope];
    assert(scopes@ == only);
    let places = cleanup_places(body, &scopes, analysis, query);
    assert(places@ == scope_places(*body, *analysis, query, scope)) by {
        assert(ascending(exited_place_parts(*body, *analysis, query, only), 0, 0) =~= Seq::<Place>::empty());
        assert(Seq::<Place>::empty() + scope_places(*body, *analysis, query, scope) =~= scope_places(
            *body,
            *analysis,
            query,
            scope,
        ));
    }
    let drops = drop_actions(&places);
    append_actions(&mut actions, &drops);
    let mut remaining = body.allocation_overrides.len();
    let mut overrides: Vec<CleanupAction> = Vec::new();
    while remaining > 0
        invariant
            remaining <= body.allocation_overrides@.len(),
            overrides@ == descending(override_parts(*body, scope), remaining as int, body.allocation_overrides@.len() as int),
            forall|a: CleanupAction|
                #[trigger] overrides@.contains(a) <==> (a is Override && exists|i: int|
                    remaining <= i < body.allocation_overrides@.len() && #[trigger] body.allocation_overrides@[i].id
                        == a->Override_0 && body.allocation_overrides@[i].scope == scope),
        decreases remaining,
    {
        remaining = remaining - 1;
        let record = body.allocation_overrides[remaining];
        let ghost before = overrides@;
        proof {
            lemma_descending_lower(override_parts(*body, scope), remaining + 1, body.allocation_overrides@.len() as int);
            assert(before + Seq::<CleanupAction>::empty() =~= before);
        }
        if record.scope == scope {
            overrides.push(CleanupAction::Override(record.id));
        }
        proof {
            assert forall|a: CleanupAction|
                #[trigger] overrides@.contains(a) <==> (a is Override && exists|i: int|
                    remaining <= i < body.allocation_overrides@.len() && #[trigger] body.allocation_overrides@[i].id
                        == a->Override_0 && body.allocation_overrides@[i].scope == scope) by {
                if overrides@.contains(a) && !before.contains(a) {
                    assert(a == overrides@.last());
                    assert(body.allocation_overrides@[remaining as int].id == a->Override_0);
                }
                if before.contains(a) {
                    let k = choose|k: int| 0 <= k < before.len() && before[k] == a;
                    assert(overrides@[k] == a);
                }
                if a is Override && exists|i: int|
                    remaining <= i < body.allocation_overrides@.len() && #[trigger] body.allocation_overrides@[i].id
                        == a->Override_0 && body.allocation_overrides@[i].scope == scope {
                    let i = choose|i: int|
                        remaining <= i < body.allocation_overrides@.len() && #[trigger] body.allocation_overrides@[i].id
                            == a->Override_0 && body.allocation_overrides@[i].scope == scope;
                    if i == remaining {
                        assert(overrides@.last() == a);
                    } else {
                        assert(before.contains(a));
                    }
                }
            }
        }
    }
    append_actions(&mut actions, &overrides);
    let mut remaining = body.allocation_regions.len();
    let mut regions: Vec<CleanupAction> = Vec::new();
    while remaining > 0
        invariant
            remaining <= body.allocation_regions@.len(),
            regions@ == descending(region_parts(*body, scope), remaining as int, body.allocation_regions@.len() as int),
            forall|a: CleanupAction|
                #[trigger] regions@.contains(a) <==> (a is Region && exists|i: int|
                    remaining <= i < body.allocation_regions@.len() && #[trigger] body.allocation_regions@[i].id
                        == a->Region_0 && body.allocation_regions@[i].scope == scope),
        decreases remaining,
    {
        remaining = remaining - 1;
        let record = body.allocation_regions[remaining];
        let ghost before = regions@;
        proof {
            lemma_descending_lower(region_parts(*body, scope), remaining + 1, body.allocation_regions@.len() as int);
            assert(before + Seq::<CleanupAction>::empty() =~= before);
        }
        if record.scope == scope {
            regions.push(CleanupAction::Region(record.id));
        }
        proof {
            assert forall|a: CleanupAction|
                #[trigger] regions@.contains(a) <==> (a is Region && exists|i: int|
                    remaining <= i < body.allocation_regions@.len() && #[trigger] body.allocation_regions@[i].id
                        == a->Region_0 && body.allocation_regions@[i].scope == scope) by {
                if regions@.contains(a) && !before.contains(a) {
                    assert(a == regions@.last());
                    assert(body.allocation_regions@[remaining as int].id == a->Region_0);
                }
                if before.contains(a) {
                    let k = choose|k: int| 0 <= k < before.len() && before[k] == a;
                    assert(regions@[k] == a);
                }
                if a is Region && exists|i: int|
                    remaining <= i < body.allocation_regions@.len() && #[trigger] body.allocation_regions@[i].id
                        == a->Region_0 && body.allocation_regions@[i].scope == scope {
                    let i = choose|i: int|
                        remaining <= i < body.allocation_regions@.len() && #[trigger] body.allocation_regions@[i].id
                            == a->Region_0 && body.allocation_regions@[i].scope == scope;
                    if i == remaining {
                        assert(regions@.last() == a);
                    } else {
                        assert(before.contains(a));
                    }
                }
            }
        }
    }
    append_actions(&mut actions, &regions);
    proof {
        assert forall|a: CleanupAction|
            #[trigger] actions@.contains(a) <==> cleanup_action(*body, *analysis, *loans, query, only, a) by {
            match a {
                CleanupAction::EndLoan(l) => {},
                CleanupAction::Drop(p) => {},
                CleanupAction::Override(o) => {},
                CleanupAction::Region(r) => {},
            }
        }
    }
    actions
}


/// The cleanup actions when the scopes `exited` are left, scope by scope,
/// innermost first.
pub fn cleanup_actions(
    body: &Body,
    exited: &Vec<ScopeId>,
    analysis: &InitializationAnalysis,
    loans: &LoanAnalysis,
    query: Availability,
) -> (actions: Vec<CleanupAction>)
    requires
        analysis.wf(*body),
        body.tables_addressable(),
    ensures
        actions@ == cleanup_sequence(*body, *analysis, *loans, query, exited@),
        forall|a: CleanupAction|
            #[trigger] actions@.contains(a) <==> cleanup_action(*body, *analysis, *loans, query, exited@, a),
{
    let mut actions: Vec<CleanupAction> = Vec::new();
    let mut index: usize = 0;
    while index < exited.len()
        invariant
            index <= exited@.len(),
            analysis.wf(*body),
            body.tables_addressable(),
            actions@ == ascending(exited_cleanup_parts(*body, *analysis, *loans, query, exited@), 0, index as int),
            forall|a: CleanupAction|
                #[trigger] actions@.contains(a) <==> cleanup_action(
                    *body,
                    *analysis,
                    *loans,
                    query,
                    exited@.take(index as int),
                    a,
                ),
        decreases exited@.len() - index,
    {
        let scope = exited[index];
        let part = scope_actions(body, analysis, loans, query, scope);
        append_actions(&mut actions, &part);
        proof {
            let done = exited@.take(index as int);
            let next = exited@.take(index + 1);
            let current = seq![scope];
            assert forall|x: ScopeId| #[trigger] next.contains(x) <==> (done.contains(x) || current.contains(x)) by {
                if next.contains(x) {
                    let k = choose|k: int| 0 <= k < next.len() && next[k] == x;
                    if k < index {
                        assert(done[k] == x);
                    } else {
                        assert(current[0] == x);
                    }
                }
                if done.contains(x) {
                    let k = choose|k: int| 0 <= k < done.len() && done[k] == x;
                    assert(next[k] == x);
                }
                if current.contains(x) {
                    let k = choose|k: int| 0 <= k < current.len() && current[k] == x;
                    assert(next[index as int] == x);
                }
            }
            assert forall|a: CleanupAction|
                #[trigger] actions@.contains(a) <==> cleanup_action(*body, *analysis, *loans, query, next, a) by {
                match a {
                    CleanupAction::EndLoan(loan) => {
                        if cleanup_action(*body, *analysis, *loans, query, next, a) {
                            let i = choose|i: int|
                                0 <= i < body.loans@.len() && #[trigger] body.loans@[i].id == loan
                                    && body.loans@[i].lifetime == LoanLifetime::Scope && next.contains(body.loans@[i].scope)
                                    && active_for(*loans, query, loan);
                            assert(next.contains(body.loans@[i].scope));
                        }
                        if cleanup_action(*body, *analysis, *loans, query, done, a) {
                            let i = choose|i: int|
                                0 <= i < body.loans@.len() && #[trigger] body.loans@[i].id == loan
                                    && body.loans@[i].lifetime == LoanLifetime::Scope && done.contains(body.loans@[i].scope)
                                    && active_for(*loans, query, loan);
                            assert(next.contains(body.loans@[i].scope));
                        }
                        if cleanup_action(*body, *analysis, *loans, query, current, a) {
                            let i = choose|i: int|
                                0 <= i < body.loans@.len() && #[trigger] body.loans@[i].id == loan
                                    && body.loans@[i].lifetime == LoanLifetime::Scope && current.contains(body.loans@[i].scope)
                                    && active_for(*loans, query, loan);
                            assert(next.contains(body.loans@[i].scope));
                        }
                    },
                    CleanupAction::Drop(place) => {
                        let s = body.locals@[place.local@ as int].scope;
                        assert(next.contains(s) <==> (done.contains(s) || current.contains(s)));
                    },
                    CleanupAction::Override(id) => {
                        if cleanup_action(*body, *analysis, *loans, query, next, a) {
                            let i = choose|i: int|
                                0 <= i < body.allocation_overrides@.len() && #[trigger] body.allocation_overrides@[i].id == id
                                    && next.contains(body.allocation_overrides@[i].scope);
                            assert(next.contains(body.allocation_overrides@[i].scope));
                        }
                        if cleanup_action(*body, *analysis, *loans, query, done, a) {
                            let i = choose|i: int|
                                0 <= i < body.allocation_overrides@.len() && #[trigger] body.allocation_overrides@[i].id == id
                                    && done.contains(body.allocation_overrides@[i].scope);
                            assert(next.contains(body.allocation_overrides@[i].scope));
                        }
                        if cleanup_action(*body, *analysis, *loans, query, current, a) {
                            let i = choose|i: int|
                                0 <= i < body.allocation_overrides@.len() && #[trigger] body.allocation_overrides@[i].id == id
                                    && current.contains(body.allocation_overrides@[i].scope);
                            assert(next.contains(body.allocation_overrides@[i].scope));
                        }
                    },
                    CleanupAction::Region(id) => {
                        if cleanup_action(*body, *analysis, *loans, query, next, a) {
                            let i = choose|i: int|
                                0 <= i < body.allocation_regions@.len() && #[trigger] body.allocation_regions@[i].id == id
                                    && next.contains(body.allocation_regions@[i].scope);
                            assert(next.contains(body.allocation_regions@[i].scope));
                        }
                        if cleanup_action(*body, *analysis, *loans, query, done, a) {
                            let i = choose|i: int|
                                0 <= i < body.allocation_regions@.len() && #[trigger] body.allocation_regions@[i].id == id
                                    && done.contains(body.allocation_regions@[i].scope);
                            assert(next.contains(body.allocation_regions@[i].scope));
                        }
                        if cleanup_action(*body, *analysis, *loans, query, current, a) {
                            let i = choose|i: int|
                                0 <= i < body.allocation_regions@.len() && #[trigger] body.allocation_regions@[i].id == id
                                    && current.contains(body.allocation_regions@[i].scope);
                            assert(next.contains(body.allocation_regions@[i].scope));
                        }
                    },
                }
            }
        }
        index = index + 1;
    }
    assert(exited@.take(exited@.len() as int) =~= exited@);
    actions
}


/// The destruction plan of `place`: its projection's plan, or else its
/// local's plan.
pub open spec fn plan_for(body: Body, place: Place) -> Option<DropPlanId> {
    let projected = match place.projection {
        Some(p) => if p@ < body.projections@.len() {
            body.projections@[p@ as int].drop_plan
        } else {
            None
        },
        None => None,
    };
    match projected {
        Some(plan) => Some(plan),
        None => if place.local@ < body.locals@.len() {
            body.locals@[place.local@ as int].drop_plan
        } else {
            None
        },
    }
}

/// A chain block can be built for `action`: a dropped place names an
/// existing local (and path) and has a destruction plan.
pub open spec fn action_ready(body: Body, action: CleanupAction) -> bool {
    match action {
        CleanupAction::Drop(place) => place.local@ < body.locals@.len() && (place.projection matches Some(
            p,
        ) ==> p@ < body.projections@.len()) && plan_for(body, place) is Some,
        _ => true,
    }
}

/// `block` performs `action` and then continues at `target`.
pub open spec fn chain_block(body: Body, action: CleanupAction, target: BasicBlockId, block: BasicBlock) -> bool {
    match action {
        CleanupAction::EndLoan(loan) => block.scope == body.root_scope && block.statements@ == seq![
            Statement::EndLoan { loan },
        ] && block.terminator == (Terminator::Goto { target }),
        CleanupAction::Drop(place) => block.scope == body.locals@[place.local@ as int].scope
            && block.statements@.len() == 0 && block.terminator == (Terminator::Drop {
            place,
            plan: plan_for(body, place).unwrap(),
            target,
        }),
        CleanupAction::Region(region) => block.scope == body.root_scope && block.statements@ == seq![
            Statement::ExitRegion { region },
        ] && block.terminator == (Terminator::Goto { target }),
        CleanupAction::Override(override_) => block.scope == body.root_scope && block.statements@
            == seq![Statement::ExitAllocationContext { override_ }] && block.terminator == (
        Terminator::Goto { target }),
    }
}

/// The block a chain block continues at; other terminators continue no
/// chain.
pub open spec fn continues_at(block: BasicBlock) -> BasicBlockId {
    match block.terminator {
        Terminator::Goto { target } => target,
        Terminator::Drop { target, .. } => target,
        _ => BasicBlockId(0),
    }
}

/// Control entering `start` performs `actions` in order, one block each,
/// all of them at index `first_new` or later, and then reaches `target`.
pub open spec fn chain_from(
    body: Body,
    start: BasicBlockId,
    actions: Seq<CleanupAction>,
    target: BasicBlockId,
    first_new: int,
) -> bool
    decreases actions.len(),
{
    if actions.len() == 0 {
        start == target
    } else {
        let block = body.blocks@[start@ as int];
        &&& first_new <= start@ < body.blocks@.len()
        &&& chain_block(body, actions[0], continues_at(block), block)
        &&& chain_from(body, continues_at(block), actions.drop_first(), target, first_new)
    }
}

/// Where control enters a chain of `count` blocks laid from index `lo` that
/// ends at `target`: the last block laid, or `target` itself when there are
/// none.
pub open spec fn laid_start(lo: int, count: int, target: BasicBlockId) -> BasicBlockId {
    if count == 0 {
        target
    } else {
        BasicBlockId::at(lo + count - 1)
    }
}

/// The blocks of `body` from index `lo` on hold a chain for `actions` laid
/// from the last action to the first: block `lo + k` performs action
/// `len - 1 - k` and continues at the block laid before it, the first one
/// at `target`.
pub open spec fn chain_laid(body: Body, lo: int, actions: Seq<CleanupAction>, target: BasicBlockId) -> bool {
    &&& 0 <= lo
    &&& lo + actions.len() <= body.blocks@.len()
    &&& forall|k: int|
        0 <= k < actions.len() ==> chain_block(
            body,
            actions[actions.len() - 1 - k],
            laid_start(lo, k, target),
            #[trigger] body.blocks@[lo + k],
        )
}

/// A laid chain is entered at its last block and leads, action by action,
/// to its target.
pub proof fn lemma_laid_chain_reaches(body: Body, lo: int, actions: Seq<CleanupAction>, target: BasicBlockId)
    requires
        chain_laid(body, lo, actions, target),
        lo + actions.len() <= 0x1_0000_0000,
    ensures
        chain_from(body, laid_start(lo, actions.len() as int, target), actions, target, lo),
{
    lemma_built_chain(body, body, actions, target, lo, actions.len() as int);
    assert(actions.subrange(0, actions.len() as int) =~= actions);
}

/// A laid chain stays when the blocks it occupies and the tables stay.
proof fn lemma_chain_laid_kept(a: Body, b: Body, lo: int, actions: Seq<CleanupAction>, target: BasicBlockId)
    requires
        chain_laid(a, lo, actions, target),
        same_tables(a, b),
        b.blocks@.len() >= a.blocks@.len(),
        forall|j: int| lo <= j < lo + actions.len() ==> b.blocks@[j] == a.blocks@[j],
    ensures
        chain_laid(b, lo, actions, target),
{
    assert forall|k: int| 0 <= k < actions.len() implies chain_block(
        b,
        actions[actions.len() - 1 - k],
        laid_start(lo, k, target),
        #[trigger] b.blocks@[lo + k],
    ) by {
        assert(b.blocks@[lo + k] == a.blocks@[lo + k]);
        assert(chain_block(a, actions[actions.len() - 1 - k], laid_start(lo, k, target), a.blocks@[lo + k]));
    }
}

/// A chain block continues where it was built to.
proof fn lemma_chain_block_continues(body: Body, action: CleanupAction, target: BasicBlockId, block: BasicBlock)
    requires
        chain_block(body, action, target, block),
    ensures
        continues_at(block) == target,
{
}

/// Blocks built from the last action to the first, each continuing at the
/// block built before it, form a chain from the last built block.
proof fn lemma_built_chain(
    body: Body,
    tables: Body,
    actions: Seq<CleanupAction>,
    final_target: BasicBlockId,
    base: int,
    m: int,
)
    requires
        same_tables(tables, body),
        0 <= base,
        0 <= m <= actions.len(),
        base + actions.len() <= 0x1_0000_0000,
        body.blocks@.len() >= base + actions.len(),
        forall|k: int|
            0 <= k < actions.len() ==> chain_block(
                tables,
                actions[actions.len() - 1 - k],
                if k == 0 {
                    final_target
                } else {
                    BasicBlockId::at(base + k - 1)
                },
                #[trigger] body.blocks@[base + k],
            ),
    ensures
        chain_from(
            body,
            if m == 0 {
                final_target
            } else {
                BasicBlockId::at(base + m - 1)
            },
            actions.subrange(actions.len() - m, actions.len() as int),
            final_target,
            base,
        ),
    decreases m,
{
    let n = actions.len() as int;
    let part = actions.subrange(n - m, n);
    if m > 0 {
        lemma_built_chain(body, tables, actions, final_target, base, m - 1);
        let k = m - 1;
        let block = body.blocks@[base + k];
        let next = if k == 0 {
            final_target
        } else {
            BasicBlockId::at(base + k - 1)
        };
        assert(chain_block(tables, actions[n - 1 - k], next, block));
        lemma_chain_block_continues(tables, actions[n - 1 - k], next, block);
        assert(BasicBlockId::at(base + m - 1)@ == base + m - 1);
        assert(part[0] == actions[n - m]);
        assert(part.drop_first() =~= actions.subrange(n - (m - 1), n));
    } else {
        assert(part.len() == 0);
    }
}

/// A chain stays when blocks are appended or blocks before `first_new`
/// change.
proof fn lemma_chain_kept(
    before: Body,
    after: Body,
    start: BasicBlockId,
    actions: Seq<CleanupAction>,
    target: BasicBlockId,
    first_new: int,
)
    requires
        chain_from(before, start, actions, target, first_new),
        same_tables(before, after),
        after.blocks@.len() >= before.blocks@.len(),
        forall|i: int| first_new <= i < before.blocks@.len() ==> after.blocks@[i] == before.blocks@[i],
    ensures
        chain_from(after, start, actions, target, first_new),
    decreases actions.len(),
{
    if actions.len() > 0 {
        let block = before.blocks@[start@ as int];
        lemma_chain_kept(before, after, continues_at(block), actions.drop_first(), target, first_new);
    }
}

/// A chain into `middle` followed by a chain from `middle` is one chain.
proof fn lemma_chain_joined(
    body: Body,
    start: BasicBlockId,
    first: Seq<CleanupAction>,
    middle: BasicBlockId,
    second: Seq<CleanupAction>,
    target: BasicBlockId,
    first_new: int,
)
    requires
        chain_from(body, start, first, middle, first_new),
        chain_from(body, middle, second, target, first_new),
    ensures
        chain_from(body, start, first + second, target, first_new),
    decreases first.len(),
{
    if first.len() == 0 {
        assert(first + second =~= second);
    } else {
        let block = body.blocks@[start@ as int];
        lemma_chain_joined(body, continues_at(block), first.drop_first(), middle, second, target, first_new);
        assert((first + second)[0] == first[0]);
        assert((first + second).drop_first() =~= first.drop_first() + second);
    }
}

/// A chain of blocks from `first_new` on is also one of blocks from any
/// earlier index on.
proof fn lemma_chain_from_earlier(
    body: Body,
    start: BasicBlockId,
    actions: Seq<CleanupAction>,
    target: BasicBlockId,
    first_new: int,
    earlier: int,
)
    requires
        chain_from(body, start, actions, target, first_new),
        earlier <= first_new,
    ensures
        chain_from(body, start, actions, target, earlier),
    decreases actions.len(),
{
    if actions.len() > 0 {
        let block = body.blocks@[start@ as int];
        lemma_chain_from_earlier(body, continues_at(block), actions.drop_first(), target, first_new, earlier);
    }
}

/// Two bodies agree on everything but their blocks.
pub open spec fn same_tables(a: Body, b: Body) -> bool {
    &&& a.source_body == b.source_body
    &&& a.source_span == b.source_span
    &&& a.return_local == b.return_local
    &&& a.return_mode == b.return_mode
    &&& a.root_scope == b.root_scope
    &&& a.entry == b.entry
    &&& a.scopes@ == b.scopes@
    &&& a.locals@ == b.locals@
    &&& a.loop_regions@ == b.loop_regions@
    &&& a.allocation_regions@ == b.allocation_regions@
    &&& a.allocation_overrides@ == b.allocation_overrides@
    &&& a.loans@ == b.loans@
    &&& a.projections@ == b.projections@
    &&& a.drop_plans@ == b.drop_plans@
}

/// `after` extends `before` with new blocks only.
pub open spec fn extends(before: Body, after: Body) -> bool {
    &&& same_tables(before, after)
    &&& after.blocks@.len() >= before.blocks@.len()
    &&& forall|i: int| 0 <= i < before.blocks@.len() ==> after.blocks@[i] == before.blocks@[i]
}

/// Appends one block per action, in reverse, each continuing at the block of
/// the next action and the last at `final_target`; returns the block of the
/// first action, or `final_target` when there is none.
pub fn prepend_cleanup_chain(body: &mut Body, actions: Vec<CleanupAction>, final_target: BasicBlockId) -> (start: BasicBlockId)
    requires
        forall|i: int| 0 <= i < actions@.len() ==> action_ready(*old(body), #[trigger] actions@[i]),
    ensures
        extends(*old(body), *final(body)),
        final(body).blocks@.len() == old(body).blocks@.len() + actions@.len(),
        forall|k: int|
            0 <= k < actions@.len() ==> chain_block(
                *old(body),
                actions@[actions@.len() - 1 - k],
                if k == 0 {
                    final_target
                } else {
                    BasicBlockId::at(old(body).blocks@.len() + k - 1)
                },
                #[trigger] final(body).blocks@[old(body).blocks@.len() + k],
            ),
        start == if actions@.len() == 0 {
            final_target
        } else {
            BasicBlockId::at(old(body).blocks@.len() + actions@.len() - 1)
        },
        final(body).blocks@.len() <= 0x1_0000_0000 ==> chain_from(
            *final(body),
            start,
            actions@,
            final_target,
            old(body).blocks@.len() as int,
        ),
        chain_laid(*final(body), old(body).blocks@.len() as int, actions@, final_target),
        start == laid_start(old(body).blocks@.len() as int, actions@.len() as int, final_target),
        actions@.len() == 0 ==> *final(body) == *old(body),
{
    let ghost initial = *body;
    let count = actions.len();
    let mut target = final_target;
    let mut remaining = count;
    while remaining > 0
        invariant
            count == actions@.len(),
            remaining <= count,
            extends(initial, *body),
            initial == *old(body),
            body.blocks@.len() == initial.blocks@.len() + (count - remaining),
            forall|i: int| 0 <= i < actions@.len() ==> action_ready(initial, #[trigger] actions@[i]),
            forall|k: int|
                0 <= k < count - remaining ==> chain_block(
                    initial,
                    actions@[count - 1 - k],
                    if k == 0 {
                        final_target
                    } else {
                        BasicBlockId::at(initial.blocks@.len() + k - 1)
                    },
                    #[trigger] body.blocks@[initial.blocks@.len() + k],
                ),
            target == if remaining == count {
                final_target
            } else {
                BasicBlockId::at(initial.blocks@.len() + (count - remaining) - 1)
            },
            remaining == count ==> *body == initial,
        decreases remaining,
    {
        remaining = remaining - 1;
        let action = actions[remaining];
        let block = BasicBlockId::from_index(body.blocks.len());
        let new_block = match action {
            CleanupAction::EndLoan(loan) => BasicBlock {
                scope: body.root_scope,
                statements: vec![Statement::EndLoan { loan }],
                terminator: Terminator::Goto { target },
            },
            CleanupAction::Drop(place) => {
                let projected = match place.projection {
                    Some(projection) => body.projections[projection.index()].drop_plan,
                    None => None,
                };
                let plan = match projected {
                    Some(plan) => plan,
                    None => match body.locals[place.local.index()].drop_plan {
                        Some(plan) => plan,
                        None => {
                            assert(false);
                            DropPlanId::from_index(0)
                        },
                    },
                };
                BasicBlock {
                    scope: body.locals[place.local.index()].scope,
                    statements: Vec::new(),
                    terminator: Terminator::Drop { place, plan, target },
                }
            },
            CleanupAction::Region(region) => BasicBlock {
                scope: body.root_scope,
                statements: vec![Statement::ExitRegion { region }],
                terminator: Terminator::Goto { target },
            },
            CleanupAction::Override(override_) => BasicBlock {
                scope: body.root_scope,
                statements: vec![Statement::ExitAllocationContext { override_ }],
                terminator: Terminator::Goto { target },
            },
        };
        proof {
            match action {
                CleanupAction::Drop(place) => {
                    assert(new_block.scope == initial.locals@[place.local@ as int].scope);
                    assert(new_block.statements@.len() == 0);
                    assert(new_block.terminator == (Terminator::Drop {
                        place,
                        plan: plan_for(initial, place).unwrap(),
                        target,
                    }));
                },
                CleanupAction::EndLoan(loan) => {
                    assert(new_block.statements@ == seq![Statement::EndLoan { loan }]);
                },
                CleanupAction::Region(region) => {
                    assert(new_block.statements@ == seq![Statement::ExitRegion { region }]);
                },
                CleanupAction::Override(override_) => {
                    assert(new_block.statements@ == seq![Statement::ExitAllocationContext { override_ }]);
                },
            }
        }
        assert(chain_block(initial, action, target, new_block));
        body.blocks.push(new_block);
        target = block;
    }
    proof {
        if body.blocks@.len() <= 0x1_0000_0000 {
            lemma_built_chain(
                *body,
                initial,
                actions@,
                final_target,
                initial.blocks@.len() as int,
                count as int,
            );
            assert(actions@.subrange(0, count as int) =~= actions@);
        }
    }
    proof {
        assert forall|k: int| 0 <= k < actions@.len() implies chain_block(
            *body,
            actions@[actions@.len() - 1 - k],
            laid_start(initial.blocks@.len() as int, k, final_target),
            #[trigger] body.blocks@[initial.blocks@.len() + k],
        ) by {
            assert(chain_block(
                initial,
                actions@[count - 1 - k],
                if k == 0 {
                    final_target
                } else {
                    BasicBlockId::at(initial.blocks@.len() + k - 1)
                },
                body.blocks@[initial.blocks@.len() + k],
            ));
        }
    }
    target
}


/// Local `index` is a moved aggregate other than the return local that
/// lives outside the scopes `exited`.
pub open spec fn outside_candidate(body: Body, exited: Seq<ScopeId>, index: int) -> bool {
    &&& 0 <= index < body.locals@.len()
    &&& LocalId::at(index) != body.return_local
    &&& !exited.contains(body.locals@[index].scope)
    &&& body.locals@[index].representation == ValueRepresentation::Aggregate
    &&& body.locals@[index].ownership == OwnershipKind::Move
}

/// `place` is the whole of its local when that is initialized per `query`,
/// or else an outermost initialized owned part of it.
pub open spec fn owned_initialized_place(
    body: Body,
    analysis: InitializationAnalysis,
    query: Availability,
    place: Place,
) -> bool {
    match place.projection {
        None => initialized_for(analysis, query, body, place),
        Some(p) => !initialized_for(analysis, query, body, Place { local: place.local, projection: None })
            && exists|q: int|
            projection_candidate(body, analysis, query, place.local, q) && #[trigger] body.projections@[q].id == p,
    }
}

/// The places of local `l`, indexed by local, when it lies outside the
/// scopes `exited`, initialized on the edge from `from` to `target` only.
pub open spec fn outside_parts(
    body: Body,
    analysis: InitializationAnalysis,
    from: BasicBlockId,
    target: BasicBlockId,
    exited: Seq<ScopeId>,
) -> spec_fn(int) -> Seq<Place> {
    |l: int|
        if outside_candidate(body, exited, l) {
            local_places(body, analysis, Availability::OnlyOnEdge { from, to: target }, l)
        } else {
            Seq::empty()
        }
}

/// The owned places of locals outside the scopes `exited` that are
/// initialized on the edge from `from` to `target` but not on entry to
/// `target`, from the last local to the first.
pub fn conditional_terminal_edge_places(
    body: &Body,
    analysis: &InitializationAnalysis,
    from: BasicBlockId,
    target: BasicBlockId,
    exited: &Vec<ScopeId>,
) -> (places: Vec<Place>)
    requires
        analysis.wf(*body),
        body.tables_addressable(),
    ensures
        places@ == descending(outside_parts(*body, *analysis, from, target, exited@), 0, body.locals@.len() as int),
        forall|place: Place|
            #[trigger] places@.contains(place) <==> (outside_candidate(*body, exited@, place.local@ as int)
                && owned_initialized_place(*body, *analysis, Availability::OnlyOnEdge { from, to: target }, place)),
{
    let query = Availability::OnlyOnEdge { from, to: target };
    let mut places: Vec<Place> = Vec::new();
    let mut remaining = body.locals.len();
    while remaining > 0
        invariant
            remaining <= body.locals@.len(),
            analysis.wf(*body),
            body.tables_addressable(),
            query == (Availability::OnlyOnEdge { from, to: target }),
            places@ == descending(
                outside_parts(*body, *analysis, from, target, exited@),
                remaining as int,
                body.locals@.len() as int,
            ),
            forall|place: Place|
                #[trigger] places@.contains(place) <==> (outside_candidate(*body, exited@, place.local@ as int)
                    && owned_initialized_place(*body, *analysis, query, place) && place.local@ >= remaining),
        decreases remaining,
    {
        remaining = remaining - 1;
        let local = body.locals[remaining];
        let ghost before = places@;
        proof {
            lemma_descending_lower(
                outside_parts(*body, *analysis, from, target, exited@),
                remaining + 1,
                body.locals@.len() as int,
            );
            assert(before + Seq::<Place>::empty() =~= before);
        }
        let mut inside = false;
        let mut scope_index: usize = 0;
        while scope_index < exited.len()
            invariant
                scope_index <= exited@.len(),
                inside == exists|k: int| 0 <= k < scope_index && exited@[k] == local.scope,
            decreases exited@.len() - scope_index,
        {
            if exited[scope_index] == local.scope {
                inside = true;
            }
            scope_index = scope_index + 1;
        }
        let chosen = LocalId::from_index(remaining) != body.return_local && !inside
            && local.representation == ValueRepresentation::Aggregate && local.ownership
            == OwnershipKind::Move;
        if chosen {
            let part = places_of_local(body, analysis, query, remaining);
            append_places(&mut places, &part);
            proof {
                assert forall|place: Place|
                    #[trigger] places@.contains(place) <==> (outside_candidate(*body, exited@, place.local@ as int)
                        && owned_initialized_place(*body, *analysis, query, place) && place.local@ >= remaining) by {
                    assert(places@.contains(place) <==> (before.contains(place) || part@.contains(place)));
                    if part@.contains(place) {
                        assert(place.local == LocalId::at(remaining as int));
                    }
                    if place.local@ == remaining && outside_candidate(*body, exited@, place.local@ as int)
                        && owned_initialized_place(*body, *analysis, query, place) {
                        assert(place.local == LocalId::at(remaining as int));
                    }
                }
            }
        } else {
            proof {
                assert forall|place: Place|
                    #[trigger] places@.contains(place) <==> (outside_candidate(*body, exited@, place.local@ as int)
                        && owned_initialized_place(*body, *analysis, query, place) && place.local@ >= remaining) by {
                    if place.local@ == remaining && outside_candidate(*body, exited@, place.local@ as int) {
                        if inside {
                            let k = choose|k: int| 0 <= k < exited@.len() && exited@[k] == local.scope;
                            assert(exited@.contains(local.scope));
                        }
                        assert(chosen);
                    }
                }
            }
        }
    }
    places
}

/// The operand reads or moves the whole of `local`.
pub open spec fn passes_local(operand: Operand, local: LocalId) -> bool {
    match operand {
        Operand::Copy(place) => place == (Place { local, projection: None }),
        Operand::Move(place) => place == (Place { local, projection: None }),
        _ => false,
    }
}

/// Loan `index` lives exactly as long as a call that receives its borrow
/// and is definitely active when `block` is left.
pub open spec fn call_loan(body: Body, arguments: Seq<CallArgument>, loans: LoanAnalysis, block: BasicBlockId, index: int) -> bool {
    &&& 0 <= index < body.loans@.len()
    &&& body.loans@[index].lifetime == LoanLifetime::Call
    &&& loans.active_at_exit().contains_key(block)
    &&& loans.active_at_exit()[block].contains(body.loans@[index].id@)
    &&& exists|j: int| 0 <= j < arguments.len() && passes_local(#[trigger] arguments[j].operand, body.loans@[index].destination)
}

/// The loans that a call of `block` with `arguments` ends, indexed by loan.
pub open spec fn call_loan_parts(body: Body, arguments: Seq<CallArgument>, loans: LoanAnalysis, block: BasicBlockId) -> spec_fn(
    int,
) -> Seq<LoanId> {
    |i: int|
        if call_loan(body, arguments, loans, block, i) {
            seq![body.loans@[i].id]
        } else {
            Seq::empty()
        }
}

/// The loans, newest first, that a call of `block` with `arguments` ends
/// when it returns.
pub fn call_lifetime_loans(
    body: &Body,
    arguments: &Vec<CallArgument>,
    loans: &LoanAnalysis,
    block: BasicBlockId,
) -> (ended: Vec<LoanId>)
    ensures
        ended@ == descending(call_loan_parts(*body, arguments@, *loans, block), 0, body.loans@.len() as int),
        forall|loan: LoanId|
            #[trigger] ended@.contains(loan) <==> exists|i: int|
                call_loan(*body, arguments@, *loans, block, i) && #[trigger] body.loans@[i].id == loan,
{
    let mut ended: Vec<LoanId> = Vec::new();
    let mut remaining = body.loans.len();
    while remaining > 0
        invariant
            remaining <= body.loans@.len(),
            ended@ == descending(call_loan_parts(*body, arguments@, *loans, block), remaining as int, body.loans@.len() as int),
            forall|loan: LoanId|
                #[trigger] ended@.contains(loan) <==> exists|i: int|
                    remaining <= i && call_loan(*body, arguments@, *loans, block, i) && #[trigger] body.loans@[i].id
                        == loan,
        decreases remaining,
    {
        remaining = remaining - 1;
        let loan = body.loans[remaining];
        let ghost before = ended@;
        proof {
            lemma_descending_lower(call_loan_parts(*body, arguments@, *loans, block), remaining + 1, body.loans@.len() as int);
            assert(before + Seq::<LoanId>::empty() =~= before);
        }
        let mut passed = false;
        let mut index: usize = 0;
        while index < arguments.len()
            invariant
                index <= arguments@.len(),
                passed == exists|j: int| 0 <= j < index && passes_local(#[trigger] arguments@[j].operand, loan.destination),
            decreases arguments@.len() - index,
        {
            let matches_destination = match &arguments[index].operand {
                Operand::Copy(place) => *place == Place::local(loan.destination),
                Operand::Move(place) => *place == Place::local(loan.destination),
                _ => false,
            };
            if matches_destination {
                passed = true;
            }
            index = index + 1;
        }
        if loan.lifetime == LoanLifetime::Call && loans.definitely_active_at_exit(block, loan.id) && passed {
            ended.push(loan.id);
        }
        proof {
            assert forall|id: LoanId|
                #[trigger] ended@.contains(id) <==> exists|i: int|
                    remaining <= i && call_loan(*body, arguments@, *loans, block, i) && #[trigger] body.loans@[i].id
                        == id by {
                if ended@.contains(id) && !before.contains(id) {
                    assert(id == ended@.last());
                    assert(call_loan(*body, arguments@, *loans, block, remaining as int));
                }
                if before.contains(id) {
                    let k = choose|k: int| 0 <= k < before.len() && before[k] == id;
                    assert(ended@[k] == id);
                }
                if exists|i: int| remaining <= i && call_loan(*body, arguments@, *loans, block, i) && #[trigger] body.loans@[i].id == id {
                    let i = choose|i: int| remaining <= i && call_loan(*body, arguments@, *loans, block, i) && #[trigger] body.loans@[i].id == id;
                    if i == remaining {
                        assert(ended@.last() == id);
                    } else {
                        assert(before.contains(id));
                    }
                }
            }
        }
    }
    ended
}


/// A body whose paths are indexed and whose owned locals carry plans can
/// build a chain block for every cleanup action.
proof fn lemma_cleanup_action_ready(
    body: Body,
    analysis: InitializationAnalysis,
    loans: LoanAnalysis,
    query: Availability,
    exited: Seq<ScopeId>,
    action: CleanupAction,
)
    requires
        cleanup_action(body, analysis, loans, query, exited, action),
        body.paths_indexed(),
        body.owned_locals_have_plans(),
    ensures
        action_ready(body, action),
{
    if let CleanupAction::Drop(place) = action {
        let l = place.local@ as int;
        assert(body.locals@[l].drop_plan is Some);
        if let Some(p) = place.projection {
            let q = choose|q: int|
                projection_candidate(body, analysis, query, place.local, q) && #[trigger] body.projections@[q].id == p;
            assert(body.projections@[q].id@ == q);
        }
    }
}

/// A place initialized only on a terminal edge can be dropped.
proof fn lemma_conditional_place_ready(
    body: Body,
    analysis: InitializationAnalysis,
    query: Availability,
    exited: Seq<ScopeId>,
    place: Place,
)
    requires
        outside_candidate(body, exited, place.local@ as int),
        owned_initialized_place(body, analysis, query, place),
        body.paths_indexed(),
        body.owned_locals_have_plans(),
    ensures
        action_ready(body, CleanupAction::Drop(place)),
{
    let l = place.local@ as int;
    assert(body.locals@[l].drop_plan is Some);
    if let Some(p) = place.projection {
        let q = choose|q: int|
            projection_candidate(body, analysis, query, place.local, q) && #[trigger] body.projections@[q].id == p;
        assert(body.projections@[q].id@ == q);
    }
}

/// The body is ready for cleanup materialization.
pub open spec fn cleanup_ready(body: Body, analysis: InitializationAnalysis, loans: LoanAnalysis) -> bool {
    &&& analysis.wf(body)
    &&& loans.wf(body)
    &&& body.tables_addressable()
    &&& body.paths_indexed()
    &&& body.owned_locals_have_plans()
}

/// Changing or adding blocks keeps a body ready for materialization.
proof fn lemma_ready_extends(before: Body, after: Body, analysis: InitializationAnalysis, loans: LoanAnalysis)
    requires
        cleanup_ready(before, analysis, loans),
        same_tables(before, after),
        after.blocks@.len() >= before.blocks@.len(),
    ensures
        cleanup_ready(after, analysis, loans),
{
    analysis.lemma_states_fit_same_tables(before, after);
}

/// The cleanup on the edge from `from`, in scope `source_scope`, to
/// `target`, in scope `target_scope`, in order: that of each scope the edge
/// leaves, in the order it leaves them, and then, when the target exits the
/// body, the drops of the places of the other locals that are initialized
/// on this edge only, from the last local to the first.
pub open spec fn edge_sequence(
    body: Body,
    analysis: InitializationAnalysis,
    loans: LoanAnalysis,
    from: BasicBlockId,
    source_scope: ScopeId,
    target: BasicBlockId,
    target_scope: ScopeId,
    target_exits: bool,
) -> Seq<CleanupAction> {
    match exited_scope_seq(body.scopes@, source_scope, target_scope) {
        None => Seq::empty(),
        Some(exited) => cleanup_sequence(body, analysis, loans, Availability::OnEdge { from, to: target }, exited)
            + if target_exits {
            drops_of(descending(outside_parts(body, analysis, from, target, exited), 0, body.locals@.len() as int))
        } else {
            Seq::empty()
        },
    }
}

/// The cleanup on the edge from `from`, in scope `source_scope`, to
/// `target`, seen in `body`: none when `target` is no block of `body`.
pub open spec fn edge_actions(
    body: Body,
    analysis: InitializationAnalysis,
    loans: LoanAnalysis,
    from: BasicBlockId,
    source_scope: ScopeId,
    target: BasicBlockId,
) -> Seq<CleanupAction> {
    if target@ < body.blocks@.len() {
        edge_sequence(
            body,
            analysis,
            loans,
            from,
            source_scope,
            target,
            body.blocks@[target@ as int].scope,
            terminal_exit(body.blocks@[target@ as int].terminator),
        )
    } else {
        Seq::empty()
    }
}

/// `start` begins a chain of blocks of `after` that are new since `before`:
/// it performs `prefix`, then the cleanup of the edge from `from`, in scope
/// `source_scope`, to `target` of `before` (none when `target` is no block
/// of `before`), and reaches `target`.
pub open spec fn edge_chain(
    before: Body,
    after: Body,
    analysis: InitializationAnalysis,
    loans: LoanAnalysis,
    from: BasicBlockId,
    source_scope: ScopeId,
    target: BasicBlockId,
    start: BasicBlockId,
    prefix: Seq<CleanupAction>,
) -> bool {
    if target@ < before.blocks@.len() {
        chain_from(
            after,
            start,
            prefix + edge_sequence(
                before,
                analysis,
                loans,
                from,
                source_scope,
                target,
                before.blocks@[target@ as int].scope,
                terminal_exit(before.blocks@[target@ as int].terminator),
            ),
            target,
            before.blocks@.len() as int,
        )
    } else {
        chain_from(after, start, prefix, target, before.blocks@.len() as int)
    }
}

/// The block that control enters on the edge from `from` to `target`: a
/// chain that ends the loans, drops the places and leaves the regions of the
/// scopes the edge exits (and, for an edge into an exit, drops what is
/// initialized only on this edge), then reaches `target`.
pub fn cleanup_edge(
    body: &mut Body,
    analysis: &InitializationAnalysis,
    loans: &LoanAnalysis,
    from: BasicBlockId,
    source_scope: ScopeId,
    target: BasicBlockId,
) -> (start: BasicBlockId)
    requires
        cleanup_ready(*old(body), *analysis, *loans),
    ensures
        extends(*old(body), *final(body)),
        cleanup_ready(*final(body), *analysis, *loans),
        start == target || final(body).blocks@.len() > old(body).blocks@.len(),
        target@ >= old(body).blocks@.len() ==> start == target && *final(body) == *old(body),
        final(body).blocks@.len() <= 0x1_0000_0000 ==> edge_chain(
            *old(body),
            *final(body),
            *analysis,
            *loans,
            from,
            source_scope,
            target,
            start,
            Seq::empty(),
        ),
        final(body).blocks@.len() == old(body).blocks@.len() + edge_actions(
            *old(body),
            *analysis,
            *loans,
            from,
            source_scope,
            target,
        ).len(),
        chain_laid(
            *final(body),
            old(body).blocks@.len() as int,
            edge_actions(*old(body), *analysis, *loans, from, source_scope, target),
            target,
        ),
        start == laid_start(
            old(body).blocks@.len() as int,
            edge_actions(*old(body), *analysis, *loans, from, source_scope, target).len() as int,
            target,
        ),
        edge_actions(*old(body), *analysis, *loans, from, source_scope, target).len() == 0 ==> *final(body)
            == *old(body),
{
    if target.index() >= body.blocks.len() {
        proof {
            let none = Seq::<CleanupAction>::empty();
            assert(chain_from(*body, target, none, target, body.blocks@.len() as int));
        }
        return target;
    }
    let target_scope = body.blocks[target.index()].scope;
    let ghost initial = *body;
    let ghost target_exits = terminal_exit(body.blocks@[target@ as int].terminator);
    let ghost expected = edge_sequence(
        initial,
        *analysis,
        *loans,
        from,
        source_scope,
        target,
        target_scope,
        target_exits,
    );
    let exited = match exited_scopes(&body.scopes, source_scope, target_scope) {
        None => {
            proof {
                let none = Seq::<CleanupAction>::empty();
                assert(none + expected =~= none);
                assert(chain_from(*body, target, none + expected, target, initial.blocks@.len() as int));
            }
            return target;
        },
        Some(exited) => exited,
    };
    let mut actions = cleanup_actions(body, &exited, analysis, loans, Availability::OnEdge { from, to: target });
    proof {
        assert forall|i: int| 0 <= i < actions@.len() implies action_ready(*body, #[trigger] actions@[i]) by {
            assert(actions@.contains(actions@[i]));
            lemma_cleanup_action_ready(*body, *analysis, *loans, Availability::OnEdge { from, to: target }, exited@, actions@[i]);
        }
    }
    let ghost scope_part = actions@;
    if is_terminal_exit(&body.blocks[target.index()].terminator) {
        let places = conditional_terminal_edge_places(body, analysis, from, target, &exited);
        let drops = drop_actions(&places);
        append_actions(&mut actions, &drops);
        proof {
            assert forall|i: int| 0 <= i < actions@.len() implies action_ready(*body, #[trigger] actions@[i]) by {
                if i < scope_part.len() {
                    assert(actions@[i] == scope_part[i]);
                } else {
                    let k = i - scope_part.len();
                    assert(actions@[i] == drops@[k]);
                    assert(places@.contains(places@[k]));
                    lemma_conditional_place_ready(
                        *body,
                        *analysis,
                        Availability::OnlyOnEdge { from, to: target },
                        exited@,
                        places@[k],
                    );
                }
            }
        }
    }
    proof {
        if !target_exits {
            assert(scope_part + Seq::<CleanupAction>::empty() =~= scope_part);
        }
        assert(actions@ == expected);
    }
    let ghost before = *body;
    let start = prepend_cleanup_chain(body, actions, target);
    proof {
        lemma_ready_extends(before, *body, *analysis, *loans);
        if body.blocks@.len() <= 0x1_0000_0000 {
            assert(Seq::<CleanupAction>::empty() + expected =~= expected);
        }
    }
    start
}


/// The end of each of `loans`, in order.
pub open spec fn end_loans(loans: Seq<LoanId>) -> Seq<CleanupAction> {
    loans.map_values(|loan: LoanId| CleanupAction::EndLoan(loan))
}

/// The edge from a call of `from` to `target`: the edge's cleanup, preceded
/// by the ends of the loans that live only as long as the call.
pub fn cleanup_call_edge(
    body: &mut Body,
    analysis: &InitializationAnalysis,
    loans: &LoanAnalysis,
    from: BasicBlockId,
    source_scope: ScopeId,
    target: BasicBlockId,
    call_loans: &Vec<LoanId>,
) -> (start: BasicBlockId)
    requires
        cleanup_ready(*old(body), *analysis, *loans),
    ensures
        extends(*old(body), *final(body)),
        cleanup_ready(*final(body), *analysis, *loans),
        start == target || final(body).blocks@.len() > old(body).blocks@.len(),
        final(body).blocks@.len() <= 0x1_0000_0000 ==> edge_chain(
            *old(body),
            *final(body),
            *analysis,
            *loans,
            from,
            source_scope,
            target,
            start,
            end_loans(call_loans@),
        ),
        final(body).blocks@.len() == old(body).blocks@.len() + edge_actions(
            *old(body),
            *analysis,
            *loans,
            from,
            source_scope,
            target,
        ).len() + call_loans@.len(),
        chain_laid(
            *final(body),
            old(body).blocks@.len() as int,
            edge_actions(*old(body), *analysis, *loans, from, source_scope, target),
            target,
        ),
        chain_laid(
            *final(body),
            (old(body).blocks@.len() + edge_actions(*old(body), *analysis, *loans, from, source_scope, target).len()) as int,
            end_loans(call_loans@),
            laid_start(
                old(body).blocks@.len() as int,
                edge_actions(*old(body), *analysis, *loans, from, source_scope, target).len() as int,
                target,
            ),
        ),
        start == laid_start(
            (old(body).blocks@.len() + edge_actions(*old(body), *analysis, *loans, from, source_scope, target).len()) as int,
            call_loans@.len() as int,
            laid_start(
                old(body).blocks@.len() as int,
                edge_actions(*old(body), *analysis, *loans, from, source_scope, target).len() as int,
                target,
            ),
        ),
{
    let ghost initial = *body;
    let ghost edge_target = target;
    let target = cleanup_edge(body, analysis, loans, from, source_scope, target);
    let ghost edged = *body;
    let mut actions: Vec<CleanupAction> = Vec::new();
    let mut index: usize = 0;
    while index < call_loans.len()
        invariant
            index <= call_loans@.len(),
            actions@.len() == index,
            forall|i: int| 0 <= i < index ==> actions@[i] == CleanupAction::EndLoan(call_loans@[i]),
        decreases call_loans@.len() - index,
    {
        actions.push(CleanupAction::EndLoan(call_loans[index]));
        index = index + 1;
    }
    let ghost before = *body;
    assert(actions@ =~= end_loans(call_loans@));
    let start = prepend_cleanup_chain(body, actions, target);
    proof {
        lemma_ready_extends(before, *body, *analysis, *loans);
        lemma_chain_laid_kept(
            edged,
            *body,
            initial.blocks@.len() as int,
            edge_actions(initial, *analysis, *loans, from, source_scope, edge_target),
            edge_target,
        );
        if body.blocks@.len() <= 0x1_0000_0000 {
            let first_new = initial.blocks@.len() as int;
            lemma_chain_from_earlier(*body, start, end_loans(call_loans@), target, edged.blocks@.len() as int, first_new);
            let edge = if edge_target@ < initial.blocks@.len() {
                edge_sequence(
                    initial,
                    *analysis,
                    *loans,
                    from,
                    source_scope,
                    edge_target,
                    initial.blocks@[edge_target@ as int].scope,
                    terminal_exit(initial.blocks@[edge_target@ as int].terminator),
                )
            } else {
                Seq::<CleanupAction>::empty()
            };
            assert(Seq::<CleanupAction>::empty() + edge =~= edge);
            assert(chain_from(edged, target, edge, edge_target, first_new));
            lemma_chain_kept(edged, *body, target, edge, edge_target, first_new);
            lemma_chain_joined(*body, start, end_loans(call_loans@), target, edge, edge_target, first_new);
            if edge_target@ >= initial.blocks@.len() {
                assert(end_loans(call_loans@) + edge =~= end_loans(call_loans@));
            }
        }
    }
    start
}

/// The cleanup at an exit of `block`, in scope `source_scope`: that of the
/// scope and then of each scope that encloses it, outward.
pub open spec fn exit_sequence(
    body: Body,
    analysis: InitializationAnalysis,
    loans: LoanAnalysis,
    block: BasicBlockId,
    source_scope: ScopeId,
) -> Seq<CleanupAction> {
    cleanup_sequence(body, analysis, loans, Availability::AtExit { block }, ancestors(body.scopes@, source_scope))
}

/// The terminator that replaces an exit of `block`: the exit itself when no
/// scope of `block` needs cleanup, otherwise a jump to a cleanup chain for
/// all enclosing scopes that ends in a new block holding the exit.
pub fn cleanup_exit(
    body: &mut Body,
    analysis: &InitializationAnalysis,
    loans: &LoanAnalysis,
    block: BasicBlockId,
    source_scope: ScopeId,
    terminal: Terminator,
) -> (replacement: Terminator)
    requires
        cleanup_ready(*old(body), *analysis, *loans),
    ensures
        extends(*old(body), *final(body)),
        cleanup_ready(*final(body), *analysis, *loans),
        replacement == terminal || (replacement is Goto && final(body).blocks@.len() > old(body).blocks@.len()
            && final(body).blocks@[old(body).blocks@.len() as int].terminator == terminal),
        final(body).blocks@.len() <= 0x1_0000_0000 ==> if exit_sequence(
            *old(body),
            *analysis,
            *loans,
            block,
            source_scope,
        ).len() == 0 {
            replacement == terminal && *final(body) == *old(body)
        } else {
            &&& final(body).blocks@[old(body).blocks@.len() as int].scope == old(body).root_scope
            &&& final(body).blocks@[old(body).blocks@.len() as int].statements@.len() == 0
            &&& final(body).blocks@[old(body).blocks@.len() as int].terminator == terminal
            &&& replacement is Goto
            &&& chain_from(
                *final(body),
                replacement->Goto_target,
                exit_sequence(*old(body), *analysis, *loans, block, source_scope),
                BasicBlockId::at(old(body).blocks@.len() as int),
                old(body).blocks@.len() + 1int,
            )
        },
        exit_sequence(*old(body), *analysis, *loans, block, source_scope).len() == 0 ==> replacement == terminal
            && *final(body) == *old(body),
        exit_sequence(*old(body), *analysis, *loans, block, source_scope).len() > 0 ==> {
            let n = old(body).blocks@.len() as int;
            let actions = exit_sequence(*old(body), *analysis, *loans, block, source_scope);
            &&& final(body).blocks@.len() == n + 1 + actions.len()
            &&& final(body).blocks@[n].scope == old(body).root_scope
            &&& final(body).blocks@[n].statements@.len() == 0
            &&& final(body).blocks@[n].terminator == terminal
            &&& chain_laid(*final(body), n + 1, actions, BasicBlockId::at(n))
            &&& replacement == (Terminator::Goto { target: laid_start(n + 1, actions.len() as int, BasicBlockId::at(n)) })
        },
{
    let exited = scope_ancestors(body, source_scope);
    let actions = cleanup_actions(body, &exited, analysis, loans, Availability::AtExit { block });
    if actions.len() == 0 {
        return terminal;
    }
    proof {
        assert forall|i: int| 0 <= i < actions@.len() implies action_ready(*body, #[trigger] actions@[i]) by {
            assert(actions@.contains(actions@[i]));
            lemma_cleanup_action_ready(*body, *analysis, *loans, Availability::AtExit { block }, exited@, actions@[i]);
        }
    }
    let ghost initial = *body;
    let terminal_block = BasicBlockId::from_index(body.blocks.len());
    body.blocks.push(BasicBlock { scope: body.root_scope, statements: Vec::new(), terminator: terminal });
    proof {
        assert(extends(initial, *body));
        lemma_ready_extends(initial, *body, *analysis, *loans);
    }
    let ghost middle = *body;
    let ghost chained = actions@;
    let start = prepend_cleanup_chain(body, actions, terminal_block);
    proof {
        assert(body.blocks@[initial.blocks@.len() as int] == middle.blocks@[initial.blocks@.len() as int]);
        lemma_ready_extends(middle, *body, *analysis, *loans);
        if body.blocks@.len() <= 0x1_0000_0000 {
            assert(chain_from(*body, start, chained, terminal_block, middle.blocks@.len() as int));
        }
    }
    Terminator::Goto { target: start }
}


/// `after` continues a call like `before` does, possibly at other blocks.
pub open spec fn continuation_retargeted(before: CallContinuation, after: CallContinuation) -> bool {
    match before {
        CallContinuation::Continue { .. } => after is Continue,
        CallContinuation::Return { destination, .. } => after matches CallContinuation::Return {
            destination: d,
            ..
        } && d == destination,
        CallContinuation::Outcome { destination, failure_payload, .. } => after matches CallContinuation::Outcome {
            destination: d,
            failure_payload: f,
            ..
        } && d == destination && f == failure_payload,
        CallContinuation::OutcomeEffect { failure_payload, .. } => after matches CallContinuation::OutcomeEffect {
            failure_payload: f,
            ..
        } && f == failure_payload,
        CallContinuation::Never => after is Never,
    }
}

/// `after` is `before` with its edges redirected into cleanup chains, or, for
/// an exit, `before` itself or a jump into the chain that ends in it.
pub open spec fn retargeted(before: Terminator, after: Terminator) -> bool {
    match before {
        Terminator::Goto { .. } => after is Goto,
        Terminator::Switch { condition, join_target, .. } => after matches Terminator::Switch {
            condition: c,
            join_target: j,
            ..
        } && c == condition && j == join_target,
        Terminator::Call { origin, callee, arguments, continuation } => after matches Terminator::Call {
            origin: o,
            callee: k,
            arguments: a,
            continuation: c,
        } && o == origin && k == callee && a == arguments && continuation_retargeted(continuation, c),
        Terminator::InspectOutcome { origin, source, layer, destination, failure_payload, .. } => after matches Terminator::InspectOutcome {
            origin: o,
            source: s,
            layer: l,
            destination: d,
            failure_payload: f,
            ..
        } && o == origin && s == source && l == layer && d == destination && f == failure_payload,
        Terminator::Drop { .. } | Terminator::Trap => after == before,
        _ => after == before || after is Goto,
    }
}

/// `after` is `before` with cleanup materialized: the same tables, the same
/// statements and scope in every block of `before`, each of their
/// terminators retargeted, and new blocks appended.
pub open spec fn materialized(before: Body, after: Body) -> bool {
    &&& same_tables(before, after)
    &&& after.blocks@.len() >= before.blocks@.len()
    &&& forall|i: int|
        0 <= i < before.blocks@.len() ==> (#[trigger] after.blocks@[i]).scope == before.blocks@[i].scope
            && after.blocks@[i].statements == before.blocks@[i].statements && retargeted(
            before.blocks@[i].terminator,
            after.blocks@[i].terminator,
        )
}

/// Replaces the terminator of block `index`, returning the previous one.
fn replace_terminator(body: &mut Body, index: usize, terminator: Terminator) -> (previous: Terminator)
    requires
        index < old(body).blocks@.len(),
    ensures
        same_tables(*old(body), *final(body)),
        final(body).blocks@.len() == old(body).blocks@.len(),
        forall|i: int| 0 <= i < old(body).blocks@.len() && i != index ==> final(body).blocks@[i] == old(body).blocks@[i],
        final(body).blocks@[index as int].scope == old(body).blocks@[index as int].scope,
        final(body).blocks@[index as int].statements == old(body).blocks@[index as int].statements,
        final(body).blocks@[index as int].terminator == terminator,
        previous == old(body).blocks@[index as int].terminator,
{
    let mut terminator = terminator;
    std::mem::swap(&mut body.blocks[index].terminator, &mut terminator);
    terminator
}

/// `analysis` and `loans` are the initialization and loan analyses of
/// `body`.
pub open spec fn analyzed(body: Body, analysis: InitializationAnalysis, loans: LoanAnalysis) -> bool {
    &&& analysis.wf(body)
    &&& loans.wf(body)
    &&& if body.entry@ < body.blocks@.len() {
        &&& analysis.entry_states() == crate::initialization_flow::solution(body)
        &&& analysis.edges() == crate::initialization_flow::solution_edges(
            body,
            crate::initialization_flow::solution(body),
        )
        &&& analysis.exits() == crate::initialization_flow::solution_exits(
            body,
            crate::initialization_flow::solution(body),
        )
        &&& loans.active_at_exit() == crate::loans_flow::solution_active(body, crate::loans_flow::solution(body))
    } else {
        &&& analysis.entry_states().len() == 0
        &&& analysis.edges() == Map::<(BasicBlockId, BasicBlockId), (Set<nat>, Set<nat>)>::empty()
        &&& analysis.exits() == Map::<BasicBlockId, (Set<nat>, Set<nat>)>::empty()
        &&& loans.active_at_exit() == Map::<BasicBlockId, Set<nat>>::empty()
    }
}

/// The terminator of block `j` when the edges of block `i` were cleaned up:
/// the blocks before `i` were materialized by then.
pub open spec fn seen_terminator(before: Body, after: Body, i: int, j: int) -> Terminator {
    if j < i {
        after.blocks@[j].terminator
    } else {
        before.blocks@[j].terminator
    }
}

/// The edge of block `i` to `target` now enters `start`, from where new
/// blocks perform `prefix` and then the cleanup of the edge, and reach
/// `target`. An edge to no block of `before` gets no cleanup of its own; of
/// such an edge only that some chain leads from `start` to `target` is
/// stated.
pub open spec fn edge_cleaned(
    before: Body,
    after: Body,
    analysis: InitializationAnalysis,
    loans: LoanAnalysis,
    i: int,
    target: BasicBlockId,
    start: BasicBlockId,
    prefix: Seq<CleanupAction>,
) -> bool {
    if target@ < before.blocks@.len() {
        chain_from(
            after,
            start,
            prefix + edge_sequence(
                before,
                analysis,
                loans,
                BasicBlockId::at(i),
                before.blocks@[i].scope,
                target,
                before.blocks@[target@ as int].scope,
                terminal_exit(seen_terminator(before, after, i, target@ as int)),
            ),
            target,
            before.blocks@.len() as int,
        )
    } else {
        exists|actions: Seq<CleanupAction>| chain_from(after, start, prefix + actions, target, before.blocks@.len() as int)
    }
}

/// The loans, newest first, that a call of `block` with `arguments` ends
/// when it returns.
pub open spec fn call_ended(body: Body, arguments: Seq<CallArgument>, loans: LoanAnalysis, block: BasicBlockId) -> Seq<
    LoanId,
> {
    descending(call_loan_parts(body, arguments, loans, block), 0, body.loans@.len() as int)
}

/// The continuation of the call that ends block `i` went from `previous` to
/// `now`, each of its edges entering a chain that first ends the loans of
/// the call.
pub open spec fn continuation_cleaned(
    before: Body,
    after: Body,
    analysis: InitializationAnalysis,
    loans: LoanAnalysis,
    i: int,
    arguments: Seq<CallArgument>,
    previous: CallContinuation,
    now: CallContinuation,
) -> bool {
    let ended = end_loans(call_ended(before, arguments, loans, BasicBlockId::at(i)));
    match previous {
        CallContinuation::Never => now == previous,
        CallContinuation::Continue { target } => now is Continue && edge_cleaned(
            before,
            after,
            analysis,
            loans,
            i,
            target,
            now->Continue_target,
            ended,
        ),
        CallContinuation::Return { target, .. } => now is Return && edge_cleaned(
            before,
            after,
            analysis,
            loans,
            i,
            target,
            now->Return_target,
            ended,
        ),
        CallContinuation::Outcome { success, failure, .. } => now is Outcome && edge_cleaned(
            before,
            after,
            analysis,
            loans,
            i,
            success,
            now->Outcome_success,
            ended,
        ) && edge_cleaned(before, after, analysis, loans, i, failure, now->Outcome_failure, ended),
        CallContinuation::OutcomeEffect { success, failure, .. } => now is OutcomeEffect && edge_cleaned(
            before,
            after,
            analysis,
            loans,
            i,
            success,
            now->OutcomeEffect_success,
            ended,
        ) && edge_cleaned(before, after, analysis, loans, i, failure, now->OutcomeEffect_failure, ended),
    }
}

/// The exit that ended block `i` stays when nothing needs cleanup there;
/// otherwise block `i` jumps into a chain of new blocks that performs the
/// cleanup of its scope and all enclosing ones and ends in a new block that
/// holds the exit.
pub open spec fn exit_cleaned(
    before: Body,
    after: Body,
    analysis: InitializationAnalysis,
    loans: LoanAnalysis,
    i: int,
) -> bool {
    let previous = before.blocks@[i].terminator;
    let now = after.blocks@[i].terminator;
    let actions = exit_sequence(before, analysis, loans, BasicBlockId::at(i), before.blocks@[i].scope);
    if actions.len() == 0 {
        now == previous
    } else {
        now is Goto && exists|k: int|
            #![trigger after.blocks@[k]]
            before.blocks@.len() <= k < after.blocks@.len() && after.blocks@[k].scope == before.root_scope
                && after.blocks@[k].statements@.len() == 0 && after.blocks@[k].terminator == previous && chain_from(
                after,
                now->Goto_target,
                actions,
                BasicBlockId::at(k),
                before.blocks@.len() as int,
            )
    }
}

/// The terminator of block `i` of `before` became that of `after` with its
/// cleanup materialized.
pub open spec fn block_cleaned(
    before: Body,
    after: Body,
    analysis: InitializationAnalysis,
    loans: LoanAnalysis,
    i: int,
) -> bool {
    let now = after.blocks@[i].terminator;
    let none = Seq::<CleanupAction>::empty();
    match before.blocks@[i].terminator {
        Terminator::Goto { target } => now is Goto && edge_cleaned(
            before,
            after,
            analysis,
            loans,
            i,
            target,
            now->Goto_target,
            none,
        ),
        Terminator::Switch { then_target, else_target, .. } => now is Switch && edge_cleaned(
            before,
            after,
            analysis,
            loans,
            i,
            then_target,
            now->then_target,
            none,
        ) && edge_cleaned(before, after, analysis, loans, i, else_target, now->else_target, none),
        Terminator::InspectOutcome { success, failure, .. } => now is InspectOutcome && edge_cleaned(
            before,
            after,
            analysis,
            loans,
            i,
            success,
            now->InspectOutcome_success,
            none,
        ) && edge_cleaned(before, after, analysis, loans, i, failure, now->InspectOutcome_failure, none),
        Terminator::Call { arguments, continuation, .. } => now is Call && continuation_cleaned(
            before,
            after,
            analysis,
            loans,
            i,
            arguments@,
            continuation,
            now->Call_continuation,
        ),
        Terminator::Drop { .. } => now == before.blocks@[i].terminator,
        Terminator::Trap => now == before.blocks@[i].terminator,
        _ => exit_cleaned(before, after, analysis, loans, i),
    }
}

/// The scope of block `t` as the cleanup of an edge saw it: blocks of
/// `before` keep their scopes, and appended blocks never change.
pub open spec fn seen_scope(before: Body, after: Body, t: int) -> ScopeId {
    if t < before.blocks@.len() {
        before.blocks@[t].scope
    } else {
        after.blocks@[t].scope
    }
}

/// Whether block `t` ended in an exit when the edges of block `i` were
/// cleaned up.
pub open spec fn seen_exit(before: Body, after: Body, i: int, t: int) -> bool {
    terminal_exit(
        if t < before.blocks@.len() {
            seen_terminator(before, after, i, t)
        } else {
            after.blocks@[t].terminator
        },
    )
}

/// The cleanup of the edge of block `i` to `target`, made when the body had
/// `lo` blocks: none when `target` was no block yet.
pub open spec fn edge_cleanup_seen(
    before: Body,
    after: Body,
    analysis: InitializationAnalysis,
    loans: LoanAnalysis,
    i: int,
    target: BasicBlockId,
    lo: int,
) -> Seq<CleanupAction> {
    if target@ < lo {
        edge_sequence(
            before,
            analysis,
            loans,
            BasicBlockId::at(i),
            before.blocks@[i].scope,
            target,
            seen_scope(before, after, target@ as int),
            seen_exit(before, after, i, target@ as int),
        )
    } else {
        Seq::empty()
    }
}

/// The edge of block `i` to `target`, cleaned up when the body had `lo`
/// blocks, now enters `start`: blocks `lo` to `hi` are exactly a chain that
/// performs the edge's cleanup and reaches `target`, followed by a chain
/// that performs `prefix` and reaches the first one.
pub open spec fn edge_laid(
    before: Body,
    after: Body,
    analysis: InitializationAnalysis,
    loans: LoanAnalysis,
    i: int,
    target: BasicBlockId,
    start: BasicBlockId,
    prefix: Seq<CleanupAction>,
    lo: int,
    hi: int,
) -> bool {
    let actions = edge_cleanup_seen(before, after, analysis, loans, i, target, lo);
    let m = actions.len() as int;
    &&& hi == lo + m + prefix.len()
    &&& chain_laid(after, lo, actions, target)
    &&& chain_laid(after, lo + m, prefix, laid_start(lo, m, target))
    &&& start == laid_start(lo + m, prefix.len() as int, laid_start(lo, m, target))
}

/// The continuation of the call that ends block `i` went from `previous` to
/// `now`, and blocks `lo` to `hi` are exactly the chains of its edges, each
/// first ending the loans of the call.
pub open spec fn continuation_laid(
    before: Body,
    after: Body,
    analysis: InitializationAnalysis,
    loans: LoanAnalysis,
    i: int,
    arguments: Seq<CallArgument>,
    previous: CallContinuation,
    now: CallContinuation,
    lo: int,
    hi: int,
) -> bool {
    let ended = end_loans(call_ended(before, arguments, loans, BasicBlockId::at(i)));
    match previous {
        CallContinuation::Never => now == previous && hi == lo,
        CallContinuation::Continue { target } => now is Continue && edge_laid(
            before,
            after,
            analysis,
            loans,
            i,
            target,
            now->Continue_target,
            ended,
            lo,
            hi,
        ),
        CallContinuation::Return { target, .. } => now is Return && edge_laid(
            before,
            after,
            analysis,
            loans,
            i,
            target,
            now->Return_target,
            ended,
            lo,
            hi,
        ),
        CallContinuation::Outcome { success, failure, .. } => now is Outcome && exists|mid: int|
            #[trigger] edge_laid(before, after, analysis, loans, i, success, now->Outcome_success, ended, lo, mid)
                && edge_laid(before, after, analysis, loans, i, failure, now->Outcome_failure, ended, mid, hi),
        CallContinuation::OutcomeEffect { success, failure, .. } => now is OutcomeEffect && exists|mid: int|
            #[trigger] edge_laid(
                before,
                after,
                analysis,
                loans,
                i,
                success,
                now->OutcomeEffect_success,
                ended,
                lo,
                mid,
            ) && edge_laid(before, after, analysis, loans, i, failure, now->OutcomeEffect_failure, ended, mid, hi),
    }
}

/// The terminator of block `i` of `before` became that of `after`, and the
/// blocks `lo` to `hi` of `after` are exactly the ones its cleanup
/// appended: the chains of its edges in order, or for an exit that needs
/// cleanup a block holding the exit followed by the chain into it.
pub open spec fn block_laid(
    before: Body,
    after: Body,
    analysis: InitializationAnalysis,
    loans: LoanAnalysis,
    i: int,
    lo: int,
    hi: int,
) -> bool {
    let previous = before.blocks@[i].terminator;
    let now = after.blocks@[i].terminator;
    let none = Seq::<CleanupAction>::empty();
    match previous {
        Terminator::Goto { target } => now is Goto && edge_laid(
            before,
            after,
            analysis,
            loans,
            i,
            target,
            now->Goto_target,
            none,
            lo,
            hi,
        ),
        Terminator::Switch { then_target, else_target, .. } => now is Switch && exists|mid: int|
            #[trigger] edge_laid(before, after, analysis, loans, i, then_target, now->then_target, none, lo, mid)
                && edge_laid(before, after, analysis, loans, i, else_target, now->else_target, none, mid, hi),
        Terminator::InspectOutcome { success, failure, .. } => now is InspectOutcome && exists|mid: int|
            #[trigger] edge_laid(
                before,
                after,
                analysis,
                loans,
                i,
                success,
                now->InspectOutcome_success,
                none,
                lo,
                mid,
            ) && edge_laid(before, after, analysis, loans, i, failure, now->InspectOutcome_failure, none, mid, hi),
        Terminator::Call { arguments, continuation, .. } => now is Call && continuation_laid(
            before,
            after,
            analysis,
            loans,
            i,
            arguments@,
            continuation,
            now->Call_continuation,
            lo,
            hi,
        ),
        Terminator::Drop { .. } => now == previous && hi == lo,
        Terminator::Trap => now == previous && hi == lo,
        _ => {
            let actions = exit_sequence(before, analysis, loans, BasicBlockId::at(i), before.blocks@[i].scope);
            if actions.len() == 0 {
                now == previous && hi == lo
            } else {
                &&& hi == lo + 1 + actions.len()
                &&& after.blocks@[lo].scope == before.root_scope
                &&& after.blocks@[lo].statements@.len() == 0
                &&& after.blocks@[lo].terminator == previous
                &&& chain_laid(after, lo + 1, actions, BasicBlockId::at(lo))
                &&& now == (Terminator::Goto { target: laid_start(lo + 1, actions.len() as int, BasicBlockId::at(lo)) })
            }
        },
    }
}

/// The places of a local to drop depend on the tables of a body, not its
/// blocks.
proof fn lemma_local_places_tables(
    a: Body,
    b: Body,
    analysis: InitializationAnalysis,
    query: Availability,
    l: int,
)
    requires
        same_tables(a, b),
    ensures
        local_places(a, analysis, query, l) == local_places(b, analysis, query, l),
{
    assert(path_parts(a, analysis, query, LocalId::at(l)) =~= path_parts(b, analysis, query, LocalId::at(l)));
}

/// The cleanup of a scope depends on the tables of a body, not its blocks.
proof fn lemma_scope_cleanup_tables(
    a: Body,
    b: Body,
    analysis: InitializationAnalysis,
    loans: LoanAnalysis,
    query: Availability,
    scope: ScopeId,
)
    requires
        same_tables(a, b),
    ensures
        scope_cleanup(a, analysis, loans, query, scope) == scope_cleanup(b, analysis, loans, query, scope),
{
    assert forall|l: int| #[trigger] scope_local_parts(a, analysis, query, scope)(l) == scope_local_parts(
        b,
        analysis,
        query,
        scope,
    )(l) by {
        lemma_local_places_tables(a, b, analysis, query, l);
    }
    assert(scope_local_parts(a, analysis, query, scope) =~= scope_local_parts(b, analysis, query, scope));
    assert(scope_loan_parts(a, loans, query, scope) =~= scope_loan_parts(b, loans, query, scope));
    assert(override_parts(a, scope) =~= override_parts(b, scope));
    assert(region_parts(a, scope) =~= region_parts(b, scope));
}

/// The cleanup when scopes are left depends on the tables of a body, not
/// its blocks.
proof fn lemma_cleanup_sequence_tables(
    a: Body,
    b: Body,
    analysis: InitializationAnalysis,
    loans: LoanAnalysis,
    query: Availability,
    exited: Seq<ScopeId>,
)
    requires
        same_tables(a, b),
    ensures
        cleanup_sequence(a, analysis, loans, query, exited) == cleanup_sequence(b, analysis, loans, query, exited),
{
    assert forall|k: int| #[trigger] exited_cleanup_parts(a, analysis, loans, query, exited)(k)
        == exited_cleanup_parts(b, analysis, loans, query, exited)(k) by {
        lemma_scope_cleanup_tables(a, b, analysis, loans, query, exited[k]);
    }
    assert(exited_cleanup_parts(a, analysis, loans, query, exited) =~= exited_cleanup_parts(
        b,
        analysis,
        loans,
        query,
        exited,
    ));
}

/// The cleanup on an edge depends on the tables of a body, not its blocks.
proof fn lemma_edge_sequence_tables(
    a: Body,
    b: Body,
    analysis: InitializationAnalysis,
    loans: LoanAnalysis,
    from: BasicBlockId,
    source_scope: ScopeId,
    target: BasicBlockId,
    target_scope: ScopeId,
    target_exits: bool,
)
    requires
        same_tables(a, b),
    ensures
        edge_sequence(a, analysis, loans, from, source_scope, target, target_scope, target_exits)
            == edge_sequence(b, analysis, loans, from, source_scope, target, target_scope, target_exits),
{
    if let Some(exited) = exited_scope_seq(a.scopes@, source_scope, target_scope) {
        lemma_cleanup_sequence_tables(a, b, analysis, loans, Availability::OnEdge { from, to: target }, exited);
        assert forall|l: int| #[trigger] outside_parts(a, analysis, from, target, exited)(l) == outside_parts(
            b,
            analysis,
            from,
            target,
            exited,
        )(l) by {
            lemma_local_places_tables(a, b, analysis, Availability::OnlyOnEdge { from, to: target }, l);
        }
        assert(outside_parts(a, analysis, from, target, exited) =~= outside_parts(b, analysis, from, target, exited));
    }
}

/// The facts that the cleanup of one edge of block `index`, made on body
/// `current` and giving `edged`, leaves about the materialized body `after`.
proof fn lemma_edge_transport(
    before: Body,
    current: Body,
    edged: Body,
    after: Body,
    analysis: InitializationAnalysis,
    loans: LoanAnalysis,
    index: int,
    target: BasicBlockId,
    start: BasicBlockId,
    prefix: Seq<CleanupAction>,
)
    requires
        same_tables(before, current),
        same_tables(current, edged),
        same_tables(before, after),
        0 <= index < before.blocks@.len() <= current.blocks@.len() <= edged.blocks@.len() <= after.blocks@.len(),
        forall|j: int| current.blocks@.len() <= j < edged.blocks@.len() ==> after.blocks@[j] == edged.blocks@[j],
        forall|j: int|
            0 <= j < index ==> current.blocks@[j].scope == before.blocks@[j].scope
                && current.blocks@[j].terminator == after.blocks@[j].terminator,
        forall|j: int| index <= j < before.blocks@.len() ==> current.blocks@[j] == before.blocks@[j],
        edge_chain(
            current,
            edged,
            analysis,
            loans,
            BasicBlockId::at(index),
            before.blocks@[index].scope,
            target,
            start,
            prefix,
        ),
    ensures
        edge_cleaned(before, after, analysis, loans, index, target, start, prefix),
{
    let n = before.blocks@.len() as int;
    let actions = if target@ < current.blocks@.len() {
        edge_sequence(
            current,
            analysis,
            loans,
            BasicBlockId::at(index),
            before.blocks@[index].scope,
            target,
            current.blocks@[target@ as int].scope,
            terminal_exit(current.blocks@[target@ as int].terminator),
        )
    } else {
        Seq::<CleanupAction>::empty()
    };
    if target@ >= current.blocks@.len() {
        assert(prefix + actions =~= prefix);
    }
    assert(chain_from(edged, start, prefix + actions, target, current.blocks@.len() as int));
    lemma_chain_kept(edged, after, start, prefix + actions, target, current.blocks@.len() as int);
    lemma_chain_from_earlier(after, start, prefix + actions, target, current.blocks@.len() as int, n);
    if target@ < n {
        let t = target@ as int;
        assert(current.blocks@[t].scope == before.blocks@[t].scope);
        assert(terminal_exit(current.blocks@[t].terminator) == terminal_exit(
            seen_terminator(before, after, index, t),
        ));
        lemma_edge_sequence_tables(
            current,
            before,
            analysis,
            loans,
            BasicBlockId::at(index),
            before.blocks@[index].scope,
            target,
            before.blocks@[t].scope,
            terminal_exit(seen_terminator(before, after, index, t)),
        );
    }
    assert(chain_from(after, start, prefix + actions, target, n));
}

/// An edge stays cleaned when blocks are appended or blocks before the new
/// ones change, other than those block `i` saw as materialized.
proof fn lemma_edge_cleaned_kept(
    before: Body,
    a: Body,
    b: Body,
    analysis: InitializationAnalysis,
    loans: LoanAnalysis,
    i: int,
    target: BasicBlockId,
    start: BasicBlockId,
    prefix: Seq<CleanupAction>,
)
    requires
        edge_cleaned(before, a, analysis, loans, i, target, start, prefix),
        same_tables(a, b),
        0 <= i,
        a.blocks@.len() <= b.blocks@.len(),
        forall|j: int| 0 <= j < i ==> b.blocks@[j] == a.blocks@[j],
        forall|j: int| before.blocks@.len() <= j < a.blocks@.len() ==> b.blocks@[j] == a.blocks@[j],
    ensures
        edge_cleaned(before, b, analysis, loans, i, target, start, prefix),
{
    let n = before.blocks@.len() as int;
    if target@ < n {
        let t = target@ as int;
        assert(seen_terminator(before, a, i, t) == seen_terminator(before, b, i, t));
        let actions = edge_sequence(
            before,
            analysis,
            loans,
            BasicBlockId::at(i),
            before.blocks@[i].scope,
            target,
            before.blocks@[t].scope,
            terminal_exit(seen_terminator(before, a, i, t)),
        );
        lemma_chain_kept(a, b, start, prefix + actions, target, n);
    } else {
        let actions = choose|actions: Seq<CleanupAction>| chain_from(a, start, prefix + actions, target, n);
        lemma_chain_kept(a, b, start, prefix + actions, target, n);
    }
}

/// What the cleanup of one edge of block `index`, made on body `current`
/// and giving `edged`, leaves laid out in the materialized body `after`.
proof fn lemma_edge_laid_transport(
    before: Body,
    current: Body,
    edged: Body,
    after: Body,
    analysis: InitializationAnalysis,
    loans: LoanAnalysis,
    index: int,
    target: BasicBlockId,
    start: BasicBlockId,
    prefix: Seq<CleanupAction>,
)
    requires
        same_tables(before, current),
        same_tables(current, edged),
        same_tables(before, after),
        0 <= index < before.blocks@.len() <= current.blocks@.len() <= edged.blocks@.len() <= after.blocks@.len(),
        forall|j: int| before.blocks@.len() <= j < edged.blocks@.len() ==> after.blocks@[j] == edged.blocks@[j],
        forall|j: int| before.blocks@.len() <= j < current.blocks@.len() ==> edged.blocks@[j] == current.blocks@[j],
        forall|j: int|
            0 <= j < index ==> current.blocks@[j].scope == before.blocks@[j].scope
                && current.blocks@[j].terminator == after.blocks@[j].terminator,
        forall|j: int| index <= j < before.blocks@.len() ==> current.blocks@[j] == before.blocks@[j],
        ({
            let actions = edge_actions(current, analysis, loans, BasicBlockId::at(index), before.blocks@[index].scope, target);
            let lo = current.blocks@.len() as int;
            let m = actions.len() as int;
            &&& edged.blocks@.len() == lo + m + prefix.len()
            &&& chain_laid(edged, lo, actions, target)
            &&& chain_laid(edged, lo + m, prefix, laid_start(lo, m, target))
            &&& start == laid_start(lo + m, prefix.len() as int, laid_start(lo, m, target))
        }),
    ensures
        edge_laid(
            before,
            after,
            analysis,
            loans,
            index,
            target,
            start,
            prefix,
            current.blocks@.len() as int,
            edged.blocks@.len() as int,
        ),
{
    let lo = current.blocks@.len() as int;
    let actions = edge_actions(current, analysis, loans, BasicBlockId::at(index), before.blocks@[index].scope, target);
    if target@ < lo {
        let t = target@ as int;
        if t < before.blocks@.len() {
            assert(current.blocks@[t].scope == before.blocks@[t].scope);
            assert(terminal_exit(current.blocks@[t].terminator) == seen_exit(before, after, index, t));
        } else {
            assert(current.blocks@[t] == after.blocks@[t]);
        }
        lemma_edge_sequence_tables(
            current,
            before,
            analysis,
            loans,
            BasicBlockId::at(index),
            before.blocks@[index].scope,
            target,
            seen_scope(before, after, t),
            seen_exit(before, after, index, t),
        );
    }
    assert(actions == edge_cleanup_seen(before, after, analysis, loans, index, target, lo));
    lemma_chain_laid_kept(edged, after, lo, actions, target);
    lemma_chain_laid_kept(edged, after, lo + actions.len(), prefix, laid_start(lo, actions.len() as int, target));
}

/// A laid edge stays when blocks are appended or blocks before the new ones
/// change, other than those block `i` saw as materialized.
proof fn lemma_edge_laid_kept(
    before: Body,
    a: Body,
    b: Body,
    analysis: InitializationAnalysis,
    loans: LoanAnalysis,
    i: int,
    target: BasicBlockId,
    start: BasicBlockId,
    prefix: Seq<CleanupAction>,
    lo: int,
    hi: int,
)
    requires
        edge_laid(before, a, analysis, loans, i, target, start, prefix, lo, hi),
        same_tables(a, b),
        0 <= i,
        before.blocks@.len() <= lo,
        hi <= a.blocks@.len() <= b.blocks@.len(),
        forall|j: int| 0 <= j < i ==> b.blocks@[j] == a.blocks@[j],
        forall|j: int| before.blocks@.len() <= j < a.blocks@.len() ==> b.blocks@[j] == a.blocks@[j],
    ensures
        edge_laid(before, b, analysis, loans, i, target, start, prefix, lo, hi),
{
    if target@ < lo {
        let t = target@ as int;
        assert(seen_scope(before, a, t) == seen_scope(before, b, t));
        assert(seen_exit(before, a, i, t) == seen_exit(before, b, i, t));
    }
    let actions = edge_cleanup_seen(before, a, analysis, loans, i, target, lo);
    assert(actions == edge_cleanup_seen(before, b, analysis, loans, i, target, lo));
    lemma_chain_laid_kept(a, b, lo, actions, target);
    lemma_chain_laid_kept(a, b, lo + actions.len(), prefix, laid_start(lo, actions.len() as int, target));
}

/// A laid block stays when blocks are appended or blocks before the new ones
/// change, other than those before `done`.
proof fn lemma_block_laid_kept(
    before: Body,
    a: Body,
    b: Body,
    analysis: InitializationAnalysis,
    loans: LoanAnalysis,
    i: int,
    done: int,
    lo: int,
    hi: int,
)
    requires
        block_laid(before, a, analysis, loans, i, lo, hi),
        same_tables(a, b),
        0 <= i < done <= before.blocks@.len() <= lo <= hi <= a.blocks@.len() <= b.blocks@.len(),
        forall|j: int| 0 <= j < done ==> b.blocks@[j] == a.blocks@[j],
        forall|j: int| before.blocks@.len() <= j < a.blocks@.len() ==> b.blocks@[j] == a.blocks@[j],
    ensures
        block_laid(before, b, analysis, loans, i, lo, hi),
{
    let now = a.blocks@[i].terminator;
    let none = Seq::<CleanupAction>::empty();
    assert(b.blocks@[i] == a.blocks@[i]);
    match before.blocks@[i].terminator {
        Terminator::Goto { target } => {
            lemma_edge_laid_kept(before, a, b, analysis, loans, i, target, now->Goto_target, none, lo, hi);
        },
        Terminator::Switch { then_target, else_target, .. } => {
            let mid = choose|mid: int|
                #[trigger] edge_laid(before, a, analysis, loans, i, then_target, now->then_target, none, lo, mid)
                    && edge_laid(before, a, analysis, loans, i, else_target, now->else_target, none, mid, hi);
            lemma_edge_laid_kept(before, a, b, analysis, loans, i, then_target, now->then_target, none, lo, mid);
            lemma_edge_laid_kept(before, a, b, analysis, loans, i, else_target, now->else_target, none, mid, hi);
        },
        Terminator::InspectOutcome { success, failure, .. } => {
            let mid = choose|mid: int|
                #[trigger] edge_laid(before, a, analysis, loans, i, success, now->InspectOutcome_success, none, lo, mid)
                    && edge_laid(before, a, analysis, loans, i, failure, now->InspectOutcome_failure, none, mid, hi);
            lemma_edge_laid_kept(before, a, b, analysis, loans, i, success, now->InspectOutcome_success, none, lo, mid);
            lemma_edge_laid_kept(before, a, b, analysis, loans, i, failure, now->InspectOutcome_failure, none, mid, hi);
        },
        Terminator::Call { arguments, continuation, .. } => {
            let c = now->Call_continuation;
            let ended = end_loans(call_ended(before, arguments@, loans, BasicBlockId::at(i)));
            match continuation {
                CallContinuation::Continue { target } => {
                    lemma_edge_laid_kept(before, a, b, analysis, loans, i, target, c->Continue_target, ended, lo, hi);
                },
                CallContinuation::Return { target, .. } => {
                    lemma_edge_laid_kept(before, a, b, analysis, loans, i, target, c->Return_target, ended, lo, hi);
                },
                CallContinuation::Outcome { success, failure, .. } => {
                    let mid = choose|mid: int|
                        #[trigger] edge_laid(before, a, analysis, loans, i, success, c->Outcome_success, ended, lo, mid)
                            && edge_laid(before, a, analysis, loans, i, failure, c->Outcome_failure, ended, mid, hi);
                    lemma_edge_laid_kept(before, a, b, analysis, loans, i, success, c->Outcome_success, ended, lo, mid);
                    lemma_edge_laid_kept(before, a, b, analysis, loans, i, failure, c->Outcome_failure, ended, mid, hi);
                },
                CallContinuation::OutcomeEffect { success, failure, .. } => {
                    let mid = choose|mid: int|
                        #[trigger] edge_laid(
                            before,
                            a,
                            analysis,
                            loans,
                            i,
                            success,
                            c->OutcomeEffect_success,
                            ended,
                            lo,
                            mid,
                        ) && edge_laid(before, a, analysis, loans, i, failure, c->OutcomeEffect_failure, ended, mid, hi);
                    lemma_edge_laid_kept(
                        before,
                        a,
                        b,
                        analysis,
                        loans,
                        i,
                        success,
                        c->OutcomeEffect_success,
                        ended,
                        lo,
                        mid,
                    );
                    lemma_edge_laid_kept(
                        before,
                        a,
                        b,
                        analysis,
                        loans,
                        i,
                        failure,
                        c->OutcomeEffect_failure,
                        ended,
                        mid,
                        hi,
                    );
                },
                CallContinuation::Never => {},
            }
        },
        Terminator::Drop { .. } => {},
        Terminator::Trap => {},
        _ => {
            let actions = exit_sequence(before, analysis, loans, BasicBlockId::at(i), before.blocks@[i].scope);
            if actions.len() > 0 {
                lemma_chain_laid_kept(a, b, lo + 1, actions, BasicBlockId::at(lo));
                assert(b.blocks@[lo] == a.blocks@[lo]);
            }
        },
    }
}

/// A block stays cleaned when blocks are appended or blocks before the new
/// ones change, other than those before `done`.
proof fn lemma_block_cleaned_kept(
    before: Body,
    a: Body,
    b: Body,
    analysis: InitializationAnalysis,
    loans: LoanAnalysis,
    i: int,
    done: int,
)
    requires
        block_cleaned(before, a, analysis, loans, i),
        same_tables(a, b),
        0 <= i < done <= before.blocks@.len(),
        a.blocks@.len() <= b.blocks@.len(),
        forall|j: int| 0 <= j < done ==> b.blocks@[j] == a.blocks@[j],
        forall|j: int| before.blocks@.len() <= j < a.blocks@.len() ==> b.blocks@[j] == a.blocks@[j],
    ensures
        block_cleaned(before, b, analysis, loans, i),
{
    let now = a.blocks@[i].terminator;
    let none = Seq::<CleanupAction>::empty();
    assert(b.blocks@[i] == a.blocks@[i]);
    match before.blocks@[i].terminator {
        Terminator::Goto { target } => {
            lemma_edge_cleaned_kept(before, a, b, analysis, loans, i, target, now->Goto_target, none);
        },
        Terminator::Switch { then_target, else_target, .. } => {
            lemma_edge_cleaned_kept(before, a, b, analysis, loans, i, then_target, now->then_target, none);
            lemma_edge_cleaned_kept(before, a, b, analysis, loans, i, else_target, now->else_target, none);
        },
        Terminator::InspectOutcome { success, failure, .. } => {
            lemma_edge_cleaned_kept(before, a, b, analysis, loans, i, success, now->InspectOutcome_success, none);
            lemma_edge_cleaned_kept(before, a, b, analysis, loans, i, failure, now->InspectOutcome_failure, none);
        },
        Terminator::Call { arguments, continuation, .. } => {
            let c = now->Call_continuation;
            let ended = end_loans(call_ended(before, arguments@, loans, BasicBlockId::at(i)));
            match continuation {
                CallContinuation::Continue { target } => {
                    lemma_edge_cleaned_kept(before, a, b, analysis, loans, i, target, c->Continue_target, ended);
                },
                CallContinuation::Return { target, .. } => {
                    lemma_edge_cleaned_kept(before, a, b, analysis, loans, i, target, c->Return_target, ended);
                },
                CallContinuation::Outcome { success, failure, .. } => {
                    lemma_edge_cleaned_kept(before, a, b, analysis, loans, i, success, c->Outcome_success, ended);
                    lemma_edge_cleaned_kept(before, a, b, analysis, loans, i, failure, c->Outcome_failure, ended);
                },
                CallContinuation::OutcomeEffect { success, failure, .. } => {
                    lemma_edge_cleaned_kept(
                        before,
                        a,
                        b,
                        analysis,
                        loans,
                        i,
                        success,
                        c->OutcomeEffect_success,
                        ended,
                    );
                    lemma_edge_cleaned_kept(
                        before,
                        a,
                        b,
                        analysis,
                        loans,
                        i,
                        failure,
                        c->OutcomeEffect_failure,
                        ended,
                    );
                },
                CallContinuation::Never => {},
            }
        },
        Terminator::Drop { .. } => {},
        Terminator::Trap => {},
        _ => {
            let actions = exit_sequence(before, analysis, loans, BasicBlockId::at(i), before.blocks@[i].scope);
            if actions.len() > 0 {
                let k = choose|k: int|
                    #![trigger a.blocks@[k]]
                    before.blocks@.len() <= k < a.blocks@.len() && a.blocks@[k].scope == before.root_scope
                        && a.blocks@[k].statements@.len() == 0 && a.blocks@[k].terminator == before.blocks@[i].terminator
                        && chain_from(a, now->Goto_target, actions, BasicBlockId::at(k), before.blocks@.len() as int);
                lemma_chain_kept(a, b, now->Goto_target, actions, BasicBlockId::at(k), before.blocks@.len() as int);
                assert(b.blocks@[k] == a.blocks@[k]);
            }
            assert(exit_cleaned(before, b, analysis, loans, i));
        },
    }
}

/// `now` is `previous` with its edges, to `first` and `second` in order,
/// redirected to `new_first` and `new_second`; a call that never returns
/// stays as it is.
pub open spec fn redirected(
    previous: Terminator,
    now: Terminator,
    first: BasicBlockId,
    second: BasicBlockId,
    new_first: BasicBlockId,
    new_second: BasicBlockId,
) -> bool {
    match previous {
        Terminator::Goto { target } => first == target && now == (Terminator::Goto { target: new_first }),
        Terminator::Switch { condition, then_target, else_target, join_target } => first == then_target && second
            == else_target && now == (Terminator::Switch {
            condition,
            then_target: new_first,
            else_target: new_second,
            join_target,
        }),
        Terminator::InspectOutcome { origin, source, layer, destination, success, failure, failure_payload } => first
            == success && second == failure && now == (Terminator::InspectOutcome {
            origin,
            source,
            layer,
            destination,
            success: new_first,
            failure: new_second,
            failure_payload,
        }),
        Terminator::Call { origin, callee, arguments, continuation } => match continuation {
            CallContinuation::Continue { target } => first == target && now == (Terminator::Call {
                origin,
                callee,
                arguments,
                continuation: CallContinuation::Continue { target: new_first },
            }),
            CallContinuation::Return { destination, target } => first == target && now == (Terminator::Call {
                origin,
                callee,
                arguments,
                continuation: CallContinuation::Return { destination, target: new_first },
            }),
            CallContinuation::Outcome { destination, success, failure, failure_payload } => first == success
                && second == failure && now == (Terminator::Call {
                origin,
                callee,
                arguments,
                continuation: CallContinuation::Outcome {
                    destination,
                    success: new_first,
                    failure: new_second,
                    failure_payload,
                },
            }),
            CallContinuation::OutcomeEffect { success, failure, failure_payload } => first == success && second
                == failure && now == (Terminator::Call {
                origin,
                callee,
                arguments,
                continuation: CallContinuation::OutcomeEffect { success: new_first, failure: new_second, failure_payload },
            }),
            CallContinuation::Never => now == previous,
        },
        _ => false,
    }
}

/// Whether `terminator` leaves by two edges.
pub open spec fn two_way(terminator: Terminator) -> bool {
    match terminator {
        Terminator::Switch { .. } | Terminator::InspectOutcome { .. } => true,
        Terminator::Call { continuation, .. } => continuation is Outcome || continuation is OutcomeEffect,
        _ => false,
    }
}

/// Block `i`, whose edges were redirected into laid chains, is laid.
proof fn lemma_block_laid_from_edges(
    before: Body,
    after: Body,
    analysis: InitializationAnalysis,
    loans: LoanAnalysis,
    i: int,
    lo: int,
    mid: int,
    hi: int,
    first: BasicBlockId,
    second: BasicBlockId,
    new_first: BasicBlockId,
    new_second: BasicBlockId,
    prefix: Seq<CleanupAction>,
)
    requires
        redirected(before.blocks@[i].terminator, after.blocks@[i].terminator, first, second, new_first, new_second),
        prefix == match before.blocks@[i].terminator {
            Terminator::Call { arguments, .. } => end_loans(call_ended(before, arguments@, loans, BasicBlockId::at(i))),
            _ => Seq::<CleanupAction>::empty(),
        },
        before.blocks@[i].terminator matches Terminator::Call { continuation, .. } && continuation is Never ==> hi
            == lo,
        !(before.blocks@[i].terminator matches Terminator::Call { continuation, .. } && continuation is Never) ==> {
            &&& edge_laid(before, after, analysis, loans, i, first, new_first, prefix, lo, mid)
            &&& two_way(before.blocks@[i].terminator) ==> edge_laid(
                before,
                after,
                analysis,
                loans,
                i,
                second,
                new_second,
                prefix,
                mid,
                hi,
            )
            &&& !two_way(before.blocks@[i].terminator) ==> mid == hi
        },
    ensures
        block_laid(before, after, analysis, loans, i, lo, hi),
{
    let now = after.blocks@[i].terminator;
    let none = Seq::<CleanupAction>::empty();
    match before.blocks@[i].terminator {
        Terminator::Goto { target } => {
            assert(now->Goto_target == new_first);
        },
        Terminator::Switch { then_target, else_target, .. } => {
            assert(now->then_target == new_first && now->else_target == new_second);
            assert(edge_laid(before, after, analysis, loans, i, then_target, now->then_target, none, lo, mid));
        },
        Terminator::InspectOutcome { success, failure, .. } => {
            assert(now->InspectOutcome_success == new_first && now->InspectOutcome_failure == new_second);
            assert(edge_laid(before, after, analysis, loans, i, success, now->InspectOutcome_success, none, lo, mid));
        },
        Terminator::Call { arguments, continuation, .. } => {
            let c = now->Call_continuation;
            match continuation {
                CallContinuation::Outcome { success, failure, .. } => {
                    assert(c->Outcome_success == new_first && c->Outcome_failure == new_second);
                    assert(edge_laid(before, after, analysis, loans, i, success, c->Outcome_success, prefix, lo, mid));
                },
                CallContinuation::OutcomeEffect { success, failure, .. } => {
                    assert(c->OutcomeEffect_success == new_first && c->OutcomeEffect_failure == new_second);
                    assert(edge_laid(
                        before,
                        after,
                        analysis,
                        loans,
                        i,
                        success,
                        c->OutcomeEffect_success,
                        prefix,
                        lo,
                        mid,
                    ));
                },
                _ => {},
            }
        },
        _ => {},
    }
}

/// Materializes the cleanup of block `index`, whose terminator is still
/// that of `before`.
#[verifier::spinoff_prover]
#[verifier::rlimit(80)]
fn materialize_block(
    body: &mut Body,
    analysis: &InitializationAnalysis,
    loans: &LoanAnalysis,
    index: usize,
    Ghost(before): Ghost<Body>,
)
    requires
        cleanup_ready(*old(body), *analysis, *loans),
        same_tables(before, *old(body)),
        index < before.blocks@.len() <= old(body).blocks@.len(),
        forall|j: int| 0 <= j < index ==> (#[trigger] old(body).blocks@[j]).scope == before.blocks@[j].scope,
        forall|j: int| index <= j < before.blocks@.len() ==> #[trigger] old(body).blocks@[j] == before.blocks@[j],
    ensures
        cleanup_ready(*final(body), *analysis, *loans),
        same_tables(before, *final(body)),
        final(body).blocks@.len() >= old(body).blocks@.len(),
        forall|j: int|
            0 <= j < old(body).blocks@.len() && j != index ==> #[trigger] final(body).blocks@[j] == old(
                body,
            ).blocks@[j],
        final(body).blocks@[index as int].scope == before.blocks@[index as int].scope,
        final(body).blocks@[index as int].statements == before.blocks@[index as int].statements,
        retargeted(before.blocks@[index as int].terminator, final(body).blocks@[index as int].terminator),
        final(body).blocks@.len() <= 0x1_0000_0000 ==> block_cleaned(
            before,
            *final(body),
            *analysis,
            *loans,
            index as int,
        ),
        block_laid(
            before,
            *final(body),
            *analysis,
            *loans,
            index as int,
            old(body).blocks@.len() as int,
            final(body).blocks@.len() as int,
        ),
{
    let ghost current = *body;
    let ghost n = before.blocks@.len() as int;
    let ghost i = index as int;
    let block_id = BasicBlockId::from_index(index);
    let source_scope = body.blocks[index].scope;
    let exits = is_terminal_exit(&body.blocks[index].terminator) || match &body.blocks[index].terminator {
        Terminator::ReturnOutcomeSuccess { .. } | Terminator::ReturnOptionalNone | Terminator::ReturnValue { .. } => true,
        _ => false,
    };
    let is_trap = match &body.blocks[index].terminator {
        Terminator::Trap => true,
        _ => false,
    };
    let is_drop = match &body.blocks[index].terminator {
        Terminator::Drop { .. } => true,
        _ => false,
    };
    assert(block_id == BasicBlockId::at(i));
    if is_drop || is_trap {
        return;
    }
    if exits {
        let terminal = replace_terminator(body, index, Terminator::Trap);
        proof {
            lemma_ready_extends(current, *body, *analysis, *loans);
        }
        let ghost middle = *body;
        let replacement = cleanup_exit(body, analysis, loans, block_id, source_scope, terminal);
        let ghost exited_body = *body;
        replace_terminator(body, index, replacement);
        proof {
            lemma_ready_extends(exited_body, *body, *analysis, *loans);
            let actions = exit_sequence(middle, *analysis, *loans, block_id, source_scope);
            lemma_cleanup_sequence_tables(
                middle,
                before,
                *analysis,
                *loans,
                Availability::AtExit { block: block_id },
                ancestors(middle.scopes@, source_scope),
            );
            assert(actions == exit_sequence(before, *analysis, *loans, BasicBlockId::at(i), before.blocks@[i].scope));
            if actions.len() > 0 {
                let k = middle.blocks@.len() as int;
                lemma_chain_laid_kept(exited_body, *body, k + 1, actions, BasicBlockId::at(k));
                assert(body.blocks@[k] == exited_body.blocks@[k]);
            }
            assert(block_laid(before, *body, *analysis, *loans, i, current.blocks@.len() as int, body.blocks@.len() as int));
            if body.blocks@.len() <= 0x1_0000_0000 {
                if actions.len() > 0 {
                    let k = middle.blocks@.len() as int;
                    lemma_chain_kept(
                        exited_body,
                        *body,
                        replacement->Goto_target,
                        actions,
                        BasicBlockId::at(k),
                        k + 1,
                    );
                    lemma_chain_from_earlier(
                        *body,
                        replacement->Goto_target,
                        actions,
                        BasicBlockId::at(k),
                        k + 1,
                        n,
                    );
                    assert(body.blocks@[k] == exited_body.blocks@[k]);
                }
                assert(exit_cleaned(before, *body, *analysis, *loans, i));
            }
        }
        return;
    }
    let (first, second, call_loans) = match &body.blocks[index].terminator {
        Terminator::Goto { target } => (*target, *target, Vec::new()),
        Terminator::Switch { then_target, else_target, .. } => (*then_target, *else_target, Vec::new()),
        Terminator::InspectOutcome { success, failure, .. } => (*success, *failure, Vec::new()),
        Terminator::Call { arguments, continuation, .. } => {
            let call_loans = call_lifetime_loans(body, arguments, loans, block_id);
            match continuation {
                CallContinuation::Continue { target } => (*target, *target, call_loans),
                CallContinuation::Return { target, .. } => (*target, *target, call_loans),
                CallContinuation::Outcome { success, failure, .. } => (*success, *failure, call_loans),
                CallContinuation::OutcomeEffect { success, failure, .. } => (*success, *failure, call_loans),
                CallContinuation::Never => (block_id, block_id, call_loans),
            }
        },
        _ => (block_id, block_id, Vec::new()),
    };
    let is_call = match &body.blocks[index].terminator {
        Terminator::Call { .. } => true,
        _ => false,
    };
    let is_two_way = match &body.blocks[index].terminator {
        Terminator::Switch { .. } | Terminator::InspectOutcome { .. } => true,
        Terminator::Call { continuation, .. } => match continuation {
            CallContinuation::Outcome { .. } | CallContinuation::OutcomeEffect { .. } => true,
            _ => false,
        },
        _ => false,
    };
    let is_never = match &body.blocks[index].terminator {
        Terminator::Call { continuation, .. } => match continuation {
            CallContinuation::Never => true,
            _ => false,
        },
        _ => false,
    };
    let ghost prefix = if is_call {
        end_loans(call_loans@)
    } else {
        Seq::<CleanupAction>::empty()
    };
    let ghost mut one = current;
    let (new_first, new_second) = if is_never {
        (first, second)
    } else if is_call {
        let new_first = cleanup_call_edge(body, analysis, loans, block_id, source_scope, first, &call_loans);
        proof {
            one = *body;
        }
        let new_second = if is_two_way {
            cleanup_call_edge(body, analysis, loans, block_id, source_scope, second, &call_loans)
        } else {
            new_first
        };
        (new_first, new_second)
    } else {
        let new_first = cleanup_edge(body, analysis, loans, block_id, source_scope, first);
        proof {
            one = *body;
        }
        let new_second = if is_two_way {
            cleanup_edge(body, analysis, loans, block_id, source_scope, second)
        } else {
            new_first
        };
        (new_first, new_second)
    };
    let ghost edged = *body;
    assert(edged.blocks@[i] == current.blocks@[i]);
    let previous = replace_terminator(body, index, Terminator::Trap);
    let replacement = match previous {
        Terminator::Goto { .. } => Terminator::Goto { target: new_first },
        Terminator::Switch { condition, join_target, .. } => Terminator::Switch {
            condition,
            then_target: new_first,
            else_target: new_second,
            join_target,
        },
        Terminator::InspectOutcome { origin, source, layer, destination, failure_payload, .. } => {
            Terminator::InspectOutcome {
                origin,
                source,
                layer,
                destination,
                success: new_first,
                failure: new_second,
                failure_payload,
            }
        },
        Terminator::Call { origin, callee, arguments, continuation } => {
            let continuation = match continuation {
                CallContinuation::Continue { .. } => CallContinuation::Continue { target: new_first },
                CallContinuation::Return { destination, .. } => CallContinuation::Return {
                    destination,
                    target: new_first,
                },
                CallContinuation::Outcome { destination, failure_payload, .. } => CallContinuation::Outcome {
                    destination,
                    success: new_first,
                    failure: new_second,
                    failure_payload,
                },
                CallContinuation::OutcomeEffect { failure_payload, .. } => CallContinuation::OutcomeEffect {
                    success: new_first,
                    failure: new_second,
                    failure_payload,
                },
                CallContinuation::Never => CallContinuation::Never,
            };
            Terminator::Call { origin, callee, arguments, continuation }
        },
        other => other,
    };
    replace_terminator(body, index, replacement);
    proof {
        lemma_ready_extends(edged, *body, *analysis, *loans);
        if is_call {
            let arguments = before.blocks@[i].terminator->Call_arguments@;
            assert(call_loan_parts(current, arguments, *loans, block_id) =~= call_loan_parts(
                before,
                arguments,
                *loans,
                block_id,
            ));
            assert(prefix == end_loans(call_ended(before, arguments, *loans, BasicBlockId::at(i))));
        }
        if !is_never {
            lemma_edge_laid_transport(before, current, one, *body, *analysis, *loans, i, first, new_first, prefix);
            if is_two_way {
                lemma_edge_laid_transport(before, one, edged, *body, *analysis, *loans, i, second, new_second, prefix);
            }
        }
        assert(redirected(
            before.blocks@[i].terminator,
            body.blocks@[i].terminator,
            first,
            second,
            new_first,
            new_second,
        ));
        lemma_block_laid_from_edges(
            before,
            *body,
            *analysis,
            *loans,
            i,
            current.blocks@.len() as int,
            one.blocks@.len() as int,
            body.blocks@.len() as int,
            first,
            second,
            new_first,
            new_second,
            prefix,
        );
        if body.blocks@.len() <= 0x1_0000_0000 && !is_never {
            assert(edge_chain(current, one, *analysis, *loans, block_id, source_scope, first, new_first, prefix));
            lemma_edge_transport(before, current, one, *body, *analysis, *loans, i, first, new_first, prefix);
            if is_two_way {
                assert(edge_chain(one, edged, *analysis, *loans, block_id, source_scope, second, new_second, prefix));
                lemma_edge_transport(before, one, edged, *body, *analysis, *loans, i, second, new_second, prefix);
            }
            if is_call {
                let arguments = before.blocks@[i].terminator->Call_arguments@;
                assert(call_loan_parts(current, arguments, *loans, block_id) =~= call_loan_parts(
                    before,
                    arguments,
                    *loans,
                    block_id,
                ));
                assert(prefix == end_loans(call_ended(before, arguments, *loans, BasicBlockId::at(i))));
            }
        }
    }
}

/// The blocks of `after` beyond those of `before` are exactly the ones the
/// cleanup of each block of `before` appended, in block order: those of
/// block `i` run from `bounds[i]` to `bounds[i + 1]`.
pub open spec fn materialized_in(
    before: Body,
    after: Body,
    analysis: InitializationAnalysis,
    loans: LoanAnalysis,
    bounds: Seq<int>,
) -> bool {
    let n = before.blocks@.len() as int;
    &&& bounds.len() == n + 1
    &&& bounds[0] == n
    &&& bounds[n] == after.blocks@.len()
    &&& forall|i: int| 0 <= i < n ==> #[trigger] bounds[i] <= bounds[i + 1]
    &&& forall|i: int| 0 <= i < n ==> #[trigger] block_laid(before, after, analysis, loans, i, bounds[i], bounds[i + 1])
}

/// Materializes lexical cleanup in `body`: every edge that leaves scopes,
/// and every exit, first passes through blocks that end the scopes' loans,
/// drop their initialized owned places and leave their allocation regions.
pub fn materialize(body: &mut Body)
    requires
        old(body).addressable(),
        old(body).paths_indexed(),
        old(body).owned_locals_have_plans(),
    ensures
        materialized(*old(body), *final(body)),
        final(body).blocks@.len() <= 0x1_0000_0000 ==> exists|
            analysis: InitializationAnalysis,
            loans: LoanAnalysis,
        |
            #[trigger] analyzed(*old(body), analysis, loans) && forall|i: int|
                0 <= i < old(body).blocks@.len() ==> #[trigger] block_cleaned(
                    *old(body),
                    *final(body),
                    analysis,
                    loans,
                    i,
                ),
        exists|analysis: InitializationAnalysis, loans: LoanAnalysis, bounds: Seq<int>|
            #[trigger] analyzed(*old(body), analysis, loans) && #[trigger] materialized_in(
                *old(body),
                *final(body),
                analysis,
                loans,
                bounds,
            ),
{
    let analysis = crate::initialization::analyze(body);
    let loans = crate::loans::analyze(body);
    let ghost initial = *body;
    assert(analyzed(initial, analysis, loans));
    let block_count = body.blocks.len();
    let mut index: usize = 0;
    let ghost mut bounds: Seq<int> = seq![block_count as int];
    while index < block_count
        invariant
            block_count == initial.blocks@.len(),
            index <= block_count,
            analyzed(initial, analysis, loans),
            cleanup_ready(*body, analysis, loans),
            same_tables(initial, *body),
            body.blocks@.len() >= block_count,
            forall|i: int|
                0 <= i < index ==> (#[trigger] body.blocks@[i]).scope == initial.blocks@[i].scope
                    && body.blocks@[i].statements == initial.blocks@[i].statements && retargeted(
                    initial.blocks@[i].terminator,
                    body.blocks@[i].terminator,
                ),
            forall|i: int| index <= i < block_count ==> #[trigger] body.blocks@[i] == initial.blocks@[i],
            body.blocks@.len() <= 0x1_0000_0000 ==> forall|i: int|
                0 <= i < index ==> #[trigger] block_cleaned(initial, *body, analysis, loans, i),
            bounds.len() == index + 1,
            bounds[0] == block_count,
            bounds[index as int] == body.blocks@.len(),
            forall|i: int, j: int| 0 <= i <= j <= index ==> block_count <= #[trigger] bounds[i] <= #[trigger] bounds[j],
            forall|i: int| 0 <= i < index ==> #[trigger] block_laid(initial, *body, analysis, loans, i, bounds[i], bounds[i + 1]),
        decreases block_count - index,
    {
        let ghost start = *body;
        materialize_block(body, &analysis, &loans, index, Ghost(initial));
        proof {
            let old_bounds = bounds;
            bounds = bounds.push(body.blocks@.len() as int);
            assert forall|i: int| 0 <= i < index + 1 implies #[trigger] block_laid(
                initial,
                *body,
                analysis,
                loans,
                i,
                bounds[i],
                bounds[i + 1],
            ) by {
                if i < index {
                    assert(bounds[i] == old_bounds[i] && bounds[i + 1] == old_bounds[i + 1]);
                    lemma_block_laid_kept(initial, start, *body, analysis, loans, i, index as int, bounds[i], bounds[i + 1]);
                }
            }
        }
        proof {
            if body.blocks@.len() <= 0x1_0000_0000 {
                assert forall|i: int| 0 <= i < index + 1 implies #[trigger] block_cleaned(
                    initial,
                    *body,
                    analysis,
                    loans,
                    i,
                ) by {
                    if i < index {
                        lemma_block_cleaned_kept(initial, start, *body, analysis, loans, i, index as int);
                    }
                }
            }
        }
        index = index + 1;
    }
    proof {
        assert forall|i: int| 0 <= i < block_count implies #[trigger] bounds[i] <= bounds[i + 1] by {
            assert(bounds[i] <= bounds[i + 1]);
        }
        assert(materialized_in(initial, *body, analysis, loans, bounds));
    }
}

} // verus!
