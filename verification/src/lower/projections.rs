//! Field places: the projection paths that reach a field of a local, shared
//! by every place that reaches the same field the same way.

use crate::drop_plans::{build, extends, DropPlan};
use crate::ids::ProjectionPathId;
use crate::locals::{OwnershipKind, ValueRepresentation};
use crate::lower::BuildError;
use crate::model::{Place, ProjectionElement, ProjectionPath};
use crate::resolution::ResolveModel;
use crate::semantic::TyId;
use vstd::prelude::*;

verus! {

/// One field step of a place: where the field lies in its parent and what
/// is known of its type.
#[derive(Debug, Clone, Copy, PartialEq, Eq, Structural)]
pub struct FieldSegment {
    pub offset: u64,
    pub ty: TyId,
    pub representation: ValueRepresentation,
    pub ownership: OwnershipKind,
}

/// The path of `projections` at `k` reaches a field at `offset`, of type
/// `ty`, of `base`.
pub open spec fn reaches(projections: Seq<ProjectionPath>, k: int, base: crate::ids::LocalId, offset: u64, ty: TyId) -> bool {
    &&& 0 <= k < projections.len()
    &&& projections[k].base == base
    &&& projections[k].element == (ProjectionElement::Field { offset })
    &&& projections[k].ty == ty
}

/// Every path added after the first `count` is a path of `base` whose
/// identity is its index.
pub open spec fn added_paths_of(projections: Seq<ProjectionPath>, count: int, base: crate::ids::LocalId) -> bool {
    forall|k: int|
        count <= k < projections.len() ==> (#[trigger] projections[k]).base == base && projections[k].id
            == ProjectionPathId::at(k)
}

/// The path of `projections` at `k` reaches `element` from `parent` of
/// `base`, with type `ty`.
pub open spec fn path_is(
    projections: Seq<ProjectionPath>,
    k: int,
    base: crate::ids::LocalId,
    parent: Option<ProjectionPathId>,
    element: ProjectionElement,
    ty: TyId,
) -> bool {
    projections[k].base == base && projections[k].parent == parent && projections[k].element == element
        && projections[k].ty == ty
}

/// The first path of `projections` that reaches `element` from `parent` of
/// `base` with type `ty`, if one does.
pub open spec fn first_path(
    projections: Seq<ProjectionPath>,
    base: crate::ids::LocalId,
    parent: Option<ProjectionPathId>,
    element: ProjectionElement,
    ty: TyId,
) -> Option<int>
    decreases projections.len(),
{
    if projections.len() == 0 {
        None
    } else {
        match first_path(projections.drop_last(), base, parent, element, ty) {
            Some(k) => Some(k),
            None => if path_is(projections, projections.len() - 1, base, parent, element, ty) {
                Some(projections.len() - 1)
            } else {
                None
            },
        }
    }
}

/// The first path found is the earliest one that matches.
proof fn lemma_first_path(
    projections: Seq<ProjectionPath>,
    base: crate::ids::LocalId,
    parent: Option<ProjectionPathId>,
    element: ProjectionElement,
    ty: TyId,
    k: int,
)
    requires
        0 <= k <= projections.len(),
        forall|j: int| 0 <= j < k ==> !path_is(projections, j, base, parent, element, ty),
    ensures
        k < projections.len() && path_is(projections, k, base, parent, element, ty) ==> first_path(
            projections,
            base,
            parent,
            element,
            ty,
        ) == Some(k),
        k == projections.len() ==> first_path(projections, base, parent, element, ty) is None,
    decreases projections.len(),
{
    if projections.len() > 0 {
        let shorter = projections.drop_last();
        if k < projections.len() {
            if k < shorter.len() {
                assert forall|j: int| 0 <= j < k implies !path_is(shorter, j, base, parent, element, ty) by {
                    assert(!path_is(projections, j, base, parent, element, ty));
                    assert(shorter[j] == projections[j]);
                }
                lemma_first_path(shorter, base, parent, element, ty, k);
                if path_is(projections, k, base, parent, element, ty) {
                    assert(shorter[k] == projections[k]);
                }
            } else {
                assert forall|j: int| 0 <= j < shorter.len() implies !path_is(shorter, j, base, parent, element, ty) by {
                    assert(!path_is(projections, j, base, parent, element, ty));
                    assert(shorter[j] == projections[j]);
                }
                lemma_first_path(shorter, base, parent, element, ty, shorter.len() as int);
            }
        } else {
            assert forall|j: int| 0 <= j < shorter.len() implies !path_is(shorter, j, base, parent, element, ty) by {
                assert(!path_is(projections, j, base, parent, element, ty));
                assert(shorter[j] == projections[j]);
            }
            lemma_first_path(shorter, base, parent, element, ty, shorter.len() as int);
        }
    }
}

/// The place that the first `count` of `segments` reach from `parent` of
/// `base` through paths already recorded, step by step; `None` where a
/// step has no path yet.
pub open spec fn recorded_walk(
    projections: Seq<ProjectionPath>,
    base: crate::ids::LocalId,
    parent: Option<ProjectionPathId>,
    segments: Seq<FieldSegment>,
    count: nat,
) -> Option<Option<ProjectionPathId>>
    decreases count,
{
    if count == 0 {
        Some(parent)
    } else {
        match recorded_walk(projections, base, parent, segments, (count - 1) as nat) {
            Some(at) => match first_path(
                projections,
                base,
                at,
                ProjectionElement::Field { offset: segments[count - 1].offset },
                segments[count - 1].ty,
            ) {
                Some(k) => Some(Some(projections[k].id)),
                None => None,
            },
            None => None,
        }
    }
}

/// A walk that stops at a step without a path goes no further.
proof fn lemma_walk_stops(
    projections: Seq<ProjectionPath>,
    base: crate::ids::LocalId,
    parent: Option<ProjectionPathId>,
    segments: Seq<FieldSegment>,
    stopped: nat,
    later: nat,
)
    requires
        stopped <= later,
        recorded_walk(projections, base, parent, segments, stopped) is None,
    ensures
        recorded_walk(projections, base, parent, segments, later) is None,
    decreases later - stopped,
{
    if later > stopped {
        lemma_walk_stops(projections, base, parent, segments, stopped, (later - 1) as nat);
    }
}

/// Whether two parents are the same path, or both the local itself.
fn same_parent(first: Option<ProjectionPathId>, second: Option<ProjectionPathId>) -> (same: bool)
    ensures
        same == (first == second),
{
    match (first, second) {
        (Some(a), Some(b)) => a == b,
        (None, None) => true,
        _ => false,
    }
}

/// The path that reaches `element` from `parent` of `base` with type `ty`:
/// the one recorded already, or a new one appended with what `segment`
/// says of the field. A moved field gets the plan that destroys it.
fn intern_field(
    base: crate::ids::LocalId,
    parent: Option<ProjectionPathId>,
    segment: &FieldSegment,
    resolved: &ResolveModel,
    projections: &mut Vec<ProjectionPath>,
    drop_plans: &mut Vec<DropPlan>,
) -> (id: Result<ProjectionPathId, BuildError>)
    requires
        resolved.wf(),
    ensures
        extends(final(projections)@, old(projections)@),
        extends(final(drop_plans)@, old(drop_plans)@),
        added_paths_of(final(projections)@, old(projections)@.len() as int, base),
        id matches Ok(id) ==> exists|k: int|
            reaches(final(projections)@, k, base, segment.offset, segment.ty) && final(projections)@[k].id == id
                && final(projections)@[k].parent == parent,
        segment.ownership != OwnershipKind::Move ==> id is Ok,
        first_path(old(projections)@, base, parent, ProjectionElement::Field { offset: segment.offset }, segment.ty)
            matches Some(k) ==> id == Ok::<ProjectionPathId, BuildError>(old(projections)@[k].id) && final(projections)@
            == old(projections)@ && final(drop_plans)@ == old(drop_plans)@,
{
    let element = ProjectionElement::Field { offset: segment.offset };
    let mut index: usize = 0;
    while index < projections.len()
        invariant
            index <= projections@.len(),
            element == (ProjectionElement::Field { offset: segment.offset }),
            forall|j: int| 0 <= j < index ==> !path_is(projections@, j, base, parent, element, segment.ty),
        decreases projections@.len() - index,
    {
        let path = &projections[index];
        if path.base == base && same_parent(path.parent, parent) && path.element == element && path.ty == segment.ty {
            proof {
                lemma_first_path(projections@, base, parent, element, segment.ty, index as int);
                crate::drop_plans::lemma_extends(projections@, projections@, projections@);
                crate::drop_plans::lemma_extends(drop_plans@, drop_plans@, drop_plans@);
                assert(reaches(projections@, index as int, base, segment.offset, segment.ty));
            }
            return Ok(path.id);
        }
        index = index + 1;
    }
    let ghost paths_before = projections@;
    let ghost plans_before = drop_plans@;
    proof {
        crate::drop_plans::lemma_extends(drop_plans@, drop_plans@, drop_plans@);
        lemma_first_path(projections@, base, parent, element, segment.ty, projections@.len() as int);
    }
    let drop_plan = if segment.ownership == OwnershipKind::Move {
        match build(segment.ty, resolved, drop_plans) {
            Some(plan) => Some(plan),
            None => {
                proof {
                    crate::drop_plans::lemma_extends(projections@, projections@, projections@);
                }
                return Err(BuildError::UnsupportedClaimedExpression);
            },
        }
    } else {
        None
    };
    let id = ProjectionPathId::from_index(projections.len());
    projections.push(ProjectionPath {
        id,
        base,
        parent,
        element,
        ty: segment.ty,
        representation: segment.representation,
        ownership: segment.ownership,
        drop_plan,
    });
    proof {
        assert(projections@.subrange(0, paths_before.len() as int) =~= paths_before);
        assert(reaches(projections@, paths_before.len() as int, base, segment.offset, segment.ty));
    }
    Ok(id)
}

/// The place that reaches, from `base_place`, the field that `segments`
/// lead to one after the other, and how its value is represented: each
/// step reuses the path recorded for it or records a new one. Fails where
/// there is no step, and where a moved field has no plan.
pub fn push_field_place(
    base_place: Place,
    segments: &[FieldSegment],
    resolved: &ResolveModel,
    projections: &mut Vec<ProjectionPath>,
    drop_plans: &mut Vec<DropPlan>,
) -> (place: Result<(Place, ValueRepresentation), BuildError>)
    requires
        resolved.wf(),
    ensures
        extends(final(projections)@, old(projections)@),
        extends(final(drop_plans)@, old(drop_plans)@),
        added_paths_of(final(projections)@, old(projections)@.len() as int, base_place.local),
        segments@.len() == 0 ==> place == Err::<(Place, ValueRepresentation), BuildError>(
            BuildError::UnsupportedClaimedExpression,
        ) && final(projections)@ == old(projections)@ && final(drop_plans)@ == old(drop_plans)@,
        place matches Ok((place, representation)) ==> {
            let last = segments@.last();
            &&& segments@.len() > 0
            &&& representation == last.representation
            &&& place.local == base_place.local
            &&& exists|k: int|
                reaches(final(projections)@, k, base_place.local, last.offset, last.ty) && place.projection
                    == Some(final(projections)@[k].id)
        },
        segments@.len() > 0 && (forall|i: int| 0 <= i < segments@.len() ==> (#[trigger] segments@[i]).ownership
            != OwnershipKind::Move) ==> place is Ok,
        segments@.len() > 0 ==> match recorded_walk(
            old(projections)@,
            base_place.local,
            base_place.projection,
            segments@,
            segments@.len(),
        ) {
            Some(Some(reached)) => place == Ok::<(Place, ValueRepresentation), BuildError>(
                (Place { local: base_place.local, projection: Some(reached) }, segments@.last().representation),
            ) && final(projections)@ == old(projections)@ && final(drop_plans)@ == old(drop_plans)@,
            _ => true,
        },
{
    if segments.len() == 0 {
        proof {
            crate::drop_plans::lemma_extends(projections@, projections@, projections@);
            crate::drop_plans::lemma_extends(drop_plans@, drop_plans@, drop_plans@);
        }
        return Err(BuildError::UnsupportedClaimedExpression);
    }
    let representation = segments[segments.len() - 1].representation;
    let base = base_place.local;
    let mut parent = base_place.projection;
    let ghost paths_start = projections@;
    let ghost plans_start = drop_plans@;
    proof {
        crate::drop_plans::lemma_extends(projections@, projections@, projections@);
        crate::drop_plans::lemma_extends(drop_plans@, drop_plans@, drop_plans@);
    }
    let mut index: usize = 0;
    while index < segments.len()
        invariant
            resolved.wf(),
            index <= segments@.len(),
            segments@.len() > 0,
            paths_start == old(projections)@,
            plans_start == old(drop_plans)@,
            base == base_place.local,
            extends(projections@, paths_start),
            extends(drop_plans@, plans_start),
            added_paths_of(projections@, paths_start.len() as int, base),
            index > 0 ==> exists|k: int|
                reaches(projections@, k, base, segments@[index - 1].offset, segments@[index - 1].ty) && parent
                    == Some(projections@[k].id),
            representation == segments@.last().representation,
            recorded_walk(paths_start, base, base_place.projection, segments@, index as nat) matches Some(at) ==> parent
                == at && projections@ == paths_start && drop_plans@ == plans_start,
        decreases segments@.len() - index,
    {
        let ghost paths_here = projections@;
        let ghost plans_here = drop_plans@;
        let id = match intern_field(base, parent, &segments[index], resolved, projections, drop_plans) {
            Ok(id) => id,
            Err(error) => {
                proof {
                    assert(recorded_walk(paths_start, base, base_place.projection, segments@, (index + 1) as nat) is None);
                    lemma_walk_stops(
                        paths_start,
                        base,
                        base_place.projection,
                        segments@,
                        (index + 1) as nat,
                        segments@.len(),
                    );
                    crate::drop_plans::lemma_extends(projections@, paths_here, paths_start);
                    crate::drop_plans::lemma_extends(drop_plans@, plans_here, plans_start);
                    assert forall|k: int| paths_start.len() <= k < projections@.len() implies (#[trigger] projections@[k]).base
                        == base && projections@[k].id == ProjectionPathId::at(k) by {
                        if k < paths_here.len() {
                            assert(projections@[k] == projections@.subrange(0, paths_here.len() as int)[k]);
                        }
                    }
                }
                return Err(error);
            },
        };
        proof {
            crate::drop_plans::lemma_extends(projections@, paths_here, paths_start);
            crate::drop_plans::lemma_extends(drop_plans@, plans_here, plans_start);
            assert forall|k: int| paths_start.len() <= k < projections@.len() implies (#[trigger] projections@[k]).base
                == base && projections@[k].id == ProjectionPathId::at(k) by {
                if k < paths_here.len() {
                    assert(projections@[k] == projections@.subrange(0, paths_here.len() as int)[k]);
                }
            }
        }
        parent = Some(id);
        index = index + 1;
    }
    let projection = match parent {
        Some(projection) => projection,
        None => return Err(BuildError::UnsupportedClaimedExpression),
    };
    Ok((Place::projected(base, projection), representation))
}

} // verus!
