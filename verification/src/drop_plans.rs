//! Target-independent destruction plans owned by checked MIR.
//!
//! Plans retain semantic destructor identities and aggregate structure. They
//! deliberately contain neither linker names nor machine-IR call targets;
//! those are backend projections of `DefId`.

use crate::ids::DropPlanId;
use crate::resolution::{ResolveModel, TypeShape, TypeSymbolKind, VariantShape};
use crate::semantic::{DefId, TyId};
use vstd::prelude::*;

verus! {

/// How a value of one owned type is destroyed.
#[derive(Debug, PartialEq, Eq)]
pub enum DropPlan {
    Noop,
    Direct { destructor: DefId },
    Struct { destructor: Option<DefId>, fields: Vec<DropPlanField> },
    Array { length: u64, element_ty: TyId, element: DropPlanId },
    Enum { variants: Vec<DropPlanVariant> },
}

/// One owned field of a struct or enum payload.
#[derive(Debug, Clone, Copy, PartialEq, Eq, Structural)]
pub struct DropPlanField {
    pub index: usize,
    pub ty: TyId,
    pub plan: DropPlanId,
}

/// The owned payload fields of one enum variant.
#[derive(Debug, PartialEq, Eq)]
pub struct DropPlanVariant {
    pub definition: DefId,
    pub fields: Vec<DropPlanField>,
}

/// Two variants are alike: the same definition and fields.
pub open spec fn same_variant(a: DropPlanVariant, b: DropPlanVariant) -> bool {
    a.definition == b.definition && a.fields@ == b.fields@
}

impl Clone for DropPlanVariant {
    fn clone(&self) -> (copy: Self)
        ensures
            same_variant(*self, copy),
    {
        DropPlanVariant { definition: self.definition, fields: self.fields.clone() }
    }
}

/// Two plans are alike: equal, with field and variant lists alike element
/// by element.
pub open spec fn same_plan(a: DropPlan, b: DropPlan) -> bool {
    match (a, b) {
        (
            DropPlan::Struct { destructor: d1, fields: f1 },
            DropPlan::Struct { destructor: d2, fields: f2 },
        ) => d1 == d2 && f1@ == f2@,
        (DropPlan::Enum { variants: v1 }, DropPlan::Enum { variants: v2 }) => v1@.len() == v2@.len() && forall|
            i: int,
        |
            0 <= i < v1@.len() ==> same_variant(#[trigger] v1@[i], v2@[i]),
        (DropPlan::Struct { .. }, _) => false,
        (DropPlan::Enum { .. }, _) => false,
        _ => a == b,
    }
}

/// Being alike is symmetric and transitive on plans.
pub proof fn lemma_alike_plans(a: DropPlan, b: DropPlan, c: DropPlan)
    ensures
        same_plan(a, b) ==> same_plan(b, a),
        same_plan(a, b) && same_plan(b, c) ==> same_plan(a, c),
{
}

impl Clone for DropPlan {
    fn clone(&self) -> (copy: Self)
        ensures
            same_plan(*self, copy),
    {
        match self {
            DropPlan::Noop => DropPlan::Noop,
            DropPlan::Direct { destructor } => DropPlan::Direct { destructor: *destructor },
            DropPlan::Struct { destructor, fields } => DropPlan::Struct { destructor: *destructor, fields: fields.clone() },
            DropPlan::Array { length, element_ty, element } => DropPlan::Array {
                length: *length,
                element_ty: *element_ty,
                element: *element,
            },
            DropPlan::Enum { variants } => DropPlan::Enum { variants: variants.clone() },
        }
    }
}

/// Appends `plan` and returns its identity, the index it was stored at.
pub fn push(plans: &mut Vec<DropPlan>, plan: DropPlan) -> (id: Option<DropPlanId>)
    ensures
        final(plans)@ == old(plans)@.push(plan),
        id == Some(DropPlanId::at(old(plans)@.len() as int)),
{
    let id = DropPlanId::from_index(plans.len());
    plans.push(plan);
    Some(id)
}

/// `before` is a prefix of `after`: plans are only appended.
pub open spec fn extends<T>(after: Seq<T>, before: Seq<T>) -> bool {
    before.len() <= after.len() && after.subrange(0, before.len() as int) == before
}

/// A sequence extends itself, and extending is transitive.
pub proof fn lemma_extends<T>(a: Seq<T>, b: Seq<T>, c: Seq<T>)
    ensures
        extends(a, a),
        extends(a, b) && extends(b, c) ==> extends(a, c),
{
    assert(a.subrange(0, a.len() as int) =~= a);
    if extends(a, b) && extends(b, c) {
        assert(a.subrange(0, c.len() as int) =~= b.subrange(0, c.len() as int));
    }
}

/// The symbols whose declarations are being planned: each at most once,
/// each a symbol of the model.
pub open spec fn tracking(symbol_count: usize, resolving: Seq<usize>) -> bool {
    resolving.no_duplicates() && forall|i: int| 0 <= i < resolving.len() ==> resolving[i] < symbol_count
}

/// The owned fields kept of `types`: in increasing field order, each with
/// the field's type, which is not copied.
pub open spec fn owned_fields(fields: Seq<DropPlanField>, types: Seq<TyId>, resolved: ResolveModel) -> bool {
    &&& forall|i: int|
        0 <= i < fields.len() ==> {
            let field = #[trigger] fields[i];
            &&& field.index < types.len()
            &&& field.ty == types[field.index as int]
            &&& !resolved.is_copy(field.ty)
        }
    &&& forall|i: int, j: int| 0 <= i < j < fields.len() ==> fields[i].index < fields[j].index
}

/// Every variant of `variants` has a semantic definition.
pub open spec fn all_defined(variants: Seq<VariantShape>) -> bool {
    forall|k: int| 0 <= k < variants.len() ==> (#[trigger] variants[k]).definition is Some
}

/// The plan that destroys a struct or enum of shape `shape`, at its top:
/// a struct with owned fields is destroyed field by field after its
/// destructor; an enum with owned payloads and no destructor variant by
/// variant; otherwise the destructor alone runs, or nothing does.
pub open spec fn plan_fits(plan: DropPlan, shape: TypeShape, resolved: ResolveModel) -> bool {
    match plan {
        DropPlan::Struct { destructor, fields } => {
            &&& shape.kind == TypeSymbolKind::Struct
            &&& destructor == shape.destructor
            &&& fields@.len() > 0
            &&& owned_fields(fields@, shape.fields@, resolved)
        },
        DropPlan::Enum { variants } => {
            &&& shape.kind == TypeSymbolKind::Enum
            &&& shape.destructor is None
            &&& variants@.len() > 0
            &&& forall|v: int|
                0 <= v < variants@.len() ==> {
                    let variant = #[trigger] variants@[v];
                    &&& variant.fields@.len() > 0
                    &&& exists|k: int|
                        0 <= k < shape.variants@.len() && shape.variants@[k].definition == Some(
                            variant.definition,
                        ) && owned_fields(variant.fields@, shape.variants@[k].payload@, resolved)
                }
        },
        DropPlan::Direct { destructor } => shape.destructor == Some(destructor),
        DropPlan::Noop => shape.destructor is None,
        DropPlan::Array { .. } => false,
    }
}

/// Whether `symbol` declares an enum or an alias of the model: planning
/// such a declaration may fail and leave its symbol marked as being planned.
pub open spec fn may_stay_marked(resolved: ResolveModel, symbol: usize) -> bool {
    exists|t: int|
        0 <= t < resolved.types@.len() && ((#[trigger] resolved.types@[t]).shape matches Some(shape)
            && shape.symbol == symbol && (shape.kind == TypeSymbolKind::Enum || shape.kind == TypeSymbolKind::Alias))
}

/// Every symbol marked in `after` beyond those of `before` may stay marked.
pub open spec fn marked_after(resolved: ResolveModel, before: Seq<usize>, after: Seq<usize>) -> bool {
    forall|k: int| before.len() <= k < after.len() ==> may_stay_marked(resolved, #[trigger] after[k])
}

/// `shape` is the declaration of some type of the model.
pub open spec fn declared(resolved: ResolveModel, shape: TypeShape) -> bool {
    exists|t: int| 0 <= t < resolved.types@.len() && (#[trigger] resolved.types@[t]).shape == Some(shape)
}

/// Field `i` of struct `shape` owns a value that is planned for certain: its
/// type is not copied and resolves to another struct declaration, which is
/// not being planned and is declared as nothing else.
pub open spec fn owned_struct_field(resolved: ResolveModel, shape: TypeShape, resolving: Seq<usize>, i: int) -> bool {
    &&& 0 <= i < shape.fields@.len()
    &&& !resolved.is_copy(shape.fields@[i])
    &&& resolved.shape_of(shape.fields@[i]) matches Some(field_shape) && field_shape.kind == TypeSymbolKind::Struct
        && field_shape.symbol != shape.symbol && !resolving.contains(field_shape.symbol) && !may_stay_marked(
        resolved,
        field_shape.symbol,
    )
}

/// A struct's plan lists each field that owns a value planned for certain.
pub open spec fn lists_owned_fields(plan: DropPlan, shape: TypeShape, resolved: ResolveModel, resolving: Seq<usize>) -> bool {
    forall|i: int|
        owned_struct_field(resolved, shape, resolving, i) ==> (plan matches DropPlan::Struct { fields, .. }
            && exists|f: int| 0 <= f < fields@.len() && (#[trigger] fields@[f]).index == i)
}

/// Payload value `i` of variant `k` of enum `shape` is owned and planned for
/// certain, in the sense of `owned_struct_field`.
pub open spec fn owned_payload(resolved: ResolveModel, shape: TypeShape, resolving: Seq<usize>, k: int, i: int) -> bool {
    &&& 0 <= k < shape.variants@.len()
    &&& 0 <= i < shape.variants@[k].payload@.len()
    &&& !resolved.is_copy(shape.variants@[k].payload@[i])
    &&& resolved.shape_of(shape.variants@[k].payload@[i]) matches Some(payload_shape) && payload_shape.kind
        == TypeSymbolKind::Struct && payload_shape.symbol != shape.symbol && !resolving.contains(
        payload_shape.symbol,
    ) && !may_stay_marked(resolved, payload_shape.symbol)
}

/// An enum without a destructor is destroyed variant by variant, and its
/// plan lists each payload value that is owned and planned for certain,
/// under its variant's definition.
pub open spec fn lists_owned_payloads(plan: DropPlan, shape: TypeShape, resolved: ResolveModel, resolving: Seq<usize>) -> bool {
    shape.destructor is None ==> forall|k: int, i: int|
        owned_payload(resolved, shape, resolving, k, i) ==> (plan matches DropPlan::Enum { variants } && exists|
            v: int,
            f: int,
        |
            0 <= v < variants@.len() && Some(variants@[v].definition) == shape.variants@[k].definition && 0 <= f
                < variants@[v].fields@.len() && (#[trigger] variants@[v].fields@[f]).index == i)
}

/// A marking that extends one extending another extends both.
proof fn lemma_marked_chain(resolved: ResolveModel, a: Seq<usize>, b: Seq<usize>, c: Seq<usize>)
    requires
        extends(b, a),
        extends(c, b),
        marked_after(resolved, a, b),
        marked_after(resolved, b, c),
    ensures
        marked_after(resolved, a, c),
{
    assert forall|k: int| a.len() <= k < c.len() implies may_stay_marked(resolved, #[trigger] c[k]) by {
        if k < b.len() {
            assert(c[k] == c.subrange(0, b.len() as int)[k]);
        }
    }
}

/// Leaving the symbol entered at the end of `outer` keeps only symbols that
/// may stay marked beyond `outer`.
proof fn lemma_marked_after_leave(resolved: ResolveModel, outer: Seq<usize>, entered: Seq<usize>, now: Seq<usize>)
    requires
        entered.len() == outer.len() + 1,
        now.len() > outer.len(),
        marked_after(resolved, entered, now),
    ensures
        marked_after(resolved, outer, now.remove(outer.len() as int)),
{
    let left = now.remove(outer.len() as int);
    assert forall|k: int| outer.len() <= k < left.len() implies may_stay_marked(resolved, #[trigger] left[k]) by {
        assert(left[k] == now[k + 1]);
    }
}

/// A struct's plan lists every field whose type is not copied and resolves
/// to another struct declaration, one declared as nothing else: such a
/// field always has a plan, so the struct's plan destroys it.
pub proof fn lemma_struct_plan_lists_owned_fields(
    resolved: ResolveModel,
    ty: TyId,
    plan: Option<DropPlanId>,
    before: Seq<DropPlan>,
    after: Seq<DropPlan>,
    i: int,
)
    requires
        build_outcome(resolved, ty, Seq::empty(), plan, before, after),
        !resolved.is_copy(ty),
        resolved.shape_of(ty) matches Some(shape) && shape.kind == TypeSymbolKind::Struct && owned_struct_field(
            resolved,
            shape,
            Seq::empty(),
            i,
        ),
    ensures
        plan is Some,
        after.last() matches DropPlan::Struct { fields, .. } && exists|f: int|
            0 <= f < fields@.len() && (#[trigger] fields@[f]).index == i && fields@[f].ty
                == resolved.shape_of(ty)->0.fields@[i],
{
    let shape = resolved.shape_of(ty)->0;
    assert(!Seq::<usize>::empty().contains(shape.symbol));
    assert(lists_owned_fields(after.last(), shape, resolved, Seq::empty()));
    let fields = after.last()->Struct_fields;
    let f = choose|f: int| 0 <= f < fields@.len() && (#[trigger] fields@[f]).index == i;
    assert(owned_fields(fields@, shape.fields@, resolved));
    assert(fields@[f].ty == shape.fields@[fields@[f].index as int]);
}

/// An enum without a destructor whose variants all have definitions is
/// destroyed variant by variant, and its plan lists each payload value
/// whose type is not copied and resolves to a struct declaration other than
/// the enum's, one declared as nothing else, under its variant's definition.
pub proof fn lemma_enum_plan_lists_owned_payloads(
    resolved: ResolveModel,
    ty: TyId,
    plan: Option<DropPlanId>,
    before: Seq<DropPlan>,
    after: Seq<DropPlan>,
    k: int,
    i: int,
)
    requires
        build_outcome(resolved, ty, Seq::empty(), plan, before, after),
        !resolved.is_copy(ty),
        resolved.shape_of(ty) matches Some(shape) && shape.kind == TypeSymbolKind::Enum && shape.destructor is None
            && all_defined(shape.variants@) && owned_payload(resolved, shape, Seq::empty(), k, i),
    ensures
        plan is Some,
        after.last() matches DropPlan::Enum { variants } && exists|v: int, f: int|
            0 <= v < variants@.len() && Some(variants@[v].definition) == resolved.shape_of(ty)->0.variants@[k].definition
                && 0 <= f < variants@[v].fields@.len() && (#[trigger] variants@[v].fields@[f]).index == i,
{
    let shape = resolved.shape_of(ty)->0;
    assert(!Seq::<usize>::empty().contains(shape.symbol));
    assert(lists_owned_payloads(after.last(), shape, resolved, Seq::empty()));
}

/// A plan was built: it is the last one appended.
pub open spec fn built_last(plan: Option<DropPlanId>, before: Seq<DropPlan>, after: Seq<DropPlan>) -> bool {
    plan is Some ==> after.len() > before.len() && plan == Some(DropPlanId::at(after.len() - 1))
}

/// What planning a declaration of shape `shape` gives, while the symbols
/// of `resolving` are being planned: nothing for a symbol already being
/// planned (a cycle), an interface, or an alias of nothing; the target's
/// plan for an alias; a plan that fits the shape for a struct, and for an
/// enum whose variants all have definitions.
pub open spec fn nominal_outcome(
    resolved: ResolveModel,
    shape: TypeShape,
    resolving: Seq<usize>,
    plan: Option<DropPlanId>,
    before: Seq<DropPlan>,
    after: Seq<DropPlan>,
) -> bool {
    &&& extends(after, before)
    &&& built_last(plan, before, after)
    &&& if resolving.contains(shape.symbol) {
        plan is None && after == before
    } else {
        match shape.kind {
            TypeSymbolKind::Interface => plan is None && after == before,
            TypeSymbolKind::Alias => shape.alias_target is None ==> plan is None && after == before,
            TypeSymbolKind::Struct => plan is Some && plan_fits(after.last(), shape, resolved)
                && lists_owned_fields(after.last(), shape, resolved, resolving),
            TypeSymbolKind::Enum => (plan is Some <==> all_defined(shape.variants@)) && (plan is Some
                ==> plan_fits(after.last(), shape, resolved) && lists_owned_payloads(
                after.last(),
                shape,
                resolved,
                resolving,
            )),
        }
    }
}

/// What planning the destruction of `ty` gives: nothing for a copied type
/// or one that resolves to no declaration, else what its declaration gives.
pub open spec fn build_outcome(
    resolved: ResolveModel,
    ty: TyId,
    resolving: Seq<usize>,
    plan: Option<DropPlanId>,
    before: Seq<DropPlan>,
    after: Seq<DropPlan>,
) -> bool {
    &&& extends(after, before)
    &&& built_last(plan, before, after)
    &&& if resolved.is_copy(ty) {
        plan is None && after == before
    } else {
        match resolved.shape_of(ty) {
            None => plan is None && after == before,
            Some(shape) => nominal_outcome(resolved, shape, resolving, plan, before, after),
        }
    }
}

/// A sequence of distinct symbols below `count` has at most `count` of them.
proof fn lemma_tracking_bound(resolving: Seq<usize>, count: nat)
    requires
        resolving.no_duplicates(),
        forall|i: int| 0 <= i < resolving.len() ==> resolving[i] < count,
    ensures
        resolving.len() <= count,
    decreases count,
{
    if count == 0 {
        if resolving.len() > 0 {
            assert(resolving[0] < count);
        }
    } else if exists|k: int| 0 <= k < resolving.len() && resolving[k] == count - 1 {
        let k = choose|k: int| 0 <= k < resolving.len() && resolving[k] == count - 1;
        let rest = resolving.remove(k);
        assert forall|i: int| 0 <= i < rest.len() implies rest[i] < count - 1 by {
            let j = if i < k { i } else { i + 1 };
            assert(rest[i] == resolving[j]);
            assert(j != k);
        }
        assert forall|i: int, j: int| 0 <= i < rest.len() && 0 <= j < rest.len() && i != j implies rest[i]
            != rest[j] by {
            let a = if i < k { i } else { i + 1 };
            let b = if j < k { j } else { j + 1 };
            assert(rest[i] == resolving[a] && rest[j] == resolving[b]);
        }
        lemma_tracking_bound(rest, (count - 1) as nat);
    } else {
        lemma_tracking_bound(resolving, (count - 1) as nat);
    }
}

/// Whether `symbol` is among `resolving`.
fn is_resolving(resolving: &Vec<usize>, symbol: usize) -> (found: bool)
    ensures
        found == resolving@.contains(symbol),
{
    let mut index: usize = 0;
    while index < resolving.len()
        invariant
            index <= resolving@.len(),
            forall|i: int| 0 <= i < index ==> resolving@[i] != symbol,
        decreases resolving@.len() - index,
    {
        if resolving[index] == symbol {
            return true;
        }
        index = index + 1;
    }
    false
}

/// Plans the destruction of a value of type `ty`, appending the plans it
/// needs to `plans`; `None` where no plan is needed or none can be made.
pub fn build(ty: TyId, resolved: &ResolveModel, plans: &mut Vec<DropPlan>) -> (plan: Option<DropPlanId>)
    requires
        resolved.wf(),
    ensures
        build_outcome(*resolved, ty, Seq::empty(), plan, old(plans)@, final(plans)@),
{
    let mut resolving: Vec<usize> = Vec::new();
    build_inner(ty, resolved, plans, &mut resolving)
}

/// Whether the destruction of a value of type `ty` can be planned.
pub fn is_supported(ty: TyId, resolved: &ResolveModel) -> (supported: bool)
    requires
        resolved.wf(),
    ensures
        exists|plan: Option<DropPlanId>, after: Seq<DropPlan>|
            build_outcome(*resolved, ty, Seq::empty(), plan, Seq::empty(), after) && supported == plan is Some,
{
    let mut scratch: Vec<DropPlan> = Vec::new();
    let plan = build(ty, resolved, &mut scratch);
    proof {
        assert(build_outcome(*resolved, ty, Seq::empty(), plan, Seq::empty(), scratch@));
    }
    plan.is_some()
}

fn build_inner(
    ty: TyId,
    resolved: &ResolveModel,
    plans: &mut Vec<DropPlan>,
    resolving: &mut Vec<usize>,
) -> (plan: Option<DropPlanId>)
    requires
        resolved.wf(),
        tracking(resolved.symbol_count, old(resolving)@),
    ensures
        build_outcome(*resolved, ty, old(resolving)@, plan, old(plans)@, final(plans)@),
        tracking(resolved.symbol_count, final(resolving)@),
        extends(final(resolving)@, old(resolving)@),
        marked_after(*resolved, old(resolving)@, final(resolving)@),
    decreases resolved.symbol_count - old(resolving)@.len(), 1nat,
{
    proof {
        lemma_tracking_bound(resolving@, resolved.symbol_count as nat);
        lemma_extends(plans@, plans@, plans@);
        lemma_extends(resolving@, resolving@, resolving@);
    }
    if resolved.type_is_copy(ty) {
        return None;
    }
    match resolved.shape(ty) {
        None => None,
        Some(shape) => {
            proof {
                assert(resolved.types@[ty.0 as int].shape == Some(*shape));
                assert(declared(*resolved, *shape));
            }
            build_nominal(shape, resolved, plans, resolving)
        },
    }
}

fn build_nominal(
    shape: &TypeShape,
    resolved: &ResolveModel,
    plans: &mut Vec<DropPlan>,
    resolving: &mut Vec<usize>,
) -> (plan: Option<DropPlanId>)
    requires
        resolved.wf(),
        shape.symbol < resolved.symbol_count,
        declared(*resolved, *shape),
        tracking(resolved.symbol_count, old(resolving)@),
    ensures
        nominal_outcome(*resolved, *shape, old(resolving)@, plan, old(plans)@, final(plans)@),
        tracking(resolved.symbol_count, final(resolving)@),
        extends(final(resolving)@, old(resolving)@),
        marked_after(*resolved, old(resolving)@, final(resolving)@),
    decreases resolved.symbol_count - old(resolving)@.len(), 0nat,
{
    proof {
        lemma_tracking_bound(resolving@, resolved.symbol_count as nat);
        lemma_extends(plans@, plans@, plans@);
        lemma_extends(resolving@, resolving@, resolving@);
    }
    if is_resolving(resolving, shape.symbol) {
        return None;
    }
    let start = resolving.len();
    let ghost before = plans@;
    let ghost outer = resolving@;
    resolving.push(shape.symbol);
    let ghost entered = resolving@;
    proof {
        assert(entered.subrange(0, start as int) =~= outer);
        assert forall|i: int, j: int| 0 <= i < entered.len() && 0 <= j < entered.len() && i != j implies entered[i]
            != entered[j] by {
            if i == start {
                assert(entered[j] == outer[j]);
            } else if j == start {
                assert(entered[i] == outer[i]);
            }
        }
        lemma_tracking_bound(entered, resolved.symbol_count as nat);
        lemma_extends(entered, entered, entered);
    }
    let ghost witness = choose|t: int| 0 <= t < resolved.types@.len() && (#[trigger] resolved.types@[t]).shape == Some(*shape);
    match shape.kind {
        TypeSymbolKind::Alias => {
            let target = match shape.alias_target {
                Some(target) => target,
                None => {
                    proof {
                        assert(resolving@.subrange(0, start as int) =~= outer);
                        assert(resolved.types@[witness].shape == Some(*shape));
                        assert(may_stay_marked(*resolved, shape.symbol));
                        assert(resolving@[start as int] == shape.symbol);
                    }
                    return None;
                },
            };
            let result = build_inner(target, resolved, plans, resolving);
            proof {
                assert(resolving@.subrange(0, start + 1) =~= entered);
                assert(resolving@.subrange(0, start as int) =~= outer);
                lemma_marked_after_leave(*resolved, outer, entered, resolving@);
            }
            leave(resolving, start, Ghost(outer));
            return result;
        },
        TypeSymbolKind::Interface => {
            proof {
                assert(resolving@.subrange(0, start as int) =~= outer);
                lemma_marked_after_leave(*resolved, outer, entered, resolving@);
            }
            leave(resolving, start, Ghost(outer));
            return None;
        },
        _ => {},
    }
    let mut fields: Vec<DropPlanField> = Vec::new();
    if shape.kind == TypeSymbolKind::Struct {
        let mut index: usize = 0;
        while index < shape.fields.len()
            invariant
                resolved.wf(),
                index <= shape.fields@.len(),
                start == outer.len(),
                outer == old(resolving)@,
                !outer.contains(shape.symbol),
                before == old(plans)@,
                tracking(resolved.symbol_count, resolving@),
                resolving@.len() > start,
                resolving@.subrange(0, start + 1) == entered,
                entered == outer.push(shape.symbol),
                extends(plans@, before),
                owned_fields(fields@, shape.fields@, *resolved),
                forall|i: int| 0 <= i < fields@.len() ==> fields@[i].index < index,
                marked_after(*resolved, entered, resolving@),
                forall|j: int|
                    0 <= j < index && owned_struct_field(*resolved, *shape, outer, j) ==> exists|f: int|
                        0 <= f < fields@.len() && (#[trigger] fields@[f]).index == j,
            decreases shape.fields@.len() - index,
        {
            let field_ty = shape.fields[index];
            let ghost at = resolving@;
            let ghost plans_at = plans@;
            proof {
                lemma_tracking_bound(resolving@, resolved.symbol_count as nat);
            }
            proof {
                if owned_struct_field(*resolved, *shape, outer, index as int) {
                    let field_shape = resolved.shape_of(field_ty)->0;
                    assert forall|k: int| 0 <= k < at.len() implies at[k] != field_shape.symbol by {
                        if k < start {
                            assert(at[k] == at.subrange(0, start + 1)[k]);
                            assert(outer[k] == entered[k]);
                        } else if k == start {
                            assert(at[k] == at.subrange(0, start + 1)[k]);
                        } else {
                            assert(may_stay_marked(*resolved, at[k]));
                        }
                    }
                    assert(!at.contains(field_shape.symbol));
                }
            }
            let ghost fields_at = fields@;
            match build_inner(field_ty, resolved, plans, resolving) {
                None => {},
                Some(plan) => {
                    fields.push(DropPlanField { index, ty: field_ty, plan });
                },
            }
            proof {
                assert(resolving@.subrange(0, start + 1) =~= at.subrange(0, start + 1));
                assert(plans@.subrange(0, before.len() as int) =~= plans_at.subrange(0, before.len() as int));
                lemma_marked_chain(*resolved, entered, at, resolving@);
                assert forall|j: int|
                    0 <= j < index + 1 && owned_struct_field(*resolved, *shape, outer, j) implies exists|f: int|
                        0 <= f < fields@.len() && (#[trigger] fields@[f]).index == j by {
                    if j < index {
                        let f = choose|f: int| 0 <= f < fields_at.len() && (#[trigger] fields_at[f]).index == j;
                        assert(fields@[f] == fields_at[f]);
                    } else {
                        assert(fields@[fields@.len() - 1].index == j);
                    }
                }
            }
            index = index + 1;
        }
    }
    let mut variants: Vec<DropPlanVariant> = Vec::new();
    if shape.kind == TypeSymbolKind::Enum {
        let mut position: usize = 0;
        while position < shape.variants.len()
            invariant
                resolved.wf(),
                shape.kind == TypeSymbolKind::Enum,
                position <= shape.variants@.len(),
                start == outer.len(),
                outer == old(resolving)@,
                !outer.contains(shape.symbol),
                before == old(plans)@,
                tracking(resolved.symbol_count, resolving@),
                resolving@.len() > start,
                resolving@.subrange(0, start + 1) == entered,
                entered == outer.push(shape.symbol),
                extends(plans@, before),
                marked_after(*resolved, entered, resolving@),
                declared(*resolved, *shape),
                forall|k: int| 0 <= k < position ==> (#[trigger] shape.variants@[k]).definition is Some,
                forall|k: int, i: int|
                    0 <= k < position && owned_payload(*resolved, *shape, outer, k, i) ==> exists|v: int, f: int|
                        0 <= v < variants@.len() && Some(variants@[v].definition) == shape.variants@[k].definition
                            && 0 <= f < variants@[v].fields@.len() && (#[trigger] variants@[v].fields@[f]).index
                            == i,
                forall|v: int|
                    0 <= v < variants@.len() ==> {
                        let variant = #[trigger] variants@[v];
                        &&& variant.fields@.len() > 0
                        &&& exists|k: int|
                            0 <= k < shape.variants@.len() && shape.variants@[k].definition == Some(
                                variant.definition,
                            ) && owned_fields(variant.fields@, shape.variants@[k].payload@, *resolved)
                    },
            decreases shape.variants@.len() - position,
        {
            let variant = &shape.variants[position];
            let definition = match variant.definition {
                Some(definition) => definition,
                None => {
                    proof {
                        assert(shape.variants@[position as int].definition is None);
                        assert(!all_defined(shape.variants@));
                        assert(!old(resolving)@.contains(shape.symbol));
                        assert(resolving@.subrange(0, start as int) =~= outer);
                        let t = choose|t: int| 0 <= t < resolved.types@.len() && (#[trigger] resolved.types@[t]).shape == Some(*shape);
                        assert(resolved.types@[t].shape == Some(*shape));
                        assert(may_stay_marked(*resolved, shape.symbol));
                        assert(resolving@[start as int] == resolving@.subrange(0, start + 1)[start as int]);
                        assert forall|k: int| old(resolving)@.len() <= k < resolving@.len() implies may_stay_marked(*resolved, #[trigger] resolving@[k]) by {
                            if k == start {
                                assert(resolving@[k] == shape.symbol);
                            }
                        }
                    }
                    return None;
                },
            };
            let mut payload_fields: Vec<DropPlanField> = Vec::new();
            let mut index: usize = 0;
            while index < variant.payload.len()
                invariant
                    resolved.wf(),
                    *variant == shape.variants@[position as int],
                    position < shape.variants@.len(),
                    index <= variant.payload@.len(),
                    start == outer.len(),
                    outer == old(resolving)@,
                !outer.contains(shape.symbol),
                before == old(plans)@,
                    tracking(resolved.symbol_count, resolving@),
                    resolving@.len() > start,
                    resolving@.subrange(0, start + 1) == entered,
                    entered == outer.push(shape.symbol),
                    extends(plans@, before),
                    owned_fields(payload_fields@, variant.payload@, *resolved),
                    forall|i: int| 0 <= i < payload_fields@.len() ==> payload_fields@[i].index < index,
                    marked_after(*resolved, entered, resolving@),
                    !outer.contains(shape.symbol),
                    forall|i: int|
                        0 <= i < index && owned_payload(*resolved, *shape, outer, position as int, i) ==> exists|f: int|
                            0 <= f < payload_fields@.len() && (#[trigger] payload_fields@[f]).index == i,
                decreases variant.payload@.len() - index,
            {
                let payload_ty = variant.payload[index];
                let ghost at = resolving@;
                let ghost plans_at = plans@;
                proof {
                    lemma_tracking_bound(resolving@, resolved.symbol_count as nat);
                }
                proof {
                    if owned_payload(*resolved, *shape, outer, position as int, index as int) {
                        let payload_shape = resolved.shape_of(payload_ty)->0;
                        assert forall|k: int| 0 <= k < at.len() implies at[k] != payload_shape.symbol by {
                            if k < start {
                                assert(at[k] == at.subrange(0, start + 1)[k]);
                                assert(outer[k] == entered[k]);
                            } else if k == start {
                                assert(at[k] == at.subrange(0, start + 1)[k]);
                            } else {
                                assert(may_stay_marked(*resolved, at[k]));
                            }
                        }
                        assert(!at.contains(payload_shape.symbol));
                    }
                }
                let ghost payload_at = payload_fields@;
                match build_inner(payload_ty, resolved, plans, resolving) {
                    None => {},
                    Some(plan) => {
                        payload_fields.push(DropPlanField { index, ty: payload_ty, plan });
                    },
                }
                proof {
                    assert forall|i: int|
                        0 <= i < index + 1 && owned_payload(*resolved, *shape, outer, position as int, i) implies exists|f: int|
                            0 <= f < payload_fields@.len() && (#[trigger] payload_fields@[f]).index == i by {
                        if i < index {
                            let f = choose|f: int| 0 <= f < payload_at.len() && (#[trigger] payload_at[f]).index == i;
                            assert(payload_fields@[f] == payload_at[f]);
                        } else {
                            assert(payload_fields@[payload_fields@.len() - 1].index == i);
                        }
                    }
                }
                proof {
                    assert(resolving@.subrange(0, start + 1) =~= at.subrange(0, start + 1));
                    assert(plans@.subrange(0, before.len() as int) =~= plans_at.subrange(
                        0,
                        before.len() as int,
                    ));
                    lemma_marked_chain(*resolved, entered, at, resolving@);
                }
                index = index + 1;
            }
            let ghost variants_at = variants@;
            let ghost kept = payload_fields@;
            if payload_fields.len() > 0 {
                variants.push(DropPlanVariant { definition, fields: payload_fields });
                proof {
                    let v = variants@.len() - 1;
                    assert(variants@[v].fields@ == kept);
                    assert(shape.variants@[position as int].definition == Some(variants@[v].definition));
                }
            }
            proof {
                assert forall|k: int, i: int|
                    0 <= k < position + 1 && owned_payload(*resolved, *shape, outer, k, i) implies exists|v: int, f: int|
                        0 <= v < variants@.len() && Some(variants@[v].definition) == shape.variants@[k].definition
                            && 0 <= f < variants@[v].fields@.len() && (#[trigger] variants@[v].fields@[f]).index
                            == i by {
                    if k < position {
                        let (v, f) = choose|v: int, f: int|
                            0 <= v < variants_at.len() && Some(variants_at[v].definition) == shape.variants@[k].definition
                                && 0 <= f < variants_at[v].fields@.len() && (#[trigger] variants_at[v].fields@[f]).index
                                == i;
                        assert(variants@[v] == variants_at[v]);
                    } else {
                        let f = choose|f: int| 0 <= f < kept.len() && (#[trigger] kept[f]).index == i;
                        let v = variants@.len() - 1;
                        assert(variants@[v].fields@[f] == kept[f]);
                    }
                }
            }
            position = position + 1;
        }
    }
    proof {
        assert(resolving@.subrange(0, start as int) =~= outer);
        lemma_marked_after_leave(*resolved, outer, entered, resolving@);
    }
    leave(resolving, start, Ghost(outer));
    let ghost grown = plans@;
    let plan = match shape.kind {
        TypeSymbolKind::Struct => if fields.len() > 0 {
            DropPlan::Struct { destructor: shape.destructor, fields }
        } else {
            match shape.destructor {
                Some(destructor) => DropPlan::Direct { destructor },
                None => DropPlan::Noop,
            }
        },
        _ => match shape.destructor {
            Some(destructor) => DropPlan::Direct { destructor },
            None => if variants.len() > 0 {
                DropPlan::Enum { variants }
            } else {
                DropPlan::Noop
            },
        },
    };
    let result = push(plans, plan);
    proof {
        assert(plans@.subrange(0, before.len() as int) =~= grown.subrange(0, before.len() as int));
    }
    result
}

/// Ends the planning of the symbol entered at `start`: removes it, keeping
/// the symbols before it and those entered after it.
fn leave(resolving: &mut Vec<usize>, start: usize, Ghost(outer): Ghost<Seq<usize>>)
    requires
        start == outer.len(),
        old(resolving)@.len() > start,
        old(resolving)@.subrange(0, start as int) == outer,
        old(resolving)@.no_duplicates(),
    ensures
        final(resolving)@ == old(resolving)@.remove(start as int),
        extends(final(resolving)@, outer),
        final(resolving)@.no_duplicates(),
        forall|i: int| 0 <= i < final(resolving)@.len() ==> old(resolving)@.contains(#[trigger] final(resolving)@[i]),
{
    let ghost prior = resolving@;
    resolving.remove(start);
    proof {
        assert(resolving@.subrange(0, start as int) =~= outer);
        assert forall|i: int| 0 <= i < resolving@.len() implies prior.contains(#[trigger] resolving@[i]) by {
            let j = if i < start { i } else { i + 1 };
            assert(resolving@[i] == prior[j]);
        }
        assert forall|i: int, j: int|
            0 <= i < resolving@.len() && 0 <= j < resolving@.len() && i != j implies resolving@[i] != resolving@[j] by {
            let a = if i < start { i } else { i + 1 };
            let b = if j < start { j } else { j + 1 };
            assert(resolving@[i] == prior[a] && resolving@[j] == prior[b]);
        }
    }
}

} // verus!
