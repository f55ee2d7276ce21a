//! Semantic callable-instance identity retained by checked MIR.
//!
//! Runtime symbol spelling is deliberately absent here. A declared callable
//! is identified by its canonical definition and concrete types; invocation
//! through a callable value is identified by its checked callable type and
//! capability. Only the machine backend projects either form to a symbol.

use crate::semantic::{
    type_nodes, CallableCapability, DefId, IntrinsicId, LiteralShape, MonoItemId,
    SequenceSpreadMode, TyId, TypeExpr, TypeIdentity, TypeTable,
};
use vstd::prelude::*;

verus! {

/// What a call invokes.
#[derive(Debug, PartialEq, Eq)]
pub enum CallableIdentity {
    Intrinsic(IntrinsicId),
    Definition(DefId),
    Value { ty: TyId, capability: CallableCapability },
    Literal { definition: DefId, shape: LiteralShape, result: TyId, segments: Vec<LiteralSegment> },
}

/// One segment of a collection literal.
#[derive(Debug, Clone, Copy, PartialEq, Eq, Structural)]
pub enum LiteralSegment {
    Value,
    Spread { mode: SequenceSpreadMode, iterator: TyId },
}

/// A callable together with the concrete types it is instantiated at.
#[derive(Debug, PartialEq, Eq)]
pub struct CallInstance {
    pub callable: CallableIdentity,
    pub receiver: Option<TyId>,
    pub type_arguments: Vec<TyId>,
}

/// Two callables are alike: equal, with segment lists of equal contents.
pub open spec fn same_callable(a: CallableIdentity, b: CallableIdentity) -> bool {
    match (a, b) {
        (
            CallableIdentity::Literal { definition: d1, shape: s1, result: r1, segments: g1 },
            CallableIdentity::Literal { definition: d2, shape: s2, result: r2, segments: g2 },
        ) => d1 == d2 && s1 == s2 && r1 == r2 && g1@ == g2@,
        (CallableIdentity::Literal { .. }, _) => false,
        _ => a == b,
    }
}

impl Clone for CallableIdentity {
    fn clone(&self) -> (copy: Self)
        ensures
            same_callable(*self, copy),
    {
        match self {
            CallableIdentity::Intrinsic(intrinsic) => CallableIdentity::Intrinsic(*intrinsic),
            CallableIdentity::Definition(definition) => CallableIdentity::Definition(*definition),
            CallableIdentity::Value { ty, capability } => CallableIdentity::Value { ty: *ty, capability: *capability },
            CallableIdentity::Literal { definition, shape, result, segments } => CallableIdentity::Literal {
                definition: *definition,
                shape: *shape,
                result: *result,
                segments: segments.clone(),
            },
        }
    }
}

/// Two call instances are alike: alike callables, the same receiver and
/// type arguments of equal contents.
pub open spec fn same_instance(a: CallInstance, b: CallInstance) -> bool {
    &&& same_callable(a.callable, b.callable)
    &&& a.receiver == b.receiver
    &&& a.type_arguments@ == b.type_arguments@
}

/// Being alike is symmetric and transitive on call instances.
pub proof fn lemma_alike_instances(a: CallInstance, b: CallInstance, c: CallInstance)
    ensures
        same_instance(a, b) ==> same_instance(b, a),
        same_instance(a, b) && same_instance(b, c) ==> same_instance(a, c),
{
}

impl Clone for CallInstance {
    fn clone(&self) -> (copy: Self)
        ensures
            same_instance(*self, copy),
    {
        CallInstance {
            callable: self.callable.clone(),
            receiver: self.receiver,
            type_arguments: self.type_arguments.clone(),
        }
    }
}

impl CallInstance {
    /// A call of a compiler intrinsic.
    pub fn intrinsic(intrinsic: IntrinsicId) -> (instance: Self)
        ensures
            instance.callable == CallableIdentity::Intrinsic(intrinsic),
            instance.receiver is None,
            instance.type_arguments@.len() == 0,
    {
        CallInstance {
            callable: CallableIdentity::Intrinsic(intrinsic),
            receiver: None,
            type_arguments: Vec::new(),
        }
    }

    /// A direct call of a non-generic definition.
    pub fn direct(definition: DefId) -> (instance: Self)
        ensures
            instance.callable == CallableIdentity::Definition(definition),
            instance.receiver is None,
            instance.type_arguments@.len() == 0,
    {
        CallInstance {
            callable: CallableIdentity::Definition(definition),
            receiver: None,
            type_arguments: Vec::new(),
        }
    }

    /// A call of a definition at a receiver type and type arguments.
    pub fn specialized(definition: DefId, receiver: Option<TyId>, type_arguments: Vec<TyId>) -> (instance: Self)
        ensures
            instance.callable == CallableIdentity::Definition(definition),
            instance.receiver == receiver,
            instance.type_arguments@ == type_arguments@,
    {
        CallInstance { callable: CallableIdentity::Definition(definition), receiver, type_arguments }
    }

    /// A call through a callable value of the given type.
    pub fn value(ty: TyId, capability: CallableCapability) -> (instance: Self)
        ensures
            instance.callable == (CallableIdentity::Value { ty, capability }),
            instance.receiver is None,
            instance.type_arguments@.len() == 0,
    {
        CallInstance {
            callable: CallableIdentity::Value { ty, capability },
            receiver: None,
            type_arguments: Vec::new(),
        }
    }

    /// The construction of a collection literal.
    pub fn literal(
        definition: DefId,
        shape: LiteralShape,
        result: TyId,
        segments: Vec<LiteralSegment>,
    ) -> (instance: Self)
        ensures
            instance.callable matches CallableIdentity::Literal {
                definition: d,
                shape: s,
                result: r,
                segments: g,
            } && d == definition && s == shape && r == result && g@ == segments@,
            instance.receiver is None,
            instance.type_arguments@.len() == 0,
    {
        CallInstance {
            callable: CallableIdentity::Literal { definition, shape, result, segments },
            receiver: None,
            type_arguments: Vec::new(),
        }
    }
}

/// What a callable key identifies, with each type taken by its identity.
pub enum CallableKeyView {
    Definition(DefId),
    Value { ty: Seq<(Seq<char>, nat)>, capability: CallableCapability },
    Literal {
        definition: DefId,
        shape: LiteralShape,
        result: Seq<(Seq<char>, nat)>,
        segments: Seq<SegmentKeyView>,
    },
}

/// What a literal segment key identifies.
pub enum SegmentKeyView {
    Value,
    Spread { mode: SequenceSpreadMode, iterator: Seq<(Seq<char>, nat)> },
}

/// What a call instance key identifies.
pub struct CallKeyView {
    pub callable: CallableKeyView,
    pub receiver: Option<Seq<(Seq<char>, nat)>>,
    pub type_arguments: Seq<Seq<(Seq<char>, nat)>>,
}

#[derive(Debug, Clone, PartialEq, Eq, Hash)]
enum CallableKey {
    Definition(DefId),
    Value { ty: TypeIdentity, capability: CallableCapability },
    Literal {
        definition: DefId,
        shape: LiteralShape,
        result: TypeIdentity,
        segments: Vec<LiteralSegmentKey>,
    },
}

#[derive(Debug, Clone, PartialEq, Eq, Hash)]
enum LiteralSegmentKey {
    Value,
    Spread { mode: SequenceSpreadMode, iterator: TypeIdentity },
}

impl View for LiteralSegmentKey {
    type V = SegmentKeyView;

    closed spec fn view(&self) -> SegmentKeyView {
        match self {
            LiteralSegmentKey::Value => SegmentKeyView::Value,
            LiteralSegmentKey::Spread { mode, iterator } => SegmentKeyView::Spread {
                mode: *mode,
                iterator: iterator@,
            },
        }
    }
}

impl View for CallableKey {
    type V = CallableKeyView;

    closed spec fn view(&self) -> CallableKeyView {
        match self {
            CallableKey::Definition(definition) => CallableKeyView::Definition(*definition),
            CallableKey::Value { ty, capability } => CallableKeyView::Value {
                ty: ty@,
                capability: *capability,
            },
            CallableKey::Literal { definition, shape, result, segments } => CallableKeyView::Literal {
                definition: *definition,
                shape: *shape,
                result: result@,
                segments: segments@.map_values(|segment: LiteralSegmentKey| segment@),
            },
        }
    }
}

/// The structural identity of a call instance: a complete key with every
/// type taken by its identity.
#[derive(Debug, Clone, PartialEq, Eq, Hash)]
pub struct CallInstanceKey {
    callable: CallableKey,
    receiver: Option<TypeIdentity>,
    type_arguments: Vec<TypeIdentity>,
}

impl View for CallInstanceKey {
    type V = CallKeyView;

    closed spec fn view(&self) -> CallKeyView {
        CallKeyView {
            callable: self.callable@,
            receiver: match self.receiver {
                Some(receiver) => Some(receiver@),
                None => None,
            },
            type_arguments: self.type_arguments@.map_values(|ty: TypeIdentity| ty@),
        }
    }
}

/// The identities of `types`, in order.
pub open spec fn identities_of(types: Seq<TypeExpr>) -> Seq<Seq<(Seq<char>, nat)>> {
    types.map_values(|ty: TypeExpr| type_nodes(ty))
}

/// The key of a definition at a receiver type and type arguments.
pub open spec fn definition_key(
    definition: DefId,
    receiver: Option<TypeExpr>,
    type_arguments: Seq<TypeExpr>,
) -> CallKeyView {
    CallKeyView {
        callable: CallableKeyView::Definition(definition),
        receiver: match receiver {
            Some(receiver) => Some(type_nodes(receiver)),
            None => None,
        },
        type_arguments: identities_of(type_arguments),
    }
}

/// The key of a call through a callable value of type `ty`.
pub open spec fn value_key(ty: TypeExpr, capability: CallableCapability) -> CallKeyView {
    CallKeyView {
        callable: CallableKeyView::Value { ty: type_nodes(ty), capability },
        receiver: None,
        type_arguments: Seq::empty(),
    }
}

/// A literal segment, given as its spread mode and iterator type, both
/// present for a spread and both absent for a single value.
pub open spec fn segment_key(segment: (Option<SequenceSpreadMode>, Option<TypeExpr>)) -> SegmentKeyView {
    match segment {
        (Some(mode), Some(iterator)) => SegmentKeyView::Spread { mode, iterator: type_nodes(iterator) },
        _ => SegmentKeyView::Value,
    }
}

/// The spread mode and iterator type of a segment agree.
pub open spec fn segment_agrees(segment: (Option<SequenceSpreadMode>, Option<&TypeExpr>)) -> bool {
    segment.0 is Some == segment.1 is Some
}

/// The key of a collection literal's construction.
pub open spec fn literal_key(
    definition: DefId,
    shape: LiteralShape,
    result: TypeExpr,
    segments: Seq<(Option<SequenceSpreadMode>, Option<TypeExpr>)>,
) -> CallKeyView {
    CallKeyView {
        callable: CallableKeyView::Literal {
            definition,
            shape,
            result: type_nodes(result),
            segments: segments.map_values(
                |segment: (Option<SequenceSpreadMode>, Option<TypeExpr>)| segment_key(segment),
            ),
        },
        receiver: None,
        type_arguments: Seq::empty(),
    }
}

/// The type that `id` stands for in `table`.
pub open spec fn table_type(table: TypeTable, id: TyId) -> Option<TypeExpr> {
    if id.0 < table.types@.len() {
        Some(table.types@[id.0 as int])
    } else {
        None
    }
}

/// Every one of `ids` stands for a type in `table`.
pub open spec fn all_in_table(table: TypeTable, ids: Seq<TyId>) -> bool {
    forall|i: int| 0 <= i < ids.len() ==> (#[trigger] ids[i]).0 < table.types@.len()
}

/// The types that `ids` stand for in `table`.
pub open spec fn table_types(table: TypeTable, ids: Seq<TyId>) -> Seq<TypeExpr> {
    ids.map_values(|id: TyId| table.types@[id.0 as int])
}

/// The segment that `segment` stands for in `table`, if its iterator type
/// is there.
pub open spec fn table_segment(table: TypeTable, segment: LiteralSegment) -> Option<
    (Option<SequenceSpreadMode>, Option<TypeExpr>),
> {
    match segment {
        LiteralSegment::Value => Some((None, None)),
        LiteralSegment::Spread { mode, iterator } => match table_type(table, iterator) {
            Some(ty) => Some((Some(mode), Some(ty))),
            None => None,
        },
    }
}

/// The key of `instance`, when it has one: intrinsics have none, a callable
/// value or a literal has none when it carries a receiver or type arguments,
/// and every type must be in `table`.
pub open spec fn instance_key(instance: CallInstance, table: TypeTable) -> Option<CallKeyView> {
    let receiver_known = match instance.receiver {
        Some(ty) => ty.0 < table.types@.len(),
        None => true,
    };
    let receiver = match instance.receiver {
        Some(ty) => Some(table.types@[ty.0 as int]),
        None => None,
    };
    if !receiver_known || !all_in_table(table, instance.type_arguments@) {
        None
    } else {
        match instance.callable {
            CallableIdentity::Intrinsic(_) => None,
            CallableIdentity::Definition(definition) => Some(
                definition_key(definition, receiver, table_types(table, instance.type_arguments@)),
            ),
            CallableIdentity::Value { ty, capability } => {
                if instance.receiver is Some || instance.type_arguments@.len() > 0
                    || table_type(table, ty) is None {
                    None
                } else {
                    Some(value_key(table_type(table, ty)->0, capability))
                }
            },
            CallableIdentity::Literal { definition, shape, result, segments } => {
                if instance.receiver is Some || instance.type_arguments@.len() > 0
                    || table_type(table, result) is None || exists|i: int|
                    0 <= i < segments@.len() && (#[trigger] table_segment(table, segments@[i]))
                        is None {
                    None
                } else {
                    Some(
                        literal_key(
                            definition,
                            shape,
                            table_type(table, result)->0,
                            segments@.map_values(
                                |segment: LiteralSegment| table_segment(table, segment)->0,
                            ),
                        ),
                    )
                }
            },
        }
    }
}

/// The segments, with their iterator types taken by value.
pub open spec fn owned_segments(segments: Seq<(Option<SequenceSpreadMode>, Option<&TypeExpr>)>) -> Seq<
    (Option<SequenceSpreadMode>, Option<TypeExpr>),
> {
    segments.map_values(
        |segment: (Option<SequenceSpreadMode>, Option<&TypeExpr>)|
            (
                segment.0,
                match segment.1 {
                    Some(ty) => Some(*ty),
                    None => None,
                },
            ),
    )
}

/// The types behind `types`, in order.
pub open spec fn deref_all<'a>(types: Seq<&'a TypeExpr>) -> Seq<TypeExpr> {
    types.map_values(|ty: &TypeExpr| *ty)
}

/// The identities of `types`.
fn identities(types: &[&TypeExpr]) -> (identities: Vec<TypeIdentity>)
    ensures
        identities@.map_values(|ty: TypeIdentity| ty@) == identities_of(deref_all(types@)),
{
    let mut identities: Vec<TypeIdentity> = Vec::new();
    let mut index: usize = 0;
    while index < types.len()
        invariant
            index <= types@.len(),
            identities@.len() == index,
            forall|i: int| 0 <= i < index ==> #[trigger] identities@[i]@ == type_nodes(*types@[i]),
        decreases types@.len() - index,
    {
        identities.push(TypeIdentity::of(types[index]));
        index = index + 1;
    }
    proof {
        assert(identities@.map_values(|ty: TypeIdentity| ty@) =~= identities_of(deref_all(types@)));
    }
    identities
}

impl CallInstanceKey {
    /// The key of `definition` at `receiver` and `type_arguments`.
    pub fn from_types(definition: DefId, receiver: Option<&TypeExpr>, type_arguments: &[&TypeExpr]) -> (key:
        Self)
        ensures
            key@ == definition_key(
                definition,
                match receiver {
                    Some(receiver) => Some(*receiver),
                    None => None,
                },
                deref_all(type_arguments@),
            ),
    {
        let receiver = match receiver {
            Some(receiver) => Some(TypeIdentity::of(receiver)),
            None => None,
        };
        CallInstanceKey {
            callable: CallableKey::Definition(definition),
            receiver,
            type_arguments: identities(type_arguments),
        }
    }

    /// The key of a call through a callable value of type `ty`.
    pub fn from_callable_type(ty: &TypeExpr, capability: CallableCapability) -> (key: Self)
        ensures
            key@ == value_key(*ty, capability),
    {
        let key = CallInstanceKey {
            callable: CallableKey::Value { ty: TypeIdentity::of(ty), capability },
            receiver: None,
            type_arguments: Vec::new(),
        };
        proof {
            assert(key@.type_arguments =~= Seq::empty());
        }
        key
    }

    /// The key of a collection literal's construction; each segment's spread
    /// mode and iterator type are both present or both absent.
    pub fn from_literal_types(
        definition: DefId,
        shape: LiteralShape,
        result: &TypeExpr,
        segments: &[(Option<SequenceSpreadMode>, Option<&TypeExpr>)],
    ) -> (key: Self)
        requires
            forall|i: int| 0 <= i < segments@.len() ==> segment_agrees(#[trigger] segments@[i]),
        ensures
            key@ == literal_key(definition, shape, *result, owned_segments(segments@)),
    {
        let mut keys: Vec<LiteralSegmentKey> = Vec::new();
        let mut index: usize = 0;
        while index < segments.len()
            invariant
                index <= segments@.len(),
                keys@.len() == index,
                forall|i: int|
                    0 <= i < index ==> #[trigger] keys@[i]@ == segment_key(
                        owned_segments(segments@)[i],
                    ),
            decreases segments@.len() - index,
        {
            let (mode, iterator) = segments[index];
            let key = match (mode, iterator) {
                (Some(mode), Some(iterator)) => LiteralSegmentKey::Spread {
                    mode,
                    iterator: TypeIdentity::of(iterator),
                },
                _ => LiteralSegmentKey::Value,
            };
            keys.push(key);
            index = index + 1;
        }
        let key = CallInstanceKey {
            callable: CallableKey::Literal {
                definition,
                shape,
                result: TypeIdentity::of(result),
                segments: keys,
            },
            receiver: None,
            type_arguments: Vec::new(),
        };
        proof {
            assert(key@.type_arguments =~= Seq::empty());
            assert(keys@.map_values(|segment: LiteralSegmentKey| segment@) =~= owned_segments(
                segments@,
            ).map_values(
                |segment: (Option<SequenceSpreadMode>, Option<TypeExpr>)| segment_key(segment),
            ));
        }
        key
    }

    /// The key of `instance`, with its types looked up in `table`.
    pub fn from_instance(instance: &CallInstance, table: &TypeTable) -> (key: Option<Self>)
        ensures
            match key {
                Some(key) => instance_key(*instance, *table) == Some(key@),
                None => instance_key(*instance, *table) is None,
            },
    {
        let receiver = match instance.receiver {
            Some(ty) => match table.type_expr_by_id(ty) {
                Some(receiver) => Some(receiver),
                None => return None,
            },
            None => None,
        };
        let mut type_arguments: Vec<&TypeExpr> = Vec::new();
        let mut index: usize = 0;
        while index < instance.type_arguments.len()
            invariant
                index <= instance.type_arguments@.len(),
                type_arguments@.len() == index,
                forall|i: int|
                    0 <= i < index ==> (#[trigger] instance.type_arguments@[i]).0
                        < table.types@.len() && *type_arguments@[i] == table.types@[
                        instance.type_arguments@[i].0 as int],
            decreases instance.type_arguments@.len() - index,
        {
            match table.type_expr_by_id(instance.type_arguments[index]) {
                Some(ty) => type_arguments.push(ty),
                None => return None,
            }
            index = index + 1;
        }
        match &instance.callable {
            CallableIdentity::Intrinsic(_) => None,
            CallableIdentity::Definition(definition) => {
                let key = Self::from_types(*definition, receiver, type_arguments.as_slice());
                proof {
                    assert(deref_all(type_arguments@) =~= table_types(*table, instance.type_arguments@));
                }
                Some(key)
            },
            CallableIdentity::Value { ty, capability } => {
                if receiver.is_some() || type_arguments.len() != 0 {
                    return None;
                }
                match table.type_expr_by_id(*ty) {
                    Some(ty) => Some(Self::from_callable_type(ty, *capability)),
                    None => None,
                }
            },
            CallableIdentity::Literal { definition, shape, result, segments } => {
                if receiver.is_some() || type_arguments.len() != 0 {
                    return None;
                }
                let result_id = *result;
                let result = match table.type_expr_by_id(result_id) {
                    Some(result) => result,
                    None => return None,
                };
                let mut looked_up: Vec<(Option<SequenceSpreadMode>, Option<&TypeExpr>)> = Vec::new();
                let mut index: usize = 0;
                while index < segments.len()
                    invariant
                        index <= segments@.len(),
                        looked_up@.len() == index,
                        instance.receiver is None,
                        instance.type_arguments@.len() == 0,
                        all_in_table(*table, instance.type_arguments@),
                        instance.callable == (CallableIdentity::Literal {
                            definition: *definition,
                            shape: *shape,
                            result: result_id,
                            segments: *segments,
                        }),
                        table_type(*table, result_id) is Some,
                        forall|i: int| 0 <= i < index ==> segment_agrees(#[trigger] looked_up@[i]),
                        forall|i: int|
                            0 <= i < index ==> (#[trigger] table_segment(*table, segments@[i]))
                                is Some && owned_segments(
                                looked_up@,
                            )[i] == table_segment(*table, segments@[i])->0,
                    decreases segments@.len() - index,
                {
                    match segments[index] {
                        LiteralSegment::Value => looked_up.push((None, None)),
                        LiteralSegment::Spread { mode, iterator } => match table.type_expr_by_id(
                            iterator,
                        ) {
                            Some(iterator) => looked_up.push((Some(mode), Some(iterator))),
                            None => {
                                proof {
                                    assert(table_segment(*table, segments@[index as int]) is None);
                                }
                                return None;
                            },
                        },
                    }
                    index = index + 1;
                }
                let key = Self::from_literal_types(*definition, *shape, result, looked_up.as_slice());
                proof {
                    assert(owned_segments(looked_up@) =~= segments@.map_values(
                        |segment: LiteralSegment| table_segment(*table, segment)->0,
                    ));
                }
                Some(key)
            },
        }
    }
}

/// Whether two identity lists are equal, element by element.
fn same_identities(first: &Vec<TypeIdentity>, second: &Vec<TypeIdentity>) -> (same: bool)
    ensures
        same == (first@.map_values(|ty: TypeIdentity| ty@) == second@.map_values(
            |ty: TypeIdentity| ty@,
        )),
{
    if first.len() != second.len() {
        proof {
            assert(first@.map_values(|ty: TypeIdentity| ty@).len() != second@.map_values(
                |ty: TypeIdentity| ty@,
            ).len());
        }
        return false;
    }
    let mut index: usize = 0;
    while index < first.len()
        invariant
            index <= first@.len(),
            first@.len() == second@.len(),
            forall|i: int| 0 <= i < index ==> #[trigger] first@[i]@ == second@[i]@,
        decreases first@.len() - index,
    {
        if !first[index].same(&second[index]) {
            proof {
                assert(first@.map_values(|ty: TypeIdentity| ty@)[index as int] != second@.map_values(
                    |ty: TypeIdentity| ty@,
                )[index as int]);
            }
            return false;
        }
        index = index + 1;
    }
    proof {
        assert(first@.map_values(|ty: TypeIdentity| ty@) =~= second@.map_values(
            |ty: TypeIdentity| ty@,
        ));
    }
    true
}

impl LiteralSegmentKey {
    fn same(&self, other: &Self) -> (same: bool)
        ensures
            same == (self@ == other@),
    {
        match (self, other) {
            (LiteralSegmentKey::Value, LiteralSegmentKey::Value) => true,
            (
                LiteralSegmentKey::Spread { mode, iterator },
                LiteralSegmentKey::Spread { mode: other_mode, iterator: other_iterator },
            ) => *mode == *other_mode && iterator.same(other_iterator),
            _ => false,
        }
    }
}

/// Whether two segment key lists are equal, element by element.
fn same_segments(first: &Vec<LiteralSegmentKey>, second: &Vec<LiteralSegmentKey>) -> (same: bool)
    ensures
        same == (first@.map_values(|s: LiteralSegmentKey| s@) == second@.map_values(
            |s: LiteralSegmentKey| s@,
        )),
{
    if first.len() != second.len() {
        proof {
            assert(first@.map_values(|s: LiteralSegmentKey| s@).len() != second@.map_values(
                |s: LiteralSegmentKey| s@,
            ).len());
        }
        return false;
    }
    let mut index: usize = 0;
    while index < first.len()
        invariant
            index <= first@.len(),
            first@.len() == second@.len(),
            forall|i: int| 0 <= i < index ==> #[trigger] first@[i]@ == second@[i]@,
        decreases first@.len() - index,
    {
        if !first[index].same(&second[index]) {
            proof {
                assert(first@.map_values(|s: LiteralSegmentKey| s@)[index as int]
                    != second@.map_values(|s: LiteralSegmentKey| s@)[index as int]);
            }
            return false;
        }
        index = index + 1;
    }
    proof {
        assert(first@.map_values(|s: LiteralSegmentKey| s@) =~= second@.map_values(
            |s: LiteralSegmentKey| s@,
        ));
    }
    true
}

impl CallableKey {
    fn same(&self, other: &Self) -> (same: bool)
        ensures
            same == (self@ == other@),
    {
        match (self, other) {
            (CallableKey::Definition(definition), CallableKey::Definition(other_definition)) => {
                *definition == *other_definition
            },
            (
                CallableKey::Value { ty, capability },
                CallableKey::Value { ty: other_ty, capability: other_capability },
            ) => *capability == *other_capability && ty.same(other_ty),
            (
                CallableKey::Literal { definition, shape, result, segments },
                CallableKey::Literal {
                    definition: other_definition,
                    shape: other_shape,
                    result: other_result,
                    segments: other_segments,
                },
            ) => *definition == *other_definition && *shape == *other_shape && result.same(
                other_result,
            ) && same_segments(segments, other_segments),
            _ => false,
        }
    }
}

impl CallInstanceKey {
    /// Whether two keys identify the same call instance.
    pub fn same(&self, other: &Self) -> (same: bool)
        ensures
            same == (self@ == other@),
    {
        let receivers = match (&self.receiver, &other.receiver) {
            (Some(receiver), Some(other_receiver)) => receiver.same(other_receiver),
            (None, None) => true,
            _ => false,
        };
        receivers && self.callable.same(&other.callable) && same_identities(
            &self.type_arguments,
            &other.type_arguments,
        )
    }
}

/// No key occurs twice among `entries`.
pub open spec fn distinct_keys<T>(entries: Seq<(CallKeyView, T)>) -> bool {
    forall|i: int, j: int|
        0 <= i < j < entries.len() ==> (#[trigger] entries[i]).0 != (#[trigger] entries[j]).0
}

/// The position of `key` among `entries`, if it occurs.
pub open spec fn key_position<T>(entries: Seq<(CallKeyView, T)>, key: CallKeyView) -> Option<int> {
    if exists|i: int| 0 <= i < entries.len() && (#[trigger] entries[i]).0 == key {
        Some(choose|i: int| 0 <= i < entries.len() && (#[trigger] entries[i]).0 == key)
    } else {
        None
    }
}

/// `entries` with `key` registered for `value`, unless `key` is there already.
pub open spec fn with_entry<T>(entries: Seq<(CallKeyView, T)>, key: CallKeyView, value: T) -> Seq<
    (CallKeyView, T),
> {
    if key_position(entries, key) is Some {
        entries
    } else {
        entries.push((key, value))
    }
}

/// The registry that registering `entries` one after the other builds.
pub open spec fn registered<T>(entries: Seq<(CallKeyView, T)>) -> Seq<(CallKeyView, T)>
    decreases entries.len(),
{
    if entries.len() == 0 {
        Seq::empty()
    } else {
        with_entry(registered(entries.drop_last()), entries.last().0, entries.last().1)
    }
}

/// The entry that `id` names among `entries`, if any.
pub open spec fn entry_at<T>(entries: Seq<(CallKeyView, T)>, id: MonoItemId) -> Option<T> {
    if id.0 < entries.len() {
        Some(entries[id.0 as int].1)
    } else {
        None
    }
}

/// Exact compile-unit registry for monomorphized callable identities.
///
/// A `MonoItemId` can only be obtained from a complete structural key. There
/// is intentionally no operation that erases a receiver or type argument.
#[derive(Debug)]
pub struct MonoItemRegistry<T> {
    entries: Vec<(CallInstanceKey, T)>,
}

impl<T> View for MonoItemRegistry<T> {
    type V = Seq<(CallKeyView, T)>;

    closed spec fn view(&self) -> Seq<(CallKeyView, T)> {
        self.entries@.map_values(|entry: (CallInstanceKey, T)| (entry.0@, entry.1))
    }
}

impl<T> Default for MonoItemRegistry<T> {
    fn default() -> (registry: Self)
        ensures
            registry@ == Seq::<(CallKeyView, T)>::empty(),
            distinct_keys(registry@),
    {
        let registry = MonoItemRegistry { entries: Vec::new() };
        proof {
            assert(registry@ =~= Seq::<(CallKeyView, T)>::empty());
        }
        registry
    }
}

impl<T> MonoItemRegistry<T> {
    #[verifier::type_invariant]
    spec fn keys_are_distinct(self) -> bool {
        distinct_keys(self@)
    }

    /// Registers each of `entries` in turn; a key registered already keeps
    /// its first value.
    pub fn from_entries(entries: Vec<(CallInstanceKey, T)>) -> (registry: Self)
        ensures
            registry@ == registered(
                entries@.map_values(|entry: (CallInstanceKey, T)| (entry.0@, entry.1)),
            ),
            distinct_keys(registry@),
    {
        let ghost all = entries@.map_values(|entry: (CallInstanceKey, T)| (entry.0@, entry.1));
        let mut registry = Self::default();
        let mut rest = entries;
        let mut taken: usize = 0;
        let total = rest.len();
        proof {
            assert(all.take(0) =~= Seq::<(CallKeyView, T)>::empty());
        }
        while rest.len() > 0
            invariant
                taken + rest@.len() == all.len(),
                all.len() == total,
                forall|i: int|
                    0 <= i < rest@.len() ==> ((#[trigger] rest@[i]).0@, rest@[i].1) == all[taken
                        + i],
                registry@ == registered(all.take(taken as int)),
                distinct_keys(registry@),
            decreases rest@.len(),
        {
            let (key, value) = rest.remove(0);
            proof {
                assert(all.take(taken + 1) =~= all.take(taken as int).push((key@, value)));
                assert(all.take(taken + 1).drop_last() =~= all.take(taken as int));
            }
            registry.insert(key, value);
            taken = taken + 1;
        }
        proof {
            assert(all.take(taken as int) =~= all);
        }
        registry
    }

    /// Registers `key` for `value` and returns its identity; a key registered
    /// already keeps its identity and value.
    pub fn insert(&mut self, key: CallInstanceKey, value: T) -> (id: MonoItemId)
        ensures
            final(self)@ == with_entry(old(self)@, key@, value),
            distinct_keys(final(self)@),
            match key_position(old(self)@, key@) {
                Some(position) => id == MonoItemId::at(position),
                None => id == MonoItemId::at(old(self)@.len() as int),
            },
    {
        proof {
            use_type_invariant(&*self);
        }
        match self.resolve(&key) {
            Some(id) => id,
            None => {
                let id = MonoItemId::from_index(self.entries.len());
                proof {
                    use_type_invariant(&*self);
                    assert(self.entries@.push((key, value)).map_values(
                        |entry: (CallInstanceKey, T)| (entry.0@, entry.1),
                    ) =~= self@.push((key@, value)));
                }
                let mut entries: Vec<(CallInstanceKey, T)> = Vec::new();
                std::mem::swap(&mut entries, &mut self.entries);
                entries.push((key, value));
                self.entries = entries;
                id
            },
        }
    }

    /// The identity registered for `key`, if any.
    pub fn resolve(&self, key: &CallInstanceKey) -> (id: Option<MonoItemId>)
        ensures
            match key_position(self@, key@) {
                Some(position) => id == Some(MonoItemId::at(position)),
                None => id is None,
            },
    {
        proof {
            use_type_invariant(self);
        }
        let mut index: usize = 0;
        while index < self.entries.len()
            invariant
                index <= self.entries@.len(),
                distinct_keys(self@),
                forall|i: int| 0 <= i < index ==> (#[trigger] self@[i]).0 != key@,
            decreases self.entries@.len() - index,
        {
            if self.entries[index].0.same(key) {
                proof {
                    assert(self@[index as int].0 == key@);
                    let chosen = key_position(self@, key@)->0;
                    assert(chosen == index);
                }
                return Some(MonoItemId::from_index(index));
            }
            index = index + 1;
        }
        None
    }

    /// The value registered under `id`, if any.
    pub fn get(&self, id: MonoItemId) -> (value: Option<&T>)
        ensures
            match value {
                Some(value) => entry_at(self@, id) == Some(*value),
                None => entry_at(self@, id) is None,
            },
    {
        let index = id.index();
        if index < self.entries.len() {
            Some(&self.entries[index].1)
        } else {
            None
        }
    }

    /// The value registered for `key`, if any.
    pub fn value_for(&self, key: &CallInstanceKey) -> (value: Option<&T>)
        ensures
            match key_position(self@, key@) {
                Some(position) => match value {
                    Some(value) => entry_at(self@, MonoItemId::at(position)) == Some(*value),
                    None => entry_at(self@, MonoItemId::at(position)) is None,
                },
                None => value is None,
            },
    {
        match self.resolve(key) {
            Some(id) => self.get(id),
            None => None,
        }
    }
}

/// Registering a key that is not there yet keeps the keys distinct, and the
/// key is then found at the end with its value.
pub proof fn lemma_register_fresh<T>(entries: Seq<(CallKeyView, T)>, key: CallKeyView, value: T)
    requires
        distinct_keys(entries),
        key_position(entries, key) is None,
    ensures
        distinct_keys(with_entry(entries, key, value)),
        key_position(with_entry(entries, key, value), key) == Some(entries.len() as int),
        entries.len() <= u32::MAX ==> entry_at(
            with_entry(entries, key, value),
            MonoItemId::at(entries.len() as int),
        ) == Some(value),
{
    let grown = entries.push((key, value));
    assert(grown[entries.len() as int].0 == key);
    assert(key_position(grown, key) is Some);
    let chosen = key_position(grown, key)->0;
    assert(chosen == entries.len());
}

} // verus!
