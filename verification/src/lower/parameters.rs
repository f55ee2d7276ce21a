//! The locals of a body's return value and parameters.

use crate::drop_plans::{build, build_outcome, DropPlan};
use crate::ids::{DropPlanId, LocalId, ScopeId};
use crate::locals::{Local, LocalOrigin, LocalStorage, OwnershipKind, ValueRepresentation};
use crate::lower::BuildError;
use crate::resolution::ResolveModel;
use crate::semantic::{LocalSymbolId, TyId};
use vstd::prelude::*;

verus! {

/// What name resolution and type checking say of one parameter.
#[derive(Debug, Clone, Copy, PartialEq, Eq, Structural)]
pub struct ParameterFacts {
    /// The local symbol the parameter's name declares.
    pub symbol: Option<LocalSymbolId>,
    /// The identity of the parameter's checked type.
    pub ty: Option<TyId>,
    /// How values of the parameter's type are represented.
    pub representation: Option<ValueRepresentation>,
    /// For a borrowed parameter, whether the borrow is mutable.
    pub readwrite: Option<bool>,
}

/// Why a parameter cannot have a local, as far as its facts tell.
pub open spec fn parameter_error(parameter: ParameterFacts) -> Option<BuildError> {
    if parameter.symbol is None {
        Some(BuildError::MissingLocalSymbol)
    } else if parameter.ty is None {
        Some(BuildError::MissingParameterType)
    } else if parameter.representation is None {
        Some(BuildError::UnsupportedClaimedExpression)
    } else if parameter.representation == Some(ValueRepresentation::Borrow) && parameter.readwrite is None {
        Some(BuildError::UnsupportedClaimedExpression)
    } else {
        None
    }
}

/// Whether the parameter's value is moved into the body and must be
/// destroyed there: an aggregate whose values are not copied.
pub open spec fn parameter_moves(parameter: ParameterFacts, resolved: ResolveModel) -> bool {
    parameter.representation == Some(ValueRepresentation::Aggregate) && !resolved.is_copy(parameter.ty->0)
}

/// The local of the parameter at `ordinal`, in the root scope, carrying
/// `drop_plan`.
pub open spec fn parameter_local(
    parameter: ParameterFacts,
    ordinal: int,
    resolved: ResolveModel,
    root_scope: ScopeId,
    drop_plan: Option<DropPlanId>,
) -> Local {
    let representation = parameter.representation->0;
    Local {
        ty: parameter.ty->0,
        representation,
        ownership: match representation {
            ValueRepresentation::Borrow => OwnershipKind::Borrowed { readwrite: parameter.readwrite->0 },
            ValueRepresentation::Aggregate => if resolved.is_copy(parameter.ty->0) {
                OwnershipKind::Copy
            } else {
                OwnershipKind::Move
            },
            _ => OwnershipKind::Copy,
        },
        storage: LocalStorage::Parameter { ordinal: ordinal as usize },
        origin: LocalOrigin::Parameter(parameter.symbol->0),
        scope: root_scope,
        drop_plan,
    }
}

/// The local of one parameter whose facts raise no error; a moved
/// parameter also gets the plan that destroys its value.
fn parameter_local_of(
    parameter: &ParameterFacts,
    ordinal: usize,
    resolved: &ResolveModel,
    root_scope: ScopeId,
    drop_plans: &mut Vec<DropPlan>,
) -> (local: Result<Local, BuildError>)
    requires
        resolved.wf(),
        parameter_error(*parameter) is None,
    ensures
        !parameter_moves(*parameter, *resolved) ==> final(drop_plans)@ == old(drop_plans)@ && local
            == Ok::<Local, BuildError>(parameter_local(*parameter, ordinal as int, *resolved, root_scope, None)),
        parameter_moves(*parameter, *resolved) ==> exists|plan: Option<DropPlanId>|
            {
                &&& build_outcome(
                    *resolved,
                    parameter.ty->0,
                    Seq::empty(),
                    plan,
                    old(drop_plans)@,
                    final(drop_plans)@,
                )
                &&& match plan {
                    Some(plan) => local == Ok::<Local, BuildError>(
                        parameter_local(*parameter, ordinal as int, *resolved, root_scope, Some(plan)),
                    ),
                    None => local == Err::<Local, BuildError>(BuildError::UnsupportedClaimedExpression),
                }
            },
{
    let symbol = match parameter.symbol {
        Some(symbol) => symbol,
        None => return Err(BuildError::MissingLocalSymbol),
    };
    let ty = match parameter.ty {
        Some(ty) => ty,
        None => return Err(BuildError::MissingParameterType),
    };
    let storage = LocalStorage::Parameter { ordinal };
    let origin = LocalOrigin::Parameter(symbol);
    let local = match parameter.representation {
        Some(ValueRepresentation::Unit) => Local::unit(ty, storage, origin, root_scope),
        Some(ValueRepresentation::Scalar(scalar)) => Local::scalar(ty, scalar, storage, origin, root_scope),
        Some(ValueRepresentation::Aggregate) => {
            let ownership = if resolved.type_is_copy(ty) {
                OwnershipKind::Copy
            } else {
                OwnershipKind::Move
            };
            Local::aggregate(ty, ownership, storage, origin, root_scope)
        },
        Some(ValueRepresentation::Borrow) => match parameter.readwrite {
            Some(readwrite) => Local::borrow(ty, readwrite, storage, origin, root_scope),
            None => return Err(BuildError::UnsupportedClaimedExpression),
        },
        Some(ValueRepresentation::Error) => Local::error(ty, storage, origin, root_scope),
        Some(ValueRepresentation::View(kind)) => Local::view(ty, kind, storage, origin, root_scope),
        None => return Err(BuildError::UnsupportedClaimedExpression),
    };
    if local.ownership == OwnershipKind::Move {
        let ghost before = drop_plans@;
        let plan = build(ty, resolved, drop_plans);
        proof {
            assert(build_outcome(*resolved, ty, Seq::empty(), plan, before, drop_plans@));
        }
        return match plan {
            Some(plan) => Ok(local.with_drop_plan(plan)),
            None => Err(BuildError::UnsupportedClaimedExpression),
        };
    }
    Ok(local)
}

/// Adds a local for each parameter after the locals there are, in order,
/// with storage by ordinal, each bound to its symbol; a moved parameter
/// carries the plan that destroys its value. Fails at the first parameter
/// whose facts raise an error, or that moves a value no plan destroys.
pub fn add_parameter_locals(
    locals: &mut Vec<Local>,
    bindings: &mut Vec<(LocalSymbolId, LocalId)>,
    drop_plans: &mut Vec<DropPlan>,
    parameters: &[ParameterFacts],
    resolved: &ResolveModel,
    root_scope: ScopeId,
) -> (added: Result<(), BuildError>)
    requires
        resolved.wf(),
    ensures
        added is Ok ==> {
            &&& forall|i: int| 0 <= i < parameters@.len() ==> parameter_error(#[trigger] parameters@[i]) is None
            &&& final(locals)@.len() == old(locals)@.len() + parameters@.len()
            &&& final(locals)@.subrange(0, old(locals)@.len() as int) == old(locals)@
            &&& forall|i: int|
                0 <= i < parameters@.len() ==> {
                    let local = #[trigger] final(locals)@[old(locals)@.len() + i];
                    &&& local == parameter_local(parameters@[i], i, *resolved, root_scope, local.drop_plan)
                    &&& (local.drop_plan is Some <==> parameter_moves(parameters@[i], *resolved))
                }
            &&& final(bindings)@ == old(bindings)@ + Seq::new(
                parameters@.len(),
                |i: int| (parameters@[i].symbol->0, LocalId::at(old(locals)@.len() + i)),
            )
        },
        added matches Err(error) ==> exists|i: int|
            0 <= i < parameters@.len() && (forall|j: int| 0 <= j < i ==> parameter_error(#[trigger] parameters@[j]) is None) && (
            parameter_error(parameters@[i]) == Some(error) || (parameter_error(parameters@[i]) is None
                && parameter_moves(parameters@[i], *resolved) && error == BuildError::UnsupportedClaimedExpression)),
        (forall|i: int|
            0 <= i < parameters@.len() ==> parameter_error(#[trigger] parameters@[i]) is None && !parameter_moves(
                parameters@[i],
                *resolved,
            )) ==> added is Ok,
{
    let ghost base = locals@.len();
    let ghost old_locals = locals@;
    let ghost old_bindings = bindings@;
    let mut index: usize = 0;
    proof {
        assert(locals@.subrange(0, base as int) =~= old_locals);
        assert(bindings@ =~= old_bindings + Seq::new(
            0,
            |i: int| (parameters@[i].symbol->0, LocalId::at(base + i)),
        ));
    }
    while index < parameters.len()
        invariant
            resolved.wf(),
            index <= parameters@.len(),
            base == old_locals.len(),
            locals@.len() == base + index,
            locals@.subrange(0, base as int) == old_locals,
            forall|i: int| 0 <= i < index ==> parameter_error(#[trigger] parameters@[i]) is None,
            forall|i: int|
                0 <= i < index ==> {
                    let local = #[trigger] locals@[base + i];
                    &&& local == parameter_local(parameters@[i], i, *resolved, root_scope, local.drop_plan)
                    &&& (local.drop_plan is Some <==> parameter_moves(parameters@[i], *resolved))
                },
            bindings@ == old_bindings + Seq::new(
                index as nat,
                |i: int| (parameters@[i].symbol->0, LocalId::at(base + i)),
            ),
        decreases parameters@.len() - index,
    {
        let parameter = &parameters[index];
        let prepared = match parameter.symbol {
            None => Err(BuildError::MissingLocalSymbol),
            Some(_) => match parameter.ty {
                None => Err(BuildError::MissingParameterType),
                Some(_) => match parameter.representation {
                    None => Err(BuildError::UnsupportedClaimedExpression),
                    Some(ValueRepresentation::Borrow) => match parameter.readwrite {
                        None => Err(BuildError::UnsupportedClaimedExpression),
                        Some(_) => Ok(()),
                    },
                    Some(_) => Ok(()),
                },
            },
        };
        match prepared {
            Err(error) => {
                proof {
                    assert(parameter_error(parameters@[index as int]) == Some(error));
                }
                return Err(error);
            },
            Ok(()) => {},
        }
        let local = match parameter_local_of(parameter, index, resolved, root_scope, drop_plans) {
            Ok(local) => local,
            Err(error) => return Err(error),
        };
        let symbol = match parameter.symbol {
            Some(symbol) => symbol,
            None => return Err(BuildError::MissingLocalSymbol),
        };
        let id = LocalId::from_index(locals.len());
        let ghost before_bindings = bindings@;
        locals.push(local);
        bindings.push((symbol, id));
        index = index + 1;
        proof {
            assert(locals@.subrange(0, base as int) =~= old_locals);
            assert(locals@[base + index - 1] == local);
            assert(bindings@ =~= old_bindings + Seq::new(
                index as nat,
                |i: int| (parameters@[i].symbol->0, LocalId::at(base + i)),
            ));
        }
    }
    Ok(())
}

/// What type checking says of a body's return value.
#[derive(Debug, Clone, Copy, PartialEq, Eq, Structural)]
pub struct ReturnFacts {
    /// The identity of the returned value's checked type.
    pub ty: TyId,
    /// How the returned value is represented.
    pub representation: ValueRepresentation,
    /// For a borrowed return value, whether the borrow is mutable.
    pub readwrite: Option<bool>,
    /// Whether the declared return type is an optional or fallible outcome,
    /// whose payload the body's cleanup does not destroy.
    pub outcome: bool,
}

/// Why the return value cannot have a local, as far as its facts tell.
pub open spec fn return_error(facts: ReturnFacts, resolved: ResolveModel) -> Option<BuildError> {
    match facts.representation {
        ValueRepresentation::Aggregate => if resolved.knows(facts.ty) {
            None
        } else {
            Some(BuildError::MissingTypedExpression)
        },
        ValueRepresentation::Borrow => if facts.readwrite is None {
            Some(BuildError::UnsupportedClaimedExpression)
        } else {
            None
        },
        ValueRepresentation::Error => Some(BuildError::UnsupportedClaimedExpression),
        _ => None,
    }
}

/// Whether the returned value is moved out and must be destroyed on paths
/// that do not return it: a moved aggregate that is no outcome.
pub open spec fn return_moves(facts: ReturnFacts, resolved: ResolveModel) -> bool {
    facts.representation == ValueRepresentation::Aggregate && !resolved.is_copy(facts.ty) && !facts.outcome
}

/// The return local, in the root scope, carrying `drop_plan`.
pub open spec fn return_local(
    facts: ReturnFacts,
    resolved: ResolveModel,
    root_scope: ScopeId,
    drop_plan: Option<DropPlanId>,
) -> Local {
    Local {
        ty: facts.ty,
        representation: facts.representation,
        ownership: match facts.representation {
            ValueRepresentation::Borrow => OwnershipKind::Borrowed { readwrite: facts.readwrite->0 },
            ValueRepresentation::Aggregate => if resolved.is_copy(facts.ty) {
                OwnershipKind::Copy
            } else {
                OwnershipKind::Move
            },
            _ => OwnershipKind::Copy,
        },
        storage: LocalStorage::Return,
        origin: LocalOrigin::Return,
        scope: root_scope,
        drop_plan,
    }
}

/// The local that holds a body's result; a moved aggregate result that is
/// no outcome also gets the plan that destroys it.
pub fn return_local_of(
    facts: &ReturnFacts,
    resolved: &ResolveModel,
    root_scope: ScopeId,
    drop_plans: &mut Vec<DropPlan>,
) -> (local: Result<Local, BuildError>)
    requires
        resolved.wf(),
    ensures
        return_error(*facts, *resolved) matches Some(error) ==> local == Err::<Local, BuildError>(error)
            && final(drop_plans)@ == old(drop_plans)@,
        return_error(*facts, *resolved) is None && !return_moves(*facts, *resolved) ==> local == Ok::<
            Local,
            BuildError,
        >(return_local(*facts, *resolved, root_scope, None)) && final(drop_plans)@ == old(drop_plans)@,
        return_error(*facts, *resolved) is None && return_moves(*facts, *resolved) ==> exists|
            plan: Option<DropPlanId>,
        |
            {
                &&& build_outcome(*resolved, facts.ty, Seq::empty(), plan, old(drop_plans)@, final(drop_plans)@)
                &&& match plan {
                    Some(plan) => local == Ok::<Local, BuildError>(
                        return_local(*facts, *resolved, root_scope, Some(plan)),
                    ),
                    None => local == Err::<Local, BuildError>(BuildError::UnsupportedClaimedExpression),
                }
            },
{
    let ty = facts.ty;
    let local = match facts.representation {
        ValueRepresentation::Unit => Local::unit(ty, LocalStorage::Return, LocalOrigin::Return, root_scope),
        ValueRepresentation::Scalar(scalar) => Local::scalar(
            ty,
            scalar,
            LocalStorage::Return,
            LocalOrigin::Return,
            root_scope,
        ),
        ValueRepresentation::View(kind) => Local::view(ty, kind, LocalStorage::Return, LocalOrigin::Return, root_scope),
        ValueRepresentation::Aggregate => {
            if !(ty.index() < resolved.types.len()) {
                return Err(BuildError::MissingTypedExpression);
            }
            let ownership = if resolved.type_is_copy(ty) {
                OwnershipKind::Copy
            } else {
                OwnershipKind::Move
            };
            Local::aggregate(ty, ownership, LocalStorage::Return, LocalOrigin::Return, root_scope)
        },
        ValueRepresentation::Borrow => match facts.readwrite {
            Some(readwrite) => Local::borrow(ty, readwrite, LocalStorage::Return, LocalOrigin::Return, root_scope),
            None => return Err(BuildError::UnsupportedClaimedExpression),
        },
        ValueRepresentation::Error => return Err(BuildError::UnsupportedClaimedExpression),
    };
    if local.ownership == OwnershipKind::Move && !facts.outcome {
        let ghost before = drop_plans@;
        let plan = build(ty, resolved, drop_plans);
        proof {
            assert(build_outcome(*resolved, ty, Seq::empty(), plan, before, drop_plans@));
        }
        return match plan {
            Some(plan) => Ok(local.with_drop_plan(plan)),
            None => Err(BuildError::UnsupportedClaimedExpression),
        };
    }
    Ok(local)
}

} // verus!
