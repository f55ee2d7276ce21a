//! Construction-only state shared by MIR statement and expression lowering.

use crate::drop_plans::{build, build_outcome, DropPlan};
use crate::ids::{DropPlanId, LocalId, ScopeId};
use crate::locals::{Local, LocalOrigin, LocalStorage, OwnershipKind, ValueRepresentation};
use crate::resolution::ResolveModel;
use crate::lower::body_builder::{ControlFlowBuilder, PendingView};
use crate::lower::BuildError;
use crate::model::{AllocationRegion, BasicBlock, Loan, LoopRegion, ProjectionPath, Scope};
use crate::semantic::{ByteSpan, LocalSymbolId, TyId};
use vstd::prelude::*;

verus! {

/// An aggregate-valued local stored in the frame.
pub open spec fn aggregate_local(
    ty: TyId,
    ownership: OwnershipKind,
    origin: LocalOrigin,
    scope: ScopeId,
    drop_plan: Option<DropPlanId>,
) -> Local {
    Local {
        ty,
        representation: ValueRepresentation::Aggregate,
        ownership,
        storage: LocalStorage::Local,
        origin,
        scope,
        drop_plan,
    }
}

/// The local bound to `symbol`: its latest binding, as a later binding of
/// a symbol replaces an earlier one.
pub open spec fn bound_local(bindings: Seq<(LocalSymbolId, LocalId)>, symbol: LocalSymbolId) -> Option<
    LocalId,
>
    decreases bindings.len(),
{
    if bindings.len() == 0 {
        None
    } else if bindings.last().0 == symbol {
        Some(bindings.last().1)
    } else {
        bound_local(bindings.drop_last(), symbol)
    }
}

/// The state one body's lowering builds up.
pub struct LoweringContext {
    pub locals: Vec<Local>,
    pub locals_by_symbol: Vec<(LocalSymbolId, LocalId)>,
    pub projections: Vec<ProjectionPath>,
    pub drop_plans: Vec<DropPlan>,
    pub control_flow: ControlFlowBuilder,
    pub loop_regions: Vec<LoopRegion>,
    pub loans: Vec<Loan>,
    pub allocation_regions: Vec<AllocationRegion>,
    pub scopes: Vec<Scope>,
}

/// The tables of a lowered body.
pub struct LoweredBodyParts {
    pub locals: Vec<Local>,
    pub projections: Vec<ProjectionPath>,
    pub drop_plans: Vec<DropPlan>,
    pub blocks: Vec<BasicBlock>,
    pub loop_regions: Vec<LoopRegion>,
    pub loans: Vec<Loan>,
    pub allocation_regions: Vec<AllocationRegion>,
    pub scopes: Vec<Scope>,
}

impl LoweringContext {
    /// The local that holds the body's result.
    pub fn return_local(&self) -> (local: LocalId)
        ensures
            local == LocalId::at(0),
    {
        LocalId::from_index(0)
    }

    /// A context with the given locals and plans, no projections or loans,
    /// the root scope `root` as the only scope, and one open block in it.
    pub fn new(
        locals: Vec<Local>,
        locals_by_symbol: Vec<(LocalSymbolId, LocalId)>,
        drop_plans: Vec<DropPlan>,
        root_scope: ScopeId,
        root: Scope,
    ) -> (context: Self)
        requires
            root_scope@ == 0,
        ensures
            context.locals@ == locals@,
            context.locals_by_symbol@ == locals_by_symbol@,
            context.projections@.len() == 0,
            context.drop_plans@ == drop_plans@,
            context.control_flow.pending() == seq![PendingView::fresh(root_scope)],
            context.control_flow.open_block() == Some(crate::ids::BasicBlockId::at(0)),
            context.control_flow.wf(),
            context.loans@.len() == 0,
            context.allocation_regions@.len() == 0,
            context.loop_regions@.len() == 0,
            context.scopes@ == seq![root],
    {
        LoweringContext {
            locals,
            locals_by_symbol,
            projections: Vec::new(),
            drop_plans,
            control_flow: ControlFlowBuilder::new(root_scope),
            loans: Vec::new(),
            loop_regions: Vec::new(),
            allocation_regions: Vec::new(),
            scopes: vec![root],
        }
    }

    /// The local bound to `symbol`, if any.
    pub fn local_of_symbol(&self, symbol: LocalSymbolId) -> (local: Option<LocalId>)
        ensures
            local == bound_local(self.locals_by_symbol@, symbol),
    {
        let mut remaining: usize = self.locals_by_symbol.len();
        assert(self.locals_by_symbol@.subrange(0, remaining as int) =~= self.locals_by_symbol@);
        while remaining > 0
            invariant
                remaining <= self.locals_by_symbol@.len(),
                bound_local(self.locals_by_symbol@, symbol) == bound_local(
                    self.locals_by_symbol@.subrange(0, remaining as int),
                    symbol,
                ),
            decreases remaining,
        {
            let ghost rest = self.locals_by_symbol@.subrange(0, remaining as int);
            let (bound, local) = self.locals_by_symbol[remaining - 1];
            if bound == symbol {
                proof {
                    assert(rest.last() == self.locals_by_symbol@[remaining - 1]);
                }
                return Some(local);
            }
            proof {
                assert(rest.drop_last() =~= self.locals_by_symbol@.subrange(0, remaining - 1));
            }
            remaining = remaining - 1;
        }
        None
    }

    /// Adds a scope nested in `parent` and returns its identity.
    pub fn child_scope(&mut self, parent: ScopeId, span: ByteSpan) -> (scope: ScopeId)
        ensures
            scope == ScopeId::at(old(self).scopes@.len() as int),
            final(self).scopes@ == old(self).scopes@.push(Scope { parent: Some(parent), span }),
            final(self).locals == old(self).locals,
            final(self).locals_by_symbol == old(self).locals_by_symbol,
            final(self).projections == old(self).projections,
            final(self).drop_plans == old(self).drop_plans,
            final(self).control_flow == old(self).control_flow,
            final(self).loans == old(self).loans,
            final(self).allocation_regions == old(self).allocation_regions,
            final(self).loop_regions == old(self).loop_regions,
    {
        let scope = ScopeId::from_index(self.scopes.len());
        self.scopes.push(Scope::child(parent, span));
        scope
    }

    /// The aggregate temporary of type `ty` in `scope`: copied where type
    /// checking says values of `ty` are copied, else moved and destroyed by
    /// the plan built for `ty`. Fails with `MissingTypedExpression` for a
    /// type the model does not know, and with `UnsupportedClaimedExpression`
    /// for a moved type that no plan destroys; no local is added then.
    pub fn aggregate_temporary(
        &mut self,
        ty: TyId,
        origin: LocalOrigin,
        scope: ScopeId,
        resolved: &ResolveModel,
    ) -> (result: Result<LocalId, BuildError>)
        requires
            resolved.wf(),
        ensures
            final(self).locals_by_symbol == old(self).locals_by_symbol,
            final(self).projections == old(self).projections,
            final(self).control_flow == old(self).control_flow,
            final(self).loans == old(self).loans,
            final(self).allocation_regions == old(self).allocation_regions,
            final(self).loop_regions == old(self).loop_regions,
            final(self).scopes == old(self).scopes,
            !resolved.knows(ty) ==> {
                &&& result == Err::<LocalId, BuildError>(BuildError::MissingTypedExpression)
                &&& final(self).locals == old(self).locals
                &&& final(self).drop_plans == old(self).drop_plans
            },
            resolved.knows(ty) && resolved.is_copy(ty) ==> {
                &&& result == Ok::<LocalId, BuildError>(LocalId::at(old(self).locals@.len() as int))
                &&& final(self).locals@ == old(self).locals@.push(
                    aggregate_local(ty, OwnershipKind::Copy, origin, scope, None),
                )
                &&& final(self).drop_plans == old(self).drop_plans
            },
            resolved.knows(ty) && !resolved.is_copy(ty) ==> exists|plan: Option<DropPlanId>|
                {
                    &&& build_outcome(
                        *resolved,
                        ty,
                        Seq::empty(),
                        plan,
                        old(self).drop_plans@,
                        final(self).drop_plans@,
                    )
                    &&& match plan {
                        Some(plan) => {
                            &&& result == Ok::<LocalId, BuildError>(
                                LocalId::at(old(self).locals@.len() as int),
                            )
                            &&& final(self).locals@ == old(self).locals@.push(
                                aggregate_local(ty, OwnershipKind::Move, origin, scope, Some(plan)),
                            )
                        },
                        None => {
                            &&& result == Err::<LocalId, BuildError>(
                                BuildError::UnsupportedClaimedExpression,
                            )
                            &&& final(self).locals == old(self).locals
                        },
                    }
                },
    {
        if !(ty.index() < resolved.types.len()) {
            return Err(BuildError::MissingTypedExpression);
        }
        let copy = resolved.type_is_copy(ty);
        let ownership = if copy {
            OwnershipKind::Copy
        } else {
            OwnershipKind::Move
        };
        let mut local = Local::aggregate(ty, ownership, LocalStorage::Local, origin, scope);
        let ghost plans_before = self.drop_plans@;
        let ghost mut built: Option<DropPlanId> = None;
        if !copy {
            let plan = build(ty, resolved, &mut self.drop_plans);
            proof {
                built = plan;
            }
            match plan {
                Some(plan) => {
                    local = local.with_drop_plan(plan);
                },
                None => {
                    proof {
                        assert(build_outcome(*resolved, ty, Seq::empty(), built, plans_before, self.drop_plans@));
                    }
                    return Err(BuildError::UnsupportedClaimedExpression);
                },
            }
        }
        let id = LocalId::from_index(self.locals.len());
        self.locals.push(local);
        proof {
            if !copy {
                assert(build_outcome(*resolved, ty, Seq::empty(), built, plans_before, self.drop_plans@));
            }
        }
        Ok(id)
    }

    /// The tables built, with the control flow finished.
    pub fn finish(self) -> (parts: Result<LoweredBodyParts, BuildError>)
        ensures
            match parts {
                Ok(parts) => {
                    &&& self.control_flow.finish_error() is None
                    &&& self.control_flow.finished_as(parts.blocks@)
                    &&& parts.locals == self.locals
                    &&& parts.projections == self.projections
                    &&& parts.drop_plans == self.drop_plans
                    &&& parts.loans == self.loans
                    &&& parts.allocation_regions == self.allocation_regions
                    &&& parts.loop_regions == self.loop_regions
                    &&& parts.scopes == self.scopes
                },
                Err(error) => self.control_flow.finish_error() == Some(error),
            },
    {
        let blocks = match self.control_flow.finish() {
            Ok(blocks) => blocks,
            Err(error) => return Err(error),
        };
        Ok(
            LoweredBodyParts {
                locals: self.locals,
                projections: self.projections,
                drop_plans: self.drop_plans,
                blocks,
                loop_regions: self.loop_regions,
                loans: self.loans,
                allocation_regions: self.allocation_regions,
                scopes: self.scopes,
            },
        )
    }
}

} // verus!
