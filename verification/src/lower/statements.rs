//! Statement lowering: the control flow of loops, `while` loops,
//! conditionals, `break` and `continue`, built block by block.

use crate::ids::{BasicBlockId, ScopeId};
use crate::locals::ScalarType;
use crate::lower::body_builder::PendingView;
use crate::lower::context::{bound_local, LoweringContext};
use crate::lower::coverage::{
    lemma_block_statements_depth, lemma_scalar_depth_bound, scalar_linear_block_statements,
    scalar_loop_block_statements, scalars_depth, stmt_depth, block_depth, block_statements, ScalarStatement,
};
use crate::lower::syntax::{Block, Expr, IfStmt, LoopStmt, Stmt, WhileStmt};
use crate::lower::BuildError;
use crate::model::{Constant, LoopRegion, Operand, Place, Terminator};
use crate::semantic::TyId;
use vstd::prelude::*;

verus! {

/// Where `break` and `continue` go inside a loop body.
#[derive(Debug, Clone, Copy, PartialEq, Eq, Structural)]
pub struct LoopTargets {
    pub break_target: BasicBlockId,
    pub continue_target: BasicBlockId,
}

/// Lowers statements into the blocks of a lowering context.
pub struct StatementLowerer {
    /// The identity of the checked type `bool`, where the program has it.
    pub bool_ty: Option<TyId>,
}

/// Every block that was closed in `before` is still there, unchanged, in
/// `after`: lowering only fills blocks it opens.
pub open spec fn keeps_closed(before: Seq<PendingView>, after: Seq<PendingView>) -> bool {
    forall|i: int|
        0 <= i < before.len() && (#[trigger] before[i]).terminator is Some ==> i < after.len() && after[i]
            == before[i]
}

/// Keeping closed blocks is transitive.
pub proof fn lemma_keeps_closed(a: Seq<PendingView>, b: Seq<PendingView>, c: Seq<PendingView>)
    ensures
        keeps_closed(a, a),
        keeps_closed(a, b) && keeps_closed(b, c) ==> keeps_closed(a, c),
{
    if keeps_closed(a, b) && keeps_closed(b, c) {
        assert forall|i: int| 0 <= i < a.len() && (#[trigger] a[i]).terminator is Some implies i < c.len()
            && c[i] == a[i] by {
            assert(b[i] == a[i]);
        }
    }
}

/// What a statement lowering leaves unchanged of the context, and what it
/// only extends: the locals and their tables stay, scopes and loop regions
/// are only added, and closed blocks are kept.
pub open spec fn lowered_from(old: LoweringContext, new: LoweringContext) -> bool {
    &&& new.locals == old.locals
    &&& new.locals_by_symbol == old.locals_by_symbol
    &&& new.projections == old.projections
    &&& new.drop_plans == old.drop_plans
    &&& new.loans == old.loans
    &&& new.allocation_regions == old.allocation_regions
    &&& old.scopes@.len() <= new.scopes@.len()
    &&& new.scopes@.subrange(0, old.scopes@.len() as int) == old.scopes@
    &&& old.loop_regions@.len() <= new.loop_regions@.len()
    &&& new.loop_regions@.subrange(0, old.loop_regions@.len() as int) == old.loop_regions@
    &&& keeps_closed(old.control_flow.pending(), new.control_flow.pending())
    &&& new.control_flow.wf()
}

/// A block closed before a lowering is kept by it, and loop regions
/// recorded before it stay.
proof fn lemma_kept(before: LoweringContext, after: LoweringContext, index: int)
    requires
        lowered_from(before, after),
    ensures
        0 <= index < before.control_flow.pending().len() && before.control_flow.pending()[index].terminator is Some
            ==> index < after.control_flow.pending().len() && after.control_flow.pending()[index]
            == before.control_flow.pending()[index],
        forall|r: int| 0 <= r < before.loop_regions@.len() ==> after.loop_regions@[r] == before.loop_regions@[r],
{
    assert forall|r: int| 0 <= r < before.loop_regions@.len() implies after.loop_regions@[r] == before.loop_regions@[r] by {
        assert(after.loop_regions@.subrange(0, before.loop_regions@.len() as int)[r] == after.loop_regions@[r]);
    }
}

/// Lowering from a context to itself changes nothing, and lowerings chain.
pub proof fn lemma_lowered_from(a: LoweringContext, b: LoweringContext, c: LoweringContext)
    requires
        a.control_flow.wf(),
    ensures
        lowered_from(a, a),
        lowered_from(a, b) && lowered_from(b, c) ==> lowered_from(a, c),
{
    lemma_keeps_closed(a.control_flow.pending(), b.control_flow.pending(), c.control_flow.pending());
    assert(a.scopes@.subrange(0, a.scopes@.len() as int) =~= a.scopes@);
    assert(a.loop_regions@.subrange(0, a.loop_regions@.len() as int) =~= a.loop_regions@);
    if lowered_from(a, b) && lowered_from(b, c) {
        assert(c.scopes@.subrange(0, a.scopes@.len() as int) =~= b.scopes@.subrange(
            0,
            a.scopes@.len() as int,
        ));
        assert(c.loop_regions@.subrange(0, a.loop_regions@.len() as int) =~= b.loop_regions@.subrange(
            0,
            a.loop_regions@.len() as int,
        ));
    }
}

/// Whether one of `statements` may leave the block it is in: a `break`, a
/// `continue`, or a conditional whose branches may.
pub open spec fn may_leave(statements: Seq<ScalarStatement>) -> bool {
    exists|i: int|
        0 <= i < statements.len() && ((#[trigger] statements[i]) is Break || statements[i] is Continue
            || statements[i] is If)
}

/// Some block other than `except` that was not closed in `before` is
/// closed in `after` by a jump to `target`.
pub open spec fn jumps_to(before: Seq<PendingView>, after: Seq<PendingView>, target: BasicBlockId, except: int) -> bool {
    exists|b: int|
        0 <= b < after.len() && b != except && !(b < before.len() && before[b].terminator is Some) && (
        #[trigger] after[b]).terminator == Some(Terminator::Goto { target })
}

/// A loop body goes round the loop: the block that ends it jumps to
/// `target`, unless one of its statements may leave it.
pub open spec fn goes_round(
    before: Seq<PendingView>,
    after: Seq<PendingView>,
    body: &Block,
    target: BasicBlockId,
    except: int,
) -> bool {
    jumps_to(before, after, target, except) || (block_statements(body, true, true) matches Some(
        statements,
    ) && may_leave(statements))
}

/// A jump recorded between two points stays through lowering that keeps
/// closed blocks.
proof fn lemma_jumps_kept(
    start: Seq<PendingView>,
    mid: Seq<PendingView>,
    after: Seq<PendingView>,
    target: BasicBlockId,
    except: int,
)
    requires
        jumps_to(start, mid, target, except),
        keeps_closed(mid, after),
    ensures
        jumps_to(start, after, target, except),
{
    let b = choose|b: int|
        0 <= b < mid.len() && b != except && !(b < start.len() && start[b].terminator is Some) && (
        #[trigger] mid[b]).terminator == Some(Terminator::Goto { target });
    assert(after[b] == mid[b]);
}

/// A jump made after a later point, from a block other than one closed by
/// then, was made after an earlier point too.
proof fn lemma_jumps_from(
    start: Seq<PendingView>,
    mid: Seq<PendingView>,
    after: Seq<PendingView>,
    target: BasicBlockId,
    entry: int,
)
    requires
        keeps_closed(start, mid),
        0 <= entry < mid.len(),
        mid[entry].terminator is Some,
        jumps_to(mid, after, target, -1),
    ensures
        jumps_to(start, after, target, entry),
{
    let b = choose|b: int|
        0 <= b < after.len() && b != -1 && !(b < mid.len() && mid[b].terminator is Some) && (
        #[trigger] after[b]).terminator == Some(Terminator::Goto { target });
    if b < start.len() && start[b].terminator is Some {
        assert(mid[b] == start[b]);
    }
    assert(b != entry);
}

/// A loop body that goes round from a later point goes round from an
/// earlier one, past a block closed in between.
proof fn lemma_goes_round_from(
    start: Seq<PendingView>,
    mid: Seq<PendingView>,
    after: Seq<PendingView>,
    body: &Block,
    target: BasicBlockId,
    entry: int,
)
    requires
        keeps_closed(start, mid),
        0 <= entry < mid.len(),
        mid[entry].terminator is Some,
        goes_round(mid, after, body, target, -1),
    ensures
        goes_round(start, after, body, target, entry),
{
    if jumps_to(mid, after, target, -1) {
        let b = choose|b: int|
            0 <= b < after.len() && b != -1 && !(b < mid.len() && mid[b].terminator is Some) && (
            #[trigger] after[b]).terminator == Some(Terminator::Goto { target });
        if b < start.len() && start[b].terminator is Some {
            assert(mid[b] == start[b]);
        }
        assert(b != entry);
        assert(jumps_to(start, after, target, entry));
    }
}

/// The operand a condition lowers to: a copy of the local bound to the
/// symbol it names. Conditions of other forms are not lowered.
pub open spec fn condition_operand(context: LoweringContext, condition: Expr) -> Result<Operand, BuildError> {
    match condition {
        Expr::Identifier(symbol) => match bound_local(context.locals_by_symbol@, symbol) {
            Some(local) => Ok(Operand::Copy(Place { local, projection: None })),
            None => Err(BuildError::MissingLocalSymbol),
        },
        _ => Err(BuildError::UnsupportedClaimedExpression),
    }
}

/// How deeply blocks nest in the branches of `statement`.
pub open spec fn branches_depth(statement: IfStmt) -> nat {
    let then_depth = block_depth(statement.then_block);
    let else_depth = match statement.else_block {
        Some(block) => block_depth(block),
        None => 0,
    };
    if then_depth < else_depth {
        else_depth
    } else {
        then_depth
    }
}

/// Lowers a condition to an operand.
fn lower_condition(context: &LoweringContext, condition: &Expr) -> (operand: Result<Operand, BuildError>)
    ensures
        operand == condition_operand(*context, *condition),
{
    match condition {
        Expr::Identifier(symbol) => match context.local_of_symbol(*symbol) {
            Some(local) => Ok(Operand::Copy(Place::local(local))),
            None => Err(BuildError::MissingLocalSymbol),
        },
        _ => Err(BuildError::UnsupportedClaimedExpression),
    }
}

impl StatementLowerer {
    /// Lowers the statements of a body outside any loop.
    pub fn lower(
        &self,
        context: &mut LoweringContext,
        statements: &[ScalarStatement],
        scope: ScopeId,
    ) -> (exits: Result<bool, BuildError>)
        requires
            old(context).control_flow.wf(),
            old(context).control_flow.open_block() is Some,
        ensures
            lowered_from(*old(context), *final(context)),
            exits == Ok::<bool, BuildError>(true) ==> final(context).control_flow.open_block() is None,
            exits == Ok::<bool, BuildError>(false) ==> final(context).control_flow.open_block() is Some,
            statements@.len() == 0 ==> exits == Ok::<bool, BuildError>(false) && *final(context)
                == *old(context),
    {
        self.lower_in_context(context, statements, None, scope)
    }

    /// Lowers `statements` in order into the open block, inside `scope`;
    /// `loop_targets` are the targets of `break` and `continue` inside a
    /// loop. Returns whether the statements left the block: then no block
    /// is open; else the block that follows them is.
    pub fn lower_in_context(
        &self,
        context: &mut LoweringContext,
        statements: &[ScalarStatement],
        loop_targets: Option<LoopTargets>,
        scope: ScopeId,
    ) -> (exits: Result<bool, BuildError>)
        requires
            old(context).control_flow.wf(),
            old(context).control_flow.open_block() is Some,
        ensures
            lowered_from(*old(context), *final(context)),
            exits == Ok::<bool, BuildError>(true) ==> final(context).control_flow.open_block() is None,
            exits == Ok::<bool, BuildError>(false) ==> final(context).control_flow.open_block() is Some,
            statements@.len() == 0 ==> exits == Ok::<bool, BuildError>(false) && *final(context)
                == *old(context),
            exits == Ok::<bool, BuildError>(true) ==> may_leave(statements@),
            statements@.len() > 0 && loop_targets is Some ==> ({
                let entry = old(context).control_flow.open_index()->0;
                let targets = loop_targets->0;
                &&& statements@[0] is Break ==> exits == Ok::<bool, BuildError>(true)
                    && final(context).control_flow.pending()[entry].terminator == Some(
                    Terminator::Goto { target: targets.break_target },
                )
                &&& statements@[0] is Continue ==> exits == Ok::<bool, BuildError>(true)
                    && final(context).control_flow.pending()[entry].terminator == Some(
                    Terminator::Goto { target: targets.continue_target },
                )
            }),
            statements@.len() > 0 && loop_targets is None && (statements@[0] is Break || statements@[0] is Continue)
                ==> exits == Err::<bool, BuildError>(BuildError::UnsupportedClaimedExpression),
        decreases scalars_depth(statements@), 1nat,
    {
        proof {
            lemma_lowered_from(*context, *context, *context);
        }
        let mut index: usize = 0;
        while index < statements.len()
            invariant
                index <= statements@.len(),
                old(context).control_flow.wf(),
                lowered_from(*old(context), *context),
                context.control_flow.open_block() is Some,
                index == 0 ==> *context == *old(context),
                index > 0 ==> !(statements@[0] is Break || statements@[0] is Continue),
            decreases statements@.len() - index,
        {
            let ghost before = *context;
            proof {
                lemma_scalar_depth_bound(statements@, index as int);
                lemma_lowered_from(before, before, before);
            }
            let step: Result<bool, BuildError> = match statements[index] {
                ScalarStatement::Break => match loop_targets {
                    Some(targets) => match close(context, Terminator::Goto { target: targets.break_target }, Ghost(before)) {
                        Ok(()) => Ok(true),
                        Err(error) => Err(error),
                    },
                    None => Err(BuildError::UnsupportedClaimedExpression),
                },
                ScalarStatement::Continue => match loop_targets {
                    Some(targets) => match close(context, Terminator::Goto { target: targets.continue_target }, Ghost(before)) {
                        Ok(()) => Ok(true),
                        Err(error) => Err(error),
                    },
                    None => Err(BuildError::UnsupportedClaimedExpression),
                },
                ScalarStatement::Loop(statement) => self.lower_loop(context, statement, scope),
                ScalarStatement::While(statement) => match self.lower_while(context, statement, scope) {
                    Ok(()) => Ok(false),
                    Err(error) => Err(error),
                },
                ScalarStatement::If(statement) => self.lower_if(context, statement, loop_targets, scope),
                _ => Err(BuildError::UnsupportedClaimedExpression),
            };
            proof {
                lemma_lowered_from(*old(context), before, *context);
            }
            let exits = match step {
                Ok(exits) => exits,
                Err(error) => return Err(error),
            };
            if exits {
                proof {
                    assert(statements@[index as int] is Break || statements@[index as int] is Continue
                        || statements@[index as int] is If);
                }
                return Ok(true);
            }
            index = index + 1;
        }
        Ok(false)
    }

    /// Lowers `loop { body }`: a header that always enters the body, the
    /// body, whose end goes back to the header, and an exit reached only by
    /// `break`; the exit is open afterwards.
    pub fn lower_loop(
        &self,
        context: &mut LoweringContext,
        statement: &LoopStmt,
        parent_scope: ScopeId,
    ) -> (exits: Result<bool, BuildError>)
        requires
            old(context).control_flow.wf(),
        ensures
            lowered_from(*old(context), *final(context)),
            exits is Ok ==> exits == Ok::<bool, BuildError>(false) && final(context).control_flow.open_block() is Some,
            exits is Ok ==> old(context).control_flow.open_index() is Some && ({
                let entry = old(context).control_flow.open_index()->0;
                let first = old(context).control_flow.pending().len() as int;
                let header = BasicBlockId::at(first);
                let pending = final(context).control_flow.pending();
                &&& pending[entry].terminator == Some(Terminator::Goto { target: header })
                &&& pending[header@ as int].terminator == Some(
                    Terminator::Switch {
                        condition: Operand::Constant(
                            Constant { ty: self.bool_ty->0, scalar: ScalarType::Bool, value: 1 },
                        ),
                        then_target: BasicBlockId::at(first + 1),
                        else_target: BasicBlockId::at(first + 2),
                        join_target: None,
                    },
                )
                &&& final(context).loop_regions@[old(context).loop_regions@.len() as int] == LoopRegion {
                    header,
                    condition: header,
                    body: BasicBlockId::at(first + 1),
                    continue_target: header,
                    exit: BasicBlockId::at(first + 2),
                }
            }),
            exits is Ok ==> final(context).control_flow.open_block() == Some(
                BasicBlockId::at(old(context).control_flow.pending().len() + 2int),
            ),
            exits is Ok ==> goes_round(
                old(context).control_flow.pending(),
                final(context).control_flow.pending(),
                &statement.body,
                BasicBlockId::at(old(context).control_flow.pending().len() as int),
                old(context).control_flow.open_index()->0,
            ),
        decreases stmt_depth(Stmt::Loop(*statement)), 0nat,
    {
        let ghost start = *context;
        proof {
            lemma_lowered_from(start, start, start);
        }
        let loop_scope = enter_scope(context, parent_scope, statement.span, Ghost(start));
        let body_scope = enter_scope(context, loop_scope, statement.body.span, Ghost(start));
        let bool_ty = match self.bool_ty {
            Some(ty) => ty,
            None => return Err(BuildError::MissingTypedExpression),
        };
        let header = reserve(context, loop_scope, Ghost(start));
        let body = reserve(context, body_scope, Ghost(start));
        let exit = reserve(context, parent_scope, Ghost(start));
        match close(context, Terminator::Goto { target: header }, Ghost(start)) {
            Ok(()) => {},
            Err(error) => return Err(error),
        }
        match open(context, header, Ghost(start)) {
            Ok(()) => {},
            Err(error) => return Err(error),
        }
        let always = Operand::Constant(Constant { ty: bool_ty, scalar: ScalarType::Bool, value: 1 });
        let switch = Terminator::Switch { condition: always, then_target: body, else_target: exit, join_target: None };
        match close(context, switch, Ghost(start)) {
            Ok(()) => {},
            Err(error) => return Err(error),
        }
        let region = LoopRegion { header, condition: header, body, continue_target: header, exit };
        add_loop_region(context, region, Ghost(start));
        let ghost mid = *context;
        let lowered = self.lower_loop_body(
            context,
            body,
            &statement.body,
            LoopTargets { break_target: exit, continue_target: header },
            body_scope,
        );
        proof {
            lemma_lowered_from(start, mid, *context);
            lemma_kept(mid, *context, start.control_flow.open_index()->0);
            lemma_kept(mid, *context, header@ as int);
            if lowered is Ok {
                lemma_goes_round_from(
                    start.control_flow.pending(),
                    mid.control_flow.pending(),
                    context.control_flow.pending(),
                    &statement.body,
                    header,
                    start.control_flow.open_index()->0,
                );
            }
            assert(context.loop_regions@[start.loop_regions@.len() as int] == mid.loop_regions@[start.loop_regions@.len() as int]);
        }
        match lowered {
            Ok(()) => Ok(false),
            Err(error) => Err(error),
        }
    }

    /// Lowers the body of a loop into `body_target`: its end continues the
    /// loop, and the exit is open afterwards.
    fn lower_loop_body(
        &self,
        context: &mut LoweringContext,
        body_target: BasicBlockId,
        body: &Block,
        targets: LoopTargets,
        body_scope: ScopeId,
    ) -> (lowered: Result<(), BuildError>)
        requires
            old(context).control_flow.wf(),
        ensures
            lowered_from(*old(context), *final(context)),
            lowered is Ok ==> final(context).control_flow.open_block() is Some,
            lowered is Ok ==> goes_round(
                old(context).control_flow.pending(),
                final(context).control_flow.pending(),
                body,
                targets.continue_target,
                -1,
            ),
            lowered is Ok ==> final(context).control_flow.open_block() == Some(targets.break_target),
        decreases block_depth(*body), 2nat,
    {
        let ghost start = *context;
        proof {
            lemma_lowered_from(start, start, start);
        }
        match open(context, body_target, Ghost(start)) {
            Ok(()) => {},
            Err(error) => return Err(error),
        }
        let body_statements = match scalar_loop_block_statements(body) {
            Some(statements) => statements,
            None => return Err(BuildError::UnsupportedClaimedExpression),
        };
        let body_slice = body_statements.as_slice();
        assert(body_slice@ == body_statements@);
        proof {
            lemma_block_statements_depth(*body);
        }
        let ghost inner = *context;
        let lowered = self.lower_in_context(context, body_slice, Some(targets), body_scope);
        proof {
            lemma_lowered_from(start, inner, *context);
        }
        let exits_body = match lowered {
            Ok(exits) => exits,
            Err(error) => return Err(error),
        };
        let ghost end_at = context.control_flow.open_index();
        let ghost before_close = context.control_flow.pending();
        if !exits_body {
            match close(context, Terminator::Goto { target: targets.continue_target }, Ghost(start)) {
                Ok(()) => {},
                Err(error) => return Err(error),
            }
            proof {
                let b = end_at->0;
                assert(before_close[b].terminator is None);
                if b < start.control_flow.pending().len() && start.control_flow.pending()[b].terminator is Some {
                    assert(before_close[b] == start.control_flow.pending()[b]);
                }
            }
        }
        let ghost closed = context.control_flow.pending();
        let opened = open(context, targets.break_target, Ghost(start));
        proof {
            if exits_body {
                assert(body_statements@ == body_slice@);
            } else {
                let b = end_at->0;
                assert(context.control_flow.pending()[b] == closed[b]);
                assert(jumps_to(start.control_flow.pending(), context.control_flow.pending(), targets.continue_target, -1));
            }
        }
        opened
    }

    /// Lowers `while condition { body }`: a condition block that enters the
    /// body or leaves to the exit, the body, whose end goes back to the
    /// condition; the exit is open afterwards.
    pub fn lower_while(
        &self,
        context: &mut LoweringContext,
        statement: &WhileStmt,
        parent_scope: ScopeId,
    ) -> (lowered: Result<(), BuildError>)
        requires
            old(context).control_flow.wf(),
        ensures
            lowered_from(*old(context), *final(context)),
            lowered is Ok ==> final(context).control_flow.open_block() is Some,
            lowered is Ok ==> old(context).control_flow.open_index() is Some && ({
                let entry = old(context).control_flow.open_index()->0;
                let first = old(context).control_flow.pending().len() as int;
                let header = BasicBlockId::at(first);
                let pending = final(context).control_flow.pending();
                &&& pending[entry].terminator == Some(Terminator::Goto { target: header })
                &&& pending[header@ as int].terminator == Some(
                    Terminator::Switch {
                        condition: condition_operand(*old(context), statement.condition)->Ok_0,
                        then_target: BasicBlockId::at(first + 1),
                        else_target: BasicBlockId::at(first + 2),
                        join_target: None,
                    },
                )
                &&& final(context).loop_regions@[old(context).loop_regions@.len() as int] == LoopRegion {
                    header,
                    condition: header,
                    body: BasicBlockId::at(first + 1),
                    continue_target: header,
                    exit: BasicBlockId::at(first + 2),
                }
            }),
            lowered is Ok ==> final(context).control_flow.open_block() == Some(
                BasicBlockId::at(old(context).control_flow.pending().len() + 2int),
            ),
            lowered is Ok ==> goes_round(
                old(context).control_flow.pending(),
                final(context).control_flow.pending(),
                &statement.body,
                BasicBlockId::at(old(context).control_flow.pending().len() as int),
                old(context).control_flow.open_index()->0,
            ),
        decreases stmt_depth(Stmt::While(*statement)), 0nat,
    {
        let ghost start = *context;
        proof {
            lemma_lowered_from(start, start, start);
        }
        let body_scope = enter_scope(context, parent_scope, statement.body.span, Ghost(start));
        let condition_target = reserve(context, parent_scope, Ghost(start));
        let body_target = reserve(context, body_scope, Ghost(start));
        let exit_target = reserve(context, parent_scope, Ghost(start));
        match close(context, Terminator::Goto { target: condition_target }, Ghost(start)) {
            Ok(()) => {},
            Err(error) => return Err(error),
        }
        match open(context, condition_target, Ghost(start)) {
            Ok(()) => {},
            Err(error) => return Err(error),
        }
        let condition = match lower_condition(context, &statement.condition) {
            Ok(condition) => condition,
            Err(error) => return Err(error),
        };
        let condition_block = match context.control_flow.current_block() {
            Ok(block) => block,
            Err(error) => return Err(error),
        };
        let switch = Terminator::Switch {
            condition,
            then_target: body_target,
            else_target: exit_target,
            join_target: None,
        };
        match close(context, switch, Ghost(start)) {
            Ok(()) => {},
            Err(error) => return Err(error),
        }
        let region = LoopRegion {
            header: condition_target,
            condition: condition_block,
            body: body_target,
            continue_target: condition_target,
            exit: exit_target,
        };
        add_loop_region(context, region, Ghost(start));
        let ghost mid = *context;
        let lowered = self.lower_loop_body(
            context,
            body_target,
            &statement.body,
            LoopTargets { break_target: exit_target, continue_target: condition_target },
            body_scope,
        );
        proof {
            lemma_lowered_from(start, mid, *context);
            lemma_kept(mid, *context, start.control_flow.open_index()->0);
            lemma_kept(mid, *context, condition_target@ as int);
            if lowered is Ok {
                lemma_goes_round_from(
                    start.control_flow.pending(),
                    mid.control_flow.pending(),
                    context.control_flow.pending(),
                    &statement.body,
                    condition_target,
                    start.control_flow.open_index()->0,
                );
            }
            assert(context.loop_regions@[start.loop_regions@.len() as int] == mid.loop_regions@[start.loop_regions@.len() as int]);
        }
        lowered
    }

    /// Lowers `if condition { then } else { otherwise }`: a switch on the
    /// condition into the two branches, which meet again in a join block
    /// that is open afterwards. Where both branches leave, no join block is
    /// kept, the switch records none, and the statement leaves too.
    pub fn lower_if(
        &self,
        context: &mut LoweringContext,
        statement: &IfStmt,
        loop_targets: Option<LoopTargets>,
        parent_scope: ScopeId,
    ) -> (exits: Result<bool, BuildError>)
        requires
            old(context).control_flow.wf(),
        ensures
            lowered_from(*old(context), *final(context)),
            exits == Ok::<bool, BuildError>(true) ==> final(context).control_flow.open_block() is None,
            exits == Ok::<bool, BuildError>(false) ==> final(context).control_flow.open_block() is Some,
            exits is Ok ==> old(context).control_flow.open_index() is Some && ({
                let entry = old(context).control_flow.open_index()->0;
                let first = old(context).control_flow.pending().len() as int;
                final(context).control_flow.pending()[entry].terminator == Some(
                    Terminator::Switch {
                        condition: condition_operand(*old(context), statement.condition)->Ok_0,
                        then_target: BasicBlockId::at(first),
                        else_target: BasicBlockId::at(first + 1),
                        join_target: if exits == Ok::<bool, BuildError>(true) {
                            None
                        } else {
                            Some(BasicBlockId::at(first + 2))
                        },
                    },
                )
            }),
            exits == Ok::<bool, BuildError>(false) ==> final(context).control_flow.open_block() == Some(
                BasicBlockId::at(old(context).control_flow.pending().len() + 2int),
            ),
            exits == Ok::<bool, BuildError>(false) ==> jumps_to(
                old(context).control_flow.pending(),
                final(context).control_flow.pending(),
                BasicBlockId::at(old(context).control_flow.pending().len() + 2int),
                old(context).control_flow.open_index()->0,
            ),
        decreases stmt_depth(Stmt::If(*statement)), 0nat,
    {
        let ghost start = *context;
        proof {
            lemma_lowered_from(start, start, start);
        }
        let condition = match lower_condition(context, &statement.condition) {
            Ok(condition) => condition,
            Err(error) => return Err(error),
        };
        let then_scope = enter_scope(context, parent_scope, statement.then_block.span, Ghost(start));
        let else_span = match &statement.else_block {
            Some(block) => block.span,
            None => statement.span,
        };
        let else_scope = enter_scope(context, parent_scope, else_span, Ghost(start));
        let then_target = reserve(context, then_scope, Ghost(start));
        let else_target = reserve(context, else_scope, Ghost(start));
        let join_target = reserve(context, parent_scope, Ghost(start));
        let switch_block = match context.control_flow.current_block() {
            Ok(block) => block,
            Err(error) => return Err(error),
        };
        proof {
            let now = context.control_flow.pending();
            if switch_block@ < start.control_flow.pending().len() && start.control_flow.pending()[switch_block@ as int].terminator is Some {
                assert(now[switch_block@ as int] == start.control_flow.pending()[switch_block@ as int]);
            }
        }
        let switch = Terminator::Switch {
            condition,
            then_target,
            else_target,
            join_target: Some(join_target),
        };
        match close(context, switch, Ghost(start)) {
            Ok(()) => {},
            Err(error) => return Err(error),
        }
        let ghost mid = *context;
        proof {
            lemma_lowered_from(mid, mid, mid);
        }
        let branches = self.lower_branches(
            context,
            statement,
            loop_targets,
            then_target,
            else_target,
            join_target,
            then_scope,
            else_scope,
        );
        proof {
            lemma_lowered_from(start, mid, *context);
            lemma_kept(mid, *context, switch_block@ as int);
        }
        let (then_exits, else_exits) = match branches {
            Ok(exits) => exits,
            Err(error) => return Err(error),
        };
        if then_exits && else_exits {
            match rejoin(context, switch_block, Ghost(start)) {
                Ok(()) => {},
                Err(error) => return Err(error),
            }
            match discard(context, join_target, Ghost(start)) {
                Ok(()) => {},
                Err(error) => return Err(error),
            }
            return Ok(true);
        }
        match open(context, join_target, Ghost(start)) {
            Ok(()) => {},
            Err(error) => return Err(error),
        }
        proof {
            lemma_jumps_from(
                start.control_flow.pending(),
                mid.control_flow.pending(),
                context.control_flow.pending(),
                join_target,
                start.control_flow.open_index()->0,
            );
        }
        Ok(false)
    }

    /// Lowers the two branches of a conditional into `then_target` and
    /// `else_target`; a branch that does not leave continues at
    /// `join_target`. Returns whether each branch leaves; no block is open
    /// afterwards.
    fn lower_branches(
        &self,
        context: &mut LoweringContext,
        statement: &IfStmt,
        loop_targets: Option<LoopTargets>,
        then_target: BasicBlockId,
        else_target: BasicBlockId,
        join_target: BasicBlockId,
        then_scope: ScopeId,
        else_scope: ScopeId,
    ) -> (exits: Result<(bool, bool), BuildError>)
        requires
            old(context).control_flow.wf(),
        ensures
            lowered_from(*old(context), *final(context)),
            exits is Ok ==> final(context).control_flow.open_block() is None,
            exits matches Ok((then_exits, else_exits)) ==> (!then_exits || !else_exits ==> jumps_to(
                old(context).control_flow.pending(),
                final(context).control_flow.pending(),
                join_target,
                -1,
            )),
        decreases branches_depth(*statement), 2nat,
    {
        let ghost start = *context;
        proof {
            lemma_lowered_from(start, start, start);
        }
        match open(context, then_target, Ghost(start)) {
            Ok(()) => {},
            Err(error) => return Err(error),
        }
        let in_loop = loop_targets.is_some();
        let then_statements = match scalar_linear_block_statements(&statement.then_block, in_loop) {
            Some(statements) => statements,
            None => return Err(BuildError::UnsupportedClaimedExpression),
        };
        let then_slice = then_statements.as_slice();
        assert(then_slice@ == then_statements@);
        proof {
            lemma_block_statements_depth(statement.then_block);
        }
        let ghost inner = *context;
        let lowered = self.lower_in_context(context, then_slice, loop_targets, then_scope);
        proof {
            lemma_lowered_from(start, inner, *context);
        }
        let then_exits = match lowered {
            Ok(exits) => exits,
            Err(error) => return Err(error),
        };
        if !then_exits {
            match close_jumping(context, join_target, Ghost(start)) {
                Ok(()) => {},
                Err(error) => return Err(error),
            }
        }
        let ghost then_end = context.control_flow.pending();
        match open(context, else_target, Ghost(start)) {
            Ok(()) => {},
            Err(error) => return Err(error),
        }
        let else_statements = match &statement.else_block {
            Some(block) => match scalar_linear_block_statements(block, in_loop) {
                Some(statements) => {
                    proof {
                        lemma_block_statements_depth(*block);
                    }
                    statements
                },
                None => return Err(BuildError::UnsupportedClaimedExpression),
            },
            None => Vec::new(),
        };
        let else_slice = else_statements.as_slice();
        assert(else_slice@ == else_statements@);
        let ghost inner = *context;
        let lowered = self.lower_in_context(context, else_slice, loop_targets, else_scope);
        proof {
            lemma_lowered_from(start, inner, *context);
        }
        let else_exits = match lowered {
            Ok(exits) => exits,
            Err(error) => return Err(error),
        };
        let ghost else_end = context.control_flow.pending();
        proof {
            lemma_keeps_closed(then_end, inner.control_flow.pending(), else_end);
        }
        if !else_exits {
            match close_jumping(context, join_target, Ghost(start)) {
                Ok(()) => {},
                Err(error) => return Err(error),
            }
        }
        proof {
            lemma_keeps_closed(then_end, else_end, context.control_flow.pending());
            if !then_exits {
                lemma_jumps_kept(
                    start.control_flow.pending(),
                    then_end,
                    context.control_flow.pending(),
                    join_target,
                    -1,
                );
            }
        }
        Ok((then_exits, else_exits))
    }
}

/// Records that the switch closing `block` has no join block.
fn rejoin(context: &mut LoweringContext, block: BasicBlockId, Ghost(start): Ghost<LoweringContext>) -> (rejoined: Result<(), BuildError>)
    requires
        lowered_from(start, *old(context)),
        !(block@ < start.control_flow.pending().len() && start.control_flow.pending()[block@ as int].terminator is Some),
    ensures
        lowered_from(start, *final(context)),
        final(context).control_flow.open_block() == old(context).control_flow.open_block(),
        block@ < old(context).control_flow.pending().len() ==> match old(context).control_flow.pending()[block@ as int].terminator {
            Some(Terminator::Switch { condition, then_target, else_target, join_target: _ }) => rejoined is Ok
                && final(context).control_flow.pending() == old(context).control_flow.pending().update(
                block@ as int,
                old(context).control_flow.pending()[block@ as int].with_terminator(
                    Terminator::Switch { condition, then_target, else_target, join_target: None },
                ),
            ),
            _ => true,
        },
{
    let ghost before = context.control_flow.pending();
    let rejoined = context.control_flow.set_switch_join(block, None);
    proof {
        let after = context.control_flow.pending();
        assert forall|i: int| 0 <= i < start.control_flow.pending().len() && (#[trigger] start.control_flow.pending()[i]).terminator is Some implies i
            < after.len() && after[i] == start.control_flow.pending()[i] by {
            assert(before[i] == start.control_flow.pending()[i]);
        }
    }
    rejoined
}

/// Drops the join block again, which must be the last block and unused.
fn discard(context: &mut LoweringContext, block: BasicBlockId, Ghost(start): Ghost<LoweringContext>) -> (discarded: Result<(), BuildError>)
    requires
        lowered_from(start, *old(context)),
    ensures
        lowered_from(start, *final(context)),
        final(context).control_flow.open_block() == old(context).control_flow.open_block(),
        discarded is Ok ==> final(context).control_flow.pending() == old(context).control_flow.pending().drop_last()
            && old(context).control_flow.pending()[old(context).control_flow.pending().len() - 1].terminator is None,
{
    let ghost before = context.control_flow.pending();
    let discarded = context.control_flow.discard_last_reserved_block(block);
    proof {
        let after = context.control_flow.pending();
        assert forall|i: int| 0 <= i < start.control_flow.pending().len() && (#[trigger] start.control_flow.pending()[i]).terminator is Some implies i
            < after.len() && after[i] == start.control_flow.pending()[i] by {
            assert(before[i] == start.control_flow.pending()[i]);
            if discarded is Ok {
                assert(before[block@ as int].terminator is None);
            }
        }
    }
    discarded
}

/// Adds a scope nested in `parent` to the context.
fn enter_scope(
    context: &mut LoweringContext,
    parent: ScopeId,
    span: crate::semantic::ByteSpan,
    Ghost(start): Ghost<LoweringContext>,
) -> (scope: ScopeId)
    requires
        lowered_from(start, *old(context)),
    ensures
        lowered_from(start, *final(context)),
        final(context).control_flow == old(context).control_flow,
        final(context).loop_regions == old(context).loop_regions,
{
    let ghost before = *context;
    let scope = context.child_scope(parent, span);
    proof {
        assert(context.scopes@.subrange(0, start.scopes@.len() as int) =~= before.scopes@.subrange(
            0,
            start.scopes@.len() as int,
        ));
    }
    scope
}

/// Reserves a fresh block of `scope`.
fn reserve(context: &mut LoweringContext, scope: ScopeId, Ghost(start): Ghost<LoweringContext>) -> (block: BasicBlockId)
    requires
        lowered_from(start, *old(context)),
    ensures
        lowered_from(start, *final(context)),
        block == BasicBlockId::at(old(context).control_flow.pending().len() as int),
        final(context).control_flow.pending() == old(context).control_flow.pending().push(
            PendingView::fresh(scope),
        ),
        final(context).control_flow.open_block() == old(context).control_flow.open_block(),
        final(context).loop_regions == old(context).loop_regions,
{
    let ghost before = context.control_flow.pending();
    let block = context.control_flow.reserve_block(scope);
    proof {
        let after = context.control_flow.pending();
        assert forall|i: int| 0 <= i < start.control_flow.pending().len() && (#[trigger] start.control_flow.pending()[i]).terminator is Some implies i
            < after.len() && after[i] == start.control_flow.pending()[i] by {
            assert(before[i] == start.control_flow.pending()[i]);
        }
    }
    block
}

/// Closes the open block with `terminator`.
fn close(context: &mut LoweringContext, terminator: Terminator, Ghost(start): Ghost<LoweringContext>) -> (closed: Result<(), BuildError>)
    requires
        lowered_from(start, *old(context)),
    ensures
        lowered_from(start, *final(context)),
        keeps_closed(old(context).control_flow.pending(), final(context).control_flow.pending()),
        final(context).loop_regions == old(context).loop_regions,
        final(context).control_flow.open_block() is None,
        match old(context).control_flow.open_index() {
            Some(index) => closed is Ok && final(context).control_flow.pending() == old(context).control_flow.pending().update(
                index,
                old(context).control_flow.pending()[index].with_terminator(terminator),
            ),
            None => closed is Err && final(context).control_flow.pending() == old(context).control_flow.pending(),
        },
{
    let ghost before = context.control_flow.pending();
    let ghost open_at = context.control_flow.open_index();
    let closed = context.control_flow.terminate(terminator);
    proof {
        let after = context.control_flow.pending();
        assert forall|i: int| 0 <= i < start.control_flow.pending().len() && (#[trigger] start.control_flow.pending()[i]).terminator is Some implies i
            < after.len() && after[i] == start.control_flow.pending()[i] by {
            assert(before[i] == start.control_flow.pending()[i]);
            if open_at == Some(i) {
                assert(before[i].terminator is None);
            }
        }
        assert forall|i: int| 0 <= i < before.len() && (#[trigger] before[i]).terminator is Some implies i
            < after.len() && after[i] == before[i] by {
            if open_at == Some(i) {
                assert(before[i].terminator is None);
            }
        }
    }
    closed
}

/// Closes the open block with a jump to `target`; the jump comes from a
/// block that was not closed at `start`.
fn close_jumping(context: &mut LoweringContext, target: BasicBlockId, Ghost(start): Ghost<LoweringContext>) -> (closed: Result<(), BuildError>)
    requires
        lowered_from(start, *old(context)),
    ensures
        lowered_from(start, *final(context)),
        keeps_closed(old(context).control_flow.pending(), final(context).control_flow.pending()),
        final(context).loop_regions == old(context).loop_regions,
        final(context).control_flow.open_block() is None,
        closed is Ok ==> jumps_to(start.control_flow.pending(), final(context).control_flow.pending(), target, -1),
{
    let ghost open_at = context.control_flow.open_index();
    let ghost before = context.control_flow.pending();
    let closed = close(context, Terminator::Goto { target }, Ghost(start));
    proof {
        if closed is Ok {
            let b = open_at->0;
            assert(before[b].terminator is None);
            if b < start.control_flow.pending().len() && start.control_flow.pending()[b].terminator is Some {
                assert(before[b] == start.control_flow.pending()[b]);
            }
            assert(context.control_flow.pending()[b].terminator == Some(Terminator::Goto { target }));
        }
    }
    closed
}

/// Opens `block`.
fn open(context: &mut LoweringContext, block: BasicBlockId, Ghost(start): Ghost<LoweringContext>) -> (opened: Result<(), BuildError>)
    requires
        lowered_from(start, *old(context)),
    ensures
        lowered_from(start, *final(context)),
        final(context).loop_regions == old(context).loop_regions,
        final(context).control_flow.pending() == old(context).control_flow.pending(),
        keeps_closed(old(context).control_flow.pending(), final(context).control_flow.pending()),
        opened is Ok ==> final(context).control_flow.open_block() == Some(block),
        opened is Err ==> final(context).control_flow.open_block() == old(context).control_flow.open_block()
            || final(context).control_flow.open_block() is None,
{
    context.control_flow.select_block(block)
}

/// Records a loop region.
fn add_loop_region(context: &mut LoweringContext, region: LoopRegion, Ghost(start): Ghost<LoweringContext>)
    requires
        lowered_from(start, *old(context)),
    ensures
        lowered_from(start, *final(context)),
        final(context).control_flow == old(context).control_flow,
        final(context).loop_regions@ == old(context).loop_regions@.push(region),
{
    let ghost before = context.loop_regions@;
    context.loop_regions.push(region);
    proof {
        assert(context.loop_regions@.subrange(0, start.loop_regions@.len() as int) =~= before.subrange(
            0,
            start.loop_regions@.len() as int,
        ));
    }
}

} // verus!
