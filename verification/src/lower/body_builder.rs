//! Construction-only state for splitting scalar expressions into MIR blocks.

use crate::calls::CallInstance;
use crate::ids::{BasicBlockId, DropPlanId, LocalId, ScopeId};
use crate::lower::BuildError;
use crate::model::{
    BasicBlock, CallArgument, CallContinuation, Operand, Origin, Place, Statement, Terminator,
};
use crate::semantic::{ExprId, OutcomeLayer};
use vstd::prelude::*;

verus! {

/// A block under construction: its terminator is absent until the block is
/// closed.
struct PendingBlock {
    scope: ScopeId,
    statements: Vec<Statement>,
    terminator: Option<Terminator>,
}

/// What a block under construction holds.
pub struct PendingView {
    pub scope: ScopeId,
    pub statements: Seq<Statement>,
    pub terminator: Option<Terminator>,
}

impl PendingView {
    /// A block of `scope` with no statements and no terminator yet.
    pub open spec fn fresh(scope: ScopeId) -> Self {
        PendingView { scope, statements: Seq::empty(), terminator: None }
    }

    /// This block with `statement` appended.
    pub open spec fn with_statement(self, statement: Statement) -> Self {
        PendingView { scope: self.scope, statements: self.statements.push(statement), terminator: self.terminator }
    }

    /// This block closed by `terminator`.
    pub open spec fn with_terminator(self, terminator: Terminator) -> Self {
        PendingView { scope: self.scope, statements: self.statements, terminator: Some(terminator) }
    }
}

/// A terminator that ends the failure path of an outcome.
pub open spec fn is_failure_exit(terminator: Terminator) -> bool {
    terminator is Trap || terminator is PropagateFailure
}

/// `block` is what the closed pending block `pending` finishes as.
pub open spec fn finishes(pending: PendingView, block: BasicBlock) -> bool {
    &&& block.scope == pending.scope
    &&& block.statements@ == pending.statements
    &&& pending.terminator == Some(block.terminator)
}

impl View for PendingBlock {
    type V = PendingView;

    closed spec fn view(&self) -> PendingView {
        PendingView { scope: self.scope, statements: self.statements@, terminator: self.terminator }
    }
}

/// Owns the transient distinction between an open block and completed MIR.
///
/// `BasicBlock` itself always has a terminator. Keeping the incomplete state
/// here prevents placeholder terminators from entering checked MIR merely to
/// make expression lowering able to split control flow.
pub struct ControlFlowBuilder {
    blocks: Vec<PendingBlock>,
    current: Option<BasicBlockId>,
}

impl ControlFlowBuilder {
    /// The blocks built so far, in order.
    pub closed spec fn pending(&self) -> Seq<PendingView> {
        self.blocks@.map_values(|block: PendingBlock| block@)
    }

    /// The block that statements are appended to, if any.
    pub closed spec fn open_block(&self) -> Option<BasicBlockId> {
        self.current
    }

    /// The position of the open block, when it names a built block.
    pub open spec fn open_index(&self) -> Option<int> {
        match self.open_block() {
            Some(block) => if block@ < self.pending().len() {
                Some(block@ as int)
            } else {
                None
            },
            None => None,
        }
    }

    /// The open block, if any, is a built block that is not closed yet.
    pub open spec fn wf(&self) -> bool {
        self.open_block() matches Some(block) ==> block@ < self.pending().len()
            && self.pending()[block@ as int].terminator is None
    }

    /// Why finishing fails, if it does: a block is still open, or a reserved
    /// block was never closed.
    pub open spec fn finish_error(&self) -> Option<BuildError> {
        if self.open_block() is Some {
            Some(BuildError::OpenBlockNotTerminated)
        } else if exists|i: int| 0 <= i < self.pending().len() && (#[trigger] self.pending()[i]).terminator is None {
            Some(BuildError::UnterminatedReservedBlock)
        } else {
            None
        }
    }

    /// `blocks` are the built blocks, finished.
    pub open spec fn finished_as(&self, blocks: Seq<BasicBlock>) -> bool {
        &&& blocks.len() == self.pending().len()
        &&& forall|i: int| 0 <= i < blocks.len() ==> #[trigger] finishes(self.pending()[i], blocks[i])
    }

    /// Nothing was changed.
    pub open spec fn same_as(&self, other: &Self) -> bool {
        &&& self.pending() == other.pending()
        &&& self.open_block() == other.open_block()
    }

    /// The open block was closed by `terminator` and `added` blocks were
    /// reserved after the existing ones; `reopened` is what is open afterwards when
    /// the open block had not been closed before. A block closed before keeps
    /// the new terminator, `unreached` blocks are reserved instead, and the
    /// call reports it with no block open.
    pub open spec fn closed_and_reserved(
        old: Self,
        new: Self,
        outcome: Option<BuildError>,
        terminator: Terminator,
        added: Seq<PendingView>,
        unreached: Seq<PendingView>,
        reopened: Option<BasicBlockId>,
    ) -> bool {
        match old.open_index() {
            None => outcome == Some(BuildError::MissingOpenBlock) && new.same_as(&old),
            Some(index) => {
                let closed = old.pending().update(
                    index,
                    old.pending()[index].with_terminator(terminator),
                );
                if old.pending()[index].terminator is None {
                    outcome is None && new.pending() == closed + added && new.open_block() == reopened
                } else {
                    outcome == Some(BuildError::BlockAlreadyTerminated) && new.pending() == closed
                        + unreached && new.open_block() is None
                }
            },
        }
    }

    /// The scope of the open block, when one is open.
    pub open spec fn open_scope(&self) -> ScopeId {
        self.pending()[self.open_index()->0].scope
    }

    /// The error a unit result carries, if any.
    pub open spec fn failure_of<T>(result: Result<T, BuildError>) -> Option<BuildError> {
        match result {
            Ok(_) => None,
            Err(error) => Some(error),
        }
    }

    proof fn lemma_pending_push(blocks: Seq<PendingBlock>, block: PendingBlock)
        ensures
            blocks.push(block).map_values(|b: PendingBlock| b@) == blocks.map_values(
                |b: PendingBlock| b@,
            ).push(block@),
    {
        assert(blocks.push(block).map_values(|b: PendingBlock| b@) =~= blocks.map_values(
            |b: PendingBlock| b@,
        ).push(block@));
    }

    proof fn lemma_pending_update(blocks: Seq<PendingBlock>, index: int, block: PendingBlock)
        requires
            0 <= index < blocks.len(),
        ensures
            blocks.update(index, block).map_values(|b: PendingBlock| b@) == blocks.map_values(
                |b: PendingBlock| b@,
            ).update(index, block@),
    {
        assert(blocks.update(index, block).map_values(|b: PendingBlock| b@) =~= blocks.map_values(
            |b: PendingBlock| b@,
        ).update(index, block@));
    }

    /// A builder whose only block, the open one, belongs to `root_scope`.
    pub fn new(root_scope: ScopeId) -> (builder: Self)
        ensures
            builder.pending() == seq![PendingView::fresh(root_scope)],
            builder.open_block() == Some(BasicBlockId::at(0)),
            builder.wf(),
    {
        let block = PendingBlock { scope: root_scope, statements: Vec::new(), terminator: None };
        let builder = ControlFlowBuilder {
            blocks: vec![block],
            current: Some(BasicBlockId::from_index(0)),
        };
        assert(builder.pending() =~= seq![PendingView::fresh(root_scope)]);
        builder
    }

    /// Appends `statement` to the open block.
    pub fn push_statement(&mut self, statement: Statement) -> (result: Result<(), BuildError>)
        ensures
            final(self).open_block() == old(self).open_block(),
            match old(self).open_index() {
                Some(index) => result is Ok && final(self).pending() == old(self).pending().update(
                    index,
                    old(self).pending()[index].with_statement(statement),
                ),
                None => result == Err::<(), BuildError>(BuildError::MissingOpenBlock)
                    && final(self).pending() == old(self).pending(),
            },
            old(self).wf() ==> final(self).wf(),
    {
        let index = match self.current_block_mut() {
            Ok(index) => index,
            Err(error) => return Err(error),
        };
        let ghost before = self.blocks@;
        self.blocks[index].statements.push(statement);
        proof {
            Self::lemma_pending_update(before, index as int, self.blocks@[index as int]);
        }
        Ok(())
    }

    /// Closes the open block with `terminator`; afterwards no block is open.
    ///
    /// A block that was closed already keeps the new terminator and the call
    /// reports it.
    pub fn terminate(&mut self, terminator: Terminator) -> (result: Result<(), BuildError>)
        ensures
            final(self).open_block() is None,
            match old(self).open_index() {
                Some(index) => final(self).pending() == old(self).pending().update(
                    index,
                    old(self).pending()[index].with_terminator(terminator),
                ) && if old(self).pending()[index].terminator is None {
                    result is Ok
                } else {
                    result == Err::<(), BuildError>(BuildError::BlockAlreadyTerminated)
                },
                None => result == Err::<(), BuildError>(BuildError::MissingOpenBlock)
                    && final(self).pending() == old(self).pending(),
            },
            final(self).wf(),
    {
        let current = match self.current.take() {
            Some(current) => current,
            None => return Err(BuildError::MissingOpenBlock),
        };
        let index = current.index();
        if index >= self.blocks.len() {
            return Err(BuildError::MissingOpenBlock);
        }
        let ghost before = self.blocks@;
        let previous = self.blocks[index].terminator.take();
        self.blocks[index].terminator = Some(terminator);
        proof {
            Self::lemma_pending_update(before, index as int, self.blocks@[index as int]);
        }
        if previous.is_some() {
            return Err(BuildError::BlockAlreadyTerminated);
        }
        Ok(())
    }

    /// Appends a fresh block of `scope` and returns its identity.
    pub fn reserve_block(&mut self, scope: ScopeId) -> (block: BasicBlockId)
        ensures
            block == BasicBlockId::at(old(self).pending().len() as int),
            final(self).pending() == old(self).pending().push(PendingView::fresh(scope)),
            final(self).open_block() == old(self).open_block(),
            old(self).wf() ==> final(self).wf(),
    {
        let block = BasicBlockId::from_index(self.blocks.len());
        let pending = PendingBlock { scope, statements: Vec::new(), terminator: None };
        proof {
            Self::lemma_pending_push(self.blocks@, pending);
            assert(pending@ == PendingView::fresh(scope));
        }
        self.blocks.push(pending);
        block
    }

    /// Opens `block`, which must be a built block that is not closed, while
    /// no other block is open.
    pub fn select_block(&mut self, block: BasicBlockId) -> (result: Result<(), BuildError>)
        ensures
            final(self).pending() == old(self).pending(),
            old(self).open_block() is Some ==> result == Err::<(), BuildError>(
                BuildError::OpenBlockNotTerminated,
            ) && final(self).open_block() == old(self).open_block(),
            old(self).open_block() is None && block@ >= old(self).pending().len() ==> result
                == Err::<(), BuildError>(BuildError::MissingOpenBlock) && final(self).open_block()
                is None,
            old(self).open_block() is None && block@ < old(self).pending().len()
                && old(self).pending()[block@ as int].terminator is Some ==> result == Err::<
                (),
                BuildError,
            >(BuildError::BlockAlreadyTerminated) && final(self).open_block() is None,
            old(self).open_block() is None && block@ < old(self).pending().len()
                && old(self).pending()[block@ as int].terminator is None ==> result is Ok
                && final(self).open_block() == Some(block),
            old(self).wf() ==> final(self).wf(),
    {
        if self.current.is_some() {
            return Err(BuildError::OpenBlockNotTerminated);
        }
        let index = block.index();
        if index >= self.blocks.len() {
            return Err(BuildError::MissingOpenBlock);
        }
        if self.blocks[index].terminator.is_some() {
            return Err(BuildError::BlockAlreadyTerminated);
        }
        self.current = Some(block);
        Ok(())
    }

    /// The block that statements are appended to.
    pub fn current_block(&self) -> (result: Result<BasicBlockId, BuildError>)
        ensures
            match self.open_block() {
                Some(block) => result == Ok::<BasicBlockId, BuildError>(block),
                None => result == Err::<BasicBlockId, BuildError>(BuildError::MissingOpenBlock),
            },
    {
        match self.current {
            Some(block) => Ok(block),
            None => Err(BuildError::MissingOpenBlock),
        }
    }

    /// The scope of the open block.
    pub fn current_scope(&self) -> (result: Result<ScopeId, BuildError>)
        ensures
            match self.open_index() {
                Some(index) => result == Ok::<ScopeId, BuildError>(self.pending()[index].scope),
                None => result == Err::<ScopeId, BuildError>(BuildError::MissingOpenBlock),
            },
    {
        let index = self.current_block_mut()?;
        Ok(self.blocks[index].scope)
    }

    /// Closes the open block with `terminator`, whose successor is a fresh
    /// block of the same scope, and opens that block.
    fn close_and_continue(&mut self, terminator: Terminator, target: BasicBlockId) -> (result:
        Result<(), BuildError>)
        requires
            old(self).pending().len() < u32::MAX,
            target == BasicBlockId::at(old(self).pending().len() as int),
        ensures
            Self::closed_and_reserved(
                *old(self),
                *final(self),
                Self::failure_of(result),
                terminator,
                seq![PendingView::fresh(old(self).open_scope())],
                seq![PendingView::fresh(old(self).open_scope())],
                Some(target),
            ),
    {
        let scope = self.current_scope()?;
        let ghost before = *self;
        let reserved = self.reserve_block(scope);
        let ghost index = before.open_index()->0;
        proof {
            assert(self.open_index() == Some(index));
        }
        let closed = self.terminate(terminator);
        proof {
            assert(self.pending() =~= before.pending().update(
                index,
                before.pending()[index].with_terminator(terminator),
            ) + seq![PendingView::fresh(scope)]);
        }
        closed?;
        let selected = self.select_block(reserved);
        proof {
            assert(reserved@ == before.pending().len());
        }
        selected
    }

    /// Closes the open block with `terminator`, whose successors are two fresh
    /// blocks of the same scope; closes the second with `failure_terminator`
    /// and opens the first.
    fn close_with_failure(
        &mut self,
        terminator: Terminator,
        success: BasicBlockId,
        failure: BasicBlockId,
        failure_terminator: Terminator,
    ) -> (result: Result<(), BuildError>)
        requires
            old(self).pending().len() + 2 <= u32::MAX,
            success == BasicBlockId::at(old(self).pending().len() as int),
            failure == BasicBlockId::at(old(self).pending().len() + 1int),
        ensures
            Self::closed_and_reserved(
                *old(self),
                *final(self),
                Self::failure_of(result),
                terminator,
                seq![
                    PendingView::fresh(old(self).open_scope()),
                    PendingView::fresh(old(self).open_scope()).with_terminator(failure_terminator),
                ],
                seq![
                    PendingView::fresh(old(self).open_scope()),
                    PendingView::fresh(old(self).open_scope()),
                ],
                Some(success),
            ),
    {
        let scope = self.current_scope()?;
        let ghost before = *self;
        let ghost index = before.open_index()->0;
        let reserved_success = self.reserve_block(scope);
        let reserved_failure = self.reserve_block(scope);
        proof {
            assert(self.open_index() == Some(index));
        }
        let closed = self.terminate(terminator);
        let ghost closed_blocks = before.pending().update(
            index,
            before.pending()[index].with_terminator(terminator),
        );
        proof {
            assert(self.pending() =~= closed_blocks + seq![
                PendingView::fresh(scope),
                PendingView::fresh(scope),
            ]);
        }
        closed?;
        proof {
            assert(reserved_failure@ == before.pending().len() + 1);
            assert(reserved_success@ == before.pending().len());
        }
        self.select_block(reserved_failure)?;
        self.terminate(failure_terminator)?;
        proof {
            assert(self.pending() =~= closed_blocks + seq![
                PendingView::fresh(scope),
                PendingView::fresh(scope).with_terminator(failure_terminator),
            ]);
        }
        self.select_block(reserved_success)
    }

    /// Closes the open block with `terminator`, whose successors are a fresh
    /// block of the same scope and a fresh block of `failure_scope`; opens the
    /// second and returns the first.
    fn close_and_branch(
        &mut self,
        terminator: Terminator,
        failure_scope: ScopeId,
        success: BasicBlockId,
        failure: BasicBlockId,
    ) -> (result: Result<BasicBlockId, BuildError>)
        requires
            old(self).pending().len() + 2 <= u32::MAX,
            success == BasicBlockId::at(old(self).pending().len() as int),
            failure == BasicBlockId::at(old(self).pending().len() + 1int),
        ensures
            Self::closed_and_reserved(
                *old(self),
                *final(self),
                Self::failure_of(result),
                terminator,
                seq![PendingView::fresh(old(self).open_scope()), PendingView::fresh(failure_scope)],
                seq![PendingView::fresh(old(self).open_scope()), PendingView::fresh(failure_scope)],
                Some(failure),
            ),
            result is Ok ==> result == Ok::<BasicBlockId, BuildError>(success),
    {
        let scope = self.current_scope()?;
        let ghost before = *self;
        let ghost index = before.open_index()->0;
        let reserved_success = self.reserve_block(scope);
        let reserved_failure = self.reserve_block(failure_scope);
        proof {
            assert(self.open_index() == Some(index));
        }
        let closed = self.terminate(terminator);
        proof {
            assert(self.pending() =~= before.pending().update(
                index,
                before.pending()[index].with_terminator(terminator),
            ) + seq![PendingView::fresh(scope), PendingView::fresh(failure_scope)]);
            assert(reserved_failure@ == before.pending().len() + 1);
        }
        closed?;
        self.select_block(reserved_failure)?;
        Ok(reserved_success)
    }

    /// Ends the open block with a call whose result is stored in
    /// `destination`, and continues in a fresh block of the same scope.
    pub fn emit_returning_call(
        &mut self,
        source: ExprId,
        callee: CallInstance,
        arguments: Vec<CallArgument>,
        destination: LocalId,
    ) -> (result: Result<(), BuildError>)
        requires
            old(self).pending().len() < u32::MAX,
        ensures
            Self::closed_and_reserved(
                *old(self),
                *final(self),
                Self::failure_of(result),
                (Terminator::Call {
                    origin: Origin::Expression(source),
                    callee,
                    arguments,
                    continuation: CallContinuation::Return {
                        destination: Place { local: destination, projection: None },
                        target: BasicBlockId::at(old(self).pending().len() as int),
                    },
                }),
                seq![PendingView::fresh(old(self).open_scope())],
                seq![PendingView::fresh(old(self).open_scope())],
                Some(BasicBlockId::at(old(self).pending().len() as int)),
            ),
            old(self).wf() ==> final(self).wf(),
    {
        let target = BasicBlockId::from_index(self.blocks.len());
        self.close_and_continue(
            Terminator::Call {
                origin: Origin::Expression(source),
                callee,
                arguments,
                continuation: CallContinuation::Return { destination: Place::local(destination), target },
            },
            target,
        )
    }

    /// Ends the open block with a call whose result is discarded, and
    /// continues in a fresh block of the same scope.
    pub fn emit_effect_call(
        &mut self,
        source: ExprId,
        callee: CallInstance,
        arguments: Vec<CallArgument>,
    ) -> (result: Result<(), BuildError>)
        requires
            old(self).pending().len() < u32::MAX,
        ensures
            Self::closed_and_reserved(
                *old(self),
                *final(self),
                Self::failure_of(result),
                (Terminator::Call {
                    origin: Origin::Expression(source),
                    callee,
                    arguments,
                    continuation: CallContinuation::Continue {
                        target: BasicBlockId::at(old(self).pending().len() as int),
                    },
                }),
                seq![PendingView::fresh(old(self).open_scope())],
                seq![PendingView::fresh(old(self).open_scope())],
                Some(BasicBlockId::at(old(self).pending().len() as int)),
            ),
            old(self).wf() ==> final(self).wf(),
    {
        let target = BasicBlockId::from_index(self.blocks.len());
        self.close_and_continue(
            Terminator::Call {
                origin: Origin::Expression(source),
                callee,
                arguments,
                continuation: CallContinuation::Continue { target },
            },
            target,
        )
    }

    /// Ends the open block by destroying `place` with `plan`, and continues
    /// in a fresh block of the same scope.
    pub fn emit_drop(&mut self, place: Place, plan: DropPlanId) -> (result: Result<(), BuildError>)
        requires
            old(self).pending().len() < u32::MAX,
        ensures
            Self::closed_and_reserved(
                *old(self),
                *final(self),
                Self::failure_of(result),
                (Terminator::Drop {
                    place,
                    plan,
                    target: BasicBlockId::at(old(self).pending().len() as int),
                }),
                seq![PendingView::fresh(old(self).open_scope())],
                seq![PendingView::fresh(old(self).open_scope())],
                Some(BasicBlockId::at(old(self).pending().len() as int)),
            ),
            old(self).wf() ==> final(self).wf(),
    {
        let target = BasicBlockId::from_index(self.blocks.len());
        self.close_and_continue(Terminator::Drop { place, plan, target }, target)
    }

    /// Ends the open block with a call that never returns; afterwards no
    /// block is open.
    pub fn emit_never_call(
        &mut self,
        source: ExprId,
        callee: CallInstance,
        arguments: Vec<CallArgument>,
    ) -> (result: Result<(), BuildError>)
        ensures
            Self::closed_and_reserved(
                *old(self),
                *final(self),
                Self::failure_of(result),
                (Terminator::Call {
                    origin: Origin::Expression(source),
                    callee,
                    arguments,
                    continuation: CallContinuation::Never,
                }),
                Seq::empty(),
                Seq::empty(),
                None,
            ) || (old(self).open_block() is Some && old(self).open_index() is None && result
                == Err::<(), BuildError>(BuildError::MissingOpenBlock) && final(self).pending()
                == old(self).pending() && final(self).open_block() is None),
            old(self).wf() ==> final(self).wf(),
    {
        let ghost before = *self;
        let result = self.terminate(
            Terminator::Call {
                origin: Origin::Expression(source),
                callee,
                arguments,
                continuation: CallContinuation::Never,
            },
        );
        proof {
            if let Some(index) = before.open_index() {
                assert(self.pending() =~= before.pending().update(
                    index,
                    before.pending()[index].with_terminator(
                        Terminator::Call {
                            origin: Origin::Expression(source),
                            callee,
                            arguments,
                            continuation: CallContinuation::Never,
                        },
                    ),
                ) + Seq::<PendingView>::empty());
            }
        }
        result
    }

    /// Ends the open block with an outcome call that stores its success value
    /// in `destination` and traps on failure; continues after success.
    pub fn emit_trapping_outcome_call(
        &mut self,
        source: ExprId,
        callee: CallInstance,
        arguments: Vec<CallArgument>,
        destination: LocalId,
    ) -> (result: Result<(), BuildError>)
        requires
            old(self).pending().len() + 2 <= u32::MAX,
        ensures
            Self::closed_and_reserved(
                *old(self),
                *final(self),
                Self::failure_of(result),
                (Terminator::Call {
                    origin: Origin::Expression(source),
                    callee,
                    arguments,
                    continuation: CallContinuation::Outcome {
                        destination: Place { local: destination, projection: None },
                        success: BasicBlockId::at(old(self).pending().len() as int),
                        failure: BasicBlockId::at(old(self).pending().len() + 1int),
                        failure_payload: None,
                    },
                }),
                seq![
                    PendingView::fresh(old(self).open_scope()),
                    PendingView::fresh(old(self).open_scope()).with_terminator(Terminator::Trap),
                ],
                seq![
                    PendingView::fresh(old(self).open_scope()),
                    PendingView::fresh(old(self).open_scope()),
                ],
                Some(BasicBlockId::at(old(self).pending().len() as int)),
            ),
            old(self).wf() ==> final(self).wf(),
    {
        self.emit_outcome_call(source, callee, arguments, destination, Terminator::Trap)
    }

    /// Ends the open block with an outcome call that stores its success value
    /// in `destination` and propagates a failure; continues after success.
    pub fn emit_propagating_outcome_call(
        &mut self,
        source: ExprId,
        callee: CallInstance,
        arguments: Vec<CallArgument>,
        destination: LocalId,
    ) -> (result: Result<(), BuildError>)
        requires
            old(self).pending().len() + 2 <= u32::MAX,
        ensures
            Self::closed_and_reserved(
                *old(self),
                *final(self),
                Self::failure_of(result),
                (Terminator::Call {
                    origin: Origin::Expression(source),
                    callee,
                    arguments,
                    continuation: CallContinuation::Outcome {
                        destination: Place { local: destination, projection: None },
                        success: BasicBlockId::at(old(self).pending().len() as int),
                        failure: BasicBlockId::at(old(self).pending().len() + 1int),
                        failure_payload: None,
                    },
                }),
                seq![
                    PendingView::fresh(old(self).open_scope()),
                    PendingView::fresh(old(self).open_scope()).with_terminator(Terminator::PropagateFailure),
                ],
                seq![
                    PendingView::fresh(old(self).open_scope()),
                    PendingView::fresh(old(self).open_scope()),
                ],
                Some(BasicBlockId::at(old(self).pending().len() as int)),
            ),
            old(self).wf() ==> final(self).wf(),
    {
        self.emit_outcome_call(source, callee, arguments, destination, Terminator::PropagateFailure)
    }

    /// Ends the open block with a value-less outcome call that traps on
    /// failure; continues after success.
    pub fn emit_trapping_outcome_effect(
        &mut self,
        source: ExprId,
        callee: CallInstance,
        arguments: Vec<CallArgument>,
    ) -> (result: Result<(), BuildError>)
        requires
            old(self).pending().len() + 2 <= u32::MAX,
        ensures
            Self::closed_and_reserved(
                *old(self),
                *final(self),
                Self::failure_of(result),
                (Terminator::Call {
                    origin: Origin::Expression(source),
                    callee,
                    arguments,
                    continuation: CallContinuation::OutcomeEffect {
                        success: BasicBlockId::at(old(self).pending().len() as int),
                        failure: BasicBlockId::at(old(self).pending().len() + 1int),
                        failure_payload: None,
                    },
                }),
                seq![
                    PendingView::fresh(old(self).open_scope()),
                    PendingView::fresh(old(self).open_scope()).with_terminator(Terminator::Trap),
                ],
                seq![
                    PendingView::fresh(old(self).open_scope()),
                    PendingView::fresh(old(self).open_scope()),
                ],
                Some(BasicBlockId::at(old(self).pending().len() as int)),
            ),
            old(self).wf() ==> final(self).wf(),
    {
        self.emit_outcome_effect(source, callee, arguments, Terminator::Trap)
    }

    /// Ends the open block with a value-less outcome call that propagates a
    /// failure; continues after success.
    pub fn emit_propagating_outcome_effect(
        &mut self,
        source: ExprId,
        callee: CallInstance,
        arguments: Vec<CallArgument>,
    ) -> (result: Result<(), BuildError>)
        requires
            old(self).pending().len() + 2 <= u32::MAX,
        ensures
            Self::closed_and_reserved(
                *old(self),
                *final(self),
                Self::failure_of(result),
                (Terminator::Call {
                    origin: Origin::Expression(source),
                    callee,
                    arguments,
                    continuation: CallContinuation::OutcomeEffect {
                        success: BasicBlockId::at(old(self).pending().len() as int),
                        failure: BasicBlockId::at(old(self).pending().len() + 1int),
                        failure_payload: None,
                    },
                }),
                seq![
                    PendingView::fresh(old(self).open_scope()),
                    PendingView::fresh(old(self).open_scope()).with_terminator(Terminator::PropagateFailure),
                ],
                seq![
                    PendingView::fresh(old(self).open_scope()),
                    PendingView::fresh(old(self).open_scope()),
                ],
                Some(BasicBlockId::at(old(self).pending().len() as int)),
            ),
            old(self).wf() ==> final(self).wf(),
    {
        self.emit_outcome_effect(source, callee, arguments, Terminator::PropagateFailure)
    }

    /// Ends the open block with an outcome call whose failure is handled in a
    /// fresh block of `failure_scope`, which is opened; returns the fresh
    /// block of the same scope that success continues in.
    pub fn begin_handled_outcome_call(
        &mut self,
        source: ExprId,
        callee: CallInstance,
        arguments: Vec<CallArgument>,
        destination: LocalId,
        failure_scope: ScopeId,
        failure_payload: Option<LocalId>,
    ) -> (result: Result<BasicBlockId, BuildError>)
        requires
            old(self).pending().len() + 2 <= u32::MAX,
        ensures
            Self::closed_and_reserved(
                *old(self),
                *final(self),
                Self::failure_of(result),
                (Terminator::Call {
                    origin: Origin::Expression(source),
                    callee,
                    arguments,
                    continuation: CallContinuation::Outcome {
                        destination: Place { local: destination, projection: None },
                        success: BasicBlockId::at(old(self).pending().len() as int),
                        failure: BasicBlockId::at(old(self).pending().len() + 1int),
                        failure_payload: failure_payload,
                    },
                }),
                seq![PendingView::fresh(old(self).open_scope()), PendingView::fresh(failure_scope)],
                seq![PendingView::fresh(old(self).open_scope()), PendingView::fresh(failure_scope)],
                Some(BasicBlockId::at(old(self).pending().len() + 1int)),
            ),
            result is Ok ==> result == Ok::<BasicBlockId, BuildError>(BasicBlockId::at(old(self).pending().len() as int)),
            old(self).wf() ==> final(self).wf(),
    {
        let success = BasicBlockId::from_index(self.blocks.len());
        let failure = BasicBlockId::from_index(self.blocks.len() + 1);
        self.close_and_branch(
            Terminator::Call {
                origin: Origin::Expression(source),
                callee,
                arguments,
                continuation: CallContinuation::Outcome {
                    destination: Place::local(destination),
                    success,
                    failure,
                    failure_payload,
                },
            },
            failure_scope,
            success,
            failure,
        )
    }

    /// Ends the open block by inspecting the stored outcome `source`; its
    /// failure is handled in a fresh block of `failure_scope`, which is
    /// opened; returns the fresh block of the same scope that success
    /// continues in.
    pub fn begin_stored_outcome_inspection(
        &mut self,
        origin: Origin,
        source: Operand,
        layer: OutcomeLayer,
        destination: LocalId,
        failure_scope: ScopeId,
        failure_payload: Option<LocalId>,
    ) -> (result: Result<BasicBlockId, BuildError>)
        requires
            old(self).pending().len() + 2 <= u32::MAX,
        ensures
            Self::closed_and_reserved(
                *old(self),
                *final(self),
                Self::failure_of(result),
                (Terminator::InspectOutcome {
                    origin,
                    source,
                    layer,
                    destination: Place { local: destination, projection: None },
                    success: BasicBlockId::at(old(self).pending().len() as int),
                    failure: BasicBlockId::at(old(self).pending().len() + 1int),
                    failure_payload: failure_payload,
                }),
                seq![PendingView::fresh(old(self).open_scope()), PendingView::fresh(failure_scope)],
                seq![PendingView::fresh(old(self).open_scope()), PendingView::fresh(failure_scope)],
                Some(BasicBlockId::at(old(self).pending().len() + 1int)),
            ),
            result is Ok ==> result == Ok::<BasicBlockId, BuildError>(BasicBlockId::at(old(self).pending().len() as int)),
            old(self).wf() ==> final(self).wf(),
    {
        let success = BasicBlockId::from_index(self.blocks.len());
        let failure = BasicBlockId::from_index(self.blocks.len() + 1);
        self.close_and_branch(
            Terminator::InspectOutcome {
                origin,
                source,
                layer,
                destination: Place::local(destination),
                success,
                failure,
                failure_payload,
            },
            failure_scope,
            success,
            failure,
        )
    }

    /// Ends the open block by inspecting the stored outcome `source`; a
    /// failure ends in `failure_terminator`, and success continues in a fresh
    /// block of the same scope, which is opened.
    pub fn emit_stored_outcome_inspection(
        &mut self,
        origin: Origin,
        source: Operand,
        layer: OutcomeLayer,
        destination: LocalId,
        failure_terminator: Terminator,
    ) -> (result: Result<(), BuildError>)
        requires
            old(self).pending().len() + 2 <= u32::MAX,
            is_failure_exit(failure_terminator),
        ensures
            Self::closed_and_reserved(
                *old(self),
                *final(self),
                Self::failure_of(result),
                (Terminator::InspectOutcome {
                    origin,
                    source,
                    layer,
                    destination: Place { local: destination, projection: None },
                    success: BasicBlockId::at(old(self).pending().len() as int),
                    failure: BasicBlockId::at(old(self).pending().len() + 1int),
                    failure_payload: None,
                }),
                seq![
                    PendingView::fresh(old(self).open_scope()),
                    PendingView::fresh(old(self).open_scope()).with_terminator(failure_terminator),
                ],
                seq![
                    PendingView::fresh(old(self).open_scope()),
                    PendingView::fresh(old(self).open_scope()),
                ],
                Some(BasicBlockId::at(old(self).pending().len() as int)),
            ),
            old(self).wf() ==> final(self).wf(),
    {
        let success = BasicBlockId::from_index(self.blocks.len());
        let failure = BasicBlockId::from_index(self.blocks.len() + 1);
        self.close_with_failure(
            Terminator::InspectOutcome {
                origin,
                source,
                layer,
                destination: Place::local(destination),
                success,
                failure,
                failure_payload: None,
            },
            success,
            failure,
            failure_terminator,
        )
    }

    /// Ends the open block with an outcome call that stores its success value
    /// in `destination`; a failure ends in `failure_terminator`, and success
    /// continues in a fresh block of the same scope, which is opened.
    pub fn emit_outcome_call(
        &mut self,
        source: ExprId,
        callee: CallInstance,
        arguments: Vec<CallArgument>,
        destination: LocalId,
        failure_terminator: Terminator,
    ) -> (result: Result<(), BuildError>)
        requires
            old(self).pending().len() + 2 <= u32::MAX,
            is_failure_exit(failure_terminator),
        ensures
            Self::closed_and_reserved(
                *old(self),
                *final(self),
                Self::failure_of(result),
                (Terminator::Call {
                    origin: Origin::Expression(source),
                    callee,
                    arguments,
                    continuation: CallContinuation::Outcome {
                        destination: Place { local: destination, projection: None },
                        success: BasicBlockId::at(old(self).pending().len() as int),
                        failure: BasicBlockId::at(old(self).pending().len() + 1int),
                        failure_payload: None,
                    },
                }),
                seq![
                    PendingView::fresh(old(self).open_scope()),
                    PendingView::fresh(old(self).open_scope()).with_terminator(failure_terminator),
                ],
                seq![
                    PendingView::fresh(old(self).open_scope()),
                    PendingView::fresh(old(self).open_scope()),
                ],
                Some(BasicBlockId::at(old(self).pending().len() as int)),
            ),
    {
        let success = BasicBlockId::from_index(self.blocks.len());
        let failure = BasicBlockId::from_index(self.blocks.len() + 1);
        self.close_with_failure(
            Terminator::Call {
                origin: Origin::Expression(source),
                callee,
                arguments,
                continuation: CallContinuation::Outcome {
                    destination: Place::local(destination),
                    success,
                    failure,
                    failure_payload: None,
                },
            },
            success,
            failure,
            failure_terminator,
        )
    }

    /// Ends the open block with a value-less outcome call; a failure ends in
    /// `failure_terminator`, and success continues in a fresh block of the
    /// same scope, which is opened.
    pub fn emit_outcome_effect(
        &mut self,
        source: ExprId,
        callee: CallInstance,
        arguments: Vec<CallArgument>,
        failure_terminator: Terminator,
    ) -> (result: Result<(), BuildError>)
        requires
            old(self).pending().len() + 2 <= u32::MAX,
            is_failure_exit(failure_terminator),
        ensures
            Self::closed_and_reserved(
                *old(self),
                *final(self),
                Self::failure_of(result),
                (Terminator::Call {
                    origin: Origin::Expression(source),
                    callee,
                    arguments,
                    continuation: CallContinuation::OutcomeEffect {
                        success: BasicBlockId::at(old(self).pending().len() as int),
                        failure: BasicBlockId::at(old(self).pending().len() + 1int),
                        failure_payload: None,
                    },
                }),
                seq![
                    PendingView::fresh(old(self).open_scope()),
                    PendingView::fresh(old(self).open_scope()).with_terminator(failure_terminator),
                ],
                seq![
                    PendingView::fresh(old(self).open_scope()),
                    PendingView::fresh(old(self).open_scope()),
                ],
                Some(BasicBlockId::at(old(self).pending().len() as int)),
            ),
    {
        let success = BasicBlockId::from_index(self.blocks.len());
        let failure = BasicBlockId::from_index(self.blocks.len() + 1);
        self.close_with_failure(
            Terminator::Call {
                origin: Origin::Expression(source),
                callee,
                arguments,
                continuation: CallContinuation::OutcomeEffect { success, failure, failure_payload: None },
            },
            success,
            failure,
            failure_terminator,
        )
    }

    /// Records `join_target` as the block where the branches of the switch
    /// that closes `block` meet again.
    pub fn set_switch_join(&mut self, block: BasicBlockId, join_target: Option<BasicBlockId>) -> (result:
        Result<(), BuildError>)
        ensures
            final(self).open_block() == old(self).open_block(),
            block@ >= old(self).pending().len() ==> result == Err::<(), BuildError>(
                BuildError::MissingOpenBlock,
            ) && final(self).pending() == old(self).pending(),
            block@ < old(self).pending().len() ==> match old(self).pending()[block@ as int].terminator {
                Some(Terminator::Switch { condition, then_target, else_target, join_target: _ }) => {
                    result is Ok && final(self).pending() == old(self).pending().update(
                        block@ as int,
                        old(self).pending()[block@ as int].with_terminator(
                            Terminator::Switch { condition, then_target, else_target, join_target },
                        ),
                    )
                },
                _ => result == Err::<(), BuildError>(BuildError::UnsupportedClaimedExpression)
                    && final(self).pending() == old(self).pending(),
            },
            old(self).wf() ==> final(self).wf(),
    {
        let index = block.index();
        if index >= self.blocks.len() {
            return Err(BuildError::MissingOpenBlock);
        }
        let ghost before = self.blocks@;
        let terminator = self.blocks[index].terminator.take();
        match terminator {
            Some(Terminator::Switch { condition, then_target, else_target, join_target: _ }) => {
                self.blocks[index].terminator = Some(
                    Terminator::Switch { condition, then_target, else_target, join_target },
                );
                proof {
                    Self::lemma_pending_update(before, index as int, self.blocks@[index as int]);
                }
                Ok(())
            },
            other => {
                self.blocks[index].terminator = other;
                proof {
                    assert(self.blocks@ =~= before);
                }
                Err(BuildError::UnsupportedClaimedExpression)
            },
        }
    }

    /// Drops `block` again, which must be the last block, empty, not closed,
    /// while no block is open.
    pub fn discard_last_reserved_block(&mut self, block: BasicBlockId) -> (result: Result<(), BuildError>)
        ensures
            final(self).open_block() == old(self).open_block(),
            ({
                let count = old(self).pending().len();
                let discardable = old(self).open_block() is None && block@ + 1 == count
                    && old(self).pending()[block@ as int].terminator is None
                    && old(self).pending()[block@ as int].statements.len() == 0;
                if discardable {
                    result is Ok && final(self).pending() == old(self).pending().drop_last()
                } else {
                    result == Err::<(), BuildError>(BuildError::UnsupportedClaimedExpression)
                        && final(self).pending() == old(self).pending()
                }
            }),
            old(self).wf() ==> final(self).wf(),
    {
        let index = block.index();
        if self.current.is_some() || index >= self.blocks.len() || index + 1 != self.blocks.len()
            || self.blocks[index].terminator.is_some()
            || self.blocks[index].statements.len() != 0 {
            return Err(BuildError::UnsupportedClaimedExpression);
        }
        let ghost before = self.blocks@;
        self.blocks.pop();
        proof {
            assert(self.pending() =~= before.map_values(|b: PendingBlock| b@).drop_last());
        }
        Ok(())
    }

    /// The finished blocks, once no block is open and every block is closed.
    pub fn finish(self) -> (result: Result<Vec<BasicBlock>, BuildError>)
        ensures
            match result {
                Ok(blocks) => self.finish_error() is None && self.finished_as(blocks@),
                Err(error) => self.finish_error() == Some(error),
            },
    {
        if self.current.is_some() {
            return Err(BuildError::OpenBlockNotTerminated);
        }
        let ghost pending = self.pending();
        let ghost count = self.blocks@.len();
        let mut remaining = self.blocks;
        let mut reversed: Vec<BasicBlock> = Vec::new();
        while remaining.len() > 0
            invariant
                remaining@.len() + reversed@.len() == count,
                pending.len() == count,
                pending == self.pending(),
                self.open_block() is None,
                forall|i: int| 0 <= i < remaining@.len() ==> #[trigger] remaining@[i]@ == pending[i],
                forall|j: int|
                    0 <= j < reversed@.len() ==> #[trigger] finishes(
                        pending[count - 1 - j],
                        reversed@[j],
                    ),
            decreases remaining@.len(),
        {
            let block = remaining.pop().unwrap();
            proof {
                assert(block@ == pending[remaining@.len() as int]);
            }
            match block.terminator {
                Some(terminator) => {
                    reversed.push(
                        BasicBlock { scope: block.scope, statements: block.statements, terminator },
                    );
                },
                None => {
                    proof {
                        assert(pending[remaining@.len() as int].terminator is None);
                    }
                    return Err(BuildError::UnterminatedReservedBlock);
                },
            }
        }
        let mut blocks: Vec<BasicBlock> = Vec::new();
        while reversed.len() > 0
            invariant
                blocks@.len() + reversed@.len() == count,
                pending.len() == count,
                pending == self.pending(),
                self.open_block() is None,
                forall|j: int|
                    0 <= j < reversed@.len() ==> #[trigger] finishes(
                        pending[count - 1 - j],
                        reversed@[j],
                    ),
                forall|i: int|
                    0 <= i < blocks@.len() ==> #[trigger] finishes(pending[i], blocks@[i]),
            decreases reversed@.len(),
        {
            let block = reversed.pop().unwrap();
            proof {
                assert(finishes(pending[count - 1 - reversed@.len()], block));
            }
            blocks.push(block);
        }
        proof {
            assert forall|i: int| 0 <= i < pending.len() implies (#[trigger] pending[i]).terminator
                is Some by {
                assert(finishes(pending[i], blocks@[i]));
            }
        }
        Ok(blocks)
    }

    /// The position of the open block among the built blocks.
    pub fn current_block_mut(&self) -> (result: Result<usize, BuildError>)
        ensures
            match self.open_index() {
                Some(index) => result == Ok::<usize, BuildError>(index as usize),
                None => result == Err::<usize, BuildError>(BuildError::MissingOpenBlock),
            },
    {
        let current = match self.current {
            Some(current) => current,
            None => return Err(BuildError::MissingOpenBlock),
        };
        let index = current.index();
        if index < self.blocks.len() {
            Ok(index)
        } else {
            Err(BuildError::MissingOpenBlock)
        }
    }
}

} // verus!
