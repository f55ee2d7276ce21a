//! The checked MIR body: places, operands, statements, terminators, blocks
//! and the body-level tables that statements and terminators refer to.

use crate::calls::{lemma_alike_instances, same_instance, CallInstance};
use crate::drop_plans::{lemma_alike_plans, same_plan, DropPlan};
use crate::ids::{
    AllocationOverrideId, BasicBlockId, DropPlanId, LoanId, LocalId, ProjectionPathId, RegionId,
    ScopeId,
};
use crate::locals::{Local, OwnershipKind, ScalarType, ValueRepresentation};
use crate::semantic::{BodyId, ByteSpan, DefId, ExprId, OutcomeLayer, TyId};
use vstd::prelude::*;

verus! {

/// A scalar constant.
#[derive(Debug, Clone, Copy, PartialEq, Eq, Structural)]
pub struct Constant {
    pub ty: TyId,
    pub scalar: ScalarType,
    pub value: u64,
}

/// A local, or one projection path rooted at it.
#[derive(Debug, Clone, Copy, PartialEq, Eq, Structural)]
pub struct Place {
    pub local: LocalId,
    pub projection: Option<ProjectionPathId>,
}

impl Place {
    /// The whole of `local`.
    pub fn local(local: LocalId) -> (place: Self)
        ensures
            place == (Place { local, projection: None }),
    {
        Place { local, projection: None }
    }

    /// The part of `local` that `projection` selects.
    pub fn projected(local: LocalId, projection: ProjectionPathId) -> (place: Self)
        ensures
            place == (Place { local, projection: Some(projection) }),
    {
        Place { local, projection: Some(projection) }
    }
}

/// A value read by a statement or terminator.
#[derive(Debug, PartialEq, Eq)]
pub enum Operand {
    Constant(Constant),
    Copy(Place),
    Move(Place),
    StaticStr { ty: TyId, bytes: Vec<u8> },
}

/// Unary operators.
#[derive(Debug, Clone, Copy, PartialEq, Eq, Structural)]
pub enum UnaryOperator {
    Negate,
    Not,
}

/// Arithmetic and bitwise binary operators.
#[derive(Debug, Clone, Copy, PartialEq, Eq, Structural)]
pub enum BinaryOperator {
    Add,
    Subtract,
    Multiply,
    Divide,
    Remainder,
    BitAnd,
    BitOr,
    BitXor,
    ShiftLeft,
    ShiftRight,
}

/// Comparison operators.
#[derive(Debug, Clone, Copy, PartialEq, Eq, Structural)]
pub enum ComparisonOperator {
    Equal,
    NotEqual,
    Less,
    LessEqual,
    Greater,
    GreaterEqual,
}

/// One payload leaf of an enum variant construction.
#[derive(Debug, PartialEq, Eq)]
pub struct VariantLeaf {
    pub offset: u64,
    pub operand: Operand,
}

/// A value computed by an assignment.
#[derive(Debug, PartialEq, Eq)]
pub enum Rvalue {
    Use(Operand),
    Unary { operator: UnaryOperator, operand: Operand },
    Cast { operand: Operand, target: ScalarType },
    Binary { operator: BinaryOperator, left: Operand, right: Operand },
    Compare { operator: ComparisonOperator, left: Operand, right: Operand },
    Variant { definition: DefId, leaves: Vec<VariantLeaf> },
    Error { code: Operand, message: Operand },
}

/// The source construct a statement or terminator was lowered from.
#[derive(Debug, Clone, Copy, PartialEq, Eq, Structural)]
pub enum Origin {
    Expression(ExprId),
    Desugared(ByteSpan),
}

/// A straight-line MIR statement.
#[derive(Debug, PartialEq, Eq)]
pub enum Statement {
    Assign { destination: Place, value: Rvalue, origin: Origin },
    BeginLoan { loan: LoanId, origin: Origin },
    EndLoan { loan: LoanId },
    BeginAggregate { destination: Place, origin: Origin },
    FinishAggregate { destination: Place },
    EnterRegion { region: RegionId, origin: Origin },
    ExitRegion { region: RegionId },
    ExitAllocationContext { override_: AllocationOverrideId },
}

/// One argument of a call.
#[derive(Debug, PartialEq, Eq)]
pub struct CallArgument {
    pub operand: Operand,
}

/// Where control goes after a call.
#[derive(Debug, Clone, Copy, PartialEq, Eq, Structural)]
pub enum CallContinuation {
    /// The call produces no value and continues at `target`.
    Continue { target: BasicBlockId },
    /// The call stores its result in `destination` and continues at `target`.
    Return { destination: Place, target: BasicBlockId },
    /// The call produces an outcome: its success value reaches `success`,
    /// its failure reaches `failure`.
    Outcome {
        destination: Place,
        success: BasicBlockId,
        failure: BasicBlockId,
        failure_payload: Option<LocalId>,
    },
    /// A value-less outcome call.
    OutcomeEffect { success: BasicBlockId, failure: BasicBlockId, failure_payload: Option<LocalId> },
    /// The call never returns.
    Never,
}

/// The instruction that ends a basic block.
#[derive(Debug, PartialEq, Eq)]
pub enum Terminator {
    Goto { target: BasicBlockId },
    Switch {
        condition: Operand,
        then_target: BasicBlockId,
        else_target: BasicBlockId,
        join_target: Option<BasicBlockId>,
    },
    Call {
        origin: Origin,
        callee: CallInstance,
        arguments: Vec<CallArgument>,
        continuation: CallContinuation,
    },
    InspectOutcome {
        origin: Origin,
        source: Operand,
        layer: OutcomeLayer,
        destination: Place,
        success: BasicBlockId,
        failure: BasicBlockId,
        failure_payload: Option<LocalId>,
    },
    Drop { place: Place, plan: DropPlanId, target: BasicBlockId },
    Trap,
    PropagateFailure,
    ReturnOutcome { source: Operand },
    ReturnFailure { code: Operand, message: Operand },
    ReturnOutcomeSuccess { source: Operand },
    ReturnOptionalNone,
    ReturnValue { source: Operand },
    Return,
}

/// A sequence of statements ended by one terminator.
#[derive(Debug, PartialEq, Eq)]
pub struct BasicBlock {
    pub scope: ScopeId,
    pub statements: Vec<Statement>,
    pub terminator: Terminator,
}

/// One lexical scope; the root scope has no parent.
#[derive(Debug, Clone, Copy, PartialEq, Eq, Structural)]
pub struct Scope {
    pub parent: Option<ScopeId>,
    pub span: ByteSpan,
}

impl Scope {
    /// The outermost scope of a body.
    pub fn root(span: ByteSpan) -> (scope: Self)
        ensures
            scope == (Scope { parent: None, span }),
    {
        Scope { parent: None, span }
    }

    /// A scope nested in `parent`.
    pub fn child(parent: ScopeId, span: ByteSpan) -> (scope: Self)
        ensures
            scope == (Scope { parent: Some(parent), span }),
    {
        Scope { parent: Some(parent), span }
    }
}

/// Whether a loan may be used to mutate its source.
#[derive(Debug, Clone, Copy, PartialEq, Eq, Structural)]
pub enum BorrowKind {
    Readonly,
    Readwrite,
}

/// Which construct ends a loan.
#[derive(Debug, Clone, Copy, PartialEq, Eq, Structural)]
pub enum LoanLifetime {
    /// The loan ends when its scope is left.
    Scope,
    /// The loan ends when the call it is an argument of returns.
    Call,
}

/// One concrete borrow of `source` stored in `destination`.
#[derive(Debug, Clone, Copy, PartialEq, Eq, Structural)]
pub struct Loan {
    pub id: LoanId,
    pub source: Place,
    pub destination: LocalId,
    pub kind: BorrowKind,
    pub scope: ScopeId,
    pub lifetime: LoanLifetime,
}

/// One step of a projection path.
#[derive(Debug, Clone, Copy, PartialEq, Eq, Structural)]
pub enum ProjectionElement {
    Field { offset: u64 },
    Element { index: u64 },
}

/// A part of a local, reached from `base` (or from `parent`) by `element`.
#[derive(Debug, Clone, Copy, PartialEq, Eq, Structural)]
pub struct ProjectionPath {
    pub id: ProjectionPathId,
    pub base: LocalId,
    pub parent: Option<ProjectionPathId>,
    pub element: ProjectionElement,
    pub ty: TyId,
    pub representation: ValueRepresentation,
    pub ownership: OwnershipKind,
    pub drop_plan: Option<DropPlanId>,
}

/// The blocks of one loop: its header, the block that tests its condition,
/// its body, where `continue` goes and where the loop exits to.
#[derive(Debug, Clone, Copy, PartialEq, Eq, Structural)]
pub struct LoopRegion {
    pub header: BasicBlockId,
    pub condition: BasicBlockId,
    pub body: BasicBlockId,
    pub continue_target: BasicBlockId,
    pub exit: BasicBlockId,
}

/// A lexical allocation region and the hidden locals that carry its state.
#[derive(Debug, Clone, Copy, PartialEq, Eq, Structural)]
pub struct AllocationRegion {
    pub id: RegionId,
    pub scope: ScopeId,
    pub allocator: LocalId,
    pub parent: Place,
    pub state: LocalId,
    pub parent_state: LocalId,
    pub parent_kind: LocalId,
}

/// A lexical replacement of the current allocation context.
#[derive(Debug, Clone, Copy, PartialEq, Eq, Structural)]
pub struct AllocationOverride {
    pub id: AllocationOverrideId,
    pub scope: ScopeId,
}

/// How a body returns.
#[derive(Debug, Clone, Copy, PartialEq, Eq, Structural)]
pub enum ReturnMode {
    Plain,
    Fallible,
}

/// One checked MIR body.
#[derive(Debug, PartialEq, Eq)]
pub struct Body {
    pub source_body: BodyId,
    pub source_span: ByteSpan,
    pub return_local: LocalId,
    pub return_mode: ReturnMode,
    pub root_scope: ScopeId,
    pub scopes: Vec<Scope>,
    pub locals: Vec<Local>,
    pub entry: BasicBlockId,
    pub blocks: Vec<BasicBlock>,
    pub loop_regions: Vec<LoopRegion>,
    pub allocation_regions: Vec<AllocationRegion>,
    pub allocation_overrides: Vec<AllocationOverride>,
    pub loans: Vec<Loan>,
    pub projections: Vec<ProjectionPath>,
    pub drop_plans: Vec<DropPlan>,
}

impl Body {
    /// Every table other than the blocks can be addressed by 32-bit
    /// identities.
    pub open spec fn tables_addressable(&self) -> bool {
        &&& self.locals@.len() <= u32::MAX
        &&& self.projections@.len() <= u32::MAX
        &&& self.loans@.len() <= u32::MAX
        &&& self.scopes@.len() <= u32::MAX
    }

    /// Every table of the body can be addressed by 32-bit identities.
    pub open spec fn addressable(&self) -> bool {
        &&& self.tables_addressable()
        &&& self.blocks@.len() <= u32::MAX
    }

    /// Every projection path's identity is its index.
    pub open spec fn paths_indexed(&self) -> bool {
        forall|q: int| 0 <= q < self.projections@.len() ==> (#[trigger] self.projections@[q]).id@ == q
    }

    /// Every local that owns a drop obligation carries a destruction plan.
    pub open spec fn owned_locals_have_plans(&self) -> bool {
        forall|l: int|
            0 <= l < self.locals@.len() && (#[trigger] self.locals@[l]).ownership == OwnershipKind::Move
                && self.locals@[l].representation == ValueRepresentation::Aggregate
                ==> self.locals@[l].drop_plan is Some
    }
}

/// Two operands are alike: equal, with byte strings of equal contents.
pub open spec fn same_operand(a: Operand, b: Operand) -> bool {
    match (a, b) {
        (Operand::StaticStr { ty: t1, bytes: b1 }, Operand::StaticStr { ty: t2, bytes: b2 }) => t1 == t2 && b1@
            == b2@,
        (Operand::StaticStr { .. }, _) => false,
        _ => a == b,
    }
}

impl Clone for Operand {
    fn clone(&self) -> (copy: Self)
        ensures
            same_operand(*self, copy),
    {
        match self {
            Operand::Constant(constant) => Operand::Constant(*constant),
            Operand::Copy(place) => Operand::Copy(*place),
            Operand::Move(place) => Operand::Move(*place),
            Operand::StaticStr { ty, bytes } => Operand::StaticStr { ty: *ty, bytes: bytes.clone() },
        }
    }
}

/// Two payload leaves are alike: the same offset and alike operands.
pub open spec fn same_leaf(a: VariantLeaf, b: VariantLeaf) -> bool {
    a.offset == b.offset && same_operand(a.operand, b.operand)
}

impl Clone for VariantLeaf {
    fn clone(&self) -> (copy: Self)
        ensures
            same_leaf(*self, copy),
    {
        VariantLeaf { offset: self.offset, operand: self.operand.clone() }
    }
}

/// Two values are alike: the same form with alike operands and leaves.
pub open spec fn same_rvalue(a: Rvalue, b: Rvalue) -> bool {
    match (a, b) {
        (Rvalue::Use(x), Rvalue::Use(y)) => same_operand(x, y),
        (Rvalue::Unary { operator: o1, operand: x }, Rvalue::Unary { operator: o2, operand: y }) => o1 == o2
            && same_operand(x, y),
        (Rvalue::Cast { operand: x, target: t1 }, Rvalue::Cast { operand: y, target: t2 }) => t1 == t2
            && same_operand(x, y),
        (
            Rvalue::Binary { operator: o1, left: l1, right: r1 },
            Rvalue::Binary { operator: o2, left: l2, right: r2 },
        ) => o1 == o2 && same_operand(l1, l2) && same_operand(r1, r2),
        (
            Rvalue::Compare { operator: o1, left: l1, right: r1 },
            Rvalue::Compare { operator: o2, left: l2, right: r2 },
        ) => o1 == o2 && same_operand(l1, l2) && same_operand(r1, r2),
        (
            Rvalue::Variant { definition: d1, leaves: v1 },
            Rvalue::Variant { definition: d2, leaves: v2 },
        ) => d1 == d2 && v1@.len() == v2@.len() && forall|i: int|
            0 <= i < v1@.len() ==> same_leaf(#[trigger] v1@[i], v2@[i]),
        (Rvalue::Error { code: c1, message: m1 }, Rvalue::Error { code: c2, message: m2 }) => same_operand(c1, c2)
            && same_operand(m1, m2),
        _ => false,
    }
}

impl Clone for Rvalue {
    fn clone(&self) -> (copy: Self)
        ensures
            same_rvalue(*self, copy),
    {
        match self {
            Rvalue::Use(operand) => Rvalue::Use(operand.clone()),
            Rvalue::Unary { operator, operand } => Rvalue::Unary { operator: *operator, operand: operand.clone() },
            Rvalue::Cast { operand, target } => Rvalue::Cast { operand: operand.clone(), target: *target },
            Rvalue::Binary { operator, left, right } => Rvalue::Binary {
                operator: *operator,
                left: left.clone(),
                right: right.clone(),
            },
            Rvalue::Compare { operator, left, right } => Rvalue::Compare {
                operator: *operator,
                left: left.clone(),
                right: right.clone(),
            },
            Rvalue::Variant { definition, leaves } => Rvalue::Variant {
                definition: *definition,
                leaves: leaves.clone(),
            },
            Rvalue::Error { code, message } => Rvalue::Error { code: code.clone(), message: message.clone() },
        }
    }
}

/// Two statements are alike: equal, with alike assigned values.
pub open spec fn same_statement(a: Statement, b: Statement) -> bool {
    match (a, b) {
        (
            Statement::Assign { destination: d1, value: v1, origin: o1 },
            Statement::Assign { destination: d2, value: v2, origin: o2 },
        ) => d1 == d2 && o1 == o2 && same_rvalue(v1, v2),
        (Statement::Assign { .. }, _) => false,
        _ => a == b,
    }
}

impl Clone for Statement {
    fn clone(&self) -> (copy: Self)
        ensures
            same_statement(*self, copy),
    {
        match self {
            Statement::Assign { destination, value, origin } => Statement::Assign {
                destination: *destination,
                value: value.clone(),
                origin: *origin,
            },
            Statement::BeginLoan { loan, origin } => Statement::BeginLoan { loan: *loan, origin: *origin },
            Statement::EndLoan { loan } => Statement::EndLoan { loan: *loan },
            Statement::BeginAggregate { destination, origin } => Statement::BeginAggregate {
                destination: *destination,
                origin: *origin,
            },
            Statement::FinishAggregate { destination } => Statement::FinishAggregate { destination: *destination },
            Statement::EnterRegion { region, origin } => Statement::EnterRegion { region: *region, origin: *origin },
            Statement::ExitRegion { region } => Statement::ExitRegion { region: *region },
            Statement::ExitAllocationContext { override_ } => Statement::ExitAllocationContext {
                override_: *override_,
            },
        }
    }
}

impl Clone for CallArgument {
    fn clone(&self) -> (copy: Self)
        ensures
            same_operand(self.operand, copy.operand),
    {
        CallArgument { operand: self.operand.clone() }
    }
}

/// Two argument lists are alike element by element.
pub open spec fn same_arguments(a: Seq<CallArgument>, b: Seq<CallArgument>) -> bool {
    a.len() == b.len() && forall|i: int| 0 <= i < a.len() ==> same_operand(#[trigger] a[i].operand, b[i].operand)
}

/// Two terminators are alike: the same form with alike operands, callee
/// and arguments.
pub open spec fn same_terminator(a: Terminator, b: Terminator) -> bool {
    match (a, b) {
        (
            Terminator::Switch { condition: c1, then_target: t1, else_target: e1, join_target: j1 },
            Terminator::Switch { condition: c2, then_target: t2, else_target: e2, join_target: j2 },
        ) => same_operand(c1, c2) && t1 == t2 && e1 == e2 && j1 == j2,
        (
            Terminator::Call { origin: o1, callee: k1, arguments: a1, continuation: n1 },
            Terminator::Call { origin: o2, callee: k2, arguments: a2, continuation: n2 },
        ) => o1 == o2 && same_instance(k1, k2) && same_arguments(a1@, a2@) && n1 == n2,
        (
            Terminator::InspectOutcome {
                origin: o1,
                source: s1,
                layer: l1,
                destination: d1,
                success: u1,
                failure: f1,
                failure_payload: p1,
            },
            Terminator::InspectOutcome {
                origin: o2,
                source: s2,
                layer: l2,
                destination: d2,
                success: u2,
                failure: f2,
                failure_payload: p2,
            },
        ) => o1 == o2 && same_operand(s1, s2) && l1 == l2 && d1 == d2 && u1 == u2 && f1 == f2 && p1 == p2,
        (Terminator::ReturnOutcome { source: s1 }, Terminator::ReturnOutcome { source: s2 }) => same_operand(s1, s2),
        (
            Terminator::ReturnFailure { code: c1, message: m1 },
            Terminator::ReturnFailure { code: c2, message: m2 },
        ) => same_operand(c1, c2) && same_operand(m1, m2),
        (
            Terminator::ReturnOutcomeSuccess { source: s1 },
            Terminator::ReturnOutcomeSuccess { source: s2 },
        ) => same_operand(s1, s2),
        (Terminator::ReturnValue { source: s1 }, Terminator::ReturnValue { source: s2 }) => same_operand(s1, s2),
        (Terminator::Switch { .. }, _) => false,
        (Terminator::Call { .. }, _) => false,
        (Terminator::InspectOutcome { .. }, _) => false,
        (Terminator::ReturnOutcome { .. }, _) => false,
        (Terminator::ReturnFailure { .. }, _) => false,
        (Terminator::ReturnOutcomeSuccess { .. }, _) => false,
        (Terminator::ReturnValue { .. }, _) => false,
        _ => a == b,
    }
}

impl Clone for Terminator {
    fn clone(&self) -> (copy: Self)
        ensures
            same_terminator(*self, copy),
    {
        match self {
            Terminator::Goto { target } => Terminator::Goto { target: *target },
            Terminator::Switch { condition, then_target, else_target, join_target } => Terminator::Switch {
                condition: condition.clone(),
                then_target: *then_target,
                else_target: *else_target,
                join_target: *join_target,
            },
            Terminator::Call { origin, callee, arguments, continuation } => {
                let copied = arguments.clone();
                assert(same_arguments(arguments@, copied@));
                Terminator::Call {
                    origin: *origin,
                    callee: callee.clone(),
                    arguments: copied,
                    continuation: *continuation,
                }
            },
            Terminator::InspectOutcome {
                origin,
                source,
                layer,
                destination,
                success,
                failure,
                failure_payload,
            } => Terminator::InspectOutcome {
                origin: *origin,
                source: source.clone(),
                layer: *layer,
                destination: *destination,
                success: *success,
                failure: *failure,
                failure_payload: *failure_payload,
            },
            Terminator::Drop { place, plan, target } => Terminator::Drop { place: *place, plan: *plan, target: *target },
            Terminator::Trap => Terminator::Trap,
            Terminator::PropagateFailure => Terminator::PropagateFailure,
            Terminator::ReturnOutcome { source } => Terminator::ReturnOutcome { source: source.clone() },
            Terminator::ReturnFailure { code, message } => Terminator::ReturnFailure {
                code: code.clone(),
                message: message.clone(),
            },
            Terminator::ReturnOutcomeSuccess { source } => Terminator::ReturnOutcomeSuccess { source: source.clone() },
            Terminator::ReturnOptionalNone => Terminator::ReturnOptionalNone,
            Terminator::ReturnValue { source } => Terminator::ReturnValue { source: source.clone() },
            Terminator::Return => Terminator::Return,
        }
    }
}

/// Two blocks are alike: the same scope, alike statements one by one and
/// alike terminators.
pub open spec fn same_block(a: BasicBlock, b: BasicBlock) -> bool {
    &&& a.scope == b.scope
    &&& a.statements@.len() == b.statements@.len()
    &&& forall|i: int| 0 <= i < a.statements@.len() ==> same_statement(#[trigger] a.statements@[i], b.statements@[i])
    &&& same_terminator(a.terminator, b.terminator)
}

impl Clone for BasicBlock {
    fn clone(&self) -> (copy: Self)
        ensures
            same_block(*self, copy),
    {
        BasicBlock { scope: self.scope, statements: self.statements.clone(), terminator: self.terminator.clone() }
    }
}

/// Two bodies are alike: equal tables, alike blocks one by one and alike
/// destruction plans one by one.
pub open spec fn same_body(a: Body, b: Body) -> bool {
    &&& a.source_body == b.source_body
    &&& a.source_span == b.source_span
    &&& a.return_local == b.return_local
    &&& a.return_mode == b.return_mode
    &&& a.root_scope == b.root_scope
    &&& a.entry == b.entry
    &&& a.scopes@ == b.scopes@
    &&& a.locals@ == b.locals@
    &&& a.loop_regions@ == b.loop_regions@
    &&& a.allocation_regions@ == b.allocation_regions@
    &&& a.allocation_overrides@ == b.allocation_overrides@
    &&& a.loans@ == b.loans@
    &&& a.projections@ == b.projections@
    &&& a.blocks@.len() == b.blocks@.len()
    &&& forall|i: int| 0 <= i < a.blocks@.len() ==> same_block(#[trigger] a.blocks@[i], b.blocks@[i])
    &&& a.drop_plans@.len() == b.drop_plans@.len()
    &&& forall|i: int| 0 <= i < a.drop_plans@.len() ==> same_plan(#[trigger] a.drop_plans@[i], b.drop_plans@[i])
}

impl Clone for Body {
    fn clone(&self) -> (copy: Self)
        ensures
            same_body(*self, copy),
    {
        Body {
            source_body: self.source_body,
            source_span: self.source_span,
            return_local: self.return_local,
            return_mode: self.return_mode,
            root_scope: self.root_scope,
            scopes: self.scopes.clone(),
            locals: self.locals.clone(),
            entry: self.entry,
            blocks: self.blocks.clone(),
            loop_regions: self.loop_regions.clone(),
            allocation_regions: self.allocation_regions.clone(),
            allocation_overrides: self.allocation_overrides.clone(),
            loans: self.loans.clone(),
            projections: self.projections.clone(),
            drop_plans: self.drop_plans.clone(),
        }
    }
}

/// Being alike is symmetric and transitive on values.
pub proof fn lemma_alike_rvalues(a: Rvalue, b: Rvalue, c: Rvalue)
    ensures
        same_rvalue(a, b) ==> same_rvalue(b, a),
        same_rvalue(a, b) && same_rvalue(b, c) ==> same_rvalue(a, c),
{
}

/// Being alike is symmetric and transitive on statements.
pub proof fn lemma_alike_statements(a: Statement, b: Statement, c: Statement)
    ensures
        same_statement(a, b) ==> same_statement(b, a),
        same_statement(a, b) && same_statement(b, c) ==> same_statement(a, c),
{
    if let (Statement::Assign { value: x, .. }, Statement::Assign { value: y, .. }) = (a, b) {
        if let Statement::Assign { value: z, .. } = c {
            lemma_alike_rvalues(x, y, z);
        } else {
            lemma_alike_rvalues(x, y, y);
        }
    }
}

/// Being alike is symmetric and transitive on terminators.
pub proof fn lemma_alike_terminators(a: Terminator, b: Terminator, c: Terminator)
    ensures
        same_terminator(a, b) ==> same_terminator(b, a),
        same_terminator(a, b) && same_terminator(b, c) ==> same_terminator(a, c),
{
    if let (Terminator::Call { callee: x, .. }, Terminator::Call { callee: y, .. }) = (a, b) {
        if let Terminator::Call { callee: z, .. } = c {
            lemma_alike_instances(x, y, z);
        } else {
            lemma_alike_instances(x, y, y);
        }
    }
}

/// Being alike is symmetric and transitive on blocks.
pub proof fn lemma_alike_blocks(a: BasicBlock, b: BasicBlock, c: BasicBlock)
    ensures
        same_block(a, b) ==> same_block(b, a),
        same_block(a, b) && same_block(b, c) ==> same_block(a, c),
{
    lemma_alike_terminators(a.terminator, b.terminator, c.terminator);
    assert forall|i: int| 0 <= i < a.statements@.len() implies {
        &&& same_statement(a.statements@[i], b.statements@[i]) ==> same_statement(b.statements@[i], a.statements@[i])
        &&& same_statement(a.statements@[i], b.statements@[i]) && same_statement(b.statements@[i], c.statements@[i])
            ==> same_statement(a.statements@[i], c.statements@[i])
    } by {
        lemma_alike_statements(a.statements@[i], b.statements@[i], c.statements@[i]);
    }
}

/// Being alike is symmetric and transitive on bodies.
pub proof fn lemma_alike_bodies(a: Body, b: Body, c: Body)
    ensures
        same_body(a, b) ==> same_body(b, a),
        same_body(a, b) && same_body(b, c) ==> same_body(a, c),
{
    assert forall|i: int| 0 <= i < a.blocks@.len() implies {
        &&& same_block(a.blocks@[i], b.blocks@[i]) ==> same_block(b.blocks@[i], a.blocks@[i])
        &&& same_block(a.blocks@[i], b.blocks@[i]) && same_block(b.blocks@[i], c.blocks@[i]) ==> same_block(
            a.blocks@[i],
            c.blocks@[i],
        )
    } by {
        lemma_alike_blocks(a.blocks@[i], b.blocks@[i], c.blocks@[i]);
    }
    assert forall|i: int| 0 <= i < a.drop_plans@.len() implies {
        &&& same_plan(a.drop_plans@[i], b.drop_plans@[i]) ==> same_plan(b.drop_plans@[i], a.drop_plans@[i])
        &&& same_plan(a.drop_plans@[i], b.drop_plans@[i]) && same_plan(b.drop_plans@[i], c.drop_plans@[i])
            ==> same_plan(a.drop_plans@[i], c.drop_plans@[i])
    } by {
        lemma_alike_plans(a.drop_plans@[i], b.drop_plans@[i], c.drop_plans@[i]);
    }
    if same_body(a, b) {
        assert forall|i: int| 0 <= i < b.blocks@.len() implies same_block(#[trigger] b.blocks@[i], a.blocks@[i]) by {
            assert(same_block(a.blocks@[i], b.blocks@[i]));
        }
        assert forall|i: int| 0 <= i < b.drop_plans@.len() implies same_plan(#[trigger] b.drop_plans@[i], a.drop_plans@[i]) by {
            assert(same_plan(a.drop_plans@[i], b.drop_plans@[i]));
        }
        if same_body(b, c) {
            assert forall|i: int| 0 <= i < a.blocks@.len() implies same_block(#[trigger] a.blocks@[i], c.blocks@[i]) by {
                assert(same_block(a.blocks@[i], b.blocks@[i]));
                assert(same_block(b.blocks@[i], c.blocks@[i]));
            }
            assert forall|i: int| 0 <= i < a.drop_plans@.len() implies same_plan(#[trigger] a.drop_plans@[i], c.drop_plans@[i]) by {
                assert(same_plan(a.drop_plans@[i], b.drop_plans@[i]));
                assert(same_plan(b.drop_plans@[i], c.drop_plans@[i]));
            }
        }
    }
}

} // verus!
