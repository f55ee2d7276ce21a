//! The statement shapes that scalar lowering takes, and the split of a body
//! into its leading statements and its tail.

use crate::lower::syntax::{
    AssignmentStmt, BindingStmt, Block, Expr, ForRangeStmt, IfStmt, LoopStmt, RegionStmt, Stmt,
    WhileStmt,
};
use vstd::prelude::*;

verus! {

/// A statement that scalar lowering handles.
#[derive(Debug, Clone, Copy)]
pub enum ScalarStatement<'a> {
    Binding(&'a BindingStmt),
    Assignment(&'a AssignmentStmt),
    If(&'a IfStmt),
    ForRange(&'a ForRangeStmt),
    Loop(&'a LoopStmt),
    While(&'a WhileStmt),
    Region(&'a RegionStmt),
    Expression(&'a Expr),
    Break,
    Continue,
}

/// How a scalar body ends.
#[derive(Debug, Clone, Copy)]
pub enum ScalarTail<'a> {
    Expression(&'a Expr),
    Return(&'a Expr),
    Conditional(&'a IfStmt),
}

/// The scalar statement that `statement` is, if it is one.
pub open spec fn scalar_statement_of<'a>(statement: &'a Stmt) -> Option<ScalarStatement<'a>> {
    match statement {
        Stmt::Binding(binding) => Some(ScalarStatement::Binding(binding)),
        Stmt::Assignment(assignment) => Some(ScalarStatement::Assignment(assignment)),
        Stmt::If(conditional) => Some(ScalarStatement::If(conditional)),
        Stmt::ForRange(range) => Some(ScalarStatement::ForRange(range)),
        Stmt::Loop(body) => Some(ScalarStatement::Loop(body)),
        Stmt::While(body) => Some(ScalarStatement::While(body)),
        Stmt::Region(region) => Some(ScalarStatement::Region(region)),
        Stmt::Expression(statement) => Some(ScalarStatement::Expression(&statement.expression)),
        Stmt::Break(_) => Some(ScalarStatement::Break),
        Stmt::Continue(_) => Some(ScalarStatement::Continue),
        _ => None,
    }
}

/// The statements of `statements` that run: all but the imports, in order.
pub open spec fn runtime_statements(statements: Seq<Stmt>) -> Seq<Stmt>
    decreases statements.len(),
{
    if statements.len() == 0 {
        Seq::empty()
    } else if statements.last().is_import_spec() {
        runtime_statements(statements.drop_last())
    } else {
        runtime_statements(statements.drop_last()).push(statements.last())
    }
}

/// Whether every statement of `statements` is a scalar statement.
pub open spec fn all_scalar(statements: Seq<Stmt>) -> bool {
    forall|i: int| 0 <= i < statements.len() ==> (#[trigger] scalar_statement_of(&statements[i])) is Some
}

/// The scalar statements of `statements`, one for each.
pub open spec fn scalar_statements<'a>(statements: Seq<Stmt>) -> Seq<ScalarStatement<'a>> {
    statements.map_values(|statement: Stmt| scalar_statement_of(&statement).unwrap())
}

/// The tail of a block without a result, from its last running statement:
/// a `return` with a value, or a conditional.
pub open spec fn statement_tail<'a>(last: &'a Stmt) -> Option<ScalarTail<'a>> {
    match last {
        Stmt::Return(statement) => match statement.expression {
            Some(expression) => Some(ScalarTail::Return(&expression)),
            None => None,
        },
        Stmt::If(conditional) => Some(ScalarTail::Conditional(conditional)),
        _ => None,
    }
}

/// The leading statements and tail of a scalar body: with a result, all
/// running statements lead and the result is the tail; without one, the
/// last running statement must be a tail and the others lead. Every
/// leading statement must be a scalar statement.
pub open spec fn body_parts<'a>(block: &'a Block) -> Option<(Seq<ScalarStatement<'a>>, ScalarTail<'a>)> {
    let running = runtime_statements(block.statements@);
    let split: Option<(Seq<Stmt>, ScalarTail<'a>)> = match block.result {
        Some(result) => Some((running, ScalarTail::Expression(&*result))),
        None => if running.len() == 0 {
            None
        } else {
            match statement_tail(&running.last()) {
                Some(tail) => Some((running.drop_last(), tail)),
                None => None,
            }
        },
    };
    match split {
        Some((leading, tail)) => if all_scalar(leading) {
            Some((scalar_statements(leading), tail))
        } else {
            None
        },
        None => None,
    }
}

impl<'a> ScalarTail<'a> {
    /// The tail's value expression: the result or the returned value.
    pub fn expression(&self) -> (expression: Option<&'a Expr>)
        ensures
            expression == match *self {
                ScalarTail::Expression(expression) => Some(expression),
                ScalarTail::Return(expression) => Some(expression),
                ScalarTail::Conditional(_) => None::<&Expr>,
            },
    {
        match self {
            ScalarTail::Expression(expression) => Some(*expression),
            ScalarTail::Return(expression) => Some(*expression),
            ScalarTail::Conditional(_) => None,
        }
    }

    /// The conditional the tail is or evaluates, if it is one.
    pub fn conditional(&self) -> (conditional: Option<&'a IfStmt>)
        ensures
            conditional == match *self {
                ScalarTail::Expression(Expr::If(conditional)) => Some(&**conditional),
                ScalarTail::Return(Expr::If(conditional)) => Some(&**conditional),
                ScalarTail::Conditional(conditional) => Some(conditional),
                _ => None::<&IfStmt>,
            },
    {
        match self {
            ScalarTail::Expression(Expr::If(conditional)) => Some(&**conditional),
            ScalarTail::Return(Expr::If(conditional)) => Some(&**conditional),
            ScalarTail::Conditional(conditional) => Some(*conditional),
            _ => None,
        }
    }

    /// Whether the body ends in an explicit `return`.
    pub fn is_explicit_return(&self) -> (explicit: bool)
        ensures
            explicit == (*self is Return),
    {
        match self {
            ScalarTail::Return(_) => true,
            _ => false,
        }
    }
}

/// The scalar statement that `statement` is, if it is one.
pub fn scalar_statement<'a>(statement: &'a Stmt) -> (scalar: Option<ScalarStatement<'a>>)
    ensures
        scalar == scalar_statement_of(statement),
{
    match statement {
        Stmt::Binding(binding) => Some(ScalarStatement::Binding(binding)),
        Stmt::Assignment(assignment) => Some(ScalarStatement::Assignment(assignment)),
        Stmt::If(conditional) => Some(ScalarStatement::If(conditional)),
        Stmt::ForRange(range) => Some(ScalarStatement::ForRange(range)),
        Stmt::Loop(body) => Some(ScalarStatement::Loop(body)),
        Stmt::While(body) => Some(ScalarStatement::While(body)),
        Stmt::Region(region) => Some(ScalarStatement::Region(region)),
        Stmt::Expression(statement) => Some(ScalarStatement::Expression(&statement.expression)),
        Stmt::Break(_) => Some(ScalarStatement::Break),
        Stmt::Continue(_) => Some(ScalarStatement::Continue),
        _ => None,
    }
}

/// The running statements of `statements`, in order.
fn running_statements<'a>(statements: &'a Vec<Stmt>) -> (running: Vec<&'a Stmt>)
    ensures
        running@.map_values(|statement: &Stmt| *statement) == runtime_statements(statements@),
{
    let mut running: Vec<&'a Stmt> = Vec::new();
    let mut index: usize = 0;
    while index < statements.len()
        invariant
            index <= statements@.len(),
            running@.map_values(|statement: &Stmt| *statement) == runtime_statements(
                statements@.take(index as int),
            ),
        decreases statements@.len() - index,
    {
        let statement = &statements[index];
        let ghost before = running@;
        proof {
            assert(statements@.take(index + 1).drop_last() =~= statements@.take(index as int));
            assert(statements@.take(index + 1).last() == statements@[index as int]);
        }
        if !statement.is_import() {
            running.push(statement);
            proof {
                assert(running@.map_values(|statement: &Stmt| *statement) =~= before.map_values(
                    |statement: &Stmt| *statement,
                ).push(*statement));
            }
        }
        index = index + 1;
    }
    proof {
        assert(statements@.take(statements@.len() as int) =~= statements@);
    }
    running
}

/// The scalar statements of `statements`, or `None` if one is not scalar.
fn scalar_statements_of<'a>(statements: &[&'a Stmt]) -> (scalar: Option<Vec<ScalarStatement<'a>>>)
    ensures
        ({
            let statements = statements@.map_values(|statement: &Stmt| *statement);
            match scalar {
                Some(scalar) => all_scalar(statements) && scalar@ == scalar_statements(statements),
                None => !all_scalar(statements),
            }
        }),
{
    let ghost owned = statements@.map_values(|statement: &Stmt| *statement);
    let mut scalar: Vec<ScalarStatement<'a>> = Vec::new();
    let mut index: usize = 0;
    while index < statements.len()
        invariant
            index <= statements@.len(),
            owned == statements@.map_values(|statement: &Stmt| *statement),
            scalar@.len() == index,
            forall|i: int| 0 <= i < index ==> (#[trigger] scalar_statement_of(&owned[i])) is Some,
            forall|i: int| 0 <= i < index ==> scalar@[i] == scalar_statement_of(&owned[i]).unwrap(),
        decreases statements@.len() - index,
    {
        match scalar_statement(statements[index]) {
            Some(statement) => scalar.push(statement),
            None => {
                proof {
                    assert(scalar_statement_of(&owned[index as int]) is None);
                }
                return None;
            },
        }
        index = index + 1;
    }
    proof {
        assert(scalar@ =~= scalar_statements(owned));
    }
    Some(scalar)
}

/// Splits a scalar body into its leading statements and its tail; `None`
/// where the body has no tail that scalar lowering takes, or a leading
/// statement that it does not handle.
pub fn scalar_body_parts<'a>(block: &'a Block) -> (parts: Option<(Vec<ScalarStatement<'a>>, ScalarTail<'a>)>)
    ensures
        match parts {
            Some((statements, tail)) => body_parts(block) == Some((statements@, tail)),
            None => body_parts(block) is None,
        },
{
    let running = running_statements(&block.statements);
    let ghost view = running@.map_values(|statement: &Stmt| *statement);
    match &block.result {
        Some(result) => {
            let statements = scalar_statements_of(running.as_slice());
            match statements {
                Some(statements) => Some((statements, ScalarTail::Expression(&**result))),
                None => None,
            }
        },
        None => {
            if running.len() == 0 {
                return None;
            }
            let last = running[running.len() - 1];
            let tail = match last {
                Stmt::Return(statement) => match &statement.expression {
                    Some(expression) => ScalarTail::Return(expression),
                    None => return None,
                },
                Stmt::If(conditional) => ScalarTail::Conditional(conditional),
                _ => return None,
            };
            let leading = running.as_slice().split_at(running.len() - 1).0;
            proof {
                assert(leading@.map_values(|statement: &Stmt| *statement) =~= view.drop_last());
            }
            match scalar_statements_of(leading) {
                Some(statements) => Some((statements, tail)),
                None => None,
            }
        },
    }
}

/// How deeply blocks nest in `block`.
pub open spec fn block_depth(block: Block) -> nat
    decreases block, 0nat,
{
    1 + statements_depth(block.statements@, block.statements@.len())
}

/// The deepest nesting among the first `count` of `statements`.
pub open spec fn statements_depth(statements: Seq<Stmt>, count: nat) -> nat
    decreases statements, count,
{
    if count == 0 || count > statements.len() {
        0
    } else {
        let rest = statements_depth(statements, (count - 1) as nat);
        let last = stmt_depth(statements[count - 1]);
        if rest < last {
            last
        } else {
            rest
        }
    }
}

/// How deeply blocks nest in `statement`.
pub open spec fn stmt_depth(statement: Stmt) -> nat
    decreases statement, 0nat,
{
    match statement {
        Stmt::If(conditional) => {
            let then_depth = block_depth(conditional.then_block);
            let else_depth = match conditional.else_block {
                Some(block) => block_depth(block),
                None => 0,
            };
            1 + if then_depth < else_depth {
                else_depth
            } else {
                then_depth
            }
        },
        Stmt::ForRange(range) => 1 + block_depth(range.body),
        Stmt::Loop(body) => 1 + block_depth(body.body),
        Stmt::While(body) => 1 + block_depth(body.body),
        Stmt::Region(region) => 1 + block_depth(region.body),
        _ => 0,
    }
}

/// How deeply blocks nest in the statement a scalar statement stands for.
pub open spec fn scalar_depth(statement: ScalarStatement) -> nat {
    match statement {
        ScalarStatement::If(conditional) => stmt_depth(Stmt::If(*conditional)),
        ScalarStatement::ForRange(range) => stmt_depth(Stmt::ForRange(*range)),
        ScalarStatement::Loop(body) => stmt_depth(Stmt::Loop(*body)),
        ScalarStatement::While(body) => stmt_depth(Stmt::While(*body)),
        ScalarStatement::Region(region) => stmt_depth(Stmt::Region(*region)),
        _ => 0,
    }
}

/// The deepest nesting among `statements`.
pub open spec fn scalars_depth(statements: Seq<ScalarStatement>) -> nat
    decreases statements.len(),
{
    if statements.len() == 0 {
        0
    } else {
        let rest = scalars_depth(statements.drop_last());
        let last = scalar_depth(statements.last());
        if rest < last {
            last
        } else {
            rest
        }
    }
}

/// A statement nests no deeper than the statements it is among.
pub proof fn lemma_statement_depth_bound(statements: Seq<Stmt>, count: nat, j: int)
    requires
        0 <= j < count <= statements.len(),
    ensures
        stmt_depth(statements[j]) <= statements_depth(statements, count),
    decreases count,
{
    if j < count - 1 {
        lemma_statement_depth_bound(statements, (count - 1) as nat, j);
    }
}

/// A scalar statement nests no deeper than the statements it is among.
pub proof fn lemma_scalar_depth_bound(statements: Seq<ScalarStatement>, j: int)
    requires
        0 <= j < statements.len(),
    ensures
        scalar_depth(statements[j]) <= scalars_depth(statements),
    decreases statements.len(),
{
    if j < statements.len() - 1 {
        lemma_scalar_depth_bound(statements.drop_last(), j);
    }
}

/// Scalar statements each nesting at most `bound` deep nest at most that deep.
proof fn lemma_scalars_depth_within(statements: Seq<ScalarStatement>, bound: nat)
    requires
        forall|i: int| 0 <= i < statements.len() ==> scalar_depth(#[trigger] statements[i]) <= bound,
    ensures
        scalars_depth(statements) <= bound,
    decreases statements.len(),
{
    if statements.len() > 0 {
        lemma_scalars_depth_within(statements.drop_last(), bound);
    }
}

/// Every running statement is a statement of the block.
proof fn lemma_running_from(statements: Seq<Stmt>, i: int)
    requires
        0 <= i < runtime_statements(statements).len(),
    ensures
        exists|j: int| 0 <= j < statements.len() && statements[j] == runtime_statements(statements)[i],
    decreases statements.len(),
{
    let rest = runtime_statements(statements.drop_last());
    if i < rest.len() {
        lemma_running_from(statements.drop_last(), i);
        let j = choose|j: int| 0 <= j < statements.drop_last().len() && statements.drop_last()[j] == rest[i];
        assert(statements[j] == runtime_statements(statements)[i]);
    } else {
        assert(statements[statements.len() - 1] == runtime_statements(statements)[i]);
    }
}

/// The scalar statements of a block's running statements nest less deeply
/// than the block.
pub proof fn lemma_block_statements_depth(block: Block)
    requires
        all_scalar(runtime_statements(block.statements@)),
    ensures
        scalars_depth(scalar_statements(runtime_statements(block.statements@))) < block_depth(block),
{
    let running = runtime_statements(block.statements@);
    let scalars = scalar_statements(running);
    let bound = statements_depth(block.statements@, block.statements@.len());
    assert forall|i: int| 0 <= i < scalars.len() implies scalar_depth(#[trigger] scalars[i]) <= bound by {
        lemma_running_from(block.statements@, i);
        let j = choose|j: int| 0 <= j < block.statements@.len() && block.statements@[j] == running[i];
        lemma_statement_depth_bound(block.statements@, block.statements@.len(), j);
        assert(scalar_statement_of(&running[i]) is Some);
    }
    lemma_scalars_depth_within(scalars, bound);
}

/// Whether a block of `statements` has the shape the block lowering takes:
/// no loops (and no conditionals unless `conditionals`), `break` and
/// `continue` only inside a loop, and nothing after them.
pub open spec fn block_shape(statements: Seq<ScalarStatement>, in_loop: bool, conditionals: bool) -> bool {
    forall|i: int|
        0 <= i < statements.len() ==> {
            let statement = #[trigger] statements[i];
            &&& conditionals || !(statement is If)
            &&& !(statement is While) && !(statement is ForRange) && !(statement is Loop)
            &&& (statement is Break || statement is Continue) ==> in_loop && i == statements.len() - 1
        }
}

/// The statements of a block without a result whose running statements
/// are scalar and have the block shape.
pub open spec fn block_statements<'a>(block: &'a Block, in_loop: bool, conditionals: bool) -> Option<Seq<ScalarStatement<'a>>> {
    let running = runtime_statements(block.statements@);
    if block.result is None && all_scalar(running) && block_shape(scalar_statements(running), in_loop, conditionals) {
        Some(scalar_statements(running))
    } else {
        None
    }
}

/// The statements of a block whose running statements are all scalar,
/// checked for the shape the block lowering takes.
fn shaped_block_statements<'a>(block: &'a Block, in_loop: bool, conditionals: bool) -> (statements: Option<Vec<ScalarStatement<'a>>>)
    ensures
        match statements {
            Some(statements) => block_statements(block, in_loop, conditionals) == Some(statements@),
            None => block_statements(block, in_loop, conditionals) is None,
        },
{
    if block.result.is_some() {
        return None;
    }
    let running = running_statements(&block.statements);
    let slice = running.as_slice();
    assert(slice@ == running@);
    let statements = match scalar_statements_of(slice) {
        Some(statements) => statements,
        None => return None,
    };
    let ghost expected = scalar_statements(runtime_statements(block.statements@));
    assert(statements@ == expected);
    let mut index: usize = 0;
    while index < statements.len()
        invariant
            index <= statements@.len(),
            statements@ == expected,
            expected == scalar_statements(runtime_statements(block.statements@)),
            all_scalar(runtime_statements(block.statements@)),
            block.result is None,
            forall|i: int|
                0 <= i < index ==> {
                    let statement = #[trigger] statements@[i];
                    &&& conditionals || !(statement is If)
                    &&& !(statement is While) && !(statement is ForRange) && !(statement is Loop)
                    &&& (statement is Break || statement is Continue) ==> in_loop && i == statements@.len() - 1
                },
        decreases statements@.len() - index,
    {
        let allowed = match statements[index] {
            ScalarStatement::If(_) => conditionals,
            ScalarStatement::While(_) | ScalarStatement::ForRange(_) | ScalarStatement::Loop(_) => false,
            ScalarStatement::Break | ScalarStatement::Continue => in_loop && index + 1 == statements.len(),
            _ => true,
        };
        if !allowed {
            proof {
                let statement = statements@[index as int];
                assert(!({
                    &&& conditionals || !(statement is If)
                    &&& !(statement is While) && !(statement is ForRange) && !(statement is Loop)
                    &&& (statement is Break || statement is Continue) ==> in_loop && index == statements@.len() - 1
                }));
                assert(!block_shape(statements@, in_loop, conditionals));
            }
            return None;
        }
        index = index + 1;
    }
    Some(statements)
}

/// The statements of the block of a conditional branch, or of a region:
/// scalar statements with no loops or conditionals in them.
pub fn scalar_linear_block_statements<'a>(block: &'a Block, in_loop: bool) -> (statements: Option<Vec<ScalarStatement<'a>>>)
    ensures
        match statements {
            Some(statements) => block_statements(block, in_loop, false) == Some(statements@),
            None => block_statements(block, in_loop, false) is None,
        },
{
    shaped_block_statements(block, in_loop, false)
}

/// The statements of a loop body: scalar statements with conditionals but
/// no nested loops in them.
pub fn scalar_loop_block_statements<'a>(block: &'a Block) -> (statements: Option<Vec<ScalarStatement<'a>>>)
    ensures
        match statements {
            Some(statements) => block_statements(block, true, true) == Some(statements@),
            None => block_statements(block, true, true) is None,
        },
{
    shaped_block_statements(block, true, true)
}

/// Whether the last of `statements` leaves the block.
pub open spec fn exits_last(statements: Seq<ScalarStatement>) -> bool {
    statements.len() > 0 && (statements.last() is Break || statements.last() is Continue)
}

/// Whether a conditional statement has branches that lowering takes: both
/// have the block shape, and they do not both leave.
pub open spec fn conditional_supported(statement: &IfStmt, in_loop: bool) -> bool {
    match block_statements(&statement.then_block, in_loop, false) {
        None => false,
        Some(then_statements) => match statement.else_block {
            None => true,
            Some(otherwise) => match block_statements(&otherwise, in_loop, false) {
                None => false,
                Some(else_statements) => !(exits_last(then_statements) && exits_last(else_statements)),
            },
        },
    }
}

/// Whether the last statement leaves the block.
fn ends_in_exit(statements: &Vec<ScalarStatement>) -> (exits: bool)
    ensures
        exits == exits_last(statements@),
{
    if statements.len() == 0 {
        return false;
    }
    match statements[statements.len() - 1] {
        ScalarStatement::Break | ScalarStatement::Continue => true,
        _ => false,
    }
}

/// Whether a conditional statement has branches that lowering takes.
pub fn scalar_conditional_statement_is_supported(statement: &IfStmt, in_loop: bool) -> (supported: bool)
    ensures
        supported == conditional_supported(statement, in_loop),
{
    let then_statements = match scalar_linear_block_statements(&statement.then_block, in_loop) {
        Some(statements) => statements,
        None => return false,
    };
    let else_statements = match &statement.else_block {
        Some(block) => match scalar_linear_block_statements(block, in_loop) {
            Some(statements) => statements,
            None => return false,
        },
        None => Vec::new(),
    };
    let then_exits = ends_in_exit(&then_statements);
    let else_exits = ends_in_exit(&else_statements);
    !(then_exits && else_exits)
}

/// The running statements of a block are its statements other than the
/// imports, in their order.
pub proof fn lemma_running_statements_skip_imports(statements: Seq<Stmt>)
    ensures
        runtime_statements(statements) == statements.filter(|statement: Stmt| !statement.is_import_spec()),
    decreases statements.len(),
{
    reveal(Seq::filter);
    if statements.len() > 0 {
        lemma_running_statements_skip_imports(statements.drop_last());
    }
}

/// Every statement but imports, returns and drops is a scalar statement,
/// and a scalar statement stands for the statement it came from.
pub proof fn lemma_scalar_statements(statement: &Stmt)
    ensures
        scalar_statement_of(statement) is None <==> (statement is Import || statement is FromImport
            || statement is Return || statement is Drop),
        statement is Break <==> scalar_statement_of(statement) == Some(ScalarStatement::Break),
        statement is Continue <==> scalar_statement_of(statement) == Some(ScalarStatement::Continue),
        statement matches Stmt::If(conditional) ==> scalar_statement_of(statement) == Some(
            ScalarStatement::If(&conditional),
        ),
        statement matches Stmt::Loop(body) ==> scalar_statement_of(statement) == Some(ScalarStatement::Loop(&body)),
        statement matches Stmt::While(body) ==> scalar_statement_of(statement) == Some(ScalarStatement::While(&body)),
{
}

/// A body with a result ends in that result, after all its running
/// statements when they are scalar; a body ending in a `return` of a value
/// ends in that value; a body with neither has no scalar form.
pub proof fn lemma_body_tails(block: &Block)
    ensures
        match block.result {
            Some(result) => all_scalar(runtime_statements(block.statements@)) ==> body_parts(block) == Some(
                (scalar_statements(runtime_statements(block.statements@)), ScalarTail::Expression(&*result)),
            ),
            None => runtime_statements(block.statements@).len() == 0 ==> body_parts(block) is None,
        },
        block.result is None && runtime_statements(block.statements@).len() > 0 ==> match runtime_statements(
            block.statements@,
        ).last() {
            Stmt::Return(returned) => match returned.expression {
                Some(expression) => match body_parts(block) {
                    Some((_, tail)) => tail == ScalarTail::Return(&expression),
                    None => true,
                },
                None => body_parts(block) is None,
            },
            Stmt::If(_) => true,
            _ => body_parts(block) is None,
        },
{
}

} // verus!

