use mir::ids::{BasicBlockId, LocalId, ScopeId};
use mir::initialization::{validate, InitializationError, InitializationLocation};
use mir::locals::{Local, LocalOrigin, LocalStorage, ScalarType};
use mir::model::{
    BasicBlock, Body, Constant, Operand, Origin, Place, ReturnMode, Rvalue, Scope, Statement,
    Terminator,
};
use mir::semantic::{BodyId, ByteSpan, ExprId, SourceId, TyId};

fn body_of(locals: Vec<Local>, blocks: Vec<BasicBlock>) -> Body {
    let span = ByteSpan::new(SourceId::new(0), 0, 1);
    let root_scope = ScopeId::from_index(0);
    Body {
        source_body: BodyId::from_index(0),
        source_span: span,
        return_local: LocalId::from_index(0),
        return_mode: ReturnMode::Plain,
        root_scope,
        scopes: vec![Scope::root(span)],
        locals,
        entry: BasicBlockId::from_index(0),
        blocks,
        loop_regions: Vec::new(),
        allocation_regions: Vec::new(),
        allocation_overrides: Vec::new(),
        loans: Vec::new(),
        projections: Vec::new(),
        drop_plans: Vec::new(),
    }
}

fn scalar(storage: LocalStorage, origin: LocalOrigin) -> Local {
    Local::scalar(TyId::from_index(0), ScalarType::I32, storage, origin, ScopeId::from_index(0))
}

fn constant(value: u64) -> Operand {
    Operand::Constant(Constant {
        ty: TyId::from_index(0),
        scalar: ScalarType::I32,
        value,
    })
}

#[test]
fn a_move_removes_the_source_from_later_state() {
    let span = ByteSpan::new(SourceId::new(0), 0, 1);
    let source = LocalId::from_index(1);
    let body = body_of(
        vec![
            scalar(LocalStorage::Return, LocalOrigin::Return),
            scalar(LocalStorage::Local, LocalOrigin::Desugared(span)),
        ],
        vec![BasicBlock {
            scope: ScopeId::from_index(0),
            statements: vec![
                Statement::Assign {
                    destination: Place::local(source),
                    value: Rvalue::Use(constant(1)),
                    origin: Origin::Expression(ExprId::from_index(0)),
                },
                Statement::Assign {
                    destination: Place::local(LocalId::from_index(0)),
                    value: Rvalue::Use(Operand::Move(Place::local(source))),
                    origin: Origin::Expression(ExprId::from_index(1)),
                },
                Statement::Assign {
                    destination: Place::local(LocalId::from_index(0)),
                    value: Rvalue::Use(Operand::Move(Place::local(source))),
                    origin: Origin::Expression(ExprId::from_index(2)),
                },
            ],
            terminator: Terminator::Return,
        }],
    );

    assert_eq!(
        validate(&body),
        vec![InitializationError {
            block: BasicBlockId::from_index(0),
            location: InitializationLocation::Statement(2),
            local: source,
        }]
    );
}

#[test]
fn parameters_start_initialized_and_the_return_local_must_be_written() {
    let span = ByteSpan::new(SourceId::new(0), 0, 1);
    let body = body_of(
        vec![
            scalar(LocalStorage::Return, LocalOrigin::Return),
            scalar(LocalStorage::Parameter { ordinal: 0 }, LocalOrigin::Desugared(span)),
        ],
        vec![BasicBlock {
            scope: ScopeId::from_index(0),
            statements: Vec::new(),
            terminator: Terminator::Switch {
                condition: Operand::Copy(Place::local(LocalId::from_index(1))),
                then_target: BasicBlockId::from_index(0),
                else_target: BasicBlockId::from_index(0),
                join_target: None,
            },
        }],
    );
    assert!(validate(&body).is_empty());

    let returning = body_of(
        vec![scalar(LocalStorage::Return, LocalOrigin::Return)],
        vec![BasicBlock {
            scope: ScopeId::from_index(0),
            statements: Vec::new(),
            terminator: Terminator::Return,
        }],
    );
    assert_eq!(
        validate(&returning),
        vec![InitializationError {
            block: BasicBlockId::from_index(0),
            location: InitializationLocation::Return,
            local: LocalId::from_index(0),
        }]
    );
}

#[test]
fn a_value_written_on_one_branch_only_is_not_initialized_at_the_join() {
    let span = ByteSpan::new(SourceId::new(0), 0, 1);
    let value = LocalId::from_index(1);
    let body = body_of(
        vec![
            scalar(LocalStorage::Return, LocalOrigin::Return),
            scalar(LocalStorage::Local, LocalOrigin::Desugared(span)),
            scalar(LocalStorage::Parameter { ordinal: 0 }, LocalOrigin::Desugared(span)),
        ],
        vec![
            BasicBlock {
                scope: ScopeId::from_index(0),
                statements: Vec::new(),
                terminator: Terminator::Switch {
                    condition: Operand::Copy(Place::local(LocalId::from_index(2))),
                    then_target: BasicBlockId::from_index(1),
                    else_target: BasicBlockId::from_index(2),
                    join_target: None,
                },
            },
            BasicBlock {
                scope: ScopeId::from_index(0),
                statements: vec![Statement::Assign {
                    destination: Place::local(value),
                    value: Rvalue::Use(constant(7)),
                    origin: Origin::Expression(ExprId::from_index(0)),
                }],
                terminator: Terminator::Goto { target: BasicBlockId::from_index(2) },
            },
            BasicBlock {
                scope: ScopeId::from_index(0),
                statements: vec![Statement::Assign {
                    destination: Place::local(LocalId::from_index(0)),
                    value: Rvalue::Use(Operand::Copy(Place::local(value))),
                    origin: Origin::Expression(ExprId::from_index(1)),
                }],
                terminator: Terminator::Return,
            },
        ],
    );

    assert_eq!(
        validate(&body),
        vec![InitializationError {
            block: BasicBlockId::from_index(2),
            location: InitializationLocation::Statement(0),
            local: value,
        }]
    );
}
