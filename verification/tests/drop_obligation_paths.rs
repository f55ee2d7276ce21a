use mir::drop_obligations::{validate, DropObligationError, DropObligationErrorKind, DropObligationLocation};
use mir::ids::{BasicBlockId, DropPlanId, LocalId, ScopeId};
use mir::locals::{Local, LocalOrigin, LocalStorage, OwnershipKind, ScalarType};
use mir::model::{BasicBlock, Body, Constant, Operand, Place, ReturnMode, Scope, Statement, Terminator};
use mir::semantic::{BodyId, ByteSpan, SourceId, TyId};

fn body_with_owned_parameter(blocks: Vec<BasicBlock>) -> Body {
    let span = ByteSpan::new(SourceId::new(0), 0, 1);
    let scope = ScopeId::from_index(0);
    let ty = TyId::from_index(0);
    Body {
        source_body: BodyId::from_index(0),
        source_span: span,
        return_local: LocalId::from_index(0),
        return_mode: ReturnMode::Plain,
        root_scope: scope,
        scopes: vec![Scope::root(span)],
        locals: vec![
            Local::scalar(ty, ScalarType::I32, LocalStorage::Return, LocalOrigin::Return, scope),
            Local::aggregate(
                ty,
                OwnershipKind::Move,
                LocalStorage::Parameter { ordinal: 0 },
                LocalOrigin::Desugared(span),
                scope,
            ),
        ],
        entry: BasicBlockId::from_index(0),
        blocks,
        loop_regions: Vec::new(),
        allocation_regions: Vec::new(),
        allocation_overrides: Vec::new(),
        loans: Vec::new(),
        projections: Vec::new(),
        drop_plans: Vec::new(),
    }
}

fn block(terminator: Terminator) -> BasicBlock {
    BasicBlock {
        scope: ScopeId::from_index(0),
        statements: Vec::<Statement>::new(),
        terminator,
    }
}

fn owned_place() -> Place {
    Place::local(LocalId::from_index(1))
}

#[test]
fn explicit_drop_releases_owned_parameter_before_exit() {
    let body = body_with_owned_parameter(vec![
        block(Terminator::Drop {
            place: owned_place(),
            plan: DropPlanId::from_index(0),
            target: BasicBlockId::from_index(1),
        }),
        block(Terminator::Return),
    ]);

    assert!(validate(&body).is_empty());
}

#[test]
fn live_owned_parameter_is_rejected_at_exit() {
    let body = body_with_owned_parameter(vec![block(Terminator::Return)]);

    assert_eq!(
        validate(&body),
        vec![DropObligationError {
            block: BasicBlockId::from_index(0),
            location: DropObligationLocation::Exit,
            local: LocalId::from_index(1),
            kind: DropObligationErrorKind::LiveAtExit,
        }]
    );
}

#[test]
fn second_drop_of_the_same_path_is_rejected() {
    let body = body_with_owned_parameter(vec![
        block(Terminator::Drop {
            place: owned_place(),
            plan: DropPlanId::from_index(0),
            target: BasicBlockId::from_index(1),
        }),
        block(Terminator::Drop {
            place: owned_place(),
            plan: DropPlanId::from_index(0),
            target: BasicBlockId::from_index(2),
        }),
        block(Terminator::Return),
    ]);

    assert!(validate(&body).iter().any(|error| {
        error.block == BasicBlockId::from_index(1)
            && error.kind == DropObligationErrorKind::DropOfInactive
    }));
}

#[test]
fn branch_join_retains_a_maybe_live_obligation() {
    let mut body = body_with_owned_parameter(vec![
        block(Terminator::Switch {
            condition: Operand::Constant(Constant {
                ty: TyId::from_index(1),
                scalar: ScalarType::Bool,
                value: 1,
            }),
            then_target: BasicBlockId::from_index(1),
            else_target: BasicBlockId::from_index(2),
            join_target: None,
        }),
        block(Terminator::Drop {
            place: owned_place(),
            plan: DropPlanId::from_index(0),
            target: BasicBlockId::from_index(3),
        }),
        block(Terminator::Goto {
            target: BasicBlockId::from_index(3),
        }),
        block(Terminator::Return),
    ]);
    // Keep a distinct checked boolean type in the body-local type arena.
    body.locals[0].ty = TyId::from_index(1);

    assert!(validate(&body).iter().any(|error| {
        error.block == BasicBlockId::from_index(3)
            && error.kind == DropObligationErrorKind::LiveAtExit
    }));
}

#[test]
fn dropping_a_copy_local_is_rejected() {
    let body = body_with_owned_parameter(vec![
        block(Terminator::Drop {
            place: Place::local(LocalId::from_index(0)),
            plan: DropPlanId::from_index(0),
            target: BasicBlockId::from_index(1),
        }),
        block(Terminator::Drop {
            place: owned_place(),
            plan: DropPlanId::from_index(0),
            target: BasicBlockId::from_index(2),
        }),
        block(Terminator::Return),
    ]);

    assert_eq!(
        validate(&body),
        vec![DropObligationError {
            block: BasicBlockId::from_index(0),
            location: DropObligationLocation::Drop,
            local: LocalId::from_index(0),
            kind: DropObligationErrorKind::DropOfNonOwned,
        }]
    );
}

#[test]
fn overwriting_a_live_owned_value_is_rejected() {
    let body = body_with_owned_parameter(vec![BasicBlock {
        scope: ScopeId::from_index(0),
        statements: vec![Statement::Assign {
            destination: owned_place(),
            value: mir::model::Rvalue::Use(Operand::Constant(Constant {
                ty: TyId::from_index(0),
                scalar: ScalarType::I32,
                value: 0,
            })),
            origin: mir::model::Origin::Expression(mir::semantic::ExprId::from_index(0)),
        }],
        terminator: Terminator::Drop {
            place: owned_place(),
            plan: DropPlanId::from_index(0),
            target: BasicBlockId::from_index(1),
        },
    }, block(Terminator::Return)]);

    assert_eq!(
        validate(&body),
        vec![DropObligationError {
            block: BasicBlockId::from_index(0),
            location: DropObligationLocation::Assignment(0),
            local: LocalId::from_index(1),
            kind: DropObligationErrorKind::Overwrite,
        }]
    );
}
