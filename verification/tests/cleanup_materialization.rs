use mir::calls::CallInstance;
use mir::cleanup::materialize;
use mir::drop_plans::DropPlan;
use mir::ids::{BasicBlockId, DropPlanId, LocalId, ProjectionPathId, RegionId, ScopeId};
use mir::locals::{Local, LocalOrigin, LocalStorage, OwnershipKind, ScalarType, ValueRepresentation};
use mir::model::{
    AllocationRegion, BasicBlock, Body, CallContinuation, Constant, Operand, Origin, Place, ProjectionElement,
    ProjectionPath, ReturnMode, Rvalue, Scope, Statement, Terminator,
};
use mir::semantic::{BodyId, ByteSpan, DefId, ExprId, SourceId, TyId};
use mir::validate::validate;

#[test]
fn materializes_owned_local_cleanup_before_return() {
    let span = ByteSpan::new(SourceId::new(0), 0, 1);
    let scope = ScopeId::from_index(0);
    let scalar_ty = TyId::from_index(0);
    let aggregate_ty = TyId::from_index(1);
    let owned = LocalId::from_index(1);
    let mut body = Body {
        source_body: BodyId::from_index(0),
        source_span: span,
        return_local: LocalId::from_index(0),
        return_mode: ReturnMode::Plain,
        root_scope: scope,
        scopes: vec![Scope::root(span)],
        locals: vec![
            Local::scalar(scalar_ty, ScalarType::I32, LocalStorage::Return, LocalOrigin::Return, scope),
            Local::aggregate(
                aggregate_ty,
                OwnershipKind::Move,
                LocalStorage::Local,
                LocalOrigin::Desugared(span),
                scope,
            )
            .with_drop_plan(DropPlanId::from_index(0)),
        ],
        entry: BasicBlockId::from_index(0),
        blocks: vec![
            BasicBlock {
                scope,
                statements: Vec::new(),
                terminator: Terminator::Call {
                    origin: Origin::Expression(ExprId::from_index(0)),
                    callee: CallInstance::direct(DefId::from_index(0)),
                    arguments: Vec::new(),
                    continuation: CallContinuation::Return {
                        destination: Place::local(owned),
                        target: BasicBlockId::from_index(1),
                    },
                },
            },
            BasicBlock {
                scope,
                statements: vec![Statement::Assign {
                    destination: Place::local(LocalId::from_index(0)),
                    value: Rvalue::Use(Operand::Constant(Constant {
                        ty: scalar_ty,
                        scalar: ScalarType::I32,
                        value: 0,
                    })),
                    origin: Origin::Expression(ExprId::from_index(1)),
                }],
                terminator: Terminator::Return,
            },
        ],
        loop_regions: Vec::new(),
        allocation_regions: Vec::new(),
        allocation_overrides: Vec::new(),
        loans: Vec::new(),
        projections: Vec::new(),
        drop_plans: vec![DropPlan::Direct {
            destructor: DefId::from_index(0),
        }],
    };

    assert!(validate(&body).is_err());
    materialize(&mut body);
    assert!(validate(&body).is_ok());
    assert!(body.blocks.iter().any(|block| {
        matches!(
            block.terminator,
            Terminator::Drop { place, .. } if place == Place::local(owned)
        )
    }));
}

#[test]
fn materializes_remaining_owned_projection_after_partial_move() {
    let span = ByteSpan::new(SourceId::new(0), 0, 1);
    let scope = ScopeId::from_index(0);
    let scalar_ty = TyId::from_index(0);
    let aggregate_ty = TyId::from_index(1);
    let source = LocalId::from_index(1);
    let moved_field = LocalId::from_index(2);
    let first = ProjectionPathId::from_index(0);
    let second = ProjectionPathId::from_index(1);
    let mut body = Body {
        source_body: BodyId::from_index(0),
        source_span: span,
        return_local: LocalId::from_index(0),
        return_mode: ReturnMode::Plain,
        root_scope: scope,
        scopes: vec![Scope::root(span)],
        locals: vec![
            Local::scalar(scalar_ty, ScalarType::I32, LocalStorage::Return, LocalOrigin::Return, scope),
            Local::aggregate(
                aggregate_ty,
                OwnershipKind::Move,
                LocalStorage::Local,
                LocalOrigin::Desugared(span),
                scope,
            )
            .with_drop_plan(DropPlanId::from_index(0)),
            Local::aggregate(
                aggregate_ty,
                OwnershipKind::Move,
                LocalStorage::Local,
                LocalOrigin::Desugared(span),
                scope,
            )
            .with_drop_plan(DropPlanId::from_index(0)),
        ],
        entry: BasicBlockId::from_index(0),
        blocks: vec![
            BasicBlock {
                scope,
                statements: Vec::new(),
                terminator: Terminator::Call {
                    origin: Origin::Expression(ExprId::from_index(0)),
                    callee: CallInstance::direct(DefId::from_index(0)),
                    arguments: Vec::new(),
                    continuation: CallContinuation::Return {
                        destination: Place::local(source),
                        target: BasicBlockId::from_index(1),
                    },
                },
            },
            BasicBlock {
                scope,
                statements: vec![
                    Statement::Assign {
                        destination: Place::local(moved_field),
                        value: Rvalue::Use(Operand::Move(Place::projected(source, first))),
                        origin: Origin::Expression(ExprId::from_index(1)),
                    },
                    Statement::Assign {
                        destination: Place::local(LocalId::from_index(0)),
                        value: Rvalue::Use(Operand::Constant(Constant {
                            ty: scalar_ty,
                            scalar: ScalarType::I32,
                            value: 0,
                        })),
                        origin: Origin::Expression(ExprId::from_index(2)),
                    },
                ],
                terminator: Terminator::Return,
            },
        ],
        loop_regions: Vec::new(),
        allocation_regions: Vec::new(),
        allocation_overrides: Vec::new(),
        loans: Vec::new(),
        projections: vec![
            ProjectionPath {
                id: first,
                base: source,
                parent: None,
                element: ProjectionElement::Field { offset: 0 },
                ty: aggregate_ty,
                representation: ValueRepresentation::Aggregate,
                ownership: OwnershipKind::Move,
                drop_plan: Some(DropPlanId::from_index(0)),
            },
            ProjectionPath {
                id: second,
                base: source,
                parent: None,
                element: ProjectionElement::Field { offset: 8 },
                ty: aggregate_ty,
                representation: ValueRepresentation::Aggregate,
                ownership: OwnershipKind::Move,
                drop_plan: Some(DropPlanId::from_index(0)),
            },
        ],
        drop_plans: vec![DropPlan::Direct {
            destructor: DefId::from_index(0),
        }],
    };

    assert!(validate(&body).is_err());
    materialize(&mut body);
    assert!(validate(&body).is_ok());
    assert!(body.blocks.iter().any(|block| {
        matches!(
            block.terminator,
            Terminator::Drop { place, .. }
                if place == Place::projected(source, second)
        )
    }));
    assert!(!body.blocks.iter().any(|block| {
        matches!(
            block.terminator,
            Terminator::Drop { place, .. }
                if place == Place::local(source)
        )
    }));
}

#[test]
fn a_body_without_owned_values_is_left_unchanged() {
    let span = ByteSpan::new(SourceId::new(0), 0, 1);
    let scope = ScopeId::from_index(0);
    let mut body = Body {
        source_body: BodyId::from_index(0),
        source_span: span,
        return_local: LocalId::from_index(0),
        return_mode: ReturnMode::Plain,
        root_scope: scope,
        scopes: vec![Scope::root(span)],
        locals: vec![Local::scalar(
            TyId::from_index(0),
            ScalarType::I32,
            LocalStorage::Return,
            LocalOrigin::Return,
            scope,
        )],
        entry: BasicBlockId::from_index(0),
        blocks: vec![BasicBlock {
            scope,
            statements: vec![Statement::Assign {
                destination: Place::local(LocalId::from_index(0)),
                value: Rvalue::Use(Operand::Constant(Constant {
                    ty: TyId::from_index(0),
                    scalar: ScalarType::I32,
                    value: 5,
                })),
                origin: Origin::Expression(ExprId::from_index(0)),
            }],
            terminator: Terminator::Return,
        }],
        loop_regions: Vec::new(),
        allocation_regions: Vec::new(),
        allocation_overrides: Vec::new(),
        loans: Vec::new(),
        projections: Vec::new(),
        drop_plans: Vec::new(),
    };
    let before = body.clone();
    materialize(&mut body);
    assert_eq!(body, before);
}

#[test]
fn an_edge_leaving_a_scope_passes_through_the_drop_of_its_owned_local() {
    let span = ByteSpan::new(SourceId::new(0), 0, 1);
    let root = ScopeId::from_index(0);
    let inner = ScopeId::from_index(1);
    let scalar_ty = TyId::from_index(0);
    let aggregate_ty = TyId::from_index(1);
    let owned = LocalId::from_index(1);
    let mut body = Body {
        source_body: BodyId::from_index(0),
        source_span: span,
        return_local: LocalId::from_index(0),
        return_mode: ReturnMode::Plain,
        root_scope: root,
        scopes: vec![Scope::root(span), Scope::child(root, span)],
        locals: vec![
            Local::scalar(scalar_ty, ScalarType::I32, LocalStorage::Return, LocalOrigin::Return, root),
            Local::aggregate(
                aggregate_ty,
                OwnershipKind::Move,
                LocalStorage::Local,
                LocalOrigin::Desugared(span),
                inner,
            )
            .with_drop_plan(DropPlanId::from_index(0)),
        ],
        entry: BasicBlockId::from_index(0),
        blocks: vec![
            BasicBlock {
                scope: inner,
                statements: Vec::new(),
                terminator: Terminator::Call {
                    origin: Origin::Expression(ExprId::from_index(0)),
                    callee: CallInstance::direct(DefId::from_index(0)),
                    arguments: Vec::new(),
                    continuation: CallContinuation::Return {
                        destination: Place::local(owned),
                        target: BasicBlockId::from_index(1),
                    },
                },
            },
            BasicBlock {
                scope: inner,
                statements: Vec::new(),
                terminator: Terminator::Goto { target: BasicBlockId::from_index(2) },
            },
            BasicBlock {
                scope: root,
                statements: vec![Statement::Assign {
                    destination: Place::local(LocalId::from_index(0)),
                    value: Rvalue::Use(Operand::Constant(Constant {
                        ty: scalar_ty,
                        scalar: ScalarType::I32,
                        value: 0,
                    })),
                    origin: Origin::Expression(ExprId::from_index(1)),
                }],
                terminator: Terminator::Return,
            },
        ],
        loop_regions: Vec::new(),
        allocation_regions: Vec::new(),
        allocation_overrides: Vec::new(),
        loans: Vec::new(),
        projections: Vec::new(),
        drop_plans: vec![DropPlan::Direct {
            destructor: DefId::from_index(0),
        }],
    };

    materialize(&mut body);
    assert_eq!(body.blocks.len(), 4);
    let Terminator::Goto { target } = body.blocks[1].terminator else {
        panic!("the edge out of the scope stays a jump");
    };
    assert_eq!(target, BasicBlockId::from_index(3));
    assert_eq!(
        body.blocks[3].terminator,
        Terminator::Drop {
            place: Place::local(owned),
            plan: DropPlanId::from_index(0),
            target: BasicBlockId::from_index(2),
        }
    );
    assert_eq!(body.blocks[3].scope, inner);
    assert_eq!(body.blocks[2].terminator, Terminator::Return);
    assert!(matches!(
        body.blocks[0].terminator,
        Terminator::Call {
            continuation: CallContinuation::Return { target, .. },
            ..
        } if target == BasicBlockId::from_index(1)
    ));
    assert!(validate(&body).is_ok());
}

#[test]
fn an_exit_drops_owned_places_before_leaving_the_scope_regions() {
    let span = ByteSpan::new(SourceId::new(0), 0, 1);
    let scope = ScopeId::from_index(0);
    let scalar_ty = TyId::from_index(0);
    let aggregate_ty = TyId::from_index(1);
    let owned = LocalId::from_index(1);
    let region = RegionId::from_index(0);
    let mut body = Body {
        source_body: BodyId::from_index(0),
        source_span: span,
        return_local: LocalId::from_index(0),
        return_mode: ReturnMode::Plain,
        root_scope: scope,
        scopes: vec![Scope::root(span)],
        locals: vec![
            Local::scalar(scalar_ty, ScalarType::I32, LocalStorage::Return, LocalOrigin::Return, scope),
            Local::aggregate(
                aggregate_ty,
                OwnershipKind::Move,
                LocalStorage::Local,
                LocalOrigin::Desugared(span),
                scope,
            )
            .with_drop_plan(DropPlanId::from_index(0)),
        ],
        entry: BasicBlockId::from_index(0),
        blocks: vec![
            BasicBlock {
                scope,
                statements: Vec::new(),
                terminator: Terminator::Call {
                    origin: Origin::Expression(ExprId::from_index(0)),
                    callee: CallInstance::direct(DefId::from_index(0)),
                    arguments: Vec::new(),
                    continuation: CallContinuation::Return {
                        destination: Place::local(owned),
                        target: BasicBlockId::from_index(1),
                    },
                },
            },
            BasicBlock {
                scope,
                statements: Vec::new(),
                terminator: Terminator::Return,
            },
        ],
        loop_regions: Vec::new(),
        allocation_regions: vec![AllocationRegion {
            id: region,
            scope,
            allocator: LocalId::from_index(0),
            parent: Place::local(LocalId::from_index(0)),
            state: LocalId::from_index(0),
            parent_state: LocalId::from_index(0),
            parent_kind: LocalId::from_index(0),
        }],
        allocation_overrides: Vec::new(),
        loans: Vec::new(),
        projections: Vec::new(),
        drop_plans: vec![DropPlan::Direct {
            destructor: DefId::from_index(0),
        }],
    };

    materialize(&mut body);
    assert_eq!(body.blocks.len(), 5);
    assert_eq!(body.blocks[2].terminator, Terminator::Return);
    assert_eq!(body.blocks[2].scope, scope);
    assert_eq!(
        body.blocks[1].terminator,
        Terminator::Goto { target: BasicBlockId::from_index(4) }
    );
    assert_eq!(
        body.blocks[4].terminator,
        Terminator::Drop {
            place: Place::local(owned),
            plan: DropPlanId::from_index(0),
            target: BasicBlockId::from_index(3),
        }
    );
    assert_eq!(body.blocks[3].statements, vec![Statement::ExitRegion { region }]);
    assert_eq!(
        body.blocks[3].terminator,
        Terminator::Goto { target: BasicBlockId::from_index(2) }
    );
}
