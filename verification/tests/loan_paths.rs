use mir::ids::{BasicBlockId, LoanId, LocalId, ProjectionPathId, ScopeId};
use mir::loans::{sorted, validate, LoanError, LoanErrorKind};
use mir::locals::{Local, LocalOrigin, LocalStorage, OwnershipKind, ScalarType, ValueRepresentation};
use mir::model::{
    BasicBlock, Body, BorrowKind, Constant, Loan, LoanLifetime, Operand, Origin, Place,
    ProjectionElement, ProjectionPath, ReturnMode, Rvalue, Scope, Statement, Terminator,
};
use mir::semantic::{BodyId, ByteSpan, ExprId, SourceId, TyId};

fn span() -> ByteSpan {
    ByteSpan::new(SourceId::new(0), 0, 1)
}

fn block(statements: Vec<Statement>, terminator: Terminator) -> BasicBlock {
    BasicBlock {
        scope: ScopeId::from_index(0),
        statements,
        terminator,
    }
}

fn loan_statement(begin: bool, loan: usize) -> Statement {
    if begin {
        Statement::BeginLoan {
            loan: LoanId::from_index(loan),
            origin: Origin::Expression(ExprId::from_index(loan)),
        }
    } else {
        Statement::EndLoan {
            loan: LoanId::from_index(loan),
        }
    }
}

fn body(kinds: &[BorrowKind], blocks: Vec<BasicBlock>) -> Body {
    let span = span();
    let scope = ScopeId::from_index(0);
    let source_ty = TyId::from_index(0);
    let borrow_ty = TyId::from_index(1);
    let mut locals = vec![
        Local::scalar(source_ty, ScalarType::I32, LocalStorage::Return, LocalOrigin::Return, scope),
        Local::aggregate(
            source_ty,
            OwnershipKind::Move,
            LocalStorage::Local,
            LocalOrigin::Desugared(span),
            scope,
        ),
    ];
    let mut loans = Vec::new();
    for (index, kind) in kinds.iter().copied().enumerate() {
        let destination = LocalId::from_index(locals.len());
        locals.push(Local::borrow(
            borrow_ty,
            kind == BorrowKind::Readwrite,
            LocalStorage::Local,
            LocalOrigin::Desugared(span),
            scope,
        ));
        loans.push(Loan {
            id: LoanId::from_index(index),
            source: Place::local(LocalId::from_index(1)),
            destination,
            kind,
            scope,
            lifetime: LoanLifetime::Scope,
        });
    }
    Body {
        source_body: BodyId::from_index(0),
        source_span: span,
        return_local: LocalId::from_index(0),
        return_mode: ReturnMode::Plain,
        root_scope: scope,
        scopes: vec![Scope::root(span)],
        locals,
        entry: BasicBlockId::from_index(0),
        blocks,
        loop_regions: Vec::new(),
        allocation_regions: Vec::new(),
        allocation_overrides: Vec::new(),
        loans,
        projections: Vec::new(),
        drop_plans: Vec::new(),
    }
}

#[test]
fn ended_readonly_loan_is_valid() {
    let body = body(
        &[BorrowKind::Readonly],
        vec![block(
            vec![loan_statement(true, 0), loan_statement(false, 0)],
            Terminator::Return,
        )],
    );

    assert!(validate(&body).is_empty());
}

#[test]
fn readwrite_loan_conflicts_with_live_readonly_loan() {
    let body = body(
        &[BorrowKind::Readonly, BorrowKind::Readwrite],
        vec![block(
            vec![
                loan_statement(true, 0),
                loan_statement(true, 1),
                loan_statement(false, 1),
                loan_statement(false, 0),
            ],
            Terminator::Return,
        )],
    );

    assert!(validate(&body).iter().any(|error| {
        error.loan == LoanId::from_index(1) && error.kind == LoanErrorKind::ConflictingBorrow
    }));
}

#[test]
fn readwrite_loans_to_disjoint_fields_do_not_conflict() {
    let mut body = body(
        &[BorrowKind::Readwrite, BorrowKind::Readwrite],
        vec![block(
            vec![
                loan_statement(true, 0),
                loan_statement(true, 1),
                loan_statement(false, 1),
                loan_statement(false, 0),
            ],
            Terminator::Return,
        )],
    );
    let source = LocalId::from_index(1);
    body.projections = [0, 8]
        .into_iter()
        .enumerate()
        .map(|(index, offset)| ProjectionPath {
            id: ProjectionPathId::from_index(index),
            base: source,
            parent: None,
            element: ProjectionElement::Field { offset },
            ty: TyId::from_index(0),
            representation: ValueRepresentation::Aggregate,
            ownership: OwnershipKind::Move,
            drop_plan: None,
        })
        .collect();
    body.loans[0].source = Place::projected(source, ProjectionPathId::from_index(0));
    body.loans[1].source = Place::projected(source, ProjectionPathId::from_index(1));

    assert!(validate(&body).is_empty());
}

#[test]
fn moving_borrowed_source_is_rejected() {
    let body = body(
        &[BorrowKind::Readonly],
        vec![block(
            vec![
                loan_statement(true, 0),
                Statement::Assign {
                    destination: Place::local(LocalId::from_index(0)),
                    value: Rvalue::Use(Operand::Move(Place::local(LocalId::from_index(1)))),
                    origin: Origin::Expression(ExprId::from_index(1)),
                },
                loan_statement(false, 0),
            ],
            Terminator::Return,
        )],
    );

    assert!(validate(&body).iter().any(|error| {
        error.loan == LoanId::from_index(0) && error.kind == LoanErrorKind::MoveWhileBorrowed
    }));
}

#[test]
fn branch_local_end_makes_join_end_invalid() {
    let body = body(
        &[BorrowKind::Readonly],
        vec![
            block(
                vec![loan_statement(true, 0)],
                Terminator::Switch {
                    condition: Operand::Constant(Constant {
                        ty: TyId::from_index(0),
                        scalar: ScalarType::Bool,
                        value: 1,
                    }),
                    then_target: BasicBlockId::from_index(1),
                    else_target: BasicBlockId::from_index(2),
                    join_target: None,
                },
            ),
            block(
                vec![loan_statement(false, 0)],
                Terminator::Goto {
                    target: BasicBlockId::from_index(3),
                },
            ),
            block(
                Vec::new(),
                Terminator::Goto {
                    target: BasicBlockId::from_index(3),
                },
            ),
            block(vec![loan_statement(false, 0)], Terminator::Return),
        ],
    );

    assert!(validate(&body).iter().any(|error| {
        error.block == Some(BasicBlockId::from_index(3))
            && error.kind == LoanErrorKind::EndOfInactive
    }));
}

#[test]
fn a_loan_left_open_is_live_at_exit_and_malformed_declarations_come_last() {
    let mut body = body(
        &[BorrowKind::Readonly],
        vec![block(vec![loan_statement(true, 0)], Terminator::Return)],
    );
    body.loans[0].scope = ScopeId::from_index(9);

    assert_eq!(
        validate(&body),
        vec![
            LoanError {
                block: Some(BasicBlockId::from_index(0)),
                loan: LoanId::from_index(0),
                kind: LoanErrorKind::LiveAtExit,
            },
            LoanError {
                block: None,
                loan: LoanId::from_index(0),
                kind: LoanErrorKind::InvalidScope,
            },
        ]
    );
}

#[test]
fn writing_a_borrowed_place_is_rejected() {
    let body = body(
        &[BorrowKind::Readonly],
        vec![block(
            vec![
                loan_statement(true, 0),
                Statement::Assign {
                    destination: Place::local(LocalId::from_index(1)),
                    value: Rvalue::Use(Operand::Constant(Constant {
                        ty: TyId::from_index(0),
                        scalar: ScalarType::I32,
                        value: 3,
                    })),
                    origin: Origin::Expression(ExprId::from_index(1)),
                },
                loan_statement(false, 0),
            ],
            Terminator::Return,
        )],
    );

    assert_eq!(
        validate(&body),
        vec![LoanError {
            block: Some(BasicBlockId::from_index(0)),
            loan: LoanId::from_index(0),
            kind: LoanErrorKind::MutateWhileBorrowed,
        }]
    );
}

#[test]
fn errors_are_reported_once_by_block_then_loan_then_kind_with_declarations_last() {
    let declaration = LoanError {
        block: None,
        loan: LoanId::from_index(0),
        kind: LoanErrorKind::InvalidSource,
    };
    let late = LoanError {
        block: Some(BasicBlockId::from_index(2)),
        loan: LoanId::from_index(0),
        kind: LoanErrorKind::EndOfInactive,
    };
    let early_second_loan = LoanError {
        block: Some(BasicBlockId::from_index(1)),
        loan: LoanId::from_index(1),
        kind: LoanErrorKind::AlreadyActive,
    };
    let early_first_kind = LoanError {
        block: Some(BasicBlockId::from_index(1)),
        loan: LoanId::from_index(0),
        kind: LoanErrorKind::ConflictingBorrow,
    };
    let early_second_kind = LoanError {
        block: Some(BasicBlockId::from_index(1)),
        loan: LoanId::from_index(0),
        kind: LoanErrorKind::LiveAtExit,
    };
    let ordered = sorted(vec![
        declaration,
        late,
        early_second_kind,
        early_second_loan,
        late,
        early_first_kind,
        declaration,
    ]);
    assert_eq!(
        ordered,
        vec![early_first_kind, early_second_kind, early_second_loan, late, declaration]
    );
    assert!(sorted(Vec::new()).is_empty());
}
