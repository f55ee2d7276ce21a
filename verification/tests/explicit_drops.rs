use mir::ids::{BasicBlockId, DropPlanId, LocalId, ScopeId};
use mir::locals::{Local, LocalOrigin, LocalStorage, OwnershipKind};
use mir::lower::context::LoweringContext;
use mir::lower::explicit_drops::lower;
use mir::lower::BuildError;
use mir::model::{Place, Scope, Terminator};
use mir::semantic::{ByteSpan, LocalSymbolId, SourceId, TyId};

fn context() -> LoweringContext {
    let span = ByteSpan::new(SourceId::new(0), 0, 1);
    let root = ScopeId::from_index(0);
    let owned = Local::aggregate(TyId::from_index(1), OwnershipKind::Move, LocalStorage::Local, LocalOrigin::Return, root)
        .with_drop_plan(DropPlanId::from_index(0));
    let copied = Local::aggregate(TyId::from_index(1), OwnershipKind::Copy, LocalStorage::Local, LocalOrigin::Return, root);
    LoweringContext::new(
        vec![owned, copied],
        vec![
            (LocalSymbolId::from_index(3), LocalId::from_index(0)),
            (LocalSymbolId::from_index(4), LocalId::from_index(1)),
        ],
        Vec::new(),
        root,
        Scope::root(span),
    )
}

#[test]
fn dropping_an_owned_local_ends_the_block_with_its_plan() {
    let mut context = context();
    assert_eq!(lower(&mut context, LocalSymbolId::from_index(3)), Ok(()));
    assert_eq!(context.control_flow.current_block(), Ok(BasicBlockId::from_index(1)));
    assert_eq!(context.control_flow.terminate(Terminator::Return), Ok(()));
    let blocks = context.finish().unwrap().blocks;
    assert_eq!(
        blocks[0].terminator,
        Terminator::Drop {
            place: Place::local(LocalId::from_index(0)),
            plan: DropPlanId::from_index(0),
            target: BasicBlockId::from_index(1),
        }
    );
    assert_eq!(blocks[1].terminator, Terminator::Return);
}

#[test]
fn dropping_unbound_or_unowned_names_is_refused() {
    let mut context = context();
    assert_eq!(lower(&mut context, LocalSymbolId::from_index(9)), Err(BuildError::MissingLocalSymbol));
    assert_eq!(lower(&mut context, LocalSymbolId::from_index(4)), Err(BuildError::UnsupportedClaimedExpression));
    assert_eq!(context.control_flow.current_block(), Ok(BasicBlockId::from_index(0)));
}
