use turbo_tasks_effects::{
    apply_effect, apply_effects, effect, first_error, get_effects, Collectible, CollectibleKind,
    Collector, Consistency, EffectError, EffectOutcome, Effects, Handle, HandleError, Lookup,
    Outcome, Output, TaskIdentity, TaskState, TaskStore,
};

fn assert_sync_and_send<T: Sync + Send>() {}

fn val(payload: u64) -> Outcome {
    Outcome::Value(Output { payload, capabilities: 0 })
}

fn id(f: u64, a: u64) -> TaskIdentity {
    TaskIdentity::new(f, a)
}

/// Starts `ident` on behalf of `caller` and expects a fresh execution.
fn start(store: &mut TaskStore, caller: Option<usize>, ident: TaskIdentity) -> usize {
    match store.request(caller, ident) {
        Lookup::Execute(i) => i,
        other => panic!("expected an execution, got {:?}", other),
    }
}

#[test]
fn is_sync_and_send() {
    assert_sync_and_send::<TaskStore>();
    assert_sync_and_send::<Collector>();
    assert_sync_and_send::<Effects>();
    assert_sync_and_send::<EffectError>();
}

#[test]
fn memoized_read_returns_cached_output_without_rerun() {
    let mut store = TaskStore::new();
    let a = start(&mut store, None, id(1, 10));
    assert!(store.complete(a, val(42)));
    assert_eq!(store.request(None, id(1, 10)), Lookup::Ready(a, val(42)));
    assert_eq!(store.request(None, id(1, 10)), Lookup::Ready(a, val(42)));
    assert_eq!(store.executions(a), 1);
    assert_eq!(store.state(a), TaskState::Settled);
}

#[test]
fn different_arguments_are_different_entries() {
    let mut store = TaskStore::new();
    let a = start(&mut store, None, id(1, 10));
    let b = start(&mut store, None, id(1, 11));
    assert_ne!(a, b);
    assert_eq!(store.len(), 2);
    assert_eq!(store.find(&id(1, 11)), Some(b));
    assert_eq!(store.find(&id(2, 10)), None);
}

#[test]
fn concurrent_first_readers_share_one_execution() {
    let mut store = TaskStore::new();
    let a = start(&mut store, None, id(5, 0));
    for _ in 0..4 {
        assert_eq!(store.request(None, id(5, 0)), Lookup::InFlight(a));
    }
    assert_eq!(store.executions(a), 1);
    assert!(store.complete(a, val(7)));
    assert_eq!(store.request(None, id(5, 0)), Lookup::Ready(a, val(7)));
    assert_eq!(store.executions(a), 1);
}

#[test]
fn errors_are_stored_and_returned_to_later_readers() {
    let mut store = TaskStore::new();
    let a = start(&mut store, None, id(3, 3));
    assert!(store.complete(a, Outcome::Error(99)));
    assert_eq!(store.state(a), TaskState::Failed);
    assert_eq!(store.request(None, id(3, 3)), Lookup::Ready(a, Outcome::Error(99)));
    assert_eq!(store.consistent_step(a), Consistency::Ready(Outcome::Error(99)));
}

#[test]
fn waiting_on_a_reader_is_reported_as_a_cycle() {
    let mut store = TaskStore::new();
    let a = start(&mut store, None, id(1, 0));
    let b = start(&mut store, Some(a), id(2, 0));
    assert_eq!(store.request(Some(b), id(1, 0)), Lookup::Cycle(a));
    assert_eq!(store.request(Some(a), id(1, 0)), Lookup::Cycle(a));
    assert!(store.depends_on(a, b));
    assert!(!store.depends_on(b, a));
}

#[test]
fn collectibles_bubble_up_to_readers_only() {
    let mut store = TaskStore::new();
    let a = start(&mut store, None, id(1, 0));
    store.emit(a, 7, 100);
    assert!(store.complete(a, val(1)));
    let b = start(&mut store, None, id(2, 0));
    assert_eq!(store.request(Some(b), id(1, 0)), Lookup::Ready(a, val(1)));
    assert!(store.complete(b, val(2)));
    let c = start(&mut store, None, id(3, 0));
    assert!(store.complete(c, val(3)));

    let mut collector = Collector::new();
    let seen = store.take_collectibles(&mut collector, b, CollectibleKind::Value(7));
    assert_eq!(seen, vec![Collectible::Value { kind: 7, payload: 100 }]);
    let unrelated = store.take_collectibles(&mut collector, c, CollectibleKind::Value(7));
    assert!(unrelated.is_empty());
}

#[test]
fn draining_twice_yields_nothing_new_but_others_still_see_them() {
    let mut store = TaskStore::new();
    let a = start(&mut store, None, id(1, 0));
    store.emit(a, 1, 5);
    store.emit(a, 2, 6);
    store.emit(a, 1, 5);
    assert!(store.complete(a, val(0)));

    let mut first = Collector::new();
    let once = store.take_collectibles(&mut first, a, CollectibleKind::Value(1));
    assert_eq!(once, vec![Collectible::Value { kind: 1, payload: 5 }]);
    assert!(store.take_collectibles(&mut first, a, CollectibleKind::Value(1)).is_empty());
    assert!(first.has_drained(&Collectible::Value { kind: 1, payload: 5 }));

    let mut second = Collector::new();
    assert_eq!(
        store.take_collectibles(&mut second, a, CollectibleKind::Value(1)),
        vec![Collectible::Value { kind: 1, payload: 5 }]
    );
    assert_eq!(
        store.take_collectibles(&mut second, a, CollectibleKind::Value(2)),
        vec![Collectible::Value { kind: 2, payload: 6 }]
    );
    assert_eq!(second.drained().len(), 2);
}

#[test]
fn effect_observed_by_two_collectors_runs_once() {
    let mut store = TaskStore::new();
    let a = start(&mut store, None, id(1, 0));
    let e = effect(&mut store, a);
    assert!(store.complete(a, val(0)));
    assert_eq!(e.index(), 0);
    assert!(store.is_pending(e));

    let mut c1 = Collector::new();
    let mut c2 = Collector::new();
    let b1 = get_effects(&store, &mut c1, a);
    let b2 = get_effects(&store, &mut c2, a);
    assert_eq!(b1.ids(), vec![e]);
    assert!(b1 == b2);

    assert_eq!(b1.apply(&mut store), vec![e]);
    assert!(b2.apply(&mut store).is_empty());
    assert!(!store.is_pending(e));
}

#[test]
fn failing_effect_does_not_stop_the_others() {
    let mut store = TaskStore::new();
    let a = start(&mut store, None, id(1, 0));
    let e1 = effect(&mut store, a);
    let e2 = effect(&mut store, a);
    let e3 = effect(&mut store, a);
    assert!(store.complete(a, val(0)));

    let mut collector = Collector::new();
    let run = apply_effects(&mut store, &mut collector, a);
    assert_eq!(run, vec![e1, e2, e3]);
    let outcomes = vec![
        EffectOutcome::Completed,
        EffectOutcome::Failed("second failed".to_string()),
        EffectOutcome::Completed,
    ];
    assert_eq!(outcomes.len(), run.len());
    match first_error(&outcomes) {
        Err(EffectError::Failed(m)) => assert_eq!(m, "second failed"),
        other => panic!("unexpected {:?}", other),
    }
    assert!(!store.is_pending(e1));
    assert!(!store.is_pending(e2));
    assert!(!store.is_pending(e3));
}

#[test]
fn first_failure_wins() {
    let outcomes = vec![
        EffectOutcome::Completed,
        EffectOutcome::Panicked(Some("boom".to_string())),
        EffectOutcome::Failed("later".to_string()),
    ];
    match first_error(&outcomes) {
        Err(EffectError::Panicked(Some(m))) => assert_eq!(m, "boom"),
        other => panic!("unexpected {:?}", other),
    }
    assert!(first_error(&vec![EffectOutcome::Completed, EffectOutcome::Completed]).is_ok());
    assert!(first_error(&Vec::new()).is_ok());
}

#[test]
fn abnormal_termination_without_message() {
    let mut acc: Result<(), EffectError> = Ok(());
    apply_effect(EffectOutcome::Panicked(None), &mut acc);
    assert!(matches!(acc, Err(EffectError::Panicked(None))));
    apply_effect(EffectOutcome::Failed("ignored".to_string()), &mut acc);
    assert!(matches!(acc, Err(EffectError::Panicked(None))));
}

#[test]
fn root_task_bundles_hold_only_their_own_cycle() {
    let mut store = TaskStore::new();
    let input = start(&mut store, None, id(9, 0));
    assert!(store.complete(input, val(1)));
    let root = start(&mut store, None, id(1, 0));
    assert_eq!(store.request(Some(root), id(9, 0)), Lookup::Ready(input, val(1)));
    let first = effect(&mut store, root);
    assert!(store.complete(root, val(10)));

    let mut collector = Collector::new();
    let bundle1 = get_effects(&store, &mut collector, root);
    assert_eq!(bundle1.ids(), vec![first]);

    store.invalidate(input);
    assert_eq!(store.consistent_step(root), Consistency::Recompute);
    let again = start(&mut store, None, id(9, 0));
    assert_eq!(again, input);
    assert!(store.complete(input, val(2)));
    assert_eq!(start(&mut store, None, id(1, 0)), root);
    assert_eq!(store.request(Some(root), id(9, 0)), Lookup::Ready(input, val(2)));
    let second = effect(&mut store, root);
    assert!(store.complete(root, val(20)));

    let bundle2 = get_effects(&store, &mut collector, root);
    assert_eq!(bundle2.ids(), vec![second]);
    assert!(bundle1 != bundle2);

    assert_eq!(bundle1.apply(&mut store), vec![first]);
    assert!(store.is_pending(second));
    assert_eq!(bundle2.apply(&mut store), vec![second]);
    assert!(bundle1.apply(&mut store).is_empty());
}

#[test]
fn invalidation_makes_dependents_stale_but_readable() {
    let mut store = TaskStore::new();
    let x = start(&mut store, None, id(1, 0));
    let y = start(&mut store, Some(x), id(2, 0));
    assert!(store.complete(y, val(5)));
    assert_eq!(store.request(Some(x), id(2, 0)), Lookup::Ready(y, val(5)));
    assert!(store.complete(x, val(50)));
    let z = start(&mut store, None, id(3, 0));
    assert!(store.complete(z, val(0)));
    assert_eq!(store.consistent_step(x), Consistency::Ready(val(50)));

    let v = store.version(y);
    store.invalidate(y);
    assert!(store.version(y) > v);
    assert_eq!(store.consistent_step(x), Consistency::Recompute);
    assert_eq!(store.consistent_step(y), Consistency::Recompute);
    assert_eq!(store.consistent_step(z), Consistency::Ready(val(0)));
    assert_eq!(store.read(x), Some(val(50)));

    assert_eq!(start(&mut store, None, id(1, 0)), x);
    assert_eq!(store.consistent_step(x), Consistency::Wait);
    assert_eq!(start(&mut store, Some(x), id(2, 0)), y);
    assert!(store.complete(y, val(6)));
    assert_eq!(store.request(Some(x), id(2, 0)), Lookup::Ready(y, val(6)));
    assert!(store.complete(x, val(60)));
    assert_eq!(store.consistent_step(x), Consistency::Ready(val(60)));
    assert_eq!(store.executions(x), 2);
}

#[test]
fn completion_after_a_dependency_changed_stays_stale() {
    let mut store = TaskStore::new();
    let y = start(&mut store, None, id(2, 0));
    assert!(store.complete(y, val(1)));
    let x = start(&mut store, None, id(1, 0));
    assert_eq!(store.request(Some(x), id(2, 0)), Lookup::Ready(y, val(1)));
    store.invalidate(y);
    assert!(!store.complete(x, val(10)));
    assert_eq!(store.state(x), TaskState::Pending);
    assert_eq!(store.read(x), Some(val(10)));
}

#[test]
fn reading_an_in_flight_entry_is_recorded() {
    let mut store = TaskStore::new();
    let a = start(&mut store, None, id(1, 0));
    let b = start(&mut store, None, id(2, 0));
    assert_eq!(store.request(Some(b), id(1, 0)), Lookup::InFlight(a));
    assert!(store.depends_on(b, a));
    assert_eq!(store.entry(b).dependencies, vec![a]);
    assert!(store.complete(a, val(1)));
    assert!(store.complete(b, val(2)));
}

#[test]
fn effects_equality_ignores_order() {
    let mut store = TaskStore::new();
    let a = start(&mut store, None, id(1, 0));
    let b = start(&mut store, None, id(2, 0));
    let ea = effect(&mut store, a);
    let eb = effect(&mut store, b);
    assert!(store.complete(a, val(0)));
    assert_eq!(store.request(Some(b), id(1, 0)), Lookup::Ready(a, val(0)));
    assert!(store.complete(b, val(0)));

    let mut c1 = Collector::new();
    let both = get_effects(&store, &mut c1, b);
    assert_eq!(both.len(), 2);
    assert!(both.contains(ea) && both.contains(eb));
    assert_eq!(both.ids(), vec![eb, ea]);
    let mut c2 = Collector::new();
    let only_a = get_effects(&store, &mut c2, a);
    assert!(only_a != both);
    assert!(Effects::default() == Effects::default());
    assert_eq!(Effects::default().len(), 0);
}

#[test]
fn collectible_kinds() {
    assert_eq!(Collectible::Value { kind: 3, payload: 1 }.kind(), CollectibleKind::Value(3));
    let mut store = TaskStore::new();
    let a = start(&mut store, None, id(1, 0));
    let e = effect(&mut store, a);
    assert_eq!(Collectible::Effect(e).kind(), CollectibleKind::Effect);
    assert_eq!(store.entry(a).collectibles, vec![Collectible::Effect(e)]);
    assert_eq!(store.clock(), 1);
}

#[test]
fn handles_resolve_read_and_check_capabilities_on_use() {
    let mut store = TaskStore::new();
    assert_eq!(Handle::resolve(&store, &id(1, 0), 0).unwrap_err(), HandleError::Unresolved);
    let a = start(&mut store, None, id(1, 0));
    let h = Handle::resolve(&store, &id(1, 0), 0b01).unwrap();
    assert_eq!(h.task, a);
    assert_eq!(h.read(&store).unwrap_err(), HandleError::NotReady);
    assert!(store.complete(a, Outcome::Value(Output { payload: 77, capabilities: 0b011 })));
    assert_eq!(h.read(&store).unwrap(), Output { payload: 77, capabilities: 0b011 });
    assert_eq!(h.use_output(&store), Ok(77));

    let narrower = h.upcast(0b010);
    assert!(narrower == h);
    assert_eq!(narrower.use_output(&store), Ok(77));
    let wrong = h.upcast(0b100);
    assert!(wrong == h);
    assert_eq!(
        wrong.use_output(&store),
        Err(HandleError::CapabilityMismatch { required: 0b100, provided: 0b011 })
    );
}

#[test]
fn handles_propagate_stored_errors() {
    let mut store = TaskStore::new();
    let a = start(&mut store, None, id(1, 0));
    assert!(store.complete(a, Outcome::Error(13)));
    let h = Handle::new(a, 0);
    assert_eq!(h.use_output(&store), Err(HandleError::Computation(13)));
    assert!(Handle::new(a, 1) != Handle::new(a + 1, 1));
}
