use compose_core::id_set::SnapshotIdSet;
use compose_core::snapshots::{
    apply_snapshot, current_snapshot, enter_mutable, enter_observing, observe, restore_ambient,
    with_mutable_snapshot, Ambient, MergePolicy, ObserverHandle, SnapshotApplyResult, StateStore,
};
use compose_core::state::MutableState;

#[test]
fn id_set_membership() {
    let empty = SnapshotIdSet::new();
    assert!(!empty.get(3));
    let one = empty.set(3);
    assert!(one.get(3));
    assert!(!one.get(4));
    let again = one.set(3);
    assert!(again.get(3));
    let cleared = again.clear(3);
    assert!(!cleared.get(3));
}

#[test]
fn id_set_union_and_range() {
    let a = SnapshotIdSet::new().set(1).set(5);
    let b = SnapshotIdSet::new().set(2);
    let both = a.or(b);
    assert!(both.get(1));
    assert!(both.get(2));
    assert!(both.get(5));
    assert!(!both.get(3));
    let ranged = SnapshotIdSet::new().add_range(4, 7);
    assert!(!ranged.get(3));
    assert!(ranged.get(4));
    assert!(ranged.get(6));
    assert!(!ranged.get(7));
}

#[test]
fn ambient_is_restored_after_scopes() {
    let store = StateStore::new();
    let amb = Ambient::new();
    assert_eq!(current_snapshot(&amb).id(), 0);
    let (store, amb, result) = with_mutable_snapshot(store, amb, |s, a| {
        assert!(current_snapshot(&a).id() > 0);
        (s, a, ())
    });
    assert!(result.is_ok());
    assert_eq!(current_snapshot(&amb).id(), 0);
    let (_store, amb, _unit, _snap) = observe(store, amb, false, false, |s, a| (s, a, ()));
    assert_eq!(current_snapshot(&amb).id(), 0);
}

#[test]
fn snapshot_handles_expose_id_mode_and_parent() {
    let mut store = StateStore::new();
    let mut amb = Ambient::new();
    let root = current_snapshot(&amb);
    assert_eq!(root.id(), 0);
    assert!(!root.is_read_only(&store));
    assert!(root.parent(&store).is_none());
    let prev = amb.current;
    let child = enter_mutable(&mut store, &mut amb);
    assert_eq!(child.id(), 1);
    assert!(!child.is_read_only(&store));
    assert_eq!(child.parent(&store).expect("child has a parent").id(), 0);
    let observing = enter_observing(&mut store, &mut amb, true, true);
    assert!(observing.is_read_only(&store));
    assert_eq!(observing.parent(&store).expect("child has a parent").id(), 1);
    restore_ambient(&mut amb, prev);
    assert_eq!(current_snapshot(&amb).id(), 0);
}

#[test]
fn explicit_enter_and_apply_commits_writes() {
    let mut store = StateStore::new();
    let mut amb = Ambient::new();
    let state = MutableState::new(&mut store, 30);
    let prev = amb.current;
    let snap = enter_mutable(&mut store, &mut amb);
    state.set(&mut store, &amb, 31);
    restore_ambient(&mut amb, prev);
    let res = apply_snapshot(&mut store, snap);
    assert_eq!(res, SnapshotApplyResult::Success);
    assert_eq!(state.get(&mut store, &amb), 31);
}

#[test]
fn observers_see_reads_and_writes_in_nested_scopes() {
    let mut store = StateStore::new();
    let amb = Ambient::new();
    let state = MutableState::new(&mut store, 0);
    let other = MutableState::new(&mut store, 0);
    let (mut store, amb, _unit, snap) = observe(store, amb, true, true, move |s, a| {
        // A mutable scope nested inside the observing one: its reads and
        // writes notify the observer up the parent chain, and its commit
        // applies straight to the cells.
        let (s, a, result) = with_mutable_snapshot(s, a, move |mut s2, a2| {
            let seen = state.get(&mut s2, &a2);
            state.set(&mut s2, &a2, seen + 1);
            other.set(&mut s2, &a2, 8);
            (s2, a2, ())
        });
        assert!(result.is_ok());
        (s, a, ())
    });
    assert_eq!(state.get(&mut store, &amb), 1);
    assert_eq!(other.get(&mut store, &amb), 8);
    assert_eq!(store.read_log(snap).len(), 1);
    // One notification per write in the body, plus one per cell applied by
    // the nested commit.
    assert_eq!(store.write_log(snap).len(), 4);
}

#[test]
fn observe_without_observers_records_nothing() {
    let mut store = StateStore::new();
    let amb = Ambient::new();
    let state = MutableState::new(&mut store, 2);
    let (store, _amb, value, snap) = observe(store, amb, false, false, move |mut s, a| {
        let v = state.get(&mut s, &a);
        (s, a, v)
    });
    assert_eq!(value, 2);
    assert_eq!(store.read_log(snap).len(), 0);
    assert_eq!(store.write_log(snap).len(), 0);
}

#[test]
fn baseline_is_value_at_first_write() {
    let mut store = StateStore::new();
    let amb = Ambient::new();
    let state = MutableState::with_merge(&mut store, 0, MergePolicy::Refuse);
    let (mut store, amb, result) = with_mutable_snapshot(store, amb, move |mut s, a| {
        // First write records baseline 0; later writes do not move it.
        state.set(&mut s, &a, 10);
        state.set(&mut s, &a, 11);
        // No outside writer: current equals the baseline, so even a
        // refusing merge is never consulted.
        (s, a, ())
    });
    assert!(result.is_ok());
    assert_eq!(state.get(&mut store, &amb), 11);
}

#[test]
fn observer_handle_runs_disposal() {
    let flag = std::rc::Rc::new(std::cell::Cell::new(false));
    let seen = flag.clone();
    let handle = ObserverHandle::new(move || {
        seen.set(true);
    });
    assert!(!flag.get());
    handle.dispose();
    assert!(flag.get());
}
