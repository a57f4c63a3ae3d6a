use compose_core::snapshots::{
    with_mutable_snapshot, observe, Ambient, MergePolicy, SnapshotApplyResult, StateStore,
};
use compose_core::state::MutableState;

#[test]
fn global_state_updates_immediately() {
    let mut store = StateStore::new();
    let amb = Ambient::new();
    let state = MutableState::new(&mut store, 0);
    assert_eq!(state.get(&mut store, &amb), 0);
    state.set(&mut store, &amb, 1);
    assert_eq!(state.get(&mut store, &amb), 1);
}

#[test]
fn mutable_snapshot_isolation_and_apply() {
    let mut store = StateStore::new();
    let amb = Ambient::new();
    let state = MutableState::new(&mut store, 10);
    let captured = state;
    let (mut store, amb, result) = with_mutable_snapshot(store, amb, move |mut s, a| {
        assert_eq!(captured.get(&mut s, &a), 10);
        captured.set(&mut s, &a, 42);
        let v = captured.get(&mut s, &a);
        (s, a, v)
    });
    let result = result.expect("snapshot apply should succeed");
    assert_eq!(result, 42);
    assert_eq!(state.get(&mut store, &amb), 42);
}

#[test]
fn read_only_snapshot_observes_changes() {
    let mut store = StateStore::new();
    let amb = Ambient::new();
    let state = MutableState::new(&mut store, 5);
    let captured = state;
    let (store, _amb, _unit, snap) = observe(store, amb, true, false, move |mut s, a| {
        assert_eq!(captured.get(&mut s, &a), 5);
        (s, a, ())
    });
    assert_eq!(store.read_log(snap).len(), 1);
}

#[test]
fn conflicting_snapshots_fail_without_merge() {
    let mut store = StateStore::new();
    let amb = Ambient::new();
    let state = MutableState::with_merge(&mut store, 0, MergePolicy::Refuse);
    let (mut store, amb, result) = with_mutable_snapshot(store, amb, move |mut s, a| {
        state.set(&mut s, &a, 2);
        // A writer on another thread, outside any scope, commits first.
        let other = Ambient::new();
        state.set(&mut s, &other, 1);
        (s, a, ())
    });
    assert_eq!(result, Err(SnapshotApplyResult::Failure));
    assert_eq!(state.get(&mut store, &amb), 1);
}

#[test]
fn default_merge_applies_staged_value_on_conflict() {
    let mut store = StateStore::new();
    let amb = Ambient::new();
    let state = MutableState::new(&mut store, 0);
    let (mut store, amb, result) = with_mutable_snapshot(store, amb, move |mut s, a| {
        state.set(&mut s, &a, 2);
        let other = Ambient::new();
        state.set(&mut s, &other, 1);
        (s, a, ())
    });
    assert!(result.is_ok());
    assert_eq!(state.get(&mut store, &amb), 2);
}

#[test]
fn take_current_merge_keeps_concurrent_write() {
    let mut store = StateStore::new();
    let amb = Ambient::new();
    let state = MutableState::with_merge(&mut store, 0, MergePolicy::TakeCurrent);
    let (mut store, amb, result) = with_mutable_snapshot(store, amb, move |mut s, a| {
        state.set(&mut s, &a, 2);
        let other = Ambient::new();
        state.set(&mut s, &other, 1);
        (s, a, ())
    });
    assert!(result.is_ok());
    assert_eq!(state.get(&mut store, &amb), 1);
}

#[test]
fn set_merge_and_clear_merge_change_conflict_outcome() {
    let mut store = StateStore::new();
    let amb = Ambient::new();
    let state = MutableState::new(&mut store, 0);
    state.set_merge(&mut store, MergePolicy::Refuse);
    let (store, amb, result) = with_mutable_snapshot(store, amb, move |mut s, a| {
        state.set(&mut s, &a, 7);
        let other = Ambient::new();
        state.set(&mut s, &other, 3);
        (s, a, ())
    });
    assert_eq!(result, Err(SnapshotApplyResult::Failure));
    let mut store = store;
    state.clear_merge(&mut store);
    let (mut store, amb, result) = with_mutable_snapshot(store, amb, move |mut s, a| {
        state.set(&mut s, &a, 7);
        let other = Ambient::new();
        state.set(&mut s, &other, 4);
        (s, a, ())
    });
    assert!(result.is_ok());
    assert_eq!(state.get(&mut store, &amb), 7);
}

#[test]
fn nested_mutable_scopes_buffer_then_flush() {
    let mut store = StateStore::new();
    let amb = Ambient::new();
    let state = MutableState::new(&mut store, 0);
    let (mut store, amb, result) = with_mutable_snapshot(store, amb, move |mut s, a| {
        state.set(&mut s, &a, 1);
        let (mut s, a, inner) = with_mutable_snapshot(s, a, move |mut s2, a2| {
            assert_eq!(state.get(&mut s2, &a2), 1);
            state.set(&mut s2, &a2, 2);
            (s2, a2, ())
        });
        assert!(inner.is_ok());
        // The inner commit filled the outer buffer; the cell is untouched.
        assert_eq!(state.get(&mut s, &a), 2);
        let outside = Ambient::new();
        assert_eq!(state.get(&mut s, &outside), 0);
        (s, a, ())
    });
    assert!(result.is_ok());
    assert_eq!(state.get(&mut store, &amb), 2);
}

#[test]
fn update_applies_function_to_visible_value() {
    let mut store = StateStore::new();
    let amb = Ambient::new();
    let state = MutableState::new(&mut store, 20);
    state.update(&mut store, &amb, |v| v + 3);
    assert_eq!(state.get(&mut store, &amb), 23);
}

#[test]
fn try_set_rejects_write_in_read_only_scope() {
    let mut store = StateStore::new();
    let amb = Ambient::new();
    let state = MutableState::new(&mut store, 9);
    let (mut store, amb, rejected, _snap) = observe(store, amb, false, false, move |mut s, a| {
        let ok = state.try_set(&mut s, &a, 100);
        (s, a, ok)
    });
    assert!(!rejected);
    assert_eq!(state.get(&mut store, &amb), 9);
}

#[test]
fn isolation_before_commit() {
    let mut store = StateStore::new();
    let amb = Ambient::new();
    let state = MutableState::new(&mut store, 5);
    let (mut store, amb, result) = with_mutable_snapshot(store, amb, move |mut s, a| {
        state.set(&mut s, &a, 6);
        // A reader outside the scope still sees the committed value.
        let outside = Ambient::new();
        assert_eq!(state.get(&mut s, &outside), 5);
        (s, a, ())
    });
    assert!(result.is_ok());
    assert_eq!(state.get(&mut store, &amb), 6);
}
