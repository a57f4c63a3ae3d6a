//! The typed cell: a state container whose reads and writes route through
//! the ambient snapshot.

use vstd::prelude::*;
use crate::snapshots::{
    Ambient, CellEntry, MergePolicy, StateStore, Value, amb_wf, baseline_of, cur_of,
    current_snapshot, lemma_chain_same, lemma_visible_same, lemma_wf_from_same, observed_read, on_chain,
    same_snap_no_logs, snap_wf, staged_of, visible, wf, wrote,
};

verus! {

/// A handle to one registered cell.
#[derive(Clone, Copy, PartialEq, Eq, Structural, Debug)]
pub struct MutableState {
    /// The cell's index in the store's registry: its identity.
    pub cell: usize,
}

impl MutableState {
    /// Register a new cell holding `value`, with the default merge policy
    /// (a conflicting commit keeps the value it staged).
    pub fn new(store: &mut StateStore, value: Value) -> (s: MutableState)
        requires
            wf(*old(store)),
        ensures
            wf(*final(store)),
            s.cell == old(store).cells@.len(),
            final(store).cells@ == old(store).cells@.push(
                CellEntry { value, merge: MergePolicy::TakeApplied },
            ),
            final(store).snaps@ == old(store).snaps@,
    {
        Self::with_merge(store, value, MergePolicy::TakeApplied)
    }

    /// Register a new cell holding `value` with `merge` preinstalled.
    pub fn with_merge(store: &mut StateStore, value: Value, merge: MergePolicy) -> (s:
        MutableState)
        requires
            wf(*old(store)),
        ensures
            wf(*final(store)),
            s.cell == old(store).cells@.len(),
            final(store).cells@ == old(store).cells@.push(CellEntry { value, merge }),
            final(store).snaps@ == old(store).snaps@,
    {
        let cell = store.cells.len();
        store.cells.push(CellEntry { value, merge });
        proof {
            assert forall|i: int| 0 <= i < store.snaps@.len() implies snap_wf(*store, i) by {
                assert(snap_wf(*old(store), i));
            }
        }
        MutableState { cell }
    }

    /// Install a merge policy on this cell.
    pub fn set_merge(&self, store: &mut StateStore, merge: MergePolicy)
        requires
            wf(*old(store)),
            self.cell < old(store).cells@.len(),
        ensures
            wf(*final(store)),
            final(store).cells@ == old(store).cells@.update(
                self.cell as int,
                CellEntry { value: old(store).cells@[self.cell as int].value, merge },
            ),
            final(store).snaps@ == old(store).snaps@,
    {
        let value = store.cells[self.cell].value;
        store.cells[self.cell] = CellEntry { value, merge };
        proof {
            assert forall|i: int| 0 <= i < store.snaps@.len() implies snap_wf(*store, i) by {
                assert(snap_wf(*old(store), i));
            }
        }
    }

    /// Remove the cell's merge policy, restoring the default.
    pub fn clear_merge(&self, store: &mut StateStore)
        requires
            wf(*old(store)),
            self.cell < old(store).cells@.len(),
        ensures
            wf(*final(store)),
            final(store).cells@ == old(store).cells@.update(
                self.cell as int,
                CellEntry {
                    value: old(store).cells@[self.cell as int].value,
                    merge: MergePolicy::TakeApplied,
                },
            ),
            final(store).snaps@ == old(store).snaps@,
    {
        self.set_merge(store, MergePolicy::TakeApplied)
    }

    /// Read the cell through the ambient snapshot: the nearest staged value
    /// on its parent chain, or the committed value. Read observers up the
    /// chain are notified exactly once.
    pub fn get(&self, store: &mut StateStore, amb: &Ambient) -> (r: Value)
        requires
            wf(*old(store)),
            amb_wf(*old(store), *amb),
            self.cell < old(store).cells@.len(),
        ensures
            wf(*final(store)),
            r == visible(*old(store), cur_of(*amb), self.cell as int),
            observed_read(*old(store), *final(store), cur_of(*amb), self.cell as int),
            forall|i2: int, c2: int|
                0 <= i2 < old(store).snaps@.len() ==> visible(*final(store), i2, c2) == visible(
                    *old(store),
                    i2,
                    c2,
                ),
    {
        let snap = current_snapshot(amb);
        let r = store.read_visible(snap.index, self.cell);
        store.notify_read(snap.index, self.cell);
        proof {
            assert forall|i2: int, c2: int| 0 <= i2 < old(store).snaps@.len() implies visible(
                *store,
                i2,
                c2,
            ) == visible(*old(store), i2, c2) by {
                lemma_visible_same(*old(store), *store, i2, c2);
            }
        }
        r
    }

    /// Write `value` to the cell through the ambient snapshot. Through the
    /// global root the committed value changes at once; inside a mutable
    /// scope the write is staged privately. The ambient snapshot must not
    /// be read-only.
    pub fn set(&self, store: &mut StateStore, amb: &Ambient, value: Value)
        requires
            wf(*old(store)),
            amb_wf(*old(store), *amb),
            self.cell < old(store).cells@.len(),
            !old(store).snaps@[cur_of(*amb)].read_only,
        ensures
            wf(*final(store)),
            wrote(*old(store), *final(store), cur_of(*amb), self.cell as int, value),
    {
        let snap = current_snapshot(amb);
        if snap.index == 0 {
            store.write_committed(self.cell, value);
        } else {
            store.stage_write(snap.index, self.cell, value);
        }
        let ghost mid = *store;
        store.notify_write(snap.index, self.cell);
        proof {
            assert forall|j: int| 0 <= j < old(store).snaps@.len() implies on_chain(
                mid,
                cur_of(*amb),
                j,
            ) == on_chain(*old(store), cur_of(*amb), j) by {
                lemma_chain_same(*old(store), mid, cur_of(*amb), j);
            }
            let cur = cur_of(*amb);
            let c = self.cell as int;
            if cur != 0 {
                assert(same_snap_no_logs(mid.snaps@[cur], store.snaps@[cur]));
                assert forall|c2: int|
                    staged_of(*store, cur, c2) == (if c2 == c {
                        Some(value)
                    } else {
                        staged_of(*old(store), cur, c2)
                    }) by {
                    assert(staged_of(mid, cur, c2) == (if c2 == c {
                        Some(value)
                    } else {
                        staged_of(*old(store), cur, c2)
                    }));
                }
                assert forall|c2: int|
                    baseline_of(*store, cur, c2) == (if c2 == c && staged_of(
                        *old(store),
                        cur,
                        c,
                    ) is None && baseline_of(*old(store), cur, c) is None {
                        Some(visible(*old(store), old(store).snaps@[cur].parent->0 as int, c))
                    } else {
                        baseline_of(*old(store), cur, c2)
                    }) by {
                    assert(baseline_of(mid, cur, c2) == (if c2 == c && staged_of(
                        *old(store),
                        cur,
                        c,
                    ) is None && baseline_of(*old(store), cur, c) is None {
                        Some(visible(*old(store), old(store).snaps@[cur].parent->0 as int, c))
                    } else {
                        baseline_of(*old(store), cur, c2)
                    }));
                }
            }
        }
    }

    /// Like [`Self::set`], but reject a write made from a read-only
    /// snapshot instead of treating it as a caller fault: the store is
    /// untouched and `false` comes back before any state mutates.
    pub fn try_set(&self, store: &mut StateStore, amb: &Ambient, value: Value) -> (ok: bool)
        requires
            wf(*old(store)),
            amb_wf(*old(store), *amb),
            self.cell < old(store).cells@.len(),
        ensures
            wf(*final(store)),
            ok == !old(store).snaps@[cur_of(*amb)].read_only,
            !ok ==> *final(store) == *old(store),
            ok ==> wrote(*old(store), *final(store), cur_of(*amb), self.cell as int, value),
    {
        let snap = current_snapshot(amb);
        if snap.index == 0 || !store.snaps[snap.index].read_only {
            proof {
                assert(snap_wf(*old(store), 0));
            }
            self.set(store, amb, value);
            true
        } else {
            false
        }
    }

    /// Read the cell, run `updater` on the value, and write the result
    /// back. The two steps are not atomic; a mutable scope around the call
    /// makes them so.
    pub fn update<F: FnOnce(Value) -> Value>(
        &self,
        store: &mut StateStore,
        amb: &Ambient,
        updater: F,
    )
        requires
            wf(*old(store)),
            amb_wf(*old(store), *amb),
            self.cell < old(store).cells@.len(),
            !old(store).snaps@[cur_of(*amb)].read_only,
            forall|v: Value| call_requires(updater, (v,)),
        ensures
            wf(*final(store)),
            exists|mid: StateStore, v: Value|
                {
                    &&& observed_read(*old(store), mid, cur_of(*amb), self.cell as int)
                    &&& call_ensures(
                        updater,
                        (visible(*old(store), cur_of(*amb), self.cell as int),),
                        v,
                    )
                    &&& wrote(mid, *final(store), cur_of(*amb), self.cell as int, v)
                },
    {
        let current = self.get(store, amb);
        let next = updater(current);
        let ghost mid = *store;
        proof {
            lemma_read_only_preserved(*old(store), mid, cur_of(*amb), self.cell as int);
        }
        self.set(store, amb, next);
    }
}

/// A read's log appends keep a snapshot's read-only bit, the arena's
/// shape and its well-formedness.
proof fn lemma_read_only_preserved(pre: StateStore, post: StateStore, cur: int, c: int)
    requires
        wf(pre),
        0 <= cur < pre.snaps@.len(),
        observed_read(pre, post, cur, c),
    ensures
        wf(post),
        post.snaps@[cur].read_only == pre.snaps@[cur].read_only,
        post.cells@.len() == pre.cells@.len(),
        post.snaps@.len() == pre.snaps@.len(),
{
    lemma_wf_from_same(pre, post);
}

} // verus!
