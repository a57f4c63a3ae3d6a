//! Snapshot scopes, copy-on-write storage, ambient context and the commit
//! engine.
//!
//! All state lives in an explicit [`StateStore`]: a registry of cells (each
//! a committed value plus a merge policy) and an arena of snapshot records.
//! A snapshot record is an isolation scope: its write buffer stages values
//! per cell, its baseline buffer remembers what a cell held at the scope's
//! first write to it, and its logs record the reads and writes it observed.
//! The ambient current snapshot, a per-thread slot in a concurrent runtime,
//! is the explicit [`Ambient`] value here; entering a scope installs the
//! child snapshot, and leaving restores the prior value unconditionally.

use vstd::prelude::*;
use crate::id_set::SnapshotId;

verus! {

/// The value type cells hold.
pub type Value = u64;

/// How a cell reconciles a commit whose baseline no longer matches the
/// cell's committed value (another writer committed in between).
///
/// The result of a merge is a function of `(previous, current, applied)`
/// alone: the commit engine takes it as the outcome without second-guessing.
#[derive(Clone, Copy, PartialEq, Eq, Structural, Debug)]
pub enum MergePolicy {
    /// Keep the value this scope staged. The default for a fresh cell.
    TakeApplied,
    /// Keep the value the concurrent writer committed.
    TakeCurrent,
    /// Decline: the whole commit fails and no cell changes.
    Refuse,
}

/// What a merge policy resolves a conflict to, or `None` to refuse.
pub open spec fn merge_spec(
    policy: MergePolicy,
    previous: Value,
    current: Value,
    applied: Value,
) -> Option<Value> {
    match policy {
        MergePolicy::TakeApplied => Some(applied),
        MergePolicy::TakeCurrent => Some(current),
        MergePolicy::Refuse => None,
    }
}

/// Executable twin of [`merge_spec`].
pub fn merge_exec(policy: MergePolicy, previous: Value, current: Value, applied: Value) -> (r:
    Option<Value>)
    ensures
        r == merge_spec(policy, previous, current, applied),
{
    match policy {
        MergePolicy::TakeApplied => Some(applied),
        MergePolicy::TakeCurrent => Some(current),
        MergePolicy::Refuse => None,
    }
}

/// One registered cell: its committed value and its merge policy.
#[derive(Clone, Copy, PartialEq, Eq, Structural, Debug)]
pub struct CellEntry {
    /// The committed (snapshot-unaware, live) value.
    pub value: Value,
    /// How commits against this cell resolve conflicts.
    pub merge: MergePolicy,
}

/// One snapshot record in the arena. Index 0 is the global root.
pub struct SnapRecord {
    /// A read-only snapshot forbids writes and carries observers.
    pub read_only: bool,
    /// The enclosing snapshot's index; `None` only for the global root.
    pub parent: Option<usize>,
    /// Whether this snapshot observes reads (records them in `read_log`).
    pub reads_observed: bool,
    /// Whether this snapshot observes writes (records them in `write_log`).
    pub writes_observed: bool,
    /// The write buffer: `staged[c]` is the value staged for cell `c`,
    /// indexed sparsely by cell id.
    pub staged: Vec<Option<Value>>,
    /// The baseline buffer: `baseline[c]` is the value cell `c` held when
    /// this snapshot first wrote it.
    pub baseline: Vec<Option<Value>>,
    /// Cells whose reads this snapshot was notified of, in order.
    pub read_log: Vec<usize>,
    /// Cells whose writes this snapshot was notified of, in order.
    pub write_log: Vec<usize>,
}

/// The whole world: every cell and every snapshot.
pub struct StateStore {
    /// Registered cells, keyed by index.
    pub cells: Vec<CellEntry>,
    /// Snapshot arena; `snaps[0]` is the global root and a child's parent
    /// always has a smaller index.
    pub snaps: Vec<SnapRecord>,
}

/// The ambient current-snapshot slot. `None` means the global root is the
/// effective current snapshot.
pub struct Ambient {
    /// Index of the installed snapshot, if any.
    pub current: Option<usize>,
}

/// A handle to a snapshot in the arena.
#[derive(Clone, Copy, PartialEq, Eq, Structural, Debug)]
pub struct Snapshot {
    /// The snapshot's arena index, which is also its id.
    pub index: usize,
}

/// A mutable snapshot, by its handle.
pub struct MutableSnapshot(pub Snapshot);

/// The outcome of committing a mutable snapshot.
#[derive(Debug, Clone, Copy, PartialEq, Eq, Structural)]
pub enum SnapshotApplyResult {
    /// Every staged write was applied (or buffered into the parent).
    Success,
    /// A conflicting cell's merge declined; no cell was changed.
    Failure,
}

/// Sparse lookup in a write or baseline buffer.
pub open spec fn sparse(v: Seq<Option<Value>>, c: int) -> Option<Value> {
    if 0 <= c < v.len() {
        v[c]
    } else {
        None
    }
}

/// The value snapshot `i` stages for cell `c`, if any.
pub open spec fn staged_of(s: StateStore, i: int, c: int) -> Option<Value> {
    sparse(s.snaps@[i].staged@, c)
}

/// The baseline snapshot `i` recorded for cell `c`, if any.
pub open spec fn baseline_of(s: StateStore, i: int, c: int) -> Option<Value> {
    sparse(s.snaps@[i].baseline@, c)
}

/// Cell `c`'s committed value.
pub open spec fn committed(s: StateStore, c: int) -> Value {
    s.cells@[c].value
}

/// Well-formedness of one snapshot record.
pub open spec fn snap_wf(s: StateStore, i: int) -> bool {
    &&& (i == 0 <==> s.snaps@[i].parent is None)
    &&& (s.snaps@[i].parent matches Some(p) ==> p < i)
    &&& s.snaps@[i].staged@.len() <= s.cells@.len()
    &&& s.snaps@[i].baseline@.len() <= s.cells@.len()
    &&& (s.snaps@[i].read_only ==> s.snaps@[i].staged@.len() == 0)
    &&& (i == 0 ==> !s.snaps@[i].read_only && !s.snaps@[i].reads_observed
        && !s.snaps@[i].writes_observed && s.snaps@[i].staged@.len() == 0
        && s.snaps@[i].baseline@.len() == 0)
}

/// Well-formedness of the store: a global root at index 0 and parent links
/// that only point downward.
pub open spec fn wf(s: StateStore) -> bool {
    &&& s.snaps@.len() >= 1
    &&& forall|i: int| 0 <= i < s.snaps@.len() ==> snap_wf(s, i)
}

/// The ambient slot points into the arena.
pub open spec fn amb_wf(s: StateStore, a: Ambient) -> bool {
    a.current matches Some(i) ==> i < s.snaps@.len()
}

/// The index of the ambient snapshot: the installed one, or the root.
pub open spec fn cur_of(a: Ambient) -> int {
    match a.current {
        Some(i) => i as int,
        None => 0,
    }
}

/// The value cell `c` has from snapshot `i`'s point of view: the staged
/// value nearest on the parent chain, or the committed value if nothing is
/// staged anywhere.
pub open spec fn visible(s: StateStore, i: int, c: int) -> Value
    decreases i,
{
    if i <= 0 {
        committed(s, c)
    } else if staged_of(s, i, c) is Some {
        staged_of(s, i, c)->0
    } else {
        match s.snaps@[i].parent {
            Some(p) => if p < i {
                visible(s, p as int, c)
            } else {
                committed(s, c)
            },
            None => committed(s, c),
        }
    }
}

/// Whether snapshot `j` lies on the parent chain of snapshot `i`
/// (including `i` itself).
pub open spec fn on_chain(s: StateStore, i: int, j: int) -> bool
    decreases i,
{
    i == j || (i > 0 && match s.snaps@[i].parent {
        Some(p) => p < i && on_chain(s, p as int, j),
        None => false,
    })
}

/// The two records agree on everything but their logs.
pub open spec fn same_snap_no_logs(x: SnapRecord, y: SnapRecord) -> bool {
    &&& y.read_only == x.read_only
    &&& y.parent == x.parent
    &&& y.reads_observed == x.reads_observed
    &&& y.writes_observed == x.writes_observed
    &&& y.staged@ == x.staged@
    &&& y.baseline@ == x.baseline@
}

/// The two records agree on everything but their buffers and logs.
pub open spec fn same_snap_shape(x: SnapRecord, y: SnapRecord) -> bool {
    &&& y.read_only == x.read_only
    &&& y.parent == x.parent
    &&& y.reads_observed == x.reads_observed
    &&& y.writes_observed == x.writes_observed
}

/// The two records agree on every field.
pub open spec fn snap_eq(x: SnapRecord, y: SnapRecord) -> bool {
    &&& same_snap_no_logs(x, y)
    &&& y.read_log@ == x.read_log@
    &&& y.write_log@ == x.write_log@
}

/// The two stores agree on every cell and every snapshot record.
pub open spec fn store_eq(a: StateStore, b: StateStore) -> bool {
    &&& b.cells@ == a.cells@
    &&& b.snaps@.len() == a.snaps@.len()
    &&& forall|j: int| 0 <= j < a.snaps@.len() ==> snap_eq(a.snaps@[j], #[trigger] b.snaps@[j])
}

/// How a read of cell `c` from snapshot `i` changes the store: nothing but
/// an appended entry in the read log of every read-observing snapshot on
/// `i`'s parent chain.
pub open spec fn observed_read(pre: StateStore, post: StateStore, i: int, c: int) -> bool {
    &&& post.cells@ == pre.cells@
    &&& post.snaps@.len() == pre.snaps@.len()
    &&& forall|j: int|
        0 <= j < pre.snaps@.len() ==> {
            &&& same_snap_no_logs(pre.snaps@[j], #[trigger] post.snaps@[j])
            &&& post.snaps@[j].write_log@ == pre.snaps@[j].write_log@
            &&& post.snaps@[j].read_log@ == (if on_chain(pre, i, j)
                && pre.snaps@[j].reads_observed {
                pre.snaps@[j].read_log@.push(c as usize)
            } else {
                pre.snaps@[j].read_log@
            })
        }
}

/// How a write of `v` to cell `c` from snapshot `cur` changes the store.
///
/// Through the global root the committed value changes at once; inside a
/// mutable snapshot the write is staged in that snapshot's buffer alone and
/// no committed value moves. A first write records as baseline the value
/// the parent chain showed at that moment. Either way, the write log of
/// every write-observing snapshot on the chain gains one entry.
pub open spec fn wrote(pre: StateStore, post: StateStore, cur: int, c: int, v: Value) -> bool {
    &&& post.snaps@.len() == pre.snaps@.len()
    &&& (if cur == 0 {
        // Global: the committed value changes, every buffer stays.
        &&& post.cells@ == pre.cells@.update(
            c,
            CellEntry { value: v, merge: pre.cells@[c].merge },
        )
        &&& forall|j: int|
            0 <= j < pre.snaps@.len() ==> same_snap_no_logs(
                pre.snaps@[j],
                #[trigger] post.snaps@[j],
            )
    } else {
        // Scoped: committed values and every other snapshot stay.
        &&& post.cells@ == pre.cells@
        &&& forall|j: int|
            0 <= j < pre.snaps@.len() && j != cur ==> same_snap_no_logs(
                pre.snaps@[j],
                #[trigger] post.snaps@[j],
            )
        &&& same_snap_shape(pre.snaps@[cur], post.snaps@[cur])
        &&& forall|c2: int|
            staged_of(post, cur, c2) == if c2 == c {
                Some(v)
            } else {
                staged_of(pre, cur, c2)
            }
        &&& forall|c2: int|
            baseline_of(post, cur, c2) == if c2 == c && staged_of(pre, cur, c) is None
                && baseline_of(pre, cur, c) is None {
                Some(visible(pre, pre.snaps@[cur].parent->0 as int, c))
            } else {
                baseline_of(pre, cur, c2)
            }
    })
    &&& forall|j: int|
        0 <= j < pre.snaps@.len() ==> {
            &&& (#[trigger] post.snaps@[j]).read_log@ == pre.snaps@[j].read_log@
            &&& post.snaps@[j].write_log@ == (if on_chain(pre, cur, j)
                && pre.snaps@[j].writes_observed {
                pre.snaps@[j].write_log@.push(c as usize)
            } else {
                pre.snaps@[j].write_log@
            })
        }
}

/// The baseline the commit engine uses for cell `c` of `child`: the
/// recorded one, or a fresh read of the committed value when the scope
/// never recorded one (the cell is then treated as unchanged).
pub open spec fn commit_baseline(s: StateStore, child: int, c: int) -> Value {
    match baseline_of(s, child, c) {
        Some(b) => b,
        None => committed(s, c),
    }
}

/// What committing `child`'s staged write to cell `c` resolves to: the
/// staged value itself when no other writer intervened, else whatever the
/// cell's merge policy makes of `(previous, current, applied)` — `None`
/// meaning the whole commit must fail.
pub open spec fn commit_merged(s: StateStore, child: int, c: int) -> Option<Value> {
    let applied = staged_of(s, child, c)->0;
    let previous = commit_baseline(s, child, c);
    let current = committed(s, c);
    if current != previous {
        merge_spec(s.cells@[c].merge, previous, current, applied)
    } else {
        Some(applied)
    }
}

/// Whether committing `child` against the live cells must fail: some
/// staged cell conflicts and its merge declines.
pub open spec fn commit_refused(s: StateStore, child: int) -> bool {
    exists|c: int|
        0 <= c < s.cells@.len() && staged_of(s, child, c) is Some && commit_merged(
            s,
            child,
            c,
        ) is None
}

/// Cell `c`'s committed value after a successful terminal commit of
/// `child`.
pub open spec fn commit_value(s: StateStore, child: int, c: int) -> Value {
    if staged_of(s, child, c) is Some {
        commit_merged(s, child, c)->0
    } else {
        committed(s, c)
    }
}

/// How a commit of `child` into a mutable, non-root parent `p` changes the
/// store: `child`'s staged entries replace `p`'s, `p` adopts a baseline for
/// each newly staged cell (the child's, or a fresh committed read), no cell
/// changes, and nothing else moves.
pub open spec fn buffered_rel(pre: StateStore, post: StateStore, child: int, p: int) -> bool {
    &&& post.cells@ == pre.cells@
    &&& post.snaps@.len() == pre.snaps@.len()
    &&& forall|j: int|
        0 <= j < pre.snaps@.len() && j != child && j != p ==> snap_eq(
            pre.snaps@[j],
            #[trigger] post.snaps@[j],
        )
    &&& same_snap_shape(pre.snaps@[p], post.snaps@[p])
    &&& post.snaps@[p].read_log@ == pre.snaps@[p].read_log@
    &&& post.snaps@[p].write_log@ == pre.snaps@[p].write_log@
    &&& forall|c: int|
        staged_of(post, p, c) == if staged_of(pre, child, c) is Some {
            staged_of(pre, child, c)
        } else {
            staged_of(pre, p, c)
        }
    &&& forall|c: int|
        baseline_of(post, p, c) == if staged_of(pre, child, c) is Some && baseline_of(
            pre,
            p,
            c,
        ) is None {
            Some(commit_baseline(pre, child, c))
        } else {
            baseline_of(pre, p, c)
        }
    &&& same_snap_shape(pre.snaps@[child], post.snaps@[child])
    &&& post.snaps@[child].read_log@ == pre.snaps@[child].read_log@
    &&& post.snaps@[child].write_log@ == pre.snaps@[child].write_log@
    &&& post.snaps@[child].staged@.len() == 0
    &&& post.snaps@[child].baseline@.len() == 0
}

/// How a successful terminal commit of `child` (parent `p` is the global
/// root or read-only) changes the store: every cell's committed value
/// becomes [`commit_value`], the child's buffers drain, every other
/// snapshot's buffers stay, and only write-observing snapshots on `p`'s
/// chain gain log entries.
pub open spec fn applied_rel(pre: StateStore, post: StateStore, child: int, p: int) -> bool {
    &&& post.cells@.len() == pre.cells@.len()
    &&& forall|c: int|
        0 <= c < pre.cells@.len() ==> (#[trigger] post.cells@[c]).value == commit_value(
            pre,
            child,
            c,
        ) && post.cells@[c].merge == pre.cells@[c].merge
    &&& post.snaps@.len() == pre.snaps@.len()
    &&& forall|j: int|
        0 <= j < pre.snaps@.len() && j != child ==> same_snap_no_logs(
            pre.snaps@[j],
            #[trigger] post.snaps@[j],
        )
    &&& same_snap_shape(pre.snaps@[child], post.snaps@[child])
    &&& post.snaps@[child].staged@.len() == 0
    &&& post.snaps@[child].baseline@.len() == 0
    &&& forall|j: int|
        0 <= j < pre.snaps@.len() ==> (#[trigger] post.snaps@[j]).read_log@
            == pre.snaps@[j].read_log@
    &&& forall|j: int|
        0 <= j < pre.snaps@.len() && !(on_chain(pre, p, j) && pre.snaps@[j].writes_observed)
            ==> (#[trigger] post.snaps@[j]).write_log@ == pre.snaps@[j].write_log@
}

/// The full commit relation: what committing snapshot `child` does to the
/// store, for every shape the arena can be in.
///
/// A snapshot without a parent, or a read-only one (it has no write
/// buffer), commits as a no-op. Into a mutable non-root parent the commit
/// buffers ([`buffered_rel`]) and always succeeds: conflicts are deferred
/// to the outermost scope. Against the global root (or a read-only parent)
/// it either fails with the store untouched — exactly when some staged
/// cell's merge declines — or applies every staged write ([`applied_rel`]).
pub open spec fn apply_rel(
    pre: StateStore,
    post: StateStore,
    child: int,
    res: SnapshotApplyResult,
) -> bool {
    if !(0 <= child < pre.snaps@.len()) || pre.snaps@[child].parent is None
        || pre.snaps@[child].read_only {
        res == SnapshotApplyResult::Success && store_eq(pre, post)
    } else {
        let p = pre.snaps@[child].parent->0 as int;
        if p > 0 && !pre.snaps@[p].read_only {
            res == SnapshotApplyResult::Success && buffered_rel(pre, post, child, p)
        } else {
            if commit_refused(pre, child) {
                res == SnapshotApplyResult::Failure && store_eq(pre, post)
            } else {
                res == SnapshotApplyResult::Success && applied_rel(pre, post, child, p)
            }
        }
    }
}

/// Changes that keep every record's shape and buffers keep the store
/// well formed.
pub proof fn lemma_wf_from_same(a: StateStore, b: StateStore)
    requires
        wf(a),
        b.cells@.len() == a.cells@.len(),
        b.snaps@.len() == a.snaps@.len(),
        forall|j: int|
            0 <= j < a.snaps@.len() ==> same_snap_no_logs(
                a.snaps@[j],
                #[trigger] b.snaps@[j],
            ),
    ensures
        wf(b),
{
    assert forall|i: int| 0 <= i < b.snaps@.len() implies snap_wf(b, i) by {
        assert(snap_wf(a, i));
        assert(same_snap_no_logs(a.snaps@[i], b.snaps@[i]));
    }
}

/// Chain membership depends on the parent links alone.
pub proof fn lemma_chain_same(a: StateStore, b: StateStore, i: int, j: int)
    requires
        b.snaps@.len() == a.snaps@.len(),
        forall|k: int|
            0 <= k < a.snaps@.len() ==> (#[trigger] b.snaps@[k]).parent == a.snaps@[k].parent,
        0 <= i < a.snaps@.len(),
    ensures
        on_chain(a, i, j) == on_chain(b, i, j),
    decreases i,
{
    if i > 0 {
        if let Some(p) = a.snaps@[i].parent {
            if p < i {
                lemma_chain_same(a, b, p as int, j);
            }
        }
    }
}

/// What a snapshot sees depends on the committed values, the parent links
/// and the write buffers alone; logs and baselines do not matter.
pub proof fn lemma_visible_same(a: StateStore, b: StateStore, i: int, c: int)
    requires
        b.cells@ == a.cells@,
        b.snaps@.len() == a.snaps@.len(),
        forall|k: int|
            0 <= k < a.snaps@.len() ==> (#[trigger] b.snaps@[k]).parent == a.snaps@[k].parent
                && b.snaps@[k].staged@ == a.snaps@[k].staged@,
        0 <= i < a.snaps@.len(),
    ensures
        visible(a, i, c) == visible(b, i, c),
    decreases i,
{
    if i > 0 {
        if let Some(p) = a.snaps@[i].parent {
            if p < i {
                lemma_visible_same(a, b, p as int, c);
            }
        }
    }
}

/// A chain that reaches `i` also reaches `i`'s parent.
pub proof fn lemma_chain_step(s: StateStore, start: int, i: int)
    requires
        on_chain(s, start, i),
        i > 0,
        s.snaps@[i].parent matches Some(p) && p < i,
    ensures
        on_chain(s, start, s.snaps@[i].parent->0 as int),
    decreases start,
{
    if start != i {
        let sp = s.snaps@[start].parent->0;
        lemma_chain_step(s, sp as int, i);
    } else {
        let p = s.snaps@[i].parent->0;
        assert(on_chain(s, p as int, p as int));
    }
}

/// Chain membership only reaches downward in the arena.
pub proof fn lemma_chain_le(s: StateStore, i: int, j: int)
    requires
        on_chain(s, i, j),
    ensures
        j <= i,
    decreases i,
{
    if i != j {
        let p = s.snaps@[i].parent->0;
        lemma_chain_le(s, p as int, j);
    }
}

/// Sparse lookup in a buffer, executable twin of [`sparse`].
fn sparse_get(v: &Vec<Option<Value>>, c: usize) -> (r: Option<Value>)
    ensures
        r == sparse(v@, c as int),
{
    if c < v.len() {
        v[c]
    } else {
        None
    }
}

/// Record `val` for cell `c` in a buffer, growing it as needed.
fn sparse_put(v: &mut Vec<Option<Value>>, c: usize, val: Value)
    ensures
        final(v)@.len() == if old(v)@.len() > c {
            old(v)@.len() as int
        } else {
            c as int + 1
        },
        forall|x: int|
            sparse(final(v)@, x) == if x == c {
                Some(val)
            } else {
                sparse(old(v)@, x)
            },
{
    while v.len() <= c
        invariant
            old(v)@.len() > c ==> v@.len() == old(v)@.len(),
            old(v)@.len() <= c ==> v@.len() <= c + 1,
            v@.len() >= old(v)@.len(),
            forall|x: int| sparse(v@, x) == sparse(old(v)@, x),
        decreases c + 1 - v@.len(),
    {
        v.push(None);
    }
    v[c] = Some(val);
}

impl StateStore {
    /// Append `c` to the read log of every read-observing snapshot on the
    /// parent chain of `start`.
    pub(crate) fn notify_read(&mut self, start: usize, c: usize)
        requires
            wf(*old(self)),
            start < old(self).snaps@.len(),
        ensures
            wf(*final(self)),
            final(self).cells@ == old(self).cells@,
            final(self).snaps@.len() == old(self).snaps@.len(),
            forall|j: int|
                0 <= j < old(self).snaps@.len() ==> {
                    &&& same_snap_no_logs(
                        old(self).snaps@[j],
                        #[trigger] final(self).snaps@[j],
                    )
                    &&& final(self).snaps@[j].write_log@ == old(self).snaps@[j].write_log@
                    &&& final(self).snaps@[j].read_log@ == (if on_chain(
                        *old(self),
                        start as int,
                        j,
                    ) && old(self).snaps@[j].reads_observed {
                        old(self).snaps@[j].read_log@.push(c)
                    } else {
                        old(self).snaps@[j].read_log@
                    })
                },
    {
        let mut i = start;
        loop
            invariant
                wf(*old(self)),
                i < old(self).snaps@.len(),
                on_chain(*old(self), start as int, i as int),
                self.cells@ == old(self).cells@,
                self.snaps@.len() == old(self).snaps@.len(),
                forall|j: int|
                    0 <= j < old(self).snaps@.len() ==> {
                        &&& same_snap_no_logs(
                            old(self).snaps@[j],
                            #[trigger] self.snaps@[j],
                        )
                        &&& self.snaps@[j].write_log@ == old(self).snaps@[j].write_log@
                        &&& self.snaps@[j].read_log@ == (if on_chain(
                            *old(self),
                            start as int,
                            j,
                        ) && !on_chain(*old(self), i as int, j)
                            && old(self).snaps@[j].reads_observed {
                            old(self).snaps@[j].read_log@.push(c)
                        } else {
                            old(self).snaps@[j].read_log@
                        })
                    },
            decreases i,
        {
            proof {
                assert(snap_wf(*old(self), i as int));
            }
            if self.snaps[i].reads_observed {
                self.snaps[i].read_log.push(c);
            }
            let ghost processed = i as int;
            match self.snaps[i].parent {
                Some(p) => {
                    proof {
                        assert(old(self).snaps@[processed].parent == Some(p));
                        if on_chain(*old(self), p as int, processed) {
                            lemma_chain_le(*old(self), p as int, processed);
                        }
                        lemma_chain_step(*old(self), start as int, processed);
                    }
                    i = p;
                },
                None => {
                    proof {
                        assert(old(self).snaps@[processed].parent is None);
                        assert(processed == 0);
                        lemma_wf_from_same(*old(self), *self);
                    }
                    return ;
                },
            }
        }
    }

    /// Append `c` to the write log of every write-observing snapshot on the
    /// parent chain of `start`.
    pub(crate) fn notify_write(&mut self, start: usize, c: usize)
        requires
            wf(*old(self)),
            start < old(self).snaps@.len(),
        ensures
            wf(*final(self)),
            final(self).cells@ == old(self).cells@,
            final(self).snaps@.len() == old(self).snaps@.len(),
            forall|j: int|
                0 <= j < old(self).snaps@.len() ==> {
                    &&& same_snap_no_logs(
                        old(self).snaps@[j],
                        #[trigger] final(self).snaps@[j],
                    )
                    &&& final(self).snaps@[j].read_log@ == old(self).snaps@[j].read_log@
                    &&& final(self).snaps@[j].write_log@ == (if on_chain(
                        *old(self),
                        start as int,
                        j,
                    ) && old(self).snaps@[j].writes_observed {
                        old(self).snaps@[j].write_log@.push(c)
                    } else {
                        old(self).snaps@[j].write_log@
                    })
                },
    {
        let mut i = start;
        loop
            invariant
                wf(*old(self)),
                i < old(self).snaps@.len(),
                on_chain(*old(self), start as int, i as int),
                self.cells@ == old(self).cells@,
                self.snaps@.len() == old(self).snaps@.len(),
                forall|j: int|
                    0 <= j < old(self).snaps@.len() ==> {
                        &&& same_snap_no_logs(
                            old(self).snaps@[j],
                            #[trigger] self.snaps@[j],
                        )
                        &&& self.snaps@[j].read_log@ == old(self).snaps@[j].read_log@
                        &&& self.snaps@[j].write_log@ == (if on_chain(
                            *old(self),
                            start as int,
                            j,
                        ) && !on_chain(*old(self), i as int, j)
                            && old(self).snaps@[j].writes_observed {
                            old(self).snaps@[j].write_log@.push(c)
                        } else {
                            old(self).snaps@[j].write_log@
                        })
                    },
            decreases i,
        {
            proof {
                assert(snap_wf(*old(self), i as int));
            }
            if self.snaps[i].writes_observed {
                self.snaps[i].write_log.push(c);
            }
            let ghost processed = i as int;
            match self.snaps[i].parent {
                Some(p) => {
                    proof {
                        assert(old(self).snaps@[processed].parent == Some(p));
                        if on_chain(*old(self), p as int, processed) {
                            lemma_chain_le(*old(self), p as int, processed);
                        }
                        lemma_chain_step(*old(self), start as int, processed);
                    }
                    i = p;
                },
                None => {
                    proof {
                        assert(old(self).snaps@[processed].parent is None);
                        assert(processed == 0);
                        lemma_wf_from_same(*old(self), *self);
                    }
                    return ;
                },
            }
        }
    }

    /// Stage a write of `v` to cell `c` in mutable snapshot `i`, recording
    /// the baseline first if this is the snapshot's first write to `c`.
    pub(crate) fn stage_write(&mut self, i: usize, c: usize, v: Value)
        requires
            wf(*old(self)),
            0 < i < old(self).snaps@.len(),
            c < old(self).cells@.len(),
            !old(self).snaps@[i as int].read_only,
        ensures
            wf(*final(self)),
            final(self).cells@ == old(self).cells@,
            final(self).snaps@.len() == old(self).snaps@.len(),
            forall|j: int|
                0 <= j < old(self).snaps@.len() && j != i ==> snap_eq(
                    old(self).snaps@[j],
                    #[trigger] final(self).snaps@[j],
                ),
            same_snap_shape(old(self).snaps@[i as int], final(self).snaps@[i as int]),
            final(self).snaps@[i as int].read_log@ == old(self).snaps@[i as int].read_log@,
            final(self).snaps@[i as int].write_log@ == old(self).snaps@[i as int].write_log@,
            forall|c2: int|
                staged_of(*final(self), i as int, c2) == if c2 == c {
                    Some(v)
                } else {
                    staged_of(*old(self), i as int, c2)
                },
            forall|c2: int|
                baseline_of(*final(self), i as int, c2) == if c2 == c && staged_of(
                    *old(self),
                    i as int,
                    c as int,
                ) is None && baseline_of(*old(self), i as int, c as int) is None {
                    Some(
                        visible(
                            *old(self),
                            old(self).snaps@[i as int].parent->0 as int,
                            c as int,
                        ),
                    )
                } else {
                    baseline_of(*old(self), i as int, c2)
                },
    {
        proof {
            assert(snap_wf(*old(self), i as int));
        }
        let p = match self.snaps[i].parent {
            Some(p) => p,
            None => 0,
        };
        let first = sparse_get(&self.snaps[i].staged, c).is_none();
        if first {
            let has_base = sparse_get(&self.snaps[i].baseline, c).is_some();
            if !has_base {
                let prev = self.read_visible(p, c);
                sparse_put(&mut self.snaps[i].baseline, c, prev);
            }
        }
        sparse_put(&mut self.snaps[i].staged, c, v);
        proof {
            assert forall|k: int| 0 <= k < self.snaps@.len() implies snap_wf(*self, k) by {
                assert(snap_wf(*old(self), k));
            }
        }
    }

    /// Write `v` straight to cell `c`'s committed storage, as the global
    /// root does.
    pub(crate) fn write_committed(&mut self, c: usize, v: Value)
        requires
            wf(*old(self)),
            c < old(self).cells@.len(),
        ensures
            wf(*final(self)),
            final(self).cells@ == old(self).cells@.update(
                c as int,
                CellEntry { value: v, merge: old(self).cells@[c as int].merge },
            ),
            final(self).snaps@ == old(self).snaps@,
    {
        let merge = self.cells[c].merge;
        self.cells[c] = CellEntry { value: v, merge };
        proof {
            assert forall|k: int| 0 <= k < self.snaps@.len() implies snap_wf(*self, k) by {
                assert(snap_wf(*old(self), k));
            }
        }
    }

    /// Conflict detection for a terminal commit of `child`: walk the
    /// staged cells in order, resolving each against the live value, and
    /// return the values to apply — or `None` as soon as a merge declines,
    /// with nothing read beyond and nothing written at all.
    #[verifier::loop_isolation(false)]
    fn plan_commit(&self, child: usize) -> (r: Option<Vec<(usize, Value)>>)
        requires
            wf(*self),
            child < self.snaps@.len(),
        ensures
            match r {
                None => commit_refused(*self, child as int),
                Some(pending) => {
                    &&& !commit_refused(*self, child as int)
                    &&& forall|k: int|
                        0 <= k < pending@.len() ==> (#[trigger] pending@[k]).0
                            < self.cells@.len() && staged_of(
                            *self,
                            child as int,
                            pending@[k].0 as int,
                        ) is Some && pending@[k].1 == commit_value(
                            *self,
                            child as int,
                            pending@[k].0 as int,
                        )
                    &&& forall|k1: int, k2: int|
                        0 <= k1 < k2 < pending@.len() ==> (#[trigger] pending@[k1]).0 < (
                        #[trigger] pending@[k2]).0
                    &&& forall|c: int|
                        0 <= c < self.cells@.len() && staged_of(*self, child as int, c) is Some
                            ==> exists|k: int|
                            0 <= k < pending@.len() && (#[trigger] pending@[k]).0 == c
                },
            },
    {
        proof {
            assert(snap_wf(*self, child as int));
        }
        let n = self.snaps[child].staged.len();
        let mut pending: Vec<(usize, Value)> = Vec::new();
        let mut c: usize = 0;
        while c < n
            invariant
                wf(*self),
                child < self.snaps@.len(),
                n == self.snaps@[child as int].staged@.len(),
                n <= self.cells@.len(),
                c <= n,
                forall|c2: int|
                    0 <= c2 < c && staged_of(*self, child as int, c2) is Some ==> commit_merged(
                        *self,
                        child as int,
                        c2,
                    ) is Some,
                forall|k: int|
                    0 <= k < pending@.len() ==> (#[trigger] pending@[k]).0 < c && staged_of(
                        *self,
                        child as int,
                        pending@[k].0 as int,
                    ) is Some && pending@[k].1 == commit_value(
                        *self,
                        child as int,
                        pending@[k].0 as int,
                    ),
                forall|k1: int, k2: int|
                    0 <= k1 < k2 < pending@.len() ==> (#[trigger] pending@[k1]).0 < (
                    #[trigger] pending@[k2]).0,
                forall|c2: int|
                    0 <= c2 < c && staged_of(*self, child as int, c2) is Some ==> exists|k: int|
                        0 <= k < pending@.len() && (#[trigger] pending@[k]).0 == c2,
            decreases n - c,
        {
            let ghost pend0 = pending@;
            let mut pushed = false;
            if let Some(applied) = sparse_get(&self.snaps[child].staged, c) {
                let current = self.cells[c].value;
                let previous = match sparse_get(&self.snaps[child].baseline, c) {
                    Some(b) => b,
                    None => current,
                };
                if current != previous {
                    match merge_exec(self.cells[c].merge, previous, current, applied) {
                        Some(merged) => {
                            pending.push((c, merged));
                            pushed = true;
                        },
                        None => {
                            proof {
                                assert(staged_of(*self, child as int, c as int) is Some);
                                assert(commit_merged(*self, child as int, c as int) is None);
                            }
                            return None;
                        },
                    }
                } else {
                    pending.push((c, applied));
                    pushed = true;
                }
            }
            proof {
                assert forall|c2: int|
                    0 <= c2 < c + 1 && staged_of(*self, child as int, c2) is Some
                    implies exists|k: int|
                        0 <= k < pending@.len() && (#[trigger] pending@[k]).0 == c2 by {
                    if c2 < c {
                        let k0 = choose|k0: int|
                            0 <= k0 < pend0.len() && (#[trigger] pend0[k0]).0 == c2;
                        assert(pending@[k0].0 == c2);
                    } else {
                        assert(pending@[pending@.len() - 1].0 == c2);
                    }
                }
                assert forall|k1: int, k2: int| 0 <= k1 < k2 < pending@.len() implies (
                #[trigger] pending@[k1]).0 < (#[trigger] pending@[k2]).0 by {
                    if k2 == pending@.len() - 1 && pushed {
                        assert(pending@[k1] == pend0[k1]);
                    }
                }
            }
            c += 1;
        }
        proof {
            assert forall|c2: int|
                0 <= c2 < self.cells@.len() && staged_of(*self, child as int, c2) is Some
                implies commit_merged(*self, child as int, c2) is Some by {
                assert(c2 < n);
            }
        }
        Some(pending)
    }

    /// Case of a mutable, non-root parent: move the child's staged writes
    /// and baselines into the parent's buffers. No cell changes; conflicts
    /// wait for the outermost scope.
    #[verifier::loop_isolation(false)]
    fn apply_buffered(&mut self, child: usize, p: usize)
        requires
            wf(*old(self)),
            child < old(self).snaps@.len(),
            old(self).snaps@[child as int].parent == Some(p),
            0 < p < child,
            !old(self).snaps@[p as int].read_only,
        ensures
            wf(*final(self)),
            buffered_rel(*old(self), *final(self), child as int, p as int),
    {
        proof {
            assert(snap_wf(*old(self), child as int));
            assert(snap_wf(*old(self), p as int));
        }
        let n = self.snaps[child].staged.len();
        let mut c: usize = 0;
        while c < n
            invariant
                wf(*self),
                child < self.snaps@.len(),
                0 < p < child,
                c <= n,
                n <= old(self).cells@.len(),
                self.cells@ == old(self).cells@,
                self.snaps@.len() == old(self).snaps@.len(),
                snap_eq(old(self).snaps@[child as int], self.snaps@[child as int]),
                n == old(self).snaps@[child as int].staged@.len(),
                forall|j: int|
                    0 <= j < old(self).snaps@.len() && j != p ==> snap_eq(
                        old(self).snaps@[j],
                        #[trigger] self.snaps@[j],
                    ),
                same_snap_shape(old(self).snaps@[p as int], self.snaps@[p as int]),
                self.snaps@[p as int].read_log@ == old(self).snaps@[p as int].read_log@,
                self.snaps@[p as int].write_log@ == old(self).snaps@[p as int].write_log@,
                forall|c2: int|
                    staged_of(*self, p as int, c2) == (if 0 <= c2 < c && staged_of(
                        *old(self),
                        child as int,
                        c2,
                    ) is Some {
                        staged_of(*old(self), child as int, c2)
                    } else {
                        staged_of(*old(self), p as int, c2)
                    }),
                forall|c2: int|
                    baseline_of(*self, p as int, c2) == (if 0 <= c2 < c && staged_of(
                        *old(self),
                        child as int,
                        c2,
                    ) is Some && baseline_of(*old(self), p as int, c2) is None {
                        Some(commit_baseline(*old(self), child as int, c2))
                    } else {
                        baseline_of(*old(self), p as int, c2)
                    }),
            decreases n - c,
        {
            let ghost top = *self;
            let st = sparse_get(&self.snaps[child].staged, c);
            match st {
                Some(v) => {
                    proof {
                        assert(staged_of(*old(self), child as int, c as int) == Some(v));
                    }
                    let pb = sparse_get(&self.snaps[p].baseline, c);
                    if pb.is_none() {
                        let b = match sparse_get(&self.snaps[child].baseline, c) {
                            Some(b) => b,
                            None => self.cells[c].value,
                        };
                        proof {
                            assert(b == commit_baseline(*old(self), child as int, c as int));
                        }
                        sparse_put(&mut self.snaps[p].baseline, c, b);
                    }
                    sparse_put(&mut self.snaps[p].staged, c, v);
                    proof {
                        assert(baseline_of(top, p as int, c as int) == baseline_of(
                            *old(self),
                            p as int,
                            c as int,
                        ));
                        assert forall|c2: int|
                            staged_of(*self, p as int, c2) == (if 0 <= c2 < c + 1 && staged_of(
                                *old(self),
                                child as int,
                                c2,
                            ) is Some {
                                staged_of(*old(self), child as int, c2)
                            } else {
                                staged_of(*old(self), p as int, c2)
                            }) by {
                            if c2 != c {
                                assert(staged_of(*self, p as int, c2) == staged_of(
                                    top,
                                    p as int,
                                    c2,
                                ));
                            }
                        }
                        assert forall|c2: int|
                            baseline_of(*self, p as int, c2) == (if 0 <= c2 < c + 1
                                && staged_of(*old(self), child as int, c2) is Some
                                && baseline_of(*old(self), p as int, c2) is None {
                                Some(commit_baseline(*old(self), child as int, c2))
                            } else {
                                baseline_of(*old(self), p as int, c2)
                            }) by {
                            if c2 != c {
                                assert(baseline_of(*self, p as int, c2) == baseline_of(
                                    top,
                                    p as int,
                                    c2,
                                ));
                            }
                        }
                    }
                },
                None => {
                    proof {
                        assert(staged_of(*old(self), child as int, c as int) is None);
                    }
                },
            }
            proof {
                assert forall|k: int| 0 <= k < self.snaps@.len() implies snap_wf(*self, k) by {
                    assert(snap_wf(top, k));
                    if k != p {
                        assert(self.snaps@[k] == top.snaps@[k]);
                    } else {
                        assert(same_snap_shape(top.snaps@[k], self.snaps@[k]));
                        assert(!self.snaps@[k].read_only);
                    }
                }
            }
            c += 1;
        }
        let ghost done = *self;
        self.snaps[child].staged.clear();
        self.snaps[child].baseline.clear();
        proof {
            assert forall|k: int| 0 <= k < self.snaps@.len() implies snap_wf(*self, k) by {
                assert(snap_wf(done, k));
                if k != child {
                    assert(self.snaps@[k] == done.snaps@[k]);
                }
            }
            assert(self.snaps@[p as int] == done.snaps@[p as int]);
            assert forall|c2: int|
                staged_of(*self, p as int, c2) == (if staged_of(
                    *old(self),
                    child as int,
                    c2,
                ) is Some {
                    staged_of(*old(self), child as int, c2)
                } else {
                    staged_of(*old(self), p as int, c2)
                }) by {
                assert(staged_of(*self, p as int, c2) == staged_of(done, p as int, c2));
                if !(0 <= c2 < n) {
                    assert(staged_of(*old(self), child as int, c2) is None);
                }
            }
            assert forall|c2: int|
                baseline_of(*self, p as int, c2) == (if staged_of(
                    *old(self),
                    child as int,
                    c2,
                ) is Some && baseline_of(*old(self), p as int, c2) is None {
                    Some(commit_baseline(*old(self), child as int, c2))
                } else {
                    baseline_of(*old(self), p as int, c2)
                }) by {
                assert(baseline_of(*self, p as int, c2) == baseline_of(done, p as int, c2));
                if !(0 <= c2 < n) {
                    assert(staged_of(*old(self), child as int, c2) is None);
                }
            }
        }
    }

    /// Case of a terminal parent (the global root, or a read-only
    /// snapshot): detect conflicts against the live cells, then — only if
    /// no merge declined — apply every resolved value and notify the
    /// parent's write observers. All-or-nothing: on failure the store is
    /// untouched.
    #[verifier::loop_isolation(false)]
    fn apply_terminal(&mut self, child: usize, p: usize) -> (res: SnapshotApplyResult)
        requires
            wf(*old(self)),
            child < old(self).snaps@.len(),
            old(self).snaps@[child as int].parent == Some(p),
            p < child,
        ensures
            wf(*final(self)),
            res == SnapshotApplyResult::Failure <==> commit_refused(*old(self), child as int),
            res == SnapshotApplyResult::Failure ==> store_eq(*old(self), *final(self)),
            res == SnapshotApplyResult::Success ==> applied_rel(
                *old(self),
                *final(self),
                child as int,
                p as int,
            ),
    {
        let pending = match self.plan_commit(child) {
            Some(pending) => pending,
            None => {
                return SnapshotApplyResult::Failure;
            },
        };
        let mut k: usize = 0;
        while k < pending.len()
            invariant
                wf(*self),
                child < self.snaps@.len(),
                p < child,
                k <= pending@.len(),
                !commit_refused(*old(self), child as int),
                forall|k2: int|
                    0 <= k2 < pending@.len() ==> (#[trigger] pending@[k2]).0
                        < old(self).cells@.len() && staged_of(
                        *old(self),
                        child as int,
                        pending@[k2].0 as int,
                    ) is Some && pending@[k2].1 == commit_value(
                        *old(self),
                        child as int,
                        pending@[k2].0 as int,
                    ),
                forall|c: int|
                    0 <= c < old(self).cells@.len() && staged_of(
                        *old(self),
                        child as int,
                        c,
                    ) is Some ==> exists|k2: int|
                        0 <= k2 < pending@.len() && (#[trigger] pending@[k2]).0 == c,
                self.cells@.len() == old(self).cells@.len(),
                self.snaps@.len() == old(self).snaps@.len(),
                forall|c: int|
                    0 <= c < old(self).cells@.len() ==> (#[trigger] self.cells@[c]).merge == old(
                        self,
                    ).cells@[c].merge,
                forall|c: int|
                    0 <= c < old(self).cells@.len() ==> (#[trigger] self.cells@[c]).value == (
                    if exists|k2: int| 0 <= k2 < k && (#[trigger] pending@[k2]).0 == c {
                        commit_value(*old(self), child as int, c)
                    } else {
                        committed(*old(self), c)
                    }),
                forall|j: int|
                    0 <= j < old(self).snaps@.len() ==> same_snap_no_logs(
                        old(self).snaps@[j],
                        #[trigger] self.snaps@[j],
                    ),
                forall|j: int|
                    0 <= j < old(self).snaps@.len() ==> (#[trigger] self.snaps@[j]).read_log@
                        == old(self).snaps@[j].read_log@,
                forall|j: int|
                    0 <= j < old(self).snaps@.len() && !(on_chain(*old(self), p as int, j)
                        && old(self).snaps@[j].writes_observed) ==> (
                    #[trigger] self.snaps@[j]).write_log@ == old(self).snaps@[j].write_log@,
            decreases pending@.len() - k,
        {
            let (c, v) = pending[k];
            let ghost before = *self;
            self.write_committed(c, v);
            let ghost mid = *self;
            self.notify_write(p, c);
            proof {
                assert forall|j: int| 0 <= j < old(self).snaps@.len() implies on_chain(
                    mid,
                    p as int,
                    j,
                ) == on_chain(*old(self), p as int, j) by {
                    lemma_chain_same(*old(self), mid, p as int, j);
                }
                assert forall|c2: int|
                    0 <= c2 < old(self).cells@.len() implies (#[trigger] self.cells@[c2]).value
                    == (if exists|k2: int| 0 <= k2 < k + 1 && (#[trigger] pending@[k2]).0 == c2 {
                        commit_value(*old(self), child as int, c2)
                    } else {
                        committed(*old(self), c2)
                    }) by {
                    if c2 == c {
                        assert(pending@[k as int].0 == c2);
                    } else {
                        assert(self.cells@[c2] == before.cells@[c2]);
                        assert forall|k2: int|
                            0 <= k2 < k + 1 && (#[trigger] pending@[k2]).0 == c2 implies 0 <= k2
                            < k by {}
                    }
                }
            }
            k += 1;
        }
        let ghost done = *self;
        self.snaps[child].staged.clear();
        self.snaps[child].baseline.clear();
        proof {
            assert forall|j: int| 0 <= j < self.snaps@.len() implies snap_wf(*self, j) by {
                assert(snap_wf(done, j));
                if j != child {
                    assert(self.snaps@[j] == done.snaps@[j]);
                }
            }
            assert forall|c: int|
                0 <= c < old(self).cells@.len() implies (#[trigger] self.cells@[c]).value
                == commit_value(*old(self), child as int, c) by {
                if staged_of(*old(self), child as int, c) is None {
                    assert forall|k2: int|
                        0 <= k2 < pending@.len() && (#[trigger] pending@[k2]).0 == c
                        implies false by {}
                }
            }
        }
        SnapshotApplyResult::Success
    }

    /// Commit `child` into its parent `p`: buffer into a mutable parent,
    /// or run conflict detection and apply against a terminal one.
    pub(crate) fn apply_to_parent(&mut self, child: usize, p: usize) -> (res:
        SnapshotApplyResult)
        requires
            wf(*old(self)),
            child < old(self).snaps@.len(),
            old(self).snaps@[child as int].parent == Some(p),
            !old(self).snaps@[child as int].read_only,
        ensures
            wf(*final(self)),
            apply_rel(*old(self), *final(self), child as int, res),
    {
        proof {
            assert(snap_wf(*old(self), child as int));
        }
        if p > 0 && !self.snaps[p].read_only {
            self.apply_buffered(child, p);
            SnapshotApplyResult::Success
        } else {
            self.apply_terminal(child, p)
        }
    }

    /// A fresh world: the global root and no cells.
    pub fn new() -> (s: StateStore)
        ensures
            wf(s),
            s.cells@.len() == 0,
            s.snaps@.len() == 1,
    {
        let root = SnapRecord {
            read_only: false,
            parent: None,
            reads_observed: false,
            writes_observed: false,
            staged: Vec::new(),
            baseline: Vec::new(),
            read_log: Vec::new(),
            write_log: Vec::new(),
        };
        let mut snaps: Vec<SnapRecord> = Vec::new();
        snaps.push(root);
        StateStore { cells: Vec::new(), snaps }
    }

    /// The read algorithm: walk the parent chain for a staged value, else
    /// fall back to the committed value.
    pub fn read_visible(&self, i: usize, c: usize) -> (r: Value)
        requires
            wf(*self),
            i < self.snaps@.len(),
            c < self.cells@.len(),
        ensures
            r == visible(*self, i as int, c as int),
        decreases i,
    {
        proof {
            assert(snap_wf(*self, i as int));
        }
        if i > 0 {
            let rec = &self.snaps[i];
            if c < rec.staged.len() {
                if let Some(v) = rec.staged[c] {
                    return v;
                }
            }
            match rec.parent {
                Some(p) => {
                    return self.read_visible(p, c);
                },
                None => {
                },
            }
        }
        self.cells[c].value
    }

    /// The cells this snapshot was notified of as read, in order.
    pub fn read_log(&self, snap: Snapshot) -> (r: &Vec<usize>)
        requires
            snap.index < self.snaps@.len(),
        ensures
            r@ == self.snaps@[snap.index as int].read_log@,
    {
        &self.snaps[snap.index].read_log
    }

    /// The cells this snapshot was notified of as written, in order.
    pub fn write_log(&self, snap: Snapshot) -> (r: &Vec<usize>)
        requires
            snap.index < self.snaps@.len(),
        ensures
            r@ == self.snaps@[snap.index as int].write_log@,
    {
        &self.snaps[snap.index].write_log
    }
}

impl Ambient {
    /// An ambient slot with nothing installed: the root is current.
    pub fn new() -> (a: Ambient)
        ensures
            a.current is None,
    {
        Ambient { current: None }
    }
}

impl Snapshot {
    /// The snapshot's id. The global root has id 0.
    pub fn id(&self) -> (r: SnapshotId)
        ensures
            r == self.index,
    {
        self.index
    }

    /// Whether this snapshot forbids writes.
    pub fn is_read_only(&self, store: &StateStore) -> (r: bool)
        requires
            self.index < store.snaps@.len(),
        ensures
            r == store.snaps@[self.index as int].read_only,
    {
        store.snaps[self.index].read_only
    }

    /// The enclosing snapshot, or `None` for the global root.
    pub fn parent(&self, store: &StateStore) -> (r: Option<Snapshot>)
        requires
            self.index < store.snaps@.len(),
        ensures
            match store.snaps@[self.index as int].parent {
                Some(p) => r == Some(Snapshot { index: p }),
                None => r is None,
            },
    {
        match store.snaps[self.index].parent {
            Some(p) => Some(Snapshot { index: p }),
            None => None,
        }
    }
}

/// What entering a scope does: one fresh snapshot record appended — child
/// of the ambient snapshot, with empty buffers and logs — and the ambient
/// slot pointing at it. Everything that existed before stays as it was.
pub open spec fn entered(
    pre: StateStore,
    pre_amb: Ambient,
    read_only: bool,
    reads: bool,
    writes: bool,
    post: StateStore,
    post_amb: Ambient,
) -> bool {
    let idx = pre.snaps@.len() as int;
    &&& post.cells@ == pre.cells@
    &&& post.snaps@.len() == pre.snaps@.len() + 1
    &&& forall|j: int|
        0 <= j < pre.snaps@.len() ==> snap_eq(pre.snaps@[j], #[trigger] post.snaps@[j])
    &&& post.snaps@[idx].read_only == read_only
    &&& post.snaps@[idx].parent == Some(cur_of(pre_amb) as usize)
    &&& post.snaps@[idx].reads_observed == reads
    &&& post.snaps@[idx].writes_observed == writes
    &&& post.snaps@[idx].staged@.len() == 0
    &&& post.snaps@[idx].baseline@.len() == 0
    &&& post.snaps@[idx].read_log@.len() == 0
    &&& post.snaps@[idx].write_log@.len() == 0
    &&& post_amb.current == Some(pre.snaps@.len() as usize)
}

/// Append a fresh child of the ambient snapshot and install it.
fn enter_scope(
    store: &mut StateStore,
    amb: &mut Ambient,
    read_only: bool,
    reads: bool,
    writes: bool,
) -> (snap: Snapshot)
    requires
        wf(*old(store)),
        amb_wf(*old(store), *old(amb)),
    ensures
        wf(*final(store)),
        amb_wf(*final(store), *final(amb)),
        snap.index == old(store).snaps@.len(),
        entered(
            *old(store),
            *old(amb),
            read_only,
            reads,
            writes,
            *final(store),
            *final(amb),
        ),
{
    let parent_idx = match amb.current {
        Some(i) => i,
        None => 0,
    };
    let idx = store.snaps.len();
    store.snaps.push(
        SnapRecord {
            read_only,
            parent: Some(parent_idx),
            reads_observed: reads,
            writes_observed: writes,
            staged: Vec::new(),
            baseline: Vec::new(),
            read_log: Vec::new(),
            write_log: Vec::new(),
        },
    );
    amb.current = Some(idx);
    proof {
        assert forall|k: int| 0 <= k < store.snaps@.len() implies snap_wf(*store, k) by {
            if k < old(store).snaps@.len() {
                assert(snap_wf(*old(store), k));
                assert(store.snaps@[k] == old(store).snaps@[k]);
            }
        }
    }
    Snapshot { index: idx }
}

/// Enter a fresh mutable snapshot under the ambient one: its writes stage
/// privately until it commits.
pub fn enter_mutable(store: &mut StateStore, amb: &mut Ambient) -> (snap: Snapshot)
    requires
        wf(*old(store)),
        amb_wf(*old(store), *old(amb)),
    ensures
        wf(*final(store)),
        amb_wf(*final(store), *final(amb)),
        snap.index == old(store).snaps@.len(),
        entered(*old(store), *old(amb), false, false, false, *final(store), *final(amb)),
{
    enter_scope(store, amb, false, false, false)
}

/// Enter a fresh read-only snapshot under the ambient one, observing reads
/// and/or writes as asked.
pub fn enter_observing(store: &mut StateStore, amb: &mut Ambient, reads: bool, writes: bool) -> (
    snap: Snapshot)
    requires
        wf(*old(store)),
        amb_wf(*old(store), *old(amb)),
    ensures
        wf(*final(store)),
        amb_wf(*final(store), *final(amb)),
        snap.index == old(store).snaps@.len(),
        entered(*old(store), *old(amb), true, reads, writes, *final(store), *final(amb)),
{
    enter_scope(store, amb, true, reads, writes)
}

/// Restore the ambient slot to a previously saved value. Scope exits call
/// this unconditionally, whatever the body did.
pub fn restore_ambient(amb: &mut Ambient, prev: Option<usize>)
    ensures
        final(amb).current == prev,
{
    amb.current = prev;
}

/// Commit snapshot `snap`: a no-op for the root or a read-only snapshot,
/// else a commit into its parent as [`apply_rel`] describes.
pub fn apply_snapshot(store: &mut StateStore, snap: Snapshot) -> (res: SnapshotApplyResult)
    requires
        wf(*old(store)),
        snap.index < old(store).snaps@.len(),
    ensures
        wf(*final(store)),
        apply_rel(*old(store), *final(store), snap.index as int, res),
{
    let child = snap.index;
    let parent = store.snaps[child].parent;
    match parent {
        None => SnapshotApplyResult::Success,
        Some(p) => {
            if store.snaps[child].read_only {
                SnapshotApplyResult::Success
            } else {
                store.apply_to_parent(child, p)
            }
        },
    }
}

/// Run `body` inside a fresh mutable snapshot of the ambient one, restore
/// the ambient slot, then commit the snapshot. `Ok` carries the body's
/// result; `Err` reports a commit whose conflicting merge declined, with
/// no cell changed.
///
/// The body takes and returns the store and the ambient slot; it must
/// leave the store well formed and must not drop the snapshot it runs in.
/// Whatever it does, the ambient slot always comes back as it was before
/// the call.
pub fn with_mutable_snapshot<R, F: FnOnce(StateStore, Ambient) -> (StateStore, Ambient, R)>(
    store: StateStore,
    amb: Ambient,
    f: F,
) -> (out: (StateStore, Ambient, Result<R, SnapshotApplyResult>))
    requires
        wf(store),
        amb_wf(store, amb),
        forall|s: StateStore, a: Ambient|
            entered(store, amb, false, false, false, s, a) ==> call_requires(f, (s, a)),
        forall|s: StateStore, a: Ambient, o: (StateStore, Ambient, R)|
            call_ensures(f, (s, a), o) ==> wf(o.0) && o.0.snaps@.len() > store.snaps@.len(),
    ensures
        out.1.current == amb.current,
        wf(out.0),
        exists|s1: StateStore, a1: Ambient, mid: (StateStore, Ambient, R)|
            {
                &&& entered(store, amb, false, false, false, s1, a1)
                &&& #[trigger] call_ensures(f, (s1, a1), mid)
                &&& apply_rel(
                    mid.0,
                    out.0,
                    store.snaps@.len() as int,
                    if out.2 is Ok {
                        SnapshotApplyResult::Success
                    } else {
                        SnapshotApplyResult::Failure
                    },
                )
                &&& (out.2 matches Ok(r) ==> r == mid.2)
            },
{
    let prev = amb.current;
    let mut s = store;
    let mut a = amb;
    let child = enter_mutable(&mut s, &mut a);
    let ghost s1 = s;
    let ghost a1 = a;
    let (s2, a2, r) = f(s, a);
    let ghost mid = (s2, a2, r);
    let mut s3 = s2;
    let res = apply_snapshot(&mut s3, child);
    let out_amb = Ambient { current: prev };
    let out = match res {
        SnapshotApplyResult::Success => (s3, out_amb, Ok(r)),
        SnapshotApplyResult::Failure => (s3, out_amb, Err(SnapshotApplyResult::Failure)),
    };
    proof {
        assert(entered(store, amb, false, false, false, s1, a1));
        assert(call_ensures(f, (s1, a1), mid));
    }
    out
}

/// Run `body` inside a fresh read-only snapshot carrying the asked-for
/// observers, restore the ambient slot, and hand back the body's result
/// together with the snapshot's handle, through which the recorded reads
/// and writes can be fetched. No commit happens.
pub fn observe<R, F: FnOnce(StateStore, Ambient) -> (StateStore, Ambient, R)>(
    store: StateStore,
    amb: Ambient,
    reads: bool,
    writes: bool,
    f: F,
) -> (out: (StateStore, Ambient, R, Snapshot))
    requires
        wf(store),
        amb_wf(store, amb),
        forall|s: StateStore, a: Ambient|
            entered(store, amb, true, reads, writes, s, a) ==> call_requires(f, (s, a)),
    ensures
        out.1.current == amb.current,
        out.3.index == store.snaps@.len(),
        exists|s1: StateStore, a1: Ambient, a2: Ambient|
            {
                &&& entered(store, amb, true, reads, writes, s1, a1)
                &&& #[trigger] call_ensures(f, (s1, a1), (out.0, a2, out.2))
            },
{
    let prev = amb.current;
    let mut s = store;
    let mut a = amb;
    let snap = enter_observing(&mut s, &mut a, reads, writes);
    let ghost s1 = s;
    let ghost a1 = a;
    let (s2, a2, r) = f(s, a);
    let ghost mid_amb = a2;
    let out_amb = Ambient { current: prev };
    let out = (s2, out_amb, r, snap);
    proof {
        assert(entered(store, amb, true, reads, writes, s1, a1));
        assert(call_ensures(f, (s1, a1), (out.0, mid_amb, out.2)));
    }
    out
}

/// The ambient snapshot: the installed one, or the global root.
pub fn current_snapshot(amb: &Ambient) -> (r: Snapshot)
    ensures
        r.index == cur_of(*amb),
{
    match amb.current {
        Some(i) => Snapshot { index: i },
        None => Snapshot { index: 0 },
    }
}

/// A disposal action handed out when an observer is installed; running it
/// undoes the installation.
pub struct ObserverHandle<F: FnOnce()> {
    /// What disposing performs.
    pub action: F,
}

impl<F: FnOnce()> ObserverHandle<F> {
    /// Wrap a disposal action.
    pub fn new(f: F) -> (h: ObserverHandle<F>)
        ensures
            h.action == f,
    {
        ObserverHandle { action: f }
    }

    /// Run the disposal action.
    pub fn dispose(self)
        requires
            call_requires(self.action, ()),
    {
        (self.action)()
    }
}

/// Read-your-writes: when a snapshot has a value staged for a cell, that
/// value is what the snapshot sees for the cell; a read after a write in
/// the same scope yields the written value.
pub proof fn lemma_read_your_writes(s: StateStore, i: int, c: int, v: Value)
    requires
        wf(s),
        0 < i < s.snaps@.len(),
        staged_of(s, i, c) == Some(v),
    ensures
        visible(s, i, c) == v,
{
}

/// Isolation: a write staged in snapshot `w` changes what no snapshot off
/// `w`'s parent chain sees, for any cell. Until `w` commits, only readers
/// inside `w`'s scope observe the write.
pub proof fn lemma_isolation(
    pre: StateStore,
    post: StateStore,
    w: int,
    c: int,
    v: Value,
    j: int,
    q: int,
)
    requires
        wf(pre),
        0 < w < pre.snaps@.len(),
        wrote(pre, post, w, c, v),
        0 <= j < pre.snaps@.len(),
        !on_chain(pre, j, w),
    ensures
        visible(post, j, q) == visible(pre, j, q),
    decreases j,
{
    assert(snap_wf(pre, j));
    if j > 0 {
        assert(same_snap_no_logs(pre.snaps@[j], post.snaps@[j]));
        let p = pre.snaps@[j].parent->0;
        lemma_isolation(pre, post, w, c, v, p as int, q);
    }
}

/// Merge determinism: the outcome the commit engine stages for a cell is a
/// function of the staged value, the baseline, the live value and the
/// cell's merge policy alone — nothing else about the store matters, and
/// the engine never second-guesses the policy's answer.
pub proof fn lemma_merge_determinism(
    s1: StateStore,
    s2: StateStore,
    child1: int,
    child2: int,
    c1: int,
    c2: int,
)
    requires
        0 <= c1 < s1.cells@.len(),
        0 <= c2 < s2.cells@.len(),
        staged_of(s1, child1, c1) == staged_of(s2, child2, c2),
        baseline_of(s1, child1, c1) == baseline_of(s2, child2, c2),
        committed(s1, c1) == committed(s2, c2),
        s1.cells@[c1].merge == s2.cells@[c2].merge,
    ensures
        commit_merged(s1, child1, c1) == commit_merged(s2, child2, c2),
        staged_of(s1, child1, c1) is Some ==> commit_value(s1, child1, c1) == commit_value(
            s2,
            child2,
            c2,
        ),
{
}

/// Atomic commit: a terminal commit applies every staged write — each cell
/// takes its [`commit_value`] — or, when it fails, applies none: every
/// committed value is exactly what it was. Partial application never
/// occurs.
pub proof fn lemma_atomic_commit(
    pre: StateStore,
    post: StateStore,
    child: int,
    res: SnapshotApplyResult,
)
    requires
        0 <= child < pre.snaps@.len(),
        pre.snaps@[child].parent is Some,
        !pre.snaps@[child].read_only,
        (pre.snaps@[child].parent->0 == 0 || pre.snaps@[pre.snaps@[child].parent->0 as int].read_only),
        apply_rel(pre, post, child, res),
    ensures
        res == SnapshotApplyResult::Failure ==> forall|c: int|
            0 <= c < pre.cells@.len() ==> committed(post, c) == committed(pre, c),
        res == SnapshotApplyResult::Success ==> forall|c: int|
            0 <= c < pre.cells@.len() ==> committed(post, c) == commit_value(pre, child, c),
{
}

/// Baseline fidelity: when a scope recorded a baseline for a cell — which
/// [`wrote`] shows happens at the scope's first write, with the value the
/// cell then held — the commit engine's conflict detection uses exactly
/// that value.
pub proof fn lemma_baseline_used(s: StateStore, child: int, c: int, b: Value)
    requires
        baseline_of(s, child, c) == Some(b),
    ensures
        commit_baseline(s, child, c) == b,
{
}

} // verus!
