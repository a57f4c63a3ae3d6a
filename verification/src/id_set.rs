//! A small immutable set of snapshot ids.
//!
//! Every operation returns a fresh set; the receiver is never changed.

use vstd::prelude::*;

verus! {

broadcast use vstd::seq_lib::lemma_seq_contains_after_push;

/// Identifier of a snapshot. The global root always has id 0; children are
/// numbered from 1 in order of creation.
pub type SnapshotId = usize;

/// An immutable set of snapshot ids, stored as a duplicate-free vector.
pub struct SnapshotIdSet {
    ids: Vec<SnapshotId>,
}

impl SnapshotIdSet {
    /// Whether `id` is a member of the set.
    pub closed spec fn spec_contains(&self, id: SnapshotId) -> bool {
        self.ids@.contains(id)
    }

    /// The representation holds each member exactly once.
    pub closed spec fn inv(&self) -> bool {
        forall|i: int, j: int|
            0 <= i < j < self.ids@.len() ==> self.ids@[i] != self.ids@[j]
    }

    /// The empty set.
    pub fn new() -> (r: SnapshotIdSet)
        ensures
            r.inv(),
            forall|x: SnapshotId| !r.spec_contains(x),
    {
        SnapshotIdSet { ids: Vec::new() }
    }

    fn copy_ids(&self) -> (r: Vec<SnapshotId>)
        ensures
            r@ == self.ids@,
    {
        let mut r: Vec<SnapshotId> = Vec::new();
        let mut i: usize = 0;
        while i < self.ids.len()
            invariant
                i <= self.ids@.len(),
                r@ == self.ids@.subrange(0, i as int),
            decreases self.ids@.len() - i,
        {
            r.push(self.ids[i]);
            i += 1;
        }
        proof {
            assert(r@ == self.ids@.subrange(0, self.ids@.len() as int));
            assert(self.ids@.subrange(0, self.ids@.len() as int) =~= self.ids@);
        }
        r
    }

    /// Membership test.
    pub fn get(&self, id: SnapshotId) -> (r: bool)
        ensures
            r == self.spec_contains(id),
    {
        let mut i: usize = 0;
        while i < self.ids.len()
            invariant
                i <= self.ids@.len(),
                forall|k: int| 0 <= k < i ==> self.ids@[k] != id,
            decreases self.ids@.len() - i,
        {
            if self.ids[i] == id {
                return true;
            }
            i += 1;
        }
        false
    }

    /// A copy of the set with `id` added.
    pub fn set(&self, id: SnapshotId) -> (r: SnapshotIdSet)
        requires
            self.inv(),
        ensures
            r.inv(),
            forall|x: SnapshotId|
                r.spec_contains(x) <==> (self.spec_contains(x) || x == id),
    {
        if self.get(id) {
            SnapshotIdSet { ids: self.copy_ids() }
        } else {
            let mut ids = self.copy_ids();
            ids.push(id);
            SnapshotIdSet { ids }
        }
    }

    /// A copy of the set with `id` removed.
    pub fn clear(&self, id: SnapshotId) -> (r: SnapshotIdSet)
        requires
            self.inv(),
        ensures
            r.inv(),
            forall|x: SnapshotId|
                r.spec_contains(x) <==> (self.spec_contains(x) && x != id),
    {
        let mut ids: Vec<SnapshotId> = Vec::new();
        let mut i: usize = 0;
        while i < self.ids.len()
            invariant
                self.inv(),
                i <= self.ids@.len(),
                forall|x: SnapshotId|
                    ids@.contains(x) <==> (self.ids@.subrange(0, i as int).contains(x)
                        && x != id),
                forall|a: int, b: int| 0 <= a < b < ids@.len() ==> ids@[a] != ids@[b],
                forall|x: SnapshotId| ids@.contains(x) ==> self.ids@.contains(x),
            decreases self.ids@.len() - i,
        {
            let cur = self.ids[i];
            proof {
                assert(self.ids@.subrange(0, i + 1 as int)
                    =~= self.ids@.subrange(0, i as int).push(cur));
                assert(self.ids@[i as int] == cur);
                assert(self.ids@.contains(cur));
            }
            if cur != id {
                proof {
                    // A duplicate of `cur` in `ids` would be a duplicate in the
                    // prefix of the duplicate-free source.
                    if ids@.contains(cur) {
                        let sub = self.ids@.subrange(0, i as int);
                        assert(sub.contains(cur));
                        let k = choose|k: int| 0 <= k < sub.len() && sub[k] == cur;
                        assert(self.ids@[k] == self.ids@[i as int]);
                        assert(false);
                    }
                }
                ids.push(cur);
            }
            i += 1;
        }
        proof {
            assert(self.ids@.subrange(0, self.ids@.len() as int) =~= self.ids@);
        }
        SnapshotIdSet { ids }
    }

    /// The union of the two sets.
    pub fn or(&self, other: SnapshotIdSet) -> (r: SnapshotIdSet)
        requires
            self.inv(),
            other.inv(),
        ensures
            r.inv(),
            forall|x: SnapshotId|
                r.spec_contains(x) <==> (self.spec_contains(x) || other.spec_contains(x)),
    {
        let mut acc = SnapshotIdSet { ids: self.copy_ids() };
        let mut i: usize = 0;
        while i < other.ids.len()
            invariant
                acc.inv(),
                i <= other.ids@.len(),
                forall|x: SnapshotId|
                    acc.spec_contains(x) <==> (self.spec_contains(x)
                        || other.ids@.subrange(0, i as int).contains(x)),
            decreases other.ids@.len() - i,
        {
            let cur = other.ids[i];
            proof {
                assert(other.ids@.subrange(0, i + 1 as int)
                    =~= other.ids@.subrange(0, i as int).push(cur));
            }
            acc = acc.set(cur);
            i += 1;
        }
        proof {
            assert(other.ids@.subrange(0, other.ids@.len() as int) =~= other.ids@);
        }
        acc
    }

    /// A copy of the set with every id in `from .. until` added.
    pub fn add_range(&self, from: SnapshotId, until: SnapshotId) -> (r: SnapshotIdSet)
        requires
            self.inv(),
        ensures
            r.inv(),
            forall|x: SnapshotId|
                r.spec_contains(x) <==> (self.spec_contains(x) || (from <= x < until)),
    {
        let mut acc = SnapshotIdSet { ids: self.copy_ids() };
        let mut id = from;
        if from >= until {
            return acc;
        }
        while id < until
            invariant
                acc.inv(),
                from <= id <= until,
                forall|x: SnapshotId|
                    acc.spec_contains(x) <==> (self.spec_contains(x) || (from <= x < id)),
            decreases until - id,
        {
            acc = acc.set(id);
            id += 1;
        }
        acc
    }
}

impl Default for SnapshotIdSet {
    /// The empty set.
    fn default() -> (r: SnapshotIdSet)
        ensures
            r.inv(),
            forall|x: SnapshotId| !r.spec_contains(x),
    {
        SnapshotIdSet::new()
    }
}

} // verus!
