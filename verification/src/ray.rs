//! Ray identifiers and per-worker ray de-duplication.
//!
//! Every ray gets a unique id from a shared counter. Because grid cell
//! assignment is conservative, one object can be met by the same ray in
//! several cells; each object keeps one "last seen ray id" slot per
//! worker, so a repeated test is recognised and skipped. The reduction
//! that keeps the nearest hit tolerates such masking: it never changes
//! the result, only the number of redundant intersection tests.

use vstd::prelude::*;

verus! {

/// The shared counter that hands out process-unique, monotonically
/// increasing ray ids. The render session owns one and every worker
/// draws from it.
pub struct RayIdAllocator {
    pub next: u64,
}

impl RayIdAllocator {
    /// A fresh allocator, starting at id zero.
    pub fn new() -> (r: Self)
        ensures
            r.next == 0,
    {
        RayIdAllocator { next: 0 }
    }

    /// Draw the next ray id. Ids are handed out in increasing order, so
    /// two draws never return the same id.
    pub fn next_ray_id(&mut self) -> (id: u64)
        requires
            old(self).next < u64::MAX,
        ensures
            id == old(self).next,
            final(self).next == old(self).next + 1,
    {
        let id = self.next;
        self.next = self.next + 1;
        id
    }
}

/// One "last seen ray id" slot per worker thread, kept by each object.
/// A worker only ever touches its own slot, so no locking is needed.
pub struct RaySeenCache {
    pub slots: Vec<Option<u64>>,
}

impl RaySeenCache {
    /// A cache with one empty slot per worker.
    pub fn new(workers: usize) -> (r: Self)
        ensures
            r.slots@.len() == workers,
            forall|i: int| 0 <= i < workers ==> (#[trigger] r.slots@[i]) is None,
    {
        let mut slots: Vec<Option<u64>> = Vec::new();
        while slots.len() < workers
            invariant
                slots@.len() <= workers,
                forall|i: int| 0 <= i < slots@.len() ==> (#[trigger] slots@[i]) is None,
            decreases workers - slots@.len(),
        {
            slots.push(None);
        }
        RaySeenCache { slots }
    }

    /// Record the ray in the worker's slot and report whether that very
    /// ray was already the last one this worker tested here. Only the
    /// caller's slot changes.
    pub fn ray_previously_visited(&mut self, worker: usize, ray_id: u64) -> (seen: bool)
        requires
            worker < old(self).slots@.len(),
        ensures
            seen == (old(self).slots@[worker as int] == Some(ray_id)),
            final(self).slots@ == old(self).slots@.update(worker as int, Some(ray_id)),
    {
        let previous = self.slots[worker];
        self.slots[worker] = Some(ray_id);
        match previous {
            Some(last_seen) => last_seen == ray_id,
            None => false,
        }
    }
}

/// The nearest candidate among the outcomes of a traversal's
/// intersection tests: `None` entries are misses or skipped tests,
/// `Some` entries are hit distances.
pub open spec fn min_candidate(s: Seq<Option<u64>>) -> Option<u64>
    decreases s.len(),
{
    if s.len() == 0 {
        None
    } else {
        let rest = min_candidate(s.drop_last());
        match (rest, s.last()) {
            (None, last) => last,
            (Some(a), None) => Some(a),
            (Some(a), Some(b)) => if b < a {
                Some(b)
            } else {
                Some(a)
            },
        }
    }
}

/// The distances offered by a candidate list, regardless of position
/// and multiplicity.
pub open spec fn candidate_set(s: Seq<Option<u64>>) -> Set<u64> {
    Set::new(|v: u64| exists|i: int| 0 <= i < s.len() && s[i] == Some(v))
}

/// The nearest candidate is the least element of the candidate set.
proof fn lemma_min_candidate_least(s: Seq<Option<u64>>)
    ensures
        min_candidate(s) is None ==> candidate_set(s) =~= Set::<u64>::empty(),
        min_candidate(s) matches Some(m) ==> candidate_set(s).contains(m) && (forall|v: u64|
            candidate_set(s).contains(v) ==> m <= v),
    decreases s.len(),
{
    if s.len() == 0 {
        assert forall|v: u64| !candidate_set(s).contains(v) by {}
    } else {
        let rest = s.drop_last();
        lemma_min_candidate_least(rest);
        assert forall|v: u64| candidate_set(rest).contains(v) implies candidate_set(s).contains(
            v,
        ) by {
            let i = choose|i: int| 0 <= i < rest.len() && rest[i] == Some(v);
            assert(s[i] == Some(v));
        }
        match s.last() {
            Some(b) => {
                assert(s[s.len() - 1] == Some(b));
                assert(candidate_set(s).contains(b));
            },
            None => {},
        }
        assert forall|v: u64| candidate_set(s).contains(v) implies candidate_set(rest).contains(v)
            || s.last() == Some(v) by {
            let i = choose|i: int| 0 <= i < s.len() && s[i] == Some(v);
            if i < s.len() - 1 {
                assert(rest[i] == Some(v));
            }
        }
        if min_candidate(s) is None {
            assert forall|v: u64| !candidate_set(s).contains(v) by {
                if candidate_set(s).contains(v) {
                    assert(candidate_set(rest).contains(v) || s.last() == Some(v));
                }
            }
        }
    }
}

/// De-duplication transparency: two candidate lists that offer the same
/// set of hit distances reduce to the same nearest hit. Masking a
/// repeated intersection test — as the per-worker ray-id cache does —
/// never removes the last copy of a distance, so it never changes the
/// nearest hit, only the number of redundant tests. For the same reason
/// the nearest hit does not depend on the order in which the traversal
/// meets the candidates.
pub proof fn lemma_dedup_preserves_nearest(s1: Seq<Option<u64>>, s2: Seq<Option<u64>>)
    requires
        candidate_set(s1) == candidate_set(s2),
    ensures
        min_candidate(s1) == min_candidate(s2),
{
    lemma_min_candidate_least(s1);
    lemma_min_candidate_least(s2);
    match (min_candidate(s1), min_candidate(s2)) {
        (None, None) => {},
        (None, Some(m2)) => {
            assert(candidate_set(s2).contains(m2));
            assert(candidate_set(s1).contains(m2));
            assert(candidate_set(s1) =~= Set::<u64>::empty());
        },
        (Some(m1), None) => {
            assert(candidate_set(s1).contains(m1));
            assert(candidate_set(s2).contains(m1));
            assert(candidate_set(s2) =~= Set::<u64>::empty());
        },
        (Some(m1), Some(m2)) => {
            assert(candidate_set(s1).contains(m1));
            assert(candidate_set(s2).contains(m2));
            assert(m1 <= m2 && m2 <= m1);
        },
    }
}

} // verus!
