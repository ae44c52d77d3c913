//! Compaction as its contracts see it: how the slots before and after a `defrag` or a
//! `trim` and the returned remap belong together.

use vstd::prelude::*;
use crate::slots::{occupied, occupied_count, Slot};

verus! {

/// Where a value that sat at `index` before a compaction is found afterwards: at the
/// position that `remap` gives, or at `index` itself where `remap` has no entry.
pub open spec fn target(remap: Map<usize, usize>, index: usize) -> usize {
    if remap.contains_key(index) {
        remap[index]
    } else {
        index
    }
}

/// `after` holds the values of `before` packed at the front, and `remap` records every
/// value that moved, by old and new position.
///
/// With `kept` the number of values in `before`:
/// the values that moved are exactly those at position `kept` or higher;
/// each went to a position below `kept` that was free;
/// the higher a value sat, the lower it went;
/// every free position below `kept` received one;
/// each value of `before`, with its count, is in `after` at its target;
/// and `after` is free from position `kept` on.
pub open spec fn relocated<T>(
    before: Seq<Slot<T>>,
    after: Seq<Slot<T>>,
    remap: Map<usize, usize>,
) -> bool {
    let kept = occupied_count(before) as int;
    &&& kept <= after.len() <= before.len()
    &&& forall|k: usize| #[trigger]
        remap.contains_key(k) <==> kept <= k < before.len() && before[k as int] is Occupied
    &&& forall|k: usize| #[trigger]
        remap.contains_key(k) ==> remap[k] < kept && before[remap[k] as int] is Free
    &&& forall|j: usize, k: usize|
        #![trigger remap.contains_key(j), remap.contains_key(k)]
        remap.contains_key(j) && remap.contains_key(k) && j < k ==> remap[k] < remap[j]
    &&& forall|h: int|
        0 <= h < kept && #[trigger] before[h] is Free ==> exists|k: usize|
            #[trigger] remap.contains_key(k) && remap[k] == h
    &&& forall|i: usize|
        occupied(before, i as int) ==> after[#[trigger] target(remap, i) as int]
            == before[i as int]
    &&& forall|i: int| kept <= i < after.len() ==> #[trigger] after[i] is Free
}

/// What `defrag` makes of `before`: the values packed at the front as `remap` says,
/// in as many slots as before.
pub open spec fn defragmented<T>(
    before: Seq<Slot<T>>,
    after: Seq<Slot<T>>,
    remap: Map<usize, usize>,
) -> bool {
    &&& relocated(before, after, remap)
    &&& after.len() == before.len()
}

/// What `trim` makes of `before`: the values packed at the front as `remap` says, in
/// exactly as many slots as there are values.
pub open spec fn trimmed<T>(
    before: Seq<Slot<T>>,
    after: Seq<Slot<T>>,
    remap: Map<usize, usize>,
) -> bool {
    &&& relocated(before, after, remap)
    &&& after.len() == occupied_count(before)
}

/// After a compaction the first positions, as many as there are values, all hold one.
pub proof fn lemma_relocated_packed<T>(
    before: Seq<Slot<T>>,
    after: Seq<Slot<T>>,
    remap: Map<usize, usize>,
)
    requires
        relocated(before, after, remap),
        before.len() <= usize::MAX,
    ensures
        forall|i: int| 0 <= i < occupied_count(before) ==> #[trigger] after[i] is Occupied,
{
    let kept = occupied_count(before) as int;
    assert forall|i: int| 0 <= i < kept implies #[trigger] after[i] is Occupied by {
        if before[i] is Occupied {
            assert(target(remap, i as usize) == i);
        } else {
            let k = choose|k: usize| #[trigger] remap.contains_key(k) && remap[k] == i;
            assert(target(remap, k) == i);
        }
    }
}

} // verus!
