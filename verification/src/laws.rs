//! What follows when operations are combined.
//!
//! Each law is stated over the same spec functions that the contracts of
//! [`crate::NodeField`] use, so it holds of every arena: put the arena's view in place
//! of `slots`.

use vstd::prelude::*;
use crate::error::AccessError;
use crate::remap::{lemma_relocated_packed, relocated, target, trimmed};
use crate::slots::{
    add_ref_result, after_add_ref, after_push, after_remove_ref, count_at, counts_of,
    first_free, lemma_count_packed, lemma_first_free, lemma_first_free_exists, occupied,
    occupied_count, parts_agree, remove_ref_result, slots_of, value_at, values_of, Slot,
};

verus! {

/// The slots after `times` more holders of the value at `index` were registered, one
/// after the other.
pub open spec fn after_add_refs<T>(slots: Seq<Slot<T>>, index: int, times: nat) -> Seq<Slot<T>>
    decreases times,
{
    if times == 0 {
        slots
    } else {
        after_add_ref(after_add_refs(slots, index, (times - 1) as nat), index)
    }
}

/// The slots after `times` holders of the value at `index` were released, one after
/// the other.
pub open spec fn after_remove_refs<T>(slots: Seq<Slot<T>>, index: int, times: nat) -> Seq<
    Slot<T>,
>
    decreases times,
{
    if times == 0 {
        slots
    } else {
        after_remove_ref(after_remove_refs(slots, index, (times - 1) as nat), index)
    }
}

/// Round trip: a value that was just pushed is read back under the handle that the
/// push returned, and it has one reference. The push touches no other slot, and the
/// arena grows, by one slot, only where none was free.
pub proof fn lemma_push_round_trip<T>(slots: Seq<Slot<T>>, value: T)
    ensures
        value_at(after_push(slots, value), first_free(slots)) == Ok::<T, AccessError>(value),
        count_at(after_push(slots, value), first_free(slots)) == Ok::<usize, AccessError>(1),
        forall|i: int|
            0 <= i < slots.len() && i != first_free(slots) ==> #[trigger] after_push(
                slots,
                value,
            )[i] == slots[i],
        after_push(slots, value).len() == if first_free(slots) < slots.len() {
            slots.len()
        } else {
            slots.len() + 1
        },
{
    lemma_first_free_exists(slots);
}

/// Registering holders one after the other raises the count by their number and
/// changes nothing else.
proof fn lemma_after_add_refs<T>(slots: Seq<Slot<T>>, index: int, times: nat)
    requires
        occupied(slots, index),
        slots[index]->refs + times <= usize::MAX,
    ensures
        after_add_refs(slots, index, times) == slots.update(
            index,
            Slot::Occupied {
                value: slots[index]->value,
                refs: (slots[index]->refs + times) as usize,
            },
        ),
    decreases times,
{
    if times > 0 {
        lemma_after_add_refs(slots, index, (times - 1) as nat);
        assert(after_add_refs(slots, index, times) =~= slots.update(
            index,
            Slot::Occupied {
                value: slots[index]->value,
                refs: (slots[index]->refs + times) as usize,
            },
        ));
    }
}

/// Releasing fewer holders than there are lowers the count by their number and
/// changes nothing else.
proof fn lemma_after_remove_refs<T>(slots: Seq<Slot<T>>, index: int, times: nat)
    requires
        occupied(slots, index),
        times < slots[index]->refs,
    ensures
        after_remove_refs(slots, index, times) == slots.update(
            index,
            Slot::Occupied {
                value: slots[index]->value,
                refs: (slots[index]->refs - times) as usize,
            },
        ),
    decreases times,
{
    if times > 0 {
        lemma_after_remove_refs(slots, index, (times - 1) as nat);
        assert(after_remove_refs(slots, index, times) =~= slots.update(
            index,
            Slot::Occupied {
                value: slots[index]->value,
                refs: (slots[index]->refs - times) as usize,
            },
        ));
    }
}

/// Reference symmetry: a value with `held` holders that gets `added` more, as far as
/// the count can go, is collected by exactly the last of `held + added` releases. Every
/// release before it answers that the value is still referenced, the last one hands the
/// value out and leaves the slot free, and one release more fails because the slot is
/// free.
///
/// For a handle fresh from a push `held` is one: `added` registrations followed by
/// `added + 1` releases collect the value on the last of them.
pub proof fn lemma_reference_symmetry<T>(slots: Seq<Slot<T>>, index: int, added: nat)
    requires
        occupied(slots, index),
        1 <= slots[index]->refs,
        slots[index]->refs + added <= usize::MAX,
    ensures
        ({
            let held = slots[index]->refs as nat;
            let raised = after_add_refs(slots, index, added);
            &&& forall|k: nat|
                k < added ==> add_ref_result(#[trigger] after_add_refs(slots, index, k), index)
                    == Ok::<(), AccessError>(())
            &&& forall|k: nat|
                k + 1 < held + added ==> remove_ref_result(
                    #[trigger] after_remove_refs(raised, index, k),
                    index,
                ) == Ok::<Option<T>, AccessError>(None)
            &&& remove_ref_result(
                after_remove_refs(raised, index, (held + added - 1) as nat),
                index,
            ) == Ok::<Option<T>, AccessError>(Some(slots[index]->value))
            &&& after_remove_refs(raised, index, held + added) == slots.update(index, Slot::Free)
            &&& remove_ref_result(after_remove_refs(raised, index, held + added), index) == Err::<
                Option<T>,
                AccessError,
            >(AccessError::FreeMemory(index as usize))
        }),
{
    let held = slots[index]->refs as nat;
    let raised = after_add_refs(slots, index, added);
    assert forall|k: nat| k < added implies add_ref_result(
        #[trigger] after_add_refs(slots, index, k),
        index,
    ) == Ok::<(), AccessError>(()) by {
        lemma_after_add_refs(slots, index, k);
    }
    lemma_after_add_refs(slots, index, added);
    assert forall|k: nat| k + 1 < held + added implies remove_ref_result(
        #[trigger] after_remove_refs(raised, index, k),
        index,
    ) == Ok::<Option<T>, AccessError>(None) by {
        lemma_after_remove_refs(raised, index, k);
    }
    let last = (held + added - 1) as nat;
    lemma_after_remove_refs(raised, index, last);
    assert(after_remove_refs(raised, index, held + added) == after_remove_ref(
        after_remove_refs(raised, index, last),
        index,
    ));
}

/// Reuse: once a value was collected, the next push fills the lowest free slot, which
/// is the slot of that value or a free one below it, so the handle it returns is no
/// higher than the one just released.
pub proof fn lemma_released_slot_is_reused<T>(slots: Seq<Slot<T>>, index: int)
    requires
        remove_ref_result(slots, index) is Ok,
        remove_ref_result(slots, index)->Ok_0 is Some,
    ensures
        first_free(after_remove_ref(slots, index)) <= index,
        first_free(after_remove_ref(slots, index)) == if first_free(slots) < index {
            first_free(slots)
        } else {
            index
        },
{
    lemma_first_free_exists(slots);
    let released = after_remove_ref(slots, index);
    let lowest = if first_free(slots) < index {
        first_free(slots)
    } else {
        index
    };
    lemma_first_free(released, lowest);
}

/// Compaction preserves values: after a `defrag` or a `trim`, every value is read, with
/// its count, under the handle that the remap gives for its old one, or under the old
/// handle where the remap has no entry for it. No value is lost, since two values
/// never go to one position, and none is duplicated, since every value found afterwards
/// is one of those and their number is the same.
pub proof fn lemma_compaction_keeps_values<T>(
    before: Seq<Slot<T>>,
    after: Seq<Slot<T>>,
    remap: Map<usize, usize>,
)
    requires
        relocated(before, after, remap),
        before.len() <= usize::MAX,
    ensures
        forall|i: usize|
            occupied(before, i as int) ==> {
                &&& value_at(after, #[trigger] target(remap, i) as int) == value_at(
                    before,
                    i as int,
                )
                &&& count_at(after, target(remap, i) as int) == count_at(before, i as int)
            },
        forall|i: usize, j: usize|
            #![trigger target(remap, i), target(remap, j)]
            occupied(before, i as int) && occupied(before, j as int) && i != j ==> target(remap, i)
                != target(remap, j),
        forall|p: int|
            occupied(after, p) ==> exists|i: usize|
                occupied(before, i as int) && #[trigger] target(remap, i) == p,
        occupied_count(after) == occupied_count(before),
{
    let kept = occupied_count(before) as int;
    lemma_relocated_packed(before, after, remap);
    assert forall|p: int| occupied(after, p) implies exists|i: usize|
        occupied(before, i as int) && #[trigger] target(remap, i) == p by {
        // A value below `kept` either stayed where it was or filled a free position.
        if before[p] is Occupied {
            assert(occupied(before, p as usize as int) && target(remap, p as usize) == p);
        } else {
            let k = choose|k: usize| #[trigger] remap.contains_key(k) && remap[k] == p;
            assert(occupied(before, k as int) && target(remap, k) == p);
        }
    }
    lemma_count_packed(after, kept);
}

/// Two remaps of one compaction give the same target for every handle from `from` on.
proof fn lemma_remaps_agree_from<T>(
    before: Seq<Slot<T>>,
    first: Seq<Slot<T>>,
    first_remap: Map<usize, usize>,
    second: Seq<Slot<T>>,
    second_remap: Map<usize, usize>,
    from: int,
)
    requires
        relocated(before, first, first_remap),
        relocated(before, second, second_remap),
        0 <= from,
    ensures
        forall|k: usize|
            from <= k && #[trigger] first_remap.contains_key(k) ==> first_remap[k]
                == second_remap[k],
    decreases before.len() - from,
{
    if from < before.len() {
        lemma_remaps_agree_from(before, first, first_remap, second, second_remap, from + 1);
        if from <= usize::MAX && first_remap.contains_key(from as usize) {
            let k = from as usize;
            assert(second_remap.contains_key(k));
            let a = first_remap[k];
            let b = second_remap[k];
            // Were the two targets different, the lower of them would be a free
            // position that the other remap fills from a handle `j`. A higher `j` has
            // the same target in both, and a lower one goes above `k`'s target.
            if a < b {
                let j = choose|j: usize| #[trigger]
                    second_remap.contains_key(j) && second_remap[j] == a;
                assert(first_remap.contains_key(j));
            } else if b < a {
                let j = choose|j: usize| #[trigger]
                    first_remap.contains_key(j) && first_remap[j] == b;
                assert(second_remap.contains_key(j));
            }
        }
    }
}

/// Compaction is determined: the slots before a `defrag` or a `trim` leave one remap
/// and, for a given length, one arrangement that its contract accepts.
pub proof fn lemma_compaction_unique<T>(
    before: Seq<Slot<T>>,
    first: Seq<Slot<T>>,
    first_remap: Map<usize, usize>,
    second: Seq<Slot<T>>,
    second_remap: Map<usize, usize>,
)
    requires
        relocated(before, first, first_remap),
        relocated(before, second, second_remap),
        first.len() == second.len(),
        before.len() <= usize::MAX,
    ensures
        first_remap == second_remap,
        first == second,
{
    lemma_remaps_agree_from(before, first, first_remap, second, second_remap, 0);
    assert forall|k: usize| first_remap.contains_key(k) <==> second_remap.contains_key(k) by {}
    assert(first_remap =~= second_remap);
    let kept = occupied_count(before) as int;
    assert forall|p: int| 0 <= p < first.len() implies first[p] == second[p] by {
        if p < kept && before[p] is Occupied {
            assert(target(first_remap, p as usize) == p);
        } else if p < kept {
            let k = choose|k: usize| #[trigger]
                first_remap.contains_key(k) && first_remap[k] == p;
            assert(target(first_remap, k) == p);
        }
    }
}

/// A snapshot loses nothing: the values and the counts of an arena, taken apart, agree
/// with each other and stand for the same slots again.
pub proof fn lemma_parts_round_trip<T>(slots: Seq<Slot<T>>)
    ensures
        parts_agree(values_of(slots), counts_of(slots)),
        slots_of(values_of(slots), counts_of(slots)) == slots,
{
}

/// Trim shrinks: after a `trim` the arena is exactly as long as the number of values
/// it held, every slot of it holds one, and the next push appends. An arena whose
/// slots were all free is empty afterwards, nothing was remapped, and the next push
/// returns handle 0.
pub proof fn lemma_trim_shrinks<T>(
    before: Seq<Slot<T>>,
    after: Seq<Slot<T>>,
    remap: Map<usize, usize>,
)
    requires
        trimmed(before, after, remap),
        before.len() <= usize::MAX,
    ensures
        after.len() == occupied_count(before),
        forall|i: int| 0 <= i < after.len() ==> #[trigger] after[i] is Occupied,
        first_free(after) == after.len(),
        (forall|i: int| 0 <= i < before.len() ==> #[trigger] before[i] is Free) ==> {
            &&& after.len() == 0
            &&& first_free(after) == 0
            &&& remap == Map::<usize, usize>::empty()
        },
{
    lemma_relocated_packed(before, after, remap);
    lemma_first_free(after, after.len() as int);
    if forall|i: int| 0 <= i < before.len() ==> #[trigger] before[i] is Free {
        lemma_count_packed(before, 0);
    }
}

} // verus!
