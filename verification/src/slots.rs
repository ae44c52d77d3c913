//! The arena as its contracts see it: a sequence of slots, and what each operation
//! makes of such a sequence.

use vstd::prelude::*;
use crate::error::AccessError;

verus! {

/// What one position of the arena holds.
pub enum Slot<T> {
    /// Nothing: the position can be filled by a later `push`.
    Free,
    /// A value, and the number of holders that have registered interest in it.
    Occupied { value: T, refs: usize },
}

/// `index` is a position of `slots` that holds a value.
pub open spec fn occupied<T>(slots: Seq<Slot<T>>, index: int) -> bool {
    0 <= index < slots.len() && slots[index] is Occupied
}

/// Every value in `slots` has at least one holder.
pub open spec fn valid<T>(slots: Seq<Slot<T>>) -> bool {
    forall|i: int| 0 <= i < slots.len() && slots[i] is Occupied ==> (#[trigger] slots[i])->refs >= 1
}

/// `index` is the lowest free position of `slots`, or their number where none is free.
pub open spec fn is_first_free<T>(slots: Seq<Slot<T>>, index: int) -> bool {
    &&& 0 <= index <= slots.len()
    &&& forall|i: int| 0 <= i < index ==> #[trigger] slots[i] is Occupied
    &&& index < slots.len() ==> slots[index] is Free
}

/// The position that the next `push` fills: the lowest free one, or the number of
/// slots where none is free.
pub open spec fn first_free<T>(slots: Seq<Slot<T>>) -> int {
    choose|index: int| is_first_free(slots, index)
}

/// The number of positions of `slots` that hold a value.
pub open spec fn occupied_count<T>(slots: Seq<Slot<T>>) -> nat
    decreases slots.len(),
{
    if slots.len() == 0 {
        0
    } else {
        occupied_count(slots.drop_last()) + if slots.last() is Occupied { 1nat } else { 0nat }
    }
}

/// The values of `slots`, position by position.
pub open spec fn values_of<T>(slots: Seq<Slot<T>>) -> Seq<Option<T>> {
    Seq::new(slots.len(), |i: int| match slots[i] {
        Slot::Occupied { value, .. } => Some(value),
        Slot::Free => None,
    })
}

/// The reference counts of `slots`, position by position.
pub open spec fn counts_of<T>(slots: Seq<Slot<T>>) -> Seq<Option<usize>> {
    Seq::new(slots.len(), |i: int| match slots[i] {
        Slot::Occupied { refs, .. } => Some(refs),
        Slot::Free => None,
    })
}

/// The slot made of a stored value and a stored count: occupied where both are there.
pub open spec fn slot_of<T>(value: Option<T>, count: Option<usize>) -> Slot<T> {
    match (value, count) {
        (Some(value), Some(refs)) => Slot::Occupied { value, refs },
        _ => Slot::Free,
    }
}

/// The slots that a list of values and a list of counts stand for.
pub open spec fn slots_of<T>(values: Seq<Option<T>>, counts: Seq<Option<usize>>) -> Seq<Slot<T>> {
    Seq::new(values.len(), |i: int| slot_of(values[i], counts[i]))
}

/// `values` and `counts` describe the same slots: they are equally long and a position
/// has a value exactly where it has a count.
pub open spec fn parts_agree<T>(values: Seq<Option<T>>, counts: Seq<Option<usize>>) -> bool {
    &&& values.len() == counts.len()
    &&& forall|i: int|
        0 <= i < values.len() ==> (#[trigger] values[i] is Some <==> counts[i] is Some)
}

/// What reading the value at `index` gives.
pub open spec fn value_at<T>(slots: Seq<Slot<T>>, index: int) -> Result<T, AccessError> {
    if occupied(slots, index) {
        Ok(slots[index]->value)
    } else {
        Err(AccessError::FreeMemory(index as usize))
    }
}

/// What reading the reference count at `index` gives.
pub open spec fn count_at<T>(slots: Seq<Slot<T>>, index: int) -> Result<usize, AccessError> {
    if occupied(slots, index) {
        Ok(slots[index]->refs)
    } else {
        Err(AccessError::FreeMemory(index as usize))
    }
}

/// The slots after `value` was pushed: it sits in the lowest free position with one
/// reference, and the sequence has grown by one only where no position was free.
pub open spec fn after_push<T>(slots: Seq<Slot<T>>, value: T) -> Seq<Slot<T>> {
    let index = first_free(slots);
    let filled = Slot::Occupied { value, refs: 1 };
    if index < slots.len() {
        slots.update(index, filled)
    } else {
        slots.push(filled)
    }
}

/// The slots after the value at `index` was replaced by `value`: the count stays, and
/// nothing changes where `index` holds no value.
pub open spec fn after_replace<T>(slots: Seq<Slot<T>>, index: int, value: T) -> Seq<Slot<T>> {
    if occupied(slots, index) {
        slots.update(index, Slot::Occupied { value, refs: slots[index]->refs })
    } else {
        slots
    }
}

/// What registering one more holder of the value at `index` answers.
pub open spec fn add_ref_result<T>(slots: Seq<Slot<T>>, index: int) -> Result<(), AccessError> {
    if !occupied(slots, index) {
        Err(AccessError::FreeMemory(index as usize))
    } else if slots[index]->refs == usize::MAX {
        Err(AccessError::ReferenceOverflow)
    } else {
        Ok(())
    }
}

/// The slots after one more holder of the value at `index` was registered: the count
/// is one higher where that succeeded, and nothing changes where it failed.
pub open spec fn after_add_ref<T>(slots: Seq<Slot<T>>, index: int) -> Seq<Slot<T>> {
    if add_ref_result(slots, index) is Ok {
        slots.update(
            index,
            Slot::Occupied { value: slots[index]->value, refs: (slots[index]->refs + 1) as usize },
        )
    } else {
        slots
    }
}

/// What releasing one holder of the value at `index` answers: the value itself when
/// that was the last holder, `None` while others remain. A count of zero, which no
/// valid sequence holds, cannot go down and is reported as an overflow.
pub open spec fn remove_ref_result<T>(slots: Seq<Slot<T>>, index: int) -> Result<
    Option<T>,
    AccessError,
> {
    if !occupied(slots, index) {
        Err(AccessError::FreeMemory(index as usize))
    } else if slots[index]->refs == 0 {
        Err(AccessError::ReferenceOverflow)
    } else if slots[index]->refs == 1 {
        Ok(Some(slots[index]->value))
    } else {
        Ok(None)
    }
}

/// The slots after one holder of the value at `index` was released: the position is
/// free when that was the last holder, the count is one lower while others remain, and
/// nothing changes where the release failed.
pub open spec fn after_remove_ref<T>(slots: Seq<Slot<T>>, index: int) -> Seq<Slot<T>> {
    match remove_ref_result(slots, index) {
        Ok(Some(_)) => slots.update(index, Slot::Free),
        Ok(None) => slots.update(
            index,
            Slot::Occupied { value: slots[index]->value, refs: (slots[index]->refs - 1) as usize },
        ),
        Err(_) => slots,
    }
}

/// A sequence has exactly one first free position.
pub proof fn lemma_first_free<T>(slots: Seq<Slot<T>>, index: int)
    requires
        is_first_free(slots, index),
    ensures
        first_free(slots) == index,
{
    // Of two such positions the lower would be free and, lying below the other,
    // occupied.
    assert(is_first_free(slots, first_free(slots)));
}

/// Every sequence has a first free position, and it is no higher than any free one.
pub proof fn lemma_first_free_exists<T>(slots: Seq<Slot<T>>)
    ensures
        is_first_free(slots, first_free(slots)),
        forall|i: int| 0 <= i < slots.len() && slots[i] is Free ==> first_free(slots) <= i,
{
    lemma_first_free_from(slots, 0);
}

proof fn lemma_first_free_from<T>(slots: Seq<Slot<T>>, from: int)
    requires
        0 <= from <= slots.len(),
        forall|i: int| 0 <= i < from ==> #[trigger] slots[i] is Occupied,
    ensures
        exists|index: int| is_first_free(slots, index),
    decreases slots.len() - from,
{
    if from == slots.len() || slots[from] is Free {
        assert(is_first_free(slots, from));
    } else {
        lemma_first_free_from(slots, from + 1);
    }
}

/// No more positions hold a value than there are positions.
pub proof fn lemma_count_bound<T>(slots: Seq<Slot<T>>)
    ensures
        occupied_count(slots) <= slots.len(),
    decreases slots.len(),
{
    if slots.len() > 0 {
        lemma_count_bound(slots.drop_last());
    }
}

/// Writing a slot changes the count by what the written slot holds more than the
/// one it replaces.
pub proof fn lemma_count_update<T>(slots: Seq<Slot<T>>, index: int, slot: Slot<T>)
    requires
        0 <= index < slots.len(),
    ensures
        occupied_count(slots.update(index, slot)) + (if slots[index] is Occupied {
            1nat
        } else {
            0nat
        }) == occupied_count(slots) + (if slot is Occupied {
            1nat
        } else {
            0nat
        }),
    decreases slots.len(),
{
    let written = slots.update(index, slot);
    if index == slots.len() - 1 {
        assert(written.drop_last() =~= slots.drop_last());
    } else {
        lemma_count_update(slots.drop_last(), index, slot);
        assert(written.drop_last() =~= slots.drop_last().update(index, slot));
    }
}

/// Where the first `filled` positions hold a value and no other does, the count is
/// `filled`.
pub proof fn lemma_count_packed<T>(slots: Seq<Slot<T>>, filled: int)
    requires
        0 <= filled <= slots.len(),
        forall|i: int| 0 <= i < filled ==> #[trigger] slots[i] is Occupied,
        forall|i: int| filled <= i < slots.len() ==> #[trigger] slots[i] is Free,
    ensures
        occupied_count(slots) == filled,
    decreases slots.len(),
{
    if slots.len() > 0 {
        let rest = slots.drop_last();
        if filled == slots.len() {
            lemma_count_packed(rest, filled - 1);
        } else {
            lemma_count_packed(rest, filled);
        }
    }
}

} // verus!
