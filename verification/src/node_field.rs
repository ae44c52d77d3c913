//! The arena itself: storage, reference counting, allocation and compaction.

use std::collections::HashMap;
use vstd::prelude::*;
use crate::error::AccessError;
use crate::index::Indexable;
use crate::remap::{defragmented, lemma_relocated_packed, trimmed};
use crate::slots::{
    add_ref_result, after_add_ref, after_push, after_remove_ref, after_replace, count_at,
    counts_of, first_free, lemma_count_bound, lemma_count_packed, lemma_count_update,
    lemma_first_free, lemma_first_free_exists, occupied, occupied_count, parts_agree,
    remove_ref_result, slots_of, valid, value_at, values_of, Slot,
};

verus! {

/// Used to allocate space on the heap, read from that space, and write to it.
///
/// The arena's view is the sequence of its [`Slot`]s; a handle is a position in it.
#[derive(Debug)]
pub struct NodeField<T: Clone> {
    /// List of all data stored within this structure
    data: Vec<Option<T>>,
    /// A reference count for each data slot
    refs: Vec<Option<usize>>,
}

impl<T: Clone> View for NodeField<T> {
    type V = Seq<Slot<T>>;

    closed spec fn view(&self) -> Seq<Slot<T>> {
        slots_of(self.data@, self.refs@)
    }
}

// Private methods
impl<T: Clone> NodeField<T> {
    /// The lowest free position, if there is one.
    fn first_free(&self) -> (found: Option<usize>)
        requires
            self.well_formed(),
        ensures
            match found {
                Some(index) => index < self@.len() && first_free(self@) == index,
                None => first_free(self@) == self@.len(),
            },
    {
        let mut index: usize = 0;
        while index < self.refs.len()
            invariant
                self.well_formed(),
                index <= self@.len(),
                forall|i: int| 0 <= i < index ==> #[trigger] self@[i] is Occupied,
            decreases self.refs.len() - index,
        {
            if self.refs[index].is_none() {
                proof {
                    lemma_first_free(self@, index as int);
                }
                return Some(index);
            }
            index += 1;
        }
        proof {
            lemma_first_free(self@, index as int);
        }
        None
    }

    /// Takes the value out of an occupied slot and marks the slot free.
    fn release(&mut self, index: usize) -> (value: T)
        requires
            old(self).well_formed(),
            occupied(old(self)@, index as int),
        ensures
            final(self).well_formed(),
            value == old(self)@[index as int]->value,
            final(self)@ == old(self)@.update(index as int, Slot::Free),
    {
        let taken = self.data[index].take();
        self.refs[index] = None;
        assert(self@ =~= old(self)@.update(index as int, Slot::Free));
        taken.unwrap()
    }

    /// Finds room for one value: the lowest free slot, or a new free slot at the end
    /// where every slot is occupied.
    fn reserve(&mut self) -> (index: usize)
        requires
            old(self).well_formed(),
        ensures
            final(self).well_formed(),
            index == first_free(old(self)@),
            index < final(self)@.len(),
            final(self)@[index as int] is Free,
            final(self)@ == if index < old(self)@.len() {
                old(self)@
            } else {
                old(self)@.push(Slot::Free)
            },
    {
        proof {
            lemma_first_free_exists(self@);
        }
        match self.first_free() {
            Some(index) => index,
            None => {
                let index: usize = self.data.len();
                self.data.push(None);
                self.refs.push(None);
                assert(self@ =~= old(self)@.push(Slot::Free));
                index
            },
        }
    }

    /// Exchanges the slots at two positions, values and counts alike.
    fn swap(&mut self, a: usize, b: usize)
        requires
            old(self).well_formed(),
            a < old(self)@.len(),
            b < old(self)@.len(),
        ensures
            final(self).well_formed(),
            final(self)@ == old(self)@.update(a as int, old(self)@[b as int]).update(
                b as int,
                old(self)@[a as int],
            ),
    {
        let first = self.data[a].take();
        let second = self.data[b].take();
        self.data[a] = second;
        self.data[b] = first;
        let first_count = self.refs[a];
        let second_count = self.refs[b];
        self.refs[a] = second_count;
        self.refs[b] = first_count;
        assert(self@ =~= old(self)@.update(a as int, old(self)@[b as int]).update(
            b as int,
            old(self)@[a as int],
        ));
    }
}

/// `Vec::shrink_to_fit`: hands spare capacity back to the allocator. The contract
/// claims that the elements stay as they are, in number and in order.
#[verifier::external_body]
fn shrink_to_fit<V>(items: &mut Vec<V>)
    ensures
        final(items)@ == old(items)@,
{
    items.shrink_to_fit();
}

// Public functions
impl<T: Clone> NodeField<T> {
    /// The two lists agree: they are equally long, and a slot has a value exactly
    /// where it has a count.
    pub closed spec fn aligned(&self) -> bool {
        parts_agree(self.data@, self.refs@)
    }

    /// What every arena satisfies between calls: its lists agree, and every stored
    /// value has at least one holder.
    pub open spec fn well_formed(&self) -> bool {
        self.aligned() && valid(self@)
    }

    /// Constructs a new `NodeField` which can store data of type `T`.
    pub fn new() -> (field: Self)
        ensures
            field.well_formed(),
            field@ == Seq::<Slot<T>>::empty(),
    {
        let field = Self { data: Vec::new(), refs: Vec::new() };
        field
    }

    /// Builds an arena from a list of values and a list of reference counts, as
    /// [`NodeField::data`] and [`NodeField::refs`] give them.
    ///
    /// Returns `None` where the two lists do not describe an arena: where they differ
    /// in length, where a slot has a value without a count or a count without a value,
    /// or where a count is zero.
    pub fn from_parts(data: Vec<Option<T>>, refs: Vec<Option<usize>>) -> (field: Option<Self>)
        ensures
            field is Some <==> parts_agree(data@, refs@) && valid(slots_of(data@, refs@)),
            field matches Some(f) ==> f.well_formed() && f@ == slots_of(data@, refs@),
    {
        if data.len() != refs.len() {
            return None;
        }
        let mut index: usize = 0;
        while index < data.len()
            invariant
                data@.len() == refs@.len(),
                index <= data@.len(),
                forall|i: int|
                    0 <= i < index ==> (#[trigger] data@[i] is Some <==> refs@[i] is Some),
                forall|i: int| 0 <= i < index && refs@[i] is Some ==> (#[trigger] refs@[i])->0 >= 1,
            decreases data.len() - index,
        {
            let agrees = match refs[index] {
                Some(count) => count >= 1 && data[index].is_some(),
                None => data[index].is_none(),
            };
            if !agrees {
                proof {
                    let slots = slots_of(data@, refs@);
                    if parts_agree(data@, refs@) {
                        assert(slots[index as int] is Occupied);
                    }
                }
                return None;
            }
            index += 1;
        }
        Some(Self { data, refs })
    }

    /// Returns an immutable reference to the data stored at the requested index, or an
    /// [`AccessError`] if there is a problem.
    pub fn get<I: Indexable>(&self, index: I) -> (result: Result<&T, AccessError>)
        requires
            self.well_formed(),
        ensures
            match result {
                Ok(value) => value_at(self@, index.slot() as int) == Ok::<T, AccessError>(*value),
                Err(error) => value_at(self@, index.slot() as int) == Err::<T, AccessError>(error),
            },
    {
        let position = index.to_index();
        if position < self.data.len() {
            match &self.data[position] {
                Some(value) => Ok(value),
                None => Err(AccessError::FreeMemory(position)),
            }
        } else {
            Err(AccessError::FreeMemory(position))
        }
    }

    /// Returns a mutable reference to the data stored at the requested index, or an
    /// [`AccessError`] if there is a problem.
    ///
    /// What is written through the reference replaces the stored value; the reference
    /// count stays as it is.
    pub fn get_mut<I: Indexable>(&mut self, index: I) -> (result: Result<&mut T, AccessError>)
        requires
            old(self).well_formed(),
        ensures
            final(self).well_formed(),
            match result {
                Ok(value) => value_at(old(self)@, index.slot() as int) == Ok::<T, AccessError>(
                    *value,
                ) && final(self)@ == after_replace(
                    old(self)@,
                    index.slot() as int,
                    *final(value),
                ),
                Err(error) => value_at(old(self)@, index.slot() as int) == Err::<T, AccessError>(
                    error,
                ) && final(self)@ == old(self)@,
            },
    {
        let position = index.to_index();
        if position < self.data.len() {
            proof {
                assert forall|written: Option<T>| valid(
                    slots_of(#[trigger] self.data@.update(position as int, written), self.refs@),
                ) by {
                    let slots = slots_of(self.data@.update(position as int, written), self.refs@);
                    assert forall|i: int| 0 <= i < slots.len() && slots[i] is Occupied implies (
                    #[trigger] slots[i])->refs >= 1 by {
                        assert(self@[i] is Occupied);
                    }
                }
            }
            match &mut self.data[position] {
                Some(value) => Ok(value),
                None => Err(AccessError::FreeMemory(position)),
            }
        } else {
            Err(AccessError::FreeMemory(position))
        }
    }

    /// Tells the NodeField that something else references the data at `index`.
    /// So long as the NodeField thinks there is at least one reference, the data won't
    /// be freed.
    ///
    /// Failure to properly track references will lead to either freeing data you wanted
    /// or leaking data you didn't.
    pub fn add_ref<I: Indexable>(&mut self, index: I) -> (result: Result<(), AccessError>)
        requires
            old(self).well_formed(),
        ensures
            final(self).well_formed(),
            result == add_ref_result(old(self)@, index.slot() as int),
            final(self)@ == after_add_ref(old(self)@, index.slot() as int),
    {
        let position = index.to_index();
        if position < self.refs.len() {
            match self.refs[position] {
                Some(count) => match count.checked_add(1) {
                    Some(raised) => {
                        self.refs[position] = Some(raised);
                        assert(self@ =~= after_add_ref(old(self)@, position as int));
                        Ok(())
                    },
                    None => Err(AccessError::ReferenceOverflow),
                },
                None => Err(AccessError::FreeMemory(position)),
            }
        } else {
            Err(AccessError::FreeMemory(position))
        }
    }

    /// Tells the NodeField that something no longer references the data at `index`.
    /// If calling this function renders the refcount 0 the data will be freed and
    /// returned.
    ///
    /// Failure to properly track references will lead to either freeing data you wanted
    /// or leaking data you didn't.
    pub fn remove_ref<I: Indexable>(&mut self, index: I) -> (result: Result<
        Option<T>,
        AccessError,
    >)
        requires
            old(self).well_formed(),
        ensures
            final(self).well_formed(),
            result == remove_ref_result(old(self)@, index.slot() as int),
            final(self)@ == after_remove_ref(old(self)@, index.slot() as int),
    {
        let position = index.to_index();
        if position < self.refs.len() {
            match self.refs[position] {
                Some(count) => match count.checked_sub(1) {
                    Some(lowered) => {
                        if lowered == 0 {
                            Ok(Some(self.release(position)))
                        } else {
                            self.refs[position] = Some(lowered);
                            assert(self@ =~= after_remove_ref(old(self)@, position as int));
                            Ok(None)
                        }
                    },
                    None => Err(AccessError::ReferenceOverflow),
                },
                None => Err(AccessError::FreeMemory(position)),
            }
        } else {
            Err(AccessError::FreeMemory(position))
        }
    }

    /// Returns the number of references the data at `index` has or an [`AccessError`]
    /// if there is a problem.
    pub fn status<I: Indexable>(&self, index: I) -> (result: Result<usize, AccessError>)
        requires
            self.well_formed(),
        ensures
            result == count_at(self@, index.slot() as int),
    {
        let position = index.to_index();
        if position < self.refs.len() {
            match self.refs[position] {
                Some(count) => Ok(count),
                None => Err(AccessError::FreeMemory(position)),
            }
        } else {
            Err(AccessError::FreeMemory(position))
        }
    }

    /// Pushes `data` into the NodeField, returning the index it was stored at.
    ///
    /// Once you recieve the index the data was stored at, it is your responsibility to
    /// manage its references. The data will start with one reference.
    #[must_use]
    pub fn push(&mut self, data: T) -> (index: usize)
        requires
            old(self).well_formed(),
        ensures
            final(self).well_formed(),
            index == first_free(old(self)@),
            final(self)@ == after_push(old(self)@, data),
    {
        let index = self.reserve();
        self.data[index] = Some(data);
        self.refs[index] = Some(1);
        index
    }

    /// Replaces the data at `index` with `new_data`, returning the previous data on
    /// success and an [`AccessError`] on failure.
    /// You may not replace an index which is currently free.
    pub fn replace<I: Indexable>(&mut self, index: I, new_data: T) -> (result: Result<
        T,
        AccessError,
    >)
        requires
            old(self).well_formed(),
        ensures
            final(self).well_formed(),
            result == value_at(old(self)@, index.slot() as int),
            final(self)@ == after_replace(old(self)@, index.slot() as int, new_data),
    {
        let position = index.to_index();
        if position < self.data.len() {
            match self.data[position].take() {
                Some(value) => {
                    self.data[position] = Some(new_data);
                    assert(self@ =~= after_replace(old(self)@, position as int, new_data));
                    Ok(value)
                },
                None => Err(AccessError::FreeMemory(position)),
            }
        } else {
            Err(AccessError::FreeMemory(position))
        }
    }

    /// Returns the next index which will be allocated on a [`NodeField::push`] call.
    pub fn next_allocated(&self) -> (index: usize)
        requires
            self.well_formed(),
        ensures
            index == first_free(self@),
    {
        match self.first_free() {
            Some(index) => index,
            None => self.data.len(),
        }
    }

    /// Travels through memory and re-arranges slots so that they are contiguous in
    /// memory, with no free slots in between occupied ones.
    /// The hashmap returned can be used to remap your references to their new
    /// locations. (Key:Old, Value:New)
    ///
    /// Slots at the back of memory will be placed in the first free slot, until the
    /// above condition is met. Handles held outside the arena are not touched: applying
    /// the remap to them is the caller's part.
    ///
    /// This operation is O(n) to the number of slots in memory.
    #[must_use]
    pub fn defrag(&mut self) -> (remap: HashMap<usize, usize>)
        requires
            old(self).well_formed(),
        ensures
            final(self).well_formed(),
            defragmented(old(self)@, final(self)@, remap@),
    {
        broadcast use vstd::std_specs::hash::group_hash_axioms;

        let mut remapped: HashMap<usize, usize> = HashMap::new();
        let mut solid_until: usize = 0;
        let mut free_from: usize = self.data.len();
        let ghost before = self@;
        while solid_until < free_from
            invariant
                self.well_formed(),
                self@.len() == before.len(),
                solid_until <= free_from <= before.len(),
                occupied_count(self@) == occupied_count(before),
                forall|i: int| 0 <= i < solid_until ==> #[trigger] self@[i] is Occupied,
                forall|i: int| free_from <= i < before.len() ==> #[trigger] self@[i] is Free,
                forall|i: int| solid_until <= i < free_from ==> #[trigger] self@[i] == before[i],
                forall|i: int|
                    0 <= i < solid_until && #[trigger] before[i] is Occupied ==> self@[i]
                        == before[i],
                forall|k: usize| #[trigger]
                    remapped@.contains_key(k) <==> free_from <= k < before.len()
                        && before[k as int] is Occupied,
                forall|k: usize| #[trigger]
                    remapped@.contains_key(k) ==> remapped@[k] < solid_until
                        && before[remapped@[k] as int] is Free && self@[remapped@[k] as int]
                        == before[k as int],
                forall|j: usize, k: usize|
                    #![trigger remapped@.contains_key(j), remapped@.contains_key(k)]
                    remapped@.contains_key(j) && remapped@.contains_key(k) && j < k
                        ==> remapped@[k] < remapped@[j],
                forall|h: int|
                    0 <= h < solid_until && #[trigger] before[h] is Free ==> exists|k: usize|
                        #[trigger] remapped@.contains_key(k) && remapped@[k] == h,
            decreases free_from - solid_until,
        {
            let last: usize = free_from - 1;
            if self.data[solid_until].is_some() {
                solid_until += 1;
            } else if self.data[last].is_none() {
                free_from = last;
            } else {
                let ghost moved = remapped@;
                let ghost slots = self@;
                proof {
                    lemma_count_update(slots, solid_until as int, slots[last as int]);
                    lemma_count_update(
                        slots.update(solid_until as int, slots[last as int]),
                        last as int,
                        slots[solid_until as int],
                    );
                }
                remapped.insert(last, solid_until);
                self.swap(solid_until, last);
                proof {
                    assert(remapped@.contains_key(last) && remapped@[last] == solid_until);
                    assert forall|h: int|
                        0 <= h <= solid_until && #[trigger] before[h] is Free implies exists|
                        k: usize,
                    | #[trigger] remapped@.contains_key(k) && remapped@[k] == h by {
                        if h < solid_until {
                            let k = choose|k: usize| #[trigger]
                                moved.contains_key(k) && moved[k] == h;
                            assert(remapped@.contains_key(k) && remapped@[k] == h);
                        }
                    }
                }
                solid_until += 1;
                free_from = last;
            }
        }
        proof {
            lemma_count_packed(self@, solid_until as int);
        }
        remapped
    }

    /// [`NodeField::defrag`]s the memory, then shrinks the internal memory Vec to the
    /// size of the block of occupied memory.
    #[must_use]
    pub fn trim(&mut self) -> (remap: HashMap<usize, usize>)
        requires
            old(self).well_formed(),
        ensures
            final(self).well_formed(),
            trimmed(old(self)@, final(self)@, remap@),
    {
        let remap = self.defrag();
        let ghost packed = self@;
        proof {
            lemma_count_bound(old(self)@);
            assert(packed.len() == self.data.len());
            lemma_relocated_packed(old(self)@, packed, remap@);
            lemma_first_free(packed, occupied_count(old(self)@) as int);
        }
        if let Some(first_free) = self.first_free() {
            self.data.truncate(first_free);
            shrink_to_fit(&mut self.data);
            self.refs.truncate(first_free);
            shrink_to_fit(&mut self.refs);
            assert(self@ =~= packed.subrange(0, first_free as int));
        }
        remap
    }

    /// Returns a reference to the internal data Vec
    pub fn data(&self) -> (data: &Vec<Option<T>>)
        requires
            self.well_formed(),
        ensures
            data@ == values_of(self@),
    {
        &self.data
    }

    /// Returns a reference to the internal reference Vec
    pub fn refs(&self) -> (refs: &Vec<Option<usize>>)
        requires
            self.well_formed(),
        ensures
            refs@ == counts_of(self@),
    {
        &self.refs
    }
}

} // verus!
