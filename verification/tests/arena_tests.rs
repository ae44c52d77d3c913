use std::collections::HashMap;

use vec_mem_heap::{AccessError, Indexable, NodeField};

/// A handle type of the caller's own.
#[derive(Clone, Copy, Debug, PartialEq)]
struct NodeId(u32);

impl Indexable for NodeId {
    fn slot(&self) -> usize {
        self.0 as usize
    }

    fn to_index(&self) -> usize {
        self.0 as usize
    }
}

fn filled(values: &[i32]) -> NodeField<i32> {
    let mut storage = NodeField::new();
    for (position, value) in values.iter().enumerate() {
        assert_eq!(storage.push(*value), position);
    }
    storage
}

fn remapped(remap: &HashMap<usize, usize>, handle: usize) -> usize {
    *remap.get(&handle).unwrap_or(&handle)
}

#[test]
fn new_arena_is_empty() {
    let storage = NodeField::<i32>::new();
    assert!(storage.data().is_empty());
    assert!(storage.refs().is_empty());
    assert_eq!(storage.next_allocated(), 0);
    assert!(matches!(storage.get(0usize), Err(AccessError::FreeMemory(0))));
    assert!(matches!(storage.status(0usize), Err(AccessError::FreeMemory(0))));
}

#[test]
fn push_round_trip() {
    let mut storage = NodeField::new();
    for value in [7, -3, 0, i32::MAX] {
        let handle = storage.push(value);
        assert_eq!(*storage.get(handle).unwrap(), value);
        assert_eq!(storage.status(handle).unwrap(), 1);
    }
    assert_eq!(storage.data(), &vec![Some(7), Some(-3), Some(0), Some(i32::MAX)]);
    assert_eq!(storage.refs(), &vec![Some(1usize); 4]);
}

#[test]
fn push_leaves_other_slots_alone() {
    let mut storage = filled(&[10, 20, 30]);
    storage.add_ref(2usize).unwrap();
    storage.remove_ref(1usize).unwrap();
    let handle = storage.push(99);
    assert_eq!(handle, 1);
    assert_eq!(storage.data(), &vec![Some(10), Some(99), Some(30)]);
    assert_eq!(storage.refs(), &vec![Some(1usize), Some(1), Some(2)]);
}

#[test]
fn push_grows_only_when_full() {
    let mut storage = filled(&[1, 2, 3]);
    assert_eq!(storage.next_allocated(), 3);
    assert_eq!(storage.push(4), 3);
    assert_eq!(storage.data().len(), 4);
    storage.remove_ref(0usize).unwrap();
    storage.remove_ref(2usize).unwrap();
    assert_eq!(storage.next_allocated(), 0);
    assert_eq!(storage.push(5), 0);
    assert_eq!(storage.next_allocated(), 2);
    assert_eq!(storage.push(6), 2);
    assert_eq!(storage.data().len(), 4);
    assert_eq!(storage.next_allocated(), 4);
}

#[test]
fn reference_symmetry() {
    for added in [0usize, 1, 2, 5] {
        let mut storage = filled(&[11, 22]);
        for _ in 0..added {
            storage.add_ref(1usize).unwrap();
        }
        assert_eq!(storage.status(1usize).unwrap(), added + 1);
        for _ in 0..added {
            assert!(matches!(storage.remove_ref(1usize), Ok(None)));
        }
        assert!(matches!(storage.remove_ref(1usize), Ok(Some(22))));
        assert!(matches!(storage.remove_ref(1usize), Err(AccessError::FreeMemory(1))));
        assert!(matches!(storage.status(1usize), Err(AccessError::FreeMemory(1))));
        assert_eq!(storage.status(0usize).unwrap(), 1);
    }
}

#[test]
fn released_slot_is_reused() {
    let mut storage = filled(&[1, 2, 3, 4]);
    assert!(matches!(storage.remove_ref(2usize), Ok(Some(3))));
    assert_eq!(storage.next_allocated(), 2);
    assert_eq!(storage.push(30), 2);

    // With a free slot below the released one the lower slot is taken first.
    storage.remove_ref(1usize).unwrap();
    storage.remove_ref(3usize).unwrap();
    let handle = storage.push(40);
    assert!(handle <= 3);
    assert_eq!(handle, 1);
    assert_eq!(storage.push(50), 3);
}

#[test]
fn freed_slot_is_reported_not_read() {
    let mut storage = filled(&[5, 6]);
    storage.remove_ref(0usize).unwrap();
    assert!(matches!(storage.get(0usize), Err(AccessError::FreeMemory(0))));
    assert!(matches!(storage.get_mut(0usize), Err(AccessError::FreeMemory(0))));
    assert!(matches!(storage.replace(0usize, 9), Err(AccessError::FreeMemory(0))));
    assert!(matches!(storage.add_ref(0usize), Err(AccessError::FreeMemory(0))));
    assert!(matches!(storage.status(0usize), Err(AccessError::FreeMemory(0))));
    assert_eq!(storage.data(), &vec![None, Some(6)]);
    assert_eq!(storage.refs(), &vec![None, Some(1usize)]);
}

#[test]
fn out_of_range_is_reported_with_its_index() {
    let mut storage = filled(&[5]);
    assert!(matches!(storage.get(1usize), Err(AccessError::FreeMemory(1))));
    assert!(matches!(storage.get_mut(17usize), Err(AccessError::FreeMemory(17))));
    assert!(matches!(storage.replace(usize::MAX, 1), Err(AccessError::FreeMemory(usize::MAX))));
    assert!(matches!(storage.add_ref(2usize), Err(AccessError::FreeMemory(2))));
    assert!(matches!(storage.remove_ref(3usize), Err(AccessError::FreeMemory(3))));
    assert!(matches!(storage.status(4usize), Err(AccessError::FreeMemory(4))));
    assert_eq!(storage.data(), &vec![Some(5)]);
}

#[test]
fn get_mut_writes_through() {
    let mut storage = filled(&[1, 2]);
    storage.add_ref(1usize).unwrap();
    *storage.get_mut(1usize).unwrap() += 40;
    assert_eq!(*storage.get(1usize).unwrap(), 42);
    assert_eq!(storage.status(1usize).unwrap(), 2);
    assert_eq!(*storage.get(0usize).unwrap(), 1);
}

#[test]
fn replace_keeps_the_count() {
    let mut storage = filled(&[1, 2]);
    storage.add_ref(0usize).unwrap();
    assert!(matches!(storage.replace(0usize, 8), Ok(1)));
    assert_eq!(storage.status(0usize).unwrap(), 2);
    assert_eq!(storage.data(), &vec![Some(8), Some(2)]);
}

#[test]
fn count_overflow_is_reported() {
    let counts = vec![Some(usize::MAX), Some(usize::MAX - 1)];
    let mut storage = NodeField::from_parts(vec![Some('a'), Some('b')], counts).unwrap();
    assert!(matches!(storage.add_ref(0usize), Err(AccessError::ReferenceOverflow)));
    assert_eq!(storage.status(0usize).unwrap(), usize::MAX);
    assert!(matches!(storage.add_ref(1usize), Ok(())));
    assert_eq!(storage.status(1usize).unwrap(), usize::MAX);
    assert!(matches!(storage.add_ref(1usize), Err(AccessError::ReferenceOverflow)));
    assert!(matches!(storage.remove_ref(0usize), Ok(None)));
    assert_eq!(storage.status(0usize).unwrap(), usize::MAX - 1);
}

#[test]
fn from_parts_accepts_what_an_arena_gives() {
    let mut storage = filled(&[1, 2, 3]);
    storage.add_ref(2usize).unwrap();
    storage.remove_ref(1usize).unwrap();
    let copy = NodeField::from_parts(storage.data().clone(), storage.refs().clone()).unwrap();
    assert_eq!(copy.data(), storage.data());
    assert_eq!(copy.refs(), storage.refs());
    assert_eq!(copy.next_allocated(), 1);
    assert_eq!(copy.status(2usize).unwrap(), 2);
}

#[test]
fn from_parts_rejects_lists_that_disagree() {
    assert!(NodeField::from_parts(vec![Some(1)], vec![]).is_none());
    assert!(NodeField::from_parts(vec![Some(1), None], vec![Some(1), Some(1)]).is_none());
    assert!(NodeField::from_parts(vec![Some(1), None], vec![None, None]).is_none());
    assert!(NodeField::from_parts(vec![Some(1)], vec![Some(0)]).is_none());
    assert!(NodeField::<i32>::from_parts(vec![], vec![]).is_some());
    assert!(NodeField::<i32>::from_parts(vec![None, None], vec![None, None]).is_some());
}

#[test]
fn custom_handles() {
    let mut storage = NodeField::new();
    let first = NodeId(storage.push("one") as u32);
    let second = NodeId(storage.push("two") as u32);
    assert_eq!(first, NodeId(0));
    assert_eq!(second, NodeId(1));
    storage.add_ref(second).unwrap();
    assert_eq!(storage.status(second).unwrap(), 2);
    assert_eq!(*storage.get(first).unwrap(), "one");
    assert!(matches!(storage.replace(first, "uno"), Ok("one")));
    assert!(matches!(storage.remove_ref(first), Ok(Some("uno"))));
    assert!(matches!(storage.get(first), Err(AccessError::FreeMemory(0))));
    assert!(matches!(storage.get(NodeId(9)), Err(AccessError::FreeMemory(9))));
    assert_eq!(7usize.to_index(), 7);
}

#[test]
fn usage_scenario() {
    let mut storage: NodeField<u32> = NodeField::new();
    let data1 = storage.push(15);
    assert_eq!(data1, 0);
    assert_eq!(storage.status(data1).unwrap(), 1);
    let data2 = storage.push(72);
    assert_eq!(data2, 1);
    assert_eq!(storage.status(data2).unwrap(), 1);
    let data3 = data1;
    storage.add_ref(data3).unwrap();
    assert_eq!(storage.status(data1).unwrap(), 2);
    assert!(matches!(storage.remove_ref(data2), Ok(Some(72))));
    assert!(matches!(storage.remove_ref(data3), Ok(None)));
    assert_eq!(*storage.get(data1).unwrap(), 15);
    assert!(matches!(storage.get(1usize), Err(AccessError::FreeMemory(1))));
}

#[test]
fn defrag_scenario() {
    let mut storage = filled(&[0, 10, 20, 30, 40]);
    storage.add_ref(4usize).unwrap();
    storage.remove_ref(1usize).unwrap();
    storage.remove_ref(3usize).unwrap();

    let remap = storage.defrag();
    assert_eq!(remap.len(), 1);
    assert_eq!(remap.get(&4), Some(&1));
    assert_eq!(storage.data(), &vec![Some(0), Some(40), Some(20), None, None]);
    assert_eq!(storage.refs(), &vec![Some(1usize), Some(2), Some(1), None, None]);
    assert_eq!(*storage.get(remapped(&remap, 0)).unwrap(), 0);
    assert_eq!(*storage.get(remapped(&remap, 2)).unwrap(), 20);
    assert_eq!(*storage.get(remapped(&remap, 4)).unwrap(), 40);
    assert_eq!(storage.next_allocated(), 3);

    let again = storage.trim();
    assert!(again.is_empty());
    assert_eq!(storage.data().len(), 3);
    assert_eq!(storage.refs().len(), 3);
    assert_eq!(storage.data(), &vec![Some(0), Some(40), Some(20)]);
    assert_eq!(storage.next_allocated(), 3);
}

#[test]
fn defrag_moves_the_highest_value_to_the_lowest_gap() {
    let mut storage = filled(&[0, 1, 2, 3, 4, 5, 6, 7]);
    for handle in [0usize, 2, 3, 6] {
        storage.remove_ref(handle).unwrap();
    }
    let remap = storage.defrag();
    let mut moved: Vec<(usize, usize)> = remap.iter().map(|(old, new)| (*old, *new)).collect();
    moved.sort();
    assert_eq!(moved, vec![(4, 3), (5, 2), (7, 0)]);
    assert_eq!(
        storage.data(),
        &vec![Some(7), Some(1), Some(5), Some(4), None, None, None, None]
    );
}

#[test]
fn defrag_preserves_every_value() {
    // Every arrangement of occupied and free slots over six positions.
    for pattern in 0u32..64 {
        let mut storage = filled(&[100, 101, 102, 103, 104, 105]);
        let mut live = Vec::new();
        for handle in 0..6usize {
            if pattern & (1 << handle) != 0 {
                storage.add_ref(handle).unwrap();
                live.push(handle);
            } else {
                storage.remove_ref(handle).unwrap();
            }
        }
        let remap = storage.defrag();
        assert_eq!(storage.data().len(), 6);
        let mut places = Vec::new();
        for handle in live.iter() {
            let place = remapped(&remap, *handle);
            assert!(place <= *handle);
            assert_eq!(*storage.get(place).unwrap(), 100 + *handle as i32);
            assert_eq!(storage.status(place).unwrap(), 2);
            places.push(place);
        }
        places.sort();
        assert_eq!(places, (0..live.len()).collect::<Vec<usize>>());
        for place in live.len()..6 {
            assert!(matches!(storage.get(place), Err(AccessError::FreeMemory(_))));
        }
        for (old, new) in remap.iter() {
            assert!(live.contains(old));
            assert!(new < old);
        }
        assert_eq!(storage.next_allocated(), live.len());
    }
}

#[test]
fn defrag_of_one_slot() {
    let mut storage = filled(&[1]);
    assert!(storage.defrag().is_empty());
    assert_eq!(storage.data(), &vec![Some(1)]);
    storage.remove_ref(0usize).unwrap();
    assert!(storage.defrag().is_empty());
    assert_eq!(storage.data(), &vec![None]);
    assert!(storage.trim().is_empty());
    assert!(storage.data().is_empty());
}

#[test]
fn defrag_of_a_packed_arena_changes_nothing() {
    let mut storage = filled(&[1, 2, 3]);
    assert!(storage.defrag().is_empty());
    assert_eq!(storage.data(), &vec![Some(1), Some(2), Some(3)]);
    assert!(storage.trim().is_empty());
    assert_eq!(storage.data(), &vec![Some(1), Some(2), Some(3)]);
    assert_eq!(storage.next_allocated(), 3);
}

#[test]
fn trim_shrinks_to_the_number_of_values() {
    for pattern in 0u32..32 {
        let mut storage = filled(&[0, 1, 2, 3, 4]);
        let mut live = 0;
        for handle in 0..5usize {
            if pattern & (1 << handle) != 0 {
                live += 1;
            } else {
                storage.remove_ref(handle).unwrap();
            }
        }
        let remap = storage.trim();
        assert_eq!(storage.data().len(), live);
        assert_eq!(storage.refs().len(), live);
        assert_eq!(storage.next_allocated(), live);
        for handle in 0..5usize {
            if pattern & (1 << handle) != 0 {
                assert_eq!(*storage.get(remapped(&remap, handle)).unwrap(), handle as i32);
            }
        }
        assert!(storage.data().iter().all(|slot| slot.is_some()));
    }
}

#[test]
fn trim_gives_capacity_back() {
    let mut storage = NodeField::new();
    for value in 0..100 {
        let _ = storage.push(value);
    }
    assert!(storage.data().capacity() >= 100);
    for handle in 0..99usize {
        storage.remove_ref(handle).unwrap();
    }
    let remap = storage.trim();
    assert_eq!(remap.get(&99), Some(&0));
    assert_eq!(storage.data(), &vec![Some(99)]);
    assert_eq!(storage.refs(), &vec![Some(1usize)]);
    assert!(storage.data().capacity() < 100);
    assert!(storage.refs().capacity() < 100);
}

#[test]
fn errors_can_be_printed() {
    assert_eq!(format!("{:?}", AccessError::FreeMemory(3)), "FreeMemory(3)");
    assert_eq!(format!("{:?}", AccessError::ReferenceOverflow), "ReferenceOverflow");
}
