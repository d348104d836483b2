use epoch_map::handle::EpochMap;
use epoch_map::list::LinkedList;

#[test]
fn linkedlist_basics() {
    let mut remove_nodes: Vec<usize> = Vec::new();

    let mut new_linked_list = LinkedList::default();

    println!("{:?}", new_linked_list.keys());

    new_linked_list.insert(1, 1, &mut remove_nodes);
    new_linked_list.insert(2, 2, &mut remove_nodes);
    new_linked_list.insert(3, 3, &mut remove_nodes);
    new_linked_list.insert(4, 4, &mut remove_nodes);
    new_linked_list.insert(5, 5, &mut remove_nodes);
    new_linked_list.insert(6, 6, &mut remove_nodes);
    new_linked_list.insert(7, 7, &mut remove_nodes);
    new_linked_list.insert(8, 8, &mut remove_nodes);
    new_linked_list.insert(9, 9, &mut remove_nodes);
    new_linked_list.insert(10, 10, &mut remove_nodes);

    new_linked_list.delete(6, &mut remove_nodes);

    println!("vector {:?}", remove_nodes);

    println!("printing list");
    // Print the entire linked list from head to tail
    for key in new_linked_list.keys() {
        println!("{:?}", key);
    }
}

#[test]
fn more_linked_list_tests() {
    let mut remove_nodes: Vec<usize> = Vec::new();

    let mut new_linked_list = LinkedList::default();
    println!("Insert: {:?}", new_linked_list.insert(5, 3, &mut remove_nodes));
    println!("Insert: {:?}", new_linked_list.insert(5, 8, &mut remove_nodes));
    println!("Insert: {:?}", new_linked_list.insert(2, 3, &mut remove_nodes));

    println!("Get: {:?}", new_linked_list.get(5, &mut remove_nodes));

    new_linked_list.delete(5, &mut remove_nodes);
}

#[test]
fn hashmap_remove() {
    let mut handle = EpochMap::with_capacity(8);
    handle.insert(1, 3);
    handle.insert(2, 5);
    handle.insert(3, 8);
    handle.insert(4, 3);
    handle.insert(5, 4);
    handle.insert(6, 5);
    handle.insert(7, 3);
    handle.insert(8, 3);
    handle.insert(9, 3);
    handle.insert(10, 3);
    handle.insert(11, 3);
    handle.insert(12, 3);
    handle.insert(13, 3);
    handle.insert(14, 3);
    handle.insert(15, 3);
    handle.insert(16, 3);
    assert_eq!(handle.get(1).unwrap(), 3);
    assert_eq!(handle.remove(1).unwrap(), 3);
    assert_eq!(handle.get(1), None);
    assert_eq!(handle.remove(2).unwrap(), 5);
    assert_eq!(handle.remove(16).unwrap(), 3);
    assert_eq!(handle.get(16), None);
}

#[test]
fn hashmap_basics() {
    let mut new_hashmap = EpochMap::with_capacity(8);

    assert_eq!(new_hashmap.is_empty(), true);
    assert_eq!(new_hashmap.len(), 0);

    new_hashmap.insert(1, 1);
    new_hashmap.insert(2, 5);
    new_hashmap.insert(12, 5);
    new_hashmap.insert(13, 7);
    new_hashmap.insert(0, 0);

    new_hashmap.insert(20, 3);
    new_hashmap.insert(3, 2);
    new_hashmap.insert(4, 1);

    assert_eq!(new_hashmap.insert(20, 5).unwrap(), 3); // repeated
    assert_eq!(new_hashmap.insert(3, 8).unwrap(), 2); // repeated
    assert_eq!(new_hashmap.insert(5, 5), None);

    assert_eq!(new_hashmap.map.table.nitems, 9);

    new_hashmap.insert(3, 8); // repeated

    assert_eq!(new_hashmap.get(20).unwrap(), 5);
    assert_eq!(new_hashmap.get(12).unwrap(), 5);
    assert_eq!(new_hashmap.get(1).unwrap(), 1);
    assert_eq!(new_hashmap.get(0).unwrap(), 0);
    assert!(new_hashmap.get(3).unwrap() != 2); // test that it changed

    // try the same assert_eqs
    assert_eq!(new_hashmap.get(20).unwrap(), 5);
    assert_eq!(new_hashmap.get(12).unwrap(), 5);
    assert_eq!(new_hashmap.get(1).unwrap(), 1);
    assert_eq!(new_hashmap.get(0).unwrap(), 0);
    assert!(new_hashmap.get(3).unwrap() != 2); // test that it changed
}

#[test]
fn hashmap_empty_hints() {
    let handle = EpochMap::with_capacity(8);
    assert_eq!(handle.is_empty(), true);
    assert_eq!(handle.len(), 0);
}

#[test]
fn single_list_delete_traversal() {
    let mut remove_nodes: Vec<usize> = Vec::new();
    let mut list = LinkedList::default();
    for k in 1..=10 {
        assert_eq!(list.insert(k, k, &mut remove_nodes), None);
    }
    assert_eq!(list.delete(6, &mut remove_nodes), Some(6));
    assert_eq!(list.keys(), vec![1, 2, 3, 4, 5, 7, 8, 9, 10]);
}

#[test]
fn single_list_update_in_place() {
    let mut remove_nodes: Vec<usize> = Vec::new();
    let mut list = LinkedList::default();
    assert_eq!(list.insert(5, 3, &mut remove_nodes), None);
    assert_eq!(list.insert(5, 8, &mut remove_nodes), Some(3));
    assert_eq!(list.insert(2, 3, &mut remove_nodes), None);
    assert_eq!(list.get(5, &mut remove_nodes), Some(8));
}

#[test]
fn marked_reference_tagging() {
    let reference: usize = 6; // an unmarked reference to arena index 3
    assert!(!LinkedList::is_marked_reference(reference));
    let marked = LinkedList::get_marked_reference(reference);
    assert_eq!(marked, 7);
    assert!(LinkedList::is_marked_reference(marked));
    assert_eq!(LinkedList::get_unmarked_reference(marked), 6);
    assert_eq!(LinkedList::get_marked_reference(marked), 7);
}

#[test]
fn epoch_parity_after_each_call() {
    let mut handle = EpochMap::with_capacity(8);
    assert_eq!(handle.epoch(), 0);
    handle.insert(1, 1);
    assert_eq!(handle.epoch(), 2);
    assert_eq!(handle.epoch() % 2, 0);
    handle.get(1);
    assert_eq!(handle.epoch(), 4);
    assert_eq!(handle.epoch() % 2, 0);
    handle.remove(1);
    assert_eq!(handle.epoch(), 6);
    assert_eq!(handle.epoch() % 2, 0);
    handle.remove(1); // absent key still enters and leaves the critical section
    assert_eq!(handle.epoch(), 8);
    assert_eq!(handle.epoch() % 2, 0);
}

#[test]
fn reclamation_after_cleanup_round() {
    let mut handle = EpochMap::with_capacity(8);
    for k in 0..8 {
        assert_eq!(handle.insert(k, k + 100), None);
    }
    for k in 0..8 {
        assert_eq!(handle.remove(k), Some(k + 100));
    }
    // the eight unlinked nodes await the next cleanup round
    assert_eq!(handle.deferred_nodes(), 8);
    // pad with reads so that the thousandth operation triggers cleanup
    for _ in 0..984 {
        handle.get(0);
    }
    assert_eq!(handle.deferred_nodes(), 0);
    assert_eq!(handle.deferred_values(), 0);
    assert_eq!(handle.len(), 0);
    assert!(handle.is_empty());
    assert_eq!(handle.epoch(), 2000);
}

#[test]
fn updates_defer_their_spare_nodes() {
    let mut handle = EpochMap::with_capacity(8);
    assert_eq!(handle.insert(7, 1), None);
    assert_eq!(handle.insert(7, 2), Some(1));
    assert_eq!(handle.insert(7, 3), Some(2));
    // each in-place update deferred its spare node and the replaced cell
    assert_eq!(handle.deferred_nodes(), 2);
    assert_eq!(handle.deferred_values(), 2);
    assert_eq!(handle.get(7), Some(3));
    assert_eq!(handle.len(), 1);
}

#[test]
fn registry_registration() {
    let mut handle = EpochMap::with_capacity(8);
    assert_eq!(handle.map.handles.len(), 1);
    assert_eq!(handle.map.handles[0], 0);
    // a further handle would register a fresh, even (quiescent) counter
    let slot = handle.map.register();
    assert_eq!(slot, 1);
    assert_eq!(handle.map.handles.len(), 2);
    assert_eq!(handle.map.handles[1], 0);
    // the map still works with the larger registry
    assert_eq!(handle.insert(1, 2), None);
    assert_eq!(handle.get(1), Some(2));
    assert_eq!(handle.epoch(), 4);
}

#[test]
fn serial_matches_reference_map() {
    let mut handle = EpochMap::with_capacity(8);
    let mut reference = std::collections::BTreeMap::new();
    // a small linear congruential generator drives the workload
    let mut state: u64 = 0x2545F4914F6CDD1D;
    for _ in 0..6000 {
        state = state.wrapping_mul(6364136223846793005).wrapping_add(1442695040888963407);
        let key = ((state >> 33) % 32) as usize;
        let op = (state >> 60) % 3;
        state = state.wrapping_mul(6364136223846793005).wrapping_add(1442695040888963407);
        let val = ((state >> 33) % 1000) as usize;
        match op {
            0 => assert_eq!(handle.insert(key, val), reference.insert(key, val)),
            1 => assert_eq!(handle.get(key), reference.get(&key).copied()),
            _ => assert_eq!(handle.remove(key), reference.remove(&key)),
        }
        assert_eq!(handle.len(), reference.len());
        assert_eq!(handle.is_empty(), reference.is_empty());
    }
}

#[test]
fn sequential_stress_epoch_and_values() {
    let mut handle = EpochMap::with_capacity(8);
    let n_iter: usize = 10000;
    let mut state: u64 = 88172645463325252;
    for _ in 0..n_iter {
        state ^= state << 13;
        state ^= state >> 7;
        state ^= state << 17;
        let val = (state % 8) as usize;
        let two = (state >> 8) % 3;
        if two % 3 == 0 {
            handle.insert(val, val);
        } else if two % 3 == 1 {
            let v = handle.get(val);
            if v.is_some() {
                // only insert(k, k) ever writes key k
                assert_eq!(v.unwrap(), val);
            }
        } else {
            handle.remove(val);
        }
    }
    assert_eq!(handle.epoch(), n_iter * 2);
}

#[test]
fn lists_stay_sorted_under_churn() {
    let mut remove_nodes: Vec<usize> = Vec::new();
    let mut list = LinkedList::default();
    for k in [9, 2, 14, 5, 1, 11, 3, 8, 0, 7] {
        list.insert(k, k * 10, &mut remove_nodes);
    }
    list.delete(5, &mut remove_nodes);
    list.delete(9, &mut remove_nodes);
    list.insert(4, 40, &mut remove_nodes);
    let keys = list.keys();
    assert_eq!(keys, vec![0, 1, 2, 3, 4, 7, 8, 11, 14]);
    for pair in keys.windows(2) {
        assert!(pair[0] < pair[1]);
    }
}
