use iqdb_cache::OrderedMap;

#[test]
fn insert_get_contains() {
    let mut m: OrderedMap<u32, u32> = OrderedMap::with_capacity(4);
    m.insert_front(1, 10);
    m.insert_front(2, 20);
    assert!(m.contains(&1));
    assert_eq!(m.get(&2), Some(&20));
    assert_eq!(m.get(&3), None);
    assert_eq!(m.len(), 2);
}

#[test]
fn pop_back_is_least_recently_touched() {
    let mut m = OrderedMap::with_capacity(4);
    m.insert_front(1u32, 10u32);
    m.insert_front(2, 20);
    m.insert_front(3, 30);
    // Back is the oldest insert (1), front is newest (3).
    assert_eq!(m.pop_back(), Some((1, 10)));
    assert_eq!(m.pop_back(), Some((2, 20)));
    assert_eq!(m.pop_back(), Some((3, 30)));
    assert_eq!(m.pop_back(), None);
}

#[test]
fn move_to_front_changes_eviction_order() {
    let mut m = OrderedMap::with_capacity(4);
    m.insert_front(1u32, 10u32);
    m.insert_front(2, 20);
    // Touch 1 -> it is no longer the back.
    m.move_to_front(&1);
    assert_eq!(m.pop_back(), Some((2, 20)));
}

#[test]
fn remove_arbitrary_and_reuse_slot() {
    let mut m = OrderedMap::with_capacity(4);
    m.insert_front(1u32, 10u32);
    m.insert_front(2, 20);
    m.insert_front(3, 30);
    assert_eq!(m.remove(&2), Some(20));
    assert_eq!(m.remove(&2), None);
    assert_eq!(m.len(), 2);
    // The list is still consistent end to end.
    assert_eq!(m.pop_back(), Some((1, 10)));
    assert_eq!(m.pop_back(), Some((3, 30)));
}

#[test]
fn insert_existing_updates_and_promotes() {
    let mut m = OrderedMap::with_capacity(4);
    m.insert_front(1u32, 10u32);
    m.insert_front(2, 20);
    m.insert_front(1, 11); // update + promote
    assert_eq!(m.get(&1), Some(&11));
    assert_eq!(m.len(), 2);
    // 2 is now the back.
    assert_eq!(m.pop_back(), Some((2, 20)));
}

#[test]
fn update_value_does_not_reorder() {
    let mut m = OrderedMap::with_capacity(4);
    m.insert_front(1u32, 10u32);
    m.insert_front(2, 20);
    m.update_value(&1, 99);
    assert_eq!(m.get(&1), Some(&99));
    // 1 is still the back (unchanged order).
    assert_eq!(m.pop_back(), Some((1, 99)));
}

#[test]
fn clear_then_reuse() {
    let mut m = OrderedMap::with_capacity(2);
    m.insert_front(1u32, 1u32);
    m.clear();
    assert_eq!(m.len(), 0);
    assert_eq!(m.get(&1), None);
    m.insert_front(2, 2);
    assert_eq!(m.get(&2), Some(&2));
}

#[test]
fn single_element_pop_resets_ends() {
    let mut m = OrderedMap::with_capacity(2);
    m.insert_front(1u32, 1u32);
    assert_eq!(m.pop_back(), Some((1, 1)));
    assert_eq!(m.pop_back(), None);
    // Reinsert works after the list emptied.
    m.insert_front(2, 2);
    assert_eq!(m.get(&2), Some(&2));
}

#[test]
fn access_promotes_only_when_asked() {
    let mut m = OrderedMap::with_capacity(4);
    m.insert_front(1u32, 10u32);
    m.insert_front(2, 20);
    assert_eq!(m.access(&1, false), Some(&10));
    assert_eq!(m.access(&9, true), None);
    // 1 stays the back after a non-promoting access...
    assert_eq!(m.pop_back(), Some((1, 10)));
    m.insert_front(1, 10);
    // ...and leaves the back after a promoting one.
    assert_eq!(m.access(&2, true), Some(&20));
    assert_eq!(m.pop_back(), Some((1, 10)));
    assert_eq!(m.pop_back(), Some((2, 20)));
}

#[test]
fn removed_slots_are_recycled_in_order() {
    let mut m = OrderedMap::with_capacity(0);
    for k in 0..10u32 {
        m.insert_front(k, k);
    }
    for k in (0..10u32).step_by(2) {
        assert_eq!(m.remove(&k), Some(k));
    }
    for k in 10..15u32 {
        m.insert_front(k, k);
    }
    assert_eq!(m.len(), 10);
    let mut drained = Vec::new();
    while let Some((k, v)) = m.pop_back() {
        assert_eq!(k, v);
        drained.push(k);
    }
    assert_eq!(drained, vec![1, 3, 5, 7, 9, 10, 11, 12, 13, 14]);
}
