use iqdb_cache::LruCache;

#[test]
fn get_miss_on_empty() {
    let mut cache: LruCache<u32, u32> = LruCache::with_capacity(4);
    assert_eq!(cache.get(&1), None);
    assert_eq!(cache.len(), 0);
}

#[test]
fn put_then_get() {
    let mut cache = LruCache::with_capacity(2);
    assert_eq!(cache.put(1u32, 10u32), None);
    assert_eq!(cache.put(2, 20), None);
    assert_eq!(cache.get(&1), Some(&10));
    assert_eq!(cache.get(&2), Some(&20));
    assert_eq!(cache.len(), 2);
}

#[test]
fn put_updates_existing_without_growth() {
    let mut cache = LruCache::with_capacity(2);
    assert_eq!(cache.put(1u32, 10u32), None);
    assert_eq!(cache.put(1, 11), None);
    assert_eq!(cache.len(), 1);
    assert_eq!(cache.get(&1), Some(&11));
}

#[test]
fn evicts_least_recently_used() {
    let mut cache = LruCache::with_capacity(2);
    let _ = cache.put(1u32, 10u32);
    let _ = cache.put(2, 20);
    // Touch 1 so 2 becomes the LRU.
    assert_eq!(cache.get(&1), Some(&10));
    // Inserting 3 evicts 2.
    assert_eq!(cache.put(3, 30), Some((2, 20)));
    assert_eq!(cache.get(&2), None);
    assert_eq!(cache.get(&1), Some(&10));
    assert_eq!(cache.get(&3), Some(&30));
    assert_eq!(cache.len(), 2);
}

#[test]
fn capacity_one_keeps_only_newest() {
    let mut cache = LruCache::with_capacity(1);
    let _ = cache.put(1u32, 10u32);
    assert_eq!(cache.put(2, 20), Some((1, 10)));
    assert_eq!(cache.get(&1), None);
    assert_eq!(cache.get(&2), Some(&20));
}

#[test]
fn capacity_zero_rejects_everything() {
    let mut cache = LruCache::with_capacity(0);
    assert_eq!(cache.put(1u32, 10u32), Some((1, 10)));
    assert_eq!(cache.get(&1), None);
    assert_eq!(cache.len(), 0);
}

#[test]
fn clear_empties_and_keeps_working() {
    let mut cache = LruCache::with_capacity(2);
    let _ = cache.put(1u32, 10u32);
    let _ = cache.put(2, 20);
    cache.clear();
    assert_eq!(cache.len(), 0);
    assert_eq!(cache.get(&1), None);
    // Still usable after a clear.
    let _ = cache.put(3, 30);
    assert_eq!(cache.get(&3), Some(&30));
}

#[test]
fn never_exceeds_capacity_under_churn() {
    let mut cache = LruCache::with_capacity(8);
    for i in 0..1000u32 {
        let _ = cache.put(i, i);
        assert!(cache.len() <= 8);
    }
    // Only the last 8 keys survive.
    for i in 992..1000u32 {
        assert_eq!(cache.get(&i), Some(&i));
    }
    for i in 0..992u32 {
        assert_eq!(cache.get(&i), None);
    }
}

#[test]
fn lru_put_returns_the_least_recent_pair_after_mixed_touches() {
    let mut cache = LruCache::with_capacity(3);
    let _ = cache.put(1u64, 'a');
    let _ = cache.put(2, 'b');
    let _ = cache.put(3, 'c');
    assert_eq!(cache.get(&1), Some(&'a'));
    assert_eq!(cache.put(2, 'B'), None);
    // Order is now 2, 1, 3 (most recent first): 3 goes next.
    assert_eq!(cache.put(4, 'd'), Some((3, 'c')));
    assert_eq!(cache.put(5, 'e'), Some((1, 'a')));
    assert_eq!(cache.get(&2), Some(&'B'));
    assert_eq!(cache.len(), 3);
}

#[test]
fn lru_stored_value_is_the_last_written() {
    let mut cache = LruCache::with_capacity(4);
    for round in 0..5u32 {
        for key in 0..4u32 {
            let _ = cache.put(key, key * 100 + round);
        }
    }
    for key in 0..4u32 {
        assert_eq!(cache.get(&key), Some(&(key * 100 + 4)));
    }
}
