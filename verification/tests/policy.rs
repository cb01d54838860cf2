use iqdb_cache::{EvictionPolicy, PolicyCache};

fn drive(policy: EvictionPolicy) -> PolicyCache<u32, u32> {
    PolicyCache::new(policy, 2)
}

#[test]
fn every_policy_caches_and_bounds_capacity() {
    for policy in [
        EvictionPolicy::Lru,
        EvictionPolicy::Fifo,
        EvictionPolicy::Lfu,
        EvictionPolicy::Arc,
    ] {
        let mut cache = drive(policy);
        for i in 0..100u32 {
            let _ = cache.put(i, i * 10);
            assert!(cache.len() <= 2, "{policy:?} exceeded capacity");
        }
        // The most recent insert is always retained.
        assert_eq!(cache.get(&99), Some(&990), "{policy:?} lost newest");
    }
}

#[test]
fn lru_evicts_least_recently_used() {
    let mut cache = PolicyCache::new(EvictionPolicy::Lru, 2);
    assert!(!cache.put(1, 1));
    assert!(!cache.put(2, 2));
    // Touch 1, so 2 is the LRU.
    assert_eq!(cache.get(&1), Some(&1));
    assert!(cache.put(3, 3)); // evicts 2
    assert_eq!(cache.get(&2), None);
    assert_eq!(cache.get(&1), Some(&1));
    assert_eq!(cache.get(&3), Some(&3));
}

#[test]
fn fifo_evicts_oldest_inserted_regardless_of_access() {
    let mut cache = PolicyCache::new(EvictionPolicy::Fifo, 2);
    let _ = cache.put(1, 1);
    let _ = cache.put(2, 2);
    // Access 1: FIFO does NOT protect it.
    assert_eq!(cache.get(&1), Some(&1));
    let _ = cache.put(3, 3); // evicts 1 (oldest insert)
    assert_eq!(cache.get(&1), None);
    assert_eq!(cache.get(&2), Some(&2));
    assert_eq!(cache.get(&3), Some(&3));
}

#[test]
fn lfu_evicts_least_frequently_used() {
    let mut cache = PolicyCache::new(EvictionPolicy::Lfu, 2);
    let _ = cache.put(1, 1);
    let _ = cache.put(2, 2);
    // Make 1 frequent; 2 stays at frequency 1.
    assert_eq!(cache.get(&1), Some(&1));
    assert_eq!(cache.get(&1), Some(&1));
    let _ = cache.put(3, 3); // evicts 2 (least frequent)
    assert_eq!(cache.get(&2), None);
    assert_eq!(cache.get(&1), Some(&1));
    assert_eq!(cache.get(&3), Some(&3));
}

#[test]
fn arc_keeps_frequent_keys_and_bounds_occupancy() {
    let mut cache = PolicyCache::new(EvictionPolicy::Arc, 2);
    let _ = cache.put(1, 1);
    let _ = cache.put(2, 2);
    // Promote 1 into the frequency list.
    assert_eq!(cache.get(&1), Some(&1));
    // Churn new keys; occupancy must stay within capacity throughout.
    for k in 3..20u32 {
        let _ = cache.put(k, k);
        assert!(cache.len() <= 2);
    }
}

#[test]
fn put_reports_eviction() {
    let mut cache = PolicyCache::new(EvictionPolicy::Lru, 1);
    assert!(!cache.put(1, 1)); // fits, no eviction
    assert!(cache.put(2, 2)); // evicts 1
}

#[test]
fn clear_empties_every_policy() {
    for policy in [
        EvictionPolicy::Lru,
        EvictionPolicy::Fifo,
        EvictionPolicy::Lfu,
        EvictionPolicy::Arc,
    ] {
        let mut cache = drive(policy);
        let _ = cache.put(1, 1);
        let _ = cache.put(2, 2);
        cache.clear();
        assert_eq!(cache.len(), 0, "{policy:?} not cleared");
        assert_eq!(cache.get(&1), None);
    }
}

#[test]
fn capacity_zero_stores_nothing() {
    for policy in [
        EvictionPolicy::Lru,
        EvictionPolicy::Fifo,
        EvictionPolicy::Lfu,
        EvictionPolicy::Arc,
    ] {
        let mut cache = PolicyCache::new(policy, 0);
        assert!(!cache.put(1, 1));
        assert_eq!(cache.get(&1), None);
        assert_eq!(cache.len(), 0);
    }
}
