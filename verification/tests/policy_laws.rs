use iqdb_cache::{ArcCache, EvictionPolicy, PolicyCache};

#[test]
fn lfu_ties_break_by_least_recently_used() {
    let mut cache = PolicyCache::new(EvictionPolicy::Lfu, 2);
    assert!(!cache.put(1u32, 10u32));
    assert!(!cache.put(2, 20));
    // Both keys seen once: the older one (1) is the victim.
    assert!(cache.put(3, 30));
    assert_eq!(cache.get(&1), None);
    assert_eq!(cache.get(&2), Some(&20));
    assert_eq!(cache.get(&3), Some(&30));
}

#[test]
fn lfu_update_counts_as_an_access() {
    let mut cache = PolicyCache::new(EvictionPolicy::Lfu, 2);
    let _ = cache.put(1u32, 10u32);
    let _ = cache.put(2, 20);
    // Re-putting 1 replaces its value and raises its frequency.
    assert!(!cache.put(1, 11));
    assert!(cache.put(3, 30));
    assert_eq!(cache.get(&2), None);
    assert_eq!(cache.get(&1), Some(&11));
    assert_eq!(cache.len(), 2);
}

#[test]
fn fifo_update_keeps_insertion_position() {
    let mut cache = PolicyCache::new(EvictionPolicy::Fifo, 2);
    let _ = cache.put(1u32, 10u32);
    let _ = cache.put(2, 20);
    assert!(!cache.put(1, 11)); // value replaced, position unchanged
    assert!(cache.put(3, 30)); // 1 is still the oldest insert
    assert_eq!(cache.get(&1), None);
    assert_eq!(cache.get(&2), Some(&20));
}

#[test]
fn lru_update_promotes_the_key() {
    let mut cache = PolicyCache::new(EvictionPolicy::Lru, 2);
    let _ = cache.put(1u32, 10u32);
    let _ = cache.put(2, 20);
    assert!(!cache.put(1, 11)); // value replaced and promoted
    assert!(cache.put(3, 30)); // 2 is now least recently used
    assert_eq!(cache.get(&2), None);
    assert_eq!(cache.get(&1), Some(&11));
}

#[test]
fn arc_ghost_hits_readmit_into_frequency_list() {
    let mut cache = PolicyCache::new(EvictionPolicy::Arc, 2);
    assert!(!cache.put(1u32, 10u32));
    assert!(!cache.put(2, 20));
    assert_eq!(cache.get(&1), Some(&10)); // 1 moves to the frequency list
    assert!(cache.put(3, 30)); // 2 becomes a ghost in b1
    assert_eq!(cache.get(&2), None);
    assert!(cache.put(2, 21)); // ghost hit in b1: 1 becomes a ghost in b2
    assert_eq!(cache.get(&1), None);
    assert_eq!(cache.get(&2), Some(&21));
    assert_eq!(cache.get(&3), Some(&30)); // 3 moves to the frequency list
    assert!(cache.put(1, 11)); // ghost hit in b2: 2 becomes a ghost in b2
    assert_eq!(cache.get(&2), None);
    assert_eq!(cache.get(&1), Some(&11));
    assert_eq!(cache.get(&3), Some(&30));
    assert_eq!(cache.len(), 2);
}

#[test]
fn arc_full_recency_list_drops_its_back_outright() {
    let mut cache = PolicyCache::new(EvictionPolicy::Arc, 2);
    let _ = cache.put(1u32, 10u32);
    let _ = cache.put(2, 20);
    assert!(cache.put(3, 30)); // t1 full, no ghost kept
    assert_eq!(cache.get(&1), None);
    assert!(!cache.put(4, 40) || cache.len() == 2);
    assert_eq!(cache.len(), 2);
}

#[test]
fn eviction_flag_means_exactly_one_key_left() {
    for policy in [
        EvictionPolicy::Lru,
        EvictionPolicy::Fifo,
        EvictionPolicy::Lfu,
        EvictionPolicy::Arc,
    ] {
        let mut cache = PolicyCache::new(policy, 3);
        let mut resident: Vec<u32> = Vec::new();
        for k in 0..12u32 {
            let evicted = cache.put(k, k + 100);
            // Probe with a throwaway copy of the policy's view: the values
            // that survive are exactly the ones still cached.
            let before = resident.len();
            resident.push(k);
            let mut still = Vec::new();
            for &r in &resident {
                if cache.len() >= 1 && probe(&mut cache, r) {
                    still.push(r);
                }
            }
            let dropped = resident.len() - still.len();
            assert_eq!(dropped, usize::from(evicted), "{policy:?} at key {k} (had {before})");
            resident = still;
            assert!(cache.len() <= 3, "{policy:?} exceeded capacity");
        }
    }
}

/// Whether `key` is cached, answering with the value it was stored with.
fn probe(cache: &mut PolicyCache<u32, u32>, key: u32) -> bool {
    match cache.get(&key) {
        Some(v) => {
            assert_eq!(*v, key + 100);
            true
        }
        None => false,
    }
}

#[test]
fn arc_put_of_a_key_in_the_frequency_list_updates_it_in_place() {
    let mut cache = ArcCache::new(2);
    assert!(!cache.put(1u32, 1u32));
    assert_eq!(cache.get(&1), Some(&1)); // 1 is now in the frequency list
    assert!(!cache.put(1, 5)); // resident: no eviction, one live entry
    assert_eq!(cache.len(), 1);
    assert_eq!(cache.get(&1), Some(&5));
}

#[test]
fn arc_put_of_a_key_in_the_recency_list_updates_it_in_place() {
    let mut cache = ArcCache::new(2);
    assert!(!cache.put(1u32, 1u32));
    assert!(!cache.put(2, 2));
    assert!(!cache.put(1, 7)); // resident in the recency list
    assert_eq!(cache.len(), 2);
    assert_eq!(cache.get(&1), Some(&7));
    assert_eq!(cache.get(&2), Some(&2));
}

#[test]
fn every_policy_keeps_the_latest_put_after_repeated_keys() {
    for policy in [EvictionPolicy::Lru, EvictionPolicy::Fifo, EvictionPolicy::Lfu, EvictionPolicy::Arc] {
        let mut cache = PolicyCache::new(policy, 2);
        for i in 0u32..10 {
            let _ = cache.put(i % 3, i * 10);
            assert_eq!(cache.get(&(i % 3)), Some(&(i * 10)));
            assert!(cache.len() <= 2);
        }
    }
}
