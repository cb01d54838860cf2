use iqdb_cache::cached::{Mutation, ResultCache};
use iqdb_cache::EvictionPolicy;

const POLICIES: [EvictionPolicy; 4] = [
    EvictionPolicy::Lru,
    EvictionPolicy::Lfu,
    EvictionPolicy::Fifo,
    EvictionPolicy::Arc,
];

#[test]
fn repeat_lookup_hits_after_record() {
    let mut cache: ResultCache<u64, Vec<u64>> = ResultCache::with_capacity(4);
    assert!(cache.is_enabled());
    assert_eq!(cache.capacity(), 4);
    assert_eq!(cache.policy(), EvictionPolicy::Lru);
    assert_eq!(cache.ttl(), None);
    assert_eq!(cache.lookup(&7, 0), None);
    assert!(!cache.record(7, vec![1, 2], 0));
    assert_eq!(cache.lookup(&7, 0), Some(&vec![1, 2]));
    assert_eq!(cache.len(), 1);
}

#[test]
fn disabled_cache_stores_nothing() {
    let mut cache: ResultCache<u64, u64> = ResultCache::with_capacity(0);
    assert!(!cache.is_enabled());
    assert!(!cache.record(1, 10, 0));
    assert_eq!(cache.lookup(&1, 0), None);
    assert_eq!(cache.len(), 0);
}

#[test]
fn successful_writes_drop_every_result() {
    for mutation in [Mutation::Insert, Mutation::Delete, Mutation::InsertBatch] {
        let mut cache: ResultCache<u64, u64> = ResultCache::with_capacity(4);
        cache.record(1, 10, 0);
        cache.record(2, 20, 0);
        assert!(cache.after_mutation(mutation, true));
        assert_eq!(cache.len(), 0);
        assert_eq!(cache.lookup(&1, 0), None);
    }
}

#[test]
fn failed_insert_or_delete_keeps_results() {
    for mutation in [Mutation::Insert, Mutation::Delete] {
        let mut cache: ResultCache<u64, u64> = ResultCache::with_capacity(4);
        cache.record(1, 10, 0);
        assert!(!cache.after_mutation(mutation, false));
        assert_eq!(cache.lookup(&1, 0), Some(&10));
    }
}

#[test]
fn failed_batch_still_drops_results() {
    let mut cache: ResultCache<u64, u64> = ResultCache::with_capacity(4);
    cache.record(1, 10, 0);
    assert!(cache.after_mutation(Mutation::InsertBatch, false));
    assert_eq!(cache.lookup(&1, 0), None);
}

#[test]
fn results_stay_within_capacity() {
    let mut cache: ResultCache<u32, u32> = ResultCache::with_capacity(3);
    for q in 0..50u32 {
        cache.record(q, q * 2, 0);
        assert!(cache.len() <= 3);
    }
    assert_eq!(cache.lookup(&49, 0), Some(&98));
    assert_eq!(cache.lookup(&46, 0), None);
    cache.clear();
    assert_eq!(cache.len(), 0);
}

#[test]
fn repeat_search_counts_one_miss_then_one_hit() {
    let mut cache: ResultCache<u64, Vec<u64>> = ResultCache::with_capacity(4);
    assert_eq!(cache.lookup(&7, 0), None);
    cache.record(7, vec![3], 0);
    assert_eq!(cache.lookup(&7, 0), Some(&vec![3]));
    let stats = cache.stats();
    assert_eq!(stats.hits, 1);
    assert_eq!(stats.misses, 1);
    assert_eq!(stats.evictions, 0);
    assert_eq!(stats.len, 1);
    assert_eq!(stats.capacity, 4);
    assert_eq!(stats.lookups(), 2);
}

#[test]
fn lookups_that_miss_count_nothing_until_recorded() {
    let mut cache: ResultCache<u64, u64> = ResultCache::with_capacity(2);
    assert_eq!(cache.lookup(&1, 0), None);
    assert_eq!(cache.lookup(&2, 0), None);
    let stats = cache.stats();
    assert_eq!((stats.hits, stats.misses, stats.len), (0, 0, 0));
}

#[test]
fn passthrough_searches_count_as_misses() {
    let mut cache: ResultCache<u64, u64> = ResultCache::with_capacity(0);
    cache.count_passthrough();
    cache.count_passthrough();
    let stats = cache.stats();
    assert_eq!((stats.hits, stats.misses, stats.len, stats.capacity), (0, 2, 0, 0));
}

#[test]
fn clearing_and_writes_keep_the_counters() {
    let mut cache: ResultCache<u64, u64> = ResultCache::with_capacity(2);
    cache.record(1, 10, 0);
    assert_eq!(cache.lookup(&1, 0), Some(&10));
    assert!(cache.after_mutation(Mutation::Insert, true));
    cache.clear();
    let stats = cache.stats();
    assert_eq!((stats.hits, stats.misses, stats.len), (1, 1, 0));
}

#[test]
fn evictions_are_counted_under_every_policy() {
    for policy in POLICIES {
        let mut cache: ResultCache<u32, u32> = ResultCache::new(2, None, policy);
        assert_eq!(cache.policy(), policy);
        for q in 0..3u32 {
            assert_eq!(cache.lookup(&q, 0), None);
            cache.record(q, q * 10, 0);
        }
        let stats = cache.stats();
        assert!(stats.len <= 2, "{policy:?} exceeded capacity");
        assert_eq!(stats.misses, 3);
        assert!(stats.evictions >= 1, "{policy:?} did not report an eviction");
    }
}

#[test]
fn record_reports_the_eviction_it_counts() {
    let mut cache: ResultCache<u32, u32> = ResultCache::with_capacity(1);
    assert!(!cache.record(1, 10, 0));
    assert!(!cache.record(1, 11, 0)); // same key: replaced, nothing evicted
    assert!(cache.record(2, 20, 0));
    assert_eq!(cache.stats().evictions, 1);
    assert_eq!(cache.lookup(&1, 0), None);
    assert_eq!(cache.lookup(&2, 0), Some(&20));
}

#[test]
fn expired_results_are_misses_and_get_replaced() {
    let mut cache: ResultCache<u32, u32> = ResultCache::new(4, Some(100), EvictionPolicy::Lru);
    assert_eq!(cache.ttl(), Some(100));
    cache.record(1, 10, 1_000);
    assert_eq!(cache.lookup(&1, 1_099), Some(&10)); // age 99: still fresh
    assert_eq!(cache.lookup(&1, 1_100), None); // age 100: expired
    cache.record(1, 11, 1_100);
    assert_eq!(cache.lookup(&1, 1_150), Some(&11));
    let stats = cache.stats();
    assert_eq!((stats.hits, stats.misses, stats.len), (2, 2, 1));
}

#[test]
fn without_a_ttl_results_never_expire() {
    let mut cache: ResultCache<u32, u32> = ResultCache::new(4, None, EvictionPolicy::Fifo);
    cache.record(1, 10, 0);
    assert_eq!(cache.lookup(&1, u64::MAX), Some(&10));
}

#[test]
fn a_zero_ttl_expires_everything() {
    let mut cache: ResultCache<u32, u32> = ResultCache::new(4, Some(0), EvictionPolicy::Arc);
    cache.record(1, 10, 5);
    assert_eq!(cache.lookup(&1, 5), None);
}

#[test]
fn counts_can_grow_for_fresh_keys() {
    let cache: ResultCache<u32, u32> = ResultCache::new(4, None, EvictionPolicy::Lfu);
    assert!(cache.can_count(&1));
}
