use std::time::Duration;

use iqdb_cache::{CacheConfig, CacheStats, EvictionPolicy, DEFAULT_CAPACITY};

#[test]
fn config_defaults_and_builders() {
    let config = CacheConfig::new();
    assert_eq!(config.capacity, DEFAULT_CAPACITY);
    assert_eq!(config.capacity, 1024);
    assert_eq!(config.ttl, None);
    assert_eq!(config.policy, EvictionPolicy::Lru);
    assert_eq!(CacheConfig::default(), CacheConfig::new());

    let tuned = CacheConfig::new().capacity(4096).ttl(Duration::from_secs(30));
    assert_eq!(tuned.capacity, 4096);
    assert_eq!(tuned.ttl, Some(Duration::from_secs(30)));

    let cleared = tuned.clone().no_ttl();
    assert_eq!(cleared.capacity, 4096);
    assert_eq!(cleared.ttl, None);

    let off = CacheConfig::new().capacity(0);
    assert_eq!(off.capacity, 0);

    let lfu = CacheConfig::new().policy(EvictionPolicy::Lfu).capacity(8);
    assert_eq!(lfu.policy, EvictionPolicy::Lfu);
    assert_eq!(lfu.capacity, 8);
    assert_eq!(lfu.clone().ttl(Duration::from_secs(1)).policy, EvictionPolicy::Lfu);
}

#[test]
fn default_policy_is_lru_variant() {
    assert_eq!(EvictionPolicy::default(), EvictionPolicy::Lru);
}

#[test]
fn lookups_add_hits_and_misses() {
    let stats = CacheStats { hits: 75, misses: 25, evictions: 0, len: 64, capacity: 128 };
    assert_eq!(stats.lookups(), 100);
    let small = CacheStats { hits: 3, misses: 1, evictions: 0, len: 4, capacity: 8 };
    assert_eq!(small.lookups(), 4);
}

#[test]
fn lookups_saturate() {
    let stats = CacheStats { hits: u64::MAX - 1, misses: 5, evictions: 0, len: 0, capacity: 0 };
    assert_eq!(stats.lookups(), u64::MAX);
}

#[test]
fn lookups_ignore_evictions() {
    let stats = CacheStats { hits: 90, misses: 10, evictions: 5, len: 64, capacity: 128 };
    assert_eq!(stats.lookups(), 100);
}
