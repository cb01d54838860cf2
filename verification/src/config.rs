//! Cache configuration.

use core::time::Duration;
use vstd::prelude::*;

verus! {

/// Default cache capacity: the number of distinct recent searches whose results
/// are kept resident when no explicit capacity is given.
pub const DEFAULT_CAPACITY: usize = 1024;

/// Which entry an eviction discards when the cache is full.
///
/// All four keep the cache within capacity and never affect which value a key
/// maps to, only which keys stay resident. `Lru` is the default.
#[derive(Clone, Copy, Debug, PartialEq, Eq, Hash, Default)]
#[non_exhaustive]
pub enum EvictionPolicy {
    /// Evict the least-recently-used entry.
    #[default]
    Lru,
    /// Evict the least-frequently-used entry (ties: least recently used).
    Lfu,
    /// Evict the oldest inserted entry, ignoring access.
    Fifo,
    /// Adaptive replacement: balance recency and frequency with ghost lists.
    Arc,
}

/// Tuning for a cached index: capacity, an optional time-to-live, and the
/// eviction policy, as taken by the `ResultCache` that backs it.
///
/// Build one with [`CacheConfig::new`] and the chaining setters. Every setting
/// has a default, so `CacheConfig::new()` alone is a valid config.
#[derive(Clone, Debug, PartialEq, Eq)]
pub struct CacheConfig {
    /// Maximum number of distinct cached searches.
    pub capacity: usize,
    /// Optional per-entry time-to-live.
    pub ttl: Option<Duration>,
    /// Which entry to evict when full.
    pub policy: EvictionPolicy,
}

impl CacheConfig {
    /// A configuration with the default capacity (1024), no TTL, and LRU
    /// eviction.
    pub fn new() -> (r: Self)
        ensures
            r.capacity == DEFAULT_CAPACITY,
            r.ttl is None,
            r.policy == EvictionPolicy::Lru,
    {
        Self { capacity: DEFAULT_CAPACITY, ttl: None, policy: EvictionPolicy::Lru }
    }

    /// Sets the maximum number of distinct cached searches.
    ///
    /// A `capacity` of `0` disables caching: searches pass straight through.
    pub fn capacity(self, capacity: usize) -> (r: Self)
        ensures
            r.capacity == capacity,
            r.ttl == self.ttl,
            r.policy == self.policy,
    {
        let mut s = self;
        s.capacity = capacity;
        s
    }

    /// Sets a per-entry time-to-live: a cached result older than `ttl` is
    /// treated as a miss and recomputed.
    pub fn ttl(self, ttl: Duration) -> (r: Self)
        ensures
            r.capacity == self.capacity,
            r.ttl == Some(ttl),
            r.policy == self.policy,
    {
        let mut s = self;
        s.ttl = Some(ttl);
        s
    }

    /// Clears any previously set TTL, so cached results never expire on time
    /// (only on mutation).
    pub fn no_ttl(self) -> (r: Self)
        ensures
            r.capacity == self.capacity,
            r.ttl is None,
            r.policy == self.policy,
    {
        let mut s = self;
        s.ttl = None;
        s
    }

    /// Sets which entry is evicted when the cache is full.
    pub fn policy(self, policy: EvictionPolicy) -> (r: Self)
        ensures
            r.capacity == self.capacity,
            r.ttl == self.ttl,
            r.policy == policy,
    {
        let mut s = self;
        s.policy = policy;
        s
    }
}

impl Default for CacheConfig {
    fn default() -> (r: Self)
        ensures
            r.capacity == DEFAULT_CAPACITY,
            r.ttl is None,
            r.policy == EvictionPolicy::Lru,
    {
        Self::new()
    }
}

} // verus!
