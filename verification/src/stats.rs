//! Cache hit/miss accounting.

use vstd::prelude::*;

verus! {

/// A point-in-time snapshot of a cache.
///
/// `hits`, `misses` and `evictions` are monotonic counters over the cache's
/// lifetime; `len` and `capacity` describe its current occupancy.
#[derive(Debug, Clone, Copy, PartialEq, Eq)]
pub struct CacheStats {
    /// Lookups served from the cache.
    pub hits: u64,
    /// Lookups that missed and fell through to the wrapped index.
    pub misses: u64,
    /// Entries the policy discarded to make room.
    pub evictions: u64,
    /// Entries currently held.
    pub len: usize,
    /// Maximum entries the cache will hold; `0` means caching is disabled.
    pub capacity: usize,
}

impl CacheStats {
    /// Total lookups observed: `hits + misses`, saturating at `u64::MAX`.
    pub fn lookups(&self) -> (r: u64)
        ensures
            r == if self.hits + self.misses <= u64::MAX {
                (self.hits + self.misses) as u64
            } else {
                u64::MAX
            },
    {
        self.hits.saturating_add(self.misses)
    }
}

} // verus!
