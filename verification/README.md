# iqdb-cache

The bounded result caches behind an in-process search cache for the iqdb
vector-database family, written in Verus and proved against their contracts.

## Layout

- `src/` — the verified library.
  - `ordered.rs` — `OrderedMap`, an arena-backed hash map threaded on a
    doubly-linked recency list (insert at the front, promote, remove, pop
    the back).
  - `lru.rs` — `LruCache`, a fixed-capacity least-recently-used map that
    recycles its tail slot on eviction.
  - `policy.rs` — the eviction policies (`RecencyCache` for LRU and FIFO,
    `LfuCache`, `ArcCache`) and `PolicyCache`, which dispatches over them.
  - `arc_model.rs` — the adaptive replacement cache as a function on its four
    lists, with its invariant.
  - `cached.rs` — `ResultCache`, the decisions of a cache wrapped around an
    index: what a lookup answers, what a finished search stores, which
    writes drop the memoized results, when a result has outlived its
    time-to-live, and how searches are counted as hits, misses and
    evictions. It keeps its results under any of the eviction policies.
  - `config.rs`, `stats.rs` — `CacheConfig`, `EvictionPolicy`, `CacheStats`.
  - `model.rs`, `links.rs` — the shared mathematical vocabulary: ordered
    lists of `(key, value)` pairs, and index-linked lists over an arena.
- `app/` — `CachedIndex`, the `iqdb_index::IndexCore` wrapper that forwards to
  the wrapped index, reads the clock and consults `ResultCache`; the float-keyed `ResultKey`;
  the hit rate; a serializable copy of `CacheStats`.
- `tests/` — unit and scenario tests of the library.

Each cache is described by a view (its entries as an ordered sequence or
map) and a well-formedness predicate that every operation preserves; the
laws that relate operations (capacity bound, a lookup returns the value last
stored, `put` reports an eviction exactly when one other key left, a cache
that agrees with its index keeps agreeing through lookups, stores and
writes) are public proof functions.
