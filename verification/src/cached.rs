//! The decisions of a search-result cache wrapped around an index.
//!
//! The wrapper itself (app side) forwards every call to the wrapped index
//! and reads the clock; what it decides is kept here: whether caching is on,
//! what a lookup answers (a fresh memoized result, or nothing), what a
//! finished search stores, which mutations drop the cached results, and how
//! hits, misses and evictions are counted. Keys are whatever identifies a
//! search exactly (the query and every parameter that can change its
//! outcome); results are the answers the index gave. Times are ticks of the
//! wrapper's monotonic clock.

use std::hash::Hash;
use vstd::prelude::*;
use vstd::std_specs::hash::obeys_key_model;
use crate::config::EvictionPolicy;
use crate::policy::PolicyCache;
use crate::stats::CacheStats;

verus! {

/// A write made through the wrapper.
#[derive(Clone, Copy, Debug, PartialEq, Eq)]
pub enum Mutation {
    /// One `insert`: changes nothing when it fails.
    Insert,
    /// One `insert_batch`: fail-fast and possibly partial, so any outcome
    /// may have changed the index.
    InsertBatch,
    /// One `delete`: changes nothing when it fails.
    Delete,
}

/// Whether the index may have changed after `mutation` with this outcome.
pub open spec fn may_change(mutation: Mutation, succeeded: bool) -> bool {
    mutation is InsertBatch || succeeded
}

/// A counter after one more event: it wraps to `0` past `u64::MAX`.
pub open spec fn tick(n: u64) -> u64 {
    if n == u64::MAX {
        0
    } else {
        (n + 1) as u64
    }
}

/// Counts one more event, wrapping past `u64::MAX`.
fn next_count(n: u64) -> (r: u64)
    ensures
        r == tick(n),
{
    if n == u64::MAX {
        0
    } else {
        n + 1
    }
}

/// The age at `now` of a result stored at `stamp` (`0` if the clock reads
/// earlier than the stamp).
pub open spec fn age(stamp: u64, now: u64) -> int {
    if now >= stamp {
        now - stamp
    } else {
        0
    }
}

/// Whether a result stored at `stamp` may still be served at `now`: always
/// without a time-to-live; with one, while its age is below it.
pub open spec fn fresh(stamp: u64, now: u64, ttl: Option<u64>) -> bool {
    match ttl {
        None => true,
        Some(d) => age(stamp, now) < d,
    }
}

/// What a lookup serves from the stored entry: its result while fresh.
pub open spec fn served<R>(entry: Option<(R, u64)>, now: u64, ttl: Option<u64>) -> Option<R> {
    match entry {
        Some(e) => if fresh(e.1, now, ttl) {
            Some(e.0)
        } else {
            None
        },
        None => None,
    }
}

/// Whether a result stored at `stamp` may still be served at `now`.
fn is_fresh(stamp: u64, now: u64, ttl: Option<u64>) -> (r: bool)
    ensures
        r == fresh(stamp, now, ttl),
{
    match ttl {
        None => true,
        Some(d) => {
            let age = if now >= stamp {
                now - stamp
            } else {
                0
            };
            age < d
        },
    }
}

/// The memoized results of a wrapped index: a bounded map from search key to
/// the index's answer and the time it was stored, kept under the configured
/// eviction policy, with an optional time-to-live and the hit, miss and
/// eviction counts of the searches made through it. A capacity of `0`
/// disables caching.
pub struct ResultCache<K, R> {
    entries: PolicyCache<K, (R, u64)>,
    capacity: usize,
    ttl: Option<u64>,
    policy: EvictionPolicy,
    hits: u64,
    misses: u64,
    evictions: u64,
}

impl<K, R> ResultCache<K, R> {
    /// The policy cache holding each memoized result with its store time.
    pub closed spec fn store(&self) -> PolicyCache<K, (R, u64)> {
        self.entries
    }

    /// The configured capacity.
    pub closed spec fn capacity_spec(&self) -> nat {
        self.capacity as nat
    }

    /// The configured time-to-live, in clock ticks.
    pub closed spec fn ttl_spec(&self) -> Option<u64> {
        self.ttl
    }

    /// Searches answered from the cache.
    pub closed spec fn hit_count(&self) -> u64 {
        self.hits
    }

    /// Searches that ran against the index and succeeded.
    pub closed spec fn miss_count(&self) -> u64 {
        self.misses
    }

    /// Results the policy discarded to make room.
    pub closed spec fn eviction_count(&self) -> u64 {
        self.evictions
    }
}

impl<K: Hash + Eq + Clone, R> ResultCache<K, R> {
    /// The internal invariant.
    pub closed spec fn wf(&self) -> bool {
        &&& self.entries.wf()
        &&& self.entries.capacity() == self.capacity
        &&& self.entries.policy() == self.policy
    }

    /// The configured eviction policy.
    pub open spec fn policy_spec(&self) -> EvictionPolicy {
        self.store().policy()
    }

    /// The number of memoized results.
    pub open spec fn size(&self) -> nat {
        self.store().size()
    }

    /// The result memoized for `k`, whatever its age.
    pub open spec fn stored(&self, k: K) -> Option<R> {
        match self.store().cached(k) {
            Some(e) => Some(e.0),
            None => None,
        }
    }

    /// A lookup of `k` is defined: under LFU its hit count must not overflow.
    pub open spec fn can_lookup(&self, k: K) -> bool {
        self.store().can_get(k)
    }

    /// Recording a result for `k` is defined: under LFU its hit count must not
    /// overflow.
    pub open spec fn can_record(&self, k: K) -> bool {
        self.store().can_put(k)
    }

    /// Every memoized result is what `answer` gives for its key: the cache
    /// agrees with the index whose searches `answer` describes.
    pub open spec fn faithful(&self, answer: spec_fn(K) -> R) -> bool {
        forall|k: K| #[trigger] self.stored(k) is Some ==> self.stored(k) == Some(answer(k))
    }

    /// Capacity, time-to-live and policy are unchanged.
    pub open spec fn same_config(old: Self, new: Self) -> bool {
        &&& new.capacity_spec() == old.capacity_spec()
        &&& new.ttl_spec() == old.ttl_spec()
        &&& new.policy_spec() == old.policy_spec()
    }

    /// What a lookup at time `now` does: caching off answers nothing and
    /// changes nothing; otherwise the stored entry is read under the policy's
    /// access rule, and its result is served while fresh. A served result is
    /// counted as a hit; a miss is counted only once the search has run
    /// (`record`).
    pub open spec fn lookup_post(old: Self, new: Self, key: K, now: u64, r: Option<R>) -> bool {
        &&& Self::same_config(old, new)
        &&& new.miss_count() == old.miss_count()
        &&& new.eviction_count() == old.eviction_count()
        &&& new.hit_count() == if r is Some {
            tick(old.hit_count())
        } else {
            old.hit_count()
        }
        &&& if old.capacity_spec() == 0 {
            r is None && new.store() == old.store()
        } else {
            exists|e: Option<(R, u64)>|
                #![trigger PolicyCache::get_post(old.store(), new.store(), key, e)]
                PolicyCache::get_post(old.store(), new.store(), key, e) && r == served(e, now, old.ttl_spec())
        }
    }

    /// What recording `(key, result)` at time `now` does: the search that
    /// produced it counts as a miss; with caching off nothing is stored;
    /// otherwise the policy stores it stamped `now`, and `evicted` tells
    /// whether another result was discarded to make room, which is counted.
    pub open spec fn record_post(old: Self, new: Self, key: K, result: R, now: u64, evicted: bool) -> bool {
        &&& Self::same_config(old, new)
        &&& new.hit_count() == old.hit_count()
        &&& new.miss_count() == tick(old.miss_count())
        &&& new.eviction_count() == if evicted {
            tick(old.eviction_count())
        } else {
            old.eviction_count()
        }
        &&& if old.capacity_spec() == 0 {
            !evicted && new.store() == old.store()
        } else {
            PolicyCache::put_post(old.store(), new.store(), key, (result, now), evicted)
        }
    }

    /// An empty LRU cache of at most `capacity` results without a
    /// time-to-live; `0` disables caching.
    pub fn with_capacity(capacity: usize) -> (r: Self)
        requires
            obeys_key_model::<K>(),
        ensures
            r.wf(),
            r.size() == 0,
            forall|k: K| #[trigger] r.stored(k) is None,
            r.capacity_spec() == capacity,
            r.ttl_spec() is None,
            r.policy_spec() == EvictionPolicy::Lru,
            r.hit_count() == 0,
            r.miss_count() == 0,
            r.eviction_count() == 0,
    {
        Self::new(capacity, None, EvictionPolicy::Lru)
    }

    /// An empty cache of at most `capacity` results under `policy`, whose
    /// results expire `ttl` ticks after they were stored when a time-to-live
    /// is given; a capacity of `0` disables caching.
    pub fn new(capacity: usize, ttl: Option<u64>, policy: EvictionPolicy) -> (r: Self)
        requires
            obeys_key_model::<K>(),
            policy == EvictionPolicy::Arc ==> capacity <= usize::MAX / 2,
        ensures
            r.wf(),
            r.size() == 0,
            forall|k: K| #[trigger] r.stored(k) is None,
            r.capacity_spec() == capacity,
            r.ttl_spec() == ttl,
            r.policy_spec() == policy,
            r.hit_count() == 0,
            r.miss_count() == 0,
            r.eviction_count() == 0,
    {
        let r = ResultCache {
            entries: PolicyCache::new(policy, capacity),
            capacity,
            ttl,
            policy,
            hits: 0,
            misses: 0,
            evictions: 0,
        };
        proof {
            assert forall|k: K| #[trigger] r.stored(k) is None by {
                assert(r.entries.cached(k) is None);
            }
        }
        r
    }

    /// The configured capacity. `0` means caching is disabled.
    pub fn capacity(&self) -> (r: usize)
        ensures
            r == self.capacity_spec(),
    {
        self.capacity
    }

    /// The configured time-to-live, in clock ticks.
    pub fn ttl(&self) -> (r: Option<u64>)
        ensures
            r == self.ttl_spec(),
    {
        self.ttl
    }

    /// The configured eviction policy.
    pub fn policy(&self) -> (r: EvictionPolicy)
        requires
            self.wf(),
        ensures
            r == self.policy_spec(),
    {
        self.policy
    }

    /// Whether caching is active (`capacity > 0`).
    pub fn is_enabled(&self) -> (r: bool)
        ensures
            r == (self.capacity_spec() > 0),
    {
        self.capacity > 0
    }

    /// The number of memoized results.
    pub fn len(&self) -> (r: usize)
        requires
            self.wf(),
        ensures
            r == self.size(),
    {
        self.entries.len()
    }

    /// Whether one more lookup and one more record of `key` are defined:
    /// under LFU the key's hit count must not overflow.
    pub fn can_count(&self, key: &K) -> (r: bool)
        requires
            self.wf(),
        ensures
            r == self.can_lookup(*key),
            r == self.can_record(*key),
    {
        self.entries.can_count(key)
    }

    /// Looks up the memoized result of a search at time `now`. `None` means
    /// the search must run against the index (a miss, an expired result, or
    /// caching is off).
    pub fn lookup(&mut self, key: &K, now: u64) -> (r: Option<&R>)
        requires
            old(self).wf(),
            old(self).can_lookup(*key),
        ensures
            final(self).wf(),
            Self::lookup_post(*old(self), *final(self), *key, now, match r {
                Some(v) => Some(*v),
                None => None,
            }),
    {
        if self.capacity == 0 {
            return None;
        }
        let ttl = self.ttl;
        match self.entries.get(key) {
            Some(entry) => {
                if is_fresh(entry.1, now, ttl) {
                    self.hits = next_count(self.hits);
                    Some(&entry.0)
                } else {
                    None
                }
            },
            None => None,
        }
    }

    /// Memoizes, stamped `now`, the result of a search that ran against the
    /// index, and counts the search as a miss. With caching off nothing is
    /// stored. Returns whether another result was evicted to make room.
    pub fn record(&mut self, key: K, result: R, now: u64) -> (evicted: bool)
        requires
            old(self).wf(),
            old(self).can_record(key),
        ensures
            final(self).wf(),
            Self::record_post(*old(self), *final(self), key, result, now, evicted),
    {
        self.misses = next_count(self.misses);
        if self.capacity == 0 {
            return false;
        }
        let evicted = self.entries.put(key, (result, now));
        if evicted {
            self.evictions = next_count(self.evictions);
        }
        evicted
    }

    /// Counts a search that bypassed the disabled cache: it ran against the
    /// index, so it is a miss, and nothing is stored.
    pub fn count_passthrough(&mut self)
        requires
            old(self).wf(),
        ensures
            final(self).wf(),
            final(self).store() == old(self).store(),
            Self::same_config(*old(self), *final(self)),
            final(self).hit_count() == old(self).hit_count(),
            final(self).miss_count() == tick(old(self).miss_count()),
            final(self).eviction_count() == old(self).eviction_count(),
    {
        self.misses = next_count(self.misses);
    }

    /// A snapshot of the hit, miss and eviction counts and of the occupancy.
    pub fn stats(&self) -> (r: CacheStats)
        requires
            self.wf(),
        ensures
            r.hits == self.hit_count(),
            r.misses == self.miss_count(),
            r.evictions == self.eviction_count(),
            r.len == self.size(),
            r.capacity == self.capacity_spec(),
    {
        CacheStats {
            hits: self.hits,
            misses: self.misses,
            evictions: self.evictions,
            len: self.entries.len(),
            capacity: self.capacity,
        }
    }

    /// Drops every memoized result; the counters and configuration stay.
    pub fn clear(&mut self)
        requires
            old(self).wf(),
        ensures
            final(self).wf(),
            final(self).size() == 0,
            forall|k: K| #[trigger] final(self).stored(k) is None,
            Self::same_config(*old(self), *final(self)),
            final(self).hit_count() == old(self).hit_count(),
            final(self).miss_count() == old(self).miss_count(),
            final(self).eviction_count() == old(self).eviction_count(),
    {
        self.entries.clear();
        proof {
            assert forall|k: K| #[trigger] self.stored(k) is None by {
                assert(self.entries.cached(k) is None);
            }
        }
    }

    /// Keeps the cache honest after a write made through the wrapper: a
    /// write that may have changed the index drops every memoized result; a
    /// failed `insert` or `delete` changes nothing, so the cache is kept.
    /// Returns whether the cache was dropped.
    pub fn after_mutation(&mut self, mutation: Mutation, succeeded: bool) -> (r: bool)
        requires
            old(self).wf(),
        ensures
            final(self).wf(),
            r == may_change(mutation, succeeded),
            r ==> final(self).size() == 0 && forall|k: K| #[trigger] final(self).stored(k) is None,
            !r ==> final(self).store() == old(self).store(),
            Self::same_config(*old(self), *final(self)),
            final(self).hit_count() == old(self).hit_count(),
            final(self).miss_count() == old(self).miss_count(),
            final(self).eviction_count() == old(self).eviction_count(),
    {
        let drop_all = match mutation {
            Mutation::InsertBatch => true,
            Mutation::Insert | Mutation::Delete => succeeded,
        };
        if drop_all {
            self.clear();
        }
        drop_all
    }

    /// A lookup serves the stored result for `key` exactly when caching is on
    /// and that result is still fresh, and changes no stored result.
    pub proof fn lemma_lookup_law(old: Self, new: Self, key: K, now: u64, r: Option<R>)
        requires
            old.wf(),
            Self::lookup_post(old, new, key, now, r),
        ensures
            r == if old.capacity_spec() == 0 {
                None
            } else {
                served(old.store().cached(key), now, old.ttl_spec())
            },
            forall|k: K| #[trigger] new.stored(k) == old.stored(k),
            new.size() == old.size(),
    {
        if old.capacity_spec() > 0 {
            let e = choose|e: Option<(R, u64)>|
                #![trigger PolicyCache::get_post(old.store(), new.store(), key, e)]
                PolicyCache::get_post(old.store(), new.store(), key, e) && r == served(e, now, old.ttl_spec());
            PolicyCache::lemma_get_law(old.store(), new.store(), key, e);
            assert forall|k: K| #[trigger] new.stored(k) == old.stored(k) by {
                assert(new.store().cached(k) == old.store().cached(k));
            }
        }
    }

    /// A lookup serves only what is stored for `key`, and a time-to-live `d`
    /// bounds the age of what it serves: a result stored at `stamp <= now` is
    /// served at `now` exactly when caching is on and `now - stamp < d` (or
    /// there is no time-to-live). No result whose age has reached `d` is ever
    /// served, whatever that age.
    pub proof fn lemma_lookup_ttl(old: Self, new: Self, key: K, now: u64, r: Option<R>)
        requires
            old.wf(),
            Self::lookup_post(old, new, key, now, r),
        ensures
            r is Some ==> old.capacity_spec() > 0 && old.store().cached(key) is Some && r == Some(
                old.store().cached(key).unwrap().0,
            ),
            r is Some && old.ttl_spec() is Some && old.store().cached(key) is Some && old.store().cached(
                key,
            ).unwrap().1 <= now ==> now - old.store().cached(key).unwrap().1 < old.ttl_spec().unwrap(),
            old.capacity_spec() > 0 && old.store().cached(key) is Some && old.store().cached(key).unwrap().1 <= now
                && (old.ttl_spec() is None || now - old.store().cached(key).unwrap().1 < old.ttl_spec().unwrap())
                ==> r == Some(old.store().cached(key).unwrap().0),
            old.capacity_spec() == 0 || old.store().cached(key) is None ==> r is None,
    {
        Self::lemma_lookup_law(old, new, key, now, r);
    }

    /// An empty cache agrees with every index.
    pub proof fn lemma_empty_faithful(&self, answer: spec_fn(K) -> R)
        requires
            forall|k: K| #[trigger] self.stored(k) is None,
        ensures
            self.faithful(answer),
    {
    }

    /// A cache that agrees with the index answers every lookup with what the
    /// index would answer, and still agrees afterwards.
    pub proof fn lemma_lookup_faithful(old: Self, new: Self, key: K, now: u64, r: Option<R>, answer: spec_fn(K) -> R)
        requires
            old.wf(),
            old.faithful(answer),
            Self::lookup_post(old, new, key, now, r),
        ensures
            new.faithful(answer),
            r is Some ==> r == Some(answer(key)),
    {
        Self::lemma_lookup_law(old, new, key, now, r);
        if r is Some {
            assert(old.stored(key) is Some);
        }
    }

    /// Recording what the index answered keeps the cache in agreement.
    pub proof fn lemma_record_faithful(
        old: Self,
        new: Self,
        key: K,
        now: u64,
        evicted: bool,
        answer: spec_fn(K) -> R,
    )
        requires
            old.wf(),
            old.can_record(key),
            old.faithful(answer),
            Self::record_post(old, new, key, answer(key), now, evicted),
        ensures
            new.faithful(answer),
    {
        if old.capacity_spec() > 0 {
            PolicyCache::lemma_put_law(old.store(), new.store(), key, (answer(key), now), evicted);
            assert forall|k: K| #[trigger] new.stored(k) is Some implies new.stored(k) == Some(answer(k)) by {
                if k != key {
                    if !evicted {
                        assert(new.store().cached(k) == old.store().cached(k));
                        assert(new.stored(k) == old.stored(k));
                    } else {
                        let e = choose|e: K|
                            e != key && old.store().cached(e) is Some && new.store().cached(e) is None && forall|
                                kk: K,
                            | kk != key && kk != e ==> #[trigger] new.store().cached(kk) == old.store().cached(kk);
                        if k != e {
                            assert(new.store().cached(k) == old.store().cached(k));
                            assert(new.stored(k) == old.stored(k));
                        }
                    }
                }
            }
        } else {
            assert forall|k: K| #[trigger] new.stored(k) is Some implies new.stored(k) == Some(answer(k)) by {
                assert(new.stored(k) == old.stored(k));
            }
        }
    }

    /// A search repeated while its recorded answer is still fresh is a hit
    /// that serves what was recorded: the first run counts one miss, the
    /// repeat one hit.
    pub proof fn lemma_repeat_hits(
        old: Self,
        mid: Self,
        new: Self,
        key: K,
        result: R,
        now: u64,
        later: u64,
        evicted: bool,
        r: Option<R>,
    )
        requires
            old.wf(),
            old.can_record(key),
            old.capacity_spec() > 0,
            Self::record_post(old, mid, key, result, now, evicted),
            mid.wf(),
            Self::lookup_post(mid, new, key, later, r),
            fresh(now, later, old.ttl_spec()),
        ensures
            r == Some(result),
            new.hit_count() == tick(old.hit_count()),
            new.miss_count() == tick(old.miss_count()),
    {
        PolicyCache::lemma_put_law(old.store(), mid.store(), key, (result, now), evicted);
        Self::lemma_lookup_law(mid, new, key, later, r);
    }

    /// No stale result survives a write: if the cache agreed with the index
    /// before, and the index after the write is described by `after` (the
    /// same as `before` whenever the write could not have changed it), the
    /// cache agrees with the index after the write.
    pub proof fn lemma_mutation_faithful(
        old: Self,
        new: Self,
        mutation: Mutation,
        succeeded: bool,
        before: spec_fn(K) -> R,
        after: spec_fn(K) -> R,
    )
        requires
            old.faithful(before),
            !may_change(mutation, succeeded) ==> after == before,
            may_change(mutation, succeeded) ==> forall|k: K| #[trigger] new.stored(k) is None,
            !may_change(mutation, succeeded) ==> new.store() == old.store(),
        ensures
            new.faithful(after),
    {
        if !may_change(mutation, succeeded) {
            assert forall|k: K| #[trigger] new.stored(k) is Some implies new.stored(k) == Some(after(k)) by {
                assert(new.stored(k) == old.stored(k));
            }
        }
    }

    /// A well-formed cache keeps its results in a well-formed policy cache of
    /// its capacity, and so holds at most that many.
    pub proof fn lemma_wf(&self)
        requires
            self.wf(),
        ensures
            self.store().wf(),
            self.store().capacity() == self.capacity_spec(),
            self.size() <= self.capacity_spec(),
    {
        self.entries.lemma_bounded();
    }
}

} // verus!
