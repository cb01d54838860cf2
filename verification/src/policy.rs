//! The eviction policies, and the [`PolicyCache`] that dispatches over them.
//!
//! Each policy is a bounded key-to-value cache with the same small interface:
//! `get`, `put`, `clear`, `len`, built on the [`OrderedMap`] primitive. They
//! differ only in which entry `put` discards when the cache is full:
//!
//! - **LRU / FIFO** ([`RecencyCache`]) share one recency-ordered list; LRU
//!   promotes on access, FIFO does not.
//! - **LFU** ([`LfuCache`]) groups keys into frequency buckets and evicts from
//!   the least-frequent one, breaking ties by least-recently-used.
//! - **ARC** ([`ArcCache`]) keeps recency and frequency lists plus ghost lists
//!   and adapts the balance between them.
//!
//! `put` returns `true` when it discarded a previously cached value.

use std::collections::HashMap;
use std::hash::Hash;
use vstd::prelude::*;
use vstd::std_specs::hash::obeys_key_model;
use crate::model::{clone_key, has_key, key_index, lemma_drop_last, lemma_key_index, lemma_lookup_drop_last, lemma_lookup_promote, lemma_lookup_push, lemma_lookup_update, lemma_lookup_without, lemma_push_front, lemma_without, lookup, promote, without};
use crate::ordered::OrderedMap;
use crate::arc_model::{ArcLists, arc_cached, arc_get, arc_inv, arc_put, arc_replace, disjoint, lemma_arc_get, lemma_arc_put, lemma_arc_put_cached, lemma_replace_ok, lists_ok};
use crate::config::EvictionPolicy;

verus! {

/// A bounded recency cache covering both LRU and FIFO.
///
/// LRU promotes an entry to most-recently-used on a `get`, FIFO leaves order
/// untouched, so FIFO evicts strictly in insertion order.
pub struct RecencyCache<K, V> {
    map: OrderedMap<K, V>,
    capacity: usize,
    /// Whether a `get` promotes the entry (LRU) or not (FIFO).
    touch_on_get: bool,
}

impl<K, V> RecencyCache<K, V> {
    /// The entries, most recently touched (or inserted) first.
    pub closed spec fn view(&self) -> Seq<(K, V)> {
        self.map@
    }

    /// The bound on the number of entries.
    pub closed spec fn capacity(&self) -> nat {
        self.capacity as nat
    }

    /// Whether a hit promotes its entry (LRU) rather than leaving it (FIFO).
    pub closed spec fn touches_on_get(&self) -> bool {
        self.touch_on_get
    }

    /// The internal invariant.
    pub closed spec fn wf(&self) -> bool {
        &&& self.map.wf()
        &&& self.map@.len() <= self.capacity
    }

    /// What a `get` of `key` does: the answer is the stored value, and on a
    /// hit LRU moves the entry to the front while FIFO leaves the order alone.
    pub open spec fn get_post(old: Self, new: Self, key: K, r: Option<V>) -> bool {
        &&& r == lookup(old@, key)
        &&& new@ == if old.touches_on_get() && has_key(old@, key) {
            promote(old@, key)
        } else {
            old@
        }
        &&& new.capacity() == old.capacity()
        &&& new.touches_on_get() == old.touches_on_get()
    }

    /// What a `put` of `(key, val)` does, and whether it evicted.
    pub open spec fn put_post(old: Self, new: Self, key: K, val: V, r: bool) -> bool {
        &&& new.capacity() == old.capacity()
        &&& new.touches_on_get() == old.touches_on_get()
        &&& if old.capacity() == 0 {
            !r && new@ == old@
        } else if has_key(old@, key) {
            &&& !r
            &&& new@ == if old.touches_on_get() {
                seq![(key, val)] + without(old@, key)
            } else {
                old@.update(key_index(old@, key), (key, val))
            }
        } else if old@.len() == old.capacity() {
            r && new@ == (seq![(key, val)] + old@).drop_last()
        } else {
            !r && new@ == seq![(key, val)] + old@
        }
    }
}

impl<K: Hash + Eq + Clone, V> RecencyCache<K, V> {
    /// The value cached under `k`.
    pub open spec fn cached(&self, k: K) -> Option<V> {
        lookup(self@, k)
    }

    /// A `get` answers the cached value and changes no cached value.
    pub proof fn lemma_get_law(old: Self, new: Self, key: K, r: Option<V>)
        requires
            old.wf(),
            Self::get_post(old, new, key, r),
        ensures
            r == old.cached(key),
            forall|k: K| #[trigger] new.cached(k) == old.cached(k),
    {
        old.map.lemma_wf();
        if old.touches_on_get() && has_key(old@, key) {
            assert forall|k: K| #[trigger] new.cached(k) == old.cached(k) by {
                lemma_lookup_promote(old@, key, k);
            }
        }
    }

    /// A `put` caches `(key, val)` when the capacity allows, and reports an
    /// eviction exactly when one other cached key left.
    pub proof fn lemma_put_law(old: Self, new: Self, key: K, val: V, r: bool)
        requires
            old.wf(),
            Self::put_post(old, new, key, val, r),
        ensures
            old.capacity() > 0 ==> new.cached(key) == Some(val),
            !r ==> forall|k: K| k != key ==> #[trigger] new.cached(k) == old.cached(k),
            r ==> exists|e: K|
                e != key && old.cached(e) is Some && new.cached(e) is None && forall|k: K|
                    k != key && k != e ==> #[trigger] new.cached(k) == old.cached(k),
    {
        old.map.lemma_wf();
        let s = old@;
        if old.capacity() == 0 {
        } else if has_key(s, key) {
            if old.touches_on_get() {
                lemma_without(s, key);
                assert forall|k: K| #[trigger] new.cached(k) == if k == key { Some(val) } else { old.cached(k) } by {
                    lemma_lookup_push(without(s, key), (key, val), k);
                    lemma_lookup_without(s, key, k);
                }
            } else {
                let i = key_index(s, key);
                lemma_key_index(s, choose|w: int| 0 <= w < s.len() && #[trigger] s[w].0 == key);
                assert forall|k: K| #[trigger] new.cached(k) == if k == key { Some(val) } else { old.cached(k) } by {
                    lemma_lookup_update(s, i, val, k);
                }
            }
        } else if s.len() == old.capacity() {
            let e = s.last().0;
            lemma_drop_last(s);
            lemma_push_front(s.drop_last(), (key, val));
            assert((seq![(key, val)] + s).drop_last() =~= seq![(key, val)] + s.drop_last());
            assert forall|k: K| #[trigger] new.cached(k) == if k == key { Some(val) } else if k == e { None } else { old.cached(k) } by {
                lemma_lookup_push(s.drop_last(), (key, val), k);
                lemma_lookup_drop_last(s, k);
            }
            crate::model::lemma_lookup_at(s, s.len() - 1);
            assert(s[s.len() - 1].0 == e);
            assert(e != key);
            assert(old.cached(e) is Some && new.cached(e) is None);
            assert(forall|k: K| k != key && k != e ==> #[trigger] new.cached(k) == old.cached(k));
        } else {
            assert forall|k: K| #[trigger] new.cached(k) == if k == key { Some(val) } else { old.cached(k) } by {
                lemma_lookup_push(s, (key, val), k);
            }
        }
    }

    /// An empty cache bounded by `capacity`.
    pub fn new(capacity: usize, touch_on_get: bool) -> (r: Self)
        requires
            obeys_key_model::<K>(),
        ensures
            r.wf(),
            r@ == Seq::<(K, V)>::empty(),
            r.capacity() == capacity,
            r.touches_on_get() == touch_on_get,
    {
        Self { map: OrderedMap::with_capacity(capacity), capacity, touch_on_get }
    }

    /// Looks up `key`, promoting it on a hit when this is LRU.
    pub fn get(&mut self, key: &K) -> (r: Option<&V>)
        requires
            old(self).wf(),
        ensures
            final(self).wf(),
            Self::get_post(*old(self), *final(self), *key, match r {
                Some(v) => Some(*v),
                None => None,
            }),
    {
        // One hash probe: promote on access for LRU, leave order alone for FIFO.
        let r = self.map.access(key, self.touch_on_get);
        proof {
            old(self).map.lemma_wf();
        }
        r
    }

    /// Inserts or updates `key`. Returns `true` when a resident entry was
    /// evicted to make room.
    pub fn put(&mut self, key: K, val: V) -> (r: bool)
        requires
            old(self).wf(),
        ensures
            final(self).wf(),
            Self::put_post(*old(self), *final(self), key, val, r),
    {
        if self.capacity == 0 {
            return false;
        }
        if self.map.contains(&key) {
            self.map.update_value(&key, val);
            if self.touch_on_get {
                let ghost mid = self.map@;
                proof {
                    old(self).map.lemma_wf();
                    crate::model::lemma_key_index(old(self)@, key_index(old(self)@, key));
                    assert(mid[key_index(old(self)@, key)].0 == key);
                    self.map.lemma_wf();
                    crate::model::lemma_key_index(mid, key_index(old(self)@, key));
                }
                self.map.move_to_front(&key);
                proof {
                    assert(self@ =~= seq![(key, val)] + without(old(self)@, key));
                }
            }
            return false;
        }
        self.map.insert_front(key, val);
        if self.map.len() > self.capacity {
            return self.map.pop_back().is_some();
        }
        false
    }

    /// Removes every entry.
    pub fn clear(&mut self)
        requires
            old(self).wf(),
        ensures
            final(self).wf(),
            final(self)@ == Seq::<(K, V)>::empty(),
            final(self).capacity() == old(self).capacity(),
            final(self).touches_on_get() == old(self).touches_on_get(),
    {
        self.map.clear();
    }

    /// The number of entries held.
    pub fn len(&self) -> (r: usize)
        requires
            self.wf(),
        ensures
            r == self@.len(),
    {
        self.map.len()
    }
}

/// A least-frequently-used cache.
///
/// Every key carries a hit count. Keys with the same count live in one
/// recency-ordered bucket, so the eviction victim is the least-recently-used
/// key in the least-frequent bucket. `min_freq` tracks the lowest occupied
/// count.
pub struct LfuCache<K, V> {
    /// Value and current frequency per key.
    values: HashMap<K, (V, u64)>,
    /// Keys grouped by frequency, each ordered most-recently-used first.
    buckets: HashMap<u64, OrderedMap<K, ()>>,
    /// The lowest frequency currently occupied.
    min_freq: u64,
    capacity: usize,
}

impl<K, V> LfuCache<K, V> {
    /// Each resident key's value and access frequency.
    pub closed spec fn values(&self) -> Map<K, (V, u64)> {
        self.values@
    }

    /// The keys whose frequency is `f`, most recently touched first.
    pub closed spec fn bucket(&self, f: u64) -> Seq<(K, ())> {
        if self.buckets@.contains_key(f) {
            self.buckets@[f]@
        } else {
            Seq::empty()
        }
    }

    /// The lowest frequency held by any resident key.
    pub closed spec fn min_freq(&self) -> u64 {
        self.min_freq
    }

    /// The bound on the number of entries.
    pub closed spec fn capacity(&self) -> nat {
        self.capacity as nat
    }

    /// The internal invariant: every resident key sits in exactly the bucket
    /// of its frequency, buckets are non-empty, and `min_freq` is the least
    /// occupied frequency.
    pub closed spec fn wf(&self) -> bool {
        &&& obeys_key_model::<K>()
        &&& self.values@.dom().finite()
        &&& self.values@.len() <= self.capacity
        &&& forall|f: u64| #[trigger] self.buckets@.contains_key(f) ==> self.buckets@[f].wf() && self.buckets@[f]@.len() > 0
        &&& forall|f: u64, k: K| #[trigger] has_key(self.bucket(f), k) ==> self.values@.contains_key(k) && self.values@[k].1 == f
        &&& forall|k: K| #[trigger] self.values@.contains_key(k) ==> has_key(self.bucket(self.values@[k].1), k) && self.values@[k].1 >= 1
        &&& self.values@.len() > 0 ==> self.buckets@.contains_key(self.min_freq)
        &&& forall|k: K| #[trigger] self.values@.contains_key(k) ==> self.min_freq <= self.values@[k].1
    }

    /// A hit on `key` can be counted without its frequency overflowing.
    pub open spec fn can_bump(&self, key: K) -> bool {
        self.values().contains_key(key) ==> self.values()[key].1 < u64::MAX
    }

    /// `new` is `old` after one more access of the resident `key`, which now
    /// holds `val`: its count goes from `f` to `f + 1`, it leaves bucket `f`
    /// and enters the front of bucket `f + 1`, and the least frequency moves
    /// up when bucket `f` was the least and held only `key`.
    pub open spec fn bumped(old: Self, new: Self, key: K, val: V) -> bool {
        let f = old.values()[key].1;
        let f1 = (f + 1) as u64;
        &&& new.values() == old.values().insert(key, (val, f1))
        &&& new.bucket(f) == without(old.bucket(f), key)
        &&& new.bucket(f1) == seq![(key, ())] + old.bucket(f1)
        &&& forall|g: u64| g != f && g != f1 ==> #[trigger] new.bucket(g) == old.bucket(g)
        &&& new.min_freq() == if old.min_freq() == f && old.bucket(f).len() == 1 {
            f1
        } else {
            old.min_freq()
        }
        &&& new.capacity() == old.capacity()
    }

    /// What a `get` of `key` does.
    pub open spec fn get_post(old: Self, new: Self, key: K, r: Option<V>) -> bool {
        if old.values().contains_key(key) {
            r == Some(old.values()[key].0) && Self::bumped(old, new, key, old.values()[key].0)
        } else {
            r is None && new == old
        }
    }

    /// What a `put` of `(key, val)` does, and whether it evicted. A fresh key
    /// enters bucket 1; when the cache was full, the back of the least
    /// frequent bucket leaves first.
    pub open spec fn put_post(old: Self, new: Self, key: K, val: V, r: bool) -> bool {
        if old.capacity() == 0 {
            !r && new == old
        } else if old.values().contains_key(key) {
            !r && Self::bumped(old, new, key, val)
        } else {
            let m = old.min_freq();
            let full = old.values().len() == old.capacity();
            let victim = old.bucket(m).last().0;
            let kept = if full { old.values().remove(victim) } else { old.values() };
            &&& r == full
            &&& new.values() == kept.insert(key, (val, 1u64))
            &&& new.min_freq() == 1
            &&& new.capacity() == old.capacity()
            &&& forall|g: u64| #[trigger] new.bucket(g) == {
                let b = if full && g == m { old.bucket(g).drop_last() } else { old.bucket(g) };
                if g == 1 { seq![(key, ())] + b } else { b }
            }
        }
    }
}

impl<K: Hash + Eq + Clone, V> LfuCache<K, V> {
    /// The value cached under `k`.
    pub open spec fn cached(&self, k: K) -> Option<V> {
        if self.values().contains_key(k) {
            Some(self.values()[k].0)
        } else {
            None
        }
    }

    /// A `get` answers the cached value and changes no cached value.
    pub proof fn lemma_get_law(old: Self, new: Self, key: K, r: Option<V>)
        requires
            Self::get_post(old, new, key, r),
        ensures
            r == old.cached(key),
            forall|k: K| #[trigger] new.cached(k) == old.cached(k),
    {
    }

    /// A `put` caches `(key, val)` when the capacity allows, and reports an
    /// eviction exactly when one other cached key left.
    pub proof fn lemma_put_law(old: Self, new: Self, key: K, val: V, r: bool)
        requires
            old.wf(),
            Self::put_post(old, new, key, val, r),
        ensures
            old.capacity() > 0 ==> new.cached(key) == Some(val),
            !r ==> forall|k: K| k != key ==> #[trigger] new.cached(k) == old.cached(k),
            r ==> exists|e: K|
                e != key && old.cached(e) is Some && new.cached(e) is None && forall|k: K|
                    k != key && k != e ==> #[trigger] new.cached(k) == old.cached(k),
    {
        if old.capacity() > 0 && !old.values().contains_key(key) && old.values().len() == old.capacity() {
            old.lemma_victim();
            let e = old.bucket(old.min_freq()).last().0;
            assert(old.cached(e) is Some);
            assert(new.cached(e) is None);
        }
    }

    /// An empty cache bounded by `capacity`.
    pub fn new(capacity: usize) -> (r: Self)
        requires
            obeys_key_model::<K>(),
        ensures
            r.wf(),
            r.values() == Map::<K, (V, u64)>::empty(),
            forall|g: u64| #[trigger] r.bucket(g) == Seq::<(K, ())>::empty(),
            r.min_freq() == 0,
            r.capacity() == capacity,
    {
        let r = Self { values: HashMap::with_capacity(capacity), buckets: HashMap::new(), min_freq: 0, capacity };
        proof {
            assert(r.values@.dom() =~= Set::<K>::empty());
        }
        r
    }

    /// Promotes `key` from frequency `f` to `f + 1`, maintaining
    /// `min_freq`. An absent key leaves the cache unchanged.
    fn bump(&mut self, key: &K)
        requires
            old(self).wf(),
            old(self).can_bump(*key),
        ensures
            final(self).wf(),
            old(self).values().contains_key(*key) ==> Self::bumped(*old(self), *final(self), *key, old(self).values()[*key].0),
            !old(self).values().contains_key(*key) ==> *final(self) == *old(self),
    {
        let ghost old_self = *self;
        let freq = match self.values.get(key) {
            Some(entry) => entry.1,
            None => return,
        };
        let ghost f1 = (freq + 1) as u64;
        // Count the access.
        match self.values.remove(key) {
            Some(entry) => {
                let (val, _) = entry;
                let _prev = self.values.insert(clone_key(key), (val, freq + 1));
            },
            None => {},
        }
        proof {
            assert(self.values@ =~= old_self.values@.insert(*key, (old_self.values@[*key].0, f1)));
            assert(has_key(old_self.bucket(freq), *key));
            assert(self.buckets@.contains_key(freq));
        }
        // Leave bucket `freq`.
        match self.buckets.remove(&freq) {
            Some(bucket) => {
                let mut bucket = bucket;
                proof {
                    bucket.lemma_wf();
                    lemma_without(bucket@, *key);
                }
                let _removed = bucket.remove(key);
                if bucket.len() == 0 {
                    if freq == self.min_freq {
                        self.min_freq = freq + 1;
                    }
                    proof {
                        assert(bucket@ =~= Seq::<(K, ())>::empty());
                    }
                } else {
                    let _prev = self.buckets.insert(freq, bucket);
                }
            },
            None => {},
        }
        let ghost mid = *self;
        proof {
            assert(mid.bucket(freq) == without(old_self.bucket(freq), *key));
            assert forall|g: u64| g != freq implies #[trigger] mid.bucket(g) == old_self.bucket(g) by {}
        }
        // Enter bucket `freq + 1`.
        let mut next = match self.buckets.remove(&(freq + 1)) {
            Some(b) => b,
            None => OrderedMap::with_capacity(1),
        };
        proof {
            assert(next@ == old_self.bucket(f1)) by {
                if !mid.buckets@.contains_key(f1) {
                    assert(next@ =~= Seq::<(K, ())>::empty());
                }
            }
            assert(!has_key(next@, *key)) by {
                if has_key(next@, *key) {
                    assert(has_key(old_self.bucket(f1), *key));
                }
            }
            next.lemma_wf();
            lemma_without(next@, *key);
        }
        next.insert_front(clone_key(key), ());
        let _prev = self.buckets.insert(freq + 1, next);
        proof {
            let new = *self;
            let old = old_self;
            let vals = self.values@;
            assert(new.bucket(f1) == seq![(*key, ())] + old.bucket(f1));
            assert(new.bucket(freq) == without(old.bucket(freq), *key));
            assert forall|g: u64| g != freq && g != f1 implies #[trigger] new.bucket(g) == old.bucket(g) by {
                assert(mid.bucket(g) == old.bucket(g));
            }
            old.buckets@[freq].lemma_wf();
            lemma_without(old.bucket(freq), *key);
            lemma_push_front(old.bucket(f1), (*key, ()));
            // Buckets are well formed and non-empty.
            assert forall|g: u64| #[trigger] new.buckets@.contains_key(g) implies new.buckets@[g].wf()
                && new.buckets@[g]@.len() > 0 by {
                if g != f1 && g != freq {
                    assert(old.buckets@.contains_key(g));
                }
            }
            // Every bucketed key is resident with that bucket's frequency.
            assert forall|g: u64, k: K| #[trigger] has_key(new.bucket(g), k) implies vals.contains_key(k)
                && vals[k].1 == g by {
                if g == f1 {
                    if k != *key {
                        assert(has_key(old.bucket(f1), k));
                    }
                } else if g == freq {
                    assert(has_key(old.bucket(freq), k));
                } else {
                    assert(has_key(old.bucket(g), k));
                }
            }
            // Every resident key sits in its frequency's bucket.
            assert forall|k: K| #[trigger] vals.contains_key(k) implies has_key(new.bucket(vals[k].1), k)
                && vals[k].1 >= 1 by {
                if k != *key {
                    assert(old.values@.contains_key(k));
                    let g = old.values@[k].1;
                    assert(has_key(old.bucket(g), k));
                    if g == freq {
                        assert(has_key(new.bucket(freq), k));
                    } else if g == f1 {
                        assert(has_key(new.bucket(f1), k));
                    }
                } else {
                    assert(has_key(new.bucket(f1), k));
                }
            }
            // The least frequency is occupied and below every frequency.
            if old.min_freq == freq && old.bucket(freq).len() == 1 {
                assert forall|k: K| #[trigger] vals.contains_key(k) implies new.min_freq <= vals[k].1 by {
                    if k != *key {
                        assert(old.values@.contains_key(k));
                        let g = old.values@[k].1;
                        assert(has_key(old.bucket(g), k));
                        if g == freq {
                            assert(has_key(new.bucket(freq), k));
                            assert(new.bucket(freq).len() == 0);
                        }
                    }
                }
            } else {
                assert forall|k: K| #[trigger] vals.contains_key(k) implies new.min_freq <= vals[k].1 by {
                    if k != *key {
                        assert(old.values@.contains_key(k));
                    }
                }
                if old.min_freq == freq {
                    assert(new.bucket(freq).len() > 0);
                } else if old.min_freq != f1 {
                    assert(new.bucket(old.min_freq) == old.bucket(old.min_freq));
                }
            }
            assert(vals.dom() =~= old.values@.dom());
        }
    }

    /// Whether one more access of `key` can be counted without its hit count
    /// overflowing.
    pub fn can_count(&self, key: &K) -> (r: bool)
        requires
            self.wf(),
        ensures
            r == self.can_bump(*key),
    {
        match self.values.get(key) {
            Some(entry) => entry.1 < u64::MAX,
            None => true,
        }
    }

    /// Looks up `key`, counting the access on a hit.
    pub fn get(&mut self, key: &K) -> (r: Option<&V>)
        requires
            old(self).wf(),
            old(self).can_bump(*key),
        ensures
            final(self).wf(),
            Self::get_post(*old(self), *final(self), *key, match r {
                Some(v) => Some(*v),
                None => None,
            }),
    {
        if !self.values.contains_key(key) {
            return None;
        }
        self.bump(key);
        match self.values.get(key) {
            Some(entry) => Some(&entry.0),
            None => None,
        }
    }

    /// Inserts or updates `key`, evicting the least frequently used entry
    /// (ties: least recently used) when full. Returns `true` on eviction.
    pub fn put(&mut self, key: K, val: V) -> (r: bool)
        requires
            old(self).wf(),
            old(self).can_bump(key),
        ensures
            final(self).wf(),
            Self::put_post(*old(self), *final(self), key, val, r),
    {
        if self.capacity == 0 {
            return false;
        }
        let ghost old_self = *self;
        if self.values.contains_key(&key) {
            match self.values.remove(&key) {
                Some(entry) => {
                    let (_, freq) = entry;
                    let _prev = self.values.insert(clone_key(&key), (val, freq));
                },
                None => {},
            }
            proof {
                let vals = self.values@;
                assert(vals =~= old_self.values@.insert(key, (val, old_self.values@[key].1)));
                assert(vals.dom() =~= old_self.values@.dom());
                assert forall|g: u64, k: K| #[trigger] has_key(self.bucket(g), k) implies vals.contains_key(k)
                    && vals[k].1 == g by {
                    assert(has_key(old_self.bucket(g), k));
                }
                assert forall|k: K| #[trigger] vals.contains_key(k) implies has_key(self.bucket(vals[k].1), k)
                    && vals[k].1 >= 1 by {
                    assert(old_self.values@.contains_key(k));
                }
                assert forall|k: K| #[trigger] vals.contains_key(k) implies self.min_freq <= vals[k].1 by {
                    assert(old_self.values@.contains_key(k));
                }
            }
            let ghost mid = *self;
            self.bump(&key);
            proof {
                assert(mid.buckets == old_self.buckets);
                assert forall|g: u64| #[trigger] mid.bucket(g) == old_self.bucket(g) by {}
                assert(mid.values()[key].1 == old_self.values()[key].1);
                assert(mid.values()[key].0 == val);
                let f1 = (old_self.values()[key].1 + 1) as u64;
                assert(self.values() =~= old_self.values().insert(key, (val, f1)));
            }
            return false;
        }
        let mut evicted = false;
        if self.values.len() == self.capacity {
            proof {
                self.lemma_victim();
            }
            match self.buckets.remove(&self.min_freq) {
                Some(bucket) => {
                    let mut bucket = bucket;
                    proof {
                        bucket.lemma_wf();
                        lemma_drop_last(bucket@);
                    }
                    match bucket.pop_back() {
                        Some(popped) => {
                            let (victim, _) = popped;
                            let _removed = self.values.remove(&victim);
                            evicted = true;
                        },
                        None => {},
                    }
                    if bucket.len() > 0 {
                        let _prev = self.buckets.insert(self.min_freq, bucket);
                    } else {
                        proof {
                            assert(bucket@ =~= Seq::<(K, ())>::empty());
                        }
                    }
                },
                None => {},
            }
        }
        let ghost mid = *self;
        proof {
            let m = old_self.min_freq;
            let full = old_self.values@.len() == old_self.capacity;
            if full {
                assert(mid.bucket(m) == old_self.bucket(m).drop_last());
                assert(mid.values@ == old_self.values@.remove(old_self.bucket(m).last().0));
            }
            assert forall|g: u64| g != m || !full implies #[trigger] mid.bucket(g) == old_self.bucket(g) by {}
        }
        let _prev = self.values.insert(clone_key(&key), (val, 1));
        let mut one = match self.buckets.remove(&1) {
            Some(b) => b,
            None => OrderedMap::with_capacity(1),
        };
        proof {
            assert(one@ == mid.bucket(1)) by {
                if !mid.buckets@.contains_key(1) {
                    assert(one@ =~= Seq::<(K, ())>::empty());
                }
            }
            one.lemma_wf();
            lemma_without(one@, key);
            assert(!has_key(one@, key)) by {
                if has_key(one@, key) {
                    let m = old_self.min_freq;
                    if old_self.values@.len() == old_self.capacity && m == 1 {
                        old_self.buckets@[m].lemma_wf();
                        lemma_drop_last(old_self.bucket(m));
                    }
                    assert(has_key(old_self.bucket(1), key));
                }
            }
        }
        one.insert_front(key, ());
        let _prev = self.buckets.insert(1, one);
        self.min_freq = 1;
        proof {
            let new = *self;
            let old = old_self;
            let m = old.min_freq;
            let full = old.values@.len() == old.capacity;
            let victim = old.bucket(m).last().0;
            let vals = new.values@;
            let kept = if full { old.values@.remove(victim) } else { old.values@ };
            assert(mid.values@ == kept);
            assert(vals == kept.insert(key, (val, 1u64)));
            if full {
                old.lemma_victim();
                old.buckets@[m].lemma_wf();
                lemma_drop_last(old.bucket(m));
            }
            lemma_push_front(mid.bucket(1), (key, ()));
            assert forall|g: u64| #[trigger] new.bucket(g) == {
                let b = if full && g == m { old.bucket(g).drop_last() } else { old.bucket(g) };
                if g == 1 { seq![(key, ())] + b } else { b }
            } by {
                if g != 1 {
                    assert(new.bucket(g) == mid.bucket(g));
                }
            }
            // Buckets are well formed and non-empty.
            assert forall|g: u64| #[trigger] new.buckets@.contains_key(g) implies new.buckets@[g].wf()
                && new.buckets@[g]@.len() > 0 by {
                if g != 1 && !(full && g == m) {
                    assert(old.buckets@.contains_key(g));
                }
            }
            // Every bucketed key is resident with that bucket's frequency.
            assert forall|g: u64, k: K| #[trigger] has_key(new.bucket(g), k) implies vals.contains_key(k)
                && vals[k].1 == g by {
                if !(g == 1 && k == key) {
                    assert(has_key(old.bucket(g), k));
                    assert(old.values@.contains_key(k));
                    if full {
                        if g == m {
                            assert(k != victim);
                        } else {
                            assert(old.values@[victim].1 == m);
                        }
                    }
                }
            }
            // Every resident key sits in its frequency's bucket.
            assert forall|k: K| #[trigger] vals.contains_key(k) implies has_key(new.bucket(vals[k].1), k)
                && vals[k].1 >= 1 by {
                if k != key {
                    assert(old.values@.contains_key(k));
                    let g = old.values@[k].1;
                    assert(has_key(old.bucket(g), k));
                    if g == 1 {
                        assert(has_key(mid.bucket(1), k));
                    } else {
                        assert(has_key(mid.bucket(g), k));
                    }
                } else {
                    assert(has_key(new.bucket(1), k));
                }
            }
            assert forall|k: K| #[trigger] vals.contains_key(k) implies new.min_freq <= vals[k].1 by {
                if k != key {
                    assert(old.values@.contains_key(k));
                }
            }
            assert(!old.values@.contains_key(key));
            if full {
                assert(old.values@.contains_key(victim));
                assert(kept.len() == old.values@.len() - 1);
            }
            assert(!kept.contains_key(key));
            assert(vals.len() == kept.len() + 1);
        }
        evicted
    }

    /// Removes every entry.
    pub fn clear(&mut self)
        requires
            old(self).wf(),
        ensures
            final(self).wf(),
            final(self).values() == Map::<K, (V, u64)>::empty(),
            forall|g: u64| #[trigger] final(self).bucket(g) == Seq::<(K, ())>::empty(),
            final(self).min_freq() == 0,
            final(self).capacity() == old(self).capacity(),
    {
        self.values.clear();
        self.buckets.clear();
        self.min_freq = 0;
        proof {
            assert(self.values@.dom() =~= Set::<K>::empty());
        }
    }

    /// The number of resident entries.
    pub fn len(&self) -> (r: usize)
        requires
            self.wf(),
        ensures
            r == self.values().len(),
    {
        self.values.len()
    }

    /// A well-formed cache holds finitely many entries, within capacity.
    pub proof fn lemma_wf(&self)
        requires
            self.wf(),
        ensures
            self.values().dom().finite(),
            self.values().len() <= self.capacity(),
    {
    }

    /// In a well-formed cache the least frequent bucket is non-empty, and its
    /// back (the eviction victim) is resident with the least frequency.
    pub proof fn lemma_victim(&self)
        requires
            self.wf(),
            self.values().len() > 0,
        ensures
            self.bucket(self.min_freq()).len() > 0,
            self.values().contains_key(self.bucket(self.min_freq()).last().0),
            self.values()[self.bucket(self.min_freq()).last().0].1 == self.min_freq(),
            forall|k: K| #[trigger] self.values().contains_key(k) ==> self.min_freq() <= self.values()[k].1,
    {
        let b = self.bucket(self.min_freq);
        assert(self.buckets@.contains_key(self.min_freq));
        assert(b[b.len() - 1].0 == b.last().0);
        assert(has_key(b, b.last().0));
    }
}

/// An Adaptive Replacement Cache (Megiddo & Modha).
///
/// Two value lists hold live entries, `t1` for keys seen once (recency) and
/// `t2` for keys seen again (frequency), and two ghost lists, `b1` and `b2`,
/// remember keys recently evicted from each. A ghost hit nudges the target
/// size `p` toward the list that would have kept the key. Occupancy
/// (`|t1| + |t2|`) never exceeds the capacity `c`.
pub struct ArcCache<K, V> {
    /// Recency list: keys seen once.
    t1: OrderedMap<K, V>,
    /// Frequency list: keys seen at least twice.
    t2: OrderedMap<K, V>,
    /// Ghosts evicted from `t1`.
    b1: OrderedMap<K, ()>,
    /// Ghosts evicted from `t2`.
    b2: OrderedMap<K, ()>,
    /// Adaptive target size for `t1`, in `0..=c`.
    p: usize,
    /// Capacity `c`.
    capacity: usize,
}

impl<K, V> ArcCache<K, V> {
    /// The four lists `(t1, t2, b1, b2)`.
    pub closed spec fn lists(&self) -> ArcLists<K, V> {
        (self.t1@, self.t2@, self.b1@, self.b2@)
    }

    /// The adaptive target size of `t1`.
    pub closed spec fn target(&self) -> nat {
        self.p as nat
    }

    /// The capacity `c`.
    pub closed spec fn capacity(&self) -> nat {
        self.capacity as nat
    }

    /// The internal invariant; the capacity leaves room to count `2c` keys.
    pub closed spec fn wf(&self) -> bool {
        &&& obeys_key_model::<K>()
        &&& self.t1.wf()
        &&& self.t2.wf()
        &&& self.b1.wf()
        &&& self.b2.wf()
        &&& arc_inv(self.lists(), self.p as nat, self.capacity as nat)
        &&& self.capacity <= usize::MAX / 2
    }

    /// What a `get` of `key` does.
    pub open spec fn get_post(old: Self, new: Self, key: K, r: Option<V>) -> bool {
        &&& (new.lists(), r) == arc_get(old.lists(), key)
        &&& new.target() == old.target()
        &&& new.capacity() == old.capacity()
    }

    /// What a `put` of `(key, val)` does, and whether a resident key left.
    pub open spec fn put_post(old: Self, new: Self, key: K, val: V, r: bool) -> bool {
        &&& new.capacity() == old.capacity()
        &&& if old.capacity() == 0 {
            !r && new.lists() == old.lists() && new.target() == old.target()
        } else {
            (new.lists(), new.target(), r) == arc_put(old.lists(), old.target(), old.capacity(), key, val)
        }
    }
}

impl<K: Hash + Eq + Clone, V> ArcCache<K, V> {
    /// The value cached under `k`.
    pub open spec fn cached(&self, k: K) -> Option<V> {
        arc_cached(self.lists(), k)
    }

    /// Occupancy never exceeds the capacity, the target stays within it,
    /// and every key is held at most once, in at most one of the four lists.
    pub proof fn lemma_bounded(&self)
        requires
            self.wf(),
        ensures
            self.lists().0.len() + self.lists().1.len() <= self.capacity(),
            self.target() <= self.capacity(),
            lists_ok(self.lists()),
    {
    }

    /// A `get` answers the cached value and changes no cached value.
    pub proof fn lemma_get_law(old: Self, new: Self, key: K, r: Option<V>)
        requires
            old.wf(),
            Self::get_post(old, new, key, r),
        ensures
            r == old.cached(key),
            forall|k: K| #[trigger] new.cached(k) == old.cached(k),
    {
        let (t1, t2, b1, b2) = old.lists();
        if has_key(t1, key) {
            lemma_without(t1, key);
            assert forall|k: K| #[trigger] new.cached(k) == old.cached(k) by {
                lemma_lookup_without(t1, key, k);
                lemma_lookup_push(t2, (key, lookup(t1, key)->0), k);
                if k == key {
                    let w = choose|w: int| 0 <= w < t1.len() && #[trigger] t1[w].0 == key;
                    crate::model::lemma_lookup_at(t1, w);
                }
            }
        } else if has_key(t2, key) {
            assert forall|k: K| #[trigger] new.cached(k) == old.cached(k) by {
                lemma_lookup_promote(t2, key, k);
            }
        }
    }

    /// A hit makes `key` the most recently used entry of the frequency list
    /// `t2`: a key seen in the recency list `t1` leaves `t1` for the front of
    /// `t2` (its second sighting), and a key already in `t2` moves to its
    /// front; every other entry of both lists keeps its place in order. A
    /// miss changes nothing. The ghost lists and the target never change.
    pub proof fn lemma_get_moves(old: Self, new: Self, key: K, r: Option<V>)
        requires
            old.wf(),
            Self::get_post(old, new, key, r),
        ensures
            has_key(old.lists().0, key) || has_key(old.lists().1, key) ==> {
                &&& r is Some
                &&& new.lists().1.len() > 0
                &&& new.lists().1[0] == (key, r.unwrap())
                &&& new.lists().1.drop_first() == without(old.lists().1, key)
                &&& new.lists().0 == without(old.lists().0, key)
                &&& !has_key(new.lists().0, key)
            },
            !has_key(old.lists().0, key) && !has_key(old.lists().1, key) ==> r is None && new.lists()
                == old.lists(),
            new.lists().2 == old.lists().2,
            new.lists().3 == old.lists().3,
            new.target() == old.target(),
    {
        let (t1, t2, b1, b2) = old.lists();
        lemma_without(t1, key);
        lemma_without(t2, key);
        if has_key(t1, key) {
            assert(!has_key(t2, key));
            let n2 = seq![(key, lookup(t1, key)->0)] + t2;
            assert(n2.drop_first() =~= t2);
        } else if has_key(t2, key) {
            assert(!has_key(t1, key));
            let i = key_index(t2, key);
            assert(t2[i].0 == key);
            let n2 = promote(t2, key);
            assert(n2.drop_first() =~= t2.remove(i));
            assert(n2[0] == t2[i]);
        }
    }

    /// A `put` caches `(key, val)` when the capacity allows, and reports an
    /// eviction exactly when one other cached key left.
    pub proof fn lemma_put_law(old: Self, new: Self, key: K, val: V, r: bool)
        requires
            old.wf(),
            Self::put_post(old, new, key, val, r),
        ensures
            old.capacity() > 0 ==> new.cached(key) == Some(val),
            !r ==> forall|k: K| k != key ==> #[trigger] new.cached(k) == old.cached(k),
            r ==> exists|e: K|
                e != key && old.cached(e) is Some && new.cached(e) is None && forall|k: K|
                    k != key && k != e ==> #[trigger] new.cached(k) == old.cached(k),
    {
        if old.capacity() > 0 {
            lemma_arc_put_cached(old.lists(), old.target(), old.capacity(), key, val);
            if r {
                let e = choose|e: K|
                    e != key && arc_cached(old.lists(), e) is Some && arc_cached(new.lists(), e) is None && forall|kk: K|
                        kk != key && kk != e ==> #[trigger] arc_cached(new.lists(), kk) == arc_cached(old.lists(), kk);
                assert(old.cached(e) is Some && new.cached(e) is None);
                assert(forall|k: K| k != key && k != e ==> #[trigger] new.cached(k) == old.cached(k));
            }
        }
    }

    /// An empty cache of capacity `capacity`.
    pub fn new(capacity: usize) -> (r: Self)
        requires
            obeys_key_model::<K>(),
            capacity <= usize::MAX / 2,
        ensures
            r.wf(),
            r.lists() == (Seq::<(K, V)>::empty(), Seq::<(K, V)>::empty(), Seq::<(K, ())>::empty(), Seq::<(K, ())>::empty()),
            r.target() == 0,
            r.capacity() == capacity,
    {
        Self {
            t1: OrderedMap::with_capacity(capacity),
            t2: OrderedMap::with_capacity(capacity),
            b1: OrderedMap::with_capacity(capacity),
            b2: OrderedMap::with_capacity(capacity),
            p: 0,
            capacity,
        }
    }

    /// Demotes one live entry to a ghost list to free a slot. Returns `true`
    /// when an entry left the cache proper. `x_in_b2` is whether the key
    /// currently being admitted came from `b2`.
    fn replace(&mut self, x_in_b2: bool) -> (r: bool)
        requires
            old(self).t1.wf(),
            old(self).t2.wf(),
            old(self).b1.wf(),
            old(self).b2.wf(),
            disjoint(old(self).t1@, old(self).b1@),
            disjoint(old(self).t2@, old(self).b2@),
        ensures
            final(self).t1.wf(),
            final(self).t2.wf(),
            final(self).b1.wf(),
            final(self).b2.wf(),
            (final(self).lists(), r) == arc_replace(old(self).lists(), old(self).p as nat, x_in_b2),
            final(self).p == old(self).p,
            final(self).capacity == old(self).capacity,
    {
        proof {
            self.t1.lemma_wf();
            self.t2.lemma_wf();
            self.b1.lemma_wf();
            self.b2.lemma_wf();
        }
        if self.t1.len() >= 1 && (self.t1.len() > self.p || (x_in_b2 && self.t1.len() == self.p)) {
            proof {
                crate::model::lemma_drop_last(self.t1@);
                lemma_without(self.b1@, self.t1@.last().0);
            }
            if let Some(popped) = self.t1.pop_back() {
                let (key, _val) = popped;
                self.b1.insert_front(key, ());
                return true;
            }
        } else {
            proof {
                if self.t2@.len() > 0 {
                    crate::model::lemma_drop_last(self.t2@);
                    lemma_without(self.b2@, self.t2@.last().0);
                }
            }
            if let Some(popped) = self.t2.pop_back() {
                let (key, _val) = popped;
                self.b2.insert_front(key, ());
                return true;
            }
        }
        false
    }

    /// Looks up `key`; a hit in `t1` promotes the entry into `t2`, a hit in
    /// `t2` refreshes its position.
    pub fn get(&mut self, key: &K) -> (r: Option<&V>)
        requires
            old(self).wf(),
        ensures
            final(self).wf(),
            Self::get_post(*old(self), *final(self), *key, match r {
                Some(v) => Some(*v),
                None => None,
            }),
    {
        proof {
            lemma_arc_get(self.lists(), self.p as nat, self.capacity as nat, *key);
            self.t1.lemma_wf();
            self.t2.lemma_wf();
            lemma_without(self.t2@, *key);
        }
        // Seen a second time: promote from recency (t1) to frequency (t2).
        if let Some(val) = self.t1.remove(key) {
            self.t2.insert_front(clone_key(key), val);
            let r = self.t2.get(key);
            proof {
                crate::model::lemma_key_index(self.t2@, 0);
                self.t2.lemma_wf();
            }
            return r;
        }
        // Already frequent: refresh its position in t2.
        self.t2.access(key, true)
    }

    /// Admits `key`, evicting per ARC when full; a resident key is a hit and
    /// its one entry takes the new value at the front of `t2`. Returns `true`
    /// when a resident entry left the cache.
    pub fn put(&mut self, key: K, val: V) -> (r: bool)
        requires
            old(self).wf(),
        ensures
            final(self).wf(),
            Self::put_post(*old(self), *final(self), key, val, r),
    {
        if self.capacity == 0 {
            return false;
        }
        let c = self.capacity;
        let ghost l = self.lists();
        let ghost p0 = self.p as nat;
        proof {
            lemma_arc_put(l, p0, c as nat, key, val);
            self.t1.lemma_wf();
            self.t2.lemma_wf();
            self.b1.lemma_wf();
            self.b2.lemma_wf();
            lemma_without(self.t1@, key);
            lemma_without(self.t2@, key);
        }
        if self.t1.contains(&key) || self.t2.contains(&key) {
            // Resident: a hit, so the entry moves to the front of t2.
            let _old = self.t1.remove(&key);
            self.t2.insert_front(key, val);
            return false;
        }
        if self.b1.contains(&key) {
            // Ghost hit in b1: lean toward recency.
            let b1_len = self.b1.len();
            let b2_len = self.b2.len();
            proof {
                assert(b1_len > 0) by {
                    let w = choose|w: int| 0 <= w < self.b1@.len() && #[trigger] self.b1@[w].0 == key;
                }
            }
            let d = if b1_len > 1 { b1_len } else { 1 };
            let q = b2_len / d;
            proof {
                assert(q <= b2_len) by (nonlinear_arith)
                    requires
                        d >= 1,
                        q == b2_len / d,
                ;
            }
            let delta = if q > 1 { q } else { 1 };
            let sum = self.p + delta;
            self.p = if sum <= c { sum } else { c };
            let evicted = self.replace(false);
            proof {
                lemma_replace_ok(l, self.p as nat, false);
                self.b1.lemma_wf();
                lemma_without(self.b1@, key);
                self.t2.lemma_wf();
                lemma_without(self.t2@, key);
            }
            let _ghost = self.b1.remove(&key);
            self.t2.insert_front(key, val);
            return evicted;
        }
        if self.b2.contains(&key) {
            // Ghost hit in b2: lean toward frequency.
            let b1_len = self.b1.len();
            let b2_len = self.b2.len();
            let d = if b2_len > 1 { b2_len } else { 1 };
            let q = b1_len / d;
            let delta = if q > 1 { q } else { 1 };
            self.p = self.p.saturating_sub(delta);
            let evicted = self.replace(true);
            proof {
                lemma_replace_ok(l, self.p as nat, true);
                self.b2.lemma_wf();
                lemma_without(self.b2@, key);
                self.t2.lemma_wf();
                lemma_without(self.t2@, key);
            }
            let _ghost = self.b2.remove(&key);
            self.t2.insert_front(key, val);
            return evicted;
        }
        // Total miss: not live, not a ghost.
        let mut evicted = false;
        if self.t1.len() + self.b1.len() == c {
            if self.t1.len() < c {
                proof {
                    if self.b1@.len() > 0 {
                        crate::model::lemma_drop_last(self.b1@);
                    }
                }
                let _dropped = self.b1.pop_back();
                proof {
                    lemma_replace_ok(self.lists(), self.p as nat, false);
                }
                let demoted = self.replace(false);
                evicted = evicted || demoted;
            } else {
                // b1 empty and t1 full: drop the LRU of t1 outright (no ghost).
                let dropped = self.t1.pop_back().is_some();
                evicted = evicted || dropped;
            }
        } else {
            let total = self.t1.len() + self.t2.len() + self.b1.len() + self.b2.len();
            if total >= c {
                if total == 2 * c {
                    proof {
                        if self.b2@.len() > 0 {
                            crate::model::lemma_drop_last(self.b2@);
                        }
                    }
                    let _dropped = self.b2.pop_back();
                }
                let demoted = self.replace(false);
                evicted = evicted || demoted;
            }
        }
        proof {
            self.t1.lemma_wf();
            lemma_without(self.t1@, key);
        }
        self.t1.insert_front(key, val);
        evicted
    }

    /// Removes every entry and ghost, and resets the target.
    pub fn clear(&mut self)
        requires
            old(self).wf(),
        ensures
            final(self).wf(),
            final(self).lists() == (Seq::<(K, V)>::empty(), Seq::<(K, V)>::empty(), Seq::<(K, ())>::empty(), Seq::<(K, ())>::empty()),
            final(self).target() == 0,
            final(self).capacity() == old(self).capacity(),
    {
        self.t1.clear();
        self.t2.clear();
        self.b1.clear();
        self.b2.clear();
        self.p = 0;
    }

    /// The number of resident entries, `|t1| + |t2|`.
    pub fn len(&self) -> (r: usize)
        requires
            self.wf(),
        ensures
            r == self.lists().0.len() + self.lists().1.len(),
    {
        self.t1.len() + self.t2.len()
    }
}

/// A cache that dispatches every operation to the configured eviction policy.
pub enum PolicyCache<K, V> {
    /// LRU (`touch_on_get = true`) or FIFO (`false`).
    Recency(RecencyCache<K, V>),
    /// Least-frequently-used.
    Lfu(LfuCache<K, V>),
    /// Adaptive replacement cache. Boxed: it holds four ordered maps and is
    /// far larger than the other variants.
    Arc(Box<ArcCache<K, V>>),
}

impl<K: Hash + Eq + Clone, V> PolicyCache<K, V> {
    /// The internal invariant of the active policy.
    pub open spec fn wf(&self) -> bool {
        match self {
            PolicyCache::Recency(c) => c.wf(),
            PolicyCache::Lfu(c) => c.wf(),
            PolicyCache::Arc(c) => c.wf(),
        }
    }

    /// The policy in force.
    pub open spec fn policy(&self) -> EvictionPolicy {
        match self {
            PolicyCache::Recency(c) => if c.touches_on_get() {
                EvictionPolicy::Lru
            } else {
                EvictionPolicy::Fifo
            },
            PolicyCache::Lfu(_) => EvictionPolicy::Lfu,
            PolicyCache::Arc(_) => EvictionPolicy::Arc,
        }
    }

    /// The capacity.
    pub open spec fn capacity(&self) -> nat {
        match self {
            PolicyCache::Recency(c) => c.capacity(),
            PolicyCache::Lfu(c) => c.capacity(),
            PolicyCache::Arc(c) => c.capacity(),
        }
    }

    /// The number of entries held.
    pub open spec fn size(&self) -> nat {
        match self {
            PolicyCache::Recency(c) => c@.len(),
            PolicyCache::Lfu(c) => c.values().len(),
            PolicyCache::Arc(c) => c.lists().0.len() + c.lists().1.len(),
        }
    }

    /// The value cached under `k`.
    pub open spec fn cached(&self, k: K) -> Option<V> {
        match self {
            PolicyCache::Recency(c) => c.cached(k),
            PolicyCache::Lfu(c) => c.cached(k),
            PolicyCache::Arc(c) => c.cached(k),
        }
    }

    /// A `get` of `k` is defined: under LFU the hit count must not overflow.
    pub open spec fn can_get(&self, k: K) -> bool {
        match self {
            PolicyCache::Lfu(c) => c.can_bump(k),
            _ => true,
        }
    }

    /// A `put` of `k` is defined: under LFU the hit count must not overflow.
    pub open spec fn can_put(&self, k: K) -> bool {
        match self {
            PolicyCache::Lfu(c) => c.can_bump(k),
            _ => true,
        }
    }

    /// What a `get` does, policy by policy.
    pub open spec fn get_post(old: Self, new: Self, key: K, r: Option<V>) -> bool {
        match (old, new) {
            (PolicyCache::Recency(a), PolicyCache::Recency(b)) => RecencyCache::get_post(a, b, key, r),
            (PolicyCache::Lfu(a), PolicyCache::Lfu(b)) => LfuCache::get_post(a, b, key, r),
            (PolicyCache::Arc(a), PolicyCache::Arc(b)) => ArcCache::get_post(*a, *b, key, r),
            _ => false,
        }
    }

    /// What a `put` does, policy by policy.
    pub open spec fn put_post(old: Self, new: Self, key: K, val: V, r: bool) -> bool {
        match (old, new) {
            (PolicyCache::Recency(a), PolicyCache::Recency(b)) => RecencyCache::put_post(a, b, key, val, r),
            (PolicyCache::Lfu(a), PolicyCache::Lfu(b)) => LfuCache::put_post(a, b, key, val, r),
            (PolicyCache::Arc(a), PolicyCache::Arc(b)) => ArcCache::put_post(*a, *b, key, val, r),
            _ => false,
        }
    }

    /// Every cached value is the one `answer` gives for its key.
    pub open spec fn faithful(&self, answer: spec_fn(K) -> V) -> bool {
        forall|k: K| #[trigger] self.cached(k) is Some ==> self.cached(k) == Some(answer(k))
    }

    /// Under every policy a faithful cache stays faithful through a lookup
    /// and through storing `answer(key)`: eviction order can change which
    /// keys hit, never what a hit returns.
    pub proof fn lemma_faithful(old: Self, new: Self, key: K, answer: spec_fn(K) -> V, got: Option<V>, evicted: bool)
        requires
            old.wf(),
            old.faithful(answer),
            Self::get_post(old, new, key, got) || (old.can_put(key) && Self::put_post(old, new, key, answer(key), evicted)),
        ensures
            new.faithful(answer),
            Self::get_post(old, new, key, got) ==> (got is Some ==> got == Some(answer(key))),
    {
        if Self::get_post(old, new, key, got) {
            Self::lemma_get_law(old, new, key, got);
        } else {
            Self::lemma_put_law(old, new, key, answer(key), evicted);
            assert forall|k: K| #[trigger] new.cached(k) is Some implies new.cached(k) == Some(answer(k)) by {
                if k != key {
                    if !evicted {
                        assert(new.cached(k) == old.cached(k));
                    } else {
                        let e = choose|e: K|
                            e != key && old.cached(e) is Some && new.cached(e) is None && forall|kk: K|
                                kk != key && kk != e ==> #[trigger] new.cached(kk) == old.cached(kk);
                        if k != e {
                            assert(new.cached(k) == old.cached(k));
                        }
                    }
                }
            }
        }
    }

    /// Under LRU, FIFO and LFU a put evicts exactly when a fresh key meets a
    /// full cache, and the number of entries grows by one for a fresh key
    /// until the capacity is reached.
    pub proof fn lemma_put_size(old: Self, new: Self, key: K, val: V, r: bool)
        requires
            old.wf(),
            old.policy() != EvictionPolicy::Arc,
            old.can_put(key),
            Self::put_post(old, new, key, val, r),
        ensures
            r == (old.capacity() > 0 && old.cached(key) is None && old.size() == old.capacity()),
            new.size() == if old.capacity() > 0 && old.cached(key) is None && old.size() < old.capacity() {
                old.size() + 1
            } else {
                old.size()
            },
    {
        old.lemma_bounded();
        match (old, new) {
            (PolicyCache::Recency(a), PolicyCache::Recency(b)) => {
                a.map.lemma_wf();
                if a.capacity() > 0 && has_key(a@, key) && a.touches_on_get() {
                    lemma_without(a@, key);
                }
            },
            (PolicyCache::Lfu(a), PolicyCache::Lfu(b)) => {
                a.lemma_wf();
                if a.capacity() > 0 && !a.values().contains_key(key) && a.values().len() == a.capacity() {
                    a.lemma_victim();
                    let e = a.bucket(a.min_freq()).last().0;
                    a.values().lemma_remove_key_len(e);
                }
            },
            _ => {},
        }
    }

    /// Every policy keeps its entries within capacity (and LFU's entries
    /// form a finite map).
    pub proof fn lemma_bounded(&self)
        requires
            self.wf(),
        ensures
            self.size() <= self.capacity(),
            self matches PolicyCache::Lfu(c) ==> c.values().dom().finite(),
    {
        match self {
            PolicyCache::Recency(c) => {},
            PolicyCache::Lfu(c) => c.lemma_wf(),
            PolicyCache::Arc(c) => c.lemma_bounded(),
        }
    }

    /// Builds the cache backing `policy` with room for `capacity` entries.
    pub fn new(policy: EvictionPolicy, capacity: usize) -> (r: Self)
        requires
            obeys_key_model::<K>(),
            policy == EvictionPolicy::Arc ==> capacity <= usize::MAX / 2,
        ensures
            r.wf(),
            r.policy() == policy,
            r.capacity() == capacity,
            r.size() == 0,
            forall|k: K| #[trigger] r.cached(k) is None,
            r matches PolicyCache::Arc(c) ==> c.target() == 0 && c.lists() == (
                Seq::<(K, V)>::empty(),
                Seq::<(K, V)>::empty(),
                Seq::<(K, ())>::empty(),
                Seq::<(K, ())>::empty(),
            ),
    {
        match policy {
            EvictionPolicy::Lru => Self::Recency(RecencyCache::new(capacity, true)),
            EvictionPolicy::Fifo => Self::Recency(RecencyCache::new(capacity, false)),
            EvictionPolicy::Lfu => Self::Lfu(LfuCache::new(capacity)),
            EvictionPolicy::Arc => Self::Arc(Box::new(ArcCache::new(capacity))),
        }
    }

    /// A `get` answers the cached value and changes no cached value, under
    /// every policy.
    pub proof fn lemma_get_law(old: Self, new: Self, key: K, r: Option<V>)
        requires
            old.wf(),
            Self::get_post(old, new, key, r),
        ensures
            r == old.cached(key),
            forall|k: K| #[trigger] new.cached(k) == old.cached(k),
            new.size() == old.size(),
            new.policy() == old.policy(),
            new.capacity() == old.capacity(),
    {
        match (old, new) {
            (PolicyCache::Recency(a), PolicyCache::Recency(b)) => {
                RecencyCache::lemma_get_law(a, b, key, r);
                a.map.lemma_wf();
                if has_key(a@, key) && a.touches_on_get() {
                    lemma_without(a@, key);
                }
            },
            (PolicyCache::Lfu(a), PolicyCache::Lfu(b)) => {
                LfuCache::lemma_get_law(a, b, key, r);
                a.lemma_wf();
            },
            (PolicyCache::Arc(a), PolicyCache::Arc(b)) => ArcCache::lemma_get_law(*a, *b, key, r),
            _ => {},
        }
    }

    /// Whether one more access of `key` can be counted: under LFU its hit
    /// count must not overflow; every other policy can always count it.
    pub fn can_count(&self, key: &K) -> (r: bool)
        requires
            self.wf(),
        ensures
            r == self.can_get(*key),
            r == self.can_put(*key),
    {
        match self {
            Self::Lfu(cache) => cache.can_count(key),
            _ => true,
        }
    }

    /// Under every policy with room for an entry, a `get` right after a `put`
    /// of `(key, val)` answers `val`: the newest insert is always kept.
    pub proof fn lemma_put_then_get(old: Self, mid: Self, new: Self, key: K, val: V, evicted: bool, got: Option<V>)
        requires
            old.wf(),
            old.can_put(key),
            old.capacity() > 0,
            Self::put_post(old, mid, key, val, evicted),
            mid.wf(),
            Self::get_post(mid, new, key, got),
        ensures
            got == Some(val),
            new.cached(key) == Some(val),
            new.size() <= new.capacity(),
    {
        Self::lemma_put_law(old, mid, key, val, evicted);
        Self::lemma_get_law(mid, new, key, got);
        mid.lemma_bounded();
    }

    /// Looks up `key`, applying the policy's access bookkeeping on a hit.
    pub fn get(&mut self, key: &K) -> (r: Option<&V>)
        requires
            old(self).wf(),
            old(self).can_get(*key),
        ensures
            final(self).wf(),
            Self::get_post(*old(self), *final(self), *key, match r {
                Some(v) => Some(*v),
                None => None,
            }),
    {
        match self {
            Self::Recency(cache) => cache.get(key),
            Self::Lfu(cache) => cache.get(key),
            Self::Arc(cache) => cache.get(key),
        }
    }

    /// A `put` of `(key, val)` leaves `key` cached with `val` whenever the
    /// capacity is not zero, and reports an eviction exactly when one other
    /// cached key left; otherwise no other cached value changes. This holds
    /// under every policy.
    pub proof fn lemma_put_law(old: Self, new: Self, key: K, val: V, r: bool)
        requires
            old.wf(),
            old.can_put(key),
            Self::put_post(old, new, key, val, r),
        ensures
            old.capacity() > 0 ==> new.cached(key) == Some(val),
            !r ==> forall|k: K| k != key ==> #[trigger] new.cached(k) == old.cached(k),
            r ==> exists|e: K|
                e != key && old.cached(e) is Some && new.cached(e) is None && forall|k: K|
                    k != key && k != e ==> #[trigger] new.cached(k) == old.cached(k),
            new.policy() == old.policy(),
            new.capacity() == old.capacity(),
    {
        match (old, new) {
            (PolicyCache::Recency(a), PolicyCache::Recency(b)) => {
                RecencyCache::lemma_put_law(a, b, key, val, r);
                if r {
                    let e = choose|e: K|
                        e != key && a.cached(e) is Some && b.cached(e) is None && forall|k: K|
                            k != key && k != e ==> #[trigger] b.cached(k) == a.cached(k);
                    assert(old.cached(e) is Some && new.cached(e) is None);
                    assert(forall|k: K| k != key && k != e ==> #[trigger] new.cached(k) == old.cached(k));
                }
            },
            (PolicyCache::Lfu(a), PolicyCache::Lfu(b)) => {
                LfuCache::lemma_put_law(a, b, key, val, r);
                if r {
                    let e = choose|e: K|
                        e != key && a.cached(e) is Some && b.cached(e) is None && forall|k: K|
                            k != key && k != e ==> #[trigger] b.cached(k) == a.cached(k);
                    assert(old.cached(e) is Some && new.cached(e) is None);
                    assert(forall|k: K| k != key && k != e ==> #[trigger] new.cached(k) == old.cached(k));
                }
            },
            (PolicyCache::Arc(a), PolicyCache::Arc(b)) => {
                ArcCache::lemma_put_law(*a, *b, key, val, r);
                if r {
                    let e = choose|e: K|
                        e != key && a.cached(e) is Some && b.cached(e) is None && forall|k: K|
                            k != key && k != e ==> #[trigger] b.cached(k) == a.cached(k);
                    assert(old.cached(e) is Some && new.cached(e) is None);
                    assert(forall|k: K| k != key && k != e ==> #[trigger] new.cached(k) == old.cached(k));
                }
            },
            _ => {},
        }
    }

    /// Inserts `key`, evicting per the policy if full. Returns `true` when a
    /// previously cached value was discarded.
    pub fn put(&mut self, key: K, val: V) -> (r: bool)
        requires
            old(self).wf(),
            old(self).can_put(key),
        ensures
            final(self).wf(),
            Self::put_post(*old(self), *final(self), key, val, r),
    {
        match self {
            Self::Recency(cache) => cache.put(key, val),
            Self::Lfu(cache) => cache.put(key, val),
            Self::Arc(cache) => cache.put(key, val),
        }
    }

    /// Removes every entry.
    pub fn clear(&mut self)
        requires
            old(self).wf(),
        ensures
            final(self).wf(),
            final(self).size() == 0,
            forall|k: K| #[trigger] final(self).cached(k) is None,
            final(self).policy() == old(self).policy(),
            final(self).capacity() == old(self).capacity(),
    {
        match self {
            Self::Recency(cache) => cache.clear(),
            Self::Lfu(cache) => cache.clear(),
            Self::Arc(cache) => cache.clear(),
        }
    }

    /// The number of live entries currently held.
    pub fn len(&self) -> (r: usize)
        requires
            self.wf(),
        ensures
            r == self.size(),
    {
        match self {
            Self::Recency(cache) => cache.len(),
            Self::Lfu(cache) => cache.len(),
            Self::Arc(cache) => cache.len(),
        }
    }
}

} // verus!
