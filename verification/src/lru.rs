//! A bounded least-recently-used map.
//!
//! [`LruCache`] is an arena-backed intrusive doubly-linked list paired with a
//! hash map: each slot carries the index of its predecessor and successor in
//! recency order, and a `HashMap<K, usize>` maps keys to their slot. The
//! most-recently-used entry sits at `head`, the least-recently-used at `tail`;
//! eviction recycles the tail slot in place.

use std::collections::HashMap;
use std::hash::Hash;
use vstd::prelude::*;
use vstd::std_specs::hash::obeys_key_model;
use crate::model::{clone_key, has_key, key_index, lookup, lemma_key_index, promote, without};
use crate::links::{NIL, chain_ok, lemma_distinct, lemma_link_front, lemma_listed_promote, lemma_map_promote, lemma_map_push, lemma_map_remove, lemma_unlink, linked_at, linked_front, listed, map_ok, next_of, prev_of, unlinked, with_next, with_prev};

verus! {

/// One arena entry: the stored pair plus its recency-list neighbours.
struct Slot<K, V> {
    key: K,
    val: V,
    /// More-recently-used neighbour, or [`NIL`] at the head.
    prev: usize,
    /// Less-recently-used neighbour, or [`NIL`] at the tail.
    next: usize,
}

/// A fixed-capacity least-recently-used map.
pub struct LruCache<K, V> {
    /// Key to slot-index lookup table.
    map: HashMap<K, usize>,
    /// The slot arena. Grows to at most `capacity` entries, then recycles.
    slots: Vec<Slot<K, V>>,
    /// Index of the most-recently-used slot, or [`NIL`] when empty.
    head: usize,
    /// Index of the least-recently-used slot, or [`NIL`] when empty.
    tail: usize,
    /// Hard upper bound on the number of live entries.
    capacity: usize,
    /// The slots, most recently used first.
    order: Ghost<Seq<usize>>,
}

/// Each slot's recorded neighbours.
spec fn link_table<K, V>(slots: Seq<Slot<K, V>>) -> Seq<Option<(usize, usize)>> {
    slots.map_values(|s: Slot<K, V>| Some((s.prev, s.next)))
}

/// Each slot's stored pair.
spec fn entry_table<K, V>(slots: Seq<Slot<K, V>>) -> Seq<Option<(K, V)>> {
    slots.map_values(|s: Slot<K, V>| Some((s.key, s.val)))
}

/// The slot at position `i` of `order` is linked to its neighbours.
spec fn node_ok<K, V>(slots: Seq<Slot<K, V>>, order: Seq<usize>, i: int) -> bool {
    linked_at(link_table(slots), order, i)
}

/// The slots listed in `order` are threaded front to back by their links.
spec fn links_ok<K, V>(slots: Seq<Slot<K, V>>, order: Seq<usize>, head: usize, tail: usize) -> bool {
    chain_ok(link_table(slots), order, head, tail)
}

/// The entries held by the slots listed in `order`.
spec fn entries_of<K, V>(slots: Seq<Slot<K, V>>, order: Seq<usize>) -> Seq<(K, V)> {
    listed(entry_table(slots), order)
}

/// Two arenas hold the same pairs at the same places (links may differ).
spec fn same_entries<K, V>(a: Seq<Slot<K, V>>, b: Seq<Slot<K, V>>) -> bool {
    entry_table(a) == entry_table(b)
}

/// Sets the forward link of slot `s`.
fn set_next<K, V>(slots: &mut Vec<Slot<K, V>>, s: usize, v: usize)
    requires
        s < old(slots)@.len(),
    ensures
        final(slots)@.len() == old(slots)@.len(),
        link_table(final(slots)@) == with_next(link_table(old(slots)@), s, v),
        same_entries(old(slots)@, final(slots)@),
{
    slots[s].next = v;
    proof {
        assert(link_table(slots@) =~= with_next(link_table(old(slots)@), s, v));
        assert(entry_table(slots@) =~= entry_table(old(slots)@));
    }
}

/// Sets the backward link of slot `s`.
fn set_prev<K, V>(slots: &mut Vec<Slot<K, V>>, s: usize, v: usize)
    requires
        s < old(slots)@.len(),
    ensures
        final(slots)@.len() == old(slots)@.len(),
        link_table(final(slots)@) == with_prev(link_table(old(slots)@), s, v),
        same_entries(old(slots)@, final(slots)@),
{
    slots[s].prev = v;
    proof {
        assert(link_table(slots@) =~= with_prev(link_table(old(slots)@), s, v));
        assert(entry_table(slots@) =~= entry_table(old(slots)@));
    }
}

impl<K, V> LruCache<K, V> {
    /// The entries, most recently used first.
    pub closed spec fn view(&self) -> Seq<(K, V)> {
        entries_of(self.slots@, self.order@)
    }

    /// The hard upper bound on the number of entries.
    pub closed spec fn capacity(&self) -> nat {
        self.capacity as nat
    }

    /// The internal invariant: links and lookup table agree, within bound.
    pub closed spec fn wf(&self) -> bool {
        &&& obeys_key_model::<K>()
        &&& links_ok(self.slots@, self.order@, self.head, self.tail)
        &&& self.order@.len() == self.slots@.len()
        &&& map_ok(self.map@, self@, self.order@)
        &&& self.order@.len() <= self.capacity
    }
}

impl<K, V> LruCache<K, V> {
    /// What a `get` of `key` does: the answer is the stored value, and a hit
    /// becomes the most recently used entry.
    pub open spec fn get_post(old: Self, new: Self, key: K, r: Option<V>) -> bool {
        &&& r == lookup(old@, key)
        &&& new@ == if has_key(old@, key) {
            promote(old@, key)
        } else {
            old@
        }
        &&& new.capacity() == old.capacity()
    }

    /// What a `put` of `(key, val)` does: with capacity `0` the pair comes
    /// back rejected; a present key is updated and becomes most recently
    /// used; a fresh key goes in front, and when the cache was full the least
    /// recently used pair comes back evicted.
    pub open spec fn put_post(old: Self, new: Self, key: K, val: V, r: Option<(K, V)>) -> bool {
        &&& new.capacity() == old.capacity()
        &&& if old.capacity() == 0 {
            r == Some((key, val)) && new@ == old@
        } else if has_key(old@, key) {
            r is None && new@ == seq![(key, val)] + without(old@, key)
        } else if old@.len() == old.capacity() {
            r == Some(old@.last()) && new@ == seq![(key, val)] + old@.drop_last()
        } else {
            r is None && new@ == seq![(key, val)] + old@
        }
    }

    /// Every stored value is the one `answer` gives for its key.
    pub open spec fn faithful(&self, answer: spec_fn(K) -> V) -> bool {
        forall|i: int| 0 <= i < self@.len() ==> #[trigger] self@[i].1 == answer(self@[i].0)
    }
}

impl<K: Hash + Eq + Clone, V> LruCache<K, V> {
    /// A faithful cache answers a lookup with `answer(key)` or nothing, and
    /// stays faithful: a lookup never serves a value `answer` would not give.
    pub proof fn lemma_get_faithful(old: Self, new: Self, key: K, r: Option<V>, answer: spec_fn(K) -> V)
        requires
            old.wf(),
            old.faithful(answer),
            Self::get_post(old, new, key, r),
        ensures
            new.faithful(answer),
            r is Some ==> r == Some(answer(key)),
    {
        old.lemma_wf();
        let s = old@;
        if has_key(s, key) {
            let i = key_index(s, key);
            let w = choose|w: int| 0 <= w < s.len() && #[trigger] s[w].0 == key;
            lemma_key_index(s, w);
            let t = promote(s, key);
            assert forall|j: int| 0 <= j < t.len() implies #[trigger] t[j].1 == answer(t[j].0) by {
                let oj = if j == 0 { i } else if j - 1 < i { j - 1 } else { j };
                assert(t[j] == s[oj]);
            }
        }
    }

    /// Storing `answer(key)` keeps a faithful cache faithful, whatever it
    /// evicts.
    pub proof fn lemma_put_faithful(old: Self, new: Self, key: K, r: Option<(K, V)>, answer: spec_fn(K) -> V)
        requires
            old.wf(),
            old.faithful(answer),
            Self::put_post(old, new, key, answer(key), r),
        ensures
            new.faithful(answer),
    {
        old.lemma_wf();
        let s = old@;
        let t = new@;
        if old.capacity() > 0 {
            assert forall|j: int| 0 <= j < t.len() implies #[trigger] t[j].1 == answer(t[j].0) by {
                if j > 0 {
                    if has_key(s, key) {
                        let i = key_index(s, key);
                        let w = choose|w: int| 0 <= w < s.len() && #[trigger] s[w].0 == key;
                        lemma_key_index(s, w);
                        crate::model::lemma_without(s, key);
                        assert(without(s, key) == s.remove(i));
                        let oj = if j - 1 < i { j - 1 } else { j };
                        assert(t[j] == s[oj]);
                    } else {
                        assert(t[j] == s[j - 1]);
                    }
                }
            }
        }
    }

    /// Every well-formed cache holds distinct keys, within its capacity.
    pub proof fn lemma_wf(&self)
        requires
            self.wf(),
        ensures
            crate::model::distinct_keys(self@),
            self@.len() <= self.capacity(),
    {
        lemma_distinct(self.map@, self@, self.order@);
    }

    /// Creates an empty cache that holds at most `capacity` entries.
    ///
    /// A `capacity` of `0` makes every [`put`](LruCache::put) a no-op that
    /// returns the rejected pair.
    pub fn with_capacity(capacity: usize) -> (r: Self)
        requires
            obeys_key_model::<K>(),
        ensures
            r.wf(),
            r@ == Seq::<(K, V)>::empty(),
            r.capacity() == capacity,
    {
        let r = LruCache {
            map: HashMap::with_capacity(capacity),
            slots: Vec::with_capacity(capacity),
            head: NIL,
            tail: NIL,
            capacity,
            order: Ghost(Seq::empty()),
        };
        proof {
            assert(r@ =~= Seq::<(K, V)>::empty());
            assert(r.map@.dom() =~= Set::<K>::empty());
        }
        r
    }

    /// The number of entries currently stored.
    pub fn len(&self) -> (r: usize)
        requires
            self.wf(),
        ensures
            r == self@.len(),
    {
        self.map.len()
    }

    /// Unlinks the slot at position `i`, repairing its neighbours' links.
    fn detach(&mut self, idx: usize, Ghost(i): Ghost<int>)
        requires
            links_ok(old(self).slots@, old(self).order@, old(self).head, old(self).tail),
            0 <= i < old(self).order@.len(),
            old(self).order@[i] == idx,
        ensures
            links_ok(final(self).slots@, final(self).order@, final(self).head, final(self).tail),
            final(self).order@ == old(self).order@.remove(i),
            same_entries(old(self).slots@, final(self).slots@),
            final(self).slots@.len() == old(self).slots@.len(),
            final(self).map == old(self).map,
            final(self).capacity == old(self).capacity,
    {
        let ghost order = self.order@;
        let ghost slots0 = self.slots@;
        let ghost head0 = self.head;
        let ghost tail0 = self.tail;
        assert(node_ok(slots0, order, i));
        assert(slots0.len() == self.slots.len());
        assert(i + 1 < order.len() ==> node_ok(slots0, order, i + 1));
        assert(i > 0 ==> node_ok(slots0, order, i - 1));
        let prev = self.slots[idx].prev;
        let next = self.slots[idx].next;
        assert(prev == prev_of(order, i));
        assert(next == next_of(order, i));
        if prev != NIL {
            set_next(&mut self.slots, prev, next);
        } else {
            self.head = next;
        }
        if next != NIL {
            set_prev(&mut self.slots, next, prev);
        } else {
            self.tail = prev;
        }
        proof {
            lemma_unlink(link_table(slots0), order, head0, tail0, i);
            assert(link_table(self.slots@) == unlinked(link_table(slots0), order, i));
            self.order@ = order.remove(i);
        }
    }

    /// Links the detached slot `idx` in at the head (most-recently-used).
    fn push_front(&mut self, idx: usize)
        requires
            links_ok(old(self).slots@, old(self).order@, old(self).head, old(self).tail),
            idx < old(self).slots@.len(),
            !old(self).order@.contains(idx),
        ensures
            links_ok(final(self).slots@, final(self).order@, final(self).head, final(self).tail),
            final(self).order@ == seq![idx] + old(self).order@,
            same_entries(old(self).slots@, final(self).slots@),
            final(self).slots@.len() == old(self).slots@.len(),
            final(self).map == old(self).map,
            final(self).capacity == old(self).capacity,
    {
        let ghost order = self.order@;
        let ghost slots0 = self.slots@;
        let ghost head0 = self.head;
        let ghost tail0 = self.tail;
        assert(order.len() > 0 ==> node_ok(slots0, order, 0));
        assert(slots0.len() == self.slots.len());
        let old_head = self.head;
        set_prev(&mut self.slots, idx, NIL);
        set_next(&mut self.slots, idx, old_head);
        if old_head != NIL {
            set_prev(&mut self.slots, old_head, idx);
        } else {
            // The list was empty: this entry is both head and tail.
            self.tail = idx;
        }
        self.head = idx;
        proof {
            lemma_link_front(link_table(slots0), order, head0, tail0, idx);
            assert(link_table(self.slots@) == linked_front(link_table(slots0), order, idx));
            self.order@ = seq![idx] + order;
        }
    }

    /// Moves the slot at position `i` to the head.
    fn promote_slot(&mut self, idx: usize, Ghost(i): Ghost<int>)
        requires
            old(self).wf(),
            0 <= i < old(self).order@.len(),
            old(self).order@[i] == idx,
        ensures
            final(self).wf(),
            final(self)@ == seq![old(self)@[i]] + old(self)@.remove(i),
            final(self).order@[0] == idx,
            final(self).capacity == old(self).capacity,
    {
        let ghost old_self = *self;
        self.detach(idx, Ghost(i));
        assert(node_ok(old_self.slots@, old_self.order@, i));
        assert(!self.order@.contains(idx)) by {
            if self.order@.contains(idx) {
                let j = choose|j: int| 0 <= j < self.order@.len() && self.order@[j] == idx;
                let oj = if j < i { j } else { j + 1 };
                assert(old_self.order@[oj] == idx);
            }
        }
        self.push_front(idx);
        proof {
            let order = old_self.order@;
            lemma_listed_promote(entry_table(old_self.slots@), order, i);
            lemma_map_promote(old_self.map@, old_self@, order, i);
        }
    }

    /// The slot holding `key`.
    fn slot_of(&self, key: &K) -> (r: Option<usize>)
        requires
            self.wf(),
        ensures
            match r {
                Some(idx) => has_key(self@, *key) && self.order@[key_index(self@, *key)] == idx,
                None => !has_key(self@, *key),
            },
    {
        proof {
            if has_key(self@, *key) {
                let i = choose|i: int| 0 <= i < self@.len() && #[trigger] self@[i].0 == *key;
                assert(self.map@.contains_key(self@[i].0));
            }
        }
        match self.map.get(key) {
            Some(idx) => {
                proof {
                    let i = key_index(self@, *key);
                    assert(self.map@.contains_key(self@[i].0));
                }
                Some(*idx)
            },
            None => None,
        }
    }

    /// Looks up `key`, promoting it to most-recently-used on a hit.
    ///
    /// Returns `None` without touching recency on a miss.
    pub fn get(&mut self, key: &K) -> (r: Option<&V>)
        requires
            old(self).wf(),
        ensures
            final(self).wf(),
            Self::get_post(*old(self), *final(self), *key, match r {
                Some(v) => Some(*v),
                None => None,
            }),
    {
        let idx = match self.slot_of(key) {
            Some(idx) => idx,
            None => return None,
        };
        let ghost i = key_index(self@, *key);
        proof {
            lemma_distinct(self.map@, self@, self.order@);
            lemma_key_index(self@, i);
        }
        self.promote_slot(idx, Ghost(i));
        proof {
            assert(node_ok(self.slots@, self.order@, 0));
            assert(self@[0] == old(self)@[i]);
        }
        Some(&self.slots[idx].val)
    }

    /// Inserts or updates `key`, making it most-recently-used.
    ///
    /// Returns the evicted least-recently-used pair when a fresh insert
    /// overflows capacity, or `None` otherwise. When the capacity is `0` the
    /// pair is rejected immediately and returned unchanged.
    pub fn put(&mut self, key: K, val: V) -> (r: Option<(K, V)>)
        requires
            old(self).wf(),
        ensures
            final(self).wf(),
            Self::put_post(*old(self), *final(self), key, val, r),
    {
        if self.capacity == 0 {
            return Some((key, val));
        }
        let ghost old_self = *self;
        proof {
            lemma_distinct(self.map@, self@, self.order@);
        }
        if let Some(idx) = self.slot_of(&key) {
            // Key already present: replace the value and promote.
            let ghost i = key_index(self@, key);
            proof {
                lemma_key_index(self@, i);
                assert(node_ok(self.slots@, self.order@, i));
            }
            self.slots[idx].val = val;
            proof {
                let order = self.order@;
                assert(link_table(self.slots@) =~= link_table(old_self.slots@));
                let v1 = old_self@.update(i, (key, val));
                assert forall|j: int| 0 <= j < order.len() implies #[trigger] self@[j] == v1[j] by {
                    assert(node_ok(old_self.slots@, order, j));
                    if j != i {
                        assert(order[j] != idx);
                    }
                }
                assert(self@ =~= v1);
                crate::links::lemma_map_update(old_self.map@, old_self@, order, i, val);
            }
            self.promote_slot(idx, Ghost(i));
            proof {
                assert(self@ =~= seq![(key, val)] + without(old_self@, key));
            }
            return None;
        }
        if self.map.len() == self.capacity {
            // Full: evict the tail and recycle its slot in place.
            let idx = self.tail;
            let ghost i = self.order@.len() - 1;
            proof {
                assert(node_ok(self.slots@, self.order@, i));
                lemma_key_index(self@, i);
                assert(self.map@.contains_key(self@[i].0));
            }
            self.detach(idx, Ghost(i));
            let ghost mid = self.slots@;
            let mut evicted_key = clone_key(&key);
            std::mem::swap(&mut self.slots[idx].key, &mut evicted_key);
            let mut evicted_val = val;
            std::mem::swap(&mut self.slots[idx].val, &mut evicted_val);
            let _removed = self.map.remove(&evicted_key);
            let _prev = self.map.insert(key, idx);
            proof {
                let order = old_self.order@;
                let o1 = order.remove(i);
                assert(!o1.contains(idx)) by {
                    if o1.contains(idx) {
                        let j = choose|j: int| 0 <= j < o1.len() && o1[j] == idx;
                        assert(order[j] == idx);
                    }
                }
                assert(link_table(self.slots@) =~= link_table(mid));
                assert forall|j: int| 0 <= j < o1.len() implies #[trigger] o1[j] < old_self.slots@.len() by {
                    assert(o1[j] == order[j]);
                    assert(node_ok(old_self.slots@, order, j));
                }
                assert forall|j: int| 0 <= j < o1.len() implies #[trigger] entries_of(mid, o1)[j] == entries_of(
                    self.slots@,
                    o1,
                )[j] by {
                    assert(o1[j] != idx);
                }
                assert(entries_of(mid, o1) =~= entries_of(self.slots@, o1));
                assert(entries_of(old_self.slots@, o1) =~= old_self@.drop_last());
                lemma_map_remove(old_self.map@, old_self@, order, i);
                assert(old_self@.remove(i) =~= old_self@.drop_last());
                assert(!has_key(old_self@.drop_last(), key)) by {
                    if has_key(old_self@.drop_last(), key) {
                        let w = choose|w: int| 0 <= w < old_self@.drop_last().len() && #[trigger] old_self@.drop_last()[w].0 == key;
                        assert(old_self@[w].0 == key);
                    }
                }
                lemma_map_push(old_self.map@.remove(old_self@[i].0), old_self@.drop_last(), o1, key, val, idx);
                self.order@ = o1;
                assert(entries_of(self.slots@, o1) == old_self@.drop_last());
            }
            let ghost pre = self.slots@;
            self.push_front(idx);
            proof {
                let o1 = old_self.order@.remove(i);
                assert(entries_of(pre, seq![idx] + o1) =~= seq![(pre[idx as int].key, pre[idx as int].val)]
                    + entries_of(pre, o1));
                assert(self@ =~= seq![(key, val)] + old_self@.drop_last());
            }
            return Some((evicted_key, evicted_val));
        }
        // Room to grow: append a fresh slot.
        let idx = self.slots.len();
        self.slots.push(Slot { key: clone_key(&key), val, prev: NIL, next: NIL });
        let _prev = self.map.insert(key, idx);
        proof {
            let order = old_self.order@;
            assert(!order.contains(idx)) by {
                if order.contains(idx) {
                    let j = choose|j: int| 0 <= j < order.len() && order[j] == idx;
                    assert(node_ok(old_self.slots@, order, j));
                }
            }
            assert(link_table(self.slots@) =~= link_table(old_self.slots@).push(Some((NIL, NIL))));
            assert forall|j: int| 0 <= j < order.len() implies #[trigger] order[j] < link_table(self.slots@).len()
                && link_table(self.slots@)[order[j] as int] == link_table(old_self.slots@)[order[j] as int] by {
                assert(node_ok(old_self.slots@, order, j));
            }
            crate::links::lemma_chain_agree(link_table(old_self.slots@), link_table(self.slots@), order, old_self.head, old_self.tail);
            assert(entries_of(old_self.slots@, order) =~= entries_of(self.slots@, order)) by {
                assert forall|j: int| 0 <= j < order.len() implies #[trigger] entries_of(old_self.slots@, order)[j]
                    == entries_of(self.slots@, order)[j] by {
                    assert(node_ok(old_self.slots@, order, j));
                }
            }
            lemma_map_push(old_self.map@, old_self@, order, key, val, idx);
        }
        self.push_front(idx);
        proof {
            assert(self@ =~= seq![(key, val)] + old_self@);
        }
        None
    }

    /// Removes every entry, keeping the allocated capacity for reuse.
    pub fn clear(&mut self)
        requires
            old(self).wf(),
        ensures
            final(self).wf(),
            final(self)@ == Seq::<(K, V)>::empty(),
            final(self).capacity() == old(self).capacity(),
    {
        self.map.clear();
        self.slots.clear();
        self.head = NIL;
        self.tail = NIL;
        proof {
            self.order@ = Seq::empty();
            assert(self@ =~= Seq::<(K, V)>::empty());
            assert(self.map@.dom() =~= Set::<K>::empty());
        }
    }
}

} // verus!
