//! An insertion/recency-ordered map: the primitive every eviction policy is
//! built on.
//!
//! [`OrderedMap`] is a hash map whose entries are also threaded onto a single
//! doubly-linked list in most-recently-touched-first order. Entries live in a
//! flat arena of slots with a free-list, so removals recycle storage.

use std::collections::HashMap;
use std::hash::Hash;
use vstd::prelude::*;
use vstd::std_specs::hash::obeys_key_model;
use crate::model::{clone_key, has_key, key_index, lookup, lemma_key_index, promote, without};
use crate::links::{NIL, chain_ok, lemma_distinct, lemma_link_front, lemma_listed_promote, lemma_listed_push, lemma_listed_remove, lemma_map_promote, lemma_map_push, lemma_map_remove, lemma_map_update, lemma_unlink, linked_at, linked_front, listed, map_ok, next_of, no_dup, prev_of, unlinked, with_next, with_prev};

verus! {

/// One arena entry.
struct Node<K, V> {
    key: K,
    val: V,
    /// More-recently-touched neighbour, or [`NIL`] at the front.
    prev: usize,
    /// Less-recently-touched neighbour, or [`NIL`] at the back.
    next: usize,
}

/// Each slot's recorded neighbours, `None` where vacant.
spec fn link_table<K, V>(slots: Seq<Option<Node<K, V>>>) -> Seq<Option<(usize, usize)>> {
    slots.map_values(|n: Option<Node<K, V>>| match n {
        Some(n) => Some((n.prev, n.next)),
        None => None,
    })
}

/// Each slot's entry, `None` where vacant.
spec fn entry_table<K, V>(slots: Seq<Option<Node<K, V>>>) -> Seq<Option<(K, V)>> {
    slots.map_values(|n: Option<Node<K, V>>| match n {
        Some(n) => Some((n.key, n.val)),
        None => None,
    })
}

/// Two arenas hold the same entries at the same places (links may differ).
spec fn same_entries<K, V>(a: Seq<Option<Node<K, V>>>, b: Seq<Option<Node<K, V>>>) -> bool {
    &&& a.len() == b.len()
    &&& entry_table(a) == entry_table(b)
}

/// A recency-ordered map with front/back operations and arbitrary removal.
pub struct OrderedMap<K, V> {
    /// Key to slot-index lookup.
    map: HashMap<K, usize>,
    /// Slot arena; `None` entries are free.
    slots: Vec<Option<Node<K, V>>>,
    /// Recycled slot indices.
    free: Vec<usize>,
    /// Front (most-recently-touched) slot, or [`NIL`] when empty.
    front: usize,
    /// Back (least-recently-touched) slot, or [`NIL`] when empty.
    back: usize,
    /// The live slots, front to back.
    order: Ghost<Seq<usize>>,
}

impl<K, V> OrderedMap<K, V> {
    /// The live slots, front to back, are threaded by their links.
    spec fn list_ok(&self) -> bool {
        links_ok(self.slots@, self.order@, self.front, self.back)
    }

    /// The entries, front (most recently touched) to back.
    pub closed spec fn view(&self) -> Seq<(K, V)> {
        entries_of(self.slots@, self.order@)
    }

    /// The number of arena slots, live or vacant.
    pub closed spec fn slot_count(&self) -> nat {
        self.slots@.len()
    }

    /// Whether arena slot `j` holds an entry.
    pub closed spec fn slot_live(&self, j: int) -> bool {
        self.slots@[j] is Some
    }

    /// The entry held by arena slot `j`.
    pub closed spec fn slot_entry(&self, j: int) -> (K, V) {
        (self.slots@[j]->0.key, self.slots@[j]->0.val)
    }

    /// The `(prev, next)` neighbours recorded in arena slot `j`.
    pub closed spec fn slot_links(&self, j: int) -> (usize, usize) {
        (self.slots@[j]->0.prev, self.slots@[j]->0.next)
    }

    /// The front and back slots, `usize::MAX` when empty.
    pub closed spec fn ends(&self) -> (usize, usize) {
        (self.front, self.back)
    }

    /// The slots of the entries, front to back.
    pub closed spec fn live_slots(&self) -> Seq<usize> {
        self.order@
    }

    /// The recycled slot indices; the last one is reused first.
    pub closed spec fn free_slots(&self) -> Seq<usize> {
        self.free@
    }

    /// The lookup table from key to slot.
    pub closed spec fn slot_index(&self) -> Map<K, usize> {
        self.map@
    }

    /// The internal invariant: links, lookup table and free-list agree.
    pub closed spec fn wf(&self) -> bool {
        &&& obeys_key_model::<K>()
        &&& self.list_ok()
        &&& map_ok(self.map@, self@, self.order@)
        &&& free_ok(self.free@, self.order@, self.slots@.len())
        &&& vacant_ok(self.free@, self.slots@)
        &&& live_listed(self.slots@, self.order@)
    }
}

/// The entries held by the slots listed in `order`.
spec fn entries_of<K, V>(slots: Seq<Option<Node<K, V>>>, order: Seq<usize>) -> Seq<(K, V)> {
    listed(entry_table(slots), order)
}

/// The free-list names distinct in-range slots that are not listed.
spec fn free_ok(free: Seq<usize>, order: Seq<usize>, len: nat) -> bool {
    &&& no_dup(free)
    &&& forall|i: int| 0 <= i < free.len() ==> #[trigger] free[i] < len
    &&& forall|i: int, j: int| 0 <= i < free.len() && 0 <= j < order.len() ==> #[trigger] free[i] != #[trigger] order[j]
}

/// Slot `j` is named somewhere on `list`.
spec fn on_list(list: Seq<usize>, j: int) -> bool {
    exists|a: int| 0 <= a < list.len() && list[a] == j
}

/// The free-list names vacant slots only, and every vacant slot is on it.
spec fn vacant_ok<K, V>(free: Seq<usize>, slots: Seq<Option<Node<K, V>>>) -> bool {
    &&& forall|a: int| 0 <= a < free.len() ==> #[trigger] free[a] < slots.len() && slots[free[a] as int] is None
    &&& forall|j: int| 0 <= j < slots.len() && (#[trigger] slots[j]) is None ==> on_list(free, j)
}

/// Every live slot is listed.
spec fn live_listed<K, V>(slots: Seq<Option<Node<K, V>>>, order: Seq<usize>) -> bool {
    forall|j: int| 0 <= j < slots.len() && (#[trigger] slots[j]) is Some ==> on_list(order, j)
}

/// Moving a listed slot to the front keeps every slot listed.
proof fn lemma_on_list_promote(order: Seq<usize>, i: int, j: int)
    requires
        0 <= i < order.len(),
        on_list(order, j),
    ensures
        on_list(seq![order[i]] + order.remove(i), j),
{
    let o2 = seq![order[i]] + order.remove(i);
    let k = choose|k: int| 0 <= k < order.len() && order[k] == j;
    let nk = if k == i { 0 } else if k < i { k + 1 } else { k };
    assert(o2[nk] == order[k]);
}

/// The free-list still names exactly the vacant slots when the arena keeps
/// its entries in place.
proof fn lemma_vacant_same<K, V>(free: Seq<usize>, a: Seq<Option<Node<K, V>>>, b: Seq<Option<Node<K, V>>>)
    requires
        vacant_ok(free, a),
        same_entries(a, b),
    ensures
        vacant_ok(free, b),
{
    assert forall|x: int| 0 <= x < free.len() implies #[trigger] free[x] < b.len() && b[free[x] as int] is None by {
        assert(a[free[x] as int] is None);
        assert(entry_table(a)[free[x] as int] == entry_table(b)[free[x] as int]);
    }
    assert forall|j: int| 0 <= j < b.len() && (#[trigger] b[j]) is None implies on_list(free, j) by {
        assert(entry_table(a)[j] == entry_table(b)[j]);
    }
}

/// The slots listed in `order` are live and threaded front to back by their
/// links, with `front` and `back` naming the two ends.
spec fn links_ok<K, V>(slots: Seq<Option<Node<K, V>>>, order: Seq<usize>, front: usize, back: usize) -> bool {
    chain_ok(link_table(slots), order, front, back)
}

/// The slot at position `i` of `order` is live and linked to its neighbours.
spec fn node_ok<K, V>(slots: Seq<Option<Node<K, V>>>, order: Seq<usize>, i: int) -> bool {
    linked_at(link_table(slots), order, i)
}

/// Sets the forward link of slot `s`, if it is live.
fn set_next<K, V>(slots: &mut Vec<Option<Node<K, V>>>, s: usize, v: usize)
    requires
        s < old(slots)@.len(),
    ensures
        link_table(final(slots)@) == with_next(link_table(old(slots)@), s, v),
        same_entries(old(slots)@, final(slots)@),
{
    match &mut slots[s] {
        Some(node) => {
            node.next = v;
        },
        None => {},
    }
    proof {
        assert(link_table(slots@) =~= with_next(link_table(old(slots)@), s, v));
        assert(entry_table(slots@) =~= entry_table(old(slots)@));
    }
}

/// Sets the backward link of slot `s`, if it is live.
fn set_prev<K, V>(slots: &mut Vec<Option<Node<K, V>>>, s: usize, v: usize)
    requires
        s < old(slots)@.len(),
    ensures
        link_table(final(slots)@) == with_prev(link_table(old(slots)@), s, v),
        same_entries(old(slots)@, final(slots)@),
{
    match &mut slots[s] {
        Some(node) => {
            node.prev = v;
        },
        None => {},
    }
    proof {
        assert(link_table(slots@) =~= with_prev(link_table(old(slots)@), s, v));
        assert(entry_table(slots@) =~= entry_table(old(slots)@));
    }
}

/// Writing a slot that is not listed leaves the list and its entries alone.
proof fn lemma_write_unlisted<K, V>(
    a: Seq<Option<Node<K, V>>>,
    b: Seq<Option<Node<K, V>>>,
    order: Seq<usize>,
    front: usize,
    back: usize,
    s: usize,
)
    requires
        links_ok(a, order, front, back),
        a.len() <= b.len(),
        forall|j: int| 0 <= j < a.len() && j != s ==> b[j] == a[j],
        !order.contains(s),
    ensures
        links_ok(b, order, front, back),
        entries_of(a, order) == entries_of(b, order),
{
    assert forall|i: int| 0 <= i < order.len() implies #[trigger] order[i] < link_table(b).len() && link_table(b)[
        order[i] as int] == link_table(a)[order[i] as int] && entry_table(b)[order[i] as int] == entry_table(a)[
        order[i] as int] by {
        assert(node_ok(a, order, i));
        assert(order[i] != s);
    }
    crate::links::lemma_chain_agree(link_table(a), link_table(b), order, front, back);
    crate::links::lemma_listed_agree(entry_table(a), entry_table(b), order);
}

/// The free-list stays clear of the list when a listed slot moves to the front.
proof fn lemma_free_promote(free: Seq<usize>, order: Seq<usize>, len: nat, i: int)
    requires
        free_ok(free, order, len),
        0 <= i < order.len(),
    ensures
        free_ok(free, seq![order[i]] + order.remove(i), len),
{
    let o2 = seq![order[i]] + order.remove(i);
    assert forall|a: int, b: int| 0 <= a < free.len() && 0 <= b < o2.len() implies #[trigger] free[a] != #[trigger] o2[b] by {
        let ob = if b == 0 { i } else if b - 1 < i { b - 1 } else { b };
        assert(o2[b] == order[ob]);
    }
}

/// Replaces the value held by slot `s`, if it is live.
fn set_val<K, V>(slots: &mut Vec<Option<Node<K, V>>>, s: usize, v: V)
    requires
        s < old(slots)@.len(),
    ensures
        final(slots)@.len() == old(slots)@.len(),
        old(slots)@[s as int] is Some ==> (final(slots)@[s as int] is Some && final(slots)@[s as int]->0.val == v
            && final(slots)@[s as int]->0.key == old(slots)@[s as int]->0.key
            && final(slots)@[s as int]->0.prev == old(slots)@[s as int]->0.prev
            && final(slots)@[s as int]->0.next == old(slots)@[s as int]->0.next),
        old(slots)@[s as int] is None ==> final(slots)@[s as int] is None,
        forall|j: int| 0 <= j < old(slots)@.len() && j != s ==> final(slots)@[j] == old(slots)@[j],
{
    match &mut slots[s] {
        Some(node) => {
            node.val = v;
        },
        None => {},
    }
}

impl<K: Hash + Eq + Clone, V> OrderedMap<K, V> {
    /// Every well-formed map holds distinct keys.
    pub proof fn lemma_wf(&self)
        requires
            self.wf(),
        ensures
            crate::model::distinct_keys(self@),
    {
        lemma_distinct(self.map@, self@, self.order@);
    }

    /// The arena is fully accounted for: each entry sits in its own live slot,
    /// linked to the slots of its neighbours in the list (`usize::MAX` past
    /// either end), and every live slot holds an entry; the lookup table sends
    /// each key to its slot and knows no other key; the free-list names every
    /// vacant slot exactly once and nothing else.
    pub proof fn lemma_free_list(&self)
        requires
            self.wf(),
        ensures
            self.live_slots().len() == self@.len(),
            self.ends() == if self@.len() == 0 {
                (usize::MAX, usize::MAX)
            } else {
                (self.live_slots()[0], self.live_slots()[self@.len() - 1])
            },
            forall|i: int|
                0 <= i < self@.len() ==> #[trigger] self.slot_links(self.live_slots()[i] as int) == (
                    if i == 0 {
                        usize::MAX
                    } else {
                        self.live_slots()[i - 1]
                    },
                    if i + 1 == self@.len() {
                        usize::MAX
                    } else {
                        self.live_slots()[i + 1]
                    },
                ),
            forall|i: int|
                0 <= i < self@.len() ==> #[trigger] self.live_slots()[i] < self.slot_count() && self.slot_live(
                    self.live_slots()[i] as int,
                ) && self.slot_entry(self.live_slots()[i] as int) == self@[i],
            forall|i: int, j: int|
                0 <= i < self@.len() && 0 <= j < self@.len() && i != j ==> #[trigger] self.live_slots()[i]
                    != #[trigger] self.live_slots()[j],
            forall|i: int|
                0 <= i < self@.len() ==> #[trigger] self.slot_index().contains_key(self@[i].0)
                    && self.slot_index()[self@[i].0] == self.live_slots()[i],
            forall|k: K| #[trigger] self.slot_index().contains_key(k) ==> has_key(self@, k),
            forall|a: int|
                0 <= a < self.free_slots().len() ==> #[trigger] self.free_slots()[a] < self.slot_count()
                    && !self.slot_live(self.free_slots()[a] as int),
            forall|a: int, b: int|
                0 <= a < self.free_slots().len() && 0 <= b < self.free_slots().len() && a != b
                    ==> #[trigger] self.free_slots()[a] != #[trigger] self.free_slots()[b],
            forall|j: int|
                0 <= j < self.slot_count() && !#[trigger] self.slot_live(j) ==> exists|a: int|
                    0 <= a < self.free_slots().len() && self.free_slots()[a] == j,
            forall|j: int|
                0 <= j < self.slot_count() && #[trigger] self.slot_live(j) ==> exists|i: int|
                    0 <= i < self@.len() && self.live_slots()[i] == j,
    {
        assert forall|i: int| 0 <= i < self@.len() implies #[trigger] self.live_slots()[i] < self.slot_count()
            && self.slot_live(self.live_slots()[i] as int) && self.slot_entry(self.live_slots()[i] as int)
            == self@[i] by {
            assert(node_ok(self.slots@, self.order@, i));
        }
        assert forall|i: int| 0 <= i < self@.len() implies #[trigger] self.slot_links(self.live_slots()[i] as int) == (
            if i == 0 {
                usize::MAX
            } else {
                self.live_slots()[i - 1]
            },
            if i + 1 == self@.len() {
                usize::MAX
            } else {
                self.live_slots()[i + 1]
            },
        ) by {
            assert(node_ok(self.slots@, self.order@, i));
        }
        assert forall|j: int| 0 <= j < self.slot_count() && !#[trigger] self.slot_live(j) implies exists|a: int|
            0 <= a < self.free_slots().len() && self.free_slots()[a] == j by {
            assert(self.slots@[j] is None);
            assert(on_list(self.free@, j));
            let a = choose|a: int| 0 <= a < self.free@.len() && self.free@[a] == j;
            assert(self.free_slots()[a] == j);
        }
        assert forall|j: int| 0 <= j < self.slot_count() && #[trigger] self.slot_live(j) implies exists|i: int|
            0 <= i < self@.len() && self.live_slots()[i] == j by {
            assert(self.slots@[j] is Some);
            assert(on_list(self.order@, j));
            let i = choose|i: int| 0 <= i < self.order@.len() && self.order@[i] == j;
            assert(self.live_slots()[i] == j);
        }
    }

    /// An empty map with room reserved for `capacity` entries.
    pub fn with_capacity(capacity: usize) -> (r: Self)
        requires
            obeys_key_model::<K>(),
        ensures
            r.wf(),
            r@ == Seq::<(K, V)>::empty(),
    {
        let r = OrderedMap {
            map: HashMap::with_capacity(capacity),
            slots: Vec::with_capacity(capacity),
            free: Vec::new(),
            front: NIL,
            back: NIL,
            order: Ghost(Seq::empty()),
        };
        proof {
            assert(r@ =~= Seq::<(K, V)>::empty());
            assert(r.map@.dom() =~= Set::<K>::empty());
        }
        r
    }

    /// The number of live entries.
    pub fn len(&self) -> (r: usize)
        requires
            self.wf(),
        ensures
            r == self@.len(),
    {
        self.map.len()
    }

    /// Whether `key` is present.
    pub fn contains(&self, key: &K) -> (r: bool)
        requires
            self.wf(),
        ensures
            r == has_key(self@, *key),
    {
        proof {
            if has_key(self@, *key) {
                let i = choose|i: int| 0 <= i < self@.len() && #[trigger] self@[i].0 == *key;
                assert(self.map@.contains_key(self@[i].0));
            }
        }
        self.map.contains_key(key)
    }

    /// The slot holding `key`, with its position in the list.
    fn slot_of(&self, key: &K) -> (r: Option<usize>)
        requires
            self.wf(),
        ensures
            match r {
                Some(idx) => has_key(self@, *key) && self.order@[key_index(self@, *key)] == idx,
                None => !has_key(self@, *key),
            },
    {
        proof {
            if has_key(self@, *key) {
                let i = choose|i: int| 0 <= i < self@.len() && #[trigger] self@[i].0 == *key;
                assert(self.map@.contains_key(self@[i].0));
            }
        }
        match self.map.get(key) {
            Some(idx) => {
                proof {
                    let i = key_index(self@, *key);
                    assert(self.map@.contains_key(self@[i].0));
                }
                Some(*idx)
            },
            None => None,
        }
    }

    /// The value held by the listed slot `idx`.
    fn val_at(&self, idx: usize, Ghost(i): Ghost<int>) -> (r: Option<&V>)
        requires
            self.wf(),
            0 <= i < self.order@.len(),
            self.order@[i] == idx,
        ensures
            r == Some(&self@[i].1),
    {
        assert(node_ok(self.slots@, self.order@, i));
        if idx < self.slots.len() {
            match &self.slots[idx] {
                Some(node) => Some(&node.val),
                None => None,
            }
        } else {
            None
        }
    }

    /// Looks up `key` without changing its position.
    pub fn get(&self, key: &K) -> (r: Option<&V>)
        requires
            self.wf(),
        ensures
            match r {
                Some(v) => lookup(self@, *key) == Some(*v),
                None => lookup(self@, *key) is None,
            },
    {
        let idx = match self.slot_of(key) {
            Some(idx) => idx,
            None => return None,
        };
        let ghost i = key_index(self@, *key);
        proof {
            lemma_distinct(self.map@, self@, self.order@);
        }
        self.val_at(idx, Ghost(i))
    }

    /// Moves the listed slot at position `i` to the front.
    fn promote_slot(&mut self, idx: usize, Ghost(i): Ghost<int>)
        requires
            old(self).wf(),
            0 <= i < old(self).order@.len(),
            old(self).order@[i] == idx,
        ensures
            final(self).wf(),
            final(self)@ == seq![old(self)@[i]] + old(self)@.remove(i),
            final(self).order@[0] == idx,
    {
        let ghost old_self = *self;
        self.detach(idx, Ghost(i));
        assert(node_ok(old_self.slots@, old_self.order@, i));
        assert(!self.order@.contains(idx)) by {
            if self.order@.contains(idx) {
                let j = choose|j: int| 0 <= j < self.order@.len() && self.order@[j] == idx;
                let oj = if j < i { j } else { j + 1 };
                assert(old_self.order@[oj] == idx);
            }
        }
        let ghost mid = self.slots@;
        assert(entry_table(old_self.slots@)[idx as int] == entry_table(mid)[idx as int]);
        self.attach_front(idx);
        proof {
            let order = old_self.order@;
            lemma_vacant_same(old_self.free@, old_self.slots@, self.slots@);
            assert forall|j: int| 0 <= j < self.slots@.len() && (#[trigger] self.slots@[j]) is Some implies on_list(
                self.order@,
                j,
            ) by {
                assert(entry_table(old_self.slots@)[j] == entry_table(self.slots@)[j]);
                lemma_on_list_promote(order, i, j);
            }
            lemma_listed_promote(entry_table(old_self.slots@), order, i);
            lemma_map_promote(old_self.map@, old_self@, order, i);
            lemma_free_promote(old_self.free@, order, old_self.slots@.len(), i);
        }
    }

    /// Looks up `key` in a single hash probe, optionally promoting it to the
    /// front.
    pub fn access(&mut self, key: &K, promote_it: bool) -> (r: Option<&V>)
        requires
            old(self).wf(),
        ensures
            final(self).wf(),
            match r {
                Some(v) => lookup(old(self)@, *key) == Some(*v),
                None => lookup(old(self)@, *key) is None,
            },
            final(self)@ == if promote_it && has_key(old(self)@, *key) {
                promote(old(self)@, *key)
            } else {
                old(self)@
            },
    {
        let idx = match self.slot_of(key) {
            Some(idx) => idx,
            None => return None,
        };
        let ghost i = key_index(self@, *key);
        proof {
            lemma_distinct(self.map@, self@, self.order@);
            lemma_key_index(self@, i);
        }
        if promote_it {
            self.promote_slot(idx, Ghost(i));
            proof {
                lemma_distinct(self.map@, self@, self.order@);
                assert(self@[0] == old(self)@[i]);
            }
            self.val_at(idx, Ghost(0))
        } else {
            self.val_at(idx, Ghost(i))
        }
    }

    /// Replaces the value held by the listed slot at position `i`.
    fn set_val_at(&mut self, idx: usize, Ghost(i): Ghost<int>, val: V)
        requires
            old(self).wf(),
            0 <= i < old(self).order@.len(),
            old(self).order@[i] == idx,
        ensures
            final(self).wf(),
            final(self)@ == old(self)@.update(i, (old(self)@[i].0, val)),
            final(self).order == old(self).order,
    {
        let ghost old_self = *self;
        proof {
            assert(node_ok(self.slots@, self.order@, i));
        }
        set_val(&mut self.slots, idx, val);
        proof {
            let order = self.order@;
            assert(link_table(self.slots@) =~= link_table(old_self.slots@));
            assert forall|j: int| 0 <= j < order.len() implies #[trigger] self@[j] == old_self@.update(
                i,
                (old_self@[i].0, val),
            )[j] by {
                assert(node_ok(old_self.slots@, order, j));
                if j != i {
                    assert(order[j] != idx);
                }
            }
            assert(self@ =~= old_self@.update(i, (old_self@[i].0, val)));
            lemma_map_update(old_self.map@, old_self@, order, i, val);
            assert forall|j: int| 0 <= j < self.slots@.len() implies (#[trigger] self.slots@[j]) is None
                <==> old_self.slots@[j] is None by {
                if j != idx {
                    assert(self.slots@[j] == old_self.slots@[j]);
                }
            }
            assert forall|x: int| 0 <= x < self.free@.len() implies #[trigger] self.free@[x] < self.slots@.len()
                && self.slots@[self.free@[x] as int] is None by {
                assert(old_self.slots@[old_self.free@[x] as int] is None);
            }
            assert forall|j: int| 0 <= j < self.slots@.len() && (#[trigger] self.slots@[j]) is None implies
                on_list(self.free@, j) by {
                assert(old_self.slots@[j] is None);
            }
            assert forall|j: int| 0 <= j < self.slots@.len() && (#[trigger] self.slots@[j]) is Some implies
                on_list(self.order@, j) by {
                assert(old_self.slots@[j] is Some);
            }
        }
    }

    /// Replaces the value for an existing `key` without reordering. Does
    /// nothing if the key is absent.
    pub fn update_value(&mut self, key: &K, val: V)
        requires
            old(self).wf(),
        ensures
            final(self).wf(),
            final(self)@ == if has_key(old(self)@, *key) {
                old(self)@.update(key_index(old(self)@, *key), (*key, val))
            } else {
                old(self)@
            },
    {
        let idx = match self.slot_of(key) {
            Some(idx) => idx,
            None => return,
        };
        let ghost i = key_index(self@, *key);
        proof {
            lemma_distinct(self.map@, self@, self.order@);
            lemma_key_index(self@, i);
        }
        self.set_val_at(idx, Ghost(i), val);
    }

    /// Inserts `key` at the front. If `key` already exists, updates its value
    /// and promotes it to the front.
    pub fn insert_front(&mut self, key: K, val: V)
        requires
            old(self).wf(),
        ensures
            final(self).wf(),
            final(self)@ == seq![(key, val)] + without(old(self)@, key),
    {
        if let Some(idx) = self.slot_of(&key) {
            let ghost i = key_index(self@, key);
            proof {
                lemma_distinct(self.map@, self@, self.order@);
                lemma_key_index(self@, i);
            }
            self.set_val_at(idx, Ghost(i), val);
            self.promote_slot(idx, Ghost(i));
            proof {
                assert(self@ =~= seq![(key, val)] + without(old(self)@, key));
            }
            return;
        }
        let ghost old_self = *self;
        let node = Node { key: clone_key(&key), val, prev: NIL, next: NIL };
        let ghost n = node;
        let idx = match self.free.pop() {
            Some(reused) => {
                assert(old_self.free@[old_self.free@.len() - 1] == reused);
                self.slots[reused] = Some(node);
                reused
            },
            None => {
                self.slots.push(Some(node));
                self.slots.len() - 1
            },
        };
        let ghost mid = self.slots@;
        proof {
            let order = old_self.order@;
            assert(!order.contains(idx)) by {
                if order.contains(idx) {
                    let j = choose|j: int| 0 <= j < order.len() && order[j] == idx;
                    assert(node_ok(old_self.slots@, order, j));
                    if old_self.free@.len() > 0 {
                        assert(old_self.free@[old_self.free@.len() - 1] != order[j]);
                    }
                }
            }
            lemma_write_unlisted(old_self.slots@, mid, order, old_self.front, old_self.back, idx);
            assert(mid[idx as int] == Some(n));
        }
        self.map.insert(key, idx);
        self.attach_front(idx);
        proof {
            let order = old_self.order@;
            let o2 = seq![idx] + order;
            lemma_listed_push(entry_table(mid), order, idx);
            lemma_map_push(old_self.map@, old_self@, order, key, val, idx);
            assert(self@ =~= seq![(key, val)] + without(old_self@, key));
            let f2 = self.free@;
            assert forall|a: int, b: int| 0 <= a < f2.len() && 0 <= b < o2.len() implies #[trigger] f2[a]
                != #[trigger] o2[b] by {
                assert(f2[a] == old_self.free@[a]);
                if b > 0 {
                    assert(o2[b] == order[b - 1]);
                } else if old_self.free@.len() > 0 && f2.len() < old_self.free@.len() {
                    assert(old_self.free@[old_self.free@.len() - 1] == idx);
                }
            }
            assert(no_dup(f2)) by {
                assert forall|a: int, b: int| 0 <= a < f2.len() && 0 <= b < f2.len() && a != b implies #[trigger] f2[a]
                    != #[trigger] f2[b] by {
                    assert(f2[a] == old_self.free@[a]);
                    assert(f2[b] == old_self.free@[b]);
                }
            }
            assert forall|a: int| 0 <= a < f2.len() implies #[trigger] f2[a] < self.slots@.len() by {
                assert(f2[a] == old_self.free@[a]);
            }
            let s0 = old_self.slots@;
            let f0 = old_self.free@;
            assert forall|a: int| 0 <= a < f2.len() implies #[trigger] f2[a] < mid.len() && mid[f2[a] as int] is None by {
                assert(f2[a] == f0[a]);
                assert(s0[f0[a] as int] is None);
                assert(f0[a] != f0[f0.len() - 1]);
            }
            assert forall|j: int| 0 <= j < mid.len() && (#[trigger] mid[j]) is None implies on_list(f2, j) by {
                assert(j != idx);
                assert(j < s0.len());
                assert(mid[j] == s0[j]);
                assert(on_list(f0, j));
                let k = choose|k: int| 0 <= k < f0.len() && f0[k] == j;
                assert(f0[f0.len() - 1] == idx);
                assert(f2 == f0.drop_last());
                assert(k < f2.len());
                assert(f2[k] == f0[k]);
            }
            lemma_vacant_same(f2, mid, self.slots@);
            let s2 = self.slots@;
            assert forall|j: int| 0 <= j < s2.len() && (#[trigger] s2[j]) is Some implies on_list(o2, j) by {
                assert(entry_table(mid)[j] == entry_table(s2)[j]);
                if j == idx {
                    assert(o2[0] == idx);
                } else {
                    assert(j < s0.len());
                    assert(mid[j] == s0[j]);
                    assert(on_list(order, j));
                    let k = choose|k: int| 0 <= k < order.len() && order[k] == j;
                    assert(o2[k + 1] == order[k]);
                }
            }
        }
    }

    /// Promotes an existing `key` to the front. Does nothing if absent.
    pub fn move_to_front(&mut self, key: &K)
        requires
            old(self).wf(),
        ensures
            final(self).wf(),
            final(self)@ == if has_key(old(self)@, *key) {
                promote(old(self)@, *key)
            } else {
                old(self)@
            },
    {
        if let Some(idx) = self.slot_of(key) {
            let ghost i = key_index(self@, *key);
            self.promote_slot(idx, Ghost(i));
        }
    }

    /// Unlinks and frees the listed slot at position `i`, returning its entry.
    fn take_slot(&mut self, idx: usize, Ghost(i): Ghost<int>) -> (r: Option<Node<K, V>>)
        requires
            old(self).list_ok(),
            free_ok(old(self).free@, old(self).order@, old(self).slots@.len()),
            vacant_ok(old(self).free@, old(self).slots@),
            live_listed(old(self).slots@, old(self).order@),
            0 <= i < old(self).order@.len(),
            old(self).order@[i] == idx,
        ensures
            final(self).list_ok(),
            free_ok(final(self).free@, final(self).order@, final(self).slots@.len()),
            vacant_ok(final(self).free@, final(self).slots@),
            live_listed(final(self).slots@, final(self).order@),
            final(self).order@ == old(self).order@.remove(i),
            final(self)@ == old(self)@.remove(i),
            final(self).map == old(self).map,
            r matches Some(node) && node.key == old(self)@[i].0 && node.val == old(self)@[i].1,
    {
        let ghost old_self = *self;
        proof {
            assert(node_ok(self.slots@, self.order@, i));
        }
        self.detach(idx, Ghost(i));
        let ghost mid = self.slots@;
        proof {
            let o2 = self.order@;
            assert(!o2.contains(idx)) by {
                if o2.contains(idx) {
                    let j = choose|j: int| 0 <= j < o2.len() && o2[j] == idx;
                    let oj = if j < i { j } else { j + 1 };
                    assert(old_self.order@[oj] == idx);
                }
            }
            lemma_listed_remove(entry_table(old_self.slots@), old_self.order@, i);
        }
        assert(entry_table(old_self.slots@)[idx as int] == entry_table(mid)[idx as int]);
        let node = self.slots[idx].take();
        proof {
            lemma_write_unlisted(mid, self.slots@, self.order@, self.front, self.back, idx);
        }
        self.free.push(idx);
        proof {
            let f0 = old_self.free@;
            let f2 = self.free@;
            let o0 = old_self.order@;
            let o2 = self.order@;
            assert forall|a: int, b: int| 0 <= a < f2.len() && 0 <= b < o2.len() implies #[trigger] f2[a]
                != #[trigger] o2[b] by {
                let ob = if b < i { b } else { b + 1 };
                assert(o2[b] == o0[ob]);
                if a < f0.len() {
                    assert(f2[a] == f0[a]);
                } else {
                    assert(f2[a] == o0[i]);
                }
            }
            assert(no_dup(f2)) by {
                assert forall|a: int, b: int| 0 <= a < f2.len() && 0 <= b < f2.len() && a != b implies #[trigger] f2[a]
                    != #[trigger] f2[b] by {
                    if a < f0.len() && b < f0.len() {
                        assert(f2[a] == f0[a]);
                        assert(f2[b] == f0[b]);
                    } else if a < f0.len() {
                        assert(f2[a] == f0[a]);
                        assert(f0[a] != o0[i]);
                    } else {
                        assert(f2[b] == f0[b]);
                        assert(f0[b] != o0[i]);
                    }
                }
            }
            assert forall|a: int| 0 <= a < f2.len() implies #[trigger] f2[a] < self.slots@.len() by {
                if a < f0.len() {
                    assert(f2[a] == f0[a]);
                }
            }
            let s0 = old_self.slots@;
            let s2 = self.slots@;
            assert(s2[idx as int] is None);
            assert forall|a: int| 0 <= a < f2.len() implies #[trigger] f2[a] < s2.len() && s2[f2[a] as int] is None by {
                if a < f0.len() {
                    assert(f2[a] == f0[a]);
                    assert(s0[f0[a] as int] is None);
                    assert(s0[idx as int] is Some);
                    assert(entry_table(s0)[f0[a] as int] == entry_table(mid)[f0[a] as int]);
                    assert(s2[f0[a] as int] == mid[f0[a] as int]);
                }
            }
            assert forall|j: int| 0 <= j < s2.len() && (#[trigger] s2[j]) is None implies on_list(f2, j) by {
                if j == idx {
                    assert(f2[f0.len() as int] == idx);
                } else {
                    assert(s2[j] == mid[j]);
                    assert(entry_table(s0)[j] == entry_table(mid)[j]);
                    assert(on_list(f0, j));
                    let k = choose|k: int| 0 <= k < f0.len() && f0[k] == j;
                    assert(f2[k] == f0[k]);
                }
            }
            assert forall|j: int| 0 <= j < s2.len() && (#[trigger] s2[j]) is Some implies on_list(o2, j) by {
                assert(j != idx);
                assert(s2[j] == mid[j]);
                assert(entry_table(s0)[j] == entry_table(mid)[j]);
                assert(on_list(o0, j));
                let k = choose|k: int| 0 <= k < o0.len() && o0[k] == j;
                assert(k != i);
                let nk = if k < i { k } else { k - 1 };
                assert(o2[nk] == o0[k]);
            }
        }
        node
    }

    /// Removes `key`, returning its value if it was present.
    pub fn remove(&mut self, key: &K) -> (r: Option<V>)
        requires
            old(self).wf(),
        ensures
            final(self).wf(),
            r == lookup(old(self)@, *key),
            final(self)@ == without(old(self)@, *key),
    {
        let ghost old_self = *self;
        proof {
            if has_key(self@, *key) {
                let i = choose|i: int| 0 <= i < self@.len() && #[trigger] self@[i].0 == *key;
                assert(self.map@.contains_key(self@[i].0));
            }
        }
        let idx = match self.map.remove(key) {
            Some(idx) => idx,
            None => return None,
        };
        let ghost i = key_index(old_self@, *key);
        proof {
            lemma_distinct(old_self.map@, old_self@, old_self.order@);
            lemma_key_index(old_self@, i);
            assert(old_self.map@.contains_key(old_self@[i].0));
        }
        let node = self.take_slot(idx, Ghost(i));
        proof {
            lemma_map_remove(old_self.map@, old_self@, old_self.order@, i);
        }
        match node {
            Some(node) => Some(node.val),
            None => None,
        }
    }

    /// Removes and returns the back (least-recently-touched) entry.
    pub fn pop_back(&mut self) -> (r: Option<(K, V)>)
        requires
            old(self).wf(),
        ensures
            final(self).wf(),
            old(self)@.len() == 0 ==> r is None && final(self)@ == old(self)@,
            old(self)@.len() > 0 ==> r == Some(old(self)@.last()) && final(self)@ == old(self)@.drop_last(),
    {
        if self.back == NIL {
            proof {
                assert(self.slots@.len() == self.slots.len());
                if self.order@.len() > 0 {
                    assert(node_ok(self.slots@, self.order@, self.order@.len() - 1));
                }
            }
            return None;
        }
        let ghost old_self = *self;
        let ghost i = self.order@.len() - 1;
        let idx = self.back;
        proof {
            assert(node_ok(self.slots@, self.order@, i));
        }
        let key = match &self.slots[idx] {
            Some(node) => clone_key(&node.key),
            None => return None,
        };
        proof {
            lemma_distinct(self.map@, self@, self.order@);
            lemma_key_index(self@, i);
            assert(self.map@.contains_key(self@[i].0));
        }
        let _removed = self.map.remove(&key);
        let node = self.take_slot(idx, Ghost(i));
        proof {
            lemma_map_remove(old_self.map@, old_self@, old_self.order@, i);
            assert(old_self@.remove(i) =~= old_self@.drop_last());
        }
        match node {
            Some(node) => Some((key, node.val)),
            None => None,
        }
    }

    /// Empties the map, keeping allocated capacity for reuse.
    pub fn clear(&mut self)
        requires
            old(self).wf(),
        ensures
            final(self).wf(),
            final(self)@ == Seq::<(K, V)>::empty(),
    {
        self.map.clear();
        self.slots.clear();
        self.free.clear();
        self.front = NIL;
        self.back = NIL;
        proof {
            self.order@ = Seq::empty();
            assert(self@ =~= Seq::<(K, V)>::empty());
            assert(self.map@.dom() =~= Set::<K>::empty());
        }
    }

    /// Unlinks the slot at position `i` of the list, repairing its neighbours.
    fn detach(&mut self, idx: usize, Ghost(i): Ghost<int>)
        requires
            old(self).list_ok(),
            0 <= i < old(self).order@.len(),
            old(self).order@[i] == idx,
        ensures
            final(self).list_ok(),
            final(self).order@ == old(self).order@.remove(i),
            same_entries(old(self).slots@, final(self).slots@),
            final(self).map == old(self).map,
            final(self).free == old(self).free,
    {
        let ghost order = self.order@;
        let ghost slots0 = self.slots@;
        let ghost front0 = self.front;
        let ghost back0 = self.back;
        assert(node_ok(slots0, order, i));
        assert(slots0.len() == self.slots.len());
        let (prev, next) = self.links(idx);
        assert(prev == prev_of(order, i));
        assert(next == next_of(order, i));
        assert(i + 1 < order.len() ==> node_ok(slots0, order, i + 1));
        assert(i > 0 ==> node_ok(slots0, order, i - 1));
        if prev != NIL {
            set_next(&mut self.slots, prev, next);
        } else {
            self.front = next;
        }
        if next != NIL {
            set_prev(&mut self.slots, next, prev);
        } else {
            self.back = prev;
        }
        proof {
            lemma_unlink(link_table(slots0), order, front0, back0, i);
            assert(link_table(self.slots@) == unlinked(link_table(slots0), order, i));
            self.order@ = order.remove(i);
        }
    }

    /// Links the already-detached live slot `idx` in at the front.
    fn attach_front(&mut self, idx: usize)
        requires
            old(self).list_ok(),
            idx < old(self).slots@.len(),
            old(self).slots@[idx as int] is Some,
            !old(self).order@.contains(idx),
        ensures
            final(self).list_ok(),
            final(self).order@ == seq![idx] + old(self).order@,
            same_entries(old(self).slots@, final(self).slots@),
            final(self).map == old(self).map,
            final(self).free == old(self).free,
    {
        let ghost order = self.order@;
        let ghost slots0 = self.slots@;
        let ghost front0 = self.front;
        let ghost back0 = self.back;
        assert(order.len() > 0 ==> node_ok(slots0, order, 0));
        assert(slots0.len() == self.slots.len());
        let old_front = self.front;
        set_prev(&mut self.slots, idx, NIL);
        set_next(&mut self.slots, idx, old_front);
        if old_front != NIL {
            set_prev(&mut self.slots, old_front, idx);
        } else {
            self.back = idx;
        }
        self.front = idx;
        proof {
            lemma_link_front(link_table(slots0), order, front0, back0, idx);
            assert(link_table(self.slots@) == linked_front(link_table(slots0), order, idx));
            self.order@ = seq![idx] + order;
        }
    }

    /// Reads a slot's neighbours, or `(NIL, NIL)` if it is vacant.
    fn links(&self, idx: usize) -> (r: (usize, usize))
        ensures
            idx < self.slots@.len() && self.slots@[idx as int] is Some ==> r == (
            self.slots@[idx as int]->0.prev,
            self.slots@[idx as int]->0.next,
            ),
            !(idx < self.slots@.len() && self.slots@[idx as int] is Some) ==> r == (NIL, NIL),
    {
        if idx < self.slots.len() {
            match &self.slots[idx] {
                Some(node) => (node.prev, node.next),
                None => (NIL, NIL),
            }
        } else {
            (NIL, NIL)
        }
    }
}

} // verus!
