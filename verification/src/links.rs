//! Index-linked lists over an arena: the vocabulary shared by the caches'
//! recency lists, and the facts about their key-to-slot lookup tables.

use vstd::prelude::*;
use crate::model::{distinct_keys, has_key};

verus! {

/// Sentinel index marking "no neighbour".
pub(crate) const NIL: usize = usize::MAX;


/// The neighbour before position `i` of `order`, or [`NIL`] at the front.
pub(crate) open spec fn prev_of(order: Seq<usize>, i: int) -> usize {
    if i == 0 {
        NIL
    } else {
        order[i - 1]
    }
}

/// The neighbour after position `i` of `order`, or [`NIL`] at the back.
pub(crate) open spec fn next_of(order: Seq<usize>, i: int) -> usize {
    if i + 1 == order.len() {
        NIL
    } else {
        order[i + 1]
    }
}

/// First element of `order`, or [`NIL`] when empty.
pub(crate) open spec fn first_of(order: Seq<usize>) -> usize {
    if order.len() == 0 {
        NIL
    } else {
        order[0]
    }
}

/// Last element of `order`, or [`NIL`] when empty.
pub(crate) open spec fn last_of(order: Seq<usize>) -> usize {
    if order.len() == 0 {
        NIL
    } else {
        order[order.len() - 1]
    }
}

/// No index occurs twice in `s`.
pub(crate) open spec fn no_dup(s: Seq<usize>) -> bool {
    forall|i: int, j: int|
        0 <= i < s.len() && 0 <= j < s.len() && i != j ==> #[trigger] s[i] != #[trigger] s[j]
}

/// Position `i` of `order` is recorded in `links` with its two neighbours.
///
/// A link table holds, for each arena slot, its `(prev, next)` neighbours, or
/// `None` where the slot is vacant.
pub(crate) open spec fn linked_at(links: Seq<Option<(usize, usize)>>, order: Seq<usize>, i: int) -> bool {
    &&& order[i] < links.len()
    &&& links[order[i] as int] == Some((prev_of(order, i), next_of(order, i)))
}

/// The slots listed in `order` are threaded front to back by `links`, with
/// `front` and `back` naming the two ends.
pub(crate) open spec fn chain_ok(links: Seq<Option<(usize, usize)>>, order: Seq<usize>, front: usize, back: usize) -> bool {
    &&& no_dup(order)
    &&& forall|i: int| 0 <= i < order.len() ==> #[trigger] linked_at(links, order, i)
    &&& front == first_of(order)
    &&& back == last_of(order)
}

/// `links` with the forward link of slot `s` set to `v`, if the slot is live.
pub(crate) open spec fn with_next(links: Seq<Option<(usize, usize)>>, s: usize, v: usize) -> Seq<Option<(usize, usize)>> {
    if s < links.len() {
        match links[s as int] {
            Some((p, _)) => links.update(s as int, Some((p, v))),
            None => links,
        }
    } else {
        links
    }
}

/// `links` with the backward link of slot `s` set to `v`, if the slot is live.
pub(crate) open spec fn with_prev(links: Seq<Option<(usize, usize)>>, s: usize, v: usize) -> Seq<Option<(usize, usize)>> {
    if s < links.len() {
        match links[s as int] {
            Some((_, n)) => links.update(s as int, Some((v, n))),
            None => links,
        }
    } else {
        links
    }
}

/// `links` after unlinking position `i` of `order`: its neighbours are
/// joined to each other.
pub(crate) open spec fn unlinked(links: Seq<Option<(usize, usize)>>, order: Seq<usize>, i: int) -> Seq<Option<(usize, usize)>> {
    let mid = if i > 0 {
        with_next(links, order[i - 1], next_of(order, i))
    } else {
        links
    };
    if i + 1 < order.len() {
        with_prev(mid, order[i + 1], prev_of(order, i))
    } else {
        mid
    }
}

/// `links` after threading the unlisted slot `idx` in front of `order`.
pub(crate) open spec fn linked_front(links: Seq<Option<(usize, usize)>>, order: Seq<usize>, idx: usize) -> Seq<Option<(usize, usize)>> {
    let own = with_next(with_prev(links, idx, NIL), idx, first_of(order));
    if order.len() > 0 {
        with_prev(own, order[0], idx)
    } else {
        own
    }
}

/// The payloads of the slots listed in `order`, front to back.
pub(crate) open spec fn listed<T>(table: Seq<Option<T>>, order: Seq<usize>) -> Seq<T> {
    order.map_values(|s: usize| table[s as int]->0)
}

/// Unlinking position `i` leaves the rest threaded, and the ends move when
/// `i` was one.
pub(crate) proof fn lemma_unlink(links: Seq<Option<(usize, usize)>>, order: Seq<usize>, front: usize, back: usize, i: int)
    requires
        chain_ok(links, order, front, back),
        0 <= i < order.len(),
    ensures
        chain_ok(
            unlinked(links, order, i),
            order.remove(i),
            if i > 0 { front } else { next_of(order, i) },
            if i + 1 < order.len() { back } else { prev_of(order, i) },
        ),
        unlinked(links, order, i).len() == links.len(),
{
    let fin = unlinked(links, order, i);
    let new_order = order.remove(i);
    assert(linked_at(links, order, i));
    if i > 0 {
        assert(linked_at(links, order, i - 1));
    }
    if i + 1 < order.len() {
        assert(linked_at(links, order, i + 1));
    }
    if i > 0 && i + 1 < order.len() {
        assert(order[i - 1] != order[i + 1]);
    }
    assert forall|j: int| 0 <= j < new_order.len() implies #[trigger] linked_at(fin, new_order, j) by {
        let oj = if j < i { j } else { j + 1 };
        assert(new_order[j] == order[oj]);
        assert(linked_at(links, order, oj));
        if i > 0 && oj != i - 1 {
            assert(order[oj] != order[i - 1]);
        }
        if i + 1 < order.len() && oj != i + 1 {
            assert(order[oj] != order[i + 1]);
        }
        if j > 0 {
            let pj = if j - 1 < i { j - 1 } else { j };
            assert(new_order[j - 1] == order[pj]);
        }
        if j + 1 < new_order.len() {
            let nj = if j + 1 < i { j + 1 } else { j + 2 };
            assert(new_order[j + 1] == order[nj]);
        }
    }
    assert(no_dup(new_order)) by {
        assert forall|a: int, b: int|
            0 <= a < new_order.len() && 0 <= b < new_order.len() && a != b implies #[trigger] new_order[a]
            != #[trigger] new_order[b] by {
            let oa = if a < i { a } else { a + 1 };
            let ob = if b < i { b } else { b + 1 };
            assert(new_order[a] == order[oa]);
            assert(new_order[b] == order[ob]);
        }
    }
    if new_order.len() > 0 {
        assert(new_order[new_order.len() - 1] == order[if i + 1 < order.len() { order.len() - 1 } else { order.len() - 2 }]);
        assert(new_order[0] == order[if i > 0 { 0 } else { 1 }]);
    }
}

/// Threading an unlisted live slot in at the front keeps the list threaded.
pub(crate) proof fn lemma_link_front(links: Seq<Option<(usize, usize)>>, order: Seq<usize>, front: usize, back: usize, idx: usize)
    requires
        chain_ok(links, order, front, back),
        idx < links.len(),
        links[idx as int] is Some,
        !order.contains(idx),
    ensures
        chain_ok(linked_front(links, order, idx), seq![idx] + order, idx, if order.len() > 0 { back } else { idx }),
        linked_front(links, order, idx).len() == links.len(),
{
    let fin = linked_front(links, order, idx);
    let new_order = seq![idx] + order;
    if order.len() > 0 {
        assert(linked_at(links, order, 0));
        assert(order[0] != idx);
    }
    assert forall|j: int| 0 <= j < new_order.len() implies #[trigger] linked_at(fin, new_order, j) by {
        if j > 0 {
            assert(new_order[j] == order[j - 1]);
            assert(linked_at(links, order, j - 1));
            assert(order[j - 1] != idx);
            if j > 1 {
                assert(order[j - 1] != order[0]);
                assert(new_order[j - 1] == order[j - 2]);
            }
            if j + 1 < new_order.len() {
                assert(new_order[j + 1] == order[j]);
            }
        } else if order.len() > 0 {
            assert(new_order[1] == order[0]);
        }
    }
    assert(no_dup(new_order)) by {
        assert forall|a: int, b: int|
            0 <= a < new_order.len() && 0 <= b < new_order.len() && a != b implies #[trigger] new_order[a]
            != #[trigger] new_order[b] by {
            if a == 0 {
                assert(new_order[b] == order[b - 1]);
            } else if b == 0 {
                assert(new_order[a] == order[a - 1]);
            } else {
                assert(new_order[a] == order[a - 1]);
                assert(new_order[b] == order[b - 1]);
            }
        }
    }
    if order.len() > 0 {
        assert(new_order[new_order.len() - 1] == order[order.len() - 1]);
    }
}

/// A chain reads only the links of the slots it lists.
pub(crate) proof fn lemma_chain_agree(
    a: Seq<Option<(usize, usize)>>,
    b: Seq<Option<(usize, usize)>>,
    order: Seq<usize>,
    front: usize,
    back: usize,
)
    requires
        chain_ok(a, order, front, back),
        forall|i: int| 0 <= i < order.len() ==> #[trigger] order[i] < b.len() && b[order[i] as int] == a[order[i] as int],
    ensures
        chain_ok(b, order, front, back),
{
    assert forall|i: int| 0 <= i < order.len() implies #[trigger] linked_at(b, order, i) by {
        assert(linked_at(a, order, i));
    }
}

/// The listed payloads read only the slots listed.
pub(crate) proof fn lemma_listed_agree<T>(a: Seq<Option<T>>, b: Seq<Option<T>>, order: Seq<usize>)
    requires
        forall|i: int| 0 <= i < order.len() ==> #[trigger] b[order[i] as int] == a[order[i] as int],
    ensures
        listed(a, order) == listed(b, order),
{
    assert forall|i: int| 0 <= i < order.len() implies #[trigger] listed(a, order)[i] == listed(b, order)[i] by {
        assert(b[order[i] as int] == a[order[i] as int]);
    }
    assert(listed(a, order) =~= listed(b, order));
}

/// Listing commutes with moving position `i` to the front.
pub(crate) proof fn lemma_listed_promote<T>(table: Seq<Option<T>>, order: Seq<usize>, i: int)
    requires
        0 <= i < order.len(),
    ensures
        listed(table, seq![order[i]] + order.remove(i)) == seq![listed(table, order)[i]] + listed(table, order).remove(i),
{
    let e = listed(table, order);
    assert(listed(table, seq![order[i]] + order.remove(i)) =~= seq![e[i]] + e.remove(i));
}

/// Listing commutes with removing position `i`.
pub(crate) proof fn lemma_listed_remove<T>(table: Seq<Option<T>>, order: Seq<usize>, i: int)
    requires
        0 <= i < order.len(),
    ensures
        listed(table, order.remove(i)) == listed(table, order).remove(i),
{
    assert(listed(table, order.remove(i)) =~= listed(table, order).remove(i));
}

/// Listing commutes with listing a slot at the front.
pub(crate) proof fn lemma_listed_push<T>(table: Seq<Option<T>>, order: Seq<usize>, idx: usize)
    ensures
        listed(table, seq![idx] + order) == seq![table[idx as int]->0] + listed(table, order),
{
    assert(listed(table, seq![idx] + order) =~= seq![table[idx as int]->0] + listed(table, order));
}

/// The lookup table maps exactly the listed keys to their slots.
pub(crate) open spec fn map_ok<K, V>(map: Map<K, usize>, view: Seq<(K, V)>, order: Seq<usize>) -> bool {
    &&& view.len() == order.len()
    &&& map.dom().finite()
    &&& map.len() == order.len()
    &&& forall|i: int| 0 <= i < view.len() ==> #[trigger] map.contains_key(view[i].0) && map[view[i].0] == order[i]
    &&& forall|k: K| #[trigger] map.contains_key(k) ==> has_key(view, k)
}


/// Distinct listed slots carry distinct keys.
pub(crate) proof fn lemma_distinct<K, V>(map: Map<K, usize>, view: Seq<(K, V)>, order: Seq<usize>)
    requires
        map_ok(map, view, order),
        no_dup(order),
    ensures
        distinct_keys(view),
{
    assert forall|i: int, j: int|
        0 <= i < view.len() && 0 <= j < view.len() && i != j implies #[trigger] view[i].0 != #[trigger] view[j].0 by {
        assert(map.contains_key(view[i].0));
        assert(map.contains_key(view[j].0));
    }
}


/// The lookup table survives moving position `i` to the front.
pub(crate) proof fn lemma_map_promote<K, V>(map: Map<K, usize>, view: Seq<(K, V)>, order: Seq<usize>, i: int)
    requires
        map_ok(map, view, order),
        0 <= i < order.len(),
    ensures
        map_ok(map, seq![view[i]] + view.remove(i), seq![order[i]] + order.remove(i)),
{
    let v2 = seq![view[i]] + view.remove(i);
    let o2 = seq![order[i]] + order.remove(i);
    assert forall|j: int| 0 <= j < v2.len() implies #[trigger] map.contains_key(v2[j].0) && map[v2[j].0] == o2[j] by {
        let oj = if j == 0 { i } else if j - 1 < i { j - 1 } else { j };
        assert(v2[j] == view[oj]);
        assert(o2[j] == order[oj]);
        assert(map.contains_key(view[oj].0));
    }
    assert forall|k: K| #[trigger] map.contains_key(k) implies has_key(v2, k) by {
        let w = choose|w: int| 0 <= w < view.len() && #[trigger] view[w].0 == k;
        let nw = if w == i { 0 } else if w < i { w + 1 } else { w };
        assert(v2[nw] == view[w]);
    }
}

/// The lookup table survives removing position `i` (and its key).
pub(crate) proof fn lemma_map_remove<K, V>(map: Map<K, usize>, view: Seq<(K, V)>, order: Seq<usize>, i: int)
    requires
        map_ok(map, view, order),
        no_dup(order),
        0 <= i < order.len(),
    ensures
        map_ok(map.remove(view[i].0), view.remove(i), order.remove(i)),
{
    lemma_distinct(map, view, order);
    let k0 = view[i].0;
    let m2 = map.remove(k0);
    let v2 = view.remove(i);
    let o2 = order.remove(i);
    assert forall|j: int| 0 <= j < v2.len() implies #[trigger] m2.contains_key(v2[j].0) && m2[v2[j].0] == o2[j] by {
        let oj = if j < i { j } else { j + 1 };
        assert(v2[j] == view[oj]);
        assert(o2[j] == order[oj]);
        assert(view[oj].0 != k0);
        assert(map.contains_key(view[oj].0));
    }
    assert forall|k: K| #[trigger] m2.contains_key(k) implies has_key(v2, k) by {
        let w = choose|w: int| 0 <= w < view.len() && #[trigger] view[w].0 == k;
        assert(w != i);
        let nw = if w < i { w } else { w - 1 };
        assert(v2[nw] == view[w]);
    }
    assert(map.contains_key(k0));
}

/// The lookup table survives listing a fresh key at the front.
pub(crate) proof fn lemma_map_push<K, V>(map: Map<K, usize>, view: Seq<(K, V)>, order: Seq<usize>, k: K, v: V, idx: usize)
    requires
        map_ok(map, view, order),
        !has_key(view, k),
    ensures
        map_ok(map.insert(k, idx), seq![(k, v)] + view, seq![idx] + order),
{
    let m2 = map.insert(k, idx);
    let v2 = seq![(k, v)] + view;
    let o2 = seq![idx] + order;
    assert(!map.contains_key(k));
    assert forall|j: int| 0 <= j < v2.len() implies #[trigger] m2.contains_key(v2[j].0) && m2[v2[j].0] == o2[j] by {
        if j > 0 {
            assert(v2[j] == view[j - 1]);
            assert(o2[j] == order[j - 1]);
            assert(map.contains_key(view[j - 1].0));
        }
    }
    assert forall|kk: K| #[trigger] m2.contains_key(kk) implies has_key(v2, kk) by {
        if kk == k {
            assert(v2[0].0 == k);
        } else {
            let w = choose|w: int| 0 <= w < view.len() && #[trigger] view[w].0 == kk;
            assert(v2[w + 1] == view[w]);
        }
    }
}

/// The lookup table survives replacing the value at position `i`.
pub(crate) proof fn lemma_map_update<K, V>(map: Map<K, usize>, view: Seq<(K, V)>, order: Seq<usize>, i: int, v: V)
    requires
        map_ok(map, view, order),
        0 <= i < order.len(),
    ensures
        map_ok(map, view.update(i, (view[i].0, v)), order),
{
    let v2 = view.update(i, (view[i].0, v));
    assert forall|j: int| 0 <= j < v2.len() implies #[trigger] map.contains_key(v2[j].0) && map[v2[j].0] == order[j] by {
        assert(v2[j].0 == view[j].0);
        assert(map.contains_key(view[j].0));
    }
    assert forall|k: K| #[trigger] map.contains_key(k) implies has_key(v2, k) by {
        let w = choose|w: int| 0 <= w < view.len() && #[trigger] view[w].0 == k;
        assert(v2[w].0 == view[w].0);
    }
}


} // verus!
