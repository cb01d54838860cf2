//! The adaptive replacement cache (Megiddo & Modha) as a function on lists.
//!
//! An ARC of capacity `c` keeps four lists, each most recently touched first:
//! `t1` (resident keys seen once), `t2` (resident keys seen again), and the
//! ghost lists `b1` and `b2` of keys recently evicted from `t1` and `t2`. The
//! target size `p` of `t1` adapts on ghost hits.

use vstd::prelude::*;
use crate::model::{distinct_keys, has_key, lemma_drop_last, lemma_lookup_drop_last, lemma_lookup_push, lemma_push_front, lemma_without, lookup, promote, without};

verus! {

/// The four lists `(t1, t2, b1, b2)`.
pub type ArcLists<K, V> = (Seq<(K, V)>, Seq<(K, V)>, Seq<(K, ())>, Seq<(K, ())>);

/// No key is in both `s` and `t`.
pub open spec fn disjoint<K, A, B>(s: Seq<(K, A)>, t: Seq<(K, B)>) -> bool {
    forall|k: K| !(#[trigger] has_key(s, k) && #[trigger] has_key(t, k))
}

/// Each list holds distinct keys and no key is in two lists.
pub open spec fn lists_ok<K, V>(l: ArcLists<K, V>) -> bool {
    &&& distinct_keys(l.0)
    &&& distinct_keys(l.1)
    &&& distinct_keys(l.2)
    &&& distinct_keys(l.3)
    &&& disjoint(l.0, l.1)
    &&& disjoint(l.0, l.2)
    &&& disjoint(l.0, l.3)
    &&& disjoint(l.1, l.2)
    &&& disjoint(l.1, l.3)
    &&& disjoint(l.2, l.3)
}

/// The invariant of an ARC with capacity `c` and target `p`: at most `c`
/// resident keys, `|t1| + |b1| <= c`, at most `2c` keys remembered in all,
/// `p <= c`, and the ghost lists are empty until the cache has filled.
pub open spec fn arc_inv<K, V>(l: ArcLists<K, V>, p: nat, c: nat) -> bool {
    &&& lists_ok(l)
    &&& l.0.len() + l.1.len() <= c
    &&& l.0.len() + l.2.len() <= c
    &&& l.0.len() + l.1.len() + l.2.len() + l.3.len() <= 2 * c
    &&& p <= c
    &&& l.2.len() + l.3.len() > 0 ==> l.0.len() + l.1.len() == c
}

/// The larger of two naturals.
pub open spec fn max_nat(a: nat, b: nat) -> nat {
    if a >= b {
        a
    } else {
        b
    }
}

/// The smaller of two naturals.
pub open spec fn min_nat(a: nat, b: nat) -> nat {
    if a <= b {
        a
    } else {
        b
    }
}

/// Demotes one resident key to a ghost list: the back of `t1` when `t1` is
/// over its target `p` (or at it, when the key being admitted came from
/// `b2`), else the back of `t2`. The flag says whether a key was demoted.
pub open spec fn arc_replace<K, V>(l: ArcLists<K, V>, p: nat, x_in_b2: bool) -> (ArcLists<K, V>, bool) {
    let (t1, t2, b1, b2) = l;
    if t1.len() >= 1 && (t1.len() > p || (x_in_b2 && t1.len() == p)) {
        ((t1.drop_last(), t2, seq![(t1.last().0, ())] + b1, b2), true)
    } else if t2.len() > 0 {
        ((t1, t2.drop_last(), b1, seq![(t2.last().0, ())] + b2), true)
    } else {
        (l, false)
    }
}

/// `s` without its last entry, when it has one.
pub open spec fn drop_back<K, A>(s: Seq<(K, A)>) -> Seq<(K, A)> {
    if s.len() > 0 {
        s.drop_last()
    } else {
        s
    }
}

/// What a `put` of `(k, v)` does to an ARC of capacity `c > 0` with target
/// `p`: the new lists, the new target, and whether a resident key left. A
/// key that is already resident is a hit: its one entry takes the new value
/// and moves to the front of `t2`.
pub open spec fn arc_put<K, V>(l: ArcLists<K, V>, p: nat, c: nat, k: K, v: V) -> (ArcLists<K, V>, nat, bool) {
    let (t1, t2, b1, b2) = l;
    if has_key(t1, k) || has_key(t2, k) {
        // Resident: a hit, so the entry moves to the front of t2 with its
        // new value.
        ((without(t1, k), seq![(k, v)] + without(t2, k), b1, b2), p, false)
    } else if has_key(b1, k) {
        // Ghost hit in b1: lean toward recency.
        let delta = max_nat(b2.len() / max_nat(b1.len(), 1), 1);
        let p2 = min_nat(p + delta, c);
        let (m, ev) = arc_replace(l, p2, false);
        ((m.0, seq![(k, v)] + m.1, without(m.2, k), m.3), p2, ev)
    } else if has_key(b2, k) {
        // Ghost hit in b2: lean toward frequency.
        let delta = max_nat(b1.len() / max_nat(b2.len(), 1), 1);
        let p2 = if p >= delta { (p - delta) as nat } else { 0 };
        let (m, ev) = arc_replace(l, p2, true);
        ((m.0, seq![(k, v)] + m.1, m.2, without(m.3, k)), p2, ev)
    } else if t1.len() + b1.len() == c {
        if t1.len() < c {
            let (m, ev) = arc_replace((t1, t2, drop_back(b1), b2), p, false);
            ((seq![(k, v)] + m.0, m.1, m.2, m.3), p, ev)
        } else {
            // b1 empty and t1 full: drop the back of t1 outright (no ghost).
            ((seq![(k, v)] + drop_back(t1), t2, b1, b2), p, t1.len() > 0)
        }
    } else if t1.len() + t2.len() + b1.len() + b2.len() >= c {
        let b2x = if t1.len() + t2.len() + b1.len() + b2.len() == 2 * c {
            drop_back(b2)
        } else {
            b2
        };
        let (m, ev) = arc_replace((t1, t2, b1, b2x), p, false);
        ((seq![(k, v)] + m.0, m.1, m.2, m.3), p, ev)
    } else {
        ((seq![(k, v)] + t1, t2, b1, b2), p, false)
    }
}

/// What a `get` of `k` does: a hit in `t1` moves the entry to the front of
/// `t2`; a hit in `t2` moves it to the front of `t2`.
pub open spec fn arc_get<K, V>(l: ArcLists<K, V>, k: K) -> (ArcLists<K, V>, Option<V>) {
    let (t1, t2, b1, b2) = l;
    if has_key(t1, k) {
        ((without(t1, k), seq![(k, lookup(t1, k)->0)] + t2, b1, b2), lookup(t1, k))
    } else if has_key(t2, k) {
        ((t1, promote(t2, k), b1, b2), lookup(t2, k))
    } else {
        (l, None)
    }
}

/// Moving the back of one list to the front of another keeps the lists
/// distinct and disjoint.
pub proof fn lemma_replace_ok<K, V>(l: ArcLists<K, V>, p: nat, x_in_b2: bool)
    requires
        lists_ok(l),
    ensures
        lists_ok(arc_replace(l, p, x_in_b2).0),
        forall|k: K| #[trigger] has_key(arc_replace(l, p, x_in_b2).0.0, k) ==> has_key(l.0, k),
        forall|k: K| #[trigger] has_key(arc_replace(l, p, x_in_b2).0.1, k) ==> has_key(l.1, k),
        forall|k: K| #[trigger] has_key(l.2, k) ==> has_key(arc_replace(l, p, x_in_b2).0.2, k),
        forall|k: K| #[trigger] has_key(l.3, k) ==> has_key(arc_replace(l, p, x_in_b2).0.3, k),
        forall|k: K| #[trigger] has_key(arc_replace(l, p, x_in_b2).0.2, k) ==> has_key(l.2, k) || has_key(l.0, k),
        forall|k: K| #[trigger] has_key(arc_replace(l, p, x_in_b2).0.3, k) ==> has_key(l.3, k) || has_key(l.1, k),
        arc_replace(l, p, x_in_b2).1 ==> arc_replace(l, p, x_in_b2).0.0.len() + arc_replace(l, p, x_in_b2).0.1.len() + 1
            == l.0.len() + l.1.len(),
        !arc_replace(l, p, x_in_b2).1 ==> arc_replace(l, p, x_in_b2).0 == l,
        arc_replace(l, p, x_in_b2).0.0.len() + arc_replace(l, p, x_in_b2).0.2.len() == l.0.len() + l.2.len(),
        arc_replace(l, p, x_in_b2).0.0.len() + arc_replace(l, p, x_in_b2).0.1.len() + arc_replace(l, p, x_in_b2).0.2.len()
            + arc_replace(l, p, x_in_b2).0.3.len() == l.0.len() + l.1.len() + l.2.len() + l.3.len(),
        arc_replace(l, p, x_in_b2).1 ==> arc_replace(l, p, x_in_b2).0.2.len() + arc_replace(l, p, x_in_b2).0.3.len() > 0,
{
    let (t1, t2, b1, b2) = l;
    if t1.len() >= 1 && (t1.len() > p || (x_in_b2 && t1.len() == p)) {
        let e = (t1.last().0, ());
        lemma_drop_last(t1);
        lemma_push_front(b1, e);
        assert(!has_key(b1, e.0));
    } else if t2.len() > 0 {
        let e = (t2.last().0, ());
        lemma_drop_last(t2);
        lemma_push_front(b2, e);
        assert(!has_key(b2, e.0));
    }
}

/// Inserting a fresh key at the front of `t1` or `t2` keeps the lists
/// distinct and disjoint.
proof fn lemma_admit_ok<K, V>(l: ArcLists<K, V>, k: K, v: V, into_t2: bool)
    requires
        lists_ok(l),
        !has_key(l.0, k),
        !has_key(l.1, k),
        !has_key(l.2, k),
        !has_key(l.3, k),
    ensures
        into_t2 ==> lists_ok((l.0, seq![(k, v)] + l.1, l.2, l.3)),
        !into_t2 ==> lists_ok((seq![(k, v)] + l.0, l.1, l.2, l.3)),
{
    lemma_push_front(l.0, (k, v));
    lemma_push_front(l.1, (k, v));
}

/// A ghost hit in `b1` keeps the invariant and admits `(k, v)` into `t2`.
proof fn lemma_put_b1<K, V>(l: ArcLists<K, V>, p: nat, c: nat, k: K, v: V)
    requires
        arc_inv(l, p, c),
        c > 0,
        !has_key(l.0, k),
        !has_key(l.1, k),
        has_key(l.2, k),
    ensures
        arc_inv(arc_put(l, p, c, k, v).0, arc_put(l, p, c, k, v).1, c),
        arc_put(l, p, c, k, v).0.1 == seq![(k, v)] + arc_replace(l, arc_put(l, p, c, k, v).1, false).0.1,
{
    let (t1, t2, b1, b2) = l;
    let delta = max_nat(b2.len() / max_nat(b1.len(), 1), 1);
    let p2 = min_nat(p + delta, c);
    lemma_replace_ok(l, p2, false);
    let (m, ev) = arc_replace(l, p2, false);
    assert(b1.len() > 0) by {
        let w = choose|w: int| 0 <= w < b1.len() && #[trigger] b1[w].0 == k;
    }
    assert(t1.len() + t2.len() == c);
    assert(ev);
    assert(has_key(m.2, k));
    lemma_without(m.2, k);
    let m2 = (m.0, m.1, without(m.2, k), m.3);
    assert(lists_ok(m2));
    lemma_admit_ok(m2, k, v, true);
}

/// A ghost hit in `b2` keeps the invariant and admits `(k, v)` into `t2`.
proof fn lemma_put_b2<K, V>(l: ArcLists<K, V>, p: nat, c: nat, k: K, v: V)
    requires
        arc_inv(l, p, c),
        c > 0,
        !has_key(l.0, k),
        !has_key(l.1, k),
        !has_key(l.2, k),
        has_key(l.3, k),
    ensures
        arc_inv(arc_put(l, p, c, k, v).0, arc_put(l, p, c, k, v).1, c),
        arc_put(l, p, c, k, v).0.1 == seq![(k, v)] + arc_replace(l, arc_put(l, p, c, k, v).1, true).0.1,
{
    let (t1, t2, b1, b2) = l;
    let delta = max_nat(b1.len() / max_nat(b2.len(), 1), 1);
    let p2 = if p >= delta { (p - delta) as nat } else { 0 };
    lemma_replace_ok(l, p2, true);
    let (m, ev) = arc_replace(l, p2, true);
    assert(b2.len() > 0) by {
        let w = choose|w: int| 0 <= w < b2.len() && #[trigger] b2[w].0 == k;
    }
    assert(t1.len() + t2.len() == c);
    assert(ev);
    assert(has_key(m.3, k));
    lemma_without(m.3, k);
    let m2 = (m.0, m.1, m.2, without(m.3, k));
    assert(lists_ok(m2));
    lemma_admit_ok(m2, k, v, true);
}

/// A miss keeps the invariant and admits `(k, v)` into `t1`.
proof fn lemma_put_miss<K, V>(l: ArcLists<K, V>, p: nat, c: nat, k: K, v: V)
    requires
        arc_inv(l, p, c),
        c > 0,
        !has_key(l.0, k),
        !has_key(l.1, k),
        !has_key(l.2, k),
        !has_key(l.3, k),
    ensures
        arc_inv(arc_put(l, p, c, k, v).0, arc_put(l, p, c, k, v).1, c),
        arc_put(l, p, c, k, v).0.0[0] == (k, v),
        arc_put(l, p, c, k, v).0.0.len() > 0,
{
    let (t1, t2, b1, b2) = l;
    if t1.len() + b1.len() == c {
        if t1.len() < c {
            lemma_drop_last(b1);
            let l1 = (t1, t2, drop_back(b1), b2);
            assert(lists_ok(l1));
            lemma_replace_ok(l1, p, false);
            let (m, ev) = arc_replace(l1, p, false);
            assert(ev);
            lemma_admit_ok(m, k, v, false);
        } else {
            lemma_drop_last(t1);
            let l1 = (drop_back(t1), t2, b1, b2);
            assert(lists_ok(l1));
            lemma_admit_ok(l1, k, v, false);
        }
    } else if t1.len() + t2.len() + b1.len() + b2.len() >= c {
        let b2x = if t1.len() + t2.len() + b1.len() + b2.len() == 2 * c { drop_back(b2) } else { b2 };
        if b2.len() > 0 {
            lemma_drop_last(b2);
        }
        let l1 = (t1, t2, b1, b2x);
        assert(lists_ok(l1));
        lemma_replace_ok(l1, p, false);
        let (m, ev) = arc_replace(l1, p, false);
        assert(ev);
        lemma_admit_ok(m, k, v, false);
    } else {
        lemma_admit_ok(l, k, v, false);
    }
}

/// A `put` of a resident key keeps the invariant, caches the new value in
/// the one entry (at the front of `t2`), and changes no other cached value.
proof fn lemma_put_hit<K, V>(l: ArcLists<K, V>, p: nat, c: nat, k: K, v: V)
    requires
        arc_inv(l, p, c),
        has_key(l.0, k) || has_key(l.1, k),
    ensures
        arc_inv(arc_put(l, p, c, k, v).0, arc_put(l, p, c, k, v).1, c),
        !arc_put(l, p, c, k, v).2,
        lookup(arc_put(l, p, c, k, v).0.1, k) == Some(v),
        arc_cached(arc_put(l, p, c, k, v).0, k) == Some(v),
        forall|kk: K| kk != k ==> #[trigger] arc_cached(arc_put(l, p, c, k, v).0, kk) == arc_cached(l, kk),
{
    let (t1, t2, b1, b2) = l;
    let n = arc_put(l, p, c, k, v).0;
    lemma_without(t1, k);
    lemma_without(t2, k);
    let t1x = without(t1, k);
    let t2x = without(t2, k);
    lemma_push_front(t2x, (k, v));
    lemma_lookup_push(t2x, (k, v), k);
    assert(!has_key(t1x, k));
    assert(lists_ok(n));
    assert(n.0.len() + n.1.len() == t1.len() + t2.len()) by {
        if has_key(t1, k) {
            assert(!has_key(t2, k));
        }
    }
    assert forall|kk: K| kk != k implies #[trigger] arc_cached(n, kk) == arc_cached(l, kk) by {
        crate::model::lemma_lookup_without(t1, k, kk);
        crate::model::lemma_lookup_without(t2, k, kk);
        lemma_lookup_push(t2x, (k, v), kk);
    }
}

/// Every `put` keeps the ARC invariant, and leaves `(k, v)` resident.
pub proof fn lemma_arc_put<K, V>(l: ArcLists<K, V>, p: nat, c: nat, k: K, v: V)
    requires
        arc_inv(l, p, c),
        c > 0,
    ensures
        arc_inv(arc_put(l, p, c, k, v).0, arc_put(l, p, c, k, v).1, c),
        lookup(arc_put(l, p, c, k, v).0.0, k) == Some(v) || lookup(arc_put(l, p, c, k, v).0.1, k) == Some(v),
{
    let n = arc_put(l, p, c, k, v).0;
    if has_key(l.0, k) || has_key(l.1, k) {
        lemma_put_hit(l, p, c, k, v);
    } else if has_key(l.2, k) {
        lemma_put_b1(l, p, c, k, v);
        crate::model::lemma_key_index(n.1, 0);
    } else if has_key(l.3, k) {
        lemma_put_b2(l, p, c, k, v);
        crate::model::lemma_key_index(n.1, 0);
    } else {
        lemma_put_miss(l, p, c, k, v);
        crate::model::lemma_key_index(n.0, 0);
    }
}

/// Every `get` keeps the ARC invariant.
pub proof fn lemma_arc_get<K, V>(l: ArcLists<K, V>, p: nat, c: nat, k: K)
    requires
        arc_inv(l, p, c),
    ensures
        arc_inv(arc_get(l, k).0, p, c),
{
    let (t1, t2, b1, b2) = l;
    if has_key(t1, k) {
        lemma_without(t1, k);
        assert(!has_key(t2, k));
        lemma_push_front(t2, (k, lookup(t1, k)->0));
    } else if has_key(t2, k) {
        let i = crate::model::key_index(t2, k);
        crate::model::lemma_key_index(t2, i);
        lemma_without(t2, k);
        assert(without(t2, k) == t2.remove(i));
        lemma_push_front(without(t2, k), t2[i]);
        assert(promote(t2, k) == seq![t2[i]] + without(t2, k));
    }
}

/// The value cached under `k`: resident keys live in `t1` or `t2`.
pub open spec fn arc_cached<K, V>(l: ArcLists<K, V>, k: K) -> Option<V> {
    if has_key(l.0, k) {
        lookup(l.0, k)
    } else {
        lookup(l.1, k)
    }
}

/// The key that `arc_replace` demotes, when it demotes one.
pub open spec fn arc_victim<K, V>(l: ArcLists<K, V>, p: nat, x_in_b2: bool) -> K {
    if l.0.len() >= 1 && (l.0.len() > p || (x_in_b2 && l.0.len() == p)) {
        l.0.last().0
    } else {
        l.1.last().0
    }
}

/// `arc_replace` un-caches exactly its victim, when it demotes one.
pub proof fn lemma_replace_cached<K, V>(l: ArcLists<K, V>, p: nat, x_in_b2: bool)
    requires
        lists_ok(l),
    ensures
        arc_replace(l, p, x_in_b2).1 ==> arc_cached(l, arc_victim(l, p, x_in_b2)) is Some && arc_cached(
            arc_replace(l, p, x_in_b2).0,
            arc_victim(l, p, x_in_b2),
        ) is None,
        forall|k: K|
            k != arc_victim(l, p, x_in_b2) || !arc_replace(l, p, x_in_b2).1 ==> #[trigger] arc_cached(
                arc_replace(l, p, x_in_b2).0,
                k,
            ) == arc_cached(l, k),
{
    let (t1, t2, b1, b2) = l;
    let m = arc_replace(l, p, x_in_b2).0;
    let e = arc_victim(l, p, x_in_b2);
    if t1.len() >= 1 && (t1.len() > p || (x_in_b2 && t1.len() == p)) {
        lemma_drop_last(t1);
        assert(!has_key(t2, e));
        crate::model::lemma_lookup_at(t1, t1.len() - 1);
        assert(t1[t1.len() - 1].0 == e);
        assert forall|k: K| k != e implies #[trigger] arc_cached(m, k) == arc_cached(l, k) by {
            lemma_lookup_drop_last(t1, k);
        }
    } else if t2.len() > 0 {
        lemma_drop_last(t2);
        assert(!has_key(t1, e));
        crate::model::lemma_lookup_at(t2, t2.len() - 1);
        assert(t2[t2.len() - 1].0 == e);
        lemma_lookup_drop_last(t2, e);
        assert forall|k: K| k != e implies #[trigger] arc_cached(m, k) == arc_cached(l, k) by {
            lemma_lookup_drop_last(t2, k);
        }
    }
}

/// Admitting a fresh `(k, v)` at the front of `t1` or `t2` caches it and
/// changes no other key.
proof fn lemma_admit_cached<K, V>(l: ArcLists<K, V>, k: K, v: V, into_t2: bool)
    requires
        lists_ok(l),
        !has_key(l.0, k),
        !has_key(l.1, k),
    ensures
        into_t2 ==> arc_cached((l.0, seq![(k, v)] + l.1, l.2, l.3), k) == Some(v),
        into_t2 ==> forall|kk: K| kk != k ==> #[trigger] arc_cached((l.0, seq![(k, v)] + l.1, l.2, l.3), kk) == arc_cached(l, kk),
        !into_t2 ==> arc_cached((seq![(k, v)] + l.0, l.1, l.2, l.3), k) == Some(v),
        !into_t2 ==> forall|kk: K| kk != k ==> #[trigger] arc_cached((seq![(k, v)] + l.0, l.1, l.2, l.3), kk) == arc_cached(l, kk),
{
    lemma_push_front(l.0, (k, v));
    lemma_push_front(l.1, (k, v));
    lemma_lookup_push(l.0, (k, v), k);
    lemma_lookup_push(l.1, (k, v), k);
    assert forall|kk: K| kk != k implies #[trigger] arc_cached((l.0, seq![(k, v)] + l.1, l.2, l.3), kk) == arc_cached(l, kk) by {
        lemma_lookup_push(l.1, (k, v), kk);
    }
    assert forall|kk: K| kk != k implies #[trigger] arc_cached((seq![(k, v)] + l.0, l.1, l.2, l.3), kk) == arc_cached(l, kk) by {
        lemma_lookup_push(l.0, (k, v), kk);
    }
}

/// What a `put` does to the cached values: `(k, v)` is cached, and either
/// nothing else changed (no eviction reported) or exactly one other cached
/// key left (eviction reported).
pub proof fn lemma_arc_put_cached<K, V>(l: ArcLists<K, V>, p: nat, c: nat, k: K, v: V)
    requires
        arc_inv(l, p, c),
        c > 0,
    ensures
        arc_cached(arc_put(l, p, c, k, v).0, k) == Some(v),
        !arc_put(l, p, c, k, v).2 ==> forall|kk: K| kk != k ==> #[trigger] arc_cached(arc_put(l, p, c, k, v).0, kk) == arc_cached(l, kk),
        arc_put(l, p, c, k, v).2 ==> exists|e: K|
            e != k && arc_cached(l, e) is Some && arc_cached(arc_put(l, p, c, k, v).0, e) is None && forall|kk: K|
                kk != k && kk != e ==> #[trigger] arc_cached(arc_put(l, p, c, k, v).0, kk) == arc_cached(l, kk),
{
    if has_key(l.0, k) || has_key(l.1, k) {
        lemma_put_hit(l, p, c, k, v);
    } else {
        lemma_put_cached_miss(l, p, c, k, v);
    }
}

/// `lemma_arc_put_cached` for a key that is not resident.
proof fn lemma_put_cached_miss<K, V>(l: ArcLists<K, V>, p: nat, c: nat, k: K, v: V)
    requires
        arc_inv(l, p, c),
        c > 0,
        !has_key(l.0, k),
        !has_key(l.1, k),
    ensures
        arc_cached(arc_put(l, p, c, k, v).0, k) == Some(v),
        !arc_put(l, p, c, k, v).2 ==> forall|kk: K| kk != k ==> #[trigger] arc_cached(arc_put(l, p, c, k, v).0, kk) == arc_cached(l, kk),
        arc_put(l, p, c, k, v).2 ==> exists|e: K|
            e != k && arc_cached(l, e) is Some && arc_cached(arc_put(l, p, c, k, v).0, e) is None && forall|kk: K|
                kk != k && kk != e ==> #[trigger] arc_cached(arc_put(l, p, c, k, v).0, kk) == arc_cached(l, kk),
{
    let (t1, t2, b1, b2) = l;
    let n = arc_put(l, p, c, k, v);
    if has_key(b1, k) || has_key(b2, k) {
        let in_b1 = has_key(b1, k);
        let p2 = n.1;
        let x = !in_b1;
        lemma_replace_ok(l, p2, x);
        lemma_replace_cached(l, p2, x);
        let (m, ev) = arc_replace(l, p2, x);
        let e = arc_victim(l, p2, x);
        let m2 = if in_b1 { (m.0, m.1, without(m.2, k), m.3) } else { (m.0, m.1, m.2, without(m.3, k)) };
        assert(forall|kk: K| #[trigger] arc_cached(m2, kk) == arc_cached(m, kk));
        lemma_without(m.2, k);
        lemma_without(m.3, k);
        assert(lists_ok(m2));
        lemma_admit_cached(m2, k, v, true);
        assert(n.0 == (m2.0, seq![(k, v)] + m2.1, m2.2, m2.3));
        if ev {
            assert(e != k) by {
                assert(!has_key(t1, k) && !has_key(t2, k));
            }
            assert forall|kk: K| kk != k && kk != e implies #[trigger] arc_cached(n.0, kk) == arc_cached(l, kk) by {
                assert(arc_cached(m, kk) == arc_cached(l, kk));
            }
            assert(arc_cached(n.0, e) == arc_cached(m2, e));
            assert(arc_cached(n.0, e) is None);
        }
    } else {
        let l1 = if t1.len() + b1.len() == c {
            if t1.len() < c {
                (t1, t2, drop_back(b1), b2)
            } else {
                (drop_back(t1), t2, b1, b2)
            }
        } else if t1.len() + t2.len() + b1.len() + b2.len() >= c {
            (t1, t2, b1, if t1.len() + t2.len() + b1.len() + b2.len() == 2 * c { drop_back(b2) } else { b2 })
        } else {
            l
        };
        if b1.len() > 0 {
            lemma_drop_last(b1);
        }
        if b2.len() > 0 {
            lemma_drop_last(b2);
        }
        if t1.len() > 0 {
            lemma_drop_last(t1);
        }
        if t1.len() + b1.len() == c && t1.len() >= c {
            // t1 full: its back leaves outright.
            assert(lists_ok(l1));
            lemma_admit_cached(l1, k, v, false);
            let e = t1.last().0;
            crate::model::lemma_lookup_at(t1, t1.len() - 1);
            assert(t1[t1.len() - 1].0 == e);
            assert(!has_key(t2, e));
            lemma_lookup_drop_last(t1, e);
            assert(arc_cached(l1, e) is None);
            assert forall|kk: K| kk != k && kk != e implies #[trigger] arc_cached(n.0, kk) == arc_cached(l, kk) by {
                lemma_lookup_drop_last(t1, kk);
            }
            assert(e != k);
            assert(arc_cached(n.0, e) == arc_cached(l1, e));
            assert(arc_cached(l, e) is Some);
        } else if t1.len() + b1.len() == c || t1.len() + t2.len() + b1.len() + b2.len() >= c {
            assert(lists_ok(l1));
            assert(forall|kk: K| #[trigger] arc_cached(l1, kk) == arc_cached(l, kk));
            lemma_replace_ok(l1, p, false);
            lemma_replace_cached(l1, p, false);
            let (m, ev) = arc_replace(l1, p, false);
            let e = arc_victim(l1, p, false);
            lemma_admit_cached(m, k, v, false);
            if ev {
                assert forall|kk: K| kk != k && kk != e implies #[trigger] arc_cached(n.0, kk) == arc_cached(l, kk) by {
                    assert(arc_cached(m, kk) == arc_cached(l1, kk));
                }
                assert(e != k) by {
                    assert(!has_key(l1.0, k) && !has_key(l1.1, k));
                }
                assert(arc_cached(n.0, e) == arc_cached(m, e));
                assert(arc_cached(l1, e) is Some);
            }
        } else {
            lemma_admit_cached(l, k, v, false);
        }
    }
}

/// A ghost hit adapts the target toward the list that would have kept the
/// key: up (toward recency) on a `b1` hit, down (toward frequency) on a `b2`
/// hit; a miss leaves it, and it never exceeds the capacity.
pub proof fn lemma_arc_adapts<K, V>(l: ArcLists<K, V>, p: nat, c: nat, k: K, v: V)
    requires
        p <= c,
    ensures
        has_key(l.2, k) ==> p <= arc_put(l, p, c, k, v).1,
        !has_key(l.2, k) && has_key(l.3, k) ==> arc_put(l, p, c, k, v).1 <= p,
        !has_key(l.2, k) && !has_key(l.3, k) ==> arc_put(l, p, c, k, v).1 == p,
        arc_put(l, p, c, k, v).1 <= c,
{
}

} // verus!
