//! Mathematical vocabulary shared by the caches: an ordered list of
//! `(key, value)` pairs, front (most recently touched) first.

use vstd::prelude::*;
use vstd::std_specs::hash::obeys_key_model;

verus! {

/// Whether some entry of `s` carries key `k`.
pub open spec fn has_key<K, V>(s: Seq<(K, V)>, k: K) -> bool {
    exists|i: int| 0 <= i < s.len() && #[trigger] s[i].0 == k
}

/// The position of key `k` in `s` (meaningful when `has_key(s, k)`).
pub open spec fn key_index<K, V>(s: Seq<(K, V)>, k: K) -> int {
    choose|i: int| 0 <= i < s.len() && #[trigger] s[i].0 == k
}

/// No key occurs twice in `s`.
pub open spec fn distinct_keys<K, V>(s: Seq<(K, V)>) -> bool {
    forall|i: int, j: int|
        0 <= i < s.len() && 0 <= j < s.len() && i != j ==> #[trigger] s[i].0 != #[trigger] s[j].0
}

/// The value stored under `k`, if any.
pub open spec fn lookup<K, V>(s: Seq<(K, V)>, k: K) -> Option<V> {
    if has_key(s, k) {
        Some(s[key_index(s, k)].1)
    } else {
        None
    }
}

/// The entries of `s` as a map from key to value.
pub open spec fn as_map<K, V>(s: Seq<(K, V)>) -> Map<K, V> {
    Map::new(|k: K| has_key(s, k), |k: K| s[key_index(s, k)].1)
}

/// `s` with the entry for `k` moved to the front.
pub open spec fn promote<K, V>(s: Seq<(K, V)>, k: K) -> Seq<(K, V)> {
    let i = key_index(s, k);
    seq![s[i]] + s.remove(i)
}

/// `s` with the entry for `k` removed (unchanged when absent).
pub open spec fn without<K, V>(s: Seq<(K, V)>, k: K) -> Seq<(K, V)> {
    if has_key(s, k) {
        s.remove(key_index(s, k))
    } else {
        s
    }
}

/// In a sequence of distinct keys, the position of a key is the one
/// position that carries it.
pub proof fn lemma_key_index<K, V>(s: Seq<(K, V)>, i: int)
    requires
        distinct_keys(s),
        0 <= i < s.len(),
    ensures
        has_key(s, s[i].0),
        key_index(s, s[i].0) == i,
        lookup(s, s[i].0) == Some(s[i].1),
{
    assert(has_key(s, s[i].0));
}

/// Which keys remain after removing `k0`, and how many entries.
pub proof fn lemma_without<K, V>(s: Seq<(K, V)>, k0: K)
    requires
        distinct_keys(s),
    ensures
        forall|k: K| #[trigger] has_key(without(s, k0), k) <==> has_key(s, k) && k != k0,
        has_key(s, k0) ==> without(s, k0).len() == s.len() - 1,
        !has_key(s, k0) ==> without(s, k0) == s,
        distinct_keys(without(s, k0)),
{
    if has_key(s, k0) {
        let i = key_index(s, k0);
        let t = s.remove(i);
        assert forall|k: K| #[trigger] has_key(t, k) <==> has_key(s, k) && k != k0 by {
            if has_key(t, k) {
                let w = choose|w: int| 0 <= w < t.len() && #[trigger] t[w].0 == k;
                let ow = if w < i { w } else { w + 1 };
                assert(s[ow] == t[w]);
                assert(ow != i);
            }
            if has_key(s, k) && k != k0 {
                let w = choose|w: int| 0 <= w < s.len() && #[trigger] s[w].0 == k;
                assert(w != i);
                let nw = if w < i { w } else { w - 1 };
                assert(t[nw] == s[w]);
            }
        }
        assert forall|a: int, b: int| 0 <= a < t.len() && 0 <= b < t.len() && a != b implies #[trigger] t[a].0
            != #[trigger] t[b].0 by {
            let oa = if a < i { a } else { a + 1 };
            let ob = if b < i { b } else { b + 1 };
            assert(t[a] == s[oa]);
            assert(t[b] == s[ob]);
        }
    }
}

/// Which keys remain after dropping the last entry.
pub proof fn lemma_drop_last<K, V>(s: Seq<(K, V)>)
    requires
        distinct_keys(s),
        s.len() > 0,
    ensures
        forall|k: K| #[trigger] has_key(s.drop_last(), k) <==> has_key(s, k) && k != s.last().0,
        distinct_keys(s.drop_last()),
        has_key(s, s.last().0),
{
    let t = s.drop_last();
    assert(s[s.len() - 1].0 == s.last().0);
    assert forall|k: K| #[trigger] has_key(t, k) <==> has_key(s, k) && k != s.last().0 by {
        if has_key(t, k) {
            let w = choose|w: int| 0 <= w < t.len() && #[trigger] t[w].0 == k;
            assert(s[w] == t[w]);
        }
        if has_key(s, k) && k != s.last().0 {
            let w = choose|w: int| 0 <= w < s.len() && #[trigger] s[w].0 == k;
            assert(t[w] == s[w]);
        }
    }
    assert forall|a: int, b: int| 0 <= a < t.len() && 0 <= b < t.len() && a != b implies #[trigger] t[a].0
        != #[trigger] t[b].0 by {
        assert(t[a] == s[a]);
        assert(t[b] == s[b]);
    }
}

/// Which keys a front insertion holds.
pub proof fn lemma_push_front<K, V>(s: Seq<(K, V)>, e: (K, V))
    ensures
        forall|k: K| #[trigger] has_key(seq![e] + s, k) <==> has_key(s, k) || k == e.0,
        !has_key(s, e.0) && distinct_keys(s) ==> distinct_keys(seq![e] + s),
{
    let t = seq![e] + s;
    assert forall|k: K| #[trigger] has_key(t, k) <==> has_key(s, k) || k == e.0 by {
        if has_key(t, k) {
            let w = choose|w: int| 0 <= w < t.len() && #[trigger] t[w].0 == k;
            if w > 0 {
                assert(s[w - 1] == t[w]);
            }
        }
        if has_key(s, k) {
            let w = choose|w: int| 0 <= w < s.len() && #[trigger] s[w].0 == k;
            assert(t[w + 1] == s[w]);
        }
        if k == e.0 {
            assert(t[0].0 == k);
        }
    }
    if !has_key(s, e.0) && distinct_keys(s) {
        assert forall|a: int, b: int| 0 <= a < t.len() && 0 <= b < t.len() && a != b implies #[trigger] t[a].0
            != #[trigger] t[b].0 by {
            if a > 0 {
                assert(t[a] == s[a - 1]);
            }
            if b > 0 {
                assert(t[b] == s[b - 1]);
            }
        }
    }
}

/// The value under `k` in a sequence of distinct keys is the one carried
/// by any position holding `k`.
pub proof fn lemma_lookup_at<K, V>(s: Seq<(K, V)>, w: int)
    requires
        distinct_keys(s),
        0 <= w < s.len(),
    ensures
        lookup(s, s[w].0) == Some(s[w].1),
{
    lemma_key_index(s, w);
}

/// Looking up in a front insertion of a fresh key.
pub proof fn lemma_lookup_push<K, V>(s: Seq<(K, V)>, e: (K, V), k: K)
    requires
        distinct_keys(s),
        !has_key(s, e.0),
    ensures
        lookup(seq![e] + s, k) == if k == e.0 {
            Some(e.1)
        } else {
            lookup(s, k)
        },
{
    let t = seq![e] + s;
    lemma_push_front(s, e);
    if k == e.0 {
        lemma_lookup_at(t, 0);
    } else if has_key(s, k) {
        let w = choose|w: int| 0 <= w < s.len() && #[trigger] s[w].0 == k;
        lemma_lookup_at(s, w);
        assert(t[w + 1] == s[w]);
        lemma_lookup_at(t, w + 1);
    }
}

/// Looking up after removing `k0`.
pub proof fn lemma_lookup_without<K, V>(s: Seq<(K, V)>, k0: K, k: K)
    requires
        distinct_keys(s),
    ensures
        lookup(without(s, k0), k) == if k == k0 {
            None
        } else {
            lookup(s, k)
        },
{
    lemma_without(s, k0);
    let t = without(s, k0);
    if k != k0 && has_key(s, k) {
        let w = choose|w: int| 0 <= w < t.len() && #[trigger] t[w].0 == k;
        lemma_lookup_at(t, w);
        if has_key(s, k0) {
            let i = key_index(s, k0);
            let ow = if w < i { w } else { w + 1 };
            assert(t[w] == s[ow]);
            lemma_lookup_at(s, ow);
        } else {
            lemma_lookup_at(s, w);
        }
    }
}

/// Looking up after dropping the last entry.
pub proof fn lemma_lookup_drop_last<K, V>(s: Seq<(K, V)>, k: K)
    requires
        distinct_keys(s),
        s.len() > 0,
    ensures
        lookup(s.drop_last(), k) == if k == s.last().0 {
            None
        } else {
            lookup(s, k)
        },
{
    lemma_drop_last(s);
    let t = s.drop_last();
    if k != s.last().0 && has_key(s, k) {
        let w = choose|w: int| 0 <= w < t.len() && #[trigger] t[w].0 == k;
        assert(t[w] == s[w]);
        lemma_lookup_at(t, w);
        lemma_lookup_at(s, w);
    }
}

/// Looking up after replacing the value at position `i`.
pub proof fn lemma_lookup_update<K, V>(s: Seq<(K, V)>, i: int, v: V, k: K)
    requires
        distinct_keys(s),
        0 <= i < s.len(),
    ensures
        lookup(s.update(i, (s[i].0, v)), k) == if k == s[i].0 {
            Some(v)
        } else {
            lookup(s, k)
        },
        distinct_keys(s.update(i, (s[i].0, v))),
        forall|kk: K| #[trigger] has_key(s.update(i, (s[i].0, v)), kk) <==> has_key(s, kk),
{
    let t = s.update(i, (s[i].0, v));
    assert forall|a: int, b: int| 0 <= a < t.len() && 0 <= b < t.len() && a != b implies #[trigger] t[a].0
        != #[trigger] t[b].0 by {
        assert(t[a].0 == s[a].0);
        assert(t[b].0 == s[b].0);
    }
    assert forall|kk: K| #[trigger] has_key(t, kk) <==> has_key(s, kk) by {
        if has_key(t, kk) {
            let w = choose|w: int| 0 <= w < t.len() && #[trigger] t[w].0 == kk;
            assert(s[w].0 == t[w].0);
        }
        if has_key(s, kk) {
            let w = choose|w: int| 0 <= w < s.len() && #[trigger] s[w].0 == kk;
            assert(s[w].0 == t[w].0);
        }
    }
    if k == s[i].0 {
        lemma_lookup_at(t, i);
    } else if has_key(s, k) {
        let w = choose|w: int| 0 <= w < s.len() && #[trigger] s[w].0 == k;
        assert(t[w] == s[w]);
        lemma_lookup_at(t, w);
        lemma_lookup_at(s, w);
    }
}

/// Moving an entry to the front changes no lookup.
pub proof fn lemma_lookup_promote<K, V>(s: Seq<(K, V)>, k0: K, k: K)
    requires
        distinct_keys(s),
        has_key(s, k0),
    ensures
        lookup(promote(s, k0), k) == lookup(s, k),
        distinct_keys(promote(s, k0)),
        forall|kk: K| #[trigger] has_key(promote(s, k0), kk) <==> has_key(s, kk),
{
    let i = key_index(s, k0);
    lemma_without(s, k0);
    assert(without(s, k0) == s.remove(i));
    lemma_push_front(without(s, k0), s[i]);
    lemma_lookup_push(without(s, k0), s[i], k);
    lemma_lookup_without(s, k0, k);
    if k == k0 {
        lemma_lookup_at(s, i);
    }
}

/// Copies a key by `Clone::clone`.
///
/// Trusted: for a key type that obeys vstd's hash-table key model
/// (`obeys_key_model`, which holds of the primitive integer types and which
/// by its definition includes that `clone` returns a value identical to its
/// input), the copy equals the key it was made from. Nothing is claimed for other types.
#[verifier::external_body]
pub(crate) fn clone_key<K: Clone>(k: &K) -> (r: K)
    ensures
        obeys_key_model::<K>() ==> r == *k,
{
    k.clone()
}

} // verus!
