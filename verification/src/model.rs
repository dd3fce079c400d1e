//! The abstract state of a cache: its entries as a sequence of key-value
//! pairs, ordered from least recently used (front) to most recently used
//! (back), together with what each operation makes of such a sequence.

use vstd::prelude::*;

verus! {

/// No key occurs twice in `s`.
pub open spec fn distinct_keys<K, V>(s: Seq<(K, V)>) -> bool {
    forall|i: int, j: int| 0 <= i < j < s.len() ==> (#[trigger] s[i]).0 != (#[trigger] s[j]).0
}

/// `s` is a state that a cache of the given capacity can be in: the capacity
/// is positive, no more entries than that are held, and no key occurs twice.
pub open spec fn valid<K, V>(s: Seq<(K, V)>, capacity: nat) -> bool {
    &&& 0 < capacity
    &&& s.len() <= capacity
    &&& distinct_keys(s)
}

/// The keys of `s`, in the order of its entries.
pub open spec fn key_seq<K, V>(s: Seq<(K, V)>) -> Seq<K> {
    s.map_values(|e: (K, V)| e.0)
}

/// Some entry of `s` has the key `k`.
pub open spec fn has_key<K, V>(s: Seq<(K, V)>, k: K) -> bool {
    exists|i: int| 0 <= i < s.len() && (#[trigger] s[i]).0 == k
}

/// Where the entry with key `k` stands in `s`; meaningful when `has_key(s, k)`.
pub open spec fn position<K, V>(s: Seq<(K, V)>, k: K) -> int {
    choose|i: int| 0 <= i < s.len() && (#[trigger] s[i]).0 == k
}

/// The value stored under `k`, if any.
pub open spec fn lookup<K, V>(s: Seq<(K, V)>, k: K) -> Option<V> {
    if has_key(s, k) {
        Some(s[position(s, k)].1)
    } else {
        None
    }
}

/// The entries after an access to `k`: the entry with that key moves to the
/// most-recently-used end and all others keep their relative order. Without
/// such an entry nothing changes.
pub open spec fn promote<K, V>(s: Seq<(K, V)>, k: K) -> Seq<(K, V)> {
    if has_key(s, k) {
        let i: int = position(s, k);
        s.remove(i).push(s[i])
    } else {
        s
    }
}

/// The entries after `k` is bound to `v` in a cache that holds at most
/// `capacity` entries. A key that is present gets the new value and becomes the
/// most recently used. A new key is appended; if the cache is full, the least
/// recently used entry makes room for it.
pub open spec fn store<K, V>(s: Seq<(K, V)>, capacity: nat, k: K, v: V) -> Seq<(K, V)> {
    if has_key(s, k) {
        s.remove(position(s, k)).push((k, v))
    } else if s.len() < capacity {
        s.push((k, v))
    } else {
        s.drop_first().push((k, v))
    }
}

/// The key that a cache of the given capacity drops when `k` is bound in it:
/// that of the least recently used entry if `k` is new and the cache is full,
/// and none otherwise.
pub open spec fn evicted<K, V>(s: Seq<(K, V)>, capacity: nat, k: K) -> Option<K> {
    if !has_key(s, k) && 0 < s.len() && capacity <= s.len() {
        Some(s[0].0)
    } else {
        None
    }
}

/// The entries after the one with key `k`, if there is one, is taken out.
pub open spec fn discard<K, V>(s: Seq<(K, V)>, k: K) -> Seq<(K, V)> {
    if has_key(s, k) {
        s.remove(position(s, k))
    } else {
        s
    }
}

/// Where in `s` the entry stood that stands at place `i` of `s.remove(p)`.
pub open spec fn origin(p: int, i: int) -> int {
    if i < p {
        i
    } else {
        i + 1
    }
}

/// What stands at each place of `s.remove(p)`.
pub proof fn lemma_remove_places<A>(s: Seq<A>, p: int)
    requires
        0 <= p < s.len(),
    ensures
        s.remove(p).len() == s.len() - 1,
        forall|i: int| 0 <= i < s.len() - 1 ==> #[trigger] s.remove(p)[i] == s[origin(p, i)],
{
}

/// With distinct keys, the entry at `p` is the one that `position` finds for
/// its key.
pub proof fn lemma_position_is<K, V>(s: Seq<(K, V)>, p: int)
    requires
        distinct_keys(s),
        0 <= p < s.len(),
    ensures
        has_key(s, s[p].0),
        position(s, s[p].0) == p,
        lookup(s, s[p].0) == Some(s[p].1),
{
}

/// Taking the entry at `p` out of distinct keys leaves distinct keys, without
/// the key of that entry and with every other key bound as before.
pub proof fn lemma_remove<K, V>(s: Seq<(K, V)>, p: int)
    requires
        distinct_keys(s),
        0 <= p < s.len(),
    ensures
        distinct_keys(s.remove(p)),
        !has_key(s.remove(p), s[p].0),
        forall|k: K| k != s[p].0 ==> lookup(s.remove(p), k) == lookup(s, k),
        forall|k: K| k != s[p].0 ==> (has_key(s.remove(p), k) <==> has_key(s, k)),
{
    let t = s.remove(p);
    lemma_remove_places(s, p);
    assert forall|k: K| k != s[p].0 implies lookup(t, k) == lookup(s, k) && (has_key(t, k)
        <==> has_key(s, k)) by {
        if has_key(t, k) {
            let q: int = position(t, k);
            lemma_position_is(t, q);
            lemma_position_is(s, origin(p, q));
        }
        if has_key(s, k) {
            let a: int = position(s, k);
            let q: int = if a < p {
                a
            } else {
                a - 1
            };
            lemma_position_is(t, q);
            lemma_position_is(s, a);
        }
    }
}

/// Appending an entry with a new key to distinct keys leaves distinct keys,
/// with the new key bound to the new value and every other key as before.
pub proof fn lemma_push<K, V>(s: Seq<(K, V)>, k: K, v: V)
    requires
        distinct_keys(s),
        !has_key(s, k),
    ensures
        distinct_keys(s.push((k, v))),
        lookup(s.push((k, v)), k) == Some(v),
        position(s.push((k, v)), k) == s.len(),
        forall|j: K| j != k ==> lookup(s.push((k, v)), j) == lookup(s, j),
        forall|j: K| j != k ==> (has_key(s.push((k, v)), j) <==> has_key(s, j)),
{
    let t = s.push((k, v));
    lemma_position_is(t, s.len() as int);
    assert forall|j: K| j != k implies lookup(t, j) == lookup(s, j) && (has_key(t, j)
        <==> has_key(s, j)) by {
        if has_key(t, j) {
            let q: int = position(t, j);
            lemma_position_is(t, q);
            lemma_position_is(s, q);
        }
        if has_key(s, j) {
            let q: int = position(s, j);
            lemma_position_is(t, q);
            lemma_position_is(s, q);
        }
    }
}

} // verus!
