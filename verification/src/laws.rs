//! What holds of the operations of a cache, stated over its entries: the
//! functions of `model` that the operations' contracts are written with.

use crate::model::{
    discard, evicted, has_key, lemma_position_is, lemma_push, lemma_remove, lookup, position,
    promote, store, valid,
};
use vstd::prelude::*;

verus! {

/// A get neither adds nor drops an entry: the state stays valid, the size
/// stays the same, and every key is bound as before.
pub proof fn lemma_get_keeps_entries<K, V>(s: Seq<(K, V)>, capacity: nat, k: K)
    requires
        valid(s, capacity),
    ensures
        valid(promote(s, k), capacity),
        promote(s, k).len() == s.len(),
        forall|j: K| lookup(promote(s, k), j) == lookup(s, j),
        forall|j: K| has_key(promote(s, k), j) <==> has_key(s, j),
{
    if has_key(s, k) {
        let p: int = position(s, k);
        lemma_position_is(s, p);
        lemma_remove(s, p);
        lemma_push(s.remove(p), k, s[p].1);
    }
}

/// After a get that finds `k`, its entry is the most recently used one, and
/// the other entries follow each other as before.
pub proof fn lemma_get_promotes<K, V>(s: Seq<(K, V)>, capacity: nat, k: K)
    requires
        valid(s, capacity),
        has_key(s, k),
    ensures
        promote(s, k).len() == s.len(),
        promote(s, k).last() == (k, lookup(s, k)->0),
        position(promote(s, k), k) == s.len() - 1,
        promote(s, k).drop_last() == s.remove(position(s, k)),
{
    lemma_get_keeps_entries(s, capacity, k);
    lemma_position_is(promote(s, k), s.len() - 1);
}

/// A put leaves the state valid, so never more entries than the capacity,
/// and leaves `k` bound to `v` as the most recently used entry.
pub proof fn lemma_put_keeps_valid<K, V>(s: Seq<(K, V)>, capacity: nat, k: K, v: V)
    requires
        valid(s, capacity),
    ensures
        valid(store(s, capacity, k, v), capacity),
        store(s, capacity, k, v).last() == (k, v),
        lookup(store(s, capacity, k, v), k) == Some(v),
{
    if has_key(s, k) {
        lemma_put_updates_in_place(s, capacity, k, v);
    } else if s.len() < capacity {
        lemma_put_with_room_keeps_all(s, capacity, k, v);
    } else {
        lemma_put_evicts_least_recent(s, capacity, k, v);
    }
}

/// A put of a new key into a full cache drops the entry at the
/// least-recently-used end and no other; every other entry stays, in its
/// place relative to the others, and the new entry is the most recently used.
pub proof fn lemma_put_evicts_least_recent<K, V>(s: Seq<(K, V)>, capacity: nat, k: K, v: V)
    requires
        valid(s, capacity),
        !has_key(s, k),
        s.len() == capacity,
    ensures
        valid(store(s, capacity, k, v), capacity),
        store(s, capacity, k, v) == s.drop_first().push((k, v)),
        store(s, capacity, k, v).len() == capacity,
        evicted(s, capacity, k) == Some(s[0].0),
        !has_key(store(s, capacity, k, v), s[0].0),
        lookup(store(s, capacity, k, v), k) == Some(v),
        forall|j: K| j != k && j != s[0].0 ==> lookup(store(s, capacity, k, v), j) == lookup(s, j),
{
    lemma_remove(s, 0);
    lemma_push(s.drop_first(), k, v);
}

/// A put of a new key into a cache that has room drops nothing: every entry
/// stays in its place and the new one is appended as the most recently used.
pub proof fn lemma_put_with_room_keeps_all<K, V>(s: Seq<(K, V)>, capacity: nat, k: K, v: V)
    requires
        valid(s, capacity),
        !has_key(s, k),
        s.len() < capacity,
    ensures
        valid(store(s, capacity, k, v), capacity),
        store(s, capacity, k, v) == s.push((k, v)),
        evicted(s, capacity, k) is None,
        lookup(store(s, capacity, k, v), k) == Some(v),
        forall|j: K| j != k ==> lookup(store(s, capacity, k, v), j) == lookup(s, j),
{
    lemma_push(s, k, v);
}

/// A put of a key that is present changes its value and makes it the most
/// recently used; the size stays the same, nothing is dropped, and every
/// other key stays bound as before.
pub proof fn lemma_put_updates_in_place<K, V>(s: Seq<(K, V)>, capacity: nat, k: K, v: V)
    requires
        valid(s, capacity),
        has_key(s, k),
    ensures
        valid(store(s, capacity, k, v), capacity),
        evicted(s, capacity, k) is None,
        store(s, capacity, k, v).len() == s.len(),
        store(s, capacity, k, v).last() == (k, v),
        store(s, capacity, k, v).drop_last() == s.remove(position(s, k)),
        lookup(store(s, capacity, k, v), k) == Some(v),
        forall|j: K| j != k ==> lookup(store(s, capacity, k, v), j) == lookup(s, j),
        forall|j: K| has_key(store(s, capacity, k, v), j) <==> has_key(s, j),
{
    let p: int = position(s, k);
    lemma_remove(s, p);
    lemma_push(s.remove(p), k, v);
    assert(has_key(store(s, capacity, k, v), k)) by {
        lemma_position_is(store(s, capacity, k, v), s.len() - 1);
    }
}

/// Deleting a key that is absent changes nothing.
pub proof fn lemma_delete_absent<K, V>(s: Seq<(K, V)>, k: K)
    requires
        !has_key(s, k),
    ensures
        discard(s, k) == s,
{
}

/// After a delete the key is absent: a get of it finds nothing and changes
/// nothing, and a second delete changes nothing. Every other key stays bound
/// as before.
pub proof fn lemma_delete_forgets<K, V>(s: Seq<(K, V)>, capacity: nat, k: K)
    requires
        valid(s, capacity),
    ensures
        valid(discard(s, k), capacity),
        !has_key(discard(s, k), k),
        lookup(discard(s, k), k) is None,
        promote(discard(s, k), k) == discard(s, k),
        discard(discard(s, k), k) == discard(s, k),
        discard(s, k).len() == s.len() - (if has_key(s, k) {
            1int
        } else {
            0int
        }),
        forall|j: K| j != k ==> lookup(discard(s, k), j) == lookup(s, j),
{
    if has_key(s, k) {
        lemma_remove(s, position(s, k));
    }
}

/// After a reset no entry is left: the size is 0, and a get of any key finds
/// nothing and changes nothing.
pub proof fn lemma_reset_forgets<K, V>(capacity: nat, k: K)
    requires
        0 < capacity,
    ensures
        valid(Seq::<(K, V)>::empty(), capacity),
        Seq::<(K, V)>::empty().len() == 0,
        lookup(Seq::<(K, V)>::empty(), k) is None,
        promote(Seq::<(K, V)>::empty(), k) == Seq::<(K, V)>::empty(),
{
}

} // verus!
