//! Histories: what holds of a cache after any sequence of operations, and
//! how its recency order follows from the order in which its entries were
//! touched.

use crate::laws::{
    lemma_delete_forgets, lemma_get_keeps_entries, lemma_put_evicts_least_recent,
    lemma_put_keeps_valid, lemma_put_updates_in_place, lemma_put_with_room_keeps_all,
};
use crate::model::{
    discard, has_key, lemma_remove_places, lookup, position, promote, store, valid,
};
use vstd::prelude::*;

verus! {

/// One operation on a cache.
pub enum Op<K, V> {
    Get(K),
    Put(K, V),
    Delete(K),
    Reset,
}

/// The entries after `op` is applied to the entries `s`.
pub open spec fn step<K, V>(s: Seq<(K, V)>, capacity: nat, op: Op<K, V>) -> Seq<(K, V)> {
    match op {
        Op::Get(k) => promote(s, k),
        Op::Put(k, v) => store(s, capacity, k, v),
        Op::Delete(k) => discard(s, k),
        Op::Reset => Seq::empty(),
    }
}

/// The entries after the operations `ops` are applied, in their order, to an
/// empty cache.
pub open spec fn run<K, V>(capacity: nat, ops: Seq<Op<K, V>>) -> Seq<(K, V)>
    decreases ops.len(),
{
    if ops.len() == 0 {
        Seq::empty()
    } else {
        step(run(capacity, ops.drop_last()), capacity, ops.last())
    }
}

/// `op`, applied to the entries `s`, touches the entry of `k`: it is a put of
/// `k`, or a get of `k` that finds it.
pub open spec fn touches<K, V>(s: Seq<(K, V)>, op: Op<K, V>, k: K) -> bool {
    match op {
        Op::Get(j) => j == k && has_key(s, k),
        Op::Put(j, _) => j == k,
        Op::Delete(_) => false,
        Op::Reset => false,
    }
}

/// When the entry of `k` was last touched in the history `ops` of a cache
/// that started out empty: the number of operations up to and including the
/// latest one that touched it, and 0 if none did.
pub open spec fn last_touch<K, V>(capacity: nat, ops: Seq<Op<K, V>>, k: K) -> nat
    decreases ops.len(),
{
    if ops.len() == 0 {
        0
    } else if touches(run(capacity, ops.drop_last()), ops.last(), k) {
        ops.len()
    } else {
        last_touch(capacity, ops.drop_last(), k)
    }
}

/// Every entry of the cache has been touched in its history, and the entries
/// stand in the order of their last touches, the longest ago first.
pub open spec fn in_touch_order<K, V>(capacity: nat, ops: Seq<Op<K, V>>) -> bool {
    let s = run(capacity, ops);
    &&& forall|i: int| 0 <= i < s.len() ==> 0 < last_touch(capacity, ops, (#[trigger] s[i]).0)
    &&& forall|i: int, j: int|
        0 <= i < j < s.len() ==> last_touch(capacity, ops, (#[trigger] s[i]).0) < last_touch(
            capacity,
            ops,
            (#[trigger] s[j]).0,
        )
}

/// A history that is one operation longer takes the cache one step further.
pub proof fn lemma_run_push<K, V>(capacity: nat, ops: Seq<Op<K, V>>, op: Op<K, V>)
    ensures
        run(capacity, ops.push(op)) == step(run(capacity, ops), capacity, op),
{
    assert(ops.push(op).drop_last() =~= ops);
}

/// The last touch of a key lies within the history, and at or after every
/// operation that touched it.
pub proof fn lemma_last_touch_bounds<K, V>(capacity: nat, ops: Seq<Op<K, V>>, k: K)
    ensures
        last_touch(capacity, ops, k) <= ops.len(),
        forall|t: int|
            0 <= t < ops.len() && touches(run(capacity, ops.take(t)), #[trigger] ops[t], k) ==> t
                < last_touch(capacity, ops, k),
    decreases ops.len(),
{
    if ops.len() > 0 {
        let earlier = ops.drop_last();
        lemma_last_touch_bounds(capacity, earlier, k);
        assert forall|t: int|
            0 <= t < ops.len() && touches(
                run(capacity, ops.take(t)),
                #[trigger] ops[t],
                k,
            ) implies t < last_touch(capacity, ops, k) by {
            if t < earlier.len() {
                assert(earlier[t] == ops[t]);
                assert(earlier.take(t) =~= ops.take(t));
            }
        }
    }
}

/// After any sequence of operations on an empty cache, the state is valid:
/// at most `capacity` entries, no key twice. And the recency order is the
/// order of last touch: of two entries, the one that was got or put longer
/// ago stands nearer the least-recently-used end.
pub proof fn lemma_recency_is_touch_order<K, V>(capacity: nat, ops: Seq<Op<K, V>>)
    requires
        0 < capacity,
    ensures
        valid(run(capacity, ops), capacity),
        in_touch_order(capacity, ops),
    decreases ops.len(),
{
    if ops.len() > 0 {
        let earlier = ops.drop_last();
        let op = ops.last();
        let s = run(capacity, earlier);
        let t = run(capacity, ops);
        lemma_recency_is_touch_order(capacity, earlier);
        assert forall|j: K| last_touch(capacity, earlier, j) <= earlier.len() by {
            lemma_last_touch_bounds(capacity, earlier, j);
        }
        match op {
            Op::Get(k) => {
                lemma_get_keeps_entries(s, capacity, k);
                if has_key(s, k) {
                    let p: int = position(s, k);
                    lemma_remove_places(s, p);
                }
            },
            Op::Put(k, v) => {
                lemma_put_keeps_valid(s, capacity, k, v);
                if has_key(s, k) {
                    let p: int = position(s, k);
                    lemma_remove_places(s, p);
                } else {
                    assert forall|i: int| 0 <= i < s.len() implies (#[trigger] s[i]).0 != k by {}
                    if s.len() >= capacity {
                        lemma_remove_places(s, 0);
                    }
                }
            },
            Op::Delete(k) => {
                lemma_delete_forgets(s, capacity, k);
                if has_key(s, k) {
                    lemma_remove_places(s, position(s, k));
                }
            },
            Op::Reset => {},
        }
    }
}

/// When a put of a new key finds the cache full, the entry it drops is the
/// one touched longest ago; every other entry was touched after it, and
/// stays.
pub proof fn lemma_eviction_takes_least_recently_touched<K, V>(
    capacity: nat,
    ops: Seq<Op<K, V>>,
    k: K,
    v: V,
)
    requires
        0 < capacity,
        !has_key(run(capacity, ops), k),
        run(capacity, ops).len() == capacity,
    ensures
        ({
            let s = run(capacity, ops);
            let t = run(capacity, ops.push(Op::Put(k, v)));
            &&& t == s.drop_first().push((k, v))
            &&& !has_key(t, s[0].0)
            &&& forall|i: int|
                1 <= i < s.len() ==> has_key(t, (#[trigger] s[i]).0) && last_touch(
                    capacity,
                    ops,
                    s[0].0,
                ) < last_touch(capacity, ops, s[i].0)
        }),
{
    let s = run(capacity, ops);
    let t = run(capacity, ops.push(Op::Put(k, v)));
    lemma_recency_is_touch_order(capacity, ops);
    lemma_run_push(capacity, ops, Op::Put(k, v));
    lemma_put_evicts_least_recent(s, capacity, k, v);
    assert forall|i: int| 1 <= i < s.len() implies has_key(t, (#[trigger] s[i]).0) by {
        assert(t[i - 1] == s[i]);
    }
}

/// Once an entry has been got or put, a put that finds the cache full does
/// not evict it unless every other entry has been touched since. Here the
/// operation at `t` touches the entry of `k`, and the put of `new_key` after
/// the whole history makes `k` leave the cache.
pub proof fn lemma_touched_entry_is_evicted_last<K, V>(
    capacity: nat,
    ops: Seq<Op<K, V>>,
    t: int,
    k: K,
    new_key: K,
    v: V,
)
    requires
        0 < capacity,
        0 <= t < ops.len(),
        touches(run(capacity, ops.take(t)), ops[t], k),
        has_key(run(capacity, ops), k),
        !has_key(run(capacity, ops.push(Op::Put(new_key, v))), k),
    ensures
        run(capacity, ops).len() == capacity,
        forall|i: int|
            0 <= i < run(capacity, ops).len() && (#[trigger] run(capacity, ops)[i]).0 != k ==> t + 1
                < last_touch(capacity, ops, run(capacity, ops)[i].0),
{
    let s = run(capacity, ops);
    lemma_run_push(capacity, ops, Op::Put(new_key, v));
    lemma_recency_is_touch_order(capacity, ops);
    lemma_last_touch_bounds(capacity, ops, k);
    // The put drops `k`: so it found the cache full, with `k` the least
    // recently used. In every other case `k` stays bound.
    if has_key(s, new_key) {
        lemma_put_updates_in_place(s, capacity, new_key, v);
    } else if s.len() < capacity {
        lemma_put_with_room_keeps_all(s, capacity, new_key, v);
        assert(lookup(store(s, capacity, new_key, v), k) == lookup(s, k));
    } else {
        lemma_put_evicts_least_recent(s, capacity, new_key, v);
        assert(s[0].0 != k ==> lookup(store(s, capacity, new_key, v), k) == lookup(s, k));
    }
}

} // verus!
