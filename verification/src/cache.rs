//! The cache: a hash index from keys to slots, and a slab of slots chained
//! into a doubly linked recency order.
//!
//! The entries live in a vector of slots. Each slot names its neighbours in
//! the recency order by their slot numbers, and the index maps each key to
//! the slot that holds it, so that an entry is found, unchained and chained
//! in again without a search. When an entry leaves, the entry in the last
//! slot moves into the gap: the slots in use are always the first `size()`
//! ones.

use crate::laws::{
    lemma_delete_forgets, lemma_get_keeps_entries, lemma_put_evicts_least_recent,
    lemma_put_updates_in_place, lemma_put_with_room_keeps_all,
};
use crate::model::{
    discard, distinct_keys, evicted, has_key, key_seq, lemma_position_is, lookup, position,
    promote, store, valid,
};
use std::collections::HashMap;
use std::hash::Hash;
use vstd::prelude::*;
use vstd::std_specs::hash::{group_hash_axioms, obeys_key_model};

verus! {

broadcast use group_hash_axioms;

/// Cloning a key yields that same key. This holds of every type whose `clone`
/// is specified to return its argument, the primitive types among them.
pub open spec fn clone_is_exact<K: Clone>() -> bool {
    forall|a: K, b: K| #[trigger] cloned::<K>(a, b) ==> a == b
}

/// The slot that precedes place `p` of `order`, if any.
spec fn before_in(order: Seq<usize>, p: int) -> Option<usize> {
    if 0 < p <= order.len() {
        Some(order[p - 1])
    } else {
        None
    }
}

/// The slot that follows place `p` of `order`, if any.
spec fn after_in(order: Seq<usize>, p: int) -> Option<usize> {
    if -1 <= p < order.len() - 1 {
        Some(order[p + 1])
    } else {
        None
    }
}

/// One entry, with its neighbours in the recency order given as slot numbers.
struct LruNode<K, V> {
    key: K,
    value: V,
    prev: Option<usize>,
    next: Option<usize>,
}

impl<K, V> LruNode<K, V> {
    /// An entry that is linked to no other.
    fn new(key: K, value: V) -> (node: Self)
        ensures
            node.key == key,
            node.value == value,
            node.prev is None,
            node.next is None,
    {
        LruNode { key, value, prev: None, next: None }
    }
}

/// Why no cache was made: a capacity of 0 was asked for, and a cache that can
/// hold nothing is none.
#[derive(Debug)]
pub struct ZeroCapacity;

/// A key-value cache that holds at most `capacity` entries and, when full,
/// drops the least recently used one to admit a new key.
pub struct LruCache<K: Clone + Eq + Hash, V> {
    capacity: usize,
    /// The index: the slot that holds each key.
    map: HashMap<K, usize>,
    /// The slots; every one holds an entry.
    nodes: Vec<LruNode<K, V>>,
    /// The slot of the least recently used entry.
    head: Option<usize>,
    /// The slot of the most recently used entry.
    tail: Option<usize>,
    /// The slots in recency order, least recently used first.
    order: Ghost<Seq<usize>>,
}

impl<K: Clone + Eq + Hash, V> View for LruCache<K, V> {
    type V = Seq<(K, V)>;

    /// The entries, from least to most recently used.
    closed spec fn view(&self) -> Seq<(K, V)> {
        self.order@.map_values(|i: usize| self.entry(i))
    }
}

impl<K: Clone + Eq + Hash, V> LruCache<K, V> {
    /// The key and value held in slot `i`.
    spec fn entry(&self, i: usize) -> (K, V) {
        (self.nodes@[i as int].key, self.nodes@[i as int].value)
    }

    /// Where slot `i` stands in the recency order.
    spec fn rank(&self, i: usize) -> int {
        self.order@.index_of(i)
    }

    /// The slot at place `p` of the recency order is linked to the slots before
    /// and after it.
    spec fn linked_at(&self, p: int) -> bool {
        let i: usize = self.order@[p];
        &&& i < self.nodes@.len()
        &&& self.nodes@[i as int].prev == before_in(self.order@, p)
        &&& self.nodes@[i as int].next == after_in(self.order@, p)
    }

    /// The links of the slots in `order` chain them in that sequence, from
    /// `head` to `tail`.
    spec fn chained(&self) -> bool {
        let order = self.order@;
        &&& order.no_duplicates()
        &&& forall|p: int| 0 <= p < order.len() ==> #[trigger] self.linked_at(p)
        &&& self.head == after_in(order, -1)
        &&& self.tail == before_in(order, order.len() as int)
    }

    /// The index maps the key in slot `i` to `i`.
    spec fn indexed_at(&self, i: int) -> bool {
        let key = self.nodes@[i].key;
        self.map@.contains_key(key) && self.map@[key] == i
    }

    /// The index maps the key of every slot to that slot, and holds nothing
    /// else; the slot `skip`, if given, is left out.
    spec fn indexed(&self, skip: Option<usize>) -> bool {
        let nodes = self.nodes@;
        let map = self.map@;
        &&& forall|i: int|
            0 <= i < nodes.len() && skip != Some(i as usize) ==> #[trigger] self.indexed_at(i)
        &&& forall|k: K| #[trigger]
            map.contains_key(k) ==> map[k] < nodes.len() && nodes[map[k] as int].key == k && skip
                != Some(map[k])
    }

    /// The state between the steps of an operation: every slot is chained into
    /// the recency order, but for `loose`; every slot is indexed, but for
    /// `loose` where `loose_indexed` is false.
    spec fn inv(&self, loose: Option<usize>, loose_indexed: bool) -> bool {
        let nodes = self.nodes@;
        let order = self.order@;
        &&& obeys_key_model::<K>()
        &&& clone_is_exact::<K>()
        &&& 0 < self.capacity
        &&& nodes.len() <= self.capacity
        &&& nodes.len() == order.len() + (if loose is Some {
            1int
        } else {
            0int
        })
        &&& self.chained()
        &&& forall|i: usize| i < nodes.len() && loose != Some(i) ==> #[trigger] order.contains(i)
        &&& loose matches Some(l) ==> l < nodes.len() && !order.contains(l)
        &&& self.indexed(
            if loose_indexed {
                None
            } else {
                loose
            },
        )
    }

    /// The cache is in a consistent state: the size is within the capacity,
    /// the recency order runs through every entry exactly once, and the index
    /// finds every entry under its key.
    pub closed spec fn wf(&self) -> bool {
        self.inv(None, true)
    }

    /// The largest number of entries the cache holds.
    pub closed spec fn capacity(&self) -> nat {
        self.capacity as nat
    }

    /// The keys for which the index holds an entry.
    pub closed spec fn index_keys(&self) -> Set<K> {
        self.map@.dom()
    }

    /// How the index and the entries correspond: the keys are distinct, the
    /// index holds exactly the keys of the entries, and the slot it gives for
    /// a key is where the recency order has that key's entry.
    proof fn lemma_entries(&self)
        requires
            self.wf(),
        ensures
            distinct_keys(self@),
            self@.len() == self.nodes@.len(),
            forall|k: K|
                #![trigger has_key(self@, k)]
                #![trigger self.map@.contains_key(k)]
                has_key(self@, k) <==> self.map@.contains_key(k),
            forall|k: K| #[trigger]
                self.map@.contains_key(k) ==> {
                    let i: usize = self.map@[k];
                    &&& i < self.nodes@.len()
                    &&& 0 <= self.rank(i) < self@.len()
                    &&& position(self@, k) == self.rank(i)
                    &&& self@[self.rank(i)] == self.entry(i)
                    &&& self.entry(i).0 == k
                },
    {
        let s = self@;
        let order = self.order@;
        assert forall|p: int, q: int| 0 <= p < q < s.len() implies (#[trigger] s[p]).0 != (
        #[trigger] s[q]).0 by {
            assert(self.linked_at(p) && self.linked_at(q));
            assert(self.indexed_at(order[p] as int) && self.indexed_at(order[q] as int));
        }
        assert forall|k: K| has_key(s, k) implies self.map@.contains_key(k) by {
            let p: int = position(s, k);
            assert(self.linked_at(p));
            assert(self.indexed_at(order[p] as int));
        }
        assert forall|k: K| #[trigger] self.map@.contains_key(k) implies has_key(s, k) && {
            let i: usize = self.map@[k];
            &&& i < self.nodes@.len()
            &&& 0 <= self.rank(i) < s.len()
            &&& position(s, k) == self.rank(i)
            &&& s[self.rank(i)] == self.entry(i)
            &&& self.entry(i).0 == k
        } by {
            let i: usize = self.map@[k];
            assert(order.contains(i));
            let r: int = self.rank(i);
            lemma_position_is(s, r);
        }
    }

    /// In a consistent cache the recency order runs through exactly the keys
    /// that the index holds, each once, and through no more entries than the
    /// capacity allows.
    pub proof fn lemma_recency_order(&self)
        requires
            self.wf(),
        ensures
            valid(self@, self.capacity()),
            key_seq(self@).no_duplicates(),
            key_seq(self@).to_set() == self.index_keys(),
            self.index_keys().len() == self@.len(),
            forall|k: K| has_key(self@, k) <==> #[trigger] self.index_keys().contains(k),
    {
        self.lemma_entries();
        let keys = key_seq(self@);
        assert forall|k: K| self.index_keys().contains(k) implies keys.to_set().contains(k) by {
            assert(keys[position(self@, k)] == k);
        }
        keys.unique_seq_to_set();
    }
}

impl<K: Clone + Eq + Hash, V: Clone> LruCache<K, V> {
    /// Makes an empty cache that will hold at most `capacity` entries.
    ///
    /// The capacity must be positive. The key type must be fit for a hash
    /// table: hashing is deterministic and `==` is equality, which is what
    /// `obeys_key_model` says and what vstd's `group_hash_axioms` give for the
    /// primitive integer types and `bool`; and a cloned key is the key itself.
    pub fn new(capacity: usize) -> (cache: Self)
        requires
            capacity > 0,
            obeys_key_model::<K>(),
            clone_is_exact::<K>(),
        ensures
            cache.wf(),
            cache.capacity() == capacity,
            cache@ == Seq::<(K, V)>::empty(),
    {
        LruCache {
            capacity,
            map: HashMap::new(),
            nodes: Vec::new(),
            head: None,
            tail: None,
            order: Ghost(Seq::empty()),
        }
    }

    /// Makes an empty cache that will hold at most `capacity` entries, or
    /// refuses a capacity of 0. The key type must be as for `new`.
    pub fn try_new(capacity: usize) -> (made: Result<Self, ZeroCapacity>)
        requires
            obeys_key_model::<K>(),
            clone_is_exact::<K>(),
        ensures
            match made {
                Ok(cache) => capacity > 0 && cache.wf() && cache.capacity() == capacity && cache@
                    == Seq::<(K, V)>::empty(),
                Err(_) => capacity == 0,
            },
    {
        if capacity == 0 {
            Err(ZeroCapacity)
        } else {
            Ok(Self::new(capacity))
        }
    }

    /// Looks `key` up. A key that is present becomes the most recently used,
    /// and a copy of its value is returned.
    pub fn get(&mut self, key: K) -> (value: Option<V>)
        requires
            old(self).wf(),
        ensures
            final(self).wf(),
            final(self).capacity() == old(self).capacity(),
            final(self)@.len() <= final(self).capacity(),
            final(self)@ == promote(old(self)@, key),
            match lookup(old(self)@, key) {
                Some(stored) => value matches Some(copy) && cloned::<V>(stored, copy),
                None => value is None,
            },
            // For the other entries: none comes or goes, and none changes.
            final(self)@.len() == old(self)@.len(),
            forall|k: K| lookup(final(self)@, k) == #[trigger] lookup(old(self)@, k),
    {
        proof {
            self.lemma_entries();
            lemma_get_keeps_entries(self@, self.capacity(), key);
        }
        let i: usize = match self.slot_of(&key) {
            None => {
                return None;
            },
            Some(i) => i,
        };
        let value = self.nodes[i].value.clone();
        self.move_to_back(i);
        Some(value)
    }

    /// Binds `key` to `value`. A key that is present gets the new value; a new
    /// key gets a new entry, for which the least recently used entry is dropped
    /// if the cache is full. Either way `key` becomes the most recently used.
    pub fn put(&mut self, key: K, value: V)
        requires
            old(self).wf(),
        ensures
            final(self).wf(),
            final(self).capacity() == old(self).capacity(),
            final(self)@.len() <= final(self).capacity(),
            final(self)@ == store(old(self)@, old(self).capacity(), key, value),
            // The same, told by size and key by key.
            final(self)@.len() == old(self)@.len() + (if lookup(old(self)@, key) is None
                && old(self)@.len() < old(self).capacity() {
                1nat
            } else {
                0nat
            }),
            lookup(final(self)@, key) == Some(value),
            evicted(old(self)@, old(self).capacity(), key) matches Some(gone) ==> lookup(
                final(self)@,
                gone,
            ) is None,
            forall|k: K|
                k != key && evicted(old(self)@, old(self).capacity(), key) != Some(k) ==> lookup(
                    final(self)@,
                    k,
                ) == #[trigger] lookup(old(self)@, k),
    {
        proof {
            self.lemma_entries();
            if has_key(self@, key) {
                lemma_put_updates_in_place(self@, self.capacity(), key, value);
            } else if self@.len() < self.capacity() {
                lemma_put_with_room_keeps_all(self@, self.capacity(), key, value);
            } else {
                lemma_put_evicts_least_recent(self@, self.capacity(), key, value);
            }
        }
        match self.slot_of(&key) {
            Some(i) => {
                self.set_value(i, value);
                self.move_to_back(i);
            },
            None => {
                if self.nodes.len() == self.capacity {
                    self.evict_head();
                    proof {
                        self.lemma_entries();
                    }
                }
                let i: usize = self.push_node(key, value);
                self.append_node(i);
            },
        }
    }

    /// Drops the entry of `key`, if there is one.
    pub fn delete(&mut self, key: K)
        requires
            old(self).wf(),
        ensures
            final(self).wf(),
            final(self).capacity() == old(self).capacity(),
            final(self)@.len() <= final(self).capacity(),
            final(self)@ == discard(old(self)@, key),
            // The same, told by size and key by key.
            final(self)@.len() + (if lookup(old(self)@, key) is Some {
                1nat
            } else {
                0nat
            }) == old(self)@.len(),
            lookup(final(self)@, key) is None,
            forall|k: K| k != key ==> lookup(final(self)@, k) == #[trigger] lookup(old(self)@, k),
    {
        proof {
            self.lemma_entries();
            lemma_delete_forgets(self@, self.capacity(), key);
        }
        if let Some(i) = self.slot_of(&key) {
            self.evict_node(i);
        }
    }

    /// Drops every entry. The capacity stays as it is.
    pub fn reset(&mut self)
        requires
            old(self).wf(),
        ensures
            final(self).wf(),
            final(self).capacity() == old(self).capacity(),
            final(self)@.len() <= final(self).capacity(),
            final(self)@ == Seq::<(K, V)>::empty(),
            final(self).index_keys() == Set::<K>::empty(),
    {
        self.map.clear();
        self.nodes.clear();
        self.head = None;
        self.tail = None;
        proof {
            self.order@ = Seq::empty();
        }
    }

    /// The number of entries.
    pub fn size(&self) -> (n: usize)
        requires
            self.wf(),
        ensures
            n == self@.len(),
            n <= self.capacity(),
    {
        self.nodes.len()
    }

    /// The keys, from least to most recently used, found by walking the
    /// recency order from its head.
    pub fn keys(&self) -> (keys: Vec<K>)
        requires
            self.wf(),
        ensures
            keys@ == key_seq(self@),
    {
        let mut keys: Vec<K> = Vec::new();
        let mut cursor = self.head;
        while cursor.is_some()
            invariant
                self.wf(),
                keys@.len() <= self@.len(),
                cursor == after_in(self.order@, keys@.len() - 1),
                forall|p: int| 0 <= p < keys@.len() ==> keys@[p] == self@[p].0,
            decreases self@.len() - keys@.len(),
        {
            let i: usize = cursor.unwrap();
            proof {
                assert(self.linked_at(keys@.len() as int));
            }
            let key = self.nodes[i].key.clone();
            assert(cloned::<K>(self.nodes@[i as int].key, key));
            keys.push(key);
            cursor = self.nodes[i].next;
        }
        keys
    }

    /// The slot that the index gives for `key`.
    fn slot_of(&self, key: &K) -> (slot: Option<usize>)
        requires
            self.wf(),
        ensures
            slot == (if self.map@.contains_key(*key) {
                Some(self.map@[*key])
            } else {
                None
            }),
    {
        match self.map.get(key) {
            Some(i) => Some(*i),
            None => None,
        }
    }

    /// Makes slot `i` the most recently used.
    fn move_to_back(&mut self, i: usize)
        requires
            old(self).wf(),
            i < old(self).nodes.len(),
        ensures
            final(self).wf(),
            final(self).capacity == old(self).capacity,
            0 <= old(self).rank(i) < old(self)@.len(),
            old(self)@[old(self).rank(i)] == old(self).entry(i),
            final(self)@ == old(self)@.remove(old(self).rank(i)).push(old(self).entry(i)),
    {
        self.remove_node(i);
        self.append_node(i);
    }

    /// Takes slot `i` out of the recency order and joins its neighbours to each
    /// other. The slot keeps its entry and stays indexed.
    fn remove_node(&mut self, i: usize)
        requires
            old(self).wf(),
            i < old(self).nodes.len(),
        ensures
            final(self).inv(Some(i), true),
            final(self).capacity == old(self).capacity,
            final(self).map == old(self).map,
            final(self).nodes.len() == old(self).nodes.len(),
            final(self).entry(i) == old(self).entry(i),
            0 <= old(self).rank(i) < old(self)@.len(),
            old(self)@[old(self).rank(i)] == old(self).entry(i),
            final(self)@ == old(self)@.remove(old(self).rank(i)),
    {
        let ghost before = self.order@;
        let ghost n: int = before.len() as int;
        let ghost r: int = self.rank(i);
        proof {
            assert(before.contains(i));
            assert(self.linked_at(r));
            if r > 0 {
                assert(self.linked_at(r - 1));
            }
            if r < n - 1 {
                assert(self.linked_at(r + 1));
            }
        }
        let prev = self.nodes[i].prev;
        let next = self.nodes[i].next;
        match prev {
            None => {
                self.head = next;
            },
            Some(p) => {
                self.nodes[p].next = next;
            },
        }
        match next {
            None => {
                self.tail = prev;
            },
            Some(q) => {
                self.nodes[q].prev = prev;
            },
        }
        proof {
            self.order@ = before.remove(r);
            let after = self.order@;
            assert forall|p: int| 0 <= p < after.len() implies #[trigger] self.linked_at(p) by {
                if p < r {
                    assert(old(self).linked_at(p));
                } else {
                    assert(old(self).linked_at(p + 1));
                }
            }
            assert forall|j: usize|
                j < self.nodes@.len() && j != i implies #[trigger] after.contains(j) by {
                assert(before.contains(j));
                let q: int = before.index_of(j);
                if q < r {
                    assert(after[q] == j);
                } else {
                    assert(after[q - 1] == j);
                }
            }
            assert forall|j: int| 0 <= j < self.nodes@.len() implies #[trigger] self.indexed_at(
                j,
            ) by {
                assert(old(self).indexed_at(j));
            }
            assert forall|p: int| 0 <= p < after.len() implies self@[p] == old(self)@.remove(
                r,
            )[p] by {
                assert(self.linked_at(p));
            }
        }
    }

    /// Chains the loose slot `i` in at the most-recently-used end.
    fn append_node(&mut self, i: usize)
        requires
            old(self).inv(Some(i), true),
        ensures
            final(self).wf(),
            final(self).capacity == old(self).capacity,
            final(self).map == old(self).map,
            final(self).nodes.len() == old(self).nodes.len(),
            final(self)@ == old(self)@.push(old(self).entry(i)),
    {
        let ghost before = self.order@;
        let ghost n: int = before.len() as int;
        match self.tail {
            None => {
                self.head = Some(i);
            },
            Some(t) => {
                proof {
                    assert(self.linked_at(n - 1));
                }
                self.nodes[t].next = Some(i);
            },
        }
        self.nodes[i].prev = self.tail;
        self.nodes[i].next = None;
        self.tail = Some(i);
        proof {
            self.order@ = before.push(i);
            let after = self.order@;
            assert forall|p: int| 0 <= p < after.len() implies #[trigger] self.linked_at(p) by {
                if p < n {
                    assert(old(self).linked_at(p));
                }
            }
            assert forall|j: usize| j < self.nodes@.len() implies #[trigger] after.contains(j) by {
                if j == i {
                    assert(after[n] == j);
                } else {
                    assert(before.contains(j));
                    assert(after[before.index_of(j)] == j);
                }
            }
            assert forall|j: int| 0 <= j < self.nodes@.len() implies #[trigger] self.indexed_at(
                j,
            ) by {
                assert(old(self).indexed_at(j));
            }
            assert forall|p: int| 0 <= p < after.len() implies self@[p] == old(self)@.push(
                old(self).entry(i),
            )[p] by {
                assert(self.linked_at(p));
            }
        }
    }

    /// Puts `value` in place of the value in slot `i`.
    fn set_value(&mut self, i: usize, value: V)
        requires
            old(self).wf(),
            i < old(self).nodes.len(),
        ensures
            final(self).wf(),
            final(self).capacity == old(self).capacity,
            final(self).nodes.len() == old(self).nodes.len(),
            final(self).rank(i) == old(self).rank(i),
            final(self)@ == old(self)@.update(old(self).rank(i), (old(self).entry(i).0, value)),
    {
        self.nodes[i].value = value;
        proof {
            assert(self.order@.contains(i));
            assert forall|p: int| 0 <= p < self.order@.len() implies #[trigger] self.linked_at(
                p,
            ) by {
                assert(old(self).linked_at(p));
            }
            assert forall|j: int| 0 <= j < self.nodes@.len() implies #[trigger] self.indexed_at(
                j,
            ) by {
                assert(old(self).indexed_at(j));
            }
            assert forall|p: int| 0 <= p < self@.len() implies self@[p] == old(self)@.update(
                self.rank(i),
                (old(self).entry(i).0, value),
            )[p] by {
                assert(self.linked_at(p));
            }
        }
    }

    /// Puts a new entry in a new slot and indexes it; the slot is left loose.
    fn push_node(&mut self, key: K, value: V) -> (i: usize)
        requires
            old(self).wf(),
            old(self).nodes.len() < old(self).capacity,
            !old(self).map@.contains_key(key),
        ensures
            final(self).inv(Some(i), true),
            final(self).capacity == old(self).capacity,
            final(self).entry(i) == (key, value),
            final(self)@ == old(self)@,
    {
        let i: usize = self.nodes.len();
        let index_key = key.clone();
        assert(cloned::<K>(key, index_key));
        self.map.insert(index_key, i);
        self.nodes.push(LruNode::new(key, value));
        proof {
            assert forall|p: int| 0 <= p < self.order@.len() implies #[trigger] self.linked_at(
                p,
            ) by {
                assert(old(self).linked_at(p));
            }
            assert forall|j: int| 0 <= j < self.nodes@.len() implies #[trigger] self.indexed_at(
                j,
            ) by {
                if j < i {
                    assert(old(self).indexed_at(j));
                }
            }
            if self.order@.contains(i) {
                assert(old(self).linked_at(self.rank(i)));
            }
            assert forall|p: int| 0 <= p < self@.len() implies self@[p] == old(self)@[p] by {
                assert(self.linked_at(p));
            }
        }
        i
    }

    /// Drops the least recently used entry.
    fn evict_head(&mut self)
        requires
            old(self).wf(),
            old(self).nodes.len() > 0,
        ensures
            final(self).wf(),
            final(self).capacity == old(self).capacity,
            final(self).nodes.len() == old(self).nodes.len() - 1,
            final(self)@ == old(self)@.drop_first(),
    {
        proof {
            assert(self.linked_at(0));
        }
        if let Some(head) = self.head {
            self.evict_node(head);
        }
    }

    /// Drops the entry in slot `i` from the recency order, the index and the
    /// slab.
    fn evict_node(&mut self, i: usize)
        requires
            old(self).wf(),
            i < old(self).nodes.len(),
        ensures
            final(self).wf(),
            final(self).capacity == old(self).capacity,
            final(self).nodes.len() == old(self).nodes.len() - 1,
            0 <= old(self).rank(i) < old(self)@.len(),
            old(self)@[old(self).rank(i)] == old(self).entry(i),
            final(self)@ == old(self)@.remove(old(self).rank(i)),
    {
        self.remove_node(i);
        let ghost linked = *self;
        self.map.remove(&self.nodes[i].key);
        proof {
            assert(linked.indexed_at(i as int));
            assert forall|j: int|
                0 <= j < self.nodes@.len() && j != i implies #[trigger] self.indexed_at(j) by {
                assert(linked.indexed_at(j));
            }
            assert forall|p: int| 0 <= p < self.order@.len() implies #[trigger] self.linked_at(
                p,
            ) by {
                assert(linked.linked_at(p));
            }
        }
        self.release_slot(i);
    }

    /// Gives slot `i` up, which is neither chained nor indexed any more. To keep
    /// the slab dense the entry in the last slot moves into the gap, and its
    /// neighbours and the index follow it.
    fn release_slot(&mut self, i: usize)
        requires
            old(self).inv(Some(i), false),
        ensures
            final(self).wf(),
            final(self).capacity == old(self).capacity,
            final(self).nodes.len() == old(self).nodes.len() - 1,
            final(self)@ == old(self)@,
    {
        let ghost before = self.order@;
        let ghost n: int = before.len() as int;
        let last: usize = self.nodes.len() - 1;
        let ghost r: int = self.rank(last);
        proof {
            if i != last {
                assert(before.contains(last));
                assert(self.linked_at(r));
            }
            assert forall|p: int| 0 <= p < n && p != r implies before[p] < last by {
                assert(self.linked_at(p));
            }
        }
        self.nodes.swap_remove(i);
        if i != last {
            let prev = self.nodes[i].prev;
            let next = self.nodes[i].next;
            match prev {
                None => {
                    self.head = Some(i);
                },
                Some(p) => {
                    self.nodes[p].next = Some(i);
                },
            }
            match next {
                None => {
                    self.tail = Some(i);
                },
                Some(q) => {
                    self.nodes[q].prev = Some(i);
                },
            }
            let key = self.nodes[i].key.clone();
            assert(cloned::<K>(self.nodes@[i as int].key, key));
            self.map.insert(key, i);
            proof {
                self.order@ = before.update(r, i);
            }
        }
        proof {
            let after = self.order@;
            assert forall|p: int| 0 <= p < after.len() implies #[trigger] self.linked_at(p) by {
                assert(old(self).linked_at(p));
            }
            assert forall|j: usize| j < self.nodes@.len() implies #[trigger] after.contains(j) by {
                if j == i {
                    assert(after[r] == j);
                } else {
                    assert(before.contains(j));
                    assert(after[before.index_of(j)] == j);
                }
            }
            assert forall|j: int| 0 <= j < self.nodes@.len() implies #[trigger] self.indexed_at(
                j,
            ) by {
                if i != last {
                    assert(old(self).indexed_at(last as int));
                }
                if j != i {
                    assert(old(self).indexed_at(j));
                }
            }
            assert forall|p: int| 0 <= p < after.len() implies self@[p] == old(self)@[p] by {
                assert(self.linked_at(p));
            }
        }
    }
}

} // verus!
