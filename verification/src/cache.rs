//! The cache: a key index over the node arena, with a bound on the number of
//! entries and eviction of the least recently used one.
//!
//! Every operation first turns the key into a node id, or takes a fresh id
//! from a counter, and then lets the arena do the structural work. What an
//! operation does to the cache is stated over the cache's view, the list of
//! entries in recency order, by the functions of `crate::order`.

use crate::graph::{Graph, NodeId};
use crate::history::{in_touch_order, lemma_run_in_touch_order, run, Op};
use crate::order::{
    distinct_keys, holds, inserted, lemma_inserted_lookup, lemma_position, lemma_push,
    lemma_remove_at, lemma_removed, lemma_touched, lookup, position, removed, touched,
};
use std::collections::HashMap;
use std::hash::Hash;
use vstd::prelude::*;
use vstd::std_specs::hash::obeys_key_model;

verus! {

/// A key-value store that holds at most `capacity()` entries and, when a new
/// key arrives at a full store, drops the entry that was touched longest ago.
///
/// Its view is the list of `(key, value)` pairs from the least recently used
/// entry to the most recently used one.
pub struct LruCache<K, V> {
    /// For each key the id of the node that holds it.
    node_ids: HashMap<K, NodeId>,
    graph: Graph<(K, V)>,
    /// The next id to hand out: larger than every id in use.
    id: NodeId,
    capacity: usize,
    /// The calls made on this cache since it was created, first to last.
    history: Ghost<Seq<Op<K, V>>>,
}

/// The `(key, value)` list that an arena list carries.
spec fn entries<K, V>(g: Seq<(NodeId, (K, V))>) -> Seq<(K, V)> {
    g.map_values(|p: (NodeId, (K, V))| p.1)
}

/// The key index and the arena list describe the same entries: each key leads
/// to the one node that carries it, each node's key leads back to that node,
/// and every id in use lies below the counter `next_id`.
spec fn consistent<K, V>(
    index: Map<K, NodeId>,
    g: Seq<(NodeId, (K, V))>,
    next_id: NodeId,
) -> bool {
    &&& distinct_keys(g)
    &&& forall|id: NodeId| #[trigger]
        holds(g, id) ==> {
            &&& id < next_id
            &&& index.contains_key(lookup(g, id).unwrap().0)
            &&& index[lookup(g, id).unwrap().0] == id
        }
    &&& forall|k: K| #[trigger]
        index.contains_key(k) ==> {
            &&& holds(g, index[k])
            &&& lookup(g, index[k]).unwrap().0 == k
        }
}

/// How the entries and the arena list line up: a key is in the index exactly
/// when the entries hold it, and then its node stands in the arena list where
/// the key stands among the entries.
proof fn lemma_index<K, V>(
    index: Map<K, NodeId>,
    g: Seq<(NodeId, (K, V))>,
    next_id: NodeId,
    k: K,
)
    requires
        consistent(index, g, next_id),
    ensures
        distinct_keys(entries(g)),
        index.contains_key(k) <==> holds(entries(g), k),
        holds(entries(g), k) ==> {
            &&& holds(g, index[k])
            &&& position(g, index[k]) == position(entries(g), k)
            &&& lookup(g, index[k]).unwrap().1 == lookup(entries(g), k).unwrap()
        },
{
    let s = entries(g);
    assert forall|i: int, j: int| 0 <= i < s.len() && 0 <= j < s.len() && i != j implies (
    #[trigger] s[i]).0 != (#[trigger] s[j]).0 by {
        lemma_position(g, i);
        lemma_position(g, j);
    }
    if index.contains_key(k) {
        let p = position(g, index[k]);
        assert(s[p].0 == k);
        lemma_position(s, p);
    }
    if holds(s, k) {
        let p = position(s, k);
        lemma_position(g, p);
    }
}

/// Touching the node of a key that is held touches that key's entry and keeps
/// index and arena list in step.
proof fn lemma_touch<K, V>(
    index: Map<K, NodeId>,
    g: Seq<(NodeId, (K, V))>,
    next_id: NodeId,
    k: K,
)
    requires
        consistent(index, g, next_id),
        index.contains_key(k),
    ensures
        consistent(index, touched(g, index[k]), next_id),
        entries(touched(g, index[k])) == touched(entries(g), k),
{
    lemma_index(index, g, next_id, k);
    lemma_touched(g, index[k]);
    let t = touched(g, index[k]);
    let p = position(g, index[k]);
    assert forall|id: NodeId| #[trigger] holds(t, id) implies {
        &&& id < next_id
        &&& index.contains_key(lookup(t, id).unwrap().0)
        &&& index[lookup(t, id).unwrap().0] == id
    } by {
        assert(holds(g, id));
        assert(lookup(t, id) == lookup(g, id));
    }
    assert forall|c: K| #[trigger] index.contains_key(c) implies {
        &&& holds(t, index[c])
        &&& lookup(t, index[c]).unwrap().0 == c
    } by {
        assert(holds(g, index[c]));
        assert(lookup(t, index[c]) == lookup(g, index[c]));
    }
    assert(entries(g.remove(p).push(g[p])) =~= entries(g).remove(p).push(entries(g)[p]));
}

/// Removing the node of a key that is held, and the key from the index,
/// removes that key's entry and keeps index and arena list in step.
proof fn lemma_remove<K, V>(
    index: Map<K, NodeId>,
    g: Seq<(NodeId, (K, V))>,
    next_id: NodeId,
    k: K,
)
    requires
        consistent(index, g, next_id),
        index.contains_key(k),
    ensures
        consistent(index.remove(k), removed(g, index[k]), next_id),
        entries(removed(g, index[k])) == removed(entries(g), k),
{
    lemma_index(index, g, next_id, k);
    let p = position(g, index[k]);
    let r = g.remove(p);
    lemma_remove_at(g, p);
    lemma_position(g, p);
    let new_index = index.remove(k);
    assert forall|id: NodeId| #[trigger] holds(r, id) implies {
        &&& id < next_id
        &&& new_index.contains_key(lookup(r, id).unwrap().0)
        &&& new_index[lookup(r, id).unwrap().0] == id
    } by {
        assert(holds(g, id) && id != index[k]);
        assert(lookup(r, id) == lookup(g, id));
    }
    assert forall|c: K| #[trigger] new_index.contains_key(c) implies {
        &&& holds(r, new_index[c])
        &&& lookup(r, new_index[c]).unwrap().0 == c
    } by {
        assert(index.contains_key(c) && c != k);
        assert(holds(g, index[c]));
        assert(index[c] != index[k]);
        assert(lookup(r, index[c]) == lookup(g, index[c]));
    }
    assert(entries(g.remove(p)) =~= entries(g).remove(p));
}

/// Appending a node for a new key under the id `next_id`, and recording it in
/// the index, appends the entry and keeps index and arena list in step under
/// the next counter value.
proof fn lemma_append<K, V>(
    index: Map<K, NodeId>,
    g: Seq<(NodeId, (K, V))>,
    next_id: NodeId,
    k: K,
    v: V,
)
    requires
        consistent(index, g, next_id),
        !index.contains_key(k),
        next_id < usize::MAX,
    ensures
        !holds(g, next_id),
        consistent(index.insert(k, next_id), g.push((next_id, (k, v))), (next_id + 1) as NodeId),
        entries(g.push((next_id, (k, v)))) == entries(g).push((k, v)),
{
    lemma_push(g, next_id, (k, v));
    let t = g.push((next_id, (k, v)));
    let new_index = index.insert(k, next_id);
    assert forall|id: NodeId| #[trigger] holds(t, id) implies {
        &&& id < next_id + 1
        &&& new_index.contains_key(lookup(t, id).unwrap().0)
        &&& new_index[lookup(t, id).unwrap().0] == id
    } by {
        if id != next_id {
            assert(holds(g, id));
            assert(lookup(t, id) == lookup(g, id));
        }
    }
    assert forall|c: K| #[trigger] new_index.contains_key(c) implies {
        &&& holds(t, new_index[c])
        &&& lookup(t, new_index[c]).unwrap().0 == c
    } by {
        if c != k {
            assert(index.contains_key(c));
            assert(holds(g, index[c]));
            assert(lookup(t, index[c]) == lookup(g, index[c]));
        }
    }
    assert(entries(t) =~= entries(g).push((k, v)));
}

impl<K, V> View for LruCache<K, V> {
    type V = Seq<(K, V)>;

    closed spec fn view(&self) -> Seq<(K, V)> {
        entries(self.graph@)
    }
}

impl<K, V> LruCache<K, V> where K: Eq + Hash {
    /// The key index and the arena describe the same entries, every id in use
    /// was handed out by the counter, the bound holds, and the entry list is
    /// what the recorded calls make of an empty cache.
    pub closed spec fn wf(&self) -> bool {
        &&& obeys_key_model::<K>()
        &&& self.graph.wf()
        &&& self.graph@.len() <= self.capacity
        &&& consistent(self.node_ids@, self.graph@, self.id)
        &&& entries(self.graph@) == run(self.capacity as nat, self.history@)
    }

    /// The calls of `get`, `insert` and `remove` made on this cache since it
    /// was created, first to last.
    pub closed spec fn history(&self) -> Seq<Op<K, V>> {
        self.history@
    }

    /// The key index has one key for each entry.
    proof fn lemma_index_size(&self)
        requires
            self.wf(),
        ensures
            self.node_ids@.len() == self@.len(),
    {
        let s = self@;
        let keys = s.map_values(|p: (K, V)| p.0);
        assert forall|i: int, j: int|
            0 <= i < keys.len() && 0 <= j < keys.len() && i != j implies keys[i] != keys[j] by {
            lemma_index(self.node_ids@, self.graph@, self.id, s[i].0);
            assert(s[i].0 != s[j].0);
        }
        keys.unique_seq_to_set();
        assert(keys.to_set() =~= self.node_ids@.dom()) by {
            assert forall|k: K| keys.to_set().contains(k) <==> self.node_ids@.contains_key(k) by {
                lemma_index(self.node_ids@, self.graph@, self.id, k);
                if keys.contains(k) {
                    let i = choose|i: int| 0 <= i < keys.len() && keys[i] == k;
                    assert(s[i].0 == k);
                }
                if holds(s, k) {
                    let i = position(s, k);
                    assert(keys[i] == k);
                }
            }
        }
    }

    /// What well-formedness says of the entry list: no key is held twice, and
    /// the number of entries is within the capacity.
    pub proof fn lemma_valid(&self)
        requires
            self.wf(),
        ensures
            distinct_keys(self@),
            self@.len() <= self.capacity(),
    {
        if self@.len() > 0 {
            lemma_index(self.node_ids@, self.graph@, self.id, self@[0].0);
        }
    }

    /// LRU order: whatever calls were made on the cache, its entry list is what
    /// those calls make of an empty cache, every entry has been touched by a
    /// `get` or an `insert`, and the entries stand in the order of their last
    /// touches. The first entry, which is the one that the next eviction
    /// takes, is therefore the one that was touched longest ago.
    pub proof fn lemma_lru_order(&self)
        requires
            self.wf(),
        ensures
            self@ == run(self.capacity() as nat, self.history()),
            in_touch_order(self@, self.history()),
    {
        lemma_run_in_touch_order(self.capacity as nat, self.history@);
    }

    /// The bound fixed at construction.
    pub closed spec fn spec_capacity(&self) -> usize {
        self.capacity
    }

    /// How many node ids the cache has handed out so far: one for each
    /// insertion that stored a new entry.
    pub closed spec fn ids_issued(&self) -> nat {
        self.id as nat
    }

    /// A new, empty cache that will hold at most `capacity` entries.
    ///
    /// The key type has to be one whose hashing and equality the hash map can
    /// rely on (`obeys_key_model`): equal keys hash alike, and `==` holds of
    /// two keys exactly when they are the same value.
    pub fn new(capacity: usize) -> (cache: Self)
        requires
            obeys_key_model::<K>(),
        ensures
            cache.wf(),
            cache@ == Seq::<(K, V)>::empty(),
            cache.capacity() == capacity,
            cache.ids_issued() == 0,
            cache.history() == Seq::<Op<K, V>>::empty(),
    {
        let cache = Self {
            node_ids: HashMap::with_capacity(capacity),
            graph: Graph::with_capacity(capacity),
            id: 0,
            capacity,
            history: Ghost(Seq::empty()),
        };
        assert(cache@ =~= Seq::<(K, V)>::empty());
        cache
    }

    /// The bound fixed at construction.
    #[verifier::when_used_as_spec(spec_capacity)]
    pub fn capacity(&self) -> (capacity: usize)
        ensures
            capacity == self.spec_capacity(),
    {
        self.capacity
    }

    /// The number of entries held.
    pub fn len(&self) -> (len: usize)
        requires
            self.wf(),
        ensures
            len == self@.len(),
            len <= self.capacity(),
    {
        proof {
            self.lemma_index_size();
        }
        self.node_ids.len()
    }

    /// Looks `k` up and, where it is held, makes its entry the most recently
    /// used one and lends out its value. A miss changes nothing.
    pub fn get(&mut self, k: &K) -> (value: Option<&V>)
        requires
            old(self).wf(),
        ensures
            final(self).wf(),
            final(self)@ == touched(old(self)@, *k),
            final(self).capacity() == old(self).capacity(),
            final(self).ids_issued() == old(self).ids_issued(),
            final(self).history() == old(self).history().push(Op::Get(*k)),
            match value {
                Some(v) => lookup(old(self)@, *k) == Some(*v),
                None => lookup(old(self)@, *k) is None,
            },
            final(self)@.len() == old(self)@.len(),
            forall|c: K| lookup(final(self)@, c) == lookup(old(self)@, c),
            holds(old(self)@, *k) ==> final(self)@.last().0 == *k,
    {
        proof {
            lemma_index(self.node_ids@, self.graph@, self.id, *k);
            if self.node_ids@.contains_key(*k) {
                lemma_touch(self.node_ids@, self.graph@, self.id, *k);
                lemma_touched(self.graph@, self.node_ids@[*k]);
            }
            lemma_touched(self@, *k);
            assert(self.history@.push(Op::Get(*k)).drop_last() =~= self.history@);
        }
        self.history = Ghost(self.history@.push(Op::Get(*k)));
        let node_id = *self.node_ids.get(k)?;
        let (_k, v) = self.graph.get(node_id).unwrap();
        Some(v)
    }

    /// Takes the entry of `k` out of the cache and hands back its value;
    /// `None`, with the cache unchanged, where `k` is not held.
    pub fn remove(&mut self, k: &K) -> (value: Option<V>)
        requires
            old(self).wf(),
        ensures
            final(self).wf(),
            final(self)@ == removed(old(self)@, *k),
            final(self).capacity() == old(self).capacity(),
            final(self).ids_issued() == old(self).ids_issued(),
            final(self).history() == old(self).history().push(Op::Remove(*k)),
            value == lookup(old(self)@, *k),
            !holds(final(self)@, *k),
            final(self)@.len() == old(self)@.len() - (if value is Some {
                1int
            } else {
                0int
            }),
            forall|c: K| c != *k ==> lookup(final(self)@, c) == lookup(old(self)@, c),
    {
        proof {
            lemma_index(self.node_ids@, self.graph@, self.id, *k);
            if self.node_ids@.contains_key(*k) {
                lemma_remove(self.node_ids@, self.graph@, self.id, *k);
                lemma_remove_at(self.graph@, position(self.graph@, self.node_ids@[*k]));
            }
            lemma_removed(self@, *k);
            assert(self.history@.push(Op::Remove(*k)).drop_last() =~= self.history@);
        }
        self.history = Ghost(self.history@.push(Op::Remove(*k)));
        let node_id = self.node_ids.remove(k)?;
        let (_k, v) = self.graph.remove(node_id).unwrap();
        Some(v)
    }

    /// Stores `v` under `k` as the most recently used entry.
    ///
    /// - Where `k` is already held, its entry is only touched: the value that
    ///   it had stays, and `v` is dropped.
    /// - Where the cache is full, the least recently used entry is evicted
    ///   first.
    /// - A cache of capacity zero stores nothing: the call changes nothing.
    ///
    /// The key is stored twice, in the index and in its node, so a clone of
    /// `k` has to be `k` again. Each new entry takes a fresh node id from a
    /// counter of type `usize` that never goes back, so a cache stores at most
    /// `usize::MAX` new entries over its lifetime; `ids_issued` says how many
    /// it has stored.
    pub fn insert(&mut self, k: K, v: V) where K: Clone
        requires
            old(self).wf(),
            forall|c: K| #[trigger] cloned(k, c) ==> c == k,
            holds(old(self)@, k) || old(self).capacity() == 0 || old(self).ids_issued()
                < usize::MAX,
        ensures
            final(self).wf(),
            final(self)@ == inserted(old(self)@, old(self).capacity() as nat, k, v),
            final(self)@.len() <= final(self).capacity(),
            final(self).capacity() == old(self).capacity(),
            final(self).ids_issued() == old(self).ids_issued() + (if !holds(old(self)@, k) && old(
                self,
            ).capacity() > 0 {
                1nat
            } else {
                0nat
            }),
            final(self).history() == old(self).history().push(Op::Insert(k, v)),
            holds(old(self)@, k) ==> lookup(final(self)@, k) == lookup(old(self)@, k),
            !holds(old(self)@, k) && old(self).capacity() > 0 ==> lookup(final(self)@, k) == Some(
                v,
            ),
    {
        let ghost calls = self.history@.push(Op::Insert(k, v));
        proof {
            lemma_index(self.node_ids@, self.graph@, self.id, k);
            if self.capacity > 0 {
                lemma_inserted_lookup(self@, self.capacity as nat, k, v);
            }
            assert(calls.drop_last() =~= self.history@);
        }
        if let Some(node_id) = self.node_ids.get(&k) {
            let node_id = *node_id;
            proof {
                lemma_touch(self.node_ids@, self.graph@, self.id, k);
                lemma_touched(self.graph@, node_id);
            }
            self.history = Ghost(calls);
            self.graph.get(node_id);
            return ;
        }
        if self.capacity == 0 {
            self.history = Ghost(calls);
            return ;
        }
        let node_id = self.id;
        self.id += 1;

        if self.len() == self.capacity() {
            proof {
                let g = self.graph@;
                lemma_position(g, 0);
                lemma_remove(self.node_ids@, g, node_id, g[0].1.0);
                assert(g.remove(0) =~= g.drop_first());
                assert(entries(g.drop_first()) =~= entries(g).drop_first());
            }
            let (oldest, _v) = self.graph.pop_front().unwrap();
            self.node_ids.remove(&oldest);
        }
        proof {
            lemma_append(self.node_ids@, self.graph@, node_id, k, v);
        }
        let key = k.clone();
        assert(cloned(k, key));
        self.history = Ghost(calls);
        self.node_ids.insert(key, node_id);
        self.graph.push_back(node_id, (k, v));
    }
}

} // verus!
