//! The node arena: a doubly linked list whose links are node ids.
//!
//! The nodes live in a hash map from id to node, and each node names its two
//! neighbours by id. The arena knows nothing of keys: it keeps elements in
//! recency order and moves, adds and removes them by id in constant time.

use crate::order::{
    distinct_keys, holds, lemma_position, lemma_removed, lookup, position, removed, touched,
};
use std::collections::hash_map::Entry;
use std::collections::HashMap;
use vstd::prelude::*;

verus! {

/// The identifier of a slot in the arena.
pub type NodeId = usize;

/// One slot: a payload and the ids of its two neighbours in recency order.
struct Node<T> {
    /// The next more recently used node; `None` at the tail.
    next_id: Option<NodeId>,
    /// The next less recently used node; `None` at the head.
    prev_id: Option<NodeId>,
    element: T,
}

/// The arena. Its view is the list of `(id, element)` pairs from the head
/// (least recently used) to the tail (most recently used).
pub struct Graph<T> {
    nodes: HashMap<NodeId, Node<T>>,
    head_id: Option<NodeId>,
    tail_id: Option<NodeId>,
    /// The ids in list order, head first.
    order: Ghost<Seq<NodeId>>,
}

impl<T> View for Graph<T> {
    type V = Seq<(NodeId, T)>;

    closed spec fn view(&self) -> Seq<(NodeId, T)> {
        Seq::new(self.order@.len(), |i: int| (self.order@[i], self.nodes@[self.order@[i]].element))
    }
}

/// The link that position `i` of `ids` has towards the head.
spec fn prev_of(ids: Seq<NodeId>, i: int) -> Option<NodeId> {
    if i == 0 {
        None
    } else {
        Some(ids[i - 1])
    }
}

/// The link that position `i` of `ids` has towards the tail.
spec fn next_of(ids: Seq<NodeId>, i: int) -> Option<NodeId> {
    if i == ids.len() - 1 {
        None
    } else {
        Some(ids[i + 1])
    }
}

/// A mutable borrow of the node stored under `node_id`.
fn slot<T>(nodes: &mut HashMap<NodeId, Node<T>>, node_id: NodeId) -> (node: &mut Node<T>)
    requires
        old(nodes)@.contains_key(node_id),
    ensures
        *node == old(nodes)@[node_id],
        final(nodes)@ == old(nodes)@.insert(node_id, *final(node)),
{
    match nodes.entry(node_id) {
        Entry::Occupied(entry) => entry.into_mut(),
        Entry::Vacant(_) => unreached(),
    }
}

impl<T> Graph<T> {
    /// The list holds each live id once, and no other id.
    spec fn members(&self) -> bool {
        let ids = self.order@;
        &&& ids.no_duplicates()
        &&& forall|i: int| 0 <= i < ids.len() ==> self.nodes@.contains_key(#[trigger] ids[i])
        &&& forall|id: NodeId| #[trigger] self.nodes@.contains_key(id) ==> ids.contains(id)
    }

    /// The head and the tail are the two ends of the list.
    spec fn ends(&self) -> bool {
        let ids = self.order@;
        &&& self.head_id == (if ids.len() == 0 {
            None
        } else {
            Some(ids.first())
        })
        &&& self.tail_id == (if ids.len() == 0 {
            None
        } else {
            Some(ids.last())
        })
    }

    /// Each node names the node before it and the node after it in the list.
    spec fn linked(&self) -> bool {
        let ids = self.order@;
        forall|i: int|
            0 <= i < ids.len() ==> {
                &&& (#[trigger] self.nodes@[ids[i]]).prev_id == prev_of(ids, i)
                &&& self.nodes@[ids[i]].next_id == next_of(ids, i)
            }
    }

    /// The links form one chain: walking `next_id` from the head visits every
    /// live node once and ends at the tail, and `prev_id` walks the same chain
    /// backwards.
    pub closed spec fn wf(&self) -> bool {
        &&& self.members()
        &&& self.ends()
        &&& self.linked()
    }

    /// The id of the least recently used node; `None` in an empty arena.
    pub closed spec fn head_id(&self) -> Option<NodeId> {
        self.head_id
    }

    /// The id of the most recently used node; `None` in an empty arena.
    pub closed spec fn tail_id(&self) -> Option<NodeId> {
        self.tail_id
    }

    /// The link of the live node `node_id` towards the tail.
    pub closed spec fn next_id(&self, node_id: NodeId) -> Option<NodeId> {
        self.nodes@[node_id].next_id
    }

    /// The link of the live node `node_id` towards the head.
    pub closed spec fn prev_id(&self, node_id: NodeId) -> Option<NodeId> {
        self.nodes@[node_id].prev_id
    }

    /// No id is live twice.
    pub proof fn lemma_distinct(&self)
        requires
            self.wf(),
        ensures
            distinct_keys(self@),
    {
    }

    /// What well-formedness says of the links, in terms of the list: the head
    /// and the tail are the two ends of the list and are absent exactly when
    /// it is empty, and each node names the node before it and the node after
    /// it, the two end nodes having no link outwards.
    pub proof fn lemma_chain(&self)
        requires
            self.wf(),
        ensures
            self.head_id() == (if self@.len() == 0 {
                None
            } else {
                Some(self@.first().0)
            }),
            self.tail_id() == (if self@.len() == 0 {
                None
            } else {
                Some(self@.last().0)
            }),
            forall|i: int|
                0 <= i < self@.len() ==> self.prev_id((#[trigger] self@[i]).0) == (if i == 0 {
                    None
                } else {
                    Some(self@[i - 1].0)
                }),
            forall|i: int|
                0 <= i < self@.len() ==> self.next_id((#[trigger] self@[i]).0) == (if i + 1
                    == self@.len() {
                    None
                } else {
                    Some(self@[i + 1].0)
                }),
    {
        let ids = self.order@;
        assert forall|i: int| 0 <= i < self@.len() implies self.prev_id((#[trigger] self@[i]).0)
            == prev_of(ids, i) && self.next_id(self@[i].0) == next_of(ids, i) by {
            assert(self.nodes@[ids[i]].prev_id == prev_of(ids, i));
            assert(self.nodes@[ids[i]].next_id == next_of(ids, i));
        }
    }

    /// An empty arena. `capacity` sizes the first allocation and is no limit.
    pub fn with_capacity(capacity: usize) -> (graph: Self)
        ensures
            graph.wf(),
            graph@ == Seq::<(NodeId, T)>::empty(),
    {
        let graph = Self {
            nodes: HashMap::with_capacity(capacity),
            head_id: None,
            tail_id: None,
            order: Ghost(Seq::empty()),
        };
        assert(graph@ =~= Seq::<(NodeId, T)>::empty());
        graph
    }

    /// Where `node_id` stands in the list, and what the map holds for it.
    proof fn lemma_live(&self, node_id: NodeId)
        requires
            self.wf(),
        ensures
            self.nodes@.contains_key(node_id) <==> holds(self@, node_id),
            self.nodes@.contains_key(node_id) ==> {
                let i = position(self@, node_id);
                &&& 0 <= i < self.order@.len()
                &&& self.order@[i] == node_id
                &&& self@[i] == (node_id, self.nodes@[node_id].element)
            },
    {
        if self.nodes@.contains_key(node_id) {
            let i = choose|i: int| 0 <= i < self.order@.len() && self.order@[i] == node_id;
            assert(self@[i].0 == node_id);
        }
        if holds(self@, node_id) {
            let i = position(self@, node_id);
            assert(self.order@[i] == node_id);
        }
    }

    /// `after` is `self` with the node at position `i` taken out of the chain:
    /// its neighbours name each other, and an end that it occupied has moved
    /// to the neighbour.
    spec fn unlinks(&self, after: &Self, i: int) -> bool {
        let ids = self.order@;
        &&& after.order@ == ids.remove(i)
        &&& after.head_id == (if i == 0 {
            next_of(ids, i)
        } else {
            self.head_id
        })
        &&& after.tail_id == (if i == ids.len() - 1 {
            prev_of(ids, i)
        } else {
            self.tail_id
        })
        &&& forall|id: NodeId|
            after.nodes@.contains_key(id) <==> self.nodes@.contains_key(id) && id != ids[i]
        &&& forall|id: NodeId| #[trigger]
            after.nodes@.contains_key(id) ==> {
                let old_node = self.nodes@[id];
                let new_node = after.nodes@[id];
                &&& new_node.element == old_node.element
                &&& new_node.next_id == (if prev_of(ids, i) == Some(id) {
                    next_of(ids, i)
                } else {
                    old_node.next_id
                })
                &&& new_node.prev_id == (if next_of(ids, i) == Some(id) {
                    prev_of(ids, i)
                } else {
                    old_node.prev_id
                })
            }
    }

    /// After an unlinking the list holds each live id once, and no other id.
    proof fn lemma_unlinks_members(&self, after: &Self, i: int)
        requires
            self.members(),
            0 <= i < self.order@.len(),
            self.unlinks(after, i),
        ensures
            after.members(),
    {
        let ids = self.order@;
        let new_ids = after.order@;
        assert forall|j: int| 0 <= j < new_ids.len() implies after.nodes@.contains_key(
            #[trigger] new_ids[j],
        ) by {
            let k = if j < i { j } else { j + 1 };
            assert(new_ids[j] == ids[k]);
        }
        assert forall|id: NodeId| #[trigger]
            after.nodes@.contains_key(id) implies new_ids.contains(id) by {
            let k = choose|k: int| 0 <= k < ids.len() && ids[k] == id;
            let j = if k < i { k } else { k - 1 };
            assert(new_ids[j] == id);
        }
        assert forall|j: int, k: int| 0 <= j < new_ids.len() && 0 <= k < new_ids.len() && j
            != k implies new_ids[j] != new_ids[k] by {
            assert(new_ids[j] == ids[if j < i { j } else { j + 1 }]);
            assert(new_ids[k] == ids[if k < i { k } else { k + 1 }]);
        }
    }

    /// After an unlinking each node names its neighbours in the shorter list.
    proof fn lemma_unlinks_linked(&self, after: &Self, i: int)
        requires
            self.members(),
            self.linked(),
            0 <= i < self.order@.len(),
            self.unlinks(after, i),
        ensures
            after.linked(),
    {
        let ids = self.order@;
        let new_ids = after.order@;
        assert forall|j: int| 0 <= j < new_ids.len() implies {
            &&& (#[trigger] after.nodes@[new_ids[j]]).prev_id == prev_of(new_ids, j)
            &&& after.nodes@[new_ids[j]].next_id == next_of(new_ids, j)
        } by {
            let k = if j < i { j } else { j + 1 };
            assert(new_ids[j] == ids[k]);
            assert(self.nodes@.contains_key(ids[k]));
            assert(after.nodes@.contains_key(ids[k]));
            assert(self.nodes@[ids[k]].prev_id == prev_of(ids, k));
            assert(self.nodes@[ids[k]].next_id == next_of(ids, k));
            if j > 0 {
                assert(new_ids[j - 1] == ids[if j - 1 < i { j - 1 } else { j }]);
            }
            if j < new_ids.len() - 1 {
                assert(new_ids[j + 1] == ids[if j + 1 < i { j + 1 } else { j + 2 }]);
            }
        }
    }

    /// Unlinking a node of a well-formed arena leaves a well-formed arena whose
    /// list lacks that node.
    proof fn lemma_unlinks(&self, after: &Self, i: int)
        requires
            self.wf(),
            0 <= i < self.order@.len(),
            self.unlinks(after, i),
        ensures
            after.wf(),
            after@ == self@.remove(i),
    {
        let ids = self.order@;
        let new_ids = after.order@;
        self.lemma_unlinks_members(after, i);
        self.lemma_unlinks_linked(after, i);
        assert(after.ends()) by {
            if new_ids.len() > 0 {
                assert(new_ids[0] == ids[if 0 < i { 0int } else { 1int }]);
                let last = new_ids.len() - 1;
                assert(new_ids[last] == ids[if last < i { last } else { last + 1 }]);
            }
        }
        assert(after@ =~= self@.remove(i)) by {
            assert forall|j: int| 0 <= j < new_ids.len() implies after@[j] == self@.remove(
                i,
            )[j] by {
                let k = if j < i { j } else { j + 1 };
                assert(new_ids[j] == ids[k]);
                assert(self.nodes@.contains_key(ids[k]));
            }
        }
    }

    /// Detaches the node `node_id` and hands back its element; `None`, with
    /// the arena unchanged, where no such node is live. The neighbours of the
    /// node are joined to each other, and the head or the tail moves where the
    /// node stood at that end.
    pub fn remove(&mut self, node_id: NodeId) -> (element: Option<T>)
        requires
            old(self).wf(),
        ensures
            final(self).wf(),
            final(self)@ == removed(old(self)@, node_id),
            element == lookup(old(self)@, node_id),
    {
        let ghost ids = self.order@;
        proof {
            self.lemma_live(node_id);
        }
        let node = self.nodes.remove(&node_id)?;
        let ghost i = position(old(self)@, node_id);
        proof {
            if i > 0 {
                assert(self.nodes@.contains_key(ids[i - 1]));
            }
            if i < ids.len() - 1 {
                assert(self.nodes@.contains_key(ids[i + 1]));
            }
            assert(old(self).nodes@[ids[i]].prev_id == prev_of(ids, i));
            assert(old(self).nodes@[ids[i]].next_id == next_of(ids, i));
        }

        match (node.prev_id, node.next_id) {
            (Some(prev_id), Some(next_id)) => {
                let prev = slot(&mut self.nodes, prev_id);
                prev.next_id = Some(next_id);
                let next = slot(&mut self.nodes, next_id);
                next.prev_id = Some(prev_id);
            },
            (Some(prev_id), None) => {
                let prev = slot(&mut self.nodes, prev_id);

                prev.next_id = None;
                self.tail_id = Some(prev_id);
            },
            (None, Some(next_id)) => {
                let next = slot(&mut self.nodes, next_id);

                self.head_id = Some(next_id);
                next.prev_id = None;
            },
            (None, None) => {
                self.head_id = None;
                self.tail_id = None;
            },
        }
        self.order = Ghost(ids.remove(i));
        proof {
            assert(old(self).unlinks(self, i));
            old(self).lemma_unlinks(self, i);
        }

        Some(node.element)
    }

    /// Removes the least recently used element and hands it back; `None`
    /// where the arena is empty.
    pub fn pop_front(&mut self) -> (element: Option<T>)
        requires
            old(self).wf(),
        ensures
            final(self).wf(),
            old(self)@.len() == 0 ==> element is None && final(self)@ == old(self)@,
            old(self)@.len() > 0 ==> element == Some(old(self)@[0].1) && final(self)@ == old(
                self,
            )@.drop_first(),
    {
        let head_id = self.head_id?;
        proof {
            self.lemma_distinct();
            lemma_position(self@, 0);
            assert(self@.drop_first() == self@.remove(0));
        }
        self.remove(head_id)
    }

    /// Adds `element` under the fresh id `node_id` at the most recently used
    /// end.
    pub fn push_back(&mut self, node_id: NodeId, element: T)
        requires
            old(self).wf(),
            !holds(old(self)@, node_id),
        ensures
            final(self).wf(),
            final(self)@ == old(self)@.push((node_id, element)),
    {
        let ghost ids = self.order@;
        proof {
            if ids.contains(node_id) {
                let i = choose|i: int| 0 <= i < ids.len() && ids[i] == node_id;
                assert(old(self)@[i].0 == node_id);
            }
            if ids.len() > 0 {
                assert(self.nodes@.contains_key(ids[ids.len() - 1]));
            }
        }
        let tail_id = match self.tail_id {
            Some(tail_id) => {
                let tail = slot(&mut self.nodes, tail_id);
                tail.next_id = Some(node_id);

                Some(tail_id)
            },
            None => {
                self.head_id = Some(node_id);
                None
            },
        };
        self.tail_id = Some(node_id);

        self.nodes.insert(node_id, Node { next_id: None, prev_id: tail_id, element });
        self.order = Ghost(ids.push(node_id));
        proof {
            let new_ids = self.order@;
            assert forall|i: int| 0 <= i < new_ids.len() implies {
                &&& (#[trigger] self.nodes@[new_ids[i]]).prev_id == prev_of(new_ids, i)
                &&& self.nodes@[new_ids[i]].next_id == next_of(new_ids, i)
            } by {
                if i < ids.len() {
                    assert(new_ids[i] == ids[i]);
                    assert(old(self).nodes@[ids[i]].prev_id == prev_of(ids, i));
                }
            }
            assert(self@ =~= old(self)@.push((node_id, element)));
            assert forall|id: NodeId| #[trigger]
                self.nodes@.contains_key(id) implies new_ids.contains(id) by {
                if id == node_id {
                    assert(new_ids[ids.len() as int] == id);
                } else {
                    let i = choose|i: int| 0 <= i < ids.len() && ids[i] == id;
                    assert(new_ids[i] == id);
                }
            }
        }
    }

    /// Moves the node `node_id` to the most recently used end and lends out
    /// its element; `None`, with the arena unchanged, where no such node is
    /// live.
    pub fn get(&mut self, node_id: NodeId) -> (element: Option<&T>)
        requires
            old(self).wf(),
        ensures
            final(self).wf(),
            final(self)@ == touched(old(self)@, node_id),
            match element {
                Some(e) => lookup(old(self)@, node_id) == Some(*e),
                None => lookup(old(self)@, node_id) is None,
            },
    {
        proof {
            self.lemma_distinct();
            lemma_removed(self@, node_id);
        }
        let elem = self.remove(node_id)?;
        self.push_back(node_id, elem);
        proof {
            self.lemma_distinct();
            lemma_position(self@, self@.len() - 1);
            self.lemma_live(node_id);
        }
        let node = self.nodes.get(&node_id).unwrap();
        Some(&node.element)
    }
}

} // verus!
