use crate::connection::{source_views, BackwardConnection};
use crate::connections_backward::connections_backward_trait::{
    ConnectionsBackward, ConnectionsBackwardInternal,
};
use crate::connections_backward::private::Sealed;
use crate::model::{
    backward_create, lemma_distinct_bounded, lemma_position_unique, swap_remove,
};
use crate::unsigned_int::UnsignedInt;
use std::collections::HashMap;
use vstd::prelude::*;

verus! {

/// The hash-assisted strategy: a dense vector of predecessors and a lookup
/// table from predecessor to position in that vector.
#[derive(Clone, Debug)]
pub struct HashConnectionsBackward<NodeIdT: UnsignedInt> {
    lookup_hash: HashMap<NodeIdT, NodeIdT>,
    data: Vec<BackwardConnection<NodeIdT>>,
}

impl<NodeIdT: UnsignedInt> Sealed for HashConnectionsBackward<NodeIdT> {
}

impl<NodeIdT: UnsignedInt> HashConnectionsBackward<NodeIdT> {
    /// The lookup table names, for each recorded predecessor, its position,
    /// and names nothing else.
    spec fn table_matches(&self) -> bool {
        &&& forall|i: int|
            0 <= i < self.data@.len() ==> self.lookup_hash@.contains_key(
                (#[trigger] self.data@[i]).node_id,
            ) && self.lookup_hash@[self.data@[i].node_id].index() == i
        &&& forall|k: NodeIdT| #[trigger]
            self.lookup_hash@.contains_key(k) ==> self.lookup_hash@[k].index() < self.data@.len()
                && self.data@[self.lookup_hash@[k].index() as int].node_id == k
    }

    proof fn lemma_distinct(&self)
        requires
            self.table_matches(),
        ensures
            self@.no_duplicates(),
    {
        let keys = self@;
        assert forall|a: int, b: int| 0 <= a < keys.len() && 0 <= b < keys.len() && a
            != b implies keys[a] != keys[b] by {
            if keys[a] == keys[b] {
                NodeIdT::lemma_index_injective(self.data@[a].node_id, self.data@[b].node_id);
            }
        }
    }

    /// The position at which `source` is recorded.
    fn position(&self, source: usize) -> (r: Option<usize>)
        requires
            self.wf(),
        ensures
            match r {
                Some(i) => i < self.data@.len() && self@.contains(source) && self@.index_of(source)
                    == i,
                None => !self@.contains(source),
            },
    {
        proof {
            NodeIdT::lemma_key_model();
            broadcast use vstd::std_specs::hash::group_hash_axioms;
            self.lemma_distinct();
        }
        if !NodeIdT::fits(source) {
            proof {
                if self@.contains(source) {
                    let j = choose|j: int| 0 <= j < self@.len() && self@[j] == source;
                    self.data@[j].node_id.lemma_index_bounded();
                }
            }
            return None;
        }
        let key = NodeIdT::from_usize(source);
        match self.lookup_hash.get(&key) {
            Some(stored) => {
                let i = stored.to_usize();
                proof {
                    assert(self@[i as int] == source);
                    lemma_position_unique(self@, i as int);
                }
                Some(i)
            },
            None => {
                proof {
                    if self@.contains(source) {
                        let j = choose|j: int| 0 <= j < self@.len() && self@[j] == source;
                        NodeIdT::lemma_index_injective(self.data@[j].node_id, key);
                    }
                }
                None
            },
        }
    }
}

impl<NodeIdT: UnsignedInt> ConnectionsBackwardInternal<NodeIdT> for HashConnectionsBackward<
    NodeIdT,
> {
    closed spec fn view(&self) -> Seq<usize> {
        source_views(self.data@)
    }

    closed spec fn wf(&self) -> bool {
        self.table_matches()
    }

    proof fn lemma_wf(&self) {
        self.lemma_distinct();
        assert forall|i: int| 0 <= i < self@.len() implies #[trigger] self@[i]
            <= NodeIdT::max_index() by {
            self.data@[i].node_id.lemma_index_bounded();
        }
    }

    fn new() -> (r: Self) {
        let r = HashConnectionsBackward { lookup_hash: HashMap::new(), data: Vec::new() };
        assert(r@ =~= Seq::<usize>::empty());
        r
    }

    fn create(&mut self, node_id_value: usize) {
        let ghost before = self@;
        proof {
            NodeIdT::lemma_key_model();
            broadcast use vstd::std_specs::hash::group_hash_axioms;
            self.lemma_wf();
        }
        if self.position(node_id_value).is_none() {
            let node_id = NodeIdT::from_usize(node_id_value);
            let new_connection_index = self.data.len();
            self.data.push(BackwardConnection::new(node_id));
            assert(self@ =~= backward_create(before, node_id_value));
            proof {
                crate::model::lemma_backward_create(before, node_id_value);
                assert forall|i: int| 0 <= i < self@.len() implies self@[i]
                    <= NodeIdT::max_index() by {
                    self.data@[i].node_id.lemma_index_bounded();
                }
                lemma_distinct_bounded(self@, NodeIdT::max_index());
                assert forall|k: NodeIdT| #[trigger]
                    old(self).lookup_hash@.contains_key(k) implies k != node_id by {
                    let p = old(self).lookup_hash@[k].index() as int;
                    assert(before[p] == k.index());
                }
            }
            let stored = NodeIdT::from_usize(new_connection_index);
            self.lookup_hash.insert(node_id, stored);
        }
    }

    fn delete(&mut self, node_id_value: usize) {
        let ghost before = self@;
        proof {
            NodeIdT::lemma_key_model();
            broadcast use vstd::std_specs::hash::group_hash_axioms;
            self.lemma_wf();
            crate::model::lemma_backward_delete(before, node_id_value);
        }
        if let Some(index) = self.position(node_id_value) {
            let removed = self.data[index].node_id;
            if index == self.data.len() - 1 {
                self.data.pop();
                self.lookup_hash.remove(&removed);
                assert(self@ =~= swap_remove(before, index as int));
            } else {
                self.data.swap_remove(index);
                assert(self@ =~= swap_remove(before, index as int));
                let moved = self.data[index].node_id;
                proof {
                    moved.lemma_index_bounded();
                    assert(before[index as int] == removed.index());
                    assert(before[before.len() - 1] == moved.index());
                    assert(moved != removed);
                }
                let stored = NodeIdT::from_usize(index);
                proof {
                    assert forall|i: int| 0 <= i < before.len() implies before[i]
                        <= NodeIdT::max_index() by {
                        old(self).data@[i].node_id.lemma_index_bounded();
                    }
                    lemma_distinct_bounded(before, NodeIdT::max_index());
                }
                self.lookup_hash.insert(moved, stored);
                self.lookup_hash.remove(&removed);
                proof {
                    assert forall|k: NodeIdT| #[trigger]
                        self.lookup_hash@.contains_key(k) implies self.lookup_hash@[k].index()
                        < self.data@.len() && self.data@[self.lookup_hash@[k].index() as int].node_id
                        == k by {
                        if k != moved {
                            assert(old(self).lookup_hash@.contains_key(k));
                            let p = old(self).lookup_hash@[k].index() as int;
                            if p == before.len() - 1 {
                                assert(old(self).data@[p].node_id == moved);
                            }
                        }
                    }
                }
            }
        }
    }
}

impl<NodeIdT: UnsignedInt> ConnectionsBackward<NodeIdT> for HashConnectionsBackward<NodeIdT> {
    fn data(&self) -> (r: &Vec<BackwardConnection<NodeIdT>>) {
        &self.data
    }

    fn contains(&self, node_id: usize) -> (r: bool) {
        self.position(node_id).is_some()
    }
}

} // verus!
