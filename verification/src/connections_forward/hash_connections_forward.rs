use crate::connection::{edge_views, ForwardConnection};
use crate::connections_forward::connections_forward_trait::{
    ConnectionsForward, ConnectionsForwardInternal,
};
use crate::connections_forward::private::Sealed;
use crate::error::VeloxGraphError;
use crate::model::{
    forward_set, lemma_distinct_bounded, lemma_position_unique,
    swap_remove, targets, EdgeView,
};
use crate::unsigned_int::UnsignedInt;
use std::collections::HashMap;
use vstd::prelude::*;

verus! {

/// The hash-assisted strategy: a dense vector of connections and a lookup
/// table from target to position in that vector.
#[derive(Clone, Debug)]
pub struct HashConnectionsForward<NodeIdT: UnsignedInt, ConnectionDataT> {
    lookup_hash: HashMap<NodeIdT, NodeIdT>,
    data: Vec<ForwardConnection<NodeIdT, ConnectionDataT>>,
}

impl<NodeIdT: UnsignedInt, ConnectionDataT> Sealed for HashConnectionsForward<
    NodeIdT,
    ConnectionDataT,
> {
}

impl<NodeIdT: UnsignedInt, ConnectionDataT> HashConnectionsForward<NodeIdT, ConnectionDataT> {
    /// The lookup table names, for each stored connection, its position, and
    /// names nothing else.
    spec fn table_matches(&self) -> bool {
        &&& forall|i: int|
            0 <= i < self.data@.len() ==> self.lookup_hash@.contains_key(
                (#[trigger] self.data@[i]).node_id,
            ) && self.lookup_hash@[self.data@[i].node_id].index() == i
        &&& forall|k: NodeIdT| #[trigger]
            self.lookup_hash@.contains_key(k) ==> self.lookup_hash@[k].index() < self.data@.len()
                && self.data@[self.lookup_hash@[k].index() as int].node_id == k
    }

    proof fn lemma_distinct(&self)
        requires
            self.table_matches(),
        ensures
            targets(self@).no_duplicates(),
    {
        let keys = targets(self@);
        assert forall|a: int, b: int| 0 <= a < keys.len() && 0 <= b < keys.len() && a
            != b implies keys[a] != keys[b] by {
            if keys[a] == keys[b] {
                NodeIdT::lemma_index_injective(self.data@[a].node_id, self.data@[b].node_id);
            }
        }
    }

    /// The position of the connection to `target`.
    fn position(&self, target: usize) -> (r: Option<usize>)
        requires
            self.wf(),
        ensures
            match r {
                Some(i) => i < self.data@.len() && targets(self@).contains(target) && targets(
                    self@,
                ).index_of(target) == i,
                None => !targets(self@).contains(target),
            },
    {
        proof {
            NodeIdT::lemma_key_model();
            broadcast use vstd::std_specs::hash::group_hash_axioms;
            self.lemma_distinct();
        }
        if !NodeIdT::fits(target) {
            proof {
                if targets(self@).contains(target) {
                    let j = choose|j: int| 0 <= j < self@.len() && targets(self@)[j] == target;
                    self.data@[j].node_id.lemma_index_bounded();
                }
            }
            return None;
        }
        let key = NodeIdT::from_usize(target);
        match self.lookup_hash.get(&key) {
            Some(stored) => {
                let i = stored.to_usize();
                proof {
                    assert(targets(self@)[i as int] == target);
                    lemma_position_unique(targets(self@), i as int);
                }
                Some(i)
            },
            None => {
                proof {
                    if targets(self@).contains(target) {
                        let j = choose|j: int| 0 <= j < self@.len() && targets(self@)[j] == target;
                        NodeIdT::lemma_index_injective(self.data@[j].node_id, key);
                    }
                }
                None
            },
        }
    }
}

impl<NodeIdT: UnsignedInt, ConnectionDataT> ConnectionsForwardInternal<
    NodeIdT,
    ConnectionDataT,
> for HashConnectionsForward<NodeIdT, ConnectionDataT> {
    closed spec fn view(&self) -> Seq<EdgeView<ConnectionDataT>> {
        edge_views(self.data@)
    }

    closed spec fn wf(&self) -> bool {
        self.table_matches()
    }

    proof fn lemma_wf(&self) {
        self.lemma_distinct();
        assert forall|i: int| 0 <= i < self@.len() implies (#[trigger] self@[i]).target
            <= NodeIdT::max_index() by {
            self.data@[i].node_id.lemma_index_bounded();
        }
    }

    fn new() -> (r: Self) {
        let r = HashConnectionsForward { lookup_hash: HashMap::new(), data: Vec::new() };
        assert(r@ =~= Seq::<EdgeView<ConnectionDataT>>::empty());
        r
    }

    fn set(&mut self, node_id_value: usize, connection_data: ConnectionDataT) {
        let ghost before = self@;
        proof {
            NodeIdT::lemma_key_model();
            broadcast use vstd::std_specs::hash::group_hash_axioms;
            self.lemma_wf();
        }
        match self.position(node_id_value) {
            Some(index) => {
                let node_id = self.data[index].node_id;
                self.data.set(index, ForwardConnection::new(node_id, connection_data));
                assert(self@ =~= forward_set(before, node_id_value, connection_data));
            },
            None => {
                let node_id = NodeIdT::from_usize(node_id_value);
                let new_connection_index = self.data.len();
                self.data.push(ForwardConnection::new(node_id, connection_data));
                assert(self@ =~= forward_set(before, node_id_value, connection_data));
                proof {
                    crate::model::lemma_forward_set(before, node_id_value, connection_data);
                    assert forall|i: int| 0 <= i < self@.len() implies targets(self@)[i]
                        <= NodeIdT::max_index() by {
                        self.data@[i].node_id.lemma_index_bounded();
                    }
                    lemma_distinct_bounded(targets(self@), NodeIdT::max_index());
                    assert forall|k: NodeIdT| #[trigger]
                        old(self).lookup_hash@.contains_key(k) implies k != node_id by {
                        let p = old(self).lookup_hash@[k].index() as int;
                        assert(targets(before)[p] == k.index());
                    }
                }
                let stored = NodeIdT::from_usize(new_connection_index);
                self.lookup_hash.insert(node_id, stored);
            },
        }
    }

    fn remove(&mut self, node_id_value: usize) {
        let ghost before = self@;
        proof {
            NodeIdT::lemma_key_model();
            broadcast use vstd::std_specs::hash::group_hash_axioms;
            self.lemma_wf();
            crate::model::lemma_forward_remove(before, node_id_value);
        }
        if let Some(index) = self.position(node_id_value) {
            let removed = self.data[index].node_id;
            if index == self.data.len() - 1 {
                self.data.pop();
                self.lookup_hash.remove(&removed);
                assert(self@ =~= swap_remove(before, index as int));
            } else {
                self.data.swap_remove(index);
                assert(self@ =~= swap_remove(before, index as int));
                let moved = self.data[index].node_id;
                proof {
                    moved.lemma_index_bounded();
                    assert(targets(before)[index as int] == removed.index());
                    assert(targets(before)[before.len() - 1] == moved.index());
                    assert(moved != removed);
                }
                let stored = NodeIdT::from_usize(index);
                proof {
                    assert forall|i: int| 0 <= i < before.len() implies targets(before)[i]
                        <= NodeIdT::max_index() by {
                        old(self).data@[i].node_id.lemma_index_bounded();
                    }
                    lemma_distinct_bounded(targets(before), NodeIdT::max_index());
                }
                self.lookup_hash.insert(moved, stored);
                self.lookup_hash.remove(&removed);
                proof {
                    assert forall|k: NodeIdT| #[trigger]
                        self.lookup_hash@.contains_key(k) implies self.lookup_hash@[k].index()
                        < self.data@.len() && self.data@[self.lookup_hash@[k].index() as int].node_id
                        == k by {
                        if k != moved {
                            assert(old(self).lookup_hash@.contains_key(k));
                            let p = old(self).lookup_hash@[k].index() as int;
                            if p == before.len() - 1 {
                                assert(old(self).data@[p].node_id == moved);
                            }
                        }
                    }
                }
            }
        }
    }
}

impl<NodeIdT: UnsignedInt, ConnectionDataT> ConnectionsForward<
    NodeIdT,
    ConnectionDataT,
> for HashConnectionsForward<NodeIdT, ConnectionDataT> {
    fn data(&self) -> (r: &Vec<ForwardConnection<NodeIdT, ConnectionDataT>>) {
        &self.data
    }

    fn get(&self, node_id: usize) -> (r: Result<
        &ForwardConnection<NodeIdT, ConnectionDataT>,
        VeloxGraphError,
    >) {
        match self.position(node_id) {
            Some(index) => Ok(&self.data[index]),
            None => Err(VeloxGraphError::ConnectionNotSet(node_id)),
        }
    }
}

} // verus!
