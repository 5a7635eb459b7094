use crate::connection::{edge_views, ForwardConnection};
use crate::connections_forward::connections_forward_trait::{
    ConnectionsForward, ConnectionsForwardInternal,
};
use crate::connections_forward::private::Sealed;
use crate::error::VeloxGraphError;
use crate::model::{
    forward_set, lemma_position_unique, swap_remove, targets, EdgeView,
};
use crate::unsigned_int::UnsignedInt;
use vstd::prelude::*;

verus! {

/// The flat strategy: a plain vector of connections that is scanned linearly.
#[derive(Clone, Debug)]
pub struct VecConnectionsForward<NodeIdT: UnsignedInt, ConnectionDataT> {
    data: Vec<ForwardConnection<NodeIdT, ConnectionDataT>>,
}

impl<NodeIdT: UnsignedInt, ConnectionDataT> Sealed for VecConnectionsForward<
    NodeIdT,
    ConnectionDataT,
> {
}

impl<NodeIdT: UnsignedInt, ConnectionDataT> VecConnectionsForward<NodeIdT, ConnectionDataT> {
    /// The position of the connection to `target`.
    fn position(&self, target: usize) -> (r: Option<usize>)
        requires
            self.wf(),
        ensures
            match r {
                Some(i) => i < self.data@.len() && targets(self@).contains(target) && targets(
                    self@,
                ).index_of(target) == i,
                None => !targets(self@).contains(target),
            },
    {
        let mut i: usize = 0;
        while i < self.data.len()
            invariant
                i <= self.data@.len(),
                self.wf(),
                forall|j: int| 0 <= j < i ==> targets(self@)[j] != target,
            decreases self.data@.len() - i,
        {
            if self.data[i].node_id.to_usize() == target {
                proof {
                    assert(targets(self@)[i as int] == target);
                    lemma_position_unique(targets(self@), i as int);
                }
                return Some(i);
            }
            i += 1;
        }
        None
    }
}

impl<NodeIdT: UnsignedInt, ConnectionDataT> ConnectionsForwardInternal<
    NodeIdT,
    ConnectionDataT,
> for VecConnectionsForward<NodeIdT, ConnectionDataT> {
    closed spec fn view(&self) -> Seq<EdgeView<ConnectionDataT>> {
        edge_views(self.data@)
    }

    closed spec fn wf(&self) -> bool {
        targets(self@).no_duplicates()
    }

    proof fn lemma_wf(&self) {
        assert forall|i: int| 0 <= i < self@.len() implies (#[trigger] self@[i]).target
            <= NodeIdT::max_index() by {
            self.data@[i].node_id.lemma_index_bounded();
        }
    }

    fn new() -> (r: Self) {
        let r = VecConnectionsForward { data: Vec::new() };
        assert(r@ =~= Seq::<EdgeView<ConnectionDataT>>::empty());
        r
    }

    fn set(&mut self, node_id_value: usize, connection_data: ConnectionDataT) {
        let ghost before = self@;
        match self.position(node_id_value) {
            Some(index) => {
                let node_id = self.data[index].node_id;
                self.data.set(index, ForwardConnection::new(node_id, connection_data));
                assert(self@ =~= forward_set(before, node_id_value, connection_data));
            },
            None => {
                let node_id = NodeIdT::from_usize(node_id_value);
                self.data.push(ForwardConnection::new(node_id, connection_data));
                assert(self@ =~= forward_set(before, node_id_value, connection_data));
            },
        }
        proof {
            crate::model::lemma_forward_set(before, node_id_value, connection_data);
        }
    }

    fn remove(&mut self, node_id_value: usize) {
        let ghost before = self@;
        if let Some(index) = self.position(node_id_value) {
            self.data.swap_remove(index);
            assert(self@ =~= swap_remove(before, index as int));
        }
        proof {
            crate::model::lemma_forward_remove(before, node_id_value);
        }
    }
}

impl<NodeIdT: UnsignedInt, ConnectionDataT> ConnectionsForward<
    NodeIdT,
    ConnectionDataT,
> for VecConnectionsForward<NodeIdT, ConnectionDataT> {
    fn data(&self) -> (r: &Vec<ForwardConnection<NodeIdT, ConnectionDataT>>) {
        &self.data
    }

    fn get(&self, node_id: usize) -> (r: Result<
        &ForwardConnection<NodeIdT, ConnectionDataT>,
        VeloxGraphError,
    >) {
        match self.position(node_id) {
            Some(index) => Ok(&self.data[index]),
            None => Err(VeloxGraphError::ConnectionNotSet(node_id)),
        }
    }
}

} // verus!
