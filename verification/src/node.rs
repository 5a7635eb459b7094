use crate::connection::{edge_views, source_views, BackwardConnection, ForwardConnection};
use crate::connections_backward::connections_backward_trait::ConnectionsBackward;
use crate::connections_backward::hash_connections_backward::HashConnectionsBackward;
use crate::connections_backward::vec_connections_backward::VecConnectionsBackward;
use crate::connections_forward::connections_forward_trait::ConnectionsForward;
use crate::connections_forward::hash_connections_forward::HashConnectionsForward;
use crate::connections_forward::vec_connections_forward::VecConnectionsForward;
use crate::graph_model::{fresh_node, NodeView};
use crate::model::{backward_create, backward_delete, forward_remove, forward_set, targets};
use crate::unsigned_int::UnsignedInt;
use std::marker::PhantomData;
use vstd::prelude::*;

verus! {

/// A node of the graph: its identifier, its payload, and the two adjacency
/// indices, which only the graph changes.
pub struct Node<NodeIdT, ConnForwardT, ConnBackwardT, NodeDataT, ConnectionDataT> where
    NodeIdT: UnsignedInt,
    ConnForwardT: ConnectionsForward<NodeIdT, ConnectionDataT>,
    ConnBackwardT: ConnectionsBackward<NodeIdT>,
 {
    pub(crate) node_id: NodeIdT,
    pub data: NodeDataT,
    pub(crate) connections_forward: ConnForwardT,
    pub(crate) connections_backward: ConnBackwardT,
    pub(crate) _phantom_conn_data: PhantomData<ConnectionDataT>,
}

/// A node of a graph whose nodes scan their connections linearly.
pub type VecNode<NodeIdT, NodeDataT, ConnectionDataT> = Node<
    NodeIdT,
    VecConnectionsForward<NodeIdT, ConnectionDataT>,
    VecConnectionsBackward<NodeIdT>,
    NodeDataT,
    ConnectionDataT,
>;

/// A node of a graph whose nodes find their connections through a lookup
/// table.
pub type HashNode<NodeIdT, NodeDataT, ConnectionDataT> = Node<
    NodeIdT,
    HashConnectionsForward<NodeIdT, ConnectionDataT>,
    HashConnectionsBackward<NodeIdT>,
    NodeDataT,
    ConnectionDataT,
>;

/// The read access that a node offers to the users of a graph.
pub trait NodePublic<NodeIdT: UnsignedInt, NodeDataT, ConnectionDataT>: Sized {
    /// The node as a plain value.
    spec fn public_view(&self) -> NodeView<NodeDataT, ConnectionDataT>;

    /// The identifier of the node.
    fn node_id(&self) -> (r: usize)
        ensures
            r == self.public_view().id,
    ;

    /// The payload, open to change; nothing else of the node changes with it.
    fn data(&mut self) -> (r: &mut NodeDataT)
        ensures
            *r == old(self).public_view().data,
            final(self).public_view() == (NodeView {
                id: old(self).public_view().id,
                data: *final(r),
                forward: old(self).public_view().forward,
                backward: old(self).public_view().backward,
            }),
    ;

    /// The connections that leave the node, in stored order.
    fn connections_forward_get_all(&self) -> (r: &Vec<ForwardConnection<NodeIdT, ConnectionDataT>>)
        ensures
            edge_views(r@) == self.public_view().forward,
    ;

    /// The nodes that point at the node, in stored order.
    fn connections_backward_get_all(&self) -> (r: &Vec<BackwardConnection<NodeIdT>>)
        ensures
            source_views(r@) == self.public_view().backward,
    ;
}

impl<NodeIdT, ConnForwardT, ConnBackwardT, NodeDataT, ConnectionDataT> Node<
    NodeIdT,
    ConnForwardT,
    ConnBackwardT,
    NodeDataT,
    ConnectionDataT,
> where
    NodeIdT: UnsignedInt,
    ConnForwardT: ConnectionsForward<NodeIdT, ConnectionDataT>,
    ConnBackwardT: ConnectionsBackward<NodeIdT>,
 {
    /// The node as a plain value.
    pub closed spec fn view(&self) -> NodeView<NodeDataT, ConnectionDataT> {
        NodeView {
            id: self.node_id.index(),
            data: self.data,
            forward: self.connections_forward@,
            backward: self.connections_backward@,
        }
    }

    /// Both adjacency indices are in order.
    pub closed spec fn wf(&self) -> bool {
        self.connections_forward.wf() && self.connections_backward.wf()
    }

    /// A well-formed node lists no target and no predecessor twice, and holds
    /// only identifiers that its identifier width can hold.
    pub proof fn lemma_wf(&self)
        requires
            self.wf(),
        ensures
            targets(self@.forward).no_duplicates(),
            self@.backward.no_duplicates(),
            self@.id <= NodeIdT::max_index(),
            forall|i: int|
                0 <= i < self@.forward.len() ==> (#[trigger] self@.forward[i]).target
                    <= NodeIdT::max_index(),
            forall|i: int|
                0 <= i < self@.backward.len() ==> #[trigger] self@.backward[i]
                    <= NodeIdT::max_index(),
    {
        self.connections_forward.lemma_wf();
        self.connections_backward.lemma_wf();
        self.node_id.lemma_index_bounded();
    }

    /// A node without connections.
    pub(crate) fn new(node_id: usize, node_data: NodeDataT) -> (r: Self)
        requires
            node_id <= NodeIdT::max_index(),
        ensures
            r.wf(),
            r@ == fresh_node::<NodeDataT, ConnectionDataT>(node_id, node_data),
    {
        Node {
            node_id: NodeIdT::from_usize(node_id),
            data: node_data,
            connections_forward: ConnForwardT::new(),
            connections_backward: ConnBackwardT::new(),
            _phantom_conn_data: PhantomData,
        }
    }

    /// The identifier of the node.
    pub fn node_id(&self) -> (r: usize)
        ensures
            r == self@.id,
    {
        self.node_id.to_usize()
    }

    /// The forward adjacency index, for reading.
    pub fn connections_forward(&self) -> (r: &ConnForwardT)
        ensures
            r@ == self@.forward,
            self.wf() ==> r.wf(),
    {
        &self.connections_forward
    }

    /// The backward adjacency index, for reading.
    pub fn connections_backward(&self) -> (r: &ConnBackwardT)
        ensures
            r@ == self@.backward,
            self.wf() ==> r.wf(),
    {
        &self.connections_backward
    }

    pub(crate) fn connection_forward_set(
        &mut self,
        node_id_value: usize,
        connection_data: ConnectionDataT,
    )
        requires
            old(self).wf(),
            node_id_value <= NodeIdT::max_index(),
        ensures
            final(self).wf(),
            final(self)@ == (NodeView {
                id: old(self)@.id,
                data: old(self)@.data,
                forward: forward_set(old(self)@.forward, node_id_value, connection_data),
                backward: old(self)@.backward,
            }),
    {
        self.connections_forward.set(node_id_value, connection_data);
    }

    pub(crate) fn connection_forward_remove(&mut self, node_id_value: usize)
        requires
            old(self).wf(),
        ensures
            final(self).wf(),
            final(self)@ == (NodeView {
                id: old(self)@.id,
                data: old(self)@.data,
                forward: forward_remove(old(self)@.forward, node_id_value),
                backward: old(self)@.backward,
            }),
    {
        self.connections_forward.remove(node_id_value);
    }

    pub(crate) fn connection_backward_create(&mut self, node_id_value: usize)
        requires
            old(self).wf(),
            node_id_value <= NodeIdT::max_index(),
        ensures
            final(self).wf(),
            final(self)@ == (NodeView {
                id: old(self)@.id,
                data: old(self)@.data,
                forward: old(self)@.forward,
                backward: backward_create(old(self)@.backward, node_id_value),
            }),
    {
        self.connections_backward.create(node_id_value);
    }

    pub(crate) fn connection_backward_delete(&mut self, node_id_value: usize)
        requires
            old(self).wf(),
        ensures
            final(self).wf(),
            final(self)@ == (NodeView {
                id: old(self)@.id,
                data: old(self)@.data,
                forward: old(self)@.forward,
                backward: backward_delete(old(self)@.backward, node_id_value),
            }),
    {
        self.connections_backward.delete(node_id_value);
    }

    /// The targets of the forward connections, copied out in stored order.
    pub(crate) fn forward_ids(&self) -> (r: Vec<usize>)
        ensures
            r@ == targets(self@.forward),
    {
        let stored = self.connections_forward.data();
        let mut ids: Vec<usize> = Vec::new();
        let mut i: usize = 0;
        while i < stored.len()
            invariant
                i <= stored@.len(),
                edge_views(stored@) == self@.forward,
                ids@ == targets(self@.forward).take(i as int),
            decreases stored@.len() - i,
        {
            ids.push(stored[i].node_id());
            assert(edge_views(stored@)[i as int] == stored@[i as int]@);
            assert(ids@ =~= targets(self@.forward).take(i + 1));
            i += 1;
        }
        assert(ids@ =~= targets(self@.forward));
        ids
    }

    /// The predecessors, copied out in stored order.
    pub(crate) fn backward_ids(&self) -> (r: Vec<usize>)
        ensures
            r@ == self@.backward,
    {
        let stored = self.connections_backward.data();
        let mut ids: Vec<usize> = Vec::new();
        let mut i: usize = 0;
        while i < stored.len()
            invariant
                i <= stored@.len(),
                source_views(stored@) == self@.backward,
                ids@ == self@.backward.take(i as int),
            decreases stored@.len() - i,
        {
            ids.push(stored[i].node_id());
            assert(source_views(stored@)[i as int] == stored@[i as int]@);
            assert(ids@ =~= self@.backward.take(i + 1));
            i += 1;
        }
        assert(ids@ =~= self@.backward);
        ids
    }
}

impl<NodeIdT, ConnForwardT, ConnBackwardT, NodeDataT, ConnectionDataT> NodePublic<
    NodeIdT,
    NodeDataT,
    ConnectionDataT,
> for Node<NodeIdT, ConnForwardT, ConnBackwardT, NodeDataT, ConnectionDataT> where
    NodeIdT: UnsignedInt,
    ConnForwardT: ConnectionsForward<NodeIdT, ConnectionDataT>,
    ConnBackwardT: ConnectionsBackward<NodeIdT>,
 {
    open spec fn public_view(&self) -> NodeView<NodeDataT, ConnectionDataT> {
        self@
    }

    fn node_id(&self) -> (r: usize) {
        self.node_id.to_usize()
    }

    fn data(&mut self) -> (r: &mut NodeDataT)
        ensures
            final(self).wf() == old(self).wf(),
    {
        &mut self.data
    }

    fn connections_forward_get_all(&self) -> (r: &Vec<ForwardConnection<NodeIdT, ConnectionDataT>>) {
        self.connections_forward.data()
    }

    fn connections_backward_get_all(&self) -> (r: &Vec<BackwardConnection<NodeIdT>>) {
        self.connections_backward.data()
    }
}

} // verus!
