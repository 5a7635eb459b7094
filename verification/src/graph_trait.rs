use crate::codec::{block_views, frameable, free_list_bytes, reads_back, snapshot_bytes};
use crate::connections_backward::connections_backward_trait::ConnectionsBackward;
use crate::connections_forward::connections_forward_trait::ConnectionsForward;
use crate::error::VeloxGraphError;
use crate::graph::{slot_views, slots_wf, VeloxGraph};
use crate::graph_model::{same_links, snapshot_overflows, GraphView};
use crate::node::Node;
use crate::snapshot::{record_views, NodeRecord};
use crate::unsigned_int::UnsignedInt;
use vstd::prelude::*;

pub(crate) mod graph_private;

verus! {

/// The storage of a graph, for reading.
pub trait GraphInternal<NodeIdT, ConnForwardT, ConnBackwardT, NodeDataT, ConnectionDataT>:
    graph_private::GraphSealed + Sized where
    NodeIdT: UnsignedInt,
    ConnForwardT: ConnectionsForward<NodeIdT, ConnectionDataT>,
    ConnBackwardT: ConnectionsBackward<NodeIdT>,
 {
    /// The graph as a plain value.
    spec fn graph_view(&self) -> GraphView<NodeDataT, ConnectionDataT>;

    /// The graph is in order.
    spec fn graph_wf(&self) -> bool;

    /// The slots of the arena.
    fn nodes_vector(&self) -> (r: &Vec<
        Option<Node<NodeIdT, ConnForwardT, ConnBackwardT, NodeDataT, ConnectionDataT>>,
    >)
        ensures
            slot_views(r@) == self.graph_view().slots,
            self.graph_wf() ==> slots_wf(r@),
    ;

    /// The free slots, the one freed last at the end.
    fn empty_slots(&self) -> (r: &Vec<usize>)
        ensures
            r@ == self.graph_view().free_list,
    ;
}

/// The operations of a graph, whatever strategy its nodes follow.
pub trait Graph<NodeIdT, ConnForwardT, ConnBackwardT, NodeDataT, ConnectionDataT>: GraphInternal<
    NodeIdT,
    ConnForwardT,
    ConnBackwardT,
    NodeDataT,
    ConnectionDataT,
> where
    NodeIdT: UnsignedInt,
    ConnForwardT: ConnectionsForward<NodeIdT, ConnectionDataT>,
    ConnBackwardT: ConnectionsBackward<NodeIdT>,
 {
    /// An empty graph.
    fn new() -> (r: Self)
        ensures
            r.graph_wf(),
            r.graph_view() == (GraphView::<NodeDataT, ConnectionDataT> {
                slots: Seq::empty(),
                free_list: Seq::empty(),
            }),
    ;

    /// The number of live nodes.
    fn num_entries(&self) -> (r: usize)
        requires
            self.graph_wf(),
        ensures
            r == self.graph_view().live_count(),
    ;

    /// Creates a node; the slot freed last is used again before the arena
    /// grows.
    fn node_create(&mut self, node_data: NodeDataT) -> (id: usize)
        requires
            old(self).graph_wf(),
            old(self).graph_view().free_list.len() > 0 || old(self).graph_view().slots.len()
                <= NodeIdT::max_index(),
        ensures
            final(self).graph_wf(),
            id == old(self).graph_view().next_id(),
            final(self).graph_view() == old(self).graph_view().create(node_data),
    ;

    /// Access to a live node; its payload may be changed.
    fn node_get(&mut self, node_id: usize) -> (r: Result<
        &mut Node<NodeIdT, ConnForwardT, ConnBackwardT, NodeDataT, ConnectionDataT>,
        VeloxGraphError,
    >)
        requires
            old(self).graph_wf(),
        ensures
            match r {
                Ok(node) => {
                    &&& old(self).graph_view().slot_error(node_id) is None
                    &&& node@ == old(self).graph_view().node(node_id)
                    &&& node.wf()
                    &&& final(self).graph_view() == (GraphView {
                        slots: old(self).graph_view().slots.update(
                            node_id as int,
                            Some(final(node)@),
                        ),
                        free_list: old(self).graph_view().free_list,
                    })
                    &&& final(node).wf() && same_links(final(node)@, node@)
                        ==> final(self).graph_wf()
                },
                Err(e) => old(self).graph_view().slot_error(node_id) == Some(e)
                    && final(self).graph_view() == old(self).graph_view()
                    && final(self).graph_wf(),
            },
    ;

    /// Deletes a live node together with every connection to and from it.
    fn node_delete(&mut self, node_id_to_delete: usize) -> (r: Result<(), VeloxGraphError>)
        requires
            old(self).graph_wf(),
        ensures
            final(self).graph_wf(),
            match r {
                Ok(()) => old(self).graph_view().slot_error(node_id_to_delete) is None
                    && final(self).graph_view() == old(self).graph_view().delete(
                    node_id_to_delete,
                ),
                Err(e) => old(self).graph_view().slot_error(node_id_to_delete) == Some(e)
                    && final(self).graph_view() == old(self).graph_view(),
            },
    ;

    /// Sets the connection between two live nodes.
    fn nodes_connection_set(
        &mut self,
        first_node_id: usize,
        second_node_id: usize,
        connection_data: ConnectionDataT,
    ) -> (r: Result<(), VeloxGraphError>)
        requires
            old(self).graph_wf(),
        ensures
            final(self).graph_wf(),
            match r {
                Ok(()) => old(self).graph_view().endpoint_error(first_node_id, second_node_id)
                    is None && final(self).graph_view() == old(self).graph_view().connect(
                    first_node_id,
                    second_node_id,
                    connection_data,
                ),
                Err(e) => old(self).graph_view().endpoint_error(first_node_id, second_node_id)
                    == Some(e) && final(self).graph_view() == old(self).graph_view(),
            },
    ;

    /// Removes the connection between two live nodes.
    fn nodes_connection_remove(&mut self, first_node_id: usize, second_node_id: usize) -> (r:
        Result<(), VeloxGraphError>)
        requires
            old(self).graph_wf(),
        ensures
            final(self).graph_wf(),
            match r {
                Ok(()) => old(self).graph_view().endpoint_error(first_node_id, second_node_id)
                    is None && final(self).graph_view() == old(self).graph_view().disconnect(
                    first_node_id,
                    second_node_id,
                ),
                Err(e) => old(self).graph_view().endpoint_error(first_node_id, second_node_id)
                    == Some(e) && final(self).graph_view() == old(self).graph_view(),
            },
    ;

    /// The snapshot of the graph as bytes, given the encoding of each slot.
    fn save(&self, slot_blocks: &Vec<Vec<u8>>) -> (r: Result<Vec<u8>, VeloxGraphError>)
        ensures
            if slot_blocks@.len() != self.graph_view().slots.len() {
                r is Err && r->Err_0 is FileFail
            } else {
                match free_list_bytes(self.graph_view().free_list) {
                    Some(free_block) => match r {
                        Ok(bytes) => frameable(free_block, block_views(slot_blocks@)) && bytes@
                            == snapshot_bytes(free_block, block_views(slot_blocks@)),
                        Err(e) => !frameable(free_block, block_views(slot_blocks@)) && e is FileFail,
                    },
                    None => r is Err && r->Err_0 is PostcardError,
                }
            },
            r matches Ok(bytes) ==> reads_back(
                bytes@,
                self.graph_view().free_list,
                block_views(slot_blocks@),
            ),
    ;

    /// The graph that a snapshot describes.
    fn load(
        empty_slots: Vec<usize>,
        records: Vec<Option<NodeRecord<NodeDataT, ConnectionDataT>>>,
    ) -> (r: Result<Self, VeloxGraphError>)
        ensures
            match r {
                Ok(graph) => {
                    &&& graph.graph_wf()
                    &&& graph.graph_view() == (GraphView {
                        slots: record_views(records@),
                        free_list: empty_slots@,
                    })
                    &&& graph.graph_view().consistent()
                    &&& !snapshot_overflows::<NodeIdT, NodeDataT, ConnectionDataT>(
                        graph.graph_view(),
                    )
                },
                Err(e) => if snapshot_overflows::<NodeIdT, NodeDataT, ConnectionDataT>(
                    GraphView { slots: record_views(records@), free_list: empty_slots@ },
                ) {
                    e == VeloxGraphError::Overflow
                } else {
                    !(GraphView {
                        slots: record_views(records@),
                        free_list: empty_slots@,
                    }).consistent() && e is FileFail
                },
            },
    ;
}

impl<
    NodeIdT,
    ConnForwardT,
    ConnBackwardT,
    NodeDataT,
    ConnectionDataT,
> graph_private::GraphSealed for VeloxGraph<
    NodeIdT,
    ConnForwardT,
    ConnBackwardT,
    NodeDataT,
    ConnectionDataT,
> where
    NodeIdT: UnsignedInt,
    ConnForwardT: ConnectionsForward<NodeIdT, ConnectionDataT>,
    ConnBackwardT: ConnectionsBackward<NodeIdT>,
 {
}

impl<NodeIdT, ConnForwardT, ConnBackwardT, NodeDataT, ConnectionDataT> GraphInternal<
    NodeIdT,
    ConnForwardT,
    ConnBackwardT,
    NodeDataT,
    ConnectionDataT,
> for VeloxGraph<NodeIdT, ConnForwardT, ConnBackwardT, NodeDataT, ConnectionDataT> where
    NodeIdT: UnsignedInt,
    ConnForwardT: ConnectionsForward<NodeIdT, ConnectionDataT>,
    ConnBackwardT: ConnectionsBackward<NodeIdT>,
 {
    open spec fn graph_view(&self) -> GraphView<NodeDataT, ConnectionDataT> {
        self@
    }

    open spec fn graph_wf(&self) -> bool {
        self.wf()
    }

    fn nodes_vector(&self) -> (r: &Vec<
        Option<Node<NodeIdT, ConnForwardT, ConnBackwardT, NodeDataT, ConnectionDataT>>,
    >) {
        VeloxGraph::nodes_vector(self)
    }

    fn empty_slots(&self) -> (r: &Vec<usize>) {
        VeloxGraph::empty_slots(self)
    }
}

impl<NodeIdT, ConnForwardT, ConnBackwardT, NodeDataT, ConnectionDataT> Graph<
    NodeIdT,
    ConnForwardT,
    ConnBackwardT,
    NodeDataT,
    ConnectionDataT,
> for VeloxGraph<NodeIdT, ConnForwardT, ConnBackwardT, NodeDataT, ConnectionDataT> where
    NodeIdT: UnsignedInt,
    ConnForwardT: ConnectionsForward<NodeIdT, ConnectionDataT>,
    ConnBackwardT: ConnectionsBackward<NodeIdT>,
 {
    fn new() -> (r: Self) {
        VeloxGraph::new()
    }

    fn num_entries(&self) -> (r: usize) {
        VeloxGraph::num_entries(self)
    }

    fn node_create(&mut self, node_data: NodeDataT) -> (id: usize) {
        VeloxGraph::node_create(self, node_data)
    }

    fn node_get(&mut self, node_id: usize) -> (r: Result<
        &mut Node<NodeIdT, ConnForwardT, ConnBackwardT, NodeDataT, ConnectionDataT>,
        VeloxGraphError,
    >) {
        VeloxGraph::node_get(self, node_id)
    }

    fn node_delete(&mut self, node_id_to_delete: usize) -> (r: Result<(), VeloxGraphError>) {
        VeloxGraph::node_delete(self, node_id_to_delete)
    }

    fn nodes_connection_set(
        &mut self,
        first_node_id: usize,
        second_node_id: usize,
        connection_data: ConnectionDataT,
    ) -> (r: Result<(), VeloxGraphError>) {
        VeloxGraph::nodes_connection_set(self, first_node_id, second_node_id, connection_data)
    }

    fn nodes_connection_remove(&mut self, first_node_id: usize, second_node_id: usize) -> (r:
        Result<(), VeloxGraphError>) {
        VeloxGraph::nodes_connection_remove(self, first_node_id, second_node_id)
    }

    fn save(&self, slot_blocks: &Vec<Vec<u8>>) -> (r: Result<Vec<u8>, VeloxGraphError>) {
        VeloxGraph::save(self, slot_blocks)
    }

    fn load(
        empty_slots: Vec<usize>,
        records: Vec<Option<NodeRecord<NodeDataT, ConnectionDataT>>>,
    ) -> (r: Result<Self, VeloxGraphError>) {
        VeloxGraph::load(empty_slots, records)
    }
}

} // verus!
