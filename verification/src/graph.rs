use crate::connections_backward::connections_backward_trait::ConnectionsBackward;
use crate::connections_backward::hash_connections_backward::HashConnectionsBackward;
use crate::connections_backward::vec_connections_backward::VecConnectionsBackward;
use crate::connections_forward::connections_forward_trait::ConnectionsForward;
use crate::connections_forward::hash_connections_forward::HashConnectionsForward;
use crate::connections_forward::vec_connections_forward::VecConnectionsForward;
use crate::error::VeloxGraphError;
use crate::graph_model::{
    lemma_connect, lemma_create, lemma_delete, lemma_disconnect, lemma_occupied_bounded,
    lemma_payload_change, node_overflows, same_links, snapshot_overflows, GraphView, NodeView,
};
use crate::graph_settings::VeloxGraghSettings;
use crate::model::{backward_delete, forward_remove, targets};
use crate::node::Node;
use crate::unsigned_int::UnsignedInt;
use vstd::prelude::*;

verus! {

/// A graph whose nodes scan their connections linearly.
pub type VeloxGraphVec<NodeIdT, NodeDataT, ConnectionDataT> = VeloxGraph<
    NodeIdT,
    VecConnectionsForward<NodeIdT, ConnectionDataT>,
    VecConnectionsBackward<NodeIdT>,
    NodeDataT,
    ConnectionDataT,
>;

/// A graph whose nodes find their connections through a lookup table.
pub type VeloxGraphHash<NodeIdT, NodeDataT, ConnectionDataT> = VeloxGraph<
    NodeIdT,
    HashConnectionsForward<NodeIdT, ConnectionDataT>,
    HashConnectionsBackward<NodeIdT>,
    NodeDataT,
    ConnectionDataT,
>;

/// The store: an arena of slots, the list of free slots, and the number of
/// live nodes.
pub struct VeloxGraph<NodeIdT, ConnForwardT, ConnBackwardT, NodeDataT, ConnectionDataT> where
    NodeIdT: UnsignedInt,
    ConnForwardT: ConnectionsForward<NodeIdT, ConnectionDataT>,
    ConnBackwardT: ConnectionsBackward<NodeIdT>,
 {
    settings: VeloxGraghSettings,
    num_entries: usize,
    nodes_vector: Vec<Option<Node<NodeIdT, ConnForwardT, ConnBackwardT, NodeDataT, ConnectionDataT>>>,
    empty_slots: Vec<usize>,
}

/// A stored slot sequence as plain values.
pub open spec fn slot_views<NodeIdT, ConnForwardT, ConnBackwardT, NodeDataT, ConnectionDataT>(
    stored: Seq<Option<Node<NodeIdT, ConnForwardT, ConnBackwardT, NodeDataT, ConnectionDataT>>>,
) -> Seq<Option<NodeView<NodeDataT, ConnectionDataT>>> where
    NodeIdT: UnsignedInt,
    ConnForwardT: ConnectionsForward<NodeIdT, ConnectionDataT>,
    ConnBackwardT: ConnectionsBackward<NodeIdT>,
 {
    Seq::new(
        stored.len(),
        |i: int|
            match stored[i] {
                Some(node) => Some(node@),
                None => None,
            },
    )
}

/// Every stored node has its adjacency indices in order.
pub open spec fn slots_wf<NodeIdT, ConnForwardT, ConnBackwardT, NodeDataT, ConnectionDataT>(
    stored: Seq<Option<Node<NodeIdT, ConnForwardT, ConnBackwardT, NodeDataT, ConnectionDataT>>>,
) -> bool where
    NodeIdT: UnsignedInt,
    ConnForwardT: ConnectionsForward<NodeIdT, ConnectionDataT>,
    ConnBackwardT: ConnectionsBackward<NodeIdT>,
 {
    forall|i: int| 0 <= i < stored.len() && (#[trigger] stored[i]) is Some ==> stored[i]->0.wf()
}

/// A slot during a deletion of `id`: its node has lost the forward connection
/// to `id`, the backward link from `id`, both or neither.
spec fn partly_detached<N, C>(
    slot: Option<NodeView<N, C>>,
    id: usize,
    forward_done: bool,
    backward_done: bool,
) -> Option<NodeView<N, C>> {
    match slot {
        Some(node) => Some(
            NodeView {
                id: node.id,
                data: node.data,
                forward: if forward_done {
                    forward_remove(node.forward, id)
                } else {
                    node.forward
                },
                backward: if backward_done {
                    backward_delete(node.backward, id)
                } else {
                    node.backward
                },
            },
        ),
        None => None,
    }
}

impl<NodeIdT, ConnForwardT, ConnBackwardT, NodeDataT, ConnectionDataT> VeloxGraph<
    NodeIdT,
    ConnForwardT,
    ConnBackwardT,
    NodeDataT,
    ConnectionDataT,
> where
    NodeIdT: UnsignedInt,
    ConnForwardT: ConnectionsForward<NodeIdT, ConnectionDataT>,
    ConnBackwardT: ConnectionsBackward<NodeIdT>,
 {
    /// The graph as a plain value.
    pub closed spec fn view(&self) -> GraphView<NodeDataT, ConnectionDataT> {
        GraphView { slots: slot_views(self.nodes_vector@), free_list: self.empty_slots@ }
    }

    /// The graph is in order: it carries the settings of this version, every
    /// index is in order, the invariants of the store hold, the count of live
    /// nodes is right, and every slot index fits the identifier width.
    pub closed spec fn wf(&self) -> bool {
        &&& self.settings@ == "4.0"@
        &&& slots_wf(self.nodes_vector@)
        &&& self.num_entries == self@.live_count()
        &&& self@.consistent()
        &&& self@.slots.len() <= NodeIdT::max_index() + 1
    }

    /// After every operation the invariants of the store hold: the free list
    /// names exactly the free slots, forward connections and backward links
    /// mirror each other on live nodes, and a node's identifier is its slot.
    /// No identifier that the graph holds is beyond its identifier width.
    pub proof fn lemma_wf(&self)
        requires
            self.wf(),
        ensures
            self@.consistent(),
            self@.slots.len() <= NodeIdT::max_index() + 1,
            !snapshot_overflows::<NodeIdT, NodeDataT, ConnectionDataT>(self@),
    {
        let v = self@;
        assert forall|j: int| 0 <= j < v.free_list.len() implies #[trigger] v.free_list[j]
            <= NodeIdT::max_index() by {
            assert(v.free_list.contains(v.free_list[j]));
        }
        assert forall|j: int| 0 <= j < v.slots.len() && (#[trigger] v.slots[j])
            is Some implies !node_overflows::<NodeIdT, NodeDataT, ConnectionDataT>(
            v.slots[j]->0,
        ) by {
            assert(self.nodes_vector@[j] is Some);
            self.nodes_vector@[j]->0.lemma_wf();
        }
    }

    /// The identifiers that a graph holds fit another identifier width
    /// exactly when its slot indices do.
    pub proof fn lemma_fits_other_width<OtherIdT: UnsignedInt>(&self)
        requires
            self.wf(),
        ensures
            snapshot_overflows::<OtherIdT, NodeDataT, ConnectionDataT>(self@) <==> self@.slots.len()
                > OtherIdT::max_index() + 1,
    {
        let v = self@;
        let max = OtherIdT::max_index();
        if v.slots.len() > max + 1 {
            let beyond = (max + 1) as usize;
            if v.slots[beyond as int] is Some {
                assert(v.is_live(beyond));
                assert(node_overflows::<OtherIdT, NodeDataT, ConnectionDataT>(
                    v.slots[beyond as int]->0,
                ));
            } else {
                assert(v.free_list.contains(beyond));
                let m = choose|m: int| 0 <= m < v.free_list.len() && v.free_list[m] == beyond;
                assert(v.free_list[m] > max);
            }
        } else {
            assert forall|j: int| 0 <= j < v.free_list.len() implies #[trigger] v.free_list[j]
                <= max by {
                assert(v.free_list.contains(v.free_list[j]));
            }
            assert forall|j: int| 0 <= j < v.slots.len() && (#[trigger] v.slots[j])
                is Some implies !node_overflows::<OtherIdT, NodeDataT, ConnectionDataT>(
                v.slots[j]->0,
            ) by {
                let a = j as usize;
                let node = v.node(a);
                assert(v.is_live(a));
                assert forall|i: int| 0 <= i < node.forward.len() implies (
                #[trigger] node.forward[i]).target <= max by {
                    let b = node.forward[i].target;
                    assert(targets(node.forward)[i] == b);
                    assert(v.has_edge(a, b));
                    assert(v.has_back_link(b, a));
                }
                assert forall|i: int| 0 <= i < node.backward.len() implies #[trigger] node.backward[i]
                    <= max by {
                    let s = node.backward[i];
                    assert(node.backward.contains(s));
                    assert(v.has_back_link(a, s));
                    assert(v.has_edge(s, a));
                }
            }
        }
    }

    /// An empty graph.
    pub fn new() -> (r: Self)
        ensures
            r.wf(),
            r@ == (GraphView::<NodeDataT, ConnectionDataT> {
                slots: Seq::empty(),
                free_list: Seq::empty(),
            }),
    {
        let r = VeloxGraph {
            settings: VeloxGraghSettings::new(),
            num_entries: 0,
            nodes_vector: Vec::new(),
            empty_slots: Vec::new(),
        };
        assert(r@.slots =~= Seq::empty());
        r
    }

    /// A graph made of parts that are known to be in order.
    pub(crate) fn assemble(
        nodes_vector: Vec<
            Option<Node<NodeIdT, ConnForwardT, ConnBackwardT, NodeDataT, ConnectionDataT>>,
        >,
        empty_slots: Vec<usize>,
        num_entries: usize,
    ) -> (r: Self)
        requires
            slots_wf(nodes_vector@),
            (GraphView { slots: slot_views(nodes_vector@), free_list: empty_slots@ }).consistent(),
            num_entries == (GraphView {
                slots: slot_views(nodes_vector@),
                free_list: empty_slots@,
            }).live_count(),
            nodes_vector@.len() <= NodeIdT::max_index() + 1,
        ensures
            r.wf(),
            r@ == (GraphView { slots: slot_views(nodes_vector@), free_list: empty_slots@ }),
    {
        VeloxGraph { settings: VeloxGraghSettings::new(), num_entries, nodes_vector, empty_slots }
    }

    /// The number of live nodes.
    pub fn num_entries(&self) -> (r: usize)
        requires
            self.wf(),
        ensures
            r == self@.live_count(),
    {
        self.num_entries
    }

    /// The slots of the arena, for reading.
    pub fn nodes_vector(&self) -> (r: &Vec<
        Option<Node<NodeIdT, ConnForwardT, ConnBackwardT, NodeDataT, ConnectionDataT>>,
    >)
        ensures
            slot_views(r@) == self@.slots,
            self.wf() ==> slots_wf(r@),
    {
        &self.nodes_vector
    }

    /// The free slots, the one freed last at the end.
    pub fn empty_slots(&self) -> (r: &Vec<usize>)
        ensures
            r@ == self@.free_list,
    {
        &self.empty_slots
    }

    /// The settings that the graph was made with.
    pub fn settings(&self) -> (r: &VeloxGraghSettings)
        requires
            self.wf(),
        ensures
            r@ == "4.0"@,
    {
        &self.settings
    }

    /// Whether another node can be created: a slot is free, or the next slot
    /// index still fits the identifier width.
    pub fn has_room(&self) -> (r: bool)
        ensures
            r == (self@.free_list.len() > 0 || self@.slots.len() <= NodeIdT::max_index()),
    {
        self.empty_slots.len() > 0 || NodeIdT::fits(self.nodes_vector.len())
    }

    /// Why slot `node_id` cannot be used, if it cannot.
    fn slot_error(&self, node_id: usize) -> (r: Option<VeloxGraphError>)
        ensures
            r == self@.slot_error(node_id),
    {
        if node_id >= self.nodes_vector.len() {
            return Some(VeloxGraphError::SlotNotAllocated(node_id));
        }
        match &self.nodes_vector[node_id] {
            Some(_) => None,
            None => Some(VeloxGraphError::SlotNotUsed(node_id)),
        }
    }

    /// Creates a node with the payload `node_data` and returns its
    /// identifier: the slot freed last is used again before the arena grows.
    /// The identifier has to fit the identifier width, which `has_room` tells.
    pub fn node_create(&mut self, node_data: NodeDataT) -> (id: usize)
        requires
            old(self).wf(),
            old(self)@.free_list.len() > 0 || old(self)@.slots.len() <= NodeIdT::max_index(),
        ensures
            final(self).wf(),
            id == old(self)@.next_id(),
            final(self)@ == old(self)@.create(node_data),
    {
        let ghost before = self@;
        proof {
            lemma_create(before, node_data);
            lemma_occupied_bounded(before.create(node_data).slots);
        }
        let new_node_id = match self.empty_slots.pop() {
            Some(new_node_id_value) => {
                proof {
                    assert(before.free_list.contains(new_node_id_value));
                    assert(self.empty_slots@ =~= before.free_list.drop_last());
                }
                self.nodes_vector[new_node_id_value] = Some(Node::new(new_node_id_value, node_data));
                new_node_id_value
            },
            None => {
                let new_node_id_value = self.nodes_vector.len();
                self.nodes_vector.push(Some(Node::new(new_node_id_value, node_data)));
                new_node_id_value
            },
        };
        proof {
            assert(self@.slots =~= before.create(node_data).slots);
            assert(self.nodes_vector.len() == self@.slots.len());
        }
        self.num_entries += 1;
        new_node_id
    }

    /// Access to the live node `node_id`. The payload may be changed through
    /// it; the graph stays in order as long as nothing else of the node is.
    pub fn node_get(&mut self, node_id: usize) -> (r: Result<
        &mut Node<NodeIdT, ConnForwardT, ConnBackwardT, NodeDataT, ConnectionDataT>,
        VeloxGraphError,
    >)
        requires
            old(self).wf(),
        ensures
            match r {
                Ok(node) => {
                    &&& old(self)@.slot_error(node_id) is None
                    &&& node@ == old(self)@.node(node_id)
                    &&& node.wf()
                    &&& final(self)@ == (GraphView {
                        slots: old(self)@.slots.update(node_id as int, Some(final(node)@)),
                        free_list: old(self)@.free_list,
                    })
                    &&& final(node).wf() && same_links(final(node)@, node@) ==> final(self).wf()
                },
                Err(e) => old(self)@.slot_error(node_id) == Some(e) && final(self)@ == old(self)@
                    && final(self).wf(),
            },
    {
        let ghost before = self@;
        if let Some(e) = self.slot_error(node_id) {
            return Err(e);
        }
        let ghost stored = self.nodes_vector@;
        proof {
            assert forall|n: Node<NodeIdT, ConnForwardT, ConnBackwardT, NodeDataT, ConnectionDataT>|
                slot_views(#[trigger] stored.update(node_id as int, Some(n)))
                    == before.slots.update(node_id as int, Some(n@)) by {
                assert(slot_views(stored.update(node_id as int, Some(n))) =~= before.slots.update(
                    node_id as int,
                    Some(n@),
                ));
            }
            assert forall|n: Node<NodeIdT, ConnForwardT, ConnBackwardT, NodeDataT, ConnectionDataT>|
                n.wf() && same_links(n@, before.node(node_id)) implies slots_wf(
                #[trigger] stored.update(node_id as int, Some(n)),
            ) && (GraphView {
                slots: before.slots.update(node_id as int, Some(n@)),
                free_list: before.free_list,
            }).consistent() && (GraphView {
                slots: before.slots.update(node_id as int, Some(n@)),
                free_list: before.free_list,
            }).live_count() == before.live_count() by {
                lemma_payload_change(before, node_id, n@);
            }
        }
        match &mut self.nodes_vector[node_id] {
            Some(node) => Ok(node),
            None => Err(VeloxGraphError::SlotNotUsed(node_id)),
        }
    }

    /// Deletes the live node `node_id_to_delete`: its connections are removed
    /// from the nodes at their other end, then its slot is cut off where it is
    /// the last one, and marked free and pushed onto the free list otherwise.
    pub fn node_delete(&mut self, node_id_to_delete: usize) -> (r: Result<(), VeloxGraphError>)
        requires
            old(self).wf(),
        ensures
            final(self).wf(),
            match r {
                Ok(()) => old(self)@.slot_error(node_id_to_delete) is None && final(self)@ == old(
                    self,
                )@.delete(node_id_to_delete),
                Err(e) => old(self)@.slot_error(node_id_to_delete) == Some(e) && final(self)@
                    == old(self)@,
            },
    {
        let ghost before = self@;
        let id = node_id_to_delete;
        if let Some(e) = self.slot_error(id) {
            return Err(e);
        }
        let (sources, targets_of_node) = match &self.nodes_vector[id] {
            Some(node) => (node.backward_ids(), node.forward_ids()),
            None => (Vec::new(), Vec::new()),
        };
        proof {
            lemma_delete(before, id);
            lemma_occupied_bounded(before.slots);
            assert(before.is_live(id));
        }

        let mut k: usize = 0;
        while k < sources.len()
            invariant
                k <= sources@.len(),
                sources@ == before.node(id).backward,
                before.consistent(),
                before.is_live(id),
                before.slots.len() <= NodeIdT::max_index() + 1,
                self.nodes_vector@.len() == before.slots.len(),
                slots_wf(self.nodes_vector@),
                self.empty_slots@ == before.free_list,
                self.num_entries == old(self).num_entries,
                self.settings == old(self).settings,
                forall|j: int|
                    0 <= j < before.slots.len() ==> #[trigger] slot_views(self.nodes_vector@)[j]
                        == partly_detached(
                        before.slots[j],
                        id,
                        sources@.take(k as int).contains(j as usize),
                        false,
                    ),
            decreases sources@.len() - k,
        {
            let source = sources[k];
            let ghost stored = self.nodes_vector@;
            proof {
                assert(before.node(id).backward.contains(source));
                assert(before.has_back_link(id, source));
                assert(before.has_edge(source, id));
                assert(slot_views(stored)[source as int] == partly_detached(
                    before.slots[source as int],
                    id,
                    sources@.take(k as int).contains(source),
                    false,
                ));
                if sources@.take(k as int).contains(source) {
                    let m = choose|m: int|
                        0 <= m < sources@.take(k as int).len() && sources@.take(k as int)[m]
                            == source;
                    assert(sources@[m] == sources@[k as int]);
                }
            }
            match &mut self.nodes_vector[source] {
                Some(node) => {
                    node.connection_forward_remove(id);
                },
                None => {},
            }
            proof {
                assert forall|j: int| 0 <= j < before.slots.len() implies #[trigger] slot_views(
                    self.nodes_vector@,
                )[j] == partly_detached(
                    before.slots[j],
                    id,
                    sources@.take(k + 1).contains(j as usize),
                    false,
                ) by {
                    let shorter = sources@.take(k as int);
                    let longer = sources@.take(k + 1);
                    assert(longer =~= shorter.push(source));
                    if j == source {
                        assert(longer[k as int] == source);
                    } else {
                        assert(self.nodes_vector@[j] == stored[j]);
                        assert(slot_views(stored)[j] == partly_detached(
                            before.slots[j],
                            id,
                            shorter.contains(j as usize),
                            false,
                        ));
                        if shorter.contains(j as usize) {
                            let m = choose|m: int| 0 <= m < shorter.len() && shorter[m] == j as usize;
                            assert(longer[m] == j as usize);
                        }
                        if longer.contains(j as usize) {
                            let m = choose|m: int| 0 <= m < longer.len() && longer[m] == j as usize;
                            assert(shorter[m] == j as usize);
                        }
                    }
                }
            }
            k += 1;
        }

        proof {
            assert(sources@.take(sources@.len() as int) =~= sources@);
            assert forall|j: int| 0 <= j < before.slots.len() implies #[trigger] slot_views(
                self.nodes_vector@,
            )[j] == partly_detached(before.slots[j], id, true, false) by {
                assert(before.has_edge(j as usize, id) <==> before.has_back_link(id, j as usize));
            }
        }

        let mut k: usize = 0;
        while k < targets_of_node.len()
            invariant
                k <= targets_of_node@.len(),
                targets_of_node@ == targets(before.node(id).forward),
                before.consistent(),
                before.is_live(id),
                before.slots.len() <= NodeIdT::max_index() + 1,
                self.nodes_vector@.len() == before.slots.len(),
                slots_wf(self.nodes_vector@),
                self.empty_slots@ == before.free_list,
                self.num_entries == old(self).num_entries,
                self.settings == old(self).settings,
                forall|j: int|
                    0 <= j < before.slots.len() ==> #[trigger] slot_views(self.nodes_vector@)[j]
                        == partly_detached(
                        before.slots[j],
                        id,
                        true,
                        targets_of_node@.take(k as int).contains(j as usize),
                    ),
            decreases targets_of_node@.len() - k,
        {
            let target = targets_of_node[k];
            let ghost stored = self.nodes_vector@;
            proof {
                assert(targets(before.node(id).forward).contains(target));
                assert(before.has_edge(id, target));
                assert(before.has_back_link(target, id));
                assert(slot_views(stored)[target as int] == partly_detached(
                    before.slots[target as int],
                    id,
                    true,
                    targets_of_node@.take(k as int).contains(target),
                ));
                if targets_of_node@.take(k as int).contains(target) {
                    let m = choose|m: int|
                        0 <= m < targets_of_node@.take(k as int).len() && targets_of_node@.take(
                            k as int,
                        )[m] == target;
                    assert(targets_of_node@[m] == targets_of_node@[k as int]);
                }
            }
            match &mut self.nodes_vector[target] {
                Some(node) => {
                    node.connection_backward_delete(id);
                },
                None => {},
            }
            proof {
                assert forall|j: int| 0 <= j < before.slots.len() implies #[trigger] slot_views(
                    self.nodes_vector@,
                )[j] == partly_detached(
                    before.slots[j],
                    id,
                    true,
                    targets_of_node@.take(k + 1).contains(j as usize),
                ) by {
                    let shorter = targets_of_node@.take(k as int);
                    let longer = targets_of_node@.take(k + 1);
                    assert(longer =~= shorter.push(target));
                    if j == target {
                        assert(longer[k as int] == target);
                    } else {
                        assert(self.nodes_vector@[j] == stored[j]);
                        assert(slot_views(stored)[j] == partly_detached(
                            before.slots[j],
                            id,
                            true,
                            shorter.contains(j as usize),
                        ));
                        if shorter.contains(j as usize) {
                            let m = choose|m: int| 0 <= m < shorter.len() && shorter[m] == j as usize;
                            assert(longer[m] == j as usize);
                        }
                        if longer.contains(j as usize) {
                            let m = choose|m: int| 0 <= m < longer.len() && longer[m] == j as usize;
                            assert(shorter[m] == j as usize);
                        }
                    }
                }
            }
            k += 1;
        }

        proof {
            assert(targets_of_node@.take(targets_of_node@.len() as int) =~= targets_of_node@);
            assert forall|j: int| 0 <= j < before.slots.len() implies #[trigger] slot_views(
                self.nodes_vector@,
            )[j] == partly_detached(before.slots[j], id, true, true) by {
                assert(before.has_edge(id, j as usize) <==> before.has_back_link(j as usize, id));
            }
        }

        let ghost detached = self.nodes_vector@;
        if id == self.nodes_vector.len() - 1 {
            self.nodes_vector.pop();
            assert(self.nodes_vector@ =~= detached.drop_last());
        } else {
            self.empty_slots.push(id);
            self.nodes_vector[id] = None;
            assert(self.nodes_vector@ =~= detached.update(id as int, None));
        }
        proof {
            let after = before.delete(id);
            assert(self@.slots.len() == after.slots.len());
            assert forall|j: int| 0 <= j < after.slots.len() implies self@.slots[j]
                == after.slots[j] by {
                assert(slot_views(detached)[j] == partly_detached(before.slots[j], id, true, true));
            }
            assert(self@.slots =~= after.slots);
        }
        self.num_entries -= 1;
        Ok(())
    }

    /// Sets the connection from `first_node_id` to `second_node_id`: both
    /// nodes must be live, and nothing is changed where one is not. The
    /// payload of an existing connection is overwritten.
    pub fn nodes_connection_set(
        &mut self,
        first_node_id: usize,
        second_node_id: usize,
        connection_data: ConnectionDataT,
    ) -> (r: Result<(), VeloxGraphError>)
        requires
            old(self).wf(),
        ensures
            final(self).wf(),
            match r {
                Ok(()) => old(self)@.endpoint_error(first_node_id, second_node_id) is None
                    && final(self)@ == old(self)@.connect(
                    first_node_id,
                    second_node_id,
                    connection_data,
                ),
                Err(e) => old(self)@.endpoint_error(first_node_id, second_node_id) == Some(e)
                    && final(self)@ == old(self)@,
            },
    {
        let ghost before = self@;
        if let Some(e) = self.slot_error(second_node_id) {
            return Err(e);
        }
        if let Some(e) = self.slot_error(first_node_id) {
            return Err(e);
        }
        proof {
            lemma_connect(before, first_node_id, second_node_id, connection_data);
        }
        match &mut self.nodes_vector[first_node_id] {
            Some(first_node) => {
                first_node.connection_forward_set(second_node_id, connection_data);
            },
            None => {},
        }
        match &mut self.nodes_vector[second_node_id] {
            Some(second_node) => {
                second_node.connection_backward_create(first_node_id);
            },
            None => {},
        }
        assert(self@.slots =~= before.connect(
            first_node_id,
            second_node_id,
            connection_data,
        ).slots);
        Ok(())
    }

    /// Removes the connection from `first_node_id` to `second_node_id`: both
    /// nodes must be live, and nothing is changed where one is not, or where
    /// there is no such connection.
    pub fn nodes_connection_remove(&mut self, first_node_id: usize, second_node_id: usize) -> (r:
        Result<(), VeloxGraphError>)
        requires
            old(self).wf(),
        ensures
            final(self).wf(),
            match r {
                Ok(()) => old(self)@.endpoint_error(first_node_id, second_node_id) is None
                    && final(self)@ == old(self)@.disconnect(first_node_id, second_node_id),
                Err(e) => old(self)@.endpoint_error(first_node_id, second_node_id) == Some(e)
                    && final(self)@ == old(self)@,
            },
    {
        let ghost before = self@;
        if let Some(e) = self.slot_error(second_node_id) {
            return Err(e);
        }
        if let Some(e) = self.slot_error(first_node_id) {
            return Err(e);
        }
        proof {
            lemma_disconnect(before, first_node_id, second_node_id);
        }
        match &mut self.nodes_vector[first_node_id] {
            Some(first_node) => {
                first_node.connection_forward_remove(second_node_id);
            },
            None => {},
        }
        match &mut self.nodes_vector[second_node_id] {
            Some(second_node) => {
                second_node.connection_backward_delete(first_node_id);
            },
            None => {},
        }
        assert(self@.slots =~= before.disconnect(first_node_id, second_node_id).slots);
        Ok(())
    }
}

} // verus!
