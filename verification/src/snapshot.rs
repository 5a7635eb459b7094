//! Snapshots of a graph as plain values: what a stored graph is rebuilt from,
//! and the checks that a rebuilt graph has to pass.

use crate::codec::{
    block_views, encode_header, encode_snapshot, frame, frameable, free_list_bytes, le32,
    reads_back, snapshot_bytes,
};
use crate::connections_backward::connections_backward_trait::ConnectionsBackward;
use crate::connections_forward::connections_forward_trait::ConnectionsForward;
use crate::error::VeloxGraphError;
use crate::graph::{slot_views, slots_wf, VeloxGraph};
use crate::graph_model::{
    lemma_occupied_push, node_overflows, occupied, snapshot_overflows, well_listed,
    GraphView, NodeView,
};
use crate::model::{targets, EdgeView};
use crate::node::Node;
use crate::unsigned_int::UnsignedInt;
use vstd::prelude::*;

verus! {

/// A node as it stands in a snapshot: plain values, whatever identifier
/// width the graph that wrote it had.
#[derive(Clone, Debug)]
pub struct NodeRecord<NodeDataT, ConnectionDataT> {
    pub node_id: usize,
    pub data: NodeDataT,
    pub connections_forward: Vec<(usize, ConnectionDataT)>,
    pub connections_backward: Vec<usize>,
}

/// A recorded forward listing as plain values.
pub open spec fn listed_edges<C>(stored: Seq<(usize, C)>) -> Seq<EdgeView<C>> {
    Seq::new(stored.len(), |i: int| EdgeView { target: stored[i].0, data: stored[i].1 })
}

impl<NodeDataT, ConnectionDataT> NodeRecord<NodeDataT, ConnectionDataT> {
    pub open spec fn view(&self) -> NodeView<NodeDataT, ConnectionDataT> {
        NodeView {
            id: self.node_id,
            data: self.data,
            forward: listed_edges(self.connections_forward@),
            backward: self.connections_backward@,
        }
    }
}

/// Recorded slots as plain values.
pub open spec fn record_views<N, C>(records: Seq<Option<NodeRecord<N, C>>>) -> Seq<
    Option<NodeView<N, C>>,
> {
    Seq::new(
        records.len(),
        |i: int|
            match records[i] {
                Some(record) => Some(record@),
                None => None,
            },
    )
}

/// The same elements, the last one first.
fn reversed<T>(v: Vec<T>) -> (r: Vec<T>)
    ensures
        r@.len() == v@.len(),
        forall|i: int| 0 <= i < v@.len() ==> r@[i] == v@[v@.len() - 1 - i],
{
    let ghost given = v@;
    let mut source = v;
    let mut out: Vec<T> = Vec::new();
    while source.len() > 0
        invariant
            source@.len() + out@.len() == given.len(),
            forall|i: int| 0 <= i < source@.len() ==> source@[i] == given[i],
            forall|i: int| 0 <= i < out@.len() ==> out@[i] == given[given.len() - 1 - i],
        decreases source@.len(),
    {
        match source.pop() {
            Some(x) => {
                out.push(x);
            },
            None => {},
        }
    }
    out
}

/// Whether a record holds an identifier that the width `NodeIdT` cannot hold.
fn record_overflows<NodeIdT: UnsignedInt, NodeDataT, ConnectionDataT>(
    record: &NodeRecord<NodeDataT, ConnectionDataT>,
) -> (r: bool)
    ensures
        r == node_overflows::<NodeIdT, NodeDataT, ConnectionDataT>(record@),
{
    if !NodeIdT::fits(record.node_id) {
        return true;
    }
    let mut i: usize = 0;
    while i < record.connections_forward.len()
        invariant
            i <= record.connections_forward@.len(),
            forall|j: int| 0 <= j < i ==> (#[trigger] record@.forward[j]).target <= NodeIdT::max_index(),
        decreases record.connections_forward@.len() - i,
    {
        if !NodeIdT::fits(record.connections_forward[i].0) {
            assert(record@.forward[i as int].target > NodeIdT::max_index());
            return true;
        }
        i += 1;
    }
    let mut i: usize = 0;
    while i < record.connections_backward.len()
        invariant
            i <= record.connections_backward@.len(),
            forall|j: int| 0 <= j < i ==> #[trigger] record@.backward[j] <= NodeIdT::max_index(),
        decreases record.connections_backward@.len() - i,
    {
        if !NodeIdT::fits(record.connections_backward[i]) {
            assert(record@.backward[i as int] > NodeIdT::max_index());
            return true;
        }
        i += 1;
    }
    false
}

/// The node that a record describes, where the record stands in its own
/// slot and lists nothing twice.
fn build_node<NodeIdT, ConnForwardT, ConnBackwardT, NodeDataT, ConnectionDataT>(
    record: NodeRecord<NodeDataT, ConnectionDataT>,
    slot: usize,
) -> (r: Option<Node<NodeIdT, ConnForwardT, ConnBackwardT, NodeDataT, ConnectionDataT>>) where
    NodeIdT: UnsignedInt,
    ConnForwardT: ConnectionsForward<NodeIdT, ConnectionDataT>,
    ConnBackwardT: ConnectionsBackward<NodeIdT>,

    requires
        !node_overflows::<NodeIdT, NodeDataT, ConnectionDataT>(record@),
    ensures
        match r {
            Some(node) => node.wf() && node@ == record@ && well_listed(record@, slot),
            None => !well_listed(record@, slot),
        },
{
    let ghost given = record@;
    let NodeRecord { node_id, data, connections_forward, connections_backward } = record;
    if node_id != slot {
        return None;
    }
    let mut node: Node<NodeIdT, ConnForwardT, ConnBackwardT, NodeDataT, ConnectionDataT> =
        Node::new(node_id, data);
    let total = connections_forward.len();
    let mut stack = reversed(connections_forward);
    assert(given.forward.take(0) =~= Seq::<EdgeView<ConnectionDataT>>::empty());
    let mut k: usize = 0;
    while k < total
        invariant
            given == record@,
            k <= total == given.forward.len(),
            stack@.len() == total - k,
            forall|m: int|
                0 <= m < stack@.len() ==> (EdgeView {
                    target: (#[trigger] stack@[m]).0,
                    data: stack@[m].1,
                }) == given.forward[total - 1 - m],
            forall|j: int|
                0 <= j < given.forward.len() ==> (#[trigger] given.forward[j]).target
                    <= NodeIdT::max_index(),
            node.wf(),
            node@ == (NodeView {
                id: given.id,
                data: given.data,
                forward: given.forward.take(k as int),
                backward: Seq::empty(),
            }),
        decreases total - k,
    {
        let ghost built = node@.forward;
        match stack.pop() {
            Some((target, connection_data)) => {
                assert(given.forward[k as int] == EdgeView { target, data: connection_data });
                let present = match node.connections_forward().get(target) {
                    Ok(_) => true,
                    Err(_) => false,
                };
                if present {
                    proof {
                        let keys = targets(given.forward);
                        let j = choose|j: int| 0 <= j < built.len() && targets(built)[j] == target;
                        assert(keys[j] == target && keys[k as int] == target);
                        assert(!keys.no_duplicates());
                        assert(!well_listed(given, slot));
                    }
                    return None;
                }
                node.connection_forward_set(target, connection_data);
                assert(node@.forward =~= given.forward.take(k + 1));
            },
            None => {},
        }
        k += 1;
    }
    assert(given.forward.take(total as int) =~= given.forward);
    assert(given.backward.take(0) =~= Seq::<usize>::empty());
    let mut k: usize = 0;
    while k < connections_backward.len()
        invariant
            given == record@,
            k <= connections_backward@.len(),
            connections_backward@ == given.backward,
            forall|j: int|
                0 <= j < given.backward.len() ==> #[trigger] given.backward[j]
                    <= NodeIdT::max_index(),
            node.wf(),
            node@ == (NodeView {
                id: given.id,
                data: given.data,
                forward: given.forward,
                backward: given.backward.take(k as int),
            }),
        decreases connections_backward@.len() - k,
    {
        let ghost built = node@.backward;
        let source = connections_backward[k];
        if node.connections_backward().contains(source) {
            proof {
                let j = choose|j: int| 0 <= j < built.len() && built[j] == source;
                assert(given.backward[j] == source && given.backward[k as int] == source);
                assert(!given.backward.no_duplicates());
                assert(!well_listed(given, slot));
            }
            return None;
        }
        node.connection_backward_create(source);
        assert(node@.backward =~= given.backward.take(k + 1));
        k += 1;
    }
    proof {
        assert(given.backward.take(given.backward.len() as int) =~= given.backward);
        node.lemma_wf();
    }
    Some(node)
}

/// Whether the free list names exactly the free slots, each once.
fn free_list_is_exact<NodeIdT, ConnForwardT, ConnBackwardT, NodeDataT, ConnectionDataT>(
    nodes: &Vec<Option<Node<NodeIdT, ConnForwardT, ConnBackwardT, NodeDataT, ConnectionDataT>>>,
    empty_slots: &Vec<usize>,
) -> (r: bool) where
    NodeIdT: UnsignedInt,
    ConnForwardT: ConnectionsForward<NodeIdT, ConnectionDataT>,
    ConnBackwardT: ConnectionsBackward<NodeIdT>,

    ensures
        r == (GraphView {
            slots: slot_views(nodes@),
            free_list: empty_slots@,
        }).free_list_exact(),
{
    let ghost v = GraphView { slots: slot_views(nodes@), free_list: empty_slots@ };
    let n = nodes.len();
    let mut marks: Vec<bool> = Vec::new();
    let mut i: usize = 0;
    while i < n
        invariant
            i <= n,
            marks@.len() == i,
            forall|j: int| 0 <= j < i ==> !marks@[j],
        decreases n - i,
    {
        marks.push(false);
        i += 1;
    }
    let mut k: usize = 0;
    while k < empty_slots.len()
        invariant
            k <= empty_slots@.len(),
            n == nodes@.len(),
            marks@.len() == n,
            v == (GraphView { slots: slot_views(nodes@), free_list: empty_slots@ }),
            empty_slots@.take(k as int).no_duplicates(),
            forall|j: int| 0 <= j < n ==> (marks@[j] <==> empty_slots@.take(k as int).contains(j as usize)),
            forall|m: int|
                0 <= m < k ==> (#[trigger] empty_slots@[m]) < n && v.slots[empty_slots@[m] as int] is None,
        decreases empty_slots@.len() - k,
    {
        let entry = empty_slots[k];
        let ghost shorter = empty_slots@.take(k as int);
        let ghost longer = empty_slots@.take(k + 1);
        if entry >= n {
            assert(v.free_list.contains(entry));
            return false;
        }
        if nodes[entry].is_some() {
            assert(v.free_list.contains(entry));
            return false;
        }
        if marks[entry] {
            proof {
                let m = choose|m: int| 0 <= m < shorter.len() && shorter[m] == entry;
                assert(empty_slots@[m] == entry && empty_slots@[k as int] == entry);
            }
            return false;
        }
        marks.set(entry, true);
        proof {
            assert(longer =~= shorter.push(entry));
            assert forall|x: int, y: int|
                0 <= x < longer.len() && 0 <= y < longer.len() && x != y implies longer[x]
                != longer[y] by {
                if x < k {
                    assert(shorter[x] == longer[x]);
                    assert(shorter.contains(shorter[x]));
                }
                if y < k {
                    assert(shorter[y] == longer[y]);
                    assert(shorter.contains(shorter[y]));
                }
            }
            assert forall|j: int| 0 <= j < n implies (marks@[j] <==> longer.contains(j as usize)) by {
                if shorter.contains(j as usize) {
                    let m = choose|m: int| 0 <= m < shorter.len() && shorter[m] == j as usize;
                    assert(longer[m] == j as usize);
                }
                if longer.contains(j as usize) {
                    let m = choose|m: int| 0 <= m < longer.len() && longer[m] == j as usize;
                    if m < k {
                        assert(shorter[m] == j as usize);
                    }
                }
                if j == entry {
                    assert(longer[k as int] == entry);
                }
            }
        }
        k += 1;
    }
    assert(empty_slots@.take(empty_slots@.len() as int) =~= empty_slots@);
    let mut i: usize = 0;
    while i < n
        invariant
            i <= n,
            n == nodes@.len(),
            marks@.len() == n,
            v == (GraphView { slots: slot_views(nodes@), free_list: empty_slots@ }),
            forall|j: int| 0 <= j < n ==> (marks@[j] <==> empty_slots@.contains(j as usize)),
            forall|j: int| 0 <= j < i && v.slots[j] is None ==> empty_slots@.contains(j as usize),
        decreases n - i,
    {
        if nodes[i].is_none() && !marks[i] {
            assert(!v.free_list.contains(i));
            return false;
        }
        i += 1;
    }
    proof {
        assert forall|x: usize| #[trigger]
            v.free_list.contains(x) <==> (x < v.slots.len() && v.slots[x as int] is None) by {
            if v.free_list.contains(x) {
                let m = choose|m: int| 0 <= m < v.free_list.len() && v.free_list[m] == x;
                assert(empty_slots@[m] < n);
            }
        }
    }
    true
}

/// Whether forward connections and backward links mirror each other.
fn is_cross_referenced<NodeIdT, ConnForwardT, ConnBackwardT, NodeDataT, ConnectionDataT>(
    nodes: &Vec<Option<Node<NodeIdT, ConnForwardT, ConnBackwardT, NodeDataT, ConnectionDataT>>>,
    empty_slots: &Vec<usize>,
) -> (r: bool) where
    NodeIdT: UnsignedInt,
    ConnForwardT: ConnectionsForward<NodeIdT, ConnectionDataT>,
    ConnBackwardT: ConnectionsBackward<NodeIdT>,

    requires
        slots_wf(nodes@),
    ensures
        r == (GraphView {
            slots: slot_views(nodes@),
            free_list: empty_slots@,
        }).cross_referenced(),
{
    let ghost v = GraphView { slots: slot_views(nodes@), free_list: empty_slots@ };
    let n = nodes.len();
    let mut a: usize = 0;
    while a < n
        invariant
            a <= n,
            n == nodes@.len(),
            slots_wf(nodes@),
            v == (GraphView { slots: slot_views(nodes@), free_list: empty_slots@ }),
            forall|x: usize, y: usize| x < a && #[trigger] v.has_edge(x, y) ==> v.has_back_link(y, x),
            forall|x: usize, y: usize| x < a && #[trigger] v.has_back_link(x, y) ==> v.has_edge(y, x),
        decreases n - a,
    {
        match &nodes[a] {
            Some(node) => {
                assert(v.slots[a as int] == Some(node@));
                let outgoing = node.forward_ids();
                let mut k: usize = 0;
                while k < outgoing.len()
                    invariant
                        k <= outgoing@.len(),
                        a < n,
                        n == nodes@.len(),
                        slots_wf(nodes@),
                        v == (GraphView { slots: slot_views(nodes@), free_list: empty_slots@ }),
                        v.is_live(a),
                        outgoing@ == targets(v.node(a).forward),
                        forall|m: int| 0 <= m < k ==> v.has_back_link(#[trigger] outgoing@[m], a),
                    decreases outgoing@.len() - k,
                {
                    let b = outgoing[k];
                    proof {
                        assert(targets(v.node(a).forward).contains(b));
                        assert(v.has_edge(a, b));
                    }
                    if b >= n {
                        assert(!v.has_back_link(b, a));
                        return false;
                    }
                    match &nodes[b] {
                        Some(other) => {
                            assert(v.slots[b as int] == Some(other@));
                            if !other.connections_backward().contains(a) {
                                assert(!v.has_back_link(b, a));
                                return false;
                            }
                        },
                        None => {
                            assert(!v.has_back_link(b, a));
                            return false;
                        },
                    }
                    k += 1;
                }
                proof {
                    assert forall|y: usize| #[trigger] v.has_edge(a, y) implies v.has_back_link(
                        y,
                        a,
                    ) by {
                        let m = choose|m: int| 0 <= m < outgoing@.len() && outgoing@[m] == y;
                        assert(v.has_back_link(outgoing@[m], a));
                    }
                }
                let incoming = node.backward_ids();
                let mut k: usize = 0;
                while k < incoming.len()
                    invariant
                        k <= incoming@.len(),
                        a < n,
                        n == nodes@.len(),
                        slots_wf(nodes@),
                        v == (GraphView { slots: slot_views(nodes@), free_list: empty_slots@ }),
                        v.is_live(a),
                        incoming@ == v.node(a).backward,
                        forall|m: int| 0 <= m < k ==> v.has_edge(#[trigger] incoming@[m], a),
                    decreases incoming@.len() - k,
                {
                    let s = incoming[k];
                    proof {
                        assert(v.node(a).backward.contains(s));
                        assert(v.has_back_link(a, s));
                    }
                    if s >= n {
                        assert(!v.has_edge(s, a));
                        return false;
                    }
                    match &nodes[s] {
                        Some(other) => {
                            assert(v.slots[s as int] == Some(other@));
                            let found = match other.connections_forward().get(a) {
                                Ok(_) => true,
                                Err(_) => false,
                            };
                            if !found {
                                assert(!v.has_edge(s, a));
                                return false;
                            }
                        },
                        None => {
                            assert(!v.has_edge(s, a));
                            return false;
                        },
                    }
                    k += 1;
                }
                proof {
                    assert forall|y: usize| #[trigger] v.has_back_link(a, y) implies v.has_edge(
                        y,
                        a,
                    ) by {
                        let m = choose|m: int| 0 <= m < incoming@.len() && incoming@[m] == y;
                        assert(v.has_edge(incoming@[m], a));
                    }
                }
            },
            None => {
                assert(!v.is_live(a));
            },
        }
        a += 1;
    }
    true
}

/// The number of occupied slots.
fn count_live<NodeIdT, ConnForwardT, ConnBackwardT, NodeDataT, ConnectionDataT>(
    nodes: &Vec<Option<Node<NodeIdT, ConnForwardT, ConnBackwardT, NodeDataT, ConnectionDataT>>>,
) -> (r: usize) where
    NodeIdT: UnsignedInt,
    ConnForwardT: ConnectionsForward<NodeIdT, ConnectionDataT>,
    ConnBackwardT: ConnectionsBackward<NodeIdT>,

    ensures
        r == occupied(slot_views(nodes@)),
{
    let ghost slots = slot_views(nodes@);
    let mut count: usize = 0;
    let mut i: usize = 0;
    while i < nodes.len()
        invariant
            i <= nodes@.len(),
            slots == slot_views(nodes@),
            count <= i,
            count == occupied(slots.take(i as int)),
        decreases nodes@.len() - i,
    {
        proof {
            assert(slots.take(i + 1) =~= slots.take(i as int).push(slots[i as int]));
            lemma_occupied_push(slots.take(i as int), slots[i as int]);
        }
        if nodes[i].is_some() {
            count += 1;
        }
        i += 1;
    }
    assert(slots.take(slots.len() as int) =~= slots);
    count
}

impl<NodeIdT, ConnForwardT, ConnBackwardT, NodeDataT, ConnectionDataT> VeloxGraph<
    NodeIdT,
    ConnForwardT,
    ConnBackwardT,
    NodeDataT,
    ConnectionDataT,
> where
    NodeIdT: UnsignedInt,
    ConnForwardT: ConnectionsForward<NodeIdT, ConnectionDataT>,
    ConnBackwardT: ConnectionsBackward<NodeIdT>,
 {
    /// The start of the snapshot of this graph: the encoded free list and
    /// the number of slots. The framed block of each slot follows it.
    pub fn save_header(&self) -> (r: Result<Vec<u8>, VeloxGraphError>)
        ensures
            match free_list_bytes(self@.free_list) {
                Some(free_block) => match r {
                    Ok(bytes) => free_block.len() <= u32::MAX && self@.slots.len() <= u32::MAX
                        && bytes@ == frame(free_block) + le32(self@.slots.len() as u32),
                    Err(e) => (free_block.len() > u32::MAX || self@.slots.len() > u32::MAX)
                        && e is FileFail,
                },
                None => r is Err && r->Err_0 is PostcardError,
            },
    {
        encode_header(self.empty_slots(), self.nodes_vector().len())
    }

    /// The snapshot of this graph as bytes, given the encoding of each of its
    /// slots in slot order: the free list is encoded, and everything framed.
    /// What comes out is read back as the same free list and the same blocks.
    pub fn save(&self, slot_blocks: &Vec<Vec<u8>>) -> (r: Result<Vec<u8>, VeloxGraphError>)
        ensures
            if slot_blocks@.len() != self@.slots.len() {
                r is Err && r->Err_0 is FileFail
            } else {
                match free_list_bytes(self@.free_list) {
                    Some(free_block) => match r {
                        Ok(bytes) => frameable(free_block, block_views(slot_blocks@)) && bytes@
                            == snapshot_bytes(free_block, block_views(slot_blocks@)),
                        Err(e) => !frameable(free_block, block_views(slot_blocks@)) && e is FileFail,
                    },
                    None => r is Err && r->Err_0 is PostcardError,
                }
            },
            r matches Ok(bytes) ==> reads_back(
                bytes@,
                self@.free_list,
                block_views(slot_blocks@),
            ),
    {
        if slot_blocks.len() != self.nodes_vector().len() {
            return Err(
                VeloxGraphError::FileFail("one block is needed for each slot".to_string()),
            );
        }
        encode_snapshot(self.empty_slots(), slot_blocks)
    }

    /// The graph that a snapshot describes: the slots and the free list are
    /// taken over as they are, and the live nodes are counted. An identifier
    /// that does not fit the identifier width is an overflow; a snapshot that
    /// breaks an invariant of the store is refused.
    pub fn load(
        empty_slots: Vec<usize>,
        records: Vec<Option<NodeRecord<NodeDataT, ConnectionDataT>>>,
    ) -> (r: Result<Self, VeloxGraphError>)
        ensures
            match r {
                Ok(graph) => {
                    &&& graph.wf()
                    &&& graph@ == (GraphView {
                        slots: record_views(records@),
                        free_list: empty_slots@,
                    })
                    &&& graph@.consistent()
                    &&& !snapshot_overflows::<NodeIdT, NodeDataT, ConnectionDataT>(graph@)
                },
                Err(e) => if snapshot_overflows::<NodeIdT, NodeDataT, ConnectionDataT>(
                    GraphView { slots: record_views(records@), free_list: empty_slots@ },
                ) {
                    e == VeloxGraphError::Overflow
                } else {
                    !(GraphView {
                        slots: record_views(records@),
                        free_list: empty_slots@,
                    }).consistent() && e is FileFail
                },
            },
    {
        let ghost listed = records@;
        let ghost snapshot = GraphView { slots: record_views(listed), free_list: empty_slots@ };
        let mut i: usize = 0;
        while i < empty_slots.len()
            invariant
                listed == records@,
                i <= empty_slots@.len(),
                snapshot == (GraphView { slots: record_views(listed), free_list: empty_slots@ }),
                forall|j: int| 0 <= j < i ==> #[trigger] empty_slots@[j] <= NodeIdT::max_index(),
            decreases empty_slots@.len() - i,
        {
            if !NodeIdT::fits(empty_slots[i]) {
                assert(snapshot.free_list[i as int] > NodeIdT::max_index());
                return Err(VeloxGraphError::Overflow);
            }
            i += 1;
        }
        let total = records.len();
        let mut stack = reversed(records);
        let mut nodes: Vec<
            Option<Node<NodeIdT, ConnForwardT, ConnBackwardT, NodeDataT, ConnectionDataT>>,
        > = Vec::new();
        let mut sound = true;
        let mut i: usize = 0;
        while i < total
            invariant
                listed == records@,
                i <= total == listed.len(),
                snapshot == (GraphView { slots: record_views(listed), free_list: empty_slots@ }),
                stack@.len() == total - i,
                forall|m: int| 0 <= m < stack@.len() ==> #[trigger] stack@[m] == listed[total - 1 - m],
                forall|j: int|
                    0 <= j < i && (#[trigger] listed[j]) is Some ==> !node_overflows::<
                        NodeIdT,
                        NodeDataT,
                        ConnectionDataT,
                    >(listed[j]->0@),
                sound ==> nodes@.len() == i && slots_wf(nodes@) && slot_views(nodes@)
                    == snapshot.slots.take(i as int),
                sound ==> forall|j: int|
                    0 <= j < i && (#[trigger] listed[j]) is Some ==> well_listed(
                        listed[j]->0@,
                        j as usize,
                    ),
                !sound ==> exists|j: int|
                    0 <= j < i && (#[trigger] listed[j]) is Some && !well_listed(
                        listed[j]->0@,
                        j as usize,
                    ),
            decreases total - i,
        {
            let ghost built = nodes@;
            match stack.pop() {
                Some(Some(record)) => {
                    assert(listed[i as int] == Some(record));
                    if record_overflows::<NodeIdT, NodeDataT, ConnectionDataT>(&record) {
                        assert(snapshot.slots[i as int] == Some(record@));
                        assert(snapshot_overflows::<NodeIdT, NodeDataT, ConnectionDataT>(snapshot));
                        return Err(VeloxGraphError::Overflow);
                    }
                    if sound {
                        match build_node(record, i) {
                            Some(node) => {
                                nodes.push(Some(node));
                                assert(slot_views(nodes@) =~= snapshot.slots.take(i + 1));
                            },
                            None => {
                                sound = false;
                            },
                        }
                    }
                },
                Some(None) => {
                    assert(listed[i as int] is None);
                    if sound {
                        nodes.push(None);
                        assert(slot_views(nodes@) =~= snapshot.slots.take(i + 1));
                    }
                },
                None => {},
            }
            i += 1;
        }
        proof {
            assert(snapshot.slots.take(total as int) =~= snapshot.slots);
            assert(!snapshot_overflows::<NodeIdT, NodeDataT, ConnectionDataT>(snapshot)) by {
                assert forall|j: int|
                    0 <= j < snapshot.slots.len() && (#[trigger] snapshot.slots[j])
                        is Some implies !node_overflows::<NodeIdT, NodeDataT, ConnectionDataT>(
                    snapshot.slots[j]->0,
                ) by {
                    assert(listed[j] is Some);
                }
            }
        }
        if !sound {
            proof {
                let j = choose|j: int|
                    0 <= j < total && (#[trigger] listed[j]) is Some && !well_listed(
                        listed[j]->0@,
                        j as usize,
                    );
                assert(snapshot.is_live(j as usize));
                assert(snapshot.node(j as usize) == listed[j]->0@);
            }
            return Err(VeloxGraphError::FileFail("the snapshot is not consistent".to_string()));
        }
        if !free_list_is_exact(&nodes, &empty_slots) {
            return Err(VeloxGraphError::FileFail("the snapshot is not consistent".to_string()));
        }
        if !is_cross_referenced(&nodes, &empty_slots) {
            return Err(VeloxGraphError::FileFail("the snapshot is not consistent".to_string()));
        }
        let num_entries = count_live(&nodes);
        proof {
            assert forall|j: usize| #[trigger] snapshot.is_live(j) implies snapshot.node(j).id == j
                && targets(snapshot.node(j).forward).no_duplicates() && snapshot.node(
                j,
            ).backward.no_duplicates() by {
                assert(listed[j as int] is Some);
                assert(well_listed(listed[j as int]->0@, j));
            }
            if total > 0 {
                let last = (total - 1) as usize;
                if snapshot.slots[last as int] is Some {
                    assert(snapshot.is_live(last));
                    assert(listed[last as int] is Some);
                } else {
                    assert(snapshot.free_list.contains(last));
                    let m = choose|m: int|
                        0 <= m < snapshot.free_list.len() && snapshot.free_list[m] == last;
                    assert(empty_slots@[m] <= NodeIdT::max_index());
                }
            }
        }
        Ok(VeloxGraph::assemble(nodes, empty_slots, num_entries))
    }
}

} // verus!
