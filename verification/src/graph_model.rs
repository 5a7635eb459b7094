//! The graph as a plain value: the slot sequence and the free list, the
//! invariants that tie them together, and what each operation of the store
//! does to them.

use crate::error::VeloxGraphError;
use crate::model::{
    backward_create, backward_delete, forward_remove, forward_set, lemma_backward_create,
    lemma_backward_delete, lemma_forward_remove, lemma_forward_set, targets, EdgeView,
};
use crate::unsigned_int::UnsignedInt;
use vstd::prelude::*;

verus! {

/// A node as a plain value.
pub struct NodeView<N, C> {
    /// The identifier of the node, which is the index of its slot.
    pub id: usize,
    /// The payload of the node.
    pub data: N,
    /// The connections that leave the node, in stored order.
    pub forward: Seq<EdgeView<C>>,
    /// The nodes that point at the node, in stored order.
    pub backward: Seq<usize>,
}

/// A graph as a plain value.
pub struct GraphView<N, C> {
    /// The arena: a slot is occupied by a node or free.
    pub slots: Seq<Option<NodeView<N, C>>>,
    /// The free slots, the one freed last at the end.
    pub free_list: Seq<usize>,
}

/// A node without connections.
pub open spec fn fresh_node<N, C>(id: usize, data: N) -> NodeView<N, C> {
    NodeView { id, data, forward: Seq::empty(), backward: Seq::empty() }
}

/// Two nodes that differ in their payload at most.
pub open spec fn same_links<N, C>(a: NodeView<N, C>, b: NodeView<N, C>) -> bool {
    a.id == b.id && a.forward == b.forward && a.backward == b.backward
}

/// A node that has lost every connection to and from `id`.
pub open spec fn detach<N, C>(node: NodeView<N, C>, id: usize) -> NodeView<N, C> {
    NodeView {
        id: node.id,
        data: node.data,
        forward: forward_remove(node.forward, id),
        backward: backward_delete(node.backward, id),
    }
}

/// A node holds an identifier beyond what the identifier width `I` can hold.
pub open spec fn node_overflows<I: UnsignedInt, N, C>(node: NodeView<N, C>) -> bool {
    ||| node.id > I::max_index()
    ||| exists|j: int|
        0 <= j < node.forward.len() && (#[trigger] node.forward[j]).target > I::max_index()
    ||| exists|j: int| 0 <= j < node.backward.len() && #[trigger] node.backward[j] > I::max_index()
}

/// A graph holds an identifier beyond what the identifier width `I` can hold.
pub open spec fn snapshot_overflows<I: UnsignedInt, N, C>(v: GraphView<N, C>) -> bool {
    ||| exists|j: int| 0 <= j < v.free_list.len() && #[trigger] v.free_list[j] > I::max_index()
    ||| exists|j: int|
        0 <= j < v.slots.len() && (#[trigger] v.slots[j]) is Some && node_overflows::<I, N, C>(
            v.slots[j]->0,
        )
}

/// A node stands in its own slot and lists no target and no predecessor twice.
pub open spec fn well_listed<N, C>(node: NodeView<N, C>, slot: usize) -> bool {
    &&& node.id == slot
    &&& targets(node.forward).no_duplicates()
    &&& node.backward.no_duplicates()
}

/// The number of occupied slots.
pub open spec fn occupied<N, C>(slots: Seq<Option<NodeView<N, C>>>) -> nat
    decreases slots.len(),
{
    if slots.len() == 0 {
        0
    } else {
        occupied(slots.drop_last()) + if slots.last() is Some {
            1nat
        } else {
            0nat
        }
    }
}

impl<N, C> GraphView<N, C> {
    /// The slot `id` exists and holds a node.
    pub open spec fn is_live(self, id: usize) -> bool {
        id < self.slots.len() && self.slots[id as int] is Some
    }

    /// The node in slot `id`.
    pub open spec fn node(self, id: usize) -> NodeView<N, C>
        recommends
            self.is_live(id),
    {
        self.slots[id as int]->0
    }

    /// The live node `a` stores a forward connection to `b`.
    pub open spec fn has_edge(self, a: usize, b: usize) -> bool {
        self.is_live(a) && targets(self.node(a).forward).contains(b)
    }

    /// The live node `b` records `a` as a predecessor.
    pub open spec fn has_back_link(self, b: usize, a: usize) -> bool {
        self.is_live(b) && self.node(b).backward.contains(a)
    }

    /// The number of live nodes.
    pub open spec fn live_count(self) -> nat {
        occupied(self.slots)
    }

    /// A slot index stands in the free list exactly when its slot is free,
    /// and stands there once.
    pub open spec fn free_list_exact(self) -> bool {
        &&& self.free_list.no_duplicates()
        &&& forall|i: usize| #[trigger]
            self.free_list.contains(i) <==> (i < self.slots.len() && self.slots[i as int] is None)
    }

    /// Every forward connection has its backward link and every backward link
    /// its forward connection, both on live nodes.
    pub open spec fn cross_referenced(self) -> bool {
        forall|a: usize, b: usize|
            #![trigger self.has_edge(a, b)]
            #![trigger self.has_back_link(b, a)]
            self.has_edge(a, b) <==> self.has_back_link(b, a)
    }

    /// A live node is identified by the index of its slot.
    pub open spec fn ids_match(self) -> bool {
        forall|i: usize| #[trigger] self.is_live(i) ==> self.node(i).id == i
    }

    /// No node lists a target or a predecessor twice.
    pub open spec fn listings_distinct(self) -> bool {
        forall|i: usize| #[trigger]
            self.is_live(i) ==> targets(self.node(i).forward).no_duplicates() && self.node(
                i,
            ).backward.no_duplicates()
    }

    /// The invariants of the store.
    pub open spec fn consistent(self) -> bool {
        &&& self.free_list_exact()
        &&& self.cross_referenced()
        &&& self.ids_match()
        &&& self.listings_distinct()
    }

    /// Why slot `id` cannot be used, if it cannot.
    pub open spec fn slot_error(self, id: usize) -> Option<VeloxGraphError> {
        if id >= self.slots.len() {
            Some(VeloxGraphError::SlotNotAllocated(id))
        } else if self.slots[id as int] is None {
            Some(VeloxGraphError::SlotNotUsed(id))
        } else {
            None
        }
    }

    /// Why no connection from `a` to `b` can be touched, if none can: the
    /// second endpoint is looked at first.
    pub open spec fn endpoint_error(self, a: usize, b: usize) -> Option<VeloxGraphError> {
        if self.slot_error(b) is Some {
            self.slot_error(b)
        } else {
            self.slot_error(a)
        }
    }

    /// The identifier that the next created node gets: the slot freed last,
    /// or a new slot at the end where none is free.
    pub open spec fn next_id(self) -> usize {
        if self.free_list.len() > 0 {
            self.free_list.last()
        } else {
            self.slots.len() as usize
        }
    }

    /// The graph after a node with payload `data` was created.
    pub open spec fn create(self, data: N) -> Self {
        let node = Some(fresh_node(self.next_id(), data));
        if self.free_list.len() > 0 {
            GraphView {
                slots: self.slots.update(self.free_list.last() as int, node),
                free_list: self.free_list.drop_last(),
            }
        } else {
            GraphView { slots: self.slots.push(node), free_list: self.free_list }
        }
    }

    /// The graph after the live node `id` was deleted: every other node has
    /// lost its connections to and from `id`; the last slot is cut off, any
    /// other slot is marked free and pushed onto the free list.
    pub open spec fn delete(self, id: usize) -> Self {
        let cleaned = Seq::new(
            self.slots.len(),
            |j: int|
                match self.slots[j] {
                    Some(node) => Some(detach(node, id)),
                    None => None,
                },
        );
        if id + 1 == self.slots.len() {
            GraphView { slots: cleaned.drop_last(), free_list: self.free_list }
        } else {
            GraphView { slots: cleaned.update(id as int, None), free_list: self.free_list.push(id) }
        }
    }

    /// The graph after the connection from `a` to `b` was set to `data`.
    pub open spec fn connect(self, a: usize, b: usize, data: C) -> Self {
        let first = self.node(a);
        let with_forward = self.slots.update(
            a as int,
            Some(
                NodeView {
                    id: first.id,
                    data: first.data,
                    forward: forward_set(first.forward, b, data),
                    backward: first.backward,
                },
            ),
        );
        let second = with_forward[b as int]->0;
        GraphView {
            slots: with_forward.update(
                b as int,
                Some(
                    NodeView {
                        id: second.id,
                        data: second.data,
                        forward: second.forward,
                        backward: backward_create(second.backward, a),
                    },
                ),
            ),
            free_list: self.free_list,
        }
    }

    /// The graph after the connection from `a` to `b` was removed.
    pub open spec fn disconnect(self, a: usize, b: usize) -> Self {
        let first = self.node(a);
        let without_forward = self.slots.update(
            a as int,
            Some(
                NodeView {
                    id: first.id,
                    data: first.data,
                    forward: forward_remove(first.forward, b),
                    backward: first.backward,
                },
            ),
        );
        let second = without_forward[b as int]->0;
        GraphView {
            slots: without_forward.update(
                b as int,
                Some(
                    NodeView {
                        id: second.id,
                        data: second.data,
                        forward: second.forward,
                        backward: backward_delete(second.backward, a),
                    },
                ),
            ),
            free_list: self.free_list,
        }
    }
}

/// Where the invariants hold, a forward connection and its backward link
/// stand together, and the nodes at both ends are live: no node refers to a
/// slot that is free or was never there.
pub proof fn lemma_edges_join_live_nodes<N, C>(v: GraphView<N, C>, a: usize, b: usize)
    requires
        v.consistent(),
        v.has_edge(a, b) || v.has_back_link(b, a),
    ensures
        v.is_live(a),
        v.is_live(b),
        v.has_edge(a, b),
        v.has_back_link(b, a),
{
}

/// Replacing one slot changes the number of occupied slots by what the slot
/// held and what it holds now.
pub proof fn lemma_occupied_update<N, C>(
    slots: Seq<Option<NodeView<N, C>>>,
    i: int,
    slot: Option<NodeView<N, C>>,
)
    requires
        0 <= i < slots.len(),
    ensures
        occupied(slots.update(i, slot)) + (if slots[i] is Some {
            1nat
        } else {
            0nat
        }) == occupied(slots) + (if slot is Some {
            1nat
        } else {
            0nat
        }),
    decreases slots.len(),
{
    let updated = slots.update(i, slot);
    if i == slots.len() - 1 {
        assert(updated.drop_last() =~= slots.drop_last());
    } else {
        assert(updated.drop_last() =~= slots.drop_last().update(i, slot));
        lemma_occupied_update(slots.drop_last(), i, slot);
    }
}

/// Two slot sequences that are occupied at the same places hold equally many
/// nodes.
pub proof fn lemma_occupied_same_shape<N, C>(
    a: Seq<Option<NodeView<N, C>>>,
    b: Seq<Option<NodeView<N, C>>>,
)
    requires
        a.len() == b.len(),
        forall|i: int| 0 <= i < a.len() ==> (a[i] is Some <==> b[i] is Some),
    ensures
        occupied(a) == occupied(b),
    decreases a.len(),
{
    if a.len() > 0 {
        lemma_occupied_same_shape(a.drop_last(), b.drop_last());
    }
}

/// Appending a slot adds it to the count where it is occupied.
pub proof fn lemma_occupied_push<N, C>(
    slots: Seq<Option<NodeView<N, C>>>,
    slot: Option<NodeView<N, C>>,
)
    ensures
        occupied(slots.push(slot)) == occupied(slots) + (if slot is Some {
            1nat
        } else {
            0nat
        }),
{
    assert(slots.push(slot).drop_last() =~= slots);
}

/// No more slots are occupied than there are.
pub proof fn lemma_occupied_bounded<N, C>(slots: Seq<Option<NodeView<N, C>>>)
    ensures
        occupied(slots) <= slots.len(),
    decreases slots.len(),
{
    if slots.len() > 0 {
        lemma_occupied_bounded(slots.drop_last());
    }
}

/// Changing the payload of a live node keeps the invariants and the number of
/// live nodes.
pub proof fn lemma_payload_change<N, C>(v: GraphView<N, C>, id: usize, node: NodeView<N, C>)
    requires
        v.consistent(),
        v.is_live(id),
        same_links(node, v.node(id)),
    ensures
        (GraphView { slots: v.slots.update(id as int, Some(node)), free_list: v.free_list }).consistent(),
        (GraphView {
            slots: v.slots.update(id as int, Some(node)),
            free_list: v.free_list,
        }).live_count() == v.live_count(),
{
    let w = GraphView { slots: v.slots.update(id as int, Some(node)), free_list: v.free_list };
    lemma_occupied_same_shape(v.slots, w.slots);
    assert forall|i: usize| #[trigger] w.is_live(i) <==> v.is_live(i) by {}
    assert forall|i: usize| #[trigger]
        w.free_list.contains(i) <==> (i < w.slots.len() && w.slots[i as int] is None) by {
        assert(v.free_list.contains(i) <==> (i < v.slots.len() && v.slots[i as int] is None));
    }
    assert forall|i: usize| #[trigger] w.is_live(i) implies w.node(i).id == i && targets(
        w.node(i).forward,
    ).no_duplicates() && w.node(i).backward.no_duplicates() by {
        assert(v.is_live(i));
    }
    assert forall|x: usize, y: usize|
        #![trigger w.has_edge(x, y)]
        #![trigger w.has_back_link(y, x)]
        w.has_edge(x, y) <==> w.has_back_link(y, x) by {
        assert(v.has_edge(x, y) <==> v.has_back_link(y, x));
        assert(w.has_edge(x, y) <==> v.has_edge(x, y));
        assert(w.has_back_link(y, x) <==> v.has_back_link(y, x));
    }
}

/// Creating a node keeps the invariants, adds one live node, and hands out
/// the slot freed last before the slot sequence grows.
pub proof fn lemma_create<N, C>(v: GraphView<N, C>, data: N)
    requires
        v.consistent(),
        v.free_list.len() > 0 || v.slots.len() <= usize::MAX,
    ensures
        v.create(data).consistent(),
        v.create(data).live_count() == v.live_count() + 1,
        v.create(data).is_live(v.next_id()),
        !v.is_live(v.next_id()),
        v.free_list.len() > 0 ==> v.create(data).slots.len() == v.slots.len(),
{
    let w = v.create(data);
    let id = v.next_id();
    if v.free_list.len() > 0 {
        assert(v.free_list.contains(v.free_list.last()));
        lemma_occupied_update(v.slots, id as int, w.slots[id as int]);
        assert forall|i: usize| #[trigger]
            w.free_list.contains(i) <==> (i < w.slots.len() && w.slots[i as int] is None) by {
            if w.free_list.contains(i) {
                let j = choose|j: int| 0 <= j < w.free_list.len() && w.free_list[j] == i;
                assert(v.free_list[j] == i);
                assert(v.free_list.contains(i));
            }
            if i < w.slots.len() && w.slots[i as int] is None {
                assert(v.free_list.contains(i));
                let j = choose|j: int| 0 <= j < v.free_list.len() && v.free_list[j] == i;
                assert(w.free_list[j] == i);
            }
        }
    } else {
        lemma_occupied_push(v.slots, w.slots[id as int]);
        assert forall|i: usize| #[trigger]
            w.free_list.contains(i) <==> (i < w.slots.len() && w.slots[i as int] is None) by {
            if w.free_list.contains(i) {
                assert(v.free_list.contains(i));
            }
        }
    }
    assert forall|i: usize| #[trigger] w.is_live(i) implies w.node(i).id == i && targets(
        w.node(i).forward,
    ).no_duplicates() && w.node(i).backward.no_duplicates() by {
        if i != id {
            assert(v.is_live(i));
        }
    }
    assert forall|a: usize, b: usize|
        #![trigger w.has_edge(a, b)]
        #![trigger w.has_back_link(b, a)]
        w.has_edge(a, b) <==> w.has_back_link(b, a) by {
        assert(v.has_edge(a, b) <==> v.has_back_link(b, a));
        assert(v.has_edge(b, a) <==> v.has_back_link(a, b));
        if a != id && b != id {
            assert(w.has_edge(a, b) <==> v.has_edge(a, b));
            assert(w.has_back_link(b, a) <==> v.has_back_link(b, a));
        } else if a == id {
            assert(!w.has_edge(a, b));
            if b != id {
                assert(w.has_back_link(b, a) <==> v.has_back_link(b, a));
            }
        } else {
            assert(!w.has_back_link(b, a));
            assert(w.has_edge(a, b) <==> v.has_edge(a, b));
        }
    }
}

/// Deleting a live node keeps the invariants and removes one live node: no
/// remaining node refers to the deleted one.
pub proof fn lemma_delete<N, C>(v: GraphView<N, C>, id: usize)
    requires
        v.consistent(),
        v.is_live(id),
    ensures
        v.delete(id).consistent(),
        v.delete(id).live_count() + 1 == v.live_count(),
        !v.delete(id).is_live(id),
        forall|a: usize| !(#[trigger] v.delete(id).has_edge(a, id)),
        forall|a: usize| !(#[trigger] v.delete(id).has_back_link(a, id)),
{
    let w = v.delete(id);
    let cleaned = Seq::new(
        v.slots.len(),
        |j: int|
            match v.slots[j] {
                Some(node) => Some(detach(node, id)),
                None => None,
            },
    );
    lemma_occupied_same_shape(v.slots, cleaned);
    if id + 1 == v.slots.len() {
        assert(cleaned.last() is Some);
        assert forall|i: usize| #[trigger]
            w.free_list.contains(i) <==> (i < w.slots.len() && w.slots[i as int] is None) by {
            assert(v.free_list.contains(i) <==> (i < v.slots.len() && v.slots[i as int] is None));
        }
    } else {
        lemma_occupied_update(cleaned, id as int, None);
        assert(!v.free_list.contains(id));
        assert forall|x: int, y: int|
            0 <= x < w.free_list.len() && 0 <= y < w.free_list.len() && x != y implies w.free_list[x]
            != w.free_list[y] by {
            if x < v.free_list.len() {
                assert(v.free_list.contains(v.free_list[x]));
            }
            if y < v.free_list.len() {
                assert(v.free_list.contains(v.free_list[y]));
            }
        }
        assert forall|i: usize| #[trigger]
            w.free_list.contains(i) <==> (i < w.slots.len() && w.slots[i as int] is None) by {
            assert(v.free_list.contains(i) <==> (i < v.slots.len() && v.slots[i as int] is None));
            if w.free_list.contains(i) {
                let j = choose|j: int| 0 <= j < w.free_list.len() && w.free_list[j] == i;
                if j < v.free_list.len() {
                    assert(v.free_list[j] == i);
                    assert(v.free_list.contains(i));
                }
            }
            if i < w.slots.len() && w.slots[i as int] is None {
                if i == id {
                    assert(w.free_list[v.free_list.len() as int] == i);
                } else {
                    assert(v.free_list.contains(i));
                    let j = choose|j: int| 0 <= j < v.free_list.len() && v.free_list[j] == i;
                    assert(w.free_list[j] == i);
                }
            }
        }
    }
    assert forall|i: usize| #[trigger] w.is_live(i) implies v.is_live(i) && i != id && w.node(i)
        == detach(v.node(i), id) by {}
    assert forall|i: usize| #[trigger] w.is_live(i) implies w.node(i).id == i && targets(
        w.node(i).forward,
    ).no_duplicates() && w.node(i).backward.no_duplicates() by {
        assert(v.is_live(i));
        lemma_forward_remove(v.node(i).forward, id);
        lemma_backward_delete(v.node(i).backward, id);
    }
    assert forall|a: usize, b: usize|
        #![trigger w.has_edge(a, b)]
        #![trigger w.has_back_link(b, a)]
        (w.has_edge(a, b) <==> (v.has_edge(a, b) && a != id && b != id)) && (w.has_back_link(b, a)
            <==> (v.has_back_link(b, a) && a != id && b != id)) by {
        assert(v.has_edge(a, b) <==> v.has_back_link(b, a));
        if v.is_live(a) {
            lemma_forward_remove(v.node(a).forward, id);
        }
        if v.is_live(b) {
            lemma_backward_delete(v.node(b).backward, id);
        }
        if a != id && v.is_live(a) {
            assert(w.is_live(a));
        }
        if b != id && v.is_live(b) {
            assert(w.is_live(b));
        }
    }
    assert forall|a: usize, b: usize|
        #![trigger w.has_edge(a, b)]
        #![trigger w.has_back_link(b, a)]
        w.has_edge(a, b) <==> w.has_back_link(b, a) by {
        assert(v.has_edge(a, b) <==> v.has_back_link(b, a));
    }
}

/// Setting a connection between two live nodes keeps the invariants and the
/// number of live nodes, and adds exactly that edge and its backward link.
pub proof fn lemma_connect<N, C>(v: GraphView<N, C>, a: usize, b: usize, data: C)
    requires
        v.consistent(),
        v.is_live(a),
        v.is_live(b),
    ensures
        v.connect(a, b, data).consistent(),
        v.connect(a, b, data).live_count() == v.live_count(),
        forall|x: usize, y: usize| #[trigger]
            v.connect(a, b, data).has_edge(x, y) <==> (v.has_edge(x, y) || (x == a && y == b)),
{
    let w = v.connect(a, b, data);
    lemma_occupied_same_shape(v.slots, w.slots);
    lemma_forward_set(v.node(a).forward, b, data);
    lemma_backward_create(v.node(b).backward, a);
    assert forall|i: usize| #[trigger] w.is_live(i) <==> v.is_live(i) by {}
    assert forall|i: usize| #[trigger]
        w.free_list.contains(i) <==> (i < w.slots.len() && w.slots[i as int] is None) by {
        assert(v.free_list.contains(i) <==> (i < v.slots.len() && v.slots[i as int] is None));
    }
    assert forall|i: usize| #[trigger] w.is_live(i) implies w.node(i).id == i && targets(
        w.node(i).forward,
    ).no_duplicates() && w.node(i).backward.no_duplicates() by {
        assert(v.is_live(i));
    }
    assert forall|x: usize, y: usize|
        #![trigger w.has_edge(x, y)]
        #![trigger w.has_back_link(y, x)]
        (w.has_edge(x, y) <==> (v.has_edge(x, y) || (x == a && y == b))) && (w.has_back_link(y, x)
            <==> (v.has_back_link(y, x) || (x == a && y == b))) by {
        assert(w.is_live(x) <==> v.is_live(x));
        assert(w.is_live(y) <==> v.is_live(y));
        if v.is_live(x) && x != a {
            assert(w.node(x).forward == v.node(x).forward);
        }
        if v.is_live(y) && y != b {
            assert(w.node(y).backward == v.node(y).backward);
        }
    }
    assert forall|x: usize, y: usize|
        #![trigger w.has_edge(x, y)]
        #![trigger w.has_back_link(y, x)]
        w.has_edge(x, y) <==> w.has_back_link(y, x) by {
        assert(v.has_edge(x, y) <==> v.has_back_link(y, x));
    }
}

/// Removing a connection between two live nodes keeps the invariants and the
/// number of live nodes, and removes exactly that edge and its backward link.
pub proof fn lemma_disconnect<N, C>(v: GraphView<N, C>, a: usize, b: usize)
    requires
        v.consistent(),
        v.is_live(a),
        v.is_live(b),
    ensures
        v.disconnect(a, b).consistent(),
        v.disconnect(a, b).live_count() == v.live_count(),
        forall|x: usize, y: usize| #[trigger]
            v.disconnect(a, b).has_edge(x, y) <==> (v.has_edge(x, y) && !(x == a && y == b)),
{
    let w = v.disconnect(a, b);
    lemma_occupied_same_shape(v.slots, w.slots);
    lemma_forward_remove(v.node(a).forward, b);
    lemma_backward_delete(v.node(b).backward, a);
    assert forall|i: usize| #[trigger] w.is_live(i) <==> v.is_live(i) by {}
    assert forall|i: usize| #[trigger]
        w.free_list.contains(i) <==> (i < w.slots.len() && w.slots[i as int] is None) by {
        assert(v.free_list.contains(i) <==> (i < v.slots.len() && v.slots[i as int] is None));
    }
    assert forall|i: usize| #[trigger] w.is_live(i) implies w.node(i).id == i && targets(
        w.node(i).forward,
    ).no_duplicates() && w.node(i).backward.no_duplicates() by {
        assert(v.is_live(i));
    }
    assert forall|x: usize, y: usize|
        #![trigger w.has_edge(x, y)]
        #![trigger w.has_back_link(y, x)]
        (w.has_edge(x, y) <==> (v.has_edge(x, y) && !(x == a && y == b))) && (w.has_back_link(y, x)
            <==> (v.has_back_link(y, x) && !(x == a && y == b))) by {
        assert(w.is_live(x) <==> v.is_live(x));
        assert(w.is_live(y) <==> v.is_live(y));
        if v.is_live(x) && x != a {
            assert(w.node(x).forward == v.node(x).forward);
        }
        if v.is_live(y) && y != b {
            assert(w.node(y).backward == v.node(y).backward);
        }
    }
    assert forall|x: usize, y: usize|
        #![trigger w.has_edge(x, y)]
        #![trigger w.has_back_link(y, x)]
        w.has_edge(x, y) <==> w.has_back_link(y, x) by {
        assert(v.has_edge(x, y) <==> v.has_back_link(y, x));
    }
}

/// The graph after one node was created for each payload, in order.
pub open spec fn create_many<N, C>(v: GraphView<N, C>, payloads: Seq<N>) -> GraphView<N, C>
    decreases payloads.len(),
{
    if payloads.len() == 0 {
        v
    } else {
        create_many(v.create(payloads.first()), payloads.drop_first())
    }
}

/// The identifiers that these nodes get, in order.
pub open spec fn created_ids<N, C>(v: GraphView<N, C>, payloads: Seq<N>) -> Seq<usize>
    decreases payloads.len(),
{
    if payloads.len() == 0 {
        Seq::empty()
    } else {
        seq![v.next_id()] + created_ids(v.create(payloads.first()), payloads.drop_first())
    }
}

/// Deleting a live node that is not in the last slot leaves the slot sequence
/// as long as it was and puts the slot at the end of the free list.
pub proof fn lemma_delete_frees_slot<N, C>(v: GraphView<N, C>, id: usize)
    requires
        v.is_live(id),
        id + 1 != v.slots.len(),
    ensures
        v.delete(id).slots.len() == v.slots.len(),
        v.delete(id).free_list == v.free_list.push(id),
        v.delete(id).next_id() == id,
{
}

/// Created nodes use the free slots, the one freed last first, and only then
/// make the slot sequence grow.
pub proof fn lemma_slot_reuse<N, C>(v: GraphView<N, C>, payloads: Seq<N>)
    requires
        v.consistent(),
        v.slots.len() + payloads.len() <= usize::MAX,
    ensures
        created_ids(v, payloads).len() == payloads.len(),
        forall|i: int|
            0 <= i < payloads.len() ==> #[trigger] created_ids(v, payloads)[i] == if i
                < v.free_list.len() {
                v.free_list[v.free_list.len() - 1 - i] as int
            } else {
                v.slots.len() + i - v.free_list.len()
            },
        create_many(v, payloads).slots.len() == if payloads.len() <= v.free_list.len() {
            v.slots.len() as int
        } else {
            v.slots.len() + payloads.len() - v.free_list.len()
        },
        create_many(v, payloads).free_list == v.free_list.take(
            if payloads.len() <= v.free_list.len() {
                v.free_list.len() - payloads.len()
            } else {
                0
            },
        ),
    decreases payloads.len(),
{
    if payloads.len() == 0 {
        assert(v.free_list.take(v.free_list.len() as int) =~= v.free_list);
    } else {
        let w = v.create(payloads.first());
        let rest = payloads.drop_first();
        let f = v.free_list.len() as int;
        lemma_create(v, payloads.first());
        if f > 0 {
            assert(v.free_list.contains(v.free_list.last()));
        }
        assert(rest.len() == payloads.len() - 1);
        assert(w.slots.len() == if f > 0 {
            v.slots.len() as int
        } else {
            v.slots.len() as int + 1
        });
        assert(w.free_list.len() == if f > 0 {
            f - 1
        } else {
            0
        });
        lemma_slot_reuse(w, rest);
        let ids = created_ids(v, payloads);
        let later = created_ids(w, rest);
        assert(ids =~= seq![v.next_id()] + later);
        assert forall|i: int| 0 <= i < payloads.len() implies #[trigger] ids[i] == if i < f {
            v.free_list[f - 1 - i] as int
        } else {
            v.slots.len() + i - f
        } by {
            if i > 0 {
                assert(ids[i] == later[i - 1]);
                if i < f {
                    assert(w.free_list[f - 1 - i] == v.free_list[f - 1 - i]);
                }
            }
        }
        let kept = if payloads.len() <= f {
            f - payloads.len()
        } else {
            0
        };
        assert(create_many(v, payloads) == create_many(w, rest));
        if f > 0 {
            assert(w.free_list.take(kept) =~= v.free_list.take(kept));
        } else {
            assert(w.free_list.take(0) =~= v.free_list.take(0));
        }
    }
}

} // verus!
