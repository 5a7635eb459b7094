use crate::model::EdgeView;
use crate::unsigned_int::UnsignedInt;
use vstd::prelude::*;

verus! {

/// A directed edge as stored on its source node: the target and the payload.
#[derive(Clone, Debug)]
pub struct ForwardConnection<NodeIdT: UnsignedInt, ConnectionDataT> {
    pub node_id: NodeIdT,
    pub data: ConnectionDataT,
}

impl<NodeIdT: UnsignedInt, ConnectionDataT> ForwardConnection<NodeIdT, ConnectionDataT> {
    pub open spec fn view(&self) -> EdgeView<ConnectionDataT> {
        EdgeView { target: self.node_id.index(), data: self.data }
    }

    pub fn new(node_id: NodeIdT, data: ConnectionDataT) -> (r: Self)
        ensures
            r.node_id == node_id,
            r.data == data,
    {
        ForwardConnection { node_id, data }
    }

    /// The node that this connection points to.
    pub fn node_id(&self) -> (r: usize)
        ensures
            r == self@.target,
    {
        self.node_id.to_usize()
    }

    /// The payload of this connection.
    pub fn data(&self) -> (r: &ConnectionDataT)
        ensures
            *r == self@.data,
    {
        &self.data
    }
}

/// A forward connection under its short name.
pub type Connection<NodeIdT, ConnectionDataT> = ForwardConnection<NodeIdT, ConnectionDataT>;

/// The reverse reference of a directed edge as stored on its target node.
#[derive(Clone, Debug)]
pub struct BackwardConnection<NodeIdT: UnsignedInt> {
    pub node_id: NodeIdT,
}

impl<NodeIdT: UnsignedInt> BackwardConnection<NodeIdT> {
    pub open spec fn view(&self) -> usize {
        self.node_id.index()
    }

    pub fn new(node_id: NodeIdT) -> (r: Self)
        ensures
            r.node_id == node_id,
    {
        BackwardConnection { node_id }
    }

    /// The node that the edge comes from.
    pub fn node_id(&self) -> (r: usize)
        ensures
            r == self@,
    {
        self.node_id.to_usize()
    }
}

/// A stored forward listing as plain values.
pub open spec fn edge_views<NodeIdT: UnsignedInt, ConnectionDataT>(
    stored: Seq<ForwardConnection<NodeIdT, ConnectionDataT>>,
) -> Seq<EdgeView<ConnectionDataT>> {
    Seq::new(stored.len(), |i: int| stored[i]@)
}

/// A stored backward listing as plain values.
pub open spec fn source_views<NodeIdT: UnsignedInt>(
    stored: Seq<BackwardConnection<NodeIdT>>,
) -> Seq<usize> {
    Seq::new(stored.len(), |i: int| stored[i]@)
}

} // verus!
