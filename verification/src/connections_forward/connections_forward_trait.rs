use crate::connection::{edge_views, ForwardConnection};
use crate::connections_forward::private;
use crate::error::VeloxGraphError;
use crate::model::{forward_get, forward_remove, forward_set, targets, EdgeView};
use crate::unsigned_int::UnsignedInt;
use vstd::prelude::*;

verus! {

/// The mutating half of a forward adjacency index: a listing of connections
/// in which no target occurs twice.
pub trait ConnectionsForwardInternal<NodeIdT: UnsignedInt, ConnectionDataT>:
    private::Sealed + Sized {
    /// The connections in stored order.
    spec fn view(&self) -> Seq<EdgeView<ConnectionDataT>>;

    /// The strategy's own bookkeeping is in order.
    spec fn wf(&self) -> bool;

    /// A well-formed index holds each target once, and only targets that the
    /// identifier width can hold.
    proof fn lemma_wf(&self)
        requires
            self.wf(),
        ensures
            targets(self@).no_duplicates(),
            forall|i: int| 0 <= i < self@.len() ==> (#[trigger] self@[i]).target <= NodeIdT::max_index(),
    ;

    fn new() -> (r: Self)
        ensures
            r.wf(),
            r@ == Seq::<EdgeView<ConnectionDataT>>::empty(),
    ;

    /// Stores `connection_data` for the target `node_id_value`: in place where
    /// the target is present, at the end where it is not.
    fn set(&mut self, node_id_value: usize, connection_data: ConnectionDataT)
        requires
            old(self).wf(),
            node_id_value <= NodeIdT::max_index(),
        ensures
            final(self).wf(),
            final(self)@ == forward_set(old(self)@, node_id_value, connection_data),
    ;

    /// Removes the connection to `node_id_value`, moving the last connection
    /// into its place. The order of the listing is not stable across removals.
    fn remove(&mut self, node_id_value: usize)
        requires
            old(self).wf(),
        ensures
            final(self).wf(),
            final(self)@ == forward_remove(old(self)@, node_id_value),
    ;
}

/// The reading half of a forward adjacency index.
pub trait ConnectionsForward<NodeIdT: UnsignedInt, ConnectionDataT>: ConnectionsForwardInternal<
    NodeIdT,
    ConnectionDataT,
> {
    /// The full listing, in stored order.
    fn data(&self) -> (r: &Vec<ForwardConnection<NodeIdT, ConnectionDataT>>)
        ensures
            edge_views(r@) == self@,
    ;

    /// The connection to `node_id`.
    fn get(&self, node_id: usize) -> (r: Result<
        &ForwardConnection<NodeIdT, ConnectionDataT>,
        VeloxGraphError,
    >)
        requires
            self.wf(),
        ensures
            match r {
                Ok(connection) => forward_get(self@, node_id) == Some(connection@),
                Err(e) => forward_get(self@, node_id) is None && e
                    == VeloxGraphError::ConnectionNotSet(node_id),
            },
    ;
}

} // verus!
