use crate::connection::{source_views, BackwardConnection};
use crate::connections_backward::private;
use crate::model::{backward_create, backward_delete};
use crate::unsigned_int::UnsignedInt;
use vstd::prelude::*;

verus! {

/// The mutating half of a backward adjacency index: the predecessors of a
/// node, each recorded once, without payload.
pub trait ConnectionsBackwardInternal<NodeIdT: UnsignedInt>: private::Sealed + Sized {
    /// The predecessors in stored order.
    spec fn view(&self) -> Seq<usize>;

    /// The strategy's own bookkeeping is in order.
    spec fn wf(&self) -> bool;

    /// A well-formed index holds each predecessor once, and only predecessors
    /// that the identifier width can hold.
    proof fn lemma_wf(&self)
        requires
            self.wf(),
        ensures
            self@.no_duplicates(),
            forall|i: int| 0 <= i < self@.len() ==> #[trigger] self@[i] <= NodeIdT::max_index(),
    ;

    fn new() -> (r: Self)
        ensures
            r.wf(),
            r@ == Seq::<usize>::empty(),
    ;

    /// Records the predecessor `node_id_value`; a no-op where it is recorded.
    fn create(&mut self, node_id_value: usize)
        requires
            old(self).wf(),
            node_id_value <= NodeIdT::max_index(),
        ensures
            final(self).wf(),
            final(self)@ == backward_create(old(self)@, node_id_value),
    ;

    /// Drops the predecessor `node_id_value`; a no-op where it is not recorded.
    fn delete(&mut self, node_id_value: usize)
        requires
            old(self).wf(),
        ensures
            final(self).wf(),
            final(self)@ == backward_delete(old(self)@, node_id_value),
    ;
}

/// The reading half of a backward adjacency index.
pub trait ConnectionsBackward<NodeIdT: UnsignedInt>: ConnectionsBackwardInternal<NodeIdT> {
    /// The full listing, in stored order.
    fn data(&self) -> (r: &Vec<BackwardConnection<NodeIdT>>)
        ensures
            source_views(r@) == self@,
    ;

    /// Whether `node_id` is recorded as a predecessor.
    fn contains(&self, node_id: usize) -> (r: bool)
        requires
            self.wf(),
        ensures
            r == self@.contains(node_id),
    ;
}

} // verus!
