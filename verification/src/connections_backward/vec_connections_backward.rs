use crate::connection::{source_views, BackwardConnection};
use crate::connections_backward::connections_backward_trait::{
    ConnectionsBackward, ConnectionsBackwardInternal,
};
use crate::connections_backward::private::Sealed;
use crate::model::{backward_create, lemma_position_unique, swap_remove};
use crate::unsigned_int::UnsignedInt;
use vstd::prelude::*;

verus! {

/// The flat strategy: a plain vector of predecessors that is scanned linearly.
#[derive(Clone, Debug)]
pub struct VecConnectionsBackward<NodeIdT: UnsignedInt> {
    data: Vec<BackwardConnection<NodeIdT>>,
}

impl<NodeIdT: UnsignedInt> Sealed for VecConnectionsBackward<NodeIdT> {
}

impl<NodeIdT: UnsignedInt> VecConnectionsBackward<NodeIdT> {
    /// The position at which `source` is recorded.
    fn position(&self, source: usize) -> (r: Option<usize>)
        requires
            self.wf(),
        ensures
            match r {
                Some(i) => i < self.data@.len() && self@.contains(source) && self@.index_of(source)
                    == i,
                None => !self@.contains(source),
            },
    {
        let mut i: usize = 0;
        while i < self.data.len()
            invariant
                i <= self.data@.len(),
                self.wf(),
                forall|j: int| 0 <= j < i ==> self@[j] != source,
            decreases self.data@.len() - i,
        {
            if self.data[i].node_id.to_usize() == source {
                proof {
                    assert(self@[i as int] == source);
                    lemma_position_unique(self@, i as int);
                }
                return Some(i);
            }
            i += 1;
        }
        None
    }
}

impl<NodeIdT: UnsignedInt> ConnectionsBackwardInternal<NodeIdT> for VecConnectionsBackward<
    NodeIdT,
> {
    closed spec fn view(&self) -> Seq<usize> {
        source_views(self.data@)
    }

    closed spec fn wf(&self) -> bool {
        self@.no_duplicates()
    }

    proof fn lemma_wf(&self) {
        assert forall|i: int| 0 <= i < self@.len() implies #[trigger] self@[i]
            <= NodeIdT::max_index() by {
            self.data@[i].node_id.lemma_index_bounded();
        }
    }

    fn new() -> (r: Self) {
        let r = VecConnectionsBackward { data: Vec::new() };
        assert(r@ =~= Seq::<usize>::empty());
        r
    }

    fn create(&mut self, node_id_value: usize) {
        let ghost before = self@;
        if self.position(node_id_value).is_none() {
            let node_id = NodeIdT::from_usize(node_id_value);
            self.data.push(BackwardConnection::new(node_id));
            assert(self@ =~= backward_create(before, node_id_value));
        }
        proof {
            crate::model::lemma_backward_create(before, node_id_value);
        }
    }

    fn delete(&mut self, node_id_value: usize) {
        let ghost before = self@;
        if let Some(index) = self.position(node_id_value) {
            self.data.swap_remove(index);
            assert(self@ =~= swap_remove(before, index as int));
        }
        proof {
            crate::model::lemma_backward_delete(before, node_id_value);
        }
    }
}

impl<NodeIdT: UnsignedInt> ConnectionsBackward<NodeIdT> for VecConnectionsBackward<NodeIdT> {
    fn data(&self) -> (r: &Vec<BackwardConnection<NodeIdT>>) {
        &self.data
    }

    fn contains(&self, node_id: usize) -> (r: bool) {
        self.position(node_id).is_some()
    }
}

} // verus!
