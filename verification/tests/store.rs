use velox_graph::codec::{
    decode_snapshot, encode_header, encode_snapshot, frame_block, frame_header, frame_snapshot,
    free_list_from_wire, unframe_snapshot,
};
use velox_graph::graph::{VeloxGraphHash, VeloxGraphVec};
use velox_graph::{
    BackwardConnection, ConnectionsBackward, Graph, ConnectionsBackwardInternal, ConnectionsForward,
    ConnectionsForwardInternal, ForwardConnection, HashConnectionsBackward,
    HashConnectionsForward, NodePublic, NodeRecord, UnsignedInt, VecConnectionsBackward,
    VecConnectionsForward, VeloxGraghSettings, VeloxGraph, VeloxGraphError,
};

fn forward_pairs<NodeIdT: UnsignedInt, F: ConnectionsForward<NodeIdT, u32>>(
    index: &F,
) -> Vec<(usize, u32)> {
    index
        .data()
        .iter()
        .map(|connection| (connection.node_id(), *connection.data()))
        .collect()
}

fn backward_ids<NodeIdT: UnsignedInt, B: ConnectionsBackward<NodeIdT>>(index: &B) -> Vec<usize> {
    index.data().iter().map(|connection| connection.node_id()).collect()
}

fn assert_cross_referenced<
    NodeIdT: UnsignedInt,
    F: ConnectionsForward<NodeIdT, u32>,
    B: ConnectionsBackward<NodeIdT>,
>(
    graph: &VeloxGraph<NodeIdT, F, B, u32, u32>,
) {
    let slots = graph.nodes_vector();
    let mut live = 0;
    for (a, slot) in slots.iter().enumerate() {
        match slot {
            Some(node) => {
                live += 1;
                assert_eq!(node.node_id(), a);
                assert!(!graph.empty_slots().contains(&a));
                for (b, _) in forward_pairs(node.connections_forward()) {
                    let target = slots[b].as_ref().unwrap();
                    assert!(target.connections_backward().contains(a));
                }
                for s in backward_ids(node.connections_backward()) {
                    let source = slots[s].as_ref().unwrap();
                    assert!(source.connections_forward().get(a).is_ok());
                }
            }
            None => {
                assert_eq!(graph.empty_slots().iter().filter(|&&i| i == a).count(), 1);
            }
        }
    }
    assert_eq!(graph.num_entries(), live);
    assert_eq!(graph.empty_slots().len(), slots.len() - live);
}

fn run_mixed_operations<
    NodeIdT: UnsignedInt,
    F: ConnectionsForward<NodeIdT, u32>,
    B: ConnectionsBackward<NodeIdT>,
>() {
    let mut graph: VeloxGraph<NodeIdT, F, B, u32, u32> = VeloxGraph::new();
    assert_cross_referenced(&graph);
    for i in 0..12u32 {
        graph.node_create(i);
        assert_cross_referenced(&graph);
    }
    for a in 0..12usize {
        for b in 0..12usize {
            if (a * 7 + b * 3) % 4 == 0 {
                graph.nodes_connection_set(a, b, (a * 100 + b) as u32).unwrap();
                assert_cross_referenced(&graph);
            }
        }
    }
    for (a, b) in [(0usize, 0usize), (4, 0), (3, 5), (8, 8), (1, 2)] {
        graph.nodes_connection_remove(a, b).unwrap();
        assert_cross_referenced(&graph);
    }
    for id in [5usize, 0, 11, 10, 7] {
        graph.node_delete(id).unwrap();
        assert_cross_referenced(&graph);
    }
    assert_eq!(graph.num_entries(), 7);
    assert_eq!(*graph.empty_slots(), vec![5, 0, 7]);
    assert_eq!(graph.nodes_vector().len(), 10);
    assert_eq!(graph.node_create(77), 7);
    graph.nodes_connection_set(7, 1, 1).unwrap();
    graph.nodes_connection_set(9, 7, 2).unwrap();
    assert_cross_referenced(&graph);
    let node7 = graph.node_get(7).unwrap();
    assert_eq!(forward_pairs(node7.connections_forward()), vec![(1, 1)]);
    assert_eq!(backward_ids(node7.connections_backward()), vec![9]);
}

#[test]
fn forward_and_backward_indices_mirror_each_other_vec() {
    run_mixed_operations::<usize, VecConnectionsForward<usize, u32>, VecConnectionsBackward<usize>>();
    run_mixed_operations::<u8, VecConnectionsForward<u8, u32>, VecConnectionsBackward<u8>>();
}

#[test]
fn forward_and_backward_indices_mirror_each_other_hash() {
    run_mixed_operations::<usize, HashConnectionsForward<usize, u32>, HashConnectionsBackward<usize>>(
    );
    run_mixed_operations::<u16, HashConnectionsForward<u16, u32>, HashConnectionsBackward<u16>>();
}

#[test]
fn freed_slots_are_reused_last_freed_first() {
    let mut graph: VeloxGraphVec<u32, u32, u32> = VeloxGraphVec::new();
    for i in 0..6 {
        assert_eq!(graph.node_create(i), i as usize);
    }
    graph.node_delete(1).unwrap();
    graph.node_delete(4).unwrap();
    graph.node_delete(2).unwrap();
    assert_eq!(*graph.empty_slots(), vec![1, 4, 2]);
    assert_eq!(graph.nodes_vector().len(), 6);
    assert_eq!(graph.node_create(10), 2);
    assert_eq!(graph.nodes_vector().len(), 6);
    assert_eq!(graph.node_create(11), 4);
    assert_eq!(graph.node_create(12), 1);
    assert_eq!(graph.nodes_vector().len(), 6);
    assert_eq!(*graph.empty_slots(), vec![]);
    assert_eq!(graph.node_create(13), 6);
    assert_eq!(graph.node_create(14), 7);
    assert_eq!(graph.nodes_vector().len(), 8);
    assert_eq!(graph.num_entries(), 8);
}

#[test]
fn deleting_the_last_slot_shrinks_the_arena() {
    let mut graph: VeloxGraphHash<usize, u32, u32> = VeloxGraphHash::new();
    for i in 0..4 {
        graph.node_create(i);
    }
    graph.node_delete(2).unwrap();
    assert_eq!(graph.nodes_vector().len(), 4);
    assert_eq!(*graph.empty_slots(), vec![2]);
    graph.node_delete(3).unwrap();
    assert_eq!(graph.nodes_vector().len(), 3);
    assert_eq!(*graph.empty_slots(), vec![2]);
    assert!(graph.nodes_vector()[2].is_none());
    assert_eq!(graph.num_entries(), 2);
    assert!(matches!(graph.node_get(3), Err(VeloxGraphError::SlotNotAllocated(3))));
    assert!(matches!(graph.node_get(2), Err(VeloxGraphError::SlotNotUsed(2))));
    assert_eq!(graph.node_create(9), 2);
    assert_eq!(graph.node_create(9), 3);
}

#[test]
fn backward_delete_twice_is_a_no_op() {
    let mut flat: VecConnectionsBackward<u16> = VecConnectionsBackward::new();
    flat.create(5);
    flat.create(9);
    flat.create(5);
    assert_eq!(backward_ids(&flat), vec![5, 9]);
    flat.delete(5);
    assert_eq!(backward_ids(&flat), vec![9]);
    flat.delete(5);
    assert_eq!(backward_ids(&flat), vec![9]);
    flat.delete(70_000);
    assert_eq!(backward_ids(&flat), vec![9]);

    let mut hashed: HashConnectionsBackward<u16> = HashConnectionsBackward::new();
    hashed.create(5);
    hashed.create(9);
    hashed.create(5);
    assert_eq!(backward_ids(&hashed), vec![5, 9]);
    hashed.delete(5);
    hashed.delete(5);
    hashed.delete(70_000);
    assert_eq!(backward_ids(&hashed), vec![9]);
    assert!(hashed.contains(9));
    assert!(!hashed.contains(5));
    assert!(!hashed.contains(70_000));

    let mut graph: VeloxGraphVec<usize, u32, u32> = VeloxGraphVec::new();
    graph.node_create(0);
    graph.node_create(1);
    graph.nodes_connection_set(0, 1, 4).unwrap();
    graph.nodes_connection_remove(0, 1).unwrap();
    graph.nodes_connection_remove(0, 1).unwrap();
    assert_eq!(backward_ids(graph.node_get(1).unwrap().connections_backward()), vec![]);
}

fn swap_remove_moves_the_last_connection<F: ConnectionsForward<u32, u32>>() {
    let mut index = F::new();
    index.set(10, 100);
    index.set(20, 200);
    index.set(30, 300);
    index.set(40, 400);
    index.set(20, 222);
    assert_eq!(forward_pairs(&index), vec![(10, 100), (20, 222), (30, 300), (40, 400)]);
    index.remove(20);
    assert_eq!(forward_pairs(&index), vec![(10, 100), (40, 400), (30, 300)]);
    let moved = index.get(40).unwrap();
    assert_eq!(moved.node_id(), 40);
    assert_eq!(*moved.data(), 400);
    assert!(matches!(index.get(20), Err(VeloxGraphError::ConnectionNotSet(20))));
    index.remove(20);
    index.remove(5_000_000_000);
    assert_eq!(index.data().len(), 3);
    index.remove(30);
    assert_eq!(forward_pairs(&index), vec![(10, 100), (40, 400)]);
    index.remove(10);
    index.remove(40);
    assert_eq!(forward_pairs(&index), vec![]);
    assert!(matches!(index.get(40), Err(VeloxGraphError::ConnectionNotSet(40))));
    index.set(40, 1);
    assert_eq!(forward_pairs(&index), vec![(40, 1)]);
}

#[test]
fn swap_remove_keeps_every_other_connection_reachable() {
    swap_remove_moves_the_last_connection::<VecConnectionsForward<u32, u32>>();
    swap_remove_moves_the_last_connection::<HashConnectionsForward<u32, u32>>();
}

#[test]
fn connection_on_a_missing_node_changes_nothing() {
    let mut graph: VeloxGraphVec<usize, u32, u32> = VeloxGraphVec::new();
    graph.node_create(0);
    graph.node_create(1);
    graph.node_create(2);
    graph.node_delete(1).unwrap();
    assert!(matches!(
        graph.nodes_connection_set(0, 1, 5),
        Err(VeloxGraphError::SlotNotUsed(1))
    ));
    assert!(matches!(
        graph.nodes_connection_set(1, 0, 5),
        Err(VeloxGraphError::SlotNotUsed(1))
    ));
    assert!(matches!(
        graph.nodes_connection_set(0, 7, 5),
        Err(VeloxGraphError::SlotNotAllocated(7))
    ));
    assert!(matches!(
        graph.nodes_connection_set(8, 1, 5),
        Err(VeloxGraphError::SlotNotUsed(1))
    ));
    assert!(matches!(
        graph.nodes_connection_set(8, 9, 5),
        Err(VeloxGraphError::SlotNotAllocated(9))
    ));
    assert!(matches!(
        graph.nodes_connection_remove(8, 0),
        Err(VeloxGraphError::SlotNotAllocated(8))
    ));
    assert!(matches!(graph.node_delete(1), Err(VeloxGraphError::SlotNotUsed(1))));
    assert!(matches!(graph.node_delete(3), Err(VeloxGraphError::SlotNotAllocated(3))));
    assert_eq!(graph.node_get(0).unwrap().connections_forward().data().len(), 0);
    assert_eq!(graph.node_get(0).unwrap().connections_backward().data().len(), 0);
    assert_eq!(graph.num_entries(), 2);
}

#[test]
fn a_node_may_point_at_itself() {
    let mut graph: VeloxGraphHash<u8, u32, u32> = VeloxGraphHash::new();
    graph.node_create(0);
    graph.node_create(1);
    graph.nodes_connection_set(0, 0, 7).unwrap();
    graph.nodes_connection_set(0, 1, 8).unwrap();
    graph.nodes_connection_set(1, 0, 9).unwrap();
    let node0 = graph.node_get(0).unwrap();
    assert_eq!(forward_pairs(node0.connections_forward()), vec![(0, 7), (1, 8)]);
    assert_eq!(backward_ids(node0.connections_backward()), vec![0, 1]);
    graph.node_delete(0).unwrap();
    let node1 = graph.node_get(1).unwrap();
    assert_eq!(forward_pairs(node1.connections_forward()), vec![]);
    assert_eq!(backward_ids(node1.connections_backward()), vec![]);
    assert_eq!(*graph.empty_slots(), vec![0]);
}

#[test]
fn the_arena_is_full_when_the_width_is_used_up() {
    let mut graph: VeloxGraphVec<u8, u32, u32> = VeloxGraphVec::new();
    for i in 0..256u32 {
        assert!(graph.has_room());
        assert_eq!(graph.node_create(i), i as usize);
    }
    assert!(!graph.has_room());
    graph.nodes_connection_set(255, 254, 1).unwrap();
    graph.node_delete(17).unwrap();
    assert!(graph.has_room());
    assert_eq!(graph.node_create(0), 17);
    assert!(!graph.has_room());
    graph.node_delete(255).unwrap();
    assert!(graph.has_room());
    assert_eq!(graph.node_get(254).unwrap().connections_backward().data().len(), 0);
}

#[test]
fn identifier_widths_convert_exactly() {
    assert_eq!(<u8 as UnsignedInt>::from_usize(255).to_usize(), 255);
    assert_eq!(<u16 as UnsignedInt>::from_usize(65_535).to_usize(), 65_535);
    assert_eq!(<u32 as UnsignedInt>::from_usize(70_000).to_usize(), 70_000);
    assert_eq!(<usize as UnsignedInt>::from_usize(usize::MAX).to_usize(), usize::MAX);
    assert_eq!(<u8 as UnsignedInt>::from_usize(256).to_usize(), 0);
    assert_eq!(<u8 as UnsignedInt>::from_usize(1000).to_usize(), 232);
    assert_eq!(<u16 as UnsignedInt>::from_usize(65_537).to_usize(), 1);
    assert_eq!(<u32 as UnsignedInt>::from_usize(0xffff_ffff).to_usize(), 0xffff_ffff);
    assert!(<u8 as UnsignedInt>::fits(255));
    assert!(!<u8 as UnsignedInt>::fits(256));
    assert!(<u16 as UnsignedInt>::fits(65_535));
    assert!(!<u16 as UnsignedInt>::fits(65_536));
    assert!(<u32 as UnsignedInt>::fits(0xffff_ffff));
    assert!(<usize as UnsignedInt>::fits(usize::MAX));
}

#[test]
fn connections_and_settings_hand_out_what_they_hold() {
    let forward: ForwardConnection<u16, u32> = ForwardConnection::new(12, 99);
    assert_eq!(forward.node_id(), 12);
    assert_eq!(*forward.data(), 99);
    let backward: BackwardConnection<u16> = BackwardConnection::new(13);
    assert_eq!(backward.node_id(), 13);
    assert_eq!(VeloxGraghSettings::new().version(), "4.0");
    let graph: VeloxGraphVec<u16, u32, u32> = VeloxGraphVec::new();
    assert_eq!(graph.settings().version(), "4.0");
}

#[test]
fn a_node_shows_its_parts() {
    let mut graph: VeloxGraphVec<u16, u32, u32> = VeloxGraphVec::new();
    graph.node_create(5);
    graph.node_create(6);
    graph.nodes_connection_set(1, 0, 3).unwrap();
    graph.nodes_connection_set(1, 1, 4).unwrap();
    let node = graph.node_get(1).unwrap();
    *NodePublic::data(node) += 10;
    assert_eq!(node.data, 16);
    assert_eq!(NodePublic::node_id(node), 1);
    let listed: Vec<usize> =
        node.connections_forward_get_all().iter().map(|c| c.node_id()).collect();
    assert_eq!(listed, vec![0, 1]);
    let sources: Vec<usize> =
        node.connections_backward_get_all().iter().map(|c| c.node_id()).collect();
    assert_eq!(sources, vec![1]);
    assert_eq!(graph.node_get(1).unwrap().data, 16);
}

#[test]
fn frames_are_little_endian_lengths_and_blocks() {
    let free_block = vec![9u8, 8, 7];
    let slot_blocks = vec![vec![1u8], vec![], vec![2u8, 3]];
    let bytes = frame_snapshot(&free_block, &slot_blocks).unwrap();
    assert_eq!(
        bytes,
        vec![3, 0, 0, 0, 9, 8, 7, 3, 0, 0, 0, 1, 0, 0, 0, 1, 0, 0, 0, 0, 2, 0, 0, 0, 2, 3]
    );
    let (free_back, slots_back) = unframe_snapshot(&bytes).unwrap();
    assert_eq!(free_back, free_block);
    assert_eq!(slots_back, slot_blocks);

    let long_block = vec![5u8; 70_000];
    let bytes = frame_snapshot(&long_block, &vec![]).unwrap();
    assert_eq!(bytes[..4], [0x70, 0x11, 0x01, 0x00]);
    assert_eq!(bytes.len(), 70_008);
    let (free_back, slots_back) = unframe_snapshot(&bytes).unwrap();
    assert_eq!(free_back, long_block);
    assert_eq!(slots_back.len(), 0);
}

#[test]
fn bytes_behind_a_snapshot_are_ignored() {
    let mut bytes = frame_snapshot(&vec![1u8, 2], &vec![vec![3u8]]).unwrap();
    bytes.extend_from_slice(&[0xff, 0xff, 0xff, 0xff, 0xff]);
    let (free_back, slots_back) = unframe_snapshot(&bytes).unwrap();
    assert_eq!(free_back, vec![1, 2]);
    assert_eq!(slots_back, vec![vec![3]]);
}

#[test]
fn a_snapshot_that_is_cut_short_is_refused() {
    let bytes = frame_snapshot(&vec![1u8, 2], &vec![vec![3u8, 4], vec![5u8]]).unwrap();
    for cut in 0..bytes.len() {
        assert!(matches!(unframe_snapshot(&bytes[..cut]), Err(VeloxGraphError::FileFail(_))));
        assert!(matches!(decode_snapshot(&bytes[..cut]), Err(VeloxGraphError::FileFail(_))));
    }
    assert!(unframe_snapshot(&bytes).is_ok());
    assert!(matches!(unframe_snapshot(&[]), Err(VeloxGraphError::FileFail(_))));
}

#[test]
fn the_free_list_goes_through_the_byte_codec() {
    let bytes = encode_snapshot(&vec![3, 300, 0], &vec![vec![7u8]]).unwrap();
    assert_eq!(
        bytes,
        vec![5, 0, 0, 0, 3, 3, 0xac, 0x02, 0, 1, 0, 0, 0, 1, 0, 0, 0, 7]
    );
    let (empty_slots, blocks) = decode_snapshot(&bytes).unwrap();
    assert_eq!(empty_slots, vec![3, 300, 0]);
    assert_eq!(blocks, vec![vec![7u8]]);

    let bytes = encode_snapshot(&vec![], &vec![]).unwrap();
    assert_eq!(bytes, vec![1, 0, 0, 0, 0, 0, 0, 0, 0]);
    let (empty_slots, blocks) = decode_snapshot(&bytes).unwrap();
    assert_eq!(empty_slots, vec![]);
    assert_eq!(blocks.len(), 0);
}

#[test]
fn a_free_list_that_the_byte_codec_refuses_is_reported() {
    let bytes = frame_snapshot(&vec![2u8, 1], &vec![]).unwrap();
    assert!(matches!(decode_snapshot(&bytes), Err(VeloxGraphError::PostcardError(_))));
    let bytes = frame_snapshot(&vec![], &vec![]).unwrap();
    assert!(matches!(decode_snapshot(&bytes), Err(VeloxGraphError::PostcardError(_))));
}

#[test]
fn decoded_free_list_entries_keep_their_values() {
    assert_eq!(free_list_from_wire(&vec![0, 5, 1 << 40]).unwrap(), vec![0, 5, 1 << 40]);
    assert_eq!(free_list_from_wire(&vec![]).unwrap(), vec![]);
}

#[test]
fn saving_needs_one_block_for_each_slot() {
    let mut graph: VeloxGraphVec<usize, u32, u32> = VeloxGraphVec::new();
    graph.node_create(1);
    graph.node_create(2);
    assert!(matches!(graph.save(&vec![vec![1u8]]), Err(VeloxGraphError::FileFail(_))));
    let bytes = graph.save(&vec![vec![1u8], vec![2u8, 3]]).unwrap();
    assert_eq!(bytes, vec![1, 0, 0, 0, 0, 2, 0, 0, 0, 1, 0, 0, 0, 1, 2, 0, 0, 0, 2, 3]);
}

fn record(
    node_id: usize,
    forward: Vec<(usize, u32)>,
    backward: Vec<usize>,
) -> Option<NodeRecord<u32, u32>> {
    Some(NodeRecord {
        node_id,
        data: node_id as u32,
        connections_forward: forward,
        connections_backward: backward,
    })
}

fn load_vec(
    empty_slots: Vec<usize>,
    records: Vec<Option<NodeRecord<u32, u32>>>,
) -> Result<VeloxGraphVec<u8, u32, u32>, VeloxGraphError> {
    VeloxGraphVec::load(empty_slots, records)
}

fn load_hash(
    empty_slots: Vec<usize>,
    records: Vec<Option<NodeRecord<u32, u32>>>,
) -> Result<VeloxGraphHash<u8, u32, u32>, VeloxGraphError> {
    VeloxGraphHash::load(empty_slots, records)
}

#[test]
fn a_consistent_snapshot_is_taken_over_as_it_is() {
    let records = || {
        vec![
            record(0, vec![(2, 20), (0, 5)], vec![0, 3]),
            None,
            record(2, vec![], vec![0]),
            record(3, vec![(0, 30)], vec![]),
            None,
        ]
    };
    let mut graph = load_vec(vec![4, 1], records()).unwrap();
    assert_eq!(graph.num_entries(), 3);
    assert_eq!(*graph.empty_slots(), vec![4, 1]);
    assert_eq!(graph.nodes_vector().len(), 5);
    let node0 = graph.node_get(0).unwrap();
    assert_eq!(node0.data, 0);
    assert_eq!(forward_pairs(node0.connections_forward()), vec![(2, 20), (0, 5)]);
    assert_eq!(backward_ids(node0.connections_backward()), vec![0, 3]);
    assert_eq!(graph.node_create(8), 1);
    assert_eq!(graph.node_create(8), 4);
    assert_eq!(graph.node_create(8), 5);

    let mut graph = load_hash(vec![4, 1], records()).unwrap();
    assert_eq!(graph.num_entries(), 3);
    let node0 = graph.node_get(0).unwrap();
    assert_eq!(forward_pairs(node0.connections_forward()), vec![(2, 20), (0, 5)]);
    assert_eq!(*node0.connections_forward().get(0).unwrap().data(), 5);
    assert_eq!(backward_ids(node0.connections_backward()), vec![0, 3]);
    graph.node_delete(0).unwrap();
    assert_eq!(graph.node_get(3).unwrap().connections_forward().data().len(), 0);

    let empty = load_vec(vec![], vec![]).unwrap();
    assert_eq!(empty.num_entries(), 0);
}

#[test]
fn a_snapshot_that_breaks_an_invariant_is_refused() {
    let refused = |empty_slots: Vec<usize>, records: Vec<Option<NodeRecord<u32, u32>>>| {
        let again: Vec<Option<NodeRecord<u32, u32>>> = records
            .iter()
            .map(|slot| {
                slot.as_ref().map(|r| NodeRecord {
                    node_id: r.node_id,
                    data: r.data,
                    connections_forward: r.connections_forward.clone(),
                    connections_backward: r.connections_backward.clone(),
                })
            })
            .collect();
        assert!(matches!(
            load_vec(empty_slots.clone(), records),
            Err(VeloxGraphError::FileFail(_))
        ));
        assert!(matches!(load_hash(empty_slots, again), Err(VeloxGraphError::FileFail(_))));
    };
    // a forward connection without its backward link
    refused(vec![], vec![record(0, vec![(1, 5)], vec![]), record(1, vec![], vec![])]);
    // a backward link without its forward connection
    refused(vec![], vec![record(0, vec![], vec![]), record(1, vec![], vec![0])]);
    // a connection to a free slot
    refused(vec![1], vec![record(0, vec![(1, 5)], vec![]), None]);
    // a connection beyond the arena
    refused(vec![], vec![record(0, vec![(9, 5)], vec![])]);
    // a predecessor beyond the arena
    refused(vec![], vec![record(0, vec![], vec![9])]);
    // a free slot that the free list does not name
    refused(vec![], vec![record(0, vec![], vec![]), None]);
    // a free-list entry that names a live node
    refused(vec![0], vec![record(0, vec![], vec![])]);
    // a free-list entry beyond the arena
    refused(vec![3], vec![record(0, vec![], vec![])]);
    // a free-list entry that stands twice
    refused(vec![1, 1], vec![record(0, vec![], vec![]), None]);
    // a node that stands in another slot than its own
    refused(vec![], vec![record(1, vec![], vec![])]);
    // a target that is listed twice
    refused(vec![], vec![record(0, vec![(0, 1), (0, 2)], vec![0])]);
    // a predecessor that is recorded twice
    refused(vec![], vec![record(0, vec![(0, 1)], vec![0, 0])]);
}

#[test]
fn an_identifier_beyond_the_width_is_an_overflow() {
    let overflows = |empty_slots: Vec<usize>, records: Vec<Option<NodeRecord<u32, u32>>>| {
        assert!(matches!(load_vec(empty_slots, records), Err(VeloxGraphError::Overflow)));
    };
    overflows(vec![256], vec![]);
    overflows(vec![], vec![record(256, vec![], vec![])]);
    overflows(vec![], vec![record(0, vec![(256, 1)], vec![])]);
    overflows(vec![], vec![record(0, vec![], vec![300])]);
    // an overflow is reported before an inconsistency that stands earlier
    overflows(vec![], vec![record(5, vec![], vec![]), record(1, vec![(1000, 1)], vec![])]);
    let wide: Result<VeloxGraphVec<u16, u32, u32>, VeloxGraphError> =
        VeloxGraphVec::load(vec![], vec![record(0, vec![], vec![300])]);
    assert!(matches!(wide, Err(VeloxGraphError::FileFail(_))));
}

fn fill_through_the_trait<G: Graph<u16, F, B, u32, u32>, F, B>() -> G
where
    F: ConnectionsForward<u16, u32>,
    B: ConnectionsBackward<u16>,
{
    let mut graph = G::new();
    let a = graph.node_create(1);
    let b = graph.node_create(2);
    let c = graph.node_create(3);
    graph.nodes_connection_set(a, b, 12).unwrap();
    graph.nodes_connection_set(c, b, 32).unwrap();
    graph.nodes_connection_set(b, c, 23).unwrap();
    graph.nodes_connection_remove(c, b).unwrap();
    graph.node_get(b).unwrap().data = 20;
    graph.node_delete(a).unwrap();
    graph
}

#[test]
fn both_kinds_of_graph_answer_through_the_same_trait() {
    let flat: VeloxGraphVec<u16, u32, u32> = fill_through_the_trait();
    let hashed: VeloxGraphHash<u16, u32, u32> = fill_through_the_trait();
    assert_eq!(Graph::num_entries(&flat), 2);
    assert_eq!(Graph::num_entries(&hashed), 2);
    assert_eq!(*velox_graph::GraphInternal::empty_slots(&flat), vec![0]);
    assert_eq!(velox_graph::GraphInternal::nodes_vector(&hashed).len(), 3);
    let blocks = vec![vec![0u8], vec![1u8], vec![1u8]];
    assert_eq!(Graph::save(&flat, &blocks).unwrap(), Graph::save(&hashed, &blocks).unwrap());
    let node = flat.nodes_vector()[1].as_ref().unwrap();
    assert_eq!(node.data, 20);
    assert_eq!(forward_pairs(node.connections_forward()), vec![(2, 23)]);
    assert_eq!(backward_ids(node.connections_backward()), vec![]);
    let loaded: Result<VeloxGraphVec<u16, u32, u32>, VeloxGraphError> =
        Graph::load(vec![], vec![]);
    assert_eq!(loaded.unwrap().num_entries(), 0);
}

#[test]
fn a_snapshot_is_its_header_and_its_framed_blocks() {
    assert_eq!(frame_block(&vec![]).unwrap(), vec![0, 0, 0, 0]);
    assert_eq!(frame_block(&vec![7, 8, 9]).unwrap(), vec![3, 0, 0, 0, 7, 8, 9]);
    assert_eq!(frame_block(&vec![1u8; 258]).unwrap()[..5], [2, 1, 0, 0, 1]);
    assert_eq!(frame_header(&vec![4, 5], 65_536).unwrap(), vec![2, 0, 0, 0, 4, 5, 0, 0, 1, 0]);
    assert_eq!(frame_header(&vec![], 16_777_217).unwrap(), vec![0, 0, 0, 0, 1, 0, 0, 1]);
    assert_eq!(encode_header(&vec![130], 2).unwrap(), vec![3, 0, 0, 0, 1, 0x82, 0x01, 2, 0, 0, 0]);
    if usize::MAX > 0xffff_ffff {
        assert!(matches!(
            frame_header(&vec![], 0x1_0000_0000),
            Err(VeloxGraphError::FileFail(_))
        ));
        assert!(matches!(
            encode_header(&vec![], 0x1_0000_0000),
            Err(VeloxGraphError::FileFail(_))
        ));
    }

    let mut graph: VeloxGraphHash<u16, u32, u32> = VeloxGraphHash::new();
    for i in 0..4 {
        graph.node_create(i);
    }
    graph.node_delete(1).unwrap();
    graph.node_delete(2).unwrap();
    let blocks = vec![vec![1u8, 0, 0], vec![0u8], vec![0u8], vec![1u8, 3, 3]];
    let mut streamed = graph.save_header().unwrap();
    assert_eq!(streamed, vec![3, 0, 0, 0, 2, 1, 2, 4, 0, 0, 0]);
    for block in &blocks {
        streamed.extend_from_slice(&frame_block(block).unwrap());
    }
    assert_eq!(streamed, graph.save(&blocks).unwrap());
    let (empty_slots, read_blocks) = decode_snapshot(&streamed).unwrap();
    assert_eq!(empty_slots, *graph.empty_slots());
    assert_eq!(read_blocks, blocks);
}
