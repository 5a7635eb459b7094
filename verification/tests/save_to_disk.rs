use velox_graph::codec::decode_snapshot;
use velox_graph::graph::VeloxGraphVec;
use velox_graph::ConnectionsBackward;
use velox_graph::ConnectionsForward;
use velox_graph::NodeRecord;
use velox_graph::UnsignedInt;
use velox_graph::VeloxGraphError;

#[derive(Clone, Debug)]
struct SomeData {
    x: u32,
    y: u32,
}

type StoredNode = (usize, (u32, u32), Vec<(usize, u32)>, Vec<usize>);

fn save_to_bytes<NodeIdT: UnsignedInt>(graph: &VeloxGraphVec<NodeIdT, SomeData, u32>) -> Vec<u8> {
    let mut blocks: Vec<Vec<u8>> = Vec::new();
    for slot in graph.nodes_vector() {
        let stored: Option<StoredNode> = match slot {
            Some(node) => Some((
                node.node_id(),
                (node.data.x, node.data.y),
                node.connections_forward()
                    .data()
                    .iter()
                    .map(|connection| (connection.node_id(), *connection.data()))
                    .collect(),
                node.connections_backward()
                    .data()
                    .iter()
                    .map(|connection| connection.node_id())
                    .collect(),
            )),
            None => None,
        };
        blocks.push(postcard::to_stdvec(&stored).unwrap());
    }
    graph.save(&blocks).unwrap()
}

fn load_from_bytes<NodeIdT: UnsignedInt>(
    bytes: &[u8],
) -> Result<VeloxGraphVec<NodeIdT, SomeData, u32>, VeloxGraphError> {
    let (empty_slots, blocks) = decode_snapshot(bytes)?;
    let mut records: Vec<Option<NodeRecord<SomeData, u32>>> = Vec::new();
    for block in &blocks {
        let stored: Option<StoredNode> = postcard::from_bytes(block).unwrap();
        records.push(stored.map(|(node_id, (x, y), forward, backward)| NodeRecord {
            node_id,
            data: SomeData { x, y },
            connections_forward: forward,
            connections_backward: backward,
        }));
    }
    VeloxGraphVec::load(empty_slots, records)
}

fn build_graph<NodeIdT: UnsignedInt>() -> VeloxGraphVec<NodeIdT, SomeData, u32> {
    let mut graph: VeloxGraphVec<NodeIdT, SomeData, u32> = VeloxGraphVec::new();

    assert_eq!(graph.num_entries(), 0);
    assert_eq!(*graph.empty_slots(), vec![]);

    let node_id0 = graph.node_create(SomeData { x: 134, y: 351 });
    let node_id1 = graph.node_create(SomeData { x: 4, y: 1 });
    let node_id2 = graph.node_create(SomeData { x: 234, y: 5 });
    let node_id3 = graph.node_create(SomeData { x: 63, y: 42 });
    let node_id4 = graph.node_create(SomeData { x: 35, y: 208 });
    let node_id5 = graph.node_create(SomeData { x: 2643, y: 62 });
    assert_eq!(graph.num_entries(), 6);
    assert_eq!(*graph.empty_slots(), vec![]);

    graph.node_delete(node_id3).unwrap();
    assert_eq!(graph.num_entries(), 5);
    assert_eq!(*graph.empty_slots(), vec![3]);

    graph.nodes_connection_set(node_id0, node_id2, 545).unwrap();
    graph.nodes_connection_set(node_id0, node_id1, 3).unwrap();
    graph.nodes_connection_set(node_id0, node_id4, 93).unwrap();
    graph.nodes_connection_set(node_id1, node_id0, 355).unwrap();
    graph.nodes_connection_set(node_id1, node_id2, 73).unwrap();
    graph.nodes_connection_set(node_id4, node_id2, 355).unwrap();
    graph.nodes_connection_set(node_id5, node_id0, 73).unwrap();
    graph.nodes_connection_set(node_id5, node_id4, 457).unwrap();
    graph
}

fn check_loaded<NodeIdT: UnsignedInt>(loaded_graph: &mut VeloxGraphVec<NodeIdT, SomeData, u32>) {
    let (node_id0, node_id1, node_id2, node_id4) = (0, 1, 2, 4);
    assert_eq!(loaded_graph.num_entries(), 5);
    assert_eq!(*loaded_graph.empty_slots(), vec![3]);

    let node0 = loaded_graph.node_get(node_id0).unwrap();
    assert_eq!(node0.data.x, 134);
    assert_eq!(node0.data.y, 351);
    let node0_forwards = node0.connections_forward().data();
    assert_eq!(node0_forwards.len(), 3);
    assert_eq!(node0_forwards[0].node_id() as usize, node_id2);
    assert_eq!(node0_forwards[0].data, 545);
    assert_eq!(node0_forwards[1].node_id() as usize, node_id1);
    assert_eq!(node0_forwards[1].data, 3);
    assert_eq!(node0_forwards[2].node_id() as usize, node_id4);
    assert_eq!(node0_forwards[2].data, 93);

    let node1 = loaded_graph.node_get(node_id1).unwrap();
    assert_eq!(node1.data.x, 4);
    assert_eq!(node1.data.y, 1);
    let node1_forwards = &node1.connections_forward().data();
    assert_eq!(node1_forwards.len(), 2);
    assert_eq!(node1_forwards[0].node_id() as usize, node_id0);
    assert_eq!(node1_forwards[0].data, 355);
    assert_eq!(node1_forwards[1].node_id() as usize, node_id2);
    assert_eq!(node1_forwards[1].data, 73);

    let node2 = loaded_graph.node_get(node_id2).unwrap();
    assert_eq!(node2.data.x, 234);
    assert_eq!(node2.data.y, 5);
    let node2_forwards = &node2.connections_forward().data();
    assert_eq!(node2_forwards.len(), 0);
    let node2_backwards = node2.connections_backward().data();
    assert_eq!(node2_backwards.len(), 3);
}

#[test]
fn test_save_to_disk() {
    let graph: VeloxGraphVec<usize, SomeData, u32> = build_graph();
    let saved = save_to_bytes(&graph);
    let mut loaded_graph: VeloxGraphVec<usize, SomeData, u32> = load_from_bytes(&saved).unwrap();
    check_loaded(&mut loaded_graph);
}

#[test]
fn test_save_to_disk_u16() {
    let graph: VeloxGraphVec<u16, SomeData, u32> = build_graph();
    let saved = save_to_bytes(&graph);
    let mut loaded_graph: VeloxGraphVec<u16, SomeData, u32> = load_from_bytes(&saved).unwrap();
    check_loaded(&mut loaded_graph);
}

#[test]
fn test_save_to_disk_change_size() {
    let graph: VeloxGraphVec<u16, SomeData, u32> = build_graph();
    let saved = save_to_bytes(&graph);
    let mut loaded_graph: VeloxGraphVec<u32, SomeData, u32> = load_from_bytes(&saved).unwrap();
    check_loaded(&mut loaded_graph);
}

#[test]
fn snapshot_of_a_small_graph_is_byte_exact() {
    let mut graph: VeloxGraphVec<usize, SomeData, u32> = VeloxGraphVec::new();
    let a = graph.node_create(SomeData { x: 1, y: 2 });
    let b = graph.node_create(SomeData { x: 3, y: 4 });
    let c = graph.node_create(SomeData { x: 5, y: 6 });
    graph.nodes_connection_set(a, c, 300).unwrap();
    graph.node_delete(b).unwrap();
    let saved = save_to_bytes(&graph);
    let expected: Vec<u8> = vec![
        2, 0, 0, 0, 1, 1, // the free list [1]
        3, 0, 0, 0, // three slots
        9, 0, 0, 0, 1, 0, 1, 2, 1, 2, 0xac, 0x02, 0, // node 0: one connection to 2 with 300
        1, 0, 0, 0, 0, // the free slot
        7, 0, 0, 0, 1, 2, 5, 6, 0, 1, 0, // node 2: one predecessor, node 0
    ];
    assert_eq!(saved, expected);
    let loaded: VeloxGraphVec<u8, SomeData, u32> = load_from_bytes(&saved).unwrap();
    assert_eq!(loaded.num_entries(), 2);
    assert_eq!(*loaded.empty_slots(), vec![1]);
}

#[test]
fn loading_into_a_narrower_width_overflows() {
    let mut graph: VeloxGraphVec<u16, SomeData, u32> = VeloxGraphVec::new();
    for i in 0..300u32 {
        graph.node_create(SomeData { x: i, y: i });
    }
    graph.nodes_connection_set(0, 299, 7).unwrap();
    let saved = save_to_bytes(&graph);
    let narrow: Result<VeloxGraphVec<u8, SomeData, u32>, VeloxGraphError> = load_from_bytes(&saved);
    assert!(matches!(narrow, Err(VeloxGraphError::Overflow)));
    let same: VeloxGraphVec<u16, SomeData, u32> = load_from_bytes(&saved).unwrap();
    assert_eq!(same.num_entries(), 300);
}

#[test]
fn concrete_scenario_survives_save_and_load() {
    let mut graph: VeloxGraphVec<usize, SomeData, u32> = VeloxGraphVec::new();
    for i in 0..5u32 {
        assert_eq!(graph.node_create(SomeData { x: i, y: 10 * i }), i as usize);
    }
    graph.nodes_connection_set(0, 2, 545).unwrap();
    graph.nodes_connection_set(0, 1, 3).unwrap();
    graph.nodes_connection_set(0, 4, 93).unwrap();
    graph.node_delete(2).unwrap();

    let node0 = graph.node_get(0).unwrap();
    let forwards = node0.connections_forward();
    assert_eq!(forwards.data().len(), 2);
    assert_eq!(*forwards.get(1).unwrap().data(), 3);
    assert_eq!(*forwards.get(4).unwrap().data(), 93);
    assert!(matches!(forwards.get(2), Err(VeloxGraphError::ConnectionNotSet(2))));
    assert!(!graph.node_get(1).unwrap().connections_backward().contains(2));
    assert!(!graph.node_get(4).unwrap().connections_backward().contains(2));
    assert!(graph.node_get(1).unwrap().connections_backward().contains(0));
    assert_eq!(graph.num_entries(), 4);
    assert_eq!(*graph.empty_slots(), vec![2]);

    let saved = save_to_bytes(&graph);
    let mut loaded: VeloxGraphVec<usize, SomeData, u32> = load_from_bytes(&saved).unwrap();
    assert_eq!(loaded.num_entries(), 4);
    assert_eq!(*loaded.empty_slots(), vec![2]);
    assert_eq!(loaded.nodes_vector().len(), 5);
    assert!(matches!(loaded.node_get(2), Err(VeloxGraphError::SlotNotUsed(2))));
    for id in [0usize, 1, 3, 4] {
        let before = graph.node_get(id).unwrap();
        let expected_data = (before.data.x, before.data.y);
        let expected_forward: Vec<(usize, u32)> = before
            .connections_forward()
            .data()
            .iter()
            .map(|connection| (connection.node_id(), *connection.data()))
            .collect();
        let expected_backward: Vec<usize> = before
            .connections_backward()
            .data()
            .iter()
            .map(|connection| connection.node_id())
            .collect();
        let after = loaded.node_get(id).unwrap();
        assert_eq!((after.data.x, after.data.y), expected_data);
        let forward: Vec<(usize, u32)> = after
            .connections_forward()
            .data()
            .iter()
            .map(|connection| (connection.node_id(), *connection.data()))
            .collect();
        let backward: Vec<usize> = after
            .connections_backward()
            .data()
            .iter()
            .map(|connection| connection.node_id())
            .collect();
        assert_eq!(forward, expected_forward);
        assert_eq!(backward, expected_backward);
    }
    assert_eq!(loaded.node_create(SomeData { x: 9, y: 9 }), 2);
}
