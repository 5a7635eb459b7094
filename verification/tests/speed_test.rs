use rand::seq::SliceRandom;
use velox_graph::codec::decode_snapshot;
use velox_graph::ConnectionsBackward;
use velox_graph::ConnectionsForward;
use velox_graph::NodeRecord;
use velox_graph::UnsignedInt;
use velox_graph::VeloxGraph;
use velox_graph::{HashConnectionsBackward, VecConnectionsBackward};
use velox_graph::{HashConnectionsForward, VecConnectionsForward};

const NUM_NODES: usize = 10_000;
const NUM_CONNECTIONS_CREATE: usize = 10_000;
const NUM_CONNECTIONS_PER_NODE: usize = 10;

type StoredNode = (usize, u32, Vec<(usize, u32)>, Vec<usize>);

#[test]
fn speed_test() {
    let mut random_nodes: Vec<usize> = (0..NUM_NODES).collect();
    random_nodes.shuffle(&mut rand::rng());

    let mut graph: VeloxGraph<
        usize,
        HashConnectionsForward<usize, u32>,
        HashConnectionsBackward<usize>,
        u32,
        u32,
    > = VeloxGraph::new();

    create_nodes_test(&mut graph, NUM_NODES);

    let random_nodes_to_connect: Vec<usize> = (0..NUM_NODES).collect();

    create_connections_test(
        &mut graph,
        NUM_CONNECTIONS_CREATE,
        random_nodes.clone(),
        random_nodes_to_connect,
    );

    delete_nodes_test(&mut graph, NUM_NODES);
}

#[test]
fn speed_test_vec_usize() {
    speed_test_on::<usize, VecConnectionsForward<usize, u32>, VecConnectionsBackward<usize>>();
}

#[test]
fn speed_test_vec_u16() {
    speed_test_on::<u16, VecConnectionsForward<u16, u32>, VecConnectionsBackward<u16>>();
}

#[test]
fn speed_test_hash_usize() {
    speed_test_on::<usize, HashConnectionsForward<usize, u32>, HashConnectionsBackward<usize>>();
}

#[test]
fn speed_test_hash_u16() {
    speed_test_on::<u16, HashConnectionsForward<u16, u32>, HashConnectionsBackward<u16>>();
}

fn speed_test_on<
    NodeIdT: UnsignedInt,
    ConnForwardT: ConnectionsForward<NodeIdT, u32>,
    ConnBackwardT: ConnectionsBackward<NodeIdT>,
>() {
    let mut random_nodes: Vec<usize> = (0..NUM_NODES).collect();
    random_nodes.shuffle(&mut rand::rng());

    let mut graph: VeloxGraph<NodeIdT, ConnForwardT, ConnBackwardT, u32, u32> = VeloxGraph::new();

    create_nodes_test(&mut graph, NUM_NODES);

    let random_nodes_to_connect: Vec<usize> = (0..NUM_NODES).collect();

    create_connections_test(
        &mut graph,
        NUM_CONNECTIONS_CREATE,
        random_nodes.clone(),
        random_nodes_to_connect,
    );

    let saved = save_to_bytes(&graph);
    let mut graph: VeloxGraph<NodeIdT, ConnForwardT, ConnBackwardT, u32, u32> =
        load_from_bytes(&saved);

    println!("num_entries: {}", graph.num_entries());
    assert_eq!(graph.num_entries(), NUM_NODES);

    delete_nodes_test(&mut graph, NUM_NODES);
    assert_eq!(graph.num_entries(), 0);
}

fn save_to_bytes<
    NodeIdT: UnsignedInt,
    ConnForwardT: ConnectionsForward<NodeIdT, u32>,
    ConnBackwardT: ConnectionsBackward<NodeIdT>,
>(
    graph: &VeloxGraph<NodeIdT, ConnForwardT, ConnBackwardT, u32, u32>,
) -> Vec<u8> {
    let mut blocks: Vec<Vec<u8>> = Vec::new();
    for slot in graph.nodes_vector() {
        let stored: Option<StoredNode> = match slot {
            Some(node) => Some((
                node.node_id(),
                node.data,
                node.connections_forward()
                    .data()
                    .iter()
                    .map(|connection| (connection.node_id(), *connection.data()))
                    .collect(),
                node.connections_backward()
                    .data()
                    .iter()
                    .map(|connection| connection.node_id())
                    .collect(),
            )),
            None => None,
        };
        blocks.push(postcard::to_stdvec(&stored).unwrap());
    }
    graph.save(&blocks).unwrap()
}

fn load_from_bytes<
    NodeIdT: UnsignedInt,
    ConnForwardT: ConnectionsForward<NodeIdT, u32>,
    ConnBackwardT: ConnectionsBackward<NodeIdT>,
>(
    bytes: &[u8],
) -> VeloxGraph<NodeIdT, ConnForwardT, ConnBackwardT, u32, u32> {
    let (empty_slots, blocks) = decode_snapshot(bytes).unwrap();
    let mut records: Vec<Option<NodeRecord<u32, u32>>> = Vec::new();
    for block in &blocks {
        let stored: Option<StoredNode> = postcard::from_bytes(block).unwrap();
        records.push(stored.map(|(node_id, data, forward, backward)| NodeRecord {
            node_id,
            data,
            connections_forward: forward,
            connections_backward: backward,
        }));
    }
    VeloxGraph::load(empty_slots, records).unwrap()
}

fn create_nodes_test<
    NodeIdT: UnsignedInt,
    ConnForwardT: ConnectionsForward<NodeIdT, u32>,
    ConnBackwardT: ConnectionsBackward<NodeIdT>,
>(
    graph: &mut VeloxGraph<NodeIdT, ConnForwardT, ConnBackwardT, u32, u32>,
    num_nodes: usize,
) {
    for i in 0..num_nodes {
        graph.node_create(i as u32);
    }
}

fn create_connections_test<
    NodeIdT: UnsignedInt,
    ConnForwardT: ConnectionsForward<NodeIdT, u32>,
    ConnBackwardT: ConnectionsBackward<NodeIdT>,
>(
    graph: &mut VeloxGraph<NodeIdT, ConnForwardT, ConnBackwardT, u32, u32>,
    num_connections_to_create: usize,
    random_nodes: Vec<usize>,
    mut random_nodes_to_connect: Vec<usize>,
) {
    let random_nodes = &random_nodes[..num_connections_to_create];

    for (i, &entry_index) in random_nodes.iter().enumerate() {
        random_nodes_to_connect.shuffle(&mut rand::rng());
        let random_nodes_to_connect = &random_nodes_to_connect[..NUM_CONNECTIONS_PER_NODE];

        for &second_node in random_nodes_to_connect {
            graph
                .nodes_connection_set(entry_index, second_node, i as u32)
                .unwrap();
        }
    }
}

fn delete_nodes_test<
    NodeIdT: UnsignedInt,
    ConnForwardT: ConnectionsForward<NodeIdT, u32>,
    ConnBackwardT: ConnectionsBackward<NodeIdT>,
>(
    graph: &mut VeloxGraph<NodeIdT, ConnForwardT, ConnBackwardT, u32, u32>,
    num_nodes: usize,
) {
    for i in 0..num_nodes {
        graph.node_delete(i).unwrap();
    }
}
