//! An embedded, in-memory directed-graph store: nodes and weighted directed
//! connections held in a slot arena, with forward and backward adjacency
//! indices that are kept mutually consistent.
//!
//! A [`VeloxGraph`] hands out slot indices as node identifiers and uses the
//! slot freed last again before it grows. Each node lists the connections
//! that leave it, with their payload, and the nodes that point at it; the two
//! listings of any two nodes mirror each other after every operation. A
//! listing is kept either as a plain vector ([`VeloxGraphVec`]) or as a vector
//! with a lookup table ([`VeloxGraphHash`]). Removal moves the last entry of a
//! listing into the gap, so the order of a listing is not stable across
//! removals.
//!
//! What every operation does is stated over plain values: [`graph_model`]
//! holds the graph as slots and free list, [`model`] the listings of a node.
//! [`codec`] frames a snapshot of a graph into bytes and takes it apart
//! again, [`snapshot`] rebuilds a graph from the records of a snapshot.

pub mod codec;
pub mod connection;
pub mod connections_backward;
pub mod connections_forward;
pub mod error;
pub mod graph;
pub mod graph_model;
pub mod graph_settings;
pub mod graph_trait;
pub mod model;
pub mod node;
pub mod snapshot;
pub mod unsigned_int;

pub use connection::{BackwardConnection, Connection, ForwardConnection};
pub use connections_backward::connections_backward_trait::{
    ConnectionsBackward, ConnectionsBackwardInternal,
};
pub use connections_backward::hash_connections_backward::HashConnectionsBackward;
pub use connections_backward::vec_connections_backward::VecConnectionsBackward;
pub use connections_forward::connections_forward_trait::{
    ConnectionsForward, ConnectionsForwardInternal,
};
pub use connections_forward::hash_connections_forward::HashConnectionsForward;
pub use connections_forward::vec_connections_forward::VecConnectionsForward;
pub use error::VeloxGraphError;
pub use graph::{VeloxGraph, VeloxGraphHash, VeloxGraphVec};
pub use graph_settings::VeloxGraghSettings;
pub use graph_trait::{Graph, GraphInternal};
pub use node::{HashNode, Node, NodePublic, VecNode};
pub use snapshot::NodeRecord;
pub use unsigned_int::UnsignedInt;
