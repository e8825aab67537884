//! What a graph backend reports: its failures and its adjacency projections.
use vstd::prelude::*;

verus! {

/// A failure of the graph backend.
#[derive(Debug)]
pub enum DriverError {
    /// The backend could not be reached.
    Connection(String),
    /// The backend refused or failed a query.
    Query(String),
    /// What was asked for does not exist.
    NotFound(String),
    /// A stored value could not be read back.
    Decode(String),
}

/// A neighbour of a node and the number of facts between the two.
#[derive(Debug)]
pub struct Neighbor {
    pub node_uuid: String,
    pub edge_count: u64,
}

/// One node with its neighbours.
#[derive(Debug)]
pub struct NodeNeighbors {
    pub node_uuid: String,
    pub neighbors: Vec<Neighbor>,
}

/// The adjacency of all nodes of one group.
#[derive(Debug)]
pub struct GroupClusterProjection {
    pub group_id: String,
    pub nodes: Vec<NodeNeighbors>,
}

/// A neighbour as plain values.
pub struct NeighborView {
    pub node_uuid: Seq<char>,
    pub edge_count: nat,
}

/// A node with its neighbours as plain values.
pub struct NodeNeighborsView {
    pub node_uuid: Seq<char>,
    pub neighbors: Seq<NeighborView>,
}

impl View for Neighbor {
    type V = NeighborView;

    open spec fn view(&self) -> NeighborView {
        NeighborView { node_uuid: self.node_uuid@, edge_count: self.edge_count as nat }
    }
}

impl View for NodeNeighbors {
    type V = NodeNeighborsView;

    open spec fn view(&self) -> NodeNeighborsView {
        NodeNeighborsView {
            node_uuid: self.node_uuid@,
            neighbors: self.neighbors@.map_values(|n: Neighbor| n@),
        }
    }
}

} // verus!
