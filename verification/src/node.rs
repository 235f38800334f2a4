//! The snapshot of the network: its nodes and how they index each other.

use vstd::prelude::*;

verus! {

/// One whole unit of a fixed-point quantity: values count millionths.
pub const ONE: u64 = 1_000_000;

/// The network that a node was found to speak.
#[derive(Clone, Copy, Debug, PartialEq, Eq, Structural, Hash)]
pub enum NetworkType {
    Unknown,
    Zcash,
    Ripple,
}

/// Geographic coordinates, in millionths of a degree.
#[derive(Clone, Copy, Debug, PartialEq, Eq, Structural)]
pub struct Location {
    pub latitude: i32,
    pub longitude: i32,
}

/// One entry of the snapshot.
///
/// `addr` is the node's IP address as a 128-bit number (an IPv4 address in its
/// IPv6-mapped form). `betweenness` and `closeness` count millionths.
/// `connections` holds positions in the snapshot that the node belongs to.
#[derive(Debug)]
pub struct Node {
    pub addr: u128,
    pub network_type: NetworkType,
    pub betweenness: i64,
    pub closeness: i64,
    pub connections: Vec<usize>,
    pub geolocation: Option<Location>,
}

/// What a node holds, as mathematical values.
pub ghost struct NodeView {
    pub addr: u128,
    pub network_type: NetworkType,
    pub betweenness: i64,
    pub closeness: i64,
    pub connections: Seq<usize>,
    pub geolocation: Option<Location>,
}

impl View for Node {
    type V = NodeView;

    open spec fn view(&self) -> NodeView {
        NodeView {
            addr: self.addr,
            network_type: self.network_type,
            betweenness: self.betweenness,
            closeness: self.closeness,
            connections: self.connections@,
            geolocation: self.geolocation,
        }
    }
}

impl Clone for Node {
    fn clone(&self) -> (copy: Self)
        ensures
            copy@ == self@,
    {
        Node {
            addr: self.addr,
            network_type: self.network_type,
            betweenness: self.betweenness,
            closeness: self.closeness,
            connections: self.connections.clone(),
            geolocation: self.geolocation,
        }
    }
}

impl Default for Node {
    fn default() -> (node: Self)
        ensures
            node@ == (NodeView {
                addr: 0,
                network_type: NetworkType::Unknown,
                betweenness: 0,
                closeness: 0,
                connections: Seq::empty(),
                geolocation: None,
            }),
    {
        Node {
            addr: 0,
            network_type: NetworkType::Unknown,
            betweenness: 0,
            closeness: 0,
            connections: Vec::new(),
            geolocation: None,
        }
    }
}

/// The views of a list of nodes, position by position.
pub open spec fn views(nodes: Seq<Node>) -> Seq<NodeView> {
    Seq::new(nodes.len(), |i: int| nodes[i]@)
}

/// Every connection of every node is a position in the snapshot.
pub open spec fn connections_in_range(nodes: Seq<NodeView>) -> bool {
    forall|i: int, j: int|
        0 <= i < nodes.len() && 0 <= j < nodes[i].connections.len()
            ==> (#[trigger] nodes[i].connections[j]) < nodes.len()
}

/// The snapshot that the peer lists are computed from.
#[derive(Clone, Debug)]
pub struct IpsState {
    pub nodes: Vec<Node>,
}

} // verus!
