//! The centrality engine: an undirected graph over node addresses.

use vstd::prelude::*;
use std::collections::HashMap;
use spectre::edge::Edge;
use spectre::graph::Graph;

verus! {

#[verifier::external_type_specification]
#[verifier::external_body]
#[verifier::reject_recursive_types(T)]
pub struct ExGraph<T>(Graph<T>);

/// The edges that a graph holds. An edge has no direction: the set holds
/// `(a, b)` and `(b, a)` alike for an edge between `a` and `b`.
pub uninterp spec fn graph_edges(graph: Graph<u128>) -> Set<(u128, u128)>;

/// The vertices that `vertex` shares an edge with (itself, where it has an
/// edge to itself).
pub open spec fn neighbours(edges: Set<(u128, u128)>, vertex: u128) -> Set<u128> {
    Set::new(|other: u128| edges.contains((vertex, other)))
}

/// Some edge touches `vertex`.
pub open spec fn touches(edges: Set<(u128, u128)>, vertex: u128) -> bool {
    exists|other: u128| edges.contains((vertex, other))
}

/// What the engine reports as the degree of a vertex with `count` neighbours.
pub open spec fn reported_degree(count: nat) -> u32 {
    if count <= u32::MAX {
        count as u32
    } else {
        u32::MAX
    }
}

/// The degree of every vertex of a graph with the given edges.
pub open spec fn degree_map(edges: Set<(u128, u128)>) -> Map<u128, u32> {
    Map::new(
        |vertex: u128| touches(edges, vertex),
        |vertex: u128| reported_degree(neighbours(edges, vertex).len()),
    )
}

/// `Graph::new`: a graph without edges.
#[verifier::external_body]
pub(crate) fn new_graph() -> (graph: Graph<u128>)
    ensures
        graph_edges(graph) == Set::<(u128, u128)>::empty(),
{
    Graph::new()
}

/// `Graph::insert` of `Edge::new(a, b)`: the graph then holds the edge between
/// `a` and `b`, and all that it held before.
#[verifier::external_body]
pub(crate) fn insert_edge(graph: &mut Graph<u128>, a: u128, b: u128)
    ensures
        graph_edges(*final(graph)) == graph_edges(*old(graph)).insert((a, b)).insert((b, a)),
{
    graph.insert(Edge::new(a, b));
}

/// `Graph::degree_centrality`: one entry for each vertex that some edge
/// touches, holding the number of its neighbours. The edges stay as they are.
#[verifier::external_body]
pub(crate) fn degree_centrality(graph: &mut Graph<u128>) -> (degrees: HashMap<u128, u32>)
    ensures
        graph_edges(*final(graph)) == graph_edges(*old(graph)),
        degrees@ == degree_map(graph_edges(*old(graph))),
{
    graph.degree_centrality()
}

} // verus!
