//! Maintenance of the node list and the graph heuristics on it.

use vstd::prelude::*;
use std::collections::{HashMap, HashSet};
use spectre::graph::Graph;
use crate::ranking::{rank_lowest, ranking};
use crate::engine::{graph_edges, insert_edge, new_graph};
use crate::node::{connections_in_range, IpsState, NetworkType, Node, NodeView, views, ONE};

verus! {

/// Where `target` stands first in `list`.
pub open spec fn first_position(list: Seq<usize>, target: usize) -> int {
    choose|p: int| is_first_position(list, target, p)
}

/// `p` is the first position of `list` that holds `target`.
pub open spec fn is_first_position(list: Seq<usize>, target: usize, p: int) -> bool {
    &&& 0 <= p < list.len()
    &&& list[p] == target
    &&& forall|q: int| 0 <= q < p ==> list[q] != target
}

/// A position of the old list as a position of the list without `removed`.
pub open spec fn renumbered(position: usize, removed: usize) -> usize {
    if position > removed {
        (position - 1) as usize
    } else {
        position
    }
}

/// A node's connections once the node at `removed` has left the list: the
/// first mention of `removed` is gone, and later positions moved down by one.
pub open spec fn connections_without(list: Seq<usize>, removed: usize) -> Seq<usize> {
    let kept = if list.contains(removed) {
        list.remove(first_position(list, removed))
    } else {
        list
    };
    kept.map_values(|c: usize| renumbered(c, removed))
}

/// The node list once the node at `removed` has left it.
pub open spec fn without_node(nodes: Seq<NodeView>, removed: usize) -> Seq<NodeView> {
    Seq::new(
        (nodes.len() - 1) as nat,
        |i: int|
            {
                let source = if i < removed {
                    nodes[i]
                } else {
                    nodes[i + 1]
                };
                NodeView {
                    connections: connections_without(source.connections, removed),
                    ..source
                }
            },
    )
}

/// The connections of one node after the node at `removed` has left.
fn drop_connection(list: &Vec<usize>, removed: usize) -> (kept: Vec<usize>)
    ensures
        kept@ == connections_without(list@, removed),
{
    let mut kept: Vec<usize> = Vec::new();
    let mut found = false;
    let mut i: usize = 0;
    while i < list.len()
        invariant
            0 <= i <= list.len(),
            !found ==> forall|q: int| 0 <= q < i ==> list@[q] != removed,
            !found ==> kept@ == list@.take(i as int).map_values(|c: usize| renumbered(c, removed)),
            found ==> list@.contains(removed),
            found ==> first_position(list@, removed) < i,
            found ==> is_first_position(list@, removed, first_position(list@, removed)),
            found ==> kept@ == list@.take(i as int).remove(
                first_position(list@, removed),
            ).map_values(|c: usize| renumbered(c, removed)),
        decreases list.len() - i,
    {
        let c = list[i];
        if !found && c == removed {
            found = true;
            proof {
                assert(is_first_position(list@, removed, i as int));
                let p = first_position(list@, removed);
                assert(p == i);
                assert(list@.take(i + 1).remove(p) =~= list@.take(i as int));
            }
        } else {
            let moved = if c > removed { c - 1 } else { c };
            kept.push(moved);
            proof {
                if found {
                    let p = first_position(list@, removed);
                    assert(list@.take(i + 1).remove(p) =~= list@.take(i as int).remove(p).push(c));
                } else {
                    assert(list@.take(i + 1) =~= list@.take(i as int).push(c));
                }
            }
        }
        i += 1;
    }
    proof {
        assert(list@.take(i as int) =~= list@);
        if !found {
            assert(!list@.contains(removed));
        }
    }
    kept
}

/// Removes the node at `node_idx` and renumbers the connections of the others.
pub fn remove_node(nodes: &mut Vec<Node>, node_idx: usize)
    requires
        node_idx < old(nodes).len(),
    ensures
        views(final(nodes)@) == without_node(views(old(nodes)@), node_idx),
{
    let mut rest: Vec<Node> = Vec::new();
    let mut i: usize = 0;
    while i < nodes.len()
        invariant
            0 <= i <= nodes.len(),
            node_idx < nodes.len(),
            rest.len() == (if i <= node_idx { i as int } else { i - 1 }),
            forall|j: int| 0 <= j < rest.len() ==> (#[trigger] rest@[j]@)
                == without_node(views(nodes@), node_idx)[j],
        decreases nodes.len() - i,
    {
        if i != node_idx {
            let node = &nodes[i];
            let connections = drop_connection(&node.connections, node_idx);
            rest.push(Node {
                addr: node.addr,
                network_type: node.network_type,
                betweenness: node.betweenness,
                closeness: node.closeness,
                connections,
                geolocation: node.geolocation,
            });
        }
        i += 1;
    }
    proof {
        assert(views(rest@) =~= without_node(views(nodes@), node_idx));
    }
    *nodes = rest;
}

/// `list` holds `target` once at most.
pub open spec fn at_most_once(list: Seq<usize>, target: usize) -> bool {
    forall|p: int, q: int|
        0 <= p < list.len() && 0 <= q < list.len() && list[p] == target && list[q] == target ==> p
            == q
}

/// No node of the list holds `target` twice among its connections.
pub open spec fn named_once(nodes: Seq<NodeView>, target: usize) -> bool {
    forall|i: int| 0 <= i < nodes.len() ==> at_most_once((#[trigger] nodes[i]).connections, target)
}

/// No node of the list holds a connection twice.
pub open spec fn connections_distinct(nodes: Seq<NodeView>) -> bool {
    forall|i: int| 0 <= i < nodes.len() ==> (#[trigger] nodes[i]).connections.no_duplicates()
}

/// The position that a node of the list without `removed` had before.
pub open spec fn position_before(position: int, removed: usize) -> int {
    if position < removed {
        position
    } else {
        position + 1
    }
}

/// A list that holds `target` holds it at a first position.
pub proof fn lemma_first_position(list: Seq<usize>, target: usize)
    requires
        list.contains(target),
    ensures
        is_first_position(list, target, first_position(list, target)),
{
    let some = choose|i: int| 0 <= i < list.len() && list[i] == target;
    let p = scan_for(list, target, 0, some);
    assert(is_first_position(list, target, p));
}

proof fn scan_for(list: Seq<usize>, target: usize, from: int, some: int) -> (p: int)
    requires
        0 <= from <= some < list.len(),
        list[some] == target,
        forall|q: int| 0 <= q < from ==> list[q] != target,
    ensures
        is_first_position(list, target, p),
    decreases list.len() - from,
{
    if list[from] == target {
        from
    } else {
        scan_for(list, target, from + 1, some)
    }
}

/// What stays of a list that named the removed node once at most: each
/// other connection, renumbered, and nothing else.
pub proof fn lemma_connections_without(list: Seq<usize>, removed: usize)
    requires
        at_most_once(list, removed),
    ensures
        forall|b: usize|
            list.contains(b) && b != removed ==> connections_without(list, removed).contains(
                #[trigger] renumbered(b, removed),
            ),
        forall|c: usize| #[trigger]
            connections_without(list, removed).contains(c) ==> exists|b: usize|
                list.contains(b) && b != removed && c == #[trigger] renumbered(b, removed),
{
    let kept = if list.contains(removed) {
        list.remove(first_position(list, removed))
    } else {
        list
    };
    let result = connections_without(list, removed);
    assert(result == kept.map_values(|c: usize| renumbered(c, removed)));
    assert forall|b: usize| kept.contains(b) <==> list.contains(b) && b != removed by {
        if list.contains(removed) {
            lemma_first_position(list, removed);
            let p = first_position(list, removed);
            if kept.contains(b) {
                let q = choose|q: int| 0 <= q < kept.len() && kept[q] == b;
                let at = if q < p {
                    q
                } else {
                    q + 1
                };
                assert(list[at] == b);
            }
            if list.contains(b) && b != removed {
                let at = choose|at: int| 0 <= at < list.len() && list[at] == b;
                let q = if at < p {
                    at
                } else {
                    at - 1
                };
                assert(kept[q] == b);
            }
        }
    }
    assert forall|b: usize| list.contains(b) && b != removed implies result.contains(
        #[trigger] renumbered(b, removed),
    ) by {
        assert(kept.contains(b));
        let q = choose|q: int| 0 <= q < kept.len() && kept[q] == b;
        assert(result[q] == renumbered(b, removed));
    }
    assert forall|c: usize| #[trigger] result.contains(c) implies exists|b: usize|
        list.contains(b) && b != removed && c == #[trigger] renumbered(b, removed) by {
        let q = choose|q: int| 0 <= q < result.len() && result[q] == c;
        assert(kept.contains(kept[q]));
        assert(c == renumbered(kept[q], removed));
    }
}

/// Removing a node keeps every edge between the other nodes, under their new
/// positions, and brings in no edge that was not there, provided that no node
/// named the removed one twice.
pub proof fn lemma_remove_keeps_edges(nodes: Seq<NodeView>, removed: usize)
    requires
        removed < nodes.len(),
        named_once(nodes, removed),
    ensures
        without_node(nodes, removed).len() == nodes.len() - 1,
        forall|p: int, b: usize|
            #![trigger without_node(nodes, removed)[p], renumbered(b, removed)]
            0 <= p < nodes.len() - 1 && b != removed ==> (nodes[position_before(
                p,
                removed,
            )].connections.contains(b) <==> without_node(nodes, removed)[p].connections.contains(
                renumbered(b, removed),
            )),
        forall|p: int, c: usize|
            0 <= p < nodes.len() - 1 && #[trigger] without_node(
                nodes,
                removed,
            )[p].connections.contains(c) ==> exists|b: usize|
                b != removed && c == #[trigger] renumbered(b, removed) && nodes[position_before(
                    p,
                    removed,
                )].connections.contains(b),
{
    let rest = without_node(nodes, removed);
    assert forall|p: int, b: usize|
        #![trigger without_node(nodes, removed)[p], renumbered(b, removed)]
        0 <= p < nodes.len() - 1 && b != removed implies (nodes[position_before(
        p,
        removed,
    )].connections.contains(b) <==> rest[p].connections.contains(renumbered(b, removed))) by {
        let list = nodes[position_before(p, removed)].connections;
        lemma_connections_without(list, removed);
        assert(rest[p].connections == connections_without(list, removed));
        if rest[p].connections.contains(renumbered(b, removed)) {
            let a = choose|a: usize|
                list.contains(a) && a != removed && renumbered(b, removed) == #[trigger] renumbered(
                    a,
                    removed,
                );
            assert(a == b);
        }
    }
    assert forall|p: int, c: usize|
        0 <= p < nodes.len() - 1 && #[trigger] rest[p].connections.contains(c) implies exists|
        b: usize,
    |
        b != removed && c == #[trigger] renumbered(b, removed) && nodes[position_before(
            p,
            removed,
        )].connections.contains(b) by {
        let list = nodes[position_before(p, removed)].connections;
        lemma_connections_without(list, removed);
        assert(rest[p].connections == connections_without(list, removed));
    }
}

/// After a removal the connections are positions of the new list again,
/// provided that they were of the old one and that no node named the removed
/// one twice.
pub proof fn lemma_remove_keeps_range(nodes: Seq<NodeView>, removed: usize)
    requires
        removed < nodes.len(),
        connections_in_range(nodes),
        named_once(nodes, removed),
    ensures
        connections_in_range(without_node(nodes, removed)),
{
    let rest = without_node(nodes, removed);
    assert forall|i: int, j: int|
        0 <= i < rest.len() && 0 <= j < rest[i].connections.len() implies (
    #[trigger] rest[i].connections[j]) < rest.len() by {
        let list = nodes[position_before(i, removed)].connections;
        lemma_connections_without(list, removed);
        let c = rest[i].connections[j];
        assert(rest[i].connections.contains(c));
        let b = choose|b: usize|
            list.contains(b) && b != removed && c == #[trigger] renumbered(b, removed);
        let at = choose|at: int| 0 <= at < list.len() && list[at] == b;
        assert(nodes[position_before(i, removed)].connections[at] < nodes.len());
    }
}

/// A removal leaves lists without repeated connections as such.
pub proof fn lemma_remove_keeps_distinct(nodes: Seq<NodeView>, removed: usize)
    requires
        removed < nodes.len(),
        connections_distinct(nodes),
    ensures
        connections_distinct(without_node(nodes, removed)),
        named_once(nodes, removed),
{
    let rest = without_node(nodes, removed);
    assert forall|i: int| 0 <= i < rest.len()
        implies (#[trigger] rest[i]).connections.no_duplicates() by {
        let list = nodes[position_before(i, removed)].connections;
        assert(list.no_duplicates());
        let kept = if list.contains(removed) {
            list.remove(first_position(list, removed))
        } else {
            list
        };
        if list.contains(removed) {
            lemma_first_position(list, removed);
        }
        assert(kept.no_duplicates());
        assert(!kept.contains(removed)) by {
            if kept.contains(removed) {
                let q = choose|q: int| 0 <= q < kept.len() && kept[q] == removed;
                let p = first_position(list, removed);
                if list.contains(removed) {
                    let at = if q < p {
                        q
                    } else {
                        q + 1
                    };
                    assert(list[at] == removed && list[p] == removed);
                } else {
                    assert(list[q] == removed);
                }
            }
        }
        let mapped = kept.map_values(|c: usize| renumbered(c, removed));
        assert(rest[i].connections == mapped);
        assert forall|x: int, y: int|
            0 <= x < mapped.len() && 0 <= y < mapped.len() && x != y implies mapped[x]
            != mapped[y] by {
            assert(kept.contains(kept[x]));
            assert(kept.contains(kept[y]));
            assert(kept[x] != kept[y]);
        }
    }
    assert forall|i: int| 0 <= i < nodes.len() implies at_most_once(
        (#[trigger] nodes[i]).connections,
        removed,
    ) by {
        assert(nodes[i].connections.no_duplicates());
    }
}

/// The edges that the node at `i` brings into the graph when `peers` are its
/// neighbours: one to each peer that is a position of the list, in both
/// directions, or one to itself where it has no peers at all.
pub open spec fn node_links(nodes: Seq<NodeView>, i: int, peers: Seq<usize>) -> Set<(u128, u128)> {
    Set::new(
        |e: (u128, u128)|
            (peers.len() == 0 && e == (nodes[i].addr, nodes[i].addr)) || exists|j: int|
                #![trigger peers[j]]
                0 <= j < peers.len() && peers[j] < nodes.len() && (e == (
                    nodes[i].addr,
                    nodes[peers[j] as int].addr,
                ) || e == (nodes[peers[j] as int].addr, nodes[i].addr)),
    )
}

/// The edges that the first `bound` nodes bring into the graph, each with the
/// neighbours that `adjacency` gives it.
pub open spec fn links_below(
    nodes: Seq<NodeView>,
    adjacency: Seq<Seq<usize>>,
    bound: int,
) -> Set<(u128, u128)> {
    Set::new(
        |e: (u128, u128)|
            exists|i: int|
                0 <= i < bound && i < nodes.len() && i < adjacency.len() && (#[trigger] node_links(
                    nodes,
                    i,
                    adjacency[i],
                )).contains(e),
    )
}

/// The edges of the graph of a snapshot whose neighbours `adjacency` gives.
pub open spec fn snapshot_edges(nodes: Seq<NodeView>, adjacency: Seq<Seq<usize>>) -> Set<
    (u128, u128),
> {
    links_below(nodes, adjacency, nodes.len() as int)
}

/// The neighbours of each node as the nodes themselves list them.
pub open spec fn own_connections(nodes: Seq<NodeView>) -> Seq<Seq<usize>> {
    Seq::new(nodes.len(), |i: int| nodes[i].connections)
}

/// Adds to the graph the edges of the node at `i` with `peers` as neighbours.
pub(crate) fn link_node(graph: &mut Graph<u128>, nodes: &[Node], i: usize, peers: &Vec<usize>)
    requires
        i < nodes.len(),
    ensures
        graph_edges(*final(graph)) == graph_edges(*old(graph)).union(
            node_links(views(nodes@), i as int, peers@),
        ),
{
    let ghost before = graph_edges(*graph);
    let ghost all = views(nodes@);
    let addr = nodes[i].addr;
    if peers.len() == 0 {
        insert_edge(graph, addr, addr);
        assert(graph_edges(*graph) =~= before.union(node_links(all, i as int, peers@)));
        return ;
    }
    let mut j: usize = 0;
    while j < peers.len()
        invariant
            0 <= j <= peers.len(),
            peers.len() > 0,
            i < nodes.len(),
            all == views(nodes@),
            addr == nodes@[i as int].addr,
            j == 0 ==> graph_edges(*graph) == before,
            j > 0 ==> graph_edges(*graph) == before.union(
                node_links(all, i as int, peers@.take(j as int)),
            ),
        decreases peers.len() - j,
    {
        let peer = peers[j];
        let ghost prior = graph_edges(*graph);
        if peer < nodes.len() {
            let other = nodes[peer].addr;
            insert_edge(graph, addr, other);
        }
        proof {
            let shorter = peers@.take(j as int);
            let longer = peers@.take(j + 1);
            assert(longer[j as int] == peer);
            assert forall|e: (u128, u128)|
                node_links(all, i as int, longer).contains(e) <==> (node_links(
                    all,
                    i as int,
                    shorter,
                ).contains(e) && j > 0) || (peer < nodes.len() && (e == (
                    addr,
                    all[peer as int].addr,
                ) || e == (all[peer as int].addr, addr))) by {
                if node_links(all, i as int, longer).contains(e) {
                    let w = choose|w: int|
                        #![trigger longer[w]]
                        0 <= w < longer.len() && longer[w] < all.len() && (e == (
                            all[i as int].addr,
                            all[longer[w] as int].addr,
                        ) || e == (all[longer[w] as int].addr, all[i as int].addr));
                    if w < j {
                        assert(shorter[w] == longer[w]);
                    }
                }
                if node_links(all, i as int, shorter).contains(e) && j > 0 {
                    let w = choose|w: int|
                        #![trigger shorter[w]]
                        0 <= w < shorter.len() && shorter[w] < all.len() && (e == (
                            all[i as int].addr,
                            all[shorter[w] as int].addr,
                        ) || e == (all[shorter[w] as int].addr, all[i as int].addr));
                    assert(longer[w] == shorter[w]);
                }
            }
            assert(graph_edges(*graph) =~= before.union(node_links(all, i as int, longer)));
        }
        j += 1;
    }
    proof {
        assert(peers@.take(j as int) =~= peers@);
    }
}

/// Builds the graph that the centralities are computed on, from the nodes and
/// their own connections. A node without connections gets an edge to itself,
/// so that the engine has an entry for it; a connection that is no position of
/// the list is passed over.
pub fn construct_graph(nodes: &[Node]) -> (graph: Graph<u128>)
    ensures
        graph_edges(graph) == snapshot_edges(views(nodes@), own_connections(views(nodes@))),
{
    let ghost all = views(nodes@);
    let ghost adjacency = own_connections(all);
    let mut graph = new_graph();
    let mut i: usize = 0;
    while i < nodes.len()
        invariant
            0 <= i <= nodes.len(),
            all == views(nodes@),
            adjacency == own_connections(all),
            graph_edges(graph) == links_below(all, adjacency, i as int),
        decreases nodes.len() - i,
    {
        link_node(&mut graph, nodes, i, &nodes[i].connections);
        proof {
            assert(adjacency[i as int] == nodes@[i as int].connections@);
            let added = node_links(all, i as int, adjacency[i as int]);
            assert forall|e: (u128, u128)|
                links_below(all, adjacency, i + 1).contains(e) <==> links_below(
                    all,
                    adjacency,
                    i as int,
                ).contains(e) || added.contains(e) by {
                if links_below(all, adjacency, i + 1).contains(e) {
                    let w = choose|w: int|
                        0 <= w < i + 1 && w < all.len() && w < adjacency.len() && (
                        #[trigger] node_links(all, w, adjacency[w])).contains(e);
                    if w < i {
                        assert(links_below(all, adjacency, i as int).contains(e));
                    }
                }
            }
            assert(graph_edges(graph) =~= links_below(all, adjacency, i + 1));
        }
        i += 1;
    }
    graph
}

/// The connections that are no position of the list, each with the position
/// of the node that holds it, for the first `bound` nodes and in their order.
pub open spec fn dangling_below(nodes: Seq<NodeView>, bound: int) -> Seq<(usize, usize)>
    decreases bound,
{
    if bound <= 0 {
        Seq::empty()
    } else {
        dangling_below(nodes, bound - 1)
            + dangling_of(nodes, bound - 1, nodes[bound - 1].connections.len() as int)
    }
}

/// The same for the first `bound` connections of the node at `i`.
pub open spec fn dangling_of(nodes: Seq<NodeView>, i: int, bound: int) -> Seq<(usize, usize)>
    decreases bound,
{
    if bound <= 0 {
        Seq::empty()
    } else {
        let connection = nodes[i].connections[bound - 1];
        if connection >= nodes.len() {
            dangling_of(nodes, i, bound - 1).push((i as usize, connection))
        } else {
            dangling_of(nodes, i, bound - 1)
        }
    }
}

/// Lists the connections that `construct_graph` passes over: each pair holds
/// the position of a node and a connection of it that is no position of the
/// list.
pub fn dangling_connections(nodes: &[Node]) -> (dangling: Vec<(usize, usize)>)
    ensures
        dangling@ == dangling_below(views(nodes@), nodes.len() as int),
{
    let ghost all = views(nodes@);
    let mut dangling: Vec<(usize, usize)> = Vec::new();
    let mut i: usize = 0;
    while i < nodes.len()
        invariant
            0 <= i <= nodes.len(),
            all == views(nodes@),
            dangling@ == dangling_below(all, i as int),
        decreases nodes.len() - i,
    {
        let ghost before = dangling@;
        let connections = &nodes[i].connections;
        let mut j: usize = 0;
        while j < connections.len()
            invariant
                0 <= j <= connections.len(),
                i < nodes.len(),
                all == views(nodes@),
                connections@ == all[i as int].connections,
                dangling@ == before + dangling_of(all, i as int, j as int),
            decreases connections.len() - j,
        {
            let connection = connections[j];
            if connection >= nodes.len() {
                dangling.push((i, connection));
            }
            proof {
                assert(dangling@ =~= before + dangling_of(all, i as int, j + 1));
            }
            j += 1;
        }
        i += 1;
    }
    dangling
}

/// `p` is the first position of `keys` that holds their lowest value.
pub open spec fn is_first_lowest(keys: Seq<i64>, p: int) -> bool {
    &&& 0 <= p < keys.len()
    &&& forall|q: int| 0 <= q < p ==> keys[q] > keys[p]
    &&& forall|q: int| p <= q < keys.len() ==> keys[q] >= keys[p]
}

/// The betweenness of the nodes that `nodes_idx` names, in its order.
pub open spec fn betweenness_of(nodes_idx: Seq<usize>, nodes: Seq<NodeView>) -> Seq<i64> {
    Seq::new(nodes_idx.len(), |k: int| nodes[nodes_idx[k] as int].betweenness)
}

/// Finds, among the nodes that `nodes_idx` names, the one with the lowest
/// betweenness: the first of them where several share it. The answer is 0
/// where the list is empty or every betweenness is `i64::MAX`.
pub fn find_lowest_betweenness(nodes_idx: &[usize], state: &IpsState) -> (lowest: usize)
    requires
        forall|k: int| 0 <= k < nodes_idx@.len() ==> nodes_idx@[k] < state.nodes@.len(),
    ensures
        (forall|k: int|
            0 <= k < nodes_idx@.len() ==> betweenness_of(nodes_idx@, views(state.nodes@))[k]
                == i64::MAX) ==> lowest == 0,
        (exists|k: int|
            0 <= k < nodes_idx@.len() && betweenness_of(nodes_idx@, views(state.nodes@))[k]
                < i64::MAX) ==> exists|p: int|
            is_first_lowest(betweenness_of(nodes_idx@, views(state.nodes@)), p) && lowest
                == nodes_idx@[p],
{
    let ghost keys = betweenness_of(nodes_idx@, views(state.nodes@));
    let mut lowest_betweenness: i64 = i64::MAX;
    let mut lowest: usize = 0;
    let ghost mut at: int = -1;
    let mut k: usize = 0;
    while k < nodes_idx.len()
        invariant
            0 <= k <= nodes_idx.len(),
            keys == betweenness_of(nodes_idx@, views(state.nodes@)),
            forall|q: int| 0 <= q < nodes_idx@.len() ==> nodes_idx@[q] < state.nodes@.len(),
            -1 <= at < k,
            at == -1 ==> lowest == 0 && lowest_betweenness == i64::MAX,
            at == -1 ==> forall|q: int| 0 <= q < k ==> keys[q] == i64::MAX,
            at >= 0 ==> lowest == nodes_idx@[at] && lowest_betweenness == keys[at]
                && lowest_betweenness < i64::MAX,
            at >= 0 ==> forall|q: int| 0 <= q < at ==> keys[q] > keys[at],
            at >= 0 ==> forall|q: int| at <= q < k ==> keys[q] >= keys[at],
        decreases nodes_idx.len() - k,
    {
        let idx = nodes_idx[k];
        let betweenness = state.nodes[idx].betweenness;
        assert(betweenness == keys[k as int]);
        if betweenness < lowest_betweenness {
            lowest_betweenness = betweenness;
            lowest = idx;
            proof {
                at = k as int;
            }
        }
        k += 1;
    }
    proof {
        if at >= 0 {
            assert(is_first_lowest(keys, at));
        }
    }
    lowest
}

/// The list once every node from position `from` on that is of another
/// network has been removed, the last of them first.
pub open spec fn pruned_from(nodes: Seq<NodeView>, network: NetworkType, from: int) -> Seq<NodeView>
    decreases nodes.len() - from,
{
    if from < 0 || from >= nodes.len() {
        nodes
    } else {
        let later = pruned_from(nodes, network, from + 1);
        if nodes[from].network_type != network {
            without_node(later, from as usize)
        } else {
            later
        }
    }
}

/// The nodes of one network, renumbered among themselves.
pub open spec fn filtered(nodes: Seq<NodeView>, network: NetworkType) -> Seq<NodeView> {
    pruned_from(nodes, network, 0)
}

/// Two nodes differ in their connections at most.
pub open spec fn same_node(a: NodeView, b: NodeView) -> bool {
    a == (NodeView { connections: a.connections, ..b })
}

/// The nodes of `network` from position `from` on, in their order.
pub open spec fn members_from(
    nodes: Seq<NodeView>,
    network: NetworkType,
    from: int,
) -> Seq<NodeView>
    decreases nodes.len() - from,
{
    if from < 0 || from >= nodes.len() {
        Seq::empty()
    } else if nodes[from].network_type == network {
        seq![nodes[from]] + members_from(nodes, network, from + 1)
    } else {
        members_from(nodes, network, from + 1)
    }
}

/// Removing nodes from position `from` on leaves the nodes before it in
/// place, and behind them the nodes of `network` in their order.
pub proof fn lemma_pruned_shape(nodes: Seq<NodeView>, network: NetworkType, from: int)
    requires
        0 <= from <= nodes.len() <= usize::MAX,
    ensures
        pruned_from(nodes, network, from).len() == from + members_from(nodes, network, from).len(),
        forall|p: int| 0 <= p < from
            ==> same_node(#[trigger] pruned_from(nodes, network, from)[p], nodes[p]),
        forall|p: int|
            0 <= p < members_from(nodes, network, from).len() ==> same_node(
                #[trigger] pruned_from(nodes, network, from)[from + p],
                members_from(nodes, network, from)[p],
            ),
        forall|p: int|
            0 <= p < members_from(nodes, network, from).len() ==> (#[trigger] members_from(
                nodes,
                network,
                from,
            )[p]).network_type == network,
    decreases nodes.len() - from,
{
    if from < nodes.len() {
        lemma_pruned_shape(nodes, network, from + 1);
        let later = pruned_from(nodes, network, from + 1);
        let tail = members_from(nodes, network, from + 1);
        let now = pruned_from(nodes, network, from);
        let members = members_from(nodes, network, from);
        if nodes[from].network_type != network {
            assert(now == without_node(later, from as usize));
            assert forall|p: int| 0 <= p < members.len() implies same_node(
                #[trigger] now[from + p],
                members[p],
            ) by {
                assert(same_node(later[from + 1 + p], tail[p]));
            }
            assert forall|p: int| 0 <= p < from implies same_node(#[trigger] now[p], nodes[p]) by {
                assert(same_node(later[p], nodes[p]));
            }
        } else {
            assert(members == seq![nodes[from]] + tail);
            assert forall|p: int| 0 <= p < members.len() implies same_node(
                #[trigger] now[from + p],
                members[p],
            ) by {
                if p > 0 {
                    assert(same_node(later[from + 1 + (p - 1)], tail[p - 1]));
                }
            }
            assert forall|p: int| 0 <= p < members.len()
                implies (#[trigger] members[p]).network_type
                == network by {
                if p > 0 {
                    assert(tail[p - 1].network_type == network);
                }
            }
        }
    }
}

/// Filtering keeps exactly the nodes of `network`, in their order, and
/// changes nothing of them but their connections.
pub proof fn lemma_filtered_members(nodes: Seq<NodeView>, network: NetworkType)
    requires
        nodes.len() <= usize::MAX,
    ensures
        filtered(nodes, network).len() == members_from(nodes, network, 0).len(),
        forall|p: int|
            0 <= p < filtered(nodes, network).len() ==> same_node(
                #[trigger] filtered(nodes, network)[p],
                members_from(nodes, network, 0)[p],
            ),
        forall|p: int|
            0 <= p < filtered(nodes, network).len() ==> (#[trigger] filtered(
                nodes,
                network,
            )[p]).network_type == network,
{
    lemma_pruned_shape(nodes, network, 0);
    assert forall|p: int| 0 <= p < filtered(nodes, network).len() implies (#[trigger] filtered(
        nodes,
        network,
    )[p]).network_type == network by {
        assert(same_node(pruned_from(nodes, network, 0)[0
            + p], members_from(nodes, network, 0)[p]));
        assert(members_from(nodes, network, 0)[p].network_type == network);
    }
    assert forall|p: int| 0 <= p < filtered(nodes, network).len() implies same_node(
        #[trigger] filtered(nodes, network)[p],
        members_from(nodes, network, 0)[p],
    ) by {
        assert(same_node(pruned_from(nodes, network, 0)[0
            + p], members_from(nodes, network, 0)[p]));
    }
}

/// A list whose nodes are all of `network` is left as it is.
pub proof fn lemma_pruned_unchanged(nodes: Seq<NodeView>, network: NetworkType, from: int)
    requires
        forall|p: int| 0 <= p < nodes.len() ==> (#[trigger] nodes[p]).network_type == network,
    ensures
        pruned_from(nodes, network, from) == nodes,
    decreases nodes.len() - from,
{
    if 0 <= from < nodes.len() {
        lemma_pruned_unchanged(nodes, network, from + 1);
    }
}

/// Filtering a second time by the same network changes nothing.
pub proof fn lemma_filter_idempotent(nodes: Seq<NodeView>, network: NetworkType)
    requires
        nodes.len() <= usize::MAX,
    ensures
        filtered(filtered(nodes, network), network) == filtered(nodes, network),
{
    lemma_filtered_members(nodes, network);
    lemma_pruned_unchanged(filtered(nodes, network), network, 0);
}

/// Filtering leaves connections that are positions of the filtered list,
/// provided that they were positions of the whole list and that no node held
/// a connection twice.
pub proof fn lemma_filter_keeps_range(nodes: Seq<NodeView>, network: NetworkType)
    requires
        nodes.len() <= usize::MAX,
        connections_in_range(nodes),
        connections_distinct(nodes),
    ensures
        connections_in_range(filtered(nodes, network)),
        connections_distinct(filtered(nodes, network)),
{
    lemma_pruned_keeps_range(nodes, network, 0);
}

proof fn lemma_pruned_keeps_range(nodes: Seq<NodeView>, network: NetworkType, from: int)
    requires
        0 <= from <= nodes.len() <= usize::MAX,
        connections_in_range(nodes),
        connections_distinct(nodes),
    ensures
        connections_in_range(pruned_from(nodes, network, from)),
        connections_distinct(pruned_from(nodes, network, from)),
    decreases nodes.len() - from,
{
    if from < nodes.len() {
        lemma_pruned_keeps_range(nodes, network, from + 1);
        if nodes[from].network_type != network {
            let later = pruned_from(nodes, network, from + 1);
            lemma_pruned_shape(nodes, network, from + 1);
            lemma_remove_keeps_distinct(later, from as usize);
            lemma_remove_keeps_range(later, from as usize);
        }
    }
}

/// Makes a list of the nodes of `network` alone: each node of another network
/// is removed, the last of them first, and the connections of the others are
/// renumbered at every removal.
pub fn filter_network(nodes: &[Node], network: NetworkType) -> (network_nodes: Vec<Node>)
    ensures
        views(network_nodes@) == filtered(views(nodes@), network),
{
    let ghost all = views(nodes@);
    let mut network_nodes: Vec<Node> = Vec::new();
    let mut i: usize = 0;
    while i < nodes.len()
        invariant
            0 <= i <= nodes.len(),
            network_nodes.len() == i,
            forall|p: int| 0 <= p < i ==> (#[trigger] network_nodes@[p])@ == nodes@[p]@,
        decreases nodes.len() - i,
    {
        network_nodes.push(nodes[i].clone());
        i += 1;
    }
    assert(views(network_nodes@) =~= all);
    let mut idx: usize = nodes.len();
    while idx > 0
        invariant
            0 <= idx <= nodes.len(),
            all == views(nodes@),
            views(network_nodes@) == pruned_from(all, network, idx as int),
        decreases idx,
    {
        idx -= 1;
        proof {
            lemma_pruned_shape(all, network, idx + 1);
            assert(same_node(pruned_from(all, network, idx + 1)[idx as int], all[idx as int]));
            assert(views(network_nodes@)[idx as int] == network_nodes@[idx as int]@);
        }
        if network_nodes[idx].network_type != network {
            remove_node(&mut network_nodes, idx);
        }
    }
    network_nodes
}

/// Tells whether every connection of every node is a position of the list.
pub fn connections_fit(nodes: &[Node]) -> (fit: bool)
    ensures
        fit == connections_in_range(views(nodes@)),
{
    let ghost all = views(nodes@);
    let mut i: usize = 0;
    while i < nodes.len()
        invariant
            0 <= i <= nodes.len(),
            all == views(nodes@),
            forall|a: int, b: int|
                0 <= a < i && 0 <= b < all[a].connections.len() ==> (
                #[trigger] all[a].connections[b]) < all.len(),
        decreases nodes.len() - i,
    {
        let connections = &nodes[i].connections;
        assert(connections@ == all[i as int].connections);
        let mut j: usize = 0;
        while j < connections.len()
            invariant
                0 <= j <= connections.len(),
                i < nodes.len(),
                all == views(nodes@),
                connections@ == all[i as int].connections,
                forall|b: int| 0 <= b < j ==> (#[trigger] all[i as int].connections[b]) < all.len(),
            decreases connections.len() - j,
        {
            if connections[j] >= nodes.len() {
                assert(all[i as int].connections[j as int] >= all.len());
                return false;
            }
            j += 1;
        }
        i += 1;
    }
    true
}

/// The betweenness of every node, as the costs that a ranking goes by.
pub open spec fn betweenness_costs(nodes: Seq<NodeView>) -> Seq<i128> {
    Seq::new(nodes.len(), |i: int| nodes[i].betweenness as i128)
}

/// Twice the median of the betweenness of the nodes: the sum of the two
/// middle values of the list in ascending order, which are one and the same
/// value where the list is of odd length.
pub open spec fn doubled_median(nodes: Seq<NodeView>) -> int {
    let order = ranking(betweenness_costs(nodes), nodes.len());
    nodes[order[(nodes.len() - 1) / 2] as int].betweenness + nodes[order[nodes.len() as int
        / 2] as int].betweenness
}

/// A betweenness is no less than the threshold: the median times the
/// adjustment, which counts millionths.
pub open spec fn reaches_threshold(betweenness: i64, doubled_median: int, adjustment: u32) -> bool {
    2 * ONE * betweenness >= doubled_median * adjustment
}

/// A betweenness is greater than the threshold.
pub open spec fn exceeds_threshold(betweenness: i64, doubled_median: int, adjustment: u32) -> bool {
    2 * ONE * betweenness > doubled_median * adjustment
}

/// The node at `u` reaches the threshold and names the node at `v`, which
/// exceeds it.
pub open spec fn bridges_to(
    nodes: Seq<NodeView>,
    doubled_median: int,
    adjustment: u32,
    u: usize,
    v: usize,
) -> bool {
    &&& u < nodes.len()
    &&& v < nodes.len()
    &&& reaches_threshold(nodes[u as int].betweenness, doubled_median, adjustment)
    &&& nodes[u as int].connections.contains(v)
    &&& exceeds_threshold(nodes[v as int].betweenness, doubled_median, adjustment)
}

/// A bridge lies between the nodes at `u` and `v`: one of them bridges to
/// the other.
pub open spec fn is_bridge(nodes: Seq<NodeView>, adjustment: u32, u: usize, v: usize) -> bool {
    nodes.len() >= 2 && (bridges_to(nodes, doubled_median(nodes), adjustment, u, v) || bridges_to(
        nodes,
        doubled_median(nodes),
        adjustment,
        v,
        u,
    ))
}

/// A bridge has no direction.
pub proof fn lemma_bridges_symmetric(nodes: Seq<NodeView>, adjustment: u32, u: usize, v: usize)
    ensures
        is_bridge(nodes, adjustment, u, v) <==> is_bridge(nodes, adjustment, v, u),
{
}

/// The pairs that a map of bridges holds: a node and one of the nodes that
/// its entry names.
pub open spec fn bridge_pairs(bridges: Map<usize, HashSet<usize>>) -> Set<(usize, usize)> {
    Set::new(|p: (usize, usize)| bridges.contains_key(p.0) && bridges[p.0]@.contains(p.1))
}

/// Every entry of the map names a node at least.
pub open spec fn entries_filled(bridges: Map<usize, HashSet<usize>>) -> bool {
    forall|u: usize| #[trigger]
        bridges.contains_key(u) ==> exists|v: usize| bridge_pairs(bridges).contains((u, v))
}

fn add_bridge(bridges: &mut HashMap<usize, HashSet<usize>>, from: usize, to: usize)
    requires
        entries_filled(old(bridges)@),
    ensures
        bridge_pairs(final(bridges)@) == bridge_pairs(old(bridges)@).insert((from, to)),
        entries_filled(final(bridges)@),
{
    let ghost before = bridges@;
    let mut ends: HashSet<usize> = match bridges.remove(&from) {
        Some(ends) => ends,
        None => HashSet::new(),
    };
    let ghost had = ends@;
    ends.insert(to);
    let ghost has = ends@;
    bridges.insert(from, ends);
    proof {
        let after = bridges@;
        assert(before.contains_key(from) ==> had == before[from]@);
        assert(!before.contains_key(from) ==> had == Set::<usize>::empty());
        assert(after.contains_key(from) && after[from]@ == has);
        assert forall|p: (usize, usize)|
            bridge_pairs(after).contains(p) <==> bridge_pairs(before).insert((from, to)).contains(
                p,
            ) by {
            if p.0 != from {
                assert(after.contains_key(p.0) == before.contains_key(p.0));
                if before.contains_key(p.0) {
                    assert(after[p.0] == before[p.0]);
                }
            }
        }
        assert(bridge_pairs(after) =~= bridge_pairs(before).insert((from, to)));
        assert forall|u: usize| #[trigger] after.contains_key(u) implies exists|v: usize|
            bridge_pairs(after).contains((u, v)) by {
            if u == from {
                assert(bridge_pairs(after).contains((u, to)));
            } else {
                assert(before.contains_key(u));
                let v = choose|v: usize| bridge_pairs(before).contains((u, v));
                assert(bridge_pairs(after).contains((u, v)));
            }
        }
    }
}

/// The bridges found when the nodes before `bound_u`, and the first
/// `bound_j` connections of the node at `bound_u`, have been looked at.
pub open spec fn bridged_before(
    nodes: Seq<NodeView>,
    doubled_median: int,
    adjustment: u32,
    bound_u: int,
    bound_j: int,
    a: usize,
    b: usize,
) -> bool {
    exists|u: usize, j: int|
        #![trigger nodes[u as int].connections[j]]
        (u < bound_u || (u == bound_u && j < bound_j)) && u < nodes.len() && 0 <= j
            < nodes[u as int].connections.len() && bridges_to(
            nodes,
            doubled_median,
            adjustment,
            u,
            nodes[u as int].connections[j],
        ) && ((a == u && b == nodes[u as int].connections[j]) || (b == u && a
            == nodes[u as int].connections[j]))
}

/// Finds the connections that act as bridges between parts of the network
/// that are well connected in themselves: those whose both ends have a high
/// betweenness. The threshold is the median of the betweenness of all nodes
/// times `threshold_adjustment`, which counts millionths. One end has to
/// reach the threshold and to name the other, which has to exceed it. The
/// map holds each bridge at both of its ends. With fewer than two nodes there
/// are no bridges.
pub fn find_bridges(nodes: &[Node], threshold_adjustment: u32) -> (bridges: HashMap<
    usize,
    HashSet<usize>,
>)
    requires
        connections_in_range(views(nodes@)),
    ensures
        bridge_pairs(bridges@) == Set::new(
            |p: (usize, usize)| is_bridge(views(nodes@), threshold_adjustment, p.0, p.1),
        ),
        entries_filled(bridges@),
        nodes@.len() < 2 ==> bridges@ == Map::<usize, HashSet<usize>>::empty(),
{
    let ghost all = views(nodes@);
    let mut bridges: HashMap<usize, HashSet<usize>> = HashMap::new();
    if nodes.len() < 2 {
        assert(bridge_pairs(bridges@) =~= Set::new(
            |p: (usize, usize)| is_bridge(all, threshold_adjustment, p.0, p.1),
        ));
        return bridges;
    }
    let mut costs: Vec<i128> = Vec::new();
    let mut i: usize = 0;
    while i < nodes.len()
        invariant
            0 <= i <= nodes.len(),
            all == views(nodes@),
            costs@ == betweenness_costs(all).take(i as int),
        decreases nodes.len() - i,
    {
        costs.push(nodes[i].betweenness as i128);
        proof {
            assert(costs@ =~= betweenness_costs(all).take(i + 1));
        }
        i += 1;
    }
    assert(costs@ =~= betweenness_costs(all));
    let order = rank_lowest(&costs, nodes.len());
    let lower = nodes[order[(nodes.len() - 1) / 2]].betweenness;
    let upper = nodes[order[nodes.len() / 2]].betweenness;
    let doubled: i128 = lower as i128 + upper as i128;
    assert(doubled == doubled_median(all));
    let adjustment: i128 = threshold_adjustment as i128;
    assert(-0x1_0000_0000_0000_0000 * 0x1_0000_0000 <= doubled * adjustment
        <= 0x1_0000_0000_0000_0000 * 0x1_0000_0000) by (nonlinear_arith)
        requires
            -0x1_0000_0000_0000_0000 <= doubled <= 0x1_0000_0000_0000_0000,
            0 <= adjustment <= 0x1_0000_0000,
    ;
    let threshold: i128 = doubled * adjustment;
    let mut u: usize = 0;
    while u < nodes.len()
        invariant
            0 <= u <= nodes.len(),
            nodes@.len() >= 2,
            all == views(nodes@),
            connections_in_range(all),
            doubled == doubled_median(all),
            threshold == doubled * threshold_adjustment,
            entries_filled(bridges@),
            bridge_pairs(bridges@) == Set::new(
                |p: (usize, usize)|
                    bridged_before(
                        all,
                        doubled as int,
                        threshold_adjustment,
                        u as int,
                        0,
                        p.0,
                        p.1,
                    ),
            ),
        decreases nodes.len() - u,
    {
        let node = &nodes[u];
        assert(node@ == all[u as int]);
        let reaches = 2_000_000 * (node.betweenness as i128) >= threshold;
        assert(reaches == reaches_threshold(
            node.betweenness,
            doubled as int,
            threshold_adjustment,
        ));
        let mut j: usize = 0;
        while j < node.connections.len()
            invariant
                0 <= j <= node.connections.len(),
                u < nodes.len(),
                nodes@.len() >= 2,
                all == views(nodes@),
                node@ == all[u as int],
                connections_in_range(all),
                threshold == doubled * threshold_adjustment,
                reaches == reaches_threshold(
                    node.betweenness,
                    doubled as int,
                    threshold_adjustment,
                ),
                entries_filled(bridges@),
                bridge_pairs(bridges@) == Set::new(
                    |p: (usize, usize)|
                        bridged_before(
                            all,
                            doubled as int,
                            threshold_adjustment,
                            u as int,
                            j as int,
                            p.0,
                            p.1,
                        ),
                ),
            decreases node.connections.len() - j,
        {
            let peer_idx = node.connections[j];
            assert(peer_idx == all[u as int].connections[j as int]);
            assert(peer_idx < nodes.len());
            let peer = &nodes[peer_idx];
            assert(peer@ == all[peer_idx as int]);
            let exceeds = 2_000_000 * (peer.betweenness as i128) > threshold;
            assert(exceeds == exceeds_threshold(
                peer.betweenness,
                doubled as int,
                threshold_adjustment,
            ));
            let ghost before = bridge_pairs(bridges@);
            if reaches && exceeds {
                add_bridge(&mut bridges, u, peer_idx);
                add_bridge(&mut bridges, peer_idx, u);
            }
            proof {
                let m = doubled as int;
                let t = threshold_adjustment;
                assert(all[u as int].connections.contains(peer_idx));
                assert((reaches && exceeds) == bridges_to(all, m, t, u, peer_idx));
                assert forall|p: (usize, usize)|
                    bridge_pairs(bridges@).contains(p) <==> bridged_before(
                        all,
                        m,
                        t,
                        u as int,
                        j + 1,
                        p.0,
                        p.1,
                    ) by {
                    if bridged_before(all, m, t, u as int, j + 1, p.0, p.1) {
                        let (w, k) = choose|w: usize, k: int|
                            #![trigger all[w as int].connections[k]]
                            (w < u || (w == u && k < j + 1)) && w < all.len() && 0 <= k
                                < all[w as int].connections.len() && bridges_to(
                                all,
                                m,
                                t,
                                w,
                                all[w as int].connections[k],
                            ) && ((p.0 == w && p.1 == all[w as int].connections[k]) || (p.1 == w
                                && p.0 == all[w as int].connections[k]));
                        if w < u || k < j {
                            assert(bridged_before(all, m, t, u as int, j as int, p.0, p.1));
                        }
                    }
                    if before.contains(p) {
                        assert(bridged_before(all, m, t, u as int, j as int, p.0, p.1));
                        let (w, k) = choose|w: usize, k: int|
                            #![trigger all[w as int].connections[k]]
                            (w < u || (w == u && k < j)) && w < all.len() && 0 <= k
                                < all[w as int].connections.len() && bridges_to(
                                all,
                                m,
                                t,
                                w,
                                all[w as int].connections[k],
                            ) && ((p.0 == w && p.1 == all[w as int].connections[k]) || (p.1 == w
                                && p.0 == all[w as int].connections[k]));
                        assert(bridged_before(all, m, t, u as int, j + 1, p.0, p.1));
                    }
                    if reaches && exceeds && (p == (u, peer_idx) || p == (peer_idx, u)) {
                        assert(bridged_before(all, m, t, u as int, j + 1, p.0, p.1));
                    }
                }
                assert(bridge_pairs(bridges@) =~= Set::new(
                    |p: (usize, usize)|
                        bridged_before(all, m, t, u as int, j + 1, p.0, p.1),
                ));
            }
            j += 1;
        }
        proof {
            let m = doubled as int;
            let t = threshold_adjustment;
            assert forall|p: (usize, usize)|
                bridged_before(all, m, t, u as int, j as int, p.0, p.1) <==> bridged_before(
                    all,
                    m,
                    t,
                    u + 1,
                    0,
                    p.0,
                    p.1,
                ) by {
                if bridged_before(all, m, t, u as int, j as int, p.0, p.1) {
                    let (w, k) = choose|w: usize, k: int|
                        #![trigger all[w as int].connections[k]]
                        (w < u || (w == u && k < j)) && w < all.len() && 0 <= k
                            < all[w as int].connections.len() && bridges_to(
                            all,
                            m,
                            t,
                            w,
                            all[w as int].connections[k],
                        ) && ((p.0 == w && p.1 == all[w as int].connections[k]) || (p.1 == w
                            && p.0 == all[w as int].connections[k]));
                    assert(w < u + 1);
                }
                if bridged_before(all, m, t, u + 1, 0, p.0, p.1) {
                    let (w, k) = choose|w: usize, k: int|
                        #![trigger all[w as int].connections[k]]
                        (w < u + 1 || (w == u + 1 && k < 0)) && w < all.len() && 0 <= k
                            < all[w as int].connections.len() && bridges_to(
                            all,
                            m,
                            t,
                            w,
                            all[w as int].connections[k],
                        ) && ((p.0 == w && p.1 == all[w as int].connections[k]) || (p.1 == w
                            && p.0 == all[w as int].connections[k]));
                    assert(w < u || (w == u && k < j));
                }
            }
            assert(bridge_pairs(bridges@) =~= Set::new(
                |p: (usize, usize)| bridged_before(all, m, t, u + 1, 0, p.0, p.1),
            ));
        }
        u += 1;
    }
    proof {
        let m = doubled as int;
        let t = threshold_adjustment;
        assert forall|p: (usize, usize)|
            bridged_before(all, m, t, u as int, 0, p.0, p.1) <==> is_bridge(all, t, p.0, p.1) by {
            if bridged_before(all, m, t, u as int, 0, p.0, p.1) {
                let (w, k) = choose|w: usize, k: int|
                    #![trigger all[w as int].connections[k]]
                    (w < u || (w == u && k < 0)) && w < all.len() && 0 <= k
                        < all[w as int].connections.len() && bridges_to(
                        all,
                        m,
                        t,
                        w,
                        all[w as int].connections[k],
                    ) && ((p.0 == w && p.1 == all[w as int].connections[k]) || (p.1 == w && p.0
                        == all[w as int].connections[k]));
            }
            if bridges_to(all, m, t, p.0, p.1) {
                let k = choose|k: int|
                    0 <= k < all[p.0 as int].connections.len() && all[p.0 as int].connections[k]
                        == p.1;
                assert(bridges_to(all, m, t, p.0, all[p.0 as int].connections[k]));
            }
            if bridges_to(all, m, t, p.1, p.0) {
                let k = choose|k: int|
                    0 <= k < all[p.1 as int].connections.len() && all[p.1 as int].connections[k]
                        == p.0;
                assert(bridges_to(all, m, t, p.1, all[p.1 as int].connections[k]));
            }
        }
        assert(bridge_pairs(bridges@) =~= Set::new(
            |p: (usize, usize)| is_bridge(all, t, p.0, p.1),
        ));
    }
    bridges
}

} // verus!
