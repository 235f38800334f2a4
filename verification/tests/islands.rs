use std::collections::HashSet;

use peer_sharing::islands::{adjacency_fits, detect_islands};
use spectre::edge::Edge;
use spectre::graph::Graph;

#[test]
fn detect_islands_test_no_islands() {
    let mut graph = Graph::new();
    let mut ipaddrs: Vec<u128> = Vec::new();

    for i in 0..10u128 {
        // 192.168.0.i
        ipaddrs.push(0xc0a8_0000 + i);
    }

    // Case where each node is connected to all other nodes
    for i in 0..10 {
        for j in 0..10 {
            if i == j {
                continue;
            }
            graph.insert(Edge::new(ipaddrs[i], ipaddrs[j]));
        }
    }

    let agraph = graph.get_filtered_adjacency_indices(&ipaddrs);
    let islands = detect_islands(&agraph);

    assert_eq!(islands.len(), 1);
    assert_eq!(islands[0].len(), 10);
}

#[test]
fn detect_islands_test() {
    let mut graph = Graph::new();
    let mut ipaddrs: Vec<u128> = Vec::new();

    for i in 0..10u128 {
        // 192.169.0.i
        ipaddrs.push(0xc0a9_0000 + i);
    }

    // Each node is connected only to itself - each node is an island
    for i in 0..10 {
        for j in 0..10 {
            if i != j {
                continue;
            }
            graph.insert(Edge::new(ipaddrs[i], ipaddrs[j]));
        }
    }

    let agraph = graph.get_filtered_adjacency_indices(&ipaddrs);
    let islands = detect_islands(&agraph);

    assert_eq!(islands.len(), ipaddrs.len());
    for (i, island) in islands.iter().enumerate() {
        assert_eq!(island.len(), 1);
        assert!(island.contains(&i));
    }
}

#[test]
fn detect_islands_of_nothing() {
    let agraph: Vec<Vec<usize>> = Vec::new();
    assert!(detect_islands(&agraph).is_empty());
}

#[test]
fn detect_islands_in_order_of_first_node() {
    // 0 - 3 - 4, 1 - 2, 5 alone
    let agraph = vec![vec![3], vec![2], vec![1], vec![0, 4], vec![3], vec![]];
    let islands = detect_islands(&agraph);
    assert_eq!(islands.len(), 3);
    assert_eq!(islands[0], HashSet::from([0, 3, 4]));
    assert_eq!(islands[1], HashSet::from([1, 2]));
    assert_eq!(islands[2], HashSet::from([5]));
}

#[test]
fn detect_islands_follows_one_way_neighbours() {
    // 0 names nobody, 1 names 0 and 2: 0 is found first and stays alone.
    let agraph = vec![vec![], vec![0, 2], vec![]];
    let islands = detect_islands(&agraph);
    assert_eq!(islands.len(), 2);
    assert_eq!(islands[0], HashSet::from([0]));
    assert_eq!(islands[1], HashSet::from([1, 2]));
}

#[test]
fn detect_islands_partitions_the_nodes() {
    let agraph = vec![
        vec![1],
        vec![0, 2],
        vec![1],
        vec![4],
        vec![3],
        vec![5],
        vec![],
    ];
    let islands = detect_islands(&agraph);
    let mut seen = vec![0; agraph.len()];
    for island in &islands {
        for node in island {
            seen[*node] += 1;
            for neighbour in &agraph[*node] {
                assert!(island.contains(neighbour));
            }
        }
    }
    assert_eq!(seen, vec![1; agraph.len()]);
    assert_eq!(islands.len(), 4);
}

#[test]
fn adjacency_fits_the_nodes() {
    let agraph = vec![vec![1, 2], vec![0], vec![]];
    assert!(adjacency_fits(&agraph, 3));
    assert!(!adjacency_fits(&agraph, 2));
    assert!(!adjacency_fits(&agraph, 4));
    assert!(!adjacency_fits(&vec![vec![1, 3], vec![0], vec![]], 3));
    assert!(!adjacency_fits(&vec![vec![], vec![], vec![3]], 3));
    assert!(adjacency_fits(&Vec::new(), 0));
}
