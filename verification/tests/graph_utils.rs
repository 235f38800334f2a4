use std::collections::HashSet;

use peer_sharing::graph_utils::{
    connections_fit, construct_graph, dangling_connections, filter_network, find_bridges,
    find_lowest_betweenness, remove_node,
};
use peer_sharing::node::{IpsState, Location, NetworkType, Node};

fn v4(a: u8, b: u8, c: u8, d: u8) -> u128 {
    0xffff_0000_0000 | u128::from(u32::from_be_bytes([a, b, c, d]))
}

#[test]
fn construct_graph_test() {
    let nodes = vec![
        Node {
            addr: v4(0, 0, 0, 0),
            connections: vec![1, 2],
            ..Default::default()
        },
        Node {
            addr: v4(1, 0, 0, 0),
            connections: vec![0, 2],
            ..Default::default()
        },
        Node {
            addr: v4(2, 0, 0, 0),
            connections: vec![0, 1],
            ..Default::default()
        },
    ];

    let mut graph = construct_graph(&nodes);
    let degrees = graph.degree_centrality();
    assert_eq!(degrees.get(&v4(0, 0, 0, 0)).unwrap(), &2);
    assert_eq!(degrees.get(&v4(1, 0, 0, 0)).unwrap(), &2);
    assert_eq!(degrees.get(&v4(2, 0, 0, 0)).unwrap(), &2);
}

#[test]
fn find_bridges_test() {
    let nodes = vec![
        Node {
            addr: v4(0, 0, 0, 0),
            betweenness: 1_000_000,
            connections: vec![1, 2],
            ..Default::default()
        },
        Node {
            addr: v4(0, 0, 0, 0),
            betweenness: 1_500_000,
            connections: vec![0, 2, 3],
            ..Default::default()
        },
        Node {
            addr: v4(0, 0, 0, 0),
            betweenness: 1_300_000,
            connections: vec![1, 3],
            ..Default::default()
        },
        Node {
            addr: v4(0, 0, 0, 0),
            betweenness: 3_100_000,
            connections: vec![1, 2, 4],
            ..Default::default()
        },
        Node {
            addr: v4(0, 0, 0, 0),
            betweenness: 3_200_000,
            connections: vec![3, 5, 7],
            ..Default::default()
        },
        Node {
            addr: v4(0, 0, 0, 0),
            betweenness: 1_000_000,
            connections: vec![4, 6],
            ..Default::default()
        },
        Node {
            addr: v4(0, 0, 0, 0),
            betweenness: 1_200_000,
            connections: vec![5, 7],
            ..Default::default()
        },
        Node {
            addr: v4(0, 0, 0, 0),
            betweenness: 1_400_000,
            connections: vec![4, 6],
            ..Default::default()
        },
    ];

    let bridges = find_bridges(&nodes, 1_250_000);
    assert!(bridges.contains_key(&3));
    let peers = bridges.get(&3).unwrap();
    assert_eq!(peers.len(), 1);
    assert!(peers.contains(&4));

    assert_eq!(bridges.len(), 2);
    assert_eq!(bridges.get(&4).unwrap(), &HashSet::from([3]));
}

fn mixed_snapshot() -> Vec<Node> {
    vec![
        Node {
            addr: v4(1, 0, 0, 0),
            connections: vec![1, 2],
            network_type: NetworkType::Zcash,
            ..Default::default()
        },
        Node {
            addr: v4(2, 0, 0, 0),
            network_type: NetworkType::Zcash,
            connections: vec![0, 2, 3],
            ..Default::default()
        },
        Node {
            addr: v4(3, 0, 0, 0),
            network_type: NetworkType::Unknown,
            connections: vec![1, 3],
            ..Default::default()
        },
        Node {
            addr: v4(4, 0, 0, 0),
            network_type: NetworkType::Unknown,
            connections: vec![1, 2, 4],
            ..Default::default()
        },
        Node {
            addr: v4(5, 0, 0, 0),
            network_type: NetworkType::Unknown,
            connections: vec![3, 5, 7],
            ..Default::default()
        },
        Node {
            addr: v4(6, 0, 0, 0),
            network_type: NetworkType::Unknown,
            connections: vec![4, 6],
            ..Default::default()
        },
        Node {
            addr: v4(7, 0, 0, 0),
            network_type: NetworkType::Zcash,
            connections: vec![5, 7],
            ..Default::default()
        },
        Node {
            addr: v4(8, 0, 0, 0),
            network_type: NetworkType::Unknown,
            connections: vec![4, 6],
            ..Default::default()
        },
    ]
}

#[test]
fn filter_network_test() {
    let nodes = mixed_snapshot();

    let filtered = filter_network(&nodes, NetworkType::Zcash);
    assert_eq!(filtered.len(), 3);
    for node in filtered {
        assert!(node.network_type == NetworkType::Zcash);
    }

    let filtered = filter_network(&nodes, NetworkType::Ripple);
    assert_eq!(filtered.len(), 0);

    let filtered = filter_network(&nodes, NetworkType::Unknown);
    assert_eq!(filtered.len(), 5);
    for node in filtered {
        assert!(node.network_type == NetworkType::Unknown);
    }
}

#[test]
fn filter_network_renumbers_connections() {
    let nodes = mixed_snapshot();
    let filtered = filter_network(&nodes, NetworkType::Zcash);
    let addrs: Vec<u128> = filtered.iter().map(|n| n.addr).collect();
    assert_eq!(addrs, vec![v4(1, 0, 0, 0), v4(2, 0, 0, 0), v4(7, 0, 0, 0)]);
    // node 0 named 1 and 2 (gone); node 1 named 0, 2, 3; node 6 named 5 and 7
    assert_eq!(filtered[0].connections, vec![1]);
    assert_eq!(filtered[1].connections, vec![0]);
    assert_eq!(filtered[2].connections, Vec::<usize>::new());
    for node in &filtered {
        for c in &node.connections {
            assert!(*c < 3);
        }
    }
}

#[test]
fn filter_network_twice_changes_nothing() {
    let nodes = mixed_snapshot();
    let once = filter_network(&nodes, NetworkType::Unknown);
    let twice = filter_network(&once, NetworkType::Unknown);
    assert_eq!(once.len(), twice.len());
    for (a, b) in once.iter().zip(twice.iter()) {
        assert_eq!(a.addr, b.addr);
        assert_eq!(a.connections, b.connections);
        assert_eq!(a.network_type, b.network_type);
    }
}

#[test]
fn remove_node_renumbers() {
    let mut nodes = vec![
        Node {
            addr: 10,
            connections: vec![1, 2, 3],
            ..Default::default()
        },
        Node {
            addr: 11,
            connections: vec![0, 3],
            betweenness: 5,
            ..Default::default()
        },
        Node {
            addr: 12,
            connections: vec![3, 1, 0],
            closeness: 7,
            geolocation: Some(Location {
                latitude: 1,
                longitude: 2,
            }),
            ..Default::default()
        },
        Node {
            addr: 13,
            connections: vec![],
            ..Default::default()
        },
    ];
    remove_node(&mut nodes, 1);
    assert_eq!(nodes.len(), 3);
    assert_eq!(nodes[0].addr, 10);
    assert_eq!(nodes[1].addr, 12);
    assert_eq!(nodes[2].addr, 13);
    assert_eq!(nodes[0].connections, vec![1, 2]);
    assert_eq!(nodes[1].connections, vec![2, 0]);
    assert_eq!(nodes[2].connections, Vec::<usize>::new());
    assert_eq!(nodes[1].closeness, 7);
    assert_eq!(
        nodes[1].geolocation,
        Some(Location {
            latitude: 1,
            longitude: 2
        })
    );
}

#[test]
fn remove_node_drops_first_mention_only() {
    let mut nodes = vec![
        Node {
            addr: 1,
            connections: vec![2, 1, 1, 0],
            ..Default::default()
        },
        Node {
            addr: 2,
            ..Default::default()
        },
        Node {
            addr: 3,
            ..Default::default()
        },
    ];
    remove_node(&mut nodes, 1);
    assert_eq!(nodes[0].connections, vec![1, 1, 0]);
}

#[test]
fn remove_last_node() {
    let mut nodes = vec![Node {
        addr: 1,
        connections: vec![0],
        ..Default::default()
    }];
    remove_node(&mut nodes, 0);
    assert!(nodes.is_empty());
}

#[test]
fn find_lowest_betweenness_picks_first_lowest() {
    let nodes: Vec<Node> = [5, 3, 9, 3, 4]
        .iter()
        .map(|b| Node {
            betweenness: *b,
            ..Default::default()
        })
        .collect();
    let state = IpsState { nodes };
    assert_eq!(find_lowest_betweenness(&[0, 1, 2, 3, 4], &state), 1);
    assert_eq!(find_lowest_betweenness(&[4, 3, 1], &state), 3);
    assert_eq!(find_lowest_betweenness(&[2, 0], &state), 0);
    assert_eq!(find_lowest_betweenness(&[2], &state), 2);
}

#[test]
fn find_lowest_betweenness_without_candidates() {
    let state = IpsState {
        nodes: vec![
            Node {
                betweenness: i64::MAX,
                ..Default::default()
            },
            Node {
                betweenness: i64::MAX,
                ..Default::default()
            },
        ],
    };
    assert_eq!(find_lowest_betweenness(&[], &state), 0);
    assert_eq!(find_lowest_betweenness(&[1], &state), 0);
}

#[test]
fn construct_graph_isolated_and_dangling() {
    let nodes = vec![
        Node {
            addr: 100,
            connections: vec![],
            ..Default::default()
        },
        Node {
            addr: 101,
            connections: vec![7, 2],
            ..Default::default()
        },
        Node {
            addr: 102,
            connections: vec![9],
            ..Default::default()
        },
    ];
    let mut graph = construct_graph(&nodes);
    assert_eq!(graph.edge_count(), 2);
    let degrees = graph.degree_centrality();
    assert_eq!(degrees.get(&100), Some(&1));
    assert_eq!(degrees.get(&101), Some(&1));
    assert_eq!(degrees.get(&102), Some(&1));
    assert_eq!(dangling_connections(&nodes), vec![(1, 7), (2, 9)]);
}

#[test]
fn construct_graph_of_nothing() {
    let nodes: Vec<Node> = Vec::new();
    let mut graph = construct_graph(&nodes);
    assert_eq!(graph.edge_count(), 0);
    assert!(graph.degree_centrality().is_empty());
    assert!(dangling_connections(&nodes).is_empty());
}

#[test]
fn find_bridges_needs_two_nodes() {
    let nodes = vec![Node {
        betweenness: 5_000_000,
        ..Default::default()
    }];
    assert!(find_bridges(&nodes, 1_000_000).is_empty());
    assert!(find_bridges(&[], 1_000_000).is_empty());
}

#[test]
fn find_bridges_is_symmetric() {
    // 0 reaches the threshold (equal to it) and names 1, which exceeds it.
    let nodes = vec![
        Node {
            betweenness: 2_000_000,
            connections: vec![1, 2],
            ..Default::default()
        },
        Node {
            betweenness: 3_000_000,
            connections: vec![],
            ..Default::default()
        },
        Node {
            betweenness: 2_000_000,
            connections: vec![0],
            ..Default::default()
        },
    ];
    // median 2.0, adjustment 1.0: threshold 2.0
    let bridges = find_bridges(&nodes, 1_000_000);
    assert_eq!(bridges.len(), 2);
    assert_eq!(bridges.get(&0).unwrap(), &HashSet::from([1]));
    assert_eq!(bridges.get(&1).unwrap(), &HashSet::from([0]));
    for (u, ends) in &bridges {
        for v in ends {
            assert!(bridges.get(v).unwrap().contains(u));
        }
    }
}

#[test]
fn find_bridges_even_count_uses_mean_of_middle() {
    // sorted 1, 2, 4, 9: median 3.0; adjustment 1.5: threshold 4.5
    let nodes = vec![
        Node {
            betweenness: 9_000_000,
            connections: vec![1, 2, 3],
            ..Default::default()
        },
        Node {
            betweenness: 4_000_000,
            connections: vec![0],
            ..Default::default()
        },
        Node {
            betweenness: 2_000_000,
            connections: vec![0],
            ..Default::default()
        },
        Node {
            betweenness: 1_000_000,
            connections: vec![0],
            ..Default::default()
        },
    ];
    assert!(find_bridges(&nodes, 1_500_000).is_empty());
    // adjustment 1.0: threshold 3.0; 0 and 1 lie above it
    let bridges = find_bridges(&nodes, 1_000_000);
    assert_eq!(bridges.len(), 2);
    assert_eq!(bridges.get(&0).unwrap(), &HashSet::from([1]));
    assert_eq!(bridges.get(&1).unwrap(), &HashSet::from([0]));
}

#[test]
fn connections_fit_the_list() {
    assert!(connections_fit(&mixed_snapshot()[..3]) == false);
    let nodes = filter_network(&mixed_snapshot(), NetworkType::Zcash);
    assert!(connections_fit(&nodes));
    assert!(connections_fit(&[]));
    let lone = vec![Node {
        connections: vec![0, 1],
        ..Default::default()
    }];
    assert!(!connections_fit(&lone));
}
