use std::collections::HashMap;

use peer_sharing::config::{GeoLocationMode, IPSConfiguration, MCDAWeights};
use peer_sharing::error::IpsError;
use peer_sharing::ips::{
    change_counts, choose_candidates, choose_victims, desired_degree, pick_best_rated,
    pick_least_central, Ips, PeerEntry,
};
use peer_sharing::node::{IpsState, Location, Node};
use peer_sharing::normalization::NormalizationFactors;
use peer_sharing::ranking::rank_lowest;

fn here() -> Option<Location> {
    Some(Location {
        latitude: 0,
        longitude: 0,
    })
}

fn line_of_four() -> (IpsState, Vec<Vec<usize>>) {
    let agraph = vec![vec![1], vec![0, 2], vec![1, 3], vec![2]];
    let betweenness = [0, 2_000_000, 2_000_000, 0];
    let nodes = (0..4)
        .map(|i| Node {
            addr: 10 + i as u128,
            betweenness: betweenness[i],
            connections: agraph[i].clone(),
            ..Default::default()
        })
        .collect();
    (IpsState { nodes }, agraph)
}

fn degree_only() -> IPSConfiguration {
    IPSConfiguration {
        mcda_weights: MCDAWeights {
            degree: 1_000_000,
            ..Default::default()
        },
        change_at_least: 1,
        change_no_more: 2,
        ..Default::default()
    }
}

fn zeros(state: &IpsState) -> HashMap<u128, i64> {
    state.nodes.iter().map(|n| (n.addr, 0)).collect()
}

#[test]
fn generate_line_of_four() {
    let (state, agraph) = line_of_four();
    let mut ips = Ips::new(degree_only());
    let peers = ips
        .generate(&state, &agraph, &zeros(&state), &Vec::new())
        .unwrap();
    assert_eq!(peers.len(), 4);
    assert_eq!(peers[0].ip, 10);
    assert_eq!(peers[0].list, vec![11, 13]);
    assert_eq!(peers[1].ip, 11);
    assert_eq!(peers[1].list, vec![10, 12, 13]);
    assert_eq!(peers[2].ip, 12);
    assert_eq!(peers[2].list, vec![11, 13, 10]);
    assert_eq!(peers[3].ip, 13);
    assert_eq!(peers[3].list, vec![12, 10]);
    assert_eq!(ips.degree_factors, NormalizationFactors { min: 1, max: 2 });
    assert_eq!(
        ips.betweenness_factors,
        NormalizationFactors {
            min: 0,
            max: 2_000_000
        }
    );
    assert_eq!(ips.closeness_factors, NormalizationFactors { min: 0, max: 0 });
    assert_eq!(
        ips.eigenvector_factors,
        NormalizationFactors { min: 0, max: 0 }
    );
}

#[test]
fn generate_lists_are_sound() {
    let (state, agraph) = line_of_four();
    let config = degree_only();
    let mut ips = Ips::new(config);
    let peers = ips
        .generate(&state, &agraph, &zeros(&state), &Vec::new())
        .unwrap();
    assert_eq!(peers.len(), state.nodes.len());
    for (i, peer) in peers.iter().enumerate() {
        assert_eq!(peer.ip, state.nodes[i].addr);
        assert!(!peer.list.contains(&peer.ip));
        for ip in &peer.list {
            assert!(state.nodes.iter().any(|n| n.addr == *ip));
        }
        assert!(peer.list.len() >= agraph[i].len());
        assert!(peer.list.len() <= agraph[i].len() + config.change_no_more as usize);
        for (k, j) in agraph[i].iter().enumerate() {
            assert_eq!(peer.list[k], state.nodes[*j].addr);
        }
    }
}

#[test]
fn generate_twice_gives_the_same() {
    let (state, agraph) = line_of_four();
    let mut first = Ips::new(degree_only());
    let mut second = Ips::new(degree_only());
    let a = first
        .generate(&state, &agraph, &zeros(&state), &Vec::new())
        .unwrap();
    let b = second
        .generate(&state, &agraph, &zeros(&state), &Vec::new())
        .unwrap();
    let again = first
        .generate(&state, &agraph, &zeros(&state), &Vec::new())
        .unwrap();
    for i in 0..a.len() {
        assert_eq!(a[i].ip, b[i].ip);
        assert_eq!(a[i].list, b[i].list);
        assert_eq!(a[i].list, again[i].list);
    }
    assert_eq!(first, second);
}

#[test]
fn generate_without_nodes() {
    let state = IpsState { nodes: Vec::new() };
    let mut ips = Ips::new(degree_only());
    let before = ips;
    let peers = ips
        .generate(&state, &Vec::new(), &HashMap::new(), &Vec::new())
        .unwrap();
    assert!(peers.is_empty());
    assert_eq!(ips, before);
}

#[test]
fn generate_single_node() {
    let state = IpsState {
        nodes: vec![Node {
            addr: 42,
            betweenness: 3,
            closeness: 4,
            ..Default::default()
        }],
    };
    let mut ips = Ips::new(degree_only());
    let eigenvalues = HashMap::from([(42u128, 1_000_000i64)]);
    let peers = ips
        .generate(&state, &vec![vec![]], &eigenvalues, &Vec::new())
        .unwrap();
    assert_eq!(peers.len(), 1);
    assert_eq!(peers[0].ip, 42);
    assert!(peers[0].list.is_empty());
    assert_eq!(ips.degree_factors, NormalizationFactors { min: 1, max: 1 });
    assert_eq!(
        ips.eigenvector_factors,
        NormalizationFactors {
            min: 1_000_000,
            max: 1_000_000
        }
    );
}

#[test]
fn generate_missing_centrality() {
    let (state, agraph) = line_of_four();
    let mut ips = Ips::new(degree_only());
    let before = ips;
    let mut eigenvalues = zeros(&state);
    eigenvalues.remove(&12);
    let result = ips.generate(&state, &agraph, &eigenvalues, &Vec::new());
    assert_eq!(result.err(), Some(IpsError::MissingCentrality));
    assert_eq!(ips, before);
}

#[test]
fn plan_peers_missing_degree() {
    let (state, agraph) = line_of_four();
    let mut ips = Ips::new(degree_only());
    let degrees = HashMap::from([(10u128, 1u32), (11, 2), (12, 2)]);
    let result = ips.plan_peers(&state.nodes, &agraph, &degrees, &zeros(&state), &Vec::new());
    assert_eq!(result.err(), Some(IpsError::MissingCentrality));
}

#[test]
fn plan_peers_uses_given_degrees() {
    let (state, agraph) = line_of_four();
    let mut config = degree_only();
    config.change_at_least = 0;
    config.change_no_more = 5;
    let mut ips = Ips::new(config);
    // sum 12, average 3: node 0 of degree 0 wants round(1.5) = 2 and is
    // offered 2 peers; the others are at or above what they want.
    let degrees = HashMap::from([(10u128, 0u32), (11, 4), (12, 4), (13, 4)]);
    let peers = ips
        .plan_peers(&state.nodes, &agraph, &degrees, &zeros(&state), &Vec::new())
        .unwrap();
    // candidates of node 0: 2 and 3, both rated 100; the shortlist holds
    // both, and 3 has the lower betweenness.
    assert_eq!(peers[0].list, vec![11, 13, 12]);
    assert_eq!(peers[1].list, vec![10, 12]);
    assert_eq!(peers[2].list, vec![11, 13]);
    assert_eq!(peers[3].list, vec![12]);
    assert_eq!(ips.degree_factors, NormalizationFactors { min: 0, max: 4 });
}

#[test]
fn generate_with_all_weights_zero_goes_by_betweenness() {
    let agraph = vec![vec![], vec![], vec![], vec![], vec![]];
    let betweenness = [5, 4, 3, 2, 1];
    let nodes = (0..5)
        .map(|i| Node {
            addr: 100 + i as u128,
            betweenness: betweenness[i],
            ..Default::default()
        })
        .collect();
    let state = IpsState { nodes };
    let config = IPSConfiguration {
        change_at_least: 1,
        change_no_more: 4,
        ..Default::default()
    };
    let mut ips = Ips::new(config);
    let peers = ips
        .generate(&state, &agraph, &zeros(&state), &Vec::new())
        .unwrap();
    // Every node has degree 1 (its edge to itself) and is offered one peer.
    // All ratings are equal, so the shortlist holds the two first candidates
    // in the order of the snapshot, and the one of lower betweenness is taken.
    assert_eq!(peers[0].list, vec![102]);
    assert_eq!(peers[1].list, vec![102]);
    assert_eq!(peers[2].list, vec![101]);
    assert_eq!(peers[3].list, vec![101]);
    assert_eq!(peers[4].list, vec![101]);
}

#[test]
fn generate_counts_location_in() {
    let agraph = vec![vec![], vec![], vec![], vec![]];
    let nodes: Vec<Node> = (0..4)
        .map(|i| Node {
            addr: 200 + i as u128,
            geolocation: if i == 3 { None } else { here() },
            ..Default::default()
        })
        .collect();
    let state = IpsState { nodes };
    let config = IPSConfiguration {
        mcda_weights: MCDAWeights {
            location: 1_000_000,
            ..Default::default()
        },
        geolocation: GeoLocationMode::PreferCloser,
        geolocation_minmax_distance_km: 1,
        change_at_least: 1,
        change_no_more: 1,
        ..Default::default()
    };
    let distances = vec![
        vec![0, 5_000, 10, 10],
        vec![5_000, 0, 1_500, 10],
        vec![10, 1_500, 0, 10],
        vec![10, 10, 10, 0],
    ];
    let mut ips = Ips::new(config);
    let peers = ips
        .generate(&state, &agraph, &zeros(&state), &distances)
        .unwrap();
    // For node 0: node 1 is far (rating 0), node 2 near (100), node 3 has no
    // location (0). The shortlist is 2, then 1; both have betweenness 0, so
    // the order of the shortlist decides.
    assert_eq!(peers[0].list, vec![202]);
    // For node 1: node 0 is far (0), node 2 within twice the step (66.67).
    assert_eq!(peers[1].list, vec![202]);
    // For node 2: node 0 near (100), node 1 within twice the step.
    assert_eq!(peers[2].list, vec![200]);
    // Node 3 has no location: nothing is counted in, the first two
    // candidates are shortlisted.
    assert_eq!(peers[3].list, vec![200]);

    let mut off = Ips::new(IPSConfiguration {
        geolocation: GeoLocationMode::Off,
        ..config
    });
    let peers = off
        .generate(&state, &agraph, &zeros(&state), &distances)
        .unwrap();
    assert_eq!(peers[0].list, vec![201]);
    assert_eq!(peers[1].list, vec![200]);
}

#[test]
fn rate_node_weighs_the_factors() {
    let mut ips = Ips::new(IPSConfiguration {
        mcda_weights: MCDAWeights {
            degree: 500_000,
            betweenness: 250_000,
            closeness: 1_000_000,
            eigenvector: 2_000_000,
            location: 0,
        },
        ..Default::default()
    });
    ips.degree_factors = NormalizationFactors { min: 1, max: 5 };
    ips.betweenness_factors = NormalizationFactors {
        min: 0,
        max: 10_000_000,
    };
    ips.closeness_factors = NormalizationFactors { min: 2, max: 2 };
    ips.eigenvector_factors = NormalizationFactors { min: 0, max: 4 };
    let node = Node {
        betweenness: 5_000_000,
        closeness: 2,
        ..Default::default()
    };
    // 100 * (0.5 * 0.5 + 0.25 * 0.5 + 1.0 * 0 + 2.0 * 0.25) = 87.5
    assert_eq!(ips.rate_node(&node, 3, 1), 87_500_000_000_000);
}

#[test]
fn rate_node_with_zero_weights() {
    let mut ips = Ips::new(IPSConfiguration::default());
    ips.degree_factors = NormalizationFactors { min: 0, max: 9 };
    ips.betweenness_factors = NormalizationFactors { min: 0, max: 9 };
    let a = Node {
        betweenness: 9,
        closeness: 1,
        ..Default::default()
    };
    let b = Node::default();
    assert_eq!(ips.rate_node(&a, 9, 5), 0);
    assert_eq!(ips.rate_node(&b, 0, 0), 0);
}

#[test]
fn rate_node_at_the_limits() {
    let mut ips = Ips::new(IPSConfiguration {
        mcda_weights: MCDAWeights {
            degree: u32::MAX,
            betweenness: u32::MAX,
            closeness: u32::MAX,
            eigenvector: u32::MAX,
            location: 0,
        },
        ..Default::default()
    });
    ips.betweenness_factors = NormalizationFactors { min: 0, max: 1 };
    ips.closeness_factors = NormalizationFactors {
        min: i64::MAX,
        max: i64::MAX - 1,
    };
    let node = Node {
        betweenness: i64::MAX,
        closeness: i64::MIN,
        ..Default::default()
    };
    let weight = u32::MAX as i128;
    let expected = 100
        * (weight * (i64::MAX as i128) * 1_000_000 + weight * ((1i128 << 64) - 1) * 1_000_000);
    assert_eq!(ips.rate_node(&node, 0, 0), expected);
}

fn zero_ratings(count: usize) -> Vec<PeerEntry> {
    (0..count)
        .map(|i| PeerEntry {
            ip: i as u128,
            index: i,
            rating: 0,
        })
        .collect()
}

fn located_nodes(count: usize) -> Vec<Node> {
    (0..count)
        .map(|i| Node {
            addr: i as u128,
            geolocation: here(),
            ..Default::default()
        })
        .collect()
}

fn ratings_of(entries: &[PeerEntry]) -> Vec<i128> {
    entries.iter().map(|e| e.rating).collect()
}

#[test]
fn location_rating_prefer_closer() {
    let ips = Ips::new(IPSConfiguration {
        mcda_weights: MCDAWeights {
            location: 1_000_000,
            ..Default::default()
        },
        geolocation: GeoLocationMode::PreferCloser,
        geolocation_minmax_distance_km: 1000,
        ..Default::default()
    });
    let nodes = located_nodes(7);
    let mut ratings = zero_ratings(7);
    let distances = [
        0, 999_999, 1_000_000, 1_999_999, 2_000_000, 2_999_999, 3_000_000,
    ];
    ips.update_rating_by_location(&nodes[0], &nodes, &mut ratings, &distances);
    assert_eq!(
        ratings_of(&ratings),
        vec![
            100_000_000_000_000,
            100_000_000_000_000,
            66_670_000_000_000,
            66_670_000_000_000,
            33_330_000_000_000,
            33_330_000_000_000,
            0
        ]
    );
    for (i, entry) in ratings.iter().enumerate() {
        assert_eq!(entry.index, i);
        assert_eq!(entry.ip, i as u128);
    }
}

#[test]
fn location_rating_prefer_farther() {
    let ips = Ips::new(IPSConfiguration {
        mcda_weights: MCDAWeights {
            location: 500_000,
            ..Default::default()
        },
        geolocation: GeoLocationMode::PreferFarther,
        geolocation_minmax_distance_km: 1000,
        ..Default::default()
    });
    let nodes = located_nodes(6);
    let mut ratings = zero_ratings(6);
    ratings[5].rating = -7;
    let distances = [0, 499_999, 500_000, 999_999, 1_000_000, 5_000_000];
    ips.update_rating_by_location(&nodes[0], &nodes, &mut ratings, &distances);
    assert_eq!(
        ratings_of(&ratings),
        vec![
            0,
            0,
            25_000_000_000_000,
            25_000_000_000_000,
            50_000_000_000_000,
            49_999_999_999_993
        ]
    );
}

#[test]
fn location_rating_skips_what_has_no_location() {
    let config = IPSConfiguration {
        mcda_weights: MCDAWeights {
            location: 1_000_000,
            ..Default::default()
        },
        geolocation: GeoLocationMode::PreferCloser,
        geolocation_minmax_distance_km: 1000,
        ..Default::default()
    };
    let ips = Ips::new(config);
    let mut nodes = located_nodes(4);
    nodes[1].geolocation = None;
    let mut ratings = zero_ratings(4);
    // no distance is given for the last node
    ips.update_rating_by_location(&nodes[0], &nodes, &mut ratings, &[0, 0, 0]);
    assert_eq!(
        ratings_of(&ratings),
        vec![100_000_000_000_000, 0, 100_000_000_000_000, 0]
    );

    // the selecting node has no location
    let mut ratings = zero_ratings(4);
    ips.update_rating_by_location(&nodes[1], &nodes, &mut ratings, &[0, 0, 0, 0]);
    assert_eq!(ratings_of(&ratings), vec![0, 0, 0, 0]);

    // the location is switched off
    let off = Ips::new(IPSConfiguration {
        geolocation: GeoLocationMode::Off,
        ..config
    });
    let mut ratings = zero_ratings(4);
    off.update_rating_by_location(&nodes[0], &nodes, &mut ratings, &[0, 0, 0, 0]);
    assert_eq!(ratings_of(&ratings), vec![0, 0, 0, 0]);
}

#[test]
fn desired_degree_rounds_half_up() {
    assert_eq!(desired_degree(6, 4, 1), 1);
    assert_eq!(desired_degree(6, 4, 2), 2);
    assert_eq!(desired_degree(0, 1, 0), 0);
    assert_eq!(desired_degree(3, 2, 0), 1);
    assert_eq!(desired_degree(2, 2, 0), 1);
    assert_eq!(desired_degree(2, 2, 1), 1);
    assert_eq!(desired_degree(10, 2, 0), 3);
    assert_eq!(desired_degree(0, 7, u32::MAX), 2_147_483_648);
}

#[test]
fn desired_degree_is_capped() {
    assert_eq!(desired_degree(u128::MAX, 1, 0), u32::MAX);
    assert_eq!(desired_degree(u128::MAX, usize::MAX, u32::MAX), u32::MAX);
    assert_eq!(desired_degree(2 * (u32::MAX as u128), 1, 0), u32::MAX);
    assert_eq!(desired_degree(2 * (u32::MAX as u128) - 2, 1, 0), u32::MAX - 1);
    assert_eq!(desired_degree(1 << 33, 1, u32::MAX), u32::MAX);
}

#[test]
fn change_counts_cases() {
    assert_eq!(change_counts(1, 3, 1, 5), (2, 1));
    assert_eq!(change_counts(5, 2, 1, 10), (1, 4));
    assert_eq!(change_counts(5, 2, 1, 3), (1, 3));
    assert_eq!(change_counts(2, 2, 0, 4), (0, 0));
    assert_eq!(change_counts(2, 2, 3, 2), (3, 2));
    assert_eq!(
        change_counts(u32::MAX, 0, u32::MAX, u32::MAX),
        (u32::MAX, u32::MAX)
    );
}

#[test]
fn rank_lowest_orders_by_cost_then_position() {
    let costs = vec![3, 1, 2, 1];
    assert_eq!(rank_lowest(&costs, 2), vec![1, 3]);
    assert_eq!(rank_lowest(&costs, 10), vec![1, 3, 2, 0]);
    assert_eq!(rank_lowest(&costs, 0), Vec::<usize>::new());
    assert_eq!(rank_lowest(&Vec::new(), 3), Vec::<usize>::new());
    assert_eq!(
        rank_lowest(&vec![i128::MAX, i128::MIN, 0], 3),
        vec![1, 2, 0]
    );
}

fn entries(ratings: &[i128]) -> Vec<PeerEntry> {
    ratings
        .iter()
        .enumerate()
        .map(|(i, r)| PeerEntry {
            ip: 50 + i as u128,
            index: i,
            rating: *r,
        })
        .collect()
}

fn indices(entries: &[PeerEntry]) -> Vec<usize> {
    entries.iter().map(|e| e.index).collect()
}

#[test]
fn choose_victims_keeps_the_best() {
    let current = entries(&[5, 9, 1, 9]);
    assert_eq!(indices(&choose_victims(&current, 1)), vec![1, 3, 0]);
    assert_eq!(indices(&choose_victims(&current, 0)), vec![1, 3, 0, 2]);
    assert_eq!(indices(&choose_victims(&current, 3)), vec![1]);
    assert!(choose_victims(&current, 4).is_empty());
    assert!(choose_victims(&current, 10).is_empty());
}

#[test]
fn pick_best_rated_handles_extreme_ratings() {
    let list = entries(&[i128::MIN, i128::MAX, 0]);
    assert_eq!(indices(&pick_best_rated(&list, 3)), vec![1, 2, 0]);
    assert_eq!(indices(&pick_best_rated(&list, u64::MAX)), vec![1, 2, 0]);
}

#[test]
fn pick_least_central_goes_by_betweenness() {
    let nodes: Vec<Node> = [7, 3, 5, 3]
        .iter()
        .map(|b| Node {
            betweenness: *b,
            ..Default::default()
        })
        .collect();
    let list = entries(&[0, 0, 0, 0]);
    assert_eq!(indices(&pick_least_central(&list, &nodes, 3)), vec![1, 3, 2]);
    let reordered = vec![list[3], list[0], list[1]];
    assert_eq!(
        indices(&pick_least_central(&reordered, &nodes, 2)),
        vec![3, 1]
    );
}

#[test]
fn choose_candidates_shortlists_then_picks() {
    let nodes: Vec<Node> = [1, 9, 8, 2, 0, 0]
        .iter()
        .enumerate()
        .map(|(i, b)| Node {
            addr: 50 + i as u128,
            betweenness: *b,
            ..Default::default()
        })
        .collect();
    let ratings = entries(&[100, 90, 80, 70, 60, 50]);
    // Node 0 chooses and lists node 5 already. The candidates are 1, 2, 3, 4;
    // the shortlist of 2 * 2 holds all four; 4 and 3 have the lowest
    // betweenness.
    let added = choose_candidates(&ratings, &nodes, 0, &vec![55], 2);
    assert_eq!(added, vec![54, 53]);
    // With one to add the shortlist holds 1 and 2 only.
    let added = choose_candidates(&ratings, &nodes, 0, &vec![55], 1);
    assert_eq!(added, vec![52]);
    assert!(choose_candidates(&ratings, &nodes, 0, &vec![55], 0).is_empty());
    // More wanted than there are candidates.
    let added = choose_candidates(&ratings, &nodes, 3, &vec![50, 51, 52], u32::MAX);
    assert_eq!(added, vec![54, 55]);
}

#[test]
fn select_peers_builds_the_list() {
    let (state, agraph) = line_of_four();
    let ips = Ips::new(degree_only());
    let const_factors = entries(&[0, 100, 100, 0]);
    let const_factors: Vec<PeerEntry> = const_factors
        .iter()
        .map(|e| PeerEntry {
            ip: state.nodes[e.index].addr,
            ..*e
        })
        .collect();
    let peer = ips.select_peers(&state.nodes, &agraph[0], 0, &const_factors, 1, 6, &[]);
    assert_eq!(peer.ip, 10);
    assert_eq!(peer.list, vec![11, 13]);
    // A node far below the average is offered more, up to the cap.
    let peer = ips.select_peers(&state.nodes, &agraph[0], 0, &const_factors, 1, 40, &[]);
    assert_eq!(peer.list, vec![11, 13, 12]);
}

#[test]
fn construct_graph_from_adjacency() {
    let (state, _) = line_of_four();
    let ips = Ips::new(IPSConfiguration::default());
    // the adjacency decides, not the connections of the nodes
    let agraph = vec![vec![1, 2, 3], vec![0], vec![0, 9], vec![]];
    let mut graph = ips.construct_graph(&state.nodes, &agraph);
    let degrees = graph.degree_centrality();
    assert_eq!(degrees.get(&10), Some(&3));
    assert_eq!(degrees.get(&11), Some(&1));
    assert_eq!(degrees.get(&12), Some(&1));
    // node 3 has no neighbours of its own: its edge to itself counts too
    assert_eq!(degrees.get(&13), Some(&2));
    assert_eq!(graph.edge_count(), 4);
}

#[test]
fn default_configuration() {
    let config = IPSConfiguration::default();
    assert_eq!(config.geolocation, GeoLocationMode::Off);
    assert_eq!(config.change_at_least, 0);
    assert_eq!(config.change_no_more, 0);
    assert_eq!(config.bridge_threshold_adjustment, 1_000_000);
    assert_eq!(config.mcda_weights, MCDAWeights::default());
    let ips = Ips::new(config);
    assert_eq!(ips.config, config);
    assert_eq!(ips.degree_factors, NormalizationFactors { min: 0, max: 0 });
}
