//! Intelligent peer sharing: every node is rated by its degree, betweenness,
//! closeness and eigenvector centrality, each with a weight, and where asked
//! by how far it lies from the node that the peers are chosen for. The best
//! rated nodes that a node does not know yet are offered to it as new peers.

use vstd::prelude::*;
use std::collections::HashMap;
use spectre::graph::Graph;
use crate::config::{GeoLocationMode, IPSConfiguration, MCDAWeights};
use crate::engine::{degree_centrality, degree_map, graph_edges, neighbours, new_graph, touches};
use crate::error::IpsError;
use crate::graph_utils::{link_node, links_below, node_links, snapshot_edges};
use crate::islands::{adjacency_in_range, adjacency_symmetric, detect_islands, rows, AGraph};
use crate::node::IpsState;
use crate::node::{Node, NodeView, views, ONE};
use crate::ranking::{is_ranking, lemma_ranking_unique, rank_lowest, ranking};
use crate::normalization::{
    highest,
    lemma_scaled_limit,
    lowest,
    scaled,
    scaled_limit,
    NormalizationFactors,
};

verus! {

/// What every factor of a rating is scaled to before its weight is applied.
pub const NORMALIZE_TO_VALUE: u64 = 100;

/// The location rating of the nearest peers, or of the farthest, in
/// millionths.
pub const LOCATION_FULL: u64 = 100_000_000;

/// The location rating of peers within twice the configured distance when
/// nearer ones are preferred.
pub const LOCATION_NEAR: u64 = 66_670_000;

/// The location rating of peers within three times the configured distance
/// when nearer ones are preferred.
pub const LOCATION_FAR: u64 = 33_330_000;

/// The location rating of peers within the configured distance, but not
/// within half of it, when farther ones are preferred.
pub const LOCATION_HALF: u64 = 50_000_000;

/// The peer selection, with its configuration and the normalization factors
/// of the last run.
#[derive(Clone, Copy, Debug, PartialEq, Eq, Structural)]
pub struct Ips {
    pub config: IPSConfiguration,
    pub degree_factors: NormalizationFactors,
    pub betweenness_factors: NormalizationFactors,
    pub closeness_factors: NormalizationFactors,
    pub eigenvector_factors: NormalizationFactors,
}

/// The peers that a node is advised to have.
#[derive(Clone, Debug)]
pub struct Peer {
    /// The address of the node.
    pub ip: u128,
    /// The addresses of its peers.
    pub list: Vec<u128>,
}

/// A node as a candidate: its address, its position in the snapshot and its
/// rating, which counts millionths of millionths.
#[derive(Clone, Copy, Debug, PartialEq, Eq, Structural)]
pub struct PeerEntry {
    pub ip: u128,
    pub index: usize,
    pub rating: i128,
}

/// One factor of a rating: the scaled value times its weight.
pub open spec fn weighted(weight: u32, factors: NormalizationFactors, value: int) -> int {
    weight * scaled(factors.min as int, factors.max as int, value)
}

/// The rating of a node that does not depend on who asks.
pub open spec fn node_rating(ips: Ips, node: NodeView, degree: u32, eigenvalue: i64) -> int {
    let weights = ips.config.mcda_weights;
    NORMALIZE_TO_VALUE * (weighted(weights.degree, ips.degree_factors, degree as int)
        + weighted(weights.betweenness, ips.betweenness_factors, node.betweenness as int)
        + weighted(weights.closeness, ips.closeness_factors, node.closeness as int)
        + weighted(weights.eigenvector, ips.eigenvector_factors, eigenvalue as int))
}

/// How far one factor of a rating can lie from zero.
pub open spec fn weighted_limit() -> int {
    0x1_0000_0000 * scaled_limit()
}

/// How far a rating can lie from zero before the location counts.
pub open spec fn rating_limit() -> int {
    400 * weighted_limit()
}

/// A rating stays within its limit, whatever the node and the factors.
pub proof fn lemma_rating_limit(ips: Ips, node: NodeView, degree: u32, eigenvalue: i64)
    ensures
        -rating_limit() < node_rating(ips, node, degree, eigenvalue) < rating_limit(),
        rating_limit() + LOCATION_FULL * u32::MAX < i128::MAX,
{
    let w = ips.config.mcda_weights;
    lemma_weighted_limit(w.degree, ips.degree_factors, degree as i64);
    lemma_weighted_limit(w.betweenness, ips.betweenness_factors, node.betweenness);
    lemma_weighted_limit(w.closeness, ips.closeness_factors, node.closeness);
    lemma_weighted_limit(w.eigenvector, ips.eigenvector_factors, eigenvalue);
    assert(rating_limit() + LOCATION_FULL * u32::MAX < i128::MAX);
}

proof fn lemma_weighted_limit(weight: u32, factors: NormalizationFactors, value: i64)
    ensures
        -weighted_limit() < weighted(weight, factors, value as int) < weighted_limit(),
{
    lemma_scaled_limit(factors.min, factors.max, value);
    let s = scaled(factors.min as int, factors.max as int, value as int);
    let l = scaled_limit();
    assert(-(0x1_0000_0000 * l) < weight * s < 0x1_0000_0000 * l) by (nonlinear_arith)
        requires
            0 <= weight < 0x1_0000_0000,
            -l < s < l,
    ;
}

/// With every weight at zero all nodes rate the same: zero.
pub proof fn lemma_zero_weights(ips: Ips, node: NodeView, degree: u32, eigenvalue: i64)
    requires
        ips.config.mcda_weights.degree == 0,
        ips.config.mcda_weights.betweenness == 0,
        ips.config.mcda_weights.closeness == 0,
        ips.config.mcda_weights.eigenvector == 0,
    ensures
        node_rating(ips, node, degree, eigenvalue) == 0,
{
}

/// The distance, in metres, that the steps of the location rating are
/// measured in.
pub open spec fn distance_step(config: IPSConfiguration) -> int {
    config.geolocation_minmax_distance_km * 1000
}

/// The location rating of a peer at `distance` metres, in millionths.
pub open spec fn location_rating(mode: GeoLocationMode, step: int, distance: int) -> int {
    match mode {
        GeoLocationMode::Off => 0,
        GeoLocationMode::PreferCloser => if distance < step {
            LOCATION_FULL as int
        } else if distance < 2 * step {
            LOCATION_NEAR as int
        } else if distance < 3 * step {
            LOCATION_FAR as int
        } else {
            0
        },
        GeoLocationMode::PreferFarther => if 2 * distance < step {
            0
        } else if distance < step {
            LOCATION_HALF as int
        } else {
            LOCATION_FULL as int
        },
    }
}

/// What the location adds to the rating of the candidate at position `c`
/// when peers are chosen for `selected`: its location rating times the
/// weight of the location, and nothing where the location does not count,
/// where either node has none, or where no distance is given.
pub open spec fn location_bonus(
    config: IPSConfiguration,
    selected: NodeView,
    candidate: NodeView,
    distances: Seq<u64>,
    c: int,
) -> int {
    if config.geolocation != GeoLocationMode::Off && selected.geolocation.is_some()
        && candidate.geolocation.is_some() && 0 <= c < distances.len() {
        location_rating(config.geolocation, distance_step(config), distances[c] as int)
            * config.mcda_weights.location
    } else {
        0
    }
}

/// The location adds nothing where it is switched off, and never more than
/// the full rating times the greatest weight.
pub proof fn lemma_location_bonus(
    config: IPSConfiguration,
    selected: NodeView,
    candidate: NodeView,
    distances: Seq<u64>,
    c: int,
)
    ensures
        config.geolocation == GeoLocationMode::Off ==> location_bonus(
            config,
            selected,
            candidate,
            distances,
            c,
        ) == 0,
        0 <= location_bonus(config, selected, candidate, distances, c) <= LOCATION_FULL * u32::MAX,
{
    let bonus = location_bonus(config, selected, candidate, distances, c);
    if bonus != 0 {
        let r = location_rating(config.geolocation, distance_step(config), distances[c] as int);
        let w = config.mcda_weights.location;
        assert(0 <= r * w <= LOCATION_FULL * u32::MAX) by (nonlinear_arith)
            requires
                0 <= r <= LOCATION_FULL,
                0 <= w <= u32::MAX,
        ;
    }
}

/// The ratings once the location has been counted in for `selected`.
pub open spec fn located(
    config: IPSConfiguration,
    selected: NodeView,
    nodes: Seq<NodeView>,
    distances: Seq<u64>,
    ratings: Seq<PeerEntry>,
) -> Seq<PeerEntry> {
    Seq::new(
        ratings.len(),
        |c: int|
            if c < nodes.len() {
                PeerEntry {
                    rating: (ratings[c].rating + location_bonus(
                        config,
                        selected,
                        nodes[c],
                        distances,
                        c,
                    )) as i128,
                    ..ratings[c]
                }
            } else {
                ratings[c]
            },
    )
}

/// The degree that a node should have: half way between its own and the
/// average of all, rounded to the nearest whole number (a half upwards),
/// and no more than a degree can be.
pub open spec fn desired_degree_of(degree_sum: int, count: int, degree: int) -> int {
    let rounded = (degree_sum + count * degree + count) / (2 * count);
    if rounded > u32::MAX {
        u32::MAX as int
    } else {
        rounded
    }
}

/// How many of its peers a node should let go.
pub open spec fn peers_to_delete(desired: u32, degree: u32, change_at_least: u32) -> u32 {
    if desired < degree {
        (degree - desired) as u32
    } else {
        change_at_least
    }
}

/// How many new peers a node should be offered.
pub open spec fn peers_to_add(
    desired: u32,
    degree: u32,
    change_at_least: u32,
    change_no_more: u32,
) -> u32 {
    let wanted = if desired > degree {
        desired - degree + peers_to_delete(desired, degree, change_at_least)
    } else {
        change_at_least as int
    };
    if wanted > change_no_more {
        change_no_more
    } else {
        wanted as u32
    }
}

/// Computes the degree that a node should have from the sum of the degrees
/// of all `count` nodes and its own degree.
pub fn desired_degree(degree_sum: u128, count: usize, degree: u32) -> (desired: u32)
    requires
        count > 0,
    ensures
        desired == desired_degree_of(degree_sum as int, count as int, degree as int),
{
    let n: u128 = count as u128;
    let cap: u128 = 0xffff_ffff;
    assert(0x2_0000_0000 * n <= 0x2_0000_0000 * 0x1_0000_0000_0000_0000) by (nonlinear_arith)
        requires
            0 < n < 0x1_0000_0000_0000_0000,
    ;
    let bound: u128 = 0x2_0000_0000 * n;
    if degree_sum >= bound {
        proof {
            let t = degree_sum + n * degree + n;
            assert(t / (2 * n) >= 0x1_0000_0000) by (nonlinear_arith)
                requires
                    t >= 0x1_0000_0000 * (2 * n),
                    n > 0,
            ;
        }
        return u32::MAX;
    }
    assert(n * degree <= 0x1_0000_0000_0000_0000 * 0xffff_ffff) by (nonlinear_arith)
        requires
            0 < n < 0x1_0000_0000_0000_0000,
            0 <= degree <= 0xffff_ffff,
    ;
    let rounded: u128 = (degree_sum + n * (degree as u128) + n) / (2 * n);
    if rounded > cap {
        u32::MAX
    } else {
        rounded as u32
    }
}

/// Computes how many peers a node should let go and how many it should be
/// offered.
pub fn change_counts(
    desired: u32,
    degree: u32,
    change_at_least: u32,
    change_no_more: u32,
) -> (counts: (u32, u32))
    ensures
        counts.0 == peers_to_delete(desired, degree, change_at_least),
        counts.1 == peers_to_add(desired, degree, change_at_least, change_no_more),
        counts.1 <= change_no_more,
{
    let to_delete: u32 = if desired < degree {
        degree - desired
    } else {
        change_at_least
    };
    let wanted: u64 = if desired > degree {
        (desired - degree) as u64 + to_delete as u64
    } else {
        change_at_least as u64
    };
    let to_add: u32 = if wanted > change_no_more as u64 {
        change_no_more
    } else {
        wanted as u32
    };
    (to_delete, to_add)
}

impl Default for Ips {
    fn default() -> (ips: Self)
        ensures
            ips.config == (IPSConfiguration {
                mcda_weights: MCDAWeights {
                    degree: 0,
                    betweenness: 0,
                    closeness: 0,
                    eigenvector: 0,
                    location: 0,
                },
                geolocation: GeoLocationMode::Off,
                geolocation_minmax_distance_km: 0,
                change_at_least: 0,
                change_no_more: 0,
                bridge_threshold_adjustment: ONE as u32,
            }),
            ips.degree_factors == (NormalizationFactors { min: 0, max: 0 }),
            ips.betweenness_factors == (NormalizationFactors { min: 0, max: 0 }),
            ips.closeness_factors == (NormalizationFactors { min: 0, max: 0 }),
            ips.eigenvector_factors == (NormalizationFactors { min: 0, max: 0 }),
    {
        Ips::new(IPSConfiguration::default())
    }
}

impl Ips {
    /// A peer selection with the given configuration.
    pub fn new(config: IPSConfiguration) -> (ips: Ips)
        ensures
            ips.config == config,
            ips.degree_factors == (NormalizationFactors { min: 0, max: 0 }),
            ips.betweenness_factors == (NormalizationFactors { min: 0, max: 0 }),
            ips.closeness_factors == (NormalizationFactors { min: 0, max: 0 }),
            ips.eigenvector_factors == (NormalizationFactors { min: 0, max: 0 }),
    {
        Ips {
            config,
            degree_factors: NormalizationFactors { min: 0, max: 0 },
            betweenness_factors: NormalizationFactors { min: 0, max: 0 },
            closeness_factors: NormalizationFactors { min: 0, max: 0 },
            eigenvector_factors: NormalizationFactors { min: 0, max: 0 },
        }
    }

    fn weigh(weight: u32, factors: &NormalizationFactors, value: i64) -> (part: i128)
        ensures
            part == weighted(weight, *factors, value as int),
            -weighted_limit() < part < weighted_limit(),
    {
        proof {
            lemma_weighted_limit(weight, *factors, value);
            lemma_scaled_limit(factors.min, factors.max, value);
            assert(weighted_limit() < i128::MAX);
        }
        (weight as i128) * factors.scale(value)
    }

    /// Rates a node by its four centralities, each scaled by the factors of
    /// the run and weighted as configured.
    pub fn rate_node(&self, node: &Node, degree: u32, eigenvalue: i64) -> (rating: i128)
        ensures
            rating == node_rating(*self, node@, degree, eigenvalue),
    {
        proof {
            assert(rating_limit() < i128::MAX);
        }
        let weights = &self.config.mcda_weights;
        let mut sum: i128 = Self::weigh(weights.degree, &self.degree_factors, degree as i64);
        sum = sum + Self::weigh(weights.betweenness, &self.betweenness_factors, node.betweenness);
        sum = sum + Self::weigh(weights.closeness, &self.closeness_factors, node.closeness);
        sum = sum + Self::weigh(weights.eigenvector, &self.eigenvector_factors, eigenvalue);
        assert(-rating_limit() < NORMALIZE_TO_VALUE * sum < rating_limit()) by (nonlinear_arith)
            requires
                -4 * weighted_limit() < sum < 4 * weighted_limit(),
                NORMALIZE_TO_VALUE == 100,
                rating_limit() == 400 * weighted_limit(),
        ;
        (NORMALIZE_TO_VALUE as i128) * sum
    }

    /// Counts the location in: the rating of every node that has a location
    /// grows by its location rating, seen from `selected_node`, times the
    /// weight of the location. `distances` holds the distance in metres from
    /// `selected_node` to each node. Nothing changes where the location is
    /// switched off or `selected_node` has none.
    pub fn update_rating_by_location(
        &self,
        selected_node: &Node,
        nodes: &[Node],
        ratings: &mut Vec<PeerEntry>,
        distances: &[u64],
    )
        requires
            nodes@.len() <= old(ratings)@.len(),
            forall|c: int|
                0 <= c < nodes@.len() ==> (#[trigger] old(ratings)@[c]).rating + LOCATION_FULL
                    * u32::MAX <= i128::MAX,
        ensures
            final(ratings)@ == located(
                self.config,
                selected_node@,
                views(nodes@),
                distances@,
                old(ratings)@,
            ),
            self.config.geolocation == GeoLocationMode::Off ==> final(ratings)@ == old(ratings)@,
    {
        let ghost before = ratings@;
        let ghost all = views(nodes@);
        let ghost after = located(self.config, selected_node@, all, distances@, before);
        proof {
            assert forall|c: int| 0 <= c < before.len() implies after[c].rating == before[c].rating
                + location_bonus(self.config, selected_node@, all[c], distances@, c) || c
                >= all.len() by {
                if c < all.len() {
                    lemma_location_bonus(self.config, selected_node@, all[c], distances@, c);
                }
            }
        }
        let mode = self.config.geolocation;
        if mode == GeoLocationMode::Off || selected_node.geolocation.is_none() {
            assert(before =~= after);
            return ;
        }
        let step: u64 = self.config.geolocation_minmax_distance_km as u64 * 1000;
        let weight: i128 = self.config.mcda_weights.location as i128;
        let mut c: usize = 0;
        while c < nodes.len()
            invariant
                0 <= c <= nodes.len(),
                nodes@.len() <= before.len(),
                ratings@.len() == before.len(),
                all == views(nodes@),
                mode == self.config.geolocation,
                mode != GeoLocationMode::Off,
                selected_node@.geolocation.is_some(),
                step == distance_step(self.config),
                weight == self.config.mcda_weights.location,
                after == located(self.config, selected_node@, all, distances@, before),
                forall|k: int| 0 <= k < c ==> ratings@[k] == after[k],
                forall|k: int| c <= k < before.len() ==> ratings@[k] == before[k],
                forall|k: int|
                    0 <= k < nodes@.len() ==> (#[trigger] before[k]).rating + LOCATION_FULL
                        * u32::MAX <= i128::MAX,
            decreases nodes.len() - c,
        {
            if nodes[c].geolocation.is_some() && c < distances.len() {
                let distance = distances[c];
                let rating: u64 = if mode == GeoLocationMode::PreferCloser {
                    if distance < step {
                        LOCATION_FULL
                    } else if distance < 2 * step {
                        LOCATION_NEAR
                    } else if distance < 3 * step {
                        LOCATION_FAR
                    } else {
                        0
                    }
                } else {
                    if distance < step / 2 {
                        0
                    } else if distance < step {
                        LOCATION_HALF
                    } else {
                        LOCATION_FULL
                    }
                };
                proof {
                    assert(all[c as int] == nodes@[c as int]@);
                    assert(rating == location_rating(mode, step as int, distance as int));
                    lemma_location_bonus(
                        self.config,
                        selected_node@,
                        all[c as int],
                        distances@,
                        c as int,
                    );
                    assert(before[c as int].rating + LOCATION_FULL * u32::MAX <= i128::MAX);
                }
                let entry = ratings[c];
                let bonus: i128 = (rating as i128) * weight;
                ratings.set(
                    c,
                    PeerEntry { ip: entry.ip, index: entry.index, rating: entry.rating + bonus },
                );
            } else {
                proof {
                    assert(all[c as int] == nodes@[c as int]@);
                }
            }
            c += 1;
        }
        assert(ratings@ =~= after);
    }
}

/// The entries that `picks` names, in its order.
pub open spec fn picked(entries: Seq<PeerEntry>, picks: Seq<usize>) -> Seq<PeerEntry> {
    Seq::new(picks.len(), |k: int| entries[picks[k] as int])
}

/// The costs by which the best rated entry is ranked first.
pub open spec fn rating_costs(entries: Seq<PeerEntry>) -> Seq<i128> {
    Seq::new(entries.len(), |k: int| (-1 - entries[k].rating) as i128)
}

/// The costs by which the entry of the lowest betweenness is ranked first.
pub open spec fn centrality_costs(entries: Seq<PeerEntry>, nodes: Seq<NodeView>) -> Seq<i128> {
    Seq::new(entries.len(), |k: int| nodes[entries[k].index as int].betweenness as i128)
}

/// The `count` best rated entries, the best first; of two with one rating
/// the one that stands first.
pub open spec fn best_rated(entries: Seq<PeerEntry>, count: nat) -> Seq<PeerEntry> {
    picked(entries, ranking(rating_costs(entries), count))
}

/// The `count` entries of the lowest betweenness, the lowest first; of two
/// with one betweenness the one that stands first.
pub open spec fn least_central(entries: Seq<PeerEntry>, nodes: Seq<NodeView>, count: nat) -> Seq<
    PeerEntry,
> {
    picked(entries, ranking(centrality_costs(entries, nodes), count))
}

/// Whether an entry may be offered to the node at `node_idx`, which lists
/// `listed` already: it is another node, and its address is not listed.
pub open spec fn is_candidate(node_idx: usize, listed: Seq<u128>) -> spec_fn(PeerEntry) -> bool {
    |entry: PeerEntry| entry.index != node_idx && !listed.contains(entry.ip)
}

/// The addresses of the peers that a node is offered: of the entries that
/// may be offered, the `2 * to_add` best rated are shortlisted, and of those
/// the `to_add` of the lowest betweenness are taken.
pub open spec fn new_peers(
    ratings: Seq<PeerEntry>,
    nodes: Seq<NodeView>,
    node_idx: usize,
    listed: Seq<u128>,
    to_add: u32,
) -> Seq<u128> {
    let candidates = ratings.filter(is_candidate(node_idx, listed));
    let shortlist = best_rated(candidates, (2 * to_add) as nat);
    let chosen = least_central(shortlist, nodes, to_add as nat);
    Seq::new(chosen.len(), |k: int| chosen[k].ip)
}

/// The peers that a node keeps when it lets go of `to_delete`: the best
/// rated of them, the best first.
pub open spec fn retained_peers(current: Seq<PeerEntry>, to_delete: u32) -> Seq<PeerEntry> {
    best_rated(
        current,
        if to_delete < current.len() {
            (current.len() - to_delete) as nat
        } else {
            0
        },
    )
}

/// The address is one that the node at `node_idx` may be offered: it is not
/// listed, and an entry of another node holds it.
pub open spec fn offered_from(
    ratings: Seq<PeerEntry>,
    node_idx: usize,
    listed: Seq<u128>,
    ip: u128,
) -> bool {
    !listed.contains(ip) && exists|c: int|
        0 <= c < ratings.len() && (#[trigger] ratings[c]).ip == ip && ratings[c].index != node_idx
}

/// The entries stand in the order of the nodes, each with the address and
/// the position of its node.
pub open spec fn entries_match(entries: Seq<PeerEntry>, nodes: Seq<NodeView>) -> bool {
    &&& entries.len() == nodes.len()
    &&& forall|c: int|
        0 <= c < entries.len() ==> (#[trigger] entries[c]).index == c && entries[c].ip
            == nodes[c].addr
}

/// No two nodes share an address.
pub open spec fn addresses_distinct(nodes: Seq<NodeView>) -> bool {
    forall|i: int, j: int|
        0 <= i < nodes.len() && 0 <= j < nodes.len() && i != j ==> (#[trigger] nodes[i]).addr != (
        #[trigger] nodes[j]).addr
}

/// Some node of the list has the address.
pub open spec fn names_node(nodes: Seq<NodeView>, ip: u128) -> bool {
    exists|j: int| 0 <= j < nodes.len() && (#[trigger] nodes[j]).addr == ip
}

/// What holds of every peer list. It keeps the peers that the node has and
/// adds no more than `change_no_more` to them, and fewer than there are nodes.
/// Every address in it is the address of a node. Where no two nodes share an
/// address and the node is no neighbour of itself, the list does not hold
/// the address of the node itself.
pub open spec fn is_sound_list(
    nodes: Seq<NodeView>,
    neighbours: Seq<usize>,
    node_idx: usize,
    change_no_more: u32,
    list: Seq<u128>,
) -> bool {
    &&& neighbours.len() <= list.len() <= neighbours.len() + change_no_more
    &&& list.len() < neighbours.len() + nodes.len()
    &&& list.take(neighbours.len() as int) == current_peers(nodes, neighbours)
    &&& forall|k: int| 0 <= k < list.len() ==> names_node(nodes, #[trigger] list[k])
    &&& addresses_distinct(nodes) && !neighbours.contains(node_idx) ==> !list.contains(
        nodes[node_idx as int].addr,
    )
}

/// Every entry names a node of the list.
pub open spec fn entries_in_range(entries: Seq<PeerEntry>, count: nat) -> bool {
    forall|k: int| 0 <= k < entries.len() ==> (#[trigger] entries[k]).index < count
}

fn pick(entries: &Vec<PeerEntry>, picks: &Vec<usize>) -> (chosen: Vec<PeerEntry>)
    requires
        forall|k: int| 0 <= k < picks@.len() ==> (#[trigger] picks@[k]) < entries@.len(),
    ensures
        chosen@ == picked(entries@, picks@),
{
    let mut chosen: Vec<PeerEntry> = Vec::new();
    let mut k: usize = 0;
    while k < picks.len()
        invariant
            0 <= k <= picks.len(),
            forall|l: int| 0 <= l < picks@.len() ==> (#[trigger] picks@[l]) < entries@.len(),
            chosen@ == picked(entries@, picks@).take(k as int),
        decreases picks.len() - k,
    {
        chosen.push(entries[picks[k]]);
        proof {
            assert(chosen@ =~= picked(entries@, picks@).take(k + 1));
        }
        k += 1;
    }
    assert(chosen@ =~= picked(entries@, picks@));
    chosen
}

/// Ranks by `costs` and hands out the `count` first of the entries.
fn take_ranked(entries: &Vec<PeerEntry>, costs: &Vec<i128>, count: u64) -> (chosen: Vec<PeerEntry>)
    requires
        costs@.len() == entries@.len(),
    ensures
        chosen@ == picked(entries@, ranking(costs@, count as nat)),
        chosen@.len() <= count,
        chosen@.len() <= entries@.len(),
        forall|k: int| 0 <= k < chosen@.len() ==> entries@.contains(#[trigger] chosen@[k]),
{
    let clipped: usize = if count > usize::MAX as u64 {
        usize::MAX
    } else {
        count as usize
    };
    let available = costs.len();
    let picks = rank_lowest(costs, clipped);
    proof {
        assert(count > usize::MAX ==> clipped >= available);
        assert(picks@.len() == if count <= costs@.len() {
            count as nat
        } else {
            costs@.len()
        });
        assert(is_ranking(costs@, count as nat, picks@));
        lemma_ranking_unique(costs@, count as nat, picks@, ranking(costs@, count as nat));
    }
    let chosen = pick(entries, &picks);
    proof {
        assert forall|k: int| 0 <= k < chosen@.len() implies entries@.contains(
            #[trigger] chosen@[k],
        ) by {
            assert(chosen@[k] == entries@[picks@[k] as int]);
        }
    }
    chosen
}

/// Picks the `count` best rated entries, the best first.
pub fn pick_best_rated(entries: &Vec<PeerEntry>, count: u64) -> (chosen: Vec<PeerEntry>)
    ensures
        chosen@ == best_rated(entries@, count as nat),
        chosen@.len() <= count,
        chosen@.len() <= entries@.len(),
        forall|k: int| 0 <= k < chosen@.len() ==> entries@.contains(#[trigger] chosen@[k]),
{
    let mut costs: Vec<i128> = Vec::new();
    let mut k: usize = 0;
    while k < entries.len()
        invariant
            0 <= k <= entries.len(),
            costs@ == rating_costs(entries@).take(k as int),
        decreases entries.len() - k,
    {
        costs.push(-1 - entries[k].rating);
        proof {
            assert(costs@ =~= rating_costs(entries@).take(k + 1));
        }
        k += 1;
    }
    assert(costs@ =~= rating_costs(entries@));
    take_ranked(entries, &costs, count)
}

/// Picks the `count` entries of the lowest betweenness, the lowest first.
pub fn pick_least_central(entries: &Vec<PeerEntry>, nodes: &[Node], count: u64) -> (chosen: Vec<
    PeerEntry,
>)
    requires
        entries_in_range(entries@, nodes@.len()),
    ensures
        chosen@ == least_central(entries@, views(nodes@), count as nat),
        chosen@.len() <= count,
        chosen@.len() <= entries@.len(),
        forall|k: int| 0 <= k < chosen@.len() ==> entries@.contains(#[trigger] chosen@[k]),
{
    let ghost all = views(nodes@);
    let mut costs: Vec<i128> = Vec::new();
    let mut k: usize = 0;
    while k < entries.len()
        invariant
            0 <= k <= entries.len(),
            all == views(nodes@),
            entries_in_range(entries@, nodes@.len()),
            costs@ == centrality_costs(entries@, all).take(k as int),
        decreases entries.len() - k,
    {
        let entry = entries[k];
        assert(nodes@[entry.index as int]@ == all[entry.index as int]);
        costs.push(nodes[entry.index].betweenness as i128);
        proof {
            assert(costs@ =~= centrality_costs(entries@, all).take(k + 1));
        }
        k += 1;
    }
    assert(costs@ =~= centrality_costs(entries@, all));
    take_ranked(entries, &costs, count)
}

fn lists(listed: &Vec<u128>, ip: u128) -> (found: bool)
    ensures
        found == listed@.contains(ip),
{
    let mut k: usize = 0;
    while k < listed.len()
        invariant
            0 <= k <= listed.len(),
            forall|l: int| 0 <= l < k ==> listed@[l] != ip,
        decreases listed.len() - k,
    {
        if listed[k] == ip {
            return true;
        }
        k += 1;
    }
    false
}

/// Chooses the peers that the node at `node_idx` is offered, which lists
/// the addresses of `listed` already: of the entries of other nodes whose
/// address is not listed, the `2 * to_add` best rated are shortlisted, and
/// of those the `to_add` of the lowest betweenness are offered, so that no
/// node grows too important to the network.
pub fn choose_candidates(
    ratings: &Vec<PeerEntry>,
    nodes: &[Node],
    node_idx: usize,
    listed: &Vec<u128>,
    to_add: u32,
) -> (added: Vec<u128>)
    requires
        entries_in_range(ratings@, nodes@.len()),
    ensures
        added@ == new_peers(ratings@, views(nodes@), node_idx, listed@, to_add),
        added@.len() <= to_add,
        forall|k: int|
            0 <= k < added@.len()
                ==> offered_from(ratings@, node_idx, listed@, #[trigger] added@[k]),
        node_idx < ratings@.len() && ratings@[node_idx as int].index == node_idx ==> added@.len()
            < ratings@.len(),
{
    let ghost may = is_candidate(node_idx, listed@);
    let mut candidates: Vec<PeerEntry> = Vec::new();
    let mut k: usize = 0;
    while k < ratings.len()
        invariant
            0 <= k <= ratings.len(),
            may == is_candidate(node_idx, listed@),
            entries_in_range(ratings@, nodes@.len()),
            candidates@ == ratings@.take(k as int).filter(may),
            entries_in_range(candidates@, nodes@.len()),
            candidates@.len() <= k,
            k > node_idx && ratings@[node_idx as int].index == node_idx ==> candidates@.len() < k,
            forall|l: int|
                0 <= l < candidates@.len() ==> may(#[trigger] candidates@[l]) && ratings@.contains(
                    candidates@[l],
                ),
        decreases ratings.len() - k,
    {
        let entry = ratings[k];
        let listed_already = lists(listed, entry.ip);
        proof {
            reveal(Seq::filter);
            assert(ratings@.take(k + 1).drop_last() =~= ratings@.take(k as int));
            assert(ratings@.take(k + 1).last() == entry);
        }
        if entry.index != node_idx && !listed_already {
            candidates.push(entry);
        }
        k += 1;
    }
    assert(ratings@.take(k as int) =~= ratings@);
    let shortlist = pick_best_rated(&candidates, 2 * (to_add as u64));
    proof {
        assert forall|l: int| 0 <= l < shortlist@.len() implies (#[trigger] shortlist@[l]).index
            < nodes@.len() by {
            assert(candidates@.contains(shortlist@[l]));
        }
    }
    let chosen = pick_least_central(&shortlist, nodes, to_add as u64);
    let mut added: Vec<u128> = Vec::new();
    let mut c: usize = 0;
    while c < chosen.len()
        invariant
            0 <= c <= chosen.len(),
            added@.len() == c,
            forall|l: int| 0 <= l < c ==> added@[l] == chosen@[l].ip,
        decreases chosen.len() - c,
    {
        added.push(chosen[c].ip);
        c += 1;
    }
    proof {
        assert forall|l: int| 0 <= l < added@.len() implies offered_from(
            ratings@,
            node_idx,
            listed@,
            #[trigger] added@[l],
        ) by {
            let entry = chosen@[l];
            assert(shortlist@.contains(entry));
            assert(candidates@.contains(entry));
            let at = choose|at: int| 0 <= at < candidates@.len() && candidates@[at] == entry;
            assert(may(candidates@[at]) && ratings@.contains(candidates@[at]));
            let from = choose|from: int| 0 <= from < ratings@.len() && ratings@[from] == entry;
            assert(ratings@[from].ip == added@[l] && ratings@[from].index != node_idx);
        }
    }
    assert(added@ =~= new_peers(ratings@, views(nodes@), node_idx, listed@, to_add));
    added
}

/// Chooses the peers that a node lets go, by saying which it keeps: all but
/// the `to_delete` lowest rated, the best rated first.
pub fn choose_victims(current: &Vec<PeerEntry>, to_delete: u32) -> (kept: Vec<PeerEntry>)
    ensures
        kept@ == retained_peers(current@, to_delete),
{
    let keep: u64 = if (to_delete as u64) < current.len() as u64 {
        current.len() as u64 - to_delete as u64
    } else {
        0
    };
    pick_best_rated(current, keep)
}

/// What a peer list holds, as mathematical values.
pub ghost struct PeerView {
    pub ip: u128,
    pub list: Seq<u128>,
}

impl View for Peer {
    type V = PeerView;

    open spec fn view(&self) -> PeerView {
        PeerView { ip: self.ip, list: self.list@ }
    }
}

/// The views of a list of peer lists, position by position.
pub open spec fn peer_views(peers: Seq<Peer>) -> Seq<PeerView> {
    Seq::new(peers.len(), |i: int| peers[i]@)
}

/// The rows of a table of distances as sequences.
pub open spec fn distance_rows(distances: Seq<Vec<u64>>) -> Seq<Seq<u64>> {
    Seq::new(distances.len(), |i: int| distances[i]@)
}

/// The distances from the node at `i` to every node; none where the table
/// has no row for it.
pub open spec fn distances_from(distances: Seq<Seq<u64>>, i: int) -> Seq<u64> {
    if 0 <= i < distances.len() {
        distances[i]
    } else {
        Seq::empty()
    }
}

/// The addresses of the peers that a node has now.
pub open spec fn current_peers(nodes: Seq<NodeView>, neighbours: Seq<usize>) -> Seq<u128> {
    Seq::new(neighbours.len(), |k: int| nodes[neighbours[k] as int].addr)
}

/// The ratings of the peers that a node has now.
pub open spec fn current_ratings(
    ratings: Seq<PeerEntry>,
    neighbours: Seq<usize>,
) -> Seq<PeerEntry> {
    Seq::new(neighbours.len(), |k: int| ratings[neighbours[k] as int])
}

/// How many peers the node of the given degree is offered, when the degrees
/// of all `count` nodes add up to `degree_sum`.
pub open spec fn offers(config: IPSConfiguration, degree_sum: int, count: int, degree: u32) -> u32 {
    peers_to_add(
        desired_degree_of(degree_sum, count, degree as int) as u32,
        degree,
        config.change_at_least,
        config.change_no_more,
    )
}

/// The peer list of the node at `node_idx`: the peers that it has, and
/// behind them the peers that it is offered.
pub open spec fn peer_list_of(
    config: IPSConfiguration,
    nodes: Seq<NodeView>,
    neighbours: Seq<usize>,
    node_idx: usize,
    const_factors: Seq<PeerEntry>,
    degree: u32,
    degree_sum: int,
    distances: Seq<u64>,
) -> Seq<u128> {
    let ratings = located(config, nodes[node_idx as int], nodes, distances, const_factors);
    let current = current_peers(nodes, neighbours);
    current + new_peers(
        ratings,
        nodes,
        node_idx,
        current,
        offers(config, degree_sum, nodes.len() as int, degree),
    )
}

/// The sum of the degrees.
pub open spec fn total_degree(degrees: Seq<u32>) -> int
    decreases degrees.len(),
{
    if degrees.len() == 0 {
        0
    } else {
        total_degree(degrees.drop_last()) + degrees.last()
    }
}

/// The degree of every node, as the map of the engine gives it.
pub open spec fn degrees_of(nodes: Seq<NodeView>, degrees: Map<u128, u32>) -> Seq<u32> {
    Seq::new(nodes.len(), |i: int| degrees[nodes[i].addr])
}

/// The degrees as samples.
pub open spec fn degree_samples(nodes: Seq<NodeView>, degrees: Map<u128, u32>) -> Seq<i64> {
    Seq::new(nodes.len(), |i: int| degrees[nodes[i].addr] as i64)
}

/// The eigenvector centrality of every node, as its map gives it.
pub open spec fn eigenvalue_samples(nodes: Seq<NodeView>, eigenvalues: Map<u128, i64>) -> Seq<i64> {
    Seq::new(nodes.len(), |i: int| eigenvalues[nodes[i].addr])
}

/// The betweenness of every node.
pub open spec fn betweenness_samples(nodes: Seq<NodeView>) -> Seq<i64> {
    Seq::new(nodes.len(), |i: int| nodes[i].betweenness)
}

/// The closeness of every node.
pub open spec fn closeness_samples(nodes: Seq<NodeView>) -> Seq<i64> {
    Seq::new(nodes.len(), |i: int| nodes[i].closeness)
}

/// The normalization factors of a list of samples.
pub open spec fn factors_of(samples: Seq<i64>) -> NormalizationFactors {
    NormalizationFactors { min: lowest(samples), max: highest(samples) }
}

/// The selection with the factors of this snapshot.
pub open spec fn prepared(
    ips: Ips,
    nodes: Seq<NodeView>,
    degrees: Map<u128, u32>,
    eigenvalues: Map<u128, i64>,
) -> Ips {
    Ips {
        config: ips.config,
        degree_factors: factors_of(degree_samples(nodes, degrees)),
        betweenness_factors: factors_of(betweenness_samples(nodes)),
        closeness_factors: factors_of(closeness_samples(nodes)),
        eigenvector_factors: factors_of(eigenvalue_samples(nodes, eigenvalues)),
    }
}

/// The rating of every node that does not depend on who asks.
pub open spec fn const_factors_of(
    ips: Ips,
    nodes: Seq<NodeView>,
    degrees: Map<u128, u32>,
    eigenvalues: Map<u128, i64>,
) -> Seq<PeerEntry> {
    Seq::new(
        nodes.len(),
        |i: int|
            PeerEntry {
                ip: nodes[i].addr,
                index: i as usize,
                rating: node_rating(
                    ips,
                    nodes[i],
                    degrees[nodes[i].addr],
                    eigenvalues[nodes[i].addr],
                ) as i128,
            },
    )
}

/// Both maps have an entry for the address of every node.
pub open spec fn has_centralities(
    nodes: Seq<NodeView>,
    degrees: Map<u128, u32>,
    eigenvalues: Map<u128, i64>,
) -> bool {
    forall|i: int|
        0 <= i < nodes.len() ==> degrees.contains_key((#[trigger] nodes[i]).addr)
            && eigenvalues.contains_key(nodes[i].addr)
}

/// The peer list of the node at `i`, by a selection that holds the factors
/// of the snapshot.
pub open spec fn planned_peer(
    ips: Ips,
    nodes: Seq<NodeView>,
    adjacency: Seq<Seq<usize>>,
    degrees: Map<u128, u32>,
    eigenvalues: Map<u128, i64>,
    distances: Seq<Seq<u64>>,
    i: int,
) -> PeerView {
    PeerView {
        ip: nodes[i].addr,
        list: peer_list_of(
            ips.config,
            nodes,
            adjacency[i],
            i as usize,
            const_factors_of(ips, nodes, degrees, eigenvalues),
            degrees[nodes[i].addr],
            total_degree(degrees_of(nodes, degrees)),
            distances_from(distances, i),
        ),
    }
}

/// The peer lists of all nodes, in the order of the snapshot.
pub open spec fn plan_of(
    ips: Ips,
    nodes: Seq<NodeView>,
    adjacency: Seq<Seq<usize>>,
    degrees: Map<u128, u32>,
    eigenvalues: Map<u128, i64>,
    distances: Seq<Seq<u64>>,
) -> Seq<PeerView> {
    Seq::new(
        nodes.len(),
        |i: int|
            planned_peer(
                prepared(ips, nodes, degrees, eigenvalues),
                nodes,
                adjacency,
                degrees,
                eigenvalues,
                distances,
                i,
            ),
    )
}

/// How a run ends. With no nodes there are no peer lists, and the selection
/// stays as it was. With nodes, and a centrality missing for one of them, the
/// run fails and the selection stays as it was. Else the run gives the peer
/// lists of all nodes and leaves the factors of the snapshot in the
/// selection.
pub open spec fn is_outcome(
    before: Ips,
    after: Ips,
    nodes: Seq<NodeView>,
    adjacency: Seq<Seq<usize>>,
    degrees: Map<u128, u32>,
    eigenvalues: Map<u128, i64>,
    distances: Seq<Seq<u64>>,
    result: Result<Vec<Peer>, IpsError>,
) -> bool {
    match result {
        Ok(peers) => {
            &&& has_centralities(nodes, degrees, eigenvalues)
            &&& peer_views(peers@) == plan_of(
                before,
                nodes,
                adjacency,
                degrees,
                eigenvalues,
                distances,
            )
            &&& after == if nodes.len() == 0 {
                before
            } else {
                prepared(before, nodes, degrees, eigenvalues)
            }
        },
        Err(error) => {
            &&& error == IpsError::MissingCentrality
            &&& !has_centralities(nodes, degrees, eigenvalues)
            &&& after == before
        },
    }
}

/// Two runs on the same snapshot, with the same centralities and distances,
/// end alike: both fail, or both give the same peer lists, and both leave the
/// same factors behind.
pub proof fn lemma_outcome_unique(
    before: Ips,
    first_after: Ips,
    second_after: Ips,
    nodes: Seq<NodeView>,
    adjacency: Seq<Seq<usize>>,
    degrees: Map<u128, u32>,
    eigenvalues: Map<u128, i64>,
    distances: Seq<Seq<u64>>,
    first: Result<Vec<Peer>, IpsError>,
    second: Result<Vec<Peer>, IpsError>,
)
    requires
        is_outcome(before, first_after, nodes, adjacency, degrees, eigenvalues, distances, first),
        is_outcome(before, second_after, nodes, adjacency, degrees, eigenvalues, distances, second),
    ensures
        first_after == second_after,
        first is Ok <==> second is Ok,
        first is Ok ==> peer_views(first->Ok_0@) == peer_views(second->Ok_0@),
        first is Err ==> first->Err_0 == second->Err_0,
{
}

/// With the location switched off the ratings stay as they are, whatever
/// locations and distances are given.
pub proof fn lemma_location_off(
    config: IPSConfiguration,
    selected: NodeView,
    nodes: Seq<NodeView>,
    distances: Seq<u64>,
    ratings: Seq<PeerEntry>,
)
    requires
        config.geolocation == GeoLocationMode::Off,
    ensures
        located(config, selected, nodes, distances, ratings) == ratings,
{
    assert(located(config, selected, nodes, distances, ratings) =~= ratings);
}

/// The sum of degrees cannot outgrow what each of them can be.
proof fn lemma_total_degree(degrees: Seq<u32>)
    ensures
        0 <= total_degree(degrees) <= degrees.len() * u32::MAX,
    decreases degrees.len(),
{
    if degrees.len() > 0 {
        lemma_total_degree(degrees.drop_last());
        assert((degrees.len() - 1) * u32::MAX + u32::MAX == degrees.len() * u32::MAX)
            by (nonlinear_arith);
    }
}

/// What the lookups of one run gather: the degree and the eigenvector
/// centrality of every node, and the samples that the factors are taken of.
struct Centralities {
    degrees: Vec<u32>,
    degree_sum: u128,
    eigenvalues: Vec<i64>,
    degree_samples: Vec<i64>,
    betweenness_samples: Vec<i64>,
    closeness_samples: Vec<i64>,
}

fn gather(
    nodes: &[Node],
    degrees: &HashMap<u128, u32>,
    eigenvalues: &HashMap<u128, i64>,
) -> (gathered: Option<Centralities>)
    ensures
        gathered.is_some() <==> has_centralities(views(nodes@), degrees@, eigenvalues@),
        gathered.is_some() ==> {
            let found = gathered.unwrap();
            &&& found.degrees@ == degrees_of(views(nodes@), degrees@)
            &&& found.degree_sum == total_degree(degrees_of(views(nodes@), degrees@))
            &&& found.eigenvalues@ == eigenvalue_samples(views(nodes@), eigenvalues@)
            &&& found.degree_samples@ == degree_samples(views(nodes@), degrees@)
            &&& found.betweenness_samples@ == betweenness_samples(views(nodes@))
            &&& found.closeness_samples@ == closeness_samples(views(nodes@))
        },
{
    broadcast use vstd::std_specs::hash::group_hash_axioms;

    let ghost all = views(nodes@);
    let mut found = Centralities {
        degrees: Vec::new(),
        degree_sum: 0,
        eigenvalues: Vec::new(),
        degree_samples: Vec::new(),
        betweenness_samples: Vec::new(),
        closeness_samples: Vec::new(),
    };
    let mut i: usize = 0;
    while i < nodes.len()
        invariant
            0 <= i <= nodes.len(),
            all == views(nodes@),
            forall|k: int|
                0 <= k < i ==> degrees@.contains_key((#[trigger] all[k]).addr)
                    && eigenvalues@.contains_key(all[k].addr),
            found.degrees@ == degrees_of(all, degrees@).take(i as int),
            found.degree_sum == total_degree(found.degrees@),
            found.eigenvalues@ == eigenvalue_samples(all, eigenvalues@).take(i as int),
            found.degree_samples@ == degree_samples(all, degrees@).take(i as int),
            found.betweenness_samples@ == betweenness_samples(all).take(i as int),
            found.closeness_samples@ == closeness_samples(all).take(i as int),
        decreases nodes.len() - i,
    {
        let node = &nodes[i];
        assert(node@ == all[i as int]);
        let degree = match degrees.get(&node.addr) {
            Some(degree) => *degree,
            None => {
                return None;
            },
        };
        let eigenvalue = match eigenvalues.get(&node.addr) {
            Some(eigenvalue) => *eigenvalue,
            None => {
                return None;
            },
        };
        proof {
            lemma_total_degree(found.degrees@);
            assert(found.degrees@.push(degree).drop_last() =~= found.degrees@);
            assert(i * u32::MAX + u32::MAX < u128::MAX) by (nonlinear_arith)
                requires
                    0 <= i <= usize::MAX,
            ;
        }
        found.degrees.push(degree);
        found.degree_sum = found.degree_sum + degree as u128;
        found.eigenvalues.push(eigenvalue);
        found.degree_samples.push(degree as i64);
        found.betweenness_samples.push(node.betweenness);
        found.closeness_samples.push(node.closeness);
        proof {
            assert(found.degrees@ =~= degrees_of(all, degrees@).take(i + 1));
            assert(found.eigenvalues@ =~= eigenvalue_samples(all, eigenvalues@).take(i + 1));
            assert(found.degree_samples@ =~= degree_samples(all, degrees@).take(i + 1));
            assert(found.betweenness_samples@ =~= betweenness_samples(all).take(i + 1));
            assert(found.closeness_samples@ =~= closeness_samples(all).take(i + 1));
        }
        i += 1;
    }
    proof {
        assert(found.degrees@ =~= degrees_of(all, degrees@));
        assert(found.eigenvalues@ =~= eigenvalue_samples(all, eigenvalues@));
        assert(found.degree_samples@ =~= degree_samples(all, degrees@));
        assert(found.betweenness_samples@ =~= betweenness_samples(all));
        assert(found.closeness_samples@ =~= closeness_samples(all));
    }
    Some(found)
}

impl Ips {
    /// Builds the graph that the centralities are computed on, with the
    /// neighbours that `agraph` gives to each node. A node without
    /// neighbours gets an edge to itself; a neighbour that is no position of
    /// the list is passed over.
    pub fn construct_graph(&self, nodes: &[Node], agraph: &AGraph) -> (graph: Graph<u128>)
        ensures
            graph_edges(graph) == snapshot_edges(views(nodes@), rows(agraph@)),
    {
        let ghost all = views(nodes@);
        let ghost adjacency = rows(agraph@);
        let mut graph = new_graph();
        let mut i: usize = 0;
        assert(graph_edges(graph) =~= links_below(all, adjacency, 0));
        while i < nodes.len() && i < agraph.len()
            invariant
                0 <= i <= nodes.len(),
                i <= agraph.len(),
                all == views(nodes@),
                adjacency == rows(agraph@),
                graph_edges(graph) == links_below(all, adjacency, i as int),
            decreases nodes.len() - i,
        {
            link_node(&mut graph, nodes, i, &agraph[i]);
            proof {
                assert(adjacency[i as int] == agraph@[i as int]@);
                let added = node_links(all, i as int, adjacency[i as int]);
                assert forall|e: (u128, u128)|
                    links_below(all, adjacency, i + 1).contains(e) <==> links_below(
                        all,
                        adjacency,
                        i as int,
                    ).contains(e) || added.contains(e) by {
                    if links_below(all, adjacency, i + 1).contains(e) {
                        let w = choose|w: int|
                            0 <= w < i + 1 && w < all.len() && w < adjacency.len() && (
                            #[trigger] node_links(all, w, adjacency[w])).contains(e);
                        if w < i {
                            assert(links_below(all, adjacency, i as int).contains(e));
                        }
                    }
                }
                assert(graph_edges(graph) =~= links_below(all, adjacency, i + 1));
            }
            i += 1;
        }
        proof {
            assert(links_below(all, adjacency, i as int) =~= links_below(
                all,
                adjacency,
                all.len() as int,
            ));
        }
        graph
    }

    /// Makes the peer list of the node at `node_idx`. The list starts with
    /// the peers that the node has. The degree that the node should have lies
    /// half way between its own and the average; from it follows how many
    /// peers the node lets go and how many it is offered. The lowest rated of
    /// its peers are marked to go, but stay listed. The offered peers come
    /// last in the list.
    pub fn select_peers(
        &self,
        nodes: &[Node],
        neighbours: &Vec<usize>,
        node_idx: usize,
        const_factors: &Vec<PeerEntry>,
        degree: u32,
        degree_sum: u128,
        distances: &[u64],
    ) -> (peer: Peer)
        requires
            node_idx < nodes@.len(),
            const_factors@.len() == nodes@.len(),
            entries_in_range(const_factors@, nodes@.len()),
            forall|k: int| 0 <= k < neighbours@.len()
                ==> (#[trigger] neighbours@[k]) < nodes@.len(),
            forall|c: int|
                0 <= c < const_factors@.len() ==> (#[trigger] const_factors@[c]).rating
                    + LOCATION_FULL * u32::MAX <= i128::MAX,
        ensures
            peer@ == (PeerView {
                ip: nodes@[node_idx as int].addr,
                list: peer_list_of(
                    self.config,
                    views(nodes@),
                    neighbours@,
                    node_idx,
                    const_factors@,
                    degree,
                    degree_sum as int,
                    distances@,
                ),
            }),
            entries_match(const_factors@, views(nodes@)) ==> is_sound_list(
                views(nodes@),
                neighbours@,
                node_idx,
                self.config.change_no_more,
                peer.list@,
            ),
    {
        let ghost all = views(nodes@);
        let node = &nodes[node_idx];
        assert(node@ == all[node_idx as int]);
        let mut peer_ratings: Vec<PeerEntry> = Vec::new();
        let mut c: usize = 0;
        while c < const_factors.len()
            invariant
                0 <= c <= const_factors.len(),
                peer_ratings@ == const_factors@.take(c as int),
            decreases const_factors.len() - c,
        {
            peer_ratings.push(const_factors[c]);
            proof {
                assert(peer_ratings@ =~= const_factors@.take(c + 1));
            }
            c += 1;
        }
        assert(peer_ratings@ =~= const_factors@);
        self.update_rating_by_location(node, nodes, &mut peer_ratings, distances);
        let ghost ratings = located(self.config, node@, all, distances@, const_factors@);
        assert(peer_ratings@ == ratings);
        assert(entries_in_range(ratings, nodes@.len())) by {
            assert forall|k: int| 0 <= k < ratings.len() implies (#[trigger] ratings[k]).index
                < nodes@.len() by {
                assert(ratings[k].index == const_factors@[k].index);
            }
        }
        let mut list: Vec<u128> = Vec::new();
        let mut curr_peer_ratings: Vec<PeerEntry> = Vec::new();
        let mut k: usize = 0;
        while k < neighbours.len()
            invariant
                0 <= k <= neighbours.len(),
                all == views(nodes@),
                peer_ratings@.len() == nodes@.len(),
                forall|l: int|
                    0 <= l < neighbours@.len() ==> (#[trigger] neighbours@[l]) < nodes@.len(),
                list@ == current_peers(all, neighbours@).take(k as int),
                curr_peer_ratings@ == current_ratings(peer_ratings@, neighbours@).take(k as int),
            decreases neighbours.len() - k,
        {
            let peer = neighbours[k];
            assert(nodes@[peer as int]@ == all[peer as int]);
            list.push(nodes[peer].addr);
            curr_peer_ratings.push(peer_ratings[peer]);
            proof {
                assert(list@ =~= current_peers(all, neighbours@).take(k + 1));
                assert(curr_peer_ratings@ =~= current_ratings(peer_ratings@, neighbours@).take(
                    k + 1,
                ));
            }
            k += 1;
        }
        assert(list@ =~= current_peers(all, neighbours@));
        let desired_degree = desired_degree(degree_sum, nodes.len(), degree);
        let (peers_to_delete_count, peers_to_add_count) = change_counts(
            desired_degree,
            degree,
            self.config.change_at_least,
            self.config.change_no_more,
        );
        let _kept = choose_victims(&curr_peer_ratings, peers_to_delete_count);
        let added = choose_candidates(&peer_ratings, nodes, node_idx, &list, peers_to_add_count);
        let ghost current = list@;
        let mut a: usize = 0;
        while a < added.len()
            invariant
                0 <= a <= added.len(),
                list@ == current + added@.take(a as int),
            decreases added.len() - a,
        {
            list.push(added[a]);
            proof {
                assert(list@ =~= current + added@.take(a + 1));
            }
            a += 1;
        }
        assert(added@.take(a as int) =~= added@);
        proof {
            if entries_match(const_factors@, all) {
                let full = list@;
                assert(full.take(neighbours@.len() as int) =~= current);
                assert forall|l: int| 0 <= l < added@.len() implies names_node(all, added@[l]) && (
                addresses_distinct(all) ==> added@[l] != all[node_idx as int].addr) by {
                    assert(offered_from(ratings, node_idx, current, added@[l]));
                    let from = choose|from: int|
                        0 <= from < ratings.len() && (#[trigger] ratings[from]).ip == added@[l]
                            && ratings[from].index != node_idx;
                    assert(ratings[from].ip == const_factors@[from].ip);
                    assert(ratings[from].index == const_factors@[from].index);
                    assert(all[from].addr == added@[l]);
                }
                assert forall|l: int| 0 <= l < full.len() implies names_node(
                    all,
                    #[trigger] full[l],
                ) by {
                    if l < current.len() {
                        assert(full[l] == all[neighbours@[l] as int].addr);
                    } else {
                        assert(full[l] == added@[l - current.len()]);
                    }
                }
                if addresses_distinct(all) && !neighbours@.contains(node_idx) {
                    if full.contains(all[node_idx as int].addr) {
                        let l = choose|l: int|
                            0 <= l < full.len() && full[l] == all[node_idx as int].addr;
                        if l < current.len() {
                            assert(neighbours@.contains(neighbours@[l]));
                            assert(full[l] == all[neighbours@[l] as int].addr);
                        } else {
                            assert(full[l] == added@[l - current.len()]);
                        }
                    }
                }
                assert(ratings[node_idx as int].index == const_factors@[node_idx as int].index);
            }
        }
        Peer { ip: node.addr, list }
    }

    /// Makes the peer lists of all nodes from the degrees that the engine
    /// found and the eigenvector centralities. The factors of the snapshot
    /// are determined first and every node is rated; then each node gets its
    /// list. `distances` holds, for each node, the distance in metres to
    /// every node.
    pub fn plan_peers(
        &mut self,
        nodes: &[Node],
        agraph: &AGraph,
        degrees: &HashMap<u128, u32>,
        eigenvalues: &HashMap<u128, i64>,
        distances: &Vec<Vec<u64>>,
    ) -> (result: Result<Vec<Peer>, IpsError>)
        requires
            agraph@.len() == nodes@.len(),
            adjacency_in_range(rows(agraph@)),
        ensures
            is_outcome(
                *old(self),
                *final(self),
                views(nodes@),
                rows(agraph@),
                degrees@,
                eigenvalues@,
                distance_rows(distances@),
                result,
            ),
            result is Ok ==> result.unwrap()@.len() == nodes@.len(),
            result is Ok ==> forall|i: int|
                0 <= i < nodes@.len() ==> is_sound_list(
                    views(nodes@),
                    rows(agraph@)[i],
                    i as usize,
                    old(self).config.change_no_more,
                    (#[trigger] result.unwrap()@[i]).list@,
                ),
    {
        let ghost all = views(nodes@);
        let ghost adjacency = rows(agraph@);
        let ghost before = *self;
        let ghost table = distance_rows(distances@);
        let mut peer_list: Vec<Peer> = Vec::new();
        if nodes.len() == 0 {
            assert(peer_views(peer_list@) =~= plan_of(
                before,
                all,
                adjacency,
                degrees@,
                eigenvalues@,
                table,
            ));
            return Ok(peer_list);
        }
        let found = match gather(nodes, degrees, eigenvalues) {
            Some(found) => found,
            None => {
                return Err(IpsError::MissingCentrality);
            },
        };
        self.degree_factors = NormalizationFactors::determine(
            found.degree_samples.as_slice(),
        ).unwrap();
        self.eigenvector_factors = NormalizationFactors::determine(
            found.eigenvalues.as_slice(),
        ).unwrap();
        self.betweenness_factors = NormalizationFactors::determine(
            found.betweenness_samples.as_slice(),
        ).unwrap();
        self.closeness_factors = NormalizationFactors::determine(
            found.closeness_samples.as_slice(),
        ).unwrap();
        let ghost ready = prepared(before, all, degrees@, eigenvalues@);
        assert(*self == ready);
        let ghost factors = const_factors_of(ready, all, degrees@, eigenvalues@);
        let mut const_factors: Vec<PeerEntry> = Vec::new();
        let mut idx: usize = 0;
        while idx < nodes.len()
            invariant
                0 <= idx <= nodes.len(),
                all == views(nodes@),
                *self == ready,
                found.degrees@ == degrees_of(all, degrees@),
                found.eigenvalues@ == eigenvalue_samples(all, eigenvalues@),
                factors == const_factors_of(ready, all, degrees@, eigenvalues@),
                const_factors@ == factors.take(idx as int),
            decreases nodes.len() - idx,
        {
            let node = &nodes[idx];
            assert(node@ == all[idx as int]);
            let rating = self.rate_node(node, found.degrees[idx], found.eigenvalues[idx]);
            const_factors.push(PeerEntry { ip: node.addr, index: idx, rating });
            proof {
                assert(const_factors@ =~= factors.take(idx + 1));
            }
            idx += 1;
        }
        assert(const_factors@ =~= factors);
        proof {
            assert forall|c: int| 0 <= c < factors.len() implies (#[trigger] factors[c]).rating
                + LOCATION_FULL * u32::MAX <= i128::MAX && factors[c].index < nodes@.len() by {
                lemma_rating_limit(
                    ready,
                    all[c],
                    degrees@[all[c].addr],
                    eigenvalues@[all[c].addr],
                );
            }
        }
        let unknown: Vec<u64> = Vec::new();
        let mut node_idx: usize = 0;
        while node_idx < nodes.len()
            invariant
                0 <= node_idx <= nodes.len(),
                all == views(nodes@),
                adjacency == rows(agraph@),
                table == distance_rows(distances@),
                agraph@.len() == nodes@.len(),
                adjacency_in_range(adjacency),
                *self == ready,
                ready.config == before.config,
                unknown@ == Seq::<u64>::empty(),
                found.degrees@ == degrees_of(all, degrees@),
                found.degree_sum == total_degree(degrees_of(all, degrees@)),
                const_factors@ == const_factors_of(ready, all, degrees@, eigenvalues@),
                entries_in_range(const_factors@, nodes@.len()),
                forall|c: int|
                    0 <= c < const_factors@.len() ==> (#[trigger] const_factors@[c]).rating
                        + LOCATION_FULL * u32::MAX <= i128::MAX,
                peer_list@.len() == node_idx,
                entries_match(const_factors@, all),
                forall|i: int|
                    0 <= i < node_idx ==> is_sound_list(
                        all,
                        adjacency[i],
                        i as usize,
                        before.config.change_no_more,
                        (#[trigger] peer_list@[i]).list@,
                    ),
                forall|i: int|
                    0 <= i < node_idx ==> (#[trigger] peer_list@[i])@ == planned_peer(
                        ready,
                        all,
                        adjacency,
                        degrees@,
                        eigenvalues@,
                        table,
                        i,
                    ),
            decreases nodes.len() - node_idx,
        {
            let row: &Vec<u64> = if node_idx < distances.len() {
                &distances[node_idx]
            } else {
                &unknown
            };
            assert(row@ == distances_from(table, node_idx as int));
            let neighbours = &agraph[node_idx];
            assert(neighbours@ == adjacency[node_idx as int]);
            assert forall|k: int| 0 <= k < neighbours@.len() implies (#[trigger] neighbours@[k])
                < nodes@.len() by {
                assert(adjacency[node_idx as int][k] < adjacency.len());
            }
            let peer = self.select_peers(
                nodes,
                neighbours,
                node_idx,
                &const_factors,
                found.degrees[node_idx],
                found.degree_sum,
                row.as_slice(),
            );
            assert(all[node_idx as int] == nodes@[node_idx as int]@);
            peer_list.push(peer);
            node_idx += 1;
        }
        assert(peer_views(peer_list@) =~= plan_of(
            before,
            all,
            adjacency,
            degrees@,
            eigenvalues@,
            table,
        ));
        Ok(peer_list)
    }

    /// Makes the peer lists of all nodes of the snapshot. `agraph` gives the
    /// neighbours of every node by position. The degrees come from the
    /// graph of the snapshot; `eigenvalues` holds the eigenvector centrality
    /// of every node, by address, and `distances`, for each node, the
    /// distance in metres to every node.
    pub fn generate(
        &mut self,
        state: &IpsState,
        agraph: &AGraph,
        eigenvalues: &HashMap<u128, i64>,
        distances: &Vec<Vec<u64>>,
    ) -> (result: Result<Vec<Peer>, IpsError>)
        requires
            agraph@.len() == state.nodes@.len(),
            adjacency_in_range(rows(agraph@)),
        ensures
            is_outcome(
                *old(self),
                *final(self),
                views(state.nodes@),
                rows(agraph@),
                degree_map(snapshot_edges(views(state.nodes@), rows(agraph@))),
                eigenvalues@,
                distance_rows(distances@),
                result,
            ),
            result is Ok ==> result.unwrap()@.len() == state.nodes@.len(),
            result is Ok ==> forall|i: int|
                0 <= i < state.nodes@.len() ==> is_sound_list(
                    views(state.nodes@),
                    rows(agraph@)[i],
                    i as usize,
                    old(self).config.change_no_more,
                    (#[trigger] result.unwrap()@[i]).list@,
                ),
            result is Ok <==> forall|i: int|
                0 <= i < state.nodes@.len() ==> eigenvalues@.contains_key(
                    (#[trigger] state.nodes@[i]).addr,
                ),
    {
        let nodes = state.nodes.as_slice();
        let mut graph = self.construct_graph(nodes, agraph);
        let _islands = detect_islands(agraph);
        let degrees = degree_centrality(&mut graph);
        proof {
            lemma_nodes_touched(views(nodes@), rows(agraph@));
            let all = views(nodes@);
            assert forall|i: int| 0 <= i < all.len() implies degrees@.contains_key(
                (#[trigger] all[i]).addr,
            ) by {
                assert(touches(snapshot_edges(all, rows(agraph@)), all[i].addr));
            }
            assert(has_centralities(all, degrees@, eigenvalues@) <==> forall|i: int|
                0 <= i < state.nodes@.len() ==> eigenvalues@.contains_key(
                    (#[trigger] state.nodes@[i]).addr,
                )) by {
                if has_centralities(all, degrees@, eigenvalues@) {
                    assert forall|i: int| 0 <= i < state.nodes@.len()
                        implies eigenvalues@.contains_key(
                        (#[trigger] state.nodes@[i]).addr,
                    ) by {
                        assert(all[i].addr == state.nodes@[i].addr);
                    }
                } else {
                    let i = choose|i: int|
                        0 <= i < all.len() && !(degrees@.contains_key((#[trigger] all[i]).addr)
                            && eigenvalues@.contains_key(all[i].addr));
                    assert(all[i].addr == state.nodes@[i].addr);
                }
            }
        }
        self.plan_peers(nodes, agraph, &degrees, eigenvalues, distances)
    }
}

/// Every node of a snapshot whose neighbours are positions of the list is
/// touched by an edge of its graph: the engine has a degree for it.
pub proof fn lemma_nodes_touched(nodes: Seq<NodeView>, adjacency: Seq<Seq<usize>>)
    requires
        adjacency.len() == nodes.len(),
        adjacency_in_range(adjacency),
    ensures
        forall|i: int|
            0 <= i < nodes.len() ==> touches(
                snapshot_edges(nodes, adjacency),
                (#[trigger] nodes[i]).addr,
            ),
{
    assert forall|i: int| 0 <= i < nodes.len() implies touches(
        snapshot_edges(nodes, adjacency),
        (#[trigger] nodes[i]).addr,
    ) by {
        let peers = adjacency[i];
        let other = if peers.len() == 0 {
            nodes[i].addr
        } else {
            nodes[peers[0] as int].addr
        };
        if peers.len() > 0 {
            assert(peers[0] < nodes.len());
        }
        assert(node_links(nodes, i, peers).contains((nodes[i].addr, other)));
        assert(snapshot_edges(nodes, adjacency).contains((nodes[i].addr, other)));
    }
}

/// The degree that the engine has for a node counts each of its neighbours,
/// provided that no two nodes share an address, that the node has no
/// neighbour twice, and that there are no more nodes than a degree can count.
/// Where neighbours are mutual and the node has one at least, the degree is
/// the number of its neighbours.
pub proof fn lemma_degree_counts_neighbours(
    nodes: Seq<NodeView>,
    adjacency: Seq<Seq<usize>>,
    u: int,
)
    requires
        adjacency.len() == nodes.len(),
        nodes.len() <= u32::MAX,
        adjacency_in_range(adjacency),
        addresses_distinct(nodes),
        0 <= u < nodes.len(),
        adjacency[u].no_duplicates(),
    ensures
        degree_map(snapshot_edges(nodes, adjacency)).contains_key(nodes[u].addr),
        adjacency[u].len() <= degree_map(snapshot_edges(nodes, adjacency))[nodes[u].addr],
        adjacency_symmetric(adjacency) && adjacency[u].len() > 0 ==> adjacency[u].len()
            == degree_map(snapshot_edges(nodes, adjacency))[nodes[u].addr],
{
    broadcast use vstd::seq_lib::seq_to_set_is_finite;

    let edges = snapshot_edges(nodes, adjacency);
    let own = nodes[u].addr;
    let around = neighbours(edges, own);
    let addresses = Seq::new(nodes.len(), |j: int| nodes[j].addr);
    let peers = current_peers(nodes, adjacency[u]);
    lemma_nodes_touched(nodes, adjacency);
    assert(touches(edges, nodes[u].addr));
    assert forall|w: u128| around.contains(w) implies addresses.to_set().contains(w) by {
        let i = choose|i: int|
            0 <= i < nodes.len() && i < nodes.len() && i < adjacency.len() && (
            #[trigger] node_links(nodes, i, adjacency[i])).contains((own, w));
        let list = adjacency[i];
        if list.len() == 0 && (own, w) == (nodes[i].addr, nodes[i].addr) {
            assert(addresses[i] == w);
        } else {
            let j = choose|j: int|
                #![trigger list[j]]
                0 <= j < list.len() && list[j] < nodes.len() && ((own, w) == (
                    nodes[i].addr,
                    nodes[list[j] as int].addr,
                ) || (own, w) == (nodes[list[j] as int].addr, nodes[i].addr));
            assert(addresses[i] == nodes[i].addr);
            assert(addresses[list[j] as int] == nodes[list[j] as int].addr);
        }
    }
    addresses.lemma_cardinality_of_set();
    vstd::set_lib::lemma_len_subset(around, addresses.to_set());
    assert forall|k: int, l: int| 0 <= k < peers.len() && 0 <= l < peers.len() && k
        != l implies peers[k] != peers[l] by {
        assert(adjacency[u][k] != adjacency[u][l]);
        assert(adjacency[u][k] < nodes.len() && adjacency[u][l] < nodes.len());
    }
    peers.unique_seq_to_set();
    assert forall|w: u128| peers.to_set().contains(w) implies around.contains(w) by {
        let k = choose|k: int| 0 <= k < peers.len() && peers[k] == w;
        let list = adjacency[u];
        assert(list[k] < nodes.len());
        assert(node_links(nodes, u, list).contains((own, w)));
        assert(edges.contains((own, w)));
    }
    vstd::set_lib::lemma_len_subset(peers.to_set(), around);
    if adjacency_symmetric(adjacency) && adjacency[u].len() > 0 {
        assert forall|w: u128| around.contains(w) implies peers.to_set().contains(w) by {
            let i = choose|i: int|
                0 <= i < nodes.len() && i < nodes.len() && i < adjacency.len() && (
                #[trigger] node_links(nodes, i, adjacency[i])).contains((own, w));
            let list = adjacency[i];
            if list.len() == 0 && (own, w) == (nodes[i].addr, nodes[i].addr) {
                assert(i == u);
            } else {
                let j = choose|j: int|
                    #![trigger list[j]]
                    0 <= j < list.len() && list[j] < nodes.len() && ((own, w) == (
                        nodes[i].addr,
                        nodes[list[j] as int].addr,
                    ) || (own, w) == (nodes[list[j] as int].addr, nodes[i].addr));
                if (own, w) == (nodes[i].addr, nodes[list[j] as int].addr) {
                    assert(i == u);
                    assert(peers[j] == w);
                } else {
                    assert(list[j] == u);
                    assert(adjacency[i].contains(u as usize));
                    assert(adjacency[u].contains(i as usize));
                    let k = choose|k: int| 0 <= k < adjacency[u].len() && adjacency[u][k] == i;
                    assert(peers[k] == w);
                }
            }
        }
        assert(around =~= peers.to_set());
    }
}

} // verus!
