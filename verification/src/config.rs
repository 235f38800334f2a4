//! What the peer selection can be tuned by.

use vstd::prelude::*;
use crate::node::ONE;

verus! {

/// Whether and how the distance between two nodes counts.
#[derive(Clone, Copy, Debug, PartialEq, Eq, Structural)]
pub enum GeoLocationMode {
    /// Distance does not count.
    Off,
    /// Nearer peers rate higher.
    PreferCloser,
    /// Farther peers rate higher.
    PreferFarther,
}

/// The weight of each factor of a rating, in millionths.
#[derive(Clone, Copy, Debug, PartialEq, Eq, Structural)]
pub struct MCDAWeights {
    pub degree: u32,
    pub betweenness: u32,
    pub closeness: u32,
    pub eigenvector: u32,
    pub location: u32,
}

/// The configuration of one run.
#[derive(Clone, Copy, Debug, PartialEq, Eq, Structural)]
pub struct IPSConfiguration {
    /// The weights of the factors of a rating.
    pub mcda_weights: MCDAWeights,
    /// How distance counts.
    pub geolocation: GeoLocationMode,
    /// The distance, in kilometres, that the steps of the location rating
    /// are measured in.
    pub geolocation_minmax_distance_km: u32,
    /// How many peers a node is offered at least where its degree is as
    /// wanted already.
    pub change_at_least: u32,
    /// How many peers a node is offered at most.
    pub change_no_more: u32,
    /// What the median betweenness is multiplied by to give the threshold
    /// of a bridge, in millionths.
    pub bridge_threshold_adjustment: u32,
}

impl Default for MCDAWeights {
    fn default() -> (weights: Self)
        ensures
            weights == (MCDAWeights {
                degree: 0,
                betweenness: 0,
                closeness: 0,
                eigenvector: 0,
                location: 0,
            }),
    {
        MCDAWeights { degree: 0, betweenness: 0, closeness: 0, eigenvector: 0, location: 0 }
    }
}

impl Default for IPSConfiguration {
    fn default() -> (config: Self)
        ensures
            config == (IPSConfiguration {
                mcda_weights: MCDAWeights {
                    degree: 0,
                    betweenness: 0,
                    closeness: 0,
                    eigenvector: 0,
                    location: 0,
                },
                geolocation: GeoLocationMode::Off,
                geolocation_minmax_distance_km: 0,
                change_at_least: 0,
                change_no_more: 0,
                bridge_threshold_adjustment: ONE as u32,
            }),
    {
        IPSConfiguration {
            mcda_weights: MCDAWeights::default(),
            geolocation: GeoLocationMode::Off,
            geolocation_minmax_distance_km: 0,
            change_at_least: 0,
            change_no_more: 0,
            bridge_threshold_adjustment: 1_000_000,
        }
    }
}

} // verus!
