//! Centrality-driven peer recommendations for the nodes of a peer-to-peer
//! overlay, with the graph utilities they rest on.
//!
//! Real quantities (centralities, weights, ratings) are fixed-point integers
//! counted in millionths, so that every formula has an exact statement.

pub mod config;
pub mod error;
pub mod node;
pub mod normalization;
pub mod ranking;
pub mod engine;
pub mod graph_utils;
pub mod ips;
pub mod islands;
