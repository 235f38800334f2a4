//! The failures that the library reports.

use vstd::prelude::*;

verus! {

/// Why a computation could not be carried out.
#[derive(Clone, Copy, Debug, PartialEq, Eq, Structural)]
pub enum IpsError {
    /// A centrality map has no entry for the address of a node.
    MissingCentrality,
    /// Normalization factors were asked of no samples at all.
    EmptyNormalizationSample,
}

} // verus!
