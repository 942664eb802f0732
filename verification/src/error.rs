//! Errors reported by the alignment engine.

use vstd::prelude::*;

verus! {

/// Why a request to the alignment engine was rejected.
#[derive(Clone, Copy, Debug, PartialEq, Eq, Structural)]
pub enum AlignError {
    /// A symbol lies outside the alphabet of the scoring model.
    InvalidSymbol,
    /// A grid does not have the dimensions that the sequences call for.
    InvalidDimensions,
    /// A negative number of alignments was asked for.
    InvalidCount,
}

} // verus!
