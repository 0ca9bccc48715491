//! Typed failures of the label-position search. Both describe the shape of
//! the input, not transient faults, so no retry is ever useful.

use vstd::prelude::*;

verus! {

/// Why no label position could be computed.
#[derive(Clone, Copy, PartialEq, Eq, Structural, Debug)]
pub enum PolylabelError {
    /// The centroid seed could not be represented within the coordinate
    /// range (a degenerate, e.g. nearly zero-area self-overlapping, vertex
    /// set).
    CentroidCalculation,
    /// The bounding rectangle could not be computed (empty exterior ring).
    RectCalculation,
}

impl PolylabelError {
    /// A short description of the failure.
    pub fn message(&self) -> &'static str {
        match self {
            PolylabelError::CentroidCalculation => "Couldn't calculate a centroid for the input Polygon",
            PolylabelError::RectCalculation => "Couldn't calculate a bounding box for the input Polygon",
        }
    }
}

} // verus!
