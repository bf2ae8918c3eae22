//! Errors of the library.
use crate::utils::dist::Dist;
use vstd::prelude::*;

verus! {

/// Why a request was refused.
#[derive(Clone, Copy, Debug, PartialEq, Eq, Structural)]
pub enum AnnSearchErrors {
    /// A vector has another number of dimensions than the index.
    DimensionMismatch {
        /// The number of dimensions of the index.
        expected: usize,
        /// The number of dimensions of the vector.
        actual: usize,
    },
    /// The index does not support the metric.
    DistanceNotSupported(Dist),
}

} // verus!
