//! Vector distance metrics.

use vstd::prelude::*;

verus! {

/// The similarity measure of a vector index.
#[derive(Debug, Clone, Copy, PartialEq, Eq, Structural)]
pub enum DistanceMetric {
    Cosine,
    Euclidean,
    DotProduct,
}

} // verus!
