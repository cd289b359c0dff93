//! HNSW vector index configuration (M, ef_construction, metric) and its
//! count of indexed vectors.

pub mod distance;
pub mod hnsw;

pub use distance::DistanceMetric;
pub use hnsw::HnswIndex;

use vstd::prelude::*;

verus! {

/// A named vector index.
pub struct VectorIndex {
    name: String,
    dim: usize,
    metric: DistanceMetric,
    hnsw: HnswIndex,
    /// Vectors indexed so far.
    count: usize,
}

impl VectorIndex {
    pub closed spec fn name(&self) -> Seq<char> {
        self.name@
    }

    pub closed spec fn dim(&self) -> usize {
        self.dim
    }

    pub closed spec fn metric(&self) -> DistanceMetric {
        self.metric
    }

    pub closed spec fn graph(&self) -> HnswIndex {
        self.hnsw
    }

    pub closed spec fn count(&self) -> usize {
        self.count
    }

    /// An empty index of `dim`-dimensional vectors, with an HNSW graph of
    /// the same dimension built with `m` links per node and
    /// `ef_construction` candidates.
    pub fn new(name: &str, dim: usize, metric: DistanceMetric, m: usize, ef_construction: usize) -> (v: Self)
        ensures
            v.name() == name@,
            v.dim() == dim,
            v.metric() == metric,
            v.graph().dim() == dim,
            v.graph().links() == m,
            v.graph().ef_construction() == ef_construction,
            v.count() == 0,
    {
        VectorIndex {
            name: String::from_str(name),
            dim,
            metric,
            hnsw: HnswIndex::new(dim, m, ef_construction),
            count: 0,
        }
    }

    /// The number of vectors indexed.
    pub fn len(&self) -> (n: usize)
        ensures
            n == self.count(),
    {
        self.count
    }
}

} // verus!
