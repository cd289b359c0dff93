//! HNSW graph parameters. Graph construction and search are not part of
//! this release.

use vstd::prelude::*;

verus! {

pub struct HnswIndex {
    dim: usize,
    m: usize,
    ef_construction: usize,
}

impl HnswIndex {
    pub closed spec fn dim(&self) -> usize {
        self.dim
    }

    /// Links per node (M).
    pub closed spec fn links(&self) -> usize {
        self.m
    }

    pub closed spec fn ef_construction(&self) -> usize {
        self.ef_construction
    }

    /// An empty graph over `dim`-dimensional vectors.
    pub fn new(dim: usize, m: usize, ef_construction: usize) -> (h: Self)
        ensures
            h.dim() == dim,
            h.links() == m,
            h.ef_construction() == ef_construction,
    {
        HnswIndex { dim, m, ef_construction }
    }
}

} // verus!
