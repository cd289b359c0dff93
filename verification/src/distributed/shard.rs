//! Consistent hashing ring for sharding. Key placement is not part of this
//! release; the ring records its number of virtual nodes per shard.

use vstd::prelude::*;

verus! {

pub struct HashRing {
    virtual_nodes: usize,
}

impl HashRing {
    /// The number of virtual nodes per shard.
    pub closed spec fn replicas(&self) -> usize {
        self.virtual_nodes
    }

    /// A ring with `virtual_nodes` virtual nodes per shard.
    pub fn new(virtual_nodes: usize) -> (r: Self)
        ensures
            r.replicas() == virtual_nodes,
    {
        HashRing { virtual_nodes }
    }
}

} // verus!
