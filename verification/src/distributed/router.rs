//! Query routing across shards. Fan-out is not part of this release.

use vstd::prelude::*;

verus! {

pub struct ShardRouter {}

impl ShardRouter {
    /// A router with no shard connections.
    pub fn new() -> (r: Self) {
        ShardRouter {}
    }
}

} // verus!
