//! Cluster layer: node and shard descriptions, the Raft node, the hash
//! ring and the shard router.

pub mod raft;
pub mod router;
pub mod shard;

pub use raft::RaftNode;
pub use router::ShardRouter;
pub use shard::HashRing;

use vstd::prelude::*;

verus! {

/// Configuration of one cluster node.
#[derive(Debug, Clone)]
pub struct NodeConfig {
    pub node_id: u64,
    pub raft_addr: String,
    pub grpc_addr: String,
    pub data_dir: String,
    pub peers: Vec<u64>,
}

/// A shard: a contiguous range of the hash ring owned by one Raft node.
#[derive(Debug, Clone)]
pub struct ShardInfo {
    pub shard_id: u64,
    /// The owning Raft node.
    pub owner: u64,
    pub range_start: u64,
    pub range_end: u64,
}

} // verus!
