//! A Raft consensus participant. Elections and log replication are not
//! part of this release: a node never becomes leader.

use vstd::prelude::*;
use crate::distributed::NodeConfig;

verus! {

pub struct RaftNode {
    node_id: u64,
}

impl RaftNode {
    /// This node's id.
    pub closed spec fn id(&self) -> u64 {
        self.node_id
    }

    /// A participant with the given id.
    pub fn new(node_id: u64, _config: &NodeConfig) -> (r: Self)
        ensures
            r.id() == node_id,
    {
        RaftNode { node_id }
    }

    /// Whether this node leads its group: never, as no election runs.
    pub fn is_leader(&self) -> (b: bool)
        ensures
            !b,
    {
        false
    }
}

} // verus!
