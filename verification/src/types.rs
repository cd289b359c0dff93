//! Core identifiers shared by every module.

use vstd::prelude::*;

verus! {

pub type NodeId = u64;

pub type EdgeId = u64;

pub type LabelId = u32;

pub type TypeId = u32;

pub type TxId = u64;

/// The null node pointer.
pub const NULL_NODE: NodeId = 0xffff_ffff_ffff_ffff;

/// The null edge pointer: the end of every adjacency chain.
pub const NULL_EDGE: EdgeId = 0xffff_ffff_ffff_ffff;

/// The deletion stamp of a record that is still alive.
pub const MAX_TX_ID: TxId = 0xffff_ffff_ffff_ffff;

} // verus!
