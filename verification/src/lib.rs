//! LightGraph: an in-memory graph store with MVCC visibility, write-ahead
//! logging formats, snapshots and a CJK tokenizer.
//!
//! The modules hold the verified logic; file and thread plumbing lives in
//! the application crate that drives this library.

pub mod bytes;
pub mod decimal;
pub mod distributed;
pub mod index;
pub mod query;
pub mod snapshot;
pub mod storage;
pub mod transaction;
pub mod types;
pub mod wal;
