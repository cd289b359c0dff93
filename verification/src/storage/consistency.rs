//! The consistency contract: how aggressively a store's log is synced, and
//! therefore how much a crash can lose.
//!
//! | Level | Crash window | Throughput |
//! |-------|--------------|------------|
//! | `Immediate` | 0 | ~500 ops/s |
//! | `Batch { interval_ms, bytes }` | `interval_ms` | ~40K ops/s |
//! | `Async` | unbounded on power loss | ~400K+ ops/s |
//!
//! Under every level, writes to one store reach its log in order, `flush`
//! is the sync point, and each log record is self-contained.

use vstd::prelude::*;
use crate::decimal::{decimal, push_decimal};

verus! {

/// Durability level: how often the log is synced to disk.
#[derive(Debug, Clone, Copy, PartialEq, Eq, Structural)]
pub enum Durability {
    /// Every write is synced before the next. Crash window: 0.
    Immediate,
    /// Writes are synced at least every `interval_ms` milliseconds, and
    /// whenever `bytes` bytes are waiting. Crash window: `interval_ms`.
    Batch { interval_ms: u64, bytes: usize },
    /// Writes reach the operating system but are never synced: they
    /// survive a process crash, not a power failure.
    Async,
}

impl Default for Durability {
    /// A 5 ms batch window of at most 64 KiB.
    fn default() -> (d: Self)
        ensures
            d == (Durability::Batch { interval_ms: 5, bytes: 65536 }),
    {
        Durability::Batch { interval_ms: 5, bytes: 65536 }
    }
}

/// The crash window of a durability level, in words.
pub open spec fn crash_window_text(d: Durability) -> Seq<char> {
    match d {
        Durability::Immediate => "zero (every write is fsynced)"@,
        Durability::Batch { interval_ms, .. } => "at most "@ + decimal(interval_ms as nat) + "ms of writes"@,
        Durability::Async => "unbounded on power loss; zero on process restart"@,
    }
}

impl Durability {
    /// The crash window, in words.
    pub fn crash_window_description(&self) -> (s: String)
        ensures
            s@ == crash_window_text(*self),
    {
        match self {
            Durability::Immediate => String::from_str("zero (every write is fsynced)"),
            Durability::Batch { interval_ms, .. } => {
                let mut s = String::from_str("at most ");
                push_decimal(&mut s, *interval_ms);
                s.append("ms of writes");
                s
            },
            Durability::Async => String::from_str("unbounded on power loss; zero on process restart"),
        }
    }

    /// Approximate single-thread write throughput at this level.
    pub fn expected_throughput(&self) -> (s: &'static str)
        ensures
            s@ == match *self {
                Durability::Immediate => "~500 ops/s"@,
                Durability::Batch { .. } => "~40,000 ops/s"@,
                Durability::Async => "~400,000+ ops/s"@,
            },
    {
        match self {
            Durability::Immediate => "~500 ops/s",
            Durability::Batch { .. } => "~40,000 ops/s",
            Durability::Async => "~400,000+ ops/s",
        }
    }

    /// The longest time between syncs, in milliseconds: 0 under
    /// `Immediate` (sync on every write), the interval under `Batch`, and
    /// `None` (no time bound) under `Async`.
    pub fn batch_timeout(&self) -> (t: Option<u64>)
        ensures
            t == match *self {
                Durability::Immediate => Some(0u64),
                Durability::Batch { interval_ms, .. } => Some(interval_ms),
                Durability::Async => None,
            },
    {
        match self {
            Durability::Immediate => Some(0),
            Durability::Batch { interval_ms, .. } => Some(*interval_ms),
            Durability::Async => None,
        }
    }

    /// The number of waiting bytes that forces a sync: 1 under `Immediate`,
    /// the batch size under `Batch`, and never (`usize::MAX`) under
    /// `Async`.
    pub fn batch_bytes(&self) -> (n: usize)
        ensures
            n == match *self {
                Durability::Immediate => 1usize,
                Durability::Batch { bytes, .. } => bytes,
                Durability::Async => usize::MAX,
            },
    {
        match self {
            Durability::Immediate => 1,
            Durability::Batch { bytes, .. } => *bytes,
            Durability::Async => usize::MAX,
        }
    }

    /// Whether the log is synced to disk at all (all levels but `Async`).
    pub fn fsync_enabled(&self) -> (b: bool)
        ensures
            b == !(*self is Async),
    {
        match self {
            Durability::Async => false,
            _ => true,
        }
    }
}

/// The full consistency contract of a store.
#[derive(Debug, Clone, Copy)]
pub struct Consistency {
    /// The durability level.
    pub durability: Durability,
    /// Capacity of the channel to the log writer: more buffering, more
    /// throughput, a larger crash window.
    pub wal_channel_capacity: usize,
}

impl Default for Consistency {
    /// The balanced contract: the default batch window and a channel of
    /// 4096 records.
    fn default() -> (c: Self)
        ensures
            c.durability == (Durability::Batch { interval_ms: 5, bytes: 65536 }),
            c.wal_channel_capacity == 4096,
    {
        Consistency { durability: Durability::default(), wal_channel_capacity: 4096 }
    }
}

impl Consistency {
    /// Maximum durability: every write synced.
    pub fn immediate() -> (c: Self)
        ensures
            c.durability == Durability::Immediate,
            c.wal_channel_capacity == 1024,
    {
        Consistency { durability: Durability::Immediate, wal_channel_capacity: 1024 }
    }

    /// Balanced: a 5 ms batch window (the default).
    pub fn balanced() -> (c: Self)
        ensures
            c.durability == (Durability::Batch { interval_ms: 5, bytes: 65536 }),
            c.wal_channel_capacity == 4096,
    {
        Self::default()
    }

    /// High throughput: never synced.
    pub fn high_throughput() -> (c: Self)
        ensures
            c.durability == Durability::Async,
            c.wal_channel_capacity == 8192,
    {
        Consistency { durability: Durability::Async, wal_channel_capacity: 8192 }
    }

    /// A custom batch window.
    pub fn batch(interval_ms: u64, bytes: usize) -> (c: Self)
        ensures
            c.durability == (Durability::Batch { interval_ms, bytes }),
            c.wal_channel_capacity == 4096,
    {
        Consistency { durability: Durability::Batch { interval_ms, bytes }, wal_channel_capacity: 4096 }
    }
}

} // verus!
