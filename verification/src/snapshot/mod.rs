//! Snapshots for fast recovery: the manifest that names the latest
//! snapshot and the log files already merged into one, and the rules for
//! when to take a snapshot and what to replay after loading one.
//!
//! Recovery loads the latest snapshot named by the manifest, then replays
//! the store logs not yet merged into it. Encoding snapshots and reading
//! or writing files is the application's part.

use vstd::prelude::*;
use crate::decimal::{push_zero_padded, zero_padded};

verus! {

/// Bytes of log written since the last snapshot that call for a new one
/// (512 MiB).
pub const SNAPSHOT_INTERVAL_BYTES: u64 = 536_870_912;

/// The snapshot log: the latest snapshot and the log files merged into
/// snapshots. Snapshot id 0 means no snapshot has been taken.
#[derive(Debug, Clone)]
pub struct Manifest {
    pub latest_snapshot_id: u64,
    pub latest_snapshot_path: String,
    pub merged_wal_files: Vec<String>,
}

/// The names of a list of strings.
pub open spec fn names_of(v: Seq<String>) -> Seq<Seq<char>> {
    v.map_values(|s: String| s@)
}

/// The file name of snapshot `id`: `snapshot-` and the id in at least four
/// digits, then `.bin`.
pub open spec fn snapshot_file_name_of(id: u64) -> Seq<char> {
    "snapshot-"@ + zero_padded(id as nat, 4) + ".bin"@
}

/// The store logs that recovery replays after a snapshot, in order.
pub open spec fn store_wal_names() -> Seq<Seq<char>> {
    seq!["nodes.wal"@, "edges.wal"@, "props.wal"@]
}

impl Manifest {
    /// No snapshot, nothing merged.
    pub fn empty() -> (m: Self)
        ensures
            m.latest_snapshot_id == 0,
            m.latest_snapshot_path@ == Seq::<char>::empty(),
            m.merged_wal_files@.len() == 0,
    {
        Manifest { latest_snapshot_id: 0, latest_snapshot_path: String::new(), merged_wal_files: Vec::new() }
    }

    /// Whether `file` is among the merged log files.
    pub fn is_merged(&self, file: &String) -> (b: bool)
        ensures
            b == names_of(self.merged_wal_files@).contains(file@),
    {
        let mut i: usize = 0;
        while i < self.merged_wal_files.len()
            invariant
                0 <= i <= self.merged_wal_files@.len(),
                forall|j: int| 0 <= j < i ==> self.merged_wal_files@[j]@ != file@,
            decreases self.merged_wal_files.len() - i,
        {
            if self.merged_wal_files[i] == *file {
                proof {
                    assert(names_of(self.merged_wal_files@)[i as int] == file@);
                }
                return true;
            }
            i += 1;
        }
        proof {
            if names_of(self.merged_wal_files@).contains(file@) {
                let j = choose|j: int| 0 <= j < names_of(self.merged_wal_files@).len() && names_of(self.merged_wal_files@)[j] == file@;
                assert(self.merged_wal_files@[j]@ == file@);
            }
        }
        false
    }
}

/// The file name of snapshot `id`, as `format!("snapshot-{:04}.bin", id)`
/// prints it.
pub fn snapshot_file_name(id: u64) -> (s: String)
    ensures
        s@ == snapshot_file_name_of(id),
{
    let mut s = String::from_str("snapshot-");
    push_zero_padded(&mut s, id, 4);
    s.append(".bin");
    s
}

/// The store log files, in the order recovery replays them.
pub fn store_wal_files() -> (v: Vec<String>)
    ensures
        names_of(v@) == store_wal_names(),
{
    let mut v: Vec<String> = Vec::new();
    v.push(String::from_str("nodes.wal"));
    v.push(String::from_str("edges.wal"));
    v.push(String::from_str("props.wal"));
    proof {
        assert(names_of(v@) =~= store_wal_names());
    }
    v
}

/// Writes snapshots into a data directory.
pub struct SnapshotWriter {
    data_dir: String,
}

impl SnapshotWriter {
    pub closed spec fn dir(&self) -> Seq<char> {
        self.data_dir@
    }

    pub fn new(data_dir: &str) -> (w: Self)
        ensures
            w.dir() == data_dir@,
    {
        SnapshotWriter { data_dir: String::from_str(data_dir) }
    }

    /// The data directory.
    pub fn data_dir(&self) -> (d: &str)
        ensures
            d@ == self.dir(),
    {
        self.data_dir.as_str()
    }
}

/// Reads snapshots from a data directory.
pub struct SnapshotReader {
    data_dir: String,
}

impl SnapshotReader {
    pub closed spec fn dir(&self) -> Seq<char> {
        self.data_dir@
    }

    pub fn new(data_dir: &str) -> (r: Self)
        ensures
            r.dir() == data_dir@,
    {
        SnapshotReader { data_dir: String::from_str(data_dir) }
    }

    /// The data directory.
    pub fn data_dir(&self) -> (d: &str)
        ensures
            d@ == self.dir(),
    {
        self.data_dir.as_str()
    }

    /// The snapshot that loading the latest one reads: the manifest's
    /// latest, or none when no snapshot was taken (id 0).
    pub fn latest_to_load(manifest: &Manifest) -> (id: Option<u64>)
        ensures
            id == if manifest.latest_snapshot_id == 0 { None } else { Some(manifest.latest_snapshot_id) },
    {
        if manifest.latest_snapshot_id == 0 {
            None
        } else {
            Some(manifest.latest_snapshot_id)
        }
    }
}

/// Decides when to snapshot and keeps the manifest.
pub struct SnapshotManager {
    pub data_dir: String,
    manifest: Manifest,
    wal_bytes_since_snapshot: u64,
    snapshot_interval_bytes: u64,
}

impl SnapshotManager {
    /// A snapshot is due after every 512 MiB of log.
    #[verifier::type_invariant]
    spec fn fixed_interval(&self) -> bool {
        self.snapshot_interval_bytes == SNAPSHOT_INTERVAL_BYTES
    }

    /// The data directory.
    pub closed spec fn dir(&self) -> Seq<char> {
        self.data_dir@
    }

    pub closed spec fn current(&self) -> Manifest {
        self.manifest
    }

    /// Log bytes written since the last snapshot.
    pub closed spec fn wal_bytes(&self) -> u64 {
        self.wal_bytes_since_snapshot
    }

    /// Log bytes that call for a new snapshot.
    pub closed spec fn interval(&self) -> u64 {
        self.snapshot_interval_bytes
    }

    /// A manager for `data_dir` with the manifest read from it, no log
    /// bytes counted yet, and a 512 MiB snapshot interval.
    pub fn new(data_dir: &str, manifest: Manifest) -> (m: Self)
        ensures
            m.dir() == data_dir@,
            m.current() == manifest,
            m.wal_bytes() == 0,
            m.interval() == SNAPSHOT_INTERVAL_BYTES,
    {
        SnapshotManager {
            data_dir: String::from_str(data_dir),
            manifest,
            wal_bytes_since_snapshot: 0,
            snapshot_interval_bytes: SNAPSHOT_INTERVAL_BYTES,
        }
    }

    /// Count log bytes written since the last snapshot.
    pub fn add_wal_bytes(&mut self, bytes: u64)
        requires
            old(self).wal_bytes() + bytes <= u64::MAX,
        ensures
            final(self).wal_bytes() == old(self).wal_bytes() + bytes,
            final(self).current() == old(self).current(),
            final(self).interval() == old(self).interval(),
            final(self).dir() == old(self).dir(),
    {
        proof {
            use_type_invariant(&*self);
        }
        self.wal_bytes_since_snapshot = self.wal_bytes_since_snapshot + bytes;
    }

    /// Log bytes counted since the last snapshot.
    pub fn wal_bytes_since_snapshot(&self) -> (n: u64)
        ensures
            n == self.wal_bytes(),
            self.interval() == SNAPSHOT_INTERVAL_BYTES,
    {
        proof {
            use_type_invariant(self);
        }
        self.wal_bytes_since_snapshot
    }

    /// A snapshot is due when none was ever taken, or when a full interval
    /// of log bytes has been written since the last one.
    pub fn should_snapshot(&self) -> (b: bool)
        ensures
            self.interval() == SNAPSHOT_INTERVAL_BYTES,
            b == (self.current().latest_snapshot_id == 0 || self.wal_bytes() >= self.interval()),
    {
        proof {
            use_type_invariant(self);
        }
        self.manifest.latest_snapshot_id == 0 || self.wal_bytes_since_snapshot >= self.snapshot_interval_bytes
    }

    /// The id the next snapshot gets: one past the latest.
    pub fn next_snapshot_id(&self) -> (id: u64)
        requires
            self.current().latest_snapshot_id < u64::MAX,
        ensures
            id == self.current().latest_snapshot_id + 1,
    {
        self.manifest.latest_snapshot_id + 1
    }

    /// Record that snapshot `id` was written: the manifest names it as the
    /// latest, with its file name, and the log byte count starts over.
    pub fn record_snapshot(&mut self, id: u64)
        ensures
            final(self).current().latest_snapshot_id == id,
            final(self).current().latest_snapshot_path@ == snapshot_file_name_of(id),
            final(self).current().merged_wal_files == old(self).current().merged_wal_files,
            final(self).wal_bytes() == 0,
            final(self).interval() == old(self).interval(),
            final(self).dir() == old(self).dir(),
    {
        proof {
            use_type_invariant(&*self);
        }
        self.manifest.latest_snapshot_id = id;
        self.manifest.latest_snapshot_path = snapshot_file_name(id);
        self.wal_bytes_since_snapshot = 0;
    }

    /// The manifest.
    pub fn manifest(&self) -> (m: &Manifest)
        ensures
            *m == self.current(),
    {
        &self.manifest
    }

    /// Record that a log file has been merged into a snapshot.
    pub fn merge_wal(&mut self, wal_file: &str)
        ensures
            names_of(final(self).current().merged_wal_files@) == names_of(old(self).current().merged_wal_files@).push(wal_file@),
            final(self).current().latest_snapshot_id == old(self).current().latest_snapshot_id,
            final(self).current().latest_snapshot_path == old(self).current().latest_snapshot_path,
            final(self).wal_bytes() == old(self).wal_bytes(),
            final(self).interval() == old(self).interval(),
            final(self).dir() == old(self).dir(),
    {
        proof {
            use_type_invariant(&*self);
        }
        let mut files: Vec<String> = Vec::new();
        std::mem::swap(&mut files, &mut self.manifest.merged_wal_files);
        files.push(String::from_str(wal_file));
        self.manifest.merged_wal_files = files;
        proof {
            assert(names_of(self.manifest.merged_wal_files@) =~= names_of(old(self).current().merged_wal_files@).push(wal_file@));
        }
    }

    /// The log files to replay after recovery loads a snapshot: of the
    /// `present` store logs (in order), those not merged into a snapshot.
    /// Without a loaded snapshot nothing is replayed from here.
    pub fn unmerged_wal(&self, snapshot_loaded: bool, present: Vec<String>) -> (r: Vec<String>)
        ensures
            !snapshot_loaded ==> r@.len() == 0,
            snapshot_loaded ==> names_of(r@) == names_of(present@).filter(
                |f: Seq<char>| !names_of(self.current().merged_wal_files@).contains(f),
            ),
    {
        let mut r: Vec<String> = Vec::new();
        if !snapshot_loaded {
            return r;
        }
        let ghost merged = names_of(self.manifest.merged_wal_files@);
        let ghost keep = |f: Seq<char>| !merged.contains(f);
        let ghost p0 = present@;
        for f in it: present.into_iter()
            invariant
                it.seq() == p0,
                merged == names_of(self.current().merged_wal_files@),
                keep == (|f: Seq<char>| !merged.contains(f)),
                names_of(r@) == names_of(p0.take(it.index())).filter(keep),
        {
            let ghost k = it.index();
            proof {
                assert(names_of(p0.take(k + 1)) =~= names_of(p0.take(k)).push(f@));
                names_of(p0.take(k)).lemma_filter_push(f@, keep);
            }
            if !self.manifest.is_merged(&f) {
                let ghost r0 = r@;
                r.push(f);
                proof {
                    assert(names_of(r@) =~= names_of(r0).push(f@));
                }
            }
        }
        proof {
            assert(p0.take(p0.len() as int) =~= p0);
        }
        r
    }
}

} // verus!
