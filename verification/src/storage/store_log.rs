//! The append-only store log with group commit: its record format, its
//! reader, and the buffer that decides when to write and sync.
//!
//! A log file is the magic header `LGDB` followed by records
//! `[len: u32 LE][opcode: u8][payload: len bytes]`: opcode 1 inserts,
//! opcode 2 deletes, and opcode 0 marks a tombstone that readers skip.
//!
//! Writes are buffered and synced in groups: when the buffer reaches the
//! batch size, or when the batch interval has passed since the last sync
//! (checked on the next write).

use vstd::prelude::*;
use vstd::bytes::{spec_u32_from_le_bytes, spec_u32_to_le_bytes, u32_from_le_bytes};
use vstd::slice::{slice_subrange, slice_to_vec};
use crate::bytes::{has_log_magic, log_magic, push_bytes, push_u32_le};

verus! {

/// Opcode of a tombstone record, which readers skip.
pub const OP_TOMBSTONE: u8 = 0;

/// Opcode of an insert record.
pub const OP_INSERT: u8 = 1;

/// Opcode of a delete record.
pub const OP_DELETE: u8 = 2;

/// Flush when this many bytes are buffered, by default (64 KiB).
pub const DEFAULT_BATCH_BYTES: usize = 65536;

/// Flush when this long has passed since the last sync, by default.
pub const DEFAULT_BATCH_TIMEOUT_MS: u64 = 5;

/// One record as it is written: the payload length (cut to 32 bits), the
/// opcode, the payload.
pub open spec fn log_record(op: u8, payload: Seq<u8>) -> Seq<u8> {
    spec_u32_to_le_bytes((payload.len() % 0x1_0000_0000) as u32) + seq![op] + payload
}

/// A record as the reader hands it out: opcode and payload.
pub type LogRecord = (u8, Seq<u8>);

/// What a list of read records holds.
pub open spec fn records_view(v: Seq<(u8, Vec<u8>)>) -> Seq<LogRecord> {
    v.map_values(|r: (u8, Vec<u8>)| (r.0, r.1@))
}

/// Records written one after another.
pub open spec fn encode_records(rs: Seq<LogRecord>) -> Seq<u8>
    decreases rs.len(),
{
    if rs.len() == 0 {
        Seq::empty()
    } else {
        log_record(rs[0].0, rs[0].1) + encode_records(rs.drop_first())
    }
}

/// Why a store log could not be read.
#[derive(Debug, Clone, Copy, PartialEq, Eq, Structural)]
pub enum LogReadError {
    /// The file does not start with `LGDB`.
    BadMagic,
    /// The file ends inside a record's opcode or payload.
    Truncated,
}

/// Records read so far, followed by the rest of the reading.
pub open spec fn after_records(done: Seq<LogRecord>, rest: Result<Seq<LogRecord>, LogReadError>) -> Result<Seq<LogRecord>, LogReadError> {
    match rest {
        Ok(rs) => Ok(done + rs),
        Err(e) => Err(e),
    }
}

/// Reading records from byte `pos` on. Fewer than four bytes left end the
/// log; a record cut short is an error; tombstones are skipped.
pub open spec fn log_records_at(b: Seq<u8>, pos: int) -> Result<Seq<LogRecord>, LogReadError>
    decreases b.len() - pos,
{
    if pos < 0 || b.len() - pos < 4 {
        Ok(Seq::empty())
    } else {
        let len = spec_u32_from_le_bytes(b.subrange(pos, pos + 4));
        if b.len() - pos - 4 < len + 1 {
            Err(LogReadError::Truncated)
        } else {
            let op = b[pos + 4];
            let rest = log_records_at(b, pos + 5 + len);
            if op == OP_TOMBSTONE {
                rest
            } else {
                after_records(seq![(op, b.subrange(pos + 5, pos + 5 + len))], rest)
            }
        }
    }
}

/// Reading a whole store log file: a file under four bytes holds no
/// records; a longer one must start with the magic header.
pub open spec fn store_log(b: Seq<u8>) -> Result<Seq<LogRecord>, LogReadError> {
    if b.len() < 4 {
        Ok(Seq::empty())
    } else if b.subrange(0, 4) != log_magic() {
        Err(LogReadError::BadMagic)
    } else {
        log_records_at(b, 4)
    }
}

/// The records delivered from byte `pos` on before reading stops: every
/// record (tombstones skipped) up to the end of the log or up to the first
/// record cut short.
pub open spec fn log_prefix_at(b: Seq<u8>, pos: int) -> Seq<LogRecord>
    decreases b.len() - pos,
{
    if pos < 0 || b.len() - pos < 4 {
        Seq::empty()
    } else {
        let len = spec_u32_from_le_bytes(b.subrange(pos, pos + 4));
        if b.len() - pos - 4 < len + 1 {
            Seq::empty()
        } else {
            let op = b[pos + 4];
            let rest = log_prefix_at(b, pos + 5 + len);
            if op == OP_TOMBSTONE {
                rest
            } else {
                seq![(op, b.subrange(pos + 5, pos + 5 + len))] + rest
            }
        }
    }
}

/// The records a whole store log file delivers before reading stops (none
/// when the header is wrong).
pub open spec fn store_log_prefix(b: Seq<u8>) -> Seq<LogRecord> {
    if b.len() < 4 || b.subrange(0, 4) != log_magic() {
        Seq::empty()
    } else {
        log_prefix_at(b, 4)
    }
}

/// Append a record with `opcode` and `payload`.
pub fn encode_record(buf: &mut Vec<u8>, opcode: u8, payload: &[u8])
    ensures
        final(buf)@ == old(buf)@ + log_record(opcode, payload@),
{
    let len = ((payload.len() as u64) % 0x1_0000_0000) as u32;
    push_u32_le(buf, len);
    buf.push(opcode);
    if payload.len() > 0 {
        push_bytes(buf, payload);
    }
    proof {
        assert(final(buf)@ =~= old(buf)@ + log_record(opcode, payload@));
    }
}

/// Read the records of a store log file's bytes, in order, skipping
/// tombstones: every record before the end of the log or before the first
/// record cut short, and the error that stopped the reading, if any.
pub fn replay_log(bytes: &[u8]) -> (r: (Vec<(u8, Vec<u8>)>, Option<LogReadError>))
    ensures
        records_view(r.0@) == store_log_prefix(bytes@),
        match r.1 {
            None => store_log(bytes@) == Ok::<Seq<LogRecord>, LogReadError>(records_view(r.0@)),
            Some(e) => store_log(bytes@) == Err::<Seq<LogRecord>, LogReadError>(e),
        },
{
    let n = bytes.len();
    let mut out: Vec<(u8, Vec<u8>)> = Vec::new();
    if n < 4 {
        proof {
            assert(records_view(out@) =~= Seq::<LogRecord>::empty());
        }
        return (out, None);
    }
    if !has_log_magic(bytes) {
        proof {
            assert(records_view(out@) =~= Seq::<LogRecord>::empty());
        }
        return (out, Some(LogReadError::BadMagic));
    }
    let mut pos: usize = 4;
    proof {
        assert(records_view(out@) + log_prefix_at(bytes@, 4) =~= log_prefix_at(bytes@, 4));
        match log_records_at(bytes@, 4) {
            Ok(rs) => {
                assert(records_view(out@) + rs =~= rs);
            },
            Err(_) => {},
        }
    }
    while n - pos >= 4
        invariant
            n == bytes@.len(),
            4 <= pos <= n,
            store_log(bytes@) == log_records_at(bytes@, 4),
            store_log_prefix(bytes@) == log_prefix_at(bytes@, 4),
            log_records_at(bytes@, 4) == after_records(records_view(out@), log_records_at(bytes@, pos as int)),
            log_prefix_at(bytes@, 4) == records_view(out@) + log_prefix_at(bytes@, pos as int),
        decreases n - pos,
    {
        let len = u32_from_le_bytes(slice_subrange(bytes, pos, pos + 4)) as usize;
        if n - pos - 4 < 1 || n - pos - 5 < len {
            proof {
                assert(records_view(out@) + Seq::<LogRecord>::empty() =~= records_view(out@));
            }
            return (out, Some(LogReadError::Truncated));
        }
        let op = bytes[pos + 4];
        if op != OP_TOMBSTONE {
            let payload = slice_to_vec(slice_subrange(bytes, pos + 5, pos + 5 + len));
            let ghost out0 = records_view(out@);
            let ghost rec = (op, payload@);
            out.push((op, payload));
            proof {
                assert(records_view(out@) =~= out0.push(rec));
                assert(out0 + (seq![rec] + log_prefix_at(bytes@, pos + 5 + len))
                    =~= records_view(out@) + log_prefix_at(bytes@, pos + 5 + len));
                match log_records_at(bytes@, pos + 5 + len) {
                    Ok(rs) => {
                        assert(out0 + (seq![rec] + rs) =~= records_view(out@) + rs);
                    },
                    Err(_) => {},
                }
            }
        }
        pos = pos + 5 + len;
    }
    proof {
        assert(records_view(out@) + Seq::<LogRecord>::empty() =~= records_view(out@));
    }
    (out, None)
}

proof fn lemma_records_at_encoded(p: Seq<u8>, rs: Seq<LogRecord>)
    requires
        forall|i: int| 0 <= i < rs.len() ==> (#[trigger] rs[i]).1.len() <= u32::MAX && rs[i].0 != OP_TOMBSTONE,
    ensures
        log_records_at(p + encode_records(rs), p.len() as int) == Ok::<Seq<LogRecord>, LogReadError>(rs),
    decreases rs.len(),
{
    vstd::bytes::lemma_auto_spec_u32_to_from_le_bytes();
    if rs.len() == 0 {
        assert(p + encode_records(rs) =~= p);
        assert(rs =~= Seq::<LogRecord>::empty());
    } else {
        let (op, payload) = rs[0];
        let rest = rs.drop_first();
        assert forall|i: int| 0 <= i < rest.len() implies (#[trigger] rest[i]).1.len() <= u32::MAX && rest[i].0 != OP_TOMBSTONE by {
            assert(rest[i] == rs[i + 1]);
        }
        let q = p + log_record(op, payload);
        lemma_records_at_encoded(q, rest);
        let b = p + encode_records(rs);
        assert(b =~= q + encode_records(rest));
        let pos = p.len() as int;
        let len = (payload.len() % 0x1_0000_0000) as u32;
        assert(len == payload.len()) by {
            assert(rs[0].1.len() <= u32::MAX);
        }
        assert(b.subrange(pos, pos + 4) =~= spec_u32_to_le_bytes(len));
        assert(spec_u32_from_le_bytes(spec_u32_to_le_bytes(len)) == len);
        assert(spec_u32_from_le_bytes(b.subrange(pos, pos + 4)) == len);
        assert(b[pos + 4] == op);
        assert(b.subrange(pos + 5, pos + 5 + len) =~= payload);
        assert(pos + 5 + len == q.len());
        assert(log_records_at(b, q.len() as int) == Ok::<Seq<LogRecord>, LogReadError>(rest));
        assert(seq![(op, payload)] + rest =~= rs);
    }
}

/// The store log reads back what was written: a log of the magic header
/// and encoded records (no tombstones, each payload short enough for its
/// length field) reads as exactly those records.
pub proof fn lemma_store_log_read_back(rs: Seq<LogRecord>)
    requires
        forall|i: int| 0 <= i < rs.len() ==> (#[trigger] rs[i]).1.len() <= u32::MAX && rs[i].0 != OP_TOMBSTONE,
    ensures
        store_log(log_magic() + encode_records(rs)) == Ok::<Seq<LogRecord>, LogReadError>(rs),
{
    lemma_records_at_encoded(log_magic(), rs);
    assert((log_magic() + encode_records(rs)).subrange(0, 4) =~= log_magic());
}

/// The group-commit buffer of a store log: encoded records not yet
/// written, the batch size, and the bytes already in the file.
pub struct StoreLogBuffer {
    buffer: Vec<u8>,
    batch_size: usize,
    bytes_written: u64,
}

impl StoreLogBuffer {
    /// The file's length, buffered bytes included, fits in 64 bits.
    #[verifier::type_invariant]
    spec fn fits(&self) -> bool {
        self.bytes_written + self.buffer@.len() <= u64::MAX
    }

    /// Encoded records not yet written.
    pub closed spec fn pending(&self) -> Seq<u8> {
        self.buffer@
    }

    /// The buffer size that forces a write.
    pub closed spec fn limit(&self) -> usize {
        self.batch_size
    }

    /// Bytes in the file.
    pub closed spec fn written(&self) -> u64 {
        self.bytes_written
    }

    /// A buffer for a log file that already holds `file_len` bytes (the
    /// header alone for a new file).
    pub fn new(batch_size: usize, file_len: u64) -> (s: Self)
        ensures
            s.pending() == Seq::<u8>::empty(),
            s.limit() == batch_size,
            s.written() == file_len,
    {
        StoreLogBuffer { buffer: Vec::new(), batch_size, bytes_written: file_len }
    }

    /// Write the buffer when it has reached the batch size or the interval
    /// has passed: the bytes to write and sync (possibly none), after which
    /// they count as written and the buffer empties.
    fn maybe_sync(&mut self, timed_out: bool) -> (w: Option<Vec<u8>>)
        requires
            old(self).written() + old(self).pending().len() <= u64::MAX,
        ensures
            final(self).limit() == old(self).limit(),
            if old(self).pending().len() >= old(self).limit() || timed_out {
                &&& w matches Some(bytes) && bytes@ == old(self).pending()
                &&& final(self).pending() == Seq::<u8>::empty()
                &&& final(self).written() == old(self).written() + old(self).pending().len()
            } else {
                &&& w is None
                &&& final(self).pending() == old(self).pending()
                &&& final(self).written() == old(self).written()
            },
    {
        if self.buffer.len() >= self.batch_size || timed_out {
            let mut out: Vec<u8> = Vec::new();
            std::mem::swap(&mut out, &mut self.buffer);
            self.bytes_written = self.bytes_written + out.len() as u64;
            Some(out)
        } else {
            None
        }
    }

    /// Buffer an insert record; returns the bytes to write and sync now,
    /// if a group commit is due.
    pub fn append_insert(&mut self, payload: &[u8], timed_out: bool) -> (w: Option<Vec<u8>>)
        requires
            old(self).written() + old(self).pending().len() + payload@.len() + 5 <= u64::MAX,
        ensures
            final(self).limit() == old(self).limit(),
            ({
                let p = old(self).pending() + log_record(OP_INSERT, payload@);
                if p.len() >= old(self).limit() || timed_out {
                    &&& w matches Some(bytes) && bytes@ == p
                    &&& final(self).pending() == Seq::<u8>::empty()
                    &&& final(self).written() == old(self).written() + p.len()
                } else {
                    &&& w is None
                    &&& final(self).pending() == p
                    &&& final(self).written() == old(self).written()
                }
            }),
    {
        let mut buf: Vec<u8> = Vec::new();
        std::mem::swap(&mut buf, &mut self.buffer);
        encode_record(&mut buf, OP_INSERT, payload);
        proof {
            vstd::bytes::lemma_auto_spec_u32_to_from_le_bytes();
            assert(buf@.len() == old(self).pending().len() + payload@.len() + 5);
        }
        self.buffer = buf;
        proof {
            vstd::bytes::lemma_auto_spec_u32_to_from_le_bytes();
        }
        self.maybe_sync(timed_out)
    }

    /// Buffer a delete record; returns the bytes to write and sync now, if
    /// a group commit is due.
    pub fn append_delete(&mut self, id_bytes: &[u8], timed_out: bool) -> (w: Option<Vec<u8>>)
        requires
            old(self).written() + old(self).pending().len() + id_bytes@.len() + 5 <= u64::MAX,
        ensures
            final(self).limit() == old(self).limit(),
            ({
                let p = old(self).pending() + log_record(OP_DELETE, id_bytes@);
                if p.len() >= old(self).limit() || timed_out {
                    &&& w matches Some(bytes) && bytes@ == p
                    &&& final(self).pending() == Seq::<u8>::empty()
                    &&& final(self).written() == old(self).written() + p.len()
                } else {
                    &&& w is None
                    &&& final(self).pending() == p
                    &&& final(self).written() == old(self).written()
                }
            }),
    {
        let mut buf: Vec<u8> = Vec::new();
        std::mem::swap(&mut buf, &mut self.buffer);
        encode_record(&mut buf, OP_DELETE, id_bytes);
        proof {
            vstd::bytes::lemma_auto_spec_u32_to_from_le_bytes();
            assert(buf@.len() == old(self).pending().len() + id_bytes@.len() + 5);
        }
        self.buffer = buf;
        proof {
            vstd::bytes::lemma_auto_spec_u32_to_from_le_bytes();
        }
        self.maybe_sync(timed_out)
    }

    /// A forced sync: the whole buffer is handed out to be written and
    /// synced, after which it counts as written and the buffer empties.
    pub fn sync_now(&mut self) -> (bytes: Vec<u8>)
        ensures
            bytes@ == old(self).pending(),
            final(self).pending() == Seq::<u8>::empty(),
            final(self).written() == old(self).written() + old(self).pending().len(),
            final(self).limit() == old(self).limit(),
    {
        proof {
            use_type_invariant(&*self);
        }
        let mut out: Vec<u8> = Vec::new();
        std::mem::swap(&mut out, &mut self.buffer);
        self.bytes_written = self.bytes_written + out.len() as u64;
        out
    }

    /// The log's size: bytes written plus bytes buffered.
    pub fn size_bytes(&self) -> (n: u64)
        ensures
            n == self.written() + self.pending().len(),
    {
        proof {
            use_type_invariant(self);
        }
        self.bytes_written + self.buffer.len() as u64
    }
}

} // verus!
