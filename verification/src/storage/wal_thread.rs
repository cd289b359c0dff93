//! The node and edge store log: its record format, its reader, and the
//! batching decisions of the single log writer.
//!
//! A log file is the magic header `LGDB` followed by records
//! `[total: u32 LE][opcode: u8][id: u64 LE][payload]`, where `total`
//! counts the opcode, the id and the payload. Opcode 1 writes a record in
//! full under its id; opcode 2 deletes the id.
//!
//! The writer (a thread in the application) buffers encoded records and
//! syncs when the buffer reaches the batch size, when the batch interval
//! has passed, on an explicit flush, and at shutdown: `WalBatch::step`
//! decides which.

use vstd::prelude::*;
use vstd::bytes::{spec_u32_from_le_bytes, spec_u32_to_le_bytes, spec_u64_from_le_bytes, spec_u64_to_le_bytes, u32_from_le_bytes, u64_from_le_bytes};
use vstd::slice::{slice_subrange, slice_to_vec};
use crate::bytes::{has_log_magic, log_magic, push_bytes, push_u32_le, push_u64_le};

verus! {

/// Opcode of a record written in full.
pub const OP_INSERT: u8 = 1;

/// Opcode of a deleted id.
pub const OP_DELETE: u8 = 2;

/// The length field of a record with `n` payload bytes: opcode, id and
/// payload, cut to 32 bits.
pub open spec fn frame_total(n: nat) -> u32 {
    ((n + 9) % 0x1_0000_0000) as u32
}

/// One record as it is written.
pub open spec fn wal_frame(op: u8, id: u64, payload: Seq<u8>) -> Seq<u8> {
    spec_u32_to_le_bytes(frame_total(payload.len())) + seq![op] + spec_u64_to_le_bytes(id) + payload
}

/// A record as the reader hands it out: opcode, id, payload.
pub type WalFrame = (u8, u64, Seq<u8>);

/// What a list of read records holds.
pub open spec fn frames_view(v: Seq<(u8, u64, Vec<u8>)>) -> Seq<WalFrame> {
    v.map_values(|f: (u8, u64, Vec<u8>)| (f.0, f.1, f.2@))
}

/// Records written one after another.
pub open spec fn encode_frames(fs: Seq<WalFrame>) -> Seq<u8>
    decreases fs.len(),
{
    if fs.len() == 0 {
        Seq::empty()
    } else {
        wal_frame(fs[0].0, fs[0].1, fs[0].2) + encode_frames(fs.drop_first())
    }
}

/// Why a log could not be read.
#[derive(Debug, Clone, Copy, PartialEq, Eq, Structural)]
pub enum WalReadError {
    /// The file does not start with `LGDB`.
    BadMagic,
    /// A record's length field is under 9.
    RecordTooShort,
    /// The file ends inside a record's header or payload.
    Truncated,
}

/// Records read so far, followed by the rest of the reading.
pub open spec fn after_frames(done: Seq<WalFrame>, rest: Result<Seq<WalFrame>, WalReadError>) -> Result<Seq<WalFrame>, WalReadError> {
    match rest {
        Ok(fs) => Ok(done + fs),
        Err(e) => Err(e),
    }
}

/// Reading records from byte `pos` on. Fewer than four bytes left end the
/// log (a torn length field is ignored); a length under 9 is an error; a
/// record cut short by the end of the file is an error.
pub open spec fn wal_frames_at(b: Seq<u8>, pos: int) -> Result<Seq<WalFrame>, WalReadError>
    decreases b.len() - pos,
{
    if pos < 0 || b.len() - pos < 4 {
        Ok(Seq::empty())
    } else {
        let total = spec_u32_from_le_bytes(b.subrange(pos, pos + 4));
        if total < 9 {
            Err(WalReadError::RecordTooShort)
        } else if b.len() - pos - 4 < total {
            Err(WalReadError::Truncated)
        } else {
            let frame = (b[pos + 4], spec_u64_from_le_bytes(b.subrange(pos + 5, pos + 13)), b.subrange(pos + 13, pos + 4 + total));
            after_frames(seq![frame], wal_frames_at(b, pos + 4 + total))
        }
    }
}

/// Reading a whole log file: a file under four bytes holds no records; a
/// longer one must start with the magic header.
pub open spec fn wal_log(b: Seq<u8>) -> Result<Seq<WalFrame>, WalReadError> {
    if b.len() < 4 {
        Ok(Seq::empty())
    } else if b.subrange(0, 4) != log_magic() {
        Err(WalReadError::BadMagic)
    } else {
        wal_frames_at(b, 4)
    }
}

/// The records delivered from byte `pos` on before reading stops: every
/// well-formed record up to the end of the log or up to the first bad one.
pub open spec fn wal_prefix_at(b: Seq<u8>, pos: int) -> Seq<WalFrame>
    decreases b.len() - pos,
{
    if pos < 0 || b.len() - pos < 4 {
        Seq::empty()
    } else {
        let total = spec_u32_from_le_bytes(b.subrange(pos, pos + 4));
        if total < 9 || b.len() - pos - 4 < total {
            Seq::empty()
        } else {
            let frame = (b[pos + 4], spec_u64_from_le_bytes(b.subrange(pos + 5, pos + 13)), b.subrange(pos + 13, pos + 4 + total));
            seq![frame] + wal_prefix_at(b, pos + 4 + total)
        }
    }
}

/// The records a whole log file delivers before reading stops (none when
/// the header is wrong).
pub open spec fn wal_prefix(b: Seq<u8>) -> Seq<WalFrame> {
    if b.len() < 4 || b.subrange(0, 4) != log_magic() {
        Seq::empty()
    } else {
        wal_prefix_at(b, 4)
    }
}

/// Whether opening a store replays its log file: only when the file
/// exists (`file_len` is its length) and holds more than the magic header.
pub fn should_replay(file_len: Option<u64>) -> (b: bool)
    ensures
        b == (file_len matches Some(n) && n > 4),
{
    match file_len {
        Some(n) => n > 4,
        None => false,
    }
}

/// Append an insert record for `id` with `record` as its payload.
pub fn encode_insert(buf: &mut Vec<u8>, id: u64, record: &[u8])
    ensures
        final(buf)@ == old(buf)@ + wal_frame(OP_INSERT, id, record@),
{
    let n = record.len() as u64;
    let total = (((n % 0x1_0000_0000) + 9) % 0x1_0000_0000) as u32;
    proof {
        vstd::arithmetic::div_mod::lemma_add_mod_noop(n as int, 9, 0x1_0000_0000);
        assert(total == frame_total(record@.len()));
    }
    push_u32_le(buf, total);
    buf.push(OP_INSERT);
    push_u64_le(buf, id);
    push_bytes(buf, record);
    proof {
        assert(final(buf)@ =~= old(buf)@ + wal_frame(OP_INSERT, id, record@));
    }
}

/// Append a delete record for `id`.
pub fn encode_delete(buf: &mut Vec<u8>, id: u64)
    ensures
        final(buf)@ == old(buf)@ + wal_frame(OP_DELETE, id, Seq::empty()),
{
    push_u32_le(buf, 9);
    buf.push(OP_DELETE);
    push_u64_le(buf, id);
    proof {
        assert(final(buf)@ =~= old(buf)@ + wal_frame(OP_DELETE, id, Seq::empty()));
    }
}

/// Read the records of a log file's bytes, in order: every record before
/// the end of the log or before the first bad one, and the error that
/// stopped the reading, if any.
pub fn replay_wal(bytes: &[u8]) -> (r: (Vec<(u8, u64, Vec<u8>)>, Option<WalReadError>))
    ensures
        frames_view(r.0@) == wal_prefix(bytes@),
        match r.1 {
            None => wal_log(bytes@) == Ok::<Seq<WalFrame>, WalReadError>(frames_view(r.0@)),
            Some(e) => wal_log(bytes@) == Err::<Seq<WalFrame>, WalReadError>(e),
        },
{
    let n = bytes.len();
    let mut out: Vec<(u8, u64, Vec<u8>)> = Vec::new();
    if n < 4 {
        proof {
            assert(frames_view(out@) =~= Seq::<WalFrame>::empty());
        }
        return (out, None);
    }
    if !has_log_magic(bytes) {
        proof {
            assert(frames_view(out@) =~= Seq::<WalFrame>::empty());
        }
        return (out, Some(WalReadError::BadMagic));
    }
    let mut pos: usize = 4;
    proof {
        assert(frames_view(out@) + wal_prefix_at(bytes@, 4) =~= wal_prefix_at(bytes@, 4));
        match wal_frames_at(bytes@, 4) {
            Ok(fs) => {
                assert(frames_view(out@) + fs =~= fs);
            },
            Err(_) => {},
        }
    }
    while n - pos >= 4
        invariant
            n == bytes@.len(),
            4 <= pos <= n,
            wal_log(bytes@) == wal_frames_at(bytes@, 4),
            wal_prefix(bytes@) == wal_prefix_at(bytes@, 4),
            wal_frames_at(bytes@, 4) == after_frames(frames_view(out@), wal_frames_at(bytes@, pos as int)),
            wal_prefix_at(bytes@, 4) == frames_view(out@) + wal_prefix_at(bytes@, pos as int),
        decreases n - pos,
    {
        let total = u32_from_le_bytes(slice_subrange(bytes, pos, pos + 4)) as usize;
        if total < 9 {
            proof {
                assert(frames_view(out@) + Seq::<WalFrame>::empty() =~= frames_view(out@));
            }
            return (out, Some(WalReadError::RecordTooShort));
        }
        if n - pos - 4 < total {
            proof {
                assert(frames_view(out@) + Seq::<WalFrame>::empty() =~= frames_view(out@));
            }
            return (out, Some(WalReadError::Truncated));
        }
        let op = bytes[pos + 4];
        let id = u64_from_le_bytes(slice_subrange(bytes, pos + 5, pos + 13));
        let payload = slice_to_vec(slice_subrange(bytes, pos + 13, pos + 4 + total));
        let ghost out0 = frames_view(out@);
        let ghost frame = (op, id, payload@);
        out.push((op, id, payload));
        proof {
            assert(frames_view(out@) =~= out0.push(frame));
            assert(out0 + (seq![frame] + wal_prefix_at(bytes@, pos + 4 + total))
                =~= frames_view(out@) + wal_prefix_at(bytes@, pos + 4 + total));
            match wal_frames_at(bytes@, pos + 4 + total) {
                Ok(fs) => {
                    assert(out0 + (seq![frame] + fs) =~= frames_view(out@) + fs);
                },
                Err(_) => {},
            }
        }
        pos = pos + 4 + total;
    }
    proof {
        assert(frames_view(out@) + Seq::<WalFrame>::empty() =~= frames_view(out@));
    }
    (out, None)
}

proof fn lemma_frames_at_encoded(p: Seq<u8>, fs: Seq<WalFrame>)
    requires
        forall|i: int| 0 <= i < fs.len() ==> (#[trigger] fs[i]).2.len() + 9 <= u32::MAX,
    ensures
        wal_frames_at(p + encode_frames(fs), p.len() as int) == Ok::<Seq<WalFrame>, WalReadError>(fs),
    decreases fs.len(),
{
    vstd::bytes::lemma_auto_spec_u32_to_from_le_bytes();
    vstd::bytes::lemma_auto_spec_u64_to_from_le_bytes();
    if fs.len() == 0 {
        assert(p + encode_frames(fs) =~= p);
        assert(fs =~= Seq::<WalFrame>::empty());
    } else {
        let (op, id, payload) = fs[0];
        let rest = fs.drop_first();
        assert forall|i: int| 0 <= i < rest.len() implies (#[trigger] rest[i]).2.len() + 9 <= u32::MAX by {
            assert(rest[i] == fs[i + 1]);
        }
        let f = wal_frame(op, id, payload);
        let q = p + f;
        lemma_frames_at_encoded(q, rest);
        let b = p + encode_frames(fs);
        assert(b =~= q + encode_frames(rest));
        let pos = p.len() as int;
        let total = frame_total(payload.len());
        assert(total == payload.len() + 9) by {
            assert(fs[0].2.len() + 9 <= u32::MAX);
        }
        assert(b.subrange(pos, pos + 4) =~= spec_u32_to_le_bytes(total));
        assert(spec_u32_from_le_bytes(spec_u32_to_le_bytes(total)) == total);
        assert(spec_u32_from_le_bytes(b.subrange(pos, pos + 4)) == total);
        assert(b[pos + 4] == op);
        assert(b.subrange(pos + 5, pos + 13) =~= spec_u64_to_le_bytes(id));
        assert(spec_u64_from_le_bytes(spec_u64_to_le_bytes(id)) == id);
        assert(b.subrange(pos + 13, pos + 4 + total) =~= payload);
        assert(pos + 4 + total == q.len());
        assert(b.len() - pos - 4 >= total);
        assert(wal_frames_at(b, q.len() as int) == Ok::<Seq<WalFrame>, WalReadError>(rest));
        assert(seq![(op, id, payload)] + rest =~= fs);
    }
}

/// The log reads back what was written: a log of the magic header and
/// encoded records (each payload short enough for its length field) reads
/// as exactly those records.
pub proof fn lemma_wal_read_back(fs: Seq<WalFrame>)
    requires
        forall|i: int| 0 <= i < fs.len() ==> (#[trigger] fs[i]).2.len() + 9 <= u32::MAX,
    ensures
        wal_log(log_magic() + encode_frames(fs)) == Ok::<Seq<WalFrame>, WalReadError>(fs),
{
    lemma_frames_at_encoded(log_magic(), fs);
    assert((log_magic() + encode_frames(fs)).subrange(0, 4) =~= log_magic());
}

// ── The writer's batching decisions ─────────────────────────────────

/// What the log writer receives.
pub enum WalEvent {
    /// Write `payload` in full under the id.
    Insert(u64, Vec<u8>),
    /// Delete the id.
    Delete(u64),
    /// Sync now and acknowledge.
    Flush,
    /// Sync, acknowledge and stop.
    Shutdown,
    /// Nothing arrived within the wait; `running` is false once shutdown
    /// has been requested.
    Idle { running: bool },
}

/// What the log writer does next. Writing an empty batch is a no-op (no
/// sync either).
pub enum WalAction {
    /// Wait for the next event.
    Continue,
    /// Write and sync these bytes.
    Write(Vec<u8>),
    /// Write and sync these bytes, then acknowledge the flush.
    WriteAndReply(Vec<u8>),
    /// Write and sync these bytes, acknowledge, and stop.
    WriteAndStop(Vec<u8>),
    /// Stop.
    Stop,
}

/// The bytes an action writes to the log.
pub open spec fn written_by(a: WalAction) -> Seq<u8> {
    match a {
        WalAction::Write(bytes) => bytes@,
        WalAction::WriteAndReply(bytes) => bytes@,
        WalAction::WriteAndStop(bytes) => bytes@,
        _ => Seq::empty(),
    }
}

/// The record an event adds to the log.
pub open spec fn event_bytes(e: WalEvent) -> Seq<u8> {
    match e {
        WalEvent::Insert(id, payload) => wal_frame(OP_INSERT, id, payload@),
        WalEvent::Delete(id) => wal_frame(OP_DELETE, id, Seq::empty()),
        _ => Seq::empty(),
    }
}

/// The log writer's buffer of encoded records not yet written.
pub struct WalBatch {
    buffer: Vec<u8>,
    batch_size: usize,
}

impl WalBatch {
    /// The encoded records waiting.
    pub closed spec fn pending(&self) -> Seq<u8> {
        self.buffer@
    }

    /// The buffer size that forces a write.
    pub closed spec fn limit(&self) -> usize {
        self.batch_size
    }

    /// Whether a buffer of `pending` bytes is written now: when it is not
    /// empty and has reached the batch size or outlived the batch interval.
    pub open spec fn due(pending: Seq<u8>, limit: usize, timed_out: bool) -> bool {
        pending.len() > 0 && (pending.len() >= limit || timed_out)
    }

    /// An empty buffer that forces a write at `batch_size` bytes.
    pub fn new(batch_size: usize) -> (w: Self)
        ensures
            w.pending() == Seq::<u8>::empty(),
            w.limit() == batch_size,
    {
        WalBatch { buffer: Vec::new(), batch_size }
    }

    fn take_buffer(&mut self) -> (b: Vec<u8>)
        ensures
            b@ == old(self).pending(),
            final(self).pending() == Seq::<u8>::empty(),
            final(self).limit() == old(self).limit(),
    {
        let mut out: Vec<u8> = Vec::new();
        std::mem::swap(&mut out, &mut self.buffer);
        out
    }

    fn write_if_due(&mut self, timed_out: bool) -> (a: WalAction)
        ensures
            final(self).limit() == old(self).limit(),
            if Self::due(old(self).pending(), old(self).limit(), timed_out) {
                &&& a matches WalAction::Write(bytes) && bytes@ == old(self).pending()
                &&& final(self).pending() == Seq::<u8>::empty()
            } else {
                &&& a is Continue
                &&& final(self).pending() == old(self).pending()
            },
    {
        if (self.buffer.len() >= self.batch_size || timed_out) && self.buffer.len() > 0 {
            WalAction::Write(self.take_buffer())
        } else {
            WalAction::Continue
        }
    }

    /// Handle one event. `timed_out` says whether the batch interval has
    /// passed since the last sync.
    ///
    /// - An insert or delete is encoded into the buffer, which is then
    ///   written if due.
    /// - A flush writes the whole buffer and acknowledges; a shutdown does
    ///   the same and stops.
    /// - An idle wait stops the writer once shutdown was requested and
    ///   nothing is buffered; otherwise the buffer is written if due.
    pub fn step(&mut self, event: WalEvent, timed_out: bool) -> (a: WalAction)
        ensures
            final(self).limit() == old(self).limit(),
            written_by(a) + final(self).pending() == old(self).pending() + event_bytes(event),
            match event {
                WalEvent::Insert(id, payload) => {
                    let p = old(self).pending() + wal_frame(OP_INSERT, id, payload@);
                    if Self::due(p, old(self).limit(), timed_out) {
                        a matches WalAction::Write(bytes) && bytes@ == p && final(self).pending() == Seq::<u8>::empty()
                    } else {
                        a is Continue && final(self).pending() == p
                    }
                },
                WalEvent::Delete(id) => {
                    let p = old(self).pending() + wal_frame(OP_DELETE, id, Seq::empty());
                    if Self::due(p, old(self).limit(), timed_out) {
                        a matches WalAction::Write(bytes) && bytes@ == p && final(self).pending() == Seq::<u8>::empty()
                    } else {
                        a is Continue && final(self).pending() == p
                    }
                },
                WalEvent::Flush => {
                    &&& a matches WalAction::WriteAndReply(bytes) && bytes@ == old(self).pending()
                    &&& final(self).pending() == Seq::<u8>::empty()
                },
                WalEvent::Shutdown => {
                    &&& a matches WalAction::WriteAndStop(bytes) && bytes@ == old(self).pending()
                    &&& final(self).pending() == Seq::<u8>::empty()
                },
                WalEvent::Idle { running } => {
                    if !running && old(self).pending().len() == 0 {
                        a is Stop && final(self).pending() == old(self).pending()
                    } else if Self::due(old(self).pending(), old(self).limit(), timed_out) {
                        a matches WalAction::Write(bytes) && bytes@ == old(self).pending() && final(self).pending() == Seq::<u8>::empty()
                    } else {
                        a is Continue && final(self).pending() == old(self).pending()
                    }
                },
            },
    {
        match event {
            WalEvent::Insert(id, payload) => {
                encode_insert(&mut self.buffer, id, payload.as_slice());
                self.write_if_due(timed_out)
            },
            WalEvent::Delete(id) => {
                encode_delete(&mut self.buffer, id);
                self.write_if_due(timed_out)
            },
            WalEvent::Flush => WalAction::WriteAndReply(self.take_buffer()),
            WalEvent::Shutdown => WalAction::WriteAndStop(self.take_buffer()),
            WalEvent::Idle { running } => {
                if !running && self.buffer.len() == 0 {
                    WalAction::Stop
                } else {
                    self.write_if_due(timed_out)
                }
            },
        }
    }
}

} // verus!
