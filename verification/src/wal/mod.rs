//! The transaction write-ahead log's framing and group-commit buffer.
//!
//! The log is a sequence of frames `[len: u32 LE][record: len bytes]`,
//! each holding one serialized transaction record. Frames are buffered and
//! written with one sync when the buffer reaches 64 KiB or 100 µs have
//! passed since the last sync. Serializing the records themselves is the
//! application's part.

use vstd::prelude::*;
use vstd::bytes::{spec_u32_from_le_bytes, spec_u32_to_le_bytes, u32_from_le_bytes};
use vstd::slice::{slice_subrange, slice_to_vec};
use crate::bytes::{push_bytes, push_u32_le};

verus! {

/// The buffer size that forces a write (64 KiB).
pub const MAX_BUFFER_SIZE: usize = 65536;

/// One frame as it is written: the record length (cut to 32 bits) and the
/// record.
pub open spec fn wal_frame(data: Seq<u8>) -> Seq<u8> {
    spec_u32_to_le_bytes((data.len() % 0x1_0000_0000) as u32) + data
}

/// Frames written one after another.
pub open spec fn encode_frames(ds: Seq<Seq<u8>>) -> Seq<u8>
    decreases ds.len(),
{
    if ds.len() == 0 {
        Seq::empty()
    } else {
        wal_frame(ds[0]) + encode_frames(ds.drop_first())
    }
}

/// What a list of read records holds.
pub open spec fn data_view(v: Seq<Vec<u8>>) -> Seq<Seq<u8>> {
    v.map_values(|d: Vec<u8>| d@)
}

/// The log ends inside a frame.
#[derive(Debug, Clone, Copy, PartialEq, Eq, Structural)]
pub struct TruncatedFrame;

/// Frames read so far, followed by the rest of the reading.
pub open spec fn after_data(done: Seq<Seq<u8>>, rest: Result<Seq<Seq<u8>>, TruncatedFrame>) -> Result<Seq<Seq<u8>>, TruncatedFrame> {
    match rest {
        Ok(ds) => Ok(done + ds),
        Err(e) => Err(e),
    }
}

/// Reading frames from byte `pos` on: fewer than four bytes left end the
/// log; a frame cut short is an error.
pub open spec fn frames_at(b: Seq<u8>, pos: int) -> Result<Seq<Seq<u8>>, TruncatedFrame>
    decreases b.len() - pos,
{
    if pos < 0 || b.len() - pos < 4 {
        Ok(Seq::empty())
    } else {
        let len = spec_u32_from_le_bytes(b.subrange(pos, pos + 4));
        if b.len() - pos - 4 < len {
            Err(TruncatedFrame)
        } else {
            after_data(seq![b.subrange(pos + 4, pos + 4 + len)], frames_at(b, pos + 4 + len))
        }
    }
}

/// Append the frame of one serialized record.
pub fn encode_frame(buf: &mut Vec<u8>, data: &[u8])
    ensures
        final(buf)@ == old(buf)@ + wal_frame(data@),
{
    let len = ((data.len() as u64) % 0x1_0000_0000) as u32;
    push_u32_le(buf, len);
    push_bytes(buf, data);
    proof {
        assert(final(buf)@ =~= old(buf)@ + wal_frame(data@));
    }
}

/// Split a log's bytes into its records, in order.
pub fn split_frames(bytes: &[u8]) -> (r: Result<Vec<Vec<u8>>, TruncatedFrame>)
    ensures
        match r {
            Ok(v) => frames_at(bytes@, 0) == Ok::<Seq<Seq<u8>>, TruncatedFrame>(data_view(v@)),
            Err(e) => frames_at(bytes@, 0) == Err::<Seq<Seq<u8>>, TruncatedFrame>(e),
        },
{
    let n = bytes.len();
    let mut out: Vec<Vec<u8>> = Vec::new();
    let mut pos: usize = 0;
    proof {
        match frames_at(bytes@, 0) {
            Ok(ds) => {
                assert(data_view(out@) + ds =~= ds);
            },
            Err(_) => {},
        }
    }
    while n - pos >= 4
        invariant
            n == bytes@.len(),
            0 <= pos <= n,
            frames_at(bytes@, 0) == after_data(data_view(out@), frames_at(bytes@, pos as int)),
        decreases n - pos,
    {
        let len = u32_from_le_bytes(slice_subrange(bytes, pos, pos + 4)) as usize;
        if n - pos - 4 < len {
            return Err(TruncatedFrame);
        }
        let data = slice_to_vec(slice_subrange(bytes, pos + 4, pos + 4 + len));
        let ghost out0 = data_view(out@);
        let ghost d = data@;
        out.push(data);
        proof {
            assert(data_view(out@) =~= out0.push(d));
            match frames_at(bytes@, pos + 4 + len) {
                Ok(ds) => {
                    assert(out0 + (seq![d] + ds) =~= data_view(out@) + ds);
                },
                Err(_) => {},
            }
        }
        pos = pos + 4 + len;
    }
    proof {
        assert(data_view(out@) + Seq::<Seq<u8>>::empty() =~= data_view(out@));
    }
    Ok(out)
}

proof fn lemma_frames_at_encoded(p: Seq<u8>, ds: Seq<Seq<u8>>)
    requires
        forall|i: int| 0 <= i < ds.len() ==> (#[trigger] ds[i]).len() <= u32::MAX,
    ensures
        frames_at(p + encode_frames(ds), p.len() as int) == Ok::<Seq<Seq<u8>>, TruncatedFrame>(ds),
    decreases ds.len(),
{
    vstd::bytes::lemma_auto_spec_u32_to_from_le_bytes();
    if ds.len() == 0 {
        assert(p + encode_frames(ds) =~= p);
        assert(ds =~= Seq::<Seq<u8>>::empty());
    } else {
        let d = ds[0];
        let rest = ds.drop_first();
        assert forall|i: int| 0 <= i < rest.len() implies (#[trigger] rest[i]).len() <= u32::MAX by {
            assert(rest[i] == ds[i + 1]);
        }
        let q = p + wal_frame(d);
        lemma_frames_at_encoded(q, rest);
        let b = p + encode_frames(ds);
        assert(b =~= q + encode_frames(rest));
        let pos = p.len() as int;
        let len = (d.len() % 0x1_0000_0000) as u32;
        assert(len == d.len()) by {
            assert(ds[0].len() <= u32::MAX);
        }
        assert(b.subrange(pos, pos + 4) =~= spec_u32_to_le_bytes(len));
        assert(spec_u32_from_le_bytes(spec_u32_to_le_bytes(len)) == len);
        assert(spec_u32_from_le_bytes(b.subrange(pos, pos + 4)) == len);
        assert(b.subrange(pos + 4, pos + 4 + len) =~= d);
        assert(pos + 4 + len == q.len());
        assert(frames_at(b, q.len() as int) == Ok::<Seq<Seq<u8>>, TruncatedFrame>(rest));
        assert(seq![d] + rest =~= ds);
    }
}

/// The log reads back what was written: encoded frames (each record short
/// enough for its length field) split into exactly those records.
pub proof fn lemma_wal_frames_read_back(ds: Seq<Seq<u8>>)
    requires
        forall|i: int| 0 <= i < ds.len() ==> (#[trigger] ds[i]).len() <= u32::MAX,
    ensures
        frames_at(encode_frames(ds), 0) == Ok::<Seq<Seq<u8>>, TruncatedFrame>(ds),
{
    lemma_frames_at_encoded(Seq::empty(), ds);
    assert(Seq::<u8>::empty() + encode_frames(ds) =~= encode_frames(ds));
}

/// The writer's group-commit buffer.
pub struct WalBuffer {
    buffer: Vec<u8>,
    max_buffer_size: usize,
}

impl WalBuffer {
    /// Frames not yet written.
    pub closed spec fn pending(&self) -> Seq<u8> {
        self.buffer@
    }

    /// The buffer size that forces a write.
    pub closed spec fn limit(&self) -> usize {
        self.max_buffer_size
    }

    /// An empty buffer that forces a write at 64 KiB.
    pub fn new() -> (w: Self)
        ensures
            w.pending() == Seq::<u8>::empty(),
            w.limit() == MAX_BUFFER_SIZE,
    {
        WalBuffer { buffer: Vec::new(), max_buffer_size: MAX_BUFFER_SIZE }
    }

    /// Buffer one serialized record; returns the bytes to write and sync
    /// now when the buffer has reached its limit or the sync interval has
    /// passed, leaving the buffer empty.
    pub fn write(&mut self, data: &[u8], timed_out: bool) -> (w: Option<Vec<u8>>)
        ensures
            final(self).limit() == old(self).limit(),
            ({
                let p = old(self).pending() + wal_frame(data@);
                if p.len() >= old(self).limit() || timed_out {
                    w matches Some(bytes) && bytes@ == p && final(self).pending() == Seq::<u8>::empty()
                } else {
                    w is None && final(self).pending() == p
                }
            }),
    {
        encode_frame(&mut self.buffer, data);
        if self.buffer.len() >= self.max_buffer_size || timed_out {
            Some(self.flush())
        } else {
            None
        }
    }

    /// Take everything buffered, to be written and synced now.
    pub fn flush(&mut self) -> (bytes: Vec<u8>)
        ensures
            bytes@ == old(self).pending(),
            final(self).pending() == Seq::<u8>::empty(),
            final(self).limit() == old(self).limit(),
    {
        let mut out: Vec<u8> = Vec::new();
        std::mem::swap(&mut out, &mut self.buffer);
        out
    }
}

} // verus!
