//! Byte-level helpers shared by the log formats: appending bytes and
//! little-endian integers, and the log files' magic header.

use vstd::prelude::*;
use vstd::bytes::{spec_u32_to_le_bytes, spec_u64_to_le_bytes, u32_to_le_bytes, u64_to_le_bytes};

verus! {

/// The magic header of a store log file: `LGDB`.
pub open spec fn log_magic() -> Seq<u8> {
    seq![0x4Cu8, 0x47u8, 0x44u8, 0x42u8]
}

/// The magic header of a store log file, for a writer starting one.
pub fn log_header() -> (v: Vec<u8>)
    ensures
        v@ == log_magic(),
{
    let mut v: Vec<u8> = Vec::new();
    v.push(0x4C);
    v.push(0x47);
    v.push(0x44);
    v.push(0x42);
    proof {
        assert(v@ =~= log_magic());
    }
    v
}

/// Whether `bytes` starts with the magic header.
pub fn has_log_magic(bytes: &[u8]) -> (b: bool)
    requires
        bytes@.len() >= 4,
    ensures
        b == (bytes@.subrange(0, 4) == log_magic()),
{
    let b = bytes[0] == 0x4C && bytes[1] == 0x47 && bytes[2] == 0x44 && bytes[3] == 0x42;
    proof {
        if b {
            assert(bytes@.subrange(0, 4) =~= log_magic());
        } else {
            if bytes@.subrange(0, 4) == log_magic() {
                assert(bytes@.subrange(0, 4)[0] == bytes@[0]);
                assert(bytes@.subrange(0, 4)[1] == bytes@[1]);
                assert(bytes@.subrange(0, 4)[2] == bytes@[2]);
                assert(bytes@.subrange(0, 4)[3] == bytes@[3]);
            }
        }
    }
    b
}

/// Append `bytes` to `buf`.
pub fn push_bytes(buf: &mut Vec<u8>, bytes: &[u8])
    ensures
        final(buf)@ == old(buf)@ + bytes@,
{
    let mut i: usize = 0;
    while i < bytes.len()
        invariant
            0 <= i <= bytes@.len(),
            buf@ == old(buf)@ + bytes@.take(i as int),
        decreases bytes.len() - i,
    {
        proof {
            assert(bytes@.take(i + 1) =~= bytes@.take(i as int).push(bytes@[i as int]));
        }
        buf.push(bytes[i]);
        i += 1;
    }
    proof {
        assert(bytes@.take(bytes@.len() as int) =~= bytes@);
    }
}

/// Append `x` as four little-endian bytes.
pub fn push_u32_le(buf: &mut Vec<u8>, x: u32)
    ensures
        final(buf)@ == old(buf)@ + spec_u32_to_le_bytes(x),
{
    let mut b = u32_to_le_bytes(x);
    buf.append(&mut b);
}

/// Append `x` as eight little-endian bytes.
pub fn push_u64_le(buf: &mut Vec<u8>, x: u64)
    ensures
        final(buf)@ == old(buf)@ + spec_u64_to_le_bytes(x),
{
    let mut b = u64_to_le_bytes(x);
    buf.append(&mut b);
}

} // verus!
