//! The payload of a property-column log record: the column's label and
//! name in a small header, then the serialized cells.
//!
//! Header: `[label: u32 LE][name length: u8][name: UTF-8 bytes]`. The cells
//! follow the header; serializing them is the application's part. On
//! replay, only insert records of at least six bytes whose header fits are
//! taken; the name is decoded leniently (invalid UTF-8 becomes U+FFFD).

use vstd::prelude::*;
use vstd::bytes::{spec_u32_from_le_bytes, spec_u32_to_le_bytes, u32_from_le_bytes};
use vstd::slice::{slice_subrange, slice_to_vec};
use vstd::utf8::{decode_utf8, encode_utf8, valid_utf8};
use crate::bytes::{push_bytes, push_u32_le};
use crate::storage::wal_thread::OP_INSERT;
use crate::types::LabelId;

verus! {

/// `String::from_utf8_lossy`: the text of `bytes`, with each invalid
/// sequence replaced by U+FFFD.
pub uninterp spec fn utf8_lossy(bytes: Seq<u8>) -> Seq<char>;

/// `String::from_utf8_lossy`, owned. Its result is named by `utf8_lossy`;
/// the documentation's promise that valid UTF-8 decodes unchanged is
/// stated, the replacement of invalid sequences is not restated.
#[verifier::external_body]
fn string_from_utf8_lossy(bytes: &[u8]) -> (s: String)
    ensures
        s@ == utf8_lossy(bytes@),
        valid_utf8(bytes@) ==> s@ == decode_utf8(bytes@),
{
    String::from_utf8_lossy(bytes).into_owned()
}

/// The header of a column record for `label` and the name bytes `name`.
/// The length byte keeps the low 8 bits of the name's length.
pub open spec fn column_header(label: LabelId, name: Seq<u8>) -> Seq<u8> {
    spec_u32_to_le_bytes(label) + seq![(name.len() % 256) as u8] + name
}

/// The header that replay reads from a record payload: label, name bytes,
/// and where the cells start. `None` for a payload under six bytes or one
/// too short for its name.
pub open spec fn column_header_of(p: Seq<u8>) -> Option<(LabelId, Seq<u8>, int)> {
    if p.len() < 6 {
        None
    } else {
        let n = p[4] as int;
        if p.len() < 5 + n {
            None
        } else {
            Some((spec_u32_from_le_bytes(p.subrange(0, 4)), p.subrange(5, 5 + n), 5 + n))
        }
    }
}

/// The header of a column record for `label` and `name`.
pub fn column_payload_header(label: LabelId, name: &str) -> (h: Vec<u8>)
    ensures
        h@ == column_header(label, encode_utf8(name@)),
{
    let bytes = name.as_bytes();
    let mut h: Vec<u8> = Vec::new();
    push_u32_le(&mut h, label);
    h.push(((bytes.len() as u64) % 256) as u8);
    push_bytes(&mut h, bytes);
    proof {
        assert(h@ =~= column_header(label, encode_utf8(name@)));
    }
    h
}

/// Read the header of a record payload (see `column_header_of`).
pub fn parse_column_header(payload: &[u8]) -> (r: Option<(LabelId, Vec<u8>, usize)>)
    ensures
        match r {
            Some((label, name, start)) => column_header_of(payload@) == Some((label, name@, start as int)),
            None => column_header_of(payload@) is None,
        },
{
    if payload.len() < 6 {
        return None;
    }
    let n = payload[4] as usize;
    if payload.len() < 5 + n {
        return None;
    }
    let label = u32_from_le_bytes(slice_subrange(payload, 0, 4));
    let name = slice_to_vec(slice_subrange(payload, 5, 5 + n));
    Some((label, name, 5 + n))
}

/// What replay takes from a log record: for an insert record with a
/// fitting header, the label, the leniently decoded name, and where the
/// cells start; `None` otherwise.
pub fn decode_column_record(opcode: u8, payload: &[u8]) -> (r: Option<(LabelId, String, usize)>)
    ensures
        match r {
            Some((label, name, start)) => {
                &&& opcode == OP_INSERT
                &&& column_header_of(payload@) matches Some((l, nb, s))
                &&& label == l && name@ == utf8_lossy(nb) && start == s
                &&& (valid_utf8(nb) ==> name@ == decode_utf8(nb))
            },
            None => opcode != OP_INSERT || column_header_of(payload@) is None,
        },
{
    if opcode != OP_INSERT {
        return None;
    }
    match parse_column_header(payload) {
        Some((label, name_bytes, start)) => {
            let name = string_from_utf8_lossy(name_bytes.as_slice());
            Some((label, name, start))
        },
        None => None,
    }
}

/// A column record reads back: the header written for `label` and `name`
/// (a name of at most 255 bytes), followed by at least one byte of cells,
/// decodes to that label and name, with the cells starting right after the
/// header.
pub proof fn lemma_column_header_read_back(label: LabelId, name: Seq<char>, cells: Seq<u8>)
    requires
        encode_utf8(name).len() <= 255,
        cells.len() >= 1,
    ensures
        column_header_of(column_header(label, encode_utf8(name)) + cells) == Some((label, encode_utf8(name), 5 + encode_utf8(name).len() as int)),
        valid_utf8(encode_utf8(name)),
        decode_utf8(encode_utf8(name)) == name,
{
    vstd::bytes::lemma_auto_spec_u32_to_from_le_bytes();
    vstd::utf8::encode_utf8_valid_utf8(name);
    vstd::utf8::encode_utf8_decode_utf8(name);
    let nb = encode_utf8(name);
    let p = column_header(label, nb) + cells;
    assert(p.subrange(0, 4) =~= spec_u32_to_le_bytes(label));
    assert(spec_u32_from_le_bytes(spec_u32_to_le_bytes(label)) == label);
    assert(p[4] == (nb.len() % 256) as u8);
    assert(p.subrange(5, 5 + nb.len() as int) =~= nb);
}

} // verus!
