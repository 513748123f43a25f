//! The record framing shared by the write-ahead log and the data section of
//! a table: a 24-byte little-endian header (key length, value length,
//! timestamp, sequence number) followed by the key and the value bytes. A
//! value length of zero marks a tombstone.

use crate::memtable::{value_len, Entry, EntryView};
use vstd::bytes::*;
use vstd::prelude::*;
use vstd::slice::{slice_subrange, slice_to_vec};

verus! {

/// Length of the fixed header in front of every record.
pub const RECORD_HEADER_LEN: usize = 24;

/// The bytes a value is stored as; none for a tombstone.
pub open spec fn value_bytes(v: Option<Seq<u8>>) -> Seq<u8> {
    match v {
        Some(b) => b,
        None => Seq::empty(),
    }
}

/// The little-endian `u32` stored at `p`.
pub open spec fn u32_at(b: Seq<u8>, p: int) -> u32 {
    spec_u32_from_le_bytes(b.subrange(p, p + 4))
}

/// The little-endian `u64` stored at `p`.
pub open spec fn u64_at(b: Seq<u8>, p: int) -> u64 {
    spec_u64_from_le_bytes(b.subrange(p, p + 8))
}

/// Whether an entry's lengths fit the header's 32-bit fields.
pub open spec fn encodable(e: EntryView) -> bool {
    e.key.len() <= u32::MAX && value_len(e.value) <= u32::MAX
}

/// The value a framed record reads back as: an empty value is stored like
/// a tombstone.
pub open spec fn stored_value(v: Option<Seq<u8>>) -> Option<Seq<u8>> {
    match v {
        Some(b) => if b.len() == 0 {
            None
        } else {
            Some(b)
        },
        None => None,
    }
}

/// The entry a framed record reads back as.
pub open spec fn stored(e: EntryView) -> EntryView {
    EntryView {
        key: e.key,
        value: stored_value(e.value),
        timestamp: e.timestamp,
        sequence_number: e.sequence_number,
    }
}

/// The bytes of one framed record.
pub open spec fn entry_bytes(e: EntryView) -> Seq<u8> {
    spec_u32_to_le_bytes(e.key.len() as u32) + spec_u32_to_le_bytes(value_len(e.value) as u32)
        + spec_u64_to_le_bytes(e.timestamp) + spec_u64_to_le_bytes(e.sequence_number) + e.key
        + value_bytes(e.value)
}

/// The entry whose header starts at `p`, given its lengths fit in `b`.
pub open spec fn entry_at(b: Seq<u8>, p: int) -> EntryView {
    let klen = u32_at(b, p) as int;
    let vlen = u32_at(b, p + 4) as int;
    EntryView {
        key: b.subrange(p + 24, p + 24 + klen),
        value: if vlen == 0 {
            None
        } else {
            Some(b.subrange(p + 24 + klen, p + 24 + klen + vlen))
        },
        timestamp: u64_at(b, p + 8),
        sequence_number: u64_at(b, p + 16),
    }
}

/// Where the record whose header starts at `p` ends.
pub open spec fn entry_end(b: Seq<u8>, p: int) -> int {
    p + 24 + u32_at(b, p) + u32_at(b, p + 4)
}

/// A framed record is its 24-byte header, its key and its value.
pub proof fn lemma_entry_bytes_len(e: EntryView)
    ensures
        entry_bytes(e).len() == 24 + e.key.len() + value_len(e.value),
{
    lemma_auto_spec_u32_to_from_le_bytes();
    lemma_auto_spec_u64_to_from_le_bytes();
}

/// Reading back a framed record from anywhere in a buffer gives the entry
/// that was framed, with an empty value read as a tombstone.
pub proof fn lemma_entry_round_trip(b: Seq<u8>, p: int, e: EntryView)
    requires
        0 <= p,
        p + entry_bytes(e).len() <= b.len(),
        b.subrange(p, p + entry_bytes(e).len()) == entry_bytes(e),
        encodable(e),
    ensures
        entry_bytes(e).len() == 24 + e.key.len() + value_len(e.value),
        u32_at(b, p) == e.key.len(),
        u32_at(b, p + 4) == value_len(e.value),
        entry_end(b, p) == p + entry_bytes(e).len(),
        entry_at(b, p) == stored(e),
{
    lemma_auto_spec_u32_to_from_le_bytes();
    lemma_auto_spec_u64_to_from_le_bytes();
    let n = entry_bytes(e).len() as int;
    let eb = entry_bytes(e);
    let klen = e.key.len() as int;
    let vlen = value_len(e.value) as int;
    assert(eb.len() == 24 + klen + vlen);
    let w = b.subrange(p, p + n);
    assert(b.subrange(p, p + 4) =~= eb.subrange(0, 4));
    assert(eb.subrange(0, 4) =~= spec_u32_to_le_bytes(klen as u32));
    assert(b.subrange(p + 4, p + 8) =~= eb.subrange(4, 8));
    assert(eb.subrange(4, 8) =~= spec_u32_to_le_bytes(vlen as u32));
    assert(b.subrange(p + 8, p + 16) =~= eb.subrange(8, 16));
    assert(eb.subrange(8, 16) =~= spec_u64_to_le_bytes(e.timestamp));
    assert(b.subrange(p + 16, p + 24) =~= eb.subrange(16, 24));
    assert(eb.subrange(16, 24) =~= spec_u64_to_le_bytes(e.sequence_number));
    assert(b.subrange(p + 24, p + 24 + klen) =~= eb.subrange(24, 24 + klen));
    assert(eb.subrange(24, 24 + klen) =~= e.key);
    if vlen > 0 {
        assert(b.subrange(p + 24 + klen, p + 24 + klen + vlen) =~= eb.subrange(24 + klen, n));
        assert(eb.subrange(24 + klen, n) =~= value_bytes(e.value));
    }
}

/// Read the little-endian `u32` at `pos`.
pub fn read_u32(buf: &[u8], pos: usize) -> (r: u32)
    requires
        pos + 4 <= buf@.len(),
    ensures
        r == u32_at(buf@, pos as int),
{
    let len = buf.len();
    assert(pos + 4 <= len);
    u32_from_le_bytes(slice_subrange(buf, pos, pos + 4))
}

/// Read the little-endian `u64` at `pos`.
pub fn read_u64(buf: &[u8], pos: usize) -> (r: u64)
    requires
        pos + 8 <= buf@.len(),
    ensures
        r == u64_at(buf@, pos as int),
{
    let len = buf.len();
    assert(pos + 8 <= len);
    u64_from_le_bytes(slice_subrange(buf, pos, pos + 8))
}

/// Append the little-endian bytes of a `u32`.
pub fn push_u32(out: &mut Vec<u8>, x: u32)
    ensures
        final(out)@ == old(out)@ + spec_u32_to_le_bytes(x),
{
    let mut b = u32_to_le_bytes(x);
    out.append(&mut b);
}

/// Append the little-endian bytes of a `u64`.
pub fn push_u64(out: &mut Vec<u8>, x: u64)
    ensures
        final(out)@ == old(out)@ + spec_u64_to_le_bytes(x),
{
    let mut b = u64_to_le_bytes(x);
    out.append(&mut b);
}

/// Append raw bytes.
pub fn push_bytes(out: &mut Vec<u8>, bytes: &[u8])
    ensures
        final(out)@ == old(out)@ + bytes@,
{
    let mut b = slice_to_vec(bytes);
    out.append(&mut b);
}

/// Append the framed record of `e`.
pub fn push_entry(out: &mut Vec<u8>, e: &Entry)
    requires
        encodable(e@),
    ensures
        final(out)@ == old(out)@ + entry_bytes(e@),
{
    let ghost start = out@;
    let value_len: usize = match &e.value {
        Some(v) => v.len(),
        None => 0,
    };
    push_u32(out, e.key.len() as u32);
    push_u32(out, value_len as u32);
    push_u64(out, e.timestamp);
    push_u64(out, e.sequence_number);
    push_bytes(out, e.key.as_slice());
    match &e.value {
        Some(v) => push_bytes(out, v.as_slice()),
        None => {},
    }
    assert(final(out)@ =~= start + entry_bytes(e@));
}

/// Decode the record whose header starts at `pos`; its lengths must fit.
pub fn decode_entry(buf: &[u8], pos: usize) -> (r: Entry)
    requires
        pos + 24 <= buf@.len(),
        entry_end(buf@, pos as int) <= buf@.len(),
    ensures
        r@ == entry_at(buf@, pos as int),
{
    let len = buf.len();
    assert(pos + 24 <= len);
    let key_len = read_u32(buf, pos) as usize;
    let value_len = read_u32(buf, pos + 4) as usize;
    let timestamp = read_u64(buf, pos + 8);
    let sequence_number = read_u64(buf, pos + 16);
    let key_start = pos + 24;
    let key = slice_to_vec(slice_subrange(buf, key_start, key_start + key_len));
    let value = if value_len == 0 {
        None
    } else {
        Some(slice_to_vec(slice_subrange(buf, key_start + key_len, key_start + key_len + value_len)))
    };
    Entry::new(key, value, timestamp, sequence_number)
}

} // verus!
