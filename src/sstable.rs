//! The immutable sorted table: its on-disk layout (header, bloom filter,
//! data, index, footer), how a table image is built from sorted entries,
//! and how a key is looked up through the bloom filter and the index.

use crate::codec::{
    encodable, entry_at, entry_bytes, entry_end, lemma_entry_bytes_len, lemma_entry_round_trip,
    push_bytes, push_entry, push_u32, push_u64, read_u32, read_u64, stored, stored_value, u32_at,
    u64_at,
};
use crate::memtable::{
    bytes_view, entry_views, strictly_sorted, value_len, Entry, EntryView, Lookup, MemTable,
};
use vstd::slice::slice_subrange;

pub use crate::bloom::BloomFilter;
use crate::bloom::{bits_contain, lemma_bloom_grow};
use crate::keys::{compare_keys, key_lt, lemma_key_lt_irreflexive, lemma_key_lt_total, lemma_key_lt_transitive};
use std::cmp::Ordering;
use vstd::bytes::{spec_u32_to_le_bytes, spec_u64_to_le_bytes};
use vstd::prelude::*;

verus! {

/// Errors that can occur during SSTable operations.
#[derive(Debug)]
pub enum SSTableError {
    Io(std::io::Error),
    InvalidFormat(String),
    CorruptedFile(String),
    KeyNotFound(String),
    InvalidIndex(String),
}

/// Result type for SSTable operations.
pub type SSTableResult<T> = Result<T, SSTableError>;

/// Compression recorded in a table's header; the data itself is stored
/// uncompressed.
#[derive(Debug, Clone, Copy, PartialEq, Eq, Structural)]
pub enum CompressionType {
    Uncompressed,
    LZ4,
    Zstd,
}

impl CompressionType {
    /// The byte recorded in the header.
    pub open spec fn spec_code(&self) -> u8 {
        match self {
            CompressionType::Uncompressed => 0,
            CompressionType::LZ4 => 1,
            CompressionType::Zstd => 2,
        }
    }

    /// The byte recorded in the header.
    pub fn code(&self) -> (r: u8)
        ensures
            r == self.spec_code(),
    {
        match self {
            CompressionType::Uncompressed => 0,
            CompressionType::LZ4 => 1,
            CompressionType::Zstd => 2,
        }
    }
}

impl Default for CompressionType {
    fn default() -> (r: Self)
        ensures
            r == CompressionType::Uncompressed,
    {
        CompressionType::Uncompressed
    }
}

/// Metadata for compression.
#[derive(Debug, Clone)]
pub struct CompressionMetadata {
    pub compression_type: CompressionType,
    pub original_size: usize,
    pub compressed_size: usize,
}

impl Default for CompressionMetadata {
    fn default() -> (r: Self)
        ensures
            r.compression_type == CompressionType::Uncompressed,
            r.original_size == 0,
            r.compressed_size == 0,
    {
        CompressionMetadata { compression_type: CompressionType::Uncompressed, original_size: 0, compressed_size: 0 }
    }
}

/// Index entry for fast key lookup.
#[derive(Debug)]
pub struct IndexEntry {
    pub key: Vec<u8>,
    pub offset: u64,
    pub key_size: u32,
    pub value_size: u32,
}

/// The sorted index of a table.
#[derive(Debug)]
pub struct SSTableIndex {
    pub entries: Vec<IndexEntry>,
    pub bloom_filter_bits: Vec<u8>,
    pub compression_metadata: CompressionMetadata,
}

/// Index keys strictly ascending.
pub open spec fn index_sorted(s: Seq<IndexEntry>) -> bool {
    forall|i: int, j: int| 0 <= i < j < s.len() ==> key_lt(#[trigger] s[i].key@, #[trigger] s[j].key@)
}

impl SSTableIndex {
    /// Create a new empty index.
    pub fn new() -> (r: Self)
        ensures
            r.entries@.len() == 0,
            r.bloom_filter_bits@.len() == 0,
    {
        SSTableIndex {
            entries: Vec::new(),
            bloom_filter_bits: Vec::new(),
            compression_metadata: CompressionMetadata::default(),
        }
    }

    /// Add an index entry at the end.
    pub fn add_entry(&mut self, key: Vec<u8>, offset: u64, key_size: u32, value_size: u32)
        ensures
            final(self).entries@.len() == old(self).entries@.len() + 1,
            final(self).entries@.drop_last() == old(self).entries@,
            final(self).entries@.last().key == key,
            final(self).entries@.last().offset == offset,
            final(self).entries@.last().key_size == key_size,
            final(self).entries@.last().value_size == value_size,
            final(self).bloom_filter_bits == old(self).bloom_filter_bits,
            final(self).compression_metadata == old(self).compression_metadata,
    {
        self.entries.push(IndexEntry { key, offset, key_size, value_size });
        assert(final(self).entries@.drop_last() =~= old(self).entries@);
    }

    /// Position of `target` by binary search over a sorted index.
    pub fn find_position(&self, target: &[u8]) -> (r: Option<usize>)
        requires
            index_sorted(self.entries@),
        ensures
            match r {
                Some(i) => i < self.entries@.len() && self.entries@[i as int].key@ == target@,
                None => forall|i: int| 0 <= i < self.entries@.len() ==> #[trigger] self.entries@[i].key@ != target@,
            },
    {
        let ghost s = self.entries@;
        let mut lo: usize = 0;
        let mut hi: usize = self.entries.len();
        while lo < hi
            invariant
                s == self.entries@,
                index_sorted(s),
                lo <= hi <= s.len(),
                forall|j: int| 0 <= j < lo ==> key_lt(#[trigger] s[j].key@, target@),
                forall|j: int| hi <= j < s.len() ==> key_lt(target@, #[trigger] s[j].key@),
            decreases hi - lo,
        {
            let mid = lo + (hi - lo) / 2;
            match compare_keys(self.entries[mid].key.as_slice(), target) {
                Ordering::Equal => {
                    return Some(mid);
                },
                Ordering::Less => {
                    assert forall|j: int| 0 <= j < mid + 1 implies key_lt(#[trigger] s[j].key@, target@) by {
                        if j < mid {
                            lemma_key_lt_transitive(s[j].key@, s[mid as int].key@, target@);
                        }
                    }
                    lo = mid + 1;
                },
                Ordering::Greater => {
                    assert forall|j: int| mid <= j < s.len() implies key_lt(target@, #[trigger] s[j].key@) by {
                        if j > mid {
                            lemma_key_lt_transitive(target@, s[mid as int].key@, s[j].key@);
                        }
                    }
                    hi = mid;
                },
            }
        }
        assert forall|i: int| 0 <= i < s.len() implies #[trigger] s[i].key@ != target@ by {
            lemma_key_lt_total(s[i].key@, target@);
        }
        None
    }

    /// Find a key using binary search over a sorted index.
    pub fn find_key(&self, target_key: &[u8]) -> (r: Option<&IndexEntry>)
        requires
            index_sorted(self.entries@),
        ensures
            match r {
                Some(e) => e.key@ == target_key@ && exists|i: int|
                    0 <= i < self.entries@.len() && self.entries@[i] == *e,
                None => forall|i: int| 0 <= i < self.entries@.len() ==> #[trigger] self.entries@[i].key@ != target_key@,
            },
    {
        match self.find_position(target_key) {
            Some(i) => Some(&self.entries[i]),
            None => None,
        }
    }

    /// Get the number of index entries.
    pub fn len(&self) -> (r: usize)
        ensures
            r == self.entries@.len(),
    {
        self.entries.len()
    }

    /// Check if the index is empty.
    pub fn is_empty(&self) -> (r: bool)
        ensures
            r == (self.entries@.len() == 0),
    {
        self.entries.len() == 0
    }
}

impl Default for SSTableIndex {
    fn default() -> (r: Self)
        ensures
            r.entries@.len() == 0,
            r.bloom_filter_bits@.len() == 0,
    {
        Self::new()
    }
}

/// Length of a table header.
pub const HEADER_LEN: usize = 64;

/// Length of a table footer.
pub const FOOTER_LEN: usize = 32;

/// Format version written and accepted.
pub const FORMAT_VERSION: u32 = 1;

/// The magic bytes, ASCII "RUSTEDGE".
pub open spec fn magic_spec() -> Seq<u8> {
    seq![82u8, 85u8, 83u8, 84u8, 69u8, 68u8, 71u8, 69u8]
}

/// Table file header (64 bytes).
#[derive(Debug, Clone)]
pub struct SSTableHeader {
    pub magic: [u8; 8],
    pub version: u32,
    pub entry_count: u32,
    pub index_offset: u64,
    pub bloom_filter_offset: u64,
    pub data_offset: u64,
    pub compression_type: u8,
    pub reserved: [u8; 23],
}

/// The 64 bytes of a header.
pub open spec fn header_bytes(h: SSTableHeader) -> Seq<u8> {
    h.magic@ + spec_u32_to_le_bytes(h.version) + spec_u32_to_le_bytes(h.entry_count)
        + spec_u64_to_le_bytes(h.index_offset) + spec_u64_to_le_bytes(h.bloom_filter_offset)
        + spec_u64_to_le_bytes(h.data_offset) + seq![h.compression_type] + h.reserved@
}

/// A header's fields as stored at the start of `b`.
pub open spec fn header_fields_at(b: Seq<u8>, h: SSTableHeader) -> bool {
    &&& h.magic@ == b.subrange(0, 8)
    &&& h.version == u32_at(b, 8)
    &&& h.entry_count == u32_at(b, 12)
    &&& h.index_offset == u64_at(b, 16)
    &&& h.bloom_filter_offset == u64_at(b, 24)
    &&& h.data_offset == u64_at(b, 32)
    &&& h.compression_type == b[40]
    &&& h.reserved@ == b.subrange(41, 64)
}

impl SSTableHeader {
    /// Create a header with the magic, version 1, no compression and zeroed
    /// reserved bytes.
    pub fn new(entry_count: u32, index_offset: u64, bloom_filter_offset: u64, data_offset: u64) -> (r:
        Self)
        ensures
            r.magic@ == magic_spec(),
            r.version == FORMAT_VERSION,
            r.entry_count == entry_count,
            r.index_offset == index_offset,
            r.bloom_filter_offset == bloom_filter_offset,
            r.data_offset == data_offset,
            r.compression_type == 0,
            r.reserved@ == Seq::new(23, |i: int| 0u8),
    {
        let r = SSTableHeader {
            magic: [82u8, 85u8, 83u8, 84u8, 69u8, 68u8, 71u8, 69u8],
            version: FORMAT_VERSION,
            entry_count,
            index_offset,
            bloom_filter_offset,
            data_offset,
            compression_type: CompressionType::Uncompressed.code(),
            reserved: [0u8; 23],
        };
        assert(r.magic@ =~= magic_spec());
        assert(r.reserved@ =~= Seq::new(23, |i: int| 0u8));
        r
    }

    /// Append the header's 64 bytes.
    pub fn write(&self, out: &mut Vec<u8>)
        ensures
            final(out)@ == old(out)@ + header_bytes(*self),
    {
        let ghost start = out@;
        push_bytes(out, vstd::array::array_as_slice(&self.magic));
        push_u32(out, self.version);
        push_u32(out, self.entry_count);
        push_u64(out, self.index_offset);
        push_u64(out, self.bloom_filter_offset);
        push_u64(out, self.data_offset);
        out.push(self.compression_type);
        push_bytes(out, vstd::array::array_as_slice(&self.reserved));
        assert(final(out)@ =~= start + header_bytes(*self));
    }

    /// Read a header from the start of `bytes`. Fails with `InvalidFormat`
    /// when fewer than 64 bytes are given, the magic is wrong, or the
    /// version is not 1.
    pub fn read(bytes: &[u8]) -> (r: SSTableResult<Self>)
        ensures
            (bytes@.len() >= 64 && bytes@.subrange(0, 8) == magic_spec() && u32_at(bytes@, 8)
                == FORMAT_VERSION) <==> r is Ok,
            r matches Ok(h) ==> header_fields_at(bytes@, h),
            r is Err ==> (r matches Err(SSTableError::InvalidFormat(_))),
    {
        if bytes.len() < 64 {
            return Err(SSTableError::InvalidFormat("Header too short".to_string()));
        }
        let b = bytes;
        let magic: [u8; 8] = [b[0], b[1], b[2], b[3], b[4], b[5], b[6], b[7]];
        assert(magic@ =~= bytes@.subrange(0, 8));
        if !(b[0] == 82 && b[1] == 85 && b[2] == 83 && b[3] == 84 && b[4] == 69 && b[5] == 68
            && b[6] == 71 && b[7] == 69) {
            assert(bytes@.subrange(0, 8) != magic_spec()) by {
                if bytes@.subrange(0, 8) == magic_spec() {
                    assert(bytes@[0] == bytes@.subrange(0, 8)[0]);
                    assert(bytes@[1] == bytes@.subrange(0, 8)[1]);
                    assert(bytes@[2] == bytes@.subrange(0, 8)[2]);
                    assert(bytes@[3] == bytes@.subrange(0, 8)[3]);
                    assert(bytes@[4] == bytes@.subrange(0, 8)[4]);
                    assert(bytes@[5] == bytes@.subrange(0, 8)[5]);
                    assert(bytes@[6] == bytes@.subrange(0, 8)[6]);
                    assert(bytes@[7] == bytes@.subrange(0, 8)[7]);
                }
            }
            return Err(SSTableError::InvalidFormat("Invalid SSTable magic number".to_string()));
        }
        assert(bytes@.subrange(0, 8) =~= magic_spec());
        let version = read_u32(bytes, 8);
        if version != FORMAT_VERSION {
            return Err(SSTableError::InvalidFormat("Unsupported SSTable version".to_string()));
        }
        let reserved: [u8; 23] = [
            b[41], b[42], b[43], b[44], b[45], b[46], b[47], b[48], b[49], b[50], b[51], b[52],
            b[53], b[54], b[55], b[56], b[57], b[58], b[59], b[60], b[61], b[62], b[63],
        ];
        assert(reserved@ =~= bytes@.subrange(41, 64));
        Ok(SSTableHeader {
            magic,
            version,
            entry_count: read_u32(bytes, 12),
            index_offset: read_u64(bytes, 16),
            bloom_filter_offset: read_u64(bytes, 24),
            data_offset: read_u64(bytes, 32),
            compression_type: b[40],
            reserved,
        })
    }
}

/// A header written at the start of a buffer reads back field by field.
pub proof fn lemma_header_fields(b: Seq<u8>, h: SSTableHeader)
    requires
        b.len() >= 64,
        b.subrange(0, 64) == header_bytes(h),
    ensures
        header_fields_at(b, h),
{
    vstd::bytes::lemma_auto_spec_u32_to_from_le_bytes();
    vstd::bytes::lemma_auto_spec_u64_to_from_le_bytes();
    let hb = header_bytes(h);
    assert(b.subrange(0, 8) =~= hb.subrange(0, 8));
    assert(hb.subrange(0, 8) =~= h.magic@);
    assert(b.subrange(8, 12) =~= hb.subrange(8, 12));
    assert(hb.subrange(8, 12) =~= spec_u32_to_le_bytes(h.version));
    assert(b.subrange(12, 16) =~= hb.subrange(12, 16));
    assert(hb.subrange(12, 16) =~= spec_u32_to_le_bytes(h.entry_count));
    assert(b.subrange(16, 24) =~= hb.subrange(16, 24));
    assert(hb.subrange(16, 24) =~= spec_u64_to_le_bytes(h.index_offset));
    assert(b.subrange(24, 32) =~= hb.subrange(24, 32));
    assert(hb.subrange(24, 32) =~= spec_u64_to_le_bytes(h.bloom_filter_offset));
    assert(b.subrange(32, 40) =~= hb.subrange(32, 40));
    assert(hb.subrange(32, 40) =~= spec_u64_to_le_bytes(h.data_offset));
    assert(b[40] == hb[40]);
    assert(b.subrange(41, 64) =~= hb.subrange(41, 64));
    assert(hb.subrange(41, 64) =~= h.reserved@);
}

/// Table footer (32 bytes).
#[derive(Debug, Clone)]
pub struct SSTableFooter {
    pub checksum: u32,
    pub data_size: u64,
    pub index_size: u64,
    pub reserved: [u8; 12],
}

/// The 32 bytes of a footer.
pub open spec fn footer_bytes(f: SSTableFooter) -> Seq<u8> {
    spec_u32_to_le_bytes(f.checksum) + spec_u64_to_le_bytes(f.data_size) + spec_u64_to_le_bytes(
        f.index_size,
    ) + f.reserved@
}

impl SSTableFooter {
    /// Create a footer with zeroed reserved bytes.
    pub fn new(checksum: u32, data_size: u64, index_size: u64) -> (r: Self)
        ensures
            r.checksum == checksum,
            r.data_size == data_size,
            r.index_size == index_size,
            r.reserved@ == Seq::new(12, |i: int| 0u8),
    {
        let r = SSTableFooter { checksum, data_size, index_size, reserved: [0u8; 12] };
        assert(r.reserved@ =~= Seq::new(12, |i: int| 0u8));
        r
    }

    /// Append the footer's 32 bytes.
    pub fn write(&self, out: &mut Vec<u8>)
        ensures
            final(out)@ == old(out)@ + footer_bytes(*self),
    {
        let ghost start = out@;
        push_u32(out, self.checksum);
        push_u64(out, self.data_size);
        push_u64(out, self.index_size);
        push_bytes(out, vstd::array::array_as_slice(&self.reserved));
        assert(final(out)@ =~= start + footer_bytes(*self));
    }

    /// Read a footer from the start of `bytes`; `InvalidFormat` when fewer
    /// than 32 bytes are given.
    pub fn read(bytes: &[u8]) -> (r: SSTableResult<Self>)
        ensures
            bytes@.len() >= 32 <==> r is Ok,
            r matches Ok(f) ==> f.checksum == u32_at(bytes@, 0) && f.data_size == u64_at(bytes@, 4)
                && f.index_size == u64_at(bytes@, 12) && f.reserved@ == bytes@.subrange(20, 32),
            r is Err ==> (r matches Err(SSTableError::InvalidFormat(_))),
    {
        if bytes.len() < 32 {
            return Err(SSTableError::InvalidFormat("Footer too short".to_string()));
        }
        let b = bytes;
        let reserved: [u8; 12] = [b[20], b[21], b[22], b[23], b[24], b[25], b[26], b[27], b[28], b[29], b[30], b[31]];
        assert(reserved@ =~= bytes@.subrange(20, 32));
        Ok(SSTableFooter {
            checksum: read_u32(bytes, 0),
            data_size: read_u64(bytes, 4),
            index_size: read_u64(bytes, 12),
            reserved,
        })
    }
}

/// The bytes of one index entry.
pub open spec fn index_entry_bytes(e: IndexEntry) -> Seq<u8> {
    spec_u32_to_le_bytes(e.key@.len() as u32) + e.key@ + spec_u64_to_le_bytes(e.offset)
        + spec_u32_to_le_bytes(e.key_size) + spec_u32_to_le_bytes(e.value_size)
}

/// The bytes of index entries, back to back.
pub open spec fn index_entries_bytes(s: Seq<IndexEntry>) -> Seq<u8>
    decreases s.len(),
{
    if s.len() == 0 {
        Seq::empty()
    } else {
        index_entries_bytes(s.drop_last()) + index_entry_bytes(s.last())
    }
}

/// The index section: the entry count, then each entry in order.
pub open spec fn index_section(s: Seq<IndexEntry>) -> Seq<u8> {
    spec_u32_to_le_bytes(s.len() as u32) + index_entries_bytes(s)
}

/// Length of the data section holding `es`.
pub open spec fn data_len(es: Seq<EntryView>) -> int
    decreases es.len(),
{
    if es.len() == 0 {
        0
    } else {
        data_len(es.drop_last()) + 24 + es.last().key.len() + value_len(es.last().value)
    }
}

/// Length of the index entries for `es`, without the count.
pub open spec fn index_body_len(es: Seq<EntryView>) -> int
    decreases es.len(),
{
    if es.len() == 0 {
        0
    } else {
        index_body_len(es.drop_last()) + 20 + es.last().key.len()
    }
}

/// Bytes of a bloom filter sized for `n` entries at ten bits each.
pub open spec fn bloom_len(n: nat) -> int {
    ((n * 10 + 7) / 8) as int
}

/// Entries fit one table: at least one, a count the header can hold, a
/// bloom filter and an image that fit memory, lengths the record headers
/// can hold.
pub open spec fn table_fits(es: Seq<EntryView>) -> bool {
    &&& es.len() > 0
    &&& es.len() <= u32::MAX
    &&& es.len() * 10 <= usize::MAX
    &&& forall|i: int| 0 <= i < es.len() ==> encodable(#[trigger] es[i])
    &&& image_len(es) <= usize::MAX
}

/// Length of the table image holding `es`.
pub open spec fn image_len(es: Seq<EntryView>) -> int {
    HEADER_LEN + bloom_len(es.len()) + data_len(es) + 4 + index_body_len(es) + FOOTER_LEN
}

proof fn lemma_data_len_prefix(es: Seq<EntryView>, j: int)
    requires
        0 <= j <= es.len(),
    ensures
        0 <= data_len(es.take(j)) <= data_len(es),
    decreases es.len(),
{
    if j < es.len() {
        assert(es.drop_last().take(j) =~= es.take(j));
        lemma_data_len_prefix(es.drop_last(), j);
    } else {
        assert(es.take(j) =~= es);
        if es.len() > 0 {
            lemma_data_len_prefix(es.drop_last(), es.len() - 1);
            assert(es.drop_last().take(es.len() - 1) =~= es.drop_last());
        }
    }
}

proof fn lemma_index_entries_len(s: Seq<IndexEntry>, es: Seq<EntryView>)
    requires
        s.len() == es.len(),
        forall|j: int| 0 <= j < s.len() ==> (#[trigger] s[j]).key@ == es[j].key,
    ensures
        index_entries_bytes(s).len() == index_body_len(es),
    decreases s.len(),
{
    vstd::bytes::lemma_auto_spec_u32_to_from_le_bytes();
    vstd::bytes::lemma_auto_spec_u64_to_from_le_bytes();
    if s.len() > 0 {
        let s2 = s.drop_last();
        let es2 = es.drop_last();
        assert forall|j: int| 0 <= j < s2.len() implies (#[trigger] s2[j]).key@ == es2[j].key by {
            assert(s2[j] == s[j]);
        }
        lemma_index_entries_len(s2, es2);
        assert(s.last() == s[s.len() - 1]);
    }
}

/// Append the index section for `index`; returns its length.
pub fn write_index(index: &SSTableIndex, out: &mut Vec<u8>) -> (r: usize)
    requires
        index.entries@.len() <= u32::MAX,
        forall|i: int| 0 <= i < index.entries@.len() ==> (#[trigger] index.entries@[i]).key@.len() <= u32::MAX,
    ensures
        final(out)@ == old(out)@ + index_section(index.entries@),
        r == index_section(index.entries@).len(),
{
    let ghost start = out@;
    let ghost s = index.entries@;
    let start_len = out.len();
    push_u32(out, index.entries.len() as u32);
    let mut i: usize = 0;
    while i < index.entries.len()
        invariant
            s == index.entries@,
            s.len() <= u32::MAX,
            forall|i: int| 0 <= i < s.len() ==> (#[trigger] s[i]).key@.len() <= u32::MAX,
            start_len == start.len(),
            i <= s.len(),
            out@ == start + spec_u32_to_le_bytes(s.len() as u32) + index_entries_bytes(s.take(i as int)),
        decreases s.len() - i,
    {
        let ghost before = out@;
        let e = &index.entries[i];
        push_u32(out, e.key.len() as u32);
        push_bytes(out, e.key.as_slice());
        push_u64(out, e.offset);
        push_u32(out, e.key_size);
        push_u32(out, e.value_size);
        proof {
            assert(s.take(i + 1).drop_last() =~= s.take(i as int));
            assert(s.take(i + 1).last() == s[i as int]);
            assert(out@ =~= before + index_entry_bytes(s[i as int]));
        }
        i = i + 1;
    }
    assert(s.take(i as int) =~= s);
    assert(out@ =~= start + index_section(s));
    out.len() - start_len
}

/// The value a table holds for `k`, as it reads back: `None` when no entry
/// has the key, `Some(None)` for a tombstone (or an empty value),
/// `Some(Some(v))` for a value.
pub open spec fn table_probe(es: Seq<EntryView>, k: Seq<u8>) -> Option<Option<Seq<u8>>> {
    if exists|i: int| 0 <= i < es.len() && es[i].key == k {
        Some(stored_value(es[choose|i: int| 0 <= i < es.len() && es[i].key == k].value))
    } else {
        None
    }
}

/// The index entry `ie` points at the framed record of `e` in `b`.
pub open spec fn holds_entry_at(b: Seq<u8>, ie: IndexEntry, e: EntryView) -> bool {
    &&& encodable(e)
    &&& ie.key@ == e.key
    &&& ie.key_size == e.key.len()
    &&& ie.value_size == value_len(e.value)
    &&& ie.offset + entry_bytes(e).len() <= b.len()
    &&& b.subrange(ie.offset as int, ie.offset + entry_bytes(e).len()) == entry_bytes(e)
}

/// Read the record at the start of `data` as the entry for `key`: its value
/// or a tombstone. `InvalidIndex` when the bytes do not hold a whole record
/// for that key (the index and the data disagree).
pub fn read_entry_at(data: &[u8], key: &[u8]) -> (r: SSTableResult<Lookup>)
    ensures
        (data@.len() >= 24 && entry_end(data@, 0) <= data@.len() && entry_at(data@, 0).key == key@) <==> r is Ok,
        r matches Ok(l) ==> l@ == Some(entry_at(data@, 0).value),
        r is Err ==> (r matches Err(SSTableError::InvalidIndex(_))),
{
    let len = data.len();
    if len < 24 {
        return Err(SSTableError::InvalidIndex("Entry header cut short".to_string()));
    }
    let key_len = read_u32(data, 0) as usize;
    let value_len = read_u32(data, 4) as usize;
    if key_len > len - 24 || value_len > len - 24 - key_len {
        return Err(SSTableError::InvalidIndex("Entry extends past the data".to_string()));
    }
    let e = crate::codec::decode_entry(data, 0);
    match compare_keys(e.key.as_slice(), key) {
        Ordering::Equal => {},
        _ => {
            return Err(SSTableError::InvalidIndex("Key mismatch".to_string()));
        },
    }
    match e.value {
        Some(v) => Ok(Lookup::Value(v)),
        None => Ok(Lookup::Tombstone),
    }
}

/// A complete table file held in memory, with the header, index and bloom
/// filter it was written with.
pub struct TableImage {
    bytes: Vec<u8>,
    header: SSTableHeader,
    index: SSTableIndex,
    bloom_filter: BloomFilter,
    contents: Ghost<Seq<EntryView>>,
}

impl View for TableImage {
    type V = Seq<EntryView>;

    /// The entries the table holds, in key order.
    closed spec fn view(&self) -> Seq<EntryView> {
        self.contents@
    }
}

impl TableImage {
    /// The bytes of the table file.
    pub closed spec fn bytes_spec(&self) -> Seq<u8> {
        self.bytes@
    }

    /// The header the table was written with.
    pub closed spec fn header_spec(&self) -> SSTableHeader {
        self.header
    }

    /// The entries of the table's index.
    pub closed spec fn index_entries(&self) -> Seq<IndexEntry> {
        self.index.entries@
    }

    /// The table's bloom filter.
    pub closed spec fn bloom_spec(&self) -> BloomFilter {
        self.bloom_filter
    }

    /// Every entry is framed in the bytes where its index entry points,
    /// and its key passes the bloom filter.
    /// Where the parts of the file lie: the header at 0, the bloom bits
    /// from 64 to the data offset, the data, then the index section at the
    /// index offset and the footer; the whole is [`table_laid_out`].
    pub open spec fn layout_ok(&self) -> bool {
        let h = self.header_spec();
        let b = self.bytes_spec();
        let sec = index_section(self.index_entries());
        &&& table_laid_out(b, self@)
        &&& h.entry_count == self@.len()
        &&& header_bytes(h) == b.subrange(0, 64)
        &&& h.bloom_filter_offset == 64
        &&& h.data_offset == 64 + bloom_len(self@.len())
        &&& h.index_offset == h.data_offset + data_len(self@)
        &&& b.subrange(64, h.data_offset as int) == self.bloom_spec().bit_array()
        &&& b.subrange(h.index_offset as int, h.index_offset + sec.len()) == sec
        &&& b.len() == h.index_offset + sec.len() + 32
        &&& self.bloom_spec().size_spec() == self@.len() * 10
        &&& self.bloom_spec().hash_count_spec() == 3
    }

    pub closed spec fn wf(&self) -> bool {
        let es = self.contents@;
        let ix = self.index.entries@;
        &&& strictly_sorted(es)
        &&& ix.len() == es.len()
        &&& self.bloom_filter.wf()
        &&& forall|i: int|
            0 <= i < es.len() ==> #[trigger] holds_entry_at(self.bytes@, ix[i], es[i])
                && self.bloom_filter.contains_spec(es[i].key)
    }

    /// Build the image of a table holding `entries`, which must be in
    /// strictly ascending key order. The layout is: header, bloom filter
    /// (ten bits per entry, three probes), data, index, footer. Fails with
    /// `InvalidFormat` when there are no entries, or when the entries do not
    /// fit the format's fields or memory.
    #[verifier::rlimit(80)]
    pub fn from_entries(entries: &Vec<Entry>, compression: CompressionType) -> (r: SSTableResult<TableImage>)
        requires
            strictly_sorted(entry_views(entries@)),
        ensures
            table_fits(entry_views(entries@)) <==> r is Ok,
            r is Err ==> (r matches Err(SSTableError::InvalidFormat(_))),
            r matches Ok(img) ==> {
                &&& img.wf()
                &&& img@ == entry_views(entries@)
                &&& img.bytes_spec().len() == image_len(img@)
                &&& img.header_spec().entry_count == entries@.len()
                &&& img.header_spec().compression_type == compression.spec_code()
                &&& header_bytes(img.header_spec()) == img.bytes_spec().subrange(0, 64)
                &&& index_sorted(img.index_entries())
                &&& table_file_holds(img.bytes_spec(), img@)
                &&& img.layout_ok()
            },
    {
        let ghost es = entry_views(entries@);
        assert forall|i: int| 0 <= i < entries@.len() implies encodable(#[trigger] entries@[i]@) == encodable(es[i]) by {}
        let n = entries.len();
        if n == 0 {
            return Err(SSTableError::InvalidFormat("Cannot create SSTable from empty MemTable".to_string()));
        }
        if n > 0xffff_ffff {
            return Err(SSTableError::InvalidFormat("Too many entries".to_string()));
        }
        let bloom_size = match n.checked_mul(10) {
            Some(b) => b,
            None => {
                return Err(SSTableError::InvalidFormat("Too many entries".to_string()));
            },
        };
        let (data_total, index_total) = match measure_entries(entries) {
            Some(t) => t,
            None => {
                return Err(SSTableError::InvalidFormat("Entry too large".to_string()));
            },
        };
        assert(n * (0x2_0000_0000u128 + 24) <= 0xffff_ffffu128 * (0x2_0000_0000u128 + 24)) by (nonlinear_arith)
            requires n <= 0xffff_ffffusize;
        assert(n * (0x1_0000_0000u128 + 20) <= 0xffff_ffffu128 * (0x1_0000_0000u128 + 20)) by (nonlinear_arith)
            requires n <= 0xffff_ffffusize;
        let bloom_bytes: u128 = (bloom_size as u128 + 7) / 8;
        let total: u128 = 64 + bloom_bytes + data_total + 4 + index_total + 32;
        if total > usize::MAX as u128 {
            return Err(SSTableError::InvalidFormat("Table too large".to_string()));
        }
        assert(bloom_bytes == bloom_len(n as nat));
        let data_offset: usize = 64 + bloom_bytes as usize;
        let (data, index, bloom_filter) = build_sections(entries, data_offset, bloom_size);
        let header = SSTableHeader {
            magic: [82u8, 85u8, 83u8, 84u8, 69u8, 68u8, 71u8, 69u8],
            version: FORMAT_VERSION,
            entry_count: n as u32,
            index_offset: (data_offset + data.len()) as u64,
            bloom_filter_offset: 64,
            data_offset: data_offset as u64,
            compression_type: compression.code(),
            reserved: [0u8; 23],
        };
        let mut bytes: Vec<u8> = Vec::new();
        header.write(&mut bytes);
        proof {
            vstd::bytes::lemma_auto_spec_u32_to_from_le_bytes();
            vstd::bytes::lemma_auto_spec_u64_to_from_le_bytes();
            assert(header_bytes(header).len() == 64);
            assert forall|j: int| 0 <= j < index.entries@.len() implies (#[trigger] index.entries@[j]).key@.len() <= u32::MAX by {
                assert(slot_ok(index.entries@[j], data@, es, data_offset as int, j));
                assert(encodable(entries@[j]@));
            }
            assert forall|j: int| 0 <= j < index.entries@.len() implies (#[trigger] index.entries@[j]).key@ == es[j].key by {
                assert(slot_ok(index.entries@[j], data@, es, data_offset as int, j));
            }
            lemma_index_entries_len(index.entries@, es);
        }
        push_bytes(&mut bytes, bloom_filter.bits());
        let ghost head = bytes@;
        assert(head.len() == data_offset);
        let data_size = data.len();
        let mut data_copy = data;
        let ghost data_bytes = data_copy@;
        bytes.append(&mut data_copy);
        let index_size = write_index(&index, &mut bytes);
        let footer = SSTableFooter::new(0, data_size as u64, index_size as u64);
        footer.write(&mut bytes);
        let img = TableImage { bytes, header, index, bloom_filter, contents: Ghost(es) };
        proof {
            assert(footer_bytes(footer).len() == 32);
            assert(img.bytes@ == head + data_bytes + index_section(img.index.entries@) + footer_bytes(footer));
            assert(img.bytes@.subrange(data_offset as int, data_offset + data_bytes.len()) =~= data_bytes);
            assert(img.bytes@.subrange(0, 64) =~= header_bytes(header));
            assert forall|j: int| 0 <= j < es.len() implies #[trigger] holds_entry_at(img.bytes@, img.index.entries@[j], es[j])
                && img.bloom_filter.contains_spec(es[j].key) by {
                let lo = data_len(es.take(j));
                let hi = lo + entry_bytes(es[j]).len();
                assert(encodable(entries@[j]@));
                assert(slot_ok(img.index.entries@[j], data_bytes, es, data_offset as int, j));
                assert(img.bytes@.subrange(data_offset + lo, data_offset + hi) =~= img.bytes@.subrange(
                    data_offset as int,
                    data_offset + data_bytes.len(),
                ).subrange(lo, hi));
            }
            assert forall|a: int, b: int| 0 <= a < b < img.index.entries@.len() implies key_lt(
                #[trigger] img.index.entries@[a].key@,
                #[trigger] img.index.entries@[b].key@,
            ) by {
                assert(slot_ok(img.index.entries@[a], data_bytes, es, data_offset as int, a));
                assert(slot_ok(img.index.entries@[b], data_bytes, es, data_offset as int, b));
                assert(key_lt(es[a].key, es[b].key));
            }
            let b = img.bytes@;
            lemma_header_fields(b, header);
            assert(header.magic@ =~= magic_spec());
            assert forall|x: int| 0 <= x < es.len() implies {
                &&& encodable(#[trigger] es[x])
                &&& 0 <= data_len(es.take(x))
                &&& data_offset + data_len(es.take(x)) + entry_bytes(es[x]).len() <= b.len()
                &&& b.subrange(data_offset + data_len(es.take(x)), data_offset + data_len(es.take(x)) + entry_bytes(es[x]).len())
                    == entry_bytes(es[x])
            } by {
                assert(holds_entry_at(b, img.index.entries@[x], es[x]));
                assert(slot_ok(img.index.entries@[x], data_bytes, es, data_offset as int, x));
            }
            lemma_data_records_of_layout(b, es, data_offset as int, 0);
            assert(es.take(0) =~= Seq::<EntryView>::empty());
            assert(es.skip(0) =~= es);
            assert(head =~= header_bytes(header) + img.bloom_filter.bit_array());
            lemma_image_laid_out(b, header, img.bloom_filter.bit_array(), data_bytes, img.index.entries@, footer, es);
        }
        Ok(img)
    }

    /// Build the image of the table a MemTable flushes to. Fails with
    /// `InvalidFormat` when the MemTable is empty, or as
    /// [`TableImage::from_entries`] does.
    pub fn from_memtable(memtable: &MemTable, compression: CompressionType) -> (r: SSTableResult<TableImage>)
        requires
            memtable.wf(),
        ensures
            table_fits(memtable.entry_seq()) <==> r is Ok,
            r is Err ==> (r matches Err(SSTableError::InvalidFormat(_))),
            r matches Ok(img) ==> {
                &&& img.wf()
                &&& img@ == memtable.entry_seq()
                &&& img.header_spec().entry_count == memtable.entry_seq().len()
                &&& img.header_spec().compression_type == compression.spec_code()
                &&& index_sorted(img.index_entries())
                &&& table_file_holds(img.bytes_spec(), img@)
                &&& img.layout_ok()
            },
    {
        let entries = memtable.entries();
        proof {
            memtable.lemma_wf();
            assert(entry_views(entries@) =~= memtable.entry_seq());
        }
        Self::from_entries(&entries, compression)
    }

    /// The value stored for a key; a tombstone, or no entry, reads as no
    /// value.
    pub fn get(&self, key: &[u8]) -> (r: SSTableResult<Option<Vec<u8>>>)
        requires
            self.wf(),
        ensures
            r matches Ok(v) && bytes_view(v) == crate::engine::decided(table_probe(self@, key@)),
    {
        match self.lookup(key) {
            Ok(Lookup::Value(v)) => Ok(Some(v)),
            Ok(_) => Ok(None),
            Err(e) => Err(e),
        }
    }

    /// Look a key up: the bloom filter first, then a binary search of the
    /// index, then the record the index points at.
    pub fn lookup(&self, key: &[u8]) -> (r: SSTableResult<Lookup>)
        requires
            self.wf(),
        ensures
            r matches Ok(l) && l@ == table_probe(self@, key@),
    {
        let ghost es = self.contents@;
        if !self.bloom_filter.might_contain(key) {
            proof {
                if exists|i: int| 0 <= i < es.len() && es[i].key == key@ {
                    let i = choose|i: int| 0 <= i < es.len() && es[i].key == key@;
                    assert(holds_entry_at(self.bytes@, self.index.entries@[i], es[i]));
                }
            }
            return Ok(Lookup::Absent);
        }
        proof {
            assert forall|a: int, b: int| 0 <= a < b < self.index.entries@.len() implies key_lt(
                #[trigger] self.index.entries@[a].key@,
                #[trigger] self.index.entries@[b].key@,
            ) by {
                assert(holds_entry_at(self.bytes@, self.index.entries@[a], es[a]));
                assert(holds_entry_at(self.bytes@, self.index.entries@[b], es[b]));
            }
        }
        match self.index.find_position(key) {
            None => {
                proof {
                    if exists|i: int| 0 <= i < es.len() && es[i].key == key@ {
                        let i = choose|i: int| 0 <= i < es.len() && es[i].key == key@;
                        assert(holds_entry_at(self.bytes@, self.index.entries@[i], es[i]));
                        assert(self.index.entries@[i].key@ != key@);
                    }
                }
                Ok(Lookup::Absent)
            },
            Some(i) => {
                let ie = &self.index.entries[i];
                let ghost e = es[i as int];
                proof {
                    assert(holds_entry_at(self.bytes@, self.index.entries@[i as int], e));
                    lemma_entry_bytes_len(e);
                }
                let blen = self.bytes.len();
                assert(ie.offset + 24 + ie.key_size + ie.value_size <= blen);
                let start = ie.offset as usize;
                let end = start + 24 + ie.key_size as usize + ie.value_size as usize;
                let data = slice_subrange(self.bytes.as_slice(), start, end);
                proof {
                    assert(data@ == entry_bytes(e));
                    assert(data@.subrange(0, entry_bytes(e).len() as int) =~= data@);
                    lemma_entry_round_trip(data@, 0, e);
                    let c = choose|j: int| 0 <= j < es.len() && es[j].key == key@;
                    if c != i {
                        if c < i {
                            assert(key_lt(es[c].key, es[i as int].key));
                        } else {
                            assert(key_lt(es[i as int].key, es[c].key));
                        }
                        lemma_key_lt_irreflexive(key@);
                    }
                }
                read_entry_at(data, key)
            },
        }
    }

    /// The bytes of the whole table file.
    pub fn bytes(&self) -> (r: &[u8])
        ensures
            r@ == self.bytes_spec(),
    {
        self.bytes.as_slice()
    }

    /// The header the table was written with.
    pub fn header(&self) -> (r: &SSTableHeader)
        ensures
            *r == self.header_spec(),
    {
        &self.header
    }

    /// The table's index.
    pub fn index(&self) -> (r: &SSTableIndex)
        ensures
            r.entries@ == self.index_entries(),
    {
        &self.index
    }

    /// The table's bloom filter.
    pub fn bloom_filter(&self) -> (r: &BloomFilter)
        ensures
            *r == self.bloom_spec(),
    {
        &self.bloom_filter
    }

    /// The number of entries.
    pub fn entry_count(&self) -> (r: u32)
        ensures
            r == self.header_spec().entry_count,
    {
        self.header.entry_count
    }

    /// Take the image apart into the file's bytes and a reader that
    /// answers for them.
    pub fn into_reader(self) -> (r: (Vec<u8>, TableReader))
        requires
            self.wf(),
        ensures
            r.0@ == self.bytes_spec(),
            r.1.wf(),
            r.1.reads(r.0@, self@),
            r.1.header_spec() == self.header_spec(),
    {
        proof {
            lemma_image_index_sorted(&self);
            let es = self@;
            assert forall|i: int| 0 <= i < es.len() implies holds_entry_at(self.bytes@, self.index.entries@[i], #[trigger] es[i])
                && self.bloom_filter.contains_spec(es[i].key) by {
                assert(holds_entry_at(self.bytes@, self.index.entries@[i], es[i]));
            }
        }
        (self.bytes, TableReader { header: self.header, index: self.index, bloom_filter: self.bloom_filter })
    }
}

/// Check that every entry fits the format's 32-bit length fields and
/// measure the data section and the index entries; `None` when one does not.
fn measure_entries(entries: &Vec<Entry>) -> (r: Option<(u128, u128)>)
    requires
        entries@.len() <= u32::MAX,
    ensures
        (forall|i: int| 0 <= i < entries@.len() ==> encodable(#[trigger] entries@[i]@)) <==> r is Some,
        r matches Some((d, x)) ==> d == data_len(entry_views(entries@)) && x == index_body_len(
            entry_views(entries@),
        ) && d <= entries@.len() * (0x2_0000_0000u128 + 24) && x <= entries@.len() * (
            0x1_0000_0000u128 + 20),
{
    let ghost es = entry_views(entries@);
    let n = entries.len();
    let mut data_total: u128 = 0;
    let mut index_total: u128 = 0;
    let mut i: usize = 0;
    while i < n
        invariant
            n == entries@.len(),
            n <= u32::MAX,
            es == entry_views(entries@),
            i <= n,
            data_total == data_len(es.take(i as int)),
            index_total == index_body_len(es.take(i as int)),
            data_total <= i * (0x2_0000_0000u128 + 24),
            index_total <= i * (0x1_0000_0000u128 + 20),
            forall|j: int| 0 <= j < i ==> encodable(#[trigger] entries@[j]@),
        decreases n - i,
    {
        let e = &entries[i];
        let value_len: usize = match &e.value {
            Some(v) => v.len(),
            None => 0,
        };
        if e.key.len() > 0xffff_ffff || value_len > 0xffff_ffff {
            return None;
        }
        proof {
            assert(es.take(i + 1).drop_last() =~= es.take(i as int));
            assert(es.take(i + 1).last() == entries@[i as int]@);
            assert((i + 1) * (0x2_0000_0000u128 + 24) == i * (0x2_0000_0000u128 + 24) + 0x2_0000_0000u128 + 24) by (nonlinear_arith);
            assert((i + 1) * (0x1_0000_0000u128 + 20) == i * (0x1_0000_0000u128 + 20) + 0x1_0000_0000u128 + 20) by (nonlinear_arith);
        }
        data_total = data_total + 24 + e.key.len() as u128 + value_len as u128;
        index_total = index_total + 20 + e.key.len() as u128;
        i = i + 1;
    }
    assert(es.take(n as int) =~= es);
    Some((data_total, index_total))
}

/// Frame the entries into a data section starting at `data_offset`,
/// collecting the index and the bloom filter as they go.
fn build_sections(entries: &Vec<Entry>, data_offset: usize, bloom_size: usize) -> (r: (Vec<u8>, SSTableIndex, BloomFilter))
    requires
        strictly_sorted(entry_views(entries@)),
        forall|j: int| 0 <= j < entries@.len() ==> encodable(#[trigger] entries@[j]@),
        data_offset + data_len(entry_views(entries@)) <= usize::MAX,
    ensures
        r.0@.len() == data_len(entry_views(entries@)),
        r.1.entries@.len() == entries@.len(),
        r.2.wf(),
        r.2.size_spec() == bloom_size,
        r.2.hash_count_spec() == 3,
        forall|j: int| 0 <= j < entries@.len() ==> slot_ok(#[trigger] r.1.entries@[j], r.0@, entry_views(entries@), data_offset as int, j),
        forall|j: int| 0 <= j < entries@.len() ==> r.2.contains_spec(#[trigger] entry_views(entries@)[j].key),
{
    let ghost es = entry_views(entries@);
    let n = entries.len();
    let mut bloom_filter = BloomFilter::new(bloom_size, 3);
    let mut data: Vec<u8> = Vec::new();
    let mut index = SSTableIndex::new();
    let mut i: usize = 0;
    while i < n
        invariant
            n == entries@.len(),
            es == entry_views(entries@),
            forall|j: int| 0 <= j < n ==> encodable(#[trigger] entries@[j]@),
            i <= n,
            data_offset + data_len(es) <= usize::MAX,
            data@.len() == data_len(es.take(i as int)),
            index.entries@.len() == i,
            bloom_filter.wf(),
            bloom_filter.size_spec() == bloom_size,
            bloom_filter.hash_count_spec() == 3,
            forall|j: int| 0 <= j < i ==> slot_ok(#[trigger] index.entries@[j], data@, es, data_offset as int, j),
            forall|j: int| 0 <= j < i ==> bloom_filter.contains_spec(#[trigger] es[j].key),
        decreases n - i,
    {
        let e = &entries[i];
        let ghost ev = e@;
        let ghost before = data@;
        let ghost bloom_before = bloom_filter;
        let ghost ix_before = index.entries@;
        proof {
            assert(ev == es[i as int]);
            lemma_entry_bytes_len(ev);
            assert(es.take(i + 1).drop_last() =~= es.take(i as int));
            assert(es.take(i + 1).last() == ev);
            lemma_data_len_prefix(es, i + 1);
            lemma_data_len_prefix(es, i as int);
        }
        let offset = data_offset + data.len();
        push_entry(&mut data, e);
        bloom_filter.add(e.key.as_slice());
        let vlen: usize = match &e.value {
            Some(v) => v.len(),
            None => 0,
        };
        index.add_entry(crate::memtable::copy_bytes(&e.key), offset as u64, e.key.len() as u32, vlen as u32);
        proof {
            assert forall|j: int| 0 <= j < i + 1 implies slot_ok(#[trigger] index.entries@[j], data@, es, data_offset as int, j) by {
                if j < i {
                    assert(index.entries@.drop_last()[j] == index.entries@[j]);
                    assert(index.entries@[j] == ix_before[j]);
                    lemma_slot_extend(ix_before[j], before, entry_bytes(ev), es, data_offset as int, j);
                } else {
                    assert(data@.subrange(data_len(es.take(j)), data_len(es.take(j)) + entry_bytes(es[j]).len())
                        =~= entry_bytes(ev));
                }
            }
            assert forall|j: int| 0 <= j < i + 1 implies bloom_filter.contains_spec(#[trigger] es[j].key) by {
                if j < i {
                    lemma_bloom_grow(bloom_before, bloom_filter, es[j].key);
                }
            }
        }
        i = i + 1;
    }
    assert(es.take(n as int) =~= es);
    (data, index, bloom_filter)
}

/// Index entry `ie` describes entry `j` of `es`, framed in `data` at its
/// place in a data section starting at `data_offset`.
spec fn slot_ok(ie: IndexEntry, data: Seq<u8>, es: Seq<EntryView>, data_offset: int, j: int) -> bool {
    &&& ie.key@ == es[j].key
    &&& ie.key_size == es[j].key.len()
    &&& ie.value_size == value_len(es[j].value)
    &&& ie.offset == data_offset + data_len(es.take(j))
    &&& 0 <= data_len(es.take(j))
    &&& data_len(es.take(j)) + entry_bytes(es[j]).len() <= data.len()
    &&& data.subrange(data_len(es.take(j)), data_len(es.take(j)) + entry_bytes(es[j]).len()) == entry_bytes(es[j])
}

proof fn lemma_slot_extend(ie: IndexEntry, data: Seq<u8>, extra: Seq<u8>, es: Seq<EntryView>, data_offset: int, j: int)
    requires
        slot_ok(ie, data, es, data_offset, j),
    ensures
        slot_ok(ie, data + extra, es, data_offset, j),
{
    let lo = data_len(es.take(j));
    let hi = lo + entry_bytes(es[j]).len();
    assert((data + extra).subrange(lo, hi) =~= data.subrange(lo, hi));
}

/// Every table image has its index in strictly ascending key order.
pub proof fn lemma_image_index_sorted(img: &TableImage)
    requires
        img.wf(),
    ensures
        index_sorted(img.index_entries()),
        img.index_entries().len() == img@.len(),
        forall|i: int| 0 <= i < img@.len() ==> (#[trigger] img.index_entries()[i]).key@ == img@[i].key,
{
    let es = img@;
    assert forall|a: int, b: int| 0 <= a < b < img.index_entries().len() implies key_lt(
        #[trigger] img.index_entries()[a].key@,
        #[trigger] img.index_entries()[b].key@,
    ) by {
        assert(holds_entry_at(img.bytes_spec(), img.index_entries()[a], es[a]));
        assert(holds_entry_at(img.bytes_spec(), img.index_entries()[b], es[b]));
    }
    assert forall|i: int| 0 <= i < img@.len() implies (#[trigger] img.index_entries()[i]).key@ == img@[i].key by {
        assert(holds_entry_at(img.bytes_spec(), img.index_entries()[i], es[i]));
    }
}

impl SSTableHeader {
    /// The bloom region of the file: from the bloom filter offset up to the
    /// data offset, as a start and a length.
    pub fn bloom_region(&self) -> (r: (u64, u64))
        ensures
            r.0 == self.bloom_filter_offset,
            r.1 == if self.data_offset >= self.bloom_filter_offset {
                self.data_offset - self.bloom_filter_offset
            } else {
                0
            },
    {
        if self.data_offset >= self.bloom_filter_offset {
            (self.bloom_filter_offset, self.data_offset - self.bloom_filter_offset)
        } else {
            (self.bloom_filter_offset, 0)
        }
    }

    /// The index section of a file of `file_len` bytes: from the index
    /// offset up to the footer, as a start and a length.
    pub fn index_region(&self, file_len: u64) -> (r: (u64, u64))
        ensures
            r.0 == self.index_offset,
            r.1 == if file_len >= self.index_offset + 32 {
                file_len - 32 - self.index_offset
            } else {
                0
            },
    {
        if file_len >= 32 && file_len - 32 >= self.index_offset {
            (self.index_offset, file_len - 32 - self.index_offset)
        } else {
            (self.index_offset, 0)
        }
    }
}

/// What is kept in memory of an opened table file: its header, index and
/// bloom filter. The data stays in the file and is read record by record.
#[derive(Debug)]
pub struct TableReader {
    header: SSTableHeader,
    index: SSTableIndex,
    bloom_filter: BloomFilter,
}

/// A file region read while opening `b`, a table holding `es`: the header,
/// the bloom region and the index section.
pub open spec fn opened_from(hb: Seq<u8>, bb: Seq<u8>, ib: Seq<u8>, b: Seq<u8>, es: Seq<EntryView>) -> bool {
    let d0 = 64 + bloom_len(es.len());
    &&& table_laid_out(b, es)
    &&& hb == b.subrange(0, 64)
    &&& bb == b.subrange(64, d0)
    &&& ib == b.subrange(d0 + data_len(es), b.len() - 32)
}

/// What the regions of a laid-out file hold.
proof fn lemma_opened_regions(hb: Seq<u8>, bb: Seq<u8>, ib: Seq<u8>, b: Seq<u8>, es: Seq<EntryView>)
    requires
        opened_from(hb, bb, ib, b, es),
    ensures
        hb.len() >= 64,
        hb.subrange(0, 8) == magic_spec(),
        u32_at(hb, 8) == FORMAT_VERSION,
        u32_at(hb, 12) == es.len(),
        es.len() * 10 <= usize::MAX,
        bb.len() == (es.len() * 10 + 7) / 8,
        forall|i: int| 0 <= i < es.len() ==> bits_contain(bb, (es.len() * 10) as nat, 3, #[trigger] es[i].key),
        u32_at(ib, 0) == es.len(),
        index_records(ib, 4, es.len()) == Some(expected_index(es, 64 + bloom_len(es.len()))),
        fields_ascending(expected_index(es, 64 + bloom_len(es.len()))),
{
    assert(hb.subrange(0, 8) =~= b.subrange(0, 8));
    assert(hb.subrange(8, 12) =~= b.subrange(8, 12));
    assert(hb.subrange(12, 16) =~= b.subrange(12, 16));
    let ex = expected_index(es, 64 + bloom_len(es.len()));
    assert forall|i: int, j: int| 0 <= i < j < ex.len() implies key_lt(#[trigger] ex[i].0, #[trigger] ex[j].0) by {
        assert(key_lt(es[i].key, es[j].key));
    }
}

impl TableReader {
    /// The header read from the file.
    pub closed spec fn header_spec(&self) -> SSTableHeader {
        self.header
    }

    /// The entries of the index read from the file.
    pub closed spec fn index_entries(&self) -> Seq<IndexEntry> {
        self.index.entries@
    }

    /// The bloom filter read from the file.
    pub closed spec fn bloom_spec(&self) -> BloomFilter {
        self.bloom_filter
    }

    /// The bloom filter can be probed and the index searched.
    pub open spec fn wf(&self) -> bool {
        self.bloom_spec().wf() && index_sorted(self.index_entries())
    }

    /// The reader answers for the file `b` holding `es`: each index entry
    /// points at its entry's record, and every key passes the bloom filter.
    pub open spec fn reads(&self, b: Seq<u8>, es: Seq<EntryView>) -> bool {
        &&& strictly_sorted(es)
        &&& self.index_entries().len() == es.len()
        &&& forall|i: int|
            0 <= i < es.len() ==> holds_entry_at(b, self.index_entries()[i], #[trigger] es[i])
                && self.bloom_spec().contains_spec(es[i].key)
    }

    /// Open a table from its header, its bloom region and its index
    /// section (see [`SSTableHeader::bloom_region`] and
    /// [`SSTableHeader::index_region`]). Fails with `InvalidFormat` as
    /// [`SSTableHeader::read`], [`BloomFilter::from_bits`] and
    /// [`read_index`] do. For the regions of a file written for entries
    /// `es`, it succeeds and answers for that file.
    pub fn open(header_bytes: &[u8], bloom_bytes: Vec<u8>, index_bytes: &[u8]) -> (r: SSTableResult<TableReader>)
        ensures
            r matches Ok(t) ==> {
                &&& t.wf()
                &&& header_fields_at(header_bytes@, t.header_spec())
                &&& t.bloom_spec().bit_array() == bloom_bytes@
                &&& index_records(index_bytes@, 4, t.header_spec().entry_count as nat) == Some(
                    index_fields(t.index_entries()),
                )
            },
            r is Err ==> (r matches Err(SSTableError::InvalidFormat(_))),
            forall|b: Seq<u8>, es: Seq<EntryView>|
                #[trigger] opened_from(header_bytes@, bloom_bytes@, index_bytes@, b, es) ==> (r matches Ok(t)
                    && t.reads(b, es)),
    {
        let ghost bb = bloom_bytes@;
        let header = match SSTableHeader::read(header_bytes) {
            Ok(h) => h,
            Err(e) => {
                proof {
                    assert forall|b: Seq<u8>, es: Seq<EntryView>|
                        #[trigger] opened_from(header_bytes@, bb, index_bytes@, b, es) implies false by {
                        lemma_opened_regions(header_bytes@, bb, index_bytes@, b, es);
                    }
                }
                return Err(e);
            },
        };
        let n = header.entry_count;
        let bloom_filter = match BloomFilter::from_bits(n, bloom_bytes) {
            Ok(f) => f,
            Err(e) => {
                proof {
                    assert forall|b: Seq<u8>, es: Seq<EntryView>|
                        #[trigger] opened_from(header_bytes@, bb, index_bytes@, b, es) implies false by {
                        lemma_opened_regions(header_bytes@, bb, index_bytes@, b, es);
                    }
                }
                return Err(e);
            },
        };
        let index = match read_index(index_bytes, n) {
            Ok(ix) => ix,
            Err(e) => {
                proof {
                    assert forall|b: Seq<u8>, es: Seq<EntryView>|
                        #[trigger] opened_from(header_bytes@, bb, index_bytes@, b, es) implies false by {
                        lemma_opened_regions(header_bytes@, bb, index_bytes@, b, es);
                    }
                }
                return Err(e);
            },
        };
        let t = TableReader { header, index, bloom_filter };
        proof {
            assert forall|b: Seq<u8>, es: Seq<EntryView>|
                #[trigger] opened_from(header_bytes@, bb, index_bytes@, b, es) implies t.reads(b, es) by {
                lemma_opened_regions(header_bytes@, bb, index_bytes@, b, es);
                let d0 = 64 + bloom_len(es.len());
                let ex = expected_index(es, d0);
                assert(index_fields(t.index.entries@) == ex);
                assert forall|i: int| 0 <= i < es.len() implies holds_entry_at(b, t.index.entries@[i], #[trigger] es[i])
                    && t.bloom_filter.contains_spec(es[i].key) by {
                    let ie = t.index.entries@[i];
                    assert(index_fields(t.index.entries@)[i] == ex[i]);
                    assert(index_fields(t.index.entries@)[i] == (ie.key@, ie.offset, ie.key_size, ie.value_size));
                    assert(encodable(es[i]));
                    lemma_entry_bytes_len(es[i]);
                    assert(data_len(es.take(i)) + entry_bytes(es[i]).len() <= data_len(es));
                    lemma_data_len_prefix(es, i);
                    assert(ie.key@ == es[i].key);
                    assert(ie.offset == d0 + data_len(es.take(i)));
                    assert(ie.key_size == es[i].key.len());
                    assert(ie.value_size == value_len(es[i].value));
                    assert(holds_entry_at(b, ie, es[i]));
                    assert(t.header.entry_count == es.len());
                    assert(bits_contain(bb, (es.len() * 10) as nat, 3, es[i].key));
                    assert(t.bloom_filter.contains_spec(es[i].key));
                }
            }
        }
        Ok(t)
    }

    /// Where the record for `key` lies in the file, as an offset and a
    /// length, after the bloom filter and the index; `None` when the table
    /// holds no entry for the key.
    pub fn locate(&self, key: &[u8]) -> (r: Option<(u64, u64)>)
        requires
            self.wf(),
        ensures
            forall|b: Seq<u8>, es: Seq<EntryView>|
                #[trigger] self.reads(b, es) ==> match r {
                    None => table_probe(es, key@) is None,
                    Some((off, len)) => off + len <= b.len() && exists|i: int|
                        0 <= i < es.len() && es[i].key == key@ && b.subrange(off as int, off + len)
                            == entry_bytes(es[i]),
                },
    {
        if !self.bloom_filter.might_contain(key) {
            proof {
                assert forall|b: Seq<u8>, es: Seq<EntryView>| #[trigger] self.reads(b, es) implies table_probe(
                    es,
                    key@,
                ) is None by {
                    if exists|i: int| 0 <= i < es.len() && es[i].key == key@ {
                        let i = choose|i: int| 0 <= i < es.len() && es[i].key == key@;
                        assert(self.bloom_filter.contains_spec(es[i].key));
                    }
                }
            }
            return None;
        }
        match self.index.find_position(key) {
            None => {
                proof {
                    assert forall|b: Seq<u8>, es: Seq<EntryView>| #[trigger] self.reads(b, es) implies table_probe(
                        es,
                        key@,
                    ) is None by {
                        if exists|i: int| 0 <= i < es.len() && es[i].key == key@ {
                            let i = choose|i: int| 0 <= i < es.len() && es[i].key == key@;
                            assert(holds_entry_at(b, self.index.entries@[i], es[i]));
                            assert(self.index.entries@[i].key@ != key@);
                        }
                    }
                }
                None
            },
            Some(p) => {
                let ie = &self.index.entries[p];
                let len: u64 = 24 + ie.key_size as u64 + ie.value_size as u64;
                proof {
                    assert forall|b: Seq<u8>, es: Seq<EntryView>| #[trigger] self.reads(b, es) implies ie.offset + len
                        <= b.len() && exists|i: int|
                        0 <= i < es.len() && es[i].key == key@ && b.subrange(ie.offset as int, ie.offset + len)
                            == entry_bytes(es[i]) by {
                        assert(holds_entry_at(b, self.index.entries@[p as int], es[p as int]));
                        lemma_entry_bytes_len(es[p as int]);
                    }
                }
                Some((ie.offset, len))
            },
        }
    }

    /// What the table holds for `key`, from the record [`TableReader::locate`]
    /// points at. `InvalidIndex` when the record is not a whole record for
    /// that key.
    pub fn answer(&self, key: &[u8], record: &[u8]) -> (r: SSTableResult<Lookup>)
        ensures
            forall|b: Seq<u8>, es: Seq<EntryView>|
                #[trigger] self.reads(b, es) && (exists|i: int|
                    0 <= i < es.len() && es[i].key == key@ && record@ == entry_bytes(es[i])) ==> (r matches Ok(l)
                    && l@ == table_probe(es, key@)),
            (record@.len() >= 24 && entry_end(record@, 0) <= record@.len() && entry_at(record@, 0).key == key@)
                <==> r is Ok,
            r matches Ok(l) ==> l@ == Some(entry_at(record@, 0).value),
            r is Err ==> (r matches Err(SSTableError::InvalidIndex(_))),
    {
        let r = read_entry_at(record, key);
        proof {
            assert forall|b: Seq<u8>, es: Seq<EntryView>|
                #[trigger] self.reads(b, es) && (exists|i: int|
                    0 <= i < es.len() && es[i].key == key@ && record@ == entry_bytes(es[i])) implies (r matches Ok(l)
                    && l@ == table_probe(es, key@)) by {
                let i = choose|i: int| 0 <= i < es.len() && es[i].key == key@ && record@ == entry_bytes(es[i]);
                assert(holds_entry_at(b, self.index.entries@[i], es[i]));
                assert(record@.subrange(0, entry_bytes(es[i]).len() as int) =~= record@);
                lemma_entry_round_trip(record@, 0, es[i]);
                let c = choose|j: int| 0 <= j < es.len() && es[j].key == key@;
                if c != i {
                    if c < i {
                        assert(key_lt(es[c].key, es[i].key));
                    } else {
                        assert(key_lt(es[i].key, es[c].key));
                    }
                    lemma_key_lt_irreflexive(key@);
                }
            }
        }
        r
    }

    /// The header read from the file.
    pub fn header(&self) -> (r: &SSTableHeader)
        ensures
            *r == self.header_spec(),
    {
        &self.header
    }

    /// The number of entries.
    pub fn entry_count(&self) -> (r: u32)
        ensures
            r == self.header_spec().entry_count,
    {
        self.header.entry_count
    }

    /// The index read from the file.
    pub fn index(&self) -> (r: &SSTableIndex)
        ensures
            r.entries@ == self.index_entries(),
    {
        &self.index
    }
}

/// Bloom filter without false negatives: every key a table image holds
/// passes its bloom filter.
pub proof fn lemma_bloom_no_false_negatives(img: &TableImage, i: int)
    requires
        img.wf(),
        0 <= i < img@.len(),
    ensures
        img.bloom_spec().contains_spec(img@[i].key),
{
    assert(holds_entry_at(img.bytes_spec(), img.index_entries()[i], img@[i]));
}

/// An index entry's fields: key, data offset, key size, value size.
pub type IndexFields = (Seq<u8>, u64, u32, u32);

/// The fields of each index entry.
pub open spec fn index_fields(s: Seq<IndexEntry>) -> Seq<IndexFields> {
    s.map_values(|e: IndexEntry| (e.key@, e.offset, e.key_size, e.value_size))
}

/// The `n` index entries stored back to back from offset `p`, or `None`
/// when one of them does not fit in `b`.
pub open spec fn index_records(b: Seq<u8>, p: int, n: nat) -> Option<Seq<IndexFields>>
    decreases n,
{
    if n == 0 {
        Some(Seq::empty())
    } else if 0 <= p && p + 4 <= b.len() && p + 20 + u32_at(b, p) <= b.len() {
        let k = u32_at(b, p) as int;
        match index_records(b, p + 20 + k, (n - 1) as nat) {
            Some(rest) => Some(
                seq![(b.subrange(p + 4, p + 4 + k), u64_at(b, p + 4 + k), u32_at(b, p + 12 + k), u32_at(b, p + 16 + k))]
                    + rest,
            ),
            None => None,
        }
    } else {
        None
    }
}

/// Index keys strictly ascending.
pub open spec fn fields_ascending(r: Seq<IndexFields>) -> bool {
    forall|i: int, j: int| 0 <= i < j < r.len() ==> key_lt(#[trigger] r[i].0, #[trigger] r[j].0)
}

/// Read the index section at the start of `bytes` for a table of
/// `entry_count` entries. `InvalidFormat` when the stored count differs,
/// the section is cut short, or its keys are not strictly ascending.
pub fn read_index(bytes: &[u8], entry_count: u32) -> (r: SSTableResult<SSTableIndex>)
    ensures
        ({
            &&& bytes@.len() >= 4
            &&& u32_at(bytes@, 0) == entry_count
            &&& index_records(bytes@, 4, entry_count as nat) matches Some(rs)
            &&& fields_ascending(rs)
        }) <==> r is Ok,
        r matches Ok(idx) ==> index_records(bytes@, 4, entry_count as nat) == Some(index_fields(idx.entries@)),
        r matches Ok(idx) ==> {
            &&& idx.entries@.len() == entry_count
            &&& index_sorted(idx.entries@)
            &&& index_section(idx.entries@).len() <= bytes@.len()
            &&& bytes@.subrange(0, index_section(idx.entries@).len() as int) == index_section(idx.entries@)
        },
        r is Err ==> (r matches Err(SSTableError::InvalidFormat(_))),
{
    let len = bytes.len();
    if len < 4 {
        return Err(SSTableError::InvalidFormat("Index cut short".to_string()));
    }
    let count = read_u32(bytes, 0);
    if count != entry_count {
        return Err(SSTableError::InvalidFormat("Index entry count mismatch".to_string()));
    }
    proof {
        vstd::bytes::lemma_auto_spec_u32_to_from_le_bytes();
        vstd::bytes::lemma_auto_spec_u64_to_from_le_bytes();
    }
    let mut index = SSTableIndex::new();
    let mut pos: usize = 4;
    let mut i: u32 = 0;
    assert(index_fields(index.entries@) + index_records(bytes@, 4, count as nat)->Some_0 =~= index_records(bytes@, 4, count as nat)->Some_0);
    while i < count
        invariant
            len == bytes@.len(),
            count == entry_count,
            u32_at(bytes@, 0) == count,
            index_records(bytes@, 4, count as nat) == match index_records(bytes@, pos as int, (count - i) as nat) {
                Some(rest) => Some(index_fields(index.entries@) + rest),
                None => None::<Seq<IndexFields>>,
            },
            fields_ascending(index_fields(index.entries@)),
            4 <= pos <= len,
            i <= count,
            index.entries@.len() == i,
            bytes@.subrange(0, 4) == spec_u32_to_le_bytes(count),
            bytes@.subrange(4, pos as int) == index_entries_bytes(index.entries@),
            index_sorted(index.entries@),
        decreases count - i,
    {
        if len - pos < 4 {
            assert(index_records(bytes@, pos as int, (count - i) as nat) is None);
            return Err(SSTableError::InvalidFormat("Index cut short".to_string()));
        }
        let key_len = read_u32(bytes, pos) as usize;
        if len - pos - 4 < key_len || len - pos - 4 - key_len < 16 {
            assert(index_records(bytes@, pos as int, (count - i) as nat) is None);
            return Err(SSTableError::InvalidFormat("Index cut short".to_string()));
        }
        let ghost fields = (
            bytes@.subrange(pos + 4, pos + 4 + key_len),
            u64_at(bytes@, pos + 4 + key_len),
            u32_at(bytes@, pos + 12 + key_len),
            u32_at(bytes@, pos + 16 + key_len),
        );
        let ghost prefix = index_fields(index.entries@);
        proof {
            match index_records(bytes@, pos + 20 + key_len, (count - i - 1) as nat) {
                Some(rest) => {
                    assert(prefix + (seq![fields] + rest) =~= prefix.push(fields) + rest);
                },
                None => {},
            }
        }
        let key = vstd::slice::slice_to_vec(slice_subrange(bytes, pos + 4, pos + 4 + key_len));
        let offset = read_u64(bytes, pos + 4 + key_len);
        let key_size = read_u32(bytes, pos + 12 + key_len);
        let value_size = read_u32(bytes, pos + 16 + key_len);
        if index.entries.len() > 0 {
            let last = index.entries.len() - 1;
            match compare_keys(index.entries[last].key.as_slice(), key.as_slice()) {
                Ordering::Less => {},
                _ => {
                    proof {
                        match index_records(bytes@, 4, count as nat) {
                            Some(rs) => {
                                let rest = index_records(bytes@, pos + 20 + key_len, (count - i - 1) as nat)->Some_0;
                                assert(rs == prefix + (seq![fields] + rest));
                                assert(rs[last as int] == prefix[last as int]);
                                assert(rs[last + 1] == fields);
                                assert(!key_lt(rs[last as int].0, rs[last + 1].0));
                            },
                            None => {},
                        }
                    }
                    return Err(SSTableError::InvalidFormat("Index keys out of order".to_string()));
                },
            }
        }
        let ghost before = index.entries@;
        let ghost key_view = key@;
        index.add_entry(key, offset, key_size, value_size);
        proof {
            let s = index.entries@;
            assert(s.drop_last() == before);
            assert(s.last().key@ == key_view);
            let e = s.last();
            vstd::bytes::lemma_auto_spec_u32_to_from_le_bytes();
            vstd::bytes::lemma_auto_spec_u64_to_from_le_bytes();
            let kb = bytes@.subrange(pos as int, pos + 4);
            let ob = bytes@.subrange(pos + 4 + key_len, pos + 12 + key_len);
            let sb = bytes@.subrange(pos + 12 + key_len, pos + 16 + key_len);
            let vb = bytes@.subrange(pos + 16 + key_len, pos + 20 + key_len);
            assert(spec_u32_to_le_bytes(vstd::bytes::spec_u32_from_le_bytes(kb)) == kb);
            assert(spec_u64_to_le_bytes(vstd::bytes::spec_u64_from_le_bytes(ob)) == ob);
            assert(spec_u32_to_le_bytes(vstd::bytes::spec_u32_from_le_bytes(sb)) == sb);
            assert(spec_u32_to_le_bytes(vstd::bytes::spec_u32_from_le_bytes(vb)) == vb);
            assert(e.key@.len() as u32 == vstd::bytes::spec_u32_from_le_bytes(kb));
            assert(bytes@.subrange(pos as int, pos + 20 + key_len) =~= index_entry_bytes(e));
            assert(bytes@.subrange(4, pos + 20 + key_len) =~= bytes@.subrange(4, pos as int) + bytes@.subrange(
                pos as int,
                pos + 20 + key_len,
            ));
            assert forall|a: int, b: int| 0 <= a < b < s.len() implies key_lt(
                #[trigger] s[a].key@,
                #[trigger] s[b].key@,
            ) by {
                if b == s.len() - 1 {
                    assert(s[a] == before[a]);
                    if a < b - 1 {
                        assert(s[b - 1] == before[b - 1]);
                        lemma_key_lt_transitive(s[a].key@, s[b - 1].key@, s[b].key@);
                    }
                } else {
                    assert(s[a] == before[a]);
                    assert(s[b] == before[b]);
                }
            }
        }
        proof {
            assert(index_fields(index.entries@) =~= prefix.push(fields));
            let f = index_fields(index.entries@);
            assert forall|a: int, b: int| 0 <= a < b < f.len() implies key_lt(#[trigger] f[a].0, #[trigger] f[b].0) by {
                assert(f[a].0 == index.entries@[a].key@);
                assert(f[b].0 == index.entries@[b].key@);
            }
        }
        pos = pos + 20 + key_len;
        i = i + 1;
    }
    proof {
        let sec = index_section(index.entries@);
        assert(bytes@.subrange(0, pos as int) =~= bytes@.subrange(0, 4) + bytes@.subrange(4, pos as int));
        assert(sec.len() == pos);
        assert(bytes@.subrange(0, sec.len() as int) =~= sec);
    }
    Ok(index)
}

/// The first index entry's bytes come first.
proof fn lemma_index_entries_front(t: Seq<IndexEntry>)
    requires
        t.len() > 0,
    ensures
        index_entries_bytes(t) == index_entry_bytes(t[0]) + index_entries_bytes(t.drop_first()),
    decreases t.len(),
{
    if t.len() == 1 {
        assert(t.drop_last() =~= Seq::<IndexEntry>::empty());
        assert(t.drop_first() =~= Seq::<IndexEntry>::empty());
        assert(index_entries_bytes(t) =~= index_entry_bytes(t[0]) + index_entries_bytes(t.drop_first()));
    } else {
        let d = t.drop_last();
        lemma_index_entries_front(d);
        assert(t.drop_first().drop_last() =~= d.drop_first());
        assert(t.drop_first().last() == t.last());
        assert(d[0] == t[0]);
        assert(index_entries_bytes(t) =~= index_entry_bytes(t[0]) + index_entries_bytes(t.drop_first()));
    }
}

/// Index entries written back to back read back as their fields.
proof fn lemma_index_records_decode(b: Seq<u8>, p: int, t: Seq<IndexEntry>)
    requires
        0 <= p,
        p + index_entries_bytes(t).len() <= b.len(),
        b.subrange(p, p + index_entries_bytes(t).len()) == index_entries_bytes(t),
        forall|i: int| 0 <= i < t.len() ==> (#[trigger] t[i]).key@.len() <= u32::MAX,
    ensures
        index_records(b, p, t.len()) == Some(index_fields(t)),
    decreases t.len(),
{
    vstd::bytes::lemma_auto_spec_u32_to_from_le_bytes();
    vstd::bytes::lemma_auto_spec_u64_to_from_le_bytes();
    if t.len() == 0 {
        assert(index_fields(t) =~= Seq::<IndexFields>::empty());
    } else {
        lemma_index_entries_front(t);
        let e = t[0];
        let k = e.key@.len() as int;
        let eb = index_entry_bytes(e);
        let whole = index_entries_bytes(t);
        assert(eb.len() == 20 + k);
        assert(b.subrange(p, p + 4) =~= whole.subrange(0, 4));
        assert(whole.subrange(0, 4) =~= spec_u32_to_le_bytes(k as u32));
        assert(b.subrange(p + 4, p + 4 + k) =~= whole.subrange(4, 4 + k));
        assert(whole.subrange(4, 4 + k) =~= e.key@);
        assert(b.subrange(p + 4 + k, p + 12 + k) =~= whole.subrange(4 + k, 12 + k));
        assert(whole.subrange(4 + k, 12 + k) =~= spec_u64_to_le_bytes(e.offset));
        assert(b.subrange(p + 12 + k, p + 16 + k) =~= whole.subrange(12 + k, 16 + k));
        assert(whole.subrange(12 + k, 16 + k) =~= spec_u32_to_le_bytes(e.key_size));
        assert(b.subrange(p + 16 + k, p + 20 + k) =~= whole.subrange(16 + k, 20 + k));
        assert(whole.subrange(16 + k, 20 + k) =~= spec_u32_to_le_bytes(e.value_size));
        let rest = t.drop_first();
        assert forall|i: int| 0 <= i < rest.len() implies (#[trigger] rest[i]).key@.len() <= u32::MAX by {
            assert(rest[i] == t[i + 1]);
        }
        assert(whole.subrange(20 + k, whole.len() as int) =~= index_entries_bytes(rest));
        assert(b.subrange(p + 20 + k, p + 20 + k + index_entries_bytes(rest).len()) =~= whole.subrange(
            20 + k,
            whole.len() as int,
        ));
        lemma_index_records_decode(b, p + 20 + k, rest);
        assert(index_fields(t) =~= seq![index_fields(t)[0]] + index_fields(rest));
    }
}

/// The index fields a table of `es` records, its data section starting at
/// `data_offset`.
pub open spec fn expected_index(es: Seq<EntryView>, data_offset: int) -> Seq<IndexFields> {
    Seq::new(
        es.len(),
        |i: int|
            (
                es[i].key,
                (data_offset + data_len(es.take(i))) as u64,
                es[i].key.len() as u32,
                value_len(es[i].value) as u32,
            ),
    )
}

/// `b` is the file of a table holding `es`: a 64-byte header, the bloom
/// region (ten bits per entry, three probes, passing every key), the data
/// section with each entry framed in key order, the index section, and a
/// 32-byte footer.
pub open spec fn table_laid_out(b: Seq<u8>, es: Seq<EntryView>) -> bool {
    let n = es.len();
    let data_offset = 64 + bloom_len(n);
    let index_offset = data_offset + data_len(es);
    let index_region = b.subrange(index_offset, b.len() - 32);
    &&& table_fits(es)
    &&& strictly_sorted(es)
    &&& b.len() == image_len(es)
    &&& b.subrange(0, 8) == magic_spec()
    &&& u32_at(b, 8) == FORMAT_VERSION
    &&& u32_at(b, 12) == n
    &&& u64_at(b, 16) == index_offset
    &&& u64_at(b, 24) == 64
    &&& u64_at(b, 32) == data_offset
    &&& forall|i: int|
        0 <= i < n ==> bits_contain(b.subrange(64, data_offset), (n * 10) as nat, 3, #[trigger] es[i].key)
    &&& forall|i: int|
        0 <= i < n ==> data_len(es.take(i)) + entry_bytes(#[trigger] es[i]).len() <= data_len(es) && b.subrange(
            data_offset + data_len(es.take(i)),
            data_offset + data_len(es.take(i)) + entry_bytes(es[i]).len(),
        ) == entry_bytes(es[i])
    &&& u32_at(index_region, 0) == n
    &&& index_records(index_region, 4, n) == Some(expected_index(es, data_offset))
    &&& u32_at(b, b.len() - 32) == 0
    &&& u64_at(b, b.len() - 28) == data_len(es)
    &&& u64_at(b, b.len() - 20) == 4 + index_body_len(es)
}

/// The bytes assembled by [`TableImage::from_entries`] are laid out as
/// [`table_laid_out`] says.
proof fn lemma_image_laid_out(
    b: Seq<u8>,
    h: SSTableHeader,
    bits: Seq<u8>,
    data: Seq<u8>,
    ix: Seq<IndexEntry>,
    f: SSTableFooter,
    es: Seq<EntryView>,
)
    requires
        b == header_bytes(h) + bits + data + index_section(ix) + footer_bytes(f),
        table_fits(es),
        strictly_sorted(es),
        h.magic@ == magic_spec(),
        h.version == FORMAT_VERSION,
        h.entry_count == es.len(),
        h.bloom_filter_offset == 64,
        h.data_offset == 64 + bloom_len(es.len()),
        h.index_offset == h.data_offset + data_len(es),
        bits.len() == bloom_len(es.len()),
        data.len() == data_len(es),
        f.checksum == 0,
        f.data_size == data_len(es),
        f.index_size == index_section(ix).len(),
        ix.len() == es.len(),
        forall|j: int| 0 <= j < es.len() ==> slot_ok(#[trigger] ix[j], data, es, 64 + bloom_len(es.len()), j),
        forall|j: int| 0 <= j < es.len() ==> bits_contain(bits, (es.len() * 10) as nat, 3, #[trigger] es[j].key),
    ensures
        table_laid_out(b, es),
        b.subrange(64, h.data_offset as int) == bits,
        b.subrange(h.index_offset as int, h.index_offset + index_section(ix).len()) == index_section(ix),
        b.len() == h.index_offset + index_section(ix).len() + 32,
{
    let n = es.len();
    let d0 = 64 + bloom_len(n);
    let sec = index_section(ix);
    assert forall|j: int| 0 <= j < ix.len() implies (#[trigger] ix[j]).key@ == es[j].key by {
        assert(slot_ok(ix[j], data, es, d0, j));
    }
    lemma_index_entries_len(ix, es);
    lemma_header_footer_len(h, f);
    let i0 = d0 + data_len(es);
    assert(b.subrange(0, 64) =~= header_bytes(h));
    lemma_header_fields(b, h);
    assert(b.subrange(64, d0) =~= bits);
    assert(b.subrange(d0, i0) =~= data);
    lemma_layout_entries(b, d0, data, es, ix);
    let region = b.subrange(i0, b.len() - 32);
    assert(region =~= sec);
    lemma_layout_index(region, ix, es, data, d0);
    let l = b.len() as int;
    assert(b.subrange(l - 32, l) =~= footer_bytes(f));
    lemma_footer_fields(b, f);
    vstd::bytes::lemma_auto_spec_u32_to_from_le_bytes();
    assert(sec.len() == 4 + index_entries_bytes(ix).len());
    assert(b.len() == image_len(es));
    assert(b.subrange(0, 8) == magic_spec());
    assert(u32_at(b, 12) == n);
    assert(u64_at(b, 16) == i0);
    assert(u64_at(b, 32) == d0);
    assert forall|i: int| 0 <= i < n implies bits_contain(b.subrange(64, d0), (n * 10) as nat, 3, #[trigger] es[i].key) by {
        assert(bits_contain(bits, (n * 10) as nat, 3, es[i].key));
    }
    assert(u32_at(region, 0) == n);
    assert(index_records(region, 4, n) == Some(expected_index(es, d0)));
    assert(u32_at(b, b.len() - 32) == 0);
    assert(u64_at(b, b.len() - 28) == data_len(es));
    assert(u64_at(b, b.len() - 20) == 4 + index_body_len(es));
}

proof fn lemma_header_footer_len(h: SSTableHeader, f: SSTableFooter)
    ensures
        header_bytes(h).len() == 64,
        footer_bytes(f).len() == 32,
{
    vstd::bytes::lemma_auto_spec_u32_to_from_le_bytes();
    vstd::bytes::lemma_auto_spec_u64_to_from_le_bytes();
}

proof fn lemma_layout_entries(b: Seq<u8>, d0: int, data: Seq<u8>, es: Seq<EntryView>, ix: Seq<IndexEntry>)
    requires
        0 <= d0,
        d0 + data.len() <= b.len(),
        b.subrange(d0, d0 + data.len()) == data,
        data.len() == data_len(es),
        ix.len() == es.len(),
        forall|j: int| 0 <= j < es.len() ==> slot_ok(#[trigger] ix[j], data, es, d0, j),
    ensures
        forall|i: int|
            0 <= i < es.len() ==> data_len(es.take(i)) + entry_bytes(#[trigger] es[i]).len() <= data_len(es)
                && b.subrange(d0 + data_len(es.take(i)), d0 + data_len(es.take(i)) + entry_bytes(es[i]).len())
                == entry_bytes(es[i]),
{
    assert forall|i: int| 0 <= i < es.len() implies data_len(es.take(i)) + entry_bytes(#[trigger] es[i]).len()
        <= data_len(es) && b.subrange(d0 + data_len(es.take(i)), d0 + data_len(es.take(i)) + entry_bytes(es[i]).len())
        == entry_bytes(es[i]) by {
        assert(slot_ok(ix[i], data, es, d0, i));
        let lo = data_len(es.take(i));
        let hi = lo + entry_bytes(es[i]).len();
        assert(b.subrange(d0 + lo, d0 + hi) =~= b.subrange(d0, d0 + data.len()).subrange(lo, hi));
    }
}

proof fn lemma_layout_index(region: Seq<u8>, ix: Seq<IndexEntry>, es: Seq<EntryView>, data: Seq<u8>, d0: int)
    requires
        region == index_section(ix),
        ix.len() == es.len(),
        es.len() <= u32::MAX,
        forall|j: int| 0 <= j < es.len() ==> encodable(#[trigger] es[j]),
        forall|j: int| 0 <= j < es.len() ==> slot_ok(#[trigger] ix[j], data, es, d0, j),
    ensures
        u32_at(region, 0) == es.len(),
        index_records(region, 4, es.len()) == Some(expected_index(es, d0)),
{
    vstd::bytes::lemma_auto_spec_u32_to_from_le_bytes();
    let n = es.len();
    assert(region.subrange(0, 4) =~= spec_u32_to_le_bytes(n as u32));
    assert forall|i: int| 0 <= i < ix.len() implies (#[trigger] ix[i]).key@.len() <= u32::MAX by {
        assert(slot_ok(ix[i], data, es, d0, i));
        assert(encodable(es[i]));
    }
    assert(region.subrange(4, 4 + index_entries_bytes(ix).len() as int) =~= index_entries_bytes(ix));
    lemma_index_records_decode(region, 4, ix);
    assert forall|j: int| 0 <= j < n implies index_fields(ix)[j] == expected_index(es, d0)[j] by {
        assert(slot_ok(ix[j], data, es, d0, j));
        assert(encodable(es[j]));
    }
    assert(index_fields(ix) =~= expected_index(es, d0));
}

proof fn lemma_footer_fields(b: Seq<u8>, f: SSTableFooter)
    requires
        b.len() >= 32,
        b.subrange(b.len() - 32, b.len() as int) == footer_bytes(f),
    ensures
        u32_at(b, b.len() - 32) == f.checksum,
        u64_at(b, b.len() - 28) == f.data_size,
        u64_at(b, b.len() - 20) == f.index_size,
{
    vstd::bytes::lemma_auto_spec_u32_to_from_le_bytes();
    vstd::bytes::lemma_auto_spec_u64_to_from_le_bytes();
    let fb = footer_bytes(f);
    let l = b.len() as int;
    assert(b.subrange(l - 32, l - 28) =~= fb.subrange(0, 4));
    assert(fb.subrange(0, 4) =~= spec_u32_to_le_bytes(f.checksum));
    assert(b.subrange(l - 28, l - 20) =~= fb.subrange(4, 12));
    assert(fb.subrange(4, 12) =~= spec_u64_to_le_bytes(f.data_size));
    assert(b.subrange(l - 20, l - 12) =~= fb.subrange(12, 20));
    assert(fb.subrange(12, 20) =~= spec_u64_to_le_bytes(f.index_size));
}

/// The `n` records framed back to back from offset `p`, or `None` when one
/// of them does not fit in `b`.
pub open spec fn data_records(b: Seq<u8>, p: int, n: nat) -> Option<Seq<EntryView>>
    decreases n,
{
    if n == 0 {
        Some(Seq::empty())
    } else if 0 <= p && p + 24 <= b.len() && entry_end(b, p) <= b.len() {
        match data_records(b, entry_end(b, p), (n - 1) as nat) {
            Some(rest) => Some(seq![entry_at(b, p)] + rest),
            None => None,
        }
    } else {
        None
    }
}

/// A table file whose header is valid and whose data section holds, as
/// they read back, the entries `es`.
pub open spec fn table_file_holds(b: Seq<u8>, es: Seq<EntryView>) -> bool {
    &&& b.len() >= 64
    &&& b.subrange(0, 8) == magic_spec()
    &&& u32_at(b, 8) == FORMAT_VERSION
    &&& data_records(b, u64_at(b, 32) as int, u32_at(b, 12) as nat) == Some(es.map_values(|e: EntryView| stored(e)))
}

proof fn lemma_data_records_of_layout(b: Seq<u8>, es: Seq<EntryView>, off: int, j: int)
    requires
        0 <= j <= es.len(),
        0 <= off,
        forall|x: int| 0 <= x < es.len() ==> {
            &&& encodable(#[trigger] es[x])
            &&& 0 <= data_len(es.take(x))
            &&& off + data_len(es.take(x)) + entry_bytes(es[x]).len() <= b.len()
            &&& b.subrange(off + data_len(es.take(x)), off + data_len(es.take(x)) + entry_bytes(es[x]).len())
                == entry_bytes(es[x])
        },
    ensures
        data_records(b, off + data_len(es.take(j)), (es.len() - j) as nat) == Some(
            es.skip(j).map_values(|e: EntryView| stored(e)),
        ),
    decreases es.len() - j,
{
    if j == es.len() {
        assert(es.skip(j).map_values(|e: EntryView| stored(e)) =~= Seq::<EntryView>::empty());
    } else {
        let e = es[j];
        let p = off + data_len(es.take(j));
        assert(encodable(es[j]));
        lemma_entry_round_trip(b, p, e);
        lemma_entry_bytes_len(e);
        assert(es.take(j + 1).drop_last() =~= es.take(j));
        assert(es.take(j + 1).last() == e);
        assert(entry_end(b, p) == off + data_len(es.take(j + 1)));
        lemma_data_records_of_layout(b, es, off, j + 1);
        assert(es.skip(j).map_values(|e: EntryView| stored(e)) =~= seq![stored(e)] + es.skip(j + 1).map_values(
            |e: EntryView| stored(e),
        ));
    }
}

/// All entries of a table file held in memory, in stored order. Fails as
/// [`SSTableHeader::read`] does, and with `InvalidFormat` when the data
/// section does not hold the header's count of records.
pub fn read_table_entries(file: &[u8]) -> (r: SSTableResult<Vec<Entry>>)
    ensures
        ({
            &&& file@.len() >= 64
            &&& file@.subrange(0, 8) == magic_spec()
            &&& u32_at(file@, 8) == FORMAT_VERSION
            &&& data_records(file@, u64_at(file@, 32) as int, u32_at(file@, 12) as nat) is Some
        }) <==> r is Ok,
        r matches Ok(es) ==> data_records(file@, u64_at(file@, 32) as int, u32_at(file@, 12) as nat) == Some(
            entry_views(es@),
        ),
        r is Err ==> (r matches Err(SSTableError::InvalidFormat(_))),
{
    let header = match SSTableHeader::read(file) {
        Ok(h) => h,
        Err(e) => {
            return Err(e);
        },
    };
    let len = file.len();
    if header.data_offset > len as u64 {
        proof {
            if header.entry_count > 0 {
                assert(data_records(file@, header.data_offset as int, header.entry_count as nat) is None);
            } else {
                assert(data_records(file@, header.data_offset as int, 0) is Some);
            }
        }
        if header.entry_count == 0 {
            return Ok(Vec::new());
        }
        return Err(SSTableError::InvalidFormat("Data offset past the end".to_string()));
    }
    let mut pos: usize = header.data_offset as usize;
    let ghost p0 = pos as int;
    assert(data_records(file@, p0, (header.entry_count - 0) as nat) == match data_records(file@, p0, header.entry_count as nat) {
        Some(rest) => Some(Seq::<EntryView>::empty() + rest),
        None => None::<Seq<EntryView>>,
    }) by {
        match data_records(file@, p0, header.entry_count as nat) {
            Some(rest) => {
                assert(Seq::<EntryView>::empty() + rest =~= rest);
            },
            None => {},
        }
    }
    let n = header.entry_count;
    let mut out: Vec<Entry> = Vec::new();
    let mut i: u32 = 0;
    while i < n
        invariant
            len == file@.len(),
            file@.len() >= 64,
            file@.subrange(0, 8) == magic_spec(),
            u32_at(file@, 8) == FORMAT_VERSION,
            p0 == u64_at(file@, 32) as int,
            n == u32_at(file@, 12),
            pos <= len,
            i <= n,
            out@.len() == i,
            data_records(file@, p0, n as nat) == match data_records(file@, pos as int, (n - i) as nat) {
                Some(rest) => Some(entry_views(out@) + rest),
                None => None::<Seq<EntryView>>,
            },
        decreases n - i,
    {
        if len - pos < 24 {
            assert(data_records(file@, pos as int, (n - i) as nat) is None);
            return Err(SSTableError::InvalidFormat("Data section cut short".to_string()));
        }
        let key_len = read_u32(file, pos) as usize;
        let value_len = read_u32(file, pos + 4) as usize;
        if key_len > len - pos - 24 || value_len > len - pos - 24 - key_len {
            assert(data_records(file@, pos as int, (n - i) as nat) is None);
            return Err(SSTableError::InvalidFormat("Data section cut short".to_string()));
        }
        let e = crate::codec::decode_entry(file, pos);
        let ghost before = entry_views(out@);
        out.push(e);
        proof {
            assert(entry_views(out@) =~= before.push(entry_at(file@, pos as int)));
            match data_records(file@, entry_end(file@, pos as int), (n - i - 1) as nat) {
                Some(rest) => {
                    assert(before + (seq![entry_at(file@, pos as int)] + rest) =~= entry_views(out@) + rest);
                },
                None => {},
            }
        }
        pos = pos + 24 + key_len + value_len;
        i = i + 1;
    }
    assert(entry_views(out@) + Seq::<EntryView>::empty() =~= entry_views(out@));
    Ok(out)
}

} // verus!
