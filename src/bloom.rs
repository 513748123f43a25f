//! The bloom filter of a table: a bit array probed by FNV-1a hashes, which
//! may report a key that was never added but never misses one that was.

use crate::sstable::{SSTableError, SSTableResult};
use vstd::prelude::*;

verus! {

/// FNV-1a over a key: offset basis 0x811c9dc5, prime 0x01000193, in 64-bit
/// wrapping arithmetic.
pub open spec fn fnv1a(key: Seq<u8>) -> u64
    decreases key.len(),
{
    if key.len() == 0 {
        0x811c9dc5
    } else {
        (fnv1a(key.drop_last()) ^ (key.last() as u64)).wrapping_mul(0x01000193)
    }
}

/// Whether bit `i` of a bit array is set (bit `i % 8` of byte `i / 8`).
pub open spec fn bit_set(bits: Seq<u8>, i: int) -> bool {
    0 <= i / 8 < bits.len() && (bits[i / 8] >> ((i % 8) as u8)) & 1u8 == 1u8
}

/// The bit probed for `key` by hash function `i` in a filter of `size` bits.
pub open spec fn probe_index(key: Seq<u8>, i: int, size: nat) -> int {
    (fnv1a(key).wrapping_add(i as u64) % (size as u64)) as int
}

/// A bit array of `size` bits probed `hash_count` times per key passes
/// `key`: every probed bit is set, or there are no bits to consult.
pub open spec fn bits_contain(bits: Seq<u8>, size: nat, hash_count: nat, key: Seq<u8>) -> bool {
    size == 0 || forall|i: int| 0 <= i < hash_count ==> #[trigger] bit_set(bits, probe_index(key, i, size))
}

/// Setting one bit of a byte leaves the others as they were.
proof fn lemma_set_bit(b: u8, off: u8, q: u8)
    requires
        off < 8,
        q < 8,
    ensures
        ((b | (1u8 << off)) >> q) & 1u8 == if q == off {
            1u8
        } else {
            (b >> q) & 1u8
        },
{
    assert(((b | (1u8 << off)) >> q) & 1u8 == if q == off {
        1u8
    } else {
        (b >> q) & 1u8
    }) by (bit_vector)
        requires
            off < 8,
            q < 8,
    ;
}

/// Test bit `idx` of a bit array.
fn test_bit(bits: &Vec<u8>, idx: usize) -> (r: bool)
    requires
        idx / 8 < bits@.len(),
    ensures
        r == bit_set(bits@, idx as int),
{
    (bits[idx / 8] >> ((idx % 8) as u8)) & 1u8 == 1u8
}

/// Set bit `idx` of a bit array, leaving the others as they were.
fn set_bit(bits: &mut Vec<u8>, idx: usize)
    requires
        idx / 8 < old(bits)@.len(),
    ensures
        final(bits)@.len() == old(bits)@.len(),
        bit_set(final(bits)@, idx as int),
        forall|j: int| bit_set(old(bits)@, j) ==> #[trigger] bit_set(final(bits)@, j),
        forall|j: int| #[trigger] bit_set(final(bits)@, j) ==> bit_set(old(bits)@, j) || j == idx,
{
    let byte_index = idx / 8;
    let bit_offset = (idx % 8) as u8;
    let byte = bits[byte_index];
    bits.set(byte_index, byte | (1u8 << bit_offset));
    proof {
        lemma_set_bit(byte, bit_offset, bit_offset);
        assert forall|j: int| bit_set(old(bits)@, j) implies #[trigger] bit_set(final(bits)@, j) by {
            if j / 8 == byte_index {
                lemma_set_bit(byte, bit_offset, (j % 8) as u8);
            }
        }
        assert forall|j: int| #[trigger] bit_set(final(bits)@, j) implies bit_set(old(bits)@, j) || j == idx by {
            if j / 8 == byte_index {
                lemma_set_bit(byte, bit_offset, (j % 8) as u8);
                if j % 8 == bit_offset as int {
                    assert(j == idx);
                }
            }
        }
    }
}

/// Bloom filter over a bit array, with `hash_count` probes per key.
#[derive(Debug, Clone)]
pub struct BloomFilter {
    bits: Vec<u8>,
    size: usize,
    hash_count: usize,
}

impl BloomFilter {
    /// The bit array.
    pub closed spec fn bit_array(&self) -> Seq<u8> {
        self.bits@
    }

    /// The number of bits probes range over.
    pub closed spec fn size_spec(&self) -> nat {
        self.size as nat
    }

    /// The number of probes per key.
    pub closed spec fn hash_count_spec(&self) -> nat {
        self.hash_count as nat
    }

    /// The bit array has exactly the bytes the filter's size needs.
    pub open spec fn wf(&self) -> bool {
        self.bit_array().len() == (self.size_spec() + 7) / 8
    }

    /// What `might_contain` answers: every probed bit is set (or the filter
    /// has no bits to consult).
    pub open spec fn contains_spec(&self, key: Seq<u8>) -> bool {
        bits_contain(self.bit_array(), self.size_spec(), self.hash_count_spec(), key)
    }

    /// Create a filter of `size` bits, all clear, probed `hash_count` times
    /// per key.
    pub fn new(size: usize, hash_count: usize) -> (r: Self)
        ensures
            r.wf(),
            r.size_spec() == size,
            r.hash_count_spec() == hash_count,
            forall|i: int| !#[trigger] bit_set(r.bit_array(), i),
    {
        let byte_size = size / 8 + if size % 8 == 0 {
            0
        } else {
            1
        };
        let mut bits: Vec<u8> = Vec::new();
        let mut i: usize = 0;
        while i < byte_size
            invariant
                i <= byte_size,
                bits@.len() == i,
                forall|j: int| 0 <= j < i ==> bits@[j] == 0u8,
            decreases byte_size - i,
        {
            bits.push(0);
            i = i + 1;
        }
        let r = BloomFilter { bits, size, hash_count };
        assert forall|i: int| !#[trigger] bit_set(r.bit_array(), i) by {
            if 0 <= i / 8 < r.bits@.len() {
                let q = (i % 8) as u8;
                assert((0u8 >> q) & 1u8 == 0u8) by (bit_vector);
            }
        }
        r
    }

    /// FNV-1a over the key, plus the seed of the probe.
    fn hash(&self, key: &[u8], seed: usize) -> (r: u64)
        ensures
            r == fnv1a(key@).wrapping_add(seed as u64),
    {
        let mut h: u64 = 0x811c9dc5;
        let mut i: usize = 0;
        while i < key.len()
            invariant
                i <= key@.len(),
                h == fnv1a(key@.take(i as int)),
            decreases key@.len() - i,
        {
            assert(key@.take(i + 1).drop_last() =~= key@.take(i as int));
            h = (h ^ key[i] as u64).wrapping_mul(0x01000193);
            i = i + 1;
        }
        assert(key@.take(i as int) =~= key@);
        h.wrapping_add(seed as u64)
    }

    /// Add a key: set every probed bit. Bits already set stay set.
    pub fn add(&mut self, key: &[u8])
        requires
            old(self).wf(),
        ensures
            final(self).wf(),
            final(self).size_spec() == old(self).size_spec(),
            final(self).hash_count_spec() == old(self).hash_count_spec(),
            final(self).contains_spec(key@),
            forall|j: int| bit_set(old(self).bit_array(), j) ==> #[trigger] bit_set(final(self).bit_array(), j),
            forall|j: int| #[trigger] bit_set(final(self).bit_array(), j) ==> bit_set(old(self).bit_array(), j) || exists|i: int|
                0 <= i < old(self).hash_count_spec() && j == probe_index(key@, i, old(self).size_spec()),
    {
        if self.size == 0 {
            return;
        }
        let ghost size = self.size as nat;
        let ghost start = self.bits@;
        let mut i: usize = 0;
        while i < self.hash_count
            invariant
                self.wf(),
                self.size_spec() == size,
                size > 0,
                self.hash_count_spec() == old(self).hash_count_spec(),
                start == old(self).bit_array(),
                i <= self.hash_count,
                forall|j: int| 0 <= j < i ==> #[trigger] bit_set(self.bit_array(), probe_index(key@, j, size)),
                forall|j: int| bit_set(start, j) ==> #[trigger] bit_set(self.bit_array(), j),
                forall|j: int| #[trigger] bit_set(self.bit_array(), j) ==> bit_set(start, j) || exists|x: int|
                    0 <= x < i && j == probe_index(key@, x, size),
            decreases self.hash_count - i,
        {
            let h = self.hash(key, i);
            let bit_index = (h % (self.size as u64)) as usize;
            assert(probe_index(key@, i as int, size) == bit_index);
            let ghost before = self.bits@;
            set_bit(&mut self.bits, bit_index);
            proof {
                assert forall|j: int| bit_set(start, j) implies #[trigger] bit_set(self.bit_array(), j) by {
                    assert(bit_set(before, j));
                }
                assert forall|j: int| #[trigger] bit_set(self.bit_array(), j) implies bit_set(start, j) || exists|x: int|
                    0 <= x < i + 1 && j == probe_index(key@, x, size) by {
                    if j == bit_index {
                        assert(j == probe_index(key@, i as int, size));
                    } else {
                        assert(bit_set(before, j));
                    }
                }
                assert forall|j: int| 0 <= j < i + 1 implies #[trigger] bit_set(
                    self.bit_array(),
                    probe_index(key@, j, size),
                ) by {
                    if j < i {
                        assert(bit_set(before, probe_index(key@, j, size)));
                    }
                }
            }
            i = i + 1;
        }
    }

    /// Whether the key might have been added: false only if some probed bit
    /// is clear. A filter of zero bits answers true.
    pub fn might_contain(&self, key: &[u8]) -> (r: bool)
        requires
            self.wf(),
        ensures
            r == self.contains_spec(key@),
    {
        if self.size == 0 {
            return true;
        }
        let mut i: usize = 0;
        while i < self.hash_count
            invariant
                self.wf(),
                self.size > 0,
                i <= self.hash_count,
                forall|j: int| 0 <= j < i ==> #[trigger] bit_set(
                    self.bit_array(),
                    probe_index(key@, j, self.size_spec()),
                ),
            decreases self.hash_count - i,
        {
            let h = self.hash(key, i);
            let bit_index = (h % (self.size as u64)) as usize;
            assert(probe_index(key@, i as int, self.size_spec()) == bit_index);
            if !test_bit(&self.bits, bit_index) {
                assert(!bit_set(self.bit_array(), probe_index(key@, i as int, self.size_spec())));
                return false;
            }
            i = i + 1;
        }
        true
    }

    /// Get the bloom filter bits.
    pub fn bits(&self) -> (r: &[u8])
        ensures
            r@ == self.bit_array(),
    {
        self.bits.as_slice()
    }

    /// Get the filter's size in bits.
    pub fn size(&self) -> (r: usize)
        ensures
            r == self.size_spec(),
    {
        self.size
    }

    /// Replace the bloom filter bits.
    pub fn set_bits(&mut self, bits: Vec<u8>)
        ensures
            final(self).bit_array() == bits@,
            final(self).size_spec() == old(self).size_spec(),
            final(self).hash_count_spec() == old(self).hash_count_spec(),
    {
        self.bits = bits;
    }
}

/// Bits only ever get set, so a key the smaller filter contains stays
/// contained.
pub proof fn lemma_bloom_grow(a: BloomFilter, b: BloomFilter, key: Seq<u8>)
    requires
        a.size_spec() == b.size_spec(),
        a.hash_count_spec() == b.hash_count_spec(),
        forall|j: int| bit_set(a.bit_array(), j) ==> #[trigger] bit_set(b.bit_array(), j),
        a.contains_spec(key),
    ensures
        b.contains_spec(key),
{
    if b.size_spec() != 0 {
        assert forall|i: int| 0 <= i < b.hash_count_spec() implies #[trigger] bit_set(
            b.bit_array(),
            probe_index(key, i, b.size_spec()),
        ) by {
            assert(bit_set(a.bit_array(), probe_index(key, i, a.size_spec())));
        }
    }
}

impl BloomFilter {
    /// The filter a table with `entry_count` entries was written with, from
    /// the bytes of its bloom region: ten bits per entry, three probes.
    /// `InvalidFormat` when the region does not have the size that implies.
    pub fn from_bits(entry_count: u32, bits: Vec<u8>) -> (r: SSTableResult<BloomFilter>)
        ensures
            (entry_count * 10 <= usize::MAX && bits@.len() == (entry_count * 10 + 7) / 8) <==> r is Ok,
            r matches Ok(b) ==> b.wf() && b.bit_array() == bits@ && b.size_spec() == entry_count * 10
                && b.hash_count_spec() == 3,
            r is Err ==> (r matches Err(SSTableError::InvalidFormat(_))),
    {
        let size = match (entry_count as usize).checked_mul(10) {
            Some(s) => s,
            None => {
                return Err(SSTableError::InvalidFormat("Bloom filter too large".to_string()));
            },
        };
        let mut bloom = BloomFilter::new(size, 3);
        if bits.len() != bloom.bits.len() {
            return Err(SSTableError::InvalidFormat("Bloom filter size mismatch".to_string()));
        }
        bloom.set_bits(bits);
        Ok(bloom)
    }
}

} // verus!
