//! Bloom filter with bit-packed storage (`Vec<u64>`, 64 bits per word).

use vstd::prelude::*;
use vstd::bytes::{
    spec_u64_to_le_bytes, spec_u64_from_le_bytes, spec_u32_to_le_bytes, spec_u32_from_le_bytes,
    u64_to_le_bytes, u64_from_le_bytes, u32_to_le_bytes, u32_from_le_bytes,
    lemma_auto_spec_u64_to_from_le_bytes, lemma_auto_spec_u32_to_from_le_bytes,
};
use vstd::slice::slice_subrange;
use crate::hashing::{xxhash64, xxhash64_of};
use crate::codec::append_bytes;
use crate::bloom::bits::{
    bit_set_in, words_for_bits, set_bit, test_bit, words_le, read_words, lemma_index_in_words,
    lemma_words_le, lemma_read_words_le, append_words, read_words_exec,
};

verus! {

/// Abstract state of a bit-packed bloom filter.
pub struct BloomView {
    /// The packed bits.
    pub bits: Seq<u64>,
    /// Total number of bits.
    pub num_bits: usize,
    /// Number of hash functions.
    pub num_hashes: usize,
    /// Number of elements inserted.
    pub count: usize,
}

/// Bit position probed by hash function `i` for `item`.
pub open spec fn probe(item: Seq<u8>, i: int, num_bits: usize) -> int {
    (xxhash64_of(item, i as u64) % (num_bits as u64)) as int
}

/// Whether the bit array has the right number of words for its bit count.
pub open spec fn well_sized(v: BloomView) -> bool {
    v.bits.len() == words_for_bits(v.num_bits as int)
}

/// Whether every probed bit of `item` is set: the item is possibly in the set.
pub open spec fn may_contain(v: BloomView, item: Seq<u8>) -> bool {
    forall|i: int| 0 <= i < v.num_hashes ==> #[trigger] bit_set_in(v.bits, probe(item, i, v.num_bits))
}

/// Whether `t` is `s` after inserting `item`: the probed bits of `item` are
/// set, every other bit is kept, and the count grows by one.
pub open spec fn inserted(t: BloomView, s: BloomView, item: Seq<u8>) -> bool {
    &&& t.bits.len() == s.bits.len()
    &&& t.num_bits == s.num_bits
    &&& t.num_hashes == s.num_hashes
    &&& t.count == s.count + 1
    &&& forall|j: int|
        0 <= j < 64 * s.bits.len() ==> #[trigger] bit_set_in(t.bits, j) == (bit_set_in(s.bits, j) || exists|i: int|
            0 <= i < s.num_hashes && j == #[trigger] probe(item, i, s.num_bits))
}

/// Serialized form: bit count (u64 LE), hash count (u32 LE), element count
/// (u64 LE), then the words (u64 LE each).
pub open spec fn encode_bloom(v: BloomView) -> Seq<u8> {
    spec_u64_to_le_bytes(v.num_bits as u64) + spec_u32_to_le_bytes(v.num_hashes as u32)
        + spec_u64_to_le_bytes(v.count as u64) + words_le(v.bits)
}

/// What deserializing `b` yields: `None` if the header is short or the length
/// does not match the bit count.
pub open spec fn decode_bloom(b: Seq<u8>) -> Option<BloomView> {
    if b.len() < 20 {
        None
    } else {
        let num_bits = spec_u64_from_le_bytes(b.subrange(0, 8)) as usize;
        let num_hashes = spec_u32_from_le_bytes(b.subrange(8, 12)) as usize;
        let count = spec_u64_from_le_bytes(b.subrange(12, 20)) as usize;
        let num_words = words_for_bits(num_bits as int);
        if b.len() != 20 + 8 * num_words {
            None
        } else {
            Some(
                BloomView {
                    bits: read_words(b, 20, num_words),
                    num_bits,
                    num_hashes,
                    count,
                },
            )
        }
    }
}

/// Bloom filter with bit-packed storage.
pub struct BloomFilter {
    bits: Vec<u64>,
    num_bits: usize,
    num_hashes: usize,
    count: usize,
}

impl View for BloomFilter {
    type V = BloomView;

    closed spec fn view(&self) -> BloomView {
        BloomView {
            bits: self.bits@,
            num_bits: self.num_bits,
            num_hashes: self.num_hashes,
            count: self.count,
        }
    }
}

/// Computes the number of 64-bit words needed for `n` bits.
pub fn words_needed(n: usize) -> (r: usize)
    ensures
        r == words_for_bits(n as int),
{
    n / 64 + if n % 64 != 0 {
        1
    } else {
        0
    }
}

/// Law: an inserted item is always reported as possibly present.
pub proof fn law_no_false_negatives(s: BloomView, t: BloomView, item: Seq<u8>)
    requires
        well_sized(s),
        s.num_bits > 0,
        inserted(t, s, item),
    ensures
        may_contain(t, item),
{
    assert forall|i: int| 0 <= i < t.num_hashes implies #[trigger] bit_set_in(
        t.bits,
        probe(item, i, t.num_bits),
    ) by {
        let j = probe(item, i, s.num_bits);
        lemma_index_in_words(j, s.num_bits as int);
    }
}

/// Law: an insertion keeps every item that was possibly present.
pub proof fn law_insert_keeps_members(s: BloomView, t: BloomView, item: Seq<u8>, other: Seq<u8>)
    requires
        well_sized(s),
        s.num_bits > 0,
        inserted(t, s, item),
        may_contain(s, other),
    ensures
        may_contain(t, other),
{
    assert forall|i: int| 0 <= i < t.num_hashes implies #[trigger] bit_set_in(
        t.bits,
        probe(other, i, t.num_bits),
    ) by {
        let j = probe(other, i, s.num_bits);
        lemma_index_in_words(j, s.num_bits as int);
        assert(bit_set_in(s.bits, probe(other, i, s.num_bits)));
    }
}

/// Law: a serialized filter deserializes to the same filter (when its hash
/// count fits the 32-bit field).
pub proof fn law_serialization_roundtrip(v: BloomView)
    requires
        well_sized(v),
        v.num_hashes <= u32::MAX,
    ensures
        decode_bloom(encode_bloom(v)) == Some(v),
{
    lemma_auto_spec_u64_to_from_le_bytes();
    lemma_auto_spec_u32_to_from_le_bytes();
    lemma_words_le(v.bits);
    let b = encode_bloom(v);
    let h1 = spec_u64_to_le_bytes(v.num_bits as u64);
    let h2 = spec_u32_to_le_bytes(v.num_hashes as u32);
    let h3 = spec_u64_to_le_bytes(v.count as u64);
    assert(b.subrange(0, 8) =~= h1);
    assert(b.subrange(8, 12) =~= h2);
    assert(b.subrange(12, 20) =~= h3);
    assert(b.subrange(20, 20 + 8 * v.bits.len() as int) =~= words_le(v.bits));
    lemma_read_words_le(b, 20, v.bits);
}

impl BloomFilter {
    /// Internal consistency: the word count matches the bit count.
    pub open spec fn inv(&self) -> bool {
        well_sized(self@)
    }

    /// Creates an empty filter with `num_bits` bits and `num_hashes` hash
    /// functions (at least one).
    pub fn from_parameters(num_bits: usize, num_hashes: usize) -> (r: Self)
        ensures
            r.inv(),
            r@.num_bits == num_bits,
            r@.num_hashes == if num_hashes > 1 {
                num_hashes
            } else {
                1
            },
            r@.count == 0,
            forall|j: int| 0 <= j < 64 * r@.bits.len() ==> !bit_set_in(r@.bits, j),
    {
        let num_words = words_needed(num_bits);
        let bits: Vec<u64> = vec![0u64; num_words];
        let r = Self {
            bits,
            num_bits,
            num_hashes: if num_hashes > 1 {
                num_hashes
            } else {
                1
            },
            count: 0,
        };
        proof {
            assert forall|j: int| 0 <= j < 64 * r@.bits.len() implies !bit_set_in(r@.bits, j) by {
                let w = j / 64;
                let b = (j % 64) as u64;
                assert(r@.bits[w] == 0u64);
                assert(0u64 & (1u64 << b) == 0u64) by (bit_vector);
            }
        }
        r
    }

    /// Bit position probed by hash function `i` for `item`.
    fn probe_index(&self, item: &[u8], i: usize) -> (r: usize)
        requires
            self@.num_bits > 0,
        ensures
            r == probe(item@, i as int, self@.num_bits),
            r < self@.num_bits,
    {
        let hash = xxhash64(item, i as u64);
        (hash % (self.num_bits as u64)) as usize
    }

    /// Insert an element into the bloom filter.
    pub fn insert(&mut self, item: &[u8])
        requires
            old(self).inv(),
            old(self)@.num_bits > 0,
            old(self)@.count < usize::MAX,
        ensures
            final(self).inv(),
            inserted(final(self)@, old(self)@, item@),
    {
        let ghost s = self@;
        let k = self.num_hashes;
        let mut i: usize = 0;
        while i < k
            invariant
                self.inv(),
                self.num_bits == s.num_bits,
                self.num_hashes == s.num_hashes,
                self.count == s.count,
                k == s.num_hashes,
                s.num_bits > 0,
                well_sized(s),
                i <= k,
                self@.bits.len() == s.bits.len(),
                forall|j: int|
                    0 <= j < 64 * s.bits.len() ==> #[trigger] bit_set_in(self@.bits, j) == (bit_set_in(
                        s.bits,
                        j,
                    ) || exists|t: int| 0 <= t < i && j == #[trigger] probe(item@, t, s.num_bits)),
            decreases k - i,
        {
            let index = self.probe_index(item, i);
            proof {
                lemma_index_in_words(index as int, s.num_bits as int);
            }
            let ghost before = self@.bits;
            set_bit(&mut self.bits, index);
            proof {
                assert forall|j: int| 0 <= j < 64 * s.bits.len() implies #[trigger] bit_set_in(
                    self@.bits,
                    j,
                ) == (bit_set_in(s.bits, j) || exists|t: int|
                    0 <= t < i + 1 && j == #[trigger] probe(item@, t, s.num_bits)) by {
                    if j == index {
                        assert(j == probe(item@, i as int, s.num_bits));
                    }
                    if exists|t: int| 0 <= t < i + 1 && j == #[trigger] probe(item@, t, s.num_bits) {
                        let t = choose|t: int| 0 <= t < i + 1 && j == #[trigger] probe(item@, t, s.num_bits);
                        if t < i {
                            assert(exists|t: int| 0 <= t < i && j == #[trigger] probe(item@, t, s.num_bits));
                        }
                    }
                }
            }
            i = i + 1;
        }
        self.count = self.count + 1;
    }

    /// Check if an element might be in the set: `false` means definitely not
    /// in the set, `true` means possibly in the set.
    pub fn contains(&self, item: &[u8]) -> (r: bool)
        requires
            self.inv(),
            self@.num_bits > 0,
        ensures
            r == may_contain(self@, item@),
    {
        let k = self.num_hashes;
        let mut i: usize = 0;
        while i < k
            invariant
                self.inv(),
                self@.num_bits > 0,
                k == self@.num_hashes,
                i <= k,
                forall|t: int| 0 <= t < i ==> #[trigger] bit_set_in(self@.bits, probe(item@, t, self@.num_bits)),
            decreases k - i,
        {
            let index = self.probe_index(item, i);
            proof {
                lemma_index_in_words(index as int, self@.num_bits as int);
            }
            if !test_bit(&self.bits, index) {
                return false;
            }
            i = i + 1;
        }
        true
    }

    /// Number of bits in the filter.
    pub fn num_bits(&self) -> (r: usize)
        ensures
            r == self@.num_bits,
    {
        self.num_bits
    }

    /// Number of hash functions.
    pub fn num_hashes(&self) -> (r: usize)
        ensures
            r == self@.num_hashes,
    {
        self.num_hashes
    }

    /// Get the number of elements inserted.
    pub fn len(&self) -> (r: usize)
        ensures
            r == self@.count,
    {
        self.count
    }

    /// Check if the bloom filter is empty.
    pub fn is_empty(&self) -> (r: bool)
        ensures
            r == (self@.count == 0),
    {
        self.count == 0
    }

    /// Get the size in bytes: the words plus the struct itself.
    pub fn size_bytes(&self) -> (r: usize)
        requires
            8 * self@.bits.len() + vstd::layout::size_of::<BloomFilter>() <= usize::MAX,
        ensures
            r == 8 * self@.bits.len() + vstd::layout::size_of::<BloomFilter>(),
    {
        self.bits.len() * 8 + core::mem::size_of::<BloomFilter>()
    }

    /// Serialize the bloom filter to bytes.
    pub fn to_bytes(&self) -> (r: Vec<u8>)
        ensures
            r@ == encode_bloom(self@),
    {
        let mut bytes: Vec<u8> = Vec::new();
        let a = u64_to_le_bytes(self.num_bits as u64);
        append_bytes(&mut bytes, a.as_slice());
        let b = u32_to_le_bytes(self.num_hashes as u32);
        append_bytes(&mut bytes, b.as_slice());
        let c = u64_to_le_bytes(self.count as u64);
        append_bytes(&mut bytes, c.as_slice());
        append_words(&mut bytes, self.bits.as_slice());
        proof {
            assert(bytes@ =~= encode_bloom(self@));
        }
        bytes
    }

    /// Deserialize a bloom filter from bytes.
    pub fn from_bytes(bytes: &[u8]) -> (r: Option<Self>)
        ensures
            match r {
                Some(f) => f.inv() && decode_bloom(bytes@) == Some(f@),
                None => decode_bloom(bytes@) is None,
            },
    {
        if bytes.len() < 20 {
            return None;
        }
        let num_bits = u64_from_le_bytes(slice_subrange(bytes, 0, 8)) as usize;
        let num_hashes = u32_from_le_bytes(slice_subrange(bytes, 8, 12)) as usize;
        let count = u64_from_le_bytes(slice_subrange(bytes, 12, 20)) as usize;
        let num_words = words_needed(num_bits);
        let expected_len: u128 = 20u128 + 8u128 * (num_words as u128);
        if bytes.len() as u128 != expected_len {
            return None;
        }
        let bits = read_words_exec(bytes, 20, num_words);
        Some(Self { bits, num_bits, num_hashes, count })
    }
}

} // verus!
