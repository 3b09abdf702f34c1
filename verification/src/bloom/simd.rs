//! Bloom filter whose probe hashes are all derived from two base hashes.
//!
//! The `num_hashes` probe hashes of an item are `h1 + i * h2` (wrapping),
//! computed together up front from two base hashes `(h1, h2)`: std's
//! default hasher with seeds 0 and 1.

use vstd::prelude::*;
use vstd::bytes::{
    spec_u64_to_le_bytes, spec_u64_from_le_bytes, u64_to_le_bytes, u64_from_le_bytes,
    lemma_auto_spec_u64_to_from_le_bytes,
};
use vstd::slice::slice_subrange;
use crate::hashing::{default_hash, default_hash_of};
use crate::codec::append_bytes;
use crate::bloom::bits::{
    bit_set_in, words_for_bits, set_bit, test_bit, words_le, read_words, lemma_index_in_words,
    lemma_words_le, lemma_read_words_le, append_words, read_words_exec,
};
use crate::bloom::bitpacked::words_needed;
use crate::text::{decimal_string, decimal_text};
use vstd::string::*;

verus! {

/// Abstract state of the filter.
pub struct SimdBloomView {
    /// The packed bits.
    pub bits: Seq<u64>,
    /// Total number of bits.
    pub num_bits: usize,
    /// Number of hash functions.
    pub num_hashes: usize,
    /// Number of elements inserted.
    pub count: usize,
}

/// Probe hash `i` of base hashes `h = (h1, h2)`: `h1 + i * h2`, wrapping.
pub open spec fn probe_hash(h: (u64, u64), i: int) -> u64 {
    vstd::wrapping::u64_specs::wrapping_add(h.0, vstd::wrapping::u64_specs::wrapping_mul(i as u64, h.1))
}

/// The base hashes of an item.
pub open spec fn base_hashes_of(item: Seq<u8>) -> (u64, u64) {
    (default_hash_of(item, 0), default_hash_of(item, 1))
}

/// Bit position probed by hash `i` of base hashes `h`.
pub open spec fn probe(h: (u64, u64), i: int, num_bits: usize) -> int {
    (probe_hash(h, i) % (num_bits as u64)) as int
}

/// Whether the bit array has the right number of words for its bit count.
pub open spec fn well_sized(v: SimdBloomView) -> bool {
    v.bits.len() == words_for_bits(v.num_bits as int)
}

/// Whether every bit probed from base hashes `item` is set: an item with
/// those base hashes is possibly in the set.
pub open spec fn may_contain(v: SimdBloomView, item: (u64, u64)) -> bool {
    forall|i: int| 0 <= i < v.num_hashes ==> #[trigger] bit_set_in(v.bits, probe(item, i, v.num_bits))
}

/// Whether `t` is `s` after inserting an item with base hashes `item`.
pub open spec fn inserted(t: SimdBloomView, s: SimdBloomView, item: (u64, u64)) -> bool {
    &&& t.bits.len() == s.bits.len()
    &&& t.num_bits == s.num_bits
    &&& t.num_hashes == s.num_hashes
    &&& t.count == s.count + 1
    &&& forall|j: int|
        0 <= j < 64 * s.bits.len() ==> #[trigger] bit_set_in(t.bits, j) == (bit_set_in(s.bits, j) || exists|i: int|
            0 <= i < s.num_hashes && j == #[trigger] probe(item, i, s.num_bits))
}

/// Serialized form: bit count, hash count and element count (u64 LE each),
/// then the words (u64 LE each).
pub open spec fn encode_simd(v: SimdBloomView) -> Seq<u8> {
    spec_u64_to_le_bytes(v.num_bits as u64) + spec_u64_to_le_bytes(v.num_hashes as u64)
        + spec_u64_to_le_bytes(v.count as u64) + words_le(v.bits)
}

/// Bit count announced by a serialized header.
pub open spec fn header_bits(b: Seq<u8>) -> usize {
    spec_u64_from_le_bytes(b.subrange(0, 8)) as usize
}

/// Byte length that a serialized header announces.
pub open spec fn expected_len(b: Seq<u8>) -> int {
    24 + 8 * words_for_bits(header_bits(b) as int)
}

/// What deserializing `b` yields, when it succeeds.
pub open spec fn decode_simd(b: Seq<u8>) -> Option<SimdBloomView> {
    if b.len() < 24 || b.len() != expected_len(b) {
        None
    } else {
        Some(
            SimdBloomView {
                bits: read_words(b, 24, words_for_bits(header_bits(b) as int)),
                num_bits: header_bits(b),
                num_hashes: spec_u64_from_le_bytes(b.subrange(8, 16)) as usize,
                count: spec_u64_from_le_bytes(b.subrange(16, 24)) as usize,
            },
        )
    }
}

/// The text of the error for a buffer of `got` bytes whose header announces
/// `expected` bytes.
pub open spec fn length_error_text(expected: nat, got: nat) -> Seq<char> {
    "Invalid byte length: expected "@ + decimal_text(expected) + ", got "@ + decimal_text(got)
}

/// Formats the error for a buffer of `got` bytes whose header announces
/// `expected` bytes.
fn length_error_message(expected: u128, got: usize) -> (r: String)
    ensures
        r@ == length_error_text(expected as nat, got as nat),
{
    let s = "Invalid byte length: expected ".to_owned();
    let e = decimal_string(expected);
    let s = s.concat(e.as_str());
    let s = s.concat(", got ");
    let g = decimal_string(got as u128);
    let s = s.concat(g.as_str());
    proof {
        reveal_strlit("Invalid byte length: expected ");
        reveal_strlit(", got ");
    }
    s
}

/// Bloom filter with probe hashes derived from two base hashes.
pub struct SimdBloomFilter {
    bits: Vec<u64>,
    num_bits: usize,
    num_hashes: usize,
    count: usize,
}

impl View for SimdBloomFilter {
    type V = SimdBloomView;

    closed spec fn view(&self) -> SimdBloomView {
        SimdBloomView {
            bits: self.bits@,
            num_bits: self.num_bits,
            num_hashes: self.num_hashes,
            count: self.count,
        }
    }
}

/// Law: an inserted item is always reported as possibly present.
pub proof fn law_no_false_negatives(s: SimdBloomView, t: SimdBloomView, item: (u64, u64))
    requires
        well_sized(s),
        s.num_bits > 0,
        inserted(t, s, item),
    ensures
        may_contain(t, item),
{
    assert forall|i: int| 0 <= i < t.num_hashes implies #[trigger] bit_set_in(
        t.bits,
        probe(item, i, t.num_bits),
    ) by {
        lemma_index_in_words(probe(item, i, s.num_bits), s.num_bits as int);
    }
}

/// Law: an insertion keeps every item that was possibly present.
pub proof fn law_insert_keeps_members(
    s: SimdBloomView,
    t: SimdBloomView,
    item: (u64, u64),
    other: (u64, u64),
)
    requires
        well_sized(s),
        s.num_bits > 0,
        inserted(t, s, item),
        may_contain(s, other),
    ensures
        may_contain(t, other),
{
    assert forall|i: int| 0 <= i < t.num_hashes implies #[trigger] bit_set_in(
        t.bits,
        probe(other, i, t.num_bits),
    ) by {
        lemma_index_in_words(probe(other, i, s.num_bits), s.num_bits as int);
        assert(bit_set_in(s.bits, probe(other, i, s.num_bits)));
    }
}

/// Law: a serialized filter deserializes to the same filter.
pub proof fn law_serialization_roundtrip(v: SimdBloomView)
    requires
        well_sized(v),
    ensures
        decode_simd(encode_simd(v)) == Some(v),
{
    lemma_auto_spec_u64_to_from_le_bytes();
    lemma_words_le(v.bits);
    let b = encode_simd(v);
    assert(b.subrange(0, 8) =~= spec_u64_to_le_bytes(v.num_bits as u64));
    assert(b.subrange(8, 16) =~= spec_u64_to_le_bytes(v.num_hashes as u64));
    assert(b.subrange(16, 24) =~= spec_u64_to_le_bytes(v.count as u64));
    assert(b.subrange(24, 24 + 8 * v.bits.len() as int) =~= words_le(v.bits));
    lemma_read_words_le(b, 24, v.bits);
}

impl SimdBloomFilter {
    /// Internal consistency: the word count matches the bit count.
    pub open spec fn inv(&self) -> bool {
        well_sized(self@)
    }

    /// Creates an empty filter with `num_bits` bits and `num_hashes` probe hashes.
    pub fn from_parameters(num_bits: usize, num_hashes: usize) -> (r: Self)
        ensures
            r.inv(),
            r@.num_bits == num_bits,
            r@.num_hashes == num_hashes,
            r@.count == 0,
            forall|j: int| 0 <= j < 64 * r@.bits.len() ==> !bit_set_in(r@.bits, j),
    {
        let num_words = words_needed(num_bits);
        let bits: Vec<u64> = vec![0u64; num_words];
        let r = Self { bits, num_bits, num_hashes, count: 0 };
        proof {
            assert forall|j: int| 0 <= j < 64 * r@.bits.len() implies !bit_set_in(r@.bits, j) by {
                let b = (j % 64) as u64;
                assert(r@.bits[j / 64] == 0u64);
                assert(0u64 & (1u64 << b) == 0u64) by (bit_vector);
            }
        }
        r
    }

    /// Number of bits (the serialized header's first field).
    pub fn num_bits(&self) -> (r: usize)
        ensures
            r == self@.num_bits,
    {
        self.num_bits
    }

    /// Number of probe hashes.
    pub fn num_hashes(&self) -> (r: usize)
        ensures
            r == self@.num_hashes,
    {
        self.num_hashes
    }

    /// The base hashes of an item: std's default hasher with seeds 0 and 1.
    pub fn base_hashes(item: &[u8]) -> (r: (u64, u64))
        ensures
            r == base_hashes_of(item@),
    {
        (default_hash(item, 0), default_hash(item, 1))
    }

    /// Generate all probe hashes of base hashes `(h1, h2)` at once by double
    /// hashing: `h1 + i * h2`.
    fn hash_multiple(&self, h1: u64, h2: u64) -> (r: Vec<u64>)
        ensures
            r@.len() == self@.num_hashes,
            forall|i: int| 0 <= i < r@.len() ==> #[trigger] r@[i] == probe_hash((h1, h2), i),
    {
        let mut r: Vec<u64> = Vec::new();
        let k = self.num_hashes;
        let mut i: usize = 0;
        while i < k
            invariant
                i <= k,
                k == self@.num_hashes,
                r@.len() == i,
                forall|t: int| 0 <= t < i ==> #[trigger] r@[t] == probe_hash((h1, h2), t),
            decreases k - i,
        {
            r.push(h1.wrapping_add((i as u64).wrapping_mul(h2)));
            i = i + 1;
        }
        r
    }

    /// Insert an item given by its base hashes `(h1, h2)`.
    pub fn insert_hashes(&mut self, h1: u64, h2: u64)
        requires
            old(self).inv(),
            old(self)@.num_bits > 0,
            old(self)@.count < usize::MAX,
        ensures
            final(self).inv(),
            inserted(final(self)@, old(self)@, (h1, h2)),
    {
        let ghost s = self@;
        let ghost item = (h1, h2);
        let hashes = self.hash_multiple(h1, h2);
        let k = self.num_hashes;
        let mut i: usize = 0;
        while i < k
            invariant
                self.inv(),
                item == (h1, h2),
                self.num_bits == s.num_bits,
                self.num_hashes == s.num_hashes,
                self.count == s.count,
                k == s.num_hashes,
                hashes@.len() == k,
                forall|t: int| 0 <= t < k ==> #[trigger] hashes@[t] == probe_hash(item, t),
                s.num_bits > 0,
                well_sized(s),
                i <= k,
                self@.bits.len() == s.bits.len(),
                forall|j: int|
                    0 <= j < 64 * s.bits.len() ==> #[trigger] bit_set_in(self@.bits, j) == (bit_set_in(
                        s.bits,
                        j,
                    ) || exists|t: int| 0 <= t < i && j == #[trigger] probe(item, t, s.num_bits)),
            decreases k - i,
        {
            let bit_index = (hashes[i] % (self.num_bits as u64)) as usize;
            proof {
                assert(bit_index == probe(item, i as int, s.num_bits));
                lemma_index_in_words(bit_index as int, s.num_bits as int);
            }
            set_bit(&mut self.bits, bit_index);
            proof {
                assert forall|j: int| 0 <= j < 64 * s.bits.len() implies #[trigger] bit_set_in(
                    self@.bits,
                    j,
                ) == (bit_set_in(s.bits, j) || exists|t: int|
                    0 <= t < i + 1 && j == #[trigger] probe(item, t, s.num_bits)) by {
                    if j == bit_index {
                        assert(j == probe(item, i as int, s.num_bits));
                    }
                    if exists|t: int| 0 <= t < i + 1 && j == #[trigger] probe(item, t, s.num_bits) {
                        let t = choose|t: int| 0 <= t < i + 1 && j == #[trigger] probe(item, t, s.num_bits);
                        if t < i {
                            assert(exists|t: int| 0 <= t < i && j == #[trigger] probe(item, t, s.num_bits));
                        }
                    }
                }
            }
            i = i + 1;
        }
        self.count = self.count + 1;
    }

    /// Check whether an item given by its base hashes `(h1, h2)` might be in
    /// the set: `false` means definitely not, `true` means possibly.
    pub fn contains_hashes(&self, h1: u64, h2: u64) -> (r: bool)
        requires
            self.inv(),
            self@.num_bits > 0,
        ensures
            r == may_contain(self@, (h1, h2)),
    {
        let ghost item = (h1, h2);
        let hashes = self.hash_multiple(h1, h2);
        let k = self.num_hashes;
        let mut i: usize = 0;
        while i < k
            invariant
                self.inv(),
                item == (h1, h2),
                self@.num_bits > 0,
                k == self@.num_hashes,
                hashes@.len() == k,
                forall|t: int| 0 <= t < k ==> #[trigger] hashes@[t] == probe_hash(item, t),
                i <= k,
                forall|t: int| 0 <= t < i ==> #[trigger] bit_set_in(self@.bits, probe(item, t, self@.num_bits)),
            decreases k - i,
        {
            let bit_index = (hashes[i] % (self.num_bits as u64)) as usize;
            proof {
                assert(bit_index == probe(item, i as int, self@.num_bits));
                lemma_index_in_words(bit_index as int, self@.num_bits as int);
            }
            if !test_bit(&self.bits, bit_index) {
                return false;
            }
            i = i + 1;
        }
        true
    }

    /// Insert an item: the bits probed from its base hashes are set.
    pub fn insert(&mut self, item: &[u8])
        requires
            old(self).inv(),
            old(self)@.num_bits > 0,
            old(self)@.count < usize::MAX,
        ensures
            final(self).inv(),
            inserted(final(self)@, old(self)@, base_hashes_of(item@)),
    {
        let (h1, h2) = Self::base_hashes(item);
        self.insert_hashes(h1, h2);
    }

    /// Check if an item might be in the set: whether the bits probed from
    /// its base hashes are all set.
    pub fn contains(&self, item: &[u8]) -> (r: bool)
        requires
            self.inv(),
            self@.num_bits > 0,
        ensures
            r == may_contain(self@, base_hashes_of(item@)),
    {
        let (h1, h2) = Self::base_hashes(item);
        self.contains_hashes(h1, h2)
    }

    /// Get the number of elements inserted.
    pub fn len(&self) -> (r: usize)
        ensures
            r == self@.count,
    {
        self.count
    }

    /// Check if the bloom filter is empty.
    pub fn is_empty(&self) -> (r: bool)
        ensures
            r == (self@.count == 0),
    {
        self.count == 0
    }

    /// Get the size in bytes: the words plus the struct itself.
    pub fn size_bytes(&self) -> (r: usize)
        requires
            8 * self@.bits.len() + vstd::layout::size_of::<SimdBloomFilter>() <= usize::MAX,
        ensures
            r == 8 * self@.bits.len() + vstd::layout::size_of::<SimdBloomFilter>(),
    {
        self.bits.len() * 8 + core::mem::size_of::<SimdBloomFilter>()
    }

    /// Serialize to bytes.
    pub fn to_bytes(&self) -> (r: Vec<u8>)
        ensures
            r@ == encode_simd(self@),
    {
        let mut bytes: Vec<u8> = Vec::new();
        let a = u64_to_le_bytes(self.num_bits as u64);
        append_bytes(&mut bytes, a.as_slice());
        let b = u64_to_le_bytes(self.num_hashes as u64);
        append_bytes(&mut bytes, b.as_slice());
        let c = u64_to_le_bytes(self.count as u64);
        append_bytes(&mut bytes, c.as_slice());
        append_words(&mut bytes, self.bits.as_slice());
        proof {
            assert(bytes@ =~= encode_simd(self@));
        }
        bytes
    }

    /// Deserialize from bytes.
    ///
    /// Fails with "Insufficient bytes for header" below 24 bytes, and with an
    /// "Invalid byte length" message when the length does not match the header.
    pub fn from_bytes(bytes: &[u8]) -> (r: Result<Self, String>)
        ensures
            match r {
                Ok(f) => f.inv() && decode_simd(bytes@) == Some(f@),
                Err(e) => decode_simd(bytes@) is None && if bytes@.len() < 24 {
                    e@ == "Insufficient bytes for header"@
                } else {
                    e@ == length_error_text(expected_len(bytes@) as nat, bytes@.len())
                },
            },
    {
        if bytes.len() < 24 {
            return Err("Insufficient bytes for header".to_owned());
        }
        let num_bits = u64_from_le_bytes(slice_subrange(bytes, 0, 8)) as usize;
        let num_hashes = u64_from_le_bytes(slice_subrange(bytes, 8, 16)) as usize;
        let count = u64_from_le_bytes(slice_subrange(bytes, 16, 24)) as usize;
        let num_words = words_needed(num_bits);
        let expected: u128 = 24u128 + 8u128 * (num_words as u128);
        if bytes.len() as u128 != expected {
            return Err(length_error_message(expected, bytes.len()));
        }
        let bits = read_words_exec(bytes, 24, num_words);
        Ok(Self { bits, num_bits, num_hashes, count })
    }
}

} // verus!
