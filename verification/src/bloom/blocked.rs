//! Blocked bloom filter with cache-line-sized blocks.
//!
//! All probes for one key fall in a single 512-bit block (one cache line),
//! chosen by one hash; the bits within the block come from a second hash by
//! enhanced double hashing.

use vstd::prelude::*;
use vstd::bytes::{
    spec_u64_to_le_bytes, spec_u64_from_le_bytes, spec_u32_to_le_bytes, spec_u32_from_le_bytes,
    u64_to_le_bytes, u64_from_le_bytes, u32_to_le_bytes, u32_from_le_bytes,
    lemma_auto_spec_u64_to_from_le_bytes, lemma_auto_spec_u32_to_from_le_bytes,
};
use vstd::slice::slice_subrange;
use crate::hashing::{xxhash64, xxhash64_of};
use crate::codec::append_bytes;
use crate::bloom::bits::{word_bit, lemma_or_bit, words_le, read_words, lemma_words_le, lemma_read_words_le, append_words};

verus! {

/// Cache line size in bytes.
pub const CACHE_LINE_BYTES: usize = 64;

/// Bits per cache line.
pub const CACHE_LINE_BITS: usize = 512;

/// u64 words per cache line.
pub const WORDS_PER_BLOCK: usize = 8;

/// Abstract state of a blocked bloom filter.
pub struct BlockedView {
    /// The blocks, each as its 8 words.
    pub blocks: Seq<Seq<u64>>,
    /// Number of blocks.
    pub num_blocks: usize,
    /// Number of hash functions.
    pub num_hashes: usize,
    /// Number of elements inserted.
    pub count: usize,
}

/// Whether bit `b` (0..512) of a block is set.
pub open spec fn block_bit(block: Seq<u64>, b: int) -> bool {
    word_bit(block[b / 64], b % 64)
}

/// Block that holds all the probes of `item`.
pub open spec fn block_of(item: Seq<u8>, num_blocks: usize) -> int {
    (xxhash64_of(item, 0) % (num_blocks as u64)) as int
}

/// Bit within a block for hash function `n`, from the block hash `h`.
pub open spec fn bit_in_block(h: u64, n: int) -> int {
    (vstd::wrapping::u64_specs::wrapping_add(
        h,
        vstd::wrapping::u64_specs::wrapping_mul(n as u64, h >> 32u64),
    ) % 512) as int
}

/// Bit within `item`'s block probed by hash function `n`.
pub open spec fn probe_bit(item: Seq<u8>, n: int) -> int {
    bit_in_block(xxhash64_of(item, 1), n)
}

/// Whether the filter's blocks are well-formed.
pub open spec fn well_formed(v: BlockedView) -> bool {
    &&& v.blocks.len() == v.num_blocks
    &&& forall|b: int| 0 <= b < v.blocks.len() ==> (#[trigger] v.blocks[b]).len() == 8
}

/// Whether every probed bit of `item` is set: the item is possibly in the set.
pub open spec fn may_contain(v: BlockedView, item: Seq<u8>) -> bool {
    forall|n: int|
        0 <= n < v.num_hashes ==> #[trigger] block_bit(
            v.blocks[block_of(item, v.num_blocks)],
            probe_bit(item, n),
        )
}

/// Whether `t` is `s` after inserting `item`: the probed bits in `item`'s
/// block are set, every other bit is kept, and the count grows by one.
pub open spec fn inserted(t: BlockedView, s: BlockedView, item: Seq<u8>) -> bool {
    &&& t.blocks.len() == s.blocks.len()
    &&& t.num_blocks == s.num_blocks
    &&& t.num_hashes == s.num_hashes
    &&& t.count == s.count + 1
    &&& forall|b: int| 0 <= b < t.blocks.len() ==> (#[trigger] t.blocks[b]).len() == s.blocks[b].len()
    &&& forall|b: int, x: int|
        0 <= b < s.blocks.len() && 0 <= x < 512 ==> #[trigger] block_bit(t.blocks[b], x) == (block_bit(
            s.blocks[b],
            x,
        ) || (b == block_of(item, s.num_blocks) && exists|n: int|
            0 <= n < s.num_hashes && x == #[trigger] probe_bit(item, n)))
}

/// All words of the blocks, block after block.
pub open spec fn flat_words(blocks: Seq<Seq<u64>>) -> Seq<u64>
    decreases blocks.len(),
{
    if blocks.len() == 0 {
        Seq::empty()
    } else {
        flat_words(blocks.drop_last()) + blocks.last()
    }
}

/// Serialized form: block count (u64 LE), hash count (u32 LE), element count
/// (u64 LE), then every block's 8 words (u64 LE each).
pub open spec fn encode_blocked(v: BlockedView) -> Seq<u8> {
    spec_u64_to_le_bytes(v.num_blocks as u64) + spec_u32_to_le_bytes(v.num_hashes as u32)
        + spec_u64_to_le_bytes(v.count as u64) + words_le(flat_words(v.blocks))
}

/// What deserializing `b` yields: `None` if the header is short or the
/// length does not match the block count.
pub open spec fn decode_blocked(b: Seq<u8>) -> Option<BlockedView> {
    if b.len() < 20 {
        None
    } else {
        let num_blocks = spec_u64_from_le_bytes(b.subrange(0, 8)) as usize;
        let num_hashes = spec_u32_from_le_bytes(b.subrange(8, 12)) as usize;
        let count = spec_u64_from_le_bytes(b.subrange(12, 20)) as usize;
        if b.len() != 20 + 64 * num_blocks {
            None
        } else {
            Some(
                BlockedView {
                    blocks: Seq::new(num_blocks as nat, |i: int| read_words(b, 20 + 64 * i, 8)),
                    num_blocks,
                    num_hashes,
                    count,
                },
            )
        }
    }
}

/// Blocked bloom filter optimized for cache locality.
pub struct BlockedBloomFilter {
    blocks: Vec<[u64; 8]>,
    num_blocks: usize,
    num_hashes: usize,
    count: usize,
}

impl View for BlockedBloomFilter {
    type V = BlockedView;

    closed spec fn view(&self) -> BlockedView {
        BlockedView {
            blocks: self.blocks@.map_values(|b: [u64; 8]| b@),
            num_blocks: self.num_blocks,
            num_hashes: self.num_hashes,
            count: self.count,
        }
    }
}

/// Lemma: the flattened words have 8 per block, block `i` in words `8i..8i+8`.
pub proof fn lemma_flat_words(blocks: Seq<Seq<u64>>)
    requires
        forall|b: int| 0 <= b < blocks.len() ==> (#[trigger] blocks[b]).len() == 8,
    ensures
        flat_words(blocks).len() == 8 * blocks.len(),
        forall|i: int|
            0 <= i < blocks.len() ==> #[trigger] flat_words(blocks).subrange(8 * i, 8 * i + 8)
                == blocks[i],
    decreases blocks.len(),
{
    if blocks.len() > 0 {
        let init = blocks.drop_last();
        lemma_flat_words(init);
        assert forall|i: int| 0 <= i < blocks.len() implies #[trigger] flat_words(blocks).subrange(
            8 * i,
            8 * i + 8,
        ) == blocks[i] by {
            if i < init.len() {
                assert(flat_words(blocks).subrange(8 * i, 8 * i + 8) =~= flat_words(init).subrange(
                    8 * i,
                    8 * i + 8,
                ));
            } else {
                assert(flat_words(blocks).subrange(8 * i, 8 * i + 8) =~= blocks.last());
            }
        }
    }
}

/// Law: an inserted item is always reported as possibly present.
pub proof fn law_no_false_negatives(s: BlockedView, t: BlockedView, item: Seq<u8>)
    requires
        well_formed(s),
        s.num_blocks > 0,
        inserted(t, s, item),
    ensures
        may_contain(t, item),
{
    let b = block_of(item, s.num_blocks);
    assert forall|n: int| 0 <= n < t.num_hashes implies #[trigger] block_bit(
        t.blocks[block_of(item, t.num_blocks)],
        probe_bit(item, n),
    ) by {
        let x = probe_bit(item, n);
        assert(block_bit(t.blocks[b], x));
    }
}

/// Law: an insertion keeps every item that was possibly present.
pub proof fn law_insert_keeps_members(s: BlockedView, t: BlockedView, item: Seq<u8>, other: Seq<u8>)
    requires
        well_formed(s),
        s.num_blocks > 0,
        inserted(t, s, item),
        may_contain(s, other),
    ensures
        may_contain(t, other),
{
    let b = block_of(other, s.num_blocks);
    assert forall|n: int| 0 <= n < t.num_hashes implies #[trigger] block_bit(
        t.blocks[block_of(other, t.num_blocks)],
        probe_bit(other, n),
    ) by {
        let x = probe_bit(other, n);
        assert(block_bit(s.blocks[b], x));
        assert(block_bit(t.blocks[b], x));
    }
}

/// Law: a serialized filter deserializes to the same filter (when its hash
/// count fits the 32-bit field).
pub proof fn law_serialization_roundtrip(v: BlockedView)
    requires
        well_formed(v),
        v.num_hashes <= u32::MAX,
    ensures
        decode_blocked(encode_blocked(v)) == Some(v),
{
    lemma_auto_spec_u64_to_from_le_bytes();
    lemma_auto_spec_u32_to_from_le_bytes();
    let ws = flat_words(v.blocks);
    lemma_flat_words(v.blocks);
    lemma_words_le(ws);
    let b = encode_blocked(v);
    assert(b.subrange(0, 8) =~= spec_u64_to_le_bytes(v.num_blocks as u64));
    assert(b.subrange(8, 12) =~= spec_u32_to_le_bytes(v.num_hashes as u32));
    assert(b.subrange(12, 20) =~= spec_u64_to_le_bytes(v.count as u64));
    assert(b.subrange(20, 20 + 8 * ws.len() as int) =~= words_le(ws));
    lemma_read_words_le(b, 20, ws);
    let d = decode_blocked(b).unwrap();
    assert forall|i: int| 0 <= i < v.num_blocks implies d.blocks[i] == v.blocks[i] by {
        assert forall|w: int| 0 <= w < 8 implies read_words(b, 20 + 64 * i, 8)[w] == v.blocks[i][w] by {
            assert(read_words(b, 20, ws.len() as int)[8 * i + w] == ws[8 * i + w]);
            assert(ws.subrange(8 * i, 8 * i + 8)[w] == ws[8 * i + w]);
            assert(20 + 64 * i + 8 * w == 20 + 8 * (8 * i + w));
        }
        assert(d.blocks[i] =~= v.blocks[i]);
    }
    assert(d.blocks =~= v.blocks);
}

/// Sets bit `bit` (0..512) of a block.
fn set_block_bit(block: &mut [u64; 8], bit: usize)
    requires
        bit < 512,
    ensures
        forall|x: int|
            0 <= x < 512 ==> #[trigger] block_bit(final(block)@, x) == (block_bit(old(block)@, x) || x
                == bit),
{
    let w = bit / 64;
    let o = bit % 64;
    block[w] = block[w] | (1u64 << (o as u64));
    proof {
        assert forall|x: int| 0 <= x < 512 implies #[trigger] block_bit(block@, x) == (block_bit(
            old(block)@,
            x,
        ) || x == bit) by {
            if x / 64 == w as int {
                lemma_or_bit(old(block)@[w as int], o as u64, (x % 64) as u64);
            }
        }
    }
}

impl BlockedBloomFilter {
    /// Internal consistency: one block per counted block.
    pub open spec fn inv(&self) -> bool {
        well_formed(self@)
    }

    /// Creates an empty filter with enough 512-bit blocks for `num_bits` bits
    /// and `num_hashes` hash functions, clamped to 1..=512.
    pub fn from_parameters(num_bits: usize, num_hashes: usize) -> (r: Self)
        ensures
            r.inv(),
            r@.num_blocks == (num_bits + 511) / 512,
            r@.num_hashes == if num_hashes < 1 {
                1
            } else if num_hashes > 512 {
                512
            } else {
                num_hashes
            },
            r@.count == 0,
            forall|b: int, x: int|
                0 <= b < r@.num_blocks && 0 <= x < 512 ==> !#[trigger] block_bit(r@.blocks[b], x),
    {
        let num_blocks = num_bits / 512 + if num_bits % 512 != 0 {
            1
        } else {
            0
        };
        let mut blocks: Vec<[u64; 8]> = Vec::new();
        let mut i: usize = 0;
        while i < num_blocks
            invariant
                i <= num_blocks,
                blocks@.len() == i,
                forall|b: int, w: int| 0 <= b < i && 0 <= w < 8 ==> #[trigger] blocks@[b]@[w] == 0u64,
            decreases num_blocks - i,
        {
            let z: [u64; 8] = [0u64; 8];
            proof {
                assert forall|w: int| 0 <= w < 8 implies z@[w] == 0u64 by {
                }
            }
            blocks.push(z);
            i = i + 1;
        }
        let num_hashes = if num_hashes < 1 {
            1
        } else if num_hashes > 512 {
            512
        } else {
            num_hashes
        };
        let r = Self { blocks, num_blocks, num_hashes, count: 0 };
        proof {
            assert forall|b: int, x: int| 0 <= b < r@.num_blocks && 0 <= x < 512 implies !#[trigger] block_bit(
                r@.blocks[b],
                x,
            ) by {
                assert(r@.blocks[b] == blocks@[b]@);
                assert(blocks@[b]@[x / 64] == 0u64);
                let o = (x % 64) as u64;
                assert(0u64 & (1u64 << o) == 0u64) by (bit_vector);
            }
        }
        r
    }

    /// Hash an item to its block index and the secondary hash for bits within the block.
    fn hash_to_block(&self, item: &[u8]) -> (r: (usize, u64))
        requires
            self@.num_blocks > 0,
        ensures
            r.0 == block_of(item@, self@.num_blocks),
            r.0 < self@.num_blocks,
            r.1 == xxhash64_of(item@, 1),
    {
        let h1 = xxhash64(item, 0);
        let h2 = xxhash64(item, 1);
        let block_index = (h1 % (self.num_blocks as u64)) as usize;
        (block_index, h2)
    }

    /// The `n`th bit position within a block (enhanced double hashing).
    fn nth_bit_in_block(block_hash: u64, n: usize) -> (r: usize)
        ensures
            r == bit_in_block(block_hash, n as int),
            r < 512,
    {
        let h = block_hash.wrapping_add((n as u64).wrapping_mul(block_hash >> 32));
        (h % 512) as usize
    }

    /// Insert an element into the blocked bloom filter.
    pub fn insert(&mut self, item: &[u8])
        requires
            old(self).inv(),
            old(self)@.num_blocks > 0,
            old(self)@.count < usize::MAX,
        ensures
            final(self).inv(),
            inserted(final(self)@, old(self)@, item@),
    {
        let ghost s = self@;
        let (block_index, block_hash) = self.hash_to_block(item);
        let mut block = self.blocks[block_index];
        let ghost orig = block@;
        let k = self.num_hashes;
        let mut i: usize = 0;
        while i < k
            invariant
                i <= k,
                k == s.num_hashes,
                block_hash == xxhash64_of(item@, 1),
                forall|x: int|
                    0 <= x < 512 ==> #[trigger] block_bit(block@, x) == (block_bit(orig, x) || exists|n: int|
                        0 <= n < i && x == #[trigger] probe_bit(item@, n)),
            decreases k - i,
        {
            let bit = Self::nth_bit_in_block(block_hash, i);
            set_block_bit(&mut block, bit);
            proof {
                assert forall|x: int| 0 <= x < 512 implies #[trigger] block_bit(block@, x) == (block_bit(
                    orig,
                    x,
                ) || exists|n: int| 0 <= n < i + 1 && x == #[trigger] probe_bit(item@, n)) by {
                    if x == bit {
                        assert(x == probe_bit(item@, i as int));
                    }
                    if exists|n: int| 0 <= n < i + 1 && x == #[trigger] probe_bit(item@, n) {
                        let n = choose|n: int| 0 <= n < i + 1 && x == #[trigger] probe_bit(item@, n);
                        if n < i {
                            assert(exists|n: int| 0 <= n < i && x == #[trigger] probe_bit(item@, n));
                        }
                    }
                }
            }
            i = i + 1;
        }
        self.blocks.set(block_index, block);
        self.count = self.count + 1;
        proof {
            assert(orig == s.blocks[block_index as int]);
            assert forall|b: int| 0 <= b < self@.blocks.len() implies (#[trigger] self@.blocks[b]).len()
                == s.blocks[b].len() by {
            }
        }
    }

    /// Check if an element might be in the set: `false` means definitely not
    /// in the set, `true` means possibly in the set.
    pub fn contains(&self, item: &[u8]) -> (r: bool)
        requires
            self.inv(),
            self@.num_blocks > 0,
        ensures
            r == may_contain(self@, item@),
    {
        let (block_index, block_hash) = self.hash_to_block(item);
        let block = &self.blocks[block_index];
        let k = self.num_hashes;
        let mut i: usize = 0;
        while i < k
            invariant
                self.inv(),
                self@.num_blocks > 0,
                k == self@.num_hashes,
                i <= k,
                block_index == block_of(item@, self@.num_blocks),
                block_index < self@.num_blocks,
                block@ == self@.blocks[block_index as int],
                block_hash == xxhash64_of(item@, 1),
                forall|n: int|
                    0 <= n < i ==> #[trigger] block_bit(
                        self@.blocks[block_of(item@, self@.num_blocks)],
                        probe_bit(item@, n),
                    ),
            decreases k - i,
        {
            let bit_index = Self::nth_bit_in_block(block_hash, i);
            let word_index = bit_index / 64;
            let bit_offset = bit_index % 64;
            if (block[word_index] & (1u64 << (bit_offset as u64))) == 0 {
                proof {
                    assert(!block_bit(self@.blocks[block_of(item@, self@.num_blocks)], probe_bit(item@, i as int)));
                }
                return false;
            }
            i = i + 1;
        }
        true
    }

    /// Number of 512-bit blocks.
    pub fn num_blocks(&self) -> (r: usize)
        ensures
            r == self@.num_blocks,
    {
        self.num_blocks
    }

    /// Number of hash functions.
    pub fn num_hashes(&self) -> (r: usize)
        ensures
            r == self@.num_hashes,
    {
        self.num_hashes
    }

    /// Get the number of elements inserted.
    pub fn len(&self) -> (r: usize)
        ensures
            r == self@.count,
    {
        self.count
    }

    /// Check if the bloom filter is empty.
    pub fn is_empty(&self) -> (r: bool)
        ensures
            r == (self@.count == 0),
    {
        self.count == 0
    }

    /// Get the size in bytes: the blocks plus the struct itself.
    pub fn size_bytes(&self) -> (r: usize)
        requires
            64 * self@.blocks.len() + vstd::layout::size_of::<BlockedBloomFilter>() <= usize::MAX,
        ensures
            r == 64 * self@.blocks.len() + vstd::layout::size_of::<BlockedBloomFilter>(),
    {
        self.blocks.len() * CACHE_LINE_BYTES + core::mem::size_of::<BlockedBloomFilter>()
    }

    /// Serialize the blocked bloom filter to bytes.
    pub fn to_bytes(&self) -> (r: Vec<u8>)
        ensures
            r@ == encode_blocked(self@),
    {
        let ghost blocks = self@.blocks;
        let mut bytes: Vec<u8> = Vec::new();
        let a = u64_to_le_bytes(self.num_blocks as u64);
        append_bytes(&mut bytes, a.as_slice());
        let b = u32_to_le_bytes(self.num_hashes as u32);
        append_bytes(&mut bytes, b.as_slice());
        let c = u64_to_le_bytes(self.count as u64);
        append_bytes(&mut bytes, c.as_slice());
        let ghost header = bytes@;
        let n = self.blocks.len();
        let mut i: usize = 0;
        proof {
            assert(blocks.take(0) =~= Seq::<Seq<u64>>::empty());
            assert(header + words_le(Seq::<u64>::empty()) =~= header);
        }
        while i < n
            invariant
                blocks == self@.blocks,
                n == blocks.len(),
                i <= n,
                bytes@ == header + words_le(flat_words(blocks.take(i as int))),
            decreases n - i,
        {
            let ghost before = bytes@;
            append_words(&mut bytes, self.blocks[i].as_slice());
            proof {
                let prev = blocks.take(i as int);
                let next = blocks.take(i + 1);
                assert(next.drop_last() =~= prev);
                assert(next.last() == self.blocks@[i as int]@);
                lemma_words_le_concat(flat_words(prev), self.blocks@[i as int]@);
                assert(bytes@ =~= header + words_le(flat_words(next)));
            }
            i = i + 1;
        }
        proof {
            assert(blocks.take(n as int) =~= blocks);
            assert(bytes@ =~= encode_blocked(self@));
        }
        bytes
    }

    /// Deserialize a blocked bloom filter from bytes.
    pub fn from_bytes(bytes: &[u8]) -> (r: Option<Self>)
        ensures
            match r {
                Some(f) => f.inv() && decode_blocked(bytes@) == Some(f@),
                None => decode_blocked(bytes@) is None,
            },
    {
        if bytes.len() < 20 {
            return None;
        }
        let num_blocks = u64_from_le_bytes(slice_subrange(bytes, 0, 8)) as usize;
        let num_hashes = u32_from_le_bytes(slice_subrange(bytes, 8, 12)) as usize;
        let count = u64_from_le_bytes(slice_subrange(bytes, 12, 20)) as usize;
        let expected_len: u128 = 20u128 + 64u128 * (num_blocks as u128);
        if bytes.len() as u128 != expected_len {
            return None;
        }
        let ghost target = Seq::new(num_blocks as nat, |i: int| read_words(bytes@, 20 + 64 * i, 8));
        let mut blocks: Vec<[u64; 8]> = Vec::new();
        let mut bi: usize = 0;
        let blen = bytes.len();
        while bi < num_blocks
            invariant
                blen == bytes@.len(),
                bi <= num_blocks,
                bytes@.len() == 20 + 64 * num_blocks,
                target == Seq::new(num_blocks as nat, |i: int| read_words(bytes@, 20 + 64 * i, 8)),
                blocks@.len() == bi,
                forall|b: int| 0 <= b < bi ==> (#[trigger] blocks@[b])@ == target[b],
            decreases num_blocks - bi,
        {
            let mut block: [u64; 8] = [0u64; 8];
            let mut w: usize = 0;
            proof {
                assert(64 * bi + 64 <= 64 * num_blocks) by (nonlinear_arith)
                    requires
                        bi < num_blocks,
                ;
            }
            let base = 20 + 64 * bi;
            while w < 8
                invariant
                    blen == bytes@.len(),
                    w <= 8,
                    base == 20 + 64 * bi,
                    base + 64 <= bytes@.len(),
                    forall|x: int|
                        0 <= x < w ==> block@[x] == spec_u64_from_le_bytes(
                            bytes@.subrange(base + 8 * x, base + 8 * x + 8),
                        ),
                decreases 8 - w,
            {
                let off = base + 8 * w;
                block[w] = u64_from_le_bytes(slice_subrange(bytes, off, off + 8));
                w = w + 1;
            }
            blocks.push(block);
            proof {
                assert(block@ =~= read_words(bytes@, 20 + 64 * bi, 8));
            }
            bi = bi + 1;
        }
        let r = Self { blocks, num_blocks, num_hashes, count };
        proof {
            assert(r@.blocks =~= target);
        }
        Some(r)
    }
}

/// Lemma: encoding two runs of words is encoding their concatenation.
pub proof fn lemma_words_le_concat(a: Seq<u64>, b: Seq<u64>)
    ensures
        words_le(a + b) == words_le(a) + words_le(b),
    decreases b.len(),
{
    if b.len() == 0 {
        assert(a + b =~= a);
        assert(words_le(a) + words_le(b) =~= words_le(a));
    } else {
        lemma_words_le_concat(a, b.drop_last());
        assert((a + b).drop_last() =~= a + b.drop_last());
        assert((a + b).last() == b.last());
        assert(words_le(a + b) =~= words_le(a) + words_le(b));
    }
}

} // verus!
