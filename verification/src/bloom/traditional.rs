//! Traditional bloom filter over a `Vec<bool>` bit array, kept as a
//! baseline for benchmarking the packed filters.

use vstd::prelude::*;
use crate::hashing::{default_hash, default_hash_of, xxhash64, xxhash64_of};

verus! {

/// Abstract state of the traditional filter.
pub struct TraditionalView {
    /// The bit array.
    pub bits: Seq<bool>,
    /// Number of hash functions.
    pub num_hashes: usize,
    /// Number of elements inserted.
    pub count: usize,
}

/// Hash `seed` of `item`: std's default hasher for even seeds, XxHash64 for odd ones.
pub open spec fn seeded_hash(item: Seq<u8>, seed: int) -> u64 {
    if seed % 2 == 0 {
        default_hash_of(item, seed as u64)
    } else {
        xxhash64_of(item, seed as u64)
    }
}

/// The `k` hashes of `item`, one per seed.
pub open spec fn hashes_of(item: Seq<u8>, k: int) -> Seq<u64> {
    Seq::new(k as nat, |i: int| seeded_hash(item, i))
}

/// Bit probed by hash `i` of the hashes `hs`.
pub open spec fn probe(hs: Seq<u64>, i: int, num_bits: int) -> int {
    (hs[i] % (num_bits as u64)) as int
}

/// Whether every bit probed by the hashes `hs` is set.
pub open spec fn may_contain(v: TraditionalView, hs: Seq<u64>) -> bool {
    forall|i: int| 0 <= i < v.num_hashes ==> #[trigger] v.bits[probe(hs, i, v.bits.len() as int)]
}

/// Whether `t` is `s` after inserting an item with hashes `hs`.
pub open spec fn inserted(t: TraditionalView, s: TraditionalView, hs: Seq<u64>) -> bool {
    &&& t.bits.len() == s.bits.len()
    &&& t.num_hashes == s.num_hashes
    &&& t.count == s.count + 1
    &&& forall|j: int|
        0 <= j < s.bits.len() ==> #[trigger] t.bits[j] == (s.bits[j] || exists|i: int|
            0 <= i < s.num_hashes && j == #[trigger] probe(hs, i, s.bits.len() as int))
}

/// Traditional bloom filter with one `bool` per bit.
pub struct BloomFilter {
    bits: Vec<bool>,
    num_hashes: usize,
    count: usize,
}

impl View for BloomFilter {
    type V = TraditionalView;

    closed spec fn view(&self) -> TraditionalView {
        TraditionalView { bits: self.bits@, num_hashes: self.num_hashes, count: self.count }
    }
}

/// Law: an inserted item is always reported as possibly present.
pub proof fn law_no_false_negatives(s: TraditionalView, t: TraditionalView, item: Seq<u64>)
    requires
        0 < s.bits.len() <= usize::MAX,
        inserted(t, s, item),
    ensures
        may_contain(t, item),
{
    assert forall|i: int| 0 <= i < t.num_hashes implies #[trigger] t.bits[probe(
        item,
        i,
        t.bits.len() as int,
    )] by {
        let j = probe(item, i, s.bits.len() as int);
        assert(0 <= j < s.bits.len());
    }
}

impl BloomFilter {
    /// Creates an empty filter with `num_bits` bits and `num_hashes` hash
    /// functions (at least one).
    pub fn from_parameters(num_bits: usize, num_hashes: usize) -> (r: Self)
        ensures
            r@.bits.len() == num_bits,
            forall|j: int| 0 <= j < num_bits ==> !#[trigger] r@.bits[j],
            r@.num_hashes == if num_hashes > 1 {
                num_hashes
            } else {
                1
            },
            r@.count == 0,
    {
        let bits: Vec<bool> = vec![false; num_bits];
        Self {
            bits,
            num_hashes: if num_hashes > 1 {
                num_hashes
            } else {
                1
            },
            count: 0,
        }
    }

    /// The hashes of an item, one per seed: std's default hasher for even
    /// seeds, XxHash64 for odd ones.
    pub fn item_hashes(&self, item: &[u8]) -> (r: Vec<u64>)
        ensures
            r@ == hashes_of(item@, self@.num_hashes as int),
    {
        let k = self.num_hashes;
        let mut r: Vec<u64> = Vec::new();
        let mut i: usize = 0;
        while i < k
            invariant
                k == self@.num_hashes,
                i <= k,
                r@.len() == i,
                forall|t: int| 0 <= t < i ==> #[trigger] r@[t] == seeded_hash(item@, t),
            decreases k - i,
        {
            let h = if i % 2 == 0 {
                default_hash(item, i as u64)
            } else {
                xxhash64(item, i as u64)
            };
            r.push(h);
            i = i + 1;
        }
        proof {
            assert(r@ =~= hashes_of(item@, k as int));
        }
        r
    }

    /// Insert an item given by its hashes (one per hash function).
    pub fn insert_hashes(&mut self, hs: &[u64])
        requires
            old(self)@.bits.len() > 0,
            old(self)@.count < usize::MAX,
            hs@.len() == old(self)@.num_hashes,
        ensures
            inserted(final(self)@, old(self)@, hs@),
    {
        let ghost s = self@;
        let k = self.num_hashes;
        let n = self.bits.len();
        let mut i: usize = 0;
        while i < k
            invariant
                k == s.num_hashes,
                hs@.len() == k,
                n == s.bits.len(),
                n > 0,
                self.num_hashes == s.num_hashes,
                self.count == s.count,
                i <= k,
                self@.bits.len() == n,
                forall|j: int|
                    0 <= j < n ==> #[trigger] self@.bits[j] == (s.bits[j] || exists|t: int|
                        0 <= t < i && j == #[trigger] probe(hs@, t, n as int)),
            decreases k - i,
        {
            let index = (hs[i] % (n as u64)) as usize;
            self.bits.set(index, true);
            proof {
                assert forall|j: int| 0 <= j < n implies #[trigger] self@.bits[j] == (s.bits[j] || exists|t: int|
                    0 <= t < i + 1 && j == #[trigger] probe(hs@, t, n as int)) by {
                    if j == index {
                        assert(j == probe(hs@, i as int, n as int));
                    }
                    if exists|t: int| 0 <= t < i + 1 && j == #[trigger] probe(hs@, t, n as int) {
                        let t = choose|t: int| 0 <= t < i + 1 && j == #[trigger] probe(hs@, t, n as int);
                        if t < i {
                            assert(exists|t: int| 0 <= t < i && j == #[trigger] probe(hs@, t, n as int));
                        }
                    }
                }
            }
            i = i + 1;
        }
        self.count = self.count + 1;
    }

    /// Check whether an item given by its hashes might be in the set.
    pub fn contains_hashes(&self, hs: &[u64]) -> (r: bool)
        requires
            self@.bits.len() > 0,
            hs@.len() == self@.num_hashes,
        ensures
            r == may_contain(self@, hs@),
    {
        let k = self.num_hashes;
        let n = self.bits.len();
        let mut i: usize = 0;
        while i < k
            invariant
                k == self@.num_hashes,
                hs@.len() == k,
                n == self@.bits.len(),
                n > 0,
                i <= k,
                forall|t: int| 0 <= t < i ==> #[trigger] self@.bits[probe(hs@, t, n as int)],
            decreases k - i,
        {
            let index = (hs[i] % (n as u64)) as usize;
            if !self.bits[index] {
                proof {
                    assert(!self@.bits[probe(hs@, i as int, n as int)]);
                }
                return false;
            }
            i = i + 1;
        }
        true
    }

    /// Insert an element: the bits probed by its hashes are set.
    pub fn insert(&mut self, item: &[u8])
        requires
            old(self)@.bits.len() > 0,
            old(self)@.count < usize::MAX,
        ensures
            inserted(final(self)@, old(self)@, hashes_of(item@, old(self)@.num_hashes as int)),
    {
        let hs = self.item_hashes(item);
        self.insert_hashes(hs.as_slice());
    }

    /// Check if an element might be in the set: whether the bits probed by
    /// its hashes are all set.
    pub fn contains(&self, item: &[u8]) -> (r: bool)
        requires
            self@.bits.len() > 0,
        ensures
            r == may_contain(self@, hashes_of(item@, self@.num_hashes as int)),
    {
        let hs = self.item_hashes(item);
        self.contains_hashes(hs.as_slice())
    }

    /// Number of bits in the filter.
    pub fn num_bits(&self) -> (r: usize)
        ensures
            r == self@.bits.len(),
    {
        self.bits.len()
    }

    /// Number of hash functions.
    pub fn num_hashes(&self) -> (r: usize)
        ensures
            r == self@.num_hashes,
    {
        self.num_hashes
    }

    /// Get the number of elements inserted.
    pub fn len(&self) -> (r: usize)
        ensures
            r == self@.count,
    {
        self.count
    }

    /// Check if the bloom filter is empty.
    pub fn is_empty(&self) -> (r: bool)
        ensures
            r == (self@.count == 0),
    {
        self.count == 0
    }

    /// Get the size in bytes: one bit per entry, rounded up, plus the struct.
    pub fn size_bytes(&self) -> (r: usize)
        requires
            (self@.bits.len() + 7) / 8 + vstd::layout::size_of::<BloomFilter>() <= usize::MAX,
        ensures
            r == (self@.bits.len() + 7) / 8 + vstd::layout::size_of::<BloomFilter>(),
    {
        self.bits.len() / 8 + (if self.bits.len() % 8 != 0 {
            1
        } else {
            0
        }) + core::mem::size_of::<BloomFilter>()
    }
}

} // verus!
