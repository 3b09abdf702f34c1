//! Bit arrays packed into 64-bit words, and their little-endian encoding.

use vstd::prelude::*;
use vstd::bytes::{
    spec_u64_to_le_bytes, spec_u64_from_le_bytes, u64_to_le_bytes, u64_from_le_bytes,
    lemma_auto_spec_u64_to_from_le_bytes,
};
use vstd::slice::slice_subrange;
use crate::codec::append_bytes;

verus! {

/// Whether bit `b` (0..64) of word `w` is set.
pub open spec fn word_bit(w: u64, b: int) -> bool {
    w & (1u64 << (b as u64)) != 0
}

/// Whether bit `idx` of a packed bit array is set.
pub open spec fn bit_set_in(words: Seq<u64>, idx: int) -> bool {
    word_bit(words[idx / 64], idx % 64)
}

/// Number of 64-bit words needed for `n` bits.
pub open spec fn words_for_bits(n: int) -> int {
    (n + 63) / 64
}

/// Lemma: or-ing in bit `b` sets bit `b` and keeps every other bit.
pub proof fn lemma_or_bit(w: u64, b: u64, c: u64)
    requires
        b < 64,
        c < 64,
    ensures
        (w | (1u64 << b)) & (1u64 << c) != 0 <==> (w & (1u64 << c) != 0 || b == c),
{
    assert((w | (1u64 << b)) & (1u64 << c) != 0 <==> (w & (1u64 << c) != 0 || b == c))
        by (bit_vector)
        requires
            b < 64,
            c < 64,
    ;
}

/// Lemma: a bit index below `64 * len` falls in one of the `len` words.
pub proof fn lemma_word_in_range(idx: int, len: int)
    requires
        0 <= idx < 64 * len,
    ensures
        0 <= idx / 64 < len,
        0 <= idx % 64 < 64,
{
}

/// Lemma: a bit index below `n` falls within the words that hold `n` bits.
pub proof fn lemma_index_in_words(idx: int, n: int)
    requires
        0 <= idx < n,
    ensures
        idx < 64 * words_for_bits(n),
        0 <= idx / 64 < words_for_bits(n),
{
}

/// Sets bit `idx` of the packed bit array.
pub fn set_bit(words: &mut Vec<u64>, idx: usize)
    requires
        idx < 64 * old(words)@.len(),
    ensures
        final(words)@.len() == old(words)@.len(),
        forall|j: int|
            0 <= j < 64 * old(words)@.len() ==> #[trigger] bit_set_in(final(words)@, j) == (bit_set_in(
                old(words)@,
                j,
            ) || j == idx),
{
    proof {
        lemma_word_in_range(idx as int, old(words)@.len() as int);
    }
    let w = idx / 64;
    let b = idx % 64;
    let new_word = words[w] | (1u64 << (b as u64));
    words.set(w, new_word);
    proof {
        assert forall|j: int| 0 <= j < 64 * old(words)@.len() implies #[trigger] bit_set_in(words@, j) == (
        bit_set_in(old(words)@, j) || j == idx) by {
            lemma_word_in_range(j, old(words)@.len() as int);
            if j / 64 == w as int {
                lemma_or_bit(old(words)@[w as int], b as u64, (j % 64) as u64);
            }
        }
    }
}

/// Whether bit `idx` of the packed bit array is set.
pub fn test_bit(words: &Vec<u64>, idx: usize) -> (r: bool)
    requires
        idx < 64 * words@.len(),
    ensures
        r == bit_set_in(words@, idx as int),
{
    proof {
        lemma_word_in_range(idx as int, words@.len() as int);
    }
    (words[idx / 64] & (1u64 << ((idx % 64) as u64))) != 0
}

/// Little-endian encoding of a sequence of words, one after the other.
pub open spec fn words_le(ws: Seq<u64>) -> Seq<u8>
    decreases ws.len(),
{
    if ws.len() == 0 {
        Seq::empty()
    } else {
        words_le(ws.drop_last()) + spec_u64_to_le_bytes(ws.last())
    }
}

/// The words read back from `n` consecutive 8-byte groups starting at `start`.
pub open spec fn read_words(bytes: Seq<u8>, start: int, n: int) -> Seq<u64> {
    Seq::new(n as nat, |i: int| spec_u64_from_le_bytes(bytes.subrange(start + 8 * i, start + 8 * i + 8)))
}

/// Lemma: the encoding of words has 8 bytes per word, word `i` in bytes `8i..8i+8`.
pub proof fn lemma_words_le(ws: Seq<u64>)
    ensures
        words_le(ws).len() == 8 * ws.len(),
        forall|i: int|
            0 <= i < ws.len() ==> #[trigger] words_le(ws).subrange(8 * i, 8 * i + 8)
                == spec_u64_to_le_bytes(ws[i]),
    decreases ws.len(),
{
    lemma_auto_spec_u64_to_from_le_bytes();
    if ws.len() > 0 {
        let init = ws.drop_last();
        lemma_words_le(init);
        assert forall|i: int| 0 <= i < ws.len() implies #[trigger] words_le(ws).subrange(
            8 * i,
            8 * i + 8,
        ) == spec_u64_to_le_bytes(ws[i]) by {
            if i < init.len() {
                assert(words_le(ws).subrange(8 * i, 8 * i + 8) =~= words_le(init).subrange(
                    8 * i,
                    8 * i + 8,
                ));
            } else {
                assert(words_le(ws).subrange(8 * i, 8 * i + 8) =~= spec_u64_to_le_bytes(ws.last()));
            }
        }
    }
}

/// Lemma: reading back the encoding of words (anywhere in a buffer) gives the words.
pub proof fn lemma_read_words_le(bytes: Seq<u8>, start: int, ws: Seq<u64>)
    requires
        0 <= start,
        start + 8 * ws.len() <= bytes.len(),
        bytes.subrange(start, start + 8 * ws.len()) == words_le(ws),
    ensures
        read_words(bytes, start, ws.len() as int) == ws,
{
    lemma_auto_spec_u64_to_from_le_bytes();
    lemma_words_le(ws);
    assert forall|i: int| 0 <= i < ws.len() implies read_words(bytes, start, ws.len() as int)[i]
        == ws[i] by {
        assert(bytes.subrange(start + 8 * i, start + 8 * i + 8) =~= words_le(ws).subrange(
            8 * i,
            8 * i + 8,
        ));
    }
    assert(read_words(bytes, start, ws.len() as int) =~= ws);
}

/// Appends the little-endian encoding of each word to `buf`.
pub fn append_words(buf: &mut Vec<u8>, words: &[u64])
    ensures
        final(buf)@ == old(buf)@ + words_le(words@),
{
    let n = words.len();
    let mut i: usize = 0;
    proof {
        assert(words@.take(0) =~= Seq::<u64>::empty());
        assert(old(buf)@ + words_le(Seq::<u64>::empty()) =~= old(buf)@);
    }
    while i < n
        invariant
            n == words@.len(),
            i <= n,
            buf@ == old(buf)@ + words_le(words@.take(i as int)),
        decreases n - i,
    {
        let bytes = u64_to_le_bytes(words[i]);
        append_bytes(buf, bytes.as_slice());
        proof {
            assert(words@.take(i + 1).drop_last() =~= words@.take(i as int));
            assert(buf@ =~= old(buf)@ + words_le(words@.take(i + 1)));
        }
        i = i + 1;
    }
    proof {
        assert(words@.take(n as int) =~= words@);
    }
}

/// Reads `n` little-endian words from `bytes`, starting at byte `start`.
pub fn read_words_exec(bytes: &[u8], start: usize, n: usize) -> (r: Vec<u64>)
    requires
        start + 8 * n <= bytes@.len(),
    ensures
        r@ == read_words(bytes@, start as int, n as int),
{
    let mut r: Vec<u64> = Vec::new();
    let mut i: usize = 0;
    let blen = bytes.len();
    while i < n
        invariant
            blen == bytes@.len(),
            start + 8 * n <= bytes@.len(),
            i <= n,
            r@ == read_words(bytes@, start as int, i as int),
        decreases n - i,
    {
        proof {
            assert(8 * i + 8 <= 8 * n) by (nonlinear_arith)
                requires
                    i < n,
            ;
            assert(start + 8 * i + 8 <= bytes@.len());
        }
        let off = start + 8 * i;
        let w = u64_from_le_bytes(slice_subrange(bytes, off, off + 8));
        r.push(w);
        proof {
            assert(r@ =~= read_words(bytes@, start as int, i + 1));
        }
        i = i + 1;
    }
    r
}

} // verus!
