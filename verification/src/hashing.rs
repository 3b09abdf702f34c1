//! Checksums and hash functions of outside crates, as the library uses them.
//!
//! CRC-32C and XxHash64 are fixed functions of the bytes they are given, so
//! their results are named here; every hashed byte string is first given a
//! fixed encoding (its length as a little-endian `u64`, then its bytes).
//! Std's `DefaultHasher` is used through vstd's model of it. Foldhash
//! documents that its output differs between platforms: its result is
//! handed on without a claim.

use vstd::prelude::*;
use vstd::bytes::{spec_u64_to_le_bytes, u64_to_le_bytes};
use std::collections::hash_map::DefaultHasher;
use std::hash::{BuildHasher, Hasher};
use vstd::std_specs::hash::DefaultHasherAdditionalSpecFns;
use crate::codec::append_bytes;

verus! {

/// The reflected Castagnoli polynomial.
pub const CRC32C_POLY: u32 = 0x82F6_3B78;

/// One step of the bitwise CRC-32C register: shift right, and when the bit
/// shifted out was set, add the polynomial.
pub open spec fn crc32c_step(crc: u32) -> u32 {
    if crc & 1 == 1 {
        (crc >> 1) ^ CRC32C_POLY
    } else {
        crc >> 1
    }
}

/// `n` steps of the CRC-32C register.
pub open spec fn crc32c_shift(crc: u32, n: nat) -> u32
    decreases n,
{
    if n == 0 {
        crc
    } else {
        crc32c_shift(crc32c_step(crc), (n - 1) as nat)
    }
}

/// The register after feeding `data`, one byte after another.
pub open spec fn crc32c_update(crc: u32, data: Seq<u8>) -> u32
    decreases data.len(),
{
    if data.len() == 0 {
        crc
    } else {
        crc32c_update(crc32c_shift(crc ^ (data[0] as u32), 8), data.drop_first())
    }
}

/// The CRC-32C (Castagnoli) checksum of a byte string, as
/// `crc32c::crc32c` computes it: the register starts with all bits set and
/// the result is its complement.
pub open spec fn crc32c_of(data: Seq<u8>) -> u32 {
    !crc32c_update(0xFFFF_FFFF, data)
}

/// The XXH64 hash of the byte string `data` with seed `seed`, as
/// `twox_hash::XxHash64::oneshot` computes it.
pub uninterp spec fn xxh64_of(data: Seq<u8>, seed: u64) -> u64;

/// A byte string as it is hashed: its length as a little-endian `u64`, then
/// its bytes.
pub open spec fn length_prefixed(data: Seq<u8>) -> Seq<u8> {
    spec_u64_to_le_bytes(data.len() as u64) + data
}

/// The hash of a byte string: XXH64 of the length-prefixed bytes.
pub open spec fn xxhash64_of(data: Seq<u8>, seed: u64) -> u64 {
    xxh64_of(length_prefixed(data), seed)
}

/// Lemma: a step of the register loses nothing: the polynomial's top bit
/// records the bit shifted out.
proof fn lemma_crc32c_step_injective(a: u32, b: u32)
    requires
        crc32c_step(a) == crc32c_step(b),
    ensures
        a == b,
{
    assert((if a & 1 == 1 { (a >> 1) ^ 0x82F6_3B78u32 } else { a >> 1 }) == (if b & 1 == 1 {
        (b >> 1) ^ 0x82F6_3B78u32
    } else {
        b >> 1
    }) ==> a == b) by (bit_vector);
}

/// Lemma: steps of the register lose nothing.
proof fn lemma_crc32c_shift_injective(a: u32, b: u32, n: nat)
    requires
        crc32c_shift(a, n) == crc32c_shift(b, n),
    ensures
        a == b,
    decreases n,
{
    if n > 0 {
        lemma_crc32c_shift_injective(crc32c_step(a), crc32c_step(b), (n - 1) as nat);
        lemma_crc32c_step_injective(a, b);
    }
}

/// Lemma: feeding the same bytes to two registers keeps them apart.
proof fn lemma_crc32c_update_injective(a: u32, b: u32, data: Seq<u8>)
    requires
        crc32c_update(a, data) == crc32c_update(b, data),
    ensures
        a == b,
    decreases data.len(),
{
    if data.len() > 0 {
        let d = data[0] as u32;
        lemma_crc32c_update_injective(crc32c_shift(a ^ d, 8), crc32c_shift(b ^ d, 8), data.drop_first());
        lemma_crc32c_shift_injective(a ^ d, b ^ d, 8);
        assert((a ^ d) == (b ^ d) ==> a == b) by (bit_vector);
    }
}

/// Lemma: feeding two byte strings one after the other feeds their
/// concatenation.
proof fn lemma_crc32c_update_append(c: u32, p: Seq<u8>, q: Seq<u8>)
    ensures
        crc32c_update(c, p + q) == crc32c_update(crc32c_update(c, p), q),
    decreases p.len(),
{
    if p.len() == 0 {
        assert(p + q =~= q);
    } else {
        assert((p + q).drop_first() =~= p.drop_first() + q);
        assert((p + q)[0] == p[0]);
        lemma_crc32c_update_append(crc32c_shift(c ^ (p[0] as u32), 8), p.drop_first(), q);
    }
}

/// Law: changing one byte of a byte string changes its CRC-32C.
pub proof fn law_crc32c_detects_changed_byte(data: Seq<u8>, i: int, x: u8)
    requires
        0 <= i < data.len(),
        x != data[i],
    ensures
        crc32c_of(data.update(i, x)) != crc32c_of(data),
{
    let p = data.take(i);
    let s = data.skip(i + 1);
    let changed = data.update(i, x);
    assert(data =~= p + (seq![data[i]] + s));
    assert(changed =~= p + (seq![x] + s));
    lemma_crc32c_update_append(0xFFFF_FFFF, p, seq![data[i]] + s);
    lemma_crc32c_update_append(0xFFFF_FFFF, p, seq![x] + s);
    let r = crc32c_update(0xFFFF_FFFF, p);
    lemma_crc32c_update_append(r, seq![data[i]], s);
    lemma_crc32c_update_append(r, seq![x], s);
    assert(seq![data[i]].drop_first() =~= Seq::<u8>::empty());
    assert(seq![x].drop_first() =~= Seq::<u8>::empty());
    let u1 = crc32c_update(0xFFFF_FFFF, data);
    let u2 = crc32c_update(0xFFFF_FFFF, changed);
    let h1 = crc32c_shift(r ^ (data[i] as u32), 8);
    let h2 = crc32c_shift(r ^ (x as u32), 8);
    assert(crc32c_update(h1, Seq::<u8>::empty()) == h1);
    assert(crc32c_update(h2, Seq::<u8>::empty()) == h2);
    assert(crc32c_update(r, seq![data[i]]) == h1);
    assert(crc32c_update(r, seq![x]) == h2);
    assert(u1 == crc32c_update(h1, s));
    assert(u2 == crc32c_update(h2, s));
    if crc32c_of(changed) == crc32c_of(data) {
        assert(!u2 == !u1 ==> u2 == u1) by (bit_vector);
        lemma_crc32c_update_injective(h2, h1, s);
        lemma_crc32c_shift_injective(r ^ (x as u32), r ^ (data[i] as u32), 8);
        let dx = x as u32;
        let dd = data[i] as u32;
        assert((r ^ dx) == (r ^ dd) ==> dx == dd) by (bit_vector);
    }
}

/// Calls `crc32c::crc32c`: the result is the CRC-32C of exactly the bytes
/// passed in, as the crate documents it (CRC-32-Castagnoli).
#[verifier::external_body]
pub(crate) fn crc32c(data: &[u8]) -> (r: u32)
    ensures
        r == crc32c_of(data@),
{
    crc32c::crc32c(data)
}

/// Calls `twox_hash::XxHash64::oneshot`: the result is the XXH64 of exactly
/// the bytes passed in, with the seed passed in.
#[verifier::external_body]
fn xxh64_oneshot(data: &[u8], seed: u64) -> (r: u64)
    ensures
        r == xxh64_of(data@, seed),
{
    twox_hash::XxHash64::oneshot(seed, data)
}

/// Hashes a byte string with XxHash64: its length (a little-endian `u64`),
/// then its bytes, as a 64-bit little-endian machine hashes a byte slice.
pub(crate) fn xxhash64(data: &[u8], seed: u64) -> (r: u64)
    ensures
        r == xxhash64_of(data@, seed),
{
    let len_bytes = u64_to_le_bytes(data.len() as u64);
    let mut buf: Vec<u8> = Vec::new();
    append_bytes(&mut buf, len_bytes.as_slice());
    append_bytes(&mut buf, data);
    proof {
        assert(buf@ =~= length_prefixed(data@));
    }
    xxh64_oneshot(buf.as_slice(), seed)
}

/// The hash that std's `DefaultHasher` gives after the writes of `seed` and
/// then `data`: the seed as a little-endian `u64`, the length as a
/// little-endian `u64`, then the bytes (as `Hash` writes them on a 64-bit
/// little-endian machine). Its value is vstd's model of the hasher.
pub open spec fn default_hash_of(data: Seq<u8>, seed: u64) -> u64 {
    DefaultHasher::spec_finish(
        seq![spec_u64_to_le_bytes(seed), spec_u64_to_le_bytes(data.len() as u64), data],
    )
}

/// Hashes `seed` and then `data` with std's `DefaultHasher::new()`.
pub(crate) fn default_hash(data: &[u8], seed: u64) -> (r: u64)
    ensures
        r == default_hash_of(data@, seed),
{
    let mut h = DefaultHasher::new();
    let seed_bytes = u64_to_le_bytes(seed);
    h.write(seed_bytes.as_slice());
    let len_bytes = u64_to_le_bytes(data.len() as u64);
    h.write(len_bytes.as_slice());
    h.write(data);
    proof {
        assert(h@ =~= seq![spec_u64_to_le_bytes(seed), spec_u64_to_le_bytes(data@.len() as u64), data@]);
    }
    h.finish()
}

/// Hashes `data` with `foldhash::fast::FixedState::with_seed(0)`; foldhash
/// documents that its output differs between platforms, and nothing is
/// claimed of the result.
#[verifier::external_body]
pub(crate) fn fixed_foldhash(data: &[u8]) -> (r: u64) {
    foldhash::fast::FixedState::with_seed(0).hash_one(data)
}

} // verus!
