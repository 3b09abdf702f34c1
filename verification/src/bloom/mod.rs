//! Bloom filters over byte-string keys.
//!
//! The blocked (cache-line) filter is the default `BloomFilter`; the
//! bit-packed filter stays available as `BitPackedBloomFilter`.

pub mod bits;
pub mod bitpacked;
pub mod blocked;
pub mod simd;
pub mod traditional;

pub use blocked::BlockedBloomFilter as BloomFilter;
pub use bitpacked::BloomFilter as BitPackedBloomFilter;
pub use blocked::BlockedBloomFilter;
pub use simd::SimdBloomFilter;
