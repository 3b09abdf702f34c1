use seerdb::bloom::traditional::BloomFilter as TraditionalBloomFilter;
use seerdb::bloom::{BitPackedBloomFilter, BlockedBloomFilter, SimdBloomFilter};

/// Bits for `n` elements at false positive rate `p`: m = -n ln(p) / ln(2)^2.
fn optimal_bits(n: usize, p: f64) -> usize {
    (-(n as f64) * p.ln() / (2.0_f64.ln().powi(2))).ceil() as usize
}

/// Hash functions for `m` bits and `n` elements: k = (m / n) ln(2).
fn optimal_hashes(m: usize, n: usize) -> usize {
    ((m as f64 / n as f64) * 2.0_f64.ln()).ceil() as usize
}

fn bitpacked(n: usize, p: f64) -> BitPackedBloomFilter {
    let m = optimal_bits(n, p);
    BitPackedBloomFilter::from_parameters(m, optimal_hashes(m, n))
}

fn blocked(n: usize, p: f64) -> BlockedBloomFilter {
    let m = optimal_bits(n, p);
    BlockedBloomFilter::from_parameters(m, optimal_hashes(m, n))
}

fn simd(n: usize, p: f64) -> SimdBloomFilter {
    let m = optimal_bits(n, p);
    let k = ((m as f64 / n as f64) * 2.0_f64.ln()).ceil().max(1.0) as usize;
    SimdBloomFilter::from_parameters(m, k)
}

fn traditional(n: usize, p: f64) -> TraditionalBloomFilter {
    let m = optimal_bits(n, p);
    TraditionalBloomFilter::from_parameters(m, optimal_hashes(m, n))
}

#[test]
fn test_bitpacked_basic() {
    let mut bloom = bitpacked(100, 0.01);

    bloom.insert(b"hello");
    bloom.insert(b"world");

    assert!(bloom.contains(b"hello"));
    assert!(bloom.contains(b"world"));
    assert!(!bloom.contains(b"foo"));
}

#[test]
fn test_bitpacked_serialization() {
    let mut bloom = bitpacked(100, 0.01);
    bloom.insert(b"test1");
    bloom.insert(b"test2");

    let bytes = bloom.to_bytes();
    let bloom2 = BitPackedBloomFilter::from_bytes(&bytes).unwrap();

    assert!(bloom2.contains(b"test1"));
    assert!(bloom2.contains(b"test2"));
    assert!(!bloom2.contains(b"test3"));
}

#[test]
fn test_bitpacked_space_efficiency() {
    let bloom = bitpacked(10000, 0.01);

    let bytes_per_element = bloom.size_bytes() as f64 / 10000.0;
    assert!(bytes_per_element < 2.0, "Space efficiency check: {} bytes/elem", bytes_per_element);
}

#[test]
fn test_blocked_basic() {
    let mut bloom = blocked(100, 0.01);

    bloom.insert(b"hello");
    bloom.insert(b"world");

    assert!(bloom.contains(b"hello"));
    assert!(bloom.contains(b"world"));
    assert!(!bloom.contains(b"foo"));
}

#[test]
fn test_blocked_serialization() {
    let mut bloom = blocked(100, 0.01);
    bloom.insert(b"test1");
    bloom.insert(b"test2");

    let bytes = bloom.to_bytes();
    let bloom2 = BlockedBloomFilter::from_bytes(&bytes).unwrap();

    assert!(bloom2.contains(b"test1"));
    assert!(bloom2.contains(b"test2"));
    assert!(!bloom2.contains(b"test3"));
}

#[test]
fn test_blocked_space_efficiency() {
    let bloom = blocked(10000, 0.01);

    let bytes_per_element = bloom.size_bytes() as f64 / 10000.0;
    assert!(bytes_per_element < 3.0, "Space efficiency check: {} bytes/elem", bytes_per_element);
}

#[test]
fn test_blocked_false_positive_rate() {
    let mut bloom = blocked(1000, 0.01);

    for i in 0..1000 {
        bloom.insert(format!("key{}", i).as_bytes());
    }

    let mut false_positives = 0;
    for i in 1000..11000 {
        if bloom.contains(format!("key{}", i).as_bytes()) {
            false_positives += 1;
        }
    }

    let observed_fpr = false_positives as f64 / 10000.0;
    assert!(observed_fpr < 0.03, "FPR too high: {:.4} (expected < 0.03)", observed_fpr);
}

#[test]
fn test_simd_bloom_insert_and_contains() {
    let mut bloom = simd(100, 0.01);

    bloom.insert(b"hello");
    bloom.insert(b"world");

    assert!(bloom.contains(b"hello"));
    assert!(bloom.contains(b"world"));
    assert!(!bloom.contains(b"foo"));
    assert_eq!(bloom.len(), 2);
}

#[test]
fn test_simd_bloom_false_positive_rate() {
    let mut bloom = simd(1000, 0.01);

    for i in 0..1000 {
        bloom.insert(format!("key_{}", i).as_bytes());
    }

    for i in 0..1000 {
        assert!(bloom.contains(format!("key_{}", i).as_bytes()));
    }

    let mut false_positives = 0;
    for i in 10000..20000 {
        if bloom.contains(format!("key_{}", i).as_bytes()) {
            false_positives += 1;
        }
    }

    let fpr = false_positives as f64 / 10000.0;
    println!("False positive rate: {:.3}% (target: 1%)", fpr * 100.0);

    assert!(fpr < 0.03, "False positive rate too high: {:.1}%", fpr * 100.0);
}

#[test]
fn test_simd_bloom_serialization() {
    let mut bloom = simd(100, 0.01);
    bloom.insert(b"test1");
    bloom.insert(b"test2");

    let bytes = bloom.to_bytes();
    let deserialized = SimdBloomFilter::from_bytes(&bytes).unwrap();

    assert_eq!(bloom.num_bits(), deserialized.num_bits());
    assert_eq!(bloom.num_hashes(), deserialized.num_hashes());
    assert_eq!(bloom.len(), deserialized.len());
    assert!(deserialized.contains(b"test1"));
    assert!(deserialized.contains(b"test2"));
}

#[test]
fn test_basic_operations() {
    let mut bf = traditional(1000, 0.01);

    bf.insert(b"hello");
    bf.insert(b"world");
    bf.insert(&42i32.to_le_bytes());

    assert!(bf.contains(b"hello"));
    assert!(bf.contains(b"world"));
    assert!(bf.contains(&42i32.to_le_bytes()));

    assert!(!bf.contains(b"not_there"));
}

#[test]
fn test_false_positive_rate() {
    let mut bf = traditional(1000, 0.01);

    for i in 0..1000i32 {
        bf.insert(&i.to_le_bytes());
    }

    let mut false_positives = 0;
    for i in 1000..2000i32 {
        if bf.contains(&i.to_le_bytes()) {
            false_positives += 1;
        }
    }

    let actual_fpr = false_positives as f64 / 1000.0;
    println!("Target FPR: 0.01, Actual FPR: {}", actual_fpr);

    assert!(actual_fpr < 0.02, "FPR too high: {}", actual_fpr);
}

#[test]
fn test_size_calculation() {
    let bf = traditional(10000, 0.01);
    let size = bf.size_bytes();

    println!("Bloom filter size for 10k elements: {} bytes", size);
    assert!(size > 0);
}

#[test]
fn bloom_filters_start_empty_and_count_inserts() {
    let mut a = bitpacked(10, 0.1);
    let mut b = blocked(10, 0.1);
    let mut c = simd(10, 0.1);
    let mut d = traditional(10, 0.1);
    assert!(a.is_empty() && b.is_empty() && c.is_empty() && d.is_empty());
    a.insert(b"x");
    b.insert(b"x");
    c.insert(b"x");
    d.insert(b"x");
    assert_eq!((a.len(), b.len(), c.len(), d.len()), (1, 1, 1, 1));
    assert!(!a.is_empty() && !b.is_empty() && !c.is_empty() && !d.is_empty());
}

#[test]
fn bloom_empty_filters_contain_nothing() {
    let a = bitpacked(100, 0.01);
    let b = blocked(100, 0.01);
    let c = simd(100, 0.01);
    let d = traditional(100, 0.01);
    for item in [&b"a"[..], b"", b"longer item"] {
        assert!(!a.contains(item));
        assert!(!b.contains(item));
        assert!(!c.contains(item));
        assert!(!d.contains(item));
    }
}

#[test]
fn bloom_no_false_negatives_after_many_inserts() {
    let mut a = bitpacked(500, 0.05);
    let mut b = blocked(500, 0.05);
    for i in 0..500u32 {
        a.insert(&i.to_be_bytes());
        b.insert(&i.to_be_bytes());
    }
    for i in 0..500u32 {
        assert!(a.contains(&i.to_be_bytes()));
        assert!(b.contains(&i.to_be_bytes()));
    }
}

#[test]
fn bitpacked_layout_and_header() {
    let mut bloom = BitPackedBloomFilter::from_parameters(100, 3);
    bloom.insert(b"k");
    let bytes = bloom.to_bytes();
    assert_eq!(bytes.len(), 20 + 8 * 2);
    assert_eq!(&bytes[0..8], &100u64.to_le_bytes());
    assert_eq!(&bytes[8..12], &3u32.to_le_bytes());
    assert_eq!(&bytes[12..20], &1u64.to_le_bytes());
    assert!(BitPackedBloomFilter::from_bytes(&bytes[..19]).is_none());
    assert!(BitPackedBloomFilter::from_bytes(&bytes[..bytes.len() - 1]).is_none());
}

#[test]
fn bitpacked_zero_hashes_means_one() {
    let mut bloom = BitPackedBloomFilter::from_parameters(64, 0);
    bloom.insert(b"q");
    assert!(bloom.contains(b"q"));
    assert_eq!(&bloom.to_bytes()[8..12], &1u32.to_le_bytes());
}

#[test]
fn blocked_layout_and_clamping() {
    let bloom = BlockedBloomFilter::from_parameters(513, 1000);
    let bytes = bloom.to_bytes();
    assert_eq!(bytes.len(), 20 + 2 * 64);
    assert_eq!(&bytes[0..8], &2u64.to_le_bytes());
    assert_eq!(&bytes[8..12], &512u32.to_le_bytes());
    let none = BlockedBloomFilter::from_parameters(512, 0);
    assert_eq!(&none.to_bytes()[8..12], &1u32.to_le_bytes());
    assert!(BlockedBloomFilter::from_bytes(&bytes[..19]).is_none());
    assert!(BlockedBloomFilter::from_bytes(&bytes[..bytes.len() - 8]).is_none());
}

#[test]
fn simd_from_bytes_errors() {
    match SimdBloomFilter::from_bytes(&[0u8; 23]) {
        Err(msg) => assert_eq!(msg, "Insufficient bytes for header"),
        Ok(_) => panic!("short header accepted"),
    }
    let bloom = SimdBloomFilter::from_parameters(70, 2);
    let bytes = bloom.to_bytes();
    assert_eq!(bytes.len(), 24 + 16);
    match SimdBloomFilter::from_bytes(&bytes[..bytes.len() - 1]) {
        Err(msg) => assert_eq!(msg, "Invalid byte length: expected 40, got 39"),
        Ok(_) => panic!("truncated filter accepted"),
    }
}

#[test]
fn traditional_size_formula() {
    let bf = TraditionalBloomFilter::from_parameters(17, 2);
    assert_eq!(bf.size_bytes(), 3 + std::mem::size_of::<TraditionalBloomFilter>());
}

#[test]
fn simd_filter_by_base_hashes() {
    let mut f = SimdBloomFilter::from_parameters(959, 7);
    let (h1, h2) = SimdBloomFilter::base_hashes(b"hello");
    f.insert_hashes(h1, h2);
    assert!(f.contains_hashes(h1, h2));
    assert!(f.contains(b"hello"));
    assert_eq!(f.len(), 1);
}

#[test]
fn traditional_filter_by_hashes() {
    let mut f = TraditionalBloomFilter::from_parameters(1000, 4);
    let hs = f.item_hashes(b"item");
    assert_eq!(hs.len(), 4);
    f.insert_hashes(&hs);
    assert!(f.contains_hashes(&hs));
    assert!(f.contains(b"item"));
}
