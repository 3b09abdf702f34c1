use seerdb::alex::simd_search::simd_search_i64;

#[test]
fn test_simd_search_empty() {
    let keys: &[Option<i64>] = &[];
    assert_eq!(simd_search_i64(keys, 42), None);
}

#[test]
fn test_simd_search_not_found() {
    let keys = vec![Some(1), Some(2), Some(3), None, Some(5)];
    assert_eq!(simd_search_i64(&keys, 42), None);
}

#[test]
fn test_simd_search_first_element() {
    let keys = vec![Some(42), Some(2), Some(3)];
    assert_eq!(simd_search_i64(&keys, 42), Some(0));
}

#[test]
fn test_simd_search_middle() {
    let keys = vec![Some(1), Some(2), Some(42), Some(4)];
    assert_eq!(simd_search_i64(&keys, 42), Some(2));
}

#[test]
fn test_simd_search_last() {
    let keys = vec![Some(1), Some(2), Some(3), Some(42)];
    assert_eq!(simd_search_i64(&keys, 42), Some(3));
}

#[test]
fn test_simd_search_with_gaps() {
    let keys = vec![Some(1), None, Some(42), None, Some(5)];
    assert_eq!(simd_search_i64(&keys, 42), Some(2));
}

#[test]
fn test_simd_search_long_array() {
    let mut keys = vec![None; 20];
    keys[15] = Some(42);
    assert_eq!(simd_search_i64(&keys, 42), Some(15));
}

#[test]
fn test_simd_search_all_gaps() {
    let keys = vec![None, None, None, None];
    assert_eq!(simd_search_i64(&keys, 42), None);
}

#[test]
fn test_simd_search_consistency() {
    let test_cases = vec![
        vec![Some(1), Some(2), Some(3), Some(4), Some(5)],
        vec![None, Some(1), None, Some(2), None],
        vec![Some(10), Some(20), Some(30), Some(40)],
        vec![Some(1); 10],
    ];

    for keys in test_cases {
        for search_key in [1, 2, 5, 10, 20, 42, 100] {
            let simd_result = simd_search_i64(&keys, search_key);
            let linear_result = keys.iter().position(|&k| k == Some(search_key));
            assert_eq!(simd_result, linear_result, "Mismatch for key={} in {:?}", search_key, keys);
        }
    }
}

#[test]
fn simd_search_returns_first_of_repeated_keys() {
    let keys = vec![None, Some(7), Some(7), Some(7)];
    assert_eq!(simd_search_i64(&keys, 7), Some(1));
}

#[test]
fn simd_search_negative_keys() {
    let keys = vec![Some(-5), Some(i64::MIN), Some(i64::MAX)];
    assert_eq!(simd_search_i64(&keys, i64::MIN), Some(1));
    assert_eq!(simd_search_i64(&keys, i64::MAX), Some(2));
    assert_eq!(simd_search_i64(&keys, 0), None);
}
