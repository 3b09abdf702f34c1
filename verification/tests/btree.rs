use seerdb::btree::{BTree, BTreeError, LookupResult};

fn scan_all(tree: &BTree, start: &[u8], end: &[u8]) -> Vec<(Vec<u8>, Vec<u8>)> {
    let mut scan = tree.range_scan(start, end);
    let mut results = Vec::new();
    while let Some(entry) = scan.next() {
        results.push(entry);
    }
    results
}

#[test]
fn test_btree_insert_and_lookup() {
    let mut tree = BTree::new();

    tree.insert(b"hello", b"world").unwrap();
    tree.insert(b"foo", b"bar").unwrap();
    tree.insert(b"aaa", b"bbb").unwrap();

    assert!(matches!(tree.lookup(b"hello"), LookupResult::Found(b"world")));
    assert!(matches!(tree.lookup(b"foo"), LookupResult::Found(b"bar")));
    assert!(matches!(tree.lookup(b"aaa"), LookupResult::Found(b"bbb")));
    assert!(matches!(tree.lookup(b"missing"), LookupResult::NotFound));
}

#[test]
fn test_btree_duplicate_key() {
    let mut tree = BTree::new();

    tree.insert(b"key", b"val1").unwrap();
    assert!(matches!(tree.insert(b"key", b"val2"), Err(BTreeError::DuplicateKey)));
}

#[test]
fn test_btree_delete() {
    let mut tree = BTree::new();

    tree.insert(b"key", b"value").unwrap();
    assert!(matches!(tree.lookup(b"key"), LookupResult::Found(_)));

    tree.delete(b"key").unwrap();
    assert!(matches!(tree.lookup(b"key"), LookupResult::Deleted));

    assert_eq!(tree.delete(b"missing").unwrap(), false);
}

#[test]
fn test_btree_split() {
    let mut tree = BTree::new();

    for i in 0..500 {
        let key = format!("key_{:06}", i);
        let val = format!("val_{:06}", i);
        tree.insert(key.as_bytes(), val.as_bytes()).unwrap();
    }

    for i in 0..500 {
        let key = format!("key_{:06}", i);
        let val = format!("val_{:06}", i);
        assert!(matches!(
            tree.lookup(key.as_bytes()),
            LookupResult::Found(v) if v == val.as_bytes()
        ));
    }

    assert!(tree.node_count() > 1);
}

#[test]
fn test_btree_range_scan() {
    let mut tree = BTree::new();

    tree.insert(b"a", b"1").unwrap();
    tree.insert(b"b", b"2").unwrap();
    tree.insert(b"c", b"3").unwrap();
    tree.insert(b"d", b"4").unwrap();
    tree.insert(b"e", b"5").unwrap();

    let results = scan_all(&tree, b"b", b"e");
    assert_eq!(results.len(), 3);
    assert_eq!(results[0].0, b"b");
    assert_eq!(results[1].0, b"c");
    assert_eq!(results[2].0, b"d");
}

#[test]
fn test_btree_many_inserts() {
    let mut tree = BTree::new();

    for i in 0..500 {
        let key = format!("key_{:06}", i);
        let val = format!("val_{:06}", i);
        tree.insert(key.as_bytes(), val.as_bytes()).unwrap();
    }

    for i in 0..500 {
        let key = format!("key_{:06}", i);
        assert!(matches!(tree.lookup(key.as_bytes()), LookupResult::Found(_)));
    }
}

#[test]
fn test_btree_sorted_order() {
    let mut tree = BTree::new();

    for i in (0..50).rev() {
        let key = format!("key_{:04}", i);
        let val = format!("val_{:04}", i);
        tree.insert(key.as_bytes(), val.as_bytes()).unwrap();
    }

    for i in 0..50 {
        let key = format!("key_{:04}", i);
        assert!(matches!(tree.lookup(key.as_bytes()), LookupResult::Found(_)));
    }
}

#[test]
fn btree_read_your_write_in_random_order_with_splits() {
    let mut tree = BTree::new();
    let mut x: u64 = 12345;
    let mut keys = Vec::new();
    for _ in 0..3000 {
        x = x.wrapping_mul(6364136223846793005).wrapping_add(1442695040888963407);
        let key = format!("k{:016x}", x);
        if tree.insert(key.as_bytes(), key.as_bytes()).is_ok() {
            keys.push(key);
        }
    }
    assert!(tree.height() >= 2);
    for key in &keys {
        assert!(matches!(tree.lookup(key.as_bytes()), LookupResult::Found(v) if v == key.as_bytes()));
    }
    assert!(matches!(tree.lookup(b"k"), LookupResult::NotFound));
}

#[test]
fn btree_descending_inserts_split_leftmost_leaves() {
    let mut tree = BTree::new();
    for i in (0..2000).rev() {
        let key = format!("{:05}", i);
        tree.insert(key.as_bytes(), b"v").unwrap();
    }
    assert!(tree.height() >= 1);
    for i in 0..2000 {
        let key = format!("{:05}", i);
        assert!(matches!(tree.lookup(key.as_bytes()), LookupResult::Found(b"v")));
    }
}

#[test]
fn btree_delete_after_splits_and_reinsert_refused() {
    let mut tree = BTree::new();
    for i in 0..300 {
        let key = format!("key_{:04}", i);
        tree.insert(key.as_bytes(), b"x").unwrap();
    }
    assert_eq!(tree.delete(b"key_0150").unwrap(), true);
    assert!(matches!(tree.lookup(b"key_0150"), LookupResult::Deleted));
    assert!(matches!(tree.lookup(b"key_0151"), LookupResult::Found(b"x")));
    assert_eq!(tree.delete(b"key_0150").unwrap(), true);
    assert!(matches!(tree.insert(b"key_0150", b"y"), Err(BTreeError::DuplicateKey)));
    assert_eq!(tree.delete(b"key_9999").unwrap(), false);
    assert!(matches!(tree.lookup(b"key_9999"), LookupResult::NotFound));
}

#[test]
fn btree_empty_key_and_value() {
    let mut tree = BTree::new();
    tree.insert(b"", b"").unwrap();
    assert!(matches!(tree.lookup(b""), LookupResult::Found(b"")));
    assert!(matches!(tree.insert(b"", b"z"), Err(BTreeError::DuplicateKey)));
}

#[test]
fn btree_new_and_default_start_with_one_leaf() {
    let tree = BTree::new();
    assert_eq!(tree.node_count(), 1);
    assert_eq!(tree.height(), 0);
    assert!(tree.node(0).is_some());
    assert!(tree.node(1).is_none());
    let other = BTree::default();
    assert_eq!(other.node_count(), 1);
}

#[test]
fn btree_range_scan_skips_tombstones_and_stops_at_end() {
    let mut tree = BTree::new();
    for k in [&b"a"[..], b"b", b"c", b"d"] {
        tree.insert(k, k).unwrap();
    }
    tree.delete(b"b").unwrap();
    let results = scan_all(&tree, b"a", b"d");
    let keys: Vec<Vec<u8>> = results.iter().map(|(k, _)| k.clone()).collect();
    assert_eq!(keys, vec![b"a".to_vec(), b"c".to_vec()]);
    assert_eq!(results[1].1, b"c".to_vec());
    assert!(scan_all(&tree, b"x", b"z").is_empty());
    assert!(scan_all(&tree, b"c", b"c").is_empty());
}

#[test]
fn btree_range_scan_stays_in_order() {
    let mut tree = BTree::new();
    for i in (0..20).rev() {
        let key = format!("{:02}", i);
        tree.insert(key.as_bytes(), b"v").unwrap();
    }
    let results = scan_all(&tree, b"03", b"09");
    let keys: Vec<String> = results.iter().map(|(k, _)| String::from_utf8(k.clone()).unwrap()).collect();
    assert_eq!(keys, vec!["03", "04", "05", "06", "07", "08"]);
}

#[test]
fn btree_range_scan_crosses_leaves() {
    let mut tree = BTree::new();
    for i in 0..1500u32 {
        let key = format!("{:05}", i);
        tree.insert(key.as_bytes(), key.as_bytes()).unwrap();
    }
    assert!(tree.node_count() > 1);
    let results = scan_all(&tree, b"00000", b"99999");
    assert_eq!(results.len(), 1500);
    for (i, (k, v)) in results.iter().enumerate() {
        let expected = format!("{:05}", i);
        assert_eq!(k, expected.as_bytes());
        assert_eq!(v, expected.as_bytes());
    }
    let middle = scan_all(&tree, b"00400", b"01200");
    assert_eq!(middle.len(), 800);
    assert_eq!(middle[0].0, b"00400".to_vec());
    assert_eq!(middle[799].0, b"01199".to_vec());
}
