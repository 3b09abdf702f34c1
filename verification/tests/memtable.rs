use seerdb::memtable::{Entry, InternalKey, Memtable, ValueType, DEFAULT_CAPACITY};

fn b(s: &str) -> Vec<u8> {
    s.as_bytes().to_vec()
}

#[test]
fn test_memtable_mvcc_put_get() {
    let mut memtable = Memtable::new(1024);

    // Write v1 at seq 10
    memtable.put(b("key1"), b("val1"), 10);

    // Write v2 at seq 20
    memtable.put(b("key1"), b("val2"), 20);

    // Get at seq 15 -> Should see v1
    assert_eq!(memtable.get(b"key1", 15), Some((b("val1"), 10)));

    // Get at seq 25 -> Should see v2
    assert_eq!(memtable.get(b"key1", 25), Some((b("val2"), 20)));
}

#[test]
fn test_memtable_mvcc_delete() {
    let mut memtable = Memtable::new(1024);

    memtable.put(b("key1"), b("val1"), 10);
    assert_eq!(memtable.get(b"key1", 20), Some((b("val1"), 10)));

    // Delete at seq 20
    memtable.delete(b("key1"), 20);

    // Get at seq 25 -> Should return None (Deleted)
    assert_eq!(memtable.get(b"key1", 25), None);

    // Get at seq 15 -> Should still see v1
    assert_eq!(memtable.get(b"key1", 15), Some((b("val1"), 10)));
}

#[test]
fn get_before_first_version_finds_nothing() {
    let mut m = Memtable::new(1024);
    m.put(b("k"), b("v"), 10);
    assert_eq!(m.get(b"k", 9), None);
    assert_eq!(m.get(b"other", 100), None);
    assert_eq!(m.get(b"", 100), None);
}

#[test]
fn get_passes_over_merge_operands() {
    let mut m = Memtable::new(1024);
    m.put(b("k"), b("base"), 1);
    m.merge(b("k"), b("op"), 2);
    assert_eq!(m.get(b"k", 5), Some((b("base"), 1)));
}

#[test]
fn get_does_not_read_a_neighbouring_key() {
    let mut m = Memtable::new(1024);
    m.put(b("a"), b("1"), 5);
    m.put(b("ab"), b("2"), 1);
    assert_eq!(m.get(b"a", 3), None);
    assert_eq!(m.get(b"ab", 3), Some((b("2"), 1)));
}

#[test]
fn size_len_and_flush_threshold() {
    let mut m = Memtable::new(30);
    assert!(m.is_empty());
    assert_eq!(m.size(), 0);
    m.put(b("key"), b("value"), 1); // 3 + 5 + 8
    assert_eq!(m.size(), 16);
    assert!(!m.should_flush());
    m.delete(b("key"), 2); // 3 + 8
    assert_eq!(m.size(), 27);
    m.merge(b("k"), b("xy"), 3); // 1 + 2 + 8
    assert_eq!(m.size(), 38);
    assert!(m.should_flush());
    assert_eq!(m.len(), 3);
    assert!(!m.is_empty());
}

#[test]
fn default_capacity_is_64_mib() {
    let m = Memtable::with_default_capacity();
    assert_eq!(DEFAULT_CAPACITY, 64 * 1024 * 1024);
    assert!(m.is_empty());
    assert!(!m.should_flush());
}

#[test]
fn same_key_and_sequence_replaces() {
    let mut m = Memtable::new(1024);
    m.put(b("k"), b("a"), 7);
    m.put(b("k"), b("b"), 7);
    assert_eq!(m.len(), 1);
    assert_eq!(m.get(b"k", 7), Some((b("b"), 7)));
}

#[test]
fn get_entry_value_tombstone_and_merges() {
    let mut m = Memtable::new(1024);
    m.put(b("v"), b("x"), 1);
    m.delete(b("d"), 1);
    m.put(b("m"), b("base"), 1);
    m.merge(b("m"), b("op1"), 2);
    m.merge(b("m"), b("op2"), 3);
    m.merge(b("only"), b("o"), 4);
    assert_eq!(m.get_entry(b"v"), Some(Entry::Value(b("x"))));
    assert_eq!(m.get_entry(b"d"), Some(Entry::Tombstone));
    // Operands since the newest value, newest first; the value itself is not part of it.
    assert_eq!(m.get_entry(b"m"), Some(Entry::Merge(vec![b("op2"), b("op1")])));
    assert_eq!(m.get_entry(b"only"), Some(Entry::Merge(vec![b("o")])));
    assert_eq!(m.get_entry(b"missing"), None);
}

#[test]
fn get_entry_stops_at_newest_base() {
    let mut m = Memtable::new(1024);
    m.merge(b("k"), b("old_op"), 1);
    m.put(b("k"), b("mid"), 2);
    assert_eq!(m.get_entry(b"k"), Some(Entry::Value(b("mid"))));
    m.delete(b("k"), 3);
    assert_eq!(m.get_entry(b"k"), Some(Entry::Tombstone));
}

#[test]
fn range_groups_by_key_and_excludes_end() {
    let mut m = Memtable::new(4096);
    m.put(b("a"), b("a1"), 1);
    m.put(b("b"), b("b1"), 1);
    m.put(b("b"), b("b2"), 2);
    m.delete(b("c"), 3);
    m.put(b("d"), b("d1"), 1);
    let r = m.range(b"b", b"d");
    assert_eq!(r, vec![(b("b"), Entry::Value(b("b2"))), (b("c"), Entry::Tombstone)]);
    let all = m.iter_entries();
    assert_eq!(all.len(), 4);
    assert_eq!(all[0], (b("a"), Entry::Value(b("a1"))));
    assert_eq!(all[3], (b("d"), Entry::Value(b("d1"))));
    let from_c = m.range_from(b"c");
    assert_eq!(from_c, vec![(b("c"), Entry::Tombstone), (b("d"), Entry::Value(b("d1")))]);
}

#[test]
fn range_gives_latest_entry_of_each_key() {
    let mut m = Memtable::new(4096);
    m.merge(b("k"), b("op1"), 1);
    m.put(b("k"), b("v"), 2);
    m.merge(b("k"), b("op3"), 3);
    // The operands written since the newest value, as get_entry gives them.
    assert_eq!(m.range_from(b""), vec![(b("k"), Entry::Merge(vec![b("op3")]))]);
    assert_eq!(m.get_entry(b"k"), Some(Entry::Merge(vec![b("op3")])));
}

#[test]
fn range_ignores_merge_operand_under_newer_value() {
    let mut m = Memtable::new(1024);
    m.put(b("k"), b("v"), 20);
    m.merge(b("k"), b("w"), 10);
    assert_eq!(m.range(b"a", b"z"), vec![(b("k"), Entry::Value(b("v")))]);
}

#[test]
fn iter_hands_out_internal_keys() {
    let mut m = Memtable::new(4096);
    m.put(b("a"), b("1"), 1);
    let mut entries = m.iter();
    assert_eq!(entries.len(), 1);
    let (ik, v) = entries.remove(0);
    assert_eq!(ik, InternalKey { user_key: b("a"), seq: 1, kind: ValueType::Value });
    assert_eq!(v, b("1"));
}

#[test]
fn range_rev_is_range_backwards() {
    let mut m = Memtable::new(4096);
    for (i, k) in ["a", "b", "c", "d"].iter().enumerate() {
        m.put(b(k), b(&format!("v{}", i)), i as u64 + 1);
    }
    let mut fwd = m.range(b"a", b"d");
    let rev = m.range_rev(b"a", b"d");
    fwd.reverse();
    assert_eq!(rev, fwd);
    assert_eq!(rev.len(), 3);
    assert_eq!(rev[0].0, b("c"));
}

#[test]
fn iter_orders_by_key_then_newest_first() {
    let mut m = Memtable::new(4096);
    m.put(b("b"), b("b1"), 1);
    m.put(b("a"), b("a1"), 1);
    m.put(b("a"), b("a5"), 5);
    m.delete(b("a"), 3);
    let seqs: Vec<(Vec<u8>, u64, ValueType)> =
        m.iter().into_iter().map(|(k, _)| (k.user_key, k.seq, k.kind)).collect();
    assert_eq!(
        seqs,
        vec![
            (b("a"), 5, ValueType::Value),
            (b("a"), 3, ValueType::Deletion),
            (b("a"), 1, ValueType::Value),
            (b("b"), 1, ValueType::Value),
        ]
    );
    let rev: Vec<u64> = m.iter_rev().into_iter().map(|(k, _)| k.seq).collect();
    assert_eq!(rev, vec![1, 1, 3, 5]);
}

#[test]
fn range_rev_internal_bounds() {
    let mut m = Memtable::new(4096);
    m.put(b("a"), b("a1"), 1);
    m.put(b("a"), b("a2"), 2);
    m.put(b("b"), b("b1"), 1);
    m.put(b("c"), b("c1"), 1);
    let start = InternalKey { user_key: b("a"), seq: 1, kind: ValueType::Value };
    let end = InternalKey { user_key: b("c"), seq: u64::MAX, kind: ValueType::Value };
    let got: Vec<(Vec<u8>, u64)> = m
        .range_rev_internal(Some(&start), Some(&end))
        .into_iter()
        .map(|(k, _)| (k.user_key, k.seq))
        .collect();
    assert_eq!(got, vec![(b("b"), 1), (b("a"), 1)]);
    let all = m.range_rev_internal(None, None);
    assert_eq!(all.len(), 4);
    assert_eq!(all[0].0.user_key, b("c"));
}

#[test]
fn contains_raw_checks_key_sequence_and_kind() {
    let mut m = Memtable::new(4096);
    m.put(b("k"), b("v"), 4);
    assert!(m.contains_raw(&InternalKey { user_key: b("k"), seq: 4, kind: ValueType::Value }));
    assert!(!m.contains_raw(&InternalKey { user_key: b("k"), seq: 4, kind: ValueType::Merge }));
    assert!(!m.contains_raw(&InternalKey { user_key: b("k"), seq: 5, kind: ValueType::Value }));
}

#[test]
fn put_entry_writes_newest_version() {
    let mut m = Memtable::new(4096);
    m.put(b("k"), b("old"), 10);
    m.put_entry(b("k"), Entry::Value(b("new")));
    assert_eq!(m.get(b"k", u64::MAX), Some((b("new"), u64::MAX)));
    assert_eq!(m.get_entry(b"k"), Some(Entry::Value(b("new"))));
    m.put_entry(b("k"), Entry::Tombstone);
    assert_eq!(m.get_entry(b"k"), Some(Entry::Tombstone));
    // Operands share one version: the last one written stays.
    m.put_entry(b("k"), Entry::Merge(vec![b("m1"), b("m2")]));
    assert_eq!(m.get_entry(b"k"), Some(Entry::Merge(vec![b("m2")])));
    assert_eq!(m.len(), 2);
}
