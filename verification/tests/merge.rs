use seerdb::compaction::merge::{apply_decision, group_versions, resolve_merge, FLAG_INLINE};
use seerdb::compaction::{CompactionFilter, FilterDecision, MergeIterator};
use std::sync::Arc;

/// A value as an SSTable stores it inline: the inline flag, then the bytes.
fn inline(v: &[u8]) -> Vec<u8> {
    let mut out = vec![FLAG_INLINE];
    out.extend_from_slice(v);
    out
}

/// The entries of one table, values stored inline.
fn table(pairs: &[(&str, &str)]) -> Vec<(Vec<u8>, Vec<u8>)> {
    pairs
        .iter()
        .map(|(k, v)| (k.as_bytes().to_vec(), inline(v.as_bytes())))
        .collect()
}

fn drain(mut merge: MergeIterator) -> Vec<(Vec<u8>, Vec<u8>)> {
    let mut out = Vec::new();
    while let Some(e) = merge.next() {
        out.push(e);
    }
    out
}

#[test]
fn test_merge_single_sstable() {
    let sstable = table(&[("key1", "value1"), ("key2", "value2"), ("key3", "value3")]);

    let mut merge = MergeIterator::new(vec![sstable], 0, None::<Arc<dyn CompactionFilter>>);

    let (k, v) = merge.next().unwrap();
    assert_eq!(k, b"key1".to_vec());
    assert_eq!(v[0], FLAG_INLINE);
    assert_eq!(&v[1..], b"value1");

    let (k, v) = merge.next().unwrap();
    assert_eq!(k, b"key2".to_vec());
    assert_eq!(v[0], FLAG_INLINE);
    assert_eq!(&v[1..], b"value2");

    let (k, v) = merge.next().unwrap();
    assert_eq!(k, b"key3".to_vec());
    assert_eq!(v[0], FLAG_INLINE);
    assert_eq!(&v[1..], b"value3");

    assert!(merge.next().is_none());
}

#[test]
fn test_merge_two_sstables() {
    let sstable1 = table(&[("key1", "value1"), ("key3", "value3")]);
    let sstable2 = table(&[("key2", "value2"), ("key4", "value4")]);

    let merge = MergeIterator::new(vec![sstable1, sstable2], 0, None::<Arc<dyn CompactionFilter>>);
    let entries = drain(merge);

    assert_eq!(entries.len(), 4);
    assert_eq!(entries[0].0, b"key1".to_vec());
    assert_eq!(entries[1].0, b"key2".to_vec());
    assert_eq!(entries[2].0, b"key3".to_vec());
    assert_eq!(entries[3].0, b"key4".to_vec());
}

#[test]
fn test_merge_with_duplicates() {
    // Older table first, newer second, as level 0 lists them.
    let sstable1 = table(&[("key1", "old_value1"), ("key3", "value3")]);
    let sstable2 = table(&[("key1", "new_value1"), ("key2", "new_value2")]);

    let merge = MergeIterator::new(vec![sstable1, sstable2], 0, None::<Arc<dyn CompactionFilter>>);
    let entries = drain(merge);

    assert_eq!(entries.len(), 3);
    assert_eq!(entries[0].0, b"key1".to_vec());
    assert_eq!(entries[0].1[0], FLAG_INLINE);
    assert_eq!(&entries[0].1[1..], b"new_value1");
    assert_eq!(entries[1].0, b"key2".to_vec());
    assert_eq!(entries[2].0, b"key3".to_vec());
}

#[test]
fn test_merge_many_sstables() {
    let mut sstables = Vec::new();
    for i in 0..5 {
        let mut t = Vec::new();
        for j in 0..10 {
            let key = format!("key_{:03}", i + j * 5);
            let value = format!("value_{}", i + j * 5);
            t.push((key.into_bytes(), inline(value.as_bytes())));
        }
        sstables.push(t);
    }

    let mut merge = MergeIterator::new(sstables, 0, None::<Arc<dyn CompactionFilter>>);

    let mut count = 0;
    let mut last_key: Option<Vec<u8>> = None;
    while let Some((key, _value)) = merge.next() {
        if let Some(ref last) = last_key {
            assert!(key > *last, "Keys not in sorted order");
        }
        last_key = Some(key);
        count += 1;
    }
    assert_eq!(count, 50);
}

#[derive(Debug)]
struct TestFilter;

impl CompactionFilter for TestFilter {
    fn filter(&self, _level: usize, key: &[u8], value: &[u8]) -> FilterDecision {
        if key == b"remove_me" {
            return FilterDecision::Remove;
        }
        if key == b"change_me" {
            return FilterDecision::ChangeValue(b"changed".to_vec());
        }
        if value.len() > 1 && &value[1..] == b"filter_me" {
            return FilterDecision::Remove;
        }
        FilterDecision::Keep
    }

    fn merge(&self, _level: usize, key: &[u8], values: &[&[u8]]) -> Option<Vec<u8>> {
        if key == b"merge_me" {
            let mut merged = Vec::new();
            for v in values {
                if v.len() > 1 {
                    merged.extend_from_slice(&v[1..]);
                }
            }
            return Some(merged);
        }
        None
    }
}

#[test]
fn test_merge_with_filter() {
    let sstable1 = table(&[
        ("keep_me", "val1"),
        ("remove_me", "val2"),
        ("change_me", "val3"),
        ("filter_by_val", "filter_me"),
        ("merge_me", "part1"),
    ]);
    let sstable2 = table(&[("merge_me", "part2")]);

    let filter: Arc<dyn CompactionFilter> = Arc::new(TestFilter);
    let merge = MergeIterator::new(vec![sstable1, sstable2], 0, Some(filter));
    let entries = drain(merge);

    assert_eq!(entries.len(), 3);
    assert_eq!(entries[0].0, b"change_me".to_vec());
    assert_eq!(&entries[0].1[1..], b"changed");
    assert_eq!(entries[1].0, b"keep_me".to_vec());
    assert_eq!(&entries[1].1[1..], b"val1");
    assert_eq!(entries[2].0, b"merge_me".to_vec());
    assert_eq!(&entries[2].1[1..], b"part2part1");
}

#[test]
fn merge_of_no_sources_is_empty() {
    let mut merge = MergeIterator::new(Vec::new(), 3, None::<Arc<dyn CompactionFilter>>);
    assert!(merge.next().is_none());
    assert!(merge.next().is_none());
}

#[test]
fn newest_source_wins_over_three_tables() {
    let t0 = table(&[("a", "0"), ("b", "0"), ("c", "0")]);
    let t1 = table(&[("b", "1")]);
    let t2 = table(&[("c", "2"), ("a", "2")]);
    let entries = drain(MergeIterator::new(vec![t0, t1, t2], 1, None::<Arc<dyn CompactionFilter>>));
    let got: Vec<(Vec<u8>, Vec<u8>)> = entries;
    assert_eq!(
        got,
        vec![
            (b"a".to_vec(), inline(b"2")),
            (b"b".to_vec(), inline(b"1")),
            (b"c".to_vec(), inline(b"2")),
        ]
    );
}

#[test]
fn group_versions_lists_newest_first() {
    let t0 = table(&[("k", "old"), ("z", "only")]);
    let t1 = table(&[("k", "mid")]);
    let t2 = table(&[("a", "x"), ("k", "new")]);
    let groups = group_versions(vec![t0, t1, t2]);
    assert_eq!(groups.len(), 3);
    assert_eq!(groups[0], (b"a".to_vec(), vec![inline(b"x")]));
    assert_eq!(
        groups[1],
        (b"k".to_vec(), vec![inline(b"new"), inline(b"mid"), inline(b"old")])
    );
    assert_eq!(groups[2], (b"z".to_vec(), vec![inline(b"only")]));
}

#[test]
fn resolve_merge_marks_merged_value_inline() {
    assert_eq!(resolve_merge(b"\x01newest", Some(b"merged".to_vec())), inline(b"merged"));
    assert_eq!(resolve_merge(b"\x01newest", None), inline(b"newest"));
}

#[test]
fn apply_decision_covers_each_decision() {
    let k = b"key".to_vec();
    let v = inline(b"value");
    assert_eq!(
        apply_decision(k.clone(), v.clone(), FilterDecision::Keep),
        Some((k.clone(), v.clone()))
    );
    assert_eq!(apply_decision(k.clone(), v.clone(), FilterDecision::Remove), None);
    assert_eq!(
        apply_decision(k.clone(), v, FilterDecision::ChangeValue(b"new".to_vec())),
        Some((k, inline(b"new")))
    );
}

#[test]
fn filter_sees_merged_value_and_can_remove_it() {
    let t0 = table(&[("merge_me", "filter_")]);
    let t1 = table(&[("merge_me", "me")]);
    let filter: Arc<dyn CompactionFilter> = Arc::new(TestFilter);
    // t0 is the newer table here: the merged value is "filter_me", which the filter removes.
    let entries = drain(MergeIterator::new(vec![t1.clone(), t0.clone()], 0, Some(filter.clone())));
    assert!(entries.is_empty());
    // t1 is the newer table here: the merged value "mefilter_" is kept.
    let entries = drain(MergeIterator::new(vec![t0, t1], 0, Some(filter)));
    assert_eq!(entries, vec![(b"merge_me".to_vec(), inline(b"mefilter_"))]);
}
