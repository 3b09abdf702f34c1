use seerdb::flush::{flush_run, merge_runs};
use seerdb::memtable::{Entry, Memtable};

fn kv(k: &str, v: &str) -> (Vec<u8>, Entry) {
    (k.as_bytes().to_vec(), Entry::Value(v.as_bytes().to_vec()))
}

#[test]
fn flush_run_merges_partitions_by_key() {
    let mut p0 = Memtable::new(1 << 20);
    let mut p1 = Memtable::new(1 << 20);
    let mut p2 = Memtable::new(1 << 20);
    p0.put(b"m".to_vec(), b"1".to_vec(), 1);
    p0.put(b"b".to_vec(), b"2".to_vec(), 2);
    p1.put(b"z".to_vec(), b"3".to_vec(), 3);
    p1.put(b"a".to_vec(), b"4".to_vec(), 4);
    p1.delete(b"q".to_vec(), 5);
    p2.put(b"c".to_vec(), b"old".to_vec(), 6);
    p2.put(b"c".to_vec(), b"new".to_vec(), 7);
    let run = flush_run(&[p0, p1, p2]);
    assert_eq!(
        run,
        vec![
            kv("a", "4"),
            kv("b", "2"),
            kv("c", "new"),
            kv("m", "1"),
            (b"q".to_vec(), Entry::Tombstone),
            kv("z", "3"),
        ]
    );
}

#[test]
fn flush_run_of_empty_partitions_is_empty() {
    let parts = [Memtable::new(1024), Memtable::new(1024)];
    assert!(flush_run(&parts).is_empty());
    assert!(flush_run(&[]).is_empty());
}

#[test]
fn merge_runs_keeps_equal_keys_in_run_order() {
    let runs = vec![
        vec![kv("a", "first"), kv("c", "first")],
        vec![kv("a", "second"), kv("b", "second")],
        vec![kv("c", "third")],
    ];
    let merged = merge_runs(runs);
    assert_eq!(
        merged,
        vec![
            kv("a", "first"),
            kv("a", "second"),
            kv("b", "second"),
            kv("c", "first"),
            kv("c", "third"),
        ]
    );
}
