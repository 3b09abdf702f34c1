use seerdb::batch::{Batch, Operation};

#[test]
fn batch_collects_operations_in_order() {
    let mut batch = Batch::new();
    assert!(batch.is_empty());
    batch.put(b"key1", b"value1");
    batch.put(b"key2", b"value2");
    batch.delete(b"key3");
    assert_eq!(batch.len(), 3);
    assert!(!batch.is_empty());
    assert_eq!(
        batch.operations(),
        &[
            Operation::Put { key: b"key1".to_vec(), value: b"value1".to_vec() },
            Operation::Put { key: b"key2".to_vec(), value: b"value2".to_vec() },
            Operation::Delete { key: b"key3".to_vec() },
        ]
    );
    batch.clear();
    assert!(batch.is_empty());
    assert_eq!(batch.len(), 0);
}

#[test]
fn batch_with_capacity_starts_empty() {
    let batch = Batch::with_capacity(1000);
    assert_eq!(batch.len(), 0);
}
