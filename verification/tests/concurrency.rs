use seerdb::concurrency::latch::{read_acquire, read_release, readers};
use seerdb::concurrency::{HybridLatch, Transaction, TransactionManager, TransactionState};

#[test]
fn test_basic_read_lock() {
    let latch = HybridLatch::new();
    assert!(latch.try_read_lock());
    assert!(latch.is_locked());
    assert_eq!(latch.reader_count(), 1);
    latch.read_unlock();
    assert!(!latch.is_locked());
}

#[test]
fn test_multiple_readers() {
    let latch = HybridLatch::new();
    assert!(latch.try_read_lock());
    assert!(latch.try_read_lock());
    assert_eq!(latch.reader_count(), 2);
    latch.read_unlock();
    assert_eq!(latch.reader_count(), 1);
    latch.read_unlock();
    assert!(!latch.is_locked());
}

#[test]
fn test_write_lock() {
    let latch = HybridLatch::new();
    assert!(latch.try_write_lock());
    assert!(latch.is_locked());
    assert!(!latch.try_read_lock());
    assert!(!latch.try_write_lock());
    latch.write_unlock();
    assert!(!latch.is_locked());
}

#[test]
fn test_write_blocks_read() {
    let latch = HybridLatch::new();
    assert!(latch.try_write_lock());
    assert!(!latch.try_read_lock());
    latch.write_unlock();
    assert!(latch.try_read_lock());
}

#[test]
fn test_read_blocks_write() {
    let latch = HybridLatch::new();
    assert!(latch.try_read_lock());
    assert!(!latch.try_write_lock());
    latch.read_unlock();
    assert!(latch.try_write_lock());
}

#[test]
fn latch_state_transitions() {
    assert_eq!(read_acquire(0), Some(1));
    assert_eq!(readers(5), 5);
    assert_eq!(read_release(1), Some(0));
    assert_eq!(read_release(0), None);
    let latch = HybridLatch::default();
    assert!(!latch.is_locked());
    assert_eq!(latch.reader_count(), 0);
}

#[test]
fn test_transaction_lifecycle() {
    let tm = TransactionManager::new();
    let mut txn = tm.begin();

    assert!(txn.is_active());
    assert_eq!(txn.state(), TransactionState::Active);

    txn.record_read(1);
    txn.record_write(2);
    assert_eq!(txn.read_set(), &[1]);
    assert_eq!(txn.write_set(), &[2]);

    tm.commit(&mut txn);
    assert_eq!(txn.state(), TransactionState::Committed);
    assert!(!txn.is_active());
}

#[test]
fn test_transaction_abort() {
    let tm = TransactionManager::new();
    let mut txn = tm.begin();

    tm.abort(&mut txn);
    assert_eq!(txn.state(), TransactionState::Aborted);
}

#[test]
fn test_snapshot_isolation() {
    let tm = TransactionManager::new();

    let txn1 = tm.begin();
    assert_eq!(txn1.snapshot_id(), 0);

    let mut txn1 = txn1;
    tm.commit(&mut txn1);

    let txn2 = tm.begin();
    assert_eq!(txn2.snapshot_id(), txn1.id());
}

#[test]
fn test_concurrent_transactions() {
    let tm = TransactionManager::new();

    let txn1 = tm.begin();
    let txn2 = tm.begin();

    assert_ne!(txn1.id(), txn2.id());
    assert_eq!(txn1.snapshot_id(), txn2.snapshot_id());
}

#[test]
fn test_transaction_id_ordering() {
    let tm = TransactionManager::new();

    let txn1 = tm.begin();
    let txn2 = tm.begin();
    let txn3 = tm.begin();

    assert!(txn1.id() < txn2.id());
    assert!(txn2.id() < txn3.id());
}

#[test]
fn finished_transaction_records_nothing() {
    let mut txn = Transaction::new(7, 3);
    txn.commit();
    txn.record_read(1);
    txn.record_write(2);
    assert!(txn.read_set().is_empty());
    assert!(txn.write_set().is_empty());
    assert_eq!(txn.id(), 7);
    assert_eq!(txn.snapshot_id(), 3);
}

#[test]
fn manager_tracks_latest_commit() {
    let tm = TransactionManager::default();
    assert_eq!(tm.latest_committed(), 0);
    let mut a = tm.begin();
    let mut b = tm.begin();
    tm.commit(&mut b);
    assert_eq!(tm.latest_committed(), b.id());
    tm.commit(&mut a);
    assert_eq!(tm.latest_committed(), a.id());
    assert_eq!(a.id(), 1);
}
