use seerdb::btree::node::PAGE_SIZE;
use seerdb::buffer::eviction::{clock_pro_access, clock_pro_sweep, SweepAction, HOT_BIT, REF_BIT};
use seerdb::buffer::{BufferManager, GuardAccess};

#[test]
fn test_buffer_manager_new() {
    let bm = BufferManager::new(4096 * 10);
    assert_eq!(bm.capacity(), 10);
    assert_eq!(bm.stats().total_frames, 10);
    assert_eq!(bm.stats().free_frames, 10);
}

#[test]
fn test_fetch_and_hit() {
    let mut bm = BufferManager::new(4096 * 2);
    let data = [42u8; PAGE_SIZE];

    let guard = bm.fetch(1, &data, GuardAccess::Read);
    assert_eq!(bm.stats().reads, 1);
    assert_eq!(bm.stats().hits, 0);
    bm.unpin(guard.page_id());

    let guard = bm.fetch(1, &data, GuardAccess::Read);
    assert_eq!(bm.stats().reads, 1);
    assert_eq!(bm.stats().hits, 1);
    bm.unpin(guard.page_id());
}

#[test]
fn test_eviction() {
    let mut bm = BufferManager::new(4096 * 2);
    let data1 = [1u8; PAGE_SIZE];
    let data2 = [2u8; PAGE_SIZE];
    let data3 = [3u8; PAGE_SIZE];

    let g1 = bm.fetch(1, &data1, GuardAccess::Read);
    let g2 = bm.fetch(2, &data2, GuardAccess::Read);
    assert_eq!(bm.stats().free_frames, 0);

    bm.unpin(g1.page_id());
    bm.unpin(g2.page_id());

    let g3 = bm.fetch(3, &data3, GuardAccess::Read);
    assert_eq!(bm.stats().reads, 3);
    bm.unpin(g3.page_id());
}

#[test]
fn test_dirty_page() {
    let mut bm = BufferManager::new(4096);
    let data = [0u8; PAGE_SIZE];

    let guard = bm.fetch(1, &data, GuardAccess::Write);
    bm.mark_dirty(guard.page_id());
    let flushed = bm.flush(guard.page_id());
    assert!(flushed.is_some());
    bm.unpin(guard.page_id());
}

#[test]
fn test_flush_all() {
    let mut bm = BufferManager::new(4096 * 3);
    let data = [0u8; PAGE_SIZE];

    let g1 = bm.fetch(1, &data, GuardAccess::Write);
    let g2 = bm.fetch(2, &data, GuardAccess::Write);
    bm.mark_dirty(g1.page_id());
    bm.mark_dirty(g2.page_id());
    bm.unpin(g1.page_id());
    bm.unpin(g2.page_id());

    let flushed = bm.flush_all();
    assert_eq!(flushed.len(), 2);
}

#[test]
fn buffer_fetch_loads_data_and_write_guard_dirties() {
    let mut bm = BufferManager::new(4096 * 2);
    let mut data = [0u8; PAGE_SIZE];
    data[0] = 7;
    data[PAGE_SIZE - 1] = 9;
    let g = bm.fetch(5, &data, GuardAccess::Write);
    assert!(g.is_writable());
    assert_eq!(g.page_id(), 5);
    assert_eq!(bm.frame_data(&g)[0], 7);
    assert_eq!(bm.frame_data(&g)[PAGE_SIZE - 1], 9);
    bm.frame_data_mut(&g)[1] = 3;
    let flushed = bm.flush(5).unwrap();
    assert_eq!(flushed[1], 3);
    assert_eq!(bm.stats().writes, 1);
    assert!(bm.flush(5).is_none());
    assert!(bm.flush(6).is_none());
}

#[test]
fn buffer_eviction_keeps_capacity_and_drops_unpinned_page() {
    let mut bm = BufferManager::new(4096);
    let g1 = bm.fetch(1, &[1u8; PAGE_SIZE], GuardAccess::Read);
    bm.unpin(g1.page_id());
    let g2 = bm.fetch(2, &[2u8; PAGE_SIZE], GuardAccess::Read);
    assert_eq!(bm.frame_data(&g2)[0], 2);
    assert_eq!(bm.stats().free_frames, 0);
    bm.unpin(g2.page_id());
    let g1 = bm.fetch(1, &[1u8; PAGE_SIZE], GuardAccess::Read);
    assert_eq!(bm.stats().reads, 3);
    assert_eq!(bm.stats().hits, 0);
    bm.unpin(g1.page_id());
}

#[test]
fn buffer_explicit_evict_frees_frame() {
    let mut bm = BufferManager::new(4096 * 2);
    let g = bm.fetch(4, &[0u8; PAGE_SIZE], GuardAccess::Read);
    bm.unpin(g.page_id());
    assert_eq!(bm.stats().free_frames, 1);
    bm.evict(4);
    assert_eq!(bm.stats().free_frames, 2);
}

#[test]
fn clock_pro_bits() {
    assert_eq!(clock_pro_access(0), REF_BIT);
    assert_eq!(clock_pro_access(REF_BIT), REF_BIT | HOT_BIT);
    assert_eq!(clock_pro_sweep(0), SweepAction::Evict);
    assert_eq!(clock_pro_sweep(REF_BIT), SweepAction::ClearReference);
    assert_eq!(clock_pro_sweep(HOT_BIT), SweepAction::Demote);
    assert_eq!(clock_pro_sweep(clock_pro_access(HOT_BIT)), SweepAction::ClearReference);
}

#[test]
fn clock_evicts_first_unreferenced_frame_from_the_hand() {
    let mut bm = BufferManager::new(4096 * 3);
    let data = [7u8; PAGE_SIZE];
    for page in 1..=3u64 {
        let g = bm.fetch(page, &data, GuardAccess::Read);
        bm.unpin(g.page_id());
    }
    // Every frame is referenced: the hand clears them all and evicts the
    // first unpinned frame from where it started (frame 0, page 1).
    let g = bm.fetch(4, &data, GuardAccess::Read);
    assert_eq!(g.frame_index(), 0);
    bm.unpin(g.page_id());
    // Page 2 is referenced again; the hand now stands at frame 1, passes it
    // (clearing its bit) and evicts frame 2, whose bit the first sweep cleared.
    let g = bm.fetch(2, &data, GuardAccess::Read);
    assert_eq!(g.frame_index(), 1);
    bm.unpin(g.page_id());
    let g = bm.fetch(5, &data, GuardAccess::Read);
    assert_eq!(g.frame_index(), 2);
    bm.unpin(g.page_id());
    assert_eq!(bm.stats().hits, 1);
}
