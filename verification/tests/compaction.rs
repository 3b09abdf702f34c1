use seerdb::compaction::{CompactionStrategy, LSMTree, Level};
use seerdb::compaction::strategy::rounded_ratio;
use std::path::PathBuf;
use tempfile::tempdir;

#[test]
fn test_level_creation() {
    let level = Level::new(1, 10_000_000);
    assert_eq!(level.level_num(), 1);
    assert_eq!(level.size(), 0);
    assert!(!level.needs_compaction());
}

#[test]
fn test_level_compaction_trigger() {
    let mut level = Level::new(1, 1000);
    assert!(!level.needs_compaction());

    level.add_sstable(PathBuf::from("test.sst"), 500);
    assert!(!level.needs_compaction());

    level.add_sstable(PathBuf::from("test2.sst"), 600);
    assert!(level.needs_compaction());
}

#[test]
fn test_lsm_tree_creation() {
    let dir = tempdir().unwrap();
    let lsm = LSMTree::new(dir.path(), 10_000_000, 10, 7);

    assert_eq!(lsm.num_levels(), 7);
    assert_eq!(lsm.level(0).unwrap().level_num(), 0);
    assert_eq!(lsm.level(1).unwrap().size_threshold(), 10_000_000);
    assert_eq!(lsm.level(2).unwrap().size_threshold(), 100_000_000);
}

#[test]
fn test_l0_compaction_trigger() {
    let dir = tempdir().unwrap();
    let mut lsm = LSMTree::new(dir.path(), 10_000_000, 10, 7);

    assert!(lsm.needs_compaction().is_none());

    for i in 0..4 {
        lsm.add_l0_sstable(PathBuf::from(format!("test{}.sst", i)), 1000);
    }

    assert_eq!(lsm.needs_compaction(), Some(0));
}

#[test]
fn test_level_size_compaction_trigger() {
    let dir = tempdir().unwrap();
    let mut lsm = LSMTree::new(dir.path(), 1000, 10, 7);

    lsm.add_to_level(1, PathBuf::from("test.sst"), 1200);

    assert_eq!(lsm.needs_compaction(), Some(1));
}

#[test]
fn test_adaptive_compaction_strategy() {
    let mut strategy = CompactionStrategy::Adaptive { current_ratio: 8, min_ratio: 4, max_ratio: 20 };

    strategy.adjust_for_workload(100000, 1000);
    let ratio = strategy.current_ratio();
    assert!(ratio > 8, "Write-heavy should increase ratio, got {}", ratio);
    assert!(ratio <= 20, "Should respect max ratio");
    assert_eq!(ratio, 12, "Expected ratio ~12 for 100:1 w:r");

    strategy.adjust_for_workload(101000, 10100000);
    let ratio = strategy.current_ratio();
    assert!(ratio < 8, "Read-heavy should decrease ratio, got {}", ratio);
    assert_eq!(ratio, 4, "Should clamp to min_ratio for read-heavy");
}

#[test]
fn test_lsm_adaptive_workload_adjustment() {
    let dir = tempdir().unwrap();
    let mut lsm = LSMTree::new_adaptive(dir.path(), 1000, 7, 4, 20);

    assert_eq!(lsm.strategy().current_ratio(), 12);

    let adjusted = lsm.adjust_for_workload(200000, 1000);
    assert!(adjusted, "Should adjust on significant workload change");

    let new_ratio = lsm.strategy().current_ratio();
    assert!(new_ratio > 12, "Write-heavy should increase ratio");
    assert_eq!(new_ratio, 17, "Expected ratio ~17 for 200:1 w:r");

    let l1_threshold = lsm.level(1).unwrap().size_threshold();
    assert_eq!(l1_threshold, 1000);

    let l2_threshold = lsm.level(2).unwrap().size_threshold();
    assert_eq!(l2_threshold, 1000 * new_ratio);
}

#[test]
fn test_fixed_strategy_doesnt_adapt() {
    let strategy = CompactionStrategy::Fixed(10);
    assert_eq!(strategy.current_ratio(), 10);

    let mut strategy_mut = strategy;
    strategy_mut.adjust_for_workload(10000, 1000);
    assert_eq!(strategy_mut.current_ratio(), 10);
}

#[test]
fn rounded_ratio_values() {
    assert_eq!(rounded_ratio(100000, 1000), 12);
    assert_eq!(rounded_ratio(200000, 1000), 17);
    assert_eq!(rounded_ratio(2, 3), 1);
    assert_eq!(rounded_ratio(0, 5), 0);
    assert_eq!(rounded_ratio(6, 1), 3);
}

#[test]
fn adaptive_strategy_clamps_to_max() {
    let mut strategy = CompactionStrategy::Adaptive { current_ratio: 8, min_ratio: 4, max_ratio: 20 };
    strategy.adjust_for_workload(u64::MAX, 1);
    assert_eq!(strategy.current_ratio(), 20);
}

#[test]
fn lsm_clear_level_returns_its_tables() {
    let dir = tempdir().unwrap();
    let mut lsm = LSMTree::new(dir.path(), 1000, 10, 3);
    lsm.add_l0_sstable(PathBuf::from("a.sst"), 10);
    lsm.add_l0_sstable(PathBuf::from("b.sst"), 20);
    assert_eq!(lsm.level(0).unwrap().num_sstables(), 2);
    assert_eq!(lsm.level(0).unwrap().size(), 30);
    let cleared = lsm.clear_level(0);
    assert_eq!(cleared, vec![PathBuf::from("a.sst"), PathBuf::from("b.sst")]);
    assert_eq!(lsm.level(0).unwrap().num_sstables(), 0);
    assert!(lsm.level(3).is_none());
    assert_eq!(lsm.data_dir(), dir.path());
}

#[test]
fn lsm_single_level_minimum() {
    let dir = tempdir().unwrap();
    let lsm = LSMTree::new(dir.path(), 1000, 10, 0);
    assert_eq!(lsm.num_levels(), 1);
}
