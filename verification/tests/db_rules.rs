use seerdb::buffer::eviction::{clock_decide, ClockAction};
use seerdb::compaction::LSMTree;
use seerdb::db::{
    admit_write, partition_of_hash, resolve_get, select_compaction_inputs, DBOptions, DiskCheckStep,
    TableLookup, WriteDecision,
};
use seerdb::memtable::Memtable;
use std::path::{Path, PathBuf};

fn b(s: &str) -> Vec<u8> {
    s.as_bytes().to_vec()
}

#[test]
fn get_reads_active_partition_first() {
    let mut active = Memtable::new(1024);
    active.put(b("k"), b("new"), 5);
    let mut older = Memtable::new(1024);
    older.put(b("k"), b("old"), 1);
    let imm = vec![older];
    let tables = vec![TableLookup::Value(b("disk"))];
    assert_eq!(resolve_get(&active, Some(&imm), b"k", &tables), Some(b("new")));
}

#[test]
fn get_falls_through_to_immutable_then_tables() {
    let active = Memtable::new(1024);
    let mut imm0 = Memtable::new(1024);
    imm0.put(b("other"), b("x"), 1);
    let mut imm1 = Memtable::new(1024);
    imm1.put(b("k"), b("flushing"), 3);
    let imm = vec![imm0, imm1];
    assert_eq!(resolve_get(&active, Some(&imm), b"k", &[]), Some(b("flushing")));
    let tables = vec![TableLookup::Absent, TableLookup::Value(b("l1")), TableLookup::Value(b("l2"))];
    assert_eq!(resolve_get(&active, None, b"k", &tables), Some(b("l1")));
    assert_eq!(resolve_get(&active, None, b"k", &[]), None);
}

#[test]
fn tombstone_masks_older_sources() {
    let mut active = Memtable::new(1024);
    active.put(b("k"), b("v"), 1);
    active.delete(b("k"), 2);
    let tables = vec![TableLookup::Value(b("stale"))];
    assert_eq!(resolve_get(&active, None, b"k", &tables), None);
    let empty = Memtable::new(1024);
    let tables = vec![TableLookup::Tombstone, TableLookup::Value(b("stale"))];
    assert_eq!(resolve_get(&empty, None, b"k", &tables), None);
}

#[test]
fn memtable_lookup_distinguishes_tombstone() {
    let mut m = Memtable::new(1024);
    m.put(b("a"), b("1"), 1);
    m.merge(b("a"), b("op"), 2);
    m.delete(b("d"), 1);
    assert_eq!(m.lookup(b"a"), TableLookup::Value(b("1")));
    assert_eq!(m.lookup(b"d"), TableLookup::Tombstone);
    assert_eq!(m.lookup(b"z"), TableLookup::Absent);
}

#[test]
fn write_admission() {
    assert_eq!(admit_write(Some(100), 95, DiskCheckStep::Pass, true), WriteDecision::Block);
    assert_eq!(admit_write(Some(100), 94, DiskCheckStep::Pass, true), WriteDecision::Proceed { flush: true });
    assert_eq!(admit_write(Some(100), 80, DiskCheckStep::Pass, true), WriteDecision::Proceed { flush: true });
    assert_eq!(admit_write(Some(100), 79, DiskCheckStep::Pass, true), WriteDecision::Proceed { flush: false });
    assert_eq!(admit_write(None, 1 << 40, DiskCheckStep::Pass, true), WriteDecision::Proceed { flush: false });
    assert_eq!(
        admit_write(Some(100), 10, DiskCheckStep::Fail { available: 5, required: 9 }, true),
        WriteDecision::DiskFull { flush: false, available: 5, required: 9 }
    );
    assert_eq!(admit_write(Some(100), 85, DiskCheckStep::Refresh, true), WriteDecision::MeasureDisk { flush: true });
    assert_eq!(admit_write(None, 0, DiskCheckStep::Pass, false), WriteDecision::WalDown { flush: false });
    assert_eq!(admit_write(Some(0), 0, DiskCheckStep::Pass, true), WriteDecision::Proceed { flush: false });
    assert_eq!(admit_write(Some(0), 1, DiskCheckStep::Pass, true), WriteDecision::Block);
}

#[test]
fn compaction_inputs_skip_unflushed_and_unreadable() {
    let paths = vec![PathBuf::from("a.sst"), PathBuf::from("b.sst"), PathBuf::from("c.sst"), PathBuf::from("d.sst")];
    let seqs = vec![Some(10), Some(30), None, Some(20)];
    let got = select_compaction_inputs(paths, &seqs, 20);
    assert_eq!(got, vec![PathBuf::from("a.sst"), PathBuf::from("d.sst")]);
}

#[test]
fn remove_sstables_from_level_updates_size() {
    let mut lsm = LSMTree::new(Path::new("/tmp/x"), 1000, 10, 3);
    lsm.add_to_level(1, PathBuf::from("a.sst"), 100);
    lsm.add_to_level(1, PathBuf::from("b.sst"), 200);
    lsm.add_to_level(1, PathBuf::from("c.sst"), 300);
    lsm.remove_sstables_from_level(
        1,
        &[PathBuf::from("b.sst"), PathBuf::from("zz.sst"), PathBuf::from("c.sst")],
        &[Some(200), Some(50), None],
    );
    let level = lsm.level(1).unwrap();
    assert_eq!(level.sstables(), &[PathBuf::from("a.sst")]);
    assert_eq!(level.size(), 400);
    lsm.remove_sstables_from_level(1, &[PathBuf::from("a.sst")], &[Some(1000)]);
    assert_eq!(lsm.level(1).unwrap().size(), 0);
    lsm.remove_sstables_from_level(9, &[PathBuf::from("a.sst")], &[Some(1)]);
}

#[test]
fn clock_hand_decisions() {
    assert_eq!(clock_decide(false, true, 1), (ClockAction::Evict, 1));
    assert_eq!(clock_decide(true, false, 0), (ClockAction::Continue, 0));
    assert_eq!(clock_decide(true, true, 0), (ClockAction::Continue, 1));
    assert_eq!(clock_decide(true, true, 1), (ClockAction::Stop, 2));
}

#[test]
fn partition_is_hash_modulo_sixteen() {
    assert_eq!(partition_of_hash(0), 0);
    assert_eq!(partition_of_hash(17), 1);
    assert_eq!(partition_of_hash(u64::MAX), 15);
}

#[test]
fn default_options_use_the_local_data_directory() {
    let options = DBOptions::default();
    assert_eq!(options.data_dir, PathBuf::from("./seerdb_data"));
    assert_eq!(options.memtable_capacity, 256 * 1024 * 1024);
    assert_eq!(options.num_levels, 7);
}

#[test]
fn removal_matches_paths_component_by_component() {
    let mut lsm = LSMTree::new(Path::new("/tmp/db"), 1024, 10, 3);
    lsm.add_to_level(1, PathBuf::from("dir/a.sst"), 100);
    lsm.add_to_level(1, PathBuf::from("dir/b.sst"), 50);
    lsm.remove_sstables_from_level(1, &[PathBuf::from("dir//./a.sst")], &[Some(100)]);
    let level = lsm.level(1).unwrap();
    assert_eq!(level.sstables(), &[PathBuf::from("dir/b.sst")]);
    assert_eq!(level.size(), 50);
}

#[test]
fn get_after_delete_finds_nothing() {
    let mut active = Memtable::new(1024);
    active.put(b("k"), b("v1"), 1);
    active.delete(b("k"), 2);
    let tables = [TableLookup::Value(b("disk"))];
    assert_eq!(resolve_get(&active, None, b"k", &tables), None);
}

#[test]
fn flush_swap_is_invisible_to_reads() {
    let mut own = Memtable::new(1024);
    own.put(b("k"), b("v"), 3);
    let mut other = Memtable::new(1024);
    other.put(b("x"), b("y"), 4);
    let tables = [TableLookup::Value(b("disk"))];
    let before = resolve_get(&own, None, b"k", &tables);
    let empty = Memtable::new(1024);
    let swapped = vec![other, own];
    let after = resolve_get(&empty, Some(&swapped), b"k", &tables);
    assert_eq!(before, Some(b("v")));
    assert_eq!(after, before);
}
