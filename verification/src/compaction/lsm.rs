//! LSM tree levels: which SSTables each level holds, how large it is, and
//! when it needs compaction.

use vstd::prelude::*;
use std::path::{Path, PathBuf};
use crate::paths::{path_to_path_buf, path_buf_as_path, path_eq, same_path};
use crate::compaction::strategy::{
    CompactionStrategy, adjusts, spec_current_ratio, saturate, saturating_mul_u64, saturating_pow_u64,
};

verus! {

/// Errors of compaction.
#[derive(Debug)]
pub enum CompactionError {
    /// An I/O error.
    Io(std::io::Error),
    /// No SSTables to compact.
    NoInput,
}

/// The size threshold of level `i >= 1`: `base * ratio^(i - 1)`, saturating.
pub open spec fn level_threshold(base: u64, ratio: u64, i: int) -> u64 {
    saturate(base * saturate(vstd::arithmetic::power::pow(ratio as int, (i - 1) as nat)))
}

/// Number of L0 SSTables that triggers an L0 compaction.
pub const L0_COMPACTION_TRIGGER: usize = 4;

/// Abstract state of a level.
pub struct LevelView {
    /// Level number.
    pub level_num: usize,
    /// SSTables in this level.
    pub sstables: Seq<PathBuf>,
    /// Current size in bytes.
    pub size: u64,
    /// Size threshold for triggering compaction.
    pub size_threshold: u64,
}

/// A level in the LSM tree.
#[derive(Debug)]
pub struct Level {
    level_num: usize,
    sstables: Vec<PathBuf>,
    size: u64,
    size_threshold: u64,
}

impl View for Level {
    type V = LevelView;

    closed spec fn view(&self) -> LevelView {
        LevelView {
            level_num: self.level_num,
            sstables: self.sstables@,
            size: self.size,
            size_threshold: self.size_threshold,
        }
    }
}

impl Level {
    /// Create a new, empty level with the given threshold.
    pub fn new(level_num: usize, size_threshold: u64) -> (r: Self)
        ensures
            r@.level_num == level_num,
            r@.sstables == Seq::<PathBuf>::empty(),
            r@.size == 0,
            r@.size_threshold == size_threshold,
    {
        Self { level_num, sstables: Vec::new(), size: 0, size_threshold }
    }

    /// Add an SSTable of `size` bytes to this level.
    pub fn add_sstable(&mut self, path: PathBuf, size: u64)
        requires
            old(self)@.size + size <= u64::MAX,
        ensures
            final(self)@ == (LevelView {
                sstables: old(self)@.sstables.push(path),
                size: (old(self)@.size + size) as u64,
                ..old(self)@
            }),
    {
        self.sstables.push(path);
        self.size = self.size + size;
    }

    /// Index of the first SSTable equal to `p`.
    fn position_of(&self, p: &PathBuf) -> (r: Option<usize>)
        ensures
            match r {
                Some(i) => first_match(self@.sstables, *p) == Some(i as int) && i < self@.sstables.len(),
                None => first_match(self@.sstables, *p) is None,
            },
    {
        let ghost ss = self@.sstables;
        let mut i: usize = 0;
        proof {
            assert(ss.skip(0) =~= ss);
        }
        while i < self.sstables.len()
            invariant
                ss == self@.sstables,
                i <= ss.len(),
                first_match(ss, *p) == match first_match(ss.skip(i as int), *p) {
                    Some(k) => Some(k + i),
                    None => None,
                },
            decreases ss.len() - i,
        {
            proof {
                assert(ss.skip(i as int)[0] == ss[i as int]);
                assert(ss.skip(i as int).skip(1) =~= ss.skip(i + 1));
            }
            if path_eq(&self.sstables[i], p) {
                return Some(i);
            }
            i = i + 1;
        }
        proof {
            assert(ss.skip(i as int) =~= Seq::<PathBuf>::empty());
        }
        None
    }

    /// Remove `paths` one after another, each with the size it has on disk
    /// (if it could be read), as `removals` describes.
    fn remove_sstables(&mut self, paths: &[PathBuf], sizes: &[Option<u64>])
        requires
            paths@.len() == sizes@.len(),
        ensures
            (final(self)@.sstables, final(self)@.size) == removals(
                old(self)@.sstables,
                old(self)@.size,
                paths@,
                sizes@,
            ),
            final(self)@.level_num == old(self)@.level_num,
            final(self)@.size_threshold == old(self)@.size_threshold,
    {
        let mut i: usize = 0;
        proof {
            assert(paths@.skip(0) =~= paths@);
            assert(sizes@.skip(0) =~= sizes@);
        }
        while i < paths.len()
            invariant
                paths@.len() == sizes@.len(),
                i <= paths@.len(),
                self@.level_num == old(self)@.level_num,
                self@.size_threshold == old(self)@.size_threshold,
                removals(old(self)@.sstables, old(self)@.size, paths@, sizes@) == removals(
                    self@.sstables,
                    self@.size,
                    paths@.skip(i as int),
                    sizes@.skip(i as int),
                ),
            decreases paths@.len() - i,
        {
            proof {
                assert(paths@.skip(i as int)[0] == paths@[i as int]);
                assert(sizes@.skip(i as int)[0] == sizes@[i as int]);
                assert(paths@.skip(i as int).skip(1) =~= paths@.skip(i + 1));
                assert(sizes@.skip(i as int).skip(1) =~= sizes@.skip(i + 1));
            }
            match self.position_of(&paths[i]) {
                Some(pos) => {
                    let ghost before = self@.sstables;
                    self.sstables.remove(pos);
                    proof {
                        assert(self@.sstables =~= before.remove(pos as int));
                    }
                    match sizes[i] {
                        Some(s) => {
                            self.size = self.size.saturating_sub(s);
                        },
                        None => {},
                    }
                },
                None => {},
            }
            i = i + 1;
        }
        proof {
            assert(paths@.skip(i as int) =~= Seq::<PathBuf>::empty());
        }
    }

    /// Check if this level needs compaction: its size reached its threshold.
    pub fn needs_compaction(&self) -> (r: bool)
        ensures
            r == (self@.size >= self@.size_threshold),
    {
        self.size >= self.size_threshold
    }

    /// Get the number of SSTables in this level.
    pub fn num_sstables(&self) -> (r: usize)
        ensures
            r == self@.sstables.len(),
    {
        self.sstables.len()
    }

    /// Get the current size.
    pub fn size(&self) -> (r: u64)
        ensures
            r == self@.size,
    {
        self.size
    }

    /// Get the size threshold.
    pub fn size_threshold(&self) -> (r: u64)
        ensures
            r == self@.size_threshold,
    {
        self.size_threshold
    }

    /// Get the level number.
    pub fn level_num(&self) -> (r: usize)
        ensures
            r == self@.level_num,
    {
        self.level_num
    }

    /// Get the SSTables.
    pub fn sstables(&self) -> (r: &[PathBuf])
        ensures
            r@ == self@.sstables,
    {
        self.sstables.as_slice()
    }
}

/// Index of the first path in `ss` that std compares equal to `p`
/// (`same_path`).
pub open spec fn first_match(ss: Seq<PathBuf>, p: PathBuf) -> Option<int>
    decreases ss.len(),
{
    if ss.len() == 0 {
        None
    } else if same_path(ss[0], p) {
        Some(0)
    } else {
        match first_match(ss.skip(1), p) {
            Some(i) => Some(i + 1),
            None => None,
        }
    }
}

/// `size - s`, or 0 when `s` is larger.
pub open spec fn sat_sub(size: u64, s: u64) -> u64 {
    if s > size {
        0
    } else {
        (size - s) as u64
    }
}

/// The SSTables and size of a level after removing `paths` one after
/// another: each removes the first SSTable that std compares equal to it
/// (`same_path`), if any, and then its size
/// (when known) is taken off, saturating at 0.
pub open spec fn removals(ss: Seq<PathBuf>, size: u64, paths: Seq<PathBuf>, sizes: Seq<Option<u64>>) -> (
    Seq<PathBuf>,
    u64,
)
    decreases paths.len(),
{
    if paths.len() == 0 {
        (ss, size)
    } else {
        let next = match first_match(ss, paths[0]) {
            Some(i) => (
                ss.remove(i),
                match sizes[0] {
                    Some(s) => sat_sub(size, s),
                    None => size,
                },
            ),
            None => (ss, size),
        };
        removals(next.0, next.1, paths.skip(1), sizes.skip(1))
    }
}

/// Abstract state of an LSM tree.
pub struct LSMTreeView {
    /// Levels L0, L1, ...
    pub levels: Seq<LevelView>,
    /// Compaction strategy.
    pub strategy: CompactionStrategy,
    /// Base level size (L1 threshold).
    pub base_size: u64,
    /// Last workload adjustment (writes, reads).
    pub last_workload: (u64, u64),
}

/// Whether level `i` of `levels` is due for compaction by `needs_compaction`'s rule.
pub open spec fn level_due(levels: Seq<LevelView>, i: int) -> bool {
    if i == 0 {
        levels[0].sstables.len() >= L0_COMPACTION_TRIGGER
    } else {
        levels[i].size >= levels[i].size_threshold
    }
}

/// Whether the level thresholds follow the ratio: L0 never fills, and level
/// `i >= 1` has threshold `base * ratio^(i - 1)`.
pub open spec fn thresholds_follow(levels: Seq<LevelView>, base: u64, ratio: u64) -> bool {
    &&& levels[0].size_threshold == u64::MAX
    &&& forall|i: int| 1 <= i < levels.len() ==> #[trigger] levels[i].size_threshold == level_threshold(base, ratio, i)
}

/// LSM tree structure with multiple levels.
pub struct LSMTree {
    levels: Vec<Level>,
    strategy: CompactionStrategy,
    base_size: u64,
    data_dir: PathBuf,
    last_workload: (u64, u64),
}

impl View for LSMTree {
    type V = LSMTreeView;

    closed spec fn view(&self) -> LSMTreeView {
        LSMTreeView {
            levels: self.levels@.map_values(|l: Level| l@),
            strategy: self.strategy,
            base_size: self.base_size,
            last_workload: self.last_workload,
        }
    }
}

/// Computes the threshold of level `i >= 1`: `base * ratio^(i - 1)`, saturating.
fn compute_threshold(base: u64, ratio: u64, i: usize) -> (r: u64)
    requires
        1 <= i <= u32::MAX + 1,
    ensures
        r == level_threshold(base, ratio, i as int),
{
    let exponent = (i - 1) as u32;
    let multiplier = saturating_pow_u64(ratio, exponent);
    saturating_mul_u64(base, multiplier)
}

impl LSMTree {
    /// The data directory the tree was created with.
    pub closed spec fn dir(&self) -> &Path {
        crate::paths::borrowed_path(&self.data_dir)
    }

    /// Internal consistency: level `i` is numbered `i`, and L0 exists.
    pub closed spec fn inv(&self) -> bool {
        &&& self.levels@.len() >= 1
        &&& self.levels@.len() <= u32::MAX + 1
        &&& self.levels@[0]@.size_threshold == u64::MAX
        &&& forall|i: int| 0 <= i < self.levels@.len() ==> #[trigger] self.levels@[i]@.level_num == i
    }

    /// Create a new LSM tree with a fixed size ratio.
    pub fn new(data_dir: &Path, base_size: u64, size_ratio: u64, num_levels: usize) -> (r: Self)
        requires
            num_levels <= u32::MAX + 1,
        ensures
            r.dir() == data_dir,
            r.inv(),
            r@.levels.len() == if num_levels > 1 {
                num_levels
            } else {
                1
            },
            r@.strategy == CompactionStrategy::Fixed(size_ratio),
            thresholds_follow(r@.levels, base_size, size_ratio),
            forall|i: int| 0 <= i < r@.levels.len() ==> (#[trigger] r@.levels[i]).sstables.len() == 0 && r@.levels[i].size == 0,
            forall|i: int| 0 <= i < r@.levels.len() ==> (#[trigger] r@.levels[i]).level_num == i,
            r@.base_size == base_size,
            r@.last_workload == (0u64, 0u64),
    {
        Self::with_strategy(data_dir, base_size, num_levels, CompactionStrategy::Fixed(size_ratio))
    }

    /// Create a new LSM tree with an adaptive size ratio starting midway
    /// between the bounds.
    pub fn new_adaptive(
        data_dir: &Path,
        base_size: u64,
        num_levels: usize,
        min_ratio: u64,
        max_ratio: u64,
    ) -> (r: Self)
        requires
            num_levels <= u32::MAX + 1,
        ensures
            r.dir() == data_dir,
            r.inv(),
            r@.levels.len() == if num_levels > 1 {
                num_levels
            } else {
                1
            },
            r@.strategy == (CompactionStrategy::Adaptive {
                current_ratio: ((min_ratio + max_ratio) / 2) as u64,
                min_ratio,
                max_ratio,
            }),
            thresholds_follow(r@.levels, base_size, ((min_ratio + max_ratio) / 2) as u64),
            forall|i: int| 0 <= i < r@.levels.len() ==> (#[trigger] r@.levels[i]).sstables.len() == 0 && r@.levels[i].size == 0,
            forall|i: int| 0 <= i < r@.levels.len() ==> (#[trigger] r@.levels[i]).level_num == i,
            r@.base_size == base_size,
            r@.last_workload == (0u64, 0u64),
    {
        let sum: u128 = min_ratio as u128 + max_ratio as u128;
        let initial_ratio = (sum / 2) as u64;
        let strategy = CompactionStrategy::Adaptive {
            current_ratio: initial_ratio,
            min_ratio,
            max_ratio,
        };
        Self::with_strategy(data_dir, base_size, num_levels, strategy)
    }

    /// Create an LSM tree with a given strategy: L0 has no size limit, and
    /// level `i >= 1` has threshold `base_size * ratio^(i - 1)`.
    fn with_strategy(
        data_dir: &Path,
        base_size: u64,
        num_levels: usize,
        strategy: CompactionStrategy,
    ) -> (r: Self)
        requires
            num_levels <= u32::MAX + 1,
        ensures
            r.dir() == data_dir,
            r.inv(),
            r@.levels.len() == if num_levels > 1 {
                num_levels
            } else {
                1
            },
            r@.strategy == strategy,
            thresholds_follow(r@.levels, base_size, spec_current_ratio(strategy)),
            forall|i: int| 0 <= i < r@.levels.len() ==> (#[trigger] r@.levels[i]).sstables.len() == 0 && r@.levels[i].size == 0,
            forall|i: int| 0 <= i < r@.levels.len() ==> (#[trigger] r@.levels[i]).level_num == i,
            r@.base_size == base_size,
            r@.last_workload == (0u64, 0u64),
    {
        let size_ratio = strategy.current_ratio();
        let mut levels: Vec<Level> = Vec::new();
        levels.push(Level::new(0, u64::MAX));
        let mut i: usize = 1;
        while i < num_levels
            invariant
                1 <= i,
                i <= num_levels || i == 1,
                num_levels <= u32::MAX + 1,
                levels@.len() == i,
                levels@[0]@.size_threshold == u64::MAX,
                forall|j: int| 0 <= j < i ==> #[trigger] levels@[j]@.level_num == j,
                forall|j: int| 0 <= j < i ==> (#[trigger] levels@[j])@.sstables.len() == 0 && levels@[j]@.size == 0,
                forall|j: int| 1 <= j < i ==> #[trigger] levels@[j]@.size_threshold == level_threshold(base_size, size_ratio, j),
            decreases num_levels - i,
        {
            let threshold = compute_threshold(base_size, size_ratio, i);
            levels.push(Level::new(i, threshold));
            i = i + 1;
        }
        let r = Self {
            levels,
            strategy,
            base_size,
            data_dir: path_to_path_buf(data_dir),
            last_workload: (0, 0),
        };
        proof {
            assert(r@.levels.len() == levels@.len());
        }
        r
    }

    /// Add an SSTable to L0 (memtable flush).
    pub fn add_l0_sstable(&mut self, path: PathBuf, size: u64)
        requires
            old(self).inv(),
            old(self)@.levels[0].size + size <= u64::MAX,
        ensures
            final(self).inv(),
            final(self)@ == (LSMTreeView {
                levels: old(self)@.levels.update(0, LevelView {
                    sstables: old(self)@.levels[0].sstables.push(path),
                    size: (old(self)@.levels[0].size + size) as u64,
                    ..old(self)@.levels[0]
                }),
                ..old(self)@
            }),
    {
        self.add_to_level(0, path, size);
    }

    /// Check if any level needs compaction: L0 when it holds at least four
    /// SSTables, otherwise the first deeper level whose size reached its threshold.
    pub fn needs_compaction(&self) -> (r: Option<usize>)
        requires
            self.inv(),
        ensures
            match r {
                Some(i) => i < self@.levels.len() && level_due(self@.levels, i as int) && forall|j: int|
                    0 <= j < i ==> !level_due(self@.levels, j),
                None => forall|j: int| 0 <= j < self@.levels.len() ==> !level_due(self@.levels, j),
            },
    {
        if self.levels[0].num_sstables() >= L0_COMPACTION_TRIGGER {
            return Some(0);
        }
        let n = self.levels.len();
        let mut i: usize = 1;
        while i < n
            invariant
                self.inv(),
                n == self@.levels.len(),
                1 <= i <= n,
                forall|j: int| 0 <= j < i ==> !level_due(self@.levels, j),
            decreases n - i,
        {
            if self.levels[i].needs_compaction() {
                return Some(i);
            }
            i = i + 1;
        }
        None
    }

    /// Get a level.
    pub fn level(&self, level_num: usize) -> (r: Option<&Level>)
        ensures
            match r {
                Some(l) => level_num < self@.levels.len() && l@ == self@.levels[level_num as int],
                None => level_num >= self@.levels.len(),
            },
    {
        if level_num < self.levels.len() {
            Some(&self.levels[level_num])
        } else {
            None
        }
    }

    /// Get the number of levels.
    pub fn num_levels(&self) -> (r: usize)
        ensures
            r == self@.levels.len(),
    {
        self.levels.len()
    }

    /// Get the data directory.
    pub fn data_dir(&self) -> (r: &Path)
        ensures
            r == self.dir(),
    {
        path_buf_as_path(&self.data_dir)
    }

    /// Adjust the compaction strategy to the observed workload.
    ///
    /// Nothing happens unless at least 1000 operations arrived since the last
    /// adjustment. Otherwise the strategy adapts to the totals, the totals
    /// are remembered, and if the ratio changed the level thresholds are
    /// recomputed; returns whether the ratio changed.
    pub fn adjust_for_workload(&mut self, writes: u64, reads: u64) -> (r: bool)
        requires
            old(self).inv(),
        ensures
            final(self).inv(),
            final(self)@.levels.len() == old(self)@.levels.len(),
            final(self)@.base_size == old(self)@.base_size,
            forall|i: int|
                0 <= i < final(self)@.levels.len() ==> {
                    &&& (#[trigger] final(self)@.levels[i]).sstables == old(self)@.levels[i].sstables
                    &&& final(self)@.levels[i].size == old(self)@.levels[i].size
                    &&& final(self)@.levels[i].level_num == old(self)@.levels[i].level_num
                },
            ({
                let (last_writes, last_reads) = old(self)@.last_workload;
                let delta = saturate(writes - last_writes) + saturate(reads - last_reads);
                if delta < 1000 {
                    !r && final(self)@ == old(self)@
                } else {
                    &&& final(self)@.last_workload == (writes, reads)
                    &&& adjusts(old(self)@.strategy, final(self)@.strategy, writes, reads)
                    &&& r == (spec_current_ratio(final(self)@.strategy) != spec_current_ratio(old(self)@.strategy))
                    &&& r ==> thresholds_follow(final(self)@.levels, final(self)@.base_size, spec_current_ratio(final(self)@.strategy))
                    &&& !r ==> forall|i: int| 0 <= i < final(self)@.levels.len() ==> #[trigger] final(self)@.levels[i].size_threshold == old(self)@.levels[i].size_threshold
                }
            }),
            old(self)@.strategy is Fixed ==> final(self)@.strategy == old(self)@.strategy,
    {
        let (last_writes, last_reads) = self.last_workload;
        let delta_writes = writes.saturating_sub(last_writes);
        let delta_reads = reads.saturating_sub(last_reads);
        if (delta_writes as u128) + (delta_reads as u128) < 1000 {
            return false;
        }
        let old_ratio = self.strategy.current_ratio();
        self.strategy.adjust_for_workload(writes, reads);
        let new_ratio = self.strategy.current_ratio();
        self.last_workload = (writes, reads);
        if new_ratio != old_ratio {
            self.update_level_thresholds(new_ratio);
            true
        } else {
            false
        }
    }

    /// Set the thresholds of levels 1.. from a new size ratio (L0 keeps its own).
    fn update_level_thresholds(&mut self, size_ratio: u64)
        requires
            old(self).inv(),
        ensures
            final(self).inv(),
            final(self)@.levels.len() == old(self)@.levels.len(),
            final(self)@.strategy == old(self)@.strategy,
            final(self)@.base_size == old(self)@.base_size,
            final(self)@.last_workload == old(self)@.last_workload,
            final(self)@.levels[0] == old(self)@.levels[0],
            forall|i: int|
                0 <= i < final(self)@.levels.len() ==> {
                    &&& (#[trigger] final(self)@.levels[i]).sstables == old(self)@.levels[i].sstables
                    &&& final(self)@.levels[i].size == old(self)@.levels[i].size
                    &&& final(self)@.levels[i].level_num == old(self)@.levels[i].level_num
                },
            forall|i: int| 1 <= i < final(self)@.levels.len() ==> #[trigger] final(self)@.levels[i].size_threshold == level_threshold(final(self)@.base_size, size_ratio, i),
    {
        let ghost old_levels = self@.levels;
        let n = self.levels.len();
        let mut i: usize = 1;
        while i < n
            invariant
                self.inv(),
                n == self@.levels.len(),
                1 <= i <= n,
                self@.strategy == old(self)@.strategy,
                self@.base_size == old(self)@.base_size,
                self@.last_workload == old(self)@.last_workload,
                old_levels == old(self)@.levels,
                self@.levels.len() == old_levels.len(),
                self@.levels[0] == old_levels[0],
                forall|j: int|
                    0 <= j < n ==> {
                        &&& (#[trigger] self@.levels[j]).sstables == old_levels[j].sstables
                        &&& self@.levels[j].size == old_levels[j].size
                        &&& self@.levels[j].level_num == old_levels[j].level_num
                    },
                forall|j: int| i <= j < n ==> #[trigger] self@.levels[j].size_threshold == old_levels[j].size_threshold,
                forall|j: int| 1 <= j < i ==> #[trigger] self@.levels[j].size_threshold == level_threshold(self@.base_size, size_ratio, j),
            decreases n - i,
        {
            let threshold = compute_threshold(self.base_size, size_ratio, i);
            let ghost pre = self@.levels;
            let mut level = self.levels.remove(i);
            proof {
                assert(level@ == pre[i as int]);
            }
            level.size_threshold = threshold;
            self.levels.insert(i, level);
            proof {
                assert(self@.levels =~= pre.update(i as int, level@));
                assert(level@.sstables == old_levels[i as int].sstables);
                assert(level@.size == old_levels[i as int].size);
                assert(level@.level_num == old_levels[i as int].level_num);
                assert forall|j: int| 0 <= j < self.levels@.len() implies #[trigger] self.levels@[j]@.level_num == j by {
                    assert(self@.levels[j] == self.levels@[j]@);
                }
                assert(self.levels@[0]@.size_threshold == u64::MAX) by {
                    assert(self@.levels[0] == self.levels@[0]@);
                }
            }
            i = i + 1;
        }
    }

    /// Get the current compaction strategy.
    pub fn strategy(&self) -> (r: &CompactionStrategy)
        ensures
            *r == self@.strategy,
    {
        &self.strategy
    }

    /// Add an SSTable to a specific level (after compaction); does nothing
    /// for a level that does not exist.
    pub fn add_to_level(&mut self, level_num: usize, path: PathBuf, size: u64)
        requires
            old(self).inv(),
            level_num < old(self)@.levels.len() ==> old(self)@.levels[level_num as int].size + size <= u64::MAX,
        ensures
            final(self).inv(),
            final(self)@ == if level_num < old(self)@.levels.len() {
                LSMTreeView {
                    levels: old(self)@.levels.update(level_num as int, LevelView {
                        sstables: old(self)@.levels[level_num as int].sstables.push(path),
                        size: (old(self)@.levels[level_num as int].size + size) as u64,
                        ..old(self)@.levels[level_num as int]
                    }),
                    ..old(self)@
                }
            } else {
                old(self)@
            },
    {
        if level_num < self.levels.len() {
            let ghost old_levels = self@.levels;
            let mut level = self.levels.remove(level_num);
            level.add_sstable(path, size);
            self.levels.insert(level_num, level);
            proof {
                assert(self@.levels =~= old_levels.update(level_num as int, level@));
            }
        }
    }

    /// Remove and return all SSTables of a level, resetting its size; a level
    /// that does not exist yields nothing.
    pub fn clear_level(&mut self, level_num: usize) -> (r: Vec<PathBuf>)
        requires
            old(self).inv(),
        ensures
            final(self).inv(),
            if level_num < old(self)@.levels.len() {
                &&& r@ == old(self)@.levels[level_num as int].sstables
                &&& final(self)@ == (LSMTreeView {
                    levels: old(self)@.levels.update(level_num as int, LevelView {
                        sstables: Seq::<PathBuf>::empty(),
                        size: 0,
                        ..old(self)@.levels[level_num as int]
                    }),
                    ..old(self)@
                })
            } else {
                &&& r@ == Seq::<PathBuf>::empty()
                &&& final(self)@ == old(self)@
            },
    {
        if level_num < self.levels.len() {
            let ghost old_levels = self@.levels;
            let mut level = self.levels.remove(level_num);
            let mut paths: Vec<PathBuf> = Vec::new();
            std::mem::swap(&mut paths, &mut level.sstables);
            level.size = 0;
            self.levels.insert(level_num, level);
            proof {
                assert(self@.levels =~= old_levels.update(level_num as int, level@));
                assert(level@.sstables =~= Seq::<PathBuf>::empty());
            }
            paths
        } else {
            Vec::new()
        }
    }

    /// Remove SSTables from a level (after compaction): each path in turn
    /// removes the first SSTable of the level that std compares equal to it
    /// (component by component), and the size it has on
    /// disk (`sizes[i]` for `paths[i]`, `None` where it could not be read) is
    /// taken off the level's size, saturating at 0. A level that does not
    /// exist is left alone.
    pub fn remove_sstables_from_level(&mut self, level_num: usize, paths: &[PathBuf], sizes: &[Option<u64>])
        requires
            old(self).inv(),
            paths@.len() == sizes@.len(),
        ensures
            final(self).inv(),
            level_num < old(self)@.levels.len() ==> final(self)@ == (LSMTreeView {
                levels: old(self)@.levels.update(level_num as int, LevelView {
                    sstables: removals(
                        old(self)@.levels[level_num as int].sstables,
                        old(self)@.levels[level_num as int].size,
                        paths@,
                        sizes@,
                    ).0,
                    size: removals(
                        old(self)@.levels[level_num as int].sstables,
                        old(self)@.levels[level_num as int].size,
                        paths@,
                        sizes@,
                    ).1,
                    ..old(self)@.levels[level_num as int]
                }),
                ..old(self)@
            }),
            level_num >= old(self)@.levels.len() ==> final(self)@ == old(self)@,
    {
        if level_num < self.levels.len() {
            let ghost old_levels = self@.levels;
            let mut level = self.levels.remove(level_num);
            proof {
                assert(level@ == old_levels[level_num as int]);
            }
            level.remove_sstables(paths, sizes);
            self.levels.insert(level_num, level);
            proof {
                assert(self@.levels =~= old_levels.update(level_num as int, level@));
                assert forall|j: int| 0 <= j < self.levels@.len() implies #[trigger] self.levels@[j]@.level_num == j by {
                    assert(self@.levels[j] == self.levels@[j]@);
                }
                assert(self.levels@[0]@.size_threshold == u64::MAX) by {
                    assert(self@.levels[0] == self.levels@[0]@);
                }
            }
        }
    }
}

} // verus!
