//! Database-level rules: options, errors, key partitioning, prefix bounds,
//! memory estimates, disk-space checks and the health report.

use vstd::prelude::*;
use vstd::string::*;
use std::path::PathBuf;
use crate::hashing::fixed_foldhash;
use crate::compaction::lsm::CompactionError;
use crate::health::{CheckStatus, HealthCheck, HealthStatus, all_healthy};
use crate::text::{decimal_string, decimal_text};
use crate::memtable::{Memtable, memtable_read, lookup_view, order_of, ValueType, law_put_then_read, law_delete_then_read, lemma_listing_exists, lists_versions};
pub use crate::memtable::TableLookup;

verus! {

/// Number of memtable partitions.
pub const NUM_PARTITIONS: usize = 16;

/// The partition of a key with hash `hash`: the hash modulo the number of
/// partitions.
pub fn partition_of_hash(hash: u64) -> (r: usize)
    ensures
        r == hash % 16,
        r < NUM_PARTITIONS,
{
    (hash % 16) as usize
}

/// Which memtable partition a key belongs to: its fixed foldhash modulo the
/// number of partitions. Foldhash's output differs between platforms, so
/// only the range of the result is stated; `partition_of_hash` states the
/// rest.
pub fn partition_for_key(key: &[u8]) -> (r: usize)
    ensures
        r < NUM_PARTITIONS,
{
    let hash = fixed_foldhash(key);
    partition_of_hash(hash)
}

/// The successor of a byte string of the same length, if one exists: the
/// rightmost byte below 0xFF is incremented and every byte after it becomes 0.
pub open spec fn spec_increment(bytes: Seq<u8>) -> Option<Seq<u8>>
    decreases bytes.len(),
{
    if bytes.len() == 0 {
        None
    } else if bytes.last() < 0xff {
        Some(bytes.drop_last().push((bytes.last() + 1) as u8))
    } else {
        match spec_increment(bytes.drop_last()) {
            Some(prefix) => Some(prefix.push(0u8)),
            None => None,
        }
    }
}

/// Increment a byte string to the exclusive upper bound of a prefix scan.
///
/// Returns `None` for the empty string or one of all 0xFF bytes.
pub fn increment_bytes(bytes: &[u8]) -> (r: Option<Vec<u8>>)
    ensures
        match r {
            Some(v) => spec_increment(bytes@) == Some(v@),
            None => spec_increment(bytes@) is None,
        },
{
    if bytes.len() == 0 {
        return None;
    }
    let mut result: Vec<u8> = crate::codec::copy_range(bytes, 0, bytes.len());
    let n = bytes.len();
    let mut i: usize = n;
    proof {
        assert(bytes@.subrange(0, n as int) =~= bytes@);
    }
    while i > 0
        invariant
            n == bytes@.len(),
            i <= n,
            result@.len() == n,
            forall|j: int| 0 <= j < i ==> result@[j] == bytes@[j],
            forall|j: int| i <= j < n ==> result@[j] == 0u8 && bytes@[j] == 0xffu8,
        decreases i,
    {
        let k = i - 1;
        if result[k] < 0xff {
            let v = result[k] + 1;
            result.set(k, v);
            proof {
                lemma_increment_at(bytes@, k as int);
                assert(result@ =~= bytes@.subrange(0, k as int).push(v) + Seq::new((n - k - 1) as nat, |j: int| 0u8));
            }
            return Some(result);
        }
        result.set(k, 0);
        i = k;
    }
    proof {
        lemma_increment_all_ff(bytes@);
    }
    None
}

/// Lemma: incrementing at the last byte below 0xFF, position `k`, keeps the
/// bytes before it, bumps it, and zeroes the bytes after it.
proof fn lemma_increment_at(bytes: Seq<u8>, k: int)
    requires
        0 <= k < bytes.len(),
        bytes[k] < 0xff,
        forall|j: int| k < j < bytes.len() ==> bytes[j] == 0xffu8,
    ensures
        spec_increment(bytes) == Some(bytes.subrange(0, k).push((bytes[k] + 1) as u8) + Seq::new(
            (bytes.len() - k - 1) as nat,
            |j: int| 0u8,
        )),
    decreases bytes.len(),
{
    if k == bytes.len() - 1 {
        assert(bytes.drop_last() =~= bytes.subrange(0, k));
        assert(bytes.subrange(0, k).push((bytes[k] + 1) as u8) + Seq::new(0, |j: int| 0u8)
            =~= bytes.subrange(0, k).push((bytes[k] + 1) as u8));
    } else {
        lemma_increment_at(bytes.drop_last(), k);
        assert(bytes.drop_last().subrange(0, k) =~= bytes.subrange(0, k));
        assert((bytes.subrange(0, k).push((bytes[k] + 1) as u8) + Seq::new(
            (bytes.len() - 1 - k - 1) as nat,
            |j: int| 0u8,
        )).push(0u8) =~= bytes.subrange(0, k).push((bytes[k] + 1) as u8) + Seq::new(
            (bytes.len() - k - 1) as nat,
            |j: int| 0u8,
        ));
    }
}

/// Lemma: a string of only 0xFF bytes has no successor.
proof fn lemma_increment_all_ff(bytes: Seq<u8>)
    requires
        forall|j: int| 0 <= j < bytes.len() ==> bytes[j] == 0xffu8,
    ensures
        spec_increment(bytes) is None,
    decreases bytes.len(),
{
    if bytes.len() > 0 {
        lemma_increment_all_ff(bytes.drop_last());
    }
}

/// Errors of database operations.
#[derive(Debug)]
pub enum DBError {
    /// An I/O error.
    Io(std::io::Error),
    /// A compaction error.
    Compaction(CompactionError),
    /// Database not opened.
    NotOpened,
    /// Insufficient disk space.
    DiskSpaceFull {
        /// Bytes available.
        available: u64,
        /// Bytes required.
        required: u64,
    },
    /// A background thread panicked; the database may be inconsistent.
    BackgroundThreadPanic {
        /// Name of the thread.
        thread_name: String,
    },
}

/// When write-ahead-log writes are synced to disk.
#[derive(Debug, Clone, Copy, PartialEq, Eq, Structural)]
pub enum SyncPolicy {
    /// fsync data and metadata (strongest durability, slowest).
    SyncAll,
    /// fsync data only (strong durability, fast).
    SyncData,
    /// No fsync (fastest; data loss possible on crash).
    NoSync,
}

/// The owned path that `PathBuf::from` makes of a string.
pub uninterp spec fn path_of_str(s: Seq<char>) -> PathBuf;

/// Calls `PathBuf::from` on a string: the path is named by the string's
/// characters, the only thing the conversion reads.
#[verifier::external_body]
fn path_from_str(s: &str) -> (r: PathBuf)
    ensures
        r == path_of_str(s@),
{
    PathBuf::from(s)
}

/// Database configuration options.
#[derive(Debug, Clone)]
pub struct DBOptions {
    /// Directory for database files (default `./seerdb_data`).
    pub data_dir: PathBuf,
    /// Memtable capacity in bytes, divided among the partitions (default 256MB).
    pub memtable_capacity: usize,
    /// WAL sync policy (default `SyncData`).
    pub wal_sync_policy: SyncPolicy,
    /// LSM level 1 target size in bytes (default 10MB).
    pub base_level_size: u64,
    /// Size ratio between LSM levels (default 10).
    pub size_ratio: u64,
    /// Number of LSM levels (default 7).
    pub num_levels: usize,
    /// Values larger than this go to the value log (default `Some(4096)`).
    pub vlog_threshold: Option<usize>,
    /// Run compaction in a background thread (default false).
    pub background_compaction: bool,
    /// Run memtable flushes in a background thread (default false).
    pub background_flush: bool,
    /// Adapt level size ratios to the workload (default false).
    pub adaptive_compaction: bool,
    /// Total memory budget, if any (default none).
    pub max_memory_bytes: Option<usize>,
    /// Minimum free disk space required for writes, if any (default none).
    pub min_disk_space_bytes: Option<u64>,
}

impl Default for DBOptions {
    fn default() -> (r: Self)
        ensures
            r.memtable_capacity == 256 * 1024 * 1024,
            r.wal_sync_policy == SyncPolicy::SyncData,
            r.base_level_size == 10 * 1024 * 1024,
            r.size_ratio == 10,
            r.num_levels == 7,
            r.vlog_threshold == Some(4096usize),
            !r.background_compaction,
            !r.background_flush,
            !r.adaptive_compaction,
            r.max_memory_bytes is None,
            r.min_disk_space_bytes is None,
            r.data_dir == path_of_str("./seerdb_data"@),
    {
        Self {
            data_dir: path_from_str("./seerdb_data"),
            memtable_capacity: 256 * 1024 * 1024,
            wal_sync_policy: SyncPolicy::SyncData,
            base_level_size: 10 * 1024 * 1024,
            size_ratio: 10,
            num_levels: 7,
            vlog_threshold: Some(4096),
            background_compaction: false,
            background_flush: false,
            adaptive_compaction: false,
            max_memory_bytes: None,
            min_disk_space_bytes: None,
        }
    }
}

/// Block cache estimate: 10K blocks of about 4KB.
pub const BLOCK_CACHE_BYTES: usize = 40960000;

/// SSTable cache estimate: 1000 SSTables of about 1KB of metadata.
pub const SSTABLE_CACHE_BYTES: usize = 1024000;

/// Sum of a sequence of sizes.
pub open spec fn total_size(sizes: Seq<usize>) -> int
    decreases sizes.len(),
{
    if sizes.len() == 0 {
        0
    } else {
        total_size(sizes.drop_last()) + sizes.last()
    }
}

/// Lemma: a sum of sizes is never negative.
proof fn lemma_total_size_nonneg(sizes: Seq<usize>)
    ensures
        total_size(sizes) >= 0,
    decreases sizes.len(),
{
    if sizes.len() > 0 {
        lemma_total_size_nonneg(sizes.drop_last());
    }
}

/// Computes the sum of the sizes.
fn sum_sizes(sizes: &[usize]) -> (r: usize)
    requires
        total_size(sizes@) <= usize::MAX,
    ensures
        r == total_size(sizes@),
{
    let n = sizes.len();
    let mut total: usize = 0;
    let mut i: usize = 0;
    proof {
        assert(sizes@.take(0) =~= Seq::<usize>::empty());
    }
    while i < n
        invariant
            n == sizes@.len(),
            i <= n,
            total == total_size(sizes@.take(i as int)),
            total_size(sizes@) <= usize::MAX,
        decreases n - i,
    {
        proof {
            assert(sizes@.take(i + 1).drop_last() =~= sizes@.take(i as int));
            lemma_total_size_prefix(sizes@, i + 1);
        }
        total = total + sizes[i];
        i = i + 1;
    }
    proof {
        assert(sizes@.take(n as int) =~= sizes@);
    }
    total
}

/// Lemma: a prefix of the sizes sums to no more than all of them.
proof fn lemma_total_size_prefix(sizes: Seq<usize>, k: int)
    requires
        0 <= k <= sizes.len(),
    ensures
        total_size(sizes.take(k)) <= total_size(sizes),
    decreases sizes.len(),
{
    if k < sizes.len() {
        assert(sizes.drop_last().take(k) =~= sizes.take(k));
        lemma_total_size_prefix(sizes.drop_last(), k);
    } else {
        assert(sizes.take(k) =~= sizes);
    }
}

/// Estimate memory usage in bytes: the active memtable partitions, the
/// immutable partitions of a flush in progress, and fixed cache estimates.
pub fn estimate_memory_usage(active_sizes: &[usize], immutable_sizes: Option<&[usize]>) -> (r: usize)
    requires
        total_size(active_sizes@) + (match immutable_sizes {
            Some(s) => total_size(s@),
            None => 0,
        }) + BLOCK_CACHE_BYTES + SSTABLE_CACHE_BYTES <= usize::MAX,
    ensures
        r == total_size(active_sizes@) + (match immutable_sizes {
            Some(s) => total_size(s@),
            None => 0,
        }) + BLOCK_CACHE_BYTES + SSTABLE_CACHE_BYTES,
{
    proof {
        lemma_total_size_nonneg(active_sizes@);
        match immutable_sizes {
            Some(s) => lemma_total_size_nonneg(s@),
            None => {},
        }
    }
    let active = sum_sizes(active_sizes);
    let immutable = match immutable_sizes {
        Some(s) => sum_sizes(s),
        None => 0,
    };
    active + immutable + BLOCK_CACHE_BYTES + SSTABLE_CACHE_BYTES
}

/// Seconds between real disk-space checks.
pub const DISK_CHECK_INTERVAL_SECS: u64 = 10;

/// What a disk-space check does next.
#[derive(Debug, Clone, Copy, PartialEq, Eq, Structural)]
pub enum DiskCheckStep {
    /// No minimum is configured, or the cached figure suffices: writes may proceed.
    Pass,
    /// The cached figure is below the minimum: writes are refused.
    Fail {
        /// Bytes available (cached).
        available: u64,
        /// Bytes required.
        required: u64,
    },
    /// The cache is stale: measure the disk again.
    Refresh,
}

/// Decide a disk-space check from the configured minimum, the current time,
/// the time of the last real check and the cached available space.
pub fn cached_disk_check(
    min_disk_space: Option<u64>,
    now_secs: u64,
    last_check_secs: u64,
    cached_available: u64,
) -> (r: DiskCheckStep)
    ensures
        r == match min_disk_space {
            None => DiskCheckStep::Pass,
            Some(min) => if now_secs - last_check_secs < DISK_CHECK_INTERVAL_SECS {
                if cached_available < min {
                    DiskCheckStep::Fail { available: cached_available, required: min }
                } else {
                    DiskCheckStep::Pass
                }
            } else {
                DiskCheckStep::Refresh
            },
        },
{
    match min_disk_space {
        None => DiskCheckStep::Pass,
        Some(min) => {
            if now_secs.saturating_sub(last_check_secs) < DISK_CHECK_INTERVAL_SECS {
                if cached_available < min {
                    DiskCheckStep::Fail { available: cached_available, required: min }
                } else {
                    DiskCheckStep::Pass
                }
            } else {
                DiskCheckStep::Refresh
            }
        },
    }
}

/// Check a measured amount of free space against the required minimum.
pub fn check_available_space(available: u64, required: u64) -> (r: Result<(), DBError>)
    ensures
        match r {
            Ok(()) => available >= required,
            Err(e) => available < required && e == (DBError::DiskSpaceFull { available, required }),
        },
{
    if available < required {
        Err(DBError::DiskSpaceFull { available, required })
    } else {
        Ok(())
    }
}

/// Status graded by two thresholds: above `unhealthy_above` is unhealthy,
/// above `degraded_above` is degraded, otherwise healthy.
pub open spec fn graded(value: int, unhealthy_above: int, degraded_above: int) -> CheckStatus {
    if value > unhealthy_above {
        CheckStatus::Unhealthy
    } else if value > degraded_above {
        CheckStatus::Degraded
    } else {
        CheckStatus::Healthy
    }
}

/// Message of a graded check: `prefix`, the figure, then the suffix of its grade.
pub open spec fn graded_message(
    status: CheckStatus,
    prefix: Seq<char>,
    figure: Seq<char>,
    unhealthy_suffix: Seq<char>,
    degraded_suffix: Seq<char>,
    healthy_suffix: Seq<char>,
) -> Seq<char> {
    prefix + figure + match status {
        CheckStatus::Unhealthy => unhealthy_suffix,
        CheckStatus::Degraded => degraded_suffix,
        CheckStatus::Healthy => healthy_suffix,
    }
}

/// Whether check `c` is named `name`, has `status` and the message `msg`.
pub open spec fn check_is(c: HealthCheck, name: Seq<char>, status: CheckStatus, msg: Seq<char>) -> bool {
    &&& c.name@ == name
    &&& c.status == status
    &&& c.message is Some
    &&& c.message.unwrap()@ == msg
}

/// Memtable utilization in tenths of a percent, rounded to the nearest
/// tenth, a tie to the even one.
pub open spec fn utilization_tenths(size: int, capacity: int) -> int {
    let q = (1000 * size) / capacity;
    let rem = (1000 * size) % capacity;
    if 2 * rem > capacity {
        q + 1
    } else if 2 * rem == capacity && q % 2 == 1 {
        q + 1
    } else {
        q
    }
}

/// Text of the memtable utilization: one decimal of the percentage; with no
/// capacity, "NaN" for an empty memtable and "inf" otherwise.
pub open spec fn utilization_text(size: int, capacity: int) -> Seq<char> {
    if capacity == 0 {
        if size == 0 {
            "NaN"@
        } else {
            "inf"@
        }
    } else {
        tenths_text(utilization_tenths(size, capacity) as nat)
    }
}

/// Formats the memtable utilization.
fn utilization_figure(size: u128, capacity: u128) -> (r: String)
    requires
        size <= usize::MAX,
        capacity <= usize::MAX,
    ensures
        r@ == utilization_text(size as int, capacity as int),
{
    proof {
        reveal_strlit("NaN");
        reveal_strlit("inf");
        reveal_strlit(".");
    }
    if capacity == 0 {
        if size == 0 {
            return "NaN".to_owned();
        } else {
            return "inf".to_owned();
        }
    }
    let q = (1000 * size) / capacity;
    let rem = (1000 * size) % capacity;
    let tenths = if 2 * rem > capacity {
        q + 1
    } else if 2 * rem == capacity && q % 2 == 1 {
        q + 1
    } else {
        q
    };
    let whole = decimal_string(tenths / 10);
    let frac = decimal_string(tenths % 10);
    whole.concat(".").concat(frac.as_str())
}

/// Utilization grade: above 95% unhealthy, above 80% degraded.
pub open spec fn utilization_status(size: int, capacity: int) -> CheckStatus {
    if 20 * size > 19 * capacity {
        CheckStatus::Unhealthy
    } else if 5 * size > 4 * capacity {
        CheckStatus::Degraded
    } else {
        CheckStatus::Healthy
    }
}

/// Text of a percentage given in tenths: whole part, a point, one decimal.
pub open spec fn tenths_text(t: nat) -> Seq<char> {
    decimal_text(t / 10) + "."@ + decimal_text(t % 10)
}

/// Builds a graded check with a message made of a prefix, a figure and the
/// suffix of its grade.
fn graded_check(
    name: &str,
    status: CheckStatus,
    prefix: &str,
    figure: &String,
    unhealthy_suffix: &str,
    degraded_suffix: &str,
    healthy_suffix: &str,
) -> (r: HealthCheck)
    ensures
        check_is(r, name@, status, graded_message(status, prefix@, figure@, unhealthy_suffix@, degraded_suffix@, healthy_suffix@)),
{
    let m = prefix.to_owned().concat(figure.as_str());
    match status {
        CheckStatus::Unhealthy => HealthCheck::unhealthy(name, m.concat(unhealthy_suffix).as_str()),
        CheckStatus::Degraded => HealthCheck::degraded(name, m.concat(degraded_suffix).as_str()),
        CheckStatus::Healthy => HealthCheck::healthy_with_message(name, m.concat(healthy_suffix).as_str()),
    }
}

/// Grades a figure by two thresholds.
fn grade(value: u64, unhealthy_above: u64, degraded_above: u64) -> (r: CheckStatus)
    ensures
        r == graded(value as int, unhealthy_above as int, degraded_above as int),
{
    if value > unhealthy_above {
        CheckStatus::Unhealthy
    } else if value > degraded_above {
        CheckStatus::Degraded
    } else {
        CheckStatus::Healthy
    }
}

/// Build the health report from the measured figures: L0 SSTable count
/// (above 20 unhealthy, above 10 degraded), WAL size in whole MB (above 500
/// / 100), memtable utilization (above 95% / 80%), and p99 put and get
/// latencies in whole milliseconds (above 1000 / 100 and 500 / 50).
pub fn health_report(
    l0_count: usize,
    wal_size_bytes: u64,
    memtable_size: usize,
    memtable_capacity: usize,
    put_p99_us: u64,
    get_p99_us: u64,
) -> (r: HealthStatus)
    ensures
        r.checks@.len() == 5,
        r.healthy == all_healthy(r.checks@),
        check_is(r.checks@[0], "compaction_lag"@, graded(l0_count as int, 20, 10), graded_message(
            graded(l0_count as int, 20, 10),
            "L0 has "@,
            decimal_text(l0_count as nat),
            " SSTables (threshold: 20)"@,
            " SSTables (threshold: 10)"@,
            " SSTables"@,
        )),
        check_is(r.checks@[1], "wal_size"@, graded((wal_size_bytes / 1048576) as int, 500, 100), graded_message(
            graded((wal_size_bytes / 1048576) as int, 500, 100),
            "WAL is "@,
            decimal_text((wal_size_bytes / 1048576) as nat),
            " MB (threshold: 500 MB)"@,
            " MB (threshold: 100 MB)"@,
            " MB"@,
        )),
        check_is(r.checks@[2], "memtable_utilization"@, utilization_status(memtable_size as int, memtable_capacity as int), graded_message(
            utilization_status(memtable_size as int, memtable_capacity as int),
            "Memtable is "@,
            utilization_text(memtable_size as int, memtable_capacity as int),
            "% full (threshold: 95%)"@,
            "% full (threshold: 80%)"@,
            "% full"@,
        )),
        check_is(r.checks@[3], "put_latency_p99"@, graded((put_p99_us / 1000) as int, 1000, 100), graded_message(
            graded((put_p99_us / 1000) as int, 1000, 100),
            "Put p99 is "@,
            decimal_text((put_p99_us / 1000) as nat),
            " ms (threshold: 1000 ms)"@,
            " ms (threshold: 100 ms)"@,
            " ms"@,
        )),
        check_is(r.checks@[4], "get_latency_p99"@, graded((get_p99_us / 1000) as int, 500, 50), graded_message(
            graded((get_p99_us / 1000) as int, 500, 50),
            "Get p99 is "@,
            decimal_text((get_p99_us / 1000) as nat),
            " ms (threshold: 500 ms)"@,
            " ms (threshold: 50 ms)"@,
            " ms"@,
        )),
{
    let mut checks: Vec<HealthCheck> = Vec::new();

    let l0 = l0_count as u64;
    let l0_text = decimal_string(l0 as u128);
    checks.push(graded_check(
        "compaction_lag",
        grade(l0, 20, 10),
        "L0 has ",
        &l0_text,
        " SSTables (threshold: 20)",
        " SSTables (threshold: 10)",
        " SSTables",
    ));

    let wal_size_mb = wal_size_bytes / (1024 * 1024);
    let wal_text = decimal_string(wal_size_mb as u128);
    checks.push(graded_check(
        "wal_size",
        grade(wal_size_mb, 500, 100),
        "WAL is ",
        &wal_text,
        " MB (threshold: 500 MB)",
        " MB (threshold: 100 MB)",
        " MB",
    ));

    let size = memtable_size as u128;
    let cap = memtable_capacity as u128;
    let utilization = if 20 * size > 19 * cap {
        CheckStatus::Unhealthy
    } else if 5 * size > 4 * cap {
        CheckStatus::Degraded
    } else {
        CheckStatus::Healthy
    };
    let pct = utilization_figure(size, cap);
    checks.push(graded_check(
        "memtable_utilization",
        utilization,
        "Memtable is ",
        &pct,
        "% full (threshold: 95%)",
        "% full (threshold: 80%)",
        "% full",
    ));

    let put_p99_ms = put_p99_us / 1000;
    let put_text = decimal_string(put_p99_ms as u128);
    checks.push(graded_check(
        "put_latency_p99",
        grade(put_p99_ms, 1000, 100),
        "Put p99 is ",
        &put_text,
        " ms (threshold: 1000 ms)",
        " ms (threshold: 100 ms)",
        " ms",
    ));

    let get_p99_ms = get_p99_us / 1000;
    let get_text = decimal_string(get_p99_ms as u128);
    checks.push(graded_check(
        "get_latency_p99",
        grade(get_p99_ms, 500, 50),
        "Get p99 is ",
        &get_text,
        " ms (threshold: 500 ms)",
        " ms (threshold: 50 ms)",
        " ms",
    ));

    HealthStatus::new(checks)
}

/// The byte view of an optional value.
pub open spec fn bytes_opt(r: Option<Vec<u8>>) -> Option<Seq<u8>> {
    match r {
        Some(v) => Some(v@),
        None => None,
    }
}

/// The result of a point read over lookups listed newest source first: the
/// first source holding a value gives it, one holding a deletion gives
/// nothing, and a source holding neither passes to the next.
pub open spec fn first_decided(ls: Seq<Option<Option<Seq<u8>>>>) -> Option<Seq<u8>>
    decreases ls.len(),
{
    if ls.len() == 0 {
        None
    } else {
        match ls[0] {
            Some(d) => d,
            None => first_decided(ls.skip(1)),
        }
    }
}

/// The sources of a point read, newest first: the key's active memtable
/// partition, the immutable partitions of a flush in progress in order,
/// then the SSTables, newest first, level by level.
pub open spec fn read_sources(
    partition: Map<(Seq<u8>, u64), (ValueType, Seq<u8>)>,
    immutable: Seq<Map<(Seq<u8>, u64), (ValueType, Seq<u8>)>>,
    key: Seq<u8>,
    tables: Seq<Option<Option<Seq<u8>>>>,
) -> Seq<Option<Option<Seq<u8>>>> {
    seq![memtable_read(partition, key)] + immutable.map_values(
        |m: Map<(Seq<u8>, u64), (ValueType, Seq<u8>)>| memtable_read(m, key),
    ) + tables
}

/// The contents of the immutable partitions, if any.
pub open spec fn immutable_contents(immutable: Option<&[Memtable]>) -> Seq<Map<(Seq<u8>, u64), (ValueType, Seq<u8>)>> {
    match immutable {
        Some(ms) => ms@.map_values(|m: Memtable| m.entries()),
        None => Seq::empty(),
    }
}

/// Resolve a point read of `key`: the active partition that the key belongs
/// to, then the immutable partitions of a flush in progress, then what the
/// SSTables hold for the key (read by the caller, newest first, level by
/// level). The first source holding a value gives it; a deletion stops the
/// search with `None`.
pub fn resolve_get(
    partition: &Memtable,
    immutable: Option<&[Memtable]>,
    key: &[u8],
    tables: &[TableLookup],
) -> (r: Option<Vec<u8>>)
    ensures
        bytes_opt(r) == first_decided(
            read_sources(
                partition.entries(),
                immutable_contents(immutable),
                key@,
                tables@.map_values(|t: TableLookup| lookup_view(t)),
            ),
        ),
{
    let ghost ims = immutable_contents(immutable);
    let ghost tv = tables@.map_values(|t: TableLookup| lookup_view(t));
    let ghost all = read_sources(partition.entries(), ims, key@, tv);
    proof {
        assert(all[0] == memtable_read(partition.entries(), key@));
        assert(all.skip(1) =~= ims.map_values(
            |m: Map<(Seq<u8>, u64), (ValueType, Seq<u8>)>| memtable_read(m, key@),
        ) + tv);
    }
    match partition.lookup(key) {
        TableLookup::Value(v) => {
            return Some(v);
        },
        TableLookup::Tombstone => {
            return None;
        },
        TableLookup::Absent => {},
    }
    let ghost rest = all.skip(1);
    let ghost n_im = ims.len();
    assert(first_decided(all) == first_decided(rest));
    assert(rest.skip(0) =~= rest);
    match immutable {
        Some(ms) => {
            let mut i: usize = 0;
            while i < ms.len()
                invariant
                    ims == immutable_contents(immutable),
                    immutable == Some(ms),
                    all == read_sources(partition.entries(), ims, key@, tv),
                    tv == tables@.map_values(|t: TableLookup| lookup_view(t)),
                    ims == ms@.map_values(|m: Memtable| m.entries()),
                    n_im == ms@.len(),
                    rest == ims.map_values(
                        |m: Map<(Seq<u8>, u64), (ValueType, Seq<u8>)>| memtable_read(m, key@),
                    ) + tv,
                    i <= ms@.len(),
                    first_decided(all) == first_decided(rest.skip(i as int)),
                decreases ms@.len() - i,
            {
                proof {
                    assert(rest.skip(i as int)[0] == memtable_read(ms@[i as int].entries(), key@));
                    assert(rest.skip(i as int).skip(1) =~= rest.skip(i + 1));
                }
                match ms[i].lookup(key) {
                    TableLookup::Value(v) => {
                        return Some(v);
                    },
                    TableLookup::Tombstone => {
                        return None;
                    },
                    TableLookup::Absent => {},
                }
                i = i + 1;
            }
            proof {
                assert(rest.skip(n_im as int) =~= tv);
                assert(tv.skip(0) =~= tv);
            }
        },
        None => {
            proof {
                assert(ims =~= Seq::<Map<(Seq<u8>, u64), (ValueType, Seq<u8>)>>::empty());
                assert(rest =~= tv);
                assert(tv.skip(0) =~= tv);
            }
        },
    }
    let mut j: usize = 0;
    while j < tables.len()
        invariant
            ims == immutable_contents(immutable),
            all == read_sources(partition.entries(), ims, key@, tv),
            tv == tables@.map_values(|t: TableLookup| lookup_view(t)),
            j <= tables@.len(),
            first_decided(all) == first_decided(tv.skip(j as int)),
        decreases tables@.len() - j,
    {
        proof {
            assert(tv.skip(j as int)[0] == lookup_view(tables@[j as int]));
            assert(tv.skip(j as int).skip(1) =~= tv.skip(j + 1));
        }
        match &tables[j] {
            TableLookup::Value(v) => {
                let out = crate::memtable::copy_value(v.as_slice());
                return Some(out);
            },
            TableLookup::Tombstone => {
                return None;
            },
            TableLookup::Absent => {},
        }
        j = j + 1;
    }
    proof {
        assert(tv.skip(j as int) =~= Seq::<Option<Option<Seq<u8>>>>::empty());
    }
    None
}

/// Law: a point read after a put of `key`, at a sequence number newer than
/// every version of `key` in its partition, gives the value put, whatever
/// the other sources hold.
pub proof fn law_get_after_put(
    partition: Map<(Seq<u8>, u64), (ValueType, Seq<u8>)>,
    immutable: Seq<Map<(Seq<u8>, u64), (ValueType, Seq<u8>)>>,
    key: Seq<u8>,
    value: Seq<u8>,
    seq: u64,
    tables: Seq<Option<Option<Seq<u8>>>>,
)
    requires
        forall|n: u64| #[trigger] partition.contains_key((key, n)) ==> n > order_of(seq),
    ensures
        first_decided(
            read_sources(partition.insert((key, order_of(seq)), (ValueType::Value, value)), immutable, key, tables),
        ) == Some(value),
{
    law_put_then_read(partition, key, value, seq);
}

/// Law: a point read after a delete of `key`, at a sequence number newer
/// than every version of `key` in its partition, gives nothing, whatever
/// the older sources hold.
pub proof fn law_get_after_delete(
    partition: Map<(Seq<u8>, u64), (ValueType, Seq<u8>)>,
    immutable: Seq<Map<(Seq<u8>, u64), (ValueType, Seq<u8>)>>,
    key: Seq<u8>,
    seq: u64,
    tables: Seq<Option<Option<Seq<u8>>>>,
)
    requires
        forall|n: u64| #[trigger] partition.contains_key((key, n)) ==> n > order_of(seq),
    ensures
        first_decided(
            read_sources(
                partition.insert((key, order_of(seq)), (ValueType::Deletion, Seq::<u8>::empty())),
                immutable,
                key,
                tables,
            ),
        ) is None,
{
    law_delete_then_read(partition, key, seq);
}

/// Lemma: sources that decide nothing can be passed over.
proof fn lemma_skip_undecided(ls: Seq<Option<Option<Seq<u8>>>>, n: int)
    requires
        0 <= n <= ls.len(),
        forall|j: int| 0 <= j < n ==> (#[trigger] ls[j]) is None,
    ensures
        first_decided(ls) == first_decided(ls.skip(n)),
    decreases n,
{
    if n > 0 {
        assert forall|j: int| 0 <= j < n - 1 implies (#[trigger] ls.skip(1)[j]) is None by {
            assert(ls.skip(1)[j] == ls[j + 1]);
        }
        lemma_skip_undecided(ls.skip(1), n - 1);
        assert(ls.skip(1).skip(n - 1) =~= ls.skip(n));
        assert(ls[0] is None);
        assert(first_decided(ls) == first_decided(ls.skip(1)));
    } else {
        assert(ls.skip(0) =~= ls);
    }
}

/// Lemma: an empty memtable decides nothing.
pub proof fn lemma_empty_memtable_reads_nothing(key: Seq<u8>)
    ensures
        memtable_read(Map::<(Seq<u8>, u64), (ValueType, Seq<u8>)>::empty(), key) is None,
{
    let m = Map::<(Seq<u8>, u64), (ValueType, Seq<u8>)>::empty();
    lemma_listing_exists(m, key);
    let vs = choose|vs: Seq<(u64, (ValueType, Seq<u8>))>| lists_versions(vs, m, key, 0);
    if vs.len() > 0 {
        assert(m.contains_key((key, vs[0].0)));
    }
}

/// Law: a flush is invisible to readers. When the partitions are swapped
/// out to the immutable list and an empty partition takes their place, a
/// read of `key` gives what it gave before, provided the partitions other
/// than the key's own hold nothing for it (as routing by
/// `partition_for_key` ensures).
pub proof fn law_flush_invisible(
    parts: Seq<Map<(Seq<u8>, u64), (ValueType, Seq<u8>)>>,
    p: int,
    key: Seq<u8>,
    tables: Seq<Option<Option<Seq<u8>>>>,
)
    requires
        0 <= p < parts.len(),
        forall|q: int| 0 <= q < parts.len() && q != p ==> memtable_read(#[trigger] parts[q], key) is None,
    ensures
        first_decided(read_sources(Map::empty(), parts, key, tables)) == first_decided(
            read_sources(parts[p], Seq::empty(), key, tables),
        ),
{
    lemma_empty_memtable_reads_nothing(key);
    let before = read_sources(parts[p], Seq::empty(), key, tables);
    let after = read_sources(Map::empty(), parts, key, tables);
    let reads = parts.map_values(|m: Map<(Seq<u8>, u64), (ValueType, Seq<u8>)>| memtable_read(m, key));
    assert(after =~= seq![memtable_read(Map::empty(), key)] + reads + tables);
    assert forall|j: int| 0 <= j < p + 1 implies (#[trigger] after[j]) is None by {
        if j > 0 {
            assert(after[j] == reads[j - 1]);
            assert(reads[j - 1] == memtable_read(parts[j - 1], key));
        }
    }
    lemma_skip_undecided(after, p + 1);
    let rest = after.skip(p + 2);
    assert forall|j: int| 0 <= j < parts.len() - p - 1 implies (#[trigger] rest[j]) is None by {
        assert(rest[j] == after[p + 2 + j]);
        assert(after[p + 2 + j] == reads[p + 1 + j]);
        assert(reads[p + 1 + j] == memtable_read(parts[p + 1 + j], key));
    }
    lemma_skip_undecided(rest, parts.len() - p - 1);
    assert(rest.skip(parts.len() - p - 1) =~= tables);
    assert(after.skip(p + 1)[0] == memtable_read(parts[p], key));
    assert(after.skip(p + 1).skip(1) =~= rest);
    assert(before =~= seq![memtable_read(parts[p], key)] + tables);
    assert(before.skip(1) =~= tables);
}

/// Law: a deletion masks every older source: once the first source that
/// decides holds a deletion, the read gives nothing.
pub proof fn law_tombstone_masks_older(ls: Seq<Option<Option<Seq<u8>>>>, i: int)
    requires
        0 <= i < ls.len(),
        ls[i] == Some(None::<Seq<u8>>),
        forall|j: int| 0 <= j < i ==> ls[j] is None,
    ensures
        first_decided(ls) is None,
    decreases i,
{
    if i > 0 {
        assert forall|j: int| 0 <= j < i - 1 implies ls.skip(1)[j] is None by {
            assert(ls.skip(1)[j] == ls[j + 1]);
        }
        law_tombstone_masks_older(ls.skip(1), i - 1);
    }
}

/// Whether usage `current` is at least `pct` percent of the budget `max`
/// (with no budget, any usage is, and no usage is not).
pub open spec fn at_least_percent(current: int, max: int, pct: int) -> bool {
    if max == 0 {
        current > 0
    } else {
        100 * current >= pct * max
    }
}

/// What a write does before it touches the write-ahead log.
#[derive(Debug, Clone, Copy, PartialEq, Eq, Structural)]
pub enum WriteDecision {
    /// Memory use is at 95% of the budget or more: ask for a flush, wait
    /// briefly, and decide again.
    Block,
    /// The cached free-space figure is stale: measure the disk and decide
    /// again (a flush was asked for first when `flush` is set).
    MeasureDisk {
        /// Whether an early flush is asked for.
        flush: bool,
    },
    /// The disk has less free space than required: the write is refused.
    DiskFull {
        /// Whether an early flush is asked for.
        flush: bool,
        /// Bytes available.
        available: u64,
        /// Bytes required.
        required: u64,
    },
    /// The WAL writer thread has died: the write is refused.
    WalDown {
        /// Whether an early flush is asked for.
        flush: bool,
    },
    /// The write goes ahead.
    Proceed {
        /// Whether an early flush is asked for (memory use at 80% or more).
        flush: bool,
    },
}

/// The admission of a write: memory budget first (block at 95%, ask for an
/// early flush at 80%), then the disk-space check, then the WAL writer's
/// health.
pub open spec fn spec_admit_write(
    max_memory: Option<usize>,
    current: usize,
    disk: DiskCheckStep,
    wal_healthy: bool,
) -> WriteDecision {
    if max_memory matches Some(m) && at_least_percent(current as int, m as int, 95) {
        WriteDecision::Block
    } else {
        let flush = max_memory matches Some(m) && at_least_percent(current as int, m as int, 80);
        match disk {
            DiskCheckStep::Refresh => WriteDecision::MeasureDisk { flush },
            DiskCheckStep::Fail { available, required } => WriteDecision::DiskFull { flush, available, required },
            DiskCheckStep::Pass => if wal_healthy {
                WriteDecision::Proceed { flush }
            } else {
                WriteDecision::WalDown { flush }
            },
        }
    }
}

/// Decide what a write does: block while memory use is at 95% of the budget
/// or more, ask for an early flush at 80% or more, refuse the write when
/// the disk check fails or the WAL writer has died, and otherwise proceed.
pub fn admit_write(max_memory: Option<usize>, current: usize, disk: DiskCheckStep, wal_healthy: bool) -> (r: WriteDecision)
    ensures
        r == spec_admit_write(max_memory, current, disk, wal_healthy),
{
    let cur = current as u128;
    let (block, flush) = match max_memory {
        Some(m) => {
            let m = m as u128;
            let at95 = if m == 0 {
                cur > 0
            } else {
                100 * cur >= 95 * m
            };
            let at80 = if m == 0 {
                cur > 0
            } else {
                100 * cur >= 80 * m
            };
            (at95, at80)
        },
        None => (false, false),
    };
    if block {
        return WriteDecision::Block;
    }
    match disk {
        DiskCheckStep::Refresh => WriteDecision::MeasureDisk { flush },
        DiskCheckStep::Fail { available, required } => WriteDecision::DiskFull { flush, available, required },
        DiskCheckStep::Pass => if wal_healthy {
            WriteDecision::Proceed { flush }
        } else {
            WriteDecision::WalDown { flush }
        },
    }
}

/// The SSTables kept for a compaction: those whose header could be read and
/// whose largest sequence number is at most `safe_seq`, in order.
pub open spec fn compaction_inputs(paths: Seq<PathBuf>, max_seqs: Seq<Option<u64>>, safe_seq: u64) -> Seq<PathBuf>
    decreases paths.len(),
{
    if paths.len() == 0 {
        Seq::empty()
    } else {
        let rest = compaction_inputs(paths.drop_last(), max_seqs.drop_last(), safe_seq);
        if max_seqs.last() matches Some(s) && s <= safe_seq {
            rest.push(paths.last())
        } else {
            rest
        }
    }
}

/// Choose the SSTables of a level to compact: only those whose largest
/// sequence number (read from each header; `None` where it could not be
/// read) is at most the largest flushed sequence number, in order, so that
/// keys still held in memory are never compacted away.
pub fn select_compaction_inputs(paths: Vec<PathBuf>, max_seqs: &[Option<u64>], safe_seq: u64) -> (r: Vec<PathBuf>)
    requires
        max_seqs@.len() == paths@.len(),
    ensures
        r@ == compaction_inputs(paths@, max_seqs@, safe_seq),
{
    let ghost ps = paths@;
    let mut r: Vec<PathBuf> = Vec::new();
    let mut i: usize = 0;
    for p in it: paths
        invariant
            ps == it.seq(),
            max_seqs@.len() == ps.len(),
            i == it.index(),
            r@ == compaction_inputs(ps.take(i as int), max_seqs@.take(i as int), safe_seq),
    {
        proof {
            assert(ps[i as int] == p);
            assert(ps.take(i + 1).drop_last() =~= ps.take(i as int));
            assert(max_seqs@.take(i + 1).drop_last() =~= max_seqs@.take(i as int));
            assert(max_seqs@.take(i + 1).last() == max_seqs@[i as int]);
        }
        match max_seqs[i] {
            Some(s) => {
                if s <= safe_seq {
                    r.push(p);
                }
            },
            None => {},
        }
        i = i + 1;
    }
    proof {
        assert(ps.take(ps.len() as int) =~= ps);
        assert(max_seqs@.take(ps.len() as int) =~= max_seqs@);
    }
    r
}

} // verus!
