use seerdb::db::{
    cached_disk_check, check_available_space, estimate_memory_usage, health_report, increment_bytes,
    partition_for_key, DBError, DiskCheckStep, NUM_PARTITIONS,
};
use seerdb::health::{CheckStatus, HealthCheck, HealthStatus};

#[test]
fn test_health_status_all_healthy() {
    let checks = vec![
        HealthCheck::healthy("disk_space"),
        HealthCheck::healthy("compaction_lag"),
        HealthCheck::healthy("wal_size"),
    ];

    let status = HealthStatus::new(checks);
    assert!(status.healthy);
    assert!(!status.has_degraded());
    assert!(!status.has_unhealthy());
}

#[test]
fn test_health_status_degraded() {
    let checks = vec![
        HealthCheck::healthy("disk_space"),
        HealthCheck::degraded("compaction_lag", "L0 has 12 SSTables (>10)"),
        HealthCheck::healthy("wal_size"),
    ];

    let status = HealthStatus::new(checks);
    assert!(!status.healthy);
    assert!(status.has_degraded());
    assert!(!status.has_unhealthy());
}

#[test]
fn test_health_status_unhealthy() {
    let checks = vec![
        HealthCheck::healthy("disk_space"),
        HealthCheck::unhealthy("compaction_lag", "L0 has 25 SSTables (>20)"),
        HealthCheck::healthy("wal_size"),
    ];

    let status = HealthStatus::new(checks);
    assert!(!status.healthy);
    assert!(!status.has_degraded());
    assert!(status.has_unhealthy());
}

#[test]
fn test_health_check_display() {
    let check = HealthCheck::degraded("compaction_lag", "L0 has 12 SSTables");
    let display = check.display_string();
    assert!(display.contains("compaction_lag"));
    assert!(display.contains("DEGRADED"));
    assert!(display.contains("L0 has 12 SSTables"));
}

#[test]
fn test_health_status_display() {
    let checks = vec![HealthCheck::healthy("disk_space"), HealthCheck::degraded("compaction_lag", "L0 has 12 SSTables")];

    let status = HealthStatus::new(checks);
    let display = status.display_string();
    assert!(display.contains("DEGRADED"));
    assert!(display.contains("disk_space"));
    assert!(display.contains("compaction_lag"));
}

#[test]
fn health_check_exact_text() {
    assert_eq!(HealthCheck::healthy("disk").display_string(), "disk: HEALTHY");
    assert_eq!(HealthCheck::unhealthy("wal", "too big").display_string(), "wal: UNHEALTHY - too big");
    assert_eq!(CheckStatus::Degraded.display_string(), "DEGRADED");
}

#[test]
fn test_increment_bytes_helper() {
    assert_eq!(increment_bytes(b"user"), Some(b"uses".to_vec()));
    assert_eq!(increment_bytes(b"user\xff"), Some(b"uses\x00".to_vec()));
    assert_eq!(increment_bytes(b"a\xff\xff"), Some(b"b\x00\x00".to_vec()));
    assert_eq!(increment_bytes(b"\xff\xff"), None);
    assert_eq!(increment_bytes(b"a"), Some(b"b".to_vec()));
    assert_eq!(increment_bytes(b"\xff"), None);
    assert_eq!(increment_bytes(b""), None);
}

#[test]
fn partition_is_stable_and_in_range() {
    for key in [&b""[..], b"a", b"user:1", b"\xff\x00"] {
        let p = partition_for_key(key);
        assert!(p < NUM_PARTITIONS);
        assert_eq!(p, partition_for_key(key));
    }
}

#[test]
fn memory_estimate_adds_caches() {
    let base = estimate_memory_usage(&[], None);
    assert_eq!(estimate_memory_usage(&[10, 20], None), base + 30);
    assert_eq!(estimate_memory_usage(&[10, 20], Some(&[5])), base + 35);
    assert_eq!(base, 40960000 + 1024000);
}

#[test]
fn disk_space_checks() {
    assert!(check_available_space(10, 10).is_ok());
    assert!(matches!(check_available_space(9, 10), Err(DBError::DiskSpaceFull { available: 9, required: 10 })));
    assert_eq!(cached_disk_check(None, 100, 0, 0), DiskCheckStep::Pass);
    assert_eq!(cached_disk_check(Some(50), 105, 100, 10), DiskCheckStep::Fail { available: 10, required: 50 });
    assert_eq!(cached_disk_check(Some(50), 105, 100, 60), DiskCheckStep::Pass);
    assert_eq!(cached_disk_check(Some(50), 200, 100, 60), DiskCheckStep::Refresh);
}

#[test]
fn health_report_grades_and_messages() {
    let report = health_report(12, 150 * 1024 * 1024, 96, 100, 50_000, 2_000_000);
    assert!(!report.healthy);
    assert_eq!(report.checks.len(), 5);
    assert_eq!(report.checks[0].name, "compaction_lag");
    assert_eq!(report.checks[0].status, CheckStatus::Degraded);
    assert_eq!(report.checks[0].message.as_deref(), Some("L0 has 12 SSTables (threshold: 10)"));
    assert_eq!(report.checks[1].message.as_deref(), Some("WAL is 150 MB (threshold: 100 MB)"));
    assert_eq!(report.checks[2].status, CheckStatus::Unhealthy);
    assert_eq!(report.checks[2].message.as_deref(), Some("Memtable is 96.0% full (threshold: 95%)"));
    assert_eq!(report.checks[3].status, CheckStatus::Healthy);
    assert_eq!(report.checks[3].message.as_deref(), Some("Put p99 is 50 ms"));
    assert_eq!(report.checks[4].status, CheckStatus::Unhealthy);
    assert_eq!(report.checks[4].message.as_deref(), Some("Get p99 is 2000 ms (threshold: 500 ms)"));

    let calm = health_report(0, 0, 1, 3, 0, 0);
    assert!(calm.healthy);
    assert_eq!(calm.checks[2].message.as_deref(), Some("Memtable is 33.3% full"));
}

#[test]
fn health_report_rounds_ties_to_even_and_handles_zero_capacity() {
    let r = health_report(0, 0, 1, 16, 0, 0);
    assert_eq!(r.checks[2].message.as_deref(), Some("Memtable is 6.2% full"));
    let r = health_report(0, 0, 3, 16, 0, 0);
    assert_eq!(r.checks[2].message.as_deref(), Some("Memtable is 18.8% full"));
    let empty = health_report(0, 0, 0, 0, 0, 0);
    assert_eq!(empty.checks[2].status, CheckStatus::Healthy);
    assert_eq!(empty.checks[2].message.as_deref(), Some("Memtable is NaN% full"));
    let full = health_report(0, 0, 5, 0, 0, 0);
    assert_eq!(full.checks[2].status, CheckStatus::Unhealthy);
    assert_eq!(full.checks[2].message.as_deref(), Some("Memtable is inf% full (threshold: 95%)"));
}
