use seerdb::sstable_names::{max_sstable_counter, next_sstable_counter, parse_decimal_u64, sstable_counter_of};

#[test]
fn sstable_counter_from_names() {
    assert_eq!(sstable_counter_of(b"L0_000123.sst"), Some(123));
    assert_eq!(sstable_counter_of(b"L3_000007.sst"), Some(7));
    assert_eq!(sstable_counter_of(b"L1_5_x.sst"), None);
    assert_eq!(sstable_counter_of(b"L1_42.sst_more"), Some(42));
    assert_eq!(sstable_counter_of(b"L1_42_more.sst"), None);
    assert_eq!(sstable_counter_of(b"L2_9.sst_L"), Some(9));
    assert_eq!(sstable_counter_of(b"X0_000001.sst"), None);
    assert_eq!(sstable_counter_of(b"L0000001.sst"), None);
    assert_eq!(sstable_counter_of(b"L0_abc.sst"), None);
    assert_eq!(sstable_counter_of(b"L0_12.log"), None);
    assert_eq!(sstable_counter_of(b""), None);
}

#[test]
fn parse_decimal_follows_str_parse() {
    for s in ["0", "+17", "18446744073709551615", "18446744073709551616", "", "+", "-1", "1a", "007"] {
        assert_eq!(parse_decimal_u64(s.as_bytes()), s.parse::<u64>().ok(), "{}", s);
    }
}

#[test]
fn next_counter_continues_after_largest() {
    let names = vec![b"L0_000003.sst".to_vec(), b"L1_000010.sst".to_vec(), b"junk".to_vec()];
    assert_eq!(max_sstable_counter(&names), 10);
    assert_eq!(next_sstable_counter(&names), Some(11));
    assert_eq!(next_sstable_counter(&[]), Some(1));
    let full = vec![b"L0_18446744073709551615.sst".to_vec()];
    assert_eq!(next_sstable_counter(&full), None);
}
