use tigerbeetle::timestamp_range::TimestampRange;

#[test]
fn bounds_match_upstream() {
    assert_eq!(TimestampRange::TIMESTAMP_MIN, 1);
    assert_eq!(TimestampRange::TIMESTAMP_MAX, u64::MAX >> 1);
    assert_eq!(TimestampRange::all(), TimestampRange { min: 1, max: i64::MAX as u64 });
}

#[test]
fn gte_and_lte_pin_one_bound() {
    assert_eq!(
        TimestampRange::gte(7),
        TimestampRange { min: 7, max: TimestampRange::TIMESTAMP_MAX }
    );
    assert_eq!(
        TimestampRange::lte(7),
        TimestampRange { min: TimestampRange::TIMESTAMP_MIN, max: 7 }
    );
}

#[test]
fn valid_rejects_zero_and_tombstone_bit() {
    assert!(!TimestampRange::valid(0));
    assert!(TimestampRange::valid(1));
    assert!(TimestampRange::valid(TimestampRange::TIMESTAMP_MAX));
    assert!(!TimestampRange::valid(TimestampRange::TIMESTAMP_MAX + 1));
}
