use tigerbeetle::composite_key::{CompositeKey, CompositeKey128, CompositeKey64, CompositeKeyUnit};
use tigerbeetle::unique_key::{UniqueKey, UniqueKey128, UniqueKey64};

fn assert_unique<K: UniqueKey>(_: &K) {}

fn assert_composite<K: CompositeKey>(_: &K) {}

#[test]
fn unique_key_u64_and_u128() {

    // Timestamp does not participate in comparison:
    {
        let a = UniqueKey128 { field: 1, timestamp: 100, padding: 0 };
        let b = UniqueKey128 { field: 1, timestamp: 101, padding: 0 };
        assert_eq!(a.key_from_value(), b.key_from_value());
    }

    {
        let a = UniqueKey128 { field: 1, timestamp: 100, padding: 0 };
        let b = UniqueKey128 { field: 2, timestamp: 100, padding: 0 };
        assert!(a.key_from_value() < b.key_from_value());
    }

    {
        let a = UniqueKey64 { field: 1, timestamp: 100 };
        let b = UniqueKey64 { field: 1, timestamp: 101 };
        assert_eq!(a.key_from_value(), b.key_from_value());
    }

    {
        let a = UniqueKey64 { field: 1, timestamp: 100 };
        let b = UniqueKey64 { field: 2, timestamp: 100 };
        assert!(a.key_from_value() < b.key_from_value());
    }
}

#[test]
fn tombstones_flag_the_timestamp_without_touching_the_field() {
    let value = UniqueKey64::tombstone_from_key(42);
    assert!(value.tombstone());
    assert_eq!(value.key_from_value(), 42);

    let value = UniqueKey128::tombstone_from_key(u128::from(42_u32));
    assert!(value.tombstone());
    assert_eq!(value.key_from_value(), 42);

    let value = UniqueKey64 { field: 42, timestamp: 7 };
    assert!(!value.tombstone());

    let value = UniqueKey128 { field: u128::from(42_u32), timestamp: 7, padding: 0 };
    assert!(!value.tombstone());
}

#[test]
fn sentinel_keys_are_max_int() {
    assert_eq!(UniqueKey64::SENTINEL_KEY, u64::MAX);
    assert_eq!(UniqueKey128::SENTINEL_KEY, u128::MAX);
}

#[test]
fn composite_keys_are_not_unique_keys() {
    // A composite key is identified by its field and its timestamp, a unique key by its field.
    let unique = UniqueKey64 { field: 1, timestamp: 2 };
    assert_unique(&unique);
    assert_composite(&CompositeKeyUnit { field: (), timestamp: 0 });
    assert_composite(&CompositeKey64 { field: 1, timestamp: 2 });
    assert_composite(&CompositeKey128 { field: 3, timestamp: 4, padding: 0 });
}

#[test]
fn default_unique_keys_are_zero() {
    assert_eq!(UniqueKey64::default(), UniqueKey64 { field: 0, timestamp: 0 });
    assert_eq!(UniqueKey128::default(), UniqueKey128 { field: 0, timestamp: 0, padding: 0 });
}
