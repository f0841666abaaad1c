use tigerbeetle::composite_key::{
    CompositeKey, CompositeKey128, CompositeKey64, CompositeKeyUnit, TOMBSTONE_BIT, U256,
};

#[test]
fn composite_key_u64_and_u128_field_ordering() {
    for _ in [false, true] {
        // Prefix = u128:
        {
            let a = CompositeKey128 { field: 1, timestamp: 100, padding: 0 };
            let b = CompositeKey128 { field: 1, timestamp: 101, padding: 0 };
            assert!(a.key_from_value() < b.key_from_value());
        }

        {
            let a = CompositeKey128 { field: 1, timestamp: 100, padding: 0 };
            let b = CompositeKey128 { field: 2, timestamp: 99, padding: 0 };
            assert!(a.key_from_value() < b.key_from_value());
        }

        {
            let a = CompositeKey128 { field: 1, timestamp: 0x64 | TOMBSTONE_BIT, padding: 0 };
            let b = CompositeKey128 { field: 1, timestamp: 100, padding: 0 };
            assert_eq!(a.key_from_value(), b.key_from_value());
        }

        {
            let value = CompositeKey128 { field: 1, timestamp: 100, padding: 0 };
            assert!(!value.tombstone());
        }

        {
            let value = CompositeKey128 { field: 1, timestamp: 100, padding: 0 };
            let tombstone = CompositeKey128::tombstone_from_key(value.key_from_value());
            assert!(tombstone.tombstone());
            assert_eq!(tombstone.timestamp, 0x64 | TOMBSTONE_BIT);
        }

        // Prefix = u64:
        {
            let a = CompositeKey64 { field: 1, timestamp: 100 };
            let b = CompositeKey64 { field: 1, timestamp: 101 };
            assert!(a.key_from_value() < b.key_from_value());
        }

        {
            let a = CompositeKey64 { field: 1, timestamp: 100 };
            let b = CompositeKey64 { field: 2, timestamp: 99 };
            assert!(a.key_from_value() < b.key_from_value());
        }

        {
            let a = CompositeKey64 { field: 1, timestamp: 0x64 | TOMBSTONE_BIT };
            let b = CompositeKey64 { field: 1, timestamp: 100 };
            assert_eq!(a.key_from_value(), b.key_from_value());
        }

        {
            let value = CompositeKey64 { field: 1, timestamp: 100 };
            assert!(!value.tombstone());
        }

        {
            let value = CompositeKey64 { field: 1, timestamp: 100 };
            let tombstone = CompositeKey64::tombstone_from_key(value.key_from_value());
            assert!(tombstone.tombstone());
            assert_eq!(tombstone.timestamp, 0x64 | TOMBSTONE_BIT);
        }
    }
}

#[test]
fn composite_key_void() {
    {
        let a = CompositeKeyUnit { field: (), timestamp: 100 };
        let b = CompositeKeyUnit { field: (), timestamp: 101 };
        assert!(a.key_from_value() < b.key_from_value());
    }

    {
        let a = CompositeKeyUnit { field: (), timestamp: 0x64 | TOMBSTONE_BIT };
        let b = CompositeKeyUnit { field: (), timestamp: 100 };
        assert_eq!(a.key_from_value(), b.key_from_value());
    }

    {
        let value = CompositeKeyUnit { field: (), timestamp: 100 };
        assert!(!value.tombstone());
    }

    {
        let value = CompositeKeyUnit { field: (), timestamp: 100 };
        let tombstone = CompositeKeyUnit::tombstone_from_key(value.key_from_value());
        assert!(tombstone.tombstone());
        assert_eq!(tombstone.timestamp, 0x64 | TOMBSTONE_BIT);
    }
}

#[test]
fn sentinel_keys_match_max_fields_and_timestamps() {
    assert_eq!(CompositeKeyUnit::sentinel_key(), !TOMBSTONE_BIT);
    assert_eq!(
        CompositeKey64::sentinel_key(),
        (u128::from(u64::MAX) << 64) | u128::from(!TOMBSTONE_BIT)
    );
    assert_eq!(
        CompositeKey128::sentinel_key(),
        U256::from_parts(u128::MAX, !TOMBSTONE_BIT)
    );
}

#[test]
fn key_prefix_round_trips() {
    let value = CompositeKey64 { field: 0x1234_5678_9abc_def0, timestamp: 7 };
    let key = value.key_from_value();
    assert_eq!(<CompositeKey64 as CompositeKey>::key_prefix(key), value.field);

    let value = CompositeKey128 {
        field: u128::from_be_bytes(core::array::from_fn(|i: usize| (i + 1) as u8)),
        timestamp: 9,
        padding: 0,
    };
    let key = value.key_from_value();
    assert_eq!(<CompositeKey128 as CompositeKey>::key_prefix(key), value.field);
}

#[test]
fn default_keys_are_zero() {
    assert_eq!(CompositeKeyUnit::default(), CompositeKeyUnit { field: (), timestamp: 0 });
    assert_eq!(CompositeKey64::default(), CompositeKey64 { field: 0, timestamp: 0 });
    assert_eq!(CompositeKey128::default(), CompositeKey128 { field: 0, timestamp: 0, padding: 0 });
    assert_eq!(U256::default(), U256::from_parts(0, 0));
}
