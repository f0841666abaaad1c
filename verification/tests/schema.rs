use tigerbeetle::schema::manifest_node::{
    Event, Label, Metadata, TableInfo, ENTRY_COUNT_MAX, ENTRY_SIZE,
};
use tigerbeetle::schema::{assert_area_zeroed, le_u128_at, le_u16_at, le_u32_at, le_u64_at};

#[test]
fn integers_are_little_endian() {
    let bytes: Vec<u8> = (1..=20).collect();
    assert_eq!(le_u16_at(&bytes, 1), 0x0302);
    assert_eq!(le_u32_at(&bytes, 0), 0x0403_0201);
    assert_eq!(le_u64_at(&bytes, 0), 0x0807_0605_0403_0201);
    assert_eq!(le_u128_at(&bytes, 4), 0x1413_1211_100f_0e0d_0c0b_0a09_0807_0605);
}

#[test]
fn areas_are_zeroed() {
    assert!(assert_area_zeroed(&[1, 0, 0, 1], 1, 2));
    assert!(!assert_area_zeroed(&[1, 0, 0, 1], 1, 3));
    assert!(assert_area_zeroed(&[1], 1, 0));
}

#[test]
fn metadata_round_trips() {
    let metadata = Metadata {
        previous_manifest_block_checksum: u128::MAX - 3,
        previous_manifest_block_address: 77,
        entry_count: 5,
    };
    let wire = metadata.to_wire();
    assert_eq!(wire[..16], (u128::MAX - 3).to_le_bytes());
    assert_eq!(wire[32..40], 77_u64.to_le_bytes());
    assert_eq!(wire[40..44], 5_u32.to_le_bytes());
    assert!(wire[16..32].iter().chain(&wire[44..]).all(|&byte| byte == 0));
    assert_eq!(Metadata::from_wire(&wire), metadata);
}

#[test]
fn labels_pack_the_event_above_the_level() {
    assert_eq!(Label { level: 6, event: Event::Insert }.to_u8(), 0x46);
    assert_eq!(Label { level: 63, event: Event::Remove }.to_u8(), 0xff);
    for bits in 0..=255 {
        assert_eq!(Label::from_u8(bits).to_u8(), bits);
    }
}

#[test]
fn entries_round_trip() {
    assert_eq!(ENTRY_SIZE, 128);
    assert_eq!(ENTRY_COUNT_MAX, 30);
    let entry = TableInfo {
        key_min: [1; 32],
        key_max: [2; 32],
        checksum: 3,
        address: 4,
        snapshot_min: 5,
        snapshot_max: 6,
        value_count: 7,
        tree_id: 8,
        label: Label { level: 2, event: Event::Update },
    };
    let wire = entry.to_wire();
    assert_eq!(wire.len(), ENTRY_SIZE);
    assert_eq!(TableInfo::from_wire(&wire), entry);
}
