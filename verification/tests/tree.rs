use tigerbeetle::constants::{LSM_GROWTH_FACTOR, LSM_LEVELS};
use tigerbeetle::tree::{
    table_count_max_for_level, table_count_max_for_tree, SNAPSHOT_LATEST, TABLE_COUNT_MAX,
};

#[test]
fn table_count_max_for_level_and_tree() {
    assert_eq!(table_count_max_for_level(8, 0), 8);
    assert_eq!(table_count_max_for_level(8, 1), 64);
    assert_eq!(table_count_max_for_level(8, 2), 512);
    assert_eq!(table_count_max_for_level(8, 3), 4096);
    assert_eq!(table_count_max_for_level(8, 4), 32768);
    assert_eq!(table_count_max_for_level(8, 5), 262_144);
    assert_eq!(table_count_max_for_level(8, 6), 2_097_152);

    assert_eq!(table_count_max_for_tree(8, 2), 8 + 64);
    assert_eq!(table_count_max_for_tree(8, 3), 72 + 512);
    assert_eq!(table_count_max_for_tree(8, 4), 584 + 4_096);
    assert_eq!(table_count_max_for_tree(8, 5), 4_680 + 32_768);
    assert_eq!(table_count_max_for_tree(8, 6), 37448 + 262_144);
    assert_eq!(table_count_max_for_tree(8, 7), 299_592 + 2_097_152);
}

#[test]
fn constants_match_upstream_defaults() {
    assert_eq!(SNAPSHOT_LATEST, u64::MAX - 1);
    let expected: u32 =
        (0..u32::from(LSM_LEVELS)).map(|level| LSM_GROWTH_FACTOR.pow(level + 1)).sum();
    assert_eq!(TABLE_COUNT_MAX, expected);
}
