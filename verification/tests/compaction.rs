use tigerbeetle::compaction::{
    compaction_op_min, snapshot_max_for_table_input, snapshot_min_for_table_output,
    COMPACTION_BLOCK_COUNT_BEAT_MIN, COMPACTION_TABLES_INPUT_MAX, COMPACTION_TABLES_OUTPUT_MAX,
    HALF_BAR_BEAT_COUNT,
};

#[test]
fn compaction_op_min_asserts() {
    assert_eq!(compaction_op_min(2), 2);
    assert_eq!(compaction_op_min(3), 2);
    assert_eq!(compaction_op_min(4), 4);
    assert_eq!(compaction_op_min(5), 4);
    assert_eq!(compaction_op_min(6), 6);
    assert_eq!(compaction_op_min(7), 6);
}

#[test]
fn snapshot_min_max_round_trip() {
    let op_min = 4u64;
    let snapshot_min = snapshot_min_for_table_output(op_min);
    let snapshot_max = snapshot_max_for_table_input(op_min);
    assert_eq!(snapshot_min, 6);
    assert_eq!(snapshot_max, 5);
    assert_eq!(snapshot_max + 1, snapshot_min);
}

#[test]
fn half_bars_follow_each_other() {
    assert_eq!(HALF_BAR_BEAT_COUNT, 2);
    for op in 2..50 {
        assert_eq!(compaction_op_min(op + 2), compaction_op_min(op) + 2);
        assert_eq!(compaction_op_min(op + 2), snapshot_min_for_table_output(compaction_op_min(op)));
    }
}

#[test]
fn compaction_limits() {
    assert_eq!(COMPACTION_TABLES_INPUT_MAX, 5);
    assert_eq!(COMPACTION_TABLES_OUTPUT_MAX, 5);
    assert_eq!(COMPACTION_BLOCK_COUNT_BEAT_MIN, 13);
}
