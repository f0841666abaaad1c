//! When compactions run, and which snapshots see their tables.

use crate::constants::{LSM_COMPACTION_OPS, LSM_COMPACTION_QUEUE_READ_MAX, LSM_GROWTH_FACTOR};
use vstd::prelude::*;

verus! {

/// The tables that a compaction reads at most: one of level A, and those of level B that it
/// overlaps.
pub const COMPACTION_TABLES_INPUT_MAX: usize = 1 + LSM_GROWTH_FACTOR as usize;

/// The tables that a compaction writes at most: no value may be superseded.
pub const COMPACTION_TABLES_OUTPUT_MAX: usize = COMPACTION_TABLES_INPUT_MAX;

/// The blocks that a beat of a compaction needs at least: an index and a value block of the output
/// table, an index block of level A, two of level B, and the value blocks that are read ahead.
pub const COMPACTION_BLOCK_COUNT_BEAT_MIN: u32 = (1 + 1) + (1 + 2)
    + LSM_COMPACTION_QUEUE_READ_MAX as u32;

/// The beats of half a bar.
pub const HALF_BAR_BEAT_COUNT: usize = LSM_COMPACTION_OPS / 2;

/// The last snapshot that sees the input tables of a compaction that starts at `op_min`.
#[must_use]
pub fn snapshot_max_for_table_input(op_min: u64) -> (result: u64)
    requires
        op_min > 0,
        op_min as int % HALF_BAR_BEAT_COUNT as int == 0,
        op_min + HALF_BAR_BEAT_COUNT <= u64::MAX,
    ensures
        result == op_min + HALF_BAR_BEAT_COUNT - 1,
{
    snapshot_min_for_table_output(op_min) - 1
}

/// The first snapshot that sees the output tables of a compaction that starts at `op_min`.
#[must_use]
pub fn snapshot_min_for_table_output(op_min: u64) -> (result: u64)
    requires
        op_min > 0,
        op_min as int % HALF_BAR_BEAT_COUNT as int == 0,
        op_min + HALF_BAR_BEAT_COUNT <= u64::MAX,
    ensures
        result == op_min + HALF_BAR_BEAT_COUNT,
{
    op_min + HALF_BAR_BEAT_COUNT as u64
}

/// The op at which the compaction of `op` starts: the first one of its half bar.
#[must_use]
pub fn compaction_op_min(op: u64) -> (result: u64)
    requires
        op >= HALF_BAR_BEAT_COUNT,
    ensures
        result == op - op as int % HALF_BAR_BEAT_COUNT as int,
        result > 0,
        result as int % HALF_BAR_BEAT_COUNT as int == 0,
        result <= op < result + HALF_BAR_BEAT_COUNT,
{
    op - op % HALF_BAR_BEAT_COUNT as u64
}

/// Every op belongs to one compaction: the ops of a half bar start together, and the next half bar
/// starts where its snapshots do.
pub proof fn law_half_bars_follow_each_other(op: int)
    requires
        op >= HALF_BAR_BEAT_COUNT,
    ensures
        ({
            let beats = HALF_BAR_BEAT_COUNT as int;
            let op_min = op - op % beats;
            let next = op + beats;
            next - next % beats == op_min + beats
        }),
{
    assert(HALF_BAR_BEAT_COUNT == 2);
    assert((op + 2) % 2 == op % 2);
}

/// A half bar has two beats, and a compaction reads five tables at most.
pub proof fn law_half_bars_have_two_beats()
    ensures
        HALF_BAR_BEAT_COUNT == 2,
        COMPACTION_TABLES_INPUT_MAX == 5,
        COMPACTION_TABLES_OUTPUT_MAX == 5,
        COMPACTION_BLOCK_COUNT_BEAT_MIN == 13,
{
}

} // verus!
