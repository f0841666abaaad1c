//! Ranges of timestamps.

use vstd::prelude::*;

verus! {

/// A range of timestamps, both ends included.
#[derive(Clone, Copy, Debug, PartialEq, Eq, Structural)]
pub struct TimestampRange {
    pub min: u64,
    pub max: u64,
}

impl TimestampRange {
    /// The least timestamp.
    pub const TIMESTAMP_MIN: u64 = 1;

    /// The greatest timestamp. The highest bit marks tombstones.
    pub const TIMESTAMP_MAX: u64 = 0x7fff_ffff_ffff_ffff;

    /// All timestamps.
    #[must_use]
    pub fn all() -> (result: Self)
        ensures
            result == (TimestampRange { min: Self::TIMESTAMP_MIN, max: Self::TIMESTAMP_MAX }),
    {
        TimestampRange { min: Self::TIMESTAMP_MIN, max: Self::TIMESTAMP_MAX }
    }

    /// The timestamps from `initial` on.
    #[must_use]
    pub fn gte(initial: u64) -> (result: Self)
        ensures
            result == (TimestampRange { min: initial, max: Self::TIMESTAMP_MAX }),
    {
        TimestampRange { min: initial, max: Self::TIMESTAMP_MAX }
    }

    /// The timestamps up to `last`.
    #[must_use]
    pub fn lte(last: u64) -> (result: Self)
        ensures
            result == (TimestampRange { min: Self::TIMESTAMP_MIN, max: last }),
    {
        TimestampRange { min: Self::TIMESTAMP_MIN, max: last }
    }

    /// Whether a timestamp is neither zero nor marked as a tombstone.
    #[must_use]
    pub fn valid(timestamp: u64) -> (result: bool)
        ensures
            result == (Self::TIMESTAMP_MIN <= timestamp <= Self::TIMESTAMP_MAX),
    {
        timestamp >= Self::TIMESTAMP_MIN && timestamp <= Self::TIMESTAMP_MAX
    }
}

} // verus!
