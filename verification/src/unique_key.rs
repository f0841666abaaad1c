//! A map from a unique field to a timestamp, which is the primary key.
//!
//! Unlike a composite key, it is ordered by its field alone. The most significant bit of the
//! timestamp marks a deleted value, a tombstone.

use crate::composite_key::TOMBSTONE_BIT;
use crate::key::OrderedKey;
use vstd::prelude::*;

verus! {

/// What every unique key can do.
pub trait UniqueKey: Copy {
    /// The unique field.
    type Key: OrderedKey;

    /// The greatest key.
    const SENTINEL_KEY: Self::Key;

    spec fn key_of(self) -> Self::Key;

    spec fn is_tombstone(self) -> bool;

    fn key_from_value(&self) -> (result: Self::Key)
        ensures
            result == self.key_of(),
    ;

    fn tombstone(&self) -> (result: bool)
        ensures
            result == self.is_tombstone(),
    ;

    /// The tombstone that has `field` for its key.
    fn tombstone_from_key(field: Self::Key) -> (result: Self)
        ensures
            result.key_of() == field,
            result.is_tombstone(),
    ;
}

/// A `u64` field and a timestamp.
#[derive(Clone, Copy, Debug, Default, PartialEq, Eq)]
pub struct UniqueKey64 {
    pub field: u64,
    pub timestamp: u64,
}

impl UniqueKey for UniqueKey64 {
    type Key = u64;

    const SENTINEL_KEY: u64 = u64::MAX;

    open spec fn key_of(self) -> u64 {
        self.field
    }

    open spec fn is_tombstone(self) -> bool {
        self.timestamp >= TOMBSTONE_BIT
    }

    fn key_from_value(&self) -> (result: u64) {
        self.field
    }

    fn tombstone(&self) -> (result: bool) {
        self.timestamp >= TOMBSTONE_BIT
    }

    fn tombstone_from_key(field: u64) -> (result: Self)
        ensures
            result.timestamp == TOMBSTONE_BIT,
    {
        UniqueKey64 { field, timestamp: TOMBSTONE_BIT }
    }
}

/// A `u128` field and a timestamp.
#[derive(Clone, Copy, Debug, Default, PartialEq, Eq)]
pub struct UniqueKey128 {
    pub field: u128,
    pub timestamp: u64,
    pub padding: u64,
}

impl UniqueKey for UniqueKey128 {
    type Key = u128;

    const SENTINEL_KEY: u128 = u128::MAX;

    open spec fn key_of(self) -> u128 {
        self.field
    }

    open spec fn is_tombstone(self) -> bool {
        self.timestamp >= TOMBSTONE_BIT
    }

    fn key_from_value(&self) -> (result: u128) {
        self.field
    }

    fn tombstone(&self) -> (result: bool) {
        self.timestamp >= TOMBSTONE_BIT
    }

    fn tombstone_from_key(field: u128) -> (result: Self)
        ensures
            result.timestamp == TOMBSTONE_BIT,
            result.padding == 0,
    {
        UniqueKey128 { field, timestamp: TOMBSTONE_BIT, padding: 0 }
    }
}

/// Two values have the same key if and only if they have the same field, whatever their timestamps.
pub proof fn law_unique_keys_ignore_timestamps(
    a: UniqueKey64,
    b: UniqueKey64,
    wide_a: UniqueKey128,
    wide_b: UniqueKey128,
)
    ensures
        a.key_of() == b.key_of() <==> a.field == b.field,
        wide_a.key_of() == wide_b.key_of() <==> wide_a.field == wide_b.field,
{
}

/// A tombstone has the highest bit of its timestamp set, and its key is its field.
pub proof fn law_unique_tombstones_are_marked(narrow: UniqueKey64, wide: UniqueKey128)
    ensures
        narrow.is_tombstone() <==> narrow.timestamp as int / 0x8000_0000_0000_0000 == 1,
        wide.is_tombstone() <==> wide.timestamp as int / 0x8000_0000_0000_0000 == 1,
        narrow.key_of() == narrow.field,
        wide.key_of() == wide.field,
{
}

} // verus!
