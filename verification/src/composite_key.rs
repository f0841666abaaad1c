//! Keys made of a field, which is the prefix, and a timestamp, which is the primary key.
//!
//! The prefix is a `u64`, a `u128`, or nothing at all. The most significant bit of the timestamp
//! marks a deleted value, a tombstone, and is no part of the key.

use crate::key::OrderedKey;
use vstd::prelude::*;

verus! {

/// The bit of the timestamp that marks a tombstone.
pub const TOMBSTONE_BIT: u64 = 0x8000_0000_0000_0000;

/// The timestamp without its tombstone bit.
pub open spec fn spec_without_tombstone(timestamp: u64) -> u64 {
    if timestamp >= TOMBSTONE_BIT {
        (timestamp - TOMBSTONE_BIT) as u64
    } else {
        timestamp
    }
}

fn without_tombstone(timestamp: u64) -> (result: u64)
    ensures
        result == spec_without_tombstone(timestamp),
{
    if timestamp >= TOMBSTONE_BIT {
        timestamp - TOMBSTONE_BIT
    } else {
        timestamp
    }
}

/// Clearing the tombstone bit is what masking it off does.
pub proof fn law_tombstone_bit_is_masked(timestamp: u64)
    ensures
        spec_without_tombstone(timestamp) == timestamp & !TOMBSTONE_BIT,
        timestamp < TOMBSTONE_BIT ==> timestamp | TOMBSTONE_BIT == timestamp + TOMBSTONE_BIT,
{
    assert(timestamp >= 0x8000_0000_0000_0000u64 ==> timestamp & !0x8000_0000_0000_0000u64
        == timestamp - 0x8000_0000_0000_0000u64) by (bit_vector);
    assert(timestamp < 0x8000_0000_0000_0000u64 ==> timestamp & !0x8000_0000_0000_0000u64
        == timestamp && timestamp | 0x8000_0000_0000_0000u64 == timestamp
        + 0x8000_0000_0000_0000u64) by (bit_vector);
}

/// What every composite key can do.
pub trait CompositeKey: Copy {
    /// The prefix.
    type Field;

    /// The prefix and the timestamp as one ordered key.
    type Key: OrderedKey;

    /// Unused parts are zero.
    spec fn valid(self) -> bool;

    spec fn key_of(self) -> Self::Key;

    spec fn is_tombstone(self) -> bool;

    spec fn prefix_of(key: Self::Key) -> Self::Field;

    /// The timestamp within a key.
    spec fn timestamp_of(key: Self::Key) -> u64;

    /// The greatest key of all values.
    fn sentinel_key() -> (result: Self::Key)
        ensures
            forall|value: Self| #[trigger] value.key_of().rank() <= result.rank(),
            exists|value: Self| #[trigger] value.key_of() == result,
    ;

    fn key_from_value(&self) -> (result: Self::Key)
        requires
            self.valid(),
        ensures
            result == self.key_of(),
    ;

    fn key_prefix(key: Self::Key) -> (result: Self::Field)
        ensures
            result == Self::prefix_of(key),
    ;

    fn tombstone(&self) -> (result: bool)
        requires
            self.valid(),
        ensures
            result == self.is_tombstone(),
    ;

    /// The tombstone that has `key` for its key.
    fn tombstone_from_key(key: Self::Key) -> (result: Self)
        requires
            Self::timestamp_of(key) < TOMBSTONE_BIT,
        ensures
            result.valid(),
            result.key_of() == key,
            result.is_tombstone(),
    ;
}

/// A timestamp without a prefix.
#[derive(Clone, Copy, Debug, Default, PartialEq, Eq)]
pub struct CompositeKeyUnit {
    pub field: (),
    /// The most significant bit marks a tombstone.
    pub timestamp: u64,
}

impl CompositeKey for CompositeKeyUnit {
    type Field = ();

    type Key = u64;

    open spec fn valid(self) -> bool {
        true
    }

    open spec fn key_of(self) -> u64 {
        spec_without_tombstone(self.timestamp)
    }

    open spec fn is_tombstone(self) -> bool {
        self.timestamp >= TOMBSTONE_BIT
    }

    open spec fn prefix_of(key: u64) -> () {
        ()
    }

    open spec fn timestamp_of(key: u64) -> u64 {
        key
    }

    fn sentinel_key() -> (result: u64)
        ensures
            result == TOMBSTONE_BIT - 1,
    {
        let greatest = CompositeKeyUnit { field: (), timestamp: u64::MAX };
        let result = greatest.key_from_value();
        assert(greatest.key_of() == result);
        result
    }

    fn key_from_value(&self) -> (result: u64) {
        without_tombstone(self.timestamp)
    }

    fn key_prefix(key: u64) -> (result: ()) {
    }

    fn tombstone(&self) -> (result: bool) {
        self.timestamp >= TOMBSTONE_BIT
    }

    fn tombstone_from_key(key: u64) -> (result: Self) {
        CompositeKeyUnit { field: (), timestamp: key + TOMBSTONE_BIT }
    }
}

/// A `u64` prefix and a timestamp.
#[derive(Clone, Copy, Debug, Default, PartialEq, Eq)]
pub struct CompositeKey64 {
    pub field: u64,
    /// The most significant bit marks a tombstone.
    pub timestamp: u64,
}

impl CompositeKey for CompositeKey64 {
    type Field = u64;

    type Key = u128;

    open spec fn valid(self) -> bool {
        true
    }

    open spec fn key_of(self) -> u128 {
        (self.field * 0x1_0000_0000_0000_0000 + spec_without_tombstone(self.timestamp)) as u128
    }

    open spec fn is_tombstone(self) -> bool {
        self.timestamp >= TOMBSTONE_BIT
    }

    open spec fn prefix_of(key: u128) -> u64 {
        (key / 0x1_0000_0000_0000_0000) as u64
    }

    open spec fn timestamp_of(key: u128) -> u64 {
        (key % 0x1_0000_0000_0000_0000) as u64
    }

    fn sentinel_key() -> (result: u128)
        ensures
            result == u64::MAX * 0x1_0000_0000_0000_0000 + (TOMBSTONE_BIT - 1),
    {
        let greatest = CompositeKey64 { field: u64::MAX, timestamp: u64::MAX };
        let result = greatest.key_from_value();
        assert(greatest.key_of() == result);
        result
    }

    fn key_from_value(&self) -> (result: u128) {
        self.field as u128 * 0x1_0000_0000_0000_0000 + without_tombstone(self.timestamp) as u128
    }

    fn key_prefix(key: u128) -> (result: u64) {
        (key / 0x1_0000_0000_0000_0000) as u64
    }

    fn tombstone(&self) -> (result: bool) {
        self.timestamp >= TOMBSTONE_BIT
    }

    fn tombstone_from_key(key: u128) -> (result: Self) {
        let timestamp: u64 = (key % 0x1_0000_0000_0000_0000) as u64;
        CompositeKey64 { field: Self::key_prefix(key), timestamp: timestamp + TOMBSTONE_BIT }
    }
}

/// A key too wide for a `u128`: a `u128` and, below it, a `u64`.
#[derive(Clone, Copy, Default, PartialEq, Eq, PartialOrd, Ord, Debug, Structural)]
pub struct U256 {
    hi: u128,
    lo: u64,
}

impl U256 {
    pub closed spec fn spec_hi(self) -> u128 {
        self.hi
    }

    pub closed spec fn spec_lo(self) -> u64 {
        self.lo
    }

    #[must_use]
    pub fn from_parts(hi: u128, lo: u64) -> (result: Self)
        ensures
            result == Self::spec_from_parts(hi, lo),
            result.spec_hi() == hi,
            result.spec_lo() == lo,
    {
        U256 { hi, lo }
    }

    #[must_use]
    pub fn hi(self) -> (result: u128)
        ensures
            result == self.spec_hi(),
    {
        self.hi
    }

    #[must_use]
    pub fn low_word(self) -> (result: u64)
        ensures
            result == self.spec_lo(),
    {
        self.lo
    }

    pub closed spec fn spec_from_parts(hi: u128, lo: u64) -> Self {
        U256 { hi, lo }
    }

    pub proof fn lemma_from_parts(hi: u128, lo: u64)
        ensures
            Self::spec_from_parts(hi, lo).spec_hi() == hi,
            Self::spec_from_parts(hi, lo).spec_lo() == lo,
    {
    }

    /// A key is its two parts.
    pub proof fn lemma_parts_determine(a: Self, b: Self)
        requires
            a.spec_hi() == b.spec_hi(),
            a.spec_lo() == b.spec_lo(),
        ensures
            a == b,
    {
    }
}

impl OrderedKey for U256 {
    open spec fn rank(self) -> int {
        self.spec_hi() * 0x1_0000_0000_0000_0000 + self.spec_lo()
    }

    proof fn rank_injective(a: Self, b: Self) {
    }

    fn key_lt(self, other: Self) -> (result: bool) {
        self.hi < other.hi || (self.hi == other.hi && self.lo < other.lo)
    }

    fn key_le(self, other: Self) -> (result: bool) {
        self.hi < other.hi || (self.hi == other.hi && self.lo <= other.lo)
    }

    fn key_eq(self, other: Self) -> (result: bool) {
        self.hi == other.hi && self.lo == other.lo
    }
}

/// A `u128` prefix and a timestamp.
#[derive(Clone, Copy, Debug, Default, PartialEq, Eq)]
pub struct CompositeKey128 {
    pub field: u128,
    /// The most significant bit marks a tombstone.
    pub timestamp: u64,
    pub padding: u64,
}

impl CompositeKey for CompositeKey128 {
    type Field = u128;

    type Key = U256;

    open spec fn valid(self) -> bool {
        self.padding == 0
    }

    closed spec fn key_of(self) -> U256 {
        U256 { hi: self.field, lo: spec_without_tombstone(self.timestamp) }
    }

    open spec fn is_tombstone(self) -> bool {
        self.timestamp >= TOMBSTONE_BIT
    }

    open spec fn prefix_of(key: U256) -> u128 {
        key.spec_hi()
    }

    open spec fn timestamp_of(key: U256) -> u64 {
        key.spec_lo()
    }

    fn sentinel_key() -> (result: U256)
        ensures
            result.spec_hi() == u128::MAX,
            result.spec_lo() == TOMBSTONE_BIT - 1,
    {
        let greatest = CompositeKey128 { field: u128::MAX, timestamp: u64::MAX, padding: 0 };
        let result = greatest.key_from_value();
        assert(greatest.key_of() == result);
        result
    }

    fn key_from_value(&self) -> (result: U256)
        ensures
            result.spec_hi() == self.field,
            result.spec_lo() == spec_without_tombstone(self.timestamp),
    {
        U256::from_parts(self.field, without_tombstone(self.timestamp))
    }

    fn key_prefix(key: U256) -> (result: u128) {
        key.hi()
    }

    fn tombstone(&self) -> (result: bool) {
        self.timestamp >= TOMBSTONE_BIT
    }

    fn tombstone_from_key(key: U256) -> (result: Self) {
        let timestamp: u64 = key.low_word();
        CompositeKey128 {
            field: Self::key_prefix(key),
            timestamp: timestamp + TOMBSTONE_BIT,
            padding: 0,
        }
    }
}

/// Keys with a `u64` prefix are ordered by prefix and then by timestamp, whether or not they are
/// tombstones.
pub proof fn law_composite_key_64_orders_by_field_then_timestamp(
    a: CompositeKey64,
    b: CompositeKey64,
)
    ensures
        a.key_of().rank() < b.key_of().rank() <==> a.field < b.field || (a.field == b.field
            && spec_without_tombstone(a.timestamp) < spec_without_tombstone(b.timestamp)),
        CompositeKey64::prefix_of(a.key_of()) == a.field,
        CompositeKey64::timestamp_of(a.key_of()) == spec_without_tombstone(a.timestamp),
{
}

/// Keys with a `u128` prefix are ordered by prefix and then by timestamp, whether or not they are
/// tombstones.
pub proof fn law_composite_key_128_orders_by_field_then_timestamp(
    a: CompositeKey128,
    b: CompositeKey128,
)
    ensures
        a.key_of().rank() < b.key_of().rank() <==> a.field < b.field || (a.field == b.field
            && spec_without_tombstone(a.timestamp) < spec_without_tombstone(b.timestamp)),
        CompositeKey128::prefix_of(a.key_of()) == a.field,
{
}

/// A tombstone has the highest bit of its timestamp set, and that bit is no part of the key.
pub proof fn law_tombstones_keep_their_keys(
    unit: CompositeKeyUnit,
    narrow: CompositeKey64,
    wide: CompositeKey128,
)
    ensures
        unit.is_tombstone() <==> unit.timestamp as int / 0x8000_0000_0000_0000 == 1,
        narrow.is_tombstone() <==> narrow.timestamp as int / 0x8000_0000_0000_0000 == 1,
        wide.is_tombstone() <==> wide.timestamp as int / 0x8000_0000_0000_0000 == 1,
        unit.key_of() == unit.timestamp as int % 0x8000_0000_0000_0000,
        narrow.key_of() == narrow.field * 0x1_0000_0000_0000_0000 + narrow.timestamp as int
            % 0x8000_0000_0000_0000,
        wide.key_of().rank() == wide.field * 0x1_0000_0000_0000_0000 + wide.timestamp as int
            % 0x8000_0000_0000_0000,
{
}

} // verus!
