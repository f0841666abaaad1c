//! Binary searches over sorted values.

use crate::key::{ranks, sorted, OrderedKey};
use vstd::prelude::*;

verus! {

/// Which of several equal values a search settles on.
#[derive(Clone, Copy, Debug, PartialEq, Eq, Structural)]
pub enum Mode {
    /// The first of the equal values.
    LowerBound,
    /// The last of the equal values.
    UpperBound,
}

/// How to search.
#[derive(Clone, Copy, Debug)]
pub struct Config {
    pub mode: Mode,
}

impl Default for Config {
    fn default() -> (result: Self)
        ensures
            result.mode == Mode::LowerBound,
    {
        Config { mode: Mode::LowerBound }
    }
}

/// How a search reads the key of a value.
pub trait KeyFromValue<Value> {
    type Key: OrderedKey;

    spec fn key_of(&self, value: Value) -> Self::Key;

    fn key_from_value(&self, value: &Value) -> (result: Self::Key)
        ensures
            result == self.key_of(*value),
    ;
}

/// Values that are their own keys.
pub struct Identity;

impl<Key: OrderedKey> KeyFromValue<Key> for Identity {
    type Key = Key;

    open spec fn key_of(&self, value: Key) -> Key {
        value
    }

    fn key_from_value(&self, value: &Key) -> (result: Key) {
        *value
    }
}

/// The ranks of the keys of `values`.
pub open spec fn value_ranks<Value, K: KeyFromValue<Value>>(
    key_from_value: K,
    values: Seq<Value>,
) -> Seq<int> {
    Seq::new(values.len(), |i: int| key_from_value.key_of(values[i]).rank())
}

/// `index` is where a search for `key` ends: at a value equal to it, the first or the last of
/// them by `mode`, or else where it would be inserted.
pub open spec fn is_upsert_index(ranks: Seq<int>, key: int, mode: Mode, index: int) -> bool {
    &&& 0 <= index <= ranks.len()
    &&& index < ranks.len() ==> key <= ranks[index]
    &&& match mode {
        Mode::LowerBound => forall|i: int| 0 <= i < index ==> ranks[i] < key,
        Mode::UpperBound => {
            &&& forall|i: int| index < i < ranks.len() ==> key < ranks[i]
            &&& forall|i: int| 0 <= i < index ==> ranks[i] <= key
            &&& index == ranks.len() || key < ranks[index] ==> forall|i: int|
                0 <= i < index ==> ranks[i] < key
        },
    }
}

/// A search over sorted values has exactly one place to end.
pub proof fn law_upsert_index_is_unique(ranks: Seq<int>, key: int, mode: Mode, a: int, b: int)
    requires
        sorted(ranks),
        is_upsert_index(ranks, key, mode, a),
        is_upsert_index(ranks, key, mode, b),
    ensures
        a == b,
{
}

/// The index of the value equal to `key`, or where `key` would be inserted if there is none.
///
/// Among duplicates it is the first index for `Mode::LowerBound` and the last for
/// `Mode::UpperBound`. Whether the match is exact is left to the caller to compare.
pub fn binary_search_values_upsert_index<Value, K: KeyFromValue<Value>>(
    key_from_value: &K,
    values: &[Value],
    key: K::Key,
    config: Config,
) -> (result: u32)
    requires
        sorted(value_ranks(*key_from_value, values@)),
        values@.len() <= u32::MAX,
    ensures
        is_upsert_index(
            value_ranks(*key_from_value, values@),
            key.rank(),
            config.mode,
            result as int,
        ),
{
    if values.len() == 0 {
        return 0;
    }
    let ghost all = value_ranks(*key_from_value, values@);
    let mut offset: usize = 0;
    let mut length: usize = values.len();
    while length > 1
        invariant
            all == value_ranks(*key_from_value, values@),
            sorted(all),
            1 <= length,
            offset + length <= values@.len() <= u32::MAX,
            forall|i: int|
                0 <= i < offset ==> match config.mode {
                    Mode::LowerBound => all[i] < key.rank(),
                    Mode::UpperBound => all[i] <= key.rank(),
                },
            forall|i: int|
                offset + length <= i < all.len() ==> match config.mode {
                    Mode::LowerBound => key.rank() <= all[i],
                    Mode::UpperBound => key.rank() < all[i],
                },
            offset > 0 ==> match config.mode {
                Mode::LowerBound => all[offset as int] < key.rank(),
                Mode::UpperBound => all[offset as int] <= key.rank(),
            },
        decreases length,
    {
        let half: usize = length / 2;
        let mid: usize = offset + half;
        let mid_key = key_from_value.key_from_value(&values[mid]);
        assert(mid_key.rank() == all[mid as int]);
        // An exact match keeps to the first half for `LowerBound`, to the second for `UpperBound`.
        let take_upper_half = match config.mode {
            Mode::LowerBound => mid_key.key_lt(key),
            Mode::UpperBound => mid_key.key_le(key),
        };
        if take_upper_half {
            offset = mid;
        }
        length = length - half;
    }
    let offset_key = key_from_value.key_from_value(&values[offset]);
    assert(offset_key.rank() == all[offset as int]);
    if offset_key.key_lt(key) {
        offset = offset + 1;
    }
    offset as u32
}

/// `binary_search_values_upsert_index` on bare keys.
pub fn binary_search_keys_upsert_index<Key: OrderedKey>(
    keys: &[Key],
    key: Key,
    config: Config,
) -> (result: u32)
    requires
        sorted(ranks(keys@)),
        keys@.len() <= u32::MAX,
    ensures
        is_upsert_index(ranks(keys@), key.rank(), config.mode, result as int),
{
    assert(value_ranks(Identity, keys@) =~= ranks(keys@));
    binary_search_values_upsert_index(&Identity, keys, key, config)
}

/// Where a search ended, and whether it ended at a value equal to the key.
#[derive(Clone, Copy, Debug, PartialEq, Eq, Structural)]
pub struct BinarySearchResult {
    pub index: u32,
    pub exact: bool,
}

/// The value equal to `key`, if any: the first or the last of them by `config.mode`.
pub fn binary_search_values<'a, Value, K: KeyFromValue<Value>>(
    key_from_value: &K,
    values: &'a [Value],
    key: K::Key,
    config: Config,
) -> (result: Option<&'a Value>)
    requires
        sorted(value_ranks(*key_from_value, values@)),
        values@.len() <= u32::MAX,
    ensures
        match result {
            Some(value) => exists|i: int| #[trigger]
                is_upsert_index(
                    value_ranks(*key_from_value, values@),
                    key.rank(),
                    config.mode,
                    i,
                ) && i < values@.len() && *value == values@[i] && key_from_value.key_of(values@[i])
                    == key,
            None => forall|i: int|
                0 <= i < values@.len() ==> key_from_value.key_of(#[trigger] values@[i]) != key,
        },
{
    let index: u32 = binary_search_values_upsert_index(key_from_value, values, key, config);
    let ghost all = value_ranks(*key_from_value, values@);
    if (index as usize) < values.len() {
        let value = &values[index as usize];
        if key_from_value.key_from_value(value).key_eq(key) {
            return Some(value);
        }
        proof {
            <K::Key as OrderedKey>::rank_injective(
                key_from_value.key_of(values@[index as int]),
                key,
            );
            assert(all[index as int] > key.rank());
        }
    }
    proof {
        assert forall|i: int| 0 <= i < values@.len() implies key_from_value.key_of(
            #[trigger] values@[i],
        ) != key by {
            assert(all[i] == key_from_value.key_of(values@[i]).rank());
            if i > index {
                assert(all[index as int] <= all[i]);
            }
        }
    }
    None
}

/// Where a search for `key` ends among bare keys, and whether it found the key.
#[must_use]
pub fn binary_search_keys<Key: OrderedKey>(
    keys: &[Key],
    key: Key,
    config: Config,
) -> (result: BinarySearchResult)
    requires
        sorted(ranks(keys@)),
        keys@.len() <= u32::MAX,
    ensures
        is_upsert_index(ranks(keys@), key.rank(), config.mode, result.index as int),
        result.exact == keys@.contains(key),
{
    let index: u32 = binary_search_keys_upsert_index(keys, key, config);
    let exact = (index as usize) < keys.len() && keys[index as usize].key_eq(key);
    proof {
        let all = ranks(keys@);
        if keys@.contains(key) {
            let i = choose|i: int| 0 <= i < keys@.len() && keys@[i] == key;
            assert(all[i] == key.rank());
            if i > index {
                assert(all[index as int] <= all[i]);
            }
            assert(all[index as int] == key.rank());
            Key::rank_injective(keys@[index as int], key);
        }
    }
    BinarySearchResult { index, exact }
}

/// Where the searches for the two ends of a range end.
#[derive(Clone, Copy, Debug, PartialEq, Eq, Structural)]
pub struct BinarySearchRangeUpsertIndexes {
    pub start: u32,
    pub end: u32,
}

/// The ranks from `start` on.
pub open spec fn ranks_from(ranks: Seq<int>, start: int) -> Seq<int> {
    ranks.subrange(start, ranks.len() as int)
}

/// The indexes of the values equal to `key_min` and `key_max`, or where they would be inserted.
///
/// Among duplicates `start` is the first index and `end` the last.
pub fn binary_search_values_range_upsert_indexes<Value, K: KeyFromValue<Value>>(
    key_from_value: &K,
    values: &[Value],
    key_min: K::Key,
    key_max: K::Key,
) -> (result: BinarySearchRangeUpsertIndexes)
    requires
        sorted(value_ranks(*key_from_value, values@)),
        values@.len() <= u32::MAX,
        key_min.rank() <= key_max.rank(),
    ensures
        result.start <= result.end,
        is_upsert_index(
            value_ranks(*key_from_value, values@),
            key_min.rank(),
            Mode::LowerBound,
            result.start as int,
        ),
        is_upsert_index(
            value_ranks(*key_from_value, values@),
            key_max.rank(),
            Mode::UpperBound,
            result.end as int,
        ),
{
    let ghost all = value_ranks(*key_from_value, values@);
    let start: u32 = binary_search_values_upsert_index(
        key_from_value,
        values,
        key_min,
        Config { mode: Mode::LowerBound },
    );
    if start == values.len() as u32 {
        return BinarySearchRangeUpsertIndexes { start, end: start };
    }
    let suffix = vstd::slice::slice_subrange(values, start as usize, values.len());
    let ghost rest = value_ranks(*key_from_value, suffix@);
    assert(rest =~= ranks_from(all, start as int));
    let end: u32 = binary_search_values_upsert_index(
        key_from_value,
        suffix,
        key_max,
        Config { mode: Mode::UpperBound },
    );
    proof {
        assert forall|i: int| start + end < i < all.len() implies key_max.rank() < all[i] by {
            assert(all[i] == rest[i - start]);
        }
        assert forall|i: int| 0 <= i < start + end implies all[i] <= key_max.rank() by {
            if i >= start {
                assert(all[i] == rest[i - start]);
            }
        }
        if start + end == all.len() || key_max.rank() < all[start + end] {
            if end < rest.len() {
                assert(all[start + end] == rest[end as int]);
            }
            assert forall|i: int| 0 <= i < start + end implies all[i] < key_max.rank() by {
                if i >= start {
                    assert(all[i] == rest[i - start]);
                }
            }
        }
        if end < rest.len() {
            assert(all[start + end] == rest[end as int]);
        }
    }
    BinarySearchRangeUpsertIndexes { start, end: start + end }
}

/// `binary_search_values_range_upsert_indexes` on bare keys.
pub fn binary_search_keys_range_upsert_indexes<Key: OrderedKey>(
    keys: &[Key],
    key_min: Key,
    key_max: Key,
) -> (result: BinarySearchRangeUpsertIndexes)
    requires
        sorted(ranks(keys@)),
        keys@.len() <= u32::MAX,
        key_min.rank() <= key_max.rank(),
    ensures
        result.start <= result.end,
        is_upsert_index(ranks(keys@), key_min.rank(), Mode::LowerBound, result.start as int),
        is_upsert_index(ranks(keys@), key_max.rank(), Mode::UpperBound, result.end as int),
{
    assert(value_ranks(Identity, keys@) =~= ranks(keys@));
    binary_search_values_range_upsert_indexes(&Identity, keys, key_min, key_max)
}

/// A run of consecutive values.
#[derive(Clone, Copy, Debug, PartialEq, Eq, Structural)]
pub struct BinarySearchRange {
    pub start: u32,
    pub count: u32,
}

/// `start` and `count` cut out the ranks that lie between `key_min` and `key_max`, both ends
/// included. Where every rank is below `key_min`, `start` is the last index, or zero if there is
/// none: slicing by `start` and then by `count` is always in bounds.
pub open spec fn is_range(
    ranks: Seq<int>,
    key_min: int,
    key_max: int,
    start: int,
    count: int,
) -> bool {
    &&& 0 <= start
    &&& 0 <= count
    &&& start + count <= ranks.len()
    &&& forall|i: int|
        0 <= i < ranks.len() ==> (key_min <= #[trigger] ranks[i] <= key_max <==> start <= i < start
            + count)
    &&& count == 0 ==> start == if ranks.len() == 0 {
        0
    } else if ranks.last() < key_min {
        ranks.len() - 1
    } else {
        start
    }
    &&& count == 0 && ranks.len() > 0 && ranks.last() >= key_min ==> is_upsert_index(
        ranks,
        key_min,
        Mode::LowerBound,
        start,
    )
}

/// The values between `key_min` and `key_max`, both ends included.
pub fn binary_search_values_range<Value, K: KeyFromValue<Value>>(
    key_from_value: &K,
    values: &[Value],
    key_min: K::Key,
    key_max: K::Key,
) -> (result: BinarySearchRange)
    requires
        sorted(value_ranks(*key_from_value, values@)),
        values@.len() <= u32::MAX,
        key_min.rank() <= key_max.rank(),
    ensures
        is_range(
            value_ranks(*key_from_value, values@),
            key_min.rank(),
            key_max.rank(),
            result.start as int,
            result.count as int,
        ),
{
    let upsert_indexes = binary_search_values_range_upsert_indexes(
        key_from_value,
        values,
        key_min,
        key_max,
    );
    let ghost all = value_ranks(*key_from_value, values@);
    if upsert_indexes.start == values.len() as u32 {
        let start: u32 = if upsert_indexes.start == 0 {
            0
        } else {
            upsert_indexes.start - 1
        };
        return BinarySearchRange { start, count: 0 };
    }
    let end = upsert_indexes.end as usize;
    let inclusive: u32 = if end < values.len() {
        let end_key = key_from_value.key_from_value(&values[end]);
        proof {
            <K::Key as OrderedKey>::rank_injective(end_key, key_max);
            assert(end_key.rank() == all[end as int]);
        }
        if end_key.key_eq(key_max) {
            1
        } else {
            0
        }
    } else {
        0
    };
    proof {
        assert forall|i: int| upsert_indexes.start <= i < all.len() implies key_min.rank()
            <= all[i] by {
            assert(all[upsert_indexes.start as int] <= all[i]);
        }
    }
    BinarySearchRange {
        start: upsert_indexes.start,
        count: upsert_indexes.end - upsert_indexes.start + inclusive,
    }
}

/// `binary_search_values_range` on bare keys.
pub fn binary_search_keys_range<Key: OrderedKey>(
    keys: &[Key],
    key_min: Key,
    key_max: Key,
) -> (result: BinarySearchRange)
    requires
        sorted(ranks(keys@)),
        keys@.len() <= u32::MAX,
        key_min.rank() <= key_max.rank(),
    ensures
        is_range(
            ranks(keys@),
            key_min.rank(),
            key_max.rank(),
            result.start as int,
            result.count as int,
        ),
{
    assert(value_ranks(Identity, keys@) =~= ranks(keys@));
    binary_search_values_range(&Identity, keys, key_min, key_max)
}

/// A search ends past the values that are less than the key. Where some equal it, it ends at the
/// first or at the last of those.
pub proof fn law_search_ends_at_the_key(ranks: Seq<int>, key: int, mode: Mode, index: int)
    requires
        sorted(ranks),
        is_upsert_index(ranks, key, mode, index),
    ensures
        0 <= index <= ranks.len(),
        !ranks.contains(key) || mode == Mode::LowerBound ==> forall|i: int|
            0 <= i < ranks.len() ==> (#[trigger] ranks[i] < key <==> i < index),
        ranks.contains(key) ==> index < ranks.len() && ranks[index] == key,
        ranks.contains(key) && mode == Mode::UpperBound ==> forall|i: int|
            0 <= i < ranks.len() ==> (#[trigger] ranks[i] > key <==> i > index),
{
    if ranks.contains(key) {
        let k = choose|k: int| 0 <= k < ranks.len() && ranks[k] == key;
        assert(ranks[k] == key);
        if index < ranks.len() && index < k {
            assert(ranks[index] <= ranks[k]);
        }
    } else {
        assert forall|i: int| 0 <= i < ranks.len() implies (#[trigger] ranks[i] < key <==> i
            < index) by {
            assert(ranks.contains(ranks[i]));
            if index <= i {
                assert(ranks[index] <= ranks[i]);
            }
        }
    }
}

} // verus!
