//! A set-associative cache: each key belongs to a set of consecutive slots, its ways, and a clock
//! hand decides which way of a full set is given up.
//!
//! Every way counts how often its value was read of late. The hand goes round the ways of a set
//! and takes one from each count; the first way whose count reaches zero is free.

pub mod packed;

pub use crate::set_associative_cache::packed::PackedUnsignedIntegerArray;

use crate::k_way_merge::is_power_of_two;
use crate::key::OrderedKey;
use crate::set_associative_cache::packed::{lemma_mask, mask_of, words_for};
use vstd::layout::size_of;
use vstd::prelude::*;

verus! {

pub open spec fn spec_max(a: int, b: int) -> int {
    if a < b {
        b
    } else {
        a
    }
}

pub open spec fn spec_min(a: int, b: int) -> int {
    if a < b {
        a
    } else {
        b
    }
}

/// What the number of values in a cache is a multiple of, so that the values of a set and the
/// counts fill whole cache lines.
pub open spec fn spec_value_count_multiple(
    value_size: u64,
    ways: u64,
    cache_line_size: u64,
    clock_bits: u64,
) -> int {
    spec_max(
        (spec_max(value_size as int, cache_line_size as int) / spec_min(
            value_size as int,
            cache_line_size as int,
        )) * ways,
        (cache_line_size * 8) / (clock_bits as int),
    )
}

/// What the number of values in a cache is a multiple of.
#[must_use]
pub fn value_count_multiple(
    value_size: u64,
    ways: u64,
    cache_line_size: u64,
    clock_bits: u64,
) -> (result: u64)
    requires
        value_size > 0,
        cache_line_size > 0,
        clock_bits > 0,
        cache_line_size * 8 <= u64::MAX,
        (spec_max(value_size as int, cache_line_size as int) / spec_min(
            value_size as int,
            cache_line_size as int,
        )) * ways <= u64::MAX,
    ensures
        result == spec_value_count_multiple(value_size, ways, cache_line_size, clock_bits),
{
    let larger: u64 = if value_size < cache_line_size {
        cache_line_size
    } else {
        value_size
    };
    let smaller: u64 = if value_size < cache_line_size {
        value_size
    } else {
        cache_line_size
    };
    let values: u64 = (larger / smaller) * ways;
    let counts: u64 = cache_line_size * 8 / clock_bits;
    if values < counts {
        counts
    } else {
        values
    }
}

/// How a cache is laid out.
pub trait Layout {
    /// The slots of a set.
    const WAYS: u64 = 16;

    const TAG_BITS: u64 = 8;

    /// The width of a count.
    const CLOCK_BITS: u64 = 2;

    const CACHE_LINE_SIZE: u64 = 64;
}

/// What a cache holds.
pub trait SetAssociativeCacheSpec: Layout {
    type Key: OrderedKey + Eq + core::hash::Hash;

    type Value: Copy + Default;

    /// The key of a value.
    open spec fn key_of(value: Self::Value) -> Self::Key {
        arbitrary()
    }

    open spec fn hash_of(key: Self::Key) -> u64 {
        arbitrary()
    }

    fn key_from_value(value: &Self::Value) -> (result: Self::Key)
        ensures
            result == Self::key_of(*value),
    ;

    fn hash(key: Self::Key) -> (result: u64)
        ensures
            result == Self::hash_of(key),
    ;
}

/// Part of the hash of a key. Values with other tags need not be looked at; values with the same
/// tag may still have another key.
pub type Tag = u16;

/// The widths that a cache can have.
pub open spec fn valid_widths<S: SetAssociativeCacheSpec>() -> bool {
    &&& S::WAYS == 2 || S::WAYS == 4 || S::WAYS == 16
    &&& S::TAG_BITS == 8 || S::TAG_BITS == 16
    &&& S::CLOCK_BITS == 1 || S::CLOCK_BITS == 2 || S::CLOCK_BITS == 4
}

/// The layouts that a cache can have: keys, values, tags and counts do not straddle cache lines.
pub open spec fn valid_layout<S: SetAssociativeCacheSpec>() -> bool {
    let key_size = size_of::<S::Key>() as int;
    let value_size = size_of::<S::Value>() as int;
    let line = S::CACHE_LINE_SIZE as int;
    &&& valid_widths::<S>()
    &&& key_size > 0 && is_power_of_two(key_size)
    &&& value_size > 0 && is_power_of_two(value_size)
    &&& line > 0 && is_power_of_two(line)
    &&& key_size <= value_size
    &&& key_size < line
    &&& line % key_size == 0
    &&& if line > value_size {
        line % value_size == 0
    } else {
        value_size % line == 0
    }
    &&& (line * 8) / (S::WAYS * S::TAG_BITS) > 0
    &&& (line * 8) / (S::WAYS * S::CLOCK_BITS) > 0
    &&& (line * 8) / spec_clock_hand_bits(S::WAYS as int) > 0
}

/// The width of the hand of a clock.
pub open spec fn spec_clock_hand_bits(ways: int) -> int {
    if ways == 2 {
        1
    } else if ways == 4 {
        2
    } else {
        4
    }
}

/// The width of the hand of a clock that goes round `ways` ways.
#[must_use]
pub fn clock_hand_bits(ways: u64) -> (result: u32)
    requires
        ways == 2 || ways == 4 || ways == 16,
    ensures
        result == spec_clock_hand_bits(ways as int),
{
    if ways == 2 {
        1
    } else if ways == 4 {
        2
    } else {
        4
    }
}

/// Maps `word` to one of `count` numbers, each of which is as likely as the others.
pub open spec fn spec_fastrange(word: u64, count: u64) -> int {
    (word * count) / 0x1_0000_0000_0000_0000
}

/// Maps `word` to a number below `count`.
#[must_use]
pub fn fastrange(word: u64, count: u64) -> (result: u64)
    requires
        count > 0,
    ensures
        result == spec_fastrange(word, count),
        result < count,
{
    proof {
        assert(0 <= word * count <= 0xffff_ffff_ffff_ffff * count) by (nonlinear_arith)
            requires
                0 <= word <= 0xffff_ffff_ffff_ffff,
                count > 0,
        ;
    }
    ((word as u128 * count as u128) / 0x1_0000_0000_0000_0000u128) as u64
}

/// Bit `i` is set if the way `i` has the tag.
#[must_use]
pub fn search_tags(tags: &[Tag], tag: Tag, ways: u64) -> (result: u16)
    requires
        ways <= 16,
        ways <= tags@.len(),
    ensures
        forall|i: u16|
            i < 16 ==> ((#[trigger] (result >> i)) & 1 == 1 <==> i < ways && tags@[i as int]
                == tag),
{
    let mut bits: u16 = 0;
    let mut way: u16 = 0;
    proof {
        assert forall|i: u16| i < 16 implies (#[trigger] (0u16 >> i)) & 1 == 0 by {
            assert((0u16 >> i) & 1 == 0) by (bit_vector);
        }
    }
    while (way as u64) < ways
        invariant
            way <= ways <= 16,
            ways <= tags@.len(),
            forall|i: u16|
                i < 16 ==> ((#[trigger] (bits >> i)) & 1 == 1 <==> i < way && tags@[i as int]
                    == tag),
        decreases ways - way,
    {
        if tags[way as usize] == tag {
            let ghost before = bits;
            bits = bits | (1u16 << way);
            proof {
                assert forall|i: u16| i < 16 implies ((#[trigger] (bits >> i)) & 1 == 1 <==> i
                    < way + 1 && tags@[i as int] == tag) by {
                    assert(((before | (1u16 << way)) >> i) & 1 == 1 <==> i == way || (before >> i)
                        & 1 == 1) by (bit_vector)
                        requires
                            i < 16,
                            way < 16,
                    ;
                    assert((before >> i) & 1 == 1 <==> i < way && tags@[i as int] == tag);
                }
            }
        }
        way = way + 1;
    }
    bits
}

/// How many counts are not zero.
pub open spec fn nonzero(counts: Seq<u64>) -> nat
    decreases counts.len(),
{
    if counts.len() == 0 {
        0
    } else {
        nonzero(counts.drop_last()) + if counts.last() == 0 {
            0nat
        } else {
            1nat
        }
    }
}

proof fn lemma_nonzero_update(counts: Seq<u64>, i: int, count: u64)
    requires
        0 <= i < counts.len(),
    ensures
        nonzero(counts.update(i, count)) == nonzero(counts) - (if counts[i] == 0 {
            0int
        } else {
            1int
        }) + (if count == 0 {
            0int
        } else {
            1int
        }),
        nonzero(counts) <= counts.len(),
        counts[i] == 0 ==> nonzero(counts) < counts.len(),
        counts[i] != 0 ==> nonzero(counts) > 0,
    decreases counts.len(),
{
    let after = counts.update(i, count);
    if i == counts.len() - 1 {
        assert(after.drop_last() =~= counts.drop_last());
        lemma_nonzero_at_most(counts.drop_last());
    } else {
        assert(after.drop_last() =~= counts.drop_last().update(i, count));
        lemma_nonzero_update(counts.drop_last(), i, count);
    }
}

proof fn lemma_nonzero_at_most(counts: Seq<u64>)
    ensures
        nonzero(counts) <= counts.len(),
    decreases counts.len(),
{
    if counts.len() > 0 {
        lemma_nonzero_at_most(counts.drop_last());
    }
}

proof fn lemma_all_zero(counts: Seq<u64>)
    requires
        forall|i: int| 0 <= i < counts.len() ==> #[trigger] counts[i] == 0,
    ensures
        nonzero(counts) == 0,
    decreases counts.len(),
{
    if counts.len() > 0 {
        assert forall|i: int| 0 <= i < counts.drop_last().len() implies #[trigger] counts.drop_last()[i]
            == 0 by {
            assert(counts.drop_last()[i] == counts[i]);
        }
        lemma_all_zero(counts.drop_last());
        assert(counts[counts.len() - 1] == 0);
    }
}

/// How far the hand has to go to a way.
pub open spec fn hand_distance(hand: int, way: int, ways: int) -> int {
    if way >= hand {
        way - hand
    } else {
        way + ways - hand
    }
}

/// How often the hand has to come by before a way is free.
pub open spec fn chances(count: u64) -> int {
    if count == 0 {
        1
    } else {
        count as int
    }
}

/// The first way that is free when the hand goes round.
pub open spec fn is_victim(counts: Seq<u64>, hand: int, victim: int) -> bool {
    &&& 0 <= victim < counts.len()
    &&& forall|way: int|
        0 <= way < counts.len() ==> {
            ||| chances(counts[victim]) < chances(#[trigger] counts[way])
            ||| chances(counts[victim]) == chances(counts[way]) && hand_distance(
                hand,
                victim,
                counts.len() as int,
            ) <= hand_distance(hand, way, counts.len() as int)
        }
}

/// The counts after the hand went round, and the victim took a new value: the hand has taken one
/// from a count whenever it came by.
pub open spec fn swept(counts: Seq<u64>, hand: int, victim: int) -> Seq<u64> {
    Seq::new(
        counts.len(),
        |way: int|
            if way == victim {
                1u64
            } else {
                (counts[way] - (chances(counts[victim]) - 1) - if hand_distance(
                    hand,
                    way,
                    counts.len() as int,
                ) < hand_distance(hand, victim, counts.len() as int) {
                    1int
                } else {
                    0int
                }) as u64
            },
    )
}

/// The way after another.
pub open spec fn next_way(way: int, ways: int) -> int {
    if way + 1 == ways {
        0
    } else {
        way + 1
    }
}

#[derive(Clone, Copy, Debug)]
struct Metrics {
    hits: u64,
    misses: u64,
    value_count: u64,
}

/// Whether a value took the place of another one with the same key.
#[derive(Clone, Copy, Debug, PartialEq, Eq, Structural)]
pub enum UpdateOrInsert {
    Update,
    Insert,
}

/// Where a value was put, and which one had to go for it.
#[derive(Clone, Copy, Debug)]
pub struct Upserted<V> {
    pub index: usize,
    pub updated: UpdateOrInsert,
    pub evicted: Option<V>,
}

/// The set of a key.
#[derive(Clone, Copy)]
struct AssociatedSet {
    tag: Tag,
    index: u64,
    offset: u64,
}

/// A cache.
pub struct SetAssociativeCache<S: SetAssociativeCacheSpec> {
    name: &'static str,
    sets: u64,
    metrics: Metrics,
    tags: Vec<Tag>,
    values: Vec<S::Value>,
    /// How often the values were read of late. Where the count is zero, there is no value.
    counts: PackedUnsignedIntegerArray,
    /// The hand of every set.
    clocks: PackedUnsignedIntegerArray,
}

/// The tag of a key.
pub open spec fn tag_of<S: SetAssociativeCacheSpec>(key: S::Key) -> Tag {
    if S::TAG_BITS == 8 {
        (S::hash_of(key) % 0x100) as Tag
    } else {
        (S::hash_of(key) % 0x1_0000) as Tag
    }
}

/// The set of a key.
pub open spec fn set_of<S: SetAssociativeCacheSpec>(key: S::Key, sets: u64) -> int {
    spec_fastrange(S::hash_of(key), sets)
}

impl<S: SetAssociativeCacheSpec> SetAssociativeCache<S> {
    spec fn shape(&self) -> bool {
        &&& valid_widths::<S>()
        &&& self.sets > 0
        &&& self.sets * S::WAYS == self.values@.len()
        &&& self.values@.len() <= u64::MAX
        &&& self.values@.len() <= usize::MAX
        &&& self.tags@.len() == self.values@.len()
        &&& self.counts.wf()
        &&& self.counts.bits_per_uint == S::CLOCK_BITS
        &&& self.counts@.len() >= self.values@.len()
        &&& self.clocks.wf()
        &&& self.clocks.bits_per_uint == spec_clock_hand_bits(S::WAYS as int)
        &&& self.clocks@.len() >= self.sets
    }

    pub closed spec fn wf(&self) -> bool {
        &&& self.shape()
        &&& forall|i: int| #[trigger] self.occupied(i) ==> self.in_place(i)
        &&& forall|i: int, j: int|
            #[trigger] self.occupied(i) && #[trigger] self.occupied(j) && S::key_of(
                self.values@[i],
            ) == S::key_of(self.values@[j]) ==> i == j
        &&& self.metrics.value_count == nonzero(self.slot_counts())
    }

    spec fn in_place(&self, i: int) -> bool {
        let key = S::key_of(self.values@[i]);
        let offset = set_of::<S>(key, self.sets) * S::WAYS;
        &&& offset <= i < offset + S::WAYS
        &&& self.tags@[i] == tag_of::<S>(key)
    }

    /// The values of the slots. They count for nothing where a slot is not occupied.
    pub closed spec fn slot_values(&self) -> Seq<S::Value> {
        self.values@
    }

    /// The counts of the slots.
    pub closed spec fn slot_counts(&self) -> Seq<u64> {
        self.counts@.take(self.values@.len() as int)
    }

    /// The tags of the slots.
    pub closed spec fn slot_tags(&self) -> Seq<Tag> {
        self.tags@
    }

    /// The hands of the sets.
    pub closed spec fn hands(&self) -> Seq<u64> {
        self.clocks@.take(self.sets as int)
    }

    /// The counts of the ways of a set.
    pub open spec fn set_counts(&self, set: int) -> Seq<u64> {
        self.slot_counts().subrange(set * S::WAYS, set * S::WAYS + S::WAYS)
    }

    pub closed spec fn spec_sets(&self) -> u64 {
        self.sets
    }

    pub closed spec fn spec_name(&self) -> &'static str {
        self.name
    }

    pub closed spec fn spec_hits(&self) -> u64 {
        self.metrics.hits
    }

    pub closed spec fn spec_misses(&self) -> u64 {
        self.metrics.misses
    }

    pub closed spec fn spec_value_count(&self) -> u64 {
        self.metrics.value_count
    }

    /// Whether a slot holds a value.
    pub open spec fn occupied(&self, i: int) -> bool {
        0 <= i < self.slot_counts().len() && self.slot_counts()[i] > 0
    }

    /// Whether a slot holds the value of a key.
    pub open spec fn holds(&self, key: S::Key, i: int) -> bool {
        self.occupied(i) && S::key_of(self.slot_values()[i]) == key
    }

    /// The values of the keys that the cache holds.
    pub open spec fn contents(&self) -> Map<S::Key, S::Value> {
        Map::new(
            |key: S::Key| exists|i: int| #[trigger] self.holds(key, i),
            |key: S::Key| self.slot_values()[choose|i: int| #[trigger] self.holds(key, i)],
        )
    }

    /// What a slot holds, the cache holds.
    proof fn lemma_contents(&self, key: S::Key, i: int)
        requires
            self.wf(),
            self.holds(key, i),
        ensures
            self.contents().contains_key(key),
            self.contents()[key] == self.slot_values()[i],
    {
        self.law_keys_are_in_their_sets();
        let j = choose|j: int| #[trigger] self.holds(key, j);
        assert(self.holds(key, j));
    }

    /// Caches whose slots hold the same hold the same.
    proof fn lemma_same_contents(&self, before: Self)
        requires
            self.wf(),
            before.wf(),
            forall|key: S::Key, i: int| #[trigger] self.holds(key, i) == before.holds(key, i),
            self.slot_values() == before.slot_values(),
        ensures
            self.contents() == before.contents(),
    {
        assert forall|key: S::Key|
            self.contents().contains_key(key) == #[trigger] before.contents().contains_key(
            key,
        ) && (before.contents().contains_key(key) ==> self.contents()[key]
            == before.contents()[key]) by {
            if before.contents().contains_key(key) {
                let i = choose|i: int| #[trigger] before.holds(key, i);
                assert(self.holds(key, i));
                self.lemma_contents(key, i);
                before.lemma_contents(key, i);
            }
            if self.contents().contains_key(key) {
                let i = choose|i: int| #[trigger] self.holds(key, i);
                assert(before.holds(key, i));
            }
        }
        assert(self.contents() =~= before.contents());
    }

    /// What a cache holds after one slot was filled, or emptied.
    proof fn lemma_slot_changed(&self, before: Self, index: int, key: Option<S::Key>)
        requires
            self.wf(),
            before.wf(),
            forall|k: S::Key, i: int|
                i != index ==> #[trigger] self.holds(k, i) == before.holds(k, i),
            forall|i: int|
                0 <= i < self.slot_values().len() && i != index ==> #[trigger] self.slot_values()[i]
                    == before.slot_values()[i],
            self.slot_values().len() == before.slot_values().len(),
            match key {
                Some(key) => self.holds(key, index),
                None => !self.occupied(index),
            },
        ensures
            ({
                let kept = if before.occupied(index) {
                    before.contents().remove(S::key_of(before.slot_values()[index]))
                } else {
                    before.contents()
                };
                self.contents() == match key {
                    Some(key) => kept.insert(key, self.slot_values()[index]),
                    None => kept,
                }
            }),
    {
        let kept = if before.occupied(index) {
            before.contents().remove(S::key_of(before.slot_values()[index]))
        } else {
            before.contents()
        };
        let expected = match key {
            Some(key) => kept.insert(key, self.slot_values()[index]),
            None => kept,
        };
        if let Some(key) = key {
            self.lemma_contents(key, index);
        }
        if before.occupied(index) {
            let gone = S::key_of(before.slot_values()[index]);
            assert(before.holds(gone, index));
            before.lemma_contents(gone, index);
        }
        self.law_keys_are_in_their_sets();
        before.law_keys_are_in_their_sets();
        assert forall|k: S::Key|
            self.contents().contains_key(k) == #[trigger] expected.contains_key(
            k,
        ) && (expected.contains_key(k) ==> self.contents()[k] == expected[k]) by {
            if self.contents().contains_key(k) {
                let i = choose|i: int| #[trigger] self.holds(k, i);
                self.lemma_contents(k, i);
                if i != index {
                    assert(before.holds(k, i));
                    before.lemma_contents(k, i);
                }
            }
            if kept.contains_key(k) {
                let i = choose|i: int| #[trigger] before.holds(k, i);
                before.lemma_contents(k, i);
                if i != index {
                    assert(self.holds(k, i));
                    self.lemma_contents(k, i);
                }
            }
        }
        assert(self.contents() =~= expected);
    }

    /// Every key is in one slot at most, and that slot is a way of its set. The values are counted.
    pub proof fn law_keys_are_in_their_sets(&self)
        requires
            self.wf(),
        ensures
            forall|key: S::Key, i: int, j: int| #[trigger]
                self.holds(key, i) && #[trigger] self.holds(key, j) ==> i == j,
            forall|key: S::Key, i: int| #[trigger]
                self.holds(key, i) ==> {
                    let offset = set_of::<S>(key, self.spec_sets()) * S::WAYS;
                    offset <= i < offset + S::WAYS
                },
            self.spec_value_count() == nonzero(self.slot_counts()),
            self.slot_counts().len() == self.spec_sets() * S::WAYS,
            self.slot_values().len() == self.spec_sets() * S::WAYS,
    {
        assert forall|key: S::Key, i: int| #[trigger] self.holds(key, i) implies {
            let offset = set_of::<S>(key, self.spec_sets()) * S::WAYS;
            offset <= i < offset + S::WAYS
        } by {
            assert(self.occupied(i));
            assert(self.in_place(i));
        }
    }

    /// What the number of values is a multiple of.
    #[must_use]
    pub fn value_count_max_multiple() -> (result: u64)
        requires
            size_of::<S::Value>() > 0,
            size_of::<S::Value>() <= u64::MAX,
            S::CACHE_LINE_SIZE > 0,
            S::CLOCK_BITS > 0,
            S::CACHE_LINE_SIZE * 8 <= u64::MAX,
            (spec_max(size_of::<S::Value>() as int, S::CACHE_LINE_SIZE as int) / spec_min(
                size_of::<S::Value>() as int,
                S::CACHE_LINE_SIZE as int,
            )) * S::WAYS <= u64::MAX,
        ensures
            result == spec_value_count_multiple(
                size_of::<S::Value>() as u64,
                S::WAYS,
                S::CACHE_LINE_SIZE,
                S::CLOCK_BITS,
            ),
    {
        let value_size: u64 = core::mem::size_of::<S::Value>() as u64;
        value_count_multiple(value_size, S::WAYS, S::CACHE_LINE_SIZE, S::CLOCK_BITS)
    }

    /// Whether values, counts and clocks of a cache for `value_count_max` values fill whole cache
    /// lines.
    pub open spec fn fits(value_count_max: u64) -> bool {
        &&& valid_layout::<S>()
        &&& value_count_max >= S::WAYS
        &&& value_count_max % S::WAYS == 0
        &&& value_count_max <= usize::MAX
        &&& value_count_max * S::CLOCK_BITS + 128 <= u64::MAX
        &&& value_count_max * size_of::<S::Value>() <= u64::MAX
        &&& value_count_max * size_of::<S::Value>() >= S::CACHE_LINE_SIZE
        &&& (value_count_max * size_of::<S::Value>() as int) % (S::CACHE_LINE_SIZE as int) == 0
        &&& (value_count_max * S::CLOCK_BITS) / 8 >= S::CACHE_LINE_SIZE
        &&& ((value_count_max * S::CLOCK_BITS) / 8) % (S::CACHE_LINE_SIZE as int) == 0
        &&& (value_count_max as int) % spec_value_count_multiple(
            size_of::<S::Value>() as u64,
            S::WAYS,
            S::CACHE_LINE_SIZE,
            S::CLOCK_BITS,
        ) == 0
    }

    /// An empty cache for `value_count_max` values.
    #[must_use]
    pub fn new(value_count_max: u64, name: &'static str) -> (result: Self)
        requires
            Self::fits(value_count_max),
        ensures
            result.wf(),
            result.spec_name() == name,
            result.spec_sets() == value_count_max / S::WAYS,
            result.is_reset(),
    {
        let sets: u64 = value_count_max / S::WAYS;
        let count: usize = value_count_max as usize;
        let default = S::Value::default();
        let mut tags: Vec<Tag> = Vec::new();
        let mut values: Vec<S::Value> = Vec::new();
        while values.len() < count
            invariant
                values@.len() == tags@.len() <= count,
                forall|i: int| 0 <= i < tags@.len() ==> #[trigger] tags@[i] == 0,
            decreases count - values@.len(),
        {
            values.push(default);
            tags.push(0);
        }
        let hand_bits: u32 = clock_hand_bits(S::WAYS);
        let counts = PackedUnsignedIntegerArray::new(
            S::CLOCK_BITS as u32,
            bytes_for(value_count_max * S::CLOCK_BITS),
        );
        proof {
            assert(sets * S::WAYS == value_count_max) by (nonlinear_arith)
                requires
                    sets == value_count_max / S::WAYS,
                    value_count_max % S::WAYS == 0,
                    S::WAYS > 0,
            ;
            assert(sets * hand_bits <= value_count_max) by (nonlinear_arith)
                requires
                    sets * S::WAYS == value_count_max,
                    hand_bits <= S::WAYS,
                    sets >= 0,
            ;
        }
        let clocks = PackedUnsignedIntegerArray::new(hand_bits, bytes_for(sets * hand_bits as u64));
        let result = SetAssociativeCache {
            name,
            sets,
            metrics: Metrics { hits: 0, misses: 0, value_count: 0 },
            tags,
            values,
            counts,
            clocks,
        };
        proof {
            lemma_capacity(
                value_count_max as int,
                S::CLOCK_BITS as int,
                result.counts.words@.len() as int,
            );
            lemma_capacity(sets as int, hand_bits as int, result.clocks.words@.len() as int);
            lemma_all_zero(result.slot_counts());
            assert(result.contents() =~= Map::<S::Key, S::Value>::empty());
        }
        result
    }

    /// Whether the cache is as good as new.
    pub open spec fn is_reset(&self) -> bool {
        &&& self.contents() == Map::<S::Key, S::Value>::empty()
        &&& forall|i: int|
            0 <= i < self.slot_counts().len() ==> #[trigger] self.slot_counts()[i] == 0
        &&& forall|i: int| 0 <= i < self.slot_tags().len() ==> #[trigger] self.slot_tags()[i] == 0
        &&& forall|i: int| 0 <= i < self.hands().len() ==> #[trigger] self.hands()[i] == 0
        &&& self.spec_hits() == 0
        &&& self.spec_misses() == 0
        &&& self.spec_value_count() == 0
    }

    #[must_use]
    pub fn name(&self) -> (result: &'static str)
        ensures
            result == self.spec_name(),
    {
        self.name
    }

    #[must_use]
    pub fn sets(&self) -> (result: u64)
        ensures
            result == self.spec_sets(),
    {
        self.sets
    }

    #[must_use]
    pub fn hits(&self) -> (result: u64)
        ensures
            result == self.spec_hits(),
    {
        self.metrics.hits
    }

    #[must_use]
    pub fn misses(&self) -> (result: u64)
        ensures
            result == self.spec_misses(),
    {
        self.metrics.misses
    }

    #[must_use]
    pub fn value_count(&self) -> (result: u64)
        ensures
            result == self.spec_value_count(),
    {
        self.metrics.value_count
    }

    #[must_use]
    pub fn tags(&self) -> (result: &[Tag])
        ensures
            result@ == self.slot_tags(),
    {
        self.tags.as_slice()
    }

    #[must_use]
    pub fn counts(&self) -> (result: &PackedUnsignedIntegerArray)
        requires
            self.wf(),
        ensures
            result.wf(),
            result@.len() >= self.slot_counts().len(),
            result@.take(self.slot_counts().len() as int) == self.slot_counts(),
    {
        &self.counts
    }

    #[must_use]
    pub fn clocks(&self) -> (result: &PackedUnsignedIntegerArray)
        requires
            self.wf(),
        ensures
            result.wf(),
            result@.len() >= self.hands().len(),
            result@.take(self.hands().len() as int) == self.hands(),
    {
        &self.clocks
    }

    /// Forgets everything.
    pub fn reset(&mut self)
        requires
            old(self).wf(),
        ensures
            final(self).wf(),
            final(self).is_reset(),
            final(self).slot_values() == old(self).slot_values(),
            final(self).spec_sets() == old(self).spec_sets(),
            final(self).spec_name() == old(self).spec_name(),
    {
        let mut i: usize = 0;
        while i < self.tags.len()
            invariant
                i <= self.tags@.len(),
                self.tags@.len() == old(self).tags@.len(),
                forall|k: int| 0 <= k < i ==> #[trigger] self.tags@[k] == 0,
                self.values == old(self).values,
                self.counts == old(self).counts,
                self.clocks == old(self).clocks,
                self.sets == old(self).sets,
                self.name == old(self).name,
            decreases self.tags@.len() - i,
        {
            self.tags[i] = 0;
            i = i + 1;
        }
        self.counts.reset();
        self.clocks.reset();
        self.metrics = Metrics { hits: 0, misses: 0, value_count: 0 };
        proof {
            lemma_all_zero(self.slot_counts());
            assert(self.contents() =~= Map::<S::Key, S::Value>::empty());
        }
    }

    /// A key was looked up. The count of its value went up, unless it was at its greatest.
    pub open spec fn was_read(&self, before: &Self, key: S::Key) -> bool {
        &&& self.contents() == before.contents()
        &&& self.slot_values() == before.slot_values()
        &&& self.slot_tags() == before.slot_tags()
        &&& self.hands() == before.hands()
        &&& self.spec_sets() == before.spec_sets()
        &&& self.spec_name() == before.spec_name()
        &&& self.spec_value_count() == before.spec_value_count()
        &&& self.slot_counts().len() == before.slot_counts().len()
        &&& forall|i: int|
            0 <= i < before.slot_counts().len() ==> #[trigger] self.slot_counts()[i]
                == if before.holds(key, i) && before.slot_counts()[i] < mask_of(
                S::CLOCK_BITS as u32,
            ) {
                before.slot_counts()[i] + 1
            } else {
                before.slot_counts()[i] as int
            }
        &&& if before.contents().contains_key(key) {
            &&& self.spec_hits() == before.spec_hits().wrapping_add(1)
            &&& self.spec_misses() == before.spec_misses()
        } else {
            &&& self.spec_hits() == before.spec_hits()
            &&& self.spec_misses() == before.spec_misses().wrapping_add(1)
        }
    }

    /// The slot that holds the value of a key. The count of the value goes up, unless it is at its
    /// greatest.
    pub fn get_index(&mut self, key: S::Key) -> (result: Option<usize>)
        requires
            old(self).wf(),
        ensures
            final(self).wf(),
            final(self).was_read(old(self), key),
            match result {
                Some(index) => {
                    &&& old(self).contents().contains_key(key)
                    &&& old(self).holds(key, index as int)
                    &&& old(self).slot_values()[index as int] == old(self).contents()[key]
                },
                None => {
                    &&& !old(self).contents().contains_key(key)
                    &&& forall|i: int| !#[trigger] old(self).holds(key, i)
                },
            },
    {
        let ghost before = *self;
        proof {
            self.law_keys_are_in_their_sets();
        }
        let set = self.associate(key);
        match self.search(&set, key) {
            Some(way) => {
                let index: u64 = set.offset + way;
                let count: u64 = self.counts.get(index);
                let raised: u64 = if count < self.counts.mask() {
                    count + 1
                } else {
                    count
                };
                self.set_count(index, raised);
                let ghost middle = *self;
                self.metrics.hits = self.metrics.hits.wrapping_add(1);
                proof {
                    self.lemma_same_slots(middle);
                    self.lemma_same_contents(before);
                    before.lemma_contents(key, index as int);
                }
                Some(index as usize)
            },
            None => {
                let ghost middle = *self;
                self.metrics.misses = self.metrics.misses.wrapping_add(1);
                proof {
                    self.lemma_same_slots(middle);
                    self.lemma_same_contents(before);
                }
                None
            },
        }
    }

    /// Changes a count, but not whether it is zero.
    fn set_count(&mut self, index: u64, count: u64)
        requires
            old(self).wf(),
            old(self).occupied(index as int),
            0 < count <= mask_of(S::CLOCK_BITS as u32),
        ensures
            final(self).wf(),
            final(self).slot_values() == old(self).slot_values(),
            final(self).slot_tags() == old(self).slot_tags(),
            final(self).slot_counts() == old(self).slot_counts().update(index as int, count),
            final(self).hands() == old(self).hands(),
            final(self).sets == old(self).sets,
            final(self).name == old(self).name,
            final(self).metrics == old(self).metrics,
    {
        let ghost before = *self;
        self.counts.set(index, count);
        proof {
            assert(self.slot_counts() =~= before.slot_counts().update(index as int, count));
            lemma_nonzero_update(before.slot_counts(), index as int, count);
            self.lemma_same_slots(before);
        }
    }

    /// Slots stay in place when no value comes or goes.
    proof fn lemma_same_slots(&self, before: Self)
        requires
            before.wf(),
            self.values == before.values,
            self.tags == before.tags,
            self.sets == before.sets,
            self.slot_counts().len() == before.slot_counts().len(),
            forall|i: int| #[trigger] self.occupied(i) ==> before.occupied(i),
        ensures
            forall|i: int| #[trigger] self.occupied(i) ==> self.in_place(i),
            forall|i: int, j: int|
                #[trigger] self.occupied(i) && #[trigger] self.occupied(j) && S::key_of(
                    self.values@[i],
                ) == S::key_of(self.values@[j]) ==> i == j,
    {
        assert forall|i: int| #[trigger] self.occupied(i) implies self.in_place(i) by {
            assert(before.occupied(i));
            assert(before.in_place(i));
        }
        assert forall|i: int, j: int|
            #[trigger] self.occupied(i) && #[trigger] self.occupied(j) && S::key_of(self.values@[i])
                == S::key_of(self.values@[j]) implies i == j by {
            assert(before.occupied(i) && before.occupied(j));
        }
    }

    /// The value of a key. Its count goes up, unless it is at its greatest.
    #[must_use]
    pub fn get(&mut self, key: S::Key) -> (result: Option<&S::Value>)
        requires
            old(self).wf(),
        ensures
            match result {
                Some(value) => old(self).contents().contains_key(key) && *value == old(self).contents()[key],
                None => !old(self).contents().contains_key(key),
            },
            final(self).wf(),
            final(self).was_read(old(self), key),
    {
        match self.get_index(key) {
            Some(index) => Some(&self.values[index]),
            None => None,
        }
    }

    /// The value in a slot.
    #[must_use]
    pub fn slot(&self, index: usize) -> (result: Option<&S::Value>)
        requires
            self.wf(),
            index < self.slot_counts().len(),
        ensures
            match result {
                Some(value) => self.occupied(index as int) && *value == self.slot_values()[index as int],
                None => !self.occupied(index as int),
            },
    {
        if self.counts.get(index as u64) == 0 {
            return None;
        }
        Some(&self.values[index])
    }

    /// The value of a key was removed: its slot is free.
    pub open spec fn was_removed(&self, before: &Self, key: S::Key) -> bool {
        &&& self.contents() == before.contents().remove(key)
        &&& self.slot_values() == before.slot_values()
        &&& self.slot_tags() == before.slot_tags()
        &&& self.hands() == before.hands()
        &&& self.spec_sets() == before.spec_sets()
        &&& self.spec_name() == before.spec_name()
        &&& self.spec_hits() == before.spec_hits()
        &&& self.spec_misses() == before.spec_misses()
        &&& self.slot_counts().len() == before.slot_counts().len()
        &&& forall|i: int|
            0 <= i < before.slot_counts().len() ==> #[trigger] self.slot_counts()[i]
                == if before.holds(key, i) {
                0
            } else {
                before.slot_counts()[i]
            }
        &&& self.spec_value_count() == before.spec_value_count()
            - if before.contents().contains_key(key) {
            1int
        } else {
            0int
        }
    }

    /// Removes the value of a key.
    pub fn remove(&mut self, key: S::Key) -> (result: Option<S::Value>)
        requires
            old(self).wf(),
        ensures
            final(self).wf(),
            final(self).was_removed(old(self), key),
            match result {
                Some(value) => {
                    &&& old(self).contents().contains_key(key)
                    &&& value == old(self).contents()[key]
                },
                None => !old(self).contents().contains_key(key),
            },
    {
        let ghost before = *self;
        proof {
            self.law_keys_are_in_their_sets();
        }
        let set = self.associate(key);
        match self.search(&set, key) {
            Some(way) => {
                let index: u64 = set.offset + way;
                let removed = self.values[index as usize];
                self.counts.set(index, 0);
                proof {
                    lemma_nonzero_update(before.slot_counts(), index as int, 0);
                    assert(self.slot_counts() =~= before.slot_counts().update(index as int, 0));
                    assert(before.holds(key, index as int));
                }
                self.metrics.value_count = self.metrics.value_count - 1;
                proof {
                    self.lemma_same_slots(before);
                    before.lemma_contents(key, index as int);
                    self.lemma_slot_changed(before, index as int, None);
                }
                Some(removed)
            },
            None => {
                assert(self.contents().remove(key) =~= self.contents());
                None
            },
        }
    }

    /// Hints that a key is not needed soon: its value is the next to go when the hand comes by.
    pub fn demote(&mut self, key: S::Key)
        requires
            old(self).wf(),
        ensures
            final(self).wf(),
            final(self).contents() == old(self).contents(),
            final(self).slot_values() == old(self).slot_values(),
            final(self).slot_tags() == old(self).slot_tags(),
            final(self).hands() == old(self).hands(),
            final(self).spec_sets() == old(self).spec_sets(),
            final(self).spec_name() == old(self).spec_name(),
            final(self).spec_hits() == old(self).spec_hits(),
            final(self).spec_misses() == old(self).spec_misses(),
            final(self).spec_value_count() == old(self).spec_value_count(),
            final(self).slot_counts().len() == old(self).slot_counts().len(),
            forall|i: int|
                0 <= i < old(self).slot_counts().len() ==> #[trigger] final(self).slot_counts()[i]
                    == if old(self).holds(key, i) {
                    1
                } else {
                    old(self).slot_counts()[i]
                },
    {
        proof {
            self.law_keys_are_in_their_sets();
        }
        let set = self.associate(key);
        if let Some(way) = self.search(&set, key) {
            proof {
                self.lemma_greatest_count();
            }
            let ghost before = *self;
            self.set_count(set.offset + way, 1);
            proof {
                self.lemma_same_contents(before);
            }
        }
    }

    proof fn lemma_greatest_count(&self)
        requires
            valid_widths::<S>(),
        ensures
            mask_of(S::CLOCK_BITS as u32) == if S::CLOCK_BITS == 1 {
                1u64
            } else if S::CLOCK_BITS == 2 {
                3u64
            } else {
                15u64
            },
    {
        lemma_mask(S::CLOCK_BITS as u32);
    }

    /// The way of a set that holds the value of a key.
    fn search(&self, set: &AssociatedSet, key: S::Key) -> (result: Option<u64>)
        requires
            self.wf(),
            self.is_set(*set, key),
        ensures
            match result {
                Some(way) => way < S::WAYS && self.holds(key, set.offset + way),
                None => forall|i: int| !#[trigger] self.holds(key, i),
            },
    {
        let tags = vstd::slice::slice_subrange(
            self.tags.as_slice(),
            set.offset as usize,
            set.offset as usize + S::WAYS as usize,
        );
        let ways: u16 = search_tags(tags, set.tag, S::WAYS);
        let mut way: u16 = 0;
        while (way as u64) < S::WAYS
            invariant
                self.wf(),
                self.is_set(*set, key),
                way <= S::WAYS <= 16,
                tags@ == self.tags@.subrange(set.offset as int, set.offset + S::WAYS),
                forall|i: u16|
                    i < 16 ==> ((#[trigger] (ways >> i)) & 1 == 1 <==> i < S::WAYS
                        && tags@[i as int] == set.tag),
                forall|i: int| 0 <= i < way ==> !#[trigger] self.holds(key, set.offset + i),
            decreases S::WAYS - way,
        {
            let index: u64 = set.offset + way as u64;
            proof {
                let bit = ways >> way;
                assert(bit & 1 == 1 <==> self.tags@[set.offset + way] == set.tag) by {
                    assert(tags@[way as int] == self.tags@[set.offset + way]);
                }
                assert(self.occupied(index as int) ==> self.in_place(index as int));
            }
            if (ways >> way) & 1 == 1 && self.counts.get(index) > 0 && S::key_from_value(
                &self.values[index as usize],
            ).key_eq(key) {
                return Some(way as u64);
            }
            way = way + 1;
        }
        proof {
            self.law_keys_are_in_their_sets();
            assert forall|i: int| !#[trigger] self.holds(key, i) by {
                if self.holds(key, i) {
                    assert(!self.holds(key, set.offset + (i - set.offset)));
                }
            }
        }
        None
    }

    /// The set of a key.
    spec fn is_set(&self, set: AssociatedSet, key: S::Key) -> bool {
        &&& set.tag == tag_of::<S>(key)
        &&& set.index == set_of::<S>(key, self.sets)
        &&& set.index < self.sets
        &&& set.offset == set.index * S::WAYS
        &&& set.offset + S::WAYS <= self.values@.len()
    }

    /// A value was put. What `upserted` tells is where, and what had to go for it.
    pub open spec fn was_upserted(
        &self,
        before: &Self,
        value: S::Value,
        upserted: Upserted<S::Value>,
    ) -> bool {
        &&& self.holds(S::key_of(value), upserted.index as int)
        &&& self.contents() == match upserted.evicted {
            Some(evicted) => before.contents().remove(S::key_of(evicted)),
            None => before.contents(),
        }.insert(S::key_of(value), value)
        &&& upserted.updated is Update <==> before.contents().contains_key(S::key_of(value))
        &&& upserted.evicted matches Some(evicted) ==> before.contents().contains_key(
            S::key_of(evicted),
        ) && before.contents()[S::key_of(evicted)] == evicted
        &&& self.slot_values() == before.slot_values().update(
            upserted.index as int,
            value,
        )
        &&& self.spec_sets() == before.spec_sets()
        &&& self.spec_name() == before.spec_name()
        &&& self.spec_hits() == before.spec_hits()
        &&& self.spec_misses() == before.spec_misses()
        &&& match upserted.updated {
            UpdateOrInsert::Update => {
                &&& before.holds(S::key_of(value), upserted.index as int)
                &&& upserted.evicted == Some(before.slot_values()[upserted.index as int])
                &&& self.slot_counts() == before.slot_counts().update(
                    upserted.index as int,
                    1,
                )
                &&& self.slot_tags() == before.slot_tags()
                &&& self.hands() == before.hands()
                &&& self.spec_value_count() == before.spec_value_count()
            },
            UpdateOrInsert::Insert => {
                let set = set_of::<S>(S::key_of(value), before.spec_sets());
                let offset = set * S::WAYS;
                let victim = upserted.index - offset;
                let hand = before.hands()[set] as int;
                &&& forall|i: int| !#[trigger] before.holds(S::key_of(value), i)
                &&& is_victim(before.set_counts(set), hand, victim)
                &&& upserted.evicted == if before.occupied(upserted.index as int) {
                    Some(before.slot_values()[upserted.index as int])
                } else {
                    None
                }
                &&& self.slot_counts() == before.slot_counts().take(offset) + swept(
                    before.set_counts(set),
                    hand,
                    victim,
                ) + before.slot_counts().skip(offset + S::WAYS)
                &&& self.slot_tags() == before.slot_tags().update(
                    upserted.index as int,
                    tag_of::<S>(S::key_of(value)),
                )
                &&& self.hands() == before.hands().update(
                    set,
                    next_way(victim, S::WAYS as int) as u64,
                )
                &&& self.spec_value_count() == if upserted.evicted is Some {
                    before.spec_value_count() as int
                } else {
                    before.spec_value_count() + 1
                }
            },
        }
    }

    /// Puts a value into the cache. If its set is full, another value has to go.
    #[verifier::rlimit(80)]
    pub fn upsert(&mut self, value: &S::Value) -> (result: Upserted<S::Value>)
        requires
            old(self).wf(),
        ensures
            final(self).wf(),
            final(self).was_upserted(old(self), *value, result),
    {
        let ghost before = *self;
        proof {
            self.law_keys_are_in_their_sets();
            self.lemma_greatest_count();
        }
        let key = S::key_from_value(value);
        let set = self.associate(key);
        if let Some(way) = self.search(&set, key) {
            let index: u64 = set.offset + way;
            self.set_count(index, 1);
            let evicted = self.values[index as usize];
            let ghost middle = *self;
            self.values[index as usize] = *value;
            proof {
                self.lemma_updated(middle, index as int);
                before.lemma_contents(key, index as int);
                self.lemma_slot_changed(before, index as int, Some(key));
            }
            return Upserted {
                index: index as usize,
                updated: UpdateOrInsert::Update,
                evicted: Some(evicted),
            };
        }
        let hand: u64 = self.clocks.get(set.index);
        let ghost counts = before.set_counts(set.index as int);
        let ghost greatest = mask_of(S::CLOCK_BITS as u32);
        let ghost ways = S::WAYS as int;
        let ghost mut rounds: int = 0;
        let ghost mut gone: int = 0;
        let mut evicted: Option<S::Value> = None;
        let mut way: u64 = hand;
        proof {
            lemma_mask(spec_clock_hand_bits(S::WAYS as int) as u32);
            self.counts.lemma_bounded();
        }
        loop
            invariant_except_break
                before.wf(),
                before.is_set(set, key),
                self.values == before.values,
                self.tags == before.tags,
                self.clocks == before.clocks,
                self.sets == before.sets,
                self.name == before.name,
                self.metrics == before.metrics,
                self.shape(),
                ways == S::WAYS,
                counts == before.set_counts(set.index as int),
                counts.len() == ways,
                greatest == mask_of(S::CLOCK_BITS as u32),
                forall|j: int| 0 <= j < ways ==> #[trigger] counts[j] <= greatest,
                0 <= hand < ways,
                0 <= gone < ways,
                0 <= rounds <= greatest,
                way == if hand + gone < ways {
                    hand + gone
                } else {
                    hand + gone - ways
                },
                evicted is None,
                self.slot_counts().len() == before.slot_counts().len(),
                forall|i: int|
                    0 <= i < before.slot_counts().len() && !(set.offset <= i < set.offset + ways)
                        ==> #[trigger] self.slot_counts()[i] == before.slot_counts()[i],
                forall|j: int|
                    0 <= j < ways ==> self.slot_counts()[set.offset + j] == #[trigger] counts[j]
                        - passes(hand as int, rounds, gone, j, ways),
                forall|j: int|
                    0 <= j < ways && passes(hand as int, rounds, gone, j, ways) > 0
                        ==> #[trigger] counts[j] > passes(hand as int, rounds, gone, j, ways),
                nonzero(self.slot_counts()) == nonzero(before.slot_counts()),
            ensures
                0 <= way < ways,
                chances(counts[way as int]) == rounds + 1,
                evicted == if counts[way as int] > 0 {
                    Some(before.values@[set.offset + way])
                } else {
                    None
                },
                way == if hand + gone < ways {
                    hand + gone
                } else {
                    hand + gone - ways
                },
                self.values == before.values,
                self.tags == before.tags,
                self.clocks == before.clocks,
                self.sets == before.sets,
                self.name == before.name,
                self.metrics == before.metrics,
                self.shape(),
                self.slot_counts().len() == before.slot_counts().len(),
                forall|i: int|
                    0 <= i < before.slot_counts().len() && !(set.offset <= i < set.offset + ways)
                        ==> #[trigger] self.slot_counts()[i] == before.slot_counts()[i],
                forall|j: int|
                    0 <= j < ways && j != way ==> self.slot_counts()[set.offset + j]
                        == #[trigger] counts[j] - passes(hand as int, rounds, gone, j, ways),
                forall|j: int|
                    0 <= j < ways && passes(hand as int, rounds, gone, j, ways) > 0 && j != way
                        ==> #[trigger] counts[j] > passes(hand as int, rounds, gone, j, ways),
                self.slot_counts()[set.offset + way] == 0,
                nonzero(self.slot_counts()) == nonzero(before.slot_counts()) - if evicted is Some {
                    1int
                } else {
                    0int
                },
                0 <= rounds <= greatest,
                0 <= gone < ways,
            decreases greatest - rounds, ways - gone,
        {
            let index: u64 = set.offset + way;
            let ghost current = self.slot_counts();
            assert(passes(hand as int, rounds, gone, way as int, ways) == rounds);
            assert(counts[way as int] <= greatest);
            let count: u64 = self.counts.get(index);
            assert(count == current[set.offset + way]);
            if count == 0 {
                break;
            }
            self.counts.set(index, count - 1);
            proof {
                assert(self.slot_counts() =~= current.update(index as int, (count - 1) as u64));
                lemma_nonzero_update(current, index as int, (count - 1) as u64);
            }
            if count == 1 {
                evicted = Some(self.values[index as usize]);
                break;
            }
            way = Self::following(way);
            proof {
                if gone + 1 == ways {
                    gone = 0;
                    rounds = rounds + 1;
                } else {
                    gone = gone + 1;
                }
            }
        }
        let index: u64 = set.offset + way;
        let ghost emptied = self.slot_counts();
        self.tags[index as usize] = set.tag;
        self.values[index as usize] = *value;
        self.counts.set(index, 1);
        self.clocks.set(set.index, Self::following(way));
        proof {
            assert(self.slot_counts() =~= emptied.update(index as int, 1));
            lemma_nonzero_update(emptied, index as int, 1);
            lemma_nonzero_update(before.slot_counts(), index as int, 1);
        }
        if evicted.is_none() {
            self.metrics.value_count = self.metrics.value_count + 1;
        }
        proof {
            let victim = way as int;
            assert forall|j: int| 0 <= j < ways implies {
                ||| chances(counts[victim]) < chances(#[trigger] counts[j])
                ||| chances(counts[victim]) == chances(counts[j]) && hand_distance(
                    hand as int,
                    victim,
                    ways,
                ) <= hand_distance(hand as int, j, ways)
            } by {}
            assert(self.slot_counts() =~= before.slot_counts().take(set.offset as int) + swept(
                counts,
                hand as int,
                victim,
            ) + before.slot_counts().skip(set.offset + ways));
            assert(self.hands() =~= before.hands().update(
                set.index as int,
                next_way(victim, ways) as u64,
            ));
            self.lemma_inserted(before, index as int);
            self.lemma_slot_changed(before, index as int, Some(key));
            if evicted is Some {
                let gone = S::key_of(before.values@[index as int]);
                assert(before.holds(gone, index as int));
                before.lemma_contents(gone, index as int);
            }
        }
        Upserted { index: index as usize, updated: UpdateOrInsert::Insert, evicted }
    }

    /// The way after another.
    fn following(way: u64) -> (result: u64)
        requires
            way < S::WAYS,
        ensures
            result == next_way(way as int, S::WAYS as int),
    {
        if way + 1 == S::WAYS {
            0
        } else {
            way + 1
        }
    }

    /// Slots stay in place when a value takes the place of one with the same key.
    proof fn lemma_updated(&self, before: Self, index: int)
        requires
            before.wf(),
            before.occupied(index),
            self.tags == before.tags,
            self.sets == before.sets,
            self.slot_counts() == before.slot_counts(),
            self.values@.len() == before.values@.len(),
            forall|i: int|
                0 <= i < self.values@.len() ==> S::key_of(#[trigger] self.values@[i]) == S::key_of(
                    before.values@[i],
                ),
        ensures
            forall|i: int| #[trigger] self.occupied(i) ==> self.in_place(i),
            forall|i: int, j: int|
                #[trigger] self.occupied(i) && #[trigger] self.occupied(j) && S::key_of(
                    self.values@[i],
                ) == S::key_of(self.values@[j]) ==> i == j,
    {
        assert forall|i: int| #[trigger] self.occupied(i) implies self.in_place(i) by {
            assert(before.occupied(i));
            assert(before.in_place(i));
            assert(S::key_of(self.values@[i]) == S::key_of(before.values@[i]));
        }
        assert forall|i: int, j: int|
            #[trigger] self.occupied(i) && #[trigger] self.occupied(j) && S::key_of(self.values@[i])
                == S::key_of(self.values@[j]) implies i == j by {
            assert(before.occupied(i) && before.occupied(j));
            assert(S::key_of(self.values@[i]) == S::key_of(before.values@[i]));
            assert(S::key_of(self.values@[j]) == S::key_of(before.values@[j]));
        }
    }

    /// Slots stay in place when a value of a new key is put into one.
    proof fn lemma_inserted(&self, before: Self, index: int)
        requires
            before.wf(),
            0 <= index < before.values@.len(),
            self.sets == before.sets,
            self.values@ == before.values@.update(index, self.values@[index]),
            self.tags@ == before.tags@.update(index, self.tags@[index]),
            self.slot_counts().len() == before.slot_counts().len(),
            forall|i: int| i != index && #[trigger] self.occupied(i) ==> before.occupied(i),
            self.in_place(index),
            forall|i: int| !#[trigger] before.holds(S::key_of(self.values@[index]), i),
        ensures
            forall|i: int| #[trigger] self.occupied(i) ==> self.in_place(i),
            forall|i: int, j: int|
                #[trigger] self.occupied(i) && #[trigger] self.occupied(j) && S::key_of(
                    self.values@[i],
                ) == S::key_of(self.values@[j]) ==> i == j,
    {
        assert forall|i: int| #[trigger] self.occupied(i) implies self.in_place(i) by {
            if i != index {
                assert(before.occupied(i));
                assert(before.in_place(i));
            }
        }
        assert forall|i: int, j: int|
            #[trigger] self.occupied(i) && #[trigger] self.occupied(j) && S::key_of(self.values@[i])
                == S::key_of(self.values@[j]) implies i == j by {
            if i != index {
                assert(before.occupied(i));
                assert(!before.holds(S::key_of(self.values@[index]), i));
            }
            if j != index {
                assert(before.occupied(j));
                assert(!before.holds(S::key_of(self.values@[index]), j));
            }
        }
    }

    /// The set of a key.
    fn associate(&self, key: S::Key) -> (result: AssociatedSet)
        requires
            self.wf(),
        ensures
            self.is_set(result, key),
    {
        let entropy: u64 = S::hash(key);
        let tag: Tag = if S::TAG_BITS == 8 {
            (entropy % 0x100) as Tag
        } else {
            (entropy % 0x1_0000) as Tag
        };
        let index: u64 = fastrange(entropy, self.sets);
        let ghost sets = self.sets as int;
        let ghost ways = S::WAYS as int;
        proof {
            assert(index * ways + ways <= sets * ways) by (nonlinear_arith)
                requires
                    index < sets,
                    ways > 0,
            ;
            assert(index * ways >= 0) by (nonlinear_arith)
                requires
                    index >= 0,
                    ways > 0,
            ;
        }
        let offset: u64 = index * S::WAYS;
        AssociatedSet { tag, index, offset }
    }
}

/// How often the hand has come by a way.
spec fn passes(hand: int, rounds: int, gone: int, way: int, ways: int) -> int {
    if hand_distance(hand, way, ways) < gone {
        rounds + 1
    } else {
        rounds
    }
}

/// Words that hold the bits of integers hold the integers.
proof fn lemma_capacity(count: int, bits: int, words: int)
    requires
        bits == 1 || bits == 2 || bits == 4,
        count >= 0,
        words == words_for((count * bits + 7) / 8),
    ensures
        words * (64int / bits) >= count,
{
    if bits == 1 {
        assert(count * bits == count && words * (64int / bits) == words * 64) by (nonlinear_arith)
            requires
                bits == 1,
        ;
    } else if bits == 2 {
        assert(count * bits == 2 * count && words * (64int / bits) == words * 32) by (nonlinear_arith)
            requires
                bits == 2,
        ;
    } else {
        assert(count * bits == 4 * count && words * (64int / bits) == words * 16) by (nonlinear_arith)
            requires
                bits == 4,
        ;
    }
}

/// The bytes that hold some bits.
fn bytes_for(bits: u64) -> (result: u64)
    ensures
        result == (bits + 7) / 8,
{
    if bits % 8 == 0 {
        bits / 8
    } else {
        bits / 8 + 1
    }
}

/// The hand goes from way to way. A count of one or less is the end of it: the way is the victim.
/// From any other count the hand takes one, and goes on.
pub open spec fn clock(counts: Seq<u64>, hand: int, steps: nat) -> (Seq<u64>, int)
    decreases steps,
{
    if steps == 0 || counts[hand] <= 1 {
        (counts, hand)
    } else {
        clock(
            counts.update(hand, (counts[hand] - 1) as u64),
            (hand + 1) % counts.len() as int,
            (steps - 1) as nat,
        )
    }
}

/// The victim is the way where the hand of the clock stops, and the counts are what it left. It
/// stops once it went round as often as the victim's count says, and on to the victim.
pub proof fn law_clock_hand_finds_the_victim(
    counts: Seq<u64>,
    hand: int,
    victim: int,
    steps: nat,
)
    requires
        0 <= hand < counts.len(),
        is_victim(counts, hand, victim),
        steps >= (chances(counts[victim]) - 1) * counts.len() + hand_distance(
            hand,
            victim,
            counts.len() as int,
        ),
    ensures
        ({
            let (left, way) = clock(counts, hand, steps);
            &&& left[way] <= 1
            &&& victim == way
            &&& swept(counts, hand, victim) == left.update(way, 1)
        }),
    decreases steps,
{
    let ways = counts.len() as int;
    if counts[hand] <= 1 {
        assert(chances(counts[hand]) == 1);
        assert(hand_distance(hand, hand, ways) == 0);
        assert(victim == hand);
        assert(swept(counts, hand, victim) =~= counts.update(hand, 1));
    } else {
        let next = (hand + 1) % ways;
        let fewer = counts.update(hand, (counts[hand] - 1) as u64);
        let more = chances(counts[victim]) - 1;
        let distance = hand_distance(hand, victim, ways);
        assert(more * ways + distance >= 1 && (more - 1) * ways == more * ways - ways)
            by (nonlinear_arith)
            requires
                ways >= 1,
                more >= 0,
                distance >= 0,
                more >= 1 || distance >= 1,
        ;
        lemma_clock_step(counts, hand, victim);
        law_clock_hand_finds_the_victim(fewer, next, victim, (steps - 1) as nat);
    }
}

/// One step of the hand changes neither the victim nor what is left in the end.
proof fn lemma_clock_step(counts: Seq<u64>, hand: int, victim: int)
    requires
        0 <= hand < counts.len(),
        counts[hand] > 1,
        is_victim(counts, hand, victim),
    ensures
        ({
            let next = (hand + 1) % counts.len() as int;
            let fewer = counts.update(hand, (counts[hand] - 1) as u64);
            &&& 0 <= next < counts.len()
            &&& is_victim(fewer, next, victim)
            &&& swept(fewer, next, victim) == swept(counts, hand, victim)
            &&& if victim == hand {
                &&& chances(fewer[victim]) == chances(counts[victim]) - 1
                &&& hand_distance(next, victim, counts.len() as int) == counts.len() - 1
                &&& hand_distance(hand, victim, counts.len() as int) == 0
            } else {
                &&& chances(fewer[victim]) == chances(counts[victim])
                &&& hand_distance(next, victim, counts.len() as int) == hand_distance(
                    hand,
                    victim,
                    counts.len() as int,
                ) - 1
            }
        }),
{
    let ways = counts.len() as int;
    let next = (hand + 1) % ways;
    let fewer = counts.update(hand, (counts[hand] - 1) as u64);
    assert(next == if hand + 1 == ways {
        0
    } else {
        hand + 1
    }) by {
        if hand + 1 == ways {
            assert(ways % ways == 0) by (nonlinear_arith)
                requires
                    ways > 0,
            ;
        } else {
            vstd::arithmetic::div_mod::lemma_small_mod((hand + 1) as nat, ways as nat);
        }
    }
    assert forall|way: int| 0 <= way < ways && way != hand implies hand_distance(next, way, ways)
        == hand_distance(hand, way, ways) - 1 by {}
    assert(hand_distance(next, hand, ways) == ways - 1);
    assert forall|way: int| 0 <= way < ways implies {
        ||| chances(fewer[victim]) < chances(#[trigger] fewer[way])
        ||| chances(fewer[victim]) == chances(fewer[way]) && hand_distance(next, victim, ways)
            <= hand_distance(next, way, ways)
    } by {
        assert(chances(counts[victim]) < chances(counts[way]) || chances(counts[victim])
            == chances(counts[way]) && hand_distance(hand, victim, ways) <= hand_distance(
            hand,
            way,
            ways,
        ));
    }
    assert(swept(fewer, next, victim) =~= swept(counts, hand, victim));
}

/// A word is mapped to the part of the range in which it lies.
pub proof fn law_fastrange_divides_evenly(word: u64, count: u64)
    ensures
        spec_fastrange(word, count) * 0x1_0000_0000_0000_0000 <= word * count,
        word * count < (spec_fastrange(word, count) + 1) * 0x1_0000_0000_0000_0000,
{
}

/// A tag is the low byte of a hash, or the low two.
pub proof fn law_tags_are_low_bits<S: SetAssociativeCacheSpec>(key: S::Key)
    requires
        S::TAG_BITS == 8 || S::TAG_BITS == 16,
    ensures
        tag_of::<S>(key) == S::hash_of(key) as int % if S::TAG_BITS == 8 {
            256int
        } else {
            65_536int
        },
{
}

} // verus!
