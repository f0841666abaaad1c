//! One level of a tree's manifest: the tables of the level with their key bounds, in ascending
//! order of `(key_max, snapshot_min)`.
//!
//! Tables that some snapshot sees together do not overlap. Tables that no snapshot sees together
//! may: a table that compaction has replaced stays in the level until no retained snapshot needs
//! it.

use crate::binary_search::{is_upsert_index, Mode};
use crate::bounded_array::BoundedArray;
use crate::constants::LSM_GROWTH_FACTOR;
use crate::direction::Direction;
use crate::key::{sorted, OrderedKey};
use crate::segmented_array::{
    spec_ranks, walk, SegmentedArray, SegmentedArrayIterator, SegmentedArraySpec,
};
pub use crate::tree::SNAPSHOT_LATEST;
use vstd::prelude::*;

verus! {

/// `LSM_GROWTH_FACTOR` as a length.
pub const OVERLAP_MAX: usize = LSM_GROWTH_FACTOR as usize;

/// What a level knows of a table.
pub struct TableFields<K> {
    pub checksum: u128,
    pub address: u64,
    pub snapshot_min: u64,
    pub snapshot_max: u64,
    pub key_min: K,
    pub key_max: K,
    pub value_count: u32,
}

impl<K: OrderedKey> TableFields<K> {
    /// A table that may be asked about.
    pub open spec fn valid(self) -> bool {
        &&& self.address != 0
        &&& self.snapshot_min <= self.snapshot_max
        &&& self.snapshot_min <= SNAPSHOT_LATEST || self.snapshot_max < u64::MAX
        &&& self.key_min.rank() <= self.key_max.rank()
    }

    /// Whether `snapshot` sees the table.
    pub open spec fn visible_at(self, snapshot: u64) -> bool {
        self.snapshot_min <= snapshot <= self.snapshot_max
    }

    /// Whether the table holds keys between `key_min` and `key_max`, by its bounds.
    pub open spec fn meets(self, key_min: int, key_max: int) -> bool {
        key_min <= self.key_max.rank() && self.key_min.rank() <= key_max
    }

    /// Whether some snapshot sees both tables.
    pub open spec fn coexists(self, other: Self) -> bool {
        self.snapshot_min <= other.snapshot_max && other.snapshot_min <= self.snapshot_max
    }

    /// The order of tables in a level.
    pub open spec fn precedes(self, other: Self) -> bool {
        self.key_max.rank() < other.key_max.rank() || (self.key_max.rank() == other.key_max.rank()
            && self.snapshot_min < other.snapshot_min)
    }

    /// Whether the two are the same table, except perhaps for its `snapshot_max`.
    pub open spec fn same_table(self, other: Self) -> bool {
        &&& self.key_max == other.key_max
        &&& self.snapshot_min == other.snapshot_min
        &&& self.address == other.address
        &&& self.checksum == other.checksum
    }
}

/// The metadata of a table.
pub trait LevelTableInfo: Copy {
    type Key: OrderedKey;

    /// Everything that there is to know of the table.
    spec fn fields(self) -> TableFields<Self::Key>;

    /// Tables with the same metadata are the same.
    proof fn fields_injective(a: Self, b: Self)
        requires
            a.fields() == b.fields(),
        ensures
            a == b,
    ;

    fn checksum(&self) -> (result: u128)
        ensures
            result == self.fields().checksum,
    ;

    fn address(&self) -> (result: u64)
        ensures
            result == self.fields().address,
    ;

    fn snapshot_min(&self) -> (result: u64)
        ensures
            result == self.fields().snapshot_min,
    ;

    fn snapshot_max(&self) -> (result: u64)
        ensures
            result == self.fields().snapshot_max,
    ;

    fn set_snapshot_max(&mut self, snapshot_max: u64)
        ensures
            final(self).fields() == (TableFields { snapshot_max, ..old(self).fields() }),
    ;

    fn key_min(&self) -> (result: Self::Key)
        ensures
            result == self.fields().key_min,
    ;

    fn key_max(&self) -> (result: Self::Key)
        ensures
            result == self.fields().key_max,
    ;

    fn value_count(&self) -> (result: u32)
        ensures
            result == self.fields().value_count,
    ;

    /// Whether `snapshot` sees this table.
    fn visible(&self, snapshot: u64) -> (result: bool)
        requires
            self.fields().valid(),
            snapshot <= SNAPSHOT_LATEST,
        ensures
            result == self.fields().visible_at(snapshot),
    {
        self.snapshot_min() <= snapshot && snapshot <= self.snapshot_max()
    }

    /// Whether neither the latest snapshot nor any of `snapshots` sees this table.
    fn invisible(&self, snapshots: &[u64]) -> (result: bool)
        requires
            self.fields().valid(),
            snapshots_valid(snapshots@),
        ensures
            result == invisible_to(self.fields(), snapshots@),
    {
        if self.visible(SNAPSHOT_LATEST) {
            return false;
        }
        let mut i: usize = 0;
        while i < snapshots.len()
            invariant
                i <= snapshots@.len(),
                self.fields().valid(),
                snapshots_valid(snapshots@),
                !self.fields().visible_at(SNAPSHOT_LATEST),
                forall|j: int| 0 <= j < i ==> !self.fields().visible_at(#[trigger] snapshots@[j]),
            decreases snapshots@.len() - i,
        {
            if self.visible(snapshots[i]) {
                return false;
            }
            i = i + 1;
        }
        true
    }

    /// Whether all the metadata of the two tables is equal.
    fn equal(&self, other: &Self) -> (result: bool)
        ensures
            result == (*self == *other),
    {
        let result = self.checksum() == other.checksum() && self.address() == other.address()
            && self.snapshot_min() == other.snapshot_min() && self.snapshot_max()
            == other.snapshot_max() && self.key_min().key_eq(other.key_min())
            && self.key_max().key_eq(other.key_max()) && self.value_count() == other.value_count();
        proof {
            if result {
                Self::fields_injective(*self, *other);
            }
        }
        result
    }
}

/// No snapshot is past the latest.
pub open spec fn snapshots_valid(snapshots: Seq<u64>) -> bool {
    forall|i: int| 0 <= i < snapshots.len() ==> #[trigger] snapshots[i] <= SNAPSHOT_LATEST
}

/// Neither the latest snapshot nor any of `snapshots` sees the table.
pub open spec fn invisible_to<K: OrderedKey>(table: TableFields<K>, snapshots: Seq<u64>) -> bool {
    &&& !table.visible_at(SNAPSHOT_LATEST)
    &&& forall|i: int| 0 <= i < snapshots.len() ==> !table.visible_at(#[trigger] snapshots[i])
}

/// Some of `snapshots` sees the table.
pub open spec fn visible_to<K: OrderedKey>(table: TableFields<K>, snapshots: Seq<u64>) -> bool {
    exists|i: int| 0 <= i < snapshots.len() && table.visible_at(#[trigger] snapshots[i])
}

/// What a level holds and how large it may grow.
pub trait ManifestLevelSpec {
    type Key: OrderedKey;

    type TableInfo: LevelTableInfo<Key = Self::Key>;

    /// The most tables of the tree.
    const TABLE_COUNT_MAX_TREE: u32;

    const KEYS_NODE_CAPACITY: usize;

    const TABLES_NODE_CAPACITY: usize;

    /// Orders tables by `(key_max, snapshot_min)`.
    type TableSortKey: OrderedKey;

    spec fn sort_key_of(table_info: Self::TableInfo) -> Self::TableSortKey;

    /// The sort key orders tables as the level does.
    proof fn sort_key_orders(a: Self::TableInfo, b: Self::TableInfo)
        ensures
            Self::sort_key_of(a).rank() < Self::sort_key_of(b).rank() <==> a.fields().precedes(
                b.fields(),
            ),
    ;

    fn table_sort_key(table_info: &Self::TableInfo) -> (result: Self::TableSortKey)
        ensures
            result == Self::sort_key_of(*table_info),
    ;
}

/// The pair that orders the tables of a level.
#[derive(Clone, Copy, Debug, Default, PartialEq, Eq)]
pub struct KeyMaxSnapshotMin<K> {
    pub snapshot_min: u64,
    pub key_max: K,
}

impl KeyMaxSnapshotMin<u64> {
    /// The pair as one integer, ordered by `key_max` first and `snapshot_min` second.
    pub open spec fn spec_to_int(self) -> int {
        self.key_max * 0x1_0000_0000_0000_0000 + self.snapshot_min
    }

    /// Packs the pair into one integer, ordered by `key_max` first and `snapshot_min` second.
    #[must_use]
    pub fn to_int(self) -> (result: u128)
        ensures
            result == self.spec_to_int(),
    {
        self.key_max as u128 * 0x1_0000_0000_0000_0000 + self.snapshot_min as u128
    }

    /// Unpacks a pair.
    #[must_use]
    pub fn from_int(value: u128) -> (result: Self)
        ensures
            result.spec_to_int() == value,
    {
        KeyMaxSnapshotMin {
            snapshot_min: (value % 0x1_0000_0000_0000_0000) as u64,
            key_max: (value / 0x1_0000_0000_0000_0000) as u64,
        }
    }
}

/// Tables are ordered by their greatest key first and their first snapshot second.
impl<K: OrderedKey> OrderedKey for KeyMaxSnapshotMin<K> {
    open spec fn rank(self) -> int {
        self.key_max.rank() * 0x1_0000_0000_0000_0000 + self.snapshot_min
    }

    proof fn rank_injective(a: Self, b: Self) {
        K::rank_injective(a.key_max, b.key_max);
    }

    fn key_lt(self, other: Self) -> (result: bool) {
        self.key_max.key_lt(other.key_max) || (self.key_max.key_le(other.key_max)
            && self.snapshot_min < other.snapshot_min)
    }

    fn key_le(self, other: Self) -> (result: bool) {
        self.key_max.key_lt(other.key_max) || (self.key_max.key_le(other.key_max)
            && self.snapshot_min <= other.snapshot_min)
    }

    fn key_eq(self, other: Self) -> (result: bool) {
        self.key_max.key_eq(other.key_max) && self.snapshot_min == other.snapshot_min
    }
}

/// Packing a pair loses nothing.
pub proof fn law_packed_pairs_are_distinct(a: KeyMaxSnapshotMin<u64>, b: KeyMaxSnapshotMin<u64>)
    ensures
        a.spec_to_int() == b.spec_to_int() ==> a == b,
{
}

/// Packed pairs are ordered by `key_max` first and `snapshot_min` second.
pub proof fn law_packed_pairs_are_ordered(a: KeyMaxSnapshotMin<u64>, b: KeyMaxSnapshotMin<u64>)
    ensures
        a.spec_to_int() < b.spec_to_int() <==> a.key_max < b.key_max || (a.key_max == b.key_max
            && a.snapshot_min < b.snapshot_min),
{
}

/// A copy of a table in the level, good for as long as the level keeps its generation.
#[derive(Clone, Copy, Debug, PartialEq, Eq)]
pub struct TableInfoReference<T> {
    pub table_info: T,
    pub generation: u32,
}

/// A range of keys, both ends included.
#[derive(Clone, Copy, Debug, PartialEq, Eq)]
pub struct KeyRange<K> {
    pub key_min: K,
    pub key_max: K,
}

/// The tables of a level that meet a range of keys.
#[derive(Clone, Debug)]
pub struct OverlapRange<T, K> {
    /// The least key of the range and its tables.
    pub key_min: K,
    /// The greatest key of the range and its tables.
    pub key_max: K,
    pub tables: BoundedArray<TableInfoReference<T>, OVERLAP_MAX>,
}

/// A table, and what it meets in the next level.
#[derive(Clone, Debug)]
pub struct LeastOverlapTable<T, K> {
    pub table: TableInfoReference<T>,
    pub range: OverlapRange<T, K>,
}

/// Which tables an iterator yields.
#[derive(Clone, Copy, Debug, PartialEq, Eq, Structural)]
pub enum Visibility {
    /// Those that some of the snapshots sees.
    Visible,
    /// Those that neither the latest nor any of the snapshots sees.
    Invisible,
}

/// The greatest keys of the tables of a level.
pub struct KeysSpec<S: ManifestLevelSpec> {
    spec: core::marker::PhantomData<S>,
}

impl<S: ManifestLevelSpec> SegmentedArraySpec for KeysSpec<S> {
    type Value = S::Key;

    type Key = S::Key;

    const SORTED: bool = true;

    const ELEMENT_COUNT_MAX: u32 = S::TABLE_COUNT_MAX_TREE;

    const NODE_CAPACITY: usize = S::KEYS_NODE_CAPACITY;

    open spec fn key_of(value: S::Key) -> S::Key {
        value
    }

    fn key_from_value(value: &S::Key) -> (result: S::Key) {
        *value
    }
}

/// The tables of a level.
pub struct TablesSpec<S: ManifestLevelSpec> {
    spec: core::marker::PhantomData<S>,
}

impl<S: ManifestLevelSpec> SegmentedArraySpec for TablesSpec<S> {
    type Value = S::TableInfo;

    type Key = S::TableSortKey;

    const SORTED: bool = true;

    const ELEMENT_COUNT_MAX: u32 = S::TABLE_COUNT_MAX_TREE;

    const NODE_CAPACITY: usize = S::TABLES_NODE_CAPACITY;

    open spec fn key_of(value: S::TableInfo) -> S::TableSortKey {
        S::sort_key_of(value)
    }

    fn key_from_value(value: &S::TableInfo) -> (result: S::TableSortKey) {
        S::table_sort_key(value)
    }
}

/// The tables are valid, in order, and do not overlap where a snapshot sees both.
pub open spec fn level_ok<T: LevelTableInfo>(tables: Seq<T>) -> bool {
    &&& forall|i: int| 0 <= i < tables.len() ==> (#[trigger] tables[i]).fields().valid()
    &&& forall|i: int, j: int|
        0 <= i < j < tables.len() ==> (#[trigger] tables[i]).fields().precedes(
            (#[trigger] tables[j]).fields(),
        )
    &&& forall|i: int, j: int|
        0 <= i < j < tables.len() && (#[trigger] tables[i]).fields().coexists(
            (#[trigger] tables[j]).fields(),
        ) ==> tables[i].fields().key_max.rank() < tables[j].fields().key_min.rank()
}

/// `table` may join a level: it is valid, and meets no table that some snapshot sees with it.
pub open spec fn fits_level<T: LevelTableInfo>(tables: Seq<T>, table: T) -> bool {
    &&& table.fields().valid()
    &&& forall|i: int|
        0 <= i < tables.len() && (#[trigger] tables[i]).fields().coexists(table.fields())
            ==> !tables[i].fields().meets(
            table.fields().key_min.rank(),
            table.fields().key_max.rank(),
        )
}

/// The tables that `snapshot` sees.
pub open spec fn visible_tables<T: LevelTableInfo>(tables: Seq<T>, snapshot: u64) -> Seq<T> {
    tables.filter(|table: T| table.fields().visible_at(snapshot))
}

/// The values in `tables`.
pub open spec fn value_count_sum<T: LevelTableInfo>(tables: Seq<T>) -> int
    decreases tables.len(),
{
    if tables.len() == 0 {
        0
    } else {
        value_count_sum(tables.drop_last()) + tables.last().fields().value_count
    }
}

/// The keys that ordered, disjoint `tables` span.
pub open spec fn key_span<T: LevelTableInfo>(tables: Seq<T>) -> Option<KeyRange<T::Key>> {
    if tables.len() == 0 {
        None
    } else {
        Some(
            KeyRange {
                key_min: tables.first().fields().key_min,
                key_max: tables.last().fields().key_max,
            },
        )
    }
}

/// Whether an iterator with this interest yields the table, whatever its keys.
pub open spec fn of_interest<K: OrderedKey>(
    table: TableFields<K>,
    visibility: Visibility,
    snapshots: Seq<u64>,
) -> bool {
    match visibility {
        Visibility::Visible => visible_to(table, snapshots),
        Visibility::Invisible => invisible_to(table, snapshots),
    }
}

/// What an iterator yields of `tables`, which it meets in this order: those of interest that meet
/// the range, up to the first of interest that lies past the range in iteration order.
pub open spec fn select<T: LevelTableInfo>(
    tables: Seq<T>,
    visibility: Visibility,
    snapshots: Seq<u64>,
    direction: Direction,
    key_range: Option<KeyRange<T::Key>>,
) -> Seq<T>
    decreases tables.len(),
{
    if tables.len() == 0 {
        Seq::empty()
    } else {
        let table = tables.first();
        let rest = select(tables.drop_first(), visibility, snapshots, direction, key_range);
        if !of_interest(table.fields(), visibility, snapshots) {
            rest
        } else {
            match key_range {
                None => seq![table] + rest,
                Some(range) => match direction {
                    Direction::Ascending => if table.fields().key_min.rank()
                        > range.key_max.rank() {
                        Seq::empty()
                    } else {
                        seq![table] + rest
                    },
                    Direction::Descending => if table.fields().key_min.rank()
                        > range.key_max.rank() {
                        rest
                    } else if table.fields().key_max.rank() < range.key_min.rank() {
                        Seq::empty()
                    } else {
                        seq![table] + rest
                    },
                },
            }
        }
    }
}

/// How many leading tables end below `key`.
pub open spec fn tables_below<T: LevelTableInfo>(tables: Seq<T>, key: int) -> int
    decreases tables.len(),
{
    if tables.len() == 0 || tables.first().fields().key_max.rank() >= key {
        0
    } else {
        1 + tables_below(tables.drop_first(), key)
    }
}

/// The tables that an iterator walks, in iteration order.
///
/// Ascending, it starts at the first table that does not end below the range. Descending, it
/// starts at the last table that shares its end with the first table that does not end below the
/// end of the range.
pub open spec fn walked<T: LevelTableInfo>(
    tables: Seq<T>,
    direction: Direction,
    key_range: Option<KeyRange<T::Key>>,
) -> Seq<T> {
    match key_range {
        None => match direction {
            Direction::Ascending => tables,
            Direction::Descending => tables.reverse(),
        },
        Some(range) => match direction {
            Direction::Ascending => tables.subrange(
                tables_below(tables, range.key_min.rank()),
                tables.len() as int,
            ),
            Direction::Descending => tables.subrange(
                0,
                descending_end(tables, range.key_max.rank()),
            ).reverse(),
        },
    }
}

/// Where a descending iterator starts: just past the tables that end at or below the first end
/// that is not below `key`.
pub open spec fn descending_end<T: LevelTableInfo>(tables: Seq<T>, key: int) -> int {
    let first = tables_below(tables, key);
    if first >= tables.len() {
        tables.len() as int
    } else {
        tables_below(tables, tables[first].fields().key_max.rank() + 1)
    }
}

/// What an iterator over a level yields.
pub open spec fn iteration<T: LevelTableInfo>(
    tables: Seq<T>,
    visibility: Visibility,
    snapshots: Seq<u64>,
    direction: Direction,
    key_range: Option<KeyRange<T::Key>>,
) -> Seq<T> {
    select(walked(tables, direction, key_range), visibility, snapshots, direction, key_range)
}

/// The tables below a key are those that end below it.
pub proof fn lemma_tables_below<T: LevelTableInfo>(tables: Seq<T>, key: int)
    requires
        ends_ascend(tables),
    ensures
        0 <= tables_below(tables, key) <= tables.len(),
        forall|i: int|
            0 <= i < tables_below(tables, key) ==> (#[trigger] tables[i]).fields().key_max.rank()
                < key,
        forall|i: int|
            tables_below(tables, key) <= i < tables.len() ==> (
            #[trigger] tables[i]).fields().key_max.rank() >= key,
    decreases tables.len(),
{
    if tables.len() > 0 {
        let rest = tables.drop_first();
        assert forall|i: int, j: int| 0 <= i <= j < rest.len() implies (
        #[trigger] rest[i]).fields().key_max.rank() <= (
        #[trigger] rest[j]).fields().key_max.rank() by {
            assert(rest[i] == tables[i + 1] && rest[j] == tables[j + 1]);
        }
        lemma_tables_below(rest, key);
        assert forall|i: int| 0 < i < tables.len() implies tables[i] == rest[i - 1] by {}
        if tables.first().fields().key_max.rank() >= key {
            assert forall|i: int| 0 <= i < tables.len() implies (
            #[trigger] tables[i]).fields().key_max.rank() >= key by {
                assert(tables[0].fields().key_max.rank() <= tables[i].fields().key_max.rank());
            }
        } else {
            let n = tables_below(rest, key);
            assert forall|i: int| 0 <= i < 1 + n implies (
            #[trigger] tables[i]).fields().key_max.rank() < key by {
                if i > 0 {
                    assert(rest[i - 1].fields().key_max.rank() < key);
                }
            }
            assert forall|i: int| 1 + n <= i < tables.len() implies (
            #[trigger] tables[i]).fields().key_max.rank() >= key by {
                assert(rest[i - 1].fields().key_max.rank() >= key);
            }
        }
    }
}

/// Ends do not descend.
pub open spec fn ends_ascend<T: LevelTableInfo>(tables: Seq<T>) -> bool {
    forall|i: int, j: int|
        0 <= i <= j < tables.len() ==> (#[trigger] tables[i]).fields().key_max.rank() <= (
        #[trigger] tables[j]).fields().key_max.rank()
}

proof fn lemma_level_ends_ascend<T: LevelTableInfo>(tables: Seq<T>)
    requires
        level_ok(tables),
    ensures
        ends_ascend(tables),
{
    assert forall|i: int, j: int| 0 <= i <= j < tables.len() implies (
    #[trigger] tables[i]).fields().key_max.rank() <= (
    #[trigger] tables[j]).fields().key_max.rank() by {
        if i < j {
            assert(tables[i].fields().precedes(tables[j].fields()));
        }
    }
}

/// Filtering around one element.
pub proof fn lemma_filter_around<A>(
    left: Seq<A>,
    middle: A,
    right: Seq<A>,
    pred: spec_fn(A) -> bool,
)
    ensures
        (left + seq![middle] + right).filter(pred) == left.filter(pred) + (if pred(middle) {
            seq![middle]
        } else {
            Seq::empty()
        }) + right.filter(pred),
{
    Seq::filter_distributes_over_add(left + seq![middle], right, pred);
    Seq::filter_distributes_over_add(left, seq![middle], pred);
    lemma_filter_one(middle, pred);
}

pub proof fn lemma_filter_one<A>(element: A, pred: spec_fn(A) -> bool)
    ensures
        seq![element].filter(pred) == if pred(element) {
            seq![element]
        } else {
            Seq::<A>::empty()
        },
{
    reveal_with_fuel(Seq::filter, 2);
    assert(seq![element].drop_last() =~= Seq::<A>::empty());
    assert(Seq::<A>::empty().push(element) =~= seq![element]);
}

/// Without a range, an iterator yields every table of interest.
pub proof fn law_iteration_without_range<T: LevelTableInfo>(
    tables: Seq<T>,
    visibility: Visibility,
    snapshots: Seq<u64>,
    direction: Direction,
)
    ensures
        select(tables, visibility, snapshots, direction, None) == tables.filter(
            |table: T| of_interest(table.fields(), visibility, snapshots),
        ),
    decreases tables.len(),
{
    let pred = |table: T| of_interest(table.fields(), visibility, snapshots);
    if tables.len() == 0 {
        reveal(Seq::filter);
    } else {
        let first = tables.first();
        let rest = tables.drop_first();
        law_iteration_without_range(rest, visibility, snapshots, direction);
        assert(tables =~= seq![first] + rest);
        Seq::filter_distributes_over_add(seq![first], rest, pred);
        lemma_filter_one(first, pred);
        assert(Seq::<T>::empty() + rest.filter(pred) =~= rest.filter(pred));
    }
}

/// Asking for one snapshot is asking whether it sees the table.
pub proof fn lemma_one_snapshot<K: OrderedKey>(table: TableFields<K>, snapshot: u64)
    ensures
        of_interest(table, Visibility::Visible, seq![snapshot]) == table.visible_at(snapshot),
{
    let snapshots = seq![snapshot];
    if table.visible_at(snapshot) {
        assert(table.visible_at(snapshots[0]));
    }
}

/// Without a range, asking for one snapshot yields the tables that it sees.
pub proof fn lemma_visible_iteration<T: LevelTableInfo>(
    tables: Seq<T>,
    snapshot: u64,
    direction: Direction,
)
    ensures
        select(tables, Visibility::Visible, seq![snapshot], direction, None) == visible_tables(
            tables,
            snapshot,
        ),
{
    law_iteration_without_range(tables, Visibility::Visible, seq![snapshot], direction);
    let a = |table: T| of_interest(table.fields(), Visibility::Visible, seq![snapshot]);
    let b = |table: T| table.fields().visible_at(snapshot);
    assert forall|table: T| #[trigger] a(table) == b(table) by {
        lemma_one_snapshot(table.fields(), snapshot);
    }
    assert(a =~= b);
}

pub proof fn lemma_value_count_sum_add<T: LevelTableInfo>(a: Seq<T>, b: Seq<T>)
    ensures
        value_count_sum(a + b) == value_count_sum(a) + value_count_sum(b),
    decreases b.len(),
{
    if b.len() == 0 {
        assert(a + b =~= a);
    } else {
        assert((a + b).drop_last() =~= a + b.drop_last());
        lemma_value_count_sum_add(a, b.drop_last());
    }
}

pub proof fn lemma_value_count_sum_bounds<T: LevelTableInfo>(tables: Seq<T>)
    ensures
        0 <= value_count_sum(tables) <= tables.len() * u32::MAX,
    decreases tables.len(),
{
    if tables.len() > 0 {
        lemma_value_count_sum_bounds(tables.drop_last());
    }
}

/// What a snapshot sees of a level is valid, ordered and disjoint.
pub proof fn lemma_visible_tables_ok<T: LevelTableInfo>(tables: Seq<T>, snapshot: u64)
    requires
        level_ok(tables),
    ensures
        disjoint(visible_tables(tables, snapshot)),
        visible_tables(tables, snapshot).len() <= tables.len(),
        forall|i: int|
            0 <= i < visible_tables(tables, snapshot).len() ==> {
                &&& (#[trigger] visible_tables(tables, snapshot)[i]).fields().visible_at(snapshot)
                &&& tables.contains(visible_tables(tables, snapshot)[i])
            },
        forall|i: int|
            0 <= i < tables.len() && (#[trigger] tables[i]).fields().visible_at(snapshot)
                ==> visible_tables(tables, snapshot).contains(tables[i]),
    decreases tables.len(),
{
    let pred = |table: T| table.fields().visible_at(snapshot);
    let seen = visible_tables(tables, snapshot);
    reveal(Seq::filter);
    if tables.len() > 0 {
        let rest = tables.drop_last();
        let last = tables.last();
        assert forall|i: int| 0 <= i < rest.len() implies rest[i] == tables[i] by {}
        lemma_visible_tables_ok(rest, snapshot);
        let rest_seen = visible_tables(rest, snapshot);
        assert(last == tables[tables.len() - 1]);
        if pred(last) {
            assert(seen == rest_seen.push(last));
            assert forall|i: int| 0 <= i < rest_seen.len() implies (
            #[trigger] rest_seen[i]).fields().key_max.rank() < last.fields().key_min.rank() by {
                let k = choose|k: int| 0 <= k < rest.len() && rest[k] == rest_seen[i];
                assert(tables[k] == rest_seen[i]);
                assert(tables[k].fields().coexists(tables[tables.len() - 1].fields()));
            }
        } else {
            assert(seen == rest_seen);
        }
        assert forall|i: int| 0 <= i < seen.len() implies (
        #[trigger] seen[i]).fields().visible_at(snapshot) && tables.contains(seen[i]) by {
            if i < rest_seen.len() {
                assert(seen[i] == rest_seen[i]);
                let k = choose|k: int| 0 <= k < rest.len() && rest[k] == rest_seen[i];
                assert(tables[k] == seen[i]);
            } else {
                assert(tables[tables.len() - 1] == seen[i]);
            }
        }
        assert forall|i: int|
            0 <= i < tables.len() && (#[trigger] tables[i]).fields().visible_at(
                snapshot,
            ) implies seen.contains(tables[i]) by {
            if i < rest.len() {
                assert(rest[i].fields().visible_at(snapshot));
                assert(rest_seen.contains(rest[i]));
                let k = choose|k: int| 0 <= k < rest_seen.len() && rest_seen[k] == rest[i];
                assert(seen[k] == tables[i]);
            } else {
                assert(seen[seen.len() - 1] == tables[i]);
            }
        }
    }
}

/// Valid tables, each wholly before the next.
pub open spec fn disjoint<T: LevelTableInfo>(tables: Seq<T>) -> bool {
    &&& forall|i: int| 0 <= i < tables.len() ==> (#[trigger] tables[i]).fields().valid()
    &&& forall|i: int, j: int|
        0 <= i < j < tables.len() ==> (#[trigger] tables[i]).fields().key_max.rank() < (
        #[trigger] tables[j]).fields().key_min.rank()
}

/// A table that fits goes where the order puts it, and the level stays ordered and disjoint.
pub proof fn lemma_level_insert<T: LevelTableInfo>(tables: Seq<T>, index: int, table: T)
    requires
        level_ok(tables),
        fits_level(tables, table),
        0 <= index <= tables.len(),
        forall|i: int|
            0 <= i < index ==> (#[trigger] tables[i]).fields().precedes(table.fields()),
        forall|i: int|
            index <= i < tables.len() ==> table.fields().precedes((#[trigger] tables[i]).fields()),
    ensures
        level_ok(tables.insert(index, table)),
{
    let after = tables.insert(index, table);
    assert forall|i: int| 0 <= i < after.len() implies (#[trigger] after[i]).fields().valid() by {
        if i < index {
            assert(after[i] == tables[i]);
        } else if i > index {
            assert(after[i] == tables[i - 1]);
        }
    }
    assert forall|i: int, j: int| 0 <= i < j < after.len() implies (
    #[trigger] after[i]).fields().precedes((#[trigger] after[j]).fields()) && (
    after[i].fields().coexists(after[j].fields()) ==> after[i].fields().key_max.rank()
        < after[j].fields().key_min.rank()) by {
        let oi = if i < index {
            i
        } else {
            i - 1
        };
        let oj = if j < index {
            j
        } else {
            j - 1
        };
        if i == index {
            assert(after[j] == tables[oj]);
        } else if j == index {
            assert(after[i] == tables[oi]);
        } else {
            assert(after[i] == tables[oi] && after[j] == tables[oj]);
        }
    }
}

/// One level of a manifest.
pub struct ManifestLevel<S: ManifestLevelSpec> {
    /// The greatest key of each table, in parallel to `tables`. Nodes of this array hold more
    /// elements, so that a search touches fewer of them.
    keys: SegmentedArray<KeysSpec<S>>,
    tables: SegmentedArray<TablesSpec<S>>,
    /// The keys that the tables visible to the latest snapshot span.
    key_range_latest: Option<KeyRange<S::Key>>,
    /// The tables visible to the latest snapshot.
    table_count_visible: u32,
    /// The values in the tables visible to the latest snapshot.
    value_count_visible: u64,
    /// Tells references made before a change from those made after it.
    generation: u32,
}

impl<S: ManifestLevelSpec> View for ManifestLevel<S> {
    type V = Seq<S::TableInfo>;

    closed spec fn view(&self) -> Seq<S::TableInfo> {
        self.tables@
    }
}

impl<S: ManifestLevelSpec> ManifestLevel<S> {
    /// The constants of the spec suit the two arrays.
    pub open spec fn spec_valid() -> bool {
        &&& 2 <= S::KEYS_NODE_CAPACITY < S::TABLE_COUNT_MAX_TREE
        &&& S::KEYS_NODE_CAPACITY % 2 == 0
        &&& S::KEYS_NODE_CAPACITY + S::TABLE_COUNT_MAX_TREE + 2 <= usize::MAX
        &&& 2 <= S::TABLES_NODE_CAPACITY < S::TABLE_COUNT_MAX_TREE
        &&& S::TABLES_NODE_CAPACITY % 2 == 0
        &&& S::TABLES_NODE_CAPACITY + S::TABLE_COUNT_MAX_TREE + 2 <= usize::MAX
    }

    pub closed spec fn wf(&self) -> bool {
        &&& self.arrays_ok()
        &&& self.summary_ok()
    }

    spec fn arrays_ok(&self) -> bool {
        &&& self.keys.wf()
        &&& self.tables.wf()
        &&& level_ok(self.tables@)
        &&& self.keys@ == key_maxes(self.tables@)
    }

    spec fn summary_ok(&self) -> bool {
        let seen = visible_tables(self.tables@, SNAPSHOT_LATEST);
        &&& self.key_range_latest == key_span(seen)
        &&& self.table_count_visible == seen.len()
        &&& self.value_count_visible == value_count_sum(seen)
    }

    pub closed spec fn spec_generation(&self) -> u32 {
        self.generation
    }

    /// The tables are valid, ordered, and disjoint where a snapshot sees both.
    pub proof fn law_tables_are_ordered_and_disjoint(&self)
        requires
            self.wf(),
        ensures
            level_ok(self@),
            self@.len() <= S::TABLE_COUNT_MAX_TREE,
    {
        self.tables.law_elements_are_bounded_and_sorted();
    }

    /// An empty level.
    #[must_use]
    pub fn new() -> (result: Self)
        requires
            Self::spec_valid(),
        ensures
            result.wf(),
            result@ == Seq::<S::TableInfo>::empty(),
            result.spec_generation() == 0,
    {
        let result = ManifestLevel {
            keys: SegmentedArray::new(),
            tables: SegmentedArray::new(),
            key_range_latest: None,
            table_count_visible: 0,
            value_count_visible: 0,
            generation: 0,
        };
        proof {
            reveal(Seq::filter);
            assert(result.keys@ =~= key_maxes(result.tables@));
        }
        result
    }

    /// Drops every table. References made before are stale.
    pub fn reset(&mut self)
        requires
            old(self).wf(),
        ensures
            final(self).wf(),
            final(self)@ == Seq::<S::TableInfo>::empty(),
            final(self).spec_generation() == next_generation(old(self).spec_generation()),
    {
        self.keys.reset();
        self.tables.reset();
        self.key_range_latest = None;
        self.table_count_visible = 0;
        self.value_count_visible = 0;
        self.advance_generation();
        proof {
            reveal(Seq::filter);
            assert(self.keys@ =~= key_maxes(self.tables@));
        }
    }

    fn advance_generation(&mut self)
        ensures
            final(self).generation == next_generation(old(self).generation),
            final(self).keys == old(self).keys,
            final(self).tables == old(self).tables,
            final(self).key_range_latest == old(self).key_range_latest,
            final(self).table_count_visible == old(self).table_count_visible,
            final(self).value_count_visible == old(self).value_count_visible,
    {
        self.generation = if self.generation == u32::MAX {
            0
        } else {
            self.generation + 1
        };
    }

    /// The keys that the tables visible to the latest snapshot span.
    #[must_use]
    pub fn key_range_latest(&self) -> (result: Option<KeyRange<S::Key>>)
        requires
            self.wf(),
        ensures
            result == key_span(visible_tables(self@, SNAPSHOT_LATEST)),
    {
        self.key_range_latest
    }

    /// The number of tables visible to the latest snapshot.
    #[must_use]
    pub fn table_count_visible(&self) -> (result: u32)
        requires
            self.wf(),
        ensures
            result == visible_tables(self@, SNAPSHOT_LATEST).len(),
    {
        self.table_count_visible
    }

    /// The number of values in the tables visible to the latest snapshot.
    #[must_use]
    pub fn value_count_visible(&self) -> (result: u64)
        requires
            self.wf(),
        ensures
            result == value_count_sum(visible_tables(self@, SNAPSHOT_LATEST)),
    {
        self.value_count_visible
    }

    /// The number of tables, visible or not.
    #[must_use]
    pub fn len(&self) -> (result: u32)
        requires
            self.wf(),
        ensures
            result == self@.len(),
    {
        self.tables.len()
    }

    /// The generation that references made now carry.
    #[must_use]
    pub fn generation(&self) -> (result: u32)
        ensures
            result == self.spec_generation(),
    {
        self.generation
    }

    /// Inserts a table.
    #[verifier::rlimit(40)]
    pub fn insert_table(&mut self, table: &S::TableInfo)
        requires
            old(self).wf(),
            fits_level(old(self)@, *table),
            old(self)@.len() < S::TABLE_COUNT_MAX_TREE,
        ensures
            final(self).wf(),
            exists|index: int|
                0 <= index <= old(self)@.len() && final(self)@ == #[trigger] old(self)@.insert(
                    index,
                    *table,
                ),
            final(self).spec_generation() == next_generation(old(self).spec_generation()),
    {
        let ghost before = self.tables@;
        let key_max = table.key_max();
        let ghost keys_before = self.keys@;
        proof {
            self.keys.law_elements_are_bounded_and_sorted();
            self.tables.law_elements_are_bounded_and_sorted();
        }
        let key_index: u32 = self.keys.insert_element(key_max);
        let table_index: u32 = self.tables.insert_element(*table);
        proof {
            lemma_sort_position::<S>(before, *table, table_index as int);
            lemma_level_insert(before, table_index as int, *table);
            lemma_keys_insert::<S>(
                keys_before,
                before,
                key_index as int,
                table_index as int,
                *table,
            );
        }
        let ghost seen_before = visible_tables(before, SNAPSHOT_LATEST);
        proof {
            lemma_visible_insert(before, table_index as int, *table, SNAPSHOT_LATEST);
            lemma_value_count_sum_bounds(visible_tables(self.tables@, SNAPSHOT_LATEST));
            lemma_visible_tables_ok(self.tables@, SNAPSHOT_LATEST);
            self.tables.law_elements_are_bounded_and_sorted();
        }
        if table.visible(SNAPSHOT_LATEST) {
            proof {
                let seen_after = visible_tables(self.tables@, SNAPSHOT_LATEST);
                assert(seen_after.len() * u32::MAX <= u64::MAX) by (nonlinear_arith)
                    requires
                        seen_after.len() <= u32::MAX,
                ;
            }
            self.table_count_visible = self.table_count_visible + 1;
            self.value_count_visible = self.value_count_visible + table.value_count() as u64;
            self.key_range_latest_extend(
                KeyRange { key_min: table.key_min(), key_max: table.key_max() },
            );
            proof {
                lemma_span_insert(before, table_index as int, *table);
            }
        }
        self.advance_generation();
    }

    /// Widens the span of the visible tables by a range.
    fn key_range_latest_extend(&mut self, range: KeyRange<S::Key>)
        ensures
            final(self).keys == old(self).keys,
            final(self).tables == old(self).tables,
            final(self).table_count_visible == old(self).table_count_visible,
            final(self).value_count_visible == old(self).value_count_visible,
            final(self).generation == old(self).generation,
            final(self).key_range_latest == Some(span_with(old(self).key_range_latest, range)),
    {
        let extended = match self.key_range_latest {
            Some(current) => KeyRange {
                key_min: if range.key_min.key_lt(current.key_min) {
                    range.key_min
                } else {
                    current.key_min
                },
                key_max: if current.key_max.key_lt(range.key_max) {
                    range.key_max
                } else {
                    current.key_max
                },
            },
            None => range,
        };
        self.key_range_latest = Some(extended);
    }
}

/// The least range that holds both.
pub open spec fn span_with<K: OrderedKey>(
    current: Option<KeyRange<K>>,
    range: KeyRange<K>,
) -> KeyRange<K> {
    match current {
        None => range,
        Some(current) => KeyRange {
            key_min: if range.key_min.rank() < current.key_min.rank() {
                range.key_min
            } else {
                current.key_min
            },
            key_max: if current.key_max.rank() < range.key_max.rank() {
                range.key_max
            } else {
                current.key_max
            },
        },
    }
}

/// The greatest keys of `tables`.
pub open spec fn key_maxes<T: LevelTableInfo>(tables: Seq<T>) -> Seq<T::Key> {
    Seq::new(tables.len(), |i: int| tables[i].fields().key_max)
}

/// The generation after `generation`, which starts over at the end.
pub open spec fn next_generation(generation: u32) -> u32 {
    if generation == u32::MAX {
        0
    } else {
        (generation + 1) as u32
    }
}

/// The generation after `count` changes.
pub open spec fn later_generation(generation: u32, count: nat) -> u32
    decreases count,
{
    if count == 0 {
        generation
    } else {
        next_generation(later_generation(generation, (count - 1) as nat))
    }
}

/// The index where the sort key puts a table that fits is its place in the order.
proof fn lemma_sort_position<S: ManifestLevelSpec>(
    tables: Seq<S::TableInfo>,
    table: S::TableInfo,
    index: int,
)
    requires
        level_ok(tables),
        fits_level(tables, table),
        sorted(spec_ranks::<TablesSpec<S>>(tables)),
        is_upsert_index(
            spec_ranks::<TablesSpec<S>>(tables),
            S::sort_key_of(table).rank(),
            Mode::LowerBound,
            index,
        ),
    ensures
        forall|i: int|
            0 <= i < index ==> (#[trigger] tables[i]).fields().precedes(table.fields()),
        forall|i: int|
            index <= i < tables.len() ==> table.fields().precedes((#[trigger] tables[i]).fields()),
{
    let all = spec_ranks::<TablesSpec<S>>(tables);
    assert forall|i: int| 0 <= i < index implies (#[trigger] tables[i]).fields().precedes(
        table.fields(),
    ) by {
        S::sort_key_orders(tables[i], table);
        assert(all[i] == S::sort_key_of(tables[i]).rank());
    }
    assert forall|i: int| index <= i < tables.len() implies table.fields().precedes(
        (#[trigger] tables[i]).fields(),
    ) by {
        S::sort_key_orders(table, tables[i]);
        S::sort_key_orders(tables[i], table);
        assert(all[i] == S::sort_key_of(tables[i]).rank());
        assert(all[index] <= all[i]);
        // Equal ends and equal first snapshots would make the two meet.
    }
}

/// Inserting the end of a table where its key goes keeps the ends parallel to the tables.
proof fn lemma_keys_insert<S: ManifestLevelSpec>(
    keys: Seq<S::Key>,
    tables: Seq<S::TableInfo>,
    key_index: int,
    table_index: int,
    table: S::TableInfo,
)
    requires
        keys == key_maxes(tables),
        is_upsert_index(
            spec_ranks::<KeysSpec<S>>(keys),
            table.fields().key_max.rank(),
            Mode::LowerBound,
            key_index,
        ),
        sorted(spec_ranks::<KeysSpec<S>>(keys)),
        0 <= table_index <= tables.len(),
        forall|i: int|
            0 <= i < table_index ==> (#[trigger] tables[i]).fields().precedes(table.fields()),
        forall|i: int|
            table_index <= i < tables.len() ==> table.fields().precedes(
                (#[trigger] tables[i]).fields(),
            ),
    ensures
        keys.insert(key_index, table.fields().key_max) == key_maxes(
            tables.insert(table_index, table),
        ),
{
    let key = table.fields().key_max;
    let all = spec_ranks::<KeysSpec<S>>(keys);
    assert forall|i: int| 0 <= i < keys.len() implies #[trigger] all[i]
        == tables[i].fields().key_max.rank() by {}
    if key_index > table_index {
        assert(all[table_index] < key.rank());
        assert(table.fields().precedes(tables[table_index].fields()));
    }
    assert forall|i: int| key_index <= i < table_index implies #[trigger] keys[i] == key by {
        assert(tables[i].fields().precedes(table.fields()));
        assert(all[key_index] <= all[i]);
        <S::Key as OrderedKey>::rank_injective(keys[i], key);
    }
    let left = keys.insert(key_index, key);
    let right = key_maxes(tables.insert(table_index, table));
    assert forall|i: int| 0 <= i < left.len() implies left[i] == right[i] by {
        if i < key_index {
            assert(left[i] == keys[i]);
        } else if i > table_index {
            assert(left[i] == keys[i - 1]);
        } else if i == key_index {
            if i < table_index {
                assert(keys[i] == key);
            }
        } else {
            assert(left[i] == keys[i - 1]);
            if i < table_index {
                assert(keys[i] == key);
            }
        }
    }
    assert(left =~= right);
}

/// What a snapshot sees after a table is inserted.
proof fn lemma_visible_insert<T: LevelTableInfo>(
    tables: Seq<T>,
    index: int,
    table: T,
    snapshot: u64,
)
    requires
        0 <= index <= tables.len(),
    ensures
        !table.fields().visible_at(snapshot) ==> visible_tables(
            tables.insert(index, table),
            snapshot,
        ) == visible_tables(tables, snapshot),
        table.fields().visible_at(snapshot) ==> {
            let after = visible_tables(tables.insert(index, table), snapshot);
            let seen = visible_tables(tables, snapshot);
            &&& after.len() == seen.len() + 1
            &&& value_count_sum(after) == value_count_sum(seen) + table.fields().value_count
        },
        visible_tables(tables.insert(index, table), snapshot) == visible_tables(
            tables.subrange(0, index),
            snapshot,
        ) + (if table.fields().visible_at(snapshot) {
            seq![table]
        } else {
            Seq::empty()
        }) + visible_tables(tables.subrange(index, tables.len() as int), snapshot),
        visible_tables(tables, snapshot) == visible_tables(tables.subrange(0, index), snapshot)
            + visible_tables(tables.subrange(index, tables.len() as int), snapshot),
{
    let pred = |t: T| t.fields().visible_at(snapshot);
    let left = tables.subrange(0, index);
    let right = tables.subrange(index, tables.len() as int);
    assert(tables.insert(index, table) =~= left + seq![table] + right);
    assert(tables =~= left + right);
    lemma_filter_around(left, table, right, pred);
    Seq::filter_distributes_over_add(left, right, pred);
    let l = visible_tables(left, snapshot);
    let r = visible_tables(right, snapshot);
    if pred(table) {
        lemma_value_count_sum_add(l + seq![table], r);
        lemma_value_count_sum_add(l, seq![table]);
        lemma_value_count_sum_add(l, r);
        assert(seq![table].drop_last() =~= Seq::<T>::empty());
        reveal_with_fuel(value_count_sum, 2);
    } else {
        assert(l + Seq::<T>::empty() + r =~= l + r);
    }
}

/// The span of the visible tables after a visible table is inserted.
proof fn lemma_span_insert<T: LevelTableInfo>(tables: Seq<T>, index: int, table: T)
    requires
        0 <= index <= tables.len(),
        level_ok(tables.insert(index, table)),
        table.fields().visible_at(SNAPSHOT_LATEST),
    ensures
        key_span(visible_tables(tables.insert(index, table), SNAPSHOT_LATEST)) == Some(
            span_with(
                key_span(visible_tables(tables, SNAPSHOT_LATEST)),
                KeyRange { key_min: table.fields().key_min, key_max: table.fields().key_max },
            ),
        ),
{
    let s = SNAPSHOT_LATEST;
    lemma_visible_insert(tables, index, table, s);
    let after_tables = tables.insert(index, table);
    lemma_visible_tables_ok(after_tables, s);
    let after = visible_tables(after_tables, s);
    let l = visible_tables(tables.subrange(0, index), s);
    let r = visible_tables(tables.subrange(index, tables.len() as int), s);
    let seen = visible_tables(tables, s);
    assert(after == l + seq![table] + r);
    assert(seen == l + r);
    let n = l.len() as int;
    assert(after[n] == table);
    if l.len() > 0 {
        assert(after[0] == l[0] && seen[0] == l[0]);
        assert(after[0].fields().key_max.rank() < after[n].fields().key_min.rank());
        assert(after[0].fields().valid());
    } else if r.len() > 0 {
        assert(seen[0] == r[0] && after[1] == r[0]);
        assert(after[0].fields().key_max.rank() < after[1].fields().key_min.rank());
    }
    if r.len() > 0 {
        assert(after.last() == r.last() && seen.last() == r.last());
        let m = after.len() - 1;
        assert(after[n].fields().key_max.rank() < after[m].fields().key_min.rank());
        assert(after[m].fields().valid());
    } else if l.len() > 0 {
        assert(seen.last() == l.last() && after[n - 1] == l.last());
        assert(after[n - 1].fields().key_max.rank() < after[n].fields().key_min.rank());
    }
    assert(after[n].fields().valid());
}

/// Tables in a level have distinct places in the order.
proof fn lemma_place_is_unique<T: LevelTableInfo>(tables: Seq<T>, i: int, j: int)
    requires
        level_ok(tables),
        0 <= i < tables.len(),
        0 <= j < tables.len(),
        !tables[i].fields().precedes(tables[j].fields()),
        !tables[j].fields().precedes(tables[i].fields()),
    ensures
        i == j,
{
    if i < j {
        assert(tables[i].fields().precedes(tables[j].fields()));
    } else if j < i {
        assert(tables[j].fields().precedes(tables[i].fields()));
    }
}

/// What a snapshot sees after a table is removed.
proof fn lemma_visible_remove<T: LevelTableInfo>(tables: Seq<T>, index: int, snapshot: u64)
    requires
        0 <= index < tables.len(),
    ensures
        tables == tables.remove(index).insert(index, tables[index]),
{
    assert(tables =~= tables.remove(index).insert(index, tables[index]));
}

/// A level without one of its tables is a level.
proof fn lemma_level_remove<T: LevelTableInfo>(tables: Seq<T>, index: int)
    requires
        level_ok(tables),
        0 <= index < tables.len(),
    ensures
        level_ok(tables.remove(index)),
        key_maxes(tables.remove(index)) == key_maxes(tables).remove(index),
{
    let after = tables.remove(index);
    assert forall|i: int| 0 <= i < after.len() implies (#[trigger] after[i]) == tables[if i < index {
        i
    } else {
        i + 1
    }] by {}
    assert(key_maxes(after) =~= key_maxes(tables).remove(index));
}

/// A level is a level still when the life of one of its tables is cut short.
proof fn lemma_level_update<T: LevelTableInfo>(tables: Seq<T>, index: int, table: T)
    requires
        level_ok(tables),
        0 <= index < tables.len(),
        table.fields().valid(),
        table.fields() == (TableFields {
            snapshot_max: table.fields().snapshot_max,
            ..tables[index].fields()
        }),
        table.fields().snapshot_max <= tables[index].fields().snapshot_max,
    ensures
        level_ok(tables.update(index, table)),
        key_maxes(tables.update(index, table)) == key_maxes(tables),
{
    let after = tables.update(index, table);
    assert forall|i: int, j: int| 0 <= i < j < after.len() implies (
    #[trigger] after[i]).fields().precedes((#[trigger] after[j]).fields()) && (
    after[i].fields().coexists(after[j].fields()) ==> after[i].fields().key_max.rank()
        < after[j].fields().key_min.rank()) by {
        assert(tables[i].fields().precedes(tables[j].fields()));
    }
    assert(key_maxes(after) =~= key_maxes(tables));
}

/// The span of the visible tables is that of the others, but where the removed table was first or
/// last.
proof fn lemma_span_remove<T: LevelTableInfo>(tables: Seq<T>, index: int, table: T)
    requires
        0 <= index <= tables.len(),
        level_ok(tables.insert(index, table)),
        table.fields().visible_at(SNAPSHOT_LATEST),
    ensures
        ({
            let current = key_span(
                visible_tables(tables.insert(index, table), SNAPSHOT_LATEST),
            )->0;
            let seen = visible_tables(tables, SNAPSHOT_LATEST);
            &&& key_span(visible_tables(tables.insert(index, table), SNAPSHOT_LATEST)) is Some
            &&& seen.len() > 0 && current.key_max != table.fields().key_max ==> current.key_max
                == seen.last().fields().key_max
            &&& seen.len() > 0 && current.key_min != table.fields().key_min ==> current.key_min
                == seen.first().fields().key_min
        }),
{
    let s = SNAPSHOT_LATEST;
    lemma_visible_insert(tables, index, table, s);
    let after = visible_tables(tables.insert(index, table), s);
    let l = visible_tables(tables.subrange(0, index), s);
    let r = visible_tables(tables.subrange(index, tables.len() as int), s);
    let seen = visible_tables(tables, s);
    assert(after == l + seq![table] + r);
    assert(seen == l + r);
    if r.len() > 0 {
        assert(after.last() == r.last() && seen.last() == r.last());
    } else {
        assert(after.last() == table);
    }
    if l.len() > 0 {
        assert(after.first() == l.first() && seen.first() == l.first());
    } else {
        assert(after.first() == table);
    }
}

impl<S: ManifestLevelSpec> ManifestLevel<S> {
    /// The edge, in the walking direction's reverse, of the run of equal ends around `index`.
    fn iterator_start_boundary(&self, index: u32, direction: Direction) -> (result: u32)
        requires
            self.arrays_ok(),
            index < self@.len(),
        ensures
            result < self@.len(),
            match direction {
                Direction::Ascending => {
                    &&& result <= index
                    &&& forall|i: int|
                        result <= i <= index ==> #[trigger] self.keys@[i]
                            == self.keys@[index as int]
                    &&& result > 0 ==> self.keys@[result - 1] != self.keys@[index as int]
                },
                Direction::Descending => {
                    &&& index <= result
                    &&& forall|i: int|
                        index <= i <= result ==> #[trigger] self.keys@[i]
                            == self.keys@[index as int]
                    &&& result + 1 < self@.len() ==> self.keys@[result + 1]
                        != self.keys@[index as int]
                },
            },
    {
        let reversed = direction.reverse();
        let mut reverse = self.keys.iterator_from_index(index, reversed);
        let ghost whole = walk(self.keys@, index as int, reversed);
        proof {
            assert(whole[0] == self.keys@[index as int]);
        }
        let start_key = match reverse.next() {
            Some(key) => *key,
            None => {
                return index;
            },
        };
        let mut steps: u32 = 0;
        proof {
            self.keys.law_elements_are_bounded_and_sorted();
        }
        loop
            invariant_except_break
                reverse.remaining() == whole.subrange(steps + 1, whole.len() as int),
            invariant
                self.arrays_ok(),
                index < self@.len(),
                self.keys@.len() == self@.len(),
                reversed == direction.spec_reverse(),
                whole == walk(self.keys@, index as int, reversed),
                reverse.wf(),
                start_key == self.keys@[index as int],
                steps < whole.len(),
                forall|i: int| 0 <= i <= steps ==> #[trigger] whole[i] == start_key,
                whole.len() <= self@.len() <= u32::MAX,
            ensures
                steps < whole.len(),
                forall|i: int| 0 <= i <= steps ==> #[trigger] whole[i] == start_key,
                steps + 1 < whole.len() ==> whole[steps + 1] != start_key,
            decreases whole.len() - steps,
        {
            match reverse.next() {
                Some(key) => {
                    assert(*key == whole[steps + 1]);
                    if !key.key_eq(start_key) {
                        break ;
                    }
                    steps = steps + 1;
                    assert(reverse.remaining() =~= whole.subrange(
                        steps + 1,
                        whole.len() as int,
                    ));
                },
                None => {
                    break ;
                },
            }
        }
        match direction {
            Direction::Ascending => {
                proof {
                    assert forall|i: int| index - steps <= i <= index implies #[trigger]
                    self.keys@[i] == start_key by {
                        assert(whole[index - i] == self.keys@[i]);
                    }
                    if index - steps > 0 {
                        assert(whole[steps + 1] == self.keys@[index - steps - 1]);
                    }
                }
                index - steps
            },
            Direction::Descending => {
                proof {
                    assert forall|i: int| index <= i <= index + steps implies #[trigger]
                    self.keys@[i] == start_key by {
                        assert(whole[i - index] == self.keys@[i]);
                    }
                    if index + steps + 1 < self@.len() {
                        assert(whole[steps + 1] == self.keys@[index + steps + 1]);
                    }
                }
                index + steps
            },
        }
    }

    /// Where a walk over the tables that may meet a range starts, if there are any.
    fn iterator_start(&self, key_min: S::Key, key_max: S::Key, direction: Direction) -> (result:
        Option<u32>)
        requires
            self.arrays_ok(),
            key_min.rank() <= key_max.rank(),
        ensures
            match result {
                None => walked(self@, direction, Some(KeyRange { key_min, key_max })).len() == 0,
                Some(index) => index < self@.len() && walk(self@, index as int, direction)
                    == walked(self@, direction, Some(KeyRange { key_min, key_max })),
            },
    {
        proof {
            lemma_level_ends_ascend(self@);
            lemma_tables_below(self@, key_min.rank());
            lemma_tables_below(self@, key_max.rank());
        }
        if self.keys.is_empty() {
            return None;
        }
        let target_key = match direction {
            Direction::Ascending => key_min,
            Direction::Descending => key_max,
        };
        let target = self.keys.search(target_key);
        let index: u32 = self.keys.absolute_index_for_cursor(target);
        let ghost all = spec_ranks::<KeysSpec<S>>(self.keys@);
        proof {
            assert forall|i: int| 0 <= i < self@.len() implies #[trigger] all[i]
                == self@[i].fields().key_max.rank() by {}
            let n = tables_below(self@, target_key.rank());
            if index < n {
                assert(self@[index as int].fields().key_max.rank() < target_key.rank());
                assert(all[index as int] >= target_key.rank());
            } else if n < index {
                assert(all[n] < target_key.rank());
                assert(self@[n].fields().key_max.rank() >= target_key.rank());
            }
            assert(index == n);
        }
        if index == self.keys.len() {
            match direction {
                Direction::Ascending => None,
                Direction::Descending => {
                    proof {
                        let last = self@.len() - 1;
                        assert(walk(self@, last, direction) =~= walked(
                            self@,
                            direction,
                            Some(KeyRange { key_min, key_max }),
                        ));
                    }
                    Some(index - 1)
                },
            }
        } else {
            let start: u32 = self.iterator_start_boundary(index, direction);
            proof {
                match direction {
                    Direction::Ascending => {
                        if start < index {
                            assert(self.keys@[start as int] == self.keys@[index as int]);
                            assert(all[start as int] < target_key.rank());
                            assert(all[index as int] >= target_key.rank());
                        }
                    },
                    Direction::Descending => {
                        let rank = self@[index as int].fields().key_max.rank();
                        lemma_tables_below(self@, rank + 1);
                        let end = tables_below(self@, rank + 1);
                        if end < start + 1 {
                            assert(self.keys@[end] == self.keys@[index as int]);
                            assert(self@[end].fields().key_max.rank() >= rank + 1);
                        } else if start + 1 < end {
                            assert(self@[start + 1].fields().key_max.rank() < rank + 1);
                            assert(self@[index as int].fields().key_max.rank()
                                <= self@[start + 1].fields().key_max.rank());
                            <S::Key as OrderedKey>::rank_injective(
                                self.keys@[start + 1],
                                self.keys@[index as int],
                            );
                        }
                        assert(end == start + 1);
                    },
                }
                assert(walk(self@, start as int, direction) =~= walked(
                    self@,
                    direction,
                    Some(KeyRange { key_min, key_max }),
                ));
            }
            Some(start)
        }
    }

    /// Walks the tables that match `visibility` and `snapshots`, perhaps within a range of keys.
    #[must_use]
    pub fn iterator<'a>(
        &'a self,
        visibility: Visibility,
        snapshots: &'a [u64],
        direction: Direction,
        key_range: Option<KeyRange<S::Key>>,
    ) -> (result: ManifestLevelIterator<'a, S>)
        requires
            self.wf(),
            snapshots_valid(snapshots@),
            key_range matches Some(range) ==> range.key_min.rank() <= range.key_max.rank(),
        ensures
            result.wf(),
            result.remaining() == iteration(
                self@,
                visibility,
                snapshots@,
                direction,
                key_range,
            ),
    {
        self.iterator_of_arrays(visibility, snapshots, direction, key_range)
    }

    /// `iterator`, whether or not the summary of the level is up to date.
    fn iterator_of_arrays<'a>(
        &'a self,
        visibility: Visibility,
        snapshots: &'a [u64],
        direction: Direction,
        key_range: Option<KeyRange<S::Key>>,
    ) -> (result: ManifestLevelIterator<'a, S>)
        requires
            self.arrays_ok(),
            snapshots_valid(snapshots@),
            key_range matches Some(range) ==> range.key_min.rank() <= range.key_max.rank(),
        ensures
            result.wf(),
            result.remaining() == iteration(
                self@,
                visibility,
                snapshots@,
                direction,
                key_range,
            ),
    {
        let inner = match key_range {
            Some(range) => match self.iterator_start(range.key_min, range.key_max, direction) {
                Some(index) => self.tables.iterator_from_index(index, direction),
                None => {
                    let mut exhausted = self.tables.iterator_from_cursor(
                        self.tables.first(),
                        direction,
                    );
                    exhausted.stop();
                    assert(exhausted.remaining() =~= walked(self@, direction, key_range));
                    exhausted
                },
            },
            None => {
                match direction {
                    Direction::Ascending => {
                        let it = self.tables.iterator_from_index(0, direction);
                        assert(it.remaining() =~= walked(self@, direction, key_range));
                        it
                    },
                    Direction::Descending => {
                        let it = self.tables.iterator_from_cursor(self.tables.last(), direction);
                        assert(it.remaining() =~= walked(self@, direction, key_range));
                        it
                    },
                }
            },
        };
        proof {
            assert(inner.remaining() == walked(self@, direction, key_range));
            assert forall|i: int| 0 <= i < inner.remaining().len() implies (
            #[trigger] inner.remaining()[i]).fields().valid() by {
                lemma_level_ends_ascend(self@);
                lemma_walked_within(self@, direction, key_range, i);
            }
        }
        ManifestLevelIterator { inner, visibility, snapshots, direction, key_range }
    }
}

/// A walk meets only tables of the level.
proof fn lemma_walked_within<T: LevelTableInfo>(
    tables: Seq<T>,
    direction: Direction,
    key_range: Option<KeyRange<T::Key>>,
    i: int,
)
    requires
        ends_ascend(tables),
        0 <= i < walked(tables, direction, key_range).len(),
    ensures
        tables.contains(walked(tables, direction, key_range)[i]),
        exists|k: int|
            0 <= k < tables.len() && #[trigger] tables[k] == walked(tables, direction, key_range)[i],
{
    let it = walked(tables, direction, key_range);
    let n = tables.len() as int;
    let k = match key_range {
        None => match direction {
            Direction::Ascending => i,
            Direction::Descending => n - 1 - i,
        },
        Some(range) => {
            lemma_tables_below(tables, range.key_min.rank());
            lemma_tables_below(tables, range.key_max.rank());
            match direction {
                Direction::Ascending => tables_below(tables, range.key_min.rank()) + i,
                Direction::Descending => {
                    let first = tables_below(tables, range.key_max.rank());
                    if first < n {
                        lemma_tables_below(tables, tables[first].fields().key_max.rank() + 1);
                    }
                    descending_end(tables, range.key_max.rank()) - 1 - i
                },
            }
        },
    };
    assert(tables[k] == it[i]);
}

/// A walk over some of the tables of a level.
pub struct ManifestLevelIterator<'a, S: ManifestLevelSpec> {
    inner: SegmentedArrayIterator<'a, TablesSpec<S>>,
    visibility: Visibility,
    snapshots: &'a [u64],
    direction: Direction,
    key_range: Option<KeyRange<S::Key>>,
}

impl<'a, S: ManifestLevelSpec> ManifestLevelIterator<'a, S> {
    pub closed spec fn wf(&self) -> bool {
        &&& self.inner.wf()
        &&& snapshots_valid(self.snapshots@)
        &&& forall|i: int|
            0 <= i < self.inner.remaining().len() ==> (
            #[trigger] self.inner.remaining()[i]).fields().valid()
    }

    /// The tables yet to come.
    pub closed spec fn remaining(&self) -> Seq<S::TableInfo> {
        select(
            self.inner.remaining(),
            self.visibility,
            self.snapshots@,
            self.direction,
            self.key_range,
        )
    }

    /// The next table, or `None` at the end of the walk.
    pub fn next(&mut self) -> (result: Option<&'a S::TableInfo>)
        requires
            old(self).wf(),
        ensures
            final(self).wf(),
            match result {
                Some(table) => {
                    &&& old(self).remaining().len() > 0
                    &&& *table == old(self).remaining().first()
                    &&& final(self).remaining() == old(self).remaining().drop_first()
                    &&& table.fields().valid()
                },
                None => {
                    &&& old(self).remaining().len() == 0
                    &&& final(self).remaining().len() == 0
                },
            },
    {
        let ghost visibility = self.visibility;
        let ghost snapshots = self.snapshots@;
        let ghost direction = self.direction;
        let ghost key_range = self.key_range;
        let ghost all = self.remaining();
        loop
            invariant
                self.wf(),
                self.remaining() == all,
                all == old(self).remaining(),
                self.visibility == visibility,
                self.snapshots@ == snapshots,
                self.direction == direction,
                self.key_range == key_range,
            decreases self.inner.remaining().len(),
        {
            let ghost before = self.inner.remaining();
            let table = match self.inner.next() {
                Some(table) => table,
                None => {
                    return None;
                },
            };
            proof {
                assert(*table == before[0]);
                assert forall|i: int| 0 <= i < self.inner.remaining().len() implies (
                #[trigger] self.inner.remaining()[i]).fields().valid() by {
                    assert(self.inner.remaining()[i] == before[i + 1]);
                }
            }
            let ghost rest = self.remaining();
            let interesting = match self.visibility {
                Visibility::Invisible => table.invisible(self.snapshots),
                Visibility::Visible => visible_to_any::<S>(table, self.snapshots),
            };
            if !interesting {
                continue ;
            }
            assert((seq![*table] + rest).drop_first() =~= rest);
            match self.key_range {
                None => {
                    return Some(table);
                },
                Some(range) => {
                    let past_end = range.key_max.key_lt(table.key_min());
                    match self.direction {
                        Direction::Ascending => {
                            if past_end {
                                self.inner.stop();
                                return None;
                            }
                        },
                        Direction::Descending => {
                            // The walk may start at a table past the end of the range.
                            if past_end {
                                continue ;
                            }
                            if table.key_max().key_lt(range.key_min) {
                                self.inner.stop();
                                return None;
                            }
                        },
                    }
                    return Some(table);
                },
            }
        }
    }
}

/// Whether some of `snapshots` sees the table.
fn visible_to_any<S: ManifestLevelSpec>(table: &S::TableInfo, snapshots: &[u64]) -> (result: bool)
    requires
        table.fields().valid(),
        snapshots_valid(snapshots@),
    ensures
        result == visible_to(table.fields(), snapshots@),
{
    let mut i: usize = 0;
    while i < snapshots.len()
        invariant
            i <= snapshots@.len(),
            table.fields().valid(),
            snapshots_valid(snapshots@),
            forall|j: int| 0 <= j < i ==> !table.fields().visible_at(#[trigger] snapshots@[j]),
        decreases snapshots@.len() - i,
    {
        if table.visible(snapshots[i]) {
            assert(table.fields().visible_at(snapshots@[i as int]));
            return true;
        }
        i = i + 1;
    }
    false
}

impl<S: ManifestLevelSpec> ManifestLevel<S> {
    /// Brings the span of the visible tables up to date after a table of the given range went out
    /// of sight.
    fn key_range_latest_exclude(&mut self, range: KeyRange<S::Key>)
        requires
            old(self).arrays_ok(),
            old(self).key_range_latest is Some,
            ({
                let seen = visible_tables(old(self).tables@, SNAPSHOT_LATEST);
                let current = old(self).key_range_latest->0;
                &&& old(self).table_count_visible == seen.len()
                &&& old(self).value_count_visible == value_count_sum(seen)
                &&& seen.len() > 0 && current.key_max != range.key_max ==> current.key_max
                    == seen.last().fields().key_max
                &&& seen.len() > 0 && current.key_min != range.key_min ==> current.key_min
                    == seen.first().fields().key_min
            }),
        ensures
            final(self).wf(),
            final(self)@ == old(self)@,
            final(self).spec_generation() == old(self).spec_generation(),
    {
        if self.table_count_visible == 0 {
            self.key_range_latest = None;
            return ;
        }
        let ghost seen = visible_tables(self.tables@, SNAPSHOT_LATEST);
        let snapshots: [u64; 1] = [SNAPSHOT_LATEST];
        assert(snapshots@ =~= seq![SNAPSHOT_LATEST]);
        if let Some(current) = self.key_range_latest {
            let mut key_max = current.key_max;
            let mut key_min = current.key_min;
            if range.key_max.key_eq(current.key_max) {
                proof {
                    lemma_visible_iteration(
                        self.tables@.reverse(),
                        SNAPSHOT_LATEST,
                        Direction::Descending,
                    );
                    lemma_filter_reverse(
                        self.tables@,
                        |table: S::TableInfo| table.fields().visible_at(SNAPSHOT_LATEST),
                    );
                }
                let mut it = self.iterator_of_arrays(
                    Visibility::Visible,
                    &snapshots,
                    Direction::Descending,
                    None,
                );
                assert(it.remaining() == seen.reverse());
                if let Some(table) = it.next() {
                    key_max = table.key_max();
                }
            }
            if range.key_min.key_eq(current.key_min) {
                proof {
                    lemma_visible_iteration(
                        self.tables@,
                        SNAPSHOT_LATEST,
                        Direction::Ascending,
                    );
                }
                let mut it = self.iterator_of_arrays(
                    Visibility::Visible,
                    &snapshots,
                    Direction::Ascending,
                    None,
                );
                if let Some(table) = it.next() {
                    key_min = table.key_min();
                }
            }
            self.key_range_latest = Some(KeyRange { key_min, key_max });
        }
    }

    /// The place of the table that is `table` but perhaps for its `snapshot_max`.
    fn find_live(&self, table: &S::TableInfo) -> (result: Option<(u32, S::TableInfo)>)
        requires
            self.arrays_ok(),
        ensures
            match result {
                Some((index, found)) => {
                    &&& index < self@.len()
                    &&& found == self@[index as int]
                    &&& found.fields().same_table(table.fields())
                },
                None => forall|i: int|
                    0 <= i < self@.len() ==> !(#[trigger] self@[i]).fields().same_table(
                        table.fields(),
                    ),
            },
    {
        let table_sort_key = S::table_sort_key(table);
        let cursor = self.tables.search(table_sort_key);
        let index: u32 = self.tables.absolute_index_for_cursor(cursor);
        let ghost all = spec_ranks::<TablesSpec<S>>(self.tables@);
        proof {
            self.tables.law_elements_are_bounded_and_sorted();
            assert forall|i: int|
                0 <= i < self@.len() && (#[trigger] self@[i]).fields().same_table(
                    table.fields(),
                ) implies i == index by {
                S::sort_key_orders(self@[i], *table);
                S::sort_key_orders(*table, self@[i]);
                assert(all[i] == S::sort_key_of(self@[i]).rank());
                assert(index <= i);
                assert(all[index as int] <= all[i]);
                S::sort_key_orders(self@[index as int], self@[i]);
                S::sort_key_orders(self@[i], self@[index as int]);
                assert(all[index as int] == S::sort_key_of(self@[index as int]).rank());
                lemma_place_is_unique(self@, index as int, i);
            }
        }
        if index == self.tables.len() {
            return None;
        }
        let found = self.tables.element_at_cursor(cursor);
        if found.address() == table.address() && found.checksum() == table.checksum()
            && found.key_max().key_eq(table.key_max()) && found.snapshot_min()
            == table.snapshot_min() {
            Some((index, found))
        } else {
            None
        }
    }

    /// The table of the level that is `table` but perhaps for its `snapshot_max`.
    #[must_use]
    pub fn find(&self, table: &S::TableInfo) -> (result: Option<TableInfoReference<S::TableInfo>>)
        requires
            self.wf(),
        ensures
            match result {
                Some(found) => {
                    &&& self@.contains(found.table_info)
                    &&& found.table_info.fields().same_table(table.fields())
                    &&& found.generation == self.spec_generation()
                },
                None => forall|i: int|
                    0 <= i < self@.len() ==> !(#[trigger] self@[i]).fields().same_table(
                        table.fields(),
                    ),
            },
    {
        match self.find_live(table) {
            Some((_, found)) => Some(
                TableInfoReference { table_info: found, generation: self.generation },
            ),
            None => None,
        }
    }

    /// Whether the level holds exactly this table, `snapshot_max` included.
    #[must_use]
    pub fn contains(&self, table: &S::TableInfo) -> (result: bool)
        requires
            self.wf(),
        ensures
            result == self@.contains(*table),
    {
        match self.find_live(table) {
            Some((index, found)) => {
                proof {
                    if self@.contains(*table) {
                        let i = choose|i: int| 0 <= i < self@.len() && self@[i] == *table;
                        lemma_place_is_unique(self@, index as int, i);
                    }
                }
                found.equal(table)
            },
            None => {
                proof {
                    if self@.contains(*table) {
                        let i = choose|i: int| 0 <= i < self@.len() && self@[i] == *table;
                        assert(self@[i].fields().same_table(table.fields()));
                    }
                }
                false
            },
        }
    }

    /// Cuts the life of a table short: snapshots after `snapshot` do not see it.
    pub fn set_snapshot_max(&mut self, snapshot: u64, table_ref: TableInfoReference<S::TableInfo>)
        requires
            old(self).wf(),
            table_ref.generation == old(self).spec_generation(),
            old(self)@.contains(table_ref.table_info),
            table_ref.table_info.fields().snapshot_max == u64::MAX,
            table_ref.table_info.fields().snapshot_min <= snapshot < SNAPSHOT_LATEST,
        ensures
            final(self).wf(),
            final(self).spec_generation() == old(self).spec_generation(),
            final(self)@.len() == old(self)@.len(),
            forall|i: int|
                0 <= i < old(self)@.len() ==> (#[trigger] final(self)@[i]).fields() == if old(
                    self,
                )@[i] == table_ref.table_info {
                    TableFields { snapshot_max: snapshot, ..old(self)@[i].fields() }
                } else {
                    old(self)@[i].fields()
                },
    {
        let table = table_ref.table_info;
        let ghost before = self.tables@;
        let ghost place = choose|i: int| 0 <= i < before.len() && before[i] == table;
        if let Some((index, found)) = self.find_live(&table) {
            proof {
                lemma_place_is_unique(before, index as int, place);
            }
            let mut element = found;
            element.set_snapshot_max(snapshot);
            proof {
                S::sort_key_orders(element, table);
                S::sort_key_orders(table, element);
                <S::TableSortKey as OrderedKey>::rank_injective(
                    S::sort_key_of(element),
                    S::sort_key_of(table),
                );
            }
            self.tables.replace_element(index, element);
            proof {
                lemma_level_update(before, index as int, element);
                // The table as it was, and as it is now, around the tables that stay.
                let others = before.remove(index as int);
                lemma_visible_remove(before, index as int, SNAPSHOT_LATEST);
                assert(self.tables@ =~= others.insert(index as int, element));
                lemma_visible_insert(others, index as int, table, SNAPSHOT_LATEST);
                lemma_visible_insert(others, index as int, element, SNAPSHOT_LATEST);
                lemma_span_remove(others, index as int, table);
                lemma_value_count_sum_bounds(visible_tables(others, SNAPSHOT_LATEST));
                assert forall|i: int| 0 <= i < before.len() && before[i] == table implies i
                    == index by {
                    lemma_place_is_unique(before, i, index as int);
                }
            }
            self.table_count_visible = self.table_count_visible - 1;
            self.value_count_visible = self.value_count_visible - table.value_count() as u64;
            self.key_range_latest_exclude(
                KeyRange { key_min: table.key_min(), key_max: table.key_max() },
            );
        } else {
            proof {
                assert(before[place].fields().same_table(table.fields()));
            }
        }
    }

    /// Removes a table.
    pub fn remove_table(&mut self, table: &S::TableInfo)
        requires
            old(self).wf(),
            old(self)@.contains(*table),
        ensures
            final(self).wf(),
            exists|index: int|
                0 <= index < old(self)@.len() && old(self)@[index] == *table && final(self)@
                    == #[trigger] old(self)@.remove(index),
            final(self).spec_generation() == next_generation(old(self).spec_generation()),
    {
        let ghost before = self.tables@;
        let ghost place = choose|i: int| 0 <= i < before.len() && before[i] == *table;
        proof {
            assert(before[place].fields().valid());
            lemma_level_ends_ascend(before);
            lemma_tables_below(before, table.fields().key_min.rank());
        }
        let start: u32 = match self.iterator_start(
            table.key_min(),
            table.key_min(),
            Direction::Ascending,
        ) {
            Some(start) => start,
            None => 0,
        };
        proof {
            let range = KeyRange {
                key_min: table.fields().key_min,
                key_max: table.fields().key_min,
            };
            let n = tables_below(before, range.key_min.rank());
            let it = walked(before, Direction::Ascending, Some(range));
            assert(it.len() > 0);
            assert(walk(before, start as int, Direction::Ascending).len() == it.len());
            assert(start == n);
            self.tables.law_elements_are_bounded_and_sorted();
        }
        let mut index: u32 = start;
        {
            let mut tables = self.tables.iterator_from_index(start, Direction::Ascending);
            loop
                invariant_except_break
                    tables.remaining() == before.subrange(index as int, before.len() as int),
                invariant
                    before == self.tables@,
                    before.len() <= u32::MAX,
                    start <= index <= place < before.len(),
                    before[place] == *table,
                    tables.wf(),
                ensures
                    index < before.len(),
                    before[index as int] == *table,
                decreases before.len() - index,
            {
                if let Some(level_table) = tables.next() {
                    assert(*level_table == before[index as int]);
                    if level_table.equal(table) {
                        break ;
                    }
                }
                index = index + 1;
                assert(tables.remaining() =~= before.subrange(index as int, before.len() as int));
            }
        }
        self.advance_generation();
        let ghost keys_before = self.keys@;
        self.keys.remove_elements(index, 1);
        self.tables.remove_elements(index, 1);
        let ghost others = before.remove(index as int);
        proof {
            assert(self.tables@ =~= others);
            assert(self.keys@ =~= keys_before.remove(index as int));
            lemma_level_remove(before, index as int);
            lemma_visible_remove(before, index as int, SNAPSHOT_LATEST);
            lemma_visible_insert(others, index as int, *table, SNAPSHOT_LATEST);
            lemma_value_count_sum_bounds(visible_tables(others, SNAPSHOT_LATEST));
        }
        if table.visible(SNAPSHOT_LATEST) {
            proof {
                lemma_span_remove(others, index as int, *table);
            }
            self.table_count_visible = self.table_count_visible - 1;
            self.value_count_visible = self.value_count_visible - table.value_count() as u64;
            self.key_range_latest_exclude(
                KeyRange { key_min: table.key_min(), key_max: table.key_max() },
            );
        }
    }

    /// Whether the key lies in the span of the tables visible to the latest snapshot. If it does
    /// not, then none of those tables holds it.
    #[must_use]
    pub fn key_range_contains(&self, snapshot: u64, key: S::Key) -> (result: bool)
        requires
            self.wf(),
            snapshot < SNAPSHOT_LATEST,
        ensures
            result == span_contains(key_span(visible_tables(self@, SNAPSHOT_LATEST)), key),
    {
        self.key_range_latest_contains(key)
    }

    /// Whether the key lies in the span of the tables visible to the latest snapshot.
    #[must_use]
    pub fn key_range_latest_contains(&self, key: S::Key) -> (result: bool)
        requires
            self.wf(),
        ensures
            result == span_contains(key_span(visible_tables(self@, SNAPSHOT_LATEST)), key),
    {
        match self.key_range_latest {
            Some(range) => range.key_min.key_le(key) && key.key_le(range.key_max),
            None => false,
        }
    }
}

/// Whether `key` lies in a span.
pub open spec fn span_contains<K: OrderedKey>(span: Option<KeyRange<K>>, key: K) -> bool {
    match span {
        Some(range) => range.key_min.rank() <= key.rank() <= range.key_max.rank(),
        None => false,
    }
}

/// Filtering commutes with reversing.
pub proof fn lemma_filter_reverse<A>(s: Seq<A>, pred: spec_fn(A) -> bool)
    ensures
        s.reverse().filter(pred) == s.filter(pred).reverse(),
    decreases s.len(),
{
    reveal(Seq::filter);
    if s.len() > 0 {
        let rest = s.drop_last();
        let last = s.last();
        lemma_filter_reverse(rest, pred);
        assert(s.reverse() =~= seq![last] + rest.reverse());
        Seq::filter_distributes_over_add(seq![last], rest.reverse(), pred);
        lemma_filter_one(last, pred);
        if pred(last) {
            assert(s.filter(pred).reverse() =~= seq![last] + rest.filter(pred).reverse());
        } else {
            assert(Seq::<A>::empty() + rest.filter(pred).reverse()
                =~= rest.filter(pred).reverse());
        }
    } else {
        assert(s.reverse() =~= s);
        assert(s.filter(pred).reverse() =~= s.filter(pred));
    }
}

/// The tables that `snapshot` sees and that meet a range of keys.
pub open spec fn meeting_tables<T: LevelTableInfo>(
    tables: Seq<T>,
    snapshot: u64,
    key_min: int,
    key_max: int,
) -> Seq<T> {
    tables.filter(
        |table: T| table.fields().visible_at(snapshot) && table.fields().meets(key_min, key_max),
    )
}

pub proof fn lemma_filter_none<A>(s: Seq<A>, pred: spec_fn(A) -> bool)
    requires
        forall|i: int| 0 <= i < s.len() ==> !pred(#[trigger] s[i]),
    ensures
        s.filter(pred) == Seq::<A>::empty(),
    decreases s.len(),
{
    reveal(Seq::filter);
    if s.len() > 0 {
        assert forall|i: int| 0 <= i < s.drop_last().len() implies !pred(
            #[trigger] s.drop_last()[i],
        ) by {
            assert(s.drop_last()[i] == s[i]);
        }
        lemma_filter_none(s.drop_last(), pred);
        assert(s.last() == s[s.len() - 1]);
    }
}

pub proof fn lemma_filter_all<A>(s: Seq<A>, pred: spec_fn(A) -> bool)
    requires
        forall|i: int| 0 <= i < s.len() ==> pred(#[trigger] s[i]),
    ensures
        s.filter(pred) == s,
    decreases s.len(),
{
    reveal(Seq::filter);
    if s.len() > 0 {
        assert forall|i: int| 0 <= i < s.drop_last().len() implies pred(
            #[trigger] s.drop_last()[i],
        ) by {
            assert(s.drop_last()[i] == s[i]);
        }
        lemma_filter_all(s.drop_last(), pred);
        assert(s.last() == s[s.len() - 1]);
        assert(s.drop_last().push(s.last()) =~= s);
    }
}

/// Filtering by a predicate that holds on an interval cuts out the interval.
pub proof fn lemma_filter_interval<A>(s: Seq<A>, pred: spec_fn(A) -> bool, from: int, to: int)
    requires
        0 <= from <= to <= s.len(),
        forall|i: int| 0 <= i < s.len() ==> (pred(#[trigger] s[i]) <==> from <= i < to),
    ensures
        s.filter(pred) == s.subrange(from, to),
{
    let a = s.subrange(0, from);
    let b = s.subrange(from, to);
    let c = s.subrange(to, s.len() as int);
    assert(s =~= a + b + c);
    Seq::filter_distributes_over_add(a + b, c, pred);
    Seq::filter_distributes_over_add(a, b, pred);
    assert forall|i: int| 0 <= i < a.len() implies !pred(#[trigger] a[i]) by {
        assert(a[i] == s[i]);
    }
    lemma_filter_none(a, pred);
    assert forall|i: int| 0 <= i < b.len() implies pred(#[trigger] b[i]) by {
        assert(b[i] == s[from + i]);
    }
    lemma_filter_all(b, pred);
    assert forall|i: int| 0 <= i < c.len() implies !pred(#[trigger] c[i]) by {
        assert(c[i] == s[to + i]);
    }
    lemma_filter_none(c, pred);
    assert(Seq::<A>::empty() + b + Seq::<A>::empty() =~= b);
}

pub proof fn lemma_filter_twice<A>(
    s: Seq<A>,
    p: spec_fn(A) -> bool,
    q: spec_fn(A) -> bool,
    both: spec_fn(A) -> bool,
)
    requires
        forall|a: A| #[trigger] both(a) <==> p(a) && q(a),
    ensures
        s.filter(p).filter(q) == s.filter(both),
    decreases s.len(),
{
    reveal(Seq::filter);
    if s.len() > 0 {
        lemma_filter_twice(s.drop_last(), p, q, both);
        let rest = s.drop_last().filter(p);
        if p(s.last()) {
            assert(rest.push(s.last()).drop_last() =~= rest);
            assert(rest.push(s.last()).last() == s.last());
        }
        assert(both(s.last()) <==> p(s.last()) && q(s.last()));
    }
}

/// The meeting tables are those of the visible tables that meet the range.
pub proof fn lemma_meeting_of_visible<T: LevelTableInfo>(
    tables: Seq<T>,
    snapshot: u64,
    key_min: int,
    key_max: int,
)
    ensures
        visible_tables(tables, snapshot).filter(
            |table: T| table.fields().meets(key_min, key_max),
        ) == meeting_tables(tables, snapshot, key_min, key_max),
{
    lemma_filter_twice(
        tables,
        |table: T| table.fields().visible_at(snapshot),
        |table: T| table.fields().meets(key_min, key_max),
        |table: T| table.fields().visible_at(snapshot) && table.fields().meets(key_min, key_max),
    );
}

proof fn lemma_select_ascending<T: LevelTableInfo>(
    tables: Seq<T>,
    from: int,
    snapshot: u64,
    range: KeyRange<T::Key>,
)
    requires
        level_ok(tables),
        0 <= from <= tables.len(),
        forall|i: int|
            from <= i < tables.len() ==> (#[trigger] tables[i]).fields().key_max.rank()
                >= range.key_min.rank(),
    ensures
        select(
            tables.subrange(from, tables.len() as int),
            Visibility::Visible,
            seq![snapshot],
            Direction::Ascending,
            Some(range),
        ) == meeting_tables(
            tables.subrange(from, tables.len() as int),
            snapshot,
            range.key_min.rank(),
            range.key_max.rank(),
        ),
    decreases tables.len() - from,
{
    let n = tables.len() as int;
    let here = tables.subrange(from, n);
    let pred = |table: T|
        table.fields().visible_at(snapshot) && table.fields().meets(
            range.key_min.rank(),
            range.key_max.rank(),
        );
    if from == n {
        reveal(Seq::filter);
    } else {
        let first = tables[from];
        let rest = tables.subrange(from + 1, n);
        assert(here.first() == first);
        assert(here.drop_first() =~= rest);
        lemma_select_ascending(tables, from + 1, snapshot, range);
        lemma_one_snapshot(first.fields(), snapshot);
        assert(here =~= seq![first] + rest);
        Seq::filter_distributes_over_add(seq![first], rest, pred);
        lemma_filter_one(first, pred);
        assert(Seq::<T>::empty() + rest.filter(pred) =~= rest.filter(pred));
        if first.fields().visible_at(snapshot) && first.fields().key_min.rank()
            > range.key_max.rank() {
            assert forall|i: int| 0 <= i < here.len() implies !pred(#[trigger] here[i]) by {
                assert(here[i] == tables[from + i]);
                if i > 0 && here[i].fields().visible_at(snapshot) {
                    assert(tables[from].fields().coexists(tables[from + i].fields()));
                    assert(tables[from].fields().valid());
                }
            }
            lemma_filter_none(here, pred);
        }
    }
}

/// Ascending, a range yields exactly the tables that the snapshot sees and that meet the range.
pub proof fn law_ascending_iteration_is_complete<T: LevelTableInfo>(
    tables: Seq<T>,
    snapshot: u64,
    range: KeyRange<T::Key>,
)
    requires
        level_ok(tables),
    ensures
        iteration(
            tables,
            Visibility::Visible,
            seq![snapshot],
            Direction::Ascending,
            Some(range),
        ) == meeting_tables(tables, snapshot, range.key_min.rank(), range.key_max.rank()),
{
    lemma_level_ends_ascend(tables);
    lemma_tables_below(tables, range.key_min.rank());
    let n = tables_below(tables, range.key_min.rank());
    lemma_select_ascending(tables, n, snapshot, range);
    let pred = |table: T|
        table.fields().visible_at(snapshot) && table.fields().meets(
            range.key_min.rank(),
            range.key_max.rank(),
        );
    let below = tables.subrange(0, n);
    let rest = tables.subrange(n, tables.len() as int);
    assert(tables =~= below + rest);
    Seq::filter_distributes_over_add(below, rest, pred);
    assert forall|i: int| 0 <= i < below.len() implies !pred(#[trigger] below[i]) by {
        assert(below[i] == tables[i]);
    }
    lemma_filter_none(below, pred);
    assert(Seq::<T>::empty() + rest.filter(pred) =~= rest.filter(pred));
}

proof fn lemma_select_descending<T: LevelTableInfo>(
    tables: Seq<T>,
    to: int,
    visibility: Visibility,
    snapshots: Seq<u64>,
    range: KeyRange<T::Key>,
)
    requires
        ends_ascend(tables),
        0 <= to <= tables.len(),
    ensures
        select(
            tables.subrange(0, to).reverse(),
            visibility,
            snapshots,
            Direction::Descending,
            Some(range),
        ) == tables.subrange(0, to).filter(
            |table: T|
                of_interest(table.fields(), visibility, snapshots) && table.fields().meets(
                    range.key_min.rank(),
                    range.key_max.rank(),
                ),
        ).reverse(),
    decreases to,
{
    let here = tables.subrange(0, to);
    let pred = |table: T|
        of_interest(table.fields(), visibility, snapshots) && table.fields().meets(
            range.key_min.rank(),
            range.key_max.rank(),
        );
    reveal(Seq::filter);
    if to == 0 {
        assert(here.reverse() =~= Seq::<T>::empty());
        assert(here.filter(pred).reverse() =~= Seq::<T>::empty());
    } else {
        let last = tables[to - 1];
        let rest = tables.subrange(0, to - 1);
        assert(here.drop_last() =~= rest);
        assert(here.last() == last);
        assert(here.reverse().first() == last);
        assert(here.reverse().drop_first() =~= rest.reverse());
        lemma_select_descending(tables, to - 1, visibility, snapshots, range);
        assert(rest.filter(pred).push(last).reverse() =~= seq![last] + rest.filter(
            pred,
        ).reverse());
        if last.fields().key_max.rank() < range.key_min.rank() {
            assert forall|i: int| 0 <= i < here.len() implies !pred(#[trigger] here[i]) by {
                assert(here[i] == tables[i]);
                assert(tables[i].fields().key_max.rank() <= tables[to - 1].fields().key_max.rank());
            }
            lemma_filter_none(here, pred);
            assert(here.filter(pred).reverse() =~= Seq::<T>::empty());
        }
    }
}

/// Descending, a range yields every table of interest that meets the range, except those that lie
/// past the table where the walk starts.
pub proof fn law_descending_iteration_is_complete_from_its_start<T: LevelTableInfo>(
    tables: Seq<T>,
    visibility: Visibility,
    snapshots: Seq<u64>,
    range: KeyRange<T::Key>,
)
    requires
        level_ok(tables),
        forall|i: int|
            descending_end(tables, range.key_max.rank()) <= i < tables.len() ==> !(of_interest(
                (#[trigger] tables[i]).fields(),
                visibility,
                snapshots,
            ) && tables[i].fields().meets(range.key_min.rank(), range.key_max.rank())),
    ensures
        iteration(tables, visibility, snapshots, Direction::Descending, Some(range))
            == tables.filter(
            |table: T|
                of_interest(table.fields(), visibility, snapshots) && table.fields().meets(
                    range.key_min.rank(),
                    range.key_max.rank(),
                ),
        ).reverse(),
{
    lemma_level_ends_ascend(tables);
    let end = lemma_descending_end_bounds(tables, range.key_max.rank());
    lemma_select_descending(tables, end, visibility, snapshots, range);
    let pred = |table: T|
        of_interest(table.fields(), visibility, snapshots) && table.fields().meets(
            range.key_min.rank(),
            range.key_max.rank(),
        );
    let walked_part = tables.subrange(0, end);
    let past = tables.subrange(end, tables.len() as int);
    assert(tables =~= walked_part + past);
    Seq::filter_distributes_over_add(walked_part, past, pred);
    assert forall|i: int| 0 <= i < past.len() implies !pred(#[trigger] past[i]) by {
        assert(past[i] == tables[end + i]);
    }
    lemma_filter_none(past, pred);
    assert(walked_part.filter(pred) + Seq::<T>::empty() =~= walked_part.filter(pred));
}

/// What a descending iteration over a range is: the tables of interest that meet the range, last
/// first, of those up to where the walk starts.
pub proof fn lemma_descending_iteration<T: LevelTableInfo>(
    tables: Seq<T>,
    visibility: Visibility,
    snapshots: Seq<u64>,
    range: KeyRange<T::Key>,
) -> (pred: spec_fn(T) -> bool)
    requires
        level_ok(tables),
    ensures
        0 <= descending_end(tables, range.key_max.rank()) <= tables.len(),
        iteration(tables, visibility, snapshots, Direction::Descending, Some(range))
            == tables.subrange(0, descending_end(tables, range.key_max.rank())).filter(
            pred,
        ).reverse(),
        pred == (|table: T|
            of_interest(table.fields(), visibility, snapshots) && table.fields().meets(
                range.key_min.rank(),
                range.key_max.rank(),
            )),
{
    lemma_level_ends_ascend(tables);
    let end = lemma_descending_end_bounds(tables, range.key_max.rank());
    lemma_select_descending(tables, end, visibility, snapshots, range);
    |table: T|
        of_interest(table.fields(), visibility, snapshots) && table.fields().meets(
            range.key_min.rank(),
            range.key_max.rank(),
        )
}

proof fn lemma_descending_end_bounds<T: LevelTableInfo>(tables: Seq<T>, key: int) -> (end: int)
    requires
        ends_ascend(tables),
    ensures
        end == descending_end(tables, key),
        0 <= end <= tables.len(),
        forall|i: int|
            end <= i < tables.len() ==> (#[trigger] tables[i]).fields().key_max.rank() > key,
{
    lemma_tables_below(tables, key);
    let first = tables_below(tables, key);
    if first < tables.len() {
        lemma_tables_below(tables, tables[first].fields().key_max.rank() + 1);
    }
    descending_end(tables, key)
}

/// References to `tables`.
pub open spec fn references<T>(tables: Seq<T>, generation: u32) -> Seq<TableInfoReference<T>> {
    tables.map_values(|table: T| TableInfoReference { table_info: table, generation })
}

/// `range` is what `tables` have of the keys between `key_min` and `key_max`: its tables are those
/// that meet the keys, and its bounds hold both.
pub open spec fn is_overlap_range<T: LevelTableInfo>(
    range: OverlapRange<T, T::Key>,
    hits: Seq<T>,
    generation: u32,
    key_min: T::Key,
    key_max: T::Key,
) -> bool {
    &&& range.tables@ == references(hits, generation)
    &&& range.key_min == if hits.len() > 0 && hits.first().fields().key_min.rank()
        < key_min.rank() {
        hits.first().fields().key_min
    } else {
        key_min
    }
    &&& range.key_max == if hits.len() > 0 && hits.last().fields().key_max.rank()
        > key_max.rank() {
        hits.last().fields().key_max
    } else {
        key_max
    }
}

/// What to look for with `ManifestLevel::next_table`.
#[derive(Clone, Copy, Debug)]
pub struct NextTableParameters<K> {
    pub snapshot: u64,
    pub key_min: K,
    pub key_max: K,
    pub key_exclusive: Option<K>,
    pub direction: Direction,
}

impl<K: OrderedKey> NextTableParameters<K> {
    pub open spec fn valid(self) -> bool {
        &&& self.snapshot <= SNAPSHOT_LATEST
        &&& self.key_min.rank() <= self.key_max.rank()
        &&& self.key_exclusive matches Some(key) ==> self.key_min.rank() <= key.rank()
            <= self.key_max.rank()
    }

    /// The range of keys left to look at.
    pub open spec fn range(self) -> KeyRange<K> {
        match self.key_exclusive {
            None => KeyRange { key_min: self.key_min, key_max: self.key_max },
            Some(key) => match self.direction {
                Direction::Ascending => KeyRange { key_min: key, key_max: self.key_max },
                Direction::Descending => KeyRange { key_min: self.key_min, key_max: key },
            },
        }
    }

    /// Whether the table lies wholly past `key_exclusive`.
    pub open spec fn is_next(self, table: TableFields<K>) -> bool {
        match self.key_exclusive {
            None => true,
            Some(key) => match self.direction {
                Direction::Ascending => table.key_min.rank() > key.rank(),
                Direction::Descending => table.key_max.rank() < key.rank(),
            },
        }
    }

    /// The tables to look at, in order.
    pub open spec fn candidates<T: LevelTableInfo<Key = K>>(self, tables: Seq<T>) -> Seq<T> {
        iteration(
            tables,
            Visibility::Visible,
            seq![self.snapshot],
            self.direction,
            Some(self.range()),
        )
    }
}

impl<S: ManifestLevelSpec> ManifestLevel<S> {
    /// The next visible table in the range, after `key_exclusive` if there is one.
    #[must_use]
    pub fn next_table(&self, parameters: NextTableParameters<S::Key>) -> (result: Option<
        TableInfoReference<S::TableInfo>,
    >)
        requires
            self.wf(),
            parameters.valid(),
        ensures
            is_next_table(
                self@,
                parameters,
                match result {
                    Some(found) => Some(found.table_info),
                    None => None,
                },
            ),
            result matches Some(found) ==> found.generation == self.spec_generation(),
    {
        let snapshots: [u64; 1] = [parameters.snapshot];
        assert(snapshots@ =~= seq![parameters.snapshot]);
        let range = match parameters.key_exclusive {
            None => KeyRange { key_min: parameters.key_min, key_max: parameters.key_max },
            Some(key) => match parameters.direction {
                Direction::Ascending => KeyRange { key_min: key, key_max: parameters.key_max },
                Direction::Descending => KeyRange { key_min: parameters.key_min, key_max: key },
            },
        };
        let ghost candidates = parameters.candidates(self@);
        let mut it = self.iterator(
            Visibility::Visible,
            &snapshots,
            parameters.direction,
            Some(range),
        );
        let ghost mut k: int = 0;
        proof {
            assert(candidates.subrange(0, candidates.len() as int) =~= candidates);
        }
        loop
            invariant
                it.wf(),
                candidates == parameters.candidates(self@),
                0 <= k <= candidates.len(),
                it.remaining() == candidates.subrange(k, candidates.len() as int),
                forall|j: int|
                    0 <= j < k ==> !parameters.is_next((#[trigger] candidates[j]).fields()),
            decreases candidates.len() - k,
        {
            match it.next() {
                Some(table) => {
                    assert(*table == candidates[k]);
                    // The caller continues from the bound of the table it was given last, which
                    // the range still meets.
                    let next = match parameters.key_exclusive {
                        None => true,
                        Some(key) => match parameters.direction {
                            Direction::Ascending => key.key_lt(table.key_min()),
                            Direction::Descending => table.key_max().key_lt(key),
                        },
                    };
                    if next {
                        return Some(
                            TableInfoReference {
                                table_info: *table,
                                generation: self.generation,
                            },
                        );
                    }
                    proof {
                        k = k + 1;
                        assert(it.remaining() =~= candidates.subrange(k, candidates.len() as int));
                    }
                },
                None => {
                    return None;
                },
            }
        }
    }

    /// The visible tables that meet a range of keys, and the range of keys that holds both.
    ///
    /// `None` if more than `max_overlapping_tables` meet the range.
    #[must_use]
    pub fn tables_overlapping_with_key_range(
        &self,
        key_min: S::Key,
        key_max: S::Key,
        snapshot: u64,
        max_overlapping_tables: usize,
    ) -> (result: Option<OverlapRange<S::TableInfo, S::Key>>)
        requires
            self.wf(),
            max_overlapping_tables <= OVERLAP_MAX,
            snapshot <= SNAPSHOT_LATEST,
            key_min.rank() <= key_max.rank(),
            forall|i: int|
                0 <= i < meeting_tables(self@, snapshot, key_min.rank(), key_max.rank()).len() ==> (
                #[trigger] meeting_tables(
                    self@,
                    snapshot,
                    key_min.rank(),
                    key_max.rank(),
                )[i]).fields().visible_at(SNAPSHOT_LATEST),
        ensures
            ({
                let hits = meeting_tables(self@, snapshot, key_min.rank(), key_max.rank());
                match result {
                    None => hits.len() > max_overlapping_tables,
                    Some(range) => {
                        &&& hits.len() <= max_overlapping_tables
                        &&& is_overlap_range(
                            range,
                            hits,
                            self.spec_generation(),
                            key_min,
                            key_max,
                        )
                    },
                }
            }),
    {
        let ghost hits = meeting_tables(self@, snapshot, key_min.rank(), key_max.rank());
        let ghost generation = self.spec_generation();
        let snapshots: [u64; 1] = [snapshot];
        proof {
            assert(snapshots@ =~= seq![snapshot]);
            law_ascending_iteration_is_complete(self@, snapshot, KeyRange { key_min, key_max });
            lemma_meeting_of_visible(self@, snapshot, key_min.rank(), key_max.rank());
            lemma_visible_tables_ok(self@, snapshot);
            lemma_filter_disjoint(
                visible_tables(self@, snapshot),
                |table: S::TableInfo| table.fields().meets(key_min.rank(), key_max.rank()),
            );
            assert(hits.subrange(0, hits.len() as int) =~= hits);
            assert(references(hits.subrange(0, 0), generation) =~= Seq::empty());
        }
        let mut range: OverlapRange<S::TableInfo, S::Key> = OverlapRange {
            key_min,
            key_max,
            tables: BoundedArray::new(),
        };
        let mut it = self.iterator(
            Visibility::Visible,
            &snapshots,
            Direction::Ascending,
            Some(KeyRange { key_min, key_max }),
        );
        let ghost mut k: int = 0;
        loop
            invariant
                it.wf(),
                generation == self.generation,
                disjoint(hits),
                max_overlapping_tables <= OVERLAP_MAX,
                0 <= k <= hits.len(),
                k <= max_overlapping_tables,
                it.remaining() == hits.subrange(k, hits.len() as int),
                is_overlap_range(range, hits.subrange(0, k), generation, key_min, key_max),
                hits == meeting_tables(self@, snapshot, key_min.rank(), key_max.rank()),
                generation == self.spec_generation(),
            decreases hits.len() - k,
        {
            match it.next() {
                Some(table) => {
                    proof {
                        assert(*table == hits[k]);
                        assert(hits.subrange(0, k).len() == k);
                        if k > 0 {
                            assert(hits.subrange(0, k).first() == hits[0]);
                            assert(hits.subrange(0, k).last() == hits[k - 1]);
                            assert(hits[k - 1].fields().key_max.rank()
                                < hits[k].fields().key_min.rank());
                            assert(hits[0].fields().key_max.rank()
                                < hits[k].fields().key_min.rank());
                            assert(hits[0].fields().valid());
                        }
                        assert(hits[k].fields().valid());
                        assert(hits.subrange(0, k + 1).first() == hits[0]);
                        assert(hits.subrange(0, k + 1).last() == hits[k]);
                    }
                    if table.key_min().key_lt(range.key_min) {
                        range.key_min = table.key_min();
                    }
                    if range.key_max.key_lt(table.key_max()) {
                        range.key_max = table.key_max();
                    }
                    if range.tables.count() < max_overlapping_tables {
                        range.tables.push(
                            TableInfoReference { table_info: *table, generation: self.generation },
                        );
                    } else {
                        return None;
                    }
                    proof {
                        assert(references(hits.subrange(0, k + 1), generation) =~= references(
                            hits.subrange(0, k),
                            generation,
                        ).push(TableInfoReference { table_info: *table, generation }));
                        k = k + 1;
                        assert(it.remaining() =~= hits.subrange(k, hits.len() as int));
                    }
                },
                None => {
                    assert(hits.subrange(0, k) =~= hits);
                    return Some(range);
                },
            }
        }
    }
}

/// Filtering keeps tables disjoint.
proof fn lemma_filter_disjoint<T: LevelTableInfo>(tables: Seq<T>, pred: spec_fn(T) -> bool)
    requires
        disjoint(tables),
    ensures
        disjoint(tables.filter(pred)),
        forall|i: int|
            0 <= i < tables.filter(pred).len() ==> tables.contains(
                #[trigger] tables.filter(pred)[i],
            ),
    decreases tables.len(),
{
    reveal(Seq::filter);
    if tables.len() > 0 {
        let rest = tables.drop_last();
        assert forall|i: int| 0 <= i < rest.len() implies rest[i] == tables[i] by {}
        lemma_filter_disjoint(rest, pred);
        let kept = rest.filter(pred);
        let after = tables.filter(pred);
        assert(tables.last() == tables[tables.len() - 1]);
        assert forall|i: int| 0 <= i < kept.len() implies tables.contains(
            #[trigger] kept[i],
        ) && kept[i].fields().key_max.rank() < tables.last().fields().key_min.rank() by {
            let k = choose|k: int| 0 <= k < rest.len() && rest[k] == kept[i];
            assert(tables[k] == kept[i]);
        }
        if pred(tables.last()) {
            assert(after == kept.push(tables.last()));
            assert forall|i: int| 0 <= i < after.len() implies tables.contains(
                #[trigger] after[i],
            ) by {
                if i < kept.len() {
                    assert(after[i] == kept[i]);
                } else {
                    assert(after[i] == tables[tables.len() - 1]);
                }
            }
        }
    }
}

/// How many of `others` meet the keys of `table`.
pub open spec fn overlap_count<T: LevelTableInfo>(others: Seq<T>, table: T) -> nat {
    others.filter(
        |other: T|
            other.fields().meets(
                table.fields().key_min.rank(),
                table.fields().key_max.rank(),
            ),
    ).len()
}

/// `tables[k]` meets the fewest of `others`, and is the first to meet so few.
pub open spec fn has_least_overlap<T: LevelTableInfo>(
    tables: Seq<T>,
    others: Seq<T>,
    k: int,
) -> bool {
    &&& 0 <= k < tables.len()
    &&& forall|i: int|
        0 <= i < tables.len() ==> overlap_count(others, tables[k]) <= overlap_count(
            others,
            #[trigger] tables[i],
        )
    &&& forall|i: int|
        0 <= i < k ==> overlap_count(others, tables[k]) < overlap_count(
            others,
            #[trigger] tables[i],
        )
}

/// Where the tables that end below a table end, and where those that start past it start, the
/// tables between are those that meet it.
pub proof fn lemma_overlap_between<T: LevelTableInfo>(
    others: Seq<T>,
    table: T,
    lower: int,
    upper: int,
)
    requires
        disjoint(others),
        table.fields().valid(),
        0 <= lower <= others.len(),
        0 <= upper <= others.len(),
        forall|j: int|
            0 <= j < lower ==> (#[trigger] others[j]).fields().key_max.rank()
                < table.fields().key_min.rank(),
        lower < others.len() ==> others[lower].fields().key_max.rank()
            >= table.fields().key_min.rank(),
        forall|j: int|
            0 <= j < upper ==> (#[trigger] others[j]).fields().key_min.rank()
                <= table.fields().key_max.rank(),
        upper < others.len() ==> others[upper].fields().key_min.rank()
            > table.fields().key_max.rank(),
    ensures
        lower <= upper,
        overlap_count(others, table) == upper - lower,
{
    if upper < lower {
        assert(others[upper].fields().key_max.rank() < table.fields().key_min.rank());
        assert(others[upper].fields().valid());
    }
    let pred = |other: T|
        other.fields().meets(table.fields().key_min.rank(), table.fields().key_max.rank());
    assert forall|i: int| 0 <= i < others.len() implies (pred(#[trigger] others[i]) <==> lower <= i
        < upper) by {
        assert(others[i].fields().valid());
        if i > lower {
            assert(others[lower].fields().key_max.rank() < others[i].fields().key_min.rank());
        }
        if i > upper {
            assert(others[upper].fields().key_max.rank() < others[i].fields().key_min.rank());
            assert(others[upper].fields().valid());
        }
    }
    lemma_filter_interval(others, pred, lower, upper);
}

impl<S: ManifestLevelSpec> ManifestLevel<S> {
    /// The table of this level that meets the fewest tables of `level_b`, and those tables.
    ///
    /// Of several such tables it is the first. The two levels are swept side by side: as the
    /// tables of this level ascend, so do the two bounds of what they meet in the other.
    #[verifier::rlimit(60)]
    #[must_use]
    pub fn table_with_least_overlap(
        &self,
        level_b: &Self,
        snapshot: u64,
        max_overlapping_tables: usize,
    ) -> (result: LeastOverlapTable<S::TableInfo, S::Key>)
        requires
            self.wf(),
            level_b.wf(),
            max_overlapping_tables <= OVERLAP_MAX,
            snapshot <= SNAPSHOT_LATEST,
            ({
                let tables = visible_tables(self@, snapshot);
                let others = visible_tables(level_b@, snapshot);
                &&& exists|i: int|
                    0 <= i < tables.len() && overlap_count(others, #[trigger] tables[i])
                        <= max_overlapping_tables
                &&& tables.len() == visible_tables(self@, SNAPSHOT_LATEST).len() || exists|i: int|
                    0 <= i < tables.len() && overlap_count(others, #[trigger] tables[i]) == 0
                &&& forall|k: int, i: int|
                    #![trigger tables[k], others[i]]
                    has_least_overlap(tables, others, k) && 0 <= i < others.len()
                        && others[i].fields().meets(
                        tables[k].fields().key_min.rank(),
                        tables[k].fields().key_max.rank(),
                    ) ==> others[i].fields().visible_at(SNAPSHOT_LATEST)
            }),
        ensures
            ({
                let tables = visible_tables(self@, snapshot);
                let others = visible_tables(level_b@, snapshot);
                let table = result.table.table_info;
                &&& result.table.generation == self.spec_generation()
                &&& exists|k: int|
                    #![trigger tables[k]]
                    has_least_overlap(tables, others, k) && table == tables[k]
                &&& is_overlap_range(
                    result.range,
                    meeting_tables(
                        level_b@,
                        snapshot,
                        table.fields().key_min.rank(),
                        table.fields().key_max.rank(),
                    ),
                    level_b.spec_generation(),
                    table.fields().key_min,
                    table.fields().key_max,
                )
                &&& result.range.tables@.len() <= max_overlapping_tables
            }),
    {
        let ghost tables = visible_tables(self@, snapshot);
        let ghost others = visible_tables(level_b@, snapshot);
        let snapshots: [u64; 1] = [snapshot];
        proof {
            assert(snapshots@ =~= seq![snapshot]);
            lemma_visible_iteration(self@, snapshot, Direction::Ascending);
            lemma_visible_iteration(level_b@, snapshot, Direction::Ascending);
            lemma_visible_tables_ok(self@, snapshot);
            lemma_visible_tables_ok(level_b@, snapshot);
            level_b.tables.law_elements_are_bounded_and_sorted();
            assert(tables.subrange(0, tables.len() as int) =~= tables);
        }
        let mut a_iterator = self.iterator(
            Visibility::Visible,
            &snapshots,
            Direction::Ascending,
            None,
        );
        let mut b_lower_iterator = level_b.iterator(
            Visibility::Visible,
            &snapshots,
            Direction::Ascending,
            None,
        );
        let mut b_upper_iterator = level_b.iterator(
            Visibility::Visible,
            &snapshots,
            Direction::Ascending,
            None,
        );
        // Tables of the other level that end before a table starts.
        let mut b_lower_count: usize = 0;
        // Tables of the other level that start before a table ends.
        let mut b_upper_count: usize = 0;
        let mut b_lower = b_lower_iterator.next();
        let mut b_upper = b_upper_iterator.next();
        let mut optimal_table: Option<S::TableInfo> = None;
        let mut optimal_overlap: usize = max_overlapping_tables + 1;
        let ghost mut i: int = 0;
        let ghost mut optimal_index: int = 0;
        proof {
            assert(b_lower_iterator.remaining() =~= rest_after(others, 0));
        }
        loop
            invariant_except_break
                a_iterator.remaining() == tables.subrange(i, tables.len() as int),
            invariant
                0 <= i <= tables.len(),
                a_iterator.wf(),
                b_lower_iterator.wf(),
                b_upper_iterator.wf(),
                disjoint(tables),
                disjoint(others),
                others.len() <= u32::MAX,
                b_lower_count <= others.len(),
                b_upper_count <= others.len(),
                is_current(others, b_lower_count as int, b_lower),
                is_current(others, b_upper_count as int, b_upper),
                b_lower_iterator.remaining() == rest_after(others, b_lower_count as int),
                b_upper_iterator.remaining() == rest_after(others, b_upper_count as int),
                i > 0 ==> forall|j: int|
                    0 <= j < b_lower_count ==> (#[trigger] others[j]).fields().key_max.rank()
                        < tables[i - 1].fields().key_min.rank(),
                i > 0 ==> forall|j: int|
                    0 <= j < b_upper_count ==> (#[trigger] others[j]).fields().key_min.rank()
                        <= tables[i - 1].fields().key_max.rank(),
                i == 0 ==> b_lower_count == 0 && b_upper_count == 0,
                optimal_overlap <= max_overlapping_tables + 1 <= OVERLAP_MAX + 1,
                optimal_table is None ==> optimal_overlap == max_overlapping_tables + 1,
                optimal_table matches Some(table) ==> {
                    &&& 0 <= optimal_index < i
                    &&& table == tables[optimal_index]
                    &&& optimal_overlap == overlap_count(others, table)
                    &&& optimal_overlap <= max_overlapping_tables
                },
                forall|j: int|
                    0 <= j < i ==> optimal_overlap <= overlap_count(others, #[trigger] tables[j])
                        || overlap_count(others, tables[j]) > max_overlapping_tables,
                optimal_table is Some ==> forall|j: int|
                    0 <= j < optimal_index ==> optimal_overlap < overlap_count(
                        others,
                        #[trigger] tables[j],
                    ),
            ensures
                i == tables.len() || (optimal_table is Some && optimal_overlap == 0),
            decreases tables.len() - i,
        {
            let a_table = match a_iterator.next() {
                Some(table) => table,
                None => {
                    break ;
                },
            };
            proof {
                assert(*a_table == tables[i]);
                assert(tables[i].fields().valid());
                assert(a_iterator.remaining() =~= tables.subrange(i + 1, tables.len() as int));
                if i > 0 {
                    assert(tables[i - 1].fields().key_max.rank()
                        < tables[i].fields().key_min.rank());
                    assert(tables[i - 1].fields().valid());
                }
            }
            let a_key_min = a_table.key_min();
            let a_key_max = a_table.key_max();
            loop
                invariant_except_break
                    true,
                invariant
                    b_lower_iterator.wf(),
                    others.len() <= u32::MAX,
                    b_lower_count <= others.len(),
                    is_current(others, b_lower_count as int, b_lower),
                    b_lower_iterator.remaining() == rest_after(others, b_lower_count as int),
                    forall|j: int|
                        0 <= j < b_lower_count ==> (#[trigger] others[j]).fields().key_max.rank()
                            < a_key_min.rank(),
                ensures
                    b_lower_count < others.len() ==> others[b_lower_count as int].fields().key_max.rank()
                        >= a_key_min.rank(),
                decreases others.len() - b_lower_count,
            {
                match b_lower {
                    Some(lower) => {
                        if a_key_min.key_le(lower.key_max()) {
                            break ;
                        }
                        b_lower_count = b_lower_count + 1;
                        b_lower = b_lower_iterator.next();
                        proof {
                            lemma_current_advances(others, b_lower_count as int);
                        }
                    },
                    None => {
                        break ;
                    },
                }
            }
            loop
                invariant_except_break
                    true,
                invariant
                    b_upper_iterator.wf(),
                    others.len() <= u32::MAX,
                    b_upper_count <= others.len(),
                    is_current(others, b_upper_count as int, b_upper),
                    b_upper_iterator.remaining() == rest_after(others, b_upper_count as int),
                    forall|j: int|
                        0 <= j < b_upper_count ==> (#[trigger] others[j]).fields().key_min.rank()
                            <= a_key_max.rank(),
                ensures
                    b_upper_count < others.len() ==> others[b_upper_count as int].fields().key_min.rank()
                        > a_key_max.rank(),
                decreases others.len() - b_upper_count,
            {
                match b_upper {
                    Some(upper) => {
                        if a_key_max.key_lt(upper.key_min()) {
                            break ;
                        }
                        b_upper_count = b_upper_count + 1;
                        b_upper = b_upper_iterator.next();
                        proof {
                            lemma_current_advances(others, b_upper_count as int);
                        }
                    },
                    None => {
                        break ;
                    },
                }
            }
            proof {
                lemma_overlap_between(
                    others,
                    *a_table,
                    b_lower_count as int,
                    b_upper_count as int,
                );
                i = i + 1;
            }
            let overlap: usize = b_upper_count - b_lower_count;
            if overlap > max_overlapping_tables {
                continue ;
            }
            if overlap < optimal_overlap {
                optimal_table = Some(*a_table);
                optimal_overlap = overlap;
                proof {
                    optimal_index = i - 1;
                }
            }
            // Nothing does better than no overlap.
            if optimal_overlap == 0 {
                break ;
            }
        }
        proof {
            let candidate = choose|c: int|
                0 <= c < tables.len() && overlap_count(others, #[trigger] tables[c])
                    <= max_overlapping_tables;
            assert(optimal_table is Some);
            assert(has_least_overlap(tables, others, optimal_index));
        }
        let table = optimal_table.unwrap();
        proof {
            lemma_meeting_of_visible(
                level_b@,
                snapshot,
                table.fields().key_min.rank(),
                table.fields().key_max.rank(),
            );
            lemma_filter_disjoint(
                others,
                |other: S::TableInfo|
                    other.fields().meets(
                        table.fields().key_min.rank(),
                        table.fields().key_max.rank(),
                    ),
            );
            assert(tables[optimal_index].fields().valid());
            let hits = meeting_tables(
                level_b@,
                snapshot,
                table.fields().key_min.rank(),
                table.fields().key_max.rank(),
            );
            assert forall|j: int| 0 <= j < hits.len() implies (
            #[trigger] hits[j]).fields().visible_at(SNAPSHOT_LATEST) by {
                assert(others.contains(hits[j]));
            }
        }
        let range = level_b.tables_overlapping_with_key_range(
            table.key_min(),
            table.key_max(),
            snapshot,
            max_overlapping_tables,
        );
        LeastOverlapTable {
            table: TableInfoReference { table_info: table, generation: self.generation },
            range: range.unwrap(),
        }
    }
}

/// What follows the element at `index`, if there is one.
spec fn rest_after<T>(s: Seq<T>, index: int) -> Seq<T> {
    if index < s.len() {
        s.subrange(index + 1, s.len() as int)
    } else {
        Seq::empty()
    }
}

/// `current` is the element at `index`, if there is one.
spec fn is_current<T>(s: Seq<T>, index: int, current: Option<&T>) -> bool {
    match current {
        Some(element) => index < s.len() && *element == s[index],
        None => index >= s.len(),
    }
}

proof fn lemma_current_advances<T>(s: Seq<T>, index: int)
    requires
        0 < index <= s.len(),
    ensures
        rest_after(s, index - 1).len() > 0 <==> index < s.len(),
        index < s.len() ==> rest_after(s, index - 1).first() == s[index],
        index < s.len() ==> rest_after(s, index - 1).drop_first() == rest_after(s, index),
        index == s.len() ==> rest_after(s, index - 1) == rest_after(s, index),
{
    if index < s.len() {
        assert(rest_after(s, index - 1).drop_first() =~= rest_after(s, index));
    } else {
        assert(rest_after(s, index - 1) =~= rest_after(s, index));
    }
}

/// `result` is the first of the candidates that lies past `key_exclusive`, or `None` if none does.
pub open spec fn is_next_table<T: LevelTableInfo>(
    tables: Seq<T>,
    parameters: NextTableParameters<T::Key>,
    result: Option<T>,
) -> bool {
    let candidates = parameters.candidates(tables);
    match result {
        Some(table) => exists|k: int|
            0 <= k < candidates.len() && table == #[trigger] candidates[k] && parameters.is_next(
                candidates[k].fields(),
            ) && forall|j: int|
                0 <= j < k ==> !parameters.is_next((#[trigger] candidates[j]).fields()),
        None => forall|j: int|
            0 <= j < candidates.len() ==> !parameters.is_next((#[trigger] candidates[j]).fields()),
    }
}

/// A leading part of a level is a level.
proof fn lemma_level_prefix<T: LevelTableInfo>(tables: Seq<T>, end: int)
    requires
        level_ok(tables),
        0 <= end <= tables.len(),
    ensures
        level_ok(tables.subrange(0, end)),
{
    let part = tables.subrange(0, end);
    assert forall|i: int| 0 <= i < part.len() implies part[i] == tables[i] by {}
}

/// Every element that passes a filter is kept.
pub proof fn lemma_filter_keeps<A>(s: Seq<A>, pred: spec_fn(A) -> bool, i: int)
    requires
        0 <= i < s.len(),
        pred(s[i]),
    ensures
        s.filter(pred).contains(s[i]),
{
    broadcast use vstd::seq_lib::group_filter_ensures;

    assert(s.filter(pred).contains(s[i]));
}

/// Ascending past `key_exclusive`, the next table is the first visible one that starts after it.
pub proof fn law_next_table_ascending<T: LevelTableInfo>(
    tables: Seq<T>,
    parameters: NextTableParameters<T::Key>,
    result: Option<T>,
    key: T::Key,
    next: int,
)
    requires
        level_ok(tables),
        parameters.valid(),
        parameters.direction == Direction::Ascending,
        parameters.key_exclusive == Some(key),
        is_next_table(tables, parameters, result),
        ({
            let seen = visible_tables(tables, parameters.snapshot);
            &&& 0 <= next <= seen.len()
            &&& forall|i: int|
                0 <= i < next ==> (#[trigger] seen[i]).fields().key_min.rank() <= key.rank()
            &&& forall|i: int|
                next <= i < seen.len() ==> key.rank() < (#[trigger] seen[i]).fields().key_min.rank()
                    <= parameters.key_max.rank()
        }),
    ensures
        ({
            let seen = visible_tables(tables, parameters.snapshot);
            result == if next < seen.len() {
                Some(seen[next])
            } else {
                None
            }
        }),
{
    let snapshot = parameters.snapshot;
    let range = parameters.range();
    let seen = visible_tables(tables, snapshot);
    let c = parameters.candidates(tables);
    law_ascending_iteration_is_complete(tables, snapshot, range);
    lemma_meeting_of_visible(tables, snapshot, range.key_min.rank(), range.key_max.rank());
    lemma_visible_tables_ok(tables, snapshot);
    let meets = |table: T| table.fields().meets(range.key_min.rank(), range.key_max.rank());
    lemma_filter_disjoint(seen, meets);
    assert(c == seen.filter(meets));
    if next < seen.len() {
        assert(seen[next].fields().valid());
        assert(meets(seen[next]));
        lemma_filter_keeps(seen, meets, next);
        let at = choose|at: int| 0 <= at < c.len() && c[at] == seen[next];
        assert(parameters.is_next(c[at].fields()));
        let found = choose|k: int|
            0 <= k < c.len() && result->0 == #[trigger] c[k] && parameters.is_next(c[k].fields())
                && forall|j: int| 0 <= j < k ==> !parameters.is_next((#[trigger] c[j]).fields());
        assert(found <= at);
        assert(seen.contains(c[found]));
        let i = choose|i: int| 0 <= i < seen.len() && seen[i] == c[found];
        assert(next <= i);
        if found < at {
            assert(c[found].fields().key_max.rank() < c[at].fields().key_min.rank());
            if next < i {
                assert(seen[next].fields().key_max.rank() < seen[i].fields().key_min.rank());
                assert(seen[i].fields().valid());
            }
            assert(seen[next].fields().valid());
        }
    } else if result is Some {
        let found = choose|k: int|
            0 <= k < c.len() && result->0 == #[trigger] c[k] && parameters.is_next(c[k].fields())
                && forall|j: int| 0 <= j < k ==> !parameters.is_next((#[trigger] c[j]).fields());
        assert(seen.contains(c[found]));
        let i = choose|i: int| 0 <= i < seen.len() && seen[i] == c[found];
        assert(seen[i].fields().key_min.rank() <= key.rank());
    }
}

/// Descending past `key_exclusive`, the next table is the last visible one that ends before it.
pub proof fn law_next_table_descending<T: LevelTableInfo>(
    tables: Seq<T>,
    parameters: NextTableParameters<T::Key>,
    result: Option<T>,
    key: T::Key,
    below: int,
)
    requires
        level_ok(tables),
        parameters.valid(),
        parameters.direction == Direction::Descending,
        parameters.key_exclusive == Some(key),
        is_next_table(tables, parameters, result),
        ({
            let seen = visible_tables(tables, parameters.snapshot);
            &&& 0 <= below <= seen.len()
            &&& forall|i: int|
                0 <= i < below ==> parameters.key_min.rank() <= (
                #[trigger] seen[i]).fields().key_max.rank() < key.rank()
            &&& forall|i: int|
                below <= i < seen.len() ==> key.rank() <= (
                #[trigger] seen[i]).fields().key_max.rank()
        }),
    ensures
        ({
            let seen = visible_tables(tables, parameters.snapshot);
            result == if below > 0 {
                Some(seen[below - 1])
            } else {
                None
            }
        }),
{
    let snapshot = parameters.snapshot;
    let range = parameters.range();
    let seen = visible_tables(tables, snapshot);
    let c = parameters.candidates(tables);
    lemma_visible_tables_ok(tables, snapshot);
    lemma_level_ends_ascend(tables);
    let end = lemma_descending_end_bounds(tables, range.key_max.rank());
    lemma_select_descending(tables, end, Visibility::Visible, seq![snapshot], range);
    let part = tables.subrange(0, end);
    lemma_level_prefix(tables, end);
    lemma_visible_tables_ok(part, snapshot);
    lemma_meeting_of_visible(part, snapshot, range.key_min.rank(), range.key_max.rank());
    let meets = |table: T| table.fields().meets(range.key_min.rank(), range.key_max.rank());
    let pred = |table: T|
        of_interest(table.fields(), Visibility::Visible, seq![snapshot]) && table.fields().meets(
            range.key_min.rank(),
            range.key_max.rank(),
        );
    let both = |table: T|
        table.fields().visible_at(snapshot) && table.fields().meets(
            range.key_min.rank(),
            range.key_max.rank(),
        );
    assert forall|table: T| #[trigger] pred(table) == both(table) by {
        lemma_one_snapshot(table.fields(), snapshot);
    }
    assert(pred =~= both);
    let part_seen = visible_tables(part, snapshot);
    lemma_filter_disjoint(part_seen, meets);
    let kept = part_seen.filter(meets);
    assert(c == kept.reverse());
    assert forall|j: int| 0 <= j < c.len() implies seen.contains(#[trigger] c[j]) by {
        let m = c.len() - 1 - j;
        assert(c[j] == kept[m]);
        assert(part_seen.contains(kept[m]));
        let a = choose|a: int| 0 <= a < part_seen.len() && part_seen[a] == kept[m];
        assert(part.contains(part_seen[a]));
        let b = choose|b: int| 0 <= b < part.len() && part[b] == part_seen[a];
        assert(tables[b] == c[j]);
        assert(tables[b].fields().visible_at(snapshot));
    }
    if below > 0 {
        let wanted = seen[below - 1];
        assert(wanted.fields().valid());
        assert(tables.contains(wanted));
        let b = choose|b: int| 0 <= b < tables.len() && tables[b] == wanted;
        assert(b < end);
        assert(part[b] == wanted);
        assert(both(part[b]));
        lemma_filter_keeps(part, both, b);
        assert(kept.contains(wanted));
        let m = choose|m: int| 0 <= m < kept.len() && kept[m] == wanted;
        let at = kept.len() - 1 - m;
        assert(c[at] == wanted);
        assert(parameters.is_next(c[at].fields()));
        let found = choose|k: int|
            0 <= k < c.len() && result->0 == #[trigger] c[k] && parameters.is_next(c[k].fields())
                && forall|j: int| 0 <= j < k ==> !parameters.is_next((#[trigger] c[j]).fields());
        assert(found <= at);
        assert(seen.contains(c[found]));
        let i = choose|i: int| 0 <= i < seen.len() && seen[i] == c[found];
        assert(i < below);
        if found < at {
            assert(c[found] == kept[kept.len() - 1 - found]);
            assert(kept[m].fields().key_max.rank() < kept[kept.len() - 1
                - found].fields().key_min.rank());
            if i < below - 1 {
                assert(seen[i].fields().key_max.rank() < seen[below - 1].fields().key_min.rank());
                assert(seen[i].fields().valid());
            }
            assert(seen[below - 1].fields().valid());
        }
    } else if result is Some {
        let found = choose|k: int|
            0 <= k < c.len() && result->0 == #[trigger] c[k] && parameters.is_next(c[k].fields())
                && forall|j: int| 0 <= j < k ==> !parameters.is_next((#[trigger] c[j]).fields());
        assert(seen.contains(c[found]));
        let i = choose|i: int| 0 <= i < seen.len() && seen[i] == c[found];
        assert(key.rank() <= seen[i].fields().key_max.rank());
    }
}

/// A snapshot sees the tables that were there when it was taken: from `snapshot_min` to
/// `snapshot_max`, both of them with it.
pub proof fn law_snapshots_see_tables<T: LevelTableInfo>(tables: Seq<T>, snapshot: u64)
    ensures
        visible_tables(tables, snapshot) == tables.filter(
            |table: T|
                table.fields().snapshot_min <= snapshot && snapshot <= table.fields().snapshot_max,
        ),
{
    let a = |table: T| table.fields().visible_at(snapshot);
    let b = |table: T|
        table.fields().snapshot_min <= snapshot && snapshot <= table.fields().snapshot_max;
    assert(a =~= b);
}

/// The tables that meet a range are those that a snapshot sees and that neither end below it nor
/// start past it.
pub proof fn law_meeting_tables_share_keys<T: LevelTableInfo>(
    tables: Seq<T>,
    snapshot: u64,
    key_min: int,
    key_max: int,
)
    ensures
        meeting_tables(tables, snapshot, key_min, key_max) == tables.filter(
            |table: T|
                {
                    &&& table.fields().snapshot_min <= snapshot <= table.fields().snapshot_max
                    &&& !(table.fields().key_max.rank() < key_min)
                    &&& !(table.fields().key_min.rank() > key_max)
                },
        ),
{
    let a = |table: T|
        table.fields().visible_at(snapshot) && table.fields().meets(key_min, key_max);
    let b = |table: T|
        {
            &&& table.fields().snapshot_min <= snapshot <= table.fields().snapshot_max
            &&& !(table.fields().key_max.rank() < key_min)
            &&& !(table.fields().key_min.rank() > key_max)
        };
    assert(a =~= b);
}

/// The table with the least overlap shares keys with the fewest tables, and of several such tables
/// it is the first.
pub proof fn law_least_overlap_is_the_least<T: LevelTableInfo>(
    tables: Seq<T>,
    others: Seq<T>,
    k: int,
    i: int,
)
    requires
        has_least_overlap(tables, others, k),
        0 <= i < tables.len(),
    ensures
        0 <= k < tables.len(),
        ({
            let least = others.filter(
                |other: T|
                    tables[k].fields().key_min.rank() <= other.fields().key_max.rank()
                        && other.fields().key_min.rank() <= tables[k].fields().key_max.rank(),
            ).len();
            let count = others.filter(
                |other: T|
                    tables[i].fields().key_min.rank() <= other.fields().key_max.rank()
                        && other.fields().key_min.rank() <= tables[i].fields().key_max.rank(),
            ).len();
            least < count || (least == count && k <= i)
        }),
{
    assert(overlap_count(others, tables[k]) <= overlap_count(others, tables[i]));
    if i < k {
        assert(overlap_count(others, tables[k]) < overlap_count(others, tables[i]));
    }
    let least = |other: T|
        tables[k].fields().key_min.rank() <= other.fields().key_max.rank()
            && other.fields().key_min.rank() <= tables[k].fields().key_max.rank();
    let count = |other: T|
        tables[i].fields().key_min.rank() <= other.fields().key_max.rank()
            && other.fields().key_min.rank() <= tables[i].fields().key_max.rank();
    let meets_k = |other: T|
        other.fields().meets(tables[k].fields().key_min.rank(), tables[k].fields().key_max.rank());
    let meets_i = |other: T|
        other.fields().meets(tables[i].fields().key_min.rank(), tables[i].fields().key_max.rank());
    assert(least =~= meets_k);
    assert(count =~= meets_i);
}

/// A generation counts the changes, and starts over after 2^32 of them.
pub proof fn law_generations_count_changes(generation: u32, count: nat)
    ensures
        later_generation(generation, count) == (generation + count) % 0x1_0000_0000,
    decreases count,
{
    if count > 0 {
        law_generations_count_changes(generation, (count - 1) as nat);
    }
}

/// The values of tables are summed up, each once.
pub proof fn law_values_are_summed_up<T: LevelTableInfo>(tables: Seq<T>, table: T)
    ensures
        value_count_sum(Seq::<T>::empty()) == 0,
        value_count_sum(tables.push(table)) == value_count_sum(tables)
            + table.fields().value_count,
{
    assert(tables.push(table).drop_last() =~= tables);
}

/// Without a range, an iteration gives the tables of interest in the order of the level, or in the
/// reverse of it.
pub proof fn law_iteration_has_a_direction<T: LevelTableInfo>(tables: Seq<T>, snapshot: u64)
    ensures
        ({
            let seen = tables.filter(
                |table: T|
                    table.fields().snapshot_min <= snapshot <= table.fields().snapshot_max,
            );
            let snapshots = seq![snapshot];
            &&& iteration(tables, Visibility::Visible, snapshots, Direction::Ascending, None)
                == seen
            &&& iteration(tables, Visibility::Visible, snapshots, Direction::Descending, None)
                == seen.reverse()
        }),
{
    let a = |table: T| table.fields().visible_at(snapshot);
    let b = |table: T| table.fields().snapshot_min <= snapshot <= table.fields().snapshot_max;
    assert(a =~= b);
    lemma_visible_iteration(tables, snapshot, Direction::Ascending);
    lemma_visible_iteration(tables.reverse(), snapshot, Direction::Descending);
    lemma_filter_reverse(tables, a);
}

/// The range of a merge holds the keys it was asked for and those of its tables, and no others.
pub proof fn law_overlap_range_holds_its_tables<T: LevelTableInfo>(
    range: OverlapRange<T, T::Key>,
    hits: Seq<T>,
    generation: u32,
    key_min: T::Key,
    key_max: T::Key,
)
    requires
        is_overlap_range(range, hits, generation, key_min, key_max),
        disjoint(hits),
    ensures
        range.tables@.len() == hits.len(),
        forall|i: int|
            0 <= i < hits.len() ==> {
                &&& (#[trigger] range.tables@[i]).table_info == hits[i]
                &&& range.tables@[i].generation == generation
                &&& range.key_min.rank() <= hits[i].fields().key_min.rank()
                &&& hits[i].fields().key_max.rank() <= range.key_max.rank()
            },
        range.key_min.rank() <= key_min.rank(),
        key_max.rank() <= range.key_max.rank(),
        range.key_min == key_min || (hits.len() > 0 && range.key_min == hits[0].fields().key_min),
        range.key_max == key_max || (hits.len() > 0 && range.key_max == hits[hits.len()
            - 1].fields().key_max),
{
    assert forall|i: int| 0 <= i < hits.len() implies {
        &&& (#[trigger] range.tables@[i]).table_info == hits[i]
        &&& range.tables@[i].generation == generation
        &&& range.key_min.rank() <= hits[i].fields().key_min.rank()
        &&& hits[i].fields().key_max.rank() <= range.key_max.rank()
    } by {
        assert(hits[i].fields().valid());
        assert(hits[0].fields().valid());
        assert(hits[hits.len() - 1].fields().valid());
        if i > 0 {
            assert(hits[0].fields().key_max.rank() < hits[i].fields().key_min.rank());
        }
        if i < hits.len() - 1 {
            assert(hits[i].fields().key_max.rank() < hits[hits.len() - 1].fields().key_min.rank());
        }
    }
}

} // verus!
