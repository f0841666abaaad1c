//! The manifest of a tree: which tables there are on each level.
//!
//! Every change is appended to a manifest log, from which the manifest is rebuilt after a crash.

use crate::bytes::{
    array_at, law_le_bytes_round_trip, le_bytes, le_value, lemma_byte_spans, lemma_le_bytes_len,
    push_le, push_zeroes, zeroes,
};
use crate::composite_key::U256;
use crate::constants::{LSM_GROWTH_FACTOR, LSM_LEVELS, LSM_TABLE_COALESCING_THRESHOLD_PERCENT};
use crate::direction::Direction;
use crate::key::OrderedKey;
use crate::manifest_level::{
    descending_end, disjoint, fits_level, has_least_overlap, invisible_to, is_next_table,
    is_overlap_range, iteration, key_span, later_generation, law_ascending_iteration_is_complete,
    law_iteration_without_range, law_next_table_ascending, law_next_table_descending,
    lemma_descending_iteration, lemma_filter_all, lemma_filter_around, lemma_filter_interval,
    lemma_filter_keeps, lemma_filter_twice, lemma_meeting_of_visible, lemma_overlap_between,
    lemma_tables_below, lemma_value_count_sum_add, lemma_value_count_sum_bounds,
    lemma_visible_tables_ok, level_ok, meeting_tables, next_generation, of_interest,
    overlap_count, references, snapshots_valid, span_contains, span_with, tables_below,
    value_count_sum, visible_tables, KeyMaxSnapshotMin, KeyRange, LevelTableInfo, ManifestLevel,
    ManifestLevelSpec, NextTableParameters, OverlapRange, TableFields, TableInfoReference,
    Visibility, OVERLAP_MAX,
};
use crate::schema::manifest_node::{Event, Label, TableInfo as WireTableInfo};
use crate::schema::{le_u128_at, le_u64_at};
use crate::tree::{
    lemma_level_fits, table_count_max_for_level, TreeConfig, SNAPSHOT_LATEST, TABLE_COUNT_MAX,
};
use vstd::arithmetic::power::pow;
use vstd::prelude::*;

verus! {

/// A key that a manifest can store.
pub trait TableKey: OrderedKey {
    /// How many keys fit a node of a manifest level.
    const KEYS_NODE_CAPACITY: usize;

    /// How many tables with such keys fit a node of a manifest level.
    const TABLES_NODE_CAPACITY: usize;

    /// The capacities suit a level.
    proof fn capacities_valid()
        ensures
            2 <= Self::KEYS_NODE_CAPACITY < TABLE_COUNT_MAX,
            Self::KEYS_NODE_CAPACITY % 2 == 0,
            2 <= Self::TABLES_NODE_CAPACITY < TABLE_COUNT_MAX,
            Self::TABLES_NODE_CAPACITY % 2 == 0,
    ;

    /// The key on disk.
    spec fn spec_to_bytes(self) -> Seq<u8>;

    /// Distinct keys differ on disk.
    proof fn bytes_injective(a: Self, b: Self)
        requires
            a.spec_to_bytes() == b.spec_to_bytes(),
        ensures
            a == b,
    ;

    /// The greatest key.
    fn max_key() -> (result: Self)
        ensures
            forall|key: Self| #[trigger] key.rank() <= result.rank(),
    ;

    /// The least key.
    fn zero_key() -> (result: Self)
        ensures
            forall|key: Self| result.rank() <= #[trigger] key.rank(),
    ;

    /// Encodes the key.
    fn to_bytes(self) -> (result: [u8; 32])
        ensures
            result@ == self.spec_to_bytes(),
    ;

    /// Decodes a key that `to_bytes` encoded.
    fn from_bytes(bytes: &[u8; 32]) -> (result: Self)
        requires
            exists|key: Self| #[trigger] key.spec_to_bytes() == bytes@,
        ensures
            result.spec_to_bytes() == bytes@,
    ;
}

/// `bytes` are a key on disk.
pub open spec fn encodes_a_key<K: TableKey>(bytes: Seq<u8>) -> bool {
    exists|key: K| #[trigger] key.spec_to_bytes() == bytes
}

/// Pads a value that occupies `width` bytes to a whole key.
fn padded_key(value: u128, width: usize) -> (result: [u8; 32])
    requires
        width <= 16,
    ensures
        result@ == le_bytes(value as nat, width as nat) + zeroes((32 - width) as nat),
{
    let mut bytes: Vec<u8> = Vec::new();
    push_le(&mut bytes, value, width);
    push_zeroes(&mut bytes, 32 - width);
    proof {
        lemma_le_bytes_len(value as nat, width as nat);
        assert(bytes@ =~= le_bytes(value as nat, width as nat) + zeroes((32 - width) as nat));
        assert(bytes@.subrange(0, 32) =~= bytes@);
    }
    array_at::<32>(bytes.as_slice(), 0)
}

impl TableKey for u64 {
    const KEYS_NODE_CAPACITY: usize = 2048;

    const TABLES_NODE_CAPACITY: usize = 256;

    proof fn capacities_valid() {
    }

    open spec fn spec_to_bytes(self) -> Seq<u8> {
        le_bytes(self as nat, 8) + zeroes(24)
    }

    proof fn bytes_injective(a: Self, b: Self) {
        lemma_byte_spans();
        law_le_bytes_round_trip(a as nat, 8);
        law_le_bytes_round_trip(b as nat, 8);
        assert(a.spec_to_bytes().subrange(0, 8) =~= le_bytes(a as nat, 8));
        assert(b.spec_to_bytes().subrange(0, 8) =~= le_bytes(b as nat, 8));
    }

    fn max_key() -> (result: Self) {
        u64::MAX
    }

    fn zero_key() -> (result: Self) {
        0
    }

    fn to_bytes(self) -> (result: [u8; 32]) {
        padded_key(self as u128, 8)
    }

    fn from_bytes(bytes: &[u8; 32]) -> (result: Self) {
        proof {
            let key = choose|key: u64| #[trigger] key.spec_to_bytes() == bytes@;
            lemma_byte_spans();
            law_le_bytes_round_trip(key as nat, 8);
            assert(bytes@.subrange(0, 8) =~= le_bytes(key as nat, 8));
        }
        le_u64_at(bytes.as_slice(), 0)
    }
}

impl TableKey for u128 {
    const KEYS_NODE_CAPACITY: usize = 1024;

    const TABLES_NODE_CAPACITY: usize = 204;

    proof fn capacities_valid() {
    }

    open spec fn spec_to_bytes(self) -> Seq<u8> {
        le_bytes(self as nat, 16) + zeroes(16)
    }

    proof fn bytes_injective(a: Self, b: Self) {
        lemma_byte_spans();
        law_le_bytes_round_trip(a as nat, 16);
        law_le_bytes_round_trip(b as nat, 16);
        assert(a.spec_to_bytes().subrange(0, 16) =~= le_bytes(a as nat, 16));
        assert(b.spec_to_bytes().subrange(0, 16) =~= le_bytes(b as nat, 16));
    }

    fn max_key() -> (result: Self) {
        u128::MAX
    }

    fn zero_key() -> (result: Self) {
        0
    }

    fn to_bytes(self) -> (result: [u8; 32]) {
        padded_key(self, 16)
    }

    fn from_bytes(bytes: &[u8; 32]) -> (result: Self) {
        proof {
            let key = choose|key: u128| #[trigger] key.spec_to_bytes() == bytes@;
            lemma_byte_spans();
            law_le_bytes_round_trip(key as nat, 16);
            assert(bytes@.subrange(0, 16) =~= le_bytes(key as nat, 16));
        }
        le_u128_at(bytes.as_slice(), 0)
    }
}

impl TableKey for U256 {
    const KEYS_NODE_CAPACITY: usize = 512;

    const TABLES_NODE_CAPACITY: usize = 146;

    proof fn capacities_valid() {
    }

    open spec fn spec_to_bytes(self) -> Seq<u8> {
        le_bytes(self.spec_hi() as nat, 16) + le_bytes(self.spec_lo() as nat, 8) + zeroes(8)
    }

    proof fn bytes_injective(a: Self, b: Self) {
        lemma_wide_key_bytes(a);
        lemma_wide_key_bytes(b);
        U256::lemma_parts_determine(a, b);
    }

    fn max_key() -> (result: Self) {
        U256::from_parts(u128::MAX, u64::MAX)
    }

    fn zero_key() -> (result: Self) {
        U256::from_parts(0, 0)
    }

    fn to_bytes(self) -> (result: [u8; 32]) {
        let mut bytes: Vec<u8> = Vec::new();
        push_le(&mut bytes, self.hi(), 16);
        push_le(&mut bytes, self.low_word() as u128, 8);
        push_zeroes(&mut bytes, 8);
        proof {
            lemma_wide_key_bytes(self);
            assert(bytes@ =~= self.spec_to_bytes());
            assert(bytes@.subrange(0, 32) =~= bytes@);
        }
        array_at::<32>(bytes.as_slice(), 0)
    }

    fn from_bytes(bytes: &[u8; 32]) -> (result: Self) {
        proof {
            let key = choose|key: U256| #[trigger] key.spec_to_bytes() == bytes@;
            lemma_wide_key_bytes(key);
        }
        let bytes = bytes.as_slice();
        U256::from_parts(le_u128_at(bytes, 0), le_u64_at(bytes, 16))
    }
}

/// Where the parts of a wide key lie on disk.
proof fn lemma_wide_key_bytes(key: U256)
    ensures
        key.spec_to_bytes().len() == 32,
        le_value(key.spec_to_bytes().subrange(0, 16)) == key.spec_hi(),
        le_value(key.spec_to_bytes().subrange(16, 24)) == key.spec_lo(),
{
    lemma_byte_spans();
    law_le_bytes_round_trip(key.spec_hi() as nat, 16);
    law_le_bytes_round_trip(key.spec_lo() as nat, 8);
    let w = key.spec_to_bytes();
    assert(w.subrange(0, 16) =~= le_bytes(key.spec_hi() as nat, 16));
    assert(w.subrange(16, 24) =~= le_bytes(key.spec_lo() as nat, 8));
}

/// Where changes to the manifest are recorded.
pub trait ManifestLog {
    /// Whether entries may be appended.
    open spec fn opened(&self) -> bool {
        arbitrary()
    }

    /// The entries appended so far.
    open spec fn entries(&self) -> Seq<WireTableInfo> {
        arbitrary()
    }

    fn is_opened(&self) -> (result: bool)
        ensures
            result == self.opened(),
    ;

    fn append(&mut self, entry: &WireTableInfo)
        requires
            old(self).opened(),
        ensures
            final(self).opened(),
            final(self).entries() == old(self).entries().push(*entry),
    ;
}

/// The metadata of a table in memory.
#[derive(Clone, Copy, Debug, PartialEq, Eq)]
pub struct TreeTableInfo<K> {
    pub checksum: u128,
    pub address: u64,
    pub snapshot_min: u64,
    pub snapshot_max: u64,
    pub key_min: K,
    pub key_max: K,
    pub value_count: u32,
}

impl<K: TableKey> Default for TreeTableInfo<K> {
    fn default() -> (result: Self)
        ensures
            result.checksum == 0,
            result.address == 0,
            result.snapshot_min == 0,
            result.snapshot_max == u64::MAX,
            forall|key: K| result.key_min.rank() <= #[trigger] key.rank(),
            result.key_max == result.key_min,
            result.value_count == 0,
    {
        let zero = K::zero_key();
        TreeTableInfo {
            checksum: 0,
            address: 0,
            snapshot_min: 0,
            snapshot_max: u64::MAX,
            key_min: zero,
            key_max: zero,
            value_count: 0,
        }
    }
}

/// `entry` records `event` for the table on a level of a tree.
pub open spec fn records<K: TableKey>(
    entry: WireTableInfo,
    table: TreeTableInfo<K>,
    tree_id: u16,
    level: u8,
    event: Event,
) -> bool {
    &&& entry.checksum == table.checksum
    &&& entry.address == table.address
    &&& entry.snapshot_min == table.snapshot_min
    &&& entry.snapshot_max == table.snapshot_max
    &&& entry.key_min@ == table.key_min.spec_to_bytes()
    &&& entry.key_max@ == table.key_max.spec_to_bytes()
    &&& entry.value_count == table.value_count
    &&& entry.tree_id == tree_id
    &&& entry.label == (Label { level, event })
}

impl<K: TableKey> TreeTableInfo<K> {
    /// Reads an entry of the given tree.
    #[must_use]
    pub fn decode(wire: &WireTableInfo, expected_tree_id: u16) -> (result: Self)
        requires
            expected_tree_id > 0,
            wire.tree_id == expected_tree_id,
            wire.value_count > 0,
            encodes_a_key::<K>(wire.key_min@),
            encodes_a_key::<K>(wire.key_max@),
            forall|key_min: K, key_max: K| #[trigger]
                key_min.spec_to_bytes() == wire.key_min@ && #[trigger] key_max.spec_to_bytes()
                    == wire.key_max@ ==> key_min.rank() <= key_max.rank(),
        ensures
            records(*wire, result, expected_tree_id, wire.label.level, wire.label.event),
            result.key_min.rank() <= result.key_max.rank(),
    {
        TreeTableInfo {
            checksum: wire.checksum,
            address: wire.address,
            snapshot_min: wire.snapshot_min,
            snapshot_max: wire.snapshot_max,
            key_min: K::from_bytes(&wire.key_min),
            key_max: K::from_bytes(&wire.key_max),
            value_count: wire.value_count,
        }
    }

    /// Writes an entry for the table.
    #[must_use]
    pub fn encode(&self, tree_id: u16, level: u8, event: Event) -> (result: WireTableInfo)
        requires
            tree_id > 0,
            self.value_count > 0,
        ensures
            records(result, *self, tree_id, level, event),
    {
        WireTableInfo {
            checksum: self.checksum,
            address: self.address,
            snapshot_min: self.snapshot_min,
            snapshot_max: self.snapshot_max,
            tree_id,
            key_min: self.key_min.to_bytes(),
            key_max: self.key_max.to_bytes(),
            value_count: self.value_count,
            label: Label { level, event },
        }
    }
}

/// An entry records one table only: what is decoded is what was encoded.
pub proof fn law_entries_decode_to_what_was_encoded<K: TableKey>(
    entry: WireTableInfo,
    a: TreeTableInfo<K>,
    b: TreeTableInfo<K>,
    tree_id: u16,
    level: u8,
    event: Event,
)
    requires
        records(entry, a, tree_id, level, event),
        records(entry, b, tree_id, level, event),
    ensures
        a == b,
{
    K::bytes_injective(a.key_min, b.key_min);
    K::bytes_injective(a.key_max, b.key_max);
}

impl<K: TableKey> LevelTableInfo for TreeTableInfo<K> {
    type Key = K;

    open spec fn fields(self) -> TableFields<K> {
        TableFields {
            checksum: self.checksum,
            address: self.address,
            snapshot_min: self.snapshot_min,
            snapshot_max: self.snapshot_max,
            key_min: self.key_min,
            key_max: self.key_max,
            value_count: self.value_count,
        }
    }

    proof fn fields_injective(a: Self, b: Self) {
    }

    fn checksum(&self) -> (result: u128) {
        self.checksum
    }

    fn address(&self) -> (result: u64) {
        self.address
    }

    fn snapshot_min(&self) -> (result: u64) {
        self.snapshot_min
    }

    fn snapshot_max(&self) -> (result: u64) {
        self.snapshot_max
    }

    fn set_snapshot_max(&mut self, snapshot_max: u64) {
        self.snapshot_max = snapshot_max;
    }

    fn key_min(&self) -> (result: K) {
        self.key_min
    }

    fn key_max(&self) -> (result: K) {
        self.key_max
    }

    fn value_count(&self) -> (result: u32) {
        self.value_count
    }
}

/// The levels of a manifest with keys of type `K`.
#[derive(Debug, Default)]
pub struct ManifestLevelSpecFor<K> {
    key: core::marker::PhantomData<K>,
}

impl<K: Copy> Clone for ManifestLevelSpecFor<K> {
    fn clone(&self) -> (result: Self)
        ensures
            result == *self,
    {
        *self
    }
}

impl<K: Copy> Copy for ManifestLevelSpecFor<K> {

}

impl<K: TableKey> ManifestLevelSpec for ManifestLevelSpecFor<K> {
    type Key = K;

    type TableInfo = TreeTableInfo<K>;

    const TABLE_COUNT_MAX_TREE: u32 = TABLE_COUNT_MAX;

    const KEYS_NODE_CAPACITY: usize = K::KEYS_NODE_CAPACITY;

    const TABLES_NODE_CAPACITY: usize = K::TABLES_NODE_CAPACITY;

    type TableSortKey = KeyMaxSnapshotMin<K>;

    open spec fn sort_key_of(table_info: TreeTableInfo<K>) -> KeyMaxSnapshotMin<K> {
        KeyMaxSnapshotMin { snapshot_min: table_info.snapshot_min, key_max: table_info.key_max }
    }

    proof fn sort_key_orders(a: TreeTableInfo<K>, b: TreeTableInfo<K>) {
        let x = a.key_max.rank();
        let y = b.key_max.rank();
        let span = 0x1_0000_0000_0000_0000int;
        assert(Self::sort_key_of(a).rank() == x * span + a.snapshot_min);
        assert(Self::sort_key_of(b).rank() == y * span + b.snapshot_min);
    }

    fn table_sort_key(table_info: &TreeTableInfo<K>) -> (result: KeyMaxSnapshotMin<K>) {
        KeyMaxSnapshotMin { snapshot_min: table_info.snapshot_min, key_max: table_info.key_max }
    }
}

/// The tables of a level to merge into, and the keys that the merge touches.
#[derive(Clone, Debug)]
pub struct CompactionRange<T, K> {
    pub key_min: K,
    pub key_max: K,
    pub tables: OverlapRange<T, K>,
}

/// A table to merge, and what to merge it into.
#[derive(Clone, Debug)]
pub struct CompactionTableRange<T, K> {
    pub table_a: TableInfoReference<T>,
    pub range_b: CompactionRange<T, K>,
}

/// A level of a manifest with keys of type `K`.
pub type Level<K> = ManifestLevel<ManifestLevelSpecFor<K>>;

/// The manifest of a tree.
pub struct Manifest<K: TableKey> {
    pub levels: Vec<Level<K>>,
    pub config: TreeConfig,
    /// Whether the log was attached.
    pub log_attached: bool,
    /// The highest snapshot seen so far.
    pub snapshot_max: u64,
}

impl<K: TableKey> Manifest<K> {
    pub open spec fn wf(&self) -> bool {
        &&& self.levels@.len() == LSM_LEVELS
        &&& forall|i: int| 0 <= i < LSM_LEVELS ==> (#[trigger] self.levels@[i]).wf()
    }

    /// The tables of a level.
    pub open spec fn tables(&self, level: int) -> Seq<TreeTableInfo<K>> {
        self.levels@[level]@
    }

    /// The generation of a level: references to its tables that carry it are good.
    pub open spec fn generation(&self, level: int) -> u32 {
        self.levels@[level].spec_generation()
    }

    /// `other` differs from this manifest in one level at most.
    pub open spec fn same_but_level(&self, other: &Self, level: int) -> bool {
        &&& self.config == other.config
        &&& self.snapshot_max == other.snapshot_max
        &&& self.log_attached == other.log_attached
        &&& self.levels@.len() == other.levels@.len()
        &&& forall|i: int|
            0 <= i < self.levels@.len() && i != level ==> #[trigger] self.levels@[i]
                == other.levels@[i]
    }

    /// A manifest without tables.
    #[must_use]
    pub fn new(config: TreeConfig) -> (result: Self)
        ensures
            result.wf(),
            !result.log_attached,
            result.config == config,
            result.snapshot_max == 1,
            forall|i: int|
                0 <= i < LSM_LEVELS ==> #[trigger] result.tables(i)
                    == Seq::<TreeTableInfo<K>>::empty(),
            forall|i: int| 0 <= i < LSM_LEVELS ==> #[trigger] result.generation(i) == 0,
    {
        let mut levels: Vec<Level<K>> = Vec::new();
        let mut i: u8 = 0;
        while i < LSM_LEVELS
            invariant
                i <= LSM_LEVELS,
                levels@.len() == i,
                forall|k: int|
                    0 <= k < i ==> {
                        &&& (#[trigger] levels@[k]).wf()
                        &&& levels@[k]@ == Seq::<TreeTableInfo<K>>::empty()
                        &&& levels@[k].spec_generation() == 0
                    },
            decreases LSM_LEVELS - i,
        {
            proof {
                K::capacities_valid();
                assert(Level::<K>::spec_valid());
            }
            levels.push(ManifestLevel::new());
            i = i + 1;
        }
        Manifest { levels, config, log_attached: false, snapshot_max: 1 }
    }

    /// Attaches the log, which has to happen before any change.
    pub fn open_commence<L: ManifestLog>(&mut self, log: &L)
        requires
            !old(self).log_attached,
            !log.opened(),
        ensures
            final(self).log_attached,
            final(self).levels == old(self).levels,
            final(self).config == old(self).config,
            final(self).snapshot_max == old(self).snapshot_max,
    {
        self.log_attached = true;
    }
}

/// `after` is `before` with one entry more, which records `event` for the table.
pub open spec fn logged<K: TableKey>(
    before: Seq<WireTableInfo>,
    after: Seq<WireTableInfo>,
    table: TreeTableInfo<K>,
    tree_id: u16,
    level: u8,
    event: Event,
) -> bool {
    &&& after.len() == before.len() + 1
    &&& after.drop_last() == before
    &&& records(after.last(), table, tree_id, level, event)
}

/// The keys that the tables visible to the latest snapshot span in the first `count` levels.
pub open spec fn levels_span<K: TableKey>(levels: Seq<Level<K>>, count: int) -> Option<KeyRange<K>>
    decreases count,
{
    if count <= 0 {
        None
    } else {
        let above = levels_span(levels, count - 1);
        match key_span(visible_tables(levels[count - 1]@, SNAPSHOT_LATEST)) {
            None => above,
            Some(range) => Some(span_with(above, range)),
        }
    }
}

impl<K: TableKey> Manifest<K> {
    /// Inserts a table into a level.
    pub fn insert_table<L: ManifestLog>(
        &mut self,
        log: &mut L,
        level: u8,
        table: &TreeTableInfo<K>,
    )
        requires
            old(self).wf(),
            old(self).config.id > 0,
            old(self).log_attached,
            old(log).opened(),
            level < LSM_LEVELS,
            fits_level(old(self).tables(level as int), *table),
            old(self).tables(level as int).len() < TABLE_COUNT_MAX,
            table.value_count > 0,
        ensures
            final(self).wf(),
            final(self).same_but_level(old(self), level as int),
            exists|index: int|
                0 <= index <= old(self).tables(level as int).len() && final(self).tables(
                    level as int,
                ) == #[trigger] old(self).tables(level as int).insert(index, *table),
            final(self).generation(level as int) == next_generation(
                old(self).generation(level as int),
            ),
            final(log).opened(),
            logged(
                old(log).entries(),
                final(log).entries(),
                *table,
                old(self).config.id,
                level,
                Event::Insert,
            ),
    {
        self.levels[level as usize].insert_table(table);
        let entry = table.encode(self.config.id, level, Event::Insert);
        log.append(&entry);
        assert(log.entries().drop_last() =~= old(log).entries());
    }

    /// Cuts the life of a table short: snapshots after `snapshot` do not see it.
    pub fn update_table<L: ManifestLog>(
        &mut self,
        log: &mut L,
        level: u8,
        snapshot: u64,
        table_ref: TableInfoReference<TreeTableInfo<K>>,
    )
        requires
            old(self).wf(),
            old(self).config.id > 0,
            old(self).log_attached,
            old(log).opened(),
            level < LSM_LEVELS,
            table_ref.generation == old(self).generation(level as int),
            old(self).tables(level as int).contains(table_ref.table_info),
            table_ref.table_info.snapshot_max == u64::MAX,
            table_ref.table_info.snapshot_min <= snapshot < SNAPSHOT_LATEST,
            table_ref.table_info.value_count > 0,
        ensures
            final(self).wf(),
            final(self).same_but_level(old(self), level as int),
            final(self).tables(level as int).len() == old(self).tables(level as int).len(),
            forall|i: int|
                0 <= i < old(self).tables(level as int).len() ==> #[trigger] final(self).tables(
                    level as int,
                )[i] == if old(self).tables(level as int)[i] == table_ref.table_info {
                    TreeTableInfo { snapshot_max: snapshot, ..table_ref.table_info }
                } else {
                    old(self).tables(level as int)[i]
                },
            final(self).generation(level as int) == old(self).generation(level as int),
            final(log).opened(),
            logged(
                old(log).entries(),
                final(log).entries(),
                TreeTableInfo { snapshot_max: snapshot, ..table_ref.table_info },
                old(self).config.id,
                level,
                Event::Update,
            ),
    {
        let mut table = table_ref.table_info;
        self.levels[level as usize].set_snapshot_max(snapshot, table_ref);
        table.set_snapshot_max(snapshot);
        let entry = table.encode(self.config.id, level, Event::Update);
        log.append(&entry);
        proof {
            assert(log.entries().drop_last() =~= old(log).entries());
            let before = old(self).tables(level as int);
            let after = self.tables(level as int);
            assert forall|i: int| 0 <= i < before.len() implies #[trigger] after[i] == if before[i]
                == table_ref.table_info {
                TreeTableInfo { snapshot_max: snapshot, ..table_ref.table_info }
            } else {
                before[i]
            } by {
                assert(after[i].fields() == self.levels@[level as int]@[i].fields());
            }
        }
    }

    /// Moves a table to the next level.
    ///
    /// Only the arrival is logged, so that after a crash the table turns up on the new level
    /// alone.
    pub fn move_table<L: ManifestLog>(
        &mut self,
        log: &mut L,
        level_a: u8,
        level_b: u8,
        table: &TreeTableInfo<K>,
    )
        requires
            old(self).wf(),
            old(self).config.id > 0,
            old(self).log_attached,
            old(log).opened(),
            level_b == level_a + 1,
            level_b < LSM_LEVELS,
            table.fields().visible_at(SNAPSHOT_LATEST),
            table.value_count > 0,
            old(self).tables(level_a as int).contains(*table),
            fits_level(old(self).tables(level_b as int), *table),
            old(self).tables(level_b as int).len() < TABLE_COUNT_MAX,
        ensures
            final(self).wf(),
            final(self).config == old(self).config,
            final(self).snapshot_max == old(self).snapshot_max,
            final(self).log_attached,
            forall|i: int|
                0 <= i < LSM_LEVELS && i != level_a && i != level_b
                    ==> #[trigger] final(self).levels@[i] == old(self).levels@[i],
            exists|index: int|
                {
                    &&& 0 <= index < old(self).tables(level_a as int).len()
                    &&& old(self).tables(level_a as int)[index] == *table
                    &&& final(self).tables(level_a as int) == #[trigger] old(self).tables(
                        level_a as int,
                    ).remove(index)
                },
            exists|index: int|
                0 <= index <= old(self).tables(level_b as int).len() && final(self).tables(
                    level_b as int,
                ) == #[trigger] old(self).tables(level_b as int).insert(index, *table),
            final(self).generation(level_a as int) == next_generation(
                old(self).generation(level_a as int),
            ),
            final(self).generation(level_b as int) == next_generation(
                old(self).generation(level_b as int),
            ),
            final(log).opened(),
            logged(
                old(log).entries(),
                final(log).entries(),
                *table,
                old(self).config.id,
                level_b,
                Event::Update,
            ),
    {
        self.levels[level_a as usize].remove_table(table);
        self.levels[level_b as usize].insert_table(table);
        let entry = table.encode(self.config.id, level_b, Event::Update);
        log.append(&entry);
        assert(log.entries().drop_last() =~= old(log).entries());
    }

    /// The keys that the tables visible to the latest snapshot span on all levels.
    #[must_use]
    pub fn key_range(&self) -> (result: Option<KeyRange<K>>)
        requires
            self.wf(),
            self.log_attached,
        ensures
            result == levels_span(self.levels@, LSM_LEVELS as int),
    {
        let mut manifest_range: Option<KeyRange<K>> = None;
        let mut i: usize = 0;
        while i < self.levels.len()
            invariant
                self.wf(),
                i <= self.levels@.len(),
                manifest_range == levels_span(self.levels@, i as int),
            decreases self.levels@.len() - i,
        {
            if let Some(level_range) = self.levels[i].key_range_latest() {
                let extended = match manifest_range {
                    Some(current) => KeyRange {
                        key_min: if level_range.key_min.key_lt(current.key_min) {
                            level_range.key_min
                        } else {
                            current.key_min
                        },
                        key_max: if current.key_max.key_lt(level_range.key_max) {
                            level_range.key_max
                        } else {
                            current.key_max
                        },
                    },
                    None => level_range,
                };
                manifest_range = Some(extended);
            }
            i = i + 1;
        }
        manifest_range
    }

    /// Every table visible to the latest snapshot lies within the key range of the manifest.
    pub proof fn law_key_range_holds_every_visible_table(&self, level: int, index: int)
        requires
            self.wf(),
            0 <= level < LSM_LEVELS,
            0 <= index < self.tables(level).len(),
            self.tables(level)[index].fields().visible_at(SNAPSHOT_LATEST),
        ensures
            levels_span(self.levels@, LSM_LEVELS as int) matches Some(range)
                && range.key_min.rank() <= self.tables(level)[index].key_min.rank()
                && self.tables(level)[index].key_max.rank() <= range.key_max.rank(),
    {
        self.lemma_span_holds_table(level, index, LSM_LEVELS as int);
    }

    proof fn lemma_span_holds_table(&self, level: int, index: int, count: int)
        requires
            self.wf(),
            0 <= level < count <= LSM_LEVELS,
            0 <= index < self.tables(level).len(),
            self.tables(level)[index].fields().visible_at(SNAPSHOT_LATEST),
        ensures
            levels_span(self.levels@, count) matches Some(range) && range.key_min.rank()
                <= self.tables(level)[index].key_min.rank() && self.tables(
                level,
            )[index].key_max.rank() <= range.key_max.rank(),
        decreases count,
    {
        if count - 1 > level {
            self.lemma_span_holds_table(level, index, count - 1);
        } else {
            self.levels@[level].law_tables_are_ordered_and_disjoint();
            let tables = self.tables(level);
            lemma_visible_tables_ok(tables, SNAPSHOT_LATEST);
            let seen = visible_tables(tables, SNAPSHOT_LATEST);
            assert(seen.contains(tables[index]));
            let k = choose|k: int| 0 <= k < seen.len() && seen[k] == tables[index];
            assert(seen[0].fields().valid());
            assert(seen[k].fields().valid());
            assert(seen[seen.len() - 1].fields().valid());
            if k > 0 {
                assert(seen[0].fields().key_max.rank() < seen[k].fields().key_min.rank());
            }
            if k + 1 < seen.len() {
                assert(seen[k].fields().key_max.rank() < seen[seen.len()
                    - 1].fields().key_min.rank());
            }
        }
    }

    /// The next visible table on a level in a range of keys.
    #[must_use]
    pub fn next_table_at(&self, level: u8, parameters: NextTableParameters<K>) -> (result: Option<
        TreeTableInfo<K>,
    >)
        requires
            self.wf(),
            level < LSM_LEVELS,
            parameters.valid(),
        ensures
            is_next_table(self.tables(level as int), parameters, result),
    {
        match self.levels[level as usize].next_table(parameters) {
            Some(found) => Some(found.table_info),
            None => None,
        }
    }
}

/// The invisible tables of a level within a range of keys, in the order in which they are met.
pub open spec fn doomed_tables<K: TableKey>(
    tables: Seq<TreeTableInfo<K>>,
    snapshots: Seq<u64>,
    key_min: K,
    key_max: K,
) -> Seq<TreeTableInfo<K>> {
    iteration(
        tables,
        Visibility::Invisible,
        snapshots,
        Direction::Descending,
        Some(KeyRange { key_min, key_max }),
    )
}

/// Every table has values.
pub open spec fn none_empty<K>(tables: Seq<TreeTableInfo<K>>) -> bool {
    forall|i: int| 0 <= i < tables.len() ==> (#[trigger] tables[i]).value_count > 0
}

/// `tables` without those in `gone`.
pub open spec fn without<T>(tables: Seq<T>, gone: Seq<T>) -> Seq<T> {
    tables.filter(|table: T| !gone.contains(table))
}

/// Removing one of several distinct elements leaves those that differ from it.
proof fn lemma_remove_is_filter<T>(s: Seq<T>, index: int)
    requires
        s.no_duplicates(),
        0 <= index < s.len(),
    ensures
        s.remove(index) == s.filter(|t: T| t != s[index]),
{
    let pred = |t: T| t != s[index];
    let left = s.subrange(0, index);
    let right = s.subrange(index + 1, s.len() as int);
    assert(s =~= left + seq![s[index]] + right);
    lemma_filter_around(left, s[index], right, pred);
    assert forall|i: int| 0 <= i < left.len() implies pred(#[trigger] left[i]) by {
        assert(left[i] == s[i]);
    }
    assert forall|i: int| 0 <= i < right.len() implies pred(#[trigger] right[i]) by {
        assert(right[i] == s[index + 1 + i]);
    }
    lemma_filter_all(left, pred);
    lemma_filter_all(right, pred);
    assert(s.remove(index) =~= left + Seq::<T>::empty() + right);
}

/// The tables of a level are distinct.
proof fn lemma_level_distinct<T: LevelTableInfo>(tables: Seq<T>)
    requires
        level_ok(tables),
    ensures
        tables.no_duplicates(),
{
    assert forall|i: int, j: int| 0 <= i < tables.len() && 0 <= j < tables.len() && i != j implies
        tables[i] != tables[j] by {
        if i < j {
            assert(tables[i].fields().precedes(tables[j].fields()));
        } else {
            assert(tables[j].fields().precedes(tables[i].fields()));
        }
    }
}

/// One more table is gone.
proof fn lemma_without_one_more<T: LevelTableInfo>(
    tables: Seq<T>,
    gone: Seq<T>,
    count: int,
    index: int,
)
    requires
        level_ok(tables),
        0 <= count < gone.len(),
        level_ok(without(tables, gone.subrange(0, count))),
        0 <= index < without(tables, gone.subrange(0, count)).len(),
        without(tables, gone.subrange(0, count))[index] == gone[count],
    ensures
        without(tables, gone.subrange(0, count)).remove(index) == without(
            tables,
            gone.subrange(0, count + 1),
        ),
{
    let some = gone.subrange(0, count);
    let more = gone.subrange(0, count + 1);
    let table = gone[count];
    let left = without(tables, some);
    lemma_level_distinct(left);
    lemma_remove_is_filter(left, index);
    let p = |t: T| !some.contains(t);
    let q = |t: T| t != left[index];
    let both = |t: T| !more.contains(t);
    assert forall|t: T| #[trigger] both(t) <==> p(t) && q(t) by {
        if some.contains(t) {
            let i = choose|i: int| 0 <= i < some.len() && some[i] == t;
            assert(more[i] == t);
        }
        if t == table {
            assert(more[count] == t);
        }
        if more.contains(t) {
            let i = choose|i: int| 0 <= i < more.len() && more[i] == t;
            if i < count {
                assert(some[i] == t);
            }
        }
    }
    lemma_filter_twice(tables, p, q, both);
}

/// Whether a removal takes the table: no snapshot sees it, it meets the keys, and no table that
/// ends at or past the keys ends before it does.
pub open spec fn is_taken<K: TableKey>(
    tables: Seq<TreeTableInfo<K>>,
    snapshots: Seq<u64>,
    key_min: K,
    key_max: K,
    table: TreeTableInfo<K>,
) -> bool {
    &&& !(table.snapshot_min <= 0xffff_ffff_ffff_fffe <= table.snapshot_max)
    &&& forall|i: int|
        0 <= i < snapshots.len() ==> !(table.snapshot_min <= #[trigger] snapshots[i]
            <= table.snapshot_max)
    &&& key_min.rank() <= table.key_max.rank()
    &&& table.key_min.rank() <= key_max.rank()
    &&& forall|i: int|
        0 <= i < tables.len() && key_max.rank() <= (#[trigger] tables[i]).key_max.rank()
            ==> table.key_max.rank() <= tables[i].key_max.rank()
}

proof fn lemma_filter_same<A>(s: Seq<A>, p: spec_fn(A) -> bool, q: spec_fn(A) -> bool)
    requires
        forall|i: int| 0 <= i < s.len() ==> p(#[trigger] s[i]) == q(s[i]),
    ensures
        s.filter(p) == s.filter(q),
    decreases s.len(),
{
    reveal(Seq::filter);
    if s.len() > 0 {
        assert forall|i: int| 0 <= i < s.drop_last().len() implies p(#[trigger] s.drop_last()[i])
            == q(s.drop_last()[i]) by {
            assert(s.drop_last()[i] == s[i]);
        }
        lemma_filter_same(s.drop_last(), p, q);
        assert(s.last() == s[s.len() - 1]);
    }
}

/// A removal takes only tables that no snapshot sees and that meet the keys: a table that ends
/// below `key_min` or starts past `key_max` is still there afterwards, and so is one that some
/// snapshot sees. What is left keeps its order.
pub proof fn law_removal_keeps_to_its_keys<K: TableKey>(
    tables: Seq<TreeTableInfo<K>>,
    snapshots: Seq<u64>,
    key_min: K,
    key_max: K,
)
    requires
        level_ok(tables),
    ensures
        ({
            let after = without(tables, doomed_tables(tables, snapshots, key_min, key_max));
            &&& after == tables.filter(
                |table: TreeTableInfo<K>| !is_taken(tables, snapshots, key_min, key_max, table),
            )
            &&& forall|i: int|
                0 <= i < tables.len() ==> (after.contains(#[trigger] tables[i]) <==> !is_taken(
                    tables,
                    snapshots,
                    key_min,
                    key_max,
                    tables[i],
                ))
            &&& forall|i: int|
                0 <= i < tables.len() && ((#[trigger] tables[i]).key_max.rank() < key_min.rank()
                    || tables[i].key_min.rank() > key_max.rank()) ==> after.contains(tables[i])
        }),
{
    let doomed = doomed_tables(tables, snapshots, key_min, key_max);
    let after = without(tables, doomed);
    let kept = |table: TreeTableInfo<K>| !doomed.contains(table);
    let spared = |table: TreeTableInfo<K>| !is_taken(tables, snapshots, key_min, key_max, table);
    assert forall|i: int| 0 <= i < tables.len() implies kept(#[trigger] tables[i]) == spared(
        tables[i],
    ) by {
        lemma_taken(tables, snapshots, key_min, key_max, i);
    }
    lemma_filter_same(tables, kept, spared);
    assert forall|i: int| 0 <= i < tables.len() implies (after.contains(#[trigger] tables[i])
        <==> spared(tables[i])) by {
        if spared(tables[i]) {
            lemma_filter_keeps(tables, spared, i);
        }
        if after.contains(tables[i]) {
            let k = choose|k: int| 0 <= k < after.len() && after[k] == tables[i];
            lemma_filter_within(tables, spared, k);
        }
    }
}

/// A table is among the doomed if a removal takes it.
proof fn lemma_taken<K: TableKey>(
    tables: Seq<TreeTableInfo<K>>,
    snapshots: Seq<u64>,
    key_min: K,
    key_max: K,
    index: int,
)
    requires
        level_ok(tables),
        0 <= index < tables.len(),
    ensures
        doomed_tables(tables, snapshots, key_min, key_max).contains(tables[index]) <==> is_taken(
            tables,
            snapshots,
            key_min,
            key_max,
            tables[index],
        ),
{
    lemma_level_distinct(tables);
    let table = tables[index];
    let key = key_max.rank();
    let range = KeyRange { key_min, key_max };
    let end = descending_end(tables, key);
    let pred = lemma_descending_iteration(tables, Visibility::Invisible, snapshots, range);
    let part = tables.subrange(0, end);
    let kept = part.filter(pred);
    let doomed = doomed_tables(tables, snapshots, key_min, key_max);
    assert(doomed == kept.reverse());
    assert forall|i: int, j: int| 0 <= i <= j < tables.len() implies (
    #[trigger] tables[i]).fields().key_max.rank() <= (
    #[trigger] tables[j]).fields().key_max.rank() by {
        if i < j {
            assert(tables[i].fields().precedes(tables[j].fields()));
        }
    }
    lemma_tables_below(tables, key);
    let first = tables_below(tables, key);
    if first < tables.len() {
        lemma_tables_below(tables, tables[first].fields().key_max.rank() + 1);
        assert(tables[first].fields().key_max.rank() >= key);
    }
    assert(index < end <==> forall|i: int|
        0 <= i < tables.len() && key <= (#[trigger] tables[i]).key_max.rank()
            ==> table.key_max.rank() <= tables[i].key_max.rank()) by {
        if index < end {
            assert forall|i: int|
                0 <= i < tables.len() && key <= (#[trigger] tables[i]).key_max.rank() implies
                table.key_max.rank() <= tables[i].key_max.rank() by {
                if first < tables.len() {
                    assert(tables[index].fields().key_max.rank()
                        < tables[first].fields().key_max.rank() + 1);
                    if i < first {
                        assert(tables[i].fields().key_max.rank() < key);
                    }
                    assert(tables[first].fields().key_max.rank()
                        <= tables[i].fields().key_max.rank());
                } else {
                    assert(tables[i].fields().key_max.rank() < key);
                }
            }
        } else {
            assert(first < tables.len());
            assert(tables[index].fields().key_max.rank()
                >= tables[first].fields().key_max.rank() + 1);
            assert(key <= tables[first].key_max.rank());
        }
    }
    let fields = table.fields();
    assert(invisible_to(fields, snapshots) <==> !(table.snapshot_min <= 0xffff_ffff_ffff_fffe
        <= table.snapshot_max) && forall|i: int|
        0 <= i < snapshots.len() ==> !(table.snapshot_min <= #[trigger] snapshots[i]
            <= table.snapshot_max)) by {
        if invisible_to(fields, snapshots) {
            assert forall|i: int| 0 <= i < snapshots.len() implies !(table.snapshot_min
                <= #[trigger] snapshots[i] <= table.snapshot_max) by {
                assert(!fields.visible_at(snapshots[i]));
            }
        }
    }
    if is_taken(tables, snapshots, key_min, key_max, table) {
        assert(part[index] == table);
        assert(pred(part[index]));
        lemma_filter_keeps(part, pred, index);
        let k = choose|k: int| 0 <= k < kept.len() && kept[k] == table;
        assert(doomed[kept.len() - 1 - k] == table);
    }
    if doomed.contains(table) {
        let m = choose|m: int| 0 <= m < doomed.len() && doomed[m] == table;
        let k = kept.len() - 1 - m;
        assert(kept[k] == table);
        lemma_filter_within(part, pred, k);
        let j = choose|j: int| 0 <= j < part.len() && part[j] == kept[k];
        assert(tables[j] == tables[index]);
    }
}

impl<K: TableKey> Manifest<K> {
    /// Removes the tables of a level that neither the latest snapshot nor any of `snapshots` sees,
    /// within a range of keys.
    #[verifier::rlimit(30)]
    pub fn remove_invisible_tables<L: ManifestLog>(
        &mut self,
        log: &mut L,
        level: u8,
        snapshots: &[u64],
        key_min: K,
        key_max: K,
    )
        requires
            old(self).wf(),
            old(self).log_attached,
            old(log).opened(),
            level < LSM_LEVELS,
            key_min.rank() <= key_max.rank(),
            snapshots_valid(snapshots@),
            none_empty(
                doomed_tables(old(self).tables(level as int), snapshots@, key_min, key_max),
            ),
            doomed_tables(old(self).tables(level as int), snapshots@, key_min, key_max).len() > 0
                ==> old(self).config.id > 0,
        ensures
            final(self).wf(),
            final(self).same_but_level(old(self), level as int),
            ({
                let doomed = doomed_tables(
                    old(self).tables(level as int),
                    snapshots@,
                    key_min,
                    key_max,
                );
                let before = old(log).entries();
                let after = final(log).entries();
                &&& final(self).tables(level as int) == without(
                    old(self).tables(level as int),
                    doomed,
                )
                &&& final(self).generation(level as int) == later_generation(
                    old(self).generation(level as int),
                    doomed.len(),
                )
                &&& after.len() == before.len() + doomed.len()
                &&& after.subrange(0, before.len() as int) == before
                &&& forall|i: int|
                    0 <= i < doomed.len() ==> records(
                        #[trigger] after[before.len() + i],
                        doomed[i],
                        old(self).config.id,
                        level,
                        Event::Remove,
                    )
            }),
            forall|i: int|
                0 <= i < old(self).tables(level as int).len() && ((
                #[trigger] old(self).tables(level as int)[i]).key_max.rank() < key_min.rank()
                    || old(self).tables(level as int)[i].key_min.rank() > key_max.rank())
                    ==> final(self).tables(level as int).contains(
                    old(self).tables(level as int)[i],
                ),
            final(log).opened(),
    {
        let ghost tables = self.tables(level as int);
        let ghost doomed = doomed_tables(tables, snapshots@, key_min, key_max);
        let ghost before = log.entries();
        proof {
            self.levels@[level as int].law_tables_are_ordered_and_disjoint();
            law_removal_keeps_to_its_keys(tables, snapshots@, key_min, key_max);
        }
        let mut to_remove: Vec<TreeTableInfo<K>> = Vec::new();
        {
            let mut it = self.levels[level as usize].iterator(
                Visibility::Invisible,
                snapshots,
                Direction::Descending,
                Some(KeyRange { key_min, key_max }),
            );
            loop
                invariant
                    it.wf(),
                    to_remove@ + it.remaining() == doomed,
                ensures
                    to_remove@ == doomed,
                decreases it.remaining().len(),
            {
                let ghost collected = to_remove@;
                let ghost rest = it.remaining();
                match it.next() {
                    Some(table) => {
                        to_remove.push(*table);
                        assert(to_remove@ + it.remaining() =~= collected + rest);
                    },
                    None => {
                        assert(to_remove@ =~= doomed);
                        break ;
                    },
                }
            }
        }
        proof {
            lemma_level_distinct(tables);
            lemma_doomed_within(tables, snapshots@, key_min, key_max);
            assert(without(tables, doomed.subrange(0, 0)) == tables) by {
                lemma_filter_all(tables, |t: TreeTableInfo<K>| !doomed.subrange(0, 0).contains(t));
            }
        }
        let mut i: usize = 0;
        while i < to_remove.len()
            invariant
                to_remove@ == doomed,
                i <= doomed.len(),
                level < LSM_LEVELS,
                self.wf(),
                self.same_but_level(old(self), level as int),
                log.opened(),
                level_ok(tables),
                doomed.no_duplicates(),
                forall|k: int|
                    0 <= k < doomed.len() ==> tables.contains(#[trigger] doomed[k]),
                none_empty(doomed),
                doomed.len() > 0 ==> self.config.id > 0,
                self.tables(level as int) == without(tables, doomed.subrange(0, i as int)),
                self.generation(level as int) == later_generation(
                    old(self).generation(level as int),
                    i as nat,
                ),
                log.entries().len() == before.len() + i,
                log.entries().subrange(0, before.len() as int) == before,
                forall|k: int|
                    0 <= k < i ==> records(
                        #[trigger] log.entries()[before.len() + k],
                        doomed[k],
                        old(self).config.id,
                        level,
                        Event::Remove,
                    ),
            decreases doomed.len() - i,
        {
            let table = to_remove[i];
            let ghost current = self.tables(level as int);
            proof {
                self.levels@[level as int].law_tables_are_ordered_and_disjoint();
                assert(tables.contains(doomed[i as int]));
                let k = choose|k: int| 0 <= k < tables.len() && tables[k] == doomed[i as int];
                let some = doomed.subrange(0, i as int);
                let pred = |t: TreeTableInfo<K>| !some.contains(t);
                if some.contains(table) {
                    let j = choose|j: int| 0 <= j < some.len() && some[j] == table;
                    assert(doomed[j] == doomed[i as int]);
                }
                assert(pred(tables[k]));
                lemma_filter_keeps(tables, pred, k);
                assert(current.contains(table));
            }
            let ghost entries = log.entries();
            let entry = table.encode(self.config.id, level, Event::Remove);
            log.append(&entry);
            self.levels[level as usize].remove_table(&table);
            proof {
                let after = self.tables(level as int);
                let index = choose|index: int|
                    0 <= index < current.len() && current[index] == table && after
                        == #[trigger] current.remove(index);
                lemma_without_one_more(tables, doomed, i as int, index);
                assert(log.entries().subrange(0, before.len() as int) =~= entries.subrange(
                    0,
                    before.len() as int,
                ));
                assert forall|k: int| 0 <= k < i + 1 implies records(
                    #[trigger] log.entries()[before.len() + k],
                    doomed[k],
                    old(self).config.id,
                    level,
                    Event::Remove,
                ) by {
                    if k < i {
                        assert(log.entries()[before.len() + k] == entries[before.len() + k]);
                    }
                }
            }
            i = i + 1;
        }
        assert(doomed.subrange(0, i as int) =~= doomed);
    }

    /// Whether tombstones can be dropped when tables are merged into `level_b`: no table of the
    /// levels below meets the range, so there is nothing left for a tombstone to hide.
    #[must_use]
    pub fn compaction_must_drop_tombstones(
        &self,
        level_b: u8,
        range: &CompactionRange<TreeTableInfo<K>, K>,
    ) -> (result: bool)
        requires
            self.wf(),
            level_b < LSM_LEVELS,
            range.key_min.rank() <= range.key_max.rank(),
        ensures
            result == forall|level: int, i: int|
                level_b < level < LSM_LEVELS && 0 <= i < self.tables(level).len() ==> !((
                #[trigger] self.tables(level)[i]).fields().visible_at(SNAPSHOT_LATEST)
                    && self.tables(level)[i].fields().meets(
                    range.key_min.rank(),
                    range.key_max.rank(),
                )),
    {
        let mut level_c: u8 = level_b + 1;
        while level_c < LSM_LEVELS
            invariant
                self.wf(),
                level_b < level_c <= LSM_LEVELS,
                range.key_min.rank() <= range.key_max.rank(),
                forall|level: int, i: int|
                    level_b < level < level_c && 0 <= i < self.tables(level).len() ==> !((
                    #[trigger] self.tables(level)[i]).fields().visible_at(SNAPSHOT_LATEST)
                        && self.tables(level)[i].fields().meets(
                        range.key_min.rank(),
                        range.key_max.rank(),
                    )),
            decreases LSM_LEVELS - level_c,
        {
            let parameters = NextTableParameters {
                snapshot: SNAPSHOT_LATEST,
                direction: Direction::Ascending,
                key_min: range.key_min,
                key_max: range.key_max,
                key_exclusive: None,
            };
            let next = self.levels[level_c as usize].next_table(parameters);
            proof {
                let tables = self.tables(level_c as int);
                self.levels@[level_c as int].law_tables_are_ordered_and_disjoint();
                law_ascending_iteration_is_complete(tables, SNAPSHOT_LATEST, parameters.range());
                let pred = |t: TreeTableInfo<K>|
                    t.fields().visible_at(SNAPSHOT_LATEST) && t.fields().meets(
                        range.key_min.rank(),
                        range.key_max.rank(),
                    );
                let hits = parameters.candidates(tables);
                assert(hits == tables.filter(pred));
                if next is Some {
                    lemma_filter_within(tables, pred, 0);
                    let k = choose|k: int| 0 <= k < tables.len() && tables[k] == hits[0];
                    assert(self.tables(level_c as int)[k] == hits[0]);
                } else {
                    assert forall|i: int| 0 <= i < tables.len() implies !pred(
                        #[trigger] tables[i],
                    ) by {
                        if pred(tables[i]) {
                            lemma_filter_keeps(tables, pred, i);
                            assert(parameters.is_next(hits[0].fields()));
                        }
                    }
                }
            }
            if next.is_some() {
                return false;
            }
            level_c = level_c + 1;
        }
        true
    }
}

/// What passes a filter was there before.
proof fn lemma_filter_within<A>(s: Seq<A>, pred: spec_fn(A) -> bool, i: int)
    requires
        0 <= i < s.filter(pred).len(),
    ensures
        s.contains(s.filter(pred)[i]),
        pred(s.filter(pred)[i]),
    decreases s.len(),
{
    reveal(Seq::filter);
    if s.len() > 0 {
        let rest = s.drop_last();
        let kept = rest.filter(pred);
        if i < kept.len() {
            lemma_filter_within(rest, pred, i);
            let k = choose|k: int| 0 <= k < rest.len() && rest[k] == kept[i];
            assert(s[k] == s.filter(pred)[i]);
        } else {
            assert(s[s.len() - 1] == s.filter(pred)[i]);
        }
    }
}

/// Doomed tables are distinct tables of the level.
proof fn lemma_doomed_within<K: TableKey>(
    tables: Seq<TreeTableInfo<K>>,
    snapshots: Seq<u64>,
    key_min: K,
    key_max: K,
)
    requires
        level_ok(tables),
    ensures
        doomed_tables(tables, snapshots, key_min, key_max).no_duplicates(),
        forall|i: int|
            0 <= i < doomed_tables(tables, snapshots, key_min, key_max).len() ==> tables.contains(
                #[trigger] doomed_tables(tables, snapshots, key_min, key_max)[i],
            ),
{
    lemma_level_distinct(tables);
    let range = KeyRange { key_min, key_max };
    let end = descending_end(tables, key_max.rank());
    let pred = lemma_descending_iteration(tables, Visibility::Invisible, snapshots, range);
    let part = tables.subrange(0, end);
    let kept = part.filter(pred);
    let doomed = doomed_tables(tables, snapshots, key_min, key_max);
    assert(doomed == kept.reverse());
    assert(part.no_duplicates());
    lemma_filter_distinct(part, pred);
    assert forall|i: int| 0 <= i < doomed.len() implies tables.contains(#[trigger] doomed[i]) by {
        let m = kept.len() - 1 - i;
        assert(doomed[i] == kept[m]);
        lemma_filter_within(part, pred, m);
        let k = choose|k: int| 0 <= k < part.len() && part[k] == kept[m];
        assert(tables[k] == doomed[i]);
    }
    assert forall|i: int, j: int| 0 <= i < doomed.len() && 0 <= j < doomed.len() && i != j implies
        doomed[i] != doomed[j] by {
        assert(doomed[i] == kept[kept.len() - 1 - i]);
        assert(doomed[j] == kept[kept.len() - 1 - j]);
    }
}

proof fn lemma_filter_distinct<A>(s: Seq<A>, pred: spec_fn(A) -> bool)
    requires
        s.no_duplicates(),
    ensures
        s.filter(pred).no_duplicates(),
    decreases s.len(),
{
    reveal(Seq::filter);
    if s.len() > 0 {
        let rest = s.drop_last();
        assert(rest.no_duplicates());
        lemma_filter_distinct(rest, pred);
        let kept = rest.filter(pred);
        if pred(s.last()) {
            assert forall|i: int| 0 <= i < kept.len() implies #[trigger] kept[i] != s.last() by {
                lemma_filter_within(rest, pred, i);
                let k = choose|k: int| 0 <= k < rest.len() && rest[k] == kept[i];
                assert(s[k] != s[s.len() - 1]);
            }
            assert(s.filter(pred) == kept.push(s.last()));
        }
    }
}

/// The tables that may hold `key`, one per level at most, from `level` on.
pub open spec fn lookup_tables<K: TableKey>(
    levels: Seq<Level<K>>,
    snapshot: u64,
    key: K,
    level: int,
) -> Seq<TreeTableInfo<K>>
    decreases LSM_LEVELS - level,
{
    if level < 0 || level >= LSM_LEVELS {
        Seq::empty()
    } else {
        let rest = lookup_tables(levels, snapshot, key, level + 1);
        let hits = meeting_tables(levels[level]@, snapshot, key.rank(), key.rank());
        if span_contains(key_span(visible_tables(levels[level]@, SNAPSHOT_LATEST)), key)
            && hits.len() > 0 {
            seq![hits.first()] + rest
        } else {
            rest
        }
    }
}

/// A walk down the levels over the tables that may hold a key.
pub struct ManifestLookupIterator<'a, K: TableKey> {
    pub manifest: &'a Manifest<K>,
    pub snapshot: u64,
    pub key: K,
    pub level: u8,
}

impl<'a, K: TableKey> ManifestLookupIterator<'a, K> {
    pub open spec fn wf(&self) -> bool {
        &&& self.manifest.wf()
        &&& self.snapshot <= SNAPSHOT_LATEST
        &&& self.level <= LSM_LEVELS
    }

    /// The tables yet to come.
    pub open spec fn remaining(&self) -> Seq<TreeTableInfo<K>> {
        lookup_tables(self.manifest.levels@, self.snapshot, self.key, self.level as int)
    }

    /// The next table, or `None` below the last level.
    pub fn next(&mut self) -> (result: Option<TreeTableInfo<K>>)
        requires
            old(self).wf(),
        ensures
            final(self).wf(),
            match result {
                Some(table) => {
                    &&& old(self).remaining().len() > 0
                    &&& table == old(self).remaining().first()
                    &&& final(self).remaining() == old(self).remaining().drop_first()
                },
                None => {
                    &&& old(self).remaining().len() == 0
                    &&& final(self).remaining().len() == 0
                },
            },
    {
        let ghost all = self.remaining();
        while self.level < LSM_LEVELS
            invariant
                self.wf(),
                self.remaining() == all,
                all == old(self).remaining(),
            decreases LSM_LEVELS - self.level,
        {
            let level = &self.manifest.levels[self.level as usize];
            let in_range = if self.snapshot < SNAPSHOT_LATEST {
                level.key_range_contains(self.snapshot, self.key)
            } else {
                level.key_range_latest_contains(self.key)
            };
            if !in_range {
                self.level = self.level + 1;
                continue ;
            }
            let snapshots: [u64; 1] = [self.snapshot];
            let range = KeyRange { key_min: self.key, key_max: self.key };
            proof {
                assert(snapshots@ =~= seq![self.snapshot]);
                level.law_tables_are_ordered_and_disjoint();
                law_ascending_iteration_is_complete(level@, self.snapshot, range);
            }
            let ghost rest = lookup_tables(
                self.manifest.levels@,
                self.snapshot,
                self.key,
                self.level + 1,
            );
            let mut it = level.iterator(
                Visibility::Visible,
                &snapshots,
                Direction::Ascending,
                Some(range),
            );
            let found = it.next();
            self.level = self.level + 1;
            if let Some(table) = found {
                assert((seq![*table] + rest).drop_first() =~= rest);
                return Some(*table);
            }
        }
        None
    }
}

/// Looking a key up at the latest snapshot misses no table: on each level the table that may hold
/// the key, if there is one, lies in the span of the level.
pub proof fn law_lookup_misses_nothing<K: TableKey>(
    manifest: Manifest<K>,
    key: K,
    level: int,
    index: int,
)
    requires
        manifest.wf(),
        0 <= level < LSM_LEVELS,
        0 <= index < manifest.tables(level).len(),
        manifest.tables(level)[index].fields().visible_at(SNAPSHOT_LATEST),
        manifest.tables(level)[index].fields().meets(key.rank(), key.rank()),
    ensures
        meeting_tables(manifest.tables(level), SNAPSHOT_LATEST, key.rank(), key.rank()) == seq![
            manifest.tables(level)[index],
        ],
        span_contains(key_span(visible_tables(manifest.tables(level), SNAPSHOT_LATEST)), key),
        lookup_tables(manifest.levels@, SNAPSHOT_LATEST, key, level) == seq![
            manifest.tables(level)[index],
        ] + lookup_tables(manifest.levels@, SNAPSHOT_LATEST, key, level + 1),
{
    let tables = manifest.tables(level);
    let table = tables[index];
    let k = key.rank();
    manifest.levels@[level].law_tables_are_ordered_and_disjoint();
    lemma_visible_tables_ok(tables, SNAPSHOT_LATEST);
    lemma_meeting_of_visible(tables, SNAPSHOT_LATEST, k, k);
    let seen = visible_tables(tables, SNAPSHOT_LATEST);
    let meets = |t: TreeTableInfo<K>| t.fields().meets(k, k);
    assert(seen.contains(table));
    let at = choose|at: int| 0 <= at < seen.len() && seen[at] == table;
    assert forall|i: int| 0 <= i < seen.len() implies (meets(#[trigger] seen[i]) <==> at <= i < at
        + 1) by {
        if i < at {
            assert(seen[i].fields().key_max.rank() < seen[at].fields().key_min.rank());
        } else if i > at {
            assert(seen[at].fields().key_max.rank() < seen[i].fields().key_min.rank());
        }
    }
    lemma_filter_interval(seen, meets, at, at + 1);
    assert(seen.subrange(at, at + 1) =~= seq![table]);
    let last = seen.len() - 1;
    assert(seen[0].fields().valid() && seen[last].fields().valid());
    if at > 0 {
        assert(seen[0].fields().key_max.rank() < seen[at].fields().key_min.rank());
    }
    if at < last {
        assert(seen[at].fields().key_max.rank() < seen[last].fields().key_min.rank());
    }
}

impl<K: TableKey> Manifest<K> {
    /// Walks down the levels, from `level_min` on, over the tables visible to `snapshot` that may
    /// hold `key`.
    #[must_use]
    pub fn lookup(&self, snapshot: u64, key: K, level_min: u8) -> (result: ManifestLookupIterator<
        '_,
        K,
    >)
        requires
            self.wf(),
            snapshot <= SNAPSHOT_LATEST,
            level_min <= LSM_LEVELS,
        ensures
            result.wf(),
            result.remaining() == lookup_tables(self.levels@, snapshot, key, level_min as int),
    {
        ManifestLookupIterator { manifest: self, snapshot, key, level: level_min }
    }

    /// Whether no level holds more visible tables than it may.
    pub fn assert_level_table_counts(&self) -> (result: bool)
        requires
            self.wf(),
        ensures
            result == forall|level: int|
                0 <= level < LSM_LEVELS ==> visible_tables(
                    #[trigger] self.tables(level),
                    SNAPSHOT_LATEST,
                ).len() <= pow(LSM_GROWTH_FACTOR as int, (level + 1) as nat),
    {
        let mut level: u8 = 0;
        while level < LSM_LEVELS
            invariant
                self.wf(),
                level <= LSM_LEVELS,
                forall|l: int|
                    0 <= l < level ==> visible_tables(
                        #[trigger] self.tables(l),
                        SNAPSHOT_LATEST,
                    ).len() <= pow(LSM_GROWTH_FACTOR as int, (l + 1) as nat),
            decreases LSM_LEVELS - level,
        {
            proof {
                lemma_level_fits(LSM_GROWTH_FACTOR as int, (level + 1) as nat);
            }
            let level_max: u32 = table_count_max_for_level(LSM_GROWTH_FACTOR, level as u32);
            let count: u32 = self.levels[level as usize].table_count_visible();
            if count > level_max {
                assert(visible_tables(self.tables(level as int), SNAPSHOT_LATEST).len() == count);
                return false;
            }
            level = level + 1;
        }
        true
    }

    /// Whether every table on every level is seen by the latest snapshot or one of `snapshots`.
    pub fn assert_no_invisible_tables(&self, snapshots: &[u64]) -> (result: bool)
        requires
            self.wf(),
            snapshots_valid(snapshots@),
        ensures
            result == forall|level: int, i: int|
                0 <= level < LSM_LEVELS && 0 <= i < self.tables(level).len() ==> !invisible_to(
                    (#[trigger] self.tables(level)[i]).fields(),
                    snapshots@,
                ),
    {
        let mut level: u8 = 0;
        while level < LSM_LEVELS
            invariant
                self.wf(),
                snapshots_valid(snapshots@),
                level <= LSM_LEVELS,
                forall|l: int, i: int|
                    0 <= l < level && 0 <= i < self.tables(l).len() ==> !invisible_to(
                        (#[trigger] self.tables(l)[i]).fields(),
                        snapshots@,
                    ),
            decreases LSM_LEVELS - level,
        {
            if !self.assert_no_invisible_tables_at_level(level, snapshots) {
                return false;
            }
            level = level + 1;
        }
        true
    }

    fn assert_no_invisible_tables_at_level(&self, level: u8, snapshots: &[u64]) -> (result: bool)
        requires
            self.wf(),
            snapshots_valid(snapshots@),
            level < LSM_LEVELS,
        ensures
            result == forall|i: int|
                0 <= i < self.tables(level as int).len() ==> !invisible_to(
                    (#[trigger] self.tables(level as int)[i]).fields(),
                    snapshots@,
                ),
    {
        let mut it = self.levels[level as usize].iterator(
            Visibility::Invisible,
            snapshots,
            Direction::Ascending,
            None,
        );
        proof {
            let tables = self.tables(level as int);
            law_iteration_without_range(
                tables,
                Visibility::Invisible,
                snapshots@,
                Direction::Ascending,
            );
            let pred = |t: TreeTableInfo<K>|
                of_interest(t.fields(), Visibility::Invisible, snapshots@);
            assert(it.remaining() == tables.filter(pred));
            assert forall|i: int| 0 <= i < tables.len() && pred(#[trigger] tables[i]) implies
                it.remaining().len() > 0 by {
                lemma_filter_keeps(tables, pred, i);
            }
            if it.remaining().len() > 0 {
                lemma_filter_within(tables, pred, 0);
                let k = choose|k: int| 0 <= k < tables.len() && tables[k] == it.remaining()[0];
                assert(invisible_to(self.tables(level as int)[k].fields(), snapshots@));
            } else {
                assert forall|i: int| 0 <= i < tables.len() implies !invisible_to(
                    (#[trigger] tables[i]).fields(),
                    snapshots@,
                ) by {
                    assert(!pred(tables[i]));
                }
            }
        }
        it.next().is_none()
    }

    /// The table of `level_a` that is due to be merged into the next level, and what it meets
    /// there, or `None` if the level is not full yet.
    #[must_use]
    pub fn compaction_table(&self, level_a: u8) -> (result: Option<
        CompactionTableRange<TreeTableInfo<K>, K>,
    >)
        requires
            self.wf(),
            level_a < LSM_LEVELS - 1,
            ({
                let tables = visible_tables(self.tables(level_a as int), SNAPSHOT_LATEST);
                let others = visible_tables(self.tables(level_a + 1), SNAPSHOT_LATEST);
                // Even levels may run one table ahead of odd levels.
                &&& tables.len() <= pow(LSM_GROWTH_FACTOR as int, (level_a + 1) as nat) + 1
                &&& tables.len() >= pow(LSM_GROWTH_FACTOR as int, (level_a + 1) as nat)
                    ==> exists|i: int|
                    0 <= i < tables.len() && overlap_count(others, #[trigger] tables[i])
                        <= LSM_GROWTH_FACTOR
            }),
        ensures
            ({
                let tables = visible_tables(self.tables(level_a as int), SNAPSHOT_LATEST);
                let others = visible_tables(self.tables(level_a + 1), SNAPSHOT_LATEST);
                match result {
                    None => tables.len() < pow(LSM_GROWTH_FACTOR as int, (level_a + 1) as nat),
                    Some(found) => {
                        let table = found.table_a.table_info;
                        &&& tables.len() >= pow(LSM_GROWTH_FACTOR as int, (level_a + 1) as nat)
                        &&& found.table_a.generation == self.generation(level_a as int)
                        &&& exists|k: int|
                            #![trigger tables[k]]
                            has_least_overlap(tables, others, k) && table == tables[k]
                        &&& found.range_b.key_min == found.range_b.tables.key_min
                        &&& found.range_b.key_max == found.range_b.tables.key_max
                        &&& is_overlap_range(
                            found.range_b.tables,
                            meeting_tables(
                                self.tables(level_a + 1),
                                SNAPSHOT_LATEST,
                                table.key_min.rank(),
                                table.key_max.rank(),
                            ),
                            self.generation(level_a + 1),
                            table.key_min,
                            table.key_max,
                        )
                        &&& found.range_b.tables.tables@.len() <= LSM_GROWTH_FACTOR
                    },
                }
            }),
    {
        proof {
            lemma_level_fits(LSM_GROWTH_FACTOR as int, (level_a + 1) as nat);
        }
        let count_max: u32 = table_count_max_for_level(LSM_GROWTH_FACTOR, level_a as u32);
        let level_a_ref = &self.levels[level_a as usize];
        let level_next_ref = &self.levels[level_a as usize + 1];
        if level_a_ref.table_count_visible() < count_max {
            return None;
        }
        proof {
            level_next_ref.law_tables_are_ordered_and_disjoint();
            lemma_visible_tables_ok(level_next_ref@, SNAPSHOT_LATEST);
        }
        let least_overlap = level_a_ref.table_with_least_overlap(
            level_next_ref,
            SNAPSHOT_LATEST,
            LSM_GROWTH_FACTOR as usize,
        );
        Some(
            CompactionTableRange {
                table_a: least_overlap.table,
                range_b: CompactionRange {
                    key_min: least_overlap.range.key_min,
                    key_max: least_overlap.range.key_max,
                    tables: least_overlap.range,
                },
            },
        )
    }
}

/// The values that come out of merging `value_count` values with the tables from `lo` to `hi`.
pub open spec fn merged_values<T: LevelTableInfo>(
    tables: Seq<T>,
    lo: int,
    hi: int,
    value_count: int,
) -> int {
    value_count + value_count_sum(tables.subrange(lo, hi))
}

/// Whether another table may join the tables from `lo` to `hi`: there is room for it, the merge
/// falls short of `target` values without it, and does not exceed `limit` values with it.
pub open spec fn may_coalesce<T: LevelTableInfo>(
    tables: Seq<T>,
    lo: int,
    hi: int,
    value_count: int,
    target: int,
    limit: int,
    table: T,
) -> bool {
    let values = merged_values(tables, lo, hi, value_count);
    hi - lo < OVERLAP_MAX && values < target && values + table.fields().value_count <= limit
}

/// Where the tables start after those before them have joined, one by one.
pub open spec fn coalesced_lo<T: LevelTableInfo>(
    tables: Seq<T>,
    lo: int,
    hi: int,
    value_count: int,
    target: int,
    limit: int,
) -> int
    decreases lo,
{
    if lo > 0 && may_coalesce(tables, lo, hi, value_count, target, limit, tables[lo - 1]) {
        coalesced_lo(tables, lo - 1, hi, value_count, target, limit)
    } else {
        lo
    }
}

/// Where the tables end after those past them have joined, one by one.
pub open spec fn coalesced_hi<T: LevelTableInfo>(
    tables: Seq<T>,
    lo: int,
    hi: int,
    value_count: int,
    target: int,
    limit: int,
) -> int
    decreases tables.len() - hi,
{
    if hi < tables.len() && may_coalesce(
        tables,
        lo,
        hi,
        value_count,
        target,
        limit,
        tables[hi],
    ) {
        coalesced_hi(tables, lo, hi + 1, value_count, target, limit)
    } else {
        hi
    }
}

/// How many values make a table that is not worth coalescing.
pub open spec fn value_count_target(value_count_max: int) -> int {
    (value_count_max * LSM_TABLE_COALESCING_THRESHOLD_PERCENT + 99) / 100
}

/// The tables that an immutable table is merged into, as a part of the visible tables: those that
/// meet its keys, and the neighbours that join them.
pub open spec fn immutable_table_range<T: LevelTableInfo>(
    tables: Seq<T>,
    key_min: T::Key,
    key_max: T::Key,
    value_count: int,
    value_count_max: int,
) -> (int, int) {
    let target = value_count_target(value_count_max);
    let first = tables_below(tables, key_min.rank());
    let end = first + tables.filter(
        |table: T| table.fields().meets(key_min.rank(), key_max.rank()),
    ).len();
    let lo = coalesced_lo(tables, first, end, value_count, target, value_count_max);
    let hi = coalesced_hi(tables, lo, end, value_count, target, value_count_max);
    (lo, hi)
}

/// The disjoint tables that meet a range are an interval, with those below it before and those
/// past it after.
proof fn lemma_meeting_interval<T: LevelTableInfo>(
    tables: Seq<T>,
    key_min: T::Key,
    key_max: T::Key,
) -> (bounds: (int, int))
    requires
        disjoint(tables),
        key_min.rank() <= key_max.rank(),
    ensures
        ({
            let (lo, hi) = bounds;
            let hits = tables.filter(
                |table: T| table.fields().meets(key_min.rank(), key_max.rank()),
            );
            &&& lo == tables_below(tables, key_min.rank())
            &&& hi == lo + hits.len()
            &&& 0 <= lo <= hi <= tables.len()
            &&& hits == tables.subrange(lo, hi)
            &&& forall|i: int|
                0 <= i < lo ==> (#[trigger] tables[i]).fields().key_max.rank() < key_min.rank()
            &&& forall|i: int|
                hi <= i < tables.len() ==> (#[trigger] tables[i]).fields().key_min.rank()
                    > key_max.rank()
        }),
{
    let n = tables.len() as int;
    assert forall|i: int, j: int| 0 <= i <= j < n implies (
    #[trigger] tables[i]).fields().key_max.rank() <= (
    #[trigger] tables[j]).fields().key_max.rank() by {
        assert(tables[j].fields().valid());
    }
    lemma_tables_below(tables, key_min.rank());
    let lo = tables_below(tables, key_min.rank());
    let meets = |table: T| table.fields().meets(key_min.rank(), key_max.rank());
    let hi = lemma_last_start(tables, key_max.rank(), lo);
    assert forall|i: int| 0 <= i < n implies (meets(#[trigger] tables[i]) <==> lo <= i < hi) by {
        assert(tables[i].fields().valid());
    }
    lemma_filter_interval(tables, meets, lo, hi);
    (lo, hi)
}

/// The first table from `from` on that starts past `key`.
proof fn lemma_last_start<T: LevelTableInfo>(tables: Seq<T>, key: int, from: int) -> (hi: int)
    requires
        disjoint(tables),
        0 <= from <= tables.len(),
    ensures
        from <= hi <= tables.len(),
        forall|i: int|
            from <= i < hi ==> (#[trigger] tables[i]).fields().key_min.rank() <= key,
        forall|i: int|
            hi <= i < tables.len() ==> (#[trigger] tables[i]).fields().key_min.rank() > key,
    decreases tables.len() - from,
{
    if from == tables.len() {
        from
    } else if tables[from].fields().key_min.rank() > key {
        assert forall|i: int| from <= i < tables.len() implies (
        #[trigger] tables[i]).fields().key_min.rank() > key by {
            if i > from {
                assert(tables[from].fields().key_max.rank() < tables[i].fields().key_min.rank());
                assert(tables[from].fields().valid());
            }
        }
        from
    } else {
        lemma_last_start(tables, key, from + 1)
    }
}

/// One table more, on the left.
proof fn lemma_join_left<T: LevelTableInfo>(tables: Seq<T>, lo: int, hi: int, generation: u32)
    requires
        0 < lo <= hi <= tables.len(),
    ensures
        value_count_sum(tables.subrange(lo - 1, hi)) == tables[lo - 1].fields().value_count
            + value_count_sum(tables.subrange(lo, hi)),
        references(tables.subrange(lo - 1, hi), generation) == references(
            tables.subrange(lo, hi),
            generation,
        ).insert(0, TableInfoReference { table_info: tables[lo - 1], generation }),
{
    let one = seq![tables[lo - 1]];
    let rest = tables.subrange(lo, hi);
    assert(tables.subrange(lo - 1, hi) =~= one + rest);
    lemma_value_count_sum_add(one, rest);
    assert(one.drop_last() =~= Seq::<T>::empty());
    reveal_with_fuel(value_count_sum, 2);
    assert(references(tables.subrange(lo - 1, hi), generation) =~= references(
        rest,
        generation,
    ).insert(0, TableInfoReference { table_info: tables[lo - 1], generation }));
}

/// One table more, on the right.
proof fn lemma_join_right<T: LevelTableInfo>(tables: Seq<T>, lo: int, hi: int, generation: u32)
    requires
        0 <= lo <= hi < tables.len(),
    ensures
        value_count_sum(tables.subrange(lo, hi + 1)) == value_count_sum(tables.subrange(lo, hi))
            + tables[hi].fields().value_count,
        references(tables.subrange(lo, hi + 1), generation) == references(
            tables.subrange(lo, hi),
            generation,
        ).push(TableInfoReference { table_info: tables[hi], generation }),
{
    assert(tables.subrange(lo, hi + 1).drop_last() =~= tables.subrange(lo, hi));
    assert(tables.subrange(lo, hi + 1).last() == tables[hi]);
    assert(references(tables.subrange(lo, hi + 1), generation) =~= references(
        tables.subrange(lo, hi),
        generation,
    ).push(TableInfoReference { table_info: tables[hi], generation }));
}

/// Coalescing only ever adds tables, never more than fit, and never past the most values that a
/// table may hold.
pub proof fn law_coalescing_stays_within_limits<T: LevelTableInfo>(
    tables: Seq<T>,
    lo: int,
    hi: int,
    value_count: int,
    target: int,
    limit: int,
)
    requires
        0 <= lo <= hi <= tables.len(),
        hi - lo <= OVERLAP_MAX,
    ensures
        ({
            let new_lo = coalesced_lo(tables, lo, hi, value_count, target, limit);
            let new_hi = coalesced_hi(tables, new_lo, hi, value_count, target, limit);
            &&& 0 <= new_lo <= lo
            &&& hi <= new_hi <= tables.len()
            &&& new_hi - new_lo <= OVERLAP_MAX
            &&& (new_lo, new_hi) != (lo, hi) ==> {
                &&& merged_values(tables, lo, hi, value_count) < target
                &&& merged_values(tables, new_lo, new_hi, value_count) <= limit
            }
        }),
{
    let new_lo = coalesced_lo(tables, lo, hi, value_count, target, limit);
    lemma_coalesced_lo(tables, lo, hi, value_count, target, limit);
    lemma_coalesced_hi(tables, new_lo, hi, value_count, target, limit);
}

proof fn lemma_coalesced_lo<T: LevelTableInfo>(
    tables: Seq<T>,
    lo: int,
    hi: int,
    value_count: int,
    target: int,
    limit: int,
)
    requires
        0 <= lo <= hi <= tables.len(),
        hi - lo <= OVERLAP_MAX,
    ensures
        ({
            let new_lo = coalesced_lo(tables, lo, hi, value_count, target, limit);
            &&& 0 <= new_lo <= lo
            &&& hi - new_lo <= OVERLAP_MAX
            &&& new_lo != lo ==> {
                &&& merged_values(tables, lo, hi, value_count) < target
                &&& merged_values(tables, new_lo, hi, value_count) <= limit
            }
        }),
    decreases lo,
{
    if lo > 0 && may_coalesce(tables, lo, hi, value_count, target, limit, tables[lo - 1]) {
        lemma_join_left(tables, lo, hi, 0);
        lemma_coalesced_lo(tables, lo - 1, hi, value_count, target, limit);
    }
}

proof fn lemma_coalesced_hi<T: LevelTableInfo>(
    tables: Seq<T>,
    lo: int,
    hi: int,
    value_count: int,
    target: int,
    limit: int,
)
    requires
        0 <= lo <= hi <= tables.len(),
        hi - lo <= OVERLAP_MAX,
    ensures
        ({
            let new_hi = coalesced_hi(tables, lo, hi, value_count, target, limit);
            &&& hi <= new_hi <= tables.len()
            &&& new_hi - lo <= OVERLAP_MAX
            &&& new_hi != hi ==> {
                &&& merged_values(tables, lo, hi, value_count) < target
                &&& merged_values(tables, lo, new_hi, value_count) <= limit
            }
        }),
    decreases tables.len() - hi,
{
    if hi < tables.len() && may_coalesce(
        tables,
        lo,
        hi,
        value_count,
        target,
        limit,
        tables[hi],
    ) {
        lemma_join_right(tables, lo, hi, 0);
        lemma_coalesced_hi(tables, lo, hi + 1, value_count, target, limit);
    }
}

/// The values of the tables from `lo` to `hi`, and `value_count` more.
pub open spec fn values_with<T: LevelTableInfo>(
    tables: Seq<T>,
    lo: int,
    hi: int,
    value_count: int,
) -> int {
    tables.subrange(lo, hi).fold_left(
        value_count,
        |sum: int, table: T| sum + table.fields().value_count,
    )
}

proof fn lemma_values_with<T: LevelTableInfo>(tables: Seq<T>, value_count: int)
    ensures
        value_count + value_count_sum(tables) == tables.fold_left(
            value_count,
            |sum: int, table: T| sum + table.fields().value_count,
        ),
    decreases tables.len(),
{
    reveal_with_fuel(Seq::fold_left, 2);
    if tables.len() > 0 {
        lemma_values_with(tables.drop_last(), value_count);
    }
}

/// A small table is merged with its neighbours, and no more of them than it takes.
///
/// The tables from `first` to `end` are those that meet the keys. All of them are merged. Others
/// join them, first from the left and then from the right, one by one, for as long as the values
/// make less than half a table. None joins that would make more than a table, and never do more
/// than four tables take part. Where fewer take part and their values still make less than half a
/// table, each neighbour that is left would have made more than a table.
pub proof fn law_small_tables_are_coalesced<T: LevelTableInfo>(
    tables: Seq<T>,
    key_min: T::Key,
    key_max: T::Key,
    value_count: int,
    value_count_max: int,
    first: int,
    end: int,
)
    requires
        disjoint(tables),
        key_min.rank() <= key_max.rank(),
        0 <= first <= end <= tables.len(),
        end - first <= 4,
        forall|i: int|
            0 <= i < first ==> (#[trigger] tables[i]).fields().key_max.rank() < key_min.rank(),
        forall|i: int|
            first <= i < end ==> key_min.rank() <= (#[trigger] tables[i]).fields().key_max.rank()
                && tables[i].fields().key_min.rank() <= key_max.rank(),
        forall|i: int|
            end <= i < tables.len() ==> (#[trigger] tables[i]).fields().key_min.rank()
                > key_max.rank(),
    ensures
        ({
            let (lo, hi) = immutable_table_range(
                tables,
                key_min,
                key_max,
                value_count,
                value_count_max,
            );
            let values = values_with(tables, lo, hi, value_count);
            &&& 0 <= lo <= first
            &&& end <= hi <= tables.len()
            &&& hi - lo <= 4
            &&& lo < first ==> {
                &&& 2 * values_with(tables, lo + 1, end, value_count) < value_count_max
                &&& values_with(tables, lo, end, value_count) <= value_count_max
            }
            &&& end < hi ==> {
                &&& 2 * values_with(tables, lo, hi - 1, value_count) < value_count_max
                &&& values <= value_count_max
                &&& lo > 0 ==> values_with(tables, lo - 1, end, value_count) > value_count_max
            }
            &&& hi - lo < 4 && 2 * values < value_count_max ==> {
                &&& lo > 0 ==> values + tables[lo - 1].fields().value_count > value_count_max
                &&& hi < tables.len() ==> values + tables[hi].fields().value_count
                    > value_count_max
            }
        }),
{
    let target = value_count_target(value_count_max);
    let bounds = lemma_meeting_interval(tables, key_min, key_max);
    if bounds.0 < first {
        assert(tables[bounds.0].fields().key_max.rank() < key_min.rank());
        lemma_tables_below_at(tables, key_min.rank());
    } else if first < bounds.0 {
        assert(tables[first].fields().key_max.rank() < key_min.rank());
        if first == end {
            assert(tables[first].fields().valid());
        }
    }
    if bounds.1 < end {
        assert(tables[bounds.1].fields().key_min.rank() > key_max.rank());
    } else if end < bounds.1 {
        assert(tables.subrange(bounds.0, bounds.1)[end - bounds.0] == tables[end]);
        lemma_filter_within(
            tables,
            |table: T| table.fields().meets(key_min.rank(), key_max.rank()),
            end - bounds.0,
        );
    }
    let lo = coalesced_lo(tables, first, end, value_count, target, value_count_max);
    lemma_left_neighbours(tables, first, end, value_count, target, value_count_max);
    lemma_right_neighbours(tables, lo, end, value_count, target, value_count_max);
    let hi = coalesced_hi(tables, lo, end, value_count, target, value_count_max);
    lemma_values_with(tables.subrange(lo, hi), value_count);
    lemma_values_with(tables.subrange(lo, end), value_count);
    lemma_value_count_sum_bounds(tables.subrange(end, hi));
    assert(tables.subrange(lo, hi) =~= tables.subrange(lo, end) + tables.subrange(end, hi));
    lemma_value_count_sum_add(tables.subrange(lo, end), tables.subrange(end, hi));
    if lo < first {
        lemma_values_with(tables.subrange(lo + 1, end), value_count);
    }
    if end < hi {
        lemma_values_with(tables.subrange(lo, hi - 1), value_count);
        lemma_join_right(tables, lo, hi - 1, 0);
    }
    if lo > 0 {
        lemma_join_left(tables, lo, end, 0);
        lemma_values_with(tables.subrange(lo - 1, end), value_count);
    }
}

/// A table at the count of those below a key does not end below it.
proof fn lemma_tables_below_at<T: LevelTableInfo>(tables: Seq<T>, key: int)
    requires
        disjoint(tables),
        tables_below(tables, key) < tables.len(),
    ensures
        tables[tables_below(tables, key)].fields().key_max.rank() >= key,
{
    assert forall|i: int, j: int| 0 <= i <= j < tables.len() implies (
    #[trigger] tables[i]).fields().key_max.rank() <= (
    #[trigger] tables[j]).fields().key_max.rank() by {
        assert(tables[j].fields().valid());
    }
    lemma_tables_below(tables, key);
}

/// The last table that joined on the left was due, and the next one is not.
proof fn lemma_left_neighbours<T: LevelTableInfo>(
    tables: Seq<T>,
    lo: int,
    hi: int,
    value_count: int,
    target: int,
    limit: int,
)
    requires
        0 <= lo <= hi <= tables.len(),
        hi - lo <= 4,
    ensures
        ({
            let new_lo = coalesced_lo(tables, lo, hi, value_count, target, limit);
            &&& 0 <= new_lo <= lo
            &&& hi - new_lo <= 4
            &&& new_lo < lo ==> {
                &&& merged_values(tables, new_lo + 1, hi, value_count) < target
                &&& merged_values(tables, new_lo, hi, value_count) <= limit
            }
            &&& new_lo > 0 && hi - new_lo < 4 && merged_values(tables, new_lo, hi, value_count)
                < target ==> merged_values(tables, new_lo, hi, value_count) + tables[new_lo
                - 1].fields().value_count > limit
        }),
    decreases lo,
{
    if lo > 0 && may_coalesce(tables, lo, hi, value_count, target, limit, tables[lo - 1]) {
        lemma_join_left(tables, lo, hi, 0);
        lemma_left_neighbours(tables, lo - 1, hi, value_count, target, limit);
    }
}

/// The last table that joined on the right was due, and the next one is not.
proof fn lemma_right_neighbours<T: LevelTableInfo>(
    tables: Seq<T>,
    lo: int,
    hi: int,
    value_count: int,
    target: int,
    limit: int,
)
    requires
        0 <= lo <= hi <= tables.len(),
        hi - lo <= 4,
    ensures
        ({
            let new_hi = coalesced_hi(tables, lo, hi, value_count, target, limit);
            &&& hi <= new_hi <= tables.len()
            &&& new_hi - lo <= 4
            &&& hi < new_hi ==> {
                &&& hi - lo < 4
                &&& merged_values(tables, lo, hi, value_count) < target
                &&& merged_values(tables, lo, new_hi - 1, value_count) < target
                &&& merged_values(tables, lo, new_hi, value_count) <= limit
            }
            &&& new_hi < tables.len() && new_hi - lo < 4 && merged_values(
                tables,
                lo,
                new_hi,
                value_count,
            ) < target ==> merged_values(tables, lo, new_hi, value_count)
                + tables[new_hi].fields().value_count > limit
        }),
    decreases tables.len() - hi,
{
    if hi < tables.len() && may_coalesce(
        tables,
        lo,
        hi,
        value_count,
        target,
        limit,
        tables[hi],
    ) {
        lemma_join_right(tables, lo, hi, 0);
        lemma_right_neighbours(tables, lo, hi + 1, value_count, target, limit);
    }
}

impl<K: TableKey> Manifest<K> {
    /// The tables of the first level that an immutable table with keys from `key_min` to `key_max`
    /// is merged into.
    ///
    /// Where the merge would leave a small table, neighbours join it, first those before and then
    /// those past it, for as long as they fit one table together.
    #[verifier::rlimit(40)]
    #[must_use]
    pub fn immutable_table_compaction_range(
        &self,
        key_min: K,
        key_max: K,
        value_count: u32,
        value_count_max: u32,
    ) -> (result: CompactionRange<TreeTableInfo<K>, K>)
        requires
            self.wf(),
            key_min.rank() <= key_max.rank(),
            0 < value_count <= value_count_max,
            1 < value_count_target(value_count_max as int) < value_count_max,
            visible_tables(self.tables(0), SNAPSHOT_LATEST).len() <= LSM_GROWTH_FACTOR,
        ensures
            ({
                let seen = visible_tables(self.tables(0), SNAPSHOT_LATEST);
                let (lo, hi) = immutable_table_range(
                    seen,
                    key_min,
                    key_max,
                    value_count as int,
                    value_count_max as int,
                );
                &&& 0 <= lo <= hi <= seen.len()
                &&& is_overlap_range(
                    result.tables,
                    seen.subrange(lo, hi),
                    self.generation(0),
                    key_min,
                    key_max,
                )
                &&& result.key_min == result.tables.key_min
                &&& result.key_max == result.tables.key_max
            }),
    {
        let level = &self.levels[0];
        let ghost tables = self.tables(0);
        let ghost seen = visible_tables(tables, SNAPSHOT_LATEST);
        let ghost generation = level.spec_generation();
        proof {
            level.law_tables_are_ordered_and_disjoint();
            lemma_visible_tables_ok(tables, SNAPSHOT_LATEST);
            lemma_meeting_of_visible(tables, SNAPSHOT_LATEST, key_min.rank(), key_max.rank());
        }
        let ghost bounds = lemma_meeting_interval(seen, key_min, key_max);
        let ghost mut lo: int = bounds.0;
        let ghost mut hi: int = bounds.1;
        proof {
            let hits = seen.subrange(lo, hi);
            assert forall|i: int| 0 <= i < hits.len() implies (
            #[trigger] hits[i]).fields().visible_at(SNAPSHOT_LATEST) by {
                assert(hits[i] == seen[lo + i]);
            }
        }
        let overlap = level.tables_overlapping_with_key_range(
            key_min,
            key_max,
            SNAPSHOT_LATEST,
            LSM_GROWTH_FACTOR as usize,
        );
        let mut range = overlap.unwrap();
        let target: u64 = (value_count_max as u64 * LSM_TABLE_COALESCING_THRESHOLD_PERCENT + 99)
            / 100;
        let limit: u64 = value_count_max as u64;
        let mut values: u64 = value_count as u64;
        let mut i: usize = 0;
        while i < range.tables.count()
            invariant
                0 <= lo <= hi <= seen.len(),
                range.tables@ == references(seen.subrange(lo, hi), generation),
                i <= hi - lo <= OVERLAP_MAX,
                values == merged_values(seen, lo, lo + i, value_count as int),
                values <= value_count + i * u32::MAX,
            decreases hi - lo - i,
        {
            proof {
                lemma_join_right(seen, lo, lo + i, generation);
                assert(range.tables@[i as int].table_info == seen[lo + i]);
            }
            values = values + range.tables.slice()[i].table_info.value_count() as u64;
            i = i + 1;
        }
        let zero = K::zero_key();
        let greatest = K::max_key();
        let ghost lo_end = coalesced_lo(
            seen,
            lo,
            hi,
            value_count as int,
            target as int,
            limit as int,
        );
        // The neighbours before.
        loop
            invariant_except_break
                coalesced_lo(seen, lo, hi, value_count as int, target as int, limit as int)
                    == lo_end,
            invariant
                *level == self.levels@[0],
                level.wf(),
                level_ok(tables),
                tables == level@,
                seen == visible_tables(tables, SNAPSHOT_LATEST),
                generation == level.spec_generation(),
                disjoint(seen),
                0 <= lo <= hi <= seen.len(),
                hi - lo <= OVERLAP_MAX,
                key_min.rank() <= key_max.rank(),
                forall|key: K| zero.rank() <= #[trigger] key.rank(),
                forall|key: K| #[trigger] key.rank() <= greatest.rank(),
                is_overlap_range(range, seen.subrange(lo, hi), generation, key_min, key_max),
                values == merged_values(seen, lo, hi, value_count as int),
                values <= u64::MAX / 2,
                limit <= u32::MAX,
                forall|i: int|
                    0 <= i < lo ==> (#[trigger] seen[i]).fields().key_max.rank() < key_min.rank(),
                forall|i: int|
                    hi <= i < seen.len() ==> (#[trigger] seen[i]).fields().key_min.rank()
                        > key_max.rank(),
            ensures
                lo == lo_end,
            decreases lo,
        {
            if range.tables.full() || values >= target {
                break ;
            }
            let ghost key = range.key_min;
            let parameters = NextTableParameters {
                snapshot: SNAPSHOT_LATEST,
                key_min: zero,
                key_max: greatest,
                key_exclusive: Some(range.key_min),
                direction: Direction::Descending,
            };
            let next = level.next_table(parameters);
            proof {
                lemma_overlap_bounds(seen, lo, hi, key_min, key_max);
                law_next_table_descending(
                    tables,
                    parameters,
                    match next {
                        Some(found) => Some(found.table_info),
                        None => None,
                    },
                    key,
                    lo,
                );
            }
            match next {
                None => {
                    break ;
                },
                Some(found) => {
                    let next_value_count: u64 = found.table_info.value_count() as u64;
                    if values + next_value_count > limit {
                        break ;
                    }
                    proof {
                        lemma_join_left(seen, lo, hi, generation);
                        lemma_overlap_bounds(seen, lo - 1, hi, key_min, key_max);
                        assert(seen[lo - 1].fields().valid());
                    }
                    values = values + next_value_count;
                    range.key_min = found.table_info.key_min();
                    range.tables.insert_at(0, found);
                    proof {
                        let before = seen.subrange(lo, hi);
                        let after = seen.subrange(lo - 1, hi);
                        assert(after.first() == seen[lo - 1]);
                        if lo < hi {
                            assert(after.last() == before.last());
                        } else {
                            assert(after.last() == seen[lo - 1]);
                        }
                        lo = lo - 1;
                    }
                },
            }
        }
        let ghost hi_end = coalesced_hi(
            seen,
            lo,
            hi,
            value_count as int,
            target as int,
            limit as int,
        );
        // The neighbours past.
        loop
            invariant_except_break
                coalesced_hi(seen, lo, hi, value_count as int, target as int, limit as int)
                    == hi_end,
            invariant
                *level == self.levels@[0],
                level.wf(),
                level_ok(tables),
                tables == level@,
                seen == visible_tables(tables, SNAPSHOT_LATEST),
                generation == level.spec_generation(),
                disjoint(seen),
                0 <= lo <= hi <= seen.len(),
                hi - lo <= OVERLAP_MAX,
                key_min.rank() <= key_max.rank(),
                forall|key: K| zero.rank() <= #[trigger] key.rank(),
                forall|key: K| #[trigger] key.rank() <= greatest.rank(),
                is_overlap_range(range, seen.subrange(lo, hi), generation, key_min, key_max),
                values == merged_values(seen, lo, hi, value_count as int),
                values <= u64::MAX / 2,
                limit <= u32::MAX,
                forall|i: int|
                    0 <= i < lo ==> (#[trigger] seen[i]).fields().key_max.rank() < key_min.rank(),
                forall|i: int|
                    hi <= i < seen.len() ==> (#[trigger] seen[i]).fields().key_min.rank()
                        > key_max.rank(),
            ensures
                hi == hi_end,
            decreases seen.len() - hi,
        {
            if range.tables.full() || values >= target {
                break ;
            }
            let ghost key = range.key_max;
            let parameters = NextTableParameters {
                snapshot: SNAPSHOT_LATEST,
                key_min: zero,
                key_max: greatest,
                key_exclusive: Some(range.key_max),
                direction: Direction::Ascending,
            };
            let next = level.next_table(parameters);
            proof {
                lemma_overlap_bounds(seen, lo, hi, key_min, key_max);
                law_next_table_ascending(
                    tables,
                    parameters,
                    match next {
                        Some(found) => Some(found.table_info),
                        None => None,
                    },
                    key,
                    hi,
                );
            }
            match next {
                None => {
                    break ;
                },
                Some(found) => {
                    let next_value_count: u64 = found.table_info.value_count() as u64;
                    if values + next_value_count > limit {
                        break ;
                    }
                    proof {
                        lemma_join_right(seen, lo, hi, generation);
                        assert(seen[hi].fields().valid());
                    }
                    values = values + next_value_count;
                    range.key_max = found.table_info.key_max();
                    range.tables.push(found);
                    proof {
                        let before = seen.subrange(lo, hi);
                        let after = seen.subrange(lo, hi + 1);
                        assert(after.last() == seen[hi]);
                        if lo < hi {
                            assert(after.first() == before.first());
                        } else {
                            assert(after.first() == seen[hi]);
                        }
                        hi = hi + 1;
                    }
                },
            }
        }
        CompactionRange { key_min: range.key_min, key_max: range.key_max, tables: range }
    }
}

/// Where the bounds of the tables from `lo` to `hi`, and of the keys that they were chosen for, lie
/// among the other tables.
proof fn lemma_overlap_bounds<T: LevelTableInfo>(
    tables: Seq<T>,
    lo: int,
    hi: int,
    key_min: T::Key,
    key_max: T::Key,
)
    requires
        disjoint(tables),
        0 <= lo <= hi <= tables.len(),
        key_min.rank() <= key_max.rank(),
        forall|i: int|
            0 <= i < lo ==> (#[trigger] tables[i]).fields().key_max.rank() < key_min.rank(),
        forall|i: int|
            hi <= i < tables.len() ==> (#[trigger] tables[i]).fields().key_min.rank()
                > key_max.rank(),
    ensures
        ({
            let some = tables.subrange(lo, hi);
            let range_min = if some.len() > 0 && some.first().fields().key_min.rank()
                < key_min.rank() {
                some.first().fields().key_min
            } else {
                key_min
            };
            let range_max = if some.len() > 0 && some.last().fields().key_max.rank()
                > key_max.rank() {
                some.last().fields().key_max
            } else {
                key_max
            };
            &&& range_min.rank() <= range_max.rank()
            &&& forall|i: int|
                0 <= i < lo ==> (#[trigger] tables[i]).fields().key_max.rank() < range_min.rank()
            &&& forall|i: int|
                lo <= i < tables.len() ==> range_min.rank() <= (
                #[trigger] tables[i]).fields().key_max.rank()
            &&& forall|i: int|
                0 <= i < hi ==> (#[trigger] tables[i]).fields().key_min.rank() <= range_max.rank()
            &&& forall|i: int|
                hi <= i < tables.len() ==> range_max.rank() < (
                #[trigger] tables[i]).fields().key_min.rank()
        }),
{
    let some = tables.subrange(lo, hi);
    if lo < hi {
        assert(some.first() == tables[lo]);
        assert(some.last() == tables[hi - 1]);
        assert(tables[lo].fields().valid());
        assert(tables[hi - 1].fields().valid());
        assert forall|i: int| 0 <= i < lo implies (#[trigger] tables[i]).fields().key_max.rank()
            < tables[lo].fields().key_min.rank() by {}
        assert forall|i: int| lo <= i < tables.len() implies tables[lo].fields().key_min.rank() <= (
        #[trigger] tables[i]).fields().key_max.rank() by {
            assert(tables[i].fields().valid());
        }
        assert forall|i: int| 0 <= i < hi implies (#[trigger] tables[i]).fields().key_min.rank()
            <= tables[hi - 1].fields().key_max.rank() by {
            assert(tables[i].fields().valid());
        }
    }
    assert forall|i: int| 0 <= i < tables.len() implies (
    #[trigger] tables[i]).fields().key_min.rank() <= tables[i].fields().key_max.rank() by {
        assert(tables[i].fields().valid());
    }
}

/// What the first `count` tables meet of `others`, one after the other.
pub open spec fn overlap_sum<T: LevelTableInfo>(tables: Seq<T>, others: Seq<T>, count: int) -> int
    decreases count,
{
    if count <= 0 {
        0
    } else {
        overlap_sum(tables, others, count - 1) + overlap_count(others, tables[count - 1])
    }
}

/// Neighbours share one table of the other level at most, so that together the first `count`
/// tables meet few more than there are. Returns how many of the others start by their end.
proof fn lemma_overlap_sum<T: LevelTableInfo>(tables: Seq<T>, others: Seq<T>, count: int) -> (upper:
    int)
    requires
        disjoint(tables),
        disjoint(others),
        1 <= count <= tables.len(),
    ensures
        0 <= upper <= others.len(),
        overlap_sum(tables, others, count) <= upper + count - 1,
        forall|j: int|
            0 <= j < upper ==> (#[trigger] others[j]).fields().key_min.rank() <= tables[count
                - 1].fields().key_max.rank(),
    decreases count,
{
    let table = tables[count - 1];
    assert(table.fields().valid());
    assert forall|i: int, j: int| 0 <= i <= j < others.len() implies (
    #[trigger] others[i]).fields().key_max.rank() <= (
    #[trigger] others[j]).fields().key_max.rank() by {
        assert(others[j].fields().valid());
    }
    lemma_tables_below(others, table.fields().key_min.rank());
    let lower = tables_below(others, table.fields().key_min.rank());
    let upper = lemma_last_start(others, table.fields().key_max.rank(), 0);
    lemma_overlap_between(others, table, lower, upper);
    reveal_with_fuel(overlap_sum, 2);
    if count > 1 {
        let before = lemma_overlap_sum(tables, others, count - 1);
        assert(tables[count - 2].fields().key_max.rank() < tables[count
            - 1].fields().key_min.rank());
        if lower < before - 1 {
            assert(others[lower].fields().key_max.rank() < others[before
                - 1].fields().key_min.rank());
        }
    }
    upper
}

proof fn lemma_overlap_sum_at_least<T: LevelTableInfo>(
    tables: Seq<T>,
    others: Seq<T>,
    count: int,
    least: int,
)
    requires
        0 <= count <= tables.len(),
        forall|i: int|
            0 <= i < count ==> overlap_count(others, #[trigger] tables[i]) >= least,
    ensures
        overlap_sum(tables, others, count) >= count * least,
    decreases count,
{
    if count > 0 {
        lemma_overlap_sum_at_least(tables, others, count - 1, least);
        assert(overlap_count(others, tables[count - 1]) >= least);
        assert(count * least == (count - 1) * least + least) by (nonlinear_arith);
    } else {
        assert(count * least == 0) by (nonlinear_arith)
            requires
                count == 0,
        ;
    }
}

/// Where a level has at most `factor` times the visible tables of the level above it, some table
/// above meets at most `factor` of them: there always is a table that can be merged.
pub proof fn law_some_table_can_be_compacted<T: LevelTableInfo>(
    tables: Seq<T>,
    others: Seq<T>,
    factor: int,
)
    requires
        disjoint(tables),
        disjoint(others),
        tables.len() > 0,
        others.len() <= factor * tables.len(),
    ensures
        exists|i: int|
            0 <= i < tables.len() && overlap_count(others, #[trigger] tables[i]) <= factor,
{
    let n = tables.len() as int;
    if forall|i: int| 0 <= i < n ==> overlap_count(others, #[trigger] tables[i]) > factor {
        lemma_overlap_sum_at_least(tables, others, n, factor + 1);
        let upper = lemma_overlap_sum(tables, others, n);
        assert(n * (factor + 1) == factor * n + n) by (nonlinear_arith);
    }
}

/// A level whose tables do not hold the key is passed over.
pub proof fn law_lookup_passes_over_other_levels<K: TableKey>(
    manifest: Manifest<K>,
    snapshot: u64,
    key: K,
    level: int,
)
    requires
        0 <= level < LSM_LEVELS,
        forall|i: int|
            0 <= i < manifest.tables(level).len() ==> {
                let table = #[trigger] manifest.tables(level)[i];
                ||| snapshot < table.snapshot_min
                ||| snapshot > table.snapshot_max
                ||| key.rank() < table.key_min.rank()
                ||| key.rank() > table.key_max.rank()
            },
    ensures
        lookup_tables(manifest.levels@, snapshot, key, level) == lookup_tables(
            manifest.levels@,
            snapshot,
            key,
            level + 1,
        ),
{
    let tables = manifest.tables(level);
    let k = key.rank();
    let pred = |table: TreeTableInfo<K>|
        table.fields().visible_at(snapshot) && table.fields().meets(k, k);
    let hits = meeting_tables(tables, snapshot, k, k);
    if hits.len() > 0 {
        lemma_filter_within(tables, pred, 0);
        let i = choose|i: int| 0 <= i < tables.len() && tables[i] == hits[0];
        assert(manifest.tables(level)[i] == hits[0]);
    }
}

/// Every table that a lookup gives is seen by the snapshot and may hold the key.
pub proof fn law_lookup_gives_tables_of_the_key<K: TableKey>(
    levels: Seq<Level<K>>,
    snapshot: u64,
    key: K,
    level: int,
    i: int,
)
    requires
        0 <= i < lookup_tables(levels, snapshot, key, level).len(),
    ensures
        ({
            let table = lookup_tables(levels, snapshot, key, level)[i];
            &&& table.snapshot_min <= snapshot <= table.snapshot_max
            &&& table.key_min.rank() <= key.rank() <= table.key_max.rank()
        }),
    decreases LSM_LEVELS - level,
{
    let rest = lookup_tables(levels, snapshot, key, level + 1);
    let here = lookup_tables(levels, snapshot, key, level);
    let k = key.rank();
    let hits = meeting_tables(levels[level]@, snapshot, k, k);
    if here.len() == rest.len() {
        law_lookup_gives_tables_of_the_key(levels, snapshot, key, level + 1, i);
    } else if i > 0 {
        assert(here[i] == rest[i - 1]);
        law_lookup_gives_tables_of_the_key(levels, snapshot, key, level + 1, i - 1);
    } else {
        lemma_filter_within(
            levels[level]@,
            |table: TreeTableInfo<K>|
                table.fields().visible_at(snapshot) && table.fields().meets(k, k),
            0,
        );
    }
}

/// The range of two ranges holds both, and no less will do.
pub proof fn law_span_is_the_least<K: TableKey>(a: KeyRange<K>, b: KeyRange<K>)
    ensures
        ({
            let span = span_with(Some(a), b);
            &&& span.key_min.rank() <= a.key_min.rank()
            &&& span.key_min.rank() <= b.key_min.rank()
            &&& span.key_max.rank() >= a.key_max.rank()
            &&& span.key_max.rank() >= b.key_max.rank()
            &&& span.key_min == a.key_min || span.key_min == b.key_min
            &&& span.key_max == a.key_max || span.key_max == b.key_max
        }),
        span_with(None, b) == b,
{
}

/// The ends of the key range of a manifest are keys of tables that the latest snapshot sees.
pub proof fn law_key_range_is_no_wider_than_its_tables<K: TableKey>(
    levels: Seq<Level<K>>,
    count: int,
)
    requires
        0 <= count <= levels.len(),
    ensures
        levels_span(levels, count) matches Some(range) ==> {
            &&& exists|level: int, i: int|
                0 <= level < count && 0 <= i < levels[level]@.len() && (
                #[trigger] levels[level]@[i]).key_min == range.key_min
            &&& exists|level: int, i: int|
                0 <= level < count && 0 <= i < levels[level]@.len() && (
                #[trigger] levels[level]@[i]).key_max == range.key_max
        },
    decreases count,
{
    if count > 0 {
        law_key_range_is_no_wider_than_its_tables(levels, count - 1);
        let tables = levels[count - 1]@;
        let seen = visible_tables(tables, SNAPSHOT_LATEST);
        if seen.len() > 0 {
            let pred = |table: TreeTableInfo<K>| table.fields().visible_at(SNAPSHOT_LATEST);
            lemma_filter_within(tables, pred, 0);
            lemma_filter_within(tables, pred, seen.len() - 1);
            let i = choose|i: int| 0 <= i < tables.len() && tables[i] == seen[0];
            let j = choose|j: int| 0 <= j < tables.len() && tables[j] == seen[seen.len() - 1];
            assert(levels[count - 1]@[i].key_min == seen.first().fields().key_min);
            assert(levels[count - 1]@[j].key_max == seen.last().fields().key_max);
        }
        if levels_span(levels, count - 1) is Some {
            let above = levels_span(levels, count - 1)->0;
            let (l, i) = choose|level: int, i: int|
                0 <= level < count - 1 && 0 <= i < levels[level]@.len() && (
                #[trigger] levels[level]@[i]).key_min == above.key_min;
            let (m, j) = choose|level: int, i: int|
                0 <= level < count - 1 && 0 <= i < levels[level]@.len() && (
                #[trigger] levels[level]@[i]).key_max == above.key_max;
            assert(levels[l]@[i].key_min == above.key_min);
            assert(levels[m]@[j].key_max == above.key_max);
        }
    }
}

/// Keys are stored with their least significant byte first, and zeroes up to 32 bytes. Of a wide
/// key the prefix comes first.
pub proof fn law_keys_are_stored_padded(narrow: u64, wide: u128, widest: U256)
    ensures
        narrow.spec_to_bytes() == le_bytes(narrow as nat, 8) + zeroes(24),
        narrow.spec_to_bytes().len() == 32,
        wide.spec_to_bytes() == le_bytes(wide as nat, 16) + zeroes(16),
        wide.spec_to_bytes().len() == 32,
        widest.spec_to_bytes().subrange(0, 16) == le_bytes(widest.spec_hi() as nat, 16),
        widest.spec_to_bytes().subrange(16, 24) == le_bytes(widest.spec_lo() as nat, 8),
        widest.spec_to_bytes().len() == 32,
{
    lemma_le_bytes_len(narrow as nat, 8);
    lemma_le_bytes_len(wide as nat, 16);
    lemma_le_bytes_len(widest.spec_hi() as nat, 16);
    lemma_le_bytes_len(widest.spec_lo() as nat, 8);
}

} // verus!
