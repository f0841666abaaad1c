use std::cell::Cell;

use tigerbeetle::bounded_array::BoundedArray;
use tigerbeetle::direction::Direction;
use tigerbeetle::manifest::{CompactionRange, Manifest, ManifestLog, TreeTableInfo};
use tigerbeetle::manifest_level::{NextTableParameters, OverlapRange};
use tigerbeetle::schema::manifest_node::{Event, TableInfo as WireTableInfo};
use tigerbeetle::tree::{TreeConfig, SNAPSHOT_LATEST};

/// A mock manifest log that records appended entries.
struct MockLog {
    opened: Cell<bool>,
    entries: Vec<WireTableInfo>,
}

impl MockLog {
    fn new() -> Self {
        Self { opened: Cell::new(false), entries: Vec::new() }
    }

    /// Mark the log as opened — call after `open_commence`.
    fn open(&self) {
        self.opened.set(true);
    }
}

impl ManifestLog for MockLog {
    fn is_opened(&self) -> bool {
        self.opened.get()
    }

    fn append(&mut self, entry: &WireTableInfo) {
        assert!(self.opened.get());
        self.entries.push(*entry);
    }
}

/// Create a log, call `open_commence`, then open it — the standard lifecycle.
fn setup_log(manifest: &mut Manifest<u64>) -> MockLog {
    let log = MockLog::new();
    manifest.open_commence(&log);
    log.open();
    log
}

fn make_table(
    address: u64,
    key_min: u64,
    key_max: u64,
    snapshot_min: u64,
    snapshot_max: u64,
    value_count: u32,
) -> TreeTableInfo<u64> {
    TreeTableInfo {
        checksum: u128::from(address) * 7,
        address,
        snapshot_min,
        snapshot_max,
        key_min,
        key_max,
        value_count,
    }
}

#[test]
fn tree_table_info_encode_decode_round_trip() {
    let table = make_table(100, 10, 20, 5, 100, 77);
    let encoded = table.encode(42, 3, Event::Insert);
    let decoded = TreeTableInfo::<u64>::decode(&encoded, 42);
    assert_eq!(table, decoded);
    assert_eq!(encoded.tree_id, 42);
    assert_eq!(encoded.label.level, 3);
    assert_eq!(encoded.label.event, Event::Insert);
}

#[test]
fn tree_table_info_wire_format_pads_keys() {
    let table = make_table(1, 42, 100, 1, u64::MAX, 1);
    let encoded = table.encode(1, 0, Event::Insert);
    assert!(encoded.key_min[8..].iter().all(|&b| b == 0));
    assert!(encoded.key_max[8..].iter().all(|&b| b == 0));
    let key_min_val = u64::from_le_bytes(encoded.key_min[..8].try_into().unwrap());
    assert_eq!(key_min_val, 42);
}

#[test]
fn insert_table_records_log_entry() {
    let mut manifest = Manifest::<u64>::new(TreeConfig { id: 1, name: "test" });
    let mut log = setup_log(&mut manifest);

    let table = make_table(1, 10, 20, 1, u64::MAX, 5);
    manifest.insert_table(&mut log, 0, &table);

    assert_eq!(log.entries.len(), 1);
    assert_eq!(log.entries[0].label.event, Event::Insert);
    assert_eq!(log.entries[0].address, 1);
}

#[test]
fn update_table_records_log_entry() {
    let mut manifest = Manifest::<u64>::new(TreeConfig { id: 1, name: "test" });
    let mut log = setup_log(&mut manifest);

    let table = make_table(1, 10, 20, 1, u64::MAX, 5);
    manifest.insert_table(&mut log, 0, &table);

    let tref = manifest.levels[0].find(&table).expect("table should be in level 0");
    manifest.update_table(&mut log, 0, 50, tref);

    assert_eq!(log.entries.len(), 2);
    assert_eq!(log.entries[1].label.event, Event::Update);
    assert_eq!(log.entries[1].snapshot_max, 50);
}

#[test]
fn move_table_emits_single_update_at_destination() {
    let mut manifest = Manifest::<u64>::new(TreeConfig { id: 1, name: "test" });
    let mut log = setup_log(&mut manifest);

    let table = make_table(1, 10, 20, 1, u64::MAX, 5);
    manifest.insert_table(&mut log, 0, &table);
    manifest.move_table(&mut log, 0, 1, &table);

    assert_eq!(log.entries.len(), 2);
    assert_eq!(log.entries[1].label.level, 1);
    assert_eq!(log.entries[1].label.event, Event::Update);

    assert!(!manifest.levels[0].contains(&table));
    // Also at level 1:
    assert!(manifest.levels[1].contains(&table));
}

#[test]
fn lookup_iterates_levels_ascending() {
    let mut manifest = Manifest::<u64>::new(TreeConfig { id: 1, name: "test" });
    let mut log = setup_log(&mut manifest);

    let t0 = make_table(1, 10, 20, 1, u64::MAX, 5);
    let t1 = make_table(2, 10, 20, 1, u64::MAX, 3);
    manifest.insert_table(&mut log, 0, &t0);
    manifest.insert_table(&mut log, 1, &t1);

    let mut lookup = manifest.lookup(SNAPSHOT_LATEST, 15, 0);
    let found = lookup.next().expect("should find a table");
    assert_eq!(found.address, 1);
    let found = lookup.next().expect("should find a table");
    assert_eq!(found.address, 2);
    assert!(lookup.next().is_none());
}

#[test]
fn remove_invisible_tables_only_removes_invisible() {
    let mut manifest = Manifest::<u64>::new(TreeConfig { id: 1, name: "test" });
    let mut log = setup_log(&mut manifest);

    let visible = make_table(1, 10, 20, 1, u64::MAX, 5);
    let invisible = make_table(2, 30, 40, 1, 50, 3);
    manifest.insert_table(&mut log, 0, &visible);
    manifest.insert_table(&mut log, 0, &invisible);

    manifest.remove_invisible_tables(&mut log, 0, &[100], 0, u64::MAX);

    let removes: Vec<_> =
        log.entries.iter().filter(|e| e.label.event == Event::Remove).collect();
    assert_eq!(removes.len(), 1);
    assert_eq!(removes[0].address, 2);

    assert!(manifest.levels[0].contains(&visible));
    assert!(!manifest.levels[0].contains(&invisible));
}

#[test]
fn key_range_spans_all_levels() {
    let mut manifest = Manifest::<u64>::new(TreeConfig { id: 1, name: "test" });
    let mut log = setup_log(&mut manifest);

    assert!(manifest.key_range().is_none());

    let t1 = make_table(1, 5, 10, 1, u64::MAX, 5);
    let t2 = make_table(2, 20, 30, 1, u64::MAX, 3);
    manifest.insert_table(&mut log, 0, &t1);
    manifest.insert_table(&mut log, 2, &t2);

    let range = manifest.key_range().expect("should have a range");
    assert_eq!(range.key_min, 5);
    assert_eq!(range.key_max, 30);
}

#[test]
fn compaction_must_drop_tombstones_true_when_no_lower_overlap() {
    let mut manifest = Manifest::<u64>::new(TreeConfig { id: 1, name: "test" });
    let mut log = setup_log(&mut manifest);

    let t = make_table(1, 10, 20, 1, u64::MAX, 5);
    manifest.insert_table(&mut log, 0, &t);

    let range = CompactionRange {
        key_min: 10,
        key_max: 20,
        tables: OverlapRange {
            key_min: 10,
            key_max: 20,
            tables: BoundedArray::new(),
        },
    };
    assert!(manifest.compaction_must_drop_tombstones(0, &range));
}

#[test]
fn compaction_must_drop_tombstones_false_when_lower_overlap() {
    let mut manifest = Manifest::<u64>::new(TreeConfig { id: 1, name: "test" });
    let mut log = setup_log(&mut manifest);

    let t = make_table(1, 10, 20, 1, u64::MAX, 5);
    manifest.insert_table(&mut log, 1, &t);

    let range = CompactionRange {
        key_min: 10,
        key_max: 20,
        tables: OverlapRange {
            key_min: 10,
            key_max: 20,
            tables: BoundedArray::new(),
        },
    };
    assert!(!manifest.compaction_must_drop_tombstones(0, &range));
}

#[test]
fn assert_level_table_counts_passes_for_empty() {
    let manifest = Manifest::<u64>::new(TreeConfig { id: 1, name: "test" });
    assert!(manifest.assert_level_table_counts());
}

#[test]
fn next_table_follows_the_exclusive_key() {
    let mut manifest = Manifest::<u64>::new(TreeConfig { id: 1, name: "test" });
    let mut log = setup_log(&mut manifest);
    for (address, key) in [(1, 10), (2, 30), (3, 50)] {
        let table = make_table(address, key, key + 10, 1, u64::MAX, 5);
        manifest.insert_table(&mut log, 0, &table);
    }

    let next = |key_exclusive, direction| {
        manifest
            .next_table_at(
                0,
                NextTableParameters {
                    snapshot: SNAPSHOT_LATEST,
                    key_min: 0,
                    key_max: 100,
                    key_exclusive,
                    direction,
                },
            )
            .map(|table| table.address)
    };
    assert_eq!(next(None, Direction::Ascending), Some(1));
    assert_eq!(next(Some(20), Direction::Ascending), Some(2));
    assert_eq!(next(Some(60), Direction::Ascending), None);
    assert_eq!(next(None, Direction::Descending), Some(3));
    assert_eq!(next(Some(50), Direction::Descending), Some(2));
    assert_eq!(next(Some(10), Direction::Descending), None);
}

#[test]
fn invisible_tables_are_noticed() {
    let mut manifest = Manifest::<u64>::new(TreeConfig { id: 1, name: "test" });
    let mut log = setup_log(&mut manifest);
    manifest.insert_table(&mut log, 3, &make_table(1, 10, 20, 1, u64::MAX, 5));
    assert!(manifest.assert_no_invisible_tables(&[100]));

    manifest.insert_table(&mut log, 3, &make_table(2, 30, 40, 1, 50, 5));
    assert!(!manifest.assert_no_invisible_tables(&[100]));
    assert!(manifest.assert_no_invisible_tables(&[40]));
}

#[test]
fn full_levels_are_compacted_where_they_overlap_least() {
    let mut manifest = Manifest::<u64>::new(TreeConfig { id: 1, name: "test" });
    let mut log = setup_log(&mut manifest);
    for (address, key) in [(1, 10), (2, 30), (3, 50)] {
        let table = make_table(address, key, key + 10, 1, u64::MAX, 5);
        manifest.insert_table(&mut log, 0, &table);
    }
    assert!(manifest.compaction_table(0).is_none());

    manifest.insert_table(&mut log, 0, &make_table(4, 70, 80, 1, u64::MAX, 5));
    for (address, key) in [(5, 10), (6, 15), (7, 35), (8, 55), (9, 59), (10, 75), (11, 79)] {
        let table = make_table(address, key, key + 2, 1, u64::MAX, 5);
        manifest.insert_table(&mut log, 1, &table);
    }
    let found = manifest.compaction_table(0).expect("the level is full");
    assert_eq!(found.table_a.table_info.address, 2);
    assert_eq!(found.range_b.tables.tables.count(), 1);
    assert_eq!(found.range_b.tables.tables.slice()[0].table_info.address, 7);
    assert_eq!((found.range_b.key_min, found.range_b.key_max), (30, 40));
}

#[test]
fn small_tables_are_coalesced() {
    let mut manifest = Manifest::<u64>::new(TreeConfig { id: 1, name: "test" });
    let mut log = setup_log(&mut manifest);
    for (address, key, value_count) in [(1, 10, 20), (2, 30, 30), (3, 50, 90)] {
        let table = make_table(address, key, key + 5, 1, u64::MAX, value_count);
        manifest.insert_table(&mut log, 0, &table);
    }

    let addresses = |key_min, key_max, value_count| {
        let range = manifest.immutable_table_compaction_range(key_min, key_max, value_count, 100);
        assert!(range.key_min <= key_min && key_max <= range.key_max);
        range.tables.tables.slice().iter().map(|table| table.table_info.address).collect::<Vec<_>>()
    };
    // The neighbours before fit until there are values enough.
    assert_eq!(addresses(40, 45, 5), vec![1, 2]);
    assert_eq!(addresses(40, 45, 25), vec![2]);
    assert_eq!(addresses(40, 45, 60), Vec::<u64>::new());
    // The neighbour past the range is too large.
    assert_eq!(addresses(31, 32, 5), vec![1, 2]);
    assert_eq!(addresses(31, 52, 5), vec![2, 3]);
    assert_eq!(addresses(60, 61, 5), vec![3]);
}

#[test]
fn small_tables_past_the_range_are_coalesced() {
    let mut manifest = Manifest::<u64>::new(TreeConfig { id: 1, name: "test" });
    let mut log = setup_log(&mut manifest);
    for (address, key, value_count) in [(1, 10, 99), (2, 30, 10), (3, 50, 10)] {
        let table = make_table(address, key, key + 5, 1, u64::MAX, value_count);
        manifest.insert_table(&mut log, 0, &table);
    }
    let range = manifest.immutable_table_compaction_range(20, 25, 5, 100);
    let addresses: Vec<u64> =
        range.tables.tables.slice().iter().map(|table| table.table_info.address).collect();
    assert_eq!(addresses, vec![2, 3]);
    assert_eq!((range.key_min, range.key_max), (20, 55));
    let generation = manifest.levels[0].generation();
    assert!(range.tables.tables.slice().iter().all(|table| table.generation == generation));
}

#[test]
fn keys_of_all_widths_are_stored() {
    let table = TreeTableInfo::<u128> {
        checksum: 1,
        address: 2,
        snapshot_min: 3,
        snapshot_max: 4,
        key_min: u128::MAX - 1,
        key_max: u128::MAX,
        value_count: 5,
    };
    let encoded = table.encode(9, 6, Event::Remove);
    assert_eq!(encoded.key_min[..16], (u128::MAX - 1).to_le_bytes());
    assert!(encoded.key_min[16..].iter().all(|&byte| byte == 0));
    assert_eq!(TreeTableInfo::<u128>::decode(&encoded, 9), table);
}

#[test]
fn updates_keep_references_good() {
    let mut manifest = Manifest::<u64>::new(TreeConfig { id: 1, name: "test" });
    let mut log = setup_log(&mut manifest);
    assert_eq!(manifest.levels[0].generation(), 0);
    let a = make_table(1, 10, 20, 1, u64::MAX, 5);
    let b = make_table(2, 30, 40, 1, u64::MAX, 5);
    manifest.insert_table(&mut log, 0, &a);
    manifest.insert_table(&mut log, 0, &b);
    assert_eq!(manifest.levels[0].generation(), 2);

    // Both references were made before either table is updated.
    let a_reference = manifest.levels[0].find(&a).expect("present");
    let b_reference = manifest.levels[0].find(&b).expect("present");
    manifest.update_table(&mut log, 0, 50, a_reference);
    manifest.update_table(&mut log, 0, 50, b_reference);
    assert_eq!(manifest.levels[0].generation(), 2);
    assert_eq!(log.entries.len(), 4);

    let c = make_table(3, 50, 60, 1, u64::MAX, 5);
    manifest.insert_table(&mut log, 0, &c);
    manifest.move_table(&mut log, 0, 1, &c);
    assert_eq!((manifest.levels[0].generation(), manifest.levels[1].generation()), (4, 1));
    manifest.remove_invisible_tables(&mut log, 0, &[], 0, u64::MAX);
    assert_eq!(manifest.levels[0].generation(), 6);
}
