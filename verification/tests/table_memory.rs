use tigerbeetle::direction::Direction;
use tigerbeetle::scratch_memory::ScratchMemory;
use tigerbeetle::table_memory::{
    ImmutableState, ImmutableTableIterator, KeyRange, Mutability, Table, TableMemory, Usage,
};

#[derive(Clone, Copy, Debug, Default, PartialEq, Eq)]
struct TValue {
    key: u32,
    version: u32,
    tombstone: bool,
}

struct GeneralTable;

impl Table for GeneralTable {
    type Key = u32;
    type Value = TValue;

    const VALUE_COUNT_MAX: usize = 16;
    const USAGE: Usage = Usage::General;

    fn key_from_value(value: &TValue) -> u32 {
        value.key
    }

    fn tombstone(value: &TValue) -> bool {
        value.tombstone
    }
}

struct SecondaryTable;

impl Table for SecondaryTable {
    type Key = u32;
    type Value = TValue;

    const VALUE_COUNT_MAX: usize = 16;
    const USAGE: Usage = Usage::SecondaryIndex;

    fn key_from_value(value: &TValue) -> u32 {
        value.key
    }

    fn tombstone(value: &TValue) -> bool {
        value.tombstone
    }
}

fn create_table_immutable() -> TableMemory<GeneralTable> {
    TableMemory::new(Mutability::Immutable(ImmutableState::empty()), "immutable", 16)
}

fn create_table_mutable() -> TableMemory<GeneralTable> {
    TableMemory::new(Mutability::Mutable, "mutable", 16)
}

fn v(key: u32, version: u32, tombstone: bool) -> TValue {
    TValue { key, version, tombstone }
}

fn drain<T: Table<Key = u32, Value = TValue>>(
    mut iterator: ImmutableTableIterator<'_, T>,
) -> Vec<TValue> {
    let mut merged: Vec<TValue> = Vec::new();
    while let Some(value) = iterator.pop() {
        merged.push(value);
    }
    merged
}

#[test]
fn merge_and_absorb_last_wins_across_streams() {
    let mut radix_buffer = ScratchMemory::<TValue>::new(16);

    let mut table_immutable = create_table_immutable();
    let mut table_mutable = create_table_mutable();

    table_mutable.put(&v(2, 0, false));
    table_mutable.put(&v(4, 0, false));
    table_mutable.sort(&mut radix_buffer);

    table_immutable.compact(&mut table_mutable, 0);
    assert_eq!(table_mutable.count(), 0);

    table_mutable.put(&v(2, 1, false));
    table_mutable.put(&v(5, 0, false));
    table_mutable.sort(&mut radix_buffer);

    table_immutable.absorb(&mut table_mutable, 0, &mut radix_buffer);

    assert_eq!(table_mutable.count(), 0);
    assert_eq!(table_immutable.count(), 4);
    assert_eq!(table_immutable.value_context().run_tracker.count(), 2);

    // Both runs are kept, but the newest version is read.
    let Some(latest) = table_immutable.get(2) else {
        panic!("key 2 present");
    };
    assert_eq!(latest.version, 1);
    assert!(!latest.tombstone);

    let run_1_context = table_immutable.iterator_context();
    let iterator =
        ImmutableTableIterator::<GeneralTable>::new(run_1_context, None, Direction::Ascending);
    let merged = drain(iterator);

    assert_eq!(merged.len(), 3);
    assert_eq!(merged, vec![v(2, 1, false), v(4, 0, false), v(5, 0, false)]);
}

#[test]
fn compact_and_deduplicate_across_runs() {
    let mut radix_buffer = ScratchMemory::<TValue>::new(16);

    let mut table_immutable = create_table_immutable();
    let mut table_mutable = create_table_mutable();

    table_mutable.put(&v(2, 0, false));
    table_mutable.put(&v(2, 1, false));
    table_mutable.sort_suffix(&mut radix_buffer);

    table_mutable.put(&v(2, 2, false));
    table_mutable.put(&v(2, 3, false));
    table_mutable.sort_suffix(&mut radix_buffer);

    table_immutable.compact(&mut table_mutable, 0);
    assert_eq!(table_mutable.count(), 0);
    assert_eq!(table_immutable.count(), 2);
    assert_eq!(table_immutable.value_context().run_tracker.count(), 2);

    let Some(latest) = table_immutable.get(2) else {
        panic!("key 2 present");
    };
    assert_eq!(latest.version, 3);

    let merge_context = table_immutable.iterator_context();
    let iterator =
        ImmutableTableIterator::<GeneralTable>::new(merge_context, None, Direction::Ascending);
    let merged = drain(iterator);

    assert_eq!(merged.len(), 1);
    assert_eq!(merged, vec![v(2, 3, false)]);
}

#[test]
fn secondary_annihilation_yields_zero_after_deduplicate() {
    let mut radix_buffer = ScratchMemory::<TValue>::new(16);

    let mut table_immutable = TableMemory::<SecondaryTable>::new(
        Mutability::Immutable(ImmutableState::empty()),
        "immutable",
        16,
    );
    let mut table_mutable =
        TableMemory::<SecondaryTable>::new(Mutability::Mutable, "mutable", 16);

    table_mutable.put(&v(2, 0, false));
    table_mutable.put(&v(2, 0, true));
    table_mutable.sort_suffix(&mut radix_buffer);

    table_immutable.compact(&mut table_mutable, 0);
    assert_eq!(table_mutable.count(), 0);
    assert_eq!(table_immutable.count(), 0);
}

#[test]
fn iterator_context_range_slices_streams() {
    let mut radix_buffer = ScratchMemory::<TValue>::new(16);

    let mut table_immutable = create_table_immutable();
    let mut table_mutable = create_table_mutable();

    for &(key, version) in &[(1_u32, 0_u32), (3, 0), (5, 0), (7, 0)] {
        table_mutable.put(&v(key, version, false));
    }
    table_mutable.sort(&mut radix_buffer);
    table_immutable.compact(&mut table_mutable, 0);

    let range = KeyRange::<GeneralTable> { min: 3, max: 5 };
    let context = table_immutable.iterator_context_range(range);
    let iterator = ImmutableTableIterator::<GeneralTable>::new(context, None, Direction::Ascending);
    assert_eq!(drain(iterator), vec![v(3, 0, false), v(5, 0, false)]);

    // Nothing is left of a range out of reach.
    let range = KeyRange::<GeneralTable> { min: 100, max: 200 };
    let context = table_immutable.iterator_context_range(range);
    assert_eq!(context.streams_count, 0);
    let mut iterator =
        ImmutableTableIterator::<GeneralTable>::new(context, None, Direction::Ascending);
    assert!(iterator.pop().is_none());
    assert_eq!(iterator.count_remaining(), 0);
}

#[test]
fn probe_advances_past_preceding_keys() {
    let mut radix_buffer = ScratchMemory::<TValue>::new(16);

    let mut table_immutable = create_table_immutable();
    let mut table_mutable = create_table_mutable();

    for key in [2_u32, 4, 6, 8] {
        table_mutable.put(&v(key, 0, false));
    }
    table_mutable.sort(&mut radix_buffer);
    table_immutable.compact(&mut table_mutable, 0);

    let context = table_immutable.iterator_context();
    let mut iterator =
        ImmutableTableIterator::<GeneralTable>::new(context, None, Direction::Ascending);

    iterator.probe(6);
    assert_eq!(iterator.pop().map(|value| value.key), Some(6));
    assert_eq!(iterator.pop().map(|value| value.key), Some(8));
    assert_eq!(iterator.pop().map(|value| value.key), None);
}

/// A table with the runs 1 4 6, 4 5, 6 7.
fn three_runs() -> TableMemory<GeneralTable> {
    let mut radix_buffer = ScratchMemory::<TValue>::new(16);
    let mut table_immutable = create_table_immutable();
    let mut table_mutable = create_table_mutable();
    for (version, keys) in [vec![6, 1, 4], vec![5, 4], vec![7, 6]].into_iter().enumerate() {
        for key in keys {
            table_mutable.put(&v(key, version as u32, false));
        }
        table_mutable.sort_suffix(&mut radix_buffer);
    }
    table_immutable.compact(&mut table_mutable, 9);
    table_immutable
}

#[test]
fn iteration_gives_the_latest_version_in_both_directions() {
    let table = three_runs();
    let expected = vec![
        v(1, 0, false),
        v(4, 1, false),
        v(5, 1, false),
        v(6, 2, false),
        v(7, 2, false),
    ];

    let ascending = ImmutableTableIterator::<GeneralTable>::new(
        table.iterator_context(),
        None,
        Direction::Ascending,
    );
    assert_eq!(ascending.count_max(), 7);
    assert_eq!(drain(ascending), expected);

    let descending = ImmutableTableIterator::<GeneralTable>::new(
        table.iterator_context(),
        None,
        Direction::Descending,
    );
    let mut reversed = drain(descending);
    reversed.reverse();
    assert_eq!(reversed, expected);
}

#[test]
fn iteration_counts_what_it_drops() {
    let table = three_runs();
    let mut iterator = ImmutableTableIterator::<GeneralTable>::new(
        table.iterator_context(),
        None,
        Direction::Ascending,
    );
    assert_eq!(iterator.count_remaining(), 7);
    assert_eq!(iterator.peek(), Some(1));
    assert_eq!(iterator.peek(), Some(1));
    let mut given = 0;
    while iterator.pop().is_some() {
        given += 1;
    }
    assert_eq!(given, 5);
    assert_eq!(iterator.count_dropped(), 2);
    assert_eq!(iterator.count_remaining(), 0);
    assert_eq!(iterator.peek(), None);
}

#[test]
fn iteration_stops_at_the_end_key() {
    let table = three_runs();
    let up = ImmutableTableIterator::<GeneralTable>::new(
        table.iterator_context(),
        Some(5),
        Direction::Ascending,
    );
    assert_eq!(drain(up).iter().map(|value| value.key).collect::<Vec<_>>(), vec![1, 4, 5]);
    let down = ImmutableTableIterator::<GeneralTable>::new(
        table.iterator_context(),
        Some(5),
        Direction::Descending,
    );
    assert_eq!(drain(down).iter().map(|value| value.key).collect::<Vec<_>>(), vec![7, 6, 5]);
}

#[test]
fn key_bounds_span_all_runs() {
    let table = three_runs();
    assert_eq!(table.key_min(), 1);
    assert_eq!(table.key_max(), 7);
    assert_eq!(table.get(4).map(|value| value.version), Some(1));
    assert_eq!(table.get(6).map(|value| value.version), Some(2));
    assert_eq!(table.get(3), None);
}

#[test]
fn put_extends_the_last_run() {
    let mut radix_buffer = ScratchMemory::<TValue>::new(16);
    let mut table = create_table_mutable();
    table.put(&v(3, 0, false));
    // There is no run yet.
    assert_eq!(table.get(3), None);
    table.sort(&mut radix_buffer);
    assert_eq!(table.value_context().run_tracker.count(), 1);
    table.put(&v(4, 0, false));
    assert_eq!(table.get(4).map(|value| value.key), Some(4));
    table.put(&v(4, 1, false));
    assert_eq!(table.get(4).map(|value| value.version), Some(0));
    table.sort_suffix(&mut radix_buffer);
    assert_eq!(table.value_context().run_tracker.count(), 2);
    assert_eq!(table.get(4).map(|value| value.version), Some(1));
    assert_eq!(table.values_used(), &[v(3, 0, false), v(4, 0, false), v(4, 1, false)]);
}

#[test]
fn sorting_reduces_versions() {
    let mut radix_buffer = ScratchMemory::<TValue>::new(16);
    let mut general = create_table_mutable();
    for value in [v(5, 0, false), v(1, 1, false), v(5, 2, true), v(1, 3, false)] {
        general.put(&value);
    }
    general.sort(&mut radix_buffer);
    assert_eq!(general.values_used(), &[v(1, 3, false), v(5, 2, true)]);

    let mut secondary = TableMemory::<SecondaryTable>::new(Mutability::Mutable, "mutable", 16);
    for value in [v(5, 0, false), v(1, 1, false), v(5, 2, true), v(5, 3, false)] {
        secondary.put(&value);
    }
    secondary.sort(&mut radix_buffer);
    assert_eq!(secondary.values_used(), &[v(1, 1, false), v(5, 3, false)]);
}

#[test]
fn compact_and_absorb_set_the_state() {
    let mut radix_buffer = ScratchMemory::<TValue>::new(16);
    let mut table_immutable = create_table_immutable();
    let mut table_mutable = create_table_mutable();

    table_immutable.compact(&mut table_mutable, 3);
    assert!(matches!(
        table_immutable.mutability(),
        Mutability::Immutable(ImmutableState { flushed: true, absorbed: false, snapshot_min: 3 })
    ));

    // Nothing to absorb.
    table_immutable.absorb(&mut table_mutable, 4, &mut radix_buffer);
    assert!(matches!(
        table_immutable.mutability(),
        Mutability::Immutable(ImmutableState { flushed: true, absorbed: false, snapshot_min: 3 })
    ));

    table_mutable.put(&v(1, 0, false));
    table_mutable.sort(&mut radix_buffer);
    table_immutable.absorb(&mut table_mutable, 5, &mut radix_buffer);
    assert!(matches!(
        table_immutable.mutability(),
        Mutability::Immutable(ImmutableState { flushed: false, absorbed: true, snapshot_min: 5 })
    ));
    assert!(matches!(table_mutable.mutability(), Mutability::Mutable));

    table_immutable.reset();
    assert_eq!(table_immutable.count(), 0);
    assert!(matches!(
        table_immutable.mutability(),
        Mutability::Immutable(ImmutableState { flushed: true, absorbed: false, snapshot_min: 0 })
    ));
}

#[test]
fn absorb_collapses_what_was_there() {
    let mut radix_buffer = ScratchMemory::<TValue>::new(16);
    let mut table_immutable = three_runs();
    let mut table_mutable = create_table_mutable();
    table_mutable.put(&v(4, 8, false));
    table_mutable.sort(&mut radix_buffer);
    table_immutable.absorb(&mut table_mutable, 0, &mut radix_buffer);

    assert_eq!(table_immutable.value_context().run_tracker.count(), 2);
    assert_eq!(
        table_immutable.values_used(),
        &[
            v(1, 0, false),
            v(4, 1, false),
            v(5, 1, false),
            v(6, 2, false),
            v(7, 2, false),
            v(4, 8, false),
        ]
    );
}

#[test]
fn reads_and_iterations_agree() {
    let table = three_runs();
    let iterator = ImmutableTableIterator::<GeneralTable>::new(
        table.iterator_context(),
        None,
        Direction::Ascending,
    );
    let values = drain(iterator);
    for key in 0..10 {
        let iterated = values.iter().find(|value| value.key == key);
        assert_eq!(table.get(key), iterated);
    }
}

#[test]
fn reads_give_back_the_last_write() {
    let mut radix_buffer = ScratchMemory::<TValue>::new(16);
    let mut table = create_table_mutable();
    for version in 0..3 {
        table.put(&v(7, version, false));
        table.put(&v(3, version, false));
        table.put(&v(7, version + 10, false));
        table.sort_suffix(&mut radix_buffer);
        assert_eq!(table.get(7), Some(&v(7, version + 10, false)));
        assert_eq!(table.get(3), Some(&v(3, version, false)));
    }
    assert_eq!(table.get(5), None);
}

#[test]
fn empty_tables_have_nothing_to_flush() {
    assert_eq!(
        ImmutableState::empty(),
        ImmutableState { flushed: true, absorbed: false, snapshot_min: 0 }
    );
    assert_eq!(
        ImmutableState::default(),
        ImmutableState { flushed: false, absorbed: false, snapshot_min: 0 }
    );
    let table = TableMemory::<GeneralTable>::new(
        Mutability::Immutable(ImmutableState::default()),
        "immutable",
        16,
    );
    assert!(matches!(
        table.mutability(),
        Mutability::Immutable(ImmutableState { flushed: true, absorbed: false, snapshot_min: 0 })
    ));
}
