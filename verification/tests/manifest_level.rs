use tigerbeetle::constants::LSM_GROWTH_FACTOR;
use tigerbeetle::direction::Direction;
use tigerbeetle::manifest_level::{
    KeyMaxSnapshotMin, KeyRange, LevelTableInfo, ManifestLevel, ManifestLevelSpec, TableFields,
    Visibility, SNAPSHOT_LATEST,
};

/// A small generator of numbers that look random.
struct Prng {
    state: u64,
}

impl Prng {
    fn from_seed(seed: u64) -> Self {
        Prng { state: seed.wrapping_mul(0x9e37_79b9_7f4a_7c15) ^ 0x1234_5678_9abc_def1 }
    }

    fn next(&mut self) -> u64 {
        self.state ^= self.state << 13;
        self.state ^= self.state >> 7;
        self.state ^= self.state << 17;
        self.state.wrapping_mul(0x2545_f491_4f6c_dd1d)
    }

    fn up_to(&mut self, max: u64) -> u64 {
        self.next() % (max + 1)
    }

    fn range(&mut self, min: usize, max: usize) -> usize {
        min + self.up_to((max - min) as u64) as usize
    }
}

#[derive(Clone, Copy, Debug, Default, PartialEq, Eq)]
struct TestTableInfo {
    checksum: u128,
    address: u64,
    snapshot_min: u64,
    snapshot_max: u64,
    key_min: u64,
    key_max: u64,
    value_count: u32,
}

impl LevelTableInfo for TestTableInfo {
    type Key = u64;

    fn fields(self) -> TableFields<u64> {
        TableFields {
            checksum: self.checksum,
            address: self.address,
            snapshot_min: self.snapshot_min,
            snapshot_max: self.snapshot_max,
            key_min: self.key_min,
            key_max: self.key_max,
            value_count: self.value_count,
        }
    }

    fn fields_injective(_a: Self, _b: Self) {}

    fn checksum(&self) -> u128 {
        self.checksum
    }

    fn address(&self) -> u64 {
        self.address
    }

    fn snapshot_min(&self) -> u64 {
        self.snapshot_min
    }

    fn snapshot_max(&self) -> u64 {
        self.snapshot_max
    }

    fn set_snapshot_max(&mut self, snapshot_max: u64) {
        self.snapshot_max = snapshot_max;
    }

    fn key_min(&self) -> u64 {
        self.key_min
    }

    fn key_max(&self) -> u64 {
        self.key_max
    }

    fn value_count(&self) -> u32 {
        self.value_count
    }
}

struct Spec<const KEYS: usize, const TABLES: usize, const COUNT: u32>;

impl<const KEYS: usize, const TABLES: usize, const COUNT: u32> ManifestLevelSpec
    for Spec<KEYS, TABLES, COUNT>
{
    type Key = u64;
    type TableInfo = TestTableInfo;
    type TableSortKey = u128;

    const TABLE_COUNT_MAX_TREE: u32 = COUNT;
    const KEYS_NODE_CAPACITY: usize = KEYS;
    const TABLES_NODE_CAPACITY: usize = TABLES;

    fn sort_key_of(table_info: TestTableInfo) -> u128 {
        Self::table_sort_key(&table_info)
    }

    fn sort_key_orders(_a: TestTableInfo, _b: TestTableInfo) {}

    fn table_sort_key(table_info: &TestTableInfo) -> u128 {
        (KeyMaxSnapshotMin { snapshot_min: table_info.snapshot_min, key_max: table_info.key_max })
            .to_int()
    }
}

type SpecNode256Max33 = Spec<32, 4, 33>;
type SpecNode256Max34 = Spec<32, 4, 34>;
type SpecNode256Max1024 = Spec<32, 4, 1024>;
type SpecNode512Max1024 = Spec<64, 8, 1024>;
type SpecNode1024Max1024 = Spec<128, 16, 1024>;

enum Action {
    InsertTables,
    CreateSnapshot,
    DeleteTables,
    DropSnapshot,
}

fn weighted_action(prng: &mut Prng, weights: (u64, u64, u64, u64)) -> Action {
    let roll = prng.up_to(weights.0 + weights.1 + weights.2 + weights.3 - 1);
    if roll < weights.0 {
        Action::InsertTables
    } else if roll < weights.0 + weights.1 {
        Action::CreateSnapshot
    } else if roll < weights.0 + weights.1 + weights.2 {
        Action::DeleteTables
    } else {
        Action::DropSnapshot
    }
}

struct TestContext<S: ManifestLevelSpec<Key = u64, TableInfo = TestTableInfo>> {
    prng: Prng,
    level: ManifestLevel<S>,
    snapshot_max: u64,
    snapshots: Vec<u64>,
    snapshot_tables: Vec<Vec<TestTableInfo>>,
    /// Contains only tables that were not deleted.
    reference: Vec<TestTableInfo>,
    inserts: u64,
    removes: u64,
}

impl<S: ManifestLevelSpec<Key = u64, TableInfo = TestTableInfo>> TestContext<S> {
    fn new() -> Self {
        Self {
            prng: Prng::from_seed(42),
            level: ManifestLevel::new(),
            snapshot_max: 1,
            snapshots: Vec::new(),
            snapshot_tables: Vec::new(),
            reference: Vec::new(),
            inserts: 0,
            removes: 0,
        }
    }

    fn run(&mut self) {
        for weights in [(60, 10, 25, 5), (35, 5, 50, 10)] {
            for _ in 0..(S::TABLE_COUNT_MAX_TREE as usize) * 2 {
                match weighted_action(&mut self.prng, weights) {
                    Action::InsertTables => self.insert_tables(),
                    Action::CreateSnapshot => self.create_snapshot(),
                    Action::DeleteTables => self.delete_tables(),
                    Action::DropSnapshot => self.drop_snapshot(),
                }
            }
        }
        self.remove_all();
    }

    fn insert_tables(&mut self) {
        let count_free = (S::TABLE_COUNT_MAX_TREE - self.level.len()) as usize;
        if count_free == 0 {
            return;
        }

        let count = self.prng.range(1, count_free.min(13));
        let mut buffer = Vec::with_capacity(count);

        let mut key = self.prng.up_to(u64::from(S::TABLE_COUNT_MAX_TREE) * 64);
        for _ in 0..count {
            let table = self.random_greater_non_overlapping_table(key);
            key = table.key_max;
            buffer.push(table);
        }

        for table in &buffer {
            self.level.insert_table(table);
        }

        for table in &buffer {
            let index = self.reference.partition_point(|other| other.key_min < table.key_max);
            // Can't be equal as the tables may not overlap.
            if index < self.reference.len() {
                assert!(self.reference[index].key_min > table.key_max);
            }
            self.reference.insert(index, *table);
        }

        self.inserts += count as u64;

        self.verify();
    }

    fn random_greater_non_overlapping_table(&mut self, key: u64) -> TestTableInfo {
        let mut new_key_min = key + self.prng.range(1, 31) as u64;
        assert!(new_key_min > key);

        let i = self.reference.partition_point(|other| other.key_min < new_key_min);
        if i > 0 && new_key_min <= self.reference[i - 1].key_max {
            new_key_min = self.reference[i - 1].key_max + 1;
        }

        let mut next_key_min = u64::MAX;
        for table in &self.reference[i..] {
            if new_key_min < table.key_min {
                next_key_min = table.key_min;
                break;
            }
            assert_eq!(new_key_min, table.key_min);
            new_key_min = table.key_max + 1;
        }

        let max_delta = 32.min(next_key_min - 1 - new_key_min);
        let new_key_max = new_key_min + self.prng.up_to(max_delta);

        TestTableInfo {
            checksum: u128::from(self.prng.next()),
            address: 1 + self.prng.up_to(u64::MAX - 2),
            snapshot_max: u64::MAX,
            snapshot_min: self.take_snapshot(),
            key_min: new_key_min,
            key_max: new_key_max,
            value_count: self.prng.next() as u32,
        }
    }

    fn take_snapshot(&mut self) -> u64 {
        assert!(self.snapshot_max > 0);
        assert!(self.snapshot_max < SNAPSHOT_LATEST - 1);
        self.snapshot_max += 1;
        self.snapshot_max
    }

    fn create_snapshot(&mut self) {
        if self.snapshots.len() >= 8 {
            return;
        }
        let snapshot = self.take_snapshot();
        self.snapshots.push(snapshot);
        self.snapshot_tables.push(self.reference.clone());
    }

    fn drop_snapshot(&mut self) {
        if self.snapshots.is_empty() {
            return;
        }
        let index = self.prng.range(0, self.snapshots.len() - 1);
        self.snapshots.swap_remove(index);
        self.snapshot_tables.swap_remove(index);

        let mut tables: Vec<TestTableInfo> = Vec::new();
        let direction =
            if self.prng.up_to(1) == 1 { Direction::Ascending } else { Direction::Descending };
        let mut it = self.level.iterator(Visibility::Invisible, &self.snapshots, direction, None);
        while let Some(table) = it.next() {
            tables.push(*table);
        }
        if direction == Direction::Descending {
            tables.reverse();
        }
        for table in &tables {
            self.level.remove_table(table);
        }
    }

    fn delete_tables(&mut self) {
        let reference_len = self.reference.len();
        if reference_len == 0 {
            return;
        }

        let count = self.prng.range(1, reference_len.min(13));
        assert!(reference_len <= S::TABLE_COUNT_MAX_TREE as usize);
        let index = self.prng.range(0, reference_len - count);

        let snapshot = self.take_snapshot();

        let mut modified = self.reference[index..index + count].to_vec();
        for table in &mut modified {
            let found = self.level.find(table).expect("the level holds the table");
            assert!(found.table_info.equal(table));
            self.level.set_snapshot_max(snapshot, found);
            table.set_snapshot_max(snapshot);
        }

        for tables in &mut self.snapshot_tables {
            for table in tables.iter_mut() {
                for modified_table in &modified {
                    if table.address == modified_table.address {
                        table.set_snapshot_max(snapshot);
                        assert!(table.equal(modified_table));
                    }
                }
            }
        }

        for table in &modified {
            if table.invisible(&self.snapshots) {
                self.level.remove_table(table);
            }
        }

        self.reference.drain(index..index + count);
        self.removes += count as u64;

        self.verify();
    }

    fn remove_all(&mut self) {
        while !self.snapshots.is_empty() {
            self.drop_snapshot();
        }
        while !self.reference.is_empty() {
            self.delete_tables();
        }

        assert_eq!(self.level.len(), 0);
        assert!(self.inserts > 0);
        assert_eq!(self.inserts, self.removes);

        self.verify();
    }

    fn verify(&mut self) {
        let reference = self.reference.clone();
        self.verify_snapshot(SNAPSHOT_LATEST, &reference);

        for i in 0..self.snapshots.len() {
            let tables = self.snapshot_tables[i].clone();
            self.verify_snapshot(self.snapshots[i], &tables);
        }
    }

    fn visible(
        &self,
        snapshot: u64,
        direction: Direction,
        key_range: KeyRange<u64>,
    ) -> Vec<TestTableInfo> {
        let snapshots = [snapshot];
        let mut it =
            self.level.iterator(Visibility::Visible, &snapshots, direction, Some(key_range));
        let mut tables = Vec::new();
        while let Some(table) = it.next() {
            tables.push(*table);
        }
        assert!(it.next().is_none());
        if direction == Direction::Descending {
            tables.reverse();
        }
        tables
    }

    fn verify_snapshot(&mut self, snapshot: u64, reference: &[TestTableInfo]) {
        let full_range = KeyRange { key_min: 0, key_max: u64::MAX };
        assert_eq!(self.visible(snapshot, Direction::Ascending, full_range), reference);
        assert_eq!(self.visible(snapshot, Direction::Descending, full_range), reference);

        if !reference.is_empty() {
            let start = self.prng.range(0, reference.len() - 1);
            let end = self.prng.range(start, reference.len() - 1);
            let range =
                KeyRange { key_min: reference[start].key_min, key_max: reference[end].key_max };
            let expect = &reference[start..=end];
            assert_eq!(self.visible(snapshot, Direction::Ascending, range), expect);
            assert_eq!(self.visible(snapshot, Direction::Descending, range), expect);
        }
    }

    fn run_fuzz_overlap() {
        let a_tables_max = 20;
        let max_overlap = LSM_GROWTH_FACTOR as usize;

        let mut prng = Prng::from_seed(42);

        for _ in 0..100 {
            let mut level_a: ManifestLevel<S> = ManifestLevel::new();
            let mut level_b: ManifestLevel<S> = ManifestLevel::new();

            let count_a = prng.range(1, a_tables_max);
            // By the pigeonhole principle, some table of A overlaps with few of B.
            let count_b = prng.range(0, count_a * max_overlap);

            let mut key = prng.up_to(500);
            for _ in 0..count_a {
                key += prng.range(1, 31) as u64;
                let key_min = key;
                key += prng.up_to(32);
                level_a.insert_table(&random_table(key_min, key, &mut prng));
            }

            let mut key = prng.up_to(500);
            for _ in 0..count_b {
                key += prng.range(1, 31) as u64;
                let key_min = key;
                key += prng.up_to(32);
                level_b.insert_table(&random_table(key_min, key, &mut prng));
            }

            let expected = brute_force_least_overlap::<S>(&level_a, &level_b, max_overlap);

            let result = level_a.table_with_least_overlap(&level_b, SNAPSHOT_LATEST, max_overlap);

            assert_eq!(expected.0.key_min, result.table.table_info.key_min);
            assert_eq!(expected.0.key_max, result.table.table_info.key_max);
            assert_eq!(expected.1.len(), result.range.tables.count());
            for (expected_b, actual_b) in expected.1.iter().zip(result.range.tables.slice()) {
                assert_eq!(expected_b.key_min, actual_b.table_info.key_min);
                assert_eq!(expected_b.key_max, actual_b.table_info.key_max);
            }
        }
    }
}

fn random_table(key_min: u64, key_max: u64, prng: &mut Prng) -> TestTableInfo {
    TestTableInfo {
        checksum: u128::from(prng.next()),
        address: 1 + prng.up_to(u64::MAX - 2),
        snapshot_max: u64::MAX,
        snapshot_min: 1,
        key_min,
        key_max,
        value_count: prng.next() as u32,
    }
}

fn brute_force_least_overlap<S: ManifestLevelSpec<Key = u64, TableInfo = TestTableInfo>>(
    level_a: &ManifestLevel<S>,
    level_b: &ManifestLevel<S>,
    max_overlap: usize,
) -> (TestTableInfo, Vec<TestTableInfo>) {
    let snapshots = [SNAPSHOT_LATEST];
    let mut best: Option<(TestTableInfo, Vec<TestTableInfo>)> = None;

    let mut it_a = level_a.iterator(Visibility::Visible, &snapshots, Direction::Ascending, None);
    while let Some(table_a) = it_a.next() {
        let mut overlapping = Vec::new();
        let mut it_b =
            level_b.iterator(Visibility::Visible, &snapshots, Direction::Ascending, None);
        while let Some(table_b) = it_b.next() {
            if table_b.key_max >= table_a.key_min && table_b.key_min <= table_a.key_max {
                overlapping.push(*table_b);
            }
        }
        let better = match &best {
            Some((_, tables)) => overlapping.len() < tables.len(),
            None => true,
        };
        if overlapping.len() <= max_overlap && better {
            best = Some((*table_a, overlapping));
        }
    }
    best.expect("a candidate always exists")
}

#[test]
fn manifest_level_node_256_count_33() {
    TestContext::<SpecNode256Max33>::new().run();
}

#[test]
fn manifest_level_node_256_count_34() {
    TestContext::<SpecNode256Max34>::new().run();
}

#[test]
fn manifest_level_node_256_count_1024() {
    TestContext::<SpecNode256Max1024>::new().run();
}

#[test]
fn manifest_level_node_512_count_1024() {
    TestContext::<SpecNode512Max1024>::new().run();
}

#[test]
fn manifest_level_node_1024_count_1024() {
    TestContext::<SpecNode1024Max1024>::new().run();
}

#[test]
fn fuzz_table_with_least_overlap_random_levels() {
    TestContext::<SpecNode256Max1024>::run_fuzz_overlap();
}

#[test]
fn key_max_snapshot_min_packs_the_key_above_the_snapshot() {
    let pair = KeyMaxSnapshotMin { snapshot_min: 7, key_max: 9_u64 };
    assert_eq!(pair.to_int(), (9_u128 << 64) | 7);
    let unpacked = KeyMaxSnapshotMin::from_int(pair.to_int());
    assert_eq!((unpacked.snapshot_min, unpacked.key_max), (7, 9));
}

#[test]
fn levels_track_what_is_visible() {
    let mut prng = Prng::from_seed(7);
    let mut level = ManifestLevel::<SpecNode256Max33>::new();
    assert!(level.key_range_latest().is_none());
    let first = random_table(10, 20, &mut prng);
    let second = random_table(30, 40, &mut prng);
    level.insert_table(&first);
    level.insert_table(&second);
    let range = level.key_range_latest().expect("there are tables");
    assert_eq!((range.key_min, range.key_max), (10, 40));
    assert_eq!(level.table_count_visible(), 2);
    assert_eq!(
        level.value_count_visible(),
        u64::from(first.value_count) + u64::from(second.value_count)
    );
    assert!(level.key_range_latest_contains(25));
    assert!(!level.key_range_latest_contains(41));

    let found = level.find(&first).expect("the table is there");
    assert_eq!(found.generation, level.generation());
    level.set_snapshot_max(5, found);
    assert_eq!(level.table_count_visible(), 1);
    assert_eq!(level.value_count_visible(), u64::from(second.value_count));
    assert_eq!(level.len(), 2);

    level.reset();
    assert_eq!(level.len(), 0);
    assert!(!level.contains(&second));
}

#[test]
fn overlapping_tables_are_limited() {
    let mut prng = Prng::from_seed(7);
    let mut level = ManifestLevel::<SpecNode256Max33>::new();
    for key in [10, 20, 30] {
        level.insert_table(&random_table(key, key + 5, &mut prng));
    }
    let range = level
        .tables_overlapping_with_key_range(14, 22, SNAPSHOT_LATEST, 2)
        .expect("two tables meet the range");
    assert_eq!(range.tables.count(), 2);
    assert_eq!((range.key_min, range.key_max), (10, 25));
    assert!(level.tables_overlapping_with_key_range(14, 22, SNAPSHOT_LATEST, 1).is_none());
    let empty = level
        .tables_overlapping_with_key_range(16, 18, SNAPSHOT_LATEST, 0)
        .expect("nothing meets the range");
    assert_eq!((empty.key_min, empty.key_max), (16, 18));
}
