use std::collections::HashMap;
use tigerbeetle::cache_map::{CacheMap, CacheMapOptions, CacheMapSpec, GetOrTombstone};
use tigerbeetle::constants::LSM_COMPACTION_OPS;
use tigerbeetle::set_associative_cache::{Layout, SetAssociativeCacheSpec};
use tigerbeetle::tree::ScopeCloseMode;

#[derive(Clone, Copy, Debug, Default, PartialEq, Eq)]
struct TestValue {
    key: u32,
    value: u32,
    tombstone: bool,
    padding: [u8; 7],
}

impl TestValue {
    fn new(key: u32, value: u32) -> Self {
        Self { key, value, tombstone: false, padding: [0; 7] }
    }
}

#[derive(Clone, Copy, Debug, Default)]
struct TestTable;

impl Layout for TestTable {}

impl SetAssociativeCacheSpec for TestTable {
    type Key = u32;
    type Value = TestValue;

    fn key_from_value(value: &TestValue) -> u32 {
        value.key
    }

    fn hash(key: u32) -> u64 {
        u64::from(key)
    }
}

impl CacheMapSpec for TestTable {
    fn tombstone_from_key(key: u32) -> TestValue {
        TestValue { key, value: 0, tombstone: true, padding: [0; 7] }
    }

    fn tombstone(value: &TestValue) -> bool {
        value.tombstone
    }
}

#[test]
fn cache_map_unit() {
    let cache_value_count_max = CacheMap::<TestTable>::cache_value_count_max_multiple() as u32;
    let mut cache_map = CacheMap::<TestTable>::new(CacheMapOptions {
        cache_value_count_max,
        scope_value_count_max: 32,
        stash_value_count_max: 32,
        name: "test map",
    });

    assert_eq!(cache_map.cache_entries(), 0);
    assert_eq!(cache_map.cache_entries_max(), u64::from(cache_value_count_max));

    cache_map.upsert(&TestValue::new(1, 1));
    assert_eq!(cache_map.cache_entries(), 1);
    assert_eq!(*cache_map.get(1).expect("present"), TestValue::new(1, 1));

    // Test scope persisting.
    cache_map.scope_open();
    cache_map.upsert(&TestValue::new(2, 2));
    assert_eq!(*cache_map.get(2).expect("present"), TestValue::new(2, 2));
    cache_map.scope_close(ScopeCloseMode::Persist);
    assert_eq!(*cache_map.get(2).expect("present"), TestValue::new(2, 2));

    // Test scope discard on updates.
    cache_map.scope_open();
    cache_map.upsert(&TestValue::new(2, 22));
    cache_map.upsert(&TestValue::new(2, 222));
    cache_map.upsert(&TestValue::new(2, 2222));
    assert_eq!(*cache_map.get(2).expect("present"), TestValue::new(2, 2222));
    cache_map.scope_close(ScopeCloseMode::Discard);
    assert_eq!(*cache_map.get(2).expect("present"), TestValue::new(2, 2));

    // Test scope discard on inserts.
    cache_map.scope_open();
    cache_map.upsert(&TestValue::new(3, 3));
    assert_eq!(*cache_map.get(3).expect("present"), TestValue::new(3, 3));
    cache_map.upsert(&TestValue::new(3, 33));
    assert_eq!(*cache_map.get(3).expect("present"), TestValue::new(3, 33));
    cache_map.scope_close(ScopeCloseMode::Discard);
    assert!(!cache_map.has(3));
    assert!(cache_map.get(3).is_none());

    // Test scope discard on removes.
    cache_map.scope_open();
    cache_map.remove(2);
    assert!(!cache_map.has(2));
    assert!(cache_map.get(2).is_none());
    cache_map.scope_close(ScopeCloseMode::Discard);
    assert_eq!(*cache_map.get(2).expect("present"), TestValue::new(2, 2));

    // Test scope discard on a sequence of insert->remove->insert.
    cache_map.upsert(&TestValue::new(4, 4));
    assert_eq!(*cache_map.get(4).expect("present"), TestValue::new(4, 4));

    cache_map.remove(4);
    assert!(!cache_map.has(4));
    assert!(cache_map.get(4).is_none());
    assert!(matches!(cache_map.get_or_tombstone(4), GetOrTombstone::Tombstone));

    cache_map.scope_open();
    cache_map.upsert(&TestValue::new(4, 4));
    cache_map.scope_close(ScopeCloseMode::Discard);

    assert!(!cache_map.has(4));
    assert!(cache_map.get(4).is_none());
    assert!(matches!(cache_map.get_or_tombstone(4), GetOrTombstone::Tombstone));
}

#[test]
fn compaction_drops_the_stash() {
    let mut cache_map = CacheMap::<TestTable>::new(CacheMapOptions {
        cache_value_count_max: 0,
        scope_value_count_max: 4,
        stash_value_count_max: 4,
        name: "no cache",
    });
    cache_map.upsert(&TestValue::new(1, 1));
    cache_map.upsert(&TestValue::new(1, 2));
    cache_map.upsert(&TestValue::new(5, 1));
    assert_eq!(cache_map.cache_entries(), 0);
    assert_eq!(cache_map.cache_entries_max(), 0);
    assert_eq!(cache_map.stash().len(), 2);
    assert!(cache_map.cache().is_none());
    assert_eq!(*cache_map.get(1).expect("present"), TestValue::new(1, 2));
    assert!(matches!(cache_map.get_or_tombstone(2), GetOrTombstone::NotFound));
    cache_map.compact();
    assert!(cache_map.get(1).is_none());
    assert_eq!(cache_map.stash().len(), 0);
}

#[test]
fn evicted_values_are_stashed() {
    let mut cache_map = CacheMap::<TestTable>::new(CacheMapOptions {
        cache_value_count_max: 256,
        scope_value_count_max: 32,
        stash_value_count_max: 32,
        name: "small cache",
    });
    // All of them belong to the first set, which has 16 ways.
    for key in 0..20 {
        cache_map.upsert(&TestValue::new(key, key + 100));
    }
    assert_eq!(cache_map.cache_entries(), 16);
    assert_eq!(cache_map.stash().len(), 4);
    for key in 0..20 {
        assert_eq!(*cache_map.get(key).expect("present"), TestValue::new(key, key + 100));
    }
    cache_map.compact();
    assert_eq!((0..20).filter(|&key| cache_map.has(key)).count(), 16);
    cache_map.reset();
    assert_eq!(cache_map.cache_entries(), 0);
    assert!((0..20).all(|key| !cache_map.has(key)));
}

#[test]
fn a_scope_is_discarded_with_a_full_stash() {
    let mut cache_map = CacheMap::<TestTable>::new(CacheMapOptions {
        cache_value_count_max: 256,
        scope_value_count_max: 32,
        stash_value_count_max: 4,
        name: "small stash",
    });
    // All of them belong to the first set, which has 16 ways.
    for key in 0..19 {
        cache_map.upsert(&TestValue::new(key, key + 100));
    }
    cache_map.scope_open();
    cache_map.upsert(&TestValue::new(18, 0));
    cache_map.upsert(&TestValue::new(19, 119));
    assert_eq!(cache_map.stash().len(), 4);
    cache_map.scope_close(ScopeCloseMode::Discard);
    for key in 0..19 {
        assert_eq!(*cache_map.get(key).expect("present"), TestValue::new(key, key + 100));
    }
    assert!(!cache_map.has(19));
}

#[test]
fn values_that_are_read_stay_longer() {
    let mut cache_map = CacheMap::<TestTable>::new(CacheMapOptions {
        cache_value_count_max: 256,
        scope_value_count_max: 32,
        stash_value_count_max: 32,
        name: "clock",
    });
    // All of them belong to the first set, which has 16 ways.
    for key in 0..16 {
        cache_map.upsert(&TestValue::new(key, key));
    }
    assert!(cache_map.has(0));
    assert!(cache_map.get(1).is_some());
    assert!(matches!(cache_map.get_or_tombstone(2), GetOrTombstone::Found(_)));
    cache_map.upsert(&TestValue::new(16, 16));
    assert_eq!(cache_map.stash().keys().collect::<Vec<_>>(), [&3]);
}

#[test]
fn reads_give_back_the_last_change() {
    for cache_value_count_max in [0, 256] {
        let mut cache_map = CacheMap::<TestTable>::new(CacheMapOptions {
            cache_value_count_max,
            scope_value_count_max: 8,
            stash_value_count_max: 8,
            name: "history",
        });
        cache_map.upsert(&TestValue::new(1, 10));
        cache_map.upsert(&TestValue::new(2, 20));
        cache_map.upsert(&TestValue::new(1, 11));
        cache_map.remove(2);
        let expect = |cache_map: &mut CacheMap<TestTable>| {
            let GetOrTombstone::Found(value) = cache_map.get_or_tombstone(1) else { panic!() };
            assert_eq!(*value, TestValue::new(1, 11));
            assert_eq!(cache_map.get(1).copied(), Some(TestValue::new(1, 11)));
            assert!(matches!(cache_map.get_or_tombstone(2), GetOrTombstone::Tombstone));
            assert_eq!(cache_map.get(2), None);
            assert!(matches!(cache_map.get_or_tombstone(3), GetOrTombstone::NotFound));
            assert_eq!(cache_map.get(3), None);
        };
        expect(&mut cache_map);

        // Whatever is done in a scope, nothing is left of it when it is discarded.
        for _ in 0..2 {
            cache_map.scope_open();
            cache_map.remove(1);
            cache_map.upsert(&TestValue::new(2, 22));
            cache_map.upsert(&TestValue::new(3, 33));
            cache_map.upsert(&TestValue::new(1, 12));
            cache_map.remove(3);
            assert!(matches!(cache_map.get_or_tombstone(3), GetOrTombstone::Tombstone));
            cache_map.scope_close(ScopeCloseMode::Discard);
            expect(&mut cache_map);
        }

        cache_map.scope_open();
        cache_map.remove(1);
        cache_map.upsert(&TestValue::new(3, 33));
        cache_map.scope_close(ScopeCloseMode::Persist);
        assert!(matches!(cache_map.get_or_tombstone(1), GetOrTombstone::Tombstone));
        assert_eq!(cache_map.get(3).copied(), Some(TestValue::new(3, 33)));

        let entries = cache_map.cache_entries();
        cache_map.compact();
        assert_eq!(cache_map.cache_entries(), entries);
        assert!(matches!(cache_map.get_or_tombstone(1), GetOrTombstone::NotFound));
        assert!(matches!(cache_map.get_or_tombstone(2), GetOrTombstone::NotFound));
        let kept = if cache_value_count_max == 0 { None } else { Some(TestValue::new(3, 33)) };
        assert_eq!(cache_map.get(3).copied(), kept);
    }
}

/// A small generator of numbers that look random.
struct Prng {
    state: u64,
}

impl Prng {
    fn from_seed(seed: u64) -> Self {
        Prng { state: seed.wrapping_mul(0x9e37_79b9_7f4a_7c15) ^ 0x1234_5678_9abc_def1 }
    }

    fn next(&mut self) -> u64 {
        self.state ^= self.state << 13;
        self.state ^= self.state >> 7;
        self.state ^= self.state << 17;
        self.state.wrapping_mul(0x2545_f491_4f6c_dd1d)
    }

    fn boolean(&mut self) -> bool {
        self.next() >> 63 == 1
    }
}

const STASH_VALUE_COUNT_MAX: u32 = 1024;
const SCOPE_VALUE_COUNT_MAX: u32 = STASH_VALUE_COUNT_MAX;

#[derive(Clone, Copy, Debug)]
struct OpValue {
    op: u32,
    value: TestValue,
}

#[derive(Clone, Copy, Debug, PartialEq, Eq)]
enum ScopeMode {
    Open,
    Persist,
    Discard,
}

#[derive(Clone, Copy, Debug)]
enum FuzzOp {
    Compact,
    Get(u32),
    Upsert(TestValue),
    Remove(u32),
    Scope(ScopeMode),
}

#[derive(Clone, Copy, PartialEq, Eq)]
enum FuzzOpTag {
    Compact,
    Get,
    Upsert,
    Remove,
    Scope,
}

struct Environment {
    cache_map: CacheMap<TestTable>,
    model: Model,
}

impl Environment {
    fn new(options: CacheMapOptions) -> Self {
        Self { cache_map: CacheMap::new(options), model: Model::default() }
    }

    fn apply(&mut self, fuzz_ops: &[FuzzOp]) {
        for fuzz_op in fuzz_ops {
            match *fuzz_op {
                FuzzOp::Compact => {
                    self.cache_map.compact();
                    self.model.compact();
                }
                FuzzOp::Upsert(value) => {
                    self.cache_map.upsert(&value);
                    self.model.upsert(&value);
                }
                FuzzOp::Remove(key) => {
                    let model_value = self.model.map.get(&key);
                    if let Some(cache_map_value) = self.cache_map.get(key).copied() {
                        assert!(model_value.is_some());
                        assert_eq!(cache_map_value, model_value.expect("present").value);
                    } else {
                        let Some(model_value) = model_value else {
                            continue; // The key doesn't exist.
                        };

                        // The entry was dropped by a compaction. It has to be loaded before it
                        // can be removed.
                        assert!(self.model.compacts > model_value.op);
                        self.cache_map.upsert(&model_value.value);
                    }

                    self.cache_map.remove(key);
                    self.model.remove(key);
                }
                FuzzOp::Get(key) => {
                    let cache_map_value = self.cache_map.get(key).copied();
                    match self.model.map.get(&key) {
                        None => {
                            assert!(cache_map_value.is_none());
                        }
                        Some(model_value) if self.model.compacts > model_value.op => {
                            if let Some(cache_map_value) = cache_map_value {
                                assert_eq!(cache_map_value, model_value.value);
                            }
                        }
                        Some(model_value) => {
                            assert_eq!(
                                model_value.value,
                                cache_map_value.expect("recently written values are cached")
                            );
                        }
                    }
                }
                FuzzOp::Scope(mode) => match mode {
                    ScopeMode::Open => {
                        self.cache_map.scope_open();
                        self.model.scope_open();
                    }
                    ScopeMode::Persist => {
                        self.cache_map.scope_close(ScopeCloseMode::Persist);
                        self.model.scope_close(true);
                    }
                    ScopeMode::Discard => {
                        self.cache_map.scope_close(ScopeCloseMode::Discard);
                        self.model.scope_close(false);
                    }
                },
            }
        }
    }

    fn verify(&mut self) {
        for (&key, entry) in &self.model.map {
            let cache_map_value = self.cache_map.get(key).copied();
            if let Some(cache_map_value) = cache_map_value {
                assert_eq!(entry.value, cache_map_value);
            } else {
                assert!(self.model.compacts > entry.op);
            }
        }

        if let Some(cache) = self.cache_map.cache() {
            let slots = (cache.sets() * TestTable::WAYS) as usize;
            for index in 0..slots {
                if let Some(cache_value) = cache.slot(index) {
                    let model_value = self
                        .model
                        .map
                        .get(&cache_value.key)
                        .expect("cached value must exist in the model");
                    assert_eq!(*cache_value, model_value.value);
                }
            }
        }

        let stashed: Vec<TestValue> = self.cache_map.stash().values().copied().collect();
        for stash_value in stashed {
            if stash_value.tombstone {
                continue;
            }
            let model_value =
                self.model.map.get(&stash_value.key).expect("stashed values are modeled");
            assert_eq!(stash_value, model_value.value);
        }
    }
}

#[derive(Default)]
struct Model {
    map: HashMap<u32, OpValue>,
    undo_log: Vec<(u32, Option<OpValue>)>,
    scope_active: bool,
    compacts: u32,
}

impl Model {
    fn upsert(&mut self, value: &TestValue) {
        let kv_old = self.map.insert(value.key, OpValue { op: self.compacts, value: *value });
        if self.scope_active {
            self.undo_log.push((value.key, kv_old));
        }
    }

    fn remove(&mut self, key: u32) {
        let kv_old = self.map.remove(&key);
        if self.scope_active {
            self.undo_log.push((key, kv_old));
        }
    }

    fn compact(&mut self) {
        assert!(!self.scope_active);
        self.compacts += 1;
    }

    fn scope_open(&mut self) {
        assert!(!self.scope_active);
        assert!(self.undo_log.is_empty());
        self.scope_active = true;
    }

    fn scope_close(&mut self, persist: bool) {
        assert!(self.scope_active);
        self.scope_active = false;

        if persist {
            self.undo_log.clear();
        } else {
            while let Some((key, value)) = self.undo_log.pop() {
                match value {
                    Some(value) => self.map.insert(key, value),
                    None => self.map.remove(&key),
                };
            }
        }
        assert!(self.undo_log.is_empty());
    }
}

fn random_int_exponential(prng: &mut Prng, avg: u64) -> u64 {
    let uniform = (prng.next() >> 11) as f64 * f64::powi(2.0, -53);
    let exp = -(1.0 - uniform).ln();
    (exp * avg as f64) as u64
}

fn random_id(prng: &mut Prng) -> u32 {
    let average_cold = SCOPE_VALUE_COUNT_MAX
        + STASH_VALUE_COUNT_MAX
        + CacheMap::<TestTable>::cache_value_count_max_multiple() as u32;
    let average = if prng.boolean() { 8 } else { average_cold };
    random_int_exponential(prng, u64::from(average)) as u32
}

fn enum_weighted(prng: &mut Prng, weights: &[(FuzzOpTag, u64)]) -> FuzzOpTag {
    let total: u64 = weights.iter().map(|&(_, weight)| weight).sum();
    let mut pick = prng.next() % total;
    for &(tag, weight) in weights {
        if pick < weight {
            return tag;
        }
        pick -= weight;
    }
    unreachable!("weighted pick exhausted the total")
}

fn generate_fuzz_ops(prng: &mut Prng, fuzz_op_count: usize) -> Vec<FuzzOp> {
    let ops = LSM_COMPACTION_OPS as u64;
    let fuzz_op_weights: Vec<(FuzzOpTag, u64)> = vec![
        (FuzzOpTag::Upsert, ops * 2),
        (FuzzOpTag::Remove, if prng.boolean() { 0 } else { ops }),
        (FuzzOpTag::Get, if prng.boolean() { 0 } else { ops }),
        (FuzzOpTag::Compact, if prng.boolean() { 0 } else { 2 }),
        (FuzzOpTag::Scope, if prng.boolean() { 0 } else { ops / 4 }),
    ];

    let mut operations_since_scope_open: usize = 0;
    let operations_since_scope_open_max: usize = SCOPE_VALUE_COUNT_MAX as usize;
    let mut upserts_since_compact: usize = 0;
    let upserts_since_compact_max: usize = STASH_VALUE_COUNT_MAX as usize;
    let mut scope_is_open = false;

    let mut fuzz_ops = Vec::with_capacity(fuzz_op_count);
    for i in 0..fuzz_op_count {
        let fuzz_op_tag = if upserts_since_compact >= upserts_since_compact_max {
            if scope_is_open { FuzzOpTag::Scope } else { FuzzOpTag::Compact }
        } else if operations_since_scope_open >= operations_since_scope_open_max {
            FuzzOpTag::Scope
        } else if i == fuzz_op_count - 1 && scope_is_open {
            FuzzOpTag::Scope
        } else {
            let tag = enum_weighted(prng, &fuzz_op_weights);
            if scope_is_open && tag == FuzzOpTag::Compact {
                FuzzOpTag::Scope
            } else if !scope_is_open && i == fuzz_op_count - 1 && tag == FuzzOpTag::Scope {
                FuzzOpTag::Get
            } else {
                tag
            }
        };

        let fuzz_op = match fuzz_op_tag {
            FuzzOpTag::Upsert => {
                upserts_since_compact += 1;
                if scope_is_open {
                    operations_since_scope_open += 1;
                }
                FuzzOp::Upsert(TestValue::new(random_id(prng), prng.next() as u32))
            }
            FuzzOpTag::Remove => {
                upserts_since_compact += 1;
                if scope_is_open {
                    operations_since_scope_open += 1;
                }
                FuzzOp::Remove(random_id(prng))
            }
            FuzzOpTag::Get => FuzzOp::Get(random_id(prng)),
            FuzzOpTag::Compact => {
                upserts_since_compact = 0;
                FuzzOp::Compact
            }
            FuzzOpTag::Scope => {
                operations_since_scope_open = 0;
                let closing = scope_is_open;
                scope_is_open = !scope_is_open;
                if closing {
                    if prng.boolean() {
                        FuzzOp::Scope(ScopeMode::Persist)
                    } else {
                        FuzzOp::Scope(ScopeMode::Discard)
                    }
                } else {
                    FuzzOp::Scope(ScopeMode::Open)
                }
            }
        };
        fuzz_ops.push(fuzz_op);
    }

    fuzz_ops
}

#[test]
fn cache_map_fuzz() {
    for seed in [42, 43, 44, 45] {
        let mut prng = Prng::from_seed(seed);

        let fuzz_op_count = 100_000.min(random_int_exponential(&mut prng, 20_000) as usize);
        let fuzz_ops = generate_fuzz_ops(&mut prng, fuzz_op_count);

        for cache_value_count_max in
            [CacheMap::<TestTable>::cache_value_count_max_multiple() as u32, 0]
        {
            let options = CacheMapOptions {
                cache_value_count_max,
                stash_value_count_max: STASH_VALUE_COUNT_MAX,
                scope_value_count_max: SCOPE_VALUE_COUNT_MAX,
                name: "fuzz map",
            };

            let mut env = Environment::new(options);
            env.apply(&fuzz_ops);
            env.verify();
        }
    }
}
