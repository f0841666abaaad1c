use tigerbeetle::binary_search::{
    binary_search_keys, binary_search_keys_range, binary_search_keys_range_upsert_indexes,
    binary_search_keys_upsert_index, BinarySearchRange, BinarySearchRangeUpsertIndexes,
    BinarySearchResult, Config, Mode,
};

/// A small generator of numbers that look random.
struct Prng {
    state: u64,
}

impl Prng {
    fn from_seed(seed: u64) -> Self {
        Prng { state: seed.wrapping_mul(0x9e37_79b9_7f4a_7c15) ^ 0x1234_5678_9abc_def1 }
    }

    fn next(&mut self) -> u64 {
        self.state ^= self.state << 13;
        self.state ^= self.state >> 7;
        self.state ^= self.state << 17;
        self.state.wrapping_mul(0x2545_f491_4f6c_dd1d)
    }

    /// A number from zero to `max`.
    fn up_to(&mut self, max: u64) -> u64 {
        if max == u64::MAX {
            self.next()
        } else {
            self.next() % (max + 1)
        }
    }
}

/// What a scan of all keys finds.
fn expect_for(keys: &[u32], target_key: u32, mode: Mode) -> BinarySearchResult {
    let mut expect = BinarySearchResult { index: 0, exact: false };
    for (i, &key) in keys.iter().enumerate() {
        match key.cmp(&target_key) {
            core::cmp::Ordering::Less => expect.index = i as u32 + 1,
            core::cmp::Ordering::Equal => {
                expect.index = i as u32;
                expect.exact = true;
                if mode == Mode::LowerBound {
                    break;
                }
            }
            core::cmp::Ordering::Greater => break,
        }
    }
    expect
}

fn exhaustive_search(keys_count: u32, mode: Mode) {
    let mut keys = vec![0_u32; keys_count as usize];
    for (i, key) in keys.iter_mut().enumerate() {
        *key = 7 * i as u32 + 3;
    }

    for target_key in 0..keys_count + 13 {
        let expect = expect_for(&keys, target_key, mode);
        let actual = binary_search_keys(&keys, target_key, Config { mode });
        assert_eq!(expect, actual, "target {target_key}");
    }
}

fn explicit_search<const N: usize, const M: usize>(
    keys: &[u32],
    target_keys: &[u32; M],
    expected_results: [BinarySearchResult; M],
    mode: Mode,
) {
    let _ = N;
    assert_eq!(target_keys.len(), expected_results.len());

    for (i, &target_key) in target_keys.iter().enumerate() {
        let expect = expected_results[i];
        let actual = binary_search_keys(keys, target_key, Config { mode });
        assert_eq!(expect, actual, "target {target_key}");
    }
}

fn random_sequence(prng: &mut Prng, iter: usize) -> Vec<u32> {
    let keys_count = (1_000_000_usize).min(prng.up_to(2 * iter as u64) as usize);

    let mut keys: Vec<u32> =
        (0..keys_count).map(|_| prng.up_to(200) as u32).collect();
    keys.sort_unstable();
    keys
}

fn random_search(prng: &mut Prng, iter: usize, mode: Mode) {
    let keys = random_sequence(prng, iter);

    let target_key = prng.up_to(200) as u32;

    let expect = expect_for(&keys, target_key, mode);

    let actual = binary_search_keys(&keys, target_key, Config { mode });

    assert_eq!(expect, actual);
}

fn explicit_range_search(
    sequence: &[u32],
    key_min: u32,
    key_max: u32,
    expected: BinarySearchRange,
) {
    let actual = binary_search_keys_range(sequence, key_min, key_max);

    assert_eq!(expected.start, actual.start);
    assert_eq!(expected.count, actual.count);

    // Make sure that the index is valid for slicing using the [start..][..count] idiom:
    let expected_slice = &sequence[expected.start as usize..][..expected.count as usize];
    let actual_slice = &sequence[actual.start as usize..][..actual.count as usize];
    assert_eq!(expected_slice, actual_slice);
}

enum Target {
    Min,
    Max,
}

fn random_range_search(prng: &mut Prng, iter: usize) {
    let keys = random_sequence(prng, iter);

    let target_range = {
        // Cover many combinations of key_min, key_max:
        let mut key_min = if !keys.is_empty() && (prng.up_to(1) == 1) {
            keys[0] + prng.up_to(u64::from(keys[keys.len() - 1] - keys[0])) as u32
        } else {
            prng.up_to(200) as u32
        };

        let mut key_max = if !keys.is_empty() && (prng.up_to(1) == 1) {
            keys[0] + prng.up_to(u64::from(keys[keys.len() - 1] - keys[0])) as u32
        } else if (prng.up_to(1) == 1) {
            key_min
        } else {
            prng.up_to(200) as u32
        };

        if key_max < key_min {
            core::mem::swap(&mut key_min, &mut key_max);
        }
        assert!(key_min <= key_max);

        (key_min, key_max)
    };
    let (key_min, key_max) = target_range;

    let mut expect = BinarySearchRange { start: 0, count: 0 };
    let mut key_target = Target::Min;
    for &key in &keys {
        if matches!(key_target, Target::Min) {
            match key.cmp(&key_min) {
                core::cmp::Ordering::Less => {
                    if expect.start < keys.len().saturating_sub(1) as u32 {
                        expect.start += 1;
                    }
                }
                core::cmp::Ordering::Greater | core::cmp::Ordering::Equal => {
                    key_target = Target::Max;
                }
            }
        }

        if matches!(key_target, Target::Max) {
            match key.cmp(&key_max) {
                core::cmp::Ordering::Less | core::cmp::Ordering::Equal => expect.count += 1,
                core::cmp::Ordering::Greater => break,
            }
        }
    }

    let actual = binary_search_keys_range(&keys, key_min, key_max);

    assert_eq!(expect.start, actual.start);
    assert_eq!(expect.count, actual.count);
}

#[test]
fn binary_search_exhaustive() {
    for mode in [Mode::LowerBound, Mode::UpperBound] {
        for keys_count in 1_u32..300 {
            exhaustive_search(keys_count, mode);
        }
    }
}

#[test]
fn binary_search_explicit() {
    for mode in [Mode::LowerBound, Mode::UpperBound] {
        explicit_search::<0, 1>(
            &[],
            &[0],
            [BinarySearchResult { index: 0, exact: false }],
            mode,
        );

        explicit_search::<0, 1>(
            &[4; 10],
            &[4],
            [BinarySearchResult { index: if mode == Mode::LowerBound { 0 } else { 9 }, exact: true }],
            mode,
        );

        explicit_search::<0, 3>(
            &[1],
            &[0, 1, 2],
            [
                BinarySearchResult { index: 0, exact: false },
                BinarySearchResult { index: 0, exact: true },
                BinarySearchResult { index: 1, exact: false },
            ],
            mode,
        );

        explicit_search::<0, 5>(
            &[1, 3],
            &[0, 1, 2, 3, 4],
            [
                BinarySearchResult { index: 0, exact: false },
                BinarySearchResult { index: 0, exact: true },
                BinarySearchResult { index: 1, exact: false },
                BinarySearchResult { index: 1, exact: true },
                BinarySearchResult { index: 2, exact: false },
            ],
            mode,
        );

        explicit_search::<0, 14>(
            &[1, 3, 5, 8, 9, 11],
            &[0, 1, 2, 3, 4, 5, 6, 7, 8, 9, 10, 11, 12, 13],
            [
                BinarySearchResult { index: 0, exact: false },
                BinarySearchResult { index: 0, exact: true },
                BinarySearchResult { index: 1, exact: false },
                BinarySearchResult { index: 1, exact: true },
                BinarySearchResult { index: 2, exact: false },
                BinarySearchResult { index: 2, exact: true },
                BinarySearchResult { index: 3, exact: false },
                BinarySearchResult { index: 3, exact: false },
                BinarySearchResult { index: 3, exact: true },
                BinarySearchResult { index: 4, exact: true },
                BinarySearchResult { index: 5, exact: false },
                BinarySearchResult { index: 5, exact: true },
                BinarySearchResult { index: 6, exact: false },
                BinarySearchResult { index: 6, exact: false },
            ],
            mode,
        );
    }
}

#[test]
fn binary_search_duplicates() {
    explicit_search::<0, 7>(
        &[0, 0, 3, 3, 3, 5, 5, 5, 5],
        &[0, 1, 2, 3, 4, 5, 6],
        [
            BinarySearchResult { index: 0, exact: true },
            BinarySearchResult { index: 2, exact: false },
            BinarySearchResult { index: 2, exact: false },
            BinarySearchResult { index: 2, exact: true },
            BinarySearchResult { index: 5, exact: false },
            BinarySearchResult { index: 5, exact: true },
            BinarySearchResult { index: 9, exact: false },
        ],
        Mode::LowerBound,
    );
    explicit_search::<0, 7>(
        &[0, 0, 3, 3, 3, 5, 5, 5, 5],
        &[0, 1, 2, 3, 4, 5, 6],
        [
            BinarySearchResult { index: 1, exact: true },
            BinarySearchResult { index: 2, exact: false },
            BinarySearchResult { index: 2, exact: false },
            BinarySearchResult { index: 4, exact: true },
            BinarySearchResult { index: 5, exact: false },
            BinarySearchResult { index: 8, exact: true },
            BinarySearchResult { index: 9, exact: false },
        ],
        Mode::UpperBound,
    );
}

#[test]
fn binary_search_random() {
    let mut prng = Prng::from_seed(92);
    for mode in [Mode::LowerBound, Mode::UpperBound] {
        for i in 0..2048_usize {
            random_search(&mut prng, i, mode);
        }
    }
}

#[test]
fn binary_search_explicit_range() {
    // Exact interval:
    explicit_range_search(
        &[3, 4, 10, 15, 20, 25, 30, 100, 1000],
        3,
        1000,
        BinarySearchRange { start: 0, count: 9 },
    );

    // Larger interval:
    explicit_range_search(
        &[3, 4, 10, 15, 20, 25, 30, 100, 1000],
        2,
        1001,
        BinarySearchRange { start: 0, count: 9 },
    );

    // Inclusive key_min and exclusive key_max:
    explicit_range_search(
        &[3, 4, 10, 15, 20, 25, 30, 100, 1000],
        3,
        9,
        BinarySearchRange { start: 0, count: 2 },
    );

    // Exclusive key_min and inclusive key_max:
    explicit_range_search(
        &[3, 4, 10, 15, 20, 25, 30, 100, 1000],
        5,
        10,
        BinarySearchRange { start: 2, count: 1 },
    );

    // Exclusive interval:
    explicit_range_search(
        &[3, 4, 10, 15, 20, 25, 30, 100, 1000],
        5,
        14,
        BinarySearchRange { start: 2, count: 1 },
    );

    // Inclusive interval:
    explicit_range_search(
        &[3, 4, 10, 15, 20, 25, 30, 100, 1000],
        15,
        100,
        BinarySearchRange { start: 3, count: 5 },
    );

    // Inclusive interval with duplicates:
    explicit_range_search(
        &[3, 4, 10, 15, 20, 25, 30, 100, 100, 100, 1000],
        15,
        100,
        BinarySearchRange { start: 3, count: 7 },
    );

    // Where key_min == key_max:
    explicit_range_search(
        &[3, 4, 10, 15, 20, 25, 30, 100, 1000],
        10,
        10,
        BinarySearchRange { start: 2, count: 1 },
    );

    // Interval smaller than the first element:
    explicit_range_search(
        &[3, 4, 10, 15, 20, 25, 30, 100, 1000],
        1,
        2,
        BinarySearchRange { start: 0, count: 0 },
    );

    // Interval greater than the last element:
    explicit_range_search(
        &[3, 4, 10, 15, 20, 25, 30, 100, 1000],
        1_001,
        10_000,
        BinarySearchRange { start: 8, count: 0 },
    );

    // Nonexistent interval in the middle:
    explicit_range_search(
        &[3, 4, 10, 15, 20, 25, 30, 100, 1000],
        31,
        99,
        BinarySearchRange { start: 7, count: 0 },
    );

    // Empty slice:
    explicit_range_search(&[], 1, 2, BinarySearchRange { start: 0, count: 0 });
}

#[test]
fn binary_search_duplicated_range() {
    explicit_range_search(
        &[1, 3, 3, 3, 5, 5, 5, 7],
        3,
        5,
        BinarySearchRange { start: 1, count: 6 },
    );
    explicit_range_search(&[1, 1, 1, 3, 5, 7], 1, 1, BinarySearchRange { start: 0, count: 3 });
}

#[test]
fn binary_search_random_range() {
    let mut prng = Prng::from_seed(93);
    for i in 0..2048_usize {
        random_range_search(&mut prng, i);
    }
}

#[test]
fn upsert_index_keeps_keys_sorted() {
    for mode in [Mode::LowerBound, Mode::UpperBound] {
        for key in 0..12_u32 {
            let mut keys = vec![1_u32, 3, 3, 5, 9];
            let index = binary_search_keys_upsert_index(&keys, key, Config { mode });
            keys.insert(index as usize, key);
            assert!(keys.windows(2).all(|pair| pair[0] <= pair[1]), "{keys:?}");
        }
    }
}

#[test]
fn range_upsert_indexes_enclose_the_range() {
    let indexes = binary_search_keys_range_upsert_indexes(&[1_u32, 3, 3, 5, 9], 3, 6);
    assert_eq!(indexes, BinarySearchRangeUpsertIndexes { start: 1, end: 4 });
}

#[test]
fn the_default_mode_finds_the_lower_bound() {
    let result = binary_search_keys(&[2_u32, 2, 2], 2, Config::default());
    assert_eq!(result, BinarySearchResult { index: 0, exact: true });
}
