use tigerbeetle::set_associative_cache::{
    clock_hand_bits, fastrange, search_tags, Layout, PackedUnsignedIntegerArray,
    SetAssociativeCache, SetAssociativeCacheSpec, Tag, UpdateOrInsert,
};

/// A small generator of numbers that look random.
struct Prng {
    state: u64,
}

impl Prng {
    fn from_seed(seed: u64) -> Self {
        Prng { state: seed.wrapping_mul(0x9e37_79b9_7f4a_7c15) ^ 0x1234_5678_9abc_def1 }
    }

    fn next(&mut self) -> u64 {
        self.state ^= self.state << 13;
        self.state ^= self.state >> 7;
        self.state ^= self.state << 17;
        self.state.wrapping_mul(0x2545_f491_4f6c_dd1d)
    }

    fn up_to(&mut self, max: u64) -> u64 {
        self.next() % (max + 1)
    }

    fn shuffle(&mut self, slice: &mut [usize]) {
        for i in (1..slice.len()).rev() {
            let j = self.up_to(i as u64) as usize;
            slice.swap(i, j);
        }
    }
}

#[derive(Clone, Copy, Debug, Default)]
struct IdentityHashSpec;

impl Layout for IdentityHashSpec {}

impl SetAssociativeCacheSpec for IdentityHashSpec {
    type Key = u64;
    type Value = u64;

    fn key_from_value(value: &u64) -> u64 {
        *value
    }

    fn hash(key: u64) -> u64 {
        key
    }
}

#[derive(Clone, Copy, Debug, Default)]
struct BrokenHashSpec;

impl Layout for BrokenHashSpec {}

impl SetAssociativeCacheSpec for BrokenHashSpec {
    type Key = u64;
    type Value = u64;

    fn key_from_value(value: &u64) -> u64 {
        *value
    }

    // All keys collide.
    fn hash(_key: u64) -> u64 {
        0
    }
}

fn assert_reset<S: SetAssociativeCacheSpec<Key = u64, Value = u64>>(sac: &SetAssociativeCache<S>) {
    for tag in sac.tags() {
        assert_eq!(*tag, 0);
    }
    for word in sac.counts().words.iter().chain(sac.clocks().words.iter()) {
        assert_eq!(*word, 0);
    }
    assert_eq!(sac.value_count(), 0);
}

fn run_cache_test<S: SetAssociativeCacheSpec<Key = u64, Value = u64>>() {
    let mut sac = SetAssociativeCache::<S>::new(16 * 16 * 8, "test");
    let ways = S::WAYS;
    assert_eq!(sac.name(), "test");

    assert_reset(&sac);

    // Fill up the first set entirely.
    for i in 0..ways {
        assert_eq!(sac.clocks().get(0), i);

        let key = i * sac.sets();
        _ = sac.upsert(&key);
        assert_eq!(sac.counts().get(i), 1);
        assert_eq!(*sac.get(key).expect("present"), key);
        assert_eq!(sac.counts().get(i), 2);
    }
    assert_eq!(sac.clocks().get(0), 0);
    assert_eq!(sac.value_count(), ways);

    // Insert another element into the first set, causing key 0 to be evicted.
    {
        let key = ways * sac.sets();
        _ = sac.upsert(&key);
        assert_eq!(sac.counts().get(0), 1);
        assert_eq!(*sac.get(key).expect("present"), key);
        assert_eq!(sac.counts().get(0), 2);

        assert!(sac.get(0).is_none());

        for i in 1..ways {
            assert_eq!(sac.counts().get(i), 1);
        }
        assert_eq!(sac.value_count(), ways);
    }

    // Ensure removal works.
    {
        let key = 5 * sac.sets();
        assert_eq!(*sac.get(key).expect("present"), key);
        assert_eq!(sac.counts().get(5), 2);

        let removed = sac.remove(key);
        assert_eq!(removed, Some(key));
        assert!(sac.get(key).is_none());
        assert_eq!(sac.counts().get(5), 0);
        assert_eq!(sac.value_count(), ways - 1);
    }

    sac.reset();

    assert_reset(&sac);

    // Fill up the first set entirely, maxing out the count for each slot.
    {
        let count_max = (1_u64 << S::CLOCK_BITS) - 1;
        for i in 0..ways {
            assert_eq!(sac.clocks().get(0), i);

            let key = i * sac.sets();
            _ = sac.upsert(&key);
            assert_eq!(sac.counts().get(i), 1);
            for j in 2..=count_max {
                assert_eq!(*sac.get(key).expect("present"), key);
                assert_eq!(sac.counts().get(i), j);
            }
            assert_eq!(*sac.get(key).expect("present"), key);
            assert_eq!(sac.counts().get(i), count_max);
        }
        assert_eq!(sac.clocks().get(0), 0);
        assert_eq!(sac.value_count(), ways);
    }

    // Insert another element into the first set, causing key 0 to be evicted despite
    // its maxed-out count.
    {
        let key = ways * sac.sets();
        _ = sac.upsert(&key);
        assert_eq!(sac.counts().get(0), 1);
        assert_eq!(*sac.get(key).expect("present"), key);
        assert_eq!(sac.counts().get(0), 2);

        assert!(sac.get(0).is_none());

        for i in 1..ways {
            assert_eq!(sac.counts().get(i), 1);
        }
        assert_eq!(sac.value_count(), ways);
    }
}

#[test]
fn set_associative_cache_eviction() {
    run_cache_test::<IdentityHashSpec>();
}

#[test]
fn set_associative_cache_hash_collision() {
    run_cache_test::<BrokenHashSpec>();
}

#[test]
fn packed_unsigned_integer_array_unit() {
    let mut p = PackedUnsignedIntegerArray::new(2, 8 * 8);
    p.words[1] = 0b1011_0010;

    assert_eq!(p.get(32), 0b10);
    assert_eq!(p.get(32 + 1), 0b00);
    assert_eq!(p.get(32 + 2), 0b11);
    assert_eq!(p.get(32 + 3), 0b10);

    p.set(0, 0b01);
    assert_eq!(p.words[0], 0b0000_0001);
    assert_eq!(p.get(0), 0b01);
    p.set(1, 0b10);
    assert_eq!(p.words[0], 0b0000_1001);
    assert_eq!(p.get(1), 0b10);
    p.set(2, 0b11);
    assert_eq!(p.words[0], 0b0011_1001);
    assert_eq!(p.get(2), 0b11);
    p.set(3, 0b11);
    assert_eq!(p.words[0], 0b1111_1001);
    assert_eq!(p.get(3), 0b11);
    p.set(3, 0b01);
    assert_eq!(p.words[0], 0b0111_1001);
    assert_eq!(p.get(3), 0b01);
    p.set(3, 0b00);
    assert_eq!(p.words[0], 0b0011_1001);
    assert_eq!(p.get(3), 0b00);

    p.set(4, 0b11);
    assert_eq!(
        p.words[0],
        0b0000_0000_0000_0000_0000_0000_0000_0000_0000_0000_0000_0000_0000_0011_0011_1001
    );
    p.set(31, 0b11);
    assert_eq!(
        p.words[0],
        0b1100_0000_0000_0000_0000_0000_0000_0000_0000_0000_0000_0000_0000_0011_0011_1001
    );
}

fn packed_fuzz(prng: &mut Prng, bits: u32) {
    let len = 1024_usize;
    let mut array = PackedUnsignedIntegerArray::new(bits, len as u64 * u64::from(bits) / 8);
    let mut reference = vec![0_u64; len];

    let value_max = (1_u64 << bits) - 1;
    for _ in 0..10_000 {
        let index = prng.up_to(len as u64 - 1) as usize;
        let value = prng.up_to(value_max);

        array.set(index as u64, value);
        reference[index] = value;

        for (i, expected) in reference.iter().enumerate() {
            assert_eq!(*expected, array.get(i as u64));
        }
    }
}

#[test]
fn packed_unsigned_integer_array_fuzz() {
    let mut prng = Prng::from_seed(42);

    packed_fuzz(&mut prng, 1);
    packed_fuzz(&mut prng, 2);
    packed_fuzz(&mut prng, 4);
}

#[test]
fn set_associative_cache_search_tags() {
    let mut prng = Prng::from_seed(42);

    for ways in [2_u64, 4, 16] {
        for tag_bits in [8_u64, 16] {
            let tag_max = (1_u64 << tag_bits) - 1;

            for _ in 0..10_000 {
                let mut tags: Vec<Tag> = vec![0; ways as usize];
                for t in &mut tags {
                    *t = prng.up_to(tag_max) as Tag;
                }

                let tag = prng.up_to(tag_max) as Tag;

                let mut indexes: Vec<usize> = (0..ways as usize).collect();
                prng.shuffle(&mut indexes);

                let matches_count_min = prng.up_to(ways);
                for &index in &indexes[..matches_count_min as usize] {
                    tags[index] = tag;
                }

                let mut expected: u16 = 0;
                let mut count = 0_usize;
                for (i, t) in tags.iter().enumerate() {
                    if *t == tag {
                        expected |= 1 << i;
                        count += 1;
                    }
                }
                assert_eq!(u32::from(expected).count_ones() as usize, count);

                let actual = search_tags(&tags, tag, ways);
                assert_eq!(expected, actual);
            }
        }
    }
}

#[test]
fn clock_hand_bits_matches_ways() {
    assert_eq!(clock_hand_bits(2), 1);
    assert_eq!(clock_hand_bits(4), 2);
    assert_eq!(clock_hand_bits(16), 4);
}

#[test]
fn fastrange_scales_the_word() {
    assert_eq!(fastrange(0, 10), 0);
    assert_eq!(fastrange(u64::MAX, 10), 9);
    assert_eq!(fastrange(1 << 63, 10), 5);
    assert_eq!(fastrange(u64::MAX, 1), 0);
}

#[test]
fn upsert_says_what_it_evicts() {
    let mut sac = SetAssociativeCache::<BrokenHashSpec>::new(256, "test");
    for key in 0..16 {
        let upserted = sac.upsert(&key);
        assert_eq!(upserted.index, key as usize);
        assert_eq!(upserted.updated, UpdateOrInsert::Insert);
        assert_eq!(upserted.evicted, None);
    }

    let upserted = sac.upsert(&3);
    assert_eq!(upserted.index, 3);
    assert_eq!(upserted.updated, UpdateOrInsert::Update);
    assert_eq!(upserted.evicted, Some(3));

    // Key 0 was read: the hand passes it, and takes key 1.
    assert_eq!(sac.get_index(0), Some(0));
    let upserted = sac.upsert(&100);
    assert_eq!(upserted.index, 1);
    assert_eq!(upserted.updated, UpdateOrInsert::Insert);
    assert_eq!(upserted.evicted, Some(1));
    assert_eq!(sac.counts().get(0), 1);
    assert_eq!(sac.clocks().get(0), 2);
    assert_eq!(sac.slot(1), Some(&100));
}

#[test]
fn demoted_values_go_first() {
    let mut sac = SetAssociativeCache::<BrokenHashSpec>::new(256, "test");
    for key in 0..16 {
        _ = sac.upsert(&key);
        _ = sac.get_index(key);
    }
    sac.demote(7);
    sac.demote(1000);
    assert_eq!(sac.counts().get(7), 1);
    assert_eq!(sac.upsert(&100).evicted, Some(7));
}

#[test]
fn hits_and_misses_are_counted() {
    let mut sac = SetAssociativeCache::<IdentityHashSpec>::new(256, "test");
    _ = sac.upsert(&1);
    assert!(sac.get(1).is_some());
    assert!(sac.get(2).is_none());
    assert!(sac.get(3).is_none());
    assert_eq!(sac.hits(), 1);
    assert_eq!(sac.misses(), 2);
    assert_eq!(SetAssociativeCache::<IdentityHashSpec>::value_count_max_multiple(), 256);
}
