use tigerbeetle::constants::BLOCK_SIZE;
use tigerbeetle::free_set::bit_set::{find_bit, BitKind, BitSet, WORD_BITS};
use tigerbeetle::free_set::{BitsetKind, FreeSet, SHARD_BITS};

/// A small generator of numbers that look random.
struct Prng {
    state: u64,
}

impl Prng {
    fn from_seed(seed: u64) -> Self {
        Prng { state: seed.wrapping_mul(0x9e37_79b9_7f4a_7c15) ^ 0x1234_5678_9abc_def1 }
    }

    fn next(&mut self) -> u64 {
        self.state ^= self.state << 13;
        self.state ^= self.state >> 7;
        self.state ^= self.state << 17;
        self.state.wrapping_mul(0x2545_f491_4f6c_dd1d)
    }

    fn range(&mut self, min: usize, max: usize) -> usize {
        min + (self.next() % (max - min + 1) as u64) as usize
    }
}

#[test]
fn block_shard_count() {
    if BLOCK_SIZE == 64 * 1024 {
        let blocks_in_tb = (1 << 40) / BLOCK_SIZE;
        test_block_shards_count(5120 * 8, 10 * blocks_in_tb);
        test_block_shards_count(5120 * 8 - 1, 10 * blocks_in_tb - SHARD_BITS);
    }
    test_block_shards_count(1, SHARD_BITS); // Must be at least one index bit.
}

fn test_block_shards_count(expect_shards_count: usize, blocks_count: usize) {
    let set = FreeSet::open_empty(blocks_count);
    assert_eq!(expect_shards_count, set.index.len());
}

#[test]
fn highest_address_acquired() {
    let blocks_count = SHARD_BITS;

    let mut set = FreeSet::open_empty(blocks_count);

    {
        let reservation = set.reserve(6).unwrap();
        assert_eq!(None::<u64>, set.highest_address_acquired());
        assert_eq!(Some(1), set.acquire(reservation));
        assert_eq!(Some(2), set.acquire(reservation));
        assert_eq!(Some(3), set.acquire(reservation));
        set.forfeit(reservation);
    }

    assert_eq!(Some(3), set.highest_address_acquired());

    set.release(2);
    set.free(2);
    assert_eq!(Some(3), set.highest_address_acquired());

    set.release(3);
    set.free(3);
    assert_eq!(Some(1), set.highest_address_acquired());

    set.release(1);
    set.free(1);
    assert_eq!(None, set.highest_address_acquired());

    {
        let reservation = set.reserve(6).unwrap();
        assert_eq!(Some(1), set.acquire(reservation));
        assert_eq!(Some(2), set.acquire(reservation));
        assert_eq!(Some(3), set.acquire(reservation));
        set.forfeit(reservation);
    }

    {
        set.release(3);
        assert_eq!(Some(3), set.highest_address_acquired());
        assert_eq!(Some(3), set.highest_address_released());

        set.free(3);
        assert_eq!(Some(2), set.highest_address_acquired());
        assert_eq!(None, set.highest_address_released());
    }
}

#[test]
fn acquire_release() {
    test_acquire_release(SHARD_BITS);
    test_acquire_release(2 * SHARD_BITS);
    test_acquire_release(63 * SHARD_BITS);
    test_acquire_release(64 * SHARD_BITS);
    test_acquire_release(65 * SHARD_BITS);
}

fn test_acquire_release(blocks_count: usize) {
    // Acquire everything, then release, then acquire again.
    let mut set = FreeSet::open_empty(blocks_count);
    let empty = FreeSet::open_empty(blocks_count);

    {
        let reservation = set.reserve(blocks_count).unwrap();

        for i in 0..blocks_count {
            assert_eq!(Some(i as u64 + 1), set.acquire(reservation));
        }
        assert_eq!(None, set.acquire(reservation));
        set.forfeit(reservation);
    }

    assert_eq!(set.blocks_acquired.len(), set.count_acquired());
    assert_eq!(0, set.count_free());

    {
        for i in 0..blocks_count {
            set.release(i as u64 + 1);
            set.free(i as u64 + 1);
        }
        expect_free_set_equal(&empty, &set);
    }

    assert_eq!(0, set.count_acquired());
    assert_eq!(set.blocks_acquired.len(), set.count_free());

    {
        let reservation = set.reserve(blocks_count).unwrap();

        for i in 0..blocks_count {
            assert_eq!(Some(i as u64 + 1), set.acquire(reservation));
        }
        assert_eq!(None, set.acquire(reservation));
        set.forfeit(reservation);
    }
}

#[test]
fn reserve_acquire() {
    let blocks_count_total = SHARD_BITS;
    let mut set = FreeSet::open_empty(blocks_count_total);

    // At most `blocks_count_total` blocks are initially available for reservation.
    assert!(set.reserve(blocks_count_total + 1).is_none());
    let r1 = set.reserve(blocks_count_total - 1).unwrap();
    let r2 = set.reserve(1).unwrap();
    assert!(set.reserve(1).is_none());
    assert_eq!(set.count_reservations(), 2);
    set.forfeit(r1);
    set.forfeit(r2);

    let mut address: u64 = 1; // Start at 1 because addresses are >0.
    {
        let reservation = set.reserve(2).unwrap();
        assert_eq!(Some(address), set.acquire(reservation));
        assert_eq!(Some(address + 1), set.acquire(reservation));
        assert_eq!(None, set.acquire(reservation));
        set.forfeit(reservation);
    }
    address += 2;

    {
        // Blocks are acquired from the target reservation.
        let reservation_1 = set.reserve(2).unwrap();
        let reservation_2 = set.reserve(2).unwrap();
        assert_eq!(Some(address), set.acquire(reservation_1));
        assert_eq!(Some(address + 2), set.acquire(reservation_2));
        assert_eq!(Some(address + 1), set.acquire(reservation_1));
        assert_eq!(None, set.acquire(reservation_1));
        assert_eq!(Some(address + 3), set.acquire(reservation_2));
        assert_eq!(None, set.acquire(reservation_2));
        set.forfeit(reservation_1);
        set.forfeit(reservation_2);
    }
}

#[test]
fn checkpoint() {
    let blocks_count = SHARD_BITS;
    let mut set = FreeSet::open_empty(blocks_count);

    let empty = FreeSet::open_empty(blocks_count);

    let mut full = FreeSet::open_empty(blocks_count);

    {
        // Acquire all of `full`'s blocks.
        let reservation = full.reserve(blocks_count).unwrap();
        for i in 0..full.blocks_acquired.len() {
            assert_eq!(Some(i as u64 + 1), full.acquire(reservation));
        }
        full.forfeit(reservation);
    }

    {
        // Acquire & stage-release every block.
        let reservation = set.reserve(blocks_count).unwrap();

        for i in 0..set.blocks_acquired.len() {
            assert_eq!(Some(i as u64 + 1), set.acquire(reservation));
            set.release(i as u64 + 1);

            // These count functions treat staged blocks as acquired.
            assert_eq!(i + 1, set.count_acquired());
            assert_eq!(set.blocks_acquired.len() - i - 1, set.count_free());
        }
        // All blocks are still acquired, though staged to release at the next checkpoint.
        assert_eq!(None, set.acquire(reservation));
        set.forfeit(reservation);
    }

    // Perform checkpoint-related operations.
    set.mark_checkpoint_not_durable();
    set.mark_checkpoint_durable();

    expect_free_set_equal(&empty, &set);
    assert_eq!(0, set.blocks_released.count());

    {
        // Allocate & stage-release all blocks again.
        let reservation = set.reserve(blocks_count).unwrap();

        for i in 0..set.blocks_acquired.len() {
            assert_eq!(Some(i as u64 + 1), set.acquire(reservation));
            set.release(i as u64 + 1);
        }
        set.forfeit(reservation);
    }

    let mut set_encoded_blocks_acquired = vec![vec![0_u8; set.encode_size_max()]];
    let mut set_encoded_blocks_released = vec![vec![0_u8; set.encode_size_max()]];

    let mut set_decoded = FreeSet::init_empty(blocks_count);

    {
        let (encoded_size_blocks_acquired, encoded_size_blocks_released) = set
            .encode_chunks(&mut set_encoded_blocks_acquired, &mut set_encoded_blocks_released);

        set_decoded.decode_chunks(
            &[&set_encoded_blocks_acquired[0][..encoded_size_blocks_acquired]],
            &[&set_encoded_blocks_released[0][..encoded_size_blocks_released]],
        );
        expect_free_set_equal(&set, &set_decoded);
    }

    {
        let (encoded_size_blocks_acquired, encoded_size_blocks_released) = full
            .encode_chunks(&mut set_encoded_blocks_acquired, &mut set_encoded_blocks_released);

        set_decoded.reset();
        set_decoded.decode_chunks(
            &[&set_encoded_blocks_acquired[0][..encoded_size_blocks_acquired]],
            &[&set_encoded_blocks_released[0][..encoded_size_blocks_released]],
        );
        expect_free_set_equal(&full, &set_decoded);
    }
}

#[derive(Clone, Copy)]
enum TestPatternFill {
    UniformOnes,
    UniformZeros,
    Literal,
}

struct TestPattern {
    fill: TestPatternFill,
    words: usize,
}

fn test_encode(patterns: &[TestPattern]) {
    let mut prng = Prng::from_seed(0x5EED_5EED_5EED_5EED);

    let blocks_count: usize = patterns.iter().map(|p| p.words * WORD_BITS).sum();

    let mut decoded_expect = FreeSet::open_empty(blocks_count);

    {
        // The `index` will start out one-filled. Every pattern containing a zero will update
        // the corresponding index bit with a zero (probably multiple times) to ensure it ends
        // up synced with `blocks`.
        for shard in 0..decoded_expect.index.len() {
            decoded_expect.index.set(shard);
        }
        assert_eq!(decoded_expect.index.count(), decoded_expect.index.len());

        // Fill the bitset according to the patterns.
        let mut blocks_offset: usize = 0;
        for pattern in patterns {
            for _ in 0..pattern.words {
                decoded_expect.blocks_acquired.words[blocks_offset] = match pattern.fill {
                    TestPatternFill::UniformOnes => u64::MAX,
                    TestPatternFill::UniformZeros => 0,
                    TestPatternFill::Literal => 1 + prng.next() % (u64::MAX - 1),
                };
                let index_bit = blocks_offset * WORD_BITS / SHARD_BITS;
                if !matches!(pattern.fill, TestPatternFill::UniformOnes) {
                    decoded_expect.index.unset(index_bit);
                }
                blocks_offset += 1;
            }
        }
        assert_eq!(blocks_offset, decoded_expect.blocks_acquired.words().len());
    }

    let mut encoded = vec![vec![0_u8; decoded_expect.encode_size_max()]];

    assert_eq!(encoded[0].len() % 8, 0);
    let encoded_length = decoded_expect.encode_one(BitsetKind::BlocksAcquired, &mut encoded);

    let mut decoded_actual = FreeSet::init_empty(blocks_count);

    decoded_actual.decode_chunks(&[&encoded[0][..encoded_length]], &[]);
    expect_free_set_equal(&decoded_expect, &decoded_actual);
}

#[test]
fn encode_decode_encode() {
    // Number of words per shard.
    let shard_bits = SHARD_BITS / WORD_BITS;

    // Uniform.
    test_encode(&[TestPattern { fill: TestPatternFill::UniformOnes, words: shard_bits }]);
    test_encode(&[TestPattern { fill: TestPatternFill::UniformZeros, words: shard_bits }]);
    test_encode(&[TestPattern { fill: TestPatternFill::Literal, words: shard_bits }]);
    test_encode(&[TestPattern {
        fill: TestPatternFill::UniformOnes,
        words: (u16::MAX as usize) + 1,
    }]);

    // Mixed.
    test_encode(&[
        TestPattern { fill: TestPatternFill::UniformOnes, words: shard_bits / 4 },
        TestPattern { fill: TestPatternFill::UniformZeros, words: shard_bits / 4 },
        TestPattern { fill: TestPatternFill::Literal, words: shard_bits / 4 },
        TestPattern { fill: TestPatternFill::UniformOnes, words: shard_bits / 4 },
    ]);

    // Random.
    let mut prng = Prng::from_seed(0x1234_5678_9ABC_DEF0);

    let fills =
        [TestPatternFill::UniformOnes, TestPatternFill::UniformZeros, TestPatternFill::Literal];
    for _ in 0..10 {
        let mut patterns = Vec::with_capacity(shard_bits);
        for _ in 0..shard_bits {
            patterns.push(TestPattern { fill: fills[prng.range(0, 2)], words: 1 });
        }
        test_encode(&patterns);
    }
}

fn expect_free_set_equal(a: &FreeSet, b: &FreeSet) {
    expect_bit_set_equal(&a.blocks_acquired, &b.blocks_acquired);
    expect_bit_set_equal(&a.blocks_released, &b.blocks_released);
    expect_bit_set_equal(&a.index, &b.index);

    assert_eq!(
        a.blocks_released_prior_checkpoint_durability.count(),
        b.blocks_released_prior_checkpoint_durability.count(),
    );
    assert_eq!(
        a.blocks_released_prior_checkpoint_durability.keys,
        b.blocks_released_prior_checkpoint_durability.keys
    );
}

fn expect_bit_set_equal(a: &BitSet, b: &BitSet) {
    assert_eq!(a.len(), b.len());
    assert_eq!(a.words(), b.words());
}

#[test]
fn decode_small_bitset_into_large_bitset() {
    let shard_bits = SHARD_BITS;
    let mut small_set = FreeSet::open_empty(shard_bits);

    {
        // Set up a small bitset (with blocks_count==shard_bits) with no free blocks.
        let reservation = small_set.reserve(small_set.blocks_acquired.len()).unwrap();

        for _ in 0..small_set.blocks_acquired.len() {
            small_set.acquire(reservation);
        }
        small_set.forfeit(reservation);
    }

    let mut small_buffer = vec![vec![0_u8; small_set.encode_size_max()]];

    let small_buffer_written = small_set.encode_one(BitsetKind::BlocksAcquired, &mut small_buffer);

    // Decode the serialized small bitset into a larger bitset
    // (with blocks_count==2*shard_bits).
    let mut big_set = FreeSet::init_empty(2 * shard_bits);

    big_set.decode(BitsetKind::BlocksAcquired, &[&small_buffer[0][..small_buffer_written]]);
    big_set.opened = true;

    for block in 0..2 * shard_bits {
        let address = block as u64 + 1;
        assert_eq!(shard_bits <= block, big_set.is_free(address));
    }
}

#[test]
fn encode_decode_manual() {
    let encoded_words: [u64; 5] = [
        // Mask 1: run of 2 words of 0s (uniform_bit = 0), then 3 literals
        (2 << 1) | (3 << 32),
        0xAAAA_AAAA_AAAA_AAAA, // literal 1
        0x5555_5555_5555_5555, // literal 2
        0xAAAA_AAAA_AAAA_AAAA, // literal 3
        // Mask 2: run of 59 words of 1s, then 0 literals
        1 | ((64 - 5) << 1),
    ];
    let mut encoded_bytes = Vec::new();
    for word in &encoded_words {
        encoded_bytes.extend_from_slice(&word.to_le_bytes());
    }

    let mut decoded_expect = vec![
        0x0000_0000_0000_0000, // run 1
        0x0000_0000_0000_0000,
        0xAAAA_AAAA_AAAA_AAAA, // literal 1
        0x5555_5555_5555_5555, // literal 2
        0xAAAA_AAAA_AAAA_AAAA, // literal 3
    ];
    decoded_expect.resize(64, u64::MAX); // 64 - 5 uniform-one words

    let blocks_count = decoded_expect.len() * WORD_BITS;

    // Test decode.
    let mut decoded_actual = FreeSet::init_empty(blocks_count);

    decoded_actual.decode(BitsetKind::BlocksAcquired, &[&encoded_bytes]);

    assert_eq!(decoded_expect.len(), decoded_actual.blocks_acquired.words().len());
    assert_eq!(&decoded_expect, decoded_actual.blocks_acquired.words());

    // Test encode.
    let mut encoded_actual = vec![vec![0_u8; decoded_actual.encode_size_max()]];

    decoded_actual.opened = true;
    decoded_actual.checkpoint_durable = true;
    let encoded_actual_length =
        decoded_actual.encode_one(BitsetKind::BlocksAcquired, &mut encoded_actual);
    assert_eq!(encoded_words.len() * 8, encoded_actual_length);
    assert_eq!(&encoded_actual[0][..encoded_actual_length], &encoded_bytes[..]);
}

fn find_bit_reference(
    bit_set: &BitSet,
    bit_min: usize,
    bit_max: usize,
    kind: BitKind,
) -> Option<usize> {
    (bit_min..bit_max).find(|&bit| bit_set.get(bit) == (kind == BitKind::One))
}

fn test_find_bit(prng: &mut Prng, bit_set: &BitSet, kind: BitKind) {
    let bit_min = prng.range(0, bit_set.len() - 1);
    let bit_max = prng.range(bit_min, bit_set.len());

    let bit_actual = find_bit(bit_set, bit_min, bit_max, kind);
    if let Some(bit) = bit_actual {
        assert_eq!(bit_set.get(bit), kind == BitKind::One);
        assert!(bit >= bit_min);
        assert!(bit < bit_max);
    }

    assert_eq!(bit_actual, find_bit_reference(bit_set, bit_min, bit_max, kind));
}

#[test]
fn find_bit_fuzz() {
    let mut prng = Prng::from_seed(0xF100);

    for bit_length in 1..=(WORD_BITS * 4) {
        let mut bit_set = BitSet::new_empty(bit_length);

        let p = prng.range(0, 100);

        for b in 0..bit_length {
            if p < prng.range(0, 100) {
                bit_set.set(b);
            } else {
                bit_set.unset(b);
            }
        }

        for _ in 0..20 {
            test_find_bit(&mut prng, &bit_set, BitKind::One);
        }
        for _ in 20..40 {
            test_find_bit(&mut prng, &bit_set, BitKind::Zero);
        }
    }
}

#[test]
fn acquire_part_way_through_a_shard() {
    let mut set = FreeSet::open_empty(SHARD_BITS * 3);

    let reservation_a = set.reserve(1).unwrap();

    let reservation_b = set.reserve(2 * SHARD_BITS).unwrap();

    // Acquire all of reservation B.
    // At the end, the first shard still has a bit free (reserved by A).
    for i in 0..reservation_b.block_count {
        let address = set.acquire(reservation_b).unwrap();
        assert_eq!(address - 1, reservation_a.block_count as u64 + i as u64);
        expect_index_matches(&set);
    }
    assert_eq!(None, set.acquire(reservation_b));

    set.forfeit(reservation_a);
    set.forfeit(reservation_b);
}

/// The index has a bit set for every shard without free blocks.
fn expect_index_matches(set: &FreeSet) {
    for shard in 0..set.index.len() {
        let words = shard * SHARD_BITS / WORD_BITS..(shard + 1) * SHARD_BITS / WORD_BITS;
        let full = set.blocks_acquired.words()[words].iter().all(|&word| word == u64::MAX);
        assert_eq!(full, set.index.get(shard));
    }
}

#[test]
fn decode_big_bitset_into_small_bitset() {
    let shard_bits = SHARD_BITS;

    let mut big_set = FreeSet::open_empty(2 * shard_bits);

    {
        // Set up a big bitset (with blocks_count==2*shard_bits) with half the blocks free.
        let acquired_block_count = big_set.blocks_acquired.len() / 2;
        let reservation = big_set.reserve(acquired_block_count).unwrap();

        for _ in 0..acquired_block_count {
            big_set.acquire(reservation);
        }
        big_set.forfeit(reservation);
    }

    let mut big_buffer = vec![vec![0_u8; big_set.encode_size_max()]];

    let big_buffer_written = big_set.encode_one(BitsetKind::BlocksAcquired, &mut big_buffer);

    // Decode the serialized big bitset into a smaller bitset (with blocks_count==shard_bits).
    let mut small_set = FreeSet::init_empty(shard_bits);

    small_set.decode(BitsetKind::BlocksAcquired, &[&big_buffer[0][..big_buffer_written]]);
    for block in 0..shard_bits {
        let address = block as u64 + 1;
        assert!(!small_set.is_free(address));
        assert!(!big_set.is_free(address));
    }
}

#[test]
fn open_rebuilds_the_index_and_releases_its_own_blocks() {
    let mut set = FreeSet::open_empty(2 * SHARD_BITS);
    let reservation = set.reserve(SHARD_BITS).unwrap();
    for _ in 0..SHARD_BITS {
        set.acquire(reservation);
    }
    set.forfeit(reservation);
    set.release(7);

    let mut acquired = vec![vec![0_u8; set.encode_size_max()]];
    let mut released = vec![vec![0_u8; set.encode_size_max()]];
    let (acquired_size, released_size) = set.encode_chunks(&mut acquired, &mut released);

    let mut opened = FreeSet::new(2 * SHARD_BITS * BLOCK_SIZE, 4);
    let first = SHARD_BITS as u64 + 1;
    assert!(!opened.is_free(first));
    opened.open(
        &[&acquired[0][..acquired_size]],
        &[&released[0][..released_size]],
        &[first],
        &[first + 3],
    );
    expect_index_matches(&opened);
    assert!(opened.index.get(0));
    assert!(!opened.index.get(1));
    assert_eq!(opened.count_acquired(), SHARD_BITS + 2);
    assert_eq!(opened.count_released(), 3);
    assert!(opened.is_released(7));
    assert!(opened.is_released(first));
    assert!(opened.is_released(first + 3));
    assert!(!opened.is_released(first + 1));
    assert!(opened.to_be_freed_at_checkpoint_durability(7));
    assert!(!opened.to_be_freed_at_checkpoint_durability(first));

    opened.mark_checkpoint_durable();
    assert!(opened.is_free(7));
    assert!(!opened.is_free(first));
    assert!(!opened.index.get(0));
    assert_eq!(opened.count_released(), 2);

    opened.mark_checkpoint_not_durable();
    opened.release(1);
    assert!(!opened.to_be_freed_at_checkpoint_durability(1));
    opened.mark_checkpoint_durable();
    assert!(opened.is_free(first));
    assert!(opened.is_free(first + 3));
    assert!(opened.is_released(1));
}

#[test]
fn encoding_can_be_split_into_chunks() {
    let mut set = FreeSet::open_empty(SHARD_BITS);
    for (i, word) in set.blocks_acquired.words.iter_mut().enumerate() {
        *word = i as u64 % 7;
    }
    let mut whole = vec![vec![0_u8; set.encode_size_max()]];
    let whole_size = set.encode_one(BitsetKind::BlocksAcquired, &mut whole);

    let mut chunks: Vec<Vec<u8>> = vec![vec![0xff; 24]; 22];
    let size = set.encode_one(BitsetKind::BlocksAcquired, &mut chunks);
    assert_eq!(size, whole_size);
    let joined: Vec<u8> = chunks.concat();
    assert_eq!(&joined[..size], &whole[0][..size]);

    let slices: Vec<&[u8]> = joined[..size].chunks(16).collect();
    let mut decoded = FreeSet::init_empty(SHARD_BITS);
    decoded.decode(BitsetKind::BlocksAcquired, &slices);
    assert_eq!(decoded.blocks_acquired.words(), set.blocks_acquired.words());
}

#[test]
fn zeroes_at_the_end_are_not_encoded() {
    let set = FreeSet::open_empty(SHARD_BITS);
    let mut buffer = vec![vec![0_u8; set.encode_size_max()]];
    assert_eq!(set.encode_size_max(), (64 + 1) * 8);
    assert_eq!(set.encode_one(BitsetKind::BlocksAcquired, &mut buffer), 0);
}

#[test]
fn reservations_stop_at_the_limit() {
    // The bit sets hold a whole shard, but only ten blocks may be acquired.
    let mut set = FreeSet::new(10 * BLOCK_SIZE, 0);
    assert_eq!(FreeSet::block_count_max(10 * BLOCK_SIZE), SHARD_BITS);
    set.open(&[], &[], &[], &[]);
    assert_eq!(set.count_free(), SHARD_BITS);
    assert!(set.reserve(11).is_none());
    let reservation = set.reserve(10).unwrap();
    assert_eq!(reservation.block_count, 10);
}

#[test]
fn jobs_acquire_the_same_blocks_in_any_order() {
    let acquire = |order: &[usize]| {
        let mut set = FreeSet::open_empty(SHARD_BITS);
        let reservations = [set.reserve(2).unwrap(), set.reserve(3).unwrap()];
        let mut blocks = [Vec::new(), Vec::new()];
        for &job in order {
            blocks[job].push(set.acquire(reservations[job]));
        }
        blocks
    };
    let expected = [vec![Some(1), Some(2), None], vec![Some(3), Some(4), Some(5), None]];
    assert_eq!(acquire(&[0, 0, 0, 1, 1, 1, 1]), expected);
    assert_eq!(acquire(&[1, 0, 1, 1, 0, 1, 0]), expected);
}
