use std::cell::RefCell;
use std::rc::Rc;
use tigerbeetle::direction::Direction;
use tigerbeetle::k_way_merge::{
    ceil_power_of_two, KWayMergeIterator, MergeStream, Node, Pending, TournamentKey, TournamentTree,
};

const N: usize = 3;
const M: u32 = 2;

/// A small generator of numbers that look random.
struct Prng {
    state: u64,
}

impl Prng {
    fn from_seed(seed: u64) -> Self {
        Prng { state: seed.wrapping_mul(0x9e37_79b9_7f4a_7c15) ^ 0x1234_5678_9abc_def1 }
    }

    fn next(&mut self) -> u64 {
        self.state ^= self.state << 13;
        self.state ^= self.state >> 7;
        self.state ^= self.state << 17;
        self.state.wrapping_mul(0x2545_f491_4f6c_dd1d)
    }

    /// A number from zero to `max`.
    fn up_to(&mut self, max: u64) -> u64 {
        if max == u64::MAX {
            self.next()
        } else {
            self.next() % (max + 1)
        }
    }
}

fn value(key: u32, version: u32) -> Value {
    Value { key, version }
}

struct TestContext<const STREAMS_MAX: usize> {
    streams: Vec<Vec<Value>>,
}

#[derive(Clone, Copy, Debug, PartialEq, Eq)]
struct Value {
    key: u32,
    version: u32,
}

impl<const STREAMS_MAX: usize> TestContext<STREAMS_MAX> {
    fn new(streams: Vec<Vec<Value>>) -> Self {
        Self { streams }
    }
}

impl Value {
    fn less_than(direction: Direction, a: Self, b: Self) -> bool {
        let order = a.key.cmp(&b.key);
        let order = match direction {
            Direction::Ascending => order,
            Direction::Descending => order.reverse(),
        };
        match order {
            std::cmp::Ordering::Less => true,
            std::cmp::Ordering::Equal => a.version < b.version,
            std::cmp::Ordering::Greater => false,
        }
    }
}

impl<const STREAMS_MAX: usize> MergeStream for TestContext<STREAMS_MAX> {
    type Key = u32;
    type Value = Value;

    fn stream_peek(&mut self, stream_index: u32) -> Result<Option<u32>, Pending> {
        let stream = &self.streams[stream_index as usize];
        if stream.is_empty() {
            return Ok(None);
        }
        Ok(Some(stream[0].key))
    }

    fn stream_pop(&mut self, stream_index: u32) -> Value {
        let stream = &mut self.streams[stream_index as usize];
        let value = stream[0];
        stream.remove(0);
        value
    }

    fn value_key(value: &Self::Value) -> u32 {
        value.key
    }
}

fn merge_naive(streams: &[&[u32]], direction: Direction) -> Vec<Value> {
    let mut result: Vec<Value> = streams
        .iter()
        .enumerate()
        .flat_map(|(stream_index, keys)| {
            keys.iter().map(move |&key| Value { key, version: stream_index as u32 })
        })
        .collect();

    result.sort_by(|a, b| {
        if Value::less_than(direction, *a, *b) {
            std::cmp::Ordering::Less
        } else if Value::less_than(direction, *b, *a) {
            std::cmp::Ordering::Greater
        } else {
            std::cmp::Ordering::Equal
        }
    });

    let mut deduplicated = Vec::with_capacity(result.len());
    let mut previous_key: Option<u32> = None;
    for value in result {
        if previous_key.is_some_and(|p| p == value.key) {
            continue;
        }
        previous_key = Some(value.key);
        deduplicated.push(value);
    }
    deduplicated
}

fn merge<const STREAMS_MAX: usize, const NODE_COUNT_MAX: usize>(
    direction: Direction,
    streams_keys: &[&[u32]],
    expect: Option<&[Value]>,
) -> Result<(), Pending> {
    let mut actual: Vec<Value> = Vec::new();

    let streams: Vec<Vec<Value>> = streams_keys
        .iter()
        .enumerate()
        .map(|(i, stream_keys)| {
            stream_keys.iter().map(|&key| Value { key, version: i as u32 }).collect()
        })
        .collect();

    let expect_naive = merge_naive(streams_keys, direction);

    if let Some(expect_explicit) = expect {
        assert_eq!(expect_naive, expect_explicit);
    }

    let context = TestContext::<STREAMS_MAX>::new(streams);
    let mut kway = KWayMergeIterator::<
        TestContext<STREAMS_MAX>,
        STREAMS_MAX,
        NODE_COUNT_MAX,
        true,
    >::init(context, streams_keys.len() as u16, direction);

    while let Some(value) = kway.pop()? {
        actual.push(value);
    }

    assert_eq!(expect_naive, actual);
    Ok(())
}

#[test]
fn k_way_merge_unit() -> Result<(), Pending> {
    // Empty stream.
    merge::<1, 1>(Direction::Ascending, &[], Some(&[]))?;

    merge::<1, 1>(
        Direction::Ascending,
        &[&[0, 3, 4, 8]],
        Some(&[value(0, 0), value(3, 0), value(4, 0), value(8, 0)]),
    )?;
    merge::<1, 1>(
        Direction::Descending,
        &[&[8, 4, 3, 0]],
        Some(&[value(8, 0), value(4, 0), value(3, 0), value(0, 0)]),
    )?;
    merge::<3, 4>(
        Direction::Ascending,
        &[&[0, 3, 4, 8, 11], &[2, 11, 12, 13, 15], &[1, 2, 11]],
        Some(&[
            value(0, 0),
            value(1, 2),
            value(2, 1),
            value(3, 0),
            value(4, 0),
            value(8, 0),
            value(11, 0),
            value(12, 1),
            value(13, 1),
            value(15, 1),
        ]),
    )?;
    merge::<3, 4>(
        Direction::Descending,
        &[&[11, 8, 4, 3, 0], &[15, 13, 12, 11, 2], &[11, 2, 1]],
        Some(&[
            value(15, 1),
            value(13, 1),
            value(12, 1),
            value(11, 0),
            value(8, 0),
            value(4, 0),
            value(3, 0),
            value(2, 1),
            value(1, 2),
            value(0, 0),
        ]),
    )?;

    merge::<32, 32>(
        Direction::Ascending,
        &[&[0, 3, 4, 8]],
        Some(&[value(0, 0), value(3, 0), value(4, 0), value(8, 0)]),
    )?;

    merge::<32, 32>(
        Direction::Descending,
        &[&[11, 8, 4, 3, 0], &[15, 13, 12, 11, 2], &[11, 2, 1]],
        Some(&[
            value(15, 1),
            value(13, 1),
            value(12, 1),
            value(11, 0),
            value(8, 0),
            value(4, 0),
            value(3, 0),
            value(2, 1),
            value(1, 2),
            value(0, 0),
        ]),
    )?;

    Ok(())
}

#[test]
fn k_way_merge_exhaustigen() -> Result<(), Pending> {
    // Every stream of up to M keys, each of up to M.
    let mut all_streams: Vec<Vec<u32>> = vec![vec![]];
    let mut longest: Vec<Vec<u32>> = vec![vec![]];
    for _ in 0..M {
        let mut longer: Vec<Vec<u32>> = Vec::new();
        for stream in &longest {
            for key in 0..=M {
                let mut stream = stream.clone();
                stream.push(key);
                longer.push(stream);
            }
        }
        all_streams.extend(longer.iter().cloned());
        longest = longer;
    }

    for direction in [Direction::Ascending, Direction::Descending] {
        let count = all_streams.len().pow(N as u32);
        for case in 0..count {
            let mut rest = case;
            let mut streams: Vec<Vec<u32>> = Vec::with_capacity(N);
            for _ in 0..N {
                let mut keys = all_streams[rest % all_streams.len()].clone();
                rest /= all_streams.len();
                keys.sort_unstable();
                if direction == Direction::Descending {
                    keys.reverse();
                }
                streams.push(keys);
            }
            let streams_refs: Vec<&[u32]> = streams.iter().map(Vec::as_slice).collect();

            merge::<3, 4>(direction, &streams_refs, None)?;
        }
    }
    Ok(())
}

struct FuzzTestContext<const STREAMS_MAX: usize> {
    prng: Prng,
    inner: TestContext<STREAMS_MAX>,
}

impl<const STREAMS_MAX: usize> MergeStream for FuzzTestContext<STREAMS_MAX> {
    type Key = u32;
    type Value = Value;

    fn stream_peek(&mut self, stream_index: u32) -> Result<Option<u32>, Pending> {
        if self.prng.up_to(99) < 5 {
            return Err(Pending);
        }
        self.inner.stream_peek(stream_index)
    }

    fn stream_pop(&mut self, stream_index: u32) -> Value {
        self.inner.stream_pop(stream_index)
    }

    fn value_key(value: &Self::Value) -> u32 {
        value.key
    }
}

fn fuzz_merge(
    direction: Direction,
    streams_keys: &[&[u32]],
    expect: &[Value],
    prng: &mut Prng,
) {
    let mut actual: Vec<Value> = Vec::new();

    let streams: Vec<Vec<Value>> = streams_keys
        .iter()
        .enumerate()
        .map(|(i, stream_keys)| {
            stream_keys.iter().map(|&key| Value { key, version: i as u32 }).collect()
        })
        .collect();

    let context = FuzzTestContext::<32> { prng: Prng::from_seed(prng.next()), inner: TestContext::<32>::new(streams) };
    let mut kway = KWayMergeIterator::<FuzzTestContext<32>, 32, 32, true>::init(
        context,
        streams_keys.len() as u16,
        direction,
    );

    let mut values_popped: usize = 0;
    while values_popped < expect.len() {
        let roll = prng.up_to(99);
        if roll < 98 {
            match kway.pop() {
                Err(Pending) => {}
                Ok(None) => break,
                Ok(Some(value)) => {
                    actual.push(value);
                    values_popped += 1;
                }
            }
        } else {
            kway.reset();
        }
    }

    assert_eq!(expect, actual);
}

fn fuzz_stream_len(prng: &mut Prng, stream_key_count_max: u32) -> u32 {
    let roll = prng.up_to(99);
    if roll < 5 {
        0
    } else if roll < 10 {
        stream_key_count_max
    } else {
        prng.up_to(u64::from(stream_key_count_max)) as u32
    }
}

fn fuzz_stream_keys(prng: &mut Prng, stream: &mut [u32]) {
    let key_max = 512 + prng.up_to(1023 - 512) as u32;
    if prng.up_to(99) < 5 {
        let key = prng.next() as u32;
        stream.fill(key);
    } else {
        for key in stream.iter_mut() {
            *key = prng.next() as u32;
        }
    }
    for key in stream.iter_mut() {
        *key %= key_max;
    }
    stream.sort_unstable();
}

#[test]
fn k_way_merge_fuzz() {
    let mut prng = Prng::from_seed(42);
    let stream_key_count_max: u32 = 1024;

    for k in 0..32_usize {
        let mut streams: Vec<Vec<u32>> = Vec::with_capacity(k);
        for _ in 0..k {
            let len = fuzz_stream_len(&mut prng, stream_key_count_max) as usize;
            let mut keys = vec![0_u32; len];
            fuzz_stream_keys(&mut prng, &mut keys);
            streams.push(keys);
        }
        let streams_refs: Vec<&[u32]> = streams.iter().map(Vec::as_slice).collect();

        let mut expect = merge_naive(&streams_refs, Direction::Ascending);

        fuzz_merge(Direction::Ascending, &streams_refs, &expect, &mut prng);

        for stream in &mut streams {
            stream.reverse();
        }
        expect.reverse();

        let streams_refs: Vec<&[u32]> = streams.iter().map(Vec::as_slice).collect();
        fuzz_merge(Direction::Descending, &streams_refs, &expect, &mut prng);
    }
}

#[test]
fn tournament_tree_matches_brute_force() {
    // Streams of distinct ids with overlapping keys; drain the tree one entrant at a time
    // and confirm it always yields the global minimum (ascending) among live contestants.
    let keys_per_stream: [&[u32]; 7] =
        [&[1, 5, 9], &[1, 2, 9], &[7], &[], &[0], &[5, 5, 6], &[3, 8, 10]];

    let mut heads: Vec<Vec<(u32, u32)>> = keys_per_stream
        .iter()
        .map(|keys| keys.iter().copied().enumerate().map(|(i, k)| (k, i as u32)).collect())
        .collect();

    let mut contestants = [Node::<u32>::sentinel(); 8];
    for (id, head) in heads.iter().enumerate() {
        if let Some(&(key, _)) = head.first() {
            contestants[id] = Node { key, id: id as u32 };
        }
    }

    let mut tree = TournamentTree::<u32, 8>::init(
        Direction::Ascending,
        &mut contestants,
        heads.len() as u16,
    );

    let mut merged: Vec<u32> = Vec::new();
    while tree.contestants_left() > 0 {
        let winner_id = tree.winner().id as usize;
        let &(key, _) = heads[winner_id].first().unwrap_or(&(u32::MAX, 0));
        tree.pop_winner(if heads[winner_id].is_empty() { None } else { Some(key) });
        if tree.contestants_left() == 0 {
            break;
        }
        // Pop from the NEW winner's stream (see KWayMergeIterator::pop ordering).
        let new_winner_id = tree.winner().id as usize;
        if !heads[new_winner_id].is_empty() {
            let (k, _) = heads[new_winner_id].remove(0);
            merged.push(k);
            let entrant = heads[new_winner_id].first().map(|&(k, _)| k);
            tree.pop_winner(entrant);
        }
    }

    // The interleaving above must produce globally non-decreasing keys.
    let mut previous: Option<u32> = None;
    for key in merged {
        if let Some(p) = previous {
            assert!(p <= key);
        }
        previous = Some(key);
    }
}

#[test]
fn tournament_key_sentinels_match_upstream() {
    assert_eq!(<u8 as TournamentKey>::sentinel_key(), u8::MAX);
    assert_eq!(<u16 as TournamentKey>::sentinel_key(), u16::MAX);
    assert_eq!(<u32 as TournamentKey>::sentinel_key(), u32::MAX);
    assert_eq!(<u64 as TournamentKey>::sentinel_key(), u64::MAX);
    assert_eq!(<u128 as TournamentKey>::sentinel_key(), u128::MAX);
    assert_eq!(Node::<u32>::ID_SENTINEL, u32::MAX);
}

#[test]
fn ceil_power_of_two_rounds_up() {
    for (n, expected) in [(0, 1), (1, 1), (2, 2), (3, 4), (5, 8), (1024, 1024), (1025, 2048)] {
        assert_eq!(ceil_power_of_two(n), expected);
    }
}

#[test]
fn merge_without_deduplication_keeps_all_values() -> Result<(), Pending> {
    let streams = vec![
        vec![value(1, 0), value(1, 1), value(4, 2)],
        vec![value(1, 3), value(2, 4)],
    ];
    let context = TestContext::<2>::new(streams);
    let mut kway =
        KWayMergeIterator::<TestContext<2>, 2, 2, false>::init(context, 2, Direction::Ascending);
    let mut actual = Vec::new();
    while let Some(value) = kway.pop()? {
        actual.push(value.version);
    }
    assert_eq!(actual, vec![0, 1, 3, 4, 2]);
    assert_eq!(kway.pop(), Ok(None));
    Ok(())
}

/// Which streams are not ready, and which were peeked.
struct Waiting {
    pending: Vec<bool>,
    peeked: Vec<u32>,
}

struct WaitingContext {
    inner: TestContext<2>,
    waiting: Rc<RefCell<Waiting>>,
}

impl MergeStream for WaitingContext {
    type Key = u32;
    type Value = Value;

    fn stream_peek(&mut self, stream_index: u32) -> Result<Option<u32>, Pending> {
        self.waiting.borrow_mut().peeked.push(stream_index);
        if self.waiting.borrow().pending[stream_index as usize] {
            return Err(Pending);
        }
        self.inner.stream_peek(stream_index)
    }

    fn stream_pop(&mut self, stream_index: u32) -> Value {
        self.inner.stream_pop(stream_index)
    }

    fn value_key(value: &Self::Value) -> u32 {
        value.key
    }
}

#[test]
fn only_the_stream_that_gave_the_last_value_is_awaited() {
    let waiting =
        Rc::new(RefCell::new(Waiting { pending: vec![false, true], peeked: Vec::new() }));
    let context = WaitingContext {
        inner: TestContext::new(vec![vec![value(1, 0), value(3, 0)], vec![value(2, 1)]]),
        waiting: Rc::clone(&waiting),
    };
    let mut it =
        KWayMergeIterator::<WaitingContext, 2, 2, false>::init(context, 2, Direction::Ascending);
    let set = |pending: [bool; 2]| {
        waiting.borrow_mut().pending = pending.to_vec();
        waiting.borrow_mut().peeked.clear();
    };

    // All heads have to be known at first.
    assert!(it.pop().is_err());
    set([false, false]);
    assert!(matches!(it.pop(), Ok(Some(Value { key: 1, version: 0 }))));

    set([false, true]);
    assert!(matches!(it.pop(), Ok(Some(Value { key: 2, version: 1 }))));
    assert_eq!(waiting.borrow().peeked, [0]);

    set([false, true]);
    assert!(it.pop().is_err());
    assert_eq!(waiting.borrow().peeked, [1]);

    set([true, false]);
    assert!(matches!(it.pop(), Ok(Some(Value { key: 3, version: 0 }))));
    assert_eq!(waiting.borrow().peeked, [1]);

    set([true, false]);
    assert!(it.pop().is_err());
    set([false, false]);
    assert!(matches!(it.pop(), Ok(None)));
}
