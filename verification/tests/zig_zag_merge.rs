use std::cell::RefCell;
use std::rc::Rc;
use tigerbeetle::direction::Direction;
use tigerbeetle::zig_zag_merge::{Pending, ZigZagMergeIterator, ZigZagMergeSpec};

/// A small generator of numbers that look random.
struct Prng {
    state: u64,
}

impl Prng {
    fn from_seed(seed: u64) -> Self {
        Prng { state: seed.wrapping_mul(0x9e37_79b9_7f4a_7c15) ^ 0x1234_5678_9abc_def1 }
    }

    fn next(&mut self) -> u64 {
        self.state ^= self.state << 13;
        self.state ^= self.state >> 7;
        self.state ^= self.state << 17;
        self.state.wrapping_mul(0x2545_f491_4f6c_dd1d)
    }

    fn range(&mut self, min: usize, max: usize) -> usize {
        min + (self.next() % (max - min + 1) as u64) as usize
    }

    fn int_u128(&mut self) -> u128 {
        (u128::from(self.next()) << 64) | u128::from(self.next())
    }
}

struct TestStream {
    values: Vec<u128>,
    start: usize,
    len: usize,
}

struct TestContext<const STREAMS_MAX: usize> {
    streams: Vec<TestStream>,
    direction: Direction,
}

impl<const STREAMS_MAX: usize> ZigZagMergeSpec for TestContext<STREAMS_MAX> {
    type Context = Self;
    type Key = u128;
    type Value = u128;

    const STREAMS_MAX: usize = STREAMS_MAX;

    fn key_from_value(value: &u128) -> u128 {
        *value
    }

    fn stream_peek(context: &mut Self, stream_index: u32) -> Result<Option<u128>, Pending> {
        let stream = &context.streams[stream_index as usize];
        if stream.len == 0 {
            return Ok(None);
        }
        Ok(Some(match context.direction {
            Direction::Ascending => stream.values[stream.start],
            Direction::Descending => stream.values[stream.start + stream.len - 1],
        }))
    }

    fn stream_pop(context: &mut Self, stream_index: u32) -> u128 {
        let stream = &mut context.streams[stream_index as usize];
        match context.direction {
            Direction::Ascending => {
                let value = stream.values[stream.start];
                stream.start += 1;
                stream.len -= 1;
                value
            }
            Direction::Descending => {
                stream.len -= 1;
                stream.values[stream.start + stream.len]
            }
        }
    }

    fn stream_probe(context: &mut Self, stream_index: u32, probe_key: u128) {
        loop {
            let Ok(Some(key)) = Self::stream_peek(context, stream_index) else {
                break;
            };
            let reached = match context.direction {
                Direction::Ascending => key >= probe_key,
                Direction::Descending => key <= probe_key,
            };
            if reached {
                break;
            }
            let value = Self::stream_pop(context, stream_index);
            assert_eq!(key, value);
        }
    }
}

impl<const STREAMS_MAX: usize> TestContext<STREAMS_MAX> {
    fn merge(streams: &[&[u128]], expect: &[u128]) {
        for direction in [Direction::Ascending, Direction::Descending] {
            let context = Self {
                streams: streams
                    .iter()
                    .map(|stream| TestStream {
                        values: stream.to_vec(),
                        start: 0,
                        len: stream.len(),
                    })
                    .collect(),
                direction,
            };

            let mut actual = Vec::new();
            let streams_count = streams.len() as u32;
            let mut it = ZigZagMergeIterator::<Self>::new(context, streams_count, direction);
            loop {
                match it.pop() {
                    Ok(Some(value)) => actual.push(value),
                    Ok(None) => break,
                    Err(_) => panic!("test streams never pend"),
                }
            }

            if direction == Direction::Descending {
                actual.reverse();
            }
            assert_eq!(actual, expect);
        }
    }

    fn fuzz(prng: &mut Prng, stream_key_count_max: usize) {
        const INTERSECTION_LEN_MIN: usize = 5;
        for streams_count in 2..=STREAMS_MAX {
            let mut streams: Vec<Vec<u128>> = Vec::new();
            let mut stream_len_min = stream_key_count_max;
            for _ in 0..streams_count {
                let len = prng.range(INTERSECTION_LEN_MIN, stream_key_count_max);
                stream_len_min = stream_len_min.min(len);
                streams.push(vec![0; len]);
            }

            let intersection_len = prng.range(INTERSECTION_LEN_MIN, stream_len_min);
            assert!(INTERSECTION_LEN_MIN <= intersection_len);
            assert!(intersection_len <= stream_len_min);
            let mut intersection = vec![0u128; intersection_len];
            for value in intersection.iter_mut() {
                *value = prng.int_u128();
            }
            intersection.sort_unstable();
            for stream in &mut streams {
                stream[..intersection_len].copy_from_slice(&intersection);
                for value in &mut stream[intersection_len..] {
                    *value = prng.int_u128();
                }
                stream.sort_unstable();
            }

            let mut refs: Vec<&[u128]> = streams.iter().map(Vec::as_slice).collect();
            Self::merge(&refs, &intersection);

            let dummy: [u128; 10] = [1, 2, 3, 4, 5, 6, 7, 8, 9, 10];
            let last = refs.len() - 1;
            refs[last] = &dummy;
            Self::merge(&refs, &[]);

            let empty: [u128; 0] = [];
            refs[last] = &empty;
            Self::merge(&refs, &[]);
        }
    }
}

#[test]
fn zig_zag_merge_unit() {
    type Context = TestContext<10>;

    // Equal streams:
    Context::merge(&[&[1, 2, 3, 4, 5], &[1, 2, 3, 4, 5], &[1, 2, 3, 4, 5]], &[1, 2, 3, 4, 5]);

    // Disjoint streams:
    Context::merge(&[&[1, 3, 5, 7, 9], &[2, 4, 6, 8, 10]], &[]);

    // Equal and disjoint streams:
    Context::merge(
        &[&[1, 3, 5, 7, 9], &[1, 3, 5, 7, 9], &[2, 4, 6, 8, 10], &[2, 4, 6, 8, 10]],
        &[],
    );

    // Intersection with an empty stream:
    Context::merge(&[&[2, 4, 6, 8, 10], &[2, 4, 6, 8, 10], &[]], &[]);

    // Partial intersection:
    Context::merge(
        &[&[1, 2, 3, 4, 5], &[2, 3, 4, 5, 6], &[3, 4, 5, 6, 7], &[4, 5, 6, 7, 8]],
        &[4, 5],
    );

    // Intersection with streams of different sizes:
    let thousands: Vec<u128> = (1..=1000).collect();
    let hundreds: Vec<u128> = (1..=100).map(|i| 10 * i).collect();
    let powers: Vec<u128> = (0..10).map(|i| 10u128.pow(i)).collect();
    Context::merge(&[&thousands, &hundreds, &powers], &[10, 100, 1000]);

    // Sparse matching values:
    let low: Vec<u128> = (1..=100).collect();
    let high: Vec<u128> = (0..100).map(|i| i + 100).collect();
    Context::merge(&[&low, &high], &[100]);
    Context::merge(&[&high, &low], &[100]);
}

#[test]
fn zig_zag_merge_fuzz() {
    let mut prng = Prng::from_seed(42);
    TestContext::<32>::fuzz(&mut prng, 256);
}

/// Streams that pend as the test says. Probes are recorded.
struct PendShared {
    streams: Vec<Vec<u128>>,
    cursor: Vec<usize>,
    pend: Vec<bool>,
    probe_log: Vec<(u32, u128)>,
}

struct TestPendContext<const STREAMS_MAX: usize> {
    shared: Rc<RefCell<PendShared>>,
}

impl<const STREAMS_MAX: usize> TestPendContext<STREAMS_MAX> {
    fn new(streams: Vec<Vec<u128>>) -> Self {
        let count = streams.len();
        Self {
            shared: Rc::new(RefCell::new(PendShared {
                streams,
                cursor: vec![0; count],
                pend: vec![false; count],
                probe_log: Vec::new(),
            })),
        }
    }
}

impl<const STREAMS_MAX: usize> ZigZagMergeSpec for TestPendContext<STREAMS_MAX> {
    type Context = Self;
    type Key = u128;
    type Value = u128;

    const STREAMS_MAX: usize = STREAMS_MAX;

    fn key_from_value(value: &u128) -> u128 {
        *value
    }

    fn stream_peek(context: &mut Self, stream_index: u32) -> Result<Option<u128>, Pending> {
        let index = stream_index as usize;
        let shared = context.shared.borrow();
        if shared.pend[index] {
            return Err(Pending);
        }
        let stream = &shared.streams[index];
        if shared.cursor[index] >= stream.len() {
            return Ok(None);
        }
        Ok(Some(stream[shared.cursor[index]]))
    }

    fn stream_pop(context: &mut Self, stream_index: u32) -> u128 {
        let index = stream_index as usize;
        let mut shared = context.shared.borrow_mut();
        let value = shared.streams[index][shared.cursor[index]];
        shared.cursor[index] += 1;
        value
    }

    fn stream_probe(context: &mut Self, stream_index: u32, probe_key: u128) {
        let index = stream_index as usize;
        let mut shared = context.shared.borrow_mut();
        shared.probe_log.push((stream_index, probe_key));
        let advance = shared.streams[index]
            .iter()
            .skip(shared.cursor[index])
            .take_while(|&&key| key < probe_key)
            .count();
        shared.cursor[index] += advance;
    }
}

#[test]
fn zig_zag_merge_pending_surfaces_after_pinning_candidate() {
    type Context = TestPendContext<32>;

    let context = Context::new(vec![vec![2, 4, 6], vec![4, 5, 6, 7, 8], vec![4, 6, 8]]);
    let shared = Rc::clone(&context.shared);
    let mut it = ZigZagMergeIterator::<Context>::new(context, 3, Direction::Ascending);

    // Stream 0 has to be refilled.
    shared.borrow_mut().pend[0] = true;
    assert_eq!(it.pop(), Err(Pending));
    // Streams 1 and 2 share the key 4: stream 0 is told to skip to it.
    assert_eq!(shared.borrow().probe_log, vec![(0, 4)]);
    assert_eq!(shared.borrow().cursor[0], 1);

    shared.borrow_mut().pend[0] = false;
    let mut actual = Vec::new();
    while let Ok(Some(value)) = it.pop() {
        actual.push(value);
    }
    assert_eq!(actual, vec![4, 6]);
}

#[test]
fn zig_zag_merge_pending_all_streams_short_circuits() {
    type Context = TestPendContext<32>;

    let context = Context::new(vec![vec![1, 2], vec![1, 2], vec![1, 2]]);
    let shared = Rc::clone(&context.shared);
    shared.borrow_mut().pend.fill(true);
    let mut it = ZigZagMergeIterator::<Context>::new(context, 3, Direction::Ascending);

    assert_eq!(it.pop(), Err(Pending));
    assert!(shared.borrow().probe_log.is_empty());
}

#[test]
fn streams_are_given_back() {
    type Context = TestPendContext<32>;

    let context = Context::new(vec![vec![2, 4, 6], vec![4, 5, 6]]);
    let mut it = ZigZagMergeIterator::<Context>::new(context, 2, Direction::Ascending);
    assert_eq!(it.pop(), Ok(Some(4)));
    let context = it.into_context();
    assert_eq!(context.shared.borrow().cursor[..2], [2, 1]);

    let mut it = ZigZagMergeIterator::<Context>::new(context, 2, Direction::Ascending);
    assert_eq!(it.pop(), Ok(Some(6)));
    assert_eq!(it.pop(), Ok(None));
}
