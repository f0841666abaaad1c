use tigerbeetle::node_pool::NodePool;

/// A small generator of numbers that look random.
struct Prng {
    state: u64,
}

impl Prng {
    fn from_seed(seed: u64) -> Self {
        Prng { state: seed.wrapping_mul(0x9e37_79b9_7f4a_7c15) ^ 0x1234_5678_9abc_def1 }
    }

    fn next(&mut self) -> u64 {
        self.state ^= self.state << 13;
        self.state ^= self.state >> 7;
        self.state ^= self.state << 17;
        self.state.wrapping_mul(0x2545_f491_4f6c_dd1d)
    }
}

fn all_words(bytes: &[u8], value: u64) -> bool {
    bytes.chunks(8).all(|word| word == value.to_le_bytes())
}

fn fill_words(bytes: &mut [u8], value: u64) {
    for chunk in bytes.chunks_mut(8) {
        chunk.copy_from_slice(&value.to_le_bytes());
    }
}

struct TestContext {
    sentinel: u64,
    node_pool: NodePool<128>,
    node_map: Vec<(usize, u64)>,
    acquires: u64,
    releases: u64,
}

impl TestContext {
    fn new(prng: &mut Prng, node_count: usize) -> Self {
        let mut node_pool = NodePool::<128>::new(node_count);
        let sentinel = prng.next();
        for node_index in 0..node_count {
            fill_words(node_pool.node_mut(node_index), sentinel);
        }
        Self { sentinel, node_pool, node_map: Vec::new(), acquires: 0, releases: 0 }
    }

    fn run(&mut self, prng: &mut Prng) {
        for acquire_weight in [60_u64, 40] {
            for _ in 0..self.node_pool.capacity() * 4 {
                if prng.next() % 100 < acquire_weight {
                    self.acquire(prng);
                } else {
                    self.release(prng);
                }
            }
        }
        self.release_all(prng);
    }

    fn acquire(&mut self, prng: &mut Prng) {
        if self.node_map.len() == self.node_pool.capacity() {
            return;
        }
        let node_index = self.node_pool.acquire();
        assert!(all_words(self.node_pool.node(node_index), self.sentinel));
        assert!(!self.node_map.iter().any(|&(index, _)| index == node_index));

        let id = prng.next();
        fill_words(self.node_pool.node_mut(node_index), id);
        self.node_map.push((node_index, id));
        self.acquires += 1;
    }

    fn release(&mut self, prng: &mut Prng) {
        if self.node_map.is_empty() {
            return;
        }
        let index = (prng.next() % self.node_map.len() as u64) as usize;
        let (node_index, id) = self.node_map[index];
        assert!(all_words(self.node_pool.node(node_index), id));

        fill_words(self.node_pool.node_mut(node_index), self.sentinel);
        self.node_pool.release(node_index);
        self.node_map.swap_remove(index);
        self.releases += 1;
    }

    fn release_all(&mut self, prng: &mut Prng) {
        while !self.node_map.is_empty() {
            self.release(prng);
        }
        for node_index in 0..self.node_pool.capacity() {
            assert!(all_words(self.node_pool.node(node_index), self.sentinel));
        }
        assert!(self.acquires > 0);
        assert_eq!(self.acquires, self.releases);
    }
}

#[test]
fn node_pool_acquire_release_fuzz() {
    let mut prng = Prng::from_seed(42);
    for node_count in 1..64 {
        let mut context = TestContext::new(&mut prng, node_count);
        context.run(&mut prng);
    }
}

#[test]
fn released_nodes_are_reusable() {
    let mut pool = NodePool::<8>::new(2);
    let first = pool.acquire();
    let second = pool.acquire();
    assert_ne!(first, second);
    assert!(!pool.all_free());

    pool.release(first);
    pool.release(second);
    assert!(pool.all_free());

    assert_eq!(pool.acquire(), 0);
    assert_eq!(pool.acquire(), 1);
}

#[test]
fn new_nodes_are_zero() {
    let pool = NodePool::<16>::new(3);
    assert_eq!(pool.capacity(), 3);
    for node_index in 0..3 {
        assert_eq!(pool.node(node_index), &[0_u8; 16]);
    }
}
