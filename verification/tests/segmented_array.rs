use tigerbeetle::segmented_array::{
    node_capacity_for, node_count_max, Direction, SegmentedArray, SegmentedArraySpec,
};

/// A small generator of numbers that look random.
struct Prng {
    state: u64,
}

impl Prng {
    fn from_seed(seed: u64) -> Self {
        Prng { state: seed.wrapping_mul(0x9e37_79b9_7f4a_7c15) ^ 0x1234_5678_9abc_def1 }
    }

    fn next(&mut self) -> u64 {
        self.state ^= self.state << 13;
        self.state ^= self.state >> 7;
        self.state ^= self.state << 17;
        self.state.wrapping_mul(0x2545_f491_4f6c_dd1d)
    }

    fn range(&mut self, min: usize, max: usize) -> usize {
        min + (self.next() % (max - min + 1) as u64) as usize
    }
}

struct Spec<const SORTED: bool, const COUNT_MAX: u32, const CAPACITY: usize>;

impl<const SORTED: bool, const COUNT_MAX: u32, const CAPACITY: usize> SegmentedArraySpec
    for Spec<SORTED, COUNT_MAX, CAPACITY>
{
    type Value = u32;
    type Key = u32;

    const SORTED: bool = SORTED;
    const ELEMENT_COUNT_MAX: u32 = COUNT_MAX;
    const NODE_CAPACITY: usize = CAPACITY;

    fn key_of(value: u32) -> u32 {
        value
    }

    fn key_from_value(value: &u32) -> u32 {
        *value
    }
}

/// [0, 0, 0, 100, 100, 100, ~0, ~0, ~0]: the search is left-biased.
#[test]
fn sorted_segmented_array_duplicate_elements() {
    assert_eq!(node_capacity_for(128 * 4, 4), 128);
    let mut array = SegmentedArray::<Spec<true, 1024, 128>>::new();

    for index in 0..3_usize {
        // Elements are inserted to the left of a row of duplicates.
        let mut inserted_at = array.insert_element(0);
        assert_eq!(inserted_at, 0);

        inserted_at = array.insert_element(100);
        assert_eq!(inserted_at, index as u32 + 1);

        inserted_at = array.insert_element(u32::MAX);
        assert_eq!(inserted_at, ((index + 1) * 2) as u32);
    }
    assert_eq!(array.len(), 9);

    // Search finds the leftmost element.
    assert_eq!(array.absolute_index_for_cursor(array.search(0)), 0);
    assert_eq!(array.absolute_index_for_cursor(array.search(100)), 3);
    assert_eq!(array.absolute_index_for_cursor(array.search(u32::MAX)), 6);

    // Iterators of both directions start at the leftmost element.
    {
        let target = 0_u32;
        let mut it = array.iterator_from_cursor(array.search(target), Direction::Ascending);
        assert_eq!(it.next().copied(), Some(0));
        assert_eq!(it.next().copied(), Some(0));
        assert_eq!(it.next().copied(), Some(0));
        assert_eq!(it.next().copied(), Some(100));

        let mut it = array.iterator_from_cursor(array.search(target), Direction::Descending);
        assert_eq!(it.next().copied(), Some(0));
        assert_eq!(it.next().copied(), None);
    }

    {
        let target = 100_u32;
        let mut it = array.iterator_from_cursor(array.search(target), Direction::Ascending);
        assert_eq!(it.next().copied(), Some(100));
        assert_eq!(it.next().copied(), Some(100));
        assert_eq!(it.next().copied(), Some(100));
        assert_eq!(it.next().copied(), Some(u32::MAX));

        let mut it = array.iterator_from_cursor(array.search(target), Direction::Descending);
        assert_eq!(it.next().copied(), Some(100));
        assert_eq!(it.next().copied(), Some(0));
    }

    {
        let target = u32::MAX;
        let mut it = array.iterator_from_cursor(array.search(target), Direction::Ascending);
        assert_eq!(it.next().copied(), Some(u32::MAX));
        assert_eq!(it.next().copied(), Some(u32::MAX));
        assert_eq!(it.next().copied(), Some(u32::MAX));
        assert_eq!(it.next().copied(), None);

        let mut it = array.iterator_from_cursor(array.search(target), Direction::Descending);
        assert_eq!(it.next().copied(), Some(u32::MAX));
        assert_eq!(it.next().copied(), Some(100));
    }
}

struct FuzzContext<'a, S: SegmentedArraySpec<Value = u32, Key = u32>> {
    prng: &'a mut Prng,
    array: SegmentedArray<S>,
    reference: Vec<u32>,
    inserts: u64,
    removes: u64,
}

impl<'a, S: SegmentedArraySpec<Value = u32, Key = u32>> FuzzContext<'a, S> {
    fn new(prng: &'a mut Prng) -> Self {
        Self {
            prng,
            array: SegmentedArray::new(),
            reference: Vec::new(),
            inserts: 0,
            removes: 0,
        }
    }

    fn run(&mut self) {
        for insert_weight in [60, 40] {
            for _ in 0..S::ELEMENT_COUNT_MAX as usize * 2 {
                if self.prng.range(0, 99) < insert_weight {
                    self.insert();
                } else {
                    self.remove();
                }
            }
        }

        // Rarely, the code above won't generate an insert at all.
        if self.inserts > 0 {
            self.remove_all();
        }

        if !S::SORTED {
            // Insert at the beginning of the array until the array is full.
            while self.array.len() < S::ELEMENT_COUNT_MAX {
                self.insert_before_first();
            }
            assert!(self.array.node_count() as usize >= self.array.node_count_max() - 1);

            // Remove all-but-one elements from the last node and insert them into the first node.
            let last_node = self.array.node_count() - 1;
            let element_count_last = self.array.count(last_node);
            for _ in 0..element_count_last - 1 {
                self.remove_last();
                self.insert_before_first();
            }

            // We should now have maxed out our node count.
            assert_eq!(self.array.node_count() as usize, self.array.node_count_max());

            self.remove_all();
        }
        assert!(self.array.verify());
    }

    fn insert(&mut self) {
        let reference_len = self.reference.len() as u32;
        let count_free = S::ELEMENT_COUNT_MAX - reference_len;
        if count_free == 0 {
            return;
        }

        let count_max = (count_free as usize).min(S::NODE_CAPACITY * 3);
        let count = self.prng.range(1, count_max);
        let values: Vec<u32> = (0..count).map(|_| self.prng.next() as u32).collect();

        if S::SORTED {
            for value in values {
                let index_actual = self.array.insert_element(value);
                let index_expect = self.reference_index(value) as usize;
                self.reference.insert(index_expect, value);
                assert_eq!(index_expect as u32, index_actual);
            }
        } else {
            let index = self.prng.range(0, reference_len as usize);
            self.array.insert_elements(index as u32, &values);
            let tail: Vec<u32> = self.reference.drain(index..).collect();
            self.reference.extend_from_slice(&values);
            self.reference.extend(tail);
        }
        self.inserts += count as u64;

        self.verify();
    }

    fn remove(&mut self) {
        let reference_len = self.reference.len();
        if reference_len == 0 {
            return;
        }

        let count_max = reference_len.min(S::NODE_CAPACITY * 3);
        let count = self.prng.range(1, count_max);
        let index = self.prng.range(0, reference_len - count);

        self.array.remove_elements(index as u32, count as u32);
        self.reference.drain(index..index + count);
        self.removes += count as u64;

        self.verify();
    }

    fn insert_before_first(&mut self) {
        let insert_index = self.array.absolute_index_for_cursor(self.array.first());
        let element = self.prng.next() as u32;

        self.array.insert_elements(insert_index, &[element]);
        self.reference.insert(insert_index as usize, element);
        self.inserts += 1;

        self.verify();
    }

    fn remove_last(&mut self) {
        let remove_index = self.array.absolute_index_for_cursor(self.array.last());

        self.array.remove_elements(remove_index, 1);
        self.reference.remove(remove_index as usize);
        self.removes += 1;

        self.verify();
    }

    fn remove_all(&mut self) {
        while !self.reference.is_empty() {
            self.remove();
        }

        assert_eq!(self.array.len(), 0);
        assert!(self.inserts > 0);
        assert_eq!(self.inserts, self.removes);

        self.verify();
    }

    fn verify(&mut self) {
        assert_eq!(self.reference.len(), self.array.len() as usize);

        let mut it = self.array.iterator_from_index(0, Direction::Ascending);
        for expect in &self.reference {
            assert_eq!(Some(expect), it.next());
        }
        assert!(it.next().is_none());

        let start = (self.reference.len() as u32).saturating_sub(1);
        let mut it = self.array.iterator_from_index(start, Direction::Descending);
        for expect in self.reference.iter().rev() {
            assert_eq!(Some(expect), it.next());
        }
        assert!(it.next().is_none());

        for i in 0..self.reference.len() as u32 {
            assert_eq!(
                i,
                self.array.absolute_index_for_cursor(self.array.cursor_for_absolute_index(i)),
            );
        }

        if S::SORTED {
            for i in 1..self.reference.len() {
                assert!(self.reference[i - 1] <= self.reference[i]);
            }
        }

        if self.array.is_empty() {
            assert_eq!(self.array.node_count(), 0);
        }

        let node_count = self.array.node_count();
        for i in 1..node_count {
            assert!(self.array.count(i - 1) as usize >= S::NODE_CAPACITY / 2);
        }
        if S::SORTED {
            self.verify_search();
        }
    }

    fn verify_search(&mut self) {
        let mut queries = [0_u32; 20];
        for query in &mut queries {
            *query = self.prng.next() as u32;
        }
        queries[0] = 0;
        queries[1] = u32::MAX;

        for &query in &queries {
            assert_eq!(
                self.reference_index(query),
                self.array.absolute_index_for_cursor(self.array.search(query)),
            );
        }

        let mut iterator_end =
            self.array.iterator_from_cursor(self.array.search(u32::MAX), Direction::Ascending);
        while let Some(item) = iterator_end.next() {
            assert_eq!(*item, u32::MAX);
        }

        let mut iterator_start =
            self.array.iterator_from_cursor(self.array.search(0), Direction::Descending);
        if self.reference.is_empty() {
            assert!(iterator_start.next().is_none());
        } else {
            assert!(iterator_start.next().is_some());
            assert!(iterator_start.next().is_none());
        }
    }

    fn reference_index(&self, key: u32) -> u32 {
        self.reference.partition_point(|&value| value < key) as u32
    }
}

fn run_fuzz<S: SegmentedArraySpec<Value = u32, Key = u32>>(prng: &mut Prng) {
    FuzzContext::<S>::new(prng).run();
}

#[test]
fn segmented_array_fuzz() {
    let mut prng = Prng::from_seed(42);

    run_fuzz::<Spec<true, 3, 2>>(&mut prng);
    run_fuzz::<Spec<false, 3, 2>>(&mut prng);
    run_fuzz::<Spec<true, 4, 2>>(&mut prng);
    run_fuzz::<Spec<false, 4, 2>>(&mut prng);
    run_fuzz::<Spec<true, 5, 2>>(&mut prng);
    run_fuzz::<Spec<false, 5, 2>>(&mut prng);
    run_fuzz::<Spec<true, 6, 2>>(&mut prng);
    run_fuzz::<Spec<false, 6, 2>>(&mut prng);
    run_fuzz::<Spec<true, 1024, 2>>(&mut prng);
    run_fuzz::<Spec<false, 1024, 2>>(&mut prng);
    run_fuzz::<Spec<true, 1024, 16>>(&mut prng);
    run_fuzz::<Spec<false, 1024, 16>>(&mut prng);
    run_fuzz::<Spec<true, 1024, 32>>(&mut prng);
    run_fuzz::<Spec<false, 1024, 32>>(&mut prng);
    run_fuzz::<Spec<true, 1024, 64>>(&mut prng);
    run_fuzz::<Spec<false, 1024, 64>>(&mut prng);
}

#[test]
fn node_capacity_is_even() {
    assert_eq!(node_capacity_for(16 * 4, 4), 16);
    assert_eq!(node_capacity_for(32 * 4, 4), 32);
    assert_eq!(node_capacity_for(64 * 4, 4), 64);
    assert_eq!(node_capacity_for(20, 4), 4);
}

#[test]
fn node_counts_are_bounded() {
    assert_eq!(node_count_max(3, 2), 2);
    assert_eq!(node_count_max(4, 2), 3);
    assert_eq!(node_count_max(1024, 64), 32);
}

#[test]
fn nodes_end_in_their_last_elements() {
    let mut array = SegmentedArray::<Spec<false, 6, 2>>::new();
    array.insert_elements(0, &[1, 2, 3, 4, 5]);
    let last = array.node_count() - 1;
    assert_eq!(array.node_last_element(last), 5);
    assert!(array.verify());
}

#[test]
fn removing_undoes_inserting() {
    let mut array = SegmentedArray::<Spec<false, 1024, 4>>::new();
    array.insert_elements(0, &[1, 2, 3, 4, 5, 6, 7]);
    array.insert_elements(3, &[10, 11, 12, 13, 14, 15, 16, 17, 18]);
    assert_eq!(array.len(), 16);
    array.remove_elements(3, 9);
    let mut it = array.iterator_from_index(0, Direction::Ascending);
    for expect in 1..=7 {
        assert_eq!(it.next(), Some(&expect));
    }
    assert!(it.next().is_none());
}

fn sizes<S: SegmentedArraySpec>(array: &SegmentedArray<S>) -> Vec<u32> {
    (0..array.node_count()).map(|node| array.count(node)).collect()
}

#[test]
fn nodes_are_split_and_merged() {
    let mut array = SegmentedArray::<Spec<false, 32, 4>>::new();
    assert!(sizes(&array).is_empty());
    let elements: Vec<u32> = (0..10).collect();
    array.insert_elements(0, &elements);
    assert_eq!(sizes(&array), [4, 3, 3]);
    array.replace_element(5, 55);
    assert_eq!(sizes(&array), [4, 3, 3]);
    // The last of one node and the first of the next: both stay half full.
    array.remove_elements(3, 2);
    assert_eq!(sizes(&array), [3, 2, 3]);
    array.remove_elements(0, 3);
    assert_eq!(sizes(&array), [2, 3]);
    array.remove_elements(1, 1);
    assert_eq!(sizes(&array), [4]);
    assert_eq!(array.node_elements(0), [55, 7, 8, 9]);
    array.reset();
    assert!(sizes(&array).is_empty());

    let mut array = SegmentedArray::<Spec<true, 32, 4>>::new();
    for element in [1, 2, 3, 4] {
        array.insert_element(element);
    }
    assert_eq!(sizes(&array), [4]);
    assert_eq!(array.insert_element(0), 0);
    assert_eq!(sizes(&array), [3, 2]);
}
