//! An array cut into nodes of bounded capacity, with logarithmic absolute indexing and, if the
//! spec asks for it, elements kept in key order. Manifest levels are built on it.
//!
//! Inserting and removing move elements within one or two nodes only. Every node but the last is
//! at least half full, which bounds how many nodes a given number of elements can occupy.

pub mod layout;

use crate::binary_search::{
    binary_search_keys_upsert_index, binary_search_values_upsert_index, is_upsert_index,
    value_ranks, Config, KeyFromValue, Mode,
};
pub use crate::direction::Direction;
use crate::key::{ranks, sorted, OrderedKey};
use crate::segmented_array::layout::{
    lemma_node_for, merged, node_for, settled, start_of, with_batch, with_elements, without_batch,
    without_elements,
};
use vstd::prelude::*;

verus! {

/// What an array holds and how large it may grow.
pub trait SegmentedArraySpec {
    type Value: Copy;

    /// Unused when `SORTED` is false.
    type Key: OrderedKey;

    /// Whether elements are kept in the order of their keys.
    const SORTED: bool;

    /// The most elements that the array may hold.
    const ELEMENT_COUNT_MAX: u32;

    /// Elements per node: even, and at least two.
    const NODE_CAPACITY: usize;

    spec fn key_of(value: Self::Value) -> Self::Key;

    /// The key that orders `value`.
    fn key_from_value(value: &Self::Value) -> (result: Self::Key)
        ensures
            result == Self::key_of(*value),
    ;
}

/// Reads keys as a `SegmentedArraySpec` does.
pub struct SpecKey<S: SegmentedArraySpec> {
    spec: core::marker::PhantomData<S>,
}

impl<S: SegmentedArraySpec> KeyFromValue<S::Value> for SpecKey<S> {
    type Key = S::Key;

    open spec fn key_of(&self, value: S::Value) -> S::Key {
        S::key_of(value)
    }

    fn key_from_value(&self, value: &S::Value) -> (result: S::Key) {
        S::key_from_value(value)
    }
}

/// The ranks of the keys of `values`.
pub open spec fn spec_ranks<S: SegmentedArraySpec>(values: Seq<S::Value>) -> Seq<int> {
    Seq::new(values.len(), |i: int| S::key_of(values[i]).rank())
}

/// The position of an element: its node, and its index within that node.
#[derive(Clone, Copy, Debug, PartialEq, Eq, Structural)]
pub struct Cursor {
    pub node: u32,
    pub relative_index: u32,
}

/// `elements` put into `values` at `index`.
pub open spec fn inserted<V>(values: Seq<V>, index: int, elements: Seq<V>) -> Seq<V> {
    values.subrange(0, index) + elements + values.subrange(index, values.len() as int)
}

/// `values` without the `count` elements from `index` on.
pub open spec fn removed<V>(values: Seq<V>, index: int, count: int) -> Seq<V> {
    values.subrange(0, index) + values.subrange(index + count, values.len() as int)
}

/// Removing the elements that were inserted gives back what was there.
pub proof fn law_remove_undoes_insert<V>(values: Seq<V>, index: int, elements: Seq<V>)
    requires
        0 <= index <= values.len(),
    ensures
        removed(inserted(values, index, elements), index, elements.len() as int) == values,
{
    assert(removed(inserted(values, index, elements), index, elements.len() as int) =~= values);
}

/// How many whole elements fit a node of `node_size` bytes, rounded down to an even number so
/// that nodes split and join at their midpoint.
#[must_use]
pub fn node_capacity_for(node_size: usize, element_size: usize) -> (result: usize)
    requires
        element_size > 0,
        node_size / element_size >= 2,
    ensures
        result == node_size / element_size - (node_size / element_size) % 2,
{
    let max: usize = node_size / element_size;
    if max % 2 == 0 {
        max
    } else {
        max - 1
    }
}

/// The most nodes that `element_count_max` elements can occupy.
///
/// Were every node half full there would be `naive` of them. To split one node more takes that
/// node full, one element in the last node, every other node half full, and the element that
/// comes in; where there are fewer elements than that, the last node is out of reach.
pub open spec fn spec_node_count_max(element_count_max: int, node_capacity: int) -> int {
    let half = node_capacity / 2;
    let naive = (element_count_max + half - 1) / half;
    let others = if naive > 3 {
        naive - 3
    } else {
        0
    };
    if element_count_max >= node_capacity + 1 + others * half + 1 {
        naive
    } else {
        naive - 1
    }
}

/// The most nodes that `element_count_max` elements can occupy.
#[must_use]
pub fn node_count_max(element_count_max: u32, node_capacity: usize) -> (result: usize)
    requires
        element_count_max > 0,
        node_capacity >= 2,
        node_capacity + element_count_max + 2 <= usize::MAX,
    ensures
        result == spec_node_count_max(element_count_max as int, node_capacity as int),
{
    let half: usize = node_capacity / 2;
    let naive: usize = (element_count_max as usize + half - 1) / half;
    proof {
        let e = element_count_max as int;
        let h = half as int;
        vstd::arithmetic::div_mod::lemma_fundamental_div_mod(e + h - 1, h);
        vstd::arithmetic::mul::lemma_mul_is_commutative(h, naive as int);
        assert(1 <= naive) by (nonlinear_arith)
            requires
                e >= 1,
                h >= 1,
                naive == (e + h - 1) / h,
        ;
        if naive > 3 {
            assert((naive - 3) * h <= e && (naive - 3) * h >= 0) by (nonlinear_arith)
                requires
                    naive > 3,
                    naive * h <= e + h - 1,
                    h >= 1,
            ;
        }
    }
    let others: usize = if naive > 3 {
        naive - 3
    } else {
        0
    };
    let split_budget: usize = node_capacity + 1 + others * half + 1;
    if element_count_max as usize >= split_budget {
        naive
    } else {
        naive - 1
    }
}

/// The nodes, the absolute index of each node's first element, and the elements as one sequence
/// describe the same array.
pub open spec fn linked<V>(nodes: Seq<Vec<V>>, indexes: Seq<u32>, contents: Seq<V>) -> bool {
    &&& indexes.len() == nodes.len() + 1
    &&& indexes[0] == 0
    &&& indexes[nodes.len() as int] == contents.len()
    &&& forall|i: int|
        0 <= i < nodes.len() ==> indexes[i + 1] == indexes[i] + (#[trigger] nodes[i])@.len()
    &&& forall|i: int, j: int|
        0 <= i < nodes.len() && 0 <= j < nodes[i]@.len() ==> #[trigger] nodes[i]@[j]
            == contents[indexes[i] + j]
}

/// A node that is neither empty nor over capacity and, unless it is the last, half full.
pub open spec fn node_fits<V>(nodes: Seq<Vec<V>>, i: int, capacity: int) -> bool {
    &&& 1 <= nodes[i]@.len() <= capacity
    &&& i + 1 < nodes.len() ==> nodes[i]@.len() >= capacity / 2
}

proof fn lemma_indexes_monotonic<V>(
    nodes: Seq<Vec<V>>,
    indexes: Seq<u32>,
    contents: Seq<V>,
    i: int,
    j: int,
)
    requires
        linked(nodes, indexes, contents),
        0 <= i <= j <= nodes.len(),
    ensures
        indexes[i] <= indexes[j] <= contents.len(),
    decreases nodes.len() - i,
{
    if i < j {
        assert(nodes[i]@.len() >= 0);
        lemma_indexes_monotonic(nodes, indexes, contents, i + 1, j);
    } else if i < nodes.len() {
        assert(nodes[i]@.len() >= 0);
        lemma_indexes_monotonic(nodes, indexes, contents, i + 1, nodes.len() as int);
    }
}

proof fn lemma_all_indexes_monotonic<V>(
    nodes: Seq<Vec<V>>,
    indexes: Seq<u32>,
    contents: Seq<V>,
)
    requires
        linked(nodes, indexes, contents),
    ensures
        forall|i: int, j: int|
            0 <= i <= j <= nodes.len() ==> #[trigger] indexes[i] <= #[trigger] indexes[j],
        forall|i: int| 0 <= i <= nodes.len() ==> #[trigger] indexes[i] <= contents.len(),
{
    assert forall|i: int, j: int| 0 <= i <= j <= nodes.len() implies #[trigger] indexes[i]
        <= #[trigger] indexes[j] by {
        lemma_indexes_monotonic(nodes, indexes, contents, i, j);
    }
    assert forall|i: int| 0 <= i <= nodes.len() implies #[trigger] indexes[i]
        <= contents.len() by {
        lemma_indexes_monotonic(nodes, indexes, contents, i, nodes.len() as int);
    }
}

/// An array of elements in nodes.
pub struct SegmentedArray<S: SegmentedArraySpec> {
    nodes: Vec<Vec<S::Value>>,
    /// The absolute index of each node's first element, and last the number of elements.
    indexes: Vec<u32>,
    node_count_max: usize,
    contents: Ghost<Seq<S::Value>>,
}

impl<S: SegmentedArraySpec> View for SegmentedArray<S> {
    type V = Seq<S::Value>;

    closed spec fn view(&self) -> Seq<S::Value> {
        self.contents@
    }
}

impl<S: SegmentedArraySpec> SegmentedArray<S> {
    /// The constants of the spec make an array worth segmenting.
    pub open spec fn spec_valid() -> bool {
        &&& S::NODE_CAPACITY >= 2
        &&& S::NODE_CAPACITY % 2 == 0
        &&& S::NODE_CAPACITY < S::ELEMENT_COUNT_MAX
        &&& S::NODE_CAPACITY + S::ELEMENT_COUNT_MAX + 2 <= usize::MAX
    }

    /// Everything but the order of the elements.
    pub closed spec fn shape(&self) -> bool {
        &&& self.loose_shape()
        &&& forall|i: int|
            0 <= i < self.nodes@.len() ==> #[trigger] node_fits(
                self.nodes@,
                i,
                S::NODE_CAPACITY as int,
            )
    }

    /// The shape, without a bound on how full the nodes are.
    spec fn loose_shape(&self) -> bool {
        &&& Self::spec_valid()
        &&& self.node_count_max == spec_node_count_max(
            S::ELEMENT_COUNT_MAX as int,
            S::NODE_CAPACITY as int,
        )
        &&& self.nodes@.len() <= self.node_count_max
        &&& linked(self.nodes@, self.indexes@, self.contents@)
        &&& self.contents@.len() <= S::ELEMENT_COUNT_MAX
    }

    /// The loose shape, with every node but `a` and `b` neither too empty nor too full.
    spec fn shape_but(&self, a: int, b: int) -> bool {
        &&& self.loose_shape()
        &&& forall|i: int|
            0 <= i < self.nodes@.len() && i != a && i != b ==> #[trigger] node_fits(
                self.nodes@,
                i,
                S::NODE_CAPACITY as int,
            )
    }

    pub closed spec fn wf(&self) -> bool {
        &&& self.shape()
        &&& S::SORTED ==> sorted(spec_ranks::<S>(self@))
    }

    /// The number of nodes in use.
    pub closed spec fn spec_node_count(&self) -> nat {
        self.nodes@.len()
    }

    /// The elements of a node.
    pub closed spec fn spec_node(&self, node: int) -> Seq<S::Value> {
        self.nodes@[node]@
    }

    /// The absolute index of a node's first element.
    pub closed spec fn spec_start(&self, node: int) -> int {
        self.indexes@[node] as int
    }

    /// How many elements each node holds.
    pub open spec fn node_sizes(&self) -> Seq<int> {
        Seq::new(self.spec_node_count(), |node: int| self.spec_node(node).len() as int)
    }

    /// `cursor` points at an element, or just past the last one.
    pub open spec fn cursor_valid(&self, cursor: Cursor) -> bool {
        if self.spec_node_count() == 0 {
            cursor.node == 0 && cursor.relative_index == 0
        } else {
            &&& cursor.node < self.spec_node_count()
            &&& cursor.relative_index <= self.spec_node(cursor.node as int).len()
            &&& cursor.relative_index == self.spec_node(cursor.node as int).len() ==> cursor.node
                + 1 == self.spec_node_count()
        }
    }

    /// The absolute index that `cursor` points at.
    pub open spec fn cursor_index(&self, cursor: Cursor) -> int {
        if self.spec_node_count() == 0 {
            0
        } else {
            self.spec_start(cursor.node as int) + cursor.relative_index
        }
    }

    /// The nodes cut the elements into consecutive pieces, each but the last at least half full.
    pub proof fn law_nodes_partition_elements(&self, node: int)
        requires
            self.wf(),
            0 <= node < self.spec_node_count(),
        ensures
            1 <= self.spec_node(node).len() <= S::NODE_CAPACITY,
            node + 1 < self.spec_node_count() ==> self.spec_node(node).len() >= S::NODE_CAPACITY
                / 2,
            self.spec_start(0) == 0,
            self.spec_start(node) == start_of(self.node_sizes(), node),
            self.spec_start(node + 1) == self.spec_start(node) + self.spec_node(node).len(),
            self.spec_start(self.spec_node_count() as int) == self@.len(),
            0 <= self.spec_start(node),
            self.spec_start(node + 1) <= self@.len(),
            self.spec_node(node) == self@.subrange(
                self.spec_start(node),
                self.spec_start(node + 1),
            ),
    {
        lemma_all_indexes_monotonic(self.nodes@, self.indexes@, self.contents@);
        self.lemma_starts(node);
        assert(node_fits(self.nodes@, node, S::NODE_CAPACITY as int));
        let piece = self@.subrange(self.spec_start(node), self.spec_start(node + 1));
        assert(self.indexes@[node + 1] == self.indexes@[node] + self.nodes@[node]@.len());
        assert(self.spec_node(node) =~= piece);
    }

    /// The sizes of the nodes say where they start.
    proof fn lemma_starts(&self, node: int)
        requires
            self.loose_shape(),
            0 <= node <= self.nodes@.len(),
        ensures
            self.indexes@[node] == start_of(self.node_sizes(), node),
        decreases node,
    {
        if node > 0 {
            self.lemma_starts(node - 1);
            assert(self.indexes@[node] == self.indexes@[node - 1] + self.nodes@[node - 1]@.len());
        }
    }

    /// A cursor points into the node for its index.
    proof fn lemma_cursor_node(&self, cursor: Cursor)
        requires
            self.loose_shape(),
            self.nodes@.len() > 0,
            self.cursor_valid(cursor),
        ensures
            node_for(self.node_sizes(), self.cursor_index(cursor)) == cursor.node,
            start_of(self.node_sizes(), cursor.node as int) == self.indexes@[cursor.node as int],
    {
        let node = cursor.node as int;
        self.lemma_starts(node);
        self.lemma_starts(node + 1);
        assert(self.indexes@[node + 1] == self.indexes@[node] + self.nodes@[node]@.len());
        lemma_node_for(self.node_sizes(), self.cursor_index(cursor), node);
    }

    /// An empty array.
    #[must_use]
    pub fn new() -> (result: Self)
        requires
            Self::spec_valid(),
        ensures
            result.wf(),
            result@ == Seq::<S::Value>::empty(),
            result.spec_node_count() == 0,
    {
        let count_max: usize = node_count_max(S::ELEMENT_COUNT_MAX, S::NODE_CAPACITY);
        let mut indexes: Vec<u32> = Vec::new();
        indexes.push(0);
        SegmentedArray {
            nodes: Vec::new(),
            indexes,
            node_count_max: count_max,
            contents: Ghost(Seq::empty()),
        }
    }

    /// The most nodes that this array can ever hold.
    #[must_use]
    pub fn node_count_max(&self) -> (result: usize)
        requires
            self.wf(),
        ensures
            result == spec_node_count_max(S::ELEMENT_COUNT_MAX as int, S::NODE_CAPACITY as int),
            self.spec_node_count() <= result,
    {
        self.node_count_max
    }

    /// Drops every element.
    pub fn reset(&mut self)
        requires
            old(self).wf(),
        ensures
            final(self).wf(),
            final(self)@ == Seq::<S::Value>::empty(),
            final(self).spec_node_count() == 0,
    {
        self.nodes.clear();
        self.indexes.truncate(1);
        self.contents = Ghost(Seq::empty());
    }

    /// The number of elements in a node.
    #[must_use]
    pub fn count(&self, node: u32) -> (result: u32)
        requires
            self.wf(),
            node < self.spec_node_count(),
        ensures
            result == self.spec_node(node as int).len(),
    {
        proof {
            lemma_all_indexes_monotonic(self.nodes@, self.indexes@, self.contents@);
            assert(self.indexes@[node + 1] == self.indexes@[node as int]
                + self.nodes@[node as int]@.len());
        }
        self.indexes[node as usize + 1] - self.indexes[node as usize]
    }

    /// The elements of a node.
    #[must_use]
    pub fn node_elements(&self, node: u32) -> (result: &[S::Value])
        requires
            self.wf(),
            node < self.spec_node_count(),
        ensures
            result@ == self.spec_node(node as int),
    {
        self.nodes[node as usize].as_slice()
    }

    /// The last element of a node.
    #[must_use]
    pub fn node_last_element(&self, node: u32) -> (result: S::Value)
        requires
            self.wf(),
            node < self.spec_node_count(),
        ensures
            result == self.spec_node(node as int).last(),
    {
        proof {
            assert(node_fits(self.nodes@, node as int, S::NODE_CAPACITY as int));
        }
        let elements = self.node_elements(node);
        elements[elements.len() - 1]
    }

    /// The element that `cursor` points at.
    #[must_use]
    pub fn element_at_cursor(&self, cursor: Cursor) -> (result: S::Value)
        requires
            self.wf(),
            self.cursor_valid(cursor),
            self.cursor_index(cursor) < self@.len(),
        ensures
            result == self@[self.cursor_index(cursor)],
    {
        proof {
            if self.spec_node_count() > 0 {
                self.law_nodes_partition_elements(cursor.node as int);
            }
        }
        self.node_elements(cursor.node)[cursor.relative_index as usize]
    }

    /// A cursor to the first element.
    #[must_use]
    pub fn first(&self) -> (result: Cursor)
        requires
            self.wf(),
        ensures
            result == (Cursor { node: 0, relative_index: 0 }),
            self.cursor_valid(result),
            self.cursor_index(result) == 0,
    {
        proof {
            if self.spec_node_count() > 0 {
                self.law_nodes_partition_elements(0);
            }
        }
        Cursor { node: 0, relative_index: 0 }
    }

    /// A cursor to the last element, which is the first cursor when there is none.
    #[must_use]
    pub fn last(&self) -> (result: Cursor)
        requires
            self.wf(),
        ensures
            self.cursor_valid(result),
            self.cursor_index(result) == if self@.len() == 0 {
                0
            } else {
                self@.len() - 1
            },
    {
        if self.nodes.len() == 0 {
            return self.first();
        }
        proof {
            self.lemma_node_count_fits();
            self.law_nodes_partition_elements(self.nodes@.len() - 1);
        }
        let node: u32 = self.nodes.len() as u32 - 1;
        Cursor { node, relative_index: self.count(node) - 1 }
    }

    /// There are no more nodes than elements.
    proof fn lemma_node_count_fits(&self)
        requires
            self.shape(),
        ensures
            self.nodes@.len() <= self.contents@.len() <= u32::MAX,
            self.nodes@.len() == 0 <==> self.contents@.len() == 0,
    {
        lemma_node_count_at_most(
            self.nodes@,
            self.indexes@,
            self.contents@,
            self.nodes@.len() as int,
            S::NODE_CAPACITY as int,
        );
    }

    /// The array never outgrows its bound and, if the spec asks for it, is in key order.
    pub proof fn law_elements_are_bounded_and_sorted(&self)
        requires
            self.wf(),
        ensures
            self@.len() <= S::ELEMENT_COUNT_MAX,
            S::SORTED ==> sorted(spec_ranks::<S>(self@)),
    {
    }

    /// The number of nodes in use.
    #[must_use]
    pub fn node_count(&self) -> (result: u32)
        requires
            self.wf(),
        ensures
            result == self.spec_node_count(),
    {
        proof {
            self.lemma_node_count_fits();
        }
        self.nodes.len() as u32
    }

    /// The number of elements.
    #[must_use]
    pub fn len(&self) -> (result: u32)
        requires
            self.wf(),
        ensures
            result == self@.len(),
            result <= S::ELEMENT_COUNT_MAX,
    {
        self.indexes[self.nodes.len()]
    }

    /// Whether there are no elements.
    #[must_use]
    pub fn is_empty(&self) -> (result: bool)
        requires
            self.wf(),
        ensures
            result == (self@.len() == 0),
            result == (self.spec_node_count() == 0),
    {
        proof {
            self.lemma_node_count_fits();
        }
        self.nodes.len() == 0
    }
}

proof fn lemma_node_count_at_most<V>(
    nodes: Seq<Vec<V>>,
    indexes: Seq<u32>,
    contents: Seq<V>,
    n: int,
    capacity: int,
)
    requires
        linked(nodes, indexes, contents),
        forall|i: int| 0 <= i < nodes.len() ==> #[trigger] node_fits(nodes, i, capacity),
        0 <= n <= nodes.len(),
    ensures
        n <= indexes[n],
    decreases n,
{
    if n > 0 {
        lemma_node_count_at_most(nodes, indexes, contents, n - 1, capacity);
        assert(node_fits(nodes, n - 1, capacity));
    }
}

/// Puts `elements` into `values` at `index`.
fn splice<V: Copy>(values: &mut Vec<V>, index: usize, elements: &[V])
    requires
        index <= old(values)@.len(),
        old(values)@.len() + elements@.len() <= usize::MAX,
    ensures
        final(values)@ == inserted(old(values)@, index as int, elements@),
{
    let ghost before = values@;
    let mut tail = values.split_off(index);
    let mut i: usize = 0;
    while i < elements.len()
        invariant
            i <= elements@.len(),
            index <= before.len(),
            values@ == before.subrange(0, index as int) + elements@.subrange(0, i as int),
        decreases elements@.len() - i,
    {
        values.push(elements[i]);
        i = i + 1;
        assert(values@ =~= before.subrange(0, index as int) + elements@.subrange(0, i as int));
    }
    assert(elements@.subrange(0, i as int) =~= elements@);
    values.append(&mut tail);
    assert(values@ =~= inserted(before, index as int, elements@));
}

/// The nodes from `i` up to `j` hold at least half their capacity each, as long as the last node
/// of all is not among them.
proof fn lemma_nodes_half_full<V>(
    nodes: Seq<Vec<V>>,
    indexes: Seq<u32>,
    contents: Seq<V>,
    i: int,
    j: int,
    capacity: int,
)
    requires
        linked(nodes, indexes, contents),
        forall|k: int| 0 <= k < nodes.len() ==> #[trigger] node_fits(nodes, k, capacity),
        0 <= i <= j < nodes.len(),
    ensures
        indexes[j] >= indexes[i] + (j - i) * (capacity / 2),
    decreases j - i,
{
    if i < j {
        lemma_nodes_half_full(nodes, indexes, contents, i, j - 1, capacity);
        assert(node_fits(nodes, j - 1, capacity));
        assert((j - i) * (capacity / 2) == (j - 1 - i) * (capacity / 2) + capacity / 2)
            by (nonlinear_arith);
    } else {
        assert((j - i) * (capacity / 2) == 0) by (nonlinear_arith)
            requires
                i == j,
        ;
    }
}

/// Where a node has to split there is room for one more.
proof fn lemma_node_budget(total: int, count: int, element_count_max: int, capacity: int)
    requires
        capacity >= 2,
        capacity % 2 == 0,
        count >= 1,
        total <= element_count_max,
        capacity < element_count_max,
        count == 1 ==> total >= capacity + 1,
        count >= 2 ==> total >= capacity + 2 + (count - 2) * (capacity / 2),
    ensures
        count + 1 <= spec_node_count_max(element_count_max, capacity),
{
    let half = capacity / 2;
    let naive = (element_count_max + half - 1) / half;
    assert(naive * half >= element_count_max) by (nonlinear_arith)
        requires
            naive == (element_count_max + half - 1) / half,
            half >= 1,
    ;
    if count == 1 {
        assert(naive >= 3) by (nonlinear_arith)
            requires
                naive * half >= element_count_max,
                element_count_max > 2 * half,
                half >= 1,
        ;
    } else {
        let after = count + 1;
        assert(naive >= after) by (nonlinear_arith)
            requires
                naive * half >= element_count_max,
                element_count_max >= 2 * half + 2 + (after - 3) * half,
                half >= 1,
        ;
    }
}

impl<S: SegmentedArraySpec> SegmentedArray<S> {
    /// The absolute index that `cursor` points at.
    #[must_use]
    pub fn absolute_index_for_cursor(&self, cursor: Cursor) -> (result: u32)
        requires
            self.wf(),
            self.cursor_valid(cursor),
        ensures
            result == self.cursor_index(cursor),
            result <= self@.len(),
    {
        if self.nodes.len() == 0 {
            return 0;
        }
        proof {
            self.law_nodes_partition_elements(cursor.node as int);
        }
        self.indexes[cursor.node as usize] + cursor.relative_index
    }

    /// The cursor that points at an absolute index.
    #[must_use]
    pub fn cursor_for_absolute_index(&self, absolute_index: u32) -> (result: Cursor)
        requires
            self.shape(),
            self.spec_node_count() > 0,
            absolute_index <= self@.len(),
        ensures
            self.cursor_valid(result),
            self.cursor_index(result) == absolute_index,
    {
        proof {
            self.lemma_node_count_fits();
            self.lemma_starts_increase();
        }
        let starts = vstd::slice::slice_subrange(self.indexes.as_slice(), 0, self.nodes.len());
        proof {
            assert(sorted(ranks(starts@)));
        }
        // The first node that starts at the index or after it.
        let index: u32 = binary_search_keys_upsert_index(
            starts,
            absolute_index,
            Config { mode: Mode::LowerBound },
        );
        proof {
            assert(forall|i: int| 0 <= i < starts@.len() ==> ranks(starts@)[i] == starts@[i]);
            assert(node_fits(self.nodes@, 0, S::NODE_CAPACITY as int));
            if index > 0 {
                assert(ranks(starts@)[index - 1] < absolute_index);
                assert(self.indexes@[index as int] == self.indexes@[index - 1]
                    + self.nodes@[index - 1]@.len());
            }
        }
        if (index as usize) < starts.len() && starts[index as usize] == absolute_index {
            proof {
                assert(node_fits(self.nodes@, index as int, S::NODE_CAPACITY as int));
            }
            Cursor { node: index, relative_index: 0 }
        } else {
            let node: u32 = index - 1;
            Cursor { node, relative_index: absolute_index - self.indexes[node as usize] }
        }
    }

    /// Each node starts after the one before it.
    proof fn lemma_starts_increase(&self)
        requires
            self.shape(),
        ensures
            forall|i: int, j: int|
                0 <= i < j <= self.nodes@.len() ==> #[trigger] self.indexes@[i]
                    < #[trigger] self.indexes@[j],
            forall|i: int|
                0 <= i <= self.nodes@.len() ==> #[trigger] self.indexes@[i] <= self.contents@.len(),
    {
        lemma_all_indexes_monotonic(self.nodes@, self.indexes@, self.contents@);
        assert forall|i: int, j: int| 0 <= i < j <= self.nodes@.len() implies #[trigger]
        self.indexes@[i] < #[trigger] self.indexes@[j] by {
            assert(node_fits(self.nodes@, i, S::NODE_CAPACITY as int));
            assert(self.indexes@[i + 1] <= self.indexes@[j]);
        }
    }

    /// Moves the start of every node after `node` by `delta`.
    fn increment_indexes_after(&mut self, node: usize, delta: u32)
        requires
            node < old(self).indexes@.len(),
            forall|i: int|
                node < i < old(self).indexes@.len() ==> (#[trigger] old(self).indexes@[i]) + delta
                    <= u32::MAX,
        ensures
            final(self).nodes == old(self).nodes,
            final(self).node_count_max == old(self).node_count_max,
            final(self).contents == old(self).contents,
            final(self).indexes@ == Seq::new(
                old(self).indexes@.len(),
                |i: int|
                    if i <= node {
                        old(self).indexes@[i]
                    } else {
                        (old(self).indexes@[i] + delta) as u32
                    },
            ),
    {
        let ghost before = self.indexes@;
        let count: usize = self.indexes.len();
        let mut i: usize = node + 1;
        while i < count
            invariant
                count == self.indexes@.len(),
                node < i <= self.indexes@.len(),
                self.indexes@.len() == before.len(),
                self.nodes == old(self).nodes,
                self.node_count_max == old(self).node_count_max,
                self.contents == old(self).contents,
                forall|k: int| node < k < before.len() ==> #[trigger] before[k] + delta <= u32::MAX,
                forall|k: int|
                    0 <= k < before.len() ==> #[trigger] self.indexes@[k] == if k <= node || k >= i {
                        before[k]
                    } else {
                        (before[k] + delta) as u32
                    },
            decreases self.indexes@.len() - i,
        {
            assert(self.indexes@[i as int] == before[i as int]);
            let moved: u32 = self.indexes[i] + delta;
            self.indexes.set(i, moved);
            i = i + 1;
        }
        assert(self.indexes@ =~= Seq::new(
            before.len(),
            |i: int|
                if i <= node {
                    before[i]
                } else {
                    (before[i] + delta) as u32
                },
        ));
    }

    /// Inserts no more elements than fit one node.
    #[verifier::rlimit(40)]
    fn insert_elements_batch(&mut self, absolute_index: u32, elements: &[S::Value])
        requires
            old(self).shape(),
            1 <= elements@.len() <= S::NODE_CAPACITY,
            absolute_index <= old(self)@.len(),
            old(self)@.len() + elements@.len() <= S::ELEMENT_COUNT_MAX,
        ensures
            final(self).shape(),
            final(self)@ == inserted(old(self)@, absolute_index as int, elements@),
            final(self).node_sizes() == with_batch(
                old(self).node_sizes(),
                absolute_index as int,
                elements@.len() as int,
                S::NODE_CAPACITY as int,
            ),
    {
        let ghost before = *self;
        let ghost sizes = self.node_sizes();
        let ghost capacity = S::NODE_CAPACITY as int;
        let ghost after = inserted(before@, absolute_index as int, elements@);
        let inserted_count: u32 = elements.len() as u32;
        if self.nodes.len() == 0 {
            proof {
                self.lemma_node_count_fits();
                assert(after =~= elements@);
                lemma_first_node_budget(S::ELEMENT_COUNT_MAX as int, capacity);
            }
            self.nodes.push(vstd::slice::slice_to_vec(elements));
            self.indexes.push(inserted_count);
            self.contents = Ghost(after);
            proof {
                assert(node_fits(self.nodes@, 0, capacity));
                assert(self.node_sizes() =~= seq![elements@.len() as int]);
            }
            return ;
        }
        let cursor = self.cursor_for_absolute_index(absolute_index);
        let a: usize = cursor.node as usize;
        let rel: usize = cursor.relative_index as usize;
        proof {
            self.lemma_starts_increase();
            self.lemma_cursor_node(cursor);
            assert(node_fits(self.nodes@, a as int, capacity));
            assert(self.indexes@[a + 1] == self.indexes@[a as int] + self.nodes@[a as int]@.len());
        }
        let total: usize = self.nodes[a].len() + elements.len();
        splice(&mut self.nodes[a], rel, elements);
        self.increment_indexes_after(a, inserted_count);
        self.contents = Ghost(after);
        let ghost joined = *self;
        proof {
            lemma_insert_linked(
                before.nodes@,
                before.indexes@,
                before.contents@,
                a as int,
                rel as int,
                elements@,
                joined.nodes@,
                joined.indexes@,
            );
            assert forall|i: int|
                0 <= i < joined.nodes@.len() && i != a implies #[trigger] node_fits(
                joined.nodes@,
                i,
                capacity,
            ) by {
                assert(node_fits(before.nodes@, i, capacity));
            }
        }
        assert(joined.node_sizes() =~= sizes.update(a as int, total as int));
        if total <= S::NODE_CAPACITY {
            proof {
                assert(node_fits(joined.nodes@, a as int, capacity));
            }
            return ;
        }
        // Split the overfull node into two halves.
        let a_half: usize = (total + 1) / 2;
        let b_elements = self.nodes[a].split_off(a_half);
        self.nodes.insert(a + 1, b_elements);
        let b_start: u32 = self.indexes[a] + a_half as u32;
        self.indexes.insert(a + 1, b_start);
        proof {
            lemma_cut_linked(
                joined.nodes@,
                joined.indexes@,
                joined.contents@,
                a as int,
                a_half as int,
                self.nodes@,
                self.indexes@,
            );
            assert forall|i: int| 0 <= i < self.nodes@.len() implies #[trigger] node_fits(
                self.nodes@,
                i,
                capacity,
            ) by {
                if i < a {
                    assert(node_fits(joined.nodes@, i, capacity));
                } else if i > a + 1 {
                    assert(node_fits(joined.nodes@, i - 1, capacity));
                }
            }
            self.lemma_split_budget(before, a as int, elements@.len() as int);
            assert(self.node_sizes() =~= sizes.update(a as int, a_half as int).insert(
                a + 1,
                total as int / 2,
            ));
        }
    }

    /// Splitting node `a` of `before` for `count` more elements stays within the node budget.
    proof fn lemma_split_budget(&self, before: Self, a: int, count: int)
        requires
            before.shape(),
            0 <= a < before.nodes@.len(),
            before.nodes@[a]@.len() + count > S::NODE_CAPACITY,
            before@.len() + count <= S::ELEMENT_COUNT_MAX,
        ensures
            before.nodes@.len() + 1 <= before.node_count_max,
    {
        let n = before.nodes@.len() as int;
        let capacity = S::NODE_CAPACITY as int;
        let half = capacity / 2;
        let total = before@.len() + count;
        assert(before.indexes@[a + 1] == before.indexes@[a] + before.nodes@[a]@.len());
        lemma_nodes_half_full(before.nodes@, before.indexes@, before.contents@, 0, a, capacity);
        if a + 1 < n {
            lemma_nodes_half_full(
                before.nodes@,
                before.indexes@,
                before.contents@,
                a + 1,
                n - 1,
                capacity,
            );
            assert(node_fits(before.nodes@, n - 1, capacity));
            assert(before.indexes@[n] == before.indexes@[n - 1] + before.nodes@[n - 1]@.len());
            assert(a * half + (n - 1 - (a + 1)) * half == (n - 2) * half) by (nonlinear_arith);
        } else {
            assert((n - 1) * half == (n - 2) * half + half) by (nonlinear_arith);
        }
        lemma_node_budget(total, n, S::ELEMENT_COUNT_MAX as int, capacity);
    }
}

proof fn lemma_first_node_budget(element_count_max: int, capacity: int)
    requires
        capacity >= 2,
        capacity % 2 == 0,
        capacity < element_count_max,
    ensures
        1 <= spec_node_count_max(element_count_max, capacity),
{
    lemma_node_budget(capacity + 1, 1, element_count_max, capacity);
}

/// Putting elements into one node, and moving the starts of the nodes after it, inserts them.
proof fn lemma_insert_linked<V>(
    nodes: Seq<Vec<V>>,
    indexes: Seq<u32>,
    contents: Seq<V>,
    a: int,
    rel: int,
    elements: Seq<V>,
    new_nodes: Seq<Vec<V>>,
    new_indexes: Seq<u32>,
)
    requires
        linked(nodes, indexes, contents),
        0 <= a < nodes.len(),
        0 <= rel <= nodes[a]@.len(),
        contents.len() + elements.len() <= u32::MAX,
        new_nodes.len() == nodes.len(),
        new_nodes[a]@ == inserted(nodes[a]@, rel, elements),
        forall|i: int| 0 <= i < nodes.len() && i != a ==> #[trigger] new_nodes[i] == nodes[i],
        new_indexes.len() == indexes.len(),
        forall|i: int| 0 <= i <= a ==> #[trigger] new_indexes[i] == indexes[i],
        forall|i: int|
            a < i < indexes.len() ==> #[trigger] new_indexes[i] == indexes[i] + elements.len(),
    ensures
        linked(new_nodes, new_indexes, inserted(contents, indexes[a] + rel, elements)),
{
    lemma_all_indexes_monotonic(nodes, indexes, contents);
    let at = indexes[a] + rel;
    let after = inserted(contents, at, elements);
    assert(indexes[a + 1] == indexes[a] + nodes[a]@.len());
    assert forall|i: int| 0 <= i < new_nodes.len() implies new_indexes[i + 1] == new_indexes[i] + (
    #[trigger] new_nodes[i])@.len() by {
        assert(indexes[i + 1] == indexes[i] + nodes[i]@.len());
    }
    assert forall|i: int, j: int|
        0 <= i < new_nodes.len() && 0 <= j < new_nodes[i]@.len() implies #[trigger] new_nodes[i]@[j]
        == after[new_indexes[i] + j] by {
        assert(indexes[i + 1] == indexes[i] + nodes[i]@.len());
        if i < a {
            assert(nodes[i]@[j] == contents[indexes[i] + j]);
            assert(indexes[i + 1] <= indexes[a]);
        } else if i > a {
            assert(nodes[i]@[j] == contents[indexes[i] + j]);
            assert(indexes[a + 1] <= indexes[i]);
        } else if j < rel {
            assert(nodes[i]@[j] == contents[indexes[i] + j]);
        } else if j >= rel + elements.len() {
            let k = j - elements.len();
            assert(nodes[i]@[k] == contents[indexes[i] + k]);
        }
    }
}

/// Cutting one node in two leaves the elements as they were.
proof fn lemma_cut_linked<V>(
    nodes: Seq<Vec<V>>,
    indexes: Seq<u32>,
    contents: Seq<V>,
    a: int,
    at: int,
    new_nodes: Seq<Vec<V>>,
    new_indexes: Seq<u32>,
)
    requires
        linked(nodes, indexes, contents),
        0 <= a < nodes.len(),
        0 <= at <= nodes[a]@.len(),
        new_nodes.len() == nodes.len() + 1,
        new_nodes[a]@ == nodes[a]@.subrange(0, at),
        new_nodes[a + 1]@ == nodes[a]@.subrange(at, nodes[a]@.len() as int),
        forall|i: int| 0 <= i < a ==> #[trigger] new_nodes[i] == nodes[i],
        forall|i: int| a + 1 < i < new_nodes.len() ==> #[trigger] new_nodes[i] == nodes[i - 1],
        new_indexes.len() == indexes.len() + 1,
        forall|i: int| 0 <= i <= a ==> #[trigger] new_indexes[i] == indexes[i],
        new_indexes[a + 1] == indexes[a] + at,
        forall|i: int| a + 1 < i < new_indexes.len() ==> #[trigger] new_indexes[i] == indexes[i - 1],
    ensures
        linked(new_nodes, new_indexes, contents),
{
    assert(indexes[a + 1] == indexes[a] + nodes[a]@.len());
    assert forall|i: int| 0 <= i < new_nodes.len() implies new_indexes[i + 1] == new_indexes[i] + (
    #[trigger] new_nodes[i])@.len() by {
        if i < a {
            assert(indexes[i + 1] == indexes[i] + nodes[i]@.len());
        } else if i > a + 1 {
            assert(indexes[i] == indexes[i - 1] + nodes[i - 1]@.len());
        }
    }
    assert forall|i: int, j: int|
        0 <= i < new_nodes.len() && 0 <= j < new_nodes[i]@.len() implies #[trigger] new_nodes[i]@[j]
        == contents[new_indexes[i] + j] by {
        if i < a {
            assert(nodes[i]@[j] == contents[indexes[i] + j]);
        } else if i > a + 1 {
            assert(nodes[i - 1]@[j] == contents[indexes[i - 1] + j]);
        } else if i == a {
            assert(nodes[a]@[j] == contents[indexes[a] + j]);
        } else {
            assert(nodes[a]@[at + j] == contents[indexes[a] + (at + j)]);
        }
    }
}

/// Inserting a batch right after another is inserting both.
proof fn lemma_insert_in_order<V>(values: Seq<V>, index: int, elements: Seq<V>, i: int, j: int)
    requires
        0 <= index <= values.len(),
        0 <= i <= j <= elements.len(),
    ensures
        inserted(
            inserted(values, index, elements.subrange(0, i)),
            index + i,
            elements.subrange(i, j),
        ) == inserted(values, index, elements.subrange(0, j)),
{
    assert(inserted(
        inserted(values, index, elements.subrange(0, i)),
        index + i,
        elements.subrange(i, j),
    ) =~= inserted(values, index, elements.subrange(0, j)));
}

/// Removing a batch and then another at the same place is removing both.
proof fn lemma_remove_in_order<V>(values: Seq<V>, index: int, first: int, second: int)
    requires
        0 <= index,
        0 <= first,
        0 <= second,
        index + first + second <= values.len(),
    ensures
        removed(removed(values, index, first), index, second) == removed(
            values,
            index,
            first + second,
        ),
{
    assert(removed(removed(values, index, first), index, second) =~= removed(
        values,
        index,
        first + second,
    ));
}

/// Taking elements out of one node, and moving the starts of the nodes after it, removes them.
proof fn lemma_remove_linked<V>(
    nodes: Seq<Vec<V>>,
    indexes: Seq<u32>,
    contents: Seq<V>,
    a: int,
    rel: int,
    count: int,
    new_nodes: Seq<Vec<V>>,
    new_indexes: Seq<u32>,
)
    requires
        linked(nodes, indexes, contents),
        0 <= a < nodes.len(),
        0 <= rel,
        0 <= count,
        rel + count <= nodes[a]@.len(),
        new_nodes.len() == nodes.len(),
        new_nodes[a]@ == removed(nodes[a]@, rel, count),
        forall|i: int| 0 <= i < nodes.len() && i != a ==> #[trigger] new_nodes[i] == nodes[i],
        new_indexes.len() == indexes.len(),
        forall|i: int| 0 <= i <= a ==> #[trigger] new_indexes[i] == indexes[i],
        forall|i: int| a < i < indexes.len() ==> #[trigger] new_indexes[i] == indexes[i] - count,
    ensures
        linked(new_nodes, new_indexes, removed(contents, indexes[a] + rel, count)),
{
    lemma_all_indexes_monotonic(nodes, indexes, contents);
    let at = indexes[a] + rel;
    let after = removed(contents, at, count);
    assert(indexes[a + 1] == indexes[a] + nodes[a]@.len());
    assert forall|i: int| 0 <= i < new_nodes.len() implies new_indexes[i + 1] == new_indexes[i] + (
    #[trigger] new_nodes[i])@.len() by {
        assert(indexes[i + 1] == indexes[i] + nodes[i]@.len());
    }
    assert forall|i: int, j: int|
        0 <= i < new_nodes.len() && 0 <= j < new_nodes[i]@.len() implies #[trigger] new_nodes[i]@[j]
        == after[new_indexes[i] + j] by {
        assert(indexes[i + 1] == indexes[i] + nodes[i]@.len());
        if i < a {
            assert(nodes[i]@[j] == contents[indexes[i] + j]);
            assert(indexes[i + 1] <= indexes[a]);
        } else if i > a {
            assert(nodes[i]@[j] == contents[indexes[i] + j]);
            assert(indexes[a + 1] <= indexes[i]);
        } else if j < rel {
            assert(nodes[i]@[j] == contents[indexes[i] + j]);
        } else {
            let k = j + count;
            assert(nodes[i]@[k] == contents[indexes[i] + k]);
        }
    }
}

/// Joining two nodes into the first leaves the elements as they were.
proof fn lemma_join_linked<V>(
    nodes: Seq<Vec<V>>,
    indexes: Seq<u32>,
    contents: Seq<V>,
    a: int,
    new_nodes: Seq<Vec<V>>,
    new_indexes: Seq<u32>,
)
    requires
        linked(nodes, indexes, contents),
        0 <= a,
        a + 1 < nodes.len(),
        new_nodes.len() == nodes.len() - 1,
        new_nodes[a]@ == nodes[a]@ + nodes[a + 1]@,
        forall|i: int| 0 <= i < a ==> #[trigger] new_nodes[i] == nodes[i],
        forall|i: int| a < i < new_nodes.len() ==> #[trigger] new_nodes[i] == nodes[i + 1],
        new_indexes.len() == indexes.len() - 1,
        forall|i: int| 0 <= i <= a ==> #[trigger] new_indexes[i] == indexes[i],
        forall|i: int| a < i < new_indexes.len() ==> #[trigger] new_indexes[i] == indexes[i + 1],
    ensures
        linked(new_nodes, new_indexes, contents),
{
    assert(indexes[a + 1] == indexes[a] + nodes[a]@.len());
    assert(indexes[a + 2] == indexes[a + 1] + nodes[a + 1]@.len());
    assert forall|i: int| 0 <= i < new_nodes.len() implies new_indexes[i + 1] == new_indexes[i] + (
    #[trigger] new_nodes[i])@.len() by {
        if i < a {
            assert(indexes[i + 1] == indexes[i] + nodes[i]@.len());
        } else if i > a {
            assert(indexes[i + 2] == indexes[i + 1] + nodes[i + 1]@.len());
        }
    }
    assert forall|i: int, j: int|
        0 <= i < new_nodes.len() && 0 <= j < new_nodes[i]@.len() implies #[trigger] new_nodes[i]@[j]
        == contents[new_indexes[i] + j] by {
        if i < a {
            assert(nodes[i]@[j] == contents[indexes[i] + j]);
        } else if i > a {
            assert(nodes[i + 1]@[j] == contents[indexes[i + 1] + j]);
        } else if j < nodes[a]@.len() {
            assert(nodes[a]@[j] == contents[indexes[a] + j]);
        } else {
            let k = j - nodes[a]@.len();
            assert(nodes[a + 1]@[k] == contents[indexes[a + 1] + k]);
        }
    }
}

/// Dropping a node without elements leaves the elements as they were.
proof fn lemma_drop_linked<V>(
    nodes: Seq<Vec<V>>,
    indexes: Seq<u32>,
    contents: Seq<V>,
    a: int,
    new_nodes: Seq<Vec<V>>,
    new_indexes: Seq<u32>,
)
    requires
        linked(nodes, indexes, contents),
        0 <= a < nodes.len(),
        nodes[a]@.len() == 0,
        new_nodes == nodes.remove(a),
        new_indexes == indexes.remove(a),
    ensures
        linked(new_nodes, new_indexes, contents),
{
    assert(indexes[a + 1] == indexes[a] + nodes[a]@.len());
    assert forall|i: int| 0 <= i < new_nodes.len() implies new_indexes[i + 1] == new_indexes[i] + (
    #[trigger] new_nodes[i])@.len() by {
        if i < a {
            assert(indexes[i + 1] == indexes[i] + nodes[i]@.len());
        } else {
            assert(indexes[i + 2] == indexes[i + 1] + nodes[i + 1]@.len());
        }
    }
    assert forall|i: int, j: int|
        0 <= i < new_nodes.len() && 0 <= j < new_nodes[i]@.len() implies #[trigger] new_nodes[i]@[j]
        == contents[new_indexes[i] + j] by {
        if i < a {
            assert(nodes[i]@[j] == contents[indexes[i] + j]);
        } else {
            assert(nodes[i + 1]@[j] == contents[indexes[i + 1] + j]);
        }
    }
}

/// Takes `count` elements out of `values` from `index` on.
fn cut_out<V: Copy>(values: &mut Vec<V>, index: usize, count: usize)
    requires
        index + count <= old(values)@.len(),
    ensures
        final(values)@ == removed(old(values)@, index as int, count as int),
{
    let ghost before = values@;
    let length: usize = values.len();
    let mut tail = values.split_off(index + count);
    values.truncate(index);
    values.append(&mut tail);
    assert(values@ =~= removed(before, index as int, count as int));
}

impl<S: SegmentedArraySpec> SegmentedArray<S> {
    /// Inserts elements one node's worth at a time.
    fn insert_elements_at_absolute_index(&mut self, absolute_index: u32, elements: &[S::Value])
        requires
            old(self).shape(),
            elements@.len() > 0,
            absolute_index <= old(self)@.len(),
            old(self)@.len() + elements@.len() <= S::ELEMENT_COUNT_MAX,
        ensures
            final(self).shape(),
            final(self)@ == inserted(old(self)@, absolute_index as int, elements@),
            final(self).node_sizes() == with_elements(
                old(self).node_sizes(),
                absolute_index as int,
                elements@.len() as int,
                S::NODE_CAPACITY as int,
            ),
    {
        let ghost before = self@;
        let mut i: usize = 0;
        proof {
            assert(before =~= inserted(before, absolute_index as int, elements@.subrange(0, 0)));
        }
        while i < elements.len()
            invariant
                self.shape(),
                Self::spec_valid(),
                i <= elements@.len(),
                absolute_index <= before.len(),
                before.len() + elements@.len() <= S::ELEMENT_COUNT_MAX,
                self@ == inserted(before, absolute_index as int, elements@.subrange(0, i as int)),
                with_elements(
                    self.node_sizes(),
                    absolute_index + i,
                    elements@.len() - i,
                    S::NODE_CAPACITY as int,
                ) == with_elements(
                    old(self).node_sizes(),
                    absolute_index as int,
                    elements@.len() as int,
                    S::NODE_CAPACITY as int,
                ),
            decreases elements@.len() - i,
        {
            let left: usize = elements.len() - i;
            let batch: usize = if S::NODE_CAPACITY < left {
                S::NODE_CAPACITY
            } else {
                left
            };
            let part = vstd::slice::slice_subrange(elements, i, i + batch);
            proof {
                lemma_insert_in_order(
                    before,
                    absolute_index as int,
                    elements@,
                    i as int,
                    i + batch,
                );
            }
            self.insert_elements_batch(absolute_index + i as u32, part);
            i = i + batch;
        }
        assert(elements@.subrange(0, i as int) =~= elements@);
    }

    /// Inserts one element in key order, to the left of its equals, and returns its index.
    pub fn insert_element(&mut self, element: S::Value) -> (result: u32)
        requires
            old(self).wf(),
            S::SORTED,
            old(self)@.len() < S::ELEMENT_COUNT_MAX,
        ensures
            final(self).wf(),
            is_upsert_index(
                spec_ranks::<S>(old(self)@),
                S::key_of(element).rank(),
                Mode::LowerBound,
                result as int,
            ),
            final(self)@ == old(self)@.insert(result as int, element),
            final(self).node_sizes() == with_batch(
                old(self).node_sizes(),
                result as int,
                1,
                S::NODE_CAPACITY as int,
            ),
    {
        let ghost before = self@;
        let cursor = self.search(S::key_from_value(&element));
        let absolute_index: u32 = self.absolute_index_for_cursor(cursor);
        let elements = [element];
        self.insert_elements_at_absolute_index(absolute_index, &elements);
        proof {
            reveal_with_fuel(with_elements, 2);
            assert(elements@ =~= seq![element]);
            assert(self@ =~= before.insert(absolute_index as int, element));
            let old_ranks = spec_ranks::<S>(before);
            let new_ranks = spec_ranks::<S>(self@);
            assert forall|i: int, j: int| 0 <= i <= j < new_ranks.len() implies new_ranks[i]
                <= new_ranks[j] by {
                let k = absolute_index as int;
                let oi = if i < k {
                    i
                } else {
                    i - 1
                };
                let oj = if j < k {
                    j
                } else {
                    j - 1
                };
                if i != k && j != k {
                    assert(old_ranks[oi] <= old_ranks[oj]);
                } else if i == k && j != k {
                    assert(old_ranks[k] <= old_ranks[oj]);
                } else if j == k && i != k {
                    assert(old_ranks[oi] < S::key_of(element).rank());
                }
            }
        }
        absolute_index
    }

    /// Inserts elements at an index.
    pub fn insert_elements(&mut self, absolute_index: u32, elements: &[S::Value])
        requires
            old(self).wf(),
            !S::SORTED,
            elements@.len() > 0,
            absolute_index <= old(self)@.len(),
            old(self)@.len() + elements@.len() <= S::ELEMENT_COUNT_MAX,
        ensures
            final(self).wf(),
            final(self)@ == inserted(old(self)@, absolute_index as int, elements@),
            final(self).node_sizes() == with_elements(
                old(self).node_sizes(),
                absolute_index as int,
                elements@.len() as int,
                S::NODE_CAPACITY as int,
            ),
    {
        self.insert_elements_at_absolute_index(absolute_index, elements);
    }

    /// Replaces the element at an index by one with the same key.
    pub fn replace_element(&mut self, absolute_index: u32, element: S::Value)
        requires
            old(self).wf(),
            absolute_index < old(self)@.len(),
            S::SORTED ==> S::key_of(element) == S::key_of(old(self)@[absolute_index as int]),
        ensures
            final(self).wf(),
            final(self)@ == old(self)@.update(absolute_index as int, element),
            final(self).node_sizes() == old(self).node_sizes(),
    {
        proof {
            self.lemma_node_count_fits();
        }
        let ghost before = *self;
        let cursor = self.cursor_for_absolute_index(absolute_index);
        let a: usize = cursor.node as usize;
        proof {
            self.law_nodes_partition_elements(a as int);
            lemma_all_indexes_monotonic(self.nodes@, self.indexes@, self.contents@);
        }
        let rel: usize = cursor.relative_index as usize;
        splice_one(&mut self.nodes[a], rel, element);
        self.contents = Ghost(before@.update(absolute_index as int, element));
        proof {
            assert forall|i: int| 0 <= i < self.nodes@.len() implies self.indexes@[i + 1]
                == self.indexes@[i] + (#[trigger] self.nodes@[i])@.len() by {
                assert(self.indexes@[i + 1] == self.indexes@[i] + before.nodes@[i]@.len());
            }
            assert forall|i: int, j: int|
                0 <= i < self.nodes@.len() && 0 <= j < self.nodes@[i]@.len() implies #[trigger]
            self.nodes@[i]@[j] == self.contents@[self.indexes@[i] + j] by {
                assert(before.nodes@[i]@[j] == before.contents@[self.indexes@[i] + j]);
                assert(self.indexes@[i + 1] == self.indexes@[i] + before.nodes@[i]@.len());
                if i < a {
                    assert(self.indexes@[i + 1] <= self.indexes@[a as int]);
                } else if i > a {
                    assert(self.indexes@[a + 1] <= self.indexes@[i]);
                }
            }
            assert forall|i: int| 0 <= i < self.nodes@.len() implies #[trigger] node_fits(
                self.nodes@,
                i,
                S::NODE_CAPACITY as int,
            ) by {
                assert(node_fits(before.nodes@, i, S::NODE_CAPACITY as int));
            }
            if S::SORTED {
                assert(spec_ranks::<S>(self@) =~= spec_ranks::<S>(before@));
            }
            assert(self.node_sizes() =~= before.node_sizes());
        }
    }

    /// Moves the start of every node after `node` back by `delta`.
    fn decrement_indexes_after(&mut self, node: usize, delta: u32)
        requires
            node < old(self).indexes@.len(),
            forall|i: int|
                node < i < old(self).indexes@.len() ==> #[trigger] old(self).indexes@[i] >= delta,
        ensures
            final(self).nodes == old(self).nodes,
            final(self).node_count_max == old(self).node_count_max,
            final(self).contents == old(self).contents,
            final(self).indexes@ == Seq::new(
                old(self).indexes@.len(),
                |i: int|
                    if i <= node {
                        old(self).indexes@[i]
                    } else {
                        (old(self).indexes@[i] - delta) as u32
                    },
            ),
    {
        let ghost before = self.indexes@;
        let count: usize = self.indexes.len();
        let mut i: usize = node + 1;
        while i < count
            invariant
                count == self.indexes@.len(),
                node < i <= self.indexes@.len(),
                self.indexes@.len() == before.len(),
                self.nodes == old(self).nodes,
                self.node_count_max == old(self).node_count_max,
                self.contents == old(self).contents,
                forall|k: int| node < k < before.len() ==> #[trigger] before[k] >= delta,
                forall|k: int|
                    0 <= k < before.len() ==> #[trigger] self.indexes@[k] == if k <= node || k >= i {
                        before[k]
                    } else {
                        (before[k] - delta) as u32
                    },
            decreases self.indexes@.len() - i,
        {
            assert(self.indexes@[i as int] == before[i as int]);
            let moved: u32 = self.indexes[i] - delta;
            self.indexes.set(i, moved);
            i = i + 1;
        }
        assert(self.indexes@ =~= Seq::new(
            before.len(),
            |i: int|
                if i <= node {
                    before[i]
                } else {
                    (before[i] - delta) as u32
                },
        ));
    }

    /// Takes `count` elements out of one node.
    fn remove_from_node(&mut self, node: usize, rel: usize, count: u32)
        requires
            old(self).loose_shape(),
            node < old(self).nodes@.len(),
            rel + count <= old(self).nodes@[node as int]@.len(),
        ensures
            final(self).loose_shape(),
            final(self)@ == removed(
                old(self)@,
                old(self).indexes@[node as int] + rel,
                count as int,
            ),
            final(self).nodes@.len() == old(self).nodes@.len(),
            final(self).nodes@[node as int]@ == removed(
                old(self).nodes@[node as int]@,
                rel as int,
                count as int,
            ),
            forall|i: int|
                0 <= i < old(self).nodes@.len() && i != node ==> #[trigger] final(self).nodes@[i]
                    == old(self).nodes@[i],
            forall|i: int|
                0 <= i <= node ==> #[trigger] final(self).indexes@[i] == old(self).indexes@[i],
    {
        let ghost before = *self;
        proof {
            lemma_all_indexes_monotonic(self.nodes@, self.indexes@, self.contents@);
            assert(self.indexes@[node + 1] == self.indexes@[node as int]
                + self.nodes@[node as int]@.len());
            assert forall|i: int| node < i < self.indexes@.len() implies #[trigger] self.indexes@[i]
                >= count by {
                assert(self.indexes@[node + 1] <= self.indexes@[i]);
            }
        }
        cut_out(&mut self.nodes[node], rel, count as usize);
        self.decrement_indexes_after(node, count);
        self.contents = Ghost(removed(before@, before.indexes@[node as int] + rel, count as int));
        proof {
            lemma_remove_linked(
                before.nodes@,
                before.indexes@,
                before.contents@,
                node as int,
                rel as int,
                count as int,
                self.nodes@,
                self.indexes@,
            );
        }
    }

    /// Drops a node that holds nothing.
    fn remove_empty_node_at(&mut self, node: usize)
        requires
            old(self).shape_but(node as int, node as int),
            node < old(self).nodes@.len(),
            old(self).nodes@[node as int]@.len() == 0,
        ensures
            final(self).shape(),
            final(self)@ == old(self)@,
            final(self).node_sizes() == old(self).node_sizes().remove(node as int),
    {
        let ghost before = *self;
        self.nodes.remove(node);
        self.indexes.remove(node);
        proof {
            lemma_drop_linked(
                before.nodes@,
                before.indexes@,
                before.contents@,
                node as int,
                self.nodes@,
                self.indexes@,
            );
            assert forall|i: int| 0 <= i < self.nodes@.len() implies #[trigger] node_fits(
                self.nodes@,
                i,
                S::NODE_CAPACITY as int,
            ) by {
                if i < node {
                    assert(node_fits(before.nodes@, i, S::NODE_CAPACITY as int));
                } else {
                    assert(node_fits(before.nodes@, i + 1, S::NODE_CAPACITY as int));
                }
            }
            assert(self.node_sizes() =~= before.node_sizes().remove(node as int));
        }
    }

    /// Joins a node with the next if they fit one node, and otherwise evens them out if the first
    /// is less than half full.
    #[verifier::rlimit(30)]
    fn maybe_merge_nodes(&mut self, a: usize)
        requires
            old(self).shape_but(a as int, a + 1),
            a + 1 < old(self).nodes@.len(),
            old(self).nodes@[a as int]@.len() <= S::NODE_CAPACITY,
            old(self).nodes@[a + 1]@.len() <= S::NODE_CAPACITY,
            old(self).nodes@[a as int]@.len() + old(self).nodes@[a + 1]@.len() >= 1,
            a + 2 < old(self).nodes@.len() ==> old(self).nodes@[a as int]@.len() + old(
                self,
            ).nodes@[a + 1]@.len() >= S::NODE_CAPACITY / 2,
            old(self).nodes@[a as int]@.len() < S::NODE_CAPACITY / 2 || a + 2 == old(
                self,
            ).nodes@.len() || old(self).nodes@[a + 1]@.len() >= S::NODE_CAPACITY / 2,
        ensures
            final(self).shape(),
            final(self)@ == old(self)@,
            final(self).node_sizes() == merged(
                old(self).node_sizes(),
                a as int,
                S::NODE_CAPACITY as int,
            ),
    {
        let ghost before = *self;
        let ghost sizes = self.node_sizes();
        let ghost capacity = S::NODE_CAPACITY as int;
        let half: usize = S::NODE_CAPACITY / 2;
        let b: usize = a + 1;
        let a_count: usize = self.nodes[a].len();
        let total: usize = a_count + self.nodes[b].len();
        if total > S::NODE_CAPACITY && a_count >= half {
            proof {
                assert(node_fits(self.nodes@, a as int, capacity));
                assert(node_fits(self.nodes@, b as int, capacity));
            }
            return ;
        }
        let mut b_elements = self.nodes.remove(b);
        self.nodes[a].append(&mut b_elements);
        self.indexes.remove(b);
        let ghost joined = *self;
        proof {
            lemma_join_linked(
                before.nodes@,
                before.indexes@,
                before.contents@,
                a as int,
                joined.nodes@,
                joined.indexes@,
            );
            assert forall|i: int|
                0 <= i < joined.nodes@.len() && i != a implies #[trigger] node_fits(
                joined.nodes@,
                i,
                capacity,
            ) by {
                if i < a {
                    assert(node_fits(before.nodes@, i, capacity));
                } else {
                    assert(node_fits(before.nodes@, i + 1, capacity));
                }
            }
        }
        assert(joined.node_sizes() =~= sizes.update(a as int, total as int).remove(b as int));
        if total <= S::NODE_CAPACITY {
            proof {
                assert(node_fits(joined.nodes@, a as int, capacity));
            }
            return ;
        }
        let a_half: usize = (total + 1) / 2;
        proof {
            lemma_all_indexes_monotonic(joined.nodes@, joined.indexes@, joined.contents@);
            assert(joined.indexes@[a + 1] == joined.indexes@[a as int]
                + joined.nodes@[a as int]@.len());
        }
        let b_half = self.nodes[a].split_off(a_half);
        self.nodes.insert(b, b_half);
        let b_start: u32 = self.indexes[a] + a_half as u32;
        self.indexes.insert(b, b_start);
        proof {
            lemma_cut_linked(
                joined.nodes@,
                joined.indexes@,
                joined.contents@,
                a as int,
                a_half as int,
                self.nodes@,
                self.indexes@,
            );
            assert forall|i: int| 0 <= i < self.nodes@.len() implies #[trigger] node_fits(
                self.nodes@,
                i,
                capacity,
            ) by {
                if i < a {
                    assert(node_fits(joined.nodes@, i, capacity));
                } else if i > a + 1 {
                    assert(node_fits(joined.nodes@, i - 1, capacity));
                }
            }
            assert(self.node_sizes() =~= sizes.update(a as int, a_half as int).update(
                b as int,
                total as int / 2,
            ));
        }
    }

    /// Drops a node that has become empty, or else sees whether it merges with the next.
    fn maybe_remove_or_merge_node_with_next(&mut self, node: usize)
        requires
            old(self).shape_but(node as int, node as int),
            node < old(self).nodes@.len(),
            old(self).nodes@[node as int]@.len() <= S::NODE_CAPACITY,
        ensures
            final(self).shape(),
            final(self)@ == old(self)@,
            final(self).node_sizes() == settled(
                old(self).node_sizes(),
                node as int,
                S::NODE_CAPACITY as int,
            ),
    {
        if self.nodes[node].len() == 0 {
            self.remove_empty_node_at(node);
            return ;
        }
        if node == self.nodes.len() - 1 {
            proof {
                assert(node_fits(self.nodes@, node as int, S::NODE_CAPACITY as int));
            }
            return ;
        }
        proof {
            assert(node_fits(self.nodes@, node + 1, S::NODE_CAPACITY as int));
        }
        self.maybe_merge_nodes(node);
    }

    /// Removes no more than half a node's worth of elements, which touches at most two nodes.
    #[verifier::rlimit(30)]
    fn remove_elements_batch(&mut self, absolute_index: u32, remove_count: u32)
        requires
            old(self).shape(),
            1 <= remove_count <= S::NODE_CAPACITY / 2,
            absolute_index + remove_count <= old(self)@.len(),
        ensures
            final(self).shape(),
            final(self)@ == removed(old(self)@, absolute_index as int, remove_count as int),
            final(self).node_sizes() == without_batch(
                old(self).node_sizes(),
                absolute_index as int,
                remove_count as int,
                S::NODE_CAPACITY as int,
            ),
    {
        let ghost before = *self;
        let ghost sizes = self.node_sizes();
        let ghost capacity = S::NODE_CAPACITY as int;
        let half: usize = S::NODE_CAPACITY / 2;
        proof {
            self.lemma_node_count_fits();
        }
        let cursor = self.cursor_for_absolute_index(absolute_index);
        let a: usize = cursor.node as usize;
        let a_remaining: usize = cursor.relative_index as usize;
        proof {
            self.lemma_starts_increase();
            self.lemma_cursor_node(cursor);
            assert(node_fits(self.nodes@, a as int, capacity));
            assert(self.indexes@[a + 1] == self.indexes@[a as int] + self.nodes@[a as int]@.len());
        }
        let a_count: usize = self.nodes[a].len();
        if a_remaining + remove_count as usize <= a_count {
            // One node holds all of them.
            self.remove_from_node(a, a_remaining, remove_count);
            proof {
                assert forall|i: int|
                    0 <= i < self.nodes@.len() && i != a implies #[trigger] node_fits(
                    self.nodes@,
                    i,
                    capacity,
                ) by {
                    assert(node_fits(before.nodes@, i, capacity));
                }
                assert(self.node_sizes() =~= sizes.update(a as int, a_count - remove_count));
            }
            self.maybe_remove_or_merge_node_with_next(a);
            return ;
        }
        // The end of one node and the front of the next hold them.
        let b: usize = a + 1;
        proof {
            assert(b < self.nodes@.len());
            assert(node_fits(self.nodes@, b as int, capacity));
            assert(self.indexes@[b + 1] == self.indexes@[b as int] + self.nodes@[b as int]@.len());
            if b + 1 == self.nodes@.len() {
                assert(self.indexes@[b + 1] == self@.len());
            }
        }
        let from_a: u32 = (a_count - a_remaining) as u32;
        let from_b: u32 = remove_count - from_a;
        self.remove_from_node(b, 0, from_b);
        let ghost middle = *self;
        self.remove_from_node(a, a_remaining, from_a);
        proof {
            assert(self@ =~= removed(before@, absolute_index as int, remove_count as int));
            assert forall|i: int|
                0 <= i < self.nodes@.len() && i != a && i != b implies #[trigger] node_fits(
                self.nodes@,
                i,
                capacity,
            ) by {
                assert(middle.nodes@[i] == before.nodes@[i]);
                assert(node_fits(before.nodes@, i, capacity));
            }
            assert(self.nodes@[b as int] == middle.nodes@[b as int]);
            assert(self.node_sizes() =~= sizes.update(a as int, a_remaining as int).update(
                b as int,
                sizes[b as int] - from_b,
            ));
        }
        if a_remaining >= half {
            proof {
                assert(node_fits(self.nodes@, a as int, capacity));
            }
            self.maybe_remove_or_merge_node_with_next(b);
        } else {
            self.maybe_merge_nodes(a);
        }
    }

    /// Removes `remove_count` elements from an index on.
    pub fn remove_elements(&mut self, absolute_index: u32, remove_count: u32)
        requires
            old(self).wf(),
            remove_count > 0,
            absolute_index + remove_count <= old(self)@.len(),
        ensures
            final(self).wf(),
            final(self)@ == removed(old(self)@, absolute_index as int, remove_count as int),
            final(self).node_sizes() == without_elements(
                old(self).node_sizes(),
                absolute_index as int,
                remove_count as int,
                S::NODE_CAPACITY as int,
            ),
    {
        let ghost before = self@;
        let half: usize = S::NODE_CAPACITY / 2;
        let mut left: u32 = remove_count;
        proof {
            assert(self@ =~= removed(before, absolute_index as int, 0));
        }
        while left > 0
            invariant
                self.shape(),
                Self::spec_valid(),
                half == S::NODE_CAPACITY / 2,
                left <= remove_count,
                absolute_index + remove_count <= before.len() <= u32::MAX,
                self@ == removed(before, absolute_index as int, remove_count - left),
                without_elements(
                    self.node_sizes(),
                    absolute_index as int,
                    left as int,
                    S::NODE_CAPACITY as int,
                ) == without_elements(
                    old(self).node_sizes(),
                    absolute_index as int,
                    remove_count as int,
                    S::NODE_CAPACITY as int,
                ),
            decreases left,
        {
            let batch: u32 = if half < left as usize {
                half as u32
            } else {
                left
            };
            proof {
                lemma_remove_in_order(
                    before,
                    absolute_index as int,
                    remove_count - left,
                    batch as int,
                );
            }
            self.remove_elements_batch(absolute_index, batch);
            left = left - batch;
        }
        proof {
            if S::SORTED {
                let old_ranks = spec_ranks::<S>(before);
                let new_ranks = spec_ranks::<S>(self@);
                assert forall|i: int, j: int| 0 <= i <= j < new_ranks.len() implies new_ranks[i]
                    <= new_ranks[j] by {
                    let oi = if i < absolute_index {
                        i
                    } else {
                        i + remove_count
                    };
                    let oj = if j < absolute_index {
                        j
                    } else {
                        j + remove_count
                    };
                    assert(old_ranks[oi] <= old_ranks[oj]);
                }
            }
        }
    }
}

/// Overwrites one element.
fn splice_one<V: Copy>(values: &mut Vec<V>, index: usize, element: V)
    requires
        index < old(values)@.len(),
    ensures
        final(values)@ == old(values)@.update(index as int, element),
{
    values.set(index, element);
}

impl<S: SegmentedArraySpec> SegmentedArray<S> {
    /// A cursor to the first element whose key is not below `key`, or just past the last element.
    #[must_use]
    pub fn search(&self, key: S::Key) -> (result: Cursor)
        requires
            self.wf(),
            S::SORTED,
        ensures
            self.cursor_valid(result),
            is_upsert_index(
                spec_ranks::<S>(self@),
                key.rank(),
                Mode::LowerBound,
                self.cursor_index(result),
            ),
    {
        proof {
            self.lemma_node_count_fits();
        }
        if self.nodes.len() == 0 {
            return Cursor { node: 0, relative_index: 0 };
        }
        let ghost all = spec_ranks::<S>(self@);
        // Search the first element of each node, rounding down to the node that starts below.
        let mut offset: usize = 0;
        let mut length: usize = self.nodes.len();
        while length > 1
            invariant
                self.wf(),
                all == spec_ranks::<S>(self@),
                1 <= length,
                offset + length <= self.nodes@.len() <= u32::MAX,
                offset > 0 ==> all[self.spec_start(offset as int)] < key.rank(),
                offset + length < self.nodes@.len() ==> key.rank() <= all[self.spec_start(
                    offset + length,
                )],
            decreases length,
        {
            let half: usize = length / 2;
            let mid: usize = offset + half;
            proof {
                self.law_nodes_partition_elements(mid as int);
            }
            let node_first = self.node_elements(mid as u32)[0];
            proof {
                assert(node_first == self@[self.spec_start(mid as int)]);
            }
            if S::key_from_value(&node_first).key_lt(key) {
                offset = mid;
                length = length - half;
            } else {
                length = half;
            }
        }
        let node: u32 = offset as u32;
        proof {
            self.law_nodes_partition_elements(node as int);
        }
        let ghost start = self.spec_start(node as int);
        let elements = self.node_elements(node);
        let reader: SpecKey<S> = SpecKey { spec: core::marker::PhantomData };
        let ghost here = value_ranks(reader, elements@);
        proof {
            assert(here =~= all.subrange(start, start + elements@.len()));
        }
        let relative_index: u32 = binary_search_values_upsert_index(
            &reader,
            elements,
            key,
            Config { mode: Mode::LowerBound },
        );
        proof {
            let index = start + relative_index;
            assert forall|i: int| 0 <= i < index implies all[i] < key.rank() by {
                if i >= start {
                    assert(all[i] == here[i - start]);
                } else {
                    assert(all[i] <= all[start]);
                }
            }
            if relative_index < elements@.len() {
                assert(all[index] == here[relative_index as int]);
            }
        }
        // Only the last node may be pointed past its end.
        if offset + 1 < self.nodes.len() && relative_index as usize == elements.len() {
            proof {
                self.law_nodes_partition_elements(node + 1);
            }
            Cursor { node: node + 1, relative_index: 0 }
        } else {
            Cursor { node, relative_index }
        }
    }

    /// The rank of the key at a place in a node.
    spec fn node_rank(&self, node: int, index: int) -> int {
        S::key_of(self.nodes@[node]@[index]).rank()
    }

    /// Keys do not fall within a node, nor from the end of one node to the front of the next.
    spec fn node_in_order(&self, node: int) -> bool {
        &&& forall|j: int|
            0 < j < self.nodes@[node]@.len() ==> self.node_rank(node, j - 1)
                <= #[trigger] self.node_rank(node, j)
        &&& node > 0 && self.nodes@[node - 1]@.len() > 0 && self.nodes@[node]@.len() > 0
            ==> self.node_rank(node - 1, self.nodes@[node - 1]@.len() - 1) <= self.node_rank(
            node,
            0,
        )
    }

    /// The structural invariants of the stored nodes.
    pub closed spec fn structure(&self) -> bool {
        &&& self.nodes@.len() <= self.node_count_max
        &&& self.indexes@.len() == self.nodes@.len() + 1
        &&& forall|i: int|
            0 <= i < self.nodes@.len() ==> #[trigger] node_fits(
                self.nodes@,
                i,
                S::NODE_CAPACITY as int,
            )
        &&& forall|i: int|
            0 <= i < self.nodes@.len() ==> self.indexes@[i + 1] == self.indexes@[i] + (
            #[trigger] self.nodes@[i])@.len()
        &&& S::SORTED ==> forall|i: int|
            0 <= i < self.nodes@.len() ==> #[trigger] self.node_in_order(i)
    }

    /// A well-formed array has every structural invariant.
    pub proof fn law_well_formed_arrays_verify(&self)
        requires
            self.wf(),
        ensures
            self.structure(),
    {
        if S::SORTED {
            let all = spec_ranks::<S>(self@);
            assert forall|i: int| 0 <= i < self.nodes@.len() implies #[trigger] self.node_in_order(
                i,
            ) by {
                self.law_nodes_partition_elements(i);
                let start = self.spec_start(i);
                assert forall|j: int| 0 < j < self.nodes@[i]@.len() implies self.node_rank(i, j - 1)
                    <= #[trigger] self.node_rank(i, j) by {
                    assert(self.node_rank(i, j - 1) == all[start + j - 1]);
                    assert(self.node_rank(i, j) == all[start + j]);
                }
                if i > 0 {
                    self.law_nodes_partition_elements(i - 1);
                    assert(self.node_rank(i - 1, self.nodes@[i - 1]@.len() - 1) == all[start - 1]);
                    assert(self.node_rank(i, 0) == all[start]);
                }
            }
        }
    }

    /// Checks the structural invariants.
    pub fn verify(&self) -> (result: bool)
        ensures
            result == self.structure(),
    {
        let count: usize = self.nodes.len();
        if count > self.node_count_max || self.indexes.len() == 0 || self.indexes.len() - 1
            != count {
            return false;
        }
        let half: usize = S::NODE_CAPACITY / 2;
        let mut i: usize = 0;
        while i < count
            invariant
                count == self.nodes@.len(),
                half == S::NODE_CAPACITY / 2,
                count <= self.node_count_max,
                self.indexes@.len() == count + 1,
                i <= count,
                forall|k: int|
                    0 <= k < i ==> #[trigger] node_fits(self.nodes@, k, S::NODE_CAPACITY as int),
                forall|k: int|
                    0 <= k < i ==> self.indexes@[k + 1] == self.indexes@[k] + (
                    #[trigger] self.nodes@[k])@.len(),
                S::SORTED ==> forall|k: int| 0 <= k < i ==> #[trigger] self.node_in_order(k),
            decreases count - i,
        {
            let length: usize = self.nodes[i].len();
            let fits = 1 <= length && length <= S::NODE_CAPACITY && (i + 1 == count || length
                >= half);
            assert(fits == node_fits(self.nodes@, i as int, S::NODE_CAPACITY as int));
            if !fits {
                return false;
            }
            if self.indexes[i + 1] < self.indexes[i] || (self.indexes[i + 1] - self.indexes[i])
                as usize != length {
                assert(self.indexes@[i + 1] != self.indexes@[i as int]
                    + self.nodes@[i as int]@.len());
                return false;
            }
            if S::SORTED {
                proof {
                    if i > 0 {
                        assert(node_fits(self.nodes@, i - 1, S::NODE_CAPACITY as int));
                    }
                }
                if !self.verify_node_in_order(i) {
                    return false;
                }
            }
            i = i + 1;
        }
        true
    }

    fn verify_node_in_order(&self, node: usize) -> (result: bool)
        requires
            node < self.nodes@.len(),
            self.nodes@[node as int]@.len() > 0,
            node > 0 ==> self.nodes@[node - 1]@.len() > 0,
        ensures
            result == self.node_in_order(node as int),
    {
        let elements = &self.nodes[node];
        if node > 0 {
            let prior = &self.nodes[node - 1];
            let key_prior = S::key_from_value(&prior[prior.len() - 1]);
            if !key_prior.key_le(S::key_from_value(&elements[0])) {
                return false;
            }
        }
        let mut j: usize = 1;
        while j < elements.len()
            invariant
                node < self.nodes@.len(),
                *elements == self.nodes@[node as int],
                1 <= j <= elements@.len(),
                forall|k: int|
                    0 < k < j ==> self.node_rank(node as int, k - 1) <= #[trigger] self.node_rank(
                        node as int,
                        k,
                    ),
            decreases elements@.len() - j,
        {
            let key_prior = S::key_from_value(&elements[j - 1]);
            let key = S::key_from_value(&elements[j]);
            assert(key.rank() == self.node_rank(node as int, j as int));
            if !key_prior.key_le(key) {
                return false;
            }
            j = j + 1;
        }
        true
    }

    /// Walks the elements from `cursor` on. Descending from just past the last element starts at
    /// the last.
    #[must_use]
    pub fn iterator_from_cursor(&self, cursor: Cursor, direction: Direction) -> (result:
        SegmentedArrayIterator<'_, S>)
        requires
            self.wf(),
            self.cursor_valid(cursor),
        ensures
            result.wf(),
            result.array() == *self,
            result.direction() == direction,
            result.remaining() == walk(self@, self.cursor_index(cursor), direction),
    {
        proof {
            self.lemma_node_count_fits();
            if self.spec_node_count() > 0 {
                self.law_nodes_partition_elements(cursor.node as int);
            }
        }
        let (cursor, done) = if self.nodes.len() == 0 {
            (Cursor { node: 0, relative_index: 0 }, true)
        } else if cursor.node as usize == self.nodes.len() - 1 && cursor.relative_index
            == self.count(cursor.node) {
            match direction {
                Direction::Ascending => (cursor, true),
                Direction::Descending => (
                    Cursor { node: cursor.node, relative_index: cursor.relative_index - 1 },
                    false,
                ),
            }
        } else {
            (cursor, false)
        };
        SegmentedArrayIterator { array: self, direction, cursor, done }
    }

    /// Walks the elements from an absolute index on.
    #[must_use]
    pub fn iterator_from_index(&self, absolute_index: u32, direction: Direction) -> (result:
        SegmentedArrayIterator<'_, S>)
        requires
            self.wf(),
            absolute_index < self@.len() || (self@.len() == 0 && absolute_index == 0),
        ensures
            result.wf(),
            result.array() == *self,
            result.direction() == direction,
            result.remaining() == walk(self@, absolute_index as int, direction),
    {
        proof {
            self.lemma_node_count_fits();
        }
        if self.nodes.len() == 0 {
            let cursor = Cursor { node: 0, relative_index: 0 };
            SegmentedArrayIterator { array: self, direction, cursor, done: true }
        } else {
            let cursor = self.cursor_for_absolute_index(absolute_index);
            SegmentedArrayIterator { array: self, direction, cursor, done: false }
        }
    }
}

/// The elements met from `index` on, in iteration order.
pub open spec fn walk<V>(values: Seq<V>, index: int, direction: Direction) -> Seq<V> {
    match direction {
        Direction::Ascending => values.subrange(index, values.len() as int),
        Direction::Descending => values.subrange(
            0,
            if index < values.len() {
                index + 1
            } else {
                values.len() as int
            },
        ).reverse(),
    }
}

/// A walk over the elements of an array.
pub struct SegmentedArrayIterator<'a, S: SegmentedArraySpec> {
    array: &'a SegmentedArray<S>,
    direction: Direction,
    cursor: Cursor,
    /// Set at the end of the walk, or earlier to cut it short.
    done: bool,
}

impl<'a, S: SegmentedArraySpec> SegmentedArrayIterator<'a, S> {
    pub closed spec fn wf(&self) -> bool {
        &&& self.array.wf()
        &&& !self.done ==> {
            &&& self.array.cursor_valid(self.cursor)
            &&& self.array.cursor_index(self.cursor) < self.array@.len()
        }
    }

    pub closed spec fn array(&self) -> SegmentedArray<S> {
        *self.array
    }

    pub closed spec fn direction(&self) -> Direction {
        self.direction
    }

    /// The elements yet to come.
    pub closed spec fn remaining(&self) -> Seq<S::Value> {
        if self.done {
            Seq::empty()
        } else {
            walk(self.array@, self.array.cursor_index(self.cursor), self.direction)
        }
    }

    /// The next element, or `None` at the end of the walk.
    pub fn next(&mut self) -> (result: Option<&'a S::Value>)
        requires
            old(self).wf(),
        ensures
            final(self).wf(),
            final(self).array() == old(self).array(),
            final(self).direction() == old(self).direction(),
            match result {
                Some(value) => {
                    &&& old(self).remaining().len() > 0
                    &&& *value == old(self).remaining().first()
                    &&& final(self).remaining() == old(self).remaining().drop_first()
                },
                None => {
                    &&& old(self).remaining().len() == 0
                    &&& final(self).remaining() == old(self).remaining()
                },
            },
    {
        if self.done {
            return None;
        }
        let ghost index = self.array.cursor_index(self.cursor);
        let ghost all = self.array@;
        proof {
            self.array.lemma_node_count_fits();
            self.array.law_nodes_partition_elements(self.cursor.node as int);
            if self.cursor.node + 1 < self.array.spec_node_count() {
                self.array.law_nodes_partition_elements(self.cursor.node + 1);
            }
            if self.cursor.node > 0 {
                self.array.law_nodes_partition_elements(self.cursor.node - 1);
            }
        }
        let elements = self.array.node_elements(self.cursor.node);
        let element = &elements[self.cursor.relative_index as usize];
        match self.direction {
            Direction::Ascending => {
                if self.cursor.relative_index as usize == elements.len() - 1 {
                    if self.cursor.node as usize == self.array.nodes.len() - 1 {
                        self.done = true;
                    } else {
                        self.cursor = Cursor { node: self.cursor.node + 1, relative_index: 0 };
                    }
                } else {
                    self.cursor =
                    Cursor {
                        node: self.cursor.node,
                        relative_index: self.cursor.relative_index + 1,
                    };
                }
            },
            Direction::Descending => {
                if self.cursor.relative_index == 0 {
                    if self.cursor.node == 0 {
                        self.done = true;
                    } else {
                        let node: u32 = self.cursor.node - 1;
                        self.cursor =
                        Cursor { node, relative_index: self.array.count(node) - 1 };
                    }
                } else {
                    self.cursor =
                    Cursor {
                        node: self.cursor.node,
                        relative_index: self.cursor.relative_index - 1,
                    };
                }
            },
        }
        proof {
            let before = walk(all, index, self.direction);
            assert(before.first() == all[index]);
            assert(self.remaining() =~= before.drop_first());
        }
        Some(element)
    }

    /// Cuts the walk short.
    pub fn stop(&mut self)
        requires
            old(self).wf(),
        ensures
            final(self).wf(),
            final(self).array() == old(self).array(),
            final(self).direction() == old(self).direction(),
            final(self).remaining() == Seq::<S::Value>::empty(),
    {
        self.done = true;
    }
}

/// An insertion moves what stood at its index, and all after it, further on.
pub proof fn law_insertion_moves_the_rest<V>(
    values: Seq<V>,
    index: int,
    elements: Seq<V>,
    count: int,
    i: int,
)
    requires
        0 <= index <= values.len(),
        0 <= i < values.len(),
        0 <= count <= values.len() - index,
    ensures
        inserted(values, index, elements).len() == values.len() + elements.len(),
        i < index ==> inserted(values, index, elements)[i] == values[i],
        i >= index ==> inserted(values, index, elements)[i + elements.len()] == values[i],
        forall|k: int|
            0 <= k < elements.len() ==> inserted(values, index, elements)[index + k]
                == #[trigger] elements[k],
        removed(values, index, count).len() == values.len() - count,
        i < index ==> removed(values, index, count)[i] == values[i],
        i >= index + count ==> removed(values, index, count)[i - count] == values[i],
{
}

} // verus!
