//! How many elements the nodes of an array hold.

use vstd::prelude::*;

verus! {

/// The index of the first element of a node.
pub open spec fn start_of(sizes: Seq<int>, node: int) -> int
    decreases node,
{
    if node <= 0 {
        0
    } else {
        start_of(sizes, node - 1) + sizes[node - 1]
    }
}

/// Whether a node is the one for an index. The last node is also the one for the index past the
/// end.
pub open spec fn is_node_for(sizes: Seq<int>, index: int, node: int) -> bool {
    &&& 0 <= node < sizes.len()
    &&& start_of(sizes, node) <= index
    &&& index < start_of(sizes, node + 1) || node + 1 == sizes.len()
}

/// The node for an index.
pub open spec fn node_for(sizes: Seq<int>, index: int) -> int {
    choose|node: int| is_node_for(sizes, index, node)
}

/// The sizes after `count` elements, no more than fit a node, were inserted at an index. A node
/// that gets too many is split into halves.
pub open spec fn with_batch(sizes: Seq<int>, index: int, count: int, capacity: int) -> Seq<int> {
    if sizes.len() == 0 {
        seq![count]
    } else {
        let node = node_for(sizes, index);
        let total = sizes[node] + count;
        if total <= capacity {
            sizes.update(node, total)
        } else {
            sizes.update(node, (total + 1) / 2).insert(node + 1, total / 2)
        }
    }
}

/// The sizes after `count` elements were inserted at an index, one node's worth at a time.
pub open spec fn with_elements(sizes: Seq<int>, index: int, count: int, capacity: int) -> Seq<int>
    decreases count,
{
    if count <= 0 || capacity <= 0 {
        sizes
    } else {
        let batch = if capacity < count {
            capacity
        } else {
            count
        };
        with_elements(
            with_batch(sizes, index, batch, capacity),
            index + batch,
            count - batch,
            capacity,
        )
    }
}

/// The sizes after a node was joined with the next if they fit one node, and otherwise evened out
/// with it if it is less than half full.
pub open spec fn merged(sizes: Seq<int>, node: int, capacity: int) -> Seq<int> {
    let total = sizes[node] + sizes[node + 1];
    if total <= capacity {
        sizes.update(node, total).remove(node + 1)
    } else if sizes[node] < capacity / 2 {
        sizes.update(node, (total + 1) / 2).update(node + 1, total / 2)
    } else {
        sizes
    }
}

/// The sizes after a node was dropped if it is empty, and otherwise merged with the next if there
/// is one.
pub open spec fn settled(sizes: Seq<int>, node: int, capacity: int) -> Seq<int> {
    if sizes[node] == 0 {
        sizes.remove(node)
    } else if node + 1 == sizes.len() {
        sizes
    } else {
        merged(sizes, node, capacity)
    }
}

/// The sizes after `count` elements, no more than half of what fits a node, were removed from an
/// index on.
pub open spec fn without_batch(sizes: Seq<int>, index: int, count: int, capacity: int) -> Seq<int> {
    let node = node_for(sizes, index);
    let kept = index - start_of(sizes, node);
    if kept + count <= sizes[node] {
        settled(sizes.update(node, sizes[node] - count), node, capacity)
    } else {
        let from_next = count - (sizes[node] - kept);
        let cut = sizes.update(node, kept).update(node + 1, sizes[node + 1] - from_next);
        if kept >= capacity / 2 {
            settled(cut, node + 1, capacity)
        } else {
            merged(cut, node, capacity)
        }
    }
}

/// The sizes after `count` elements were removed from an index on, half a node's worth at a time.
pub open spec fn without_elements(
    sizes: Seq<int>,
    index: int,
    count: int,
    capacity: int,
) -> Seq<int>
    decreases count,
{
    if count <= 0 || capacity / 2 <= 0 {
        sizes
    } else {
        let batch = if capacity / 2 < count {
            capacity / 2
        } else {
            count
        };
        without_elements(
            without_batch(sizes, index, batch, capacity),
            index,
            count - batch,
            capacity,
        )
    }
}

/// Nodes start where the nodes before them end.
pub proof fn lemma_starts_ordered(sizes: Seq<int>, a: int, b: int)
    requires
        0 <= a <= b <= sizes.len(),
        forall|i: int| 0 <= i < sizes.len() ==> #[trigger] sizes[i] >= 0,
    ensures
        start_of(sizes, a) <= start_of(sizes, b),
    decreases b - a,
{
    if a < b {
        lemma_starts_ordered(sizes, a, b - 1);
        assert(sizes[b - 1] >= 0);
    }
}

/// There is only one node for an index.
pub proof fn lemma_node_for(sizes: Seq<int>, index: int, node: int)
    requires
        is_node_for(sizes, index, node),
        forall|i: int| 0 <= i < sizes.len() ==> #[trigger] sizes[i] >= 0,
    ensures
        node_for(sizes, index) == node,
{
    let other = node_for(sizes, index);
    assert(is_node_for(sizes, index, other));
    if other < node {
        lemma_starts_ordered(sizes, other + 1, node);
    } else if node < other {
        lemma_starts_ordered(sizes, node + 1, other);
    }
}

/// An insertion goes to the node for its index. A node that gets more than fits it is split into
/// halves, of which the first is the larger by one at most. The other nodes stay as they are.
pub proof fn law_insertion_splits_evenly(
    sizes: Seq<int>,
    index: int,
    count: int,
    capacity: int,
    node: int,
)
    requires
        is_node_for(sizes, index, node),
        forall|i: int| 0 <= i < sizes.len() ==> 0 <= #[trigger] sizes[i] <= capacity,
        0 <= count <= capacity,
    ensures
        ({
            let after = with_batch(sizes, index, count, capacity);
            &&& forall|i: int| 0 <= i < node ==> #[trigger] after[i] == sizes[i]
            &&& if sizes[node] + count <= capacity {
                &&& after.len() == sizes.len()
                &&& after[node] == sizes[node] + count
                &&& forall|i: int| node < i < sizes.len() ==> #[trigger] after[i] == sizes[i]
            } else {
                &&& after.len() == sizes.len() + 1
                &&& after[node] + after[node + 1] == sizes[node] + count
                &&& after[node + 1] <= after[node] <= after[node + 1] + 1
                &&& after[node] <= capacity
                &&& forall|i: int|
                    node + 1 < i < after.len() ==> #[trigger] after[i] == sizes[i - 1]
            }
        }),
{
    lemma_node_for(sizes, index, node);
}

/// Two neighbours that fit one node are joined. Otherwise the first gets what makes the two even
/// where it is less than half full.
pub proof fn law_neighbours_are_joined(sizes: Seq<int>, node: int, capacity: int)
    requires
        0 <= node < sizes.len() - 1,
    ensures
        ({
            let after = merged(sizes, node, capacity);
            let total = sizes[node] + sizes[node + 1];
            if total <= capacity {
                &&& after.len() == sizes.len() - 1
                &&& after[node] == total
                &&& forall|i: int| node < i < after.len() ==> #[trigger] after[i] == sizes[i + 1]
                &&& forall|i: int| 0 <= i < node ==> #[trigger] after[i] == sizes[i]
            } else {
                &&& after.len() == sizes.len()
                &&& after[node] + after[node + 1] == total
                &&& sizes[node] >= capacity / 2 ==> after == sizes
                &&& sizes[node] < capacity / 2 ==> after[node + 1] <= after[node] <= after[node + 1]
                    + 1
                &&& forall|i: int|
                    0 <= i < sizes.len() && i != node && i != node + 1 ==> #[trigger] after[i]
                        == sizes[i]
            }
        }),
{
}

/// Emptied nodes are dropped.
pub proof fn law_empty_nodes_are_dropped(sizes: Seq<int>, node: int, capacity: int)
    requires
        0 <= node < sizes.len(),
        sizes[node] == 0,
    ensures
        settled(sizes, node, capacity) == sizes.take(node) + sizes.skip(node + 1),
{
    assert(sizes.remove(node) =~= sizes.take(node) + sizes.skip(node + 1));
}

} // verus!
