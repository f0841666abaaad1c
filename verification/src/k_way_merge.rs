//! Merging sorted streams with a tournament of losers.
//!
//! The heads of the streams are the leaves of a binary tree, stored level by level. Every inner
//! node remembers who lost the match there, and the winner of all matches stands apart. To replace
//! the winner takes one match per level, on the way from its leaf up to the root.
//!
//! ```text
//!     0
//!    / \
//!   1   2
//!  / \ / \
//! 3  4 5  6     leaves: the heads of the streams
//! ```
//!
//! A stream that has run dry is represented by a sentinel, which loses to everyone else.

use crate::composite_key::U256;
use crate::direction::Direction;
use crate::key::OrderedKey;
use vstd::prelude::*;

verus! {

/// A stream has nothing to say yet.
#[derive(Clone, Copy, Debug, PartialEq, Eq, Structural)]
pub struct Pending;

/// A key that can compete.
pub trait TournamentKey: OrderedKey {
    spec fn greatest() -> Self;

    spec fn least() -> Self;

    /// No key lies outside the bounds.
    proof fn key_bounds(key: Self)
        ensures
            Self::least().rank() <= key.rank() <= Self::greatest().rank(),
    ;

    /// The greatest key, which stands for no key at all.
    fn sentinel_key() -> (result: Self)
        ensures
            result == Self::greatest(),
    ;

    /// The least key.
    fn min_key() -> (result: Self)
        ensures
            result == Self::least(),
    ;
}

impl TournamentKey for u8 {
    open spec fn greatest() -> Self {
        u8::MAX
    }

    open spec fn least() -> Self {
        0
    }

    proof fn key_bounds(key: Self) {
    }

    fn sentinel_key() -> (result: Self) {
        u8::MAX
    }

    fn min_key() -> (result: Self) {
        0
    }
}

impl TournamentKey for u16 {
    open spec fn greatest() -> Self {
        u16::MAX
    }

    open spec fn least() -> Self {
        0
    }

    proof fn key_bounds(key: Self) {
    }

    fn sentinel_key() -> (result: Self) {
        u16::MAX
    }

    fn min_key() -> (result: Self) {
        0
    }
}

impl TournamentKey for u32 {
    open spec fn greatest() -> Self {
        u32::MAX
    }

    open spec fn least() -> Self {
        0
    }

    proof fn key_bounds(key: Self) {
    }

    fn sentinel_key() -> (result: Self) {
        u32::MAX
    }

    fn min_key() -> (result: Self) {
        0
    }
}

impl TournamentKey for u64 {
    open spec fn greatest() -> Self {
        u64::MAX
    }

    open spec fn least() -> Self {
        0
    }

    proof fn key_bounds(key: Self) {
    }

    fn sentinel_key() -> (result: Self) {
        u64::MAX
    }

    fn min_key() -> (result: Self) {
        0
    }
}

impl TournamentKey for u128 {
    open spec fn greatest() -> Self {
        u128::MAX
    }

    open spec fn least() -> Self {
        0
    }

    proof fn key_bounds(key: Self) {
    }

    fn sentinel_key() -> (result: Self) {
        u128::MAX
    }

    fn min_key() -> (result: Self) {
        0
    }
}

impl TournamentKey for U256 {
    closed spec fn greatest() -> Self {
        U256::spec_from_parts(u128::MAX, u64::MAX)
    }

    closed spec fn least() -> Self {
        U256::spec_from_parts(0, 0)
    }

    proof fn key_bounds(key: Self) {
        U256::lemma_from_parts(u128::MAX, u64::MAX);
        U256::lemma_from_parts(0, 0);
    }

    fn sentinel_key() -> (result: Self) {
        U256::from_parts(u128::MAX, u64::MAX)
    }

    fn min_key() -> (result: Self) {
        U256::from_parts(0, 0)
    }
}

/// One of two values.
#[must_use]
fn select<T>(a_wins: bool, a: T, b: T) -> (result: T)
    ensures
        result == if a_wins {
            a
        } else {
            b
        },
{
    if a_wins {
        a
    } else {
        b
    }
}

/// The head of a stream.
#[derive(Clone, Copy, Debug)]
pub struct Node<Key> {
    pub key: Key,
    pub id: u32,
}

impl<Key: TournamentKey> Node<Key> {
    /// The id of a sentinel.
    pub const ID_SENTINEL: u32 = u32::MAX;

    pub open spec fn spec_sentinel() -> Self {
        Node { key: Key::greatest(), id: u32::MAX }
    }

    /// The head of a stream that has run dry.
    #[must_use]
    pub fn sentinel() -> (result: Self)
        ensures
            result == Self::spec_sentinel(),
    {
        Node { key: Key::sentinel_key(), id: u32::MAX }
    }

    /// The head of the stream `slot`, or a sentinel.
    pub open spec fn fits_slot(self, slot: int) -> bool {
        self == Self::spec_sentinel() || (self.id == slot && slot < u32::MAX)
    }

    /// Whether this is the head of a stream.
    pub open spec fn is_real(self) -> bool {
        self.id != u32::MAX
    }

    /// A place on the number line: the lesser score wins.
    pub open spec fn score(self, direction: Direction) -> int {
        match direction {
            Direction::Ascending => self.key.rank() * 0x1_0000_0000 + self.id,
            Direction::Descending => if self.is_real() {
                -self.key.rank() * 0x1_0000_0000 + self.id
            } else {
                -Key::least().rank() * 0x1_0000_0000 + u32::MAX
            },
        }
    }
}

/// The winner of a match.
pub open spec fn better<Key: TournamentKey>(
    a: Node<Key>,
    b: Node<Key>,
    direction: Direction,
) -> Node<Key> {
    if a.score(direction) <= b.score(direction) {
        a
    } else {
        b
    }
}

/// The loser of a match.
pub open spec fn worse<Key: TournamentKey>(
    a: Node<Key>,
    b: Node<Key>,
    direction: Direction,
) -> Node<Key> {
    if a.score(direction) <= b.score(direction) {
        b
    } else {
        a
    }
}

/// Heads of streams with equal scores are the same.
proof fn lemma_score_injective<Key: TournamentKey>(
    a: Node<Key>,
    a_slot: int,
    b: Node<Key>,
    b_slot: int,
    direction: Direction,
)
    requires
        a.fits_slot(a_slot),
        b.fits_slot(b_slot),
        a.score(direction) == b.score(direction),
    ensures
        a == b,
{
    Key::key_bounds(a.key);
    Key::key_bounds(b.key);
    Key::rank_injective(a.key, b.key);
}

/// Whether `a` wins over `b`. Sentinels lose. Of equal keys, the one with the smaller id wins.
///
/// Ascending, the key of a sentinel is no smaller than any other, so that its id decides.
/// Descending, it would win, so that sentinels are told apart by their ids.
#[must_use]
fn beats<Key: TournamentKey>(
    a_key: Key,
    a_id: u32,
    b_key: Key,
    b_id: u32,
    direction: Direction,
) -> (result: bool)
    requires
        a_id == u32::MAX ==> a_key == Key::greatest(),
        b_id == u32::MAX ==> b_key == Key::greatest(),
    ensures
        ({
            let a = Node { key: a_key, id: a_id };
            let b = Node { key: b_key, id: b_id };
            if a.score(direction) == b.score(direction) {
                result ==> a == b
            } else {
                result == (a.score(direction) < b.score(direction))
            }
        }),
{
    proof {
        Key::key_bounds(a_key);
        Key::key_bounds(b_key);
        Key::rank_injective(a_key, b_key);
    }
    let equal_and_id_wins = a_key.key_eq(b_key) && a_id < b_id;
    match direction {
        Direction::Ascending => a_key.key_lt(b_key) || equal_and_id_wins,
        Direction::Descending => {
            let a_is_sentinel = a_id == u32::MAX;
            let b_is_sentinel = b_id == u32::MAX;
            b_is_sentinel || (!a_is_sentinel && (b_key.key_lt(a_key) || equal_and_id_wins))
        },
    }
}

/// A power of two.
pub open spec fn is_power_of_two(n: int) -> bool
    decreases n,
{
    n == 1 || (n > 1 && n % 2 == 0 && is_power_of_two(n / 2))
}

/// The least power of two that is not below `n`, and at least one.
#[must_use]
pub fn ceil_power_of_two(n: usize) -> (result: usize)
    requires
        n <= usize::MAX / 2 + 1,
    ensures
        is_power_of_two(result as int),
        n <= result,
        result == 1 || result < 2 * n,
{
    let mut power: usize = 1;
    while power < n
        invariant
            n <= usize::MAX / 2 + 1,
            1 <= power,
            is_power_of_two(power as int),
            power == 1 || power < 2 * n,
        decreases 2 * n - power,
    {
        assert(is_power_of_two(2 * power));
        power = power * 2;
    }
    power
}

/// The node above `index`.
pub open spec fn parent(index: int) -> int {
    (index - 1) / 2
}

/// The winner below a node of the tree with the given leaves.
pub open spec fn best<Key: TournamentKey>(
    leaves: Seq<Node<Key>>,
    direction: Direction,
    index: int,
) -> Node<Key>
    decreases 2 * leaves.len() - index,
{
    if index < 0 || index >= leaves.len() - 1 {
        leaves[index - (leaves.len() - 1)]
    } else {
        better(
            best(leaves, direction, 2 * index + 1),
            best(leaves, direction, 2 * index + 2),
            direction,
        )
    }
}

/// The loser of the match at an inner node.
pub open spec fn match_loser<Key: TournamentKey>(
    leaves: Seq<Node<Key>>,
    direction: Direction,
    index: int,
) -> Node<Key> {
    worse(
        best(leaves, direction, 2 * index + 1),
        best(leaves, direction, 2 * index + 2),
        direction,
    )
}

/// Every leaf is a sentinel or the head of the stream of its index.
pub open spec fn leaves_ok<Key: TournamentKey>(leaves: Seq<Node<Key>>) -> bool {
    forall|i: int| 0 <= i < leaves.len() ==> (#[trigger] leaves[i]).fits_slot(i)
}

/// How many leaves are heads of streams.
pub open spec fn real_count<Key: TournamentKey>(leaves: Seq<Node<Key>>) -> nat
    decreases leaves.len(),
{
    if leaves.len() == 0 {
        0
    } else {
        real_count(leaves.drop_last()) + if leaves.last().is_real() {
            1nat
        } else {
            0
        }
    }
}

/// Whether `upper` lies on the way from `index` to the root, above `index`.
spec fn above(upper: int, index: int) -> bool
    decreases index,
{
    index > 0 && (parent(index) == upper || above(upper, parent(index)))
}

proof fn lemma_above_is_less(upper: int, index: int)
    requires
        above(upper, index),
    ensures
        0 <= upper < index,
    decreases index,
{
    if parent(index) != upper {
        lemma_above_is_less(upper, parent(index));
    }
}

proof fn lemma_above_parent(upper: int, index: int)
    requires
        above(upper, index),
        upper > 0,
    ensures
        above(parent(upper), index),
    decreases index,
{
    if parent(index) != upper {
        lemma_above_parent(upper, parent(index));
    } else {
        reveal_with_fuel(above, 3);
    }
}

/// Of two nodes above a third, one is above the other.
proof fn lemma_above_is_a_chain(a: int, b: int, index: int)
    requires
        above(a, index),
        above(b, index),
    ensures
        a == b || above(a, b) || above(b, a),
    decreases index,
{
    let p = parent(index);
    if a != p && b != p {
        lemma_above_is_a_chain(a, b, p);
    }
}

/// The sibling of a node on the way to the root is not on the way.
proof fn lemma_sibling_not_above(node: int, sibling: int, leaf: int)
    requires
        node > 0,
        sibling > 0,
        node != sibling,
        parent(node) == parent(sibling),
        node == leaf || above(node, leaf),
    ensures
        sibling != leaf,
        !above(sibling, leaf),
{
    let p = parent(node);
    if sibling == leaf || above(sibling, leaf) {
        if sibling == leaf {
            // `node` is above its sibling, and so above or at their parent.
            if p != node {
                lemma_above_is_less(node, p);
            }
        } else if node == leaf {
            if p != sibling {
                lemma_above_is_less(sibling, p);
            }
        } else {
            lemma_above_is_a_chain(node, sibling, leaf);
            if above(node, sibling) {
                if p != node {
                    lemma_above_is_less(node, p);
                }
            } else {
                if p != sibling {
                    lemma_above_is_less(sibling, p);
                }
            }
        }
    }
}

/// Winners are leaves.
proof fn lemma_best_is_a_leaf<Key: TournamentKey>(
    leaves: Seq<Node<Key>>,
    direction: Direction,
    index: int,
) -> (slot: int)
    requires
        0 <= index < 2 * leaves.len() - 1,
    ensures
        0 <= slot < leaves.len(),
        best(leaves, direction, index) == leaves[slot],
    decreases 2 * leaves.len() - index,
{
    if index >= leaves.len() - 1 {
        index - (leaves.len() - 1)
    } else {
        let left = lemma_best_is_a_leaf(leaves, direction, 2 * index + 1);
        let right = lemma_best_is_a_leaf(leaves, direction, 2 * index + 2);
        if best(leaves, direction, 2 * index + 1).score(direction) <= best(
            leaves,
            direction,
            2 * index + 2,
        ).score(direction) {
            left
        } else {
            right
        }
    }
}

/// A winner beats what lies below it.
proof fn lemma_best_beats<Key: TournamentKey>(
    leaves: Seq<Node<Key>>,
    direction: Direction,
    upper: int,
    index: int,
)
    requires
        0 <= upper,
        index < 2 * leaves.len() - 1,
        upper == index || above(upper, index),
    ensures
        best(leaves, direction, upper).score(direction) <= best(leaves, direction, index).score(
            direction,
        ),
    decreases index,
{
    if upper != index {
        let p = parent(index);
        if p != upper {
            lemma_above_is_less(upper, p);
        }
        assert(index == 2 * p + 1 || index == 2 * p + 2);
        lemma_best_beats(leaves, direction, upper, p);
    }
}

proof fn lemma_root_above_all(index: int)
    requires
        index > 0,
    ensures
        above(0, index),
    decreases index,
{
    if parent(index) > 0 {
        lemma_root_above_all(parent(index));
    }
}

/// The winner of all matches beats every leaf.
proof fn lemma_winner_beats_all<Key: TournamentKey>(
    leaves: Seq<Node<Key>>,
    direction: Direction,
    slot: int,
)
    requires
        0 <= slot < leaves.len(),
    ensures
        best(leaves, direction, 0).score(direction) <= leaves[slot].score(direction),
{
    let index = leaves.len() - 1 + slot;
    if index > 0 {
        lemma_root_above_all(index);
    }
    lemma_best_beats(leaves, direction, 0, index);
}

/// The winner of all matches has won every match on the way from its leaf to the root.
proof fn lemma_winner_on_the_way<Key: TournamentKey>(
    leaves: Seq<Node<Key>>,
    direction: Direction,
    slot: int,
    upper: int,
)
    requires
        leaves_ok(leaves),
        0 <= slot < leaves.len(),
        best(leaves, direction, 0) == leaves[slot],
        upper == leaves.len() - 1 + slot || above(upper, leaves.len() - 1 + slot),
    ensures
        best(leaves, direction, upper) == leaves[slot],
{
    let leaf = leaves.len() - 1 + slot;
    if upper != leaf {
        lemma_above_is_less(upper, leaf);
    }
    lemma_best_beats(leaves, direction, upper, leaf);
    let at = lemma_best_is_a_leaf(leaves, direction, upper);
    lemma_winner_beats_all(leaves, direction, at);
    lemma_score_injective(leaves[at], at, leaves[slot], slot, direction);
}

/// Off the way from a leaf to the root, a change to the leaf changes nothing.
proof fn lemma_best_unchanged<Key: TournamentKey>(
    leaves: Seq<Node<Key>>,
    direction: Direction,
    slot: int,
    node: Node<Key>,
    index: int,
)
    requires
        0 <= slot < leaves.len(),
        0 <= index < 2 * leaves.len() - 1,
        index != leaves.len() - 1 + slot,
        !above(index, leaves.len() - 1 + slot),
    ensures
        best(leaves.update(slot, node), direction, index) == best(leaves, direction, index),
    decreases 2 * leaves.len() - index,
{
    let leaf = leaves.len() - 1 + slot;
    if index < leaves.len() - 1 {
        let left = 2 * index + 1;
        let right = 2 * index + 2;
        assert(parent(left) == index && parent(right) == index);
        if above(left, leaf) {
            lemma_above_parent(left, leaf);
        }
        if above(right, leaf) {
            lemma_above_parent(right, leaf);
        }
        lemma_best_unchanged(leaves, direction, slot, node, left);
        lemma_best_unchanged(leaves, direction, slot, node, right);
    }
}

proof fn lemma_real_count_update<Key: TournamentKey>(
    leaves: Seq<Node<Key>>,
    slot: int,
    node: Node<Key>,
)
    requires
        0 <= slot < leaves.len(),
    ensures
        real_count(leaves.update(slot, node)) + (if leaves[slot].is_real() {
            1int
        } else {
            0
        }) == real_count(leaves) + (if node.is_real() {
            1int
        } else {
            0
        }),
    decreases leaves.len(),
{
    let after = leaves.update(slot, node);
    if slot == leaves.len() - 1 {
        assert(after.drop_last() =~= leaves.drop_last());
    } else {
        assert(after.drop_last() =~= leaves.drop_last().update(slot, node));
        lemma_real_count_update(leaves.drop_last(), slot, node);
    }
}

/// There are no heads of streams left exactly if all leaves are sentinels.
proof fn lemma_real_count_zero<Key: TournamentKey>(leaves: Seq<Node<Key>>)
    ensures
        real_count(leaves) <= leaves.len(),
        real_count(leaves) == 0 <==> forall|i: int|
            0 <= i < leaves.len() ==> !(#[trigger] leaves[i]).is_real(),
    decreases leaves.len(),
{
    if leaves.len() > 0 {
        let rest = leaves.drop_last();
        lemma_real_count_zero(rest);
        assert forall|i: int| 0 <= i < rest.len() implies rest[i] == leaves[i] by {}
        assert(leaves.last() == leaves[leaves.len() - 1]);
        if real_count(leaves) == 0 {
            assert forall|i: int| 0 <= i < leaves.len() implies !(
            #[trigger] leaves[i]).is_real() by {
                if i < rest.len() {
                    assert(!rest[i].is_real());
                }
            }
        } else if !leaves.last().is_real() {
            let i = choose|i: int| 0 <= i < rest.len() && (#[trigger] rest[i]).is_real();
            assert(leaves[i].is_real());
        }
    }
}

/// `winner` is the best of the contestants.
pub open spec fn is_winner<Key: TournamentKey>(
    contestants: Seq<Node<Key>>,
    winner: Node<Key>,
    direction: Direction,
) -> bool {
    &&& contestants.contains(winner)
    &&& forall|i: int|
        0 <= i < contestants.len() ==> winner.score(direction) <= (
        #[trigger] contestants[i]).score(direction)
}

/// A tournament between the heads of streams.
pub struct TournamentTree<Key: TournamentKey, const NODE_COUNT_MAX: usize> {
    loser_keys: [Key; NODE_COUNT_MAX],
    loser_ids: [u32; NODE_COUNT_MAX],
    win_key: Key,
    win_id: u32,
    contestants_left: u16,
    /// The leaves of the tree, a power of two.
    node_count: usize,
    direction: Direction,
    leaves: Ghost<Seq<Node<Key>>>,
}

impl<Key: TournamentKey, const NODE_COUNT_MAX: usize> TournamentTree<Key, NODE_COUNT_MAX> {
    pub closed spec fn wf(&self) -> bool {
        &&& self.shape()
        &&& Node { key: self.win_key, id: self.win_id } == best(self.leaves@, self.direction, 0)
        &&& forall|i: int|
            0 <= i < self.node_count - 1 ==> #[trigger] self.loser(i) == match_loser(
                self.leaves@,
                self.direction,
                i,
            )
    }

    spec fn shape(&self) -> bool {
        &&& 1 <= self.node_count <= NODE_COUNT_MAX
        &&& self.node_count <= 0x2_0000
        &&& self.leaves@.len() == self.node_count
        &&& leaves_ok(self.leaves@)
        &&& self.contestants_left == real_count(self.leaves@)
    }

    spec fn loser(&self, index: int) -> Node<Key> {
        Node { key: self.loser_keys@[index], id: self.loser_ids@[index] }
    }

    /// The contestants, by the index of their stream.
    pub closed spec fn contestants(&self) -> Seq<Node<Key>> {
        self.leaves@
    }

    pub closed spec fn spec_direction(&self) -> Direction {
        self.direction
    }

    pub closed spec fn spec_winner(&self) -> Node<Key> {
        Node { key: self.win_key, id: self.win_id }
    }

    /// The winner is the best of the contestants, and a sentinel only if all of them are.
    pub proof fn law_winner_is_the_best(&self)
        requires
            self.wf(),
        ensures
            leaves_ok(self.contestants()),
            is_winner(self.contestants(), self.spec_winner(), self.spec_direction()),
            self.spec_winner().is_real() <==> real_count(self.contestants()) > 0,
            self.spec_winner().is_real() ==> self.spec_winner().id < self.contestants().len()
                && self.contestants()[self.spec_winner().id as int] == self.spec_winner(),
            real_count(self.contestants()) == 0 <==> forall|i: int|
                0 <= i < self.contestants().len() ==> !(
                #[trigger] self.contestants()[i]).is_real(),
    {
        let leaves = self.leaves@;
        let winner = self.spec_winner();
        let slot = lemma_best_is_a_leaf(leaves, self.direction, 0);
        assert forall|i: int| 0 <= i < leaves.len() implies winner.score(self.direction) <= (
        #[trigger] leaves[i]).score(self.direction) by {
            lemma_winner_beats_all(leaves, self.direction, i);
        }
        assert(leaves[slot].fits_slot(slot));
        lemma_real_count_zero(leaves);
        if real_count(leaves) > 0 && !winner.is_real() {
            let i = choose|i: int| 0 <= i < leaves.len() && (#[trigger] leaves[i]).is_real();
            assert(leaves[i].fits_slot(i));
            Key::key_bounds(leaves[i].key);
            Key::key_bounds(winner.key);
        }
    }

    /// Plays all the matches between the first `contestant_count` contestants.
    #[verifier::rlimit(40)]
    pub fn init(
        direction: Direction,
        contestants: &[Node<Key>; NODE_COUNT_MAX],
        contestant_count: u16,
    ) -> (result: Self)
        requires
            contestant_count <= NODE_COUNT_MAX,
            is_power_of_two(NODE_COUNT_MAX as int),
            forall|i: int|
                0 <= i < NODE_COUNT_MAX ==> (#[trigger] contestants@[i]).fits_slot(i),
            forall|i: int|
                contestant_count <= i < NODE_COUNT_MAX ==> !(
                #[trigger] contestants@[i]).is_real(),
        ensures
            result.wf(),
            result.spec_direction() == direction,
            contestant_count <= result.contestants().len() <= NODE_COUNT_MAX,
            result.contestants() == contestants@.subrange(
                0,
                result.contestants().len() as int,
            ),
    {
        let node_count: usize = ceil_power_of_two(contestant_count as usize);
        proof {
            lemma_power_of_two_fits(node_count as int, NODE_COUNT_MAX as int);
        }
        let ghost leaves = contestants@.subrange(0, node_count as int);
        let mut heads: Vec<Node<Key>> = Vec::new();
        let mut contestants_left: u16 = 0;
        let mut i: usize = 0;
        while i < node_count
            invariant
                i <= node_count <= NODE_COUNT_MAX,
                node_count == 1 || node_count < 2 * contestant_count,
                heads@ == contestants@.subrange(0, i as int),
                contestants_left == real_count(contestants@.subrange(0, i as int)),
                contestants_left <= contestant_count,
                contestants_left <= i,
                forall|k: int|
                    contestant_count <= k < NODE_COUNT_MAX ==> !(
                    #[trigger] contestants@[k]).is_real(),
            decreases node_count - i,
        {
            let contestant = contestants[i];
            proof {
                assert(contestants@.subrange(0, i + 1).drop_last() =~= contestants@.subrange(
                    0,
                    i as int,
                ));
            }
            if contestant.id != u32::MAX {
                assert(contestants@[i as int].is_real());
                contestants_left = contestants_left + 1;
            }
            heads.push(contestant);
            i = i + 1;
            assert(heads@ =~= contestants@.subrange(0, i as int));
        }
        let mut tree = TournamentTree {
            loser_keys: vstd::array::array_fill_for_copy_types(Key::sentinel_key()),
            loser_ids: vstd::array::array_fill_for_copy_types(u32::MAX),
            win_key: Key::sentinel_key(),
            win_id: u32::MAX,
            contestants_left,
            node_count,
            direction,
            leaves: Ghost(leaves),
        };
        proof {
            assert forall|c: int| 0 <= c < node_count implies #[trigger] heads@[c] == best(
                leaves,
                direction,
                node_count - 1 + c,
            ) by {}
            assert forall|k: int| 0 <= k < leaves.len() implies (#[trigger] leaves[k]).fits_slot(
                k,
            ) by {
                assert(contestants@[k].fits_slot(k));
            }
        }
        // The winners of a level play the level above.
        let mut level: usize = node_count;
        while level > 1
            invariant
                1 <= level <= node_count,
                is_power_of_two(level as int),
                tree.shape(),
                tree.node_count == node_count,
                tree.leaves@ == leaves,
                tree.direction == direction,
                leaves.len() == node_count,
                heads@.len() == node_count,
                forall|c: int|
                    0 <= c < level ==> #[trigger] heads@[c] == best(
                        leaves,
                        direction,
                        level - 1 + c,
                    ),
                forall|k: int|
                    level - 1 <= k < node_count - 1 ==> #[trigger] tree.loser(k) == match_loser(
                        leaves,
                        direction,
                        k,
                    ),
            decreases level,
        {
            let half: usize = level / 2;
            let mut c: usize = 0;
            while c < half
                invariant
                    2 * half == level,
                    1 <= half,
                    c <= half,
                    level <= node_count,
                    tree.shape(),
                    tree.node_count == node_count,
                    tree.leaves@ == leaves,
                    tree.direction == direction,
                    leaves.len() == node_count,
                    heads@.len() == node_count,
                    forall|k: int|
                        0 <= k < c ==> #[trigger] heads@[k] == best(
                            leaves,
                            direction,
                            half - 1 + k,
                        ),
                    forall|k: int|
                        c <= k < level ==> #[trigger] heads@[k] == best(
                            leaves,
                            direction,
                            level - 1 + k,
                        ),
                    forall|k: int|
                        half - 1 <= k < half - 1 + c || level - 1 <= k < node_count - 1
                            ==> #[trigger] tree.loser(k) == match_loser(leaves, direction, k),
                decreases half - c,
            {
                let a = heads[2 * c];
                let b = heads[2 * c + 1];
                let ghost before = tree;
                let index: usize = half - 1 + c;
                proof {
                    let left = 2 * index + 1;
                    let a_slot = lemma_best_is_a_leaf(leaves, direction, left);
                    let b_slot = lemma_best_is_a_leaf(leaves, direction, left + 1);
                    assert(leaves[a_slot].fits_slot(a_slot));
                    assert(leaves[b_slot].fits_slot(b_slot));
                    if a.score(direction) == b.score(direction) {
                        lemma_score_injective(a, a_slot, b, b_slot, direction);
                    }
                }
                let a_wins = beats(a.key, a.id, b.key, b.id, direction);
                heads.set(
                    c,
                    Node { key: select(a_wins, a.key, b.key), id: select(a_wins, a.id, b.id) },
                );
                tree.loser_keys[index] = select(a_wins, b.key, a.key);
                tree.loser_ids[index] = select(a_wins, b.id, a.id);
                proof {
                    assert forall|k: int|
                        half - 1 <= k < half + c || level - 1 <= k < node_count
                            - 1 implies #[trigger] tree.loser(k) == match_loser(
                        leaves,
                        direction,
                        k,
                    ) by {
                        if k != index {
                            assert(tree.loser(k) == before.loser(k));
                        }
                    }
                }
                c = c + 1;
            }
            level = half;
        }
        let ghost played = tree;
        tree.win_key = heads[0].key;
        tree.win_id = heads[0].id;
        proof {
            assert forall|k: int| 0 <= k < node_count - 1 implies #[trigger] tree.loser(k)
                == match_loser(leaves, direction, k) by {
                assert(tree.loser(k) == played.loser(k));
            }
        }
        tree
    }

    /// Replaces the winner by `entrant`, or by a sentinel if its stream has run dry, and plays the
    /// matches on the way from its leaf to the root again.
    #[verifier::rlimit(40)]
    pub fn pop_winner(&mut self, entrant: Option<Key>)
        requires
            old(self).wf(),
            old(self).spec_winner().is_real(),
        ensures
            final(self).wf(),
            final(self).spec_direction() == old(self).spec_direction(),
            final(self).contestants() == old(self).contestants().update(
                old(self).spec_winner().id as int,
                match entrant {
                    Some(key) => Node { key, id: old(self).spec_winner().id },
                    None => Node::spec_sentinel(),
                },
            ),
    {
        proof {
            self.law_winner_is_the_best();
        }
        let ghost before = *self;
        let ghost leaves = self.leaves@;
        let ghost direction = self.direction;
        let winner_id: u32 = self.win_id;
        let ghost slot = winner_id as int;
        let ghost leaf = leaves.len() - 1 + slot;
        if entrant.is_none() {
            self.contestants_left = self.contestants_left - 1;
        }
        let mut new_key: Key = match entrant {
            Some(key) => key,
            None => Key::sentinel_key(),
        };
        let mut new_id: u32 = match entrant {
            Some(key) => winner_id,
            None => u32::MAX,
        };
        let ghost node = Node { key: new_key, id: new_id };
        let ghost changed = leaves.update(slot, node);
        proof {
            lemma_real_count_update(leaves, slot, node);
            self.leaves@ = changed;
            assert(leaves_ok(changed));
            assert forall|i: int| 0 <= i < leaves.len() - 1 && !above(i, leaf) implies #[trigger]
            self.loser(i) == match_loser(changed, direction, i) by {
                assert(self.loser(i) == before.loser(i));
                let left = 2 * i + 1;
                assert(parent(left) == i && parent(left + 1) == i);
                if above(left, leaf) {
                    lemma_above_parent(left, leaf);
                }
                if above(left + 1, leaf) {
                    lemma_above_parent(left + 1, leaf);
                }
                lemma_best_unchanged(leaves, direction, slot, node, left);
                lemma_best_unchanged(leaves, direction, slot, node, left + 1);
            }
        }
        let mut index: usize = self.node_count - 1 + winner_id as usize;
        while index > 0
            invariant
                self.shape(),
                self.leaves@ == changed,
                self.direction == direction,
                self.node_count == leaves.len(),
                before.wf(),
                before.leaves@ == leaves,
                before.direction == direction,
                before.node_count == leaves.len(),
                leaves_ok(leaves),
                0 <= slot < leaves.len(),
                leaf == leaves.len() - 1 + slot,
                changed == leaves.update(slot, node),
                leaves_ok(changed),
                best(leaves, direction, 0) == leaves[slot],
                index == leaf || above(index as int, leaf),
                0 <= index < 2 * leaves.len() - 1,
                (Node { key: new_key, id: new_id }) == best(changed, direction, index as int),
                forall|i: int|
                    0 <= i < leaves.len() - 1 && !above(i, index as int)
                        ==> #[trigger] self.loser(i) == match_loser(changed, direction, i),
                forall|i: int|
                    0 <= i < leaves.len() - 1 && above(i, index as int)
                        ==> #[trigger] self.loser(i) == before.loser(i),
            decreases index,
        {
            let ghost child = index as int;
            let ghost prior = *self;
            index = (index - 1) / 2;
            let opp_key = self.loser_keys[index];
            let opp_id: u32 = self.loser_ids[index];
            let ghost up = index as int;
            let ghost sibling = if child == 2 * up + 1 {
                child + 1
            } else {
                child - 1
            };
            proof {
                assert(parent(child) == up);
                assert(child == 2 * up + 1 || child == 2 * up + 2);
                assert(parent(sibling) == up);
                assert(above(up, child));
                if child != leaf {
                    lemma_above_parent(child, leaf);
                } else {
                    assert(above(up, leaf));
                }
                lemma_winner_on_the_way(leaves, direction, slot, child);
                lemma_sibling_not_above(child, sibling, leaf);
                lemma_best_unchanged(leaves, direction, slot, node, sibling);
                let old_sibling = best(leaves, direction, sibling);
                let at = lemma_best_is_a_leaf(leaves, direction, sibling);
                lemma_winner_beats_all(leaves, direction, at);
                if leaves[slot].score(direction) == old_sibling.score(direction) {
                    lemma_score_injective(leaves[slot], slot, leaves[at], at, direction);
                }
                assert(prior.loser(up) == before.loser(up));
                assert(before.loser(up) == match_loser(leaves, direction, up));
                let opponent = Node { key: opp_key, id: opp_id };
                assert(opponent == old_sibling);
                let new = Node { key: new_key, id: new_id };
                let new_slot = lemma_best_is_a_leaf(changed, direction, child);
                assert(changed[new_slot].fits_slot(new_slot));
                assert(leaves[at].fits_slot(at));
                let opp_slot = lemma_best_is_a_leaf(changed, direction, sibling);
                assert(changed[opp_slot].fits_slot(opp_slot));
                if new.score(direction) == opponent.score(direction) {
                    lemma_score_injective(new, new_slot, opponent, opp_slot, direction);
                }
            }
            let new_wins = beats(new_key, new_id, opp_key, opp_id, self.direction);
            self.loser_keys[index] = select(new_wins, opp_key, new_key);
            self.loser_ids[index] = select(new_wins, opp_id, new_id);
            new_key = select(new_wins, new_key, opp_key);
            new_id = select(new_wins, new_id, opp_id);
            proof {
                assert forall|i: int| 0 <= i < leaves.len() - 1 && !above(i, up) implies #[trigger]
                self.loser(i) == match_loser(changed, direction, i) by {
                    if i != up {
                        assert(self.loser(i) == prior.loser(i));
                        assert(!above(i, child));
                    }
                }
                assert forall|i: int| 0 <= i < leaves.len() - 1 && above(i, up) implies #[trigger]
                self.loser(i) == before.loser(i) by {
                    lemma_above_is_less(i, up);
                    assert(self.loser(i) == prior.loser(i));
                    assert(above(i, child));
                }
            }
        }
        let ghost played = *self;
        self.win_key = new_key;
        self.win_id = new_id;
        proof {
            assert forall|i: int| 0 <= i < self.node_count - 1 implies #[trigger] self.loser(i)
                == match_loser(self.leaves@, self.direction, i) by {
                assert(self.loser(i) == played.loser(i));
                assert(!above(i, 0));
            }
        }
    }

    /// How many streams have not run dry.
    #[must_use]
    pub fn contestants_left(&self) -> (result: u16)
        requires
            self.wf(),
        ensures
            result == real_count(self.contestants()),
    {
        self.contestants_left
    }

    /// The best contestant, or a sentinel if all streams have run dry.
    #[must_use]
    pub fn winner(&self) -> (result: Node<Key>)
        requires
            self.wf(),
        ensures
            result == self.spec_winner(),
    {
        Node { key: self.win_key, id: self.win_id }
    }
}

/// Of two powers of two, the one below twice another is not above it.
proof fn lemma_power_of_two_fits(a: int, b: int)
    requires
        is_power_of_two(a),
        is_power_of_two(b),
        a < 2 * b,
    ensures
        a <= b,
    decreases a,
{
    if a > 1 && b > 1 {
        lemma_power_of_two_fits(a / 2, b / 2);
    }
}

/// The stream `next` comes next: it has a head, and no head of another stream goes before it. Of
/// equal heads, the one of the lower stream goes first.
pub open spec fn is_next<V>(
    streams: Seq<Seq<V>>,
    rank: spec_fn(V) -> int,
    direction: Direction,
    next: int,
) -> bool {
    &&& 0 <= next < streams.len()
    &&& streams[next].len() > 0
    &&& forall|i: int|
        0 <= i < streams.len() && (#[trigger] streams[i]).len() > 0 ==> goes_before(
            rank(streams[next][0]),
            next,
            rank(streams[i][0]),
            i,
            direction,
        )
}

/// A value of stream `i` goes before one of stream `j`, or is it.
pub open spec fn goes_before(a: int, i: int, b: int, j: int, direction: Direction) -> bool {
    direction.precedes(a, b) || (a == b && i <= j)
}

/// How many values the streams hold.
pub open spec fn total<V>(streams: Seq<Seq<V>>) -> nat
    decreases streams.len(),
{
    if streams.len() == 0 {
        0
    } else {
        total(streams.drop_last()) + streams.last().len()
    }
}

pub proof fn lemma_total_update<V>(streams: Seq<Seq<V>>, i: int, stream: Seq<V>)
    requires
        0 <= i < streams.len(),
    ensures
        total(streams.update(i, stream)) == total(streams) + stream.len() - streams[i].len(),
    decreases streams.len(),
{
    let changed = streams.update(i, stream);
    if i == streams.len() - 1 {
        assert(changed.drop_last() =~= streams.drop_last());
    } else {
        assert(changed.drop_last() =~= streams.drop_last().update(i, stream));
        lemma_total_update(streams.drop_last(), i, stream);
    }
}

/// The streams without the head of one.
pub open spec fn without_head<V>(streams: Seq<Seq<V>>, i: int) -> Seq<Seq<V>> {
    streams.update(i, streams[i].drop_first())
}

/// The values of the streams in the order of the merge. When deduplicating, values that rank as
/// the one before them, at first as `last`, are left out.
pub open spec fn merged<V>(
    streams: Seq<Seq<V>>,
    rank: spec_fn(V) -> int,
    direction: Direction,
    deduplicate: bool,
    last: Option<int>,
) -> Seq<V>
    decreases total(streams),
{
    let next = choose|next: int| is_next(streams, rank, direction, next);
    if !is_next(streams, rank, direction, next) {
        Seq::empty()
    } else {
        let value = streams[next][0];
        let rest = without_head(streams, next);
        proof {
            lemma_total_update(streams, next, streams[next].drop_first());
        }
        if deduplicate && last == Some(rank(value)) {
            merged(rest, rank, direction, deduplicate, last)
        } else {
            seq![value] + merged(rest, rank, direction, deduplicate, Some(rank(value)))
        }
    }
}

/// The streams without the values at the front of the merge that deduplicating leaves out.
pub open spec fn without_repeats<V>(
    streams: Seq<Seq<V>>,
    rank: spec_fn(V) -> int,
    direction: Direction,
    deduplicate: bool,
    last: Option<int>,
) -> Seq<Seq<V>>
    decreases total(streams),
{
    let next = choose|next: int| is_next(streams, rank, direction, next);
    if deduplicate && is_next(streams, rank, direction, next) && last == Some(
        rank(streams[next][0]),
    ) {
        proof {
            lemma_total_update(streams, next, streams[next].drop_first());
        }
        without_repeats(without_head(streams, next), rank, direction, deduplicate, last)
    } else {
        streams
    }
}

/// Only one stream comes next.
proof fn lemma_next_is_unique<V>(
    streams: Seq<Seq<V>>,
    rank: spec_fn(V) -> int,
    direction: Direction,
    a: int,
    b: int,
)
    requires
        is_next(streams, rank, direction, a),
        is_next(streams, rank, direction, b),
    ensures
        a == b,
{
}

/// Some stream comes next, unless all have run dry.
pub proof fn lemma_next_exists<V>(
    streams: Seq<Seq<V>>,
    rank: spec_fn(V) -> int,
    direction: Direction,
    i: int,
) -> (next: int)
    requires
        0 <= i < streams.len(),
        streams[i].len() > 0,
    ensures
        is_next(streams, rank, direction, next),
    decreases streams.len(),
{
    let front = streams.drop_last();
    let last = streams.len() - 1;
    if exists|j: int| 0 <= j < last && (#[trigger] streams[j]).len() > 0 {
        let j = choose|j: int| 0 <= j < last && (#[trigger] streams[j]).len() > 0;
        let best = lemma_next_exists(front, rank, direction, j);
        assert forall|k: int| 0 <= k < last && (#[trigger] streams[k]).len() > 0 implies goes_before(
            rank(streams[best][0]),
            best,
            rank(streams[k][0]),
            k,
            direction,
        ) by {
            assert(front[k] == streams[k]);
        }
        if streams[last].len() > 0 && direction.precedes(
            rank(streams[last][0]),
            rank(streams[best][0]),
        ) {
            last
        } else {
            best
        }
    } else {
        last
    }
}

/// Unfolds the merge by one value.
pub proof fn lemma_merged_step<V>(
    streams: Seq<Seq<V>>,
    rank: spec_fn(V) -> int,
    direction: Direction,
    deduplicate: bool,
    last: Option<int>,
    next: int,
)
    requires
        is_next(streams, rank, direction, next),
    ensures
        total(without_head(streams, next)) == total(streams) - 1,
        merged(streams, rank, direction, deduplicate, last) == if deduplicate && last == Some(
            rank(streams[next][0]),
        ) {
            merged(without_head(streams, next), rank, direction, deduplicate, last)
        } else {
            seq![streams[next][0]] + merged(
                without_head(streams, next),
                rank,
                direction,
                deduplicate,
                Some(rank(streams[next][0])),
            )
        },
        without_repeats(streams, rank, direction, deduplicate, last) == if deduplicate && last
            == Some(rank(streams[next][0])) {
            without_repeats(without_head(streams, next), rank, direction, deduplicate, last)
        } else {
            streams
        },
{
    let chosen = choose|n: int| is_next(streams, rank, direction, n);
    lemma_next_is_unique(streams, rank, direction, chosen, next);
    lemma_total_update(streams, next, streams[next].drop_first());
}

/// Streams that have run dry merge to nothing.
pub proof fn lemma_merged_end<V>(
    streams: Seq<Seq<V>>,
    rank: spec_fn(V) -> int,
    direction: Direction,
    deduplicate: bool,
    last: Option<int>,
)
    requires
        forall|i: int| 0 <= i < streams.len() ==> (#[trigger] streams[i]).len() == 0,
    ensures
        merged(streams, rank, direction, deduplicate, last) == Seq::<V>::empty(),
        without_repeats(streams, rank, direction, deduplicate, last) == streams,
{
}

/// The values of a stream follow the direction.
pub open spec fn follows<V>(
    stream: Seq<V>,
    rank: spec_fn(V) -> int,
    direction: Direction,
) -> bool {
    forall|i: int, j: int|
        0 <= i < j < stream.len() ==> !direction.precedes(
            rank(#[trigger] stream[j]),
            rank(#[trigger] stream[i]),
        )
}

/// No two values of a stream rank the same, and they follow the direction.
pub open spec fn strictly_follows<V>(
    stream: Seq<V>,
    rank: spec_fn(V) -> int,
    direction: Direction,
) -> bool {
    forall|i: int, j: int|
        0 <= i < j < stream.len() ==> direction.precedes(
            rank(#[trigger] stream[i]),
            rank(#[trigger] stream[j]),
        )
}

/// Every value of the streams that follow the direction is `bound` or after it.
spec fn none_before<V>(
    streams: Seq<Seq<V>>,
    rank: spec_fn(V) -> int,
    direction: Direction,
    bound: int,
) -> bool {
    forall|i: int, p: int|
        0 <= i < streams.len() && 0 <= p < streams[i].len() ==> !direction.precedes(
            rank(#[trigger] streams[i][p]),
            bound,
        )
}

spec fn all_follow<V>(
    streams: Seq<Seq<V>>,
    rank: spec_fn(V) -> int,
    direction: Direction,
) -> bool {
    forall|i: int|
        0 <= i < streams.len() ==> follows(#[trigger] streams[i], rank, direction)
}

proof fn lemma_rest<V>(
    streams: Seq<Seq<V>>,
    rank: spec_fn(V) -> int,
    direction: Direction,
    next: int,
)
    requires
        all_follow(streams, rank, direction),
        is_next(streams, rank, direction, next),
    ensures
        all_follow(without_head(streams, next), rank, direction),
        none_before(streams, rank, direction, rank(streams[next][0])),
        none_before(without_head(streams, next), rank, direction, rank(streams[next][0])),
{
    let rest = without_head(streams, next);
    let bound = rank(streams[next][0]);
    assert forall|i: int| 0 <= i < rest.len() implies follows(
        #[trigger] rest[i],
        rank,
        direction,
    ) by {
        assert(follows(streams[i], rank, direction));
        if i == next {
            assert forall|a: int, b: int| 0 <= a < b < rest[i].len() implies !direction.precedes(
                rank(#[trigger] rest[i][b]),
                rank(#[trigger] rest[i][a]),
            ) by {
                assert(rest[i][a] == streams[i][a + 1]);
                assert(rest[i][b] == streams[i][b + 1]);
            }
        }
    }
    assert forall|i: int, p: int|
        0 <= i < streams.len() && 0 <= p < streams[i].len() implies !direction.precedes(
        rank(#[trigger] streams[i][p]),
        bound,
    ) by {
        assert(follows(streams[i], rank, direction));
        assert(streams[i].len() > 0);
        let head = streams[i][0];
        if p > 0 {
            assert(!direction.precedes(rank(streams[i][p]), rank(head)));
        }
    }
    assert forall|i: int, p: int|
        0 <= i < rest.len() && 0 <= p < rest[i].len() implies !direction.precedes(
        rank(#[trigger] rest[i][p]),
        bound,
    ) by {
        if i == next {
            assert(rest[i][p] == streams[i][p + 1]);
        } else {
            assert(rest[i][p] == streams[i][p]);
        }
    }
}

/// A merge of streams that follow the direction follows it too. A deduplicating one holds no two
/// values that rank the same.
pub proof fn law_merge_follows_direction<V>(
    streams: Seq<Seq<V>>,
    rank: spec_fn(V) -> int,
    direction: Direction,
    deduplicate: bool,
)
    requires
        forall|i: int|
            0 <= i < streams.len() ==> follows(#[trigger] streams[i], rank, direction),
    ensures
        follows(merged(streams, rank, direction, deduplicate, None), rank, direction),
        deduplicate ==> strictly_follows(
            merged(streams, rank, direction, deduplicate, None),
            rank,
            direction,
        ),
{
    lemma_merge_follows(streams, rank, direction, deduplicate, None);
}

proof fn lemma_merge_follows<V>(
    streams: Seq<Seq<V>>,
    rank: spec_fn(V) -> int,
    direction: Direction,
    deduplicate: bool,
    last: Option<int>,
)
    requires
        all_follow(streams, rank, direction),
        last matches Some(bound) ==> none_before(streams, rank, direction, bound),
    ensures
        ({
            let output = merged(streams, rank, direction, deduplicate, last);
            &&& follows(output, rank, direction)
            &&& deduplicate ==> strictly_follows(output, rank, direction)
            &&& last matches Some(bound) ==> forall|p: int|
                0 <= p < output.len() ==> !direction.precedes(rank(#[trigger] output[p]), bound)
                    && (deduplicate ==> rank(output[p]) != bound)
        }),
    decreases total(streams),
{
    if exists|i: int| 0 <= i < streams.len() && (#[trigger] streams[i]).len() > 0 {
        let i = choose|i: int| 0 <= i < streams.len() && (#[trigger] streams[i]).len() > 0;
        let next = lemma_next_exists(streams, rank, direction, i);
        let value = streams[next][0];
        let rest = without_head(streams, next);
        lemma_merged_step(streams, rank, direction, deduplicate, last, next);
        lemma_rest(streams, rank, direction, next);
        let output = merged(streams, rank, direction, deduplicate, last);
        if deduplicate && last == Some(rank(value)) {
            lemma_merge_follows(rest, rank, direction, deduplicate, last);
        } else {
            lemma_merge_follows(rest, rank, direction, deduplicate, Some(rank(value)));
            let tail = merged(rest, rank, direction, deduplicate, Some(rank(value)));
            assert(output[0] == value);
            assert forall|p: int| 1 <= p < output.len() implies #[trigger] output[p] == tail[p
                - 1] by {}
            if let Some(bound) = last {
                assert(streams[next][0] == value);
                assert(!direction.precedes(rank(value), bound));
            }
        }
    } else {
        lemma_merged_end(streams, rank, direction, deduplicate, last);
    }
}

/// A merge that does not deduplicate gives every value as often as the streams hold it: what it
/// gives is all of the streams, rearranged.
pub proof fn law_merge_keeps_all_values<V>(
    streams: Seq<Seq<V>>,
    rank: spec_fn(V) -> int,
    direction: Direction,
    last: Option<int>,
)
    ensures
        merged(streams, rank, direction, false, last).to_multiset() == streams.flatten().to_multiset(),
    decreases total(streams),
{
    broadcast use vstd::seq_lib::group_to_multiset_ensures;

    if exists|i: int| 0 <= i < streams.len() && (#[trigger] streams[i]).len() > 0 {
        let i = choose|i: int| 0 <= i < streams.len() && (#[trigger] streams[i]).len() > 0;
        let next = lemma_next_exists(streams, rank, direction, i);
        let value = streams[next][0];
        let rest = without_head(streams, next);
        lemma_merged_step(streams, rank, direction, false, last, next);
        law_merge_keeps_all_values(rest, rank, direction, Some(rank(value)));
        let tail = merged(rest, rank, direction, false, Some(rank(value)));
        vstd::seq_lib::lemma_multiset_commutative(seq![value], tail);
        lemma_flatten_without_head(streams, next);
        assert(seq![value] =~= Seq::empty().push(value));
        assert(merged(streams, rank, direction, false, last).to_multiset()
            =~= streams.flatten().to_multiset());
    } else {
        lemma_merged_end(streams, rank, direction, false, last);
        lemma_flatten_empty(streams);
    }
}

proof fn lemma_flatten_empty<V>(streams: Seq<Seq<V>>)
    requires
        forall|i: int| 0 <= i < streams.len() ==> (#[trigger] streams[i]).len() == 0,
    ensures
        streams.flatten() == Seq::<V>::empty(),
    decreases streams.len(),
{
    if streams.len() > 0 {
        assert forall|i: int| 0 <= i < streams.drop_first().len() implies (
        #[trigger] streams.drop_first()[i]).len() == 0 by {
            assert(streams.drop_first()[i] == streams[i + 1]);
        }
        lemma_flatten_empty(streams.drop_first());
    }
}

proof fn lemma_flatten_without_head<V>(streams: Seq<Seq<V>>, i: int)
    requires
        0 <= i < streams.len(),
        streams[i].len() > 0,
    ensures
        streams.flatten().to_multiset() == without_head(
            streams,
            i,
        ).flatten().to_multiset().insert(streams[i][0]),
    decreases streams.len(),
{
    broadcast use vstd::seq_lib::group_to_multiset_ensures;

    let rest = without_head(streams, i);
    if i == 0 {
        assert(rest.drop_first() =~= streams.drop_first());
        vstd::seq_lib::lemma_multiset_commutative(
            streams.first(),
            streams.drop_first().flatten(),
        );
        vstd::seq_lib::lemma_multiset_commutative(rest.first(), rest.drop_first().flatten());
        assert(streams.first() =~= seq![streams[0][0]] + rest.first());
        vstd::seq_lib::lemma_multiset_commutative(seq![streams[0][0]], rest.first());
        assert(seq![streams[0][0]] =~= Seq::empty().push(streams[0][0]));
    } else {
        assert(rest.drop_first() =~= without_head(streams.drop_first(), i - 1));
        lemma_flatten_without_head(streams.drop_first(), i - 1);
        vstd::seq_lib::lemma_multiset_commutative(
            streams.first(),
            streams.drop_first().flatten(),
        );
        vstd::seq_lib::lemma_multiset_commutative(rest.first(), rest.drop_first().flatten());
    }
    assert(streams.flatten().to_multiset() =~= rest.flatten().to_multiset().insert(
        streams[i][0],
    ));
}

/// The value at `p` of stream `i` is the first of its rank: no lower stream holds one like it, nor
/// does its own before it.
pub open spec fn is_first_of_its_rank<V>(
    streams: Seq<Seq<V>>,
    rank: spec_fn(V) -> int,
    i: int,
    p: int,
) -> bool {
    &&& 0 <= i < streams.len()
    &&& 0 <= p < streams[i].len()
    &&& forall|j: int, q: int|
        0 <= j < streams.len() && 0 <= q < streams[j].len() && rank(#[trigger] streams[j][q])
            == rank(streams[i][p]) ==> i < j || (i == j && p <= q)
}

/// Of the values that rank the same, a deduplicating merge gives the first one of the lowest
/// stream.
pub proof fn law_deduplicating_merge_keeps_first_values<V>(
    streams: Seq<Seq<V>>,
    rank: spec_fn(V) -> int,
    direction: Direction,
    i: int,
    p: int,
)
    requires
        forall|j: int|
            0 <= j < streams.len() ==> follows(#[trigger] streams[j], rank, direction),
        is_first_of_its_rank(streams, rank, i, p),
    ensures
        merged(streams, rank, direction, true, None).contains(streams[i][p]),
{
    lemma_first_value_is_kept(streams, rank, direction, None, i, p);
}

proof fn lemma_first_value_is_kept<V>(
    streams: Seq<Seq<V>>,
    rank: spec_fn(V) -> int,
    direction: Direction,
    last: Option<int>,
    i: int,
    p: int,
)
    requires
        all_follow(streams, rank, direction),
        is_first_of_its_rank(streams, rank, i, p),
        last != Some(rank(streams[i][p])),
    ensures
        merged(streams, rank, direction, true, last).contains(streams[i][p]),
    decreases total(streams),
{
    let next = lemma_next_exists(streams, rank, direction, i);
    let value = streams[next][0];
    let rest = without_head(streams, next);
    lemma_merged_step(streams, rank, direction, true, last, next);
    lemma_rest(streams, rank, direction, next);
    let output = merged(streams, rank, direction, true, last);
    if next == i && p == 0 {
        assert(output[0] == streams[i][p]);
    } else {
        // The value that comes next ranks differently.
        if rank(value) == rank(streams[i][p]) {
            assert(streams[next][0] == value);
            assert(next != i);
            assert(streams[i].len() > 0);
            assert(follows(streams[i], rank, direction));
            if p > 0 {
                assert(!direction.precedes(rank(streams[i][p]), rank(streams[i][0])));
            }
            assert(goes_before(rank(value), next, rank(streams[i][0]), i, direction));
            assert(false);
        }
        let q = if next == i {
            p - 1
        } else {
            p
        };
        assert(rest[i][q] == streams[i][p]);
        assert forall|j: int, r: int|
            0 <= j < rest.len() && 0 <= r < rest[j].len() && rank(#[trigger] rest[j][r]) == rank(
                rest[i][q],
            ) implies i < j || (i == j && q <= r) by {
            if j == next {
                assert(rest[j][r] == streams[j][r + 1]);
            } else {
                assert(rest[j][r] == streams[j][r]);
            }
        }
        let last_next = if last == Some(rank(value)) {
            last
        } else {
            Some(rank(value))
        };
        lemma_first_value_is_kept(rest, rank, direction, last_next, i, q);
        let tail = merged(rest, rank, direction, true, last_next);
        let at = choose|at: int| 0 <= at < tail.len() && tail[at] == rest[i][q];
        if last != Some(rank(value)) {
            assert(output[at + 1] == tail[at]);
        }
    }
}

/// Streams of values, each with its own index.
pub trait MergeStream: Sized {
    type Key: TournamentKey;

    type Value;

    /// What the streams still hold.
    open spec fn streams(&self) -> Seq<Seq<Self::Value>> {
        arbitrary()
    }

    /// Whether a stream is not ready to be peeked.
    open spec fn pending(&self, stream_index: int) -> bool {
        arbitrary()
    }

    /// Whether the last peek was of this stream, and found it not ready.
    open spec fn refused(&self, stream_index: int) -> bool {
        arbitrary()
    }

    /// No stream ever has to be waited for.
    open spec fn always_ready(&self) -> bool {
        arbitrary()
    }

    open spec fn spec_value_key(value: Self::Value) -> Self::Key {
        arbitrary()
    }

    /// The key of the head of a stream, or `None` if it has run dry.
    ///
    /// # Errors
    /// `Pending` if the stream is not ready.
    fn stream_peek(&mut self, stream_index: u32) -> (result: Result<Option<Self::Key>, Pending>)
        requires
            stream_index < old(self).streams().len(),
        ensures
            final(self).streams() == old(self).streams(),
            old(self).always_ready() ==> final(self).always_ready() && result is Ok,
            result is Err <==> old(self).pending(stream_index as int),
            result is Err <==> final(self).refused(stream_index as int),
            result matches Ok(key) ==> key == if old(self).streams()[stream_index as int].len()
                == 0 {
                None
            } else {
                Some(Self::spec_value_key(old(self).streams()[stream_index as int][0]))
            },
    ;

    /// Takes the head of a stream.
    fn stream_pop(&mut self, stream_index: u32) -> (result: Self::Value)
        requires
            stream_index < old(self).streams().len(),
            old(self).streams()[stream_index as int].len() > 0,
        ensures
            result == old(self).streams()[stream_index as int][0],
            final(self).streams() == without_head(old(self).streams(), stream_index as int),
            old(self).always_ready() ==> final(self).always_ready(),
    ;

    /// The key of a value.
    #[must_use]
    fn value_key(value: &Self::Value) -> (result: Self::Key)
        ensures
            result == Self::spec_value_key(*value),
    ;
}

/// Where the values of a stream stand in the order.
pub open spec fn value_rank<S: MergeStream>() -> spec_fn(S::Value) -> int {
    |value: S::Value| S::spec_value_key(value).rank()
}

/// The contestant for a stream.
pub open spec fn contestant<V, Key: TournamentKey>(
    streams: Seq<Seq<V>>,
    key: spec_fn(V) -> Key,
    i: int,
) -> Node<Key> {
    if 0 <= i < streams.len() && streams[i].len() > 0 {
        Node { key: key(streams[i][0]), id: i as u32 }
    } else {
        Node::spec_sentinel()
    }
}

/// The best of the heads is the head of the stream that comes next.
pub proof fn lemma_winner_is_next<V, Key: TournamentKey>(
    streams: Seq<Seq<V>>,
    key: spec_fn(V) -> Key,
    rank: spec_fn(V) -> int,
    contestants: Seq<Node<Key>>,
    winner: Node<Key>,
    direction: Direction,
)
    requires
        forall|value: V| #[trigger] rank(value) == key(value).rank(),
        streams.len() <= contestants.len() <= u32::MAX,
        forall|i: int|
            0 <= i < contestants.len() ==> #[trigger] contestants[i] == contestant(streams, key, i),
        is_winner(contestants, winner, direction),
        winner.is_real(),
    ensures
        is_next(streams, rank, direction, winner.id as int),
        winner == contestant(streams, key, winner.id as int),
{
    let next = winner.id as int;
    let slot = choose|slot: int|
        0 <= slot < contestants.len() && contestants[slot] == winner;
    assert(contestants[slot] == contestant(streams, key, slot));
    assert(slot == next);
    assert forall|i: int|
        0 <= i < streams.len() && (#[trigger] streams[i]).len() > 0 implies goes_before(
        rank(streams[next][0]),
        next,
        rank(streams[i][0]),
        i,
        direction,
    ) by {
        assert(contestants[i] == contestant(streams, key, i));
        assert(winner.score(direction) <= contestants[i].score(direction));
    }
}

/// Where no contestant is left, all streams have run dry.
pub proof fn lemma_all_dry<V, Key: TournamentKey>(
    streams: Seq<Seq<V>>,
    key: spec_fn(V) -> Key,
    contestants: Seq<Node<Key>>,
)
    requires
        streams.len() <= contestants.len() <= u32::MAX,
        forall|i: int|
            0 <= i < contestants.len() ==> #[trigger] contestants[i] == contestant(streams, key, i),
        forall|i: int| 0 <= i < contestants.len() ==> !(#[trigger] contestants[i]).is_real(),
    ensures
        forall|i: int| 0 <= i < streams.len() ==> (#[trigger] streams[i]).len() == 0,
{
    assert forall|i: int| 0 <= i < streams.len() implies (#[trigger] streams[i]).len() == 0 by {
        assert(!contestants[i].is_real());
    }
}

/// The keys of the values of a stream.
spec fn keys<S: MergeStream>() -> spec_fn(S::Value) -> S::Key {
    |value: S::Value| S::spec_value_key(value)
}

/// Merges streams.
pub struct KWayMergeIterator<
    S: MergeStream,
    const STREAMS_MAX: usize,
    const NODE_COUNT_MAX: usize,
    const DEDUPLICATE: bool,
> {
    context: S,
    streams_count: u16,
    direction: Direction,
    key_popped: Option<S::Key>,
    tree: Option<TournamentTree<S::Key, NODE_COUNT_MAX>>,
}

impl<
    S: MergeStream,
    const STREAMS_MAX: usize,
    const NODE_COUNT_MAX: usize,
    const DEDUPLICATE: bool,
> KWayMergeIterator<S, STREAMS_MAX, NODE_COUNT_MAX, DEDUPLICATE> {
    pub closed spec fn wf(&self) -> bool {
        &&& self.shape()
        &&& self.tree matches Some(tree) ==> self.matches_tree(tree)
    }

    spec fn shape(&self) -> bool {
        &&& self.streams_count <= STREAMS_MAX <= NODE_COUNT_MAX
        &&& is_power_of_two(NODE_COUNT_MAX as int)
        &&& self.context.streams().len() == self.streams_count
    }

    /// All contestants are the heads of their streams, but for the winner, whose stream may have
    /// moved on since.
    spec fn matches_tree(&self, tree: TournamentTree<S::Key, NODE_COUNT_MAX>) -> bool {
        &&& tree.wf()
        &&& tree.spec_direction() == self.direction
        &&& self.streams_count <= tree.contestants().len() <= u32::MAX
        &&& forall|i: int|
            0 <= i < tree.contestants().len() && i != tree.spec_winner().id
                ==> #[trigger] tree.contestants()[i] == contestant(self.context.streams(), keys::<S>(), i)
        &&& tree.spec_winner().is_real() ==> tree.spec_winner().id < self.streams_count
    }

    pub closed spec fn spec_context(&self) -> S {
        self.context
    }

    pub closed spec fn spec_direction(&self) -> Direction {
        self.direction
    }

    /// The rank of the value that was given last, when deduplicating.
    pub closed spec fn last(&self) -> Option<int> {
        match self.key_popped {
            Some(key) => Some(key.rank()),
            None => None,
        }
    }

    /// Whether the heads of the streams are known, but for the one of the stream that is awaited.
    pub closed spec fn is_loaded(&self) -> bool {
        self.tree is Some
    }

    /// The stream whose head has to be known before the merge can go on: the one that the last
    /// value came from. There is none when all streams have run dry.
    pub closed spec fn awaited(&self) -> Option<int> {
        match self.tree {
            Some(tree) => if tree.spec_winner().is_real() {
                Some(tree.spec_winner().id as int)
            } else {
                None
            },
            None => None,
        }
    }

    /// The values that are still to come.
    pub open spec fn remaining(&self) -> Seq<S::Value> {
        merged(
            self.spec_context().streams(),
            value_rank::<S>(),
            self.spec_direction(),
            DEDUPLICATE,
            self.last(),
        )
    }

    /// What the streams hold from the next value on.
    pub open spec fn ahead(&self) -> Seq<Seq<S::Value>> {
        without_repeats(
            self.spec_context().streams(),
            value_rank::<S>(),
            self.spec_direction(),
            DEDUPLICATE,
            self.last(),
        )
    }

    /// No stream ever has to be waited for.
    pub open spec fn always_ready(&self) -> bool {
        self.spec_context().always_ready()
    }

    /// Starts to merge the first `streams_count` streams of `context`.
    pub fn init(context: S, streams_count: u16, direction: Direction) -> (result: Self)
        requires
            1 <= STREAMS_MAX <= 1024,
            is_power_of_two(NODE_COUNT_MAX as int),
            STREAMS_MAX <= NODE_COUNT_MAX,
            streams_count <= STREAMS_MAX,
            context.streams().len() == streams_count,
        ensures
            result.wf(),
            result.spec_context() == context,
            result.spec_direction() == direction,
            result.last() is None,
            !result.is_loaded(),
            result.always_ready() == context.always_ready(),
            result.remaining() == merged(
                context.streams(),
                value_rank::<S>(),
                direction,
                DEDUPLICATE,
                None,
            ),
    {
        KWayMergeIterator { context, key_popped: None, direction, streams_count, tree: None }
    }

    /// Forgets the heads of the streams, but not the key that was popped last.
    pub fn reset(&mut self)
        requires
            old(self).wf(),
        ensures
            final(self).wf(),
            final(self).spec_context() == old(self).spec_context(),
            final(self).spec_direction() == old(self).spec_direction(),
            final(self).last() == old(self).last(),
            !final(self).is_loaded(),
            final(self).remaining() == old(self).remaining(),
            final(self).always_ready() == old(self).always_ready(),
    {
        self.tree = None;
    }

    /// Lets the heads of the streams compete.
    fn load(&mut self) -> (result: Result<TournamentTree<S::Key, NODE_COUNT_MAX>, Pending>)
        requires
            old(self).shape(),
            old(self).tree is None,
        ensures
            final(self).shape(),
            final(self).tree is None,
            final(self).remaining() == old(self).remaining(),
            final(self).context.streams() == old(self).context.streams(),
            final(self).direction == old(self).direction,
            final(self).key_popped == old(self).key_popped,
            result matches Ok(tree) ==> final(self).matches_tree(tree),
            old(self).always_ready() ==> final(self).always_ready() && result is Ok,
            result is Err ==> exists|i: int|
                0 <= i < final(self).context.streams().len() && #[trigger] final(self).context.refused(i),
            old(self).streams_count > 0 && old(self).context.pending(0) ==> result is Err,
    {
        let mut contestants: [Node<S::Key>; NODE_COUNT_MAX] =
            vstd::array::array_fill_for_copy_types(Node::sentinel());
        let ghost streams = self.context.streams();
        let mut id: u16 = 0;
        while id < self.streams_count
            invariant
                id <= self.streams_count,
                self.shape(),
                self.tree is None,
                self.context.streams() == streams,
                self.context.streams() == old(self).context.streams(),
                self.direction == old(self).direction,
                self.key_popped == old(self).key_popped,
                self.streams_count == old(self).streams_count,
                old(self).always_ready() ==> self.always_ready(),
                id == 0 ==> self.context == old(self).context,
                id > 0 ==> !old(self).context.pending(0),
                forall|i: int|
                    0 <= i < id ==> #[trigger] contestants@[i] == contestant(streams, keys::<S>(), i),
                forall|i: int|
                    id <= i < NODE_COUNT_MAX ==> #[trigger] contestants@[i]
                        == Node::<S::Key>::spec_sentinel(),
            decreases self.streams_count - id,
        {
            match self.context.stream_peek(id as u32) {
                Ok(Some(key)) => {
                    contestants[id as usize] = Node { key, id: id as u32 };
                },
                Ok(None) => {},
                Err(pending) => {
                    assert(self.context.refused(id as int));
                    return Err(pending);
                },
            }
            id = id + 1;
        }
        let tree = TournamentTree::init(self.direction, &contestants, self.streams_count);
        proof {
            assert forall|i: int|
                0 <= i < tree.contestants().len() implies #[trigger] tree.contestants()[i]
                == contestant(streams, keys::<S>(), i) by {
                assert(tree.contestants()[i] == contestants@[i]);
            }
            tree.law_winner_is_the_best();
        }
        Ok(tree)
    }

    /// Whether the first stream that has to be peeked is not ready: the one that is awaited, or the
    /// first one before the heads are known.
    pub open spec fn must_wait(&self) -> bool {
        if self.is_loaded() {
            self.awaited() matches Some(i) && self.spec_context().pending(i)
        } else {
            self.spec_context().streams().len() > 0 && self.spec_context().pending(0)
        }
    }

    /// A stream was not ready: the one that is awaited, or any before the heads were known. It is
    /// the one that was awaited before unless repeats were left out on the way.
    pub open spec fn is_refused(&self, before: &Self) -> bool {
        if self.is_loaded() {
            &&& self.awaited() matches Some(i) && {
                &&& 0 <= i < self.spec_context().streams().len()
                &&& self.spec_context().refused(i)
                &&& before.is_loaded() && self.spec_context().streams()
                    == before.spec_context().streams() ==> {
                    &&& before.awaited() == Some(i)
                    &&& before.spec_context().pending(i)
                }
            }
        } else {
            &&& !before.is_loaded()
            &&& self.spec_context().streams() == before.spec_context().streams()
            &&& exists|i: int|
                0 <= i < self.spec_context().streams().len()
                    && #[trigger] self.spec_context().refused(i)
        }
    }

    /// A value was taken from the stream that comes next, which is awaited now.
    pub open spec fn took(&self, before: &Self, value: S::Value) -> bool {
        &&& self.is_loaded()
        &&& self.awaited() matches Some(i) && {
            &&& is_next(before.ahead(), value_rank::<S>(), before.spec_direction(), i)
            &&& value == before.ahead()[i][0]
            &&& self.spec_context().streams() == without_head(before.ahead(), i)
        }
        &&& self.last() == if DEDUPLICATE {
            Some(value_rank::<S>()(value))
        } else {
            before.last()
        }
    }

    /// The next value, or `None` once every stream has run dry.
    ///
    /// # Errors
    /// `Pending` if a stream is not ready. Nothing is lost: the call can be repeated.
    pub fn pop(&mut self) -> (result: Result<Option<S::Value>, Pending>)
        requires
            old(self).wf(),
        ensures
            final(self).wf(),
            match result {
                Ok(Some(value)) => {
                    &&& old(self).remaining().len() > 0
                    &&& value == old(self).remaining()[0]
                    &&& final(self).remaining() == old(self).remaining().drop_first()
                    &&& final(self).took(old(self), value)
                },
                Ok(None) => {
                    &&& old(self).remaining() == Seq::<S::Value>::empty()
                    &&& final(self).remaining() == Seq::<S::Value>::empty()
                    &&& final(self).last() == old(self).last()
                    &&& final(self).spec_context().streams() == old(self).ahead()
                },
                Err(_) => {
                    &&& final(self).remaining() == old(self).remaining()
                    &&& final(self).ahead() == old(self).ahead()
                    &&& final(self).last() == old(self).last()
                    &&& final(self).is_refused(old(self))
                },
            },
            final(self).spec_direction() == old(self).spec_direction(),
            old(self).always_ready() ==> final(self).always_ready() && result is Ok,
            old(self).must_wait() ==> result is Err,
    {
        let mut tree = match self.tree.take() {
            Some(tree) => tree,
            None => match self.load() {
                Ok(tree) => tree,
                Err(pending) => {
                    return Err(pending);
                },
            },
        };
        let ghost before = old(self).remaining();
        while tree.contestants_left() > 0
            invariant
                self.shape(),
                self.tree is None,
                self.matches_tree(tree),
                self.remaining() == before,
                before == old(self).remaining(),
                self.ahead() == old(self).ahead(),
                self.direction == old(self).direction,
                self.key_popped == old(self).key_popped,
                total(self.context.streams()) <= total(old(self).context.streams()),
                old(self).is_loaded() && total(self.context.streams()) == total(
                    old(self).context.streams(),
                ) ==> self.context == old(self).context && old(self).tree == Some(tree),
                old(self).must_wait() ==> self.context == old(self).context && old(self).tree
                    == Some(tree),
                old(self).always_ready() ==> self.always_ready(),
            decreases total(self.context.streams()),
        {
            proof {
                tree.law_winner_is_the_best();
            }
            let winner = tree.winner();
            let ghost streams = self.context.streams();
            let key = match self.context.stream_peek(winner.id) {
                Ok(key) => key,
                Err(pending) => {
                    self.tree = Some(tree);
                    return Err(pending);
                },
            };
            tree.pop_winner(key);
            proof {
                tree.law_winner_is_the_best();
                assert forall|i: int|
                0 <= i < tree.contestants().len() implies #[trigger] tree.contestants()[i]
                    == contestant(streams, keys::<S>(), i) by {}
            }
            if tree.contestants_left() == 0 {
                proof {
                    lemma_all_dry(streams, keys::<S>(), tree.contestants());
                    lemma_merged_end(
                        streams,
                        value_rank::<S>(),
                        self.direction,
                        DEDUPLICATE,
                        match self.key_popped {
                            Some(key) => Some(key.rank()),
                            None => None,
                        },
                    );
                }
                self.tree = Some(tree);
                return Ok(None);
            }
            let winner = tree.winner();
            proof {
                lemma_winner_is_next(
                    streams,
                    keys::<S>(),
                    value_rank::<S>(),
                    tree.contestants(),
                    winner,
                    self.direction,
                );
                lemma_merged_step(
                    streams,
                    value_rank::<S>(),
                    self.direction,
                    DEDUPLICATE,
                    match self.key_popped {
                        Some(key) => Some(key.rank()),
                        None => None,
                    },
                    winner.id as int,
                );
            }
            let value = self.context.stream_pop(winner.id);
            proof {
                assert forall|i: int|
                    0 <= i < tree.contestants().len() && i
                        != tree.spec_winner().id implies #[trigger] tree.contestants()[i]
                    == contestant(self.context.streams(), keys::<S>(), i) by {
                    assert(tree.contestants()[i] == contestant(streams, keys::<S>(), i));
                }
            }
            if DEDUPLICATE {
                let key_next = S::value_key(&value);
                let repeated = match self.key_popped {
                    Some(key_previous) => {
                        proof {
                            S::Key::rank_injective(key_previous, key_next);
                        }
                        key_previous.key_eq(key_next)
                    },
                    None => false,
                };
                if repeated {
                    continue ;
                }
                self.key_popped = Some(key_next);
            }
            self.tree = Some(tree);
            proof {
                if !DEDUPLICATE {
                    lemma_last_is_ignored(
                        self.context.streams(),
                        value_rank::<S>(),
                        self.direction,
                        Some(value_rank::<S>()(value)),
                        match self.key_popped {
                            Some(key) => Some(key.rank()),
                            None => None,
                        },
                    );
                }
                assert(before.drop_first() =~= self.remaining());
            }
            return Ok(Some(value));
        }
        proof {
            tree.law_winner_is_the_best();
            assert forall|i: int|
                0 <= i < tree.contestants().len() implies #[trigger] tree.contestants()[i]
                == contestant(self.context.streams(), keys::<S>(), i) by {
                assert(!tree.spec_winner().is_real());
            }
            lemma_all_dry(self.context.streams(), keys::<S>(), tree.contestants());
            lemma_merged_end(
                self.context.streams(),
                value_rank::<S>(),
                self.direction,
                DEDUPLICATE,
                match self.key_popped {
                    Some(key) => Some(key.rank()),
                    None => None,
                },
            );
        }
        self.tree = Some(tree);
        Ok(None)
    }
}

/// A merge that does not deduplicate does not depend on what went before.
proof fn lemma_last_is_ignored<V>(
    streams: Seq<Seq<V>>,
    rank: spec_fn(V) -> int,
    direction: Direction,
    a: Option<int>,
    b: Option<int>,
)
    ensures
        merged(streams, rank, direction, false, a) == merged(streams, rank, direction, false, b),
{
}

/// A merge starts with the head that comes first in its direction, and of equal heads with the one
/// of the lowest stream.
pub proof fn law_merge_starts_with_the_first_head<V>(
    streams: Seq<Seq<V>>,
    rank: spec_fn(V) -> int,
    direction: Direction,
)
    ensures
        ({
            let output = merged(streams, rank, direction, false, None);
            output.len() > 0 ==> exists|n: int|
                {
                    &&& 0 <= n < streams.len()
                    &&& (#[trigger] streams[n]).len() > 0
                    &&& output[0] == streams[n][0]
                    &&& forall|i: int|
                        0 <= i < streams.len() && (#[trigger] streams[i]).len() > 0 ==> {
                            let a = rank(streams[n][0]);
                            let b = rank(streams[i][0]);
                            match direction {
                                Direction::Ascending => a < b || (a == b && n <= i),
                                Direction::Descending => a > b || (a == b && n <= i),
                            }
                        }
                }
        }),
{
    let n = choose|n: int| is_next(streams, rank, direction, n);
    let output = merged(streams, rank, direction, false, None);
    if output.len() > 0 {
        assert(is_next(streams, rank, direction, n));
        assert(output[0] == streams[n][0]);
    }
}

} // verus!
