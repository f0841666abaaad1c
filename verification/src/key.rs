//! Totally ordered keys.
//!
//! Every key type maps injectively into the integers by its `rank`, and all comparisons are
//! stated over ranks. Proofs about generic ordered containers are then linear arithmetic.

use vstd::prelude::*;

verus! {

/// A copyable key with a total order.
pub trait OrderedKey: Copy {
    /// The position of the key on the number line.
    spec fn rank(self) -> int;

    /// Distinct keys have distinct ranks.
    proof fn rank_injective(a: Self, b: Self)
        ensures
            a.rank() == b.rank() ==> a == b,
    ;

    fn key_lt(self, other: Self) -> (result: bool)
        ensures
            result == (self.rank() < other.rank()),
    ;

    fn key_le(self, other: Self) -> (result: bool)
        ensures
            result == (self.rank() <= other.rank()),
    ;

    fn key_eq(self, other: Self) -> (result: bool)
        ensures
            result == (self == other),
    ;
}

impl OrderedKey for u8 {
    open spec fn rank(self) -> int {
        self as int
    }

    proof fn rank_injective(a: Self, b: Self) {
    }

    fn key_lt(self, other: Self) -> (result: bool) {
        self < other
    }

    fn key_le(self, other: Self) -> (result: bool) {
        self <= other
    }

    fn key_eq(self, other: Self) -> (result: bool) {
        self == other
    }
}

impl OrderedKey for u16 {
    open spec fn rank(self) -> int {
        self as int
    }

    proof fn rank_injective(a: Self, b: Self) {
    }

    fn key_lt(self, other: Self) -> (result: bool) {
        self < other
    }

    fn key_le(self, other: Self) -> (result: bool) {
        self <= other
    }

    fn key_eq(self, other: Self) -> (result: bool) {
        self == other
    }
}

impl OrderedKey for u32 {
    open spec fn rank(self) -> int {
        self as int
    }

    proof fn rank_injective(a: Self, b: Self) {
    }

    fn key_lt(self, other: Self) -> (result: bool) {
        self < other
    }

    fn key_le(self, other: Self) -> (result: bool) {
        self <= other
    }

    fn key_eq(self, other: Self) -> (result: bool) {
        self == other
    }
}

impl OrderedKey for u64 {
    open spec fn rank(self) -> int {
        self as int
    }

    proof fn rank_injective(a: Self, b: Self) {
    }

    fn key_lt(self, other: Self) -> (result: bool) {
        self < other
    }

    fn key_le(self, other: Self) -> (result: bool) {
        self <= other
    }

    fn key_eq(self, other: Self) -> (result: bool) {
        self == other
    }
}

impl OrderedKey for u128 {
    open spec fn rank(self) -> int {
        self as int
    }

    proof fn rank_injective(a: Self, b: Self) {
    }

    fn key_lt(self, other: Self) -> (result: bool) {
        self < other
    }

    fn key_le(self, other: Self) -> (result: bool) {
        self <= other
    }

    fn key_eq(self, other: Self) -> (result: bool) {
        self == other
    }
}

impl OrderedKey for usize {
    open spec fn rank(self) -> int {
        self as int
    }

    proof fn rank_injective(a: Self, b: Self) {
    }

    fn key_lt(self, other: Self) -> (result: bool) {
        self < other
    }

    fn key_le(self, other: Self) -> (result: bool) {
        self <= other
    }

    fn key_eq(self, other: Self) -> (result: bool) {
        self == other
    }
}

impl OrderedKey for i32 {
    open spec fn rank(self) -> int {
        self as int
    }

    proof fn rank_injective(a: Self, b: Self) {
    }

    fn key_lt(self, other: Self) -> (result: bool) {
        self < other
    }

    fn key_le(self, other: Self) -> (result: bool) {
        self <= other
    }

    fn key_eq(self, other: Self) -> (result: bool) {
        self == other
    }
}

impl OrderedKey for i64 {
    open spec fn rank(self) -> int {
        self as int
    }

    proof fn rank_injective(a: Self, b: Self) {
    }

    fn key_lt(self, other: Self) -> (result: bool) {
        self < other
    }

    fn key_le(self, other: Self) -> (result: bool) {
        self <= other
    }

    fn key_eq(self, other: Self) -> (result: bool) {
        self == other
    }
}

/// The ranks of a sequence of keys.
pub open spec fn ranks<K: OrderedKey>(keys: Seq<K>) -> Seq<int> {
    Seq::new(keys.len(), |i: int| keys[i].rank())
}

/// A sequence of ranks is sorted, with duplicates allowed.
pub open spec fn sorted(ranks: Seq<int>) -> bool {
    forall|i: int, j: int| 0 <= i <= j < ranks.len() ==> ranks[i] <= ranks[j]
}

} // verus!
