//! Iteration order of a sorted sequence.
//!
//! A sorted run is walked both ways: ascending to learn what follows a threshold, descending to
//! page through what precedes it. `Direction` keeps the choice between `<` and `>` in one place:
//! `key_min` and `key_max` follow the natural order, `key_lower` and `key_upper` follow the
//! direction.

use crate::key::OrderedKey;
use vstd::prelude::*;

verus! {

/// The order in which a sorted sequence is walked.
#[derive(Clone, Copy, Debug, PartialEq, Eq, Structural)]
pub enum Direction {
    Ascending,
    Descending,
}

impl Direction {
    /// `a` comes strictly before `b` in this direction.
    pub open spec fn precedes(self, a: int, b: int) -> bool {
        match self {
            Direction::Ascending => a < b,
            Direction::Descending => a > b,
        }
    }

    pub open spec fn spec_reverse(self) -> Direction {
        match self {
            Direction::Ascending => Direction::Descending,
            Direction::Descending => Direction::Ascending,
        }
    }

    /// The opposite direction.
    #[must_use]
    pub fn reverse(self) -> (result: Self)
        ensures
            result == self.spec_reverse(),
    {
        match self {
            Direction::Ascending => Direction::Descending,
            Direction::Descending => Direction::Ascending,
        }
    }

    /// `a` strictly before `b`.
    #[must_use]
    pub fn cmp_lt<T: OrderedKey>(self, a: &T, b: &T) -> (result: bool)
        ensures
            result == self.precedes(a.rank(), b.rank()),
    {
        match self {
            Direction::Ascending => a.key_lt(*b),
            Direction::Descending => b.key_lt(*a),
        }
    }

    /// `a` before `b`, or equal to it.
    #[must_use]
    pub fn cmp_le<T: OrderedKey>(self, a: &T, b: &T) -> (result: bool)
        ensures
            result == !self.precedes(b.rank(), a.rank()),
    {
        match self {
            Direction::Ascending => a.key_le(*b),
            Direction::Descending => b.key_le(*a),
        }
    }

    /// The direction-aware minimum of `a` and `b`.
    #[must_use]
    pub fn lower<T: OrderedKey>(self, a: T, b: T) -> (result: T)
        ensures
            result == if self.precedes(a.rank(), b.rank()) { a } else { b },
    {
        if self.cmp_lt(&a, &b) {
            a
        } else {
            b
        }
    }

    /// The direction-aware maximum of `a` and `b`.
    #[must_use]
    pub fn upper<T: OrderedKey>(self, a: T, b: T) -> (result: T)
        ensures
            result == if self.precedes(a.rank(), b.rank()) { b } else { a },
    {
        if self.cmp_lt(&a, &b) {
            b
        } else {
            a
        }
    }

    /// The first element in iteration order.
    #[must_use]
    pub fn slice_peek<T>(self, slice: &[T]) -> (result: &T)
        requires
            slice@.len() > 0,
        ensures
            *result == match self {
                Direction::Ascending => slice@.first(),
                Direction::Descending => slice@.last(),
            },
    {
        match self {
            Direction::Ascending => &slice[0],
            Direction::Descending => &slice[slice.len() - 1],
        }
    }

    /// The first element in iteration order, and the slice without it.
    #[must_use]
    pub fn slice_pop<T>(self, slice: &[T]) -> (result: (&T, &[T]))
        requires
            slice@.len() > 0,
        ensures
            match self {
                Direction::Ascending => *result.0 == slice@.first() && result.1@
                    == slice@.drop_first(),
                Direction::Descending => *result.0 == slice@.last() && result.1@
                    == slice@.drop_last(),
            },
    {
        match self {
            Direction::Ascending => (
                &slice[0],
                vstd::slice::slice_subrange(slice, 1, slice.len()),
            ),
            Direction::Descending => (
                &slice[slice.len() - 1],
                vstd::slice::slice_subrange(slice, 0, slice.len() - 1),
            ),
        }
    }
}

/// Reversing a direction twice gives it back.
pub proof fn law_reverse_is_an_involution(direction: Direction)
    ensures
        direction.spec_reverse().spec_reverse() == direction,
{
}

/// Reversing a direction swaps what comes before what.
pub proof fn law_reverse_swaps_order(direction: Direction, a: int, b: int)
    ensures
        direction.spec_reverse().precedes(a, b) == direction.precedes(b, a),
{
}

/// Ascending is from the lower to the greater, descending from the greater to the lower.
pub proof fn law_directions_are_orders(a: int, b: int)
    ensures
        Direction::Ascending.precedes(a, b) <==> a < b,
        Direction::Descending.precedes(a, b) <==> b < a,
{
}

} // verus!
