//! Memory that is lent to one borrower at a time.
//!
//! Work such as sorting takes a buffer for a moment. Components that do not work at the same time
//! share one.

use vstd::prelude::*;

verus! {

#[derive(Clone, Copy, Debug, PartialEq, Eq, Structural)]
enum State {
    Free,
    Busy,
}

/// Memory for values of one type.
pub struct ScratchMemory<T> {
    values: Vec<T>,
    state: State,
}

impl<T> View for ScratchMemory<T> {
    type V = Seq<T>;

    closed spec fn view(&self) -> Seq<T> {
        self.values@
    }
}

impl<T: Copy + Default> ScratchMemory<T> {
    /// Whether the memory is not lent.
    pub closed spec fn free(&self) -> bool {
        self.state == State::Free
    }

    /// Memory for `capacity` values.
    #[must_use]
    pub fn new(capacity: usize) -> (result: Self)
        requires
            capacity > 0,
        ensures
            result.free(),
            result@.len() == capacity,
            exists|default: T|
                #![trigger call_ensures(T::default, (), default)]
                call_ensures(T::default, (), default) && forall|i: int|
                    0 <= i < capacity ==> #[trigger] result@[i] == default,
    {
        let default = T::default();
        let mut values: Vec<T> = Vec::new();
        while values.len() < capacity
            invariant
                values@.len() <= capacity,
                forall|i: int| 0 <= i < values@.len() ==> #[trigger] values@[i] == default,
            decreases capacity - values@.len(),
        {
            values.push(default);
        }
        ScratchMemory { values, state: State::Free }
    }

    /// Lends the first `count` values, which hold what the last borrower left there.
    pub fn acquire(&mut self, count: usize) -> (result: &mut [T])
        requires
            old(self).free(),
            count <= old(self)@.len(),
        ensures
            result@ == old(self)@.take(count as int),
            !final(self).free(),
            final(self)@ == final(result)@ + old(self)@.skip(count as int),
    {
        self.state = State::Busy;
        let (front, _) = self.values.as_mut_slice().split_at_mut(count);
        front
    }

    /// Takes the memory back.
    pub fn release(&mut self)
        requires
            !old(self).free(),
        ensures
            final(self).free(),
            final(self)@ == old(self)@,
    {
        self.state = State::Free;
    }

    /// Whether the memory is not lent.
    #[must_use]
    pub fn is_free(&self) -> (result: bool)
        ensures
            result == self.free(),
    {
        match self.state {
            State::Free => true,
            State::Busy => false,
        }
    }
}

} // verus!
