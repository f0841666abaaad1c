//! An array with a fixed capacity.

use vstd::prelude::*;

verus! {

/// At most `N` elements.
#[derive(Clone, Debug)]
pub struct BoundedArray<T, const N: usize> {
    elements: Vec<T>,
}

impl<T, const N: usize> View for BoundedArray<T, N> {
    type V = Seq<T>;

    closed spec fn view(&self) -> Seq<T> {
        self.elements@
    }
}

impl<T: Copy, const N: usize> BoundedArray<T, N> {
    #[must_use]
    pub fn new() -> (result: Self)
        ensures
            result@ == Seq::<T>::empty(),
    {
        BoundedArray { elements: Vec::new() }
    }

    /// The number of elements.
    #[must_use]
    pub fn count(&self) -> (result: usize)
        ensures
            result == self@.len(),
    {
        self.elements.len()
    }

    /// Whether there is no room for another element.
    #[must_use]
    pub fn full(&self) -> (result: bool)
        ensures
            result == (self@.len() >= N),
    {
        self.elements.len() >= N
    }

    /// Appends an element.
    pub fn push(&mut self, element: T)
        requires
            old(self)@.len() < N,
        ensures
            final(self)@ == old(self)@.push(element),
    {
        self.elements.push(element);
    }

    /// Inserts an element, moving those from `index` on.
    pub fn insert_at(&mut self, index: usize, element: T)
        requires
            old(self)@.len() < N,
            index <= old(self)@.len(),
        ensures
            final(self)@ == old(self)@.insert(index as int, element),
    {
        self.elements.insert(index, element);
    }

    /// The elements.
    #[must_use]
    pub fn slice(&self) -> (result: &[T])
        ensures
            result@ == self@,
    {
        self.elements.as_slice()
    }

    /// A copy of the array.
    #[must_use]
    pub fn copy(&self) -> (result: Self)
        ensures
            result@ == self@,
    {
        BoundedArray { elements: vstd::slice::slice_to_vec(self.elements.as_slice()) }
    }
}

} // verus!
