//! Position handles: the cell that holds an element's current slot, and the
//! token by which holders outside the collection find that cell again.

use vstd::prelude::*;

verus! {

/// A dynamic index that is kept up to date while elements are shifted inside
/// a collection.
///
/// The collection owns one cell per element it ever held and adjusts it
/// whenever elements in front of the owner are inserted or removed. Never keep
/// the number returned by [`DynamicIndex::current_index`] across an event that
/// may be handled later: keep the [`IndexKey`] and read the cell again when the
/// position is needed.
#[derive(Debug, PartialEq, Eq)]
pub struct DynamicIndex {
    inner: usize,
}

impl View for DynamicIndex {
    type V = usize;

    closed spec fn view(&self) -> usize {
        self.inner
    }
}

impl DynamicIndex {
    /// Get the current index number.
    pub fn current_index(&self) -> (index: usize)
        ensures
            index == self@,
    {
        self.inner
    }

    /// Moves the handle one slot towards the back.
    pub(crate) fn increment(&mut self)
        requires
            old(self)@ < usize::MAX,
        ensures
            final(self)@ == old(self)@ + 1,
    {
        self.inner = self.inner + 1;
    }

    /// Moves the handle one slot towards the front.
    pub(crate) fn decrement(&mut self)
        requires
            old(self)@ > 0,
        ensures
            final(self)@ == old(self)@ - 1,
    {
        self.inner = self.inner - 1;
    }

    pub(crate) fn new(index: usize) -> (handle: Self)
        ensures
            handle@ == index,
    {
        DynamicIndex { inner: index }
    }
}

/// Names one position handle of a collection for as long as the collection
/// lives. Keys are handed out in ascending order and never reused.
#[derive(Debug, Clone, Copy, PartialEq, Eq, Hash, Structural)]
pub struct IndexKey {
    pub id: usize,
}

} // verus!
