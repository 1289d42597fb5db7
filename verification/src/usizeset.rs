//! A set of `usize`, stored like a `U64Set`.
use vstd::prelude::*;
use crate::castset::max_capacity;
use crate::u64set::{Set64, set_limit};

verus! {

/// A set of `usize` elements, stored in the narrowest words that hold
/// them all.
#[derive(Debug)]
pub struct USizeSet {
    s: Set64<usize>,
}

impl View for USizeSet {
    type V = Set<usize>;

    closed spec fn view(&self) -> Set<usize> {
        self.s@
    }
}

impl USizeSet {
    /// The storage is consistent.
    pub closed spec fn wf(&self) -> bool {
        self.s.wf()
    }

    /// The set is finite.
    pub proof fn lemma_view_finite(&self)
        requires
            self.wf(),
        ensures
            self@.finite(),
    {
        self.s.lemma_view_finite();
    }

    /// How many more elements the storage takes without growing.
    pub closed spec fn room(&self) -> int {
        self.s.room()
    }

    /// The largest element that the storage takes without being rebuilt
    /// in wider words.
    pub closed spec fn max_fit(&self) -> u64 {
        self.s.max_fit()
    }

    /// Creates an empty set..
    pub fn default() -> (s: USizeSet)
        ensures
            s.wf(),
            s@ == Set::<usize>::empty(),
    {
        Self::with_capacity(0)
    }

    /// Creates an empty set..
    pub fn new() -> (s: USizeSet)
        ensures
            s.wf(),
            s@ == Set::<usize>::empty(),
    {
        USizeSet::with_capacity(0)
    }

    /// Creates an empty set with the specified capacity.
    pub fn with_capacity(cap: usize) -> (s: USizeSet)
        requires
            cap <= max_capacity(),
        ensures
            s.wf(),
            s@ == Set::<usize>::empty(),
            s.room() >= cap,
            s.max_fit() >= 254,
    {
        USizeSet { s: Set64::with_capacity(cap) }
    }

    /// Creates an empty set with the specified capacity, for elements up
    /// to `max`.
    pub fn with_max_and_capacity(max: usize, cap: usize) -> (s: USizeSet)
        requires
            cap < max_capacity(),
        ensures
            s.wf(),
            s@ == Set::<usize>::empty(),
            s.room() >= cap,
            s.max_fit() >= max,
    {
        USizeSet { s: Set64::with_max_and_capacity(max, cap) }
    }

    /// Returns the number of elements in the set.
    pub fn len(&self) -> (r: usize)
        requires
            self.wf(),
        ensures
            r == self@.len(),
    {
        self.s.len()
    }

    /// Reserves capacity for at least `additional` more elements to be
    /// inserted in the set. The collection may reserve more space
    /// to avoid frequent reallocations.
    pub fn reserve(&mut self, additional: usize)
        requires
            old(self).wf(),
            old(self)@.len() + additional < set_limit(),
        ensures
            final(self).wf(),
            final(self)@ == old(self)@,
            final(self).room() >= additional,
    {
        self.s.reserve(additional)
    }

    /// Reserves capacity for at least `additional` more elements to
    /// be inserted in the set, with maximum value of `max`.
    pub fn reserve_with_max(&mut self, max: usize, additional: usize)
        requires
            old(self).wf(),
            old(self)@.len() + additional < set_limit(),
        ensures
            final(self).wf(),
            final(self)@ == old(self)@,
            final(self).room() >= additional,
            final(self).max_fit() >= max,
            final(self).max_fit() >= old(self).max_fit(),
    {
        self.s.reserve_with_max(max, additional)
    }

    /// Adds a value to the set.
    ///
    /// If the set did not have this value present, `true` is returned.
    ///
    /// If the set did have this value present, `false` is returned.
    pub fn insert(&mut self, elem: usize) -> (added: bool)
        requires
            old(self).wf(),
            old(self)@.len() + 1 < set_limit(),
        ensures
            final(self).wf(),
            final(self)@ == old(self)@.insert(elem),
            added == !old(self)@.contains(elem),
    {
        self.s.insert(elem)
    }

    /// Returns true if the set contains a value.
    pub fn contains(&self, value: &usize) -> (r: bool)
        requires
            self.wf(),
        ensures
            r == self@.contains(*value),
    {
        self.s.contains(value)
    }

    /// Removes an element, and returns true if that element was present.
    pub fn remove(&mut self, value: &usize) -> (removed: bool)
        requires
            old(self).wf(),
        ensures
            final(self).wf(),
            final(self)@ == old(self)@.remove(*value),
            removed == old(self)@.contains(*value),
    {
        self.s.remove(value)
    }

    /// The elements, each once.
    pub fn iter(&self) -> (r: Vec<usize>)
        requires
            self.wf(),
        ensures
            r@.to_set() == self@,
            r@.no_duplicates(),
            r@.len() == self@.len(),
    {
        self.s.iter()
    }
}

} // verus!
