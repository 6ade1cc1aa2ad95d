//! An iterator behind a box.
use vstd::prelude::*;
use crate::Itertools;
use crate::size_hint::SizeHint;

verus! {

/// A wrapper around a boxed iterator that is an iterator itself.
pub struct BoxIter<I> {
    /// The wrapped iterator pointer
    pub iter: Box<I>,
}

impl<I: Itertools> BoxIter<I> {
    /// Create a BoxIter from an iterator value
    pub fn from_iter(iter: I) -> (r: BoxIter<I>)
        requires
            iter.wf(),
        ensures
            r.wf(),
            r.rest() == iter.rest(),
    {
        BoxIter::from_box(Box::new(iter))
    }

    /// Create a BoxIter from an already boxed iterator
    pub fn from_box(iter: Box<I>) -> (r: BoxIter<I>)
        requires
            iter.wf(),
        ensures
            r.wf(),
            r.rest() == iter.rest(),
    {
        BoxIter { iter }
    }
}

impl<I: Itertools> Itertools for BoxIter<I> {
    type Item = I::Item;

    open spec fn rest(&self) -> Seq<I::Item> {
        self.iter.rest()
    }

    open spec fn wf(&self) -> bool {
        self.iter.wf()
    }

    fn next(&mut self) -> (r: Option<I::Item>) {
        self.iter.next()
    }

    closed spec fn spec_size_hint(&self) -> (usize, Option<usize>) {
        self.iter.spec_size_hint()
    }

    fn size_hint(&self) -> (r: SizeHint) {
        let r = self.iter.size_hint();
        assert(r == self.spec_size_hint());
        r
    }
}

} // verus!
