//! Taking items from a borrowed iterator while a predicate holds.
use vstd::prelude::*;
use crate::{Itertools, CloneIter};
use crate::size_hint::SizeHint;

verus! {

/// An iterator adaptor that borrows a clonable iterator and takes its items while the
/// predicate returns `true`; the first item that fails the predicate is left in the
/// borrowed iterator.
pub struct TakeWhileRef<'a, I, F> {
    pub iter: &'a mut I,
    pub f: F,
}

impl<'a, I: CloneIter, F> TakeWhileRef<'a, I, F> {
    /// The items left in the borrowed iterator.
    pub closed spec fn rest(&self) -> Seq<I::Item> {
        self.iter.rest()
    }

    /// The invariant of the adaptor.
    pub closed spec fn wf(&self) -> bool {
        self.iter.wf()
    }

    /// The predicate.
    pub closed spec fn predicate(&self) -> F {
        self.f
    }

    /// Create a new `TakeWhileRef` from a reference to a clonable iterator; what the adaptor
    /// leaves in the borrowed iterator is what the caller's iterator holds once it is done.
    pub fn new(iter: &'a mut I, f: F) -> (r: Self)
        requires
            old(iter).wf(),
        ensures
            r.wf(),
            r.rest() == old(iter).rest(),
            r.predicate() == f,
            *final(iter) == *final(r.iter),
    {
        TakeWhileRef { iter, f }
    }
}

impl<'a, I: CloneIter, F: Fn(&I::Item) -> bool> TakeWhileRef<'a, I, F> {
    /// The next item of the borrowed iterator if it satisfies the predicate; otherwise
    /// `None`, and the borrowed iterator is left as it was.
    pub fn next(&mut self) -> (r: Option<I::Item>)
        requires
            old(self).wf(),
            old(self).rest().len() > 0 ==> call_requires(
                old(self).predicate(),
                (&old(self).rest()[0],),
            ),
        ensures
            final(self).wf(),
            final(self).predicate() == old(self).predicate(),
            *final(final(self).iter) == *final(old(self).iter),
            match r {
                Some(x) => old(self).rest().len() > 0 && x == old(self).rest()[0]
                    && call_ensures(old(self).predicate(), (&x,), true)
                    && final(self).rest() == old(self).rest().drop_first(),
                None => final(self).rest() == old(self).rest() && (old(self).rest().len() == 0
                    || call_ensures(old(self).predicate(), (&old(self).rest()[0],), false)),
            },
    {
        let saved = self.iter.clone_iter();
        match self.iter.next() {
            None => None,
            Some(elt) => {
                if (self.f)(&elt) {
                    Some(elt)
                } else {
                    *self.iter = saved;
                    None
                }
            },
        }
    }

    /// No lower bound; the upper bound of the borrowed iterator.
    pub closed spec fn spec_size_hint(&self) -> (usize, Option<usize>) {
        (0, self.iter.spec_size_hint().1)
    }

    /// No lower bound; the upper bound of the borrowed iterator.
    pub fn size_hint(&self) -> (r: SizeHint)
        requires
            self.wf(),
        ensures
            r.0 == 0,
            r.1 matches Some(h) ==> self.rest().len() <= h,
            r == self.spec_size_hint(),
    {
        let (_, hi) = self.iter.size_hint();
        (0, hi)
    }
}

} // verus!

