//! The iterator handed back when an iterator did not hold exactly one item.
use vstd::prelude::*;
use crate::Itertools;
use crate::adaptors::opt_seq;
use crate::size_hint::{self, SizeHint};

verus! {

/// Yields the first two items taken from an iterator, then the rest of that iterator: the
/// same items as the iterator held before they were taken.
#[verifier::reject_recursive_types(T)]
pub struct ExactlyOneErr<T, I: Itertools<Item = T>> {
    first_two: (Option<T>, Option<T>),
    inner: I,
}

impl<T, I: Itertools<Item = T>> ExactlyOneErr<T, I> {
    /// Creates a new `ExactlyOneErr` iterator.
    pub fn new(first_two: (Option<T>, Option<T>), inner: I) -> (r: Self)
        requires
            inner.wf(),
        ensures
            r.wf(),
            r.rest() == opt_seq(first_two.0) + opt_seq(first_two.1) + inner.rest(),
    {
        ExactlyOneErr { first_two, inner }
    }
}

impl<T, I: Itertools<Item = T>> Itertools for ExactlyOneErr<T, I> {
    type Item = T;

    closed spec fn rest(&self) -> Seq<T> {
        opt_seq(self.first_two.0) + opt_seq(self.first_two.1) + self.inner.rest()
    }

    closed spec fn wf(&self) -> bool {
        self.inner.wf()
    }

    fn next(&mut self) -> (r: Option<T>) {
        let a = self.first_two.0.take();
        if a.is_some() {
            proof {
                assert(self.rest() =~= old(self).rest().drop_first());
            }
            return a;
        }
        let b = self.first_two.1.take();
        if b.is_some() {
            proof {
                assert(self.rest() =~= old(self).rest().drop_first());
            }
            return b;
        }
        proof {
            assert(old(self).rest() =~= self.inner.rest());
        }
        let r = self.inner.next();
        proof {
            assert(self.rest() =~= self.inner.rest());
        }
        r
    }

    closed spec fn spec_size_hint(&self) -> (usize, Option<usize>) {
        crate::size_hint::add_scalar_spec(self.inner.spec_size_hint(), ((if self.first_two.0 is Some { 1int } else { 0 }) + (if self.first_two.1 is Some { 1int } else { 0 })) as usize)
    }

    fn size_hint(&self) -> (r: SizeHint) {
        let mut extra: usize = 0;
        if self.first_two.0.is_some() {
            extra = extra + 1;
        }
        if self.first_two.1.is_some() {
            extra = extra + 1;
        }
        let r = size_hint::add_scalar(self.inner.size_hint(), extra);
        assert(r == self.spec_size_hint());
        r
    }
}

} // verus!
