//! The result of asking an iterator for at most one item.
use vstd::prelude::*;
use crate::Itertools;
use crate::size_hint::{self, SizeHint};

verus! {

/// The result of `at_most_one`, by the number of remaining items.
pub enum AtMostOneResult<I: Itertools> {
    /// The iterator was empty.
    Zero,
    /// The iterator had exactly one item.
    One(I::Item),
    /// The iterator had more than one item; this iterator yields all of them.
    MoreThanOne(MoreThanOne<I>),
}

/// Where the next item of a `MoreThanOne` comes from.
pub enum IterSource<T> {
    FirstElement(T, T),
    SecondElement(T),
    InnerIter,
}

/// The items still held in an `IterSource`.
pub open spec fn source_items<T>(s: IterSource<T>) -> Seq<T> {
    match s {
        IterSource::FirstElement(a, b) => seq![a, b],
        IterSource::SecondElement(b) => seq![b],
        IterSource::InnerIter => Seq::empty(),
    }
}

/// Yields the two items already taken from an iterator, then the rest of that iterator.
pub struct MoreThanOne<I: Itertools> {
    next_source: IterSource<I::Item>,
    inner: I,
}

impl<I: Itertools> MoreThanOne<I> {
    /// The first two items, then those of `inner`.
    pub fn new(first_two: (I::Item, I::Item), inner: I) -> (r: Self)
        requires
            inner.wf(),
        ensures
            r.wf(),
            r.rest() == seq![first_two.0, first_two.1] + inner.rest(),
    {
        let (first, second) = first_two;
        MoreThanOne { next_source: IterSource::FirstElement(first, second), inner }
    }

    /// The number of items held before those of the inner iterator.
    fn additional_len(&self) -> (r: usize)
        ensures
            r == source_items(self.next_source).len(),
    {
        match self.next_source {
            IterSource::FirstElement(_, _) => 2,
            IterSource::SecondElement(_) => 1,
            IterSource::InnerIter => 0,
        }
    }
}

/// Count the remaining items of `it` as `at_most_one` does.
pub fn at_most_one<I: Itertools>(it: I) -> (r: AtMostOneResult<I>)
    requires
        it.wf(),
    ensures
        it.rest().len() == 0 ==> r is Zero,
        it.rest().len() == 1 ==> r == AtMostOneResult::<I>::One(it.rest()[0]),
        it.rest().len() >= 2 ==> (r matches AtMostOneResult::MoreThanOne(m) && m.wf() && m.rest()
            == it.rest()),
{
    let mut it = it;
    match it.next() {
        None => AtMostOneResult::Zero,
        Some(first) => match it.next() {
            None => AtMostOneResult::One(first),
            Some(second) => {
                let m = MoreThanOne::new((first, second), it);
                proof {
                    assert(m.rest() =~= old_rest(first, second, it.rest()));
                }
                AtMostOneResult::MoreThanOne(m)
            },
        },
    }
}

spec fn old_rest<T>(a: T, b: T, s: Seq<T>) -> Seq<T> {
    seq![a, b] + s
}

impl<I: Itertools> Itertools for MoreThanOne<I> {
    type Item = I::Item;

    closed spec fn rest(&self) -> Seq<I::Item> {
        source_items(self.next_source) + self.inner.rest()
    }

    closed spec fn wf(&self) -> bool {
        self.inner.wf()
    }

    fn next(&mut self) -> (r: Option<I::Item>) {
        let mut source = IterSource::InnerIter;
        core::mem::swap(&mut source, &mut self.next_source);
        match source {
            IterSource::FirstElement(first, second) => {
                self.next_source = IterSource::SecondElement(second);
                proof {
                    assert(self.rest() =~= old(self).rest().drop_first());
                }
                Some(first)
            },
            IterSource::SecondElement(second) => {
                proof {
                    assert(self.rest() =~= old(self).rest().drop_first());
                }
                Some(second)
            },
            IterSource::InnerIter => {
                proof {
                    assert(self.rest() =~= self.inner.rest());
                }
                let r = self.inner.next();
                proof {
                    assert(self.rest() =~= self.inner.rest());
                }
                r
            },
        }
    }

    closed spec fn spec_size_hint(&self) -> (usize, Option<usize>) {
        crate::size_hint::add_scalar_spec(self.inner.spec_size_hint(), source_items(self.next_source).len() as usize)
    }

    fn size_hint(&self) -> (r: SizeHint) {
        let r = size_hint::add_scalar(self.inner.size_hint(), self.additional_len());
        assert(r == self.spec_size_hint());
        r
    }
}

} // verus!
