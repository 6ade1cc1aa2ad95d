//! A meta adaptor: a function takes from the iterator what it needs for each item.
use vstd::prelude::*;
use crate::Itertools;
use crate::size_hint::SizeHint;

verus! {

/// A function for `Batching`: it receives the underlying iterator and may take as many
/// items from its front as it likes to produce an item.
pub trait BatchFn<I: Itertools>: Sized {
    /// The type of the items produced.
    type Output;

    /// What `call` returns when `s` are the items left in the iterator.
    spec fn spec_result(&self, s: Seq<I::Item>) -> Option<Self::Output>;

    /// How many items `call` takes from the front when `s` are the items left.
    spec fn spec_taken(&self, s: Seq<I::Item>) -> nat;

    /// The function as it is after `call`, when `s` were the items left.
    spec fn spec_after(&self, s: Seq<I::Item>) -> Self;

    /// Produce the next item from the front of `iter`, or `None`.
    fn call(&mut self, iter: &mut I) -> (r: Option<Self::Output>)
        requires
            old(iter).wf(),
        ensures
            final(iter).wf(),
            r == old(self).spec_result(old(iter).rest()),
            old(self).spec_taken(old(iter).rest()) <= old(iter).rest().len(),
            final(iter).rest() == old(iter).rest().skip(old(self).spec_taken(old(iter).rest()) as int),
            *final(self) == old(self).spec_after(old(iter).rest()),
    ;
}

/// Takes two items at a time and yields them as a pair; `None` when fewer than two are left.
pub struct PairUp;

impl<I: Itertools> BatchFn<I> for PairUp {
    type Output = (I::Item, I::Item);

    /// The first two items, when there are two.
    open spec fn spec_result(&self, s: Seq<I::Item>) -> Option<(I::Item, I::Item)> {
        if s.len() >= 2 {
            Some((s[0], s[1]))
        } else {
            None
        }
    }

    /// Two items, or all of them when fewer are left.
    open spec fn spec_taken(&self, s: Seq<I::Item>) -> nat {
        if s.len() >= 2 {
            2
        } else {
            s.len()
        }
    }

    /// `PairUp` keeps no state.
    open spec fn spec_after(&self, s: Seq<I::Item>) -> PairUp {
        PairUp
    }

    fn call(&mut self, iter: &mut I) -> (r: Option<(I::Item, I::Item)>) {
        let ghost s = iter.rest();
        match iter.next() {
            None => {
                proof {
                    assert(iter.rest() =~= s.skip(0));
                }
                None
            },
            Some(a) => match iter.next() {
                None => {
                    proof {
                        assert(iter.rest() =~= s.skip(1));
                    }
                    None
                },
                Some(b) => {
                    proof {
                        assert(iter.rest() =~= s.skip(2));
                    }
                    Some((a, b))
                },
            },
        }
    }
}

/// An iterator adaptor whose function receives the underlying iterator and may take as
/// many items from it as it likes to produce the next item.
pub struct Batching<I, F> {
    f: F,
    iter: I,
}

impl<I: Itertools, F> Batching<I, F> {
    /// The items left in the underlying iterator.
    pub closed spec fn inner_rest(&self) -> Seq<I::Item> {
        self.iter.rest()
    }

    /// The invariant of the adaptor.
    pub closed spec fn wf(&self) -> bool {
        self.iter.wf()
    }

    /// The function, as it stands now.
    pub closed spec fn func(&self) -> F {
        self.f
    }

    /// Create a new `Batching` iterator.
    pub fn new(iter: I, f: F) -> (r: Batching<I, F>)
        requires
            iter.wf(),
        ensures
            r.wf(),
            r.inner_rest() == iter.rest(),
            r.func() == f,
    {
        Batching { f, iter }
    }

    /// No information: the function may take any number of items.
    pub fn size_hint(&self) -> (r: SizeHint)
        ensures
            r == (0usize, None::<usize>),
    {
        (0, None)
    }
}

impl<I: Itertools, F: BatchFn<I>> Batching<I, F> {
    /// Call the function on the underlying iterator and return its result.
    pub fn next(&mut self) -> (r: Option<F::Output>)
        requires
            old(self).wf(),
        ensures
            final(self).wf(),
            r == old(self).func().spec_result(old(self).inner_rest()),
            final(self).inner_rest() == old(self).inner_rest().skip(
                old(self).func().spec_taken(old(self).inner_rest()) as int,
            ),
            final(self).func() == old(self).func().spec_after(old(self).inner_rest()),
    {
        self.f.call(&mut self.iter)
    }
}

} // verus!
