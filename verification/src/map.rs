//! Mapping the items of an iterator through a closure.
use vstd::prelude::*;
use crate::Itertools;
use crate::size_hint::SizeHint;

verus! {

/// An iterator adaptor that applies a closure to each item.
pub struct MapMut<F, I> {
    map: F,
    iter: I,
}

impl<I: Itertools, F> MapMut<F, I> {
    /// The items of the underlying iterator still to be mapped.
    pub closed spec fn inner_rest(&self) -> Seq<I::Item> {
        self.iter.rest()
    }

    pub closed spec fn wf(&self) -> bool {
        self.iter.wf()
    }

    /// The closure.
    pub closed spec fn map_fn(&self) -> F {
        self.map
    }

    /// Create a new `MapMut`.
    pub fn new(iter: I, map: F) -> (r: Self)
        requires
            iter.wf(),
        ensures
            r.wf(),
            r.inner_rest() == iter.rest(),
            r.map_fn() == map,
    {
        MapMut { iter, map }
    }

    /// The size hint of the underlying iterator.
    pub closed spec fn spec_size_hint(&self) -> SizeHint {
        self.iter.spec_size_hint()
    }

    /// The size hint of the underlying iterator: one item out for each item in.
    pub fn size_hint(&self) -> (r: SizeHint)
        requires
            self.wf(),
        ensures
            crate::size_hint::within(r, self.inner_rest().len() as int),
            r == self.spec_size_hint(),
    {
        self.iter.size_hint()
    }
}

impl<B, I: Itertools, F: Fn(I::Item) -> B> MapMut<F, I> {
    /// The closure applied to the next item of the underlying iterator.
    pub fn next(&mut self) -> (r: Option<B>)
        requires
            old(self).wf(),
            old(self).inner_rest().len() > 0 ==> call_requires(
                old(self).map_fn(),
                (old(self).inner_rest()[0],),
            ),
        ensures
            final(self).wf(),
            final(self).map_fn() == old(self).map_fn(),
            match r {
                None => old(self).inner_rest().len() == 0 && final(self).inner_rest().len() == 0,
                Some(y) => old(self).inner_rest().len() > 0 && call_ensures(
                    old(self).map_fn(),
                    (old(self).inner_rest()[0],),
                    y,
                ) && final(self).inner_rest() == old(self).inner_rest().drop_first(),
            },
    {
        match self.iter.next() {
            None => None,
            Some(a) => Some((self.map)(a)),
        }
    }
}

} // verus!
