//! The k-way merge as a free function over an iterator of iterators.
use vstd::prelude::*;
use crate::Itertools;
use crate::kmerge::{kmerge_new, kmerge_of, rests, flat_items};
use crate::merge_join::is_sorted;
use crate::size_hint::SizeHint;

verus! {

/// An iterator adaptor that merges any number of base iterators in ascending order; the
/// heap of their first items is the one of [`crate::kmerge::KMerge`].
pub struct KMerge<J> {
    heap: crate::kmerge::KMerge<J>,
}

impl<J: Itertools<Item = i64>> Itertools for KMerge<J> {
    type Item = i64;

    closed spec fn rest(&self) -> Seq<i64> {
        self.heap.rest()
    }

    closed spec fn wf(&self) -> bool {
        self.heap.wf()
    }

    fn next(&mut self) -> (r: Option<i64>) {
        self.heap.next()
    }

    closed spec fn spec_size_hint(&self) -> (usize, Option<usize>) {
        self.heap.spec_size_hint()
    }

    fn size_hint(&self) -> (r: SizeHint) {
        let r = self.heap.size_hint();
        assert(r == self.spec_size_hint());
        r
    }
}

/// Create an iterator that merges the iterators that `iterable` yields.
pub fn kmerge<J: Itertools<Item = i64>, I: Itertools<Item = J>>(iterable: I) -> (r: KMerge<J>)
    requires
        iterable.wf(),
        forall|k: int| 0 <= k < iterable.rest().len() ==> (#[trigger] iterable.rest()[k]).wf(),
    ensures
        r.wf(),
        r.rest() == kmerge_of(rests(iterable.rest())),
        r.rest().to_multiset() == flat_items(rests(iterable.rest())),
        (forall|k: int| 0 <= k < iterable.rest().len() ==> is_sorted(#[trigger] iterable.rest()[k].rest()))
            ==> is_sorted(r.rest()),
{
    KMerge { heap: kmerge_new(iterable) }
}

} // verus!
