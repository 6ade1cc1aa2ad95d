//! All combinations of up to `k` items of an iterator: the longest first.
use vstd::prelude::*;
use crate::{Itertools, CloneIter};
use crate::combinations::{Combinations, combinations, comb_step, first_comb, pick};

verus! {

/// An iterator over all the combinations of at most `k` items of an iterator: those of `k`
/// items in lexicographic order, then those of `k - 1` items, and so on down to the empty
/// combination, after which it stops.
pub struct CombinationsUpTo<I: Itertools> {
    end: bool,
    k: usize,
    orig_iter: I,
    iter: Combinations<I>,
}

/// Create a new `CombinationsUpTo` over the items of `iter`.
pub fn combinations_up_to<I: CloneIter>(iter: I, k: usize) -> (r: CombinationsUpTo<I>)
    requires
        iter.wf(),
    ensures
        r.wf(),
        r.pool() == iter.rest(),
        r.cur_k() == k,
        r.cur_first(),
        !r.at_end(),
{
    CombinationsUpTo { end: false, k, iter: combinations(iter.clone_iter(), k), orig_iter: iter }
}

impl<I: Itertools> CombinationsUpTo<I> {
    /// The items the combinations are drawn from.
    pub closed spec fn pool(&self) -> Seq<I::Item> {
        self.orig_iter.rest()
    }

    /// The length of the combinations currently yielded.
    pub closed spec fn cur_k(&self) -> nat {
        self.k as nat
    }

    /// No combination of the current length has been yielded yet.
    pub closed spec fn cur_first(&self) -> bool {
        self.iter.is_first()
    }

    /// The positions of the combination yielded last.
    pub closed spec fn current(&self) -> Seq<usize> {
        self.iter.current()
    }

    /// The iterator has stopped.
    pub closed spec fn at_end(&self) -> bool {
        self.end
    }

    pub closed spec fn wf(&self) -> bool {
        &&& self.orig_iter.wf()
        &&& self.iter.wf()
        &&& self.iter.pool_all() == self.orig_iter.rest()
        &&& self.iter.k_v() == self.k
        &&& !self.end && self.k == 0 ==> self.iter.is_first()
    }
}

impl<I: CloneIter> CombinationsUpTo<I> where I::Item: Copy {
    /// The next combination, as the vector of its items.
    pub fn next(&mut self) -> (r: Option<Vec<I::Item>>)
        requires
            old(self).wf(),
        ensures
            final(self).wf(),
            final(self).pool() == old(self).pool(),
            old(self).at_end() ==> r is None && final(self).at_end(),
            !old(self).at_end() ==> match comb_step(
                old(self).cur_first(),
                old(self).current(),
                old(self).cur_k(),
                old(self).pool().len(),
            ) {
                Some(idx) => r matches Some(v) && v@ == pick(old(self).pool(), idx)
                    && final(self).at_end() == (idx.len() == 0)
                    && final(self).cur_k() == old(self).cur_k()
                    && final(self).current() == idx && !final(self).cur_first(),
                None => old(self).cur_k() > 0 && final(self).cur_k() == old(self).cur_k() - 1
                    && match comb_step(
                    true,
                    first_comb(final(self).cur_k()),
                    final(self).cur_k(),
                    old(self).pool().len(),
                ) {
                    Some(idx) => r matches Some(v) && v@ == pick(old(self).pool(), idx)
                        && final(self).at_end() == (idx.len() == 0)
                        && final(self).current() == idx && !final(self).cur_first(),
                    None => r is None && final(self).at_end(),
                },
            },
    {
        if self.end {
            None
        } else if let Some(result) = self.iter.next() {
            if result.len() == 0 {
                self.end = true;
            }
            Some(result)
        } else {
            self.k = self.k - 1;
            self.iter = combinations(self.orig_iter.clone_iter(), self.k);
            let result = self.iter.next();
            match &result {
                Some(v) => {
                    if v.len() == 0 {
                        self.end = true;
                    }
                },
                None => {
                    self.end = true;
                },
            }
            result
        }
    }
}

} // verus!
