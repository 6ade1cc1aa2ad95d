//! Enumerating the items of an iterator from a chosen starting index.
use vstd::prelude::*;
use crate::Itertools;
use crate::size_hint::SizeHint;

verus! {

/// Each item of `s` paired with its position, counted from `start`.
pub open spec fn enumerate_seq<T>(start: int, s: Seq<T>) -> Seq<(usize, T)> {
    Seq::new(s.len(), |k: int| ((start + k) as usize, s[k]))
}

/// An iterator adaptor that pairs the items with their index, counted from a starting value.
pub struct EnumerateFrom<I> {
    index: usize,
    iter: I,
}

impl<I: Itertools> EnumerateFrom<I> {
    /// Create a new `EnumerateFrom`. The last index must fit in a `usize`, and so must the
    /// index after it.
    pub fn new(iter: I, start: usize) -> (r: Self)
        requires
            iter.wf(),
            start + iter.rest().len() <= usize::MAX,
        ensures
            r.wf(),
            r.rest() == enumerate_seq(start as int, iter.rest()),
    {
        EnumerateFrom { index: start, iter }
    }
}

impl<I: Itertools> Itertools for EnumerateFrom<I> {
    type Item = (usize, I::Item);

    closed spec fn rest(&self) -> Seq<(usize, I::Item)> {
        enumerate_seq(self.index as int, self.iter.rest())
    }

    closed spec fn wf(&self) -> bool {
        &&& self.iter.wf()
        &&& self.index + self.iter.rest().len() <= usize::MAX
    }

    fn next(&mut self) -> (r: Option<(usize, I::Item)>) {
        match self.iter.next() {
            None => None,
            Some(elt) => {
                let index = self.index;
                self.index = self.index + 1;
                proof {
                    assert(self.rest() =~= old(self).rest().drop_first());
                }
                Some((index, elt))
            },
        }
    }

    closed spec fn spec_size_hint(&self) -> (usize, Option<usize>) {
        self.iter.spec_size_hint()
    }

    fn size_hint(&self) -> (r: SizeHint) {
        let r = self.iter.size_hint();
        assert(r == self.spec_size_hint());
        r
    }
}

} // verus!
