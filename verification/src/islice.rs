//! An adaptor that yields a slice of the items of an iterator.
use vstd::prelude::*;
use crate::Itertools;
use crate::size_hint::{self, SizeHint};

verus! {

/// The items of `s` at positions `start .. end`, as far as `s` reaches.
pub open spec fn slice_seq<T>(s: Seq<T>, start: nat, end: nat) -> Seq<T> {
    if s.len() <= start {
        Seq::empty()
    } else {
        s.subrange(start as int, if end <= s.len() { end as int } else { s.len() as int })
    }
}

/// An iterator adaptor that yields a subset (a slice) of the base iterator.
pub struct ISlice<I> {
    start: usize,
    end: usize,
    iter: I,
}

impl<I: Itertools> ISlice<I> {
    /// Create a new `ISlice` over the positions `start .. end` of `iter`; a missing start is
    /// zero, a missing end is `usize::MAX`.
    pub fn new(iter: I, start: Option<usize>, end: Option<usize>) -> (r: Self)
        requires
            iter.wf(),
            start.unwrap_or(0) <= end.unwrap_or(usize::MAX),
        ensures
            r.wf(),
            r.rest() == slice_seq(
                iter.rest(),
                start.unwrap_or(0) as nat,
                end.unwrap_or(usize::MAX) as nat,
            ),
    {
        ISlice {
            start: match start {
                Some(s) => s,
                None => 0,
            },
            end: match end {
                Some(e) => e,
                None => usize::MAX,
            },
            iter,
        }
    }
}

impl<I: Itertools> Itertools for ISlice<I> {
    type Item = I::Item;

    closed spec fn rest(&self) -> Seq<I::Item> {
        slice_seq(self.iter.rest(), self.start as nat, self.end as nat)
    }

    closed spec fn wf(&self) -> bool {
        self.iter.wf() && self.start <= self.end
    }

    fn next(&mut self) -> (r: Option<I::Item>) {
        if self.start != 0 {
            let st = self.start;
            let n = self.iter.dropn(self.start);
            self.start = 0;
            self.end = self.end - n;
            if n != st {
                return None;
            }
            proof {
                let s = old(self).iter.rest();
                assert(slice_seq(self.iter.rest(), 0, self.end as nat) =~= old(self).rest());
            }
        }
        if self.end != 0 {
            let ghost before = self.rest();
            self.end = self.end - 1;
            let r = self.iter.next();
            proof {
                if r is Some {
                    assert(self.rest() =~= before.drop_first());
                }
            }
            r
        } else {
            None
        }
    }

    closed spec fn spec_size_hint(&self) -> (usize, Option<usize>) {
        crate::size_hint::min_spec(crate::size_hint::sub_scalar_spec(self.iter.spec_size_hint(), self.start), ((self.end - self.start) as usize, Some((self.end - self.start) as usize)))
    }

    fn size_hint(&self) -> (r: SizeHint) {
        let len = self.end - self.start;
        let r = size_hint::min(size_hint::sub_scalar(self.iter.size_hint(), self.start), (len, Some(len)));
        assert(r == self.spec_size_hint());
        r
    }
}

} // verus!
