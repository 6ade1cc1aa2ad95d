//! An iterator over consecutive non-overlapping chunks of `n` items.
use vstd::prelude::*;
use crate::Itertools;
use crate::size_hint::SizeHint;
use crate::array_chunks::{chunks, lemma_chunks_len, div_hint, read_chunk};

verus! {

/// An iterator over consecutive chunks of `n` items of a base iterator; a shorter tail is
/// read and dropped.
pub struct Arrays<I: Itertools> {
    iter: I,
    n: usize,
}

impl<I: Itertools> Arrays<I> {
    /// Create a new `Arrays` over chunks of `n` items.
    pub fn new(iter: I, n: usize) -> (r: Self)
        requires
            iter.wf(),
            n > 0,
        ensures
            r.wf(),
            r.rest() == chunks(iter.rest(), n as nat),
    {
        Arrays { iter, n }
    }

    /// The chunks still to come.
    pub closed spec fn rest(&self) -> Seq<Seq<I::Item>> {
        chunks(self.iter.rest(), self.n as nat)
    }

    pub closed spec fn wf(&self) -> bool {
        self.iter.wf() && self.n > 0
    }

    /// The next chunk, or `None` once fewer than `n` items are left.
    pub fn next(&mut self) -> (r: Option<Vec<I::Item>>)
        requires
            old(self).wf(),
        ensures
            final(self).wf(),
            match r {
                None => old(self).rest().len() == 0 && final(self).rest().len() == 0,
                Some(v) => old(self).rest().len() > 0 && v@ == old(self).rest()[0]
                    && final(self).rest() == old(self).rest().drop_first(),
            },
    {
        let n = self.n;
        let chunk = read_chunk(&mut self.iter, n);
        if chunk.len() == n {
            Some(chunk)
        } else {
            None
        }
    }

    /// The size hint: the base iterator's hint divided by the chunk length.
    pub closed spec fn spec_size_hint(&self) -> SizeHint {
        crate::array_chunks::div_hint_spec(self.iter.spec_size_hint(), self.n)
    }

    /// The bounds of the base iterator, divided by the chunk length.
    pub fn size_hint(&self) -> (r: SizeHint)
        requires
            self.wf(),
        ensures
            crate::size_hint::within(r, self.rest().len() as int),
            r == self.spec_size_hint(),
    {
        proof {
            lemma_chunks_len(self.iter.rest(), self.n as nat);
        }
        div_hint(self.iter.size_hint(), self.n, Ghost(self.iter.rest().len()))
    }
}

} // verus!
