//! A buffer that pulls items from an iterator only when they are asked for.
use vstd::prelude::*;
use crate::Itertools;
use crate::size_hint::{self, SizeHint};

verus! {

/// The items read so far from an iterator, with the iterator they came from.
pub struct LazyBuffer<I: Itertools> {
    it: I,
    buffer: Vec<I::Item>,
}

impl<I: Itertools> LazyBuffer<I> {
    /// The items read so far.
    pub closed spec fn buf(&self) -> Seq<I::Item> {
        self.buffer@
    }

    /// The items not read yet.
    pub closed spec fn unread(&self) -> Seq<I::Item> {
        self.it.rest()
    }

    /// The items read so far are held in memory: their number is a `usize`.
    pub proof fn lemma_buf_len_fits(&self)
        ensures
            self.buf().len() <= usize::MAX,
    {
        assert(self.buffer.len() == self.buffer@.len());
    }

    /// Every item of the pool: those read so far, then those still to come.
    pub open spec fn all(&self) -> Seq<I::Item> {
        self.buf() + self.unread()
    }

    pub closed spec fn wf(&self) -> bool {
        self.it.wf()
    }

    /// A buffer over `it` with nothing read yet.
    pub fn new(it: I) -> (r: Self)
        requires
            it.wf(),
        ensures
            r.wf(),
            r.buf() == Seq::<I::Item>::empty(),
            r.unread() == it.rest(),
    {
        LazyBuffer { it, buffer: Vec::new() }
    }

    /// The number of items read so far.
    pub fn len(&self) -> (r: usize)
        ensures
            r == self.buf().len(),
    {
        self.buffer.len()
    }

    /// Bounds on the number of items of the whole pool.
    /// The size hint of the source with the items read so far added.
    pub closed spec fn spec_size_hint(&self) -> SizeHint {
        size_hint::add_scalar_spec(self.it.spec_size_hint(), self.buffer.len())
    }

    pub fn size_hint(&self) -> (r: SizeHint)
        requires
            self.wf(),
        ensures
            r == self.spec_size_hint(),
            size_hint::within(r, self.all().len() as int),
            r.0 >= self.buf().len(),
            r.1 matches Some(h) ==> h >= self.buf().len(),
    {
        size_hint::add_scalar(self.it.size_hint(), self.buffer.len())
    }

    /// The underlying iterator.
    pub fn source(&self) -> (r: &I)
        ensures
            r.rest() == self.unread(),
    {
        &self.it
    }

    /// The number of items of the whole pool.
    pub fn count(self) -> (r: usize)
        requires
            self.wf(),
            self.all().len() <= usize::MAX,
        ensures
            r == self.all().len(),
    {
        let mut it = self.it;
        let mut n = self.buffer.len();
        loop
            invariant
                it.wf(),
                n + it.rest().len() == self.all().len(),
                self.all().len() <= usize::MAX,
            decreases it.rest().len(),
        {
            match it.next() {
                Some(_) => {
                    n = n + 1;
                },
                None => {
                    return n;
                },
            }
        }
    }

    /// Read one more item into the buffer; return `false` when there is none.
    pub fn get_next(&mut self) -> (r: bool)
        requires
            old(self).wf(),
        ensures
            final(self).wf(),
            final(self).all() == old(self).all(),
            r == (old(self).unread().len() > 0),
            r ==> final(self).buf().len() == old(self).buf().len() + 1,
            !r ==> final(self).buf() == old(self).buf(),
    {
        match self.it.next() {
            Some(x) => {
                self.buffer.push(x);
                proof {
                    assert(self.all() =~= old(self).all());
                }
                true
            },
            None => false,
        }
    }

    /// Read items until the buffer holds `len` of them, or the pool is exhausted.
    pub fn prefill(&mut self, len: usize)
        requires
            old(self).wf(),
        ensures
            final(self).wf(),
            final(self).all() == old(self).all(),
            final(self).buf().len() == if old(self).buf().len() >= len {
                old(self).buf().len() as int
            } else if old(self).all().len() >= len {
                len as int
            } else {
                old(self).all().len() as int
            },
    {
        while self.buffer.len() < len
            invariant
                self.wf(),
                self.all() == old(self).all(),
                old(self).buf().len() <= self.buf().len(),
                old(self).buf().len() >= len ==> self.buf() == old(self).buf(),
                self.buf().len() <= len || self.buf() == old(self).buf(),
            decreases len - self.buffer.len(),
        {
            if !self.get_next() {
                return;
            }
        }
    }

    /// A reference to the item at index `i` of the buffer.
    pub fn get(&self, i: usize) -> (r: &I::Item)
        requires
            i < self.buf().len(),
        ensures
            *r == self.buf()[i as int],
    {
        &self.buffer[i]
    }
}

impl<I: Itertools> LazyBuffer<I> where I::Item: Copy {
    /// The buffered items at the given indices.
    pub fn get_at(&self, indices: &[usize]) -> (r: Vec<I::Item>)
        requires
            forall|j: int| 0 <= j < indices@.len() ==> indices@[j] < self.buf().len(),
        ensures
            r@ == indices@.map_values(|i: usize| self.buf()[i as int]),
    {
        let mut r: Vec<I::Item> = Vec::new();
        let mut j: usize = 0;
        while j < indices.len()
            invariant
                j <= indices@.len(),
                forall|m: int| 0 <= m < indices@.len() ==> indices@[m] < self.buf().len(),
                r@ == indices@.take(j as int).map_values(|i: usize| self.buf()[i as int]),
            decreases indices@.len() - j,
        {
            let x = self.buffer[indices[j]];
            proof {
                assert(indices@.take(j + 1) =~= indices@.take(j as int).push(indices@[j as int]));
            }
            r.push(x);
            j = j + 1;
            proof {
                assert(r@ =~= indices@.take(j as int).map_values(|i: usize| self.buf()[i as int]));
            }
        }
        proof {
            assert(indices@.take(j as int) =~= indices@);
        }
        r
    }
}


/// A length known either when the program runs or from the type.
pub trait MaybeConstUsize: Copy {
    spec fn spec_value(self) -> nat;

    /// The length.
    fn value(self) -> (r: usize)
        ensures
            r == self.spec_value(),
    ;
}

/// The length `N`, carried by the type.
#[derive(Clone, Copy, Debug)]
pub struct ConstUsize<const N: usize>;

impl<const N: usize> MaybeConstUsize for ConstUsize<N> {
    open spec fn spec_value(self) -> nat {
        N as nat
    }

    fn value(self) -> (r: usize) {
        N
    }
}

impl MaybeConstUsize for usize {
    open spec fn spec_value(self) -> nat {
        self as nat
    }

    fn value(self) -> (r: usize) {
        self
    }
}

} // verus!
