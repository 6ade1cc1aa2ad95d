//! An iterator over consecutive non-overlapping chunks of `n` items, which keeps the short
//! tail.
use vstd::prelude::*;
use crate::{Itertools, VecIter};
use crate::size_hint::SizeHint;

verus! {

/// The consecutive chunks of `n` items of `s`; a shorter tail is left out.
pub open spec fn chunks<T>(s: Seq<T>, n: nat) -> Seq<Seq<T>>
    decreases s.len(),
{
    if n == 0 || s.len() < n {
        Seq::empty()
    } else {
        seq![s.take(n as int)] + chunks(s.skip(n as int), n)
    }
}

/// There are as many chunks as `n` fits into the length.
pub proof fn lemma_chunks_len<T>(s: Seq<T>, n: nat)
    requires
        n > 0,
    ensures
        chunks(s, n).len() == s.len() / n,
    decreases s.len(),
{
    if s.len() < n {
        vstd::arithmetic::div_mod::lemma_basic_div(s.len() as int, n as int);
    } else {
        lemma_chunks_len(s.skip(n as int), n);
        vstd::arithmetic::div_mod::lemma_div_plus_one(s.len() - n, n as int);
        assert(s.len() as int == (s.len() - n) + n);
    }
}

/// The chunks, put back together, followed by the short tail, give the sequence.
pub proof fn lemma_chunks_then_tail<T>(s: Seq<T>, n: nat)
    requires
        n > 0,
    ensures
        crate::concat_impl::flatten_seqs(chunks(s, n)) + s.skip((chunks(s, n).len() * n) as int) == s,
        s.len() - chunks(s, n).len() * n < n,
    decreases s.len(),
{
    let c = chunks(s, n);
    if s.len() < n {
        assert(c.len() == 0);
        assert(c.len() * n == 0) by (nonlinear_arith)
            requires
                c.len() == 0,
        ;
        assert(crate::concat_impl::flatten_seqs(c) =~= Seq::<T>::empty());
        assert(s.skip(0) =~= s);
        assert(Seq::<T>::empty() + s =~= s);
        assert(crate::concat_impl::flatten_seqs(c) + s.skip((c.len() * n) as int) =~= s);
    } else {
        let rest = s.skip(n as int);
        lemma_chunks_then_tail(rest, n);
        let cr = chunks(rest, n);
        assert(c.drop_first() =~= cr);
        assert(c[0] == s.take(n as int));
        assert((c.len() * n) == cr.len() * n + n) by (nonlinear_arith)
            requires
                c.len() == cr.len() + 1,
        ;
        lemma_chunks_len(rest, n);
        let len = rest.len() as int;
        let ni = n as int;
        vstd::arithmetic::div_mod::lemma_fundamental_div_mod(len, ni);
        assert(cr.len() * n <= rest.len()) by (nonlinear_arith)
            requires
                cr.len() as int == len / ni,
                len == ni * (len / ni) + len % ni,
                len % ni >= 0,
                len == rest.len(),
                ni == n,
        ;
        assert(s.skip((c.len() * n) as int) =~= rest.skip((cr.len() * n) as int));
        assert(s =~= s.take(n as int) + rest);
        assert(crate::concat_impl::flatten_seqs(c) == c[0] + crate::concat_impl::flatten_seqs(cr));
        assert(crate::concat_impl::flatten_seqs(c) + s.skip((c.len() * n) as int) =~= s.take(n as int) + (
            crate::concat_impl::flatten_seqs(cr) + rest.skip((cr.len() * n) as int)));
        assert(crate::concat_impl::flatten_seqs(c) + s.skip((c.len() * n) as int) =~= s);
    }
}

/// Both bounds of a size hint divided by `n`, as `div_hint` computes it.
pub open spec fn div_hint_spec(sh: (usize, Option<usize>), n: usize) -> (usize, Option<usize>) {
    (
        (sh.0 / n) as usize,
        match sh.1 {
            Some(h) => Some((h / n) as usize),
            None => None,
        },
    )
}

/// Size hints of chunk counts: both bounds divided by `n`.
pub(crate) fn div_hint(sh: SizeHint, n: usize, len: Ghost<nat>) -> (r: SizeHint)
    requires
        n > 0,
        crate::size_hint::within(sh, len@ as int),
    ensures
        crate::size_hint::within(r, (len@ / (n as nat)) as int),
        r == div_hint_spec(sh, n),
{
    let (lo, hi) = sh;
    let lo2 = lo / n;
    let hi2 = match hi {
        Some(h) => Some(h / n),
        None => None,
    };
    proof {
        vstd::arithmetic::div_mod::lemma_div_is_ordered(lo as int, len@ as int, n as int);
        if hi is Some {
            vstd::arithmetic::div_mod::lemma_div_is_ordered(len@ as int, hi.unwrap() as int, n as int);
        }
    }
    (lo2, hi2)
}

/// Read up to `n` items: all `n` of them in order, or, when fewer are left, all that are
/// left.
pub(crate) fn read_chunk<I: Itertools>(iter: &mut I, n: usize) -> (r: Vec<I::Item>)
    requires
        old(iter).wf(),
    ensures
        final(iter).wf(),
        old(iter).rest().len() >= n ==> r@ == old(iter).rest().take(n as int) && final(iter).rest()
            == old(iter).rest().skip(n as int),
        old(iter).rest().len() < n ==> r@ == old(iter).rest() && final(iter).rest().len() == 0,
{
    let ghost all = iter.rest();
    let mut builder: Vec<I::Item> = Vec::new();
    while builder.len() < n
        invariant_except_break
            iter.wf(),
            builder.len() <= n,
            all == old(iter).rest(),
            all == builder@ + iter.rest(),
        ensures
            iter.wf(),
            all == builder@ + iter.rest(),
            builder.len() == n || iter.rest().len() == 0,
            builder.len() <= n,
        decreases n - builder.len(),
    {
        match iter.next() {
            Some(x) => {
                proof {
                    assert(builder@.push(x) + iter.rest() =~= builder@ + old_rest(x, iter.rest()));
                }
                builder.push(x);
            },
            None => {
                break;
            },
        }
    }
    proof {
        if builder.len() == n {
            assert(all.take(n as int) =~= builder@);
            assert(all.skip(n as int) =~= iter.rest());
        } else {
            assert(all =~= builder@);
        }
    }
    builder
}

spec fn old_rest<T>(x: T, rest: Seq<T>) -> Seq<T> {
    seq![x] + rest
}

/// An iterator over consecutive chunks of `n` items of a base iterator. A shorter tail is not
/// yielded; it stays available through `remainder`.
pub struct ArrayChunks<I: Itertools> {
    iter: I,
    partial: Vec<I::Item>,
    n: usize,
}

impl<I: Itertools> ArrayChunks<I> {
    /// Create a new `ArrayChunks` over chunks of `n` items.
    pub fn new(iter: I, n: usize) -> (r: Self)
        requires
            iter.wf(),
            n > 0,
        ensures
            r.wf(),
            r.rest() == chunks(iter.rest(), n as nat),
            r.leftover() == iter.rest(),
            r.chunk_len() == n,
    {
        ArrayChunks { iter, partial: Vec::new(), n }
    }

    /// The length of the chunks.
    pub closed spec fn chunk_len(&self) -> nat {
        self.n as nat
    }

    /// The items that `remainder` gives back: the short tail once it has been read, and the
    /// items not read yet.
    pub closed spec fn leftover(&self) -> Seq<I::Item> {
        self.partial@ + self.iter.rest()
    }

    /// The items that did not fill a chunk, followed by those not read yet.
    pub fn remainder(self) -> (r: Remainder<I>)
        requires
            self.wf(),
        ensures
            r.wf(),
            r.rest() == self.leftover(),
    {
        Remainder { front: VecIter::new(self.partial), back: self.iter }
    }
}

impl<I: Itertools> ArrayChunks<I> {
    /// The chunks still to come.
    pub closed spec fn rest(&self) -> Seq<Seq<I::Item>> {
        if self.partial@.len() > 0 {
            Seq::empty()
        } else {
            chunks(self.iter.rest(), self.n as nat)
        }
    }

    pub closed spec fn wf(&self) -> bool {
        &&& self.iter.wf()
        &&& self.n > 0
        &&& self.partial@.len() > 0 ==> self.iter.rest().len() == 0 && self.partial@.len() < self.n
    }

    /// The next chunk; `None` once fewer than `n` items are left, which then stay for
    /// `remainder`.
    pub fn next(&mut self) -> (r: Option<Vec<I::Item>>)
        requires
            old(self).wf(),
        ensures
            final(self).wf(),
            final(self).chunk_len() == old(self).chunk_len(),
            match r {
                None => old(self).rest().len() == 0 && final(self).rest().len() == 0
                    && final(self).leftover() == old(self).leftover(),
                Some(v) => old(self).rest().len() > 0 && v@ == old(self).rest()[0]
                    && final(self).rest() == old(self).rest().drop_first()
                    && final(self).leftover() == old(self).leftover().skip(old(self).chunk_len() as int),
            },
    {
        if self.partial.len() > 0 {
            return None;
        }
        let ghost s = self.iter.rest();
        proof {
            assert(self.partial@ + s =~= s);
        }
        let n = self.n;
        let chunk = read_chunk(&mut self.iter, n);
        if chunk.len() == n {
            proof {
                assert(self.partial@ + self.iter.rest() =~= self.iter.rest());
            }
            Some(chunk)
        } else {
            self.partial = chunk;
            proof {
                assert(self.partial@ + self.iter.rest() =~= s);
            }
            None
        }
    }

    /// The size hint: none left once a short chunk has been read, else the base iterator's
    /// hint divided by the chunk size.
    pub closed spec fn spec_size_hint(&self) -> (usize, Option<usize>) {
        if self.partial.len() > 0 {
            (0, Some(0))
        } else {
            div_hint_spec(self.iter.spec_size_hint(), self.n)
        }
    }

    /// The bounds of the base iterator, divided by the chunk length.
    pub fn size_hint(&self) -> (r: SizeHint)
        requires
            self.wf(),
        ensures
            crate::size_hint::within(r, self.rest().len() as int),
            r == self.spec_size_hint(),
    {
        proof {
            lemma_chunks_len(self.iter.rest(), self.n as nat);
        }
        if self.partial.len() > 0 {
            return (0, Some(0));
        }
        div_hint(self.iter.size_hint(), self.n, Ghost(self.iter.rest().len()))
    }
}

/// The items of a vector, then those of an iterator.
pub struct Remainder<I: Itertools> {
    front: VecIter<I::Item>,
    back: I,
}

impl<I: Itertools> Itertools for Remainder<I> {
    type Item = I::Item;

    closed spec fn rest(&self) -> Seq<I::Item> {
        self.front.rest() + self.back.rest()
    }

    closed spec fn wf(&self) -> bool {
        self.front.wf() && self.back.wf()
    }

    fn next(&mut self) -> (r: Option<I::Item>) {
        match self.front.next() {
            Some(x) => {
                proof {
                    assert(self.rest() =~= old(self).rest().drop_first());
                }
                Some(x)
            },
            None => {
                proof {
                    assert(old(self).rest() =~= self.back.rest());
                }
                let r = self.back.next();
                proof {
                    assert(self.rest() =~= self.back.rest());
                }
                r
            },
        }
    }

    closed spec fn spec_size_hint(&self) -> (usize, Option<usize>) {
        crate::size_hint::add_spec(self.front.spec_size_hint(), self.back.spec_size_hint())
    }

    fn size_hint(&self) -> (r: SizeHint) {
        let r = crate::size_hint::add(self.front.size_hint(), self.back.size_hint());
        assert(r == self.spec_size_hint());
        r
    }
}

} // verus!
