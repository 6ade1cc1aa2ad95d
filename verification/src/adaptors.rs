//! Iterator adaptors: interleaving, putting items back, stepping, peeking ahead.
use vstd::prelude::*;
use crate::Itertools;
use crate::size_hint::{self, SizeHint};

pub mod product;
pub mod pairs;
pub mod take_while_ref;
pub mod enumerate_from;
pub mod coalesce;
pub mod fn_map;
pub mod merge;
pub mod group_by;
pub mod batching;
pub mod multi_product;
pub mod map_special;

verus! {

/// `x` and `y` alternately, starting with `x`; when one runs out, the rest of the other.
pub open spec fn alternate<T>(x: Seq<T>, y: Seq<T>) -> Seq<T>
    decreases x.len() + y.len(),
{
    if x.len() == 0 {
        y
    } else {
        seq![x[0]] + alternate(y, x.drop_first())
    }
}

/// The length of an alternation is the sum of the lengths.
pub proof fn lemma_alternate_len<T>(x: Seq<T>, y: Seq<T>)
    ensures
        alternate(x, y).len() == x.len() + y.len(),
    decreases x.len() + y.len(),
{
    if x.len() > 0 {
        lemma_alternate_len(y, x.drop_first());
    }
}

/// Alternating with nothing leaves a sequence as it is.
pub proof fn lemma_alternate_empty<T>(x: Seq<T>)
    ensures
        alternate(x, Seq::<T>::empty()) == x,
{
    if x.len() > 0 {
        assert(alternate(Seq::<T>::empty(), x.drop_first()) == x.drop_first());
        assert(seq![x[0]] + x.drop_first() =~= x);
    }
}

/// An iterator adaptor that alternates items from two iterators until both run out.
pub struct Interleave<I, J> {
    a: I,
    b: J,
    flag: bool,
}

impl<I: Itertools, J: Itertools<Item = I::Item>> Interleave<I, J> {
    /// Create a new `Interleave` iterator.
    pub fn new(a: I, b: J) -> (r: Self)
        requires
            a.wf(),
            b.wf(),
        ensures
            r.wf(),
            r.rest() == alternate(a.rest(), b.rest()),
    {
        Interleave { a, b, flag: false }
    }
}

impl<I: Itertools, J: Itertools<Item = I::Item>> Itertools for Interleave<I, J> {
    type Item = I::Item;

    closed spec fn rest(&self) -> Seq<I::Item> {
        if self.flag {
            alternate(self.b.rest(), self.a.rest())
        } else {
            alternate(self.a.rest(), self.b.rest())
        }
    }

    closed spec fn wf(&self) -> bool {
        self.a.wf() && self.b.wf()
    }

    fn next(&mut self) -> (r: Option<I::Item>) {
        self.flag = !self.flag;
        if self.flag {
            match self.a.next() {
                None => {
                    let r = self.b.next();
                    proof {
                        assert(self.a.rest() =~= Seq::<I::Item>::empty());
                        lemma_alternate_empty(self.b.rest());
                    }
                    r
                },
                r => r,
            }
        } else {
            match self.b.next() {
                None => {
                    let r = self.a.next();
                    proof {
                        assert(self.b.rest() =~= Seq::<I::Item>::empty());
                        lemma_alternate_empty(self.a.rest());
                    }
                    r
                },
                r => r,
            }
        }
    }

    closed spec fn spec_size_hint(&self) -> (usize, Option<usize>) {
        crate::size_hint::add_spec(self.a.spec_size_hint(), self.b.spec_size_hint())
    }

    fn size_hint(&self) -> (r: SizeHint) {
        proof {
            lemma_alternate_len(self.a.rest(), self.b.rest());
            lemma_alternate_len(self.b.rest(), self.a.rest());
        }
        let r = size_hint::add(self.a.size_hint(), self.b.size_hint());
        assert(r == self.spec_size_hint());
        r
    }
}

/// The items of an optional value: none or one.
pub open spec fn opt_seq<T>(o: Option<T>) -> Seq<T> {
    match o {
        Some(x) => seq![x],
        None => Seq::empty(),
    }
}

/// An iterator adaptor that allows putting back a single item to the front of the iterator.
pub struct PutBack<I: Itertools> {
    top: Option<I::Item>,
    iter: I,
}

impl<I: Itertools> PutBack<I> {
    /// The items of the underlying iterator, without the one put back.
    pub closed spec fn inner_rest(&self) -> Seq<I::Item> {
        self.iter.rest()
    }

    /// Wrap `it`, with no item put back.
    pub fn new(it: I) -> (r: Self)
        requires
            it.wf(),
        ensures
            r.wf(),
            r.rest() == it.rest(),
            r.inner_rest() == it.rest(),
    {
        PutBack { top: None, iter: it }
    }

    /// Wrap `it`, with `value` put back in front of it.
    pub fn value(value: I::Item, it: I) -> (r: Self)
        requires
            it.wf(),
        ensures
            r.wf(),
            r.rest() == seq![value] + it.rest(),
            r.inner_rest() == it.rest(),
    {
        PutBack { top: Some(value), iter: it }
    }

    /// Put back a single value to the front of the iterator.
    ///
    /// If a value is already in the put back slot, it is overwritten.
    pub fn put_back(&mut self, x: I::Item)
        requires
            old(self).wf(),
        ensures
            final(self).wf(),
            final(self).rest() == seq![x] + old(self).inner_rest(),
            final(self).inner_rest() == old(self).inner_rest(),
    {
        self.top = Some(x);
    }

    /// Like `next`; afterwards nothing is put back.
    pub(crate) fn pull(&mut self) -> (r: Option<I::Item>)
        requires
            old(self).wf(),
        ensures
            final(self).wf(),
            final(self).inner_rest() == final(self).rest(),
            match r {
                None => old(self).rest().len() == 0 && final(self).rest().len() == 0,
                Some(x) => old(self).rest().len() > 0 && x == old(self).rest()[0]
                    && final(self).rest() == old(self).rest().drop_first(),
            },
    {
        let r = match self.top.take() {
            None => self.iter.next(),
            some => some,
        };
        proof {
            assert(self.rest() =~= self.iter.rest());
            if old(self).top is Some {
                assert(self.rest() =~= old(self).rest().drop_first());
            }
        }
        r
    }

    /// The item put back, if any, and the underlying iterator.
    pub fn into_parts(self) -> (r: (Option<I::Item>, I))
        requires
            self.wf(),
        ensures
            r.1.wf(),
            opt_seq(r.0) + r.1.rest() == self.rest(),
            r.1.rest() == self.inner_rest(),
    {
        (self.top, self.iter)
    }
}

impl<I: Itertools> Itertools for PutBack<I> {
    type Item = I::Item;

    closed spec fn rest(&self) -> Seq<I::Item> {
        opt_seq(self.top) + self.iter.rest()
    }

    closed spec fn wf(&self) -> bool {
        self.iter.wf()
    }

    fn next(&mut self) -> (r: Option<I::Item>) {
        match self.top.take() {
            None => self.iter.next(),
            some => {
                proof {
                    assert(self.rest() =~= old(self).rest().drop_first());
                }
                some
            },
        }
    }

    closed spec fn spec_size_hint(&self) -> (usize, Option<usize>) {
        crate::size_hint::add_scalar_spec(self.iter.spec_size_hint(), if self.top is Some { 1usize } else { 0usize })
    }

    fn size_hint(&self) -> (r: SizeHint) {
        let extra: usize = if self.top.is_some() { 1 } else { 0 };
        let r = size_hint::add_scalar(self.iter.size_hint(), extra);
        assert(r == self.spec_size_hint());
        r
    }
}

/// An iterator adaptor that allows putting multiple items in front of the iterator.
pub struct PutBackN<I: Itertools> {
    top: Vec<I::Item>,
    iter: I,
}

impl<I: Itertools> PutBackN<I> {
    /// Wrap `it`, with nothing put back.
    pub fn new(it: I) -> (r: Self)
        requires
            it.wf(),
        ensures
            r.wf(),
            r.rest() == it.rest(),
    {
        let r = PutBackN { top: Vec::new(), iter: it };
        assert(r.top@.reverse() =~= Seq::<I::Item>::empty());
        assert(r.rest() =~= it.rest());
        r
    }

    /// Puts `x` in front of the iterator. The values are yielded in the reverse order of
    /// putting them back: the last one put back comes first.
    pub fn put_back(&mut self, x: I::Item)
        requires
            old(self).wf(),
        ensures
            final(self).wf(),
            final(self).rest() == seq![x] + old(self).rest(),
    {
        self.top.push(x);
        proof {
            assert(self.top@.reverse() =~= seq![x] + old(self).top@.reverse());
            assert(self.rest() =~= seq![x] + old(self).rest());
        }
    }
}

impl<I: Itertools> Itertools for PutBackN<I> {
    type Item = I::Item;

    closed spec fn rest(&self) -> Seq<I::Item> {
        self.top@.reverse() + self.iter.rest()
    }

    closed spec fn wf(&self) -> bool {
        self.iter.wf()
    }

    fn next(&mut self) -> (r: Option<I::Item>) {
        if self.top.len() == 0 {
            proof {
                assert(self.top@.reverse() =~= Seq::<I::Item>::empty());
                assert(self.rest() =~= self.iter.rest());
            }
            let r = self.iter.next();
            proof {
                assert(self.top@.reverse() =~= Seq::<I::Item>::empty());
                assert(self.rest() =~= self.iter.rest());
            }
            r
        } else {
            let r = self.top.pop();
            proof {
                assert(old(self).top@.reverse() =~= seq![r.unwrap()] + self.top@.reverse());
                assert(self.rest() =~= old(self).rest().drop_first());
            }
            r
        }
    }

    closed spec fn spec_size_hint(&self) -> (usize, Option<usize>) {
        crate::size_hint::add_scalar_spec(self.iter.spec_size_hint(), self.top.len())
    }

    fn size_hint(&self) -> (r: SizeHint) {
        let r = size_hint::add_scalar(self.iter.size_hint(), self.top.len());
        assert(r == self.spec_size_hint());
        r
    }
}

/// The items of `s` at the positions `0, m, 2m, ..`.
pub open spec fn step_seq<T>(s: Seq<T>, m: nat) -> Seq<T>
    decreases s.len(),
{
    if s.len() == 0 || m == 0 {
        Seq::empty()
    } else {
        seq![s[0]] + step_seq(s.subrange(if m <= s.len() { m as int } else { s.len() as int }, s.len() as int), m)
    }
}

/// The number of items that stepping by `m` through `len` items yields.
pub open spec fn step_count(len: nat, m: nat) -> nat {
    if len == 0 || m == 0 {
        0
    } else {
        (1 + (len - 1) / (m as int)) as nat
    }
}

pub proof fn lemma_step_len<T>(s: Seq<T>, m: nat)
    requires
        m > 0,
    ensures
        step_seq(s, m).len() == step_count(s.len(), m),
    decreases s.len(),
{
    if s.len() > 0 {
        let k = if m <= s.len() { m as int } else { s.len() as int };
        let t = s.subrange(k, s.len() as int);
        lemma_step_len(t, m);
        if m <= s.len() {
            assert(step_count(s.len(), m) == 1 + step_count(t.len(), m)) by {
                if t.len() == 0 {
                    assert((s.len() - 1) / (m as int) == 0) by (nonlinear_arith)
                        requires
                            s.len() == m,
                            m > 0,
                    ;
                } else {
                    assert((s.len() - 1) / (m as int) == 1 + (t.len() - 1) / (m as int))
                        by (nonlinear_arith)
                        requires
                            t.len() == s.len() - m,
                            m > 0,
                            t.len() > 0,
                    ;
                }
            }
        } else {
            assert((s.len() - 1) / (m as int) == 0) by (nonlinear_arith)
                requires
                    s.len() < m,
                    s.len() > 0,
            ;
        }
    }
}

/// `step_count` grows with the length.
pub proof fn lemma_step_count_mono(a: nat, b: nat, m: nat)
    requires
        a <= b,
        m > 0,
    ensures
        step_count(a, m) <= step_count(b, m),
{
    if a > 0 {
        assert((a - 1) / (m as int) <= (b - 1) / (m as int)) by (nonlinear_arith)
            requires
                a <= b,
                a > 0,
                m > 0,
        ;
    }
}

/// An iterator adaptor that yields the first item of the base iterator, then skips forward
/// `step - 1` items, and so on.
pub struct Step<I> {
    iter: I,
    skip: usize,
}

impl<I: Itertools> Step<I> {
    /// Create a `Step` iterator. The step must be at least one.
    pub fn new(iter: I, step: usize) -> (r: Self)
        requires
            iter.wf(),
            step != 0,
        ensures
            r.wf(),
            r.rest() == step_seq(iter.rest(), step as nat),
    {
        Step { iter, skip: step - 1 }
    }

    fn div(&self, x: usize) -> (r: usize)
        requires
            self.skip < usize::MAX,
        ensures
            r == step_count(x as nat, (self.skip + 1) as nat),
    {
        if x == 0 {
            0
        } else {
            1 + (x - 1) / (self.skip + 1)
        }
    }
}

impl<I: Itertools> Itertools for Step<I> {
    type Item = I::Item;

    closed spec fn rest(&self) -> Seq<I::Item> {
        step_seq(self.iter.rest(), (self.skip + 1) as nat)
    }

    closed spec fn wf(&self) -> bool {
        self.iter.wf() && self.skip < usize::MAX
    }

    fn next(&mut self) -> (r: Option<I::Item>) {
        let elt = self.iter.next();
        match elt {
            Some(x) => {
                let ghost s = old(self).iter.rest();
                let ghost m = (self.skip + 1) as nat;
                self.iter.dropn(self.skip);
                proof {
                    let k = if m <= s.len() { m as int } else { s.len() as int };
                    assert(self.iter.rest() =~= s.subrange(k, s.len() as int));
                }
                Some(x)
            },
            None => None,
        }
    }

    closed spec fn spec_size_hint(&self) -> (usize, Option<usize>) {
        (step_count(self.iter.spec_size_hint().0 as nat, (self.skip + 1) as nat) as usize, match self.iter.spec_size_hint().1 {
            Some(h) => Some(step_count(h as nat, (self.skip + 1) as nat) as usize),
            None => None,
        })
    }

    fn size_hint(&self) -> (r: SizeHint) {
        let (low, high) = self.iter.size_hint();
        proof {
            lemma_step_len(self.iter.rest(), (self.skip + 1) as nat);
            lemma_step_count_mono(low as nat, self.iter.rest().len(), (self.skip + 1) as nat);
        }
        let hi = match high {
            Some(h) => {
                proof {
                    lemma_step_count_mono(self.iter.rest().len(), h as nat, (self.skip + 1) as nat);
                }
                Some(self.div(h))
            },
            None => None,
        };
        let r = (self.div(low), hi);
        assert(r == self.spec_size_hint());
        r
    }
}

/// An iterator adaptor that allows peeking at multiple items ahead without advancing.
pub struct MultiPeek<I: Itertools> {
    iter: I,
    buf: Vec<I::Item>,
    index: usize,
}

impl<I: Itertools> MultiPeek<I> {
    /// How many items `peek` has looked at since the last `next`.
    pub closed spec fn peek_index(&self) -> nat {
        self.index as nat
    }

    /// Create a `MultiPeek` iterator.
    pub fn new(iter: I) -> (r: Self)
        requires
            iter.wf(),
        ensures
            r.wf(),
            r.rest() == iter.rest(),
            r.peek_index() == 0,
    {
        let r = MultiPeek { iter, buf: Vec::new(), index: 0 };
        assert(r.rest() =~= iter.rest());
        r
    }

    /// Like `next`, but without advancing: each call looks one item further ahead.
    pub fn peek(&mut self) -> (r: Option<&I::Item>)
        requires
            old(self).wf(),
        ensures
            final(self).wf(),
            final(self).rest() == old(self).rest(),
            old(self).peek_index() < old(self).rest().len() ==> (r matches Some(x)
                && *x == old(self).rest()[old(self).peek_index() as int]
                && final(self).peek_index() == old(self).peek_index() + 1),
            old(self).peek_index() >= old(self).rest().len() ==> r is None
                && final(self).peek_index() == old(self).peek_index(),
    {
        if self.index < self.buf.len() {
            self.index = self.index + 1;
            return Some(&self.buf[self.index - 1]);
        }
        match self.iter.next() {
            Some(x) => {
                self.buf.push(x);
                proof {
                    assert(self.rest() =~= old(self).rest());
                    assert(self.index == self.buf@.len() - 1);
                }
                self.index = self.buf.len();
                Some(&self.buf[self.index - 1])
            },
            None => None,
        }
    }
}

impl<I: Itertools> Itertools for MultiPeek<I> {
    type Item = I::Item;

    closed spec fn rest(&self) -> Seq<I::Item> {
        self.buf@ + self.iter.rest()
    }

    closed spec fn wf(&self) -> bool {
        self.iter.wf() && self.index <= self.buf@.len()
    }

    /// The peeking cursor is reset: the next `peek` looks at the first remaining item.
    fn next(&mut self) -> (r: Option<I::Item>)
        ensures
            final(self).peek_index() == 0,
    {
        self.index = 0;
        if self.buf.len() == 0 {
            proof {
                assert(self.rest() =~= self.iter.rest());
            }
            let r = self.iter.next();
            proof {
                assert(self.rest() =~= self.iter.rest());
            }
            r
        } else {
            let x = self.buf.remove(0);
            proof {
                assert(self.rest() =~= old(self).rest().drop_first());
            }
            Some(x)
        }
    }

    closed spec fn spec_size_hint(&self) -> (usize, Option<usize>) {
        crate::size_hint::add_scalar_spec(self.iter.spec_size_hint(), self.buf.len())
    }

    fn size_hint(&self) -> (r: SizeHint) {
        let r = size_hint::add_scalar(self.iter.size_hint(), self.buf.len());
        assert(r == self.spec_size_hint());
        r
    }
}

} // verus!
