//! Taking a range of positions out of an iterator.
use vstd::prelude::*;
use core::cmp::Ordering;
use core::ops::{Range, RangeInclusive};
use crate::Itertools;
use crate::size_hint::SizeHint;

verus! {

/// The first `n` items of `s`, or all of them when it has fewer.
pub open spec fn take_at_most<T>(s: Seq<T>, n: int) -> Seq<T> {
    if n >= s.len() {
        s
    } else {
        s.take(n)
    }
}

/// The items of `s` after the first `n`, or none when it has fewer.
pub open spec fn skip_at_most<T>(s: Seq<T>, n: int) -> Seq<T> {
    if n >= s.len() {
        Seq::empty()
    } else {
        s.skip(n)
    }
}

/// An integer from `0` to `usize::MAX + 1`; `None` stands for `usize::MAX + 1`.
#[derive(Copy, Clone, PartialEq, Eq, Debug)]
pub struct UsizeMaxPlusOne {
    pub n: Option<usize>,
}

impl UsizeMaxPlusOne {
    pub open spec fn value(&self) -> int {
        match self.n {
            Some(n) => n as int,
            None => usize::MAX + 1,
        }
    }

    /// One less, or `None` at zero.
    fn checked_dec(self) -> (r: Option<Self>)
        ensures
            match r {
                Some(m) => self.value() > 0 && m.value() == self.value() - 1,
                None => self.value() == 0,
            },
    {
        match self.n {
            None => Some(UsizeMaxPlusOne { n: Some(usize::MAX) }),
            Some(n) => if n == 0 {
                None
            } else {
                Some(UsizeMaxPlusOne { n: Some(n - 1) })
            },
        }
    }

    /// `n + 1`.
    pub fn inc(n: usize) -> (r: Self)
        ensures
            r.value() == n + 1,
    {
        UsizeMaxPlusOne { n: n.checked_add(1) }
    }

    /// The value as a `usize`, with `usize::MAX + 1` brought down to `usize::MAX`.
    pub fn saturating_to_usize(self) -> (r: usize)
        ensures
            r == if self.value() <= usize::MAX { self.value() } else { usize::MAX as int },
    {
        match self.n {
            Some(n) => n,
            None => usize::MAX,
        }
    }

    /// Compare by value; `usize::MAX + 1` is greater than every `usize`.
    pub fn cmp(&self, other: &Self) -> (r: Ordering)
        ensures
            (r == Ordering::Less) == (self.value() < other.value()),
            (r == Ordering::Equal) == (self.value() == other.value()),
            (r == Ordering::Greater) == (self.value() > other.value()),
    {
        match (self.n, other.n) {
            (None, None) => Ordering::Equal,
            (None, Some(_)) => Ordering::Greater,
            (Some(_), None) => Ordering::Less,
            (Some(a), Some(b)) => if a < b {
                Ordering::Less
            } else if a == b {
                Ordering::Equal
            } else {
                Ordering::Greater
            },
        }
    }

    /// The comparison of `cmp`, which is total.
    pub fn partial_cmp(&self, other: &Self) -> (r: Option<Ordering>)
        ensures
            r matches Some(o) && (o == Ordering::Less) == (self.value() < other.value()) && (o
                == Ordering::Equal) == (self.value() == other.value()) && (o == Ordering::Greater) == (
            self.value() > other.value()),
    {
        Some(self.cmp(other))
    }

    /// The smaller of `self` and `m`.
    fn min_with(self, m: usize) -> (r: Self)
        ensures
            r.value() == if self.value() <= m { self.value() } else { m as int },
    {
        match self.n {
            None => UsizeMaxPlusOne { n: Some(m) },
            Some(n) => UsizeMaxPlusOne { n: Some(if n <= m { n } else { m }) },
        }
    }
}

/// At most `rem` items of a base iterator, where `rem` may be `usize::MAX + 1`.
pub struct TakeWithUsizeMaxPlusOne<I> {
    iter: I,
    rem: UsizeMaxPlusOne,
}

impl<I: Itertools> TakeWithUsizeMaxPlusOne<I> {
    /// Take at most `rem` items of `iter`.
    pub fn new(iter: I, rem: UsizeMaxPlusOne) -> (r: Self)
        requires
            iter.wf(),
        ensures
            r.wf(),
            r.rest() == take_at_most(iter.rest(), rem.value()),
    {
        TakeWithUsizeMaxPlusOne { iter, rem }
    }

    /// The items left in the underlying iterator.
    pub closed spec fn inner_rest(&self) -> Seq<I::Item> {
        self.iter.rest()
    }

    /// How many more items may still be taken.
    pub closed spec fn allowance(&self) -> int {
        self.rem.value()
    }
}

impl<I: crate::DoubleEndedItertools> TakeWithUsizeMaxPlusOne<I> {
    /// While items may still be taken, count one off and take the last item of the underlying
    /// iterator.
    pub fn next_back(&mut self) -> (r: Option<I::Item>)
        requires
            old(self).wf(),
        ensures
            final(self).wf(),
            old(self).allowance() == 0 ==> r is None && final(self).inner_rest() == old(self).inner_rest()
                && final(self).allowance() == 0,
            old(self).allowance() > 0 ==> final(self).allowance() == old(self).allowance() - 1 && match r {
                None => old(self).inner_rest().len() == 0 && final(self).inner_rest().len() == 0,
                Some(x) => old(self).inner_rest().len() > 0 && x == old(self).inner_rest().last()
                    && final(self).inner_rest() == old(self).inner_rest().drop_last(),
            },
    {
        match self.rem.checked_dec() {
            None => None,
            Some(rem) => {
                self.rem = rem;
                self.iter.next_back()
            },
        }
    }
}

impl<I: Itertools> Itertools for TakeWithUsizeMaxPlusOne<I> {
    type Item = I::Item;

    closed spec fn rest(&self) -> Seq<I::Item> {
        take_at_most(self.iter.rest(), self.rem.value())
    }

    closed spec fn wf(&self) -> bool {
        self.iter.wf()
    }

    fn next(&mut self) -> (r: Option<I::Item>) {
        match self.rem.checked_dec() {
            None => None,
            Some(rem) => {
                self.rem = rem;
                let r = self.iter.next();
                proof {
                    if r is Some {
                        assert(self.rest() =~= old(self).rest().drop_first());
                    }
                }
                r
            },
        }
    }

    /// The bounds of the base iterator, each capped at the count left.
    closed spec fn spec_size_hint(&self) -> (usize, Option<usize>) {
        let (lower, upper) = self.iter.spec_size_hint();
        (
            (if self.rem.value() <= lower { self.rem.value() } else { lower as int }) as usize,
            match upper {
                None => self.rem.n,
                Some(u) => Some((if self.rem.value() <= u { self.rem.value() } else { u as int }) as usize),
            },
        )
    }

    fn size_hint(&self) -> (r: SizeHint) {
        let (lower, upper) = self.iter.size_hint();
        let ret_lower = self.rem.min_with(lower).saturating_to_usize();
        let ret_upper = match upper {
            None => self.rem.n,
            Some(u) => self.rem.min_with(u).n,
        };
        let r = (ret_lower, ret_upper);
        assert(r == self.spec_size_hint());
        r
    }
}

/// A base iterator without its first `n` items.
pub struct Skip<I> {
    iter: I,
    n: usize,
}

impl<I: Itertools> Itertools for Skip<I> {
    type Item = I::Item;

    closed spec fn rest(&self) -> Seq<I::Item> {
        skip_at_most(self.iter.rest(), self.n as int)
    }

    closed spec fn wf(&self) -> bool {
        self.iter.wf()
    }

    fn next(&mut self) -> (r: Option<I::Item>) {
        if self.n > 0 {
            let n = self.n;
            self.iter.dropn(n);
            self.n = 0;
        }
        let r = self.iter.next();
        proof {
            if r is Some {
                assert(self.rest() =~= old(self).rest().drop_first());
            }
        }
        r
    }

    /// The bounds of the base iterator, less the items to skip.
    closed spec fn spec_size_hint(&self) -> (usize, Option<usize>) {
        crate::size_hint::sub_scalar_spec(self.iter.spec_size_hint(), self.n)
    }

    fn size_hint(&self) -> (r: SizeHint) {
        let r = crate::size_hint::sub_scalar(self.iter.size_hint(), self.n);
        assert(r == self.spec_size_hint());
        r
    }
}

/// The first `n` items of a base iterator.
pub struct Take<I> {
    iter: I,
    n: usize,
}

impl<I: Itertools> Itertools for Take<I> {
    type Item = I::Item;

    closed spec fn rest(&self) -> Seq<I::Item> {
        take_at_most(self.iter.rest(), self.n as int)
    }

    closed spec fn wf(&self) -> bool {
        self.iter.wf()
    }

    fn next(&mut self) -> (r: Option<I::Item>) {
        if self.n == 0 {
            return None;
        }
        self.n = self.n - 1;
        let r = self.iter.next();
        proof {
            if r is Some {
                assert(self.rest() =~= old(self).rest().drop_first());
            }
        }
        r
    }

    /// The bounds of the base iterator, capped at `n`.
    closed spec fn spec_size_hint(&self) -> (usize, Option<usize>) {
        let (lo, hi) = self.iter.spec_size_hint();
        (
            if lo <= self.n { lo } else { self.n },
            Some(match hi {
                Some(h) => if h <= self.n { h } else { self.n },
                None => self.n,
            }),
        )
    }

    fn size_hint(&self) -> (r: SizeHint) {
        let (lo, hi) = self.iter.size_hint();
        let n = self.n;
        let lo2 = if lo <= n { lo } else { n };
        let hi2 = match hi {
            Some(h) => if h <= n { h } else { n },
            None => n,
        };
        let r = (lo2, Some(hi2));
        assert(r == self.spec_size_hint());
        r
    }
}

/// The index types that `get` accepts.
pub trait Sealed {
}

impl Sealed for Range<usize> {
}

impl Sealed for RangeInclusive<usize> {
}

/// A range of positions, turned into an iterator adaptor over the items at those positions.
pub trait IteratorIndex<I: Itertools>: Sealed + Sized {
    type Output: Itertools<Item = I::Item>;

    /// The items of `s` that the range selects.
    spec fn spec_select(&self, s: Seq<I::Item>) -> Seq<I::Item>;

    /// The adaptor over the items of `from` that the range selects.
    fn index(self, from: I) -> (r: Self::Output)
        requires
            from.wf(),
        ensures
            r.wf(),
            r.rest() == self.spec_select(from.rest()),
    ;
}

impl<I: Itertools> IteratorIndex<I> for Range<usize> {
    type Output = Skip<Take<I>>;

    open spec fn spec_select(&self, s: Seq<I::Item>) -> Seq<I::Item> {
        skip_at_most(take_at_most(s, self.end as int), self.start as int)
    }

    fn index(self, iter: I) -> (r: Skip<Take<I>>) {
        Skip { iter: Take { iter, n: self.end }, n: self.start }
    }
}

/// `RangeInclusive::start`: the lower bound of the range.
#[verifier::external_body]
fn inclusive_start(r: &RangeInclusive<usize>) -> (s: usize)
    ensures
        s == r@.start,
{
    *r.start()
}

/// `RangeInclusive::end`: the upper bound of the range.
#[verifier::external_body]
fn inclusive_end(r: &RangeInclusive<usize>) -> (e: usize)
    ensures
        e == r@.end,
{
    *r.end()
}

impl<I: Itertools> IteratorIndex<I> for RangeInclusive<usize> {
    type Output = TakeWithUsizeMaxPlusOne<Skip<I>>;

    /// From position `start`, `end - start + 1` items, where `end - start` saturates at zero.
    open spec fn spec_select(&self, s: Seq<I::Item>) -> Seq<I::Item> {
        let len = if self@.end >= self@.start {
            self@.end - self@.start
        } else {
            0
        };
        take_at_most(skip_at_most(s, self@.start as int), len + 1)
    }

    fn index(self, iter: I) -> (r: TakeWithUsizeMaxPlusOne<Skip<I>>) {
        let start = inclusive_start(&self);
        let end = inclusive_end(&self);
        let length = UsizeMaxPlusOne::inc(end.saturating_sub(start));
        TakeWithUsizeMaxPlusOne { rem: length, iter: Skip { iter, n: start } }
    }
}

/// The adaptor over the items of `iter` at the positions of `index`.
pub fn get<I: Itertools, R: IteratorIndex<I>>(iter: I, index: R) -> (r: R::Output)
    requires
        iter.wf(),
    ensures
        r.wf(),
        r.rest() == index.spec_select(iter.rest()),
{
    index.index(iter)
}

} // verus!
