//! All pairs of items of an iterator, each pair in the order of the iterator.
use vstd::prelude::*;
use crate::{Itertools, CloneIter};
use crate::adaptors::product::pairs_with;
use crate::size_hint::{self, SizeHint, within};

verus! {

/// Every pair `(s[i], s[j])` with `i < j`, ordered by `i`, then by `j`.
pub open spec fn pairs_of<T>(s: Seq<T>) -> Seq<(T, T)>
    decreases s.len(),
{
    if s.len() == 0 {
        Seq::empty()
    } else {
        pairs_with(s[0], s.drop_first()) + pairs_of(s.drop_first())
    }
}

/// An iterator over all the pairs of items of an iterator that can be cloned.
pub struct Combinations<I: Itertools> {
    iter: I,
    next_iter: I,
    val: Option<I::Item>,
}

impl<I: CloneIter> Combinations<I> where I::Item: Copy {
    /// The pairs still to be yielded.
    pub closed spec fn rest(&self) -> Seq<(I::Item, I::Item)> {
        match self.val {
            Some(x) => pairs_with(x, self.next_iter.rest()) + pairs_of(self.iter.rest()),
            None => pairs_of(self.iter.rest()),
        }
    }

    /// The number of items left in the first of the two iterators.
    pub closed spec fn outer_len(&self) -> nat {
        self.iter.rest().len()
    }

    /// The invariant of the adaptor.
    pub closed spec fn wf(&self) -> bool {
        self.iter.wf() && self.next_iter.wf()
    }

    /// Create a new `Combinations` from a clonable iterator.
    pub fn new(iter: I) -> (r: Self)
        requires
            iter.wf(),
        ensures
            r.wf(),
            r.rest() == pairs_of(iter.rest()),
            r.outer_len() == iter.rest().len(),
    {
        Combinations { next_iter: iter.clone_iter(), iter, val: None }
    }

    /// The next pair, if any is left.
    pub fn next(&mut self) -> (r: Option<(I::Item, I::Item)>)
        requires
            old(self).wf(),
        ensures
            final(self).wf(),
            final(self).outer_len() <= old(self).outer_len(),
            match r {
                None => old(self).rest().len() == 0 && final(self).rest().len() == 0,
                Some(p) => old(self).rest().len() > 0 && p == old(self).rest()[0]
                    && final(self).rest() == old(self).rest().drop_first(),
            },
    {
        loop
            invariant
                self.wf(),
                self.rest() == old(self).rest(),
                self.outer_len() <= old(self).outer_len(),
            decreases self.iter.rest().len() + (if self.val is Some { 1int } else { 0int }),
        {
            if self.val.is_none() {
                let ghost before = self.iter.rest();
                self.val = self.iter.next();
                self.next_iter = self.iter.clone_iter();
                proof {
                    if self.val is None {
                        assert(before =~= Seq::<I::Item>::empty());
                    }
                }
            }
            let elt = match self.val {
                Some(x) => x,
                None => {
                    return None;
                },
            };
            let ghost ni = self.next_iter.rest();
            match self.next_iter.next() {
                Some(y) => {
                    proof {
                        assert(pairs_with(elt, ni) =~= seq![(elt, y)] + pairs_with(elt, self.next_iter.rest()));
                        assert(old(self).rest() =~= seq![(elt, y)] + self.rest());
                    }
                    return Some((elt, y));
                },
                None => {
                    proof {
                        assert(pairs_with(elt, ni) =~= Seq::<(I::Item, I::Item)>::empty());
                        assert(self.rest() =~= pairs_of(self.iter.rest()));
                    }
                    self.val = None;
                },
            }
        }
    }

    /// The size hint: the pairs among the items left in the first iterator, half of
    /// `n * (n - 1)` at each bound of its hint, plus the partners still to come for the
    /// current item, from the hint of the second iterator.
    pub closed spec fn spec_size_hint(&self) -> (usize, Option<usize>) {
        let (lo, hi) = self.iter.spec_size_hint();
        let lo1: usize = if lo >= 1 { (lo - 1) as usize } else { 0 };
        let hi1: Option<usize> = match hi {
            Some(h) => Some(if h >= 1 { (h - 1) as usize } else { 0usize }),
            None => None,
        };
        let p = size_hint::mul_spec((lo, hi), (lo1, hi1));
        let among: (usize, Option<usize>) = (
            (p.0 / 2) as usize,
            match p.1 {
                Some(x) => Some((x / 2) as usize),
                None => None,
            },
        );
        let cur: (usize, Option<usize>) = if self.val is Some {
            self.next_iter.spec_size_hint()
        } else {
            (0, Some(0))
        };
        size_hint::add_spec(among, cur)
    }

    /// Bounds on the number of pairs still to come.
    pub fn size_hint(&self) -> (r: SizeHint)
        requires
            self.wf(),
        ensures
            within(r, self.rest().len() as int),
            r == self.spec_size_hint(),
    {
        let (lo, hi) = self.iter.size_hint();
        let lo1 = lo.saturating_sub(1);
        let hi1 = match hi {
            Some(h) => Some(h.saturating_sub(1)),
            None => None,
        };
        let ghost n = self.iter.rest().len();
        let (plo, phi) = size_hint::mul((lo, hi), (lo1, hi1));
        proof {
            lemma_mul_pred_mono(lo as int, n as int);
            if let Some(h) = hi {
                lemma_mul_pred_mono(n as int, h as int);
            }
        }
        let r_hi = match phi {
            Some(p) => Some(p / 2),
            None => None,
        };
        proof {
            lemma_half_mono(plo as int, (n * (n - 1)) as int);
            if let Some(p) = phi {
                lemma_half_mono((n * (n - 1)) as int, p as int);
            }
            lemma_pairs_of_len(self.iter.rest());
        }
        let among = (plo / 2, r_hi);
        let cur = match &self.val {
            Some(_) => self.next_iter.size_hint(),
            None => (0, Some(0)),
        };
        let r = size_hint::add(among, cur);
        proof {
            let c = if self.val is Some { self.next_iter.rest().len() as int } else { 0 };
            assert(within(cur, c));
            assert(self.rest().len() == c + n * (n - 1) / 2);
        }
        assert(r == self.spec_size_hint());
        r
    }
}

/// There are `n * (n - 1) / 2` pairs among `n` items.
pub proof fn lemma_pairs_of_len<T>(s: Seq<T>)
    ensures
        pairs_of(s).len() == s.len() * (s.len() - 1) / 2,
    decreases s.len(),
{
    if s.len() > 0 {
        let m = s.len() - 1;
        lemma_pairs_of_len(s.drop_first());
        assert(m + m * (m - 1) / 2 == (m + 1) * m / 2) by (nonlinear_arith)
            requires
                m >= 0,
        ;
    }
}

/// `x * (x - 1)` grows with `x` on the naturals; for zero the factor `x - 1` may be taken as
/// zero too.
proof fn lemma_mul_pred_mono(a: int, b: int)
    requires
        0 <= a <= b,
    ensures
        a * (if a >= 1 { a - 1 } else { 0 }) <= b * (b - 1),
        0 <= a * (if a >= 1 { a - 1 } else { 0 }),
        a * (a - 1) <= b * (b - 1),
        0 <= b * (b - 1),
{
    if a >= 1 {
        assert(a * (a - 1) <= b * (b - 1)) by (nonlinear_arith)
            requires
                1 <= a <= b,
        ;
        assert(0 <= a * (a - 1)) by (nonlinear_arith)
            requires
                1 <= a,
        ;
    }
    assert(0 <= b * (b - 1)) by (nonlinear_arith)
        requires
            0 <= b,
    ;
}

proof fn lemma_half_mono(x: int, y: int)
    requires
        0 <= x <= y,
    ensures
        x / 2 <= y / 2,
{
}

} // verus!
