//! The cartesian product of two iterators.
use vstd::prelude::*;
use crate::{Itertools, CloneIter};
use crate::size_hint::{self, SizeHint, within};

verus! {

/// `x` paired with each item of `ys`, in order.
pub open spec fn pairs_with<A, B>(x: A, ys: Seq<B>) -> Seq<(A, B)> {
    Seq::new(ys.len(), |k: int| (x, ys[k]))
}

/// Every item of `xs` paired with every item of `ys`, the first component varying slowest.
pub open spec fn product_seq<A, B>(xs: Seq<A>, ys: Seq<B>) -> Seq<(A, B)>
    decreases xs.len(),
{
    if xs.len() == 0 {
        Seq::empty()
    } else {
        pairs_with(xs[0], ys) + product_seq(xs.drop_first(), ys)
    }
}

/// The product has `xs.len() * ys.len()` pairs.
pub proof fn lemma_product_len<A, B>(xs: Seq<A>, ys: Seq<B>)
    ensures
        product_seq(xs, ys).len() == xs.len() * ys.len(),
    decreases xs.len(),
{
    if xs.len() > 0 {
        lemma_product_len(xs.drop_first(), ys);
        assert(xs.len() * ys.len() == ys.len() + (xs.len() - 1) * ys.len()) by (nonlinear_arith);
    }
}

/// The product with nothing is empty.
pub proof fn lemma_product_empty<A, B>(xs: Seq<A>)
    ensures
        product_seq(xs, Seq::<B>::empty()) == Seq::<(A, B)>::empty(),
    decreases xs.len(),
{
    if xs.len() > 0 {
        lemma_product_empty::<A, B>(xs.drop_first());
        assert(pairs_with(xs[0], Seq::<B>::empty()) =~= Seq::<(A, B)>::empty());
        assert(product_seq(xs, Seq::<B>::empty()) =~= Seq::<(A, B)>::empty());
    }
}

/// An iterator over the cartesian product of the items of two iterators: each item of the
/// first with each item of the second.
pub struct Product<I: Itertools, J> {
    a: I,
    a_cur: Option<I::Item>,
    b: J,
    b_orig: J,
}

impl<I: Itertools, J: CloneIter> Product<I, J> where I::Item: Copy {
    /// Create a new cartesian product iterator.
    pub fn new(i: I, j: J) -> (r: Self)
        requires
            i.wf(),
            j.wf(),
        ensures
            r.wf(),
            r.rest() == product_seq(i.rest(), j.rest()),
    {
        let mut i = i;
        let a_cur = i.next();
        let b = j.clone_iter();
        Product { a_cur, a: i, b, b_orig: j }
    }
}

impl<I: Itertools, J: CloneIter> Itertools for Product<I, J> where I::Item: Copy {
    type Item = (I::Item, J::Item);

    closed spec fn rest(&self) -> Seq<(I::Item, J::Item)> {
        match self.a_cur {
            Some(x) => pairs_with(x, self.b.rest()) + product_seq(self.a.rest(), self.b_orig.rest()),
            None => Seq::empty(),
        }
    }

    closed spec fn wf(&self) -> bool {
        &&& self.a.wf()
        &&& self.b.wf()
        &&& self.b_orig.wf()
        &&& self.a_cur is None ==> self.a.rest().len() == 0
    }

    fn next(&mut self) -> (r: Option<(I::Item, J::Item)>) {
        let elt_b = match self.b.next() {
            None => {
                proof {
                    if let Some(x) = self.a_cur {
                        assert(pairs_with(x, old(self).b.rest()) =~= Seq::<(I::Item, J::Item)>::empty());
                    }
                }
                self.b = self.b_orig.clone_iter();
                match self.b.next() {
                    None => {
                        proof {
                            assert(self.b_orig.rest() =~= Seq::<J::Item>::empty());
                            lemma_product_empty::<I::Item, J::Item>(self.a.rest());
                            if let Some(x) = self.a_cur {
                                assert(pairs_with(x, self.b.rest()) =~= Seq::<(I::Item, J::Item)>::empty());
                            }
                        }
                        return None;
                    },
                    Some(y) => {
                        let ghost old_a = self.a.rest();
                        self.a_cur = self.a.next();
                        proof {
                            if let Some(x) = self.a_cur {
                                assert(old_a.drop_first() == self.a.rest());
                                assert(old(self).rest() =~= pairs_with(x, seq![y] + self.b.rest())
                                    + product_seq(self.a.rest(), self.b_orig.rest()));
                            } else {
                                assert(old(self).rest() =~= Seq::<(I::Item, J::Item)>::empty());
                            }
                        }
                        y
                    },
                }
            },
            Some(y) => y,
        };
        match self.a_cur {
            None => None,
            Some(x) => {
                proof {
                    assert(pairs_with(x, seq![elt_b] + self.b.rest()) =~= seq![(x, elt_b)]
                        + pairs_with(x, self.b.rest()));
                    assert(old(self).rest() =~= seq![(x, elt_b)] + self.rest());
                }
                Some((x, elt_b))
            },
        }
    }

    /// The product of the hints of the first iterator and of the second one as it was
    /// created, plus what is left of the second one for the current item. The upper bound
    /// uses the upper bound of what is left of the second iterator.
    closed spec fn spec_size_hint(&self) -> (usize, Option<usize>) {
        let has_cur: int = if self.a_cur is Some { 1 } else { 0 };
        let prod = crate::size_hint::mul_spec(self.a.spec_size_hint(), self.b_orig.spec_size_hint());
        let b = self.b.spec_size_hint();
        (
            if prod.0 + b.0 * has_cur <= usize::MAX { (prod.0 + b.0 * has_cur) as usize } else { usize::MAX },
            match (prod.1, b.1) {
                (Some(p), Some(h)) => if p + h * has_cur <= usize::MAX { Some((p + h * has_cur) as usize) } else { None },
                _ => None,
            },
        )
    }

    fn size_hint(&self) -> (r: SizeHint) {
        let has_cur: usize = if self.a_cur.is_some() {
            1
        } else {
            0
        };
        let (b_lo, b_hi) = self.b.size_hint();
        let a_sh = self.a.size_hint();
        let o_sh = self.b_orig.size_hint();
        assert(within(a_sh, self.a.rest().len() as int));
        assert(within(o_sh, self.b_orig.rest().len() as int));
        let prod = size_hint::mul(a_sh, o_sh);
        let lo = prod.0.saturating_add(b_lo * has_cur);
        let hi = match (prod.1, b_hi) {
            (Some(p), Some(h)) => p.checked_add(h * has_cur),
            _ => None,
        };
        proof {
            lemma_product_len(self.a.rest(), self.b_orig.rest());
            assert(within(prod, (self.a.rest().len() * self.b_orig.rest().len()) as int));
            if self.a_cur is None {
                assert(self.a.rest().len() * self.b_orig.rest().len() == 0);
            }
        }
        let r = (lo, hi);
        assert(r == self.spec_size_hint());
        r
    }
}

} // verus!
