//! Adaptors that insert a separator between the items of an iterator.
use vstd::prelude::*;
use crate::Itertools;
use crate::adaptors::opt_seq;
use crate::size_hint::{self, SizeHint};

verus! {

/// `e` before each item of `s`: `e, s0, e, s1, ..`.
pub open spec fn sep_before<T>(s: Seq<T>, e: T) -> Seq<T>
    decreases s.len(),
{
    if s.len() == 0 {
        Seq::empty()
    } else {
        seq![e, s[0]] + sep_before(s.drop_first(), e)
    }
}

/// The items of `s` with `e` between each two of them.
pub open spec fn intersperse_seq<T>(s: Seq<T>, e: T) -> Seq<T> {
    if s.len() == 0 {
        Seq::empty()
    } else {
        seq![s[0]] + sep_before(s.drop_first(), e)
    }
}

pub proof fn lemma_sep_before_len<T>(s: Seq<T>, e: T)
    ensures
        sep_before(s, e).len() == 2 * s.len(),
    decreases s.len(),
{
    if s.len() > 0 {
        lemma_sep_before_len(s.drop_first(), e);
    }
}

/// An iterator adaptor that inserts a particular value between each two items of the
/// adapted iterator.
pub struct Intersperse<I: Itertools> {
    element: I::Item,
    iter: I,
    peek: Option<I::Item>,
}

/// Create a new `Intersperse` iterator.
pub fn intersperse<I: Itertools>(iter: I, elt: I::Item) -> (r: Intersperse<I>) where I::Item: Copy
    requires
        iter.wf(),
    ensures
        r.wf(),
        r.rest() == intersperse_seq(iter.rest(), elt),
{
    let mut iter = iter;
    let peek = iter.next();
    let r = Intersperse { peek, iter, element: elt };
    proof {
        if peek is None {
            assert(r.rest() =~= Seq::<I::Item>::empty());
        }
    }
    r
}

impl<I: Itertools> Itertools for Intersperse<I> where I::Item: Copy {
    type Item = I::Item;

    closed spec fn rest(&self) -> Seq<I::Item> {
        opt_seq(self.peek) + sep_before(self.iter.rest(), self.element)
    }

    closed spec fn wf(&self) -> bool {
        self.iter.wf()
    }

    fn next(&mut self) -> (r: Option<I::Item>) {
        if self.peek.is_some() {
            let r = self.peek.take();
            proof {
                assert(self.rest() =~= old(self).rest().drop_first());
            }
            r
        } else {
            self.peek = self.iter.next();
            if self.peek.is_some() {
                proof {
                    assert(self.rest() =~= old(self).rest().drop_first());
                }
                Some(self.element)
            } else {
                None
            }
        }
    }

    closed spec fn spec_size_hint(&self) -> (usize, Option<usize>) {
        crate::size_hint::add_scalar_spec(crate::size_hint::add_spec(self.iter.spec_size_hint(), self.iter.spec_size_hint()), if self.peek is Some { 1usize } else { 0usize })
    }

    fn size_hint(&self) -> (r: SizeHint) {
        let has_peek: usize = if self.peek.is_some() { 1 } else { 0 };
        let sh = self.iter.size_hint();
        proof {
            lemma_sep_before_len(self.iter.rest(), self.element);
        }
        let r = size_hint::add_scalar(size_hint::add(sh, sh), has_peek);
        assert(r == self.spec_size_hint());
        r
    }
}

/// An iterator adaptor that inserts a value made by a function between each two items of
/// the adapted iterator.
pub struct IntersperseWith<I: Itertools, F> {
    element: F,
    iter: I,
    peek: Option<I::Item>,
}

/// Create a new `IntersperseWith` iterator.
pub fn intersperse_with<I: Itertools, F: Fn() -> I::Item>(iter: I, elt: F) -> (r: IntersperseWith<
    I,
    F,
>)
    requires
        iter.wf(),
        call_requires(elt, ()),
    ensures
        r.wf(),
        r.element_fn() == elt,
        r.items() == iter.rest(),
        r.is_fresh(),
{
    let mut iter = iter;
    let peek = iter.next();
    let r = IntersperseWith { peek, iter, element: elt };
    proof {
        if peek is None {
            assert(opt_seq(r.peek) + r.iter.rest() =~= iter.rest());
        }
    }
    r
}

impl<I: Itertools, F: Fn() -> I::Item> IntersperseWith<I, F> {
    /// The items of the adapted iterator still to be yielded.
    pub closed spec fn items(&self) -> Seq<I::Item> {
        opt_seq(self.peek) + self.iter.rest()
    }

    /// The next item to yield is an item of the adapted iterator, not a separator.
    pub closed spec fn is_fresh(&self) -> bool {
        self.peek is Some || self.iter.rest().len() == 0
    }

    pub closed spec fn wf(&self) -> bool {
        self.iter.wf() && call_requires(self.element, ())
    }

    /// The function that makes the separators.
    pub closed spec fn element_fn(&self) -> F {
        self.element
    }

    /// Yield the next item or the next separator.
    pub fn next(&mut self) -> (r: Option<I::Item>)
        requires
            old(self).wf(),
        ensures
            final(self).wf(),
            final(self).element_fn() == old(self).element_fn(),
            old(self).items().len() == 0 ==> r is None && final(self).items().len() == 0,
            old(self).items().len() > 0 && old(self).is_fresh() ==> r == Some(old(self).items()[0])
                && final(self).items() == old(self).items().drop_first() && (final(self).items().len()
                > 0 ==> !final(self).is_fresh()),
            old(self).items().len() > 0 && !old(self).is_fresh() ==> (r matches Some(x)
                && call_ensures(old(self).element_fn(), (), x) && final(self).items() == old(
                self).items() && final(self).is_fresh()),
    {
        if self.peek.is_some() {
            let r = self.peek.take();
            proof {
                assert(self.items() =~= old(self).items().drop_first());
            }
            r
        } else {
            self.peek = self.iter.next();
            if self.peek.is_some() {
                proof {
                    assert(self.items() =~= old(self).items());
                }
                Some((self.element)())
            } else {
                None
            }
        }
    }
}

} // verus!
