//! Flattening the vectors inside `Ok`, passing each `Err` through.
use vstd::prelude::*;
use crate::{Itertools, VecIter};
use crate::size_hint::SizeHint;

verus! {

/// The items of `v`, each inside `Ok`.
pub open spec fn oks<X, E>(v: Seq<X>) -> Seq<Result<X, E>> {
    v.map_values(|x: X| Ok::<X, E>(x))
}

/// The items of the vectors inside `Ok` of `s`, each inside `Ok`, with each `Err` of `s` in its
/// place.
pub open spec fn flatten_ok_seq<X, E>(s: Seq<Result<Vec<X>, E>>) -> Seq<Result<X, E>>
    decreases s.len(),
{
    if s.len() == 0 {
        Seq::empty()
    } else {
        match s[0] {
            Ok(v) => oks(v@) + flatten_ok_seq(s.drop_first()),
            Err(e) => seq![Err(e)] + flatten_ok_seq(s.drop_first()),
        }
    }
}

/// An iterator adaptor that flattens the vectors inside `Ok` and passes each `Err` through.
pub struct FlattenOk<I, X> {
    iter: I,
    inner: Option<VecIter<X>>,
}

/// Create a new `FlattenOk`.
pub fn flatten_ok<X, E, I: Itertools<Item = Result<Vec<X>, E>>>(iter: I) -> (r: FlattenOk<I, X>)
    requires
        iter.wf(),
    ensures
        r.wf(),
        r.rest() == flatten_ok_seq(iter.rest()),
{
    let r = FlattenOk { iter, inner: None };
    assert(r.rest() =~= flatten_ok_seq(iter.rest()));
    r
}

impl<X, E, I: Itertools<Item = Result<Vec<X>, E>>> Itertools for FlattenOk<I, X> {
    type Item = Result<X, E>;

    closed spec fn rest(&self) -> Seq<Result<X, E>> {
        match self.inner {
            Some(inner) => oks(inner.rest()) + flatten_ok_seq(self.iter.rest()),
            None => flatten_ok_seq(self.iter.rest()),
        }
    }

    closed spec fn wf(&self) -> bool {
        self.iter.wf()
    }

    fn next(&mut self) -> (r: Option<Result<X, E>>) {
        loop
            invariant
                self.wf(),
                self.rest() == old(self).rest(),
            decreases self.iter.rest().len(), (if self.inner is Some { self.inner->0.rest().len() + 1 } else { 0 }),
        {
            if self.inner.is_some() {
                let mut inner = self.inner.take().unwrap();
                match inner.next() {
                    Some(item) => {
                        let ghost ir = inner.rest();
                        self.inner = Some(inner);
                        proof {
                            assert(old(self).rest() =~= seq![Ok::<X, E>(item)] + self.rest());
                        }
                        return Some(Ok(item));
                    },
                    None => {
                        proof {
                            assert(self.rest() =~= old(self).rest());
                        }
                    },
                }
            }
            let ghost s = self.iter.rest();
            match self.iter.next() {
                Some(Ok(ok)) => {
                    self.inner = Some(VecIter::new(ok));
                    proof {
                        assert(s.drop_first() == self.iter.rest());
                    }
                },
                Some(Err(e)) => {
                    proof {
                        assert(s.drop_first() == self.iter.rest());
                        assert(old(self).rest() =~= seq![Err::<X, E>(e)] + self.rest());
                    }
                    return Some(Err(e));
                },
                None => {
                    return None;
                },
            }
        }
    }

    /// No information, as for any iterator.
    closed spec fn spec_size_hint(&self) -> (usize, Option<usize>) {
        (0, None)
    }

    fn size_hint(&self) -> (r: SizeHint) {
        let r = (0, None);
        assert(r == self.spec_size_hint());
        r
    }
}

} // verus!
