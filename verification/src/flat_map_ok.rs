//! Mapping the values inside `Ok` to vectors and flattening them, passing each `Err` through.
use vstd::prelude::*;
use core::marker::PhantomData;
use crate::{DoubleEndedItertools, Itertools, VecIter};
use crate::free::{fold_trace, lemma_fold_trace_append, lemma_fold_trace_push};
use crate::flatten_ok::{flatten_ok_seq, oks};
use crate::size_hint::{self, SizeHint, within};

verus! {

/// A function from a value to a vector of values, for `flat_map_ok`.
pub trait FlatMapFn<T> {
    /// The type of the values produced.
    type Out;

    /// What `apply` returns for `t`.
    spec fn spec_apply(&self, t: T) -> Seq<Self::Out>;

    /// Map `t` to a vector.
    fn apply(&self, t: T) -> (r: Vec<Self::Out>)
        ensures
            r@ == self.spec_apply(t),
    ;
}

/// Maps a value to `times` copies of it.
pub struct Replicate {
    pub times: usize,
}

impl<T: Copy> FlatMapFn<T> for Replicate {
    type Out = T;

    open spec fn spec_apply(&self, t: T) -> Seq<T> {
        Seq::new(self.times as nat, |i: int| t)
    }

    fn apply(&self, t: T) -> (r: Vec<T>) {
        let mut v: Vec<T> = Vec::new();
        let mut k: usize = 0;
        while k < self.times
            invariant
                k <= self.times,
                v@ == Seq::new(k as nat, |i: int| t),
            decreases self.times - k,
        {
            v.push(t);
            k = k + 1;
            assert(v@ =~= Seq::new(k as nat, |i: int| t));
        }
        v
    }
}

/// The values `f` gives for the values inside `Ok` of `s`, each inside `Ok`, with each `Err` of
/// `s` in its place.
pub open spec fn flat_map_ok_seq<T, E, F: FlatMapFn<T>>(f: F, s: Seq<Result<T, E>>) -> Seq<Result<F::Out, E>>
    decreases s.len(),
{
    if s.len() == 0 {
        Seq::empty()
    } else {
        match s[0] {
            Ok(v) => oks(f.spec_apply(v)) + flat_map_ok_seq(f, s.drop_first()),
            Err(e) => seq![Err(e)] + flat_map_ok_seq(f, s.drop_first()),
        }
    }
}

/// Flat-mapping a concatenation gives the concatenation of the flat-mapped parts.
pub proof fn lemma_flat_map_ok_seq_append<T, E, F: FlatMapFn<T>>(f: F, a: Seq<Result<T, E>>, b: Seq<Result<T, E>>)
    ensures
        flat_map_ok_seq(f, a + b) == flat_map_ok_seq(f, a) + flat_map_ok_seq(f, b),
    decreases a.len(),
{
    if a.len() == 0 {
        assert(a + b =~= b);
    } else {
        assert((a + b).drop_first() =~= a.drop_first() + b);
        lemma_flat_map_ok_seq_append(f, a.drop_first(), b);
        match a[0] {
            Ok(v) => {
                assert(flat_map_ok_seq(f, a + b) =~= oks(f.spec_apply(v)) + flat_map_ok_seq(f, a.drop_first() + b));
            },
            Err(e) => {
                assert(flat_map_ok_seq(f, a + b) =~= seq![Err(e)] + flat_map_ok_seq(f, a.drop_first() + b));
            },
        }
    }
}

/// `flat_map_ok` is `map_ok` followed by `flatten_ok`: when `mapped` holds, in place of each
/// `Ok` value of `s`, a vector with what `f` gives for it, and each `Err` of `s` unchanged,
/// flattening `mapped` gives what flat-mapping `s` gives.
pub proof fn lemma_flat_map_ok_is_map_then_flatten<T, E, F: FlatMapFn<T>>(
    f: F,
    s: Seq<Result<T, E>>,
    mapped: Seq<Result<Vec<F::Out>, E>>,
)
    requires
        mapped.len() == s.len(),
        forall|i: int| 0 <= i < s.len() ==> match (#[trigger] s[i], mapped[i]) {
            (Ok(x), Ok(v)) => v@ == f.spec_apply(x),
            (Err(e), Err(e2)) => e2 == e,
            _ => false,
        },
    ensures
        flatten_ok_seq(mapped) == flat_map_ok_seq(f, s),
    decreases s.len(),
{
    if s.len() > 0 {
        assert forall|i: int| 0 <= i < s.len() - 1 implies match (#[trigger] s.drop_first()[i], mapped.drop_first()[i]) {
            (Ok(x), Ok(v)) => v@ == f.spec_apply(x),
            (Err(e), Err(e2)) => e2 == e,
            _ => false,
        } by {
            assert(s[i + 1] == s.drop_first()[i]);
        }
        lemma_flat_map_ok_is_map_then_flatten(f, s.drop_first(), mapped.drop_first());
        assert(s[0] == s[0]);
    }
}

/// Flat-mapping without the last item leaves out what that item maps to.
proof fn lemma_flat_map_ok_seq_last<T, E, F: FlatMapFn<T>>(f: F, s: Seq<Result<T, E>>)
    requires
        s.len() > 0,
    ensures
        flat_map_ok_seq(f, s) == flat_map_ok_seq(f, s.drop_last()) + match s.last() {
            Ok(v) => oks::<F::Out, E>(f.spec_apply(v)),
            Err(e) => seq![Err(e)],
        },
{
    assert(s =~= s.drop_last() + seq![s.last()]);
    lemma_flat_map_ok_seq_append(f, s.drop_last(), seq![s.last()]);
    let one = seq![s.last()];
    assert(one.drop_first() =~= Seq::<Result<T, E>>::empty());
    assert(one[0] == s.last());
    assert(flat_map_ok_seq(f, one.drop_first()) =~= Seq::<Result<F::Out, E>>::empty());
    match s.last() {
        Ok(v) => assert(flat_map_ok_seq(f, one) =~= oks::<F::Out, E>(f.spec_apply(v))),
        Err(e) => assert(flat_map_ok_seq(f, one) =~= seq![Err::<F::Out, E>(e)]),
    }
}

/// Reversing a concatenation reverses the parts and swaps them.
proof fn lemma_reverse_append<X>(a: Seq<X>, b: Seq<X>)
    ensures
        (a + b).reverse() == b.reverse() + a.reverse(),
{
    assert((a + b).reverse() =~= b.reverse() + a.reverse());
}

/// Wrapping in `Ok` commutes with leaving out the last item.
proof fn lemma_oks_drop_last<X, E>(s: Seq<X>)
    requires
        s.len() > 0,
    ensures
        oks::<X, E>(s) == oks::<X, E>(s.drop_last()) + seq![Ok::<X, E>(s.last())],
{
    assert(oks::<X, E>(s) =~= oks::<X, E>(s.drop_last()) + seq![Ok::<X, E>(s.last())]);
}

/// Fold the items of `it`, each inside `Ok`, with `g`, starting from `init`; hand `g` back.
fn fold_oks<X, E, B, G: Fn(B, Result<X, E>) -> B>(it: VecIter<X>, init: B, g: G) -> (r: (B, G))
    requires
        forall|b: B, x: Result<X, E>| call_requires(g, (b, x)),
    ensures
        r.1 == g,
        exists|accs: Seq<B>| fold_trace(oks::<X, E>(it.rest()), g, accs) && accs[0] == init && accs.last() == r.0,
{
    let ghost all = oks::<X, E>(it.rest());
    let mut cur = it;
    let mut acc = init;
    let ghost mut done: Seq<Result<X, E>> = Seq::empty();
    let ghost mut accs: Seq<B> = seq![init];
    loop
        invariant
            cur.wf(),
            all == oks::<X, E>(it.rest()),
            forall|b: B, x: Result<X, E>| call_requires(g, (b, x)),
            done + oks::<X, E>(cur.rest()) == all,
            fold_trace(done, g, accs),
            accs[0] == init,
            accs.last() == acc,
        decreases cur.rest().len(),
    {
        let ghost before = cur.rest();
        match cur.next() {
            Some(x) => {
                acc = g(acc, Ok(x));
                proof {
                    lemma_fold_trace_push(done, g, accs, Ok(x), acc);
                    assert(oks::<X, E>(before) =~= seq![Ok::<X, E>(x)] + oks::<X, E>(cur.rest()));
                    assert(done.push(Ok(x)) + oks::<X, E>(cur.rest()) =~= done + oks::<X, E>(before));
                    done = done.push(Ok(x));
                    accs = accs.push(acc);
                }
            },
            None => {
                assert(oks::<X, E>(cur.rest()) =~= Seq::<Result<X, E>>::empty());
                assert(done =~= all);
                assert(fold_trace(all, g, accs));
                return (acc, g);
            },
        }
    }
}

/// Fold the items of `it` from the back, each inside `Ok`, with `g`, starting from `init`;
/// hand `g` back.
fn rfold_oks<X, E, B, G: Fn(B, Result<X, E>) -> B>(it: VecIter<X>, init: B, g: G) -> (r: (B, G))
    requires
        forall|b: B, x: Result<X, E>| call_requires(g, (b, x)),
    ensures
        r.1 == g,
        exists|accs: Seq<B>|
            fold_trace(oks::<X, E>(it.rest()).reverse(), g, accs) && accs[0] == init && accs.last() == r.0,
{
    let ghost all = oks::<X, E>(it.rest()).reverse();
    let mut cur = it;
    let mut acc = init;
    let ghost mut done: Seq<Result<X, E>> = Seq::empty();
    let ghost mut accs: Seq<B> = seq![init];
    loop
        invariant
            cur.wf(),
            all == oks::<X, E>(it.rest()).reverse(),
            forall|b: B, x: Result<X, E>| call_requires(g, (b, x)),
            done + oks::<X, E>(cur.rest()).reverse() == all,
            fold_trace(done, g, accs),
            accs[0] == init,
            accs.last() == acc,
        decreases cur.rest().len(),
    {
        let ghost before = cur.rest();
        match cur.next_back() {
            Some(x) => {
                acc = g(acc, Ok(x));
                proof {
                    lemma_fold_trace_push(done, g, accs, Ok(x), acc);
                    lemma_oks_drop_last::<X, E>(before);
                    assert(oks::<X, E>(before).reverse() =~= seq![Ok::<X, E>(x)] + oks::<X, E>(cur.rest()).reverse());
                    assert(done.push(Ok(x)) + oks::<X, E>(cur.rest()).reverse() =~= done + oks::<X, E>(before).reverse());
                    done = done.push(Ok(x));
                    accs = accs.push(acc);
                }
            },
            None => {
                assert(oks::<X, E>(cur.rest()).reverse() =~= Seq::<Result<X, E>>::empty());
                assert(done =~= all);
                assert(fold_trace(all, g, accs));
                return (acc, g);
            },
        }
    }
}

/// An iterator adaptor that maps the values inside `Ok` to vectors and flattens them, and
/// passes each `Err` through.
pub struct FlatMapOk<I, F: FlatMapFn<T>, T, E> {
    iter: I,
    f: F,
    inner_front: Option<VecIter<F::Out>>,
    inner_back: Option<VecIter<F::Out>>,
    _phantom: PhantomData<(T, E)>,
}

/// Create a new `FlatMapOk`.
pub fn flat_map_ok<I, F, T, E>(iter: I, f: F) -> (r: FlatMapOk<I, F, T, E>) where
    I: Itertools<Item = Result<T, E>>,
    F: FlatMapFn<T>,

    requires
        iter.wf(),
    ensures
        r.wf(),
        r.rest() == flat_map_ok_seq(f, iter.rest()),
{
    let r = FlatMapOk { iter, f, inner_front: None, inner_back: None, _phantom: PhantomData };
    assert(r.rest() =~= flat_map_ok_seq(f, iter.rest()));
    r
}

impl<I, F, T, E> Itertools for FlatMapOk<I, F, T, E> where
    I: Itertools<Item = Result<T, E>>,
    F: FlatMapFn<T>,
 {
    type Item = Result<F::Out, E>;

    closed spec fn rest(&self) -> Seq<Result<F::Out, E>> {
        let front = match self.inner_front {
            Some(inner) => oks(inner.rest()),
            None => Seq::empty(),
        };
        let back = match self.inner_back {
            Some(inner) => oks(inner.rest()),
            None => Seq::empty(),
        };
        front + flat_map_ok_seq(self.f, self.iter.rest()) + back
    }

    closed spec fn wf(&self) -> bool {
        self.iter.wf()
    }

    fn next(&mut self) -> (r: Option<Result<F::Out, E>>) {
        loop
            invariant
                self.wf(),
                self.rest() == old(self).rest(),
            decreases self.iter.rest().len(),
                (if self.inner_front is Some { self.inner_front->0.rest().len() + 1 } else { 0 }),
                (if self.inner_back is Some { self.inner_back->0.rest().len() + 1 } else { 0 }),
        {
            if self.inner_front.is_some() {
                let mut inner = self.inner_front.take().unwrap();
                match inner.next() {
                    Some(item) => {
                        self.inner_front = Some(inner);
                        proof {
                            assert(old(self).rest() =~= seq![Ok::<F::Out, E>(item)] + self.rest());
                        }
                        return Some(Ok(item));
                    },
                    None => {
                        proof {
                            assert(self.rest() =~= old(self).rest());
                        }
                    },
                }
            }
            let ghost s = self.iter.rest();
            match self.iter.next() {
                Some(Ok(ok)) => {
                    self.inner_front = Some(VecIter::new(self.f.apply(ok)));
                    proof {
                        assert(s.drop_first() == self.iter.rest());
                        assert(self.rest() =~= old(self).rest());
                    }
                },
                Some(Err(e)) => {
                    proof {
                        assert(s.drop_first() == self.iter.rest());
                        assert(old(self).rest() =~= seq![Err::<F::Out, E>(e)] + self.rest());
                    }
                    return Some(Err(e));
                },
                None => {
                    if self.inner_back.is_some() {
                        let mut inner = self.inner_back.take().unwrap();
                        match inner.next() {
                            Some(item) => {
                                self.inner_back = Some(inner);
                                proof {
                                    assert(old(self).rest() =~= seq![Ok::<F::Out, E>(item)] + self.rest());
                                }
                                return Some(Ok(item));
                            },
                            None => {
                                proof {
                                    assert(self.rest() =~= old(self).rest());
                                }
                            },
                        }
                    } else {
                        proof {
                            assert(old(self).rest() =~= Seq::<Result<F::Out, E>>::empty());
                        }
                        return None;
                    }
                },
            }
        }
    }

    /// Fold the items left in the front vector, then those that the underlying iterator
    /// gives, then those left in the back vector.
    #[verifier::rlimit(30)]
    fn fold<B, G: Fn(B, Result<F::Out, E>) -> B>(self, init: B, fold_f: G) -> (r: B) {
        let ghost all = self.rest();
        let ghost back: Seq<Result<F::Out, E>> = if self.inner_back is Some {
            oks(self.inner_back->0.rest())
        } else {
            Seq::empty()
        };
        let FlatMapOk { iter, f, inner_front, inner_back, _phantom } = self;
        let mut g = fold_f;
        let mut acc = init;
        let ghost mut done: Seq<Result<F::Out, E>> = Seq::empty();
        let ghost mut accs: Seq<B> = seq![init];
        match inner_front {
            Some(x) => {
                let ghost xs = oks::<F::Out, E>(x.rest());
                let (a, g2) = fold_oks(x, acc, g);
                proof {
                    let accs2 = choose|accs2: Seq<B>| fold_trace(xs, g2, accs2) && accs2[0] == acc && accs2.last() == a;
                    lemma_fold_trace_append(done, xs, g2, accs, accs2);
                    assert(done + xs =~= xs);
                    done = xs;
                    accs = accs + accs2.drop_first();
                }
                acc = a;
                g = g2;
            },
            None => {},
        }
        assert(done + flat_map_ok_seq(f, iter.rest()) + back =~= all);
        let mut iter = iter;
        loop
            invariant
                iter.wf(),
                all == self.rest(),
                g == fold_f,
                forall|b: B, x: Result<F::Out, E>| call_requires(g, (b, x)),
                back == if inner_back is Some {
                    oks::<F::Out, E>(inner_back->0.rest())
                } else {
                    Seq::empty()
                },
                done + flat_map_ok_seq(f, iter.rest()) + back == all,
                fold_trace(done, g, accs),
                accs[0] == init,
                accs.last() == acc,
            decreases iter.rest().len(),
        {
            let ghost s = iter.rest();
            match iter.next() {
                Some(Ok(ok)) => {
                    let vi = VecIter::new(f.apply(ok));
                    let ghost xs = oks::<F::Out, E>(vi.rest());
                    let (a, g2) = fold_oks(vi, acc, g);
                    proof {
                        let accs2 = choose|accs2: Seq<B>| fold_trace(xs, g2, accs2) && accs2[0] == acc && accs2.last() == a;
                        lemma_fold_trace_append(done, xs, g2, accs, accs2);
                        assert(s.drop_first() == iter.rest());
                        assert((done + xs) + flat_map_ok_seq(f, iter.rest()) + back =~= done + flat_map_ok_seq(f, s) + back);
                        done = done + xs;
                        accs = accs + accs2.drop_first();
                    }
                    acc = a;
                    g = g2;
                },
                Some(Err(e)) => {
                    let ghost prev = acc;
                    acc = g(acc, Err(e));
                    proof {
                        lemma_fold_trace_push(done, g, accs, Err(e), acc);
                        assert(s.drop_first() == iter.rest());
                        assert(done.push(Err(e)) + flat_map_ok_seq(f, iter.rest()) + back =~= done + flat_map_ok_seq(f, s) + back);
                        done = done.push(Err(e));
                        accs = accs.push(acc);
                    }
                },
                None => {
                    assert(flat_map_ok_seq(f, iter.rest()) =~= Seq::<Result<F::Out, E>>::empty());
                    assert(done + back =~= all);
                    match inner_back {
                        Some(x) => {
                            let (a, g2) = fold_oks(x, acc, g);
                            proof {
                                let accs2 = choose|accs2: Seq<B>| fold_trace(back, g2, accs2) && accs2[0] == acc && accs2.last() == a;
                                lemma_fold_trace_append(done, back, g2, accs, accs2);
                                accs = accs + accs2.drop_first();
                                assert(fold_trace(all, fold_f, accs));
                            }
                            return a;
                        },
                        None => {
                            assert(done =~= all);
                            assert(fold_trace(all, fold_f, accs));
                            return acc;
                        },
                    }
                },
            }
        }
    }

    /// The items left in the inner vectors, and nothing more known unless the underlying
    /// iterator is known to be empty.
    closed spec fn spec_size_hint(&self) -> (usize, Option<usize>) {
        let front: (usize, Option<usize>) = if self.inner_front is Some { self.inner_front->0.spec_size_hint() } else { (0, Some(0)) };
        let back: (usize, Option<usize>) = if self.inner_back is Some { self.inner_back->0.spec_size_hint() } else { (0, Some(0)) };
        let outer: (usize, Option<usize>) = if self.iter.spec_size_hint() == (0usize, Some(0usize)) { (0, Some(0)) } else { (0, None) };
        crate::size_hint::add_spec(crate::size_hint::add_spec(front, back), outer)
    }

    fn size_hint(&self) -> (r: SizeHint) {
        let inner_front = match &self.inner_front {
            Some(inner) => inner.size_hint(),
            None => (0, Some(0)),
        };
        let inner_back = match &self.inner_back {
            Some(inner) => inner.size_hint(),
            None => (0, Some(0)),
        };
        let outer = match self.iter.size_hint() {
            (0, Some(0)) => (0, Some(0)),
            _ => (0, None),
        };
        proof {
            let fl = if self.inner_front is Some { self.inner_front->0.rest().len() as int } else { 0 };
            let bl = if self.inner_back is Some { self.inner_back->0.rest().len() as int } else { 0 };
            let ml = flat_map_ok_seq(self.f, self.iter.rest()).len() as int;
            assert(within(inner_front, fl));
            assert(within(inner_back, bl));
            if outer.1 == Some(0usize) {
                assert(self.iter.rest().len() == 0);
                assert(ml == 0);
            }
            assert(within(outer, ml));
        }
        let r = size_hint::add(size_hint::add(inner_front, inner_back), outer);
        assert(r == self.spec_size_hint());
        r
    }
}

impl<I, F, T, E> DoubleEndedItertools for FlatMapOk<I, F, T, E> where
    I: DoubleEndedItertools<Item = Result<T, E>>,
    F: FlatMapFn<T>,
 {
    fn next_back(&mut self) -> (r: Option<Result<F::Out, E>>) {
        loop
            invariant
                self.wf(),
                self.rest() == old(self).rest(),
            decreases self.iter.rest().len(),
                (if self.inner_back is Some { self.inner_back->0.rest().len() + 1 } else { 0 }),
                (if self.inner_front is Some { self.inner_front->0.rest().len() + 1 } else { 0 }),
        {
            if self.inner_back.is_some() {
                let mut inner = self.inner_back.take().unwrap();
                let ghost before = inner.rest();
                match inner.next_back() {
                    Some(item) => {
                        self.inner_back = Some(inner);
                        proof {
                            lemma_oks_drop_last::<F::Out, E>(before);
                            assert(old(self).rest() =~= self.rest() + seq![Ok::<F::Out, E>(item)]);
                        }
                        return Some(Ok(item));
                    },
                    None => {
                        proof {
                            assert(self.rest() =~= old(self).rest());
                        }
                    },
                }
            }
            let ghost s = self.iter.rest();
            match self.iter.next_back() {
                Some(Ok(ok)) => {
                    self.inner_back = Some(VecIter::new(self.f.apply(ok)));
                    proof {
                        lemma_flat_map_ok_seq_last(self.f, s);
                        assert(self.rest() =~= old(self).rest());
                    }
                },
                Some(Err(e)) => {
                    proof {
                        lemma_flat_map_ok_seq_last(self.f, s);
                        assert(old(self).rest() =~= self.rest() + seq![Err::<F::Out, E>(e)]);
                    }
                    return Some(Err(e));
                },
                None => {
                    if self.inner_front.is_some() {
                        let mut inner = self.inner_front.take().unwrap();
                        let ghost before = inner.rest();
                        match inner.next_back() {
                            Some(item) => {
                                self.inner_front = Some(inner);
                                proof {
                                    lemma_oks_drop_last::<F::Out, E>(before);
                                    assert(old(self).rest() =~= self.rest() + seq![Ok::<F::Out, E>(item)]);
                                }
                                return Some(Ok(item));
                            },
                            None => {
                                proof {
                                    assert(self.rest() =~= old(self).rest());
                                }
                            },
                        }
                    } else {
                        proof {
                            assert(old(self).rest() =~= Seq::<Result<F::Out, E>>::empty());
                        }
                        return None;
                    }
                },
            }
        }
    }
    /// Fold from the back: the items left in the back vector, then those that the underlying
    /// iterator gives from its back, then those left in the front vector.
    #[verifier::rlimit(30)]
    fn rfold<B, G: Fn(B, Result<F::Out, E>) -> B>(self, init: B, fold_f: G) -> (r: B) {
        let ghost all = self.rest().reverse();
        let ghost front: Seq<Result<F::Out, E>> = if self.inner_front is Some {
            oks(self.inner_front->0.rest())
        } else {
            Seq::empty()
        };
        let ghost back: Seq<Result<F::Out, E>> = if self.inner_back is Some {
            oks(self.inner_back->0.rest())
        } else {
            Seq::empty()
        };
        let FlatMapOk { iter, f, inner_front, inner_back, _phantom } = self;
        proof {
            let mid = flat_map_ok_seq(f, iter.rest());
            assert(self.rest() == front + mid + back);
            assert(all =~= back.reverse() + mid.reverse() + front.reverse());
        }
        let mut g = fold_f;
        let mut acc = init;
        let ghost mut done: Seq<Result<F::Out, E>> = Seq::empty();
        let ghost mut accs: Seq<B> = seq![init];
        match inner_back {
            Some(x) => {
                let ghost xs = oks::<F::Out, E>(x.rest()).reverse();
                let (a, g2) = rfold_oks(x, acc, g);
                proof {
                    let accs2 = choose|accs2: Seq<B>| fold_trace(xs, g2, accs2) && accs2[0] == acc && accs2.last() == a;
                    lemma_fold_trace_append(done, xs, g2, accs, accs2);
                    assert(done + xs =~= xs);
                    done = xs;
                    accs = accs + accs2.drop_first();
                }
                acc = a;
                g = g2;
            },
            None => {
                assert(back.reverse() =~= Seq::<Result<F::Out, E>>::empty());
            },
        }
        assert(done + flat_map_ok_seq(f, iter.rest()).reverse() + front.reverse() =~= all);
        let mut iter = iter;
        loop
            invariant
                iter.wf(),
                all == self.rest().reverse(),
                g == fold_f,
                forall|b: B, x: Result<F::Out, E>| call_requires(g, (b, x)),
                front == if inner_front is Some {
                    oks::<F::Out, E>(inner_front->0.rest())
                } else {
                    Seq::empty()
                },
                done + flat_map_ok_seq(f, iter.rest()).reverse() + front.reverse() == all,
                fold_trace(done, g, accs),
                accs[0] == init,
                accs.last() == acc,
            decreases iter.rest().len(),
        {
            let ghost s = iter.rest();
            match iter.next_back() {
                Some(Ok(ok)) => {
                    let vi = VecIter::new(f.apply(ok));
                    let ghost xs = oks::<F::Out, E>(vi.rest()).reverse();
                    let (a, g2) = rfold_oks(vi, acc, g);
                    proof {
                        let accs2 = choose|accs2: Seq<B>| fold_trace(xs, g2, accs2) && accs2[0] == acc && accs2.last() == a;
                        lemma_fold_trace_append(done, xs, g2, accs, accs2);
                        lemma_flat_map_ok_seq_last(f, s);
                        assert(s.drop_last() == iter.rest());
                        lemma_reverse_append(flat_map_ok_seq(f, iter.rest()), oks::<F::Out, E>(vi.rest()));
                        assert((done + xs) + flat_map_ok_seq(f, iter.rest()).reverse() + front.reverse()
                            =~= done + flat_map_ok_seq(f, s).reverse() + front.reverse());
                        done = done + xs;
                        accs = accs + accs2.drop_first();
                    }
                    acc = a;
                    g = g2;
                },
                Some(Err(e)) => {
                    acc = g(acc, Err(e));
                    proof {
                        lemma_fold_trace_push(done, g, accs, Err(e), acc);
                        lemma_flat_map_ok_seq_last(f, s);
                        assert(s.drop_last() == iter.rest());
                        lemma_reverse_append(flat_map_ok_seq(f, iter.rest()), seq![Err::<F::Out, E>(e)]);
                        assert(seq![Err::<F::Out, E>(e)].reverse() =~= seq![Err::<F::Out, E>(e)]);
                        assert(done.push(Err(e)) + flat_map_ok_seq(f, iter.rest()).reverse() + front.reverse()
                            =~= done + flat_map_ok_seq(f, s).reverse() + front.reverse());
                        done = done.push(Err(e));
                        accs = accs.push(acc);
                    }
                },
                None => {
                    assert(flat_map_ok_seq(f, iter.rest()).reverse() =~= Seq::<Result<F::Out, E>>::empty());
                    assert(done + front.reverse() =~= all);
                    match inner_front {
                        Some(x) => {
                            let (a, g2) = rfold_oks(x, acc, g);
                            proof {
                                let fr = front.reverse();
                                let accs2 = choose|accs2: Seq<B>| fold_trace(fr, g2, accs2) && accs2[0] == acc && accs2.last() == a;
                                lemma_fold_trace_append(done, fr, g2, accs, accs2);
                                accs = accs + accs2.drop_first();
                                assert(fold_trace(all, fold_f, accs));
                            }
                            return a;
                        },
                        None => {
                            assert(front.reverse() =~= Seq::<Result<F::Out, E>>::empty());
                            assert(done =~= all);
                            assert(fold_trace(all, fold_f, accs));
                            return acc;
                        },
                    }
                },
            }
        }
    }
}

} // verus!
