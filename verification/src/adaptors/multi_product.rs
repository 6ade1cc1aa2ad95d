//! The cartesian product of any number of iterators of the same type.
use vstd::prelude::*;
use crate::{Itertools, CloneIter};

verus! {

/// The last position at or before `j` whose digit can still grow below its radix, or `-1`.
pub open spec fn last_growable(pos: Seq<int>, lens: Seq<int>, j: int) -> int
    decreases j + 1,
{
    if j < 0 {
        -1
    } else if pos[j] + 1 < lens[j] {
        j
    } else {
        last_growable(pos, lens, j - 1)
    }
}

/// The mixed-radix successor of the digits `pos` (radices `lens`, the last digit moving
/// fastest), or `None` after the last one.
pub open spec fn odometer_succ(pos: Seq<int>, lens: Seq<int>) -> Option<Seq<int>> {
    let j = last_growable(pos, lens, pos.len() - 1);
    if j < 0 {
        None
    } else {
        Some(Seq::new(pos.len(), |k: int| if k < j { pos[k] } else if k == j { pos[j] + 1 } else { 0 }))
    }
}

/// The item of each sequence at the matching position.
pub open spec fn pick_each<T>(srcs: Seq<Seq<T>>, pos: Seq<int>) -> Seq<T> {
    Seq::new(srcs.len(), |k: int| srcs[k][pos[k]])
}

proof fn lemma_last_growable<T>(pos: Seq<int>, lens: Seq<int>, j: int, m: int)
    requires
        -1 <= m <= j < pos.len(),
        m >= 0 ==> pos[m] + 1 < lens[m],
        forall|k: int| m < k <= j ==> !(pos[k] + 1 < lens[k]),
    ensures
        last_growable(pos, lens, j) == m,
    decreases j - m,
{
    if j > m {
        lemma_last_growable::<T>(pos, lens, j - 1, m);
    }
}

/// One of the iterators of a product, with the untouched copy it restarts from.
struct MultiProductIter<I> {
    iter: I,
    iter_orig: I,
}

/// The next item of the iterator.
fn advance<I: Itertools>(m: &mut MultiProductIter<I>) -> (r: Option<I::Item>)
    requires
        old(m).iter.wf(),
    ensures
        final(m).iter_orig == old(m).iter_orig,
        final(m).iter.wf(),
        match r {
            None => old(m).iter.rest().len() == 0 && final(m).iter.rest().len() == 0,
            Some(x) => old(m).iter.rest().len() > 0 && x == old(m).iter.rest()[0]
                && final(m).iter.rest() == old(m).iter.rest().drop_first(),
        },
{
    m.iter.next()
}

/// Restart the iterator from its untouched copy and take its first item.
fn restart<I: CloneIter>(m: &mut MultiProductIter<I>) -> (r: I::Item)
    requires
        old(m).iter_orig.wf(),
        old(m).iter_orig.rest().len() > 0,
    ensures
        final(m).iter_orig == old(m).iter_orig,
        final(m).iter.wf(),
        r == old(m).iter_orig.rest()[0],
        final(m).iter.rest() == old(m).iter_orig.rest().drop_first(),
{
    m.iter = m.iter_orig.clone_iter();
    m.iter.next().unwrap()
}

struct MultiProductInner<I: Itertools> {
    iters: Vec<MultiProductIter<I>>,
    cur: Option<Vec<I::Item>>,
}

/// An iterator adaptor over the cartesian product of several iterators of the same type:
/// each item is a vector with one item of each iterator, the last iterator moving fastest.
pub struct MultiProduct<I: Itertools>(Option<MultiProductInner<I>>);

/// A copy of a vector of copyable items.
fn copy_vec<T: Copy>(v: &Vec<T>) -> (r: Vec<T>)
    ensures
        r@ == v@,
{
    let mut r: Vec<T> = Vec::new();
    let mut k: usize = 0;
    while k < v.len()
        invariant
            k <= v@.len(),
            r@ == v@.take(k as int),
        decreases v@.len() - k,
    {
        r.push(v[k]);
        k = k + 1;
        assert(r@ =~= v@.take(k as int));
    }
    assert(r@ =~= v@);
    r
}

/// Create a new cartesian product iterator over the given iterators.
pub fn multi_cartesian_product<I: CloneIter>(iters: Vec<I>) -> (r: MultiProduct<I>)
    requires
        forall|k: int| 0 <= k < iters@.len() ==> (#[trigger] iters@[k]).wf(),
    ensures
        r.wf(),
        r.sources() == Seq::new(iters@.len(), |k: int| iters@[k].rest()),
        !r.is_done(),
        !r.is_started(),
{
    let mut its: Vec<MultiProductIter<I>> = Vec::new();
    let mut iters = iters;
    let ghost all = iters@;
    let mut rev: Vec<I> = Vec::new();
    while iters.len() > 0
        invariant
            all == iters@ + rev@.reverse(),
            forall|k: int| 0 <= k < all.len() ==> (#[trigger] all[k]).wf(),
        decreases iters.len(),
    {
        let x = iters.pop().unwrap();
        proof {
            assert(rev@.push(x).reverse() =~= seq![x] + rev@.reverse());
            assert(all =~= iters@ + rev@.push(x).reverse());
        }
        rev.push(x);
    }
    assert(rev@.reverse() =~= all);
    while rev.len() > 0
        invariant
            all == its@.map_values(|m: MultiProductIter<I>| m.iter_orig) + rev@.reverse(),
            forall|k: int| 0 <= k < all.len() ==> (#[trigger] all[k]).wf(),
            forall|k: int|
                0 <= k < its@.len() ==> (#[trigger] its@[k]).iter.rest() == its@[k].iter_orig.rest()
                    && its@[k].iter.wf() && its@[k].iter_orig.wf(),
        decreases rev.len(),
    {
        let x = rev.pop().unwrap();
        proof {
            assert(all[its@.len() as int] == x);
        }
        let c = x.clone_iter();
        its.push(MultiProductIter { iter: c, iter_orig: x });
        proof {
            assert(all =~= its@.map_values(|m: MultiProductIter<I>| m.iter_orig) + rev@.reverse());
        }
    }
    let r = MultiProduct(Some(MultiProductInner { iters: its, cur: None }));
    proof {
        assert(its@.map_values(|m: MultiProductIter<I>| m.iter_orig) =~= all);
        assert(r.sources() =~= Seq::new(all.len(), |k: int| all[k].rest()));
    }
    r
}

impl<I: Itertools> MultiProduct<I> {
    /// The items of each of the iterators, as they were given.
    pub closed spec fn sources(&self) -> Seq<Seq<I::Item>> {
        match self.0 {
            Some(inner) => Seq::new(inner.iters@.len(), |k: int| inner.iters@[k].iter_orig.rest()),
            None => Seq::empty(),
        }
    }

    /// The product has stopped.
    pub closed spec fn is_done(&self) -> bool {
        self.0 is None
    }

    /// The first vector has been yielded.
    pub closed spec fn is_started(&self) -> bool {
        self.0 matches Some(inner) && inner.cur is Some
    }

    /// For each iterator, the position of its item in the vector yielded last.
    pub closed spec fn positions(&self) -> Seq<int> {
        match self.0 {
            Some(inner) => Seq::new(
                inner.iters@.len(),
                |k: int| inner.iters@[k].iter_orig.rest().len() - inner.iters@[k].iter.rest().len() - 1,
            ),
            None => Seq::empty(),
        }
    }

    /// The number of items of each iterator.
    pub open spec fn lens(&self) -> Seq<int> {
        Seq::new(self.sources().len(), |k: int| self.sources()[k].len() as int)
    }

    pub closed spec fn wf(&self) -> bool {
        match self.0 {
            None => true,
            Some(inner) => {
                &&& forall|k: int|
                    0 <= k < inner.iters@.len() ==> (#[trigger] inner.iters@[k]).iter.wf()
                        && inner.iters@[k].iter_orig.wf()
                &&& match inner.cur {
                    None => forall|k: int|
                        0 <= k < inner.iters@.len() ==> (#[trigger] inner.iters@[k]).iter.rest()
                            == inner.iters@[k].iter_orig.rest(),
                    Some(values) => {
                        &&& values@.len() == inner.iters@.len()
                        &&& forall|k: int|
                            0 <= k < inner.iters@.len() ==> {
                                let s = (#[trigger] inner.iters@[k]).iter_orig.rest();
                                let t = inner.iters@[k].iter.rest();
                                &&& t.len() < s.len()
                                &&& t == s.skip(s.len() - t.len())
                                &&& values@[k] == s[s.len() - t.len() - 1]
                            }
                    },
                }
            },
        }
    }
}

impl<I: CloneIter> MultiProduct<I> where I::Item: Copy {
    /// The next vector of the product.
    pub fn next(&mut self) -> (r: Option<Vec<I::Item>>)
        requires
            old(self).wf(),
        ensures
            final(self).wf(),
            old(self).is_done() ==> r is None && final(self).is_done(),
            !old(self).is_done() && !old(self).is_started() ==> if (forall|k: int|
                0 <= k < old(self).sources().len() ==> (#[trigger] old(self).sources()[k]).len() > 0) {
                &&& r matches Some(v) && v@ == pick_each(
                    old(self).sources(),
                    Seq::new(old(self).sources().len(), |k: int| 0int),
                )
                &&& final(self).is_started()
                &&& final(self).sources() == old(self).sources()
                &&& final(self).positions() == Seq::new(old(self).sources().len(), |k: int| 0int)
            } else {
                r is None && final(self).is_done()
            },
            old(self).is_started() ==> match odometer_succ(old(self).positions(), old(self).lens()) {
                Some(p) => r matches Some(v) && v@ == pick_each(old(self).sources(), p)
                    && final(self).is_started() && final(self).sources() == old(self).sources()
                    && final(self).positions() == p,
                None => r is None && final(self).is_done(),
            },
    {
        let mut inner = match self.0.take() {
            None => {
                return None;
            },
            Some(inner) => inner,
        };
        let ghost srcs = old(self).sources();
        let ghost pos = old(self).positions();
        let ghost lens = old(self).lens();
        let ghost iters0 = inner.iters@;
        match inner.cur.take() {
            Some(values) => {
                let mut values = values;
                let mut j: usize = values.len();
                while j > 0
                    invariant
                        j <= values@.len(),
                        values@.len() == inner.iters@.len(),
                        old(self).is_started(),
                        srcs == old(self).sources(),
                        pos == old(self).positions(),
                        lens == old(self).lens(),
                        iters0.len() == inner.iters@.len(),
                        srcs.len() == iters0.len(),
                        pos.len() == iters0.len(),
                        lens.len() == iters0.len(),
                        self.0 is None,
                        inner.cur is None,
                        forall|k: int| 0 <= k < srcs.len() ==> (#[trigger] srcs[k]) == iters0[k].iter_orig.rest(),
                        forall|k: int| 0 <= k < srcs.len() ==> (#[trigger] lens[k]) == srcs[k].len(),
                        forall|k: int|
                            0 <= k < srcs.len() ==> (#[trigger] pos[k]) == srcs[k].len()
                                - iters0[k].iter.rest().len() - 1,
                        forall|k: int|
                            0 <= k < inner.iters@.len() ==> (#[trigger] inner.iters@[k]).iter.wf()
                                && inner.iters@[k].iter_orig == iters0[k].iter_orig
                                && iters0[k].iter_orig.wf(),
                        forall|k: int|
                            0 <= k < inner.iters@.len() ==> {
                                let s = (#[trigger] inner.iters@[k]).iter_orig.rest();
                                let t = inner.iters@[k].iter.rest();
                                &&& t.len() < s.len()
                                &&& t == s.skip(s.len() - t.len())
                                &&& values@[k] == s[s.len() - t.len() - 1]
                            },
                        forall|k: int| 0 <= k < j ==> (#[trigger] inner.iters@[k]) == iters0[k],
                        forall|k: int| j <= k < srcs.len() ==> !(#[trigger] pos[k] + 1 < lens[k]),
                        forall|k: int|
                            j <= k < srcs.len() ==> (#[trigger] inner.iters@[k]).iter.rest().len() + 1
                                == srcs[k].len(),
                    decreases j,
                {
                    j = j - 1;
                    let ghost t0 = inner.iters@[j as int].iter.rest();
                    match advance(&mut inner.iters[j]) {
                        Some(new) => {
                            proof {
                                let sj = srcs[j as int];
                                let t1 = inner.iters@[j as int].iter.rest();
                                assert(t1 =~= sj.skip(sj.len() - t1.len()));
                                assert forall|k: int| 0 <= k < inner.iters@.len() implies {
                                    let s = (#[trigger] inner.iters@[k]).iter_orig.rest();
                                    let t = inner.iters@[k].iter.rest();
                                    &&& t.len() < s.len()
                                    &&& t == s.skip(s.len() - t.len())
                                    &&& values@.update(j as int, new)[k] == s[s.len() - t.len() - 1]
                                } by {
                                    if k == j {
                                        assert(new == t0[0]);
                                    }
                                }
                            }
                            values.set(j, new);
                            inner.cur = Some(copy_vec(&values));
                            self.0 = Some(inner);
                            proof {
                                lemma_last_growable::<I::Item>(pos, lens, pos.len() - 1, j as int);
                                let p = odometer_succ(pos, lens).unwrap();
                                assert(final(self).positions() =~= p);
                                assert(values@ =~= pick_each(srcs, p));
                            }
                            return Some(values);
                        },
                        None => {
                            let x = restart(&mut inner.iters[j]);
                            values.set(j, x);
                            proof {
                                assert(pos[j as int] + 1 == lens[j as int]);
                            }
                        },
                    }
                }
                proof {
                    lemma_last_growable::<I::Item>(pos, lens, pos.len() - 1, -1);
                }
                None
            },
            None => {
                let mut next: Vec<I::Item> = Vec::new();
                let mut k: usize = 0;
                while k < inner.iters.len()
                    invariant
                        k <= inner.iters@.len(),
                        next@.len() == k,
                        !old(self).is_done(),
                        !old(self).is_started(),
                        srcs == old(self).sources(),
                        iters0.len() == inner.iters@.len(),
                        self.0 is None,
                        inner.cur is None,
                        forall|t: int|
                            0 <= t < inner.iters@.len() ==> (#[trigger] inner.iters@[t]).iter.wf()
                                && inner.iters@[t].iter_orig == iters0[t].iter_orig
                                && iters0[t].iter_orig.wf(),
                        forall|t: int| k <= t < inner.iters@.len() ==> (#[trigger] inner.iters@[t]) == iters0[t],
                        forall|t: int|
                            0 <= t < iters0.len() ==> (#[trigger] iters0[t]).iter.rest()
                                == iters0[t].iter_orig.rest(),
                        srcs.len() == iters0.len(),
                        forall|t: int| 0 <= t < srcs.len() ==> (#[trigger] srcs[t]) == iters0[t].iter_orig.rest(),
                        forall|t: int|
                            0 <= t < k ==> {
                                let s = (#[trigger] inner.iters@[t]).iter_orig.rest();
                                &&& s.len() > 0
                                &&& inner.iters@[t].iter.rest() == s.skip(1)
                                &&& next@[t] == s[0]
                            },
                    decreases inner.iters@.len() - k,
                {
                    match advance(&mut inner.iters[k]) {
                        Some(x) => {
                            next.push(x);
                        },
                        None => {
                            proof {
                                assert(srcs[k as int].len() == 0);
                                assert(old(self).sources()[k as int].len() == 0);
                            }
                            return None;
                        },
                    }
                    k = k + 1;
                }
                inner.cur = Some(copy_vec(&next));
                self.0 = Some(inner);
                proof {
                    assert forall|t: int| 0 <= t < srcs.len() implies (#[trigger] old(self).sources()[t]).len() > 0 by {
                        assert(srcs[t] == inner.iters@[t].iter_orig.rest());
                    }
                    assert(final(self).positions() =~= Seq::new(srcs.len(), |t: int| 0int));
                    assert(next@ =~= pick_each(srcs, Seq::new(srcs.len(), |t: int| 0int)));
                    assert forall|t: int| 0 <= t < inner.iters@.len() implies {
                        let s = (#[trigger] inner.iters@[t]).iter_orig.rest();
                        let u = inner.iters@[t].iter.rest();
                        &&& u.len() < s.len()
                        &&& u == s.skip(s.len() - u.len())
                        &&& next@[t] == s[s.len() - u.len() - 1]
                    } by {
                    }
                }
                Some(next)
            },
        }
    }
}

} // verus!
