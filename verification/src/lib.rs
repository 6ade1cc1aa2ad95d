//! Extra iterator adaptors, functions and algorithms over finite sequences.
//!
//! Every iterator of this crate implements [`Itertools`]: its abstract state is
//! the sequence of items it will still yield (`rest`), and `next` hands out the
//! first of them.
use vstd::prelude::*;

pub mod size_hint;
pub mod free;
pub mod cartesian_power;
pub mod lazy_buffer;
pub mod binomial;
pub mod combinations;
pub mod combinations_by_len;
pub mod combinations_up_to;
pub mod combinations_with_replacement;
pub mod circular_windows;
pub mod inplacemut;
pub mod groupbylazy;
pub mod diff;
pub mod extrema_set;
pub mod collect_into_slice;
pub mod copy_into_slice;
pub mod filter_common;
pub mod column_row;
pub mod concat_impl;
pub mod flatten_ok;
pub mod flat_map_ok;
pub mod hash_join;
pub mod kmerge;
pub mod kmerge_impl;
pub mod array_chunks;
pub mod arrays;
pub mod array_combinations;
pub mod duplicates_impl;
pub mod grouping_map;
pub mod group_map;
pub mod lookup;
pub mod map;
pub mod iter_index;
pub mod generic_containers;
pub mod k_smallest;
pub mod format;
pub mod adaptors;
pub mod intersperse;
pub mod islice;
pub mod merge_join;
pub mod exactly_one_err;
pub mod at_most_one;
pub mod all_equal_value_err;
pub mod boxiter;
pub mod fn_iter;
pub mod minmax;

verus! {

/// The iterator protocol of this crate, with its extra methods.
///
/// `rest()` is the sequence of items that the iterator will still yield; `wf()` is the
/// internal invariant that every method keeps.
pub trait Itertools: Sized {
    type Item;

    spec fn rest(&self) -> Seq<Self::Item>;

    spec fn wf(&self) -> bool;

    /// Yield the first remaining item, or `None` when nothing is left.
    fn next(&mut self) -> (r: Option<Self::Item>)
        requires
            old(self).wf(),
        ensures
            final(self).wf(),
            match r {
                None => old(self).rest().len() == 0 && final(self).rest().len() == 0,
                Some(x) => old(self).rest().len() > 0 && x == old(self).rest()[0]
                    && final(self).rest() == old(self).rest().drop_first(),
            },
    ;

    /// The size hint of the iterator in its current state.
    spec fn spec_size_hint(&self) -> (usize, Option<usize>);

    /// Bounds on the number of remaining items.
    fn size_hint(&self) -> (r: (usize, Option<usize>))
        requires
            self.wf(),
        ensures
            r == self.spec_size_hint(),
            r.0 <= self.rest().len(),
            r.1 matches Some(hi) ==> self.rest().len() <= hi,
    ;

    /// Consume the first `n` items eagerly; return how many were consumed.
    fn dropn(&mut self, n: usize) -> (k: usize)
        requires
            old(self).wf(),
        ensures
            final(self).wf(),
            k == if n <= old(self).rest().len() { n as int } else { old(self).rest().len() as int },
            final(self).rest() == old(self).rest().skip(k as int),
    {
        let mut m = n;
        while m > 0
            invariant
                self.wf(),
                m <= n,
                (n - m) <= old(self).rest().len(),
                self.rest() == old(self).rest().skip(n - m),
            decreases m,
        {
            match self.next() {
                Some(_) => {
                    m = m - 1;
                },
                None => {
                    return n - m;
                },
            }
        }
        n - m
    }

    /// The position and value of the first remaining item that satisfies `pred`; the items
    /// up to it are consumed, and all of them when none satisfies it.
    fn find_position<P: Fn(&Self::Item) -> bool>(&mut self, pred: P) -> (r: Option<(usize, Self::Item)>)
        requires
            old(self).wf(),
            old(self).rest().len() <= usize::MAX,
            forall|x: &Self::Item| call_requires(pred, (x,)),
        ensures
            final(self).wf(),
            match r {
                Some((k, x)) => {
                    &&& k < old(self).rest().len()
                    &&& x == old(self).rest()[k as int]
                    &&& call_ensures(pred, (&x,), true)
                    &&& forall|j: int| 0 <= j < k ==> call_ensures(pred, (&old(self).rest()[j],), false)
                    &&& final(self).rest() == old(self).rest().skip(k + 1)
                },
                None => {
                    &&& forall|j: int| 0 <= j < old(self).rest().len() ==> call_ensures(pred, (&old(self).rest()[j],), false)
                    &&& final(self).rest().len() == 0
                },
            },
    {
        let ghost all = old(self).rest();
        let mut index: usize = 0;
        loop
            invariant
                self.wf(),
                all == old(self).rest(),
                all.len() <= usize::MAX,
                index <= all.len(),
                self.rest() == all.skip(index as int),
                forall|x: &Self::Item| call_requires(pred, (x,)),
                forall|j: int| 0 <= j < index ==> call_ensures(pred, (&all[j],), false),
            decreases all.len() - index,
        {
            let ghost before = self.rest();
            match self.next() {
                Some(elt) => {
                    proof {
                        assert(elt == all[index as int]);
                    }
                    if pred(&elt) {
                        proof {
                            assert(self.rest() =~= all.skip(index + 1));
                        }
                        return Some((index, elt));
                    }
                    proof {
                        assert(self.rest() =~= all.skip(index + 1));
                    }
                    index = index + 1;
                },
                None => {
                    return None;
                },
            }
        }
    }

    /// Fold the remaining items with `f`, starting from the first of them; `None` when there
    /// is none. The iterator is exhausted.
    fn fold1<F: Fn(Self::Item, Self::Item) -> Self::Item>(&mut self, f: F) -> (r: Option<Self::Item>)
        requires
            old(self).wf(),
            forall|a: Self::Item, b: Self::Item| call_requires(f, (a, b)),
        ensures
            final(self).wf(),
            final(self).rest().len() == 0,
            old(self).rest().len() == 0 <==> r is None,
            r matches Some(v) ==> exists|accs: Seq<Self::Item>|
                crate::free::fold_trace(old(self).rest().drop_first(), f, accs) && accs[0] == old(self).rest()[0]
                    && accs.last() == v,
    {
        let ghost all = old(self).rest();
        let mut acc = match self.next() {
            None => {
                return None;
            },
            Some(x) => x,
        };
        let ghost rest = all.drop_first();
        let ghost mut accs: Seq<Self::Item> = seq![acc];
        let ghost mut n: int = 0;
        loop
            invariant
                self.wf(),
                all == old(self).rest(),
                all.len() > 0,
                rest == all.drop_first(),
                forall|a: Self::Item, b: Self::Item| call_requires(f, (a, b)),
                0 <= n <= rest.len(),
                self.rest() == rest.skip(n),
                accs.len() == n + 1,
                accs[0] == all[0],
                accs.last() == acc,
                forall|i: int| 0 <= i < n ==> call_ensures(f, (accs[i], rest[i]), #[trigger] accs[i + 1]),
            decreases self.rest().len(),
        {
            match self.next() {
                Some(x) => {
                    let ghost prev = accs;
                    acc = f(acc, x);
                    proof {
                        accs = prev.push(acc);
                        assert(rest[n] == x);
                        n = n + 1;
                        assert(self.rest() =~= rest.skip(n));
                        assert forall|i: int| 0 <= i < n implies call_ensures(
                            f,
                            (accs[i], rest[i]),
                            #[trigger] accs[i + 1],
                        ) by {
                            if i < n - 1 {
                                assert(accs[i] == prev[i]);
                                assert(accs[i + 1] == prev[i + 1]);
                            }
                        }
                    }
                },
                None => {
                    assert(crate::free::fold_trace(rest, f, accs));
                    return Some(acc);
                },
            }
        }
    }

    /// Fold the remaining items with `f`, starting from `init`, consuming the iterator.
    fn fold<B, G: Fn(B, Self::Item) -> B>(self, init: B, f: G) -> (r: B)
        requires
            self.wf(),
            forall|b: B, x: Self::Item| call_requires(f, (b, x)),
        ensures
            exists|accs: Seq<B>| crate::free::fold_trace(self.rest(), f, accs) && accs[0] == init && accs.last() == r,
    {
        let ghost all = self.rest();
        let mut it = self;
        let mut acc = init;
        let ghost mut done: Seq<Self::Item> = Seq::empty();
        let ghost mut accs: Seq<B> = seq![init];
        loop
            invariant
                it.wf(),
                all == self.rest(),
                forall|b: B, x: Self::Item| call_requires(f, (b, x)),
                done + it.rest() == all,
                crate::free::fold_trace(done, f, accs),
                accs[0] == init,
                accs.last() == acc,
            decreases it.rest().len(),
        {
            let ghost before = it.rest();
            match it.next() {
                Some(x) => {
                    let ghost prev = acc;
                    acc = f(acc, x);
                    proof {
                        crate::free::lemma_fold_trace_push(done, f, accs, x, acc);
                        assert(done.push(x) + it.rest() =~= done + before);
                        done = done.push(x);
                        accs = accs.push(acc);
                    }
                },
                None => {
                    assert(done =~= all);
                    return acc;
                },
            }
        }
    }

    /// Call `f` on each remaining item, in order, until the iterator is exhausted.
    fn foreach<F: Fn(Self::Item)>(&mut self, f: F)
        requires
            old(self).wf(),
            forall|x: Self::Item| call_requires(f, (x,)),
        ensures
            final(self).wf(),
            final(self).rest().len() == 0,
    {
        loop
            invariant
                self.wf(),
                forall|x: Self::Item| call_requires(f, (x,)),
            decreases self.rest().len(),
        {
            match self.next() {
                Some(x) => {
                    f(x);
                },
                None => {
                    return;
                },
            }
        }
    }

    /// The number of remaining items, consuming the iterator.
    fn count(self) -> (n: usize)
        requires
            self.wf(),
            self.rest().len() <= usize::MAX,
        ensures
            n == self.rest().len(),
    {
        let ghost total = self.rest().len();
        let mut it = self;
        let mut n: usize = 0;
        loop
            invariant
                it.wf(),
                total == self.rest().len(),
                total <= usize::MAX,
                n + it.rest().len() == total,
            decreases it.rest().len(),
        {
            match it.next() {
                Some(_) => {
                    n = n + 1;
                },
                None => {
                    return n;
                },
            }
        }
    }

    /// The last remaining item, consuming the iterator.
    fn last(self) -> (r: Option<Self::Item>)
        requires
            self.wf(),
        ensures
            r == if self.rest().len() == 0 {
                None::<Self::Item>
            } else {
                Some(self.rest().last())
            },
    {
        let ghost all = self.rest();
        let mut it = self;
        let mut last: Option<Self::Item> = None;
        loop
            invariant
                it.wf(),
                all == self.rest(),
                all.len() >= it.rest().len(),
                it.rest() == all.skip(all.len() - it.rest().len()),
                last == if all.len() == it.rest().len() {
                    None::<Self::Item>
                } else {
                    Some(all[all.len() - it.rest().len() - 1])
                },
            decreases it.rest().len(),
        {
            let ghost before = it.rest();
            match it.next() {
                Some(x) => {
                    proof {
                        assert(it.rest() =~= all.skip(all.len() - it.rest().len()));
                        assert(before[0] == all[all.len() - before.len()]);
                    }
                    last = Some(x);
                },
                None => {
                    return last;
                },
            }
        }
    }

    /// The item at position `n` of the remaining items; the items before it and it are
    /// consumed.
    fn nth(&mut self, n: usize) -> (r: Option<Self::Item>)
        requires
            old(self).wf(),
        ensures
            final(self).wf(),
            r == if n < old(self).rest().len() {
                Some(old(self).rest()[n as int])
            } else {
                None::<Self::Item>
            },
            final(self).rest() == old(self).rest().skip(
                if n < old(self).rest().len() { n + 1 } else { old(self).rest().len() as int },
            ),
    {
        let k = self.dropn(n);
        if k < n {
            proof {
                assert(self.rest().len() == 0);
            }
            return None;
        }
        let ghost mid = self.rest();
        let r = self.next();
        proof {
            if r is Some {
                assert(self.rest() =~= old(self).rest().skip(n + 1));
            } else {
                assert(self.rest() =~= old(self).rest().skip(old(self).rest().len() as int));
            }
        }
        r
    }

    /// Consume the first `n` items eagerly and return the iterator.
    fn dropping(self, n: usize) -> (r: Self)
        requires
            self.wf(),
        ensures
            r.wf(),
            r.rest() == self.rest().skip(
                if n <= self.rest().len() { n as int } else { self.rest().len() as int },
            ),
    {
        let mut it = self;
        it.dropn(n);
        it
    }

    /// Collect all remaining items into a vector.
    fn collect_vec(self) -> (v: Vec<Self::Item>)
        requires
            self.wf(),
        ensures
            v@ == self.rest(),
    {
        let ghost all = self.rest();
        let mut it = self;
        let mut v: Vec<Self::Item> = Vec::new();
        loop
            invariant
                it.wf(),
                all == self.rest(),
                all == v@ + it.rest(),
            decreases it.rest().len(),
        {
            match it.next() {
                Some(x) => {
                    proof {
                        assert(all == v@.push(x) + it.rest()) by {
                            assert(v@.push(x) + it.rest() =~= v@ + (seq![x] + it.rest()));
                            assert(seq![x] + it.rest() =~= old_rest_of(x, it.rest()));
                        }
                    }
                    v.push(x);
                },
                None => {
                    assert(all =~= v@);
                    return v;
                },
            }
        }
    }

    /// Tell from the size hint whether the iterator is empty, where the hint tells.
    fn is_empty_hint(&self) -> (r: Option<bool>)
        requires
            self.wf(),
        ensures
            r matches Some(b) ==> b == (self.rest().len() == 0),
            r == hint_emptiness(self.spec_size_hint()),
    {
        let h = self.size_hint();
        emptiness_of_hint(h)
    }
}

/// What a size hint tells of emptiness: `None` for a hint whose bounds cross, `Some(true)`
/// for an upper bound of zero, `Some(false)` for a lower bound above zero, else `None`.
pub open spec fn hint_emptiness(h: (usize, Option<usize>)) -> Option<bool> {
    if h.1 matches Some(hi) && hi < h.0 {
        None
    } else if h.1 == Some(0usize) {
        Some(true)
    } else if h.0 > 0 {
        Some(false)
    } else {
        None
    }
}

/// Tell from the size hint `h` whether an iterator is empty, where the hint tells.
pub fn emptiness_of_hint(h: (usize, Option<usize>)) -> (r: Option<bool>)
    ensures
        r == hint_emptiness(h),
{
    let (low, opt_hi) = h;
    match opt_hi {
        Some(hi) => {
            if hi < low {
                return None;
            }
            if hi == 0 {
                return Some(true);
            }
        },
        None => {},
    }
    if low > 0 {
        Some(false)
    } else {
        None
    }
}

/// An iterator that can also hand out its items from the back.
pub trait DoubleEndedItertools: Itertools {
    /// Yield the last remaining item, or `None` when nothing is left.
    fn next_back(&mut self) -> (r: Option<Self::Item>)
        requires
            old(self).wf(),
        ensures
            final(self).wf(),
            match r {
                None => old(self).rest().len() == 0 && final(self).rest().len() == 0,
                Some(x) => old(self).rest().len() > 0 && x == old(self).rest().last()
                    && final(self).rest() == old(self).rest().drop_last(),
            },
    ;

    /// Drop the last `n` items (all of them when there are fewer).
    fn dropping_back(self, n: usize) -> (r: Self)
        requires
            self.wf(),
        ensures
            r.wf(),
            r.rest() == self.rest().take(
                if n <= self.rest().len() { self.rest().len() - n } else { 0 },
            ),
    {
        let ghost all = self.rest();
        let mut it = self;
        let mut m: usize = n;
        while m > 0
            invariant
                it.wf(),
                all == self.rest(),
                m <= n,
                (n - m) <= all.len(),
                it.rest() == all.take(all.len() - (n - m)),
            decreases m,
        {
            match it.next_back() {
                Some(_) => {
                    m = m - 1;
                },
                None => {
                    assert(all.len() == n - m);
                    return it;
                },
            }
        }
        it
    }

    /// Fold the remaining items from the back with `f`, starting from `init`, consuming the
    /// iterator.
    fn rfold<B, G: Fn(B, Self::Item) -> B>(self, init: B, f: G) -> (r: B)
        requires
            self.wf(),
            forall|b: B, x: Self::Item| call_requires(f, (b, x)),
        ensures
            exists|accs: Seq<B>|
                crate::free::fold_trace(self.rest().reverse(), f, accs) && accs[0] == init && accs.last() == r,
    {
        let ghost all = self.rest().reverse();
        let mut it = self;
        let mut acc = init;
        let ghost mut done: Seq<Self::Item> = Seq::empty();
        let ghost mut accs: Seq<B> = seq![init];
        loop
            invariant
                it.wf(),
                all == self.rest().reverse(),
                forall|b: B, x: Self::Item| call_requires(f, (b, x)),
                done + it.rest().reverse() == all,
                crate::free::fold_trace(done, f, accs),
                accs[0] == init,
                accs.last() == acc,
            decreases it.rest().len(),
        {
            let ghost before = it.rest();
            match it.next_back() {
                Some(x) => {
                    acc = f(acc, x);
                    proof {
                        crate::free::lemma_fold_trace_push(done, f, accs, x, acc);
                        assert(before.reverse() =~= seq![x] + it.rest().reverse());
                        assert(done.push(x) + it.rest().reverse() =~= done + before.reverse());
                        done = done.push(x);
                        accs = accs.push(acc);
                    }
                },
                None => {
                    assert(it.rest().reverse() =~= Seq::<Self::Item>::empty());
                    assert(done =~= all);
                    return acc;
                },
            }
        }
    }
}

/// An iterator that can be duplicated: the copy yields the same items as the source.
pub trait CloneIter: Itertools {
    /// A second iterator over the same remaining items.
    fn clone_iter(&self) -> (r: Self)
        requires
            self.wf(),
        ensures
            r.wf(),
            r.rest() == self.rest(),
    ;
}

/// Fold the values inside `Ok` with `f`, starting from `start`, stopping at the first `Err`,
/// which is returned.
pub fn fold_results<A, E, B, I: Itertools<Item = Result<A, E>>, F: Fn(B, A) -> B>(
    iter: &mut I,
    start: B,
    f: F,
) -> (r: Result<B, E>)
    requires
        old(iter).wf(),
        forall|b: B, a: A| call_requires(f, (b, a)),
    ensures
        final(iter).wf(),
        ({
            let s = old(iter).rest();
            let k = first_err(s);
            let oks = Seq::new(k as nat, |i: int| s[i]->Ok_0);
            &&& k < s.len() ==> r == Err::<B, E>(s[k]->Err_0) && final(iter).rest() == s.skip(k + 1)
            &&& k == s.len() ==> final(iter).rest().len() == 0 && (r matches Ok(v) && exists|accs: Seq<B>|
                crate::free::fold_trace(oks, f, accs) && accs[0] == start && accs.last() == v)
        }),
{
    let ghost all = old(iter).rest();
    let ghost k = first_err(all);
    proof {
        lemma_first_err(all);
    }
    let mut acc = start;
    let ghost mut accs: Seq<B> = seq![start];
    let ghost mut n: int = 0;
    loop
        invariant
            iter.wf(),
            all == old(iter).rest(),
            k == first_err(all),
            0 <= k <= all.len(),
            forall|i: int| 0 <= i < k ==> all[i] is Ok,
            k < all.len() ==> all[k] is Err,
            forall|b: B, a: A| call_requires(f, (b, a)),
            0 <= n <= k,
            iter.rest() == all.skip(n),
            accs.len() == n + 1,
            accs[0] == start,
            accs.last() == acc,
            forall|i: int| 0 <= i < n ==> call_ensures(f, (accs[i], all[i]->Ok_0), #[trigger] accs[i + 1]),
        decreases iter.rest().len(),
    {
        match iter.next() {
            Some(Ok(v)) => {
                let ghost prev = accs;
                acc = f(acc, v);
                proof {
                    accs = prev.push(acc);
                    n = n + 1;
                    assert(iter.rest() =~= all.skip(n));
                    assert forall|i: int| 0 <= i < n implies call_ensures(
                        f,
                        (accs[i], all[i]->Ok_0),
                        #[trigger] accs[i + 1],
                    ) by {
                        if i < n - 1 {
                            assert(accs[i] == prev[i]);
                            assert(accs[i + 1] == prev[i + 1]);
                        }
                    }
                }
            },
            Some(Err(u)) => {
                proof {
                    assert(n == k);
                    assert(iter.rest() =~= all.skip(k + 1));
                }
                return Err(u);
            },
            None => {
                proof {
                    let oks = Seq::new(k as nat, |i: int| all[i]->Ok_0);
                    assert(crate::free::fold_trace(oks, f, accs));
                }
                return Ok(acc);
            },
        }
    }
}

/// Whether `a` and `b` yield equal items, and the same number of them.
pub fn equal<I, J>(a: I, b: J) -> (r: bool) where
    I: Itertools<Item = i64>,
    J: Itertools<Item = i64>,

    requires
        a.wf(),
        b.wf(),
    ensures
        r == (a.rest() == b.rest()),
{
    let ghost sa = a.rest();
    let ghost sb = b.rest();
    let mut ia = a;
    let mut ib = b;
    loop
        invariant
            ia.wf(),
            ib.wf(),
            sa == a.rest(),
            sb == b.rest(),
            sa.len() - ia.rest().len() == sb.len() - ib.rest().len(),
            ia.rest().len() <= sa.len(),
            ib.rest().len() <= sb.len(),
            ia.rest() == sa.skip(sa.len() - ia.rest().len()),
            ib.rest() == sb.skip(sb.len() - ib.rest().len()),
            (sa == sb) == (ia.rest() == ib.rest()),
        decreases ia.rest().len(),
    {
        let ghost (ra, rb) = (ia.rest(), ib.rest());
        match (ia.next(), ib.next()) {
            (Some(x), Some(y)) => {
                if x != y {
                    proof {
                        assert(ra[0] != rb[0]);
                    }
                    return false;
                }
                proof {
                    assert(ia.rest() =~= sa.skip(sa.len() - ia.rest().len()));
                    assert(ib.rest() =~= sb.skip(sb.len() - ib.rest().len()));
                    if ia.rest() == ib.rest() {
                        assert(ra =~= rb) by {
                            assert(ra =~= seq![x] + ia.rest());
                            assert(rb =~= seq![y] + ib.rest());
                        }
                    }
                }
            },
            (None, None) => {
                proof {
                    assert(ra =~= rb);
                }
                return true;
            },
            (Some(_), None) => {
                return false;
            },
            (None, Some(_)) => {
                return false;
            },
        }
    }
}

/// Reorder `data` so that the items for which `pred` holds come before those for which it
/// does not, and return the number of the former. The order within each part is arbitrary.
pub fn partition<A, F: Fn(&A) -> bool>(data: &mut Vec<A>, pred: F) -> (split: usize)
    requires
        forall|x: &A| call_requires(pred, (x,)),
    ensures
        split <= final(data)@.len(),
        final(data)@.to_multiset() == old(data)@.to_multiset(),
        forall|k: int| 0 <= k < split ==> call_ensures(pred, (&final(data)@[k],), true),
        forall|k: int| split <= k < final(data)@.len() ==> call_ensures(pred, (&final(data)@[k],), false),
{
    let n = data.len();
    let mut split_index: usize = 0;
    let mut i: usize = 0;
    let mut j: usize = n;
    let mut stop = false;
    while i < j && !stop
        invariant
            data@.len() == n,
            i <= j <= n,
            forall|x: &A| call_requires(pred, (x,)),
            data@.to_multiset() == old(data)@.to_multiset(),
            !stop ==> split_index == i,
            stop ==> split_index + 1 == i && split_index < n,
            forall|k: int| 0 <= k < split_index ==> call_ensures(pred, (&data@[k],), true),
            forall|k: int| j <= k < n ==> call_ensures(pred, (&data@[k],), false),
            stop ==> forall|k: int| split_index <= k < n ==> call_ensures(pred, (&data@[k],), false),
        decreases j - i,
    {
        let front = i;
        i = i + 1;
        if !pred(&data[front]) {
            let mut found = false;
            let ghost j0 = j;
            while i < j && !found
                invariant
                    j <= j0,
                    data@.len() == n,
                    front + 1 == i,
                    i <= j <= n,
                    forall|x: &A| call_requires(pred, (x,)),
                    data@.to_multiset() == old(data)@.to_multiset(),
                    split_index == front,
                    !found ==> call_ensures(pred, (&data@[front as int],), false),
                    found ==> call_ensures(pred, (&data@[front as int],), true),
                    forall|k: int| 0 <= k < split_index ==> call_ensures(pred, (&data@[k],), true),
                    forall|k: int| j <= k < n ==> call_ensures(pred, (&data@[k],), false),
                decreases j - i + (if found { 0int } else { 1int }),
            {
                j = j - 1;
                if pred(&data[j]) {
                    let ghost before = data@;
                    crate::inplacemut::InplaceMappable::swap(data, front, j);
                    proof {
                        crate::free::lemma_swap_multiset(before, front as int, j as int);
                        assert(data@[front as int] == before[j as int]);
                    }
                    found = true;
                }
            }
            if !found {
                stop = true;
            }
        }
        if !stop {
            split_index = split_index + 1;
        }
    }
    split_index
}

/// The position of the first `Err` of `s`, or its length when there is none.
pub open spec fn first_err<A, E>(s: Seq<Result<A, E>>) -> int
    decreases s.len(),
{
    if s.len() == 0 {
        0
    } else if s[0] is Err {
        0
    } else {
        1 + first_err(s.drop_first())
    }
}

pub proof fn lemma_first_err<A, E>(s: Seq<Result<A, E>>)
    ensures
        0 <= first_err(s) <= s.len(),
        forall|i: int| 0 <= i < first_err(s) ==> s[i] is Ok,
        first_err(s) < s.len() ==> s[first_err(s)] is Err,
    decreases s.len(),
{
    if s.len() > 0 && s[0] is Ok {
        lemma_first_err(s.drop_first());
        assert forall|i: int| 0 <= i < first_err(s) implies s[i] is Ok by {
            if i > 0 {
                assert(s[i] == s.drop_first()[i - 1]);
            }
        }
    }
}

pub open spec fn old_rest_of<T>(x: T, s: Seq<T>) -> Seq<T> {
    seq![x] + s
}


/// Assign the items of `from` to the slots of `slots` in order, as long as both last; return
/// how many were assigned.
pub fn set_from<A, J: Itertools<Item = A>>(slots: &mut Vec<A>, from: J) -> (count: usize)
    requires
        from.wf(),
    ensures
        count == if old(slots).len() <= from.rest().len() {
            old(slots).len() as int
        } else {
            from.rest().len() as int
        },
        final(slots)@ == from.rest().take(count as int) + old(slots)@.skip(count as int),
{
    let ghost all = from.rest();
    let mut it = from;
    let mut count: usize = 0;
    loop
        invariant_except_break
            it.wf(),
            it.rest() == all.skip(count as int),
        invariant
            all == from.rest(),
            count <= slots.len(),
            slots.len() == old(slots).len(),
            count <= all.len(),
            slots@ == all.take(count as int) + old(slots)@.skip(count as int),
        ensures
            count == if old(slots).len() <= all.len() {
                old(slots).len() as int
            } else {
                all.len() as int
            },
        decreases it.rest().len(),
    {
        match it.next() {
            None => {
                proof {
                    assert(count == all.len());
                }
                break;
            },
            Some(elt) => {
                if count >= slots.len() {
                    proof {
                        assert(count < all.len());
                    }
                    break;
                }
                slots.set(count, elt);
                count = count + 1;
                proof {
                    assert(it.rest() =~= all.skip(count as int));
                    assert(slots@ =~= all.take(count as int) + old(slots)@.skip(count as int));
                }
            },
        }
    }
    count
}

/// An iterator over the items of a vector, in order.
pub struct VecIter<T> {
    /// The remaining items, last item first.
    stack: Vec<T>,
}

impl<T> VecIter<T> {
    /// Iterate over the items of `v`.
    pub fn new(v: Vec<T>) -> (r: Self)
        ensures
            r.wf(),
            r.rest() == v@,
    {
        let ghost all = v@;
        let mut v = v;
        let mut stack: Vec<T> = Vec::new();
        while v.len() > 0
            invariant
                all == v@ + stack@.reverse(),
            decreases v.len(),
        {
            let x = v.pop().unwrap();
            proof {
                assert(stack@.push(x).reverse() =~= seq![x] + stack@.reverse());
                assert(all =~= v@ + stack@.push(x).reverse());
            }
            stack.push(x);
        }
        assert(all =~= stack@.reverse());
        VecIter { stack }
    }

    /// The size hint of a vector's iterator is exact.
    pub proof fn lemma_hint_exact(it: VecIter<T>)
        ensures
            it.spec_size_hint() == (it.rest().len() as usize, Some(it.rest().len() as usize)),
    {
        assert(it.stack.len() == it.stack@.len());
    }

    /// The number of remaining items.
    pub fn len(&self) -> (r: usize)
        ensures
            r == self.rest().len(),
    {
        self.stack.len()
    }
}

impl<T> Itertools for VecIter<T> {
    type Item = T;

    closed spec fn rest(&self) -> Seq<T> {
        self.stack@.reverse()
    }

    closed spec fn wf(&self) -> bool {
        true
    }

    fn next(&mut self) -> (r: Option<T>) {
        let r = self.stack.pop();
        proof {
            if r is Some {
                assert(self.stack@.reverse() =~= old(self).stack@.reverse().drop_first());
            }
        }
        r
    }

    closed spec fn spec_size_hint(&self) -> (usize, Option<usize>) {
        (self.stack.len(), Some(self.stack.len()))
    }

    /// Exact: both bounds are the number of remaining items.
    fn size_hint(&self) -> (r: (usize, Option<usize>))
        ensures
            r.0 == self.rest().len(),
            r.1 == Some(r.0),
    {
        (self.stack.len(), Some(self.stack.len()))
    }
}

impl<T: Copy> CloneIter for VecIter<T> {
    fn clone_iter(&self) -> (r: Self) {
        let mut stack: Vec<T> = Vec::new();
        let mut k: usize = 0;
        while k < self.stack.len()
            invariant
                k <= self.stack@.len(),
                stack@ == self.stack@.take(k as int),
            decreases self.stack@.len() - k,
        {
            stack.push(self.stack[k]);
            k = k + 1;
            assert(stack@ =~= self.stack@.take(k as int));
        }
        assert(stack@ =~= self.stack@);
        VecIter { stack }
    }
}

impl<T> DoubleEndedItertools for VecIter<T> {
    fn next_back(&mut self) -> (r: Option<T>) {
        if self.stack.len() == 0 {
            return None;
        }
        let x = self.stack.remove(0);
        proof {
            assert(self.stack@.reverse() =~= old(self).stack@.reverse().drop_last());
        }
        Some(x)
    }
}

} // verus!

