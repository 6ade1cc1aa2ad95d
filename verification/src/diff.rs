//! Comparing two iterators in lock-step, stopping at the first difference.
use vstd::prelude::*;
use crate::Itertools;
use crate::adaptors::PutBack;

verus! {

/// How the items of an iterator `J` differ from those of an iterator `I`.
pub enum Diff<I: Itertools, J: Itertools> {
    /// The index of the first pair of items that differ, with the remaining items of both
    /// iterators from that pair on.
    FirstMismatch(usize, PutBack<I>, PutBack<J>),
    /// `J` had fewer items: their number, with the remaining items of `I`.
    Shorter(usize, PutBack<I>),
    /// `J` had more items: the number of items of `I`, with the remaining items of `J`.
    Longer(usize, PutBack<J>),
}

/// The number of leading pairs of `a` and `b` for which `differ` is false, stopping at the end
/// of the shorter sequence.
pub open spec fn mismatch_index<X, Y>(a: Seq<X>, b: Seq<Y>, differ: spec_fn(X, Y) -> bool) -> nat
    decreases a.len(),
{
    if a.len() == 0 || b.len() == 0 || differ(a[0], b[0]) {
        0
    } else {
        1 + mismatch_index(a.drop_first(), b.drop_first(), differ)
    }
}

/// What `diff` returns for items `a` of `I` and `b` of `J`, given the index `m` at which they
/// stop agreeing.
pub open spec fn diff_matches<I: Itertools, J: Itertools>(
    r: Option<Diff<I, J>>,
    a: Seq<I::Item>,
    b: Seq<J::Item>,
    m: nat,
) -> bool {
    match r {
        Some(Diff::FirstMismatch(k, ri, rj)) => {
            &&& m < a.len() && m < b.len()
            &&& k == m
            &&& ri.wf() && rj.wf()
            &&& ri.rest() == a.skip(m as int)
            &&& rj.rest() == b.skip(m as int)
        },
        Some(Diff::Shorter(k, ri)) => {
            &&& m == b.len() && m < a.len()
            &&& k == m
            &&& ri.wf()
            &&& ri.rest() == a.skip(m as int)
        },
        Some(Diff::Longer(k, rj)) => {
            &&& m == a.len() && m < b.len()
            &&& k == m
            &&& rj.wf()
            &&& rj.rest() == b.skip(m as int)
        },
        None => m == a.len() && m == b.len(),
    }
}

proof fn lemma_mismatch_step<X, Y>(a: Seq<X>, b: Seq<Y>, differ: spec_fn(X, Y) -> bool)
    requires
        a.len() > 0,
        b.len() > 0,
        !differ(a[0], b[0]),
    ensures
        mismatch_index(a, b, differ) == 1 + mismatch_index(a.drop_first(), b.drop_first(), differ),
{
}

/// Compare the items of `i` and `j` in lock-step with `is_diff`, which computes `differ`.
fn diff_internal<I, J, F>(i: I, j: J, is_diff: F, Ghost(differ): Ghost<spec_fn(I::Item, J::Item) -> bool>) -> (r: Option<
    Diff<I, J>,
>) where I: Itertools, J: Itertools, F: Fn(&I::Item, &J::Item) -> bool
    requires
        i.wf(),
        j.wf(),
        i.rest().len() <= usize::MAX,
        forall|x: &I::Item, y: &J::Item| call_requires(is_diff, (x, y)),
        forall|x: &I::Item, y: &J::Item, b: bool| call_ensures(is_diff, (x, y), b) ==> b == differ(*x, *y),
    ensures
        diff_matches(r, i.rest(), j.rest(), mismatch_index(i.rest(), j.rest(), differ)),
{
    let ghost a = i.rest();
    let ghost b = j.rest();
    let mut ii = i;
    let mut jj = j;
    let mut idx: usize = 0;
    loop
        invariant
            ii.wf(),
            jj.wf(),
            a == i.rest(),
            b == j.rest(),
            a.len() <= usize::MAX,
            idx <= a.len(),
            idx <= b.len(),
            ii.rest() == a.skip(idx as int),
            jj.rest() == b.skip(idx as int),
            mismatch_index(a, b, differ) == idx + mismatch_index(ii.rest(), jj.rest(), differ),
            forall|x: &I::Item, y: &J::Item| call_requires(is_diff, (x, y)),
            forall|x: &I::Item, y: &J::Item, c: bool| call_ensures(is_diff, (x, y), c) ==> c == differ(*x, *y),
        decreases a.len() - idx,
    {
        let ghost ra = ii.rest();
        let ghost rb = jj.rest();
        match ii.next() {
            None => {
                let r = match jj.next() {
                    Some(j_elem) => {
                        proof {
                            assert(rb =~= seq![j_elem] + jj.rest());
                        }
                        Some(Diff::Longer(idx, PutBack::value(j_elem, jj)))
                    },
                    None => None,
                };
                proof {
                    assert(a.len() == idx);
                    if r is None {
                        assert(b.len() == idx);
                    }
                }
                return r;
            },
            Some(i_elem) => {
                proof {
                    assert(ra =~= seq![i_elem] + ii.rest());
                }
                match jj.next() {
                    None => {
                        proof {
                            assert(b.len() == idx);
                        }
                        return Some(Diff::Shorter(idx, PutBack::value(i_elem, ii)));
                    },
                    Some(j_elem) => {
                        proof {
                            assert(rb =~= seq![j_elem] + jj.rest());
                        }
                        if is_diff(&i_elem, &j_elem) {
                            let remaining_i = PutBack::value(i_elem, ii);
                            let remaining_j = PutBack::value(j_elem, jj);
                            return Some(Diff::FirstMismatch(idx, remaining_i, remaining_j));
                        }
                        proof {
                            lemma_mismatch_step(ra, rb, differ);
                            assert(ii.rest() =~= a.skip(idx + 1));
                            assert(jj.rest() =~= b.skip(idx + 1));
                        }
                    },
                }
            },
        }
        idx = idx + 1;
    }
}

/// The inequality of integers.
pub open spec fn int_differ(x: i64, y: i64) -> bool {
    x != y
}

/// Compare the items of `i` and `j` in lock-step and describe how `j` differs from `i`.
pub fn diff<I, J>(i: I, j: J) -> (r: Option<Diff<I, J>>) where
    I: Itertools<Item = i64>,
    J: Itertools<Item = i64>,

    requires
        i.wf(),
        j.wf(),
        i.rest().len() <= usize::MAX,
    ensures
        diff_matches(r, i.rest(), j.rest(), mismatch_index(i.rest(), j.rest(), |x: i64, y: i64| int_differ(x, y))),
{
    let is_diff = |ie: &i64, je: &i64| -> (b: bool)
        ensures
            b == (*ie != *je),
        { *ie != *je };
    diff_internal(i, j, is_diff, Ghost(|x: i64, y: i64| int_differ(x, y)))
}

/// Like `diff`, where `i` yields references to its items.
pub fn diff_by_ref<'a, I, J>(i: I, j: J) -> (r: Option<Diff<I, J>>) where
    I: Itertools<Item = &'a i64>,
    J: Itertools<Item = i64>,

    requires
        i.wf(),
        j.wf(),
        i.rest().len() <= usize::MAX,
    ensures
        diff_matches(r, i.rest(), j.rest(), mismatch_index(i.rest(), j.rest(), |x: &'a i64, y: i64| int_differ(*x, y))),
{
    let is_diff = |ie: &&'a i64, je: &i64| -> (b: bool)
        ensures
            b == (**ie != *je),
        { **ie != *je };
    diff_internal(i, j, is_diff, Ghost(|x: &'a i64, y: i64| int_differ(*x, y)))
}

/// A vector that is either the borrowed collection or a new one.
pub enum CowVec<'a> {
    /// The collection itself.
    Borrowed(&'a Vec<i64>),
    /// A new vector.
    Owned(Vec<i64>),
}

/// `collection` itself if `update` yields the same items, otherwise a new vector of the items
/// of `update`.
pub fn copy_on_diff<'a, U: Itertools<Item = i64>>(collection: &'a Vec<i64>, update: U) -> (r: CowVec<'a>)
    requires
        update.wf(),
    ensures
        collection@ == update.rest() ==> r == CowVec::Borrowed(collection),
        collection@ != update.rest() ==> (r matches CowVec::Owned(v) && v@ == update.rest()),
{
    let c_iter = crate::VecIter::new(copy_ints(collection));
    assert(c_iter.rest().len() == collection.len());
    let ghost c = collection@;
    let ghost u = update.rest();
    let ghost m = mismatch_index(c, u, |x: i64, y: i64| int_differ(x, y));
    proof {
        lemma_mismatch_agree(c, u);
    }
    match diff(c_iter, update) {
        Some(d) => {
            let v = match d {
                Diff::FirstMismatch(idx, _, mismatch) => {
                    let mut v = take_ints(collection, idx);
                    append_rest(&mut v, mismatch);
                    proof {
                        assert(v@ =~= u);
                    }
                    v
                },
                Diff::Longer(_, remaining) => {
                    let mut v = copy_ints(collection);
                    append_rest(&mut v, remaining);
                    proof {
                        assert(v@ =~= u);
                    }
                    v
                },
                Diff::Shorter(num_update, _) => {
                    let v = take_ints(collection, num_update);
                    proof {
                        assert(v@ =~= u);
                    }
                    v
                },
            };
            CowVec::Owned(v)
        },
        None => {
            proof {
                assert(c =~= u);
            }
            CowVec::Borrowed(collection)
        },
    }
}

/// Two sequences agree up to their mismatch index, and differ there or in length.
proof fn lemma_mismatch_agree(a: Seq<i64>, b: Seq<i64>)
    ensures
        ({
            let m = mismatch_index(a, b, |x: i64, y: i64| int_differ(x, y));
            &&& m <= a.len() && m <= b.len()
            &&& forall|k: int| 0 <= k < m ==> a[k] == b[k]
            &&& m < a.len() && m < b.len() ==> a[m as int] != b[m as int]
            &&& (a == b <==> (m == a.len() && m == b.len()))
        }),
    decreases a.len(),
{
    let d = |x: i64, y: i64| int_differ(x, y);
    if a.len() > 0 && b.len() > 0 && !d(a[0], b[0]) {
        lemma_mismatch_agree(a.drop_first(), b.drop_first());
        let m = mismatch_index(a, b, d);
        assert forall|k: int| 0 <= k < m implies a[k] == b[k] by {
            if k > 0 {
                assert(a[k] == a.drop_first()[k - 1]);
                assert(b[k] == b.drop_first()[k - 1]);
            }
        }
        if m == a.len() && m == b.len() {
            assert(a =~= b);
        }
    } else {
        if a.len() == 0 && b.len() == 0 {
            assert(a =~= b);
        }
    }
}

/// A copy of a vector of integers.
fn copy_ints(v: &Vec<i64>) -> (r: Vec<i64>)
    ensures
        r@ == v@,
{
    take_ints(v, v.len())
}

/// The first `n` integers of `v`.
fn take_ints(v: &Vec<i64>, n: usize) -> (r: Vec<i64>)
    requires
        n <= v@.len(),
    ensures
        r@ == v@.take(n as int),
{
    let mut r: Vec<i64> = Vec::new();
    let mut k: usize = 0;
    while k < n
        invariant
            k <= n <= v@.len(),
            r@ == v@.take(k as int),
        decreases n - k,
    {
        r.push(v[k]);
        k = k + 1;
        assert(r@ =~= v@.take(k as int));
    }
    r
}

/// Append the remaining items of `it` to `v`.
fn append_rest<I: Itertools<Item = i64>>(v: &mut Vec<i64>, it: I)
    requires
        it.wf(),
    ensures
        final(v)@ == old(v)@ + it.rest(),
{
    let ghost start = v@;
    let ghost all = it.rest();
    let mut iter = it;
    loop
        invariant
            iter.wf(),
            start == old(v)@,
            all == it.rest(),
            start + all == v@ + iter.rest(),
        decreases iter.rest().len(),
    {
        let ghost before = iter.rest();
        match iter.next() {
            Some(x) => {
                v.push(x);
                proof {
                    assert(before =~= seq![x] + iter.rest());
                    assert(v@ + iter.rest() =~= start + all);
                }
            },
            None => {
                assert(v@ =~= start + all);
                return;
            },
        }
    }
}

} // verus!
