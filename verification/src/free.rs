//! Free functions that create iterator adaptors or consume sequences.
use vstd::prelude::*;
use vstd::string::StringExecFns;
use crate::{Itertools, VecIter};
use crate::adaptors::{Interleave, alternate};
use crate::merge_join::{self, Merge, MergeLte, merge_seq, is_sorted};
use crate::kmerge::{KMerge, kmerge_new, kmerge_of, rests, flat_items};

verus! {

/// The items of `v`, each paired with its position.
pub fn enumerate<T>(iterable: Vec<T>) -> (r: Vec<(usize, T)>)
    ensures
        r@.len() == iterable@.len(),
        forall|i: int| 0 <= i < r@.len() ==> r@[i] == (i as usize, iterable@[i]),
{
    let ghost all = iterable@;
    let len = iterable.len();
    let mut it = VecIter::new(iterable);
    let mut r: Vec<(usize, T)> = Vec::new();
    let mut i: usize = 0;
    loop
        invariant
            it.wf(),
            all == iterable@,
            all.len() == len,
            i == r@.len(),
            i + it.rest().len() == all.len(),
            it.rest() == all.skip(i as int),
            forall|k: int| 0 <= k < r@.len() ==> r@[k] == (k as usize, all[k]),
        decreases it.rest().len(),
    {
        match it.next() {
            Some(x) => {
                r.push((i, x));
                i = i + 1;
                proof {
                    assert(it.rest() =~= all.skip(i as int));
                }
            },
            None => {
                return r;
            },
        }
    }
}

/// The items of `v` in reverse order.
pub fn rev<T>(iterable: Vec<T>) -> (r: Vec<T>)
    ensures
        r@ == iterable@.reverse(),
{
    let ghost all = iterable@;
    let mut v = iterable;
    let mut r: Vec<T> = Vec::new();
    while v.len() > 0
        invariant
            all == iterable@,
            v@.len() <= all.len(),
            r@ == all.subrange(v@.len() as int, all.len() as int).reverse(),
            v@ == all.subrange(0, v@.len() as int),
        decreases v.len(),
    {
        let x = v.pop().unwrap();
        r.push(x);
        proof {
            assert(r@ =~= all.subrange(v@.len() as int, all.len() as int).reverse());
            assert(v@ =~= all.subrange(0, v@.len() as int));
        }
    }
    assert(all.subrange(0, all.len() as int) =~= all);
    r
}

/// The items of `i` and `j` in pairs, as long as both have items.
pub fn zip<A, B>(i: Vec<A>, j: Vec<B>) -> (r: Vec<(A, B)>)
    ensures
        r@.len() == if i@.len() <= j@.len() { i@.len() } else { j@.len() },
        forall|k: int| 0 <= k < r@.len() ==> r@[k] == (i@[k], j@[k]),
{
    let ghost ia = i@;
    let ghost ja = j@;
    let mut a = VecIter::new(i);
    let mut b = VecIter::new(j);
    let mut r: Vec<(A, B)> = Vec::new();
    loop
        invariant
            a.wf(),
            b.wf(),
            ia == i@,
            ja == j@,
            a.rest() == ia.skip(r@.len() as int),
            b.rest() == ja.skip(r@.len() as int),
            r@.len() <= ia.len(),
            r@.len() <= ja.len(),
            forall|k: int| 0 <= k < r@.len() ==> r@[k] == (ia[k], ja[k]),
        decreases a.rest().len(),
    {
        match a.next() {
            Some(x) => match b.next() {
                Some(y) => {
                    r.push((x, y));
                    proof {
                        assert(a.rest() =~= ia.skip(r@.len() as int));
                        assert(b.rest() =~= ja.skip(r@.len() as int));
                    }
                },
                None => {
                    return r;
                },
            },
            None => {
                return r;
            },
        }
    }
}

/// The items of `i` and `j` in pairs; both must have the same number of items.
pub fn zip_eq<A, B>(i: Vec<A>, j: Vec<B>) -> (r: Vec<(A, B)>)
    requires
        i@.len() == j@.len(),
    ensures
        r@.len() == i@.len(),
        forall|k: int| 0 <= k < r@.len() ==> r@[k] == (i@[k], j@[k]),
{
    zip(i, j)
}

/// The items of `i`, then those of `j`.
pub fn chain<T>(i: Vec<T>, j: Vec<T>) -> (r: Vec<T>)
    ensures
        r@ == i@ + j@,
{
    let mut a = i;
    let mut b = j;
    a.append(&mut b);
    a
}

/// A copy of each item of `iterable`.
pub fn cloned<T: Copy>(iterable: &[T]) -> (r: Vec<T>)
    ensures
        r@ == iterable@,
{
    let mut r: Vec<T> = Vec::new();
    let mut k: usize = 0;
    while k < iterable.len()
        invariant
            k <= iterable@.len(),
            r@ == iterable@.take(k as int),
        decreases iterable@.len() - k,
    {
        r.push(iterable[k]);
        k = k + 1;
        proof {
            assert(r@ =~= iterable@.take(k as int));
        }
    }
    assert(iterable@.take(k as int) =~= iterable@);
    r
}

/// `accs` are the successive accumulators of folding `s` with `f` from `accs[0]`.
pub open spec fn fold_trace<T, B, F: Fn(B, T) -> B>(s: Seq<T>, f: F, accs: Seq<B>) -> bool {
    &&& accs.len() == s.len() + 1
    &&& forall|i: int| 0 <= i < s.len() ==> call_ensures(f, (accs[i], s[i]), #[trigger] accs[i + 1])
}

/// Fold the items of `iterable` with `f`, starting from `init`.
pub fn fold<T, B, F: Fn(B, T) -> B>(iterable: Vec<T>, init: B, f: F) -> (r: B)
    requires
        forall|b: B, t: T| call_requires(f, (b, t)),
    ensures
        exists|accs: Seq<B>| fold_trace(iterable@, f, accs) && accs[0] == init && accs.last() == r,
{
    let ghost all = iterable@;
    let mut it = VecIter::new(iterable);
    let mut acc = init;
    let ghost mut accs: Seq<B> = seq![init];
    let ghost mut n: int = 0;
    loop
        invariant
            it.wf(),
            all == iterable@,
            forall|b: B, t: T| call_requires(f, (b, t)),
            0 <= n <= all.len(),
            it.rest() == all.skip(n),
            accs.len() == n + 1,
            accs[0] == init,
            accs.last() == acc,
            forall|i: int| 0 <= i < n ==> call_ensures(f, (accs[i], all[i]), #[trigger] accs[i + 1]),
        decreases it.rest().len(),
    {
        match it.next() {
            Some(x) => {
                let ghost prev = accs;
                acc = f(acc, x);
                proof {
                    accs = prev.push(acc);
                    assert(all[n] == x);
                    n = n + 1;
                    assert(it.rest() =~= all.skip(n));
                    assert forall|i: int| 0 <= i < n implies call_ensures(
                        f,
                        (accs[i], all[i]),
                        #[trigger] accs[i + 1],
                    ) by {
                        if i < n - 1 {
                            assert(accs[i] == prev[i]);
                            assert(accs[i + 1] == prev[i + 1]);
                        }
                    }
                }
            },
            None => {
                assert(fold_trace(all, f, accs));
                return acc;
            },
        }
    }
}

/// One more fold step extends a trace by the item and the accumulator it gives.
pub proof fn lemma_fold_trace_push<T, B, F: Fn(B, T) -> B>(s: Seq<T>, f: F, accs: Seq<B>, x: T, b: B)
    requires
        fold_trace(s, f, accs),
        call_ensures(f, (accs.last(), x), b),
    ensures
        fold_trace(s.push(x), f, accs.push(b)),
{
    let s2 = s.push(x);
    let a2 = accs.push(b);
    assert forall|i: int| 0 <= i < s2.len() implies call_ensures(f, (a2[i], s2[i]), #[trigger] a2[i + 1]) by {
        if i < s.len() {
            assert(a2[i] == accs[i] && a2[i + 1] == accs[i + 1] && s2[i] == s[i]);
        }
    }
}

/// Folding a concatenation is folding the second part from where folding the first part
/// ended.
pub proof fn lemma_fold_trace_append<T, B, F: Fn(B, T) -> B>(
    a: Seq<T>,
    b: Seq<T>,
    f: F,
    accs_a: Seq<B>,
    accs_b: Seq<B>,
)
    requires
        fold_trace(a, f, accs_a),
        fold_trace(b, f, accs_b),
        accs_a.last() == accs_b[0],
    ensures
        fold_trace(a + b, f, accs_a + accs_b.drop_first()),
        (accs_a + accs_b.drop_first())[0] == accs_a[0],
        (accs_a + accs_b.drop_first()).last() == accs_b.last(),
{
    let s = a + b;
    let accs = accs_a + accs_b.drop_first();
    assert forall|i: int| 0 <= i < s.len() implies call_ensures(f, (accs[i], s[i]), #[trigger] accs[i + 1]) by {
        if i < a.len() {
            assert(s[i] == a[i] && accs[i] == accs_a[i]);
            if i + 1 < accs_a.len() {
                assert(accs[i + 1] == accs_a[i + 1]);
            } else {
                assert(accs[i + 1] == accs_b[1]);
            }
        } else {
            let j = i - a.len();
            assert(s[i] == b[j]);
            assert(accs[i + 1] == accs_b[j + 1]);
            if j == 0 {
                assert(accs[i] == accs_a.last());
            } else {
                assert(accs[i] == accs_b[j]);
            }
        }
    }
}

/// Test whether `f` holds for all items of `iterable`; stop at the first that fails.
pub fn all<T: Copy, F: Fn(T) -> bool>(iterable: Vec<T>, f: F) -> (r: bool)
    requires
        forall|t: T| call_requires(f, (t,)),
    ensures
        r ==> forall|i: int| 0 <= i < iterable@.len() ==> call_ensures(f, (iterable@[i],), true),
        !r ==> exists|i: int|
            0 <= i < iterable@.len() && call_ensures(f, (iterable@[i],), false),
{
    let mut k: usize = 0;
    while k < iterable.len()
        invariant
            k <= iterable@.len(),
            forall|t: T| call_requires(f, (t,)),
            forall|i: int| 0 <= i < k ==> call_ensures(f, (iterable@[i],), true),
        decreases iterable@.len() - k,
    {
        if !f(iterable[k]) {
            return false;
        }
        k = k + 1;
    }
    true
}

/// Test whether `f` holds for some item of `iterable`; stop at the first that holds.
pub fn any<T: Copy, F: Fn(T) -> bool>(iterable: Vec<T>, f: F) -> (r: bool)
    requires
        forall|t: T| call_requires(f, (t,)),
    ensures
        r ==> exists|i: int| 0 <= i < iterable@.len() && call_ensures(f, (iterable@[i],), true),
        !r ==> forall|i: int|
            0 <= i < iterable@.len() ==> call_ensures(f, (iterable@[i],), false),
{
    let mut k: usize = 0;
    while k < iterable.len()
        invariant
            k <= iterable@.len(),
            forall|t: T| call_requires(f, (t,)),
            forall|i: int| 0 <= i < k ==> call_ensures(f, (iterable@[i],), false),
        decreases iterable@.len() - k,
    {
        if f(iterable[k]) {
            return true;
        }
        k = k + 1;
    }
    false
}

/// The largest item of `iterable`, if any.
pub fn max(iterable: Vec<i64>) -> (r: Option<i64>)
    ensures
        r is None <==> iterable@.len() == 0,
        r matches Some(m) ==> iterable@.contains(m) && forall|i: int|
            0 <= i < iterable@.len() ==> iterable@[i] <= m,
{
    if iterable.len() == 0 {
        return None;
    }
    let mut m = iterable[0];
    let mut k: usize = 1;
    while k < iterable.len()
        invariant
            1 <= k <= iterable@.len(),
            iterable@.contains(m),
            forall|i: int| 0 <= i < k ==> iterable@[i] <= m,
        decreases iterable@.len() - k,
    {
        if iterable[k] >= m {
            m = iterable[k];
        }
        k = k + 1;
    }
    Some(m)
}

/// The smallest item of `iterable`, if any.
pub fn min(iterable: Vec<i64>) -> (r: Option<i64>)
    ensures
        r is None <==> iterable@.len() == 0,
        r matches Some(m) ==> iterable@.contains(m) && forall|i: int|
            0 <= i < iterable@.len() ==> m <= iterable@[i],
{
    if iterable.len() == 0 {
        return None;
    }
    let mut m = iterable[0];
    let mut k: usize = 1;
    while k < iterable.len()
        invariant
            1 <= k <= iterable@.len(),
            iterable@.contains(m),
            forall|i: int| 0 <= i < k ==> m <= iterable@[i],
        decreases iterable@.len() - k,
    {
        if iterable[k] < m {
            m = iterable[k];
        }
        k = k + 1;
    }
    Some(m)
}

/// An iterator that alternates the items of `i` and `j`.
pub fn interleave<T>(i: Vec<T>, j: Vec<T>) -> (r: Interleave<VecIter<T>, VecIter<T>>)
    ensures
        r.wf(),
        r.rest() == alternate(i@, j@),
{
    Interleave::new(VecIter::new(i), VecIter::new(j))
}

/// An iterator that merges the items of `i` and `j` in ascending order.
pub fn merge(i: Vec<i64>, j: Vec<i64>) -> (r: Merge<VecIter<i64>, VecIter<i64>>)
    ensures
        r.wf(),
        r.rest() == merge_seq(i@, j@, MergeLte),
{
    merge_join::merge(VecIter::new(i), VecIter::new(j))
}

/// The item sequences of the vectors of `vs`.
pub open spec fn views(vs: Seq<Vec<i64>>) -> Seq<Seq<i64>> {
    vs.map_values(|v: Vec<i64>| v@)
}

/// An iterator that merges the items of all vectors of `iterable` in ascending order.
pub fn kmerge(iterable: Vec<Vec<i64>>) -> (r: KMerge<VecIter<i64>>)
    ensures
        r.wf(),
        r.rest() == kmerge_of(views(iterable@)),
        r.rest().to_multiset() == flat_items(views(iterable@)),
        (forall|k: int| 0 <= k < iterable.len() ==> is_sorted(#[trigger] iterable@[k]@)) ==> is_sorted(r.rest()),
{
    let ghost all = iterable@;
    let mut outer = VecIter::new(iterable);
    let mut its: Vec<VecIter<i64>> = Vec::new();
    let ghost mut n: int = 0;
    loop
        invariant
            outer.wf(),
            0 <= n <= all.len(),
            outer.rest() == all.skip(n),
            its.len() == n,
            forall|k: int| 0 <= k < its.len() ==> (#[trigger] its@[k]).wf(),
            rests(its@) == views(all.take(n)),
        ensures
            forall|k: int| 0 <= k < its.len() ==> (#[trigger] its@[k]).wf(),
            rests(its@) == views(all),
        decreases outer.rest().len(),
    {
        match outer.next() {
            Some(v) => {
                proof {
                    assert(all[n] == v);
                }
                let ghost prev = its@;
                let vi = VecIter::new(v);
                its.push(vi);
                proof {
                    assert(its@ =~= prev.push(vi));
                    assert(rests(its@) =~= rests(prev).push(vi.rest()));
                    assert(views(all.take(n + 1)) =~= views(all.take(n)).push(all[n]@));
                    n = n + 1;
                    assert(outer.rest() =~= all.skip(n));
                    assert(rests(its@) =~= views(all.take(n)));
                }
            },
            None => {
                proof {
                    assert(all.take(n) =~= all);
                }
                break;
            },
        }
    }
    let inner = VecIter::new(its);
    let r = kmerge_new(inner);
    proof {
        assert forall|k: int| 0 <= k < inner.rest().len() implies (#[trigger] inner.rest()[k].rest()) == all[k]@ by {
            assert(rests(its@)[k] == views(all)[k]);
        }
    }
    r
}

/// The strings of `parts` with `sep` between each two of them.
pub open spec fn joined(parts: Seq<Seq<char>>, sep: Seq<char>) -> Seq<char>
    decreases parts.len(),
{
    if parts.len() == 0 {
        Seq::empty()
    } else if parts.len() == 1 {
        parts[0]
    } else {
        joined(parts.drop_last(), sep) + sep + parts.last()
    }
}

/// Combine all strings of `iterable` into one, separated by `sep`.
pub fn join(iterable: Vec<String>, sep: &str) -> (r: String)
    ensures
        r@ == joined(iterable@.map_values(|s: String| s@), sep@),
{
    let ghost parts = iterable@.map_values(|s: String| s@);
    let mut r = String::new();
    let mut k: usize = 0;
    while k < iterable.len()
        invariant
            k <= iterable@.len(),
            parts == iterable@.map_values(|s: String| s@),
            r@ == joined(parts.take(k as int), sep@),
        decreases iterable@.len() - k,
    {
        if k > 0 {
            r.append(sep);
        }
        r.append(iterable[k].as_str());
        k = k + 1;
        proof {
            assert(parts.take(k as int).drop_last() =~= parts.take(k - 1));
            if k == 1 {
                assert(joined(parts.take(0), sep@) =~= Seq::<char>::empty());
                assert(r@ =~= parts[0]);
            }
        }
    }
    assert(parts.take(k as int) =~= parts);
    r
}

/// The items of `s` and of `t` are the same, counted with multiplicity.
pub open spec fn same_items(s: Seq<i64>, t: Seq<i64>) -> bool {
    s.to_multiset() == t.to_multiset()
}

/// Swapping two items keeps the multiset of a sequence.
pub proof fn lemma_swap_multiset<T>(s: Seq<T>, i: int, j: int)
    requires
        0 <= i < s.len(),
        0 <= j < s.len(),
    ensures
        s.update(i, s[j]).update(j, s[i]).to_multiset() == s.to_multiset(),
{
    lemma_update_multiset(s, i, s[j]);
    lemma_update_multiset(s.update(i, s[j]), j, s[i]);
    broadcast use vstd::multiset::group_multiset_axioms;

    broadcast use vstd::seq_lib::group_to_multiset_ensures;

    let t = s.update(i, s[j]);
    assert(t[j] == s[j]);
    let m = s.to_multiset();
    assert(m.count(s[i]) > 0) by {
        assert(s.contains(s[i]));
    }
    assert forall|y: T| #[trigger] t.update(j, s[i]).to_multiset().count(y) == m.count(y) by {
        if y == s[i] && y == s[j] {
        } else if y == s[i] {
        } else if y == s[j] {
        } else {
        }
    }
    assert(t.update(j, s[i]).to_multiset() =~= m);
}

/// Writing `x` at position `i` replaces one copy of the old item by `x`.
pub proof fn lemma_update_multiset<T>(s: Seq<T>, i: int, x: T)
    requires
        0 <= i < s.len(),
    ensures
        s.update(i, x).to_multiset() == s.to_multiset().remove(s[i]).insert(x),
{
    broadcast use vstd::seq_lib::group_to_multiset_ensures;
    broadcast use vstd::multiset::group_multiset_axioms;

    let t = s.update(i, x);
    assert(t.remove(i) =~= s.remove(i));
    assert(t.to_multiset().count(x) > 0) by {
        assert(t.contains(x)) by {
            assert(t[i] == x);
        }
    }
    assert(t.to_multiset() =~= s.to_multiset().remove(s[i]).insert(x)) by {
        assert forall|y: T| t.to_multiset().count(y) == s.to_multiset().remove(s[i]).insert(x).count(
            y,
        ) by {
            assert(s.to_multiset().count(s[i]) > 0) by {
                assert(s.contains(s[i]));
            }
        }
    }
}

/// All items of `iterable` in ascending order.
pub fn sorted(iterable: Vec<i64>) -> (r: Vec<i64>)
    ensures
        is_sorted(r@),
        same_items(r@, iterable@),
{
    let mut v = iterable;
    let n = v.len();
    let mut i: usize = 1;
    if n == 0 {
        return v;
    }
    while i < n
        invariant
            1 <= i <= n,
            n == v@.len(),
            is_sorted(v@.take(i as int)),
            v@.to_multiset() == iterable@.to_multiset(),
        decreases n - i,
    {
        let mut j = i;
        proof {
            assert forall|a: int, b: int| 0 <= a < b <= i && b != j && a != j implies v@[a] <= v@[b] by {
                assert(v@.take(i as int)[a] == v@[a]);
                assert(v@.take(i as int)[b] == v@[b]);
            }
        }
        while j > 0 && v[j - 1] > v[j]
            invariant
                0 <= j <= i < n,
                n == v@.len(),
                v@.to_multiset() == iterable@.to_multiset(),
                forall|a: int, b: int| 0 <= a < b <= i && b != j && a != j ==> v@[a] <= v@[b],
                forall|b: int| j < b <= i ==> v@[j as int] <= v@[b],
            decreases j,
        {
            let a = v[j - 1];
            let b = v[j];
            proof {
                lemma_swap_multiset(v@, j - 1, j as int);
            }
            v.set(j - 1, b);
            v.set(j, a);
            j = j - 1;
        }
        proof {
            let t = v@.take(i + 1);
            assert forall|a: int, b: int| 0 <= a < b < t.len() implies #[trigger] t[a] <= #[trigger] t[b] by {
                if b == j && a < j - 1 {
                    assert(v@[a] <= v@[j - 1]);
                }
            }
        }
        i = i + 1;
    }
    assert(v@.take(n as int) =~= v@);
    v
}

} // verus!
