//! All the items with the least (or greatest) key, in order.
use vstd::prelude::*;
use crate::Itertools;
use crate::adaptors::group_by::KeyFn;

verus! {

/// A "less than" between two items and their keys, for `min_set_impl`.
pub trait SetLess<T> {
    /// What `lt` returns.
    spec fn spec_lt(&self, a: T, b: T, ka: i64, kb: i64) -> bool;

    /// Whether `a` (of key `ka`) comes before `b` (of key `kb`).
    fn lt(&self, a: &T, b: &T, ka: &i64, kb: &i64) -> (r: bool)
        ensures
            r == self.spec_lt(*a, *b, *ka, *kb),
    ;
}

/// Compares the keys alone.
pub struct KeyLess;

impl<T> SetLess<T> for KeyLess {
    open spec fn spec_lt(&self, a: T, b: T, ka: i64, kb: i64) -> bool {
        ka < kb
    }

    fn lt(&self, a: &T, b: &T, ka: &i64, kb: &i64) -> (r: bool) {
        *ka < *kb
    }
}

/// The reverse of a comparison: `max_set_impl` is `min_set_impl` with it.
pub struct Flip<L>(pub L);

impl<T, L: SetLess<T>> SetLess<T> for Flip<L> {
    open spec fn spec_lt(&self, a: T, b: T, ka: i64, kb: i64) -> bool {
        self.0.spec_lt(b, a, kb, ka)
    }

    fn lt(&self, a: &T, b: &T, ka: &i64, kb: &i64) -> (r: bool) {
        self.0.lt(b, a, kb, ka)
    }
}

/// The set built from `result` (of key `ck`) by going through `items`: an item that comes
/// before the first of the set starts a new set; one that the first does not come before
/// joins it.
pub open spec fn min_set_fold<T, F: KeyFn<T>, L: SetLess<T>>(
    kf: F,
    lt: L,
    result: Seq<T>,
    ck: i64,
    items: Seq<T>,
) -> Seq<T>
    decreases items.len(),
{
    if items.len() == 0 {
        result
    } else {
        let e = items[0];
        let k = kf.spec_key(e);
        if lt.spec_lt(e, result[0], k, ck) {
            min_set_fold(kf, lt, seq![e], k, items.drop_first())
        } else if !lt.spec_lt(result[0], e, ck, k) {
            min_set_fold(kf, lt, result.push(e), ck, items.drop_first())
        } else {
            min_set_fold(kf, lt, result, ck, items.drop_first())
        }
    }
}

/// What `min_set_impl` returns for the items `s`.
pub open spec fn min_set_spec<T, F: KeyFn<T>, L: SetLess<T>>(kf: F, lt: L, s: Seq<T>) -> Option<Seq<T>> {
    if s.len() == 0 {
        None
    } else {
        Some(min_set_fold(kf, lt, seq![s[0]], kf.spec_key(s[0]), s.drop_first()))
    }
}

/// The items that come first by `lt`: the first item starts the set; each later item that comes
/// before the first of the set starts a new set, and each that the first of the set does not
/// come before joins it.
pub fn min_set_impl<I: Itertools, F: KeyFn<I::Item>, L: SetLess<I::Item>>(
    it: I,
    key_for: F,
    lt: L,
) -> (r: Option<Vec<I::Item>>)
    requires
        it.wf(),
    ensures
        match (r, min_set_spec(key_for, lt, it.rest())) {
            (Some(v), Some(w)) => v@ == w,
            (None, None) => true,
            _ => false,
        },
{
    let ghost s = it.rest();
    let mut iter = it;
    let (mut result, mut current_key) = match iter.next() {
        None => {
            return None;
        },
        Some(element) => {
            let key = key_for.key(&element);
            let mut v: Vec<I::Item> = Vec::new();
            v.push(element);
            (v, key)
        },
    };
    proof {
        assert(result@ =~= seq![s[0]]);
    }
    loop
        invariant
            iter.wf(),
            s == it.rest(),
            s.len() > 0,
            result@.len() > 0,
            min_set_spec(key_for, lt, s) == Some(min_set_fold(key_for, lt, result@, current_key, iter.rest())),
        decreases iter.rest().len(),
    {
        let ghost before = iter.rest();
        match iter.next() {
            None => {
                return Some(result);
            },
            Some(element) => {
                let key = key_for.key(&element);
                if lt.lt(&element, &result[0], &key, &current_key) {
                    result.clear();
                    result.push(element);
                    current_key = key;
                    proof {
                        assert(result@ =~= seq![element]);
                    }
                } else if !lt.lt(&result[0], &element, &current_key, &key) {
                    result.push(element);
                }
            },
        }
    }
}

/// The items that come last by `lt`, in the same way.
pub fn max_set_impl<I: Itertools, F: KeyFn<I::Item>, L: SetLess<I::Item>>(
    it: I,
    key_for: F,
    lt: L,
) -> (r: Option<Vec<I::Item>>)
    requires
        it.wf(),
    ensures
        match (r, min_set_spec(key_for, Flip(lt), it.rest())) {
            (Some(v), Some(w)) => v@ == w,
            (None, None) => true,
            _ => false,
        },
{
    min_set_impl(it, key_for, Flip(lt))
}

/// The least key of a non-empty sequence.
pub open spec fn min_key<T, F: KeyFn<T>>(kf: F, s: Seq<T>) -> i64
    decreases s.len(),
{
    if s.len() <= 1 {
        kf.spec_key(s[0])
    } else {
        let m = min_key(kf, s.drop_last());
        let k = kf.spec_key(s.last());
        if k < m {
            k
        } else {
            m
        }
    }
}

/// The predicate "has the key `k`".
pub open spec fn has_key<T, F: KeyFn<T>>(kf: F, k: i64) -> spec_fn(T) -> bool {
    |x: T| kf.spec_key(x) == k
}

/// The items of `s` whose key is `k`, in order.
pub open spec fn with_key<T, F: KeyFn<T>>(kf: F, k: i64, s: Seq<T>) -> Seq<T> {
    s.filter(has_key(kf, k))
}

proof fn lemma_fold_keys<T, F: KeyFn<T>>(kf: F, pre: Seq<T>, items: Seq<T>)
    requires
        pre.len() > 0,
    ensures
        min_set_fold(kf, KeyLess, with_key(kf, min_key(kf, pre), pre), min_key(kf, pre), items)
            == with_key(kf, min_key(kf, pre + items), pre + items),
    decreases items.len(),
{
    let m = min_key(kf, pre);
    let res = with_key(kf, m, pre);
    lemma_min_key_member(kf, pre);
    lemma_filter_nonempty(kf, m, pre);
    if items.len() == 0 {
        assert(pre + items =~= pre);
    } else {
        let e = items[0];
        let k = kf.spec_key(e);
        let pre1 = pre.push(e);
        assert(pre + items =~= pre1 + items.drop_first());
        assert(pre1.drop_last() =~= pre);
        reveal_with_fuel(Seq::filter, 2);
        assert(kf.spec_key(res[0]) == m) by {
            lemma_filter_all_key(kf, m, pre);
        }
        if k < m {
            assert(min_key(kf, pre1) == k);
            assert(with_key(kf, k, pre1) =~= seq![e]) by {
                lemma_filter_none(kf, k, pre);
                assert(pre1.filter(has_key(kf, k)) == pre.filter(has_key(kf, k)).push(e));
            }
        } else if k == m {
            assert(min_key(kf, pre1) == m);
            assert(pre1.filter(has_key(kf, m)) == pre.filter(has_key(kf, m)).push(e));
        } else {
            assert(min_key(kf, pre1) == m);
            assert(pre1.filter(has_key(kf, m)) == pre.filter(has_key(kf, m)));
        }
        lemma_fold_keys(kf, pre1, items.drop_first());
    }
}

proof fn lemma_min_key_member<T, F: KeyFn<T>>(kf: F, s: Seq<T>)
    requires
        s.len() > 0,
    ensures
        exists|i: int| 0 <= i < s.len() && kf.spec_key(s[i]) == min_key(kf, s),
        forall|i: int| 0 <= i < s.len() ==> min_key(kf, s) <= kf.spec_key(#[trigger] s[i]),
    decreases s.len(),
{
    if s.len() > 1 {
        lemma_min_key_member(kf, s.drop_last());
        let i0 = choose|i: int| 0 <= i < s.drop_last().len() && kf.spec_key(s.drop_last()[i]) == min_key(kf, s.drop_last());
        if kf.spec_key(s.last()) < min_key(kf, s.drop_last()) {
            assert(kf.spec_key(s[s.len() - 1]) == min_key(kf, s));
        } else {
            assert(kf.spec_key(s[i0]) == min_key(kf, s));
        }
        assert forall|i: int| 0 <= i < s.len() implies min_key(kf, s) <= kf.spec_key(#[trigger] s[i]) by {
            if i < s.len() - 1 {
                assert(s[i] == s.drop_last()[i]);
            }
        }
    } else {
        assert(kf.spec_key(s[0]) == min_key(kf, s));
    }
}

proof fn lemma_filter_nonempty<T, F: KeyFn<T>>(kf: F, k: i64, s: Seq<T>)
    requires
        exists|i: int| 0 <= i < s.len() && kf.spec_key(s[i]) == k,
    ensures
        with_key(kf, k, s).len() > 0,
    decreases s.len(),
{
    reveal_with_fuel(Seq::filter, 2);
    let i = choose|i: int| 0 <= i < s.len() && kf.spec_key(s[i]) == k;
    if i == s.len() - 1 {
        assert(s.last() == s[i]);
    } else {
        assert(s.drop_last()[i] == s[i]);
        lemma_filter_nonempty(kf, k, s.drop_last());
    }
}

proof fn lemma_filter_all_key<T, F: KeyFn<T>>(kf: F, k: i64, s: Seq<T>)
    requires
        with_key(kf, k, s).len() > 0,
    ensures
        kf.spec_key(with_key(kf, k, s)[0]) == k,
{
    s.lemma_filter_pred(has_key(kf, k), 0);
}

proof fn lemma_filter_none<T, F: KeyFn<T>>(kf: F, k: i64, s: Seq<T>)
    requires
        forall|i: int| 0 <= i < s.len() ==> kf.spec_key(#[trigger] s[i]) > k,
    ensures
        with_key(kf, k, s) =~= Seq::<T>::empty(),
    decreases s.len(),
{
    reveal_with_fuel(Seq::filter, 2);
    if s.len() > 0 {
        assert forall|i: int| 0 <= i < s.drop_last().len() implies kf.spec_key(#[trigger] s.drop_last()[i]) > k by {
            assert(s.drop_last()[i] == s[i]);
        }
        lemma_filter_none(kf, k, s.drop_last());
    }
}

/// With the comparison of keys, `min_set_impl` yields exactly the items of the least key, in
/// order.
pub proof fn lemma_min_set_least_keys<T, F: KeyFn<T>>(kf: F, s: Seq<T>)
    requires
        s.len() > 0,
    ensures
        min_set_spec(kf, KeyLess, s) == Some(with_key(kf, min_key(kf, s), s)),
{
    let pre = seq![s[0]];
    reveal_with_fuel(Seq::filter, 2);
    assert(pre.drop_last() =~= Seq::<T>::empty());
    assert(min_key(kf, pre) == kf.spec_key(s[0]));
    assert(with_key(kf, min_key(kf, pre), pre) =~= pre) by {
        assert(pre.filter(has_key(kf, kf.spec_key(s[0]))) == Seq::<T>::empty().filter(has_key(kf, kf.spec_key(s[0]))).push(s[0]));
    }
    lemma_fold_keys(kf, pre, s.drop_first());
    assert(pre + s.drop_first() =~= s);
}


/// The greatest key of a non-empty sequence.
pub open spec fn max_key<T, F: KeyFn<T>>(kf: F, s: Seq<T>) -> i64
    decreases s.len(),
{
    if s.len() <= 1 {
        kf.spec_key(s[0])
    } else {
        let m = max_key(kf, s.drop_last());
        let k = kf.spec_key(s.last());
        if k > m {
            k
        } else {
            m
        }
    }
}

proof fn lemma_max_key_member<T, F: KeyFn<T>>(kf: F, s: Seq<T>)
    requires
        s.len() > 0,
    ensures
        exists|i: int| 0 <= i < s.len() && kf.spec_key(s[i]) == max_key(kf, s),
        forall|i: int| 0 <= i < s.len() ==> kf.spec_key(#[trigger] s[i]) <= max_key(kf, s),
    decreases s.len(),
{
    if s.len() > 1 {
        lemma_max_key_member(kf, s.drop_last());
        let i0 = choose|i: int| 0 <= i < s.drop_last().len() && kf.spec_key(s.drop_last()[i]) == max_key(kf, s.drop_last());
        if kf.spec_key(s.last()) > max_key(kf, s.drop_last()) {
            assert(kf.spec_key(s[s.len() - 1]) == max_key(kf, s));
        } else {
            assert(kf.spec_key(s[i0]) == max_key(kf, s));
        }
        assert forall|i: int| 0 <= i < s.len() implies kf.spec_key(#[trigger] s[i]) <= max_key(kf, s) by {
            if i < s.len() - 1 {
                assert(s[i] == s.drop_last()[i]);
            }
        }
    } else {
        assert(kf.spec_key(s[0]) == max_key(kf, s));
    }
}

proof fn lemma_filter_none_below<T, F: KeyFn<T>>(kf: F, k: i64, s: Seq<T>)
    requires
        forall|i: int| 0 <= i < s.len() ==> kf.spec_key(#[trigger] s[i]) < k,
    ensures
        with_key(kf, k, s) =~= Seq::<T>::empty(),
    decreases s.len(),
{
    reveal_with_fuel(Seq::filter, 2);
    if s.len() > 0 {
        assert forall|i: int| 0 <= i < s.drop_last().len() implies kf.spec_key(#[trigger] s.drop_last()[i]) < k by {
            assert(s.drop_last()[i] == s[i]);
        }
        lemma_filter_none_below(kf, k, s.drop_last());
    }
}

proof fn lemma_fold_keys_max<T, F: KeyFn<T>>(kf: F, pre: Seq<T>, items: Seq<T>)
    requires
        pre.len() > 0,
    ensures
        min_set_fold(kf, Flip(KeyLess), with_key(kf, max_key(kf, pre), pre), max_key(kf, pre), items)
            == with_key(kf, max_key(kf, pre + items), pre + items),
    decreases items.len(),
{
    let m = max_key(kf, pre);
    let res = with_key(kf, m, pre);
    lemma_max_key_member(kf, pre);
    lemma_filter_nonempty(kf, m, pre);
    if items.len() == 0 {
        assert(pre + items =~= pre);
    } else {
        let e = items[0];
        let k = kf.spec_key(e);
        let pre1 = pre.push(e);
        assert(pre + items =~= pre1 + items.drop_first());
        assert(pre1.drop_last() =~= pre);
        reveal_with_fuel(Seq::filter, 2);
        assert(kf.spec_key(res[0]) == m) by {
            lemma_filter_all_key(kf, m, pre);
        }
        if k > m {
            assert(max_key(kf, pre1) == k);
            assert(with_key(kf, k, pre1) =~= seq![e]) by {
                lemma_filter_none_below(kf, k, pre);
                assert(pre1.filter(has_key(kf, k)) == pre.filter(has_key(kf, k)).push(e));
            }
        } else if k == m {
            assert(max_key(kf, pre1) == m);
            assert(pre1.filter(has_key(kf, m)) == pre.filter(has_key(kf, m)).push(e));
        } else {
            assert(max_key(kf, pre1) == m);
            assert(pre1.filter(has_key(kf, m)) == pre.filter(has_key(kf, m)));
        }
        lemma_fold_keys_max(kf, pre1, items.drop_first());
    }
}

/// With the comparison of keys, `max_set_impl` yields exactly the items whose key is the
/// greatest key of the input (one that some item has and no item exceeds), in input order.
pub proof fn lemma_max_set_greatest_keys<T, F: KeyFn<T>>(kf: F, s: Seq<T>)
    requires
        s.len() > 0,
    ensures
        min_set_spec(kf, Flip(KeyLess), s) == Some(with_key(kf, max_key(kf, s), s)),
        exists|i: int| 0 <= i < s.len() && kf.spec_key(s[i]) == max_key(kf, s),
        forall|i: int| 0 <= i < s.len() ==> kf.spec_key(#[trigger] s[i]) <= max_key(kf, s),
{
    let pre = seq![s[0]];
    reveal_with_fuel(Seq::filter, 2);
    assert(pre.drop_last() =~= Seq::<T>::empty());
    assert(max_key(kf, pre) == kf.spec_key(s[0]));
    assert(with_key(kf, max_key(kf, pre), pre) =~= pre) by {
        assert(pre.filter(has_key(kf, kf.spec_key(s[0]))) == Seq::<T>::empty().filter(has_key(kf, kf.spec_key(s[0]))).push(s[0]));
    }
    lemma_fold_keys_max(kf, pre, s.drop_first());
    assert(pre + s.drop_first() =~= s);
    lemma_max_key_member(kf, s);
}

} // verus!
