//! Operations on the values of an iterator of key-value pairs, grouped by key into a hash
//! map.
use vstd::prelude::*;
use std::collections::HashMap;
use crate::Itertools;

verus! {

broadcast use vstd::std_specs::hash::group_hash_axioms;

/// The operation of `aggregate`: from the accumulated result of a key (if any), the key and a
/// new value, the new result; `None` drops the key.
pub trait AggregateFn<V, R> {
    spec fn spec_apply(&self, acc: Option<R>, key: i64, val: V) -> Option<R>;

    fn apply(&self, acc: Option<R>, key: &i64, val: V) -> (r: Option<R>)
        ensures
            r == self.spec_apply(acc, *key, val),
    ;
}

/// The operation of `fold` and `fold_first`: from the accumulated result, the key and a new
/// value, the new result.
pub trait FoldFn<V, R> {
    spec fn spec_fold(&self, acc: R, key: i64, val: V) -> R;

    fn fold(&self, acc: R, key: &i64, val: V) -> (r: R)
        ensures
            r == self.spec_fold(acc, *key, val),
    ;
}

/// Adds the values up, wrapping around on overflow.
pub struct SumValues;

impl FoldFn<i64, i64> for SumValues {
    open spec fn spec_fold(&self, acc: i64, key: i64, val: i64) -> i64 {
        acc.wrapping_add(val)
    }

    fn fold(&self, acc: i64, key: &i64, val: i64) -> (r: i64) {
        acc.wrapping_add(val)
    }
}

/// The results of `aggregate` over the pairs `s`, in order.
pub open spec fn agg_map<V, R, F: AggregateFn<V, R>>(s: Seq<(i64, V)>, op: F) -> Map<i64, R>
    decreases s.len(),
{
    if s.len() == 0 {
        Map::empty()
    } else {
        let m = agg_map(s.drop_last(), op);
        let (k, v) = s.last();
        let acc = if m.contains_key(k) {
            Some(m[k])
        } else {
            None
        };
        match op.spec_apply(acc, k, v) {
            Some(r) => m.insert(k, r),
            None => m.remove(k),
        }
    }
}

/// The values of each key of the pairs `s`, in order.
pub open spec fn group_seqs<V>(s: Seq<(i64, V)>) -> Map<i64, Seq<V>>
    decreases s.len(),
{
    if s.len() == 0 {
        Map::empty()
    } else {
        let m = group_seqs(s.drop_last());
        let (k, v) = s.last();
        let prev = if m.contains_key(k) {
            m[k]
        } else {
            Seq::empty()
        };
        m.insert(k, prev.push(v))
    }
}

/// The pairs of `s` with key `k`.
pub open spec fn with_key<V>(s: Seq<(i64, V)>, k: i64) -> Seq<(i64, V)> {
    s.filter(|p: (i64, V)| p.0 == k)
}

/// The values of the pairs `s`.
pub open spec fn values_of<V>(s: Seq<(i64, V)>) -> Seq<V> {
    s.map_values(|p: (i64, V)| p.1)
}

/// Grouping keeps the order: a key has a group exactly when some pair has it, and its group
/// holds the values of the pairs with that key, in the order of the pairs.
pub proof fn lemma_group_seqs_in_order<V>(s: Seq<(i64, V)>, k: i64)
    ensures
        group_seqs(s).contains_key(k) <==> with_key(s, k).len() > 0,
        group_seqs(s).contains_key(k) ==> group_seqs(s)[k] == values_of(with_key(s, k)),
    decreases s.len(),
{
    reveal(Seq::filter);
    if s.len() > 0 {
        let d = s.drop_last();
        lemma_group_seqs_in_order(d, k);
        let (kk, v) = s.last();
        if kk == k {
            assert(with_key(s, k) == with_key(d, k).push(s.last()));
            if !group_seqs(d).contains_key(k) {
                assert(with_key(d, k) =~= Seq::<(i64, V)>::empty());
                assert(values_of(with_key(d, k)) =~= Seq::<V>::empty());
            }
            assert(values_of(with_key(s, k)) =~= values_of(with_key(d, k)).push(v));
        } else {
            assert(with_key(s, k) == with_key(d, k));
        }
    }
}

/// The number of pairs of each key of the pairs `s`.
pub open spec fn count_map<V>(s: Seq<(i64, V)>) -> Map<i64, nat>
    decreases s.len(),
{
    if s.len() == 0 {
        Map::empty()
    } else {
        let m = count_map(s.drop_last());
        let k = s.last().0;
        let prev: nat = if m.contains_key(k) {
            m[k]
        } else {
            0
        };
        m.insert(k, prev + 1)
    }
}

proof fn lemma_count_bound<V>(s: Seq<(i64, V)>, k: i64)
    ensures
        count_map(s).contains_key(k) ==> count_map(s)[k] <= s.len(),
    decreases s.len(),
{
    if s.len() > 0 {
        lemma_count_bound(s.drop_last(), k);
    }
}

/// Vectors, seen as the sequences of their items.
pub open spec fn vec_views<V>(m: Map<i64, Vec<V>>) -> Map<i64, Seq<V>> {
    Map::new(|k: i64| m.contains_key(k), |k: i64| m[k]@)
}

/// Counts, as natural numbers.
pub open spec fn nat_values(m: Map<i64, usize>) -> Map<i64, nat> {
    Map::new(|k: i64| m.contains_key(k), |k: i64| m[k] as nat)
}

/// The items of an iterator of key-value pairs, to be grouped by key.
pub struct GroupingMap<I> {
    iter: I,
}

/// Create a new `GroupingMap` over `iter`.
pub fn new<V, I: Itertools<Item = (i64, V)>>(iter: I) -> (r: GroupingMap<I>)
    requires
        iter.wf(),
    ensures
        r.wf(),
        r.pairs() == iter.rest(),
{
    GroupingMap { iter }
}

/// Fold with an initial value: `Some` of the operation applied to the accumulated result, or
/// to `init` for the first value of a key.
pub struct FoldAgg<R, F> {
    pub init: R,
    pub op: F,
}

impl<V, R: Copy, F: FoldFn<V, R>> AggregateFn<V, R> for FoldAgg<R, F> {
    open spec fn spec_apply(&self, acc: Option<R>, key: i64, val: V) -> Option<R> {
        Some(
            self.op.spec_fold(
                match acc {
                    Some(a) => a,
                    None => self.init,
                },
                key,
                val,
            ),
        )
    }

    fn apply(&self, acc: Option<R>, key: &i64, val: V) -> (r: Option<R>) {
        let a = match acc {
            Some(a) => a,
            None => self.init,
        };
        Some(self.op.fold(a, key, val))
    }
}

/// Fold from the first value: the first value of a key, then the operation applied to the
/// accumulated result.
pub struct FoldFirstAgg<F> {
    pub op: F,
}

impl<V, F: FoldFn<V, V>> AggregateFn<V, V> for FoldFirstAgg<F> {
    open spec fn spec_apply(&self, acc: Option<V>, key: i64, val: V) -> Option<V> {
        Some(
            match acc {
                Some(a) => self.op.spec_fold(a, key, val),
                None => val,
            },
        )
    }

    fn apply(&self, acc: Option<V>, key: &i64, val: V) -> (r: Option<V>) {
        Some(
            match acc {
                Some(a) => self.op.fold(a, key, val),
                None => val,
            },
        )
    }
}

impl<V, I: Itertools<Item = (i64, V)>> GroupingMap<I> {
    /// The pairs still to be grouped.
    pub closed spec fn pairs(&self) -> Seq<(i64, V)> {
        self.iter.rest()
    }

    pub closed spec fn wf(&self) -> bool {
        self.iter.wf()
    }

    /// For each key, the result of applying `operation` to the values of the key in turn,
    /// starting from `None`; a key whose result becomes `None` is dropped, until a later value
    /// gives it a result again.
    pub fn aggregate<R, F: AggregateFn<V, R>>(self, operation: F) -> (r: HashMap<i64, R>)
        requires
            self.wf(),
        ensures
            r@ == agg_map(self.pairs(), operation),
    {
        let ghost all = self.iter.rest();
        let mut map: HashMap<i64, R> = HashMap::new();
        let mut it = self.iter;
        let ghost mut n: int = 0;
        loop
            invariant
                it.wf(),
                all == self.iter.rest(),
                0 <= n <= all.len(),
                it.rest() == all.skip(n),
                map@ == agg_map(all.take(n), operation),
            decreases it.rest().len(),
        {
            match it.next() {
                Some((key, val)) => {
                    proof {
                        assert(all.take(n + 1).drop_last() =~= all.take(n));
                    }
                    let ghost m0 = map@;
                    let acc = map.remove(&key);
                    proof {
                        assert(map@ =~= m0.remove(key));
                    }
                    match operation.apply(acc, &key, val) {
                        Some(res) => {
                            map.insert(key, res);
                            proof {
                                assert(map@ =~= m0.insert(key, res));
                            }
                        },
                        None => {},
                    }
                    proof {
                        n = n + 1;
                        assert(it.rest() =~= all.skip(n));
                    }
                },
                None => {
                    proof {
                        assert(all.take(n) =~= all);
                    }
                    return map;
                },
            }
        }
    }

    /// For each key, `operation` folded over its values, starting from `init`.
    pub fn fold<R: Copy, F: FoldFn<V, R>>(self, init: R, operation: F) -> (r: HashMap<i64, R>)
        requires
            self.wf(),
        ensures
            r@ == agg_map(self.pairs(), FoldAgg { init, op: operation }),
    {
        self.aggregate(FoldAgg { init, op: operation })
    }

    /// For each key, `operation` folded over its values, starting from the first of them.
    pub fn fold_first<F: FoldFn<V, V>>(self, operation: F) -> (r: HashMap<i64, V>)
        requires
            self.wf(),
        ensures
            r@ == agg_map(self.pairs(), FoldFirstAgg { op: operation }),
    {
        self.aggregate(FoldFirstAgg { op: operation })
    }

    /// For each key, the vector of its values, in order.
    pub fn collect(self) -> (r: HashMap<i64, Vec<V>>)
        requires
            self.wf(),
        ensures
            vec_views(r@) == group_seqs(self.pairs()),
    {
        into_group_map(self.iter)
    }

    /// For each key, the number of its values.
    pub fn count(self) -> (r: HashMap<i64, usize>)
        requires
            self.wf(),
            self.pairs().len() <= usize::MAX,
        ensures
            nat_values(r@) == count_map(self.pairs()),
    {
        let ghost all = self.iter.rest();
        let mut map: HashMap<i64, usize> = HashMap::new();
        let mut it = self.iter;
        let ghost mut n: int = 0;
        loop
            invariant
                it.wf(),
                all == self.iter.rest(),
                all.len() <= usize::MAX,
                0 <= n <= all.len(),
                it.rest() == all.skip(n),
                nat_values(map@) == count_map(all.take(n)),
            decreases it.rest().len(),
        {
            match it.next() {
                Some((key, _)) => {
                    proof {
                        assert(all.take(n + 1).drop_last() =~= all.take(n));
                        lemma_count_bound(all.take(n), key);
                        assert(nat_values(map@).contains_key(key) == map@.contains_key(key));
                        if map@.contains_key(key) {
                            assert(nat_values(map@)[key] == map@[key]);
                        }
                    }
                    let ghost m0 = map@;
                    let c = match map.get(&key) {
                        Some(c) => *c,
                        None => 0,
                    };
                    map.insert(key, c + 1);
                    proof {
                        n = n + 1;
                        assert(it.rest() =~= all.skip(n));
                        assert(nat_values(map@) =~= count_map(all.take(n)));
                    }
                },
                None => {
                    proof {
                        assert(all.take(n) =~= all);
                    }
                    return map;
                },
            }
        }
    }
}

/// For each key of the pairs of `iter`, the vector of its values, in order.
pub fn into_group_map<V, I: Itertools<Item = (i64, V)>>(iter: I) -> (r: HashMap<i64, Vec<V>>)
    requires
        iter.wf(),
    ensures
        vec_views(r@) == group_seqs(iter.rest()),
{
    let ghost all = iter.rest();
    let mut map: HashMap<i64, Vec<V>> = HashMap::new();
    let mut it = iter;
    let ghost mut n: int = 0;
    loop
        invariant
            it.wf(),
            all == iter.rest(),
            0 <= n <= all.len(),
            it.rest() == all.skip(n),
            vec_views(map@) == group_seqs(all.take(n)),
        decreases it.rest().len(),
    {
        match it.next() {
            Some((key, val)) => {
                proof {
                    assert(all.take(n + 1).drop_last() =~= all.take(n));
                    assert(vec_views(map@).contains_key(key) == map@.contains_key(key));
                }
                let ghost m0 = map@;
                let mut vals = match map.remove(&key) {
                    Some(v) => v,
                    None => Vec::new(),
                };
                vals.push(val);
                map.insert(key, vals);
                proof {
                    n = n + 1;
                    assert(it.rest() =~= all.skip(n));
                    assert(vec_views(map@) =~= group_seqs(all.take(n)));
                }
            },
            None => {
                proof {
                    assert(all.take(n) =~= all);
                }
                return map;
            },
        }
    }
}

} // verus!
