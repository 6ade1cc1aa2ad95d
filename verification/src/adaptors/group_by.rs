//! Grouping consecutive items that have the same key.
use vstd::prelude::*;
use crate::Itertools;
use crate::size_hint::{self, SizeHint, within};

verus! {

/// A key function: the key of an item, by reference.
pub trait KeyFn<T> {
    /// The key of `x`.
    spec fn spec_key(&self, x: T) -> i64;

    /// Compute the key of `x`.
    fn key(&self, x: &T) -> (k: i64)
        ensures
            k == self.spec_key(*x),
    ;
}

/// The key of an integer is the integer itself.
pub struct Identity;

impl KeyFn<i64> for Identity {
    open spec fn spec_key(&self, x: i64) -> i64 {
        x
    }

    fn key(&self, x: &i64) -> (k: i64) {
        *x
    }
}

/// The length of the longest prefix of `s` whose items all have the key `k`.
pub open spec fn run_len<T, F: KeyFn<T>>(f: F, k: i64, s: Seq<T>) -> nat
    decreases s.len(),
{
    if s.len() > 0 && f.spec_key(s[0]) == k {
        1 + run_len(f, k, s.drop_first())
    } else {
        0
    }
}

/// A run is never longer than the sequence.
pub proof fn lemma_run_len_bound<T, F: KeyFn<T>>(f: F, k: i64, s: Seq<T>)
    ensures
        run_len(f, k, s) <= s.len(),
        s.len() > 0 && f.spec_key(s[0]) == k ==> run_len(f, k, s) >= 1,
    decreases s.len(),
{
    if s.len() > 0 && f.spec_key(s[0]) == k {
        lemma_run_len_bound(f, k, s.drop_first());
    }
}

/// The runs of items of `s` with equal keys, each with its key, in order.
pub open spec fn group_runs<T, F: KeyFn<T>>(f: F, s: Seq<T>) -> Seq<(i64, Seq<T>)>
    decreases s.len(),
{
    if s.len() == 0 {
        Seq::empty()
    } else {
        let k = f.spec_key(s[0]);
        let n = run_len(f, k, s);
        proof {
            lemma_run_len_bound(f, k, s);
        }
        seq![(k, s.take(n as int))] + group_runs(f, s.skip(n as int))
    }
}

/// Every item of `e` has the key `k`.
pub open spec fn all_keyed<T, F: KeyFn<T>>(f: F, k: i64, e: Seq<T>) -> bool {
    forall|i: int| 0 <= i < e.len() ==> f.spec_key(#[trigger] e[i]) == k
}

/// A prefix of items with the key `k` lengthens the run by its length.
pub proof fn lemma_run_len_prefix<T, F: KeyFn<T>>(f: F, k: i64, e: Seq<T>, s: Seq<T>)
    requires
        all_keyed(f, k, e),
    ensures
        run_len(f, k, e + s) == e.len() + run_len(f, k, s),
    decreases e.len(),
{
    if e.len() > 0 {
        assert((e + s).drop_first() =~= e.drop_first() + s);
        assert(f.spec_key(e[0]) == k);
        lemma_run_len_prefix(f, k, e.drop_first(), s);
    } else {
        assert(e + s =~= s);
    }
}

/// The runs of `e + s`, where `e` is a non-empty run of key `k`: the first run is `e`
/// extended by the run of key `k` at the front of `s`.
pub proof fn lemma_group_runs_prefix<T, F: KeyFn<T>>(f: F, k: i64, e: Seq<T>, s: Seq<T>)
    requires
        e.len() > 0,
        all_keyed(f, k, e),
    ensures
        group_runs(f, e + s) == seq![(k, e + s.take(run_len(f, k, s) as int))] + group_runs(
            f,
            s.skip(run_len(f, k, s) as int),
        ),
{
    let r = run_len(f, k, s);
    lemma_run_len_prefix(f, k, e, s);
    lemma_run_len_bound(f, k, s);
    assert(f.spec_key(e[0]) == k);
    assert((e + s)[0] == e[0]);
    assert((e + s).take((e.len() + r) as int) =~= e + s.take(r as int));
    assert((e + s).skip((e.len() + r) as int) =~= s.skip(r as int));
}

/// There are at most as many runs as items, and at least one run when there is an item.
pub proof fn lemma_group_runs_len<T, F: KeyFn<T>>(f: F, s: Seq<T>)
    ensures
        group_runs(f, s).len() <= s.len(),
        s.len() > 0 ==> group_runs(f, s).len() >= 1,
    decreases s.len(),
{
    if s.len() > 0 {
        let k = f.spec_key(s[0]);
        lemma_run_len_bound(f, k, s);
        lemma_group_runs_len(f, s.skip(run_len(f, k, s) as int));
    }
}

/// The items of the runs, one run after the other.
pub open spec fn run_items<T>(runs: Seq<(i64, Seq<T>)>) -> Seq<T>
    decreases runs.len(),
{
    if runs.len() == 0 {
        Seq::empty()
    } else {
        runs[0].1 + run_items(runs.drop_first())
    }
}

/// The runs cover the items in order: put back together they give the sequence; each run is
/// non-empty and all its items have its key; two neighbouring runs have different keys.
pub proof fn lemma_group_runs_partition<T, F: KeyFn<T>>(f: F, s: Seq<T>)
    ensures
        run_items(group_runs(f, s)) == s,
        forall|g: int| 0 <= g < group_runs(f, s).len() ==> (#[trigger] group_runs(f, s)[g]).1.len() > 0
            && all_keyed(f, group_runs(f, s)[g].0, group_runs(f, s)[g].1),
        forall|g: int| 0 < g < group_runs(f, s).len() ==> (#[trigger] group_runs(f, s)[g]).0 != group_runs(f, s)[g - 1].0,
    decreases s.len(),
{
    if s.len() > 0 {
        let k = f.spec_key(s[0]);
        let n = run_len(f, k, s);
        lemma_run_len_bound(f, k, s);
        let rest = s.skip(n as int);
        lemma_group_runs_partition(f, rest);
        lemma_run_prefix_keyed(f, k, s);
        let runs = group_runs(f, s);
        assert(runs.drop_first() =~= group_runs(f, rest));
        assert(s =~= s.take(n as int) + rest);
        if rest.len() > 0 {
            lemma_run_len_stops(f, k, s);
            assert(rest[0] == s[n as int]);
            assert(group_runs(f, rest)[0].0 == f.spec_key(rest[0]));
        }
        assert forall|g: int| 0 <= g < runs.len() implies (#[trigger] runs[g]).1.len() > 0
            && all_keyed(f, runs[g].0, runs[g].1) by {
            if g > 0 {
                assert(runs[g] == group_runs(f, rest)[g - 1]);
            }
        }
        assert forall|g: int| 0 < g < runs.len() implies (#[trigger] runs[g]).0 != runs[g - 1].0 by {
            assert(runs[g] == group_runs(f, rest)[g - 1]);
            if g > 1 {
                assert(runs[g - 1] == group_runs(f, rest)[g - 2]);
            }
        }
    }
}

/// The items of the run at the front all have its key.
proof fn lemma_run_prefix_keyed<T, F: KeyFn<T>>(f: F, k: i64, s: Seq<T>)
    ensures
        all_keyed(f, k, s.take(run_len(f, k, s) as int)),
    decreases s.len(),
{
    lemma_run_len_bound(f, k, s);
    if s.len() > 0 && f.spec_key(s[0]) == k {
        lemma_run_prefix_keyed(f, k, s.drop_first());
        let n = run_len(f, k, s);
        assert forall|i: int| 0 <= i < n implies f.spec_key(#[trigger] s.take(n as int)[i]) == k by {
            if i > 0 {
                assert(s.take(n as int)[i] == s.drop_first().take(n - 1)[i - 1]);
            }
        }
    }
}

/// The item right after the run at the front has another key.
proof fn lemma_run_len_stops<T, F: KeyFn<T>>(f: F, k: i64, s: Seq<T>)
    requires
        run_len(f, k, s) < s.len(),
    ensures
        f.spec_key(s[run_len(f, k, s) as int]) != k,
    decreases s.len(),
{
    if s.len() > 0 && f.spec_key(s[0]) == k {
        lemma_run_len_stops(f, k, s.drop_first());
    }
}

/// An iterator adaptor that groups consecutive items with equal keys into runs, each
/// yielded with its key.
pub struct GroupBy<I: Itertools, F> {
    key: F,
    iter: I,
    current_key: Option<i64>,
    elts: Vec<I::Item>,
}

impl<I: Itertools, F: KeyFn<I::Item>> GroupBy<I, F> {
    /// The items not yet handed out in a group: those held for the current group, then those
    /// of the underlying iterator.
    pub closed spec fn pending(&self) -> Seq<I::Item> {
        self.elts@ + self.iter.rest()
    }

    /// The groups still to be yielded.
    pub closed spec fn rest(&self) -> Seq<(i64, Seq<I::Item>)> {
        group_runs(self.key, self.pending())
    }

    /// The invariant of the adaptor: the items held all have the current key.
    pub closed spec fn wf(&self) -> bool {
        &&& self.iter.wf()
        &&& match self.current_key {
            None => self.elts@.len() == 0,
            Some(k) => self.elts@.len() > 0 && all_keyed(self.key, k, self.elts@),
        }
    }

    /// The key function.
    pub closed spec fn key_fn(&self) -> F {
        self.key
    }

    /// Create a new `GroupBy` iterator.
    pub fn new(iter: I, key: F) -> (r: Self)
        requires
            iter.wf(),
        ensures
            r.wf(),
            r.rest() == group_runs(key, iter.rest()),
            r.key_fn() == key,
    {
        let r = GroupBy { key, iter, current_key: None, elts: Vec::new() };
        assert(r.pending() =~= iter.rest());
        r
    }

    /// The next group: its key and its items.
    pub fn next(&mut self) -> (r: Option<(i64, Vec<I::Item>)>)
        requires
            old(self).wf(),
        ensures
            final(self).wf(),
            final(self).key_fn() == old(self).key_fn(),
            match r {
                None => old(self).rest().len() == 0 && final(self).rest().len() == 0,
                Some(g) => old(self).rest().len() > 0 && (g.0, g.1@) == old(self).rest()[0]
                    && final(self).rest() == old(self).rest().drop_first(),
            },
    {
        let ghost all = old(self).rest();
        loop
            invariant
                self.wf(),
                self.key == old(self).key,
                all == old(self).rest(),
                all == self.rest(),
            ensures
                self.wf(),
                self.key == old(self).key,
                all == self.rest(),
                self.iter.rest().len() == 0,
            decreases self.iter.rest().len(),
        {
            let ghost s = self.iter.rest();
            let ghost e = self.elts@;
            match self.iter.next() {
                None => {
                    break;
                },
                Some(elt) => {
                    let key = self.key.key(&elt);
                    proof {
                        assert(s =~= seq![elt] + self.iter.rest());
                    }
                    match self.current_key {
                        None => {},
                        Some(old_key) => {
                            if old_key != key {
                                proof {
                                    assert(run_len(self.key, old_key, s) == 0);
                                    lemma_group_runs_prefix(self.key, old_key, e, s);
                                    assert(s.take(0) =~= Seq::<I::Item>::empty());
                                    assert(e + s.take(0) =~= e);
                                    assert(s.skip(0) =~= s);
                                }
                                self.current_key = Some(key);
                                let mut v: Vec<I::Item> = Vec::new();
                                v.push(elt);
                                core::mem::swap(&mut v, &mut self.elts);
                                proof {
                                    assert(self.pending() =~= s);
                                    assert(all_keyed(self.key, key, self.elts@));
                                }
                                return Some((old_key, v));
                            }
                        },
                    }
                    self.current_key = Some(key);
                    self.elts.push(elt);
                    proof {
                        assert(self.pending() =~= e + s);
                        assert(all_keyed(self.key, key, self.elts@)) by {
                            assert forall|i: int| 0 <= i < self.elts@.len() implies self.key.spec_key(
                                #[trigger] self.elts@[i],
                            ) == key by {
                                if i < e.len() {
                                    assert(self.elts@[i] == e[i]);
                                }
                            }
                        }
                    }
                },
            }
        }
        match self.current_key.take() {
            None => {
                proof {
                    assert(self.pending() =~= Seq::<I::Item>::empty());
                }
                None
            },
            Some(key) => {
                let ghost e = self.elts@;
                let ghost s = self.iter.rest();
                proof {
                    lemma_group_runs_prefix(self.key, key, e, s);
                    assert(s.take(0) =~= Seq::<I::Item>::empty());
                    assert(e + s.take(0) =~= e);
                    assert(s.skip(0) =~= s);
                    assert(s =~= Seq::<I::Item>::empty());
                }
                let mut v: Vec<I::Item> = Vec::new();
                core::mem::swap(&mut v, &mut self.elts);
                proof {
                    assert(self.pending() =~= Seq::<I::Item>::empty());
                }
                Some((key, v))
            },
        }
    }

    /// The base iterator's hint with the stored item added; the lower bound is at most one
    /// group.
    pub closed spec fn spec_size_hint(&self) -> (usize, Option<usize>) {
        let sh = crate::size_hint::add_scalar_spec(
            self.iter.spec_size_hint(),
            if self.current_key is Some { 1usize } else { 0usize },
        );
        (if sh.0 > 0 { 1usize } else { 0usize }, sh.1)
    }

    /// Bounds on the number of groups left.
    pub fn size_hint(&self) -> (r: SizeHint)
        requires
            self.wf(),
        ensures
            within(r, self.rest().len() as int),
            r == self.spec_size_hint(),
    {
        let stored_count: usize = if self.current_key.is_some() {
            1
        } else {
            0
        };
        let ish = self.iter.size_hint();
        let mut sh = size_hint::add_scalar(ish, stored_count);
        proof {
            let s = self.iter.rest();
            assert(within(ish, s.len() as int));
            lemma_group_runs_len(self.key, s);
            if let Some(k) = self.current_key {
                let e = self.elts@;
                lemma_group_runs_prefix(self.key, k, e, s);
                lemma_run_len_bound(self.key, k, s);
                lemma_group_runs_len(self.key, s.skip(run_len(self.key, k, s) as int));
            } else {
                assert(self.pending() =~= s);
            }
        }
        if sh.0 > 0 {
            sh.0 = 1;
        }
        sh
    }
}

} // verus!
