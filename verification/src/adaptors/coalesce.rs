//! Joining adjacent items together where a joining function allows it.
use vstd::prelude::*;
use crate::Itertools;
use crate::size_hint::{self, SizeHint, within};

verus! {

/// A joining function for `Coalesce`: given the item built so far and the next one, either
/// join them into one (`Ok`) or hand both back (`Err`), the first to be yielded.
pub trait Coalescer<T> {
    /// What `join` returns on `a` and `b`.
    spec fn spec_join(&self, a: T, b: T) -> Result<T, (T, T)>;

    /// Join `a` and `b`, or hand them back.
    fn join(&self, a: T, b: T) -> (r: Result<T, (T, T)>)
        ensures
            r == self.spec_join(a, b),
    ;
}

/// Joins equal integers into one: the joining function of `dedup`.
pub struct DedupEq;

impl Coalescer<i64> for DedupEq {
    open spec fn spec_join(&self, a: i64, b: i64) -> Result<i64, (i64, i64)> {
        if a == b {
            Ok(a)
        } else {
            Err((a, b))
        }
    }

    fn join(&self, a: i64, b: i64) -> (r: Result<i64, (i64, i64)>) {
        if a == b {
            Ok(a)
        } else {
            Err((a, b))
        }
    }
}

/// The items yielded when `last` is the item built so far and `s` the items after it.
pub open spec fn coalesce_seq<T, F: Coalescer<T>>(f: F, last: T, s: Seq<T>) -> Seq<T>
    decreases s.len(),
{
    if s.len() == 0 {
        seq![last]
    } else {
        match f.spec_join(last, s[0]) {
            Ok(joined) => coalesce_seq(f, joined, s.drop_first()),
            Err((a, b)) => seq![a] + coalesce_seq(f, b, s.drop_first()),
        }
    }
}

/// Coalescing yields at least one and at most `s.len() + 1` items.
pub proof fn lemma_coalesce_len<T, F: Coalescer<T>>(f: F, last: T, s: Seq<T>)
    ensures
        1 <= coalesce_seq(f, last, s).len() <= s.len() + 1,
    decreases s.len(),
{
    if s.len() > 0 {
        match f.spec_join(last, s[0]) {
            Ok(joined) => lemma_coalesce_len(f, joined, s.drop_first()),
            Err((a, b)) => lemma_coalesce_len(f, b, s.drop_first()),
        }
    }
}

/// `dedup` leaves no two equal neighbours, and starts with the item built so far.
pub proof fn lemma_dedup_distinct_neighbours(last: i64, s: Seq<i64>)
    ensures
        coalesce_seq(DedupEq, last, s)[0] == last,
        forall|i: int| 0 < i < coalesce_seq(DedupEq, last, s).len() ==> #[trigger] coalesce_seq(DedupEq, last, s)[i]
            != coalesce_seq(DedupEq, last, s)[i - 1],
    decreases s.len(),
{
    if s.len() > 0 {
        lemma_dedup_distinct_neighbours(s[0], s.drop_first());
        lemma_coalesce_len(DedupEq, s[0], s.drop_first());
        let t = coalesce_seq(DedupEq, s[0], s.drop_first());
        if s[0] != last {
            let r = coalesce_seq(DedupEq, last, s);
            assert(r =~= seq![last] + t);
            assert forall|i: int| 0 < i < r.len() implies #[trigger] r[i] != r[i - 1] by {
                if i > 1 {
                    assert(r[i] == t[i - 1] && r[i - 1] == t[i - 2]);
                }
            }
        }
    }
}

/// On an ascending sequence, `dedup` leaves every item once: what it yields is strictly
/// ascending.
pub proof fn lemma_dedup_sorted_unique(last: i64, s: Seq<i64>)
    requires
        forall|i: int, j: int| 0 <= i < j < s.len() ==> s[i] <= s[j],
        s.len() > 0 ==> last <= s[0],
    ensures
        forall|i: int, j: int| 0 <= i < j < coalesce_seq(DedupEq, last, s).len()
            ==> coalesce_seq(DedupEq, last, s)[i] < coalesce_seq(DedupEq, last, s)[j],
        forall|i: int| 0 <= i < coalesce_seq(DedupEq, last, s).len() ==> last <= coalesce_seq(DedupEq, last, s)[i],
    decreases s.len(),
{
    let r = coalesce_seq(DedupEq, last, s);
    if s.len() > 0 {
        let t = s.drop_first();
        lemma_dedup_sorted_unique(s[0], t);
        lemma_coalesce_len(DedupEq, s[0], t);
        let u = coalesce_seq(DedupEq, s[0], t);
        if s[0] != last {
            assert(r =~= seq![last] + u);
            assert forall|i: int, j: int| 0 <= i < j < r.len() implies r[i] < r[j] by {
                if i > 0 {
                    assert(r[i] == u[i - 1] && r[j] == u[j - 1]);
                } else {
                    assert(r[j] == u[j - 1]);
                    assert(s[0] <= u[j - 1]);
                }
            }
            assert forall|i: int| 0 <= i < r.len() implies last <= r[i] by {
                if i > 0 {
                    assert(r[i] == u[i - 1]);
                }
            }
        } else {
            assert(r == u);
        }
    }
}

/// An iterator adaptor that may join together adjacent items.
pub struct Coalesce<I: Itertools, F> {
    iter: I,
    last: Option<I::Item>,
    f: F,
}

impl<I: Itertools, F: Coalescer<I::Item>> Coalesce<I, F> {
    /// Create a new `Coalesce`.
    pub fn new(iter: I, f: F) -> (r: Self)
        requires
            iter.wf(),
        ensures
            r.wf(),
            r.rest() == if iter.rest().len() == 0 {
                Seq::empty()
            } else {
                coalesce_seq(f, iter.rest()[0], iter.rest().drop_first())
            },
    {
        let mut iter = iter;
        let last = iter.next();
        Coalesce { last, iter, f }
    }
}

/// Join runs of equal adjacent items of `iter` into one.
pub fn dedup<I: Itertools<Item = i64>>(iter: I) -> (r: Coalesce<I, DedupEq>)
    requires
        iter.wf(),
    ensures
        r.wf(),
        r.rest() == if iter.rest().len() == 0 {
            Seq::empty()
        } else {
            coalesce_seq(DedupEq, iter.rest()[0], iter.rest().drop_first())
        },
{
    Coalesce::new(iter, DedupEq)
}

impl<I: Itertools, F: Coalescer<I::Item>> Itertools for Coalesce<I, F> {
    type Item = I::Item;

    closed spec fn rest(&self) -> Seq<I::Item> {
        match self.last {
            Some(x) => coalesce_seq(self.f, x, self.iter.rest()),
            None => Seq::empty(),
        }
    }

    closed spec fn wf(&self) -> bool {
        &&& self.iter.wf()
        &&& self.last is None ==> self.iter.rest().len() == 0
    }

    fn next(&mut self) -> (r: Option<I::Item>) {
        let mut last = match self.last.take() {
            None => {
                return None;
            },
            Some(x) => x,
        };
        let ghost all = old(self).rest();
        loop
            invariant
                self.iter.wf(),
                self.last is None,
                self.f == old(self).f,
                all == coalesce_seq(self.f, last, self.iter.rest()),
                all == old(self).rest(),
            decreases self.iter.rest().len(),
        {
            let ghost s = self.iter.rest();
            match self.iter.next() {
                None => {
                    assert(all =~= seq![last]);
                    assert(self.rest() =~= all.drop_first());
                    return Some(last);
                },
                Some(next) => {
                    match self.f.join(last, next) {
                        Ok(joined) => {
                            last = joined;
                        },
                        Err((last_, next_)) => {
                            self.last = Some(next_);
                            assert(s.drop_first() == self.iter.rest());
                            assert(all =~= seq![last_] + self.rest());
                            return Some(last_);
                        },
                    }
                },
            }
        }
    }

    closed spec fn spec_size_hint(&self) -> (usize, Option<usize>) {
        (if crate::size_hint::add_scalar_spec(self.iter.spec_size_hint(), if self.last is Some { 1usize } else { 0usize }).0 > 0 { 1usize } else { 0usize }, crate::size_hint::add_scalar_spec(self.iter.spec_size_hint(), if self.last is Some { 1usize } else { 0usize }).1)
    }

    fn size_hint(&self) -> (r: SizeHint) {
        let has_last: usize = if self.last.is_some() {
            1
        } else {
            0
        };
        let sh = self.iter.size_hint();
        let (low, hi) = size_hint::add_scalar(sh, has_last);
        proof {
            assert(within(sh, self.iter.rest().len() as int));
            if self.last is Some {
                lemma_coalesce_len(self.f, self.last->0, self.iter.rest());
            }
        }
        let lo: usize = if low > 0 {
            1
        } else {
            0
        };
        let r = (lo, hi);
        assert(r == self.spec_size_hint());
        r
    }
}

} // verus!
