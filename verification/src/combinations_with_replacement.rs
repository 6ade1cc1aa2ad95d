//! All `k`-length combinations of the items of an iterator, with replacement.
use vstd::prelude::*;
use crate::Itertools;
use crate::lazy_buffer::LazyBuffer;
use crate::binomial::{binom, binomial, lemma_choose_zero, lemma_hockey_stick, stair};
use crate::combinations::pick;

verus! {

/// The last position at or before `i` whose index is below `n - 1`, or `-1`.
pub open spec fn last_below(idx: Seq<usize>, n: nat, i: int) -> int
    decreases i + 1,
{
    if i < 0 {
        -1
    } else if idx[i] + 1 < n {
        i
    } else {
        last_below(idx, n, i - 1)
    }
}

/// The next non-decreasing sequence of indices below `n` after `idx` in lexicographic
/// order: the last index that can grow grows by one, and those after it take its new value.
pub open spec fn cwr_succ(idx: Seq<usize>, n: nat) -> Option<Seq<usize>> {
    let i = last_below(idx, n, idx.len() - 1);
    if i < 0 {
        None
    } else {
        Some(Seq::new(idx.len(), |j: int| if j < i { idx[j] } else { (idx[i] + 1) as usize }))
    }
}

/// `k` zeros.
pub open spec fn zeros_k(k: nat) -> Seq<usize> {
    Seq::new(k, |j: int| 0usize)
}

proof fn lemma_last_below(idx: Seq<usize>, n: nat, i: int, m: int)
    requires
        -1 <= m <= i < idx.len(),
        m >= 0 ==> idx[m] + 1 < n,
        forall|j: int| m < j <= i ==> !(idx[j] + 1 < n),
    ensures
        last_below(idx, n, i) == m,
    decreases i - m,
{
    if i > m {
        lemma_last_below(idx, n, i - 1, m);
    }
}

/// An iterator over all the `k`-length combinations of the items of an iterator, with
/// replacement: the non-decreasing sequences of `k` positions, in lexicographic order. One
/// more item of the source is read at each step, while there is one.
pub struct CombinationsWithReplacement<I: Itertools> {
    indices: Vec<usize>,
    pool: LazyBuffer<I>,
    first: bool,
}

/// Create a new `CombinationsWithReplacement` over the items of `iter`.
pub fn combinations_with_replacement<I: Itertools>(iter: I, k: usize) -> (r:
    CombinationsWithReplacement<I>)
    requires
        iter.wf(),
    ensures
        r.wf(),
        r.pool_all() == iter.rest(),
        r.current() == zeros_k(k as nat),
        r.n_read() == 0,
        r.is_first(),
{
    let mut indices: Vec<usize> = Vec::new();
    while indices.len() < k
        invariant
            indices.len() <= k,
            indices@ == zeros_k(indices.len() as nat),
        decreases k - indices.len(),
    {
        indices.push(0);
        assert(indices@ =~= zeros_k(indices.len() as nat));
    }
    let pool = LazyBuffer::new(iter);
    CombinationsWithReplacement { indices, pool, first: true }
}

impl<I: Itertools> CombinationsWithReplacement<I> {
    /// The whole pool of items the combinations are drawn from.
    pub closed spec fn pool_all(&self) -> Seq<I::Item> {
        self.pool.all()
    }

    /// The size hint of the pool.
    pub closed spec fn pool_hint(&self) -> crate::size_hint::SizeHint {
        self.pool.spec_size_hint()
    }

    /// The positions of the combination yielded last.
    pub closed spec fn current(&self) -> Seq<usize> {
        self.indices@
    }

    /// The number of items read from the source so far.
    pub closed spec fn n_read(&self) -> nat {
        self.pool.buf().len()
    }

    /// No combination has been yielded yet.
    pub closed spec fn is_first(&self) -> bool {
        self.first
    }

    pub closed spec fn wf(&self) -> bool {
        &&& self.pool.wf()
        &&& self.first ==> self.indices@ == zeros_k(self.indices@.len()) && self.pool.buf().len()
            == 0
        &&& !self.first && self.indices@.len() > 0 ==> self.pool.buf().len() >= 1
        &&& !self.first ==> forall|j: int|
            0 <= j < self.indices@.len() ==> #[trigger] self.indices@[j] < self.pool.buf().len()
        &&& !self.first ==> is_multicomb(self.indices@, self.pool.buf().len())
        &&& !self.first ==> forall|j: int|
            0 <= j < self.indices@.len() ==> #[trigger] self.indices@[j] < usize::MAX
        &&& !self.first && self.indices@.len() > 0 && self.pool.unread().len() > 0
            ==> self.indices@.last() + 1 == self.pool.buf().len()
    }

    /// While the pool is still being read, the last position is the one that grows, so the
    /// next combination is the same as over the whole pool; and the count of those still to
    /// come goes down by one at each step.
    pub proof fn lemma_step_over_whole_pool(&self)
        requires
            self.wf(),
        ensures
            ({
                let total = self.pool_all().len();
                let k = self.current().len();
                let n = if self.n_read() < total { self.n_read() + 1 } else { self.n_read() };
                &&& !self.is_first() ==> cwr_succ(self.current(), n) == cwr_step(false, self.current(), k, total)
                &&& cwr_step(self.is_first(), self.current(), k, total) matches Some(next) ==> cwr_remaining(total, false, next) + 1
                    == cwr_remaining(total, self.is_first(), self.current())
                &&& cwr_step(self.is_first(), self.current(), k, total) is None ==> cwr_remaining(total, self.is_first(), self.current()) == 0
            }),
    {
        let total = self.pool_all().len();
        let idx = self.indices@;
        let k = idx.len();
        let n = if self.n_read() < total { self.n_read() + 1 } else { self.n_read() };
        if !self.first {
            assert(is_multicomb(idx, total));
            if self.n_read() < total && k > 0 {
                lemma_last_below(idx, n, k - 1, k - 1);
                lemma_last_below(idx, total, k - 1, k - 1);
            }
            if k == 0 {
                assert(last_below(idx, n, -1) == -1);
                assert(last_below(idx, total, -1) == -1);
            }
        }
        lemma_cwr_step_counts_down(self.first, idx, k, total);
    }
}

impl<I: Itertools> CombinationsWithReplacement<I> where I::Item: Copy {
    /// The items at the current positions.
    fn current_items(&self) -> (r: Vec<I::Item>)
        requires
            forall|j: int| 0 <= j < self.indices@.len() ==> self.indices@[j] < self.pool.buf().len(),
        ensures
            r@ == pick(self.pool_all(), self.current()),
    {
        let v = self.pool.get_at(self.indices.as_slice());
        proof {
            assert(v@ =~= pick(self.pool_all(), self.current()));
        }
        v
    }

    /// The next combination, as the vector of its items.
    pub fn next(&mut self) -> (r: Option<Vec<I::Item>>)
        requires
            old(self).wf(),
        ensures
            final(self).wf(),
            final(self).pool_all() == old(self).pool_all(),
            final(self).current().len() == old(self).current().len(),
            ({
                let total = old(self).pool_all().len();
                let k = old(self).current().len();
                if old(self).is_first() {
                    if k > 0 && total == 0 {
                        r is None && final(self).is_first() && final(self).n_read() == 0
                    } else {
                        &&& r matches Some(v) && v@ == pick(old(self).pool_all(), zeros_k(k))
                        &&& final(self).current() == zeros_k(k)
                        &&& !final(self).is_first()
                        &&& final(self).n_read() == if k > 0 { 1nat } else { 0nat }
                    }
                } else {
                    let n = if old(self).n_read() < total {
                        old(self).n_read() + 1
                    } else {
                        old(self).n_read()
                    };
                    &&& !final(self).is_first()
                    &&& final(self).n_read() == n
                    &&& match cwr_succ(old(self).current(), n) {
                        None => r is None && final(self).current() == old(self).current(),
                        Some(idx) => r matches Some(v) && v@ == pick(old(self).pool_all(), idx)
                            && final(self).current() == idx,
                    }
                }
            }),
            r is Some ==> cwr_remaining(final(self).pool_all().len(), final(self).is_first(), final(self).current()) + 1
                == cwr_remaining(old(self).pool_all().len(), old(self).is_first(), old(self).current()),
            r is None ==> cwr_remaining(old(self).pool_all().len(), old(self).is_first(), old(self).current()) == 0,
    {
        proof {
            self.lemma_step_over_whole_pool();
        }
        if self.first {
            if !(self.indices.len() == 0 || self.pool.get_next()) {
                return None;
            } else {
                self.first = false;
                return Some(self.current_items());
            }
        }
        let ghost read_before = self.pool.buf().len();
        let ghost unread_before = self.pool.unread().len();
        self.pool.get_next();
        let ghost idx = self.indices@;
        let ghost n = self.pool.buf().len();
        let mut increment: Option<(usize, usize)> = None;
        let mut i: usize = self.indices.len();
        while i > 0 && increment.is_none()
            invariant
                i <= idx.len(),
                self.indices@ == idx,
                self.pool.buf().len() == n,
                idx.len() > 0 ==> n >= 1,
                forall|j: int| 0 <= j < idx.len() ==> #[trigger] idx[j] < n,
                increment matches Some(p) ==> p.0 == i && p.1 == idx[i as int] + 1 && idx[i as int]
                    + 1 < n && i < idx.len() && p.1 < usize::MAX,
                forall|j: int| i < j < idx.len() ==> !(idx[j] + 1 < n),
                increment is None ==> forall|j: int| i <= j < idx.len() ==> !(idx[j] + 1 < n),
            decreases i,
        {
            i = i - 1;
            let v = self.indices[i];
            if v < self.pool.len() - 1 {
                increment = Some((i, v + 1));
            }
        }
        match increment {
            Some((from, value)) => {
                proof {
                    lemma_last_below(idx, n, idx.len() - 1, from as int);
                }
                let ghost target = cwr_succ(idx, n).unwrap();
                let mut indices: Vec<usize> = Vec::new();
                core::mem::swap(&mut indices, &mut self.indices);
                let mut j: usize = from;
                while j < indices.len()
                    invariant
                        from <= j <= idx.len(),
                        indices@.len() == idx.len(),
                        target.len() == idx.len(),
                        value == idx[from as int] + 1,
                        forall|t: int| 0 <= t < from ==> indices@[t] == idx[t],
                        forall|t: int| from <= t < j ==> indices@[t] == value,
                        forall|t: int| 0 <= t < idx.len() ==> target[t] == if t < from {
                            idx[t]
                        } else {
                            value
                        },
                    decreases idx.len() - j,
                {
                    indices.set(j, value);
                    j = j + 1;
                }
                core::mem::swap(&mut indices, &mut self.indices);
                proof {
                    assert(self.indices@ =~= target);
                    assert(is_multicomb(idx, read_before));
                    assert forall|a: int, b: int| 0 <= a <= b < target.len() implies target[a] <= target[b] by {
                        if a < from && b >= from {
                            assert(idx[a] <= idx[from as int]);
                        }
                    }
                    if unread_before > 0 && idx.len() > 0 {
                        assert(idx.last() + 1 == read_before);
                        assert(from == idx.len() - 1);
                    }
                }
                Some(self.current_items())
            },
            None => {
                proof {
                    lemma_last_below(idx, n, idx.len() - 1, -1);
                }
                None
            },
        }
    }
}


/// The number of multisets of `k` positions below `n`: `C(n + k - 1, k)`.
pub open spec fn multichoose(n: nat, k: nat) -> nat {
    if n + k == 0 {
        binom(0, k)
    } else {
        binom((n + k - 1) as nat, k)
    }
}

/// The number of combinations with replacement after `idx` among those of `k` positions below
/// `n`.
pub open spec fn cwr_remaining_sum(idx: Seq<usize>, n: nat, k: nat) -> nat
    decreases idx.len(),
{
    if idx.len() == 0 {
        0
    } else {
        let j = idx.len() - 1;
        cwr_remaining_sum(idx.drop_last(), n, k) + multichoose((n - 1 - idx[j]) as nat, (k - j) as nat)
    }
}

/// The number of combinations still to come from the state `(first, indices)` if the pool had
/// `n` items.
pub open spec fn cwr_remaining(n: nat, first: bool, indices: Seq<usize>) -> nat {
    if first {
        multichoose(n, indices.len())
    } else {
        cwr_remaining_sum(indices, n, indices.len())
    }
}

/// `idx` lists positions below `n` in non-decreasing order.
pub open spec fn is_multicomb(idx: Seq<usize>, n: nat) -> bool {
    &&& forall|i: int, j: int| 0 <= i <= j < idx.len() ==> idx[i] <= idx[j]
    &&& forall|i: int| 0 <= i < idx.len() ==> idx[i] < n
}

/// The positions of the combination with replacement of `k` positions below `n` that comes
/// after `current`: `k` zeros if none has come yet; `None` when there is none.
pub open spec fn cwr_step(first: bool, current: Seq<usize>, k: nat, n: nat) -> Option<Seq<usize>> {
    if first {
        if k > 0 && n == 0 {
            None
        } else {
            Some(zeros_k(k))
        }
    } else {
        cwr_succ(current, n)
    }
}

/// Each term added to `cwr_remaining_sum` of a prefix is the term of the new last position.
proof fn lemma_cwr_sum_take(s: Seq<usize>, n: nat, k: nat, p: int)
    requires
        0 < p <= s.len(),
    ensures
        cwr_remaining_sum(s.take(p), n, k) == cwr_remaining_sum(s.take(p - 1), n, k) + multichoose(
            (n - 1 - s[p - 1]) as nat,
            (k - (p - 1)) as nat,
        ),
{
    assert(s.take(p).drop_last() =~= s.take(p - 1));
}

/// Over positions that all hold `c` from position `i` on, `cwr_remaining_sum` adds a stair.
proof fn lemma_cwr_sum_run(s: Seq<usize>, n: nat, k: nat, i: int, c: int, p: int)
    requires
        0 <= i <= p <= s.len() <= k,
        c < n,
        forall|j: int| i <= j < s.len() ==> s[j] == c,
    ensures
        cwr_remaining_sum(s.take(p), n, k) == cwr_remaining_sum(s.take(i), n, k) + stair(
            (n - 1 - c) + (k - i) - 1,
            k - i,
            (p - i) as nat,
        ),
    decreases p - i,
{
    if p > i {
        lemma_cwr_sum_run(s, n, k, i, c, p - 1);
        lemma_cwr_sum_take(s, n, k, p);
        assert((n - 1 - c) + (k - i) - 1 - (p - 1 - i) == (n - 1 - c) + (k - (p - 1)) - 1);
        assert(k - i - (p - 1 - i) == k - (p - 1));
    }
}

/// Positions at `n - 1` add nothing to `cwr_remaining_sum`.
proof fn lemma_cwr_sum_at_max(s: Seq<usize>, n: nat, k: nat, i: int, p: int)
    requires
        0 <= i <= p <= s.len() == k,
        forall|j: int| i <= j < s.len() ==> s[j] + 1 == n,
    ensures
        cwr_remaining_sum(s.take(p), n, k) == cwr_remaining_sum(s.take(i), n, k),
    decreases p - i,
{
    if p > i {
        lemma_cwr_sum_at_max(s, n, k, i, p - 1);
        lemma_cwr_sum_take(s, n, k, p);
        lemma_choose_zero((k - (p - 1) - 1) as nat, (k - (p - 1)) as nat);
    }
}

/// What `last_below` finds: a position that can grow, with none after it up to `i`.
proof fn lemma_last_below_found(idx: Seq<usize>, n: nat, i: int)
    requires
        -1 <= i < idx.len(),
    ensures
        -1 <= last_below(idx, n, i) <= i,
        last_below(idx, n, i) >= 0 ==> idx[last_below(idx, n, i)] + 1 < n,
        forall|j: int| last_below(idx, n, i) < j <= i ==> !(idx[j] + 1 < n),
    decreases i + 1,
{
    if i >= 0 && !(idx[i] + 1 < n) {
        lemma_last_below_found(idx, n, i - 1);
    }
}

/// Counting down: each combination with replacement that comes next takes one off the number
/// of those still to come, and none comes exactly when that number is zero. The one that comes
/// is again a non-decreasing list of `k` positions below `n`.
pub proof fn lemma_cwr_step_counts_down(first: bool, current: Seq<usize>, k: nat, n: nat)
    requires
        current.len() == k,
        first ==> current == zeros_k(k),
        !first ==> is_multicomb(current, n),
        !first ==> forall|j: int| 0 <= j < current.len() ==> current[j] < usize::MAX,
    ensures
        cwr_step(first, current, k, n) matches Some(next) ==> next.len() == k && is_multicomb(next, n)
            && cwr_remaining(n, false, next) + 1 == cwr_remaining(n, first, current),
        cwr_step(first, current, k, n) is None ==> cwr_remaining(n, first, current) == 0,
{
    if first {
        if k > 0 && n == 0 {
            lemma_choose_zero((k - 1) as nat, k);
        } else if n == 0 {
            assert(zeros_k(0) =~= Seq::<usize>::empty());
        } else {
            let z = zeros_k(k);
            lemma_cwr_sum_run(z, n, k, 0, 0, k as int);
            assert(z.take(k as int) =~= z);
            assert(z.take(0) =~= Seq::<usize>::empty());
            lemma_hockey_stick(n + k - 2, k as int);
        }
    } else if k == 0 {
        assert(current =~= Seq::<usize>::empty());
    } else {
        let i = last_below(current, n, k - 1);
        lemma_last_below_found(current, n, k - 1);
        assert(current.take(k as int) =~= current);
        assert forall|j: int| i < j < k implies current[j] + 1 == n by {
            assert(!(current[j] + 1 < n));
        }
        if i < 0 {
            lemma_cwr_sum_at_max(current, n, k, 0, k as int);
            assert(current.take(0) =~= Seq::<usize>::empty());
        } else {
            let next = cwr_succ(current, n)->0;
            let c = current[i] + 1;
            assert(forall|j: int| i <= j < next.len() ==> next[j] == c);
            assert(next.take(i) =~= current.take(i));
            assert(next.take(k as int) =~= next);
            lemma_cwr_sum_run(next, n, k, i, c, k as int);
            lemma_hockey_stick((n - 1 - c) + (k - i) - 1, k - i);
            lemma_cwr_sum_at_max(current, n, k, i + 1, k as int);
            lemma_cwr_sum_take(current, n, k, i + 1);
            assert(current.take(i + 1).take(i) =~= current.take(i));
        }
    }
}

/// `C(n + k - 1, k)`, or `None` when it does not fit in `usize`.
fn checked_multichoose(n: usize, k: usize) -> (r: Option<usize>)
    ensures
        r == if multichoose(n as nat, k as nat) <= usize::MAX {
            Some(multichoose(n as nat, k as nat) as usize)
        } else {
            None::<usize>
        },
{
    if n == 0 {
        binomial(k.saturating_sub(1), k)
    } else {
        match (n - 1).checked_add(k) {
            Some(m) => binomial(m, k),
            None => {
                proof {
                    lemma_choose_above((n - 1 + k) as nat, k as nat);
                }
                None
            },
        }
    }
}

/// Choosing at least one, but not all, of `m` items has at least `m` ways.
proof fn lemma_choose_above(m: nat, k: nat)
    requires
        1 <= k < m,
    ensures
        binom(m, k) >= m,
{
    crate::binomial::lemma_choose_step(m, 1);
    assert(binom(m, 0) == 1);
    let b1 = binom(m, 1);
    assert(b1 == m) by (nonlinear_arith)
        requires
            1 * b1 == (m - 1 + 1) * 1,
    ;
    if 2 * k <= m {
        crate::binomial::lemma_choose_grows(m, 1, k);
    } else {
        crate::binomial::lemma_choose_symmetric(m, k);
        crate::binomial::lemma_choose_grows(m, 1, (m - k) as nat);
    }
}

/// The number of combinations still to come if the pool had `n` items, or `None` when it does
/// not fit in `usize`.
fn remaining_for(n: usize, first: bool, indices: &[usize]) -> (r: Option<usize>)
    requires
        !first ==> forall|j: int| 0 <= j < indices@.len() ==> indices@[j] < n,
    ensures
        r == if cwr_remaining(n as nat, first, indices@) <= usize::MAX {
            Some(cwr_remaining(n as nat, first, indices@) as usize)
        } else {
            None::<usize>
        },
{
    let k = indices.len();
    if first {
        checked_multichoose(n, k)
    } else {
        let mut sum: usize = 0;
        let mut j: usize = 0;
        while j < k
            invariant
                k == indices@.len(),
                j <= k,
                forall|m: int| 0 <= m < k ==> indices@[m] < n,
                sum == cwr_remaining_sum(indices@.take(j as int), n as nat, k as nat),
                !first,
            decreases k - j,
        {
            proof {
                assert(indices@.take(j + 1).drop_last() =~= indices@.take(j as int));
                lemma_cwr_sum_grows(indices@, n as nat, k as nat, (j + 1) as nat);
            }
            let b = match checked_multichoose(n - 1 - indices[j], k - j) {
                Some(b) => b,
                None => {
                    return None;
                },
            };
            sum = match sum.checked_add(b) {
                Some(s) => s,
                None => {
                    return None;
                },
            };
            j = j + 1;
        }
        assert(indices@.take(k as int) =~= indices@);
        Some(sum)
    }
}

proof fn lemma_cwr_sum_grows(idx: Seq<usize>, n: nat, k: nat, j: nat)
    requires
        j <= idx.len(),
    ensures
        cwr_remaining_sum(idx.take(j as int), n, k) <= cwr_remaining_sum(idx, n, k),
    decreases idx.len() - j,
{
    if j < idx.len() {
        lemma_cwr_sum_grows(idx, n, k, j + 1);
        assert(idx.take(j as int + 1).drop_last() =~= idx.take(j as int));
    } else {
        assert(idx.take(j as int) =~= idx);
    }
}

impl<I: Itertools> CombinationsWithReplacement<I> {
    /// Bounds on the number of combinations still to come: the count at the bounds of the
    /// pool's size, the lower one saturating at `usize::MAX`.
    pub fn size_hint(&self) -> (r: crate::size_hint::SizeHint)
        requires
            self.wf(),
        ensures
            r.0 == usize::MAX || exists|lo: nat|
                self.n_read() <= lo <= self.pool_all().len() && r.0 == cwr_remaining(lo, self.is_first(), self.current()),
            r.1 matches Some(h) ==> exists|hi: nat|
                hi >= self.pool_all().len() && h == cwr_remaining(hi, self.is_first(), self.current()),
            r == crate::size_hint::hint_map(
                self.pool_hint(),
                |n: nat| cwr_remaining(n, self.is_first(), self.current()),
            ),
    {
        let (lo, hi) = self.pool.size_hint();
        let idx = self.indices.as_slice();
        assert(idx@ == self.indices@);
        let low = match remaining_for(lo, self.first, idx) {
            Some(x) => {
                assert(self.n_read() <= lo as nat <= self.pool_all().len() && x == cwr_remaining(lo as nat, self.is_first(), self.current()));
                x
            },
            None => usize::MAX,
        };
        let upp = match hi {
            Some(h) => {
                let u = remaining_for(h, self.first, idx);
                proof {
                    if u is Some {
                        assert(h as nat >= self.pool_all().len() && u.unwrap() == cwr_remaining(h as nat, self.is_first(), self.current()));
                    }
                }
                u
            },
            None => None,
        };
        (low, upp)
    }
}

} // verus!
