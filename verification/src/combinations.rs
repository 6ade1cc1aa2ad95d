//! All `k`-length combinations of the items of an iterator, in lexicographic order.
use vstd::prelude::*;
use crate::Itertools;
use crate::lazy_buffer::LazyBuffer;
use crate::binomial::{binom, binomial, lemma_choose_zero, lemma_hockey_stick, stair};

verus! {

/// `idx` lists `idx.len()` distinct positions below `n`, in increasing order.
pub open spec fn is_combination(idx: Seq<usize>, n: nat) -> bool {
    &&& forall|i: int, j: int| 0 <= i < j < idx.len() ==> idx[i] < idx[j]
    &&& forall|i: int| 0 <= i < idx.len() ==> idx[i] < n
}

/// The position `i` of `idx` can still grow in a combination of positions below `n`.
pub open spec fn can_increment(idx: Seq<usize>, n: nat, i: int) -> bool {
    idx[i] + idx.len() < n + i
}

/// The last position at or before `i` that can still grow, or `-1`.
pub open spec fn last_incrementable(idx: Seq<usize>, n: nat, i: int) -> int
    decreases i + 1,
{
    if i < 0 {
        -1
    } else if can_increment(idx, n, i) {
        i
    } else {
        last_incrementable(idx, n, i - 1)
    }
}

/// The combination that follows `idx` in lexicographic order, among the combinations of
/// `idx.len()` positions below `n`; `None` when `idx` is the last one.
pub open spec fn comb_succ(idx: Seq<usize>, n: nat) -> Option<Seq<usize>> {
    let i = last_incrementable(idx, n, idx.len() - 1);
    if i < 0 {
        None
    } else {
        Some(Seq::new(idx.len(), |j: int| if j < i { idx[j] } else { (idx[i] + 1 + (j - i)) as usize }))
    }
}

/// The first combination of `k` positions: `0, 1, .., k - 1`.
pub open spec fn first_comb(k: nat) -> Seq<usize> {
    Seq::new(k, |j: int| j as usize)
}

/// The positions that `Combinations::next` yields next: the first combination of `k`
/// positions below `n` if none has been yielded yet, otherwise the lexicographic successor
/// of `current`; `None` when there is none.
pub open spec fn comb_step(first: bool, current: Seq<usize>, k: nat, n: nat) -> Option<Seq<usize>> {
    if first {
        if k > n {
            None
        } else {
            Some(first_comb(k))
        }
    } else if k == 0 {
        None
    } else {
        comb_succ(current, n)
    }
}

/// The items of `pool` at the positions `idx`.
pub open spec fn pick<T>(pool: Seq<T>, idx: Seq<usize>) -> Seq<T> {
    idx.map_values(|i: usize| pool[i as int])
}

/// In a combination of positions below `n`, position `j` holds at least `j` and leaves room for
/// the positions after it.
pub proof fn lemma_comb_bounds(idx: Seq<usize>, n: nat)
    requires
        is_combination(idx, n),
    ensures
        forall|j: int| 0 <= j < idx.len() ==> j <= idx[j] && idx[j] + idx.len() - j <= n,
{
    assert forall|j: int| 0 <= j < idx.len() implies j <= idx[j] by {
        lemma_comb_low(idx, n, j);
    }
    assert forall|j: int| 0 <= j < idx.len() implies idx[j] + idx.len() - j <= n by {
        lemma_comb_high(idx, n, j);
    }
}

proof fn lemma_comb_low(idx: Seq<usize>, n: nat, j: int)
    requires
        is_combination(idx, n),
        0 <= j < idx.len(),
    ensures
        j <= idx[j],
    decreases j,
{
    if j > 0 {
        lemma_comb_low(idx, n, j - 1);
        assert(idx[j - 1] < idx[j]);
    }
}

proof fn lemma_comb_high(idx: Seq<usize>, n: nat, j: int)
    requires
        is_combination(idx, n),
        0 <= j < idx.len(),
    ensures
        idx[j] + idx.len() - j <= n,
    decreases idx.len() - j,
{
    if j < idx.len() - 1 {
        lemma_comb_high(idx, n, j + 1);
        assert(idx[j] < idx[j + 1]);
    }
}

pub proof fn lemma_last_incrementable(idx: Seq<usize>, n: nat, i: int, m: int)
    requires
        -1 <= m <= i < idx.len(),
        m >= 0 ==> can_increment(idx, n, m),
        forall|j: int| m < j <= i ==> !can_increment(idx, n, j),
    ensures
        last_incrementable(idx, n, i) == m,
    decreases i - m,
{
    if i > m {
        lemma_last_incrementable(idx, n, i - 1, m);
    } else if m == -1 {
    }
}

/// An iterator over all `k`-length combinations of the items of an iterator, as vectors.
///
/// The combinations come in lexicographic order of the positions of their items.
pub struct Combinations<I: Itertools> {
    indices: Vec<usize>,
    pool: LazyBuffer<I>,
    first: bool,
}

/// Create a new `Combinations` over the items of `iter`.
pub fn combinations<I: Itertools>(iter: I, k: usize) -> (r: Combinations<I>)
    requires
        iter.wf(),
    ensures
        r.wf(),
        r.pool_all() == iter.rest(),
        r.k_v() == k,
        r.is_first(),
{
    let mut pool = LazyBuffer::new(iter);
    pool.prefill(k);
    let mut indices: Vec<usize> = Vec::new();
    while indices.len() < k
        invariant
            indices.len() <= k,
            indices@ == first_comb(indices.len() as nat),
        decreases k - indices.len(),
    {
        let j = indices.len();
        indices.push(j);
        assert(indices@ =~= first_comb(indices.len() as nat));
    }
    Combinations { indices, pool, first: true }
}

impl<I: Itertools> Combinations<I> {
    /// The whole pool of items the combinations are drawn from.
    pub closed spec fn pool_all(&self) -> Seq<I::Item> {
        self.pool.all()
    }

    /// The positions of the combination yielded last.
    pub closed spec fn current(&self) -> Seq<usize> {
        self.indices@
    }

    /// No combination has been yielded yet.
    pub closed spec fn is_first(&self) -> bool {
        self.first
    }

    /// The length of the combinations.
    pub closed spec fn k_v(&self) -> nat {
        self.indices@.len()
    }

    /// The number of items read from the source so far.
    pub closed spec fn n_read(&self) -> nat {
        self.pool.buf().len()
    }

    pub closed spec fn wf(&self) -> bool {
        &&& self.pool.wf()
        &&& self.first ==> self.indices@ == first_comb(self.indices@.len())
        &&& self.first ==> self.pool.buf().len() >= self.indices@.len() || self.pool.unread().len()
            == 0
        &&& !self.first ==> is_combination(self.indices@, self.pool.buf().len())
    }

    /// Returns the length of a combination produced by this iterator.
    pub fn k(&self) -> (r: usize)
        ensures
            r == self.k_v(),
    {
        self.indices.len()
    }

    /// Returns the (current) length of the pool from which combination elements are
    /// selected. This value can change between invocations of `next`.
    pub fn n(&self) -> (r: usize)
        ensures
            r == self.n_read(),
    {
        self.pool.len()
    }
}

impl<I: Itertools> Combinations<I> where I::Item: Copy {
    /// The next combination, as the vector of its items.
    pub fn next(&mut self) -> (r: Option<Vec<I::Item>>)
        requires
            old(self).wf(),
        ensures
            final(self).wf(),
            final(self).pool_all() == old(self).pool_all(),
            final(self).k_v() == old(self).k_v(),
            ({
                let n = old(self).pool_all().len();
                let k = old(self).k_v();
                if old(self).is_first() {
                    if k > n {
                        r is None && final(self).current() == old(self).current()
                            && final(self).is_first()
                    } else {
                        &&& r matches Some(v) && v@ == pick(old(self).pool_all(), first_comb(k))
                        &&& final(self).current() == first_comb(k)
                        &&& !final(self).is_first()
                    }
                } else {
                    &&& !final(self).is_first()
                    &&& k == 0 ==> r is None
                    &&& k > 0 ==> match comb_succ(old(self).current(), n) {
                        None => r is None && final(self).current() == old(self).current(),
                        Some(idx) => r matches Some(v) && v@ == pick(old(self).pool_all(), idx)
                            && final(self).current() == idx,
                    }
                }
            }),
            r is Some ==> final(self).remaining_count(final(self).pool_all().len()) + 1
                == old(self).remaining_count(old(self).pool_all().len()),
            r is None ==> old(self).remaining_count(old(self).pool_all().len()) == 0,
    {
        let ghost n = self.pool.all().len();
        let k = self.indices.len();
        let n_read = self.pool.len();
        proof {
            if !self.first {
                assert(is_combination(self.indices@, n));
            }
            lemma_comb_step_counts_down(self.first, self.indices@, k as nat, n);
        }
        if self.first {
            if k > n_read {
                return None;
            }
            self.first = false;
            proof {
                assert(is_combination(self.indices@, self.pool.buf().len()));
            }
        } else if k == 0 {
            return None;
        } else {
            proof {
                lemma_comb_bounds(self.indices@, self.pool.buf().len());
            }
            let mut i: usize = k - 1;
            if self.indices[i] == n_read - 1 {
                self.pool.get_next();
            }
            proof {
                assert(self.pool.buf().len() == n || self.indices@[k - 1] + 1 < self.pool.buf().len());
                lemma_comb_bounds(self.indices@, self.pool.buf().len());
            }
            while self.at_max(i)
                invariant
                    self.wf(),
                    !self.first,
                    !old(self).is_first(),
                    k == self.indices@.len(),
                    k > 0,
                    i < k,
                    n == self.pool.all().len(),
                    n == old(self).pool_all().len(),
                    self.indices@ == old(self).current(),
                    self.pool.all() == old(self).pool_all(),
                    self.pool.buf().len() == n || (i == k - 1 && self.indices@[k - 1] + 1
                        < self.pool.buf().len()),
                    forall|j: int|
                        0 <= j < k ==> j <= self.indices@[j] && self.indices@[j] + k - j
                            <= self.pool.buf().len(),
                    k <= i + self.pool.buf().len(),
                    self.indices@[i as int] + k - i <= self.pool.buf().len(),
                    forall|j: int| i < j < k ==> !can_increment(self.indices@, n, j),
                    comb_succ(old(self).current(), n) is None ==> old(self).remaining_count(n) == 0,
                decreases i,
            {
                if i > 0 {
                    proof {
                        assert(!can_increment(self.indices@, n, i as int));
                    }
                    i = i - 1;
                } else {
                    proof {
                        assert(!can_increment(self.indices@, n, 0));
                        lemma_last_incrementable(self.indices@, n, k - 1, -1);
                        assert(comb_succ(self.indices@, n) is None);
                        assert(is_combination(self.indices@, self.pool.buf().len()));
                    }
                    return None;
                }
            }
            proof {
                lemma_comb_bounds(self.indices@, self.pool.buf().len());
                assert(can_increment(self.indices@, n, i as int));
                lemma_last_incrementable(self.indices@, n, k - 1, i as int);
            }
            let ghost idx = self.indices@;
            let ghost target = comb_succ(idx, n).unwrap();
            let v = self.indices[i] + 1;
            proof {
                assert(target[i as int] == idx[i as int] + 1);
                if self.pool.buf().len() != n {
                    assert(i == k - 1);
                }
            }
            self.indices.set(i, v);
            let mut j: usize = i + 1;
            while j < k
                invariant
                    i < j <= k,
                    k == self.indices@.len(),
                    self.pool.wf(),
                    !self.first,
                    self.pool.all() == old(self).pool_all(),
                    n == self.pool.all().len(),
                    idx == old(self).current(),
                    self.pool.buf().len() == n || i == k - 1,
                    target == comb_succ(idx, n).unwrap(),
                    target.len() == k,
                    forall|m: int| 0 <= m < j ==> self.indices@[m] == target[m],
                    idx[i as int] + k < n + i,
                    target[i as int] + k - i <= n,
                    target[i as int] + k - i <= self.pool.buf().len(),
                    forall|m: int| i <= m < k ==> target[m] == idx[i as int] + 1 + (m - i),
                decreases k - j,
            {
                proof {
                    assert(self.indices@[j - 1] == target[j - 1]);
                    assert(target[j - 1] == idx[i as int] + 1 + (j - 1 - i));
                    assert(target[j as int] == idx[i as int] + 1 + (j - i));
                }
                let w = self.indices[j - 1] + 1;
                self.indices.set(j, w);
                j = j + 1;
            }
            proof {
                assert(self.indices@ =~= target);
                assert(is_combination(self.indices@, self.pool.buf().len())) by {
                    assert forall|m: int| 0 <= m < k implies self.indices@[m] < self.pool.buf().len() by {
                        if m < i {
                            assert(self.indices@[m] == idx[m]);
                        }
                    }
                    assert forall|a: int, b: int| 0 <= a < b < k implies self.indices@[a] < self.indices@[b] by {
                        if b < i {
                        } else if a < i {
                            assert(idx[a] < idx[i as int]);
                        }
                    }
                }
            }
        }
        Some(self.current_items())
    }

    /// Position `i` holds the largest value it can hold with the items read so far.
    fn at_max(&self, i: usize) -> (r: bool)
        requires
            i < self.indices@.len(),
            self.indices@[i as int] + self.indices@.len() - i <= self.pool.buf().len(),
        ensures
            r == (self.indices@[i as int] + self.indices@.len() - i == self.pool.buf().len()),
    {
        let l = self.pool.len();
        self.indices[i] + (self.indices.len() - i) == l
    }

    /// The items at the current positions.
    fn current_items(&self) -> (r: Vec<I::Item>)
        requires
            self.wf(),
            !self.is_first(),
        ensures
            r@ == pick(self.pool_all(), self.current()),
    {
        let v = self.pool.get_at(self.indices.as_slice());
        proof {
            assert(v@ =~= pick(self.pool_all(), self.current()));
        }
        v
    }
}


/// The number of combinations after `idx` among those of `k` positions below `n`, read off
/// the positions: the sum, over each position `j`, of the ways to choose the `k - j` positions
/// from `j` on above `idx[j]`.
pub open spec fn remaining_sum(idx: Seq<usize>, n: nat, k: nat) -> nat
    decreases idx.len(),
{
    if idx.len() == 0 {
        0
    } else {
        let j = idx.len() - 1;
        remaining_sum(idx.drop_last(), n, k) + binom((n - 1 - idx[j]) as nat, (k - j) as nat)
    }
}

/// The number of combinations of `k` positions below `n` still to come: all of them when none
/// has been yielded yet, otherwise those after `current`.
pub open spec fn comb_remaining(first: bool, current: Seq<usize>, k: nat, n: nat) -> nat {
    if first {
        binom(n, k)
    } else {
        remaining_sum(current, n, k)
    }
}

/// Each term added to `remaining_sum` of a prefix is the term of the new last position.
proof fn lemma_remaining_sum_take(s: Seq<usize>, n: nat, k: nat, p: int)
    requires
        0 < p <= s.len(),
    ensures
        remaining_sum(s.take(p), n, k) == remaining_sum(s.take(p - 1), n, k) + binom(
            (n - 1 - s[p - 1]) as nat,
            (k - (p - 1)) as nat,
        ),
{
    assert(s.take(p).drop_last() =~= s.take(p - 1));
}

/// Over positions that run up by one from `c` at position `i`, `remaining_sum` adds a stair.
proof fn lemma_remaining_sum_run(s: Seq<usize>, n: nat, k: nat, i: int, c: int, p: int)
    requires
        0 <= i <= p <= s.len(),
        forall|j: int| i <= j < s.len() ==> s[j] == c + (j - i),
    ensures
        remaining_sum(s.take(p), n, k) == remaining_sum(s.take(i), n, k) + stair(n - 1 - c, k - i, (p - i) as nat),
    decreases p - i,
{
    if p > i {
        lemma_remaining_sum_run(s, n, k, i, c, p - 1);
        lemma_remaining_sum_take(s, n, k, p);
        assert(n - 1 - s[p - 1] == (n - 1 - c) - (p - 1 - i));
        assert(k - (p - 1) == (k - i) - (p - 1 - i));
    }
}

/// Positions at their highest add nothing to `remaining_sum`.
proof fn lemma_remaining_sum_at_max(s: Seq<usize>, n: nat, k: nat, i: int, p: int)
    requires
        0 <= i <= p <= s.len() == k,
        forall|j: int| i <= j < s.len() ==> s[j] + k == n + j,
    ensures
        remaining_sum(s.take(p), n, k) == remaining_sum(s.take(i), n, k),
    decreases p - i,
{
    if p > i {
        lemma_remaining_sum_at_max(s, n, k, i, p - 1);
        lemma_remaining_sum_take(s, n, k, p);
        lemma_choose_zero((n - 1 - s[p - 1]) as nat, (k - (p - 1)) as nat);
    }
}

/// What `last_incrementable` finds: a position that can grow, with none after it up to `i`.
proof fn lemma_last_incrementable_found(idx: Seq<usize>, n: nat, i: int)
    requires
        -1 <= i < idx.len(),
    ensures
        -1 <= last_incrementable(idx, n, i) <= i,
        last_incrementable(idx, n, i) >= 0 ==> can_increment(idx, n, last_incrementable(idx, n, i)),
        forall|j: int| last_incrementable(idx, n, i) < j <= i ==> !can_increment(idx, n, j),
    decreases i + 1,
{
    if i >= 0 && !can_increment(idx, n, i) {
        lemma_last_incrementable_found(idx, n, i - 1);
    }
}

/// Counting down: each combination that `Combinations::next` yields takes one off the number
/// of combinations still to come, and it yields none exactly when that number is zero. The
/// combination yielded is again one of `k` positions below `n`.
pub proof fn lemma_comb_step_counts_down(first: bool, current: Seq<usize>, k: nat, n: nat)
    requires
        k <= usize::MAX,
        !first ==> current.len() == k && is_combination(current, n),
        !first ==> forall|j: int| 0 <= j < current.len() ==> current[j] < usize::MAX,
    ensures
        comb_step(first, current, k, n) matches Some(next) ==> next.len() == k && is_combination(next, n)
            && comb_remaining(false, next, k, n) + 1 == comb_remaining(first, current, k, n),
        comb_step(first, current, k, n) is None ==> comb_remaining(first, current, k, n) == 0,
{
    if first {
        if k > n {
            lemma_choose_zero(n, k);
        } else {
            let f = first_comb(k);
            lemma_remaining_sum_run(f, n, k, 0, 0, k as int);
            assert(f.take(k as int) =~= f);
            assert(f.take(0) =~= Seq::<usize>::empty());
            lemma_hockey_stick(n - 1, k as int);
        }
    } else if k == 0 {
        assert(current =~= Seq::<usize>::empty());
    } else {
        let i = last_incrementable(current, n, k - 1);
        lemma_last_incrementable_found(current, n, k - 1);
        lemma_comb_bounds(current, n);
        assert(current.take(k as int) =~= current);
        assert forall|j: int| i < j < k implies current[j] + k == n + j by {
            assert(!can_increment(current, n, j));
        }
        if i < 0 {
            lemma_remaining_sum_at_max(current, n, k, 0, k as int);
            assert(current.take(0) =~= Seq::<usize>::empty());
        } else {
            let next = comb_succ(current, n)->0;
            let c = current[i] + 1;
            assert(forall|j: int| i <= j < next.len() ==> next[j] == c + (j - i));
            assert(next.take(i) =~= current.take(i));
            assert(next.take(k as int) =~= next);
            lemma_remaining_sum_run(next, n, k, i, c, k as int);
            lemma_hockey_stick(n - 1 - c, k - i);
            lemma_remaining_sum_at_max(current, n, k, i + 1, k as int);
            lemma_remaining_sum_take(current, n, k, i + 1);
            assert(current.take(i + 1).take(i) =~= current.take(i));
        }
    }
}

/// The number of combinations of `indices.len()` positions below `n` still to come from the
/// state `(first, indices)`, or `None` when it does not fit in `usize`.
pub fn remaining_for(n: usize, first: bool, indices: &Vec<usize>) -> (r: Option<usize>)
    requires
        !first ==> forall|j: int| 0 <= j < indices@.len() ==> indices@[j] < n,
    ensures
        r == if comb_remaining(first, indices@, indices@.len(), n as nat) <= usize::MAX {
            Some(comb_remaining(first, indices@, indices@.len(), n as nat) as usize)
        } else {
            None::<usize>
        },
{
    let k = indices.len();
    if first {
        binomial(n, k)
    } else {
        let mut sum: usize = 0;
        let mut j: usize = 0;
        while j < k
            invariant
                k == indices@.len(),
                j <= k,
                forall|m: int| 0 <= m < k ==> indices@[m] < n,
                sum == remaining_sum(indices@.take(j as int), n as nat, k as nat),
                !first,
            decreases k - j,
        {
            proof {
                assert(indices@.take(j + 1).drop_last() =~= indices@.take(j as int));
                lemma_remaining_sum_grows(indices@, n as nat, k as nat, (j + 1) as nat);
            }
            let b = match binomial(n - 1 - indices[j], k - j) {
                Some(b) => b,
                None => {
                    return None;
                },
            };
            sum = match sum.checked_add(b) {
                Some(s) => s,
                None => {
                    return None;
                },
            };
            j = j + 1;
        }
        assert(indices@.take(k as int) =~= indices@);
        Some(sum)
    }
}

/// Read the whole pool; return its length and the number of combinations still to come from
/// the state `(first, indices)`.
pub fn n_and_count<I: Itertools>(pool: LazyBuffer<I>, first: bool, indices: &Vec<usize>) -> (r: (usize, usize))
    requires
        pool.wf(),
        pool.all().len() <= usize::MAX,
        !first ==> is_combination(indices@, pool.all().len()),
        comb_remaining(first, indices@, indices@.len(), pool.all().len()) <= usize::MAX,
    ensures
        r.0 == pool.all().len(),
        r.1 == comb_remaining(first, indices@, indices@.len(), pool.all().len()),
{
    let n = pool.count();
    match remaining_for(n, first, indices) {
        Some(c) => (n, c),
        None => (n, 0),
    }
}

impl<I: Itertools> Combinations<I> {
    /// The number of combinations still to come if the pool had `n` items.
    pub open spec fn remaining_count(&self, n: nat) -> nat {
        comb_remaining(self.is_first(), self.current(), self.k_v(), n)
    }

    /// Read the whole pool; return its length.
    pub fn real_n(&mut self) -> (r: usize)
        requires
            old(self).wf(),
        ensures
            final(self).wf(),
            final(self).pool_all() == old(self).pool_all(),
            final(self).current() == old(self).current(),
            final(self).is_first() == old(self).is_first(),
            r == old(self).pool_all().len(),
            final(self).n_read() == r,
    {
        loop
            invariant
                self.wf(),
                self.pool_all() == old(self).pool_all(),
                self.current() == old(self).current(),
                self.is_first() == old(self).is_first(),
                self.n_read() >= old(self).n_read(),
            ensures
                self.wf(),
                self.pool_all() == old(self).pool_all(),
                self.current() == old(self).current(),
                self.is_first() == old(self).is_first(),
                self.pool.unread().len() == 0,
            decreases self.pool.unread().len(),
        {
            let ghost before = self.pool.unread().len();
            let ghost b0 = self.pool.buf().len();
            assert(self.pool.all().len() == b0 + before);
            if !self.pool.get_next() {
                break;
            }
            assert(self.pool.all().len() == self.pool.buf().len() + self.pool.unread().len());
            assert(self.pool.unread().len() < before);
        }
        self.pool.len()
    }

    /// The size hint of the pool.
    pub closed spec fn pool_hint(&self) -> crate::size_hint::SizeHint {
        self.pool.spec_size_hint()
    }

    /// The items of the source not read into the pool yet.
    pub closed spec fn unread(&self) -> Seq<I::Item> {
        self.pool.unread()
    }

    /// The underlying iterator.
    pub fn src(&self) -> (r: &I)
        ensures
            r.rest() == self.unread(),
    {
        self.pool.source()
    }

    /// Start over with combinations of `k` items, reading more items if needed.
    pub fn reset(&mut self, k: usize)
        requires
            old(self).wf(),
        ensures
            final(self).wf(),
            final(self).pool_all() == old(self).pool_all(),
            final(self).k_v() == k,
            final(self).current() == first_comb(k as nat),
            final(self).is_first(),
    {
        self.first = true;
        let mut indices: Vec<usize> = Vec::new();
        core::mem::swap(&mut indices, &mut self.indices);
        let len = indices.len();
        if k < len {
            proof {
                if !old(self).first {
                    lemma_comb_bounds(indices@, self.pool.buf().len());
                    assert(indices@[0] + len - 0 <= self.pool.buf().len());
                }
            }
            indices.truncate(k);
            let mut i: usize = 0;
            while i < k
                invariant
                    indices@.len() == k,
                    i <= k,
                    forall|j: int| 0 <= j < i ==> indices@[j] == j,
                decreases k - i,
            {
                indices.set(i, i);
                i = i + 1;
            }
            assert(indices@ =~= first_comb(k as nat));
            self.indices = indices;
        } else {
            let mut i: usize = 0;
            while i < len
                invariant
                    indices@.len() == len,
                    i <= len,
                    forall|j: int| 0 <= j < i ==> indices@[j] == j,
                decreases len - i,
            {
                indices.set(i, i);
                i = i + 1;
            }
            let mut j = len;
            while j < k
                invariant
                    len <= j <= k,
                    indices@.len() == j,
                    forall|m: int| 0 <= m < j ==> indices@[m] == m,
                decreases k - j,
            {
                indices.push(j);
                j = j + 1;
            }
            assert(indices@ =~= first_comb(k as nat));
            self.indices = indices;
            self.pool.prefill(k);
        }
    }

    /// The number of combinations still to come if the pool had `n` items, or `None` when it
    /// does not fit in `usize`.
    fn remaining_for(&self, n: usize) -> (r: Option<usize>)
        requires
            self.wf(),
            !self.is_first() ==> forall|j: int| 0 <= j < self.k_v() ==> self.current()[j] < n,
        ensures
            r == if self.remaining_count(n as nat) <= usize::MAX {
                Some(self.remaining_count(n as nat) as usize)
            } else {
                None::<usize>
            },
    {
        remaining_for(n, self.first, &self.indices)
    }

    /// Bounds on the number of combinations still to come: the count at the bounds of the
    /// pool's size, the lower one saturating at `usize::MAX`.
    pub fn size_hint(&self) -> (r: crate::size_hint::SizeHint)
        requires
            self.wf(),
        ensures
            r.0 == usize::MAX || exists|lo: nat|
                self.n_read() <= lo <= self.pool_all().len() && r.0 == self.remaining_count(lo),
            r.1 matches Some(h) ==> exists|hi: nat|
                hi >= self.pool_all().len() && h == self.remaining_count(hi),
            r == crate::size_hint::hint_map(self.pool_hint(), |n: nat| self.remaining_count(n)),
    {
        let (lo, hi) = self.pool.size_hint();
        proof {
            if !self.first {
                assert(forall|j: int| 0 <= j < self.k_v() ==> self.current()[j] < self.n_read());
            }
        }
        let low = match self.remaining_for(lo) {
            Some(x) => x,
            None => usize::MAX,
        };
        let upp = match hi {
            Some(h) => self.remaining_for(h),
            None => None,
        };
        (low, upp)
    }

    /// The number of combinations still to come; the pool is read to its end.
    pub fn count(self) -> (r: usize)
        requires
            self.wf(),
            self.remaining_count(self.pool_all().len()) <= usize::MAX,
        ensures
            r == self.remaining_count(self.pool_all().len()),
    {
        let mut this = self;
        let n = this.real_n();
        proof {
            if !this.first {
                assert(forall|j: int| 0 <= j < this.k_v() ==> this.current()[j] < this.n_read());
            }
        }
        match this.remaining_for(n) {
            Some(x) => x,
            None => 0,
        }
    }
}

/// Partial sums only grow.
proof fn lemma_remaining_sum_grows(idx: Seq<usize>, n: nat, k: nat, j: nat)
    requires
        j <= idx.len(),
    ensures
        remaining_sum(idx.take(j as int), n, k) <= remaining_sum(idx, n, k),
        remaining_sum(idx.take(j as int), n, k) >= remaining_sum(idx.take(j - 1), n, k) || j == 0,
    decreases idx.len() - j,
{
    if j < idx.len() {
        lemma_remaining_sum_grows(idx, n, k, j + 1);
        assert(idx.take(j as int + 1).drop_last() =~= idx.take(j as int));
    } else {
        assert(idx.take(j as int) =~= idx);
    }
    if j > 0 {
        assert(idx.take(j as int).drop_last() =~= idx.take(j - 1));
    }
}

} // verus!
