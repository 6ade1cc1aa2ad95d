//! All `k`-length combinations of the items of an iterator, in lexicographic order, with the
//! length fixed when the iterator is made.
use vstd::prelude::*;
use crate::Itertools;
use crate::lazy_buffer::LazyBuffer;
use crate::combinations::{
    is_combination, can_increment, comb_succ, first_comb, comb_step, comb_remaining, pick,
    lemma_comb_bounds, lemma_last_incrementable, lemma_comb_step_counts_down, remaining_for,
    n_and_count,
};
use crate::size_hint::SizeHint;

verus! {

/// The positions after `m + 1` steps of the combinations iterator from the state
/// `(first, current)`; `None` once it has run out.
pub open spec fn comb_advance(first: bool, current: Seq<usize>, k: nat, n: nat, m: nat) -> Option<Seq<usize>>
    decreases m,
{
    if m == 0 {
        comb_step(first, current, k, n)
    } else {
        match comb_advance(first, current, k, n, (m - 1) as nat) {
            None => None,
            Some(idx) => comb_step(false, idx, k, n),
        }
    }
}

/// An iterator over all `k`-length combinations of the items of an iterator.
pub struct ArrayCombinations<I: Itertools> {
    indices: Vec<usize>,
    pool: LazyBuffer<I>,
    first: bool,
}

/// Create a new `ArrayCombinations` over the combinations of `k` items of `iter`.
pub fn array_combinations<I: Itertools>(iter: I, k: usize) -> (r: ArrayCombinations<I>)
    requires
        iter.wf(),
    ensures
        r.wf(),
        r.pool_all() == iter.rest(),
        r.k_v() == k,
        r.is_first(),
{
    let pool = LazyBuffer::new(iter);
    let mut indices: Vec<usize> = Vec::new();
    while indices.len() < k
        invariant
            indices.len() <= k,
            indices@ == first_comb(indices.len() as nat),
        decreases k - indices.len(),
    {
        let j = indices.len();
        indices.push(j);
        assert(indices@ =~= first_comb(indices.len() as nat));
    }
    ArrayCombinations { indices, pool, first: true }
}

impl<I: Itertools> ArrayCombinations<I> {
    /// The whole pool of items the combinations are drawn from.
    pub closed spec fn pool_all(&self) -> Seq<I::Item> {
        self.pool.all()
    }

    /// The positions of the combination yielded last.
    pub closed spec fn current(&self) -> Seq<usize> {
        self.indices@
    }

    /// No combination has been yielded yet.
    pub closed spec fn is_first(&self) -> bool {
        self.first
    }

    /// The length of the combinations.
    pub closed spec fn k_v(&self) -> nat {
        self.indices@.len()
    }

    /// The number of items read from the source so far.
    pub closed spec fn n_read(&self) -> nat {
        self.pool.buf().len()
    }

    pub closed spec fn wf(&self) -> bool {
        &&& self.pool.wf()
        &&& self.first ==> self.indices@ == first_comb(self.indices@.len())
        &&& !self.first ==> is_combination(self.indices@, self.pool.buf().len())
    }

    /// The (current) number of items read into the pool.
    pub fn n(&self) -> (r: usize)
        ensures
            r == self.n_read(),
    {
        self.pool.len()
    }

    /// Read the items needed for the first combination; `true` when there are fewer than `k`.
    fn init(&mut self) -> (done: bool)
        requires
            old(self).wf(),
            old(self).first,
        ensures
            final(self).wf(),
            final(self).pool.all() == old(self).pool.all(),
            final(self).indices@ == old(self).indices@,
            done == (old(self).indices@.len() > old(self).pool.all().len()),
            final(self).first == done,
    {
        let k = self.indices.len();
        self.pool.prefill(k);
        let done = k > self.n();
        if !done {
            self.first = false;
            proof {
                assert(is_combination(self.indices@, self.pool.buf().len()));
            }
        }
        done
    }

    /// Move the positions on to the next combination; `true` when there is none.
    fn increment_indices(&mut self) -> (done: bool)
        requires
            old(self).wf(),
            !old(self).first,
        ensures
            final(self).wf(),
            !final(self).first,
            final(self).pool.all() == old(self).pool.all(),
            final(self).indices@.len() == old(self).indices@.len(),
            match comb_step(false, old(self).indices@, old(self).indices@.len(), old(self).pool.all().len()) {
                None => done && final(self).indices@ == old(self).indices@,
                Some(idx) => !done && final(self).indices@ == idx,
            },
    {
        let ghost n = self.pool.all().len();
        let k = self.indices.len();
        if k == 0 {
            return true;
        }
            proof {
                lemma_comb_bounds(self.indices@, self.pool.buf().len());
            }
            let mut i: usize = k - 1;
            if self.indices[i] == self.pool.len() - 1 {
                self.pool.get_next();
            }
            proof {
                assert(self.pool.buf().len() == n || self.indices@[k - 1] + 1 < self.pool.buf().len());
                lemma_comb_bounds(self.indices@, self.pool.buf().len());
            }
            while self.at_max(i)
                invariant
                    self.wf(),
                    !self.first,
                    !old(self).first,
                    k == self.indices@.len(),
                    k > 0,
                    i < k,
                    n == self.pool.all().len(),
                    n == old(self).pool.all().len(),
                    self.indices@ == old(self).indices@,
                    self.pool.all() == old(self).pool.all(),
                    self.pool.buf().len() == n || (i == k - 1 && self.indices@[k - 1] + 1
                        < self.pool.buf().len()),
                    forall|j: int|
                        0 <= j < k ==> j <= self.indices@[j] && self.indices@[j] + k - j
                            <= self.pool.buf().len(),
                    k <= i + self.pool.buf().len(),
                    self.indices@[i as int] + k - i <= self.pool.buf().len(),
                    forall|j: int| i < j < k ==> !can_increment(self.indices@, n, j),
                decreases i,
            {
                if i > 0 {
                    proof {
                        assert(!can_increment(self.indices@, n, i as int));
                    }
                    i = i - 1;
                } else {
                    proof {
                        assert(!can_increment(self.indices@, n, 0));
                        lemma_last_incrementable(self.indices@, n, k - 1, -1);
                        assert(comb_succ(self.indices@, n) is None);
                        assert(is_combination(self.indices@, self.pool.buf().len()));
                    }
                    return true;
                }
            }
            proof {
                lemma_comb_bounds(self.indices@, self.pool.buf().len());
                assert(can_increment(self.indices@, n, i as int));
                lemma_last_incrementable(self.indices@, n, k - 1, i as int);
            }
            let ghost idx = self.indices@;
            let ghost target = comb_succ(idx, n).unwrap();
            let v = self.indices[i] + 1;
            proof {
                assert(target[i as int] == idx[i as int] + 1);
                if self.pool.buf().len() != n {
                    assert(i == k - 1);
                }
            }
            self.indices.set(i, v);
            let mut j: usize = i + 1;
            while j < k
                invariant
                    i < j <= k,
                    k == self.indices@.len(),
                    self.pool.wf(),
                    !self.first,
                    self.pool.all() == old(self).pool.all(),
                    n == self.pool.all().len(),
                    idx == old(self).indices@,
                    self.pool.buf().len() == n || i == k - 1,
                    target == comb_succ(idx, n).unwrap(),
                    target.len() == k,
                    forall|m: int| 0 <= m < j ==> self.indices@[m] == target[m],
                    idx[i as int] + k < n + i,
                    target[i as int] + k - i <= n,
                    target[i as int] + k - i <= self.pool.buf().len(),
                    forall|m: int| i <= m < k ==> target[m] == idx[i as int] + 1 + (m - i),
                decreases k - j,
            {
                proof {
                    assert(self.indices@[j - 1] == target[j - 1]);
                    assert(target[j - 1] == idx[i as int] + 1 + (j - 1 - i));
                    assert(target[j as int] == idx[i as int] + 1 + (j - i));
                }
                let w = self.indices[j - 1] + 1;
                self.indices.set(j, w);
                j = j + 1;
            }
            proof {
                assert(self.indices@ =~= target);
                assert(is_combination(self.indices@, self.pool.buf().len())) by {
                    assert forall|m: int| 0 <= m < k implies self.indices@[m] < self.pool.buf().len() by {
                        if m < i {
                            assert(self.indices@[m] == idx[m]);
                        }
                    }
                    assert forall|a: int, b: int| 0 <= a < b < k implies self.indices@[a] < self.indices@[b] by {
                        if b < i {
                        } else if a < i {
                            assert(idx[a] < idx[i as int]);
                        }
                    }
                }
            }
        
        false
    }
}

impl<I: Itertools> ArrayCombinations<I> {
    /// The size hint of the pool.
    pub closed spec fn pool_hint(&self) -> SizeHint {
        self.pool.spec_size_hint()
    }

    /// The number of combinations still to come if the pool had `n` items.
    pub open spec fn remaining_count(&self, n: nat) -> nat {
        comb_remaining(self.is_first(), self.current(), self.k_v(), n)
    }

    /// Bounds on the number of combinations still to come: the count at the bounds of the
    /// pool's size, the lower one saturating at `usize::MAX`.
    pub fn size_hint(&self) -> (r: SizeHint)
        requires
            self.wf(),
        ensures
            r.0 == usize::MAX || exists|lo: nat|
                self.n_read() <= lo <= self.pool_all().len() && r.0 == self.remaining_count(lo),
            r.1 matches Some(h) ==> exists|hi: nat|
                hi >= self.pool_all().len() && h == self.remaining_count(hi),
            r == crate::size_hint::hint_map(self.pool_hint(), |n: nat| self.remaining_count(n)),
    {
        let (lo, hi) = self.pool.size_hint();
        proof {
            if !self.first {
                assert(forall|j: int| 0 <= j < self.k_v() ==> self.current()[j] < self.n_read());
            }
        }
        let low = match remaining_for(lo, self.first, &self.indices) {
            Some(x) => {
                assert(self.n_read() <= lo as nat <= self.pool_all().len() && x == self.remaining_count(lo as nat));
                x
            },
            None => usize::MAX,
        };
        let upp = match hi {
            Some(u) => {
                let c = remaining_for(u, self.first, &self.indices);
                assert(c matches Some(h) ==> u as nat >= self.pool_all().len() && h == self.remaining_count(u as nat));
                c
            },
            None => None,
        };
        (low, upp)
    }

    /// The number of combinations still to come; the pool is read to its end.
    pub fn count(self) -> (r: usize)
        requires
            self.wf(),
            self.pool_all().len() <= usize::MAX,
            self.remaining_count(self.pool_all().len()) <= usize::MAX,
        ensures
            r == self.remaining_count(self.pool_all().len()),
    {
        proof {
            if !self.first {
                assert(is_combination(self.indices@, self.pool.all().len()));
            }
        }
        n_and_count(self.pool, self.first, &self.indices).1
    }

    /// Position `i` holds the largest value it can hold with the items read so far.
    fn at_max(&self, i: usize) -> (r: bool)
        requires
            i < self.indices@.len(),
            self.indices@[i as int] + self.indices@.len() - i <= self.pool.buf().len(),
        ensures
            r == (self.indices@[i as int] + self.indices@.len() - i == self.pool.buf().len()),
    {
        let l = self.pool.len();
        self.indices[i] + (self.indices.len() - i) == l
    }
}

impl<I: Itertools> ArrayCombinations<I> where I::Item: Copy {
    /// The items at the current positions.
    fn current_items(&self) -> (r: Vec<I::Item>)
        requires
            self.wf(),
            !self.is_first(),
        ensures
            r@ == pick(self.pool_all(), self.current()),
    {
        let v = self.pool.get_at(self.indices.as_slice());
        proof {
            assert(v@ =~= pick(self.pool_all(), self.current()));
        }
        v
    }

    /// The next combination, as the vector of its items.
    pub fn next(&mut self) -> (r: Option<Vec<I::Item>>)
        requires
            old(self).wf(),
        ensures
            final(self).wf(),
            final(self).pool_all() == old(self).pool_all(),
            final(self).k_v() == old(self).k_v(),
            match comb_step(old(self).is_first(), old(self).current(), old(self).k_v(), old(self).pool_all().len()) {
                None => r is None && comb_step(final(self).is_first(), final(self).current(), final(self).k_v(), final(self).pool_all().len()) is None,
                Some(idx) => r matches Some(v) && v@ == pick(old(self).pool_all(), idx)
                    && final(self).current() == idx && !final(self).is_first(),
            },
            r is Some ==> final(self).remaining_count(final(self).pool_all().len()) + 1
                == old(self).remaining_count(old(self).pool_all().len()),
            r is None ==> old(self).remaining_count(old(self).pool_all().len()) == 0,
    {
        proof {
            self.pool.lemma_buf_len_fits();
            assert(self.indices.len() == self.indices@.len());
            if !self.first {
                assert(is_combination(self.indices@, self.pool.all().len()));
            }
            lemma_comb_step_counts_down(self.first, self.indices@, self.indices@.len(), self.pool.all().len());
        }
        let done = if self.first {
            self.init()
        } else {
            self.increment_indices()
        };
        if done {
            None
        } else {
            Some(self.current_items())
        }
    }

    /// The combination `n` places further than `next` would give, or the number of
    /// combinations that were left when they run out first.
    pub fn try_nth(&mut self, n: usize) -> (r: Result<Vec<I::Item>, usize>)
        requires
            old(self).wf(),
        ensures
            final(self).wf(),
            final(self).pool_all() == old(self).pool_all(),
            final(self).k_v() == old(self).k_v(),
            match r {
                Ok(v) => comb_advance(old(self).is_first(), old(self).current(), old(self).k_v(), old(self).pool_all().len(), n as nat) matches Some(idx)
                    && v@ == pick(old(self).pool_all(), idx) && final(self).current() == idx && !final(self).is_first(),
                Err(j) => j <= n
                    && comb_advance(old(self).is_first(), old(self).current(), old(self).k_v(), old(self).pool_all().len(), j as nat) is None
                    && (forall|m: nat| m < j ==> (#[trigger] comb_advance(old(self).is_first(), old(self).current(), old(self).k_v(), old(self).pool_all().len(), m)) is Some)
                    && comb_step(final(self).is_first(), final(self).current(), final(self).k_v(), final(self).pool_all().len()) is None,
            },
    {
        let ghost f0 = self.first;
        let ghost c0 = self.indices@;
        let ghost k = self.indices@.len();
        let ghost nn = self.pool.all().len();
        let done = if self.first {
            self.init()
        } else {
            self.increment_indices()
        };
        if done {
            return Err(0);
        }
        let mut i: usize = 0;
        while i < n
            invariant
                self.wf(),
                !self.first,
                f0 == old(self).first,
                c0 == old(self).indices@,
                k == old(self).indices@.len(),
                nn == old(self).pool.all().len(),
                self.pool.all().len() == nn,
                self.pool.all() == old(self).pool.all(),
                self.indices@.len() == k,
                i <= n,
                comb_advance(f0, c0, k, nn, i as nat) == Some(self.indices@),
                forall|m: nat| m <= i ==> (#[trigger] comb_advance(f0, c0, k, nn, m)) is Some,
            decreases n - i,
        {
            let ghost cur = self.indices@;
            if self.increment_indices() {
                proof {
                    assert(comb_advance(f0, c0, k, nn, (i + 1) as nat) is None);
                }
                return Err(i + 1);
            }
            i = i + 1;
            proof {
                assert forall|m: nat| m <= i implies (#[trigger] comb_advance(f0, c0, k, nn, m)) is Some by {
                    if m < i {
                    }
                }
            }
        }
        Ok(self.current_items())
    }

    /// The combination `n` places further than `next` would give.
    pub fn nth(&mut self, n: usize) -> (r: Option<Vec<I::Item>>)
        requires
            old(self).wf(),
        ensures
            final(self).wf(),
            final(self).pool_all() == old(self).pool_all(),
            final(self).k_v() == old(self).k_v(),
            match comb_advance(old(self).is_first(), old(self).current(), old(self).k_v(), old(self).pool_all().len(), n as nat) {
                None => r is None,
                Some(idx) => r matches Some(v) && v@ == pick(old(self).pool_all(), idx),
            },
    {
        match self.try_nth(n) {
            Ok(v) => Some(v),
            Err(_) => {
                proof {
                    lemma_advance_stays_none(old(self).is_first(), old(self).current(), old(self).k_v(), old(self).pool_all().len(), n as nat);
                }
                None
            },
        }
    }
}

/// Once the combinations have run out, they stay out.
proof fn lemma_advance_stays_none(first: bool, current: Seq<usize>, k: nat, n: nat, m: nat)
    ensures
        forall|j: nat| j <= m && (#[trigger] comb_advance(first, current, k, n, j)) is None ==> comb_advance(first, current, k, n, m) is None,
    decreases m,
{
    if m > 0 {
        lemma_advance_stays_none(first, current, k, n, (m - 1) as nat);
    }
}

} // verus!
