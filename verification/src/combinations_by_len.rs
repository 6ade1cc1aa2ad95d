//! All `n`-length combinations of the items of an iterator, grouped by their last item, so
//! that every combination comes after finitely many others even when the pool grows without
//! end.
use vstd::prelude::*;
use crate::Itertools;
use crate::lazy_buffer::LazyBuffer;
use crate::combinations::{
    is_combination,
    can_increment,
    comb_succ,
    first_comb,
    pick,
    lemma_comb_bounds,
    lemma_last_incrementable,
};

verus! {

/// The combination that follows `idx` when the combinations are ordered by their last
/// position first, and lexicographically among those with the same last position; `None`
/// when no combination of positions below `total` follows.
pub open spec fn by_len_succ(idx: Seq<usize>, total: nat) -> Option<Seq<usize>> {
    let m = idx.last();
    match comb_succ(idx.drop_last(), m as nat) {
        Some(p) => Some(p.push(m)),
        None => if m + 1 < total {
            Some(first_comb((idx.len() - 1) as nat).push((m + 1) as usize))
        } else {
            None
        },
    }
}

/// An iterator over all the `n`-length combinations of the items of an iterator, ordered by
/// the position of their last item. It reads one more item only when every combination of
/// the items read so far has been yielded.
pub struct CombinationsByLen<I: Itertools> {
    n: usize,
    indices: Vec<usize>,
    pool: LazyBuffer<I>,
    first: bool,
}

/// Create a new `CombinationsByLen` over the items of `iter`.
pub fn combinations_by_len<I: Itertools>(iter: I, n: usize) -> (r: CombinationsByLen<I>)
    requires
        iter.wf(),
    ensures
        r.wf(),
        r.pool_all() == iter.rest(),
        r.n_v() == n,
        r.is_first(),
{
    let mut pool = LazyBuffer::new(iter);
    pool.prefill(n);
    let mut indices: Vec<usize> = Vec::new();
    while indices.len() < n
        invariant
            indices.len() <= n,
            indices@ == first_comb(indices.len() as nat),
        decreases n - indices.len(),
    {
        let j = indices.len();
        indices.push(j);
        assert(indices@ =~= first_comb(indices.len() as nat));
    }
    CombinationsByLen { n, indices, pool, first: true }
}

impl<I: Itertools> CombinationsByLen<I> {
    /// The whole pool of items the combinations are drawn from.
    pub closed spec fn pool_all(&self) -> Seq<I::Item> {
        self.pool.all()
    }

    /// The positions of the combination yielded last.
    pub closed spec fn current(&self) -> Seq<usize> {
        self.indices@
    }

    /// No combination has been yielded yet.
    pub closed spec fn is_first(&self) -> bool {
        self.first
    }

    /// The length of the combinations.
    pub closed spec fn n_v(&self) -> nat {
        self.n as nat
    }

    pub closed spec fn wf(&self) -> bool {
        &&& self.pool.wf()
        &&& self.indices@.len() == self.n
        &&& self.first ==> self.indices@ == first_comb(self.n as nat)
        &&& self.first ==> self.pool.buf().len() == if self.pool.all().len() >= self.n {
            self.n as nat
        } else {
            self.pool.all().len()
        }
        &&& !self.first ==> self.pool.buf().len() >= 1
        &&& !self.first && self.n > 0 ==> is_combination(self.indices@, self.pool.buf().len())
            && self.indices@.last() == self.pool.buf().len() - 1
    }
}

impl<I: Itertools> CombinationsByLen<I> where I::Item: Copy {
    /// The items at the current positions.
    fn result(&self) -> (r: Vec<I::Item>)
        requires
            forall|j: int| 0 <= j < self.indices@.len() ==> self.indices@[j] < self.pool.buf().len(),
        ensures
            r@ == pick(self.pool_all(), self.current()),
    {
        let v = self.pool.get_at(self.indices.as_slice());
        proof {
            assert(v@ =~= pick(self.pool_all(), self.current()));
        }
        v
    }

    /// The next combination, as the vector of its items.
    pub fn next(&mut self) -> (r: Option<Vec<I::Item>>)
        requires
            old(self).wf(),
        ensures
            final(self).wf(),
            final(self).pool_all() == old(self).pool_all(),
            final(self).n_v() == old(self).n_v(),
            ({
                let total = old(self).pool_all().len();
                let n = old(self).n_v();
                if old(self).is_first() {
                    if total < n || total == 0 {
                        r is None && final(self).is_first()
                    } else {
                        &&& r matches Some(v) && v@ == pick(old(self).pool_all(), first_comb(n))
                        &&& final(self).current() == first_comb(n)
                        &&& !final(self).is_first()
                    }
                } else {
                    &&& !final(self).is_first()
                    &&& n == 0 ==> r is None
                    &&& n > 0 ==> match by_len_succ(old(self).current(), total) {
                        None => r is None && final(self).current() == old(self).current(),
                        Some(idx) => r matches Some(v) && v@ == pick(old(self).pool_all(), idx)
                            && final(self).current() == idx,
                    }
                }
            }),
    {
        let ghost total = self.pool.all().len();
        let pool_len = self.pool.len();
        proof {
            if !self.first && self.n > 0 {
                lemma_comb_bounds(self.indices@, pool_len as nat);
                assert(self.indices@[self.n - 1] + 1 <= pool_len);
            }
        }
        if (pool_len == 0 || self.n > pool_len) && !self.pool.get_next() {
            return None;
        } else if self.first {
            self.first = false;
            proof {
                if self.n > 0 {
                    assert(is_combination(self.indices@, self.pool.buf().len()));
                }
            }
            return Some(self.result());
        } else if self.n == 0 {
            return None;
        }
        let n = self.n;
        let mut indices: Vec<usize> = Vec::new();
        core::mem::swap(&mut indices, &mut self.indices);
        let ghost idx = indices@;
        let ghost m = idx.last();
        let ghost prefix = idx.drop_last();
        proof {
            lemma_comb_bounds(idx, pool_len as nat);
            assert(is_combination(prefix, m as nat));
            lemma_comb_bounds(prefix, m as nat);
        }
        let mut i: usize = n - 1;
        while i > 0 && indices[i] == i + (pool_len - n)
            invariant
                indices@ == idx,
                idx.len() == n,
                n > 0,
                pool_len >= n,
                m == pool_len - 1,
                m == idx[n - 1],
                prefix == idx.drop_last(),
                i < n,
                forall|j: int| i < j < n - 1 ==> !can_increment(prefix, m as nat, j),
                forall|j: int|
                    0 <= j < prefix.len() ==> j <= prefix[j] && prefix[j] + prefix.len() - j <= m,
            decreases i,
        {
            proof {
                if i < n - 1 {
                    assert(prefix[i as int] == idx[i as int]);
                }
            }
            i = i - 1;
        }
        if indices[i] == i + (pool_len - n) {
            proof {
                assert forall|j: int| 0 <= j < n - 1 implies !can_increment(prefix, m as nat, j) by {
                    if j == 0 {
                        assert(prefix[0] == idx[0]);
                    }
                }
                lemma_last_incrementable(prefix, m as nat, n - 2, -1);
                assert(comb_succ(prefix, m as nat) is None);
            }
            if !self.pool.get_next() {
                core::mem::swap(&mut indices, &mut self.indices);
                return None;
            }
            i = n - 1;
            let mut j: usize = 0;
            while j < i
                invariant
                    j <= i,
                    i == n - 1,
                    indices@.len() == n,
                    indices@[i as int] == m,
                    forall|t: int| 0 <= t < j ==> indices@[t] == t,
                decreases i - j,
            {
                indices.set(j, j);
                j = j + 1;
            }
            let v = indices[i] + 1;
            indices.set(i, v);
            proof {
                assert(indices@ =~= first_comb((n - 1) as nat).push((m + 1) as usize));
            }
            core::mem::swap(&mut indices, &mut self.indices);
            proof {
                assert(is_combination(self.indices@, self.pool.buf().len()));
            }
            return Some(self.result());
        }
        proof {
            assert(i < n - 1);
            assert(prefix[i as int] == idx[i as int]);
            assert(can_increment(prefix, m as nat, i as int));
            lemma_last_incrementable(prefix, m as nat, n - 2, i as int);
        }
        let ghost target = comb_succ(prefix, m as nat).unwrap();
        proof {
            assert(target.len() == n - 1);
            assert(target[i as int] == prefix[i as int] + 1);
        }
        let v = indices[i] + 1;
        indices.set(i, v);
        let mut j: usize = i + 1;
        while j < n - 1
            invariant
                i < j <= n - 1,
                i < n - 1,
                n == idx.len(),
                indices@.len() == n,
                indices@[n - 1] == m,
                target.len() == n - 1,
                prefix.len() == n - 1,
                prefix[i as int] + (n - 1) < m + i,
                forall|t: int| 0 <= t < j ==> indices@[t] == target[t],
                forall|t: int| i <= t < n - 1 ==> target[t] == prefix[i as int] + 1 + (t - i),
            decreases n - 1 - j,
        {
            proof {
                assert(indices@[j - 1] == target[j - 1]);
                assert(target[j - 1] == prefix[i as int] + 1 + (j - 1 - i));
            }
            let w = indices[j - 1] + 1;
            indices.set(j, w);
            j = j + 1;
        }
        proof {
            assert(indices@ =~= target.push(m));
            assert(forall|t: int| 0 <= t < i ==> target[t] == prefix[t]);
            assert(is_combination(indices@, pool_len as nat)) by {
                assert forall|a: int, b: int| 0 <= a < b < n implies indices@[a] < indices@[b] by {
                    if b == n - 1 {
                        if a >= i {
                        } else {
                            assert(prefix[a] < prefix[i as int]);
                        }
                    } else if b < i {
                        assert(prefix[a] < prefix[b]);
                    } else if a < i {
                        assert(prefix[a] < prefix[i as int]);
                    }
                }
            }
        }
        core::mem::swap(&mut indices, &mut self.indices);
        Some(self.result())
    }
}

} // verus!
