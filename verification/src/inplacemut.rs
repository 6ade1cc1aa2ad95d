//! Merging the items of a sequence in place, after rules that look at what is left of it.
use vstd::prelude::*;

verus! {

/// What to do at the current position of the sequence.
pub enum Combine<T> {
    /// Keep the next `n >= 1` items, in order, and move past them.
    Keep(usize),
    /// Put the given item in place of `n >= 1` items.
    InsertAndDrop(T, usize),
}

/// Why `combine` failed.
#[derive(Debug, PartialEq, Eq, Structural)]
pub enum CombineError {
    /// A rule moved past no item, which would never end.
    ZeroForward,
    /// A rule moved past more items than were left.
    OutOfRange,
}

/// A rule for `combine`: it sees the items from the current position to the end.
pub trait CombinePredicate<T> {
    /// What `decide` returns for the remaining items `rest`.
    spec fn spec_decide(&self, rest: Seq<T>) -> Combine<T>;

    /// Decide what to do with the remaining items `rest`.
    fn decide(&self, rest: &[T]) -> (r: Combine<T>)
        ensures
            r == self.spec_decide(rest@),
    ;
}

/// Replaces each pair `first, second` by `joined`, and keeps every other item.
pub struct JoinPairs {
    pub first: i64,
    pub second: i64,
    pub joined: i64,
}

impl CombinePredicate<i64> for JoinPairs {
    open spec fn spec_decide(&self, rest: Seq<i64>) -> Combine<i64> {
        if rest.len() >= 2 && rest[0] == self.first && rest[1] == self.second {
            Combine::InsertAndDrop(self.joined, 2)
        } else {
            Combine::Keep(1)
        }
    }

    fn decide(&self, rest: &[i64]) -> (r: Combine<i64>) {
        if rest.len() >= 2 && rest[0] == self.first && rest[1] == self.second {
            Combine::InsertAndDrop(self.joined, 2)
        } else {
            Combine::Keep(1)
        }
    }
}

/// Keeps the items `n` at a time, or all that are left when fewer remain: nothing is dropped.
pub struct KeepUpTo {
    pub n: usize,
}

impl<T> CombinePredicate<T> for KeepUpTo {
    open spec fn spec_decide(&self, rest: Seq<T>) -> Combine<T> {
        if rest.len() >= self.n {
            Combine::Keep(self.n)
        } else {
            Combine::Keep(rest.len() as usize)
        }
    }

    fn decide(&self, rest: &[T]) -> (r: Combine<T>) {
        if rest.len() >= self.n {
            Combine::Keep(self.n)
        } else {
            Combine::Keep(rest.len())
        }
    }
}

/// Put `x` in front of a successful result.
pub open spec fn prepend<T>(x: Seq<T>, r: Result<Seq<T>, CombineError>) -> Result<Seq<T>, CombineError> {
    match r {
        Ok(v) => Ok(x + v),
        Err(e) => Err(e),
    }
}

proof fn lemma_prepend_assoc<T>(a: Seq<T>, b: Seq<T>, r: Result<Seq<T>, CombineError>)
    ensures
        prepend(a, prepend(b, r)) == prepend(a + b, r),
{
    if let Ok(v) = r {
        assert(a + (b + v) =~= (a + b) + v);
    }
}

/// The result of combining the items of `s` from position `i` on.
pub open spec fn combine_from<T, P: CombinePredicate<T>>(p: P, s: Seq<T>, i: int) -> Result<
    Seq<T>,
    CombineError,
>
    decreases s.len() - i,
{
    if i < 0 || i >= s.len() {
        Ok(Seq::empty())
    } else {
        let n = match p.spec_decide(s.skip(i)) {
            Combine::InsertAndDrop(_, n) => n,
            Combine::Keep(n) => n,
        };
        if n == 0 {
            Err(CombineError::ZeroForward)
        } else if i + n > s.len() {
            Err(CombineError::OutOfRange)
        } else {
            let out = match p.spec_decide(s.skip(i)) {
                Combine::InsertAndDrop(e, _) => seq![e],
                Combine::Keep(_) => s.subrange(i, i + n),
            };
            prepend(out, combine_from(p, s, i + n))
        }
    }
}

/// Sequences that can be combined in place: they only shrink.
pub trait InplaceMappable<T>: Sized {
    /// The items of the sequence.
    spec fn items(&self) -> Seq<T>;

    /// The number of items.
    fn len(&self) -> (r: usize)
        ensures
            r == self.items().len(),
    ;

    /// Exchange the items at positions `i` and `j`.
    fn swap(&mut self, i: usize, j: usize)
        requires
            i < old(self).items().len(),
            j < old(self).items().len(),
        ensures
            final(self).items() == old(self).items().update(i as int, old(self).items()[j as int]).update(
                j as int,
                old(self).items()[i as int],
            ),
    ;

    /// Keep the first `newsize` items.
    fn truncate(self, newsize: usize) -> (r: Self)
        requires
            newsize <= self.items().len(),
        ensures
            r.items() == self.items().take(newsize as int),
    ;

    /// Replace the item at position `i`.
    fn set_item(&mut self, i: usize, x: T)
        requires
            i < old(self).items().len(),
        ensures
            final(self).items() == old(self).items().update(i as int, x),
    ;

    /// The items from position `i` to the end.
    fn tail(&self, i: usize) -> (r: &[T])
        requires
            i <= self.items().len(),
        ensures
            r@ == self.items().skip(i as int),
    ;

    /// Merge the items after the rule `predicate`, which sees the items from the current
    /// position to the end and keeps one of them or puts a new item in place of some of them.
    /// No item is moved twice.
    fn combine<P: CombinePredicate<T>>(self, predicate: P) -> (r: Result<Self, CombineError>)
        ensures
            match (r, combine_from(predicate, self.items(), 0)) {
                (Ok(v), Ok(w)) => v.items() == w,
                (Err(e), Err(f)) => e == f,
                _ => false,
            },
    {
        let ghost s = self.items();
        let mut this = self;
        let n = this.len();
        if n == 0 {
            proof {
                assert(this.items() =~= Seq::<T>::empty());
            }
            return Ok(this);
        }
        let mut i: usize = 0;
        let mut j: usize = 0;
        while i < n
            invariant
                this.items().len() == n,
                n == s.len(),
                s == self.items(),
                j <= i <= n,
                this.items().skip(i as int) == s.skip(i as int),
                combine_from(predicate, s, 0) == prepend(this.items().take(j as int), combine_from(predicate, s, i as int)),
            decreases n - i,
        {
            let ghost before = this.items();
            let d = predicate.decide(this.tail(i));
            match d {
                Combine::InsertAndDrop(elem, k) => {
                    if k == 0 {
                        proof {
                            assert(combine_from(predicate, s, i as int) == Err::<Seq<T>, CombineError>(CombineError::ZeroForward));
                        }
                        return Err(CombineError::ZeroForward);
                    }
                    if k > n - i {
                        proof {
                            assert(combine_from(predicate, s, i as int) == Err::<Seq<T>, CombineError>(CombineError::OutOfRange));
                        }
                        return Err(CombineError::OutOfRange);
                    }
                    this.set_item(j, elem);
                    proof {
                        assert forall|m: int| 0 <= m < n - (i + k) implies #[trigger] this.items().skip((i + k) as int)[m] == s.skip((i + k) as int)[m] by {
                            assert(before.skip(i as int)[m + k] == s.skip(i as int)[m + k]);
                        }
                        assert(this.items().skip((i + k) as int) =~= s.skip((i + k) as int));
                        assert(combine_from(predicate, s, i as int) == prepend(seq![elem], combine_from(predicate, s, (i + k) as int)));
                        lemma_prepend_assoc(before.take(j as int), seq![elem], combine_from(predicate, s, (i + k) as int));
                        assert(before.take(j as int) + seq![elem] =~= this.items().take(j + 1));
                    }
                    i = i + k;
                    j = j + 1;
                },
                Combine::Keep(k) => {
                    if k == 0 {
                        proof {
                            assert(combine_from(predicate, s, i as int) == Err::<Seq<T>, CombineError>(CombineError::ZeroForward));
                        }
                        return Err(CombineError::ZeroForward);
                    }
                    if k > n - i {
                        proof {
                            assert(combine_from(predicate, s, i as int) == Err::<Seq<T>, CombineError>(CombineError::OutOfRange));
                        }
                        return Err(CombineError::OutOfRange);
                    }
                    let mut t: usize = 0;
                    while t < k
                        invariant
                            t <= k,
                            j <= i,
                            i + k <= n,
                            before.len() == n,
                            this.items().len() == n,
                            forall|m: int| 0 <= m < j ==> this.items()[m] == before[m],
                            forall|m: int| j <= m < j + t ==> #[trigger] this.items()[m] == before[m - j + i],
                            forall|m: int| i + t <= m < n ==> this.items()[m] == before[m],
                        decreases k - t,
                    {
                        this.swap(j + t, i + t);
                        t = t + 1;
                    }
                    proof {
                        assert(this.items().skip((i + k) as int) =~= s.skip((i + k) as int)) by {
                            assert forall|m: int| 0 <= m < n - (i + k) implies #[trigger] this.items().skip((i + k) as int)[m] == s.skip((i + k) as int)[m] by {
                                assert(before.skip(i as int)[m + k] == s.skip(i as int)[m + k]);
                            }
                        }
                        let x = s.subrange(i as int, (i + k) as int);
                        assert forall|m: int| 0 <= m < k implies #[trigger] x[m] == before[i + m] by {
                            assert(before.skip(i as int)[m] == s.skip(i as int)[m]);
                        }
                        assert(combine_from(predicate, s, i as int) == prepend(x, combine_from(predicate, s, (i + k) as int)));
                        lemma_prepend_assoc(before.take(j as int), x, combine_from(predicate, s, (i + k) as int));
                        assert(before.take(j as int) + x =~= this.items().take(j + k));
                    }
                    i = i + k;
                    j = j + k;
                },
            }
        }
        proof {
            assert(combine_from(predicate, s, i as int) == Ok::<Seq<T>, CombineError>(Seq::empty()));
            assert(this.items().take(j as int) + Seq::<T>::empty() =~= this.items().take(j as int));
        }
        Ok(this.truncate(j))
    }
}

impl<U> InplaceMappable<U> for Vec<U> {
    open spec fn items(&self) -> Seq<U> {
        self@
    }

    fn len(&self) -> (r: usize) {
        Vec::len(self)
    }

    fn swap(&mut self, i: usize, j: usize) {
        if i != j {
            let (lo, hi) = if i < j {
                (i, j)
            } else {
                (j, i)
            };
            let x = Vec::remove(self, hi);
            let y = Vec::remove(self, lo);
            Vec::insert(self, lo, x);
            Vec::insert(self, hi, y);
            proof {
                assert(self@ =~= old(self)@.update(i as int, old(self)@[j as int]).update(
                    j as int,
                    old(self)@[i as int],
                ));
            }
        }
    }

    fn truncate(self, newsize: usize) -> (r: Self) {
        let mut v = self;
        Vec::truncate(&mut v, newsize);
        v
    }

    fn set_item(&mut self, i: usize, x: U) {
        self.set(i, x);
    }

    fn tail(&self, i: usize) -> (r: &[U]) {
        let (_, t) = self.as_slice().split_at(i);
        t
    }
}

} // verus!
