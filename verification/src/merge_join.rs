//! Merging two iterators in order, and merge-joining them by a comparison.
use vstd::prelude::*;
use crate::Itertools;
use crate::adaptors::PutBack;
use crate::size_hint::{self, SizeHint};

verus! {

/// The result of comparing two items: the items of this crate's merge-joins are ordered by it.
#[derive(PartialEq, Eq, Structural, Clone, Copy, Debug)]
pub enum JoinOrdering {
    Less,
    Equal,
    Greater,
}

/// A value that holds a left item, a right item, or both.
pub enum EitherOrBoth<L, R> {
    Both(L, R),
    Left(L),
    Right(R),
}

/// A value that holds either a left item or a right item.
pub enum Either<L, R> {
    Left(L),
    Right(R),
}

/// A predicate that decides how a left and a right item are merged.
pub trait MergePredicate<L, R, T>: Sized {
    /// What `merge_pred` returns for the two items.
    spec fn spec_pred(&self, left: L, right: R) -> T;

    fn merge_pred(&mut self, left: &L, right: &R) -> (r: T)
        ensures
            r == old(self).spec_pred(*left, *right),
            *final(self) == *old(self),
    ;
}

/// The predicate `left <= right` on integers.
pub struct MergeLte;

impl MergePredicate<i64, i64, bool> for MergeLte {
    open spec fn spec_pred(&self, left: i64, right: i64) -> bool {
        left <= right
    }

    fn merge_pred(&mut self, left: &i64, right: &i64) -> (r: bool) {
        *left <= *right
    }
}

/// The three-way comparison of two integers.
pub struct MergeCompare;

impl MergePredicate<i64, i64, JoinOrdering> for MergeCompare {
    open spec fn spec_pred(&self, left: i64, right: i64) -> JoinOrdering {
        if left < right {
            JoinOrdering::Less
        } else if left == right {
            JoinOrdering::Equal
        } else {
            JoinOrdering::Greater
        }
    }

    fn merge_pred(&mut self, left: &i64, right: &i64) -> (r: JoinOrdering) {
        if *left < *right {
            JoinOrdering::Less
        } else if *left == *right {
            JoinOrdering::Equal
        } else {
            JoinOrdering::Greater
        }
    }
}

/// The results that a merge-join can give for a comparison result of type `Self`.
pub trait OrderingOrBool<L, R> {
    type MergeResult;

    /// The result for a left item that has no right item to compare with.
    spec fn spec_left(left: L) -> Self::MergeResult;

    /// The result for a right item that has no left item to compare with.
    spec fn spec_right(right: R) -> Self::MergeResult;

    /// What `merge` gives for the comparison result `self` of `left` and `right`.
    spec fn spec_merge(self, left: L, right: R) -> (Option<L>, Option<R>, Self::MergeResult);

    fn left(left: L) -> (r: Self::MergeResult)
        ensures
            r == Self::spec_left(left),
    ;

    fn right(right: R) -> (r: Self::MergeResult)
        ensures
            r == Self::spec_right(right),
    ;

    /// The left item to put back, the right item to put back, and the result to yield.
    fn merge(self, left: L, right: R) -> (r: (Option<L>, Option<R>, Self::MergeResult))
        ensures
            r == self.spec_merge(left, right),
    ;
}

impl<L, R> OrderingOrBool<L, R> for JoinOrdering {
    type MergeResult = EitherOrBoth<L, R>;

    /// `Left` of the item.
    open spec fn spec_left(left: L) -> EitherOrBoth<L, R> {
        EitherOrBoth::Left(left)
    }

    /// `Right` of the item.
    open spec fn spec_right(right: R) -> EitherOrBoth<L, R> {
        EitherOrBoth::Right(right)
    }

    /// Equal items are yielded together; otherwise the lesser one is yielded and the other put
    /// back.
    open spec fn spec_merge(self, left: L, right: R) -> (Option<L>, Option<R>, EitherOrBoth<L, R>) {
        match self {
            JoinOrdering::Equal => (None, None, EitherOrBoth::Both(left, right)),
            JoinOrdering::Less => (None, Some(right), EitherOrBoth::Left(left)),
            JoinOrdering::Greater => (Some(left), None, EitherOrBoth::Right(right)),
        }
    }

    fn left(left: L) -> (r: EitherOrBoth<L, R>) {
        EitherOrBoth::Left(left)
    }

    fn right(right: R) -> (r: EitherOrBoth<L, R>) {
        EitherOrBoth::Right(right)
    }

    fn merge(self, left: L, right: R) -> (r: (Option<L>, Option<R>, EitherOrBoth<L, R>)) {
        match self {
            JoinOrdering::Equal => (None, None, EitherOrBoth::Both(left, right)),
            JoinOrdering::Less => (None, Some(right), EitherOrBoth::Left(left)),
            JoinOrdering::Greater => (Some(left), None, EitherOrBoth::Right(right)),
        }
    }
}

impl<L, R> OrderingOrBool<L, R> for bool {
    type MergeResult = Either<L, R>;

    /// `Left` of the item.
    open spec fn spec_left(left: L) -> Either<L, R> {
        Either::Left(left)
    }

    /// `Right` of the item.
    open spec fn spec_right(right: R) -> Either<L, R> {
        Either::Right(right)
    }

    /// `true` yields the left item and puts the right one back; `false` the other way round.
    open spec fn spec_merge(self, left: L, right: R) -> (Option<L>, Option<R>, Either<L, R>) {
        if self {
            (None, Some(right), Either::Left(left))
        } else {
            (Some(left), None, Either::Right(right))
        }
    }

    fn left(left: L) -> (r: Either<L, R>) {
        Either::Left(left)
    }

    fn right(right: R) -> (r: Either<L, R>) {
        Either::Right(right)
    }

    fn merge(self, left: L, right: R) -> (r: (Option<L>, Option<R>, Either<L, R>)) {
        if self {
            (None, Some(right), Either::Left(left))
        } else {
            (Some(left), None, Either::Right(right))
        }
    }
}

/// The in-order merge of `a` and `b`: the head of `a` goes first where `f` accepts it
/// against the head of `b`.
pub open spec fn merge_seq<T, F: MergePredicate<T, T, bool>>(a: Seq<T>, b: Seq<T>, f: F) -> Seq<T>
    decreases a.len() + b.len(),
{
    if a.len() == 0 {
        b
    } else if b.len() == 0 {
        a
    } else if f.spec_pred(a[0], b[0]) {
        seq![a[0]] + merge_seq(a.drop_first(), b, f)
    } else {
        seq![b[0]] + merge_seq(a, b.drop_first(), f)
    }
}

/// The merge-join of `a` and `b` by the three-way comparison `f`.
pub open spec fn join_seq<L, R, F: MergePredicate<L, R, JoinOrdering>>(
    a: Seq<L>,
    b: Seq<R>,
    f: F,
) -> Seq<EitherOrBoth<L, R>>
    decreases a.len() + b.len(),
{
    if a.len() == 0 {
        b.map_values(|y: R| EitherOrBoth::<L, R>::Right(y))
    } else if b.len() == 0 {
        a.map_values(|x: L| EitherOrBoth::<L, R>::Left(x))
    } else {
        match f.spec_pred(a[0], b[0]) {
            JoinOrdering::Equal => seq![EitherOrBoth::Both(a[0], b[0])] + join_seq(
                a.drop_first(),
                b.drop_first(),
                f,
            ),
            JoinOrdering::Less => seq![EitherOrBoth::Left(a[0])] + join_seq(a.drop_first(), b, f),
            JoinOrdering::Greater => seq![EitherOrBoth::Right(b[0])] + join_seq(
                a,
                b.drop_first(),
                f,
            ),
        }
    }
}

/// The merge of `a` and `b` by the predicate `f`, each item tagged with the side it came from.
pub open spec fn either_seq<L, R, F: MergePredicate<L, R, bool>>(
    a: Seq<L>,
    b: Seq<R>,
    f: F,
) -> Seq<Either<L, R>>
    decreases a.len() + b.len(),
{
    if a.len() == 0 {
        b.map_values(|y: R| Either::<L, R>::Right(y))
    } else if b.len() == 0 {
        a.map_values(|x: L| Either::<L, R>::Left(x))
    } else if f.spec_pred(a[0], b[0]) {
        seq![Either::Left(a[0])] + either_seq(a.drop_first(), b, f)
    } else {
        seq![Either::Right(b[0])] + either_seq(a, b.drop_first(), f)
    }
}

pub proof fn lemma_merge_len<T, F: MergePredicate<T, T, bool>>(a: Seq<T>, b: Seq<T>, f: F)
    ensures
        merge_seq(a, b, f).len() == a.len() + b.len(),
    decreases a.len() + b.len(),
{
    if a.len() > 0 && b.len() > 0 {
        if f.spec_pred(a[0], b[0]) {
            lemma_merge_len(a.drop_first(), b, f);
        } else {
            lemma_merge_len(a, b.drop_first(), f);
        }
    }
}

pub proof fn lemma_either_len<L, R, F: MergePredicate<L, R, bool>>(a: Seq<L>, b: Seq<R>, f: F)
    ensures
        either_seq(a, b, f).len() == a.len() + b.len(),
    decreases a.len() + b.len(),
{
    if a.len() > 0 && b.len() > 0 {
        if f.spec_pred(a[0], b[0]) {
            lemma_either_len(a.drop_first(), b, f);
        } else {
            lemma_either_len(a, b.drop_first(), f);
        }
    }
}

pub proof fn lemma_join_len<L, R, F: MergePredicate<L, R, JoinOrdering>>(a: Seq<L>, b: Seq<R>, f: F)
    ensures
        a.len() <= join_seq(a, b, f).len() <= a.len() + b.len(),
        b.len() <= join_seq(a, b, f).len(),
    decreases a.len() + b.len(),
{
    if a.len() > 0 && b.len() > 0 {
        match f.spec_pred(a[0], b[0]) {
            JoinOrdering::Equal => lemma_join_len(a.drop_first(), b.drop_first(), f),
            JoinOrdering::Less => lemma_join_len(a.drop_first(), b, f),
            JoinOrdering::Greater => lemma_join_len(a, b.drop_first(), f),
        }
    }
}

/// An iterator adaptor that merge-joins items from two base iterators.
pub struct MergeJoinBy<I: Itertools, J: Itertools, F, T> {
    left: PutBack<I>,
    right: PutBack<J>,
    pred_fn: F,
    _t: core::marker::PhantomData<T>,
}

/// An iterator adaptor that merges two base iterators in order.
pub struct MergeBy<I: Itertools, J: Itertools, F> {
    left: PutBack<I>,
    right: PutBack<J>,
    pred_fn: F,
}

/// An iterator adaptor that merges two base iterators in ascending order.
pub type Merge<I, J> = MergeBy<I, J, MergeLte>;

impl<I: Itertools, J: Itertools, F, T> MergeJoinBy<I, J, F, T> {
    pub closed spec fn left_rest(&self) -> Seq<I::Item> {
        self.left.rest()
    }

    pub closed spec fn right_rest(&self) -> Seq<J::Item> {
        self.right.rest()
    }

    pub closed spec fn pred(&self) -> F {
        self.pred_fn
    }

    pub closed spec fn parts_wf(&self) -> bool {
        self.left.wf() && self.right.wf()
    }
}

/// Merge the items of `i` and `j` in ascending order.
pub fn merge<I, J>(i: I, j: J) -> (r: Merge<I, J>) where
    I: Itertools<Item = i64>,
    J: Itertools<Item = i64>,

    requires
        i.wf(),
        j.wf(),
    ensures
        r.wf(),
        r.rest() == merge_seq(i.rest(), j.rest(), MergeLte),
{
    merge_by_new(i, j, MergeLte)
}

/// Create a `MergeBy` iterator: the head of `a` goes first where `pred` accepts it against the
/// head of `b`.
pub fn merge_by_new<I, J, F>(a: I, b: J, pred: F) -> (r: MergeBy<I, J, F>) where
    I: Itertools,
    J: Itertools<Item = I::Item>,
    F: MergePredicate<I::Item, I::Item, bool>,

    requires
        a.wf(),
        b.wf(),
    ensures
        r.wf(),
        r.pred() == pred,
        r.rest() == merge_seq(a.rest(), b.rest(), pred),
{
    MergeBy { left: PutBack::new(a), right: PutBack::new(b), pred_fn: pred }
}

/// Merge-join the items of `left` and `right` by the three-way comparison `pred_fn`.
pub fn merge_join_by<I, J, F>(left: I, right: J, pred_fn: F) -> (r: MergeJoinBy<
    I,
    J,
    F,
    JoinOrdering,
>) where I: Itertools, J: Itertools, F: MergePredicate<I::Item, J::Item, JoinOrdering>
    requires
        left.wf(),
        right.wf(),
    ensures
        r.wf(),
        r.pred() == pred_fn,
        r.rest() == join_seq(left.rest(), right.rest(), pred_fn),
{
    MergeJoinBy {
        left: PutBack::new(left),
        right: PutBack::new(right),
        pred_fn,
        _t: core::marker::PhantomData,
    }
}

/// Merge the items of `left` and `right` by the predicate `pred_fn`, tagging each item with
/// its side.
pub fn merge_join_by_bool<I, J, F>(left: I, right: J, pred_fn: F) -> (r: MergeJoinBy<
    I,
    J,
    F,
    bool,
>) where I: Itertools, J: Itertools, F: MergePredicate<I::Item, J::Item, bool>
    requires
        left.wf(),
        right.wf(),
    ensures
        r.wf(),
        r.pred() == pred_fn,
        r.rest() == either_seq(left.rest(), right.rest(), pred_fn),
{
    MergeJoinBy {
        left: PutBack::new(left),
        right: PutBack::new(right),
        pred_fn,
        _t: core::marker::PhantomData,
    }
}

impl<I: Itertools, J: Itertools, F> MergeBy<I, J, F> {
    pub closed spec fn pred(&self) -> F {
        self.pred_fn
    }
}

impl<I, J, F> Itertools for MergeBy<I, J, F> where
    I: Itertools,
    J: Itertools<Item = I::Item>,
    F: MergePredicate<I::Item, I::Item, bool>,
 {
    type Item = I::Item;

    closed spec fn rest(&self) -> Seq<I::Item> {
        merge_seq(self.left.rest(), self.right.rest(), self.pred_fn)
    }

    closed spec fn wf(&self) -> bool {
        self.left.wf() && self.right.wf()
    }

    fn next(&mut self) -> (r: Option<I::Item>) {
        let ghost f = self.pred_fn;
        match (self.left.pull(), self.right.pull()) {
            (None, None) => None,
            (Some(left), None) => {
                proof {
                    assert(self.right.rest().len() == 0);
                }
                Some(left)
            },
            (None, Some(right)) => Some(right),
            (Some(left), Some(right)) => {
                let b = self.pred_fn.merge_pred(&left, &right);
                let (l, r, next) = if b {
                    (None, Some(right), left)
                } else {
                    (Some(left), None, right)
                };
                match l {
                    Some(l) => self.left.put_back(l),
                    None => {},
                }
                match r {
                    Some(r) => self.right.put_back(r),
                    None => {},
                }
                proof {
                    assert(self.left.rest() =~= if b { old(self).left.rest().drop_first() } else {
                        old(self).left.rest()
                    });
                    assert(self.right.rest() =~= if b { old(self).right.rest() } else {
                        old(self).right.rest().drop_first()
                    });
                }
                Some(next)
            },
        }
    }

    closed spec fn spec_size_hint(&self) -> (usize, Option<usize>) {
        crate::size_hint::add_spec(self.left.spec_size_hint(), self.right.spec_size_hint())
    }

    fn size_hint(&self) -> (r: SizeHint) {
        proof {
            lemma_merge_len(self.left.rest(), self.right.rest(), self.pred_fn);
        }
        let r = size_hint::add(self.left.size_hint(), self.right.size_hint());
        assert(r == self.spec_size_hint());
        r
    }
}

impl<I, J, F> Itertools for MergeJoinBy<I, J, F, JoinOrdering> where
    I: Itertools,
    J: Itertools,
    F: MergePredicate<I::Item, J::Item, JoinOrdering>,
 {
    type Item = EitherOrBoth<I::Item, J::Item>;

    closed spec fn rest(&self) -> Seq<EitherOrBoth<I::Item, J::Item>> {
        join_seq(self.left.rest(), self.right.rest(), self.pred_fn)
    }

    closed spec fn wf(&self) -> bool {
        self.left.wf() && self.right.wf()
    }

    fn next(&mut self) -> (r: Option<EitherOrBoth<I::Item, J::Item>>) {
        match (self.left.pull(), self.right.pull()) {
            (None, None) => None,
            (Some(left), None) => {
                proof {
                    assert(self.right.rest().len() == 0);
                    assert(join_seq(self.left.rest(), self.right.rest(), self.pred_fn) =~= join_seq(
                        old(self).left.rest(),
                        old(self).right.rest(),
                        self.pred_fn,
                    ).drop_first());
                }
                Some(EitherOrBoth::Left(left))
            },
            (None, Some(right)) => {
                proof {
                    assert(join_seq(self.left.rest(), self.right.rest(), self.pred_fn) =~= join_seq(
                        old(self).left.rest(),
                        old(self).right.rest(),
                        self.pred_fn,
                    ).drop_first());
                }
                Some(EitherOrBoth::Right(right))
            },
            (Some(left), Some(right)) => {
                let c = self.pred_fn.merge_pred(&left, &right);
                let (l, r, next) = match c {
                    JoinOrdering::Equal => (None, None, EitherOrBoth::Both(left, right)),
                    JoinOrdering::Less => (None, Some(right), EitherOrBoth::Left(left)),
                    JoinOrdering::Greater => (Some(left), None, EitherOrBoth::Right(right)),
                };
                match l {
                    Some(l) => self.left.put_back(l),
                    None => {},
                }
                match r {
                    Some(r) => self.right.put_back(r),
                    None => {},
                }
                proof {
                    assert(self.left.rest() =~= if c == JoinOrdering::Greater {
                        old(self).left.rest()
                    } else {
                        old(self).left.rest().drop_first()
                    });
                    assert(self.right.rest() =~= if c == JoinOrdering::Less {
                        old(self).right.rest()
                    } else {
                        old(self).right.rest().drop_first()
                    });
                }
                Some(next)
            },
        }
    }

    fn count(self) -> (n: usize) {
        let ghost total = self.rest().len();
        let mut it = self;
        let mut count: usize = 0;
        loop
            invariant
                it.wf(),
                it.pred_fn == self.pred_fn,
                total == self.rest().len(),
                total <= usize::MAX,
                count + it.rest().len() == total,
            decreases it.left.rest().len() + it.right.rest().len(),
        {
            let ghost before = it.rest();
            let ghost (lr, rr) = (it.left.rest(), it.right.rest());
            match (it.left.pull(), it.right.pull()) {
                (None, None) => {
                    return count;
                },
                (Some(_left), None) => {
                    let (_, inner) = it.left.into_parts();
                    proof {
                        assert(rr.len() == 0);
                        assert(before.len() == lr.len());
                    }
                    return count + 1 + inner.count();
                },
                (None, Some(_right)) => {
                    let (_, inner) = it.right.into_parts();
                    proof {
                        assert(before.len() == rr.len());
                    }
                    return count + 1 + inner.count();
                },
                (Some(left), Some(right)) => {
                    let c = it.pred_fn.merge_pred(&left, &right);
                    match c {
                        JoinOrdering::Equal => {},
                        JoinOrdering::Less => it.right.put_back(right),
                        JoinOrdering::Greater => it.left.put_back(left),
                    }
                    proof {
                        assert(it.left.rest() =~= if c == JoinOrdering::Greater {
                            lr
                        } else {
                            lr.drop_first()
                        });
                        assert(it.right.rest() =~= if c == JoinOrdering::Less {
                            rr
                        } else {
                            rr.drop_first()
                        });
                        assert(before.len() == it.rest().len() + 1);
                    }
                    count = count + 1;
                },
            }
        }
    }

    fn last(self) -> (r: Option<EitherOrBoth<I::Item, J::Item>>) {
        let ghost all = self.rest();
        let mut it = self;
        let mut previous_element: Option<EitherOrBoth<I::Item, J::Item>> = None;
        loop
            invariant
                it.wf(),
                it.pred_fn == self.pred_fn,
                all == self.rest(),
                all.len() >= it.rest().len(),
                it.rest() == all.skip(all.len() - it.rest().len()),
                previous_element == if all.len() == it.rest().len() {
                    None::<EitherOrBoth<I::Item, J::Item>>
                } else {
                    Some(all[all.len() - it.rest().len() - 1])
                },
            decreases it.left.rest().len() + it.right.rest().len(),
        {
            let ghost before = it.rest();
            let ghost (lr, rr) = (it.left.rest(), it.right.rest());
            match (it.left.pull(), it.right.pull()) {
                (None, None) => {
                    return previous_element;
                },
                (Some(left), None) => {
                    let (_, inner) = it.left.into_parts();
                    let ghost lr1 = inner.rest();
                    proof {
                        assert(before =~= lr.map_values(|x: I::Item| EitherOrBoth::<I::Item, J::Item>::Left(x)));
                        assert(before.last() == all.last());
                    }
                    let elem = match inner.last() {
                        Some(x) => x,
                        None => left,
                    };
                    return Some(EitherOrBoth::Left(elem));
                },
                (None, Some(right)) => {
                    let (_, inner) = it.right.into_parts();
                    proof {
                        assert(before =~= rr.map_values(|y: J::Item| EitherOrBoth::<I::Item, J::Item>::Right(y)));
                        assert(before.last() == all.last());
                    }
                    let elem = match inner.last() {
                        Some(x) => x,
                        None => right,
                    };
                    return Some(EitherOrBoth::Right(elem));
                },
                (Some(left), Some(right)) => {
                    let c = it.pred_fn.merge_pred(&left, &right);
                    let (l, r, elem) = match c {
                        JoinOrdering::Equal => (None, None, EitherOrBoth::Both(left, right)),
                        JoinOrdering::Less => (None, Some(right), EitherOrBoth::Left(left)),
                        JoinOrdering::Greater => (Some(left), None, EitherOrBoth::Right(right)),
                    };
                    match l {
                        Some(l) => it.left.put_back(l),
                        None => {},
                    }
                    match r {
                        Some(r) => it.right.put_back(r),
                        None => {},
                    }
                    proof {
                        assert(it.left.rest() =~= if c == JoinOrdering::Greater {
                            lr
                        } else {
                            lr.drop_first()
                        });
                        assert(it.right.rest() =~= if c == JoinOrdering::Less {
                            rr
                        } else {
                            rr.drop_first()
                        });
                        assert(before =~= seq![elem] + it.rest());
                        assert(it.rest() =~= before.drop_first());
                        assert(before.drop_first() =~= all.skip(all.len() - before.len() + 1));
                        assert(it.rest() =~= all.skip(all.len() - it.rest().len()));
                        assert(before[0] == all[all.len() - before.len()]);
                    }
                    previous_element = Some(elem);
                },
            }
        }
    }

    fn nth(&mut self, n: usize) -> (r: Option<EitherOrBoth<I::Item, J::Item>>) {
        let ghost all = old(self).rest();
        let mut m = n;
        loop
            invariant
                self.wf(),
                self.pred_fn == old(self).pred_fn,
                all == old(self).rest(),
                m <= n,
                n - m <= all.len(),
                self.rest() == all.skip(n - m),
            decreases m,
        {
            if m == 0 {
                let r = self.next();
                proof {
                    if r is Some {
                        assert(self.rest() =~= all.skip(n + 1));
                    } else {
                        assert(self.rest() =~= all.skip(all.len() as int));
                    }
                }
                return r;
            }
            m = m - 1;
            let ghost before = self.rest();
            let ghost k = n - m - 1;
            assert(before == all.skip(k));
            let ghost (lr, rr) = (self.left.rest(), self.right.rest());
            match (self.left.pull(), self.right.pull()) {
                (None, None) => {
                    proof {
                        assert(before =~= Seq::<EitherOrBoth<I::Item, J::Item>>::empty());
                        assert(self.rest() =~= all.skip(all.len() as int));
                    }
                    return None;
                },
                (Some(_left), None) => {
                    let ghost lr1 = self.left.rest();
                    let r = self.left.nth(m);
                    proof {
                        assert(before =~= lr.map_values(|x: I::Item| EitherOrBoth::<I::Item, J::Item>::Left(x)));
                        assert(lr1 =~= lr.drop_first());
                        assert(self.rest() =~= self.left.rest().map_values(|x: I::Item| EitherOrBoth::<I::Item, J::Item>::Left(x)));
                        if m < lr1.len() {
                            assert(self.left.rest() =~= lr1.skip(m + 1));
                            assert(self.rest() =~= before.skip(m + 2));
                            assert(before[m + 1] == all[k + m + 1]);
                            assert(self.rest() =~= all.skip(n + 1));
                        } else {
                            assert(self.rest() =~= all.skip(all.len() as int));
                        }
                    }
                    return match r {
                        Some(x) => Some(EitherOrBoth::Left(x)),
                        None => None,
                    };
                },
                (None, Some(_right)) => {
                    let ghost rr1 = self.right.rest();
                    let r = self.right.nth(m);
                    proof {
                        assert(before =~= rr.map_values(|y: J::Item| EitherOrBoth::<I::Item, J::Item>::Right(y)));
                        assert(rr1 =~= rr.drop_first());
                        assert(self.rest() =~= self.right.rest().map_values(|y: J::Item| EitherOrBoth::<I::Item, J::Item>::Right(y)));
                        if m < rr1.len() {
                            assert(self.right.rest() =~= rr1.skip(m + 1));
                            assert(self.rest() =~= before.skip(m + 2));
                            assert(before[m + 1] == all[k + m + 1]);
                            assert(self.rest() =~= all.skip(n + 1));
                        } else {
                            assert(self.rest() =~= all.skip(all.len() as int));
                        }
                    }
                    return match r {
                        Some(y) => Some(EitherOrBoth::Right(y)),
                        None => None,
                    };
                },
                (Some(left), Some(right)) => {
                    let c = self.pred_fn.merge_pred(&left, &right);
                    match c {
                        JoinOrdering::Equal => {},
                        JoinOrdering::Less => self.right.put_back(right),
                        JoinOrdering::Greater => self.left.put_back(left),
                    }
                    proof {
                        assert(self.left.rest() =~= if c == JoinOrdering::Greater {
                            lr
                        } else {
                            lr.drop_first()
                        });
                        assert(self.right.rest() =~= if c == JoinOrdering::Less {
                            rr
                        } else {
                            rr.drop_first()
                        });
                        assert(self.rest() =~= before.drop_first());
                        assert(self.rest() =~= all.skip(n - m));
                    }
                },
            }
        }
    }

    closed spec fn spec_size_hint(&self) -> (usize, Option<usize>) {
        let (a_lower, a_upper) = self.left.spec_size_hint();
        let (b_lower, b_upper) = self.right.spec_size_hint();
        (
            if a_lower >= b_lower { a_lower } else { b_lower },
            match (a_upper, b_upper) {
                (Some(x), Some(y)) => if x + y <= usize::MAX { Some((x + y) as usize) } else { None },
                _ => None,
            },
        )
    }

    fn size_hint(&self) -> (r: SizeHint) {
        proof {
            lemma_join_len(self.left.rest(), self.right.rest(), self.pred_fn);
        }
        let (a_lower, a_upper) = self.left.size_hint();
        let (b_lower, b_upper) = self.right.size_hint();
        let lower = if a_lower >= b_lower { a_lower } else { b_lower };
        let upper = match (a_upper, b_upper) {
            (Some(x), Some(y)) => x.checked_add(y),
            _ => None,
        };
        let r = (lower, upper);
        assert(r == self.spec_size_hint());
        r
    }
}

impl<I, J, F> Itertools for MergeJoinBy<I, J, F, bool> where
    I: Itertools,
    J: Itertools,
    F: MergePredicate<I::Item, J::Item, bool>,
 {
    type Item = Either<I::Item, J::Item>;

    closed spec fn rest(&self) -> Seq<Either<I::Item, J::Item>> {
        either_seq(self.left.rest(), self.right.rest(), self.pred_fn)
    }

    closed spec fn wf(&self) -> bool {
        self.left.wf() && self.right.wf()
    }

    fn next(&mut self) -> (r: Option<Either<I::Item, J::Item>>) {
        match (self.left.pull(), self.right.pull()) {
            (None, None) => None,
            (Some(left), None) => {
                proof {
                    assert(self.right.rest().len() == 0);
                    assert(either_seq(self.left.rest(), self.right.rest(), self.pred_fn) =~= either_seq(
                        old(self).left.rest(),
                        old(self).right.rest(),
                        self.pred_fn,
                    ).drop_first());
                }
                Some(Either::Left(left))
            },
            (None, Some(right)) => {
                proof {
                    assert(either_seq(self.left.rest(), self.right.rest(), self.pred_fn) =~= either_seq(
                        old(self).left.rest(),
                        old(self).right.rest(),
                        self.pred_fn,
                    ).drop_first());
                }
                Some(Either::Right(right))
            },
            (Some(left), Some(right)) => {
                let b = self.pred_fn.merge_pred(&left, &right);
                let (l, r, next) = if b {
                    (None, Some(right), Either::Left(left))
                } else {
                    (Some(left), None, Either::Right(right))
                };
                match l {
                    Some(l) => self.left.put_back(l),
                    None => {},
                }
                match r {
                    Some(r) => self.right.put_back(r),
                    None => {},
                }
                proof {
                    assert(self.left.rest() =~= if b { old(self).left.rest().drop_first() } else {
                        old(self).left.rest()
                    });
                    assert(self.right.rest() =~= if b { old(self).right.rest() } else {
                        old(self).right.rest().drop_first()
                    });
                }
                Some(next)
            },
        }
    }

    fn nth(&mut self, n: usize) -> (r: Option<Either<I::Item, J::Item>>) {
        let ghost all = old(self).rest();
        let mut m = n;
        loop
            invariant
                self.wf(),
                self.pred_fn == old(self).pred_fn,
                all == old(self).rest(),
                m <= n,
                n - m <= all.len(),
                self.rest() == all.skip(n - m),
            decreases m,
        {
            if m == 0 {
                let r = self.next();
                proof {
                    if r is Some {
                        assert(self.rest() =~= all.skip(n + 1));
                    } else {
                        assert(self.rest() =~= all.skip(all.len() as int));
                    }
                }
                return r;
            }
            m = m - 1;
            let ghost before = self.rest();
            let ghost k = n - m - 1;
            assert(before == all.skip(k));
            let ghost (lr, rr) = (self.left.rest(), self.right.rest());
            match (self.left.pull(), self.right.pull()) {
                (None, None) => {
                    proof {
                        assert(before =~= Seq::<Either<I::Item, J::Item>>::empty());
                        assert(self.rest() =~= all.skip(all.len() as int));
                    }
                    return None;
                },
                (Some(_left), None) => {
                    let ghost lr1 = self.left.rest();
                    let r = self.left.nth(m);
                    proof {
                        assert(before =~= lr.map_values(|x: I::Item| Either::<I::Item, J::Item>::Left(x)));
                        assert(lr1 =~= lr.drop_first());
                        assert(self.rest() =~= self.left.rest().map_values(|x: I::Item| Either::<I::Item, J::Item>::Left(x)));
                        if m < lr1.len() {
                            assert(self.left.rest() =~= lr1.skip(m + 1));
                            assert(self.rest() =~= before.skip(m + 2));
                            assert(before[m + 1] == all[k + m + 1]);
                            assert(self.rest() =~= all.skip(n + 1));
                        } else {
                            assert(self.rest() =~= all.skip(all.len() as int));
                        }
                    }
                    return match r {
                        Some(x) => Some(Either::Left(x)),
                        None => None,
                    };
                },
                (None, Some(_right)) => {
                    let ghost rr1 = self.right.rest();
                    let r = self.right.nth(m);
                    proof {
                        assert(before =~= rr.map_values(|y: J::Item| Either::<I::Item, J::Item>::Right(y)));
                        assert(rr1 =~= rr.drop_first());
                        assert(self.rest() =~= self.right.rest().map_values(|y: J::Item| Either::<I::Item, J::Item>::Right(y)));
                        if m < rr1.len() {
                            assert(self.right.rest() =~= rr1.skip(m + 1));
                            assert(self.rest() =~= before.skip(m + 2));
                            assert(before[m + 1] == all[k + m + 1]);
                            assert(self.rest() =~= all.skip(n + 1));
                        } else {
                            assert(self.rest() =~= all.skip(all.len() as int));
                        }
                    }
                    return match r {
                        Some(y) => Some(Either::Right(y)),
                        None => None,
                    };
                },
                (Some(left), Some(right)) => {
                    let c = self.pred_fn.merge_pred(&left, &right);
                    if c {
                        self.right.put_back(right);
                    } else {
                        self.left.put_back(left);
                    }
                    proof {
                        assert(self.left.rest() =~= if c {
                            lr.drop_first()
                        } else {
                            lr
                        });
                        assert(self.right.rest() =~= if c {
                            rr
                        } else {
                            rr.drop_first()
                        });
                        assert(self.rest() =~= before.drop_first());
                        assert(self.rest() =~= all.skip(n - m));
                    }
                },
            }
        }
    }

    closed spec fn spec_size_hint(&self) -> (usize, Option<usize>) {
        crate::size_hint::add_spec(self.left.spec_size_hint(), self.right.spec_size_hint())
    }

    fn size_hint(&self) -> (r: SizeHint) {
        proof {
            lemma_either_len(self.left.rest(), self.right.rest(), self.pred_fn);
        }
        let r = size_hint::add(self.left.size_hint(), self.right.size_hint());
        assert(r == self.spec_size_hint());
        r
    }
}


/// The integers of `s` are in ascending order.
pub open spec fn is_sorted(s: Seq<i64>) -> bool {
    forall|i: int, j: int| 0 <= i < j < s.len() ==> s[i] <= s[j]
}

/// Putting an item in front of a sequence adds it to the multiset of its items.
pub proof fn lemma_prepend_multiset<T>(x: T, s: Seq<T>)
    ensures
        (seq![x] + s).to_multiset() == s.to_multiset().insert(x),
{
    broadcast use vstd::seq_lib::group_to_multiset_ensures;

    let t = seq![x] + s;
    assert(t.remove(0) =~= s);
    assert(t.contains(x)) by {
        assert(t[0] == x);
    }
    assert(t.to_multiset().count(x) > 0);
    assert(t.to_multiset() =~= s.to_multiset().insert(x)) by {
        broadcast use vstd::multiset::group_multiset_axioms;

        assert forall|y: T| t.to_multiset().count(y) == s.to_multiset().insert(x).count(y) by {
            if y == x {
            } else {
            }
        }
    }
}

/// Merging two ascending sequences gives an ascending sequence of all their items.
pub proof fn lemma_merge_sorted(a: Seq<i64>, b: Seq<i64>)
    requires
        is_sorted(a),
        is_sorted(b),
    ensures
        is_sorted(merge_seq(a, b, MergeLte)),
        merge_seq(a, b, MergeLte).to_multiset() == a.to_multiset().add(b.to_multiset()),
    decreases a.len() + b.len(),
{
    broadcast use vstd::seq_lib::group_to_multiset_ensures;
    broadcast use vstd::multiset::group_multiset_axioms;

    let m = merge_seq(a, b, MergeLte);
    if a.len() == 0 {
        assert(a.to_multiset() =~= vstd::multiset::Multiset::empty());
        assert(m.to_multiset() =~= a.to_multiset().add(b.to_multiset()));
    } else if b.len() == 0 {
        assert(b.to_multiset() =~= vstd::multiset::Multiset::empty());
        assert(m.to_multiset() =~= a.to_multiset().add(b.to_multiset()));
    } else {
        let (h, a1, b1) = if a[0] <= b[0] {
            (a[0], a.drop_first(), b)
        } else {
            (b[0], a, b.drop_first())
        };
        assert(is_sorted(a1));
        assert(is_sorted(b1));
        lemma_merge_sorted(a1, b1);
        let m1 = merge_seq(a1, b1, MergeLte);
        assert(m =~= seq![h] + m1);
        lemma_prepend_multiset(h, m1);
        lemma_prepend_multiset(a[0], a.drop_first());
        lemma_prepend_multiset(b[0], b.drop_first());
        assert(a =~= seq![a[0]] + a.drop_first());
        assert(b =~= seq![b[0]] + b.drop_first());
        assert(m.to_multiset() =~= a.to_multiset().add(b.to_multiset()));
        assert forall|i: int, j: int| 0 <= i < j < m.len() implies m[i] <= m[j] by {
            if i == 0 {
                let x = m1[j - 1];
                assert(m1.contains(x));
                assert(m1.to_multiset().count(x) > 0);
                if a1.to_multiset().count(x) > 0 {
                    assert(a1.contains(x));
                    let k = choose|k: int| 0 <= k < a1.len() && a1[k] == x;
                    if a[0] <= b[0] {
                        assert(a1[k] == a[k + 1]);
                    }
                } else {
                    assert(b1.contains(x));
                    let k = choose|k: int| 0 <= k < b1.len() && b1[k] == x;
                    if a[0] <= b[0] {
                    } else {
                        assert(b1[k] == b[k + 1]);
                    }
                }
            } else {
                assert(m[i] == m1[i - 1]);
                assert(m[j] == m1[j - 1]);
            }
        }
    }
}
} // verus!
