//! Merging two iterators in order by a three-way comparison.
use vstd::prelude::*;
use crate::Itertools;
use crate::adaptors::PutBack;
use crate::merge_join::{
    is_sorted, lemma_merge_sorted, merge_seq, JoinOrdering, MergeCompare, MergeLte, MergePredicate,
};
use crate::size_hint::{self, SizeHint, within};

verus! {

/// The merge of `a` and `b`: the head of `a` goes first unless the comparison puts it after
/// the head of `b`.
pub open spec fn merge_by_order<T, F: MergePredicate<T, T, JoinOrdering>>(
    a: Seq<T>,
    b: Seq<T>,
    f: F,
) -> Seq<T>
    decreases a.len() + b.len(),
{
    if a.len() == 0 {
        b
    } else if b.len() == 0 {
        a
    } else if f.spec_pred(a[0], b[0]) != JoinOrdering::Greater {
        seq![a[0]] + merge_by_order(a.drop_first(), b, f)
    } else {
        seq![b[0]] + merge_by_order(a, b.drop_first(), f)
    }
}

/// A merge holds every item of both sequences.
pub proof fn lemma_merge_by_order_len<T, F: MergePredicate<T, T, JoinOrdering>>(
    a: Seq<T>,
    b: Seq<T>,
    f: F,
)
    ensures
        merge_by_order(a, b, f).len() == a.len() + b.len(),
    decreases a.len() + b.len(),
{
    if a.len() > 0 && b.len() > 0 {
        if f.spec_pred(a[0], b[0]) != JoinOrdering::Greater {
            lemma_merge_by_order_len(a.drop_first(), b, f);
        } else {
            lemma_merge_by_order_len(a, b.drop_first(), f);
        }
    }
}

/// Merging integers by their three-way comparison is merging them by `<=`.
proof fn lemma_merge_by_order_is_merge(a: Seq<i64>, b: Seq<i64>)
    ensures
        merge_by_order(a, b, MergeCompare) == merge_seq(a, b, MergeLte),
    decreases a.len() + b.len(),
{
    if a.len() > 0 && b.len() > 0 {
        if a[0] <= b[0] {
            lemma_merge_by_order_is_merge(a.drop_first(), b);
        } else {
            lemma_merge_by_order_is_merge(a, b.drop_first());
        }
    }
}

/// Merging two ascending sequences of integers by their comparison gives an ascending
/// sequence of all their items.
pub proof fn lemma_merge_by_order_sorted(a: Seq<i64>, b: Seq<i64>)
    requires
        is_sorted(a),
        is_sorted(b),
    ensures
        is_sorted(merge_by_order(a, b, MergeCompare)),
        merge_by_order(a, b, MergeCompare).to_multiset() == a.to_multiset().add(b.to_multiset()),
{
    lemma_merge_by_order_is_merge(a, b);
    lemma_merge_sorted(a, b);
}

/// An iterator adaptor that merges the two base iterators in ascending order of a
/// comparison. Once one of them has run out, only the other one is used.
pub struct Merge<I: Itertools, J: Itertools, F> {
    a: PutBack<I>,
    b: PutBack<J>,
    compare: F,
    fused: Option<bool>,
}

impl<I, J, F> Merge<I, J, F> where
    I: Itertools,
    J: Itertools<Item = I::Item>,
    F: MergePredicate<I::Item, I::Item, JoinOrdering>,
 {
    /// Create a `Merge` iterator.
    pub fn new(a: I, b: J, compare: F) -> (r: Self)
        requires
            a.wf(),
            b.wf(),
        ensures
            r.wf(),
            r.rest() == merge_by_order(a.rest(), b.rest(), compare),
    {
        Merge { a: PutBack::new(a), b: PutBack::new(b), compare, fused: None }
    }
}

impl<I, J, F> Itertools for Merge<I, J, F> where
    I: Itertools,
    J: Itertools<Item = I::Item>,
    F: MergePredicate<I::Item, I::Item, JoinOrdering>,
 {
    type Item = I::Item;

    closed spec fn rest(&self) -> Seq<I::Item> {
        match self.fused {
            Some(true) => self.a.rest(),
            Some(false) => self.b.rest(),
            None => merge_by_order(self.a.rest(), self.b.rest(), self.compare),
        }
    }

    closed spec fn wf(&self) -> bool {
        &&& self.a.wf()
        &&& self.b.wf()
        &&& self.fused == Some(true) ==> self.b.rest().len() == 0
        &&& self.fused == Some(false) ==> self.a.rest().len() == 0
    }

    fn next(&mut self) -> (r: Option<I::Item>) {
        let ghost (ar, br) = (self.a.rest(), self.b.rest());
        let less_than = match self.fused {
            Some(lt) => lt,
            None => {
                match (self.a.pull(), self.b.pull()) {
                    (Some(x), Some(y)) => {
                        let c = self.compare.merge_pred(&x, &y);
                        let lt = match c {
                            JoinOrdering::Less => true,
                            JoinOrdering::Equal => true,
                            JoinOrdering::Greater => false,
                        };
                        self.a.put_back(x);
                        self.b.put_back(y);
                        proof {
                            assert(self.a.rest() =~= ar);
                            assert(self.b.rest() =~= br);
                        }
                        lt
                    },
                    (Some(x), None) => {
                        self.a.put_back(x);
                        self.fused = Some(true);
                        proof {
                            assert(self.a.rest() =~= ar);
                        }
                        true
                    },
                    (None, Some(y)) => {
                        self.b.put_back(y);
                        self.fused = Some(false);
                        proof {
                            assert(self.b.rest() =~= br);
                        }
                        false
                    },
                    (None, None) => {
                        return None;
                    },
                }
            },
        };
        if less_than {
            let r = self.a.next();
            proof {
                if old(self).fused is None {
                    if self.fused is None {
                        assert(self.a.rest() =~= ar.drop_first());
                    }
                }
            }
            r
        } else {
            let r = self.b.next();
            r
        }
    }

    closed spec fn spec_size_hint(&self) -> (usize, Option<usize>) {
        crate::size_hint::add_spec(self.a.spec_size_hint(), self.b.spec_size_hint())
    }

    fn size_hint(&self) -> (r: SizeHint) {
        let sa = self.a.size_hint();
        let sb = self.b.size_hint();
        proof {
            lemma_merge_by_order_len(self.a.rest(), self.b.rest(), self.compare);
            assert(within(sa, self.a.rest().len() as int));
            assert(within(sb, self.b.rest().len() as int));
        }
        let r = size_hint::add(sa, sb);
        assert(r == self.spec_size_hint());
        r
    }
}

} // verus!
