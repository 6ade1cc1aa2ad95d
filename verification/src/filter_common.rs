//! Skipping the items that match, one for one, the values of a list.
use vstd::prelude::*;
use crate::Itertools;
use crate::size_hint::SizeHint;

verus! {

/// The items of `s` that remain when each value of `l` cancels its first match among the
/// items, in order: an item equal to a value still in the list removes the first copy of that
/// value from the list and is skipped.
pub open spec fn filter_common_seq(s: Seq<i64>, l: Seq<i64>) -> Seq<i64>
    decreases s.len(),
{
    if s.len() == 0 {
        Seq::empty()
    } else if l.contains(s[0]) {
        filter_common_seq(s.drop_first(), l.remove(l.index_of_first(s[0])->0))
    } else {
        seq![s[0]] + filter_common_seq(s.drop_first(), l)
    }
}

/// An iterator adaptor that skips, for each value of a list, the first item equal to it.
pub struct FilterCommon<I> {
    iterator: I,
    filter_list: Vec<i64>,
}

/// Create a new `FilterCommon`.
pub fn filter_common<I: Itertools<Item = i64>>(iterator: I, filter_list: Vec<i64>) -> (r: FilterCommon<I>)
    requires
        iterator.wf(),
    ensures
        r.wf(),
        r.rest() == filter_common_seq(iterator.rest(), filter_list@),
{
    FilterCommon { iterator, filter_list }
}

impl<I: Itertools<Item = i64>> FilterCommon<I> {
    /// Remove the first copy of `item` from the list; `false` when there is none.
    fn remove_item(&mut self, item: &i64) -> (r: bool)
        ensures
            final(self).iterator == old(self).iterator,
            r == old(self).filter_list@.contains(*item),
            r ==> final(self).filter_list@ == old(self).filter_list@.remove(
                old(self).filter_list@.index_of_first(*item)->0,
            ),
            !r ==> final(self).filter_list@ == old(self).filter_list@,
    {
        let mut index: usize = 0;
        while index < self.filter_list.len()
            invariant
                index <= self.filter_list@.len(),
                self.filter_list == old(self).filter_list,
                self.iterator == old(self).iterator,
                forall|k: int| 0 <= k < index ==> self.filter_list@[k] != *item,
            decreases self.filter_list@.len() - index,
        {
            if self.filter_list[index] == *item {
                proof {
                    let l = self.filter_list@;
                    assert(l.contains(*item));
                    l.index_of_first_ensures(*item);
                    assert(l.index_of_first(*item)->0 == index as int);
                }
                self.filter_list.remove(index);
                return true;
            }
            index = index + 1;
        }
        proof {
            assert(!old(self).filter_list@.contains(*item));
        }
        false
    }
}

impl<I: Itertools<Item = i64>> Itertools for FilterCommon<I> {
    type Item = i64;

    closed spec fn rest(&self) -> Seq<i64> {
        filter_common_seq(self.iterator.rest(), self.filter_list@)
    }

    closed spec fn wf(&self) -> bool {
        self.iterator.wf()
    }

    fn next(&mut self) -> (r: Option<i64>) {
        loop
            invariant
                self.iterator.wf(),
                self.rest() == old(self).rest(),
            decreases self.iterator.rest().len(),
        {
            let ghost s = self.iterator.rest();
            let ghost l = self.filter_list@;
            let item = match self.iterator.next() {
                Some(item) => item,
                None => {
                    return None;
                },
            };
            proof {
                assert(s.drop_first() == self.iterator.rest());
            }
            if !self.remove_item(&item) {
                return Some(item);
            }
        }
    }

    /// No lower bound: every item may be skipped; the upper bound of the iterator.
    closed spec fn spec_size_hint(&self) -> (usize, Option<usize>) {
        (0, self.iterator.spec_size_hint().1)
    }

    fn size_hint(&self) -> (r: SizeHint) {
        let (_, hi) = self.iterator.size_hint();
        proof {
            lemma_filter_common_len(self.iterator.rest(), self.filter_list@);
        }
        let r = (0, hi);
        assert(r == self.spec_size_hint());
        r
    }
}

/// Filtering never adds items.
pub proof fn lemma_filter_common_len(s: Seq<i64>, l: Seq<i64>)
    ensures
        filter_common_seq(s, l).len() <= s.len(),
    decreases s.len(),
{
    if s.len() > 0 {
        if l.contains(s[0]) {
            lemma_filter_common_len(s.drop_first(), l.remove(l.index_of_first(s[0])->0));
        } else {
            lemma_filter_common_len(s.drop_first(), l);
        }
    }
}

} // verus!
