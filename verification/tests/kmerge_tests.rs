use itertools::{Itertools, VecIter};
use itertools::free::kmerge;
use itertools::kmerge::kmerge_new;
use itertools::k_smallest::k_smallest;

fn drain<I: Itertools>(mut it: I) -> Vec<I::Item> {
    let mut out = Vec::new();
    while let Some(x) = it.next() {
        out.push(x);
    }
    out
}

#[test]
fn kmerge_doc_example() {
    let it = kmerge(vec![vec![0, 2, 4], vec![1, 3, 5], vec![6, 7]]);
    assert_eq!(drain(it), vec![0, 1, 2, 3, 4, 5, 6, 7]);
}

#[test]
fn kmerge_sorted_inputs_give_sorted_output() {
    let it = kmerge(vec![vec![5, 9], vec![], vec![1, 1, 8], vec![2], vec![0, 10, 11]]);
    assert_eq!(drain(it), vec![0, 1, 1, 2, 5, 8, 9, 10, 11]);
}

#[test]
fn kmerge_keeps_every_item() {
    let it = kmerge(vec![vec![3, 1], vec![2, 0]]);
    let mut got = drain(it);
    got.sort();
    assert_eq!(got, vec![0, 1, 2, 3]);
}

#[test]
fn kmerge_size_hint() {
    let mut it = kmerge(vec![vec![1, 2, 3], vec![4]]);
    assert_eq!(it.size_hint(), (4, Some(4)));
    it.next();
    assert_eq!(it.size_hint(), (3, Some(3)));
}

#[test]
fn kmerge_new_of_iterators() {
    let inner = VecIter::new(vec![VecIter::new(vec![1, 4]), VecIter::new(vec![2, 3])]);
    assert_eq!(drain(kmerge_new(inner)), vec![1, 2, 3, 4]);
}

#[test]
fn kmerge_impl_free_function() {
    let inner = VecIter::new(vec![VecIter::new(vec![7]), VecIter::new(vec![-1, 8])]);
    assert_eq!(drain(itertools::kmerge_impl::kmerge(inner)), vec![-1, 7, 8]);
}

#[test]
fn kmerge_empty() {
    let mut it = kmerge(vec![]);
    assert_eq!(it.next(), None);
    assert_eq!(it.size_hint(), (0, Some(0)));
}

#[test]
fn k_smallest_picks_smallest() {
    let mut got = k_smallest(VecIter::new(vec![5, 1, 4, 2, 3, 0]), 3);
    got.sort();
    assert_eq!(got, vec![0, 1, 2]);
}

#[test]
fn k_smallest_more_than_items() {
    let mut got = k_smallest(VecIter::new(vec![2, 1]), 5);
    got.sort();
    assert_eq!(got, vec![1, 2]);
    assert_eq!(k_smallest(VecIter::new(vec![2, 1]), 0), Vec::<i64>::new());
}

#[test]
fn k_smallest_with_ties() {
    let mut got = k_smallest(VecIter::new(vec![3, 1, 3, 1, 2]), 3);
    got.sort();
    assert_eq!(got, vec![1, 1, 2]);
}
