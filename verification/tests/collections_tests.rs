use std::cmp::Ordering;
use std::collections::{BTreeMap, HashMap};
use itertools::{Itertools, VecIter};
use itertools::adaptors::group_by::Identity;
use itertools::array_chunks::ArrayChunks;
use itertools::arrays::Arrays;
use itertools::duplicates_impl::{duplicates_by_with_hasher, duplicates_with_hasher};
use itertools::grouping_map::{self, FoldAgg, SumValues, into_group_map};
use itertools::group_map::{into_group_map_by_with_hasher, into_group_map_with_hasher};
use itertools::lookup::to_lookup;
use itertools::generic_containers::KeyValueMap;
use itertools::iter_index::{get, TakeWithUsizeMaxPlusOne, UsizeMaxPlusOne};

fn drain<I: Itertools>(mut it: I) -> Vec<I::Item> {
    let mut out = Vec::new();
    while let Some(x) = it.next() {
        out.push(x);
    }
    out
}

#[test]
fn array_chunks_and_remainder() {
    let mut it = ArrayChunks::new(VecIter::new(vec![1, 2, 3, 4, 5, 6, 7]), 3);
    assert_eq!(it.size_hint(), (2, Some(2)));
    assert_eq!(it.next(), Some(vec![1, 2, 3]));
    assert_eq!(it.next(), Some(vec![4, 5, 6]));
    assert_eq!(it.next(), None);
    assert_eq!(it.next(), None);
    assert_eq!(drain(it.remainder()), vec![7]);
}

#[test]
fn array_chunks_exact() {
    let mut it = ArrayChunks::new(VecIter::new(vec![1, 2, 3, 4]), 2);
    assert_eq!(it.next(), Some(vec![1, 2]));
    assert_eq!(it.next(), Some(vec![3, 4]));
    assert_eq!(it.next(), None);
    assert_eq!(drain(it.remainder()), Vec::<i32>::new());
}

#[test]
fn arrays_drop_short_tail() {
    let mut it = Arrays::new(VecIter::new(vec![1, 2, 3, 4, 5]), 2);
    assert_eq!(it.size_hint(), (2, Some(2)));
    assert_eq!(it.next(), Some(vec![1, 2]));
    assert_eq!(it.next(), Some(vec![3, 4]));
    assert_eq!(it.next(), None);
}

#[test]
fn duplicates_second_occurrences() {
    let it = duplicates_with_hasher(VecIter::new(vec![1, 2, 1, 3, 1, 2, 4]), ());
    assert_eq!(drain(it), vec![1, 2]);
}

#[test]
fn duplicates_size_hint() {
    let it = duplicates_with_hasher(VecIter::new(vec![1, 2, 3, 4, 5]), ());
    assert_eq!(it.size_hint(), (0, Some(2)));
}

#[test]
fn duplicates_by_key() {
    let it = duplicates_by_with_hasher(VecIter::new(vec![5, 6, 5, 6, 6]), Identity, ());
    assert_eq!(drain(it), vec![5, 6]);
}

fn pairs() -> VecIter<(i64, i64)> {
    VecIter::new(vec![(1, 10), (2, 20), (1, 11), (3, 30), (1, 12)])
}

#[test]
fn grouping_map_fold_and_count() {
    let sums = grouping_map::new(pairs()).fold(100, SumValues);
    assert_eq!(sums[&1], 133);
    assert_eq!(sums[&2], 120);
    assert_eq!(sums[&3], 130);
    let firsts = grouping_map::new(pairs()).fold_first(SumValues);
    assert_eq!(firsts[&1], 33);
    let counts = grouping_map::new(pairs()).count();
    assert_eq!(counts[&1], 3);
    assert_eq!(counts[&3], 1);
    assert_eq!(counts.len(), 3);
}

#[test]
fn grouping_map_aggregate() {
    let agg = grouping_map::new(pairs()).aggregate(FoldAgg { init: 0, op: SumValues });
    assert_eq!(agg[&1], 33);
    assert_eq!(agg[&2], 20);
    assert_eq!(agg[&3], 30);
    let wrapped = grouping_map::new(VecIter::new(vec![(7, i64::MAX), (7, 1)])).fold(0, SumValues);
    assert_eq!(wrapped[&7], i64::MIN);
}

#[test]
fn grouping_map_collect() {
    let groups = grouping_map::new(pairs()).collect();
    assert_eq!(groups[&1], vec![10, 11, 12]);
    assert_eq!(groups[&2], vec![20]);
    let g2 = into_group_map(pairs());
    assert_eq!(g2, groups);
    let g3 = into_group_map_with_hasher(pairs(), ());
    assert_eq!(g3, groups);
}

#[test]
fn group_map_by_key_and_lookup() {
    let g = into_group_map_by_with_hasher(VecIter::new(vec![3, 1, 3, 2, 1]), Identity, ());
    assert_eq!(g[&3], vec![3, 3]);
    assert_eq!(g[&1], vec![1, 1]);
    assert_eq!(g.len(), 3);
    let l = to_lookup(VecIter::new(vec![4, 4, 5]), Identity);
    assert_eq!(l[&4], vec![4, 4]);
    assert_eq!(l[&5], vec![5]);
}

#[test]
fn generic_maps_agree() {
    let mut h: HashMap<i64, i64> = HashMap::new();
    let mut b: BTreeMap<i64, i64> = BTreeMap::new();
    let mut v: Vec<(i64, i64)> = Vec::new();
    assert_eq!(KeyValueMap::insert(&mut h, 1, 10), None);
    assert_eq!(KeyValueMap::insert(&mut b, 1, 10), None);
    assert_eq!(KeyValueMap::insert(&mut v, 1, 10), None);
    assert_eq!(KeyValueMap::insert(&mut h, 1, 11), Some(10));
    assert_eq!(KeyValueMap::insert(&mut b, 1, 11), Some(10));
    assert_eq!(KeyValueMap::insert(&mut v, 1, 11), Some(10));
    KeyValueMap::insert(&mut v, 2, 20);
    assert_eq!(KeyValueMap::remove(&mut v, &1), Some(11));
    assert_eq!(KeyValueMap::remove(&mut v, &1), None);
    assert_eq!(v, vec![(2, 20)]);
    KeyValueMap::aggregate(&mut v, 2, 4, FoldAgg { init: 0, op: SumValues });
    assert_eq!(v, vec![(2, 24)]);
    KeyValueMap::aggregate(&mut v, 3, 5, FoldAgg { init: 100, op: SumValues });
    assert_eq!(v, vec![(2, 24), (3, 105)]);
    KeyValueMap::aggregate(&mut h, 1, 2, FoldAgg { init: 0, op: SumValues });
    assert_eq!(h[&1], 13);
    assert_eq!(KeyValueMap::remove(&mut b, &1), Some(11));
}

#[test]
fn get_ranges() {
    let v = || VecIter::new(vec![0, 1, 2, 3, 4, 5]);
    assert_eq!(drain(get(v(), 1..4)), vec![1, 2, 3]);
    assert_eq!(drain(get(v(), 4..10)), vec![4, 5]);
    assert_eq!(drain(get(v(), 2..=3)), vec![2, 3]);
    assert_eq!(drain(get(v(), 5..=9)), vec![5]);
    assert_eq!(drain(get(v(), 3..=1)), vec![3]);
    assert_eq!(drain(get(v(), 3..2)), Vec::<i32>::new());
}

#[test]
fn usize_max_plus_one_order() {
    let top = UsizeMaxPlusOne::inc(usize::MAX);
    let three = UsizeMaxPlusOne::inc(2);
    assert_eq!(top.cmp(&three), Ordering::Greater);
    assert_eq!(three.cmp(&top), Ordering::Less);
    assert_eq!(top.cmp(&top), Ordering::Equal);
    assert_eq!(three.partial_cmp(&UsizeMaxPlusOne { n: Some(3) }), Some(Ordering::Equal));
    assert_eq!(top.saturating_to_usize(), usize::MAX);
    assert_eq!(three.saturating_to_usize(), 3);
}

#[test]
fn take_with_allowance_from_the_back() {
    let mut t = TakeWithUsizeMaxPlusOne::new(VecIter::new(vec![1, 2, 3, 4]), UsizeMaxPlusOne::inc(1));
    assert_eq!(t.next_back(), Some(4));
    assert_eq!(t.next_back(), Some(3));
    assert_eq!(t.next_back(), None);
    assert_eq!(t.next(), None);
}
