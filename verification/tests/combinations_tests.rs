use itertools::VecIter;
use itertools::combinations::{combinations, remaining_for};
use itertools::combinations_up_to::combinations_up_to;
use itertools::combinations_with_replacement::combinations_with_replacement;
use itertools::array_combinations::array_combinations;
use itertools::binomial::binomial;

#[test]
fn combinations_up_to_0() {
    let mut it = combinations_up_to(VecIter::new(vec![()]), 0);
    let mut got: Vec<Vec<()>> = Vec::new();
    while let Some(c) = it.next() {
        got.push(c);
    }
    assert_eq!(got, vec![Vec::<()>::new()]);
}

#[test]
fn combinations_up_to_2() {
    let mut it = combinations_up_to(VecIter::new(vec![1, 2, 3]), 2);
    let mut got: Vec<Vec<i32>> = Vec::new();
    while let Some(c) = it.next() {
        got.push(c);
    }
    assert_eq!(
        got,
        vec![vec![1, 2], vec![1, 3], vec![2, 3], vec![1], vec![2], vec![3], vec![]]
    );
}

#[test]
fn combinations_lexicographic() {
    let mut it = combinations(VecIter::new(vec![1, 2, 3, 4]), 2);
    let mut got: Vec<Vec<i32>> = Vec::new();
    while let Some(c) = it.next() {
        got.push(c);
    }
    assert_eq!(got, vec![vec![1, 2], vec![1, 3], vec![1, 4], vec![2, 3], vec![2, 4], vec![3, 4]]);
}

#[test]
fn combinations_more_than_items() {
    let mut it = combinations(VecIter::new(vec![1, 2]), 3);
    assert_eq!(it.next(), None);
    assert_eq!(it.next(), None);
}

#[test]
fn combinations_zero_length() {
    let mut it = combinations(VecIter::new(vec![1, 2]), 0);
    assert_eq!(it.next(), Some(vec![]));
    assert_eq!(it.next(), None);
}

#[test]
fn combinations_size_hint_and_count() {
    let mut it = combinations(VecIter::new(vec![1, 2, 3, 4, 5]), 3);
    assert_eq!(it.size_hint(), (10, Some(10)));
    it.next();
    it.next();
    assert_eq!(it.size_hint(), (8, Some(8)));
    assert_eq!(it.count(), 8);
}

#[test]
fn combinations_reset() {
    let mut it = combinations(VecIter::new(vec![1, 2, 3]), 2);
    it.next();
    it.reset(1);
    assert_eq!(it.k(), 1);
    assert_eq!(it.next(), Some(vec![1]));
    assert_eq!(it.next(), Some(vec![2]));
    it.reset(3);
    assert_eq!(it.next(), Some(vec![1, 2, 3]));
    assert_eq!(it.next(), None);
}

#[test]
fn combinations_real_n() {
    let mut it = combinations(VecIter::new(vec![1, 2, 3, 4]), 1);
    assert_eq!(it.n(), 1);
    assert_eq!(it.real_n(), 4);
    assert_eq!(it.n(), 4);
}

#[test]
fn binomial_values() {
    assert_eq!(binomial(5, 2), Some(10));
    assert_eq!(binomial(5, 0), Some(1));
    assert_eq!(binomial(2, 5), Some(0));
    assert_eq!(binomial(10, 7), Some(120));
    assert_eq!(binomial(64, 32), Some(1832624140942590534));
    assert_eq!(binomial(100, 50), None);
    assert_eq!(binomial(usize::MAX, 1), Some(usize::MAX));
}

#[test]
fn combinations_with_replacement_order() {
    let mut it = combinations_with_replacement(VecIter::new(vec![1, 2, 3]), 2);
    assert_eq!(it.size_hint(), (6, Some(6)));
    let mut got: Vec<Vec<i32>> = Vec::new();
    while let Some(c) = it.next() {
        got.push(c);
    }
    assert_eq!(
        got,
        vec![vec![1, 1], vec![1, 2], vec![1, 3], vec![2, 2], vec![2, 3], vec![3, 3]]
    );
}

#[test]
fn array_combinations_next_and_nth() {
    let mut it = array_combinations(VecIter::new(vec![1, 2, 3, 4]), 2);
    assert_eq!(it.next(), Some(vec![1, 2]));
    assert_eq!(it.nth(1), Some(vec![1, 4]));
    assert_eq!(it.try_nth(10), Err(3));
    assert_eq!(it.next(), None);
}

#[test]
fn array_combinations_try_nth_ok() {
    let mut it = array_combinations(VecIter::new(vec![1, 2, 3]), 2);
    assert_eq!(it.try_nth(2), Ok(vec![2, 3]));
    assert_eq!(it.n(), 3);
}

#[test]
fn combinations_count_goes_down_by_one() {
    for k in 0..5usize {
        let mut it = combinations(VecIter::new(vec![1, 2, 3, 4]), k);
        let total = binomial(4, k).unwrap();
        for yielded in 0..=total {
            assert_eq!(it.size_hint(), (total - yielded, Some(total - yielded)));
            let got = it.next();
            assert_eq!(got.is_some(), yielded < total);
        }
    }
}

#[test]
fn combinations_with_replacement_count_goes_down_by_one() {
    let mut it = combinations_with_replacement(VecIter::new(vec![1, 2, 3, 4]), 3);
    let total = binomial(6, 3).unwrap();
    assert_eq!(total, 20);
    for yielded in 0..=total {
        assert_eq!(it.size_hint(), (total - yielded, Some(total - yielded)));
        assert_eq!(it.next().is_some(), yielded < total);
    }
}

#[test]
fn array_combinations_size_hint_and_count() {
    let mut it = array_combinations(VecIter::new(vec![1, 2, 3, 4, 5]), 2);
    assert_eq!(it.size_hint(), (10, Some(10)));
    it.next();
    it.next();
    it.next();
    assert_eq!(it.size_hint(), (7, Some(7)));
    assert_eq!(it.count(), 7);
    let empty = array_combinations(VecIter::new(vec![1, 2]), 3);
    assert_eq!(empty.count(), 0);
}

#[test]
fn remaining_for_positions() {
    // After [0, 2] among 2 of 4 positions come [0, 3], [1, 2], [1, 3], [2, 3].
    assert_eq!(remaining_for(4, false, &vec![0, 2]), Some(4));
    assert_eq!(remaining_for(4, true, &vec![0, 1]), Some(6));
    assert_eq!(remaining_for(4, false, &vec![2, 3]), Some(0));
    assert_eq!(remaining_for(100, true, &vec![0; 50]), None);
}
