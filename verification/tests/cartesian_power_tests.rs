use itertools::VecIter;
use itertools::cartesian_power::{cartesian_power, Indices, checked_pow, inbounds_increment, inbounds_increment_by};

#[test]
fn indices_base3_pow2_cycles() {
    let mut it = Indices::new(3, 2);
    assert_eq!(it.next(), Some(&[0, 0][..]));
    assert_eq!(it.next(), Some(&[0, 1][..]));
    assert_eq!(it.next(), Some(&[0, 2][..]));
    assert_eq!(it.next(), Some(&[1, 0][..]));
    assert_eq!(it.next(), Some(&[1, 1][..]));
    assert_eq!(it.next(), Some(&[1, 2][..]));
    assert_eq!(it.next(), Some(&[2, 0][..]));
    assert_eq!(it.next(), Some(&[2, 1][..]));
    assert_eq!(it.next(), Some(&[2, 2][..]));
    assert_eq!(it.next(), None);
    assert_eq!(it.next(), Some(&[0, 0][..]));
    assert_eq!(it.next(), Some(&[0, 1][..]));
}

#[test]
fn indices_nth_saturates() {
    let mut it = Indices::new(3, 2);
    assert_eq!(it.nth(0), Some(&[0, 0][..]));
    assert_eq!(it.nth(1), Some(&[0, 2][..]));
    assert_eq!(it.nth(2), Some(&[1, 2][..]));
    assert_eq!(it.nth(9), None);
    assert_eq!(it.nth(2), Some(&[0, 2][..]));
}

#[test]
fn indices_size_hint() {
    let mut it = Indices::new(2, 3);
    assert_eq!(it.size_hint(), (8, Some(8)));
    it.next();
    it.next();
    assert_eq!(it.size_hint(), (6, Some(6)));
}

#[test]
fn indices_zero_power() {
    let mut it = Indices::new(5, 0);
    assert_eq!(it.next(), Some(&[][..]));
    assert_eq!(it.next(), None);
    assert_eq!(it.next(), Some(&[][..]));
}

#[test]
fn cartesian_power_lists_in_order() {
    let mut it = cartesian_power(VecIter::new(vec!['a', 'b']), 2);
    assert_eq!(it.next(), Some(vec!['a', 'a']));
    assert_eq!(it.next(), Some(vec!['a', 'b']));
    assert_eq!(it.next(), Some(vec!['b', 'a']));
    assert_eq!(it.next(), Some(vec!['b', 'b']));
    assert_eq!(it.next(), None);
    assert_eq!(it.next(), Some(vec!['a', 'a']));
}

#[test]
fn cartesian_power_nth_and_count() {
    let mut it = cartesian_power(VecIter::new(vec![0, 1, 2]), 2);
    assert_eq!(it.nth(4), Some(vec![1, 1]));
    assert_eq!(it.size_hint(), (4, Some(4)));
    assert_eq!(it.nth(10), None);
    assert_eq!(it.count(), 9);
}

#[test]
fn cartesian_power_empty_and_zero() {
    let mut it = cartesian_power(VecIter::new(Vec::<i32>::new()), 2);
    assert_eq!(it.next(), None);
    assert_eq!(it.next(), None);
    let mut z = cartesian_power(VecIter::new(vec![1, 2]), 0);
    assert_eq!(z.next(), Some(vec![]));
    assert_eq!(z.next(), None);
}

#[test]
fn checked_pow_values() {
    assert_eq!(checked_pow(3, 4), Some(81));
    assert_eq!(checked_pow(2, 64), None);
    assert_eq!(checked_pow(7, 0), Some(1));
}

#[test]
fn increments() {
    let mut v = vec![0, 2, 2];
    assert!(inbounds_increment(&mut v, 3));
    assert_eq!(v, vec![1, 0, 0]);
    let mut w = vec![2, 2];
    assert!(!inbounds_increment(&mut w, 3));
    let mut x = vec![0, 1];
    assert!(inbounds_increment_by(4, &mut x, 3));
    assert_eq!(x, vec![1, 2]);
    let mut y = vec![2, 1];
    assert!(!inbounds_increment_by(5, &mut y, 3));
    assert_eq!(y, vec![0, 0]);
}

#[test]
fn indices_size_hint_counts_down_over_rounds() {
    let mut it = Indices::new(2, 3);
    for _round in 0..2 {
        for k in 0..8usize {
            assert_eq!(it.size_hint(), (8 - k, Some(8 - k)));
            assert!(it.next().is_some());
        }
        assert_eq!(it.size_hint(), (0, Some(0)));
        assert!(it.next().is_none());
    }
}
