use itertools::{Itertools, VecIter};
use itertools::hash_join::{
    HashJoinFullOuter, HashJoinInner, HashJoinLeftExcl, HashJoinLeftOuter, HashJoinRightExcl,
    HashJoinRightOuter,
};
use itertools::merge_join::EitherOrBoth;

fn drain<I: Itertools>(mut it: I) -> Vec<I::Item> {
    let mut out = Vec::new();
    while let Some(x) = it.next() {
        out.push(x);
    }
    out
}

fn tag(e: EitherOrBoth<&'static str, &'static str>) -> (Option<&'static str>, Option<&'static str>) {
    match e {
        EitherOrBoth::Both(l, r) => (Some(l), Some(r)),
        EitherOrBoth::Left(l) => (Some(l), None),
        EitherOrBoth::Right(r) => (None, Some(r)),
    }
}

fn left() -> VecIter<(i64, &'static str)> {
    VecIter::new(vec![(1, "a"), (2, "b"), (1, "c"), (4, "d")])
}

fn right() -> VecIter<(i64, &'static str)> {
    VecIter::new(vec![(3, "x"), (1, "y"), (2, "z"), (5, "w")])
}

#[test]
fn hash_join_inner_pairs() {
    let got = drain(HashJoinInner::new(left(), right()));
    assert_eq!(got, vec![("a", "y"), ("b", "z"), ("c", "y")]);
}

#[test]
fn hash_join_last_right_value_wins() {
    let r = VecIter::new(vec![(1, "old"), (1, "new")]);
    let got = drain(HashJoinInner::new(VecIter::new(vec![(1, "a")]), r));
    assert_eq!(got, vec![("a", "new")]);
}

#[test]
fn hash_join_left_excl_values() {
    let got = drain(HashJoinLeftExcl::new(left(), right()));
    assert_eq!(got, vec!["d"]);
}

#[test]
fn hash_join_left_outer_values() {
    let got: Vec<_> = drain(HashJoinLeftOuter::new(left(), right())).into_iter().map(tag).collect();
    assert_eq!(
        got,
        vec![(Some("a"), Some("y")), (Some("b"), Some("z")), (Some("c"), Some("y")), (Some("d"), None)]
    );
}

#[test]
fn hash_join_right_excl_values() {
    let got = drain(HashJoinRightExcl::new(left(), right()));
    assert_eq!(got, vec!["x", "w"]);
}

#[test]
fn hash_join_right_outer_values() {
    let got: Vec<_> = drain(HashJoinRightOuter::new(left(), right())).into_iter().map(tag).collect();
    assert_eq!(
        got,
        vec![
            (Some("a"), Some("y")),
            (Some("b"), Some("z")),
            (Some("c"), Some("y")),
            (None, Some("x")),
            (None, Some("w")),
        ]
    );
}

#[test]
fn hash_join_full_outer_values() {
    let got: Vec<_> = drain(HashJoinFullOuter::new(left(), right())).into_iter().map(tag).collect();
    assert_eq!(
        got,
        vec![
            (Some("a"), Some("y")),
            (Some("b"), Some("z")),
            (Some("c"), Some("y")),
            (Some("d"), None),
            (None, Some("x")),
            (None, Some("w")),
        ]
    );
}

#[test]
fn hash_join_empty_sides() {
    let e: VecIter<(i64, &'static str)> = VecIter::new(vec![]);
    assert_eq!(drain(HashJoinRightExcl::new(e, right())), vec!["x", "y", "z", "w"]);
    let e2: VecIter<(i64, &'static str)> = VecIter::new(vec![]);
    assert_eq!(drain(HashJoinInner::new(left(), e2)), Vec::<(&str, &str)>::new());
}
