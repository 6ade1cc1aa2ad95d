use itertools::{emptiness_of_hint, partition, set_from, Itertools, VecIter};
use itertools::inplacemut::{InplaceMappable, JoinPairs, KeepUpTo};
use itertools::format::{new_format, new_format_default, AsIs};
use itertools::free::join;

#[test]
fn partition_doc_example() {
    let mut data = vec![7, 1, 1, 7, 1, 1, 7];
    let split_index = partition(&mut data, |elt: &i32| *elt >= 3);
    assert_eq!(data, vec![7, 7, 7, 1, 1, 1, 1]);
    assert_eq!(split_index, 3);
}

#[test]
fn combine_doc_example() {
    // A = 0, B = 1, AandB = 2
    let v: Vec<i64> = vec![0, 1, 0, 0, 0, 1, 1, 0];
    let v = v.combine(JoinPairs { first: 0, second: 1, joined: 2 });
    assert_eq!(v.ok(), Some(vec![2, 0, 0, 2, 1, 0]));
}

#[test]
fn set_from_doc_example() {
    let mut xs = vec![0; 4];
    let n = set_from(&mut xs, VecIter::new(vec![1, 2, 3, 4, 5, 6]));
    assert_eq!(xs, vec![1, 2, 3, 4]);
    assert_eq!(n, 4);
    let mut ys = vec![0; 4];
    assert_eq!(set_from(&mut ys, VecIter::new(vec![9])), 1);
    assert_eq!(ys, vec![9, 0, 0, 0]);
}

#[test]
fn format_items() {
    let items = vec!["1".to_string(), "2".to_string(), "3".to_string()];
    let mut f = new_format(VecIter::new(items), ", ", AsIs);
    assert_eq!(f.to_string(), "1, 2, 3");
    assert_eq!(f.to_string(), "");
    let mut d = new_format_default(VecIter::new(vec!["a".to_string(), "b".to_string()]), "-");
    assert_eq!(d.to_string(), "a-b");
    let mut e = new_format_default(VecIter::new(vec!["x".to_string()]), "");
    assert_eq!(e.to_string(), "x");
}

#[test]
fn join_doc_example() {
    let parts = vec!["a".to_string(), "b".to_string(), "c".to_string()];
    assert_eq!(join(parts, ", "), "a, b, c");
    assert_eq!(join(Vec::new(), ", "), "");
}

#[test]
fn emptiness_from_size_hints() {
    assert_eq!(emptiness_of_hint((0, Some(0))), Some(true));
    assert_eq!(emptiness_of_hint((3, Some(5))), Some(false));
    assert_eq!(emptiness_of_hint((0, None)), None);
    assert_eq!(emptiness_of_hint((4, Some(2))), None);
    assert_eq!(VecIter::new(vec![1, 2]).is_empty_hint(), Some(false));
    assert_eq!(VecIter::new(vec![1, 2, 3]).size_hint(), (3, Some(3)));
}

#[test]
fn combine_keep_keeps_every_item() {
    let v = vec![1, 2, 3];
    assert_eq!(v.combine(KeepUpTo { n: 2 }), Ok(vec![1, 2, 3]));
    let w = vec![4, 5, 6, 7, 8];
    assert_eq!(w.combine(KeepUpTo { n: 3 }), Ok(vec![4, 5, 6, 7, 8]));
}
