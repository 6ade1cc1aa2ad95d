use itertools::{equal, fold_results, DoubleEndedItertools, Itertools, VecIter};
use itertools::adaptors::{Interleave, MultiPeek, PutBack, PutBackN, Step};
use itertools::adaptors::batching::{Batching, PairUp};
use itertools::adaptors::coalesce::{dedup, Coalesce, DedupEq};
use itertools::adaptors::enumerate_from::EnumerateFrom;
use itertools::adaptors::group_by::{GroupBy, Identity};
use itertools::adaptors::multi_product::multi_cartesian_product;
use itertools::adaptors::pairs;
use itertools::adaptors::product::Product;
use itertools::adaptors::take_while_ref::TakeWhileRef;
use itertools::adaptors::map_special::{map_err, map_ok};
use itertools::intersperse::{intersperse, intersperse_with};
use itertools::islice::ISlice;
use itertools::merge_join::{merge, merge_join_by, EitherOrBoth, MergeCompare};
use itertools::diff::{copy_on_diff, diff, CowVec, Diff};
use itertools::extrema_set::{max_set_impl, min_set_impl, KeyLess};
use itertools::at_most_one::{at_most_one, AtMostOneResult};
use itertools::all_equal_value_err::{all_equal_value, AllEqualValueError};
use itertools::minmax::{minmax, MinMaxResult};
use itertools::filter_common::filter_common;
use itertools::column_row::RangeExt;
use itertools::circular_windows::circular_array_windows;
use itertools::combinations_by_len::combinations_by_len;
use itertools::flatten_ok::flatten_ok;
use itertools::flat_map_ok::{flat_map_ok, Replicate};
use itertools::fn_iter::func;
use itertools::boxiter::BoxIter;
use itertools::free;

fn drain<I: Itertools>(mut it: I) -> Vec<I::Item> {
    let mut out = Vec::new();
    while let Some(x) = it.next() {
        out.push(x);
    }
    out
}

fn v<T>(x: Vec<T>) -> VecIter<T> {
    VecIter::new(x)
}

#[test]
fn interleave_alternates() {
    let it = Interleave::new(v(vec![1, 2, 3]), v(vec![10, 20]));
    assert_eq!(drain(it), vec![1, 10, 2, 20, 3]);
    assert_eq!(drain(free::interleave(vec![1], vec![5, 6, 7])), vec![1, 5, 6, 7]);
}

#[test]
fn put_back_yields_value_first() {
    let mut it = PutBack::new(v(vec![2, 3]));
    it.put_back(1);
    assert_eq!(it.size_hint(), (3, Some(3)));
    assert_eq!(drain(it), vec![1, 2, 3]);
    let mut n = PutBackN::new(v(vec![3]));
    n.put_back(2);
    n.put_back(1);
    assert_eq!(drain(n), vec![1, 2, 3]);
}

#[test]
fn step_every_nth() {
    let it = Step::new(v(vec![0, 1, 2, 3, 4, 5, 6]), 3);
    assert_eq!(drain(it), vec![0, 3, 6]);
}

#[test]
fn multipeek_looks_ahead() {
    let mut it = MultiPeek::new(v(vec![1, 2, 3]));
    assert_eq!(it.peek(), Some(&1));
    assert_eq!(it.peek(), Some(&2));
    assert_eq!(it.next(), Some(1));
    assert_eq!(it.peek(), Some(&2));
    assert_eq!(drain(it), vec![2, 3]);
}

#[test]
fn dedup_joins_runs() {
    let it = Coalesce::new(v(vec![1i64, 1, 2, 2, 2, 3, 1]), DedupEq);
    assert_eq!(drain(it), vec![1, 2, 3, 1]);
}

#[test]
fn enumerate_from_start() {
    let it = EnumerateFrom::new(v(vec!['a', 'b']), 5);
    assert_eq!(drain(it), vec![(5, 'a'), (6, 'b')]);
}

#[test]
fn group_by_runs() {
    let mut it = GroupBy::new(v(vec![1i64, 1, 2, 1, 1]), Identity);
    assert_eq!(it.next(), Some((1, vec![1, 1])));
    assert_eq!(it.next(), Some((2, vec![2])));
    assert_eq!(it.next(), Some((1, vec![1, 1])));
    assert_eq!(it.next(), None);
}

#[test]
fn batching_pairs() {
    let mut it = Batching::new(v(vec![1, 2, 3, 4, 5]), PairUp);
    assert_eq!(it.next(), Some((1, 2)));
    assert_eq!(it.next(), Some((3, 4)));
    assert_eq!(it.next(), None);
}

#[test]
fn cartesian_product_of_two() {
    let it = Product::new(v(vec![1, 2]), v(vec!['a', 'b']));
    assert_eq!(drain(it), vec![(1, 'a'), (1, 'b'), (2, 'a'), (2, 'b')]);
}

#[test]
fn multi_cartesian_product_odometer() {
    let mut it = multi_cartesian_product(vec![v(vec![0, 1]), v(vec![2, 3])]);
    assert_eq!(it.next(), Some(vec![0, 2]));
    assert_eq!(it.next(), Some(vec![0, 3]));
    assert_eq!(it.next(), Some(vec![1, 2]));
    assert_eq!(it.next(), Some(vec![1, 3]));
    assert_eq!(it.next(), None);
}

#[test]
fn pairs_of_items() {
    let mut it = pairs::Combinations::new(v(vec![1, 2, 3]));
    assert_eq!(it.next(), Some((1, 2)));
    assert_eq!(it.next(), Some((1, 3)));
    assert_eq!(it.next(), Some((2, 3)));
    assert_eq!(it.next(), None);
}

#[test]
fn take_while_ref_leaves_rest() {
    let mut base = v(vec![1, 2, 5, 1]);
    {
        let mut t = TakeWhileRef::new(&mut base, |x: &i32| *x < 3);
        assert_eq!(t.next(), Some(1));
        assert_eq!(t.next(), Some(2));
        assert_eq!(t.next(), None);
    }
    assert_eq!(drain(base), vec![5, 1]);
}

#[test]
fn map_ok_and_err() {
    let items: Vec<Result<i32, i32>> = vec![Ok(1), Err(2), Ok(3)];
    let mut it = map_ok(v(items.clone()), |x: i32| x * 10);
    assert_eq!(it.next(), Some(Ok(10)));
    assert_eq!(it.next(), Some(Err(2)));
    assert_eq!(it.next(), Some(Ok(30)));
    let mut e = map_err(v(items), |x: i32| x + 1);
    assert_eq!(e.next(), Some(Ok(1)));
    assert_eq!(e.next(), Some(Err(3)));
}

#[test]
fn intersperse_separator() {
    assert_eq!(drain(intersperse(v(vec![1, 2, 3]), 0)), vec![1, 0, 2, 0, 3]);
    let mut w = intersperse_with(v(vec![1, 2]), || 9);
    assert_eq!(w.next(), Some(1));
    assert_eq!(w.next(), Some(9));
    assert_eq!(w.next(), Some(2));
    assert_eq!(w.next(), None);
}

#[test]
fn islice_range() {
    let it = ISlice::new(v(vec![0, 1, 2, 3, 4]), Some(1), Some(3));
    assert_eq!(drain(it), vec![1, 2]);
    let all = ISlice::new(v(vec![0, 1, 2]), None, None);
    assert_eq!(drain(all), vec![0, 1, 2]);
}

#[test]
fn merge_sorted() {
    assert_eq!(drain(merge(v(vec![1, 3, 5]), v(vec![2, 3, 4]))), vec![1, 2, 3, 3, 4, 5]);
    assert_eq!(drain(free::merge(vec![1, 2, 3], vec![2, 3, 4])), vec![1, 2, 2, 3, 3, 4]);
}

#[test]
fn merge_join_both_sides() {
    let it = merge_join_by(v(vec![1i64, 2, 4]), v(vec![2i64, 3, 4]), MergeCompare);
    let got: Vec<(Option<i64>, Option<i64>)> = drain(it)
        .into_iter()
        .map(|e| match e {
            EitherOrBoth::Both(a, b) => (Some(a), Some(b)),
            EitherOrBoth::Left(a) => (Some(a), None),
            EitherOrBoth::Right(b) => (None, Some(b)),
        })
        .collect();
    assert_eq!(
        got,
        vec![(Some(1), None), (Some(2), Some(2)), (None, Some(3)), (Some(4), Some(4))]
    );
}

#[test]
fn diff_kinds() {
    match diff(v(vec![1i64, 2, 3]), v(vec![1i64, 5, 3])) {
        Some(Diff::FirstMismatch(idx, _, _)) => assert_eq!(idx, 1),
        _ => panic!("expected a first mismatch"),
    }
    match diff(v(vec![1i64, 2]), v(vec![1i64, 2, 3])) {
        Some(Diff::Longer(n, _)) => assert_eq!(n, 2),
        _ => panic!("expected longer"),
    }
    match diff(v(vec![1i64, 2, 3]), v(vec![1i64])) {
        Some(Diff::Shorter(n, _)) => assert_eq!(n, 1),
        _ => panic!("expected shorter"),
    }
    assert!(diff(v(vec![1i64, 2]), v(vec![1i64, 2])).is_none());
}

#[test]
fn copy_on_diff_borrows_when_equal() {
    let c: Vec<i64> = vec![1, 2, 3];
    match copy_on_diff(&c, v(vec![1i64, 2, 3])) {
        CowVec::Borrowed(r) => assert_eq!(*r, c),
        CowVec::Owned(_) => panic!("expected borrowed"),
    }
    match copy_on_diff(&c, v(vec![1i64, 4])) {
        CowVec::Owned(o) => assert_eq!(o, vec![1, 4]),
        CowVec::Borrowed(_) => panic!("expected owned"),
    }
}

#[test]
fn min_and_max_sets() {
    let min = min_set_impl(v(vec![3i64, 1, 2, 1, 3]), Identity, KeyLess);
    assert_eq!(min, Some(vec![1, 1]));
    let max = max_set_impl(v(vec![3i64, 1, 2, 1, 3]), Identity, KeyLess);
    assert_eq!(max, Some(vec![3, 3]));
    assert_eq!(min_set_impl(v(Vec::<i64>::new()), Identity, KeyLess), None);
}

#[test]
fn at_most_one_cases() {
    assert!(matches!(at_most_one(v(Vec::<i32>::new())), AtMostOneResult::Zero));
    assert!(matches!(at_most_one(v(vec![7])), AtMostOneResult::One(7)));
    match at_most_one(v(vec![1, 2, 3])) {
        AtMostOneResult::MoreThanOne(rest) => assert_eq!(drain(rest), vec![1, 2, 3]),
        _ => panic!("expected more than one"),
    }
}

#[test]
fn all_equal_value_cases() {
    assert_eq!(all_equal_value(&[2, 2, 2]), Ok(2));
    assert_eq!(all_equal_value(&[]), Err(AllEqualValueError(None)));
    assert_eq!(all_equal_value(&[2, 2, 3, 4]), Err(AllEqualValueError(Some([2, 3]))));
}

#[test]
fn minmax_cases() {
    assert!(matches!(minmax(&[]), MinMaxResult::NoElements));
    assert!(matches!(minmax(&[4]), MinMaxResult::OneElement(4)));
    assert!(matches!(minmax(&[3, 1, 5, 2]), MinMaxResult::MinMax(1, 5)));
    assert_eq!(minmax(&[3, 1, 5, 2]).into_option(), Some((1, 5)));
}

#[test]
fn filter_common_items() {
    let it = filter_common(v(vec![1i64, 2, 3, 4, 2]), vec![2, 4]);
    assert_eq!(drain(it), vec![1, 3, 2]);
}

#[test]
fn rows_of_ranges() {
    let it = (0..2).rows(5..7);
    assert_eq!(drain(it), vec![(0, 5), (0, 6), (1, 5), (1, 6)]);
}

#[test]
fn concat_vectors() {
    assert_eq!(itertools::concat_impl::concat(v(vec![vec![1, 2], vec![], vec![3]])), vec![1, 2, 3]);
}

#[test]
fn circular_windows_wrap() {
    let mut it = circular_array_windows(v(vec![1, 2, 3]), 2);
    assert_eq!(it.next(), Some(vec![1, 2]));
    assert_eq!(it.next(), Some(vec![2, 3]));
    assert_eq!(it.next(), Some(vec![3, 1]));
    assert_eq!(it.next(), None);
}

#[test]
fn combinations_by_len_grows() {
    let mut it = combinations_by_len(v(vec![1, 2, 3]), 2);
    assert_eq!(it.next(), Some(vec![1, 2]));
    assert_eq!(it.next(), Some(vec![1, 3]));
    assert_eq!(it.next(), Some(vec![2, 3]));
    assert_eq!(it.next(), None);
}

#[test]
fn flatten_and_flat_map_ok() {
    let items: Vec<Result<Vec<i32>, &str>> = vec![Ok(vec![1, 2]), Err("x"), Ok(vec![3])];
    assert_eq!(drain(flatten_ok(v(items))), vec![Ok(1), Ok(2), Err("x"), Ok(3)]);
    let r: Vec<Result<i32, &str>> = vec![Ok(7), Err("e")];
    assert_eq!(drain(flat_map_ok(v(r), Replicate { times: 2 })), vec![Ok(7), Ok(7), Err("e")]);
}

#[test]
fn func_iterator_and_box() {
    let mut f = func(|| Some(3));
    assert_eq!(f.next(), Some(3));
    let b = BoxIter::from_iter(v(vec![1, 2]));
    assert_eq!(drain(b), vec![1, 2]);
}

#[test]
fn equal_and_fold_results() {
    assert!(equal(v(vec![1i64, 2, 3]), v(vec![1i64, 2, 3])));
    assert!(!equal(v(vec![0i64, 0]), v(vec![0i64, 0, 0])));
    let mut ok: VecIter<Result<i32, &str>> = v(vec![Ok(1), Ok(2), Ok(3)]);
    assert_eq!(fold_results(&mut ok, 0, |a: i32, b: i32| a + b), Ok(6));
    let mut bad: VecIter<Result<i32, &str>> = v(vec![Ok(1), Err("no"), Ok(3)]);
    assert_eq!(fold_results(&mut bad, 0, |a: i32, b: i32| a + b), Err("no"));
}

#[test]
fn trait_defaults() {
    let mut it = v(vec![1, 2, 3, 4, 5]);
    assert_eq!(it.dropn(2), 2);
    assert_eq!(it.find_position(|x: &i32| *x == 4), Some((1, 4)));
    assert_eq!(it.collect_vec(), vec![5]);
    assert_eq!(v(vec![1, 2, 3]).dropping(1).collect_vec(), vec![2, 3]);
    assert_eq!(v(vec![1, 2, 3]).count(), 3);
    assert_eq!(v(vec![1, 2, 3]).last(), Some(3));
    assert_eq!(v(vec![1, 2, 3]).nth(1), Some(2));
    assert_eq!(v(vec![1, 5, 2]).fold1(|a: i32, b: i32| if a > b { a } else { b }), Some(5));
    assert_eq!(v(Vec::<i32>::new()).is_empty_hint(), Some(true));
    assert_eq!(v(vec![1]).dropn(5), 1);
}

#[test]
fn free_functions() {
    assert_eq!(free::enumerate(vec!['a', 'b']), vec![(0, 'a'), (1, 'b')]);
    assert_eq!(free::rev(vec![1, 2, 3]), vec![3, 2, 1]);
    assert_eq!(free::zip(vec![1, 2, 3], vec!['a', 'b']), vec![(1, 'a'), (2, 'b')]);
    assert_eq!(free::chain(vec![1], vec![2, 3]), vec![1, 2, 3]);
    assert_eq!(free::cloned(&[4, 5]), vec![4, 5]);
    assert_eq!(free::fold(vec![1, 2, 3], 0, |a: i32, b: i32| a + b), 6);
    assert!(free::all(vec![2, 4], |x: i32| x % 2 == 0));
    assert!(free::any(vec![1, 4], |x: i32| x % 2 == 0));
    assert_eq!(free::max(vec![3, 9, 2]), Some(9));
    assert_eq!(free::min(vec![3, 9, 2]), Some(2));
    assert_eq!(free::max(vec![]), None);
    assert_eq!(free::sorted(vec![3, 1, 2, 1]), vec![1, 1, 2, 3]);
}

#[test]
fn flat_map_ok_from_both_ends() {
    let items: Vec<Result<i32, &str>> = vec![Ok(1), Err("x"), Ok(2)];
    let mut it = flat_map_ok(v(items), Replicate { times: 2 });
    assert_eq!(it.next(), Some(Ok(1)));
    assert_eq!(it.next_back(), Some(Ok(2)));
    assert_eq!(it.next_back(), Some(Ok(2)));
    assert_eq!(it.next_back(), Some(Err("x")));
    assert_eq!(it.next_back(), Some(Ok(1)));
    assert_eq!(it.next_back(), None);
    assert_eq!(it.next(), None);
}

#[test]
fn flat_map_ok_fold_and_rfold() {
    let items: Vec<Result<i32, i32>> = vec![Ok(1), Err(-5), Ok(3)];
    let collect = |mut acc: Vec<i32>, x: Result<i32, i32>| {
        acc.push(match x {
            Ok(a) => a,
            Err(e) => e,
        });
        acc
    };
    let mut it = flat_map_ok(v(items.clone()), Replicate { times: 2 });
    assert_eq!(it.next(), Some(Ok(1)));
    assert_eq!(it.fold(Vec::new(), collect), vec![1, -5, 3, 3]);
    let it = flat_map_ok(v(items), Replicate { times: 2 });
    assert_eq!(it.rfold(Vec::new(), collect), vec![3, 3, -5, 1, 1]);
}

#[test]
fn fold_and_rfold_on_vectors() {
    assert_eq!(v(vec![1, 2, 3]).fold(0, |a, x| a * 10 + x), 123);
    assert_eq!(v(vec![1, 2, 3]).rfold(0, |a, x| a * 10 + x), 321);
}

#[test]
fn dropping_back_keeps_the_front() {
    assert_eq!(drain(v(vec![1, 2, 3, 4]).dropping_back(1)), vec![1, 2, 3]);
    assert_eq!(drain(v(vec![1, 2]).dropping_back(5)), Vec::<i32>::new());
    assert_eq!(drain(v(vec![1, 2]).dropping_back(0)), vec![1, 2]);
}

#[test]
fn foreach_consumes_everything() {
    let mut it = v(vec![1, 2, 3]);
    it.foreach(|x| assert!(x > 0));
    assert_eq!(it.next(), None);
}

#[test]
fn dedup_function_joins_equal_neighbours() {
    assert_eq!(drain(dedup(v(vec![5i64, 5, 6, 5, 5]))), vec![5, 6, 5]);
    assert_eq!(drain(dedup(v(Vec::<i64>::new()))), Vec::<i64>::new());
}

#[test]
fn flat_map_ok_is_map_ok_then_flatten_ok() {
    let items: Vec<Result<i32, &str>> = vec![Ok(4), Err("bad"), Ok(0), Ok(1)];
    let direct = drain(flat_map_ok(v(items.clone()), Replicate { times: 3 }));
    let mut mapped = map_ok(v(items), |x: i32| vec![x; 3]);
    let mut vectors = Vec::new();
    while let Some(r) = mapped.next() {
        vectors.push(r);
    }
    let staged = drain(flatten_ok(v(vectors)));
    assert_eq!(direct, staged);
    assert_eq!(direct, vec![Ok(4), Ok(4), Ok(4), Err("bad"), Ok(0), Ok(0), Ok(0), Ok(1), Ok(1), Ok(1)]);
}

#[test]
fn dedup_of_sorted_input_is_unique() {
    let out = drain(dedup(v(vec![1i64, 1, 2, 3, 3, 3, 7])));
    assert_eq!(out, vec![1, 2, 3, 7]);
    for w in out.windows(2) {
        assert!(w[0] < w[1]);
    }
}

#[test]
fn multipeek_next_resets_cursor() {
    let mut p = MultiPeek::new(v(vec![1u8, 2, 3, 4, 5]));
    assert_eq!(p.peek(), Some(&1));
    assert_eq!(p.peek(), Some(&2));
    assert_eq!(p.peek(), Some(&3));
    assert_eq!(p.next(), Some(1));
    assert_eq!(p.peek(), Some(&2));
}

#[test]
fn take_while_ref_leaves_rejected_item() {
    let mut it = v("abcdef012345".chars().collect::<Vec<char>>());
    let mut taken = String::new();
    {
        let mut t = TakeWhileRef::new(&mut it, |c: &char| c.is_alphabetic());
        while let Some(c) = t.next() {
            taken.push(c);
        }
    }
    assert_eq!(taken, "abcdef");
    assert_eq!(it.next(), Some('0'));
}

#[test]
fn pairs_size_hint_counts_current_item() {
    let mut it = pairs::Combinations::new(v(vec![1, 2, 3, 4]));
    assert_eq!(it.size_hint(), (6, Some(6)));
    assert_eq!(it.next(), Some((1, 2)));
    assert_eq!(it.size_hint(), (5, Some(5)));
}

#[test]
fn circular_windows_len_counts_windows_left() {
    let mut w = circular_array_windows(v(vec![0, 1, 2, 3]), 3);
    assert_eq!(w.len(), 4);
    assert_eq!(w.next(), Some(vec![0, 1, 2]));
    assert_eq!(w.len(), 3);
    assert_eq!(w.next(), Some(vec![1, 2, 3]));
    assert_eq!(w.next(), Some(vec![2, 3, 0]));
    assert_eq!(w.len(), 1);
    assert_eq!(w.next(), Some(vec![3, 0, 1]));
    assert_eq!(w.len(), 0);
    assert_eq!(w.next(), None);
}
