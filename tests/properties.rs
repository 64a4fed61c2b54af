use std::cell::Cell;

use lazy_seq::adapters::{Chain, Enumerate, Flatten, Peekable, Rev, Skip, StepBy, Take, Zip};
use lazy_seq::extrema::{max, max_by, max_by_key, min, min_by, min_by_key};
use lazy_seq::producers::{Counter, Cycle, VecSeq};
use lazy_seq::protocol::Sequence;
use lazy_seq::reducers::{
    all, any, collect, count, find, fold, last, nth, partition, position, product, sum, try_fold,
    unzip,
};
use lazy_seq::transforms::{flat_map, FilterMap, Scan, SkipWhile, TakeWhile};

#[test]
fn chain_yields_first_then_second() {
    let c = Chain::new(VecSeq::new(vec![1, 2, 3, 4]), VecSeq::new(vec![5, 6, 7]));
    assert_eq!(collect(c), vec![1, 2, 3, 4, 5, 6, 7]);
    let c = Chain::new(VecSeq::new(vec![1, 2, 3, 4]), VecSeq::new(vec![5, 6, 7]));
    assert_eq!(count(c), 7);
}

#[test]
fn chain_with_empty_sides() {
    let c = Chain::new(VecSeq::new(Vec::<i32>::new()), VecSeq::new(vec![9]));
    assert_eq!(collect(c), vec![9]);
    let mut c = Chain::new(VecSeq::new(vec![8]), VecSeq::new(Vec::<i32>::new()));
    assert_eq!(c.advance(), Some(8));
    assert_eq!(c.advance(), None);
    assert_eq!(c.advance(), None);
}

#[test]
fn zip_yields_as_many_pairs_as_the_shorter() {
    let z = Zip::new(VecSeq::new(vec![1, 2, 3, 4, 5]), VecSeq::new(vec!['a', 'b']));
    assert_eq!(collect(z), vec![(1, 'a'), (2, 'b')]);
    let z = Zip::new(VecSeq::new(vec![1]), VecSeq::new(vec![7, 8, 9]));
    assert_eq!(count(z), 1);
}

#[test]
fn take_ends_for_good_after_n() {
    let mut t = Take::new(VecSeq::new(vec![2, 3, 4, 5, 6, 7]), 3);
    assert_eq!(t.advance(), Some(2));
    assert_eq!(t.advance(), Some(3));
    assert_eq!(t.advance(), Some(4));
    assert_eq!(t.advance(), None);
    assert_eq!(t.advance(), None);
    let t = Take::new(VecSeq::new(vec![1, 2]), 10);
    assert_eq!(collect(t), vec![1, 2]);
}

#[test]
fn skip_past_the_end_yields_nothing() {
    let mut s = Skip::new(VecSeq::new(vec![1, 2, 3]), 5);
    assert_eq!(s.advance(), None);
    let s = Skip::new(VecSeq::new(vec![1, 2, 3]), 0);
    assert_eq!(collect(s), vec![1, 2, 3]);
}

#[test]
fn skip_while_stops_asking_after_first_pass() {
    let calls = Cell::new(0);
    let pred = |x: &i32| {
        calls.set(calls.get() + 1);
        *x < 0
    };
    let mut s = SkipWhile::new(VecSeq::new(vec![-132, 0, 1, -5]), pred);
    assert_eq!(s.advance(), Some(0));
    assert_eq!(s.advance(), Some(1));
    assert_eq!(s.advance(), Some(-5));
    assert_eq!(s.advance(), None);
    assert_eq!(calls.get(), 2);
}

#[test]
fn take_while_is_fused_after_failure() {
    let mut t = TakeWhile::new(VecSeq::new(vec![4, 5, 0, 7, 8]), |x: &i32| *x > 3);
    assert_eq!(t.advance(), Some(4));
    assert_eq!(t.advance(), Some(5));
    assert_eq!(t.advance(), None);
    assert_eq!(t.advance(), None);
}

#[test]
fn scan_ends_at_first_absent_output() {
    let f = |acc: i32, x: i32| {
        let acc = acc + x;
        if acc > 5 {
            (acc, None)
        } else {
            (acc, Some(acc))
        }
    };
    let mut s = Scan::new(VecSeq::new(vec![1, 2, 3, 0, 0]), 0, f);
    assert_eq!(s.advance(), Some(1));
    assert_eq!(s.advance(), Some(3));
    assert_eq!(s.advance(), None);
    assert_eq!(s.advance(), None);
}

#[test]
fn step_by_zero_is_refused() {
    assert!(StepBy::new(VecSeq::new(vec![1, 2, 3]), 0).is_none());
    let s = StepBy::new(VecSeq::new(vec![1, 2, 3, 4, 5, 6, 7]), 3).unwrap();
    assert_eq!(collect(s), vec![1, 4, 7]);
}

#[test]
fn enumerate_counts_from_zero() {
    let e = Enumerate::new(VecSeq::new(vec!['x', 'y']));
    assert_eq!(collect(e), vec![(0, 'x'), (1, 'y')]);
}

#[test]
fn peek_does_not_consume() {
    let mut p = Peekable::new(VecSeq::new(vec![7, 8]));
    assert_eq!(p.peek(), Some(&7));
    assert_eq!(p.peek(), Some(&7));
    assert_eq!(p.advance(), Some(7));
    assert_eq!(p.advance(), Some(8));
    assert_eq!(p.peek(), None);
    assert_eq!(p.advance(), None);
}

#[test]
fn rev_of_empty_is_empty() {
    let mut r = Rev::new(VecSeq::new(Vec::<u8>::new()));
    assert_eq!(r.advance(), None);
}

#[test]
fn flatten_skips_empty_inner_sequences() {
    let data = vec![
        VecSeq::new(vec![]),
        VecSeq::new(vec![1]),
        VecSeq::new(vec![]),
        VecSeq::new(vec![2, 3]),
    ];
    assert_eq!(collect(Flatten::new(VecSeq::new(data))), vec![1, 2, 3]);
}

#[test]
fn flat_map_keeps_outer_order() {
    let f = |n: usize| VecSeq::new(vec![n; n]);
    assert_eq!(collect(flat_map(VecSeq::new(vec![1, 0, 3]), f)), vec![1, 3, 3, 3]);
}

#[test]
fn filter_map_with_no_present_results() {
    let mut f = FilterMap::new(VecSeq::new(vec!["a", "b"]), |s: &str| s.parse::<i32>().ok());
    assert_eq!(f.advance(), None);
}

#[test]
fn counter_stays_exhausted() {
    let mut c = Counter::new();
    for _ in 0..5 {
        assert!(c.advance().is_some());
    }
    for _ in 0..4 {
        assert_eq!(c.advance(), None);
    }
    assert_eq!(c.count(), 9);
}

#[test]
fn cycle_of_empty_yields_nothing() {
    let mut c = Cycle::<i32>::new(Vec::new());
    assert_eq!(c.advance(), None);
    assert_eq!(c.advance(), None);
}

#[test]
fn nth_past_the_end_exhausts() {
    let mut s = VecSeq::new(vec![1, 2]);
    assert_eq!(nth(&mut s, 5), None);
    assert_eq!(s.advance(), None);
    let mut s = VecSeq::new(vec![1, 2, 3]);
    assert_eq!(nth(&mut s, 0), Some(1));
    assert_eq!(s.advance(), Some(2));
}

#[test]
fn count_and_last_of_empty() {
    assert_eq!(count(VecSeq::new(Vec::<i32>::new())), 0);
    assert_eq!(last(VecSeq::new(Vec::<i32>::new())), None);
}

#[test]
fn fold_is_left_to_right() {
    let r = fold(VecSeq::new(vec![1, 2, 3]), 0, |acc: i32, x: i32| acc * 10 + x);
    assert_eq!(r, 123);
}

#[test]
fn try_fold_without_failure_consumes_all() {
    let mut s = VecSeq::new(vec![1i8, 2, 3]);
    assert_eq!(try_fold(&mut s, 0i8, |a: i8, x: i8| a.checked_add(x)), Some(6));
    assert_eq!(s.advance(), None);
}

#[test]
fn try_fold_stops_right_after_failing_element() {
    let mut s = VecSeq::new(vec![100i8, 27, 1, 5]);
    assert_eq!(try_fold(&mut s, 0i8, |a: i8, x: i8| a.checked_add(x)), None);
    assert_eq!(s.advance(), Some(5));
}

#[test]
fn sum_and_product_report_overflow() {
    assert_eq!(sum(VecSeq::new(vec![i32::MAX, 1])), None);
    assert_eq!(sum(VecSeq::new(vec![i32::MAX, -1, 1])), Some(i32::MAX));
    assert_eq!(sum(VecSeq::new(Vec::new())), Some(0));
    assert_eq!(product(VecSeq::new(vec![65536u32, 65536])), None);
    assert_eq!(product(VecSeq::new(Vec::new())), Some(1));
    assert_eq!(product(VecSeq::new(vec![2u32, 3, 7])), Some(42));
}

#[test]
fn any_and_all_on_empty() {
    let mut e = VecSeq::new(Vec::<i32>::new());
    assert!(!any(&mut e, |x: &i32| *x > 0));
    let mut e = VecSeq::new(Vec::<i32>::new());
    assert!(all(&mut e, |x: &i32| *x > 0));
}

#[test]
fn find_and_position_continue_from_cursor() {
    let mut s = VecSeq::new(vec![5, 6, 5, 6]);
    assert_eq!(find(&mut s, |x: &i32| *x == 6), Some(6));
    assert_eq!(position(&mut s, |x: &i32| *x == 6), Some(1));
    assert_eq!(s.advance(), None);
}

#[test]
fn max_takes_last_and_min_first_on_ties() {
    let a = vec![-3_i32, 0, 1, 5, -10];
    assert_eq!(min_by_key(VecSeq::new(a), |x: &i32| x.abs() as i64), Some(0));
    let t = vec![3_i32, -3];
    assert_eq!(max_by_key(VecSeq::new(t.clone()), |x: &i32| x.abs() as i64), Some(-3));
    assert_eq!(min_by_key(VecSeq::new(t), |x: &i32| x.abs() as i64), Some(3));
    let p = vec![(1, 'a'), (0, 'z'), (1, 'b')];
    let by_first = |x: &(i32, char), y: &(i32, char)| x.0.cmp(&y.0);
    assert_eq!(max_by(VecSeq::new(p.clone()), by_first), Some((1, 'b')));
    let q = vec![(0, 'a'), (1, 'z'), (0, 'b')];
    assert_eq!(min_by(VecSeq::new(q), by_first), Some((0, 'a')));
}

#[test]
fn max_and_min_of_negatives() {
    assert_eq!(max(VecSeq::new(vec![-7i64, -2, -9])), Some(-2));
    assert_eq!(min(VecSeq::new(vec![-7i64, -2, -9])), Some(-9));
}

#[test]
fn partition_keeps_relative_order() {
    let (even, odd) = partition(VecSeq::new(vec![6u32, 1, 4, 3, 2, 5]), |x: &u32| x % 2 == 0);
    assert_eq!(even, vec![6, 4, 2]);
    assert_eq!(odd, vec![1, 3, 5]);
}

#[test]
fn unzip_then_zip_round_trip() {
    let pairs = vec![(1, 'a'), (2, 'b'), (3, 'c')];
    let (left, right) = unzip(VecSeq::new(pairs.clone()));
    let rebuilt = collect(Zip::new(VecSeq::new(left), VecSeq::new(right)));
    assert_eq!(rebuilt, pairs);
}

#[test]
fn rev_of_rev_restores_order() {
    let r = Rev::new(Rev::new(VecSeq::new(vec![1, 2, 3])));
    assert_eq!(collect(r), vec![1, 2, 3]);
}

#[test]
fn find_map_leaves_cursor_after_match() {
    let mut s = VecSeq::new(vec!["x", "4", "y", "7"]);
    assert_eq!(lazy_seq::reducers::find_map(&mut s, |w: &str| w.parse::<i32>().ok()), Some(4));
    assert_eq!(s.advance(), Some("y"));
}
