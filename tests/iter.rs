use lazy_seq::adapters::{Chain, Enumerate, Peekable, StepBy, Zip};
use lazy_seq::transforms::{Filter, FilterMap, Mapped};
use lazy_seq::producers::VecSeq;
use lazy_seq::protocol::Sequence;
use lazy_seq::reducers::{count, last, nth};

#[test]
fn iter_iter_count() {
    let vec = vec![1, 2, 3];
    assert_eq!(count(VecSeq::new(vec)), 3);
}

#[test]
fn iter_iter_last() {
    let vec = vec![1, 2, 3];
    assert_eq!(last(VecSeq::new(vec.clone())), Some(3));
    assert_eq!(last(VecSeq::new(vec)), Some(3));
}

#[test]
fn iter_nth_iter() {
    let vec = vec![3, 4, 5, 6];
    let mut iter = VecSeq::new(vec);
    assert_eq!(nth(&mut iter, 1), Some(4));
    assert_eq!(nth(&mut iter, 1), Some(6));
    assert_eq!(nth(&mut iter, 1), None);
}

#[test]
fn iter_iter_step_by() {
    let vec = vec![1, 2, 3, 4, 5, 6, 7];
    let mut iter = StepBy::new(VecSeq::new(vec), 2).unwrap();
    assert_eq!(iter.advance(), Some(1));
    assert_eq!(iter.advance(), Some(3));
    assert_eq!(iter.advance(), Some(5));
    assert_eq!(iter.advance(), Some(7));
    assert_eq!(iter.advance(), None);
}

#[test]
fn iter_iter_chain() {
    let vec1 = vec![1, 2, 3, 4];
    let vec2 = vec![5, 6, 7];
    let mut iter = Chain::new(VecSeq::new(vec1), VecSeq::new(vec2));
    assert_eq!(iter.advance(), Some(1));
    assert_eq!(iter.advance(), Some(2));
    assert_eq!(iter.advance(), Some(3));
    assert_eq!(iter.advance(), Some(4));
    assert_eq!(iter.advance(), Some(5));
    assert_eq!(iter.advance(), Some(6));
    assert_eq!(iter.advance(), Some(7));
    assert_eq!(iter.advance(), None);
}

#[test]
fn iter_iter_zip() {
    let a1 = vec![1, 2, 3];
    let a2 = vec![4, 3, 2, 1];
    let mut iter = Zip::new(VecSeq::new(a1), VecSeq::new(a2));
    assert_eq!(iter.advance(), Some((1, 4)));
    assert_eq!(iter.advance(), Some((2, 3)));
    assert_eq!(iter.advance(), Some((3, 2)));
    assert_eq!(iter.advance(), None);
}

#[test]
fn iter_map() {
    let a1 = vec![2, 4, 5, 6, 7];
    let mut iter = Mapped::new(VecSeq::new(a1), |x: i32| x * 3);
    assert_eq!(iter.advance(), Some(6));
    assert_eq!(iter.advance(), Some(12));
    assert_eq!(iter.advance(), Some(15));
    assert_eq!(iter.advance(), Some(18));
    assert_eq!(iter.advance(), Some(21));
}

#[test]
fn iter_filter() {
    let a = vec![1, 2, 3, 4, 5, 6];
    let mut iter = Filter::new(
        Enumerate::new(VecSeq::new(a.clone())),
        |&(_, x): &(usize, i32)| x % 2 == 0,
    );
    let mut seen = 0;
    while let Some((i, x)) = iter.advance() {
        assert_eq!(x, a[i]);
        seen += 1;
    }
    assert_eq!(seen, 3);
}

#[test]
fn iter_filter_map() {
    let a = vec!["1", "lol", "3", "NaN", "5"];
    let mut iter = FilterMap::new(VecSeq::new(a), |s: &str| s.parse::<i32>().ok());
    assert_eq!(iter.advance(), Some(1));
    assert_eq!(iter.advance(), Some(3));
    assert_eq!(iter.advance(), Some(5));
    assert_eq!(iter.advance(), None);
}

#[test]
fn iter_peekable() {
    let a = vec![1, 2, 3, 4];
    let mut iter = Peekable::new(VecSeq::new(a));
    assert_eq!(iter.peek(), Some(&1));
    assert_eq!(iter.advance(), Some(1));
    assert_eq!(iter.advance(), Some(2));
    assert_eq!(iter.peek(), Some(&3));
}
