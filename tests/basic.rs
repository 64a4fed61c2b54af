use lazy_seq::adapters::{Chain, StepBy, Zip};
use lazy_seq::producers::VecSeq;
use lazy_seq::protocol::Sequence;
use lazy_seq::reducers::{count, last, nth};

#[test]
fn basic_iter_count() {
    let vec = vec![1, 2, 3];
    assert_eq!(count(VecSeq::new(vec)), 3);
}

#[test]
fn basic_iter_last() {
    let vec = vec![1, 2, 3];
    assert_eq!(last(VecSeq::new(vec.clone())), Some(3));
    assert_eq!(last(VecSeq::new(vec)), Some(3));
}

#[test]
fn basic_nth_iter() {
    let vec = vec![3, 4, 5, 6];
    let mut iter = VecSeq::new(vec);
    assert_eq!(nth(&mut iter, 1), Some(4));
    assert_eq!(nth(&mut iter, 1), Some(6));
    assert_eq!(nth(&mut iter, 1), None);
}

#[test]
fn basic_iter_step_by() {
    let vec = vec![1, 2, 3, 4, 5, 6, 7];
    let mut iter = StepBy::new(VecSeq::new(vec), 2).unwrap();
    assert_eq!(iter.advance(), Some(1));
    assert_eq!(iter.advance(), Some(3));
    assert_eq!(iter.advance(), Some(5));
    assert_eq!(iter.advance(), Some(7));
    assert_eq!(iter.advance(), None);
}

#[test]
fn basic_iter_chain() {
    let vec1 = vec![1, 2, 3, 4];
    let vec2 = vec![5, 6, 7];
    let mut iter = Chain::new(VecSeq::new(vec1), VecSeq::new(vec2));
    assert_eq!(iter.advance(), Some(1));
    assert_eq!(iter.advance(), Some(2));
    assert_eq!(iter.advance(), Some(3));
    assert_eq!(iter.advance(), Some(4));
    assert_eq!(iter.advance(), Some(5));
    assert_eq!(iter.advance(), Some(6));
    assert_eq!(iter.advance(), Some(7));
    assert_eq!(iter.advance(), None);
}

#[test]
fn basic_iter_zip() {
    let a1 = vec![1, 2, 3];
    let a2 = vec![4, 3, 2, 1];
    let mut iter = Zip::new(VecSeq::new(a1), VecSeq::new(a2));
    assert_eq!(iter.advance(), Some((1, 4)));
    assert_eq!(iter.advance(), Some((2, 3)));
    assert_eq!(iter.advance(), Some((3, 2)));
    assert_eq!(iter.advance(), None);
}
