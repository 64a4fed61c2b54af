//! The core sequence protocol and the spec-level helpers used to talk about
//! the functions that adapters and reducers carry.
use vstd::prelude::*;

verus! {

/// A stateful producer of elements, pulled one at a time.
///
/// The abstract state of a sequence is `rest()`: the elements it will still
/// yield, in order. `advance` hands out the first of them, or the end marker
/// (`None`) once none are left; an exhausted sequence stays exhausted.
pub trait Sequence: Sized {
    type Item;

    /// Internal consistency of the sequence's state.
    spec fn wf(&self) -> bool;

    /// The elements still to be yielded, front first.
    spec fn rest(&self) -> Seq<Self::Item>;

    /// Yields the next element, or `None` when the sequence is exhausted.
    fn advance(&mut self) -> (r: Option<Self::Item>)
        requires
            old(self).wf(),
        ensures
            final(self).wf(),
            r == first_of(old(self).rest()),
            final(self).rest() == after_first(old(self).rest()),
    ;
}

/// A sequence that can also be advanced from its back end.
pub trait DoubleEnded: Sequence {
    /// Yields the last remaining element, or `None` when exhausted.
    fn advance_back(&mut self) -> (r: Option<Self::Item>)
        requires
            old(self).wf(),
        ensures
            final(self).wf(),
            r == last_of(old(self).rest()),
            final(self).rest() == before_last(old(self).rest()),
    ;
}

/// The first element of `s`, if any.
pub open spec fn first_of<T>(s: Seq<T>) -> Option<T> {
    if s.len() == 0 {
        None
    } else {
        Some(s[0])
    }
}

/// `s` without its first element (empty stays empty).
pub open spec fn after_first<T>(s: Seq<T>) -> Seq<T> {
    if s.len() == 0 {
        s
    } else {
        s.drop_first()
    }
}

/// The last element of `s`, if any.
pub open spec fn last_of<T>(s: Seq<T>) -> Option<T> {
    if s.len() == 0 {
        None
    } else {
        Some(s.last())
    }
}

/// `s` without its last element (empty stays empty).
pub open spec fn before_last<T>(s: Seq<T>) -> Seq<T> {
    if s.len() == 0 {
        s
    } else {
        s.drop_last()
    }
}

/// A one-argument function value that can be called on every input and
/// gives one result for each input (it is pure with respect to its input).
pub open spec fn pure1<A, B, F: Fn(A) -> B>(f: F) -> bool {
    &&& forall|a: A| #[trigger] f.requires((a,))
    &&& forall|a: A, b1: B, b2: B| f.ensures((a,), b1) && f.ensures((a,), b2) ==> b1 == b2
}

/// A two-argument function value that can be called on every input and
/// gives one result for each input.
pub open spec fn pure2<A, B, C, F: Fn(A, B) -> C>(f: F) -> bool {
    &&& forall|a: A, b: B| #[trigger] f.requires((a, b))
    &&& forall|a: A, b: B, c1: C, c2: C| f.ensures((a, b), c1) && f.ensures((a, b), c2) ==> c1 == c2
}

/// The result of a pure one-argument function value on `a`.
pub open spec fn call1<A, B, F: Fn(A) -> B>(f: F, a: A) -> B {
    choose|b: B| f.ensures((a,), b)
}

/// The result of a pure two-argument function value on `a` and `b`.
pub open spec fn call2<A, B, C, F: Fn(A, B) -> C>(f: F, a: A, b: B) -> C {
    choose|c: C| f.ensures((a, b), c)
}

/// What a call of a pure function value returned is what `call1` names.
pub proof fn lemma_call1<A, B, F: Fn(A) -> B>(f: F, a: A, b: B)
    requires
        pure1(f),
        f.ensures((a,), b),
    ensures
        call1(f, a) == b,
{
}

/// What a call of a pure function value returned is what `call2` names.
pub proof fn lemma_call2<A, B, C, F: Fn(A, B) -> C>(f: F, a: A, b: B, c: C)
    requires
        pure2(f),
        f.ensures((a, b), c),
    ensures
        call2(f, a, b) == c,
{
}

} // verus!
