//! Adapters that carry a user function: mapping, filtering, conditional
//! skipping and taking, stateful scanning, and flat mapping.
//!
//! Every function value handed to these adapters must be pure (`pure1`,
//! `pure2`): one result for each input, whatever the call.
use vstd::prelude::*;
use crate::protocol::{Sequence, first_of, after_first, pure1, pure2, call1, call2, lemma_call1, lemma_call2};
use crate::adapters::{Flatten, flat_rests};

verus! {

/// `f` applied to each element of `s`.
pub open spec fn map_all<A, B, F: Fn(A) -> B>(s: Seq<A>, f: F) -> Seq<B> {
    Seq::new(s.len(), |i: int| call1(f, s[i]))
}

/// A source with a function applied to each element.
pub struct Mapped<S, F> {
    src: S,
    f: F,
}

impl<S: Sequence, B, F: Fn(S::Item) -> B> Mapped<S, F> {
    /// Applies `f` to each element of `src` as it is advanced.
    pub fn new(src: S, f: F) -> (r: Self)
        requires
            src.wf(),
            pure1(f),
        ensures
            r.wf(),
            r.rest() == map_all(src.rest(), f),
    {
        Mapped { src, f }
    }
}

impl<S: Sequence, B, F: Fn(S::Item) -> B> Sequence for Mapped<S, F> {
    type Item = B;

    closed spec fn wf(&self) -> bool {
        self.src.wf() && pure1(self.f)
    }

    closed spec fn rest(&self) -> Seq<B> {
        map_all(self.src.rest(), self.f)
    }

    fn advance(&mut self) -> (r: Option<B>) {
        let x = self.src.advance();
        match x {
            None => None,
            Some(x) => {
                let y = (self.f)(x);
                proof {
                    lemma_call1(self.f, x, y);
                    assert(self.rest() =~= old(self).rest().drop_first());
                }
                Some(y)
            },
        }
    }
}

/// The elements of `s` on which `p` holds, in order.
pub open spec fn kept<T, P: Fn(&T) -> bool>(s: Seq<T>, p: P) -> Seq<T>
    decreases s.len(),
{
    if s.len() == 0 {
        Seq::empty()
    } else if call1(p, &s[0]) {
        seq![s[0]] + kept(s.drop_first(), p)
    } else {
        kept(s.drop_first(), p)
    }
}

/// Advances `s` until an element satisfies `p`, and yields it; `None` when
/// `s` runs out first.
fn advance_until<S: Sequence, P: Fn(&S::Item) -> bool>(s: &mut S, p: &P) -> (r: Option<S::Item>)
    requires
        old(s).wf(),
        pure1(*p),
    ensures
        final(s).wf(),
        r == first_of(kept(old(s).rest(), *p)),
        kept(final(s).rest(), *p) == after_first(kept(old(s).rest(), *p)),
{
    loop
        invariant
            s.wf(),
            pure1(*p),
            kept(s.rest(), *p) == kept(old(s).rest(), *p),
        decreases s.rest().len(),
    {
        let x = s.advance();
        match x {
            None => {
                return None;
            },
            Some(x) => {
                let b = p(&x);
                proof {
                    lemma_call1(*p, &x, b);
                }
                if b {
                    return Some(x);
                }
            },
        }
    }
}

/// The elements of a source on which a predicate holds.
pub struct Filter<S, P> {
    src: S,
    p: P,
}

impl<S: Sequence, P: Fn(&S::Item) -> bool> Filter<S, P> {
    /// Keeps the elements of `src` on which `p` holds.
    pub fn new(src: S, p: P) -> (r: Self)
        requires
            src.wf(),
            pure1(p),
        ensures
            r.wf(),
            r.rest() == kept(src.rest(), p),
    {
        Filter { src, p }
    }
}

impl<S: Sequence, P: Fn(&S::Item) -> bool> Sequence for Filter<S, P> {
    type Item = S::Item;

    closed spec fn wf(&self) -> bool {
        self.src.wf() && pure1(self.p)
    }

    closed spec fn rest(&self) -> Seq<S::Item> {
        kept(self.src.rest(), self.p)
    }

    fn advance(&mut self) -> (r: Option<S::Item>) {
        advance_until(&mut self.src, &self.p)
    }
}

/// The present results of `f` on the elements of `s`, in order.
pub open spec fn kept_some<A, B, F: Fn(A) -> Option<B>>(s: Seq<A>, f: F) -> Seq<B>
    decreases s.len(),
{
    if s.len() == 0 {
        Seq::empty()
    } else {
        match call1(f, s[0]) {
            Some(y) => seq![y] + kept_some(s.drop_first(), f),
            None => kept_some(s.drop_first(), f),
        }
    }
}

/// Advances `s` until `f` gives a present result on an element, and yields
/// that result; `None` when `s` runs out first. Shared by `FilterMap` and
/// `find_map`.
pub(crate) fn advance_until_some<S: Sequence, B, F: Fn(S::Item) -> Option<B>>(s: &mut S, f: &F) -> (r: Option<B>)
    requires
        old(s).wf(),
        pure1(*f),
    ensures
        final(s).wf(),
        r == first_of(kept_some(old(s).rest(), *f)),
        kept_some(final(s).rest(), *f) == after_first(kept_some(old(s).rest(), *f)),
{
    loop
        invariant
            s.wf(),
            pure1(*f),
            kept_some(s.rest(), *f) == kept_some(old(s).rest(), *f),
        decreases s.rest().len(),
    {
        let x = s.advance();
        match x {
            None => {
                return None;
            },
            Some(x) => {
                let y = f(x);
                proof {
                    lemma_call1(*f, x, y);
                }
                if y.is_some() {
                    return y;
                }
            },
        }
    }
}

/// The present results of a function on the elements of a source.
pub struct FilterMap<S, F> {
    src: S,
    f: F,
}

impl<S: Sequence, B, F: Fn(S::Item) -> Option<B>> FilterMap<S, F> {
    /// Yields the present results of `f` on the elements of `src`.
    pub fn new(src: S, f: F) -> (r: Self)
        requires
            src.wf(),
            pure1(f),
        ensures
            r.wf(),
            r.rest() == kept_some(src.rest(), f),
    {
        FilterMap { src, f }
    }
}

impl<S: Sequence, B, F: Fn(S::Item) -> Option<B>> Sequence for FilterMap<S, F> {
    type Item = B;

    closed spec fn wf(&self) -> bool {
        self.src.wf() && pure1(self.f)
    }

    closed spec fn rest(&self) -> Seq<B> {
        kept_some(self.src.rest(), self.f)
    }

    fn advance(&mut self) -> (r: Option<B>) {
        advance_until_some(&mut self.src, &self.f)
    }
}

/// `s` from its first element on which `p` fails.
pub open spec fn dropped_while<T, P: Fn(&T) -> bool>(s: Seq<T>, p: P) -> Seq<T>
    decreases s.len(),
{
    if s.len() == 0 {
        s
    } else if call1(p, &s[0]) {
        dropped_while(s.drop_first(), p)
    } else {
        s
    }
}

/// The leading elements of `s` on which `p` holds.
pub open spec fn taken_while<T, P: Fn(&T) -> bool>(s: Seq<T>, p: P) -> Seq<T>
    decreases s.len(),
{
    if s.len() == 0 {
        s
    } else if call1(p, &s[0]) {
        seq![s[0]] + taken_while(s.drop_first(), p)
    } else {
        Seq::empty()
    }
}

/// A source with its leading elements that satisfy a predicate discarded;
/// after the first element that fails it, everything passes through.
pub struct SkipWhile<S, P> {
    src: S,
    p: P,
    done: bool,
}

impl<S: Sequence, P: Fn(&S::Item) -> bool> SkipWhile<S, P> {
    /// Discards the leading elements of `src` on which `p` holds.
    pub fn new(src: S, p: P) -> (r: Self)
        requires
            src.wf(),
            pure1(p),
        ensures
            r.wf(),
            r.rest() == dropped_while(src.rest(), p),
    {
        SkipWhile { src, p, done: false }
    }
}

impl<S: Sequence, P: Fn(&S::Item) -> bool> Sequence for SkipWhile<S, P> {
    type Item = S::Item;

    closed spec fn wf(&self) -> bool {
        self.src.wf() && pure1(self.p)
    }

    closed spec fn rest(&self) -> Seq<S::Item> {
        if self.done {
            self.src.rest()
        } else {
            dropped_while(self.src.rest(), self.p)
        }
    }

    fn advance(&mut self) -> (r: Option<S::Item>) {
        if self.done {
            return self.src.advance();
        }
        let ghost total = old(self).rest();
        loop
            invariant
                self.wf(),
                !self.done,
                dropped_while(self.src.rest(), self.p) == total,
                total == old(self).rest(),
            decreases self.src.rest().len(),
        {
            let x = self.src.advance();
            match x {
                None => {
                    return None;
                },
                Some(x) => {
                    let b = (self.p)(&x);
                    proof {
                        lemma_call1(self.p, &x, b);
                    }
                    if !b {
                        self.done = true;
                        return Some(x);
                    }
                },
            }
        }
    }
}

/// The leading elements of a source that satisfy a predicate; the first
/// element that fails it is consumed and the adapter ends for good.
pub struct TakeWhile<S, P> {
    src: S,
    p: P,
    done: bool,
}

impl<S: Sequence, P: Fn(&S::Item) -> bool> TakeWhile<S, P> {
    /// Yields the leading elements of `src` on which `p` holds.
    pub fn new(src: S, p: P) -> (r: Self)
        requires
            src.wf(),
            pure1(p),
        ensures
            r.wf(),
            r.rest() == taken_while(src.rest(), p),
    {
        TakeWhile { src, p, done: false }
    }
}

impl<S: Sequence, P: Fn(&S::Item) -> bool> Sequence for TakeWhile<S, P> {
    type Item = S::Item;

    closed spec fn wf(&self) -> bool {
        self.src.wf() && pure1(self.p)
    }

    closed spec fn rest(&self) -> Seq<S::Item> {
        if self.done {
            Seq::empty()
        } else {
            taken_while(self.src.rest(), self.p)
        }
    }

    fn advance(&mut self) -> (r: Option<S::Item>) {
        if self.done {
            return None;
        }
        let x = self.src.advance();
        match x {
            None => None,
            Some(x) => {
                let b = (self.p)(&x);
                proof {
                    lemma_call1(self.p, &x, b);
                }
                if b {
                    Some(x)
                } else {
                    self.done = true;
                    None
                }
            },
        }
    }
}

/// The outputs of a scan over `s` from accumulator `st`: `f` maps the
/// accumulator and an element to the next accumulator and an optional
/// output; the first absent output ends the scan.
pub open spec fn scanned<St, A, B, F: Fn(St, A) -> (St, Option<B>)>(s: Seq<A>, st: St, f: F) -> Seq<B>
    decreases s.len(),
{
    if s.len() == 0 {
        Seq::empty()
    } else {
        let (st2, out) = call2(f, st, s[0]);
        match out {
            Some(y) => seq![y] + scanned(s.drop_first(), st2, f),
            None => Seq::empty(),
        }
    }
}

/// A source threaded through an accumulator; ends for good at the first
/// absent output.
pub struct Scan<S, St, F> {
    src: S,
    state: Option<St>,
    f: F,
}

impl<S: Sequence, St, B, F: Fn(St, S::Item) -> (St, Option<B>)> Scan<S, St, F> {
    /// Scans `src` with `f`, starting from the accumulator `init`.
    pub fn new(src: S, init: St, f: F) -> (r: Self)
        requires
            src.wf(),
            pure2(f),
        ensures
            r.wf(),
            r.rest() == scanned(src.rest(), init, f),
    {
        Scan { src, state: Some(init), f }
    }
}

impl<S: Sequence, St, B, F: Fn(St, S::Item) -> (St, Option<B>)> Sequence for Scan<S, St, F> {
    type Item = B;

    closed spec fn wf(&self) -> bool {
        self.src.wf() && pure2(self.f)
    }

    closed spec fn rest(&self) -> Seq<B> {
        match self.state {
            Some(st) => scanned(self.src.rest(), st, self.f),
            None => Seq::empty(),
        }
    }

    fn advance(&mut self) -> (r: Option<B>) {
        let st = self.state.take();
        match st {
            None => None,
            Some(st) => {
                let x = self.src.advance();
                match x {
                    None => {
                        self.state = Some(st);
                        None
                    },
                    Some(x) => {
                        let (st2, out) = (self.f)(st, x);
                        proof {
                            lemma_call2(self.f, st, x, (st2, out));
                        }
                        match out {
                            Some(y) => {
                                self.state = Some(st2);
                                Some(y)
                            },
                            None => None,
                        }
                    },
                }
            },
        }
    }
}

/// Whether every result of `f` is a well-formed sequence, and `f` has a
/// result on every input.
pub open spec fn yields_sequences<A, I: Sequence, F: Fn(A) -> I>(f: F) -> bool {
    &&& forall|a: A, i: I| #[trigger] f.ensures((a,), i) ==> i.wf()
    &&& forall|a: A| #[trigger] f.requires((a,)) ==> exists|i: I| f.ensures((a,), i)
}

/// Maps each element of `src` to an inner sequence with `f` and yields the
/// inner sequences' elements in turn.
pub fn flat_map<S: Sequence, I: Sequence, F: Fn(S::Item) -> I>(src: S, f: F) -> (r: Flatten<Mapped<S, F>, I>)
    requires
        src.wf(),
        pure1(f),
        yields_sequences(f),
    ensures
        r.wf(),
        r.rest() == flat_rests(map_all(src.rest(), f)),
{
    let m = Mapped::new(src, f);
    assert forall|i: int| 0 <= i < m.rest().len() implies #[trigger] m.rest()[i].wf() by {
        let a = src.rest()[i];
        assert(f.requires((a,)));
        let b = choose|b: I| f.ensures((a,), b);
        assert(f.ensures((a,), b));
    }
    Flatten::new(m)
}

} // verus!
