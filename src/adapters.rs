//! Adapters that reshape a sequence without calling user functions: chaining,
//! pairing, windowing, striding, numbering, lookahead, reversal, flattening.
use vstd::prelude::*;
use crate::protocol::{Sequence, DoubleEnded, after_first};

verus! {

/// The elements of `a` followed by those of `b`.
pub struct Chain<A, B> {
    a: A,
    b: B,
    first_done: bool,
}

impl<A: Sequence, B: Sequence<Item = A::Item>> Chain<A, B> {
    /// Chains `a` and `b`: all of `a`'s elements, then all of `b`'s.
    pub fn new(a: A, b: B) -> (r: Self)
        requires
            a.wf(),
            b.wf(),
        ensures
            r.wf(),
            r.rest() == a.rest() + b.rest(),
    {
        Chain { a, b, first_done: false }
    }
}

impl<A: Sequence, B: Sequence<Item = A::Item>> Sequence for Chain<A, B> {
    type Item = A::Item;

    closed spec fn wf(&self) -> bool {
        self.a.wf() && self.b.wf()
    }

    closed spec fn rest(&self) -> Seq<A::Item> {
        if self.first_done {
            self.b.rest()
        } else {
            self.a.rest() + self.b.rest()
        }
    }

    fn advance(&mut self) -> (r: Option<A::Item>) {
        if !self.first_done {
            let x = self.a.advance();
            if x.is_some() {
                proof {
                    assert(after_first(old(self).rest()) =~= self.a.rest() + self.b.rest());
                }
                return x;
            }
            self.first_done = true;
            assert(old(self).rest() =~= self.b.rest());
        }
        self.b.advance()
    }
}

/// Pairs of co-positioned elements of two sequences, as many as the shorter
/// one has.
pub open spec fn zip_seqs<X, Y>(a: Seq<X>, b: Seq<Y>) -> Seq<(X, Y)> {
    let n = if a.len() <= b.len() { a.len() } else { b.len() };
    Seq::new(n, |i: int| (a[i], b[i]))
}

/// Two sequences advanced in lockstep.
pub struct Zip<A, B> {
    a: A,
    b: B,
}

impl<A: Sequence, B: Sequence> Zip<A, B> {
    /// Pairs the elements of `a` and `b`; ends when either ends.
    pub fn new(a: A, b: B) -> (r: Self)
        requires
            a.wf(),
            b.wf(),
        ensures
            r.wf(),
            r.rest() == zip_seqs(a.rest(), b.rest()),
    {
        Zip { a, b }
    }
}

impl<A: Sequence, B: Sequence> Sequence for Zip<A, B> {
    type Item = (A::Item, B::Item);

    closed spec fn wf(&self) -> bool {
        self.a.wf() && self.b.wf()
    }

    closed spec fn rest(&self) -> Seq<(A::Item, B::Item)> {
        zip_seqs(self.a.rest(), self.b.rest())
    }

    fn advance(&mut self) -> (r: Option<(A::Item, B::Item)>) {
        let x = self.a.advance();
        match x {
            None => None,
            Some(x) => {
                let y = self.b.advance();
                match y {
                    None => {
                        assert(self.rest() =~= old(self).rest());
                        None
                    },
                    Some(y) => {
                        assert(self.rest() =~= old(self).rest().drop_first());
                        Some((x, y))
                    },
                }
            },
        }
    }
}

/// The first `n` elements of `s` (all of them when it has fewer).
pub open spec fn prefix<T>(s: Seq<T>, n: nat) -> Seq<T> {
    if n >= s.len() {
        s
    } else {
        s.subrange(0, n as int)
    }
}

/// `s` without its first `n` elements (empty when it has fewer).
pub open spec fn suffix<T>(s: Seq<T>, n: nat) -> Seq<T> {
    if n >= s.len() {
        Seq::empty()
    } else {
        s.subrange(n as int, s.len() as int)
    }
}

/// At most the first `n` elements of a source.
pub struct Take<S> {
    src: S,
    n: usize,
}

impl<S: Sequence> Take<S> {
    /// Yields at most `n` elements of `src`, then only end markers.
    pub fn new(src: S, n: usize) -> (r: Self)
        requires
            src.wf(),
        ensures
            r.wf(),
            r.rest() == prefix(src.rest(), n as nat),
    {
        Take { src, n }
    }
}

impl<S: Sequence> Sequence for Take<S> {
    type Item = S::Item;

    closed spec fn wf(&self) -> bool {
        self.src.wf()
    }

    closed spec fn rest(&self) -> Seq<S::Item> {
        prefix(self.src.rest(), self.n as nat)
    }

    fn advance(&mut self) -> (r: Option<S::Item>) {
        if self.n == 0 {
            return None;
        }
        self.n = self.n - 1;
        let r = self.src.advance();
        assert(self.rest() =~= after_first(old(self).rest()));
        r
    }
}

/// A source with its first `n` elements discarded.
pub struct Skip<S> {
    src: S,
    n: usize,
}

impl<S: Sequence> Skip<S> {
    /// Discards the first `n` elements of `src` on the first advance, then
    /// passes the rest through.
    pub fn new(src: S, n: usize) -> (r: Self)
        requires
            src.wf(),
        ensures
            r.wf(),
            r.rest() == suffix(src.rest(), n as nat),
    {
        Skip { src, n }
    }
}

/// Advances `s` up to `n` times, discarding what comes out.
pub(crate) fn discard<S: Sequence>(s: &mut S, n: usize)
    requires
        old(s).wf(),
    ensures
        final(s).wf(),
        final(s).rest() == suffix(old(s).rest(), n as nat),
{
    let mut k: usize = 0;
    while k < n
        invariant
            k <= n,
            s.wf(),
            s.rest() == suffix(old(s).rest(), k as nat),
        decreases n - k,
    {
        s.advance();
        k = k + 1;
        assert(s.rest() =~= suffix(old(s).rest(), k as nat));
    }
}

impl<S: Sequence> Sequence for Skip<S> {
    type Item = S::Item;

    closed spec fn wf(&self) -> bool {
        self.src.wf()
    }

    closed spec fn rest(&self) -> Seq<S::Item> {
        suffix(self.src.rest(), self.n as nat)
    }

    fn advance(&mut self) -> (r: Option<S::Item>) {
        discard(&mut self.src, self.n);
        self.n = 0;
        assert(suffix(self.src.rest(), 0) =~= self.src.rest());
        self.src.advance()
    }
}

/// Every `step`-th element of `s`, after discarding its first `skip` ones:
/// `s[skip], s[skip + step], s[skip + 2 * step], ...`.
pub open spec fn strided<T>(s: Seq<T>, skip: nat, step: nat) -> Seq<T>
    decreases s.len(),
{
    if s.len() <= skip {
        Seq::empty()
    } else {
        seq![s[skip as int]] + strided(s.subrange((skip + 1) as int, s.len() as int), (step - 1) as nat, step)
    }
}

/// The first element of a source, then every `step`-th one after it.
pub struct StepBy<S> {
    src: S,
    step: usize,
    first_take: bool,
}

impl<S: Sequence> StepBy<S> {
    /// Strides over `src` by `step`; a stride of zero is refused (`None`).
    pub fn new(src: S, step: usize) -> (r: Option<Self>)
        requires
            src.wf(),
        ensures
            r is None <==> step == 0,
            r matches Some(t) ==> t.wf() && t.rest() == strided(src.rest(), 0, step as nat),
    {
        if step == 0 {
            None
        } else {
            Some(StepBy { src, step, first_take: true })
        }
    }
}

impl<S: Sequence> Sequence for StepBy<S> {
    type Item = S::Item;

    closed spec fn wf(&self) -> bool {
        self.src.wf() && self.step >= 1
    }

    closed spec fn rest(&self) -> Seq<S::Item> {
        if self.first_take {
            strided(self.src.rest(), 0, self.step as nat)
        } else {
            strided(self.src.rest(), (self.step - 1) as nat, self.step as nat)
        }
    }

    fn advance(&mut self) -> (r: Option<S::Item>) {
        let k: usize = if self.first_take { 0 } else { self.step - 1 };
        self.first_take = false;
        let ghost s0 = old(self).src.rest();
        discard(&mut self.src, k);
        let r = self.src.advance();
        proof {
            if s0.len() > k {
                assert(suffix(s0, k as nat)[0] == s0[k as int]);
                assert(after_first(suffix(s0, k as nat)) =~= s0.subrange(k + 1, s0.len() as int));
            }
        }
        r
    }
}

/// Each element of `s` paired with its position, counted from `start`.
pub open spec fn numbered<T>(s: Seq<T>, start: nat) -> Seq<(usize, T)> {
    Seq::new(s.len(), |i: int| ((start + i) as usize, s[i]))
}

/// Each element of a source paired with its zero-based position.
pub struct Enumerate<S> {
    src: S,
    index: usize,
}

impl<S: Sequence> Enumerate<S> {
    /// Numbers the elements of `src` from zero.
    pub fn new(src: S) -> (r: Self)
        requires
            src.wf(),
            src.rest().len() <= usize::MAX,
        ensures
            r.wf(),
            r.rest() == numbered(src.rest(), 0),
    {
        Enumerate { src, index: 0 }
    }
}

impl<S: Sequence> Sequence for Enumerate<S> {
    type Item = (usize, S::Item);

    closed spec fn wf(&self) -> bool {
        self.src.wf() && self.index + self.src.rest().len() <= usize::MAX
    }

    closed spec fn rest(&self) -> Seq<(usize, S::Item)> {
        numbered(self.src.rest(), self.index as nat)
    }

    fn advance(&mut self) -> (r: Option<(usize, S::Item)>) {
        let x = self.src.advance();
        match x {
            None => None,
            Some(x) => {
                let i = self.index;
                self.index = self.index + 1;
                assert(self.rest() =~= old(self).rest().drop_first());
                Some((i, x))
            },
        }
    }
}

/// A source with a buffer of at most one element of lookahead.
pub struct Peekable<S: Sequence> {
    src: S,
    peeked: Option<S::Item>,
}

impl<S: Sequence> Peekable<S> {
    /// Wraps `src` with an empty lookahead buffer.
    pub fn new(src: S) -> (r: Self)
        requires
            src.wf(),
        ensures
            r.wf(),
            r.rest() == src.rest(),
    {
        Peekable { src, peeked: None }
    }

    /// The next element, without consuming it: a later `advance` yields it.
    pub fn peek(&mut self) -> (r: Option<&S::Item>)
        requires
            old(self).wf(),
        ensures
            final(self).wf(),
            final(self).rest() == old(self).rest(),
            r is None <==> old(self).rest().len() == 0,
            r matches Some(x) ==> *x == old(self).rest()[0],
    {
        if self.peeked.is_none() {
            self.peeked = self.src.advance();
        }
        self.peeked.as_ref()
    }
}

impl<S: Sequence> Sequence for Peekable<S> {
    type Item = S::Item;

    closed spec fn wf(&self) -> bool {
        self.src.wf()
    }

    closed spec fn rest(&self) -> Seq<S::Item> {
        match self.peeked {
            Some(x) => seq![x] + self.src.rest(),
            None => self.src.rest(),
        }
    }

    fn advance(&mut self) -> (r: Option<S::Item>) {
        let p = self.peeked.take();
        match p {
            Some(x) => {
                assert(self.rest() =~= old(self).rest().drop_first());
                Some(x)
            },
            None => self.src.advance(),
        }
    }
}

/// The elements of a double-ended source, back to front.
pub struct Rev<S> {
    src: S,
}

impl<S: DoubleEnded> Rev<S> {
    /// Reverses `src`.
    pub fn new(src: S) -> (r: Self)
        requires
            src.wf(),
        ensures
            r.wf(),
            r.rest() == src.rest().reverse(),
    {
        Rev { src }
    }
}

impl<S: DoubleEnded> Sequence for Rev<S> {
    type Item = S::Item;

    closed spec fn wf(&self) -> bool {
        self.src.wf()
    }

    closed spec fn rest(&self) -> Seq<S::Item> {
        self.src.rest().reverse()
    }

    fn advance(&mut self) -> (r: Option<S::Item>) {
        let ghost s0 = old(self).src.rest();
        let r = self.src.advance_back();
        proof {
            if s0.len() > 0 {
                assert(s0.reverse()[0] == s0.last());
                assert(s0.drop_last().reverse() =~= s0.reverse().drop_first());
            }
        }
        r
    }
}

impl<S: DoubleEnded> DoubleEnded for Rev<S> {
    fn advance_back(&mut self) -> (r: Option<S::Item>) {
        let ghost s0 = old(self).src.rest();
        let r = self.src.advance();
        proof {
            if s0.len() > 0 {
                assert(s0.reverse().last() == s0[0]);
                assert(s0.drop_first().reverse() =~= s0.reverse().drop_last());
            }
        }
        r
    }
}

/// The elements of the inner sequences of `s`, one inner sequence after
/// another.
pub open spec fn flat_rests<I: Sequence>(s: Seq<I>) -> Seq<I::Item>
    decreases s.len(),
{
    if s.len() == 0 {
        Seq::empty()
    } else {
        s[0].rest() + flat_rests(s.drop_first())
    }
}

/// Whether every sequence in `s` is well formed.
pub open spec fn all_wf<I: Sequence>(s: Seq<I>) -> bool {
    forall|i: int| 0 <= i < s.len() ==> #[trigger] s[i].wf()
}

/// The elements of a sequence of sequences, inner sequences drained in turn.
pub struct Flatten<O, I> {
    outer: O,
    front: Option<I>,
}

impl<I: Sequence, O: Sequence<Item = I>> Flatten<O, I> {
    /// Flattens `outer`.
    pub fn new(outer: O) -> (r: Self)
        requires
            outer.wf(),
            all_wf(outer.rest()),
        ensures
            r.wf(),
            r.rest() == flat_rests(outer.rest()),
    {
        Flatten { outer, front: None }
    }
}

impl<I: Sequence, O: Sequence<Item = I>> Sequence for Flatten<O, I> {
    type Item = I::Item;

    closed spec fn wf(&self) -> bool {
        &&& self.outer.wf()
        &&& all_wf(self.outer.rest())
        &&& self.front matches Some(f) ==> f.wf()
    }

    closed spec fn rest(&self) -> Seq<I::Item> {
        match self.front {
            Some(f) => f.rest() + flat_rests(self.outer.rest()),
            None => flat_rests(self.outer.rest()),
        }
    }

    fn advance(&mut self) -> (r: Option<I::Item>) {
        let ghost total = old(self).rest();
        loop
            invariant
                self.wf(),
                self.rest() == total,
                total == old(self).rest(),
            decreases self.outer.rest().len(),
        {
            let f = self.front.take();
            match f {
                Some(mut inner) => {
                    let ghost ir = inner.rest();
                    let x = inner.advance();
                    match x {
                        Some(x) => {
                            assert(total[0] == ir[0]);
                            self.front = Some(inner);
                            assert(self.rest() =~= total.drop_first());
                            return Some(x);
                        },
                        None => {
                            assert(total =~= flat_rests(self.outer.rest()));
                        },
                    }
                },
                None => {},
            }
            let ghost o = self.outer.rest();
            let next = self.outer.advance();
            match next {
                None => {
                    assert(total.len() == 0);
                    assert(self.rest() =~= total);
                    return None;
                },
                Some(inner) => {
                    assert(o[0] == inner);
                    assert(self.outer.rest() == o.drop_first());
                    self.front = Some(inner);
                },
            }
        }
    }
}

} // verus!
