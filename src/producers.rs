//! Producers: sequences with no upstream source.
use vstd::prelude::*;
use std::collections::VecDeque;
use vstd::arithmetic::div_mod::{lemma_mod_self_0, lemma_small_mod};
use crate::protocol::{Sequence, DoubleEnded};

verus! {

/// A sequence over an owned buffer of elements, advanced from either end.
pub struct VecSeq<T> {
    items: VecDeque<T>,
}

impl<T> VecSeq<T> {
    /// A sequence yielding the elements of `v` in order.
    pub fn new(v: Vec<T>) -> (r: Self)
        ensures
            r.wf(),
            r.rest() == v@,
    {
        let mut v = v;
        let ghost orig = v@;
        let mut items: VecDeque<T> = VecDeque::new();
        while v.len() > 0
            invariant
                v@ + items@ == orig,
            decreases v.len(),
        {
            let x = v.pop().unwrap();
            items.push_front(x);
            assert(v@ + items@ =~= orig);
        }
        assert(items@ =~= orig);
        VecSeq { items }
    }

    /// Number of elements still to be yielded.
    pub fn remaining(&self) -> (r: usize)
        ensures
            r == self.rest().len(),
    {
        self.items.len()
    }
}

impl<T> Sequence for VecSeq<T> {
    type Item = T;

    closed spec fn wf(&self) -> bool {
        true
    }

    closed spec fn rest(&self) -> Seq<T> {
        self.items@
    }

    fn advance(&mut self) -> (r: Option<T>) {
        let r = self.items.pop_front();
        proof {
            if old(self).items@.len() > 0 {
                assert(self.items@ =~= old(self).items@.drop_first());
            }
        }
        r
    }
}

impl<T> DoubleEnded for VecSeq<T> {
    fn advance_back(&mut self) -> (r: Option<T>) {
        let r = self.items.pop_back();
        proof {
            if old(self).items@.len() > 0 {
                assert(self.items@ =~= old(self).items@.drop_last());
            }
        }
        r
    }
}

/// The exclusive upper bound of the values a `Counter` yields.
pub const COUNTER_END: usize = 6;

/// A bounded counter: starts at 0; each advance first increments it, then
/// yields it while it is below `COUNTER_END`. The counter keeps increasing
/// past the bound (up to `usize::MAX`), so once exhausted it stays exhausted.
pub struct Counter {
    count: usize,
}

/// The values a counter standing at `count` still yields.
pub open spec fn counter_rest(count: nat) -> Seq<usize> {
    if count + 1 < COUNTER_END {
        Seq::new((COUNTER_END - 1 - count) as nat, |i: int| (count + 1 + i) as usize)
    } else {
        Seq::empty()
    }
}

impl Counter {
    /// A counter standing at zero.
    pub fn new() -> (r: Counter)
        ensures
            r.value() == 0,
            r.wf(),
            r.rest() == counter_rest(0),
    {
        Counter { count: 0 }
    }

    /// The value the counter stands at.
    pub closed spec fn value(&self) -> nat {
        self.count as nat
    }

    /// The value the counter stands at.
    pub fn count(&self) -> (r: usize)
        ensures
            r == self.value(),
    {
        self.count
    }
}

impl Sequence for Counter {
    type Item = usize;

    closed spec fn wf(&self) -> bool {
        true
    }

    closed spec fn rest(&self) -> Seq<usize> {
        counter_rest(self.count as nat)
    }

    fn advance(&mut self) -> (r: Option<usize>) {
        if self.count < usize::MAX {
            self.count = self.count + 1;
        }
        proof {
            let o = old(self).count as nat;
            if o + 1 < COUNTER_END {
                assert(counter_rest(self.count as nat) =~= counter_rest(o).drop_first());
            }
        }
        if self.count < COUNTER_END {
            Some(self.count)
        } else {
            None
        }
    }
}

/// Repeats the elements of a buffer endlessly; an empty buffer yields only
/// end markers.
pub struct Cycle<T> {
    items: Vec<T>,
    pos: usize,
}

impl<T: Copy> Cycle<T> {
    /// A cycle over `v`, starting at its first element.
    pub fn new(v: Vec<T>) -> (r: Self)
        ensures
            r.wf(),
            r.items() == v@,
            r.position() == 0,
    {
        Cycle { items: v, pos: 0 }
    }

    /// The elements repeated.
    pub closed spec fn items(&self) -> Seq<T> {
        self.items@
    }

    /// Index in `items()` of the element the next advance yields.
    pub closed spec fn position(&self) -> nat {
        self.pos as nat
    }

    pub closed spec fn wf(&self) -> bool {
        self.items@.len() == 0 || self.pos < self.items@.len()
    }

    /// Yields the element at the current position and moves to the next one,
    /// wrapping round to the start; `None` only for an empty buffer.
    pub fn advance(&mut self) -> (r: Option<T>)
        requires
            old(self).wf(),
        ensures
            final(self).wf(),
            final(self).items() == old(self).items(),
            old(self).items().len() == 0 ==> r is None,
            old(self).items().len() > 0 ==> r == Some(old(self).items()[old(self).position() as int])
                && final(self).position() == (old(self).position() + 1) % old(self).items().len(),
    {
        if self.items.len() == 0 {
            None
        } else {
            let x = self.items[self.pos];
            if self.pos + 1 == self.items.len() {
                proof {
                    lemma_mod_self_0(self.items@.len() as int);
                }
                self.pos = 0;
            } else {
                proof {
                    lemma_small_mod((self.pos + 1) as nat, self.items@.len());
                }
                self.pos = self.pos + 1;
            }
            Some(x)
        }
    }
}

} // verus!
