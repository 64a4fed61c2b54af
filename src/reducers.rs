//! Terminal reducers: operations that drive a sequence, fully or up to a
//! deciding element, to a final value.
use vstd::prelude::*;
use crate::protocol::{Sequence, first_of, after_first, last_of, pure1, pure2, call1, call2, lemma_call1, lemma_call2};
use crate::adapters::{discard, suffix};
use crate::transforms::{kept, kept_some, advance_until_some};

verus! {

/// Number of elements `s` yields before its end marker.
pub fn count<S: Sequence>(src: S) -> (r: usize)
    requires
        src.wf(),
        src.rest().len() <= usize::MAX,
    ensures
        r == src.rest().len(),
{
    let mut s = src;
    let ghost total = s.rest();
    let mut n: usize = 0;
    while n < usize::MAX && s.advance().is_some()
        invariant
            s.wf(),
            n + s.rest().len() == total.len(),
            total.len() <= usize::MAX,
        decreases s.rest().len(),
    {
        n = n + 1;
    }
    n
}

/// The final element `s` yields, if any.
pub fn last<S: Sequence>(src: S) -> (r: Option<S::Item>)
    requires
        src.wf(),
    ensures
        r == last_of(src.rest()),
{
    let mut s = src;
    let ghost total = s.rest();
    let mut best: Option<S::Item> = None;
    loop
        invariant
            s.wf(),
            total == src.rest(),
            s.rest().len() <= total.len(),
            s.rest() == total.subrange(total.len() - s.rest().len(), total.len() as int),
            best == last_of(total.subrange(0, total.len() - s.rest().len())),
        decreases s.rest().len(),
    {
        let ghost before = s.rest();
        let x = s.advance();
        match x {
            None => {
                assert(total.subrange(0, total.len() as int) =~= total);
                return best;
            },
            Some(x) => {
                let ghost k = total.len() - before.len();
                assert(total[k] == before[0]);
                assert(s.rest() =~= total.subrange(k + 1, total.len() as int));
                best = Some(x);
            },
        }
    }
}

/// The element `k` positions ahead, consuming it and everything before it;
/// `None` when `s` runs out first. Repeated calls continue where the last
/// one stopped.
pub fn nth<S: Sequence>(s: &mut S, k: usize) -> (r: Option<S::Item>)
    requires
        old(s).wf(),
    ensures
        final(s).wf(),
        r == (if k < old(s).rest().len() { Some(old(s).rest()[k as int]) } else { None::<S::Item> }),
        final(s).rest() == suffix(old(s).rest(), k as nat + 1),
{
    discard(s, k);
    let r = s.advance();
    proof {
        let t = old(s).rest();
        if k < t.len() {
            assert(suffix(t, k as nat)[0] == t[k as int]);
            assert(suffix(t, k as nat).drop_first() =~= suffix(t, k as nat + 1));
        }
    }
    r
}

/// The left fold of `s` from `acc` with `f`: `f(... f(f(acc, s[0]), s[1]) ..., s[n-1])`.
pub open spec fn folded<A, T, F: Fn(A, T) -> A>(s: Seq<T>, acc: A, f: F) -> A
    decreases s.len(),
{
    if s.len() == 0 {
        acc
    } else {
        folded(s.drop_first(), call2(f, acc, s[0]), f)
    }
}

/// Folds every element of `s` into `init` with `f`, left to right.
pub fn fold<S: Sequence, A, F: Fn(A, S::Item) -> A>(src: S, init: A, f: F) -> (r: A)
    requires
        src.wf(),
        pure2(f),
    ensures
        r == folded(src.rest(), init, f),
{
    let mut s = src;
    let ghost total = s.rest();
    let mut acc = init;
    loop
        invariant
            s.wf(),
            pure2(f),
            total == src.rest(),
            folded(s.rest(), acc, f) == folded(total, init, f),
        decreases s.rest().len(),
    {
        let x = s.advance();
        match x {
            None => {
                return acc;
            },
            Some(x) => {
                let ghost a0 = acc;
                acc = f(acc, x);
                proof {
                    lemma_call2(f, a0, x, acc);
                }
            },
        }
    }
}

/// The outcome of a fold of `s` from `acc` with a step `f` that may fail:
/// `None` at the first failing step, else the final accumulator.
pub open spec fn try_folded<A, T, F: Fn(A, T) -> Option<A>>(s: Seq<T>, acc: A, f: F) -> Option<A>
    decreases s.len(),
{
    if s.len() == 0 {
        Some(acc)
    } else {
        match call2(f, acc, s[0]) {
            None => None,
            Some(a) => try_folded(s.drop_first(), a, f),
        }
    }
}

/// How many elements of `s` a fold with a failing step consumes: up to and
/// including the one whose step fails, or all of them.
pub open spec fn try_fold_used<A, T, F: Fn(A, T) -> Option<A>>(s: Seq<T>, acc: A, f: F) -> nat
    decreases s.len(),
{
    if s.len() == 0 {
        0
    } else {
        match call2(f, acc, s[0]) {
            None => 1,
            Some(a) => 1 + try_fold_used(s.drop_first(), a, f),
        }
    }
}

/// Folds `s` into `init` with `f` until a step fails; stops right after the
/// failing element, leaving the rest of `s` to be advanced.
pub fn try_fold<S: Sequence, A, F: Fn(A, S::Item) -> Option<A>>(s: &mut S, init: A, f: F) -> (r: Option<A>)
    requires
        old(s).wf(),
        pure2(f),
    ensures
        final(s).wf(),
        r == try_folded(old(s).rest(), init, f),
        final(s).rest() == suffix(old(s).rest(), try_fold_used(old(s).rest(), init, f)),
{
    let ghost total = s.rest();
    let mut acc = init;
    let ghost mut used: nat = 0;
    loop
        invariant
            s.wf(),
            pure2(f),
            total == old(s).rest(),
            used <= total.len(),
            s.rest() == suffix(total, used),
            try_folded(s.rest(), acc, f) == try_folded(total, init, f),
            used + try_fold_used(s.rest(), acc, f) == try_fold_used(total, init, f),
        decreases s.rest().len(),
    {
        let ghost before = s.rest();
        let x = s.advance();
        match x {
            None => {
                return Some(acc);
            },
            Some(x) => {
                let ghost a0 = acc;
                let step = f(acc, x);
                proof {
                    lemma_call2(f, a0, x, step);
                    used = used + 1;
                    assert(s.rest() =~= suffix(total, used));
                }
                match step {
                    None => {
                        return None;
                    },
                    Some(a) => {
                        acc = a;
                    },
                }
            },
        }
    }
}

/// The sum of `s` added to `acc` step by step, `None` as soon as a partial
/// sum leaves the range of `i32`.
pub open spec fn checked_sum(s: Seq<i32>, acc: i32) -> Option<i32>
    decreases s.len(),
{
    if s.len() == 0 {
        Some(acc)
    } else {
        match acc.checked_add(s[0]) {
            None => None,
            Some(a) => checked_sum(s.drop_first(), a),
        }
    }
}

/// The product of `s` multiplied into `acc` step by step, `None` as soon as
/// a partial product leaves the range of `u32`.
pub open spec fn checked_product(s: Seq<u32>, acc: u32) -> Option<u32>
    decreases s.len(),
{
    if s.len() == 0 {
        Some(acc)
    } else {
        match acc.checked_mul(s[0]) {
            None => None,
            Some(a) => checked_product(s.drop_first(), a),
        }
    }
}

/// The sum of the elements of `src`; `None` on overflow.
pub fn sum<S: Sequence<Item = i32>>(src: S) -> (r: Option<i32>)
    requires
        src.wf(),
    ensures
        r == checked_sum(src.rest(), 0),
{
    let mut s = src;
    let mut acc: i32 = 0;
    loop
        invariant
            s.wf(),
            checked_sum(s.rest(), acc) == checked_sum(src.rest(), 0),
        decreases s.rest().len(),
    {
        let x = s.advance();
        match x {
            None => {
                return Some(acc);
            },
            Some(x) => {
                match acc.checked_add(x) {
                    None => {
                        return None;
                    },
                    Some(a) => {
                        acc = a;
                    },
                }
            },
        }
    }
}

/// The product of the elements of `src`; `None` on overflow.
pub fn product<S: Sequence<Item = u32>>(src: S) -> (r: Option<u32>)
    requires
        src.wf(),
    ensures
        r == checked_product(src.rest(), 1),
{
    let mut s = src;
    let mut acc: u32 = 1;
    loop
        invariant
            s.wf(),
            checked_product(s.rest(), acc) == checked_product(src.rest(), 1),
        decreases s.rest().len(),
    {
        let x = s.advance();
        match x {
            None => {
                return Some(acc);
            },
            Some(x) => {
                match acc.checked_mul(x) {
                    None => {
                        return None;
                    },
                    Some(a) => {
                        acc = a;
                    },
                }
            },
        }
    }
}

/// Whether some element of `s` gives `want` under `p`.
pub open spec fn hit<T, P: Fn(&T) -> bool>(s: Seq<T>, p: P, want: bool) -> bool
    decreases s.len(),
{
    if s.len() == 0 {
        false
    } else if call1(p, &s[0]) == want {
        true
    } else {
        hit(s.drop_first(), p, want)
    }
}

/// How many elements of `s` a search for the first one that gives `want`
/// under `p` consumes: up to and including that element, or all of them.
pub open spec fn seek<T, P: Fn(&T) -> bool>(s: Seq<T>, p: P, want: bool) -> nat
    decreases s.len(),
{
    if s.len() == 0 {
        0
    } else if call1(p, &s[0]) == want {
        1
    } else {
        1 + seek(s.drop_first(), p, want)
    }
}

proof fn lemma_seek_bound<T, P: Fn(&T) -> bool>(s: Seq<T>, p: P, want: bool)
    ensures
        seek(s, p, want) <= s.len(),
        hit(s, p, want) ==> seek(s, p, want) >= 1,
    decreases s.len(),
{
    if s.len() > 0 {
        lemma_seek_bound(s.drop_first(), p, want);
    }
}

/// Advances `s` up to and including the first element that gives `want`
/// under `p`, and returns it.
fn advance_to<S: Sequence, P: Fn(&S::Item) -> bool>(s: &mut S, p: &P, want: bool) -> (r: Option<S::Item>)
    requires
        old(s).wf(),
        pure1(*p),
    ensures
        final(s).wf(),
        final(s).rest() == suffix(old(s).rest(), seek(old(s).rest(), *p, want)),
        r is Some <==> hit(old(s).rest(), *p, want),
        hit(old(s).rest(), *p, want) ==> 1 <= seek(old(s).rest(), *p, want) <= old(s).rest().len()
            && r == Some(old(s).rest()[seek(old(s).rest(), *p, want) - 1]),
{
    let ghost total = s.rest();
    let ghost mut used: nat = 0;
    proof {
        lemma_seek_bound(total, *p, want);
    }
    loop
        invariant
            s.wf(),
            pure1(*p),
            total == old(s).rest(),
            used <= total.len(),
            s.rest() == suffix(total, used),
            hit(total, *p, want) == hit(s.rest(), *p, want),
            seek(total, *p, want) == used + seek(s.rest(), *p, want),
            seek(s.rest(), *p, want) <= s.rest().len(),
        decreases s.rest().len(),
    {
        let ghost before = s.rest();
        let x = s.advance();
        match x {
            None => {
                return None;
            },
            Some(x) => {
                let b = p(&x);
                proof {
                    lemma_call1(*p, &x, b);
                    assert(total[used as int] == before[0]);
                    used = used + 1;
                    assert(s.rest() =~= suffix(total, used));
                    lemma_seek_bound(s.rest(), *p, want);
                }
                if b == want {
                    return Some(x);
                }
            },
        }
    }
}

/// Whether some element satisfies `p`; stops right after the first one that
/// does.
pub fn any<S: Sequence, P: Fn(&S::Item) -> bool>(s: &mut S, p: P) -> (r: bool)
    requires
        old(s).wf(),
        pure1(p),
    ensures
        final(s).wf(),
        r == hit(old(s).rest(), p, true),
        final(s).rest() == suffix(old(s).rest(), seek(old(s).rest(), p, true)),
{
    advance_to(s, &p, true).is_some()
}

/// Whether every element satisfies `p`; stops right after the first one that
/// does not.
pub fn all<S: Sequence, P: Fn(&S::Item) -> bool>(s: &mut S, p: P) -> (r: bool)
    requires
        old(s).wf(),
        pure1(p),
    ensures
        final(s).wf(),
        r == !hit(old(s).rest(), p, false),
        final(s).rest() == suffix(old(s).rest(), seek(old(s).rest(), p, false)),
{
    advance_to(s, &p, false).is_none()
}

/// The first element that satisfies `p`; stops right after it.
pub fn find<S: Sequence, P: Fn(&S::Item) -> bool>(s: &mut S, p: P) -> (r: Option<S::Item>)
    requires
        old(s).wf(),
        pure1(p),
    ensures
        final(s).wf(),
        r == (if hit(old(s).rest(), p, true) {
            Some(old(s).rest()[seek(old(s).rest(), p, true) - 1])
        } else {
            None::<S::Item>
        }),
        final(s).rest() == suffix(old(s).rest(), seek(old(s).rest(), p, true)),
{
    advance_to(s, &p, true)
}

/// The index, counted from the current position, of the first element that
/// satisfies `p`; stops right after it.
pub fn position<S: Sequence, P: Fn(&S::Item) -> bool>(s: &mut S, p: P) -> (r: Option<usize>)
    requires
        old(s).wf(),
        pure1(p),
        old(s).rest().len() <= usize::MAX,
    ensures
        final(s).wf(),
        r == (if hit(old(s).rest(), p, true) {
            Some((seek(old(s).rest(), p, true) - 1) as usize)
        } else {
            None::<usize>
        }),
        final(s).rest() == suffix(old(s).rest(), seek(old(s).rest(), p, true)),
{
    let ghost total = s.rest();
    let mut used: usize = 0;
    loop
        invariant
            s.wf(),
            pure1(p),
            total == old(s).rest(),
            total.len() <= usize::MAX,
            used <= total.len(),
            s.rest() == suffix(total, used as nat),
            hit(total, p, true) == hit(s.rest(), p, true),
            seek(total, p, true) == used + seek(s.rest(), p, true),
        decreases s.rest().len(),
    {
        let ghost before = s.rest();
        let x = s.advance();
        match x {
            None => {
                return None;
            },
            Some(x) => {
                let b = p(&x);
                proof {
                    lemma_call1(p, &x, b);
                }
                used = used + 1;
                assert(s.rest() =~= suffix(total, used as nat));
                if b {
                    return Some(used - 1);
                }
            },
        }
    }
}

/// The first present result of `f` on the elements of `s`; stops right
/// after the element that gave it.
pub fn find_map<S: Sequence, B, F: Fn(S::Item) -> Option<B>>(s: &mut S, f: F) -> (r: Option<B>)
    requires
        old(s).wf(),
        pure1(f),
    ensures
        final(s).wf(),
        r == first_of(kept_some(old(s).rest(), f)),
        kept_some(final(s).rest(), f) == after_first(kept_some(old(s).rest(), f)),
{
    advance_until_some(s, &f)
}

/// The elements of `s` on which `p` fails, in order.
pub open spec fn rejected<T, P: Fn(&T) -> bool>(s: Seq<T>, p: P) -> Seq<T>
    decreases s.len(),
{
    if s.len() == 0 {
        Seq::empty()
    } else if call1(p, &s[0]) {
        rejected(s.drop_first(), p)
    } else {
        seq![s[0]] + rejected(s.drop_first(), p)
    }
}

/// Splits the elements of `src` into those that satisfy `p` and those that
/// do not, each side in the order of `src`.
pub fn partition<S: Sequence, P: Fn(&S::Item) -> bool>(src: S, p: P) -> (r: (Vec<S::Item>, Vec<S::Item>))
    requires
        src.wf(),
        pure1(p),
    ensures
        r.0@ == kept(src.rest(), p),
        r.1@ == rejected(src.rest(), p),
{
    let mut s = src;
    let mut yes: Vec<S::Item> = Vec::new();
    let mut no: Vec<S::Item> = Vec::new();
    loop
        invariant
            s.wf(),
            pure1(p),
            yes@ + kept(s.rest(), p) == kept(src.rest(), p),
            no@ + rejected(s.rest(), p) == rejected(src.rest(), p),
        decreases s.rest().len(),
    {
        let ghost before = s.rest();
        let x = s.advance();
        match x {
            None => {
                assert(yes@ =~= yes@ + kept(s.rest(), p));
                assert(no@ =~= no@ + rejected(s.rest(), p));
                return (yes, no);
            },
            Some(x) => {
                let b = p(&x);
                proof {
                    lemma_call1(p, &x, b);
                }
                if b {
                    let ghost y0 = yes@;
                    yes.push(x);
                    assert(yes@ + kept(s.rest(), p) =~= y0 + kept(before, p));
                } else {
                    let ghost n0 = no@;
                    no.push(x);
                    assert(no@ + rejected(s.rest(), p) =~= n0 + rejected(before, p));
                }
            },
        }
    }
}

/// The first components of the pairs in `s`.
pub open spec fn firsts<A, B>(s: Seq<(A, B)>) -> Seq<A> {
    Seq::new(s.len(), |i: int| s[i].0)
}

/// The second components of the pairs in `s`.
pub open spec fn seconds<A, B>(s: Seq<(A, B)>) -> Seq<B> {
    Seq::new(s.len(), |i: int| s[i].1)
}

/// Splits a sequence of pairs into the list of first components and the
/// list of second components; index `i` of each comes from the `i`-th pair.
pub fn unzip<A, B, S: Sequence<Item = (A, B)>>(src: S) -> (r: (Vec<A>, Vec<B>))
    requires
        src.wf(),
    ensures
        r.0@ == firsts(src.rest()),
        r.1@ == seconds(src.rest()),
{
    let mut s = src;
    let ghost total = s.rest();
    let mut left: Vec<A> = Vec::new();
    let mut right: Vec<B> = Vec::new();
    loop
        invariant
            s.wf(),
            total == src.rest(),
            left@.len() == right@.len(),
            left@.len() <= total.len(),
            s.rest() == suffix(total, left@.len()),
            left@ == firsts(total.subrange(0, left@.len() as int)),
            right@ == seconds(total.subrange(0, left@.len() as int)),
        decreases s.rest().len(),
    {
        let ghost before = s.rest();
        let ghost n = left@.len();
        let x = s.advance();
        match x {
            None => {
                assert(total.subrange(0, n as int) =~= total);
                return (left, right);
            },
            Some(pair) => {
                assert(total[n as int] == before[0]);
                let (a, b) = pair;
                left.push(a);
                right.push(b);
                assert(left@ =~= firsts(total.subrange(0, (n + 1) as int)));
                assert(right@ =~= seconds(total.subrange(0, (n + 1) as int)));
                assert(s.rest() =~= suffix(total, n + 1));
            },
        }
    }
}

/// Every element of `src`, in order, gathered into a vector.
pub fn collect<S: Sequence>(src: S) -> (r: Vec<S::Item>)
    requires
        src.wf(),
    ensures
        r@ == src.rest(),
{
    let mut s = src;
    let mut out: Vec<S::Item> = Vec::new();
    loop
        invariant
            s.wf(),
            out@ + s.rest() == src.rest(),
        decreases s.rest().len(),
    {
        let ghost before = s.rest();
        let x = s.advance();
        match x {
            None => {
                assert(out@ + s.rest() =~= out@);
                return out;
            },
            Some(x) => {
                let ghost o0 = out@;
                out.push(x);
                assert(out@ + s.rest() =~= o0 + before);
            },
        }
    }
}

} // verus!
