//! Extremum reducers. All of them traverse the whole sequence. Among
//! elements that tie, a maximum is the *last* of them and a minimum the
//! *first*.
use vstd::prelude::*;
use core::cmp::Ordering;
use crate::protocol::{Sequence, pure1, pure2, call1, call2, lemma_call1, lemma_call2};
use crate::adapters::suffix;

verus! {

/// The key of the `j`-th element of `s`.
pub open spec fn key_at<T, K: Fn(&T) -> i64>(s: Seq<T>, key: K, j: int) -> i64 {
    call1(key, &s[j])
}

/// `s[i]` has the greatest key in `s`, and every later element a smaller one.
pub open spec fn is_last_max<T, K: Fn(&T) -> i64>(s: Seq<T>, key: K, i: int) -> bool {
    &&& 0 <= i < s.len()
    &&& forall|j: int| 0 <= j < s.len() ==> #[trigger] key_at(s, key, j) <= key_at(s, key, i)
    &&& forall|j: int| i < j < s.len() ==> #[trigger] key_at(s, key, j) < key_at(s, key, i)
}

/// `s[i]` has the smallest key in `s`, and every earlier element a greater one.
pub open spec fn is_first_min<T, K: Fn(&T) -> i64>(s: Seq<T>, key: K, i: int) -> bool {
    &&& 0 <= i < s.len()
    &&& forall|j: int| 0 <= j < s.len() ==> #[trigger] key_at(s, key, j) >= key_at(s, key, i)
    &&& forall|j: int| 0 <= j < i ==> #[trigger] key_at(s, key, j) > key_at(s, key, i)
}

/// The element of `src` with the greatest key; the last such element on a
/// tie. `None` when `src` is empty.
pub fn max_by_key<S: Sequence, K: Fn(&S::Item) -> i64>(src: S, key: K) -> (r: Option<S::Item>)
    requires
        src.wf(),
        pure1(key),
    ensures
        r is None <==> src.rest().len() == 0,
        r matches Some(x) ==> exists|i: int| is_last_max(src.rest(), key, i) && x == src.rest()[i],
{
    let mut s = src;
    let ghost total = s.rest();
    let ghost mut used: nat = 0;
    let ghost mut bi: int = 0;
    let mut best: Option<S::Item> = None;
    let mut best_key: i64 = 0;
    loop
        invariant
            s.wf(),
            pure1(key),
            total == src.rest(),
            used <= total.len(),
            s.rest() == suffix(total, used),
            used == 0 <==> best is None,
            used > 0 ==> is_last_max(total.subrange(0, used as int), key, bi)
                && best == Some(total[bi]) && best_key == key_at(total, key, bi),
        decreases s.rest().len(),
    {
        let ghost before = s.rest();
        let x = s.advance();
        match x {
            None => {
                proof {
                    assert(total.subrange(0, used as int) =~= total);
                    if used > 0 {
                        assert(is_last_max(total, key, bi));
                    }
                }
                return best;
            },
            Some(x) => {
                let k = key(&x);
                proof {
                    lemma_call1(key, &x, k);
                    assert(total[used as int] == before[0]);
                    let prev = total.subrange(0, used as int);
                    let next = total.subrange(0, (used + 1) as int);
                    assert forall|j: int| 0 <= j < used implies key_at(next, key, j) == key_at(prev, key, j) by {
                        assert(next[j] == prev[j]);
                    }
                    assert(key_at(next, key, used as int) == k);
                    if used > 0 {
                        assert(key_at(next, key, bi) == key_at(prev, key, bi));
                    }
                }
                if best.is_none() || k >= best_key {
                    proof {
                        bi = used as int;
                    }
                    best = Some(x);
                    best_key = k;
                }
                proof {
                    used = used + 1;
                    assert(s.rest() =~= suffix(total, used));
                }
            },
        }
    }
}

/// The element of `src` with the smallest key; the first such element on a
/// tie. `None` when `src` is empty.
pub fn min_by_key<S: Sequence, K: Fn(&S::Item) -> i64>(src: S, key: K) -> (r: Option<S::Item>)
    requires
        src.wf(),
        pure1(key),
    ensures
        r is None <==> src.rest().len() == 0,
        r matches Some(x) ==> exists|i: int| is_first_min(src.rest(), key, i) && x == src.rest()[i],
{
    let mut s = src;
    let ghost total = s.rest();
    let ghost mut used: nat = 0;
    let ghost mut bi: int = 0;
    let mut best: Option<S::Item> = None;
    let mut best_key: i64 = 0;
    loop
        invariant
            s.wf(),
            pure1(key),
            total == src.rest(),
            used <= total.len(),
            s.rest() == suffix(total, used),
            used == 0 <==> best is None,
            used > 0 ==> is_first_min(total.subrange(0, used as int), key, bi)
                && best == Some(total[bi]) && best_key == key_at(total, key, bi),
        decreases s.rest().len(),
    {
        let ghost before = s.rest();
        let x = s.advance();
        match x {
            None => {
                proof {
                    assert(total.subrange(0, used as int) =~= total);
                    if used > 0 {
                        assert(is_first_min(total, key, bi));
                    }
                }
                return best;
            },
            Some(x) => {
                let k = key(&x);
                proof {
                    lemma_call1(key, &x, k);
                    assert(total[used as int] == before[0]);
                    let prev = total.subrange(0, used as int);
                    let next = total.subrange(0, (used + 1) as int);
                    assert forall|j: int| 0 <= j < used implies key_at(next, key, j) == key_at(prev, key, j) by {
                        assert(next[j] == prev[j]);
                    }
                    assert(key_at(next, key, used as int) == k);
                    if used > 0 {
                        assert(key_at(next, key, bi) == key_at(prev, key, bi));
                    }
                }
                if best.is_none() || k < best_key {
                    proof {
                        bi = used as int;
                    }
                    best = Some(x);
                    best_key = k;
                }
                proof {
                    used = used + 1;
                    assert(s.rest() =~= suffix(total, used));
                }
            },
        }
    }
}

/// The greatest element of `src`, or `None` when it is empty.
pub fn max<S: Sequence<Item = i64>>(src: S) -> (r: Option<i64>)
    requires
        src.wf(),
    ensures
        r is None <==> src.rest().len() == 0,
        r matches Some(v) ==> src.rest().contains(v)
            && forall|j: int| 0 <= j < src.rest().len() ==> src.rest()[j] <= v,
{
    extreme(src, true)
}

/// The smallest element of `src`, or `None` when it is empty.
pub fn min<S: Sequence<Item = i64>>(src: S) -> (r: Option<i64>)
    requires
        src.wf(),
    ensures
        r is None <==> src.rest().len() == 0,
        r matches Some(v) ==> src.rest().contains(v)
            && forall|j: int| 0 <= j < src.rest().len() ==> src.rest()[j] >= v,
{
    extreme(src, false)
}

/// The greatest (`greatest`) or smallest element of `src`.
fn extreme<S: Sequence<Item = i64>>(src: S, greatest: bool) -> (r: Option<i64>)
    requires
        src.wf(),
    ensures
        r is None <==> src.rest().len() == 0,
        r matches Some(v) ==> src.rest().contains(v) && forall|j: int|
            0 <= j < src.rest().len() ==> if greatest { src.rest()[j] <= v } else { src.rest()[j] >= v },
{
    let mut s = src;
    let ghost total = s.rest();
    let ghost mut used: nat = 0;
    let ghost mut bi: int = 0;
    let mut best: Option<i64> = None;
    loop
        invariant
            s.wf(),
            total == src.rest(),
            used <= total.len(),
            s.rest() == suffix(total, used),
            used == 0 <==> best is None,
            used > 0 ==> 0 <= bi < used && best == Some(total[bi]) && forall|j: int|
                0 <= j < used ==> if greatest { total[j] <= total[bi] } else { total[j] >= total[bi] },
        decreases s.rest().len(),
    {
        let ghost before = s.rest();
        let x = s.advance();
        match x {
            None => {
                proof {
                    if used > 0 {
                        assert(total[bi] == best.unwrap());
                    }
                }
                return best;
            },
            Some(x) => {
                proof {
                    assert(total[used as int] == before[0]);
                }
                let take = match best {
                    None => true,
                    Some(b) => if greatest { x > b } else { x < b },
                };
                if take {
                    proof {
                        bi = used as int;
                    }
                    best = Some(x);
                }
                proof {
                    used = used + 1;
                    assert(s.rest() =~= suffix(total, used));
                }
            },
        }
    }
}

/// The result of a maximum search by `cmp` over `s`, starting from `best`:
/// an element replaces the current best unless the best compares greater.
pub open spec fn max_by_from<T, C: Fn(&T, &T) -> Ordering>(s: Seq<T>, best: T, cmp: C) -> T
    decreases s.len(),
{
    if s.len() == 0 {
        best
    } else {
        let next = if call2(cmp, &best, &s[0]) == Ordering::Greater { best } else { s[0] };
        max_by_from(s.drop_first(), next, cmp)
    }
}

/// The result of a minimum search by `cmp` over `s`, starting from `best`:
/// an element replaces the current best only if the best compares greater.
pub open spec fn min_by_from<T, C: Fn(&T, &T) -> Ordering>(s: Seq<T>, best: T, cmp: C) -> T
    decreases s.len(),
{
    if s.len() == 0 {
        best
    } else {
        let next = if call2(cmp, &best, &s[0]) == Ordering::Greater { s[0] } else { best };
        min_by_from(s.drop_first(), next, cmp)
    }
}

/// The maximum of `src` under the comparison `cmp`; the last of equals wins.
pub fn max_by<S: Sequence, C: Fn(&S::Item, &S::Item) -> Ordering>(src: S, cmp: C) -> (r: Option<S::Item>)
    requires
        src.wf(),
        pure2(cmp),
    ensures
        r == (if src.rest().len() == 0 {
            None::<S::Item>
        } else {
            Some(max_by_from(src.rest().drop_first(), src.rest()[0], cmp))
        }),
{
    best_by(src, cmp, true)
}

/// The minimum of `src` under the comparison `cmp`; the first of equals wins.
pub fn min_by<S: Sequence, C: Fn(&S::Item, &S::Item) -> Ordering>(src: S, cmp: C) -> (r: Option<S::Item>)
    requires
        src.wf(),
        pure2(cmp),
    ensures
        r == (if src.rest().len() == 0 {
            None::<S::Item>
        } else {
            Some(min_by_from(src.rest().drop_first(), src.rest()[0], cmp))
        }),
{
    best_by(src, cmp, false)
}

/// The maximum (`greatest`) or minimum of `src` under `cmp`.
fn best_by<S: Sequence, C: Fn(&S::Item, &S::Item) -> Ordering>(src: S, cmp: C, greatest: bool) -> (r: Option<S::Item>)
    requires
        src.wf(),
        pure2(cmp),
    ensures
        r == (if src.rest().len() == 0 {
            None::<S::Item>
        } else if greatest {
            Some(max_by_from(src.rest().drop_first(), src.rest()[0], cmp))
        } else {
            Some(min_by_from(src.rest().drop_first(), src.rest()[0], cmp))
        }),
{
    let mut s = src;
    let first = s.advance();
    match first {
        None => None,
        Some(first) => {
            let mut best = first;
            loop
                invariant
                    s.wf(),
                    pure2(cmp),
                    src.rest().len() > 0,
                    greatest ==> max_by_from(s.rest(), best, cmp) == max_by_from(
                        src.rest().drop_first(),
                        src.rest()[0],
                        cmp,
                    ),
                    !greatest ==> min_by_from(s.rest(), best, cmp) == min_by_from(
                        src.rest().drop_first(),
                        src.rest()[0],
                        cmp,
                    ),
                decreases s.rest().len(),
            {
                let x = s.advance();
                match x {
                    None => {
                        return Some(best);
                    },
                    Some(x) => {
                        let c = cmp(&best, &x);
                        proof {
                            lemma_call2(cmp, &best, &x, c);
                        }
                        let keep = match c {
                            Ordering::Greater => greatest,
                            _ => !greatest,
                        };
                        if !keep {
                            best = x;
                        }
                    },
                }
            }
        },
    }
}

} // verus!
