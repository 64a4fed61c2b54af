//! Laws relating several operations of the library, stated over the
//! abstract contents (`rest()`) that the operations' contracts use.
use vstd::prelude::*;
use crate::adapters::{zip_seqs, prefix};
use crate::reducers::{firsts, seconds, rejected};
use crate::transforms::kept;

verus! {

/// Chaining `a` and `b` (whose contents are `a + b`, see `Chain::new`)
/// yields exactly the elements of `a`, then exactly those of `b`, and as many
/// elements as the two together.
pub proof fn lemma_chain_yields_both<T>(a: Seq<T>, b: Seq<T>)
    ensures
        (a + b).len() == a.len() + b.len(),
        (a + b).subrange(0, a.len() as int) == a,
        (a + b).subrange(a.len() as int, (a + b).len() as int) == b,
{
    assert((a + b).subrange(0, a.len() as int) =~= a);
    assert((a + b).subrange(a.len() as int, (a + b).len() as int) =~= b);
}

/// Zipping sequences of lengths `m` and `n` yields exactly `min(m, n)`
/// pairs, the `i`-th pair holding the `i`-th element of each.
pub proof fn lemma_zip_pairs<X, Y>(a: Seq<X>, b: Seq<Y>)
    ensures
        zip_seqs(a, b).len() == (if a.len() <= b.len() { a.len() } else { b.len() }),
        forall|i: int| 0 <= i < zip_seqs(a, b).len() ==> #[trigger] zip_seqs(a, b)[i] == (a[i], b[i]),
{
}

/// Taking `n` elements yields at most `n` elements, each the co-positioned
/// element of the source, whatever the source still holds beyond them.
pub proof fn lemma_take_at_most<T>(s: Seq<T>, n: nat)
    ensures
        prefix(s, n).len() <= n,
        prefix(s, n).len() <= s.len(),
        forall|i: int| 0 <= i < prefix(s, n).len() ==> #[trigger] prefix(s, n)[i] == s[i],
{
}

/// Partitioning by `p` loses and duplicates nothing: the two sides together
/// are exactly as long as the input.
pub proof fn lemma_partition_splits<T, P: Fn(&T) -> bool>(s: Seq<T>, p: P)
    ensures
        kept(s, p).len() + rejected(s, p).len() == s.len(),
    decreases s.len(),
{
    if s.len() > 0 {
        lemma_partition_splits(s.drop_first(), p);
    }
}

/// Unzipping a sequence of pairs and zipping the two halves back together
/// gives back the sequence of pairs it started from.
pub proof fn lemma_unzip_then_zip<A, B>(pairs: Seq<(A, B)>)
    ensures
        zip_seqs(firsts(pairs), seconds(pairs)) == pairs,
{
    assert(zip_seqs(firsts(pairs), seconds(pairs)) =~= pairs);
}

} // verus!
