//! Sums over sequences, used to count tags and to total their sizes.

use vstd::prelude::*;

verus! {

/// The sum of `f` over the elements of `s`.
#[verifier::opaque]
pub open spec fn sum_of<A>(s: Seq<A>, f: spec_fn(A) -> nat) -> nat
    decreases s.len(),
{
    if s.len() == 0 {
        0
    } else {
        sum_of(s.drop_last(), f) + f(s.last())
    }
}

/// The sum over the empty sequence is zero.
pub proof fn lemma_sum_empty<A>(s: Seq<A>, f: spec_fn(A) -> nat)
    requires
        s.len() == 0,
    ensures
        sum_of(s, f) == 0,
{
    reveal(sum_of);
}

/// Summing over a sequence with one more element adds that element's value.
pub proof fn lemma_sum_push<A>(s: Seq<A>, a: A, f: spec_fn(A) -> nat)
    ensures
        sum_of(s.push(a), f) == sum_of(s, f) + f(a),
{
    reveal(sum_of);
    assert(s.push(a).drop_last() =~= s);
}

/// The sum over a concatenation is the sum of the sums.
pub proof fn lemma_sum_concat<A>(s: Seq<A>, t: Seq<A>, f: spec_fn(A) -> nat)
    ensures
        sum_of(s + t, f) == sum_of(s, f) + sum_of(t, f),
    decreases t.len(),
{
    reveal(sum_of);
    if t.len() == 0 {
        assert(s + t =~= s);
    } else {
        lemma_sum_concat(s, t.drop_last(), f);
        assert((s + t).drop_last() =~= s + t.drop_last());
        assert((s + t).last() == t.last());
    }
}

/// The sum over the first `i + 1` elements adds the `i`-th to the sum over the first `i`.
pub proof fn lemma_sum_take<A>(s: Seq<A>, i: int, f: spec_fn(A) -> nat)
    requires
        0 <= i < s.len(),
    ensures
        sum_of(s.take(i + 1), f) == sum_of(s.take(i), f) + f(s[i]),
{
    reveal(sum_of);
    assert(s.take(i + 1).drop_last() =~= s.take(i));
}

/// Swapping two adjacent elements leaves the sum unchanged.
pub proof fn lemma_sum_swap_last<A>(s: Seq<A>, f: spec_fn(A) -> nat)
    requires
        s.len() >= 2,
    ensures
        sum_of(s.update(s.len() - 1, s[s.len() - 2]).update(s.len() - 2, s[s.len() - 1]), f)
            == sum_of(s, f),
{
    let n = s.len();
    let t = s.update(n - 1, s[n - 2]).update(n - 2, s[n - 1]);
    let p = s.take(n - 2);
    assert(s =~= p.push(s[n - 2]).push(s[n - 1]));
    assert(t =~= p.push(s[n - 1]).push(s[n - 2]));
    lemma_sum_push(p.push(s[n - 2]), s[n - 1], f);
    lemma_sum_push(p, s[n - 2], f);
    lemma_sum_push(p.push(s[n - 1]), s[n - 2], f);
    lemma_sum_push(p, s[n - 1], f);
}

} // verus!
