//! Sums over sequences, used by the contracts and their proofs.
use vstd::prelude::*;
use vstd::multiset::Multiset;

verus! {

/// `f(s[0]) + ... + f(s[len - 1])`.
pub open spec fn sum_of<T>(s: Seq<T>, f: spec_fn(T) -> int) -> int
    decreases s.len(),
{
    if s.len() == 0 {
        0
    } else {
        sum_of(s.drop_last(), f) + f(s.last())
    }
}

/// The union (with multiplicities) of `f(s[0]), ..., f(s[len - 1])`.
pub open spec fn msum_of<T>(s: Seq<T>, f: spec_fn(T) -> Multiset<usize>) -> Multiset<usize>
    decreases s.len(),
{
    if s.len() == 0 {
        Multiset::empty()
    } else {
        msum_of(s.drop_last(), f).add(f(s.last()))
    }
}

pub proof fn lemma_sum_push<T>(s: Seq<T>, x: T, f: spec_fn(T) -> int)
    ensures
        sum_of(s.push(x), f) == sum_of(s, f) + f(x),
{
    assert(s.push(x).drop_last() =~= s);
}

pub proof fn lemma_msum_push<T>(s: Seq<T>, x: T, f: spec_fn(T) -> Multiset<usize>)
    ensures
        msum_of(s.push(x), f) == msum_of(s, f).add(f(x)),
{
    assert(s.push(x).drop_last() =~= s);
}

/// Replacing one element changes the sum by the difference of the two terms.
pub proof fn lemma_sum_update<T>(s: Seq<T>, i: int, x: T, f: spec_fn(T) -> int)
    requires
        0 <= i < s.len(),
    ensures
        sum_of(s.update(i, x), f) == sum_of(s, f) - f(s[i]) + f(x),
    decreases s.len(),
{
    if i == s.len() - 1 {
        assert(s.update(i, x).drop_last() =~= s.drop_last());
    } else {
        lemma_sum_update(s.drop_last(), i, x, f);
        assert(s.update(i, x).drop_last() =~= s.drop_last().update(i, x));
    }
}

/// Replacing one element by one whose term is the old term plus `m`.
pub proof fn lemma_msum_update<T>(s: Seq<T>, i: int, x: T, m: Multiset<usize>, f: spec_fn(T) -> Multiset<usize>)
    requires
        0 <= i < s.len(),
        f(x) == f(s[i]).add(m),
    ensures
        msum_of(s.update(i, x), f) == msum_of(s, f).add(m),
    decreases s.len(),
{
    if i == s.len() - 1 {
        assert(s.update(i, x).drop_last() =~= s.drop_last());
        assert(msum_of(s.update(i, x), f) =~= msum_of(s, f).add(m));
    } else {
        lemma_msum_update(s.drop_last(), i, x, m, f);
        assert(s.update(i, x).drop_last() =~= s.drop_last().update(i, x));
        assert(msum_of(s.update(i, x), f) =~= msum_of(s, f).add(m));
    }
}

/// A sum of non-negative terms bounds each term.
pub proof fn lemma_sum_nonneg_bounds_term<T>(s: Seq<T>, i: int, f: spec_fn(T) -> int)
    requires
        0 <= i < s.len(),
        forall|j: int| 0 <= j < s.len() ==> f(#[trigger] s[j]) >= 0,
    ensures
        f(s[i]) <= sum_of(s, f),
    decreases s.len(),
{
    lemma_sum_nonneg(s.drop_last(), f);
    if i < s.len() - 1 {
        lemma_sum_nonneg_bounds_term(s.drop_last(), i, f);
    }
}

pub proof fn lemma_sum_nonneg<T>(s: Seq<T>, f: spec_fn(T) -> int)
    requires
        forall|j: int| 0 <= j < s.len() ==> f(#[trigger] s[j]) >= 0,
    ensures
        sum_of(s, f) >= 0,
    decreases s.len(),
{
    if s.len() > 0 {
        lemma_sum_nonneg(s.drop_last(), f);
    }
}

} // verus!
