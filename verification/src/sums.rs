//! A generic fold over sequences and the small algebra of lemmas the
//! ledger's aggregate invariants are proved with.

use vstd::prelude::*;

verus! {

/// The sum of `f` over the elements of `s`. All aggregate bookkeeping of the
/// ledger (total stake, per-creator columns, staker counters) is stated as an
/// instance of this one fold.
pub open spec fn sum_by<T>(s: Seq<T>, f: spec_fn(T) -> int) -> int
    decreases s.len(),
{
    if s.len() == 0 {
        0
    } else {
        sum_by(s.drop_last(), f) + f(s.last())
    }
}

/// Changing one element moves the sum by exactly the change of its term.
pub proof fn lemma_sum_by_update<T>(s1: Seq<T>, s2: Seq<T>, i: int, f: spec_fn(T) -> int)
    requires
        s1.len() == s2.len(),
        0 <= i < s1.len(),
        forall|j: int| 0 <= j < s1.len() && j != i ==> s1[j] == s2[j],
    ensures
        sum_by(s2, f) == sum_by(s1, f) - f(s1[i]) + f(s2[i]),
    decreases s1.len(),
{
    if i == s1.len() - 1 {
        assert(s1.drop_last() =~= s2.drop_last());
    } else {
        lemma_sum_by_update(s1.drop_last(), s2.drop_last(), i, f);
        assert(s1.last() == s2.last());
    }
}

/// Appending an element adds exactly its term.
pub proof fn lemma_sum_by_push<T>(s: Seq<T>, x: T, f: spec_fn(T) -> int)
    ensures
        sum_by(s.push(x), f) == sum_by(s, f) + f(x),
{
    assert(s.push(x).drop_last() =~= s);
}

/// Removing an element takes away exactly its term.
pub proof fn lemma_sum_by_remove<T>(s: Seq<T>, i: int, f: spec_fn(T) -> int)
    requires
        0 <= i < s.len(),
    ensures
        sum_by(s.remove(i), f) == sum_by(s, f) - f(s[i]),
    decreases s.len(),
{
    if i == s.len() - 1 {
        assert(s.remove(i) =~= s.drop_last());
    } else {
        assert(s.remove(i).drop_last() =~= s.drop_last().remove(i));
        lemma_sum_by_remove(s.drop_last(), i, f);
        assert(s.remove(i).last() == s.last());
    }
}

/// A sum of non-negative terms is non-negative.
pub proof fn lemma_sum_by_nonneg<T>(s: Seq<T>, f: spec_fn(T) -> int)
    requires
        forall|j: int| 0 <= j < s.len() ==> f(s[j]) >= 0,
    ensures
        sum_by(s, f) >= 0,
    decreases s.len(),
{
    if s.len() > 0 {
        lemma_sum_by_nonneg(s.drop_last(), f);
    }
}

/// With non-negative terms, every single term is bounded by the sum.
pub proof fn lemma_sum_by_bound<T>(s: Seq<T>, i: int, f: spec_fn(T) -> int)
    requires
        0 <= i < s.len(),
        forall|j: int| 0 <= j < s.len() ==> f(s[j]) >= 0,
    ensures
        f(s[i]) <= sum_by(s, f),
    decreases s.len(),
{
    if i == s.len() - 1 {
        lemma_sum_by_nonneg(s.drop_last(), f);
    } else {
        lemma_sum_by_bound(s.drop_last(), i, f);
        assert(f(s.last()) >= 0);
    }
}

/// Two sums agree when their terms agree position by position.
pub proof fn lemma_sum_by_congruence<T, U>(s1: Seq<T>, s2: Seq<U>, f: spec_fn(T) -> int, g: spec_fn(
    U,
) -> int)
    requires
        s1.len() == s2.len(),
        forall|j: int| 0 <= j < s1.len() ==> f(s1[j]) == g(s2[j]),
    ensures
        sum_by(s1, f) == sum_by(s2, g),
    decreases s1.len(),
{
    if s1.len() > 0 {
        lemma_sum_by_congruence(s1.drop_last(), s2.drop_last(), f, g);
    }
}

/// Sums respect a position-by-position bound on their terms.
pub proof fn lemma_sum_by_pairwise_le<T>(s: Seq<T>, f: spec_fn(T) -> int, g: spec_fn(T) -> int)
    requires
        forall|j: int| 0 <= j < s.len() ==> f(s[j]) <= g(s[j]),
    ensures
        sum_by(s, f) <= sum_by(s, g),
    decreases s.len(),
{
    if s.len() > 0 {
        lemma_sum_by_pairwise_le(s.drop_last(), f, g);
    }
}

/// With non-negative terms, a prefix sums to at most the whole.
pub proof fn lemma_sum_by_prefix_le<T>(s: Seq<T>, i: int, f: spec_fn(T) -> int)
    requires
        0 <= i <= s.len(),
        forall|j: int| 0 <= j < s.len() ==> f(s[j]) >= 0,
    ensures
        sum_by(s.subrange(0, i), f) <= sum_by(s, f),
    decreases s.len() - i,
{
    if i < s.len() {
        assert(s.subrange(0, i + 1) =~= s.subrange(0, i).push(s[i]));
        lemma_sum_by_push(s.subrange(0, i), s[i], f);
        lemma_sum_by_prefix_le(s, i + 1, f);
    } else {
        assert(s.subrange(0, i) =~= s);
    }
}

/// A sum of terms that are all zero is zero.
pub proof fn lemma_sum_by_all_zero<T>(s: Seq<T>, f: spec_fn(T) -> int)
    requires
        forall|j: int| 0 <= j < s.len() ==> f(s[j]) == 0,
    ensures
        sum_by(s, f) == 0,
    decreases s.len(),
{
    if s.len() > 0 {
        lemma_sum_by_all_zero(s.drop_last(), f);
    }
}

} // verus!
