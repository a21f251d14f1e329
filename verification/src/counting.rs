use vstd::prelude::*;

verus! {

/// How many times `x` occurs in `s`.
pub open spec fn count(s: Seq<usize>, x: usize) -> nat
    decreases s.len(),
{
    if s.len() == 0 {
        0
    } else {
        count(s.drop_last(), x) + (if s.last() == x { 1nat } else { 0nat })
    }
}

/// How many entries of `s` name a step that `resolved` does not mark.
pub open spec fn pending(s: Seq<usize>, resolved: Seq<bool>) -> nat
    decreases s.len(),
{
    if s.len() == 0 {
        0
    } else {
        pending(s.drop_last(), resolved) + (if !resolved[s.last() as int] { 1nat } else { 0nat })
    }
}

/// Every entry of `s` is below `n`.
pub open spec fn all_below(s: Seq<usize>, n: nat) -> bool {
    forall|j: int| 0 <= j < s.len() ==> (#[trigger] s[j]) < n
}

/// The entries of `s` never decrease.
pub open spec fn nondecreasing(s: Seq<usize>) -> bool {
    forall|i: int, j: int| 0 <= i <= j < s.len() ==> s[i] <= s[j]
}

/// The entries of `s` strictly increase (so none occurs twice).
pub open spec fn increasing(s: Seq<usize>) -> bool {
    forall|i: int, j: int| 0 <= i < j < s.len() ==> s[i] < s[j]
}

pub proof fn lemma_count_push(s: Seq<usize>, y: usize, x: usize)
    ensures
        count(s.push(y), x) == count(s, x) + (if y == x { 1nat } else { 0nat }),
{
    assert(s.push(y).drop_last() =~= s);
}

pub proof fn lemma_count_take(s: Seq<usize>, k: int, x: usize)
    requires
        0 <= k < s.len(),
    ensures
        count(s.take(k + 1), x) == count(s.take(k), x) + (if s[k] == x { 1nat } else { 0nat }),
{
    assert(s.take(k + 1).drop_last() =~= s.take(k));
}

pub proof fn lemma_count_full(s: Seq<usize>, x: usize)
    ensures
        count(s.take(s.len() as int), x) == count(s, x),
{
    assert(s.take(s.len() as int) =~= s);
}

/// Nothing is pending iff every entry is resolved.
pub proof fn lemma_pending_zero(s: Seq<usize>, r: Seq<bool>)
    ensures
        pending(s, r) == 0 <==> forall|j: int| 0 <= j < s.len() ==> r[#[trigger] s[j] as int],
    decreases s.len(),
{
    if s.len() > 0 {
        lemma_pending_zero(s.drop_last(), r);
        if pending(s, r) == 0 {
            assert forall|j: int| 0 <= j < s.len() implies r[#[trigger] s[j] as int] by {
                if j < s.len() - 1 {
                    assert(s.drop_last()[j] == s[j]);
                }
            }
        }
        if forall|j: int| 0 <= j < s.len() ==> r[#[trigger] s[j] as int] {
            assert forall|j: int| 0 <= j < s.drop_last().len() implies r[#[trigger] s.drop_last()[j] as int] by {
                assert(s.drop_last()[j] == s[j]);
            }
            assert(r[s[s.len() - 1] as int]);
        }
    }
}

/// Resolving `u` lowers the pending count by the occurrences of `u`.
pub proof fn lemma_pending_resolve(s: Seq<usize>, r: Seq<bool>, u: usize)
    requires
        all_below(s, r.len()),
        u < r.len(),
        !r[u as int],
    ensures
        pending(s, r.update(u as int, true)) + count(s, u) == pending(s, r),
    decreases s.len(),
{
    if s.len() > 0 {
        assert(all_below(s.drop_last(), r.len())) by {
            assert forall|j: int| 0 <= j < s.drop_last().len() implies (#[trigger] s.drop_last()[j]) < r.len() by {
                assert(s.drop_last()[j] == s[j]);
            }
        }
        lemma_pending_resolve(s.drop_last(), r, u);
        assert(s.last() == s[s.len() - 1]);
    }
}

} // verus!
