//! Sums of `u32` counters, used for frequency bookkeeping.

use vstd::prelude::*;

verus! {

/// The sum of `s[lo..]`.
pub open spec fn sum32_from(s: Seq<u32>, lo: int) -> int
    decreases s.len() - lo,
{
    if lo < 0 || lo >= s.len() {
        0
    } else {
        s[lo] + sum32_from(s, lo + 1)
    }
}

/// The sum of all entries.
pub open spec fn sum32(s: Seq<u32>) -> int {
    sum32_from(s, 0)
}

pub proof fn lemma_sum32_nonneg(s: Seq<u32>, lo: int)
    ensures
        0 <= sum32_from(s, lo),
    decreases s.len() - lo,
{
    if 0 <= lo < s.len() {
        lemma_sum32_nonneg(s, lo + 1);
    }
}

/// Dropping a prefix never increases the sum.
pub proof fn lemma_sum32_mono(s: Seq<u32>, lo: int, hi: int)
    requires
        0 <= lo <= hi,
    ensures
        sum32_from(s, hi) <= sum32_from(s, lo),
    decreases hi - lo,
{
    if lo < hi {
        if lo < s.len() {
            lemma_sum32_mono(s, lo + 1, hi);
        } else {
            lemma_sum32_nonneg(s, hi);
        }
    }
}

/// Every entry is bounded by the total.
pub proof fn lemma_sum32_element(s: Seq<u32>, k: int)
    requires
        0 <= k < s.len(),
    ensures
        s[k] <= sum32(s),
{
    lemma_sum32_mono(s, 0, k);
    lemma_sum32_nonneg(s, k + 1);
}

/// Appending an entry adds it to every suffix sum.
pub proof fn lemma_sum32_push(s: Seq<u32>, v: u32, lo: int)
    requires
        0 <= lo <= s.len(),
    ensures
        sum32_from(s.push(v), lo) == sum32_from(s, lo) + v,
    decreases s.len() - lo,
{
    if lo < s.len() {
        lemma_sum32_push(s, v, lo + 1);
    } else {
        assert(sum32_from(s.push(v), lo) == s.push(v)[lo] + sum32_from(s.push(v), lo + 1));
    }
}

/// Replacing one entry shifts the total by the difference.
pub proof fn lemma_sum32_update(s: Seq<u32>, k: int, v: u32, lo: int)
    requires
        0 <= k < s.len(),
        0 <= lo,
    ensures
        lo <= k ==> sum32_from(s.update(k, v), lo) == sum32_from(s, lo) - s[k] + v,
        lo > k ==> sum32_from(s.update(k, v), lo) == sum32_from(s, lo),
    decreases s.len() - lo,
{
    if lo < s.len() {
        lemma_sum32_update(s, k, v, lo + 1);
    }
}

} // verus!
