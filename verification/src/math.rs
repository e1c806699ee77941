//! Small arithmetic helpers shared by the puzzle solvers: powers of two,
//! population count, and sums of integer sequences.

use vstd::prelude::*;

verus! {

use vstd::arithmetic::power2::{pow2, lemma_pow2_unfold, lemma_pow2_strictly_increases, lemma2_to64};

/// Number of one bits in the binary writing of `n`.
pub open spec fn pop_count(n: nat) -> nat
    decreases n,
{
    if n == 0 {
        0
    } else {
        (n % 2) + pop_count(n / 2)
    }
}

/// A number below `pow2(k)` has at most `k` one bits.
pub proof fn lemma_pop_count_bound(n: nat, k: nat)
    requires
        n < pow2(k),
    ensures
        pop_count(n) <= k,
    decreases k,
{
    if n == 0 {
    } else {
        if k == 0 {
            assert(pow2(0) == 1) by {
                lemma2_to64();
            }
        } else {
            lemma_pow2_unfold(k);
            lemma_pop_count_bound(n / 2, (k - 1) as nat);
        }
    }
}

/// Sum of a sequence of `u64` values, as an unbounded integer.
pub open spec fn sum_u64(s: Seq<u64>) -> int
    decreases s.len(),
{
    if s.len() == 0 {
        0
    } else {
        sum_u64(s.drop_last()) + s.last()
    }
}

/// Sum of a sequence of `u32` values, as an unbounded integer.
pub open spec fn sum_u32(s: Seq<u32>) -> int
    decreases s.len(),
{
    if s.len() == 0 {
        0
    } else {
        sum_u32(s.drop_last()) + s.last()
    }
}

pub proof fn lemma_sum_u32_nonneg(s: Seq<u32>)
    ensures
        0 <= sum_u32(s),
    decreases s.len(),
{
    if s.len() > 0 {
        lemma_sum_u32_nonneg(s.drop_last());
    }
}

/// Summing pointwise smaller values gives a smaller sum.
pub proof fn lemma_sum_u32_pointwise_le(a: Seq<u32>, b: Seq<u32>)
    requires
        a.len() == b.len(),
        forall|i: int| 0 <= i < a.len() ==> a[i] <= b[i],
    ensures
        sum_u32(a) <= sum_u32(b),
    decreases a.len(),
{
    if a.len() > 0 {
        lemma_sum_u32_pointwise_le(a.drop_last(), b.drop_last());
    }
}

/// With pointwise smaller values and one strictly smaller, the sum is
/// strictly smaller.
pub proof fn lemma_sum_u32_pointwise_lt(a: Seq<u32>, b: Seq<u32>, j0: int)
    requires
        a.len() == b.len(),
        forall|i: int| 0 <= i < a.len() ==> a[i] <= b[i],
        0 <= j0 < a.len(),
        a[j0] < b[j0],
    ensures
        sum_u32(a) < sum_u32(b),
    decreases a.len(),
{
    if j0 == a.len() - 1 {
        lemma_sum_u32_pointwise_le(a.drop_last(), b.drop_last());
    } else {
        lemma_sum_u32_pointwise_lt(a.drop_last(), b.drop_last(), j0);
    }
}

/// The power `2^k`, for exponents that fit a machine word.
pub fn pow2_u64(k: u64) -> (r: u64)
    requires
        k < 64,
    ensures
        r == pow2(k as nat),
{
    let mut i: u64 = 0;
    let mut r: u64 = 1;
    assert(r == pow2(0)) by {
        lemma2_to64();
    }
    while i < k
        invariant
            i <= k < 64,
            r == pow2(i as nat),
        decreases k - i,
    {
        proof {
            lemma_pow2_strictly_increases((i + 1) as nat, 64);
            lemma_pow2_unfold((i + 1) as nat);
            lemma2_to64();
        }
        r = r * 2;
        i = i + 1;
    }
    r
}

/// Number of one bits of a `u32`, by repeated halving.
pub fn popcount_u32(v: u32) -> (c: u32)
    ensures
        c == pop_count(v as nat),
        c <= 32,
{
    proof {
        lemma2_to64();
        lemma_pop_count_bound(v as nat, 32);
    }
    let mut x: u32 = v;
    let mut c: u32 = 0;
    while x > 0
        invariant
            c + pop_count(x as nat) == pop_count(v as nat),
            pop_count(v as nat) <= 32,
        decreases x,
    {
        c = c + x % 2;
        x = x / 2;
    }
    c
}

} // verus!
