//! Integer square root.

use crate::wide::{le_wide, mul_wide, wide};
use vstd::prelude::*;

verus! {

/// `r` is the square root of `n` rounded down: the largest natural number
/// whose square does not exceed `n`.
pub open spec fn is_floor_sqrt(n: nat, r: nat) -> bool {
    r * r <= n < (r + 1) * (r + 1)
}

/// The square root of `n`, rounded down.
pub open spec fn floor_sqrt(n: nat) -> nat {
    choose|r: nat| is_floor_sqrt(n, r)
}

/// Squaring preserves the order of natural numbers.
pub proof fn lemma_square_le(a: nat, b: nat)
    by (nonlinear_arith)
    requires
        a <= b,
    ensures
        a * a <= b * b,
{
}

/// At most one number is the rounded-down square root of `n`.
pub proof fn lemma_floor_sqrt_unique(n: nat, a: nat, b: nat)
    requires
        is_floor_sqrt(n, a),
        is_floor_sqrt(n, b),
    ensures
        a == b,
{
    if a < b {
        lemma_square_le(a + 1, b);
    } else if b < a {
        lemma_square_le(b + 1, a);
    }
}

/// Every natural number has a rounded-down square root, and `floor_sqrt`
/// names it.
pub proof fn lemma_floor_sqrt(n: nat)
    ensures
        is_floor_sqrt(n, floor_sqrt(n)),
    decreases n,
{
    if n == 0 {
        assert(0nat * 0nat <= 0 < (0nat + 1) * (0nat + 1)) by (nonlinear_arith);
        assert(is_floor_sqrt(0, 0));
    } else {
        lemma_floor_sqrt((n - 1) as nat);
        let r = floor_sqrt((n - 1) as nat);
        if (r + 1) * (r + 1) <= n {
            assert((r + 2) * (r + 2) > (r + 1) * (r + 1)) by (nonlinear_arith);
            assert(is_floor_sqrt(n, r + 1));
        } else {
            assert(is_floor_sqrt(n, r));
        }
    }
}

/// A number that meets the definition is the rounded-down square root.
pub proof fn lemma_floor_sqrt_is(n: nat, r: nat)
    requires
        is_floor_sqrt(n, r),
    ensures
        floor_sqrt(n) == r,
{
    lemma_floor_sqrt_unique(n, r, floor_sqrt(n));
}

/// The rounded-down square root never decreases as its argument grows.
pub proof fn lemma_floor_sqrt_monotonic(a: nat, b: nat)
    requires
        a <= b,
    ensures
        floor_sqrt(a) <= floor_sqrt(b),
{
    lemma_floor_sqrt(a);
    lemma_floor_sqrt(b);
    if floor_sqrt(b) < floor_sqrt(a) {
        lemma_square_le(floor_sqrt(b) + 1, floor_sqrt(a));
    }
}

/// How near the rounded-down root is. Its square falls short of `n` by at
/// most twice the root, and so, for a root of two thousand million or more,
/// by at most a thousand-millionth of `n`.
pub proof fn lemma_floor_sqrt_tolerance(n: nat, r: nat)
    requires
        is_floor_sqrt(n, r),
    ensures
        r * r <= n <= r * r + 2 * r,
        r >= 2_000_000_000 ==> (n - r * r) * 1_000_000_000 <= n,
{
    assert(n <= r * r + 2 * r) by (nonlinear_arith)
        requires
            n < (r + 1) * (r + 1),
    ;
    if r >= 2_000_000_000 {
        assert(2 * r * 1_000_000_000 <= r * r) by (nonlinear_arith)
            requires
                r >= 2_000_000_000,
        ;
    }
}

/// Computes the square root of `n`, rounded down.
pub fn isqrt(n: u128) -> (r: u64)
    ensures
        r == floor_sqrt(n as nat),
        is_floor_sqrt(n as nat, r as nat),
{
    let mut lo: u128 = 0;
    let mut hi: u128 = 0x1_0000_0000_0000_0000;
    assert(n < hi * hi) by (nonlinear_arith)
        requires
            hi == 0x1_0000_0000_0000_0000,
            n <= u128::MAX,
    ;
    while hi - lo > 1
        invariant
            lo < hi <= 0x1_0000_0000_0000_0000,
            lo * lo <= n,
            n < hi * hi,
        decreases hi - lo,
    {
        let mid: u128 = lo + (hi - lo) / 2;
        assert(mid * mid <= u128::MAX) by (nonlinear_arith)
            requires
                mid < 0x1_0000_0000_0000_0000,
        ;
        if mid * mid <= n {
            lo = mid;
        } else {
            hi = mid;
        }
    }
    proof {
        lemma_floor_sqrt_is(n as nat, lo as nat);
    }
    lo as u64
}

/// Computes the square root, rounded down, of the number whose upper 128
/// bits are `hi` and whose lower 128 bits are `lo`.
pub fn isqrt_wide(hi: u128, lo: u128) -> (r: u128)
    ensures
        r == floor_sqrt(wide(hi, lo)),
        is_floor_sqrt(wide(hi, lo), r as nat),
{
    let mut low: u128 = 0;
    let mut high: u128 = u128::MAX;
    let ghost n = wide(hi, lo);
    assert(n < (high + 1) * (high + 1)) by (nonlinear_arith)
        requires
            high == 0xffff_ffff_ffff_ffff_ffff_ffff_ffff_ffff,
            n == hi * 0x1_0000_0000_0000_0000_0000_0000_0000_0000 + lo,
            hi <= 0xffff_ffff_ffff_ffff_ffff_ffff_ffff_ffff,
            lo <= 0xffff_ffff_ffff_ffff_ffff_ffff_ffff_ffff,
    ;
    assert(low * low <= n);
    while low < high
        invariant
            low <= high,
            n == wide(hi, lo),
            low * low <= n,
            n < (high + 1) * (high + 1),
        decreases high - low,
    {
        let mid: u128 = high - (high - low) / 2;
        if le_wide(mul_wide(mid, mid), (hi, lo)) {
            low = mid;
        } else {
            high = mid - 1;
        }
    }
    proof {
        lemma_floor_sqrt_is(n, low as nat);
    }
    low
}

} // verus!
