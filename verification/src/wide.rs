//! Products of two 128-bit numbers, kept whole in two halves.

use vstd::prelude::*;

verus! {

/// The number whose upper 128 bits are `hi` and whose lower 128 bits are
/// `lo`.
pub open spec fn wide(hi: u128, lo: u128) -> nat {
    (hi * 0x1_0000_0000_0000_0000_0000_0000_0000_0000 + lo) as nat
}

/// The upper and the lower 64 bits of `x`.
fn split(x: u128) -> (r: (u128, u128))
    ensures
        x == r.0 * 0x1_0000_0000_0000_0000 + r.1,
        r.0 < 0x1_0000_0000_0000_0000,
        r.1 < 0x1_0000_0000_0000_0000,
{
    (x / 0x1_0000_0000_0000_0000, x % 0x1_0000_0000_0000_0000)
}

/// The product of two numbers of 64 bits.
fn mul_limbs(a: u128, b: u128) -> (p: u128)
    requires
        a < 0x1_0000_0000_0000_0000,
        b < 0x1_0000_0000_0000_0000,
    ensures
        p == a * b,
        p <= 0xffff_ffff_ffff_fffe_0000_0000_0000_0001,
{
    proof {
        lemma_limb_product(a as int, b as int);
    }
    a * b
}

/// The product of `a` and `b`, whole: its upper and its lower 128 bits.
pub fn mul_wide(a: u128, b: u128) -> (r: (u128, u128))
    ensures
        wide(r.0, r.1) == a * b,
{
    let (a1, a0) = split(a);
    let (b1, b0) = split(b);
    let ll: u128 = mul_limbs(a0, b0);
    let lh: u128 = mul_limbs(a0, b1);
    let hl: u128 = mul_limbs(a1, b0);
    let hh: u128 = mul_limbs(a1, b1);
    let (ll_high, ll_low) = split(ll);
    let (lh_high, lh_low) = split(lh);
    let (hl_high, hl_low) = split(hl);
    let (middle_high, middle_low) = split(lh_low + hl_low + ll_high);
    assert(lh_high <= 0xffff_ffff_ffff_fffe && hl_high <= 0xffff_ffff_ffff_fffe && middle_high
        <= 2);
    let hi: u128 = hh + lh_high + hl_high + middle_high;
    let lo: u128 = middle_low * 0x1_0000_0000_0000_0000 + ll_low;
    proof {
        lemma_cross(0x1_0000_0000_0000_0000, a0 as int, a1 as int, b0 as int, b1 as int);
    }
    proof {
        lemma_carries(
            hh as int,
            lh as int,
            hl as int,
            ll as int,
            ll_low as int,
            ll_high as int,
            lh_low as int,
            lh_high as int,
            hl_low as int,
            hl_high as int,
            middle_low as int,
            middle_high as int,
        );
    }
    (hi, lo)
}

/// The product of two numbers of two limbs each, as the sum of its four
/// partial products.
proof fn lemma_cross(base: int, a0: int, a1: int, b0: int, b1: int)
    ensures
        (a1 * base + a0) * (b1 * base + b0) == (a1 * b1) * (base * base) + (a0 * b1 + a1 * b0)
            * base + a0 * b0,
{
    let x = a1 * base;
    let y = b1 * base;
    assert((x + a0) * (y + b0) == x * y + x * b0 + a0 * y + a0 * b0) by (nonlinear_arith);
    assert(x * y == (a1 * b1) * (base * base)) by (nonlinear_arith)
        requires
            x == a1 * base,
            y == b1 * base,
    ;
    assert(x * b0 == (a1 * b0) * base) by (nonlinear_arith)
        requires
            x == a1 * base,
    ;
    assert(a0 * y == (a0 * b1) * base) by (nonlinear_arith)
        requires
            y == b1 * base,
    ;
    assert((a0 * b1) * base + (a1 * b0) * base == (a0 * b1 + a1 * b0) * base)
        by (nonlinear_arith);
}

/// The four partial products of two numbers of two limbs each, put
/// together with their carries.
proof fn lemma_carries(
    hh: int,
    lh: int,
    hl: int,
    ll: int,
    ll_low: int,
    ll_high: int,
    lh_low: int,
    lh_high: int,
    hl_low: int,
    hl_high: int,
    middle_low: int,
    middle_high: int,
)
    requires
        ll == ll_high * 0x1_0000_0000_0000_0000 + ll_low,
        lh == lh_high * 0x1_0000_0000_0000_0000 + lh_low,
        hl == hl_high * 0x1_0000_0000_0000_0000 + hl_low,
        lh_low + hl_low + ll_high == middle_high * 0x1_0000_0000_0000_0000 + middle_low,
    ensures
        (hh + lh_high + hl_high + middle_high) * 0x1_0000_0000_0000_0000_0000_0000_0000_0000 + (
        middle_low * 0x1_0000_0000_0000_0000 + ll_low) == hh
            * 0x1_0000_0000_0000_0000_0000_0000_0000_0000 + (lh + hl) * 0x1_0000_0000_0000_0000
            + ll,
{
}

/// The product of two 64-bit numbers is at most `(2^64 - 1)^2`.
proof fn lemma_limb_product(a: int, b: int)
    by (nonlinear_arith)
    requires
        0 <= a < 0x1_0000_0000_0000_0000,
        0 <= b < 0x1_0000_0000_0000_0000,
    ensures
        0 <= a * b <= 0xffff_ffff_ffff_fffe_0000_0000_0000_0001,
{
}

/// Whether the first of two whole products is at most the second.
pub fn le_wide(a: (u128, u128), b: (u128, u128)) -> (r: bool)
    ensures
        r == (wide(a.0, a.1) <= wide(b.0, b.1)),
{
    a.0 < b.0 || (a.0 == b.0 && a.1 <= b.1)
}

} // verus!
