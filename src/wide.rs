//! Products of two `u128` values, exactly, as a pair of high and low halves.
use vstd::prelude::*;

verus! {

/// `2^64`.
pub const HALF: u128 = 0x1_0000_0000_0000_0000;

/// The number `hi * 2^128 + lo`.
pub open spec fn wide_value(hi: u128, lo: u128) -> int {
    hi * 0x1_0000_0000_0000_0000_0000_0000_0000_0000int + lo
}

proof fn lemma_split(v: u128)
    ensures
        v == (v / HALF) * HALF + v % HALF,
        v / HALF < HALF,
        v % HALF < HALF,
{
}

proof fn lemma_limb_product(a: u128, b: u128)
    requires
        a < HALF,
        b < HALF,
    ensures
        a * b <= u128::MAX,
{
    assert(a * b <= 0xFFFF_FFFF_FFFF_FFFFint * 0xFFFF_FFFF_FFFF_FFFFint) by (nonlinear_arith)
        requires
            a <= 0xFFFF_FFFF_FFFF_FFFFint,
            b <= 0xFFFF_FFFF_FFFF_FFFFint,
    ;
}

/// The product `x * y` as its high and low 128-bit halves.
pub fn mul_wide(x: u128, y: u128) -> (r: (u128, u128))
    ensures
        wide_value(r.0, r.1) == x * y,
{
    let x0 = x % HALF;
    let x1 = x / HALF;
    let y0 = y % HALF;
    let y1 = y / HALF;
    proof {
        lemma_split(x);
        lemma_split(y);
        lemma_limb_product(x0, y0);
        lemma_limb_product(x0, y1);
        lemma_limb_product(x1, y0);
        lemma_limb_product(x1, y1);
    }
    let p00 = x0 * y0;
    let p01 = x0 * y1;
    let p10 = x1 * y0;
    let p11 = x1 * y1;
    let c0 = p00 % HALF;
    let c1 = p00 / HALF;
    let a0 = p01 % HALF;
    let a1 = p01 / HALF;
    let b0 = p10 % HALF;
    let b1 = p10 / HALF;
    proof {
        lemma_split(p00);
        lemma_split(p01);
        lemma_split(p10);
    }
    let s = c1 + a0 + b0;
    proof {
        lemma_split(s);
    }
    let s0 = s % HALF;
    let s1 = s / HALF;
    let ghost h: int = 18446744073709551616;
    let ghost hi: int = p11 + a1 + b1 + s1;
    assert(x * y == p11 * (h * h) + (p01 + p10) * h + p00) by (nonlinear_arith)
        requires
            x == x1 * h + x0,
            y == y1 * h + y0,
            p00 == x0 * y0,
            p01 == x0 * y1,
            p10 == x1 * y0,
            p11 == x1 * y1,
    ;
    assert(x * y == hi * (h * h) + s0 * h + c0) by (nonlinear_arith)
        requires
            x * y == p11 * (h * h) + (p01 + p10) * h + p00,
            p00 == c1 * h + c0,
            p01 == a1 * h + a0,
            p10 == b1 * h + b0,
            s == c1 + a0 + b0,
            s == s1 * h + s0,
            hi == p11 + a1 + b1 + s1,
    ;
    let ghost q: int = h * h;
    assert(x * y < q * q) by (nonlinear_arith)
        requires
            0 <= x < q,
            0 <= y < q,
    ;
    assert(hi * q <= x * y) by (nonlinear_arith)
        requires
            x * y == hi * q + s0 * h + c0,
            0 <= s0,
            0 <= c0,
            0 <= h,
    ;
    assert(hi < q) by (nonlinear_arith)
        requires
            hi * q < q * q,
            0 < q,
    ;
    assert(s0 * h + c0 < h * h) by (nonlinear_arith)
        requires
            0 <= s0 < h,
            0 <= c0 < h,
    ;
    let lo = s0 * HALF + c0;
    let top = p11 + a1 + b1 + s1;
    (top, lo)
}

/// Compares `a * b` with `c * d` exactly: true when `a * b <= c * d`.
pub fn product_le(a: u128, b: u128, c: u128, d: u128) -> (r: bool)
    ensures
        r == (a * b <= c * d),
{
    let (h1, l1) = mul_wide(a, b);
    let (h2, l2) = mul_wide(c, d);
    h1 < h2 || (h1 == h2 && l1 <= l2)
}

} // verus!
