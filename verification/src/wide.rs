//! Products that do not fit 128 bits.

use vstd::prelude::*;

verus! {

/// 2 to the power 64.
pub const HALF: u128 = 0x1_0000_0000_0000_0000;

/// The number that a high and a low part of 128 bits each stand for.
pub open spec fn wide(high: u128, low: u128) -> int {
    high * 0x1_0000_0000_0000_0000_0000_0000_0000_0000 + low
}

/// Of two numbers given in two parts, the one with the smaller high part is
/// smaller; with equal high parts the low parts decide.
pub proof fn lemma_wide_order(h1: u128, l1: u128, h2: u128, l2: u128)
    ensures
        wide(h1, l1) < wide(h2, l2) <==> h1 < h2 || (h1 == h2 && l1 < l2),
{
}

proof fn lemma_half_product(x: u128, y: u128)
    requires
        x < HALF,
        y < HALF,
    ensures
        x * y <= 0xffff_ffff_ffff_fffe_0000_0000_0000_0001,
{
    assert(x * y <= 0xffff_ffff_ffff_ffff * 0xffff_ffff_ffff_ffff) by (nonlinear_arith)
        requires
            0 <= x <= 0xffff_ffff_ffff_ffff,
            0 <= y <= 0xffff_ffff_ffff_ffff,
    ;
}

/// Multiplies two numbers of 128 bits; the product comes in a high and a low
/// part.
pub fn mul_wide(a: u128, b: u128) -> (r: (u128, u128))
    ensures
        wide(r.0, r.1) == a * b,
{
    let a1: u128 = a / HALF;
    let a0: u128 = a % HALF;
    let b1: u128 = b / HALF;
    let b0: u128 = b % HALF;
    proof {
        lemma_half_product(a0, b0);
        lemma_half_product(a0, b1);
        lemma_half_product(a1, b0);
        lemma_half_product(a1, b1);
    }
    let ll: u128 = a0 * b0;
    let lh: u128 = a0 * b1;
    let hl: u128 = a1 * b0;
    let hh: u128 = a1 * b1;
    let mid: u128 = lh % HALF + hl % HALF + ll / HALF;
    let low: u128 = (mid % HALF) * HALF + ll % HALF;
    let high: u128 = hh + lh / HALF + hl / HALF + mid / HALF;
    proof {
        let s: int = 0x1_0000_0000_0000_0000;
        let (lh1, lh0) = ((lh / HALF) as int, (lh % HALF) as int);
        let (hl1, hl0) = ((hl / HALF) as int, (hl % HALF) as int);
        let (ll1, ll0) = ((ll / HALF) as int, (ll % HALF) as int);
        let (m1, m0) = ((mid / HALF) as int, (mid % HALF) as int);
        assert(a * b == hh * (s * s) + (lh + hl) * s + ll) by (nonlinear_arith)
            requires
                a == a1 * s + a0,
                b == b1 * s + b0,
                ll == a0 * b0,
                lh == a0 * b1,
                hl == a1 * b0,
                hh == a1 * b1,
        ;
        assert(hh * (s * s) + (lh + hl) * s + ll == (hh + lh1 + hl1 + m1) * (s * s) + m0 * s + ll0)
            by (nonlinear_arith)
            requires
                lh == lh1 * s + lh0,
                hl == hl1 * s + hl0,
                ll == ll1 * s + ll0,
                lh0 + hl0 + ll1 == m1 * s + m0,
        ;
        assert(s * s == 0x1_0000_0000_0000_0000_0000_0000_0000_0000) by (nonlinear_arith)
            requires
                s == 0x1_0000_0000_0000_0000,
        ;
        assert(m0 * s == (mid % HALF) * HALF) by (nonlinear_arith)
            requires
                m0 == mid % HALF,
                s == HALF,
        ;
    }
    (high, low)
}

} // verus!
