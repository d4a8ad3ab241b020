//! The order of fractions with positive denominators, by cross-multiplication.
//!
//! The fraction `a / x` is less than `b / y` exactly when `a * y < b * x`. The
//! lemmas here say that this order is transitive.

use vstd::prelude::*;

verus! {

/// `a/x < b/y` and `b/y <= c/z` give `a/x < c/z`.
pub proof fn lemma_order_strict(a: int, x: int, b: int, y: int, c: int, z: int)
    requires
        0 < x,
        0 < y,
        0 < z,
        a * y < b * x,
        b * z <= c * y,
    ensures
        a * z < c * x,
{
    assert((a * y) * z < (b * x) * z) by (nonlinear_arith)
        requires
            a * y < b * x,
            0 < z,
    ;
    assert((b * z) * x <= (c * y) * x) by (nonlinear_arith)
        requires
            b * z <= c * y,
            0 < x,
    ;
    assert((a * y) * z == (a * z) * y) by (nonlinear_arith);
    assert((b * x) * z == (b * z) * x) by (nonlinear_arith);
    assert((c * y) * x == (c * x) * y) by (nonlinear_arith);
    assert(a * z < c * x) by (nonlinear_arith)
        requires
            (a * z) * y < (c * x) * y,
            0 < y,
    ;
}

/// `a/x <= b/y` and `b/y <= c/z` give `a/x <= c/z`.
pub proof fn lemma_order_weak(a: int, x: int, b: int, y: int, c: int, z: int)
    requires
        0 < x,
        0 < y,
        0 < z,
        a * y <= b * x,
        b * z <= c * y,
    ensures
        a * z <= c * x,
{
    assert((a * y) * z <= (b * x) * z) by (nonlinear_arith)
        requires
            a * y <= b * x,
            0 < z,
    ;
    assert((b * z) * x <= (c * y) * x) by (nonlinear_arith)
        requires
            b * z <= c * y,
            0 < x,
    ;
    assert((a * y) * z == (a * z) * y) by (nonlinear_arith);
    assert((b * x) * z == (b * z) * x) by (nonlinear_arith);
    assert((c * y) * x == (c * x) * y) by (nonlinear_arith);
    assert(a * z <= c * x) by (nonlinear_arith)
        requires
            (a * z) * y <= (c * x) * y,
            0 < y,
    ;
}

} // verus!
