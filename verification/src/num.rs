use vstd::prelude::*;
use vstd::arithmetic::div_mod::lemma_fundamental_div_mod;

verus! {

/// Truncating division: the quotient of `a / b` rounded toward zero.
pub open spec fn div_trunc(a: int, b: int) -> int
    recommends
        b > 0,
{
    if a >= 0 {
        a / b
    } else {
        -((-a) / b)
    }
}

/// `a / b` rounded to the nearest integer, halves away from zero,
/// for a non-negative dividend.
pub open spec fn rdiv_mag(a: int, b: int) -> int
    recommends
        a >= 0,
        b > 0,
{
    if 2 * (a % b) >= b {
        a / b + 1
    } else {
        a / b
    }
}

/// `a / b` rounded to the nearest integer, halves away from zero.
pub open spec fn rdiv(a: int, b: int) -> int
    recommends
        b != 0,
{
    let m = rdiv_mag(abs_int(a), abs_int(b));
    if (a < 0) <==> (b < 0) {
        m
    } else {
        -m
    }
}

/// The absolute value of an integer.
pub open spec fn abs_int(a: int) -> int {
    if a >= 0 {
        a
    } else {
        -a
    }
}

/// The rounded quotient never overshoots the exact one by more than one.
pub proof fn lemma_rdiv_mag_bounds(a: int, b: int)
    requires
        a >= 0,
        b > 0,
    ensures
        a / b <= rdiv_mag(a, b) <= a / b + 1,
        0 <= rdiv_mag(a, b) <= a,
{
    lemma_fundamental_div_mod(a, b);
    assert(a / b >= 0) by (nonlinear_arith)
        requires
            a >= 0,
            b > 0,
    ;
    assert(a / b * b <= a) by (nonlinear_arith)
        requires
            a >= 0,
            b > 0,
    ;
    assert(a / b <= a) by (nonlinear_arith)
        requires
            a >= 0,
            b > 0,
            a / b >= 0,
            a / b * b <= a,
    ;
    if 2 * (a % b) >= b {
        assert(a % b >= 1);
        assert(a / b <= a / b * b) by (nonlinear_arith)
            requires
                a / b >= 0,
                b >= 1,
        ;
        assert(a / b * b == a - a % b) by (nonlinear_arith)
            requires
                a == b * (a / b) + a % b,
        ;
        assert(a / b + 1 <= a);
    }
}

/// Rounding the quotient of two non-negative machine integers,
/// halves away from zero.
pub(crate) fn rdiv_u128(a: u128, b: u128) -> (q: u128)
    requires
        b > 0,
    ensures
        q as int == rdiv_mag(a as int, b as int),
        q as int <= a as int,
{
    let d = a / b;
    let r = a % b;
    proof {
        lemma_rdiv_mag_bounds(a as int, b as int);
    }
    if r >= b - r {
        d + 1
    } else {
        d
    }
}

} // verus!
