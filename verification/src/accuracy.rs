//! How far rounding moves a number.
use crate::rounding;
use vstd::arithmetic::div_mod::*;
use vstd::arithmetic::power2::*;
use vstd::prelude::*;

verus! {

/// Whether `v` is `n / d` up to one part in two to the power of 24.
pub open spec fn is_near(v: int, n: int, d: int) -> bool {
    &&& v * d * 0x100_0000 <= n * 0x100_0001
    &&& v * d * 0x100_0000 >= n * 0xff_ffff
}

/// Rounding to the nearest integer moves a ratio by one half at most.
pub proof fn lemma_half_even_error(n: nat, d: nat)
    requires
        d > 0,
    ensures
        2 * (rounding::half_even(n, d) * d) <= 2 * n + d,
        2 * (rounding::half_even(n, d) * d) >= 2 * n - d,
{
    let q = n / d;
    let r = n % d;
    lemma_fundamental_div_mod(n as int, d as int);
    assert((q + 1) * d == q * d + d) by (nonlinear_arith);
    assert(q * d == d * q) by (nonlinear_arith);
}

/// A ratio of 24 bits rounds to a number of 24 bits, or to the next power of two.
pub proof fn lemma_half_even_range(n: nat, d: nat)
    requires
        d > 0,
        0x80_0000 * d <= n < 0x100_0000 * d,
    ensures
        0x80_0000 <= rounding::half_even(n, d) <= 0x100_0000,
{
    let q = n / d;
    lemma_fundamental_div_mod(n as int, d as int);
    assert(0x80_0000 <= q < 0x100_0000) by (nonlinear_arith)
        requires
            n == d * q + n % d,
            0 <= n % d < d,
            0x80_0000 * d <= n < 0x100_0000 * d,
            d > 0,
    ;
}

proof fn lemma_near_in_window(h: int, p: int, d: int, n: int)
    requires
        d > 0,
        p > 0,
        2 * (h * (d * p)) <= 2 * n + d * p,
        2 * (h * (d * p)) >= 2 * n - d * p,
        0x80_0000 * (d * p) <= n,
    ensures
        is_near(h * p, n, d),
{
    assert((h * p) * d == h * (d * p)) by (nonlinear_arith);
}

/// A number that is not too small is rounded by one part in two to the power of 24
/// at most.
pub proof fn lemma_nearest_is_near(n: nat, d: nat, s: nat)
    requires
        d > 0,
        0x80_0000 * (d * pow2(s)) <= n,
    ensures
        is_near(rounding::units(rounding::nearest(n, d)) as int, n as int, d as int),
    decreases n - d * pow2(s),
{
    lemma2_to64();
    lemma_pow2_pos(s);
    let p = pow2(s);
    let dp = d * p;
    assert(dp > 0) by (nonlinear_arith)
        requires
            dp == d * p,
            d > 0,
            p > 0,
    ;
    if n < 0x100_0000 * dp {
        rounding::lemma_nearest_window(n, d, s);
        let h = rounding::half_even(n, dp);
        lemma_half_even_error(n, dp);
        lemma_half_even_range(n, dp);
        if h < 0x100_0000 {
            rounding::lemma_units_shift(h, s);
        } else {
            rounding::lemma_units_shift(0x80_0000, s + 1);
            lemma_pow2_unfold(s + 1);
            assert((s + 1) * 0x80_0000 + 0x80_0000 == s * 0x80_0000 + h);
            assert(h * p == 0x100_0000 * p);
        }
        lemma_near_in_window(h as int, p as int, d as int, n as int);
    } else {
        lemma_pow2_unfold(s + 1);
        assert(d * pow2(s + 1) == 2 * dp) by (nonlinear_arith)
            requires
                pow2(s + 1) == 2 * p,
                dp == d * p,
        ;
        lemma_nearest_is_near(n, d, s + 1);
    }
}

} // verus!
