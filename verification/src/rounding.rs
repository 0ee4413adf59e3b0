//! Rounding of exact ratios to 24 significant bits.
//!
//! A non-negative single-precision number is named by its magnitude code, the
//! low 31 bits of its IEEE 754 representation. Values are counted in units of
//! the smallest positive single, two to the power of minus 149, so that every
//! finite single is a whole number of units.
use vstd::arithmetic::div_mod::*;
use vstd::arithmetic::power2::*;
use vstd::prelude::*;

verus! {

/// The magnitude code of infinity: the first code that is not a finite number.
pub const INFINITE: u32 = 0x7f80_0000;

/// `n / d` rounded to the nearest integer, ties to the even one.
pub open spec fn half_even(n: nat, d: nat) -> nat
    recommends
        d > 0,
{
    let q = n / d;
    let r = n % d;
    if 2 * r < d || (2 * r == d && q % 2 == 0) {
        q
    } else {
        q + 1
    }
}

/// The magnitude code nearest to `n / d` units, with an unbounded exponent.
///
/// Codes below two to the power of 24 count units. Beyond that, each block of
/// two to the power of 23 codes has twice the spacing of the block before it.
pub open spec fn nearest(n: nat, d: nat) -> nat
    decreases n - d,
{
    if d == 0 || n < 0x100_0000 * d {
        half_even(n, d)
    } else {
        0x80_0000 + nearest(n, 2 * d)
    }
}

/// The magnitude code that single precision gives to `n / d` units: what lies
/// beyond the largest finite number is infinite.
pub open spec fn magnitude(n: nat, d: nat) -> nat {
    capped(nearest(n, d))
}

/// A magnitude code, or that of infinity where there is no finite one.
pub open spec fn capped(code: nat) -> nat {
    if code < INFINITE {
        code
    } else {
        INFINITE as nat
    }
}

/// The number of units that a finite magnitude code stands for.
pub open spec fn units(code: nat) -> nat
    decreases code,
{
    if code < 0x100_0000 {
        code
    } else {
        2 * units((code - 0x80_0000) as nat)
    }
}

/// `nearest` of `n / d` units times a power of two.
pub open spec fn nearest_scaled(n: nat, d: nat, e: int) -> nat {
    if e >= 0 {
        nearest(n * pow2(e as nat), d)
    } else {
        nearest(n, d * pow2((-e) as nat))
    }
}

pub proof fn lemma_half_even_scale(n: nat, d: nat, k: nat)
    requires
        d > 0,
        k > 0,
    ensures
        half_even(k * n, k * d) == half_even(n, d),
{
    let q = n / d;
    let r = n % d;
    lemma_fundamental_div_mod(n as int, d as int);
    assert(k * n == q * (k * d) + k * r) by (nonlinear_arith)
        requires
            n == d * q + r,
    ;
    assert(0 <= k * r < k * d) by (nonlinear_arith)
        requires
            0 <= r < d,
            k > 0,
    ;
    assert(k * d > 0) by (nonlinear_arith)
        requires
            d > 0,
            k > 0,
    ;
    lemma_fundamental_div_mod_converse((k * n) as int, (k * d) as int, q as int, (k * r) as int);
    assert((2 * r < d) == (2 * (k * r) < k * d)) by (nonlinear_arith)
        requires
            k > 0,
    ;
    assert((2 * r == d) == (2 * (k * r) == k * d)) by (nonlinear_arith)
        requires
            k > 0,
    ;
}

pub proof fn lemma_nearest_scale(n: nat, d: nat, k: nat)
    requires
        d > 0,
        k > 0,
    ensures
        nearest(k * n, k * d) == nearest(n, d),
    decreases n - d,
{
    assert(k * d > 0) by (nonlinear_arith)
        requires
            d > 0,
            k > 0,
    ;
    assert((n < 0x100_0000 * d) == (k * n < 0x100_0000 * (k * d))) by (nonlinear_arith)
        requires
            k > 0,
    ;
    if n < 0x100_0000 * d {
        lemma_half_even_scale(n, d, k);
    } else {
        lemma_nearest_scale(n, 2 * d, k);
        assert(k * (2 * d) == 2 * (k * d)) by (nonlinear_arith);
    }
}

/// Doubling the denominator and the power of two keeps the value.
pub proof fn lemma_scaled_denominator(n: nat, d: nat, e: int)
    requires
        d > 0,
    ensures
        nearest_scaled(n, 2 * d, e + 1) == nearest_scaled(n, d, e),
{
    if e >= 0 {
        let p = pow2(e as nat);
        lemma_pow2_unfold((e + 1) as nat);
        assert(n * pow2((e + 1) as nat) == 2 * (n * p)) by (nonlinear_arith)
            requires
                pow2((e + 1) as nat) == 2 * p,
        ;
        lemma_nearest_scale(n * p, d, 2);
    } else if e == -1 {
        lemma_pow2_unfold(1);
        assert(pow2(0) == 1) by {
            lemma2_to64();
        }
        assert(pow2(1) == 2);
        assert(n * 1 == n);
        assert(d * 2 == 2 * d);
    } else {
        let p = pow2((-(e + 1)) as nat);
        lemma_pow2_unfold((-e) as nat);
        assert((2 * d) * p == d * pow2((-e) as nat)) by (nonlinear_arith)
            requires
                pow2((-e) as nat) == 2 * p,
        ;
    }
}

/// Doubling the numerator and halving the power of two keeps the value.
pub proof fn lemma_scaled_numerator(n: nat, d: nat, e: int)
    requires
        d > 0,
    ensures
        nearest_scaled(2 * n, d, e - 1) == nearest_scaled(n, d, e),
{
    if e >= 1 {
        let p = pow2((e - 1) as nat);
        lemma_pow2_unfold(e as nat);
        assert((2 * n) * p == n * pow2(e as nat)) by (nonlinear_arith)
            requires
                pow2(e as nat) == 2 * p,
        ;
    } else {
        let p = pow2((-e) as nat);
        lemma_pow2_unfold((-e + 1) as nat);
        lemma_pow2_pos((-e) as nat);
        assert(d * pow2((-e + 1) as nat) == 2 * (d * p)) by (nonlinear_arith)
            requires
                pow2((-e + 1) as nat) == 2 * p,
        ;
        assert(d * p > 0) by (nonlinear_arith)
            requires
                d > 0,
                p > 0,
        ;
        lemma_nearest_scale(n, d * p, 2);
        if e == 0 {
            assert(pow2(0) == 1) by {
                lemma2_to64();
            }
            assert(n * 1 == n);
            assert(d * 1 == d);
        }
    }
}

/// Powers of two above and below the fraction bar only count by their difference.
pub proof fn lemma_scaled_powers(n: nat, d: nat, i: nat, j: nat)
    requires
        d > 0,
    ensures
        nearest(n * pow2(i), d * pow2(j)) == nearest_scaled(n, d, i - j),
{
    lemma_pow2_pos(i);
    lemma_pow2_pos(j);
    if i >= j {
        let g = (i - j) as nat;
        lemma_pow2_adds(g, j);
        assert(n * pow2(i) == pow2(j) * (n * pow2(g))) by (nonlinear_arith)
            requires
                pow2(i) == pow2(g) * pow2(j),
        ;
        assert(d * pow2(j) == pow2(j) * d) by (nonlinear_arith);
        lemma_nearest_scale(n * pow2(g), d, pow2(j));
    } else {
        let g = (j - i) as nat;
        lemma_pow2_adds(g, i);
        lemma_pow2_pos(g);
        assert(d * pow2(j) == pow2(i) * (d * pow2(g))) by (nonlinear_arith)
            requires
                pow2(j) == pow2(g) * pow2(i),
        ;
        assert(n * pow2(i) == pow2(i) * n) by (nonlinear_arith);
        assert(d * pow2(g) > 0) by (nonlinear_arith)
            requires
                d > 0,
                pow2(g) > 0,
        ;
        lemma_nearest_scale(n, d * pow2(g), pow2(i));
    }
}

/// A ratio with 24 bits before the point, shifted left.
pub proof fn lemma_nearest_window(n: nat, d: nat, s: nat)
    requires
        d > 0,
        0x80_0000 * (d * pow2(s)) <= n < 0x100_0000 * (d * pow2(s)),
    ensures
        nearest(n, d) == s * 0x80_0000 + half_even(n, d * pow2(s)),
    decreases s,
{
    if s == 0 {
        assert(pow2(0) == 1) by {
            lemma2_to64();
        }
        assert(d * 1 == d);
    } else {
        let p = pow2((s - 1) as nat);
        lemma_pow2_unfold(s);
        lemma_pow2_pos((s - 1) as nat);
        assert(d * pow2(s) == (2 * d) * p && d * pow2(s) >= 2 * d) by (nonlinear_arith)
            requires
                pow2(s) == 2 * p,
                p >= 1,
        ;
        lemma_nearest_window(n, 2 * d, (s - 1) as nat);
    }
}

/// The code of a magnitude times a power of two.
pub proof fn lemma_units_shift(code: nat, s: nat)
    requires
        0x80_0000 <= code < 0x100_0000,
    ensures
        units(s * 0x80_0000 + code) == code * pow2(s),
    decreases s,
{
    if s == 0 {
        assert(pow2(0) == 1) by {
            lemma2_to64();
        }
        assert(code * 1 == code);
    } else {
        lemma_units_shift(code, (s - 1) as nat);
        lemma_pow2_unfold(s);
        let p = pow2((s - 1) as nat);
        assert(code * pow2(s) == 2 * (code * p)) by (nonlinear_arith)
            requires
                pow2(s) == 2 * p,
        ;
    }
}

pub proof fn lemma_units_at_least(code: nat)
    ensures
        units(code) >= code,
    decreases code,
{
    if code >= 0x100_0000 {
        lemma_units_at_least((code - 0x80_0000) as nat);
    }
}

/// The order of the codes is the order of the values.
pub proof fn lemma_units_increase(a: nat, b: nat)
    requires
        a < b,
    ensures
        units(a) < units(b),
    decreases b,
{
    if b >= 0x100_0000 {
        if a < 0x100_0000 {
            lemma_units_at_least((b - 0x80_0000) as nat);
        } else {
            lemma_units_increase((a - 0x80_0000) as nat, (b - 0x80_0000) as nat);
        }
    }
}

/// Adding or taking away less than a quarter of the spacing changes nothing.
pub proof fn lemma_nearest_absorbs(m: nat, s: nat, y: nat)
    requires
        0x80_0000 <= m < 0x100_0000,
        s >= 2,
        y < pow2((s - 2) as nat),
    ensures
        nearest(m * pow2(s) + y, 1) == s * 0x80_0000 + m,
        y <= m * pow2(s),
        nearest((m * pow2(s) - y) as nat, 1) == s * 0x80_0000 + m,
{
    let p = pow2(s);
    let h = pow2((s - 1) as nat);
    lemma_pow2_unfold(s);
    lemma_pow2_unfold((s - 1) as nat);
    lemma_pow2_pos((s - 2) as nat);
    assert(p == 2 * h && 2 * y < h && 4 * y < p);
    assert(1 * p == p && 1 * h == h);
    assert(p <= m * p) by (nonlinear_arith)
        requires
            m >= 1,
    ;
    let above = m * p + y;
    assert(0x80_0000 * p <= above < 0x100_0000 * p) by (nonlinear_arith)
        requires
            above == m * p + y,
            0x80_0000 <= m <= 0x100_0000 - 1,
            4 * y < p,
    ;
    lemma_nearest_window(above, 1, s);
    lemma_fundamental_div_mod_converse(above as int, p as int, m as int, y as int);
    let below = (m * p - y) as nat;
    if y == 0 {
    } else if m > 0x80_0000 {
        assert(0x80_0000 * p <= below < 0x100_0000 * p) by (nonlinear_arith)
            requires
                below == m * p - y,
                0x80_0001 <= m <= 0x100_0000 - 1,
                4 * y < p,
        ;
        lemma_nearest_window(below, 1, s);
        assert(below == (m - 1) * p + (p - y)) by (nonlinear_arith)
            requires
                below == m * p - y,
        ;
        lemma_fundamental_div_mod_converse(below as int, p as int, m - 1, p - y);
    } else {
        assert(below == 0x100_0000 * h - y);
        lemma_nearest_window(below, 1, (s - 1) as nat);
        lemma_fundamental_div_mod_converse(below as int, h as int, 0x100_0000 - 1, h - y);
    }
}

/// A finite number is its own rounding.
pub proof fn lemma_nearest_of_units(code: nat)
    ensures
        nearest(units(code), 1) == code,
{
    lemma2_to64();
    if code < 0x100_0000 {
        lemma_fundamental_div_mod_converse(code as int, 1, code as int, 0);
    } else {
        let s = (code / 0x80_0000 - 1) as nat;
        let m = code % 0x80_0000 + 0x80_0000;
        let p = pow2(s);
        assert(code == s * 0x80_0000 + m);
        lemma_units_shift(m, s);
        lemma_pow2_pos(s);
        assert(1 * p == p);
        assert(0x80_0000 * p <= m * p < 0x100_0000 * p) by (nonlinear_arith)
            requires
                0x80_0000 <= m < 0x100_0000,
                p > 0,
        ;
        lemma_nearest_window(m * p, 1, s);
        lemma_fundamental_div_mod_converse((m * p) as int, p as int, m as int, 0);
    }
}

/// Half-even rounding keeps the order of ratios.
pub proof fn lemma_half_even_monotone(n: nat, d: nat, m: nat, e: nat)
    requires
        d > 0,
        e > 0,
        n * e <= m * d,
    ensures
        half_even(n, d) <= half_even(m, e),
{
    let q = n / d;
    let r = n % d;
    let p = m / e;
    let s = m % e;
    lemma_fundamental_div_mod(n as int, d as int);
    lemma_fundamental_div_mod(m as int, e as int);
    // In whole steps of one over d times e: q * de + r * e <= p * de + s * d.
    let de = d * e;
    assert(q * de + r * e <= p * de + s * d) by (nonlinear_arith)
        requires
            n == d * q + r,
            m == e * p + s,
            n * e <= m * d,
            de == d * e,
    ;
    assert(0 <= r * e < de && 0 <= s * d < de && de > 0) by (nonlinear_arith)
        requires
            0 <= r < d,
            0 <= s < e,
            de == d * e,
    ;
    assert(q <= p) by (nonlinear_arith)
        requires
            q * de + r * e <= p * de + s * d,
            0 <= r * e,
            s * d < de,
            de > 0,
    ;
    if q == p {
        assert(r * e <= s * d);
        assert(2 * r > d ==> 2 * s > e) by (nonlinear_arith)
            requires
                r * e <= s * d,
                d > 0,
                e > 0,
        ;
        assert(2 * r == d ==> 2 * s >= e) by (nonlinear_arith)
            requires
                r * e <= s * d,
                d > 0,
                e > 0,
        ;
    }
}

proof fn lemma_half_even_bounds(n: nat, d: nat, k: nat)
    requires
        d > 0,
    ensures
        n < k * d ==> half_even(n, d) <= k,
        n >= k * d ==> half_even(n, d) >= k,
{
    let q = n / d;
    lemma_fundamental_div_mod(n as int, d as int);
    assert(n < k * d ==> q < k) by (nonlinear_arith)
        requires
            n == d * q + n % d,
            n % d >= 0,
            d > 0,
    ;
    assert(n >= k * d ==> q >= k) by (nonlinear_arith)
        requires
            n == d * q + n % d,
            n % d < d,
            d > 0,
    ;
}

proof fn lemma_nearest_at_least(n: nat, d: nat)
    requires
        d > 0,
        n >= 0x80_0000 * d,
    ensures
        nearest(n, d) >= 0x80_0000,
        n >= 0x100_0000 * d ==> nearest(n, d) >= 0x100_0000,
    decreases n - d,
{
    if n < 0x100_0000 * d {
        lemma_half_even_bounds(n, d, 0x80_0000);
    } else {
        lemma_nearest_at_least(n, 2 * d);
    }
}

/// Rounding keeps the order of ratios.
pub proof fn lemma_nearest_monotone(n: nat, d: nat, m: nat, e: nat)
    requires
        d > 0,
        e > 0,
        n * e <= m * d,
    ensures
        nearest(n, d) <= nearest(m, e),
    decreases n - d,
{
    if n < 0x100_0000 * d {
        if m < 0x100_0000 * e {
            lemma_half_even_monotone(n, d, m, e);
        } else {
            lemma_half_even_bounds(n, d, 0x100_0000);
            lemma_nearest_at_least(m, e);
        }
    } else {
        assert(m >= 0x100_0000 * e) by (nonlinear_arith)
            requires
                n * e <= m * d,
                n >= 0x100_0000 * d,
                d > 0,
                e > 0,
        ;
        assert(n * (2 * e) <= m * (2 * d)) by (nonlinear_arith)
            requires
                n * e <= m * d,
        ;
        lemma_nearest_monotone(n, 2 * d, m, 2 * e);
    }
}

proof fn lemma_exponent_below(k: nat, bound: nat)
    requires
        pow2(k) < pow2(bound),
    ensures
        k < bound,
{
    if k >= bound && k > bound {
        lemma_pow2_strictly_increases(bound, k);
    }
}

/// Half-even rounding of a ratio below one half gives nothing.
proof fn lemma_half_even_vanishes(n: nat, d: nat)
    requires
        2 * n < d,
    ensures
        half_even(n, d) == 0,
{
    lemma_fundamental_div_mod_converse(n as int, d as int, 0, n as int);
}

/// `n / d` rounded to the nearest integer.
pub fn round_half_even(n: u128, d: u128) -> (q: u128)
    requires
        0 < d < 0x8000_0000_0000_0000_0000_0000_0000_0000,
        n < 0x8000_0000_0000_0000_0000_0000_0000_0000,
    ensures
        q == half_even(n as nat, d as nat),
{
    let q: u128 = n / d;
    let r: u128 = n % d;
    assert(q <= n) by (nonlinear_arith)
        requires
            q == n / d,
            d > 0,
    ;
    if 2 * r < d || (2 * r == d && q % 2 == 0) {
        q
    } else {
        q + 1
    }
}

/// The single-precision magnitude of `n / d` units times two to the power of `e`.
pub fn round_scaled(n: u128, d: u128, e: i32) -> (code: u32)
    requires
        n < 0x1_0000_0000_0000_0000_0000,
        0 < d < 0x1_0000_0000_0000_0000_0000,
        -2000 <= e <= 2000,
    ensures
        code == capped(nearest_scaled(n as nat, d as nat, e as int)),
{
    let ghost goal = nearest_scaled(n as nat, d as nat, e as int);
    proof {
        lemma2_to64();
        assert(pow2(80) == 0x1_0000_0000_0000_0000_0000) by {
            lemma_pow2_adds(16, 64);
        }
        assert(pow2(104) == 0x100_0000_0000_0000_0000_0000_0000) by {
            lemma2_to64_rest();
            lemma_pow2_adds(40, 64);
        }
    }
    if n == 0 {
        proof {
            if e >= 0 {
                assert(0 * pow2(e as nat) == 0);
                lemma_half_even_vanishes(0, d as nat);
            } else {
                lemma_pow2_pos((-e) as nat);
                let dd = d * pow2((-e) as nat);
                assert(dd > 0) by (nonlinear_arith)
                    requires
                        dd == d * pow2((-e) as nat),
                        d > 0,
                        pow2((-e) as nat) > 0,
                ;
                lemma_half_even_vanishes(0, dd as nat);
            }
        }
        return 0;
    }
    let mut d1: u128 = d;
    let mut up: i32 = 0;
    proof {
        assert(d * 1 == d);
    }
    while n >= 0x100_0000 * d1
        invariant
            0 < n < 0x1_0000_0000_0000_0000_0000,
            0 < d,
            0 < d1 < 0x1_0000_0000_0000_0000_0000,
            d1 == d * pow2(up as nat),
            0 <= up <= 80,
            -2000 <= e <= 2000,
            pow2(80) == 0x1_0000_0000_0000_0000_0000,
            nearest_scaled(n as nat, d1 as nat, e + up) == goal,
        decreases n - d1,
    {
        proof {
            lemma_scaled_denominator(n as nat, d1 as nat, e + up);
            lemma_pow2_unfold((up + 1) as nat);
            let p = pow2(up as nat);
            assert(2 * d1 == d * (2 * p)) by (nonlinear_arith)
                requires
                    d1 == d * p,
            ;
            assert(2 * p <= d * (2 * p)) by (nonlinear_arith)
                requires
                    d >= 1,
            ;
            lemma_exponent_below((up + 1) as nat, 80);
        }
        d1 = 2 * d1;
        up = up + 1;
    }
    let mut n1: u128 = n;
    let mut down: i32 = 0;
    proof {
        assert(n * 1 == n);
    }
    while n1 < 0x80_0000 * d1
        invariant
            0 < n,
            0 < d1 < 0x1_0000_0000_0000_0000_0000,
            0 < n1 < 0x100_0000 * d1,
            n1 == n * pow2(down as nat),
            0 <= down <= 104,
            0 <= up <= 80,
            -2000 <= e <= 2000,
            pow2(104) == 0x100_0000_0000_0000_0000_0000_0000,
            nearest_scaled(n1 as nat, d1 as nat, e + up - down) == goal,
        decreases 0x100_0000 * d1 - n1,
    {
        proof {
            lemma_scaled_numerator(n1 as nat, d1 as nat, e + up - down);
            lemma_pow2_unfold((down + 1) as nat);
            let p = pow2(down as nat);
            assert(2 * n1 == n * (2 * p)) by (nonlinear_arith)
                requires
                    n1 == n * p,
            ;
            assert(2 * p <= n * (2 * p)) by (nonlinear_arith)
                requires
                    n >= 1,
            ;
            lemma_exponent_below((down + 1) as nat, 104);
        }
        n1 = 2 * n1;
        down = down + 1;
    }
    let shift: i32 = e + up - down;
    if shift >= 0 {
        let q: u128 = round_half_even(n1, d1);
        proof {
            let nn = n1 as nat;
            let dd = d1 as nat;
            let p = pow2(shift as nat);
            lemma_scaled_powers(nn, dd, shift as nat, 0);
            lemma_pow2_pos(shift as nat);
            assert(dd * 1 == dd);
            assert(0x80_0000 * (dd * p) <= nn * p < 0x100_0000 * (dd * p)) by (nonlinear_arith)
                requires
                    0x80_0000 * dd <= nn < 0x100_0000 * dd,
                    p > 0,
            ;
            lemma_nearest_window(nn * p, dd, shift as nat);
            assert(nn * p == p * nn) by (nonlinear_arith);
            assert(dd * p == p * dd) by (nonlinear_arith);
            lemma_half_even_scale(nn, dd, p);
            assert(goal == shift * 0x80_0000 + q);
            assert(q <= 0x100_0000) by {
                lemma_quotient_bound(nn, dd);
            }
        }
        if shift >= 255 {
            return INFINITE;
        }
        let code: u32 = (shift as u32) * 0x80_0000 + q as u32;
        if code < INFINITE {
            code
        } else {
            INFINITE
        }
    } else if shift < -25 {
        proof {
            let dd = d1 as nat;
            let p = pow2((-shift) as nat);
            if -shift > 26 {
                lemma_pow2_strictly_increases(26, (-shift) as nat);
            }
            assert(pow2(26) == 0x400_0000);
            assert(0x400_0000 * dd <= dd * p) by (nonlinear_arith)
                requires
                    p >= 0x400_0000,
            ;
            lemma_half_even_vanishes(n1 as nat, dd * p);
        }
        0
    } else {
        let ghost p = pow2((-shift) as nat);
        let mut d2: u128 = d1;
        let mut k: i32 = 0;
        proof {
            assert(d1 * 1 == d1);
        }
        while k < -shift
            invariant
                0 <= k <= -shift <= 25,
                0 < d1 < 0x1_0000_0000_0000_0000_0000,
                d2 == d1 * pow2(k as nat),
                pow2(25) == 0x200_0000,
            decreases -shift - k,
        {
            proof {
                lemma_pow2_unfold((k + 1) as nat);
                let pk = pow2(k as nat);
                assert(2 * d2 == d1 * (2 * pk)) by (nonlinear_arith)
                    requires
                        d2 == d1 * pk,
                ;
                if k + 1 < 25 {
                    lemma_pow2_strictly_increases((k + 1) as nat, 25);
                }
                assert(d1 * (2 * pk) <= 0x1_0000_0000_0000_0000_0000 * 0x200_0000)
                    by (nonlinear_arith)
                    requires
                        d1 < 0x1_0000_0000_0000_0000_0000,
                        0 <= 2 * pk <= 0x200_0000,
                ;
            }
            d2 = 2 * d2;
            k = k + 1;
        }
        proof {
            lemma_pow2_pos((-shift) as nat);
            if -shift < 25 {
                lemma_pow2_strictly_increases((-shift) as nat, 25);
            }
            assert(d1 <= d1 * p <= 0x1_0000_0000_0000_0000_0000 * 0x200_0000) by (nonlinear_arith)
                requires
                    0 < d1 < 0x1_0000_0000_0000_0000_0000,
                    1 <= p <= 0x200_0000,
            ;
        }
        let q: u128 = round_half_even(n1, d2);
        proof {
            lemma_quotient_bound(n1 as nat, d2 as nat);
        }
        q as u32
    }
}

proof fn lemma_quotient_bound(n: nat, d: nat)
    requires
        d > 0,
        n < 0x100_0000 * d,
    ensures
        half_even(n, d) <= 0x100_0000,
{
    let q = n / d;
    lemma_fundamental_div_mod(n as int, d as int);
    assert(q < 0x100_0000) by (nonlinear_arith)
        requires
            n == d * q + n % d,
            n % d >= 0,
            n < 0x100_0000 * d,
            d > 0,
    ;
}

} // verus!
