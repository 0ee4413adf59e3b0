//! Whole numbers of up to 24 bits, on which single precision loses nothing.
use crate::order;
use crate::rounding;
use crate::rounding::INFINITE;
use crate::single;
use crate::single::Single;
use vstd::arithmetic::div_mod::*;
use vstd::arithmetic::power2::*;
use vstd::prelude::*;

verus! {

/// The bound of the whole numbers that are held exactly.
pub const LIMIT: u32 = 0x100_0000;

/// Whether a number is the whole number `k`.
pub open spec fn is_whole(a: Single, k: int) -> bool {
    a.finite() && a.value() == k * single::unit_count()
}

/// The code of `m` times a power of two.
pub proof fn exact_code(m: nat, s: nat) -> (code: nat)
    requires
        m < LIMIT,
        s <= 200,
    ensures
        rounding::units(code) == m * pow2(s),
        code < INFINITE,
        m > 0 ==> code > 0,
        code <= s * 0x80_0000 + m,
        m * pow2(s) >= 0x80_0000 ==> exists|t: nat|
            #![trigger pow2(t)]
            {
                &&& 0x80_0000 * pow2(t) <= m * pow2(s)
                &&& rounding::units(code + 1) == m * pow2(s) + pow2(t)
            },
    decreases s,
{
    lemma2_to64();
    if m >= 0x80_0000 {
        let code = s * 0x80_0000 + m;
        rounding::lemma_units_shift(m, s);
        lemma_pow2_pos(s);
        assert(0x80_0000 * pow2(s) <= m * pow2(s)) by (nonlinear_arith)
            requires
                0x80_0000 <= m,
        ;
        if m + 1 < LIMIT {
            rounding::lemma_units_shift(m + 1, s);
        } else {
            rounding::lemma_units_shift(0x80_0000, s + 1);
            lemma_pow2_unfold(s + 1);
            assert((s + 1) * 0x80_0000 + 0x80_0000 == code + 1);
            assert(0x80_0000 * (2 * pow2(s)) == 0x100_0000 * pow2(s));
            assert((m + 1) * pow2(s) == 0x100_0000 * pow2(s));
        }
        assert((m + 1) * pow2(s) == m * pow2(s) + pow2(s)) by (nonlinear_arith);
        assert(rounding::units(code + 1) == m * pow2(s) + pow2(s));
        code
    } else if s == 0 {
        assert(m * 1 == m);
        m
    } else {
        lemma_pow2_unfold(s);
        let p = pow2((s - 1) as nat);
        assert((2 * m) * p == m * pow2(s)) by (nonlinear_arith)
            requires
                pow2(s) == 2 * p,
        ;
        exact_code(2 * m, (s - 1) as nat)
    }
}

/// A whole number rounds to itself.
pub proof fn lemma_rounded_whole(negative: bool, k: nat)
    requires
        k < LIMIT,
    ensures
        rounding::units(rounding::nearest(k * single::unit_count(), 1)) == k * single::unit_count(),
        rounding::nearest(k * single::unit_count(), 1) < INFINITE,
        is_whole(
            single::rounded(negative, k * single::unit_count(), 1),
            if negative {
                -k
            } else {
                k as int
            },
        ),
        single::rounded(negative, k * single::unit_count(), 1).negative() == negative,
{
    let code = exact_code(k, 149);
    rounding::lemma_nearest_of_units(code);
    order::lemma_pack(negative, code);
    assert((-k) * single::unit_count() == -(k * single::unit_count())) by (nonlinear_arith);
}

/// An integer is the whole number that it stands for.
pub proof fn whole_integer(m: nat)
    requires
        m < LIMIT,
    ensures
        is_whole(single::integer(m), m as int),
        !single::integer(m).negative(),
        single::integer(m).rank() >= 0,
        m > 0 ==> single::integer(m).rank() > 0,
{
    lemma_rounded_whole(false, m);
    lemma_pow2_pos(149);
    assert(m > 0 ==> m * single::unit_count() > 0) by (nonlinear_arith)
        requires
            single::unit_count() > 0,
    ;
}

proof fn lemma_abs_whole(k: int)
    ensures
        single::abs(k * single::unit_count()) == single::abs(k) * single::unit_count(),
        k * single::unit_count() < 0 <==> k < 0,
        k * single::unit_count() == 0 <==> k == 0,
{
    let u = single::unit_count() as int;
    lemma_pow2_pos(149);
    assert(single::abs(k * u) == single::abs(k) * u) by (nonlinear_arith)
        requires
            u > 0,
    ;
    assert(k * u < 0 <==> k < 0) by (nonlinear_arith)
        requires
            u > 0,
    ;
    assert(k * u == 0 <==> k == 0) by (nonlinear_arith)
        requires
            u > 0,
    ;
}

/// A small integer of either sign is exact.
pub proof fn whole_signed_integer(k: int)
    requires
        -LIMIT < k < LIMIT,
    ensures
        is_whole(single::signed_integer(k), k),
{
    lemma_rounded_whole(k < 0, single::abs(k));
    lemma_abs_whole(k);
}

/// Whole numbers add up exactly.
pub proof fn whole_sum(a: Single, j: int, b: Single, k: int)
    requires
        is_whole(a, j),
        is_whole(b, k),
        -LIMIT < j + k < LIMIT,
    ensures
        is_whole(single::sum(a, b), j + k),
        j + k > 0 ==> !single::sum(a, b).negative(),
        j + k == 0 && !a.negative() ==> !single::sum(a, b).negative(),
{
    let u = single::unit_count() as int;
    assert(j * u + k * u == (j + k) * u) by (nonlinear_arith);
    lemma_abs_whole(j + k);
    if j + k == 0 {
        order::lemma_pack(a.negative() && b.negative(), 0);
        assert(0 * u == 0);
    } else {
        lemma_rounded_whole(j + k < 0, single::abs(j + k));
    }
}

/// Whole numbers subtract exactly.
pub proof fn whole_difference(a: Single, j: int, b: Single, k: int)
    requires
        is_whole(a, j),
        is_whole(b, k),
        -LIMIT < j - k < LIMIT,
    ensures
        is_whole(single::difference(a, b), j - k),
        j - k > 0 ==> !single::difference(a, b).negative(),
        j - k == 0 && !a.negative() ==> !single::difference(a, b).negative(),
{
    let u = single::unit_count() as int;
    order::lemma_pack(!b.negative(), b.code());
    assert((-k) * u == -(k * u)) by (nonlinear_arith);
    whole_sum(a, j, single::negated(b), -k);
}

/// Whole numbers multiply exactly.
pub proof fn whole_product(a: Single, j: int, b: Single, k: int)
    requires
        is_whole(a, j),
        is_whole(b, k),
        -LIMIT < j * k < LIMIT,
    ensures
        is_whole(single::product(a, b), j * k),
        a.negative() == b.negative() ==> !single::product(a, b).negative(),
{
    let u = single::unit_count();
    lemma_pow2_pos(149);
    lemma_abs_whole(j);
    lemma_abs_whole(k);
    let n = single::abs(j) * single::abs(k);
    assert((single::abs(j) * u) * (single::abs(k) * u) == u * (n * u)) by (nonlinear_arith)
        requires
            n == single::abs(j) * single::abs(k),
    ;
    assert(u * 1 == u);
    rounding::lemma_nearest_scale(n * u, 1, u);
    assert(n == single::abs(j * k)) by (nonlinear_arith)
        requires
            n == single::abs(j) * single::abs(k),
    ;
    lemma_rounded_whole(a.negative() != b.negative(), n);
    assert(j * k == 0 <==> j == 0 || k == 0) by (nonlinear_arith);
    assert(j > 0 && k > 0 ==> j * k > 0) by (nonlinear_arith);
    assert(j < 0 && k < 0 ==> j * k > 0) by (nonlinear_arith);
    assert(j > 0 && k < 0 ==> j * k < 0) by (nonlinear_arith);
    assert(j < 0 && k > 0 ==> j * k < 0) by (nonlinear_arith);
    rounding::lemma_units_at_least(a.code());
    rounding::lemma_units_at_least(b.code());
    assert(0 * u == 0);
}

/// The larger of two whole numbers.
pub proof fn whole_larger(a: Single, j: int, b: Single, k: int)
    requires
        is_whole(a, j),
        is_whole(b, k),
    ensures
        is_whole(
            single::larger(a, b),
            if j < k {
                k
            } else {
                j
            },
        ),
{
    let u = single::unit_count() as int;
    lemma_pow2_pos(149);
    single::rank_orders_values(a, b);
    assert(j < k <==> j * u < k * u) by (nonlinear_arith)
        requires
            u > 0,
    ;
}

/// The quotient of two numbers, rounded up to a whole number.
pub open spec fn ceiling_div(j: int, k: int) -> int {
    -((-j) / k)
}

/// A quotient of small whole numbers rounds up as it should: the rounding of the
/// quotient does not carry it over a whole number.
pub proof fn whole_ceiling(a: Single, j: int, b: Single, k: int)
    requires
        is_whole(a, j),
        is_whole(b, k),
        !a.negative(),
        !b.negative(),
        0 < j <= 0x80_0000,
        0 < k < LIMIT,
    ensures
        is_whole(single::ceiling(single::quotient(a, b)), ceiling_div(j, k)),
        !single::ceiling(single::quotient(a, b)).negative(),
{
    let u = single::unit_count();
    lemma_pow2_pos(149);
    lemma_abs_whole(j);
    lemma_abs_whole(k);
    let jn = j as nat;
    let kn = k as nat;
    let q = jn / kn;
    let r = jn % kn;
    lemma_fundamental_div_mod(j, k);
    let code = rounding::nearest(jn * u, kn);
    assert((jn * u) * u == u * (jn * u)) by (nonlinear_arith);
    assert(kn * u == u * kn) by (nonlinear_arith);
    rounding::lemma_nearest_scale(jn * u, kn, u);
    assert(b.code() > 0);
    // The quotient lies between two whole numbers, or on one.
    assert(q <= j && (r > 0 ==> q + 1 <= j) && q >= 0) by (nonlinear_arith)
        requires
            jn == kn * q + r,
            0 <= r < kn,
            jn == j,
            q >= 0,
    ;
    lemma_rounded_whole(false, q);
    let low = rounding::nearest(q * u, 1);
    assert((q * u) * kn <= (jn * u) * 1) by (nonlinear_arith)
        requires
            jn == kn * q + r,
            r >= 0,
            u > 0,
    ;
    rounding::lemma_nearest_monotone(q * u, 1, jn * u, kn);
    if r == 0 {
        assert(jn * u == kn * (q * u)) by (nonlinear_arith)
            requires
                jn == kn * q,
        ;
        assert(kn * 1 == kn);
        rounding::lemma_nearest_scale(q * u, 1, kn);
        assert(code == low);
        order::lemma_pack(false, low);
        lemma_fundamental_div_mod_converse((q * u) as int, u as int, q as int, 0);
        assert((-j) == (-q) * k + 0) by (nonlinear_arith)
            requires
                j == k * q + 0,
        ;
        lemma_fundamental_div_mod_converse(-j, k, -q, 0);
        assert(single::quotient(a, b).whole() == q);
    } else {
        lemma_rounded_whole(false, q + 1);
        let high = rounding::nearest((q + 1) * u, 1);
        assert((jn * u) * 1 <= ((q + 1) * u) * kn) by (nonlinear_arith)
            requires
                jn == kn * q + r,
                r < kn,
                u > 0,
        ;
        rounding::lemma_nearest_monotone(jn * u, kn, (q + 1) * u, 1);
        lemma_above_whole(jn, kn, q, r);
        let size = rounding::units(code);
        assert(q * u < size <= (q + 1) * u) by {
            rounding::lemma_units_increase(low, code);
            if code < high {
                rounding::lemma_units_increase(code, high);
            }
        }
        order::lemma_pack(false, code);
        if size == (q + 1) * u {
            lemma_fundamental_div_mod_converse(size as int, u as int, (q + 1) as int, 0);
        } else {
            assert((q + 1) * u == q * u + u) by (nonlinear_arith);
            lemma_fundamental_div_mod_converse(size as int, u as int, q as int, size - q * u);
        }
        assert(-j == (-(q + 1)) * k + (k - r)) by (nonlinear_arith)
            requires
                j == k * q + r,
        ;
        lemma_fundamental_div_mod_converse(-j, k, -(q + 1) as int, k - r);
        assert(code > 0);
    }
}

proof fn lemma_step_fits(j: int, k: int, q: int, r: int, p: int, u: int)
    requires
        j == k * q + r,
        r >= 1,
        k >= 1,
        0x80_0000 * p <= q * u,
        q * k <= 0x80_0000,
        u > 0,
    ensures
        (q * u + p) * k <= (j * u) * 1,
{
    let qk = q * k;
    let pk = p * k;
    assert(0x80_0000 * pk <= qk * u) by (nonlinear_arith)
        requires
            0x80_0000 * p <= q * u,
            k >= 1,
            qk == q * k,
            pk == p * k,
    ;
    assert(qk * u <= 0x80_0000 * u) by (nonlinear_arith)
        requires
            qk <= 0x80_0000,
            u > 0,
    ;
    assert((q * u + p) * k == qk * u + pk) by (nonlinear_arith)
        requires
            qk == q * k,
            pk == p * k,
    ;
    assert(j * u == qk * u + r * u) by (nonlinear_arith)
        requires
            j == k * q + r,
            qk == q * k,
    ;
    assert(r * u >= u) by (nonlinear_arith)
        requires
            r >= 1,
            u > 0,
    ;
}

/// A quotient that is above a whole number is also above it when it is rounded.
proof fn lemma_above_whole(j: nat, k: nat, q: nat, r: nat)
    requires
        0 < j <= 0x80_0000,
        0 < k < LIMIT,
        j == k * q + r,
        0 < r < k,
    ensures
        rounding::nearest(q * single::unit_count(), 1) < rounding::nearest(
            j * single::unit_count(),
            k,
        ),
{
    let u = single::unit_count();
    lemma_pow2_pos(149);
    lemma2_to64();
    if q == 0 {
        assert(0 * u == 0);
        rounding::lemma_nearest_of_units(0);
        rounding::lemma_nearest_of_units(1);
        lemma_pow2_strictly_increases(24, 149);
        assert(1 * k <= (j * u) * 1) by (nonlinear_arith)
            requires
                j >= 1,
                k < 0x100_0000,
                u > 0x100_0000,
        ;
        rounding::lemma_nearest_monotone(1, 1, j * u, k);
    } else {
        assert(q <= j) by (nonlinear_arith)
            requires
                j == k * q + r,
                k >= 1,
                r >= 0,
        ;
        let low = exact_code(q, 149);
        rounding::lemma_nearest_of_units(low);
        rounding::lemma_nearest_of_units(low + 1);
        lemma_pow2_strictly_increases(24, 149);
        assert(q * u >= 0x80_0000) by (nonlinear_arith)
            requires
                q >= 1,
                u > 0x100_0000,
        ;
        let t = choose|t: nat|
            #![trigger pow2(t)]
            {
                &&& 0x80_0000 * pow2(t) <= q * pow2(149)
                &&& rounding::units(low + 1) == q * pow2(149) + pow2(t)
            };
        let p = pow2(t);
        assert(q * k <= 0x80_0000) by (nonlinear_arith)
            requires
                j == k * q + r,
                r >= 0,
                j <= 0x80_0000,
        ;
        lemma_step_fits(j as int, k as int, q as int, r as int, p as int, u as int);
        rounding::lemma_nearest_monotone(q * u + p, 1, j * u, k);
    }
}

} // verus!
