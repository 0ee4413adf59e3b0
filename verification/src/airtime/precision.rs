//! How near the airtime comes to the formula in exact numbers.
use crate::accuracy;
use crate::airtime;
use crate::airtime::formula;
use crate::airtime::AirtimeKey;
use crate::airtime::LoraPhy;
use crate::exact;
use crate::order;
use crate::rounding;
use crate::single;
use crate::single::Single;
use crate::tolerance;
use vstd::arithmetic::div_mod::*;
use vstd::arithmetic::power2::*;
use vstd::prelude::*;

verus! {

/// A quotient that is neither too small nor too large: its value is near it.
proof fn lemma_value_is_near(a: Single, n: nat, d: nat)
    requires
        d > 0,
        0x80_0000 * d <= n,
        n <= (0x1_0000_0000_0000_0000_0000 * single::unit_count()) * d,
        a == single::rounded(false, n, d),
    ensures
        a.finite(),
        !a.negative(),
        a.rank() > 0,
        accuracy::is_near(a.value(), n as int, d as int),
{
    tolerance::lemma_rounded_is_near(a, n, d);
}

/// The code of a small power of two.
proof fn lemma_power_of_two(sf: u8)
    requires
        sf <= 12,
    ensures
        exact::is_whole(airtime::power_of_two(sf), pow2(sf as nat) as int),
        airtime::power_of_two(sf).rank() > 0,
        1 <= pow2(sf as nat) <= 4096,
{
    lemma2_to64();
    let code = ((sf + 127) * 0x80_0000) as nat;
    order::lemma_pack(false, code);
    rounding::lemma_units_shift(0x80_0000, (sf + 126) as nat);
    assert((sf + 126) * 0x80_0000 + 0x80_0000 == code);
    lemma_pow2_adds(23, (sf + 126) as nat);
    lemma_pow2_adds(sf as nat, 149);
    lemma_pow2_pos(sf as nat);
    if sf < 12 {
        lemma_pow2_strictly_increases(sf as nat, 12);
    }
}

/// The duration of a symbol is near its exact value.
proof fn lemma_duration_is_near(phy: LoraPhy)
    requires
        phy.sf <= 12,
        0 < phy.bw_hz < exact::LIMIT,
    ensures
        airtime::symbol_duration(phy).finite(),
        !airtime::symbol_duration(phy).negative(),
        airtime::symbol_duration(phy).rank() > 0,
        accuracy::is_near(
            airtime::symbol_duration(phy).value(),
            (pow2(phy.sf as nat) * single::unit_count()) as int,
            phy.bw_hz as int,
        ),
{
    let u = single::unit_count();
    let p = airtime::power_of_two(phy.sf);
    let bw = single::integer(phy.bw_hz as nat);
    let two = pow2(phy.sf as nat);
    let hz = phy.bw_hz as nat;
    lemma_power_of_two(phy.sf);
    exact::whole_integer(hz);
    lemma_pow2_strictly_increases(48, 149);
    lemma2_to64_rest();
    lemma_pow2_pos(149);
    let n = two * u;
    assert(n >= u) by (nonlinear_arith)
        requires
            n == two * u,
            two >= 1,
    ;
    assert(n * u == u * n && hz * u == u * hz) by (nonlinear_arith);
    rounding::lemma_nearest_scale(n, hz, u);
    assert(single::abs(p.value()) == n);
    assert(single::abs(bw.value()) == hz * u) by (nonlinear_arith)
        requires
            bw.value() == hz * u,
            u > 0,
    ;
    assert(p.code() > 0 && bw.code() > 0);
    assert(0x80_0000 * hz <= n);
    assert(n <= (0x1_0000_0000_0000_0000_0000 * u) * hz) by (nonlinear_arith)
        requires
            n == two * u,
            two <= 4096,
            hz >= 1,
            u > 0,
    ;
    assert(airtime::symbol_duration(phy) == single::rounded(false, n, hz));
    lemma_value_is_near(airtime::symbol_duration(phy), n, hz);
}

/// The preamble, in quarters of a symbol.
proof fn lemma_preamble_value()
    ensures
        airtime::preamble_symbols().finite(),
        !airtime::preamble_symbols().negative(),
        airtime::preamble_symbols().value() == 49 * pow2(147),
{
    let u = single::unit_count();
    lemma2_to64();
    lemma_pow2_adds(2, 147);
    lemma_pow2_pos(147);
    let q = pow2(147);
    exact::whole_integer(49);
    exact::whole_integer(4);
    let code = exact::exact_code(49, 147);
    rounding::lemma_nearest_of_units(code);
    order::lemma_pack(false, code);
    let a = single::abs(single::integer(49).value());
    let b = single::abs(single::integer(4).value());
    assert(a == 49 * u && b == 4 * u);
    assert(a * u == (4 * u) * (49 * q)) by (nonlinear_arith)
        requires
            a == 49 * u,
            u == 4 * q,
    ;
    assert((4 * u) * 1 == b);
    rounding::lemma_nearest_scale(49 * q, 1, 4 * u);
}

/// All symbols, in quarters of a symbol.
proof fn lemma_total_symbols(key: AirtimeKey)
    requires
        key.payload_len <= 1023,
        0 < key.phy.sf,
    ensures
        ({
            let total = single::sum(
                airtime::preamble_symbols(),
                airtime::payload_symbols(key),
            );
            &&& total.finite()
            &&& !total.negative()
            &&& total.value() == (49 + 4 * formula::symbol_count(key)) * pow2(147)
        }),
{
    let k = formula::symbol_count(key);
    let q = pow2(147);
    lemma_preamble_value();
    formula::symbol_count_is_exact(key);
    lemma2_to64();
    lemma_pow2_adds(2, 147);
    lemma_pow2_pos(147);
    let m = (49 + 4 * k) as nat;
    assert(49 * q + k * (4 * q) == m * q) by (nonlinear_arith)
        requires
            m == 49 + 4 * k,
    ;
    assert(m * q > 0) by (nonlinear_arith)
        requires
            m > 0,
            q > 0,
    ;
    let code = exact::exact_code(m, 147);
    rounding::lemma_nearest_of_units(code);
    order::lemma_pack(false, code);
}

/// A product of two numbers above zero is near the exact product.
proof fn lemma_product_is_near(a: Single, b: Single)
    requires
        a.finite(),
        b.finite(),
        !a.negative(),
        !b.negative(),
        a.value() * b.value() >= 0x80_0000 * single::unit_count(),
        a.value() * b.value() <= (0x1_0000_0000_0000_0000_0000 * single::unit_count())
            * single::unit_count(),
    ensures
        ({
            let c = single::product(a, b);
            &&& c.finite()
            &&& !c.negative()
            &&& accuracy::is_near(
                c.value(),
                a.value() * b.value(),
                single::unit_count() as int,
            )
        }),
{
    lemma_pow2_pos(149);
    lemma_value_is_near(
        single::product(a, b),
        (a.value() * b.value()) as nat,
        single::unit_count(),
    );
}

/// Three roundings in a row, each of one part in two to the power of 24, move a
/// number by four such parts at most.
proof fn lemma_three_roundings(sv: int, tv: int, mv: int, s: int, two: int, bw: int, q: int)
    requires
        q > 0,
        s > 0,
        two > 0,
        bw > 0,
        sv > 0,
        tv > 0,
        accuracy::is_near(sv, two * (4 * q), bw),
        accuracy::is_near(tv, (s * q) * sv, 4 * q),
        accuracy::is_near(mv, tv * (1_000_000 * (4 * q)), 4 * q),
    ensures
        mv * (4 * bw) * 0x100_0000 <= (1_000_000 * s * two) * (4 * q) * 0x100_0004,
        mv * (4 * bw) * 0x100_0000 >= (1_000_000 * s * two) * (4 * q) * 0xff_fffc,
{
    let e: int = 0x100_0000;
    // Each step without the common factor.
    assert(4 * tv * e <= s * sv * (e + 1) && 4 * tv * e >= s * sv * (e - 1)) by {
        assert(q * (4 * tv * e) == tv * (4 * q) * e) by (nonlinear_arith);
        assert(q * (s * sv * (e + 1)) == (s * q) * sv * (e + 1)) by (nonlinear_arith);
        assert(q * (s * sv * (e - 1)) == (s * q) * sv * (e - 1)) by (nonlinear_arith);
        lemma_cancel(q, 4 * tv * e, s * sv * (e + 1));
        lemma_cancel(q, s * sv * (e - 1), 4 * tv * e);
    }
    assert(mv * e <= 1_000_000 * tv * (e + 1) && mv * e >= 1_000_000 * tv * (e - 1)) by {
        let f = 4 * q;
        assert(f * (mv * e) == mv * (4 * q) * e) by (nonlinear_arith)
            requires
                f == 4 * q,
        ;
        assert(f * (1_000_000 * tv * (e + 1)) == tv * (1_000_000 * (4 * q)) * (e + 1))
            by (nonlinear_arith)
            requires
                f == 4 * q,
        ;
        assert(f * (1_000_000 * tv * (e - 1)) == tv * (1_000_000 * (4 * q)) * (e - 1))
            by (nonlinear_arith)
            requires
                f == 4 * q,
        ;
        lemma_cancel(f, mv * e, 1_000_000 * tv * (e + 1));
        lemma_cancel(f, 1_000_000 * tv * (e - 1), mv * e);
    }
    let x = two * (4 * q);
    let m: int = 1_000_000;
    // Upwards.
    let a1 = mv * e;
    let b1 = 4 * tv * e;
    let c1 = sv * bw * e;
    lemma_scaled(4 * bw * e * e, a1, m * tv * (e + 1));
    lemma_scaled(m * (e + 1) * bw * e, b1, s * sv * (e + 1));
    lemma_scaled(m * s * (e + 1) * (e + 1), c1, x * (e + 1));
    assert((4 * bw * e * e) * a1 == (mv * (4 * bw) * e) * (e * e)) by (nonlinear_arith)
        requires
            a1 == mv * e,
    ;
    assert((4 * bw * e * e) * (m * tv * (e + 1)) == (m * (e + 1) * bw * e) * b1)
        by (nonlinear_arith)
        requires
            b1 == 4 * tv * e,
    ;
    lemma_regroup(m, e + 1, bw * e, s, sv);
    assert(sv * (bw * e) == c1) by (nonlinear_arith)
        requires
            c1 == sv * bw * e,
    ;
    assert(m * (e + 1) * (bw * e) == m * (e + 1) * bw * e) by (nonlinear_arith);
    let y = m * s * x;
    assert((m * s * (e + 1) * (e + 1)) * (x * (e + 1)) == y * ((e + 1) * (e + 1) * (e + 1)))
        by (nonlinear_arith)
        requires
            y == m * s * x,
    ;
    assert(y > 0) by (nonlinear_arith)
        requires
            y == m * s * x,
            m > 0,
            s > 0,
            x == two * (4 * q),
            two > 0,
            q > 0,
    ;
    lemma_scaled(y, (e + 1) * (e + 1) * (e + 1), (e + 4) * (e * e));
    assert(y * ((e + 4) * (e * e)) == (y * (e + 4)) * (e * e)) by (nonlinear_arith);
    lemma_cancel(e * e, mv * (4 * bw) * e, y * (e + 4));
    // Downwards.
    lemma_scaled(4 * bw * e * e, m * tv * (e - 1), a1);
    lemma_scaled(m * (e - 1) * bw * e, s * sv * (e - 1), b1);
    lemma_scaled(m * s * (e - 1) * (e - 1), x * (e - 1), c1);
    assert((4 * bw * e * e) * (m * tv * (e - 1)) == (m * (e - 1) * bw * e) * b1)
        by (nonlinear_arith)
        requires
            b1 == 4 * tv * e,
    ;
    lemma_regroup(m, e - 1, bw * e, s, sv);
    assert(sv * (bw * e) == c1) by (nonlinear_arith)
        requires
            c1 == sv * bw * e,
    ;
    assert(m * (e - 1) * (bw * e) == m * (e - 1) * bw * e) by (nonlinear_arith);
    assert((m * s * (e - 1) * (e - 1)) * (x * (e - 1)) == y * ((e - 1) * (e - 1) * (e - 1)))
        by (nonlinear_arith)
        requires
            y == m * s * x,
    ;
    lemma_scaled(y, (e - 4) * (e * e), (e - 1) * (e - 1) * (e - 1));
    assert(y * ((e - 4) * (e * e)) == (y * (e - 4)) * (e * e)) by (nonlinear_arith);
    lemma_cancel(e * e, y * (e - 4), mv * (4 * bw) * e);
    assert(y == (1_000_000 * s * two) * (4 * q)) by (nonlinear_arith)
        requires
            y == m * s * x,
            x == two * (4 * q),
            m == 1_000_000,
    ;
}

proof fn lemma_regroup(m: int, w: int, b: int, s: int, v: int)
    ensures
        (m * w * b) * (s * v * w) == (m * s * w * w) * (v * b),
{
    let a = m * w;
    let c = s * w;
    assert((a * b) * (c * v) == (a * c) * (v * b)) by (nonlinear_arith);
    assert(s * v * w == c * v) by (nonlinear_arith)
        requires
            c == s * w,
    ;
    assert(m * s * w * w == a * c) by (nonlinear_arith)
        requires
            a == m * w,
            c == s * w,
    ;
}

proof fn lemma_cancel(k: int, a: int, b: int)
    requires
        k > 0,
        k * a <= k * b || a * k <= b * k,
    ensures
        a <= b,
{
    assert(a <= b) by (nonlinear_arith)
        requires
            k > 0,
            k * a <= k * b || a * k <= b * k,
    ;
}

proof fn lemma_scaled(k: int, a: int, b: int)
    requires
        a <= b,
        k >= 0,
    ensures
        k * a <= k * b,
{
    assert(k * a <= k * b) by (nonlinear_arith)
        requires
            a <= b,
            k >= 0,
    ;
}

/// The numerator of the time-on-air formula in microseconds: preamble and payload
/// symbols in quarters, times two to the power of the spreading factor. The
/// denominator is four times the bandwidth.
pub open spec fn exact_micros(key: AirtimeKey) -> int {
    1_000_000 * (49 + 4 * formula::symbol_count(key)) * pow2(key.phy.sf as nat)
}

/// The airtime is that of the time-on-air formula, rounded down, up to four parts
/// in two to the power of 24: less than a microsecond in four seconds.
#[verifier::rlimit(40)]
pub proof fn airtime_follows_the_formula(key: AirtimeKey)
    requires
        key.payload_len <= 1023,
        0 < key.phy.sf <= 12,
        0 < key.phy.bw_hz < exact::LIMIT,
    ensures
        ({
            let us = airtime::airtime_us(key);
            let scale = 4 * key.phy.bw_hz;
            &&& us * scale * 0x100_0000 <= exact_micros(key) * 0x100_0004
            &&& us < u32::MAX ==> (us + 1) * scale * 0x100_0000 > exact_micros(key) * 0xff_fffc
        }),
{
    reveal(airtime::airtime_us);
    let total = single::sum(airtime::preamble_symbols(), airtime::payload_symbols(key));
    lemma_total_symbols(key);
    formula::symbol_count_is_exact(key);
    lemma_power_of_two(key.phy.sf);
    lemma_duration_is_near(key.phy);
    lemma_micros_are_near(
        total,
        airtime::symbol_duration(key.phy),
        49 + 4 * formula::symbol_count(key),
        pow2(key.phy.sf as nat) as int,
        key.phy.bw_hz as int,
    );
}

/// The last two steps of the formula, for any number of symbols and any duration.
#[verifier::rlimit(40)]
proof fn lemma_micros_are_near(total: Single, duration: Single, s: int, two: int, bw: int)
    requires
        total.finite(),
        !total.negative(),
        total.value() == s * pow2(147),
        49 <= s <= 8_800_049,
        duration.finite(),
        !duration.negative(),
        1 <= two <= 4096,
        0 < bw < 0x100_0000,
        accuracy::is_near(duration.value(), two * single::unit_count(), bw),
    ensures
        ({
            let us = single::saturated(
                single::product(single::product(total, duration), single::integer(1_000_000)),
                0,
                u32::MAX as int,
            );
            &&& us * (4 * bw) * 0x100_0000 <= (1_000_000 * s * two) * 0x100_0004
            &&& us < u32::MAX ==> (us + 1) * (4 * bw) * 0x100_0000 > (1_000_000 * s * two)
                * 0xff_fffc
        }),
{
    let u = single::unit_count();
    let q = pow2(147);
    let million = single::integer(1_000_000);
    let seconds = single::product(total, duration);
    let micros = single::product(seconds, million);
    lemma2_to64();
    lemma2_to64_rest();
    lemma_pow2_adds(2, 147);
    lemma_pow2_strictly_increases(56, 147);
    exact::whole_integer(1_000_000);
    let sv = duration.value();
    lemma_duration_bounds(sv, two, bw, q as int);
    lemma_seconds_bounds(s, sv, q as int);
    lemma_product_is_near(total, duration);
    let tv = seconds.value();
    lemma_micros_bounds(s, sv, tv, q as int);
    assert(tv * million.value() == tv * (1_000_000 * (4 * q)));
    lemma_product_is_near(seconds, million);
    let mv = micros.value();
    lemma_three_roundings(sv, tv, mv, s, two, bw, q as int);
    let us = single::saturated(micros, 0, u32::MAX as int);
    let whole = micros.whole() as int;
    lemma_fundamental_div_mod(mv, u as int);
    assert(whole == mv / (u as int));
    lemma_whole_bounds(mv, whole, us, u as int, bw, 1_000_000 * s * two);
}

proof fn lemma_duration_bounds(sv: int, two: int, bw: int, q: int)
    requires
        accuracy::is_near(sv, two * (4 * q), bw),
        1 <= two <= 4096,
        0 < bw < 0x100_0000,
        q >= 0x100_0000_0000_0000,
    ensures
        0x80_0000 <= sv <= 8192 * (4 * q),
{
    let n = two * (4 * q);
    let w = sv * bw;
    assert(n >= 4 * q && n <= 4096 * (4 * q)) by (nonlinear_arith)
        requires
            n == two * (4 * q),
            1 <= two <= 4096,
            q > 0,
    ;
    assert(2 * w >= n && w <= 2 * n);
    assert(sv >= 0x80_0000) by (nonlinear_arith)
        requires
            2 * (sv * bw) >= 4 * 0x100_0000_0000_0000,
            0 < bw < 0x100_0000,
    ;
    assert(sv <= w) by (nonlinear_arith)
        requires
            w == sv * bw,
            bw >= 1,
            sv >= 0,
    ;
}

proof fn lemma_seconds_bounds(s: int, sv: int, q: int)
    requires
        49 <= s <= 8_800_049,
        0x80_0000 <= sv <= 8192 * (4 * q),
        q > 0,
    ensures
        (s * q) * sv >= 0x80_0000 * (4 * q),
        (s * q) * sv <= (0x1_0000_0000_0000_0000_0000 * (4 * q)) * (4 * q),
{
    let a = s * sv;
    assert((s * q) * sv == q * a) by (nonlinear_arith)
        requires
            a == s * sv,
    ;
    assert(a >= 4 * 0x80_0000) by (nonlinear_arith)
        requires
            a == s * sv,
            s >= 49,
            sv >= 0x80_0000,
    ;
    assert(a <= 8_800_049 * (8192 * (4 * q))) by (nonlinear_arith)
        requires
            a == s * sv,
            49 <= s <= 8_800_049,
            0 <= sv <= 8192 * (4 * q),
    ;
    lemma_scaled(q, 0x200_0000, a);
    lemma_scaled(q, a, (0x1_0000_0000_0000_0000_0000 * (4 * q)) * 4);
    assert(q * ((0x1_0000_0000_0000_0000_0000 * (4 * q)) * 4) == (0x1_0000_0000_0000_0000_0000 * (4
        * q)) * (4 * q)) by (nonlinear_arith);
}

proof fn lemma_micros_bounds(s: int, sv: int, tv: int, q: int)
    requires
        49 <= s <= 8_800_049,
        0x80_0000 <= sv <= 8192 * (4 * q),
        q > 0,
        accuracy::is_near(tv, (s * q) * sv, 4 * q),
    ensures
        tv > 0,
        tv * (1_000_000 * (4 * q)) >= 0x80_0000 * (4 * q),
        tv * (1_000_000 * (4 * q)) <= (0x1_0000_0000_0000_0000_0000 * (4 * q)) * (4 * q),
{
    let a = s * sv;
    let n = (s * q) * sv;
    let w = tv * (4 * q);
    assert(n == q * a) by (nonlinear_arith)
        requires
            n == (s * q) * sv,
            a == s * sv,
    ;
    assert(a >= 49 * 0x80_0000) by (nonlinear_arith)
        requires
            a == s * sv,
            s >= 49,
            sv >= 0x80_0000,
    ;
    assert(a <= 8_800_049 * (8192 * (4 * q))) by (nonlinear_arith)
        requires
            a == s * sv,
            49 <= s <= 8_800_049,
            0 <= sv <= 8192 * (4 * q),
    ;
    lemma_scaled(q, 0x1880_0000, a);
    assert(2 * w >= n && w <= 2 * n);
    assert(w == q * (4 * tv)) by (nonlinear_arith)
        requires
            w == tv * (4 * q),
    ;
    assert(q * (2 * (4 * tv)) == 2 * w) by (nonlinear_arith)
        requires
            w == q * (4 * tv),
    ;
    assert(q * (2 * a) == 2 * n) by (nonlinear_arith)
        requires
            n == q * a,
    ;
    lemma_cancel(q, a, 2 * (4 * tv));
    lemma_cancel(q, 4 * tv, 2 * a);
    assert(tv > 0x80_0000);
    let f = 4 * q;
    assert(tv * (1_000_000 * (4 * q)) == f * (1_000_000 * tv)) by (nonlinear_arith)
        requires
            f == 4 * q,
    ;
    lemma_scaled(f, 0x80_0000, 1_000_000 * tv);
    lemma_scaled(f, 1_000_000 * tv, 0x1_0000_0000_0000_0000_0000 * f);
    assert(f * (0x1_0000_0000_0000_0000_0000 * f) == (0x1_0000_0000_0000_0000_0000 * (4 * q)) * (4
        * q)) by (nonlinear_arith)
        requires
            f == 4 * q,
    ;
}

proof fn lemma_whole_bounds(mv: int, whole: int, us: int, u: int, bw: int, n: int)
    requires
        u > 0,
        bw > 0,
        mv == u * whole + mv % u,
        0 <= mv % u < u,
        0 <= us <= whole,
        us < u32::MAX ==> us == whole,
        mv * (4 * bw) * 0x100_0000 <= n * u * 0x100_0004,
        mv * (4 * bw) * 0x100_0000 >= n * u * 0xff_fffc,
    ensures
        us * (4 * bw) * 0x100_0000 <= n * 0x100_0004,
        us < u32::MAX ==> (us + 1) * (4 * bw) * 0x100_0000 > n * 0xff_fffc,
{
    let c = 4 * bw * 0x100_0000;
    assert(mv * (4 * bw) * 0x100_0000 == mv * c) by (nonlinear_arith)
        requires
            c == 4 * bw * 0x100_0000,
    ;
    assert(us * (4 * bw) * 0x100_0000 == us * c) by (nonlinear_arith)
        requires
            c == 4 * bw * 0x100_0000,
    ;
    assert((us + 1) * (4 * bw) * 0x100_0000 == (us + 1) * c) by (nonlinear_arith)
        requires
            c == 4 * bw * 0x100_0000,
    ;
    lemma_scaled(u, us, whole);
    lemma_scaled(c, u * us, mv);
    assert(u * (us * c) == c * (u * us) && c * mv == mv * c) by (nonlinear_arith);
    assert(n * u * 0x100_0004 == u * (n * 0x100_0004)) by (nonlinear_arith);
    assert(n * u * 0xff_fffc == u * (n * 0xff_fffc)) by (nonlinear_arith);
    lemma_cancel(u, us * c, n * 0x100_0004);
    if us < u32::MAX {
        assert(u * (whole + 1) == u * whole + u) by (nonlinear_arith);
        let next = u * (us + 1);
        assert(next > mv);
        assert(next * c > mv * c) by (nonlinear_arith)
            requires
                next > mv,
                c > 0,
        ;
        assert(next * c == u * ((us + 1) * c)) by (nonlinear_arith)
            requires
                next == u * (us + 1),
        ;
        if (us + 1) * c <= n * 0xff_fffc {
            lemma_scaled(u, (us + 1) * c, n * 0xff_fffc);
        }
    }
}

/// The time-on-air formula in whole microseconds, rounded down.
pub open spec fn formula_us(key: AirtimeKey) -> int {
    exact_micros(key) / (4 * key.phy.bw_hz)
}

/// Up to four seconds the airtime is that of the formula, to the microsecond.
pub proof fn airtime_is_right_to_the_microsecond(key: AirtimeKey)
    requires
        key.payload_len <= 1023,
        0 < key.phy.sf <= 12,
        0 < key.phy.bw_hz < exact::LIMIT,
        formula_us(key) <= 4_000_000,
    ensures
        formula_us(key) - 1 <= airtime::airtime_us(key) <= formula_us(key) + 1,
{
    airtime_follows_the_formula(key);
    let us = airtime::airtime_us(key);
    assert(0 <= us <= u32::MAX) by {
        reveal(airtime::airtime_us);
    }
    lemma_nearby(us, exact_micros(key), 4 * key.phy.bw_hz as int);
}

proof fn lemma_nearby(us: int, n: int, d: int)
    requires
        d > 0,
        0 <= us <= u32::MAX,
        n / d <= 4_000_000,
        us * d * 0x100_0000 <= n * 0x100_0004,
        us < u32::MAX ==> (us + 1) * d * 0x100_0000 > n * 0xff_fffc,
    ensures
        n / d - 1 <= us <= n / d + 1,
{
    let x = n / d;
    let dx = d * x;
    lemma_fundamental_div_mod(n, d);
    assert(dx <= n < dx + d);
    assert(dx <= d * 4_000_000) by (nonlinear_arith)
        requires
            dx == d * x,
            x <= 4_000_000,
            d > 0,
    ;
    if us >= x + 2 {
        assert(us * d >= dx + 2 * d) by (nonlinear_arith)
            requires
                us >= x + 2,
                dx == d * x,
                d > 0,
        ;
    }
    if us <= x - 2 {
        assert((us + 1) * d <= dx - d) by (nonlinear_arith)
            requires
                us + 1 <= x - 1,
                dx == d * x,
                d > 0,
        ;
    }
}

} // verus!
