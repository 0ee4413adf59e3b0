//! How far a calculation of several roundings is from its exact result.
use crate::accuracy;
use crate::exact;
use crate::order;
use crate::rounding;
use crate::single;
use crate::single::Single;
use vstd::arithmetic::power2::*;
use vstd::prelude::*;

verus! {

/// Whether a number is `n / d` up to `k` parts in two to the power of 24.
pub open spec fn is_about(x: Single, n: int, d: int, k: int) -> bool {
    &&& x.finite()
    &&& !x.negative()
    &&& x.value() * d * 0x100_0000 <= n * single::unit_count() * (0x100_0000 + k)
    &&& x.value() * d * 0x100_0000 >= n * single::unit_count() * (0x100_0000 - k)
}

/// A quotient that is neither too small nor too large is rounded by one part in two to
/// the power of 24 at most.
pub proof fn lemma_rounded_is_near(a: Single, n: nat, d: nat)
    requires
        d > 0,
        0x80_0000 * d <= n,
        n <= (0x1_0000_0000_0000_0000_0000 * single::unit_count()) * d,
        a == single::rounded(false, n, d),
    ensures
        a.finite(),
        !a.negative(),
        a.rank() > 0,
        accuracy::is_near(a.value(), n as int, d as int),
{
    let u = single::unit_count();
    lemma2_to64();
    assert(pow2(80) == 0x1_0000_0000_0000_0000_0000) by {
        lemma_pow2_adds(16, 64);
    }
    let top: nat = 206 * 0x80_0000 + 0x80_0000;
    rounding::lemma_units_shift(0x80_0000, 206);
    lemma_pow2_adds(23, 206);
    lemma_pow2_adds(80, 149);
    assert(rounding::units(top) == 0x1_0000_0000_0000_0000_0000 * u);
    rounding::lemma_nearest_of_units(top);
    assert(n * 1 <= (0x1_0000_0000_0000_0000_0000 * u) * d);
    rounding::lemma_nearest_monotone(n, d, 0x1_0000_0000_0000_0000_0000 * u, 1);
    let code = rounding::nearest(n, d);
    assert(code <= top);
    order::lemma_pack(false, code);
    assert(d * 1 == d);
    accuracy::lemma_nearest_is_near(n, d, 0);
    assert(1 * d <= n * 1);
    rounding::lemma_nearest_monotone(1, 1, n, d);
    rounding::lemma_nearest_of_units(1);
}

pub proof fn lemma_unit_count()
    ensures
        single::unit_count() >= 0x1_0000_0000_0000_0000_0000_0000_0000,
{
    lemma2_to64();
    lemma2_to64_rest();
    lemma_pow2_adds(64, 48);
    lemma_pow2_strictly_increases(112, 149);
}

pub proof fn lemma_scaled(k: int, a: int, b: int)
    requires
        a <= b,
        k >= 0,
    ensures
        k * a <= k * b,
{
    assert(k * a <= k * b) by (nonlinear_arith)
        requires
            a <= b,
            k >= 0,
    ;
}

pub proof fn lemma_cancel(k: int, a: int, b: int)
    requires
        k * a <= k * b,
        k > 0,
    ensures
        a <= b,
{
    assert(a <= b) by (nonlinear_arith)
        requires
            k * a <= k * b,
            k > 0,
    ;
}

proof fn lemma_both(x: int, y: int, v: int, w: int)
    requires
        0 <= x <= v,
        0 <= y <= w,
    ensures
        0 <= x * y <= v * w,
{
    assert(0 <= x * y <= v * w) by (nonlinear_arith)
        requires
            0 <= x <= v,
            0 <= y <= w,
    ;
}

/// `(e + i) * (e + j)`, written out.
proof fn lemma_square(i: int, j: int)
    ensures
        (0x100_0000 + i) * (0x100_0000 + j) == 0x1_0000_0000_0000 + 0x100_0000 * i + 0x100_0000 * j
            + i * j,
{
    assert((0x100_0000 + i) * (0x100_0000 + j) == 0x1_0000_0000_0000 + 0x100_0000 * i + 0x100_0000
        * j + i * j) by (nonlinear_arith);
}

proof fn lemma_small(i: int, j: int)
    requires
        0 <= i <= 64,
        0 <= j <= 64,
    ensures
        0 <= i * j <= 4096,
{
    assert(0 <= i * j <= 4096) by (nonlinear_arith)
        requires
            0 <= i <= 64,
            0 <= j <= 64,
    ;
}

/// A product of two numbers that are off by `i` and `j` parts, rounded once more.
proof fn lemma_product_parts(a: int, b: int, n: int, m: int, c: int, i: int, j: int)
    requires
        0 <= i <= 64,
        0 <= j <= 64,
        a >= 0,
        b >= 0,
        n >= 0,
        m >= 0,
        a * 0x100_0000 <= n * (0x100_0000 + i),
        a * 0x100_0000 >= n * (0x100_0000 - i),
        b * 0x100_0000 <= m * (0x100_0000 + j),
        b * 0x100_0000 >= m * (0x100_0000 - j),
        c * 0x100_0000 <= (a * b) * 0x100_0001,
        c * 0x100_0000 >= (a * b) * 0xff_ffff,
    ensures
        c * 0x100_0000 <= (n * m) * (0x100_0000 + (i + j + 2)),
        c * 0x100_0000 >= (n * m) * (0x100_0000 - (i + j + 2)),
{
    let e: int = 0x100_0000;
    let nm = n * m;
    let ab = a * b;
    assert(nm >= 0) by (nonlinear_arith)
        requires
            nm == n * m,
            n >= 0,
            m >= 0,
    ;
    assert((a * e) * (b * e) == ab * 0x1_0000_0000_0000) by (nonlinear_arith)
        requires
            e == 0x100_0000,
            ab == a * b,
    ;
    lemma_small(i, j);
    assert((-i) * (-j) == i * j) by (nonlinear_arith);
    // Upwards.
    lemma_both(a * e, b * e, n * (e + i), m * (e + j));
    let up = (e + i) * (e + j);
    lemma_square(i, j);
    assert((n * (e + i)) * (m * (e + j)) == nm * up) by (nonlinear_arith)
        requires
            nm == n * m,
            up == (e + i) * (e + j),
    ;
    lemma_scaled(nm, up * 0x100_0001, 0x1_0000_0000_0000 * (e + (i + j + 2)));
    assert(nm * (up * 0x100_0001) == (nm * up) * 0x100_0001) by (nonlinear_arith);
    assert(nm * (0x1_0000_0000_0000 * (e + (i + j + 2))) == (nm * (e + (i + j + 2)))
        * 0x1_0000_0000_0000) by (nonlinear_arith);
    // Downwards.
    assert(n * (e - i) >= 0) by (nonlinear_arith)
        requires
            n >= 0,
            i <= 64,
            e == 0x100_0000,
    ;
    assert(m * (e - j) >= 0) by (nonlinear_arith)
        requires
            m >= 0,
            j <= 64,
            e == 0x100_0000,
    ;
    lemma_both(n * (e - i), m * (e - j), a * e, b * e);
    let down = (e - i) * (e - j);
    lemma_square(-i, -j);
    assert(down == (e + (-i)) * (e + (-j)));
    assert((n * (e - i)) * (m * (e - j)) == nm * down) by (nonlinear_arith)
        requires
            nm == n * m,
            down == (e - i) * (e - j),
    ;
    lemma_scaled(nm, 0x1_0000_0000_0000 * (e - (i + j + 2)), down * 0xff_ffff);
    assert(nm * (down * 0xff_ffff) == (nm * down) * 0xff_ffff) by (nonlinear_arith);
    assert(nm * (0x1_0000_0000_0000 * (e - (i + j + 2))) == (nm * (e - (i + j + 2)))
        * 0x1_0000_0000_0000) by (nonlinear_arith);
}

/// A quotient of two numbers that are off by `i` and `j` parts, rounded once more. `q * b`
/// is the result times the divisor.
proof fn lemma_quotient_parts(a: int, b: int, n: int, m: int, q: int, i: int, j: int)
    requires
        0 <= i <= 64,
        0 <= j <= 64,
        a >= 0,
        b >= 0,
        n >= 0,
        m >= 0,
        q >= 0,
        a * 0x100_0000 <= n * (0x100_0000 + i),
        a * 0x100_0000 >= n * (0x100_0000 - i),
        b * 0x100_0000 <= m * (0x100_0000 + j),
        b * 0x100_0000 >= m * (0x100_0000 - j),
        (q * b) * 0x100_0000 <= a * 0x100_0001,
        (q * b) * 0x100_0000 >= a * 0xff_ffff,
    ensures
        (q * m) * 0x100_0000 <= n * (0x100_0000 + (i + j + 2)),
        (q * m) * 0x100_0000 >= n * (0x100_0000 - (i + j + 2)),
{
    let e: int = 0x100_0000;
    let k = i + j + 2;
    let qm = q * m;
    let qb = q * b;
    assert(qm >= 0) by (nonlinear_arith)
        requires
            qm == q * m,
            q >= 0,
            m >= 0,
    ;
    lemma_small(i, j);
    assert(0 <= j * k <= 64 * 130) by (nonlinear_arith)
        requires
            0 <= j <= 64,
            0 <= k <= 130,
    ;
    // Upwards.
    lemma_scaled(q, m * (e - j), b * e);
    assert(q * (m * (e - j)) == qm * (e - j)) by (nonlinear_arith)
        requires
            qm == q * m,
    ;
    assert(q * (b * e) == qb * e) by (nonlinear_arith)
        requires
            qb == q * b,
    ;
    // qm * (e - j) <= a * (e + 1) and a * e <= n * (e + i)
    let up = (e + i) * (e + 1);
    lemma_square(i, 1);
    lemma_square(-j, k);
    let wide = (e - j) * (e + k);
    assert((-j) * k == -(j * k)) by (nonlinear_arith);
    assert(wide == (e + (-j)) * (e + k));
    lemma_scaled(n, up, wide);
    lemma_scaled(e + 1, a * e, n * (e + i));
    assert((e + 1) * (n * (e + i)) == n * up) by (nonlinear_arith)
        requires
            up == (e + i) * (e + 1),
    ;
    lemma_scaled(e, qm * (e - j), a * (e + 1));
    assert(e * (a * (e + 1)) == (e + 1) * (a * e)) by (nonlinear_arith);
    assert(n * wide == (e - j) * (n * (e + k))) by (nonlinear_arith)
        requires
            wide == (e - j) * (e + k),
    ;
    assert(e * (qm * (e - j)) == (e - j) * (qm * e)) by (nonlinear_arith);
    lemma_cancel(e - j, qm * e, n * (e + k));
    // Downwards.
    lemma_scaled(q, b * e, m * (e + j));
    assert(q * (m * (e + j)) == qm * (e + j)) by (nonlinear_arith)
        requires
            qm == q * m,
    ;
    let down = (e - i) * (e - 1);
    lemma_square(-i, -1);
    assert((-i) * (-1) == i);
    assert(down == (e + (-i)) * (e + (-1)));
    lemma_square(j, -k);
    let narrow = (e + j) * (e - k);
    assert(j * (-k) == -(j * k)) by (nonlinear_arith);
    assert(narrow == (e + j) * (e + (-k)));
    lemma_scaled(n, narrow, down);
    lemma_scaled(e - 1, n * (e - i), a * e);
    assert((e - 1) * (n * (e - i)) == n * down) by (nonlinear_arith)
        requires
            down == (e - i) * (e - 1),
    ;
    lemma_scaled(e, a * (e - 1), qm * (e + j));
    assert(e * (a * (e - 1)) == (e - 1) * (a * e)) by (nonlinear_arith);
    assert(n * narrow == (e + j) * (n * (e - k))) by (nonlinear_arith)
        requires
            narrow == (e + j) * (e - k),
    ;
    assert(e * (qm * (e + j)) == (e + j) * (qm * e)) by (nonlinear_arith);
    lemma_cancel(e + j, n * (e - k), qm * e);
}

/// The product of two numbers that are about what they should be.
pub proof fn product_is_about(
    a: Single,
    b: Single,
    n: int,
    d: int,
    i: int,
    m: int,
    g: int,
    j: int,
)
    requires
        0 <= i <= 64,
        0 <= j <= 64,
        n >= 0,
        m >= 0,
        d > 0,
        g > 0,
        is_about(a, n, d, i),
        is_about(b, m, g, j),
        a.value() * b.value() >= 0x80_0000 * single::unit_count(),
        a.value() * b.value() <= (0x1_0000_0000_0000_0000_0000 * single::unit_count())
            * single::unit_count(),
    ensures
        is_about(single::product(a, b), n * m, d * g, i + j + 2),
{
    let u = single::unit_count() as int;
    lemma_unit_count();
    let av = a.value();
    let bv = b.value();
    let v = av * bv;
    let res = single::product(a, b);
    rounding::lemma_units_at_least(a.code());
    rounding::lemma_units_at_least(b.code());
    lemma_rounded_is_near(res, v as nat, u as nat);
    let c = res.value();
    let dg = d * g;
    assert(dg > 0) by (nonlinear_arith)
        requires
            dg == d * g,
            d > 0,
            g > 0,
    ;
    let big = (c * u) * dg;
    lemma_scaled(dg, c * u * 0x100_0000, v * 0x100_0001);
    lemma_scaled(dg, v * 0xff_ffff, c * u * 0x100_0000);
    assert(dg * (c * u * 0x100_0000) == big * 0x100_0000) by (nonlinear_arith)
        requires
            big == (c * u) * dg,
    ;
    let x = av * d;
    let y = bv * g;
    assert(x * y == v * dg) by (nonlinear_arith)
        requires
            x == av * d,
            y == bv * g,
            v == av * bv,
            dg == d * g,
    ;
    assert(dg * (v * 0x100_0001) == (x * y) * 0x100_0001) by (nonlinear_arith)
        requires
            x * y == v * dg,
    ;
    assert(dg * (v * 0xff_ffff) == (x * y) * 0xff_ffff) by (nonlinear_arith)
        requires
            x * y == v * dg,
    ;
    assert(x >= 0 && y >= 0 && n * u >= 0 && m * u >= 0) by (nonlinear_arith)
        requires
            x == av * d,
            y == bv * g,
            av >= 0,
            bv >= 0,
            d > 0,
            g > 0,
            n >= 0,
            m >= 0,
            u > 0,
    ;
    lemma_product_parts(x, y, n * u, m * u, big, i, j);
    let k = i + j + 2;
    let nm = n * m;
    assert((n * u) * (m * u) == u * (nm * u)) by (nonlinear_arith)
        requires
            nm == n * m,
    ;
    assert(big == (c * dg) * u) by (nonlinear_arith)
        requires
            big == (c * u) * dg,
    ;
    lemma_without_units(c * dg, nm * u, big, u, k);
}

/// Both sides without the factor `u`.
proof fn lemma_without_units(v: int, w: int, big: int, u: int, k: int)
    requires
        u > 0,
        big == v * u || big == u * v,
        big * 0x100_0000 <= (u * w) * (0x100_0000 + k),
        big * 0x100_0000 >= (u * w) * (0x100_0000 - k),
    ensures
        v * 0x100_0000 <= w * (0x100_0000 + k),
        v * 0x100_0000 >= w * (0x100_0000 - k),
{
    assert(big * 0x100_0000 == u * (v * 0x100_0000)) by (nonlinear_arith)
        requires
            big == v * u || big == u * v,
    ;
    assert((u * w) * (0x100_0000 + k) == u * (w * (0x100_0000 + k))) by (nonlinear_arith);
    assert((u * w) * (0x100_0000 - k) == u * (w * (0x100_0000 - k))) by (nonlinear_arith);
    lemma_cancel(u, v * 0x100_0000, w * (0x100_0000 + k));
    lemma_cancel(u, w * (0x100_0000 - k), v * 0x100_0000);
}

/// The quotient of two numbers that are about what they should be.
pub proof fn quotient_is_about(
    a: Single,
    b: Single,
    n: int,
    d: int,
    i: int,
    m: int,
    g: int,
    j: int,
)
    requires
        0 <= i <= 64,
        0 <= j <= 64,
        n >= 0,
        m >= 0,
        d > 0,
        g > 0,
        is_about(a, n, d, i),
        is_about(b, m, g, j),
        a.value() > 0,
        b.value() > 0,
        a.value() * single::unit_count() >= 0x80_0000 * b.value(),
        a.value() * single::unit_count() <= (0x1_0000_0000_0000_0000_0000 * single::unit_count())
            * b.value(),
    ensures
        is_about(single::quotient(a, b), n * g, d * m, i + j + 2),
{
    let u = single::unit_count() as int;
    lemma_unit_count();
    let av = a.value();
    let bv = b.value();
    let au = av * u;
    assert(au >= 0) by (nonlinear_arith)
        requires
            au == av * u,
            av > 0,
            u > 0,
    ;
    let res = single::quotient(a, b);
    lemma_rounded_is_near(res, au as nat, bv as nat);
    rounding::lemma_units_at_least(res.code());
    let q = res.value();
    let dg = d * g;
    assert(dg > 0) by (nonlinear_arith)
        requires
            dg == d * g,
            d > 0,
            g > 0,
    ;
    // (q * d) * (bv * g) against (av * d) * (u * g)
    lemma_scaled(dg, q * bv * 0x100_0000, au * 0x100_0001);
    lemma_scaled(dg, au * 0xff_ffff, q * bv * 0x100_0000);
    let x = (av * d) * (u * g);
    let y = bv * g;
    let w = q * d;
    assert(dg * (q * bv * 0x100_0000) == (w * y) * 0x100_0000) by (nonlinear_arith)
        requires
            dg == d * g,
            w == q * d,
            y == bv * g,
    ;
    assert(x == au * dg) by (nonlinear_arith)
        requires
            x == (av * d) * (u * g),
            au == av * u,
            dg == d * g,
    ;
    assert(dg * (au * 0x100_0001) == x * 0x100_0001) by (nonlinear_arith)
        requires
            x == au * dg,
    ;
    assert(dg * (au * 0xff_ffff) == x * 0xff_ffff) by (nonlinear_arith)
        requires
            x == au * dg,
    ;
    let ug = u * g;
    let nn = (n * u) * ug;
    lemma_scaled(ug, (av * d) * 0x100_0000, (n * u) * (0x100_0000 + i));
    lemma_scaled(ug, (n * u) * (0x100_0000 - i), (av * d) * 0x100_0000);
    assert(ug * ((av * d) * 0x100_0000) == x * 0x100_0000) by (nonlinear_arith)
        requires
            x == (av * d) * ug,
    ;
    assert(ug * ((n * u) * (0x100_0000 + i)) == nn * (0x100_0000 + i)) by (nonlinear_arith)
        requires
            nn == (n * u) * ug,
    ;
    assert(ug * ((n * u) * (0x100_0000 - i)) == nn * (0x100_0000 - i)) by (nonlinear_arith)
        requires
            nn == (n * u) * ug,
    ;
    assert(x >= 0 && y >= 0 && w >= 0 && nn >= 0 && m * u >= 0) by (nonlinear_arith)
        requires
            x == au * dg,
            au >= 0,
            dg > 0,
            y == bv * g,
            bv > 0,
            g > 0,
            w == q * d,
            q >= 0,
            d > 0,
            nn == (n * u) * ug,
            ug == u * g,
            n >= 0,
            u > 0,
            m >= 0,
    ;
    lemma_quotient_parts(x, y, nn, m * u, w, i, j);
    let k = i + j + 2;
    let ng = n * g;
    assert(nn == u * (ng * u)) by (nonlinear_arith)
        requires
            nn == (n * u) * ug,
            ug == u * g,
            ng == n * g,
    ;
    let dm = d * m;
    assert(w * (m * u) == (q * dm) * u) by (nonlinear_arith)
        requires
            w == q * d,
            dm == d * m,
    ;
    lemma_without_units(q * dm, ng * u, w * (m * u), u, k);
}

/// The sum of two numbers that are about what they should be.
pub proof fn sum_is_about(a: Single, b: Single, n: int, m: int, d: int, i: int)
    requires
        0 <= i <= 64,
        n >= 0,
        m >= 0,
        d > 0,
        is_about(a, n, d, i),
        is_about(b, m, d, i),
        a.value() + b.value() >= 0x80_0000,
        a.value() + b.value() <= 0x1_0000_0000_0000_0000_0000 * single::unit_count(),
    ensures
        is_about(single::sum(a, b), n + m, d, i + 2),
{
    let u = single::unit_count() as int;
    lemma_unit_count();
    let av = a.value();
    let bv = b.value();
    let v = av + bv;
    let res = single::sum(a, b);
    rounding::lemma_units_at_least(a.code());
    rounding::lemma_units_at_least(b.code());
    lemma_rounded_is_near(res, v as nat, 1);
    let c = res.value();
    let x = v * d;
    let w = (n + m) * u;
    assert(x == av * d + bv * d) by (nonlinear_arith)
        requires
            x == v * d,
            v == av + bv,
    ;
    let nu = n * u;
    let mu = m * u;
    assert(w == nu + mu) by (nonlinear_arith)
        requires
            w == (n + m) * u,
            nu == n * u,
            mu == m * u,
    ;
    assert(w * (0x100_0000 + i) == nu * (0x100_0000 + i) + mu * (0x100_0000 + i))
        by (nonlinear_arith)
        requires
            w == nu + mu,
    ;
    assert(w * (0x100_0000 - i) == nu * (0x100_0000 - i) + mu * (0x100_0000 - i))
        by (nonlinear_arith)
        requires
            w == nu + mu,
    ;
    assert(x * 0x100_0000 <= w * (0x100_0000 + i));
    assert(x * 0x100_0000 >= w * (0x100_0000 - i));
    lemma_scaled(d, c * 1 * 0x100_0000, v * 0x100_0001);
    lemma_scaled(d, v * 0xff_ffff, c * 1 * 0x100_0000);
    let y = c * d;
    assert(d * (c * 1 * 0x100_0000) == y * 0x100_0000) by (nonlinear_arith)
        requires
            y == c * d,
    ;
    assert(d * (v * 0x100_0001) == x * 0x100_0001 && d * (v * 0xff_ffff) == x * 0xff_ffff)
        by (nonlinear_arith)
        requires
            x == v * d,
    ;
    assert(x >= 0 && w >= 0) by (nonlinear_arith)
        requires
            x == v * d,
            v >= 0,
            d > 0,
            w == (n + m) * u,
            n >= 0,
            m >= 0,
            u > 0,
    ;
    lemma_product_parts(x, 1, w, 1, y, i, 0);
}

/// A number is about what it is.
pub proof fn number_is_about(x: Single)
    requires
        x.finite(),
        !x.negative(),
    ensures
        is_about(x, x.value(), single::unit_count() as int, 0),
{
    let u = single::unit_count() as int;
    assert(x.value() * u * 0x100_0000 == x.value() * u * (0x100_0000 + 0));
}

/// An integer of 64 bits is about what it is; one below two to the power of 24 is exact.
pub proof fn integer_is_about(n: nat)
    requires
        n <= u64::MAX,
    ensures
        is_about(single::integer(n), n as int, 1, 1),
        single::integer(n).value() <= 2 * n * single::unit_count(),
        n > 0 ==> single::integer(n).value() >= single::unit_count(),
        n == 0 ==> single::integer(n).value() == 0,
        n < 0x100_0000 ==> is_about(single::integer(n), n as int, 1, 0),
        n < 0x100_0000 ==> single::integer(n).value() == n * single::unit_count(),
{
    let u = single::unit_count();
    lemma_unit_count();
    let x = single::integer(n);
    let nu = n * u;
    assert(nu >= 0) by (nonlinear_arith)
        requires
            nu == n * u,
            n >= 0,
            u > 0,
    ;
    assert(2 * n * u == 2 * nu) by (nonlinear_arith)
        requires
            nu == n * u,
    ;
    if n < 0x100_0000 {
        exact::whole_integer(n);
        assert(0 * u == 0);
        if n > 0 {
            assert(nu >= u) by (nonlinear_arith)
                requires
                    nu == n * u,
                    n > 0,
                    u > 0,
            ;
        }
    } else {
        assert(nu >= u) by (nonlinear_arith)
            requires
                nu == n * u,
                n > 0,
                u > 0,
        ;
        assert(nu <= 0x1_0000_0000_0000_0000_0000 * u) by (nonlinear_arith)
            requires
                nu == n * u,
                n <= 0x1_0000_0000_0000_0000_0000,
                u > 0,
        ;
        lemma_rounded_is_near(x, nu, 1);
        order::integers_keep_order(1, n);
        exact::whole_integer(1);
        assert(1 * u == u);
        single::rank_orders_values(single::integer(1), x);
    }
}

/// A number that is off by some parts is off by no more than more parts.
pub proof fn lemma_more_parts(x: Single, n: int, d: int, i: int, j: int)
    requires
        i <= j,
        n >= 0,
        is_about(x, n, d, i),
    ensures
        is_about(x, n, d, j),
{
    let w = n * single::unit_count();
    assert(w >= 0) by (nonlinear_arith)
        requires
            w == n * single::unit_count(),
            n >= 0,
    ;
    lemma_scaled(w, 0x100_0000 + i, 0x100_0000 + j);
    lemma_scaled(w, 0x100_0000 - j, 0x100_0000 - i);
}

/// A fraction may be expanded.
pub proof fn lemma_expanded(x: Single, n: int, d: int, c: int, k: int)
    requires
        c > 0,
        is_about(x, n, d, k),
    ensures
        is_about(x, n * c, d * c, k),
{
    let u = single::unit_count() as int;
    let v = x.value() * d * 0x100_0000;
    let w = n * u * (0x100_0000 + k);
    let y = n * u * (0x100_0000 - k);
    lemma_scaled(c, v, w);
    lemma_scaled(c, y, v);
    let value = x.value();
    assert(value * (d * c) * 0x100_0000 == c * v) by (nonlinear_arith)
        requires
            v == value * d * 0x100_0000,
    ;
    assert((n * c) * u * (0x100_0000 + k) == c * w) by (nonlinear_arith)
        requires
            w == n * u * (0x100_0000 + k),
    ;
    assert((n * c) * u * (0x100_0000 - k) == c * y) by (nonlinear_arith)
        requires
            y == n * u * (0x100_0000 - k),
    ;
}

/// A fraction may be reduced.
pub proof fn lemma_reduced(x: Single, n: int, d: int, c: int, k: int)
    requires
        c > 0,
        is_about(x, n * c, d * c, k),
    ensures
        is_about(x, n, d, k),
{
    let u = single::unit_count() as int;
    let v = x.value() * d;
    let w = n * u;
    assert(x.value() * (d * c) == v * c) by (nonlinear_arith)
        requires
            v == x.value() * d,
    ;
    assert((n * c) * u == c * w) by (nonlinear_arith)
        requires
            w == n * u,
    ;
    lemma_without_units(v, w, v * c, c, k);
}

} // verus!
