//! How often a frame is sent until it has arrived, and its arrival is known.
use crate::rounding;
use crate::share;
use crate::single;
use crate::single::Single;
use crate::tolerance;
use vstd::prelude::*;

verus! {

/// One divided by the product of two ratios is right up to four parts in two to the power of
/// 24. The product of the ratios is one part in `s` or more.
pub proof fn expected_number_is_right(a: Single, b: Single, s: int)
    requires
        share::is_share(a),
        share::is_share(b),
        a.value() * b.value() * s >= single::unit_count() * single::unit_count(),
        0 < s <= 0x100_0000_0000,
    ensures
        ({
            let u = single::unit_count() as int;
            let res = single::quotient(single::integer(1), single::product(a, b));
            &&& tolerance::is_about(res, u * u, a.value() * b.value(), 4)
            &&& 2 * res.value() >= u
            &&& res.value() <= 2 * s * u
        }),
{
    let u = single::unit_count() as int;
    let uu = u * u;
    let f = a.value();
    let r = b.value();
    let g = f * r;
    tolerance::lemma_unit_count();
    share::lemma_one();
    share::lemma_share_value(a);
    share::lemma_share_value(b);
    let p = single::product(a, b);
    let one = share::one();
    tolerance::number_is_about(a);
    tolerance::number_is_about(b);
    tolerance::number_is_about(one);
    assert(g <= uu && uu > 0) by (nonlinear_arith)
        requires
            g == f * r,
            uu == u * u,
            0 <= f <= u,
            0 <= r <= u,
            u > 0,
    ;
    assert(g * 0x100_0000_0000 >= uu) by (nonlinear_arith)
        requires
            g * s >= uu,
            uu > 0,
            0 < s <= 0x100_0000_0000,
    ;
    assert(g >= 0x80_0000 * u && g <= (0x1_0000_0000_0000_0000_0000 * u) * u) by (nonlinear_arith)
        requires
            u * u <= 0x100_0000_0000 * g,
            g <= u * u,
            u >= 0x1_0000_0000_0000_0000_0000_0000_0000,
    ;
    tolerance::product_is_about(a, b, f, u, 0, r, u, 0);
    let pv = p.value();
    lemma_product_bounds(pv, g, u, s);
    assert(pv * 0x200_0000_0000 >= u) by (nonlinear_arith)
        requires
            pv * (2 * s) >= u,
            u > 0,
            0 < s <= 0x100_0000_0000,
    ;
    assert(u * u >= 0x80_0000 * pv && u * u <= (0x1_0000_0000_0000_0000_0000 * u) * pv)
        by (nonlinear_arith)
        requires
            pv <= 2 * u,
            pv * 0x200_0000_0000 >= u,
            u >= 0x1_0000_0000_0000_0000_0000_0000_0000,
    ;
    tolerance::quotient_is_about(one, p, u, u, 0, g, uu, 2);
    let res = single::quotient(one, p);
    assert(u * uu == uu * u && u * g == g * u) by (nonlinear_arith);
    tolerance::lemma_reduced(res, uu, g, u, 4);
    rounding::lemma_units_at_least(res.code());
    lemma_quotient_bounds(res.value(), g, u, s);
}

/// Bounds that leave room for the roundings.
proof fn lemma_halves(x: int, z: int, y: int, s: int)
    requires
        y > 0,
        z <= y,
        z * s >= y,
        s > 0,
        x * 0x100_0000 <= z * (0x100_0000 + 2),
        x * 0x100_0000 >= z * (0x100_0000 - 2),
    ensures
        x <= 2 * y,
        x * (2 * s) >= y,
{
    assert(z > 0) by (nonlinear_arith)
        requires
            z * s >= y,
            y > 0,
            s > 0,
    ;
    assert(x <= 2 * y && 2 * x >= z) by (nonlinear_arith)
        requires
            z > 0,
            z <= y,
            x * 0x100_0000 <= z * (0x100_0000 + 2),
            x * 0x100_0000 >= z * (0x100_0000 - 2),
    ;
    assert(x * (2 * s) >= z * s) by (nonlinear_arith)
        requires
            2 * x >= z,
            s > 0,
    ;
}

proof fn lemma_product_bounds(p: int, g: int, u: int, s: int)
    requires
        u > 0,
        s > 0,
        g * s >= u * u,
        g <= u * u,
        p * (u * u) * 0x100_0000 <= g * u * (0x100_0000 + 2),
        p * (u * u) * 0x100_0000 >= g * u * (0x100_0000 - 2),
    ensures
        p <= 2 * u,
        p * (2 * s) >= u,
{
    let uu = u * u;
    let gu = g * u;
    let y = uu * u;
    assert(gu <= y && gu * s >= y && y > 0 && uu > 0) by (nonlinear_arith)
        requires
            gu == g * u,
            uu == u * u,
            y == uu * u,
            g * s >= uu,
            g <= uu,
            u > 0,
            s > 0,
    ;
    let x = p * uu;
    lemma_halves(x, gu, y, s);
    assert(2 * y == uu * (2 * u)) by (nonlinear_arith)
        requires
            y == uu * u,
    ;
    assert(x == uu * p && x * (2 * s) == uu * (p * (2 * s))) by (nonlinear_arith)
        requires
            x == p * uu,
    ;
    tolerance::lemma_cancel(uu, p, 2 * u);
    tolerance::lemma_cancel(uu, u, p * (2 * s));
}

proof fn lemma_quotient_bounds(q: int, g: int, u: int, s: int)
    requires
        u > 0,
        q >= 0,
        s > 0,
        g * s >= u * u,
        g <= u * u,
        q * g * 0x100_0000 <= (u * u) * u * (0x100_0000 + 4),
        q * g * 0x100_0000 >= (u * u) * u * (0x100_0000 - 4),
    ensures
        2 * q >= u,
        q <= 2 * s * u,
{
    let uu = u * u;
    let y = uu * u;
    assert(uu > 0 && y > 0) by (nonlinear_arith)
        requires
            uu == u * u,
            y == uu * u,
            u > 0,
    ;
    let x = q * g;
    assert(x <= 2 * y && 2 * x >= y) by (nonlinear_arith)
        requires
            y > 0,
            x * 0x100_0000 <= y * (0x100_0000 + 4),
            x * 0x100_0000 >= y * (0x100_0000 - 4),
    ;
    assert(q * uu <= x * s && q * uu >= x) by (nonlinear_arith)
        requires
            g * s >= uu,
            g <= uu,
            q >= 0,
            x == q * g,
    ;
    assert(x * s <= (2 * y) * s) by (nonlinear_arith)
        requires
            x <= 2 * y,
            s > 0,
    ;
    assert(uu * q == q * uu && uu * (2 * q) == 2 * (q * uu)) by (nonlinear_arith);
    assert(uu * (2 * s * u) == (2 * y) * s && uu * u == y) by (nonlinear_arith)
        requires
            y == uu * u,
    ;
    tolerance::lemma_cancel(uu, q, 2 * s * u);
    tolerance::lemma_cancel(uu, u, 2 * q);
}

} // verus!
