//! Running averages: what they keep of the old value and what they take of the new one.
use crate::order;
use crate::rounding;
use crate::share;
use crate::single;
use crate::single::Single;
use crate::tolerance;
use vstd::arithmetic::power2::*;
use vstd::prelude::*;

verus! {

/// Whether a number lies between one part in a million, or so, and one.
pub open spec fn is_weight(x: Single) -> bool {
    share::is_share(x) && x.value() * 0x10_0000 >= single::unit_count()
}

/// The largest number below one leaves a part in two to the power of 24.
proof fn lemma_rest_value(alpha: Single)
    requires
        share::is_share(alpha),
        alpha.value() < single::unit_count(),
    ensures
        (single::unit_count() - alpha.value()) * 0x100_0000 >= single::unit_count(),
{
    let u = single::unit_count();
    share::lemma_one();
    lemma2_to64();
    let top: nat = 125 * 0x80_0000 + 0xff_ffff;
    rounding::lemma_units_shift(0xff_ffff, 125);
    lemma_pow2_adds(24, 125);
    let code = 126 * 0x80_0000 + 0x80_0000;
    rounding::lemma_units_shift(0x80_0000, 126);
    lemma_pow2_adds(23, 126);
    assert(rounding::units(code as nat) == u);
    if alpha.code() > top {
        assert(alpha.code() >= code);
        if alpha.code() > code {
            rounding::lemma_units_increase(code as nat, alpha.code());
        }
    } else if alpha.code() < top {
        rounding::lemma_units_increase(alpha.code(), top);
    }
    assert(0xff_ffff * pow2(125) + pow2(125) == u) by (nonlinear_arith)
        requires
            0x100_0000 * pow2(125) == u,
    ;
}

/// What a weight leaves of one, within a rounding.
proof fn lemma_rest(alpha: Single)
    requires
        share::is_share(alpha),
    ensures
        ({
            let u = single::unit_count() as int;
            let rest = single::difference(single::integer(1), alpha);
            &&& tolerance::is_about(rest, u - alpha.value(), u, 1)
            &&& alpha.value() == u ==> rest.value() == 0
            &&& alpha.value() < u ==> rest.value() * 0x200_0000 >= u
            &&& rest.value() <= u
        }),
{
    let u = single::unit_count() as int;
    share::lemma_one();
    share::lemma_share_value(alpha);
    tolerance::lemma_unit_count();
    let one = share::one();
    let minus = single::negated(alpha);
    order::lemma_pack(!alpha.negative(), alpha.code());
    assert(minus.value() == -alpha.value());
    let rest = single::difference(one, alpha);
    share::rest_is_a_share(alpha);
    share::lemma_share_value(rest);
    let v = u - alpha.value();
    if v == 0 {
        order::lemma_pack(false, 0);
        assert(rest.value() == 0);
        assert(0 * u * 0x100_0000 == 0 && 0 * u * (0x100_0000 + 1) == 0 && 0 * u * (0x100_0000 - 1)
            == 0) by (nonlinear_arith);
    } else {
        lemma_rest_value(alpha);
        tolerance::lemma_rounded_is_near(rest, v as nat, 1);
        let w = rest.value();
        tolerance::lemma_scaled(u, w * 1 * 0x100_0000, v * 0x100_0001);
        tolerance::lemma_scaled(u, v * 0xff_ffff, w * 1 * 0x100_0000);
        assert(u * (w * 1 * 0x100_0000) == w * u * 0x100_0000) by (nonlinear_arith);
        assert(u * (v * 0x100_0001) == v * u * (0x100_0000 + 1)) by (nonlinear_arith);
        assert(u * (v * 0xff_ffff) == v * u * (0x100_0000 - 1)) by (nonlinear_arith);
    }
}

proof fn lemma_zero_is_about(x: Single, d: int, k: int)
    requires
        x.finite(),
        !x.negative(),
        x.value() == 0,
    ensures
        tolerance::is_about(x, 0, d, k),
{
    let u = single::unit_count() as int;
    assert(0 * d * 0x100_0000 == 0 && 0 * u * (0x100_0000 + k) == 0 && 0 * u * (0x100_0000 - k) == 0)
        by (nonlinear_arith);
}

/// What an average keeps of its old value: all but the weight, within three parts in two to
/// the power of 24.
pub proof fn average_keeps_all_but_the_weight(alpha: Single, old_value: Single)
    requires
        share::is_share(alpha),
        is_weight(old_value),
    ensures
        ({
            let u = single::unit_count() as int;
            let kept = single::product(
                single::difference(single::integer(1), alpha),
                old_value,
            );
            &&& tolerance::is_about(kept, (u - alpha.value()) * old_value.value(), u * u, 3)
            &&& alpha.value() == u ==> kept.value() == 0
            &&& alpha.value() < u ==> kept.value() >= 0x80_0000
            &&& kept.value() <= u
        }),
{
    let u = single::unit_count() as int;
    let rest = single::difference(single::integer(1), alpha);
    let kept = single::product(rest, old_value);
    share::lemma_one();
    tolerance::lemma_unit_count();
    share::lemma_share_value(alpha);
    share::lemma_share_value(old_value);
    lemma_rest(alpha);
    share::rest_is_a_share(alpha);
    share::share_of_a_share(rest, old_value);
    share::lemma_share_value(kept);
    let v = u - alpha.value();
    let o = old_value.value();
    let w = rest.value();
    if v == 0 {
        order::lemma_product_rank(rest, old_value);
        assert(single::abs(w) * single::abs(o) == 0) by (nonlinear_arith)
            requires
                single::abs(w) == 0,
        ;
        order::lemma_magnitude_of_zero(u as nat);
        order::lemma_pack(false, 0);
        assert(kept.value() == 0);
        lemma_zero_is_about(kept, u * u, 3);
        assert(0 * o == 0);
    } else {
        assert(w * o >= 0x80_0000 * u && w * o <= (0x1_0000_0000_0000_0000_0000 * u) * u)
            by (nonlinear_arith)
            requires
                w * 0x200_0000 >= u,
                o * 0x10_0000 >= u,
                w <= u,
                o <= u,
                w >= 0,
                o >= 0,
                u >= 0x1_0000_0000_0000_0000_0000_0000_0000,
        ;
        tolerance::number_is_about(old_value);
        tolerance::product_is_about(rest, old_value, v, u, 1, o, u, 0);
        lemma_rest_value(alpha);
        lemma_kept_bound(kept.value(), v, o, u);
    }
}

proof fn lemma_kept_bound(c: int, v: int, o: int, u: int)
    requires
        u >= 0x1_0000_0000_0000_0000_0000_0000_0000,
        v * 0x100_0000 >= u,
        o * 0x10_0000 >= u,
        c * (u * u) * 0x100_0000 >= (v * o) * u * (0x100_0000 - 3),
    ensures
        c >= 0x80_0000,
{
    let uu = u * u;
    let vo = v * o;
    assert(vo * 0x1000_0000_0000 >= uu && uu > 0) by (nonlinear_arith)
        requires
            vo == v * o,
            uu == u * u,
            v * 0x100_0000 >= u,
            o * 0x10_0000 >= u,
            u > 0,
    ;
    let x = c * uu;
    let y = vo * u;
    let z = uu * u;
    assert(y * 0x1000_0000_0000 >= z && y > 0) by (nonlinear_arith)
        requires
            y == vo * u,
            z == uu * u,
            vo * 0x1000_0000_0000 >= uu,
            uu > 0,
            u > 0,
    ;
    assert(x * 0x2000_0000_0000 >= z) by (nonlinear_arith)
        requires
            x * 0x100_0000 >= y * (0x100_0000 - 3),
            y * 0x1000_0000_0000 >= z,
            y > 0,
    ;
    assert(x * 0x2000_0000_0000 == uu * (c * 0x2000_0000_0000)) by (nonlinear_arith)
        requires
            x == c * uu,
    ;
    tolerance::lemma_cancel(uu, u, c * 0x2000_0000_0000);
}

/// An average moves from its old value towards the new one by the weight: it is the old
/// value times what the weight leaves of one, plus the weight where the new value is one,
/// within five parts in two to the power of 24.
pub proof fn average_moves_by_the_weight(alpha: Single, old_value: Single, success: bool)
    requires
        is_weight(alpha),
        is_weight(old_value),
    ensures
        ({
            let u = single::unit_count() as int;
            let kept = single::product(
                single::difference(single::integer(1), alpha),
                old_value,
            );
            let new = if success {
                single::integer(1)
            } else {
                single::integer(0)
            };
            let part = if success {
                alpha.value() * u
            } else {
                0
            };
            let exact = (u - alpha.value()) * old_value.value() + part;
            &&& tolerance::is_about(
                single::sum(kept, single::product(alpha, new)),
                exact,
                u * u,
                5,
            )
            &&& success ==> tolerance::is_about(single::sum(kept, alpha), exact, u * u, 5)
        }),
{
    let u = single::unit_count() as int;
    let uu = u * u;
    let rest = single::difference(single::integer(1), alpha);
    let kept = single::product(rest, old_value);
    share::lemma_one();
    tolerance::lemma_unit_count();
    share::lemma_share_value(alpha);
    share::lemma_share_value(old_value);
    average_keeps_all_but_the_weight(alpha, old_value);
    let av = alpha.value();
    let v = u - av;
    let o = old_value.value();
    let vo = v * o;
    assert(vo >= 0 && uu > 0 && av * u >= 0) by (nonlinear_arith)
        requires
            vo == v * o,
            v >= 0,
            o >= 0,
            uu == u * u,
            u > 0,
            av >= 0,
    ;
    assert(u <= 0x1_0000_0000_0000_0000_0000 * u);
    if success {
        let one = share::one();
        let part = single::product(alpha, one);
        tolerance::number_is_about(alpha);
        tolerance::lemma_expanded(alpha, av, u, u, 0);
        tolerance::lemma_more_parts(alpha, av * u, uu, 0, 3);
        tolerance::sum_is_about(kept, alpha, vo, av * u, uu, 3);
        share::share_of_a_share(alpha, one);
        share::lemma_share_value(part);
        tolerance::number_is_about(one);
        assert(av * u >= 0x80_0000 * u && av * u <= (0x1_0000_0000_0000_0000_0000 * u) * u)
            by (nonlinear_arith)
            requires
                av * 0x10_0000 >= u,
                av <= u,
                u >= 0x1_0000_0000_0000_0000_0000_0000_0000,
        ;
        tolerance::product_is_about(alpha, one, av, u, 0, u, u, 0);
        tolerance::lemma_more_parts(part, av * u, uu, 2, 3);
        assert(part.value() >= 0x80_0000) by (nonlinear_arith)
            requires
                part.value() * (u * u) * 0x100_0000 >= (av * u) * u * (0x100_0000 - 3),
                av * 0x10_0000 >= u,
                u >= 0x1_0000_0000_0000_0000_0000_0000_0000,
        ;
        tolerance::sum_is_about(kept, part, vo, av * u, uu, 3);
    } else {
        let zero = single::integer(0);
        tolerance::integer_is_about(0);
        let part = single::product(alpha, zero);
        share::share_of_a_share(alpha, zero);
        share::lemma_share_value(part);
        order::lemma_product_rank(alpha, zero);
        assert(av * 0 == 0);
        order::lemma_magnitude_of_zero(u as nat);
        assert(part.rank() == 0);
        assert(part.value() == 0);
        lemma_zero_is_about(part, uu, 3);
        if v > 0 {
            tolerance::sum_is_about(kept, part, vo, 0, uu, 3);
        } else {
            order::lemma_pack(false, 0);
            assert(0 * o == 0);
            assert(single::sum(kept, part).value() == 0);
            lemma_zero_is_about(single::sum(kept, part), uu, 5);
        }
    }
}

} // verus!
