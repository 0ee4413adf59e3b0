//! Rounding never turns an order round: what single-precision arithmetic keeps of
//! the order of the numbers.
use crate::rounding;
use crate::rounding::INFINITE;
use crate::single;
use crate::single::Single;
use vstd::arithmetic::div_mod::*;
use vstd::arithmetic::power2::*;
use vstd::prelude::*;

verus! {

/// The rank of `v / d` units, rounded to single precision.
pub open spec fn rounded_rank(v: int, d: nat) -> int {
    if v < 0 {
        -(rounding::magnitude(single::abs(v), d) as int)
    } else {
        rounding::magnitude(single::abs(v), d) as int
    }
}

/// The parts of a number that was put together from a sign and a magnitude.
pub proof fn lemma_pack(negative: bool, code: nat)
    requires
        code <= INFINITE,
    ensures
        single::pack(negative, code).code() == code,
        single::pack(negative, code).negative() == negative,
        !single::pack(negative, code).nan(),
        single::pack(negative, code).rank() == if negative {
            -code
        } else {
            code as int
        },
{
}

/// Nothing rounds to nothing.
pub proof fn lemma_magnitude_of_zero(d: nat)
    requires
        d > 0,
    ensures
        rounding::magnitude(0, d) == 0,
{
    lemma_fundamental_div_mod_converse(0, d as int, 0, 0);
}

/// A larger quotient rounds to no smaller number.
pub proof fn lemma_rounded_rank_monotone(v: int, d: nat, w: int, e: nat)
    requires
        d > 0,
        e > 0,
        v * e <= w * d,
    ensures
        rounded_rank(v, d) <= rounded_rank(w, e),
{
    if v >= 0 {
        assert(w >= 0) by (nonlinear_arith)
            requires
                v * e <= w * d,
                v >= 0,
                d > 0,
                e > 0,
        ;
        rounding::lemma_nearest_monotone(v as nat, d, w as nat, e);
    } else if w < 0 {
        assert((-w) * d <= (-v) * e) by (nonlinear_arith)
            requires
                v * e <= w * d,
        ;
        rounding::lemma_nearest_monotone((-w) as nat, e, (-v) as nat, d);
    }
}

/// A number rounds to itself.
pub proof fn lemma_rank_of_value(a: Single)
    requires
        a.finite(),
    ensures
        rounded_rank(a.value(), 1) == a.rank(),
{
    rounding::lemma_nearest_of_units(a.code());
    rounding::lemma_units_at_least(a.code());
}

proof fn lemma_unit_count()
    ensures
        single::unit_count() > 0,
{
    lemma_pow2_pos(149);
}

/// The sum of two finite numbers, by its rank.
pub proof fn lemma_sum_rank(a: Single, b: Single)
    requires
        a.finite(),
        b.finite(),
    ensures
        !single::sum(a, b).nan(),
        single::sum(a, b).rank() == rounded_rank(a.value() + b.value(), 1),
{
    let v = a.value() + b.value();
    lemma_magnitude_of_zero(1);
    lemma_pack(a.negative() && b.negative(), 0);
    lemma_pack(v < 0, rounding::magnitude(single::abs(v), 1));
}

/// Adding the same number to both sides keeps the order.
pub proof fn sum_keeps_order(a: Single, b: Single, c: Single)
    requires
        single::at_most(a, b),
        c.finite(),
    ensures
        single::at_most(single::sum(a, c), single::sum(b, c)),
{
    if a.finite() {
        lemma_sum_rank(a, c);
    }
    if b.finite() {
        lemma_sum_rank(b, c);
    }
    if a.finite() && b.finite() {
        single::rank_orders_values(a, b);
        lemma_rounded_rank_monotone(a.value() + c.value(), 1, b.value() + c.value(), 1);
    }
}

/// Taking the same number from both sides keeps the order.
pub proof fn difference_keeps_order(a: Single, b: Single, c: Single)
    requires
        single::at_most(a, b),
        c.finite(),
    ensures
        single::at_most(single::difference(a, c), single::difference(b, c)),
{
    lemma_pack(!c.negative(), c.code());
    sum_keeps_order(a, b, single::negated(c));
}

/// The product of two finite numbers that are not below zero, by its rank.
pub proof fn lemma_product_rank(a: Single, b: Single)
    requires
        a.finite(),
        b.finite(),
        a.rank() >= 0,
        b.rank() >= 0,
    ensures
        !single::product(a, b).nan(),
        a.value() >= 0,
        b.value() >= 0,
        single::product(a, b).rank() == rounded_rank(
            a.value() * b.value(),
            single::unit_count(),
        ),
{
    lemma_unit_count();
    lemma_pack(
        a.negative() != b.negative(),
        rounding::magnitude(single::abs(a.value()) * single::abs(b.value()), single::unit_count()),
    );
    assert(a.value() * b.value() >= 0) by (nonlinear_arith)
        requires
            a.value() >= 0,
            b.value() >= 0,
    ;
    if a.negative() || b.negative() {
        assert(a.value() == 0 || b.value() == 0);
        assert(a.value() * b.value() == 0) by (nonlinear_arith)
            requires
                a.value() == 0 || b.value() == 0,
        ;
        lemma_magnitude_of_zero(single::unit_count());
    }
}

/// Multiplying both sides by a number that is not below zero keeps their order.
pub proof fn product_keeps_order(a: Single, b: Single, c: Single)
    requires
        single::at_most(a, b),
        a.rank() >= 0,
        c.rank() >= 0,
        !single::product(a, c).nan(),
        !single::product(b, c).nan(),
    ensures
        single::at_most(single::product(a, c), single::product(b, c)),
        single::product(a, c).rank() >= 0,
{
    lemma_pack(a.negative() != c.negative(), INFINITE as nat);
    lemma_pack(b.negative() != c.negative(), INFINITE as nat);
    lemma_unit_count();
    if c.finite() && a.finite() {
        lemma_product_rank(a, c);
        if b.finite() {
            lemma_product_rank(b, c);
            single::rank_orders_values(a, b);
            assert((a.value() * c.value()) * single::unit_count() <= (b.value() * c.value())
                * single::unit_count()) by (nonlinear_arith)
                requires
                    a.value() <= b.value(),
                    c.value() >= 0,
                    single::unit_count() > 0,
            ;
            lemma_rounded_rank_monotone(
                a.value() * c.value(),
                single::unit_count(),
                b.value() * c.value(),
                single::unit_count(),
            );
        }
    }
}

/// The quotient of a finite number by a finite number above zero, by its rank.
pub proof fn lemma_quotient_rank(a: Single, c: Single)
    requires
        a.finite(),
        c.finite(),
        c.rank() > 0,
    ensures
        !single::quotient(a, c).nan(),
        c.value() > 0,
        single::quotient(a, c).rank() == rounded_rank(
            a.value() * single::unit_count(),
            c.value() as nat,
        ),
{
    lemma_unit_count();
    rounding::lemma_units_at_least(c.code());
    let n = single::abs(a.value()) * single::unit_count();
    lemma_pack(a.negative() != c.negative(), rounding::magnitude(n, c.value() as nat));
    let u = single::unit_count() as int;
    let v = a.value();
    assert(v * u < 0 <==> v < 0) by (nonlinear_arith)
        requires
            u > 0,
    ;
    assert(single::abs(v * u) == single::abs(v) * u) by (nonlinear_arith)
        requires
            u > 0,
    ;
    if a.negative() && v == 0 {
        assert(0 * u == 0);
        lemma_magnitude_of_zero(c.value() as nat);
    }
}

/// Dividing both sides by a number that is not below zero keeps their order.
pub proof fn quotient_keeps_order(a: Single, b: Single, c: Single)
    requires
        single::at_most(a, b),
        !c.nan(),
        !c.negative(),
        !single::quotient(a, c).nan(),
        !single::quotient(b, c).nan(),
    ensures
        single::at_most(single::quotient(a, c), single::quotient(b, c)),
{
    lemma_pack(a.negative() != c.negative(), INFINITE as nat);
    lemma_pack(b.negative() != c.negative(), INFINITE as nat);
    lemma_pack(a.negative() != c.negative(), 0);
    lemma_pack(b.negative() != c.negative(), 0);
    if c.finite() && c.code() > 0 {
        if a.finite() {
            lemma_quotient_rank(a, c);
        }
        if b.finite() {
            lemma_quotient_rank(b, c);
        }
        if a.finite() && b.finite() {
            single::rank_orders_values(a, b);
            let u = single::unit_count() as int;
            lemma_unit_count();
            assert((a.value() * u) * c.value() <= (b.value() * u) * c.value()) by (nonlinear_arith)
                requires
                    a.value() <= b.value(),
                    u > 0,
                    c.value() > 0,
            ;
            lemma_rounded_rank_monotone(
                a.value() * u,
                c.value() as nat,
                b.value() * u,
                c.value() as nat,
            );
        }
    }
}

/// The larger of each side and the same number keeps the order.
pub proof fn larger_keeps_order(a: Single, b: Single, c: Single)
    requires
        single::at_most(a, b),
        !c.nan(),
    ensures
        single::at_most(single::larger(a, c), single::larger(b, c)),
        single::at_most(single::larger(c, a), single::larger(c, b)),
        single::at_most(c, single::larger(a, c)),
        single::at_most(c, single::larger(c, a)),
{
}

/// The value of a ceiling, in whole numbers.
pub open spec fn ceiling_whole(a: Single) -> int {
    if a.negative() {
        -(a.whole() as int)
    } else if rounding::units(a.code()) % single::unit_count() == 0 {
        a.whole() as int
    } else {
        (a.whole() + 1) as int
    }
}

proof fn lemma_ceiling_rank(a: Single)
    requires
        a.finite(),
    ensures
        !single::ceiling(a).nan(),
        single::ceiling(a).rank() == rounded_rank(ceiling_whole(a) * single::unit_count(), 1),
{
    let u = single::unit_count() as int;
    lemma_unit_count();
    lemma_magnitude_of_zero(1);
    let k = ceiling_whole(a);
    assert(k * u < 0 <==> k < 0) by (nonlinear_arith)
        requires
            u > 0,
    ;
    assert(single::abs(k * u) == single::abs(k) * u) by (nonlinear_arith)
        requires
            u > 0,
    ;
    lemma_pack(a.negative(), rounding::magnitude(single::abs(k) * single::unit_count(), 1));
    if a.code() == 0 {
        lemma_fundamental_div_mod_converse(0, u, 0, 0);
        assert(a.whole() == 0);
        assert(k == 0);
        assert(0 * u == 0);
    } else if a.negative() && a.whole() == 0 {
        assert(0 * u == 0);
    }
}

proof fn lemma_ceiling_whole_monotone(a: Single, b: Single)
    requires
        a.finite(),
        b.finite(),
        a.value() <= b.value(),
    ensures
        ceiling_whole(a) <= ceiling_whole(b),
{
    let u = single::unit_count() as int;
    lemma_unit_count();
    let x = rounding::units(a.code()) as int;
    let y = rounding::units(b.code()) as int;
    lemma_fundamental_div_mod(x, u);
    lemma_fundamental_div_mod(y, u);
    assert(0 <= x / u && 0 <= y / u) by (nonlinear_arith)
        requires
            x == u * (x / u) + x % u,
            y == u * (y / u) + y % u,
            0 <= x % u < u,
            0 <= y % u < u,
            x >= 0,
            y >= 0,
            u > 0,
    ;
    if a.negative() && b.negative() {
        lemma_div_is_ordered(y, x, u);
    } else if !a.negative() && !b.negative() {
        lemma_div_is_ordered(x, y, u);
        if x / u == y / u && y % u == 0 {
            assert(x % u <= y % u);
        }
    } else if !a.negative() && b.negative() {
        assert(x == 0 && y == 0);
        lemma_fundamental_div_mod_converse(0, u, 0, 0);
    }
}

/// Rounding up keeps the order.
pub proof fn ceiling_keeps_order(a: Single, b: Single)
    requires
        single::at_most(a, b),
    ensures
        single::at_most(single::ceiling(a), single::ceiling(b)),
{
    if a.finite() {
        lemma_ceiling_rank(a);
    }
    if b.finite() {
        lemma_ceiling_rank(b);
    }
    if a.finite() && b.finite() {
        single::rank_orders_values(a, b);
        lemma_ceiling_whole_monotone(a, b);
        let u = single::unit_count() as int;
        lemma_unit_count();
        assert((ceiling_whole(a) * u) * 1 <= (ceiling_whole(b) * u) * 1) by (nonlinear_arith)
            requires
                ceiling_whole(a) <= ceiling_whole(b),
                u > 0,
        ;
        lemma_rounded_rank_monotone(ceiling_whole(a) * u, 1, ceiling_whole(b) * u, 1);
    }
}

/// Cutting off the fraction keeps the order of numbers that are not below zero.
pub proof fn saturation_keeps_order(a: Single, b: Single, high: int)
    requires
        single::at_most(a, b),
        a.rank() >= 0,
        high >= 0,
    ensures
        single::saturated(a, 0, high) <= single::saturated(b, 0, high),
{
    lemma_unit_count();
    if a.finite() && b.finite() {
        single::rank_orders_values(a, b);
        let x = rounding::units(a.code()) as int;
        let y = rounding::units(b.code()) as int;
        if !a.negative() && !b.negative() {
            lemma_div_is_ordered(x, y, single::unit_count() as int);
        } else {
            lemma_fundamental_div_mod_converse(0, single::unit_count() as int, 0, 0);
        }
    }
}

/// A whole number that is larger is no smaller in single precision.
pub proof fn integers_keep_order(m: nat, n: nat)
    requires
        m <= n,
        n < 0x1_0000_0000_0000_0000,
    ensures
        single::at_most(single::integer(m), single::integer(n)),
        single::integer(m).finite(),
        single::integer(n).finite(),
        !single::integer(m).negative(),
        !single::integer(n).negative(),
{
    single::lemma_integer_is_finite(m);
    single::lemma_integer_is_finite(n);
    assert((m * single::unit_count()) * 1 <= (n * single::unit_count()) * 1) by (nonlinear_arith)
        requires
            m <= n,
    ;
    rounding::lemma_nearest_monotone(m * single::unit_count(), 1, n * single::unit_count(), 1);
}

/// The order of the summands does not matter.
pub proof fn sum_commutes(a: Single, b: Single)
    ensures
        single::sum(a, b) == single::sum(b, a),
{
}

/// The order of the factors does not matter.
pub proof fn product_commutes(a: Single, b: Single)
    ensures
        single::product(a, b) == single::product(b, a),
{
    assert(single::abs(a.value()) * single::abs(b.value()) == single::abs(b.value()) * single::abs(
        a.value(),
    )) by (nonlinear_arith);
}

/// A number can be divided by any number but zero, and a number other than zero by
/// zero too.
pub proof fn lemma_quotient_is_a_number(x: Single, c: Single)
    requires
        !x.nan(),
        c.finite(),
        !c.negative(),
        c.rank() > 0 || x.rank() > 0,
    ensures
        !single::quotient(x, c).nan(),
{
    lemma_pack(x.negative() != c.negative(), INFINITE as nat);
    if c.rank() > 0 && x.finite() {
        lemma_quotient_rank(x, c);
    }
}

/// A number above zero can be multiplied with any number that is not below zero.
pub proof fn lemma_product_is_a_number(a: Single, c: Single)
    requires
        !a.nan(),
        a.rank() >= 0,
        c.rank() > 0,
        c.finite() || a.rank() > 0,
        !c.nan(),
    ensures
        !single::product(a, c).nan(),
{
    lemma_pack(a.negative() != c.negative(), INFINITE as nat);
    if a.finite() && c.finite() {
        lemma_product_rank(a, c);
    }
}

/// Adding something that is not below zero leaves a number above zero above zero.
pub proof fn lemma_sum_is_above(a: Single, b: Single)
    requires
        !a.nan(),
        a.rank() > 0,
        b.finite(),
        b.rank() >= 0,
    ensures
        single::sum(b, a).rank() > 0,
        !single::sum(b, a).nan(),
{
    sum_commutes(a, b);
    if a.finite() {
        lemma_sum_rank(a, b);
        rounding::lemma_units_at_least(a.code());
        lemma_rounded_rank_monotone(a.value(), 1, a.value() + b.value(), 1);
        rounding::lemma_nearest_of_units(a.code());
    }
}

} // verus!
