//! Numbers between zero and one.
use crate::accuracy;
use crate::exact;
use crate::order;
use crate::rounding;
use crate::single;
use crate::single::Single;
use vstd::arithmetic::div_mod::*;
use vstd::arithmetic::power2::*;
use vstd::prelude::*;

verus! {

pub open spec fn one() -> Single {
    single::integer(1)
}

/// Whether a number lies between zero and one.
pub open spec fn is_share(x: Single) -> bool {
    x.finite() && !x.negative() && x.rank() <= one().rank()
}

pub proof fn lemma_one()
    ensures
        exact::is_whole(one(), 1),
        !one().negative(),
        one().rank() > 0,
        one().value() == single::unit_count(),
        order::rounded_rank(single::unit_count() as int, 1) == one().rank(),
        single::unit_count() >= 0x100_0000,
        is_share(one()),
        is_share(single::integer(0)),
{
    exact::whole_integer(1);
    exact::whole_integer(0);
    exact::lemma_rounded_whole(false, 1);
    assert(1 * single::unit_count() == single::unit_count());
    assert(0 * single::unit_count() == 0);
    order::lemma_magnitude_of_zero(1);
    lemma2_to64();
    lemma_pow2_strictly_increases(24, 149);
}

pub proof fn lemma_share_value(x: Single)
    requires
        is_share(x),
    ensures
        0 <= x.value() <= single::unit_count(),
{
    lemma_one();
    single::rank_orders_values(x, one());
    rounding::lemma_units_at_least(x.code());
}

/// The product of two shares is a share, and no larger than either.
pub proof fn share_of_a_share(a: Single, b: Single)
    requires
        is_share(a),
        is_share(b),
    ensures
        is_share(single::product(a, b)),
        single::at_most(single::product(a, b), a),
        single::at_most(single::product(a, b), b),
{
    let u = single::unit_count() as int;
    lemma_one();
    lemma_share_value(a);
    lemma_share_value(b);
    order::lemma_product_rank(a, b);
    let v = a.value() * b.value();
    assert(0 <= v && v * 1 <= u * u && v * 1 <= a.value() * u && v * 1 <= b.value() * u)
        by (nonlinear_arith)
        requires
            0 <= a.value() <= u,
            0 <= b.value() <= u,
            v == a.value() * b.value(),
    ;
    order::lemma_rounded_rank_monotone(v, u as nat, u, 1);
    order::lemma_pack(
        false,
        rounding::magnitude(single::abs(a.value()) * single::abs(b.value()), single::unit_count()),
    );
    order::lemma_rounded_rank_monotone(v, u as nat, a.value(), 1);
    order::lemma_rounded_rank_monotone(v, u as nat, b.value(), 1);
    rounding::lemma_nearest_of_units(a.code());
    rounding::lemma_nearest_of_units(b.code());
}

/// What a share leaves of one is a share.
pub proof fn rest_is_a_share(a: Single)
    requires
        is_share(a),
    ensures
        is_share(single::difference(one(), a)),
        single::difference(one(), a).rank() == order::rounded_rank(
            single::unit_count() - a.value(),
            1,
        ),
{
    let u = single::unit_count() as int;
    lemma_one();
    lemma_share_value(a);
    let b = single::negated(a);
    order::lemma_pack(!a.negative(), a.code());
    assert(b.value() == -a.value());
    order::lemma_sum_rank(one(), b);
    order::lemma_rounded_rank_monotone(u + b.value(), 1, u, 1);
    order::lemma_pack(false, 0);
    order::lemma_pack(false, rounding::magnitude(single::abs(u + b.value()), 1));
}

/// By how much rounding can raise a number below one.
proof fn lemma_rounding_error(n: nat)
    requires
        n <= single::unit_count(),
    ensures
        2 * rounding::units(rounding::nearest(n, 1)) <= 2 * n + pow2(125),
{
    lemma2_to64();
    lemma_pow2_pos(125);
    if n < 0x100_0000 {
        rounding::lemma_nearest_of_units(n);
    } else if n == single::unit_count() {
        exact::lemma_rounded_whole(false, 1);
        assert(1 * single::unit_count() == single::unit_count());
    } else {
        lemma_error_in_window(n, 0);
    }
}

proof fn lemma_error_in_window(n: nat, s: nat)
    requires
        0x80_0000 * pow2(s) <= n < pow2(149),
    ensures
        2 * rounding::units(rounding::nearest(n, 1)) <= 2 * n + pow2(125),
    decreases 149 - s,
{
    lemma2_to64();
    lemma_pow2_adds(23, s);
    let p = pow2(s);
    if s + 23 >= 149 {
        if s + 23 > 149 {
            lemma_pow2_strictly_increases(149, s + 23);
        }
        assert(false);
    }
    lemma_pow2_pos(s);
    if n < 0x100_0000 * p {
        assert(1 * p == p);
        rounding::lemma_nearest_window(n, 1, s);
        let h = rounding::half_even(n, p);
        accuracy::lemma_half_even_error(n, p);
        assert(0x80_0000 <= h <= 0x100_0000) by {
            accuracy::lemma_half_even_range(n, p);
        }
        if h < 0x100_0000 {
            rounding::lemma_units_shift(h, s);
        } else {
            rounding::lemma_units_shift(0x80_0000, s + 1);
            lemma_pow2_unfold(s + 1);
            assert((s + 1) * 0x80_0000 + 0x80_0000 == s * 0x80_0000 + h);
        }
        if s < 125 {
            lemma_pow2_strictly_increases(s, 125);
        }
    } else {
        lemma_pow2_unfold(s + 1);
        lemma_error_in_window(n, s + 1);
    }
}

/// A share and what it leaves of one add up to one at most, although each was
/// rounded.
pub proof fn share_and_rest_are_one(a: Single)
    requires
        is_share(a),
    ensures
        is_share(single::sum(single::difference(one(), a), a)),
{
    let u = single::unit_count();
    lemma_one();
    rest_is_a_share(a);
    lemma_share_value(a);
    let rest = single::difference(one(), a);
    lemma_share_value(rest);
    let n = (u - a.value()) as nat;
    lemma_rounding_error(n);
    assert(rest.rank() == rounding::nearest(n, 1)) by {
        assert(rounding::magnitude(n, 1) < rounding::INFINITE);
    }
    assert(rest.value() == rounding::units(rounding::nearest(n, 1)));
    order::lemma_sum_rank(rest, a);
    let v = rest.value() + a.value();
    // The sum exceeds one by at most a quarter of the distance to the next number.
    let y = pow2(124);
    let p = pow2(126);
    lemma_pow2_unfold(125);
    lemma_pow2_unfold(126);
    lemma_pow2_pos(124);
    assert(v <= u + y);
    lemma2_to64();
    lemma_pow2_adds(23, 126);
    assert(u == 0x80_0000 * p);
    assert(1 * p == p);
    rounding::lemma_nearest_window(u + y, 1, 126);
    lemma_fundamental_div_mod_converse((u + y) as int, p as int, 0x80_0000, y as int);
    rounding::lemma_nearest_window(u, 1, 126);
    lemma_fundamental_div_mod_converse(u as int, p as int, 0x80_0000, 0);
    order::lemma_rounded_rank_monotone(v, 1, (u + y) as int, 1);
    lemma_sum_of_shares(rest, a);
}

/// Sums of numbers that carry no sign carry none.
proof fn lemma_sum_of_shares(a: Single, b: Single)
    requires
        is_share(a),
        is_share(b),
    ensures
        !single::sum(a, b).negative(),
{
    lemma_share_value(a);
    lemma_share_value(b);
    let v = a.value() + b.value();
    order::lemma_pack(false, 0);
    order::lemma_pack(false, rounding::magnitude(single::abs(v), 1));
}

/// A share that is moved towards one by a share stays a share.
pub proof fn raised_share_is_a_share(a: Single, x: Single)
    requires
        is_share(a),
        is_share(x),
    ensures
        is_share(single::sum(single::product(single::difference(one(), a), x), a)),
{
    lemma_one();
    rest_is_a_share(a);
    let rest = single::difference(one(), a);
    share_of_a_share(rest, x);
    let kept = single::product(rest, x);
    share_and_rest_are_one(a);
    order::sum_keeps_order(kept, rest, a);
    order::lemma_sum_rank(kept, a);
    lemma_sum_of_shares(kept, a);
}

} // verus!
