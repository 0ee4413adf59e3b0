//! What the metric of a path means: the metric that the neighbour announced, and the time
//! that a frame is expected to take on the link to it.
use crate::average;
use crate::mesh::ctp;
use crate::mesh::ctp::ratio;
use crate::mesh::ctp::NeighborState;
use crate::mesh::scheduler::TxPlan;
use crate::order;
use crate::rounding;
use crate::share;
use crate::single;
use crate::single::Single;
use crate::time::Duration;
use crate::tolerance;
use crate::transmissions;
use vstd::prelude::*;

verus! {

/// A duration in milliseconds is right up to eight parts in two to the power of 24.
pub proof fn millis_are_right(d: Duration)
    requires
        d.nanos > 0,
    ensures
        tolerance::is_about(ctp::millis_of(d), d.nanos as int, 1_000_000, 8),
        ctp::millis_of(d).value() * 4_000_000 >= single::unit_count(),
        ctp::millis_of(d).value() <= 0x4_0000_0000_0000 * single::unit_count(),
{
    reveal(ctp::millis_of);
    let u = single::unit_count() as int;
    tolerance::lemma_unit_count();
    let whole = (d.nanos / 1_000_000_000) as nat;
    let part = (d.nanos % 1_000_000_000) as nat;
    let seconds = single::integer(whole);
    let below = single::integer(part);
    let billion = single::integer(1_000_000_000);
    let thousand = single::integer(1000);
    let rest = single::quotient(below, billion);
    tolerance::integer_is_about(whole);
    tolerance::integer_is_about(part);
    tolerance::integer_is_about(1_000_000_000);
    tolerance::integer_is_about(1000);
    let bv = below.value();
    let gv = billion.value();
    if part > 0 {
        assert(bv <= 2_000_000_000 * u) by (nonlinear_arith)
            requires
                bv <= 2 * part * u,
                part < 1_000_000_000,
                u > 0,
        ;
        assert(bv * u >= 0x80_0000 * gv && bv * u <= (0x1_0000_0000_0000_0000_0000 * u) * gv)
            by (nonlinear_arith)
            requires
                u <= bv <= 2_000_000_000 * u,
                u <= gv <= 2_000_000_000 * u,
                u >= 0x1_0000_0000_0000_0000_0000_0000_0000,
        ;
        tolerance::quotient_is_about(below, billion, part as int, 1, 1, 1_000_000_000, 1, 1);
        assert(part * 1 == part && 1 * 1_000_000_000int == 1_000_000_000);
        assert(rest.value() * 2_000_000_000 >= u && rest.value() <= 2 * u) by (nonlinear_arith)
            requires
                rest.value() * 1_000_000_000 * 0x100_0000 <= part * u * (0x100_0000 + 4),
                rest.value() * 1_000_000_000 * 0x100_0000 >= part * u * (0x100_0000 - 4),
                1 <= part < 1_000_000_000,
                u > 0,
        ;
    } else {
        assert(below.code() == 0) by {
            rounding::lemma_units_at_least(below.code());
        }
        order::lemma_magnitude_of_zero(gv as nat);
        assert(single::abs(bv) * single::unit_count() == 0) by (nonlinear_arith)
            requires
                single::abs(bv) == 0,
        ;
        assert(billion.code() > 0);
        order::lemma_pack(false, 0);
        assert(rest.value() == 0);
        assert(tolerance::is_about(rest, 0, 1_000_000_000, 4)) by {
            assert(0 * 1_000_000_000int * 0x100_0000 == 0);
            assert(0 * u * (0x100_0000 + 4) == 0 && 0 * u * (0x100_0000 - 4) == 0)
                by (nonlinear_arith);
        }
    }
    tolerance::lemma_more_parts(seconds, whole as int, 1, 1, 4);
    tolerance::lemma_expanded(seconds, whole as int, 1, 1_000_000_000, 4);
    assert(seconds.value() <= 0x10_0000_0000 * u) by (nonlinear_arith)
        requires
            seconds.value() <= 2 * whole * u,
            whole < 0x8_0000_0000,
            u > 0,
    ;
    let total = single::sum(seconds, rest);
    let scaled = (whole as int) * 1_000_000_000;
    let exact = scaled + part;
    assert(exact == d.nanos);
    tolerance::sum_is_about(seconds, rest, scaled, part as int, 1_000_000_000, 4);
    let tv = total.value();
    assert(tv * 2_000_000_000 >= u && tv <= 0x20_0000_0000 * u) by (nonlinear_arith)
        requires
            tv * 1_000_000_000 * 0x100_0000 <= exact * u * (0x100_0000 + 6),
            tv * 1_000_000_000 * 0x100_0000 >= exact * u * (0x100_0000 - 6),
            1 <= exact < 0x1_0000_0000_0000_0000,
            u > 0,
    ;
    let kv = thousand.value();
    assert(tv * kv >= 0x80_0000 * u && tv * kv <= (0x1_0000_0000_0000_0000_0000 * u) * u)
        by (nonlinear_arith)
        requires
            tv * 2_000_000_000 >= u,
            tv <= 0x20_0000_0000 * u,
            kv == 1000 * u,
            u >= 0x1_0000_0000_0000_0000_0000_0000_0000,
    ;
    tolerance::product_is_about(total, thousand, exact, 1_000_000_000, 6, 1000, 1, 0);
    let res = single::product(total, thousand);
    tolerance::lemma_reduced(res, exact, 1_000_000, 1000, 8);
    assert(res.value() * 4_000_000 >= u && res.value() <= 0x4_0000_0000_0000 * u)
        by (nonlinear_arith)
        requires
            res.value() * 1_000_000 * 0x100_0000 <= exact * u * (0x100_0000 + 8),
            res.value() * 1_000_000 * 0x100_0000 >= exact * u * (0x100_0000 - 8),
            1 <= exact < 0x1_0000_0000_0000_0000,
            u > 0,
    ;
}

/// The expected number of transmissions is one divided by the product of both delivery
/// ratios, right up to four parts in two to the power of 24.
pub proof fn transmissions_are_right(forward: Single, reverse: Single)
    requires
        ratio::is_ratio(forward),
        ratio::is_ratio(reverse),
    ensures
        tolerance::is_about(
            ctp::link_etx(forward, reverse),
            (single::unit_count() * single::unit_count()) as int,
            forward.value() * reverse.value(),
            4,
        ),
        2 * ctp::link_etx(forward, reverse).value() >= single::unit_count(),
        ctp::link_etx(forward, reverse).value() <= 0x8000 * single::unit_count(),
{
    let u = single::unit_count() as int;
    let f = forward.value();
    let r = reverse.value();
    share::lemma_one();
    ratio::lemma_ratio_value(forward);
    ratio::lemma_ratio_value(reverse);
    reveal(ctp::link_etx);
    assert(ctp::bounded_delivery(forward) == forward);
    assert(ctp::bounded_delivery(reverse) == reverse);
    assert((u * u) <= (f * r) * 16384) by (nonlinear_arith)
        requires
            0 < f <= u,
            0 < r <= u,
            f * 128 >= u,
            r * 128 >= u,
            u > 0,
    ;
    transmissions::expected_number_is_right(forward, reverse, 16384);
}

/// The metric of a link is the time on air in milliseconds, divided by the product of both
/// delivery ratios, right up to one part in a million.
pub proof fn link_metric_is_right(neighbor: NeighborState)
    requires
        ratio::is_ratio(neighbor.forward_delivery),
        ratio::is_ratio(neighbor.reverse_delivery),
        neighbor.toa.nanos > 0,
    ensures
        ({
            let u = single::unit_count() as int;
            let f = neighbor.forward_delivery.value();
            let r = neighbor.reverse_delivery.value();
            let link = neighbor.as_parent().link_metric;
            &&& link.finite()
            &&& link.value() > 0
            &&& link.value() * 2_000_000 >= u
            &&& link.value() <= 0x1000_0000_0000_0000 * u
            &&& link.value() * ((f * r) * 1_000_000) * 0x100_0000 <= ((u * u) * neighbor.toa.nanos)
                * u * 0x100_0010
            &&& link.value() * ((f * r) * 1_000_000) * 0x100_0000 >= ((u * u) * neighbor.toa.nanos)
                * u * 0xff_fff0
        }),
{
    let u = single::unit_count() as int;
    let f = neighbor.forward_delivery.value();
    let r = neighbor.reverse_delivery.value();
    let g = f * r;
    let uu = u * u;
    let nanos = neighbor.toa.nanos as int;
    tolerance::lemma_unit_count();
    let etx = ctp::link_etx(neighbor.forward_delivery, neighbor.reverse_delivery);
    let millis = ctp::millis_of(neighbor.toa);
    transmissions_are_right(neighbor.forward_delivery, neighbor.reverse_delivery);
    millis_are_right(neighbor.toa);
    ratio::lemma_ratio_value(neighbor.forward_delivery);
    ratio::lemma_ratio_value(neighbor.reverse_delivery);
    assert(g > 0 && uu > 0) by (nonlinear_arith)
        requires
            g == f * r,
            f > 0,
            r > 0,
            uu == u * u,
            u > 0,
    ;
    let ev = etx.value();
    let mv = millis.value();
    assert(ev * mv >= 0x80_0000 * u && ev * mv <= (0x1_0000_0000_0000_0000_0000 * u) * u)
        by (nonlinear_arith)
        requires
            2 * ev >= u,
            ev <= 0x8000 * u,
            mv * 4_000_000 >= u,
            mv <= 0x4_0000_0000_0000 * u,
            u >= 0x1_0000_0000_0000_0000_0000_0000_0000,
    ;
    tolerance::product_is_about(etx, millis, uu, g, 4, nanos, 1_000_000, 8);
    let link = single::product(etx, millis);
    assert(uu * nanos >= 0) by (nonlinear_arith)
        requires
            uu > 0,
            nanos > 0,
    ;
    tolerance::lemma_more_parts(link, uu * nanos, g * 1_000_000, 14, 16);
    rounding::lemma_units_at_least(link.code());
    assert(uu <= 16384 * g && g <= uu) by (nonlinear_arith)
        requires
            g == f * r,
            uu == u * u,
            0 < f <= u,
            0 < r <= u,
            f * 128 >= u,
            r * 128 >= u,
            u > 0,
    ;
    lemma_link_bounds(link.value(), g, uu, nanos, u);
}

proof fn lemma_link_bounds(link: int, g: int, uu: int, nanos: int, u: int)
    requires
        link >= 0,
        u > 0,
        uu > 0,
        1 <= nanos < 0x1_0000_0000_0000_0000,
        uu <= 16384 * g,
        g <= uu,
        link * (g * 1_000_000) * 0x100_0000 <= (uu * nanos) * u * 0x100_0010,
        link * (g * 1_000_000) * 0x100_0000 >= (uu * nanos) * u * 0xff_fff0,
    ensures
        link * 2_000_000 >= u,
        link <= 0x1000_0000_0000_0000 * u,
{
    let lg = link * g;
    let nu = nanos * u;
    assert(link * (g * 1_000_000) == lg * 1_000_000) by (nonlinear_arith)
        requires
            lg == link * g,
    ;
    let unu = uu * nu;
    assert((uu * nanos) * u == unu) by (nonlinear_arith)
        requires
            unu == uu * nu,
            nu == nanos * u,
    ;
    let lu = link * uu;
    assert(lg <= lu && lu <= 16384 * lg) by (nonlinear_arith)
        requires
            lg == link * g,
            lu == link * uu,
            link >= 0,
            uu <= 16384 * g,
            g <= uu,
    ;
    assert(lu * 2_000_000 >= unu && lu * 1_000_000 <= 32768 * unu);
    assert(lu * 2_000_000 == uu * (link * 2_000_000) && lu * 1_000_000 == uu * (link * 1_000_000)
        && 32768 * unu == uu * (32768 * nu)) by (nonlinear_arith)
        requires
            lu == link * uu,
            unu == uu * nu,
    ;
    tolerance::lemma_cancel(uu, nu, link * 2_000_000);
    tolerance::lemma_cancel(uu, link * 1_000_000, 32768 * nu);
    assert(u <= nu && nu <= 0x1_0000_0000_0000_0000 * u) by (nonlinear_arith)
        requires
            nu == nanos * u,
            1 <= nanos < 0x1_0000_0000_0000_0000,
            u > 0,
    ;
}

/// The metric of a path is the metric that the neighbour announced plus the metric of the
/// link, as it is reported of a parent.
pub proof fn path_is_the_rest_and_the_link(neighbor: NeighborState)
    ensures
        neighbor.path_metric() == single::sum(
            neighbor.neighbor_metric,
            neighbor.as_parent().link_metric,
        ),
{
    reveal(NeighborState::path_metric);
}

/// Delivery ratios count between one hundredth and one: those outside count as the nearer
/// bound.
pub proof fn ratios_outside_count_as_the_bound(forward: Single, reverse: Single)
    requires
        !forward.nan(),
        !reverse.nan(),
    ensures
        ({
            let least = single::quotient(single::integer(1), single::integer(100));
            let one = single::integer(1);
            let f = if single::less(forward, least) {
                least
            } else if single::less(one, forward) {
                one
            } else {
                forward
            };
            let r = if single::less(reverse, least) {
                least
            } else if single::less(one, reverse) {
                one
            } else {
                reverse
            };
            &&& ratio::is_ratio(f)
            &&& ratio::is_ratio(r)
            &&& ctp::link_etx(forward, reverse) == ctp::link_etx(f, r)
        }),
{
    reveal(ctp::link_etx);
    ratio::bounded_number_is_a_ratio(forward);
    ratio::bounded_number_is_a_ratio(reverse);
}

/// Two links with the same time on air, compared.
proof fn lemma_cross(x: int, g: int, y: int, h: int, w: int)
    requires
        x >= 0,
        y >= 0,
        w > 0,
        x * (g * 1_000_000) * 0x100_0000 >= w * 0xff_fff0,
        y * (h * 1_000_000) * 0x100_0000 <= w * 0x100_0010,
    ensures
        (y * h) * 0xff_fff0 <= (x * g) * 0x100_0010,
{
    let xg = x * g;
    let yh = y * h;
    assert(x * (g * 1_000_000) == xg * 1_000_000) by (nonlinear_arith)
        requires
            xg == x * g,
    ;
    assert(y * (h * 1_000_000) == yh * 1_000_000) by (nonlinear_arith)
        requires
            yh == y * h,
    ;
}

proof fn lemma_chain(a: int, b: int, c: int)
    requires
        a * 1001 <= b * 1000,
        b * 0xff_fff0 <= c * 0x100_0010,
    ensures
        a * (1001 * 0xff_fff0) <= c * (1000 * 0x100_0010),
{
    assert(a * (1001 * 0xff_fff0) <= c * (1000 * 0x100_0010)) by (nonlinear_arith)
        requires
            a * 1001 <= b * 1000,
            b * 0xff_fff0 <= c * 0x100_0010,
    ;
}

/// A link on which a thousandth more arrives, forth and back together, has a smaller metric
/// if the time on air is the same. The path over it is shorter if the rest of both is
/// the same and not more than a thousand times as long as the link.
pub proof fn better_delivery_makes_the_path_shorter(worse: NeighborState, better: NeighborState)
    requires
        ratio::is_ratio(worse.forward_delivery),
        ratio::is_ratio(worse.reverse_delivery),
        ratio::is_ratio(better.forward_delivery),
        ratio::is_ratio(better.reverse_delivery),
        worse.toa == better.toa,
        worse.toa.nanos > 0,
        better.forward_delivery.value() * better.reverse_delivery.value() * 1000
            >= worse.forward_delivery.value() * worse.reverse_delivery.value() * 1001,
    ensures
        better.as_parent().link_metric.value() < worse.as_parent().link_metric.value(),
        worse.neighbor_metric == better.neighbor_metric && worse.neighbor_metric.finite() && 0
            <= worse.neighbor_metric.value() <= 1000 * worse.as_parent().link_metric.value()
            ==> single::less(better.path_metric(), worse.path_metric()),
{
    let u = single::unit_count() as int;
    tolerance::lemma_unit_count();
    link_metric_is_right(worse);
    link_metric_is_right(better);
    ratio::lemma_ratio_value(worse.forward_delivery);
    ratio::lemma_ratio_value(worse.reverse_delivery);
    let g = worse.forward_delivery.value() * worse.reverse_delivery.value();
    let h = better.forward_delivery.value() * better.reverse_delivery.value();
    let a = worse.as_parent().link_metric;
    let b = better.as_parent().link_metric;
    let x = a.value();
    let y = b.value();
    let nanos = worse.toa.nanos as int;
    let w = ((u * u) * nanos) * u;
    assert(g > 0 && w > 0) by (nonlinear_arith)
        requires
            g == worse.forward_delivery.value() * worse.reverse_delivery.value(),
            worse.forward_delivery.value() > 0,
            worse.reverse_delivery.value() > 0,
            w == ((u * u) * nanos) * u,
            u > 0,
            nanos > 0,
    ;
    lemma_cross(x, g, y, h, w);
    let yg = y * g;
    assert(yg * 1001 <= (y * h) * 1000) by (nonlinear_arith)
        requires
            yg == y * g,
            h * 1000 >= g * 1001,
            y >= 0,
    ;
    lemma_chain(yg, y * h, x * g);
    assert(g * (y * (1001 * 0xff_fff0)) <= g * (x * (1000 * 0x100_0010))) by (nonlinear_arith)
        requires
            yg * (1001 * 0xff_fff0) <= (x * g) * (1000 * 0x100_0010),
            yg == y * g,
    ;
    tolerance::lemma_cancel(g, y * (1001 * 0xff_fff0), x * (1000 * 0x100_0010));
    assert(x > 0);
    assert(y < x);
    let m = worse.neighbor_metric;
    if m == better.neighbor_metric && m.finite() && 0 <= m.value() <= 1000 * x {
        path_is_the_rest_and_the_link(worse);
        path_is_the_rest_and_the_link(better);
        lemma_sums_differ(m, a, b);
    }
}

/// Sums with the same number differ where what is added differs by a thousandth.
proof fn lemma_sums_differ(m: Single, a: Single, b: Single)
    requires
        m.finite(),
        a.finite(),
        b.finite(),
        0 <= m.value() <= 1000 * a.value(),
        b.value() < a.value() <= 0x1000_0000_0000_0000 * single::unit_count(),
        b.value() * 2_000_000 >= single::unit_count(),
        b.value() * (1001 * 0xff_fff0) <= a.value() * (1000 * 0x100_0010),
    ensures
        single::less(single::sum(m, b), single::sum(m, a)),
{
    let x = m.value() + a.value();
    let y = m.value() + b.value();
    tolerance::lemma_unit_count();
    let p = single::sum(m, a);
    let q = single::sum(m, b);
    tolerance::lemma_rounded_is_near(p, x as nat, 1);
    tolerance::lemma_rounded_is_near(q, y as nat, 1);
    order::lemma_sum_rank(m, a);
    order::lemma_sum_rank(m, b);
    order::lemma_rounded_rank_monotone(y, 1, x, 1);
    assert(y * 0x100_0001 < x * 0xff_ffff) by (nonlinear_arith)
        requires
            x == m.value() + a.value(),
            y == m.value() + b.value(),
            m.value() <= 1000 * a.value(),
            a.value() > 0,
            b.value() * (1001 * 0xff_fff0) <= a.value() * (1000 * 0x100_0010),
    ;
    assert(q.value() * 1 == q.value() && p.value() * 1 == p.value());
    assert(q.value() < p.value());
}

/// With all else equal, a neighbour that is reached a thousandth better has a link with a
/// smaller metric, and so has one that is heard a thousandth better. Neither makes the path
/// longer.
pub proof fn each_direction_counts(worse: NeighborState, delivery: Single)
    requires
        ratio::is_ratio(worse.forward_delivery),
        ratio::is_ratio(worse.reverse_delivery),
        ratio::is_ratio(delivery),
        worse.toa.nanos > 0,
        worse.neighbor_metric.finite(),
    ensures
        ({
            let better = NeighborState { forward_delivery: delivery, ..worse };
            delivery.value() * 1000 >= worse.forward_delivery.value() * 1001 ==> {
                &&& better.as_parent().link_metric.value() < worse.as_parent().link_metric.value()
                &&& single::at_most(better.path_metric(), worse.path_metric())
            }
        }),
        ({
            let better = NeighborState { reverse_delivery: delivery, ..worse };
            delivery.value() * 1000 >= worse.reverse_delivery.value() * 1001 ==> {
                &&& better.as_parent().link_metric.value() < worse.as_parent().link_metric.value()
                &&& single::at_most(better.path_metric(), worse.path_metric())
            }
        }),
{
    let f = worse.forward_delivery.value();
    let r = worse.reverse_delivery.value();
    let d = delivery.value();
    ratio::lemma_ratio_value(worse.forward_delivery);
    ratio::lemma_ratio_value(worse.reverse_delivery);
    ratio::lemma_ratio_value(delivery);
    link_metric_is_right(worse);
    if d * 1000 >= f * 1001 {
        let better = NeighborState { forward_delivery: delivery, ..worse };
        assert(d * r * 1000 >= f * r * 1001) by (nonlinear_arith)
            requires
                d * 1000 >= f * 1001,
                r > 0,
        ;
        better_delivery_makes_the_path_shorter(worse, better);
        link_metric_is_right(better);
        lemma_path_order(better, worse);
    }
    if d * 1000 >= r * 1001 {
        let better = NeighborState { reverse_delivery: delivery, ..worse };
        assert(f * d * 1000 >= f * r * 1001) by (nonlinear_arith)
            requires
                d * 1000 >= r * 1001,
                f > 0,
        ;
        better_delivery_makes_the_path_shorter(worse, better);
        link_metric_is_right(better);
        lemma_path_order(better, worse);
    }
}

proof fn lemma_path_order(a: NeighborState, b: NeighborState)
    requires
        a.neighbor_metric == b.neighbor_metric,
        a.neighbor_metric.finite(),
        a.as_parent().link_metric.finite(),
        b.as_parent().link_metric.finite(),
        a.as_parent().link_metric.value() < b.as_parent().link_metric.value(),
    ensures
        single::at_most(a.path_metric(), b.path_metric()),
{
    let m = a.neighbor_metric;
    let x = a.as_parent().link_metric;
    let y = b.as_parent().link_metric;
    path_is_the_rest_and_the_link(a);
    path_is_the_rest_and_the_link(b);
    order::lemma_sum_rank(m, x);
    order::lemma_sum_rank(m, y);
    order::lemma_rounded_rank_monotone(m.value() + x.value(), 1, m.value() + y.value(), 1);
}

/// With all else equal, a link that takes a thousandth longer has a larger metric.
pub proof fn slower_links_cost_more(slower: NeighborState, faster: NeighborState)
    requires
        ratio::is_ratio(slower.forward_delivery),
        ratio::is_ratio(slower.reverse_delivery),
        faster.forward_delivery == slower.forward_delivery,
        faster.reverse_delivery == slower.reverse_delivery,
        faster.toa.nanos > 0,
        slower.toa.nanos * 1000 >= faster.toa.nanos * 1001,
    ensures
        faster.as_parent().link_metric.value() < slower.as_parent().link_metric.value(),
{
    let u = single::unit_count() as int;
    tolerance::lemma_unit_count();
    link_metric_is_right(slower);
    link_metric_is_right(faster);
    let g = slower.forward_delivery.value() * slower.reverse_delivery.value();
    let uu = u * u;
    let long = slower.toa.nanos as int;
    let short = faster.toa.nanos as int;
    let x = slower.as_parent().link_metric.value();
    let y = faster.as_parent().link_metric.value();
    let a = x * (g * 1_000_000);
    let b = y * (g * 1_000_000);
    let w = (uu * long) * u;
    let z = (uu * short) * u;
    assert(w * 1000 >= z * 1001 && z > 0) by (nonlinear_arith)
        requires
            w == (uu * long) * u,
            z == (uu * short) * u,
            long * 1000 >= short * 1001,
            uu == u * u,
            u > 0,
            short > 0,
    ;
    assert(b < a) by (nonlinear_arith)
        requires
            w * 1000 >= z * 1001,
            z > 0,
            a * 0x100_0000 >= w * 0xff_fff0,
            b * 0x100_0000 <= z * 0x100_0010,
    ;
    ratio::lemma_ratio_value(slower.forward_delivery);
    ratio::lemma_ratio_value(slower.reverse_delivery);
    assert(g > 0) by (nonlinear_arith)
        requires
            g == slower.forward_delivery.value() * slower.reverse_delivery.value(),
            slower.forward_delivery.value() > 0,
            slower.reverse_delivery.value() > 0,
    ;
    if x <= y {
        tolerance::lemma_scaled(g * 1_000_000, x, y);
        assert((g * 1_000_000) * x == a && (g * 1_000_000) * y == b) by (nonlinear_arith)
            requires
                a == x * (g * 1_000_000),
                b == y * (g * 1_000_000),
        ;
    }
}

proof fn lemma_ratio_is_weight(x: Single)
    requires
        ratio::is_ratio(x),
    ensures
        average::is_weight(x),
{
    share::lemma_one();
    ratio::lemma_ratio_value(x);
}

/// The outcome of a transmission moves the forward delivery by the weight: to the old value
/// times what the weight leaves of one, plus the weight after a success, within five parts in
/// two to the power of 24, and then into the range from one hundredth to one. A weight
/// outside of that range counts as the nearer bound.
pub proof fn outcome_moves_the_delivery(
    neighbor: NeighborState,
    ewma_alpha: Single,
    plan: TxPlan,
    success: bool,
) -> (x: Single)
    requires
        ratio::is_ratio(neighbor.forward_delivery),
        !ewma_alpha.nan(),
    ensures
        ({
            let u = single::unit_count() as int;
            let least = single::quotient(single::integer(1), single::integer(100));
            let one = single::integer(1);
            let alpha = if single::less(ewma_alpha, least) {
                least.value()
            } else if single::less(one, ewma_alpha) {
                u
            } else {
                ewma_alpha.value()
            };
            let part = if success {
                alpha * u
            } else {
                0
            };
            let exact = (u - alpha) * neighbor.forward_delivery.value() + part;
            &&& tolerance::is_about(x, exact, u * u, 5)
            &&& neighbor.sampled(ewma_alpha, plan, success).forward_delivery == if single::less(
                x,
                least,
            ) {
                least
            } else if single::less(one, x) {
                one
            } else {
                x
            }
        }),
{
    let u = single::unit_count() as int;
    share::lemma_one();
    let alpha = ctp::bounded_delivery(ewma_alpha);
    ratio::bounded_number_is_a_ratio(ewma_alpha);
    lemma_ratio_is_weight(alpha);
    lemma_ratio_is_weight(neighbor.forward_delivery);
    average::average_moves_by_the_weight(alpha, neighbor.forward_delivery, success);
    let new = if success {
        single::integer(1)
    } else {
        single::integer(0)
    };
    let x = single::sum(
        single::product(single::difference(ctp::one(), alpha), neighbor.forward_delivery),
        single::product(alpha, new),
    );
    let least = single::quotient(single::integer(1), single::integer(100));
    let weight = if single::less(ewma_alpha, least) {
        least.value()
    } else if single::less(single::integer(1), ewma_alpha) {
        u
    } else {
        ewma_alpha.value()
    };
    assert(weight == alpha.value());
    x
}

} // verus!
