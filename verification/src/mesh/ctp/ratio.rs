//! Delivery ratios stay between one hundredth and one, and a link costs at least
//! one transmission.
use crate::exact;
use crate::mesh::ctp;
use crate::mesh::ctp::tree;
use crate::mesh::ctp::NeighborState;
use crate::mesh::ctp::RoutingView;
use crate::mesh::scheduler::TxPlan;
use crate::order;
use crate::packets::RoutingBeaconPayload;
use crate::packets::RoutingNeighborEntry;
use crate::rounding;
use crate::share;
use crate::single;
use crate::single::Single;
use crate::time::Duration;
use crate::time::Instant;
use vstd::arithmetic::power2::*;
use vstd::prelude::*;

verus! {

/// Whether a number is a delivery ratio.
pub open spec fn is_ratio(x: Single) -> bool {
    single::at_most(ctp::min_delivery(), x) && single::at_most(x, ctp::one())
}

/// Two to the power of `-k`, as a code and in units.
proof fn lemma_power(k: nat) -> (code: nat)
    requires
        k <= 100,
    ensures
        code == (127 - k) * 0x80_0000,
        rounding::units(code) * pow2(k) == single::unit_count(),
        rounding::units(code) == pow2((149 - k) as nat),
        rounding::nearest(rounding::units(code), 1) == code,
{
    let code = ((127 - k) * 0x80_0000) as nat;
    lemma2_to64();
    rounding::lemma_units_shift(0x80_0000, (126 - k) as nat);
    lemma_pow2_adds(23, (126 - k) as nat);
    lemma_pow2_adds((149 - k) as nat, k);
    assert((126 - k) * 0x80_0000 + 0x80_0000 == code);
    rounding::lemma_nearest_of_units(code);
    code
}

proof fn lemma_min_delivery()
    ensures
        single::at_most(ctp::min_delivery(), ctp::one()),
        ctp::min_delivery().finite(),
        ctp::min_delivery().rank() >= 120 * 0x80_0000,
        is_ratio(ctp::one_half()),
{
    let u = single::unit_count() as int;
    share::lemma_one();
    exact::whole_integer(2);
    exact::whole_integer(100);
    order::lemma_quotient_rank(single::integer(1), single::integer(100));
    order::lemma_quotient_rank(single::integer(1), single::integer(2));
    let hundred = single::integer(100).value() as nat;
    let two = single::integer(2).value() as nat;
    assert((u * u) * 1 <= u * hundred) by (nonlinear_arith)
        requires
            hundred == 100 * u,
            u > 0,
    ;
    assert((u * u) * 1 <= u * two) by (nonlinear_arith)
        requires
            two == 2 * u,
            u > 0,
    ;
    assert((u * u) * two <= (u * u) * hundred) by (nonlinear_arith)
        requires
            two == 2 * u,
            hundred == 100 * u,
            u > 0,
    ;
    order::lemma_rounded_rank_monotone(u * u, hundred, u, 1);
    order::lemma_rounded_rank_monotone(u * u, two, u, 1);
    order::lemma_rounded_rank_monotone(u * u, hundred, u * u, two);
    let code = lemma_power(7);
    let small = rounding::units(code) as int;
    lemma2_to64();
    assert(small * hundred <= (u * u) * 1) by (nonlinear_arith)
        requires
            small * 128 == u,
            hundred == 100 * u,
            u > 0,
    ;
    order::lemma_rounded_rank_monotone(small, 1, u * u, hundred);
}

/// A number that is moved into the range is a delivery ratio.
pub proof fn bounded_number_is_a_ratio(x: Single)
    requires
        !x.nan(),
    ensures
        is_ratio(ctp::bounded_delivery(x)),
{
    lemma_min_delivery();
    share::lemma_one();
}

/// A delivery ratio lies between one part in 128 and one.
pub proof fn lemma_ratio_value(x: Single)
    requires
        is_ratio(x),
    ensures
        x.finite(),
        x.rank() > 0,
        x.value() <= single::unit_count(),
        x.value() * 128 >= single::unit_count(),
{
    share::lemma_one();
    lemma_min_delivery();
    let code = lemma_power(7);
    lemma2_to64();
    single::rank_orders_values(x, ctp::one());
    if x.code() > code {
        rounding::lemma_units_increase(code, x.code());
    }
}

/// An average of delivery ratios is a delivery ratio, whatever its weight.
pub proof fn sampled_delivery_is_a_ratio(neighbor: NeighborState, ewma_alpha: Single, success: bool)
    requires
        is_ratio(neighbor.forward_delivery),
        !ewma_alpha.nan(),
    ensures
        is_ratio(neighbor.sampled_delivery(ewma_alpha, success)),
{
    let alpha = ctp::bounded_delivery(ewma_alpha);
    let sample = if success {
        single::integer(1)
    } else {
        single::integer(0)
    };
    share::lemma_one();
    bounded_number_is_a_ratio(ewma_alpha);
    lemma_ratio_value(alpha);
    lemma_ratio_value(neighbor.forward_delivery);
    share::rest_is_a_share(alpha);
    let rest = single::difference(ctp::one(), alpha);
    share::share_of_a_share(rest, neighbor.forward_delivery);
    share::share_of_a_share(alpha, sample);
    let kept = single::product(rest, neighbor.forward_delivery);
    let new = single::product(alpha, sample);
    order::lemma_sum_rank(kept, new);
    bounded_number_is_a_ratio(single::sum(kept, new));
}

/// The delivery ratios of all neighbours are ratios.
pub open spec fn ratios_in_range(state: RoutingView) -> bool {
    forall|i: int|
        0 <= i < state.neighbors.len() ==> is_ratio((#[trigger] state.neighbors[i]).forward_delivery)
            && is_ratio(state.neighbors[i].reverse_delivery)
}

proof fn lemma_ratios_recomputed(state: RoutingView, now: Instant)
    requires
        ratios_in_range(state),
    ensures
        ratios_in_range(state.recomputed(now)),
        ratios_in_range(state.refreshed(now)),
{
    let after = state.recomputed(now);
    assert forall|i: int| 0 <= i < after.neighbors.len() implies is_ratio(
        (#[trigger] after.neighbors[i]).forward_delivery,
    ) && is_ratio(after.neighbors[i].reverse_delivery) by {
        tree::lemma_recomputed_neighbors(state, now, i);
        let k = choose|k: int|
            0 <= k < state.neighbors.len() && state.neighbors[k] == after.neighbors[i];
        assert(is_ratio(state.neighbors[k].forward_delivery));
    }
}

proof fn lemma_first_entry(entries: Seq<RoutingNeighborEntry>, id: [u8; 4])
    requires
        forall|i: int| 0 <= i < entries.len() ==> !(#[trigger] entries[i]).delivery.nan(),
    ensures
        ctp::first_entry(entries, id) matches Some(item) ==> !item.delivery.nan(),
    decreases entries.len(),
{
    if entries.len() > 0 && entries[0].neighbor_id != id {
        let rest = entries.drop_first();
        assert forall|i: int| 0 <= i < rest.len() implies !(#[trigger] rest[i]).delivery.nan() by {
            assert(rest[i] == entries[i + 1]);
        }
        lemma_first_entry(rest, id);
    }
}

/// With a weight that is a number, and beacons that report numbers, every delivery
/// ratio stays between one hundredth and one.
pub proof fn ratios_stay_in_range(
    state: RoutingView,
    id: [u8; 4],
    beacon: RoutingBeaconPayload,
    plan: TxPlan,
    success: bool,
    now: Instant,
)
    requires
        ratios_in_range(state),
        !state.config.ewma_alpha.nan(),
        forall|i: int|
            0 <= i < beacon.neighbors@.len() ==> !(#[trigger] beacon.neighbors@[i]).delivery.nan(),
    ensures
        ratios_in_range(state.refreshed(now)),
        ratios_in_range(state.after_beacon(id, beacon, now)),
        ratios_in_range(state.attempted(id, plan)),
        ratios_in_range(state.sampled(id, plan, success).refreshed(now)),
{
    lemma_min_delivery();
    lemma_ratios_recomputed(state, now);
    lemma_first_entry(beacon.neighbors@, state.relay_id);
    let noted = state.noted(id, beacon, now);
    if let Some(item) = ctp::first_entry(beacon.neighbors@, state.relay_id) {
        bounded_number_is_a_ratio(item.delivery);
    }
    assert forall|i: int| 0 <= i < noted.neighbors.len() implies is_ratio(
        (#[trigger] noted.neighbors[i]).forward_delivery,
    ) && is_ratio(noted.neighbors[i].reverse_delivery) by {
        if i < state.neighbors.len() {
            assert(is_ratio(state.neighbors[i].forward_delivery));
        }
    }
    lemma_ratios_recomputed(noted, now);
    let attempted = state.attempted(id, plan);
    assert forall|i: int| 0 <= i < attempted.neighbors.len() implies is_ratio(
        (#[trigger] attempted.neighbors[i]).forward_delivery,
    ) && is_ratio(attempted.neighbors[i].reverse_delivery) by {
        assert(is_ratio(state.neighbors[i].forward_delivery));
    }
    let sampled = state.sampled(id, plan, success);
    assert forall|i: int| 0 <= i < sampled.neighbors.len() implies is_ratio(
        (#[trigger] sampled.neighbors[i]).forward_delivery,
    ) && is_ratio(sampled.neighbors[i].reverse_delivery) by {
        assert(is_ratio(state.neighbors[i].forward_delivery));
        sampled_delivery_is_a_ratio(state.neighbors[i], state.config.ewma_alpha, success);
    }
    lemma_ratios_recomputed(sampled, now);
}

/// A frame takes at least one transmission, and never infinitely many.
pub proof fn a_frame_takes_at_least_one_transmission(forward: Single, reverse: Single)
    requires
        !forward.nan(),
        !reverse.nan(),
    ensures
        single::at_most(ctp::one(), ctp::link_etx(forward, reverse)),
        ctp::link_etx(forward, reverse).finite(),
{
    reveal(ctp::link_etx);
    let u = single::unit_count() as int;
    let f = ctp::bounded_delivery(forward);
    let r = ctp::bounded_delivery(reverse);
    share::lemma_one();
    lemma2_to64();
    bounded_number_is_a_ratio(forward);
    bounded_number_is_a_ratio(reverse);
    lemma_ratio_value(f);
    lemma_ratio_value(r);
    share::share_of_a_share(f, r);
    let p = single::product(f, r);
    share::lemma_share_value(p);
    order::lemma_product_rank(f, r);
    let code = lemma_power(14);
    let least = rounding::units(code) as int;
    let v = f.value() * r.value();
    assert(least * u <= v * 1) by (nonlinear_arith)
        requires
            least * 16384 == u,
            f.value() * 128 >= u,
            r.value() * 128 >= u,
            v == f.value() * r.value(),
            u > 0,
            f.value() > 0,
            r.value() > 0,
    {
        assert((f.value() * 128) * (r.value() * 128) >= u * u) by (nonlinear_arith)
            requires
                f.value() * 128 >= u,
                r.value() * 128 >= u,
                u > 0,
        ;
    }
    order::lemma_rounded_rank_monotone(least, 1, v, u as nat);
    assert(p.rank() >= code);
    if p.code() > code {
        rounding::lemma_units_increase(code, p.code());
    }
    order::lemma_quotient_rank(ctp::one(), p);
    let d = p.value() as nat;
    assert(u * d <= (u * u) * 1) by (nonlinear_arith)
        requires
            d <= u,
            u > 0,
    ;
    order::lemma_rounded_rank_monotone(u, 1, u * u, d);
    exact::lemma_rounded_whole(false, 16384);
    assert((u * u) * 1 <= (16384 * u) * d) by (nonlinear_arith)
        requires
            d >= least,
            least * 16384 == u,
            u > 0,
    ;
    order::lemma_rounded_rank_monotone(u * u, d, 16384 * u, 1);
}

/// A duration is not negative, in milliseconds either.
proof fn lemma_millis(d: Duration)
    ensures
        !ctp::millis_of(d).nan(),
        ctp::millis_of(d).rank() >= 0,
{
    reveal(ctp::millis_of);
    let seconds = single::integer((d.nanos / 1_000_000_000) as nat);
    let below = single::integer((d.nanos % 1_000_000_000) as nat);
    let billion = single::integer(1_000_000_000);
    let thousand = single::integer(1000);
    share::lemma_one();
    exact::whole_integer(1000);
    exact::whole_integer(0);
    order::integers_keep_order(0, (d.nanos / 1_000_000_000) as nat);
    order::integers_keep_order(0, (d.nanos % 1_000_000_000) as nat);
    order::integers_keep_order((d.nanos % 1_000_000_000) as nat, 1_000_000_000);
    order::integers_keep_order(1, 1_000_000_000);
    order::lemma_quotient_is_a_number(below, billion);
    order::lemma_quotient_is_a_number(single::integer(0), billion);
    let rest = single::quotient(below, billion);
    order::quotient_keeps_order(single::integer(0), below, billion);
    order::lemma_quotient_rank(single::integer(0), billion);
    order::lemma_magnitude_of_zero(billion.value() as nat);
    assert(single::integer(0).value() * single::unit_count() == 0) by {
        assert(0 * single::unit_count() == 0);
    }
    assert(rest.rank() >= 0);
    // A fraction of a billion is at most one.
    order::lemma_quotient_rank(below, billion);
    single::rank_orders_values(below, billion);
    let u = single::unit_count() as int;
    let b = billion.value() as nat;
    assert((below.value() * u) * 1 <= u * b) by (nonlinear_arith)
        requires
            below.value() <= b,
            u > 0,
    ;
    order::lemma_rounded_rank_monotone(below.value() * u, b, u, 1);
    assert(rest.finite());
    order::sum_keeps_order(single::integer(0), rest, seconds);
    order::sum_commutes(rest, seconds);
    order::lemma_sum_rank(single::integer(0), seconds);
    rounding::lemma_units_at_least(seconds.code());
    order::lemma_rounded_rank_monotone(0, 1, single::integer(0).value() + seconds.value(), 1);
    order::lemma_magnitude_of_zero(1);
    let total = single::sum(seconds, rest);
    order::lemma_product_is_a_number(total, thousand);
    order::product_keeps_order(total, total, thousand);
}

/// Every hop makes a path longer: the metric of a path is no smaller than that of
/// the neighbour that it leads through.
pub proof fn path_is_no_shorter_than_its_rest(neighbor: NeighborState)
    requires
        !neighbor.forward_delivery.nan(),
        !neighbor.reverse_delivery.nan(),
        !neighbor.neighbor_metric.nan(),
        neighbor.neighbor_metric.rank() >= 0,
    ensures
        single::at_most(neighbor.neighbor_metric, neighbor.path_metric()),
{
    reveal(NeighborState::path_metric);
    let metric = neighbor.neighbor_metric;
    let etx = ctp::link_etx(neighbor.forward_delivery, neighbor.reverse_delivery);
    let millis = ctp::millis_of(neighbor.toa);
    let link = neighbor.link_metric();
    share::lemma_one();
    a_frame_takes_at_least_one_transmission(neighbor.forward_delivery, neighbor.reverse_delivery);
    lemma_millis(neighbor.toa);
    order::product_commutes(etx, millis);
    order::lemma_product_is_a_number(millis, etx);
    order::product_keeps_order(millis, millis, etx);
    assert(link.rank() >= 0 && !link.nan());
    if metric.finite() {
        let zero = single::integer(0);
        exact::whole_integer(0);
        order::sum_keeps_order(zero, link, metric);
        order::sum_commutes(link, metric);
        order::lemma_sum_rank(zero, metric);
        assert(0 * single::unit_count() == 0);
        rounding::lemma_units_at_least(metric.code());
        rounding::lemma_nearest_of_units(metric.code());
    }
}

} // verus!
