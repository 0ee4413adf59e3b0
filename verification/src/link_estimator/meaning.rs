//! What the figures of a link mean.
use crate::airtime;
use crate::airtime::formula;
use crate::airtime::precision;
use crate::airtime::AirtimeKey;
use crate::airtime::LoraPhy;
use crate::average;
use crate::exact;
use crate::link_estimator;
use crate::link_estimator::EwmaEntry;
use crate::order;
use crate::share;
use crate::single;
use crate::single::Single;
use crate::tolerance;
use crate::transmissions;
use vstd::prelude::*;

verus! {

/// Each frame that goes out and each acknowledgement is counted once, up to the largest
/// counter; the other counter stays. A neighbour of which nothing is known counts as
/// perfect.
pub proof fn events_are_counted(entry: EwmaEntry, alpha: Single, ok: bool)
    ensures
        entry.after_tx(alpha).ack_total == entry.ack_total,
        entry.after_ack(alpha, ok).tx_total == entry.tx_total,
        entry.tx_total < u32::MAX ==> entry.after_tx(alpha).tx_total == entry.tx_total + 1,
        entry.ack_total < u32::MAX ==> entry.after_ack(alpha, ok).ack_total == entry.ack_total + 1,
        entry.tx_total == u32::MAX ==> entry.after_tx(alpha).tx_total == u32::MAX,
        entry.ack_total == u32::MAX ==> entry.after_ack(alpha, ok).ack_total == u32::MAX,
        link_estimator::fresh_entry().tx_total == 0,
        link_estimator::fresh_entry().ack_total == 0,
        link_estimator::fresh_entry().prr_in.value() == single::unit_count(),
        link_estimator::fresh_entry().prr_out.value() == single::unit_count(),
{
    share::lemma_one();
}

/// A frame that goes out, and one that is not acknowledged, lower the average of the way out
/// by the weight. An acknowledgement raises both averages by the weight. What is not
/// named here stays.
pub proof fn averages_move_by_the_weight(entry: EwmaEntry, alpha: Single)
    requires
        average::is_weight(alpha),
        average::is_weight(entry.prr_in),
        average::is_weight(entry.prr_out),
    ensures
        ({
            let u = single::unit_count() as int;
            let a = alpha.value();
            let i = entry.prr_in.value();
            let o = entry.prr_out.value();
            &&& tolerance::is_about(entry.after_tx(alpha).prr_out, (u - a) * o, u * u, 3)
            &&& tolerance::is_about(entry.after_ack(alpha, false).prr_out, (u - a) * o, u * u, 3)
            &&& tolerance::is_about(
                entry.after_ack(alpha, true).prr_out,
                (u - a) * o + a * u,
                u * u,
                5,
            )
            &&& tolerance::is_about(
                entry.after_ack(alpha, true).prr_in,
                (u - a) * i + a * u,
                u * u,
                5,
            )
            &&& entry.after_tx(alpha).prr_in == entry.prr_in
            &&& entry.after_ack(alpha, false).prr_in == entry.prr_in
        }),
{
    average::average_keeps_all_but_the_weight(alpha, entry.prr_out);
    average::average_moves_by_the_weight(alpha, entry.prr_out, true);
    average::average_moves_by_the_weight(alpha, entry.prr_in, true);
    order::product_commutes(
        entry.prr_out,
        single::difference(single::integer(1), alpha),
    );
}

/// An acknowledgement leaves a higher average than its absence.
pub proof fn acknowledged_frames_raise_the_average(entry: EwmaEntry, alpha: Single)
    requires
        average::is_weight(alpha),
        average::is_weight(entry.prr_in),
        average::is_weight(entry.prr_out),
    ensures
        entry.after_ack(alpha, false).prr_out.value() < entry.after_ack(
            alpha,
            true,
        ).prr_out.value(),
{
    let u = single::unit_count() as int;
    let a = alpha.value();
    let o = entry.prr_out.value();
    tolerance::lemma_unit_count();
    averages_move_by_the_weight(entry, alpha);
    share::lemma_one();
    share::lemma_share_value(entry.prr_out);
    share::lemma_share_value(alpha);
    let x = entry.after_ack(alpha, false).prr_out.value();
    let y = entry.after_ack(alpha, true).prr_out.value();
    let uu = u * u;
    let kept = (u - a) * o;
    let part = a * u;
    let k = kept * u;
    let p = part * u;
    assert(k >= 0 && p * 0x10_0000 >= uu * u && k <= uu * u && uu > 0 && uu * u > 0) by (nonlinear_arith)
        requires
            k == ((u - a) * o) * u,
            p == (a * u) * u,
            uu == u * u,
            a * 0x10_0000 >= u,
            0 <= a <= u,
            0 <= o <= u,
            u > 0,
    ;
    assert((kept + part) * u == k + p) by (nonlinear_arith)
        requires
            k == kept * u,
            p == part * u,
    ;
    let xu = x * uu;
    let yu = y * uu;
    assert(xu < yu) by (nonlinear_arith)
        requires
            xu * 0x100_0000 <= k * (0x100_0000 + 3),
            yu * 0x100_0000 >= (k + p) * (0x100_0000 - 5),
            k >= 0,
            k <= uu * u,
            p * 0x10_0000 >= uu * u,
            uu * u > 0,
    ;
    if y <= x {
        tolerance::lemma_scaled(uu, y, x);
        assert(uu * y == yu && uu * x == xu) by (nonlinear_arith)
            requires
                xu == x * uu,
                yu == y * uu,
        ;
    }
}

/// The ratios of a snapshot are the averages, or the configured minimum where that is
/// larger.
pub proof fn snapshot_shows_the_averages(
    entry: EwmaEntry,
    min_prr: Single,
    payload_len: usize,
    phy: LoraPhy,
)
    requires
        !entry.prr_in.nan(),
        !entry.prr_out.nan(),
    ensures
        ({
            let stats = entry.stats(min_prr, payload_len, phy);
            &&& single::less(entry.prr_in, min_prr) ==> stats.prr_in == min_prr
            &&& !single::less(entry.prr_in, min_prr) ==> stats.prr_in == entry.prr_in
            &&& single::less(entry.prr_out, min_prr) ==> stats.prr_out == min_prr
            &&& !single::less(entry.prr_out, min_prr) ==> stats.prr_out == entry.prr_out
        }),
{
}

/// The time on air of a snapshot is that of the profile at the payload length that was asked
/// for: it never shrinks with the payload, and up to four seconds it is the formula's, to
/// the microsecond. The expected airtime is the expected number of transmissions times that
/// time in seconds.
pub proof fn snapshot_takes_the_time_of_the_payload(
    entry: EwmaEntry,
    min_prr: Single,
    payload_len: usize,
    longer: usize,
    phy: LoraPhy,
)
    requires
        payload_len <= longer,
    ensures
        ({
            let stats = entry.stats(min_prr, payload_len, phy);
            let key = AirtimeKey { phy, payload_len };
            &&& stats.toa_us == airtime::airtime_us(key)
            &&& stats.atx == single::product(
                stats.etx,
                single::quotient(
                    single::integer(stats.toa_us as nat),
                    single::integer(1_000_000),
                ),
            )
            &&& stats.toa_us <= entry.stats(min_prr, longer, phy).toa_us
            &&& payload_len <= 1023 && 0 < phy.sf <= 12 && 0 < phy.bw_hz < exact::LIMIT
                && precision::formula_us(key) <= 4_000_000 ==> precision::formula_us(key) - 1
                <= stats.toa_us <= precision::formula_us(key) + 1
        }),
{
    let key = AirtimeKey { phy, payload_len };
    assert(0 <= airtime::airtime_us(key) <= u32::MAX && 0 <= airtime::airtime_us(
        AirtimeKey { phy, payload_len: longer },
    ) <= u32::MAX) by {
        reveal(airtime::airtime_us);
    }
    formula::airtime_grows_with_the_payload(phy, payload_len, longer);
    if payload_len <= 1023 && 0 < phy.sf <= 12 && 0 < phy.bw_hz < exact::LIMIT
        && precision::formula_us(key) <= 4_000_000 {
        precision::airtime_is_right_to_the_microsecond(key);
    }
}

/// The expected number of transmissions is one divided by the product of both ratios, and
/// the expected airtime is that number times the time on air in seconds, right up to nine
/// parts in two to the power of 24.
pub proof fn snapshot_is_right(
    entry: EwmaEntry,
    min_prr: Single,
    payload_len: usize,
    phy: LoraPhy,
)
    requires
        share::is_share(entry.prr_in),
        share::is_share(entry.prr_out),
        average::is_weight(min_prr),
    ensures
        ({
            let u = single::unit_count() as int;
            let stats = entry.stats(min_prr, payload_len, phy);
            let g = stats.prr_in.value() * stats.prr_out.value();
            &&& tolerance::is_about(stats.etx, u * u, g, 4)
            &&& stats.toa_us > 0 ==> tolerance::is_about(
                stats.atx,
                (u * u) * stats.toa_us,
                g * 1_000_000,
                9,
            )
        }),
{
    let u = single::unit_count() as int;
    let uu = u * u;
    let stats = entry.stats(min_prr, payload_len, phy);
    let a = stats.prr_in;
    let b = stats.prr_out;
    let us = airtime::airtime_us(AirtimeKey { phy, payload_len });
    assert(0 <= us <= u32::MAX) by {
        reveal(airtime::airtime_us);
    }
    share::lemma_one();
    tolerance::lemma_unit_count();
    lemma_floor(entry.prr_in, min_prr);
    lemma_floor(entry.prr_out, min_prr);
    share::lemma_share_value(a);
    share::lemma_share_value(b);
    let f = a.value();
    let r = b.value();
    let g = f * r;
    assert(g * 0x100_0000_0000 >= uu && g > 0) by (nonlinear_arith)
        requires
            g == f * r,
            uu == u * u,
            f * 0x10_0000 >= u,
            r * 0x10_0000 >= u,
            u > 0,
    ;
    transmissions::expected_number_is_right(a, b, 0x100_0000_0000);
    if us > 0 {
        let count = single::integer(us as nat);
        let million = single::integer(1_000_000);
        tolerance::integer_is_about(us as nat);
        tolerance::integer_is_about(1_000_000);
        let cv = count.value();
        let mv = million.value();
        assert(cv <= 0x2_0000_0000 * u) by (nonlinear_arith)
            requires
                cv <= 2 * us * u,
                us <= u32::MAX,
                u > 0,
        ;
        assert(cv * u >= 0x80_0000 * mv && cv * u <= (0x1_0000_0000_0000_0000_0000 * u) * mv)
            by (nonlinear_arith)
            requires
                u <= cv <= 0x2_0000_0000 * u,
                mv == 1_000_000 * u,
                u >= 0x1_0000_0000_0000_0000_0000_0000_0000,
        ;
        tolerance::quotient_is_about(count, million, us, 1, 1, 1_000_000, 1, 0);
        let seconds = single::quotient(count, million);
        assert(us * 1 == us && 1 * 1_000_000int == 1_000_000);
        let sv = seconds.value();
        assert(sv * 2_000_000 >= u && sv <= 0x4000 * u) by (nonlinear_arith)
            requires
                sv * 1_000_000 * 0x100_0000 <= us * u * (0x100_0000 + 3),
                sv * 1_000_000 * 0x100_0000 >= us * u * (0x100_0000 - 3),
                1 <= us <= u32::MAX,
                u > 0,
        ;
        let ev = stats.etx.value();
        assert(ev * sv >= 0x80_0000 * u && ev * sv <= (0x1_0000_0000_0000_0000_0000 * u) * u)
            by (nonlinear_arith)
            requires
                2 * ev >= u,
                ev <= 2 * 0x100_0000_0000 * u,
                sv * 2_000_000 >= u,
                sv <= 0x4000 * u,
                u >= 0x1_0000_0000_0000_0000_0000_0000_0000,
        ;
        assert(uu > 0) by (nonlinear_arith)
            requires
                uu == u * u,
                u > 0,
        ;
        tolerance::product_is_about(stats.etx, seconds, uu, g, 4, us, 1_000_000, 3);
    }
}

/// A ratio that is not below a weight is a weight.
proof fn lemma_floor(prr: Single, min_prr: Single)
    requires
        share::is_share(prr),
        average::is_weight(min_prr),
    ensures
        average::is_weight(single::larger(prr, min_prr)),
{
    if !single::less(prr, min_prr) {
        single::rank_orders_values(min_prr, prr);
    }
}

} // verus!
