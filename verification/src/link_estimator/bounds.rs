//! The averages of a link estimator stay between zero and one.
use crate::airtime::LoraPhy;
use crate::link_estimator;
use crate::link_estimator::EwmaEntry;
use crate::order;
use crate::rounding::INFINITE;
use crate::share;
use crate::single;
use crate::single::Single;
use vstd::prelude::*;

verus! {

/// Whether both averages lie between zero and one.
pub open spec fn in_bounds(entry: EwmaEntry) -> bool {
    share::is_share(entry.prr_in) && share::is_share(entry.prr_out)
}

/// With a weight between zero and one, the averages start between zero and one and
/// stay there, although every step is rounded.
pub proof fn averages_stay_in_bounds(entry: EwmaEntry, alpha: Single, ok: bool)
    requires
        share::is_share(alpha),
        in_bounds(entry),
    ensures
        in_bounds(link_estimator::fresh_entry()),
        in_bounds(entry.after_tx(alpha)),
        in_bounds(entry.after_ack(alpha, ok)),
{
    share::lemma_one();
    share::rest_is_a_share(alpha);
    let rest = single::difference(share::one(), alpha);
    share::share_of_a_share(rest, entry.prr_out);
    share::share_of_a_share(entry.prr_out, rest);
    share::raised_share_is_a_share(alpha, entry.prr_out);
    share::raised_share_is_a_share(alpha, entry.prr_in);
}

/// A lost frame never raises the average of the frames that went out.
pub proof fn loss_never_raises_the_average(entry: EwmaEntry, alpha: Single)
    requires
        share::is_share(alpha),
        in_bounds(entry),
    ensures
        single::at_most(entry.after_tx(alpha).prr_out, entry.prr_out),
        single::at_most(entry.after_ack(alpha, false).prr_out, entry.prr_out),
{
    share::lemma_one();
    share::rest_is_a_share(alpha);
    let rest = single::difference(share::one(), alpha);
    share::share_of_a_share(rest, entry.prr_out);
    share::share_of_a_share(entry.prr_out, rest);
}

/// The ratios of a snapshot lie between the configured minimum and one, and a
/// frame takes at least one transmission.
pub proof fn snapshot_is_in_bounds(
    entry: EwmaEntry,
    min_prr: Single,
    payload_len: usize,
    phy: LoraPhy,
)
    requires
        in_bounds(entry),
        share::is_share(min_prr),
    ensures
        ({
            let stats = entry.stats(min_prr, payload_len, phy);
            &&& single::at_most(min_prr, stats.prr_in) && single::at_most(
                stats.prr_in,
                share::one(),
            )
            &&& single::at_most(min_prr, stats.prr_out) && single::at_most(
                stats.prr_out,
                share::one(),
            )
            &&& single::at_most(share::one(), stats.etx)
        }),
{
    let a = single::larger(entry.prr_in, min_prr);
    let b = single::larger(entry.prr_out, min_prr);
    share::lemma_one();
    share::share_of_a_share(a, b);
    let p = single::product(a, b);
    share::lemma_share_value(p);
    let u = single::unit_count() as int;
    order::lemma_pack(p.negative(), INFINITE as nat);
    if p.rank() > 0 {
        order::lemma_quotient_rank(share::one(), p);
        let d = p.value() as nat;
        assert(u * d <= (u * u) * 1) by (nonlinear_arith)
            requires
                d <= u,
                u > 0,
        ;
        order::lemma_rounded_rank_monotone(u, 1, u * u, d);
    }
}

} // verus!
