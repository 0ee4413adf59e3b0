//! What every node keeps, whatever beacons come in and whatever is sent.
use crate::config::CtpConfig;
use crate::config::MeshConfig;
use crate::exact;
use crate::mesh::ctp;
use crate::mesh::ctp::table;
use crate::mesh::ctp::BeaconEvent;
use crate::mesh::ctp::NeighborState;
use crate::mesh::ctp::RoutingDecision;
use crate::mesh::ctp::RoutingView;
use crate::mesh::ctp::TrickleState;
use crate::mesh::ctp::MAX_SF;
use crate::mesh::ctp::MIN_SF;
use crate::mesh::scheduler::TxPlan;
use crate::order;
use crate::packets::RoutingBeaconPayload;
use crate::share;
use crate::single;
use crate::single::Single;
use crate::time::Instant;
use vstd::arithmetic::power2::*;
use vstd::prelude::*;

verus! {

/// The neighbour that is chosen is the best one: no other path is shorter, and of
/// equally short ones it is the first. None is chosen only where no path is
/// shorter than infinity.
pub proof fn best_neighbor_is_best(neighbors: Seq<NeighborState>)
    ensures
        match ctp::best_neighbor(neighbors) {
            Some(best) => {
                &&& single::less(best.path_metric(), ctp::infinity())
                &&& forall|i: int|
                    0 <= i < neighbors.len() ==> !single::less(
                        (#[trigger] neighbors[i]).path_metric(),
                        best.path_metric(),
                    )
                &&& exists|k: int|
                    0 <= k < neighbors.len() && #[trigger] neighbors[k] == best && forall|i: int|
                        0 <= i < k ==> !single::at_most(
                            (#[trigger] neighbors[i]).path_metric(),
                            best.path_metric(),
                        )
            },
            None => forall|i: int|
                0 <= i < neighbors.len() ==> !single::less(
                    (#[trigger] neighbors[i]).path_metric(),
                    ctp::infinity(),
                ),
        },
    decreases neighbors.len(),
{
    if neighbors.len() > 0 {
        let front = neighbors.drop_last();
        let last = neighbors.last();
        best_neighbor_is_best(front);
        assert forall|i: int| 0 <= i < neighbors.len() - 1 implies #[trigger] neighbors[i]
            == front[i] by {
        }
        let best = ctp::best_neighbor(front);
        if single::less(last.path_metric(), ctp::best_metric(best)) {
            assert(neighbors[neighbors.len() - 1] == last);
        } else if best is Some {
            let k = choose|k: int|
                0 <= k < front.len() && #[trigger] front[k] == best->0 && forall|i: int|
                    0 <= i < k ==> !single::at_most(
                        (#[trigger] front[i]).path_metric(),
                        best->0.path_metric(),
                    );
            assert(neighbors[k] == best->0);
        }
    }
}

/// What a filter keeps was there, and is what it lets through.
pub proof fn lemma_filter_kept(
    neighbors: Seq<NeighborState>,
    keep: spec_fn(NeighborState) -> bool,
    i: int,
)
    requires
        0 <= i < neighbors.filter(keep).len(),
    ensures
        keep(neighbors.filter(keep)[i]),
        neighbors.contains(neighbors.filter(keep)[i]),
    decreases neighbors.len(),
{
    reveal(Seq::filter);
    if neighbors.len() > 0 {
        let front = neighbors.drop_last();
        if i < front.filter(keep).len() {
            lemma_filter_kept(front, keep, i);
            let k = choose|k: int| 0 <= k < front.len() && front[k] == front.filter(keep)[i];
            assert(neighbors[k] == front.filter(keep)[i]);
        } else {
            assert(neighbors[neighbors.len() - 1] == neighbors.last());
        }
    }
}

/// The parent is a neighbour that was heard recently enough; a relay without such
/// a neighbour that knows a way has no parent and an infinite metric.
pub proof fn parent_is_a_live_neighbor(state: RoutingView, now: Instant)
    requires
        !state.border_gateway,
    ensures
        match state.recomputed(now).parent {
            Some(parent) => exists|i: int|
                0 <= i < state.neighbors.len() && (#[trigger] state.neighbors[i]).as_parent()
                    == parent && !state.neighbors[i].expired(
                    now,
                    state.config.neighbor_expiration,
                ) && state.neighbors[i].path_metric() == state.recomputed(now).path_metric,
            None => state.recomputed(now).path_metric == ctp::infinity(),
        },
{
    let keep = |n: NeighborState| !n.expired(now, state.config.neighbor_expiration);
    let live = ctp::alive(state.neighbors, now, state.config.neighbor_expiration);
    best_neighbor_is_best(live);
    match ctp::best_neighbor(live) {
        Some(best) => {
            let k = choose|k: int| 0 <= k < live.len() && #[trigger] live[k] == best;
            lemma_filter_kept(state.neighbors, keep, k);
            let i = choose|i: int| 0 <= i < state.neighbors.len() && state.neighbors[i] == best;
            assert(state.neighbors[i].as_parent() == best.as_parent());
        },
        None => {},
    }
}

/// The root of the tree: a border gateway has no parent and nothing to climb.
pub open spec fn rooted(state: RoutingView) -> bool {
    state.border_gateway ==> state.parent is None && state.path_metric == single::integer(0)
}

/// A border gateway stays the root whatever happens.
pub proof fn border_gateway_stays_the_root(
    state: RoutingView,
    conf: MeshConfig,
    id: [u8; 4],
    beacon: RoutingBeaconPayload,
    plan: TxPlan,
    success: bool,
    now: Instant,
)
    requires
        rooted(state),
    ensures
        rooted(RoutingView::initial(id, conf.border_gateway, conf)),
        rooted(state.recomputed(now)),
        rooted(state.refreshed(now)),
        rooted(state.after_beacon(id, beacon, now)),
        rooted(state.attempted(id, plan)),
        rooted(state.sampled(id, plan, success).refreshed(now)),
        rooted(state.restarted()),
        rooted(state.pulling()),
{
}

impl TrickleState {
    /// The interval lies within its bounds.
    pub open spec fn in_bounds(self) -> bool {
        self.min_interval.nanos <= self.current_interval.nanos <= self.max_interval.nanos
    }

    /// The timer after so many beacons with nothing new.
    pub open spec fn relaxed_often(self, times: nat) -> TrickleState
        decreases times,
    {
        if times == 0 {
            self
        } else {
            self.relaxed_often((times - 1) as nat).relaxed()
        }
    }
}

/// The interval between beacons stays within its bounds.
pub proof fn interval_stays_in_bounds(timer: TrickleState, conf: CtpConfig)
    requires
        timer.in_bounds(),
        conf.beacon_min_interval.nanos <= conf.beacon_max_interval.nanos,
    ensures
        TrickleState::initial(conf).in_bounds(),
        timer.restarted().in_bounds(),
        timer.relaxed().in_bounds(),
        timer.pulling().in_bounds(),
{
}

/// While nothing changes, the interval doubles with each beacon until it reaches
/// its maximum.
pub proof fn interval_doubles(timer: TrickleState, times: nat)
    requires
        timer.in_bounds(),
    ensures
        timer.relaxed_often(times).current_interval.nanos == if timer.current_interval.nanos * pow2(
            times,
        ) > timer.max_interval.nanos {
            timer.max_interval.nanos as int
        } else {
            timer.current_interval.nanos * pow2(times)
        },
        timer.relaxed_often(times).max_interval == timer.max_interval,
        timer.relaxed_often(times).min_interval == timer.min_interval,
    decreases times,
{
    let first = timer.current_interval.nanos as int;
    if times == 0 {
        assert(pow2(0) == 1) by {
            lemma2_to64();
        }
        assert(first * 1 == first);
    } else {
        interval_doubles(timer, (times - 1) as nat);
        lemma_pow2_unfold(times);
        let p = pow2((times - 1) as nat) as int;
        assert(first * (2 * p) == 2 * (first * p)) by (nonlinear_arith);
    }
}

/// A change of the route is announced at once, and the next ones follow at the
/// shortest interval.
pub proof fn change_restarts_the_timer(state: RoutingView, now: Instant)
    requires
        state.parent_update(now).resets(),
    ensures
        state.refreshed(now).trickle.force_immediate,
        state.refreshed(now).trickle.current_interval == state.trickle.min_interval,
{
}

/// A request for beacons is answered at once.
pub proof fn pull_is_answered_at_once(
    state: RoutingView,
    id: [u8; 4],
    beacon: RoutingBeaconPayload,
    now: Instant,
)
    requires
        beacon.pull,
    ensures
        state.after_beacon(id, beacon, now).trickle.force_immediate,
{
}

/// The spreading factors are those of the mesh.
pub open spec fn rates_in_range(state: RoutingView) -> bool {
    forall|i: int|
        0 <= i < state.neighbors.len() ==> MIN_SF <= (#[trigger] state.neighbors[i]).sf <= MAX_SF
}

pub proof fn lemma_recomputed_neighbors(state: RoutingView, now: Instant, i: int)
    requires
        0 <= i < state.recomputed(now).neighbors.len(),
    ensures
        state.neighbors.contains(state.recomputed(now).neighbors[i]),
{
    if !state.border_gateway {
        lemma_filter_kept(
            state.neighbors,
            |n: NeighborState| !n.expired(now, state.config.neighbor_expiration),
            i,
        );
    }
}

proof fn lemma_rates_recomputed(state: RoutingView, now: Instant)
    requires
        rates_in_range(state),
    ensures
        rates_in_range(state.recomputed(now)),
        rates_in_range(state.refreshed(now)),
{
    let after = state.recomputed(now);
    assert forall|i: int| 0 <= i < after.neighbors.len() implies MIN_SF <= (
    #[trigger] after.neighbors[i]).sf <= MAX_SF by {
        lemma_recomputed_neighbors(state, now, i);
        let k = choose|k: int|
            0 <= k < state.neighbors.len() && state.neighbors[k] == after.neighbors[i];
        assert(state.neighbors[k].sf == after.neighbors[i].sf);
    }
}

/// No beacon and no transmission brings a spreading factor out of range.
pub proof fn rates_stay_in_range(
    state: RoutingView,
    id: [u8; 4],
    beacon: RoutingBeaconPayload,
    plan: TxPlan,
    success: bool,
    now: Instant,
)
    requires
        rates_in_range(state),
    ensures
        rates_in_range(state.refreshed(now)),
        rates_in_range(state.after_beacon(id, beacon, now)),
        rates_in_range(state.attempted(id, plan)),
        rates_in_range(state.sampled(id, plan, success).refreshed(now)),
{
    lemma_rates_recomputed(state, now);
    let noted = state.noted(id, beacon, now);
    assert forall|i: int| 0 <= i < noted.neighbors.len() implies MIN_SF <= (
    #[trigger] noted.neighbors[i]).sf <= MAX_SF by {
        if i < state.neighbors.len() {
            assert(MIN_SF <= state.neighbors[i].sf <= MAX_SF);
        }
    }
    lemma_rates_recomputed(noted, now);
    let sampled = state.sampled(id, plan, success);
    assert forall|i: int| 0 <= i < sampled.neighbors.len() implies MIN_SF <= (
    #[trigger] sampled.neighbors[i]).sf <= MAX_SF by {
        assert(MIN_SF <= state.neighbors[i].sf <= MAX_SF);
    }
    lemma_rates_recomputed(sampled, now);
    let attempted = state.attempted(id, plan);
    assert forall|i: int| 0 <= i < attempted.neighbors.len() implies MIN_SF <= (
    #[trigger] attempted.neighbors[i]).sf <= MAX_SF by {
        assert(MIN_SF <= state.neighbors[i].sf <= MAX_SF);
    }
}

/// A failure never makes a link faster and a success never makes it slower, and
/// either changes the spreading factor by one step at most.
pub proof fn rate_follows_success(
    neighbor: NeighborState,
    ewma_alpha: Single,
    plan: TxPlan,
    success: bool,
)
    ensures
        ({
            let used = ctp::bounded_sf(plan.data_rate.spreading_factor);
            let next = neighbor.sampled(ewma_alpha, plan, success).sf;
            if success {
                used - 1 <= next <= used
            } else {
                used <= next <= used + 1
            }
        }),
{
}

/// A larger spreading factor takes longer.
pub proof fn slower_rates_take_longer(a: u8, b: u8)
    requires
        MIN_SF <= a < b <= MAX_SF,
    ensures
        ctp::toa_of_sf(a).nanos < ctp::toa_of_sf(b).nanos,
{
}

/// Sending a beacon settles what was asked for: no beacon is due at once any more, and
/// the next one does not ask for beacons. The bounds of the interval stay.
pub proof fn beacon_settles_the_requests(timer: TrickleState)
    ensures
        !timer.relaxed().pending_pull,
        !timer.relaxed().force_immediate,
        timer.relaxed().min_interval == timer.min_interval,
        timer.relaxed().max_interval == timer.max_interval,
{
}

/// One step of the beacon loop, as its contract tells of it: what comes in, whether a
/// beacon goes out, whether that beacon asks for beacons, and the timer after it.
pub open spec fn steps(
    before: TrickleState,
    event: BeaconEvent,
    sent: bool,
    pull: bool,
    after: TrickleState,
) -> bool {
    if sent {
        &&& event == BeaconEvent::Elapsed || before.force_immediate
        &&& pull == before.pending_pull
        &&& after == before.relaxed()
    } else {
        &&& event == BeaconEvent::Round
        &&& !before.force_immediate
        &&& after == before
    }
}

/// Of two beacons in a row only the first asks for beacons, and once a beacon went out
/// the loop waits: coming round again without a request sends nothing.
pub proof fn one_request_gives_one_pull(
    first: TrickleState,
    event: BeaconEvent,
    pull: bool,
    second: TrickleState,
    next_event: BeaconEvent,
    sent: bool,
    next_pull: bool,
    third: TrickleState,
)
    requires
        steps(first, event, true, pull, second),
        steps(second, next_event, sent, next_pull, third),
    ensures
        sent ==> !next_pull,
        sent <==> next_event == BeaconEvent::Elapsed,
        !third.pending_pull,
        !third.force_immediate,
{
}

/// A request for beacons makes the next step of the loop send one at once, and that
/// beacon asks the neighbours, whatever the loop waited for. Restarting the timer does
/// not forget the request.
pub proof fn request_makes_the_next_beacon_pull(
    timer: TrickleState,
    event: BeaconEvent,
    sent: bool,
    pull: bool,
    after: TrickleState,
)
    requires
        steps(timer.pulling(), event, sent, pull, after) || steps(
            timer.pulling().restarted(),
            event,
            sent,
            pull,
            after,
        ),
    ensures
        sent,
        pull,
        timer.pulling().current_interval == timer.current_interval,
        timer.pulling().restarted().current_interval == timer.min_interval,
{
}

/// A restarted timer sends a beacon at once and begins with the shortest interval. It
/// asks for beacons only where that was asked for before.
pub proof fn restart_sends_a_beacon_at_once(
    timer: TrickleState,
    event: BeaconEvent,
    sent: bool,
    pull: bool,
    after: TrickleState,
)
    requires
        timer.in_bounds(),
        steps(timer.restarted(), event, sent, pull, after),
    ensures
        sent,
        pull == timer.pending_pull,
        timer.restarted().current_interval == timer.min_interval,
        after.current_interval.nanos <= 2 * timer.min_interval.nanos,
        after.current_interval.nanos >= timer.min_interval.nanos,
{
}

/// A relay starts with the shortest interval, a beacon that is due at once and no
/// neighbour, parent or way; a border gateway starts as the root.
pub proof fn node_starts_without_a_way(id: [u8; 4], border_gateway: bool, conf: MeshConfig)
    ensures
        ({
            let start = RoutingView::initial(id, border_gateway, conf);
            &&& start.relay_id == id
            &&& start.border_gateway == border_gateway
            &&& start.config == conf.ctp
            &&& start.base_rate == conf.data_rate
            &&& start.neighbors.len() == 0
            &&& start.parent is None
            &&& start.path_metric.finite() == border_gateway
            &&& border_gateway ==> start.path_metric.value() == 0
            &&& start.trickle.current_interval == conf.ctp.beacon_min_interval
            &&& start.trickle.min_interval == conf.ctp.beacon_min_interval
            &&& start.trickle.max_interval == conf.ctp.beacon_max_interval
            &&& start.trickle.force_immediate
            &&& !start.trickle.pending_pull
        }),
{
    exact::whole_integer(0);
    assert(0 * single::unit_count() == 0);
    order::lemma_pack(false, crate::rounding::INFINITE as nat);
}

/// A beacon restarts the timer where it asks for beacons, and else only where it
/// changes the route; whether it was restarted is what is reported.
pub proof fn beacon_restarts_the_timer(
    state: RoutingView,
    id: [u8; 4],
    beacon: RoutingBeaconPayload,
    now: Instant,
)
    ensures
        ({
            let after = state.after_beacon(id, beacon, now);
            let update = state.noted(id, beacon, now).parent_update(now);
            let resets = beacon.pull || update.changed || update.improved;
            &&& state.beacon_resets(id, beacon, now) == resets
            &&& resets ==> after.trickle.force_immediate && after.trickle.current_interval
                == state.trickle.min_interval
            &&& !resets ==> after.trickle == state.trickle
            &&& after.trickle.pending_pull == state.trickle.pending_pull
        }),
{
}

/// The route has changed where another neighbour, or none, is the parent now. It has
/// improved where the metric before, divided by the metric now, reaches the configured
/// ratio. A relay whose parent stays and whose metric grows has nothing to announce, if
/// the ratio is above one.
pub proof fn update_tells_what_changed(state: RoutingView, now: Instant)
    ensures
        ({
            let after = state.recomputed(now);
            let update = state.parent_update(now);
            let same = match (state.parent, after.parent) {
                (Some(a), Some(b)) => a.parent == b.parent,
                (None, None) => true,
                _ => false,
            };
            &&& state.border_gateway ==> !update.changed && !update.improved
            &&& !state.border_gateway && !same ==> update.changed
            &&& update.changed && same ==> state.parent is Some && exists|i: int|
                0 <= i < state.neighbors.len() && (#[trigger] state.neighbors[i]).id
                    == state.parent->0.parent && now.nanos - state.neighbors[i].last_seen.nanos
                    > state.config.neighbor_expiration.nanos
            &&& !state.border_gateway ==> (update.improved <==> {
                &&& state.path_metric.finite()
                &&& after.path_metric.finite()
                &&& single::at_most(
                    state.config.cost_improvement_reset,
                    single::quotient(state.path_metric, after.path_metric),
                )
            })
        }),
{
}

/// The route that is offered is the parent: the neighbour's own identifier, data rate,
/// time on air and forward delivery. Its path metric is the metric that the neighbour
/// announced plus the metric of the link, as both are reported.
pub proof fn decision_describes_the_parent(state: RoutingView, now: Instant)
    requires
        !state.border_gateway,
    ensures
        match state.recomputed(now).decision() {
            Some(d) => exists|i: int|
                0 <= i < state.neighbors.len() && {
                    let n = #[trigger] state.neighbors[i];
                    &&& n.id == d.parent
                    &&& now.nanos - n.last_seen.nanos <= state.config.neighbor_expiration.nanos
                    &&& n.sf == d.data_rate.spreading_factor
                    &&& n.toa == d.toa
                    &&& n.forward_delivery == d.forward_delivery
                    &&& d.link_etx == ctp::link_etx(n.forward_delivery, n.reverse_delivery)
                    &&& d.link_metric == single::product(d.link_etx, ctp::millis_of(n.toa))
                    &&& d.path_metric == single::sum(n.neighbor_metric, d.link_metric)
                },
            None => state.recomputed(now).path_metric == ctp::infinity() && forall|i: int|
                0 <= i < state.neighbors.len() && now.nanos - (
                #[trigger] state.neighbors[i]).last_seen.nanos
                    <= state.config.neighbor_expiration.nanos ==> !single::less(
                    state.neighbors[i].path_metric(),
                    ctp::infinity(),
                ),
        },
        state.recomputed(now).decision() is Some <==> state.recomputed(now).parent is Some,
{
    reveal(NeighborState::path_metric);
    parent_is_a_live_neighbor(state, now);
    let after = state.recomputed(now);
    best_neighbor_is_best(after.neighbors);
    match after.parent {
        Some(p) => {
            let i = choose|i: int|
                0 <= i < state.neighbors.len() && (#[trigger] state.neighbors[i]).as_parent() == p
                    && !state.neighbors[i].expired(now, state.config.neighbor_expiration)
                    && state.neighbors[i].path_metric() == after.path_metric;
            assert(state.neighbors[i].id == p.parent);
        },
        None => {
            assert forall|i: int|
                0 <= i < state.neighbors.len() && now.nanos - (
                #[trigger] state.neighbors[i]).last_seen.nanos
                    <= state.config.neighbor_expiration.nanos implies !single::less(
                state.neighbors[i].path_metric(),
                ctp::infinity(),
            ) by {
                table::lemma_recomputed_keeps(state, now, i);
                let k = choose|k: int|
                    0 <= k < after.neighbors.len() && after.neighbors[k] == state.neighbors[i];
                assert(!single::less(after.neighbors[k].path_metric(), ctp::infinity()));
            }
        },
    }
}

/// No neighbour that was heard within the expiration time offers a shorter path than
/// the one that is taken.
pub proof fn no_live_neighbor_is_nearer(state: RoutingView, now: Instant, i: int)
    requires
        !state.border_gateway,
        0 <= i < state.neighbors.len(),
        now.nanos - state.neighbors[i].last_seen.nanos <= state.config.neighbor_expiration.nanos,
    ensures
        ({
            let n = state.neighbors[i];
            let link = single::product(
                ctp::link_etx(n.forward_delivery, n.reverse_delivery),
                ctp::millis_of(n.toa),
            );
            !single::less(
                single::sum(n.neighbor_metric, link),
                state.recomputed(now).path_metric,
            )
        }),
{
    reveal(NeighborState::path_metric);
    let after = state.recomputed(now);
    best_neighbor_is_best(after.neighbors);
    table::lemma_recomputed_keeps(state, now, i);
    let k = choose|k: int|
        0 <= k < after.neighbors.len() && after.neighbors[k] == state.neighbors[i];
    assert(after.neighbors[k].path_metric() == state.neighbors[i].path_metric());
}

/// The route that is announced with an uplink is the decision: its parent, both its
/// metrics, and its time on air in milliseconds, of which the low 16 bits are sent.
pub proof fn announced_route_is_the_decision(decision: RoutingDecision)
    ensures
        ({
            let info = ctp::route_info(decision);
            &&& info.parent == Some(decision.parent)
            &&& info.path_metric == decision.path_metric
            &&& info.link_metric == decision.link_metric
            &&& info.link_toa_ms == (decision.toa.nanos / 1_000_000) % 0x1_0000
            &&& decision.toa.nanos < 65_536_000_000 ==> info.link_toa_ms * 1_000_000
                <= decision.toa.nanos < (info.link_toa_ms + 1) * 1_000_000
        }),
{
}

/// A child contradicts this relay only where the child's metric, and one more, is
/// smaller than the relay's own: a child that is as far away or farther never does.
pub proof fn farther_child_is_consistent(state: RoutingView, child_metric: Single)
    requires
        child_metric.finite(),
        state.inconsistent(child_metric),
    ensures
        state.path_metric.finite(),
        child_metric.value() + single::unit_count() < state.path_metric.value(),
{
    share::lemma_one();
    let total = single::sum(child_metric, ctp::one());
    order::lemma_sum_rank(child_metric, ctp::one());
    let v = child_metric.value() + single::unit_count();
    let p = state.path_metric;
    if v >= p.value() {
        order::lemma_rounded_rank_monotone(p.value(), 1, v, 1);
        order::lemma_rank_of_value(p);
    }
}

/// A look at the neighbours that changes nothing to speak of leaves the timer alone; one that
/// does restarts it and touches nothing else.
pub proof fn quiet_routes_keep_the_timer(state: RoutingView, now: Instant)
    ensures
        ({
            let after = state.refreshed(now);
            let chosen = state.recomputed(now);
            let update = state.parent_update(now);
            &&& after.neighbors == chosen.neighbors
            &&& after.parent == chosen.parent
            &&& after.path_metric == chosen.path_metric
            &&& after.trickle.pending_pull == state.trickle.pending_pull
            &&& !update.changed && !update.improved ==> after.trickle == state.trickle
            &&& update.changed || update.improved ==> after.trickle.force_immediate
                && after.trickle.current_interval == state.trickle.min_interval
        }),
{
}

/// Choosing the parent anew at the same time changes nothing more: the second look finds what
/// the first one left.
pub proof fn second_look_finds_the_same(state: RoutingView, now: Instant)
    ensures
        state.recomputed(now).recomputed(now) == state.recomputed(now),
        !state.recomputed(now).parent_update(now).changed,
{
    let after = state.recomputed(now);
    if !state.border_gateway {
        let keep = |n: NeighborState| !n.expired(now, state.config.neighbor_expiration);
        assert forall|i: int| 0 <= i < after.neighbors.len() implies keep(
            #[trigger] after.neighbors[i],
        ) by {
            lemma_filter_kept(state.neighbors, keep, i);
        }
        lemma_filter_of_all(after.neighbors, keep);
        assert(after.recomputed(now).neighbors =~= after.neighbors);
        if after.parent_expired(now) {
            let i = choose|i: int|
                0 <= i < after.neighbors.len() && (#[trigger] after.neighbors[i]).id
                    == after.parent->0.parent && after.neighbors[i].expired(
                    now,
                    state.config.neighbor_expiration,
                );
            assert(keep(after.neighbors[i]));
        }
    }
}

proof fn lemma_filter_of_all(
    neighbors: Seq<NeighborState>,
    keep: spec_fn(NeighborState) -> bool,
)
    requires
        forall|i: int| 0 <= i < neighbors.len() ==> keep(#[trigger] neighbors[i]),
    ensures
        neighbors.filter(keep) == neighbors,
    decreases neighbors.len(),
{
    reveal(Seq::filter);
    if neighbors.len() > 0 {
        let front = neighbors.drop_last();
        assert forall|i: int| 0 <= i < front.len() implies keep(#[trigger] front[i]) by {
            assert(front[i] == neighbors[i]);
        }
        lemma_filter_of_all(front, keep);
        assert(keep(neighbors[neighbors.len() - 1]));
        assert(neighbors.filter(keep) =~= neighbors);
    } else {
        assert(neighbors.filter(keep) =~= neighbors);
    }
}

/// A child contradicts this relay where the child is more than one nearer to the root, in
/// whole numbers that single precision holds. A relay without a way contradicts nobody.
pub proof fn nearer_child_is_inconsistent(state: RoutingView, child: int, own: int)
    requires
        0 <= child < 0xff_ffff,
        0 <= own < 0x100_0000,
        exact::is_whole(state.path_metric, own),
    ensures
        state.inconsistent(single::integer(child as nat)) <==> child + 1 < own,
        forall|metric: Single| #[trigger]
            (RoutingView { path_metric: ctp::infinity(), ..state }).inconsistent(metric) == false,
{
    let a = single::integer(child as nat);
    exact::whole_integer(child as nat);
    exact::whole_integer(1);
    exact::whole_sum(a, child, ctp::one(), 1);
    let total = single::sum(a, ctp::one());
    order::lemma_pack(false, crate::rounding::INFINITE as nat);
    let u = single::unit_count() as int;
    share::lemma_one();
    assert(child + 1 < own <==> (child + 1) * u < own * u) by (nonlinear_arith)
        requires
            u > 0,
    ;
    single::rank_orders_values(total, state.path_metric);
}

} // verus!
