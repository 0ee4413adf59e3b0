//! The collection tree protocol: which neighbour leads to a border gateway, and
//! when to tell the others.
use crate::config::CtpConfig;
use crate::config::DataRate;
use crate::config::MeshConfig;
use crate::mesh::scheduler::TxPlan;
use crate::packets;
use crate::packets::RouteInfo;
use crate::packets::RoutingBeaconPayload;
use crate::packets::RoutingNeighborEntry;
use crate::relay::same_optional_relay;
use crate::relay::same_relay;
use crate::single;
use crate::single::Single;
use crate::time::Duration;
use crate::time::Instant;
use vstd::prelude::*;

pub mod metric;
pub mod ratio;
pub mod table;
pub mod tree;

verus! {

pub const MIN_SF: u8 = 7;

pub const MAX_SF: u8 = 12;

/// Where an uplink goes next.
#[derive(Debug, Clone, Copy, PartialEq, Eq)]
pub struct RoutingDecision {
    pub parent: [u8; 4],
    pub data_rate: DataRate,
    pub toa: Duration,
    pub path_metric: Single,
    pub link_metric: Single,
    pub forward_delivery: Single,
    pub link_etx: Single,
}

impl RoutingDecision {
    pub fn plan(&self) -> (plan: TxPlan)
        ensures
            plan == (TxPlan { data_rate: self.data_rate, toa: self.toa }),
    {
        TxPlan { data_rate: self.data_rate, toa: self.toa }
    }
}

#[derive(Debug, Clone, Copy, PartialEq, Eq)]
pub struct NeighborState {
    pub id: [u8; 4],
    pub last_seen: Instant,
    pub neighbor_metric: Single,
    pub parent: Option<[u8; 4]>,
    pub reverse_delivery: Single,
    pub forward_delivery: Single,
    pub sf: u8,
    pub toa: Duration,
}

#[derive(Debug, Clone, Copy, PartialEq, Eq)]
pub struct ParentInfo {
    pub parent: [u8; 4],
    pub data_rate: DataRate,
    pub toa: Duration,
    pub link_metric: Single,
    pub link_etx: Single,
    pub forward_delivery: Single,
}

/// The timer of the beacons.
#[derive(Debug, Clone, Copy, PartialEq, Eq, Structural)]
pub struct TrickleState {
    pub current_interval: Duration,
    pub min_interval: Duration,
    pub max_interval: Duration,
    pub force_immediate: bool,
    pub pending_pull: bool,
}

impl TrickleState {
    /// The timer before the first beacon.
    pub open spec fn initial(conf: CtpConfig) -> TrickleState {
        TrickleState {
            current_interval: conf.beacon_min_interval,
            min_interval: conf.beacon_min_interval,
            max_interval: conf.beacon_max_interval,
            force_immediate: true,
            pending_pull: false,
        }
    }

    pub open spec fn restarted(self) -> TrickleState {
        TrickleState { current_interval: self.min_interval, force_immediate: true, ..self }
    }

    /// The timer after a beacon: the interval doubles up to its maximum.
    pub open spec fn relaxed(self) -> TrickleState {
        TrickleState {
            current_interval: if 2 * self.current_interval.nanos > self.max_interval.nanos {
                self.max_interval
            } else {
                Duration { nanos: (2 * self.current_interval.nanos) as u64 }
            },
            force_immediate: false,
            pending_pull: false,
            ..self
        }
    }

    /// The timer when the neighbours are to be asked for beacons.
    pub open spec fn pulling(self) -> TrickleState {
        TrickleState { pending_pull: true, force_immediate: true, ..self }
    }

    pub fn new(conf: &CtpConfig) -> (res: Self)
        ensures
            res == TrickleState::initial(*conf),
    {
        TrickleState {
            current_interval: conf.beacon_min_interval,
            min_interval: conf.beacon_min_interval,
            max_interval: conf.beacon_max_interval,
            force_immediate: true,
            pending_pull: false,
        }
    }

    pub fn reset(&mut self)
        ensures
            *final(self) == old(self).restarted(),
    {
        self.current_interval = self.min_interval;
        self.force_immediate = true;
    }

    pub fn after_send(&mut self)
        ensures
            *final(self) == old(self).relaxed(),
            !final(self).pending_pull,
            !final(self).force_immediate,
    {
        let next: u64 = self.current_interval.nanos.saturating_add(self.current_interval.nanos);
        self.current_interval = if next > self.max_interval.nanos {
            self.max_interval
        } else {
            Duration { nanos: next }
        };
        self.force_immediate = false;
        self.pending_pull = false;
    }
}

/// What a new look at the neighbours has changed.
#[derive(Debug, Clone, Copy, PartialEq, Eq, Structural)]
pub struct ParentUpdate {
    pub changed: bool,
    pub improved: bool,
}

impl ParentUpdate {
    pub open spec fn resets(self) -> bool {
        self.changed || self.improved
    }

    pub fn none() -> (res: Self)
        ensures
            res == (ParentUpdate { changed: false, improved: false }),
    {
        ParentUpdate { changed: false, improved: false }
    }

    /// Whether the neighbours are to hear of it at once.
    pub fn should_reset(&self) -> (res: bool)
        ensures
            res == self.resets(),
    {
        self.changed || self.improved
    }
}

pub open spec fn one() -> Single {
    single::integer(1)
}

/// The smallest delivery ratio that counts: one hundredth.
pub open spec fn min_delivery() -> Single {
    single::quotient(single::integer(1), single::integer(100))
}

/// The delivery ratio from which on a faster data rate is tried: 95 hundredths.
pub open spec fn good_delivery() -> Single {
    single::quotient(single::integer(19), single::integer(20))
}

pub open spec fn one_half() -> Single {
    single::quotient(single::integer(1), single::integer(2))
}

pub open spec fn infinity() -> Single {
    single::pack(false, crate::rounding::INFINITE as nat)
}

fn infinite_metric() -> (res: Single)
    ensures
        res == infinity(),
{
    Single { bits: crate::rounding::INFINITE }
}

/// A delivery ratio within its bounds.
pub open spec fn bounded_delivery(x: Single) -> Single {
    single::clamped(x, min_delivery(), one())
}

fn bound_delivery(x: Single) -> (res: Single)
    ensures
        res == bounded_delivery(x),
{
    let one = Single::from_integer(1);
    x.clamp(one.over(Single::from_integer(100)), one)
}

/// A spreading factor within the range of the mesh.
pub open spec fn bounded_sf(sf: u8) -> u8 {
    if sf < MIN_SF {
        MIN_SF
    } else if sf > MAX_SF {
        MAX_SF
    } else {
        sf
    }
}

fn bound_sf(sf: u8) -> (res: u8)
    ensures
        res == bounded_sf(sf),
{
    if sf < MIN_SF {
        MIN_SF
    } else if sf > MAX_SF {
        MAX_SF
    } else {
        sf
    }
}

/// The time that a beacon takes at a spreading factor, in milliseconds.
pub open spec fn toa_table(sf: u8) -> int {
    if sf <= 7 {
        13
    } else if sf == 8 {
        21
    } else if sf == 9 {
        44
    } else if sf == 10 {
        82
    } else if sf == 11 {
        152
    } else {
        304
    }
}

pub open spec fn toa_of_sf(sf: u8) -> Duration {
    Duration { nanos: (toa_table(sf) * 1_000_000) as u64 }
}

pub fn toa_for_sf(sf: u8) -> (toa: Duration)
    ensures
        toa == toa_of_sf(sf),
{
    let ms: u64 = match bound_sf(sf) {
        7 => 13,
        8 => 21,
        9 => 44,
        10 => 82,
        11 => 152,
        _ => 304,
    };
    Duration::from_millis(ms)
}

/// A duration in milliseconds: whole seconds and the rest are converted apart.
#[verifier::opaque]
pub open spec fn millis_of(d: Duration) -> Single {
    let seconds = single::integer((d.nanos / 1_000_000_000) as nat);
    let rest = single::quotient(
        single::integer((d.nanos % 1_000_000_000) as nat),
        single::integer(1_000_000_000),
    );
    single::product(single::sum(seconds, rest), single::integer(1000))
}

pub fn toa_ms(duration: Duration) -> (res: Single)
    ensures
        res == millis_of(duration),
{
    proof {
        reveal(millis_of);
    }
    let seconds = Single::from_integer(duration.nanos / 1_000_000_000);
    let rest = Single::from_integer(duration.nanos % 1_000_000_000).over(
        Single::from_integer(1_000_000_000),
    );
    seconds.plus(rest).times(Single::from_integer(1000))
}

/// The expected number of transmissions on a link.
#[verifier::opaque]
pub open spec fn link_etx(forward: Single, reverse: Single) -> Single {
    single::quotient(
        one(),
        single::product(bounded_delivery(forward), bounded_delivery(reverse)),
    )
}

pub fn compute_link_etx(forward: Single, reverse: Single) -> (res: Single)
    ensures
        res == link_etx(forward, reverse),
{
    proof {
        reveal(link_etx);
    }
    let forward = bound_delivery(forward);
    let reverse = bound_delivery(reverse);
    Single::from_integer(1).over(forward.times(reverse))
}

impl NeighborState {
    /// A neighbour of which nothing but its identifier is known.
    pub open spec fn unknown(id: [u8; 4], base_rate: DataRate, now: Instant) -> NeighborState {
        let sf = bounded_sf(base_rate.spreading_factor);
        NeighborState {
            id,
            last_seen: now,
            neighbor_metric: infinity(),
            parent: None,
            reverse_delivery: one_half(),
            forward_delivery: one_half(),
            sf,
            toa: toa_of_sf(sf),
        }
    }

    /// The expected time that a frame takes on the link to this neighbour.
    pub open spec fn link_metric(self) -> Single {
        single::product(
            link_etx(self.forward_delivery, self.reverse_delivery),
            millis_of(self.toa),
        )
    }

    /// The metric of the path through this neighbour.
    #[verifier::opaque]
    pub open spec fn path_metric(self) -> Single {
        single::sum(self.neighbor_metric, self.link_metric())
    }

    /// Whether this neighbour was silent for too long.
    pub open spec fn expired(self, now: Instant, expiration: Duration) -> bool {
        now.elapsed_since(self.last_seen) > expiration.nanos
    }

    /// This neighbour after a beacon of its own.
    pub open spec fn heard(
        self,
        beacon: RoutingBeaconPayload,
        relay_id: [u8; 4],
        now: Instant,
    ) -> NeighborState {
        let base = NeighborState {
            last_seen: now,
            neighbor_metric: beacon.path_metric,
            parent: beacon.parent,
            ..self
        };
        match first_entry(beacon.neighbors@, relay_id) {
            Some(item) => NeighborState {
                reverse_delivery: bounded_delivery(item.delivery),
                sf: bounded_sf(item.spreading_factor),
                toa: toa_of_sf(bounded_sf(item.spreading_factor)),
                ..base
            },
            None => base,
        }
    }

    /// This neighbour when a frame is sent to it.
    pub open spec fn attempted(self, plan: TxPlan) -> NeighborState {
        NeighborState {
            sf: bounded_sf(plan.data_rate.spreading_factor),
            toa: plan.toa,
            ..self
        }
    }

    /// The average of the forward delivery after one more frame.
    pub open spec fn sampled_delivery(self, ewma_alpha: Single, success: bool) -> Single {
        let alpha = bounded_delivery(ewma_alpha);
        let sample = if success {
            single::integer(1)
        } else {
            single::integer(0)
        };
        bounded_delivery(
            single::sum(
                single::product(single::difference(one(), alpha), self.forward_delivery),
                single::product(alpha, sample),
            ),
        )
    }

    /// This neighbour after a frame was sent to it: a failure slows the link
    /// down, a success on a good link speeds it up.
    pub open spec fn sampled(self, ewma_alpha: Single, plan: TxPlan, success: bool) -> NeighborState {
        let delivery = self.sampled_delivery(ewma_alpha, success);
        let base = NeighborState { forward_delivery: delivery, ..self.attempted(plan) };
        if !success && base.sf < MAX_SF {
            NeighborState { sf: (base.sf + 1) as u8, toa: toa_of_sf((base.sf + 1) as u8), ..base }
        } else if success && single::less(good_delivery(), delivery) && base.sf > MIN_SF {
            NeighborState { sf: (base.sf - 1) as u8, toa: toa_of_sf((base.sf - 1) as u8), ..base }
        } else {
            base
        }
    }

    /// This neighbour as it is listed in a beacon.
    pub open spec fn as_entry(self) -> RoutingNeighborEntry {
        RoutingNeighborEntry {
            neighbor_id: self.id,
            delivery: self.forward_delivery,
            spreading_factor: self.sf,
        }
    }

    /// This neighbour as the parent.
    pub open spec fn as_parent(self) -> ParentInfo {
        ParentInfo {
            parent: self.id,
            data_rate: DataRate { spreading_factor: self.sf },
            toa: self.toa,
            link_metric: self.link_metric(),
            link_etx: link_etx(self.forward_delivery, self.reverse_delivery),
            forward_delivery: self.forward_delivery,
        }
    }

    pub fn new(id: [u8; 4], base_rate: &DataRate, now: Instant) -> (res: Self)
        ensures
            res == NeighborState::unknown(id, *base_rate, now),
    {
        let sf: u8 = bound_sf(base_rate.spreading_factor);
        let half = Single::from_integer(1).over(Single::from_integer(2));
        NeighborState {
            id,
            last_seen: now,
            neighbor_metric: infinite_metric(),
            parent: None,
            reverse_delivery: half,
            forward_delivery: half,
            sf,
            toa: toa_for_sf(sf),
        }
    }
}

/// The first entry of a beacon that concerns a relay.
pub open spec fn first_entry(
    entries: Seq<RoutingNeighborEntry>,
    id: [u8; 4],
) -> Option<RoutingNeighborEntry>
    decreases entries.len(),
{
    if entries.len() == 0 {
        None
    } else if entries[0].neighbor_id == id {
        Some(entries[0])
    } else {
        first_entry(entries.drop_first(), id)
    }
}

/// The neighbour with the smallest path metric below infinity, the first among
/// equals.
pub open spec fn best_neighbor(neighbors: Seq<NeighborState>) -> Option<NeighborState>
    decreases neighbors.len(),
{
    if neighbors.len() == 0 {
        None
    } else {
        let best = best_neighbor(neighbors.drop_last());
        if single::less(neighbors.last().path_metric(), best_metric(best)) {
            Some(neighbors.last())
        } else {
            best
        }
    }
}

pub open spec fn best_metric(best: Option<NeighborState>) -> Single {
    match best {
        Some(n) => n.path_metric(),
        None => infinity(),
    }
}

/// The neighbours that were heard recently enough.
pub open spec fn alive(
    neighbors: Seq<NeighborState>,
    now: Instant,
    expiration: Duration,
) -> Seq<NeighborState> {
    neighbors.filter(|n: NeighborState| !n.expired(now, expiration))
}

/// The routing state of a relay. The neighbours stand in the order in which
/// they were first heard.
#[derive(Debug)]
pub struct RoutingState {
    pub relay_id: [u8; 4],
    pub border_gateway: bool,
    pub config: CtpConfig,
    pub base_rate: DataRate,
    pub neighbors: Vec<NeighborState>,
    pub parent: Option<ParentInfo>,
    pub path_metric: Single,
    pub trickle: TrickleState,
}

/// The content of the routing state.
#[verifier::ext_equal]
pub struct RoutingView {
    pub relay_id: [u8; 4],
    pub border_gateway: bool,
    pub config: CtpConfig,
    pub base_rate: DataRate,
    pub neighbors: Seq<NeighborState>,
    pub parent: Option<ParentInfo>,
    pub path_metric: Single,
    pub trickle: TrickleState,
}

pub open spec fn parent_id(parent: Option<ParentInfo>) -> Option<[u8; 4]> {
    match parent {
        Some(p) => Some(p.parent),
        None => None,
    }
}

impl RoutingView {
    /// No neighbour is listed twice.
    pub open spec fn wf(self) -> bool {
        forall|i: int, j: int|
            0 <= i < j < self.neighbors.len() ==> (#[trigger] self.neighbors[i]).id != (
            #[trigger] self.neighbors[j]).id
    }

    pub open spec fn initial(relay_id: [u8; 4], border_gateway: bool, conf: MeshConfig) -> Self {
        RoutingView {
            relay_id,
            border_gateway,
            config: conf.ctp,
            base_rate: conf.data_rate,
            neighbors: Seq::empty(),
            parent: None,
            path_metric: if border_gateway {
                single::integer(0)
            } else {
                infinity()
            },
            trickle: TrickleState::initial(conf.ctp),
        }
    }

    /// Whether the parent is among the neighbours that fell silent.
    pub open spec fn parent_expired(self, now: Instant) -> bool {
        self.parent is Some && exists|i: int|
            0 <= i < self.neighbors.len() && (#[trigger] self.neighbors[i]).id
                == self.parent->0.parent && self.neighbors[i].expired(
                now,
                self.config.neighbor_expiration,
            )
    }

    /// The state after silent neighbours were dropped and the parent was chosen
    /// among the rest. A border gateway is the root: it has no parent.
    pub open spec fn recomputed(self, now: Instant) -> Self {
        if self.border_gateway {
            RoutingView { parent: None, path_metric: single::integer(0), ..self }
        } else {
            let neighbors = alive(self.neighbors, now, self.config.neighbor_expiration);
            let best = best_neighbor(neighbors);
            RoutingView {
                neighbors,
                parent: match best {
                    Some(n) => Some(n.as_parent()),
                    None => None,
                },
                path_metric: best_metric(best),
                ..self
            }
        }
    }

    /// What choosing the parent anew changes.
    pub open spec fn parent_update(self, now: Instant) -> ParentUpdate {
        if self.border_gateway {
            ParentUpdate { changed: false, improved: false }
        } else {
            let after = self.recomputed(now);
            ParentUpdate {
                changed: parent_id(self.parent) != parent_id(after.parent) || self.parent_expired(
                    now,
                ),
                improved: self.path_metric.finite() && after.path_metric.finite()
                    && single::at_most(
                    self.config.cost_improvement_reset,
                    single::quotient(self.path_metric, after.path_metric),
                ),
            }
        }
    }

    /// The state after the parent was chosen anew; a change restarts the timer.
    pub open spec fn refreshed(self, now: Instant) -> Self {
        if self.parent_update(now).resets() {
            self.recomputed(now).restarted()
        } else {
            self.recomputed(now)
        }
    }

    /// Whether a neighbour is listed.
    pub open spec fn knows(self, id: [u8; 4]) -> bool {
        exists|i: int| 0 <= i < self.neighbors.len() && (#[trigger] self.neighbors[i]).id == id
    }

    /// The state after a beacon of a neighbour was noted down.
    pub open spec fn noted(self, id: [u8; 4], beacon: RoutingBeaconPayload, now: Instant) -> Self {
        RoutingView {
            neighbors: if self.knows(id) {
                self.neighbors.map_values(
                    |n: NeighborState|
                        if n.id == id {
                            n.heard(beacon, self.relay_id, now)
                        } else {
                            n
                        },
                )
            } else {
                self.neighbors.push(
                    NeighborState::unknown(id, self.base_rate, now).heard(
                        beacon,
                        self.relay_id,
                        now,
                    ),
                )
            },
            ..self
        }
    }

    /// The state when a frame is sent to a neighbour.
    pub open spec fn attempted(self, parent: [u8; 4], plan: TxPlan) -> Self {
        RoutingView {
            neighbors: self.neighbors.map_values(
                |n: NeighborState|
                    if n.id == parent {
                        n.attempted(plan)
                    } else {
                        n
                    },
            ),
            ..self
        }
    }

    /// The state after a frame was sent to a neighbour.
    pub open spec fn sampled(self, parent: [u8; 4], plan: TxPlan, success: bool) -> Self {
        RoutingView {
            neighbors: self.neighbors.map_values(
                |n: NeighborState|
                    if n.id == parent {
                        n.sampled(self.config.ewma_alpha, plan, success)
                    } else {
                        n
                    },
            ),
            ..self
        }
    }

    /// Whether a beacon restarts the timer: it asks for it, or changes the route.
    pub open spec fn beacon_resets(
        self,
        id: [u8; 4],
        beacon: RoutingBeaconPayload,
        now: Instant,
    ) -> bool {
        beacon.pull || self.noted(id, beacon, now).parent_update(now).resets()
    }

    /// The state after a beacon.
    pub open spec fn after_beacon(
        self,
        id: [u8; 4],
        beacon: RoutingBeaconPayload,
        now: Instant,
    ) -> Self {
        let chosen = self.noted(id, beacon, now).recomputed(now);
        if self.beacon_resets(id, beacon, now) {
            chosen.restarted()
        } else {
            chosen
        }
    }

    /// Whether a child claims to be nearer to the root than this relay, its parent.
    pub open spec fn inconsistent(self, child_metric: Single) -> bool {
        self.path_metric.finite() && single::less(
            single::sum(child_metric, one()),
            self.path_metric,
        )
    }

    pub open spec fn restarted(self) -> Self {
        RoutingView { trickle: self.trickle.restarted(), ..self }
    }

    pub open spec fn pulling(self) -> Self {
        RoutingView { trickle: self.trickle.pulling(), ..self }
    }

    /// The route that the state offers.
    pub open spec fn decision(self) -> Option<RoutingDecision> {
        match self.parent {
            Some(p) => Some(
                RoutingDecision {
                    parent: p.parent,
                    data_rate: p.data_rate,
                    toa: p.toa,
                    path_metric: self.path_metric,
                    link_metric: p.link_metric,
                    forward_delivery: p.forward_delivery,
                    link_etx: p.link_etx,
                },
            ),
            None => None,
        }
    }
}

impl RoutingState {
    pub open spec fn view(&self) -> RoutingView {
        RoutingView {
            relay_id: self.relay_id,
            border_gateway: self.border_gateway,
            config: self.config,
            base_rate: self.base_rate,
            neighbors: self.neighbors@,
            parent: self.parent,
            path_metric: self.path_metric,
            trickle: self.trickle,
        }
    }

    pub fn new(relay_id: [u8; 4], border_gateway: bool, conf: &MeshConfig) -> (res: Self)
        ensures
            res@ == RoutingView::initial(relay_id, border_gateway, *conf),
            res@.wf(),
    {
        let path_metric = if border_gateway {
            Single::from_integer(0)
        } else {
            infinite_metric()
        };
        RoutingState {
            relay_id,
            border_gateway,
            config: conf.ctp,
            base_rate: conf.data_rate,
            neighbors: Vec::new(),
            parent: None,
            path_metric,
            trickle: TrickleState::new(&conf.ctp),
        }
    }

    pub fn set_pending_pull(&mut self)
        ensures
            final(self)@ == old(self)@.pulling(),
    {
        self.trickle.pending_pull = true;
        self.trickle.force_immediate = true;
    }

    /// Drops the neighbours that fell silent; tells whether the parent was one.
    fn drop_expired(&mut self, now: Instant) -> (removed_parent: bool)
        ensures
            final(self)@ == (RoutingView {
                neighbors: alive(old(self)@.neighbors, now, old(self)@.config.neighbor_expiration),
                ..old(self)@
            }),
            removed_parent == old(self)@.parent_expired(now),
    {
        let expiration = self.config.neighbor_expiration;
        let ghost all = self.neighbors@;
        let ghost keep = |n: NeighborState| !n.expired(now, expiration);
        let mut kept: Vec<NeighborState> = Vec::new();
        let mut removed_parent = false;
        let mut i: usize = 0;
        proof {
            assert(all.take(0).filter(keep) =~= Seq::<NeighborState>::empty()) by {
                reveal(Seq::filter);
            }
        }
        while i < self.neighbors.len()
            invariant
                self@ == old(self)@,
                all == self.neighbors@,
                expiration == self.config.neighbor_expiration,
                keep == (|n: NeighborState| !n.expired(now, expiration)),
                i <= all.len(),
                kept@ == all.take(i as int).filter(keep),
                removed_parent == (self.parent is Some && exists|j: int|
                    0 <= j < i && (#[trigger] all[j]).id == self.parent->0.parent && all[j].expired(
                        now,
                        expiration,
                    )),
            decreases all.len() - i,
        {
            let n = self.neighbors[i];
            proof {
                reveal(Seq::filter);
                assert(all.take(i + 1).drop_last() =~= all.take(i as int));
                assert(all.take(i + 1).last() == n);
            }
            if now.duration_since(n.last_seen).nanos > expiration.nanos {
                if let Some(p) = self.parent {
                    if same_relay(&p.parent, &n.id) {
                        removed_parent = true;
                    }
                }
            } else {
                kept.push(n);
            }
            i = i + 1;
        }
        assert(all.take(all.len() as int) =~= all);
        self.neighbors = kept;
        removed_parent
    }

    /// The best neighbour and its path metric.
    fn find_best(&self) -> (res: (Option<NeighborState>, Single))
        ensures
            res.0 == best_neighbor(self.neighbors@),
            res.1 == best_metric(res.0),
    {
        let ghost all = self.neighbors@;
        let mut best: Option<NeighborState> = None;
        let mut metric = infinite_metric();
        let mut i: usize = 0;
        while i < self.neighbors.len()
            invariant
                all == self.neighbors@,
                i <= all.len(),
                best == best_neighbor(all.take(i as int)),
                metric == best_metric(best),
            decreases all.len() - i,
        {
            let n = self.neighbors[i];
            proof {
                assert(all.take(i + 1).drop_last() =~= all.take(i as int));
                assert(all.take(i + 1).last() == n);
            }
            let total = path_metric_through(&n);
            if total.below(metric) {
                best = Some(n);
                metric = total;
            }
            i = i + 1;
        }
        assert(all.take(all.len() as int) =~= all);
        (best, metric)
    }

    /// Drops silent neighbours and chooses the parent anew.
    pub fn recompute_parent(&mut self, now: Instant) -> (update: ParentUpdate)
        requires
            old(self)@.wf(),
        ensures
            final(self)@ == old(self)@.recomputed(now),
            final(self)@.wf(),
            update == old(self)@.parent_update(now),
    {
        if self.border_gateway {
            self.parent = None;
            self.path_metric = Single::from_integer(0);
            return ParentUpdate::none();
        }
        let prev_parent = match &self.parent {
            Some(p) => Some(p.parent),
            None => None,
        };
        let prev_metric = self.path_metric;
        let removed_parent = self.drop_expired(now);
        let (best, metric): (Option<NeighborState>, Single) = self.find_best();
        let parent = match best {
            Some(n) => {
                let etx = compute_link_etx(n.forward_delivery, n.reverse_delivery);
                Some(
                    ParentInfo {
                        parent: n.id,
                        data_rate: DataRate { spreading_factor: n.sf },
                        toa: n.toa,
                        link_metric: etx.times(toa_ms(n.toa)),
                        link_etx: etx,
                        forward_delivery: n.forward_delivery,
                    },
                )
            },
            None => None,
        };
        let new_parent = match &parent {
            Some(p) => Some(p.parent),
            None => None,
        };
        self.parent = parent;
        self.path_metric = metric;
        let changed = !same_optional_relay(&prev_parent, &new_parent) || removed_parent;
        let improved = prev_metric.is_finite() && metric.is_finite()
            && self.config.cost_improvement_reset.not_above(prev_metric.over(metric));
        proof {
            lemma_filter_keeps_distinct(
                old(self)@.neighbors,
                |n: NeighborState| !n.expired(now, old(self)@.config.neighbor_expiration),
            );
        }
        ParentUpdate { changed, improved }
    }

    pub fn current_decision(&self) -> (res: Option<RoutingDecision>)
        ensures
            res == self@.decision(),
    {
        match &self.parent {
            Some(p) => Some(
                RoutingDecision {
                    parent: p.parent,
                    data_rate: p.data_rate,
                    toa: p.toa,
                    path_metric: self.path_metric,
                    link_metric: p.link_metric,
                    forward_delivery: p.forward_delivery,
                    link_etx: p.link_etx,
                },
            ),
            None => None,
        }
    }
}

impl RoutingState {
    fn find_neighbor(&self, id: &[u8; 4]) -> (res: Option<usize>)
        ensures
            match res {
                Some(i) => i < self.neighbors@.len() && self.neighbors@[i as int].id == *id,
                None => !self@.knows(*id),
            },
    {
        let mut i: usize = 0;
        while i < self.neighbors.len()
            invariant
                i <= self.neighbors@.len(),
                forall|j: int| 0 <= j < i ==> (#[trigger] self.neighbors@[j]).id != *id,
            decreases self.neighbors@.len() - i,
        {
            if same_relay(&self.neighbors[i].id, id) {
                return Some(i);
            }
            i = i + 1;
        }
        None
    }

    /// Notes down what a neighbour says in a beacon.
    pub fn update_neighbor_from_beacon(
        &mut self,
        relay_id: [u8; 4],
        beacon: &RoutingBeaconPayload,
        now: Instant,
    )
        requires
            old(self)@.wf(),
        ensures
            final(self)@ == old(self)@.noted(relay_id, *beacon, now),
            final(self)@.wf(),
            exists|i: int|
                0 <= i < final(self)@.neighbors.len() && {
                    let n = #[trigger] final(self)@.neighbors[i];
                    &&& n.id == relay_id
                    &&& n.last_seen == now
                    &&& n.neighbor_metric == beacon.path_metric
                    &&& n.parent == beacon.parent
                },
    {
        let found: Option<usize> = self.find_neighbor(&relay_id);
        let mut entry = match found {
            Some(i) => self.neighbors[i],
            None => NeighborState::new(relay_id, &self.base_rate, now),
        };
        entry.last_seen = now;
        entry.neighbor_metric = beacon.path_metric;
        entry.parent = beacon.parent;
        if let Some(item) = find_entry(beacon, &self.relay_id) {
            entry.reverse_delivery = bound_delivery(item.delivery);
            entry.sf = bound_sf(item.spreading_factor);
            entry.toa = toa_for_sf(entry.sf);
        }
        match found {
            Some(i) => {
                self.neighbors.set(i, entry);
                assert(old(self)@.neighbors[i as int].id == relay_id);
            },
            None => {
                self.neighbors.push(entry);
            },
        }
        assert(self@.neighbors =~= old(self)@.noted(relay_id, *beacon, now).neighbors);
        proof {
            let i = match found {
                Some(i) => i as int,
                None => old(self)@.neighbors.len() as int,
            };
            assert(self@.neighbors[i] == entry);
        }
    }

    /// The beacon that describes this relay.
    pub fn build_beacon(&self) -> (beacon: RoutingBeaconPayload)
        ensures
            beacon.pull == self.trickle.pending_pull,
            beacon.parent == parent_id(self.parent),
            beacon.path_metric == self.path_metric,
            beacon.neighbors@ == self.neighbors@.map_values(|n: NeighborState| n.as_entry()),
    {
        let mut neighbors: Vec<RoutingNeighborEntry> = Vec::new();
        let mut i: usize = 0;
        while i < self.neighbors.len()
            invariant
                i <= self.neighbors@.len(),
                neighbors@.len() == i,
                forall|j: int|
                    0 <= j < i ==> #[trigger] neighbors@[j] == self.neighbors@[j].as_entry(),
            decreases self.neighbors@.len() - i,
        {
            let n = self.neighbors[i];
            neighbors.push(
                RoutingNeighborEntry {
                    neighbor_id: n.id,
                    delivery: n.forward_delivery,
                    spreading_factor: n.sf,
                },
            );
            i = i + 1;
        }
        assert(neighbors@ =~= self.neighbors@.map_values(|n: NeighborState| n.as_entry()));
        RoutingBeaconPayload {
            pull: self.trickle.pending_pull,
            parent: match &self.parent {
                Some(p) => Some(p.parent),
                None => None,
            },
            path_metric: self.path_metric,
            neighbors,
        }
    }
}

fn find_entry(beacon: &RoutingBeaconPayload, id: &[u8; 4]) -> (res: Option<RoutingNeighborEntry>)
    ensures
        res == first_entry(beacon.neighbors@, *id),
{
    let ghost all = beacon.neighbors@;
    let mut i: usize = 0;
    assert(all.skip(0) =~= all);
    while i < beacon.neighbors.len()
        invariant
            all == beacon.neighbors@,
            i <= all.len(),
            first_entry(all, *id) == first_entry(all.skip(i as int), *id),
        decreases all.len() - i,
    {
        let item = beacon.neighbors[i];
        assert(all.skip(i as int)[0] == item);
        assert(all.skip(i as int).drop_first() =~= all.skip(i + 1));
        if same_relay(&item.neighbor_id, id) {
            return Some(item);
        }
        i = i + 1;
    }
    None
}

/// The routing state of a node that starts: a relay asks its neighbours for
/// beacons.
pub fn setup(relay_id: [u8; 4], conf: &MeshConfig) -> (state: RoutingState)
    ensures
        state@.wf(),
        state@ == if conf.border_gateway {
            RoutingView::initial(relay_id, true, *conf)
        } else {
            RoutingView::initial(relay_id, false, *conf).pulling()
        },
{
    let mut state = RoutingState::new(relay_id, conf.border_gateway, conf);
    if !conf.border_gateway {
        state.set_pending_pull();
    }
    state
}

/// Chooses the parent anew. Restarts the timer of the beacons, and says so, where
/// the route has changed.
fn refresh(state: &mut RoutingState, now: Instant) -> (notify: bool)
    requires
        old(state)@.wf(),
    ensures
        final(state)@ == old(state)@.refreshed(now),
        final(state)@.wf(),
        notify == old(state)@.parent_update(now).resets(),
{
    let update = state.recompute_parent(now);
    if update.should_reset() {
        state.trickle.reset();
        true
    } else {
        false
    }
}

/// The route for an uplink of this relay, and whether the beacon loop is to be
/// woken.
pub fn prepare_uplink(state: &mut RoutingState, now: Instant) -> (res: (
    Option<RoutingDecision>,
    bool,
))
    requires
        old(state)@.wf(),
    ensures
        final(state)@ == old(state)@.refreshed(now),
        final(state)@.wf(),
        res.0 == old(state)@.recomputed(now).decision(),
        res.1 == old(state)@.parent_update(now).resets(),
{
    let notify = refresh(state, now);
    (state.current_decision(), notify)
}

/// The route for an uplink of a child, and whether the beacon loop is to be woken.
pub fn prepare_forward(
    state: &mut RoutingState,
    _child_id: [u8; 4],
    _child_metric: Single,
    now: Instant,
) -> (res: (Option<RoutingDecision>, bool))
    requires
        old(state)@.wf(),
    ensures
        final(state)@ == old(state)@.refreshed(now),
        final(state)@.wf(),
        res.0 == old(state)@.recomputed(now).decision(),
        res.1 == old(state)@.parent_update(now).resets(),
{
    prepare_uplink(state, now)
}

/// Notes that a frame is about to be sent to a neighbour.
pub fn record_tx_attempt(state: &mut RoutingState, parent: [u8; 4], plan: &TxPlan)
    requires
        old(state)@.wf(),
    ensures
        final(state)@ == old(state)@.attempted(parent, *plan),
        final(state)@.wf(),
{
    let ghost before = state@;
    match state.find_neighbor(&parent) {
        Some(i) => {
            let mut n = state.neighbors[i];
            n.sf = bound_sf(plan.data_rate.spreading_factor);
            n.toa = plan.toa;
            state.neighbors.set(i, n);
            assert(before.neighbors[i as int].id == parent);
        },
        None => {},
    }
    assert(state@.neighbors =~= before.attempted(parent, *plan).neighbors);
}

/// Notes whether a frame reached a neighbour, and whether the beacon loop is to
/// be woken for it.
pub fn record_tx_result(
    state: &mut RoutingState,
    parent: [u8; 4],
    plan: &TxPlan,
    success: bool,
    now: Instant,
) -> (notify: bool)
    requires
        old(state)@.wf(),
    ensures
        final(state)@ == old(state)@.sampled(parent, *plan, success).refreshed(now),
        final(state)@.wf(),
        notify == old(state)@.sampled(parent, *plan, success).parent_update(now).resets(),
{
    let ghost before = state@;
    match state.find_neighbor(&parent) {
        Some(i) => {
            let n = sample_neighbor(state.neighbors[i], state.config.ewma_alpha, plan, success);
            state.neighbors.set(i, n);
            assert(before.neighbors[i as int].id == parent);
        },
        None => {},
    }
    assert(state@.neighbors =~= before.sampled(parent, *plan, success).neighbors);
    refresh(state, now)
}

fn sample_neighbor(
    neighbor: NeighborState,
    ewma_alpha: Single,
    plan: &TxPlan,
    success: bool,
) -> (res: NeighborState)
    ensures
        res == neighbor.sampled(ewma_alpha, *plan, success),
{
    let mut neighbor = neighbor;
    let one = Single::from_integer(1);
    let alpha = bound_delivery(ewma_alpha);
    let sample = if success {
        one
    } else {
        Single::from_integer(0)
    };
    neighbor.forward_delivery = bound_delivery(
        one.minus(alpha).times(neighbor.forward_delivery).plus(alpha.times(sample)),
    );
    neighbor.sf = bound_sf(plan.data_rate.spreading_factor);
    neighbor.toa = plan.toa;
    if !success && neighbor.sf < MAX_SF {
        neighbor.sf = neighbor.sf + 1;
        neighbor.toa = toa_for_sf(neighbor.sf);
    } else if success && Single::from_integer(19).over(Single::from_integer(20)).below(
        neighbor.forward_delivery,
    ) && neighbor.sf > MIN_SF {
        neighbor.sf = neighbor.sf - 1;
        neighbor.toa = toa_for_sf(neighbor.sf);
    }
    neighbor
}

/// Takes in a beacon of a neighbour, and tells whether the beacon loop is to be
/// woken.
pub fn handle_beacon(
    state: &mut RoutingState,
    relay_id: [u8; 4],
    beacon: &RoutingBeaconPayload,
    now: Instant,
) -> (notify: bool)
    requires
        old(state)@.wf(),
    ensures
        final(state)@ == old(state)@.after_beacon(relay_id, *beacon, now),
        final(state)@.wf(),
        notify == old(state)@.beacon_resets(relay_id, *beacon, now),
{
    state.update_neighbor_from_beacon(relay_id, beacon, now);
    let update = state.recompute_parent(now);
    if beacon.pull || update.should_reset() {
        state.trickle.reset();
        true
    } else {
        false
    }
}

/// Asks the neighbours for beacons with a beacon that is sent at once. The beacon
/// loop is to be woken.
pub fn notify_pull_request(state: &mut RoutingState)
    ensures
        final(state)@ == old(state)@.pulling().restarted(),
{
    state.set_pending_pull();
    state.trickle.reset();
}

/// Sees whether a child's metric contradicts the own one, and tells whether the
/// beacon loop is to be woken.
pub fn notify_inconsistency(state: &mut RoutingState, child_metric: Single) -> (notify: bool)
    ensures
        notify == old(state)@.inconsistent(child_metric),
        final(state)@ == if notify {
            old(state)@.restarted()
        } else {
            old(state)@
        },
{
    if state.path_metric.is_finite() && child_metric.plus(Single::from_integer(1)).below(
        state.path_metric,
    ) {
        state.trickle.reset();
        true
    } else {
        false
    }
}

pub fn current_path_metric(state: &RoutingState) -> (res: Single)
    ensures
        res == state@.path_metric,
{
    state.path_metric
}

/// A number of milliseconds, cut to its low 16 bits.
pub open spec fn short_millis(d: Duration) -> u16 {
    ((d.nanos / 1_000_000) % 0x1_0000) as u16
}

pub fn to_short_millis(d: Duration) -> (ms: u16)
    ensures
        ms == short_millis(d),
{
    (d.as_millis() % 0x1_0000) as u16
}

/// The route that is announced with an uplink.
pub open spec fn route_info(decision: RoutingDecision) -> RouteInfo {
    RouteInfo {
        parent: Some(decision.parent),
        path_metric: decision.path_metric,
        link_metric: decision.link_metric,
        link_toa_ms: short_millis(decision.toa),
    }
}

pub fn to_route_info(decision: &RoutingDecision) -> (res: RouteInfo)
    ensures
        res == route_info(*decision),
{
    RouteInfo {
        parent: Some(decision.parent),
        path_metric: decision.path_metric,
        link_metric: decision.link_metric,
        link_toa_ms: to_short_millis(decision.toa),
    }
}

/// The route of this relay, or the default where it has none.
pub fn current_route_info(state: &RoutingState) -> (res: RouteInfo)
    ensures
        res == match state@.decision() {
            Some(decision) => route_info(decision),
            None => packets::no_route(),
        },
{
    match state.current_decision() {
        Some(decision) => to_route_info(&decision),
        None => RouteInfo::default(),
    }
}

/// What the beacon loop learns.
#[derive(Debug, Clone, Copy, PartialEq, Eq, Structural)]
pub enum BeaconEvent {
    /// The loop comes round: at its start, after a beacon or after it was woken.
    Round,
    /// The interval has passed without the loop being woken.
    Elapsed,
}

/// What the beacon loop does next.
#[derive(Debug)]
pub enum BeaconAction {
    Send(RoutingBeaconPayload),
    /// Wait for the interval to pass or to be woken.
    Wait(Duration),
}

/// One step of the beacon loop.
pub fn beacon_step(state: &mut RoutingState, event: BeaconEvent) -> (action: BeaconAction)
    ensures
        tree::steps(
            old(state)@.trickle,
            event,
            action is Send,
            action matches BeaconAction::Send(beacon) && beacon.pull,
            final(state)@.trickle,
        ),
        match action {
            BeaconAction::Send(beacon) => {
                &&& event == BeaconEvent::Elapsed || old(state)@.trickle.force_immediate
                &&& beacon.pull == old(state)@.trickle.pending_pull
                &&& beacon.parent == parent_id(old(state)@.parent)
                &&& beacon.path_metric == old(state)@.path_metric
                &&& beacon.neighbors@ == old(state)@.neighbors.map_values(
                    |n: NeighborState| n.as_entry(),
                )
                &&& final(state)@ == (RoutingView {
                    trickle: old(state)@.trickle.relaxed(),
                    ..old(state)@
                })
            },
            BeaconAction::Wait(interval) => {
                &&& event == BeaconEvent::Round
                &&& !old(state)@.trickle.force_immediate
                &&& interval == old(state)@.trickle.current_interval
                &&& final(state)@ == old(state)@
            },
        },
{
    if event == BeaconEvent::Elapsed || state.trickle.force_immediate {
        let beacon = state.build_beacon();
        state.trickle.after_send();
        BeaconAction::Send(beacon)
    } else {
        BeaconAction::Wait(state.trickle.current_interval)
    }
}

/// How often silent neighbours are looked for: twice per expiration time.
pub fn cleanup_interval(state: &RoutingState) -> (res: Duration)
    ensures
        res.nanos == state@.config.neighbor_expiration.nanos / 2,
{
    Duration { nanos: state.config.neighbor_expiration.nanos / 2 }
}

/// Drops silent neighbours, and tells whether the beacon loop is to be woken.
pub fn cleanup_step(state: &mut RoutingState, now: Instant) -> (notify: bool)
    requires
        old(state)@.wf(),
    ensures
        final(state)@ == old(state)@.refreshed(now),
        final(state)@.wf(),
        notify == old(state)@.parent_update(now).resets(),
{
    refresh(state, now)
}

fn path_metric_through(n: &NeighborState) -> (res: Single)
    ensures
        res == n.path_metric(),
{
    proof {
        reveal(NeighborState::path_metric);
    }
    let link = compute_link_etx(n.forward_delivery, n.reverse_delivery);
    n.neighbor_metric.plus(link.times(toa_ms(n.toa)))
}

proof fn lemma_filter_keeps_distinct(
    neighbors: Seq<NeighborState>,
    keep: spec_fn(NeighborState) -> bool,
)
    requires
        forall|i: int, j: int|
            0 <= i < j < neighbors.len() ==> (#[trigger] neighbors[i]).id != (
            #[trigger] neighbors[j]).id,
    ensures
        forall|i: int, j: int|
            0 <= i < j < neighbors.filter(keep).len() ==> (#[trigger] neighbors.filter(keep)[i]).id
                != (#[trigger] neighbors.filter(keep)[j]).id,
        forall|i: int|
            0 <= i < neighbors.filter(keep).len() ==> exists|k: int|
                0 <= k < neighbors.len() && neighbors[k] == #[trigger] neighbors.filter(keep)[i],
    decreases neighbors.len(),
{
    reveal(Seq::filter);
    if neighbors.len() > 0 {
        let front = neighbors.drop_last();
        assert forall|i: int, j: int| 0 <= i < j < front.len() implies (#[trigger] front[i]).id != (
        #[trigger] front[j]).id by {
            assert(front[i] == neighbors[i] && front[j] == neighbors[j]);
        }
        lemma_filter_keeps_distinct(front, keep);
        assert forall|i: int| 0 <= i < front.filter(keep).len() implies exists|k: int|
            0 <= k < neighbors.len() - 1 && neighbors[k] == #[trigger] front.filter(keep)[i] by {
            let k = choose|k: int|
                0 <= k < front.len() && front[k] == #[trigger] front.filter(keep)[i];
            assert(neighbors[k] == front.filter(keep)[i]);
        }
        if keep(neighbors.last()) {
            assert(neighbors.filter(keep).last() == neighbors[neighbors.len() - 1]);
        }
    }
}

} // verus!
