//! What the table of neighbours holds after each event.
use crate::mesh::ctp;
use crate::mesh::ctp::NeighborState;
use crate::mesh::ctp::RoutingView;
use crate::mesh::scheduler::TxPlan;
use crate::packets::RoutingBeaconPayload;
use crate::single;
use crate::time::Instant;
use vstd::prelude::*;

verus! {

/// Choosing the parent anew keeps, in their order, exactly the neighbours that were
/// heard within the expiration time. A border gateway keeps them all.
pub proof fn neighbors_stay_while_they_are_heard(state: RoutingView, now: Instant)
    ensures
        state.recomputed(now).neighbors == if state.border_gateway {
            state.neighbors
        } else {
            state.neighbors.filter(
                |n: NeighborState|
                    now.nanos - n.last_seen.nanos <= state.config.neighbor_expiration.nanos,
            )
        },
{
    assert((|n: NeighborState|
        now.nanos - n.last_seen.nanos <= state.config.neighbor_expiration.nanos) =~= (
    |n: NeighborState| !n.expired(now, state.config.neighbor_expiration)));
}

proof fn lemma_filter_keeps(
    neighbors: Seq<NeighborState>,
    keep: spec_fn(NeighborState) -> bool,
    i: int,
)
    requires
        0 <= i < neighbors.len(),
        keep(neighbors[i]),
    ensures
        neighbors.filter(keep).contains(neighbors[i]),
    decreases neighbors.len(),
{
    reveal(Seq::filter);
    let front = neighbors.drop_last();
    if i < front.len() {
        lemma_filter_keeps(front, keep, i);
        let k = choose|k: int|
            0 <= k < front.filter(keep).len() && front.filter(keep)[k] == front[i];
        assert(neighbors.filter(keep)[k] == neighbors[i]);
    } else {
        assert(neighbors.filter(keep).last() == neighbors[i]);
    }
}

/// A neighbour that was heard within the expiration time is still listed.
pub proof fn lemma_recomputed_keeps(state: RoutingView, now: Instant, i: int)
    requires
        0 <= i < state.neighbors.len(),
        now.nanos - state.neighbors[i].last_seen.nanos <= state.config.neighbor_expiration.nanos,
    ensures
        state.recomputed(now).neighbors.contains(state.neighbors[i]),
{
    if state.border_gateway {
        assert(state.recomputed(now).neighbors[i] == state.neighbors[i]);
    } else {
        lemma_filter_keeps(
            state.neighbors,
            |n: NeighborState| !n.expired(now, state.config.neighbor_expiration),
            i,
        );
    }
}

/// A beacon of a known neighbour changes its entry and no other: the entry holds the
/// time of the beacon and what the neighbour says of its own path. How well the
/// neighbour is reached from here stays as it was.
pub proof fn beacon_updates_its_sender(
    state: RoutingView,
    i: int,
    beacon: RoutingBeaconPayload,
    now: Instant,
)
    requires
        state.wf(),
        0 <= i < state.neighbors.len(),
    ensures
        ({
            let before = state.neighbors[i];
            let noted = state.noted(before.id, beacon, now);
            let n = noted.neighbors[i];
            &&& n.id == before.id
            &&& n.last_seen == now
            &&& n.neighbor_metric == beacon.path_metric
            &&& n.parent == beacon.parent
            &&& n.forward_delivery == before.forward_delivery
            &&& noted.neighbors == state.neighbors.update(i, n)
        }),
{
    let id = state.neighbors[i].id;
    let noted = state.noted(id, beacon, now);
    assert(state.knows(id));
    assert forall|j: int| 0 <= j < state.neighbors.len() && j != i implies #[trigger] noted.neighbors[j]
        == state.neighbors[j] by {
        if j < i {
            assert(state.neighbors[j].id != state.neighbors[i].id);
        } else {
            assert(state.neighbors[i].id != state.neighbors[j].id);
        }
    }
    assert(noted.neighbors =~= state.neighbors.update(i, noted.neighbors[i]));
}

/// A beacon of an unknown neighbour adds an entry at the end, with the time of the
/// beacon and what the neighbour says of its own path. The link counts as half as
/// good as it could be until more is known.
pub proof fn beacon_adds_its_sender(
    state: RoutingView,
    id: [u8; 4],
    beacon: RoutingBeaconPayload,
    now: Instant,
)
    requires
        !state.knows(id),
    ensures
        ({
            let noted = state.noted(id, beacon, now);
            let n = noted.neighbors.last();
            &&& n.id == id
            &&& n.last_seen == now
            &&& n.neighbor_metric == beacon.path_metric
            &&& n.parent == beacon.parent
            &&& n.forward_delivery == single::quotient(single::integer(1), single::integer(2))
            &&& noted.neighbors == state.neighbors.push(n)
        }),
{
    let noted = state.noted(id, beacon, now);
    assert(noted.neighbors =~= state.neighbors.push(noted.neighbors.last()));
}

proof fn lemma_first_entry(beacon: RoutingBeaconPayload, id: [u8; 4], k: int, i: int)
    requires
        0 <= i <= k < beacon.neighbors@.len(),
        beacon.neighbors@[k].neighbor_id == id,
        forall|j: int| 0 <= j < k ==> (#[trigger] beacon.neighbors@[j]).neighbor_id != id,
    ensures
        ctp::first_entry(beacon.neighbors@.skip(i), id) == Some(beacon.neighbors@[k]),
    decreases k - i,
{
    let rest = beacon.neighbors@.skip(i);
    assert(rest[0] == beacon.neighbors@[i]);
    if i < k {
        assert(rest.drop_first() =~= beacon.neighbors@.skip(i + 1));
        lemma_first_entry(beacon, id, k, i + 1);
    }
}

proof fn lemma_no_entry(beacon: RoutingBeaconPayload, id: [u8; 4], i: int)
    requires
        0 <= i <= beacon.neighbors@.len(),
        forall|j: int|
            0 <= j < beacon.neighbors@.len() ==> (#[trigger] beacon.neighbors@[j]).neighbor_id != id,
    ensures
        ctp::first_entry(beacon.neighbors@.skip(i), id) is None,
    decreases beacon.neighbors@.len() - i,
{
    let rest = beacon.neighbors@.skip(i);
    if i < beacon.neighbors@.len() {
        assert(rest[0] == beacon.neighbors@[i]);
        assert(rest.drop_first() =~= beacon.neighbors@.skip(i + 1));
        lemma_no_entry(beacon, id, i + 1);
    }
}

/// The entry of the neighbour that a beacon came from.
proof fn lemma_noted_entry(
    state: RoutingView,
    id: [u8; 4],
    beacon: RoutingBeaconPayload,
    now: Instant,
) -> (i: int)
    ensures
        0 <= i < state.noted(id, beacon, now).neighbors.len(),
        state.noted(id, beacon, now).neighbors[i].id == id,
        state.noted(id, beacon, now).neighbors[i].last_seen == now,
        state.noted(id, beacon, now).neighbors[i] == if state.knows(id) {
            state.neighbors[i].heard(beacon, state.relay_id, now)
        } else {
            NeighborState::unknown(id, state.base_rate, now).heard(beacon, state.relay_id, now)
        },
        state.knows(id) ==> i < state.neighbors.len() && state.neighbors[i].id == id,
{
    if state.knows(id) {
        choose|i: int| 0 <= i < state.neighbors.len() && (#[trigger] state.neighbors[i]).id == id
    } else {
        state.neighbors.len() as int
    }
}

/// What a beacon says of this relay is taken over: how well the sender reaches it,
/// moved into the range from one hundredth to one, and the spreading factor, moved
/// into the range of the mesh. The first entry counts.
pub proof fn beacon_tells_how_well_the_sender_is_heard(
    state: RoutingView,
    id: [u8; 4],
    beacon: RoutingBeaconPayload,
    now: Instant,
    k: int,
)
    requires
        0 <= k < beacon.neighbors@.len(),
        beacon.neighbors@[k].neighbor_id == state.relay_id,
        forall|j: int|
            0 <= j < k ==> (#[trigger] beacon.neighbors@[j]).neighbor_id != state.relay_id,
        !beacon.neighbors@[k].delivery.nan(),
    ensures
        ({
            let noted = state.noted(id, beacon, now);
            let delivery = beacon.neighbors@[k].delivery;
            let sf = beacon.neighbors@[k].spreading_factor;
            let least = single::quotient(single::integer(1), single::integer(100));
            exists|i: int|
                0 <= i < noted.neighbors.len() && {
                    let n = #[trigger] noted.neighbors[i];
                    &&& n.id == id
                    &&& n.last_seen == now
                    &&& n.reverse_delivery == if single::less(delivery, least) {
                        least
                    } else if single::less(single::integer(1), delivery) {
                        single::integer(1)
                    } else {
                        delivery
                    }
                    &&& 7 <= n.sf <= 12
                    &&& 7 <= sf <= 12 ==> n.sf == sf
                    &&& sf < 7 ==> n.sf == 7
                    &&& sf > 12 ==> n.sf == 12
                    &&& n.toa == ctp::toa_of_sf(n.sf)
                }
        }),
{
    lemma_first_entry(beacon, state.relay_id, k, 0);
    assert(beacon.neighbors@.skip(0) =~= beacon.neighbors@);
    let i = lemma_noted_entry(state, id, beacon, now);
    assert(state.noted(id, beacon, now).neighbors[i].id == id);
}

/// A beacon that says nothing of this relay leaves the figures of the link as they
/// are.
pub proof fn beacon_without_an_entry_leaves_the_link(
    state: RoutingView,
    i: int,
    beacon: RoutingBeaconPayload,
    now: Instant,
)
    requires
        state.wf(),
        0 <= i < state.neighbors.len(),
        forall|j: int|
            0 <= j < beacon.neighbors@.len() ==> (#[trigger] beacon.neighbors@[j]).neighbor_id
                != state.relay_id,
    ensures
        ({
            let before = state.neighbors[i];
            let n = state.noted(before.id, beacon, now).neighbors[i];
            &&& n.reverse_delivery == before.reverse_delivery
            &&& n.forward_delivery == before.forward_delivery
            &&& n.sf == before.sf
            &&& n.toa == before.toa
        }),
{
    lemma_no_entry(beacon, state.relay_id, 0);
    assert(beacon.neighbors@.skip(0) =~= beacon.neighbors@);
    assert(state.knows(state.neighbors[i].id));
}

/// A neighbour that was heard is not dropped before its expiration time has passed:
/// until then every new choice of the parent finds it in the table, with the time
/// and the metric of its beacon.
pub proof fn heard_neighbor_is_kept(
    state: RoutingView,
    id: [u8; 4],
    beacon: RoutingBeaconPayload,
    now: Instant,
    later: Instant,
)
    requires
        later.nanos <= now.nanos + state.config.neighbor_expiration.nanos,
    ensures
        exists|i: int|
            0 <= i < state.after_beacon(id, beacon, now).neighbors.len() && {
                let n = #[trigger] state.after_beacon(id, beacon, now).neighbors[i];
                n.id == id && n.last_seen == now && n.neighbor_metric == beacon.path_metric
                    && n.parent == beacon.parent
            },
        exists|i: int|
            0 <= i < state.after_beacon(id, beacon, now).recomputed(later).neighbors.len() && {
                let n = #[trigger] state.after_beacon(id, beacon, now).recomputed(
                    later,
                ).neighbors[i];
                n.id == id && n.last_seen == now && n.neighbor_metric == beacon.path_metric
                    && n.parent == beacon.parent
            },
{
    let noted = state.noted(id, beacon, now);
    let after = state.after_beacon(id, beacon, now);
    let i = lemma_noted_entry(state, id, beacon, now);
    let n = noted.neighbors[i];
    lemma_recomputed_keeps(noted, now, i);
    assert(after.neighbors == noted.recomputed(now).neighbors);
    let j = choose|j: int| 0 <= j < after.neighbors.len() && after.neighbors[j] == n;
    assert(after.neighbors[j].id == id);
    lemma_recomputed_keeps(after, later, j);
    let last = after.recomputed(later);
    let k = choose|k: int| 0 <= k < last.neighbors.len() && last.neighbors[k] == n;
    assert(last.neighbors[k].id == id);
}

/// A neighbour that was silent for longer than the expiration time is gone after the
/// next choice of the parent.
pub proof fn silent_neighbor_is_dropped(state: RoutingView, now: Instant, i: int)
    requires
        !state.border_gateway,
        0 <= i < state.recomputed(now).neighbors.len(),
    ensures
        now.nanos - state.recomputed(now).neighbors[i].last_seen.nanos
            <= state.config.neighbor_expiration.nanos,
        state.neighbors.contains(state.recomputed(now).neighbors[i]),
{
    let keep = |n: NeighborState|
        now.nanos - n.last_seen.nanos <= state.config.neighbor_expiration.nanos;
    neighbors_stay_while_they_are_heard(state, now);
    ctp::tree::lemma_filter_kept(state.neighbors, keep, i);
}

/// Sending to a neighbour changes its data rate and nothing else, and no other
/// neighbour.
pub proof fn attempt_sets_the_data_rate(state: RoutingView, id: [u8; 4], plan: TxPlan, i: int)
    requires
        0 <= i < state.neighbors.len(),
    ensures
        state.attempted(id, plan).neighbors.len() == state.neighbors.len(),
        ({
            let before = state.neighbors[i];
            let n = state.attempted(id, plan).neighbors[i];
            let sf = plan.data_rate.spreading_factor;
            &&& before.id != id ==> n == before
            &&& before.id == id ==> {
                &&& n.id == before.id
                &&& n.last_seen == before.last_seen
                &&& n.neighbor_metric == before.neighbor_metric
                &&& n.parent == before.parent
                &&& n.reverse_delivery == before.reverse_delivery
                &&& n.forward_delivery == before.forward_delivery
                &&& n.toa == plan.toa
                &&& 7 <= sf <= 12 ==> n.sf == sf
                &&& sf < 7 ==> n.sf == 7
                &&& sf > 12 ==> n.sf == 12
            }
        }),
{
}

/// The outcome of a transmission changes the forward delivery and the data rate of
/// the neighbour that was sent to, and no other neighbour. Spreading factors outside of the
/// range from 7 to 12 count as the nearer bound. After a failure the link is one step slower,
/// unless it is the slowest; after a success it is one step faster where more than 95
/// hundredths arrive, unless it is the fastest.
pub proof fn outcome_moves_the_data_rate(
    state: RoutingView,
    id: [u8; 4],
    plan: TxPlan,
    success: bool,
    i: int,
)
    requires
        0 <= i < state.neighbors.len(),
    ensures
        state.sampled(id, plan, success).neighbors.len() == state.neighbors.len(),
        ({
            let before = state.neighbors[i];
            let n = state.sampled(id, plan, success).neighbors[i];
            let asked = plan.data_rate.spreading_factor as int;
            let sf = if asked < 7 {
                7
            } else if asked > 12 {
                12
            } else {
                asked
            };
            let good = single::less(
                single::quotient(single::integer(19), single::integer(20)),
                n.forward_delivery,
            );
            &&& before.id != id ==> n == before
            &&& before.id == id ==> {
                &&& n.id == before.id
                &&& n.last_seen == before.last_seen
                &&& n.neighbor_metric == before.neighbor_metric
                &&& n.parent == before.parent
                &&& n.reverse_delivery == before.reverse_delivery
                &&& !success && sf < 12 ==> n.sf == sf + 1
                &&& success && good && sf > 7 ==> n.sf == sf - 1
                &&& !success && sf == 12 ==> n.sf == sf
                &&& success && (!good || sf == 7) ==> n.sf == sf
                &&& n.sf == sf ==> n.toa == plan.toa
                &&& n.sf != sf ==> n.toa == ctp::toa_of_sf(n.sf)
            }
        }),
{
}

/// What no event of the routing changes: who the relay is and how it is set up.
/// Recording transmissions touches neither the route nor the timer.
pub proof fn settings_stay(
    state: RoutingView,
    id: [u8; 4],
    beacon: RoutingBeaconPayload,
    plan: TxPlan,
    success: bool,
    now: Instant,
)
    ensures
        forall|after: RoutingView|
            after == state.refreshed(now) || after == state.after_beacon(id, beacon, now) || after
                == state.attempted(id, plan) || after == state.sampled(id, plan, success) || after
                == state.restarted() || after == state.pulling() ==> {
                &&& (#[trigger] after.relay_id) == state.relay_id
                &&& after.border_gateway == state.border_gateway
                &&& after.config == state.config
                &&& after.base_rate == state.base_rate
                &&& after.trickle.min_interval == state.trickle.min_interval
                &&& after.trickle.max_interval == state.trickle.max_interval
            },
        state.attempted(id, plan).parent == state.parent,
        state.attempted(id, plan).path_metric == state.path_metric,
        state.attempted(id, plan).trickle == state.trickle,
        state.sampled(id, plan, success).parent == state.parent,
        state.sampled(id, plan, success).path_metric == state.path_metric,
        state.sampled(id, plan, success).trickle == state.trickle,
        state.noted(id, beacon, now).parent == state.parent,
        state.noted(id, beacon, now).path_metric == state.path_metric,
        state.recomputed(now).trickle == state.trickle,
        state.restarted().neighbors == state.neighbors,
        state.restarted().parent == state.parent,
        state.restarted().path_metric == state.path_metric,
        state.pulling().neighbors == state.neighbors,
        state.pulling().parent == state.parent,
        state.pulling().path_metric == state.path_metric,
{
}

/// Neighbours tell each other how well they are reached: what a relay has measured on
/// the way to a neighbour is, after its beacon, what the neighbour holds for the way
/// back, with the same spreading factor.
pub proof fn neighbors_learn_how_well_they_are_reached(
    sender: RoutingView,
    receiver: RoutingView,
    beacon: RoutingBeaconPayload,
    now: Instant,
    k: int,
)
    requires
        sender.wf(),
        0 <= k < sender.neighbors.len(),
        sender.neighbors[k].id == receiver.relay_id,
        ctp::ratio::is_ratio(sender.neighbors[k].forward_delivery),
        7 <= sender.neighbors[k].sf <= 12,
        beacon.neighbors@ == sender.neighbors.map_values(|n: NeighborState| n.as_entry()),
    ensures
        ({
            let noted = receiver.noted(sender.relay_id, beacon, now);
            exists|i: int|
                0 <= i < noted.neighbors.len() && {
                    let n = #[trigger] noted.neighbors[i];
                    &&& n.id == sender.relay_id
                    &&& n.reverse_delivery == sender.neighbors[k].forward_delivery
                    &&& n.sf == sender.neighbors[k].sf
                }
        }),
{
    assert forall|j: int| 0 <= j < k implies (#[trigger] beacon.neighbors@[j]).neighbor_id
        != receiver.relay_id by {
        assert(sender.neighbors[j].id != sender.neighbors[k].id);
    }
    assert(beacon.neighbors@[k] == sender.neighbors[k].as_entry());
    beacon_tells_how_well_the_sender_is_heard(receiver, sender.relay_id, beacon, now, k);
}

/// The beacon lists each neighbour with its identifier, with how well it is reached
/// from here, and with its spreading factor.
pub proof fn beacon_lists_the_neighbors(neighbor: NeighborState)
    ensures
        neighbor.as_entry().neighbor_id == neighbor.id,
        neighbor.as_entry().delivery == neighbor.forward_delivery,
        neighbor.as_entry().spreading_factor == neighbor.sf,
{
}

} // verus!
