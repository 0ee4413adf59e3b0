//! Mesh packets that a relay received, and what it does with them.
use crate::frames::UplinkFrame;
use crate::frames::UplinkRxInfo;
use crate::mesh;
use crate::mesh::ctp;
use crate::mesh::ctp::to_route_info;
use crate::mesh::ctp::RoutingDecision;
use crate::mesh::ctp::RoutingState;
use crate::mesh::ctp::RoutingView;
use crate::mesh::scheduler::ScheduledPacket;
use crate::mesh::MeshError;
use crate::narrow;
use crate::narrow::to_low_i16;
use crate::packets;
use crate::packets::CommandPayload;
use crate::packets::DownlinkPayload;
use crate::packets::Event;
use crate::packets::EventPayload;
use crate::packets::EventView;
use crate::packets::HeartbeatPayload;
use crate::packets::MeshPacket;
use crate::packets::Mhdr;
use crate::packets::Payload;
use crate::packets::RelayPath;
use crate::packets::UplinkPayload;
use crate::relay::same_relay;
use crate::single;
use crate::single::Single;
use crate::time::Instant;
use vstd::prelude::*;

verus! {

/// Why a packet goes no further.
#[derive(Debug, Clone, Copy, PartialEq, Eq, Structural)]
pub enum DropReason {
    /// This relay has sent it.
    Own,
    /// An uplink that names no parent.
    NoParentAssigned,
    /// An uplink that names another relay as the parent.
    OtherParent,
    /// An uplink of a child, while this relay has no parent itself.
    NoUpstream,
    /// Nothing but beacons was in it.
    NothingToForward,
}

/// What a relay does with a mesh packet.
#[derive(Debug)]
pub enum RelayAction {
    Drop(DropReason),
    /// Sign the packet and queue it.
    Forward(ScheduledPacket),
    /// Hand the downlink to its device.
    Deliver(DownlinkPayload),
    /// Execute the commands and answer with the events that they give.
    Execute(CommandPayload),
    /// Encrypt and sign the packet and send it once more. Its hop count is within
    /// the limit.
    Resend(MeshPacket),
}

/// The routing state after a look at the metric of a child.
pub open spec fn after_child_metric(state: RoutingView, child_metric: Single) -> RoutingView {
    if state.inconsistent(child_metric) {
        state.restarted()
    } else {
        state
    }
}

/// Why an uplink is dropped before the routing state is asked.
pub open spec fn uplink_drop(payload: UplinkPayload, relay_id: [u8; 4]) -> Option<DropReason> {
    if payload.relay_id == relay_id {
        Some(DropReason::Own)
    } else if payload.route.parent is None {
        Some(DropReason::NoParentAssigned)
    } else if payload.route.parent != Some(relay_id) {
        Some(DropReason::OtherParent)
    } else {
        None
    }
}

/// Whether `res` is what becomes of the uplink of a child, given the way on.
pub open spec fn forwards_uplink(
    res: Result<RelayAction, MeshError>,
    mhdr: Mhdr,
    mic: Option<[u8; 4]>,
    payload: UplinkPayload,
    decision: RoutingDecision,
    max_hop_count: u8,
) -> bool {
    if mhdr.hop_count + 1 > max_hop_count {
        res == Err::<RelayAction, MeshError>(MeshError::MaxHopCount)
    } else {
        res == Ok::<RelayAction, MeshError>(
            RelayAction::Forward(
                ScheduledPacket {
                    packet: MeshPacket {
                        mhdr: Mhdr { hop_count: (mhdr.hop_count + 1) as u8, ..mhdr },
                        payload: Payload::Uplink(
                            UplinkPayload { route: ctp::route_info(decision), ..payload },
                        ),
                        mic,
                    },
                    plan: mesh::scheduler::TxPlan {
                        data_rate: decision.data_rate,
                        toa: decision.toa,
                    },
                    flow_id: payload.relay_id,
                    next_hop: Some(decision.parent),
                    requires_ack: true,
                },
            ),
        )
    }
}

/// Takes an uplink on towards the root, where this relay is its parent. Says also
/// whether the beacon loop is to be woken. An uplink that cannot be taken on asks
/// the neighbours for beacons.
pub fn forward_uplink(
    mhdr: Mhdr,
    mic: Option<[u8; 4]>,
    payload: UplinkPayload,
    relay_id: [u8; 4],
    routing: &mut RoutingState,
    max_hop_count: u8,
    now: Instant,
) -> (res: (Result<RelayAction, MeshError>, bool))
    requires
        old(routing)@.wf(),
    ensures
        final(routing)@.wf(),
        match uplink_drop(payload, relay_id) {
            Some(reason) => {
                &&& res == (Ok::<RelayAction, MeshError>(RelayAction::Drop(reason)), false)
                &&& final(routing)@ == old(routing)@
            },
            None => {
                let seen = after_child_metric(old(routing)@, payload.route.path_metric);
                match seen.recomputed(now).decision() {
                    None => {
                        &&& res.0 == Ok::<RelayAction, MeshError>(
                            RelayAction::Drop(DropReason::NoUpstream),
                        )
                        &&& res.1
                        &&& final(routing)@ == seen.refreshed(now).pulling().restarted()
                    },
                    Some(decision) => {
                        &&& forwards_uplink(res.0, mhdr, mic, payload, decision, max_hop_count)
                        &&& res.1 == (old(routing)@.inconsistent(payload.route.path_metric)
                            || seen.parent_update(now).resets())
                        &&& final(routing)@ == seen.refreshed(now)
                    },
                }
            },
        },
{
    if same_relay(&payload.relay_id, &relay_id) {
        return (Ok(RelayAction::Drop(DropReason::Own)), false);
    }
    match &payload.route.parent {
        None => return (Ok(RelayAction::Drop(DropReason::NoParentAssigned)), false),
        Some(parent) => if !same_relay(parent, &relay_id) {
            return (Ok(RelayAction::Drop(DropReason::OtherParent)), false);
        },
    }
    let child_metric = payload.route.path_metric;
    let inconsistent = ctp::notify_inconsistency(routing, child_metric);
    let (decision, changed): (Option<RoutingDecision>, bool) = ctp::prepare_forward(
        routing,
        payload.relay_id,
        child_metric,
        now,
    );
    let decision = match decision {
        Some(decision) => decision,
        None => {
            ctp::notify_pull_request(routing);
            return (Ok(RelayAction::Drop(DropReason::NoUpstream)), true);
        },
    };
    let notify = inconsistent || changed;
    if mhdr.hop_count >= max_hop_count {
        return (Err(MeshError::MaxHopCount), notify);
    }
    let flow_id = payload.relay_id;
    let packet = MeshPacket {
        mhdr: Mhdr { payload_type: mhdr.payload_type, hop_count: mhdr.hop_count + 1 },
        payload: Payload::Uplink(
            UplinkPayload {
                metadata: payload.metadata,
                timestamp: payload.timestamp,
                relay_id: payload.relay_id,
                route: to_route_info(&decision),
                phy_payload: payload.phy_payload,
            },
        ),
        mic,
    };
    (
        Ok(
            RelayAction::Forward(
                ScheduledPacket {
                    packet,
                    plan: decision.plan(),
                    flow_id,
                    next_hop: Some(decision.parent),
                    requires_ack: true,
                },
            ),
        ),
        notify,
    )
}

/// The routing state after the beacons among the events of a relay.
pub open spec fn after_events(
    state: RoutingView,
    events: Seq<Event>,
    origin: [u8; 4],
    now: Instant,
) -> RoutingView
    decreases events.len(),
{
    if events.len() == 0 {
        state
    } else {
        let before = after_events(state, events.drop_last(), origin, now);
        match events.last() {
            Event::RoutingBeacon(beacon) => before.after_beacon(origin, beacon, now),
            _ => before,
        }
    }
}

/// Whether a beacon among the events of a relay restarts the timer.
pub open spec fn events_wake(
    state: RoutingView,
    events: Seq<Event>,
    origin: [u8; 4],
    now: Instant,
) -> bool
    decreases events.len(),
{
    events.len() > 0 && {
        let front = events.drop_last();
        ||| events_wake(state, front, origin, now)
        ||| events.last() matches Event::RoutingBeacon(beacon) && after_events(
            state,
            front,
            origin,
            now,
        ).beacon_resets(origin, beacon, now)
    }
}

/// The events of a packet as they are sent on: a relay adds itself to the path
/// of a heartbeat, and keeps the beacons to itself.
pub open spec fn passed_on(events: Seq<Event>, hop: RelayPath) -> Seq<EventView>
    decreases events.len(),
{
    if events.len() == 0 {
        Seq::empty()
    } else {
        let front = passed_on(events.drop_last(), hop);
        match events.last() {
            Event::Heartbeat(hb) => front.push(EventView::Heartbeat(hb.relay_path@.push(hop))),
            Event::RoutingBeacon(_) => front,
            _ => front.push(events.last()@),
        }
    }
}

/// This relay in the path of a heartbeat that it received.
pub open spec fn hop_of(relay_id: [u8; 4], rx_info: UplinkRxInfo) -> RelayPath {
    RelayPath {
        relay_id,
        rssi: narrow::low_i16(rx_info.rssi) as i16,
        snr: single::saturated(rx_info.snr, -128, 127) as i8,
    }
}

/// Takes in the beacons among events and gives the others as they are sent on.
/// Says also whether the beacon loop is to be woken.
pub fn pass_events_on(
    events: Vec<Event>,
    origin: [u8; 4],
    hop: RelayPath,
    routing: &mut RoutingState,
    now: Instant,
) -> (res: (Vec<Event>, bool))
    requires
        old(routing)@.wf(),
    ensures
        final(routing)@.wf(),
        final(routing)@ == after_events(old(routing)@, events@, origin, now),
        packets::event_views(res.0@) == passed_on(events@, hop),
        res.1 == events_wake(old(routing)@, events@, origin, now),
{
    let ghost all = events@;
    let ghost start = routing@;
    let mut rest = events;
    let mut kept: Vec<Event> = Vec::new();
    let mut notify = false;
    let ghost mut i: int = 0;
    proof {
        assert(all.skip(0) =~= all);
        assert(packets::event_views(kept@) =~= passed_on(all.take(0), hop));
        assert(all.take(0).len() == 0);
    }
    while rest.len() > 0
        invariant
            0 <= i <= all.len(),
            rest@ == all.skip(i),
            routing@.wf(),
            routing@ == after_events(start, all.take(i), origin, now),
            packets::event_views(kept@) == passed_on(all.take(i), hop),
            notify == events_wake(start, all.take(i), origin, now),
        decreases rest@.len(),
    {
        let ghost before = kept@;
        proof {
            assert(all.take(i + 1).drop_last() =~= all.take(i));
            assert(all.take(i + 1).last() == all[i]);
            assert(all.skip(i).remove(0) =~= all.skip(i + 1));
        }
        let event = rest.remove(0);
        match event {
            Event::Heartbeat(hb) => {
                let mut relay_path = hb.relay_path;
                relay_path.push(hop);
                let longer = Event::Heartbeat(HeartbeatPayload { relay_path });
                kept.push(longer);
                assert(packets::event_views(kept@) =~= packets::event_views(before).push(longer@));
            },
            Event::RoutingBeacon(beacon) => {
                let woken = ctp::handle_beacon(routing, origin, &beacon, now);
                notify = notify || woken;
            },
            other => {
                kept.push(other);
                assert(packets::event_views(kept@) =~= packets::event_views(before).push(other@));
            },
        }
        proof {
            i = i + 1;
        }
    }
    assert(all.take(all.len() as int) =~= all);
    (kept, notify)
}

/// Whether `res` sends a packet once more, with one more hop, or fails where that
/// is one hop too many.
pub open spec fn resends(
    res: Result<RelayAction, MeshError>,
    mhdr: Mhdr,
    mic: Option<[u8; 4]>,
    payload: Payload,
    max_hop_count: u8,
) -> bool {
    if mhdr.hop_count + 1 > max_hop_count {
        res == Err::<RelayAction, MeshError>(MeshError::MaxHopCount)
    } else {
        res == Ok::<RelayAction, MeshError>(
            RelayAction::Resend(
                MeshPacket {
                    mhdr: Mhdr { hop_count: (mhdr.hop_count + 1) as u8, ..mhdr },
                    payload,
                    mic,
                },
            ),
        )
    }
}

fn resend(mhdr: Mhdr, mic: Option<[u8; 4]>, payload: Payload, max_hop_count: u8) -> (res: Result<
    RelayAction,
    MeshError,
>)
    ensures
        resends(res, mhdr, mic, payload, max_hop_count),
{
    if mhdr.hop_count >= max_hop_count {
        return Err(MeshError::MaxHopCount);
    }
    Ok(
        RelayAction::Resend(
            MeshPacket {
                mhdr: Mhdr { payload_type: mhdr.payload_type, hop_count: mhdr.hop_count + 1 },
                payload,
                mic,
            },
        ),
    )
}

/// Whether `res` is what becomes of the events of another relay.
pub open spec fn resends_events(
    res: Result<RelayAction, MeshError>,
    mhdr: Mhdr,
    mic: Option<[u8; 4]>,
    payload: EventPayload,
    hop: RelayPath,
    max_hop_count: u8,
) -> bool {
    if passed_on(payload.events@, hop).len() == 0 {
        res == Ok::<RelayAction, MeshError>(RelayAction::Drop(DropReason::NothingToForward))
    } else {
        exists|events: Vec<Event>|
            #![trigger packets::event_views(events@)]
            {
                &&& packets::event_views(events@) == passed_on(payload.events@, hop)
                &&& resends(
                    res,
                    mhdr,
                    mic,
                    Payload::Event(EventPayload { events, ..payload }),
                    max_hop_count,
                )
            }
    }
}

/// What a relay does with a mesh packet, and whether its beacon loop is to be
/// woken. Uplinks climb along the parents; everything else floods the mesh until
/// it reaches its relay.
pub fn relay_mesh_packet<M>(
    frame: &UplinkFrame<M>,
    packet: MeshPacket,
    relay_id: [u8; 4],
    routing: &mut RoutingState,
    max_hop_count: u8,
    now: Instant,
) -> (res: (Result<RelayAction, MeshError>, bool))
    requires
        old(routing)@.wf(),
    ensures
        final(routing)@.wf(),
        frame.rx_info is None ==> {
            &&& res == (Err::<RelayAction, MeshError>(MeshError::MissingRxInfo), false)
            &&& final(routing)@ == old(routing)@
        },
        frame.rx_info matches Some(rx_info) ==> match packet.payload {
            Payload::Uplink(payload) => match uplink_drop(payload, relay_id) {
                Some(reason) => {
                    &&& res == (Ok::<RelayAction, MeshError>(RelayAction::Drop(reason)), false)
                    &&& final(routing)@ == old(routing)@
                },
                None => {
                    let seen = after_child_metric(old(routing)@, payload.route.path_metric);
                    match seen.recomputed(now).decision() {
                        None => {
                            &&& res.0 == Ok::<RelayAction, MeshError>(
                                RelayAction::Drop(DropReason::NoUpstream),
                            )
                            &&& res.1
                            &&& final(routing)@ == seen.refreshed(now).pulling().restarted()
                        },
                        Some(decision) => {
                            &&& forwards_uplink(
                                res.0,
                                packet.mhdr,
                                packet.mic,
                                payload,
                                decision,
                                max_hop_count,
                            )
                            &&& res.1 == (old(routing)@.inconsistent(payload.route.path_metric)
                                || seen.parent_update(now).resets())
                            &&& final(routing)@ == seen.refreshed(now)
                        },
                    }
                },
            },
            Payload::Downlink(payload) => {
                &&& !res.1
                &&& final(routing)@ == old(routing)@
                &&& if payload.relay_id == relay_id {
                    res.0 == Ok::<RelayAction, MeshError>(RelayAction::Deliver(payload))
                } else {
                    resends(res.0, packet.mhdr, packet.mic, packet.payload, max_hop_count)
                }
            },
            Payload::Event(payload) => if payload.relay_id == relay_id {
                &&& res == (Ok::<RelayAction, MeshError>(RelayAction::Drop(DropReason::Own)), false)
                &&& final(routing)@ == old(routing)@
            } else {
                &&& resends_events(
                    res.0,
                    packet.mhdr,
                    packet.mic,
                    payload,
                    hop_of(relay_id, rx_info),
                    max_hop_count,
                )
                &&& res.1 == events_wake(old(routing)@, payload.events@, payload.relay_id, now)
                &&& final(routing)@ == after_events(
                    old(routing)@,
                    payload.events@,
                    payload.relay_id,
                    now,
                )
            },
            Payload::Command(payload) => {
                &&& !res.1
                &&& final(routing)@ == old(routing)@
                &&& if payload.relay_id == relay_id {
                    res.0 == Ok::<RelayAction, MeshError>(RelayAction::Execute(payload))
                } else {
                    resends(res.0, packet.mhdr, packet.mic, packet.payload, max_hop_count)
                }
            },
        },
{
    let rx_info = match &frame.rx_info {
        Some(rx_info) => rx_info,
        None => return (Err(MeshError::MissingRxInfo), false),
    };
    let mhdr = packet.mhdr;
    let mic = packet.mic;
    match packet.payload {
        Payload::Uplink(payload) => forward_uplink(
            mhdr,
            mic,
            payload,
            relay_id,
            routing,
            max_hop_count,
            now,
        ),
        Payload::Downlink(payload) => {
            if same_relay(&payload.relay_id, &relay_id) {
                return (Ok(RelayAction::Deliver(payload)), false);
            }
            (resend(mhdr, mic, Payload::Downlink(payload), max_hop_count), false)
        },
        Payload::Event(payload) => {
            if same_relay(&payload.relay_id, &relay_id) {
                return (Ok(RelayAction::Drop(DropReason::Own)), false);
            }
            let hop = RelayPath {
                relay_id,
                rssi: to_low_i16(rx_info.rssi),
                snr: rx_info.snr.to_i8(),
            };
            let origin = payload.relay_id;
            let timestamp = payload.timestamp;
            let (events, notify): (Vec<Event>, bool) = pass_events_on(
                payload.events,
                origin,
                hop,
                routing,
                now,
            );
            assert(packets::event_views(events@).len() == events@.len());
            if events.len() == 0 {
                return (Ok(RelayAction::Drop(DropReason::NothingToForward)), notify);
            }
            let res = resend(
                mhdr,
                mic,
                Payload::Event(EventPayload { timestamp, relay_id: origin, events }),
                max_hop_count,
            );
            (res, notify)
        },
        Payload::Command(payload) => {
            if same_relay(&payload.relay_id, &relay_id) {
                return (Ok(RelayAction::Execute(payload)), false);
            }
            (resend(mhdr, mic, Payload::Command(payload), max_hop_count), false)
        },
    }
}

/// A forwarded uplink keeps its origin and its content, takes one hop more and
/// stays within the allowed number of hops. It tells the way that it takes from here, and
/// is sent as that way asks for.
pub proof fn forwarding_keeps_the_uplink(
    res: Result<RelayAction, MeshError>,
    mhdr: Mhdr,
    mic: Option<[u8; 4]>,
    payload: UplinkPayload,
    decision: RoutingDecision,
    max_hop_count: u8,
)
    requires
        forwards_uplink(res, mhdr, mic, payload, decision, max_hop_count),
    ensures
        res is Ok <==> mhdr.hop_count < max_hop_count,
        res is Err ==> res == Err::<RelayAction, MeshError>(MeshError::MaxHopCount),
        res is Ok ==> (res->Ok_0 matches RelayAction::Forward(queued) && {
            &&& queued.packet.mhdr.hop_count == mhdr.hop_count + 1
            &&& queued.packet.mhdr.hop_count <= max_hop_count
            &&& queued.packet.mhdr.payload_type == mhdr.payload_type
            &&& queued.packet.mic == mic
            &&& queued.packet.payload matches Payload::Uplink(new) && {
                &&& new.relay_id == payload.relay_id
                &&& new.metadata == payload.metadata
                &&& new.timestamp == payload.timestamp
                &&& new.phy_payload == payload.phy_payload
                &&& new.route.parent == Some(decision.parent)
                &&& new.route.path_metric == decision.path_metric
                &&& new.route.link_metric == decision.link_metric
            }
            &&& queued.next_hop == Some(decision.parent)
            &&& queued.flow_id == payload.relay_id
            &&& queued.plan.data_rate == decision.data_rate
            &&& queued.plan.toa == decision.toa
            &&& queued.requires_ack
        }),
{
}

/// A packet that is sent once more takes one hop more and is otherwise the same.
pub proof fn resending_counts_the_hop(
    res: Result<RelayAction, MeshError>,
    mhdr: Mhdr,
    mic: Option<[u8; 4]>,
    payload: Payload,
    max_hop_count: u8,
)
    requires
        resends(res, mhdr, mic, payload, max_hop_count),
        res is Ok,
    ensures
        res->Ok_0 matches RelayAction::Resend(packet) && {
            &&& packet.mhdr.hop_count == mhdr.hop_count + 1
            &&& packet.mhdr.payload_type == mhdr.payload_type
            &&& packet.payload == payload
            &&& packet.mic == mic
        },
{
}

/// No flooded packet leaves a relay above the hop limit: one that has used up its
/// hops is refused, whatever it carries.
pub proof fn flooding_stays_within_the_limit(
    res: Result<RelayAction, MeshError>,
    mhdr: Mhdr,
    mic: Option<[u8; 4]>,
    payload: Payload,
    events: EventPayload,
    hop: RelayPath,
    max_hop_count: u8,
)
    requires
        resends(res, mhdr, mic, payload, max_hop_count) || resends_events(
            res,
            mhdr,
            mic,
            events,
            hop,
            max_hop_count,
        ),
    ensures
        res matches Ok(RelayAction::Resend(packet)) ==> packet.mhdr.hop_count <= max_hop_count,
        mhdr.hop_count >= max_hop_count ==> !(res matches Ok(RelayAction::Resend(_))),
        res is Err <==> res == Err::<RelayAction, MeshError>(MeshError::MaxHopCount),
{
}

/// Beacons stay in reach of their sender: none is sent on. Every other event is.
pub proof fn beacons_are_not_passed_on(events: Seq<Event>, hop: RelayPath)
    ensures
        forall|i: int|
            0 <= i < passed_on(events, hop).len() ==> !((#[trigger] passed_on(
                events,
                hop,
            )[i]) is RoutingBeacon),
        passed_on(events, hop).len() == events.filter(|e: Event| !(e is RoutingBeacon)).len(),
    decreases events.len(),
{
    reveal(Seq::filter);
    if events.len() > 0 {
        beacons_are_not_passed_on(events.drop_last(), hop);
    }
}

/// Only a beacon changes the routing state.
pub proof fn other_events_leave_the_routes_alone(
    state: RoutingView,
    events: Seq<Event>,
    origin: [u8; 4],
    now: Instant,
)
    requires
        forall|i: int| 0 <= i < events.len() ==> !((#[trigger] events[i]) is RoutingBeacon),
    ensures
        after_events(state, events, origin, now) == state,
        !events_wake(state, events, origin, now),
    decreases events.len(),
{
    if events.len() > 0 {
        assert(!(events[events.len() - 1] is RoutingBeacon));
        assert forall|i: int| 0 <= i < events.drop_last().len() implies !((
        #[trigger] events.drop_last()[i]) is RoutingBeacon) by {
            assert(events.drop_last()[i] == events[i]);
        }
        other_events_leave_the_routes_alone(state, events.drop_last(), origin, now);
    }
}

/// An uplink is taken on by the relay that it names as its parent and by no other; a relay
/// never takes on its own.
pub proof fn only_the_parent_takes_an_uplink_on(payload: UplinkPayload, relay_id: [u8; 4])
    ensures
        uplink_drop(payload, relay_id) is None <==> payload.relay_id != relay_id
            && payload.route.parent == Some(relay_id),
        payload.relay_id == relay_id <==> uplink_drop(payload, relay_id) == Some(DropReason::Own),
        payload.relay_id != relay_id && payload.route.parent is None <==> uplink_drop(
            payload,
            relay_id,
        ) == Some(DropReason::NoParentAssigned),
{
}

/// Events are taken in turn: a list of events does what its first part and then the rest
/// do, to the routing state and to what is sent on.
pub proof fn events_are_taken_in_turn(
    state: RoutingView,
    first: Seq<Event>,
    rest: Seq<Event>,
    origin: [u8; 4],
    hop: RelayPath,
    now: Instant,
)
    ensures
        after_events(state, first + rest, origin, now) == after_events(
            after_events(state, first, origin, now),
            rest,
            origin,
            now,
        ),
        events_wake(state, first + rest, origin, now) == (events_wake(state, first, origin, now)
            || events_wake(after_events(state, first, origin, now), rest, origin, now)),
        passed_on(first + rest, hop) == passed_on(first, hop) + passed_on(rest, hop),
    decreases rest.len(),
{
    if rest.len() == 0 {
        assert(first + rest =~= first);
        assert(passed_on(first, hop) + passed_on(rest, hop) =~= passed_on(first, hop));
    } else {
        let front = rest.drop_last();
        events_are_taken_in_turn(state, first, front, origin, hop, now);
        assert((first + rest).drop_last() =~= first + front);
        assert((first + rest).last() == rest.last());
        assert(passed_on(first + rest, hop) =~= passed_on(first, hop) + passed_on(rest, hop));
    }
}

/// What one event does: a beacon is taken in, wakes the loop where it restarts the timer, and
/// goes no further. A heartbeat is sent on with this relay at the end of its path. Any
/// other event is sent on as it is, and neither changes the routing state.
pub proof fn one_event_is_taken(
    state: RoutingView,
    event: Event,
    origin: [u8; 4],
    hop: RelayPath,
    now: Instant,
)
    ensures
        ({
            let after = after_events(state, seq![event], origin, now);
            let sent = passed_on(seq![event], hop);
            let wakes = events_wake(state, seq![event], origin, now);
            match event {
                Event::RoutingBeacon(beacon) => {
                    &&& after == state.after_beacon(origin, beacon, now)
                    &&& wakes == state.beacon_resets(origin, beacon, now)
                    &&& sent.len() == 0
                },
                Event::Heartbeat(hb) => {
                    &&& after == state && !wakes
                    &&& sent.len() == 1
                    &&& sent[0] matches EventView::Heartbeat(path) && {
                        &&& path.len() == hb.relay_path@.len() + 1
                        &&& path.drop_last() == hb.relay_path@
                        &&& path.last() == hop
                    }
                },
                _ => {
                    &&& after == state && !wakes
                    &&& sent == seq![event@]
                },
            }
        }),
{
    let one = seq![event];
    assert(one.drop_last() =~= Seq::<Event>::empty());
    assert(one.last() == event);
    reveal_with_fuel(after_events, 2);
    reveal_with_fuel(events_wake, 2);
    reveal_with_fuel(passed_on, 2);
    match event {
        Event::Heartbeat(hb) => {
            assert(hb.relay_path@.push(hop).drop_last() =~= hb.relay_path@);
        },
        Event::RoutingBeacon(_) => {},
        _ => {
            assert(passed_on(one, hop) =~= seq![event@]);
        },
    }
}

/// A relay tells in the path of a heartbeat who it is and how it received the heartbeat:
/// the signal strength as it is where 16 bits hold it.
pub proof fn hop_tells_the_reception(relay_id: [u8; 4], rx_info: UplinkRxInfo)
    ensures
        hop_of(relay_id, rx_info).relay_id == relay_id,
        -0x8000 <= rx_info.rssi < 0x8000 ==> hop_of(relay_id, rx_info).rssi == rx_info.rssi,
        hop_of(relay_id, rx_info).snr == single::saturated(rx_info.snr, -128, 127),
{
    narrow::cut_numbers_are_congruent(rx_info.rssi, 0);
}

} // verus!
