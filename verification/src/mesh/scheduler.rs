//! The packets that wait to be sent, at most one for each flow.
use crate::config::DataRate;
use crate::config::MeshConfig;
use crate::frames::DownlinkFrame;
use crate::mesh;
use crate::mesh::ctp;
use crate::mesh::ctp::RoutingState;
use crate::mesh::get_mesh_frequency;
use crate::mesh::immediate_frame;
use crate::mesh::random_id;
use crate::mesh::Failure;
use crate::mesh::MeshError;
use crate::mesh::MeshState;
use crate::packets::MeshPacket;
use crate::relay;
use crate::relay::to_relay_number;
use crate::time::Duration;
use crate::time::Instant;
use std::collections::HashMap;
use std::collections::VecDeque;
use vstd::prelude::*;
use vstd::std_specs::hash::*;

verus! {

/// The flow of the beacons.
pub const BEACON_FLOW_ID: [u8; 4] = [0xff, 0xff, 0xff, 0xff];

/// How a frame is to be sent.
#[derive(Debug, Clone, Copy, PartialEq, Eq, Structural)]
pub struct TxPlan {
    pub data_rate: DataRate,
    pub toa: Duration,
}

/// A packet that waits to be sent.
#[derive(Debug)]
pub struct ScheduledPacket {
    pub packet: MeshPacket,
    pub plan: TxPlan,
    pub flow_id: [u8; 4],
    pub next_hop: Option<[u8; 4]>,
    pub requires_ack: bool,
}

#[derive(Debug)]
struct FlowQueue {
    pending: Option<ScheduledPacket>,
    scheduled: bool,
}

#[derive(Debug)]
pub struct SchedulerState {
    flows: HashMap<u32, FlowQueue>,
    order: VecDeque<[u8; 4]>,
}

/// The place of a flow in the queue.
pub open spec fn waits_at(queue: Seq<ScheduledPacket>, flow_id: [u8; 4], i: int) -> bool {
    0 <= i < queue.len() && queue[i].flow_id == flow_id
}

pub open spec fn waits(queue: Seq<ScheduledPacket>, flow_id: [u8; 4]) -> bool {
    exists|i: int| #[trigger] waits_at(queue, flow_id, i)
}

/// The queue after a packet came in: a packet of a flow that waits already takes
/// the place of the one before it.
pub open spec fn pushed(
    queue: Seq<ScheduledPacket>,
    packet: ScheduledPacket,
) -> Seq<ScheduledPacket> {
    if waits(queue, packet.flow_id) {
        queue.map_values(
            |p: ScheduledPacket|
                if p.flow_id == packet.flow_id {
                    packet
                } else {
                    p
                },
        )
    } else {
        queue.push(packet)
    }
}

/// No flow waits twice.
pub open spec fn one_per_flow(queue: Seq<ScheduledPacket>) -> bool {
    forall|i: int, j: int|
        0 <= i < j < queue.len() ==> (#[trigger] queue[i]).flow_id != (#[trigger] queue[j]).flow_id
}

impl SchedulerState {
    /// The packets in the order in which they will leave.
    pub closed spec fn view(&self) -> Seq<ScheduledPacket> {
        Seq::new(
            self.order@.len(),
            |i: int| self.flows@[relay::relay_number(self.order@[i]) as u32].pending->0,
        )
    }

    pub closed spec fn wf(&self) -> bool {
        &&& forall|i: int, j: int|
            0 <= i < j < self.order@.len() ==> (#[trigger] self.order@[i]) != (
            #[trigger] self.order@[j])
        &&& forall|i: int|
            0 <= i < self.order@.len() ==> {
                let number = relay::relay_number(#[trigger] self.order@[i]) as u32;
                &&& self.flows@.contains_key(number)
                &&& self.flows@[number].pending is Some
                &&& self.flows@[number].pending->0.flow_id == self.order@[i]
                &&& self.flows@[number].scheduled
            }
        &&& forall|number: u32| #[trigger]
            self.flows@.contains_key(number) ==> exists|i: int|
                0 <= i < self.order@.len() && relay::relay_number(#[trigger] self.order@[i])
                    == number
    }

    pub fn new() -> (state: Self)
        ensures
            state.wf(),
            state@ == Seq::<ScheduledPacket>::empty(),
    {
        let state = SchedulerState { flows: HashMap::new(), order: VecDeque::new() };
        assert(state@ =~= Seq::<ScheduledPacket>::empty());
        state
    }

    /// Queues a packet. Of each flow only the latest packet waits.
    pub fn push(&mut self, packet: ScheduledPacket)
        requires
            old(self).wf(),
        ensures
            final(self).wf(),
            final(self)@ == pushed(old(self)@, packet),
    {
        let flow_id = packet.flow_id;
        let number: u32 = to_relay_number(&flow_id);
        let ghost before = self@;
        proof {
            assert forall|id: [u8; 4]| #[trigger]
                relay::relay_number(id) as u32 == number implies id == flow_id by {
                relay::relay_number_is_injective(id, flow_id);
            }
        }
        let waiting = self.flows.contains_key(&number);
        self.flows.insert(number, FlowQueue { pending: Some(packet), scheduled: true });
        if waiting {
            proof {
                let i = choose|i: int|
                    0 <= i < self.order@.len() && relay::relay_number(#[trigger] self.order@[i])
                        == number;
                assert(waits_at(before, flow_id, i));
                assert forall|j: int| 0 <= j < before.len() implies self@[j] == pushed(
                    before,
                    packet,
                )[j] by {
                    assert(before[j].flow_id == self.order@[j]);
                }
            }
        } else {
            self.order.push_back(flow_id);
            proof {
                assert forall|i: int| 0 <= i < before.len() implies (
                #[trigger] before[i]).flow_id != flow_id by {
                    assert(before[i].flow_id == old(self).order@[i]);
                }
                assert(!waits(before, flow_id)) by {
                    if waits(before, flow_id) {
                        let i = choose|i: int| #[trigger] waits_at(before, flow_id, i);
                        assert(before[i].flow_id == flow_id);
                    }
                }
                assert forall|i: int| 0 <= i < before.len() implies self@[i] == before[i] by {
                    assert(self.order@[i] == old(self).order@[i]);
                    assert(before[i].flow_id == self.order@[i]);
                }
                assert forall|k: u32| #[trigger] self.flows@.contains_key(k) implies exists|i: int|
                    0 <= i < self.order@.len() && relay::relay_number(#[trigger] self.order@[i])
                        == k by {
                    if k == number {
                        assert(relay::relay_number(self.order@[before.len() as int]) == k);
                    } else {
                        let i = choose|i: int|
                            0 <= i < old(self).order@.len() && relay::relay_number(
                                #[trigger] old(self).order@[i],
                            ) == k;
                        assert(self.order@[i] == old(self).order@[i]);
                    }
                }
            }
        }
        assert(self@ =~= pushed(before, packet));
    }

    /// Takes the packet that has waited longest.
    pub fn pop_next(&mut self) -> (res: Option<ScheduledPacket>)
        requires
            old(self).wf(),
        ensures
            final(self).wf(),
            match res {
                Some(packet) => {
                    &&& old(self)@.len() > 0
                    &&& packet == old(self)@[0]
                    &&& final(self)@ == old(self)@.drop_first()
                },
                None => old(self)@.len() == 0 && final(self)@ == old(self)@,
            },
    {
        let ghost before = self@;
        match self.order.pop_front() {
            None => None,
            Some(flow_id) => {
                let number: u32 = to_relay_number(&flow_id);
                proof {
                    assert(old(self).order@[0] == flow_id);
                    assert forall|id: [u8; 4]| #[trigger]
                        relay::relay_number(id) as u32 == number implies id == flow_id by {
                        relay::relay_number_is_injective(id, flow_id);
                    }
                }
                let removed = self.flows.remove(&number);
                proof {
                    assert forall|i: int| 0 <= i < self.order@.len() implies self.order@[i]
                        == old(self).order@[i + 1] by {
                    }
                    assert forall|i: int| 0 <= i < self.order@.len() implies self@[i] == before[i
                        + 1] by {
                        assert(self.order@[i] == old(self).order@[i + 1]);
                        assert(old(self).order@[i + 1] != old(self).order@[0]);
                    }
                    assert forall|k: u32| #[trigger]
                        self.flows@.contains_key(k) implies exists|i: int|
                        0 <= i < self.order@.len() && relay::relay_number(#[trigger] self.order@[i])
                            == k by {
                        let i = choose|i: int|
                            0 <= i < old(self).order@.len() && relay::relay_number(
                                #[trigger] old(self).order@[i],
                            ) == k;
                        assert(self.order@[i - 1] == old(self).order@[i]);
                    }
                    assert(self@ =~= before.drop_first());
                }
                match removed {
                    Some(queue) => queue.pending,
                    None => None,
                }
            },
        }
    }
}

impl SchedulerState {
    /// No flow waits twice.
    pub proof fn no_flow_waits_twice(&self)
        requires
            self.wf(),
        ensures
            one_per_flow(self@),
    {
        assert forall|i: int, j: int| 0 <= i < j < self@.len() implies (
        #[trigger] self@[i]).flow_id != (#[trigger] self@[j]).flow_id by {
            assert(self@[i].flow_id == self.order@[i]);
            assert(self@[j].flow_id == self.order@[j]);
        }
    }
}

/// A packet that came in waits for its flow, in the place of the one before it or
/// at the end; the packets of the other flows keep their places.
pub proof fn latest_packet_waits(queue: Seq<ScheduledPacket>, packet: ScheduledPacket, i: int)
    requires
        0 <= i < pushed(queue, packet).len(),
    ensures
        waits(pushed(queue, packet), packet.flow_id),
        pushed(queue, packet)[i].flow_id == packet.flow_id ==> pushed(queue, packet)[i] == packet,
        i < queue.len() && queue[i].flow_id != packet.flow_id ==> pushed(queue, packet)[i]
            == queue[i],
        !waits(queue, packet.flow_id) ==> pushed(queue, packet).last() == packet,
{
    let after = pushed(queue, packet);
    if waits(queue, packet.flow_id) {
        let k = choose|k: int| #[trigger] waits_at(queue, packet.flow_id, k);
        assert(waits_at(after, packet.flow_id, k));
    } else {
        assert(waits_at(after, packet.flow_id, queue.len() as int));
        if waits_at(queue, packet.flow_id, i) {
            assert(waits(queue, packet.flow_id));
        }
    }
}

/// Queues a packet with what is needed to send it.
pub fn enqueue(
    state: &mut SchedulerState,
    packet: MeshPacket,
    plan: TxPlan,
    flow_id: [u8; 4],
    next_hop: Option<[u8; 4]>,
    requires_ack: bool,
)
    requires
        old(state).wf(),
    ensures
        final(state).wf(),
        final(state)@ == pushed(
            old(state)@,
            (ScheduledPacket { packet, plan, flow_id, next_hop, requires_ack }),
        ),
{
    state.push(ScheduledPacket { packet, plan, flow_id, next_hop, requires_ack });
}

/// The frame of a queued packet. `phy_payload` holds the bytes of the packet; a
/// frequency is used up for it even where they are missing.
pub fn packet_frame<M, E>(
    state: &mut MeshState,
    conf: &MeshConfig,
    downlink_id: u32,
    phy_payload: Result<Vec<u8>, E>,
    modulation: M,
) -> (res: Result<DownlinkFrame<M>, Failure<E>>)
    requires
        old(state).wf(),
    ensures
        final(state).wf(),
        final(state).last_uplink_id() == old(state).last_uplink_id(),
        final(state).stored() == old(state).stored(),
        ({
            let count = conf.frequencies@.len() as int;
            let channel = mesh::next_channel(old(state).last_channel() as int, count);
            if count == 0 {
                &&& final(state).last_channel() == old(state).last_channel()
                &&& res == Err::<DownlinkFrame<M>, Failure<E>>(
                    Failure::Mesh(MeshError::NoFrequencies),
                )
            } else {
                &&& final(state).last_channel() == channel
                &&& match phy_payload {
                    Err(e) => res == Err::<DownlinkFrame<M>, Failure<E>>(Failure::Service(e)),
                    Ok(bytes) => res is Ok && mesh::is_mesh_frame(
                        res->Ok_0,
                        downlink_id,
                        bytes@,
                        conf.frequencies@[channel],
                        conf.tx_power,
                        modulation,
                    ),
                }
            }
        }),
{
    let frequency: u32 = match get_mesh_frequency(state, conf) {
        Ok(frequency) => frequency,
        Err(e) => return Err(Failure::Mesh(e)),
    };
    match phy_payload {
        Ok(bytes) => Ok(immediate_frame(downlink_id, bytes, frequency, conf.tx_power, modulation)),
        Err(e) => Err(Failure::Service(e)),
    }
}

/// The frame of a queued packet, under an identifier of its own.
pub fn send_packet<M, E>(
    state: &mut MeshState,
    conf: &MeshConfig,
    phy_payload: Result<Vec<u8>, E>,
    modulation: M,
) -> (res: Result<DownlinkFrame<M>, Failure<E>>)
    requires
        old(state).wf(),
    ensures
        final(state).wf(),
        final(state).last_uplink_id() == old(state).last_uplink_id(),
        final(state).stored() == old(state).stored(),
        ({
            let count = conf.frequencies@.len() as int;
            let channel = mesh::next_channel(old(state).last_channel() as int, count);
            if count == 0 {
                &&& final(state).last_channel() == old(state).last_channel()
                &&& res == Err::<DownlinkFrame<M>, Failure<E>>(
                    Failure::Mesh(MeshError::NoFrequencies),
                )
            } else {
                &&& final(state).last_channel() == channel
                &&& match phy_payload {
                    Err(e) => res == Err::<DownlinkFrame<M>, Failure<E>>(Failure::Service(e)),
                    Ok(bytes) => res is Ok && mesh::is_mesh_frame(
                        res->Ok_0,
                        res->Ok_0.downlink_id,
                        bytes@,
                        conf.frequencies@[channel],
                        conf.tx_power,
                        modulation,
                    ),
                }
            }
        }),
{
    packet_frame(state, conf, random_id(), phy_payload, modulation)
}

/// What the worker knows of a packet that it took from the queue.
#[derive(Debug, Clone, Copy, PartialEq, Eq, Structural)]
pub enum TransmitEvent {
    Taken,
    /// Whether the frame was sent.
    Sent(bool),
}

/// What the worker does next with that packet.
#[derive(Debug, Clone, Copy, PartialEq, Eq, Structural)]
pub enum TransmitAction {
    Send,
    /// Keep silent for a random time, in proportion to the time on air.
    BackOff(Duration),
    Done,
    /// Report that the packet was not sent.
    Fail,
}

/// One step in sending a packet: the link to the next hop is told of the attempt
/// and of its outcome. Says also whether the beacon loop is to be woken.
pub fn transmit(
    routing: &mut RoutingState,
    plan: &TxPlan,
    next_hop: Option<[u8; 4]>,
    requires_ack: bool,
    event: TransmitEvent,
    now: Instant,
) -> (res: (TransmitAction, bool))
    requires
        old(routing)@.wf(),
    ensures
        final(routing)@.wf(),
        match event {
            TransmitEvent::Taken => {
                &&& res == (TransmitAction::Send, false)
                &&& final(routing)@ == match next_hop {
                    Some(parent) => old(routing)@.attempted(parent, *plan),
                    None => old(routing)@,
                }
            },
            TransmitEvent::Sent(sent) => {
                &&& res.0 == if !sent {
                    TransmitAction::Fail
                } else if requires_ack && plan.toa.nanos != 0 {
                    TransmitAction::BackOff(plan.toa)
                } else {
                    TransmitAction::Done
                }
                &&& match next_hop {
                    Some(parent) => {
                        let known = old(routing)@.sampled(parent, *plan, sent);
                        &&& final(routing)@ == known.refreshed(now)
                        &&& res.1 == known.parent_update(now).resets()
                    },
                    None => final(routing)@ == old(routing)@ && !res.1,
                }
            },
        },
{
    match event {
        TransmitEvent::Taken => {
            if let Some(parent) = next_hop {
                ctp::record_tx_attempt(routing, parent, plan);
            }
            (TransmitAction::Send, false)
        },
        TransmitEvent::Sent(sent) => {
            let notify = match next_hop {
                Some(parent) => ctp::record_tx_result(routing, parent, plan, sent, now),
                None => false,
            };
            let action = if !sent {
                TransmitAction::Fail
            } else if requires_ack && plan.toa.nanos != 0 {
                TransmitAction::BackOff(plan.toa)
            } else {
                TransmitAction::Done
            };
            (action, notify)
        },
    }
}

/// A packet takes a new place in the queue exactly where none of its flow waits.
pub proof fn queue_grows_by_new_flows(queue: Seq<ScheduledPacket>, packet: ScheduledPacket)
    ensures
        pushed(queue, packet).len() == queue.len() + if exists|i: int|
            0 <= i < queue.len() && (#[trigger] queue[i]).flow_id == packet.flow_id {
            0int
        } else {
            1
        },
{
    if waits(queue, packet.flow_id) {
        let i = choose|i: int| #[trigger] waits_at(queue, packet.flow_id, i);
        assert(queue[i].flow_id == packet.flow_id);
    } else if exists|i: int|
        0 <= i < queue.len() && (#[trigger] queue[i]).flow_id == packet.flow_id {
        let i = choose|i: int|
            0 <= i < queue.len() && (#[trigger] queue[i]).flow_id == packet.flow_id;
        assert(waits_at(queue, packet.flow_id, i));
    }
}

} // verus!
