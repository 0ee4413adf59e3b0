//! Beacons on their way into the mesh.
use crate::config::MeshConfig;
use crate::mesh::ctp;
use crate::mesh::ctp::toa_for_sf;
use crate::mesh::scheduler::ScheduledPacket;
use crate::mesh::scheduler::TxPlan;
use crate::mesh::scheduler::BEACON_FLOW_ID;
use crate::packets::Event;
use crate::packets::EventPayload;
use crate::packets::MeshPacket;
use crate::packets::Mhdr;
use crate::packets::Payload;
use crate::packets::PayloadType;
use crate::packets::RoutingBeaconPayload;
use crate::packets::Timestamp;
use vstd::prelude::*;

verus! {

/// The packet that carries a beacon. It has to be signed before it is queued.
pub fn beacon_packet(payload: RoutingBeaconPayload, relay_id: [u8; 4], timestamp: Timestamp) -> (res:
    MeshPacket)
    ensures
        res.mhdr == (Mhdr { payload_type: PayloadType::Event, hop_count: 1 }),
        res.mic is None,
        res.payload matches Payload::Event(pl) && {
            &&& pl.timestamp == timestamp
            &&& pl.relay_id == relay_id
            &&& pl.events@ == seq![Event::RoutingBeacon(payload)]
        },
{
    let mut events = Vec::new();
    events.push(Event::RoutingBeacon(payload));
    assert(events@ =~= seq![Event::RoutingBeacon(payload)]);
    MeshPacket {
        mhdr: Mhdr { payload_type: PayloadType::Event, hop_count: 1 },
        payload: Payload::Event(EventPayload { timestamp, relay_id, events }),
        mic: None,
    }
}

/// A signed beacon as it is queued: for everyone in reach, at the data rate of the
/// mesh, without an answer.
pub fn enqueue_beacon(packet: MeshPacket, conf: &MeshConfig) -> (res: ScheduledPacket)
    ensures
        res == (ScheduledPacket {
            packet,
            plan: TxPlan {
                data_rate: conf.data_rate,
                toa: ctp::toa_of_sf(conf.data_rate.spreading_factor),
            },
            flow_id: BEACON_FLOW_ID,
            next_hop: None,
            requires_ack: false,
        }),
{
    ScheduledPacket {
        packet,
        plan: TxPlan {
            data_rate: conf.data_rate,
            toa: toa_for_sf(conf.data_rate.spreading_factor),
        },
        flow_id: BEACON_FLOW_ID,
        next_hop: None,
        requires_ack: false,
    }
}

} // verus!
