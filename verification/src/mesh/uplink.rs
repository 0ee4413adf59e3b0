//! LoRaWAN uplinks that a relay sends into the mesh.
use crate::frames::UplinkFrame;
use crate::frames::UplinkRxInfo;
use crate::mesh;
use crate::mesh::ctp;
use crate::mesh::ctp::to_route_info;
use crate::mesh::ctp::RoutingDecision;
use crate::mesh::ctp::RoutingState;
use crate::mesh::scheduler::ScheduledPacket;
use crate::mesh::store_uplink_context;
use crate::mesh::MeshError;
use crate::mesh::MeshState;
use crate::narrow;
use crate::narrow::to_low_i16;
use crate::packets::MeshPacket;
use crate::packets::Mhdr;
use crate::packets::Payload;
use crate::packets::PayloadType;
use crate::packets::UplinkMetadata;
use crate::packets::UplinkPayload;
use crate::single;
use crate::time::Instant;
use vstd::prelude::*;
use vstd::slice::slice_to_vec;

verus! {

/// What is missing in an uplink that is to be relayed.
pub open spec fn uplink_gap<M>(frame: UplinkFrame<M>) -> Option<MeshError> {
    if frame.rx_info is None {
        Some(MeshError::MissingRxInfo)
    } else if frame.tx_info is None {
        Some(MeshError::MissingTxInfo)
    } else if frame.tx_info->0.modulation is None {
        Some(MeshError::MissingModulation)
    } else {
        None
    }
}

pub fn check_uplink<M>(frame: &UplinkFrame<M>) -> (res: Result<(), MeshError>)
    ensures
        res == match uplink_gap(*frame) {
            Some(e) => Err(e),
            None => Ok(()),
        },
{
    if frame.rx_info.is_none() {
        return Err(MeshError::MissingRxInfo);
    }
    match &frame.tx_info {
        None => Err(MeshError::MissingTxInfo),
        Some(tx_info) => if tx_info.modulation.is_none() {
            Err(MeshError::MissingModulation)
        } else {
            Ok(())
        },
    }
}

/// The route of an uplink that this relay received, and whether the beacon loop
/// is to be woken. A relay without a parent asks its neighbours for beacons.
pub fn route_uplink<M>(frame: &UplinkFrame<M>, routing: &mut RoutingState, now: Instant) -> (res: (
    Result<Option<RoutingDecision>, MeshError>,
    bool,
))
    requires
        old(routing)@.wf(),
    ensures
        final(routing)@.wf(),
        match uplink_gap(*frame) {
            Some(e) => {
                &&& res == (Err::<Option<RoutingDecision>, MeshError>(e), false)
                &&& final(routing)@ == old(routing)@
            },
            None => {
                let decision = old(routing)@.recomputed(now).decision();
                &&& res.0 == Ok::<Option<RoutingDecision>, MeshError>(decision)
                &&& res.1 == (decision is None || old(routing)@.parent_update(now).resets())
                &&& final(routing)@ == if decision is None {
                    old(routing)@.refreshed(now).pulling().restarted()
                } else {
                    old(routing)@.refreshed(now)
                }
            },
        },
{
    match check_uplink(frame) {
        Err(e) => (Err(e), false),
        Ok(()) => {
            let (decision, notify): (Option<RoutingDecision>, bool) = ctp::prepare_uplink(
                routing,
                now,
            );
            match decision {
                Some(decision) => (Ok(Some(decision)), notify),
                None => {
                    ctp::notify_pull_request(routing);
                    (Ok(None), true)
                },
            }
        },
    }
}

/// The metadata of an uplink as it is sent into the mesh.
pub open spec fn uplink_metadata(
    uplink_id: u16,
    dr: u8,
    channel: u8,
    rssi: i32,
    snr: single::Single,
) -> UplinkMetadata {
    UplinkMetadata {
        uplink_id,
        dr,
        channel,
        rssi: narrow::low_i16(rssi) as i16,
        snr: single::saturated(snr, -128, 127) as i8,
    }
}

/// The packet that carries an uplink into the mesh. `dr` and `channel` are the
/// codes of its modulation and its frequency. The context of the uplink is kept
/// here, under the identifier that the packet carries, even where a code is
/// missing.
pub fn relay_uplink_lora_packet<E>(
    state: &mut MeshState,
    rx_info: &UplinkRxInfo,
    phy_payload: &[u8],
    decision: &RoutingDecision,
    relay_id: [u8; 4],
    dr: Result<u8, E>,
    channel: Result<u8, E>,
    timestamp: u32,
) -> (res: Result<MeshPacket, E>)
    requires
        old(state).wf(),
    ensures
        final(state).wf(),
        ({
            let uplink_id = mesh::next_uplink_id(old(state).last_uplink_id());
            &&& final(state).last_uplink_id() == uplink_id
            &&& final(state).last_channel() == old(state).last_channel()
            &&& final(state).stored() == old(state).stored().insert(uplink_id, rx_info.context@)
            &&& match res {
                Ok(packet) => {
                    &&& dr is Ok
                    &&& channel is Ok
                    &&& packet.mhdr == (Mhdr { payload_type: PayloadType::Uplink, hop_count: 1 })
                    &&& packet.mic is None
                    &&& packet.payload matches Payload::Uplink(pl) && {
                        &&& pl.metadata == uplink_metadata(
                            uplink_id,
                            dr->Ok_0,
                            channel->Ok_0,
                            rx_info.rssi,
                            rx_info.snr,
                        )
                        &&& pl.timestamp == timestamp
                        &&& pl.relay_id == relay_id
                        &&& pl.route == ctp::route_info(*decision)
                        &&& pl.phy_payload@ == phy_payload@
                    }
                },
                Err(e) => match dr {
                    Err(d) => e == d,
                    Ok(_) => channel == Err::<u8, E>(e),
                },
            }
        }),
{
    let uplink_id: u16 = store_uplink_context(state, rx_info.context.as_slice());
    let dr: u8 = match dr {
        Ok(dr) => dr,
        Err(e) => return Err(e),
    };
    let channel: u8 = match channel {
        Ok(channel) => channel,
        Err(e) => return Err(e),
    };
    Ok(
        MeshPacket {
            mhdr: Mhdr { payload_type: PayloadType::Uplink, hop_count: 1 },
            payload: Payload::Uplink(
                UplinkPayload {
                    metadata: UplinkMetadata {
                        uplink_id,
                        dr,
                        channel,
                        rssi: to_low_i16(rx_info.rssi),
                        snr: rx_info.snr.to_i8(),
                    },
                    timestamp,
                    relay_id,
                    route: to_route_info(decision),
                    phy_payload: slice_to_vec(phy_payload),
                },
            ),
            mic: None,
        },
    )
}

/// A signed uplink of this relay as it is queued: in the relay's own flow,
/// towards the parent.
pub fn schedule_uplink(packet: MeshPacket, decision: &RoutingDecision, relay_id: [u8; 4]) -> (res:
    ScheduledPacket)
    ensures
        res == (ScheduledPacket {
            packet,
            plan: mesh::scheduler::TxPlan { data_rate: decision.data_rate, toa: decision.toa },
            flow_id: relay_id,
            next_hop: Some(decision.parent),
            requires_ack: true,
        }),
{
    ScheduledPacket {
        packet,
        plan: decision.plan(),
        flow_id: relay_id,
        next_hop: Some(decision.parent),
        requires_ack: true,
    }
}

/// The metadata of an uplink hold its identifier and the codes of its data rate and channel,
/// the signal strength as it is where 16 bits hold it, and the signal-to-noise ratio
/// without its fraction.
pub proof fn metadata_tell_the_reception(
    uplink_id: u16,
    dr: u8,
    channel: u8,
    rssi: i32,
    snr: single::Single,
)
    ensures
        ({
            let told = uplink_metadata(uplink_id, dr, channel, rssi, snr);
            &&& told.uplink_id == uplink_id
            &&& told.dr == dr
            &&& told.channel == channel
            &&& -0x8000 <= rssi < 0x8000 ==> told.rssi == rssi
            &&& told.snr == single::saturated(snr, -128, 127)
        }),
{
    narrow::cut_numbers_are_congruent(rssi, 0);
}

/// An uplink can be relayed exactly where it tells how it was received and how it was sent,
/// with its modulation.
pub proof fn complete_uplinks_are_relayed<M>(frame: UplinkFrame<M>)
    ensures
        uplink_gap(frame) is None <==> frame.rx_info is Some && (frame.tx_info matches Some(tx)
            && tx.modulation is Some),
        frame.rx_info is None <==> uplink_gap(frame) == Some(MeshError::MissingRxInfo),
{
}

} // verus!
