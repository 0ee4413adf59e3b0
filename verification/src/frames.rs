//! The frames that a gateway exchanges with its packet forwarder and with the
//! network server. The modulation is carried along without being read.
use crate::metadata::Metadata;
use crate::packets::Timestamp;
use crate::single::Single;
use vstd::prelude::*;

verus! {

/// A frame that the gateway received.
pub struct UplinkFrame<M> {
    pub phy_payload: Vec<u8>,
    pub tx_info: Option<UplinkTxInfo<M>>,
    pub rx_info: Option<UplinkRxInfo>,
}

pub struct UplinkTxInfo<M> {
    pub frequency: u32,
    pub modulation: Option<M>,
}

pub struct UplinkRxInfo {
    pub gateway_id: String,
    pub uplink_id: u32,
    pub rssi: i32,
    pub snr: Single,
    pub context: Vec<u8>,
    pub metadata: Metadata,
}

/// A frame that the gateway is to send. The items are alternatives.
pub struct DownlinkFrame<M> {
    pub downlink_id: u32,
    pub gateway_id: String,
    pub items: Vec<DownlinkFrameItem<M>>,
}

pub struct DownlinkFrameItem<M> {
    pub phy_payload: Vec<u8>,
    pub tx_info: Option<DownlinkTxInfo<M>>,
}

pub struct DownlinkTxInfo<M> {
    pub frequency: u32,
    pub power: i32,
    pub modulation: Option<M>,
    pub timing: Option<Timing>,
    pub context: Vec<u8>,
}

/// When a frame is to be sent.
#[derive(Debug, Clone, Copy, PartialEq, Eq)]
pub enum Timing {
    Unset,
    Immediately,
    /// So many seconds after the uplink, where that is given.
    Delay(Option<i64>),
    GpsEpoch,
}

/// What became of an item of a downlink frame.
#[derive(Debug, Clone, Copy, PartialEq, Eq, Structural)]
pub enum TxAckStatus {
    Ignored,
    Success,
    InternalError,
}

pub struct DownlinkTxAck {
    pub gateway_id: String,
    pub downlink_id: u32,
    pub items: Vec<TxAckStatus>,
}

/// Commands for a relay. An item without a command is passed over.
pub struct MeshCommand {
    pub relay_id: String,
    pub commands: Vec<Option<ProprietaryCommand>>,
}

pub struct ProprietaryCommand {
    pub command_type: u32,
    pub payload: Vec<u8>,
}

/// Events of a relay.
pub struct MeshEvent {
    pub gateway_id: String,
    pub relay_id: String,
    pub time: Timestamp,
    pub events: Vec<MeshEventItem>,
}

pub enum MeshEventItem {
    Heartbeat(Vec<HeartbeatRelayPath>),
    Proprietary(u32, Vec<u8>),
}

pub struct HeartbeatRelayPath {
    pub relay_id: String,
    pub rssi: i32,
    pub snr: i32,
}

/// The content of a heartbeat's path.
pub struct HeartbeatRelayPathView {
    pub relay_id: Seq<char>,
    pub rssi: i32,
    pub snr: i32,
}

/// The content of an event.
pub enum MeshEventItemView {
    Heartbeat(Seq<HeartbeatRelayPathView>),
    Proprietary(u32, Seq<u8>),
}

impl HeartbeatRelayPath {
    pub open spec fn view(&self) -> HeartbeatRelayPathView {
        HeartbeatRelayPathView { relay_id: self.relay_id@, rssi: self.rssi, snr: self.snr }
    }
}

/// The contents of a heartbeat's path, relay by relay.
pub open spec fn path_views(path: Seq<HeartbeatRelayPath>) -> Seq<HeartbeatRelayPathView> {
    path.map_values(|p: HeartbeatRelayPath| p@)
}

impl MeshEventItem {
    pub open spec fn view(&self) -> MeshEventItemView {
        match *self {
            MeshEventItem::Heartbeat(path) => MeshEventItemView::Heartbeat(path_views(path@)),
            MeshEventItem::Proprietary(kind, payload) => MeshEventItemView::Proprietary(
                kind,
                payload@,
            ),
        }
    }
}

/// The contents of a list of events.
pub open spec fn item_views(events: Seq<MeshEventItem>) -> Seq<MeshEventItemView> {
    events.map_values(|e: MeshEventItem| e@)
}

} // verus!
