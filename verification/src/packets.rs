//! The packets that travel through the mesh.
use crate::single;
use crate::single::Single;
use vstd::prelude::*;

verus! {

/// A point in calendar time, as seconds and nanoseconds since the Unix epoch.
#[derive(Debug, Clone, Copy, PartialEq, Eq, Structural)]
pub struct Timestamp {
    pub seconds: i64,
    pub nanos: i32,
}

#[derive(Debug, Clone, Copy, PartialEq, Eq, Structural)]
pub enum PayloadType {
    Uplink,
    Downlink,
    Event,
    Command,
}

#[derive(Debug, Clone, Copy, PartialEq, Eq, Structural)]
pub struct Mhdr {
    pub payload_type: PayloadType,
    pub hop_count: u8,
}

#[derive(Debug)]
pub struct MeshPacket {
    pub mhdr: Mhdr,
    pub payload: Payload,
    pub mic: Option<[u8; 4]>,
}

#[derive(Debug)]
pub enum Payload {
    Uplink(UplinkPayload),
    Downlink(DownlinkPayload),
    Event(EventPayload),
    Command(CommandPayload),
}

#[derive(Debug, Clone, Copy, PartialEq, Eq, Structural)]
pub struct UplinkMetadata {
    pub uplink_id: u16,
    pub dr: u8,
    pub channel: u8,
    pub rssi: i16,
    pub snr: i8,
}

/// The route that the sender of an uplink has chosen.
#[derive(Debug, Clone, Copy)]
pub struct RouteInfo {
    pub parent: Option<[u8; 4]>,
    pub path_metric: Single,
    pub link_metric: Single,
    pub link_toa_ms: u16,
}

/// A route that leads nowhere.
pub open spec fn no_route() -> RouteInfo {
    RouteInfo {
        parent: None,
        path_metric: single::integer(0),
        link_metric: single::integer(0),
        link_toa_ms: 0,
    }
}

impl Default for RouteInfo {
    fn default() -> (res: Self)
        ensures
            res == no_route(),
    {
        let zero = Single::from_integer(0);
        RouteInfo { parent: None, path_metric: zero, link_metric: zero, link_toa_ms: 0 }
    }
}

#[derive(Debug)]
pub struct UplinkPayload {
    pub metadata: UplinkMetadata,
    /// Milliseconds since midnight.
    pub timestamp: u32,
    pub relay_id: [u8; 4],
    pub route: RouteInfo,
    pub phy_payload: Vec<u8>,
}

#[derive(Debug, Clone, Copy, PartialEq, Eq, Structural)]
pub struct DownlinkMetadata {
    pub uplink_id: u16,
    pub dr: u8,
    pub frequency: u32,
    pub tx_power: u8,
    pub delay: u8,
}

#[derive(Debug)]
pub struct DownlinkPayload {
    pub metadata: DownlinkMetadata,
    pub relay_id: [u8; 4],
    pub phy_payload: Vec<u8>,
}

#[derive(Debug)]
pub struct EventPayload {
    pub timestamp: Timestamp,
    pub relay_id: [u8; 4],
    pub events: Vec<Event>,
}

#[derive(Debug)]
pub enum Event {
    Heartbeat(HeartbeatPayload),
    RoutingBeacon(RoutingBeaconPayload),
    Proprietary(u8, Vec<u8>),
    Encrypted(Vec<u8>),
}

#[derive(Debug)]
pub struct HeartbeatPayload {
    pub relay_path: Vec<RelayPath>,
}

/// One relay that a heartbeat has passed.
#[derive(Debug, Clone, Copy)]
pub struct RelayPath {
    pub relay_id: [u8; 4],
    pub rssi: i16,
    pub snr: i8,
}

/// What a relay tells its neighbours about its routes.
#[derive(Debug)]
pub struct RoutingBeaconPayload {
    /// The neighbours are asked to answer with beacons of their own.
    pub pull: bool,
    pub parent: Option<[u8; 4]>,
    pub path_metric: Single,
    pub neighbors: Vec<RoutingNeighborEntry>,
}

/// How well the sender of a beacon reaches one of its neighbours.
#[derive(Debug, Clone, Copy)]
pub struct RoutingNeighborEntry {
    pub neighbor_id: [u8; 4],
    pub delivery: Single,
    pub spreading_factor: u8,
}

#[derive(Debug)]
pub struct CommandPayload {
    pub timestamp: Timestamp,
    pub relay_id: [u8; 4],
    pub commands: Vec<Command>,
}

#[derive(Debug)]
pub enum Command {
    Proprietary(u8, Vec<u8>),
    Encrypted(Vec<u8>),
}

/// The content of an event.
pub enum EventView {
    Heartbeat(Seq<RelayPath>),
    RoutingBeacon(RoutingBeaconPayload),
    Proprietary(u8, Seq<u8>),
    Encrypted(Seq<u8>),
}

impl Event {
    pub open spec fn view(&self) -> EventView {
        match *self {
            Event::Heartbeat(hb) => EventView::Heartbeat(hb.relay_path@),
            Event::RoutingBeacon(beacon) => EventView::RoutingBeacon(beacon),
            Event::Proprietary(kind, payload) => EventView::Proprietary(kind, payload@),
            Event::Encrypted(bytes) => EventView::Encrypted(bytes@),
        }
    }
}

/// The content of a command.
pub enum CommandView {
    Proprietary(u8, Seq<u8>),
    Encrypted(Seq<u8>),
}

impl Command {
    pub open spec fn view(&self) -> CommandView {
        match *self {
            Command::Proprietary(kind, payload) => CommandView::Proprietary(kind, payload@),
            Command::Encrypted(bytes) => CommandView::Encrypted(bytes@),
        }
    }
}

/// The contents of a list of commands.
pub open spec fn command_views(commands: Seq<Command>) -> Seq<CommandView> {
    commands.map_values(|c: Command| c@)
}

/// The contents of a list of events.
pub open spec fn event_views(events: Seq<Event>) -> Seq<EventView> {
    events.map_values(|e: Event| e@)
}

} // verus!
