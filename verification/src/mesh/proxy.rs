//! What a border gateway hands on to the network server.
use crate::exact;
use crate::fixed;
use crate::fixed::to_fixed;
use crate::frames;
use crate::frames::HeartbeatRelayPath;
use crate::frames::HeartbeatRelayPathView;
use crate::frames::MeshEvent;
use crate::frames::MeshEventItem;
use crate::frames::MeshEventItemView;
use crate::frames::UplinkFrame;
use crate::frames::UplinkRxInfo;
use crate::frames::UplinkTxInfo;
use crate::hexadecimal;
use crate::hexadecimal::encode;
use crate::hexadecimal::relay_text;
use crate::mesh::downlink;
use crate::mesh::downlink::make_context;
use crate::mesh::Failure;
use crate::mesh::MeshError;
use crate::metadata::Metadata;
use crate::packets::Event;
use crate::packets::MeshPacket;
use crate::packets::Payload;
use crate::packets::RelayPath;
use crate::packets::UplinkPayload;
use crate::single;
use crate::single::Single;
use crate::text;
use crate::text::to_decimal;
use vstd::prelude::*;
use vstd::slice::slice_to_vec;

verus! {

/// Whether the metadata of a frame can be written to.
pub open spec fn metadata_ok<M>(frame: UplinkFrame<M>) -> bool {
    frame.rx_info matches Some(rx) ==> rx.metadata.wf()
}

/// An uplink of a device in reach of the border gateway, as it goes to the
/// network server: its identifier is told in the metadata too.
pub fn proxy_uplink_lora_packet<M>(frame: UplinkFrame<M>) -> (res: UplinkFrame<M>)
    requires
        metadata_ok(frame),
    ensures
        metadata_ok(res),
        res.phy_payload == frame.phy_payload,
        res.tx_info == frame.tx_info,
        match frame.rx_info {
            None => res.rx_info is None,
            Some(rx) => res.rx_info matches Some(new) && {
                &&& new == (UplinkRxInfo { metadata: new.metadata, ..rx })
                &&& new.metadata@ == rx.metadata@.insert(
                    "uplink_id"@,
                    text::decimal(rx.uplink_id as nat),
                )
            },
        },
{
    let rx_info = match frame.rx_info {
        None => None,
        Some(rx) => {
            let mut metadata = rx.metadata;
            metadata.insert("uplink_id", to_decimal(rx.uplink_id as u128));
            Some(
                UplinkRxInfo {
                    gateway_id: rx.gateway_id,
                    uplink_id: rx.uplink_id,
                    rssi: rx.rssi,
                    snr: rx.snr,
                    context: rx.context,
                    metadata,
                },
            )
        },
    };
    UplinkFrame { phy_payload: frame.phy_payload, tx_info: frame.tx_info, rx_info }
}

/// The time since an uplink was received: none, where midnight has passed in
/// between.
pub open spec fn mesh_delay(now_ms: u32, timestamp: u32) -> nat {
    if now_ms >= timestamp {
        (now_ms - timestamp) as nat
    } else {
        0
    }
}

/// The metadata of an uplink with what is known of its way through the mesh.
pub open spec fn mesh_metadata(
    before: Map<Seq<char>, Seq<char>>,
    payload: UplinkPayload,
    hop_count: u8,
    now_ms: u32,
) -> Map<Seq<char>, Seq<char>> {
    let named = before.insert("hop_count"@, text::decimal(hop_count as nat)).insert(
        "relay_id"@,
        hexadecimal::hex_text(payload.relay_id@),
    ).insert("uplink_id"@, text::decimal(payload.metadata.uplink_id as nat));
    let routed = match payload.route.parent {
        Some(parent) => named.insert("ctp_parent"@, hexadecimal::hex_text(parent@)),
        None => named,
    };
    routed.insert("ctp_path_metric"@, fixed::fixed(payload.route.path_metric, 2)).insert(
        "ctp_link_metric"@,
        fixed::fixed(payload.route.link_metric, 2),
    ).insert("ctp_link_toa_ms"@, text::decimal(payload.route.link_toa_ms as nat)).insert(
        "mesh_delay_ms"@,
        text::decimal(mesh_delay(now_ms, payload.timestamp)),
    )
}

fn add_mesh_metadata(
    metadata: &mut Metadata,
    payload: &UplinkPayload,
    hop_count: u8,
    now_ms: u32,
)
    requires
        old(metadata).wf(),
    ensures
        final(metadata).wf(),
        final(metadata)@ == mesh_metadata(old(metadata)@, *payload, hop_count, now_ms),
{
    metadata.insert("hop_count", to_decimal(hop_count as u128));
    metadata.insert("relay_id", relay_text(&payload.relay_id));
    metadata.insert("uplink_id", to_decimal(payload.metadata.uplink_id as u128));
    if let Some(parent) = &payload.route.parent {
        metadata.insert("ctp_parent", relay_text(parent));
    }
    metadata.insert("ctp_path_metric", to_fixed(payload.route.path_metric, 2));
    metadata.insert("ctp_link_metric", to_fixed(payload.route.link_metric, 2));
    metadata.insert("ctp_link_toa_ms", to_decimal(payload.route.link_toa_ms as u128));
    let delay: u32 = now_ms.saturating_sub(payload.timestamp);
    metadata.insert("mesh_delay_ms", to_decimal(delay as u128));
}

/// What stands in the way of unwrapping an uplink. Of what the services answered,
/// only what the frame has a place for is looked at.
pub open spec fn unwrap_failure<M, E>(
    frame: UplinkFrame<M>,
    packet: MeshPacket,
    gateway_id: Result<[u8; 8], E>,
    frequency: Result<u32, E>,
    modulation: Result<M, E>,
) -> Option<Failure<E>> {
    if !(packet.payload is Uplink) {
        Some(Failure::Mesh(MeshError::NotAnUplink))
    } else if frame.rx_info is Some && gateway_id is Err {
        Some(Failure::Service(gateway_id->Err_0))
    } else if frame.tx_info is Some && frequency is Err {
        Some(Failure::Service(frequency->Err_0))
    } else if frame.tx_info is Some && modulation is Err {
        Some(Failure::Service(modulation->Err_0))
    } else {
        None
    }
}

/// Whether the reception of an uplink is told as the relay saw it.
pub open spec fn tells_reception(
    new: UplinkRxInfo,
    old_info: UplinkRxInfo,
    payload: UplinkPayload,
    hop_count: u8,
    gateway_id: [u8; 8],
    now_ms: u32,
) -> bool {
    &&& new.gateway_id@ == hexadecimal::hex_text(gateway_id@)
    &&& new.uplink_id == payload.metadata.uplink_id
    &&& new.rssi == payload.metadata.rssi
    &&& new.snr == single::signed_integer(payload.metadata.snr as int)
    &&& new.context@ == downlink::context_bytes(payload.relay_id, payload.metadata.uplink_id)
    &&& new.metadata@ == mesh_metadata(old_info.metadata@, payload, hop_count, now_ms)
}

/// The LoRaWAN uplink in a mesh packet, as it goes to the network server.
/// `frequency` and `modulation` are what the codes of its channel and its data
/// rate stand for; `now_ms` is the time since midnight.
pub fn proxy_uplink_mesh_packet<M, E>(
    frame: UplinkFrame<M>,
    packet: &MeshPacket,
    gateway_id: Result<[u8; 8], E>,
    frequency: Result<u32, E>,
    modulation: Result<M, E>,
    now_ms: u32,
) -> (res: Result<UplinkFrame<M>, Failure<E>>)
    requires
        metadata_ok(frame),
    ensures
        match res {
            Err(e) => unwrap_failure(frame, *packet, gateway_id, frequency, modulation) == Some(e),
            Ok(new) => {
                &&& unwrap_failure(frame, *packet, gateway_id, frequency, modulation) is None
                &&& metadata_ok(new)
                &&& packet.payload matches Payload::Uplink(payload) && {
                    &&& new.phy_payload@ == payload.phy_payload@
                    &&& match frame.rx_info {
                        None => new.rx_info is None,
                        Some(rx) => new.rx_info is Some && tells_reception(
                            new.rx_info->0,
                            rx,
                            payload,
                            packet.mhdr.hop_count,
                            gateway_id->Ok_0,
                            now_ms,
                        ),
                    }
                    &&& match frame.tx_info {
                        None => new.tx_info is None,
                        Some(tx) => new.tx_info == Some(
                            UplinkTxInfo {
                                frequency: frequency->Ok_0,
                                modulation: Some(modulation->Ok_0),
                            },
                        ),
                    }
                }
            },
        },
{
    let payload = match &packet.payload {
        Payload::Uplink(payload) => payload,
        _ => return Err(Failure::Mesh(MeshError::NotAnUplink)),
    };
    let rx_info = match frame.rx_info {
        None => None,
        Some(rx) => {
            let gateway_id = match gateway_id {
                Ok(gateway_id) => gateway_id,
                Err(e) => return Err(Failure::Service(e)),
            };
            let mut metadata = rx.metadata;
            add_mesh_metadata(&mut metadata, payload, packet.mhdr.hop_count, now_ms);
            Some(
                UplinkRxInfo {
                    gateway_id: encode(gateway_id.as_slice()),
                    uplink_id: payload.metadata.uplink_id as u32,
                    rssi: payload.metadata.rssi as i32,
                    snr: Single::from_i8(payload.metadata.snr),
                    context: make_context(&payload.relay_id, payload.metadata.uplink_id),
                    metadata,
                },
            )
        },
    };
    let tx_info = match frame.tx_info {
        None => None,
        Some(_) => {
            let frequency: u32 = match frequency {
                Ok(frequency) => frequency,
                Err(e) => return Err(Failure::Service(e)),
            };
            let modulation = match modulation {
                Ok(modulation) => modulation,
                Err(e) => return Err(Failure::Service(e)),
            };
            Some(UplinkTxInfo { frequency, modulation: Some(modulation) })
        },
    };
    Ok(UplinkFrame { phy_payload: slice_to_vec(payload.phy_payload.as_slice()), tx_info, rx_info })
}

/// One relay of a heartbeat's path, as it is told to the network server.
pub open spec fn told_relay(p: RelayPath) -> HeartbeatRelayPathView {
    HeartbeatRelayPathView {
        relay_id: hexadecimal::hex_text(p.relay_id@),
        rssi: p.rssi as i32,
        snr: p.snr as i32,
    }
}

/// The events that are told to the network server: all but the beacons.
pub open spec fn told_events(events: Seq<Event>) -> Seq<MeshEventItemView>
    decreases events.len(),
{
    if events.len() == 0 {
        Seq::empty()
    } else {
        match events.last() {
            Event::Heartbeat(hb) => told_events(events.drop_last()).push(
                MeshEventItemView::Heartbeat(hb.relay_path@.map_values(|p: RelayPath| told_relay(p))),
            ),
            Event::Proprietary(kind, payload) => told_events(events.drop_last()).push(
                MeshEventItemView::Proprietary(kind as u32, payload@),
            ),
            _ => told_events(events.drop_last()),
        }
    }
}

/// Whether no event is encrypted.
pub open spec fn decrypted(packet: MeshPacket) -> bool {
    packet.payload matches Payload::Event(payload) ==> forall|i: int|
        0 <= i < payload.events@.len() ==> !((#[trigger] payload.events@[i]) is Encrypted)
}

fn tell_path(path: &Vec<RelayPath>) -> (res: Vec<HeartbeatRelayPath>)
    ensures
        frames::path_views(res@) == path@.map_values(|p: RelayPath| told_relay(p)),
{
    let mut res: Vec<HeartbeatRelayPath> = Vec::new();
    let mut i: usize = 0;
    while i < path.len()
        invariant
            i <= path@.len(),
            res@.len() == i,
            forall|j: int| 0 <= j < i ==> (#[trigger] res@[j])@ == told_relay(path@[j]),
        decreases path@.len() - i,
    {
        let p = path[i];
        res.push(
            HeartbeatRelayPath {
                relay_id: relay_text(&p.relay_id),
                rssi: p.rssi as i32,
                snr: p.snr as i32,
            },
        );
        i = i + 1;
    }
    assert(frames::path_views(res@) =~= path@.map_values(|p: RelayPath| told_relay(p)));
    res
}

fn tell_events(events: &Vec<Event>) -> (res: Vec<MeshEventItem>)
    ensures
        frames::item_views(res@) == told_events(events@),
{
    let ghost all = events@;
    let mut res: Vec<MeshEventItem> = Vec::new();
    let mut i: usize = 0;
    assert(frames::item_views(res@) =~= Seq::<MeshEventItemView>::empty());
    while i < events.len()
        invariant
            all == events@,
            i <= all.len(),
            frames::item_views(res@) == told_events(all.take(i as int)),
        decreases all.len() - i,
    {
        let ghost before = res@;
        proof {
            assert(all.take(i + 1).drop_last() =~= all.take(i as int));
            assert(all.take(i + 1).last() == all[i as int]);
        }
        let item = match &events[i] {
            Event::Heartbeat(hb) => Some(MeshEventItem::Heartbeat(tell_path(&hb.relay_path))),
            Event::Proprietary(kind, payload) => Some(
                MeshEventItem::Proprietary(*kind as u32, slice_to_vec(payload.as_slice())),
            ),
            _ => None,
        };
        if let Some(item) = item {
            res.push(item);
            assert(frames::item_views(res@) =~= frames::item_views(before).push(item@));
        }
        i = i + 1;
    }
    assert(all.take(all.len() as int) =~= all);
    res
}

/// The events of a relay, as they go to the network server.
pub fn proxy_event_mesh_packet<E>(packet: &MeshPacket, gateway_id: Result<[u8; 8], E>) -> (res:
    Result<MeshEvent, Failure<E>>)
    requires
        decrypted(*packet),
    ensures
        match res {
            Ok(event) => {
                &&& gateway_id matches Ok(id) && event.gateway_id@ == hexadecimal::hex_text(id@)
                &&& packet.payload matches Payload::Event(payload) && {
                    &&& event.relay_id@ == hexadecimal::hex_text(payload.relay_id@)
                    &&& event.time == payload.timestamp
                    &&& frames::item_views(event.events@) == told_events(payload.events@)
                }
            },
            Err(Failure::Mesh(e)) => e == MeshError::NotAnEvent && !(packet.payload is Event),
            Err(Failure::Service(e)) => packet.payload is Event && gateway_id == Err::<[u8; 8], E>(
                e,
            ),
        },
{
    let payload = match &packet.payload {
        Payload::Event(payload) => payload,
        _ => return Err(Failure::Mesh(MeshError::NotAnEvent)),
    };
    let gateway_id = match gateway_id {
        Ok(gateway_id) => gateway_id,
        Err(e) => return Err(Failure::Service(e)),
    };
    Ok(
        MeshEvent {
            gateway_id: encode(gateway_id.as_slice()),
            relay_id: relay_text(&payload.relay_id),
            time: payload.timestamp,
            events: tell_events(&payload.events),
        },
    )
}

/// What else stands in the metadata of an uplink is not touched.
pub proof fn other_metadata_is_kept(
    before: Map<Seq<char>, Seq<char>>,
    payload: UplinkPayload,
    hop_count: u8,
    now_ms: u32,
    key: Seq<char>,
)
    requires
        key != "hop_count"@,
        key != "relay_id"@,
        key != "uplink_id"@,
        key != "ctp_parent"@,
        key != "ctp_path_metric"@,
        key != "ctp_link_metric"@,
        key != "ctp_link_toa_ms"@,
        key != "mesh_delay_ms"@,
    ensures
        mesh_metadata(before, payload, hop_count, now_ms).contains_key(key) == before.contains_key(
            key,
        ),
        before.contains_key(key) ==> mesh_metadata(before, payload, hop_count, now_ms)[key]
            == before[key],
{
}

/// What is known of the way of an uplink through the mesh stands in its metadata, each figure
/// under its own key. Without a parent, what stood under that key before stays.
pub proof fn metadata_tell_the_way(
    before: Map<Seq<char>, Seq<char>>,
    payload: UplinkPayload,
    hop_count: u8,
    now_ms: u32,
)
    ensures
        ({
            let after = mesh_metadata(before, payload, hop_count, now_ms);
            let route = payload.route;
            &&& after.contains_key("hop_count"@)
            &&& text::number_of(after["hop_count"@]) == hop_count
            &&& after.contains_key("relay_id"@)
            &&& after["relay_id"@] == hexadecimal::hex_text(payload.relay_id@)
            &&& after.contains_key("uplink_id"@)
            &&& text::number_of(after["uplink_id"@]) == payload.metadata.uplink_id
            &&& after.contains_key("ctp_path_metric"@)
            &&& after["ctp_path_metric"@] == fixed::fixed(route.path_metric, 2)
            &&& after.contains_key("ctp_link_metric"@)
            &&& after["ctp_link_metric"@] == fixed::fixed(route.link_metric, 2)
            &&& after.contains_key("ctp_link_toa_ms"@)
            &&& text::number_of(after["ctp_link_toa_ms"@]) == route.link_toa_ms
            &&& after.contains_key("mesh_delay_ms"@)
            &&& text::number_of(after["mesh_delay_ms"@]) == if now_ms >= payload.timestamp {
                now_ms - payload.timestamp
            } else {
                0
            }
            &&& route.parent is Some ==> after.contains_key("ctp_parent"@)
                && after["ctp_parent"@] == hexadecimal::hex_text(route.parent->0@)
            &&& route.parent is None ==> after.contains_key("ctp_parent"@) == before.contains_key(
                "ctp_parent"@,
            )
            &&& route.parent is None && before.contains_key("ctp_parent"@)
                ==> after["ctp_parent"@] == before["ctp_parent"@]
        }),
{
    lemma_keys_differ();
    text::decimal_reads_back(hop_count as nat);
    text::decimal_reads_back(payload.metadata.uplink_id as nat);
    text::decimal_reads_back(payload.route.link_toa_ms as nat);
    text::decimal_reads_back(mesh_delay(now_ms, payload.timestamp));
}

/// The keys of the metadata are all different.
proof fn lemma_keys_differ()
    ensures
        "hop_count"@.len() == 9,
        "relay_id"@.len() == 8,
        "uplink_id"@.len() == 9,
        "ctp_parent"@.len() == 10,
        "ctp_path_metric"@.len() == 15,
        "ctp_link_metric"@.len() == 15,
        "ctp_link_toa_ms"@.len() == 15,
        "mesh_delay_ms"@.len() == 13,
        "hop_count"@ != "uplink_id"@,
        "ctp_path_metric"@ != "ctp_link_metric"@,
        "ctp_path_metric"@ != "ctp_link_toa_ms"@,
        "ctp_link_metric"@ != "ctp_link_toa_ms"@,
{
    reveal_strlit("hop_count");
    reveal_strlit("relay_id");
    reveal_strlit("uplink_id");
    reveal_strlit("ctp_parent");
    reveal_strlit("ctp_path_metric");
    reveal_strlit("ctp_link_metric");
    reveal_strlit("ctp_link_toa_ms");
    reveal_strlit("mesh_delay_ms");
    assert("hop_count"@[0] != "uplink_id"@[0]);
    assert("ctp_path_metric"@[4] != "ctp_link_metric"@[4]);
    assert("ctp_path_metric"@[4] != "ctp_link_toa_ms"@[4]);
    assert("ctp_link_metric"@[9] != "ctp_link_toa_ms"@[9]);
}

/// Events are told in their order: a list of events is told as its first part and then the
/// rest.
pub proof fn events_are_told_in_order(first: Seq<Event>, rest: Seq<Event>)
    ensures
        told_events(first + rest) == told_events(first) + told_events(rest),
    decreases rest.len(),
{
    if rest.len() == 0 {
        assert(first + rest =~= first);
        assert(told_events(first) + told_events(rest) =~= told_events(first));
    } else {
        let front = rest.drop_last();
        events_are_told_in_order(first, front);
        assert((first + rest).drop_last() =~= first + front);
        assert((first + rest).last() == rest.last());
        assert(told_events(first + rest) =~= told_events(first) + told_events(rest));
    }
}

/// How one event is told: a heartbeat with its whole path, relay by relay, a proprietary one
/// with its type and payload, and anything else not at all.
pub proof fn one_event_is_told(event: Event)
    ensures
        ({
            let told = told_events(seq![event]);
            match event {
                Event::Heartbeat(hb) => told.len() == 1 && (told[0] matches
                    MeshEventItemView::Heartbeat(path) && {
                    &&& path.len() == hb.relay_path@.len()
                    &&& forall|i: int|
                        0 <= i < path.len() ==> {
                            &&& (#[trigger] path[i]).relay_id == hexadecimal::hex_text(
                                hb.relay_path@[i].relay_id@,
                            )
                            &&& path[i].rssi == hb.relay_path@[i].rssi
                            &&& path[i].snr == hb.relay_path@[i].snr
                        }
                }),
                Event::Proprietary(kind, payload) => told.len() == 1 && (told[0] matches
                    MeshEventItemView::Proprietary(told_kind, bytes) && told_kind == kind && bytes
                    == payload@),
                _ => told.len() == 0,
            }
        }),
{
    let one = seq![event];
    assert(one.drop_last() =~= Seq::<Event>::empty());
    assert(one.last() == event);
    reveal_with_fuel(told_events, 2);
}

/// The network server hears of an uplink what the relay heard: the identifier, the signal
/// strength and the signal-to-noise ratio that travelled with it. The context leads an
/// answer back to that relay and that uplink.
pub proof fn reception_is_told_as_the_relay_saw_it(
    new: UplinkRxInfo,
    old_info: UplinkRxInfo,
    payload: UplinkPayload,
    hop_count: u8,
    gateway_id: [u8; 8],
    now_ms: u32,
)
    requires
        tells_reception(new, old_info, payload, hop_count, gateway_id, now_ms),
    ensures
        new.uplink_id == payload.metadata.uplink_id,
        new.rssi == payload.metadata.rssi,
        new.snr.finite(),
        new.snr.value() == payload.metadata.snr * single::unit_count(),
        downlink::is_mesh_context(new.context@),
        downlink::context_relay(new.context@) == payload.relay_id,
        downlink::context_uplink_id(new.context@) == payload.metadata.uplink_id,
        new.gateway_id@ == hexadecimal::hex_text(gateway_id@),
{
    downlink::context_reads_back(payload.relay_id, payload.metadata.uplink_id);
    exact::whole_signed_integer(payload.metadata.snr as int);
}

/// Unwrapping succeeds exactly where the packet holds an uplink and the services have
/// answered for what the frame has a place for.
pub proof fn answered_uplinks_are_unwrapped<M, E>(
    frame: UplinkFrame<M>,
    packet: MeshPacket,
    gateway_id: Result<[u8; 8], E>,
    frequency: Result<u32, E>,
    modulation: Result<M, E>,
)
    ensures
        unwrap_failure(frame, packet, gateway_id, frequency, modulation) is None <==> {
            &&& packet.payload is Uplink
            &&& frame.rx_info is Some ==> gateway_id is Ok
            &&& frame.tx_info is Some ==> frequency is Ok && modulation is Ok
        },
{
}

} // verus!
