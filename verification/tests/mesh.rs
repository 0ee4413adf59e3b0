use gateway_mesh::config::{CtpConfig, DataRate, MeshConfig};
use gateway_mesh::frames::{
    DownlinkFrame, DownlinkFrameItem, DownlinkTxInfo, MeshCommand, MeshEventItem,
    ProprietaryCommand, Timing, TxAckStatus, UplinkFrame, UplinkRxInfo, UplinkTxInfo,
};
use gateway_mesh::hexadecimal::HexError;
use gateway_mesh::mesh::command::send_mesh_command;
use gateway_mesh::mesh::ctp::{self, RoutingState};
use gateway_mesh::mesh::downlink::{
    delivery_frame, handle_downlink, make_context, new_delivery_frame, read_item,
    relay_downlink_lora_packet, DownlinkAction, DownlinkProgress, DownlinkTarget,
};
use gateway_mesh::mesh::forward::{
    relay_mesh_packet, DropReason, RelayAction,
};
use gateway_mesh::mesh::proxy::{
    proxy_event_mesh_packet, proxy_uplink_lora_packet, proxy_uplink_mesh_packet,
};
use gateway_mesh::mesh::scheduler::{packet_frame, send_packet};
use gateway_mesh::mesh::uplink::{
    check_uplink, relay_uplink_lora_packet, route_uplink, schedule_uplink,
};
use gateway_mesh::mesh::{
    get_mesh_frequency, get_uplink_context, get_uplink_id, handle_mesh, handle_uplink, mesh_frame,
    new_mesh_frame, signing_key, store_uplink_context, Failure, MeshError, MeshRxAction,
    MeshRxEvent, MeshState, UplinkAction,
};
use gateway_mesh::metadata::Metadata;
use gateway_mesh::packets::{
    Command, CommandPayload, DownlinkMetadata, DownlinkPayload, Event, EventPayload,
    HeartbeatPayload, MeshPacket, Mhdr, Payload, PayloadType, RelayPath, RouteInfo,
    RoutingBeaconPayload, Timestamp, UplinkMetadata, UplinkPayload,
};
use gateway_mesh::single::Single;
use gateway_mesh::time::{Duration, Instant};

const ME: [u8; 4] = [1, 2, 3, 4];
const CHILD: [u8; 4] = [5, 6, 7, 8];
const PARENT: [u8; 4] = [9, 9, 9, 9];
const GATEWAY: [u8; 8] = [0xaa, 0xbb, 0xcc, 0xdd, 0, 1, 2, 3];
const TIME: Timestamp = Timestamp { seconds: 1_700_000_000, nanos: 5 };

fn s(x: f32) -> Single {
    Single { bits: x.to_bits() }
}

fn f(x: Single) -> f32 {
    f32::from_bits(x.bits)
}

fn at(n: u64) -> Instant {
    Instant { nanos: n * 1_000_000_000 }
}

fn conf(frequencies: Vec<u32>) -> MeshConfig {
    MeshConfig {
        border_gateway: false,
        max_hop_count: 3,
        frequencies,
        tx_power: 16,
        data_rate: DataRate { spreading_factor: 7 },
        signing_key: [0; 16],
        ctp: CtpConfig {
            beacon_min_interval: Duration { nanos: 1_000_000_000 },
            beacon_max_interval: Duration { nanos: 60_000_000_000 },
            neighbor_expiration: Duration { nanos: 100_000_000_000 },
            cost_improvement_reset: s(1.5),
            ewma_alpha: s(0.25),
        },
    }
}

fn frame() -> UplinkFrame<&'static str> {
    let mut metadata = Metadata::new();
    metadata.insert("region", "eu868".to_string());
    UplinkFrame {
        phy_payload: vec![1, 2, 3],
        tx_info: Some(UplinkTxInfo { frequency: 868_100_000, modulation: Some("SF7") }),
        rx_info: Some(UplinkRxInfo {
            gateway_id: "0102030405060708".to_string(),
            uplink_id: 1234,
            rssi: -57,
            snr: s(-3.75),
            context: vec![4, 3, 2, 1],
            metadata,
        }),
    }
}

fn routing() -> RoutingState {
    RoutingState::new(ME, false, &conf(vec![]))
}

fn routing_with_parent() -> RoutingState {
    let mut state = routing();
    let beacon = RoutingBeaconPayload {
        pull: false,
        parent: None,
        path_metric: s(0.0),
        neighbors: vec![],
    };
    ctp::handle_beacon(&mut state, PARENT, &beacon, at(1));
    state.trickle.after_send();
    state
}

fn uplink(origin: [u8; 4], parent: Option<[u8; 4]>, hop_count: u8) -> MeshPacket {
    MeshPacket {
        mhdr: Mhdr { payload_type: PayloadType::Uplink, hop_count },
        payload: Payload::Uplink(UplinkPayload {
            metadata: UplinkMetadata { uplink_id: 0x0abc, dr: 3, channel: 2, rssi: -60, snr: 7 },
            timestamp: 1000,
            relay_id: origin,
            route: RouteInfo {
                parent,
                path_metric: s(120.456),
                link_metric: s(52.0),
                link_toa_ms: 13,
            },
            phy_payload: vec![9, 8, 7],
        }),
        mic: Some([1, 1, 1, 1]),
    }
}

fn downlink(target: [u8; 4], uplink_id: u16) -> MeshPacket {
    MeshPacket {
        mhdr: Mhdr { payload_type: PayloadType::Downlink, hop_count: 1 },
        payload: Payload::Downlink(DownlinkPayload {
            metadata: DownlinkMetadata {
                uplink_id,
                dr: 5,
                frequency: 868_300_000,
                tx_power: 1,
                delay: 5,
            },
            relay_id: target,
            phy_payload: vec![6, 6],
        }),
        mic: None,
    }
}

fn events(origin: [u8; 4], events: Vec<Event>) -> MeshPacket {
    MeshPacket {
        mhdr: Mhdr { payload_type: PayloadType::Event, hop_count: 1 },
        payload: Payload::Event(EventPayload { timestamp: TIME, relay_id: origin, events }),
        mic: None,
    }
}

#[test]
fn frequencies_take_turns() {
    let c = conf(vec![1, 2, 3]);
    let mut state = MeshState::new();
    let seen: Vec<u32> = (0..7).map(|_| get_mesh_frequency(&mut state, &c).unwrap()).collect();
    assert_eq!(seen, vec![2, 3, 1, 2, 3, 1, 2]);
    assert_eq!(get_mesh_frequency(&mut state, &conf(vec![])), Err(MeshError::NoFrequencies));
    assert_eq!(get_mesh_frequency(&mut state, &conf(vec![7])), Ok(7));
    // A counter that many frequencies left behind does no harm to a few.
    let many = conf((0..9).collect());
    for _ in 0..8 {
        get_mesh_frequency(&mut state, &many).unwrap();
    }
    let few: Vec<u32> = (0..5).map(|_| get_mesh_frequency(&mut state, &c).unwrap()).collect();
    assert_eq!(few, vec![1, 2, 3, 1, 2]);
}

#[test]
fn uplink_identifiers_go_round() {
    let mut state = MeshState::new();
    for expected in 1..=4095 {
        assert_eq!(get_uplink_id(&mut state), expected);
    }
    assert_eq!(get_uplink_id(&mut state), 0);
    assert_eq!(get_uplink_id(&mut state), 1);
}

#[test]
fn contexts_are_found_until_their_identifier_returns() {
    let mut state = MeshState::new();
    let id = store_uplink_context(&mut state, &[7, 7]);
    assert_eq!(id, 1);
    for i in 0..4095_u32 {
        store_uplink_context(&mut state, &i.to_be_bytes());
        assert_eq!(get_uplink_context(&state, id), Ok(vec![7, 7]));
    }
    assert_eq!(store_uplink_context(&mut state, &[8]), id);
    assert_eq!(get_uplink_context(&state, id), Ok(vec![8]));
    assert_eq!(get_uplink_context(&state, 4096), Err(MeshError::NoUplinkContext(4096)));
}

#[test]
fn a_configured_key_stands_before_the_derived_one() {
    let mut key = [0; 16];
    assert_eq!(signing_key(key, [3; 16]), [3; 16]);
    key[15] = 1;
    assert_eq!(signing_key(key, [3; 16]), key);
}

#[test]
fn packets_are_checked_before_they_are_handled() {
    assert_eq!(handle_uplink(true), UplinkAction::Proxy);
    assert_eq!(handle_uplink(false), UplinkAction::Relay);
    for border in [true, false] {
        assert_eq!(handle_mesh(border, MeshRxEvent::Parsed), MeshRxAction::CheckMic);
        let bad = handle_mesh(border, MeshRxEvent::MicChecked(false));
        assert_eq!(bad, MeshRxAction::DropInvalidMic);
        let good = handle_mesh(border, MeshRxEvent::MicChecked(true));
        assert_eq!(good, MeshRxAction::CheckCache);
        let seen = handle_mesh(border, MeshRxEvent::CacheChecked(false));
        assert_eq!(seen, MeshRxAction::DropSeen);
        let new = handle_mesh(border, MeshRxEvent::CacheChecked(true));
        assert_eq!(new, MeshRxAction::Decrypt);
    }
    for (payload_type, action) in [
        (PayloadType::Uplink, MeshRxAction::ProxyUplink),
        (PayloadType::Event, MeshRxAction::ProxyEvent),
        (PayloadType::Downlink, MeshRxAction::Ignore),
        (PayloadType::Command, MeshRxAction::Ignore),
    ] {
        assert_eq!(handle_mesh(true, MeshRxEvent::Decrypted(payload_type)), action);
        let relay = handle_mesh(false, MeshRxEvent::Decrypted(payload_type));
        assert_eq!(relay, MeshRxAction::Relay);
    }
}

#[test]
fn mesh_frames_are_sent_at_once() {
    let mut state = MeshState::new();
    let frame = mesh_frame(&mut state, &conf(vec![1, 2]), 77, vec![5], "SF9").unwrap();
    assert_eq!(frame.downlink_id, 77);
    assert_eq!(frame.gateway_id, "");
    assert_eq!(frame.items.len(), 1);
    assert_eq!(frame.items[0].phy_payload, vec![5]);
    let tx = frame.items[0].tx_info.as_ref().unwrap();
    assert_eq!((tx.frequency, tx.power, tx.modulation), (2, 16, Some("SF9")));
    assert_eq!(tx.timing, Some(Timing::Immediately));
    assert!(tx.context.is_empty());
    assert!(matches!(
        mesh_frame(&mut state, &conf(vec![]), 77, vec![5], "SF9"),
        Err(MeshError::NoFrequencies)
    ));
}

#[test]
fn new_frames_get_identifiers_of_their_own() {
    let mut state = MeshState::new();
    let mut ids = Vec::new();
    for _ in 0..8 {
        let frame = new_mesh_frame(&mut state, &conf(vec![1]), vec![5], "SF9").unwrap();
        assert_eq!(frame.items[0].phy_payload, vec![5]);
        ids.push(frame.downlink_id);
        let sent: Result<_, Failure<()>> =
            send_packet(&mut state, &conf(vec![1]), Ok(vec![6]), "SF9");
        ids.push(sent.ok().unwrap().downlink_id);
    }
    assert!(ids.iter().any(|id| *id != ids[0]));
}

#[test]
fn a_frequency_is_used_up_for_a_packet_without_bytes() {
    let mut state = MeshState::new();
    let c = conf(vec![1, 2]);
    let res = packet_frame(&mut state, &c, 5, Err("no bytes"), ());
    assert!(matches!(res, Err(Failure::Service("no bytes"))));
    let res: Result<_, Failure<()>> = packet_frame(&mut state, &c, 5, Ok(vec![1]), ());
    assert_eq!(res.ok().unwrap().items[0].tx_info.as_ref().unwrap().frequency, 1);
    let res = packet_frame(&mut state, &conf(vec![]), 5, Err("no bytes"), ());
    assert!(matches!(res, Err(Failure::Mesh(MeshError::NoFrequencies))));
}

#[test]
fn incomplete_uplinks_are_refused() {
    assert_eq!(check_uplink(&frame()), Ok(()));
    let mut f1 = frame();
    f1.tx_info.as_mut().unwrap().modulation = None;
    assert_eq!(check_uplink(&f1), Err(MeshError::MissingModulation));
    f1.tx_info = None;
    assert_eq!(check_uplink(&f1), Err(MeshError::MissingTxInfo));
    f1.rx_info = None;
    assert_eq!(check_uplink(&f1), Err(MeshError::MissingRxInfo));
    let (res, woken) = route_uplink(&f1, &mut routing_with_parent(), at(2));
    assert_eq!(res, Err(MeshError::MissingRxInfo));
    assert!(!woken);
}

#[test]
fn an_uplink_is_relayed_to_the_parent() {
    let mut state = MeshState::new();
    let mut table = routing_with_parent();
    let frame = frame();
    let (decision, woken) = route_uplink(&frame, &mut table, at(2));
    assert!(!woken);
    let decision = decision.unwrap().unwrap();
    assert_eq!(decision.parent, PARENT);
    let rx = frame.rx_info.as_ref().unwrap();
    let packet = relay_uplink_lora_packet::<()>(
        &mut state,
        rx,
        &frame.phy_payload,
        &decision,
        ME,
        Ok(5),
        Ok(1),
        4242,
    )
    .unwrap();
    assert_eq!(packet.mhdr, Mhdr { payload_type: PayloadType::Uplink, hop_count: 1 });
    assert_eq!(packet.mic, None);
    match &packet.payload {
        Payload::Uplink(pl) => {
            let expected = UplinkMetadata { uplink_id: 1, dr: 5, channel: 1, rssi: -57, snr: -3 };
            assert_eq!(pl.metadata, expected);
            assert_eq!((pl.timestamp, pl.relay_id), (4242, ME));
            assert_eq!(pl.route.parent, Some(PARENT));
            assert_eq!(f(pl.route.path_metric), 52.0);
            assert_eq!(pl.route.link_toa_ms, 13);
            assert_eq!(pl.phy_payload, vec![1, 2, 3]);
        }
        _ => panic!("an uplink stays an uplink"),
    }
    assert_eq!(get_uplink_context(&state, 1), Ok(vec![4, 3, 2, 1]));
    let queued = schedule_uplink(packet, &decision, ME);
    assert_eq!((queued.flow_id, queued.next_hop), (ME, Some(PARENT)));
    assert!(queued.requires_ack);
    assert_eq!(queued.plan, decision.plan());

    // The context is kept even where a code is missing, and the first one counts.
    let mut relay = |dr, channel| {
        relay_uplink_lora_packet(&mut state, rx, &[], &decision, ME, dr, channel, 0).err()
    };
    assert_eq!(relay(Err("dr"), Err("channel")), Some("dr"));
    assert_eq!(relay(Ok(1), Err("channel")), Some("channel"));
    assert_eq!(get_uplink_context(&state, 3), Ok(vec![4, 3, 2, 1]));
}

#[test]
fn an_uplink_without_a_parent_asks_for_beacons() {
    let mut table = routing();
    table.trickle.after_send();
    let (decision, woken) = route_uplink(&frame(), &mut table, at(2));
    assert_eq!(decision, Ok(None));
    assert!(woken);
    assert!(table.trickle.pending_pull && table.trickle.force_immediate);
}

fn item(context: Vec<u8>, timing: Option<Timing>) -> DownlinkFrameItem<&'static str> {
    DownlinkFrameItem {
        phy_payload: vec![3, 3],
        tx_info: Some(DownlinkTxInfo {
            frequency: 868_500_000,
            power: 14,
            modulation: Some("SF8"),
            timing,
            context,
        }),
    }
}

fn down(items: Vec<DownlinkFrameItem<&'static str>>) -> DownlinkFrame<&'static str> {
    DownlinkFrame { downlink_id: 55, gateway_id: "gw".to_string(), items }
}

#[test]
fn the_context_decides_about_a_downlink() {
    let context = make_context(&[0xde, 0xad, 0xbe, 0xef], 0x0102);
    assert_eq!(context, vec![1, 2, 3, 0xde, 0xad, 0xbe, 0xef, 1, 2]);
    assert_eq!(handle_downlink(&down(vec![])), Ok(DownlinkAction::Relay));
    let relayed = handle_downlink(&down(vec![item(context.clone(), None)]));
    assert_eq!(relayed, Ok(DownlinkAction::Relay));
    for other in [vec![], vec![1, 2, 3], vec![1, 2, 4, 0, 0, 0, 0, 0, 0], vec![1, 2, 3, 0, 0, 0, 0, 0, 0, 0]] {
        assert_eq!(handle_downlink(&down(vec![item(other, None)])), Ok(DownlinkAction::Proxy));
    }
    let mut bare = item(context, None);
    bare.tx_info = None;
    assert_eq!(handle_downlink(&down(vec![bare])), Err(MeshError::MissingTxInfo));
}

#[test]
fn a_downlink_is_read_for_its_relay() {
    let context = make_context(&CHILD, 0xfedc);
    let delay = |secs| Some(Timing::Delay(secs));
    let target = read_item(&item(context.clone(), delay(Some(5)))).unwrap();
    assert_eq!(
        target,
        DownlinkTarget {
            relay_id: CHILD,
            uplink_id: 0xfedc,
            frequency: 868_500_000,
            power: 14,
            delay: 5
        }
    );
    assert_eq!(read_item(&item(context.clone(), delay(Some(300)))).unwrap().delay, 44);
    assert_eq!(read_item(&item(context.clone(), delay(None))).unwrap().delay, 0);
    assert_eq!(read_item(&item(vec![1; 8], delay(None))), Err(MeshError::ShortContext));
    assert!(read_item(&item(vec![1; 10], delay(None))).is_ok());
    assert_eq!(read_item(&item(vec![], None)), Err(MeshError::MissingTiming));
    for timing in [Timing::Unset, Timing::Immediately, Timing::GpsEpoch] {
        let res = read_item(&item(context.clone(), Some(timing)));
        assert_eq!(res, Err(MeshError::UnsupportedTiming));
    }
    let mut poor = item(context, None);
    poor.tx_info.as_mut().unwrap().modulation = None;
    assert_eq!(read_item(&poor), Err(MeshError::MissingModulation));
    poor.tx_info = None;
    assert_eq!(read_item(&poor), Err(MeshError::MissingTxInfo));

    let packet = relay_downlink_lora_packet::<()>(&target, &[3, 3], Ok(2), Ok(4)).unwrap();
    assert_eq!(packet.mhdr, Mhdr { payload_type: PayloadType::Downlink, hop_count: 1 });
    match packet.payload {
        Payload::Downlink(pl) => {
            assert_eq!(pl.relay_id, CHILD);
            assert_eq!(pl.phy_payload, vec![3, 3]);
            let expected = DownlinkMetadata {
                uplink_id: 0xfedc,
                dr: 2,
                frequency: 868_500_000,
                tx_power: 4,
                delay: 5,
            };
            assert_eq!(pl.metadata, expected);
        }
        _ => panic!("a downlink stays a downlink"),
    }
    let both = relay_downlink_lora_packet(&target, &[], Err("dr"), Err("power"));
    assert_eq!(both.err(), Some("dr"));
    let one = relay_downlink_lora_packet(&target, &[], Ok(1), Err("power"));
    assert_eq!(one.err(), Some("power"));
}

#[test]
fn items_are_tried_until_one_is_sent() {
    let mut progress = DownlinkProgress::new(4);
    let mut tried = Vec::new();
    while let Some(i) = progress.next_item() {
        tried.push(i);
        progress.record(i == 2);
    }
    assert_eq!(tried, vec![0, 1, 2]);
    let ack = progress.finish("gw".to_string(), 55);
    assert_eq!((ack.gateway_id.as_str(), ack.downlink_id), ("gw", 55));
    assert_eq!(
        ack.items,
        vec![
            TxAckStatus::InternalError,
            TxAckStatus::InternalError,
            TxAckStatus::Success,
            TxAckStatus::Ignored
        ]
    );
    let mut failing = DownlinkProgress::new(1);
    assert_eq!(failing.next_item(), Some(0));
    failing.record(false);
    assert_eq!(failing.next_item(), None);
    assert_eq!(failing.finish(String::new(), 0).items, vec![TxAckStatus::InternalError]);
    assert_eq!(DownlinkProgress::new(0).next_item(), None);
}

#[test]
fn a_downlink_is_delivered_with_the_context_of_its_uplink() {
    let mut state = MeshState::new();
    let id = store_uplink_context(&mut state, &[4, 3, 2, 1]);
    let payload = match downlink(ME, id).payload {
        Payload::Downlink(pl) => pl,
        _ => unreachable!(),
    };
    let frame =
        delivery_frame::<_, ()>(&state, 9, &payload, Ok(27), Ok("SF12"), Ok(GATEWAY)).ok().unwrap();
    assert_eq!(frame.downlink_id, 9);
    assert_eq!(frame.gateway_id, "aabbccdd00010203");
    assert_eq!(frame.items[0].phy_payload, vec![6, 6]);
    let tx = frame.items[0].tx_info.as_ref().unwrap();
    assert_eq!((tx.frequency, tx.power, tx.modulation), (868_300_000, 27, Some("SF12")));
    assert_eq!(tx.timing, Some(Timing::Delay(Some(5))));
    assert_eq!(tx.context, vec![4, 3, 2, 1]);

    let try_it = |power, modulation, gateway_id, uplink_id| {
        let mut payload = DownlinkPayload {
            metadata: payload.metadata,
            relay_id: ME,
            phy_payload: vec![],
        };
        payload.metadata.uplink_id = uplink_id;
        match new_delivery_frame::<&str, &str>(&state, &payload, power, modulation, gateway_id) {
            Ok(_) => "sent".to_string(),
            Err(Failure::Mesh(e)) => e.message(),
            Err(Failure::Service(e)) => e.to_string(),
        }
    };
    assert_eq!(try_it(Ok(1), Ok("m"), Ok(GATEWAY), id), "sent");
    assert_eq!(try_it(Err("power"), Err("modulation"), Err("gateway"), 9), "power");
    assert_eq!(try_it(Ok(1), Err("modulation"), Err("gateway"), 9), "modulation");
    let missing = try_it(Ok(1), Ok("m"), Err("gateway"), 9);
    assert_eq!(missing, "No uplink context for uplink_id: 9");
    assert_eq!(try_it(Ok(1), Ok("m"), Err("gateway"), id), "gateway");
}

#[test]
fn commands_are_packed_for_their_relay() {
    let command = |command_type, payload: &[u8]| {
        Some(ProprietaryCommand { command_type, payload: payload.to_vec() })
    };
    let pl = MeshCommand {
        relay_id: "05060708".to_string(),
        commands: vec![command(129, &[1, 2]), None, command(257, &[])],
    };
    let packet = send_mesh_command(&pl, TIME).unwrap();
    assert_eq!(packet.mhdr, Mhdr { payload_type: PayloadType::Command, hop_count: 1 });
    match packet.payload {
        Payload::Command(c) => {
            assert_eq!((c.relay_id, c.timestamp), (CHILD, TIME));
            assert_eq!(c.commands.len(), 2);
            assert!(matches!(&c.commands[0], Command::Proprietary(129, p) if p == &vec![1, 2]));
            assert!(matches!(&c.commands[1], Command::Proprietary(1, p) if p.is_empty()));
        }
        _ => panic!("commands stay commands"),
    }
    let bad = MeshCommand { relay_id: "0506070g".to_string(), commands: vec![] };
    assert_eq!(
        send_mesh_command(&bad, TIME).err(),
        Some(MeshError::InvalidRelayId(HexError::InvalidCharacter { c: 'g', index: 7 }))
    );
}

#[test]
fn uplinks_climb_along_the_parents() {
    let drop = |packet| {
        let mut table = routing_with_parent();
        match relay_mesh_packet(&frame(), packet, ME, &mut table, 3, at(2)) {
            (Ok(RelayAction::Drop(reason)), woken) => (reason, woken),
            other => panic!("unexpected: {:?}", other),
        }
    };
    assert_eq!(drop(uplink(ME, Some(ME), 1)), (DropReason::Own, false));
    assert_eq!(drop(uplink(CHILD, None, 1)), (DropReason::NoParentAssigned, false));
    assert_eq!(drop(uplink(CHILD, Some(PARENT), 1)), (DropReason::OtherParent, false));

    let mut table = routing_with_parent();
    let (res, woken) =
        relay_mesh_packet(&frame(), uplink(CHILD, Some(ME), 2), ME, &mut table, 3, at(2));
    assert!(!woken);
    match res.unwrap() {
        RelayAction::Forward(queued) => {
            assert_eq!(queued.packet.mhdr.hop_count, 3);
            assert_eq!((queued.flow_id, queued.next_hop), (CHILD, Some(PARENT)));
            assert!(queued.requires_ack);
            match queued.packet.payload {
                Payload::Uplink(pl) => {
                    assert_eq!(pl.relay_id, CHILD);
                    assert_eq!(pl.route.parent, Some(PARENT));
                    assert_eq!(f(pl.route.path_metric), 52.0);
                    assert_eq!(pl.metadata.uplink_id, 0x0abc);
                    assert_eq!(pl.phy_payload, vec![9, 8, 7]);
                }
                _ => panic!("an uplink stays an uplink"),
            }
        }
        other => panic!("unexpected: {:?}", other),
    }
    for hops in [3, 255] {
        let (res, _) =
            relay_mesh_packet(&frame(), uplink(CHILD, Some(ME), hops), ME, &mut table, 3, at(2));
        assert_eq!(res.err(), Some(MeshError::MaxHopCount));
    }

    let mut alone = routing();
    alone.trickle.after_send();
    let (res, woken) =
        relay_mesh_packet(&frame(), uplink(CHILD, Some(ME), 1), ME, &mut alone, 3, at(2));
    assert!(matches!(res, Ok(RelayAction::Drop(DropReason::NoUpstream))));
    assert!(woken && alone.trickle.pending_pull);
}

#[test]
fn a_child_that_is_nearer_to_the_root_wakes_the_beacons() {
    let mut table = routing_with_parent();
    let mut packet = uplink(CHILD, Some(ME), 1);
    if let Payload::Uplink(pl) = &mut packet.payload {
        pl.route.path_metric = s(10.0);
    }
    let (res, woken) = relay_mesh_packet(&frame(), packet, ME, &mut table, 3, at(2));
    assert!(matches!(res, Ok(RelayAction::Forward(_))));
    assert!(woken && table.trickle.force_immediate);
}

#[test]
fn packets_for_others_are_sent_on() {
    let mut table = routing_with_parent();
    let mut relay = |packet| relay_mesh_packet(&frame(), packet, ME, &mut table, 3, at(2));
    match relay(downlink(ME, 7)) {
        (Ok(RelayAction::Deliver(pl)), false) => assert_eq!(pl.metadata.uplink_id, 7),
        other => panic!("unexpected: {:?}", other),
    }
    match relay(downlink(CHILD, 7)) {
        (Ok(RelayAction::Resend(packet)), false) => {
            assert_eq!(packet.mhdr.hop_count, 2);
            assert!(matches!(packet.payload, Payload::Downlink(pl) if pl.relay_id == CHILD));
        }
        other => panic!("unexpected: {:?}", other),
    }
    let command = |relay_id| MeshPacket {
        mhdr: Mhdr { payload_type: PayloadType::Command, hop_count: 1 },
        payload: Payload::Command(CommandPayload { timestamp: TIME, relay_id, commands: vec![] }),
        mic: None,
    };
    assert!(matches!(relay(command(ME)), (Ok(RelayAction::Execute(_)), false)));
    assert!(matches!(relay(command(CHILD)), (Ok(RelayAction::Resend(_)), false)));
    let mut worn = command(CHILD);
    worn.mhdr.hop_count = 255;
    assert_eq!(relay(worn).0.err(), Some(MeshError::MaxHopCount));

    let mut deaf = frame();
    deaf.rx_info = None;
    let (res, woken) = relay_mesh_packet(&deaf, downlink(ME, 7), ME, &mut table, 3, at(2));
    assert_eq!(res.err(), Some(MeshError::MissingRxInfo));
    assert!(!woken);
}

#[test]
fn flooded_packets_stop_at_the_hop_limit() {
    let kinds = || {
        [
            downlink([2; 4], 1),
            events(CHILD, vec![Event::Proprietary(1, vec![])]),
            MeshPacket {
                mhdr: Mhdr { payload_type: PayloadType::Command, hop_count: 1 },
                payload: Payload::Command(CommandPayload {
                    timestamp: TIME,
                    relay_id: CHILD,
                    commands: vec![],
                }),
                mic: None,
            },
        ]
    };
    for (hop_count, limit) in [(2, 3), (0, 1), (254, 255)] {
        for mut packet in kinds() {
            packet.mhdr.hop_count = hop_count;
            let mut table = routing_with_parent();
            match relay_mesh_packet(&frame(), packet, ME, &mut table, limit, at(2)) {
                (Ok(RelayAction::Resend(packet)), false) => {
                    assert_eq!(packet.mhdr.hop_count, limit)
                }
                other => panic!("unexpected: {:?}", other),
            }
        }
    }
    for (hop_count, limit) in [(3, 3), (4, 3), (0, 0), (255, 255)] {
        for mut packet in kinds() {
            packet.mhdr.hop_count = hop_count;
            let mut table = routing_with_parent();
            let (res, woken) =
                relay_mesh_packet(&frame(), packet, ME, &mut table, limit, at(2));
            assert_eq!(res.err(), Some(MeshError::MaxHopCount));
            assert!(!woken);
        }
    }
    // A packet that has reached its relay is not flooded any further.
    let mut table = routing_with_parent();
    let mut own = downlink(ME, 1);
    own.mhdr.hop_count = 3;
    let (res, _) = relay_mesh_packet(&frame(), own, ME, &mut table, 3, at(2));
    assert!(matches!(res, Ok(RelayAction::Deliver(_))));
}

#[test]
fn events_are_passed_on_without_beacons() {
    let mut table = routing();
    table.trickle.after_send();
    let hop = RelayPath { relay_id: CHILD, rssi: -10, snr: 1 };
    let beacon = |path_metric| {
        Event::RoutingBeacon(RoutingBeaconPayload {
            pull: false,
            parent: None,
            path_metric: s(path_metric),
            neighbors: vec![],
        })
    };
    let packet = events(
        CHILD,
        vec![
            Event::Proprietary(200, vec![1]),
            beacon(0.0),
            Event::Heartbeat(HeartbeatPayload { relay_path: vec![hop] }),
            Event::Encrypted(vec![2]),
        ],
    );
    let (res, woken) = relay_mesh_packet(&frame(), packet, ME, &mut table, 3, at(2));
    assert!(woken);
    assert_eq!(table.current_decision().unwrap().parent, CHILD);
    match res.unwrap() {
        RelayAction::Resend(packet) => match packet.payload {
            Payload::Event(pl) => {
                assert_eq!((pl.relay_id, pl.timestamp), (CHILD, TIME));
                assert_eq!(pl.events.len(), 3);
                assert!(matches!(&pl.events[0], Event::Proprietary(200, p) if p == &vec![1]));
                match &pl.events[1] {
                    Event::Heartbeat(hb) => {
                        assert_eq!(hb.relay_path.len(), 2);
                        assert_eq!(hb.relay_path[0].relay_id, CHILD);
                        let new = hb.relay_path[1];
                        assert_eq!((new.relay_id, new.rssi, new.snr), (ME, -57, -3));
                    }
                    _ => panic!("the heartbeat stays in its place"),
                }
                assert!(matches!(&pl.events[2], Event::Encrypted(p) if p == &vec![2]));
            }
            _ => panic!("events stay events"),
        },
        other => panic!("unexpected: {:?}", other),
    }
    let (res, _) =
        relay_mesh_packet(&frame(), events(CHILD, vec![beacon(1.0)]), ME, &mut table, 3, at(2));
    assert!(matches!(res, Ok(RelayAction::Drop(DropReason::NothingToForward))));
    let (res, woken) =
        relay_mesh_packet(&frame(), events(ME, vec![beacon(1.0)]), ME, &mut table, 3, at(2));
    assert!(matches!(res, Ok(RelayAction::Drop(DropReason::Own))));
    assert!(!woken);
}

fn meta(frame: &UplinkFrame<&'static str>, key: &str) -> Option<String> {
    frame.rx_info.as_ref().unwrap().metadata.get(key).cloned()
}

#[test]
fn a_direct_uplink_tells_its_identifier() {
    let out = proxy_uplink_lora_packet(frame());
    assert_eq!(meta(&out, "uplink_id").as_deref(), Some("1234"));
    assert_eq!(meta(&out, "region").as_deref(), Some("eu868"));
    assert_eq!(out.phy_payload, vec![1, 2, 3]);
    let mut deaf = frame();
    deaf.rx_info = None;
    assert!(proxy_uplink_lora_packet(deaf).rx_info.is_none());
}

#[test]
fn a_relayed_uplink_is_unwrapped() {
    let packet = uplink(CHILD, Some([0xbb, 0, 0, 0x1c]), 2);
    let out = proxy_uplink_mesh_packet::<_, ()>(
        frame(),
        &packet,
        Ok(GATEWAY),
        Ok(868_900_000),
        Ok("SF10"),
        1750,
    )
    .ok()
    .unwrap();
    assert_eq!(out.phy_payload, vec![9, 8, 7]);
    for (key, value) in [
        ("hop_count", "2"),
        ("relay_id", "05060708"),
        ("uplink_id", "2748"),
        ("ctp_parent", "bb00001c"),
        ("ctp_path_metric", "120.46"),
        ("ctp_link_metric", "52.00"),
        ("ctp_link_toa_ms", "13"),
        ("mesh_delay_ms", "750"),
        ("region", "eu868"),
    ] {
        assert_eq!(meta(&out, key).as_deref(), Some(value), "{}", key);
    }
    let rx = out.rx_info.as_ref().unwrap();
    assert_eq!(rx.metadata.len(), 9);
    assert_eq!(rx.metadata.pair(0), (&"region".to_string(), &"eu868".to_string()));
    assert_eq!(rx.gateway_id, "aabbccdd00010203");
    assert_eq!((rx.uplink_id, rx.rssi, f(rx.snr)), (0x0abc, -60, 7.0));
    assert_eq!(rx.context, vec![1, 2, 3, 5, 6, 7, 8, 0x0a, 0xbc]);
    let tx = out.tx_info.as_ref().unwrap();
    assert_eq!((tx.frequency, tx.modulation), (868_900_000, Some("SF10")));

    // Midnight has passed, and no parent was told.
    let packet = uplink(CHILD, None, 2);
    let out = proxy_uplink_mesh_packet::<_, ()>(
        frame(),
        &packet,
        Ok(GATEWAY),
        Ok(1),
        Ok("SF10"),
        5,
    )
    .ok()
    .unwrap();
    assert_eq!(meta(&out, "mesh_delay_ms").as_deref(), Some("0"));
    assert_eq!(meta(&out, "ctp_parent"), None);
}

#[test]
fn unwrapping_fails_in_order() {
    let packet = uplink(CHILD, None, 2);
    let try_it = |frame, packet: &MeshPacket, gateway_id, frequency, modulation| {
        match proxy_uplink_mesh_packet::<&str, &str>(
            frame, packet, gateway_id, frequency, modulation, 0,
        ) {
            Ok(_) => "sent".to_string(),
            Err(Failure::Mesh(e)) => e.message(),
            Err(Failure::Service(e)) => e.to_string(),
        }
    };
    let wrong = try_it(frame(), &downlink(ME, 1), Err("gateway"), Err("freq"), Err("mod"));
    assert_eq!(wrong, "Expected Uplink payload");
    let res = try_it(frame(), &packet, Err("gateway"), Err("freq"), Err("mod"));
    assert_eq!(res, "gateway");
    let res = try_it(frame(), &packet, Ok(GATEWAY), Err("freq"), Err("mod"));
    assert_eq!(res, "freq");
    let res = try_it(frame(), &packet, Ok(GATEWAY), Ok(1), Err("mod"));
    assert_eq!(res, "mod");
    let mut bare = frame();
    bare.rx_info = None;
    bare.tx_info = None;
    let res = try_it(bare, &packet, Err("gateway"), Err("freq"), Err("mod"));
    assert_eq!(res, "sent");
}

#[test]
fn events_are_told_without_beacons() {
    let packet = events(
        CHILD,
        vec![
            Event::Heartbeat(HeartbeatPayload {
                relay_path: vec![
                    RelayPath { relay_id: CHILD, rssi: -120, snr: -12 },
                    RelayPath { relay_id: ME, rssi: 5, snr: 3 },
                ],
            }),
            Event::RoutingBeacon(RoutingBeaconPayload {
                pull: true,
                parent: None,
                path_metric: s(0.0),
                neighbors: vec![],
            }),
            Event::Proprietary(200, vec![1, 2]),
        ],
    );
    let event = proxy_event_mesh_packet::<()>(&packet, Ok(GATEWAY)).ok().unwrap();
    assert_eq!(event.gateway_id, "aabbccdd00010203");
    assert_eq!(event.relay_id, "05060708");
    assert_eq!(event.time, TIME);
    assert_eq!(event.events.len(), 2);
    match &event.events[0] {
        MeshEventItem::Heartbeat(path) => {
            assert_eq!(path.len(), 2);
            assert_eq!(path[0].relay_id, "05060708");
            assert_eq!((path[0].rssi, path[0].snr), (-120, -12));
            assert_eq!(path[1].relay_id, "01020304");
        }
        _ => panic!("the heartbeat comes first"),
    }
    assert!(matches!(&event.events[1], MeshEventItem::Proprietary(200, p) if p == &vec![1, 2]));
    let failed = proxy_event_mesh_packet(&packet, Err("gateway"));
    assert!(matches!(failed, Err(Failure::Service("gateway"))));
    let wrong = proxy_event_mesh_packet(&downlink(ME, 1), Err("gateway"));
    assert!(matches!(wrong, Err(Failure::Mesh(MeshError::NotAnEvent))));
}

#[test]
fn an_answer_finds_its_device() {
    // A relay takes an uplink in and sends it to the border gateway.
    let mut relay = MeshState::new();
    let mut table = routing_with_parent();
    let frame = frame();
    let decision = route_uplink(&frame, &mut table, at(2)).0.unwrap().unwrap();
    let rx = frame.rx_info.as_ref().unwrap();
    let packet = relay_uplink_lora_packet::<()>(
        &mut relay, rx, &[1], &decision, ME, Ok(1), Ok(1), 0,
    )
    .unwrap();

    // The border gateway hands it on; the answer comes with its context.
    let told = proxy_uplink_mesh_packet::<&str, ()>(
        UplinkFrame {
            phy_payload: vec![],
            tx_info: None,
            rx_info: Some(UplinkRxInfo {
                gateway_id: String::new(),
                uplink_id: 0,
                rssi: 0,
                snr: s(0.0),
                context: vec![],
                metadata: Metadata::new(),
            }),
        },
        &packet,
        Ok(GATEWAY),
        Ok(1),
        Ok("SF7"),
        0,
    )
    .ok()
    .unwrap();
    let answer = item(told.rx_info.unwrap().context, Some(Timing::Delay(Some(1))));
    let target = read_item(&answer).unwrap();
    assert_eq!(handle_downlink(&down(vec![answer])), Ok(DownlinkAction::Relay));
    let packet = relay_downlink_lora_packet::<()>(&target, &[2], Ok(1), Ok(1)).unwrap();

    // The relay delivers it with the context that the uplink came with.
    let (action, _) = relay_mesh_packet(&frame, packet, ME, &mut table, 3, at(3));
    let payload = match action.unwrap() {
        RelayAction::Deliver(payload) => payload,
        other => panic!("unexpected: {:?}", other),
    };
    let sent = delivery_frame::<&str, ()>(&relay, 1, &payload, Ok(14), Ok("SF7"), Ok(GATEWAY));
    let sent = sent.ok().unwrap();
    assert_eq!(sent.items[0].tx_info.as_ref().unwrap().context, rx.context);
}
