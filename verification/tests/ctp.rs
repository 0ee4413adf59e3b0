use gateway_mesh::config::{CtpConfig, DataRate, MeshConfig};
use gateway_mesh::mesh::beacon;
use gateway_mesh::mesh::ctp::{
    self, BeaconAction, BeaconEvent, NeighborState, ParentUpdate, RoutingState, TrickleState,
};
use gateway_mesh::mesh::scheduler::{
    transmit, TransmitAction, TransmitEvent, TxPlan, BEACON_FLOW_ID,
};
use gateway_mesh::packets::{
    Event, Payload, PayloadType, RoutingBeaconPayload, RoutingNeighborEntry, Timestamp,
};
use gateway_mesh::single::Single;
use gateway_mesh::time::{Duration, Instant};

const ME: [u8; 4] = [1, 2, 3, 4];
const A: [u8; 4] = [10, 0, 0, 1];
const B: [u8; 4] = [10, 0, 0, 2];

fn s(x: f32) -> Single {
    Single { bits: x.to_bits() }
}

fn f(x: Single) -> f32 {
    f32::from_bits(x.bits)
}

fn secs(n: u64) -> Duration {
    Duration { nanos: n * 1_000_000_000 }
}

fn at(n: u64) -> Instant {
    Instant { nanos: n * 1_000_000_000 }
}

fn conf(border_gateway: bool) -> MeshConfig {
    MeshConfig {
        border_gateway,
        max_hop_count: 8,
        frequencies: vec![868_100_000],
        tx_power: 16,
        data_rate: DataRate { spreading_factor: 7 },
        signing_key: [0; 16],
        ctp: CtpConfig {
            beacon_min_interval: secs(2),
            beacon_max_interval: secs(60),
            neighbor_expiration: secs(100),
            cost_improvement_reset: s(1.5),
            ewma_alpha: s(0.25),
        },
    }
}

fn beacon_of(path_metric: f32, entries: &[([u8; 4], f32, u8)]) -> RoutingBeaconPayload {
    RoutingBeaconPayload {
        pull: false,
        parent: None,
        path_metric: s(path_metric),
        neighbors: entries
            .iter()
            .map(|(id, delivery, sf)| RoutingNeighborEntry {
                neighbor_id: *id,
                delivery: s(*delivery),
                spreading_factor: *sf,
            })
            .collect(),
    }
}

fn machine_etx(forward: f32, reverse: f32) -> f32 {
    let forward = forward.clamp(0.01, 1.0);
    let reverse = reverse.clamp(0.01, 1.0);
    1.0 / (forward * reverse)
}

fn machine_toa_ms(d: Duration) -> f32 {
    std::time::Duration::from_nanos(d.nanos).as_secs_f32() * 1000.0
}

#[test]
fn link_metrics_agree_with_the_machine() {
    let ratios = [0.0, 0.005, 0.01, 0.3, 0.5, 0.77, 0.95, 1.0, 2.0, -1.0, f32::INFINITY];
    for &a in &ratios {
        for &b in &ratios {
            let etx = ctp::compute_link_etx(s(a), s(b));
            assert_eq!(etx.bits, machine_etx(a, b).to_bits());
            assert!(f(etx) >= 1.0);
        }
    }
    for nanos in [0, 1, 13_000_000, 304_000_000, 1_999_999_999, 61_234_567_891, u64::MAX] {
        let d = Duration { nanos };
        assert_eq!(ctp::toa_ms(d).bits, machine_toa_ms(d).to_bits());
    }
}

#[test]
fn beacon_times_by_spreading_factor() {
    let times: Vec<u64> = (5..=14).map(|sf| ctp::toa_for_sf(sf).as_millis()).collect();
    assert_eq!(times, vec![13, 13, 13, 21, 44, 82, 152, 304, 304, 304]);
}

#[test]
fn trickle_timer_doubles_up_to_its_maximum() {
    let mut timer = TrickleState::new(&conf(false).ctp);
    assert!(timer.force_immediate && !timer.pending_pull);
    let mut seen = Vec::new();
    for _ in 0..7 {
        seen.push(timer.current_interval.nanos / 1_000_000_000);
        timer.after_send();
    }
    assert_eq!(seen, vec![2, 4, 8, 16, 32, 60, 60]);
    assert!(!timer.force_immediate);
    timer.reset();
    assert_eq!(timer.current_interval, secs(2));
    assert!(timer.force_immediate);

    let mut huge = TrickleState {
        current_interval: Duration { nanos: u64::MAX - 1 },
        max_interval: Duration { nanos: u64::MAX },
        ..timer
    };
    huge.after_send();
    assert_eq!(huge.current_interval.nanos, u64::MAX);
}

#[test]
fn parent_update_asks_for_a_reset() {
    assert!(!ParentUpdate::none().should_reset());
    assert!(ParentUpdate { changed: true, improved: false }.should_reset());
    assert!(ParentUpdate { changed: false, improved: true }.should_reset());
}

#[test]
fn a_relay_starts_by_asking_for_beacons() {
    let mut relay = ctp::setup(ME, &conf(false));
    assert_eq!(f(ctp::current_path_metric(&relay)), f32::INFINITY);
    let none = ctp::current_route_info(&relay);
    assert_eq!((none.parent, none.link_toa_ms), (None, 0));
    assert_eq!((f(none.path_metric), f(none.link_metric)), (0.0, 0.0));
    match ctp::beacon_step(&mut relay, BeaconEvent::Round) {
        BeaconAction::Send(beacon) => {
            assert!(beacon.pull);
            assert_eq!(beacon.parent, None);
            assert!(beacon.neighbors.is_empty());
        }
        BeaconAction::Wait(_) => panic!("the first beacon is sent at once"),
    }
    match ctp::beacon_step(&mut relay, BeaconEvent::Round) {
        BeaconAction::Wait(d) => assert_eq!(d, secs(4)),
        BeaconAction::Send(_) => panic!("the second beacon waits"),
    }
    assert!(matches!(ctp::beacon_step(&mut relay, BeaconEvent::Elapsed), BeaconAction::Send(_)));
    assert_eq!(relay.trickle.current_interval, secs(8));

    let border = ctp::setup(ME, &conf(true));
    assert!(!border.trickle.pending_pull);
    assert_eq!(f(border.path_metric), 0.0);
}

#[test]
fn the_shortest_path_wins() {
    let mut state = RoutingState::new(ME, false, &conf(false));
    assert!(ctp::handle_beacon(&mut state, A, &beacon_of(0.0, &[(ME, 0.5, 9)]), at(1)));
    let expected = 0.0 + machine_etx(0.5, 0.5) * machine_toa_ms(ctp::toa_for_sf(9));
    assert_eq!(f(state.path_metric), expected);
    let first = state.current_decision().unwrap();
    assert_eq!(first.parent, A);
    assert_eq!(first.data_rate.spreading_factor, 9);
    assert_eq!(first.toa.as_millis(), 44);
    assert_eq!(f(first.link_etx), 4.0);

    // The first entry for this relay counts.
    let better = beacon_of(10.0, &[([9; 4], 0.1, 12), (ME, 1.0, 7), (ME, 0.2, 12)]);
    assert!(ctp::handle_beacon(&mut state, B, &better, at(2)));
    let (decision, woken) = ctp::prepare_uplink(&mut state, at(3));
    assert_eq!(decision.unwrap().parent, B);
    assert!(!woken);
    let expected = 10.0 + machine_etx(0.5, 1.0) * machine_toa_ms(ctp::toa_for_sf(7));
    assert_eq!(f(state.path_metric), expected);

    let info = ctp::current_route_info(&state);
    assert_eq!(info.parent, Some(B));
    assert_eq!(info.link_toa_ms, 13);
    assert_eq!(f(info.path_metric), expected);
}

#[test]
fn equal_paths_keep_the_first_neighbor() {
    let mut state = RoutingState::new(ME, false, &conf(false));
    ctp::handle_beacon(&mut state, A, &beacon_of(5.0, &[]), at(1));
    ctp::handle_beacon(&mut state, B, &beacon_of(5.0, &[]), at(1));
    assert_eq!(state.current_decision().unwrap().parent, A);
}

#[test]
fn unusable_metrics_give_no_parent() {
    let mut state = RoutingState::new(ME, false, &conf(false));
    assert!(!ctp::handle_beacon(&mut state, A, &beacon_of(f32::INFINITY, &[]), at(1)));
    assert!(!ctp::handle_beacon(&mut state, B, &beacon_of(f32::NAN, &[]), at(1)));
    assert!(state.current_decision().is_none());
    assert_eq!(state.neighbors.len(), 2);
}

#[test]
fn silent_neighbors_expire() {
    let mut state = RoutingState::new(ME, false, &conf(false));
    ctp::handle_beacon(&mut state, A, &beacon_of(0.0, &[]), at(1));
    ctp::handle_beacon(&mut state, B, &beacon_of(50.0, &[]), at(50));
    assert_eq!(ctp::cleanup_interval(&state), secs(50));
    assert!(!ctp::cleanup_step(&mut state, at(101)));
    assert_eq!(state.current_decision().unwrap().parent, A);
    assert!(ctp::cleanup_step(&mut state, at(102)));
    assert_eq!(state.neighbors.len(), 1);
    assert_eq!(state.current_decision().unwrap().parent, B);
    assert!(state.trickle.force_immediate);
    // A clock that runs backwards makes nobody look silent.
    assert!(!ctp::cleanup_step(&mut state, at(0)));
    assert!(ctp::cleanup_step(&mut state, at(500)));
    assert!(state.parent.is_none());
    assert_eq!(f(state.path_metric), f32::INFINITY);
}

#[test]
fn a_border_gateway_has_no_parent() {
    let mut state = RoutingState::new(ME, true, &conf(true));
    assert!(!ctp::handle_beacon(&mut state, A, &beacon_of(0.0, &[]), at(1)));
    assert!(state.current_decision().is_none());
    assert_eq!(f(state.path_metric), 0.0);
    assert_eq!(state.neighbors.len(), 1);
    assert!(!ctp::cleanup_step(&mut state, at(1000)));
    assert_eq!(state.neighbors.len(), 1);
}

#[test]
fn a_large_improvement_restarts_the_timer() {
    let mut state = RoutingState::new(ME, false, &conf(false));
    ctp::handle_beacon(&mut state, A, &beacon_of(300.0, &[]), at(1));
    state.trickle.after_send();
    assert!(!ctp::handle_beacon(&mut state, A, &beacon_of(250.0, &[]), at(2)));
    assert!(ctp::handle_beacon(&mut state, A, &beacon_of(50.0, &[]), at(3)));
    assert!(state.trickle.force_immediate);
}

#[test]
fn a_pull_restarts_the_timer() {
    let mut state = RoutingState::new(ME, false, &conf(false));
    ctp::handle_beacon(&mut state, A, &beacon_of(0.0, &[]), at(1));
    state.trickle.after_send();
    let mut pull = beacon_of(0.0, &[]);
    pull.pull = true;
    assert!(ctp::handle_beacon(&mut state, A, &pull, at(2)));
    assert!(state.trickle.force_immediate);
    assert!(!state.trickle.pending_pull);
    ctp::notify_pull_request(&mut state);
    assert!(state.trickle.pending_pull && state.trickle.force_immediate);
}

#[test]
fn a_child_that_is_nearer_is_an_inconsistency() {
    let mut state = RoutingState::new(ME, false, &conf(false));
    assert!(!ctp::notify_inconsistency(&mut state, s(0.0)));
    ctp::handle_beacon(&mut state, A, &beacon_of(100.0, &[]), at(1));
    state.trickle.after_send();
    let own = f(state.path_metric);
    assert!(!ctp::notify_inconsistency(&mut state, s(own - 1.0)));
    assert!(!state.trickle.force_immediate);
    assert!(ctp::notify_inconsistency(&mut state, s(own - 1.5)));
    assert!(state.trickle.force_immediate);
}

#[test]
fn outcomes_move_the_data_rate() {
    let mut state = RoutingState::new(ME, false, &conf(false));
    ctp::handle_beacon(&mut state, A, &beacon_of(0.0, &[]), at(1));
    let mut delivery = 0.5_f32;
    for (success, sf, expected_sf) in [
        (false, 7, 8),
        (false, 12, 12),
        (true, 9, 9),
        (true, 9, 9),
        (true, 200, 12),
        (false, 0, 8),
    ] {
        let plan = TxPlan {
            data_rate: DataRate { spreading_factor: sf },
            toa: Duration { nanos: 1_000_000 },
        };
        ctp::record_tx_attempt(&mut state, A, &plan);
        assert_eq!(state.neighbors[0].toa, plan.toa);
        ctp::record_tx_result(&mut state, A, &plan, success, at(2));
        let sample = if success { 1.0 } else { 0.0 };
        delivery = ((1.0 - 0.25) * delivery + 0.25 * sample).clamp(0.01, 1.0);
        let n: NeighborState = state.neighbors[0];
        assert_eq!(f(n.forward_delivery), delivery);
        assert_eq!(n.sf, expected_sf);
        if expected_sf != sf.clamp(7, 12) {
            assert_eq!(n.toa, ctp::toa_for_sf(expected_sf));
        } else {
            assert_eq!(n.toa, plan.toa);
        }
    }
    // On a good link a success speeds things up.
    for _ in 0..20 {
        let plan = TxPlan { data_rate: DataRate { spreading_factor: 9 }, toa: secs(1) };
        ctp::record_tx_result(&mut state, A, &plan, true, at(2));
    }
    assert_eq!(state.neighbors[0].sf, 8);
    assert!(f(state.neighbors[0].forward_delivery) > 0.95);
    // An unknown neighbour is not learnt of in this way.
    let plan = TxPlan { data_rate: DataRate { spreading_factor: 9 }, toa: secs(1) };
    ctp::record_tx_attempt(&mut state, B, &plan);
    ctp::record_tx_result(&mut state, B, &plan, true, at(2));
    assert_eq!(state.neighbors.len(), 1);
}

#[test]
fn transmissions_are_recorded_for_the_next_hop() {
    let mut state = RoutingState::new(ME, false, &conf(false));
    ctp::handle_beacon(&mut state, A, &beacon_of(0.0, &[]), at(1));
    let plan = TxPlan { data_rate: DataRate { spreading_factor: 10 }, toa: secs(1) };
    let none = TxPlan { data_rate: DataRate { spreading_factor: 10 }, toa: secs(0) };

    let step = transmit(&mut state, &plan, Some(A), true, TransmitEvent::Taken, at(2));
    assert_eq!(step, (TransmitAction::Send, false));
    assert_eq!(state.neighbors[0].sf, 10);
    let (action, _) = transmit(&mut state, &plan, Some(A), true, TransmitEvent::Sent(true), at(2));
    assert_eq!(action, TransmitAction::BackOff(secs(1)));
    assert_eq!(f(state.neighbors[0].forward_delivery), 0.625);
    let (action, _) = transmit(&mut state, &plan, Some(A), true, TransmitEvent::Sent(false), at(2));
    assert_eq!(action, TransmitAction::Fail);
    let (action, _) = transmit(&mut state, &none, Some(A), true, TransmitEvent::Sent(true), at(2));
    assert_eq!(action, TransmitAction::Done);

    let before = f(state.neighbors[0].forward_delivery);
    let step = transmit(&mut state, &plan, None, false, TransmitEvent::Taken, at(2));
    assert_eq!(step, (TransmitAction::Send, false));
    let step = transmit(&mut state, &plan, None, false, TransmitEvent::Sent(true), at(2));
    assert_eq!(step, (TransmitAction::Done, false));
    assert_eq!(f(state.neighbors[0].forward_delivery), before);
}

#[test]
fn beacons_list_the_neighbors() {
    let mut state = RoutingState::new(ME, false, &conf(false));
    ctp::handle_beacon(&mut state, A, &beacon_of(0.0, &[(ME, 1.0, 11)]), at(1));
    ctp::handle_beacon(&mut state, B, &beacon_of(900.0, &[]), at(1));
    let payload = state.build_beacon();
    assert_eq!(payload.parent, Some(A));
    assert_eq!(f(payload.path_metric), f(state.path_metric));
    assert_eq!(payload.neighbors.len(), 2);
    assert_eq!(payload.neighbors[0].neighbor_id, A);
    assert_eq!(payload.neighbors[0].spreading_factor, 11);
    assert_eq!(f(payload.neighbors[1].delivery), 0.5);

    let time = Timestamp { seconds: 7, nanos: 8 };
    let packet = beacon::beacon_packet(payload, ME, time);
    assert_eq!(packet.mhdr.payload_type, PayloadType::Event);
    assert_eq!(packet.mhdr.hop_count, 1);
    match &packet.payload {
        Payload::Event(pl) => {
            assert_eq!((pl.relay_id, pl.timestamp), (ME, time));
            assert!(matches!(&pl.events[..], [Event::RoutingBeacon(_)]));
        }
        _ => panic!("a beacon is an event"),
    }
    let mut c = conf(false);
    c.data_rate.spreading_factor = 10;
    let queued = beacon::enqueue_beacon(packet, &c);
    assert_eq!(queued.flow_id, BEACON_FLOW_ID);
    assert_eq!(queued.next_hop, None);
    assert!(!queued.requires_ack);
    assert_eq!(queued.plan.toa.as_millis(), 82);
    assert_eq!(queued.plan.data_rate.spreading_factor, 10);
}

#[test]
fn short_millis_wrap() {
    assert_eq!(ctp::to_short_millis(Duration { nanos: 65_535_999_999 }), 65_535);
    assert_eq!(ctp::to_short_millis(Duration { nanos: 65_536_000_000 }), 0);
}

#[test]
fn every_state_keeps_its_bounds() {
    let mut state = ctp::setup(ME, &conf(false));
    let mut seed: u32 = 99;
    let mut draw = |n: u32| {
        seed = seed.wrapping_mul(1_664_525).wrapping_add(1_013_904_223);
        (seed >> 16) % n
    };
    for step in 0..2000 {
        let id = [0, 0, 0, draw(5) as u8];
        let sf = draw(20) as u8;
        let plan = TxPlan { data_rate: DataRate { spreading_factor: sf }, toa: ctp::toa_for_sf(sf) };
        let now = at(step * 3);
        match draw(5) {
            0 => {
                let entries = [(ME, draw(300) as f32 / 100.0 - 1.0, sf)];
                ctp::handle_beacon(&mut state, id, &beacon_of(draw(500) as f32, &entries), now);
            }
            1 => ctp::record_tx_attempt(&mut state, id, &plan),
            2 => {
                ctp::record_tx_result(&mut state, id, &plan, draw(2) == 0, now);
            }
            3 => {
                ctp::beacon_step(&mut state, BeaconEvent::Elapsed);
            }
            _ => {
                ctp::cleanup_step(&mut state, now);
            }
        }
        for n in &state.neighbors {
            assert!((7..=12).contains(&n.sf));
            for x in [f(n.forward_delivery), f(n.reverse_delivery)] {
                assert!((0.01..=1.0).contains(&x), "{}", x);
            }
            let link = machine_etx(f(n.forward_delivery), f(n.reverse_delivery))
                * machine_toa_ms(n.toa);
            assert!(f(n.neighbor_metric) + link >= f(n.neighbor_metric));
        }
        if let Some(parent) = &state.parent {
            assert!(state.neighbors.iter().any(|n| n.id == parent.parent));
            assert!(f(state.path_metric).is_finite());
        }
        let interval = state.trickle.current_interval.nanos;
        assert!((secs(2).nanos..=secs(60).nanos).contains(&interval));
    }
}
