use gateway_mesh::config::DataRate;
use gateway_mesh::mesh::scheduler::{enqueue, ScheduledPacket, SchedulerState, TxPlan};
use gateway_mesh::packets::{CommandPayload, MeshPacket, Mhdr, Payload, PayloadType, Timestamp};
use gateway_mesh::time::Duration;

fn packet(mark: u8, flow: u8) -> ScheduledPacket {
    ScheduledPacket {
        packet: MeshPacket {
            mhdr: Mhdr { payload_type: PayloadType::Command, hop_count: mark },
            payload: Payload::Command(CommandPayload {
                timestamp: Timestamp { seconds: 0, nanos: 0 },
                relay_id: [0; 4],
                commands: vec![],
            }),
            mic: None,
        },
        plan: TxPlan {
            data_rate: DataRate { spreading_factor: 7 },
            toa: Duration { nanos: 1 },
        },
        flow_id: [0, 0, 0, flow],
        next_hop: None,
        requires_ack: false,
    }
}

fn marks(state: &mut SchedulerState) -> Vec<u8> {
    let mut out = Vec::new();
    while let Some(p) = state.pop_next() {
        out.push(p.packet.mhdr.hop_count);
    }
    out
}

#[test]
fn packets_leave_in_order() {
    let mut state = SchedulerState::new();
    assert!(state.pop_next().is_none());
    for i in 1..=4 {
        state.push(packet(i, i));
    }
    assert_eq!(marks(&mut state), vec![1, 2, 3, 4]);
}

#[test]
fn the_latest_packet_of_a_flow_takes_the_place() {
    let mut state = SchedulerState::new();
    state.push(packet(1, 1));
    state.push(packet(2, 2));
    state.push(packet(3, 1));
    assert_eq!(marks(&mut state), vec![3, 2]);
    // Once a flow was served it queues at the end again.
    state.push(packet(4, 1));
    state.push(packet(5, 2));
    assert_eq!(state.pop_next().unwrap().packet.mhdr.hop_count, 4);
    state.push(packet(6, 1));
    assert_eq!(marks(&mut state), vec![5, 6]);
}

#[test]
fn enqueue_keeps_what_it_was_given() {
    let mut state = SchedulerState::new();
    let p = packet(9, 3);
    enqueue(&mut state, p.packet, p.plan, [1, 1, 1, 1], Some([2; 4]), true);
    let out = state.pop_next().unwrap();
    assert_eq!(out.flow_id, [1, 1, 1, 1]);
    assert_eq!(out.next_hop, Some([2; 4]));
    assert!(out.requires_ack);
    assert_eq!(out.plan, p.plan);
    assert_eq!(out.packet.mhdr.hop_count, 9);
}
