use gateway_mesh::jit_guard::{JitGuard, JitGuardCfg, ScheduleError};
use gateway_mesh::scheduler::drr::{compute_quantum, DrrScheduler};
use gateway_mesh::time::{Duration, Instant};

#[test]
fn guard_blocks_back_to_back() {
    let cfg = JitGuardCfg {
        tx_start_delay_ms: 1,
        tx_jit_delay_ms: 80,
        post_tx_rx_guard_ms: 10,
    };
    let mut guard = JitGuard::new(cfg);
    let now = Instant { nanos: 1_000_000_000 };
    let _ = guard.schedule_tx(now, 1000).unwrap();
    assert!(guard
        .schedule_tx(now.plus(Duration::from_millis(5)), 1000)
        .is_err());
}

#[test]
fn guard_opens_exactly_after_its_time() {
    let mut guard = JitGuard::new(JitGuardCfg::default());
    let now = Instant { nanos: 0 };
    assert!(guard.can_enter_rx(now));
    let tx = guard.schedule_tx(now, 1000).unwrap();
    assert_eq!(tx.start.nanos, 2_000_000);
    assert_eq!(tx.end.nanos, 3_000_000);
    let early = Instant { nanos: 12_999_999 };
    let open = Instant { nanos: 13_000_000 };
    assert!(!guard.can_enter_rx(early));
    assert_eq!(guard.schedule_tx(early, 1), Err(ScheduleError::GuardViolation));
    assert!(guard.can_enter_rx(open));
    guard.on_tx_done(Instant { nanos: 4_000_000 });
    assert!(!guard.can_enter_rx(open));
    assert!(guard.schedule_tx(Instant { nanos: 14_000_000 }, 1).is_ok());
}

#[test]
fn done_without_a_transmission_changes_nothing() {
    let mut guard = JitGuard::new(JitGuardCfg::default());
    guard.on_tx_done(Instant { nanos: 99 });
    assert!(guard.can_enter_rx(Instant { nanos: 0 }));
}

#[test]
fn guard_counts_from_the_last_end() {
    let at = |ms: u64| Instant { nanos: ms * 1_000_000 };
    let mut guard = JitGuard::new(JitGuardCfg {
        tx_start_delay_ms: 1,
        tx_jit_delay_ms: 80,
        post_tx_rx_guard_ms: 10,
    });
    guard.on_tx_done(at(500));
    assert!(guard.schedule_tx(at(0), 4000).is_ok());
    // Refused requests move nothing.
    assert!(guard.schedule_tx(at(14), 4000).is_err());
    assert!(!guard.can_enter_rx(at(14)) && guard.can_enter_rx(at(15)));
    // Of several corrections the last one counts, also an earlier end.
    guard.on_tx_done(at(90));
    guard.on_tx_done(at(20));
    assert!(!guard.can_enter_rx(at(29)) && guard.can_enter_rx(at(30)));
    assert!(guard.schedule_tx(at(30), 1000).is_ok());
    assert!(!guard.can_enter_rx(at(41)) && guard.can_enter_rx(at(42)));
}

#[test]
fn schedule_errors_have_texts() {
    assert_eq!(ScheduleError::TooLate.message(), "tx scheduled too late");
    assert_eq!(ScheduleError::GuardViolation.message(), "post tx guard violation");
}

#[test]
fn scheduler_rotates() {
    let mut sched: DrrScheduler<u8, u8> = DrrScheduler::new(50_000, Duration::from_millis(0));
    let now = Instant { nanos: 1_000_000_000 };
    sched.enqueue(1, 10, 400, now);
    sched.enqueue(2, 11, 100, now);

    let mut seen = Vec::new();
    for i in 1..=10 {
        if let Some((nhop, _)) = sched.pick_next(now.plus(Duration::from_millis(i))) {
            seen.push(nhop);
        }
    }
    assert!(seen.contains(&1));
    assert!(seen.contains(&2));
}

#[test]
fn frames_of_a_hop_leave_in_order() {
    let mut sched: DrrScheduler<u8, u8> = DrrScheduler::new(1_000_000, Duration::from_millis(0));
    let now = Instant { nanos: 0 };
    for frame in 0..4u8 {
        sched.enqueue(1, frame, 10, now);
        sched.enqueue(2, 100 + frame, 10, now);
    }
    let mut seen = Vec::new();
    while let Some((nhop, envelope)) = sched.pick_next(now) {
        seen.push((nhop, envelope.frame));
    }
    assert_eq!(
        seen,
        vec![(1, 0), (2, 100), (1, 1), (2, 101), (1, 2), (2, 102), (1, 3), (2, 103)]
    );
}

#[test]
fn deficits_are_saved_until_they_pay() {
    // A share of 3 against an airtime of 10: the fourth round pays.
    let mut sched: DrrScheduler<u8, u8> = DrrScheduler::new(30, Duration::from_millis(0));
    let now = Instant { nanos: 0 };
    sched.enqueue(1, 7, 10, now);
    for _ in 0..3 {
        assert!(sched.deficits_fit(now));
        assert!(sched.pick_next(now).is_none());
    }
    assert_eq!(sched.pick_next(now).unwrap().1.frame, 7);
    assert!(sched.pick_next(now).is_none());
}

#[test]
fn frames_wait_for_the_guard_time() {
    let mut sched: DrrScheduler<u8, u8> = DrrScheduler::new(1_000_000, Duration::from_millis(5));
    let now = Instant { nanos: 1_000_000_000 };
    sched.enqueue(1, 7, 10, now);
    assert!(sched.pick_next(now.plus(Duration::from_millis(4))).is_none());
    // A frame that was queued in the future has not waited at all.
    assert!(sched.pick_next(Instant { nanos: 0 }).is_none());
    assert!(sched.pick_next(now.plus(Duration::from_millis(5))).is_some());
}

#[test]
fn deficits_that_would_overflow_are_seen() {
    let mut sched: DrrScheduler<u8, u8> = DrrScheduler::new(i32::MAX, Duration::from_millis(5));
    let now = Instant { nanos: 0 };
    sched.enqueue(1, 7, 1, now);
    assert!(sched.deficits_fit(now));
    assert!(sched.pick_next(now).is_none());
    assert!(!sched.deficits_fit(now));
}

#[test]
fn quantum_is_the_scaled_inverse_of_the_airtime() {
    assert_eq!(compute_quantum(50_000, 400), 125);
    assert_eq!(compute_quantum(50_000, 0), 50_000);
    assert_eq!(compute_quantum(50_000, 50_001), 1);
    assert_eq!(compute_quantum(50_000, u32::MAX), 1);
}
