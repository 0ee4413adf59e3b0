//! Keeps transmissions apart from each other and from the receive window.
use crate::time::Duration;
use crate::time::Instant;
use vstd::prelude::*;
use vstd::string::StringExecFns;

verus! {

#[derive(Debug, Clone, Copy, PartialEq, Eq, Structural)]
pub struct JitGuardCfg {
    pub tx_start_delay_ms: u32,
    pub tx_jit_delay_ms: u32,
    pub post_tx_rx_guard_ms: u32,
}

impl Default for JitGuardCfg {
    fn default() -> (cfg: Self)
        ensures
            cfg.tx_start_delay_ms == 2,
            cfg.tx_jit_delay_ms == 80,
            cfg.post_tx_rx_guard_ms == 10,
    {
        Self { tx_start_delay_ms: 2, tx_jit_delay_ms: 80, post_tx_rx_guard_ms: 10 }
    }
}

#[derive(Debug, Clone, Copy, PartialEq, Eq, Structural)]
pub struct ScheduledTx {
    pub start: Instant,
    pub end: Instant,
}

#[derive(Debug)]
pub struct JitGuard {
    cfg: JitGuardCfg,
    last_tx: Option<ScheduledTx>,
}

#[derive(Debug, Clone, Copy, PartialEq, Eq, Structural)]
pub enum ScheduleError {
    TooLate,
    GuardViolation,
}

impl ScheduleError {
    /// The error as a line of text.
    pub fn message(&self) -> (text: String)
        ensures
            text@ == match *self {
                ScheduleError::TooLate => "tx scheduled too late"@,
                ScheduleError::GuardViolation => "post tx guard violation"@,
            },
    {
        match self {
            ScheduleError::TooLate => String::from_str("tx scheduled too late"),
            ScheduleError::GuardViolation => String::from_str("post tx guard violation"),
        }
    }
}

/// When a transmission asked for at `now` begins, in nanoseconds.
pub open spec fn tx_start(cfg: JitGuardCfg, now: Instant) -> int {
    now.nanos + cfg.tx_start_delay_ms * 1_000_000
}

/// When a transmission asked for at `now` is over, in nanoseconds.
pub open spec fn tx_end(cfg: JitGuardCfg, now: Instant, airtime_us: u32) -> int {
    tx_start(cfg, now) + airtime_us * 1_000
}

/// Whether the guard time after the last transmission has passed.
pub open spec fn guard_passed(cfg: JitGuardCfg, last: Option<ScheduledTx>, now: Instant) -> bool {
    match last {
        None => true,
        Some(tx) => now.nanos >= tx.end.nanos + cfg.post_tx_rx_guard_ms * 1_000_000,
    }
}

/// The transmission that is scheduled at `now`.
pub open spec fn scheduled(cfg: JitGuardCfg, now: Instant, airtime_us: u32) -> ScheduledTx {
    ScheduledTx {
        start: Instant { nanos: tx_start(cfg, now) as u64 },
        end: Instant { nanos: tx_end(cfg, now, airtime_us) as u64 },
    }
}

/// Whether asking for a transmission at `now` gives `res`: it is let through
/// exactly where the guard time has passed.
pub open spec fn schedule_gives(
    cfg: JitGuardCfg,
    last: Option<ScheduledTx>,
    now: Instant,
    airtime_us: u32,
    res: Result<ScheduledTx, ScheduleError>,
) -> bool {
    res == if guard_passed(cfg, last, now) {
        Ok(scheduled(cfg, now, airtime_us))
    } else {
        Err(ScheduleError::GuardViolation)
    }
}

/// The last transmission, with its end corrected.
pub open spec fn corrected(last: Option<ScheduledTx>, end: Instant) -> Option<ScheduledTx> {
    match last {
        Some(tx) => Some(ScheduledTx { start: tx.start, end }),
        None => None,
    }
}

impl JitGuard {
    pub closed spec fn config(&self) -> JitGuardCfg {
        self.cfg
    }

    /// The last transmission that was scheduled.
    pub closed spec fn last(&self) -> Option<ScheduledTx> {
        self.last_tx
    }

    pub fn new(cfg: JitGuardCfg) -> (guard: Self)
        ensures
            guard.config() == cfg,
            guard.last() is None,
    {
        Self { cfg, last_tx: None }
    }

    /// Schedules a transmission, unless the guard time of the last one still runs.
    pub fn schedule_tx(&mut self, now: Instant, airtime_us: u32) -> (res: Result<
        ScheduledTx,
        ScheduleError,
    >)
        requires
            tx_end(old(self).config(), now, airtime_us) <= u64::MAX,
        ensures
            final(self).config() == old(self).config(),
            schedule_gives(old(self).config(), old(self).last(), now, airtime_us, res),
            final(self).last() == match res {
                Ok(tx) => Some(tx),
                Err(_) => old(self).last(),
            },
    {
        let start = now.plus(Duration::from_millis(self.cfg.tx_start_delay_ms as u64));
        let end = start.plus(Duration::from_micros(airtime_us as u64));

        if !self.can_enter_rx(now) {
            return Err(ScheduleError::GuardViolation);
        }
        let tx = ScheduledTx { start, end };
        self.last_tx = Some(tx);
        Ok(tx)
    }

    /// Corrects the end of the last transmission.
    pub fn on_tx_done(&mut self, end: Instant)
        ensures
            final(self).config() == old(self).config(),
            final(self).last() == corrected(old(self).last(), end),
    {
        if let Some(last) = self.last_tx {
            self.last_tx = Some(ScheduledTx { start: last.start, end });
        }
    }

    pub fn can_enter_rx(&self, now: Instant) -> (res: bool)
        ensures
            res == guard_passed(self.config(), self.last(), now),
    {
        match self.last_tx {
            None => true,
            Some(last) => {
                let guard: u128 = (self.cfg.post_tx_rx_guard_ms as u128) * 1_000_000;
                now.nanos as u128 >= last.end.nanos as u128 + guard
            },
        }
    }
}

/// A transmission that is let through after another begins no earlier than the
/// guard time after the other's end.
pub proof fn transmissions_keep_their_distance(
    cfg: JitGuardCfg,
    first: ScheduledTx,
    now: Instant,
    second: ScheduledTx,
)
    requires
        guard_passed(cfg, Some(first), now),
        second.start.nanos == tx_start(cfg, now),
    ensures
        second.start.nanos >= first.end.nanos + cfg.post_tx_rx_guard_ms * 1_000_000,
{
}

/// Once the guard time has passed, it stays so until something else is sent.
pub proof fn guard_stays_passed(
    cfg: JitGuardCfg,
    last: Option<ScheduledTx>,
    now: Instant,
    later: Instant,
)
    requires
        guard_passed(cfg, last, now),
        later.nanos >= now.nanos,
    ensures
        guard_passed(cfg, last, later),
{
}

/// Before a transmission is over, and for the guard time after it, neither
/// another transmission nor reception is let through.
pub proof fn guard_blocks_while_sending(cfg: JitGuardCfg, tx: ScheduledTx, now: Instant)
    requires
        now.nanos < tx.end.nanos + cfg.post_tx_rx_guard_ms * 1_000_000,
    ensures
        !guard_passed(cfg, Some(tx), now),
{
}

/// A transmission is accepted exactly when reception is allowed, whatever its
/// airtime, and always where nothing was sent before.
pub proof fn accepted_exactly_when_reception_is_allowed(
    cfg: JitGuardCfg,
    last: Option<ScheduledTx>,
    now: Instant,
    airtime_us: u32,
    res: Result<ScheduledTx, ScheduleError>,
)
    requires
        schedule_gives(cfg, last, now, airtime_us, res),
    ensures
        res is Ok <==> guard_passed(cfg, last, now),
        last is None ==> res is Ok,
{
}

/// A transmission that is accepted begins after the configured delay and takes its airtime.
/// One is refused exactly where another was scheduled before and the guard time after
/// its end still runs.
pub proof fn accepted_transmission_takes_its_airtime(
    cfg: JitGuardCfg,
    last: Option<ScheduledTx>,
    now: Instant,
    airtime_us: u32,
    res: Result<ScheduledTx, ScheduleError>,
)
    requires
        schedule_gives(cfg, last, now, airtime_us, res),
        now.nanos + cfg.tx_start_delay_ms * 1_000_000 + airtime_us * 1_000 <= u64::MAX,
    ensures
        match res {
            Ok(tx) => {
                &&& tx.start.nanos == now.nanos + cfg.tx_start_delay_ms * 1_000_000
                &&& tx.end.nanos == tx.start.nanos + airtime_us * 1_000
                &&& last matches Some(before) ==> now.nanos >= before.end.nanos
                    + cfg.post_tx_rx_guard_ms * 1_000_000
            },
            Err(e) => {
                &&& e == ScheduleError::GuardViolation
                &&& last matches Some(before) && now.nanos < before.end.nanos
                    + cfg.post_tx_rx_guard_ms * 1_000_000
            },
        },
{
}

/// Correcting the end of a transmission changes its end and nothing else; without a
/// transmission there is nothing to correct.
pub proof fn correction_changes_the_end(last: Option<ScheduledTx>, end: Instant)
    ensures
        match corrected(last, end) {
            Some(tx) => last matches Some(before) && tx.start == before.start && tx.end == end,
            None => last is None,
        },
{
}

/// A call that changes a guard.
pub enum GuardCall {
    /// `schedule_tx`.
    Schedule { now: Instant, airtime_us: u32 },
    /// `on_tx_done`.
    Done { end: Instant },
}

/// The last transmission after a new guard got these calls in turn.
pub open spec fn last_after(cfg: JitGuardCfg, calls: Seq<GuardCall>) -> Option<ScheduledTx>
    decreases calls.len(),
{
    if calls.len() == 0 {
        None
    } else {
        let before = last_after(cfg, calls.drop_last());
        match calls.last() {
            GuardCall::Schedule { now, airtime_us } => if guard_passed(cfg, before, now) {
                Some(scheduled(cfg, now, airtime_us))
            } else {
                before
            },
            GuardCall::Done { end } => corrected(before, end),
        }
    }
}

/// Whether call `i` is a request for a transmission that is let through.
pub open spec fn succeeds(cfg: JitGuardCfg, calls: Seq<GuardCall>, i: int) -> bool {
    &&& 0 <= i < calls.len()
    &&& calls[i] matches GuardCall::Schedule { now, .. } && guard_passed(
        cfg,
        last_after(cfg, calls.take(i)),
        now,
    )
}

/// Whether call `i` tells that a transmission is over.
pub open spec fn is_done(calls: Seq<GuardCall>, i: int) -> bool {
    0 <= i < calls.len() && calls[i] is Done
}

/// The end that call `i` sets, in nanoseconds.
pub open spec fn end_of(cfg: JitGuardCfg, call: GuardCall) -> int {
    match call {
        GuardCall::Schedule { now, airtime_us } => tx_end(cfg, now, airtime_us),
        GuardCall::Done { end } => end.nanos as int,
    }
}

/// Whether the guard time is counted from call `j`: it is the last request that
/// was let through, or the last word after it that the transmission is over.
pub open spec fn counts_from(cfg: JitGuardCfg, calls: Seq<GuardCall>, i: int, j: int) -> bool {
    &&& succeeds(cfg, calls, i)
    &&& forall|k: int| i < k < calls.len() ==> !#[trigger] succeeds(cfg, calls, k)
    &&& j == i || (i < j && is_done(calls, j))
    &&& forall|k: int| j < k < calls.len() ==> !#[trigger] is_done(calls, k)
}

/// Before the first request that is let through, the guard is open.
pub proof fn guard_is_open_before_the_first_transmission(
    cfg: JitGuardCfg,
    calls: Seq<GuardCall>,
    now: Instant,
)
    requires
        forall|k: int| 0 <= k < calls.len() ==> !#[trigger] succeeds(cfg, calls, k),
    ensures
        last_after(cfg, calls) is None,
        guard_passed(cfg, last_after(cfg, calls), now),
    decreases calls.len(),
{
    if calls.len() > 0 {
        let front = calls.drop_last();
        assert forall|k: int| 0 <= k < front.len() implies !#[trigger] succeeds(cfg, front, k) by {
            assert(front.take(k) =~= calls.take(k));
            assert(!succeeds(cfg, calls, k));
        }
        guard_is_open_before_the_first_transmission(cfg, front, now);
        assert(front =~= calls.take(calls.len() - 1));
        assert(!succeeds(cfg, calls, calls.len() - 1));
    }
}

/// After any calls, the guard is open exactly from the guard time after the end of
/// the last transmission on: the end that was scheduled, or the one that was last
/// told since.
pub proof fn guard_counts_from_the_last_end(
    cfg: JitGuardCfg,
    calls: Seq<GuardCall>,
    i: int,
    j: int,
    now: Instant,
)
    requires
        counts_from(cfg, calls, i, j),
        end_of(cfg, calls[i]) <= u64::MAX,
    ensures
        last_after(cfg, calls) is Some,
        last_after(cfg, calls)->0.end.nanos == end_of(cfg, calls[j]),
        guard_passed(cfg, last_after(cfg, calls), now) <==> now.nanos >= end_of(cfg, calls[j])
            + cfg.post_tx_rx_guard_ms * 1_000_000,
    decreases calls.len(),
{
    let front = calls.drop_last();
    let n = calls.len() - 1;
    assert(front =~= calls.take(n));
    if n > i {
        assert(!succeeds(cfg, calls, n));
        if j < n {
            assert(!is_done(calls, n));
            assert forall|k: int| i < k < front.len() implies !#[trigger] succeeds(cfg, front, k) by {
                assert(front.take(k) =~= calls.take(k));
                assert(!succeeds(cfg, calls, k));
            }
            assert forall|k: int| j < k < front.len() implies !#[trigger] is_done(front, k) by {
                assert(!is_done(calls, k));
            }
            assert(front.take(i) =~= calls.take(i));
            assert(counts_from(cfg, front, i, j));
            guard_counts_from_the_last_end(cfg, front, i, j, now);
        } else {
            assert(front.take(i) =~= calls.take(i));
            lemma_something_was_sent(cfg, front, i);
        }
    }
}

/// Once a request was let through, there is a last transmission.
proof fn lemma_something_was_sent(cfg: JitGuardCfg, calls: Seq<GuardCall>, i: int)
    requires
        succeeds(cfg, calls, i),
    ensures
        last_after(cfg, calls) is Some,
    decreases calls.len(),
{
    let front = calls.drop_last();
    let n = calls.len() - 1;
    assert(front =~= calls.take(n));
    if i < n {
        assert(front.take(i) =~= calls.take(i));
        lemma_something_was_sent(cfg, front, i);
    }
}

} // verus!
