//! What the queues are given and what they spend.
use crate::scheduler::drr;
use crate::scheduler::drr::DrrView;
use crate::scheduler::drr::FrameEnvelope;
use crate::scheduler::drr::QueueView;
use crate::time::Instant;
use vstd::arithmetic::div_mod::*;
use vstd::prelude::*;

verus! {

/// A queue that is served has a frame which has waited for the guard time, and its deficit
/// together with its share pays for it. Serving lowers what it has by the airtime of that
/// frame, and never below zero.
pub proof fn served_queue_pays<N, T>(drr: DrrView<N, T>, now: Instant, i: int)
    requires
        drr.chosen(now, i),
        drr.queues[i].frames[0].airtime_us < 0x8000_0000,
        drr.guard >= 0,
    ensures
        ({
            let before = drr.queues[i];
            let after = drr.after_serving(i).queues[i];
            let frame = before.frames[0];
            &&& before.frames.len() > 0
            &&& drr.guard > 0 ==> now.nanos - frame.enqueue_time.nanos >= drr.guard
            &&& after.deficit + frame.airtime_us == before.deficit + before.quantum
            &&& after.deficit >= 0
            &&& after.quantum == before.quantum
            &&& after.nhop == before.nhop
            &&& after.frames.len() == before.frames.len() - 1
        }),
{
}

/// A queue that waits, pays and has waited long enough may send: nothing else is asked of
/// it.
pub proof fn paid_frame_may_leave<N, T>(queue: QueueView<N, T>, guard: int, now: Instant)
    requires
        queue.frames.len() > 0,
        queue.frames[0].airtime_us < 0x8000_0000,
        guard >= 0,
        now.nanos >= queue.frames[0].enqueue_time.nanos,
    ensures
        queue.eligible(guard, now) <==> {
            &&& queue.deficit + queue.quantum >= queue.frames[0].airtime_us
            &&& now.nanos - queue.frames[0].enqueue_time.nanos >= guard
        },
{
}

/// In a round, the queues that come before the one that is served get their share if they
/// have frames; the others are not touched. Where none is served, all with frames get their
/// share, and the next round begins where this one began.
pub proof fn waiting_queues_get_their_share<N, T>(drr: DrrView<N, T>, i: int, j: int)
    requires
        0 <= drr.next < drr.queues.len(),
        0 <= i < drr.queues.len(),
        0 <= j < drr.queues.len(),
        i != j,
    ensures
        ({
            let before = drr.queues[j];
            let after = drr.after_serving(i).queues[j];
            let idle = drr.after_idle_round().queues[j];
            let first = if drr.next <= i {
                drr.next <= j < i
            } else {
                drr.next <= j || j < i
            };
            let share = if before.frames.len() > 0 {
                before.quantum
            } else {
                0
            };
            &&& after.deficit == before.deficit + if first {
                share
            } else {
                0
            }
            &&& idle.deficit == before.deficit + share
            &&& after.quantum == before.quantum && idle.quantum == before.quantum
            &&& after.nhop == before.nhop && idle.nhop == before.nhop
            &&& after.frames == before.frames && idle.frames == before.frames
        }),
        drr.after_serving(i).next == (i + 1) % (drr.queues.len() as int),
        drr.after_serving(i).scale == drr.scale,
        drr.after_serving(i).guard == drr.guard,
        drr.after_idle_round().next == drr.next,
        drr.after_idle_round().scale == drr.scale,
        drr.after_idle_round().guard == drr.guard,
{
    let n = drr.queues.len() as int;
    if i + 1 == n {
        lemma_fundamental_div_mod_converse(i + 1, n, 1, 0);
    } else {
        lemma_fundamental_div_mod_converse(i + 1, n, 0, i + 1);
    }
}

/// The share of a queue is the number of frames like the last one that the scale pays for,
/// and one where it pays for none: frames that take twice as long get half the share.
pub proof fn share_is_the_scaled_inverse<N, T>(
    drr: DrrView<N, T>,
    nhop: N,
    envelope: FrameEnvelope<T>,
    j: int,
)
    requires
        0 <= j < drr.after_enqueue(nhop, envelope).queues.len(),
        drr.scale >= 1,
    ensures
        ({
            let after = drr.after_enqueue(nhop, envelope);
            let queue = after.queues[j];
            &&& after.scale == drr.scale
            &&& after.guard == drr.guard
            &&& after.next == drr.next
            &&& queue.nhop == nhop ==> {
                let us = envelope.airtime_us as int;
                &&& queue.quantum >= 1
                &&& us == 0 ==> queue.quantum == drr.scale
                &&& 0 < us <= drr.scale ==> queue.quantum * us <= drr.scale < (queue.quantum + 1)
                    * us
                &&& us > drr.scale ==> queue.quantum == 1
                &&& queue.frames.len() > 0
                &&& queue.frames.last() == envelope
                &&& queue.deficit == if j < drr.queues.len() {
                    drr.queues[j].deficit
                } else {
                    0
                }
            }
            &&& queue.nhop != nhop ==> j < drr.queues.len() && queue == drr.queues[j]
        }),
{
    let us = envelope.airtime_us as int;
    let s = drr.scale;
    if 0 < us <= s {
        lemma_fundamental_div_mod(s, us);
        let q = s / us;
        let r = s % us;
        assert(q >= 1 && q * us <= s < (q + 1) * us) by (nonlinear_arith)
            requires
                s == us * q + r,
                0 <= r < us,
                us <= s,
        ;
    }
}

/// What happens to the scheduler.
pub enum DrrStep<N, T> {
    /// A frame is queued.
    Queued(N, FrameEnvelope<T>),
    /// A round serves a queue.
    Served(int),
    /// A round serves none.
    Idle,
}

/// Whether one state follows from another by a step, as the contracts of the scheduler tell
/// of it.
pub open spec fn follows<N, T>(
    before: DrrView<N, T>,
    step: DrrStep<N, T>,
    after: DrrView<N, T>,
) -> bool {
    match step {
        DrrStep::Queued(nhop, envelope) => after == before.after_enqueue(nhop, envelope),
        DrrStep::Served(i) => {
            &&& exists|now: Instant| #[trigger] before.chosen(now, i)
            &&& after == before.after_serving(i)
        },
        DrrStep::Idle => after == before.after_idle_round(),
    }
}

/// Whether the states follow from each other, with airtimes below half an hour and shares
/// that are not negative.
pub open spec fn is_run<N, T>(states: Seq<DrrView<N, T>>, steps: Seq<DrrStep<N, T>>) -> bool {
    &&& states.len() == steps.len() + 1
    &&& forall|k: int| #![trigger steps[k]]
        0 <= k < steps.len() ==> follows(states[k], steps[k], states[k + 1])
    &&& forall|k: int| #![trigger states[k]]
        0 <= k < states.len() ==> 0 <= states[k].next && (states[k].next < states[k].queues.len()
            || states[k].queues.len() == 0)
    &&& forall|k: int, j: int, f: int| #![trigger states[k].queues[j].frames[f]]
        0 <= k < states.len() && 0 <= j < states[k].queues.len() && 0 <= f
            < states[k].queues[j].frames.len() ==> states[k].queues[j].frames[f].airtime_us
            < 0x8000_0000
}

/// The airtime that queue `j` has sent in the first `n` steps of a run.
pub open spec fn sent<N, T>(
    states: Seq<DrrView<N, T>>,
    steps: Seq<DrrStep<N, T>>,
    j: int,
    n: nat,
) -> int
    decreases n,
{
    if n == 0 {
        0
    } else {
        let k = n - 1;
        sent(states, steps, j, k as nat) + if steps[k] == DrrStep::<N, T>::Served(j) {
            states[k].queues[j].frames[0].airtime_us as int
        } else {
            0
        }
    }
}

/// The shares that queue `j` was given in the first `n` steps of a run: one for each visit
/// while it had frames. A round visits the queues from its beginning up to the one that is
/// served, or all.
pub open spec fn given<N, T>(
    states: Seq<DrrView<N, T>>,
    steps: Seq<DrrStep<N, T>>,
    j: int,
    n: nat,
) -> int
    decreases n,
{
    if n == 0 {
        0
    } else {
        let k = n - 1;
        let visited = match steps[k] {
            DrrStep::Queued(_, _) => false,
            DrrStep::Served(i) => if states[k].next <= i {
                states[k].next <= j <= i
            } else {
                states[k].next <= j || j <= i
            },
            DrrStep::Idle => true,
        };
        given(states, steps, j, k as nat) + if visited && states[k].queues[j].frames.len() > 0 {
            states[k].queues[j].quantum
        } else {
            0
        }
    }
}

/// Over any run of the scheduler the airtime that a queue has sent, together with its
/// deficit, is its first deficit together with the shares it was given. So a queue never
/// sends more than what its shares have paid for.
pub proof fn airtime_is_paid_for<N, T>(
    states: Seq<DrrView<N, T>>,
    steps: Seq<DrrStep<N, T>>,
    j: int,
    n: nat,
)
    requires
        is_run(states, steps),
        0 <= j < states[0].queues.len(),
        n <= steps.len(),
        forall|k: int| #![trigger states[k]]
            0 <= k < states.len() ==> states[k].queues[j].quantum >= 0,
        states[0].queues[j].deficit >= 0,
    ensures
        j < states[n as int].queues.len(),
        sent(states, steps, j, n) + states[n as int].queues[j].deficit
            == states[0].queues[j].deficit + given(states, steps, j, n),
        states[n as int].queues[j].deficit >= 0,
        sent(states, steps, j, n) <= states[0].queues[j].deficit + given(states, steps, j, n),
    decreases n,
{
    if n > 0 {
        let k = n - 1;
        airtime_is_paid_for(states, steps, j, k as nat);
        let before = states[k];
        let after = states[k + 1];
        assert(follows(before, steps[k], after));
        assert(0 <= before.next);
        assert(before.queues[j].quantum >= 0);
        match steps[k] {
            DrrStep::Queued(nhop, envelope) => {},
            DrrStep::Served(i) => {
                let now = choose|now: Instant| #[trigger] before.chosen(now, i);
                assert(before.queues[i].eligible(before.guard, now));
                let first = before.queues[i].frames[0];
                assert(states[k].queues[i].frames[0].airtime_us < 0x8000_0000);
            },
            DrrStep::Idle => {},
        }
    }
}

/// No counter overflows in a round while what each waiting queue has, together with its
/// share, fits in 32 bits.
pub proof fn small_deficits_fit<N, T>(drr: DrrView<N, T>, now: Instant)
    requires
        forall|i: int| #![trigger drr.queues[i]]
            0 <= i < drr.queues.len() && drr.queues[i].frames.len() > 0 ==> drr.queues[i].deficit
                + drr.queues[i].quantum <= i32::MAX && drr.queues[i].frames[0].airtime_us
                < 0x8000_0000,
    ensures
        drr.deficits_fit(now),
{
}

/// An airtime counts as a signed number of 32 bits: as it is below half an hour, and a
/// multiple of two to the power of 32 less above.
pub proof fn airtime_wraps_at_32_bits(airtime_us: u32)
    ensures
        i32::MIN <= drr::signed(airtime_us) <= i32::MAX,
        (airtime_us - drr::signed(airtime_us)) % 0x1_0000_0000 == 0,
        airtime_us <= i32::MAX ==> drr::signed(airtime_us) == airtime_us,
{
}

} // verus!
