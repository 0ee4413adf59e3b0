//! Deficit round robin over the queues of the next hops.
use crate::time::Duration;
use crate::time::Instant;
use std::collections::HashMap;
use std::collections::VecDeque;
use std::hash::Hash;
use vstd::prelude::*;
use vstd::std_specs::hash::*;

verus! {

#[derive(Debug, Clone)]
pub struct FrameEnvelope<T> {
    pub frame: T,
    pub airtime_us: u32,
    pub enqueue_time: Instant,
}

#[derive(Debug, Clone)]
pub struct PerNextHopQueue<N, T> where N: Eq + Hash + Copy {
    pub nhop: N,
    pub deficit: i32,
    pub quantum: i32,
    pub queue: VecDeque<FrameEnvelope<T>>,
}

pub struct DrrScheduler<N, T> where N: Eq + Hash + Copy {
    quantum_scale: i32,
    queues: Vec<PerNextHopQueue<N, T>>,
    lookup: HashMap<N, usize>,
    last_index: usize,
    guard: Duration,
}

/// What a queue holds.
#[verifier::ext_equal]
pub struct QueueView<N, T> {
    pub nhop: N,
    pub deficit: int,
    pub quantum: int,
    pub frames: Seq<FrameEnvelope<T>>,
}

/// What the scheduler holds: the queues in the order of their creation and the
/// place where the next round begins.
#[verifier::ext_equal]
pub struct DrrView<N, T> {
    pub scale: int,
    pub guard: int,
    pub queues: Seq<QueueView<N, T>>,
    pub next: int,
}

/// An airtime as a signed number of 32 bits.
pub open spec fn signed(airtime_us: u32) -> int {
    if airtime_us < 0x8000_0000 {
        airtime_us as int
    } else {
        airtime_us - 0x1_0000_0000
    }
}

/// The share of a queue whose frames take `airtime_us`: at least one.
pub open spec fn quantum(scale: int, airtime_us: u32) -> int {
    if airtime_us == 0 {
        scale
    } else if airtime_us <= scale {
        scale / (airtime_us as int)
    } else {
        1
    }
}

impl<N, T> QueueView<N, T> {
    /// The deficit after the queue got its share for this round.
    pub open spec fn credit(self) -> int {
        self.deficit + self.quantum
    }

    /// Whether the first frame may leave now.
    pub open spec fn eligible(self, guard: int, now: Instant) -> bool {
        &&& self.frames.len() > 0
        &&& self.credit() >= signed(self.frames[0].airtime_us)
        &&& now.elapsed_since(self.frames[0].enqueue_time) >= guard
    }

    /// A queue that was passed over: one with frames saves its share.
    pub open spec fn passed(self) -> Self {
        if self.frames.len() == 0 {
            self
        } else {
            QueueView { deficit: self.credit(), ..self }
        }
    }

    /// A queue whose first frame has left.
    pub open spec fn served(self) -> Self {
        QueueView {
            deficit: self.credit() - signed(self.frames[0].airtime_us),
            frames: self.frames.subrange(1, self.frames.len() as int),
            ..self
        }
    }

    /// Whether the counters of this queue stay within 32 bits when it is visited.
    pub open spec fn fits(self, guard: int, now: Instant) -> bool {
        self.frames.len() > 0 ==> {
            &&& self.credit() <= i32::MAX
            &&& self.eligible(guard, now) ==> self.credit() - signed(self.frames[0].airtime_us)
                <= i32::MAX
        }
    }
}

impl<N, T> DrrView<N, T> {
    /// How many queues are visited before queue `i`.
    pub open spec fn offset(self, i: int) -> int {
        if i >= self.next {
            i - self.next
        } else {
            i - self.next + self.queues.len()
        }
    }

    /// Whether the round of `now` comes to queue `i`.
    pub open spec fn reached(self, now: Instant, i: int) -> bool {
        forall|j: int|
            0 <= j < self.queues.len() && self.offset(j) < self.offset(i)
                ==> !(#[trigger] self.queues[j]).eligible(self.guard, now)
    }

    /// Whether queue `i` is the one that is served.
    pub open spec fn chosen(self, now: Instant, i: int) -> bool {
        &&& 0 <= i < self.queues.len()
        &&& self.queues[i].eligible(self.guard, now)
        &&& self.reached(now, i)
    }

    /// The scheduler after queue `i` was served.
    pub open spec fn after_serving(self, i: int) -> Self {
        DrrView {
            queues: Seq::new(
                self.queues.len(),
                |j: int|
                    if j == i {
                        self.queues[j].served()
                    } else if self.offset(j) < self.offset(i) {
                        self.queues[j].passed()
                    } else {
                        self.queues[j]
                    },
            ),
            next: if i + 1 == self.queues.len() {
                0
            } else {
                i + 1
            },
            ..self
        }
    }

    /// The scheduler after a round in which no queue was served.
    pub open spec fn after_idle_round(self) -> Self {
        DrrView {
            queues: Seq::new(self.queues.len(), |j: int| self.queues[j].passed()),
            ..self
        }
    }

    /// Whether no counter leaves its 32 bits in the round of `now`.
    pub open spec fn deficits_fit(self, now: Instant) -> bool {
        forall|i: int|
            0 <= i < self.queues.len() && self.reached(now, i) ==> (
            #[trigger] self.queues[i]).fits(self.guard, now)
    }

    /// The scheduler after a frame was queued.
    pub open spec fn after_enqueue(self, nhop: N, envelope: FrameEnvelope<T>) -> Self {
        let share = quantum(self.scale, envelope.airtime_us);
        if exists|i: int| 0 <= i < self.queues.len() && (#[trigger] self.queues[i]).nhop == nhop {
            DrrView {
                queues: self.queues.map_values(
                    |q: QueueView<N, T>|
                        if q.nhop == nhop {
                            QueueView { quantum: share, frames: q.frames.push(envelope), ..q }
                        } else {
                            q
                        },
                ),
                ..self
            }
        } else {
            DrrView {
                queues: self.queues.push(
                    QueueView { nhop, deficit: 0, quantum: share, frames: seq![envelope] },
                ),
                ..self
            }
        }
    }
}

impl<N, T> PerNextHopQueue<N, T> where N: Eq + Hash + Copy {
    pub open spec fn view(&self) -> QueueView<N, T> {
        QueueView {
            nhop: self.nhop,
            deficit: self.deficit as int,
            quantum: self.quantum as int,
            frames: self.queue@,
        }
    }

    pub fn new(nhop: N, quantum: i32) -> (q: Self)
        ensures
            q@ == (QueueView::<N, T> {
                nhop,
                deficit: 0,
                quantum: quantum as int,
                frames: Seq::empty(),
            }),
    {
        Self { nhop, deficit: 0, quantum, queue: VecDeque::new() }
    }

    pub fn is_empty(&self) -> (res: bool)
        ensures
            res == (self@.frames.len() == 0),
    {
        self.queue.len() == 0
    }
}

fn as_signed(airtime_us: u32) -> (res: i32)
    ensures
        res == signed(airtime_us),
{
    if airtime_us < 0x8000_0000 {
        airtime_us as i32
    } else {
        (airtime_us - 0x8000_0000) as i32 - 0x7fff_ffff - 1
    }
}

pub fn compute_quantum(scale: i32, airtime_us: u32) -> (res: i32)
    requires
        scale >= 1,
    ensures
        res == quantum(scale as int, airtime_us),
        res >= 1,
{
    let airtime: u32 = if airtime_us == 0 {
        1
    } else {
        airtime_us
    };
    if airtime > scale as u32 {
        proof {
            assert(airtime_us as int > scale);
        }
        return 1;
    }
    let share: i32 = scale / (airtime as i32);
    assert(share >= 1) by (nonlinear_arith)
        requires
            share == scale as int / airtime as int,
            1 <= airtime <= scale,
    ;
    share
}

impl<N, T> DrrScheduler<N, T> where N: Eq + Hash + Copy {
    pub closed spec fn view(&self) -> DrrView<N, T> {
        DrrView {
            scale: self.quantum_scale as int,
            guard: self.guard.nanos as int,
            queues: Seq::new(self.queues@.len(), |i: int| self.queues@[i]@),
            next: self.last_index as int,
        }
    }

    /// Each next hop has one queue, which the index finds; shares are positive.
    pub closed spec fn wf(&self) -> bool {
        &&& obeys_key_model::<N>()
        &&& self.quantum_scale >= 1
        &&& self.last_index == 0 || self.last_index < self.queues@.len()
        &&& forall|i: int|
            0 <= i < self.queues@.len() ==> {
                &&& self.lookup@.contains_key((#[trigger] self.queues@[i]).nhop)
                &&& self.lookup@[self.queues@[i].nhop] == i
                &&& self.queues@[i].quantum >= 1
                &&& self.queues@[i].deficit >= 0
            }
        &&& forall|nhop: N| #[trigger]
            self.lookup@.contains_key(nhop) ==> {
                &&& self.lookup@[nhop] < self.queues@.len()
                &&& self.queues@[self.lookup@[nhop] as int].nhop == nhop
            }
    }

    pub fn new(quantum_scale: i32, guard: Duration) -> (sched: Self)
        requires
            obeys_key_model::<N>(),
        ensures
            sched.wf(),
            sched@ == (DrrView::<N, T> {
                scale: if quantum_scale > 1 {
                    quantum_scale as int
                } else {
                    1
                },
                guard: guard.nanos as int,
                queues: Seq::empty(),
                next: 0,
            }),
    {
        let quantum_scale: i32 = if quantum_scale > 1 {
            quantum_scale
        } else {
            1
        };
        Self { quantum_scale, queues: Vec::new(), lookup: HashMap::new(), last_index: 0, guard }
    }

    fn ensure_queue(&mut self, nhop: N, airtime_us: u32) -> (idx: usize)
        requires
            old(self).wf(),
        ensures
            final(self).wf(),
            idx < final(self).queues@.len(),
            final(self).queues@[idx as int].nhop == nhop,
            final(self).quantum_scale == old(self).quantum_scale,
            final(self).guard == old(self).guard,
            final(self).last_index == old(self).last_index,
            final(self).queues@ == old(self).queues@ || {
                &&& idx == old(self).queues@.len()
                &&& final(self).queues@.len() == idx + 1
                &&& final(self).queues@.subrange(0, idx as int) == old(self).queues@
                &&& final(self).queues@[idx as int]@.frames == Seq::<FrameEnvelope<T>>::empty()
                &&& final(self).queues@[idx as int].deficit == 0
                &&& forall|i: int| 0 <= i < idx ==> (#[trigger] old(self).queues@[i]).nhop != nhop
            },
    {
        if let Some(idx) = self.lookup.get(&nhop) {
            return *idx;
        }
        let quantum: i32 = compute_quantum(self.quantum_scale, airtime_us);
        let idx: usize = self.queues.len();
        self.queues.push(PerNextHopQueue::new(nhop, quantum));
        self.lookup.insert(nhop, idx);
        assert(self.queues@.subrange(0, idx as int) =~= old(self).queues@);
        idx
    }

    /// Puts a frame at the end of the queue of its next hop.
    pub fn enqueue(&mut self, nhop: N, frame: T, airtime_us: u32, now: Instant)
        requires
            old(self).wf(),
        ensures
            final(self).wf(),
            final(self)@ == old(self)@.after_enqueue(
                nhop,
                FrameEnvelope { frame, airtime_us, enqueue_time: now },
            ),
    {
        let ghost before = self@;
        let idx: usize = self.ensure_queue(nhop, airtime_us);
        let ghost middle = self.queues@;
        let quantum: i32 = compute_quantum(self.quantum_scale, airtime_us);
        let envelope = FrameEnvelope { frame, airtime_us, enqueue_time: now };
        let q = &mut self.queues[idx];
        q.quantum = quantum;
        q.queue.push_back(envelope);
        proof {
            let after = before.after_enqueue(nhop, envelope);
            assert forall|i: int| 0 <= i < middle.len() && i != idx implies middle[i].nhop != nhop by {
            }
            if middle == old(self).queues@ {
                assert(before.queues[idx as int].nhop == nhop);
            } else {
                assert forall|i: int| 0 <= i < before.queues.len() implies (
                #[trigger] before.queues[i]).nhop != nhop by {
                    assert(old(self).queues@[i].nhop != nhop);
                }
                assert forall|i: int| 0 <= i < idx implies middle[i] == old(self).queues@[i] by {
                    assert(middle.subrange(0, idx as int)[i] == old(self).queues@[i]);
                }
            }
            assert(self@.queues =~= after.queues);
        }
    }

    /// Whether the counters have room for the round of `now`.
    pub fn deficits_fit(&self, now: Instant) -> (res: bool)
        requires
            self.wf(),
        ensures
            res == self@.deficits_fit(now),
    {
        let total: usize = self.queues.len();
        let mut idx: usize = self.last_index;
        let mut scanned: usize = 0;
        while scanned < total
            invariant
                self.wf(),
                total == self.queues@.len(),
                scanned < total ==> idx < total && self@.offset(idx as int) == scanned,
                scanned <= total,
                forall|i: int|
                    0 <= i < total && self@.offset(i) < scanned ==> {
                        &&& !(#[trigger] self@.queues[i]).eligible(self@.guard, now)
                        &&& self@.queues[i].fits(self@.guard, now)
                    },
            decreases total - scanned,
        {
            let queue = &self.queues[idx];
            assert(self@.queues[idx as int] == queue@);
            if !queue.is_empty() {
                let credit: i64 = queue.deficit as i64 + queue.quantum as i64;
                let front = &queue.queue[0];
                let airtime: i32 = as_signed(front.airtime_us);
                let ready = credit >= airtime as i64
                    && now.duration_since(front.enqueue_time).nanos >= self.guard.nanos;
                if credit > i32::MAX as i64 || (ready && credit - airtime as i64 > i32::MAX as i64) {
                    assert(self@.reached(now, idx as int));
                    return false;
                }
                if ready {
                    assert forall|i: int|
                        0 <= i < self@.queues.len() && self@.reached(now, i) implies (
                    #[trigger] self@.queues[i]).fits(self@.guard, now) by {
                        assert(self@.queues[idx as int].eligible(self@.guard, now));
                        assert(self@.offset(i) <= scanned);
                    }
                    return true;
                }
            }
            scanned = scanned + 1;
            idx = if idx + 1 == total {
                0
            } else {
                idx + 1
            };
        }
        true
    }

    /// Serves the first queue, in turn, that has a frame which its deficit pays
    /// for and which has waited long enough.
    pub fn pick_next(&mut self, now: Instant) -> (res: Option<(N, FrameEnvelope<T>)>)
        requires
            old(self).wf(),
            old(self)@.deficits_fit(now),
        ensures
            final(self).wf(),
            match res {
                Some((nhop, envelope)) => exists|i: int| #[trigger]
                    old(self)@.chosen(now, i) && nhop == old(self)@.queues[i].nhop && envelope
                        == old(self)@.queues[i].frames[0] && final(self)@
                        == old(self)@.after_serving(i),
                None => {
                    &&& forall|i: int| !old(self)@.chosen(now, i)
                    &&& final(self)@ == old(self)@.after_idle_round()
                },
            },
    {
        let total: usize = self.queues.len();
        let mut scanned: usize = 0;
        let ghost before = self@;
        while scanned < total
            invariant
                self.wf(),
                before == old(self)@,
                before.deficits_fit(now),
                total == self.queues@.len(),
                total == before.queues.len(),
                before.scale == self.quantum_scale,
                before.guard == self.guard.nanos,
                before.next == 0 || before.next < total,
                scanned < total ==> before.offset(self.last_index as int) == scanned,
                scanned == total ==> self.last_index == before.next,
                scanned <= total,
                forall|i: int|
                    0 <= i < total ==> self@.queues[i] == if before.offset(i) < scanned {
                        before.queues[i].passed()
                    } else {
                        #[trigger] before.queues[i]
                    },
                forall|i: int|
                    0 <= i < total && before.offset(i) < scanned ==> !(
                    #[trigger] before.queues[i]).eligible(before.guard, now),
            decreases total - scanned,
        {
            let idx: usize = self.last_index;
            self.last_index = if idx + 1 == total {
                0
            } else {
                idx + 1
            };
            scanned = scanned + 1;

            let ghost queued = self.queues@;
            assert(before.queues[idx as int] == queued[idx as int]@);
            let queue = &mut self.queues[idx];
            if queue.is_empty() {
                continue ;
            }
            assert(before.reached(now, idx as int));
            assert(before.queues[idx as int].fits(before.guard, now));
            queue.deficit = queue.deficit + queue.quantum;
            let airtime: i32 = as_signed(queue.queue[0].airtime_us);
            if queue.deficit < airtime {
                continue ;
            }
            if now.duration_since(queue.queue[0].enqueue_time).nanos < self.guard.nanos {
                continue ;
            }
            queue.deficit = queue.deficit - airtime;
            let nhop = queue.nhop;
            match queue.queue.pop_front() {
                Some(envelope) => {
                    proof {
                        assert(before.chosen(now, idx as int));
                        assert(self@.queues =~= before.after_serving(idx as int).queues);
                    }
                    return Some((nhop, envelope));
                },
                None => {
                    assert(false);
                },
            }
        }
        proof {
            assert forall|i: int| !before.chosen(now, i) by {
                if 0 <= i < total {
                    assert(before.offset(i) < total);
                }
            }
            assert(self@.queues =~= before.after_idle_round().queues);
        }
        None
    }
}

/// Where some queue may send, one is chosen.
pub proof fn eligible_queue_is_served<N, T>(drr: DrrView<N, T>, now: Instant, i: int)
    requires
        0 <= drr.next < drr.queues.len(),
        0 <= i < drr.queues.len(),
        drr.queues[i].eligible(drr.guard, now),
    ensures
        exists|k: int| #[trigger] drr.chosen(now, k) && drr.offset(k) <= drr.offset(i),
    decreases drr.offset(i),
{
    if drr.reached(now, i) {
        assert(drr.chosen(now, i));
    } else {
        let j = choose|j: int|
            0 <= j < drr.queues.len() && drr.offset(j) < drr.offset(i) && (
            #[trigger] drr.queues[j]).eligible(drr.guard, now);
        eligible_queue_is_served(drr, now, j);
    }
}

/// At most one queue is chosen.
pub proof fn one_queue_is_chosen<N, T>(drr: DrrView<N, T>, now: Instant, i: int, j: int)
    requires
        0 <= drr.next < drr.queues.len(),
        drr.chosen(now, i),
        drr.chosen(now, j),
    ensures
        i == j,
{
    assert(drr.queues[i].eligible(drr.guard, now));
    assert(drr.queues[j].eligible(drr.guard, now));
}

/// The queues take turns: the one that was served is the last that is visited in
/// the next round.
pub proof fn served_queue_comes_last<N, T>(drr: DrrView<N, T>, i: int, j: int)
    requires
        0 <= i < drr.queues.len(),
        0 <= j < drr.queues.len(),
    ensures
        drr.after_serving(i).offset(i) == drr.queues.len() - 1,
        j != i ==> drr.after_serving(i).offset(j) < drr.after_serving(i).offset(i),
{
}

/// Serving a queue takes its first frame and leaves every other frame where it is.
pub proof fn serving_keeps_the_other_frames<N, T>(drr: DrrView<N, T>, i: int, j: int)
    requires
        0 <= i < drr.queues.len(),
        0 <= j < drr.queues.len(),
        drr.queues[i].frames.len() > 0,
    ensures
        drr.after_serving(i).queues.len() == drr.queues.len(),
        drr.after_serving(i).queues[j].nhop == drr.queues[j].nhop,
        j != i ==> drr.after_serving(i).queues[j].frames == drr.queues[j].frames,
        drr.queues[i].frames == seq![drr.queues[i].frames[0]]
            + drr.after_serving(i).queues[i].frames,
        drr.after_idle_round().queues.len() == drr.queues.len(),
        drr.after_idle_round().queues[j].frames == drr.queues[j].frames,
{
    assert(drr.queues[i].frames =~= seq![drr.queues[i].frames[0]]
        + drr.after_serving(i).queues[i].frames);
}

/// A frame is queued behind those that wait for the same next hop; the frames of
/// the others are not touched.
pub proof fn frames_queue_in_order<N, T>(
    drr: DrrView<N, T>,
    nhop: N,
    envelope: FrameEnvelope<T>,
    j: int,
)
    requires
        0 <= j < drr.queues.len(),
    ensures
        drr.after_enqueue(nhop, envelope).queues[j].frames == if drr.queues[j].nhop == nhop {
            drr.queues[j].frames.push(envelope)
        } else {
            drr.queues[j].frames
        },
{
}

impl<N, T> QueueView<N, T> {
    /// A queue that was passed over so many times.
    pub open spec fn passed_often(self, times: nat) -> Self
        decreases times,
    {
        if times == 0 {
            self
        } else {
            self.passed_often((times - 1) as nat).passed()
        }
    }
}

proof fn lemma_passed_often<N, T>(q: QueueView<N, T>, times: nat)
    requires
        q.frames.len() > 0,
    ensures
        q.passed_often(times) == (QueueView { deficit: q.deficit + times * q.quantum, ..q }),
    decreases times,
{
    if times == 0 {
        assert(0 * q.quantum == 0);
    } else {
        lemma_passed_often(q, (times - 1) as nat);
        assert(times * q.quantum == (times - 1) * q.quantum + q.quantum) by (nonlinear_arith);
    }
}

/// A frame that has waited long enough can be sent once its queue was passed over
/// often enough to save up its airtime.
pub proof fn saved_shares_pay_for_a_frame<N, T>(
    q: QueueView<N, T>,
    times: nat,
    guard: int,
    now: Instant,
)
    requires
        q.frames.len() > 0,
        q.deficit + (times + 1) * q.quantum >= signed(q.frames[0].airtime_us),
        now.elapsed_since(q.frames[0].enqueue_time) >= guard,
    ensures
        q.passed_often(times).eligible(guard, now),
{
    lemma_passed_often(q, times);
    assert((times + 1) * q.quantum == times * q.quantum + q.quantum) by (nonlinear_arith);
}

} // verus!
