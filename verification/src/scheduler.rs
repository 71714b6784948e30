//! The scheduler: at each tick it admits the tasks that arrive, accounts for
//! a change of the task at the head of the ready queue, and then switches
//! context, idles or runs the head for one unit.

use crate::process::{Process, ProcessView};
use crate::queue::{
    have_work, lemma_first_replaced_has_work, lemma_insert_has_work, lemma_rank_bounds,
    lemma_rest_has_work, rank, ProcessQueue, QueueEntry, Queued,
};
use crate::ratio::{table_view, Ratio};
use crate::utilization::{spec_utilization, utilization};
use vstd::prelude::*;

verus! {

/// The task that was last seen at the head of the ready queue, as the
/// contracts speak of it.
pub struct LastView {
    pub task_id: Seq<char>,
    pub context_time: u8,
    pub computation: u16,
}

/// The task that was last seen at the head of the ready queue: its name,
/// the cost of its context switch, and the computation it had left when it
/// was last seen or run.
#[derive(Debug)]
pub struct LastTask {
    pub task_id: String,
    pub context_time: u8,
    pub computation: u16,
}

impl View for LastTask {
    type V = LastView;

    open spec fn view(&self) -> LastView {
        LastView {
            task_id: self.task_id@,
            context_time: self.context_time,
            computation: self.computation,
        }
    }
}

/// The scheduler's state as the contracts speak of it.
pub struct MetaView {
    pub last: Option<LastView>,
    pub context: u64,
    pub current_voltage: Ratio,
}

/// The scheduler's state between ticks: the task last seen at the head of
/// the ready queue, the ticks of context switching still to spend, and the
/// voltage the processor runs at.
#[derive(Debug)]
pub struct SchedularMeta {
    pub last: Option<LastTask>,
    pub context: u64,
    pub current_voltage: Ratio,
}

impl View for SchedularMeta {
    type V = MetaView;

    open spec fn view(&self) -> MetaView {
        MetaView {
            last: match self.last {
                Some(l) => Some(l@),
                None => None,
            },
            context: self.context,
            current_voltage: self.current_voltage,
        }
    }
}

impl SchedularMeta {
    /// The state before the first tick: no task seen, no context switch
    /// pending, full voltage.
    pub fn new() -> (m: SchedularMeta)
        ensures
            m@ == initial_meta(),
    {
        SchedularMeta { last: None, context: 0, current_voltage: Ratio { num: 1, den: 1 } }
    }
}

/// The state before the first tick.
pub open spec fn initial_meta() -> MetaView {
    MetaView { last: None, context: 0, current_voltage: Ratio { num: 1, den: 1 } }
}

/// What happens in a tick, as the contracts speak of it.
pub enum EventView {
    Context,
    NoProcess,
    Running { task_id: Seq<char>, seq: u64, voltage: Ratio },
}

/// What happens in a tick: the processor switches context, has no task to
/// run, or runs a task for one unit. `seq` is the number under which the
/// task was admitted.
#[derive(Debug)]
pub enum TraceEvent {
    Context,
    NoProcess,
    Running { task_id: String, seq: u64, voltage: Ratio },
}

impl View for TraceEvent {
    type V = EventView;

    open spec fn view(&self) -> EventView {
        match self {
            TraceEvent::Context => EventView::Context,
            TraceEvent::NoProcess => EventView::NoProcess,
            TraceEvent::Running { task_id, seq, voltage } => EventView::Running {
                task_id: task_id@,
                seq: *seq,
                voltage: *voltage,
            },
        }
    }
}

/// The views of a trace.
pub open spec fn events_of(trace: Seq<TraceEvent>) -> Seq<EventView> {
    trace.map_values(|e: TraceEvent| e@)
}

/// The queues and the voltage after the admission of a tick.
pub struct Admission {
    pub arrivals: Seq<QueueEntry>,
    pub ready: Seq<QueueEntry>,
    pub pushed: nat,
    pub voltage: Ratio,
}

/// The entry under which `p`, arriving at `time`, joins the ready queue as
/// its `pushed`-th task: its key is its absolute deadline.
pub open spec fn ready_entry(p: ProcessView, time: u16, pushed: nat) -> QueueEntry {
    QueueEntry { process: p, key: (time + p.deadline) as u32, seq: pushed as u64 }
}

/// The admission at `time`. As long as the task at the head of the arrival
/// queue arrives at `time`, it is taken out. Where its utilization is at
/// most one, it joins the ready queue under its absolute deadline and the
/// voltage becomes that utilization; else it is dropped.
pub open spec fn admission(
    arrivals: Seq<QueueEntry>,
    ready: Seq<QueueEntry>,
    pushed: nat,
    voltage: Ratio,
    time: u16,
    speeds: Option<Seq<Ratio>>,
) -> Admission
    decreases arrivals.len(),
{
    if arrivals.len() == 0 || arrivals[0].key != time {
        Admission { arrivals: arrivals, ready: ready, pushed: pushed, voltage: voltage }
    } else {
        let p = arrivals[0].process;
        let u = spec_utilization(ready, p, time, speeds);
        if u.spec_at_most_one() {
            admission(
                arrivals.drop_first(),
                ready.insert(rank(ready, (time + p.deadline) as u32), ready_entry(p, time, pushed)),
                pushed + 1,
                u,
                time,
                speeds,
            )
        } else {
            admission(arrivals.drop_first(), ready, pushed, voltage, time, speeds)
        }
    }
}

/// Moves the tasks that arrive at `time` from the arrival queue to the ready
/// queue, each if it passes the utilization test, and sets the voltage to
/// the utilization of the last one admitted. Every task that waits must have
/// computation to do, so that every ready task has; `all_have_work` of the
/// arrival queue decides it.
pub fn queue_tasks(
    arrival_queue: &mut ProcessQueue,
    time: u16,
    current_voltage: &mut Ratio,
    edf_queue: &mut ProcessQueue,
    speeds: &Option<Vec<Ratio>>,
)
    requires
        old(arrival_queue).wf(),
        old(edf_queue).wf(),
        have_work(old(arrival_queue)@),
        old(edf_queue).pushed() + old(arrival_queue)@.len() <= u64::MAX,
    ensures
        final(arrival_queue).wf(),
        final(edf_queue).wf(),
        final(arrival_queue).pushed() == old(arrival_queue).pushed(),
        have_work(final(arrival_queue)@),
        have_work(old(edf_queue)@) ==> have_work(final(edf_queue)@),
        final(edf_queue).pushed() + final(arrival_queue)@.len() <= old(edf_queue).pushed() + old(
            arrival_queue,
        )@.len(),
        (Admission {
            arrivals: final(arrival_queue)@,
            ready: final(edf_queue)@,
            pushed: final(edf_queue).pushed(),
            voltage: *final(current_voltage),
        }) == admission(
            old(arrival_queue)@,
            old(edf_queue)@,
            old(edf_queue).pushed(),
            *old(current_voltage),
            time,
            table_view(*speeds),
        ),
{
    loop
        invariant
            arrival_queue.wf(),
            edf_queue.wf(),
            arrival_queue.pushed() == old(arrival_queue).pushed(),
            edf_queue.pushed() + arrival_queue@.len() <= old(edf_queue).pushed() + old(
                arrival_queue,
            )@.len() <= u64::MAX,
            have_work(arrival_queue@),
            have_work(old(edf_queue)@) ==> have_work(edf_queue@),
            admission(
                arrival_queue@,
                edf_queue@,
                edf_queue.pushed(),
                *current_voltage,
                time,
                table_view(*speeds),
            ) == admission(
                old(arrival_queue)@,
                old(edf_queue)@,
                old(edf_queue).pushed(),
                *old(current_voltage),
                time,
                table_view(*speeds),
            ),
        decreases arrival_queue@.len(),
    {
        match arrival_queue.peek_key() {
            None => {
                return ;
            },
            Some(arrival_time) => {
                if arrival_time != time as u32 {
                    return ;
                }
            },
        }
        let ghost waiting = arrival_queue@;
        match arrival_queue.pop() {
            None => {
                return ;
            },
            Some(arrived) => {
                proof {
                    lemma_rest_has_work(waiting);
                }
                let utilization_ratio = utilization(edf_queue, &arrived.process, time, speeds);
                if utilization_ratio.at_most_one() {
                    *current_voltage = utilization_ratio;
                    let absolute_deadline: u32 = time as u32 + arrived.process.deadline as u32;
                    let ghost ready = edf_queue@;
                    let ghost joined = QueueEntry {
                        process: arrived.process@,
                        key: absolute_deadline,
                        seq: edf_queue.pushed() as u64,
                    };
                    edf_queue.push(arrived.process, absolute_deadline);
                    proof {
                        assert(waiting[0].process.computation >= 1);
                        lemma_rank_bounds(ready, absolute_deadline);
                        if have_work(ready) {
                            lemma_insert_has_work(ready, rank(ready, absolute_deadline), joined);
                        }
                    }
                }
            },
        }
    }
}

/// The state after the accounting of a tick. With no ready task nothing
/// changes. Else the head of the ready queue is compared with the task last
/// seen there. Where none was seen yet, the pending context ticks become
/// the cost of the head. Where the name differs, the pending ticks grow by
/// the cost of the head, and by that of the task last seen too if it had
/// computation left. In both cases the head becomes the task last seen.
/// Where the name is the same nothing changes.
pub open spec fn account(meta: MetaView, ready: Seq<QueueEntry>) -> MetaView {
    if ready.len() == 0 {
        meta
    } else {
        let head = ready[0].process;
        let seen = Some(
            LastView {
                task_id: head.task_id,
                context_time: head.context_time,
                computation: head.computation,
            },
        );
        match meta.last {
            None => MetaView { last: seen, context: head.context_time as u64, ..meta },
            Some(last) => if last.task_id == head.task_id {
                meta
            } else if last.computation > 0 {
                MetaView {
                    last: seen,
                    context: (meta.context + last.context_time + head.context_time) as u64,
                    ..meta
                }
            } else {
                MetaView {
                    last: seen,
                    context: (meta.context + head.context_time) as u64,
                    ..meta
                }
            },
        }
    }
}

/// Accounts for the task at the head of the ready queue: a first task, a
/// preemption or a start after a completion adds context ticks.
pub fn context_handler(metadata: &mut SchedularMeta, edf_queue: &ProcessQueue)
    requires
        edf_queue.wf(),
        old(metadata).context <= u64::MAX - 510,
    ensures
        final(metadata)@ == account(old(metadata)@, edf_queue@),
{
    let process = match edf_queue.peek() {
        None => {
            return ;
        },
        Some(p) => p,
    };
    let process_context: u8 = process.context_time;
    let added: u64 = match &metadata.last {
        None => {
            metadata.context = 0;
            0
        },
        Some(last) => {
            if last.task_id == process.task_id {
                return ;
            }
            if last.computation > 0 {
                last.context_time as u64
            } else {
                0
            }
        },
    };
    metadata.context = metadata.context + added + process_context as u64;
    metadata.last = Some(
        LastTask {
            task_id: process.task_id.clone(),
            context_time: process_context,
            computation: process.computation,
        },
    );
}

/// The ready queue, the state and the event after the dispatch of a tick.
pub struct Dispatch {
    pub ready: Seq<QueueEntry>,
    pub meta: MetaView,
    pub event: EventView,
}

/// The task last seen, with `left` as the computation it has left.
pub open spec fn with_computation(last: Option<LastView>, left: u16) -> Option<LastView> {
    match last {
        Some(l) => Some(LastView { computation: left, ..l }),
        None => None,
    }
}

/// The dispatch of a tick. While context ticks are pending, one is spent.
/// Else, with no ready task, the processor idles. Else the head of the
/// ready queue runs for one unit: if that was its last, it leaves the queue
/// and the cost of its context switch becomes pending; if not, it stays at
/// the head with one unit less.
pub open spec fn dispatch(ready: Seq<QueueEntry>, meta: MetaView) -> Dispatch {
    if meta.context > 0 {
        Dispatch {
            ready: ready,
            meta: MetaView { context: (meta.context - 1) as u64, ..meta },
            event: EventView::Context,
        }
    } else if ready.len() == 0 {
        Dispatch { ready: ready, meta: meta, event: EventView::NoProcess }
    } else {
        let head = ready[0];
        let left = (head.process.computation - 1) as u16;
        let event = EventView::Running {
            task_id: head.process.task_id,
            seq: head.seq,
            voltage: meta.current_voltage,
        };
        if left == 0 {
            Dispatch {
                ready: ready.drop_first(),
                meta: MetaView {
                    last: with_computation(meta.last, left),
                    context: head.process.context_time as u64,
                    ..meta
                },
                event: event,
            }
        } else {
            Dispatch {
                ready: ready.update(
                    0,
                    QueueEntry { process: ProcessView { computation: left, ..head.process }, ..head },
                ),
                meta: MetaView { last: with_computation(meta.last, left), ..meta },
                event: event,
            }
        }
    }
}

/// Whether the event, if a task runs in it, runs the first entry of `ready`,
/// and no entry of `ready` has an earlier absolute deadline than that one.
pub open spec fn runs_earliest(event: EventView, ready: Seq<QueueEntry>) -> bool {
    match event {
        EventView::Running { task_id, seq, voltage } => ready.len() > 0 && seq == ready[0].seq
            && task_id == ready[0].process.task_id && forall|i: int|
            0 <= i < ready.len() ==> ready[0].key <= (#[trigger] ready[i]).key,
        _ => true,
    }
}

/// Spends a pending context tick, idles, or runs the head of the ready
/// queue for one unit, and says which. A head that is to run must have
/// computation left, as every task that `queue_tasks` admits has.
pub fn process_task(edf_queue: &mut ProcessQueue, metadata: &mut SchedularMeta) -> (event:
    TraceEvent)
    requires
        old(edf_queue).wf(),
        old(metadata).context == 0 && old(edf_queue)@.len() > 0 ==> old(
            edf_queue,
        )@[0].process.computation >= 1,
    ensures
        final(edf_queue).wf(),
        final(edf_queue).pushed() == old(edf_queue).pushed(),
        have_work(old(edf_queue)@) ==> have_work(final(edf_queue)@),
        (Dispatch { ready: final(edf_queue)@, meta: final(metadata)@, event: event@ }) == dispatch(
            old(edf_queue)@,
            old(metadata)@,
        ),
        runs_earliest(event@, old(edf_queue)@),
{
    if metadata.context > 0 {
        metadata.context = metadata.context - 1;
        return TraceEvent::Context;
    }
    proof {
        edf_queue.lemma_view_ordered();
    }
    let next = match edf_queue.pop() {
        None => {
            return TraceEvent::NoProcess;
        },
        Some(next) => next,
    };
    let ghost before = old(edf_queue)@;
    assert(before[0].process.computation >= 1);
    let new_computation_time: u16 = next.process.computation - 1;
    match &mut metadata.last {
        Some(last) => {
            last.computation = new_computation_time;
        },
        None => {},
    }
    let event = TraceEvent::Running {
        task_id: next.process.task_id.clone(),
        seq: next.seq,
        voltage: metadata.current_voltage,
    };
    if new_computation_time == 0 {
        metadata.context = next.process.context_time as u64;
        proof {
            if have_work(before) {
                lemma_rest_has_work(before);
            }
        }
        return event;
    }
    let back = Queued {
        process: Process {
            task_id: next.process.task_id,
            computation: new_computation_time,
            deadline: next.process.deadline,
            context_time: next.process.context_time,
        },
        key: next.key,
        seq: next.seq,
    };
    proof {
        assert forall|i: int| 0 <= i < edf_queue@.len() implies crate::queue::precedes(
            back@,
            #[trigger] edf_queue@[i],
        ) && edf_queue@[i].seq != back.seq by {
            assert(edf_queue@[i] == before[i + 1]);
            assert(crate::queue::precedes(before[0], before[i + 1]));
        }
    }
    edf_queue.put_back(back);
    proof {
        assert(edf_queue@ =~= before.update(0, back@));
        if have_work(before) {
            lemma_first_replaced_has_work(before, back@);
        }
    }
    event
}

/// The queues and the scheduler's state between two ticks.
pub struct SimState {
    pub arrivals: Seq<QueueEntry>,
    pub ready: Seq<QueueEntry>,
    pub pushed: nat,
    pub meta: MetaView,
}

/// The state after a tick, and what happened in it.
pub struct Step {
    pub state: SimState,
    pub event: EventView,
}

/// The state after a number of ticks, and what happened in each.
pub struct Run {
    pub state: SimState,
    pub trace: Seq<EventView>,
}

/// The state before the first tick: nothing ready, no task seen, full
/// voltage.
pub open spec fn initial_state(arrivals: Seq<QueueEntry>) -> SimState {
    SimState { arrivals: arrivals, ready: Seq::empty(), pushed: 0, meta: initial_meta() }
}

/// One tick: admission, then accounting, then dispatch.
pub open spec fn tick(s: SimState, time: u16, speeds: Option<Seq<Ratio>>) -> Step {
    let a = admission(s.arrivals, s.ready, s.pushed, s.meta.current_voltage, time, speeds);
    let m = account(MetaView { current_voltage: a.voltage, ..s.meta }, a.ready);
    let d = dispatch(a.ready, m);
    Step {
        state: SimState { arrivals: a.arrivals, ready: d.ready, pushed: a.pushed, meta: d.meta },
        event: d.event,
    }
}

/// The ticks `0` to `ticks - 1`, in turn.
pub open spec fn run(start: SimState, ticks: nat, speeds: Option<Seq<Ratio>>) -> Run
    decreases ticks,
{
    if ticks == 0 {
        Run { state: start, trace: Seq::empty() }
    } else {
        let before = run(start, (ticks - 1) as nat, speeds);
        let step = tick(before.state, (ticks - 1) as u16, speeds);
        Run { state: step.state, trace: before.trace.push(step.event) }
    }
}

/// Simulates the ticks `0` to `schedule_length - 1` on the tasks of the
/// arrival queue and returns what happened in each. Every task must have
/// computation to do; `all_have_work` of the arrival queue decides it.
pub fn start_schedular(
    arrival_queue: &mut ProcessQueue,
    schedule_length: u16,
    speeds: Option<Vec<Ratio>>,
) -> (trace: Vec<TraceEvent>)
    requires
        old(arrival_queue).wf(),
        have_work(old(arrival_queue)@),
    ensures
        final(arrival_queue).wf(),
        trace@.len() == schedule_length,
        events_of(trace@) == run(
            initial_state(old(arrival_queue)@),
            schedule_length as nat,
            table_view(speeds),
        ).trace,
        final(arrival_queue)@ == run(
            initial_state(old(arrival_queue)@),
            schedule_length as nat,
            table_view(speeds),
        ).state.arrivals,
{
    let mut edf_queue = ProcessQueue::new();
    let mut metadata = SchedularMeta::new();
    let mut trace: Vec<TraceEvent> = Vec::new();
    let waiting = arrival_queue.len();
    let mut time: u16 = 0;
    assert(events_of(trace@) =~= Seq::<EventView>::empty());
    while time < schedule_length
        invariant
            0 <= time <= schedule_length,
            arrival_queue.wf(),
            edf_queue.wf(),
            have_work(arrival_queue@),
            have_work(edf_queue@),
            edf_queue.pushed() + arrival_queue@.len() <= u64::MAX,
            metadata.context <= 510 * time,
            trace@.len() == time,
            run(initial_state(old(arrival_queue)@), time as nat, table_view(speeds)) == (Run {
                state: SimState {
                    arrivals: arrival_queue@,
                    ready: edf_queue@,
                    pushed: edf_queue.pushed(),
                    meta: metadata@,
                },
                trace: events_of(trace@),
            }),
        decreases schedule_length - time,
    {
        let ghost shown = events_of(trace@);
        queue_tasks(arrival_queue, time, &mut metadata.current_voltage, &mut edf_queue, &speeds);
        context_handler(&mut metadata, &edf_queue);
        let event = process_task(&mut edf_queue, &mut metadata);
        trace.push(event);
        assert(events_of(trace@) =~= shown.push(event@));
        time += 1;
    }
    trace
}

} // verus!
