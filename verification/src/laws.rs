//! What holds of every workload and every run.

use crate::loader::{load_matches, ParseError, Workload};
use crate::process::ProcessView;
use crate::queue::{
    have_work, in_pop_order, lemma_first_replaced_has_work, lemma_insert_has_work,
    lemma_insert_in_order, lemma_rank_bounds, lemma_rest_has_work, precedes, rank, QueueEntry,
};
use crate::ratio::{table_view, Ratio};
use crate::scheduler::{
    account, admission, dispatch, initial_state, ready_entry, run, EventView, MetaView, SimState,
};
use crate::utilization::spec_utilization;
use vstd::prelude::*;

verus! {

/// The computation left to the task that was admitted as number `seq`; zero
/// where the ready queue does not hold it.
pub open spec fn remaining(ready: Seq<QueueEntry>, seq: u64) -> int
    decreases ready.len(),
{
    if ready.len() == 0 {
        0
    } else {
        remaining(ready.drop_last(), seq) + if ready.last().seq == seq {
            ready.last().process.computation as int
        } else {
            0
        }
    }
}

/// Whether the event is a unit of the task admitted as number `seq`.
pub open spec fn is_run_of(event: EventView, seq: u64) -> bool {
    match event {
        EventView::Running { seq: s, .. } => s == seq,
        _ => false,
    }
}

/// The number of ticks in which the task admitted as number `seq` ran.
pub open spec fn executed(trace: Seq<EventView>, seq: u64) -> int
    decreases trace.len(),
{
    if trace.len() == 0 {
        0
    } else {
        executed(trace.drop_last(), seq) + if is_run_of(trace.last(), seq) {
            1int
        } else {
            0int
        }
    }
}

/// The tasks that the admission of a tick lets in, in their order.
pub open spec fn admitted_at(
    arrivals: Seq<QueueEntry>,
    ready: Seq<QueueEntry>,
    pushed: nat,
    time: u16,
    speeds: Option<Seq<Ratio>>,
) -> Seq<ProcessView>
    decreases arrivals.len(),
{
    if arrivals.len() == 0 || arrivals[0].key != time {
        Seq::empty()
    } else {
        let p = arrivals[0].process;
        let u = spec_utilization(ready, p, time, speeds);
        if u.spec_at_most_one() {
            seq![p] + admitted_at(
                arrivals.drop_first(),
                ready.insert(rank(ready, (time + p.deadline) as u32), ready_entry(p, time, pushed)),
                pushed + 1,
                time,
                speeds,
            )
        } else {
            admitted_at(arrivals.drop_first(), ready, pushed, time, speeds)
        }
    }
}

/// The tasks admitted in the first `ticks` ticks, in the order of their
/// admission: the task admitted as number `n` stands at index `n`.
pub open spec fn admitted(start: SimState, ticks: nat, speeds: Option<Seq<Ratio>>) -> Seq<
    ProcessView,
>
    decreases ticks,
{
    if ticks == 0 {
        Seq::empty()
    } else {
        let before = run(start, (ticks - 1) as nat, speeds).state;
        admitted(start, (ticks - 1) as nat, speeds) + admitted_at(
            before.arrivals,
            before.ready,
            before.pushed,
            (ticks - 1) as u16,
            speeds,
        )
    }
}

proof fn lemma_remaining_bound(ready: Seq<QueueEntry>, seq: u64)
    ensures
        remaining(ready, seq) >= 0,
    decreases ready.len(),
{
    if ready.len() > 0 {
        lemma_remaining_bound(ready.drop_last(), seq);
    }
}

proof fn lemma_remaining_insert(ready: Seq<QueueEntry>, k: int, e: QueueEntry, seq: u64)
    requires
        0 <= k <= ready.len(),
    ensures
        remaining(ready.insert(k, e), seq) == remaining(ready, seq) + if e.seq == seq {
            e.process.computation as int
        } else {
            0
        },
    decreases ready.len(),
{
    let grown = ready.insert(k, e);
    if k == ready.len() {
        assert(grown.drop_last() =~= ready);
    } else {
        assert(grown.drop_last() =~= ready.drop_last().insert(k, e));
        assert(grown.last() == ready.last());
        lemma_remaining_insert(ready.drop_last(), k, e, seq);
    }
}

proof fn lemma_remaining_first(ready: Seq<QueueEntry>, seq: u64)
    requires
        ready.len() > 0,
    ensures
        remaining(ready, seq) == remaining(ready.drop_first(), seq) + if ready[0].seq == seq {
            ready[0].process.computation as int
        } else {
            0
        },
    decreases ready.len(),
{
    if ready.len() == 1 {
        assert(ready.drop_first() =~= ready.drop_last());
    } else {
        lemma_remaining_first(ready.drop_last(), seq);
        assert(ready.drop_last().drop_first() =~= ready.drop_first().drop_last());
    }
}

/// What the admission of a tick does to the ready queue: the tasks let in
/// join it with all their computation, under the numbers that follow those
/// given before, and nothing else changes. Where every task that waits has
/// computation to do, so has every task that is let in.
pub proof fn lemma_admission(
    arrivals: Seq<QueueEntry>,
    ready: Seq<QueueEntry>,
    pushed: nat,
    voltage: Ratio,
    time: u16,
    speeds: Option<Seq<Ratio>>,
    seq: u64,
)
    requires
        pushed + arrivals.len() <= u64::MAX,
    ensures
        ({
            let a = admission(arrivals, ready, pushed, voltage, time, speeds);
            let n = admitted_at(arrivals, ready, pushed, time, speeds);
            &&& a.pushed == pushed + n.len()
            &&& a.pushed + a.arrivals.len() <= pushed + arrivals.len()
            &&& have_work(arrivals) ==> have_work(a.arrivals)
            &&& have_work(arrivals) && have_work(ready) ==> have_work(a.ready)
            &&& have_work(arrivals) ==> forall|i: int|
                0 <= i < n.len() ==> (#[trigger] n[i]).computation >= 1
            &&& remaining(a.ready, seq) == remaining(ready, seq) + if pushed <= seq < pushed
                + n.len() {
                n[seq - pushed].computation as int
            } else {
                0
            }
        }),
    decreases arrivals.len(),
{
    if arrivals.len() == 0 || arrivals[0].key != time {
    } else {
        let p = arrivals[0].process;
        let u = spec_utilization(ready, p, time, speeds);
        let n = admitted_at(arrivals, ready, pushed, time, speeds);
        if have_work(arrivals) {
            lemma_rest_has_work(arrivals);
        }
        if u.spec_at_most_one() {
            let k = rank(ready, (time + p.deadline) as u32);
            let e = ready_entry(p, time, pushed);
            let grown = ready.insert(k, e);
            lemma_rank_bounds(ready, (time + p.deadline) as u32);
            lemma_remaining_insert(ready, k, e, seq);
            lemma_admission(arrivals.drop_first(), grown, pushed + 1, u, time, speeds, seq);
            let rest = admitted_at(arrivals.drop_first(), grown, pushed + 1, time, speeds);
            assert(n == seq![p] + rest);
            if pushed < seq < pushed + n.len() {
                assert(n[seq - pushed] == rest[seq - pushed - 1]);
            }
            if have_work(arrivals) {
                assert(arrivals[0].process.computation >= 1);
                if have_work(ready) {
                    lemma_insert_has_work(ready, k, e);
                }
                assert forall|i: int| 0 <= i < n.len() implies (#[trigger] n[i]).computation
                    >= 1 by {
                    if i > 0 {
                        assert(n[i] == rest[i - 1]);
                        assert(rest[i - 1].computation >= 1);
                    }
                }
            }
        } else {
            lemma_admission(arrivals.drop_first(), ready, pushed, voltage, time, speeds, seq);
            assert(n == admitted_at(arrivals.drop_first(), ready, pushed, time, speeds));
        }
    }
}

/// What the admission of a tick takes from the arrival queue: the entries at
/// its head that arrive at `time`, all of them, admitted or not. What
/// arrives at another time stays, in its order. The ready queue grows by the
/// tasks let in.
pub proof fn lemma_admission_takes_head(
    arrivals: Seq<QueueEntry>,
    ready: Seq<QueueEntry>,
    pushed: nat,
    voltage: Ratio,
    time: u16,
    speeds: Option<Seq<Ratio>>,
)
    ensures
        ({
            let a = admission(arrivals, ready, pushed, voltage, time, speeds);
            let taken = arrivals.len() - a.arrivals.len();
            &&& 0 <= taken <= arrivals.len()
            &&& a.arrivals == arrivals.skip(taken)
            &&& forall|i: int| 0 <= i < taken ==> (#[trigger] arrivals[i]).key == time
            &&& a.arrivals.len() > 0 ==> a.arrivals[0].key != time
            &&& a.ready.len() == ready.len() + admitted_at(
                arrivals,
                ready,
                pushed,
                time,
                speeds,
            ).len()
        }),
    decreases arrivals.len(),
{
    let a = admission(arrivals, ready, pushed, voltage, time, speeds);
    if arrivals.len() == 0 || arrivals[0].key != time {
        assert(arrivals.skip(0) =~= arrivals);
    } else {
        let p = arrivals[0].process;
        let u = spec_utilization(ready, p, time, speeds);
        let rest = arrivals.drop_first();
        let taken = arrivals.len() - a.arrivals.len();
        if u.spec_at_most_one() {
            lemma_rank_bounds(ready, (time + p.deadline) as u32);
            let grown = ready.insert(
                rank(ready, (time + p.deadline) as u32),
                ready_entry(p, time, pushed),
            );
            lemma_admission_takes_head(rest, grown, pushed + 1, u, time, speeds);
        } else {
            lemma_admission_takes_head(rest, ready, pushed, voltage, time, speeds);
        }
        assert(rest.skip(taken - 1) =~= arrivals.skip(taken));
        assert forall|i: int| 0 <= i < taken implies (#[trigger] arrivals[i]).key == time by {
            if i > 0 {
                assert(arrivals[i] == rest[i - 1]);
            }
        }
    }
}

/// What the dispatch of a tick does to the ready queue: a unit that runs is
/// taken from the computation left to the task that runs, and from nothing
/// else.
pub proof fn lemma_dispatch(ready: Seq<QueueEntry>, meta: MetaView, seq: u64)
    requires
        have_work(ready),
    ensures
        ({
            let d = dispatch(ready, meta);
            &&& have_work(d.ready)
            &&& remaining(d.ready, seq) + if is_run_of(d.event, seq) {
                1int
            } else {
                0int
            } == remaining(ready, seq)
        }),
{
    let d = dispatch(ready, meta);
    if meta.context == 0 && ready.len() > 0 {
        lemma_remaining_first(ready, seq);
        assert(ready[0].process.computation >= 1);
        if ready[0].process.computation == 1 {
            lemma_rest_has_work(ready);
        } else {
            lemma_remaining_first(d.ready, seq);
            assert(d.ready.drop_first() =~= ready.drop_first());
            lemma_first_replaced_has_work(ready, d.ready[0]);
        }
    }
}

/// After any number of ticks as many tasks were admitted as the ready queue
/// has numbered, none of the tasks was counted twice, and the trace has one
/// event for each tick.
pub proof fn lemma_run_counts(arrivals: Seq<QueueEntry>, ticks: nat, speeds: Option<Seq<Ratio>>)
    requires
        arrivals.len() <= u64::MAX,
        ticks <= 65536,
    ensures
        ({
            let r = run(initial_state(arrivals), ticks, speeds);
            let a = admitted(initial_state(arrivals), ticks, speeds);
            &&& r.state.pushed == a.len()
            &&& r.state.pushed + r.state.arrivals.len() <= arrivals.len()
            &&& r.trace.len() == ticks
            &&& have_work(arrivals) ==> have_work(r.state.arrivals) && have_work(r.state.ready)
        }),
    decreases ticks,
{
    if ticks > 0 {
        let t = (ticks - 1) as nat;
        lemma_run_counts(arrivals, t, speeds);
        let s = run(initial_state(arrivals), t, speeds).state;
        let a = admission(s.arrivals, s.ready, s.pushed, s.meta.current_voltage, t as u16, speeds);
        lemma_admission(
            s.arrivals,
            s.ready,
            s.pushed,
            s.meta.current_voltage,
            t as u16,
            speeds,
            0,
        );
        if have_work(arrivals) {
            let m = account(MetaView { current_voltage: a.voltage, ..s.meta }, a.ready);
            lemma_dispatch(a.ready, m, 0);
        }
    }
}

/// Computation is conserved. Where every task of the workload has
/// computation to do, after any number of ticks, for the task admitted as
/// number `seq`: the ticks in which it ran and the computation left to it in
/// the ready queue make up the computation it was admitted with. So no task
/// runs for more ticks than it declared, and a task that has left the ready
/// queue ran for exactly that many. A number under which no task was
/// admitted never runs: a task that was dropped runs in no tick.
pub proof fn lemma_computation_conserved(
    arrivals: Seq<QueueEntry>,
    ticks: nat,
    speeds: Option<Seq<Ratio>>,
    seq: u64,
)
    requires
        arrivals.len() <= u64::MAX,
        ticks <= 65536,
        have_work(arrivals),
    ensures
        ({
            let r = run(initial_state(arrivals), ticks, speeds);
            let a = admitted(initial_state(arrivals), ticks, speeds);
            &&& r.state.pushed == a.len()
            &&& 0 <= executed(r.trace, seq)
            &&& 0 <= remaining(r.state.ready, seq)
            &&& seq < a.len() ==> a[seq as int].computation >= 1 && executed(r.trace, seq)
                + remaining(r.state.ready, seq) == a[seq as int].computation
            &&& seq >= a.len() ==> executed(r.trace, seq) == 0 && remaining(r.state.ready, seq)
                == 0
        }),
    decreases ticks,
{
    let start = initial_state(arrivals);
    lemma_run_counts(arrivals, ticks, speeds);
    if ticks == 0 {
    } else {
        let t = (ticks - 1) as nat;
        lemma_computation_conserved(arrivals, t, speeds, seq);
        lemma_run_counts(arrivals, t, speeds);
        let before = run(start, t, speeds);
        let s = before.state;
        let time = t as u16;
        let a = admission(s.arrivals, s.ready, s.pushed, s.meta.current_voltage, time, speeds);
        let n = admitted_at(s.arrivals, s.ready, s.pushed, time, speeds);
        lemma_admission(s.arrivals, s.ready, s.pushed, s.meta.current_voltage, time, speeds, seq);
        let m = account(MetaView { current_voltage: a.voltage, ..s.meta }, a.ready);
        lemma_dispatch(a.ready, m, seq);
        let d = dispatch(a.ready, m);
        let after = run(start, ticks, speeds);
        assert(after.state.ready == d.ready);
        assert(after.trace == before.trace.push(d.event));
        assert(after.trace.drop_last() =~= before.trace);
        let old_admitted = admitted(start, t, speeds);
        let now_admitted = admitted(start, ticks, speeds);
        assert(now_admitted == old_admitted + n);
        lemma_remaining_bound(d.ready, seq);
        if seq < old_admitted.len() {
            assert(now_admitted[seq as int] == old_admitted[seq as int]);
        } else if seq < now_admitted.len() {
            assert(now_admitted[seq as int] == n[seq - s.pushed]);
        }
    }
}

/// Every sequence number in `ready` is below `pushed`.
pub open spec fn numbered_below(ready: Seq<QueueEntry>, pushed: nat) -> bool {
    forall|i: int| 0 <= i < ready.len() ==> (#[trigger] ready[i]).seq < pushed
}

/// Every entry of `ready` has the name of the task that was admitted under
/// its number.
pub open spec fn named_as_admitted(ready: Seq<QueueEntry>, tasks: Seq<ProcessView>) -> bool {
    forall|i: int|
        0 <= i < ready.len() ==> (#[trigger] ready[i]).seq < tasks.len()
            && tasks[ready[i].seq as int].task_id == ready[i].process.task_id
}

proof fn lemma_admission_ordered(
    arrivals: Seq<QueueEntry>,
    ready: Seq<QueueEntry>,
    pushed: nat,
    voltage: Ratio,
    time: u16,
    speeds: Option<Seq<Ratio>>,
    tasks: Seq<ProcessView>,
)
    requires
        in_pop_order(ready),
        numbered_below(ready, pushed),
        named_as_admitted(ready, tasks),
        tasks.len() == pushed,
        pushed + arrivals.len() <= u64::MAX,
    ensures
        in_pop_order(admission(arrivals, ready, pushed, voltage, time, speeds).ready),
        numbered_below(
            admission(arrivals, ready, pushed, voltage, time, speeds).ready,
            admission(arrivals, ready, pushed, voltage, time, speeds).pushed,
        ),
        named_as_admitted(
            admission(arrivals, ready, pushed, voltage, time, speeds).ready,
            tasks + admitted_at(arrivals, ready, pushed, time, speeds),
        ),
    decreases arrivals.len(),
{
    let n = admitted_at(arrivals, ready, pushed, time, speeds);
    if arrivals.len() == 0 || arrivals[0].key != time {
        assert(tasks + n =~= tasks);
    } else {
        let p = arrivals[0].process;
        let u = spec_utilization(ready, p, time, speeds);
        if u.spec_at_most_one() {
            let k = rank(ready, (time + p.deadline) as u32);
            let e = ready_entry(p, time, pushed);
            let grown = ready.insert(k, e);
            let more = tasks.push(p);
            lemma_insert_in_order(ready, e);
            assert forall|i: int| 0 <= i < grown.len() implies (#[trigger] grown[i]).seq < pushed
                + 1 && grown[i].seq < more.len() && more[grown[i].seq as int].task_id
                == grown[i].process.task_id by {
                if i < k {
                    assert(grown[i] == ready[i]);
                } else if i > k {
                    assert(grown[i] == ready[i - 1]);
                }
            }
            lemma_admission_ordered(
                arrivals.drop_first(),
                grown,
                pushed + 1,
                u,
                time,
                speeds,
                more,
            );
            let rest = admitted_at(arrivals.drop_first(), grown, pushed + 1, time, speeds);
            assert(n == seq![p] + rest);
            assert(tasks + n =~= more + rest);
        } else {
            lemma_admission_ordered(
                arrivals.drop_first(),
                ready,
                pushed,
                voltage,
                time,
                speeds,
                tasks,
            );
            assert(n == admitted_at(arrivals.drop_first(), ready, pushed, time, speeds));
        }
    }
}

/// At all times the ready queue is in pop order: after any number of ticks
/// each of its entries precedes all that follow it, so the tasks leave it
/// by ascending absolute deadline, and among equal deadlines in the order of
/// their admission. Each of its entries has the name of the task that was
/// admitted under its number.
pub proof fn lemma_ready_in_pop_order(
    arrivals: Seq<QueueEntry>,
    ticks: nat,
    speeds: Option<Seq<Ratio>>,
)
    requires
        arrivals.len() <= u64::MAX,
        ticks <= 65536,
    ensures
        in_pop_order(run(initial_state(arrivals), ticks, speeds).state.ready),
        numbered_below(
            run(initial_state(arrivals), ticks, speeds).state.ready,
            run(initial_state(arrivals), ticks, speeds).state.pushed,
        ),
        named_as_admitted(
            run(initial_state(arrivals), ticks, speeds).state.ready,
            admitted(initial_state(arrivals), ticks, speeds),
        ),
    decreases ticks,
{
    if ticks > 0 {
        let t = (ticks - 1) as nat;
        lemma_ready_in_pop_order(arrivals, t, speeds);
        lemma_run_counts(arrivals, t, speeds);
        let start = initial_state(arrivals);
        let s = run(start, t, speeds).state;
        let time = t as u16;
        let a = admission(s.arrivals, s.ready, s.pushed, s.meta.current_voltage, time, speeds);
        let tasks = admitted(start, ticks, speeds);
        lemma_admission_ordered(
            s.arrivals,
            s.ready,
            s.pushed,
            s.meta.current_voltage,
            time,
            speeds,
            admitted(start, t, speeds),
        );
        let m = account(MetaView { current_voltage: a.voltage, ..s.meta }, a.ready);
        let d = dispatch(a.ready, m);
        assert forall|i: int, j: int| 0 <= i < j < d.ready.len() implies precedes(
            #[trigger] d.ready[i],
            #[trigger] d.ready[j],
        ) by {
            if d.ready.len() == a.ready.len() {
                assert(precedes(a.ready[i], a.ready[j]));
            } else {
                assert(d.ready[i] == a.ready[i + 1] && d.ready[j] == a.ready[j + 1]);
                assert(precedes(a.ready[i + 1], a.ready[j + 1]));
            }
        }
        assert forall|i: int| 0 <= i < d.ready.len() implies (#[trigger] d.ready[i]).seq
            < a.pushed && d.ready[i].seq < tasks.len() && tasks[d.ready[i].seq as int].task_id
            == d.ready[i].process.task_id by {
            if d.ready.len() == a.ready.len() {
                assert(a.ready[i].seq < a.pushed);
            } else {
                assert(d.ready[i] == a.ready[i + 1]);
            }
        }
    }
}

/// Whether the event, if a task runs in it, names the task that was admitted
/// under the number it gives.
pub open spec fn names_admitted(event: EventView, tasks: Seq<ProcessView>) -> bool {
    match event {
        EventView::Running { task_id, seq, voltage } => seq < tasks.len() && tasks[seq as int].task_id
            == task_id,
        _ => true,
    }
}

/// The tasks admitted up to a tick are still the first of those admitted up
/// to a later one.
pub proof fn lemma_admitted_grow(
    arrivals: Seq<QueueEntry>,
    earlier: nat,
    later: nat,
    speeds: Option<Seq<Ratio>>,
)
    requires
        earlier <= later,
    ensures
        admitted(initial_state(arrivals), earlier, speeds).len() <= admitted(
            initial_state(arrivals),
            later,
            speeds,
        ).len(),
        forall|i: int|
            0 <= i < admitted(initial_state(arrivals), earlier, speeds).len() ==> (
            #[trigger] admitted(initial_state(arrivals), later, speeds)[i]) == admitted(
                initial_state(arrivals),
                earlier,
                speeds,
            )[i],
    decreases later,
{
    if earlier < later {
        lemma_admitted_grow(arrivals, earlier, (later - 1) as nat, speeds);
    }
}

/// A task runs under its own name: in every tick of a run in which a task
/// runs, the event gives the number under which a task was admitted, and
/// the name of that task. So the ticks counted for a number are the ticks
/// that the trace shows for the task admitted under it.
pub proof fn lemma_running_names(
    arrivals: Seq<QueueEntry>,
    ticks: nat,
    speeds: Option<Seq<Ratio>>,
    at: int,
)
    requires
        arrivals.len() <= u64::MAX,
        ticks <= 65536,
        0 <= at < ticks,
    ensures
        run(initial_state(arrivals), ticks, speeds).trace.len() == ticks,
        names_admitted(
            run(initial_state(arrivals), ticks, speeds).trace[at],
            admitted(initial_state(arrivals), ticks, speeds),
        ),
    decreases ticks,
{
    let start = initial_state(arrivals);
    lemma_run_counts(arrivals, ticks, speeds);
    let t = (ticks - 1) as nat;
    lemma_run_counts(arrivals, t, speeds);
    if at < t {
        lemma_running_names(arrivals, t, speeds, at);
        lemma_admitted_grow(arrivals, t, ticks, speeds);
        assert(run(start, ticks, speeds).trace[at] == run(start, t, speeds).trace[at]);
    } else {
        lemma_ready_in_pop_order(arrivals, t, speeds);
        let s = run(start, t, speeds).state;
        let time = t as u16;
        let a = admission(s.arrivals, s.ready, s.pushed, s.meta.current_voltage, time, speeds);
        lemma_admission_ordered(
            s.arrivals,
            s.ready,
            s.pushed,
            s.meta.current_voltage,
            time,
            speeds,
            admitted(start, t, speeds),
        );
        let m = account(MetaView { current_voltage: a.voltage, ..s.meta }, a.ready);
        let d = dispatch(a.ready, m);
        assert(run(start, ticks, speeds).trace[at] == d.event);
    }
}

/// Loading is a function of the text: two loads of one text both succeed or
/// both fail; where they succeed, the arrival queues hold the same entries
/// in the same order and the speeds are the same; where they fail, the
/// errors are the same.
pub proof fn lemma_reload(
    first: Result<Workload, ParseError>,
    second: Result<Workload, ParseError>,
    text: Seq<char>,
)
    requires
        load_matches(first, text),
        load_matches(second, text),
    ensures
        first is Ok <==> second is Ok,
        first is Ok ==> first->Ok_0.arrival_queue@ == second->Ok_0.arrival_queue@ && table_view(
            first->Ok_0.speeds,
        ) == table_view(second->Ok_0.speeds),
        first is Err ==> first->Err_0 == second->Err_0,
{
}

/// A run is a function of the arrival queue, the number of ticks and the
/// speeds: equal workloads give equal traces.
pub proof fn lemma_rerun(
    first: Seq<QueueEntry>,
    second: Seq<QueueEntry>,
    ticks: nat,
    speeds: Option<Seq<Ratio>>,
)
    requires
        first == second,
    ensures
        run(initial_state(first), ticks, speeds).trace == run(
            initial_state(second),
            ticks,
            speeds,
        ).trace,
{
}

/// While context ticks are pending, a tick spends one of them and runs
/// nothing: the ready queue stays as it is.
pub proof fn lemma_context_tick(ready: Seq<QueueEntry>, meta: MetaView)
    requires
        meta.context > 0,
    ensures
        dispatch(ready, meta).event == EventView::Context,
        dispatch(ready, meta).ready == ready,
        dispatch(ready, meta).meta.context == meta.context - 1,
{
}

/// A preemption costs both switches: where the head of the ready queue has
/// another name than the task last seen, and that task had computation
/// left, the pending context ticks grow by the costs of both.
pub proof fn lemma_preemption_cost(meta: MetaView, ready: Seq<QueueEntry>)
    requires
        ready.len() > 0,
        meta.last is Some,
        meta.last->0.task_id != ready[0].process.task_id,
        meta.last->0.computation > 0,
        meta.context <= u64::MAX - 510,
    ensures
        account(meta, ready).context == meta.context + meta.last->0.context_time
            + ready[0].process.context_time,
{
}

/// After a completion only the new head is charged: where the head of the
/// ready queue has another name than the task last seen, and that task had
/// no computation left, the pending context ticks grow by the cost of the
/// head alone. The task that completed was charged when it ran its last
/// unit: then its own cost became pending.
pub proof fn lemma_completion_cost(meta: MetaView, ready: Seq<QueueEntry>)
    requires
        ready.len() > 0,
        meta.last is Some,
        meta.last->0.task_id != ready[0].process.task_id,
        meta.last->0.computation == 0,
        meta.context <= u64::MAX - 510,
    ensures
        account(meta, ready).context == meta.context + ready[0].process.context_time,
        meta.context == 0 && ready[0].process.computation == 1 ==> dispatch(
            ready,
            meta,
        ).meta.context == ready[0].process.context_time && dispatch(ready, meta).ready
            == ready.drop_first(),
{
}

} // verus!
