//! The admission test: the processor utilization that the ready tasks and a
//! candidate would ask for, and the speed chosen for it.

use crate::process::{load, Process, ProcessView};
use crate::queue::{entries_of, ProcessQueue, QueueEntry};
use crate::ratio::{table_view, Ratio};
use vstd::prelude::*;
use vstd::seq_lib::{commutative_foldl, lemma_fold_left_permutation};

verus! {

/// The time left to a task at `time`: its deadline less the time. It is zero
/// or negative where the time has reached or passed the deadline.
pub open spec fn window(p: ProcessView, time: u16) -> int {
    p.deadline - time
}

/// Whether a positive demand makes a greater ratio over the window `w1` than
/// over `w2`. Over a window of zero the ratio has no bound; over a positive
/// window it is positive, and the greater the shorter the window; over a
/// negative window it is negative, and the greater the longer the window.
pub open spec fn tighter(w1: int, w2: int) -> bool {
    if w2 == 0 {
        false
    } else if w1 == 0 {
        true
    } else if (w1 > 0) != (w2 > 0) {
        w1 > 0
    } else {
        w1 < w2
    }
}

/// Adds the load of an entry to a sum.
pub open spec fn load_adder() -> spec_fn(int, QueueEntry) -> int {
    |sum: int, e: QueueEntry| sum + load(e.process)
}

/// Keeps the tighter of a window and that of an entry.
pub open spec fn window_picker(time: u16) -> spec_fn(int, QueueEntry) -> int {
    |best: int, e: QueueEntry|
        if tighter(window(e.process, time), best) {
            window(e.process, time)
        } else {
            best
        }
}

/// The demand: the loads of the ready tasks and of the candidate, summed.
pub open spec fn demand(ready: Seq<QueueEntry>, candidate: ProcessView) -> int {
    ready.fold_left(load(candidate), load_adder())
}

/// The window, among those of the ready tasks and of the candidate, over
/// which a positive demand makes the greatest ratio.
pub open spec fn tightest_window(ready: Seq<QueueEntry>, candidate: ProcessView, time: u16) -> int {
    ready.fold_left(window(candidate, time), window_picker(time))
}

/// The utilization at `time`: the greatest of the ratios of the demand to
/// the window of a ready task or of the candidate. Where the demand is zero,
/// it is the ratio of zero to the window of the candidate.
pub open spec fn load_ratio(ready: Seq<QueueEntry>, candidate: ProcessView, time: u16) -> Ratio {
    let d = demand(ready, candidate);
    Ratio {
        num: d as u128,
        den: if d == 0 {
            window(candidate, time) as i64
        } else {
            tightest_window(ready, candidate, time) as i64
        },
    }
}

/// The index of the first speed that exceeds `u`, or the length of the table
/// where none does.
pub open spec fn first_exceeding(speeds: Seq<Ratio>, u: Ratio) -> int
    decreases speeds.len(),
{
    if speeds.len() == 0 || speeds[0].spec_exceeds(u) {
        0
    } else {
        1 + first_exceeding(speeds.drop_first(), u)
    }
}

/// The first speed of the table that exceeds `u`; `u` itself where there is
/// no table or no such speed.
pub open spec fn select_speed(speeds: Option<Seq<Ratio>>, u: Ratio) -> Ratio {
    match speeds {
        None => u,
        Some(table) => if first_exceeding(table, u) < table.len() {
            table[first_exceeding(table, u)]
        } else {
            u
        },
    }
}

/// What `utilization` returns.
pub open spec fn spec_utilization(
    ready: Seq<QueueEntry>,
    candidate: ProcessView,
    time: u16,
    speeds: Option<Seq<Ratio>>,
) -> Ratio {
    select_speed(speeds, load_ratio(ready, candidate, time))
}

/// Decides `tighter`.
fn is_tighter(w1: i64, w2: i64) -> (b: bool)
    ensures
        b == tighter(w1 as int, w2 as int),
{
    if w2 == 0 {
        false
    } else if w1 == 0 {
        true
    } else if (w1 > 0) != (w2 > 0) {
        w1 > 0
    } else {
        w1 < w2
    }
}

/// The demand and the tightest window do not depend on the order of the
/// ready tasks.
pub proof fn lemma_order_free(
    a: Seq<QueueEntry>,
    b: Seq<QueueEntry>,
    candidate: ProcessView,
    time: u16,
)
    requires
        a.to_multiset() == b.to_multiset(),
    ensures
        demand(a, candidate) == demand(b, candidate),
        tightest_window(a, candidate, time) == tightest_window(b, candidate, time),
{
    let f = load_adder();
    assert(commutative_foldl(f)) by {
        assert forall|x: QueueEntry, y: QueueEntry, v: int| #[trigger]
            f(f(v, x), y) == f(f(v, y), x) by {}
    }
    lemma_fold_left_permutation(a, b, f, load(candidate));
    let g = window_picker(time);
    assert(commutative_foldl(g)) by {
        assert forall|x: QueueEntry, y: QueueEntry, v: int| #[trigger]
            g(g(v, x), y) == g(g(v, y), x) by {}
    }
    lemma_fold_left_permutation(a, b, g, window(candidate, time));
}

/// The demand is at least the load of the candidate and at most 66045 for
/// each task.
pub proof fn lemma_demand_bounds(ready: Seq<QueueEntry>, candidate: ProcessView)
    ensures
        0 <= load(candidate) <= demand(ready, candidate) <= 66045 * (ready.len() + 1),
    decreases ready.len(),
{
    if ready.len() > 0 {
        lemma_demand_bounds(ready.drop_last(), candidate);
    }
}

/// The tightest window is the window of the candidate or of a ready task.
pub proof fn lemma_window_bounds(ready: Seq<QueueEntry>, candidate: ProcessView, time: u16)
    ensures
        -65535 <= tightest_window(ready, candidate, time) <= 65535,
    decreases ready.len(),
{
    if ready.len() > 0 {
        lemma_window_bounds(ready.drop_last(), candidate, time);
    }
}

/// The utilization that admitting `new_task` at `time` would bring, over the
/// ready tasks and the candidate; where a table of speeds is given, the
/// first of its speeds that exceeds that utilization, if there is one.
pub fn utilization(
    edf_queue: &ProcessQueue,
    new_task: &Process,
    time: u16,
    speeds: &Option<Vec<Ratio>>,
) -> (r: Ratio)
    requires
        edf_queue.wf(),
    ensures
        r == spec_utilization(edf_queue@, new_task@, time, table_view(*speeds)),
{
    let entries = edf_queue.snapshot();
    let ghost listed = entries_of(entries@);
    let own: i64 = new_task.deadline as i64 - time as i64;
    let mut sum: u128 = new_task.computation as u128 + 2 * (new_task.context_time as u128);
    let mut best: i64 = own;
    let mut i: usize = 0;
    assert(listed.take(0) =~= Seq::<QueueEntry>::empty());
    while i < entries.len()
        invariant
            0 <= i <= entries@.len(),
            listed == entries_of(entries@),
            sum == demand(listed.take(i as int), new_task@),
            best == tightest_window(listed.take(i as int), new_task@, time),
        decreases entries@.len() - i,
    {
        let p = &entries[i].process;
        proof {
            assert(listed.take(i + 1).drop_last() =~= listed.take(i as int));
            assert(listed.take(i + 1).last() == entries@[i as int]@);
            lemma_demand_bounds(listed.take(i as int), new_task@);
            lemma_window_bounds(listed.take(i as int), new_task@, time);
        }
        sum = sum + (p.computation as u128 + 2 * (p.context_time as u128));
        let w: i64 = p.deadline as i64 - time as i64;
        if is_tighter(w, best) {
            best = w;
        }
        i += 1;
    }
    proof {
        assert(listed.take(i as int) =~= listed);
        lemma_order_free(listed, edf_queue@, new_task@, time);
        lemma_demand_bounds(edf_queue@, new_task@);
        lemma_window_bounds(edf_queue@, new_task@, time);
    }
    let u = Ratio {
        num: sum,
        den: if sum == 0 {
            own
        } else {
            best
        },
    };
    match speeds {
        None => u,
        Some(table) => {
            let mut k: usize = 0;
            assert(table@.skip(0) =~= table@);
            while k < table.len()
                invariant
                    0 <= k <= table@.len(),
                    u == load_ratio(edf_queue@, new_task@, time),
                    table_view(*speeds) == Some(table@),
                    first_exceeding(table@, u) == k + first_exceeding(table@.skip(k as int), u),
                decreases table@.len() - k,
            {
                if table[k].exceeds(&u) {
                    assert(table@.skip(k as int)[0] == table@[k as int]);
                    return table[k];
                }
                assert(table@.skip(k as int).drop_first() =~= table@.skip(k + 1));
                k += 1;
            }
            u
        },
    }
}

/// For a positive demand, `tighter` orders the windows as `spec_exceeds`
/// orders the ratios of the demand to them.
pub proof fn lemma_tighter_is_exceeds(d: u128, w1: i64, w2: i64)
    requires
        d > 0,
    ensures
        tighter(w1 as int, w2 as int) <==> (Ratio { num: d, den: w1 }).spec_exceeds(
            Ratio { num: d, den: w2 },
        ),
{
    let a = Ratio { num: d, den: w1 };
    let b = Ratio { num: d, den: w2 };
    if w1 != 0 && w2 != 0 {
        let x = a.scale();
        let y = b.scale();
        assert(x > 0 && y > 0);
        assert((d * y > d * x) <==> y > x) by (nonlinear_arith)
            requires
                d > 0,
        ;
        assert(((-(d as int)) * y > (-(d as int)) * x) <==> y < x) by (nonlinear_arith)
            requires
                d > 0,
        ;
        assert(d * y > 0 && d * x > 0 && (-(d as int)) * y < 0 && (-(d as int)) * x < 0)
            by (nonlinear_arith)
            requires
                d > 0,
                x > 0,
                y > 0,
        ;
    }
}

/// The tightest window is the window of the candidate or of a ready task,
/// and none of their windows is tighter.
pub proof fn lemma_tightest(ready: Seq<QueueEntry>, candidate: ProcessView, time: u16)
    ensures
        tightest_window(ready, candidate, time) == window(candidate, time) || exists|j: int|
            0 <= j < ready.len() && tightest_window(ready, candidate, time) == window(
                (#[trigger] ready[j]).process,
                time,
            ),
        !tighter(window(candidate, time), tightest_window(ready, candidate, time)),
        forall|j: int|
            0 <= j < ready.len() ==> !tighter(
                window((#[trigger] ready[j]).process, time),
                tightest_window(ready, candidate, time),
            ),
    decreases ready.len(),
{
    if ready.len() > 0 {
        let front = ready.drop_last();
        lemma_tightest(front, candidate, time);
        let before = tightest_window(front, candidate, time);
        let now = tightest_window(ready, candidate, time);
        let w = window(ready.last().process, time);
        assert(now == if tighter(w, before) {
            w
        } else {
            before
        });
        assert forall|j: int| 0 <= j < ready.len() implies !tighter(
            window((#[trigger] ready[j]).process, time),
            now,
        ) by {
            if j < front.len() {
                assert(front[j] == ready[j]);
            }
        }
        if now != window(candidate, time) {
            if tighter(w, before) {
                assert(now == window(ready[ready.len() - 1].process, time));
            } else {
                let j = choose|j: int|
                    0 <= j < front.len() && before == window((#[trigger] front[j]).process, time);
                assert(front[j] == ready[j]);
            }
        }
    }
}

/// The utilization is the greatest of the ratios: the ratio of the demand to
/// the window of the candidate, or of any ready task, does not exceed it.
pub proof fn lemma_load_ratio_greatest(
    ready: Seq<QueueEntry>,
    candidate: ProcessView,
    time: u16,
    member: ProcessView,
)
    requires
        demand(ready, candidate) <= u128::MAX,
        member == candidate || exists|j: int|
            0 <= j < ready.len() && (#[trigger] ready[j]).process == member,
    ensures
        !(Ratio {
            num: demand(ready, candidate) as u128,
            den: window(member, time) as i64,
        }).spec_exceeds(load_ratio(ready, candidate, time)),
{
    let d = demand(ready, candidate);
    lemma_demand_bounds(ready, candidate);
    lemma_window_bounds(ready, candidate, time);
    lemma_tightest(ready, candidate, time);
    let w = window(member, time);
    let u = load_ratio(ready, candidate, time);
    let own = Ratio { num: d as u128, den: w as i64 };
    if d > 0 {
        lemma_tighter_is_exceeds(d as u128, w as i64, tightest_window(ready, candidate, time) as i64);
    } else {
        assert(own.signed_num() == 0 && u.signed_num() == 0);
        assert(own.signed_num() * u.scale() == 0 && u.signed_num() * own.scale() == 0)
            by (nonlinear_arith)
            requires
                own.signed_num() == 0,
                u.signed_num() == 0,
        ;
    }
}

/// With no task ready and no table of speeds, the utilization of a candidate
/// is its computation and twice the cost of its context switch, over what is
/// left of its deadline.
pub proof fn lemma_single_candidate(candidate: ProcessView, time: u16)
    ensures
        spec_utilization(Seq::empty(), candidate, time, None) == (Ratio {
            num: (candidate.computation + 2 * candidate.context_time) as u128,
            den: (candidate.deadline - time) as i64,
        }),
{
}

} // verus!
