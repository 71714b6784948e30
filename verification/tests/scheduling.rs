use edf_scheduler::loader::load_processes;
use edf_scheduler::process::Process;
use edf_scheduler::queue::ProcessQueue;
use edf_scheduler::ratio::Ratio;
use edf_scheduler::scheduler::{
    context_handler, process_task, queue_tasks, start_schedular, LastTask, SchedularMeta,
    TraceEvent,
};

fn task(name: &str, computation: u16, deadline: u16, context_time: u8) -> Process {
    Process { task_id: name.to_string(), computation, deadline, context_time }
}

fn r(num: u128, den: i64) -> Ratio {
    Ratio { num, den }
}

fn show(e: &TraceEvent) -> String {
    match e {
        TraceEvent::Context => "Context".to_string(),
        TraceEvent::NoProcess => "No Process".to_string(),
        TraceEvent::Running { task_id, voltage, .. } => {
            format!("Running {} at voltage {}", task_id, voltage.num as f32 / voltage.den as f32)
        }
    }
}

fn names(trace: &[TraceEvent]) -> String {
    trace
        .iter()
        .map(|e| match e {
            TraceEvent::Context => "-".to_string(),
            TraceEvent::NoProcess => ".".to_string(),
            TraceEvent::Running { task_id, .. } => task_id.clone(),
        })
        .collect::<Vec<String>>()
        .join(" ")
}

fn simulate(text: &str, ticks: u16) -> Vec<TraceEvent> {
    let mut w = match load_processes(text) {
        Ok(w) => w,
        Err(e) => panic!("{:?}", e),
    };
    assert!(w.arrival_queue.all_have_work());
    start_schedular(&mut w.arrival_queue, ticks, w.speeds)
}

fn meta(last: Option<(&str, u8, u16)>, context: u64) -> SchedularMeta {
    SchedularMeta {
        last: last.map(|(n, c, k)| LastTask {
            task_id: n.to_string(),
            context_time: c,
            computation: k,
        }),
        context,
        current_voltage: r(1, 1),
    }
}

fn last_of(m: &SchedularMeta) -> Option<(String, u8, u16)> {
    m.last.as_ref().map(|l| (l.task_id.clone(), l.context_time, l.computation))
}

#[test]
fn single_task_runs_to_completion() {
    let trace = simulate("h\nT1: (0, 3, 5, 1)\n", 200);
    assert_eq!(trace.len(), 200);
    let lines: Vec<String> = trace.iter().map(show).collect();
    assert_eq!(lines[0], "Context");
    assert_eq!(lines[1], "Running T1 at voltage 1");
    assert_eq!(lines[2], "Running T1 at voltage 1");
    assert_eq!(lines[3], "Running T1 at voltage 1");
    assert_eq!(lines[4], "Context");
    for line in &lines[5..] {
        assert_eq!(line, "No Process");
    }
    match &trace[1] {
        TraceEvent::Running { voltage, seq, .. } => {
            assert_eq!(*voltage, r(5, 5));
            assert_eq!(*seq, 0);
        }
        other => panic!("{:?}", other),
    }
}

#[test]
fn single_task_without_context_cost() {
    let trace = simulate("h\nT1: (0, 3, 5, 0)\n", 6);
    assert_eq!(names(&trace), "T1 T1 T1 . . .");
}

#[test]
fn a_preempted_task_pays_for_both_switches() {
    let text = "h\nA: (0, 5, 100, 2)\nB: (3, 1, 50, 0)\n";
    let trace = simulate(text, 16);
    assert_eq!(names(&trace), "- - A - - B - - A A A A - - . .");
    assert_eq!(show(&trace[2]), "Running A at voltage 0.09");
    match &trace[5] {
        TraceEvent::Running { voltage, seq, .. } => {
            assert_eq!(*voltage, r(9, 47));
            assert_eq!(*seq, 1);
        }
        other => panic!("{:?}", other),
    }
}

#[test]
fn a_preempting_task_adds_its_own_cost() {
    let text = "h\nA: (0, 5, 100, 2)\nB: (3, 1, 50, 3)\n";
    let trace = simulate(text, 12);
    assert_eq!(names(&trace), "- - A - - - - - B - - -");
}

#[test]
fn after_a_completion_only_the_finished_task_has_paid() {
    let text = "h\nA: (0, 2, 100, 2)\nB: (0, 3, 200, 0)\n";
    let trace = simulate(text, 12);
    assert_eq!(names(&trace), "- - A A - - B B B . . .");
}

#[test]
fn after_a_completion_the_next_task_pays_its_cost_too() {
    let text = "h\nA: (0, 2, 100, 2)\nB: (0, 3, 200, 1)\n";
    let trace = simulate(text, 12);
    assert_eq!(names(&trace), "- - A A - - - B B B - .");
}

#[test]
fn every_admitted_task_runs_for_its_computation() {
    let text = "h\nA: (0, 4, 60, 1)\nB: (2, 3, 30, 0)\nC: (2, 2, 500, 2)\nD: (9, 1, 40, 1)\n";
    let trace = simulate(text, 200);
    for (name, computation) in [("A", 4), ("B", 3), ("C", 2), ("D", 1)] {
        let ran = trace
            .iter()
            .filter(|e| matches!(e, TraceEvent::Running { task_id, .. } if task_id == name))
            .count();
        assert_eq!(ran, computation, "{}", name);
    }
}

#[test]
fn a_task_that_fails_the_test_never_runs() {
    let text = "h\nA: (0, 4, 60, 1)\nBig: (1, 70, 60, 0)\nB: (1, 1, 60, 0)\n";
    let trace = simulate(text, 40);
    assert!(!names(&trace).contains("Big"));
    assert_eq!(names(&trace[..10]), "- A A A A - B . . .");
}

#[test]
fn admission_goes_by_the_ratio_alone() {
    let mut arrivals = ProcessQueue::new();
    arrivals.push(task("tiny", 1, 50, 0), 0);
    arrivals.push(task("heavy switch", 1, 50, 25), 0);
    let mut ready = ProcessQueue::new();
    let mut voltage = r(7, 9);
    queue_tasks(&mut arrivals, 0, &mut voltage, &mut ready, &None);
    assert!(arrivals.is_empty());
    // "tiny" asks for 1 of 50; with "heavy switch" the demand is 52 of 50
    assert_eq!(ready.len(), 1);
    assert_eq!(ready.peek().unwrap().task_id, "tiny");
    assert_eq!(ready.peek_key(), Some(50));
    assert_eq!(voltage, r(1, 50));
}

#[test]
fn a_queue_says_whether_every_task_has_computation() {
    let mut q = ProcessQueue::new();
    assert!(q.all_have_work());
    q.push(task("a", 1, 50, 0), 3);
    q.push(task("b", 65535, 50, 0), 1);
    assert!(q.all_have_work());
    q.push(task("none", 0, 50, 1), 2);
    assert!(!q.all_have_work());
    assert_eq!(q.len(), 3);
    q.pop();
    assert!(!q.all_have_work());
    q.pop();
    assert!(q.all_have_work());
    let w = match load_processes("h\nA: (0, 1, 9, 0)\nnone: (0, 0, 50, 1)\n") {
        Ok(w) => w,
        Err(e) => panic!("{:?}", e),
    };
    assert!(!w.arrival_queue.all_have_work());
}

#[test]
fn equal_deadlines_run_in_the_order_of_admission() {
    let text = "h\nA: (0, 2, 50, 0)\nB: (0, 2, 50, 0)\nC: (1, 1, 49, 0)\n";
    let trace = simulate(text, 6);
    assert_eq!(names(&trace), "A A B B C .");
}

#[test]
fn the_same_text_gives_the_same_trace() {
    let text = "h\nA: (0, 5, 100, 2)\nPossible speeds: (0.5, 1.0)\nB: (3, 1, 50, 1)\nC: (3, 2, 50, 1)\n";
    let first: Vec<String> = simulate(text, 60).iter().map(show).collect();
    let second: Vec<String> = simulate(text, 60).iter().map(show).collect();
    assert_eq!(first, second);
    assert_eq!(first[2], "Running A at voltage 0.5");
}

#[test]
fn an_empty_workload_idles() {
    let trace = simulate("h\n", 5);
    assert_eq!(names(&trace), ". . . . .");
    assert!(simulate("h\nA: (0, 1, 9, 0)\n", 0).is_empty());
}

#[test]
fn a_task_that_arrives_after_the_horizon_stays_in_the_arrival_queue() {
    let mut w = match load_processes("h\nA: (0, 1, 9, 0)\nB: (7, 1, 9, 0)\n") {
        Ok(w) => w,
        Err(e) => panic!("{:?}", e),
    };
    let trace = start_schedular(&mut w.arrival_queue, 7, None);
    assert_eq!(names(&trace), "A . . . . . .");
    assert_eq!(w.arrival_queue.len(), 1);
    assert_eq!(w.arrival_queue.peek().unwrap().task_id, "B");
}

#[test]
fn admission_takes_the_tasks_of_this_tick_only() {
    let mut arrivals = ProcessQueue::new();
    arrivals.push(task("now", 2, 20, 1), 4);
    arrivals.push(task("too much", 30, 20, 0), 4);
    arrivals.push(task("also now", 1, 10, 0), 4);
    arrivals.push(task("later", 1, 10, 0), 5);
    let mut ready = ProcessQueue::new();
    let mut voltage = r(1, 1);
    queue_tasks(&mut arrivals, 4, &mut voltage, &mut ready, &None);
    assert_eq!(arrivals.len(), 1);
    assert_eq!(arrivals.peek_key(), Some(5));
    assert_eq!(ready.len(), 2);
    // "also now": loads 1 and 4, windows 6 and 16
    assert_eq!(voltage, r(5, 6));
    let first = ready.pop().unwrap();
    assert_eq!((first.process.task_id.as_str(), first.key, first.seq), ("also now", 14, 1));
    let second = ready.pop().unwrap();
    assert_eq!((second.process.task_id.as_str(), second.key, second.seq), ("now", 24, 0));
}

#[test]
fn a_head_that_arrived_earlier_blocks_admission() {
    let mut arrivals = ProcessQueue::new();
    arrivals.push(task("missed", 1, 20, 0), 2);
    arrivals.push(task("now", 1, 20, 0), 3);
    let mut ready = ProcessQueue::new();
    let mut voltage = r(1, 1);
    queue_tasks(&mut arrivals, 3, &mut voltage, &mut ready, &None);
    assert_eq!(arrivals.len(), 2);
    assert!(ready.is_empty());
    assert_eq!(voltage, r(1, 1));
}

#[test]
fn a_late_task_is_admitted_on_a_negative_ratio() {
    let mut arrivals = ProcessQueue::new();
    arrivals.push(task("late", 30, 5, 0), 9);
    let mut ready = ProcessQueue::new();
    let mut voltage = r(1, 1);
    queue_tasks(&mut arrivals, 9, &mut voltage, &mut ready, &None);
    assert_eq!(ready.len(), 1);
    assert_eq!(voltage, r(30, -4));
    assert_eq!(ready.peek_key(), Some(14));
}

#[test]
fn the_absolute_deadline_may_pass_sixteen_bits() {
    let mut arrivals = ProcessQueue::new();
    arrivals.push(task("far", 1, 65535, 0), 65535);
    let mut ready = ProcessQueue::new();
    let mut voltage = r(1, 1);
    queue_tasks(&mut arrivals, 65535, &mut voltage, &mut ready, &None);
    assert_eq!(voltage, r(1, 1));
    assert!(ready.is_empty());
    assert!(arrivals.is_empty());
    arrivals.push(task("far", 1, 65535, 0), 65534);
    queue_tasks(&mut arrivals, 65534, &mut voltage, &mut ready, &None);
    assert_eq!(voltage, r(1, 1));
    assert_eq!(ready.peek_key(), Some(131069));
}

#[test]
fn a_speed_above_one_rejects_the_task() {
    let mut arrivals = ProcessQueue::new();
    arrivals.push(task("a", 1, 10, 0), 0);
    let mut ready = ProcessQueue::new();
    let mut voltage = r(1, 1);
    queue_tasks(&mut arrivals, 0, &mut voltage, &mut ready, &Some(vec![r(15, 10), r(5, 10)]));
    assert!(arrivals.is_empty());
    assert!(ready.is_empty());
    assert_eq!(voltage, r(1, 1));
    arrivals.push(task("a", 1, 10, 0), 0);
    queue_tasks(&mut arrivals, 0, &mut voltage, &mut ready, &Some(vec![r(5, 10), r(15, 10)]));
    assert_eq!(ready.len(), 1);
    assert_eq!(voltage, r(5, 10));
}

#[test]
fn accounting_with_no_ready_task_changes_nothing() {
    let ready = ProcessQueue::new();
    let mut m = meta(Some(("a", 2, 3)), 7);
    context_handler(&mut m, &ready);
    assert_eq!(m.context, 7);
    assert_eq!(last_of(&m), Some(("a".to_string(), 2, 3)));
}

#[test]
fn accounting_for_the_first_task_sets_its_cost() {
    let mut ready = ProcessQueue::new();
    ready.push(task("a", 6, 10, 4), 10);
    let mut m = meta(None, 9);
    context_handler(&mut m, &ready);
    assert_eq!(m.context, 4);
    assert_eq!(last_of(&m), Some(("a".to_string(), 4, 6)));
    assert_eq!(ready.len(), 1);
}

#[test]
fn accounting_for_a_preemption_adds_both_costs() {
    let mut ready = ProcessQueue::new();
    ready.push(task("b", 6, 10, 4), 10);
    let mut m = meta(Some(("a", 2, 3)), 1);
    context_handler(&mut m, &ready);
    assert_eq!(m.context, 7);
    assert_eq!(last_of(&m), Some(("b".to_string(), 4, 6)));
}

#[test]
fn accounting_after_a_completion_adds_the_cost_of_the_head() {
    let mut ready = ProcessQueue::new();
    ready.push(task("b", 6, 10, 4), 10);
    let mut m = meta(Some(("a", 2, 0)), 1);
    context_handler(&mut m, &ready);
    assert_eq!(m.context, 5);
    assert_eq!(last_of(&m), Some(("b".to_string(), 4, 6)));
}

#[test]
fn accounting_for_the_same_name_changes_nothing() {
    let mut ready = ProcessQueue::new();
    ready.push(task("a", 6, 10, 4), 10);
    let mut m = meta(Some(("a", 2, 3)), 1);
    context_handler(&mut m, &ready);
    assert_eq!(m.context, 1);
    assert_eq!(last_of(&m), Some(("a".to_string(), 2, 3)));
}

#[test]
fn dispatch_spends_a_context_tick_first() {
    let mut ready = ProcessQueue::new();
    ready.push(task("a", 6, 10, 4), 10);
    let mut m = meta(Some(("a", 4, 6)), 2);
    assert!(matches!(process_task(&mut ready, &mut m), TraceEvent::Context));
    assert_eq!(m.context, 1);
    assert_eq!(ready.peek().unwrap().computation, 6);
}

#[test]
fn dispatch_idles_on_an_empty_queue() {
    let mut ready = ProcessQueue::new();
    let mut m = meta(None, 0);
    assert!(matches!(process_task(&mut ready, &mut m), TraceEvent::NoProcess));
    assert_eq!(m.context, 0);
}

#[test]
fn dispatch_runs_the_head_for_one_unit() {
    let mut ready = ProcessQueue::new();
    ready.push(task("b", 3, 30, 1), 30);
    ready.push(task("a", 2, 10, 4), 10);
    let mut m = meta(Some(("a", 4, 2)), 0);
    m.current_voltage = r(3, 4);
    match process_task(&mut ready, &mut m) {
        TraceEvent::Running { task_id, seq, voltage } => {
            assert_eq!(task_id, "a");
            assert_eq!(seq, 1);
            assert_eq!(voltage, r(3, 4));
        }
        other => panic!("{:?}", other),
    }
    assert_eq!(m.context, 0);
    assert_eq!(last_of(&m), Some(("a".to_string(), 4, 1)));
    assert_eq!(ready.len(), 2);
    let head = ready.peek().unwrap();
    assert_eq!((head.task_id.as_str(), head.computation, head.deadline, head.context_time), ("a", 1, 10, 4));
    assert!(matches!(process_task(&mut ready, &mut m), TraceEvent::Running { .. }));
    assert_eq!(m.context, 4);
    assert_eq!(last_of(&m), Some(("a".to_string(), 4, 0)));
    assert_eq!(ready.len(), 1);
    assert_eq!(ready.peek().unwrap().task_id, "b");
    assert!(matches!(process_task(&mut ready, &mut m), TraceEvent::Context));
}

#[test]
fn the_state_starts_at_full_voltage() {
    let m = SchedularMeta::new();
    assert!(m.last.is_none());
    assert_eq!(m.context, 0);
    assert_eq!(m.current_voltage, r(1, 1));
}
