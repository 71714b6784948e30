use edf_scheduler::process::Process;
use edf_scheduler::queue::{ProcessQueue, Queued};

fn task(name: &str, computation: u16, deadline: u16, context_time: u8) -> Process {
    Process { task_id: name.to_string(), computation, deadline, context_time }
}

fn drain(q: &mut ProcessQueue) -> Vec<(String, u32, u64)> {
    let mut out = Vec::new();
    while let Some(e) = q.pop() {
        out.push((e.process.task_id.clone(), e.key, e.seq));
    }
    out
}

#[test]
fn new_queue_is_empty() {
    let mut q = ProcessQueue::new();
    assert!(q.is_empty());
    assert_eq!(q.len(), 0);
    assert!(q.peek().is_none());
    assert!(q.peek_key().is_none());
    assert!(q.pop().is_none());
    assert!(q.snapshot().is_empty());
}

#[test]
fn pop_order_is_by_key() {
    let mut q = ProcessQueue::new();
    for (i, key) in [50u32, 10, 40, 20, 30, 0, 131070].iter().enumerate() {
        q.push(task(&format!("t{}", i), 1, 1, 0), *key);
    }
    assert_eq!(q.len(), 7);
    let keys: Vec<u32> = drain(&mut q).iter().map(|e| e.1).collect();
    assert_eq!(keys, vec![0, 10, 20, 30, 40, 50, 131070]);
}

#[test]
fn equal_keys_leave_in_the_order_of_their_pushes() {
    let mut q = ProcessQueue::new();
    for name in ["a", "b", "c", "d", "e", "f", "g", "h"] {
        q.push(task(name, 1, 1, 0), 7);
    }
    q.push(task("first", 1, 1, 0), 3);
    let got: Vec<String> = drain(&mut q).into_iter().map(|e| e.0).collect();
    assert_eq!(got, vec!["first", "a", "b", "c", "d", "e", "f", "g", "h"]);
}

#[test]
fn pop_order_never_goes_down_in_key() {
    let mut q = ProcessQueue::new();
    let mut x: u32 = 12345;
    for i in 0..200 {
        x = x.wrapping_mul(1103515245).wrapping_add(12345);
        q.push(task(&format!("t{}", i), 1, 1, 0), (x >> 16) % 17);
        if i % 3 == 2 {
            q.pop();
        }
    }
    let out = drain(&mut q);
    for pair in out.windows(2) {
        assert!(pair[0].1 < pair[1].1 || (pair[0].1 == pair[1].1 && pair[0].2 < pair[1].2));
    }
}

#[test]
fn peek_shows_what_pop_takes() {
    let mut q = ProcessQueue::new();
    q.push(task("late", 4, 9, 2), 9);
    q.push(task("early", 5, 8, 3), 2);
    assert_eq!(q.peek_key(), Some(2));
    let head = q.peek().unwrap();
    assert_eq!(head.task_id, "early");
    assert_eq!((head.computation, head.deadline, head.context_time), (5, 8, 3));
    assert_eq!(q.len(), 2);
    let e = q.pop().unwrap();
    assert_eq!((e.process.task_id.as_str(), e.key, e.seq), ("early", 2, 1));
    assert_eq!(q.peek_key(), Some(9));
    assert_eq!(q.len(), 1);
    assert_eq!(q.pushes(), 2);
}

#[test]
fn put_back_keeps_the_place_at_the_head() {
    let mut q = ProcessQueue::new();
    q.push(task("a", 3, 1, 0), 5);
    q.push(task("b", 3, 1, 0), 5);
    let mut e = q.pop().unwrap();
    assert_eq!(e.process.task_id, "a");
    e.process.computation = 2;
    q.put_back(Queued { process: e.process, key: e.key, seq: e.seq });
    assert_eq!(q.len(), 2);
    let again = q.pop().unwrap();
    assert_eq!((again.process.task_id.as_str(), again.process.computation, again.seq), ("a", 2, 0));
    assert_eq!(q.pop().unwrap().process.task_id, "b");
}

#[test]
fn snapshot_holds_every_entry_once() {
    let mut q = ProcessQueue::new();
    q.push(task("a", 1, 10, 0), 3);
    q.push(task("b", 2, 20, 1), 1);
    q.push(task("c", 3, 30, 2), 2);
    q.pop();
    let mut seen: Vec<(String, u16, u32, u64)> = q
        .snapshot()
        .into_iter()
        .map(|e| (e.process.task_id, e.process.computation, e.key, e.seq))
        .collect();
    seen.sort();
    assert_eq!(
        seen,
        vec![("a".to_string(), 1, 3, 0), ("c".to_string(), 3, 2, 2)]
    );
    assert_eq!(q.len(), 2);
}

#[test]
fn tasks_are_equal_when_their_deadlines_are() {
    assert!(task("a", 1, 10, 0) == task("b", 2, 10, 3));
    assert!(task("a", 1, 10, 0) != task("a", 1, 11, 0));
    let copy = task("a", 1, 10, 7).clone();
    assert_eq!((copy.task_id.as_str(), copy.computation, copy.deadline, copy.context_time), ("a", 1, 10, 7));
}
