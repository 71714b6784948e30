use edf_scheduler::process::Process;
use edf_scheduler::queue::ProcessQueue;
use edf_scheduler::ratio::Ratio;
use edf_scheduler::utilization::utilization;

fn task(name: &str, computation: u16, deadline: u16, context_time: u8) -> Process {
    Process { task_id: name.to_string(), computation, deadline, context_time }
}

fn r(num: u128, den: i64) -> Ratio {
    Ratio { num, den }
}

#[test]
fn single_candidate_on_an_empty_queue() {
    let q = ProcessQueue::new();
    assert_eq!(utilization(&q, &task("T1", 3, 5, 1), 0, &None), r(5, 5));
    assert_eq!(utilization(&q, &task("T1", 3, 5, 1), 2, &None), r(5, 3));
    assert_eq!(utilization(&q, &task("T1", 7, 100, 4), 10, &None), r(15, 90));
    assert_eq!(utilization(&q, &task("T1", 65535, 65535, 255), 0, &None), r(66045, 65535));
}

#[test]
fn demand_is_summed_and_the_tightest_window_taken() {
    let mut q = ProcessQueue::new();
    q.push(task("a", 4, 40, 1), 40);
    q.push(task("b", 2, 12, 0), 12);
    q.push(task("c", 1, 90, 3), 90);
    // loads: 6 + 2 + 7, and 5 for the candidate
    assert_eq!(utilization(&q, &task("n", 3, 30, 1), 2, &None), r(20, 10));
    assert_eq!(utilization(&q, &task("n", 3, 8, 1), 2, &None), r(20, 6));
    assert_eq!(q.len(), 3);
}

#[test]
fn a_window_of_zero_has_no_bound() {
    let mut q = ProcessQueue::new();
    q.push(task("a", 4, 40, 1), 40);
    let u = utilization(&q, &task("n", 3, 7, 1), 7, &None);
    assert_eq!(u, r(11, 0));
    assert!(!u.at_most_one());
    q.push(task("b", 4, 9, 1), 9);
    assert_eq!(utilization(&q, &task("n", 3, 20, 1), 9, &None), r(17, 0));
}

#[test]
fn a_positive_window_counts_before_a_negative_one() {
    let mut q = ProcessQueue::new();
    q.push(task("a", 4, 5, 1), 5);
    q.push(task("b", 4, 50, 1), 50);
    // windows at 10: -5 and 40, candidate -8
    assert_eq!(utilization(&q, &task("n", 3, 2, 1), 10, &None), r(17, 40));
}

#[test]
fn among_negative_windows_the_longest_counts() {
    let mut q = ProcessQueue::new();
    q.push(task("a", 4, 5, 1), 5);
    q.push(task("b", 4, 1, 1), 1);
    let u = utilization(&q, &task("n", 3, 8, 1), 10, &None);
    assert_eq!(u, r(17, -9));
    assert!(u.at_most_one());
}

#[test]
fn without_demand_the_window_of_the_candidate_counts() {
    let mut q = ProcessQueue::new();
    q.push(task("a", 0, 3, 0), 3);
    assert_eq!(utilization(&q, &task("n", 0, 50, 0), 10, &None), r(0, 40));
    assert_eq!(utilization(&q, &task("n", 0, 10, 0), 10, &None), r(0, 0));
    assert!(!r(0, 0).at_most_one());
}

#[test]
fn first_speed_above_the_utilization_is_chosen() {
    let q = ProcessQueue::new();
    let t = task("T1", 1, 10, 1);
    // utilization 3/10
    let table = Some(vec![r(25, 100), r(1, 1), r(5, 10)]);
    assert_eq!(utilization(&q, &t, 0, &table), r(1, 1));
    let table = Some(vec![r(25, 100), r(5, 10), r(1, 1)]);
    assert_eq!(utilization(&q, &t, 0, &table), r(5, 10));
    let table = Some(vec![r(3, 10), r(30, 100)]);
    assert_eq!(utilization(&q, &t, 0, &table), r(3, 10));
    assert_eq!(utilization(&q, &t, 0, &Some(vec![])), r(3, 10));
    let table = Some(vec![r(2, 1)]);
    assert!(!utilization(&q, &t, 0, &table).at_most_one());
}

#[test]
fn no_speed_exceeds_a_utilization_without_bound() {
    let q = ProcessQueue::new();
    let table = Some(vec![r(1000, 1)]);
    assert_eq!(utilization(&q, &task("T1", 1, 10, 1), 10, &table), r(3, 0));
}

#[test]
fn ratios_compare_by_value() {
    assert!(r(1, 2).exceeds(&r(1, 3)));
    assert!(!r(1, 3).exceeds(&r(1, 2)));
    assert!(!r(2, 4).exceeds(&r(1, 2)));
    assert!(!r(1, 2).exceeds(&r(2, 4)));
    assert!(r(7, 2).exceeds(&r(10, 3)));
    assert!(!r(10, 3).exceeds(&r(7, 2)));
    assert!(r(0, 1).exceeds(&r(1, -1)));
    assert!(r(1, 5).exceeds(&r(0, -3)));
    assert!(!r(0, 5).exceeds(&r(0, -3)));
    assert!(!r(1, -2).exceeds(&r(1, 3)));
    assert!(r(1, -3).exceeds(&r(1, -2)));
    assert!(!r(1, -2).exceeds(&r(1, -3)));
    assert!(r(1, 0).exceeds(&r(1_000_000, 1)));
    assert!(!r(0, 0).exceeds(&r(1, 1)));
    assert!(!r(5, 1).exceeds(&r(1, 0)));
    assert!(!r(5, 1).exceeds(&r(0, 0)));
    let big = u128::MAX;
    assert!(r(big, i64::MAX).exceeds(&r(big - 1, i64::MAX)));
    assert!(r(big, i64::MAX - 1).exceeds(&r(big, i64::MAX)));
    assert!(!r(big, i64::MAX).exceeds(&r(big, i64::MAX)));
    assert!(r(big - 1, i64::MIN).exceeds(&r(big, i64::MIN)));
}

#[test]
fn at_most_one() {
    assert!(r(5, 5).at_most_one());
    assert!(r(0, 1).at_most_one());
    assert!(!r(6, 5).at_most_one());
    assert!(r(6, -5).at_most_one());
    assert!(!r(1, 0).at_most_one());
    assert_eq!(Ratio::whole(3), r(3, 1));
}
