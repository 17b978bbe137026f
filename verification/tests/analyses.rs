use cyclic_scheduler::demand::{response_time_analysis as demand_analysis, within_demand, DeadlineTask};
use cyclic_scheduler::response::{next_response, response_time_analysis, settles_within_deadline};

fn deadline_task(name: &str, computing_time: u64, deadline: u64, period: u64) -> DeadlineTask {
    DeadlineTask { name: name.to_string(), computing_time, deadline, period }
}

#[test]
fn demand_is_met_at_every_deadline() {
    let tasks = vec![deadline_task("a", 1, 2, 4), deadline_task("b", 2, 5, 6)];
    for l in [2u64, 5, 6, 10, 11] {
        assert!(within_demand(&tasks, l));
    }
    assert!(demand_analysis(&tasks, 12));
    assert!(demand_analysis(&tasks, 0));
}

#[test]
fn demand_above_the_time_passed_is_found() {
    let tasks = vec![deadline_task("a", 2, 2, 4), deadline_task("b", 2, 3, 6)];
    assert!(within_demand(&tasks, 2));
    assert!(!within_demand(&tasks, 3));
    assert!(demand_analysis(&tasks, 2));
    assert!(!demand_analysis(&tasks, 3));
    assert!(!demand_analysis(&tasks, 12));
}

#[test]
fn demand_at_a_later_deadline_is_found() {
    let tasks = vec![deadline_task("a", 3, 4, 4), deadline_task("b", 3, 10, 10)];
    assert!(within_demand(&tasks, 4));
    assert!(within_demand(&tasks, 8));
    assert!(within_demand(&tasks, 10));
    assert!(!within_demand(&tasks, 20));
    assert!(demand_analysis(&tasks, 19));
    assert!(!demand_analysis(&tasks, 20));
}

#[test]
fn demand_at_the_largest_time() {
    let tasks = vec![deadline_task("a", 1, u64::MAX, u64::MAX)];
    assert!(demand_analysis(&tasks, u64::MAX));
    let tasks = vec![deadline_task("a", u64::MAX, 1, 1), deadline_task("b", u64::MAX, 1, 1)];
    assert!(!within_demand(&tasks, u64::MAX));
}

#[test]
fn response_times_settle() {
    let tasks = vec![
        deadline_task("a", 1, 4, 4),
        deadline_task("b", 2, 6, 6),
        deadline_task("c", 3, 12, 12),
    ];
    assert_eq!(next_response(&tasks, 0, 0), Some(1));
    assert_eq!(next_response(&tasks, 1, 2), Some(3));
    assert_eq!(next_response(&tasks, 2, 0), Some(3));
    assert_eq!(next_response(&tasks, 2, 3), Some(6));
    assert_eq!(next_response(&tasks, 2, 6), Some(7));
    assert_eq!(next_response(&tasks, 2, 7), Some(9));
    assert_eq!(next_response(&tasks, 2, 9), Some(10));
    assert_eq!(next_response(&tasks, 2, 10), Some(10));
    assert!(settles_within_deadline(&tasks, 2));
    assert!(response_time_analysis(&tasks));
}

#[test]
fn response_time_past_the_deadline_is_found() {
    let tasks = vec![deadline_task("a", 2, 4, 4), deadline_task("b", 3, 6, 6)];
    assert!(settles_within_deadline(&tasks, 0));
    assert!(!settles_within_deadline(&tasks, 1));
    assert!(!response_time_analysis(&tasks));
    let tight = vec![deadline_task("a", 1, 4, 4), deadline_task("c", 3, 9, 12), deadline_task("b", 2, 6, 6)];
    assert!(settles_within_deadline(&tight, 1));
    assert!(!settles_within_deadline(&tight, 2));
    assert!(!response_time_analysis(&tight));
    let loose = vec![deadline_task("a", 1, 4, 4), deadline_task("c", 3, 9, 12)];
    assert!(response_time_analysis(&loose));
    let tighter = vec![deadline_task("a", 1, 4, 4), deadline_task("b", 2, 6, 6), deadline_task("c", 3, 9, 12)];
    assert!(!response_time_analysis(&tighter));
}

#[test]
fn response_beyond_the_machine_word() {
    let tasks = vec![deadline_task("a", u64::MAX, 1, 1), deadline_task("b", 1, 5, 5)];
    assert_eq!(next_response(&tasks, 1, 2), None);
    assert_eq!(next_response(&tasks, 1, 1), None);
    assert_eq!(next_response(&tasks, 1, 0), Some(1));
    assert!(!settles_within_deadline(&tasks, 1));
    assert!(response_time_analysis(&Vec::new()));
}
