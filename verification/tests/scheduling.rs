use cyclic_scheduler::frames::{
    frame_times, max_computing_time, min_period, passes_filters, satisfies_windows,
    window_constraint,
};
use cyclic_scheduler::analysis::{plan, utilization_exceeds_one, Infeasibility};
use cyclic_scheduler::numbers::{checked_lcm, gcd, lcm};
use cyclic_scheduler::order::sort_by_period;
use cyclic_scheduler::packer::{pack, schedule, start_times, PlacementFailure};
use cyclic_scheduler::task::{checked_hyperperiod, hyperperiod, Task};

fn task(name: &str, computing_time: u64, period: u64) -> Task {
    Task { name: name.to_string(), computing_time, period }
}

fn three_tasks() -> Vec<Task> {
    vec![task("A", 1, 4), task("B", 1, 5), task("C", 2, 20)]
}

fn names(frame: &Vec<(Task, u64)>) -> Vec<(String, u64)> {
    frame.iter().map(|(t, a)| (t.name.clone(), *a)).collect()
}

fn job(name: &str, activation: u64) -> (String, u64) {
    (name.to_string(), activation)
}

#[test]
fn gcd_of_known_pairs() {
    assert_eq!(gcd(56, 42), 14);
    assert_eq!(gcd(10, 3), 1);
    assert_eq!(gcd(0, 3), 3);
    assert_eq!(gcd(3, 0), 3);
    assert_eq!(gcd(0, 0), 0);
    assert_eq!(gcd(4, 20), 4);
}

#[test]
fn lcm_of_known_pairs() {
    assert_eq!(lcm(4, 6), 12);
    assert_eq!(lcm(4, 5), 20);
    assert_eq!(lcm(7, 7), 7);
    assert_eq!(lcm(0, 5), 0);
    assert_eq!(lcm(1, 9), 9);
}

#[test]
fn hyperperiod_of_three_tasks_is_twenty() {
    assert_eq!(hyperperiod(&three_tasks()), 20);
}

#[test]
fn hyperperiod_of_single_task_is_its_period() {
    assert_eq!(hyperperiod(&vec![task("X", 5, 3)]), 3);
}

#[test]
fn hyperperiod_of_no_task_is_one() {
    assert_eq!(hyperperiod(&Vec::new()), 1);
}

#[test]
fn hyperperiod_is_least_common_multiple() {
    let tasks = vec![task("a", 1, 6), task("b", 1, 10), task("c", 1, 15)];
    let h = hyperperiod(&tasks);
    assert_eq!(h, 30);
    for t in &tasks {
        assert_eq!(h % t.period, 0);
    }
    for m in 1..h {
        assert!(tasks.iter().any(|t| m % t.period != 0));
    }
}

#[test]
fn search_bounds() {
    let tasks = three_tasks();
    assert_eq!(max_computing_time(&tasks), 2);
    assert_eq!(min_period(&tasks), 4);
}

#[test]
fn window_constraint_values() {
    assert!(window_constraint(2, 4));
    assert!(window_constraint(2, 5));
    assert!(window_constraint(4, 4));
    assert!(!window_constraint(4, 5));
    assert!(!window_constraint(3, 4));
    assert!(!window_constraint(3, 0));
    assert!(window_constraint(u64::MAX, u64::MAX));
    assert!(!window_constraint(u64::MAX, u64::MAX - 1));
}

#[test]
fn windows_against_every_task() {
    let tasks = three_tasks();
    assert!(satisfies_windows(&tasks, 2));
    assert!(!satisfies_windows(&tasks, 4));
    assert!(passes_filters(&tasks, 20, 2));
    assert!(!passes_filters(&tasks, 20, 3));
    assert!(!passes_filters(&tasks, 20, 0));
    assert!(!passes_filters(&tasks, 0, 2));
}

#[test]
fn frame_times_of_three_tasks() {
    assert_eq!(frame_times(&three_tasks(), 20), vec![2]);
}

#[test]
fn frame_times_are_ordered_divisors() {
    let tasks = vec![task("a", 1, 12), task("b", 2, 24)];
    let sizes = frame_times(&tasks, 24);
    assert_eq!(sizes, vec![2, 3, 4, 6, 8, 12]);
    for ts in sizes {
        assert_eq!(24 % ts, 0);
        for t in &tasks {
            assert!(2 * ts - gcd(ts, t.period) <= t.period);
        }
    }
}

#[test]
fn frame_times_empty_when_computation_exceeds_period() {
    let tasks = vec![task("A", 5, 10), task("B", 1, 4)];
    assert_eq!(hyperperiod(&tasks), 20);
    assert_eq!(frame_times(&tasks, 20), Vec::<u64>::new());
}

#[test]
fn frame_times_at_the_top_of_the_range() {
    let tasks = vec![task("A", u64::MAX, u64::MAX)];
    assert_eq!(frame_times(&tasks, u64::MAX), vec![u64::MAX]);
}

#[test]
fn sort_is_ascending_and_stable() {
    let mut tasks = vec![task("c", 1, 20), task("a", 1, 4), task("d", 2, 4), task("b", 1, 5), task("e", 3, 4)];
    sort_by_period(&mut tasks);
    let order: Vec<&str> = tasks.iter().map(|t| t.name.as_str()).collect();
    assert_eq!(order, vec!["a", "d", "e", "b", "c"]);
}

#[test]
fn schedule_of_three_tasks() {
    let mut tasks = vec![task("C", 2, 20), task("B", 1, 5), task("A", 1, 4)];
    let table = schedule(&mut tasks, 2, 20).unwrap();
    assert_eq!(tasks, three_tasks());
    assert_eq!(table.len(), 11);
    assert_eq!(names(&table[0]), vec![job("A", 0), job("B", 0)]);
    assert_eq!(names(&table[1]), vec![job("C", 0)]);
    assert_eq!(names(&table[2]), vec![job("A", 4)]);
    assert_eq!(names(&table[3]), vec![job("B", 5)]);
    assert_eq!(names(&table[4]), vec![job("A", 8)]);
    assert_eq!(names(&table[5]), vec![job("B", 10)]);
    assert_eq!(names(&table[6]), vec![job("A", 12)]);
    assert_eq!(names(&table[7]), Vec::new());
    assert_eq!(names(&table[8]), vec![job("A", 16), job("B", 15)]);
    assert_eq!(names(&table[9]), Vec::new());
    assert_eq!(names(&table[10]), Vec::new());
    assert_eq!(table[0][0].0, task("A", 1, 4));
}

#[test]
fn packed_timetable_keeps_its_promises() {
    let mut tasks = three_tasks();
    let ts: u64 = 2;
    let h: u64 = 20;
    let table = schedule(&mut tasks, ts, h).unwrap();
    for t in &tasks {
        let count = table.iter().flatten().filter(|(u, _)| u == t).count() as u64;
        assert_eq!(count, h / t.period);
    }
    for (f, frame) in table.iter().enumerate() {
        let f = f as u64;
        let total: u64 = frame.iter().map(|(t, _)| t.computing_time).sum();
        assert!(total <= ts);
        let mut start = f * ts;
        for (t, activation) in frame {
            let earliest = (activation + ts - 1) / ts;
            assert!(earliest <= f && f <= h / ts);
            assert!(f - earliest <= t.period / ts);
            assert!(start + t.computing_time <= (f + 1) * ts);
            start += t.computing_time;
        }
    }
}

#[test]
fn packing_twice_gives_the_same_timetable() {
    let mut first = vec![task("C", 2, 20), task("B", 1, 5), task("A", 1, 4)];
    let mut second = vec![task("C", 2, 20), task("B", 1, 5), task("A", 1, 4)];
    let one = schedule(&mut first, 2, 20);
    let two = schedule(&mut second, 2, 20);
    assert_eq!(one, two);
    let again = schedule(&mut first, 2, 20);
    assert_eq!(one, again);
    assert_eq!(pack(&first, 2, 20), one);
}

#[test]
fn job_without_a_frame_is_reported() {
    let mut tasks = vec![task("B", 3, 12), task("A", 2, 4), task("C", 3, 12)];
    assert_eq!(hyperperiod(&tasks), 12);
    assert_eq!(frame_times(&tasks, 12), vec![4]);
    let failure = schedule(&mut tasks, 4, 12).unwrap_err();
    assert_eq!(failure, PlacementFailure { task: "C".to_string(), job_index: 0 });
}

#[test]
fn later_job_without_a_frame_is_reported() {
    let tasks = vec![
        task("Q", 1, 8),
        task("R1", 2, 8),
        task("R2", 2, 8),
        task("R3", 2, 8),
        task("R4", 2, 8),
        task("E", 1, 4),
    ];
    let failure = pack(&tasks, 2, 8).unwrap_err();
    assert_eq!(failure, PlacementFailure { task: "E".to_string(), job_index: 1 });
}

#[test]
fn one_frame_size_fails_and_another_packs() {
    let mut tasks = vec![task("X", 2, 4), task("Y", 2, 4), task("Z", 2, 4), task("W", 2, 4)];
    assert_eq!(frame_times(&tasks, 4), vec![2, 4]);
    let failure = schedule(&mut tasks, 2, 4).unwrap_err();
    assert_eq!(failure, PlacementFailure { task: "W".to_string(), job_index: 0 });
    let table = schedule(&mut tasks, 4, 4).unwrap();
    assert_eq!(names(&table[0]), vec![job("X", 0), job("Y", 0)]);
    assert_eq!(names(&table[1]), vec![job("Z", 0), job("W", 0)]);
}

#[test]
fn job_may_land_in_the_extra_frame() {
    let mut tasks = vec![task("A", 3, 4), task("B", 2, 8)];
    assert_eq!(frame_times(&tasks, 8), vec![4]);
    let table = schedule(&mut tasks, 4, 8).unwrap();
    assert_eq!(table.len(), 3);
    assert_eq!(names(&table[0]), vec![job("A", 0)]);
    assert_eq!(names(&table[1]), vec![job("A", 4)]);
    assert_eq!(names(&table[2]), vec![job("B", 0)]);
}

#[test]
fn packing_no_task_gives_empty_frames() {
    let table = pack(&Vec::new(), 5, 20).unwrap();
    assert_eq!(table.len(), 5);
    assert!(table.iter().all(|frame| frame.is_empty()));
}

#[test]
fn checked_lcm_detects_overflow() {
    assert_eq!(checked_lcm(4, 6), Some(12));
    assert_eq!(checked_lcm(0, 6), Some(0));
    assert_eq!(checked_lcm(u64::MAX, u64::MAX), Some(u64::MAX));
    assert_eq!(checked_lcm(u64::MAX, 2), None);
    assert_eq!(checked_lcm(1 << 63, 3), None);
    assert_eq!(checked_lcm(1 << 63, 1 << 62), Some(1 << 63));
}

#[test]
fn checked_hyperperiod_detects_overflow() {
    assert_eq!(checked_hyperperiod(&three_tasks()), Some(20));
    assert_eq!(checked_hyperperiod(&Vec::new()), Some(1));
    let tasks = vec![task("a", 1, 1 << 63), task("b", 1, 3)];
    assert_eq!(checked_hyperperiod(&tasks), None);
}

#[test]
fn utilization_against_one() {
    assert!(!utilization_exceeds_one(&three_tasks(), 20));
    assert!(utilization_exceeds_one(&vec![task("X", 5, 3)], 3));
    assert!(!utilization_exceeds_one(&vec![task("A", 2, 4), task("B", 3, 12), task("C", 3, 12)], 12));
    assert!(utilization_exceeds_one(&vec![task("A", 2, 4), task("B", 3, 12), task("C", 4, 12)], 12));
    assert!(!utilization_exceeds_one(&vec![task("a", 1, 3), task("b", 1, 3), task("c", 1, 3)], 3));
    assert!(utilization_exceeds_one(&vec![task("a", u64::MAX, 1), task("b", u64::MAX, 1)], u64::MAX));
}

#[test]
fn plan_of_three_tasks() {
    let mut tasks = vec![task("C", 2, 20), task("A", 1, 4), task("B", 1, 5)];
    let attempts = plan(&mut tasks).unwrap();
    assert_eq!(tasks, three_tasks());
    assert_eq!(attempts.len(), 1);
    assert_eq!(attempts[0].frame_time, 2);
    let table = attempts[0].outcome.as_ref().unwrap();
    assert_eq!(table.len(), 11);
    assert_eq!(names(&table[0]), vec![job("A", 0), job("B", 0)]);
    assert_eq!(names(&table[8]), vec![job("A", 16), job("B", 15)]);
}

#[test]
fn plan_rejects_utilization_above_one() {
    let mut tasks = vec![task("X", 5, 3)];
    assert_eq!(plan(&mut tasks), Err(Infeasibility::InfeasibleUtilization));
    assert_eq!(tasks, vec![task("X", 5, 3)]);
}

#[test]
fn plan_rejects_empty_search_range() {
    let mut tasks = vec![task("A", 5, 10), task("B", 1, 4)];
    assert_eq!(plan(&mut tasks), Err(Infeasibility::NoValidFrameSize));
}

#[test]
fn plan_reports_the_job_that_found_no_frame() {
    let mut tasks = vec![task("A", 2, 4), task("B", 3, 12), task("C", 3, 12)];
    let attempts = plan(&mut tasks).unwrap();
    assert_eq!(attempts.len(), 1);
    assert_eq!(attempts[0].frame_time, 4);
    assert_eq!(
        attempts[0].outcome,
        Err(PlacementFailure { task: "C".to_string(), job_index: 0 })
    );
}

#[test]
fn plan_tries_every_frame_size() {
    let mut tasks = vec![task("A", 3, 6), task("B", 3, 6)];
    let attempts = plan(&mut tasks).unwrap();
    let sizes: Vec<u64> = attempts.iter().map(|a| a.frame_time).collect();
    assert_eq!(sizes, vec![3, 6]);
    let first = attempts[0].outcome.as_ref().unwrap();
    assert_eq!(names(&first[0]), vec![job("A", 0)]);
    assert_eq!(names(&first[1]), vec![job("B", 0)]);
    let second = attempts[1].outcome.as_ref().unwrap();
    assert_eq!(names(&second[0]), vec![job("A", 0), job("B", 0)]);
    assert_eq!(names(&second[1]), Vec::new());
}

#[test]
fn start_times_run_on_within_a_frame() {
    let mut tasks = three_tasks();
    let table = schedule(&mut tasks, 2, 20).unwrap();
    let starts = start_times(&table, 2);
    assert_eq!(starts.len(), 11);
    assert_eq!(starts[0], vec![0, 1]);
    assert_eq!(starts[1], vec![2]);
    assert_eq!(starts[2], vec![4]);
    assert_eq!(starts[3], vec![6]);
    assert_eq!(starts[7], Vec::<u64>::new());
    assert_eq!(starts[8], vec![16, 17]);
    for (f, frame) in table.iter().enumerate() {
        for (j, (t, activation)) in frame.iter().enumerate() {
            assert!(starts[f][j] + t.computing_time <= (f as u64 + 1) * 2);
            assert!(starts[f][j] + t.computing_time <= activation + t.period);
        }
    }
}

#[test]
fn start_in_the_extra_frame_is_the_hyperperiod() {
    let mut tasks = vec![task("A", 3, 4), task("B", 2, 8)];
    let table = schedule(&mut tasks, 4, 8).unwrap();
    let starts = start_times(&table, 4);
    assert_eq!(starts, vec![vec![0], vec![4], vec![8]]);
}

#[test]
fn start_times_of_a_full_frame() {
    let mut tasks = vec![task("X", 2, 4), task("Y", 2, 4), task("Z", 2, 4), task("W", 2, 4)];
    let table = schedule(&mut tasks, 4, 4).unwrap();
    assert_eq!(start_times(&table, 4), vec![vec![0, 2], vec![4, 6]]);
}
