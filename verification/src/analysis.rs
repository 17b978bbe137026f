//! The whole run: the utilization test, the hyperperiod, the frame-size
//! search, and one packing attempt for each valid frame size.

use crate::frames::{frame_times, is_frame_size};
use crate::order::{ascending, sort_by_period, stable_order};
use crate::packer::{is_outcome, lemma_rearranged_periods_positive, pack, PlacementFailure};
use crate::task::{
    hyperperiod as hyperperiod_of, hyperperiod_fits, is_hyperperiod, multiple_of_periods,
    periods_positive, Task,
};
use vstd::prelude::*;

verus! {

/// Why no frame-based schedule exists for a task set at all.
#[derive(Debug, PartialEq, Eq)]
pub enum Infeasibility {
    /// The total utilization exceeds one.
    InfeasibleUtilization,
    /// The frame-size search found no candidate.
    NoValidFrameSize,
}

/// One packing attempt: the frame size and what packing with it gave.
#[derive(Debug, PartialEq, Eq)]
pub struct Attempt {
    pub frame_time: u64,
    pub outcome: Result<Vec<Vec<(Task, u64)>>, PlacementFailure>,
}

/// The computation time that the first `k` tasks ask for within `h`: for
/// each task its computation time, once for every whole period within `h`.
pub open spec fn demand(tasks: Seq<Task>, k: nat, h: nat) -> nat
    decreases k,
{
    if k == 0 {
        0
    } else {
        demand(tasks, (k - 1) as nat, h) + (tasks[k - 1].computing_time as nat) * (h / (tasks[k - 1].period as nat))
    }
}

/// The tasks ask for more computation time within `h` than `h` itself. With
/// `h` a common multiple of the periods this says that the utilization, the
/// sum of the ratios of computation time to period, exceeds one.
pub open spec fn overloaded(tasks: Seq<Task>, h: nat) -> bool {
    demand(tasks, tasks.len(), h) > h
}

/// Some common multiple of the periods is small enough to count the frames
/// of a timetable.
pub open spec fn table_fits(tasks: Seq<Task>) -> bool {
    exists|m: nat| #[trigger] multiple_of_periods(tasks, tasks.len() as int, m) && m <= u64::MAX && m < usize::MAX
}

/// The demand of more tasks is no less.
pub proof fn lemma_demand_grows(tasks: Seq<Task>, j: nat, k: nat, h: nat)
    requires
        j <= k,
    ensures
        demand(tasks, j, h) <= demand(tasks, k, h),
    decreases k,
{
    if j < k {
        lemma_demand_grows(tasks, j, (k - 1) as nat, h);
    }
}

/// Whether the utilization of the task set exceeds one, decided exactly in
/// integers over a hyperperiod.
pub fn utilization_exceeds_one(tasks: &Vec<Task>, hyperperiod: u64) -> (over: bool)
    requires
        periods_positive(tasks@),
    ensures
        over == overloaded(tasks@, hyperperiod as nat),
{
    let mut total: u128 = 0;
    let mut i: usize = 0;
    while i < tasks.len()
        invariant
            0 <= i <= tasks.len(),
            periods_positive(tasks@),
            total == demand(tasks@, i as nat, hyperperiod as nat),
            total <= hyperperiod,
        decreases tasks.len() - i,
    {
        let jobs: u64 = hyperperiod / tasks[i].period;
        let cost: u64 = tasks[i].computing_time;
        proof {
            assert(cost * jobs <= 0xffff_ffff_ffff_ffff * 0xffff_ffff_ffff_ffff) by (nonlinear_arith)
                requires
                    0 <= cost <= 0xffff_ffff_ffff_ffff,
                    0 <= jobs <= 0xffff_ffff_ffff_ffff,
            ;
        }
        let work: u128 = (cost as u128) * (jobs as u128);
        total = total + work;
        if total > hyperperiod as u128 {
            proof {
                lemma_demand_grows(tasks@, (i + 1) as nat, tasks@.len(), hyperperiod as nat);
            }
            return true;
        }
        i += 1;
    }
    false
}

/// Runs the whole analysis on a non-empty task set. It fails where the
/// utilization exceeds one and, if not that, where no frame size is valid.
/// Otherwise it sorts the tasks by period and packs them once for each valid
/// frame size, smallest first; a job that finds no frame ends only the
/// attempt with that frame size.
#[verifier::loop_isolation(false)]
pub fn plan(tasks: &mut Vec<Task>) -> (r: Result<Vec<Attempt>, Infeasibility>)
    requires
        old(tasks).len() > 0,
        periods_positive(old(tasks)@),
        table_fits(old(tasks)@),
    ensures
        exists|h: nat| #[trigger] is_hyperperiod(old(tasks)@, h) && h <= u64::MAX && is_plan(old(tasks)@, final(tasks)@, h, r),
{
    let ghost given = tasks@;
    let ghost fit: nat = choose|m: nat| #[trigger] multiple_of_periods(given, given.len() as int, m) && m <= u64::MAX && m < usize::MAX;
    proof {
        assert(hyperperiod_fits(given));
    }
    let hyperperiod = hyperperiod_of(tasks);
    proof {
        assert(multiple_of_periods(given, given.len() as int, fit));
    }
    let ghost h = hyperperiod as nat;
    if utilization_exceeds_one(tasks, hyperperiod) {
        return Err(Infeasibility::InfeasibleUtilization);
    }
    let sizes = frame_times(tasks, hyperperiod);
    if sizes.len() == 0 {
        proof {
            assert forall|ts: u64| !is_frame_size(given, h, ts as nat) by {
                if is_frame_size(given, h, ts as nat) {
                    assert(sizes@.contains(ts));
                }
            }
        }
        return Err(Infeasibility::NoValidFrameSize);
    }
    sort_by_period(tasks);
    proof {
        lemma_rearranged_periods_positive(given, tasks@);
    }
    let mut attempts: Vec<Attempt> = Vec::new();
    let mut i: usize = 0;
    while i < sizes.len()
        invariant
            0 <= i <= sizes.len(),
            attempts.len() == i,
            periods_positive(tasks@),
            h == hyperperiod,
            h < usize::MAX,
            forall|j: int| 0 <= j < sizes.len() ==> (#[trigger] sizes[j]) > 0,
            forall|j: int| 0 <= j < i ==> (#[trigger] attempts[j]).frame_time == sizes[j] && is_outcome(tasks@, sizes[j] as nat, h, attempts[j].outcome),
        decreases sizes.len() - i,
    {
        let frame_time = sizes[i];
        proof {
            assert(hyperperiod / frame_time <= hyperperiod) by (nonlinear_arith)
                requires
                    frame_time > 0,
                    hyperperiod >= 0,
            ;
        }
        let outcome = pack(tasks, frame_time, hyperperiod);
        attempts.push(Attempt { frame_time, outcome });
        i += 1;
    }
    proof {
        assert forall|ts: u64| is_frame_size(given, h, ts as nat) implies exists|i: int|
            0 <= i < attempts.len() && (#[trigger] attempts[i]).frame_time == ts by {
            assert(sizes@.contains(ts));
            let at = choose|at: int| 0 <= at < sizes.len() && sizes[at] == ts;
            assert(attempts[at].frame_time == ts);
        }
        assert(is_plan(given, tasks@, h, Ok::<Vec<Attempt>, Infeasibility>(attempts)));
    }
    Ok(attempts)
}

/// `r` is the result of the analysis of the tasks `given`, whose
/// hyperperiod is `h`, and `sorted` is the order in which they were packed.
pub open spec fn is_plan(given: Seq<Task>, sorted: Seq<Task>, h: nat, r: Result<Vec<Attempt>, Infeasibility>) -> bool {
    match r {
        Err(Infeasibility::InfeasibleUtilization) => overloaded(given, h) && sorted == given,
        Err(Infeasibility::NoValidFrameSize) => !overloaded(given, h) && sorted == given && forall|ts: u64|
            !is_frame_size(given, h, ts as nat),
        Ok(attempts) => {
            &&& !overloaded(given, h)
            &&& sorted == stable_order(given)
            &&& ascending(sorted)
            &&& attempts.len() > 0
            &&& forall|i: int, j: int| 0 <= i < j < attempts.len() ==> attempts[i].frame_time < attempts[j].frame_time
            &&& forall|i: int| 0 <= i < attempts.len() ==> is_frame_size(given, h, (#[trigger] attempts[i]).frame_time as nat)
            &&& forall|ts: u64| is_frame_size(given, h, ts as nat) ==> exists|i: int| 0 <= i < attempts.len() && (#[trigger] attempts[i]).frame_time == ts
            &&& forall|i: int| 0 <= i < attempts.len() ==> is_outcome(sorted, (#[trigger] attempts[i]).frame_time as nat, h, attempts[i].outcome)
        },
    }
}

} // verus!
