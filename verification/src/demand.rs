//! The processor-demand test for earliest-deadline-first scheduling of
//! tasks whose deadlines may be shorter than their periods.

use vstd::arithmetic::div_mod::{lemma_div_is_ordered, lemma_div_multiples_vanish};
use vstd::prelude::*;

verus! {

/// A periodic task with a relative deadline of its own.
#[derive(Debug, PartialEq, Eq)]
pub struct DeadlineTask {
    pub name: String,
    pub computing_time: u64,
    pub deadline: u64,
    pub period: u64,
}

/// Every task has a positive period and a deadline no longer than it.
pub open spec fn constrained(tasks: Seq<DeadlineTask>) -> bool {
    forall|i: int| 0 <= i < tasks.len() ==> 0 < (#[trigger] tasks[i]).period && tasks[i].deadline <= tasks[i].period
}

/// How many jobs of the task have their deadline within the first `l` time
/// units.
pub open spec fn jobs_due(task: DeadlineTask, l: nat) -> nat {
    ((l + task.period - task.deadline) / (task.period as int)) as nat
}

/// The computation time that the first `k` tasks must be given within the
/// first `l` time units.
pub open spec fn demand_within(tasks: Seq<DeadlineTask>, k: nat, l: nat) -> nat
    decreases k,
{
    if k == 0 {
        0
    } else {
        demand_within(tasks, (k - 1) as nat, l) + jobs_due(tasks[k - 1], l) * (tasks[k - 1].computing_time as nat)
    }
}

/// The tasks demand no more than `l` time units within the first `l`.
pub open spec fn meets_demand(tasks: Seq<DeadlineTask>, l: nat) -> bool {
    demand_within(tasks, tasks.len(), l) <= l
}

/// The `n`-th absolute deadline of a task: its deadline, `n` periods on.
pub open spec fn check_point(task: DeadlineTask, n: nat) -> nat {
    (task.deadline + n * task.period) as nat
}

/// The demand is met at every absolute deadline of every task up to
/// `evaluate_at`.
pub open spec fn demand_bounded(tasks: Seq<DeadlineTask>, evaluate_at: nat) -> bool {
    forall|k: int, n: nat| 0 <= k < tasks.len() && check_point(tasks[k], n) <= evaluate_at ==> meets_demand(tasks, #[trigger] check_point(tasks[k], n))
}

/// The demand of more tasks is no less.
pub proof fn lemma_demand_within_grows(tasks: Seq<DeadlineTask>, j: nat, k: nat, l: nat)
    requires
        j <= k,
    ensures
        demand_within(tasks, j, l) <= demand_within(tasks, k, l),
    decreases k,
{
    if j < k {
        lemma_demand_within_grows(tasks, j, (k - 1) as nat, l);
    }
}

/// A task with a positive period and a deadline within it has at most
/// `l + 1` jobs due within the first `l` time units.
pub proof fn lemma_jobs_due_bound(task: DeadlineTask, l: nat)
    requires
        0 < task.period,
        task.deadline <= task.period,
    ensures
        jobs_due(task, l) <= l + 1,
{
    let t = task.period as int;
    let x = l + task.period - task.deadline;
    assert(x <= (l + 1) * t) by (nonlinear_arith)
        requires
            x <= l + t,
            t >= 1,
            l >= 0,
    ;
    lemma_div_is_ordered(x, (l + 1) * t, t);
    lemma_div_multiples_vanish((l + 1) as int, t);
}

/// Whether the tasks demand no more than `l` time units within the first
/// `l`.
pub fn within_demand(tasks: &Vec<DeadlineTask>, l: u64) -> (ok: bool)
    requires
        constrained(tasks@),
    ensures
        ok == meets_demand(tasks@, l as nat),
{
    let mut total: u128 = 0;
    let mut i: usize = 0;
    while i < tasks.len()
        invariant
            0 <= i <= tasks.len(),
            constrained(tasks@),
            total == demand_within(tasks@, i as nat, l as nat),
            total <= l,
        decreases tasks.len() - i,
    {
        let t = &tasks[i];
        let jobs: u128 = (l as u128 + t.period as u128 - t.deadline as u128) / (t.period as u128);
        proof {
            lemma_jobs_due_bound(*t, l as nat);
            assert(jobs * t.computing_time <= 0x1_0000_0000_0000_0000 * 0xffff_ffff_ffff_ffff) by (nonlinear_arith)
                requires
                    0 <= jobs <= 0x1_0000_0000_0000_0000,
                    0 <= t.computing_time <= 0xffff_ffff_ffff_ffff,
            ;
        }
        total = total + jobs * (t.computing_time as u128);
        if total > l as u128 {
            proof {
                lemma_demand_within_grows(tasks@, (i + 1) as nat, tasks@.len(), l as nat);
            }
            return false;
        }
        i += 1;
    }
    true
}

/// The processor-demand test: whether, at every absolute deadline of every
/// task up to `evaluate_at`, the jobs due by then ask for no more time than
/// has passed.
pub fn response_time_analysis(tasks: &Vec<DeadlineTask>, evaluate_at: u64) -> (ok: bool)
    requires
        constrained(tasks@),
    ensures
        ok == demand_bounded(tasks@, evaluate_at as nat),
{
    let mut k: usize = 0;
    while k < tasks.len()
        invariant
            0 <= k <= tasks.len(),
            constrained(tasks@),
            forall|j: int, n: nat| 0 <= j < k && check_point(tasks[j], n) <= evaluate_at ==> meets_demand(tasks@, #[trigger] check_point(tasks[j], n)),
        decreases tasks.len() - k,
    {
        let task = &tasks[k];
        let mut more = task.deadline <= evaluate_at;
        let mut l: u64 = task.deadline;
        let ghost mut n: nat = 0;
        proof {
            assert(0 * task.period == 0) by (nonlinear_arith);
            if !more {
                assert forall|m: nat| m >= n implies check_point(*task, m) > evaluate_at by {
                    assert(m * task.period >= 0) by (nonlinear_arith)
                        requires
                            m >= 0,
                            task.period > 0,
                    ;
                }
            }
        }
        while more
            invariant
                0 <= k < tasks.len(),
                *task == tasks[k as int],
                task.period > 0,
                constrained(tasks@),
                more ==> l == check_point(*task, n) && l <= evaluate_at,
                !more ==> forall|m: nat| m >= n ==> check_point(*task, m) > evaluate_at,
                forall|m: nat| m < n ==> meets_demand(tasks@, #[trigger] check_point(*task, m)),
            decreases evaluate_at - l + if more { 1nat } else { 0nat },
        {
            if !within_demand(tasks, l) {
                return false;
            }
            if evaluate_at - l < task.period {
                more = false;
                proof {
                    assert forall|m: nat| m >= n + 1 implies check_point(*task, m) > evaluate_at by {
                        assert(m * task.period >= n * task.period + task.period) by (nonlinear_arith)
                            requires
                                m >= n + 1,
                                task.period > 0,
                        ;
                    }
                }
            } else {
                proof {
                    assert((n + 1) * task.period == n * task.period + task.period) by (nonlinear_arith);
                }
                l = l + task.period;
            }
            proof {
                n = n + 1;
            }
        }
        proof {
            assert forall|j: int, m: nat| 0 <= j < k + 1 && check_point(tasks[j], m) <= evaluate_at implies meets_demand(tasks@, #[trigger] check_point(tasks[j], m)) by {
                if j == k {
                    assert(m < n);
                }
            }
        }
        k += 1;
    }
    true
}

} // verus!
