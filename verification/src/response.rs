//! Response-time analysis for fixed-priority scheduling: the tasks come in
//! order of priority, highest first, and each must settle on a response time
//! within its deadline.

use crate::demand::DeadlineTask;
use vstd::arithmetic::div_mod::lemma_div_is_ordered;
use vstd::arithmetic::mul::lemma_mul_inequality;
use vstd::prelude::*;

verus! {

/// Every task has a positive period.
pub open spec fn periodic(tasks: Seq<DeadlineTask>) -> bool {
    forall|i: int| 0 <= i < tasks.len() ==> 0 < (#[trigger] tasks[i]).period
}

/// How many periods of length `period` begin within `x` time units: `x`
/// divided by the period, rounded up.
pub open spec fn activations(x: nat, period: nat) -> nat {
    ((x + period - 1) / (period as int)) as nat
}

/// The computation time that the first `k` tasks take within `x` time
/// units.
pub open spec fn interference(tasks: Seq<DeadlineTask>, k: nat, x: nat) -> nat
    decreases k,
{
    if k == 0 {
        0
    } else {
        interference(tasks, (k - 1) as nat, x) + activations(x, tasks[k - 1].period as nat) * (tasks[k - 1].computing_time as nat)
    }
}

/// The time that task `i` needs when the tasks before it interfere for `x`
/// time units.
pub open spec fn response(tasks: Seq<DeadlineTask>, i: int, x: nat) -> nat {
    tasks[i].computing_time as nat + interference(tasks, i as nat, x)
}

/// Task `i` has a response time within its deadline: a time that its own
/// response reproduces.
pub open spec fn settles(tasks: Seq<DeadlineTask>, i: int) -> bool {
    exists|x: nat| x <= tasks[i].deadline && #[trigger] response(tasks, i, x) == x
}

/// More tasks interfere for no less.
pub proof fn lemma_interference_grows(tasks: Seq<DeadlineTask>, j: nat, k: nat, x: nat)
    requires
        j <= k,
    ensures
        interference(tasks, j, x) <= interference(tasks, k, x),
    decreases k,
{
    if j < k {
        lemma_interference_grows(tasks, j, (k - 1) as nat, x);
    }
}

/// Over a longer time the tasks interfere for no less.
pub proof fn lemma_interference_monotone(tasks: Seq<DeadlineTask>, k: nat, x: nat, y: nat)
    requires
        k <= tasks.len(),
        periodic(tasks),
        x <= y,
    ensures
        interference(tasks, k, x) <= interference(tasks, k, y),
    decreases k,
{
    if k > 0 {
        lemma_interference_monotone(tasks, (k - 1) as nat, x, y);
        let t = tasks[k - 1].period as int;
        let c = tasks[k - 1].computing_time as int;
        lemma_div_is_ordered(x + t - 1, y + t - 1, t);
        lemma_mul_inequality(activations(x, t as nat) as int, activations(y, t as nat) as int, c);
    }
}

/// The response of task `i` to an interference of `prev` time units, or
/// `None` where it does not fit in 64 bits.
pub fn next_response(tasks: &Vec<DeadlineTask>, i: usize, prev: u64) -> (r: Option<u64>)
    requires
        i < tasks.len(),
        periodic(tasks@),
    ensures
        match r {
            Some(x) => x == response(tasks@, i as int, prev as nat),
            None => response(tasks@, i as int, prev as nat) > u64::MAX,
        },
{
    let mut total: u128 = tasks[i].computing_time as u128;
    let mut j: usize = 0;
    while j < i
        invariant
            0 <= j <= i < tasks.len(),
            periodic(tasks@),
            total == tasks[i as int].computing_time + interference(tasks@, j as nat, prev as nat),
            total <= u64::MAX,
        decreases i - j,
    {
        let t = &tasks[j];
        let count: u128 = (prev as u128 + t.period as u128 - 1) / (t.period as u128);
        proof {
            let x = prev + t.period - 1;
            if prev == 0 {
                vstd::arithmetic::div_mod::lemma_basic_div(x, t.period as int);
            } else {
                assert(x <= prev * t.period) by (nonlinear_arith)
                    requires
                        x == prev + t.period - 1,
                        t.period >= 1,
                        prev >= 1,
                ;
                lemma_div_is_ordered(x, prev * t.period, t.period as int);
                vstd::arithmetic::div_mod::lemma_div_multiples_vanish(prev as int, t.period as int);
            }
            assert(count * t.computing_time <= 0xffff_ffff_ffff_ffff * 0xffff_ffff_ffff_ffff) by (nonlinear_arith)
                requires
                    0 <= count <= 0xffff_ffff_ffff_ffff,
                    0 <= t.computing_time <= 0xffff_ffff_ffff_ffff,
            ;
        }
        total = total + count * (t.computing_time as u128);
        if total > u64::MAX as u128 {
            proof {
                lemma_interference_grows(tasks@, (j + 1) as nat, i as nat, prev as nat);
            }
            return None;
        }
        j += 1;
    }
    Some(total as u64)
}

/// Whether task `i` settles on a response time within its deadline. The
/// response is iterated from zero; it never falls, so it either repeats, and
/// that is the response time, or passes the deadline.
pub fn settles_within_deadline(tasks: &Vec<DeadlineTask>, i: usize) -> (ok: bool)
    requires
        i < tasks.len(),
        periodic(tasks@),
    ensures
        ok == settles(tasks@, i as int),
{
    let deadline = tasks[i].deadline;
    let mut prev: u64 = 0;
    loop
        invariant
            i < tasks.len(),
            periodic(tasks@),
            deadline == tasks[i as int].deadline,
            prev <= deadline,
            prev <= response(tasks@, i as int, prev as nat),
            forall|y: nat| #[trigger] response(tasks@, i as int, y) == y ==> prev <= y,
        decreases deadline - prev,
    {
        let next = next_response(tasks, i, prev);
        proof {
            assert forall|y: nat| #[trigger] response(tasks@, i as int, y) == y implies response(tasks@, i as int, prev as nat) <= y by {
                lemma_interference_monotone(tasks@, i as nat, prev as nat, y);
            }
        }
        match next {
            None => {
                return false;
            },
            Some(new) => {
                if new == prev {
                    return true;
                } else if new > deadline {
                    return false;
                }
                proof {
                    lemma_interference_monotone(tasks@, i as nat, prev as nat, new as nat);
                }
                prev = new;
            },
        }
    }
}

/// Whether every task settles on a response time within its deadline, each
/// against the interference of the tasks before it.
pub fn response_time_analysis(tasks: &Vec<DeadlineTask>) -> (ok: bool)
    requires
        periodic(tasks@),
    ensures
        ok == (forall|i: int| 0 <= i < tasks.len() ==> settles(tasks@, i)),
{
    let mut i: usize = 0;
    while i < tasks.len()
        invariant
            0 <= i <= tasks.len(),
            periodic(tasks@),
            forall|j: int| 0 <= j < i ==> settles(tasks@, j),
        decreases tasks.len() - i,
    {
        if !settles_within_deadline(tasks, i) {
            return false;
        }
        i += 1;
    }
    true
}

} // verus!
