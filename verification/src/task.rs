//! The task set model and its hyperperiod.

use crate::numbers::{
    checked_lcm, common_multiple, is_lcm, lcm, lemma_divides_transitive, lemma_lcm_divides,
};
use vstd::prelude::*;

verus! {

/// A periodic task: a name for reports, a worst-case computation time and a
/// period, both in one integer time unit.
#[derive(Debug, PartialEq, Eq)]
pub struct Task {
    pub name: String,
    pub computing_time: u64,
    pub period: u64,
}

impl Clone for Task {
    fn clone(&self) -> (t: Self)
        ensures
            t == *self,
    {
        Task { name: self.name.clone(), computing_time: self.computing_time, period: self.period }
    }
}

/// Every task of the set has a positive period.
pub open spec fn periods_positive(tasks: Seq<Task>) -> bool {
    forall|i: int| 0 <= i < tasks.len() ==> (#[trigger] tasks[i]).period > 0
}

/// `m` is positive and a multiple of the period of each of the first `n` tasks.
pub open spec fn multiple_of_periods(tasks: Seq<Task>, n: int, m: nat) -> bool {
    m > 0 && forall|i: int| 0 <= i < n && i < tasks.len() ==> m % ((#[trigger] tasks[i]).period as nat) == 0
}

/// `h` is the hyperperiod of the task set: the least positive number that
/// every period divides. It then divides every other such number.
pub open spec fn is_hyperperiod(tasks: Seq<Task>, h: nat) -> bool {
    &&& multiple_of_periods(tasks, tasks.len() as int, h)
    &&& forall|m: nat| #[trigger] multiple_of_periods(tasks, tasks.len() as int, m) ==> h <= m && m % h == 0
}

/// Some common multiple of all the periods fits in 64 bits.
pub open spec fn hyperperiod_fits(tasks: Seq<Task>) -> bool {
    exists|m: nat| #[trigger] multiple_of_periods(tasks, tasks.len() as int, m) && m <= u64::MAX
}

/// At most one number is the hyperperiod of a task set.
pub proof fn lemma_hyperperiod_unique(tasks: Seq<Task>, h1: nat, h2: nat)
    requires
        is_hyperperiod(tasks, h1),
        is_hyperperiod(tasks, h2),
    ensures
        h1 == h2,
{
    assert(multiple_of_periods(tasks, tasks.len() as int, h1));
    assert(multiple_of_periods(tasks, tasks.len() as int, h2));
}

/// The hyperperiod of a single task is its period.
pub proof fn lemma_single_task_hyperperiod(tasks: Seq<Task>)
    requires
        tasks.len() == 1,
        tasks[0].period > 0,
    ensures
        is_hyperperiod(tasks, tasks[0].period as nat),
{
    let t = tasks[0].period as nat;
    vstd::arithmetic::div_mod::lemma_mod_self_0(t as int);
    assert forall|m: nat| #[trigger] multiple_of_periods(tasks, tasks.len() as int, m) implies t <= m && m % t == 0 by {
        assert(m % (tasks[0].period as nat) == 0);
        if m < t {
            vstd::arithmetic::div_mod::lemma_small_mod(m, t);
        }
    }
}

/// One step of the fold: if `h` is a common multiple of the first `n`
/// periods that divides every other, and `l` is the least common multiple of
/// `h` and the next period, then `l` is a common multiple of the first
/// `n + 1` periods that divides every other.
proof fn lemma_hyperperiod_step(tasks: Seq<Task>, n: int, h: nat, l: nat)
    requires
        0 <= n < tasks.len(),
        periods_positive(tasks),
        multiple_of_periods(tasks, n, h),
        forall|m: nat| #[trigger] multiple_of_periods(tasks, n, m) ==> m % h == 0,
        is_lcm(h, tasks[n].period as nat, l),
    ensures
        multiple_of_periods(tasks, n + 1, l),
        forall|m: nat| #[trigger] multiple_of_periods(tasks, n + 1, m) ==> m % l == 0,
{
    let t = tasks[n].period as nat;
    assert(common_multiple(h, t, l));
    assert forall|i: int| 0 <= i < n + 1 && i < tasks.len() implies l % ((#[trigger] tasks[i]).period as nat) == 0 by {
        if i < n {
            lemma_divides_transitive(tasks[i].period as nat, h, l);
        }
    }
    assert forall|m: nat| #[trigger] multiple_of_periods(tasks, n + 1, m) implies m % l == 0 by {
        assert(multiple_of_periods(tasks, n, m));
        assert(m % (tasks[n].period as nat) == 0);
        assert(common_multiple(h, t, m));
        lemma_lcm_divides(h, t, l, m);
    }
}

/// The hyperperiod of a task set: the least common multiple of all the
/// periods, folded from 1, so that the empty set has hyperperiod 1.
pub fn hyperperiod(tasks: &Vec<Task>) -> (h: u64)
    requires
        periods_positive(tasks@),
        hyperperiod_fits(tasks@),
    ensures
        is_hyperperiod(tasks@, h as nat),
{
    let mut h: u64 = 1;
    let mut i: usize = 0;
    let ghost fit: nat = choose|m: nat| #[trigger] multiple_of_periods(tasks@, tasks@.len() as int, m) && m <= u64::MAX;
    proof {
        assert forall|m: nat| #[trigger] multiple_of_periods(tasks@, 0, m) implies m % 1 == 0 by {}
    }
    while i < tasks.len()
        invariant
            0 <= i <= tasks.len(),
            periods_positive(tasks@),
            multiple_of_periods(tasks@, tasks@.len() as int, fit),
            fit <= u64::MAX,
            multiple_of_periods(tasks@, i as int, h as nat),
            forall|m: nat| #[trigger] multiple_of_periods(tasks@, i as int, m) ==> m % (h as nat) == 0,
        decreases tasks.len() - i,
    {
        let t = tasks[i].period;
        proof {
            assert(multiple_of_periods(tasks@, i as int, fit));
            assert(common_multiple(h as nat, t as nat, fit));
        }
        let l = lcm(h, t);
        proof {
            lemma_hyperperiod_step(tasks@, i as int, h as nat, l as nat);
        }
        h = l;
        i += 1;
    }
    proof {
        assert forall|m: nat| #[trigger] multiple_of_periods(tasks@, tasks@.len() as int, m) implies (h as nat) <= m && m % (h as nat) == 0 by {
            assert(m % (h as nat) == 0);
            if m < h {
                vstd::arithmetic::div_mod::lemma_small_mod(m, h as nat);
            }
        }
    }
    h
}

/// The hyperperiod of a task set, or `None` where it does not fit in 64
/// bits.
pub fn checked_hyperperiod(tasks: &Vec<Task>) -> (r: Option<u64>)
    requires
        periods_positive(tasks@),
    ensures
        r is Some <==> hyperperiod_fits(tasks@),
        r matches Some(h) ==> is_hyperperiod(tasks@, h as nat),
{
    let mut h: u64 = 1;
    let mut i: usize = 0;
    proof {
        assert forall|m: nat| #[trigger] multiple_of_periods(tasks@, 0, m) implies m % 1 == 0 by {}
    }
    while i < tasks.len()
        invariant
            0 <= i <= tasks.len(),
            periods_positive(tasks@),
            multiple_of_periods(tasks@, i as int, h as nat),
            forall|m: nat| #[trigger] multiple_of_periods(tasks@, i as int, m) ==> m % (h as nat) == 0,
        decreases tasks.len() - i,
    {
        let t = tasks[i].period;
        match checked_lcm(h, t) {
            Some(l) => {
                proof {
                    lemma_hyperperiod_step(tasks@, i as int, h as nat, l as nat);
                }
                h = l;
            },
            None => {
                proof {
                    if hyperperiod_fits(tasks@) {
                        let fit: nat = choose|m: nat| #[trigger] multiple_of_periods(tasks@, tasks@.len() as int, m) && m <= u64::MAX;
                        assert(multiple_of_periods(tasks@, i as int, fit));
                        assert(common_multiple(h as nat, t as nat, fit));
                    }
                }
                return None;
            },
        }
        i += 1;
    }
    proof {
        assert forall|m: nat| #[trigger] multiple_of_periods(tasks@, tasks@.len() as int, m) implies (h as nat) <= m && m % (h as nat) == 0 by {
            assert(m % (h as nat) == 0);
            if m < h {
                vstd::arithmetic::div_mod::lemma_small_mod(m, h as nat);
            }
        }
        assert(multiple_of_periods(tasks@, tasks@.len() as int, h as nat));
    }
    Some(h)
}

} // verus!
