//! The search for frame sizes: the divisors of the hyperperiod between the
//! longest computation time and the shortest period that leave every task a
//! full frame inside each of its periods.

use crate::numbers::{gcd, gcd_of};
use crate::task::Task;
use vstd::arithmetic::div_mod::lemma_small_mod;
use vstd::prelude::*;

verus! {

/// The scheduling-window constraint of a frame size against one period:
/// twice the frame size, less its greatest common divisor with the period,
/// does not exceed the period.
pub open spec fn window_holds(ts: nat, period: nat) -> bool {
    2 * ts - gcd_of(ts, period) <= period
}

/// `ts` is at least every computation time and at most every period.
pub open spec fn in_search_range(tasks: Seq<Task>, ts: nat) -> bool {
    forall|i: int| 0 <= i < tasks.len() ==> (#[trigger] tasks[i]).computing_time <= ts <= tasks[i].period
}

/// Some positive multiple of `ts` equals `h`.
pub open spec fn divides_exactly(ts: nat, h: nat) -> bool {
    ts > 0 && h > 0 && h % ts == 0
}

/// The window constraint holds of `ts` against the period of every task.
pub open spec fn windows_hold(tasks: Seq<Task>, ts: nat) -> bool {
    forall|i: int| 0 <= i < tasks.len() ==> window_holds(ts, (#[trigger] tasks[i]).period as nat)
}

/// `ts` is a valid frame size for the task set with hyperperiod `h`.
pub open spec fn is_frame_size(tasks: Seq<Task>, h: nat, ts: nat) -> bool {
    &&& in_search_range(tasks, ts)
    &&& divides_exactly(ts, h)
    &&& windows_hold(tasks, ts)
}

/// The longest computation time of a non-empty task set.
pub fn max_computing_time(tasks: &Vec<Task>) -> (c: u64)
    requires
        tasks.len() > 0,
    ensures
        forall|i: int| 0 <= i < tasks.len() ==> (#[trigger] tasks[i]).computing_time <= c,
        exists|i: int| 0 <= i < tasks.len() && (#[trigger] tasks[i]).computing_time == c,
{
    let mut c: u64 = tasks[0].computing_time;
    let mut i: usize = 1;
    while i < tasks.len()
        invariant
            1 <= i <= tasks.len(),
            forall|j: int| 0 <= j < i ==> (#[trigger] tasks[j]).computing_time <= c,
            exists|j: int| 0 <= j < i && (#[trigger] tasks[j]).computing_time == c,
        decreases tasks.len() - i,
    {
        if tasks[i].computing_time > c {
            c = tasks[i].computing_time;
        }
        i += 1;
    }
    c
}

/// The shortest period of a non-empty task set.
pub fn min_period(tasks: &Vec<Task>) -> (t: u64)
    requires
        tasks.len() > 0,
    ensures
        forall|i: int| 0 <= i < tasks.len() ==> t <= (#[trigger] tasks[i]).period,
        exists|i: int| 0 <= i < tasks.len() && (#[trigger] tasks[i]).period == t,
{
    let mut t: u64 = tasks[0].period;
    let mut i: usize = 1;
    while i < tasks.len()
        invariant
            1 <= i <= tasks.len(),
            forall|j: int| 0 <= j < i ==> t <= (#[trigger] tasks[j]).period,
            exists|j: int| 0 <= j < i && (#[trigger] tasks[j]).period == t,
        decreases tasks.len() - i,
    {
        if tasks[i].period < t {
            t = tasks[i].period;
        }
        i += 1;
    }
    t
}

/// Whether the window constraint holds of a positive frame size against one
/// period.
pub fn window_constraint(ts: u64, period: u64) -> (ok: bool)
    requires
        ts > 0,
    ensures
        ok == window_holds(ts as nat, period as nat),
{
    let g = gcd(ts, period);
    proof {
        if g > ts {
            lemma_small_mod(ts as nat, g as nat);
        }
    }
    let d = ts - g;
    d <= period && ts <= period - d
}

/// Whether the window constraint holds of a positive frame size against
/// every task.
pub fn satisfies_windows(tasks: &Vec<Task>, ts: u64) -> (ok: bool)
    requires
        ts > 0,
    ensures
        ok == windows_hold(tasks@, ts as nat),
{
    let mut i: usize = 0;
    while i < tasks.len()
        invariant
            0 <= i <= tasks.len(),
            ts > 0,
            forall|j: int| 0 <= j < i ==> window_holds(ts as nat, (#[trigger] tasks[j]).period as nat),
        decreases tasks.len() - i,
    {
        if !window_constraint(ts, tasks[i].period) {
            return false;
        }
        i += 1;
    }
    true
}

/// Whether `ts` divides the hyperperiod and meets every window constraint.
pub fn passes_filters(tasks: &Vec<Task>, hyperperiod: u64, ts: u64) -> (ok: bool)
    ensures
        ok == (divides_exactly(ts as nat, hyperperiod as nat) && windows_hold(tasks@, ts as nat)),
{
    ts > 0 && hyperperiod > 0 && hyperperiod % ts == 0 && satisfies_windows(tasks, ts)
}

/// The valid frame sizes of a non-empty task set with the given
/// hyperperiod, smallest first: exactly the numbers that `is_frame_size`
/// admits. The result is empty where no frame-based schedule exists.
pub fn frame_times(tasks: &Vec<Task>, hyperperiod: u64) -> (sizes: Vec<u64>)
    requires
        tasks.len() > 0,
    ensures
        forall|i: int, j: int| 0 <= i < j < sizes.len() ==> sizes[i] < sizes[j],
        forall|i: int| 0 <= i < sizes.len() ==> is_frame_size(tasks@, hyperperiod as nat, (#[trigger] sizes[i]) as nat),
        forall|ts: u64| is_frame_size(tasks@, hyperperiod as nat, ts as nat) ==> #[trigger] sizes@.contains(ts),
{
    let lo = max_computing_time(tasks);
    let hi = min_period(tasks);
    let mut sizes: Vec<u64> = Vec::new();
    if lo > hi {
        return sizes;
    }
    let mut ts: u64 = lo;
    while ts < hi
        invariant
            lo <= ts <= hi,
            forall|i: int| 0 <= i < tasks.len() ==> (#[trigger] tasks[i]).computing_time <= lo,
            forall|i: int| 0 <= i < tasks.len() ==> hi <= (#[trigger] tasks[i]).period,
            forall|i: int, j: int| 0 <= i < j < sizes.len() ==> sizes[i] < sizes[j],
            forall|i: int| 0 <= i < sizes.len() ==> (#[trigger] sizes[i]) < ts,
            forall|i: int| 0 <= i < sizes.len() ==> is_frame_size(tasks@, hyperperiod as nat, (#[trigger] sizes[i]) as nat),
            forall|x: u64| x < ts && is_frame_size(tasks@, hyperperiod as nat, x as nat) ==> #[trigger] sizes@.contains(x),
        decreases hi - ts,
    {
        if passes_filters(tasks, hyperperiod, ts) {
            let ghost before = sizes@;
            sizes.push(ts);
            proof {
                assert(sizes@[before.len() as int] == ts);
                assert forall|x: u64| x < ts && is_frame_size(tasks@, hyperperiod as nat, x as nat) implies #[trigger] sizes@.contains(x) by {
                    assert(before.contains(x));
                    let k = choose|k: int| 0 <= k < before.len() && before[k] == x;
                    assert(sizes@[k] == x);
                }
            }
        }
        ts += 1;
    }
    if passes_filters(tasks, hyperperiod, ts) {
        let ghost before = sizes@;
        sizes.push(ts);
        proof {
            assert(sizes@[before.len() as int] == ts);
            assert forall|x: u64| x < ts && is_frame_size(tasks@, hyperperiod as nat, x as nat) implies #[trigger] sizes@.contains(x) by {
                assert(before.contains(x));
                    let k = choose|k: int| 0 <= k < before.len() && before[k] == x;
                assert(sizes@[k] == x);
            }
        }
    }
    proof {
        let i0 = choose|i: int| 0 <= i < tasks.len() && (#[trigger] tasks[i]).computing_time == lo;
        let i1 = choose|i: int| 0 <= i < tasks.len() && (#[trigger] tasks[i]).period == hi;
        assert forall|x: u64| is_frame_size(tasks@, hyperperiod as nat, x as nat) implies #[trigger] sizes@.contains(x) by {
            assert(tasks[i0].computing_time <= x);
            assert(x <= tasks[i1].period);
            if x == ts {
                assert(sizes@[sizes.len() - 1] == ts);
            }
        }
    }
    sizes
}

} // verus!
