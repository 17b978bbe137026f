//! The frame packer: a greedy, one-pass, first-fit assignment of every job
//! of every task to a frame of the timetable.

use crate::order::{ascending, sort_by_period, stable_order};
use crate::task::{periods_positive, Task};
use vstd::arithmetic::div_mod::lemma_fundamental_div_mod;
use vstd::prelude::*;
use vstd::seq_lib::to_multiset_contains;

verus! {

/// The job that could not be placed: the task's name and the index of the
/// job among that task's activations.
#[derive(Debug, PartialEq, Eq)]
pub struct PlacementFailure {
    pub task: String,
    pub job_index: u64,
}

/// The computation time already placed in a frame.
pub open spec fn load(frame: Seq<(Task, u64)>) -> nat
    decreases frame.len(),
{
    if frame.len() == 0 {
        0
    } else {
        load(frame.drop_last()) + frame.last().0.computing_time as nat
    }
}

/// The frames of a timetable, each as the sequence of its jobs.
pub open spec fn frames_of(table: Vec<Vec<(Task, u64)>>) -> Seq<Seq<(Task, u64)>> {
    Seq::new(table@.len(), |f: int| table@[f]@)
}

/// A timetable of `n` frames that hold no job.
pub open spec fn empty_frames(n: nat) -> Seq<Seq<(Task, u64)>> {
    Seq::new(n, |f: int| Seq::<(Task, u64)>::empty())
}

/// The first frame that does not end before the activation: the activation
/// time divided by the frame size, rounded up.
pub open spec fn earliest_frame(activation: nat, ts: nat) -> nat {
    if activation % ts == 0 {
        activation / ts
    } else {
        activation / ts + 1
    }
}

/// The last frame that a job may take: it lies within the table, whose last
/// index is `h / ts`, and no more than `period / ts` frames after the
/// earliest one.
pub open spec fn latest_frame(activation: nat, period: nat, ts: nat, h: nat) -> nat {
    let by_window = earliest_frame(activation, ts) + period / ts;
    let by_table = h / ts;
    if by_window < by_table {
        by_window
    } else {
        by_table
    }
}

/// Frame `f` has room for `need` more units.
pub open spec fn fits(frames: Seq<Seq<(Task, u64)>>, f: int, need: nat, ts: nat) -> bool {
    load(frames[f]) + need <= ts
}

/// The first frame from `lo` to `hi` with room for `need` units; a number
/// above `hi` where none of them has.
pub open spec fn first_fit(frames: Seq<Seq<(Task, u64)>>, need: nat, ts: nat, lo: int, hi: int) -> int
    decreases hi + 1 - lo,
{
    if lo > hi {
        lo
    } else if fits(frames, lo, need, ts) {
        lo
    } else {
        first_fit(frames, need, ts, lo + 1, hi)
    }
}

/// The timetable after job `i` of `task` took the first frame of its window
/// that has room, or `None` where no frame of the window has.
pub open spec fn place_job(frames: Seq<Seq<(Task, u64)>>, task: Task, i: nat, ts: nat, h: nat) -> Option<Seq<Seq<(Task, u64)>>> {
    let activation = i * (task.period as nat);
    let lo = earliest_frame(activation, ts);
    let hi = latest_frame(activation, task.period as nat, ts, h);
    let f = first_fit(frames, task.computing_time as nat, ts, lo as int, hi as int);
    if f <= hi {
        Some(frames.update(f, frames[f].push((task, activation as u64))))
    } else {
        None
    }
}

/// The timetable after the first `n` jobs of `task` were placed in turn, or
/// the index of the first job that found no frame.
pub open spec fn place_jobs(frames: Seq<Seq<(Task, u64)>>, task: Task, n: nat, ts: nat, h: nat) -> Result<Seq<Seq<(Task, u64)>>, nat>
    decreases n,
{
    if n == 0 {
        Ok(frames)
    } else {
        match place_jobs(frames, task, (n - 1) as nat, ts, h) {
            Err(i) => Err(i),
            Ok(before) => match place_job(before, task, (n - 1) as nat, ts, h) {
                Some(after) => Ok(after),
                None => Err((n - 1) as nat),
            },
        }
    }
}

/// The timetable after all jobs of the first `k` tasks were placed, task by
/// task, or the task index and job index of the first job that found no
/// frame. A task has one job for each whole period within `h`.
pub open spec fn place_tasks(frames: Seq<Seq<(Task, u64)>>, tasks: Seq<Task>, k: nat, ts: nat, h: nat) -> Result<Seq<Seq<(Task, u64)>>, (nat, nat)>
    decreases k,
{
    if k == 0 {
        Ok(frames)
    } else {
        match place_tasks(frames, tasks, (k - 1) as nat, ts, h) {
            Err(at) => Err(at),
            Ok(before) => {
                let task = tasks[k - 1];
                match place_jobs(before, task, h / (task.period as nat), ts, h) {
                    Ok(after) => Ok(after),
                    Err(i) => Err(((k - 1) as nat, i)),
                }
            },
        }
    }
}

/// What packing the tasks, in the order given, into `h / ts + 1` frames of
/// size `ts` yields.
pub open spec fn packing(tasks: Seq<Task>, ts: nat, h: nat) -> Result<Seq<Seq<(Task, u64)>>, (nat, nat)> {
    place_tasks(empty_frames(h / ts + 1), tasks, tasks.len(), ts, h)
}

/// Appending a job to a frame adds its computation time to the load.
pub proof fn lemma_load_push(frame: Seq<(Task, u64)>, job: (Task, u64))
    ensures
        load(frame.push(job)) == load(frame) + job.0.computing_time,
{
    assert(frame.push(job).drop_last() =~= frame);
}

/// Once a job of a task has found no frame, placing more jobs of the task
/// reports that same job.
pub proof fn lemma_jobs_stay_stuck(frames: Seq<Seq<(Task, u64)>>, task: Task, m: nat, n: nat, ts: nat, h: nat)
    requires
        m <= n,
        place_jobs(frames, task, m, ts, h) is Err,
    ensures
        place_jobs(frames, task, n, ts, h) == place_jobs(frames, task, m, ts, h),
    decreases n,
{
    if m < n {
        lemma_jobs_stay_stuck(frames, task, m, (n - 1) as nat, ts, h);
    }
}

/// Once a job has found no frame, placing more tasks reports that same job.
pub proof fn lemma_tasks_stay_stuck(frames: Seq<Seq<(Task, u64)>>, tasks: Seq<Task>, j: nat, k: nat, ts: nat, h: nat)
    requires
        j <= k,
        place_tasks(frames, tasks, j, ts, h) is Err,
    ensures
        place_tasks(frames, tasks, k, ts, h) == place_tasks(frames, tasks, j, ts, h),
    decreases k,
{
    if j < k {
        lemma_tasks_stay_stuck(frames, tasks, j, (k - 1) as nat, ts, h);
    }
}

/// No frame holds more computation time than its size.
pub open spec fn within_capacity(frames: Seq<Seq<(Task, u64)>>, ts: nat) -> bool {
    forall|f: int| 0 <= f < frames.len() ==> load(#[trigger] frames[f]) <= ts
}

/// Frame `f` lies in the window of the job: not before the earliest frame
/// of its activation, not after the latest.
pub open spec fn in_window(job: (Task, u64), f: int, ts: nat, h: nat) -> bool {
    earliest_frame(job.1 as nat, ts) <= f <= latest_frame(job.1 as nat, job.0.period as nat, ts, h)
}

/// Every job stands in a frame of its window.
pub open spec fn within_windows(frames: Seq<Seq<(Task, u64)>>, ts: nat, h: nat) -> bool {
    forall|f: int, j: int| 0 <= f < frames.len() && 0 <= j < frames[f].len() ==> in_window(#[trigger] frames[f][j], f, ts, h)
}

/// The timetable has `h / ts + 1` frames, none over capacity, and every job
/// in its window.
pub open spec fn well_packed(frames: Seq<Seq<(Task, u64)>>, ts: nat, h: nat) -> bool {
    &&& frames.len() == h / ts + 1
    &&& within_capacity(frames, ts)
    &&& within_windows(frames, ts, h)
}

/// What `first_fit` finds: a frame not before `lo`; where it is not past
/// `hi`, that frame has room and no frame from `lo` up to it has.
pub proof fn lemma_first_fit(frames: Seq<Seq<(Task, u64)>>, need: nat, ts: nat, lo: int, hi: int)
    ensures
        lo <= first_fit(frames, need, ts, lo, hi),
        first_fit(frames, need, ts, lo, hi) <= hi ==> fits(frames, first_fit(frames, need, ts, lo, hi), need, ts),
        forall|g: int| lo <= g < first_fit(frames, need, ts, lo, hi) && g <= hi ==> !fits(frames, g, need, ts),
    decreases hi + 1 - lo,
{
    if lo <= hi && !fits(frames, lo, need, ts) {
        lemma_first_fit(frames, need, ts, lo + 1, hi);
    }
}

/// The activation time of a job that starts a whole period within `h` is
/// less than `h`.
pub proof fn lemma_activation_bound(i: nat, period: nat, h: nat)
    requires
        period > 0,
        i < h / period,
    ensures
        i * period + period <= h,
{
    lemma_fundamental_div_mod(h as int, period as int);
    assert(i * period + period <= h) by (nonlinear_arith)
        requires
            i + 1 <= h / period,
            period * (h / period) <= h,
            period > 0,
    ;
}

/// Placing one job keeps a timetable well packed.
pub proof fn lemma_place_job_keeps(frames: Seq<Seq<(Task, u64)>>, task: Task, i: nat, ts: nat, h: nat)
    requires
        ts > 0,
        h <= u64::MAX,
        task.period > 0,
        i < h / (task.period as nat),
        well_packed(frames, ts, h),
        place_job(frames, task, i, ts, h) is Some,
    ensures
        well_packed(place_job(frames, task, i, ts, h)->Some_0, ts, h),
{
    let activation = i * (task.period as nat);
    let lo = earliest_frame(activation, ts);
    let hi = latest_frame(activation, task.period as nat, ts, h);
    let f = first_fit(frames, task.computing_time as nat, ts, lo as int, hi as int);
    let job = (task, activation as u64);
    let after = frames.update(f, frames[f].push(job));
    lemma_first_fit(frames, task.computing_time as nat, ts, lo as int, hi as int);
    lemma_activation_bound(i, task.period as nat, h);
    lemma_load_push(frames[f], job);
    assert(after == place_job(frames, task, i, ts, h)->Some_0);
    assert forall|g: int, j: int| 0 <= g < after.len() && 0 <= j < after[g].len() implies in_window(#[trigger] after[g][j], g, ts, h) by {
        if g == f && j == frames[f].len() {
            assert(after[g][j] == job);
        } else {
            assert(after[g][j] == frames[g][j]);
        }
    }
}

/// Placing the first `n` jobs of a task keeps a timetable well packed.
pub proof fn lemma_place_jobs_keeps(frames: Seq<Seq<(Task, u64)>>, task: Task, n: nat, ts: nat, h: nat)
    requires
        ts > 0,
        h <= u64::MAX,
        task.period > 0,
        n <= h / (task.period as nat),
        well_packed(frames, ts, h),
        place_jobs(frames, task, n, ts, h) is Ok,
    ensures
        well_packed(place_jobs(frames, task, n, ts, h)->Ok_0, ts, h),
    decreases n,
{
    if n > 0 {
        lemma_place_jobs_keeps(frames, task, (n - 1) as nat, ts, h);
        let before = place_jobs(frames, task, (n - 1) as nat, ts, h)->Ok_0;
        lemma_place_job_keeps(before, task, (n - 1) as nat, ts, h);
    }
}

/// Placing the first `k` tasks keeps a timetable well packed.
pub proof fn lemma_place_tasks_keeps(frames: Seq<Seq<(Task, u64)>>, tasks: Seq<Task>, k: nat, ts: nat, h: nat)
    requires
        ts > 0,
        h <= u64::MAX,
        periods_positive(tasks),
        k <= tasks.len(),
        well_packed(frames, ts, h),
        place_tasks(frames, tasks, k, ts, h) is Ok,
    ensures
        well_packed(place_tasks(frames, tasks, k, ts, h)->Ok_0, ts, h),
    decreases k,
{
    if k > 0 {
        lemma_place_tasks_keeps(frames, tasks, (k - 1) as nat, ts, h);
        let before = place_tasks(frames, tasks, (k - 1) as nat, ts, h)->Ok_0;
        let task = tasks[k - 1];
        lemma_place_jobs_keeps(before, task, h / (task.period as nat), ts, h);
    }
}

/// A timetable that packing yields is well packed: in each frame the
/// computation times sum to no more than the frame size, and every job
/// stands in a frame of its window.
pub proof fn lemma_packing_well_packed(tasks: Seq<Task>, ts: nat, h: nat)
    requires
        ts > 0,
        h <= u64::MAX,
        periods_positive(tasks),
        packing(tasks, ts, h) is Ok,
    ensures
        well_packed(packing(tasks, ts, h)->Ok_0, ts, h),
{
    let blank = empty_frames(h / ts + 1);
    assert(well_packed(blank, ts, h));
    lemma_place_tasks_keeps(blank, tasks, tasks.len(), ts, h);
}

/// How many jobs of `task` a frame holds.
pub open spec fn count_in_frame(frame: Seq<(Task, u64)>, task: Task) -> nat
    decreases frame.len(),
{
    if frame.len() == 0 {
        0
    } else {
        count_in_frame(frame.drop_last(), task) + if frame.last().0 == task { 1nat } else { 0nat }
    }
}

/// How many jobs of `task` a timetable holds.
pub open spec fn count_of(frames: Seq<Seq<(Task, u64)>>, task: Task) -> nat
    decreases frames.len(),
{
    if frames.len() == 0 {
        0
    } else {
        count_of(frames.drop_last(), task) + count_in_frame(frames.last(), task)
    }
}

/// How many jobs the first `k` tasks owe to `task`: one for each whole
/// period within `h`, for each place at which `task` stands in the set.
pub open spec fn jobs_owed(tasks: Seq<Task>, k: nat, task: Task, h: nat) -> nat
    decreases k,
{
    if k == 0 {
        0
    } else {
        jobs_owed(tasks, (k - 1) as nat, task, h) + if tasks[k - 1] == task { h / (task.period as nat) } else { 0nat }
    }
}

/// Appending a job to one frame adds one to the count of its task and
/// nothing to the count of any other.
pub proof fn lemma_count_after_push(frames: Seq<Seq<(Task, u64)>>, f: int, job: (Task, u64), task: Task)
    requires
        0 <= f < frames.len(),
    ensures
        count_of(frames.update(f, frames[f].push(job)), task) == count_of(frames, task) + if job.0 == task { 1nat } else { 0nat },
    decreases frames.len(),
{
    let after = frames.update(f, frames[f].push(job));
    if f == frames.len() - 1 {
        assert(after.drop_last() =~= frames.drop_last());
        assert(frames[f].push(job).drop_last() =~= frames[f]);
    } else {
        assert(after.drop_last() =~= frames.drop_last().update(f, frames.drop_last()[f].push(job)));
        lemma_count_after_push(frames.drop_last(), f, job, task);
    }
}

/// A timetable without jobs holds no job of any task.
pub proof fn lemma_count_of_empty(n: nat, task: Task)
    ensures
        count_of(empty_frames(n), task) == 0,
    decreases n,
{
    if n > 0 {
        assert(empty_frames(n).drop_last() =~= empty_frames((n - 1) as nat));
        lemma_count_of_empty((n - 1) as nat, task);
    }
}

/// Placing the first `n` jobs of a task adds `n` to the count of that task
/// and nothing to the count of any other.
pub proof fn lemma_place_jobs_counts(frames: Seq<Seq<(Task, u64)>>, placed: Task, n: nat, ts: nat, h: nat, task: Task)
    requires
        ts > 0,
        h <= u64::MAX,
        placed.period > 0,
        n <= h / (placed.period as nat),
        well_packed(frames, ts, h),
        place_jobs(frames, placed, n, ts, h) is Ok,
    ensures
        count_of(place_jobs(frames, placed, n, ts, h)->Ok_0, task) == count_of(frames, task) + if placed == task { n } else { 0nat },
    decreases n,
{
    if n > 0 {
        let i = (n - 1) as nat;
        lemma_place_jobs_counts(frames, placed, i, ts, h, task);
        lemma_place_jobs_keeps(frames, placed, i, ts, h);
        let before = place_jobs(frames, placed, i, ts, h)->Ok_0;
        let activation = i * (placed.period as nat);
        let lo = earliest_frame(activation, ts);
        let hi = latest_frame(activation, placed.period as nat, ts, h);
        lemma_first_fit(before, placed.computing_time as nat, ts, lo as int, hi as int);
        let f = first_fit(before, placed.computing_time as nat, ts, lo as int, hi as int);
        lemma_count_after_push(before, f, (placed, activation as u64), task);
    }
}

/// Placing the first `k` tasks adds to the count of each task what those
/// tasks owe to it.
pub proof fn lemma_place_tasks_counts(frames: Seq<Seq<(Task, u64)>>, tasks: Seq<Task>, k: nat, ts: nat, h: nat, task: Task)
    requires
        ts > 0,
        h <= u64::MAX,
        periods_positive(tasks),
        k <= tasks.len(),
        well_packed(frames, ts, h),
        place_tasks(frames, tasks, k, ts, h) is Ok,
    ensures
        count_of(place_tasks(frames, tasks, k, ts, h)->Ok_0, task) == count_of(frames, task) + jobs_owed(tasks, k, task, h),
    decreases k,
{
    if k > 0 {
        lemma_place_tasks_counts(frames, tasks, (k - 1) as nat, ts, h, task);
        lemma_place_tasks_keeps(frames, tasks, (k - 1) as nat, ts, h);
        let before = place_tasks(frames, tasks, (k - 1) as nat, ts, h)->Ok_0;
        let placed = tasks[k - 1];
        lemma_place_jobs_counts(before, placed, h / (placed.period as nat), ts, h, task);
    }
}

/// A timetable that packing yields holds, of every task, exactly one job
/// for each whole period within `h`, for each place at which the task stands
/// in the set.
pub proof fn lemma_packing_counts(tasks: Seq<Task>, ts: nat, h: nat, task: Task)
    requires
        ts > 0,
        h <= u64::MAX,
        periods_positive(tasks),
        packing(tasks, ts, h) is Ok,
    ensures
        count_of(packing(tasks, ts, h)->Ok_0, task) == jobs_owed(tasks, tasks.len(), task, h),
{
    let blank = empty_frames(h / ts + 1);
    assert(well_packed(blank, ts, h));
    lemma_count_of_empty(h / ts + 1, task);
    lemma_place_tasks_counts(blank, tasks, tasks.len(), ts, h, task);
}

/// At how many of the first `k` places of the set `task` stands.
pub open spec fn occurrences(tasks: Seq<Task>, k: nat, task: Task) -> nat
    decreases k,
{
    if k == 0 {
        0
    } else {
        occurrences(tasks, (k - 1) as nat, task) + if tasks[k - 1] == task { 1nat } else { 0nat }
    }
}

/// A task is owed one job for each whole period within `h`, once for each
/// place at which it stands in the set: `h / period` jobs for a task that
/// stands there once.
pub proof fn lemma_jobs_owed(tasks: Seq<Task>, k: nat, task: Task, h: nat)
    ensures
        jobs_owed(tasks, k, task, h) == occurrences(tasks, k, task) * (h / (task.period as nat)),
    decreases k,
{
    if k > 0 {
        lemma_jobs_owed(tasks, (k - 1) as nat, task, h);
        let before = occurrences(tasks, (k - 1) as nat, task);
        let each = h / (task.period as nat);
        assert((before + 1) * each == before * each + each) by (nonlinear_arith);
    } else {
        assert(0 * (h / (task.period as nat)) == 0) by (nonlinear_arith);
    }
}

/// Job `i` of a task: the task and the activation time, `i` periods in.
pub open spec fn job_of(task: Task, i: nat) -> (Task, u64) {
    (task, (i * (task.period as nat)) as u64)
}

/// Some frame of the timetable holds the job.
pub open spec fn holds_job(frames: Seq<Seq<(Task, u64)>>, job: (Task, u64)) -> bool {
    exists|f: int, j: int| 0 <= f < frames.len() && 0 <= j < frames[f].len() && #[trigger] frames[f][j] == job
}

/// Placing a job puts it into the timetable and keeps every job that the
/// timetable held.
pub proof fn lemma_place_job_holds(frames: Seq<Seq<(Task, u64)>>, task: Task, i: nat, ts: nat, h: nat)
    requires
        ts > 0,
        frames.len() == h / ts + 1,
        place_job(frames, task, i, ts, h) is Some,
    ensures
        holds_job(place_job(frames, task, i, ts, h)->Some_0, job_of(task, i)),
        forall|job: (Task, u64)| holds_job(frames, job) ==> holds_job(place_job(frames, task, i, ts, h)->Some_0, job),
{
    let activation = i * (task.period as nat);
    let lo = earliest_frame(activation, ts);
    let hi = latest_frame(activation, task.period as nat, ts, h);
    let f = first_fit(frames, task.computing_time as nat, ts, lo as int, hi as int);
    let after = frames.update(f, frames[f].push(job_of(task, i)));
    lemma_first_fit(frames, task.computing_time as nat, ts, lo as int, hi as int);
    assert(after == place_job(frames, task, i, ts, h)->Some_0);
    assert(after[f][frames[f].len() as int] == job_of(task, i));
    assert forall|job: (Task, u64)| holds_job(frames, job) implies holds_job(after, job) by {
        let (g, j) = choose|g: int, j: int| 0 <= g < frames.len() && 0 <= j < frames[g].len() && #[trigger] frames[g][j] == job;
        assert(after[g][j] == job);
    }
}

/// Placing the first `n` jobs of a task puts each of them into the
/// timetable and keeps every job that the timetable held.
pub proof fn lemma_place_jobs_holds(frames: Seq<Seq<(Task, u64)>>, task: Task, n: nat, ts: nat, h: nat)
    requires
        ts > 0,
        h <= u64::MAX,
        task.period > 0,
        n <= h / (task.period as nat),
        well_packed(frames, ts, h),
        place_jobs(frames, task, n, ts, h) is Ok,
    ensures
        forall|i: nat| i < n ==> holds_job(place_jobs(frames, task, n, ts, h)->Ok_0, #[trigger] job_of(task, i)),
        forall|job: (Task, u64)| holds_job(frames, job) ==> holds_job(place_jobs(frames, task, n, ts, h)->Ok_0, job),
    decreases n,
{
    if n > 0 {
        let last = (n - 1) as nat;
        lemma_place_jobs_holds(frames, task, last, ts, h);
        lemma_place_jobs_keeps(frames, task, last, ts, h);
        let before = place_jobs(frames, task, last, ts, h)->Ok_0;
        lemma_place_job_holds(before, task, last, ts, h);
    }
}

/// Placing the first `k` tasks puts every job of each of them into the
/// timetable and keeps every job that the timetable held.
pub proof fn lemma_place_tasks_holds(frames: Seq<Seq<(Task, u64)>>, tasks: Seq<Task>, k: nat, ts: nat, h: nat)
    requires
        ts > 0,
        h <= u64::MAX,
        periods_positive(tasks),
        k <= tasks.len(),
        well_packed(frames, ts, h),
        place_tasks(frames, tasks, k, ts, h) is Ok,
    ensures
        forall|t: int, i: nat| 0 <= t < k && i < h / (tasks[t].period as nat) ==> holds_job(place_tasks(frames, tasks, k, ts, h)->Ok_0, #[trigger] job_of(tasks[t], i)),
        forall|job: (Task, u64)| holds_job(frames, job) ==> holds_job(place_tasks(frames, tasks, k, ts, h)->Ok_0, job),
    decreases k,
{
    if k > 0 {
        lemma_place_tasks_holds(frames, tasks, (k - 1) as nat, ts, h);
        lemma_place_tasks_keeps(frames, tasks, (k - 1) as nat, ts, h);
        let before = place_tasks(frames, tasks, (k - 1) as nat, ts, h)->Ok_0;
        let task = tasks[k - 1];
        lemma_place_jobs_holds(before, task, h / (task.period as nat), ts, h);
    }
}

/// A timetable that packing yields holds every job that is due: for each
/// task and each whole period within `h`, the job activated at the start of
/// that period.
pub proof fn lemma_packing_holds_every_job(tasks: Seq<Task>, ts: nat, h: nat)
    requires
        ts > 0,
        h <= u64::MAX,
        periods_positive(tasks),
        packing(tasks, ts, h) is Ok,
    ensures
        forall|t: int, i: nat| 0 <= t < tasks.len() && i < h / (tasks[t].period as nat) ==> holds_job(packing(tasks, ts, h)->Ok_0, #[trigger] job_of(tasks[t], i)),
{
    let blank = empty_frames(h / ts + 1);
    assert(well_packed(blank, ts, h));
    lemma_place_tasks_holds(blank, tasks, tasks.len(), ts, h);
}

/// When job `j` of frame `f` starts: at the frame's base time plus the
/// computation times of the jobs placed in the frame before it.
pub open spec fn start_of(frames: Seq<Seq<(Task, u64)>>, f: int, j: int, ts: nat) -> nat {
    (f * ts + load(frames[f].take(j))) as nat
}

/// The jobs ahead of a job in its frame, and the job itself, weigh no more
/// than the whole frame.
pub proof fn lemma_load_prefix(frame: Seq<(Task, u64)>, j: int)
    requires
        0 <= j < frame.len(),
    ensures
        load(frame.take(j)) + frame[j].0.computing_time <= load(frame),
    decreases frame.len(),
{
    if j == frame.len() - 1 {
        assert(frame.take(j) =~= frame.drop_last());
    } else {
        assert(frame.take(j) =~= frame.drop_last().take(j));
        lemma_load_prefix(frame.drop_last(), j);
    }
}

/// In a timetable within capacity every job finishes by the end of its
/// frame; it therefore meets its deadline, the activation plus the period,
/// wherever its frame ends by then.
pub proof fn lemma_job_finishes(frames: Seq<Seq<(Task, u64)>>, f: int, j: int, ts: nat)
    requires
        within_capacity(frames, ts),
        0 <= f < frames.len(),
        0 <= j < frames[f].len(),
    ensures
        start_of(frames, f, j, ts) + frames[f][j].0.computing_time <= (f + 1) * ts,
        (f + 1) * ts <= frames[f][j].1 + frames[f][j].0.period ==> start_of(frames, f, j, ts)
            + frames[f][j].0.computing_time <= frames[f][j].1 + frames[f][j].0.period,
{
    lemma_load_prefix(frames[f], j);
    assert(load(frames[f]) <= ts);
    assert(f * ts >= 0) by (nonlinear_arith)
        requires
            f >= 0,
            ts >= 0,
    ;
    assert((f + 1) * ts == f * ts + ts) by (nonlinear_arith);
}

/// `r` is what packing the tasks yields: the timetable, which is then well
/// packed, or the name of the task and the index of the job that found no
/// frame.
pub open spec fn is_outcome(tasks: Seq<Task>, ts: nat, h: nat, r: Result<Vec<Vec<(Task, u64)>>, PlacementFailure>) -> bool {
    match r {
        Ok(table) => packing(tasks, ts, h) == Ok::<Seq<Seq<(Task, u64)>>, (nat, nat)>(frames_of(table)) && well_packed(
            frames_of(table),
            ts,
            h,
        ),
        Err(e) => packing(tasks, ts, h) matches Err(at) && at.0 < tasks.len() && at.1 == e.job_index && e.task
            == tasks[at.0 as int].name,
    }
}

/// Two results of packing agree: both are timetables with the same frames,
/// or both report the same job.
pub open spec fn same_outcome(a: Result<Vec<Vec<(Task, u64)>>, PlacementFailure>, b: Result<Vec<Vec<(Task, u64)>>, PlacementFailure>) -> bool {
    match (a, b) {
        (Ok(x), Ok(y)) => frames_of(x) == frames_of(y),
        (Err(x), Err(y)) => x.task == y.task && x.job_index == y.job_index,
        _ => false,
    }
}

/// Packing is deterministic: two outcomes for the same tasks, frame size
/// and hyperperiod agree.
pub proof fn lemma_outcome_determined(tasks: Seq<Task>, ts: nat, h: nat, a: Result<Vec<Vec<(Task, u64)>>, PlacementFailure>, b: Result<Vec<Vec<(Task, u64)>>, PlacementFailure>)
    requires
        is_outcome(tasks, ts, h, a),
        is_outcome(tasks, ts, h, b),
    ensures
        same_outcome(a, b),
{
}

/// A rearrangement of tasks with positive periods has positive periods.
pub proof fn lemma_rearranged_periods_positive(given: Seq<Task>, rearranged: Seq<Task>)
    requires
        periods_positive(given),
        rearranged.to_multiset() == given.to_multiset(),
    ensures
        periods_positive(rearranged),
{
    assert forall|i: int| 0 <= i < rearranged.len() implies (#[trigger] rearranged[i]).period > 0 by {
        to_multiset_contains(rearranged, rearranged[i]);
        to_multiset_contains(given, rearranged[i]);
        assert(rearranged.contains(rearranged[i]));
        let at = choose|at: int| 0 <= at < given.len() && given[at] == rearranged[i];
        assert(given[at].period > 0);
    }
}

/// Scans the frames from `first` to `last` for the first with `need` units
/// of spare capacity.
fn find_frame(available: &Vec<u64>, Ghost(frames): Ghost<Seq<Seq<(Task, u64)>>>, need: u64, ts: u64, first: u64, last: u64) -> (found: Option<usize>)
    requires
        available.len() == frames.len(),
        forall|f: int| 0 <= f < frames.len() ==> #[trigger] available[f] + load(frames[f]) == ts,
        first <= last < available.len(),
    ensures
        match found {
            Some(f) => first <= f <= last && f == first_fit(frames, need as nat, ts as nat, first as int, last as int) && available[f as int] >= need,
            None => first_fit(frames, need as nat, ts as nat, first as int, last as int) > last,
        },
{
    let mut c: u64 = first;
    while c <= last
        invariant
            first <= c <= last + 1,
            last < available.len(),
            available.len() == frames.len(),
            forall|f: int| 0 <= f < frames.len() ==> #[trigger] available[f] + load(frames[f]) == ts,
            first_fit(frames, need as nat, ts as nat, first as int, last as int) == first_fit(frames, need as nat, ts as nat, c as int, last as int),
        decreases last + 1 - c,
    {
        let at: usize = c as usize;
        if available[at] >= need {
            return Some(at);
        }
        c += 1;
    }
    None
}

/// Packs every job of every task, in the order of the tasks as given, into
/// the frames of one hyperperiod. Each job takes the first frame of its
/// window with enough spare capacity; the first job that finds none ends the
/// attempt and is reported.
pub fn pack(tasks: &Vec<Task>, frame_time: u64, hyperperiod: u64) -> (r: Result<Vec<Vec<(Task, u64)>>, PlacementFailure>)
    requires
        frame_time > 0,
        periods_positive(tasks@),
        hyperperiod / frame_time < usize::MAX,
    ensures
        is_outcome(tasks@, frame_time as nat, hyperperiod as nat, r),
{
    let num_frames = hyperperiod / frame_time;
    let mut available: Vec<u64> = Vec::new();
    let mut table: Vec<Vec<(Task, u64)>> = Vec::new();
    let mut n: u64 = 0;
    while n <= num_frames
        invariant
            n <= num_frames + 1,
            num_frames < usize::MAX,
            available.len() == n,
            table.len() == n,
            forall|f: int| 0 <= f < n ==> #[trigger] available[f] == frame_time,
            forall|f: int| 0 <= f < n ==> (#[trigger] table[f])@.len() == 0,
        decreases num_frames + 1 - n,
    {
        available.push(frame_time);
        table.push(Vec::new());
        n += 1;
    }
    let ghost ts = frame_time as nat;
    let ghost h = hyperperiod as nat;
    let ghost blank = empty_frames(h / ts + 1);
    proof {
        assert(frames_of(table) =~= blank) by {
            assert forall|f: int| 0 <= f < table.len() implies #[trigger] frames_of(table)[f] == blank[f] by {
                assert(table[f]@ =~= Seq::<(Task, u64)>::empty());
            }
        }
    }
    let mut k: usize = 0;
    while k < tasks.len()
        invariant
            0 <= k <= tasks.len(),
            frame_time > 0,
            periods_positive(tasks@),
            ts == frame_time,
            h == hyperperiod,
            num_frames == hyperperiod / frame_time,
            num_frames < usize::MAX,
            blank == empty_frames(h / ts + 1),
            available.len() == num_frames + 1,
            table.len() == num_frames + 1,
            forall|f: int| 0 <= f < table.len() ==> #[trigger] available[f] + load(frames_of(table)[f]) == frame_time,
            place_tasks(blank, tasks@, k as nat, ts, h) == Ok::<Seq<Seq<(Task, u64)>>, (nat, nat)>(frames_of(table)),
        decreases tasks.len() - k,
    {
        let task = &tasks[k];
        let num_jobs = hyperperiod / task.period;
        let ghost entry = frames_of(table);
        let mut i: u64 = 0;
        while i < num_jobs
            invariant
                0 <= i <= num_jobs,
                0 <= k < tasks.len(),
                *task == tasks[k as int],
                task.period > 0,
                num_jobs == hyperperiod / task.period,
                frame_time > 0,
                ts == frame_time,
                h == hyperperiod,
                num_frames == hyperperiod / frame_time,
                num_frames < usize::MAX,
                blank == empty_frames(h / ts + 1),
                available.len() == num_frames + 1,
                table.len() == num_frames + 1,
                forall|f: int| 0 <= f < table.len() ==> #[trigger] available[f] + load(frames_of(table)[f]) == frame_time,
                place_tasks(blank, tasks@, k as nat, ts, h) == Ok::<Seq<Seq<(Task, u64)>>, (nat, nat)>(entry),
                place_jobs(entry, *task, i as nat, ts, h) == Ok::<Seq<Seq<(Task, u64)>>, nat>(frames_of(table)),
            decreases num_jobs - i,
        {
            proof {
                lemma_fundamental_div_mod(hyperperiod as int, task.period as int);
                assert((i + 1) * task.period <= hyperperiod) by (nonlinear_arith)
                    requires
                        i + 1 <= num_jobs,
                        task.period * num_jobs <= hyperperiod,
                        task.period > 0,
                ;
                assert(i * task.period < (i + 1) * task.period) by (nonlinear_arith)
                    requires
                        task.period > 0,
                ;
            }
            let activation = i * task.period;
            proof {
                lemma_fundamental_div_mod(activation as int, frame_time as int);
                assert(activation / frame_time <= activation) by (nonlinear_arith)
                    requires
                        activation == frame_time * (activation / frame_time) + activation % frame_time,
                        0 <= activation % frame_time,
                        frame_time >= 1,
                        activation / frame_time >= 0,
                ;
            }
            let first = if activation % frame_time == 0 {
                activation / frame_time
            } else {
                activation / frame_time + 1
            };
            let ghost before = frames_of(table);
            let mut found: Option<usize> = None;
            if first <= num_frames {
                let span = num_frames - first;
                let reach = task.period / frame_time;
                let last = if reach < span {
                    first + reach
                } else {
                    num_frames
                };
                found = find_frame(&available, Ghost(before), task.computing_time, frame_time, first, last);
            }
            match found {
                Some(c) => {
                    let spare = available[c];
                    available.set(c, spare - task.computing_time);
                    table[c].push((task.clone(), activation));
                    proof {
                        lemma_load_push(before[c as int], (*task, activation));
                        assert(frames_of(table) =~= before.update(c as int, before[c as int].push((*task, activation))));
                    }
                },
                None => {
                    proof {
                        assert(place_job(before, *task, i as nat, ts, h) is None);
                        assert(place_jobs(entry, *task, (i + 1) as nat, ts, h) == Err::<Seq<Seq<(Task, u64)>>, nat>(i as nat));
                        lemma_jobs_stay_stuck(entry, *task, (i + 1) as nat, num_jobs as nat, ts, h);
                        assert(place_tasks(blank, tasks@, (k + 1) as nat, ts, h) == Err::<Seq<Seq<(Task, u64)>>, (nat, nat)>((k as nat, i as nat)));
                        lemma_tasks_stay_stuck(blank, tasks@, (k + 1) as nat, tasks@.len(), ts, h);
                    }
                    return Err(PlacementFailure { task: task.name.clone(), job_index: i });
                },
            }
            i += 1;
        }
        k += 1;
    }
    proof {
        lemma_packing_well_packed(tasks@, ts, h);
    }
    Ok(table)
}

/// The start time of every job of a timetable within capacity: the jobs of
/// a frame run one after the other, in the order in which they were placed,
/// from the frame's base time on.
pub fn start_times(table: &Vec<Vec<(Task, u64)>>, frame_time: u64) -> (starts: Vec<Vec<u64>>)
    requires
        within_capacity(frames_of(*table), frame_time as nat),
        table.len() * frame_time <= u64::MAX,
    ensures
        starts.len() == table.len(),
        forall|f: int| 0 <= f < table.len() ==> (#[trigger] starts[f]).len() == table[f].len(),
        forall|f: int, j: int| 0 <= f < table.len() && 0 <= j < table[f].len() ==> #[trigger] starts[f][j] == start_of(frames_of(*table), f, j, frame_time as nat),
{
    let mut starts: Vec<Vec<u64>> = Vec::new();
    let mut f: usize = 0;
    let mut base: u64 = 0;
    let ghost frames = frames_of(*table);
    let ghost ts = frame_time as nat;
    proof {
        assert(0 * frame_time == 0) by (nonlinear_arith);
    }
    while f < table.len()
        invariant
            0 <= f <= table.len(),
            frames == frames_of(*table),
            ts == frame_time,
            within_capacity(frames, ts),
            table.len() * frame_time <= u64::MAX,
            base == f * frame_time,
            starts.len() == f,
            forall|g: int| 0 <= g < f ==> (#[trigger] starts[g]).len() == table[g].len(),
            forall|g: int, j: int| 0 <= g < f && 0 <= j < table[g].len() ==> #[trigger] starts[g][j] == start_of(frames, g, j, ts),
        decreases table.len() - f,
    {
        let frame = &table[f];
        let mut row: Vec<u64> = Vec::new();
        let mut j: usize = 0;
        let mut used: u64 = 0;
        proof {
            assert(frames[f as int] == frame@);
            assert(load(frames[f as int]) <= ts);
            assert((f + 1) * frame_time <= table.len() * frame_time) by (nonlinear_arith)
                requires
                    f + 1 <= table.len(),
                    frame_time >= 0,
            ;
            assert((f + 1) * frame_time == f * frame_time + frame_time) by (nonlinear_arith);
            assert(frame@.take(0) =~= Seq::<(Task, u64)>::empty());
        }
        while j < frame.len()
            invariant
                0 <= j <= frame.len(),
                load(frame@) <= frame_time,
                base + frame_time <= u64::MAX,
                used == load(frame@.take(j as int)),
                used <= load(frame@),
                row.len() == j,
                forall|i: int| 0 <= i < j ==> #[trigger] row[i] == base + load(frame@.take(i)),
            decreases frame.len() - j,
        {
            proof {
                lemma_load_prefix(frame@, j as int);
                assert(frame@.take(j + 1).drop_last() =~= frame@.take(j as int));
                if j + 1 == frame.len() {
                    assert(frame@.take(j + 1) =~= frame@);
                } else {
                    lemma_load_prefix(frame@, j + 1);
                }
            }
            row.push(base + used);
            used = used + frame[j].0.computing_time;
            j += 1;
        }
        starts.push(row);
        base = base + frame_time;
        f += 1;
    }
    starts
}

/// Sorts the tasks by period, shortest first, and packs their jobs into the
/// frames of one hyperperiod. The tasks stay sorted; the timetable, or the
/// job that found no frame, is that of packing them in that order.
pub fn schedule(tasks: &mut Vec<Task>, frame_time: u64, hyperperiod: u64) -> (r: Result<Vec<Vec<(Task, u64)>>, PlacementFailure>)
    requires
        frame_time > 0,
        periods_positive(old(tasks)@),
        hyperperiod / frame_time < usize::MAX,
    ensures
        final(tasks)@ == stable_order(old(tasks)@),
        ascending(final(tasks)@),
        final(tasks)@.to_multiset() == old(tasks)@.to_multiset(),
        is_outcome(final(tasks)@, frame_time as nat, hyperperiod as nat, r),
{
    let ghost given = tasks@;
    sort_by_period(tasks);
    proof {
        lemma_rearranged_periods_positive(given, tasks@);
    }
    pack(tasks, frame_time, hyperperiod)
}

} // verus!
