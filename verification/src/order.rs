//! Ordering a task set by period, shortest first, keeping tasks of equal
//! period in the order in which they came.

use crate::task::Task;
use vstd::prelude::*;
use vstd::seq_lib::{to_multiset_build, to_multiset_insert};

verus! {

/// Periods never decrease along the sequence.
pub open spec fn ascending(tasks: Seq<Task>) -> bool {
    forall|i: int, j: int| 0 <= i <= j < tasks.len() ==> tasks[i].period <= tasks[j].period
}

/// Where a task of the given period goes in an ascending sequence: behind
/// the last task whose period is not longer.
pub open spec fn slot(sorted: Seq<Task>, period: u64) -> int
    decreases sorted.len(),
{
    if sorted.len() == 0 || sorted.last().period <= period {
        sorted.len() as int
    } else {
        slot(sorted.drop_last(), period)
    }
}

/// The tasks in ascending order of period, each put in its slot in turn.
pub open spec fn stable_order(tasks: Seq<Task>) -> Seq<Task>
    decreases tasks.len(),
{
    if tasks.len() == 0 {
        tasks
    } else {
        let sorted = stable_order(tasks.drop_last());
        sorted.insert(slot(sorted, tasks.last().period), tasks.last())
    }
}

/// The index at which a task of the given period is inserted.
fn find_slot(sorted: &Vec<Task>, period: u64) -> (pos: usize)
    ensures
        pos == slot(sorted@, period),
        pos <= sorted.len(),
        pos > 0 ==> sorted[pos - 1].period <= period,
        forall|j: int| pos <= j < sorted.len() ==> (#[trigger] sorted[j]).period > period,
{
    let mut pos: usize = sorted.len();
    proof {
        assert(sorted@.subrange(0, pos as int) =~= sorted@);
    }
    while pos > 0 && sorted[pos - 1].period > period
        invariant
            pos <= sorted.len(),
            slot(sorted@, period) == slot(sorted@.subrange(0, pos as int), period),
            forall|j: int| pos <= j < sorted.len() ==> (#[trigger] sorted[j]).period > period,
        decreases pos,
    {
        proof {
            assert(sorted@.subrange(0, pos as int).drop_last() =~= sorted@.subrange(0, pos - 1));
        }
        pos -= 1;
    }
    pos
}

/// Sorts the tasks by period, shortest first. Tasks of equal period keep
/// their order, so the result is determined by the input alone.
pub fn sort_by_period(tasks: &mut Vec<Task>)
    ensures
        final(tasks)@ == stable_order(old(tasks)@),
        ascending(final(tasks)@),
        final(tasks)@.to_multiset() == old(tasks)@.to_multiset(),
{
    let mut sorted: Vec<Task> = Vec::new();
    let mut i: usize = 0;
    proof {
        assert(tasks@.subrange(0, 0) =~= Seq::<Task>::empty());
        assert(sorted@ =~= stable_order(tasks@.subrange(0, 0)));
    }
    while i < tasks.len()
        invariant
            0 <= i <= tasks.len(),
            *tasks == *old(tasks),
            sorted@ == stable_order(tasks@.subrange(0, i as int)),
            ascending(sorted@),
            sorted@.to_multiset() == tasks@.subrange(0, i as int).to_multiset(),
        decreases tasks.len() - i,
    {
        let task = tasks[i].clone();
        let pos = find_slot(&sorted, task.period);
        let ghost before = sorted@;
        let ghost prefix = tasks@.subrange(0, i as int);
        sorted.insert(pos, task);
        proof {
            let next = tasks@.subrange(0, i + 1);
            assert(next.drop_last() =~= prefix);
            assert(next =~= prefix.push(task));
            to_multiset_insert(before, pos as int, task);
            to_multiset_build(prefix, task);
        }
        i += 1;
    }
    proof {
        assert(tasks@.subrange(0, i as int) =~= tasks@);
    }
    *tasks = sorted;
}

} // verus!
