//! Laws of the scheduling facade, proved from [`schedule_post`] alone: they
//! hold of any value [`crate::Schedule::schedule`] can return.
use vstd::prelude::*;

use crate::scheduling::assigns;
use crate::scheduling::feasible_task;
use crate::scheduling::schedule_post;
use crate::scheduling::urgency_schedule;
use crate::scheduling::ScheduledTask;
use crate::Error;
use crate::Schedule;
use crate::Task;
use crate::SCHEDULE_DELAY;

verus! {

/// Scheduling an empty task list returns an empty schedule, never an error.
pub proof fn lemma_empty_input_ok(r: Result<Schedule, Error>, start: int)
    requires
        schedule_post(r, Seq::<Task>::empty(), start),
    ensures
        match r {
            Ok(sch) => sch.0@.len() == 0,
            Err(_) => false,
        },
{
}

/// A single task that cannot be finished is reported as `DeadlineMissed`,
/// with the flag telling a deadline at or before the delayed start from one
/// that is later but still unreachable given the task's own duration.
pub proof fn lemma_single_infeasible_reported(r: Result<Schedule, Error>, t: Task, start: int)
    requires
        schedule_post(r, seq![t], start),
        t.duration >= 0,
        t.deadline <= start + (SCHEDULE_DELAY as int) + t.duration,
    ensures
        match r {
            Err(Error::DeadlineMissed(t2, m)) => t2 == t && m == (t.deadline <= start + (
            SCHEDULE_DELAY as int)),
            _ => false,
        },
{
    let tasks = seq![t];
    let lo = start + (SCHEDULE_DELAY as int);
    match r {
        Ok(_) => {
            assert(feasible_task(tasks[0], lo));
        },
        Err(e) => match e {
            Error::DeadlineMissed(t2, m) => {
                let j = choose|j: int|
                    0 <= j < tasks.len() && t2 == #[trigger] tasks[j] && !feasible_task(
                        tasks[j],
                        lo,
                    ) && m == (tasks[j].deadline <= lo);
                assert(j == 0);
            },
            Error::NotEnoughTime(_) => {
                assert(tasks.len() < 2);
            },
            Error::Internal(_) => {},
        },
    }
}

/// Two tasks that each fit alone but together do not fit before the later of
/// their deadlines are reported as `NotEnoughTime` naming one of them.
pub proof fn lemma_two_tasks_out_of_time(r: Result<Schedule, Error>, a: Task, b: Task, start: int)
    requires
        schedule_post(r, seq![a, b], start),
        a.duration >= 0,
        b.duration >= 0,
        feasible_task(a, start + (SCHEDULE_DELAY as int)),
        feasible_task(b, start + (SCHEDULE_DELAY as int)),
        start + (SCHEDULE_DELAY as int) + a.duration + b.duration > a.deadline,
        start + (SCHEDULE_DELAY as int) + a.duration + b.duration > b.deadline,
    ensures
        match r {
            Err(Error::NotEnoughTime(t)) => t == a || t == b,
            _ => false,
        },
{
    let tasks = seq![a, b];
    let lo = start + (SCHEDULE_DELAY as int);
    match r {
        Ok(sch) => {
            // Both tasks sit disjointly at or after the delayed start and each
            // ends by its own deadline; together they then need more room
            // before the later deadline than there is.
            let out = sch.0@;
            let p = choose|p: Seq<int>| #[trigger] assigns(out, tasks, p);
            assert(out[0].task == tasks[p[0]]);
            assert(out[1].task == tasks[p[1]]);
            assert(p[0] != p[1]);
            assert(out[0].when >= lo);
            assert(out[0].when + out[0].task.duration <= out[1].when);
            assert(out[1].when + out[1].task.duration <= out[1].task.deadline);
            assert(out[0].task.duration + out[1].task.duration == a.duration + b.duration);
            assert(false);
        },
        Err(e) => match e {
            Error::DeadlineMissed(_, _) => {
                let j = choose|j: int|
                    0 <= j < tasks.len() && !feasible_task(#[trigger] tasks[j], lo);
                assert(j == 0 || j == 1);
            },
            Error::NotEnoughTime(t) => {
                let j = choose|j: int| 0 <= j < tasks.len() && t == #[trigger] tasks[j];
                assert(j == 0 || j == 1);
            },
            Error::Internal(_) => {},
        },
    }
}

/// The urgency strategy is deterministic: any two schedules that satisfy its
/// exact contract for the same tasks and the same start instant are equal,
/// slot for slot.
pub proof fn lemma_urgency_schedule_unique(
    o1: Seq<ScheduledTask>,
    o2: Seq<ScheduledTask>,
    tasks: Seq<Task>,
    lo: i64,
)
    requires
        urgency_schedule(o1, tasks, lo),
        urgency_schedule(o2, tasks, lo),
    ensures
        o1 == o2,
{
    assert forall|k: int| 0 <= k < o1.len() implies o1[k] == o2[k] by {
        assert(o1[k].task == o2[k].task);
        assert(o1[k].when == o2[k].when);
    }
    assert(o1 =~= o2);
}

} // verus!
