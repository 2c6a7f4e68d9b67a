//! The placement algorithms and the public scheduling facade.
use vstd::prelude::*;

use crate::schedule_tree::can_place_after;
use crate::schedule_tree::can_place_before;
use crate::schedule_tree::entry_ok;
use crate::schedule_tree::contains_idx;
use crate::schedule_tree::wf;
use crate::schedule_tree::Entry;
use crate::schedule_tree::ScheduleTree;
use crate::Error;
use crate::SchedulingStrategy;
use crate::Task;
use crate::valid_task;
use crate::SCHEDULE_DELAY;
use crate::TIME_LIMIT;

verus! {

/// A task bound to its assigned start time: one unit of a finished schedule.
#[derive(Debug, PartialEq, Eq)]
pub struct ScheduledTask {
    pub task: Task,
    pub when: i64,
}

impl ScheduledTask {
    pub fn new(task: Task, when: i64) -> (r: Self)
        ensures
            r.task == task,
            r.when == when,
    {
        ScheduledTask { task, when }
    }
}

/// A finished schedule: scheduled tasks ascending by assigned start time.
#[derive(Debug)]
pub struct Schedule(pub Vec<ScheduledTask>);

/// The task can be finished at all: its deadline leaves room for its duration
/// after the (delayed) start instant `lo`.
pub open spec fn feasible_task(t: Task, lo: int) -> bool {
    t.deadline > lo + t.duration
}

/// The store mirrors the task list: every entry holds a valid task handle,
/// spans exactly that task's duration, ends by its deadline, and starts no
/// earlier than the instant `lo`.
pub open spec fn store_ok(es: Seq<Entry>, tasks: Seq<Task>, lo: int) -> bool {
    &&& wf(es)
    &&& forall|k: int|
        0 <= k < es.len() ==> {
            let e = #[trigger] es[k];
            &&& (e.idx as int) < tasks.len()
            &&& e.end - e.start == tasks[e.idx as int].duration
            &&& e.end <= tasks[e.idx as int].deadline
            &&& e.start >= lo
        }
}

/// Some entry holds the task handle whose numeric value is `j`.
pub open spec fn contains_task(es: Seq<Entry>, j: int) -> bool {
    exists|m: int| 0 <= m < es.len() && ((#[trigger] es[m]).idx as int) == j
}

/// `order` lists each of the `n` task handles exactly once.
pub open spec fn is_task_order(order: Seq<usize>, n: int) -> bool {
    &&& order.len() == n
    &&& forall|k: int| 0 <= k < order.len() ==> (#[trigger] order[k]) < n
    &&& forall|k1: int, k2: int| #![trigger order[k1], order[k2]]
        0 <= k1 < k2 < order.len() ==> order[k1] != order[k2]
    &&& forall|v: int| 0 <= v < n ==> #[trigger] order.contains(v as usize)
}

/// The strict processing order of phase 1: ascending importance; among equal
/// importance, when `by_deadline` is set, tasks with later deadlines first
/// (so more urgent tasks are placed later and hence closer to the present);
/// remaining ties keep the input order.
pub open spec fn task_before(tasks: Seq<Task>, by_deadline: bool, a: int, b: int) -> bool {
    let ta = tasks[a];
    let tb = tasks[b];
    ||| ta.importance < tb.importance
    ||| (ta.importance == tb.importance && by_deadline && tb.deadline < ta.deadline)
    ||| (ta.importance == tb.importance && (!by_deadline || tb.deadline == ta.deadline) && a < b)
}

/// `o` lists every task handle once, in strictly ascending [`task_before`]
/// order: the order in which phase 1 processes the tasks.
pub open spec fn sorted_by(tasks: Seq<Task>, by_deadline: bool, o: Seq<usize>) -> bool {
    &&& is_task_order(o, tasks.len() as int)
    &&& forall|k1: int, k2: int|
        0 <= k1 < k2 < o.len() ==> task_before(tasks, by_deadline, o[k1] as int, o[k2] as int)
}

/// The processing order of a strategy. [`task_before`] is a strict total
/// order, so exactly one such sequence exists (see
/// [`lemma_processing_order_is`]).
pub open spec fn processing_order(tasks: Seq<Task>, by_deadline: bool) -> Seq<usize> {
    choose|o: Seq<usize>| sorted_by(tasks, by_deadline, o)
}

proof fn lemma_sorted_by_unique_prefix(
    tasks: Seq<Task>,
    by_deadline: bool,
    o1: Seq<usize>,
    o2: Seq<usize>,
    i: int,
)
    requires
        sorted_by(tasks, by_deadline, o1),
        sorted_by(tasks, by_deadline, o2),
        0 <= i <= o1.len(),
    ensures
        forall|m: int| 0 <= m < i ==> o1[m] == o2[m],
    decreases i,
{
    if i > 0 {
        lemma_sorted_by_unique_prefix(tasks, by_deadline, o1, o2, i - 1);
        let x = o1[i - 1];
        assert((x as int) < tasks.len());
        assert(o2.contains(((x as int) as usize)));
        let j = choose|j: int| 0 <= j < o2.len() && o2[j] == x;
        if j < i - 1 {
            assert(o1[j] == o2[j]);
        } else if j > i - 1 {
            let y = o2[i - 1];
            assert((y as int) < tasks.len());
            assert(o1.contains(((y as int) as usize)));
            let m = choose|m: int| 0 <= m < o1.len() && o1[m] == y;
            if m < i - 1 {
                assert(o2[m] == o1[m]);
            } else if m == i - 1 {
                assert(o2[j] == o2[i - 1]);
            } else {
                assert(task_before(tasks, by_deadline, x as int, y as int));
                assert(task_before(tasks, by_deadline, y as int, x as int));
            }
        }
        assert(o2[i - 1] == x);
    }
}

/// A sequence sorted by the strict processing order is the processing order.
pub proof fn lemma_processing_order_is(tasks: Seq<Task>, by_deadline: bool, o: Seq<usize>)
    requires
        sorted_by(tasks, by_deadline, o),
    ensures
        processing_order(tasks, by_deadline) == o,
{
    let o2 = processing_order(tasks, by_deadline);
    assert(sorted_by(tasks, by_deadline, o2));
    lemma_sorted_by_unique_prefix(tasks, by_deadline, o, o2, o.len() as int);
    assert(o =~= o2);
}

/// Position `g` is where an entry belongs in the ascending store `es`.
pub open spec fn insert_pos_ok(es: Seq<Entry>, e: Entry, g: int) -> bool {
    &&& 0 <= g <= es.len()
    &&& g == 0 || es[g - 1].end <= e.start
    &&& g == es.len() || e.end <= es[g].start
}

/// A positive-width entry has exactly one place in an ascending store.
proof fn lemma_insert_pos_unique(es: Seq<Entry>, e: Entry, g1: int, g2: int)
    requires
        wf(es),
        e.start < e.end,
        insert_pos_ok(es, e, g1),
        insert_pos_ok(es, e, g2),
    ensures
        g1 == g2,
{
    if g1 < g2 {
        assert(entry_ok(es[g1]));
        assert(entry_ok(es[g2 - 1]));
        assert(es[g1].start <= es[g2 - 1].end) by {
            if g1 < g2 - 1 {
                assert(es[g1].end <= es[g2 - 1].start);
            }
        }
    }
    if g2 < g1 {
        assert(entry_ok(es[g2]));
        assert(entry_ok(es[g1 - 1]));
        assert(es[g2].start <= es[g1 - 1].end) by {
            if g2 < g1 - 1 {
                assert(es[g2].end <= es[g1 - 1].start);
            }
        }
    }
}

/// The latest legal start of a task of duration `d` that must end by
/// `deadline` and may not start before `lo`. Meaningful whenever some legal
/// start exists; [`crate::schedule_tree::ScheduleTree::schedule_close_before`]
/// proves the maximum unique.
pub open spec fn latest_start(es: Seq<Entry>, d: int, deadline: int, lo: i64) -> int {
    choose|s: int|
        can_place_before(es, s, d, deadline, Some(lo)) && forall|s2: int|
            can_place_before(es, s2, d, deadline, Some(lo)) ==> s2 <= s
}

/// The store `es` with `e` inserted at its place in ascending start order.
pub open spec fn sorted_insert(es: Seq<Entry>, e: Entry) -> Seq<Entry> {
    es.insert(choose|g: int| insert_pos_ok(es, e, g), e)
}

/// One deadline-packing step: the task is packed at its latest legal start
/// before its deadline, or `None` when no gap is wide enough.
pub open spec fn pack_step(es: Seq<Entry>, tasks: Seq<Task>, idx: usize, lo: i64) -> Option<
    Seq<Entry>,
> {
    let t = tasks[idx as int];
    let d = t.duration as int;
    if exists|s: int| can_place_before(es, s, d, t.deadline as int, Some(lo)) {
        let st = latest_start(es, d, t.deadline as int, lo);
        Some(sorted_insert(es, Entry { start: st as i64, end: (st + d) as i64, idx }))
    } else {
        None
    }
}

/// The arrangement deadline packing builds after handling the first `k` tasks
/// of the processing order; `None` once a task was infeasible or did not fit.
/// Phase 1 of both strategies computes exactly this fold.
pub open spec fn packing(tasks: Seq<Task>, order: Seq<usize>, lo: i64, k: int) -> Option<
    Seq<Entry>,
>
    decreases k,
{
    if k <= 0 {
        Some(Seq::<Entry>::empty())
    } else {
        match packing(tasks, order, lo, k - 1) {
            None => None,
            Some(es) => {
                if feasible_task(tasks[order[k - 1] as int], lo as int) {
                    pack_step(es, tasks, order[k - 1], lo)
                } else {
                    None
                }
            },
        }
    }
}

proof fn lemma_packing_none_stays(tasks: Seq<Task>, order: Seq<usize>, lo: i64, k1: int, k2: int)
    requires
        packing(tasks, order, lo, k1) is None,
        k1 <= k2,
    ensures
        packing(tasks, order, lo, k2) is None,
    decreases k2 - k1,
{
    if k1 < k2 {
        lemma_packing_none_stays(tasks, order, lo, k1, k2 - 1);
    }
}

/// The packing fold itself turns the named task away: the arrangement it has
/// built of the earlier tasks leaves no wide-enough gap before the task's
/// deadline at or after `lo`.
pub open spec fn packing_blocks(tasks: Seq<Task>, order: Seq<usize>, lo: i64, t: Task) -> bool {
    exists|k: int|
        {
            &&& 0 <= k < order.len()
            &&& t == tasks[#[trigger] order[k] as int]
            &&& match packing(tasks, order, lo, k) {
                Some(es) => forall|s: int|
                    !#[trigger] can_place_before(
                        es,
                        s,
                        tasks[order[k] as int].duration as int,
                        tasks[order[k] as int].deadline as int,
                        Some(lo),
                    ),
                None => false,
            }
        }
}

/// The returned error respects the processing order: the named task is the
/// first one (in [`task_before`] order) that could not be handled. Every task
/// processed before it passed the deadline check, and a `NotEnoughTime`
/// report implies at least one task was already placed ahead of it.
pub open spec fn reported_in_order(e: Error, tasks: Seq<Task>, lo: int, by_deadline: bool) -> bool {
    match e {
        Error::DeadlineMissed(t, m) => exists|j: int|
            {
                &&& 0 <= j < tasks.len()
                &&& t == #[trigger] tasks[j]
                &&& !feasible_task(tasks[j], lo)
                &&& m == (tasks[j].deadline <= lo)
                &&& forall|a: int|
                    0 <= a < tasks.len() && task_before(tasks, by_deadline, a, j)
                        ==> feasible_task(#[trigger] tasks[a], lo)
            },
        Error::NotEnoughTime(t) => exists|j: int|
            {
                &&& 0 <= j < tasks.len()
                &&& t == #[trigger] tasks[j]
                &&& feasible_task(tasks[j], lo)
                &&& exists|a: int| 0 <= a < tasks.len() && #[trigger] task_before(tasks, by_deadline, a, j)
                &&& forall|a: int|
                    0 <= a < tasks.len() && task_before(tasks, by_deadline, a, j)
                        ==> feasible_task(#[trigger] tasks[a], lo)
                &&& blocked_by_predecessors(tasks, j, lo, by_deadline)
            },
        Error::Internal(_) => false,
    }
}

/// The cause of a `NotEnoughTime` report: a valid deadline-packed arrangement
/// of tasks that sort before task `j` exists in which no gap at or after `lo`
/// is wide enough to hold task `j` before its deadline.
pub open spec fn blocked_by_predecessors(
    tasks: Seq<Task>,
    j: int,
    lo: int,
    by_deadline: bool,
) -> bool {
    exists|es: Seq<Entry>|
        {
            &&& wf(es)
            &&& forall|k: int|
                0 <= k < es.len() ==> exists|a: int|
                    {
                        &&& 0 <= a < tasks.len()
                        &&& #[trigger] task_before(tasks, by_deadline, a, j)
                        &&& ((#[trigger] es[k]).idx as int) == a
                        &&& es[k].end - es[k].start == tasks[a].duration
                        &&& es[k].end <= tasks[a].deadline
                        &&& es[k].start >= lo
                    }
            &&& forall|s: int|
                !#[trigger] can_place_before(
                    es,
                    s,
                    tasks[j].duration as int,
                    tasks[j].deadline as int,
                    Some(lo as i64),
                )
        }
}

/// Exec comparison deciding [`task_before`].
fn comes_before(tasks: &Vec<Task>, by_deadline: bool, a: usize, b: usize) -> (r: bool)
    requires
        a < tasks@.len(),
        b < tasks@.len(),
    ensures
        r == task_before(tasks@, by_deadline, a as int, b as int),
{
    let ta = &tasks[a];
    let tb = &tasks[b];
    if ta.importance != tb.importance {
        ta.importance < tb.importance
    } else if by_deadline && ta.deadline != tb.deadline {
        tb.deadline < ta.deadline
    } else {
        a < b
    }
}

/// Inserting keeps every element of a sequence of handles present.
proof fn lemma_insert_keeps_contains(s: Seq<usize>, j: int, v: usize)
    requires
        0 <= j <= s.len(),
    ensures
        forall|x: usize| s.contains(x) ==> #[trigger] s.insert(j, v).contains(x),
        s.insert(j, v).contains(v),
{
    let t = s.insert(j, v);
    assert(t[j] == v);
    assert forall|x: usize| s.contains(x) implies #[trigger] t.contains(x) by {
        let k = choose|k: int| 0 <= k < s.len() && s[k] == x;
        if k < j {
            assert(t[k] == x);
        } else {
            assert(t[k + 1] == x);
        }
    }
}

/// Stable sort of the task handles `0 .. tasks.len()` by the phase-1 key: the
/// result lists every handle once, in strictly ascending [`task_before`]
/// order (input position breaks remaining ties, which makes the sort stable).
#[verifier::loop_isolation(false)]
fn sorted_order(tasks: &Vec<Task>, by_deadline: bool) -> (order: Vec<usize>)
    ensures
        is_task_order(order@, tasks@.len() as int),
        forall|k1: int, k2: int|
            0 <= k1 < k2 < order@.len() ==> task_before(
                tasks@,
                by_deadline,
                order@[k1] as int,
                order@[k2] as int,
            ),
{
    let n = tasks.len();
    let mut order: Vec<usize> = Vec::new();
    let mut i: usize = 0;
    while i < n
        invariant
            0 <= i <= n,
            order@.len() == i,
            forall|k: int| 0 <= k < order@.len() ==> (#[trigger] order@[k]) < i,
            forall|k1: int, k2: int| #![trigger order@[k1], order@[k2]]
                0 <= k1 < k2 < order@.len() ==> order@[k1] != order@[k2],
            forall|v: int| 0 <= v < i ==> #[trigger] order@.contains(v as usize),
            forall|k1: int, k2: int|
                0 <= k1 < k2 < order@.len() ==> task_before(
                    tasks@,
                    by_deadline,
                    order@[k1] as int,
                    order@[k2] as int,
                ),
        decreases n - i,
    {
        let mut j: usize = order.len();
        while j > 0 && comes_before(tasks, by_deadline, i, order[j - 1])
            invariant
                0 <= j <= order@.len(),
                forall|m: int|
                    j <= m < order@.len() ==> task_before(
                        tasks@,
                        by_deadline,
                        i as int,
                        order@[m] as int,
                    ),
            decreases j,
        {
            j -= 1;
        }
        let ghost before = order@;
        order.insert(j, i);
        proof {
            lemma_insert_keeps_contains(before, j as int, i);
            let now = order@;
            assert forall|k1: int, k2: int|
                0 <= k1 < k2 < now.len() implies task_before(
                tasks@,
                by_deadline,
                now[k1] as int,
                now[k2] as int,
            ) by {
                if k1 < j {
                    assert(now[k1] == before[k1]);
                } else if k1 > j {
                    assert(now[k1] == before[k1 - 1]);
                }
                if k2 < j {
                    assert(now[k2] == before[k2]);
                } else if k2 > j {
                    assert(now[k2] == before[k2 - 1]);
                }
                if k2 == j {
                    // Everything left of the insertion point comes before i:
                    // the element just left of it does, and the prefix is
                    // already ordered.
                    assert(!task_before(tasks@, by_deadline, i as int, before[j - 1] as int));
                    assert(before[j - 1] < i);
                    if k1 < j - 1 {
                        assert(task_before(
                            tasks@,
                            by_deadline,
                            before[k1] as int,
                            before[j - 1] as int,
                        ));
                    }
                } else if k1 == j {
                    assert(task_before(tasks@, by_deadline, i as int, before[k2 - 1] as int));
                }
            }
            assert forall|k1: int, k2: int| #![trigger order@[k1], order@[k2]]
                0 <= k1 < k2 < order@.len() implies order@[k1] != order@[k2] by {
                assert(task_before(tasks@, by_deadline, order@[k1] as int, order@[k2] as int));
            }
        }
        i += 1;
    }
    order
}

/// The total duration of the tasks `order[k..]`.
pub open spec fn tail_dur(tasks: Seq<Task>, order: Seq<usize>, k: int) -> int
    decreases order.len() - k,
{
    if k < 0 || k >= order.len() {
        0
    } else {
        tasks[order[k] as int].duration + tail_dur(tasks, order, k + 1)
    }
}

/// The total duration of the tasks a handle sequence names, structurally.
pub open spec fn order_dur(tasks: Seq<Task>, order: Seq<usize>) -> int
    decreases order.len(),
{
    if order.len() == 0 {
        0
    } else {
        tasks[order[0] as int].duration + order_dur(tasks, order.drop_first())
    }
}

proof fn lemma_tail_shift(tasks: Seq<Task>, order: Seq<usize>, k: int)
    requires
        0 <= k,
        order.len() >= 1,
    ensures
        tail_dur(tasks, order.drop_first(), k) == tail_dur(tasks, order, k + 1),
    decreases order.len() - k,
{
    let d = order.drop_first();
    if k < d.len() {
        assert(d[k] == order[k + 1]);
        lemma_tail_shift(tasks, order, k + 1);
    }
}

proof fn lemma_tail_is_order_dur(tasks: Seq<Task>, order: Seq<usize>)
    ensures
        tail_dur(tasks, order, 0) == order_dur(tasks, order),
    decreases order.len(),
{
    if order.len() > 0 {
        lemma_tail_shift(tasks, order, 0);
        lemma_tail_is_order_dur(tasks, order.drop_first());
    }
}

proof fn lemma_order_dur_remove(tasks: Seq<Task>, order: Seq<usize>, m: int)
    requires
        0 <= m < order.len(),
    ensures
        order_dur(tasks, order.remove(m)) == order_dur(tasks, order) - tasks[order[m] as int].duration,
    decreases order.len(),
{
    if m == 0 {
        assert(order.remove(0) =~= order.drop_first());
    } else {
        let tail = order.drop_first();
        lemma_order_dur_remove(tasks, tail, m - 1);
        assert(order.remove(m).drop_first() =~= tail.remove(m - 1));
        assert(order.remove(m)[0] == order[0]);
        assert(tail[m - 1] == order[m]);
    }
}

/// Handle sequences that list the same handles, each once, name the same
/// total duration, whatever their order.
proof fn lemma_same_handles_same_dur(tasks: Seq<Task>, o1: Seq<usize>, o2: Seq<usize>)
    requires
        o1.len() == o2.len(),
        forall|k1: int, k2: int| #![trigger o1[k1], o1[k2]]
            0 <= k1 < k2 < o1.len() ==> o1[k1] != o1[k2],
        forall|k1: int, k2: int| #![trigger o2[k1], o2[k2]]
            0 <= k1 < k2 < o2.len() ==> o2[k1] != o2[k2],
        forall|y: usize| o1.contains(y) <==> #[trigger] o2.contains(y),
    ensures
        order_dur(tasks, o1) == order_dur(tasks, o2),
    decreases o1.len(),
{
    if o1.len() > 0 {
        let x = o1[0];
        assert(o1.contains(x));
        assert(o2.contains(x));
        let m = choose|m: int| 0 <= m < o2.len() && o2[m] == x;
        lemma_order_dur_remove(tasks, o2, m);
        let r1 = o1.drop_first();
        let r2 = o2.remove(m);
        assert forall|k1: int, k2: int| #![trigger r1[k1], r1[k2]]
            0 <= k1 < k2 < r1.len() implies r1[k1] != r1[k2] by {
            assert(r1[k1] == o1[k1 + 1]);
            assert(r1[k2] == o1[k2 + 1]);
        }
        assert forall|k1: int, k2: int| #![trigger r2[k1], r2[k2]]
            0 <= k1 < k2 < r2.len() implies r2[k1] != r2[k2] by {
            let j1 = if k1 < m { k1 } else { k1 + 1 };
            let j2 = if k2 < m { k2 } else { k2 + 1 };
            assert(r2[k1] == o2[j1]);
            assert(r2[k2] == o2[j2]);
        }
        assert forall|y: usize| r1.contains(y) <==> #[trigger] r2.contains(y) by {
            if r1.contains(y) {
                let i = choose|i: int| 0 <= i < r1.len() && r1[i] == y;
                assert(o1[i + 1] == y);
                assert(y != x);
                assert(o2.contains(y));
                let j = choose|j: int| 0 <= j < o2.len() && o2[j] == y;
                assert(j != m);
                if j < m {
                    assert(r2[j] == y);
                } else {
                    assert(r2[j - 1] == y);
                }
            }
            if r2.contains(y) {
                let i = choose|i: int| 0 <= i < r2.len() && r2[i] == y;
                let j = if i < m { i } else { i + 1 };
                assert(o2[j] == y);
                assert(o2.contains(y));
                assert(y != x);
                assert(o1.contains(y));
                let i1 = choose|i1: int| 0 <= i1 < o1.len() && o1[i1] == y;
                assert(i1 != 0);
                assert(r1[i1 - 1] == y);
            }
        }
        lemma_same_handles_same_dur(tasks, r1, r2);
    }
}

/// Any two complete task orders see the same combined duration.
proof fn lemma_task_orders_same_dur(tasks: Seq<Task>, o1: Seq<usize>, o2: Seq<usize>)
    requires
        is_task_order(o1, tasks.len() as int),
        is_task_order(o2, tasks.len() as int),
    ensures
        tail_dur(tasks, o1, 0) == tail_dur(tasks, o2, 0),
{
    lemma_tail_is_order_dur(tasks, o1);
    lemma_tail_is_order_dur(tasks, o2);
    assert forall|y: usize| o1.contains(y) <==> #[trigger] o2.contains(y) by {
        if o1.contains(y) {
            let i = choose|i: int| 0 <= i < o1.len() && o1[i] == y;
            assert((y as int) < tasks.len());
            assert(o2.contains(((y as int) as usize)));
        }
        if o2.contains(y) {
            let i = choose|i: int| 0 <= i < o2.len() && o2[i] == y;
            assert((y as int) < tasks.len());
            assert(o1.contains(((y as int) as usize)));
        }
    }
    lemma_same_handles_same_dur(tasks, o1, o2);
}

/// Every task's deadline leaves room for all tasks at their longest, counted
/// from the delayed start `lo`: under this condition scheduling is owed to
/// succeed, whatever the strategy.
pub open spec fn ample_time(tasks: Seq<Task>, lo: int, per: int) -> bool {
    forall|j: int|
        0 <= j < tasks.len() ==> (#[trigger] tasks[j]).duration <= per && tasks[j].deadline > lo
            + tasks.len() * per
}

/// Every task's deadline clears the combined duration of all tasks.
pub open spec fn slack_ok(tasks: Seq<Task>, order: Seq<usize>, lo: int) -> bool {
    forall|j: int|
        0 <= j < tasks.len() ==> (#[trigger] tasks[j]).deadline > lo + tail_dur(tasks, order, 0)
}

proof fn lemma_tail_dur_nonneg(tasks: Seq<Task>, order: Seq<usize>, k: int)
    requires
        forall|m: int| 0 <= m < order.len() ==> ((#[trigger] order[m]) as int) < tasks.len(),
        forall|j: int| 0 <= j < tasks.len() ==> 0 <= (#[trigger] tasks[j]).duration,
        0 <= k <= order.len(),
    ensures
        tail_dur(tasks, order, k) >= 0,
        forall|k2: int|
            k <= k2 ==> #[trigger] tail_dur(tasks, order, k2) <= tail_dur(tasks, order, k),
    decreases order.len() - k,
{
    if k < order.len() {
        lemma_tail_dur_nonneg(tasks, order, k + 1);
        assert forall|k2: int|
            k <= k2 implies #[trigger] tail_dur(tasks, order, k2) <= tail_dur(tasks, order, k) by {
            if k2 > k {
                assert(tail_dur(tasks, order, k2) <= tail_dur(tasks, order, k + 1));
            }
        }
    }
}

proof fn lemma_tail_dur_bounds(tasks: Seq<Task>, order: Seq<usize>, k: int, per: int)
    requires
        forall|m: int| 0 <= m < order.len() ==> ((#[trigger] order[m]) as int) < tasks.len(),
        forall|j: int| 0 <= j < tasks.len() ==> 0 <= (#[trigger] tasks[j]).duration <= per,
        0 <= k <= order.len(),
    ensures
        0 <= tail_dur(tasks, order, k) <= (order.len() - k) * per,
    decreases order.len() - k,
{
    if k < order.len() {
        lemma_tail_dur_bounds(tasks, order, k + 1, per);
        assert((order.len() - k) * per == per + (order.len() - k - 1) * per) by (nonlinear_arith);
    } else {
        assert((order.len() - k) * per == 0) by (nonlinear_arith)
            requires k == order.len();
    }
}

/// An insertion at the latest legal start, at its unique ascending position,
/// is exactly what the packing fold computes.
#[verifier::rlimit(100)]
#[verifier::spinoff_prover]
proof fn lemma_pack_step_matches(
    before: Seq<Entry>,
    now: Seq<Entry>,
    tasks: Seq<Task>,
    idx: usize,
    g: int,
    lo: i64,
)
    requires
        wf(before),
        wf(now),
        all_durations_positive(tasks),
        (idx as int) < tasks.len(),
        0 <= g <= before.len(),
        now == before.insert(g, now[g]),
        now[g].idx == idx,
        now[g].end - now[g].start == tasks[idx as int].duration,
        can_place_before(
            before,
            now[g].start as int,
            tasks[idx as int].duration as int,
            tasks[idx as int].deadline as int,
            Some(lo),
        ),
        forall|s: int|
            can_place_before(
                before,
                s,
                tasks[idx as int].duration as int,
                tasks[idx as int].deadline as int,
                Some(lo),
            ) ==> s <= now[g].start,
    ensures
        pack_step(before, tasks, idx, lo) == Some(now),
{
    let t = tasks[idx as int];
    let e = now[g];
    let d = t.duration as int;
    let st = latest_start(before, d, t.deadline as int, lo);
    assert(can_place_before(before, st, d, t.deadline as int, Some(lo)) && forall|s2: int|
        can_place_before(before, s2, d, t.deadline as int, Some(lo)) ==> s2 <= st) by {
        assert(can_place_before(before, e.start as int, d, t.deadline as int, Some(lo))
            && forall|s2: int|
            can_place_before(before, s2, d, t.deadline as int, Some(lo)) ==> s2 <= e.start as int);
    }
    assert(st == e.start as int);
    assert(Entry { start: st as i64, end: (st + d) as i64, idx } == e);
    assert(insert_pos_ok(before, e, g)) by {
        if g > 0 {
            assert(now[g - 1] == before[g - 1]);
        }
        if g < before.len() {
            assert(now[g + 1] == before[g]);
        }
    }
    let ghat = choose|g2: int| insert_pos_ok(before, e, g2);
    lemma_insert_pos_unique(before, e, ghat, g);
    assert(sorted_insert(before, e) =~= now);
}

/// A task the fold cannot place makes the whole packing fail, and is recorded
/// as the blocked task.
proof fn lemma_packing_turns_away(
    tasks: Seq<Task>,
    order: Seq<usize>,
    lo: i64,
    k: int,
    before: Seq<Entry>,
)
    requires
        0 <= k < order.len(),
        packing(tasks, order, lo, k) == Some(before),
        forall|s: int|
            !#[trigger] can_place_before(
                before,
                s,
                tasks[order[k] as int].duration as int,
                tasks[order[k] as int].deadline as int,
                Some(lo),
            ),
    ensures
        packing(tasks, order, lo, order.len() as int) is None,
        packing_blocks(tasks, order, lo, tasks[order[k] as int]),
{
    assert(pack_step(before, tasks, order[k], lo) is None);
    assert(packing(tasks, order, lo, k + 1) is None);
    lemma_packing_none_stays(tasks, order, lo, k + 1, order.len() as int);
}

/// When every handle of a complete task order is scheduled and checked, every
/// task is scheduled and feasible.
proof fn lemma_pack_complete(es: Seq<Entry>, tasks: Seq<Task>, order: Seq<usize>, lo: i64, n: usize)
    requires
        n as int == order.len(),
        is_task_order(order, tasks.len() as int),
        forall|j: int| 0 <= j < order.len() ==> contains_idx(es, #[trigger] order[j]),
        forall|j: int|
            0 <= j < order.len() ==> feasible_task(tasks[(#[trigger] order[j]) as int], lo as int),
    ensures
        forall|v: usize| v < tasks.len() ==> contains_idx(es, v),
        forall|j: int| 0 <= j < tasks.len() ==> contains_task(es, j),
        forall|j: int| 0 <= j < tasks.len() ==> feasible_task(#[trigger] tasks[j], lo as int),
{
    assert forall|v: usize| v < tasks.len() implies contains_idx(es, v) by {
        assert(order.contains(((v as int) as usize)));
        let j = choose|j: int| 0 <= j < order.len() && order[j] == v;
        assert(contains_idx(es, order[j]));
    }
    assert forall|j: int| 0 <= j < tasks.len() implies contains_task(es, j) by {
        assert(j < n as int);
        assert(order.contains((j as usize)));
        let m = choose|m: int| 0 <= m < order.len() && order[m] == (j as usize);
        assert(contains_idx(es, order[m]));
        let mm = choose|mm: int| 0 <= mm < es.len() && (#[trigger] es[mm]).idx == order[m];
        assert((es[mm].idx as int) == j);
    }
    assert forall|j: int| 0 <= j < tasks.len() implies feasible_task(
        #[trigger] tasks[j],
        lo as int,
    ) by {
        assert(order.contains(((j as int) as usize)));
        let m = choose|m: int| 0 <= m < order.len() && order[m] == j as usize;
        assert(feasible_task(tasks[order[m] as int], lo as int));
    }
}

impl ScheduleTree {
    /// Phase 1 of both strategies: walk the tasks in the given order and pack
    /// each as late as possible before its deadline, never earlier than `lo`.
    /// Fails fast with `DeadlineMissed` for a task that cannot be finished at
    /// all and with `NotEnoughTime` when no wide-enough gap is left.
    #[verifier::loop_isolation(false)]
    #[verifier::rlimit(100)]
    #[verifier::spinoff_prover]
    fn place_all(
        &mut self,
        lo: i64,
        tasks: &Vec<Task>,
        order: &Vec<usize>,
        Ghost(by_deadline): Ghost<bool>,
    ) -> (r: Result<(), Error>)
        requires
            old(self)@ == Seq::<Entry>::empty(),
            -TIME_LIMIT <= lo <= TIME_LIMIT,
            forall|j: int| 0 <= j < tasks@.len() ==> valid_task(#[trigger] tasks@[j]),
            is_task_order(order@, tasks@.len() as int),
            forall|k1: int, k2: int|
                0 <= k1 < k2 < order@.len() ==> task_before(
                    tasks@,
                    by_deadline,
                    order@[k1] as int,
                    order@[k2] as int,
                ),
        ensures
            slack_ok(tasks@, order@, lo as int) ==> r is Ok,
            all_durations_positive(tasks@) ==> (r is Ok <==> packing(
                tasks@,
                order@,
                lo,
                order@.len() as int,
            ) is Some),
            (all_durations_positive(tasks@) && r is Ok) ==> packing(
                tasks@,
                order@,
                lo,
                order@.len() as int,
            ) == Some(final(self)@),
            match r {
                Err(Error::NotEnoughTime(t)) => all_durations_positive(tasks@)
                    ==> packing_blocks(tasks@, order@, lo, t),
                _ => true,
            },
            match r {
                Err(e) => reported_in_order(e, tasks@, lo as int, by_deadline),
                Ok(_) => true,
            },
            match r {
                Ok(()) => {
                    &&& store_ok(final(self)@, tasks@, lo as int)
                    &&& final(self)@.len() == tasks@.len()
                    &&& forall|v: usize| v < tasks@.len() ==> contains_idx(final(self)@, v)
                    &&& forall|j: int| 0 <= j < tasks@.len() ==> contains_task(final(self)@, j)
                    &&& forall|j: int|
                        0 <= j < tasks@.len() ==> feasible_task(#[trigger] tasks@[j], lo as int)
                },
                Err(e) => match e {
                    Error::DeadlineMissed(t, m) => exists|j: int|
                        0 <= j < tasks@.len() && t == #[trigger] tasks@[j] && !feasible_task(
                            tasks@[j],
                            lo as int,
                        ) && m == (tasks@[j].deadline <= lo),
                    Error::NotEnoughTime(t) => tasks@.len() >= 2 && exists|j: int|
                        0 <= j < tasks@.len() && t == #[trigger] tasks@[j] && feasible_task(
                            tasks@[j],
                            lo as int,
                        ),
                    Error::Internal(_) => false,
                },
            },
    {
        let n = order.len();
        let mut k: usize = 0;
        while k < n
            invariant
                0 <= k <= n,
                store_ok(self@, tasks@, lo as int),
                self@.len() == k,
                forall|j: int| 0 <= j < k ==> contains_idx(self@, #[trigger] order@[j]),
                forall|m: int|
                    0 <= m < self@.len() ==> exists|j: int|
                        0 <= j < k && order@[j] == (#[trigger] self@[m]).idx,
                forall|j: int|
                    0 <= j < k ==> feasible_task(tasks@[(#[trigger] order@[j]) as int], lo as int),
                slack_ok(tasks@, order@, lo as int) ==> (self@.len() > 0 ==> self@[0].start >= lo
                    + tail_dur(tasks@, order@, k as int)),
                all_durations_positive(tasks@) ==> packing(tasks@, order@, lo, k as int) == Some(
                    self@,
                ),
            decreases n - k,
        {
            let idx = order[k];
            proof {
                assert(!contains_idx(self@, idx)) by {
                    if contains_idx(self@, idx) {
                        let m = choose|m: int|
                            0 <= m < self@.len() && (#[trigger] self@[m]).idx == idx;
                        let j = choose|j: int|
                            0 <= j < k && order@[j] == (#[trigger] self@[m]).idx;
                        assert(order@[j] == order@[k as int]);
                    }
                }
            }
            let t = &tasks[idx];
            if t.deadline <= lo + t.duration {
                proof {
                    // Every task that sorts before this one passed the deadline test.
                    assert forall|a: int|
                        0 <= a < tasks@.len() && task_before(tasks@, by_deadline, a, idx as int)
                            implies feasible_task(#[trigger] tasks@[a], lo as int) by {
                        assert(order@.contains(((a as int) as usize)));
                        let m = choose|m: int| 0 <= m < order@.len() && order@[m] == a as usize;
                        if m > k {
                            assert(task_before(tasks@, by_deadline, idx as int, a));
                        } else if m < k {
                            assert(feasible_task(tasks@[order@[m] as int], lo as int));
                        }
                    }
                    // With ample slack this check cannot fire.
                    if slack_ok(tasks@, order@, lo as int) {
                        lemma_tail_dur_nonneg(tasks@, order@, 0);
                        lemma_tail_dur_nonneg(tasks@, order@, k as int + 1);
                        assert(tail_dur(tasks@, order@, k as int) == t.duration + tail_dur(
                            tasks@,
                            order@,
                            k as int + 1,
                        ));
                        assert(t.deadline > lo + tail_dur(tasks@, order@, 0));
                    }
                }
                proof {
                    if all_durations_positive(tasks@) {
                        assert(packing(tasks@, order@, lo, k as int + 1) is None);
                        lemma_packing_none_stays(tasks@, order@, lo, k as int + 1, n as int);
                    }
                }
                return Err(Error::DeadlineMissed(t.clone(), t.deadline <= lo));
            }
            let ghost before = self@;
            let ok = self.schedule_close_before(t.deadline, t.duration, Some(lo), idx);
            if !ok {
                proof {
                    // A first task always fits: the empty store has one gap.
                    if k == 0 {
                        assert(can_place_before(
                            before,
                            t.deadline - t.duration,
                            t.duration as int,
                            t.deadline as int,
                            Some(lo),
                        ));
                    }
                    // With ample slack the slot right before the earliest
                    // entry (or right before the deadline) is always open.
                    if slack_ok(tasks@, order@, lo as int) {
                        lemma_tail_dur_nonneg(tasks@, order@, 0);
                        lemma_tail_dur_nonneg(tasks@, order@, k as int + 1);
                        assert(tail_dur(tasks@, order@, k as int) == t.duration + tail_dur(
                            tasks@,
                            order@,
                            k as int + 1,
                        ));
                        assert(t.deadline > lo + tail_dur(tasks@, order@, 0));
                        let s0: int = if before.len() > 0 && before[0].start < t.deadline {
                            before[0].start - t.duration
                        } else {
                            t.deadline - t.duration
                        };
                        assert(can_place_before(
                            before,
                            s0,
                            t.duration as int,
                            t.deadline as int,
                            Some(lo),
                        )) by {
                            assert forall|m: int|
                                0 <= m < before.len() implies (#[trigger] before[m]).end <= s0 || s0
                                + t.duration <= before[m].start by {
                                if m > 0 {
                                    assert(before[0].end <= before[m].start);
                                }
                            }
                        }
                    }
                }
                proof {
                    // The failing task is feasible, so the store holds at
                    // least one earlier task, and every task that sorts
                    // before this one passed the deadline test.
                    assert(k >= 1);
                    assert(task_before(tasks@, by_deadline, order@[0] as int, idx as int));
                    // The store at this point is a valid arrangement of the
                    // tasks that sort before this one, and it has no gap for
                    // it: that is the reported cause.
                    assert(blocked_by_predecessors(tasks@, idx as int, lo as int, by_deadline))
                        by {
                        let es = before;
                        assert forall|k2: int|
                            0 <= k2 < es.len() implies exists|a: int|
                            {
                                &&& 0 <= a < tasks@.len()
                                &&& #[trigger] task_before(tasks@, by_deadline, a, idx as int)
                                &&& ((#[trigger] es[k2]).idx as int) == a
                                &&& es[k2].end - es[k2].start == tasks@[a].duration
                                &&& es[k2].end <= tasks@[a].deadline
                                &&& es[k2].start >= lo as int
                            } by {
                            let j2 = choose|j2: int|
                                0 <= j2 < k && order@[j2] == (#[trigger] es[k2]).idx;
                            assert(task_before(
                                tasks@,
                                by_deadline,
                                order@[j2] as int,
                                idx as int,
                            ));
                            assert((es[k2].idx as int) == order@[j2] as int);
                        }
                        assert(((lo as int) as i64) == lo);
                        assert forall|s: int|
                            !#[trigger] can_place_before(
                                es,
                                s,
                                tasks@[idx as int].duration as int,
                                tasks@[idx as int].deadline as int,
                                Some(((lo as int) as i64)),
                            ) by {
                            if can_place_before(
                                es,
                                s,
                                tasks@[idx as int].duration as int,
                                tasks@[idx as int].deadline as int,
                                Some(((lo as int) as i64)),
                            ) {
                                assert(can_place_before(
                                    es,
                                    s,
                                    t.duration as int,
                                    t.deadline as int,
                                    Some(lo),
                                ));
                            }
                        }
                    }
                    assert forall|a: int|
                        0 <= a < tasks@.len() && task_before(tasks@, by_deadline, a, idx as int)
                            implies feasible_task(#[trigger] tasks@[a], lo as int) by {
                        assert(order@.contains(((a as int) as usize)));
                        let m = choose|m: int| 0 <= m < order@.len() && order@[m] == a as usize;
                        if m > k {
                            assert(task_before(tasks@, by_deadline, idx as int, a));
                        } else if m < k {
                            assert(feasible_task(tasks@[order@[m] as int], lo as int));
                        }
                    }
                }
                proof {
                    if all_durations_positive(tasks@) {
                        // The fold turns the task away at exactly this point.
                        assert forall|s: int|
                            !#[trigger] can_place_before(
                                before,
                                s,
                                tasks@[idx as int].duration as int,
                                tasks@[idx as int].deadline as int,
                                Some(lo),
                            ) by {
                            if can_place_before(
                                before,
                                s,
                                tasks@[idx as int].duration as int,
                                tasks@[idx as int].deadline as int,
                                Some(lo),
                            ) {
                                assert(can_place_before(
                                    before,
                                    s,
                                    t.duration as int,
                                    t.deadline as int,
                                    Some(lo),
                                ));
                            }
                        }
                        assert(order@[k as int] == idx);
                        lemma_packing_turns_away(tasks@, order@, lo, k as int, before);
                    }
                }
                return Err(Error::NotEnoughTime(t.clone()));
            }
            proof {
                let g = choose|g: int|
                    {
                        &&& 0 <= g <= before.len()
                        &&& self@ == before.insert(g, (#[trigger] self@[g]))
                        &&& self@[g].idx == idx
                        &&& self@[g].end - self@[g].start == t.duration
                        &&& can_place_before(
                            before,
                            self@[g].start as int,
                            t.duration as int,
                            t.deadline as int,
                            Some(lo),
                        )
                        &&& forall|s: int|
                            can_place_before(
                                before,
                                s,
                                t.duration as int,
                                t.deadline as int,
                                Some(lo),
                            ) ==> s <= self@[g].start
                    };
                let now = self@;
                if all_durations_positive(tasks@) {
                    // The placement the verifier chose is the fold's: same
                    // maximal start, same unique position.
                    lemma_pack_step_matches(before, now, tasks@, idx, g, lo);
                    assert(packing(tasks@, order@, lo, k as int + 1) == Some(now));
                }
                // With ample slack the new earliest entry still leaves room
                // for every task not yet placed.
                if slack_ok(tasks@, order@, lo as int) {
                    lemma_tail_dur_nonneg(tasks@, order@, 0);
                    lemma_tail_dur_nonneg(tasks@, order@, k as int + 1);
                    assert(tail_dur(tasks@, order@, k as int) == t.duration + tail_dur(
                        tasks@,
                        order@,
                        k as int + 1,
                    ));
                    assert(t.deadline > lo + tail_dur(tasks@, order@, 0));
                    let s0: int = if before.len() > 0 && before[0].start < t.deadline {
                        before[0].start - t.duration
                    } else {
                        t.deadline - t.duration
                    };
                    assert(can_place_before(
                        before,
                        s0,
                        t.duration as int,
                        t.deadline as int,
                        Some(lo),
                    )) by {
                        assert forall|m: int|
                            0 <= m < before.len() implies (#[trigger] before[m]).end <= s0 || s0
                            + t.duration <= before[m].start by {
                            if m > 0 {
                                assert(before[0].end <= before[m].start);
                            }
                        }
                    }
                    assert(s0 <= now[g].start);
                    if g == 0 {
                        assert(now[0].start >= lo + tail_dur(tasks@, order@, k as int + 1));
                    } else {
                        assert(now[0] == before[0]);
                    }
                }
                assert forall|m: int|
                    0 <= m < now.len() implies {
                    let e = #[trigger] now[m];
                    &&& (e.idx as int) < tasks@.len()
                    &&& e.end - e.start == tasks@[e.idx as int].duration
                    &&& e.end <= tasks@[e.idx as int].deadline
                    &&& e.start >= lo
                } by {
                    if m < g {
                        assert(now[m] == before[m]);
                    } else if m > g {
                        assert(now[m] == before[m - 1]);
                    }
                }
                assert forall|j: int| 0 <= j < k + 1 implies contains_idx(
                    now,
                    #[trigger] order@[j],
                ) by {
                    if j < k {
                        let m = choose|m: int|
                            0 <= m < before.len() && (#[trigger] before[m]).idx == order@[j];
                        if m < g {
                            assert(now[m] == before[m]);
                        } else {
                            assert(now[m + 1] == before[m]);
                        }
                    } else {
                        assert(now[g].idx == order@[j]);
                    }
                }
                assert forall|m: int|
                    0 <= m < now.len() implies exists|j: int|
                    0 <= j < k + 1 && order@[j] == (#[trigger] now[m]).idx by {
                    if m < g {
                        assert(now[m] == before[m]);
                    } else if m > g {
                        assert(now[m] == before[m - 1]);
                    } else {
                        assert(order@[k as int] == now[m].idx);
                    }
                }
            }
            k += 1;
        }
        proof {
            lemma_pack_complete(self@, tasks@, order@, lo, n);
        }
        Ok(())
    }
}

/// Phase 2 moves an entry only toward the present: the task handle, the
/// duration and the instant floor are kept, and the end never grows.
pub open spec fn entry_refines(o: Entry, n: Entry, lo: int) -> bool {
    &&& n.idx == o.idx
    &&& n.end - n.start == o.end - o.start
    &&& n.end <= o.end
    &&& n.start >= lo
}

/// One pull-forward step in full positional detail: the entry for `idx`
/// stood at position `kr` with start `old_s`, was removed, and was re-placed
/// at position `g` with start `new_s`, the earliest possible one.
pub open spec fn pull_one_step(
    pre: Seq<Entry>,
    now: Seq<Entry>,
    idx: usize,
    old_s: i64,
    new_s: i64,
    kr: int,
    g: int,
    lo: i64,
) -> bool {
    let d = pre[kr].end - pre[kr].start;
    &&& 0 <= kr < pre.len()
    &&& pre[kr].idx == idx
    &&& pre[kr].start == old_s
    &&& 0 <= g <= pre.len() - 1
    &&& now == pre.remove(kr).insert(g, now[g])
    &&& now[g].idx == idx
    &&& now[g].start == new_s
    &&& now[g].end - now[g].start == d
    &&& can_place_after(pre.remove(kr), new_s as int, d, lo as int, Some(pre[kr].end))
    &&& forall|s: int|
        can_place_after(pre.remove(kr), s, d, lo as int, Some(pre[kr].end)) ==> new_s <= s
}

/// The total duration of the first `k` entries.
pub open spec fn prefix_dur(es: Seq<Entry>, k: int) -> int
    decreases k,
{
    if k <= 0 {
        0
    } else {
        prefix_dur(es, k - 1) + (es[k - 1].end - es[k - 1].start)
    }
}

/// Every entry spans at least one time unit.
pub open spec fn all_positive(es: Seq<Entry>) -> bool {
    forall|k: int| 0 <= k < es.len() ==> (#[trigger] es[k]).end - es[k].start >= 1
}

proof fn lemma_prefix_mono(es: Seq<Entry>, a: int, b: int)
    requires
        forall|k: int| 0 <= k < es.len() ==> (#[trigger] es[k]).start <= es[k].end,
        0 <= a <= b <= es.len(),
    ensures
        prefix_dur(es, a) <= prefix_dur(es, b),
    decreases b - a,
{
    if a < b {
        lemma_prefix_mono(es, a, b - 1);
    }
}

/// Disjoint entries at or after `lo` leave room for the durations of all
/// earlier entries before each entry's start.
proof fn lemma_prefix_fits(es: Seq<Entry>, lo: int, j: int)
    requires
        wf(es),
        forall|k: int| 0 <= k < es.len() ==> (#[trigger] es[k]).start >= lo,
        0 <= j < es.len(),
    ensures
        lo + prefix_dur(es, j) <= es[j].start,
    decreases j,
{
    if j > 0 {
        lemma_prefix_fits(es, lo, j - 1);
    }
}

/// A time point below the packed prefix's upper edge lies inside one of the
/// packed slots.
proof fn lemma_prefix_locate(es: Seq<Entry>, lo: int, j: int, s: int)
    requires
        0 <= j <= es.len(),
        lo <= s,
        s < lo + prefix_dur(es, j),
        forall|k: int| 0 <= k < es.len() ==> (#[trigger] es[k]).start <= es[k].end,
    ensures
        exists|m: int|
            0 <= m < j && lo + prefix_dur(es, m) <= s && s < lo + prefix_dur(es, #[trigger] (m + 1)),
    decreases j,
{
    if s >= lo + prefix_dur(es, j - 1) {
        assert(lo + prefix_dur(es, j - 1) <= s && s < lo + prefix_dur(es, (j - 1) + 1));
    } else {
        lemma_prefix_locate(es, lo, j - 1, s);
    }
}

/// Entry `k` sits as early as its surroundings allow: removing it and
/// re-placing it at or after `lo`, without letting it end later than it does,
/// cannot yield an earlier start.
pub open spec fn min_placed(es: Seq<Entry>, k: int, lo: i64) -> bool {
    forall|s: int|
        #[trigger] can_place_after(es.remove(k), s, es[k].end - es[k].start, lo as int, Some(es[k].end))
            ==> es[k].start <= s
}

/// Everything one pull-forward step guarantees: well-formedness and the task
/// set are kept, the touched entry moved no later than it was (never before
/// `lo`), each entry still refines one of the previous ones, the total slack
/// shrank by exactly the move, the step's positions are recorded, and a step
/// that found the same start changed nothing.
pub open spec fn pull_one_post(
    pre: Seq<Entry>,
    now: Seq<Entry>,
    idx: usize,
    old_s: i64,
    new_s: i64,
    lo: i64,
) -> bool {
    &&& wf(now)
    &&& now.len() == pre.len()
    &&& lo <= new_s <= old_s
    &&& forall|x: usize| contains_idx(pre, x) ==> contains_idx(now, x)
    &&& forall|k: int|
        0 <= k < now.len() ==> exists|k0: int|
            0 <= k0 < pre.len() && entry_refines(pre[k0], #[trigger] now[k], lo as int)
    &&& forall|k: int| 0 <= k < now.len() ==> (#[trigger] now[k]).start >= lo
    &&& sum_excess(now, lo as int) == sum_excess(pre, lo as int) - (old_s - new_s)
    &&& exists|kr: int, g: int| pull_one_step(pre, now, idx, old_s, new_s, kr, g, lo)
    &&& (all_positive(pre) && new_s == old_s) ==> stable_step(pre, now, idx, lo)
}

/// A re-placement that found the same start changed nothing, and the entry it
/// touched cannot move earlier.
pub open spec fn stable_step(pre: Seq<Entry>, now: Seq<Entry>, idx: usize, lo: i64) -> bool {
    &&& now == pre
    &&& exists|kk: int|
        0 <= kk < pre.len() && (#[trigger] pre[kk]).idx == idx && min_placed(pre, kk, lo)
}

/// `now` is `mid` with the same tasks in the same relative order, compacted:
/// entry `k` starts at `lo` plus the total duration of the entries before it.
pub open spec fn compaction_of(now: Seq<Entry>, mid: Seq<Entry>, lo: i64) -> bool {
    &&& now.len() == mid.len()
    &&& forall|k: int|
        0 <= k < now.len() ==> (#[trigger] now[k]).idx == mid[k].idx && now[k].start == lo
            + prefix_dur(mid, k)
}

/// Every task takes at least one time unit.
pub open spec fn all_durations_positive(tasks: Seq<Task>) -> bool {
    forall|j: int| 0 <= j < tasks.len() ==> (#[trigger] tasks[j]).duration >= 1
}

/// The entries sit back to back: the first at `lo`, each next one starting
/// exactly where the previous one ends.
pub open spec fn packed(es: Seq<Entry>, lo: i64) -> bool {
    &&& es.len() > 0 ==> es[0].start == lo
    &&& forall|k: int| 1 <= k < es.len() ==> (#[trigger] es[k]).start == es[k - 1].end
}

/// A store in which no entry can move earlier is packed back to back from
/// `lo` on: any gap would let the entry behind it slide left.
proof fn lemma_min_placed_packed(es: Seq<Entry>, lo: i64)
    requires
        wf(es),
        forall|k: int| 0 <= k < es.len() ==> (#[trigger] es[k]).start >= lo,
        forall|k: int| 0 <= k < es.len() ==> #[trigger] min_placed(es, k, lo),
    ensures
        packed(es, lo),
{
    if es.len() > 0 {
        assert(min_placed(es, 0, lo));
        assert(can_place_after(
            es.remove(0),
            lo as int,
            es[0].end - es[0].start,
            lo as int,
            Some(es[0].end),
        )) by {
            assert forall|m: int|
                0 <= m < es.remove(0).len() implies (#[trigger] es.remove(0)[m]).end <= lo as int
                || lo + (es[0].end - es[0].start) <= es.remove(0)[m].start by {
                assert(es.remove(0)[m] == es[m + 1]);
                assert(es[0].end <= es[m + 1].start);
            }
        }
    }
    assert forall|k: int| 1 <= k < es.len() implies (#[trigger] es[k]).start == es[k - 1].end by {
        assert(min_placed(es, k, lo));
        let d = es[k].end - es[k].start;
        assert(can_place_after(es.remove(k), es[k - 1].end as int, d, lo as int, Some(es[k].end)))
            by {
            assert forall|m: int|
                0 <= m < es.remove(k).len() implies (#[trigger] es.remove(k)[m]).end <= es[k
                - 1].end as int || es[k - 1].end + d <= es.remove(k)[m].start by {
                if m < k {
                    assert(es.remove(k)[m] == es[m]);
                    assert(es[m].end <= es[k - 1].end) by {
                        if m < k - 1 {
                            assert(es[m].end <= es[k - 1].start);
                        }
                    }
                } else {
                    assert(es.remove(k)[m] == es[m + 1]);
                    assert(es[k].end <= es[m + 1].start);
                }
            }
        }
    }
}

/// Total slack of a store above the instant `lo`: the sum over all entries of
/// `start - lo`. It is the termination measure of the pull-forward pass.
pub open spec fn sum_excess(es: Seq<Entry>, lo: int) -> int
    decreases es.len(),
{
    if es.len() == 0 {
        0
    } else {
        (es[0].start - lo) + sum_excess(es.drop_first(), lo)
    }
}

proof fn lemma_sum_excess_remove(es: Seq<Entry>, k: int, lo: int)
    requires
        0 <= k < es.len(),
    ensures
        sum_excess(es.remove(k), lo) == sum_excess(es, lo) - (es[k].start - lo),
    decreases es.len(),
{
    if k == 0 {
        assert(es.remove(0) =~= es.drop_first());
    } else {
        let tail = es.drop_first();
        lemma_sum_excess_remove(tail, k - 1, lo);
        assert(es.remove(k).drop_first() =~= tail.remove(k - 1));
        assert(es.remove(k)[0] == es[0]);
        assert(tail[k - 1] == es[k]);
    }
}

proof fn lemma_sum_excess_insert(es: Seq<Entry>, k: int, e: Entry, lo: int)
    requires
        0 <= k <= es.len(),
    ensures
        sum_excess(es.insert(k, e), lo) == sum_excess(es, lo) + (e.start - lo),
    decreases es.len(),
{
    if k == 0 {
        assert(es.insert(0, e).drop_first() =~= es);
        assert(es.insert(0, e)[0] == e);
    } else {
        let tail = es.drop_first();
        lemma_sum_excess_insert(tail, k - 1, e, lo);
        assert(es.insert(k, e)[0] == es[0]);
        assert(es.insert(k, e).drop_first() =~= tail.insert(k - 1, e));
    }
}

proof fn lemma_sum_excess_nonneg(es: Seq<Entry>, lo: int)
    requires
        forall|k: int| 0 <= k < es.len() ==> (#[trigger] es[k]).start >= lo,
    ensures
        sum_excess(es, lo) >= 0,
    decreases es.len(),
{
    if es.len() > 0 {
        let tail = es.drop_first();
        assert forall|k: int| 0 <= k < tail.len() implies (#[trigger] tail[k]).start >= lo by {
            assert(tail[k] == es[k + 1]);
        }
        lemma_sum_excess_nonneg(tail, lo);
    }
}

impl ScheduleTree {
    /// One pull-forward step: unschedules the entry holding `idx` and
    /// re-places it as early as possible at or after `lo` without letting it
    /// end later than it did. Returns the old and the new start time. The old
    /// slot is always available again, so the step cannot fail; the dead
    /// error paths below are each proved unreachable.
    #[verifier::rlimit(100)]
    #[verifier::spinoff_prover]
    fn pull_one(&mut self, lo: i64, idx: usize) -> (r: Result<(i64, i64), Error>)
        requires
            wf(old(self)@),
            -TIME_LIMIT <= lo <= TIME_LIMIT,
            contains_idx(old(self)@, idx),
            forall|k: int| 0 <= k < old(self)@.len() ==> (#[trigger] old(self)@[k]).start >= lo,
        ensures
            match r {
                Ok((old_s, new_s)) => pull_one_post(
                    old(self)@,
                    final(self)@,
                    idx,
                    old_s,
                    new_s,
                    lo,
                ),
                Err(_) => false,
            },
    {
        let ghost pre = self@;
        let rem = match self.unschedule(idx) {
            Some(e) => e,
            None => {
                return Err(Error::Internal("a scheduled task could not be unscheduled".to_owned()));
            },
        };
        let ghost kr = choose|kr: int|
            0 <= kr < pre.len() && (#[trigger] pre[kr]) == rem && rem.idx == idx && self@
                == pre.remove(kr);
        let ghost mid = self@;
        proof {
            assert(entry_ok(pre[kr]));
            crate::schedule_tree::lemma_removed_slot_free(pre, kr);
            lemma_sum_excess_remove(pre, kr, lo as int);
            assert(!contains_idx(mid, idx)) by {
                if contains_idx(mid, idx) {
                    let m = choose|m: int| 0 <= m < mid.len() && (#[trigger] mid[m]).idx == idx;
                    let m0 = if m < kr {
                        m
                    } else {
                        m + 1
                    };
                    assert(mid[m] == pre[m0]);
                    assert(pre[m0].idx == pre[kr].idx);
                }
            }
        }
        let dur = rem.end - rem.start;
        let ok = self.schedule_close_after(lo, dur, Some(rem.end), idx);
        if !ok {
            proof {
                assert(can_place_after(mid, rem.start as int, dur as int, lo as int, Some(rem.end)));
            }
            return Err(Error::Internal("a task could not be rescheduled".to_owned()));
        }
        proof {
            assert(can_place_after(mid, rem.start as int, dur as int, lo as int, Some(rem.end)));
        }
        let ghost g = choose|g: int|
            {
                &&& 0 <= g <= mid.len()
                &&& self@ == mid.insert(g, (#[trigger] self@[g]))
                &&& self@[g].idx == idx
                &&& self@[g].end - self@[g].start == dur
                &&& can_place_after(mid, self@[g].start as int, dur as int, lo as int, Some(rem.end))
                &&& forall|s: int|
                    can_place_after(mid, s, dur as int, lo as int, Some(rem.end)) ==> self@[g].start
                        <= s
            };
        let new_start = match self.when_scheduled(idx) {
            Some(t) => t,
            None => {
                proof {
                    assert(self@[g].idx == idx);
                }
                return Err(
                    Error::Internal("a task that was just scheduled could not be found".to_owned()),
                );
            },
        };
        proof {
            let now = self@;
            lemma_sum_excess_insert(mid, g, now[g], lo as int);
            // The looked-up start belongs to the entry just inserted: task
            // handles are unique in a well-formed store.
            let kk = choose|kk: int|
                0 <= kk < now.len() && (#[trigger] now[kk]).idx == idx && now[kk].start
                    == new_start;
            assert(kk == g) by {
                if kk != g {
                    let m0 = if kk < g {
                        kk
                    } else {
                        kk - 1
                    };
                    assert(now[kk] == mid[m0]);
                    assert(contains_idx(mid, idx));
                }
            }
            // The new placement is no later than the old one: the old slot is
            // free again, and the chosen start is the earliest possible.
            assert(now[g].start <= rem.start);
            // Every handle that was present is still present.
            assert forall|x: usize| contains_idx(pre, x) implies contains_idx(now, x) by {
                let m = choose|m: int| 0 <= m < pre.len() && (#[trigger] pre[m]).idx == x;
                if m == kr {
                    assert(now[g].idx == x);
                } else {
                    let mm = if m < kr {
                        m
                    } else {
                        m - 1
                    };
                    assert(mid[mm] == pre[m]);
                    if mm < g {
                        assert(now[mm] == mid[mm]);
                    } else {
                        assert(now[mm + 1] == mid[mm]);
                    }
                }
            }
            // Every entry refines one of the old entries.
            assert forall|k: int| 0 <= k < now.len() implies exists|k0: int|
                0 <= k0 < pre.len() && entry_refines(pre[k0], #[trigger] now[k], lo as int) by {
                if k == g {
                    assert(entry_refines(pre[kr], now[g], lo as int));
                } else {
                    let mm = if k < g {
                        k
                    } else {
                        k - 1
                    };
                    assert(now[k] == mid[mm]);
                    let m0 = if mm < kr {
                        mm
                    } else {
                        mm + 1
                    };
                    assert(mid[mm] == pre[m0]);
                    assert(entry_refines(pre[m0], now[k], lo as int));
                }
            }
        }
        proof {
            assert(pull_one_step(pre, self@, idx, rem.start, new_start, kr, g, lo));
            if all_positive(pre) && new_start == rem.start {
                // The entry went back exactly where it came from: with a
                // positive width, any other position would break the order.
                assert(pre[kr].end - pre[kr].start >= 1);
                assert(g == kr) by {
                    if g < kr {
                        assert(self@[g + 1] == mid.insert(g, self@[g])[g + 1]);
                        assert(self@[g + 1] == mid[g]);
                        assert(mid[g] == pre[g]);
                        assert(pre[g].end <= pre[kr].start);
                        assert(self@[g].end <= self@[g + 1].start);
                    }
                    if g > kr {
                        assert(self@[g - 1] == mid.insert(g, self@[g])[g - 1]);
                        assert(self@[g - 1] == mid[g - 1]);
                        assert(mid[g - 1] == pre[g]);
                        assert(pre[kr].end <= pre[g].start);
                        assert(self@[g - 1].end <= self@[g].start);
                    }
                }
                assert(self@[g] == pre[kr]);
                assert(self@ =~= pre);
                assert(self@ == pre);
                assert(min_placed(pre, kr, lo)) by {
                    assert(pre.remove(kr) == mid);
                    assert forall|s: int|
                        #[trigger] can_place_after(
                            pre.remove(kr),
                            s,
                            pre[kr].end - pre[kr].start,
                            lo as int,
                            Some(pre[kr].end),
                        ) implies pre[kr].start <= s by {
                        assert(can_place_after(mid, s, dur as int, lo as int, Some(rem.end)));
                    }
                }
                assert(stable_step(pre, self@, idx, lo)) by {
                    assert(pre[kr].idx == idx && min_placed(pre, kr, lo));
                }
            }
            assert(wf(self@));
            assert(self@.len() == pre.len());
            assert(lo <= new_start <= rem.start);
            assert(sum_excess(self@, lo as int) == sum_excess(pre, lo as int) - (rem.start
                - new_start));
            assert forall|k2: int| 0 <= k2 < self@.len() implies (#[trigger] self@[k2]).start
                >= lo by {}
            assert(pull_one_post(pre, self@, idx, rem.start, new_start, lo));
        }
        Ok((rem.start, new_start))
    }

    /// Phase 2 of the importance strategy: repeatedly walk the tasks from the
    /// most important to the least important, pulling each as close to `lo`
    /// as its surroundings allow, until a full pass changes nothing. Each
    /// changing pass strictly lowers the total slack above `lo`, so the fixed
    /// point is reached after finitely many passes.
    #[verifier::loop_isolation(false)]
    #[verifier::rlimit(100)]
    #[verifier::spinoff_prover]
    fn pull_forward(
        &mut self,
        lo: i64,
        order: &Vec<usize>,
        Ghost(tasks): Ghost<Seq<Task>>,
    ) -> (r: Result<(), Error>)
        requires
            store_ok(old(self)@, tasks, lo as int),
            -TIME_LIMIT <= lo <= TIME_LIMIT,
            forall|j: int|
                0 <= j < order@.len() ==> contains_idx(old(self)@, #[trigger] order@[j]),
        ensures
            match r {
                Ok(()) => {
                    &&& store_ok(final(self)@, tasks, lo as int)
                    &&& final(self)@.len() == old(self)@.len()
                    &&& forall|x: usize|
                        contains_idx(old(self)@, x) ==> contains_idx(final(self)@, x)
                    &&& all_positive(old(self)@) ==> forall|j: int|
                        #![trigger order@[j]]
                        0 <= j < order@.len() ==> exists|kk: int|
                            0 <= kk < final(self)@.len() && (#[trigger] final(self)@[kk]).idx
                                == order@[j] && min_placed(final(self)@, kk, lo)
                },
                Err(_) => false,
            },
    {
        let ghost orig = old(self)@;
        let n = order.len();
        proof {
            lemma_sum_excess_nonneg(orig, lo as int);
            if self@.len() == 0 && n > 0 {
                assert(contains_idx(self@, order@[0]));
            }
        }
        let mut changed = !self.is_empty();
        while changed
            invariant
                store_ok(self@, tasks, lo as int),
                self@.len() == orig.len(),
                forall|x: usize| contains_idx(orig, x) ==> contains_idx(self@, x),
                sum_excess(self@, lo as int) >= 0,
                all_positive(orig) ==> all_positive(self@),
                (!changed && all_positive(orig)) ==> forall|j: int|
                    #![trigger order@[j]]
                    0 <= j < n ==> exists|kk: int|
                        0 <= kk < self@.len() && (#[trigger] self@[kk]).idx == order@[j]
                            && min_placed(self@, kk, lo),
            decreases sum_excess(self@, lo as int) + if changed {
                1int
            } else {
                0int
            },
        {
            changed = false;
            let ghost sum0 = sum_excess(self@, lo as int);
            let mut k = n;
            while k > 0 && !changed
                invariant
                    0 <= k <= n,
                    store_ok(self@, tasks, lo as int),
                    self@.len() == orig.len(),
                    forall|x: usize| contains_idx(orig, x) ==> contains_idx(self@, x),
                    sum_excess(self@, lo as int) <= sum0,
                    changed ==> sum_excess(self@, lo as int) < sum0,
                    all_positive(orig) ==> all_positive(self@),
                    (!changed && all_positive(orig)) ==> forall|j: int|
                        #![trigger order@[j]]
                        k <= j < n ==> exists|kk: int|
                            0 <= kk < self@.len() && (#[trigger] self@[kk]).idx == order@[j]
                                && min_placed(self@, kk, lo),
                decreases k,
            {
                k -= 1;
                let idx = order[k];
                let ghost pre = self@;
                proof {
                    assert(contains_idx(orig, order@[k as int]));
                    assert(contains_idx(pre, idx));
                    assert forall|m: int| 0 <= m < pre.len() implies (#[trigger] pre[m]).start
                        >= lo by {}
                }
                let (old_s, new_s) = match self.pull_one(lo, idx) {
                    Ok(pair) => pair,
                    Err(e) => {
                        return Err(e);
                    },
                };
                if new_s != old_s {
                    changed = true;
                }
                proof {
                    lemma_refined_store_ok(pre, self@, tasks, lo as int);
                    assert forall|x: usize| contains_idx(orig, x) implies contains_idx(
                        self@,
                        x,
                    ) by {
                        assert(contains_idx(pre, x));
                    }
                    if all_positive(orig) {
                        // Durations are preserved, so entries stay positive.
                        assert forall|m: int|
                            0 <= m < self@.len() implies (#[trigger] self@[m]).end - self@[m].start
                            >= 1 by {
                            let k0 = choose|k0: int|
                                0 <= k0 < pre.len() && entry_refines(
                                    pre[k0],
                                    self@[m],
                                    lo as int,
                                );
                            assert(pre[k0].end - pre[k0].start >= 1);
                        }
                        if !changed {
                            // Nothing moved: the store is as it was, and the
                            // task just touched cannot move earlier.
                            assert(stable_step(pre, self@, idx, lo));
                            assert(self@ == pre);
                            assert forall|j: int| #![trigger order@[j]]
                                k as int <= j < n implies exists|kk: int|
                                0 <= kk < self@.len() && (#[trigger] self@[kk]).idx == order@[j]
                                    && min_placed(self@, kk, lo) by {
                                if j == k as int {
                                    let kk = choose|kk: int|
                                        0 <= kk < pre.len() && (#[trigger] pre[kk]).idx == idx
                                            && min_placed(pre, kk, lo);
                                    assert(self@[kk].idx == order@[j] && min_placed(
                                        self@,
                                        kk,
                                        lo,
                                    ));
                                }
                            }
                        }
                    }
                }
            }
            proof {
                lemma_sum_excess_nonneg(self@, lo as int);
            }
        }
        Ok(())
    }

    /// Phase 2 of the urgency strategy: one pass over the entries in their
    /// current start-time order, pulling each as close to `lo` as its
    /// surroundings allow. A single pass suffices.
    ///
    /// Order preservation: when every entry spans at least one time unit, the
    /// pass keeps the relative order established by phase 1 — entry `k` still
    /// holds the `k`-th task of the old arrangement — and packs the entries
    /// back to back from `lo` on.
    #[verifier::loop_isolation(false)]
    pub fn compact(&mut self, lo: i64, Ghost(tasks): Ghost<Seq<Task>>) -> (r: Result<(), Error>)
        requires
            store_ok(old(self)@, tasks, lo as int),
            -TIME_LIMIT <= lo <= TIME_LIMIT,
        ensures
            match r {
                Ok(()) => {
                    &&& store_ok(final(self)@, tasks, lo as int)
                    &&& final(self)@.len() == old(self)@.len()
                    &&& forall|x: usize|
                        contains_idx(old(self)@, x) ==> contains_idx(final(self)@, x)
                    &&& all_positive(old(self)@) ==> forall|k: int|
                        0 <= k < final(self)@.len() ==> (#[trigger] final(self)@[k]).idx
                            == old(self)@[k].idx && final(self)@[k].start == lo + prefix_dur(
                            old(self)@,
                            k,
                        )
                },
                Err(_) => false,
            },
    {
        let ghost orig = old(self)@;
        // Snapshot the entries in their current order; the pass below walks
        // the snapshot while the store changes under it.
        let snapshot = self.entries_vec();
        let n = snapshot.len();
        let mut j: usize = 0;
        while j < n
            invariant
                0 <= j <= n,
                store_ok(self@, tasks, lo as int),
                self@.len() == orig.len(),
                forall|x: usize| contains_idx(orig, x) ==> contains_idx(self@, x),
                all_positive(orig) ==> {
                    &&& forall|m: int|
                        0 <= m < j ==> (#[trigger] self@[m]).idx == orig[m].idx && self@[m].start
                            == lo + prefix_dur(orig, m) && self@[m].end - self@[m].start
                            == orig[m].end - orig[m].start
                    &&& forall|m: int| j <= m < orig.len() ==> #[trigger] self@[m] == orig[m]
                },
            decreases n - j,
        {
            let idx = snapshot[j].idx;
            let ghost pre = self@;
            proof {
                assert(orig[j as int].idx == idx);
                assert(contains_idx(orig, idx));
                assert(contains_idx(pre, idx));
                assert forall|m: int| 0 <= m < pre.len() implies (#[trigger] pre[m]).start
                    >= lo by {}
            }
            let (old_s, new_s) = match self.pull_one(lo, idx) {
                Ok(pair) => pair,
                Err(e) => {
                    return Err(e);
                },
            };
            proof {
                lemma_refined_store_ok(pre, self@, tasks, lo as int);
                assert forall|x: usize| contains_idx(orig, x) implies contains_idx(self@, x) by {
                    assert(contains_idx(pre, x));
                }
                if all_positive(orig) {
                    lemma_compact_step(orig, pre, self@, idx, old_s, new_s, j as int, lo);
                }
            }
            j += 1;
        }
        Ok(())
    }

    /// The importance-first strategy: phase 1 packs every task as late as its
    /// deadline allows, walking tasks by ascending importance (more urgent
    /// last among equals); phase 2 then repeatedly pulls tasks toward the
    /// present, most important first, until nothing moves.
    ///
    /// Several clauses below hold under `all_durations_positive`: a
    /// zero-width entry can share an instant with its neighbours, so for task
    /// sets containing one, the store's order at such ties — and with it the
    /// packing fold — is not uniquely determined. The safety clauses of
    /// [`algorithm_post`] hold for zero durations too.
    pub fn schedule_according_to_importance(&mut self, lo: i64, tasks: &Vec<Task>) -> (r: Result<
        (),
        Error,
    >)
        requires
            old(self)@ == Seq::<Entry>::empty(),
            -TIME_LIMIT <= lo <= TIME_LIMIT,
            forall|j: int| 0 <= j < tasks@.len() ==> valid_task(#[trigger] tasks@[j]),
        ensures
            algorithm_post(r, final(self)@, tasks@, lo as int),
            forall|per: int| ample_time(tasks@, lo as int, per) ==> r is Ok,
            forall|o2: Seq<usize>|
                is_task_order(o2, tasks@.len() as int) && #[trigger] slack_ok(
                    tasks@,
                    o2,
                    lo as int,
                ) ==> r is Ok,
            match r {
                Err(e) => reported_in_order(e, tasks@, lo as int, true),
                Ok(_) => true,
            },
            (r is Ok && all_durations_positive(tasks@)) ==> forall|k: int|
                0 <= k < final(self)@.len() ==> #[trigger] min_placed(final(self)@, k, lo),
            (r is Ok && all_durations_positive(tasks@)) ==> packed(final(self)@, lo),
            all_durations_positive(tasks@) ==> (r is Ok <==> packing(
                tasks@,
                processing_order(tasks@, true),
                lo,
                tasks@.len() as int,
            ) is Some),
            match r {
                Err(Error::NotEnoughTime(t)) => all_durations_positive(tasks@)
                    ==> packing_blocks(tasks@, processing_order(tasks@, true), lo, t),
                _ => true,
            },
    {
        let order = sorted_order(tasks, true);
        proof {
            assert(sorted_by(tasks@, true, order@));
            lemma_processing_order_is(tasks@, true, order@);
        }
        match self.place_all(lo, tasks, &order, Ghost(true)) {
            Ok(()) => {},
            Err(e) => {
                proof {
                    // With ample time, the packing phase cannot have failed —
                    // whichever enumeration of the tasks measures the slack.
                    assert forall|per: int| !ample_time(tasks@, lo as int, per) by {
                        if ample_time(tasks@, lo as int, per) {
                            lemma_tail_dur_bounds(tasks@, order@, 0, per);
                            assert(slack_ok(tasks@, order@, lo as int));
                        }
                    }
                    assert forall|o2: Seq<usize>|
                        !(is_task_order(o2, tasks@.len() as int) && #[trigger] slack_ok(
                            tasks@,
                            o2,
                            lo as int,
                        )) by {
                        if is_task_order(o2, tasks@.len() as int) && slack_ok(
                            tasks@,
                            o2,
                            lo as int,
                        ) {
                            lemma_task_orders_same_dur(tasks@, o2, order@);
                            assert(slack_ok(tasks@, order@, lo as int));
                        }
                    }
                }
                return Err(e);
            },
        }
        let ghost mid = self@;
        proof {
            assert forall|j: int| 0 <= j < order@.len() implies contains_idx(
                self@,
                #[trigger] order@[j],
            ) by {
                assert(order@[j] < tasks@.len());
            }
        }
        match self.pull_forward(lo, &order, Ghost(tasks@)) {
            Ok(()) => {
                proof {
                    lemma_handles_kept(mid, self@, tasks@.len() as int);
                    if all_durations_positive(tasks@) {
                        assert forall|m: int|
                            0 <= m < mid.len() implies (#[trigger] mid[m]).end - mid[m].start
                            >= 1 by {
                            assert(tasks@[mid[m].idx as int].duration >= 1);
                        }
                        // Every entry, not just every handle, sits as early
                        // as possible: handles are unique.
                        assert forall|k: int|
                            0 <= k < self@.len() implies #[trigger] min_placed(
                            self@,
                            k,
                            lo,
                        ) by {
                            let v = self@[k].idx;
                            assert((v as int) < tasks@.len());
                            assert(order@.contains(((v as int) as usize)));
                            let j = choose|j: int|
                                0 <= j < order@.len() && order@[j] == v;
                            let kk = choose|kk: int|
                                0 <= kk < self@.len() && (#[trigger] self@[kk]).idx == order@[j]
                                    && min_placed(self@, kk, lo);
                            assert(kk == k);
                        }
                        assert forall|k: int|
                            0 <= k < self@.len() implies (#[trigger] self@[k]).start >= lo by {}
                        lemma_min_placed_packed(self@, lo);
                    }
                }
                Ok(())
            },
            Err(e) => Err(e),
        }
    }

    /// The urgency-first strategy: phase 1 packs every task as late as its
    /// deadline allows, walking tasks by ascending importance with input
    /// order breaking ties; phase 2 compacts everything toward the present in
    /// one order-preserving pass. Under `all_durations_positive` the result
    /// is pinned exactly: the compaction of the packing fold (see the note on
    /// zero durations at
    /// [`Self::schedule_according_to_importance`]).
    pub fn schedule_according_to_myrjam(&mut self, lo: i64, tasks: &Vec<Task>) -> (r: Result<
        (),
        Error,
    >)
        requires
            old(self)@ == Seq::<Entry>::empty(),
            -TIME_LIMIT <= lo <= TIME_LIMIT,
            forall|j: int| 0 <= j < tasks@.len() ==> valid_task(#[trigger] tasks@[j]),
        ensures
            algorithm_post(r, final(self)@, tasks@, lo as int),
            forall|per: int| ample_time(tasks@, lo as int, per) ==> r is Ok,
            forall|o2: Seq<usize>|
                is_task_order(o2, tasks@.len() as int) && #[trigger] slack_ok(
                    tasks@,
                    o2,
                    lo as int,
                ) ==> r is Ok,
            match r {
                Err(e) => reported_in_order(e, tasks@, lo as int, false),
                Ok(_) => true,
            },
            (r is Ok && all_durations_positive(tasks@)) ==> packed(final(self)@, lo),
            (r is Ok && all_durations_positive(tasks@)) ==> match packing(
                tasks@,
                processing_order(tasks@, false),
                lo,
                tasks@.len() as int,
            ) {
                Some(mid) => compaction_of(final(self)@, mid, lo),
                None => false,
            },
            all_durations_positive(tasks@) ==> (r is Ok <==> packing(
                tasks@,
                processing_order(tasks@, false),
                lo,
                tasks@.len() as int,
            ) is Some),
            match r {
                Err(Error::NotEnoughTime(t)) => all_durations_positive(tasks@)
                    ==> packing_blocks(tasks@, processing_order(tasks@, false), lo, t),
                _ => true,
            },
    {
        let order = sorted_order(tasks, false);
        proof {
            assert(sorted_by(tasks@, false, order@));
            lemma_processing_order_is(tasks@, false, order@);
        }
        match self.place_all(lo, tasks, &order, Ghost(false)) {
            Ok(()) => {},
            Err(e) => {
                proof {
                    // With ample time, the packing phase cannot have failed —
                    // whichever enumeration of the tasks measures the slack.
                    assert forall|per: int| !ample_time(tasks@, lo as int, per) by {
                        if ample_time(tasks@, lo as int, per) {
                            lemma_tail_dur_bounds(tasks@, order@, 0, per);
                            assert(slack_ok(tasks@, order@, lo as int));
                        }
                    }
                    assert forall|o2: Seq<usize>|
                        !(is_task_order(o2, tasks@.len() as int) && #[trigger] slack_ok(
                            tasks@,
                            o2,
                            lo as int,
                        )) by {
                        if is_task_order(o2, tasks@.len() as int) && slack_ok(
                            tasks@,
                            o2,
                            lo as int,
                        ) {
                            lemma_task_orders_same_dur(tasks@, o2, order@);
                            assert(slack_ok(tasks@, order@, lo as int));
                        }
                    }
                }
                return Err(e);
            },
        }
        let ghost mid = self@;
        match self.compact(lo, Ghost(tasks@)) {
            Ok(()) => {
                proof {
                    lemma_handles_kept(mid, self@, tasks@.len() as int);
                    if all_durations_positive(tasks@) {
                        assert forall|m: int|
                            0 <= m < mid.len() implies (#[trigger] mid[m]).end - mid[m].start
                            >= 1 by {
                            assert(tasks@[mid[m].idx as int].duration >= 1);
                        }
                        assert(compaction_of(self@, mid, lo));
                        // Compaction leaves no gap: entry k starts where
                        // entry k - 1 ends.
                        assert forall|k: int|
                            1 <= k < self@.len() implies (#[trigger] self@[k]).start == self@[k
                            - 1].end by {
                            assert(self@[k - 1].end - self@[k - 1].start == tasks@[self@[k
                                - 1].idx as int].duration);
                            assert(mid[k - 1].end - mid[k - 1].start == tasks@[mid[k - 1].idx
                                as int].duration);
                            assert(prefix_dur(mid, k) == prefix_dur(mid, k - 1) + (mid[k - 1].end
                                - mid[k - 1].start));
                        }
                        assert(packed(self@, lo));
                    }
                }
                Ok(())
            },
            Err(e) => Err(e),
        }
    }
}

/// One step of the order-preserving pass: when the first `j` entries are
/// already packed back-to-back from `lo` in their original order and the rest
/// still stand untouched, re-placing entry `j` packs it right behind them.
proof fn lemma_compact_step(
    orig: Seq<Entry>,
    pre: Seq<Entry>,
    now: Seq<Entry>,
    idx: usize,
    old_s: i64,
    new_s: i64,
    j: int,
    lo: i64,
)
    requires
        wf(orig),
        wf(pre),
        wf(now),
        all_positive(orig),
        forall|k: int| 0 <= k < orig.len() ==> (#[trigger] orig[k]).start >= lo,
        0 <= j < orig.len(),
        pre.len() == orig.len(),
        orig[j].idx == idx,
        forall|m: int|
            0 <= m < j ==> (#[trigger] pre[m]).idx == orig[m].idx && pre[m].start == lo
                + prefix_dur(orig, m) && pre[m].end - pre[m].start == orig[m].end - orig[m].start,
        forall|m: int| j <= m < orig.len() ==> #[trigger] pre[m] == orig[m],
        exists|kr: int, g: int| pull_one_step(pre, now, idx, old_s, new_s, kr, g, lo),
    ensures
        forall|m: int|
            0 <= m < j + 1 ==> (#[trigger] now[m]).idx == orig[m].idx && now[m].start == lo
                + prefix_dur(orig, m) && now[m].end - now[m].start == orig[m].end - orig[m].start,
        forall|m: int| j + 1 <= m < orig.len() ==> #[trigger] now[m] == orig[m],
{
    let (kr, g) = choose|kr: int, g: int| pull_one_step(pre, now, idx, old_s, new_s, kr, g, lo);
    assert forall|k: int| 0 <= k < orig.len() implies (#[trigger] orig[k]).start <= orig[k].end by {
        assert(entry_ok(orig[k]));
    }
    assert(pre[j] == orig[j]);
    // Handles are unique, so the removed entry is entry j.
    assert(kr == j) by {
        if kr != j {
            assert(pre[kr].idx == pre[j].idx);
        }
    }
    let mid = pre.remove(j);
    let d = orig[j].end - orig[j].start;
    let xj = (lo as int) + prefix_dur(orig, j);
    assert(d >= 1);
    lemma_prefix_fits(orig, lo as int, j);
    assert(forall|m: int| 0 <= m < j ==> #[trigger] mid[m] == pre[m]);
    assert(forall|m: int| j <= m < mid.len() ==> #[trigger] mid[m] == pre[m + 1]);
    // The slot right behind the packed prefix is available.
    assert(can_place_after(mid, xj, d, lo as int, Some(pre[j].end))) by {
        lemma_prefix_mono(orig, 0, j);
        assert forall|m: int| 0 <= m < mid.len() implies (#[trigger] mid[m]).end <= xj || xj + d
            <= mid[m].start by {
            if m < j {
                assert(mid[m].end == lo + prefix_dur(orig, m + 1));
                lemma_prefix_mono(orig, m + 1, j);
            } else {
                assert(mid[m] == orig[m + 1]);
                lemma_prefix_fits(orig, lo as int, m + 1);
                lemma_prefix_mono(orig, j + 1, m + 1);
            }
        }
    }
    // It is also the earliest one: everything below it sits inside the
    // packed prefix, whose slots all span at least one time unit.
    assert(new_s as int <= xj);
    assert(new_s as int >= xj) by {
        if (new_s as int) < xj {
            assert(can_place_after(mid, new_s as int, d, lo as int, Some(pre[j].end)));
            lemma_prefix_locate(orig, lo as int, j, new_s as int);
            let m = choose|m: int|
                0 <= m < j && lo + prefix_dur(orig, m) <= new_s as int && (new_s as int) < lo
                    + prefix_dur(orig, #[trigger] (m + 1));
            assert(mid[m] == pre[m]);
            assert(mid[m].end == lo + prefix_dur(orig, m + 1));
            assert(mid[m].end <= new_s as int || new_s as int + d <= mid[m].start);
        }
    }
    // So the entry went back in at position j.
    assert(now == mid.insert(g, now[g]));
    assert(g == j) by {
        if g < j {
            assert(now[g + 1] == mid.insert(g, now[g])[g + 1]);
            assert(now[g + 1] == mid[g]);
            assert(now[g + 1].start == lo + prefix_dur(orig, g));
            lemma_prefix_mono(orig, g, j);
            assert(now[g].end <= now[g + 1].start);
        }
        if g > j {
            assert(now[g - 1] == mid.insert(g, now[g])[g - 1]);
            assert(now[g - 1] == mid[g - 1]);
            assert(mid[g - 1] == pre[g]);
            assert(pre[g] == orig[g]);
            lemma_prefix_fits(orig, lo as int, g);
            lemma_prefix_mono(orig, j + 1, g);
            assert(now[g - 1].end <= now[g].start);
        }
    }
    assert forall|m: int|
        0 <= m < j + 1 implies ((#[trigger] now[m]).idx == orig[m].idx && now[m].start == lo
        + prefix_dur(orig, m) && now[m].end - now[m].start == orig[m].end - orig[m].start) by {
        if m < j {
            assert(now[m] == mid.insert(j, now[j])[m]);
            assert(now[m] == mid[m]);
        }
    }
    assert forall|m: int| j + 1 <= m < orig.len() implies #[trigger] now[m] == orig[m] by {
        assert(now[m] == mid.insert(j, now[j])[m]);
        assert(now[m] == mid[m - 1]);
        assert(mid[m - 1] == pre[m]);
    }
}

/// What either placement algorithm guarantees: on success the store mirrors
/// the task list, holds every task exactly once, and every task was feasible;
/// on failure the error names an input task and the exact reason, and an
/// internal error is impossible.
pub open spec fn algorithm_post(
    r: Result<(), Error>,
    es: Seq<Entry>,
    tasks: Seq<Task>,
    lo: int,
) -> bool {
    match r {
        Ok(()) => {
            &&& store_ok(es, tasks, lo)
            &&& es.len() == tasks.len()
            &&& forall|j: int| 0 <= j < tasks.len() ==> contains_task(es, j)
            &&& forall|j: int| 0 <= j < tasks.len() ==> feasible_task(#[trigger] tasks[j], lo)
        },
        Err(e) => match e {
            Error::DeadlineMissed(t, m) => exists|j: int|
                0 <= j < tasks.len() && t == #[trigger] tasks[j] && !feasible_task(tasks[j], lo)
                    && m == (tasks[j].deadline <= lo),
            Error::NotEnoughTime(t) => tasks.len() >= 2 && exists|j: int|
                0 <= j < tasks.len() && t == #[trigger] tasks[j] && feasible_task(tasks[j], lo),
            Error::Internal(_) => false,
        },
    }
}

/// A phase-2 pass keeps every task handle scheduled.
proof fn lemma_handles_kept(mid: Seq<Entry>, now: Seq<Entry>, n: int)
    requires
        forall|j: int| 0 <= j < n ==> contains_task(mid, j),
        forall|x: usize| contains_idx(mid, x) ==> contains_idx(now, x),
    ensures
        forall|j: int| 0 <= j < n ==> contains_task(now, j),
{
    assert forall|j: int| 0 <= j < n implies contains_task(now, j) by {
        assert(contains_task(mid, j));
        let m = choose|m: int| 0 <= m < mid.len() && ((#[trigger] mid[m]).idx as int) == j;
        let x = mid[m].idx;
        assert(contains_idx(mid, x));
        assert(contains_idx(now, x));
        let mm = choose|mm: int| 0 <= mm < now.len() && (#[trigger] now[mm]).idx == x;
        assert((now[mm].idx as int) == j);
    }
}

/// A store whose entries each refine an entry of a store that mirrored the
/// task list mirrors the task list itself.
proof fn lemma_refined_store_ok(mid: Seq<Entry>, now: Seq<Entry>, tasks: Seq<Task>, lo: int)
    requires
        store_ok(mid, tasks, lo),
        wf(now),
        forall|k: int|
            0 <= k < now.len() ==> exists|k0: int|
                0 <= k0 < mid.len() && entry_refines(mid[k0], #[trigger] now[k], lo),
    ensures
        store_ok(now, tasks, lo),
{
    assert forall|k: int|
        0 <= k < now.len() implies {
        let e = #[trigger] now[k];
        &&& (e.idx as int) < tasks.len()
        &&& e.end - e.start == tasks[e.idx as int].duration
        &&& e.end <= tasks[e.idx as int].deadline
        &&& e.start >= lo
    } by {
        let k0 = choose|k0: int|
            0 <= k0 < mid.len() && entry_refines(mid[k0], #[trigger] now[k], lo);
        assert(mid[k0].idx == now[k].idx);
    }
}

/// `p` matches each produced schedule slot to a distinct input task, covering
/// every input task: the schedule is a permutation of the inputs.
pub open spec fn assigns(out: Seq<ScheduledTask>, tasks: Seq<Task>, p: Seq<int>) -> bool {
    &&& p.len() == out.len()
    &&& forall|k: int|
        0 <= k < out.len() ==> 0 <= #[trigger] p[k] < tasks.len() && out[k].task == tasks[p[k]]
    &&& forall|k1: int, k2: int| #![trigger p[k1], p[k2]]
        0 <= k1 < k2 < out.len() ==> p[k1] != p[k2]
    &&& forall|j: int| 0 <= j < tasks.len() ==> #[trigger] p.contains(j)
}

/// The exact urgency-strategy result: the deadline-packing fold of the
/// importance-sorted tasks succeeds, and the schedule is its compaction —
/// slot `k` holds the `k`-th packed task, starting at `lo` plus the combined
/// duration of the packed tasks before it.
pub open spec fn urgency_schedule(out: Seq<ScheduledTask>, tasks: Seq<Task>, lo: i64) -> bool {
    match packing(tasks, processing_order(tasks, false), lo, tasks.len() as int) {
        Some(mid) => {
            &&& out.len() == mid.len()
            &&& forall|k: int|
                0 <= k < out.len() ==> (#[trigger] out[k]).task == tasks[mid[k].idx as int]
                    && out[k].when == lo + prefix_dur(mid, k)
        },
        None => false,
    }
}

/// Everything [`Schedule::schedule`] promises, over the produced value or
/// error, the input task list and the start instant.
///
/// On success: one slot per input task (no duplicates, no omissions), every
/// slot ends by its task's deadline, starts no earlier than the start instant
/// plus the safety delay, slots are ascending and pairwise disjoint, and
/// every input task was feasible. On failure the error names an input task
/// and holds exactly when its reason says; an internal error never escapes.
pub open spec fn schedule_post(r: Result<Schedule, Error>, tasks: Seq<Task>, start: int) -> bool {
    &&& forall|per: int|
        #[trigger] ample_time(tasks, start + (SCHEDULE_DELAY as int), per) ==> r is Ok
    &&& schedule_outcome(r, tasks, start)
}

/// The case-by-case half of [`schedule_post`].
pub open spec fn schedule_outcome(r: Result<Schedule, Error>, tasks: Seq<Task>, start: int) -> bool {
    let lo = start + (SCHEDULE_DELAY as int);
    match r {
        Ok(sch) => schedule_ok_case(sch.0@, tasks, lo),
        Err(e) => schedule_err_case(e, tasks, lo),
    }
}

/// What a returned schedule promises: one slot per input task (no duplicates,
/// no omissions), every slot ends by its task's deadline, none starts before
/// `lo`, slots are ascending and pairwise disjoint, every input task was
/// feasible, and — whenever every task takes at least one time unit — the
/// slots sit back to back from `lo` on, with no gap.
pub open spec fn schedule_ok_case(out: Seq<ScheduledTask>, tasks: Seq<Task>, lo: int) -> bool {
    &&& out.len() == tasks.len()
    &&& exists|p: Seq<int>| #[trigger] assigns(out, tasks, p)
    &&& forall|k: int|
        0 <= k < out.len() ==> (#[trigger] out[k]).when + out[k].task.duration
            <= out[k].task.deadline
    &&& forall|k: int| 0 <= k < out.len() ==> (#[trigger] out[k]).when >= lo
    &&& forall|k1: int, k2: int| #![trigger out[k1], out[k2]]
        0 <= k1 < k2 < out.len() ==> out[k1].when + out[k1].task.duration <= out[k2].when
    &&& forall|j: int| 0 <= j < tasks.len() ==> feasible_task(#[trigger] tasks[j], lo)
    &&& all_durations_positive(tasks) ==> packed_schedule(out, lo)
}

/// The slots sit back to back: the first starts at `lo`, each next one starts
/// the moment the previous task is done.
pub open spec fn packed_schedule(out: Seq<ScheduledTask>, lo: int) -> bool {
    &&& out.len() > 0 ==> out[0].when == lo
    &&& forall|k: int|
        1 <= k < out.len() ==> (#[trigger] out[k]).when == out[k - 1].when + out[k
            - 1].task.duration
}

/// What a returned error promises: it names an input task and holds exactly
/// when its reason says; an internal error never escapes.
pub open spec fn schedule_err_case(e: Error, tasks: Seq<Task>, lo: int) -> bool {
    match e {
        Error::DeadlineMissed(t, m) => exists|j: int|
            0 <= j < tasks.len() && t == #[trigger] tasks[j] && !feasible_task(tasks[j], lo) && m
                == (tasks[j].deadline <= lo),
        Error::NotEnoughTime(t) => tasks.len() >= 2 && exists|j: int|
            0 <= j < tasks.len() && t == #[trigger] tasks[j] && feasible_task(tasks[j], lo),
        Error::Internal(_) => false,
    }
}

impl Schedule {
    /// Reads the store back in ascending start-time order into the
    /// user-facing schedule.
    #[verifier::loop_isolation(false)]
    fn from_tree(tree: &ScheduleTree, tasks: &Vec<Task>) -> (sch: Schedule)
        requires
            forall|k: int| 0 <= k < tree@.len() ==> ((#[trigger] tree@[k]).idx as int)
                < tasks@.len(),
        ensures
            sch.0@.len() == tree@.len(),
            forall|k: int|
                0 <= k < tree@.len() ==> (#[trigger] sch.0@[k]).task == tasks@[tree@[k].idx as int]
                    && sch.0@[k].when == tree@[k].start,
    {
        let n = tree.len();
        let mut out: Vec<ScheduledTask> = Vec::new();
        let mut k: usize = 0;
        while k < n
            invariant
                0 <= k <= n,
                out@.len() == k,
                forall|m: int|
                    0 <= m < k ==> (#[trigger] out@[m]).task == tasks@[tree@[m].idx as int]
                        && out@[m].when == tree@[m].start,
            decreases n - k,
        {
            let e = tree.entry_at(k);
            out.push(ScheduledTask { task: tasks[e.idx].clone(), when: e.start });
            k += 1;
        }
        Schedule(out)
    }

    /// Schedules `tasks` according to the given strategy, using the tasks'
    /// deadlines, importance and duration.
    ///
    /// A fixed safety delay of one minute is added to `start`; no task is
    /// placed before that instant. On success the returned schedule holds
    /// every input task exactly once, ascending by assigned start time, with
    /// no overlaps, no deadline violated, and nothing before the delayed
    /// start; otherwise the typed error says which task was infeasible and
    /// why. See [`schedule_post`] for the exact contract.
    pub fn schedule(start: i64, tasks: Vec<Task>, strategy: SchedulingStrategy) -> (r: Result<
        Schedule,
        Error,
    >)
        requires
            -TIME_LIMIT <= start,
            start + SCHEDULE_DELAY <= TIME_LIMIT,
            forall|j: int| 0 <= j < tasks@.len() ==> valid_task(#[trigger] tasks@[j]),
        ensures
            schedule_post(r, tasks@, start as int),
            forall|o2: Seq<usize>|
                is_task_order(o2, tasks@.len() as int) && #[trigger] slack_ok(
                    tasks@,
                    o2,
                    start as int + (SCHEDULE_DELAY as int),
                ) ==> r is Ok,
            all_durations_positive(tasks@) ==> (r is Ok <==> packing(
                tasks@,
                processing_order(tasks@, strategy == SchedulingStrategy::Importance),
                ((start + SCHEDULE_DELAY) as i64),
                tasks@.len() as int,
            ) is Some),
            match r {
                Err(Error::NotEnoughTime(t)) => all_durations_positive(tasks@) ==> packing_blocks(
                    tasks@,
                    processing_order(tasks@, strategy == SchedulingStrategy::Importance),
                    ((start + SCHEDULE_DELAY) as i64),
                    t,
                ),
                _ => true,
            },
            match r {
                Ok(sch) => (strategy == SchedulingStrategy::Urgency && all_durations_positive(
                    tasks@,
                )) ==> urgency_schedule(sch.0@, tasks@, ((start + SCHEDULE_DELAY) as i64)),
                Err(_) => true,
            },
            match r {
                Err(e) => reported_in_order(
                    e,
                    tasks@,
                    start as int + (SCHEDULE_DELAY as int),
                    strategy == SchedulingStrategy::Importance,
                ),
                Ok(_) => true,
            },
    {
        // Make sure things aren't scheduled before the algorithm is finished.
        let lo = start + SCHEDULE_DELAY;
        let mut tree = ScheduleTree::new();
        let outcome = match strategy {
            SchedulingStrategy::Importance => tree.schedule_according_to_importance(lo, &tasks),
            SchedulingStrategy::Urgency => tree.schedule_according_to_myrjam(lo, &tasks),
        };
        match outcome {
            Err(e) => {
                proof {
                    assert(schedule_err_case(e, tasks@, (start + SCHEDULE_DELAY) as int));
                }
                Err(e)
            },
            Ok(()) => {
                let sch = Schedule::from_tree(&tree, &tasks);
                proof {
                    let out = sch.0@;
                    let es = tree@;
                    let p = Seq::new(es.len(), |k: int| es[k].idx as int);
                    assert(assigns(out, tasks@, p)) by {
                        assert forall|j: int| 0 <= j < tasks@.len() implies #[trigger] p.contains(
                            j,
                        ) by {
                            assert(contains_task(es, j));
                            let m = choose|m: int|
                                0 <= m < es.len() && ((#[trigger] es[m]).idx as int) == j;
                            assert(p[m] == j);
                        }
                    }
                }
                proof {
                    assert(lo == ((start + SCHEDULE_DELAY) as i64));
                    if all_durations_positive(tasks@) {
                        let out = sch.0@;
                        let es = tree@;
                        assert(packed(es, lo));
                        if strategy == SchedulingStrategy::Urgency {
                            let pk = packing(
                                tasks@,
                                processing_order(tasks@, false),
                                lo,
                                tasks@.len() as int,
                            );
                            let mid = pk->Some_0;
                            assert(compaction_of(es, mid, lo));
                            assert(urgency_schedule(out, tasks@, lo)) by {
                                assert forall|k: int|
                                    0 <= k < out.len() implies (#[trigger] out[k]).task
                                    == tasks@[mid[k].idx as int] && out[k].when == lo + prefix_dur(
                                    mid,
                                    k,
                                ) by {
                                    assert(out[k].task == tasks@[es[k].idx as int]);
                                    assert(es[k].idx == mid[k].idx);
                                    assert(out[k].when == es[k].start);
                                }
                            }
                        }
                        assert(packed_schedule(out, (start + SCHEDULE_DELAY) as int)) by {
                            assert forall|k: int|
                                1 <= k < out.len() implies (#[trigger] out[k]).when == out[k
                                - 1].when + out[k - 1].task.duration by {
                                assert(es[k - 1].end - es[k - 1].start == tasks@[es[k - 1].idx
                                    as int].duration);
                                assert(out[k - 1].task == tasks@[es[k - 1].idx as int]);
                                assert(es[k].start == es[k - 1].end);
                            }
                        }
                    }
                    assert(schedule_ok_case(sch.0@, tasks@, (start + SCHEDULE_DELAY) as int));
                }
                Ok(sch)
            },
        }
    }
}

} // verus!
