//! Placing tasks back to back from minute zero.
use vstd::prelude::*;
use crate::sorting::{arrange, is_permutation, lemma_distinct_len_bound};
use crate::types::{ScheduledTask, ScheduledTaskView, TaskView, scheduled_view, underlying_tasks};

verus! {

/// Total minutes of a sequence of tasks.
pub open spec fn total_duration(tasks: Seq<TaskView>) -> int
    decreases tasks.len(),
{
    if tasks.len() == 0 {
        0
    } else {
        total_duration(tasks.drop_last()) + tasks.last().duration as int
    }
}

/// Every task starts when the one before it ends, the first at minute zero,
/// and ends `duration` minutes after it starts.
pub open spec fn back_to_back(plan: Seq<ScheduledTaskView>) -> bool {
    forall|k: int|
        0 <= k < plan.len() ==> {
            &&& (#[trigger] plan[k]).start_time == total_duration(underlying_tasks(plan).take(k))
            &&& plan[k].end_time == plan[k].start_time + plan[k].task.duration
        }
}

/// `new` holds the same tasks as `old`, position by position, with the same
/// stress and risk figures; only the start and end times may differ.
pub open spec fn same_but_times(old: Seq<ScheduledTaskView>, new: Seq<ScheduledTaskView>) -> bool {
    &&& new.len() == old.len()
    &&& forall|k: int|
        0 <= k < new.len() ==> {
            &&& (#[trigger] new[k]).task == old[k].task
            &&& new[k].stress_contribution_bits == old[k].stress_contribution_bits
            &&& new[k].deadline_risk_bits == old[k].deadline_risk_bits
        }
}

/// The durations of the given tasks.
pub open spec fn durations_of(tasks: Seq<TaskView>) -> Seq<u32> {
    tasks.map_values(|t: TaskView| t.duration)
}

/// Every placed task has zero stress contribution and zero deadline risk.
pub open spec fn fresh_figures(plan: Seq<ScheduledTaskView>) -> bool {
    forall|k: int|
        0 <= k < plan.len() ==> (#[trigger] plan[k]).stress_contribution_bits == 0
            && plan[k].deadline_risk_bits == 0
}

/// A total of durations is never negative.
pub proof fn lemma_total_nonneg(tasks: Seq<TaskView>)
    ensures
        total_duration(tasks) >= 0,
    decreases tasks.len(),
{
    if tasks.len() > 0 {
        lemma_total_nonneg(tasks.drop_last());
    }
}

/// The total of a prefix never exceeds the total.
pub proof fn lemma_total_prefix(tasks: Seq<TaskView>, k: int)
    requires
        0 <= k <= tasks.len(),
    ensures
        0 <= total_duration(tasks.take(k)) <= total_duration(tasks),
    decreases tasks.len(),
{
    lemma_total_nonneg(tasks.take(k));
    if k < tasks.len() {
        lemma_total_prefix(tasks.drop_last(), k);
        assert(tasks.drop_last().take(k) =~= tasks.take(k));
    } else {
        assert(tasks.take(k) =~= tasks);
    }
}

proof fn lemma_total_step(tasks: Seq<TaskView>, k: int)
    requires
        0 <= k < tasks.len(),
    ensures
        total_duration(tasks.take(k + 1)) == total_duration(tasks.take(k)) + tasks[k].duration,
{
    assert(tasks.take(k + 1).drop_last() =~= tasks.take(k));
}

proof fn lemma_total_remove(tasks: Seq<TaskView>, j: int)
    requires
        0 <= j < tasks.len(),
    ensures
        total_duration(tasks) == total_duration(tasks.remove(j)) + tasks[j].duration,
    decreases tasks.len(),
{
    if j < tasks.len() - 1 {
        lemma_total_remove(tasks.drop_last(), j);
        assert(tasks.remove(j).drop_last() =~= tasks.drop_last().remove(j));
    } else {
        assert(tasks.remove(j) =~= tasks.drop_last());
    }
}

/// Moving one task to another position keeps the total duration.
pub proof fn lemma_total_move(tasks: Seq<TaskView>, from: int, to: int)
    requires
        0 <= from < tasks.len(),
        0 <= to < tasks.len(),
    ensures
        total_duration(tasks.remove(from).insert(to, tasks[from])) == total_duration(tasks),
{
    let rest = tasks.remove(from);
    let moved = rest.insert(to, tasks[from]);
    lemma_total_remove(tasks, from);
    lemma_total_remove(moved, to);
    assert(moved.remove(to) =~= rest);
}

/// Rearranging tasks does not change their total duration.
pub proof fn lemma_total_arrange(tasks: Seq<TaskView>, p: Seq<int>)
    requires
        is_permutation(p, tasks.len() as int),
    ensures
        total_duration(arrange(tasks, p)) == total_duration(tasks),
    decreases tasks.len(),
{
    let n = tasks.len() as int;
    if n > 0 {
        // the position at which p names the last task
        let j = choose|j: int| 0 <= j < n && p[j] == n - 1;
        assert(exists|j: int| 0 <= j < n && p[j] == n - 1) by {
            lemma_permutation_onto(p, n, n - 1);
        }
        let q = p.remove(j);
        assert forall|k: int| 0 <= k < q.len() implies 0 <= #[trigger] q[k] < n - 1 by {
            let k0 = if k < j {
                k
            } else {
                k + 1
            };
            assert(q[k] == p[k0]);
            assert(k0 != j);
        }
        assert forall|k: int, l: int|
            0 <= k < q.len() && 0 <= l < q.len() && k != l implies q[k] != q[l] by {
            let k0 = if k < j {
                k
            } else {
                k + 1
            };
            let l0 = if l < j {
                l
            } else {
                l + 1
            };
            assert(q[k] == p[k0] && q[l] == p[l0]);
        }
        lemma_total_arrange(tasks.drop_last(), q);
        lemma_total_remove(arrange(tasks, p), j);
        assert(arrange(tasks, p).remove(j) =~= arrange(tasks.drop_last(), q));
    } else {
        assert(arrange(tasks, p) =~= tasks);
    }
}

/// A permutation of `0..n` lists every index.
pub proof fn lemma_permutation_onto(p: Seq<int>, n: int, x: int)
    requires
        is_permutation(p, n),
        0 <= x < n,
    ensures
        exists|j: int| 0 <= j < n && p[j] == x,
    decreases n,
{
    if forall|j: int| 0 <= j < n ==> p[j] != x {
        // p maps 0..n injectively into 0..n without x: impossible
        let q = p.map_values(|v: int| if v > x {
            v - 1
        } else {
            v
        });
        lemma_distinct_len_bound(q, n - 1);
    }
}

/// Sets the start and end times so that the tasks follow one another from
/// minute zero, keeping their order and everything else.
pub fn assign_times(tasks: &mut Vec<ScheduledTask>)
    requires
        total_duration(underlying_tasks(scheduled_view(old(tasks)@))) <= u32::MAX,
    ensures
        same_but_times(scheduled_view(old(tasks)@), scheduled_view(final(tasks)@)),
        back_to_back(scheduled_view(final(tasks)@)),
{
    let ghost old_view = scheduled_view(tasks@);
    let ghost plain = underlying_tasks(old_view);
    let n = tasks.len();
    let mut placed: Vec<ScheduledTask> = Vec::new();
    let mut time: u32 = 0;
    let mut i: usize = 0;
    while i < n
        invariant
            i <= n,
            n == tasks.len(),
            old_view == scheduled_view(tasks@),
            plain == underlying_tasks(old_view),
            total_duration(plain) <= u32::MAX,
            placed@.len() == i,
            time == total_duration(plain.take(i as int)),
            forall|k: int|
                0 <= k < i ==> {
                    &&& (#[trigger] placed@[k])@.task == old_view[k].task
                    &&& placed@[k]@.stress_contribution_bits == old_view[k].stress_contribution_bits
                    &&& placed@[k]@.deadline_risk_bits == old_view[k].deadline_risk_bits
                    &&& placed@[k]@.start_time == total_duration(plain.take(k))
                    &&& placed@[k]@.end_time == placed@[k]@.start_time + placed@[k]@.task.duration
                },
        decreases n - i,
    {
        proof {
            lemma_total_step(plain, i as int);
            lemma_total_prefix(plain, i as int + 1);
        }
        let mut t = tasks[i].duplicate();
        t.start_time = time;
        time = time + t.task.duration;
        t.end_time = time;
        placed.push(t);
        i = i + 1;
    }
    *tasks = placed;
    proof {
        let new_view = scheduled_view(tasks@);
        assert(underlying_tasks(new_view) =~= plain);
    }
}

/// A plan placed back to back whose tasks fit the window ends inside it:
/// every task ends by `window`, and the last one ends exactly at the total.
pub proof fn lemma_plan_within_window(plan: Seq<ScheduledTaskView>, window: int)
    requires
        back_to_back(plan),
        total_duration(underlying_tasks(plan)) <= window,
    ensures
        forall|k: int| 0 <= k < plan.len() ==> (#[trigger] plan[k]).end_time <= window,
        plan.len() > 0 ==> plan.last().end_time == total_duration(underlying_tasks(plan)),
{
    let plain = underlying_tasks(plan);
    assert forall|k: int| 0 <= k < plan.len() implies (#[trigger] plan[k]).end_time <= window by {
        lemma_total_step(plain, k);
        lemma_total_prefix(plain, k + 1);
    }
    if plan.len() > 0 {
        let n = plan.len() as int;
        lemma_total_step(plain, n - 1);
        assert(plain.take(n) =~= plain);
    }
}

} // verus!
