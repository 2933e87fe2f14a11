//! Serenity-mode planning: greedy selection by value density, then the
//! shortest task first.
use vstd::prelude::*;
use crate::sorting::{SortKey, arrange, as_ints, is_permutation, stable_sort_order, stably_sorted};
use crate::timing::{assign_times, back_to_back, durations_of, fresh_figures, lemma_total_arrange, total_duration};
use crate::types::{
    ScheduledTask, ScheduledTaskView, Task, TaskView, scheduled_view, tasks_view, underlying_tasks,
};

verus! {

impl SortKey for u32 {
    open spec fn goes_before_or_ties(self, other: Self) -> bool {
        self <= other
    }

    proof fn lemma_total(a: Self, b: Self) {
    }

    proof fn lemma_transitive(a: Self, b: Self, c: Self) {
    }

    fn before_or_ties(&self, other: &Self) -> (r: bool) {
        *self <= *other
    }
}

/// The tasks a greedy pass picks when it visits them in `order` from
/// position `k` on with `remaining` minutes left: each task that still fits
/// is taken and its minutes are spent.
pub open spec fn greedy_selection(tasks: Seq<TaskView>, order: Seq<int>, k: int, remaining: int) -> Seq<
    int,
>
    decreases order.len() - k,
{
    if k < 0 || k >= order.len() {
        seq![]
    } else {
        let d = tasks[order[k]].duration as int;
        if d <= remaining {
            seq![order[k]] + greedy_selection(tasks, order, k + 1, remaining - d)
        } else {
            greedy_selection(tasks, order, k + 1, remaining)
        }
    }
}

/// Each index lies below `n` and occurs once.
pub open spec fn distinct_below(s: Seq<int>, n: int) -> bool {
    &&& forall|k: int| 0 <= k < s.len() ==> 0 <= #[trigger] s[k] < n
    &&& forall|k: int, l: int| 0 <= k < s.len() && 0 <= l < s.len() && k != l ==> s[k] != s[l]
}

/// `plan` is `chosen` sorted stably by ascending duration and placed back to
/// back from minute zero, with fresh figures.
pub open spec fn shortest_first_plan(chosen: Seq<TaskView>, plan: Seq<ScheduledTaskView>) -> bool {
    &&& exists|p: Seq<int>|
        {
            &&& is_permutation(p, chosen.len() as int)
            &&& stably_sorted(durations_of(chosen), p)
            &&& underlying_tasks(plan) == arrange(chosen, p)
        }
    &&& back_to_back(plan)
    &&& fresh_figures(plan)
}

/// Places the given tasks shortest first (stable among equal durations),
/// back to back from minute zero.
pub fn place_shortest_first(chosen: Vec<Task>) -> (plan: Vec<ScheduledTask>)
    requires
        total_duration(tasks_view(chosen@)) <= u32::MAX,
    ensures
        shortest_first_plan(tasks_view(chosen@), scheduled_view(plan@)),
{
    let ghost chosen_view = tasks_view(chosen@);
    let n = chosen.len();
    let mut keys: Vec<u32> = Vec::new();
    let mut i: usize = 0;
    while i < n
        invariant
            i <= n,
            n == chosen.len(),
            chosen_view == tasks_view(chosen@),
            keys@ == durations_of(chosen_view).take(i as int),
        decreases n - i,
    {
        keys.push(chosen[i].duration);
        assert(durations_of(chosen_view).take(i + 1) =~= durations_of(chosen_view).take(
            i as int,
        ).push(chosen@[i as int].duration));
        i = i + 1;
    }
    assert(keys@ =~= durations_of(chosen_view));
    let order = stable_sort_order(&keys);
    let ghost p = as_ints(order@);
    let mut plan: Vec<ScheduledTask> = Vec::new();
    let mut j: usize = 0;
    while j < n
        invariant
            j <= n,
            n == chosen.len(),
            chosen_view == tasks_view(chosen@),
            is_permutation(p, n as int),
            p == as_ints(order@),
            plan@.len() == j,
            forall|k: int|
                0 <= k < j ==> (#[trigger] plan@[k])@.task == chosen_view[p[k]]
                    && plan@[k]@.stress_contribution_bits == 0 && plan@[k]@.deadline_risk_bits == 0,
        decreases n - j,
    {
        assert(p[j as int] == order@[j as int] as int);
        plan.push(ScheduledTask::unplaced(chosen[order[j]].duplicate()));
        j = j + 1;
    }
    proof {
        assert(underlying_tasks(scheduled_view(plan@)) =~= arrange(chosen_view, p));
        lemma_total_arrange(chosen_view, p);
    }
    assign_times(&mut plan);
    proof {
        assert(underlying_tasks(scheduled_view(plan@)) =~= arrange(chosen_view, p));
    }
    plan
}

/// Serenity planning. `density_order` lists the task indices by descending
/// value density (the caller's ranking); the pass takes every task that
/// still fits `available_time`, then the taken tasks run shortest first.
pub fn serenity_plan(tasks: &Vec<Task>, density_order: &Vec<usize>, available_time: u32) -> (plan:
    Vec<ScheduledTask>)
    requires
        is_permutation(as_ints(density_order@), tasks.len() as int),
    ensures
        distinct_below(
            greedy_selection(tasks_view(tasks@), as_ints(density_order@), 0, available_time as int),
            tasks.len() as int,
        ),
        total_duration(
            arrange(
                tasks_view(tasks@),
                greedy_selection(
                    tasks_view(tasks@),
                    as_ints(density_order@),
                    0,
                    available_time as int,
                ),
            ),
        ) <= available_time,
        shortest_first_plan(
            arrange(
                tasks_view(tasks@),
                greedy_selection(
                    tasks_view(tasks@),
                    as_ints(density_order@),
                    0,
                    available_time as int,
                ),
            ),
            scheduled_view(plan@),
        ),
{
    let ghost tv = tasks_view(tasks@);
    let ghost ord = as_ints(density_order@);
    let n = tasks.len();
    let mut chosen: Vec<Task> = Vec::new();
    let mut picked: Vec<usize> = Vec::new();
    let ghost mut positions: Seq<int> = seq![];
    let mut remaining = available_time;
    let mut k: usize = 0;
    assert(arrange(tv, seq![]) =~= seq![]);
    while k < n
        invariant
            k <= n,
            n == tasks.len(),
            n == density_order.len(),
            tv == tasks_view(tasks@),
            ord == as_ints(density_order@),
            is_permutation(ord, n as int),
            remaining <= available_time,
            greedy_selection(tv, ord, 0, available_time as int) == as_ints(picked@)
                + greedy_selection(tv, ord, k as int, remaining as int),
            tasks_view(chosen@) == arrange(tv, as_ints(picked@)),
            total_duration(tasks_view(chosen@)) == available_time - remaining,
            positions.len() == picked@.len(),
            forall|t: int|
                0 <= t < positions.len() ==> 0 <= #[trigger] positions[t] < k && as_ints(picked@)[t]
                    == ord[positions[t]],
            forall|t: int, u: int|
                0 <= t < u < positions.len() ==> #[trigger] positions[t] < #[trigger] positions[u],
        decreases n - k,
    {
        let idx = density_order[k];
        assert(ord[k as int] == idx as int);
        let d = tasks[idx].duration;
        if d <= remaining {
            let ghost before = as_ints(picked@);
            let ghost chosen_before = tasks_view(chosen@);
            picked.push(idx);
            chosen.push(tasks[idx].duplicate());
            remaining = remaining - d;
            proof {
                positions = positions.push(k as int);
                assert(as_ints(picked@) =~= before.push(idx as int));
                assert(before + (seq![idx as int] + greedy_selection(
                    tv,
                    ord,
                    k + 1,
                    remaining as int,
                )) =~= as_ints(picked@) + greedy_selection(tv, ord, k + 1, remaining as int));
                assert(tasks_view(chosen@) =~= chosen_before.push(tv[idx as int]));
                assert(arrange(tv, as_ints(picked@)) =~= arrange(tv, before).push(tv[idx as int]));
                assert(tasks_view(chosen@).drop_last() =~= chosen_before);
            }
        }
        k = k + 1;
    }
    let ghost sel = greedy_selection(tv, ord, 0, available_time as int);
    proof {
        assert(greedy_selection(tv, ord, n as int, remaining as int) =~= seq![]);
        assert(sel =~= as_ints(picked@));
        assert forall|t: int, u: int|
            0 <= t < sel.len() && 0 <= u < sel.len() && t != u implies sel[t] != sel[u] by {
            assert(positions[t] != positions[u]);
        }
        assert forall|t: int| 0 <= t < sel.len() implies 0 <= #[trigger] sel[t] < n by {
            assert(sel[t] == ord[positions[t]]);
        }
    }
    place_shortest_first(chosen)
}

/// The minutes of the tasks at positions `from..to` of `order` that `sel`
/// takes.
pub open spec fn taken_between(tasks: Seq<TaskView>, order: Seq<int>, sel: Seq<int>, from: int, to: int) -> int
    decreases to - from,
{
    if from >= to {
        0
    } else {
        (if sel.contains(order[from]) {
            tasks[order[from]].duration as int
        } else {
            0
        }) + taken_between(tasks, order, sel, from + 1, to)
    }
}

proof fn lemma_taken_between_same(
    tasks: Seq<TaskView>,
    order: Seq<int>,
    a: Seq<int>,
    b: Seq<int>,
    from: int,
    to: int,
)
    requires
        forall|j: int| from <= j < to ==> (a.contains(#[trigger] order[j]) <==> b.contains(order[j])),
    ensures
        taken_between(tasks, order, a, from, to) == taken_between(tasks, order, b, from, to),
    decreases to - from,
{
    if from < to {
        lemma_taken_between_same(tasks, order, a, b, from + 1, to);
    }
}

proof fn lemma_greedy_members(tasks: Seq<TaskView>, order: Seq<int>, k: int, remaining: int)
    requires
        0 <= k,
    ensures
        forall|x: int|
            greedy_selection(tasks, order, k, remaining).contains(x) ==> exists|j: int|
                k <= j < order.len() && #[trigger] order[j] == x,
    decreases order.len() - k,
{
    if k < order.len() {
        let d = tasks[order[k]].duration as int;
        let r2 = if d <= remaining {
            remaining - d
        } else {
            remaining
        };
        lemma_greedy_members(tasks, order, k + 1, r2);
        let rest = greedy_selection(tasks, order, k + 1, r2);
        assert forall|x: int|
            greedy_selection(tasks, order, k, remaining).contains(x) implies exists|j: int|
                k <= j < order.len() && #[trigger] order[j] == x by {
            if d <= remaining {
                let s = seq![order[k]] + rest;
                let i = choose|i: int| 0 <= i < s.len() && s[i] == x;
                if i > 0 {
                    assert(rest[i - 1] == x);
                    assert(rest.contains(x));
                } else {
                    assert(order[k] == x);
                }
            }
        }
    }
}

proof fn lemma_greedy_fits_from(tasks: Seq<TaskView>, order: Seq<int>, k: int, remaining: int)
    requires
        is_permutation(order, tasks.len() as int),
        0 <= k <= order.len(),
    ensures
        forall|m: int|
            k <= m < order.len() ==> (greedy_selection(tasks, order, k, remaining).contains(
                #[trigger] order[m],
            ) <==> tasks[order[m]].duration + taken_between(
                tasks,
                order,
                greedy_selection(tasks, order, k, remaining),
                k,
                m,
            ) <= remaining),
    decreases order.len() - k,
{
    if k < order.len() {
        let d = tasks[order[k]].duration as int;
        let takes = d <= remaining;
        let r2 = if takes {
            remaining - d
        } else {
            remaining
        };
        lemma_greedy_fits_from(tasks, order, k + 1, r2);
        lemma_greedy_members(tasks, order, k + 1, r2);
        let rest = greedy_selection(tasks, order, k + 1, r2);
        let here = greedy_selection(tasks, order, k, remaining);
        assert(here == if takes {
            seq![order[k]] + rest
        } else {
            rest
        });
        assert(!rest.contains(order[k])) by {
            if rest.contains(order[k]) {
                let j = choose|j: int| k + 1 <= j < order.len() && #[trigger] order[j] == order[k];
                assert(order[j] != order[k]);
            }
        }
        assert forall|j: int| k + 1 <= j < order.len() implies (here.contains(#[trigger] order[j])
            <==> rest.contains(order[j])) by {
            if takes {
                assert(order[j] != order[k]);
                if rest.contains(order[j]) {
                    let i = choose|i: int| 0 <= i < rest.len() && rest[i] == order[j];
                    assert(here[i + 1] == order[j]);
                }
                if here.contains(order[j]) {
                    let i = choose|i: int| 0 <= i < here.len() && here[i] == order[j];
                    assert(i > 0);
                    assert(rest[i - 1] == order[j]);
                }
            }
        }
        assert(takes ==> here[0] == order[k]);
        assert forall|m: int| k <= m < order.len() implies (here.contains(#[trigger] order[m])
            <==> tasks[order[m]].duration + taken_between(tasks, order, here, k, m) <= remaining) by {
            if m > k {
                lemma_taken_between_same(tasks, order, here, rest, k + 1, m);
                assert(taken_between(tasks, order, here, k, m) == (if here.contains(order[k]) {
                    d
                } else {
                    0
                }) + taken_between(tasks, order, here, k + 1, m));
            }
        }
    }
}

/// What the Serenity pass takes: visiting the tasks in `order`, a task is
/// taken exactly when its minutes fit what the tasks taken before it (in
/// that order) leave of `available_time`. A task that does not fit is
/// skipped and the pass goes on.
pub proof fn lemma_serenity_takes_what_fits(tasks: Seq<TaskView>, order: Seq<int>, available_time: u32)
    requires
        is_permutation(order, tasks.len() as int),
    ensures
        forall|m: int|
            0 <= m < order.len() ==> (greedy_selection(tasks, order, 0, available_time as int).contains(
                #[trigger] order[m],
            ) <==> tasks[order[m]].duration + taken_between(
                tasks,
                order,
                greedy_selection(tasks, order, 0, available_time as int),
                0,
                m,
            ) <= available_time),
        forall|x: int|
            greedy_selection(tasks, order, 0, available_time as int).contains(x) ==> 0 <= x
                < tasks.len(),
{
    lemma_greedy_fits_from(tasks, order, 0, available_time as int);
    lemma_greedy_members(tasks, order, 0, available_time as int);
}

/// When all the tasks together fit the window, the greedy pass takes every
/// one of them, in the order it visits them.
pub proof fn lemma_greedy_takes_all(tasks: Seq<TaskView>, order: Seq<int>, k: int, remaining: int)
    requires
        is_permutation(order, tasks.len() as int),
        0 <= k <= order.len(),
        total_duration(arrange(tasks, order.skip(k))) <= remaining,
    ensures
        greedy_selection(tasks, order, k, remaining) == order.skip(k),
    decreases order.len() - k,
{
    if k < order.len() {
        let rest = order.skip(k + 1);
        let here = arrange(tasks, order.skip(k));
        assert(here =~= seq![tasks[order[k]]] + arrange(tasks, rest));
        lemma_total_first(here);
        assert(here.drop_first() =~= arrange(tasks, rest));
        crate::timing::lemma_total_nonneg(arrange(tasks, rest));
        lemma_greedy_takes_all(tasks, order, k + 1, remaining - tasks[order[k]].duration);
        assert(seq![order[k]] + rest =~= order.skip(k));
    } else {
        assert(order.skip(k) =~= Seq::<int>::empty());
    }
}

proof fn lemma_total_first(s: Seq<TaskView>)
    requires
        s.len() > 0,
    ensures
        total_duration(s) == s[0].duration + total_duration(s.drop_first()),
    decreases s.len(),
{
    if s.len() > 1 {
        lemma_total_first(s.drop_last());
        assert(s.drop_last().drop_first() =~= s.drop_first().drop_last());
        assert(s.drop_first().last() == s.last());
        assert(s.drop_last()[0] == s[0]);
    } else {
        assert(s.drop_first() =~= Seq::<TaskView>::empty());
        assert(s.drop_last() =~= Seq::<TaskView>::empty());
    }
}

/// Everything fits: when the tasks' total is within the window, the
/// Serenity selection is the whole task list.
pub proof fn lemma_serenity_keeps_all(tasks: Seq<TaskView>, order: Seq<int>, available_time: u32)
    requires
        is_permutation(order, tasks.len() as int),
        total_duration(tasks) <= available_time,
    ensures
        greedy_selection(tasks, order, 0, available_time as int) == order,
{
    lemma_total_arrange(tasks, order);
    assert(order.skip(0) =~= order);
    lemma_greedy_takes_all(tasks, order, 0, available_time as int);
}

} // verus!
