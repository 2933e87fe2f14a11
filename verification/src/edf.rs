//! Earliest-deadline-first ordering.
use vstd::prelude::*;
use crate::sorting::{SortKey, arrange, as_ints, is_permutation, stable_sort_order, stably_sorted};
use crate::text::{chars_le, lemma_chars_le_total, lemma_chars_le_transitive, str_le};
use crate::timing::{back_to_back, fresh_figures};
use crate::types::{
    ScheduledTask, ScheduledTaskView, TaskView, copy_opt_string, opt_chars, scheduled_view, underlying_tasks,
};

verus! {

/// The EDF relation: `a` may run before `b`. Tasks with a deadline come
/// before tasks without one; deadlines compare as strings; among tasks
/// without a deadline the higher priority comes first.
pub open spec fn edf_before_or_ties(
    a_deadline: Option<Seq<char>>,
    a_priority: u8,
    b_deadline: Option<Seq<char>>,
    b_priority: u8,
) -> bool {
    match (a_deadline, b_deadline) {
        (Some(x), Some(y)) => chars_le(x, y),
        (Some(_), None) => true,
        (None, Some(_)) => false,
        (None, None) => a_priority >= b_priority,
    }
}

/// The EDF relation on tasks.
pub open spec fn edf_le(a: TaskView, b: TaskView) -> bool {
    edf_before_or_ties(a.deadline, a.priority, b.deadline, b.priority)
}

/// Taking `tasks` in the order `p` is a stable EDF sort.
pub open spec fn edf_sorted(tasks: Seq<TaskView>, p: Seq<int>) -> bool {
    forall|k: int, l: int|
        #![trigger p[k], p[l]]
        0 <= k < l < p.len() ==> edf_le(tasks[p[k]], tasks[p[l]]) && (edf_le(tasks[p[l]], tasks[p[k]])
            ==> p[k] < p[l])
}

/// `plan` is `chosen` sorted stably earliest deadline first and placed back
/// to back from minute zero, with fresh figures.
pub open spec fn edf_plan(chosen: Seq<TaskView>, plan: Seq<ScheduledTaskView>) -> bool {
    &&& exists|p: Seq<int>|
        {
            &&& is_permutation(p, chosen.len() as int)
            &&& edf_sorted(chosen, p)
            &&& underlying_tasks(plan) == arrange(chosen, p)
        }
    &&& back_to_back(plan)
    &&& fresh_figures(plan)
}

/// What EDF compares of a task.
pub struct EdfKey {
    pub deadline: Option<String>,
    pub priority: u8,
}

impl SortKey for EdfKey {
    open spec fn goes_before_or_ties(self, other: Self) -> bool {
        edf_before_or_ties(opt_chars(self.deadline), self.priority, opt_chars(other.deadline), other.priority)
    }

    proof fn lemma_total(a: Self, b: Self) {
        match (a.deadline, b.deadline) {
            (Some(x), Some(y)) => lemma_chars_le_total(x@, y@),
            _ => {},
        }
    }

    proof fn lemma_transitive(a: Self, b: Self, c: Self) {
        match (a.deadline, b.deadline, c.deadline) {
            (Some(x), Some(y), Some(z)) => lemma_chars_le_transitive(x@, y@, z@),
            _ => {},
        }
    }

    fn before_or_ties(&self, other: &Self) -> (r: bool) {
        match (&self.deadline, &other.deadline) {
            (Some(x), Some(y)) => str_le(x.as_str(), y.as_str()),
            (Some(_), None) => true,
            (None, Some(_)) => false,
            (None, None) => self.priority >= other.priority,
        }
    }
}

/// Sorts the tasks earliest deadline first, stably: tasks with a deadline
/// precede those without, deadlines compare as strings, and tasks without a
/// deadline go by descending priority.
pub fn order_by_edf(tasks: &mut Vec<ScheduledTask>)
    ensures
        exists|p: Seq<int>|
            {
                &&& is_permutation(p, old(tasks)@.len() as int)
                &&& scheduled_view(final(tasks)@) == arrange(scheduled_view(old(tasks)@), p)
                &&& edf_sorted(underlying_tasks(scheduled_view(old(tasks)@)), p)
            },
{
    let ghost old_view = scheduled_view(tasks@);
    let n = tasks.len();
    let mut keys: Vec<EdfKey> = Vec::new();
    let mut i: usize = 0;
    while i < n
        invariant
            i <= n,
            n == tasks.len(),
            old_view == scheduled_view(tasks@),
            keys@.len() == i,
            forall|k: int|
                0 <= k < i ==> opt_chars((#[trigger] keys@[k]).deadline) == old_view[k].task.deadline
                    && keys@[k].priority == old_view[k].task.priority,
        decreases n - i,
    {
        keys.push(
            EdfKey { deadline: copy_opt_string(&tasks[i].task.deadline), priority: tasks[i].task.priority },
        );
        i = i + 1;
    }
    let order = stable_sort_order(&keys);
    let ghost p = as_ints(order@);
    let mut sorted: Vec<ScheduledTask> = Vec::new();
    let mut j: usize = 0;
    while j < n
        invariant
            j <= n,
            n == tasks.len(),
            old_view == scheduled_view(tasks@),
            is_permutation(p, n as int),
            p == as_ints(order@),
            sorted@.len() == j,
            forall|k: int| 0 <= k < j ==> (#[trigger] sorted@[k])@ == old_view[p[k]],
        decreases n - j,
    {
        assert(p[j as int] == order@[j as int] as int);
        sorted.push(tasks[order[j]].duplicate());
        j = j + 1;
    }
    *tasks = sorted;
    proof {
        assert(scheduled_view(tasks@) =~= arrange(old_view, p));
        let plain = underlying_tasks(old_view);
        assert forall|k: int, l: int| 0 <= k < l < p.len() implies edf_le(plain[p[k]], plain[p[l]])
            && (edf_le(plain[p[l]], plain[p[k]]) ==> p[k] < p[l]) by {
            assert(keys@[p[k]].goes_before_or_ties(keys@[p[l]]));
        }
    }
}

/// In an EDF plan every task with a deadline runs before every task
/// without one.
pub proof fn lemma_deadlines_first(chosen: Seq<TaskView>, plan: Seq<ScheduledTaskView>, k: int, l: int)
    requires
        edf_plan(chosen, plan),
        0 <= k < l < plan.len(),
        plan[l].task.deadline is Some,
    ensures
        plan[k].task.deadline is Some,
{
    let p = choose|p: Seq<int>|
        {
            &&& is_permutation(p, chosen.len() as int)
            &&& edf_sorted(chosen, p)
            &&& underlying_tasks(plan) == arrange(chosen, p)
        };
    assert(underlying_tasks(plan)[k] == plan[k].task);
    assert(underlying_tasks(plan)[l] == plan[l].task);
    assert(edf_le(chosen[p[k]], chosen[p[l]]));
}

} // verus!
