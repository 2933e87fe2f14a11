//! What-if changes to a task list.
use vstd::prelude::*;
use crate::types::{Task, TaskView, tasks_view};

verus! {

/// A change the user considers.
#[derive(Clone, Debug)]
pub enum ScheduleChange {
    /// Drop the task with this id.
    RemoveTask(String),
    /// Push the deadline of the task with this id further out.
    DelayTask(String),
}

/// The tasks whose id differs from `id`, in order.
pub open spec fn without_id(tasks: Seq<TaskView>, id: Seq<char>) -> Seq<TaskView>
    decreases tasks.len(),
{
    if tasks.len() == 0 {
        seq![]
    } else if tasks.last().id == id {
        without_id(tasks.drop_last(), id)
    } else {
        without_id(tasks.drop_last(), id).push(tasks.last())
    }
}

/// Whether position `k` holds the first task that carries `id`.
pub open spec fn first_with_id(tasks: Seq<TaskView>, id: Seq<char>, k: int) -> bool {
    &&& tasks[k].id == id
    &&& forall|j: int| 0 <= j < k ==> #[trigger] tasks[j].id != id
}

/// The tasks with the first one that carries `id` given `deadline`.
pub open spec fn delay_first(tasks: Seq<TaskView>, id: Seq<char>, deadline: Seq<char>) -> Seq<TaskView> {
    Seq::new(
        tasks.len(),
        |k: int|
            if first_with_id(tasks, id, k) {
                TaskView { deadline: Some(deadline), ..tasks[k] }
            } else {
                tasks[k]
            },
    )
}

/// The task list after the change; a delayed task gets `new_deadline`.
pub open spec fn changed_tasks(tasks: Seq<TaskView>, change: ScheduleChange, new_deadline: Seq<char>) -> Seq<
    TaskView,
> {
    match change {
        ScheduleChange::RemoveTask(id) => without_id(tasks, id@),
        ScheduleChange::DelayTask(id) => delay_first(tasks, id@, new_deadline),
    }
}

/// Applies a what-if change: removing drops every task with the id;
/// delaying gives the first task with the id the deadline `new_deadline`
/// (the caller's timestamp 48 hours from now).
pub fn apply_change(tasks: &Vec<Task>, change: &ScheduleChange, new_deadline: &str) -> (changed: Vec<Task>)
    ensures
        tasks_view(changed@) == changed_tasks(tasks_view(tasks@), *change, new_deadline@),
{
    let ghost tv = tasks_view(tasks@);
    let mut changed: Vec<Task> = Vec::new();
    let mut i: usize = 0;
    match change {
        ScheduleChange::RemoveTask(id) => {
            while i < tasks.len()
                invariant
                    i <= tasks.len(),
                    tv == tasks_view(tasks@),
                    tasks_view(changed@) == without_id(tv.take(i as int), id@),
                decreases tasks.len() - i,
            {
                assert(tv.take(i + 1).drop_last() =~= tv.take(i as int));
                assert(tv.take(i + 1).last() == tasks@[i as int]@);
                if tasks[i].id != *id {
                    let ghost before = tasks_view(changed@);
                    changed.push(tasks[i].duplicate());
                    assert(tasks_view(changed@) =~= before.push(tasks@[i as int]@));
                }
                i = i + 1;
            }
            assert(tv.take(tasks.len() as int) =~= tv);
        },
        ScheduleChange::DelayTask(id) => {
            let ghost target = delay_first(tv, id@, new_deadline@);
            let mut found = false;
            while i < tasks.len()
                invariant
                    i <= tasks.len(),
                    tv == tasks_view(tasks@),
                    target == delay_first(tv, id@, new_deadline@),
                    found == (exists|j: int| 0 <= j < i && #[trigger] tv[j].id == id@),
                    tasks_view(changed@) == target.take(i as int),
                decreases tasks.len() - i,
            {
                let mut t = tasks[i].duplicate();
                proof {
                    if !found {
                        assert forall|j: int| 0 <= j < i implies #[trigger] tv[j].id != id@ by {}
                    } else {
                        let j = choose|j: int| 0 <= j < i && #[trigger] tv[j].id == id@;
                        assert(!first_with_id(tv, id@, i as int));
                    }
                }
                if !found && t.id == *id {
                    t.deadline = Some(String::from_str(new_deadline));
                    found = true;
                }
                let ghost before = tasks_view(changed@);
                changed.push(t);
                assert(tasks_view(changed@) =~= before.push(target[i as int]));
                assert(target.take(i + 1) =~= target.take(i as int).push(target[i as int]));
                i = i + 1;
            }
            assert(target.take(tasks.len() as int) =~= target);
        },
    }
    changed
}

/// Removing an id that no task carries leaves the task list as it was.
pub proof fn lemma_remove_absent_id(tasks: Seq<TaskView>, id: Seq<char>)
    requires
        forall|k: int| 0 <= k < tasks.len() ==> #[trigger] tasks[k].id != id,
    ensures
        without_id(tasks, id) == tasks,
    decreases tasks.len(),
{
    if tasks.len() > 0 {
        let rest = tasks.drop_last();
        assert forall|k: int| 0 <= k < rest.len() implies #[trigger] rest[k].id != id by {
            assert(rest[k] == tasks[k]);
        }
        lemma_remove_absent_id(rest, id);
        assert(tasks.last().id != id);
        assert(rest.push(tasks.last()) =~= tasks);
    }
}

/// Removing keeps exactly the tasks with another id, in order: no task
/// with the id is left, and every other task is kept.
pub proof fn lemma_remove_drops_only_id(tasks: Seq<TaskView>, id: Seq<char>)
    ensures
        without_id(tasks, id).len() <= tasks.len(),
        forall|k: int| 0 <= k < without_id(tasks, id).len() ==> #[trigger] without_id(tasks, id)[k].id != id,
        forall|k: int| 0 <= k < tasks.len() && #[trigger] tasks[k].id != id ==> without_id(tasks, id).contains(tasks[k]),
    decreases tasks.len(),
{
    if tasks.len() > 0 {
        let rest = tasks.drop_last();
        lemma_remove_drops_only_id(rest, id);
        let r = without_id(rest, id);
        assert forall|k: int| 0 <= k < tasks.len() && #[trigger] tasks[k].id != id implies without_id(tasks, id).contains(tasks[k]) by {
            if k < rest.len() {
                assert(rest[k] == tasks[k]);
                assert(r.contains(tasks[k]));
                let j = choose|j: int| 0 <= j < r.len() && r[j] == tasks[k];
                if tasks.last().id != id {
                    assert(r.push(tasks.last())[j] == tasks[k]);
                }
            } else {
                assert(r.push(tasks.last())[r.len() as int] == tasks[k]);
            }
        }
    }
}

/// Delaying keeps every task and its place; only the first task with the
/// id changes, and only in its deadline, which becomes the new one.
pub proof fn lemma_delay_keeps_tasks(tasks: Seq<TaskView>, id: Seq<char>, deadline: Seq<char>)
    ensures
        delay_first(tasks, id, deadline).len() == tasks.len(),
        forall|k: int|
            0 <= k < tasks.len() ==> {
                let d = #[trigger] delay_first(tasks, id, deadline)[k];
                &&& d.id == tasks[k].id
                &&& d.name == tasks[k].name
                &&& d.duration == tasks[k].duration
                &&& d.priority == tasks[k].priority
                &&& d.deadline == (if first_with_id(tasks, id, k) {
                    Some(deadline)
                } else {
                    tasks[k].deadline
                })
            },
{
}

} // verus!
