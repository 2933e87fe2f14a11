//! The planner's data: tasks, scheduled tasks and the scheduling mode.
//!
//! Emotional weight, stress contribution and deadline risk are real numbers
//! that only the caller computes with; the library carries each of them as
//! the IEEE-754 bit pattern of the `f64` it stands for, unchanged.
use vstd::prelude::*;
use crate::ids::{uuid_chars, uuid_v4, xorshift_steps};

verus! {

/// The two scheduling strategies.
#[derive(Clone, Copy, Debug, PartialEq, Eq, Structural)]
pub enum ScheduleMode {
    /// Relaxed: greedy by value density, shortest task first.
    Serenity,
    /// Deadline-driven: optimal selection, earliest deadline first.
    Crunch,
}

/// A task the user wants to fit into the available time.
#[derive(Clone, Debug)]
pub struct Task {
    pub id: String,
    pub name: String,
    /// Minutes.
    pub duration: u32,
    pub priority: u8,
    pub deadline: Option<String>,
    pub tags: Vec<String>,
    /// Bit pattern of the `f64` emotional weight.
    pub emotional_weight_bits: u64,
    pub category: Option<String>,
}

/// A task placed in a schedule.
#[derive(Clone, Debug)]
pub struct ScheduledTask {
    pub task: Task,
    /// Minutes from the start of the session.
    pub start_time: u32,
    pub end_time: u32,
    /// Bit pattern of the `f64` stress contribution.
    pub stress_contribution_bits: u64,
    /// Bit pattern of the `f64` deadline risk.
    pub deadline_risk_bits: u64,
}

/// Mathematical content of a [`Task`].
pub struct TaskView {
    pub id: Seq<char>,
    pub name: Seq<char>,
    pub duration: u32,
    pub priority: u8,
    pub deadline: Option<Seq<char>>,
    pub tags: Seq<Seq<char>>,
    pub emotional_weight_bits: u64,
    pub category: Option<Seq<char>>,
}

/// Mathematical content of a [`ScheduledTask`].
pub struct ScheduledTaskView {
    pub task: TaskView,
    pub start_time: u32,
    pub end_time: u32,
    pub stress_contribution_bits: u64,
    pub deadline_risk_bits: u64,
}

/// The characters of an optional string.
pub open spec fn opt_chars(s: Option<String>) -> Option<Seq<char>> {
    match s {
        Some(t) => Some(t@),
        None => None,
    }
}

/// The characters of each string.
pub open spec fn strings_view(v: Seq<String>) -> Seq<Seq<char>> {
    v.map_values(|s: String| s@)
}

impl View for Task {
    type V = TaskView;

    open spec fn view(&self) -> TaskView {
        TaskView {
            id: self.id@,
            name: self.name@,
            duration: self.duration,
            priority: self.priority,
            deadline: opt_chars(self.deadline),
            tags: strings_view(self.tags@),
            emotional_weight_bits: self.emotional_weight_bits,
            category: opt_chars(self.category),
        }
    }
}

impl View for ScheduledTask {
    type V = ScheduledTaskView;

    open spec fn view(&self) -> ScheduledTaskView {
        ScheduledTaskView {
            task: self.task@,
            start_time: self.start_time,
            end_time: self.end_time,
            stress_contribution_bits: self.stress_contribution_bits,
            deadline_risk_bits: self.deadline_risk_bits,
        }
    }
}

/// The views of a sequence of tasks.
pub open spec fn tasks_view(v: Seq<Task>) -> Seq<TaskView> {
    v.map_values(|t: Task| t@)
}

/// The views of a sequence of scheduled tasks.
pub open spec fn scheduled_view(v: Seq<ScheduledTask>) -> Seq<ScheduledTaskView> {
    v.map_values(|t: ScheduledTask| t@)
}

/// The underlying tasks of a sequence of scheduled tasks.
pub open spec fn underlying_tasks(v: Seq<ScheduledTaskView>) -> Seq<TaskView> {
    v.map_values(|t: ScheduledTaskView| t.task)
}

/// A copy of an optional string.
pub fn copy_opt_string(s: &Option<String>) -> (r: Option<String>)
    ensures
        opt_chars(r) == opt_chars(*s),
{
    match s {
        Some(t) => Some(t.clone()),
        None => None,
    }
}

/// A copy of a list of strings.
pub fn copy_strings(v: &Vec<String>) -> (r: Vec<String>)
    ensures
        strings_view(r@) == strings_view(v@),
{
    let mut r: Vec<String> = Vec::new();
    let mut i: usize = 0;
    while i < v.len()
        invariant
            i <= v.len(),
            r@.len() == i,
            forall|k: int| 0 <= k < i ==> #[trigger] r@[k]@ == v@[k]@,
        decreases v.len() - i,
    {
        r.push(v[i].clone());
        i = i + 1;
    }
    assert(strings_view(r@) =~= strings_view(v@));
    r
}

impl Task {
    /// A new task with a fresh identifier from the generator (six steps),
    /// no deadline, no tags, no category and zero emotional weight.
    pub fn new(name: String, duration: u32, priority: u8, seed: &mut u64) -> (t: Task)
        ensures
            t@.id == uuid_chars(*old(seed)),
            t@.name == name@,
            t@.duration == duration,
            t@.priority == priority,
            t@.deadline is None,
            t@.tags.len() == 0,
            t@.emotional_weight_bits == 0,
            t@.category is None,
            *final(seed) == xorshift_steps(*old(seed), 6),
    {
        let id = uuid_v4(seed);
        Task {
            id,
            name,
            duration,
            priority,
            deadline: None,
            tags: Vec::new(),
            emotional_weight_bits: 0,
            category: None,
        }
    }

    /// A copy with the same content.
    pub fn duplicate(&self) -> (r: Task)
        ensures
            r@ == self@,
    {
        Task {
            id: self.id.clone(),
            name: self.name.clone(),
            duration: self.duration,
            priority: self.priority,
            deadline: copy_opt_string(&self.deadline),
            tags: copy_strings(&self.tags),
            emotional_weight_bits: self.emotional_weight_bits,
            category: copy_opt_string(&self.category),
        }
    }
}

impl ScheduledTask {
    /// A copy with the same content.
    pub fn duplicate(&self) -> (r: ScheduledTask)
        ensures
            r@ == self@,
    {
        ScheduledTask {
            task: self.task.duplicate(),
            start_time: self.start_time,
            end_time: self.end_time,
            stress_contribution_bits: self.stress_contribution_bits,
            deadline_risk_bits: self.deadline_risk_bits,
        }
    }

    /// A task placed at time zero, with zero stress contribution and zero
    /// deadline risk (the bit pattern of `0.0` is zero).
    pub fn unplaced(task: Task) -> (r: ScheduledTask)
        ensures
            r@.task == task@,
            r@.start_time == 0,
            r@.end_time == 0,
            r@.stress_contribution_bits == 0,
            r@.deadline_risk_bits == 0,
    {
        ScheduledTask {
            task,
            start_time: 0,
            end_time: 0,
            stress_contribution_bits: 0,
            deadline_risk_bits: 0,
        }
    }
}

} // verus!
