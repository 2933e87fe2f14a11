//! What the screens compute: labels, colours, times of day, form input and
//! reordering by drag and drop.
use vstd::prelude::*;
use vstd::string::*;
use crate::digits::{decimal_chars, decimal_digits, digit_char, digit_to_char};
use crate::sorting::as_ints;
use crate::text::{chars_of, push_char, split_chars, split_on, string_from_chars, sub_chars, trim_bounds, trim_chars};
use crate::timing::{assign_times, back_to_back, same_but_times, total_duration};
use crate::ids::{uuid_chars, xorshift_steps};
use crate::types::{ScheduledTask, Task, TaskView, scheduled_view, strings_view, tasks_view, underlying_tasks};

verus! {

/// `minutes` as hours and two-digit minutes, such as `1:05` or `0:45`.
pub open spec fn clock_chars(minutes: u32) -> Seq<char> {
    let h = minutes / 60;
    let m = minutes % 60;
    decimal_chars(h as nat) + seq![':', digit_char((m / 10) as nat), digit_char((m % 10) as nat)]
}

/// Formats a number of minutes as a time of day on the timeline.
pub fn format_time(minutes: u32) -> (s: String)
    ensures
        s@ == clock_chars(minutes),
{
    let h = minutes / 60;
    let m = minutes % 60;
    let mut chars = decimal_digits(h as u64);
    chars.push(':');
    chars.push(digit_to_char((m / 10) as u8));
    chars.push(digit_to_char((m % 10) as u8));
    string_from_chars(&chars)
}

/// The colour of a priority: green for 1-2, amber for 3, red for 4-5, grey
/// otherwise.
pub open spec fn priority_color_spec(priority: u8) -> Seq<char> {
    if priority == 1 || priority == 2 {
        "#22c55e"@
    } else if priority == 3 {
        "#f59e0b"@
    } else if priority == 4 || priority == 5 {
        "#ef4444"@
    } else {
        "#94a3b8"@
    }
}

/// The colour a task block gets on the timeline.
pub fn priority_color(priority: u8) -> (c: &'static str)
    ensures
        c@ == priority_color_spec(priority),
{
    if priority == 1 || priority == 2 {
        "#22c55e"
    } else if priority == 3 {
        "#f59e0b"
    } else if priority == 4 || priority == 5 {
        "#ef4444"
    } else {
        "#94a3b8"
    }
}

/// The words for a priority.
pub open spec fn priority_label_spec(priority: u8) -> Seq<char> {
    if priority == 5 {
        "Critical"@
    } else if priority == 4 {
        "High"@
    } else if priority == 3 {
        "Medium"@
    } else if priority == 2 {
        "Low"@
    } else if priority == 1 {
        "Nice to do"@
    } else {
        ""@
    }
}

/// The label the priority selector shows.
pub fn priority_label(priority: u8) -> (l: &'static str)
    ensures
        l@ == priority_label_spec(priority),
{
    if priority == 5 {
        "Critical"
    } else if priority == 4 {
        "High"
    } else if priority == 3 {
        "Medium"
    } else if priority == 2 {
        "Low"
    } else if priority == 1 {
        "Nice to do"
    } else {
        ""
    }
}

/// One star per priority point, as the task list shows them.
pub fn priority_stars(priority: u8) -> (s: String)
    ensures
        s@ == Seq::new(priority as nat, |k: int| '★'),
{
    let mut s = String::new();
    let mut k: u8 = 0;
    while k < priority
        invariant
            k <= priority,
            s@ == Seq::new(k as nat, |j: int| '★'),
        decreases priority - k,
    {
        push_char(&mut s, '★');
        assert(s@ =~= Seq::new((k + 1) as nat, |j: int| '★'));
        k = k + 1;
    }
    s
}

/// Colour and words for a decision-debt score: healthy up to 3, some open
/// decisions up to 7, clear some choices up to 10, critical above.
pub open spec fn debt_badge_spec(debt: u32) -> (Seq<char>, Seq<char>) {
    if debt <= 3 {
        ("#22c55e"@, "Healthy"@)
    } else if debt <= 7 {
        ("#f59e0b"@, "Some open decisions"@)
    } else if debt <= 10 {
        ("#f97316"@, "Clear some choices"@)
    } else {
        ("#ef4444"@, "Decision debt is critical"@)
    }
}

/// The badge the navigation bar shows for a decision-debt score.
pub fn debt_badge(debt: u32) -> (b: (&'static str, &'static str))
    ensures
        (b.0@, b.1@) == debt_badge_spec(debt),
{
    if debt <= 3 {
        ("#22c55e", "Healthy")
    } else if debt <= 7 {
        ("#f59e0b", "Some open decisions")
    } else if debt <= 10 {
        ("#f97316", "Clear some choices")
    } else {
        ("#ef4444", "Decision debt is critical")
    }
}

/// The tags of comma-separated input: each piece trimmed, empty pieces
/// dropped.
pub open spec fn tags_from(pieces: Seq<Seq<char>>) -> Seq<Seq<char>>
    decreases pieces.len(),
{
    if pieces.len() == 0 {
        seq![]
    } else {
        let earlier = tags_from(pieces.drop_last());
        let t = trim_chars(pieces.last());
        if t.len() == 0 {
            earlier
        } else {
            earlier.push(t)
        }
    }
}

/// Reads the tags field of the task form.
pub fn parse_tags(input: &str) -> (tags: Vec<String>)
    ensures
        tags@.map_values(|t: String| t@) == tags_from(split_on(input@, ',')),
{
    let chars = chars_of(input);
    let pieces = split_chars(&chars, ',');
    let ghost pv = pieces@.map_values(|p: Vec<char>| p@);
    let mut tags: Vec<String> = Vec::new();
    let mut i: usize = 0;
    while i < pieces.len()
        invariant
            i <= pieces.len(),
            pv == pieces@.map_values(|p: Vec<char>| p@),
            tags@.map_values(|t: String| t@) == tags_from(pv.take(i as int)),
        decreases pieces.len() - i,
    {
        let (lo, hi) = trim_bounds(&pieces[i]);
        assert(pv.take(i + 1).drop_last() =~= pv.take(i as int));
        assert(pv.take(i + 1).last() == pieces@[i as int]@);
        if lo < hi {
            let t = string_from_chars(&sub_chars(&pieces[i], lo, hi));
            let ghost before = tags@.map_values(|t: String| t@);
            tags.push(t);
            assert(tags@.map_values(|t: String| t@) =~= before.push(t@));
        }
        i = i + 1;
    }
    assert(pv.take(pieces.len() as int) =~= pv);
    tags
}

/// What the task form accepts: the trimmed name, or the first complaint.
pub open spec fn task_input_check(name: Seq<char>, duration: u32) -> Result<Seq<char>, Seq<char>> {
    if trim_chars(name).len() == 0 {
        Err("Task name is required"@)
    } else if duration == 0 {
        Err("Duration must be greater than 0"@)
    } else {
        Ok(trim_chars(name))
    }
}

/// Checks the task form: a name that is not blank and a positive duration.
pub fn validate_task_input(name: &str, duration: u32) -> (r: Result<String, String>)
    ensures
        match r {
            Ok(n) => task_input_check(name@, duration) == Ok::<Seq<char>, Seq<char>>(n@),
            Err(e) => task_input_check(name@, duration) == Err::<Seq<char>, Seq<char>>(e@),
        },
{
    let chars = chars_of(name);
    let (lo, hi) = trim_bounds(&chars);
    if lo == hi {
        return Err(String::from_str("Task name is required"));
    }
    if duration == 0 {
        return Err(String::from_str("Duration must be greater than 0"));
    }
    Ok(string_from_chars(&sub_chars(&chars, lo, hi)))
}

/// The task the form adds: the checked name, the given duration and
/// priority, no deadline when the deadline field is empty, the tags of the
/// tags field, and a fresh identifier (the generator advances six steps).
/// When [`task_input_check`] complains, its complaint comes back and the
/// generator is untouched.
pub fn task_from_form(
    name: &str,
    duration: u32,
    priority: u8,
    deadline: &str,
    tags: &str,
    seed: &mut u64,
) -> (r: Result<Task, String>)
    ensures
        match task_input_check(name@, duration) {
            Err(e) => r matches Err(m) && m@ == e && *final(seed) == *old(seed),
            Ok(n) => r matches Ok(t) && t@ == (TaskView {
                id: uuid_chars(*old(seed)),
                name: n,
                duration,
                priority,
                deadline: if deadline@.len() == 0 {
                    None
                } else {
                    Some(deadline@)
                },
                tags: tags_from(split_on(tags@, ',')),
                emotional_weight_bits: 0,
                category: None,
            }) && *final(seed) == xorshift_steps(*old(seed), 6),
        },
{
    match validate_task_input(name, duration) {
        Err(e) => Err(e),
        Ok(n) => {
            let parsed = parse_tags(tags);
            let mut t = Task::new(n, duration, priority, seed);
            if deadline.unicode_len() > 0 {
                t.deadline = Some(String::from_str(deadline));
            }
            t.tags = parsed;
            proof {
                assert(strings_view(t.tags@) =~= tags_from(split_on(tags@, ',')));
            }
            Ok(t)
        }
    }
}

/// The words on the generate button.
pub fn generate_label(generating: bool, no_tasks: bool) -> (l: &'static str)
    ensures
        l@ == (if generating {
            "Generating..."@
        } else if no_tasks {
            "Add tasks to generate"@
        } else {
            "Generate Schedule"@
        }),
{
    if generating {
        "Generating..."
    } else if no_tasks {
        "Add tasks to generate"
    } else {
        "Generate Schedule"
    }
}

/// The name a schedule is saved under: the trimmed input, or "Untitled
/// Schedule" when it is blank.
pub fn schedule_save_name(input: &str) -> (n: String)
    ensures
        n@ == (if trim_chars(input@).len() == 0 {
            "Untitled Schedule"@
        } else {
            trim_chars(input@)
        }),
{
    let chars = chars_of(input);
    let (lo, hi) = trim_bounds(&chars);
    if lo == hi {
        String::from_str("Untitled Schedule")
    } else {
        string_from_chars(&sub_chars(&chars, lo, hi))
    }
}

/// The time window the configuration panel gives: hours capped at 12 and
/// minutes at 59.
pub fn available_minutes(hours: u32, minutes: u32) -> (total: u32)
    ensures
        total == (if hours > 12 {
            12
        } else {
            hours
        }) * 60 + (if minutes > 59 {
            59
        } else {
            minutes
        }),
{
    let h = if hours > 12 {
        12
    } else {
        hours
    };
    let m = if minutes > 59 {
        59
    } else {
        minutes
    };
    h * 60 + m
}

/// Whether some scheduled task carries this id.
pub open spec fn id_scheduled(scheduled: Seq<TaskView>, id: Seq<char>) -> bool {
    exists|k: int| 0 <= k < scheduled.len() && #[trigger] scheduled[k].id == id
}

/// The positions of the tasks whose id no scheduled task carries, ascending.
pub open spec fn excluded_positions(all: Seq<TaskView>, scheduled: Seq<TaskView>, i: int) -> Seq<int>
    decreases i,
{
    if i <= 0 {
        seq![]
    } else if id_scheduled(scheduled, all[i - 1].id) {
        excluded_positions(all, scheduled, i - 1)
    } else {
        excluded_positions(all, scheduled, i - 1).push(i - 1)
    }
}

fn is_scheduled(scheduled: &Vec<ScheduledTask>, id: &String) -> (r: bool)
    ensures
        r == id_scheduled(underlying_tasks(scheduled_view(scheduled@)), id@),
{
    let ghost plain = underlying_tasks(scheduled_view(scheduled@));
    let mut k: usize = 0;
    while k < scheduled.len()
        invariant
            k <= scheduled.len(),
            plain == underlying_tasks(scheduled_view(scheduled@)),
            forall|j: int| 0 <= j < k ==> plain[j].id != id@,
        decreases scheduled.len() - k,
    {
        if scheduled[k].task.id == *id {
            assert(plain[k as int].id == id@);
            return true;
        }
        k = k + 1;
    }
    false
}

/// The tasks the schedule left out (by id), as positions in `all`.
pub fn excluded_task_indices(all: &Vec<Task>, scheduled: &Vec<ScheduledTask>) -> (excluded: Vec<usize>)
    ensures
        as_ints(excluded@) == excluded_positions(
            tasks_view(all@),
            underlying_tasks(scheduled_view(scheduled@)),
            all.len() as int,
        ),
{
    let ghost tv = tasks_view(all@);
    let ghost plain = underlying_tasks(scheduled_view(scheduled@));
    let mut excluded: Vec<usize> = Vec::new();
    let mut i: usize = 0;
    while i < all.len()
        invariant
            i <= all.len(),
            tv == tasks_view(all@),
            plain == underlying_tasks(scheduled_view(scheduled@)),
            as_ints(excluded@) == excluded_positions(tv, plain, i as int),
        decreases all.len() - i,
    {
        if !is_scheduled(scheduled, &all[i].id) {
            let ghost before = as_ints(excluded@);
            excluded.push(i);
            assert(as_ints(excluded@) =~= before.push(i as int));
        }
        i = i + 1;
    }
    excluded
}

/// Minutes of the window the schedule leaves free (zero if it is full).
pub fn remaining_minutes(scheduled: &Vec<ScheduledTask>, available_time: u32) -> (free: u32)
    requires
        total_duration(underlying_tasks(scheduled_view(scheduled@))) <= u32::MAX,
    ensures
        free == (if total_duration(underlying_tasks(scheduled_view(scheduled@))) >= available_time {
            0
        } else {
            available_time - total_duration(underlying_tasks(scheduled_view(scheduled@)))
        }),
{
    let ghost plain = underlying_tasks(scheduled_view(scheduled@));
    let mut used: u32 = 0;
    let mut k: usize = 0;
    while k < scheduled.len()
        invariant
            k <= scheduled.len(),
            plain == underlying_tasks(scheduled_view(scheduled@)),
            total_duration(plain) <= u32::MAX,
            used == total_duration(plain.take(k as int)),
        decreases scheduled.len() - k,
    {
        proof {
            crate::timing::lemma_total_prefix(plain, k + 1);
            assert(plain.take(k + 1).drop_last() =~= plain.take(k as int));
        }
        used = used + scheduled[k].task.duration;
        k = k + 1;
    }
    assert(plain.take(scheduled.len() as int) =~= plain);
    available_time.saturating_sub(used)
}

/// Why a task was left out.
#[derive(Clone, Copy, Debug, PartialEq, Eq, Structural)]
pub enum ExclusionReason {
    /// It needs more minutes than the schedule leaves free.
    NotEnoughTime { needed: u32, remaining: u32 },
    /// It would fit, but tasks of higher value took the time.
    Displaced,
}

/// The reason shown for an excluded task of `duration` minutes when the
/// schedule leaves `remaining` minutes free.
pub fn exclusion_reason(duration: u32, remaining: u32) -> (r: ExclusionReason)
    ensures
        r == (if duration > remaining {
            ExclusionReason::NotEnoughTime { needed: duration, remaining }
        } else {
            ExclusionReason::Displaced
        }),
{
    if duration > remaining {
        ExclusionReason::NotEnoughTime { needed: duration, remaining }
    } else {
        ExclusionReason::Displaced
    }
}

/// Drag and drop: when `from` and `to` differ and both are positions of the
/// schedule, the task at `from` moves to `to` and the schedule is placed
/// back to back again (`true` comes back); otherwise nothing changes.
pub fn move_task(tasks: &mut Vec<ScheduledTask>, from: usize, to: usize) -> (moved: bool)
    requires
        from != to && from < old(tasks).len() && to < old(tasks).len() ==> total_duration(
            underlying_tasks(scheduled_view(old(tasks)@)),
        ) <= u32::MAX,
    ensures
        moved == (from != to && from < old(tasks).len() && to < old(tasks).len()),
        moved ==> same_but_times(
            scheduled_view(old(tasks)@).remove(from as int).insert(
                to as int,
                scheduled_view(old(tasks)@)[from as int],
            ),
            scheduled_view(final(tasks)@),
        ) && back_to_back(scheduled_view(final(tasks)@)),
        !moved ==> final(tasks)@ == old(tasks)@,
{
    if from == to || from >= tasks.len() || to >= tasks.len() {
        return false;
    }
    let ghost old_view = scheduled_view(tasks@);
    let task = tasks.remove(from);
    tasks.insert(to, task);
    proof {
        let new_view = scheduled_view(tasks@);
        let expected = old_view.remove(from as int).insert(to as int, old_view[from as int]);
        assert(new_view =~= expected);
        crate::timing::lemma_total_move(underlying_tasks(old_view), from as int, to as int);
        assert(underlying_tasks(new_view) =~= underlying_tasks(old_view).remove(from as int).insert(
            to as int,
            underlying_tasks(old_view)[from as int],
        ));
    }
    assign_times(tasks);
    true
}

} // verus!
