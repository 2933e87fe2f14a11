//! Identity conflicts: too many roles, competing high-priority roles and
//! frequent switching between roles within one schedule.
//!
//! Roles and categories are reported in the order in which they first
//! occur; a task without a category has the role "uncategorised".
use vstd::prelude::*;
use vstd::string::*;
use crate::digits::{decimal_chars, decimal_digits};
use crate::text::{chars_of, string_from_chars};
use crate::types::{ScheduledTask, TaskView, underlying_tasks, scheduled_view, opt_chars};

verus! {

/// A conflict found in a schedule.
#[derive(Clone, Debug)]
pub enum IdentityConflict {
    /// Four or more distinct roles: all of them.
    TooManyRoles(Vec<String>),
    /// Two categories (adjacent in first-occurrence order) that both hold a
    /// task of priority 4 or more.
    CompetingRoles(String, String),
    /// The category changes in `switches` of the `transitions` steps between
    /// consecutive tasks, more than 60% of them.
    FrequentSwitching { switches: usize, transitions: usize },
}

/// Mathematical content of an [`IdentityConflict`].
pub enum ConflictView {
    TooManyRoles(Seq<Seq<char>>),
    CompetingRoles(Seq<char>, Seq<char>),
    FrequentSwitching(nat, nat),
}

impl View for IdentityConflict {
    type V = ConflictView;

    open spec fn view(&self) -> ConflictView {
        match self {
            IdentityConflict::TooManyRoles(v) => ConflictView::TooManyRoles(
                v@.map_values(|s: String| s@),
            ),
            IdentityConflict::CompetingRoles(a, b) => ConflictView::CompetingRoles(a@, b@),
            IdentityConflict::FrequentSwitching { switches, transitions } => ConflictView::FrequentSwitching(
                *switches as nat,
                *transitions as nat,
            ),
        }
    }
}

/// The categories of the tasks that pass `keep`, each once, in order of
/// first occurrence.
pub open spec fn categories_in_order(tasks: Seq<TaskView>, min_priority: int) -> Seq<Seq<char>>
    decreases tasks.len(),
{
    if tasks.len() == 0 {
        seq![]
    } else {
        let earlier = categories_in_order(tasks.drop_last(), min_priority);
        let t = tasks.last();
        match t.category {
            Some(c) => if t.priority >= min_priority && !earlier.contains(c) {
                earlier.push(c)
            } else {
                earlier
            },
            None => earlier,
        }
    }
}

/// A task's role for switching purposes: its category, or "uncategorised".
pub open spec fn role_of(t: TaskView) -> Seq<char> {
    match t.category {
        Some(c) => c,
        None => "uncategorised"@,
    }
}

/// How many consecutive pairs among the first `i` tasks change role.
pub open spec fn role_switches(tasks: Seq<TaskView>, i: nat) -> nat
    decreases i,
{
    if i < 2 {
        0
    } else {
        role_switches(tasks, (i - 1) as nat) + if role_of(tasks[i - 2]) != role_of(tasks[i - 1]) {
            1nat
        } else {
            0nat
        }
    }
}

/// The number of steps the switch rate divides by: one less than the number
/// of tasks, and at least one.
pub open spec fn role_transitions(n: nat) -> nat {
    if n >= 2 {
        (n - 1) as nat
    } else {
        1
    }
}

/// The roles of the tasks (a task without a category has the role
/// "uncategorised"), each once, in order of first occurrence.
pub open spec fn roles_in_order(tasks: Seq<TaskView>) -> Seq<Seq<char>>
    decreases tasks.len(),
{
    if tasks.len() == 0 {
        seq![]
    } else {
        let earlier = roles_in_order(tasks.drop_last());
        let r = role_of(tasks.last());
        if earlier.contains(r) {
            earlier
        } else {
            earlier.push(r)
        }
    }
}

/// The conflicts of a schedule, in report order: too many roles, then each
/// adjacent pair of competing roles, then frequent switching (a switch rate
/// above 0.6, that is `5 * switches > 3 * transitions`).
pub open spec fn identity_conflicts(tasks: Seq<TaskView>) -> Seq<ConflictView> {
    let all = roles_in_order(tasks);
    let high = categories_in_order(tasks, 4);
    let switches = role_switches(tasks, tasks.len());
    let transitions = role_transitions(tasks.len());
    let too_many = if all.len() >= 4 {
        seq![ConflictView::TooManyRoles(all)]
    } else {
        seq![]
    };
    let competing = if high.len() >= 2 {
        Seq::new((high.len() - 1) as nat, |k: int| ConflictView::CompetingRoles(high[k], high[k + 1]))
    } else {
        seq![]
    };
    let switching = if 5 * switches > 3 * transitions {
        seq![ConflictView::FrequentSwitching(switches, transitions)]
    } else {
        seq![]
    };
    too_many + competing + switching
}

/// How many of the conflicts are competing-roles conflicts.
pub open spec fn competing_count(conflicts: Seq<ConflictView>) -> nat
    decreases conflicts.len(),
{
    if conflicts.len() == 0 {
        0
    } else {
        competing_count(conflicts.drop_last()) + if conflicts.last() is CompetingRoles {
            1nat
        } else {
            0nat
        }
    }
}

proof fn lemma_competing_count_concat(a: Seq<ConflictView>, b: Seq<ConflictView>)
    ensures
        competing_count(a + b) == competing_count(a) + competing_count(b),
    decreases b.len(),
{
    if b.len() > 0 {
        lemma_competing_count_concat(a, b.drop_last());
        assert((a + b).drop_last() =~= a + b.drop_last());
    } else {
        assert(a + b =~= a);
    }
}

proof fn lemma_competing_count_all(b: Seq<ConflictView>)
    requires
        forall|k: int| 0 <= k < b.len() ==> #[trigger] b[k] is CompetingRoles,
    ensures
        competing_count(b) == b.len(),
    decreases b.len(),
{
    if b.len() > 0 {
        lemma_competing_count_all(b.drop_last());
    }
}

proof fn lemma_competing_count_none(b: Seq<ConflictView>)
    requires
        forall|k: int| 0 <= k < b.len() ==> !(#[trigger] b[k] is CompetingRoles),
    ensures
        competing_count(b) == 0,
    decreases b.len(),
{
    if b.len() > 0 {
        lemma_competing_count_none(b.drop_last());
    }
}

/// The high-priority categories are exactly the categories of the tasks of
/// priority `min_priority` or more, each listed once.
pub proof fn lemma_categories_exact(tasks: Seq<TaskView>, min_priority: int)
    ensures
        forall|a: int, b: int|
            0 <= a < b < categories_in_order(tasks, min_priority).len() ==> categories_in_order(
                tasks,
                min_priority,
            )[a] != categories_in_order(tasks, min_priority)[b],
        forall|c: Seq<char>|
            categories_in_order(tasks, min_priority).contains(c) <==> exists|j: int|
                0 <= j < tasks.len() && #[trigger] tasks[j].category == Some(c) && tasks[j].priority
                    >= min_priority,
    decreases tasks.len(),
{
    if tasks.len() > 0 {
        let rest = tasks.drop_last();
        lemma_categories_exact(rest, min_priority);
        let earlier = categories_in_order(rest, min_priority);
        let now = categories_in_order(tasks, min_priority);
        assert forall|c: Seq<char>|
            now.contains(c) <==> exists|j: int|
                0 <= j < tasks.len() && #[trigger] tasks[j].category == Some(c) && tasks[j].priority
                    >= min_priority by {
            if now.contains(c) {
                if earlier.contains(c) {
                    let j = choose|j: int|
                        0 <= j < rest.len() && #[trigger] rest[j].category == Some(c) && rest[j].priority
                            >= min_priority;
                    assert(tasks[j] == rest[j]);
                } else {
                    let k = choose|k: int| 0 <= k < now.len() && now[k] == c;
                    assert(k == earlier.len());
                    assert(tasks[tasks.len() - 1].category == Some(c));
                }
            }
            if exists|j: int|
                0 <= j < tasks.len() && #[trigger] tasks[j].category == Some(c) && tasks[j].priority
                    >= min_priority {
                let j = choose|j: int|
                    0 <= j < tasks.len() && #[trigger] tasks[j].category == Some(c) && tasks[j].priority
                        >= min_priority;
                if j < rest.len() {
                    assert(rest[j] == tasks[j]);
                    assert(earlier.contains(c));
                    let k = choose|k: int| 0 <= k < earlier.len() && earlier[k] == c;
                    assert(now[k] == c);
                } else if !earlier.contains(c) {
                    assert(now[earlier.len() as int] == c);
                } else {
                    let k = choose|k: int| 0 <= k < earlier.len() && earlier[k] == c;
                    assert(now[k] == c);
                }
            }
        }
    }
}

/// Competing roles: with `h` distinct categories holding a task of priority
/// 4 or more (see [`lemma_categories_exact`]), there are `h - 1`
/// competing-roles conflicts when `h >= 2` and none otherwise, one for each
/// pair of neighbours in the order of first occurrence.
#[verifier::rlimit(40)]
pub proof fn lemma_competing_pairs(tasks: Seq<TaskView>)
    ensures
        competing_count(identity_conflicts(tasks)) == (if categories_in_order(tasks, 4).len() >= 2 {
            categories_in_order(tasks, 4).len() - 1
        } else {
            0
        }),
        forall|k: int|
            0 <= k < categories_in_order(tasks, 4).len() - 1 ==> identity_conflicts(tasks).contains(
                ConflictView::CompetingRoles(
                    #[trigger] categories_in_order(tasks, 4)[k],
                    categories_in_order(tasks, 4)[k + 1],
                ),
            ),
{
    let all = roles_in_order(tasks);
    let high = categories_in_order(tasks, 4);
    let switches = role_switches(tasks, tasks.len());
    let transitions = role_transitions(tasks.len());
    let too_many = if all.len() >= 4 {
        seq![ConflictView::TooManyRoles(all)]
    } else {
        seq![]
    };
    let competing = if high.len() >= 2 {
        Seq::new((high.len() - 1) as nat, |k: int| ConflictView::CompetingRoles(high[k], high[k + 1]))
    } else {
        seq![]
    };
    let switching = if 5 * switches > 3 * transitions {
        seq![ConflictView::FrequentSwitching(switches, transitions)]
    } else {
        seq![]
    };
    let c = identity_conflicts(tasks);
    assert(c == too_many + competing + switching);
    lemma_competing_count_concat(too_many + competing, switching);
    lemma_competing_count_concat(too_many, competing);
    lemma_competing_count_all(competing);
    lemma_competing_count_none(too_many);
    lemma_competing_count_none(switching);
    assert forall|k: int| 0 <= k < high.len() - 1 implies c.contains(
        ConflictView::CompetingRoles(#[trigger] high[k], high[k + 1]),
    ) by {
        assert(c[too_many.len() + k] == competing[k]);
    }
}

fn contains_string(list: &Vec<String>, s: &String) -> (r: bool)
    ensures
        r == list@.map_values(|x: String| x@).contains(s@),
{
    let mut i: usize = 0;
    while i < list.len()
        invariant
            i <= list.len(),
            forall|k: int| 0 <= k < i ==> list@[k]@ != s@,
        decreases list.len() - i,
    {
        if list[i] == *s {
            assert(list@.map_values(|x: String| x@)[i as int] == s@);
            return true;
        }
        i = i + 1;
    }
    false
}

fn collect_categories(tasks: &Vec<ScheduledTask>, min_priority: u8) -> (r: Vec<String>)
    ensures
        r@.map_values(|x: String| x@) == categories_in_order(
            underlying_tasks(scheduled_view(tasks@)),
            min_priority as int,
        ),
{
    let ghost plain = underlying_tasks(scheduled_view(tasks@));
    let mut found: Vec<String> = Vec::new();
    let mut i: usize = 0;
    while i < tasks.len()
        invariant
            i <= tasks.len(),
            plain == underlying_tasks(scheduled_view(tasks@)),
            found@.map_values(|x: String| x@) == categories_in_order(plain.take(i as int), min_priority as int),
        decreases tasks.len() - i,
    {
        assert(plain.take(i + 1).drop_last() =~= plain.take(i as int));
        assert(plain.take(i + 1).last() == plain[i as int]);
        let t = &tasks[i].task;
        match &t.category {
            Some(c) => {
                if t.priority >= min_priority && !contains_string(&found, c) {
                    let ghost before = found@.map_values(|x: String| x@);
                    found.push(c.clone());
                    assert(found@.map_values(|x: String| x@) =~= before.push(c@));
                }
            },
            None => {},
        }
        i = i + 1;
    }
    assert(plain.take(tasks.len() as int) =~= plain);
    found
}

fn role_text(category: &Option<String>) -> (r: String)
    ensures
        r@ == match opt_chars(*category) {
            Some(c) => c,
            None => "uncategorised"@,
        },
{
    match category {
        Some(c) => c.clone(),
        None => String::from_str("uncategorised"),
    }
}

fn collect_roles(tasks: &Vec<ScheduledTask>) -> (r: Vec<String>)
    ensures
        r@.map_values(|x: String| x@) == roles_in_order(underlying_tasks(scheduled_view(tasks@))),
{
    let ghost plain = underlying_tasks(scheduled_view(tasks@));
    let mut found: Vec<String> = Vec::new();
    let mut i: usize = 0;
    while i < tasks.len()
        invariant
            i <= tasks.len(),
            plain == underlying_tasks(scheduled_view(tasks@)),
            found@.map_values(|x: String| x@) == roles_in_order(plain.take(i as int)),
        decreases tasks.len() - i,
    {
        assert(plain.take(i + 1).drop_last() =~= plain.take(i as int));
        assert(plain.take(i + 1).last() == plain[i as int]);
        let role = role_text(&tasks[i].task.category);
        if !contains_string(&found, &role) {
            let ghost before = found@.map_values(|x: String| x@);
            found.push(role);
            assert(found@.map_values(|x: String| x@) =~= before.push(role_of(plain[i as int])));
        }
        i = i + 1;
    }
    assert(plain.take(tasks.len() as int) =~= plain);
    found
}

fn same_role(a: &Option<String>, b: &Option<String>) -> (r: bool)
    ensures
        r == (match opt_chars(*a) {
            Some(c) => c,
            None => "uncategorised"@,
        } == match opt_chars(*b) {
            Some(c) => c,
            None => "uncategorised"@,
        }),
{
    let none_label = String::from_str("uncategorised");
    let x = match a {
        Some(c) => c.clone(),
        None => none_label.clone(),
    };
    let y = match b {
        Some(c) => c.clone(),
        None => none_label,
    };
    x == y
}

/// Finds the identity conflicts of a schedule (see [`identity_conflicts`]).
pub fn detect_identity_conflicts(tasks: &Vec<ScheduledTask>) -> (conflicts: Vec<IdentityConflict>)
    ensures
        conflicts@.map_values(|c: IdentityConflict| c@) == identity_conflicts(
            underlying_tasks(scheduled_view(tasks@)),
        ),
{
    let ghost plain = underlying_tasks(scheduled_view(tasks@));
    let n = tasks.len();
    let all = collect_roles(tasks);
    let high = collect_categories(tasks, 4);
    let mut conflicts: Vec<IdentityConflict> = Vec::new();
    let ghost all_view = all@.map_values(|x: String| x@);
    let ghost high_view = high@.map_values(|x: String| x@);
    if all.len() >= 4 {
        conflicts.push(IdentityConflict::TooManyRoles(all));
    }
    let ghost first_part = conflicts@.map_values(|c: IdentityConflict| c@);
    let pairs: usize = if high.len() >= 1 {
        high.len() - 1
    } else {
        0
    };
    let mut k: usize = 0;
    while k < pairs
        invariant
            k <= pairs,
            pairs == (if high.len() >= 1 { high.len() - 1 } else { 0 }),
            high_view == high@.map_values(|x: String| x@),
            conflicts@.map_values(|c: IdentityConflict| c@) == first_part + Seq::new(
                k as nat,
                |j: int| ConflictView::CompetingRoles(high_view[j], high_view[j + 1]),
            ),
        decreases pairs - k,
    {
        let ghost before = conflicts@.map_values(|c: IdentityConflict| c@);
        let item = IdentityConflict::CompetingRoles(high[k].clone(), high[k + 1].clone());
        assert(high_view[k as int] == high@[k as int]@);
        assert(high_view[k + 1] == high@[k + 1]@);
        assert(item@ == ConflictView::CompetingRoles(high_view[k as int], high_view[k + 1]));
        conflicts.push(item);
        assert(conflicts@.map_values(|c: IdentityConflict| c@) =~= before.push(item@));
        assert(conflicts@.map_values(|c: IdentityConflict| c@) =~= first_part + Seq::new(
            (k + 1) as nat,
            |j: int| ConflictView::CompetingRoles(high_view[j], high_view[j + 1]),
        ));
        k = k + 1;
    }
    let ghost second_part = conflicts@.map_values(|c: IdentityConflict| c@);
    let mut switches: usize = 0;
    let mut i: usize = 1;
    while i < n
        invariant
            1 <= i,
            n == tasks.len(),
            plain == underlying_tasks(scheduled_view(tasks@)),
            i <= n || i == 1,
            switches == role_switches(plain, i as nat),
            switches < i,
        decreases n - i,
    {
        if !same_role(&tasks[i - 1].task.category, &tasks[i].task.category) {
            switches = switches + 1;
        }
        i = i + 1;
    }
    let transitions: usize = if n >= 2 {
        n - 1
    } else {
        1
    };
    proof {
        if n >= 2 {
            assert(switches == role_switches(plain, n as nat));
        } else {
            assert(role_switches(plain, n as nat) == 0);
        }
    }
    let ghost spec_switches = role_switches(plain, n as nat);
    let ghost spec_transitions = role_transitions(n as nat);
    assert(transitions == spec_transitions);
    if (switches as u128) * 5 > (transitions as u128) * 3 {
        let item = IdentityConflict::FrequentSwitching { switches, transitions };
        assert(item@ == ConflictView::FrequentSwitching(switches as nat, transitions as nat));
        assert(spec_switches == switches as nat);
        assert(spec_transitions == transitions as nat);
        let ghost before = conflicts@.map_values(|c: IdentityConflict| c@);
        conflicts.push(item);
        assert(conflicts@.map_values(|c: IdentityConflict| c@) =~= before.push(
            ConflictView::FrequentSwitching(spec_switches, spec_transitions),
        ));
    }
    proof {
        let spec_all = roles_in_order(plain);
        let spec_high = categories_in_order(plain, 4);
        assert(all_view == spec_all);
        assert(high_view == spec_high);
        let too_many = if spec_all.len() >= 4 {
            seq![ConflictView::TooManyRoles(spec_all)]
        } else {
            seq![]
        };
        let competing = if spec_high.len() >= 2 {
            Seq::new((spec_high.len() - 1) as nat, |j: int| ConflictView::CompetingRoles(spec_high[j], spec_high[j + 1]))
        } else {
            seq![]
        };
        assert(first_part =~= too_many);
        assert(second_part =~= too_many + competing);
        assert(conflicts@.map_values(|c: IdentityConflict| c@) =~= identity_conflicts(plain));
    }
    conflicts
}

/// The pieces joined with `sep` between neighbours.
pub open spec fn joined(parts: Seq<Seq<char>>, sep: Seq<char>) -> Seq<char>
    decreases parts.len(),
{
    if parts.len() == 0 {
        seq![]
    } else if parts.len() == 1 {
        parts[0]
    } else {
        joined(parts.drop_last(), sep) + sep + parts.last()
    }
}

/// The alert text for too many roles.
pub open spec fn roles_text(roles: Seq<Seq<char>>) -> Seq<char> {
    "You're wearing "@ + decimal_chars(roles.len()) + " hats today: "@ + joined(roles, ", "@)
        + ". Consider focusing on 2-3 roles max."@
}

/// The alert text for two competing roles.
pub open spec fn competing_text(a: Seq<char>, b: Seq<char>) -> Seq<char> {
    "Conflicting identities: your '"@ + a + "' tasks and '"@ + b
        + "' tasks are both competing for your best energy."@
}

fn join_strings(parts: &Vec<String>, sep: &str) -> (r: Vec<char>)
    ensures
        r@ == joined(parts@.map_values(|x: String| x@), sep@),
{
    let ghost pv = parts@.map_values(|x: String| x@);
    let mut r: Vec<char> = Vec::new();
    let mut i: usize = 0;
    while i < parts.len()
        invariant
            i <= parts.len(),
            pv == parts@.map_values(|x: String| x@),
            r@ == joined(pv.take(i as int), sep@),
        decreases parts.len() - i,
    {
        assert(pv.take(i + 1).drop_last() =~= pv.take(i as int));
        assert(pv.take(i + 1).last() == parts@[i as int]@);
        let mut piece = chars_of(parts[i].as_str());
        if i > 0 {
            let mut between = chars_of(sep);
            r.append(&mut between);
        } else {
            assert(pv.take(1)[0] == parts@[0]@);
        }
        r.append(&mut piece);
        i = i + 1;
    }
    assert(pv.take(parts.len() as int) =~= pv);
    r
}

/// The alert shown when a schedule holds four or more roles.
pub fn roles_message(roles: &Vec<String>) -> (m: String)
    ensures
        m@ == roles_text(roles@.map_values(|x: String| x@)),
{
    let mut chars = chars_of("You're wearing ");
    let mut count = decimal_digits(roles.len() as u64);
    chars.append(&mut count);
    let mut middle = chars_of(" hats today: ");
    chars.append(&mut middle);
    let mut list = join_strings(roles, ", ");
    chars.append(&mut list);
    let mut tail = chars_of(". Consider focusing on 2-3 roles max.");
    chars.append(&mut tail);
    string_from_chars(&chars)
}

/// The alert shown when two roles both hold high-priority tasks.
pub fn competing_message(a: &str, b: &str) -> (m: String)
    ensures
        m@ == competing_text(a@, b@),
{
    let mut chars = chars_of("Conflicting identities: your '");
    let mut first = chars_of(a);
    chars.append(&mut first);
    let mut middle = chars_of("' tasks and '");
    chars.append(&mut middle);
    let mut second = chars_of(b);
    chars.append(&mut second);
    let mut tail = chars_of("' tasks are both competing for your best energy.");
    chars.append(&mut tail);
    string_from_chars(&chars)
}

} // verus!
