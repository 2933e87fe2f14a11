//! Decision debt: the open choices a task list leaves the user carrying.
use vstd::prelude::*;
use vstd::string::*;
use vstd::utf8::encode_utf8;
use crate::text::chars_of;
use crate::types::{Task, TaskView, tasks_view};

verus! {

/// The lowercase form of a string, as `str::to_lowercase` computes it (full
/// Unicode case mapping).
pub uninterp spec fn lowercase(s: Seq<char>) -> Seq<char>;

/// Calls `str::to_lowercase`; the result is named by [`lowercase`] and
/// nothing more is claimed of it.
#[verifier::external_body]
fn to_lowercase(s: &str) -> (r: String)
    ensures
        r@ == lowercase(s@),
{
    s.to_lowercase()
}

/// Whether `needle` occurs in `hay` as a contiguous run of characters.
pub open spec fn contains_chars(hay: Seq<char>, needle: Seq<char>) -> bool {
    exists|i: int| 0 <= i <= hay.len() - needle.len() && #[trigger] hay.subrange(i, i + needle.len()) == needle
}

/// Searches `hay` for `needle`, as `str::contains` with a string does.
pub fn contains(hay: &Vec<char>, needle: &Vec<char>) -> (r: bool)
    ensures
        r == contains_chars(hay@, needle@),
{
    let n = hay.len();
    let m = needle.len();
    if m > n {
        return false;
    }
    let mut i: usize = 0;
    while i <= n - m
        invariant
            m <= n,
            n == hay.len(),
            m == needle.len(),
            forall|k: int| 0 <= k < i ==> #[trigger] hay@.subrange(k, k + m) != needle@,
        decreases n - m + 1 - i,
    {
        let mut j: usize = 0;
        let mut same = true;
        while j < m && same
            invariant
                i <= n - m,
                m <= n,
                n == hay.len(),
                m == needle.len(),
                j <= m,
                same ==> forall|k: int| 0 <= k < j ==> hay@[i + k] == needle@[k],
                !same ==> j > 0 && hay@[i + j - 1] != needle@[j - 1],
            decreases m - j,
        {
            if hay[i + j] != needle[j] {
                same = false;
            }
            j = j + 1;
        }
        if same {
            assert(hay@.subrange(i as int, i + m) =~= needle@);
            return true;
        }
        assert(hay@.subrange(i as int, i + m)[j - 1] == hay@[i + j - 1]);
        i = i + 1;
    }
    proof {
        assert forall|k: int| 0 <= k <= n - m implies #[trigger] hay@.subrange(k, k + m) != needle@ by {
        }
    }
    false
}

/// Whether a task name is vague: under five bytes, or (lowercased)
/// mentioning "stuff", "things" or "work on".
pub open spec fn vague_name(name: Seq<char>, lowered: Seq<char>) -> bool {
    encode_utf8(name).len() < 5 || contains_chars(lowered, "stuff"@) || contains_chars(
        lowered,
        "things"@,
    ) || contains_chars(lowered, "work on"@)
}

/// The debt one task carries, in half points: no deadline weighs 2 points
/// (4 half points), the undecided middle priority 3 weighs 1, no tags 1/2,
/// no category 1/2, a vague name 1.
pub open spec fn task_debt(t: TaskView, lowered_name: Seq<char>) -> int {
    (if t.deadline is None {
        4int
    } else {
        0
    }) + (if t.priority == 3 {
        2int
    } else {
        0
    }) + (if t.tags.len() == 0 {
        1int
    } else {
        0
    }) + (if t.category is None {
        1int
    } else {
        0
    }) + (if vague_name(t.name, lowered_name) {
        2int
    } else {
        0
    })
}

/// A task's debt in half points, its name lowercased by `str::to_lowercase`.
pub open spec fn debt_of(t: TaskView) -> int {
    task_debt(t, lowercase(t.name))
}

/// The total debt of a task list, in half points.
pub open spec fn debt_sum(tasks: Seq<TaskView>) -> int
    decreases tasks.len(),
{
    if tasks.len() == 0 {
        0
    } else {
        debt_sum(tasks.drop_last()) + debt_of(tasks.last())
    }
}

/// The decision-debt score: the weighted total in whole points, rounded
/// down, and `u32::MAX` where it does not fit (as `f64 as u32` saturates).
pub open spec fn debt_score(tasks: Seq<TaskView>) -> int {
    let points = debt_sum(tasks) / 2;
    if points > u32::MAX {
        u32::MAX as int
    } else {
        points
    }
}

/// The debt one task carries in half points, given its name in lowercase.
pub fn task_decision_debt(task: &Task, lowered_name: &str) -> (d: u32)
    ensures
        d == task_debt(task@, lowered_name@),
{
    let mut d: u32 = 0;
    if task.deadline.is_none() {
        d = d + 4;
    }
    if task.priority == 3 {
        d = d + 2;
    }
    if task.tags.len() == 0 {
        d = d + 1;
    }
    if task.category.is_none() {
        d = d + 1;
    }
    let lowered = chars_of(lowered_name);
    let short = task.name.as_str().as_bytes().len() < 5;
    let vague = short || contains(&lowered, &chars_of("stuff")) || contains(
        &lowered,
        &chars_of("things"),
    ) || contains(&lowered, &chars_of("work on"));
    if vague {
        d = d + 2;
    }
    d
}

/// Each task carries between 0 and 10 half points, so the total of `n`
/// tasks lies between 0 and `10 * n` half points.
pub proof fn lemma_debt_sum_bounds(tasks: Seq<TaskView>)
    ensures
        0 <= debt_sum(tasks) <= 10 * tasks.len(),
    decreases tasks.len(),
{
    if tasks.len() > 0 {
        lemma_debt_sum_bounds(tasks.drop_last());
    }
}

/// The score of `n` tasks is at most 5 points per task.
pub proof fn lemma_debt_score_bound(tasks: Seq<TaskView>)
    ensures
        0 <= debt_score(tasks) <= 5 * tasks.len(),
{
    lemma_debt_sum_bounds(tasks);
}

/// Whether `word` occurs in `text` at some position.
pub open spec fn mentions(text: Seq<char>, word: Seq<char>) -> bool {
    exists|i: int| 0 <= i && i + word.len() <= text.len() && #[trigger] text.subrange(i, i + word.len()) =~= word
}

/// What each criterion weighs, in half points: removing the deadline adds
/// 4, priority 3 in place of another adds 2, dropping all tags adds 1,
/// dropping the category adds 1.
pub proof fn lemma_debt_weights(t: TaskView, deadline: Seq<char>, other_priority: u8, tag: Seq<char>, category: Seq<char>)
    requires
        other_priority != 3,
    ensures
        debt_of(TaskView { deadline: None, ..t }) == debt_of(TaskView { deadline: Some(deadline), ..t }) + 4,
        debt_of(TaskView { priority: 3, ..t }) == debt_of(TaskView { priority: other_priority, ..t }) + 2,
        debt_of(TaskView { tags: seq![], ..t }) == debt_of(TaskView { tags: t.tags.push(tag), ..t }) + 1,
        debt_of(TaskView { category: None, ..t }) == debt_of(TaskView { category: Some(category), ..t }) + 1,
{
}

/// A name is vague when it is shorter than five bytes or, lowercased,
/// mentions "stuff", "things" or "work on": such a task carries exactly the
/// debt of the same task renamed to any name shorter than five bytes, and
/// that is 2 half points more than a task with a plain name.
pub proof fn lemma_vague_names(t: TaskView, short: Seq<char>, plain: Seq<char>)
    requires
        encode_utf8(short).len() < 5,
        encode_utf8(plain).len() >= 5,
        !mentions(lowercase(plain), "stuff"@),
        !mentions(lowercase(plain), "things"@),
        !mentions(lowercase(plain), "work on"@),
    ensures
        mentions(lowercase(t.name), "stuff"@) || mentions(lowercase(t.name), "things"@) || mentions(
            lowercase(t.name),
            "work on"@,
        ) || encode_utf8(t.name).len() < 5 ==> debt_of(t) == debt_of(TaskView { name: short, ..t }),
        debt_of(TaskView { name: short, ..t }) == debt_of(TaskView { name: plain, ..t }) + 2,
{
    let low = lowercase(t.name);
    let lp = lowercase(plain);
    assert forall|w: Seq<char>| mentions(low, w) implies contains_chars(low, w) by {
        let i = choose|i: int| 0 <= i && i + w.len() <= low.len() && #[trigger] low.subrange(i, i + w.len()) =~= w;
        assert(low.subrange(i, i + w.len()) == w);
    }
    assert forall|w: Seq<char>| contains_chars(lp, w) implies mentions(lp, w) by {
        let i = choose|i: int| 0 <= i <= lp.len() - w.len() && #[trigger] lp.subrange(i, i + w.len()) == w;
        assert(lp.subrange(i, i + w.len()) =~= w);
    }
}

/// A task with a deadline, a priority other than 3, some tag, a category
/// and a plain name carries no debt.
pub proof fn lemma_settled_task_no_debt(t: TaskView)
    requires
        t.deadline is Some,
        t.priority != 3,
        t.tags.len() > 0,
        t.category is Some,
        encode_utf8(t.name).len() >= 5,
        !mentions(lowercase(t.name), "stuff"@),
        !mentions(lowercase(t.name), "things"@),
        !mentions(lowercase(t.name), "work on"@),
    ensures
        debt_of(t) == 0,
{
    let lp = lowercase(t.name);
    assert forall|w: Seq<char>| contains_chars(lp, w) implies mentions(lp, w) by {
        let i = choose|i: int| 0 <= i <= lp.len() - w.len() && #[trigger] lp.subrange(i, i + w.len()) == w;
        assert(lp.subrange(i, i + w.len()) =~= w);
    }
}

/// Appending a task adds its debt, so the score never drops.
pub proof fn lemma_debt_append(tasks: Seq<TaskView>, t: TaskView)
    ensures
        debt_sum(tasks.push(t)) == debt_sum(tasks) + debt_of(t),
        debt_score(tasks.push(t)) >= debt_score(tasks),
{
    assert(tasks.push(t).drop_last() =~= tasks);
}

proof fn lemma_debt_remove(tasks: Seq<TaskView>, j: int)
    requires
        0 <= j < tasks.len(),
    ensures
        debt_sum(tasks) == debt_sum(tasks.remove(j)) + debt_of(tasks[j]),
    decreases tasks.len(),
{
    if j == tasks.len() - 1 {
        assert(tasks.remove(j) =~= tasks.drop_last());
    } else {
        lemma_debt_remove(tasks.drop_last(), j);
        assert(tasks.remove(j).drop_last() =~= tasks.drop_last().remove(j));
        assert(tasks.remove(j).last() == tasks.last());
    }
}

/// The debt does not depend on the order of the tasks: two lists with the
/// same tasks, each as often, have the same total and the same score.
pub proof fn lemma_debt_order_free(a: Seq<TaskView>, b: Seq<TaskView>)
    requires
        a.to_multiset() == b.to_multiset(),
    ensures
        debt_sum(a) == debt_sum(b),
        debt_score(a) == debt_score(b),
    decreases a.len(),
{
    broadcast use vstd::seq_lib::group_to_multiset_ensures;

    if a.len() > 0 {
        let x = a.last();
        assert(a.to_multiset().count(x) > 0) by {
            assert(a.contains(x)) by {
                assert(a[a.len() - 1] == x);
            }
        }
        assert(b.contains(x));
        let j = choose|j: int| 0 <= j < b.len() && b[j] == x;
        let b2 = b.remove(j);
        assert(a.drop_last().push(x) =~= a);
        assert(a.drop_last().to_multiset() =~= a.to_multiset().remove(x));
        assert(b2.to_multiset() =~= b.to_multiset().remove(x));
        lemma_debt_order_free(a.drop_last(), b2);
        lemma_debt_remove(b, j);
    } else {
        assert(b.to_multiset().len() == 0);
    }
}

/// The decision-debt score of a task list (see [`debt_score`]).
pub fn compute_decision_debt(tasks: &Vec<Task>) -> (debt: u32)
    ensures
        debt == debt_score(tasks_view(tasks@)),
{
    let ghost tv = tasks_view(tasks@);
    let limit: u64 = 2 * (u32::MAX as u64) + 1;
    let n = tasks.len();
    let mut half: u64 = 0;
    let mut i: usize = 0;
    while i < n
        invariant
            i <= n,
            n == tasks.len(),
            tv == tasks_view(tasks@),
            limit == 2 * (u32::MAX as u64) + 1,
            half == debt_sum(tv.take(i as int)),
            half <= limit,
        decreases n - i,
    {
        assert(tv.take(i + 1).drop_last() =~= tv.take(i as int));
        let lowered = to_lowercase(tasks[i].name.as_str());
        let d = task_decision_debt(&tasks[i], lowered.as_str());
        assert(d as int == debt_of(tv[i as int]));
        half = half + d as u64;
        i = i + 1;
        if half > limit {
            proof {
                assert(tv.take(i as int) + tv.skip(i as int) =~= tv);
                lemma_debt_concat(tv.take(i as int), tv.skip(i as int));
                lemma_debt_sum_bounds(tv.skip(i as int));
            }
            return u32::MAX;
        }
    }
    assert(tv.take(n as int) =~= tv);
    (half / 2) as u32
}

proof fn lemma_debt_concat(a: Seq<TaskView>, b: Seq<TaskView>)
    ensures
        debt_sum(a + b) == debt_sum(a) + debt_sum(b),
    decreases b.len(),
{
    if b.len() == 0 {
        assert(a + b =~= a);
    } else {
        lemma_debt_concat(a, b.drop_last());
        assert((a + b).drop_last() =~= a + b.drop_last());
        lemma_debt_sum_bounds(b);
    }
}

} // verus!
