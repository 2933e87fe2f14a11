//! Crunch-mode task selection: the 0/1 knapsack over task durations.
//!
//! Durations are the weights, the crunch scores (as non-negative integers)
//! are the values, and the available minutes are the capacity.
use vstd::prelude::*;
use crate::edf::{edf_plan, order_by_edf};
use crate::sorting::{arrange, as_ints};
use crate::timing::{assign_times, durations_of, lemma_total_arrange, total_duration};
use crate::types::{ScheduledTask, Task, TaskView, scheduled_view, tasks_view, underlying_tasks};

verus! {

/// Sum of the first `i` values.
pub open spec fn value_total(values: Seq<u64>, i: nat) -> int
    decreases i,
{
    if i == 0 {
        0
    } else {
        value_total(values, (i - 1) as nat) + values[i - 1] as int
    }
}

/// The best value reachable with the first `i` items within capacity `cap`
/// (the table `dp[i][cap]` of the recurrence).
pub open spec fn best_value(durations: Seq<u32>, values: Seq<u64>, i: nat, cap: int) -> int
    decreases i,
{
    if i == 0 {
        0
    } else {
        let skip = best_value(durations, values, (i - 1) as nat, cap);
        if durations[i - 1] as int <= cap {
            let take = best_value(durations, values, (i - 1) as nat, cap - durations[i - 1] as int)
                + values[i - 1] as int;
            if take > skip {
                take
            } else {
                skip
            }
        } else {
            skip
        }
    }
}

/// The items that backtracking through the table picks, in increasing order:
/// item `i - 1` is taken exactly when `dp[i][cap] != dp[i - 1][cap]`.
pub open spec fn knapsack_choice(durations: Seq<u32>, values: Seq<u64>, i: nat, cap: int) -> Seq<
    int,
>
    decreases i,
{
    if i == 0 {
        seq![]
    } else if best_value(durations, values, i, cap) != best_value(
        durations,
        values,
        (i - 1) as nat,
        cap,
    ) {
        knapsack_choice(durations, values, (i - 1) as nat, cap - durations[i - 1] as int).push(
            i - 1,
        )
    } else {
        knapsack_choice(durations, values, (i - 1) as nat, cap)
    }
}

/// Total duration of the items at the given indices.
pub open spec fn indices_duration(durations: Seq<u32>, items: Seq<int>) -> int
    decreases items.len(),
{
    if items.len() == 0 {
        0
    } else {
        indices_duration(durations, items.drop_last()) + durations[items.last()] as int
    }
}

/// Total value of the items at the given indices.
pub open spec fn indices_value(values: Seq<u64>, items: Seq<int>) -> int
    decreases items.len(),
{
    if items.len() == 0 {
        0
    } else {
        indices_value(values, items.drop_last()) + values[items.last()] as int
    }
}

/// Total duration of the items among the first `i` that `mask` selects.
pub open spec fn mask_duration(durations: Seq<u32>, mask: Seq<bool>, i: nat) -> int
    decreases i,
{
    if i == 0 {
        0
    } else {
        mask_duration(durations, mask, (i - 1) as nat) + if mask[i - 1] {
            durations[i - 1] as int
        } else {
            0
        }
    }
}

/// Total value of the items among the first `i` that `mask` selects.
pub open spec fn mask_value(values: Seq<u64>, mask: Seq<bool>, i: nat) -> int
    decreases i,
{
    if i == 0 {
        0
    } else {
        mask_value(values, mask, (i - 1) as nat) + if mask[i - 1] {
            values[i - 1] as int
        } else {
            0
        }
    }
}

/// Indices that are strictly increasing and below `bound`.
pub open spec fn increasing_below(items: Seq<int>, bound: int) -> bool {
    &&& forall|k: int| 0 <= k < items.len() ==> 0 <= #[trigger] items[k] < bound
    &&& forall|k: int, l: int| 0 <= k < l < items.len() ==> items[k] < items[l]
}


proof fn lemma_best_bounds(durations: Seq<u32>, values: Seq<u64>, i: nat, cap: int)
    requires
        i <= durations.len(),
        i <= values.len(),
    ensures
        0 <= best_value(durations, values, i, cap) <= value_total(values, i),
    decreases i,
{
    if i > 0 {
        lemma_best_bounds(durations, values, (i - 1) as nat, cap);
        lemma_best_bounds(durations, values, (i - 1) as nat, cap - durations[i - 1] as int);
    }
}

proof fn lemma_value_total_monotone(values: Seq<u64>, i: nat, j: nat)
    requires
        i <= j <= values.len(),
    ensures
        value_total(values, i) <= value_total(values, j),
    decreases j,
{
    if i < j {
        lemma_value_total_monotone(values, i, (j - 1) as nat);
    }
}

proof fn lemma_choice_properties(durations: Seq<u32>, values: Seq<u64>, i: nat, cap: int)
    requires
        i <= durations.len(),
        i <= values.len(),
        cap >= 0,
    ensures
        increasing_below(knapsack_choice(durations, values, i, cap), i as int),
        indices_duration(durations, knapsack_choice(durations, values, i, cap)) <= cap,
        indices_value(values, knapsack_choice(durations, values, i, cap)) == best_value(
            durations,
            values,
            i,
            cap,
        ),
    decreases i,
{
    if i > 0 {
        let prev = (i - 1) as nat;
        if best_value(durations, values, i, cap) != best_value(durations, values, prev, cap) {
            let rest = cap - durations[i - 1] as int;
            lemma_choice_properties(durations, values, prev, rest);
            let c = knapsack_choice(durations, values, prev, rest);
            assert(c.push(i - 1).drop_last() =~= c);
        } else {
            lemma_choice_properties(durations, values, prev, cap);
        }
    }
}

/// The table value bounds every selection that fits: no subset of the
/// first `i` items within `cap` minutes has a larger total value.
pub proof fn lemma_best_dominates(
    durations: Seq<u32>,
    values: Seq<u64>,
    mask: Seq<bool>,
    i: nat,
    cap: int,
)
    requires
        i <= durations.len(),
        i <= values.len(),
        i <= mask.len(),
        mask_duration(durations, mask, i) <= cap,
    ensures
        mask_value(values, mask, i) <= best_value(durations, values, i, cap),
    decreases i,
{
    if i > 0 {
        let prev = (i - 1) as nat;
        lemma_mask_duration_nonneg(durations, mask, prev);
        if mask[i - 1] {
            lemma_best_dominates(durations, values, mask, prev, cap - durations[i - 1] as int);
        } else {
            lemma_best_dominates(durations, values, mask, prev, cap);
        }
    }
}

proof fn lemma_mask_duration_nonneg(durations: Seq<u32>, mask: Seq<bool>, i: nat)
    requires
        i <= durations.len(),
        i <= mask.len(),
    ensures
        mask_duration(durations, mask, i) >= 0,
    decreases i,
{
    if i > 0 {
        lemma_mask_duration_nonneg(durations, mask, (i - 1) as nat);
    }
}

/// Knapsack optimality: the selection made by [`knapsack_select`] fits the
/// capacity, and no selection of tasks that fits has a larger total value.
pub proof fn lemma_knapsack_optimal(
    durations: Seq<u32>,
    values: Seq<u64>,
    capacity: u32,
    mask: Seq<bool>,
)
    requires
        durations.len() == values.len(),
        mask.len() == durations.len(),
        mask_duration(durations, mask, mask.len()) <= capacity,
    ensures
        indices_duration(
            durations,
            knapsack_choice(durations, values, durations.len(), capacity as int),
        ) <= capacity,
        mask_value(values, mask, mask.len()) <= indices_value(
            values,
            knapsack_choice(durations, values, durations.len(), capacity as int),
        ),
{
    lemma_choice_properties(durations, values, durations.len(), capacity as int);
    lemma_best_dominates(durations, values, mask, mask.len(), capacity as int);
}

/// Sum of the first `i` durations.
pub open spec fn duration_total(durations: Seq<u32>, i: nat) -> int
    decreases i,
{
    if i == 0 {
        0
    } else {
        duration_total(durations, (i - 1) as nat) + durations[i - 1] as int
    }
}

/// When all items fit together and each has a positive value, the table
/// takes every one of them.
pub proof fn lemma_knapsack_takes_all(durations: Seq<u32>, values: Seq<u64>, i: nat, cap: int)
    requires
        i <= durations.len(),
        i <= values.len(),
        forall|k: int| 0 <= k < i ==> values[k] > 0,
        duration_total(durations, i) <= cap,
    ensures
        best_value(durations, values, i, cap) == value_total(values, i),
        knapsack_choice(durations, values, i, cap) == Seq::new(i, |k: int| k),
    decreases i,
{
    if i > 0 {
        let prev = (i - 1) as nat;
        let d = durations[i - 1] as int;
        lemma_duration_total_nonneg(durations, prev);
        lemma_knapsack_takes_all(durations, values, prev, cap - d);
        lemma_best_bounds(durations, values, prev, cap);
        assert(Seq::new(prev, |k: int| k).push(i - 1) =~= Seq::new(i, |k: int| k));
    } else {
        assert(Seq::new(0, |k: int| k) =~= Seq::<int>::empty());
    }
}

proof fn lemma_duration_total_nonneg(durations: Seq<u32>, i: nat)
    requires
        i <= durations.len(),
    ensures
        duration_total(durations, i) >= 0,
    decreases i,
{
    if i > 0 {
        lemma_duration_total_nonneg(durations, (i - 1) as nat);
    }
}

/// Picks the items of maximal total value whose durations fit `capacity`,
/// by the dynamic-programming table and backtracking; the indices come back
/// in increasing order.
pub fn knapsack_select(durations: &Vec<u32>, values: &Vec<u64>, capacity: u32) -> (selected: Vec<
    usize,
>)
    requires
        durations.len() == values.len(),
        value_total(values@, values.len() as nat) <= u64::MAX,
    ensures
        as_ints(selected@) == knapsack_choice(
            durations@,
            values@,
            durations.len() as nat,
            capacity as int,
        ),
        increasing_below(as_ints(selected@), durations.len() as int),
        indices_duration(durations@, as_ints(selected@)) <= capacity,
        indices_value(values@, as_ints(selected@)) == best_value(
            durations@,
            values@,
            durations.len() as nat,
            capacity as int,
        ),
{
    let n = durations.len();
    let w = capacity as usize;
    let ghost d = durations@;
    let ghost v = values@;

    let mut table: Vec<Vec<u64>> = Vec::new();
    let mut first: Vec<u64> = Vec::new();
    let mut j: u64 = 0;
    while j <= capacity as u64
        invariant
            j <= w + 1,
            w == capacity,
            first@.len() == j,
            forall|k: int| 0 <= k < j ==> first@[k] == 0,
        decreases w + 1 - j,
    {
        first.push(0);
        j = j + 1;
    }
    table.push(first);

    let mut prev: usize = 0;
    while prev < n
        invariant
            prev <= n,
            n == durations.len(),
            n == values.len(),
            d == durations@,
            v == values@,
            w == capacity,
            value_total(v, n as nat) <= u64::MAX,
            table@.len() == prev + 1,
            forall|r: int|
                #![trigger table@[r]]
                0 <= r <= prev ==> table@[r]@.len() == w + 1,
            forall|r: int, c: int|
                0 <= r <= prev && 0 <= c <= w ==> #[trigger] table@[r]@[c] == best_value(
                    d,
                    v,
                    r as nat,
                    c,
                ),
        decreases n - prev,
    {
        let i = prev + 1;
        let dur = durations[i - 1] as usize;
        let score = values[i - 1];
        let mut row: Vec<u64> = Vec::new();
        let mut c: u64 = 0;
        proof {
            lemma_value_total_monotone(v, i as nat, n as nat);
        }
        while c <= capacity as u64
            invariant
                1 <= i <= n,
                n == durations.len(),
                n == values.len(),
                d == durations@,
                v == values@,
                w == capacity,
                dur == d[i - 1],
                score == v[i - 1],
                value_total(v, i as nat) <= u64::MAX,
                table@.len() == i,
                table@[i - 1]@.len() == w + 1,
                forall|cc: int|
                    0 <= cc <= w ==> #[trigger] table@[i - 1]@[cc] == best_value(
                        d,
                        v,
                        (i - 1) as nat,
                        cc,
                    ),
                c <= w + 1,
                row@.len() == c,
                forall|cc: int|
                    0 <= cc < c ==> #[trigger] row@[cc] == best_value(d, v, i as nat, cc),
            decreases w + 1 - c,
        {
            let col = c as usize;
            let mut cell = table[i - 1][col];
            if dur <= col {
                proof {
                    lemma_best_bounds(d, v, (i - 1) as nat, (col - dur) as int);
                }
                let with = table[i - 1][col - dur] + score;
                if with > cell {
                    cell = with;
                }
            }
            row.push(cell);
            c = c + 1;
        }
        table.push(row);
        prev = prev + 1;
    }

    let mut selected: Vec<usize> = Vec::new();
    let mut remaining: usize = w;
    let mut k: usize = n;
    while k > 0
        invariant
            k <= n,
            n == durations.len(),
            n == values.len(),
            d == durations@,
            v == values@,
            w == capacity,
            remaining <= w,
            table@.len() == n + 1,
            forall|r: int|
                #![trigger table@[r]]
                0 <= r <= n ==> table@[r]@.len() == w + 1,
            forall|r: int, c: int|
                0 <= r <= n && 0 <= c <= w ==> #[trigger] table@[r]@[c] == best_value(
                    d,
                    v,
                    r as nat,
                    c,
                ),
            knapsack_choice(d, v, n as nat, capacity as int) == knapsack_choice(
                d,
                v,
                k as nat,
                remaining as int,
            ) + as_ints(selected@),
        decreases k,
    {
        let ghost before = as_ints(selected@);
        if table[k][remaining] != table[k - 1][remaining] {
            let dur = durations[k - 1] as usize;
            selected.insert(0, k - 1);
            remaining = remaining - dur;
            proof {
                assert(as_ints(selected@) =~= seq![(k - 1) as int] + before);
                let rest = knapsack_choice(d, v, (k - 1) as nat, remaining as int);
                assert(rest.push((k - 1) as int) + before =~= rest + as_ints(selected@));
            }
        }
        k = k - 1;
    }
    proof {
        assert(knapsack_choice(d, v, 0, remaining as int) + as_ints(selected@) =~= as_ints(
            selected@,
        ));
        lemma_choice_properties(d, v, n as nat, capacity as int);
    }
    selected
}

proof fn lemma_indices_duration_is_total(tasks: Seq<TaskView>, items: Seq<int>)
    requires
        forall|k: int| 0 <= k < items.len() ==> 0 <= #[trigger] items[k] < tasks.len(),
    ensures
        indices_duration(durations_of(tasks), items) == total_duration(arrange(tasks, items)),
    decreases items.len(),
{
    if items.len() > 0 {
        lemma_indices_duration_is_total(tasks, items.drop_last());
        assert(arrange(tasks, items).drop_last() =~= arrange(tasks, items.drop_last()));
    }
}

/// Crunch planning. `scores` holds each task's crunch score as a
/// non-negative integer; the tasks of maximal total score that fit
/// `available_time` are taken (see [`knapsack_select`]) and run earliest
/// deadline first, back to back from minute zero.
pub fn crunch_plan(tasks: &Vec<Task>, scores: &Vec<u64>, available_time: u32) -> (plan: Vec<
    ScheduledTask,
>)
    requires
        tasks.len() == scores.len(),
        value_total(scores@, scores.len() as nat) <= u64::MAX,
    ensures
        increasing_below(
            knapsack_choice(
                durations_of(tasks_view(tasks@)),
                scores@,
                tasks.len() as nat,
                available_time as int,
            ),
            tasks.len() as int,
        ),
        total_duration(
            arrange(
                tasks_view(tasks@),
                knapsack_choice(
                    durations_of(tasks_view(tasks@)),
                    scores@,
                    tasks.len() as nat,
                    available_time as int,
                ),
            ),
        ) <= available_time,
        indices_value(
            scores@,
            knapsack_choice(
                durations_of(tasks_view(tasks@)),
                scores@,
                tasks.len() as nat,
                available_time as int,
            ),
        ) == best_value(
            durations_of(tasks_view(tasks@)),
            scores@,
            tasks.len() as nat,
            available_time as int,
        ),
        edf_plan(
            arrange(
                tasks_view(tasks@),
                knapsack_choice(
                    durations_of(tasks_view(tasks@)),
                    scores@,
                    tasks.len() as nat,
                    available_time as int,
                ),
            ),
            scheduled_view(plan@),
        ),
{
    let ghost tv = tasks_view(tasks@);
    let n = tasks.len();
    let mut durations: Vec<u32> = Vec::new();
    let mut i: usize = 0;
    while i < n
        invariant
            i <= n,
            n == tasks.len(),
            tv == tasks_view(tasks@),
            durations@ == durations_of(tv).take(i as int),
        decreases n - i,
    {
        durations.push(tasks[i].duration);
        assert(durations_of(tv).take(i + 1) =~= durations_of(tv).take(i as int).push(
            tasks@[i as int].duration,
        ));
        i = i + 1;
    }
    assert(durations@ =~= durations_of(tv));
    let selected = knapsack_select(&durations, scores, available_time);
    let ghost sel = as_ints(selected@);
    let mut plan: Vec<ScheduledTask> = Vec::new();
    let mut j: usize = 0;
    while j < selected.len()
        invariant
            j <= selected.len(),
            n == tasks.len(),
            tv == tasks_view(tasks@),
            sel == as_ints(selected@),
            increasing_below(sel, n as int),
            plan@.len() == j,
            underlying_tasks(scheduled_view(plan@)) == arrange(tv, sel).take(j as int),
            forall|k: int|
                0 <= k < j ==> (#[trigger] plan@[k])@.stress_contribution_bits == 0
                    && plan@[k]@.deadline_risk_bits == 0,
        decreases selected.len() - j,
    {
        assert(sel[j as int] == selected@[j as int] as int);
        let ghost before = underlying_tasks(scheduled_view(plan@));
        plan.push(ScheduledTask::unplaced(tasks[selected[j]].duplicate()));
        assert(underlying_tasks(scheduled_view(plan@)) =~= before.push(tv[sel[j as int]]));
        assert(arrange(tv, sel).take(j + 1) =~= arrange(tv, sel).take(j as int).push(
            tv[sel[j as int]],
        ));
        j = j + 1;
    }
    let ghost chosen = arrange(tv, sel);
    proof {
        assert(chosen.take(selected.len() as int) =~= chosen);
        lemma_indices_duration_is_total(tv, sel);
    }
    let ghost unsorted = scheduled_view(plan@);
    proof {
        assert(underlying_tasks(unsorted) =~= chosen);
    }
    order_by_edf(&mut plan);
    let ghost p = choose|p: Seq<int>|
        {
            &&& crate::sorting::is_permutation(p, unsorted.len() as int)
            &&& scheduled_view(plan@) == arrange(unsorted, p)
            &&& crate::edf::edf_sorted(underlying_tasks(unsorted), p)
        };
    proof {
        assert(underlying_tasks(scheduled_view(plan@)) =~= arrange(chosen, p));
        lemma_total_arrange(chosen, p);
        assert forall|k: int| 0 <= k < plan@.len() implies (#[trigger] scheduled_view(plan@)[k]).stress_contribution_bits == 0
            && scheduled_view(plan@)[k].deadline_risk_bits == 0 by {
            assert(scheduled_view(plan@)[k] == unsorted[p[k]]);
        }
    }
    let ghost sorted_view = scheduled_view(plan@);
    assign_times(&mut plan);
    proof {
        assert(underlying_tasks(scheduled_view(plan@)) =~= underlying_tasks(sorted_view));
    }
    plan
}

} // verus!
