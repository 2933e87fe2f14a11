//! Momentum ordering: a few confidence-building tasks first, the rest in
//! their original order.
use vstd::prelude::*;
use crate::sorting::{arrange, as_ints, is_permutation, lemma_cover_is_permutation};
use crate::timing::{assign_times, back_to_back, lemma_total_arrange, same_but_times, total_duration};
use crate::types::{ScheduledTask, scheduled_view, underlying_tasks};

verus! {

/// How many warm-up tasks a schedule of `n` tasks gets: a quarter of them,
/// at least one and at most three.
pub open spec fn warmup_size(n: int) -> int {
    let q = n / 4;
    if q < 1 {
        1
    } else if q > 3 {
        3
    } else {
        q
    }
}

/// The indices below `i` that are not warm-up tasks, ascending.
pub open spec fn remaining_indices(warmup: Seq<int>, i: int) -> Seq<int>
    decreases i,
{
    if i <= 0 {
        seq![]
    } else if warmup.contains(i - 1) {
        remaining_indices(warmup, i - 1)
    } else {
        remaining_indices(warmup, i - 1).push(i - 1)
    }
}

/// The new order: the first `warmup_size(n)` indices of `ranking` (the
/// best confidence builders first), then every other index ascending.
pub open spec fn momentum_order(n: int, ranking: Seq<int>) -> Seq<int> {
    let warmup = ranking.take(warmup_size(n));
    warmup + remaining_indices(warmup, n)
}

/// The warm-up is a quarter of the schedule rounded down, but at least one
/// task and at most three: `w` is between 1 and 3, `4 * w <= n` unless
/// `w == 1`, and `n < 4 * (w + 1)` unless `w == 3`.
pub proof fn lemma_warmup_is_quarter(n: int)
    requires
        n >= 0,
    ensures
        1 <= warmup_size(n) <= 3,
        warmup_size(n) == 1 || 4 * warmup_size(n) <= n,
        warmup_size(n) == 3 || n < 4 * (warmup_size(n) + 1),
{
}

proof fn lemma_remaining(warmup: Seq<int>, i: int)
    requires
        i >= 0,
    ensures
        forall|k: int|
            0 <= k < remaining_indices(warmup, i).len() ==> 0 <= #[trigger] remaining_indices(
                warmup,
                i,
            )[k] < i && !warmup.contains(remaining_indices(warmup, i)[k]),
        forall|k: int, l: int|
            0 <= k < l < remaining_indices(warmup, i).len() ==> remaining_indices(warmup, i)[k]
                < remaining_indices(warmup, i)[l],
        forall|x: int|
            0 <= x < i && !warmup.contains(x) ==> #[trigger] remaining_indices(warmup, i).contains(
                x,
            ),
    decreases i,
{
    if i > 0 {
        lemma_remaining(warmup, i - 1);
        let r = remaining_indices(warmup, i - 1);
        if !warmup.contains(i - 1) {
            assert(remaining_indices(warmup, i) == r.push(i - 1));
            assert forall|x: int| 0 <= x < i && !warmup.contains(x) implies #[trigger] r.push(
                i - 1,
            ).contains(x) by {
                if x < i - 1 {
                    assert(r.contains(x));
                    let k = choose|k: int| 0 <= k < r.len() && r[k] == x;
                    assert(r.push(i - 1)[k] == x);
                } else {
                    assert(r.push(i - 1)[r.len() as int] == x);
                }
            }
        }
    }
}

/// The momentum order lists every task exactly once.
pub proof fn lemma_momentum_order_is_permutation(n: int, ranking: Seq<int>)
    requires
        n >= 3,
        is_permutation(ranking, n),
    ensures
        is_permutation(momentum_order(n, ranking), n),
{
    let w = warmup_size(n);
    let warmup = ranking.take(w);
    let rest = remaining_indices(warmup, n);
    lemma_remaining(warmup, n);
    let s = momentum_order(n, ranking);
    assert(s == warmup + rest);
    assert forall|k: int| 0 <= k < s.len() implies 0 <= #[trigger] s[k] < n by {
        if k < w {
            assert(s[k] == ranking[k]);
        } else {
            assert(s[k] == rest[k - w]);
        }
    }
    assert forall|k: int, l: int| 0 <= k < s.len() && 0 <= l < s.len() && k != l implies s[k]
        != s[l] by {
        if k < w && l < w {
            assert(s[k] == ranking[k] && s[l] == ranking[l]);
        } else if k >= w && l >= w {
            assert(s[k] == rest[k - w] && s[l] == rest[l - w]);
        } else if k < w {
            assert(s[k] == warmup[k]);
            assert(warmup.contains(s[k]));
            assert(!warmup.contains(rest[l - w]));
        } else {
            assert(s[l] == warmup[l]);
            assert(warmup.contains(s[l]));
            assert(!warmup.contains(rest[k - w]));
        }
    }
    assert forall|x: int| 0 <= x < n implies #[trigger] s.contains(x) by {
        if warmup.contains(x) {
            let k = choose|k: int| 0 <= k < warmup.len() && warmup[k] == x;
            assert(s[k] == x);
        } else {
            assert(rest.contains(x));
            let k = choose|k: int| 0 <= k < rest.len() && rest[k] == x;
            assert(s[w + k] == x);
        }
    }
    lemma_cover_is_permutation(s, n);
}

/// Reorders a schedule for momentum. `ranking` lists the task indices by
/// descending confidence-building score (the caller's ranking). With fewer
/// than three tasks nothing changes and `None` comes back; otherwise the
/// tasks follow [`momentum_order`], are placed back to back from minute
/// zero, and the number of warm-up tasks comes back.
pub fn apply_momentum_ordering(tasks: &mut Vec<ScheduledTask>, ranking: &Vec<usize>) -> (warmup: Option<
    usize,
>)
    requires
        is_permutation(as_ints(ranking@), old(tasks).len() as int),
        old(tasks).len() >= 3 ==> total_duration(underlying_tasks(scheduled_view(old(tasks)@)))
            <= u32::MAX,
    ensures
        old(tasks).len() < 3 ==> warmup is None && final(tasks)@ == old(tasks)@,
        old(tasks).len() >= 3 ==> {
            &&& warmup == Some(warmup_size(old(tasks).len() as int) as usize)
            &&& same_but_times(
                arrange(
                    scheduled_view(old(tasks)@),
                    momentum_order(old(tasks).len() as int, as_ints(ranking@)),
                ),
                scheduled_view(final(tasks)@),
            )
            &&& back_to_back(scheduled_view(final(tasks)@))
        },
{
    let n = tasks.len();
    if n < 3 {
        return None;
    }
    let ghost old_view = scheduled_view(tasks@);
    let ghost rank = as_ints(ranking@);
    let quarter = n / 4;
    let w: usize = if quarter < 1 {
        1
    } else if quarter > 3 {
        3
    } else {
        quarter
    };
    let mut is_warm: Vec<bool> = Vec::new();
    let mut i: usize = 0;
    while i < n
        invariant
            i <= n,
            is_warm@.len() == i,
            forall|k: int| 0 <= k < i ==> !(#[trigger] is_warm@[k]),
        decreases n - i,
    {
        is_warm.push(false);
        i = i + 1;
    }
    let ghost warm_seq = rank.take(w as int);
    let mut order: Vec<usize> = Vec::new();
    let mut k: usize = 0;
    while k < w
        invariant
            k <= w <= 3,
            w < n,
            n == ranking.len(),
            rank == as_ints(ranking@),
            is_permutation(rank, n as int),
            warm_seq == rank.take(w as int),
            is_warm@.len() == n,
            as_ints(order@) == rank.take(k as int),
            forall|x: int| 0 <= x < n ==> (#[trigger] is_warm@[x] <==> rank.take(k as int).contains(x)),
        decreases w - k,
    {
        let idx = ranking[k];
        assert(rank[k as int] == idx as int);
        is_warm.set(idx, true);
        let ghost before = as_ints(order@);
        order.push(idx);
        proof {
            assert(as_ints(order@) =~= before.push(idx as int));
            assert(rank.take(k + 1) =~= rank.take(k as int).push(rank[k as int]));
            assert(as_ints(order@) =~= rank.take(k + 1));
            assert forall|x: int| 0 <= x < n implies (#[trigger] is_warm@[x] <==> rank.take(
                k + 1,
            ).contains(x)) by {
                if x == idx as int {
                    assert(rank.take(k + 1)[k as int] == x);
                } else {
                    let big = rank.take(k + 1);
                    let small = rank.take(k as int);
                    if big.contains(x) {
                        let j = choose|j: int| 0 <= j < big.len() && #[trigger] big[j] == x;
                        assert(small[j] == x);
                    }
                    if small.contains(x) {
                        let j = choose|j: int| 0 <= j < small.len() && #[trigger] small[j] == x;
                        assert(big[j] == x);
                    }
                }
            }
        }
        k = k + 1;
    }
    let mut j: usize = 0;
    while j < n
        invariant
            j <= n,
            n == tasks.len(),
            w <= 3,
            is_warm@.len() == n,
            forall|x: int| 0 <= x < n ==> (#[trigger] is_warm@[x] <==> warm_seq.contains(x)),
            as_ints(order@) == warm_seq + remaining_indices(warm_seq, j as int),
        decreases n - j,
    {
        if !is_warm[j] {
            order.push(j);
        }
        proof {
            let before = warm_seq + remaining_indices(warm_seq, j as int);
            if !warm_seq.contains(j as int) {
                assert(as_ints(order@) =~= before.push(j as int));
                assert(warm_seq + remaining_indices(warm_seq, j + 1) =~= before.push(j as int));
            }
        }
        j = j + 1;
    }
    proof {
        assert(warm_seq.len() == warmup_size(n as int));
        lemma_momentum_order_is_permutation(n as int, rank);
    }
    let ghost p = as_ints(order@);
    let mut arranged: Vec<ScheduledTask> = Vec::new();
    let mut m: usize = 0;
    while m < n
        invariant
            m <= n,
            n == tasks.len(),
            n == order.len(),
            old_view == scheduled_view(tasks@),
            p == as_ints(order@),
            is_permutation(p, n as int),
            arranged@.len() == m,
            forall|t: int| 0 <= t < m ==> (#[trigger] arranged@[t])@ == old_view[p[t]],
        decreases n - m,
    {
        assert(p[m as int] == order@[m as int] as int);
        arranged.push(tasks[order[m]].duplicate());
        m = m + 1;
    }
    proof {
        assert(scheduled_view(arranged@) =~= arrange(old_view, p));
        assert(underlying_tasks(scheduled_view(arranged@)) =~= arrange(underlying_tasks(old_view), p));
        lemma_total_arrange(underlying_tasks(old_view), p);
    }
    assign_times(&mut arranged);
    *tasks = arranged;
    Some(w)
}

} // verus!
