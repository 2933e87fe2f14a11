//! Micro-recovery: short breaks after heavy tasks, after long tasks and
//! after every stretch of accumulated work.
use vstd::prelude::*;
use vstd::string::*;
use crate::ids::{uuid_chars, uuid_v4, xorshift_steps};
use crate::timing::{assign_times, back_to_back, same_but_times, total_duration};
use crate::types::{
    ScheduledTask, ScheduledTaskView, Task, TaskView, scheduled_view, underlying_tasks,
};

verus! {

/// When breaks go in and how long they last, in minutes. (Whether a task
/// is emotionally heavy is decided by the caller.)
#[derive(Clone, Copy, Debug)]
pub struct RecoveryConfig {
    pub heavy_break_minutes: u32,
    pub long_task_threshold_minutes: u32,
    pub long_break_minutes: u32,
    pub cumulative_threshold_minutes: u32,
    pub cumulative_break_minutes: u32,
}

impl Default for RecoveryConfig {
    fn default() -> (c: Self)
        ensures
            c.heavy_break_minutes == 5,
            c.long_task_threshold_minutes == 60,
            c.long_break_minutes == 5,
            c.cumulative_threshold_minutes == 120,
            c.cumulative_break_minutes == 10,
    {
        RecoveryConfig {
            heavy_break_minutes: 5,
            long_task_threshold_minutes: 60,
            long_break_minutes: 5,
            cumulative_threshold_minutes: 120,
            cumulative_break_minutes: 10,
        }
    }
}

/// The name a break of the given length gets.
pub open spec fn break_name(minutes: u32) -> Seq<char> {
    if minutes == 5 {
        "Quick reset"@
    } else if minutes == 10 {
        "Take a breath"@
    } else if minutes == 15 {
        "Real break — walk away"@
    } else {
        "Break"@
    }
}

/// The break task made from generator state `seed`.
pub open spec fn break_view(minutes: u32, seed: u64) -> ScheduledTaskView {
    ScheduledTaskView {
        task: TaskView {
            id: "break-"@ + uuid_chars(seed),
            name: break_name(minutes),
            duration: minutes,
            priority: 0,
            deadline: None,
            tags: seq!["break"@],
            emotional_weight_bits: 0,
            category: Some("recovery"@),
        },
        start_time: 0,
        end_time: 0,
        stress_contribution_bits: 0,
        deadline_risk_bits: 0,
    }
}

/// The generator state after making breaks of the given lengths.
pub open spec fn seed_after_breaks(minutes: Seq<u32>, seed: u64) -> u64
    decreases minutes.len(),
{
    if minutes.len() == 0 {
        seed
    } else {
        xorshift_steps(seed_after_breaks(minutes.drop_last(), seed), 6)
    }
}

/// The breaks of the given lengths, made in order from state `seed`.
pub open spec fn break_views(minutes: Seq<u32>, seed: u64) -> Seq<ScheduledTaskView>
    decreases minutes.len(),
{
    if minutes.len() == 0 {
        seq![]
    } else {
        break_views(minutes.drop_last(), seed).push(
            break_view(minutes.last(), seed_after_breaks(minutes.drop_last(), seed)),
        )
    }
}

/// The breaks that follow a task of `duration` minutes: one if it is heavy,
/// one if it is longer than the long-task threshold, and one if
/// `accumulated` (work minutes counted since the previous cumulative pause,
/// the current one counted in) reaches the cumulative threshold.
pub open spec fn breaks_after(duration: u32, heavy: bool, accumulated: int, cfg: RecoveryConfig) -> Seq<
    u32,
> {
    let b1 = if heavy {
        seq![cfg.heavy_break_minutes]
    } else {
        seq![]
    };
    let b2 = if duration > cfg.long_task_threshold_minutes {
        seq![cfg.long_break_minutes]
    } else {
        seq![]
    };
    let b3 = if accumulated >= cfg.cumulative_threshold_minutes {
        seq![cfg.cumulative_break_minutes]
    } else {
        seq![]
    };
    b1 + b2 + b3
}

/// The accumulated work carried past a task: reset to zero by a cumulative
/// break.
pub open spec fn carried_after(accumulated: int, cfg: RecoveryConfig) -> int {
    if accumulated >= cfg.cumulative_threshold_minutes {
        0
    } else {
        accumulated
    }
}

/// The schedule from task `k` on, each task followed by its breaks, with
/// `carried` minutes of work accumulated before task `k` and the generator
/// at state `seed`.
pub open spec fn with_recoveries(
    tasks: Seq<ScheduledTaskView>,
    heavy: Seq<bool>,
    cfg: RecoveryConfig,
    k: int,
    carried: int,
    seed: u64,
) -> Seq<ScheduledTaskView>
    decreases tasks.len() - k,
{
    if k < 0 || k >= tasks.len() {
        seq![]
    } else {
        let acc = carried + tasks[k].task.duration;
        let mins = breaks_after(tasks[k].task.duration, heavy[k], acc, cfg);
        seq![tasks[k]] + break_views(mins, seed) + with_recoveries(
            tasks,
            heavy,
            cfg,
            k + 1,
            carried_after(acc, cfg),
            seed_after_breaks(mins, seed),
        )
    }
}

/// The generator state after [`with_recoveries`] made its breaks.
pub open spec fn seed_after_recoveries(
    tasks: Seq<ScheduledTaskView>,
    heavy: Seq<bool>,
    cfg: RecoveryConfig,
    k: int,
    carried: int,
    seed: u64,
) -> u64
    decreases tasks.len() - k,
{
    if k < 0 || k >= tasks.len() {
        seed
    } else {
        let acc = carried + tasks[k].task.duration;
        let mins = breaks_after(tasks[k].task.duration, heavy[k], acc, cfg);
        seed_after_recoveries(
            tasks,
            heavy,
            cfg,
            k + 1,
            carried_after(acc, cfg),
            seed_after_breaks(mins, seed),
        )
    }
}

/// The total of the given break lengths.
pub open spec fn minutes_total(minutes: Seq<u32>) -> int
    decreases minutes.len(),
{
    if minutes.len() == 0 {
        0
    } else {
        minutes_total(minutes.drop_last()) + minutes.last() as int
    }
}

/// The minutes the schedule from task `k` on takes once its breaks are in.
pub open spec fn recovered_minutes(
    tasks: Seq<ScheduledTaskView>,
    heavy: Seq<bool>,
    cfg: RecoveryConfig,
    k: int,
    carried: int,
) -> int
    decreases tasks.len() - k,
{
    if k < 0 || k >= tasks.len() {
        0
    } else {
        let acc = carried + tasks[k].task.duration;
        let mins = breaks_after(tasks[k].task.duration, heavy[k], acc, cfg);
        tasks[k].task.duration + minutes_total(mins) + recovered_minutes(
            tasks,
            heavy,
            cfg,
            k + 1,
            carried_after(acc, cfg),
        )
    }
}

/// The work minutes of tasks `a..b`.
pub open spec fn work_between(tasks: Seq<ScheduledTaskView>, a: int, b: int) -> int
    decreases b - a,
{
    if a >= b {
        0
    } else {
        tasks[a].task.duration + work_between(tasks, a + 1, b)
    }
}

/// The minutes of the heavy-task and long-task breaks that tasks `a..b`
/// earn on their own.
pub open spec fn own_breaks_between(
    tasks: Seq<ScheduledTaskView>,
    heavy: Seq<bool>,
    cfg: RecoveryConfig,
    a: int,
    b: int,
) -> int
    decreases b - a,
{
    if a >= b {
        0
    } else {
        (if heavy[a] {
            cfg.heavy_break_minutes as int
        } else {
            0
        }) + (if tasks[a].task.duration > cfg.long_task_threshold_minutes {
            cfg.long_break_minutes as int
        } else {
            0
        }) + own_breaks_between(tasks, heavy, cfg, a + 1, b)
    }
}

proof fn lemma_work_nonneg(tasks: Seq<ScheduledTaskView>, a: int, b: int)
    ensures
        work_between(tasks, a, b) >= 0,
    decreases b - a,
{
    if a < b {
        lemma_work_nonneg(tasks, a + 1, b);
    }
}

proof fn lemma_break_minutes(duration: u32, heavy: bool, accumulated: int, cfg: RecoveryConfig)
    ensures
        minutes_total(breaks_after(duration, heavy, accumulated, cfg)) == (if heavy {
            cfg.heavy_break_minutes as int
        } else {
            0
        }) + (if duration > cfg.long_task_threshold_minutes {
            cfg.long_break_minutes as int
        } else {
            0
        }) + (if accumulated >= cfg.cumulative_threshold_minutes {
            cfg.cumulative_break_minutes as int
        } else {
            0
        }),
{
    let mins = breaks_after(duration, heavy, accumulated, cfg);
    reveal_with_fuel(minutes_total, 4);
    assert(mins.len() <= 3);
    if mins.len() == 3 {
        assert(mins.drop_last().drop_last().drop_last() =~= Seq::<u32>::empty());
    } else if mins.len() == 2 {
        assert(mins.drop_last().drop_last() =~= Seq::<u32>::empty());
    } else if mins.len() == 1 {
        assert(mins.drop_last() =~= Seq::<u32>::empty());
    }
}

proof fn lemma_below_threshold_from(
    tasks: Seq<ScheduledTaskView>,
    heavy: Seq<bool>,
    cfg: RecoveryConfig,
    k: int,
    carried: int,
)
    requires
        0 <= k <= tasks.len(),
        carried + work_between(tasks, k, tasks.len() as int) < cfg.cumulative_threshold_minutes,
    ensures
        recovered_minutes(tasks, heavy, cfg, k, carried) == work_between(tasks, k, tasks.len() as int)
            + own_breaks_between(tasks, heavy, cfg, k, tasks.len() as int),
    decreases tasks.len() - k,
{
    if k < tasks.len() {
        let acc = carried + tasks[k].task.duration;
        lemma_work_nonneg(tasks, k + 1, tasks.len() as int);
        lemma_break_minutes(tasks[k].task.duration, heavy[k], acc, cfg);
        lemma_below_threshold_from(tasks, heavy, cfg, k + 1, acc);
    }
}

proof fn lemma_first_reach_from(
    tasks: Seq<ScheduledTaskView>,
    heavy: Seq<bool>,
    cfg: RecoveryConfig,
    k: int,
    m: int,
    carried: int,
)
    requires
        0 <= k < m <= tasks.len(),
        carried + work_between(tasks, k, m - 1) < cfg.cumulative_threshold_minutes,
        carried + work_between(tasks, k, m) >= cfg.cumulative_threshold_minutes,
    ensures
        recovered_minutes(tasks, heavy, cfg, k, carried) == work_between(tasks, k, m)
            + own_breaks_between(tasks, heavy, cfg, k, m) + cfg.cumulative_break_minutes
            + recovered_minutes(tasks, heavy, cfg, m, 0),
    decreases m - k,
{
    let acc = carried + tasks[k].task.duration;
    lemma_break_minutes(tasks[k].task.duration, heavy[k], acc, cfg);
    if k < m - 1 {
        lemma_work_nonneg(tasks, k + 1, m - 1);
        assert(work_between(tasks, k, m - 1) == tasks[k].task.duration + work_between(tasks, k + 1, m - 1));
        lemma_first_reach_from(tasks, heavy, cfg, k + 1, m, acc);
    } else {
        assert(work_between(tasks, k + 1, m) == 0);
        assert(own_breaks_between(tasks, heavy, cfg, k + 1, m) == 0);
    }
}

/// Below the threshold no cumulative break goes in: when the whole
/// schedule's work stays under the cumulative threshold, it takes its work
/// plus the heavy-task and long-task breaks and nothing more.
pub proof fn lemma_no_cumulative_break_below_threshold(
    tasks: Seq<ScheduledTaskView>,
    heavy: Seq<bool>,
    cfg: RecoveryConfig,
    seed: u64,
)
    requires
        work_between(tasks, 0, tasks.len() as int) < cfg.cumulative_threshold_minutes,
    ensures
        total_duration(underlying_tasks(with_recoveries(tasks, heavy, cfg, 0, 0, seed)))
            == work_between(tasks, 0, tasks.len() as int) + own_breaks_between(
            tasks,
            heavy,
            cfg,
            0,
            tasks.len() as int,
        ),
{
    lemma_recovered_total(tasks, heavy, cfg, 0, 0, seed);
    lemma_below_threshold_from(tasks, heavy, cfg, 0, 0);
}

/// The work counter starts again after a cumulative break. If task `m - 1`
/// is the first at which the work so far reaches the cumulative threshold,
/// one cumulative break follows it, and the rest of the schedule from task
/// `m` on is treated as if it were a schedule of its own, counting work
/// from zero.
pub proof fn lemma_cumulative_break_restarts_count(
    tasks: Seq<ScheduledTaskView>,
    heavy: Seq<bool>,
    cfg: RecoveryConfig,
    m: int,
    seed: u64,
)
    requires
        0 < m <= tasks.len(),
        heavy.len() == tasks.len(),
        work_between(tasks, 0, m - 1) < cfg.cumulative_threshold_minutes,
        work_between(tasks, 0, m) >= cfg.cumulative_threshold_minutes,
    ensures
        total_duration(underlying_tasks(with_recoveries(tasks, heavy, cfg, 0, 0, seed)))
            == work_between(tasks, 0, m) + own_breaks_between(tasks, heavy, cfg, 0, m)
            + cfg.cumulative_break_minutes + total_duration(
            underlying_tasks(with_recoveries(tasks.skip(m), heavy.skip(m), cfg, 0, 0, seed)),
        ),
{
    lemma_recovered_total(tasks, heavy, cfg, 0, 0, seed);
    lemma_recovered_total(tasks.skip(m), heavy.skip(m), cfg, 0, 0, seed);
    lemma_first_reach_from(tasks, heavy, cfg, 0, m, 0);
    lemma_recovered_shift(tasks, heavy, cfg, m, 0, 0);
}

proof fn lemma_recovered_shift(
    tasks: Seq<ScheduledTaskView>,
    heavy: Seq<bool>,
    cfg: RecoveryConfig,
    m: int,
    i: int,
    carried: int,
)
    requires
        0 <= m <= tasks.len(),
        heavy.len() == tasks.len(),
        0 <= i,
    ensures
        recovered_minutes(tasks, heavy, cfg, m + i, carried) == recovered_minutes(
            tasks.skip(m),
            heavy.skip(m),
            cfg,
            i,
            carried,
        ),
    decreases tasks.len() - m - i,
{
    if m + i < tasks.len() {
        let acc = carried + tasks[m + i].task.duration;
        assert(tasks.skip(m)[i] == tasks[m + i]);
        lemma_recovered_shift(tasks, heavy, cfg, m, i + 1, carried_after(acc, cfg));
        assert(heavy.skip(m)[i] == heavy[m + i]);
    }
}

proof fn lemma_total_concat(a: Seq<TaskView>, b: Seq<TaskView>)
    ensures
        total_duration(a + b) == total_duration(a) + total_duration(b),
    decreases b.len(),
{
    if b.len() == 0 {
        assert(a + b =~= a);
    } else {
        lemma_total_concat(a, b.drop_last());
        assert((a + b).drop_last() =~= a + b.drop_last());
    }
}

proof fn lemma_break_views_total(minutes: Seq<u32>, seed: u64)
    ensures
        total_duration(underlying_tasks(break_views(minutes, seed))) == minutes_total(minutes),
    decreases minutes.len(),
{
    if minutes.len() > 0 {
        lemma_break_views_total(minutes.drop_last(), seed);
        let bv = break_views(minutes, seed);
        assert(underlying_tasks(bv).drop_last() =~= underlying_tasks(
            break_views(minutes.drop_last(), seed),
        ));
    }
}

/// The time a schedule with its breaks takes does not depend on the
/// generator state.
pub proof fn lemma_recovered_total(
    tasks: Seq<ScheduledTaskView>,
    heavy: Seq<bool>,
    cfg: RecoveryConfig,
    k: int,
    carried: int,
    seed: u64,
)
    requires
        0 <= k,
    ensures
        total_duration(underlying_tasks(with_recoveries(tasks, heavy, cfg, k, carried, seed)))
            == recovered_minutes(tasks, heavy, cfg, k, carried),
    decreases tasks.len() - k,
{
    if k < tasks.len() {
        let acc = carried + tasks[k].task.duration;
        let mins = breaks_after(tasks[k].task.duration, heavy[k], acc, cfg);
        let head = seq![tasks[k]] + break_views(mins, seed);
        let tail = with_recoveries(
            tasks,
            heavy,
            cfg,
            k + 1,
            carried_after(acc, cfg),
            seed_after_breaks(mins, seed),
        );
        lemma_recovered_total(
            tasks,
            heavy,
            cfg,
            k + 1,
            carried_after(acc, cfg),
            seed_after_breaks(mins, seed),
        );
        lemma_break_views_total(mins, seed);
        assert(underlying_tasks(head + tail) =~= underlying_tasks(seq![tasks[k]]) + underlying_tasks(
            break_views(mins, seed),
        ) + underlying_tasks(tail));
        lemma_total_concat(
            underlying_tasks(seq![tasks[k]]) + underlying_tasks(break_views(mins, seed)),
            underlying_tasks(tail),
        );
        lemma_total_concat(
            underlying_tasks(seq![tasks[k]]),
            underlying_tasks(break_views(mins, seed)),
        );
        let one = underlying_tasks(seq![tasks[k]]);
        assert(one.len() == 1);
        assert(one[0] == tasks[k].task);
        assert(one.drop_last() =~= Seq::<TaskView>::empty());
        assert(total_duration(one.drop_last()) == 0);
        assert(total_duration(one) == tasks[k].task.duration);
        assert(with_recoveries(tasks, heavy, cfg, k, carried, seed) == head + tail);
        assert(total_duration(underlying_tasks(head + tail)) == tasks[k].task.duration + minutes_total(mins) + total_duration(underlying_tasks(tail)));
    }
}

/// The minutes a schedule will take once [`insert_micro_recoveries`] has
/// put its breaks in.
pub fn recovered_length(
    tasks: &Vec<ScheduledTask>,
    heavy: &Vec<bool>,
    config: &RecoveryConfig,
) -> (minutes: u128)
    requires
        heavy.len() == tasks.len(),
    ensures
        minutes == recovered_minutes(scheduled_view(tasks@), heavy@, *config, 0, 0),
{
    let ghost tv = scheduled_view(tasks@);
    let cfg = *config;
    let n = tasks.len();
    let mut total: u128 = 0;
    let mut carried: u64 = 0;
    let mut k: usize = 0;
    while k < n
        invariant
            k <= n,
            n == tasks.len(),
            n == heavy.len(),
            tv == scheduled_view(tasks@),
            cfg == *config,
            carried < cfg.cumulative_threshold_minutes || carried == 0,
            total <= k * 0x4_0000_0000u128,
            recovered_minutes(tv, heavy@, cfg, 0, 0) == total + recovered_minutes(
                tv,
                heavy@,
                cfg,
                k as int,
                carried as int,
            ),
        decreases n - k,
    {
        let d = tasks[k].task.duration;
        let acc: u64 = carried + d as u64;
        let mut here: u128 = d as u128;
        if heavy[k] {
            here = here + cfg.heavy_break_minutes as u128;
        }
        if d > cfg.long_task_threshold_minutes {
            here = here + cfg.long_break_minutes as u128;
        }
        if acc >= cfg.cumulative_threshold_minutes as u64 {
            here = here + cfg.cumulative_break_minutes as u128;
            carried = 0;
        } else {
            carried = acc;
        }
        proof {
            let mins = breaks_after(d, heavy@[k as int], acc as int, cfg);
            reveal_with_fuel(minutes_total, 4);
            assert(here == d + minutes_total(mins));
        }
        total = total + here;
        k = k + 1;
    }
    total
}

/// A break task of the given length; the generator advances six steps for
/// its identifier.
pub fn make_break(minutes: u32, seed: &mut u64) -> (b: ScheduledTask)
    ensures
        b@ == break_view(minutes, *old(seed)),
        *final(seed) == xorshift_steps(*old(seed), 6),
{
    let mut id = String::from_str("break-");
    let suffix = uuid_v4(seed);
    id.append(suffix.as_str());
    let name = if minutes == 5 {
        String::from_str("Quick reset")
    } else if minutes == 10 {
        String::from_str("Take a breath")
    } else if minutes == 15 {
        String::from_str("Real break — walk away")
    } else {
        String::from_str("Break")
    };
    let mut tags: Vec<String> = Vec::new();
    tags.push(String::from_str("break"));
    let b = ScheduledTask {
        task: Task {
            id,
            name,
            duration: minutes,
            priority: 0,
            deadline: None,
            tags,
            emotional_weight_bits: 0,
            category: Some(String::from_str("recovery")),
        },
        start_time: 0,
        end_time: 0,
        stress_contribution_bits: 0,
        deadline_risk_bits: 0,
    };
    assert(b@.task.tags =~= seq!["break"@]);
    b
}

/// Inserts the breaks of [`with_recoveries`] after each task and places the
/// whole schedule back to back from minute zero.
pub fn insert_micro_recoveries(
    tasks: &mut Vec<ScheduledTask>,
    heavy: &Vec<bool>,
    config: &RecoveryConfig,
    seed: &mut u64,
)
    requires
        heavy.len() == old(tasks).len(),
        recovered_minutes(scheduled_view(old(tasks)@), heavy@, *config, 0, 0) <= u32::MAX,
    ensures
        same_but_times(
            with_recoveries(scheduled_view(old(tasks)@), heavy@, *config, 0, 0, *old(seed)),
            scheduled_view(final(tasks)@),
        ),
        back_to_back(scheduled_view(final(tasks)@)),
        *final(seed) == seed_after_recoveries(
            scheduled_view(old(tasks)@),
            heavy@,
            *config,
            0,
            0,
            *old(seed),
        ),
{
    let ghost tv = scheduled_view(tasks@);
    let ghost s0 = *seed;
    let cfg = *config;
    let n = tasks.len();
    let mut out: Vec<ScheduledTask> = Vec::new();
    let mut carried: u64 = 0;
    let mut k: usize = 0;
    while k < n
        invariant
            k <= n,
            n == tasks.len(),
            n == heavy.len(),
            tv == scheduled_view(tasks@),
            cfg == *config,
            carried < cfg.cumulative_threshold_minutes || carried == 0,
            with_recoveries(tv, heavy@, cfg, 0, 0, s0) == scheduled_view(out@) + with_recoveries(
                tv,
                heavy@,
                cfg,
                k as int,
                carried as int,
                *seed,
            ),
            seed_after_recoveries(tv, heavy@, cfg, 0, 0, s0) == seed_after_recoveries(
                tv,
                heavy@,
                cfg,
                k as int,
                carried as int,
                *seed,
            ),
        decreases n - k,
    {
        let ghost out_before = scheduled_view(out@);
        let ghost seed_before = *seed;
        let d = tasks[k].task.duration;
        let acc: u64 = carried + d as u64;
        let mut minutes: Vec<u32> = Vec::new();
        if heavy[k] {
            minutes.push(cfg.heavy_break_minutes);
        }
        if d > cfg.long_task_threshold_minutes {
            minutes.push(cfg.long_break_minutes);
        }
        if acc >= cfg.cumulative_threshold_minutes as u64 {
            minutes.push(cfg.cumulative_break_minutes);
            carried = 0;
        } else {
            carried = acc;
        }
        assert(minutes@ =~= breaks_after(d, heavy@[k as int], acc as int, cfg));
        out.push(tasks[k].duplicate());
        let ghost after_task = scheduled_view(out@);
        assert(after_task =~= out_before.push(tv[k as int]));
        let mut j: usize = 0;
        assert(break_views(minutes@.take(0), seed_before) =~= Seq::<ScheduledTaskView>::empty());
        assert(minutes@.take(0) =~= Seq::<u32>::empty());
        while j < minutes.len()
            invariant
                j <= minutes.len(),
                after_task == out_before.push(tv[k as int]),
                scheduled_view(out@) == after_task + break_views(minutes@.take(j as int), seed_before),
                *seed == seed_after_breaks(minutes@.take(j as int), seed_before),
            decreases minutes.len() - j,
        {
            let ghost prefix = minutes@.take(j as int);
            let ghost out_mid = scheduled_view(out@);
            let b = make_break(minutes[j], seed);
            out.push(b);
            proof {
                assert(minutes@.take(j + 1).drop_last() =~= prefix);
                assert(minutes@.take(j + 1).last() == minutes@[j as int]);
                assert(scheduled_view(out@) =~= out_mid.push(b@));
                assert(scheduled_view(out@) =~= after_task + break_views(
                    minutes@.take(j + 1),
                    seed_before,
                ));
            }
            j = j + 1;
        }
        proof {
            assert(minutes@.take(minutes.len() as int) =~= minutes@);
            assert(scheduled_view(out@) =~= out_before + (seq![tv[k as int]] + break_views(
                minutes@,
                seed_before,
            )));
        }
        k = k + 1;
    }
    proof {
        assert(scheduled_view(out@) =~= with_recoveries(tv, heavy@, cfg, 0, 0, s0));
        lemma_recovered_total(tv, heavy@, cfg, 0, 0, s0);
    }
    assign_times(&mut out);
    *tasks = out;
}

/// Where each task of the schedule from `k` on lands once its breaks are in.
pub open spec fn task_positions(
    tasks: Seq<ScheduledTaskView>,
    heavy: Seq<bool>,
    cfg: RecoveryConfig,
    k: int,
    carried: int,
) -> Seq<int>
    decreases tasks.len() - k,
{
    if k < 0 || k >= tasks.len() {
        seq![]
    } else {
        let acc = carried + tasks[k].task.duration;
        let mins = breaks_after(tasks[k].task.duration, heavy[k], acc, cfg);
        let shift = 1 + mins.len();
        seq![0int] + task_positions(tasks, heavy, cfg, k + 1, carried_after(acc, cfg)).map_values(
            |p: int| p + shift,
        )
    }
}

proof fn lemma_break_views_len(minutes: Seq<u32>, seed: u64)
    ensures
        break_views(minutes, seed).len() == minutes.len(),
    decreases minutes.len(),
{
    if minutes.len() > 0 {
        lemma_break_views_len(minutes.drop_last(), seed);
    }
}

/// Breaks only go in between: the schedule's tasks all stay, once each and
/// in their order, at [`task_positions`], which increase.
pub proof fn lemma_recoveries_keep_tasks(
    tasks: Seq<ScheduledTaskView>,
    heavy: Seq<bool>,
    cfg: RecoveryConfig,
    k: int,
    carried: int,
    seed: u64,
)
    requires
        0 <= k <= tasks.len(),
    ensures
        task_positions(tasks, heavy, cfg, k, carried).len() == tasks.len() - k,
        forall|i: int|
            0 <= i < tasks.len() - k ==> {
                let p = #[trigger] task_positions(tasks, heavy, cfg, k, carried)[i];
                &&& 0 <= p < with_recoveries(tasks, heavy, cfg, k, carried, seed).len()
                &&& with_recoveries(tasks, heavy, cfg, k, carried, seed)[p] == tasks[k + i]
            },
        forall|i: int, j: int|
            0 <= i < j < tasks.len() - k ==> task_positions(tasks, heavy, cfg, k, carried)[i]
                < task_positions(tasks, heavy, cfg, k, carried)[j],
    decreases tasks.len() - k,
{
    if k < tasks.len() {
        let acc = carried + tasks[k].task.duration;
        let mins = breaks_after(tasks[k].task.duration, heavy[k], acc, cfg);
        let shift = 1 + mins.len();
        let next_seed = seed_after_breaks(mins, seed);
        let next_carried = carried_after(acc, cfg);
        lemma_recoveries_keep_tasks(tasks, heavy, cfg, k + 1, next_carried, next_seed);
        lemma_break_views_len(mins, seed);
        let tail = with_recoveries(tasks, heavy, cfg, k + 1, next_carried, next_seed);
        let rest = task_positions(tasks, heavy, cfg, k + 1, next_carried);
        let whole = with_recoveries(tasks, heavy, cfg, k, carried, seed);
        let pos = task_positions(tasks, heavy, cfg, k, carried);
        assert(whole == seq![tasks[k]] + break_views(mins, seed) + tail);
        assert(pos == seq![0int] + rest.map_values(|p: int| p + shift));
        assert forall|i: int| 0 <= i < tasks.len() - k implies {
            let p = #[trigger] pos[i];
            &&& 0 <= p < whole.len()
            &&& whole[p] == tasks[k + i]
        } by {
            if i > 0 {
                assert(pos[i] == rest[i - 1] + shift);
                assert(whole[rest[i - 1] + shift] == tail[rest[i - 1]]);
            }
        }
        assert forall|i: int, j: int| 0 <= i < j < tasks.len() - k implies pos[i] < pos[j] by {
            if i > 0 {
                assert(pos[i] == rest[i - 1] + shift);
            }
            assert(pos[j] == rest[j - 1] + shift);
        }
    }
}

} // verus!
