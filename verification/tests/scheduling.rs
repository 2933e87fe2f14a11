use agamotto::datetime::parse_iso_to_secs;
use agamotto::greedy::serenity_plan;
use agamotto::ids::INITIAL_SEED;
use agamotto::knapsack::crunch_plan;
use agamotto::types::{ScheduledTask, Task};

fn task(name: &str, duration: u32, priority: u8, seed: &mut u64) -> Task {
    Task::new(name.to_string(), duration, priority, seed)
}

/// Task indices by descending value density, ties in input order.
fn density_order(tasks: &[Task]) -> Vec<usize> {
    let density = |t: &Task| {
        let weight = f64::from_bits(t.emotional_weight_bits);
        (t.priority as f64 + weight * 2.0) / t.duration.max(1) as f64
    };
    let mut order: Vec<usize> = (0..tasks.len()).collect();
    order.sort_by(|&a, &b| density(&tasks[b]).partial_cmp(&density(&tasks[a])).unwrap());
    order
}

/// Crunch scores in millionths.
fn crunch_scores(tasks: &[Task]) -> Vec<u64> {
    let now = std::time::SystemTime::now()
        .duration_since(std::time::UNIX_EPOCH)
        .unwrap_or_default()
        .as_secs() as f64;
    tasks
        .iter()
        .map(|t| {
            let urgency = match &t.deadline {
                Some(d) => match parse_iso_to_secs(d) {
                    Ok(secs) => {
                        let hours = (secs as f64 - now) / 3600.0;
                        if hours <= 0.0 {
                            10.0
                        } else {
                            1.0 / hours.max(1.0)
                        }
                    }
                    Err(()) => 0.0,
                },
                None => 0.0,
            };
            let weight = f64::from_bits(t.emotional_weight_bits);
            let score = t.priority as f64 * (1.0 + urgency) * (1.0 + weight * 0.5);
            (score * 1_000_000.0).round() as u64
        })
        .collect()
}

fn serenity(tasks: &[Task], available: u32) -> Vec<ScheduledTask> {
    let tasks = tasks.to_vec();
    serenity_plan(&tasks, &density_order(&tasks), available)
}

fn crunch(tasks: &[Task], available: u32) -> Vec<ScheduledTask> {
    let tasks = tasks.to_vec();
    crunch_plan(&tasks, &crunch_scores(&tasks), available)
}

fn total(plan: &[ScheduledTask]) -> u32 {
    plan.iter().map(|t| t.task.duration).sum()
}

#[test]
fn gt01_selects_high_density_tasks() {
    let mut seed = INITIAL_SEED;
    let tasks = vec![
        task("task1", 10, 5, &mut seed),
        task("task2", 20, 3, &mut seed),
        task("task3", 15, 4, &mut seed),
    ];
    let plan = serenity(&tasks, 30);
    assert_eq!(plan.len(), 2);
    assert_eq!(plan[0].task.name, "task1");
    assert_eq!(plan[1].task.name, "task3");
}

#[test]
fn gt02_all_tasks_fit() {
    let mut seed = INITIAL_SEED;
    let tasks = vec![
        task("a", 10, 1, &mut seed),
        task("b", 10, 2, &mut seed),
        task("c", 10, 3, &mut seed),
        task("d", 10, 4, &mut seed),
        task("e", 10, 5, &mut seed),
    ];
    let plan = serenity(&tasks, 60);
    assert_eq!(plan.len(), 5);
    for window in plan.windows(2) {
        assert!(window[0].task.duration <= window[1].task.duration);
    }
}

#[test]
fn gt03_oversized_single_task() {
    let mut seed = INITIAL_SEED;
    let tasks = vec![task("big", 500, 5, &mut seed)];
    let plan = serenity(&tasks, 60);
    assert!(plan.is_empty());
    assert_eq!(total(&plan), 0);
}

#[test]
fn gt04_identical_priorities() {
    let mut seed = INITIAL_SEED;
    let tasks = vec![
        task("c", 30, 3, &mut seed),
        task("a", 10, 3, &mut seed),
        task("b", 20, 3, &mut seed),
    ];
    let plan = serenity(&tasks, 60);
    assert_eq!(plan.len(), 3);
    assert_eq!(plan[0].task.name, "a");
    assert_eq!(plan[1].task.name, "b");
    assert_eq!(plan[2].task.name, "c");
}

#[test]
fn gt05_zero_available_time() {
    let mut seed = INITIAL_SEED;
    let tasks = vec![task("task", 10, 5, &mut seed)];
    let plan = serenity(&tasks, 0);
    assert!(plan.is_empty());
}

#[test]
fn kt01_optimal_subset() {
    let mut seed = INITIAL_SEED;
    let tasks = vec![
        task("task1", 10, 5, &mut seed),
        task("task2", 20, 4, &mut seed),
        task("task3", 15, 3, &mut seed),
        task("task4", 25, 5, &mut seed),
    ];
    let plan = crunch(&tasks, 35);
    assert!(total(&plan) <= 35);
    assert!(!plan.is_empty());
}

#[test]
fn kt02_large_input_performance() {
    let mut seed = INITIAL_SEED;
    let tasks: Vec<Task> = (0..50u32)
        .map(|i| Task::new(format!("task{i}"), (i % 8 + 1) * 10, (i % 5 + 1) as u8, &mut seed))
        .collect();
    let start = std::time::Instant::now();
    let plan = crunch(&tasks, 480);
    let elapsed = start.elapsed();
    assert!(elapsed.as_millis() < 100, "Took {}ms", elapsed.as_millis());
    assert!(total(&plan) <= 480);
}

#[test]
fn kt03_past_deadline() {
    let mut seed = INITIAL_SEED;
    let mut overdue = task("overdue", 10, 5, &mut seed);
    overdue.deadline = Some("2020-01-01T00:00:00Z".to_string());
    let plan = crunch(&[overdue], 60);
    assert!(!plan.is_empty());
}

#[test]
fn kt04_identical_scores() {
    let mut seed = INITIAL_SEED;
    let tasks = vec![
        task("a", 10, 3, &mut seed),
        task("b", 10, 3, &mut seed),
        task("c", 10, 3, &mut seed),
    ];
    let plan = crunch(&tasks, 30);
    assert_eq!(plan.len(), 3);
}

#[test]
fn kt05_empty_list() {
    let plan = crunch(&[], 60);
    assert!(plan.is_empty());
}

#[test]
fn it01_serenity_end_to_end() {
    let mut seed = INITIAL_SEED;
    let tasks: Vec<Task> = (0..10u32)
        .map(|i| Task::new(format!("task-{i}"), (i % 4 + 1) * 15, (i % 5 + 1) as u8, &mut seed))
        .collect();
    let plan = serenity(&tasks, 240);
    assert!(!plan.is_empty());
    assert!(plan.len() <= tasks.len());
    assert!(total(&plan) <= 240);
    for window in plan.windows(2) {
        assert!(window[0].task.duration <= window[1].task.duration);
    }
}

#[test]
fn it02_crunch_end_to_end() {
    let mut seed = INITIAL_SEED;
    let mut tasks = Vec::new();
    for i in 0..12u32 {
        let mut t = Task::new(format!("task-{i}"), (i % 5 + 1) * 20, (i % 5 + 1) as u8, &mut seed);
        if i % 3 == 0 {
            t.deadline = Some(format!("2030-01-{:02}T12:00:00Z", i + 1));
        }
        tasks.push(t);
    }
    let plan = crunch(&tasks, 480);
    assert!(!plan.is_empty());
    assert!(total(&plan) <= 480);
    let mut last_deadline_idx: Option<usize> = None;
    let mut first_no_deadline_idx: Option<usize> = None;
    for (i, st) in plan.iter().enumerate() {
        if st.task.deadline.is_none() && first_no_deadline_idx.is_none() {
            first_no_deadline_idx = Some(i);
        }
        if st.task.deadline.is_some() {
            last_deadline_idx = Some(i);
        }
    }
    if let (Some(last_dl), Some(first_ndl)) = (last_deadline_idx, first_no_deadline_idx) {
        assert!(last_dl < first_ndl, "Deadline tasks should come before non-deadline tasks");
    }
}

#[test]
fn it03_mode_switching() {
    let mut seed = INITIAL_SEED;
    let tasks: Vec<Task> = (0..8u32)
        .map(|i| {
            let mut t = Task::new(format!("task-{i}"), (i % 3 + 1) * 30, (i % 5 + 1) as u8, &mut seed);
            if i % 2 == 0 {
                t.deadline = Some(format!("2030-06-{:02}T12:00:00Z", i + 1));
            }
            t
        })
        .collect();
    let calm = serenity(&tasks, 180);
    let rushed = crunch(&tasks, 180);
    assert!(!calm.is_empty());
    assert!(!rushed.is_empty());
    let calm_ids: Vec<&str> = calm.iter().map(|t| t.task.id.as_str()).collect();
    let rushed_ids: Vec<&str> = rushed.iter().map(|t| t.task.id.as_str()).collect();
    assert!(
        calm_ids != rushed_ids || calm.len() != rushed.len(),
        "Serenity and Crunch should produce different schedules for mixed-input tasks"
    );
}

#[test]
fn it04_empty_task_list() {
    assert!(serenity(&[], 240).is_empty());
    assert!(crunch(&[], 240).is_empty());
}

#[test]
fn it05_zero_time() {
    let mut seed = INITIAL_SEED;
    let tasks = vec![task("task", 10, 5, &mut seed)];
    let calm = serenity(&tasks, 0);
    assert!(calm.is_empty());
    assert_eq!(total(&calm), 0);
    assert!(crunch(&tasks, 0).is_empty());
}

#[test]
fn it06_oversized_task() {
    let mut seed = INITIAL_SEED;
    let tasks = vec![task("huge", 500, 5, &mut seed)];
    assert!(serenity(&tasks, 60).is_empty());
    assert!(crunch(&tasks, 60).is_empty());
}

#[test]
fn it07_all_tasks_fit() {
    let mut seed = INITIAL_SEED;
    let tasks = vec![
        task("a", 10, 1, &mut seed),
        task("b", 10, 3, &mut seed),
        task("c", 10, 5, &mut seed),
    ];
    let plan = serenity(&tasks, 30);
    assert_eq!(plan.len(), 3);
    assert_eq!(total(&plan), 30);
}

#[test]
fn it08_large_input_performance() {
    let mut seed = INITIAL_SEED;
    let tasks: Vec<Task> = (0..50u32)
        .map(|i| Task::new(format!("task-{i}"), (i % 8 + 1) * 10, (i % 5 + 1) as u8, &mut seed))
        .collect();
    let start = std::time::Instant::now();
    let calm = serenity(&tasks, 480);
    let calm_time = start.elapsed();
    let start = std::time::Instant::now();
    let rushed = crunch(&tasks, 480);
    let rushed_time = start.elapsed();
    assert!(calm_time.as_millis() < 100, "Serenity took {}ms", calm_time.as_millis());
    assert!(rushed_time.as_millis() < 100, "Crunch took {}ms", rushed_time.as_millis());
    assert!(total(&calm) <= 480);
    assert!(total(&rushed) <= 480);
}

#[test]
fn it10_knapsack_optimality() {
    let mut seed = INITIAL_SEED;
    let tasks = vec![
        task("a", 10, 5, &mut seed),
        task("b", 20, 4, &mut seed),
        task("c", 15, 3, &mut seed),
        task("d", 25, 5, &mut seed),
    ];
    let w = 35u32;
    let plan = crunch(&tasks, w);
    let scheduled_score: f64 = plan.iter().map(|st| st.task.priority as f64).sum();
    let n = tasks.len();
    let mut best_score = 0.0f64;
    for mask in 0..(1u32 << n) {
        let mut total_dur = 0u32;
        let mut total_score = 0.0f64;
        for i in 0..n {
            if mask & (1 << i) != 0 {
                total_dur += tasks[i].duration;
                total_score += tasks[i].priority as f64;
            }
        }
        if total_dur <= w && total_score > best_score {
            best_score = total_score;
        }
    }
    assert!(
        (scheduled_score - best_score).abs() < 0.01,
        "Knapsack score {scheduled_score} != brute force {best_score}"
    );
}

#[test]
fn plans_run_back_to_back_from_zero() {
    let mut seed = INITIAL_SEED;
    let tasks = vec![
        task("a", 25, 2, &mut seed),
        task("b", 5, 4, &mut seed),
        task("c", 15, 1, &mut seed),
    ];
    for plan in [serenity(&tasks, 60), crunch(&tasks, 60)] {
        let mut clock = 0;
        for st in &plan {
            assert_eq!(st.start_time, clock);
            clock += st.task.duration;
            assert_eq!(st.end_time, clock);
        }
    }
}

#[test]
fn crunch_orders_by_deadline_then_priority() {
    let mut seed = INITIAL_SEED;
    let mut late = task("late", 10, 1, &mut seed);
    late.deadline = Some("2031-01-01T00:00:00Z".to_string());
    let mut early = task("early", 10, 1, &mut seed);
    early.deadline = Some("2030-01-01T00:00:00Z".to_string());
    let low = task("low", 10, 2, &mut seed);
    let high = task("high", 10, 5, &mut seed);
    let plan = crunch(&[low, late, high, early], 100);
    let names: Vec<&str> = plan.iter().map(|t| t.task.name.as_str()).collect();
    assert_eq!(names, vec!["early", "late", "high", "low"]);
}

#[test]
fn crunch_prefers_total_score_over_greedy_pick() {
    let mut seed = INITIAL_SEED;
    let tasks = vec![
        task("wide", 30, 5, &mut seed),
        task("half1", 20, 4, &mut seed),
        task("half2", 20, 4, &mut seed),
    ];
    let scores = vec![5u64, 4, 4];
    let plan = crunch_plan(&tasks, &scores, 40);
    let mut names: Vec<&str> = plan.iter().map(|t| t.task.name.as_str()).collect();
    names.sort();
    assert_eq!(names, vec!["half1", "half2"]);
}
