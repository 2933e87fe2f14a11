use agamotto::datetime::{epoch_seconds_of, iso_timestamp, parse_i64, parse_iso_to_secs};
use agamotto::debt::{compute_decision_debt, contains, task_decision_debt};
use agamotto::digits::{decimal_digits, digit_to_char, hex_digits};
use agamotto::edf::order_by_edf;
use agamotto::error::ScheduleError;
use agamotto::identity::{competing_message, detect_identity_conflicts, roles_message, IdentityConflict};
use agamotto::ids::{rand_u16, rand_u32, rand_u64, uuid_v4, INITIAL_SEED};
use agamotto::knapsack::knapsack_select;
use agamotto::momentum::apply_momentum_ordering;
use agamotto::persistence::{same_text, summary_from_fields};
use agamotto::presentation::{
    available_minutes, debt_badge, exclusion_reason, excluded_task_indices, format_time,
    move_task, parse_tags, priority_color, priority_label, priority_stars, remaining_minutes,
    schedule_save_name, task_from_form, validate_task_input, generate_label, ExclusionReason,
};
use agamotto::recovery::{insert_micro_recoveries, make_break, recovered_length, RecoveryConfig};
use agamotto::simulation::{apply_change, ScheduleChange};
use agamotto::sorting::stable_sort_order;
use agamotto::text::{
    char_is_whitespace, chars_of, find_first, find_last, split_chars, str_le,
    string_from_chars, sub_chars, trim_bounds,
};
use agamotto::timing::assign_times;
use agamotto::types::{ScheduleMode, ScheduledTask, Task};

fn task(name: &str, duration: u32, priority: u8, seed: &mut u64) -> Task {
    Task::new(name.to_string(), duration, priority, seed)
}

fn placed(tasks: Vec<Task>) -> Vec<ScheduledTask> {
    let mut plan: Vec<ScheduledTask> = tasks.into_iter().map(ScheduledTask::unplaced).collect();
    assign_times(&mut plan);
    plan
}

fn names(plan: &[ScheduledTask]) -> Vec<String> {
    plan.iter().map(|t| t.task.name.clone()).collect()
}

fn xorshift(mut s: u64) -> u64 {
    s ^= s << 13;
    s ^= s >> 7;
    s ^= s << 17;
    s
}

#[test]
fn random_draws_follow_xorshift() {
    let mut seed = INITIAL_SEED;
    let first = xorshift(INITIAL_SEED);
    assert_eq!(rand_u32(&mut seed), first as u32);
    assert_eq!(seed, first);
    let second = xorshift(first);
    assert_eq!(rand_u16(&mut seed), second as u16);
    let third = xorshift(second);
    let fourth = xorshift(third);
    assert_eq!(rand_u64(&mut seed), ((third as u32 as u64) << 32) | fourth as u32 as u64);
    assert_eq!(seed, fourth);
}

#[test]
fn uuid_matches_reference_layout() {
    let mut s = INITIAL_SEED;
    let mut draws = Vec::new();
    for _ in 0..6 {
        s = xorshift(s);
        draws.push(s as u32);
    }
    let wide = ((draws[4] as u64) << 32) | draws[5] as u64;
    let expected = format!(
        "{:08x}-{:04x}-{:04x}-{:04x}-{:012x}",
        draws[0],
        draws[1] as u16,
        draws[2] as u16,
        draws[3] as u16,
        wide & 0x0000_FFFF_FFFF_FFFF
    );
    let mut seed = INITIAL_SEED;
    let id = uuid_v4(&mut seed);
    assert_eq!(id, expected);
    assert_eq!(id.len(), 36);
    assert_eq!(seed, s);
    for (k, c) in id.chars().enumerate() {
        if k == 8 || k == 13 || k == 18 || k == 23 {
            assert_eq!(c, '-');
        } else {
            assert!(c.is_ascii_hexdigit() && !c.is_ascii_uppercase());
        }
    }
}

#[test]
fn ids_differ_between_tasks() {
    let mut seed = INITIAL_SEED;
    let a = task("a", 10, 1, &mut seed);
    let b = task("b", 10, 1, &mut seed);
    assert_ne!(a.id, b.id);
    assert_eq!(a.deadline, None);
    assert!(a.tags.is_empty());
    assert_eq!(a.emotional_weight_bits, 0.0f64.to_bits());
}

#[test]
fn digits_render() {
    assert_eq!(digit_to_char(7), '7');
    assert_eq!(digit_to_char(11), 'b');
    assert_eq!(hex_digits(0xbeef, 6).into_iter().collect::<String>(), "00beef");
    assert_eq!(decimal_digits(0).into_iter().collect::<String>(), "0");
    assert_eq!(decimal_digits(90210).into_iter().collect::<String>(), "90210");
}

#[test]
fn parse_integers_like_std() {
    let p = |s: &str| parse_i64(&s.chars().collect());
    assert_eq!(p("2030"), Some(2030));
    assert_eq!(p("-17"), Some(-17));
    assert_eq!(p("+5"), Some(5));
    assert_eq!(p("007"), Some(7));
    assert_eq!(p(""), None);
    assert_eq!(p("-"), None);
    assert_eq!(p("1a"), None);
    assert_eq!(p("9223372036854775807"), Some(i64::MAX));
    assert_eq!(p("-9223372036854775808"), Some(i64::MIN));
    assert_eq!(p("9223372036854775808"), None);
}

#[test]
fn iso_timestamps_to_epoch_seconds() {
    assert_eq!(parse_iso_to_secs("1970-01-01T00:00:00Z"), Ok(0));
    assert_eq!(parse_iso_to_secs("2020-01-01T00:00:00Z"), Ok(1_577_836_800));
    assert_eq!(parse_iso_to_secs("  2030-01-01T12:00:00+00:00 "), Ok(1_893_499_200));
    assert_eq!(parse_iso_to_secs("2020-01-01T00:00:00-05:00"), Ok(1_577_836_800));
    assert_eq!(parse_iso_to_secs("2024-02-29T23:59:59"), Ok(1_709_251_199));
    assert_eq!(parse_iso_to_secs("2020-01-01T10:30:00.500Z"), Err(()));
    assert_eq!(parse_iso_to_secs("2020-01-01"), Err(()));
    assert_eq!(parse_iso_to_secs("not a timestamp at all"), Err(()));
    assert_eq!(parse_iso_to_secs("2020-01-01 00:00:00Z"), Err(()));
    assert_eq!(epoch_seconds_of(2000, 3, 1, 0, 0, 0), 951_868_800);
}

#[test]
fn text_helpers() {
    assert!(str_le("2030-01-01", "2030-01-02"));
    assert!(str_le("abc", "abc"));
    assert!(str_le("ab", "abc"));
    assert!(!str_le("b", "abc"));
    let chars = chars_of("  hi there \t");
    let (lo, hi) = trim_bounds(&chars);
    assert_eq!((lo, hi), (2, 10));
    assert_eq!(string_from_chars(&sub_chars(&chars, lo, hi)), "hi there");
    assert!(char_is_whitespace('\n'));
    assert!(!char_is_whitespace('x'));
    let word = chars_of("a-b-c");
    assert_eq!(find_first(&word, '-'), Some(1));
    assert_eq!(find_last(&word, '-'), Some(3));
    assert_eq!(find_first(&word, 'z'), None);
    let pieces: Vec<String> = split_chars(&chars_of("x,,y,"), ',')
        .iter()
        .map(|p| p.iter().collect())
        .collect();
    assert_eq!(pieces, vec!["x", "", "y", ""]);
    assert_eq!(string_from_chars(&vec!['o', 'k', '!']), "ok!");
}

#[test]
fn decision_debt_counts_open_decisions() {
    let mut seed = INITIAL_SEED;
    let bare = task("misc", 30, 3, &mut seed);
    assert_eq!(task_decision_debt(&bare, "misc"), 10);
    assert_eq!(compute_decision_debt(&vec![bare.clone()]), 5);
    let mut settled = task("Prepare the quarterly report", 30, 5, &mut seed);
    settled.deadline = Some("2030-01-01T00:00:00Z".to_string());
    settled.tags = vec!["work".to_string()];
    settled.category = Some("job".to_string());
    assert_eq!(compute_decision_debt(&vec![settled.clone()]), 0);
    let mut shouty = settled.clone();
    shouty.name = "Work On the big deck".to_string();
    assert_eq!(compute_decision_debt(&vec![shouty]), 1);
    let mut stuff = settled.clone();
    stuff.name = "Sort out STUFF".to_string();
    let all = vec![bare, settled, stuff];
    assert_eq!(compute_decision_debt(&all), 6);
    assert_eq!(compute_decision_debt(&Vec::new()), 0);
    let mut reversed = all.clone();
    reversed.reverse();
    assert_eq!(compute_decision_debt(&reversed), 6);
    assert!(contains(&chars_of("do things now"), &chars_of("things")));
    assert!(!contains(&chars_of("thing"), &chars_of("things")));
}

#[test]
fn identity_conflicts_found() {
    let mut seed = INITIAL_SEED;
    let mut tasks = Vec::new();
    for (name, cat, pri) in [
        ("a", "work", 5u8),
        ("b", "home", 4),
        ("c", "gym", 2),
        ("d", "study", 1),
    ] {
        let mut t = task(name, 10, pri, &mut seed);
        t.category = Some(cat.to_string());
        tasks.push(t);
    }
    let conflicts = detect_identity_conflicts(&placed(tasks));
    assert_eq!(conflicts.len(), 3);
    match &conflicts[0] {
        IdentityConflict::TooManyRoles(cats) => assert_eq!(cats, &vec!["work", "home", "gym", "study"]),
        other => panic!("unexpected {other:?}"),
    }
    match &conflicts[1] {
        IdentityConflict::CompetingRoles(a, b) => {
            assert_eq!(a, "work");
            assert_eq!(b, "home");
        }
        other => panic!("unexpected {other:?}"),
    }
    match &conflicts[2] {
        IdentityConflict::FrequentSwitching { switches, transitions } => {
            assert_eq!((*switches, *transitions), (3, 3));
        }
        other => panic!("unexpected {other:?}"),
    }
}

#[test]
fn identity_calm_schedule_has_no_conflicts() {
    let mut seed = INITIAL_SEED;
    let mut tasks = Vec::new();
    for name in ["a", "b", "c"] {
        let mut t = task(name, 10, 2, &mut seed);
        t.category = Some("work".to_string());
        tasks.push(t);
    }
    assert!(detect_identity_conflicts(&placed(tasks)).is_empty());
    assert!(detect_identity_conflicts(&Vec::new()).is_empty());
}

#[test]
fn momentum_moves_warmup_first() {
    let mut seed = INITIAL_SEED;
    let tasks: Vec<Task> = (0..8u32)
        .map(|i| task(&format!("t{i}"), 10 + i, 1, &mut seed))
        .collect();
    let mut plan = placed(tasks);
    let ranking = vec![5usize, 2, 7, 0, 1, 3, 4, 6];
    assert_eq!(apply_momentum_ordering(&mut plan, &ranking), Some(2));
    assert_eq!(names(&plan), vec!["t5", "t2", "t0", "t1", "t3", "t4", "t6", "t7"]);
    assert_eq!(plan[0].start_time, 0);
    assert_eq!(plan[1].start_time, 15);
    let mut short = placed(vec![task("x", 5, 1, &mut seed), task("y", 5, 1, &mut seed)]);
    assert_eq!(apply_momentum_ordering(&mut short, &vec![1, 0]), None);
    assert_eq!(names(&short), vec!["x", "y"]);
}

#[test]
fn recovery_breaks_inserted() {
    let mut seed = INITIAL_SEED;
    let plan = placed(vec![
        task("heavy", 30, 3, &mut seed),
        task("long", 70, 3, &mut seed),
        task("tail", 30, 3, &mut seed),
    ]);
    let heavy = vec![true, false, false];
    let config = RecoveryConfig::default();
    assert_eq!(recovered_length(&plan, &heavy, &config), 30 + 5 + 70 + 5 + 30 + 10);
    let mut tasks = plan;
    let mut break_seed = 42u64;
    insert_micro_recoveries(&mut tasks, &heavy, &config, &mut break_seed);
    assert_eq!(
        names(&tasks),
        vec!["heavy", "Quick reset", "long", "Quick reset", "tail", "Take a breath"]
    );
    let mut clock = 0;
    for t in &tasks {
        assert_eq!(t.start_time, clock);
        clock += t.task.duration;
        assert_eq!(t.end_time, clock);
    }
    assert_eq!(clock, 150);
    assert!(tasks[1].task.id.starts_with("break-"));
    assert_eq!(tasks[1].task.tags, vec!["break"]);
    assert_eq!(tasks[1].task.category.as_deref(), Some("recovery"));
}

#[test]
fn break_names_by_length() {
    let mut seed = 7u64;
    assert_eq!(make_break(15, &mut seed).task.name, "Real break — walk away");
    assert_eq!(make_break(3, &mut seed).task.name, "Break");
    let b = make_break(10, &mut seed);
    assert_eq!(b.task.duration, 10);
    assert_eq!(b.task.priority, 0);
    assert_eq!(b.task.id.len(), "break-".len() + 36);
}

#[test]
fn what_if_changes() {
    let mut seed = INITIAL_SEED;
    let mut a = task("a", 10, 1, &mut seed);
    a.deadline = Some("2030-01-01T00:00:00Z".to_string());
    let b = task("b", 10, 1, &mut seed);
    let tasks = vec![a.clone(), b.clone()];
    let removed = apply_change(&tasks, &ScheduleChange::RemoveTask(a.id.clone()), "");
    assert_eq!(removed.len(), 1);
    assert_eq!(removed[0].id, b.id);
    let later = "2030-03-03T12:00:00Z";
    let delayed = apply_change(&tasks, &ScheduleChange::DelayTask(a.id.clone()), later);
    assert_eq!(delayed.len(), 2);
    assert_eq!(delayed[0].deadline.as_deref(), Some(later));
    assert_eq!(delayed[0].name, "a");
    assert_eq!(delayed[1].deadline, None);
    let undated = apply_change(&tasks, &ScheduleChange::DelayTask(b.id.clone()), later);
    assert_eq!(undated[0].deadline, a.deadline);
    assert_eq!(undated[1].deadline.as_deref(), Some(later));
    let twice = vec![b.clone(), b.clone()];
    let first_only = apply_change(&twice, &ScheduleChange::DelayTask(b.id.clone()), later);
    assert_eq!(first_only[0].deadline.as_deref(), Some(later));
    assert_eq!(first_only[1].deadline, None);
    let untouched = apply_change(&tasks, &ScheduleChange::RemoveTask("nope".to_string()), "");
    assert_eq!(untouched.len(), 2);
}

#[test]
fn modes_and_summaries() {
    assert_eq!(ScheduleMode::Crunch.name(), "crunch");
    assert_eq!(ScheduleMode::Serenity.name(), "serenity");
    assert_eq!(ScheduleMode::from_name("crunch"), ScheduleMode::Crunch);
    assert_eq!(ScheduleMode::from_name("Crunch"), ScheduleMode::Serenity);
    for mode in [ScheduleMode::Serenity, ScheduleMode::Crunch] {
        assert_eq!(ScheduleMode::from_name(mode.name()), mode);
    }
    assert!(same_text("abc", "abc"));
    assert!(!same_text("abc", "abd"));
    assert!(summary_from_fields(None, Some("x".to_string()), None, Some(5)).is_none());
    let s = summary_from_fields(Some("id1".to_string()), None, None, None).unwrap();
    assert_eq!((s.id.as_str(), s.name.as_str(), s.mode.as_str(), s.available_time), ("id1", "Untitled", "serenity", 240));
    let s = summary_from_fields(
        Some("id2".to_string()),
        Some("Monday".to_string()),
        Some("crunch".to_string()),
        Some(90),
    )
    .unwrap();
    assert_eq!((s.name.as_str(), s.mode.as_str(), s.available_time), ("Monday", "crunch", 90));
}

#[test]
fn error_messages() {
    assert_eq!(ScheduleError::EmptyTaskList.message(), "No tasks provided");
    assert_eq!(ScheduleError::InvalidDuration("0".to_string()).message(), "Invalid duration: 0");
    assert_eq!(ScheduleError::InvalidPriority("9".to_string()).message(), "Invalid priority: 9");
    assert_eq!(ScheduleError::InvalidDeadline("x".to_string()).message(), "Invalid deadline: x");
    assert_eq!(
        ScheduleError::SchedulingFailed("no time".to_string()).message(),
        "Scheduling failed: no time"
    );
}

#[test]
fn presentation_labels() {
    assert_eq!(format_time(65), "1:05");
    assert_eq!(format_time(45), "0:45");
    assert_eq!(format_time(600), "10:00");
    assert_eq!(priority_color(1), "#22c55e");
    assert_eq!(priority_color(3), "#f59e0b");
    assert_eq!(priority_color(5), "#ef4444");
    assert_eq!(priority_color(0), "#94a3b8");
    assert_eq!(priority_label(5), "Critical");
    assert_eq!(priority_label(1), "Nice to do");
    assert_eq!(priority_label(9), "");
    assert_eq!(priority_stars(3), "★★★");
    assert_eq!(priority_stars(0), "");
    assert_eq!(debt_badge(3), ("#22c55e", "Healthy"));
    assert_eq!(debt_badge(7), ("#f59e0b", "Some open decisions"));
    assert_eq!(debt_badge(10), ("#f97316", "Clear some choices"));
    assert_eq!(debt_badge(11), ("#ef4444", "Decision debt is critical"));
}

#[test]
fn form_input() {
    assert_eq!(parse_tags(" work, ,deep focus ,"), vec!["work", "deep focus"]);
    assert!(parse_tags("").is_empty());
    assert_eq!(validate_task_input("  Write  ", 30), Ok("Write".to_string()));
    assert_eq!(validate_task_input("   ", 30), Err("Task name is required".to_string()));
    assert_eq!(validate_task_input("Write", 0), Err("Duration must be greater than 0".to_string()));
    assert_eq!(schedule_save_name("  "), "Untitled Schedule");
    assert_eq!(schedule_save_name(" Plan A "), "Plan A");
    assert_eq!(available_minutes(2, 30), 150);
    assert_eq!(available_minutes(20, 75), 12 * 60 + 59);
}

#[test]
fn exclusions_and_free_time() {
    let mut seed = INITIAL_SEED;
    let a = task("a", 30, 1, &mut seed);
    let b = task("b", 50, 1, &mut seed);
    let c = task("c", 20, 1, &mut seed);
    let all = vec![a.clone(), b.clone(), c.clone()];
    let plan = placed(vec![a, c]);
    assert_eq!(excluded_task_indices(&all, &plan), vec![1]);
    assert_eq!(remaining_minutes(&plan, 60), 10);
    assert_eq!(remaining_minutes(&plan, 40), 0);
    assert_eq!(exclusion_reason(50, 10), ExclusionReason::NotEnoughTime { needed: 50, remaining: 10 });
    assert_eq!(exclusion_reason(5, 10), ExclusionReason::Displaced);
}

#[test]
fn drag_and_drop_moves_task() {
    let mut seed = INITIAL_SEED;
    let mut plan = placed(vec![
        task("a", 10, 1, &mut seed),
        task("b", 20, 1, &mut seed),
        task("c", 30, 1, &mut seed),
    ]);
    assert!(move_task(&mut plan, 0, 2));
    assert_eq!(names(&plan), vec!["b", "c", "a"]);
    assert_eq!((plan[2].start_time, plan[2].end_time), (50, 60));
    assert!(!move_task(&mut plan, 1, 1));
    assert!(!move_task(&mut plan, 0, 3));
    assert_eq!(names(&plan), vec!["b", "c", "a"]);
}

#[test]
fn edf_order_and_stable_sort() {
    let mut seed = INITIAL_SEED;
    let mut x = task("x", 10, 1, &mut seed);
    x.deadline = Some("2030-02-01T00:00:00Z".to_string());
    let mut y = task("y", 10, 1, &mut seed);
    y.deadline = Some("2030-01-01T00:00:00Z".to_string());
    let p2 = task("p2", 10, 2, &mut seed);
    let p4 = task("p4", 10, 4, &mut seed);
    let p2b = task("p2b", 10, 2, &mut seed);
    let mut plan = placed(vec![p2, x, p4, p2b, y]);
    order_by_edf(&mut plan);
    assert_eq!(names(&plan), vec!["y", "x", "p4", "p2", "p2b"]);
    assert_eq!(stable_sort_order(&vec![30u32, 10, 20, 10]), vec![1, 3, 2, 0]);
}

#[test]
fn knapsack_matches_brute_force() {
    let durations = vec![10u32, 20, 15, 25];
    let values = vec![5u64, 4, 3, 5];
    let picked = knapsack_select(&durations, &values, 35);
    let value: u64 = picked.iter().map(|&i| values[i]).sum();
    let time: u32 = picked.iter().map(|&i| durations[i]).sum();
    assert!(time <= 35);
    let mut best = 0;
    for mask in 0..16u32 {
        let (mut t, mut v) = (0u32, 0u64);
        for i in 0..4 {
            if mask & (1 << i) != 0 {
                t += durations[i];
                v += values[i];
            }
        }
        if t <= 35 && v > best {
            best = v;
        }
    }
    assert_eq!(value, best);
    assert_eq!(value, 10);
    assert!(picked.windows(2).all(|w| w[0] < w[1]));
    assert!(knapsack_select(&vec![], &vec![], 10).is_empty());
    assert_eq!(knapsack_select(&vec![5, 5], &vec![1, 1], 10), vec![0, 1]);
}

#[test]
fn task_form_builds_task() {
    let mut seed = INITIAL_SEED;
    let t = task_from_form("  Revise physics ", 45, 4, "2030-05-01T09:00:00Z", "revision, physics,", &mut seed)
        .unwrap();
    assert_eq!(t.name, "Revise physics");
    assert_eq!((t.duration, t.priority), (45, 4));
    assert_eq!(t.deadline.as_deref(), Some("2030-05-01T09:00:00Z"));
    assert_eq!(t.tags, vec!["revision", "physics"]);
    assert_eq!(t.category, None);
    let mut fresh = INITIAL_SEED;
    assert_eq!(t.id, uuid_v4(&mut fresh));
    assert_eq!(seed, fresh);
    let no_deadline = task_from_form("Read", 10, 1, "", "", &mut seed).unwrap();
    assert_eq!(no_deadline.deadline, None);
    assert!(no_deadline.tags.is_empty());
    let before = seed;
    assert_eq!(task_from_form(" ", 10, 1, "", "", &mut seed).unwrap_err(), "Task name is required");
    assert_eq!(task_from_form("Read", 0, 1, "", "", &mut seed).unwrap_err(), "Duration must be greater than 0");
    assert_eq!(seed, before);
}

#[test]
fn generate_button_label() {
    assert_eq!(generate_label(true, true), "Generating...");
    assert_eq!(generate_label(false, true), "Add tasks to generate");
    assert_eq!(generate_label(false, false), "Generate Schedule");
}

#[test]
fn decision_debt_weights() {
    let mut seed = INITIAL_SEED;
    let mut t = task("Write essay draft", 30, 5, &mut seed);
    t.deadline = Some("2030-01-01T00:00:00Z".to_string());
    assert_eq!(compute_decision_debt(&vec![t.clone()]), 1);
    let mut undated = t.clone();
    undated.deadline = None;
    assert_eq!(compute_decision_debt(&vec![undated]), 3);
    let mut middle = t.clone();
    middle.priority = 3;
    middle.tags = vec!["x".to_string()];
    assert_eq!(compute_decision_debt(&vec![middle.clone()]), 1);
    let mut tagged = t.clone();
    tagged.tags = vec!["x".to_string()];
    assert_eq!(compute_decision_debt(&vec![tagged.clone()]), 0);
    assert_eq!(compute_decision_debt(&vec![tagged.clone(), tagged]), 1);
}

#[test]
fn uncategorised_counts_as_a_role() {
    let mut seed = INITIAL_SEED;
    let mut tasks = Vec::new();
    for cat in [Some("student"), Some("developer"), Some("applicant"), None] {
        let mut t = task("Study for exams", 10, 3, &mut seed);
        t.category = cat.map(|c| c.to_string());
        tasks.push(t);
    }
    let conflicts = detect_identity_conflicts(&placed(tasks));
    match &conflicts[0] {
        IdentityConflict::TooManyRoles(roles) => {
            assert_eq!(roles, &vec!["student", "developer", "applicant", "uncategorised"]);
            assert_eq!(
                roles_message(roles),
                "You're wearing 4 hats today: student, developer, applicant, uncategorised. Consider focusing on 2-3 roles max."
            );
        }
        other => panic!("unexpected {other:?}"),
    }
    assert_eq!(
        competing_message("applicant", "developer"),
        "Conflicting identities: your 'applicant' tasks and 'developer' tasks are both competing for your best energy."
    );
}

#[test]
fn timestamps_written_and_read_back() {
    assert_eq!(iso_timestamp(0), "1970-01-01T00:00:00Z");
    assert_eq!(iso_timestamp(1_577_836_800), "2020-01-01T00:00:00Z");
    assert_eq!(iso_timestamp(1_709_251_199), "2024-02-29T23:59:59Z");
    assert_eq!(iso_timestamp(951_868_800), "2000-03-01T00:00:00Z");
    for secs in [0u64, 59, 86_399, 86_400, 951_782_400, 1_893_499_200, 4_102_444_800, 253_402_300_799] {
        assert_eq!(parse_iso_to_secs(&iso_timestamp(secs)), Ok(secs as i128));
    }
}
