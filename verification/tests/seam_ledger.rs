//! Work-hour ledger: the adjusted target is derived from the progress log and
//! the settings. Dates: 2026-08-21 Fri, 22 Sat, 23 Sun, 24 Mon (default
//! workdays Monday to Friday).

use plan_helper::allocation::AllocationService;
use plan_helper::ledger::{attributed_date_on, day_met, LedgerService};
use plan_helper::lifecycle::LifecycleService;
use plan_helper::plans::{PlanDraft, PlanService, Priority, SubGoalDraft, TaskDraft};
use plan_helper::progress::ProgressService;
use plan_helper::settings::{DateOverride, Settings, SettingsCalendar, SettingsVersion, SENTINEL_EFFECTIVE};
use plan_helper::store::{open_in_memory, Database};
use plan_helper::time::LocalTime;
use plan_helper::windows::TimeWindow;

/// Day number of a calendar date, counted as chrono counts it (0001-01-01 is day 1).
fn ymd(y: i32, m: u32, d: u32) -> Option<i64> {
    chrono::NaiveDate::from_ymd_opt(y, m, d).map(|x| chrono::Datelike::num_days_from_ce(&x) as i64)
}

fn d(y: i32, mo: u32, day: u32) -> i64 {
    ymd(y, mo, day).unwrap()
}

fn at(y: i32, mo: u32, day: u32, h: u32, mi: u32) -> LocalTime {
    LocalTime { day: d(y, mo, day), minute: h * 60 + mi }
}

fn tenths(p: f64) -> u32 {
    (p * 10.0).round() as u32
}

fn plain_task(name: &str, minutes: u32) -> TaskDraft {
    TaskDraft {
        id: None,
        name: name.into(),
        summary: String::new(),
        detail: String::new(),
        has_subgoals: false,
        estimated_minutes: Some(minutes),
        subgoals: Vec::new(),
        depends_on: Vec::new(),
    }
}

/// Settings that have always applied (the version history reset to one seed).
fn force_settings(db: &mut Database, s: Settings) {
    db.versions = vec![SettingsVersion {
        daily_minutes: s.daily_minutes,
        workdays: s.workdays.clone(),
        time_windows: s.time_windows.clone(),
        effective_from: SENTINEL_EFFECTIVE,
    }];
    db.settings = s;
}

/// An active plan with one 6000-minute task without sub-goals (a tenth of a
/// percent is six minutes).
fn seeded(db: &mut Database) -> i64 {
    let plan_id = PlanService::create(
        db,
        at(2026, 8, 20, 9, 0),
        &PlanDraft {
            name: "P".into(),
            summary: String::new(),
            detail: String::new(),
            priority: Priority::Medium,
            due_date: None,
            tasks: vec![plain_task("大河任务", 6000)],
        },
    )
    .unwrap();
    LifecycleService::start(db, plan_id).unwrap();
    PlanService::get(db, plan_id).unwrap().tasks[0].id
}

fn report(db: &mut Database, when: LocalTime, task: i64, percent: f64) {
    ProgressService::report_percent(db, when, task, tenths(percent)).unwrap();
}

fn assert_target(db: &Database, y: i32, mo: u32, day: u32, want: f64, why: &str) {
    let t = LedgerService::day_target(db, at(y, mo, day, 12, 0)).unwrap();
    assert_eq!(t.base_minutes, 300, "base is the daily work time");
    let got = t.target_nanos as f64 / 1e9;
    assert!((got - want).abs() < 1e-6, "{why}: {got} ≈ {want}");
}

#[test]
fn empty_history_target_is_base() {
    let mut db = open_in_memory();
    let _task = seeded(&mut db);
    assert_target(&db, 2026, 8, 26, 300.0, "no history = base");
    let ab = AllocationService::board(&db, at(2026, 8, 26, 9, 0)).unwrap();
    assert!(ab.target_nanos == 300_000_000_000 && ab.base_minutes == 300);
    let mb = ProgressService::board(&db, at(2026, 8, 26, 9, 0)).unwrap();
    assert!(mb.target_nanos == 300_000_000_000 && mb.base_minutes == 300 && mb.workday);
}

#[test]
fn deficit_spreads_over_seven_workdays() {
    let mut db = open_in_memory();
    let task = seeded(&mut db);
    report(&mut db, at(2026, 8, 24, 10, 0), task, 0.8);
    for (y, mo, day) in [(2026, 8, 25), (2026, 8, 26), (2026, 8, 27), (2026, 8, 28), (2026, 8, 31), (2026, 9, 1), (2026, 9, 2)] {
        assert_target(&db, y, mo, day, 336.0, "each of the 7 workdays gets +252/7");
        report(&mut db, at(y, mo, day, 10, 0), task, 5.2);
    }
    assert_target(&db, 2026, 9, 3, 300.0, "the 8th workday is past the window");
    assert_target(&db, 2026, 8, 29, 300.0, "Saturday has no target duty");
}

#[test]
fn tolerance_band_uses_adjusted_target() {
    let mut db = open_in_memory();
    let t = seeded(&mut db);
    report(&mut db, at(2026, 8, 24, 10, 0), t, 4.5);
    assert_target(&db, 2026, 8, 25, 300.0, "270 min is exactly the lower edge");

    let mut db = open_in_memory();
    let t = seeded(&mut db);
    report(&mut db, at(2026, 8, 24, 10, 0), t, 4.0);
    assert_target(&db, 2026, 8, 25, 300.0 + 60.0 / 7.0, "240 min is outside the band");

    let mut db = open_in_memory();
    let t = seeded(&mut db);
    report(&mut db, at(2026, 8, 21, 10, 0), t, 5.0);
    assert_target(&db, 2026, 8, 25, 300.0 + 300.0 / 7.0, "Monday without progress owes a full day");
    report(&mut db, at(2026, 8, 25, 10, 0), t, 5.0);
    assert_target(&db, 2026, 8, 26, 300.0 + 300.0 / 7.0 + 300.0 / 7.0 / 7.0, "the band is taken around the adjusted target");
}

#[test]
fn surplus_symmetric_band() {
    let mut db = open_in_memory();
    let t = seeded(&mut db);
    report(&mut db, at(2026, 8, 24, 10, 0), t, 6.4);
    assert_target(&db, 2026, 8, 25, 288.0, "surplus 84 lowers Tuesday by 84/7");
    report(&mut db, at(2026, 8, 25, 10, 0), t, 5.0);
    assert_target(&db, 2026, 8, 26, 288.0, "the lowering lasts through the window");

    let mut db = open_in_memory();
    let t = seeded(&mut db);
    report(&mut db, at(2026, 8, 24, 10, 0), t, 5.4);
    assert_target(&db, 2026, 8, 25, 300.0, "a surplus inside the band is not credited");
}

#[test]
fn rolling_sum_of_multiple_deficits() {
    let mut db = open_in_memory();
    let t = seeded(&mut db);
    report(&mut db, at(2026, 8, 24, 10, 0), t, 0.8);
    report(&mut db, at(2026, 8, 25, 10, 0), t, 0.8);
    assert_target(&db, 2026, 8, 26, 300.0 + 252.0 / 7.0 + 288.0 / 7.0, "several differences add up");
}

#[test]
fn deficit_day_respreads_recursively() {
    let mut db = open_in_memory();
    let t = seeded(&mut db);
    report(&mut db, at(2026, 8, 21, 10, 0), t, 5.0);
    assert_target(&db, 2026, 8, 26, 300.0 + 300.0 / 7.0 + (300.0 + 300.0 / 7.0) / 7.0, "debt spreads again");
}

#[test]
fn weekend_never_consumes_window_but_surplus_enters() {
    let mut db = open_in_memory();
    let t = seeded(&mut db);
    report(&mut db, at(2026, 8, 21, 10, 0), t, 0.5);
    report(&mut db, at(2026, 8, 22, 11, 0), t, 2.0);
    assert_target(&db, 2026, 8, 22, 300.0, "Saturday has no target duty");
    for (y, mo, day) in [(2026, 8, 24), (2026, 8, 25), (2026, 8, 26), (2026, 8, 27), (2026, 8, 28), (2026, 8, 31), (2026, 9, 1)] {
        assert_target(&db, y, mo, day, 300.0 + 150.0 / 7.0, "shortfall and weekend surplus land on workdays");
        report(&mut db, at(y, mo, day, 10, 0), t, 5.0);
    }
    assert_target(&db, 2026, 9, 2, 300.0, "the 8th workday is past the window");
}

#[test]
fn correction_recomputes_future_targets() {
    let mut db = open_in_memory();
    let t = seeded(&mut db);
    report(&mut db, at(2026, 8, 24, 10, 0), t, 3.0);
    assert_target(&db, 2026, 8, 25, 300.0 + 120.0 / 7.0, "before the correction");
    ProgressService::correct_total(&mut db, at(2026, 8, 24, 20, 0), t, tenths(5.0)).unwrap();
    assert_target(&db, 2026, 8, 25, 300.0, "after the correction Monday is met");

    let mut db = open_in_memory();
    let mut task = plain_task("清单任务", 0);
    task.has_subgoals = true;
    task.estimated_minutes = None;
    task.subgoals = (1..=3).map(|i| SubGoalDraft { id: None, name: format!("第{i}项"), estimated_minutes: 60 }).collect();
    let plan_id = PlanService::create(
        &mut db,
        at(2026, 8, 20, 9, 0),
        &PlanDraft {
            name: "Q".into(),
            summary: String::new(),
            detail: String::new(),
            priority: Priority::Medium,
            due_date: None,
            tasks: vec![task],
        },
    )
    .unwrap();
    LifecycleService::start(&mut db, plan_id).unwrap();
    let view = PlanService::get(&db, plan_id).unwrap();
    let sg = view.tasks[0].subgoals[0].id;
    ProgressService::complete_subgoal(&mut db, at(2026, 8, 24, 10, 0), sg).unwrap();
    assert_target(&db, 2026, 8, 25, 300.0 + 240.0 / 7.0, "before the undo");
    ProgressService::undo_subgoal(&mut db, at(2026, 8, 24, 20, 0), sg).unwrap();
    assert_target(&db, 2026, 8, 25, 300.0 + 300.0 / 7.0, "after the undo Monday owes a full day");
}

#[test]
fn selection_level_surplus_not_credited() {
    let mut db = open_in_memory();
    let plan_id = PlanService::create(
        &mut db,
        at(2026, 8, 20, 9, 0),
        &PlanDraft {
            name: "P".into(),
            summary: String::new(),
            detail: String::new(),
            priority: Priority::Medium,
            due_date: None,
            tasks: vec![plain_task("任务一", 360), plain_task("任务二", 480)],
        },
    )
    .unwrap();
    LifecycleService::start(&mut db, plan_id).unwrap();
    let view = PlanService::get(&db, plan_id).unwrap();
    let (t1, t2) = (view.tasks[0].id, view.tasks[1].id);
    AllocationService::commit(&mut db, at(2026, 8, 24, 8, 0), &vec![t1, t2]).unwrap();
    report(&mut db, at(2026, 8, 24, 10, 0), t1, 50.0);
    report(&mut db, at(2026, 8, 24, 11, 0), t2, 25.0);
    assert_target(&db, 2026, 8, 25, 300.0, "only done work counts");
}

#[test]
fn override_holiday_progress_counts_as_overtime() {
    let mut db = open_in_memory();
    let task = seeded(&mut db);
    force_settings(&mut db, Settings { date_overrides: vec![DateOverride { date: d(2026, 8, 25), working: false }], ..Settings::default() });
    report(&mut db, at(2026, 8, 24, 10, 0), task, 3.3);
    report(&mut db, at(2026, 8, 25, 11, 0), task, 10.0);
    assert_target(&db, 2026, 8, 25, 300.0, "a rest day shows the base");
    assert_target(&db, 2026, 8, 26, 300.0 + (102.0 - 600.0) / 7.0, "rest-day work is surplus and takes no slot");
}

#[test]
fn override_workday_adds_target_and_window_slot() {
    let mut with_work = open_in_memory();
    let task = seeded(&mut with_work);
    force_settings(&mut with_work, Settings { date_overrides: vec![DateOverride { date: d(2026, 8, 29), working: true }], ..Settings::default() });
    report(&mut with_work, at(2026, 8, 29, 10, 0), task, 1.7);
    assert_target(&with_work, 2026, 8, 29, 300.0, "the make-up Saturday has a target");
    assert_target(&with_work, 2026, 8, 31, 300.0 + 198.0 / 7.0, "the make-up day takes a slot");

    let mut without_work = open_in_memory();
    let task2 = seeded(&mut without_work);
    force_settings(&mut without_work, Settings::default());
    report(&mut without_work, at(2026, 8, 29, 10, 0), task2, 1.7);
    assert_target(&without_work, 2026, 8, 31, 300.0 - 102.0 / 7.0, "without the override it is surplus");
}

#[test]
fn ledger_target_reads_only_log_and_settings() {
    // Same settings and log give the same target, whatever the plans hold.
    let mut a = open_in_memory();
    let t = seeded(&mut a);
    report(&mut a, at(2026, 8, 24, 10, 0), t, 1.0);
    let mut b = open_in_memory();
    let _ = seeded(&mut b);
    b.log = a.log.clone();
    b.next_log_id = a.next_log_id;
    let ta = LedgerService::day_target(&a, at(2026, 8, 25, 9, 0)).unwrap();
    let tb = LedgerService::day_target(&b, at(2026, 8, 25, 9, 0)).unwrap();
    assert_eq!(ta, tb);
    assert_eq!(ta.target_nanos, 300_000_000_000 + 240_000_000_000 / 7);
}

#[test]
fn day_met_lower_edge() {
    // 270 of 300 minutes meets the target; one thousandth of a minute less does not.
    assert!(day_met(270_000, 300_000_000_000));
    assert!(!day_met(269_999, 300_000_000_000));
    assert!(day_met(0, 0));
    assert!(!day_met(-1, 0));
}

#[test]
fn attribution_reads_each_day_its_own_settings_version() {
    let night = SettingsVersion {
        daily_minutes: 300,
        workdays: vec![1, 2, 3, 4, 5],
        time_windows: vec![TimeWindow { start_minute: 1200, end_minute: 120 }],
        effective_from: SENTINEL_EFFECTIVE,
    };
    let day = SettingsVersion {
        daily_minutes: 300,
        workdays: vec![1, 2, 3, 4, 5],
        time_windows: vec![TimeWindow { start_minute: 540, end_minute: 1080 }],
        effective_from: d(2026, 8, 25),
    };
    let cal = SettingsCalendar { latest: Settings::default(), versions: vec![night, day] };
    let t = at(2026, 8, 25, 1, 0);
    assert_eq!(attributed_date_on(t, &cal), d(2026, 8, 24), "the 24th still runs the night window past midnight");
    let t = at(2026, 8, 26, 1, 0);
    assert_eq!(attributed_date_on(t, &cal), d(2026, 8, 26), "the 25th has only a day window");
    let t = at(2026, 8, 25, 10, 0);
    assert_eq!(attributed_date_on(t, &cal), d(2026, 8, 25));
}
