//! Daily summaries: firing at the end of the latest window, once; catching up
//! yesterday's; windows across midnight; rest days; the three-layer view;
//! preempted plans; the higher-priority hint; targets with carry.

use plan_helper::lifecycle::LifecycleService;
use plan_helper::plans::{PauseReason, PlanDraft, PlanService, PlanStatus, Priority, SubGoalDraft, TaskDraft};
use plan_helper::progress::ProgressService;
use plan_helper::settings::{DateOverride, Settings, SettingsVersion, SENTINEL_EFFECTIVE};
use plan_helper::settings_service::SettingsService;
use plan_helper::store::{open_in_memory, Database};
use plan_helper::summary::{latest_window_end, parse_date, SummaryService};
use plan_helper::time::LocalTime;
use plan_helper::windows::TimeWindow;

/// Day number of a calendar date, counted as chrono counts it (0001-01-01 is day 1).
fn ymd(y: i32, m: u32, d: u32) -> Option<i64> {
    chrono::NaiveDate::from_ymd_opt(y, m, d).map(|x| chrono::Datelike::num_days_from_ce(&x) as i64)
}

const MON: &str = "2026-08-24";
const TUE: &str = "2026-08-25";

fn d(y: i32, mo: u32, day: u32) -> i64 {
    ymd(y, mo, day).unwrap()
}

fn at(y: i32, mo: u32, day: u32, h: u32, mi: u32) -> LocalTime {
    LocalTime { day: d(y, mo, day), minute: h * 60 + mi }
}

fn plain_task(name: &str, minutes: u32) -> TaskDraft {
    TaskDraft {
        id: None,
        name: name.into(),
        summary: String::new(),
        detail: String::new(),
        has_subgoals: false,
        estimated_minutes: Some(minutes),
        subgoals: Vec::new(),
        depends_on: Vec::new(),
    }
}

fn force_settings(db: &mut Database, s: Settings) {
    db.versions = vec![SettingsVersion {
        daily_minutes: s.daily_minutes,
        workdays: s.workdays.clone(),
        time_windows: s.time_windows.clone(),
        effective_from: SENTINEL_EFFECTIVE,
    }];
    db.settings = s;
}

fn seed_windows(db: &mut Database, windows: &[(u16, u16)]) {
    let mut s = SettingsService::load(db);
    s.time_windows = windows.iter().map(|&(a, b)| TimeWindow { start_minute: a, end_minute: b }).collect();
    force_settings(db, s);
}

fn draft(name: &str, priority: Priority, tasks: Vec<TaskDraft>) -> PlanDraft {
    PlanDraft { name: name.into(), summary: String::new(), detail: String::new(), priority, due_date: None, tasks }
}

fn subgoal_task(name: &str) -> TaskDraft {
    let mut t = plain_task(name, 0);
    t.has_subgoals = true;
    t.estimated_minutes = None;
    t.subgoals = vec![
        SubGoalDraft { id: None, name: "一".into(), estimated_minutes: 30 },
        SubGoalDraft { id: None, name: "二".into(), estimated_minutes: 30 },
        SubGoalDraft { id: None, name: "三".into(), estimated_minutes: 30 },
    ];
    t
}

fn active_plan(db: &mut Database, name: &str, priority: Priority, task: TaskDraft) -> (i64, i64) {
    let plan_id = PlanService::create(db, at(2026, 8, 21, 9, 0), &draft(name, priority, vec![task])).unwrap();
    LifecycleService::start(db, plan_id).unwrap();
    let task_id = PlanService::get(db, plan_id).unwrap().tasks[0].id;
    (plan_id, task_id)
}

fn not_started_plan(db: &mut Database, priority: Priority) -> i64 {
    PlanService::create(db, at(2026, 8, 21, 9, 0), &draft("未开始", priority, vec![plain_task("t", 100)])).unwrap()
}

fn report(db: &mut Database, when: LocalTime, task: i64, percent: f64) {
    ProgressService::report_percent(db, when, task, (percent * 10.0).round() as u32).unwrap();
}

fn force_paused(db: &mut Database, plan_id: i64, reason: PauseReason) {
    let p = db.plans.iter_mut().find(|p| p.id == plan_id).unwrap();
    p.status = PlanStatus::Paused;
    p.pause_reason = Some(reason);
}

fn minutes(milli: i128) -> f64 {
    milli as f64 / 1000.0
}

#[test]
fn fires_at_latest_window_end_and_only_once() {
    let mut db = open_in_memory();
    seed_windows(&mut db, &[(540, 720), (780, 1080)]);
    let mon = parse_date(MON).unwrap();
    assert_eq!(SummaryService::due(&db, at(2026, 8, 24, 12, 0)).unwrap(), None);
    assert_eq!(SummaryService::due(&db, at(2026, 8, 24, 17, 59)).unwrap(), None);
    assert_eq!(SummaryService::due(&db, at(2026, 8, 24, 18, 0)).unwrap(), Some(mon));
    SummaryService::mark_shown(&mut db, at(2026, 8, 24, 18, 0), mon).unwrap();
    assert_eq!(SummaryService::due(&db, at(2026, 8, 24, 19, 0)).unwrap(), None);
}

#[test]
fn backfills_yesterday_on_next_open() {
    let mut db = open_in_memory();
    let mon = parse_date(MON).unwrap();
    assert_eq!(SummaryService::due(&db, at(2026, 8, 24, 20, 0)).unwrap(), Some(mon));
    assert_eq!(SummaryService::due(&db, at(2026, 8, 25, 10, 0)).unwrap(), Some(mon));
    let v = SummaryService::summary(&db, at(2026, 8, 25, 10, 0), mon).unwrap();
    assert!(!v.is_today && v.is_yesterday);
    SummaryService::mark_shown(&mut db, at(2026, 8, 25, 10, 0), mon).unwrap();
    assert_eq!(SummaryService::due(&db, at(2026, 8, 25, 10, 0)).unwrap(), None);
    let tue = parse_date(TUE).unwrap();
    assert_eq!(SummaryService::due(&db, at(2026, 8, 26, 10, 0)).unwrap(), Some(tue));
    SummaryService::mark_shown(&mut db, at(2026, 8, 26, 10, 0), tue).unwrap();
    assert_eq!(SummaryService::due(&db, at(2026, 8, 26, 10, 0)).unwrap(), None);
}

#[test]
fn cross_midnight_window_fires_next_day_and_belongs_to_start_day() {
    let mut db = open_in_memory();
    seed_windows(&mut db, &[(1200, 60)]);
    let (_, task) = active_plan(&mut db, "夜间班", Priority::Medium, plain_task("值夜", 120));
    report(&mut db, at(2026, 8, 24, 23, 0), task, 25.0);
    report(&mut db, at(2026, 8, 25, 0, 30), task, 25.0);
    assert_eq!(SummaryService::due(&db, at(2026, 8, 24, 23, 0)).unwrap(), None);
    assert_eq!(SummaryService::due(&db, at(2026, 8, 25, 0, 59)).unwrap(), None);
    assert_eq!(SummaryService::due(&db, at(2026, 8, 25, 1, 0)).unwrap(), Some(parse_date(MON).unwrap()));
    let mon = SummaryService::summary(&db, at(2026, 8, 25, 1, 0), parse_date(MON).unwrap()).unwrap();
    assert_eq!(minutes(mon.total_milli), 60.0, "both events belong to Monday");
    let tue = SummaryService::summary(&db, at(2026, 8, 25, 12, 0), parse_date(TUE).unwrap()).unwrap();
    assert_eq!(minutes(tue.total_milli), 0.0);
}

#[test]
fn non_workday_never_triggers_and_next_fire_skips_weekend() {
    let mut db = open_in_memory();
    let fri = parse_date("2026-08-28").unwrap();
    assert_eq!(SummaryService::due(&db, at(2026, 8, 29, 12, 0)).unwrap(), Some(fri));
    SummaryService::mark_shown(&mut db, at(2026, 8, 28, 18, 30), fri).unwrap();
    assert_eq!(SummaryService::due(&db, at(2026, 8, 29, 12, 0)).unwrap(), None);
    let nf = SummaryService::next_fire(&db, at(2026, 8, 28, 19, 0)).unwrap().unwrap();
    assert_eq!(nf, at(2026, 8, 31, 18, 0));
}

#[test]
fn next_fire_uses_latest_window_and_cross_midnight_lands_next_day() {
    let mut db = open_in_memory();
    seed_windows(&mut db, &[(540, 720), (780, 1080)]);
    assert_eq!(SummaryService::next_fire(&db, at(2026, 8, 24, 10, 0)).unwrap(), Some(at(2026, 8, 24, 18, 0)));
    assert_eq!(SummaryService::next_fire(&db, at(2026, 8, 24, 19, 0)).unwrap(), Some(at(2026, 8, 25, 18, 0)));

    let mut db = open_in_memory();
    seed_windows(&mut db, &[(1200, 60)]);
    assert_eq!(SummaryService::next_fire(&db, at(2026, 8, 24, 10, 0)).unwrap(), Some(at(2026, 8, 25, 1, 0)));
}

#[test]
fn summary_assembles_three_layers_in_priority_order() {
    let mut db = open_in_memory();
    let p_low = PlanService::create(&mut db, at(2026, 8, 21, 9, 0), &draft("低", Priority::Low, vec![plain_task("不干", 60)])).unwrap();
    let p_mid = PlanService::create(&mut db, at(2026, 8, 21, 9, 0), &draft("中", Priority::Medium, vec![plain_task("百分活", 120)])).unwrap();
    let hp = PlanService::create(&mut db, at(2026, 8, 21, 9, 0), &draft("高", Priority::High, vec![subgoal_task("勾选活")])).unwrap();
    LifecycleService::start(&mut db, p_low).unwrap();
    LifecycleService::start(&mut db, p_mid).unwrap();
    let mt = PlanService::get(&db, p_mid).unwrap().tasks[0].id;
    report(&mut db, at(2026, 8, 24, 9, 30), mt, 25.0);
    LifecycleService::start(&mut db, hp).unwrap();
    let sg = PlanService::get(&db, hp).unwrap().tasks[0].subgoals.clone();
    ProgressService::complete_subgoal(&mut db, at(2026, 8, 24, 10, 0), sg[0].id).unwrap();
    ProgressService::complete_subgoal(&mut db, at(2026, 8, 24, 10, 30), sg[1].id).unwrap();

    let v = SummaryService::summary(&db, at(2026, 8, 24, 12, 0), parse_date(MON).unwrap()).unwrap();
    assert!(v.is_today && !v.is_yesterday);
    assert_eq!(v.date, MON);
    assert_eq!(v.plans.len(), 2, "a plan without progress is left out");
    assert_eq!(v.plans[0].plan_id, hp, "priority first");
    assert_eq!(minutes(v.plans[0].minutes_milli), 60.0);
    assert!(!v.plans[0].preempted);
    let t = &v.plans[0].tasks[0];
    assert_eq!(t.percent_tenths, 667, "60/90 rounded to a tenth");
    assert_eq!(minutes(t.minutes_milli), 60.0);
    assert!(t.has_subgoals);
    assert!(t.subgoals[0].completed && t.subgoals[1].completed && !t.subgoals[2].completed);
    let m = &v.plans[1];
    assert_eq!(minutes(m.minutes_milli), 30.0);
    assert!(m.preempted, "the medium plan was preempted by the high one");
    assert!(!m.tasks[0].has_subgoals);
    assert_eq!(m.tasks[0].percent_tenths, 250);
    assert_eq!(minutes(v.total_milli), 90.0);
    assert_eq!(v.target_nanos, 300_000_000_000);
    assert_eq!(v.base_minutes, 300);
    assert!(v.workday);
    assert!(!v.met_target, "90 of 300 is not met");
    assert!(!v.higher_priority_hint);
}

#[test]
fn preempted_paused_plans_still_shown_and_counted() {
    let mut db = open_in_memory();
    let (pa, ta) = active_plan(&mut db, "被抢", Priority::High, plain_task("a", 100));
    report(&mut db, at(2026, 8, 24, 10, 0), ta, 30.0);
    force_paused(&mut db, pa, PauseReason::AutoPreempted);
    let (pb, tb) = active_plan(&mut db, "手停", Priority::Medium, plain_task("b", 100));
    report(&mut db, at(2026, 8, 24, 11, 0), tb, 20.0);
    force_paused(&mut db, pb, PauseReason::UserInitiated);

    let v = SummaryService::summary(&db, at(2026, 8, 24, 19, 0), parse_date(MON).unwrap()).unwrap();
    assert_eq!(v.plans.len(), 2);
    let a = v.plans.iter().find(|p| p.plan_id == pa).unwrap();
    let b = v.plans.iter().find(|p| p.plan_id == pb).unwrap();
    assert!(a.preempted);
    assert!(!b.preempted);
    assert_eq!(minutes(a.minutes_milli), 30.0);
    assert_eq!(minutes(b.minutes_milli), 20.0);
    assert_eq!(minutes(v.total_milli), 50.0);
}

#[test]
fn higher_priority_not_started_hint() {
    let mut db = open_in_memory();
    let (_, tm) = active_plan(&mut db, "中", Priority::Medium, plain_task("m", 100));
    report(&mut db, at(2026, 8, 24, 10, 0), tm, 10.0);
    not_started_plan(&mut db, Priority::High);
    assert!(SummaryService::summary(&db, at(2026, 8, 24, 19, 0), parse_date(MON).unwrap()).unwrap().higher_priority_hint);

    let mut db = open_in_memory();
    let (_, th) = active_plan(&mut db, "高", Priority::High, plain_task("h", 100));
    report(&mut db, at(2026, 8, 24, 10, 0), th, 10.0);
    not_started_plan(&mut db, Priority::Medium);
    assert!(!SummaryService::summary(&db, at(2026, 8, 24, 19, 0), parse_date(MON).unwrap()).unwrap().higher_priority_hint);

    let mut db = open_in_memory();
    not_started_plan(&mut db, Priority::Low);
    let v = SummaryService::summary(&db, at(2026, 8, 24, 19, 0), parse_date(MON).unwrap()).unwrap();
    assert!(v.higher_priority_hint, "with nothing worked on, any plan not started counts");
    assert_eq!(v.total_milli, 0);

    let mut db = open_in_memory();
    let (_, th) = active_plan(&mut db, "高", Priority::High, plain_task("h", 100));
    report(&mut db, at(2026, 8, 24, 10, 0), th, 10.0);
    not_started_plan(&mut db, Priority::High);
    assert!(!SummaryService::summary(&db, at(2026, 8, 24, 19, 0), parse_date(MON).unwrap()).unwrap().higher_priority_hint);
}

#[test]
fn summary_target_includes_carry_from_ledger() {
    let mut db = open_in_memory();
    let (_, t) = active_plan(&mut db, "欠账", Priority::Medium, plain_task("慢活", 600));
    report(&mut db, at(2026, 8, 24, 10, 0), t, 25.0);
    let tue = SummaryService::summary(&db, at(2026, 8, 25, 10, 0), parse_date(TUE).unwrap()).unwrap();
    assert!((tue.target_nanos as f64 / 1e9 - (300.0 + 150.0 / 7.0)).abs() < 1e-6);
    assert_eq!(tue.base_minutes, 300);
    let mon = SummaryService::summary(&db, at(2026, 8, 25, 10, 0), parse_date(MON).unwrap()).unwrap();
    assert_eq!(mon.target_nanos, 300_000_000_000);
    assert_eq!(minutes(mon.total_milli), 150.0);
    assert!(!mon.met_target);
}

#[test]
fn met_target_on_workday_only() {
    let mut db = open_in_memory();
    let (_, t) = active_plan(&mut db, "达标", Priority::Medium, plain_task("活", 600));
    report(&mut db, at(2026, 8, 24, 10, 0), t, 45.0); // 270 minutes: the lower edge
    let mon = SummaryService::summary(&db, at(2026, 8, 24, 19, 0), parse_date(MON).unwrap()).unwrap();
    assert!(mon.met_target);
    report(&mut db, at(2026, 8, 29, 10, 0), t, 50.0); // Saturday
    let sat = SummaryService::summary(&db, at(2026, 8, 29, 19, 0), d(2026, 8, 29)).unwrap();
    assert!(!sat.workday && !sat.met_target, "a rest day has no target duty");
}

#[test]
fn deleted_task_minutes_still_count_for_plan_and_total() {
    let mut db = open_in_memory();
    let (_p, t) = active_plan(&mut db, "有删", Priority::Medium, plain_task("删我", 120));
    report(&mut db, at(2026, 8, 24, 10, 0), t, 25.0);
    PlanService::delete_task(&mut db, at(2026, 8, 24, 11, 0), t).unwrap();
    let v = SummaryService::summary(&db, at(2026, 8, 24, 19, 0), parse_date(MON).unwrap()).unwrap();
    assert_eq!(v.plans.len(), 1);
    assert_eq!(minutes(v.plans[0].minutes_milli), 30.0);
    assert!(v.plans[0].tasks.is_empty(), "archived tasks have no row");
    assert_eq!(minutes(v.total_milli), 30.0);
}

#[test]
fn status_feeds_due_last_shown_and_next_fire() {
    let mut db = open_in_memory();
    SummaryService::mark_shown(&mut db, at(2026, 8, 24, 18, 0), parse_date(MON).unwrap()).unwrap();
    SummaryService::mark_shown(&mut db, at(2026, 8, 25, 18, 0), parse_date(TUE).unwrap()).unwrap();
    let st = SummaryService::status(&db, at(2026, 8, 25, 19, 0)).unwrap();
    assert_eq!(st.due, None);
    assert_eq!(st.last_shown.as_deref(), Some(TUE));
    assert_eq!(st.next_fire_at, Some(at(2026, 8, 26, 18, 0)));
    // Marking again refreshes the time and keeps one row per day.
    SummaryService::mark_shown(&mut db, at(2026, 8, 25, 20, 0), parse_date(TUE).unwrap()).unwrap();
    assert_eq!(db.summary_shown.len(), 2);
    assert_eq!(db.summary_shown[1].shown_at, at(2026, 8, 25, 20, 0));
}

#[test]
fn parse_date_rejects_garbage() {
    assert_eq!(parse_date("2026-08-24"), Ok(d(2026, 8, 24)));
    assert!(parse_date("08/24/2026").is_err());
    assert!(parse_date("").is_err());
}

#[test]
fn settings_shift_tomorrow_trigger_not_today() {
    let mut db = open_in_memory();
    seed_windows(&mut db, &[(540, 1080)]);
    let mut s = SettingsService::load(&db);
    s.time_windows = vec![TimeWindow { start_minute: 540, end_minute: 720 }];
    SettingsService::save(&mut db, at(2026, 8, 24, 10, 0), &s).unwrap();
    assert_eq!(SummaryService::next_fire(&db, at(2026, 8, 24, 10, 0)).unwrap(), Some(at(2026, 8, 24, 18, 0)));
    assert_eq!(SummaryService::due(&db, at(2026, 8, 24, 13, 0)).unwrap(), None);
    assert_eq!(SummaryService::due(&db, at(2026, 8, 24, 18, 0)).unwrap(), Some(d(2026, 8, 24)));
    assert_eq!(SummaryService::next_fire(&db, at(2026, 8, 25, 10, 0)).unwrap(), Some(at(2026, 8, 25, 12, 0)));
}

#[test]
fn date_overrides_shift_summary_triggers() {
    let mut db = open_in_memory();
    let mut s = SettingsService::load(&db);
    s.date_overrides = vec![DateOverride { date: d(2026, 8, 24), working: false }, DateOverride { date: d(2026, 8, 29), working: true }];
    force_settings(&mut db, s);
    assert_eq!(SummaryService::due(&db, at(2026, 8, 24, 19, 0)).unwrap(), None);
    assert_eq!(SummaryService::next_fire(&db, at(2026, 8, 24, 10, 0)).unwrap(), Some(at(2026, 8, 25, 18, 0)));
    assert_eq!(SummaryService::next_fire(&db, at(2026, 8, 28, 18, 30)).unwrap(), Some(at(2026, 8, 29, 18, 0)));
    assert_eq!(SummaryService::due(&db, at(2026, 8, 29, 18, 30)).unwrap(), Some(d(2026, 8, 29)));
}

#[test]
fn latest_window_end_of_settings() {
    let mut s = Settings::default();
    s.time_windows = vec![TimeWindow { start_minute: 540, end_minute: 720 }, TimeWindow { start_minute: 1200, end_minute: 60 }];
    assert_eq!(latest_window_end(&s, d(2026, 8, 24)), Some(at(2026, 8, 25, 1, 0)), "the crossing window ends the next day");
    assert_eq!(latest_window_end(&s, d(2026, 8, 23)), None, "Sunday");
    s.time_windows = vec![];
    assert_eq!(latest_window_end(&s, d(2026, 8, 24)), None, "no window");
}
