//! Progress reporting: percent reports derived from the log, granularity and
//! overflow, sub-goals in order, undo keeping the completed prefix,
//! corrections, the current task's life, and attribution across midnight.

use plan_helper::allocation::AllocationService;
use plan_helper::lifecycle::LifecycleService;
use plan_helper::plans::{PlanDraft, PlanError, PlanService, PlanStatus, Priority, SubGoalDraft, TaskDraft, TaskStatus};
use plan_helper::progress::{board_visible_at_start, ProgressService, ProgressSource};
use plan_helper::settings::{Settings, SettingsVersion, SENTINEL_EFFECTIVE};
use plan_helper::store::{open_in_memory, Database};
use plan_helper::time::LocalTime;
use plan_helper::windows::TimeWindow;

/// Day number of a calendar date, counted as chrono counts it (0001-01-01 is day 1).
fn ymd(y: i32, m: u32, d: u32) -> Option<i64> {
    chrono::NaiveDate::from_ymd_opt(y, m, d).map(|x| chrono::Datelike::num_days_from_ce(&x) as i64)
}

fn at(y: i32, mo: u32, day: u32, h: u32, mi: u32) -> LocalTime {
    LocalTime { day: ymd(y, mo, day).unwrap(), minute: h * 60 + mi }
}

fn plain_task(name: &str, minutes: u32) -> TaskDraft {
    TaskDraft {
        id: None,
        name: name.into(),
        summary: String::new(),
        detail: String::new(),
        has_subgoals: false,
        estimated_minutes: Some(minutes),
        subgoals: Vec::new(),
        depends_on: Vec::new(),
    }
}

fn force_settings(db: &mut Database, s: Settings) {
    db.versions = vec![SettingsVersion {
        daily_minutes: s.daily_minutes,
        workdays: s.workdays.clone(),
        time_windows: s.time_windows.clone(),
        effective_from: SENTINEL_EFFECTIVE,
    }];
    db.settings = s;
}

/// Three sub-goals of 60, 30 and 30 minutes.
fn subgoal_task(name: &str) -> TaskDraft {
    let mut t = plain_task(name, 0);
    t.has_subgoals = true;
    t.estimated_minutes = None;
    t.subgoals = vec![
        SubGoalDraft { id: None, name: "一".into(), estimated_minutes: 60 },
        SubGoalDraft { id: None, name: "二".into(), estimated_minutes: 30 },
        SubGoalDraft { id: None, name: "三".into(), estimated_minutes: 30 },
    ];
    t
}

fn draft_of_tasks(name: &str, tasks: Vec<TaskDraft>) -> PlanDraft {
    PlanDraft { name: name.into(), summary: String::new(), detail: String::new(), priority: Priority::Medium, due_date: None, tasks }
}

/// Active plan, today's allocation and the current task; returns (plan, task).
fn seeded(db: &mut Database, task: TaskDraft) -> (i64, i64) {
    let plan_id = PlanService::create(db, at(2026, 8, 23, 9, 0), &draft_of_tasks("P", vec![task])).unwrap();
    LifecycleService::start(db, plan_id).unwrap();
    let task_id = PlanService::get(db, plan_id).unwrap().tasks[0].id;
    AllocationService::commit(db, at(2026, 8, 24, 8, 0), &vec![task_id]).unwrap();
    ProgressService::set_current_task(db, at(2026, 8, 24, 8, 30), task_id).unwrap();
    (plan_id, task_id)
}

/// The current task's percentage.
fn current_percent(db: &Database) -> f64 {
    ProgressService::board(db, at(2026, 8, 24, 12, 0)).unwrap().current.unwrap().percent_tenths as f64 / 10.0
}

/// Today's net progress in minutes.
fn today_minutes(db: &Database) -> f64 {
    ProgressService::board(db, at(2026, 8, 24, 12, 0)).unwrap().today_milli as f64 / 1000.0
}

#[test]
fn percent_reports_derive_from_log_and_auto_complete() {
    let mut db = open_in_memory();
    let (_, task_id) = seeded(&mut db, plain_task("背单词", 120));

    let s1 = ProgressService::report_percent(&mut db, at(2026, 8, 24, 10, 0), task_id, 100).unwrap();
    assert_eq!(s1, TaskStatus::Active, "the first report starts the task");
    let s2 = ProgressService::report_percent(&mut db, at(2026, 8, 24, 11, 0), task_id, 300).unwrap();
    assert_eq!(s2, TaskStatus::Active);
    assert!((current_percent(&db) - 40.0).abs() < 1e-9, "40% = (12+36)/120");
    assert!((today_minutes(&db) - 48.0).abs() < 1e-9, "today's amount is the log sum");
    assert_eq!(db.log.len(), 2, "each report appends one event");

    let s3 = ProgressService::report_percent(&mut db, at(2026, 8, 24, 13, 0), task_id, 600).unwrap();
    assert_eq!(s3, TaskStatus::Completed, "100% completes the task");
    assert_eq!(
        ProgressService::report_percent(&mut db, at(2026, 8, 24, 14, 0), task_id, 50),
        Err(PlanError::ProgressLocked),
        "a completed task is locked"
    );
    let cur = ProgressService::board(&db, at(2026, 8, 24, 15, 0)).unwrap().current.unwrap();
    assert_eq!((cur.status, cur.percent_tenths), (TaskStatus::Completed, 1000));
}

#[test]
fn percent_granularity_and_overflow_rejected() {
    let mut db = open_in_memory();
    let (_, task_id) = seeded(&mut db, plain_task("阅读", 120));

    for bad in [0u32, 1001, 2000] {
        assert_eq!(
            ProgressService::report_percent(&mut db, at(2026, 8, 24, 10, 0), task_id, bad),
            Err(PlanError::PercentInvalid),
            "{bad} tenths is outside 0.1%–100%"
        );
    }
    assert_eq!(db.log.len(), 0, "refused reports log nothing");

    for _ in 0..19 {
        ProgressService::report_percent(&mut db, at(2026, 8, 24, 10, 30), task_id, 50).unwrap();
    }
    assert!((current_percent(&db) - 95.0).abs() < 1e-9);
    assert_eq!(
        ProgressService::report_percent(&mut db, at(2026, 8, 24, 11, 0), task_id, 100),
        Err(PlanError::PercentOverflow),
        "95% + 10% passes 100%"
    );
    assert_eq!(
        ProgressService::report_percent(&mut db, at(2026, 8, 24, 11, 30), task_id, 50),
        Ok(TaskStatus::Completed),
        "95% + 5% fills up exactly"
    );
}

#[test]
fn subgoals_complete_in_order_and_auto_complete() {
    let mut db = open_in_memory();
    let (plan_id, task_id) = seeded(&mut db, subgoal_task("精读教材"));
    let sg: Vec<i64> = PlanService::get(&db, plan_id).unwrap().tasks[0].subgoals.iter().map(|s| s.id).collect();
    let (s1, s2, s3) = (sg[0], sg[1], sg[2]);

    assert_eq!(ProgressService::complete_subgoal(&mut db, at(2026, 8, 24, 10, 0), s2), Err(PlanError::SubGoalOutOfOrder));
    let st = ProgressService::complete_subgoal(&mut db, at(2026, 8, 24, 10, 5), s1).unwrap();
    assert_eq!(st, TaskStatus::Active);
    assert!((current_percent(&db) - 50.0).abs() < 1e-9, "60/120");
    assert_eq!(ProgressService::complete_subgoal(&mut db, at(2026, 8, 24, 10, 10), s1), Err(PlanError::SubGoalOutOfOrder));
    assert_eq!(
        ProgressService::report_percent(&mut db, at(2026, 8, 24, 10, 15), task_id, 50),
        Err(PlanError::NotPercentTask)
    );
    ProgressService::complete_subgoal(&mut db, at(2026, 8, 24, 10, 20), s2).unwrap();
    assert!((current_percent(&db) - 75.0).abs() < 1e-9);
    let st = ProgressService::complete_subgoal(&mut db, at(2026, 8, 24, 10, 25), s3).unwrap();
    assert_eq!(st, TaskStatus::Completed, "all checked completes the task");
    assert_eq!(ProgressService::complete_subgoal(&mut db, at(2026, 8, 24, 10, 30), s2), Err(PlanError::ProgressLocked));
}

#[test]
fn subgoal_undo_recalculates_and_keeps_prefix() {
    let mut db = open_in_memory();
    let (plan_id, _) = seeded(&mut db, subgoal_task("刷题"));
    let task = PlanService::get(&db, plan_id).unwrap().tasks.remove(0);
    let (s1, s2, s3) = (task.subgoals[0].id, task.subgoals[1].id, task.subgoals[2].id);

    ProgressService::complete_subgoal(&mut db, at(2026, 8, 24, 10, 0), s1).unwrap();
    ProgressService::complete_subgoal(&mut db, at(2026, 8, 24, 10, 5), s2).unwrap();
    assert!((current_percent(&db) - 75.0).abs() < 1e-9);
    assert_eq!(ProgressService::undo_subgoal(&mut db, at(2026, 8, 24, 10, 10), s1), Err(PlanError::SubGoalOutOfOrder));
    assert_eq!(ProgressService::undo_subgoal(&mut db, at(2026, 8, 24, 10, 15), s3), Err(PlanError::SubGoalNotCompleted));
    ProgressService::undo_subgoal(&mut db, at(2026, 8, 24, 10, 20), s2).unwrap();
    assert!((current_percent(&db) - 50.0).abs() < 1e-9, "progress follows the log");
    assert!((today_minutes(&db) - 60.0).abs() < 1e-9, "60 + 30 - 30 = 60");
    assert_eq!(ProgressService::undo_subgoal(&mut db, at(2026, 8, 24, 10, 25), s2), Err(PlanError::SubGoalNotCompleted));

    ProgressService::complete_subgoal(&mut db, at(2026, 8, 24, 10, 30), s2).unwrap();
    ProgressService::complete_subgoal(&mut db, at(2026, 8, 24, 10, 35), s3).unwrap();
    assert_eq!(ProgressService::undo_subgoal(&mut db, at(2026, 8, 24, 10, 40), s3), Err(PlanError::ProgressLocked));
}

#[test]
fn correction_sets_absolute_value_and_logs_delta() {
    let mut db = open_in_memory();
    let (_, task_id) = seeded(&mut db, plain_task("写作", 120));
    ProgressService::report_percent(&mut db, at(2026, 8, 24, 10, 0), task_id, 100).unwrap();

    ProgressService::correct_total(&mut db, at(2026, 8, 24, 11, 0), task_id, 700).unwrap();
    assert!((current_percent(&db) - 70.0).abs() < 1e-9);
    ProgressService::correct_total(&mut db, at(2026, 8, 24, 12, 0), task_id, 200).unwrap();
    assert!((current_percent(&db) - 20.0).abs() < 1e-9, "a lower value logs a negative delta");
    ProgressService::correct_total(&mut db, at(2026, 8, 24, 13, 0), task_id, 0).unwrap();
    assert!((current_percent(&db) - 0.0).abs() < 1e-9);
    assert!((today_minutes(&db) - 0.0).abs() < 1e-9);
    let sources: Vec<ProgressSource> = db.log.iter().map(|r| r.source).collect();
    assert_eq!(sources, vec![ProgressSource::Percent, ProgressSource::Correction, ProgressSource::Correction, ProgressSource::Correction]);
    let deltas: Vec<i64> = db.log.iter().map(|r| r.delta_milli).collect();
    assert_eq!(deltas, vec![12_000, 72_000, -60_000, -24_000]);

    assert_eq!(
        ProgressService::correct_total(&mut db, at(2026, 8, 24, 14, 0), task_id, 1001),
        Err(PlanError::PercentInvalid)
    );
    let sg_plan = PlanService::create(&mut db, at(2026, 8, 24, 9, 0), &draft_of_tasks("SG计划", vec![subgoal_task("带子目标")])).unwrap();
    let sg_task = PlanService::get(&db, sg_plan).unwrap().tasks[0].id;
    assert_eq!(
        ProgressService::correct_total(&mut db, at(2026, 8, 24, 14, 0), sg_task, 500),
        Err(PlanError::NotPercentTask)
    );
    ProgressService::correct_total(&mut db, at(2026, 8, 24, 15, 0), task_id, 1000).unwrap();
    assert_eq!(
        ProgressService::correct_total(&mut db, at(2026, 8, 24, 16, 0), task_id, 500),
        Err(PlanError::ProgressLocked)
    );
}

#[test]
fn current_task_requires_today_list_and_follows_validity() {
    let mut db = open_in_memory();
    let mut high = draft_of_tasks("高计划", vec![plain_task("高任务", 60)]);
    high.priority = Priority::High;
    let p_high = PlanService::create(&mut db, at(2026, 8, 22, 9, 0), &high).unwrap();
    let p_mid = PlanService::create(&mut db, at(2026, 8, 23, 9, 0), &draft_of_tasks("中计划", vec![plain_task("中任务", 90)])).unwrap();
    LifecycleService::start(&mut db, p_high).unwrap();
    // A lower plan cannot start while a higher one is active: pause the high one first.
    LifecycleService::pause(&mut db, p_high).unwrap();
    LifecycleService::start(&mut db, p_mid).unwrap();
    let t_high = PlanService::get(&db, p_high).unwrap().tasks[0].id;
    let t_mid = PlanService::get(&db, p_mid).unwrap().tasks[0].id;

    assert_eq!(
        ProgressService::set_current_task(&mut db, at(2026, 8, 24, 8, 0), t_mid),
        Err(PlanError::TaskNotInToday { task_id: t_mid })
    );
    AllocationService::commit(&mut db, at(2026, 8, 24, 8, 30), &vec![t_mid]).unwrap();
    ProgressService::set_current_task(&mut db, at(2026, 8, 24, 9, 0), t_mid).unwrap();

    let v = ProgressService::board(&db, at(2026, 8, 24, 10, 0)).unwrap();
    let cur = v.current.as_ref().unwrap();
    assert_eq!((cur.task_id, cur.plan_name.as_str(), cur.task_name.as_str()), (t_mid, "中计划", "中任务"));
    assert_eq!(v.target_nanos, 300_000_000_000, "no history: the target is the base");
    assert_eq!(v.pickers.iter().map(|g| g.plan_name.as_str()).collect::<Vec<_>>(), vec!["中计划"]);

    LifecycleService::pause(&mut db, p_mid).unwrap();
    assert!(ProgressService::board(&db, at(2026, 8, 24, 11, 0)).unwrap().current.is_none(), "paused plan: empty");
    assert_eq!(
        ProgressService::set_current_task(&mut db, at(2026, 8, 24, 11, 30), t_mid),
        Err(PlanError::PlanStatusInvalid { from: PlanStatus::Paused })
    );
    LifecycleService::resume(&mut db, p_mid).unwrap();
    assert!(ProgressService::board(&db, at(2026, 8, 24, 12, 0)).unwrap().current.is_some(), "resumed: back");

    AllocationService::commit(&mut db, at(2026, 8, 24, 13, 0), &vec![]).unwrap();
    assert!(ProgressService::board(&db, at(2026, 8, 24, 13, 30)).unwrap().current.is_none(), "removed from today's list");

    let next_day = ProgressService::board(&db, at(2026, 8, 25, 9, 0)).unwrap();
    assert!(next_day.current.is_none(), "the allocation lapses the next day");
    assert_eq!(
        ProgressService::set_current_task(&mut db, at(2026, 8, 25, 9, 30), t_high),
        Err(PlanError::TaskNotInToday { task_id: t_high })
    );
}

#[test]
fn pickers_put_current_plan_first() {
    // Two active plans of the same priority; the current task's plan comes first.
    let mut db = open_in_memory();
    let p_a = PlanService::create(&mut db, at(2026, 8, 22, 9, 0), &draft_of_tasks("甲计划", vec![plain_task("甲任务", 60)])).unwrap();
    let p_b = PlanService::create(&mut db, at(2026, 8, 23, 9, 0), &draft_of_tasks("乙计划", vec![plain_task("乙任务", 60)])).unwrap();
    LifecycleService::start(&mut db, p_a).unwrap();
    LifecycleService::start(&mut db, p_b).unwrap();
    let t_a = PlanService::get(&db, p_a).unwrap().tasks[0].id;
    let t_b = PlanService::get(&db, p_b).unwrap().tasks[0].id;
    AllocationService::commit(&mut db, at(2026, 8, 24, 8, 0), &vec![t_a, t_b]).unwrap();
    let v = ProgressService::board(&db, at(2026, 8, 24, 9, 0)).unwrap();
    assert_eq!(v.pickers.iter().map(|g| g.plan_name.as_str()).collect::<Vec<_>>(), vec!["乙计划", "甲计划"], "newest first");
    ProgressService::set_current_task(&mut db, at(2026, 8, 24, 9, 0), t_a).unwrap();
    let v = ProgressService::board(&db, at(2026, 8, 24, 9, 5)).unwrap();
    assert_eq!(v.pickers.iter().map(|g| g.plan_name.as_str()).collect::<Vec<_>>(), vec!["甲计划", "乙计划"], "current plan first");
}

#[test]
fn today_minutes_attributed_by_window_start_day() {
    let mut db = open_in_memory();
    let (_, task_id) = seeded(&mut db, plain_task("夜间任务", 120));
    force_settings(&mut db, Settings { time_windows: vec![TimeWindow { start_minute: 20 * 60, end_minute: 60 }], ..Settings::default() });

    ProgressService::report_percent(&mut db, at(2026, 8, 24, 20, 30), task_id, 100).unwrap();
    ProgressService::report_percent(&mut db, at(2026, 8, 25, 0, 30), task_id, 200).unwrap();
    let late_night = ProgressService::board(&db, at(2026, 8, 24, 23, 0)).unwrap().today_milli;
    assert_eq!(late_night, 36_000, "12 + 24 both belong to 8/24");
    let after_midnight = ProgressService::board(&db, at(2026, 8, 25, 0, 45)).unwrap().today_milli;
    assert_eq!(after_midnight, 0, "the after-midnight part belongs to 8/24");

    ProgressService::report_percent(&mut db, at(2026, 8, 25, 10, 0), task_id, 50).unwrap();
    let day2 = ProgressService::board(&db, at(2026, 8, 25, 12, 0)).unwrap().today_milli;
    assert_eq!(day2, 6_000, "outside every window: its own day");
}

#[test]
fn board_visible_at_start_needs_current_task_and_work_time() {
    let mut db = open_in_memory();
    let (_, _task) = seeded(&mut db, plain_task("任务", 60));
    assert!(board_visible_at_start(&db, at(2026, 8, 24, 10, 0)), "Monday 10:00 is work time");
    assert!(!board_visible_at_start(&db, at(2026, 8, 24, 20, 0)), "20:00 is rest time");
    db.current_task = None;
    assert!(!board_visible_at_start(&db, at(2026, 8, 24, 10, 0)), "no current task");
}
