//! Concrete cases of the library's laws and of its smaller helpers.

use plan_helper::allocation::AllocationService;
use plan_helper::editing::draft_fits;
use plan_helper::layout::pet_and_board_positions;
use plan_helper::ledger::{attributed_date, minutes_on};
use plan_helper::lifecycle::LifecycleService;
use plan_helper::plans::{PlanDraft, PlanService, Priority, SubGoalDraft, TaskDraft};
use plan_helper::progress::ProgressService;
use plan_helper::store::{is_well_formed, open_in_memory, Database};
use plan_helper::summary::SummaryService;
use plan_helper::time::LocalTime;
use plan_helper::views::TaskProgress;
use plan_helper::windows::{merge_time_windows, TimeWindow};

/// Day number of a calendar date, counted as chrono counts it (0001-01-01 is day 1).
fn ymd(y: i32, m: u32, d: u32) -> Option<i64> {
    chrono::NaiveDate::from_ymd_opt(y, m, d).map(|x| chrono::Datelike::num_days_from_ce(&x) as i64)
}

fn at(y: i32, mo: u32, day: u32, h: u32, mi: u32) -> LocalTime {
    LocalTime { day: ymd(y, mo, day).unwrap(), minute: h * 60 + mi }
}

fn subgoal_task(name: &str) -> TaskDraft {
    TaskDraft {
        id: None,
        name: name.into(),
        summary: String::new(),
        detail: String::new(),
        has_subgoals: true,
        estimated_minutes: None,
        subgoals: vec![
            SubGoalDraft { id: None, name: "一".into(), estimated_minutes: 40 },
            SubGoalDraft { id: None, name: "二".into(), estimated_minutes: 20 },
        ],
        depends_on: Vec::new(),
    }
}

fn seeded(db: &mut Database) -> (i64, i64, Vec<i64>) {
    let plan = PlanService::create(
        db,
        at(2026, 8, 21, 9, 0),
        &PlanDraft { name: "P".into(), summary: String::new(), detail: String::new(), priority: Priority::Medium, due_date: None, tasks: vec![subgoal_task("t")] },
    )
    .unwrap();
    LifecycleService::start(db, plan).unwrap();
    let view = PlanService::get(db, plan).unwrap();
    let task = view.tasks[0].id;
    let subs = view.tasks[0].subgoals.iter().map(|s| s.id).collect();
    (plan, task, subs)
}

#[test]
fn undo_right_after_complete_restores_rows_and_progress() {
    let mut db = open_in_memory();
    let (_, task, subs) = seeded(&mut db);
    let progress_before = PlanService::task_progress(&db, task).unwrap();
    let done_before: Vec<bool> = db.subgoals.iter().map(|s| s.completed_at.is_some()).collect();
    ProgressService::complete_subgoal(&mut db, at(2026, 8, 24, 10, 0), subs[0]).unwrap();
    assert_eq!(PlanService::task_progress(&db, task).unwrap(), TaskProgress { completed_milli: 40_000, total_minutes: 60 });
    ProgressService::undo_subgoal(&mut db, at(2026, 8, 24, 10, 5), subs[0]).unwrap();
    assert_eq!(PlanService::task_progress(&db, task).unwrap(), progress_before);
    assert_eq!(db.subgoals.iter().map(|s| s.completed_at.is_some()).collect::<Vec<_>>(), done_before);
    assert_eq!(minutes_on(&db, at(2026, 8, 24, 0, 0).day), 0, "the day's net progress is back to zero");
    assert_eq!(db.log.len(), 2, "both events stay in the log");
}

#[test]
fn completed_subgoals_stay_a_prefix() {
    let mut db = open_in_memory();
    let (_, _, subs) = seeded(&mut db);
    assert!(ProgressService::complete_subgoal(&mut db, at(2026, 8, 24, 10, 0), subs[1]).is_err());
    ProgressService::complete_subgoal(&mut db, at(2026, 8, 24, 10, 0), subs[0]).unwrap();
    let done: Vec<bool> = db.subgoals.iter().map(|s| s.completed_at.is_some()).collect();
    assert_eq!(done, vec![true, false]);
}

#[test]
fn a_marked_summary_is_never_due_again() {
    let mut db = open_in_memory();
    let mon = at(2026, 8, 24, 0, 0).day;
    assert_eq!(SummaryService::due(&db, at(2026, 8, 24, 19, 0)).unwrap(), Some(mon));
    SummaryService::mark_shown(&mut db, at(2026, 8, 24, 19, 0), mon).unwrap();
    for (d, h) in [(24, 19), (24, 23), (25, 10)] {
        assert_ne!(SummaryService::due(&db, at(2026, 8, d, h, 0)).unwrap(), Some(mon));
    }
}

#[test]
fn commit_only_stores_selectable_tasks() {
    let mut db = open_in_memory();
    let (_, task, _) = seeded(&mut db);
    AllocationService::commit(&mut db, at(2026, 8, 24, 8, 0), &vec![task]).unwrap();
    assert_eq!(db.allocation.as_ref().map(|a| (a.date, a.task_ids.clone())), Some((at(2026, 8, 24, 0, 0).day, vec![task])));
}

#[test]
fn attribution_prefers_own_day_then_previous_tail() {
    let own = vec![TimeWindow { start_minute: 540, end_minute: 1080 }];
    let prev = vec![TimeWindow { start_minute: 1200, end_minute: 120 }];
    let t = at(2026, 8, 25, 1, 0);
    assert_eq!(attributed_date(t, &own, &prev), t.day - 1, "the previous day's window runs past midnight");
    let t = at(2026, 8, 25, 10, 0);
    assert_eq!(attributed_date(t, &own, &prev), t.day, "inside the day's own window");
    let t = at(2026, 8, 25, 3, 0);
    assert_eq!(attributed_date(t, &own, &prev), t.day, "outside every window");
}

#[test]
fn store_checks_and_size_checks() {
    let mut db = open_in_memory();
    assert!(is_well_formed(&db));
    let (_, _, _) = seeded(&mut db);
    assert!(is_well_formed(&db));
    let mut broken = open_in_memory();
    let _ = seeded(&mut broken);
    broken.next_task_id = 1;
    assert!(!is_well_formed(&broken), "a task id at or past the next id");

    let mut big = subgoal_task("大");
    big.subgoals = vec![
        SubGoalDraft { id: None, name: "a".into(), estimated_minutes: u32::MAX },
        SubGoalDraft { id: None, name: "b".into(), estimated_minutes: 1 },
    ];
    let draft = PlanDraft { name: "P".into(), summary: String::new(), detail: String::new(), priority: Priority::Low, due_date: None, tasks: vec![big] };
    assert!(!draft_fits(&draft), "the estimate sum overflows");
    let ok = PlanDraft { name: "P".into(), summary: String::new(), detail: String::new(), priority: Priority::Low, due_date: None, tasks: vec![subgoal_task("小")] };
    assert!(draft_fits(&ok));
}

#[test]
fn board_sits_in_the_corner_with_the_pet_above() {
    let p = pet_and_board_positions(0, 0, 1920, 1040, 200, 180, 320, 120);
    assert_eq!((p.mini_x, p.mini_y), (1920 - 320 - 40, 1040 - 120 - 40));
    assert_eq!((p.pet_x, p.pet_y), (1560 + 60, 880 - 12 - 180));
    // A pet wider than the board: the half rounds toward zero.
    let q = pet_and_board_positions(0, 0, 100, 100, 31, 10, 20, 10);
    assert_eq!(q.pet_x, q.mini_x - 5);
}

#[test]
fn clock_parts_become_the_minute_of_the_day() {
    let day = ymd(2026, 8, 24).unwrap();
    assert_eq!(LocalTime::from_parts(day, 13, 5), Some(LocalTime { day, minute: 785 }));
    assert_eq!(LocalTime::from_parts(day, 0, 0), Some(LocalTime { day, minute: 0 }));
    assert_eq!(LocalTime::from_parts(day, 23, 59), Some(LocalTime { day, minute: 1439 }));
    assert_eq!(LocalTime::from_parts(day, 24, 0), None);
    assert_eq!(LocalTime::from_parts(day, 12, 60), None);
    assert_eq!(LocalTime::from_parts(2_000_000_000, 12, 0), None);
}

#[test]
fn merging_a_normal_form_gives_it_back() {
    let w = |s: u16, e: u16| TimeWindow { start_minute: s, end_minute: e };
    let normal = vec![w(60, 120), w(540, 720), w(1200, 30)];
    assert_eq!(merge_time_windows(&normal).unwrap(), normal);
    let raw = vec![w(600, 720), w(540, 600), w(1300, 30), w(1200, 1320), w(60, 120)];
    let once = merge_time_windows(&raw).unwrap();
    assert_eq!(once, normal);
    assert_eq!(merge_time_windows(&once).unwrap(), once);
}

#[test]
fn a_window_endpoint_past_the_day_is_saved_as_the_merge_leaves_it() {
    let w = |s: u16, e: u16| TimeWindow { start_minute: s, end_minute: e };
    assert_eq!(merge_time_windows(&vec![w(1440, 1500)]).unwrap(), vec![w(1440, 60)]);
    assert_eq!(merge_time_windows(&vec![w(1500, 1600)]).unwrap(), vec![w(1500, 160)]);
    assert_eq!(merge_time_windows(&vec![w(1500, 100), w(60, 120)]).unwrap(), vec![w(1500, 120)]);
    let mut db = open_in_memory();
    let mut s = plan_helper::settings::Settings::default();
    s.time_windows = vec![w(1440, 1500)];
    let r = plan_helper::settings_service::SettingsService::save(&mut db, at(2026, 8, 26, 12, 0), &s);
    assert!(r.is_ok());
    assert_eq!(db.settings.time_windows, vec![w(1440, 60)]);
    assert_eq!(db.settings_updated_at, Some(at(2026, 8, 26, 12, 0)));
}
