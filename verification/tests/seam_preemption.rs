//! The preemption invariant: start refused under a higher active plan,
//! automatic pausing of lower plans, recovery tier by tier, manual pauses
//! never resumed automatically, re-preemption, copy-as-new, and the board.

use plan_helper::allocation::AllocationService;
use plan_helper::lifecycle::LifecycleService;
use plan_helper::plans::{PauseReason, PlanDraft, PlanError, PlanService, PlanStatus, Priority, TaskDraft, TaskStatus};
use plan_helper::store::{open_in_memory, Database};
use plan_helper::time::LocalTime;

/// Day number of a calendar date, counted as chrono counts it (0001-01-01 is day 1).
fn ymd(y: i32, m: u32, d: u32) -> Option<i64> {
    chrono::NaiveDate::from_ymd_opt(y, m, d).map(|x| chrono::Datelike::num_days_from_ce(&x) as i64)
}

fn at(y: i32, mo: u32, day: u32, h: u32, mi: u32) -> LocalTime {
    LocalTime { day: ymd(y, mo, day).unwrap(), minute: h * 60 + mi }
}

fn plain_task(name: &str, minutes: u32) -> TaskDraft {
    TaskDraft {
        id: None,
        name: name.into(),
        summary: String::new(),
        detail: String::new(),
        has_subgoals: false,
        estimated_minutes: Some(minutes),
        subgoals: Vec::new(),
        depends_on: Vec::new(),
    }
}

fn draft(name: &str, priority: Priority) -> PlanDraft {
    PlanDraft { name: name.into(), summary: String::new(), detail: String::new(), priority, due_date: None, tasks: vec![plain_task("A", 60), plain_task("B", 30)] }
}

fn status_of(db: &Database, plan_id: i64) -> PlanStatus {
    db.plans.iter().find(|p| p.id == plan_id).unwrap().status
}

fn reason_of(db: &Database, plan_id: i64) -> Option<PauseReason> {
    db.plans.iter().find(|p| p.id == plan_id).unwrap().pause_reason
}

fn complete_all_tasks(db: &mut Database, plan_id: i64) {
    for t in PlanService::get(db, plan_id).unwrap().tasks {
        db.tasks.iter_mut().find(|r| r.id == t.id).unwrap().status = TaskStatus::Completed;
    }
}

fn make_terminal(db: &mut Database, plan_id: i64) {
    LifecycleService::start(db, plan_id).unwrap();
    complete_all_tasks(db, plan_id);
    LifecycleService::complete(db, plan_id).unwrap();
}

#[test]
fn start_blocked_while_higher_tier_active() {
    let mut db = open_in_memory();
    let high = PlanService::create(&mut db, at(2026, 8, 23, 9, 0), &draft("高山", Priority::High)).unwrap();
    let low = PlanService::create(&mut db, at(2026, 8, 23, 9, 1), &draft("洼地", Priority::Low)).unwrap();
    LifecycleService::start(&mut db, high).unwrap();
    assert_eq!(LifecycleService::start(&mut db, low), Err(PlanError::PreemptedByHigher { plan_name: "高山".into() }));
    assert_eq!(status_of(&db, low), PlanStatus::NotStarted);

    LifecycleService::pause(&mut db, high).unwrap();
    LifecycleService::start(&mut db, low).unwrap();
    LifecycleService::pause(&mut db, low).unwrap();
    LifecycleService::resume(&mut db, high).unwrap();
    assert_eq!(LifecycleService::resume(&mut db, low), Err(PlanError::PreemptedByHigher { plan_name: "高山".into() }));
    assert_eq!(status_of(&db, low), PlanStatus::Paused);

    LifecycleService::pause(&mut db, high).unwrap();
    LifecycleService::resume(&mut db, low).unwrap();
    let low2 = PlanService::create(&mut db, at(2026, 8, 23, 9, 2), &draft("另一洼地", Priority::Low)).unwrap();
    LifecycleService::start(&mut db, low2).unwrap();
    assert_eq!(status_of(&db, low2), PlanStatus::Active, "same tier runs side by side");
}

#[test]
fn higher_start_auto_pauses_lower_only() {
    let mut db = open_in_memory();
    let l1 = PlanService::create(&mut db, at(2026, 8, 23, 9, 0), &draft("后台一", Priority::Low)).unwrap();
    let l2 = PlanService::create(&mut db, at(2026, 8, 23, 9, 1), &draft("后台二", Priority::Low)).unwrap();
    let m1 = PlanService::create(&mut db, at(2026, 8, 23, 9, 2), &draft("前排", Priority::Medium)).unwrap();
    LifecycleService::start(&mut db, l1).unwrap();
    LifecycleService::start(&mut db, l2).unwrap();
    let outcome = LifecycleService::start(&mut db, m1).unwrap();
    let mut paused_names: Vec<&str> = outcome.paused.iter().map(|p| p.name.as_str()).collect();
    paused_names.sort_unstable();
    assert_eq!(paused_names, vec!["后台一", "后台二"]);
    for id in [l1, l2] {
        assert_eq!(status_of(&db, id), PlanStatus::Paused);
        assert_eq!(reason_of(&db, id), Some(PauseReason::AutoPreempted));
    }
    assert_eq!(status_of(&db, m1), PlanStatus::Active);
    assert_eq!(reason_of(&db, m1), None);
}

#[test]
fn preemption_chain_recovers_layer_by_layer() {
    let mut db = open_in_memory();
    let low = PlanService::create(&mut db, at(2026, 8, 23, 9, 0), &draft("底", Priority::Low)).unwrap();
    let mid = PlanService::create(&mut db, at(2026, 8, 23, 9, 1), &draft("腰", Priority::Medium)).unwrap();
    let high = PlanService::create(&mut db, at(2026, 8, 23, 9, 2), &draft("顶", Priority::High)).unwrap();
    LifecycleService::start(&mut db, low).unwrap();
    LifecycleService::start(&mut db, mid).unwrap();
    assert_eq!(reason_of(&db, low), Some(PauseReason::AutoPreempted));
    LifecycleService::start(&mut db, high).unwrap();
    assert_eq!(reason_of(&db, mid), Some(PauseReason::AutoPreempted));
    assert_eq!(status_of(&db, low), PlanStatus::Paused);

    complete_all_tasks(&mut db, high);
    LifecycleService::complete(&mut db, high).unwrap();
    assert_eq!(status_of(&db, mid), PlanStatus::Active);
    assert_eq!(reason_of(&db, mid), None);
    assert_eq!(status_of(&db, low), PlanStatus::Paused);

    LifecycleService::abort(&mut db, mid).unwrap();
    assert_eq!(status_of(&db, low), PlanStatus::Active);
    assert_eq!(reason_of(&db, low), None);
}

#[test]
fn manual_pause_never_auto_resumes() {
    let mut db = open_in_memory();
    let m1 = PlanService::create(&mut db, at(2026, 8, 23, 9, 0), &draft("自动组", Priority::Medium)).unwrap();
    let m2 = PlanService::create(&mut db, at(2026, 8, 23, 9, 1), &draft("手动组", Priority::Medium)).unwrap();
    let high = PlanService::create(&mut db, at(2026, 8, 23, 9, 2), &draft("高压", Priority::High)).unwrap();
    LifecycleService::start(&mut db, m1).unwrap();
    LifecycleService::start(&mut db, m2).unwrap();
    LifecycleService::pause(&mut db, m2).unwrap();
    assert_eq!(reason_of(&db, m2), Some(PauseReason::UserInitiated));
    LifecycleService::start(&mut db, high).unwrap();
    complete_all_tasks(&mut db, high);
    LifecycleService::complete(&mut db, high).unwrap();
    assert_eq!(status_of(&db, m1), PlanStatus::Active);
    assert_eq!(status_of(&db, m2), PlanStatus::Paused);
    assert_eq!(reason_of(&db, m2), Some(PauseReason::UserInitiated));
}

#[test]
fn recovery_fires_on_pause_abort_and_resume_repreempts() {
    let mut db = open_in_memory();
    let high = PlanService::create(&mut db, at(2026, 8, 23, 9, 0), &draft("高压电", Priority::High)).unwrap();
    let mid = PlanService::create(&mut db, at(2026, 8, 23, 9, 1), &draft("中场", Priority::Medium)).unwrap();
    LifecycleService::start(&mut db, mid).unwrap();
    LifecycleService::start(&mut db, high).unwrap();
    assert_eq!(reason_of(&db, mid), Some(PauseReason::AutoPreempted));
    LifecycleService::pause(&mut db, high).unwrap();
    assert_eq!(status_of(&db, mid), PlanStatus::Active);
    LifecycleService::resume(&mut db, high).unwrap();
    assert_eq!(reason_of(&db, mid), Some(PauseReason::AutoPreempted));
    LifecycleService::abort(&mut db, high).unwrap();
    assert_eq!(status_of(&db, mid), PlanStatus::Active);
    assert_eq!(reason_of(&db, mid), None);
}

#[test]
fn copy_as_new_respects_invariant_and_reports_preemption() {
    let mut db = open_in_memory();
    let low_src = PlanService::create(&mut db, at(2026, 8, 20, 9, 0), &draft("旧低", Priority::Low)).unwrap();
    make_terminal(&mut db, low_src);
    let high = PlanService::create(&mut db, at(2026, 8, 23, 9, 0), &draft("高山", Priority::High)).unwrap();
    LifecycleService::start(&mut db, high).unwrap();
    assert_eq!(LifecycleService::copy_as_new(&mut db, at(2026, 8, 24, 9, 0), low_src), Err(PlanError::PreemptedByHigher { plan_name: "高山".into() }));

    LifecycleService::pause(&mut db, high).unwrap();
    let out = LifecycleService::copy_as_new(&mut db, at(2026, 8, 24, 9, 1), low_src).unwrap();
    assert!(out.paused.is_empty());
    assert_eq!(status_of(&db, out.new_plan_id), PlanStatus::Active);

    let high_src = PlanService::create(&mut db, at(2026, 8, 21, 9, 0), &draft("旧高", Priority::High)).unwrap();
    LifecycleService::pause(&mut db, out.new_plan_id).unwrap();
    make_terminal(&mut db, high_src);
    let mid = PlanService::create(&mut db, at(2026, 8, 23, 9, 3), &draft("中流", Priority::Medium)).unwrap();
    LifecycleService::start(&mut db, mid).unwrap();
    let out2 = LifecycleService::copy_as_new(&mut db, at(2026, 8, 24, 9, 2), high_src).unwrap();
    assert_eq!(out2.paused.iter().map(|p| p.name.as_str()).collect::<Vec<_>>(), vec!["中流"]);
    assert_eq!(reason_of(&db, mid), Some(PauseReason::AutoPreempted));
}

#[test]
fn board_after_preemption_only_shows_active_plans() {
    let mut db = open_in_memory();
    let mid = PlanService::create(&mut db, at(2026, 8, 23, 9, 0), &draft("中场", Priority::Medium)).unwrap();
    let high = PlanService::create(&mut db, at(2026, 8, 23, 9, 1), &draft("顶配", Priority::High)).unwrap();
    LifecycleService::start(&mut db, mid).unwrap();
    let mid_tasks: Vec<i64> = PlanService::get(&db, mid).unwrap().tasks.iter().map(|t| t.id).collect();
    AllocationService::commit(&mut db, at(2026, 8, 24, 8, 0), &mid_tasks).unwrap();

    LifecycleService::start(&mut db, high).unwrap();
    let v = AllocationService::board(&db, at(2026, 8, 24, 9, 0)).unwrap();
    assert_eq!(v.groups.iter().map(|g| g.plan_name.as_str()).collect::<Vec<_>>(), vec!["顶配"]);
    assert_eq!(v.paused_groups.iter().map(|g| g.plan_id).collect::<Vec<_>>(), vec![mid]);
    assert_eq!(v.paused_groups[0].tasks.iter().map(|t| t.name.as_str()).collect::<Vec<_>>(), vec!["A", "B"]);
    assert!(v.selected_task_ids.is_empty(), "stale selection is dropped");
    assert_eq!(status_of(&db, mid), PlanStatus::Paused);

    LifecycleService::pause(&mut db, high).unwrap();
    let v2 = AllocationService::board(&db, at(2026, 8, 24, 9, 30)).unwrap();
    assert_eq!(v2.groups.iter().map(|g| g.plan_name.as_str()).collect::<Vec<_>>(), vec!["中场"]);
    assert_eq!(v2.selected_task_ids, mid_tasks);
    assert!(v2.paused_groups.is_empty());
}
