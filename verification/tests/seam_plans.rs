//! Plans: creation rules, stored fields, the default order, editing a plan as
//! a whole, and archiving a task.

use plan_helper::plans::{PlanDraft, PlanError, PlanService, PlanStatus, Priority, SubGoalDraft, TaskDraft, TaskStatus};
use plan_helper::store::{open_in_memory, Database};
use plan_helper::text::default_text;
use plan_helper::time::LocalTime;
use plan_helper::views::PlanView;

/// Day number of a calendar date, counted as chrono counts it (0001-01-01 is day 1).
fn ymd(y: i32, m: u32, d: u32) -> Option<i64> {
    chrono::NaiveDate::from_ymd_opt(y, m, d).map(|x| chrono::Datelike::num_days_from_ce(&x) as i64)
}

fn at(y: i32, mo: u32, day: u32, h: u32, mi: u32) -> LocalTime {
    LocalTime { day: ymd(y, mo, day).unwrap(), minute: h * 60 + mi }
}

fn task(name: &str, minutes: u32) -> TaskDraft {
    TaskDraft {
        id: None,
        name: name.into(),
        summary: String::new(),
        detail: String::new(),
        has_subgoals: false,
        estimated_minutes: Some(minutes),
        subgoals: Vec::new(),
        depends_on: Vec::new(),
    }
}

fn sample_plan() -> PlanDraft {
    let mut a = task("背完所有 6 级词汇", 6000);
    a.summary = "词汇书两轮".into();
    let mut b = task("完成英语真题", 1200);
    b.summary = String::new();
    PlanDraft {
        name: "备考英语 6 级".into(),
        summary: String::new(),
        detail: "先词汇后真题".into(),
        priority: Priority::Medium,
        due_date: Some("2026-12-20".into()),
        tasks: vec![a, b],
    }
}

fn draft_of(p: &PlanView) -> PlanDraft {
    PlanDraft {
        name: p.name.clone(),
        summary: p.summary.clone(),
        detail: p.detail.clone(),
        priority: p.priority,
        due_date: p.due_date.clone(),
        tasks: p
            .tasks
            .iter()
            .map(|t| TaskDraft {
                id: Some(t.id),
                name: t.name.clone(),
                summary: t.summary.clone(),
                detail: t.detail.clone(),
                has_subgoals: t.has_subgoals,
                estimated_minutes: t.estimated_minutes,
                subgoals: t.subgoals.iter().map(|s| SubGoalDraft { id: Some(s.id), name: s.name.clone(), estimated_minutes: s.estimated_minutes }).collect(),
                depends_on: Vec::new(),
            })
            .collect(),
    }
}

fn force_task_status(db: &mut Database, task_id: i64, status: TaskStatus) {
    db.tasks.iter_mut().find(|t| t.id == task_id).unwrap().status = status;
}

fn force_plan_status(db: &mut Database, plan_id: i64, status: PlanStatus) {
    db.plans.iter_mut().find(|p| p.id == plan_id).unwrap().status = status;
}

#[test]
fn create_persists_no_subgoal_plan() {
    let mut db = open_in_memory();
    PlanService::create(&mut db, at(2026, 8, 23, 9, 0), &sample_plan()).unwrap();
    let plans = PlanService::list(&db);
    assert_eq!(plans.len(), 1);
    let p = &plans[0];
    assert_eq!(p.name, "备考英语 6 级");
    assert_eq!(p.summary, "备考英语 6 级", "empty summary falls back to the name");
    assert_eq!(p.detail, "先词汇后真题");
    assert_eq!(p.priority, Priority::Medium);
    assert_eq!(p.due_date.as_deref(), Some("2026-12-20"));
    assert_eq!(p.status, PlanStatus::NotStarted);
    assert_eq!(p.created_at, at(2026, 8, 23, 9, 0));
    assert_eq!(p.tasks.len(), 2);
    assert_eq!(p.tasks[0].name, "背完所有 6 级词汇");
    assert_eq!(p.tasks[0].summary, "词汇书两轮");
    assert_eq!(p.tasks[0].estimated_minutes, Some(6000));
    assert_eq!(p.tasks[0].position, 0);
    assert_eq!(p.tasks[0].status, TaskStatus::NotStarted);
    assert_eq!(p.tasks[1].summary, "完成英语真题");
    assert_eq!(p.tasks[1].position, 1);
}

#[test]
fn create_rejects_plan_without_tasks() {
    let mut db = open_in_memory();
    let mut plan = sample_plan();
    plan.tasks.clear();
    assert_eq!(PlanService::create(&mut db, at(2026, 8, 23, 9, 0), &plan), Err(PlanError::NoTasks));
    assert_eq!(PlanService::list(&db).len(), 0);
}

#[test]
fn create_rejects_task_missing_duration_or_name() {
    let mut db = open_in_memory();
    let mut plan = sample_plan();
    plan.tasks[1].estimated_minutes = None;
    assert_eq!(PlanService::create(&mut db, at(2026, 8, 23, 9, 0), &plan), Err(PlanError::TaskNeedsDuration { index: 1 }));
    plan.tasks[1].name = "  ".into();
    assert_eq!(PlanService::create(&mut db, at(2026, 8, 23, 9, 0), &plan).unwrap_err(), PlanError::EmptyName { task_index: Some(1) });
    plan.name = String::new();
    assert_eq!(PlanService::create(&mut db, at(2026, 8, 23, 9, 0), &plan).unwrap_err(), PlanError::EmptyName { task_index: None });
}

#[test]
fn create_rejects_subgoal_task_without_subgoals() {
    let mut db = open_in_memory();
    let mut plan = sample_plan();
    plan.tasks[0].has_subgoals = true;
    assert_eq!(PlanService::create(&mut db, at(2026, 8, 23, 9, 0), &plan), Err(PlanError::SubGoalsRequired { index: 0 }));
}

#[test]
fn list_orders_priority_desc_then_created_desc() {
    let mut db = open_in_memory();
    let base = |name: &str, priority: Priority| PlanDraft { name: name.into(), summary: String::new(), detail: String::new(), priority, due_date: None, tasks: vec![task("t", 60)] };
    PlanService::create(&mut db, at(2026, 8, 20, 9, 0), &base("H", Priority::High)).unwrap();
    PlanService::create(&mut db, at(2026, 8, 21, 9, 0), &base("L", Priority::Low)).unwrap();
    PlanService::create(&mut db, at(2026, 8, 22, 9, 0), &base("M1", Priority::Medium)).unwrap();
    PlanService::create(&mut db, at(2026, 8, 23, 9, 0), &base("M2", Priority::Medium)).unwrap();
    let names: Vec<String> = PlanService::list(&db).into_iter().map(|p| p.name).collect();
    assert_eq!(names, vec!["H", "M2", "M1", "L"]);
}

#[test]
fn get_returns_single_plan_or_notfound() {
    let mut db = open_in_memory();
    let id = PlanService::create(&mut db, at(2026, 8, 23, 9, 0), &sample_plan()).unwrap();
    let p = PlanService::get(&db, id).unwrap();
    assert_eq!(p.name, "备考英语 6 级");
    assert_eq!(p.tasks.len(), 2);
    assert_eq!(p.tasks[1].name, "完成英语真题");
    assert_eq!(PlanService::get(&db, id + 100).unwrap_err(), PlanError::NotFound);
}

#[test]
fn update_persists_plan_and_task_field_changes() {
    let mut db = open_in_memory();
    let id = PlanService::create(&mut db, at(2026, 8, 23, 9, 0), &sample_plan()).unwrap();
    let mut draft = draft_of(&PlanService::get(&db, id).unwrap());
    draft.name = "备考 6 级（修订）".into();
    draft.summary = String::new();
    draft.detail = "先真题后词汇".into();
    draft.priority = Priority::High;
    draft.due_date = Some("2026-12-31".into());
    draft.tasks[0].name = "背完核心词汇".into();
    draft.tasks[0].estimated_minutes = Some(3000);
    draft.tasks[1].summary = "近 10 年真题".into();
    PlanService::update(&mut db, at(2026, 8, 24, 9, 0), id, &draft).unwrap();

    let p = PlanService::get(&db, id).unwrap();
    assert_eq!(p.name, "备考 6 级（修订）");
    assert_eq!(p.summary, "备考 6 级（修订）");
    assert_eq!(p.detail, "先真题后词汇");
    assert_eq!(p.priority, Priority::High);
    assert_eq!(p.due_date.as_deref(), Some("2026-12-31"));
    assert_eq!(p.tasks.len(), 2);
    assert_eq!(p.tasks[0].name, "背完核心词汇");
    assert_eq!(p.tasks[0].estimated_minutes, Some(3000));
    assert_eq!(p.tasks[1].summary, "近 10 年真题");
    assert_eq!(p.tasks[0].id, draft.tasks[0].id.unwrap());
}

#[test]
fn update_rejects_priority_change_after_start() {
    let mut db = open_in_memory();
    let id = PlanService::create(&mut db, at(2026, 8, 23, 9, 0), &sample_plan()).unwrap();
    force_plan_status(&mut db, id, PlanStatus::Active);
    let mut draft = draft_of(&PlanService::get(&db, id).unwrap());
    draft.priority = Priority::High;
    assert_eq!(PlanService::update(&mut db, at(2026, 8, 24, 9, 0), id, &draft), Err(PlanError::PriorityLocked));
    draft.priority = Priority::Medium;
    PlanService::update(&mut db, at(2026, 8, 24, 9, 0), id, &draft).unwrap();
}

#[test]
fn update_rejects_completed_task_edit() {
    let mut db = open_in_memory();
    let id = PlanService::create(&mut db, at(2026, 8, 23, 9, 0), &sample_plan()).unwrap();
    let before = PlanService::get(&db, id).unwrap();
    force_task_status(&mut db, before.tasks[1].id, TaskStatus::Completed);
    let mut draft = draft_of(&PlanService::get(&db, id).unwrap());
    draft.tasks[1].name = "想改已完成任务".into();
    assert_eq!(PlanService::update(&mut db, at(2026, 8, 24, 9, 0), id, &draft), Err(PlanError::TaskLocked { index: 1 }));
    draft.tasks[1].name = "完成英语真题".into();
    draft.tasks[0].name = "背完核心词汇".into();
    PlanService::update(&mut db, at(2026, 8, 24, 9, 0), id, &draft).unwrap();
}

#[test]
fn update_rejects_task_set_mismatch() {
    let mut db = open_in_memory();
    let id = PlanService::create(&mut db, at(2026, 8, 23, 9, 0), &sample_plan()).unwrap();
    let mut drop_last = draft_of(&PlanService::get(&db, id).unwrap());
    drop_last.tasks.pop();
    assert_eq!(PlanService::update(&mut db, at(2026, 8, 24, 9, 0), id, &drop_last), Err(PlanError::TaskSetMismatch));
    let mut unknown = draft_of(&PlanService::get(&db, id).unwrap());
    unknown.tasks[1].id = Some(9999);
    assert_eq!(PlanService::update(&mut db, at(2026, 8, 24, 9, 0), id, &unknown), Err(PlanError::TaskSetMismatch));
}

#[test]
fn update_reorders_unfinished_and_sinks_completed() {
    let mut db = open_in_memory();
    let base = PlanDraft { name: "复习计划".into(), summary: String::new(), detail: String::new(), priority: Priority::Medium, due_date: None, tasks: vec![task("A", 60), task("B", 60), task("C", 60)] };
    let id = PlanService::create(&mut db, at(2026, 8, 23, 9, 0), &base).unwrap();
    let loaded = PlanService::get(&db, id).unwrap();
    force_task_status(&mut db, loaded.tasks[1].id, TaskStatus::Completed);
    let mut draft = draft_of(&PlanService::get(&db, id).unwrap());
    draft.tasks = vec![draft.tasks[2].clone(), draft.tasks[1].clone(), draft.tasks[0].clone()];
    PlanService::update(&mut db, at(2026, 8, 24, 9, 0), id, &draft).unwrap();
    let p = PlanService::get(&db, id).unwrap();
    let order: Vec<(String, i32)> = p.tasks.iter().map(|t| (t.name.clone(), t.position)).collect();
    assert_eq!(order, vec![("C".into(), 0), ("A".into(), 1), ("B".into(), 2)]);
}

#[test]
fn update_appends_new_task_after_unfinished() {
    let mut db = open_in_memory();
    let base = PlanDraft { name: "进行中计划".into(), summary: String::new(), detail: String::new(), priority: Priority::Medium, due_date: None, tasks: vec![task("A", 60), task("B", 60)] };
    let id = PlanService::create(&mut db, at(2026, 8, 23, 9, 0), &base).unwrap();
    force_plan_status(&mut db, id, PlanStatus::Active);
    let loaded = PlanService::get(&db, id).unwrap();
    force_task_status(&mut db, loaded.tasks[1].id, TaskStatus::Completed);
    let mut draft = draft_of(&PlanService::get(&db, id).unwrap());
    draft.tasks.push(task("N", 90));
    PlanService::update(&mut db, at(2026, 8, 24, 9, 0), id, &draft).unwrap();
    let p = PlanService::get(&db, id).unwrap();
    assert_eq!(p.tasks.len(), 3);
    assert_eq!((p.tasks[0].name.as_str(), p.tasks[0].position), ("A", 0));
    assert_eq!((p.tasks[1].name.as_str(), p.tasks[1].position), ("N", 1));
    assert_eq!((p.tasks[2].name.as_str(), p.tasks[2].position), ("B", 2));
    assert_eq!(p.tasks[1].status, TaskStatus::NotStarted);
    assert_ne!(p.tasks[1].id, p.tasks[0].id);
}

#[test]
fn delete_task_soft_deletes_into_archive() {
    let mut db = open_in_memory();
    let id = PlanService::create(&mut db, at(2026, 8, 23, 9, 0), &sample_plan()).unwrap();
    let victim = PlanService::get(&db, id).unwrap().tasks[0].id;
    PlanService::delete_task(&mut db, at(2026, 8, 24, 9, 0), victim).unwrap();
    let p = PlanService::get(&db, id).unwrap();
    assert_eq!(p.tasks.len(), 1);
    assert_eq!(p.tasks[0].name, "完成英语真题");
    let row = db.tasks.iter().find(|t| t.id == victim).unwrap();
    assert_eq!(row.deleted_at, Some(at(2026, 8, 24, 9, 0)), "the row stays, archived");
    assert_eq!(PlanService::delete_task(&mut db, at(2026, 8, 24, 9, 0), victim), Err(PlanError::NotFound));
    assert_eq!(PlanService::delete_task(&mut db, at(2026, 8, 24, 9, 0), 9999), Err(PlanError::NotFound));
}

#[test]
fn default_text_falls_back_to_trimmed_name() {
    assert_eq!(default_text("  ", " 名称 "), "名称");
    assert_eq!(default_text(" 简述 ", "名称"), "简述");
}
