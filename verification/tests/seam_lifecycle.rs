//! Plan life cycle: the transition matrix, pause reasons, task completion at
//! 100%, completing a plan, and copy-as-new.

use plan_helper::lifecycle::LifecycleService;
use plan_helper::plans::{PauseReason, PlanDraft, PlanError, PlanService, PlanStatus, Priority, SubGoalDraft, TaskDraft, TaskStatus};
use plan_helper::store::{open_in_memory, Database};
use plan_helper::time::LocalTime;
use plan_helper::views::PlanView;

/// Day number of a calendar date, counted as chrono counts it (0001-01-01 is day 1).
fn ymd(y: i32, m: u32, d: u32) -> Option<i64> {
    chrono::NaiveDate::from_ymd_opt(y, m, d).map(|x| chrono::Datelike::num_days_from_ce(&x) as i64)
}

fn at(y: i32, mo: u32, day: u32, h: u32, mi: u32) -> LocalTime {
    LocalTime { day: ymd(y, mo, day).unwrap(), minute: h * 60 + mi }
}

fn plain_task(name: &str, minutes: u32) -> TaskDraft {
    TaskDraft {
        id: None,
        name: name.into(),
        summary: String::new(),
        detail: String::new(),
        has_subgoals: false,
        estimated_minutes: Some(minutes),
        subgoals: Vec::new(),
        depends_on: Vec::new(),
    }
}

fn sample(name: &str) -> PlanDraft {
    PlanDraft { name: name.into(), summary: String::new(), detail: "计划详情".into(), priority: Priority::Medium, due_date: Some("2026-12-20".into()), tasks: vec![plain_task("A", 60), plain_task("B", 30)] }
}

fn draft_of(p: &PlanView) -> PlanDraft {
    PlanDraft {
        name: p.name.clone(),
        summary: p.summary.clone(),
        detail: p.detail.clone(),
        priority: p.priority,
        due_date: p.due_date.clone(),
        tasks: p
            .tasks
            .iter()
            .map(|t| TaskDraft {
                id: Some(t.id),
                name: t.name.clone(),
                summary: t.summary.clone(),
                detail: t.detail.clone(),
                has_subgoals: t.has_subgoals,
                estimated_minutes: t.estimated_minutes,
                subgoals: t.subgoals.iter().map(|s| SubGoalDraft { id: Some(s.id), name: s.name.clone(), estimated_minutes: s.estimated_minutes }).collect(),
                depends_on: Vec::new(),
            })
            .collect(),
    }
}

fn force_plan_status(db: &mut Database, plan_id: i64, status: PlanStatus) {
    db.plans.iter_mut().find(|p| p.id == plan_id).unwrap().status = status;
}

fn force_task_status(db: &mut Database, task_id: i64, status: TaskStatus) {
    db.tasks.iter_mut().find(|t| t.id == task_id).unwrap().status = status;
}

fn force_subgoals_completed(db: &mut Database, task_id: i64) {
    for s in db.subgoals.iter_mut().filter(|s| s.task_id == task_id) {
        s.completed_at = Some(at(2026, 8, 24, 10, 0));
    }
}

fn status_of(db: &Database, plan_id: i64) -> PlanStatus {
    db.plans.iter().find(|p| p.id == plan_id).unwrap().status
}

#[test]
fn state_machine_allows_only_waterfall_transitions() {
    let legal = |op: &str, from: PlanStatus| {
        matches!(
            (op, from),
            ("start", PlanStatus::NotStarted) | ("pause", PlanStatus::Active) | ("abort", PlanStatus::Active) | ("resume", PlanStatus::Paused) | ("abort", PlanStatus::Paused)
        )
    };
    let to_of = |op: &str| match op {
        "start" | "resume" => PlanStatus::Active,
        "pause" => PlanStatus::Paused,
        _ => PlanStatus::Abandoned,
    };
    for from in [PlanStatus::NotStarted, PlanStatus::Active, PlanStatus::Paused, PlanStatus::Completed, PlanStatus::Abandoned] {
        for op in ["start", "pause", "resume", "abort"] {
            let mut db = open_in_memory();
            let id = PlanService::create(&mut db, at(2026, 8, 23, 9, 0), &sample("矩阵")).unwrap();
            force_plan_status(&mut db, id, from);
            let result: Result<(), PlanError> = match op {
                "start" => LifecycleService::start(&mut db, id).map(|_| ()),
                "pause" => LifecycleService::pause(&mut db, id),
                "resume" => LifecycleService::resume(&mut db, id).map(|_| ()),
                _ => LifecycleService::abort(&mut db, id),
            };
            if legal(op, from) {
                result.unwrap();
                assert_eq!(status_of(&db, id), to_of(op), "{op} from {from:?}");
            } else {
                assert_eq!(result.unwrap_err(), PlanError::PlanStatusInvalid { from }, "{op} from {from:?}");
                assert_eq!(status_of(&db, id), from, "unchanged after refusal: {op} from {from:?}");
            }
        }
    }
}

#[test]
fn lifecycle_operations_on_missing_plan_are_notfound() {
    let mut db = open_in_memory();
    assert_eq!(LifecycleService::start(&mut db, 999), Err(PlanError::NotFound));
    assert_eq!(LifecycleService::pause(&mut db, 999), Err(PlanError::NotFound));
    assert_eq!(LifecycleService::resume(&mut db, 999), Err(PlanError::NotFound));
    assert_eq!(LifecycleService::complete(&mut db, 999), Err(PlanError::NotFound));
    assert_eq!(LifecycleService::abort(&mut db, 999), Err(PlanError::NotFound));
    assert_eq!(LifecycleService::copy_as_new(&mut db, at(2026, 8, 24, 9, 0), 999), Err(PlanError::NotFound));
}

#[test]
fn manual_pause_records_reason_and_resume_clears_it() {
    let mut db = open_in_memory();
    let id = PlanService::create(&mut db, at(2026, 8, 23, 9, 0), &sample("暂停原因")).unwrap();
    LifecycleService::start(&mut db, id).unwrap();
    LifecycleService::pause(&mut db, id).unwrap();
    let p = PlanService::get(&db, id).unwrap();
    assert_eq!(p.status, PlanStatus::Paused);
    assert_eq!(p.pause_reason, Some(PauseReason::UserInitiated));
    LifecycleService::resume(&mut db, id).unwrap();
    let p = PlanService::get(&db, id).unwrap();
    assert_eq!(p.status, PlanStatus::Active);
    assert_eq!(p.pause_reason, None);
}

#[test]
fn complete_requires_all_tasks_completed_then_is_terminal() {
    let mut db = open_in_memory();
    let id = PlanService::create(&mut db, at(2026, 8, 23, 9, 0), &sample("完成计划")).unwrap();
    LifecycleService::start(&mut db, id).unwrap();
    assert_eq!(LifecycleService::complete(&mut db, id), Err(PlanError::TasksNotCompleted));
    for t in PlanService::get(&db, id).unwrap().tasks {
        force_task_status(&mut db, t.id, TaskStatus::Completed);
    }
    LifecycleService::complete(&mut db, id).unwrap();
    assert_eq!(status_of(&db, id), PlanStatus::Completed);
    let results: Vec<Result<(), PlanError>> = vec![
        LifecycleService::start(&mut db, id).map(|_| ()),
        LifecycleService::pause(&mut db, id),
        LifecycleService::resume(&mut db, id).map(|_| ()),
        LifecycleService::complete(&mut db, id),
        LifecycleService::abort(&mut db, id),
    ];
    for result in results {
        assert_eq!(result.unwrap_err(), PlanError::PlanStatusInvalid { from: PlanStatus::Completed });
    }

    let emptied = PlanService::create(&mut db, at(2026, 8, 23, 9, 0), &sample("删空")).unwrap();
    LifecycleService::start(&mut db, emptied).unwrap();
    for t in PlanService::get(&db, emptied).unwrap().tasks {
        PlanService::delete_task(&mut db, at(2026, 8, 24, 9, 0), t.id).unwrap();
    }
    assert_eq!(LifecycleService::complete(&mut db, emptied), Err(PlanError::TasksNotCompleted));
}

#[test]
fn task_auto_completes_at_100_percent_and_is_idempotent() {
    let mut db = open_in_memory();
    let mut draft = sample("自动完成");
    draft.tasks[0] = TaskDraft {
        id: None,
        name: "子目标任务".into(),
        summary: String::new(),
        detail: String::new(),
        has_subgoals: true,
        estimated_minutes: None,
        subgoals: vec![SubGoalDraft { id: None, name: "s1".into(), estimated_minutes: 60 }, SubGoalDraft { id: None, name: "s2".into(), estimated_minutes: 30 }],
        depends_on: Vec::new(),
    };
    let id = PlanService::create(&mut db, at(2026, 8, 23, 9, 0), &draft).unwrap();
    let tasks = PlanService::get(&db, id).unwrap().tasks;
    let subgoal_task = tasks[0].id;
    let plain = tasks[1].id;
    let first = tasks[0].subgoals[0].id;
    db.subgoals.iter_mut().find(|s| s.id == first).unwrap().completed_at = Some(at(2026, 8, 24, 10, 0));
    assert_eq!(LifecycleService::sync_task_completion(&mut db, subgoal_task).unwrap(), TaskStatus::NotStarted);
    force_subgoals_completed(&mut db, subgoal_task);
    assert_eq!(LifecycleService::sync_task_completion(&mut db, subgoal_task).unwrap(), TaskStatus::Completed);
    assert_eq!(LifecycleService::sync_task_completion(&mut db, subgoal_task).unwrap(), TaskStatus::Completed);
    assert_eq!(LifecycleService::sync_task_completion(&mut db, plain).unwrap(), TaskStatus::NotStarted);
    assert_eq!(LifecycleService::sync_task_completion(&mut db, 999), Err(PlanError::NotFound));
}

#[test]
fn copy_as_new_resets_progress_and_starts_active() {
    let mut db = open_in_memory();
    let mut draft = sample("备考英语 6 级");
    draft.summary = "词汇书两轮".into();
    draft.tasks[0] = TaskDraft {
        id: None,
        name: "词汇".into(),
        summary: String::new(),
        detail: String::new(),
        has_subgoals: true,
        estimated_minutes: None,
        subgoals: vec![SubGoalDraft { id: None, name: "list 1".into(), estimated_minutes: 60 }, SubGoalDraft { id: None, name: "list 2".into(), estimated_minutes: 60 }],
        depends_on: Vec::new(),
    };
    draft.tasks[1].depends_on = vec![0];
    let id = PlanService::create(&mut db, at(2026, 8, 23, 9, 0), &draft).unwrap();
    let err = LifecycleService::copy_as_new(&mut db, at(2026, 8, 24, 9, 0), id).unwrap_err();
    assert_eq!(err, PlanError::PlanNotTerminal { from: PlanStatus::NotStarted });

    LifecycleService::start(&mut db, id).unwrap();
    let old_tasks = PlanService::get(&db, id).unwrap().tasks;
    force_subgoals_completed(&mut db, old_tasks[0].id);
    for t in &old_tasks {
        force_task_status(&mut db, t.id, TaskStatus::Completed);
    }
    LifecycleService::complete(&mut db, id).unwrap();

    let new_id = LifecycleService::copy_as_new(&mut db, at(2026, 8, 25, 9, 0), id).unwrap().new_plan_id;
    let new_plan = PlanService::get(&db, new_id).unwrap();
    assert_eq!(new_plan.name, "备考英语 6 级 - 副本");
    assert_eq!(new_plan.summary, "词汇书两轮");
    assert_eq!(new_plan.detail, "计划详情");
    assert_eq!(new_plan.priority, Priority::Medium);
    assert_eq!(new_plan.due_date.as_deref(), Some("2026-12-20"));
    assert_eq!(new_plan.status, PlanStatus::Active);
    assert_eq!(new_plan.tasks.len(), 2);
    assert_eq!(new_plan.tasks[0].name, "词汇");
    assert_eq!(new_plan.tasks[0].status, TaskStatus::NotStarted);
    assert!(new_plan.tasks[0].subgoals.iter().all(|s| !s.completed));
    assert_eq!(new_plan.tasks[1].prerequisite_ids, vec![new_plan.tasks[0].id]);

    let old = PlanService::get(&db, id).unwrap();
    assert_eq!(old.status, PlanStatus::Completed);
    assert!(old.tasks.iter().all(|t| t.status == TaskStatus::Completed));
    assert!(old.tasks[0].subgoals.iter().all(|s| s.completed));

    let mut edited = draft_of(&new_plan);
    edited.priority = Priority::High;
    assert_eq!(PlanService::update(&mut db, at(2026, 8, 25, 9, 30), new_id, &edited), Err(PlanError::PriorityLocked));
}
