//! Sub-goals (stored in order, edited, locked when completed, cleared),
//! dependencies (same plan, cycles, detaching, waiting) and progress scaling.

use plan_helper::deps::DependencyService;
use plan_helper::plans::{PlanDraft, PlanError, PlanService, Priority, SubGoalDraft, TaskDraft, TaskStatus};
use plan_helper::store::{open_in_memory, Database};
use plan_helper::time::LocalTime;
use plan_helper::views::{PlanView, TaskProgress};

/// Day number of a calendar date, counted as chrono counts it (0001-01-01 is day 1).
fn ymd(y: i32, m: u32, d: u32) -> Option<i64> {
    chrono::NaiveDate::from_ymd_opt(y, m, d).map(|x| chrono::Datelike::num_days_from_ce(&x) as i64)
}

fn at(y: i32, mo: u32, day: u32, h: u32, mi: u32) -> LocalTime {
    LocalTime { day: ymd(y, mo, day).unwrap(), minute: h * 60 + mi }
}

fn plain_task(name: &str, minutes: u32) -> TaskDraft {
    TaskDraft {
        id: None,
        name: name.into(),
        summary: String::new(),
        detail: String::new(),
        has_subgoals: false,
        estimated_minutes: Some(minutes),
        subgoals: Vec::new(),
        depends_on: Vec::new(),
    }
}

fn sub(name: &str, minutes: u32) -> SubGoalDraft {
    SubGoalDraft { id: None, name: name.into(), estimated_minutes: minutes }
}

fn subgoal_task(name: &str, subs: Vec<SubGoalDraft>) -> TaskDraft {
    TaskDraft { id: None, name: name.into(), summary: String::new(), detail: String::new(), has_subgoals: true, estimated_minutes: None, subgoals: subs, depends_on: Vec::new() }
}

fn plan_of(tasks: Vec<TaskDraft>) -> PlanDraft {
    PlanDraft { name: "备考英语 6 级".into(), summary: String::new(), detail: String::new(), priority: Priority::Medium, due_date: None, tasks }
}

fn draft_of(p: &PlanView) -> PlanDraft {
    PlanDraft {
        name: p.name.clone(),
        summary: p.summary.clone(),
        detail: p.detail.clone(),
        priority: p.priority,
        due_date: p.due_date.clone(),
        tasks: p
            .tasks
            .iter()
            .map(|t| TaskDraft {
                id: Some(t.id),
                name: t.name.clone(),
                summary: t.summary.clone(),
                detail: t.detail.clone(),
                has_subgoals: t.has_subgoals,
                estimated_minutes: t.estimated_minutes,
                subgoals: t.subgoals.iter().map(|s| SubGoalDraft { id: Some(s.id), name: s.name.clone(), estimated_minutes: s.estimated_minutes }).collect(),
                depends_on: Vec::new(),
            })
            .collect(),
    }
}

fn force_subgoal_completed(db: &mut Database, subgoal_id: i64) {
    db.subgoals.iter_mut().find(|s| s.id == subgoal_id).unwrap().completed_at = Some(at(2026, 8, 24, 10, 0));
}

fn force_task_status(db: &mut Database, task_id: i64, status: TaskStatus) {
    db.tasks.iter_mut().find(|t| t.id == task_id).unwrap().status = status;
}

#[test]
fn create_persists_subgoals_in_fill_order() {
    let mut db = open_in_memory();
    PlanService::create(&mut db, at(2026, 8, 24, 9, 0), &plan_of(vec![subgoal_task("背完所有 6 级词汇", vec![sub("词单元 1–10", 60), sub("词单元 11–20", 40)])])).unwrap();
    let p = PlanService::list(&db).remove(0);
    assert!(p.tasks[0].has_subgoals);
    assert_eq!(p.tasks[0].estimated_minutes, Some(100));
    assert_eq!(p.tasks[0].subgoals.len(), 2);
    assert_eq!((p.tasks[0].subgoals[0].name.as_str(), p.tasks[0].subgoals[0].position), ("词单元 1–10", 0));
    assert_eq!((p.tasks[0].subgoals[1].name.as_str(), p.tasks[0].subgoals[1].position), ("词单元 11–20", 1));
    assert!(!p.tasks[0].subgoals[0].completed);
    assert!(p.tasks[0].prerequisite_ids.is_empty());
}

#[test]
fn create_rejects_subgoal_missing_name_or_duration() {
    let mut db = open_in_memory();
    let mut plan = plan_of(vec![subgoal_task("t", vec![sub("第一行", 60), sub("  ", 30)])]);
    assert_eq!(PlanService::create(&mut db, at(2026, 8, 24, 9, 0), &plan), Err(PlanError::SubGoalInvalid { task_index: 0, subgoal_index: 1 }));
    plan.tasks[0].subgoals[1] = sub("第二行", 0);
    assert_eq!(PlanService::create(&mut db, at(2026, 8, 24, 9, 0), &plan), Err(PlanError::SubGoalInvalid { task_index: 0, subgoal_index: 1 }));
}

#[test]
fn update_edits_appends_and_deletes_uncompleted_subgoals() {
    let mut db = open_in_memory();
    let id = PlanService::create(&mut db, at(2026, 8, 24, 9, 0), &plan_of(vec![subgoal_task("t", vec![sub("A", 60), sub("B", 40), sub("C", 20)])])).unwrap();
    let mut draft = draft_of(&PlanService::get(&db, id).unwrap());
    draft.tasks[0].subgoals[0].estimated_minutes = 90;
    let b_id = draft.tasks[0].subgoals[1].id.unwrap();
    draft.tasks[0].subgoals.remove(1);
    draft.tasks[0].subgoals.push(sub("D", 30));
    PlanService::update(&mut db, at(2026, 8, 25, 9, 0), id, &draft).unwrap();

    let p = PlanService::get(&db, id).unwrap();
    let subs = &p.tasks[0].subgoals;
    assert_eq!(subs.len(), 3);
    assert_eq!((subs[0].name.as_str(), subs[0].estimated_minutes, subs[0].position), ("A", 90, 0));
    assert_eq!((subs[1].name.as_str(), subs[1].position), ("C", 1));
    assert_eq!((subs[2].name.as_str(), subs[2].position), ("D", 2));
    assert_eq!(p.tasks[0].estimated_minutes, Some(140));
    assert!(db.subgoals.iter().all(|s| s.id != b_id), "B is removed outright");
}

#[test]
fn update_keeps_completed_subgoals_first_in_mix() {
    let mut db = open_in_memory();
    let id = PlanService::create(&mut db, at(2026, 8, 24, 9, 0), &plan_of(vec![subgoal_task("t", vec![sub("A", 60), sub("B", 40), sub("C", 20)])])).unwrap();
    let view = PlanService::get(&db, id).unwrap();
    force_subgoal_completed(&mut db, view.tasks[0].subgoals[0].id);
    let mut draft = draft_of(&PlanService::get(&db, id).unwrap());
    let c = draft.tasks[0].subgoals.remove(2);
    let b = draft.tasks[0].subgoals.remove(1);
    draft.tasks[0].subgoals.insert(1, c);
    draft.tasks[0].subgoals.insert(2, b);
    draft.tasks[0].subgoals.push(sub("D", 30));
    PlanService::update(&mut db, at(2026, 8, 25, 9, 0), id, &draft).unwrap();
    let subs = PlanService::get(&db, id).unwrap().tasks.remove(0).subgoals;
    let order: Vec<(String, i32)> = subs.iter().map(|s| (s.name.clone(), s.position)).collect();
    assert_eq!(order, vec![("A".into(), 0), ("C".into(), 1), ("B".into(), 2), ("D".into(), 3)]);
}

#[test]
fn update_rejects_subgoal_id_from_other_task() {
    let mut db = open_in_memory();
    let id = PlanService::create(&mut db, at(2026, 8, 24, 9, 0), &plan_of(vec![subgoal_task("t1", vec![sub("A", 60)]), subgoal_task("t2", vec![sub("B", 40)])])).unwrap();
    let view = PlanService::get(&db, id).unwrap();
    let foreign = view.tasks[1].subgoals[0].id;
    let mut draft = draft_of(&view);
    draft.tasks[0].subgoals.push(SubGoalDraft { id: Some(foreign), name: "冒名行".into(), estimated_minutes: 10 });
    assert_eq!(PlanService::update(&mut db, at(2026, 8, 25, 9, 0), id, &draft), Err(PlanError::SubGoalInvalid { task_index: 0, subgoal_index: 1 }));
    assert_eq!(PlanService::get(&db, id).unwrap().tasks[1].subgoals[0].name, "B");
}

#[test]
fn update_rejects_modifying_or_dropping_completed_subgoal() {
    let mut db = open_in_memory();
    let id = PlanService::create(&mut db, at(2026, 8, 24, 9, 0), &plan_of(vec![subgoal_task("t", vec![sub("A", 60), sub("B", 40)])])).unwrap();
    let view = PlanService::get(&db, id).unwrap();
    force_subgoal_completed(&mut db, view.tasks[0].subgoals[0].id);

    let mut rename = draft_of(&PlanService::get(&db, id).unwrap());
    rename.tasks[0].subgoals[0].name = "想改已完成".into();
    assert_eq!(PlanService::update(&mut db, at(2026, 8, 25, 9, 0), id, &rename), Err(PlanError::SubGoalLocked { task_index: 0 }));

    let mut drop_it = draft_of(&PlanService::get(&db, id).unwrap());
    drop_it.tasks[0].subgoals.remove(0);
    assert_eq!(PlanService::update(&mut db, at(2026, 8, 25, 9, 0), id, &drop_it), Err(PlanError::SubGoalLocked { task_index: 0 }));

    let mut legit = draft_of(&PlanService::get(&db, id).unwrap());
    legit.tasks[0].subgoals[1].name = "B2".into();
    PlanService::update(&mut db, at(2026, 8, 25, 9, 0), id, &legit).unwrap();
    assert_eq!(PlanService::get(&db, id).unwrap().tasks[0].subgoals[1].name, "B2");
}

#[test]
fn update_unchecking_subgoals_clears_all_or_rejects_when_any_completed() {
    let mut db = open_in_memory();
    let id = PlanService::create(&mut db, at(2026, 8, 24, 9, 0), &plan_of(vec![subgoal_task("t", vec![sub("A", 60), sub("B", 40)])])).unwrap();
    let view = PlanService::get(&db, id).unwrap();
    force_subgoal_completed(&mut db, view.tasks[0].subgoals[0].id);
    let mut uncheck = draft_of(&PlanService::get(&db, id).unwrap());
    uncheck.tasks[0].has_subgoals = false;
    uncheck.tasks[0].subgoals.clear();
    uncheck.tasks[0].estimated_minutes = Some(90);
    assert_eq!(PlanService::update(&mut db, at(2026, 8, 25, 9, 0), id, &uncheck), Err(PlanError::SubGoalLocked { task_index: 0 }));

    for s in db.subgoals.iter_mut() {
        s.completed_at = None;
    }
    PlanService::update(&mut db, at(2026, 8, 25, 9, 0), id, &uncheck).unwrap();
    let p = PlanService::get(&db, id).unwrap();
    assert!(!p.tasks[0].has_subgoals);
    assert!(p.tasks[0].subgoals.is_empty());
    assert_eq!(p.tasks[0].estimated_minutes, Some(90));
}

#[test]
fn progress_scales_by_completed_minutes_across_edits() {
    let mut db = open_in_memory();
    let id = PlanService::create(&mut db, at(2026, 8, 24, 9, 0), &plan_of(vec![subgoal_task("t", vec![sub("A", 60), sub("B", 40)])])).unwrap();
    let view = PlanService::get(&db, id).unwrap();
    let task_id = view.tasks[0].id;
    force_subgoal_completed(&mut db, view.tasks[0].subgoals[0].id);

    let pr = PlanService::task_progress(&db, task_id).unwrap();
    assert_eq!(pr, TaskProgress { completed_milli: 60_000, total_minutes: 100 });
    assert_eq!(pr.percent_tenths(), 600);

    let mut d1 = draft_of(&PlanService::get(&db, id).unwrap());
    d1.tasks[0].subgoals[1].estimated_minutes = 80;
    PlanService::update(&mut db, at(2026, 8, 25, 9, 0), id, &d1).unwrap();
    let pr = PlanService::task_progress(&db, task_id).unwrap();
    assert_eq!((pr.completed_milli, pr.total_minutes), (60_000, 140));
    assert_eq!(pr.percent_tenths(), 429, "42.857% rounds to 42.9%");

    let mut d2 = draft_of(&PlanService::get(&db, id).unwrap());
    d2.tasks[0].subgoals.push(sub("C", 20));
    PlanService::update(&mut db, at(2026, 8, 25, 10, 0), id, &d2).unwrap();
    let pr = PlanService::task_progress(&db, task_id).unwrap();
    assert_eq!((pr.completed_milli, pr.total_minutes), (60_000, 160));
    assert_eq!(pr.percent_tenths(), 375);

    let mut d3 = draft_of(&PlanService::get(&db, id).unwrap());
    d3.tasks[0].subgoals.remove(1);
    PlanService::update(&mut db, at(2026, 8, 25, 11, 0), id, &d3).unwrap();
    let pr = PlanService::task_progress(&db, task_id).unwrap();
    assert_eq!((pr.completed_milli, pr.total_minutes), (60_000, 80));
    assert_eq!(pr.percent_tenths(), 750);
    assert!(!pr.is_complete());
}

#[test]
fn create_persists_dependencies_and_waiting_judgement_follows_completion() {
    let mut db = open_in_memory();
    let mut b = plain_task("B", 60);
    b.depends_on = vec![0];
    let mut c = plain_task("C", 60);
    c.depends_on = vec![0, 1];
    let id = PlanService::create(&mut db, at(2026, 8, 24, 9, 0), &plan_of(vec![plain_task("A", 60), b, c])).unwrap();
    let p = PlanService::get(&db, id).unwrap();
    let (a_id, b_id, c_id) = (p.tasks[0].id, p.tasks[1].id, p.tasks[2].id);
    assert_eq!(p.tasks[1].prerequisite_ids, vec![a_id]);
    assert_eq!(p.tasks[2].prerequisite_ids, vec![a_id, b_id]);

    let names = |db: &Database| DependencyService::waiting_on(db, c_id).unwrap().into_iter().map(|t| t.name).collect::<Vec<String>>();
    assert_eq!(names(&db), vec!["A", "B"]);
    assert!(!DependencyService::is_unblocked(&db, c_id).unwrap());
    force_task_status(&mut db, a_id, TaskStatus::Completed);
    assert_eq!(names(&db), vec!["B"]);
    force_task_status(&mut db, b_id, TaskStatus::Completed);
    assert_eq!(DependencyService::waiting_on(&db, c_id).unwrap().len(), 0);
    assert!(DependencyService::is_unblocked(&db, c_id).unwrap());
}

#[test]
fn create_rejects_cyclic_and_invalid_dependency_refs() {
    let mut db = open_in_memory();
    let mut a = plain_task("A", 60);
    a.depends_on = vec![1];
    let mut b = plain_task("B", 60);
    b.depends_on = vec![0];
    assert_eq!(PlanService::create(&mut db, at(2026, 8, 24, 9, 0), &plan_of(vec![a, b])), Err(PlanError::DependencyCycle { task_index: Some(1) }));
    let mut self_ref = plain_task("A", 60);
    self_ref.depends_on = vec![0];
    assert_eq!(PlanService::create(&mut db, at(2026, 8, 24, 9, 0), &plan_of(vec![self_ref])), Err(PlanError::DependencyCycle { task_index: Some(0) }));
    let mut out_of_range = plain_task("A", 60);
    out_of_range.depends_on = vec![3];
    assert_eq!(PlanService::create(&mut db, at(2026, 8, 24, 9, 0), &plan_of(vec![out_of_range])), Err(PlanError::DependencyInvalid { task_index: 0 }));
    assert_eq!(db.deps.len(), 0);
    assert_eq!(db.plans.len(), 0, "refused drafts store nothing");
}

#[test]
fn link_rejects_cross_plan_and_long_cycles() {
    let mut db = open_in_memory();
    let jia = PlanService::create(&mut db, at(2026, 8, 24, 9, 0), &plan_of(vec![plain_task("A", 60), plain_task("B", 60), plain_task("C", 60)])).unwrap();
    let yi = PlanService::create(&mut db, at(2026, 8, 24, 9, 0), &plan_of(vec![plain_task("X", 60), plain_task("Y", 60)])).unwrap();
    let jia_tasks = PlanService::get(&db, jia).unwrap().tasks;
    let yi_tasks = PlanService::get(&db, yi).unwrap().tasks;
    let (a, b, c) = (jia_tasks[0].id, jia_tasks[1].id, jia_tasks[2].id);
    assert_eq!(DependencyService::link(&mut db, a, yi_tasks[0].id), Err(PlanError::DependencyCrossPlan));
    assert_eq!(DependencyService::link(&mut db, a, 9999), Err(PlanError::NotFound));
    DependencyService::link(&mut db, a, b).unwrap();
    DependencyService::link(&mut db, b, c).unwrap();
    assert_eq!(DependencyService::link(&mut db, c, a), Err(PlanError::DependencyCycle { task_index: None }));
    assert_eq!(db.deps.len(), 2);
}

#[test]
fn update_replaces_dependency_set_and_supports_new_tasks() {
    let mut db = open_in_memory();
    let mut b = plain_task("B", 60);
    b.depends_on = vec![0];
    let mut c = plain_task("C", 60);
    c.depends_on = vec![0, 1];
    let id = PlanService::create(&mut db, at(2026, 8, 24, 9, 0), &plan_of(vec![plain_task("A", 60), b, c])).unwrap();
    let view = PlanService::get(&db, id).unwrap();
    let (a_id, b_id) = (view.tasks[0].id, view.tasks[1].id);
    let mut draft = draft_of(&view);
    draft.tasks[1].depends_on = vec![];
    draft.tasks[2].depends_on = vec![1];
    let mut n = plain_task("N", 90);
    n.depends_on = vec![0];
    draft.tasks.push(n);
    PlanService::update(&mut db, at(2026, 8, 25, 9, 0), id, &draft).unwrap();
    let p = PlanService::get(&db, id).unwrap();
    assert_eq!(p.tasks[1].prerequisite_ids, Vec::<i64>::new());
    assert_eq!(p.tasks[2].prerequisite_ids, vec![b_id]);
    assert_eq!(p.tasks[3].prerequisite_ids, vec![a_id]);
    let waiting: Vec<String> = DependencyService::waiting_on(&db, p.tasks[3].id).unwrap().into_iter().map(|t| t.name).collect();
    assert_eq!(waiting, vec!["A"]);
}

#[test]
fn delete_task_detaches_dependencies_and_unlocks_successors() {
    let mut db = open_in_memory();
    let mut b = plain_task("B", 60);
    b.depends_on = vec![0];
    let mut c = plain_task("C", 60);
    c.depends_on = vec![1];
    let id = PlanService::create(&mut db, at(2026, 8, 24, 9, 0), &plan_of(vec![plain_task("A", 60), b, c])).unwrap();
    let p = PlanService::get(&db, id).unwrap();
    let (b_id, c_id) = (p.tasks[1].id, p.tasks[2].id);
    assert_eq!(db.deps.len(), 2);
    PlanService::delete_task(&mut db, at(2026, 8, 25, 9, 0), b_id).unwrap();
    assert_eq!(db.deps.len(), 0);
    assert_eq!(DependencyService::waiting_on(&db, c_id).unwrap().len(), 0);
    assert!(DependencyService::is_unblocked(&db, c_id).unwrap());
}

#[test]
fn detaching_a_task_drops_its_edges_both_ways() {
    let mut db = open_in_memory();
    let mut b = plain_task("B", 60);
    b.depends_on = vec![0];
    let mut c = plain_task("C", 60);
    c.depends_on = vec![0, 1];
    let id = PlanService::create(&mut db, at(2026, 8, 24, 9, 0), &plan_of(vec![plain_task("A", 60), b, c])).unwrap();
    let p = PlanService::get(&db, id).unwrap();
    let (a_id, b_id, c_id) = (p.tasks[0].id, p.tasks[1].id, p.tasks[2].id);
    assert_eq!(db.deps.len(), 3);
    DependencyService::detach_task(&mut db, b_id).unwrap();
    let left: Vec<(i64, i64)> = db.deps.iter().map(|e| (e.predecessor_id, e.successor_id)).collect();
    assert_eq!(left, vec![(a_id, c_id)], "only the edge that does not touch B stays");
    let names: Vec<String> = DependencyService::waiting_on(&db, c_id).unwrap().into_iter().map(|t| t.name).collect();
    assert_eq!(names, vec!["A"]);
}
