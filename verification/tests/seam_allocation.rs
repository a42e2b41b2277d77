//! Today's allocation: candidate groups filtered by dependencies, storing and
//! overwriting the day's selection, refusing tasks that cannot be selected,
//! the three conditions of the automatic opening, and expiry the next day.

use plan_helper::allocation::{selectable_of, AllocationService};
use plan_helper::lifecycle::LifecycleService;
use plan_helper::plans::{PlanDraft, PlanError, PlanService, Priority, SubGoalDraft, TaskDraft, TaskStatus};
use plan_helper::store::{open_in_memory, Database};
use plan_helper::time::LocalTime;

/// Day number of a calendar date, counted as chrono counts it (0001-01-01 is day 1).
fn ymd(y: i32, m: u32, d: u32) -> Option<i64> {
    chrono::NaiveDate::from_ymd_opt(y, m, d).map(|x| chrono::Datelike::num_days_from_ce(&x) as i64)
}

fn at(y: i32, mo: u32, day: u32, h: u32, mi: u32) -> LocalTime {
    LocalTime { day: ymd(y, mo, day).unwrap(), minute: h * 60 + mi }
}

fn plain_task(name: &str, minutes: u32) -> TaskDraft {
    TaskDraft {
        id: None,
        name: name.into(),
        summary: String::new(),
        detail: String::new(),
        has_subgoals: false,
        estimated_minutes: Some(minutes),
        subgoals: Vec::new(),
        depends_on: Vec::new(),
    }
}

fn force_task_status(db: &mut Database, task_id: i64, status: TaskStatus) {
    db.tasks.iter_mut().find(|t| t.id == task_id).unwrap().status = status;
}

fn id_of(db: &Database, name: &str, plan: i64) -> i64 {
    db.tasks.iter().find(|t| t.plan_id == plan && t.name == name).unwrap().id
}

/// A (60 min), B waiting for A (30 min), SG with two sub-goals (60 + 30).
fn sample(name: &str) -> PlanDraft {
    let mut b = plain_task("B", 30);
    b.depends_on = vec![0];
    let mut sg = plain_task("SG", 30);
    sg.has_subgoals = true;
    sg.estimated_minutes = None;
    sg.subgoals = vec![
        SubGoalDraft { id: None, name: "读第一章".into(), estimated_minutes: 60 },
        SubGoalDraft { id: None, name: "读第二章".into(), estimated_minutes: 30 },
    ];
    PlanDraft { name: name.into(), summary: String::new(), detail: String::new(), priority: Priority::Medium, due_date: None, tasks: vec![plain_task("A", 60), b, sg] }
}

#[test]
fn board_groups_active_plans_selectable_only() {
    let mut db = open_in_memory();
    let mut high = sample("高优先计划");
    high.priority = Priority::High;
    let p_high = PlanService::create(&mut db, at(2026, 8, 23, 9, 0), &high).unwrap();
    let p_mid = PlanService::create(&mut db, at(2026, 8, 22, 9, 0), &sample("中优先计划")).unwrap();
    PlanService::create(&mut db, at(2026, 8, 21, 9, 0), &sample("未开始计划")).unwrap();
    LifecycleService::start(&mut db, p_mid).unwrap();
    // Starting the high plan preempts the medium one.
    LifecycleService::start(&mut db, p_high).unwrap();

    let v = AllocationService::board(&db, at(2026, 8, 24, 9, 0)).unwrap();
    assert_eq!(v.date, "2026-08-24");
    assert_eq!(v.target_nanos, 300_000_000_000, "default base 5h");
    assert_eq!(v.selected_task_ids, Vec::<i64>::new(), "nothing allocated yet");
    assert_eq!(v.groups.len(), 1, "only the active plan");
    assert_eq!(v.groups[0].plan_name, "高优先计划");
    assert_eq!(v.groups[0].priority, Priority::High);
    assert_eq!(v.paused_groups.len(), 1, "the preempted plan is listed apart");
    assert_eq!(v.paused_groups[0].plan_name, "中优先计划");

    let names = v.paused_groups[0].tasks.iter().map(|t| t.name.as_str()).collect::<Vec<_>>();
    assert_eq!(names, vec!["A", "SG"], "blocked B is left out");
    let sg = v.paused_groups[0].tasks.iter().find(|t| t.name == "SG").unwrap();
    assert_eq!(sg.estimated_minutes, 90, "sub-goal task estimate = sum");

    let a_id = id_of(&db, "A", p_high);
    force_task_status(&mut db, a_id, TaskStatus::Completed);
    let v2 = AllocationService::board(&db, at(2026, 8, 24, 9, 0)).unwrap();
    let names2 = v2.groups[0].tasks.iter().map(|t| t.name.as_str()).collect::<Vec<_>>();
    assert_eq!(names2, vec!["B", "SG"], "A completed leaves; B unblocks");
}

#[test]
fn commit_persists_overwrites_and_board_roundtrips() {
    let mut db = open_in_memory();
    let p = PlanService::create(&mut db, at(2026, 8, 23, 9, 0), &sample("分配")).unwrap();
    LifecycleService::start(&mut db, p).unwrap();
    let v = AllocationService::board(&db, at(2026, 8, 24, 9, 0)).unwrap();
    let ids: Vec<i64> = v.groups[0].tasks.iter().map(|t| t.id).collect();
    let (a, sg) = (ids[0], ids[1]);
    let b = id_of(&db, "B", p);

    AllocationService::commit(&mut db, at(2026, 8, 24, 10, 0), &vec![a, sg]).unwrap();
    let v = AllocationService::board(&db, at(2026, 8, 24, 12, 0)).unwrap();
    assert_eq!(v.selected_task_ids, vec![a, sg]);

    AllocationService::commit(&mut db, at(2026, 8, 24, 14, 0), &vec![sg]).unwrap();
    let v = AllocationService::board(&db, at(2026, 8, 24, 15, 0)).unwrap();
    assert_eq!(v.selected_task_ids, vec![sg], "a second commit overwrites");

    assert_eq!(
        AllocationService::commit(&mut db, at(2026, 8, 24, 16, 0), &vec![b]),
        Err(PlanError::TaskNotAllocatable { task_id: b })
    );
    let v = AllocationService::board(&db, at(2026, 8, 24, 17, 0)).unwrap();
    assert_eq!(v.selected_task_ids, vec![sg], "a refused commit changes nothing");
}

#[test]
fn commit_rejects_non_selectable_tasks() {
    let mut db = open_in_memory();
    let p_active = PlanService::create(&mut db, at(2026, 8, 23, 9, 0), &sample("进行中")).unwrap();
    let p_idle = PlanService::create(&mut db, at(2026, 8, 23, 9, 0), &sample("未开始")).unwrap();
    LifecycleService::start(&mut db, p_active).unwrap();
    let a = id_of(&db, "A", p_active);
    let b = id_of(&db, "B", p_active);
    let sg = id_of(&db, "SG", p_active);
    force_task_status(&mut db, sg, TaskStatus::Completed);
    let idle_id = id_of(&db, "A", p_idle);

    let clock = at(2026, 8, 24, 9, 0);
    assert!(AllocationService::commit(&mut db, clock, &vec![a]).is_ok());
    for bad in [b, sg, idle_id, 999] {
        assert_eq!(AllocationService::commit(&mut db, clock, &vec![bad]), Err(PlanError::TaskNotAllocatable { task_id: bad }));
    }
    // The first id outside the selectable set is the one named.
    assert_eq!(AllocationService::commit(&mut db, clock, &vec![a, 999, b]), Err(PlanError::TaskNotAllocatable { task_id: 999 }));
}

#[test]
fn should_auto_open_requires_workmode_workday_and_unallocated() {
    let mut db = open_in_memory();
    let p = PlanService::create(&mut db, at(2026, 8, 23, 9, 0), &sample("判定")).unwrap();
    LifecycleService::start(&mut db, p).unwrap();
    let v = AllocationService::board(&db, at(2026, 8, 24, 8, 0)).unwrap();
    let a = v.groups[0].tasks[0].id;

    assert!(!AllocationService::should_auto_open(&db, at(2026, 8, 24, 8, 0), false, false).unwrap());
    assert!(!AllocationService::should_auto_open(&db, at(2026, 8, 23, 8, 0), true, false).unwrap(), "Sunday");
    assert!(AllocationService::should_auto_open(&db, at(2026, 8, 23, 8, 0), true, true).unwrap(), "manual work mode on Sunday");
    assert!(!AllocationService::board(&db, at(2026, 8, 23, 8, 0)).unwrap().workday);
    assert!(AllocationService::should_auto_open(&db, at(2026, 8, 24, 8, 0), true, false).unwrap());

    AllocationService::commit(&mut db, at(2026, 8, 24, 8, 30), &vec![a]).unwrap();
    assert!(!AllocationService::should_auto_open(&db, at(2026, 8, 24, 9, 0), true, false).unwrap(), "already allocated");
    assert!(!AllocationService::should_auto_open(&db, at(2026, 8, 24, 9, 0), true, true).unwrap(), "already allocated");
}

#[test]
fn allocation_expires_next_day() {
    let mut db = open_in_memory();
    let p = PlanService::create(&mut db, at(2026, 8, 23, 9, 0), &sample("隔日")).unwrap();
    LifecycleService::start(&mut db, p).unwrap();
    let a = AllocationService::board(&db, at(2026, 8, 24, 8, 0)).unwrap().groups[0].tasks[0].id;
    AllocationService::commit(&mut db, at(2026, 8, 24, 8, 30), &vec![a]).unwrap();

    let next = AllocationService::board(&db, at(2026, 8, 25, 8, 0)).unwrap();
    assert_eq!(next.date, "2026-08-25");
    assert_eq!(next.selected_task_ids, Vec::<i64>::new());
    assert!(AllocationService::should_auto_open(&db, at(2026, 8, 25, 8, 0), true, false).unwrap());
}

#[test]
fn selectable_ids_follow_group_order() {
    let mut db = open_in_memory();
    let p = PlanService::create(&mut db, at(2026, 8, 23, 9, 0), &sample("顺序")).unwrap();
    LifecycleService::start(&mut db, p).unwrap();
    let groups = AllocationService::candidates(&db);
    assert_eq!(selectable_of(&groups), vec![id_of(&db, "A", p), id_of(&db, "SG", p)]);
}
