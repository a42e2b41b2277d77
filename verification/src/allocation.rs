//! Today's allocation: the main board (candidate tasks grouped by plan, today's
//! selection echoed back, today's target), committing the selection (a later
//! commit overwrites it), and whether the main board should open by itself.
//! The allocation holds only the day and the selected task ids; progress
//! comes from the log.

use vstd::prelude::*;
use crate::deps::{is_unblocked_in, unblocked};
use crate::ledger::{target_on, LedgerService, AMOUNT_LIMIT};
use crate::plans::{PauseReason, PlanError, PlanService, PlanStatus, Priority, TaskStatus};
use crate::settings_service::{day_minutes, workday_for, SettingsService};
use crate::store::{Database, TodayAllocation};
use crate::time::{iso_date, iso_text, LocalTime};
use crate::views::{plans_in_order, PlanView, TaskView};

verus! {

/// A selectable task on the main board.
#[derive(Debug, Clone, PartialEq, Eq)]
pub struct AllocationTask {
    pub id: i64,
    pub name: String,
    /// Estimate in minutes (0 when the task has none).
    pub estimated_minutes: u32,
}

/// One plan's group on the main board.
#[derive(Debug, Clone, PartialEq, Eq)]
pub struct AllocationGroup {
    pub plan_id: i64,
    pub plan_name: String,
    pub priority: Priority,
    pub tasks: Vec<AllocationTask>,
}

/// The main board.
#[derive(Debug, Clone, PartialEq, Eq)]
pub struct AllocationBoardView {
    /// Today as `YYYY-MM-DD`.
    pub date: String,
    /// Whether today is a workday.
    pub workday: bool,
    /// Today's adjusted target (nanominutes).
    pub target_nanos: i128,
    /// Today's base (daily work minutes).
    pub base_minutes: u32,
    /// Today's stored selection, kept to the tasks that are still selectable.
    pub selected_task_ids: Vec<i64>,
    /// Active plans, in list order, with their selectable tasks.
    pub groups: Vec<AllocationGroup>,
    /// Plans paused by preemption, in list order, with the same task filter.
    pub paused_groups: Vec<AllocationGroup>,
}

/// Today's allocation.
pub struct AllocationService;

/// Today's stored selection (empty when nothing was committed for `day`).
pub open spec fn selection_of(db: &Database, day: int) -> Seq<i64> {
    match db.allocation {
        Some(a) => if a.date == day { a.task_ids@ } else { Seq::empty() },
        None => Seq::empty(),
    }
}

/// A task can be allocated: unfinished and not waiting for an unfinished predecessor.
pub open spec fn allocatable(db: &Database, t: TaskView) -> bool {
    t.status != TaskStatus::Completed && unblocked(db, t.id)
}

/// The allocatable tasks among `ts`, in order.
pub open spec fn allocatable_tasks(db: &Database, ts: Seq<TaskView>) -> Seq<TaskView>
    decreases ts.len(),
{
    if ts.len() == 0 {
        Seq::empty()
    } else {
        let r = allocatable_tasks(db, ts.drop_last());
        if allocatable(db, ts.last()) { r.push(ts.last()) } else { r }
    }
}

/// Plans shown as groups: active ones (`paused` false) or those paused by
/// preemption (`paused` true).
pub open spec fn plan_kept(p: PlanView, paused: bool) -> bool {
    if paused {
        p.status == PlanStatus::Paused && p.pause_reason == Some(PauseReason::AutoPreempted)
    } else {
        p.status == PlanStatus::Active
    }
}

/// The plans among `ps` that get a group: kept, with at least one allocatable task.
pub open spec fn grouped_plans(db: &Database, ps: Seq<PlanView>, paused: bool) -> Seq<PlanView>
    decreases ps.len(),
{
    if ps.len() == 0 {
        Seq::empty()
    } else {
        let r = grouped_plans(db, ps.drop_last(), paused);
        let p = ps.last();
        if plan_kept(p, paused) && allocatable_tasks(db, p.tasks@).len() > 0 { r.push(p) } else { r }
    }
}

/// `a` shows task `t`.
pub open spec fn allocation_task_of(t: TaskView, a: AllocationTask) -> bool {
    &&& a.id == t.id
    &&& a.name@ == t.name@
    &&& a.estimated_minutes == match t.estimated_minutes { Some(m) => m, None => 0 }
}

/// `g` shows plan `p` with its allocatable tasks.
pub open spec fn group_of(db: &Database, p: PlanView, g: AllocationGroup) -> bool {
    &&& g.plan_id == p.id
    &&& g.plan_name@ == p.name@
    &&& g.priority == p.priority
    &&& g.tasks@.len() == allocatable_tasks(db, p.tasks@).len()
    &&& forall|j: int| 0 <= j < g.tasks@.len() ==> allocation_task_of(allocatable_tasks(db, p.tasks@)[j], #[trigger] g.tasks@[j])
}

/// `gs` are the groups of the plans `ps`.
pub open spec fn groups_shown(db: &Database, ps: Seq<PlanView>, paused: bool, gs: Seq<AllocationGroup>) -> bool {
    let sp = grouped_plans(db, ps, paused);
    &&& gs.len() == sp.len()
    &&& forall|i: int| 0 <= i < gs.len() ==> group_of(db, sp[i], #[trigger] gs[i])
}

/// Ids of the tasks in `gs`, group after group.
pub open spec fn ids_of(gs: Seq<AllocationGroup>) -> Seq<i64>
    decreases gs.len(),
{
    if gs.len() == 0 {
        Seq::empty()
    } else {
        ids_of(gs.drop_last()) + gs.last().tasks@.map_values(|t: AllocationTask| t.id)
    }
}

/// The ids of `ids` that are in `allowed`, in order.
pub open spec fn kept_ids(ids: Seq<i64>, allowed: Seq<i64>) -> Seq<i64>
    decreases ids.len(),
{
    if ids.len() == 0 {
        Seq::empty()
    } else {
        let r = kept_ids(ids.drop_last(), allowed);
        if allowed.contains(ids.last()) { r.push(ids.last()) } else { r }
    }
}

/// The first id of `ids` that is not in `allowed`.
pub open spec fn first_outside(ids: Seq<i64>, allowed: Seq<i64>) -> Option<i64>
    decreases ids.len(),
{
    if ids.len() == 0 {
        None
    } else {
        match first_outside(ids.drop_last(), allowed) {
            Some(x) => Some(x),
            None => if allowed.contains(ids.last()) { None } else { Some(ids.last()) },
        }
    }
}

/// Today's stored selection.
pub fn stored_selection(db: &Database, now: LocalTime) -> (r: Vec<i64>)
    ensures
        r@ == selection_of(db, now.day as int),
{
    match &db.allocation {
        Some(a) => {
            if a.date == now.day {
                crate::settings::copy_vec(&a.task_ids)
            } else {
                Vec::new()
            }
        },
        None => Vec::new(),
    }
}

/// Whether `x` is in `v`.
pub fn contains_id(v: &Vec<i64>, x: i64) -> (r: bool)
    ensures
        r == v@.contains(x),
{
    let n = v.len();
    let mut k: usize = 0;
    while k < n
        invariant
            n == v@.len(),
            k <= n,
            forall|q: int| 0 <= q < k ==> v@[q] != x,
        decreases n - k,
    {
        if v[k] == x {
            assert(v@[k as int] == x);
            return true;
        }
        k = k + 1;
    }
    false
}

/// The allocatable tasks of a plan's task list, shown.
fn allocation_tasks(db: &Database, ts: &Vec<TaskView>) -> (r: Vec<AllocationTask>)
    ensures
        r@.len() == allocatable_tasks(db, ts@).len(),
        forall|j: int| 0 <= j < r@.len() ==> allocation_task_of(allocatable_tasks(db, ts@)[j], #[trigger] r@[j]),
{
    let n = ts.len();
    let mut r: Vec<AllocationTask> = Vec::new();
    let mut k: usize = 0;
    while k < n
        invariant
            n == ts@.len(),
            k <= n,
            r@.len() == allocatable_tasks(db, ts@.subrange(0, k as int)).len(),
            forall|j: int| 0 <= j < r@.len() ==> allocation_task_of(allocatable_tasks(db, ts@.subrange(0, k as int))[j], #[trigger] r@[j]),
        decreases n - k,
    {
        assert(ts@.subrange(0, k + 1).drop_last() =~= ts@.subrange(0, k as int));
        let t = &ts[k];
        if t.status != TaskStatus::Completed && is_unblocked_in(db, t.id) {
            let est = match t.estimated_minutes {
                Some(m) => m,
                None => 0,
            };
            r.push(AllocationTask { id: t.id, name: t.name.clone(), estimated_minutes: est });
        }
        k = k + 1;
    }
    assert(ts@.subrange(0, n as int) =~= ts@);
    r
}

/// Groups of the plans `ps` (active ones, or those paused by preemption).
fn groups_of(db: &Database, ps: &Vec<PlanView>, paused: bool) -> (r: Vec<AllocationGroup>)
    ensures
        groups_shown(db, ps@, paused, r@),
{
    let n = ps.len();
    let mut r: Vec<AllocationGroup> = Vec::new();
    let mut k: usize = 0;
    while k < n
        invariant
            n == ps@.len(),
            k <= n,
            groups_shown(db, ps@.subrange(0, k as int), paused, r@),
        decreases n - k,
    {
        assert(ps@.subrange(0, k + 1).drop_last() =~= ps@.subrange(0, k as int));
        let p = &ps[k];
        let kept = if paused {
            p.status == PlanStatus::Paused && match p.pause_reason {
                Some(PauseReason::AutoPreempted) => true,
                _ => false,
            }
        } else {
            p.status == PlanStatus::Active
        };
        if kept {
            let tasks = allocation_tasks(db, &p.tasks);
            if tasks.len() > 0 {
                let ghost before = r@;
                r.push(AllocationGroup { plan_id: p.id, plan_name: p.name.clone(), priority: p.priority, tasks });
                proof {
                    let sp = grouped_plans(db, ps@.subrange(0, k + 1), paused);
                    assert forall|i: int| 0 <= i < r@.len() implies group_of(db, sp[i], #[trigger] r@[i]) by {
                        if i < before.len() {
                            assert(r@[i] == before[i]);
                        }
                    }
                }
            }
        }
        k = k + 1;
    }
    assert(ps@.subrange(0, n as int) =~= ps@);
    r
}

/// Ids of all tasks in the groups (every task in a group is selectable).
pub fn selectable_of(groups: &Vec<AllocationGroup>) -> (r: Vec<i64>)
    ensures
        r@ == ids_of(groups@),
{
    let n = groups.len();
    let mut r: Vec<i64> = Vec::new();
    let mut k: usize = 0;
    while k < n
        invariant
            n == groups@.len(),
            k <= n,
            r@ == ids_of(groups@.subrange(0, k as int)),
        decreases n - k,
    {
        assert(groups@.subrange(0, k + 1).drop_last() =~= groups@.subrange(0, k as int));
        let g = &groups[k];
        let m = g.tasks.len();
        let ghost start = r@;
        let mut j: usize = 0;
        while j < m
            invariant
                m == g.tasks@.len(),
                j <= m,
                r@ == start + g.tasks@.subrange(0, j as int).map_values(|t: AllocationTask| t.id),
            decreases m - j,
        {
            r.push(g.tasks[j].id);
            j = j + 1;
            assert(start + g.tasks@.subrange(0, j as int).map_values(|t: AllocationTask| t.id) =~= r@);
        }
        assert(g.tasks@.subrange(0, m as int) =~= g.tasks@);
        k = k + 1;
    }
    assert(groups@.subrange(0, n as int) =~= groups@);
    r
}

/// The ids of `ids` that are in `allowed`, in order.
fn keep_ids(ids: &Vec<i64>, allowed: &Vec<i64>) -> (r: Vec<i64>)
    ensures
        r@ == kept_ids(ids@, allowed@),
{
    let n = ids.len();
    let mut r: Vec<i64> = Vec::new();
    let mut k: usize = 0;
    while k < n
        invariant
            n == ids@.len(),
            k <= n,
            r@ == kept_ids(ids@.subrange(0, k as int), allowed@),
        decreases n - k,
    {
        assert(ids@.subrange(0, k + 1).drop_last() =~= ids@.subrange(0, k as int));
        if contains_id(allowed, ids[k]) {
            r.push(ids[k]);
        }
        k = k + 1;
    }
    assert(ids@.subrange(0, n as int) =~= ids@);
    r
}

/// The first id of `ids` outside `allowed`.
fn first_outside_of(ids: &Vec<i64>, allowed: &Vec<i64>) -> (r: Option<i64>)
    ensures
        r == first_outside(ids@, allowed@),
{
    let n = ids.len();
    let mut k: usize = 0;
    while k < n
        invariant
            n == ids@.len(),
            k <= n,
            first_outside(ids@.subrange(0, k as int), allowed@) is None,
        decreases n - k,
    {
        assert(ids@.subrange(0, k + 1).drop_last() =~= ids@.subrange(0, k as int));
        if !contains_id(allowed, ids[k]) {
            proof {
                lemma_first_outside_prefix(ids@, allowed@, k as int + 1);
            }
            return Some(ids[k]);
        }
        k = k + 1;
    }
    assert(ids@.subrange(0, n as int) =~= ids@);
    None
}

/// Once a prefix has an id outside, the whole sequence reports that id.
proof fn lemma_first_outside_prefix(ids: Seq<i64>, allowed: Seq<i64>, k: int)
    requires
        0 <= k <= ids.len(),
        first_outside(ids.subrange(0, k), allowed) is Some,
    ensures
        first_outside(ids, allowed) == first_outside(ids.subrange(0, k), allowed),
    decreases ids.len() - k,
{
    if k < ids.len() {
        assert(ids.subrange(0, k + 1).drop_last() =~= ids.subrange(0, k));
        lemma_first_outside_prefix(ids, allowed, k + 1);
    } else {
        assert(ids.subrange(0, k) =~= ids);
    }
}

/// The candidate groups of the main board over the plan list `ps`.
pub open spec fn candidates_over(db: &Database, ps: Seq<PlanView>, gs: Seq<AllocationGroup>) -> bool {
    groups_shown(db, ps, false, gs)
}

impl AllocationService {
    /// Candidate groups: active plans in list order, each with its unfinished,
    /// unblocked tasks; plans left without such a task get no group.
    pub fn candidates(db: &Database) -> (r: Vec<AllocationGroup>)
        requires
            db.wf(),
        ensures
            exists|ps: Seq<PlanView>, ord: Seq<usize>| #[trigger] plans_in_order(db, ps, ord) && candidates_over(db, ps, r@),
    {
        let ps = PlanService::list(db);
        let r = groups_of(db, &ps, false);
        assert(candidates_over(db, ps@, r@));
        r
    }

    /// The main board for the day of `now` (Storage error when the ledger's
    /// amounts leave their range).
    pub fn board(db: &Database, now: LocalTime) -> (r: Result<AllocationBoardView, PlanError>)
        requires
            db.wf(),
            now.wf(),
        ensures
            target_on(db, now.day as int) is None ==> r matches Err(PlanError::Storage(_)),
            target_on(db, now.day as int) matches Some(t) ==> (r matches Ok(v) && {
                &&& v.date@ == iso_text(now.day)
                &&& v.workday == workday_for(db.settings, db.versions@, now.day as int)
                &&& v.target_nanos == t
                &&& v.base_minutes == day_minutes(db.versions@, now.day as int)
                &&& exists|ps: Seq<PlanView>, ord: Seq<usize>| #[trigger] plans_in_order(db, ps, ord) && {
                        &&& groups_shown(db, ps, false, v.groups@)
                        &&& groups_shown(db, ps, true, v.paused_groups@)
                        &&& v.selected_task_ids@ == kept_ids(selection_of(db, now.day as int), ids_of(v.groups@))
                    }
            }),
    {
        let ps = PlanService::list(db);
        let groups = groups_of(db, &ps, false);
        let paused_groups = groups_of(db, &ps, true);
        let selectable = selectable_of(&groups);
        let stored = stored_selection(db, now);
        let selected = keep_ids(&stored, &selectable);
        let target = LedgerService::day_target(db, now)?;
        let workday = SettingsService::is_workday(db, now);
        let v = AllocationBoardView {
            date: iso_date(now.day),
            workday,
            target_nanos: target.target_nanos,
            base_minutes: target.base_minutes,
            selected_task_ids: selected,
            groups,
            paused_groups,
        };
        assert(plans_in_order(db, ps@, choose|ord: Seq<usize>| plans_in_order(db, ps@, ord)));
        Ok(v)
    }

    /// Commits today's selection, replacing any earlier one; every id must be
    /// selectable now, else TaskNotAllocatable names the first that is not
    /// and nothing changes.
    pub fn commit(db: &mut Database, now: LocalTime, task_ids: &Vec<i64>) -> (r: Result<(), PlanError>)
        requires
            old(db).wf(),
        ensures
            final(db).wf(),
            exists|ps: Seq<PlanView>, ord: Seq<usize>, gs: Seq<AllocationGroup>|
                #![trigger plans_in_order(old(db), ps, ord), groups_shown(old(db), ps, false, gs)]
                plans_in_order(old(db), ps, ord) && groups_shown(old(db), ps, false, gs) && {
                    match first_outside(task_ids@, ids_of(gs)) {
                        Some(id) => r == Err::<(), PlanError>(PlanError::TaskNotAllocatable { task_id: id })
                            && *final(db) == *old(db),
                        None => r is Ok && *final(db) == (Database {
                            allocation: Some(TodayAllocation { date: now.day, task_ids: final(db).allocation->0.task_ids }),
                            ..*old(db)
                        }) && final(db).allocation->0.task_ids@ == task_ids@,
                    }
                },
    {
        let ps = PlanService::list(db);
        let groups = groups_of(db, &ps, false);
        let selectable = selectable_of(&groups);
        match first_outside_of(task_ids, &selectable) {
            Some(id) => {
                assert(plans_in_order(db, ps@, choose|ord: Seq<usize>| plans_in_order(db, ps@, ord)));
                return Err(PlanError::TaskNotAllocatable { task_id: id });
            },
            None => {},
        }
        let ghost before = *db;
        db.allocation = Some(TodayAllocation { date: now.day, task_ids: crate::settings::copy_vec(task_ids) });
        assert(plans_in_order(&before, ps@, choose|ord: Seq<usize>| plans_in_order(&before, ps@, ord)));
        Ok(())
    }

    /// Whether the main board should open by itself: in work mode, nothing
    /// committed for today, and either a manual switch into work mode or a
    /// workday.
    pub fn should_auto_open(db: &Database, now: LocalTime, work_mode: bool, manual: bool) -> (r: Result<bool, PlanError>)
        requires
            now.wf(),
        ensures
            r == Ok::<bool, PlanError>(work_mode
                && !(db.allocation matches Some(a) && a.date == now.day)
                && (manual || workday_for(db.settings, db.versions@, now.day as int))),
    {
        if !work_mode {
            return Ok(false);
        }
        let allocated = match &db.allocation {
            Some(a) => a.date == now.day,
            None => false,
        };
        if allocated {
            return Ok(false);
        }
        Ok(manual || SettingsService::is_workday(db, now))
    }
}

} // verus!
