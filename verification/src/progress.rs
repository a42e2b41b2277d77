//! Progress reporting on an append-only log: sub-goals completed and undone in
//! order, percent reports and corrections for tasks without sub-goals, the
//! current task, and the mini board. Task progress and daily amounts are always
//! derived from the log.

use vstd::prelude::*;
use crate::allocation::{contains_id, selection_of, stored_selection};
use crate::lifecycle::LifecycleService;
use crate::plans::{PlanError, PlanStatus, TaskStatus};
use crate::store::{
    find_live_task, find_plan, find_subgoal, has_plan_at, has_subgoal_at, live_task_at, no_live_task, no_subgoal,
    Database, LogRow, SubGoalRow, TaskRow,
};
use crate::time::LocalTime;
use crate::views::{
    lemma_log_sum_bound, log_sum, log_sum_of, plans_in_order, progress_at, progress_complete, progress_of,
    subgoal_views, subgoals_shown, PlanView, SubGoalView, TaskProgress, TaskView,
};
use crate::plans::{PlanService, Priority};
use crate::ledger::{day_actual, minutes_on, target_on, LedgerService};
use crate::settings_service::{day_minutes, workday_for, SettingsService};

verus! {

/// Where a progress event comes from.
#[derive(Clone, Copy, Debug, PartialEq, Eq, Structural)]
pub enum ProgressSource {
    /// A sub-goal completed in order (+ its minutes).
    SubGoal,
    /// A completed sub-goal undone (- its minutes).
    SubGoalUndo,
    /// A percent report on a task without sub-goals.
    Percent,
    /// A correction that sets the total progress.
    Correction,
}

/// Stored text of a progress source.
pub open spec fn source_text(s: ProgressSource) -> Seq<char> {
    match s {
        ProgressSource::SubGoal => "SubGoal"@,
        ProgressSource::SubGoalUndo => "SubGoalUndo"@,
        ProgressSource::Percent => "Percent"@,
        ProgressSource::Correction => "Correction"@,
    }
}

impl ProgressSource {
    /// Stored text of the source.
    pub fn as_db(self) -> (r: &'static str)
        ensures
            r@ == source_text(self),
    {
        match self {
            ProgressSource::SubGoal => "SubGoal",
            ProgressSource::SubGoalUndo => "SubGoalUndo",
            ProgressSource::Percent => "Percent",
            ProgressSource::Correction => "Correction",
        }
    }
}

/// Reporting needs an active plan and an unfinished task.
pub open spec fn reportable_spec(plan_status: PlanStatus, task_status: TaskStatus) -> Result<(), PlanError> {
    if plan_status != PlanStatus::Active {
        Err(PlanError::PlanStatusInvalid { from: plan_status })
    } else if task_status == TaskStatus::Completed {
        Err(PlanError::ProgressLocked)
    } else {
        Ok(())
    }
}

/// Reporting needs an active plan and an unfinished task.
pub fn check_reportable(plan_status: PlanStatus, task_status: TaskStatus) -> (r: Result<(), PlanError>)
    ensures
        r == reportable_spec(plan_status, task_status),
{
    if plan_status != PlanStatus::Active {
        return Err(PlanError::PlanStatusInvalid { from: plan_status });
    }
    if task_status == TaskStatus::Completed {
        return Err(PlanError::ProgressLocked);
    }
    Ok(())
}

/// Percent reports and corrections are for tasks without sub-goals.
pub fn check_percent_task(has_subgoals: bool) -> (r: Result<(), PlanError>)
    ensures
        r == (if has_subgoals { Err(PlanError::NotPercentTask) } else { Ok(()) }),
{
    if has_subgoals {
        return Err(PlanError::NotPercentTask);
    }
    Ok(())
}

/// Progress reads and reports.
pub struct ProgressService;

/// Task row `i` and plan row `pi` are the reporting context of task `id`: a live
/// task and the plan it belongs to.
pub open spec fn task_ctx(db: &Database, id: i64, i: int, pi: int) -> bool {
    live_task_at(db, id, i) && has_plan_at(db, db.tasks@[i].plan_id, pi)
}

/// Task `id` has a reporting context.
pub open spec fn has_ctx(db: &Database, id: i64) -> bool {
    exists|i: int, pi: int| #[trigger] task_ctx(db, id, i, pi)
}

/// Status after a report: a task whose progress (in the store after the report)
/// reaches 100% is completed; otherwise a task not started becomes active.
pub open spec fn settled_status(after: &Database, t: TaskRow) -> TaskStatus {
    if progress_complete(progress_of(after, t)) {
        TaskStatus::Completed
    } else if t.status == TaskStatus::NotStarted {
        TaskStatus::Active
    } else {
        t.status
    }
}

/// `new` is `old` with `entry` appended to the log and, when `settle`, task row
/// `i` settled; the sub-goals are stated by the caller.
pub open spec fn report_applied(old: &Database, new: &Database, i: int, entry: LogRow, settle: bool) -> bool {
    &&& new.log@ == old.log@.push(entry)
    &&& new.next_log_id == old.next_log_id + 1
    &&& new.tasks@ == if settle {
            old.tasks@.update(i, TaskRow { status: settled_status(new, old.tasks@[i]), ..old.tasks@[i] })
        } else {
            old.tasks@
        }
    &&& new.plans@ == old.plans@
    &&& new.deps@ == old.deps@
    &&& new.settings == old.settings
    &&& new.versions@ == old.versions@
    &&& new.allocation == old.allocation
    &&& new.current_task == old.current_task
    &&& new.summary_shown@ == old.summary_shown@
    &&& new.settings_updated_at == old.settings_updated_at
    &&& new.next_plan_id == old.next_plan_id
    &&& new.next_task_id == old.next_task_id
    &&& new.next_subgoal_id == old.next_subgoal_id
}

/// A sub-goal of task `tid` before position `pos` is still open.
pub open spec fn earlier_open(db: &Database, tid: i64, pos: i32) -> bool {
    exists|k: int| 0 <= k < db.subgoals@.len() && {
        let g = #[trigger] db.subgoals@[k];
        g.task_id == tid && g.completed_at is None && g.position < pos
    }
}

/// A sub-goal of task `tid` after position `pos` is completed.
pub open spec fn later_done(db: &Database, tid: i64, pos: i32) -> bool {
    exists|k: int| 0 <= k < db.subgoals@.len() && {
        let g = #[trigger] db.subgoals@[k];
        g.task_id == tid && g.completed_at is Some && g.position > pos
    }
}

/// The reporting context of task `id`: its row and its plan's row.
fn load_task_context(db: &Database, id: i64) -> (r: Result<(usize, usize), PlanError>)
    requires
        db.wf(),
    ensures
        match r {
            Ok((i, pi)) => task_ctx(db, id, i as int, pi as int)
                && forall|j: int, pj: int| #[trigger] task_ctx(db, id, j, pj) ==> j == i && pj == pi,
            Err(e) => e == PlanError::NotFound && !has_ctx(db, id),
        },
{
    let i = match find_live_task(db, id) {
        Some(i) => i,
        None => {
            assert(!has_ctx(db, id));
            return Err(PlanError::NotFound);
        },
    };
    proof {
        assert forall|j: int| live_task_at(db, id, j) implies j == i by {
            if j != i {
                if j < i {
                    assert(db.tasks@[j].id != db.tasks@[i as int].id);
                } else {
                    assert(db.tasks@[i as int].id != db.tasks@[j].id);
                }
            }
        }
    }
    let plan_id = db.tasks[i].plan_id;
    match find_plan(db, plan_id) {
        Some(pi) => {
            proof {
                assert forall|j: int, pj: int| #[trigger] task_ctx(db, id, j, pj) implies j == i && pj == pi by {
                    assert(j == i);
                    if pj != pi {
                        if pj < pi {
                            assert(db.plans@[pj].id != db.plans@[pi as int].id);
                        } else {
                            assert(db.plans@[pi as int].id != db.plans@[pj].id);
                        }
                    }
                }
            }
            Ok((i, pi))
        },
        None => {
            assert(!has_ctx(db, id));
            Err(PlanError::NotFound)
        },
    }
}

/// Position of the sub-goal `id`, unique.
fn load_subgoal(db: &Database, id: i64) -> (r: Option<usize>)
    requires
        db.wf(),
    ensures
        match r {
            Some(s) => has_subgoal_at(db, id, s as int) && forall|j: int| #[trigger] has_subgoal_at(db, id, j) ==> j == s,
            None => no_subgoal(db, id),
        },
{
    let r = find_subgoal(db, id);
    match r {
        Some(s) => {
            proof {
                assert forall|j: int| #[trigger] has_subgoal_at(db, id, j) implies j == s by {
                    if j != s {
                        if j < s {
                            assert(db.subgoals@[j].id != db.subgoals@[s as int].id);
                        } else {
                            assert(db.subgoals@[s as int].id != db.subgoals@[j].id);
                        }
                    }
                }
            }
        },
        None => {},
    }
    r
}

fn earlier_open_in(db: &Database, tid: i64, pos: i32) -> (r: bool)
    ensures
        r == earlier_open(db, tid, pos),
{
    let n = db.subgoals.len();
    let mut k: usize = 0;
    while k < n
        invariant
            n == db.subgoals@.len(),
            k <= n,
            forall|q: int| 0 <= q < k ==> !({
                let g = #[trigger] db.subgoals@[q];
                g.task_id == tid && g.completed_at is None && g.position < pos
            }),
        decreases n - k,
    {
        let g = &db.subgoals[k];
        if g.task_id == tid && g.completed_at.is_none() && g.position < pos {
            return true;
        }
        k = k + 1;
    }
    false
}

fn later_done_in(db: &Database, tid: i64, pos: i32) -> (r: bool)
    ensures
        r == later_done(db, tid, pos),
{
    let n = db.subgoals.len();
    let mut k: usize = 0;
    while k < n
        invariant
            n == db.subgoals@.len(),
            k <= n,
            forall|q: int| 0 <= q < k ==> !({
                let g = #[trigger] db.subgoals@[q];
                g.task_id == tid && g.completed_at is Some && g.position > pos
            }),
        decreases n - k,
    {
        let g = &db.subgoals[k];
        if g.task_id == tid && g.completed_at.is_some() && g.position > pos {
            return true;
        }
        k = k + 1;
    }
    false
}

/// Appends `entry` to the log and, when `settle`, settles task row `i`: a task
/// not started becomes active, and one whose progress reached 100% completed.
fn record(db: &mut Database, i: usize, entry: LogRow, settle: bool) -> (r: Result<TaskStatus, PlanError>)
    requires
        old(db).wf(),
        i < old(db).tasks@.len(),
        old(db).tasks@[i as int].deleted_at is None,
        entry.task_id == old(db).tasks@[i as int].id,
        entry.id == old(db).next_log_id,
        entry.at.wf(),
        old(db).next_log_id < i64::MAX,
    ensures
        final(db).wf(),
        report_applied(old(db), final(db), i as int, entry, settle),
        r == Ok::<TaskStatus, PlanError>(if settle { settled_status(final(db), old(db).tasks@[i as int]) } else { old(db).tasks@[i as int].status }),
        final(db).subgoals@ == old(db).subgoals@,
{
    let ghost t = db.tasks@[i as int];
    db.log.push(entry);
    db.next_log_id = db.next_log_id + 1;
    if !settle {
        return Ok(db.tasks[i].status);
    }
    if db.tasks[i].status == TaskStatus::NotStarted {
        let ghost before = db.tasks@;
        let mut row = db.tasks.remove(i);
        row.status = TaskStatus::Active;
        db.tasks.insert(i, row);
        assert(db.tasks@ =~= before.update(i as int, (TaskRow { status: TaskStatus::Active, ..before[i as int] })));
        proof {
            assert forall|a: int, b: int| 0 <= a < b < db.tasks@.len() implies db.tasks@[a].id != db.tasks@[b].id by {
                assert(before[a].id != before[b].id);
            }
            assert forall|k: int| 0 <= k < db.tasks@.len() implies 1 <= (#[trigger] db.tasks@[k]).id < db.next_task_id by {
                assert(before[k].id == db.tasks@[k].id);
            }
        }
    }
    let ghost mid = *db;
    assert(live_task_at(&mid, t.id, i as int));
    let r = LifecycleService::sync_task_completion(db, entry.task_id);
    proof {
        let after = *db;
        assert(progress_of(&mid, mid.tasks@[i as int]) == progress_of(&after, t));
        if progress_complete(progress_of(&after, t)) {
            assert(db.tasks@ =~= old(db).tasks@.update(i as int, (TaskRow { status: TaskStatus::Completed, ..t })));
        } else {
            assert(db.tasks@ =~= old(db).tasks@.update(i as int, (TaskRow { status: settled_status(&after, t), ..t })));
        }
    }
    r
}

/// Estimate of a task in minutes (0 when it has none).
pub open spec fn total_of(t: TaskRow) -> int {
    match t.estimated_minutes {
        Some(m) => m as int,
        None => 0,
    }
}

/// Outcome of a percent report of `tenths` tenths of a percent on task `id`
/// (checked in this order): a percentage outside 0.1%–100%, a missing task, a
/// task with sub-goals, a plan not active or a completed task, a report that
/// would pass 100%, an exhausted log id; otherwise the report is logged
/// (`tenths` × estimate thousandths of a minute) and the task settled.
pub open spec fn percent_outcome(old: &Database, new: &Database, now: LocalTime, id: i64, tenths: u32, r: Result<TaskStatus, PlanError>) -> bool {
    if tenths < 1 || tenths > 1000 {
        r == Err::<TaskStatus, PlanError>(PlanError::PercentInvalid) && *new == *old
    } else if !has_ctx(old, id) {
        r == Err::<TaskStatus, PlanError>(PlanError::NotFound) && *new == *old
    } else {
        forall|i: int, pi: int| #[trigger] task_ctx(old, id, i, pi) ==> {
            let t = old.tasks@[i];
            let delta = tenths * total_of(t);
            if t.has_subgoals {
                r == Err::<TaskStatus, PlanError>(PlanError::NotPercentTask) && *new == *old
            } else if reportable_spec(old.plans@[pi].status, t.status) is Err {
                r == Err::<TaskStatus, PlanError>(reportable_spec(old.plans@[pi].status, t.status)->Err_0) && *new == *old
            } else if log_sum(old.log@, id) + delta > total_of(t) * 1000 {
                r == Err::<TaskStatus, PlanError>(PlanError::PercentOverflow) && *new == *old
            } else if old.next_log_id == i64::MAX {
                r matches Err(PlanError::Storage(_)) && *new == *old
            } else {
                &&& report_applied(old, new, i, LogRow { id: old.next_log_id, task_id: id, at: now, delta_milli: delta as i64, source: ProgressSource::Percent }, true)
                &&& new.subgoals@ == old.subgoals@
                &&& r == Ok::<TaskStatus, PlanError>(settled_status(new, t))
            }
        }
    }
}

/// Outcome of setting the total progress of task `id` to `tenths` tenths of a
/// percent (checked in this order): a percentage above 100%, a missing task, a
/// task with sub-goals, a completed task, a difference beyond the log's range
/// or an exhausted log id; otherwise the difference to the current progress is
/// logged, and the task settled unless the new value is zero. The plan's status
/// is not checked.
pub open spec fn correct_outcome(old: &Database, new: &Database, now: LocalTime, id: i64, tenths: u32, r: Result<TaskStatus, PlanError>) -> bool {
    if tenths > 1000 {
        r == Err::<TaskStatus, PlanError>(PlanError::PercentInvalid) && *new == *old
    } else if !has_ctx(old, id) {
        r == Err::<TaskStatus, PlanError>(PlanError::NotFound) && *new == *old
    } else {
        forall|i: int, pi: int| #[trigger] task_ctx(old, id, i, pi) ==> {
            let t = old.tasks@[i];
            let delta = tenths * total_of(t) - log_sum(old.log@, id);
            if t.has_subgoals {
                r == Err::<TaskStatus, PlanError>(PlanError::NotPercentTask) && *new == *old
            } else if t.status == TaskStatus::Completed {
                r == Err::<TaskStatus, PlanError>(PlanError::ProgressLocked) && *new == *old
            } else if delta < i64::MIN || delta > i64::MAX || old.next_log_id == i64::MAX {
                r matches Err(PlanError::Storage(_)) && *new == *old
            } else {
                &&& report_applied(old, new, i, LogRow { id: old.next_log_id, task_id: id, at: now, delta_milli: delta as i64, source: ProgressSource::Correction }, tenths > 0)
                &&& new.subgoals@ == old.subgoals@
                &&& r == Ok::<TaskStatus, PlanError>(if tenths > 0 { settled_status(new, t) } else { t.status })
            }
        }
    }
}

/// Outcome of completing sub-goal `sid` (checked in this order): a missing
/// sub-goal or task, a plan not active or a completed task, a sub-goal already
/// completed or with an open one before it, an exhausted log id; otherwise the
/// sub-goal is marked completed at `now`, its minutes logged and the task settled.
pub open spec fn complete_outcome(old: &Database, new: &Database, now: LocalTime, sid: i64, r: Result<TaskStatus, PlanError>) -> bool {
    if no_subgoal(old, sid) {
        r == Err::<TaskStatus, PlanError>(PlanError::NotFound) && *new == *old
    } else {
        forall|s: int| #[trigger] has_subgoal_at(old, sid, s) ==> {
            let g = old.subgoals@[s];
            if !has_ctx(old, g.task_id) {
                r == Err::<TaskStatus, PlanError>(PlanError::NotFound) && *new == *old
            } else {
                forall|i: int, pi: int| #[trigger] task_ctx(old, g.task_id, i, pi) ==> {
                    if reportable_spec(old.plans@[pi].status, old.tasks@[i].status) is Err {
                        r == Err::<TaskStatus, PlanError>(reportable_spec(old.plans@[pi].status, old.tasks@[i].status)->Err_0) && *new == *old
                    } else if g.completed_at is Some || earlier_open(old, g.task_id, g.position) {
                        r == Err::<TaskStatus, PlanError>(PlanError::SubGoalOutOfOrder) && *new == *old
                    } else if old.next_log_id == i64::MAX {
                        r matches Err(PlanError::Storage(_)) && *new == *old
                    } else {
                        &&& new.subgoals@ == old.subgoals@.update(s, SubGoalRow { completed_at: Some(now), ..g })
                        &&& report_applied(old, new, i, LogRow {
                                id: old.next_log_id, task_id: g.task_id, at: now,
                                delta_milli: (g.estimated_minutes * 1000) as i64, source: ProgressSource::SubGoal }, true)
                        &&& r == Ok::<TaskStatus, PlanError>(settled_status(new, old.tasks@[i]))
                    }
                }
            }
        }
    }
}

/// Outcome of undoing sub-goal `sid` (checked in this order): a missing
/// sub-goal or task, a plan not active or a completed task, a sub-goal not
/// completed, a later sub-goal still completed, an exhausted log id; otherwise
/// the sub-goal is reopened and its minutes logged back (negative).
pub open spec fn undo_outcome(old: &Database, new: &Database, now: LocalTime, sid: i64, r: Result<(), PlanError>) -> bool {
    if no_subgoal(old, sid) {
        r == Err::<(), PlanError>(PlanError::NotFound) && *new == *old
    } else {
        forall|s: int| #[trigger] has_subgoal_at(old, sid, s) ==> {
            let g = old.subgoals@[s];
            if !has_ctx(old, g.task_id) {
                r == Err::<(), PlanError>(PlanError::NotFound) && *new == *old
            } else {
                forall|i: int, pi: int| #[trigger] task_ctx(old, g.task_id, i, pi) ==> {
                    if reportable_spec(old.plans@[pi].status, old.tasks@[i].status) is Err {
                        r == reportable_spec(old.plans@[pi].status, old.tasks@[i].status) && *new == *old
                    } else if g.completed_at is None {
                        r == Err::<(), PlanError>(PlanError::SubGoalNotCompleted) && *new == *old
                    } else if later_done(old, g.task_id, g.position) {
                        r == Err::<(), PlanError>(PlanError::SubGoalOutOfOrder) && *new == *old
                    } else if old.next_log_id == i64::MAX {
                        r matches Err(PlanError::Storage(_)) && *new == *old
                    } else {
                        &&& new.subgoals@ == old.subgoals@.update(s, SubGoalRow { completed_at: None, ..g })
                        &&& report_applied(old, new, i, LogRow {
                                id: old.next_log_id, task_id: g.task_id, at: now,
                                delta_milli: (-(g.estimated_minutes * 1000)) as i64, source: ProgressSource::SubGoalUndo }, false)
                        &&& r == Ok::<(), PlanError>(())
                    }
                }
            }
        }
    }
}

/// Outcome of choosing task `id` as the current task (checked in this order):
/// not in today's selection, missing, plan not active, task completed;
/// otherwise it becomes the current task.
pub open spec fn current_outcome(old: &Database, new: &Database, now: LocalTime, id: i64, r: Result<(), PlanError>) -> bool {
    if !selection_of(old, now.day as int).contains(id) {
        r == Err::<(), PlanError>(PlanError::TaskNotInToday { task_id: id }) && *new == *old
    } else if !has_ctx(old, id) {
        r == Err::<(), PlanError>(PlanError::NotFound) && *new == *old
    } else {
        forall|i: int, pi: int| #[trigger] task_ctx(old, id, i, pi) ==> {
            if old.plans@[pi].status != PlanStatus::Active {
                r == Err::<(), PlanError>(PlanError::PlanStatusInvalid { from: old.plans@[pi].status }) && *new == *old
            } else if old.tasks@[i].status == TaskStatus::Completed {
                r == Err::<(), PlanError>(PlanError::ProgressLocked) && *new == *old
            } else {
                r == Ok::<(), PlanError>(()) && *new == (Database { current_task: Some(id), ..*old })
            }
        }
    }
}

/// The sub-goal row at `s` with its completion time replaced.
fn set_subgoal_done(db: &mut Database, s: usize, at: Option<LocalTime>)
    requires
        old(db).wf(),
        s < old(db).subgoals@.len(),
    ensures
        final(db).wf(),
        *final(db) == (Database { subgoals: final(db).subgoals, ..*old(db) }),
        final(db).subgoals@ == old(db).subgoals@.update(s as int, (SubGoalRow { completed_at: at, ..old(db).subgoals@[s as int] })),
{
    let ghost before = db.subgoals@;
    let mut row = db.subgoals.remove(s);
    row.completed_at = at;
    db.subgoals.insert(s, row);
    assert(db.subgoals@ =~= before.update(s as int, (SubGoalRow { completed_at: at, ..before[s as int] })));
    proof {
        assert forall|a: int, b: int| 0 <= a < b < db.subgoals@.len() implies db.subgoals@[a].id != db.subgoals@[b].id by {
            assert(before[a].id != before[b].id);
        }
        assert forall|k: int| 0 <= k < db.subgoals@.len() implies 1 <= (#[trigger] db.subgoals@[k]).id < db.next_subgoal_id by {
            assert(before[k].id == db.subgoals@[k].id);
        }
        assert forall|k: int| 0 <= k < db.subgoals@.len() implies (#[trigger] db.subgoals@[k]).task_id < db.next_task_id by {
            assert(before[k].task_id == db.subgoals@[k].task_id);
        }
    }
}

impl ProgressService {
    /// Reports `tenths` tenths of a percent of progress on a task without
    /// sub-goals (see `percent_outcome`); returns the task's status.
    pub fn report_percent(db: &mut Database, now: LocalTime, task_id: i64, tenths: u32) -> (r: Result<TaskStatus, PlanError>)
        requires
            old(db).wf(),
            now.wf(),
        ensures
            final(db).wf(),
            percent_outcome(old(db), final(db), now, task_id, tenths, r),
    {
        if tenths < 1 || tenths > 1000 {
            return Err(PlanError::PercentInvalid);
        }
        let (i, pi) = load_task_context(db, task_id)?;
        check_percent_task(db.tasks[i].has_subgoals)?;
        check_reportable(db.plans[pi].status, db.tasks[i].status)?;
        let total: u32 = match db.tasks[i].estimated_minutes {
            Some(m) => m,
            None => 0,
        };
        assert(tenths * total <= 1000 * 0xffff_ffff) by (nonlinear_arith)
            requires
                tenths <= 1000,
        ;
        let delta: i64 = tenths as i64 * total as i64;
        let current = log_sum_of(&db.log, task_id);
        let nl = db.log.len();
        proof {
            lemma_log_sum_bound(db.log@, task_id);
            assert((db.log@.len() as int) * 0x8000_0000_0000_0000 <= 0xffff_ffff_ffff_ffff * 0x8000_0000_0000_0000) by (nonlinear_arith)
                requires
                    db.log@.len() <= 0xffff_ffff_ffff_ffff,
            ;
        }
        if current + delta as i128 > total as i128 * 1000 {
            return Err(PlanError::PercentOverflow);
        }
        if db.next_log_id == i64::MAX {
            return Err(PlanError::Storage("进度日志编号已用尽".to_string()));
        }
        let entry = LogRow { id: db.next_log_id, task_id, at: now, delta_milli: delta, source: ProgressSource::Percent };
        record(db, i, entry, true)
    }

    /// Sets the total progress of a task without sub-goals to `tenths` tenths of
    /// a percent (see `correct_outcome`); returns the task's status.
    pub fn correct_total(db: &mut Database, now: LocalTime, task_id: i64, tenths: u32) -> (r: Result<TaskStatus, PlanError>)
        requires
            old(db).wf(),
            now.wf(),
        ensures
            final(db).wf(),
            correct_outcome(old(db), final(db), now, task_id, tenths, r),
    {
        if tenths > 1000 {
            return Err(PlanError::PercentInvalid);
        }
        let (i, pi) = load_task_context(db, task_id)?;
        check_percent_task(db.tasks[i].has_subgoals)?;
        if db.tasks[i].status == TaskStatus::Completed {
            return Err(PlanError::ProgressLocked);
        }
        let total: u32 = match db.tasks[i].estimated_minutes {
            Some(m) => m,
            None => 0,
        };
        assert(tenths * total <= 1000 * 0xffff_ffff) by (nonlinear_arith)
            requires
                tenths <= 1000,
        ;
        let target: i128 = tenths as i128 * total as i128;
        let current = log_sum_of(&db.log, task_id);
        let nl = db.log.len();
        proof {
            lemma_log_sum_bound(db.log@, task_id);
            assert((db.log@.len() as int) * 0x8000_0000_0000_0000 <= 0xffff_ffff_ffff_ffff * 0x8000_0000_0000_0000) by (nonlinear_arith)
                requires
                    db.log@.len() <= 0xffff_ffff_ffff_ffff,
            ;
        }
        let delta: i128 = target - current;
        if delta < i64::MIN as i128 || delta > i64::MAX as i128 || db.next_log_id == i64::MAX {
            return Err(PlanError::Storage("进度日志数值越界".to_string()));
        }
        let entry = LogRow { id: db.next_log_id, task_id, at: now, delta_milli: delta as i64, source: ProgressSource::Correction };
        let settle = tenths > 0;
        record(db, i, entry, settle)
    }

    /// Completes a sub-goal in order (see `complete_outcome`); returns the
    /// task's status.
    pub fn complete_subgoal(db: &mut Database, now: LocalTime, subgoal_id: i64) -> (r: Result<TaskStatus, PlanError>)
        requires
            old(db).wf(),
            now.wf(),
        ensures
            final(db).wf(),
            complete_outcome(old(db), final(db), now, subgoal_id, r),
    {
        let s = match load_subgoal(db, subgoal_id) {
            Some(s) => s,
            None => return Err(PlanError::NotFound),
        };
        let tid = db.subgoals[s].task_id;
        let pos = db.subgoals[s].position;
        let (i, pi) = load_task_context(db, tid)?;
        check_reportable(db.plans[pi].status, db.tasks[i].status)?;
        if db.subgoals[s].completed_at.is_some() || earlier_open_in(db, tid, pos) {
            return Err(PlanError::SubGoalOutOfOrder);
        }
        if db.next_log_id == i64::MAX {
            return Err(PlanError::Storage("进度日志编号已用尽".to_string()));
        }
        let delta: i64 = db.subgoals[s].estimated_minutes as i64 * 1000;
        set_subgoal_done(db, s, Some(now));
        let entry = LogRow { id: db.next_log_id, task_id: tid, at: now, delta_milli: delta, source: ProgressSource::SubGoal };
        record(db, i, entry, true)
    }

    /// Undoes the latest completed sub-goal (see `undo_outcome`).
    pub fn undo_subgoal(db: &mut Database, now: LocalTime, subgoal_id: i64) -> (r: Result<(), PlanError>)
        requires
            old(db).wf(),
            now.wf(),
        ensures
            final(db).wf(),
            undo_outcome(old(db), final(db), now, subgoal_id, r),
    {
        let s = match load_subgoal(db, subgoal_id) {
            Some(s) => s,
            None => return Err(PlanError::NotFound),
        };
        let tid = db.subgoals[s].task_id;
        let pos = db.subgoals[s].position;
        let (i, pi) = load_task_context(db, tid)?;
        check_reportable(db.plans[pi].status, db.tasks[i].status)?;
        if db.subgoals[s].completed_at.is_none() {
            return Err(PlanError::SubGoalNotCompleted);
        }
        if later_done_in(db, tid, pos) {
            return Err(PlanError::SubGoalOutOfOrder);
        }
        if db.next_log_id == i64::MAX {
            return Err(PlanError::Storage("进度日志编号已用尽".to_string()));
        }
        let delta: i64 = -(db.subgoals[s].estimated_minutes as i64 * 1000);
        set_subgoal_done(db, s, None);
        let entry = LogRow { id: db.next_log_id, task_id: tid, at: now, delta_milli: delta, source: ProgressSource::SubGoalUndo };
        let _ = record(db, i, entry, false);
        Ok(())
    }

    /// Chooses the current task (see `current_outcome`).
    pub fn set_current_task(db: &mut Database, now: LocalTime, task_id: i64) -> (r: Result<(), PlanError>)
        requires
            old(db).wf(),
        ensures
            final(db).wf(),
            current_outcome(old(db), final(db), now, task_id, r),
    {
        let selection = stored_selection(db, now);
        if !contains_id(&selection, task_id) {
            return Err(PlanError::TaskNotInToday { task_id });
        }
        let (i, pi) = load_task_context(db, task_id)?;
        if db.plans[pi].status != PlanStatus::Active {
            return Err(PlanError::PlanStatusInvalid { from: db.plans[pi].status });
        }
        if db.tasks[i].status == TaskStatus::Completed {
            return Err(PlanError::ProgressLocked);
        }
        db.current_task = Some(task_id);
        Ok(())
    }
}

/// The current task as shown on the mini board.
#[derive(Debug, Clone, PartialEq, Eq)]
pub struct CurrentTaskView {
    pub task_id: i64,
    pub plan_id: i64,
    pub plan_name: String,
    pub task_name: String,
    /// Completed stays shown ("task complete") until another task is chosen.
    pub status: TaskStatus,
    pub has_subgoals: bool,
    /// Progress in tenths of a percent, rounded to the nearest tenth.
    pub percent_tenths: i128,
    /// Completed thousandths of a minute.
    pub completed_milli: i128,
    pub total_minutes: u32,
    /// The task's sub-goals by position (empty for a task without sub-goals).
    pub subgoals: Vec<SubGoalView>,
}

/// One candidate task for switching.
#[derive(Debug, Clone, PartialEq, Eq)]
pub struct PickerTask {
    pub id: i64,
    pub name: String,
}

/// Candidates for switching, grouped by plan.
#[derive(Debug, Clone, PartialEq, Eq)]
pub struct PickerGroup {
    pub plan_id: i64,
    pub plan_name: String,
    pub priority: Priority,
    pub tasks: Vec<PickerTask>,
}

/// The mini board.
#[derive(Debug, Clone, PartialEq, Eq)]
pub struct MiniBoardView {
    /// The current task (`None` when unset or no longer valid).
    pub current: Option<CurrentTaskView>,
    /// Net progress attributed to today (thousandths of a minute).
    pub today_milli: i128,
    /// Today's adjusted target (nanominutes).
    pub target_nanos: i128,
    /// Today's base (daily work minutes).
    pub base_minutes: u32,
    /// Whether today is a workday.
    pub workday: bool,
    /// Switching candidates; the current task's plan comes first.
    pub pickers: Vec<PickerGroup>,
}

/// `r` is the progress percentage in tenths, rounded to the nearest tenth with
/// halves away from zero (0 for a zero total).
pub open spec fn tenths_of(p: TaskProgress, r: int) -> bool {
    &&& p.total_minutes == 0 ==> r == 0
    &&& p.total_minutes > 0 && p.completed_milli >= 0 ==>
            2 * r * p.total_minutes - p.total_minutes <= 2 * p.completed_milli
            && 2 * p.completed_milli < 2 * r * p.total_minutes + p.total_minutes
    &&& p.total_minutes > 0 && p.completed_milli < 0 ==>
            2 * r * p.total_minutes - p.total_minutes < 2 * p.completed_milli
            && 2 * p.completed_milli <= 2 * r * p.total_minutes + p.total_minutes
}

/// What the mini board shows as the current task: the stored task when it is
/// live, its plan is active and it is in today's selection; nothing otherwise.
pub open spec fn current_shown(db: &Database, now: LocalTime, r: Option<CurrentTaskView>) -> bool {
    match db.current_task {
        None => r is None,
        Some(id) => if !has_ctx(db, id) {
            r is None
        } else {
            forall|i: int, pi: int| #[trigger] task_ctx(db, id, i, pi) ==> {
                let t = db.tasks@[i];
                let p = db.plans@[pi];
                let pr = progress_of(db, t);
                if p.status != PlanStatus::Active || !selection_of(db, now.day as int).contains(id) {
                    r is None
                } else {
                    r matches Some(v) && {
                        &&& v.task_id == id
                        &&& v.plan_id == p.id
                        &&& v.plan_name@ == p.name@
                        &&& v.task_name@ == t.name@
                        &&& v.status == t.status
                        &&& v.has_subgoals == t.has_subgoals
                        &&& v.completed_milli == pr.completed_milli
                        &&& v.total_minutes == pr.total_minutes
                        &&& tenths_of(pr, v.percent_tenths as int)
                        &&& if t.has_subgoals { subgoals_shown(db, id, v.subgoals@) } else { v.subgoals@.len() == 0 }
                    }
                }
            }
        },
    }
}

/// A task offered for switching: unfinished and in today's selection.
pub open spec fn pickable(t: TaskView, sel: Seq<i64>) -> bool {
    t.status != TaskStatus::Completed && sel.contains(t.id)
}

/// The pickable tasks among `ts`, in order.
pub open spec fn pickable_tasks(ts: Seq<TaskView>, sel: Seq<i64>) -> Seq<TaskView>
    decreases ts.len(),
{
    if ts.len() == 0 {
        Seq::empty()
    } else {
        let r = pickable_tasks(ts.drop_last(), sel);
        if pickable(ts.last(), sel) { r.push(ts.last()) } else { r }
    }
}

/// Active plans among `ps` with a pickable task, in order.
pub open spec fn picker_plans(ps: Seq<PlanView>, sel: Seq<i64>) -> Seq<PlanView>
    decreases ps.len(),
{
    if ps.len() == 0 {
        Seq::empty()
    } else {
        let r = picker_plans(ps.drop_last(), sel);
        let p = ps.last();
        if p.status == PlanStatus::Active && pickable_tasks(p.tasks@, sel).len() > 0 { r.push(p) } else { r }
    }
}

/// Index of the first plan with id `id` in `ps` from `k` on.
pub open spec fn index_of_plan(ps: Seq<PlanView>, id: i64, k: int) -> Option<int>
    decreases ps.len() - k,
{
    if k < 0 || k >= ps.len() {
        None
    } else if ps[k].id == id {
        Some(k)
    } else {
        index_of_plan(ps, id, k + 1)
    }
}

/// `ps` with the plan with id `first` (if any) moved to the front.
pub open spec fn first_plan_first(ps: Seq<PlanView>, first: Option<i64>) -> Seq<PlanView> {
    match first {
        None => ps,
        Some(f) => match index_of_plan(ps, f, 0) {
            None => ps,
            Some(i) => seq![ps[i]] + ps.subrange(0, i) + ps.subrange(i + 1, ps.len() as int),
        },
    }
}

/// `g` shows plan `p` with its pickable tasks.
pub open spec fn picker_group_of(p: PlanView, sel: Seq<i64>, g: PickerGroup) -> bool {
    &&& g.plan_id == p.id
    &&& g.plan_name@ == p.name@
    &&& g.priority == p.priority
    &&& g.tasks@.len() == pickable_tasks(p.tasks@, sel).len()
    &&& forall|j: int| 0 <= j < g.tasks@.len() ==> {
            &&& (#[trigger] g.tasks@[j]).id == pickable_tasks(p.tasks@, sel)[j].id
            &&& g.tasks@[j].name@ == pickable_tasks(p.tasks@, sel)[j].name@
        }
}

/// `gs` are the switching candidates over the plan list `ps`.
pub open spec fn pickers_shown(ps: Seq<PlanView>, sel: Seq<i64>, first: Option<i64>, gs: Seq<PickerGroup>) -> bool {
    let order = first_plan_first(picker_plans(ps, sel), first);
    &&& gs.len() == order.len()
    &&& forall|k: int| 0 <= k < gs.len() ==> picker_group_of(order[k], sel, #[trigger] gs[k])
}

/// The current task, if still valid.
fn current_view(db: &Database, now: LocalTime) -> (r: Option<CurrentTaskView>)
    requires
        db.wf(),
    ensures
        current_shown(db, now, r),
{
    let id = match db.current_task {
        Some(id) => id,
        None => return None,
    };
    let (i, pi) = match load_task_context(db, id) {
        Ok(c) => c,
        Err(_) => return None,
    };
    let selection = stored_selection(db, now);
    if db.plans[pi].status != PlanStatus::Active || !contains_id(&selection, id) {
        return None;
    }
    let t = &db.tasks[i];
    let p = &db.plans[pi];
    let progress = progress_at(db, i);
    let percent_tenths = progress.percent_tenths();
    let subgoals = if t.has_subgoals { subgoal_views(db, id) } else { Vec::new() };
    Some(CurrentTaskView {
        task_id: id,
        plan_id: p.id,
        plan_name: p.name.clone(),
        task_name: t.name.clone(),
        status: t.status,
        has_subgoals: t.has_subgoals,
        percent_tenths,
        completed_milli: progress.completed_milli,
        total_minutes: progress.total_minutes,
        subgoals,
    })
}

/// The pickable tasks of one plan, shown.
fn picker_tasks(ts: &Vec<TaskView>, sel: &Vec<i64>) -> (r: Vec<PickerTask>)
    ensures
        r@.len() == pickable_tasks(ts@, sel@).len(),
        forall|j: int| 0 <= j < r@.len() ==> {
            &&& (#[trigger] r@[j]).id == pickable_tasks(ts@, sel@)[j].id
            &&& r@[j].name@ == pickable_tasks(ts@, sel@)[j].name@
        },
{
    let n = ts.len();
    let mut r: Vec<PickerTask> = Vec::new();
    let mut k: usize = 0;
    while k < n
        invariant
            n == ts@.len(),
            k <= n,
            r@.len() == pickable_tasks(ts@.subrange(0, k as int), sel@).len(),
            forall|j: int| 0 <= j < r@.len() ==> {
                &&& (#[trigger] r@[j]).id == pickable_tasks(ts@.subrange(0, k as int), sel@)[j].id
                &&& r@[j].name@ == pickable_tasks(ts@.subrange(0, k as int), sel@)[j].name@
            },
        decreases n - k,
    {
        assert(ts@.subrange(0, k + 1).drop_last() =~= ts@.subrange(0, k as int));
        let t = &ts[k];
        if t.status != TaskStatus::Completed && contains_id(sel, t.id) {
            r.push(PickerTask { id: t.id, name: t.name.clone() });
        }
        k = k + 1;
    }
    assert(ts@.subrange(0, n as int) =~= ts@);
    r
}

/// Switching candidates over the plan list `ps`.
fn picker_groups(ps: &Vec<PlanView>, sel: &Vec<i64>, first: Option<i64>) -> (r: Vec<PickerGroup>)
    ensures
        pickers_shown(ps@, sel@, first, r@),
{
    let n = ps.len();
    let mut groups: Vec<PickerGroup> = Vec::new();
    let mut k: usize = 0;
    while k < n
        invariant
            n == ps@.len(),
            k <= n,
            groups@.len() == picker_plans(ps@.subrange(0, k as int), sel@).len(),
            forall|q: int| 0 <= q < groups@.len() ==> picker_group_of(picker_plans(ps@.subrange(0, k as int), sel@)[q], sel@, #[trigger] groups@[q]),
        decreases n - k,
    {
        assert(ps@.subrange(0, k + 1).drop_last() =~= ps@.subrange(0, k as int));
        let p = &ps[k];
        if p.status == PlanStatus::Active {
            let tasks = picker_tasks(&p.tasks, sel);
            if tasks.len() > 0 {
                let ghost before = groups@;
                groups.push(PickerGroup { plan_id: p.id, plan_name: p.name.clone(), priority: p.priority, tasks });
                proof {
                    let sp = picker_plans(ps@.subrange(0, k + 1), sel@);
                    assert forall|q: int| 0 <= q < groups@.len() implies picker_group_of(sp[q], sel@, #[trigger] groups@[q]) by {
                        if q < before.len() {
                            assert(groups@[q] == before[q]);
                        }
                    }
                }
            }
        }
        k = k + 1;
    }
    assert(ps@.subrange(0, n as int) =~= ps@);
    let ghost base = picker_plans(ps@, sel@);
    let f = match first {
        Some(f) => f,
        None => return groups,
    };
    let m = groups.len();
    let mut j: usize = 0;
    while j < m
        invariant
            m == groups@.len(),
            m == base.len(),
            j <= m,
            forall|q: int| 0 <= q < m ==> picker_group_of(base[q], sel@, #[trigger] groups@[q]),
            index_of_plan(base, f, 0) == index_of_plan(base, f, j as int),
            first == Some(f),
            base == picker_plans(ps@, sel@),
        decreases m - j,
    {
        assert(groups@[j as int].plan_id == base[j as int].id);
        if groups[j].plan_id == f {
            assert(index_of_plan(base, f, j as int) == Some(j as int));
            let ghost before = groups@;
            let g = groups.remove(j);
            groups.insert(0, g);
            proof {
                let order = seq![base[j as int]] + base.subrange(0, j as int) + base.subrange(j + 1, base.len() as int);
                assert(first_plan_first(base, first) == order);
                assert forall|q: int| 0 <= q < groups@.len() implies picker_group_of(order[q], sel@, #[trigger] groups@[q]) by {
                    if q == 0 {
                        assert(groups@[0] == before[j as int]);
                        assert(order[0] == base[j as int]);
                        assert(picker_group_of(base[j as int], sel@, before[j as int]));
                    } else if q <= j {
                        assert(order[q] == base[q - 1]);
                        assert(picker_group_of(base[q - 1], sel@, before[q - 1]));
                        assert(groups@[q] == before[q - 1]);
                    } else {
                        assert(groups@[q] == before[q]);
                        assert(order[q] == base[q]);
                        assert(picker_group_of(base[q], sel@, before[q]));
                    }
                }
                assert(groups@.len() == order.len());
                assert(pickers_shown(ps@, sel@, first, groups@));
            }
            return groups;
        }
        j = j + 1;
    }
    groups
}

impl ProgressService {
    /// The mini board for the day of `now` (Storage error when the ledger's
    /// amounts leave their range).
    pub fn board(db: &Database, now: LocalTime) -> (r: Result<MiniBoardView, PlanError>)
        requires
            db.wf(),
            now.wf(),
        ensures
            target_on(db, now.day as int) is None ==> r matches Err(PlanError::Storage(_)),
            target_on(db, now.day as int) matches Some(t) ==> (r matches Ok(v) && {
                &&& current_shown(db, now, v.current)
                &&& v.today_milli == day_actual(db.versions@, db.log@, now.day as int)
                &&& v.target_nanos == t
                &&& v.base_minutes == day_minutes(db.versions@, now.day as int)
                &&& v.workday == workday_for(db.settings, db.versions@, now.day as int)
                &&& exists|ps: Seq<PlanView>, ord: Seq<usize>| #[trigger] plans_in_order(db, ps, ord)
                        && pickers_shown(ps, selection_of(db, now.day as int),
                            match v.current { Some(c) => Some(c.plan_id), None => None }, v.pickers@)
            }),
    {
        let current = current_view(db, now);
        let target = LedgerService::day_target(db, now)?;
        let first = match &current {
            Some(c) => Some(c.plan_id),
            None => None,
        };
        let ps = PlanService::list(db);
        let selection = stored_selection(db, now);
        let pickers = picker_groups(&ps, &selection, first);
        let today_milli = minutes_on(db, now.day);
        let workday = SettingsService::is_workday(db, now);
        assert(plans_in_order(db, ps@, choose|ord: Seq<usize>| plans_in_order(db, ps@, ord)));
        Ok(MiniBoardView {
            current,
            today_milli,
            target_nanos: target.target_nanos,
            base_minutes: target.base_minutes,
            workday,
            pickers,
        })
    }
}

/// The stored current task is valid: it exists with its plan, the plan is
/// active and the task is in today's selection.
pub open spec fn current_valid(db: &Database, now: LocalTime) -> bool {
    match db.current_task {
        None => false,
        Some(id) => has_ctx(db, id) && forall|i: int, pi: int| #[trigger] task_ctx(db, id, i, pi) ==>
            db.plans@[pi].status == PlanStatus::Active && selection_of(db, now.day as int).contains(id),
    }
}

/// Whether the mini board shows at start-up: the mini board can be built, its
/// current task is valid, and `now` is work time.
pub fn board_visible_at_start(db: &Database, now: LocalTime) -> (r: bool)
    requires
        db.wf(),
        now.wf(),
    ensures
        r == (target_on(db, now.day as int) is Some && current_valid(db, now)
            && crate::settings_service::work_time_at(db.settings, db.versions@, now.day as int, now.minute as int)),
{
    let has_current = match ProgressService::board(db, now) {
        Ok(v) => v.current.is_some(),
        Err(_) => false,
    };
    proof {
        if let Some(id) = db.current_task {
            if has_ctx(db, id) {
                let (i, pi) = choose|i: int, pi: int| task_ctx(db, id, i, pi);
                assert(task_ctx(db, id, i, pi));
            }
        }
    }
    has_current && SettingsService::is_work_time(db, now)
}

/// The completed sub-goals of every task form a prefix by position: a
/// completed sub-goal has no open sub-goal of the same task before it.
pub open spec fn completed_prefix(rows: Seq<SubGoalRow>) -> bool {
    forall|a: int, b: int| 0 <= a < rows.len() && 0 <= b < rows.len()
        && rows[a].task_id == rows[b].task_id
        && (#[trigger] rows[b]).completed_at is Some
        && (#[trigger] rows[a]).position < rows[b].position
        ==> rows[a].completed_at is Some
}

/// Completing a sub-goal keeps the completed sub-goals a prefix.
pub proof fn lemma_complete_keeps_prefix(old: &Database, new: &Database, now: LocalTime, sid: i64, r: Result<TaskStatus, PlanError>)
    requires
        complete_outcome(old, new, now, sid, r),
        completed_prefix(old.subgoals@),
    ensures
        completed_prefix(new.subgoals@),
{
    if !no_subgoal(old, sid) {
        let s = choose|s: int| 0 <= s < old.subgoals@.len() && old.subgoals@[s].id == sid;
        assert(has_subgoal_at(old, sid, s));
        let g = old.subgoals@[s];
        if has_ctx(old, g.task_id) {
            let (i, pi) = choose|i: int, pi: int| #[trigger] task_ctx(old, g.task_id, i, pi);
            assert(task_ctx(old, g.task_id, i, pi));
            if new.subgoals@ != old.subgoals@ {
                let rows = new.subgoals@;
                assert(!earlier_open(old, g.task_id, g.position));
                assert(rows == old.subgoals@.update(s, SubGoalRow { completed_at: Some(now), ..g }));
                assert forall|a: int, b: int| 0 <= a < rows.len() && 0 <= b < rows.len()
                    && rows[a].task_id == rows[b].task_id
                    && (#[trigger] rows[b]).completed_at is Some
                    && (#[trigger] rows[a]).position < rows[b].position
                    implies rows[a].completed_at is Some by {
                    if a != s {
                        if b == s {
                            assert(old.subgoals@[a].task_id == g.task_id);
                            if old.subgoals@[a].completed_at is None {
                                assert(earlier_open(old, g.task_id, g.position));
                            }
                        } else {
                            assert(old.subgoals@[b].completed_at is Some);
                        }
                    }
                }
            }
        }
    }
}

/// Undoing a sub-goal keeps the completed sub-goals a prefix.
pub proof fn lemma_undo_keeps_prefix(old: &Database, new: &Database, now: LocalTime, sid: i64, r: Result<(), PlanError>)
    requires
        undo_outcome(old, new, now, sid, r),
        completed_prefix(old.subgoals@),
    ensures
        completed_prefix(new.subgoals@),
{
    if !no_subgoal(old, sid) {
        let s = choose|s: int| 0 <= s < old.subgoals@.len() && old.subgoals@[s].id == sid;
        assert(has_subgoal_at(old, sid, s));
        let g = old.subgoals@[s];
        if has_ctx(old, g.task_id) {
            let (i, pi) = choose|i: int, pi: int| #[trigger] task_ctx(old, g.task_id, i, pi);
            assert(task_ctx(old, g.task_id, i, pi));
            if new.subgoals@ != old.subgoals@ {
                let rows = new.subgoals@;
                assert(!later_done(old, g.task_id, g.position));
                assert(rows == old.subgoals@.update(s, SubGoalRow { completed_at: None, ..g }));
                assert forall|a: int, b: int| 0 <= a < rows.len() && 0 <= b < rows.len()
                    && rows[a].task_id == rows[b].task_id
                    && (#[trigger] rows[b]).completed_at is Some
                    && (#[trigger] rows[a]).position < rows[b].position
                    implies rows[a].completed_at is Some by {
                    assert(b != s);
                    assert(old.subgoals@[b].completed_at is Some);
                    if a == s {
                        assert(later_done(old, g.task_id, g.position));
                    }
                }
            }
        }
    }
}

/// A percent report never takes a task's logged progress past 100%.
pub proof fn lemma_report_within_total(old: &Database, new: &Database, now: LocalTime, id: i64, tenths: u32, r: Result<TaskStatus, PlanError>)
    requires
        percent_outcome(old, new, now, id, tenths, r),
        r is Ok,
    ensures
        forall|i: int, pi: int| #[trigger] task_ctx(old, id, i, pi) ==>
            log_sum(new.log@, id) <= total_of(old.tasks@[i]) * 1000,
{
    assert forall|i: int, pi: int| #[trigger] task_ctx(old, id, i, pi) implies
        log_sum(new.log@, id) <= total_of(old.tasks@[i]) * 1000 by {
        let t = old.tasks@[i];
        let delta = tenths * total_of(t);
        assert(delta <= 1000 * 0xffff_ffff) by (nonlinear_arith)
            requires
                tenths <= 1000,
                0 <= total_of(t) <= 0xffff_ffff,
                delta == tenths * total_of(t),
        ;
        assert(delta >= 0) by (nonlinear_arith)
            requires
                0 <= total_of(t),
                delta == tenths * total_of(t),
        ;
        assert(new.log@.drop_last() == old.log@);
    }
}

/// Undoing a sub-goal right after completing it restores the sub-goal rows,
/// and every task's logged net progress, to what they were before.
pub proof fn lemma_undo_reverts_complete(
    a: &Database,
    b: &Database,
    c: &Database,
    now1: LocalTime,
    now2: LocalTime,
    sid: i64,
    r1: Result<TaskStatus, PlanError>,
    r2: Result<(), PlanError>,
)
    requires
        a.wf(),
        b.wf(),
        complete_outcome(a, b, now1, sid, r1),
        r1 is Ok,
        undo_outcome(b, c, now2, sid, r2),
        r2 is Ok,
    ensures
        c.subgoals@ == a.subgoals@,
        forall|x: i64| #[trigger] log_sum(c.log@, x) == log_sum(a.log@, x),
{
    let s = choose|s: int| 0 <= s < a.subgoals@.len() && a.subgoals@[s].id == sid;
    assert(has_subgoal_at(a, sid, s));
    let g = a.subgoals@[s];
    let (i, pi) = choose|i: int, pi: int| #[trigger] task_ctx(a, g.task_id, i, pi);
    assert(task_ctx(a, g.task_id, i, pi));
    let e1 = LogRow { id: a.next_log_id, task_id: g.task_id, at: now1, delta_milli: (g.estimated_minutes * 1000) as i64, source: ProgressSource::SubGoal };
    assert(b.subgoals@ == a.subgoals@.update(s, SubGoalRow { completed_at: Some(now1), ..g }));
    assert(report_applied(a, b, i, e1, true));
    assert(g.completed_at is None);
    // The same sub-goal, now completed, in `b`.
    assert(has_subgoal_at(b, sid, s));
    let h = b.subgoals@[s];
    assert(h.task_id == g.task_id && h.position == g.position && h.estimated_minutes == g.estimated_minutes);
    assert(!no_subgoal(b, sid));
    assert(has_ctx(b, h.task_id));
    let (j, pj) = choose|j: int, pj: int| #[trigger] task_ctx(b, h.task_id, j, pj);
    assert(task_ctx(b, h.task_id, j, pj));
    let e2 = LogRow { id: b.next_log_id, task_id: h.task_id, at: now2, delta_milli: (-(h.estimated_minutes * 1000)) as i64, source: ProgressSource::SubGoalUndo };
    assert(c.subgoals@ == b.subgoals@.update(s, SubGoalRow { completed_at: None, ..h }));
    assert(report_applied(b, c, j, e2, false));
    assert(c.subgoals@ =~= a.subgoals@);
    assert(e1.delta_milli == g.estimated_minutes * 1000);
    assert(e2.delta_milli == -(g.estimated_minutes * 1000));
    assert(b.log@ == a.log@.push(e1));
    assert(c.log@ == b.log@.push(e2));
    assert forall|x: i64| #[trigger] log_sum(c.log@, x) == log_sum(a.log@, x) by {
        assert(c.log@.drop_last() =~= b.log@);
        assert(c.log@.last() == e2);
        assert(b.log@.drop_last() =~= a.log@);
        assert(b.log@.last() == e1);
        assert(log_sum(c.log@, x) == log_sum(b.log@, x) + if e2.task_id == x { e2.delta_milli as int } else { 0 });
        assert(log_sum(b.log@, x) == log_sum(a.log@, x) + if e1.task_id == x { e1.delta_milli as int } else { 0 });
    }
}


/// A correction is owed whatever the status of the task's plan: on a live task
/// without sub-goals that is not completed, a value of at most 100% is accepted
/// (while the difference fits a log entry and log ids remain), one correction
/// event for the difference is logged, and afterwards the task's logged
/// progress is exactly the value (`tenths` × estimate thousandths of a minute).
/// The task completes when the value is 100% of a non-zero estimate, starts
/// when it was not started and the value is above zero, and otherwise keeps its
/// status; a zero value leaves the status alone. The plan, paused or not, is
/// left as it was.
pub proof fn lemma_correction_owed_in_any_plan_status(old: &Database, new: &Database, now: LocalTime, id: i64,
    tenths: u32, r: Result<TaskStatus, PlanError>, i: int, pi: int)
    requires
        correct_outcome(old, new, now, id, tenths, r),
        tenths <= 1000,
        live_task_at(old, id, i),
        has_plan_at(old, old.tasks@[i].plan_id, pi),
        !old.tasks@[i].has_subgoals,
        old.tasks@[i].status != TaskStatus::Completed,
        i64::MIN <= tenths * total_of(old.tasks@[i]) - log_sum(old.log@, id) <= i64::MAX,
        old.next_log_id < i64::MAX,
    ensures
        r is Ok,
        new.log@.len() == old.log@.len() + 1,
        new.log@.last().task_id == id,
        new.log@.last().source == ProgressSource::Correction,
        new.log@.last().delta_milli == tenths * total_of(old.tasks@[i]) - log_sum(old.log@, id),
        log_sum(new.log@, id) == tenths * total_of(old.tasks@[i]),
        new.plans@ == old.plans@,
        ({
            let st = old.tasks@[i].status;
            let want = if tenths == 0 {
                st
            } else if tenths == 1000 && total_of(old.tasks@[i]) > 0 {
                TaskStatus::Completed
            } else if st == TaskStatus::NotStarted {
                TaskStatus::Active
            } else {
                st
            };
            &&& r == Ok::<TaskStatus, PlanError>(want)
            &&& new.tasks@[i].status == want
        }),
{
    assert(task_ctx(old, id, i, pi));
    assert(has_ctx(old, id));
    assert(new.log@.drop_last() =~= old.log@);
    let t = old.tasks@[i];
    let total = total_of(t);
    assert(0 <= total <= 0xffff_ffff);
    assert(tenths * total <= 1000 * 0xffff_ffff) by (nonlinear_arith)
        requires
            tenths <= 1000,
            0 <= total <= 0xffff_ffff,
    ;
    assert(total > 0 ==> (tenths * total >= total * 1000 <==> tenths >= 1000)) by (nonlinear_arith)
        requires
            total >= 0,
    ;
    assert(progress_of(new, t).completed_milli == tenths * total);
}

} // verus!
