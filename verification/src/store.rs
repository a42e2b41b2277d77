//! The stored tables: plans, tasks, sub-goals, dependency edges, today's
//! allocation, the progress log, the current task, the summary register and the
//! settings with their versions. Row identifiers are handed out per table,
//! starting at 1, never reused.

use vstd::prelude::*;
use crate::plans::{PauseReason, PlanStatus, Priority, TaskStatus};
use crate::progress::ProgressSource;
use crate::settings::{Settings, SettingsVersion, SENTINEL_EFFECTIVE, is_default_settings};
use crate::time::LocalTime;
use crate::windows::TimeWindow;

verus! {

/// A stored plan.
#[derive(Debug)]
pub struct PlanRow {
    pub id: i64,
    pub name: String,
    pub summary: String,
    pub detail: String,
    pub priority: Priority,
    pub due_date: Option<String>,
    pub status: PlanStatus,
    pub created_at: LocalTime,
    pub pause_reason: Option<PauseReason>,
}

/// A stored task; `deleted_at` set means archived (soft-deleted).
#[derive(Debug)]
pub struct TaskRow {
    pub id: i64,
    pub plan_id: i64,
    pub name: String,
    pub summary: String,
    pub detail: String,
    pub has_subgoals: bool,
    pub estimated_minutes: Option<u32>,
    pub position: i32,
    pub status: TaskStatus,
    pub deleted_at: Option<LocalTime>,
    pub created_at: LocalTime,
}

/// A stored sub-goal; `completed_at` set means completed.
#[derive(Debug)]
pub struct SubGoalRow {
    pub id: i64,
    pub task_id: i64,
    pub name: String,
    pub estimated_minutes: u32,
    pub position: i32,
    pub completed_at: Option<LocalTime>,
    pub created_at: LocalTime,
}

/// A dependency edge: the successor waits for the predecessor.
#[derive(Clone, Copy, Debug, PartialEq, Eq, Structural)]
pub struct DepEdge {
    pub predecessor_id: i64,
    pub successor_id: i64,
}

/// One progress event; `delta_milli` is in thousandths of a minute (negative for
/// undo and downward corrections).
#[derive(Clone, Copy, Debug, PartialEq, Eq)]
pub struct LogRow {
    pub id: i64,
    pub task_id: i64,
    pub at: LocalTime,
    pub delta_milli: i64,
    pub source: ProgressSource,
}

/// The single allocation row: the day it belongs to and the selected tasks.
#[derive(Debug)]
pub struct TodayAllocation {
    pub date: i64,
    pub task_ids: Vec<i64>,
}

/// A summary marked as shown.
#[derive(Clone, Copy, Debug, PartialEq, Eq)]
pub struct ShownRow {
    pub date: i64,
    pub shown_at: LocalTime,
}

/// The whole store.
#[derive(Debug)]
pub struct Database {
    /// Latest saved settings.
    pub settings: Settings,
    /// When the settings were last saved.
    pub settings_updated_at: Option<LocalTime>,
    /// Versions of the delayed settings fields.
    pub versions: Vec<SettingsVersion>,
    pub plans: Vec<PlanRow>,
    pub tasks: Vec<TaskRow>,
    pub subgoals: Vec<SubGoalRow>,
    pub deps: Vec<DepEdge>,
    pub allocation: Option<TodayAllocation>,
    pub log: Vec<LogRow>,
    pub current_task: Option<i64>,
    pub summary_shown: Vec<ShownRow>,
    pub next_plan_id: i64,
    pub next_task_id: i64,
    pub next_subgoal_id: i64,
    pub next_log_id: i64,
}

/// Plan ids are positive, below the next id, and distinct.
pub open spec fn plan_ids_ok(rows: Seq<PlanRow>, next: i64) -> bool {
    &&& forall|i: int| 0 <= i < rows.len() ==> 1 <= (#[trigger] rows[i]).id < next && rows[i].created_at.wf()
    &&& forall|i: int, j: int| 0 <= i < j < rows.len() ==> rows[i].id != rows[j].id
}

pub open spec fn task_ids_ok(rows: Seq<TaskRow>, next: i64) -> bool {
    &&& forall|i: int| 0 <= i < rows.len() ==> 1 <= (#[trigger] rows[i]).id < next
    &&& forall|i: int, j: int| 0 <= i < j < rows.len() ==> rows[i].id != rows[j].id
}

pub open spec fn subgoal_ids_ok(rows: Seq<SubGoalRow>, next: i64) -> bool {
    &&& forall|i: int| 0 <= i < rows.len() ==> 1 <= (#[trigger] rows[i]).id < next
    &&& forall|i: int, j: int| 0 <= i < j < rows.len() ==> rows[i].id != rows[j].id
}

/// Sub-goal rows name tasks whose ids were handed out.
pub open spec fn subgoal_tasks_ok(rows: Seq<SubGoalRow>, next_task: i64) -> bool {
    forall|i: int| 0 <= i < rows.len() ==> (#[trigger] rows[i]).task_id < next_task
}

pub open spec fn log_ok(rows: Seq<LogRow>, next: i64) -> bool {
    &&& forall|i: int| 0 <= i < rows.len() ==> 1 <= (#[trigger] rows[i]).id < next
    &&& forall|i: int| 0 <= i < rows.len() ==> (#[trigger] rows[i]).at.wf()
}

impl Database {
    /// Well-formed store: identifiers as handed out, log instants well formed.
    pub open spec fn wf(&self) -> bool {
        &&& 1 <= self.next_plan_id
        &&& 1 <= self.next_task_id
        &&& 1 <= self.next_subgoal_id
        &&& 1 <= self.next_log_id
        &&& plan_ids_ok(self.plans@, self.next_plan_id)
        &&& task_ids_ok(self.tasks@, self.next_task_id)
        &&& subgoal_ids_ok(self.subgoals@, self.next_subgoal_id)
        &&& subgoal_tasks_ok(self.subgoals@, self.next_task_id)
        &&& log_ok(self.log@, self.next_log_id)
    }
}

/// Index of the plan with id `id`.
pub open spec fn has_plan_at(db: &Database, id: i64, i: int) -> bool {
    0 <= i < db.plans@.len() && db.plans@[i].id == id
}

/// No plan has id `id`.
pub open spec fn no_plan(db: &Database, id: i64) -> bool {
    forall|i: int| 0 <= i < db.plans@.len() ==> db.plans@[i].id != id
}

pub open spec fn has_task_at(db: &Database, id: i64, i: int) -> bool {
    0 <= i < db.tasks@.len() && db.tasks@[i].id == id
}

pub open spec fn no_task(db: &Database, id: i64) -> bool {
    forall|i: int| 0 <= i < db.tasks@.len() ==> db.tasks@[i].id != id
}

pub open spec fn has_subgoal_at(db: &Database, id: i64, i: int) -> bool {
    0 <= i < db.subgoals@.len() && db.subgoals@[i].id == id
}

pub open spec fn no_subgoal(db: &Database, id: i64) -> bool {
    forall|i: int| 0 <= i < db.subgoals@.len() ==> db.subgoals@[i].id != id
}

/// A task that exists and is not archived.
pub open spec fn live_task_at(db: &Database, id: i64, i: int) -> bool {
    has_task_at(db, id, i) && db.tasks@[i].deleted_at is None
}

/// No live task has id `id`.
pub open spec fn no_live_task(db: &Database, id: i64) -> bool {
    forall|i: int| 0 <= i < db.tasks@.len() && db.tasks@[i].id == id ==> db.tasks@[i].deleted_at is Some
}

/// Position of the plan with id `id`.
pub fn find_plan(db: &Database, id: i64) -> (r: Option<usize>)
    ensures
        match r {
            Some(i) => has_plan_at(db, id, i as int),
            None => no_plan(db, id),
        },
{
    let n = db.plans.len();
    let mut i: usize = 0;
    while i < n
        invariant
            n == db.plans@.len(),
            i <= n,
            forall|k: int| 0 <= k < i ==> db.plans@[k].id != id,
        decreases n - i,
    {
        if db.plans[i].id == id {
            return Some(i);
        }
        i = i + 1;
    }
    None
}

/// Position of the task with id `id` (archived or not).
pub fn find_task(db: &Database, id: i64) -> (r: Option<usize>)
    ensures
        match r {
            Some(i) => has_task_at(db, id, i as int),
            None => no_task(db, id),
        },
{
    let n = db.tasks.len();
    let mut i: usize = 0;
    while i < n
        invariant
            n == db.tasks@.len(),
            i <= n,
            forall|k: int| 0 <= k < i ==> db.tasks@[k].id != id,
        decreases n - i,
    {
        if db.tasks[i].id == id {
            return Some(i);
        }
        i = i + 1;
    }
    None
}

/// Position of the live (not archived) task with id `id`.
pub fn find_live_task(db: &Database, id: i64) -> (r: Option<usize>)
    requires
        db.wf(),
    ensures
        match r {
            Some(i) => live_task_at(db, id, i as int),
            None => no_live_task(db, id),
        },
{
    match find_task(db, id) {
        Some(i) => {
            if db.tasks[i].deleted_at.is_none() {
                Some(i)
            } else {
                None
            }
        },
        None => None,
    }
}

/// Position of the sub-goal with id `id`.
pub fn find_subgoal(db: &Database, id: i64) -> (r: Option<usize>)
    ensures
        match r {
            Some(i) => has_subgoal_at(db, id, i as int),
            None => no_subgoal(db, id),
        },
{
    let n = db.subgoals.len();
    let mut i: usize = 0;
    while i < n
        invariant
            n == db.subgoals@.len(),
            i <= n,
            forall|k: int| 0 <= k < i ==> db.subgoals@[k].id != id,
        decreases n - i,
    {
        if db.subgoals[i].id == id {
            return Some(i);
        }
        i = i + 1;
    }
    None
}

/// A fresh store: no plans, default settings with one version that has always
/// applied.
pub fn open_in_memory() -> (db: Database)
    ensures
        db.wf(),
        is_default_settings(db.settings),
        db.settings_updated_at is None,
        db.versions@.len() == 1,
        db.versions@[0].effective_from == SENTINEL_EFFECTIVE,
        db.versions@[0].daily_minutes == 300,
        db.versions@[0].workdays@ == seq![1u8, 2, 3, 4, 5],
        db.versions@[0].time_windows@ == seq![TimeWindow { start_minute: 540, end_minute: 1080 }],
        db.plans@.len() == 0,
        db.tasks@.len() == 0,
        db.subgoals@.len() == 0,
        db.deps@.len() == 0,
        db.allocation is None,
        db.log@.len() == 0,
        db.current_task is None,
        db.summary_shown@.len() == 0,
{
    let settings = Settings::default();
    let seed = Settings::default();
    let mut versions: Vec<SettingsVersion> = Vec::new();
    versions.push(SettingsVersion {
        daily_minutes: seed.daily_minutes,
        workdays: seed.workdays,
        time_windows: seed.time_windows,
        effective_from: SENTINEL_EFFECTIVE,
    });
    Database {
        settings,
        settings_updated_at: None,
        versions,
        plans: Vec::new(),
        tasks: Vec::new(),
        subgoals: Vec::new(),
        deps: Vec::new(),
        allocation: None,
        log: Vec::new(),
        current_task: None,
        summary_shown: Vec::new(),
        next_plan_id: 1,
        next_task_id: 1,
        next_subgoal_id: 1,
        next_log_id: 1,
    }
}

/// Whether a store is well formed (see `Database::wf`): the check to make on a
/// store read back from elsewhere before any service touches it.
pub fn is_well_formed(db: &Database) -> (r: bool)
    ensures
        r == db.wf(),
{
    if db.next_plan_id < 1 || db.next_task_id < 1 || db.next_subgoal_id < 1 || db.next_log_id < 1 {
        return false;
    }
    let n = db.plans.len();
    let mut i: usize = 0;
    while i < n
        invariant
            n == db.plans@.len(),
            i <= n,
            forall|a: int| 0 <= a < i ==> 1 <= (#[trigger] db.plans@[a]).id < db.next_plan_id && db.plans@[a].created_at.wf(),
            forall|a: int, b: int| 0 <= a < b < i ==> db.plans@[a].id != db.plans@[b].id,
        decreases n - i,
    {
        let p = &db.plans[i];
        if p.id < 1 || p.id >= db.next_plan_id || p.created_at.minute >= 1440
            || p.created_at.day < -1_000_000_000 || p.created_at.day > 1_000_000_000 {
            return false;
        }
        let mut j: usize = 0;
        while j < i
            invariant
                i < n,
                n == db.plans@.len(),
                j <= i,
                forall|a: int| 0 <= a < j ==> db.plans@[a].id != db.plans@[i as int].id,
            decreases i - j,
        {
            if db.plans[j].id == db.plans[i].id {
                return false;
            }
            j = j + 1;
        }
        i = i + 1;
    }
    let n = db.tasks.len();
    let mut i: usize = 0;
    while i < n
        invariant
            n == db.tasks@.len(),
            i <= n,
            plan_ids_ok(db.plans@, db.next_plan_id),
            forall|a: int| 0 <= a < i ==> 1 <= (#[trigger] db.tasks@[a]).id < db.next_task_id,
            forall|a: int, b: int| 0 <= a < b < i ==> db.tasks@[a].id != db.tasks@[b].id,
        decreases n - i,
    {
        if db.tasks[i].id < 1 || db.tasks[i].id >= db.next_task_id {
            return false;
        }
        let mut j: usize = 0;
        while j < i
            invariant
                i < n,
                n == db.tasks@.len(),
                j <= i,
                forall|a: int| 0 <= a < j ==> db.tasks@[a].id != db.tasks@[i as int].id,
            decreases i - j,
        {
            if db.tasks[j].id == db.tasks[i].id {
                return false;
            }
            j = j + 1;
        }
        i = i + 1;
    }
    let n = db.subgoals.len();
    let mut i: usize = 0;
    while i < n
        invariant
            n == db.subgoals@.len(),
            i <= n,
            plan_ids_ok(db.plans@, db.next_plan_id),
            task_ids_ok(db.tasks@, db.next_task_id),
            forall|a: int| 0 <= a < i ==> 1 <= (#[trigger] db.subgoals@[a]).id < db.next_subgoal_id && db.subgoals@[a].task_id < db.next_task_id,
            forall|a: int, b: int| 0 <= a < b < i ==> db.subgoals@[a].id != db.subgoals@[b].id,
        decreases n - i,
    {
        let g = &db.subgoals[i];
        if g.id < 1 || g.id >= db.next_subgoal_id || g.task_id >= db.next_task_id {
            return false;
        }
        let mut j: usize = 0;
        while j < i
            invariant
                i < n,
                n == db.subgoals@.len(),
                j <= i,
                forall|a: int| 0 <= a < j ==> db.subgoals@[a].id != db.subgoals@[i as int].id,
            decreases i - j,
        {
            if db.subgoals[j].id == db.subgoals[i].id {
                return false;
            }
            j = j + 1;
        }
        i = i + 1;
    }
    let n = db.log.len();
    let mut i: usize = 0;
    while i < n
        invariant
            n == db.log@.len(),
            i <= n,
            forall|a: int| 0 <= a < i ==> 1 <= (#[trigger] db.log@[a]).id < db.next_log_id && db.log@[a].at.wf(),
        decreases n - i,
    {
        let e = &db.log[i];
        if e.id < 1 || e.id >= db.next_log_id || e.at.minute >= 1440 || e.at.day < -1_000_000_000 || e.at.day > 1_000_000_000 {
            return false;
        }
        i = i + 1;
    }
    true
}

} // verus!
