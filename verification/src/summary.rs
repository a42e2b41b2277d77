//! Daily summaries: when a summary is due (the end of the day's latest work
//! window, caught up the next day at the latest, shown once), when the next one
//! fires, and the summary of a day, derived from the progress log every time.

use vstd::prelude::*;
use crate::ledger::{attributed_days, day_met, target_on, LedgerService, attributed_day};
use crate::plans::{rank, PauseReason, PlanError, PlanService, PlanStatus, Priority};
use crate::progress::tenths_of;
use crate::settings::{workday_on, Settings, DAY_HORIZON};
use crate::settings_service::{day_minutes, day_windows, settings_on, workday_for, SettingsService};
use crate::store::{find_task, has_task_at, no_task, Database, LogRow, ShownRow};
use crate::time::{iso_date, iso_text, near_day, parse_iso_day, parsed_iso_day, valid_day, LocalTime};
use crate::views::{plans_in_order, PlanView, SubGoalView, TaskView};
use crate::windows::TimeWindow;

verus! {

/// Minutes after the day's midnight at which window `w` ends: a window that
/// crosses midnight ends the next day.
pub open spec fn end_offset(w: TimeWindow) -> int {
    if w.end_minute < w.start_minute { 1440 + w.end_minute } else { w.end_minute as int }
}

/// Latest end offset among `ws` (0 for none).
pub open spec fn max_end(ws: Seq<TimeWindow>) -> int
    decreases ws.len(),
{
    if ws.len() == 0 {
        0
    } else {
        let m = max_end(ws.drop_last());
        let o = end_offset(ws.last());
        if ws.len() == 1 || o > m { o } else { m }
    }
}

/// The instant `off` minutes after the midnight that starts day `date`.
pub open spec fn at_offset(date: int, off: int) -> LocalTime {
    LocalTime { day: (date + off / 1440) as i64, minute: (off % 1440) as u32 }
}

/// When the summary of `date` fires under settings `s`: the end of its latest
/// window, on a workday with at least one window.
pub open spec fn latest_end(s: Settings, date: int) -> Option<LocalTime> {
    if workday_on(s, date) && s.time_windows@.len() > 0 {
        Some(at_offset(date, max_end(s.time_windows@)))
    } else {
        None
    }
}

/// When the summary of day `d` fires, with the settings in effect on `d`.
pub open spec fn fire_at(db: &Database, d: int) -> Option<LocalTime> {
    if workday_for(db.settings, db.versions@, d) && day_windows(db.versions@, d).len() > 0 {
        Some(at_offset(d, max_end(day_windows(db.versions@, d))))
    } else {
        None
    }
}

/// The summary of day `d` has been shown.
pub open spec fn shown_on(db: &Database, d: int) -> bool {
    exists|k: int| 0 <= k < db.summary_shown@.len() && (#[trigger] db.summary_shown@[k]).date == d
}

/// The summary of day `d` is due at `now`: it fired by now and was not shown.
pub open spec fn due_on(db: &Database, now: LocalTime, d: int) -> bool {
    fire_at(db, d) matches Some(f) && f.stamp() <= now.stamp() && !shown_on(db, d)
}

/// The summary due at `now`: today's, else yesterday's (no earlier day).
pub open spec fn due_spec(db: &Database, now: LocalTime) -> Option<int> {
    if due_on(db, now, now.day as int) {
        Some(now.day as int)
    } else if due_on(db, now, now.day - 1) {
        Some(now.day - 1)
    } else {
        None
    }
}

/// The first firing after `now` among the days `now.day + k` .. within the horizon.
pub open spec fn next_fire_from(db: &Database, now: LocalTime, k: int) -> Option<LocalTime>
    decreases DAY_HORIZON - k,
{
    if k < 0 || k >= DAY_HORIZON {
        None
    } else if fire_at(db, now.day + k) matches Some(f) && f.stamp() > now.stamp() {
        fire_at(db, now.day + k)
    } else {
        next_fire_from(db, now, k + 1)
    }
}

/// Index of the first shown row for day `d` from index `k` on.
pub open spec fn shown_index(rows: Seq<ShownRow>, d: int, k: int) -> Option<int>
    decreases rows.len() - k,
{
    if k < 0 || k >= rows.len() {
        None
    } else if rows[k].date == d {
        Some(k)
    } else {
        shown_index(rows, d, k + 1)
    }
}

/// Latest day among the shown rows.
pub open spec fn max_shown(rows: Seq<ShownRow>) -> Option<i64>
    decreases rows.len(),
{
    if rows.len() == 0 {
        None
    } else {
        let d = rows.last().date;
        match max_shown(rows.drop_last()) {
            None => Some(d),
            Some(m) => Some(if d > m { d } else { m }),
        }
    }
}

/// When the summary of `date` fires under `settings` (the settings in effect on
/// that date): the end of the latest window, a window that crosses midnight
/// ending the next day; `None` on a rest day or without windows.
pub fn latest_window_end(settings: &Settings, date: i64) -> (r: Option<LocalTime>)
    requires
        -1_000_000_001 <= date <= 1_000_000_000 + DAY_HORIZON,
    ensures
        r == latest_end(*settings, date as int),
        r matches Some(f) ==> f.minute < 1440 && date <= f.day <= date + 47,
{
    if !settings.is_workday_on(date) || settings.time_windows.len() == 0 {
        return None;
    }
    let ws = &settings.time_windows;
    let n = ws.len();
    let mut best: u32 = 0;
    let mut k: usize = 0;
    while k < n
        invariant
            n == ws@.len(),
            k <= n,
            best as int == max_end(ws@.subrange(0, k as int)),
            best <= 1440 + 0xffff,
        decreases n - k,
    {
        assert(ws@.subrange(0, k + 1).drop_last() =~= ws@.subrange(0, k as int));
        let w = ws[k];
        let o: u32 = if w.end_minute < w.start_minute { 1440 + w.end_minute as u32 } else { w.end_minute as u32 };
        if k == 0 || o > best {
            best = o;
        }
        k = k + 1;
    }
    assert(ws@.subrange(0, n as int) =~= ws@);
    Some(LocalTime { day: date + (best / 1440) as i64, minute: best % 1440 })
}

/// When the summary of day `d` fires, from the store.
fn fire_on(db: &Database, d: i64) -> (r: Option<LocalTime>)
    requires
        -1_000_000_001 <= d <= 1_000_000_000 + DAY_HORIZON,
    ensures
        r == fire_at(db, d as int),
        r matches Some(f) ==> f.minute < 1440 && d <= f.day <= d + 47,
{
    let s = settings_on(db, d);
    let r = latest_window_end(&s, d);
    r
}

/// Whether the summary of day `d` has been shown.
fn is_shown(db: &Database, d: i64) -> (r: bool)
    ensures
        r == shown_on(db, d as int),
{
    let n = db.summary_shown.len();
    let mut k: usize = 0;
    while k < n
        invariant
            n == db.summary_shown@.len(),
            k <= n,
            forall|q: int| 0 <= q < k ==> (#[trigger] db.summary_shown@[q]).date != d,
        decreases n - k,
    {
        if db.summary_shown[k].date == d {
            assert(db.summary_shown@[k as int].date == d);
            return true;
        }
        k = k + 1;
    }
    false
}

/// The day `YYYY-MM-DD` text names; InvalidDate when chrono refuses it.
pub fn parse_date(s: &str) -> (r: Result<i64, PlanError>)
    ensures
        match parsed_iso_day(s@) {
            Some(d) => r == Ok::<i64, PlanError>(d),
            None => r == Err::<i64, PlanError>(PlanError::InvalidDate),
        },
        r matches Ok(d) ==> valid_day(d as int),
{
    match parse_iso_day(s) {
        Some(d) => Ok(d),
        None => Err(PlanError::InvalidDate),
    }
}

/// Trigger state: the summary due now, the latest shown, the next firing.
#[derive(Debug, Clone, PartialEq, Eq)]
pub struct DailySummaryStatus {
    /// The day whose summary is due (`YYYY-MM-DD`).
    pub due: Option<String>,
    /// The latest day whose summary was shown (`YYYY-MM-DD`).
    pub last_shown: Option<String>,
    /// The next automatic firing (`None` when no window lies ahead).
    pub next_fire_at: Option<LocalTime>,
}

/// Daily summaries.
pub struct SummaryService;

impl SummaryService {
    /// The summary due at `now` (see `due_spec`).
    pub fn due(db: &Database, now: LocalTime) -> (r: Result<Option<i64>, PlanError>)
        requires
            now.wf(),
        ensures
            match due_spec(db, now) {
                Some(d) => r == Ok::<Option<i64>, PlanError>(Some(d as i64)),
                None => r == Ok::<Option<i64>, PlanError>(None),
            },
    {
        let today = now.day;
        match fire_on(db, today) {
            Some(fire) => {
                if !now.is_before(&fire) && !is_shown(db, today) {
                    return Ok(Some(today));
                }
            },
            None => {},
        }
        let yesterday = now.day - 1;
        match fire_on(db, yesterday) {
            Some(fire) => {
                if !now.is_before(&fire) && !is_shown(db, yesterday) {
                    return Ok(Some(yesterday));
                }
            },
            None => {},
        }
        assert(!due_on(db, now, now.day as int) && !due_on(db, now, now.day - 1));
        Ok(None)
    }

    /// The next automatic firing after `now` (see `next_fire_from`).
    pub fn next_fire(db: &Database, now: LocalTime) -> (r: Result<Option<LocalTime>, PlanError>)
        requires
            now.wf(),
        ensures
            r == Ok::<Option<LocalTime>, PlanError>(next_fire_from(db, now, 0)),
    {
        let mut k: i64 = 0;
        while k < DAY_HORIZON
            invariant
                0 <= k <= DAY_HORIZON,
                now.wf(),
                next_fire_from(db, now, 0) == next_fire_from(db, now, k as int),
            decreases DAY_HORIZON - k,
        {
            let day = now.day + k;
            match fire_on(db, day) {
                Some(fire) => {
                    if now.is_before(&fire) {
                        return Ok(Some(fire));
                    }
                },
                None => {},
            }
            k = k + 1;
        }
        Ok(None)
    }

    /// Marks the summary of `date` as shown at `now` (once per day: a second
    /// mark refreshes the time).
    pub fn mark_shown(db: &mut Database, now: LocalTime, date: i64) -> (r: Result<(), PlanError>)
        requires
            old(db).wf(),
        ensures
            final(db).wf(),
            r is Ok,
            *final(db) == (Database { summary_shown: final(db).summary_shown, ..*old(db) }),
            match shown_index(old(db).summary_shown@, date as int, 0) {
                Some(k) => final(db).summary_shown@ == old(db).summary_shown@.update(k, ShownRow { date, shown_at: now }),
                None => final(db).summary_shown@ == old(db).summary_shown@.push(ShownRow { date, shown_at: now }),
            },
    {
        let n = db.summary_shown.len();
        let mut k: usize = 0;
        let mut hit = false;
        while k < n && !hit
            invariant
                n == db.summary_shown@.len(),
                k <= n,
                !hit ==> shown_index(db.summary_shown@, date as int, 0) == shown_index(db.summary_shown@, date as int, k as int),
                hit ==> k < n && shown_index(db.summary_shown@, date as int, 0) == Some(k as int),
            decreases n - k + (if hit { 0int } else { 1int }),
        {
            if db.summary_shown[k].date == date {
                hit = true;
            } else {
                k = k + 1;
            }
        }
        if hit {
            db.summary_shown.set(k, ShownRow { date, shown_at: now });
            return Ok(());
        }
        db.summary_shown.push(ShownRow { date, shown_at: now });
        Ok(())
    }

    /// Trigger state at `now`.
    pub fn status(db: &Database, now: LocalTime) -> (r: Result<DailySummaryStatus, PlanError>)
        requires
            now.wf(),
        ensures
            r matches Ok(v) && {
                &&& match due_spec(db, now) {
                    Some(d) => v.due matches Some(t) && t@ == iso_text(d as i64),
                    None => v.due is None,
                }
                &&& match max_shown(db.summary_shown@) {
                    Some(d) => v.last_shown matches Some(t) && t@ == iso_text(d),
                    None => v.last_shown is None,
                }
                &&& v.next_fire_at == next_fire_from(db, now, 0)
            },
    {
        let due = match Self::due(db, now)? {
            Some(d) => Some(iso_date(d)),
            None => None,
        };
        let last = match last_shown_day(db) {
            Some(d) => Some(iso_date(d)),
            None => None,
        };
        let next_fire_at = Self::next_fire(db, now)?;
        Ok(DailySummaryStatus { due, last_shown: last, next_fire_at })
    }
}

/// Latest day whose summary was shown.
fn last_shown_day(db: &Database) -> (r: Option<i64>)
    ensures
        r == max_shown(db.summary_shown@),
{
    let rows = &db.summary_shown;
    let n = rows.len();
    let mut best: Option<i64> = None;
    let mut k: usize = 0;
    while k < n
        invariant
            n == rows@.len(),
            k <= n,
            best == max_shown(rows@.subrange(0, k as int)),
        decreases n - k,
    {
        assert(rows@.subrange(0, k + 1).drop_last() =~= rows@.subrange(0, k as int));
        let d = rows[k].date;
        best = match best {
            None => Some(d),
            Some(m) => Some(if d > m { d } else { m }),
        };
        k = k + 1;
    }
    assert(rows@.subrange(0, n as int) =~= rows@);
    best
}

/// A summary is shown once: after the summary of `date` is marked shown, it is
/// never due again, whatever the time.
pub proof fn lemma_marked_never_due(old: &Database, new: &Database, date: i64, now: LocalTime)
    requires
        match shown_index(old.summary_shown@, date as int, 0) {
            Some(k) => new.summary_shown@ == old.summary_shown@.update(k, ShownRow { date, shown_at: now }),
            None => new.summary_shown@ == old.summary_shown@.push(ShownRow { date, shown_at: now }),
        },
    ensures
        shown_on(new, date as int),
        forall|t: LocalTime| #[trigger] due_spec(new, t) != Some(date as int),
{
    match shown_index(old.summary_shown@, date as int, 0) {
        Some(k) => {
            lemma_shown_index_bounds(old.summary_shown@, date as int, 0);
            assert(new.summary_shown@[k].date == date);
        },
        None => {
            assert(new.summary_shown@[old.summary_shown@.len() as int].date == date);
        },
    }
}

/// A found index lies in range.
proof fn lemma_shown_index_bounds(rows: Seq<ShownRow>, d: int, k: int)
    ensures
        shown_index(rows, d, k) matches Some(i) ==> 0 <= i < rows.len(),
    decreases rows.len() - k,
{
    if 0 <= k < rows.len() && rows[k].date != d {
        lemma_shown_index_bounds(rows, d, k + 1);
    }
}

// ---------------------------------------------------------------------------
// The summary of a day
// ---------------------------------------------------------------------------

/// Plan of the task row with id `tid` (archived or not), if there is one.
pub open spec fn task_plan(db: &Database, tid: i64) -> Option<i64> {
    if exists|i: int| has_task_at(db, tid, i) {
        Some(db.tasks@[choose|i: int| has_task_at(db, tid, i)].plan_id)
    } else {
        None
    }
}

/// A log row counts toward day `d` (for task `task` or plan `plan` when given):
/// it is attributed to `d` and its task row exists, archived or not.
pub open spec fn counted(db: &Database, row: LogRow, d: int, task: Option<i64>, plan: Option<i64>) -> bool {
    &&& attributed_day(db.versions@, row.at) == d
    &&& task_plan(db, row.task_id) is Some
    &&& (task matches Some(t) ==> row.task_id == t)
    &&& (plan matches Some(p) ==> task_plan(db, row.task_id) == Some(p))
}

/// Net progress (thousandths of a minute) of the counted rows of `log`.
pub open spec fn net_on(db: &Database, log: Seq<LogRow>, d: int, task: Option<i64>, plan: Option<i64>) -> int
    decreases log.len(),
{
    if log.len() == 0 {
        0
    } else {
        net_on(db, log.drop_last(), d, task, plan) + if counted(db, log.last(), d, task, plan) {
            log.last().delta_milli as int
        } else {
            0
        }
    }
}

/// Tasks among `ts` with net progress on day `d`, in order.
pub open spec fn worked_tasks(db: &Database, ts: Seq<TaskView>, d: int) -> Seq<TaskView>
    decreases ts.len(),
{
    if ts.len() == 0 {
        Seq::empty()
    } else {
        let r = worked_tasks(db, ts.drop_last(), d);
        if net_on(db, db.log@, d, Some(ts.last().id), None) > 0 { r.push(ts.last()) } else { r }
    }
}

/// Plans among `ps` with net progress on day `d` (archived tasks included), in order.
pub open spec fn worked_plans(db: &Database, ps: Seq<PlanView>, d: int) -> Seq<PlanView>
    decreases ps.len(),
{
    if ps.len() == 0 {
        Seq::empty()
    } else {
        let r = worked_plans(db, ps.drop_last(), d);
        if net_on(db, db.log@, d, None, Some(ps.last().id)) > 0 { r.push(ps.last()) } else { r }
    }
}

/// Highest priority rank among `ps` (-1 for none).
pub open spec fn max_rank(ps: Seq<PlanView>) -> int
    decreases ps.len(),
{
    if ps.len() == 0 {
        -1
    } else {
        let m = max_rank(ps.drop_last());
        let r = rank(ps.last().priority);
        if r > m { r } else { m }
    }
}

/// Some plan not started has a priority strictly above every plan worked on.
pub open spec fn hint_spec(all: Seq<PlanView>, worked: Seq<PlanView>) -> bool {
    exists|k: int| 0 <= k < all.len() && (#[trigger] all[k]).status == PlanStatus::NotStarted && rank(all[k].priority) > max_rank(worked)
}

/// A worked task in the summary.
#[derive(Debug, Clone, PartialEq, Eq)]
pub struct SummaryTask {
    pub task_id: i64,
    pub name: String,
    /// Total progress in tenths of a percent (not the day's share).
    pub percent_tenths: i128,
    /// Net progress on the day (thousandths of a minute).
    pub minutes_milli: i128,
    pub has_subgoals: bool,
    pub subgoals: Vec<SubGoalView>,
}

/// A worked plan in the summary.
#[derive(Debug, Clone, PartialEq, Eq)]
pub struct SummaryPlan {
    pub plan_id: i64,
    pub plan_name: String,
    pub priority: Priority,
    /// Paused by preemption.
    pub preempted: bool,
    /// Net progress on the day, archived tasks included (thousandths of a minute).
    pub minutes_milli: i128,
    /// Worked live tasks, by position.
    pub tasks: Vec<SummaryTask>,
}

/// The summary of a day.
#[derive(Debug, Clone, PartialEq, Eq)]
pub struct DailySummaryView {
    /// The day (`YYYY-MM-DD`).
    pub date: String,
    pub is_today: bool,
    pub is_yesterday: bool,
    pub workday: bool,
    /// Net progress of the day (thousandths of a minute).
    pub total_milli: i128,
    /// The day's adjusted target (nanominutes).
    pub target_nanos: i128,
    /// The day's base (daily work minutes).
    pub base_minutes: u32,
    /// A workday whose total reaches 90% of its target.
    pub met_target: bool,
    /// A plan not started outranks every plan worked on.
    pub higher_priority_hint: bool,
    /// Worked plans, in list order.
    pub plans: Vec<SummaryPlan>,
}

/// Same sub-goal shown.
pub open spec fn same_subgoal(a: SubGoalView, b: SubGoalView) -> bool {
    &&& a.id == b.id
    &&& a.name@ == b.name@
    &&& a.estimated_minutes == b.estimated_minutes
    &&& a.position == b.position
    &&& a.completed == b.completed
}

/// `st` shows worked task `t` on day `d`.
pub open spec fn summary_task_of(db: &Database, d: int, t: TaskView, st: SummaryTask) -> bool {
    &&& st.task_id == t.id
    &&& st.name@ == t.name@
    &&& tenths_of(t.progress, st.percent_tenths as int)
    &&& st.minutes_milli == net_on(db, db.log@, d, Some(t.id), None)
    &&& st.has_subgoals == t.has_subgoals
    &&& st.subgoals@.len() == t.subgoals@.len()
    &&& forall|j: int| 0 <= j < st.subgoals@.len() ==> same_subgoal(#[trigger] st.subgoals@[j], t.subgoals@[j])
}

/// `sp` shows worked plan `p` on day `d`.
pub open spec fn summary_plan_of(db: &Database, d: int, p: PlanView, sp: SummaryPlan) -> bool {
    &&& sp.plan_id == p.id
    &&& sp.plan_name@ == p.name@
    &&& sp.priority == p.priority
    &&& sp.preempted == (p.status == PlanStatus::Paused && p.pause_reason == Some(PauseReason::AutoPreempted))
    &&& sp.minutes_milli == net_on(db, db.log@, d, None, Some(p.id))
    &&& sp.tasks@.len() == worked_tasks(db, p.tasks@, d).len()
    &&& forall|j: int| 0 <= j < sp.tasks@.len() ==> summary_task_of(db, d, worked_tasks(db, p.tasks@, d)[j], #[trigger] sp.tasks@[j])
}

/// `gs` show the worked plans among `ps` on day `d`.
pub open spec fn summary_plans_shown(db: &Database, d: int, ps: Seq<PlanView>, gs: Seq<SummaryPlan>) -> bool {
    let w = worked_plans(db, ps, d);
    &&& gs.len() == w.len()
    &&& forall|i: int| 0 <= i < gs.len() ==> summary_plan_of(db, d, w[i], #[trigger] gs[i])
}

/// Plan of each log row's task.
fn row_plans(db: &Database) -> (r: Vec<Option<i64>>)
    requires
        db.wf(),
    ensures
        r@.len() == db.log@.len(),
        forall|k: int| 0 <= k < r@.len() ==> #[trigger] r@[k] == task_plan(db, db.log@[k].task_id),
{
    let n = db.log.len();
    let mut r: Vec<Option<i64>> = Vec::new();
    let mut k: usize = 0;
    while k < n
        invariant
            n == db.log@.len(),
            db.wf(),
            k <= n,
            r@.len() == k,
            forall|q: int| 0 <= q < k ==> #[trigger] r@[q] == task_plan(db, db.log@[q].task_id),
        decreases n - k,
    {
        let tid = db.log[k].task_id;
        match find_task(db, tid) {
            Some(i) => {
                proof {
                    let c = choose|j: int| has_task_at(db, tid, j);
                    assert(has_task_at(db, tid, c));
                    if c != i {
                        if c < i {
                            assert(db.tasks@[c].id != db.tasks@[i as int].id);
                        } else {
                            assert(db.tasks@[i as int].id != db.tasks@[c].id);
                        }
                    }
                }
                r.push(Some(db.tasks[i].plan_id));
            },
            None => {
                r.push(None);
            },
        }
        k = k + 1;
    }
    r
}

proof fn lemma_net_bound(db: &Database, log: Seq<LogRow>, d: int, task: Option<i64>, plan: Option<i64>)
    ensures
        -(log.len() as int) * 0x8000_0000_0000_0000 <= net_on(db, log, d, task, plan) <= (log.len() as int) * 0x8000_0000_0000_0000,
    decreases log.len(),
{
    if log.len() > 0 {
        lemma_net_bound(db, log.drop_last(), d, task, plan);
    }
}

/// Net progress of the counted rows, given each row's day and plan.
fn net_where(db: &Database, days: &Vec<i64>, plans: &Vec<Option<i64>>, d: i64, task: Option<i64>, plan: Option<i64>) -> (r: i128)
    requires
        days@.len() == db.log@.len(),
        plans@.len() == db.log@.len(),
        forall|k: int| 0 <= k < days@.len() ==> #[trigger] days@[k] == attributed_day(db.versions@, db.log@[k].at),
        forall|k: int| 0 <= k < plans@.len() ==> #[trigger] plans@[k] == task_plan(db, db.log@[k].task_id),
    ensures
        r == net_on(db, db.log@, d as int, task, plan),
{
    let n = db.log.len();
    let mut sum: i128 = 0;
    let mut k: usize = 0;
    while k < n
        invariant
            n == db.log@.len(),
            days@.len() == n,
            plans@.len() == n,
            forall|q: int| 0 <= q < days@.len() ==> #[trigger] days@[q] == attributed_day(db.versions@, db.log@[q].at),
            forall|q: int| 0 <= q < plans@.len() ==> #[trigger] plans@[q] == task_plan(db, db.log@[q].task_id),
            k <= n,
            sum == net_on(db, db.log@.subrange(0, k as int), d as int, task, plan),
        decreases n - k,
    {
        assert(db.log@.subrange(0, k + 1).drop_last() =~= db.log@.subrange(0, k as int));
        proof {
            lemma_net_bound(db, db.log@.subrange(0, k + 1), d as int, task, plan);
            lemma_net_bound(db, db.log@.subrange(0, k as int), d as int, task, plan);
        }
        let row = &db.log[k];
        let task_ok = match task {
            Some(t) => row.task_id == t,
            None => true,
        };
        let plan_ok = match plans[k] {
            Some(rp) => match plan {
                Some(p) => rp == p,
                None => true,
            },
            None => false,
        };
        if days[k] == d && task_ok && plan_ok {
            sum = sum + row.delta_milli as i128;
        }
        k = k + 1;
    }
    assert(db.log@.subrange(0, n as int) =~= db.log@);
    sum
}

/// Copies of the shown sub-goals.
fn copy_subgoals(v: &Vec<SubGoalView>) -> (r: Vec<SubGoalView>)
    ensures
        r@.len() == v@.len(),
        forall|j: int| 0 <= j < r@.len() ==> same_subgoal(#[trigger] r@[j], v@[j]),
{
    let n = v.len();
    let mut r: Vec<SubGoalView> = Vec::new();
    let mut k: usize = 0;
    while k < n
        invariant
            n == v@.len(),
            k <= n,
            r@.len() == k,
            forall|j: int| 0 <= j < k ==> same_subgoal(#[trigger] r@[j], v@[j]),
        decreases n - k,
    {
        let g = &v[k];
        r.push(SubGoalView {
            id: g.id,
            name: g.name.clone(),
            estimated_minutes: g.estimated_minutes,
            position: g.position,
            completed: g.completed,
        });
        k = k + 1;
    }
    r
}

/// The worked tasks of one plan.
fn summary_tasks(db: &Database, ts: &Vec<TaskView>, days: &Vec<i64>, plans: &Vec<Option<i64>>, d: i64) -> (r: Vec<SummaryTask>)
    requires
        days@.len() == db.log@.len(),
        plans@.len() == db.log@.len(),
        forall|k: int| 0 <= k < days@.len() ==> #[trigger] days@[k] == attributed_day(db.versions@, db.log@[k].at),
        forall|k: int| 0 <= k < plans@.len() ==> #[trigger] plans@[k] == task_plan(db, db.log@[k].task_id),
    ensures
        r@.len() == worked_tasks(db, ts@, d as int).len(),
        forall|j: int| 0 <= j < r@.len() ==> summary_task_of(db, d as int, worked_tasks(db, ts@, d as int)[j], #[trigger] r@[j]),
{
    let n = ts.len();
    let mut r: Vec<SummaryTask> = Vec::new();
    let mut k: usize = 0;
    while k < n
        invariant
            n == ts@.len(),
            days@.len() == db.log@.len(),
            plans@.len() == db.log@.len(),
            forall|q: int| 0 <= q < days@.len() ==> #[trigger] days@[q] == attributed_day(db.versions@, db.log@[q].at),
            forall|q: int| 0 <= q < plans@.len() ==> #[trigger] plans@[q] == task_plan(db, db.log@[q].task_id),
            k <= n,
            r@.len() == worked_tasks(db, ts@.subrange(0, k as int), d as int).len(),
            forall|j: int| 0 <= j < r@.len() ==> summary_task_of(db, d as int, worked_tasks(db, ts@.subrange(0, k as int), d as int)[j], #[trigger] r@[j]),
        decreases n - k,
    {
        assert(ts@.subrange(0, k + 1).drop_last() =~= ts@.subrange(0, k as int));
        let t = &ts[k];
        let net = net_where(db, days, plans, d, Some(t.id), None);
        if net > 0 {
            let ghost before = r@;
            r.push(SummaryTask {
                task_id: t.id,
                name: t.name.clone(),
                percent_tenths: t.progress.percent_tenths(),
                minutes_milli: net,
                has_subgoals: t.has_subgoals,
                subgoals: copy_subgoals(&t.subgoals),
            });
            proof {
                let w = worked_tasks(db, ts@.subrange(0, k + 1), d as int);
                assert forall|j: int| 0 <= j < r@.len() implies summary_task_of(db, d as int, w[j], #[trigger] r@[j]) by {
                    if j < before.len() {
                        assert(r@[j] == before[j]);
                    }
                }
            }
        }
        k = k + 1;
    }
    assert(ts@.subrange(0, n as int) =~= ts@);
    r
}

/// The worked plans among `ps`.
fn summary_plans(db: &Database, ps: &Vec<PlanView>, days: &Vec<i64>, plans: &Vec<Option<i64>>, d: i64) -> (r: Vec<SummaryPlan>)
    requires
        days@.len() == db.log@.len(),
        plans@.len() == db.log@.len(),
        forall|k: int| 0 <= k < days@.len() ==> #[trigger] days@[k] == attributed_day(db.versions@, db.log@[k].at),
        forall|k: int| 0 <= k < plans@.len() ==> #[trigger] plans@[k] == task_plan(db, db.log@[k].task_id),
    ensures
        summary_plans_shown(db, d as int, ps@, r@),
{
    let n = ps.len();
    let mut r: Vec<SummaryPlan> = Vec::new();
    let mut k: usize = 0;
    while k < n
        invariant
            n == ps@.len(),
            days@.len() == db.log@.len(),
            plans@.len() == db.log@.len(),
            forall|q: int| 0 <= q < days@.len() ==> #[trigger] days@[q] == attributed_day(db.versions@, db.log@[q].at),
            forall|q: int| 0 <= q < plans@.len() ==> #[trigger] plans@[q] == task_plan(db, db.log@[q].task_id),
            k <= n,
            summary_plans_shown(db, d as int, ps@.subrange(0, k as int), r@),
        decreases n - k,
    {
        assert(ps@.subrange(0, k + 1).drop_last() =~= ps@.subrange(0, k as int));
        let p = &ps[k];
        let net = net_where(db, days, plans, d, None, Some(p.id));
        if net > 0 {
            let preempted = p.status == PlanStatus::Paused && match p.pause_reason {
                Some(PauseReason::AutoPreempted) => true,
                _ => false,
            };
            let tasks = summary_tasks(db, &p.tasks, days, plans, d);
            let ghost before = r@;
            r.push(SummaryPlan {
                plan_id: p.id,
                plan_name: p.name.clone(),
                priority: p.priority,
                preempted,
                minutes_milli: net,
                tasks,
            });
            proof {
                let w = worked_plans(db, ps@.subrange(0, k + 1), d as int);
                assert forall|i: int| 0 <= i < r@.len() implies summary_plan_of(db, d as int, w[i], #[trigger] r@[i]) by {
                    if i < before.len() {
                        assert(r@[i] == before[i]);
                    }
                }
            }
        }
        k = k + 1;
    }
    assert(ps@.subrange(0, n as int) =~= ps@);
    r
}

/// Highest priority rank among the shown plans.
fn max_rank_of(gs: &Vec<SummaryPlan>, Ghost(w): Ghost<Seq<PlanView>>) -> (r: i64)
    requires
        gs@.len() == w.len(),
        forall|i: int| 0 <= i < gs@.len() ==> (#[trigger] gs@[i]).priority == w[i].priority,
    ensures
        r == max_rank(w),
{
    let n = gs.len();
    let mut best: i64 = -1;
    let mut k: usize = 0;
    while k < n
        invariant
            n == w.len(),
            gs@.len() == n,
            forall|i: int| 0 <= i < gs@.len() ==> (#[trigger] gs@[i]).priority == w[i].priority,
            k <= n,
            best == max_rank(w.subrange(0, k as int)),
            -1 <= best <= 2,
        decreases n - k,
    {
        assert(w.subrange(0, k + 1).drop_last() =~= w.subrange(0, k as int));
        assert(gs@[k as int].priority == w[k as int].priority);
        let rk = gs[k].priority.rank() as i64;
        if rk > best {
            best = rk;
        }
        k = k + 1;
    }
    assert(w.subrange(0, n as int) =~= w);
    best
}

/// Whether some plan not started ranks above `best`.
fn outranking_not_started(ps: &Vec<PlanView>, best: i64) -> (r: bool)
    ensures
        r == exists|k: int| 0 <= k < ps@.len() && (#[trigger] ps@[k]).status == PlanStatus::NotStarted && rank(ps@[k].priority) > best,
{
    let n = ps.len();
    let mut k: usize = 0;
    while k < n
        invariant
            n == ps@.len(),
            k <= n,
            forall|q: int| 0 <= q < k ==> !((#[trigger] ps@[q]).status == PlanStatus::NotStarted && rank(ps@[q].priority) > best),
        decreases n - k,
    {
        let p = &ps[k];
        if p.status == PlanStatus::NotStarted && p.priority.rank() as i64 > best {
            assert(ps@[k as int].status == PlanStatus::NotStarted);
            return true;
        }
        k = k + 1;
    }
    false
}

impl SummaryService {
    /// The summary of `date` seen at `now`, derived from the log each time:
    /// the worked plans (net progress above zero, archived tasks counted) in
    /// list order with their worked live tasks, the day's total, its target and
    /// whether it was met, and whether a plan not started outranks the work
    /// done. A Storage error when the ledger's amounts leave their range.
    pub fn summary(db: &Database, now: LocalTime, date: i64) -> (r: Result<DailySummaryView, PlanError>)
        requires
            db.wf(),
            now.wf(),
            valid_day(date as int),
        ensures
            target_on(db, date as int) is None ==> r matches Err(PlanError::Storage(_)),
            target_on(db, date as int) matches Some(t) ==> (r matches Ok(v) && {
                &&& v.date@ == iso_text(date)
                &&& v.is_today == (date == now.day)
                &&& v.is_yesterday == (date == now.day - 1)
                &&& v.workday == workday_for(db.settings, db.versions@, date as int)
                &&& v.total_milli == net_on(db, db.log@, date as int, None, None)
                &&& v.target_nanos == t
                &&& v.base_minutes == day_minutes(db.versions@, date as int)
                &&& v.met_target == (v.workday && crate::ledger::met_spec(v.total_milli as int, t))
                &&& exists|ps: Seq<PlanView>, ord: Seq<usize>| #[trigger] plans_in_order(db, ps, ord) && {
                        &&& summary_plans_shown(db, date as int, ps, v.plans@)
                        &&& v.higher_priority_hint == hint_spec(ps, worked_plans(db, ps, date as int))
                    }
            }),
    {
        let days = attributed_days(db);
        let plans_of = row_plans(db);
        let ps = PlanService::list(db);
        let shown = summary_plans(db, &ps, &days, &plans_of, date);
        let total = net_where(db, &days, &plans_of, date, None, None);
        let ghost w = worked_plans(db, ps@, date as int);
        assert forall|i: int| 0 <= i < shown@.len() implies (#[trigger] shown@[i]).priority == w[i].priority by {
            assert(summary_plan_of(db, date as int, w[i], shown@[i]));
        }
        let best = max_rank_of(&shown, Ghost(w));
        let hint = outranking_not_started(&ps, best);
        let target = LedgerService::day_target_on(db, date)?;
        let workday = SettingsService::is_workday_on(db, date);
        let met = workday && day_met(total, target.target_nanos);
        assert(plans_in_order(db, ps@, choose|ord: Seq<usize>| plans_in_order(db, ps@, ord)));
        Ok(DailySummaryView {
            date: iso_date(date),
            is_today: date == now.day,
            is_yesterday: date == now.day - 1,
            workday,
            total_milli: total,
            target_nanos: target.target_nanos,
            base_minutes: target.base_minutes,
            met_target: met,
            higher_priority_hint: hint,
            plans: shown,
        })
    }
}

} // verus!
