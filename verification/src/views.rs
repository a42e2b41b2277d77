//! Read views: plans with their live tasks, each task with its sub-goals,
//! predecessors and derived progress.

use vstd::prelude::*;
use crate::deps::{predecessor_ids, predecessors_of};
use crate::order::{is_index_permutation, key_le, lists_index, sort_by_keys, sorted_by_keys, Key3};
use crate::plans::{rank, PauseReason, PlanError, PlanService, PlanStatus, Priority, TaskStatus};
use crate::store::{find_live_task, find_plan, has_plan_at, live_task_at, no_live_task, no_plan, Database, LogRow, PlanRow, SubGoalRow, TaskRow};
use crate::time::LocalTime;

verus! {

/// A sub-goal as shown (ordered by position = the order it was written).
#[derive(Debug, Clone, PartialEq, Eq)]
pub struct SubGoalView {
    pub id: i64,
    pub name: String,
    pub estimated_minutes: u32,
    pub position: i32,
    pub completed: bool,
}

/// Derived progress of a task: completed thousandths of a minute out of the
/// task's total minutes. With sub-goals the completed part is the sum of the
/// completed sub-goals; without, the sum of the task's progress log.
#[derive(Debug, Clone, Copy, PartialEq, Eq)]
pub struct TaskProgress {
    pub completed_milli: i128,
    pub total_minutes: u32,
}

/// A live task as shown.
#[derive(Debug, Clone, PartialEq, Eq)]
pub struct TaskView {
    pub id: i64,
    pub name: String,
    pub summary: String,
    pub detail: String,
    pub has_subgoals: bool,
    pub estimated_minutes: Option<u32>,
    pub position: i32,
    pub status: TaskStatus,
    pub subgoals: Vec<SubGoalView>,
    /// Ids of the tasks this one waits for.
    pub prerequisite_ids: Vec<i64>,
    pub progress: TaskProgress,
}

/// A plan with its live tasks.
#[derive(Debug, Clone, PartialEq, Eq)]
pub struct PlanView {
    pub id: i64,
    pub name: String,
    pub summary: String,
    pub detail: String,
    pub priority: Priority,
    pub due_date: Option<String>,
    pub status: PlanStatus,
    pub pause_reason: Option<PauseReason>,
    pub created_at: LocalTime,
    pub tasks: Vec<TaskView>,
}

/// Net logged progress of task `id` (thousandths of a minute).
pub open spec fn log_sum(log: Seq<LogRow>, id: i64) -> int
    decreases log.len(),
{
    if log.len() == 0 {
        0
    } else {
        log_sum(log.drop_last(), id) + if log.last().task_id == id { log.last().delta_milli as int } else { 0 }
    }
}

/// Minutes of the completed sub-goals of task `id`.
pub open spec fn done_sum(rows: Seq<SubGoalRow>, id: i64) -> int
    decreases rows.len(),
{
    if rows.len() == 0 {
        0
    } else {
        done_sum(rows.drop_last(), id) + if rows.last().task_id == id && rows.last().completed_at is Some {
            rows.last().estimated_minutes as int
        } else {
            0
        }
    }
}

/// Progress of the task row `t` in store `db`.
pub open spec fn progress_of(db: &Database, t: TaskRow) -> TaskProgress {
    TaskProgress {
        completed_milli: if t.has_subgoals { (1000 * done_sum(db.subgoals@, t.id)) as i128 } else { log_sum(db.log@, t.id) as i128 },
        total_minutes: match t.estimated_minutes { Some(m) => m, None => 0 },
    }
}

/// Progress reaches 100%.
pub open spec fn progress_complete(p: TaskProgress) -> bool {
    p.total_minutes > 0 && p.completed_milli >= p.total_minutes as int * 1000
}

impl TaskProgress {
    /// Whether progress reaches 100% of a non-zero total.
    pub fn is_complete(&self) -> (r: bool)
        ensures
            r == progress_complete(*self),
    {
        self.total_minutes > 0 && self.completed_milli >= self.total_minutes as i128 * 1000
    }

    /// Percentage in tenths of a percent, rounded to the nearest tenth with
    /// halves away from zero (0 when the total is zero).
    pub fn percent_tenths(&self) -> (r: i128)
        ensures
            self.total_minutes == 0 ==> r == 0,
            self.total_minutes > 0 && self.completed_milli >= 0 ==>
                2 * r * self.total_minutes - self.total_minutes <= 2 * self.completed_milli
                && 2 * self.completed_milli < 2 * r * self.total_minutes + self.total_minutes,
            self.total_minutes > 0 && self.completed_milli < 0 ==>
                2 * r * self.total_minutes - self.total_minutes < 2 * self.completed_milli
                && 2 * self.completed_milli <= 2 * r * self.total_minutes + self.total_minutes,
    {
        if self.total_minutes == 0 {
            return 0;
        }
        let t = self.total_minutes as u128;
        let c = self.completed_milli;
        let a: u128 = if c >= 0 { c as u128 } else { ((-(c + 1)) as u128) + 1 };
        assert(a as int == if c >= 0 { c as int } else { -c });
        let q = a / t;
        let rem = a % t;
        let up: u128 = if 2 * rem >= t { 1 } else { 0 };
        proof {
            assert(a == q * t + rem && 0 <= rem < t) by (nonlinear_arith)
                requires
                    t > 0,
                    q == a / t,
                    rem == a % t,
            ;
            assert(q + up <= a) by (nonlinear_arith)
                requires
                    a == q * t + rem,
                    0 <= rem < t,
                    t >= 1,
                    up == (if 2 * rem >= t { 1int } else { 0int }),
            ;
        }
        let m: u128 = q + up;
        proof {
            assert(2 * m * t - t <= 2 * a && 2 * a < 2 * m * t + t) by (nonlinear_arith)
                requires
                    a == q * t + rem,
                    0 <= rem < t,
                    m == q + up,
                    up == (if 2 * rem >= t { 1int } else { 0int }),
            ;
        }
        if c >= 0 {
            m as i128
        } else {
            proof {
                assert(2 * (-(m as int)) * t - t < 2 * c && 2 * c <= 2 * (-(m as int)) * t + t) by (nonlinear_arith)
                    requires
                        a == -c,
                        2 * m * t - t <= 2 * a,
                        2 * a < 2 * m * t + t,
                ;
            }
            if m == 0 {
                0
            } else {
                -((m - 1) as i128) - 1
            }
        }
    }
}

/// `r` lists, sorted by `keys`, exactly the indices `k` with `sel[k]`.
pub open spec fn selection_sorted(r: Seq<usize>, keys: Seq<Key3>, sel: Seq<bool>) -> bool {
    &&& forall|q: int| 0 <= q < r.len() ==> (#[trigger] r[q]) < keys.len() && sel[r[q] as int]
    &&& forall|a: int, b: int| 0 <= a < b < r.len() ==> r[a] != r[b]
    &&& forall|k: int| 0 <= k < keys.len() && sel[k] ==> #[trigger] lists_index(r, k)
    &&& forall|a: int, b: int| 0 <= a < b < r.len() ==> key_le(keys[r[a] as int], keys[r[b] as int])
}

/// The indices `k` with `sel[k]`, sorted by `keys` (ties in index order).
pub fn ordered_selection(keys: &Vec<Key3>, sel: &Vec<bool>) -> (r: Vec<usize>)
    requires
        keys@.len() == sel@.len(),
    ensures
        selection_sorted(r@, keys@, sel@),
{
    let n = keys.len();
    let mut picked: Vec<usize> = Vec::new();
    let mut i: usize = 0;
    while i < n
        invariant
            n == keys@.len() == sel@.len(),
            i <= n,
            forall|q: int| 0 <= q < picked@.len() ==> (#[trigger] picked@[q]) < i && sel@[picked@[q] as int],
            forall|a: int, b: int| 0 <= a < b < picked@.len() ==> picked@[a] < picked@[b],
            forall|k: int| 0 <= k < i && sel@[k] ==> #[trigger] lists_index(picked@, k),
        decreases n - i,
    {
        if sel[i] {
            let ghost before = picked@;
            picked.push(i);
            proof {
                assert forall|k: int| 0 <= k < i + 1 && sel@[k] implies #[trigger] lists_index(picked@, k) by {
                    if k == i {
                        assert(picked@[before.len() as int] == k);
                    } else {
                        assert(lists_index(before, k));
                        let q = choose|q: int| 0 <= q < before.len() && before[q] == k;
                        assert(picked@[q] == k);
                    }
                }
            }
        }
        i = i + 1;
    }
    let m = picked.len();
    let mut sub: Vec<Key3> = Vec::new();
    let mut j: usize = 0;
    while j < m
        invariant
            m == picked@.len(),
            n == keys@.len(),
            forall|q: int| 0 <= q < picked@.len() ==> (#[trigger] picked@[q]) < n,
            j <= m,
            sub@.len() == j,
            forall|q: int| 0 <= q < j ==> #[trigger] sub@[q] == keys@[picked@[q] as int],
        decreases m - j,
    {
        sub.push(keys[picked[j]]);
        j = j + 1;
    }
    let order = sort_by_keys(&sub);
    let mut out: Vec<usize> = Vec::new();
    let mut q: usize = 0;
    while q < m
        invariant
            m == picked@.len() == sub@.len(),
            is_index_permutation(order@, m as int),
            q <= m,
            out@.len() == q,
            forall|t: int| 0 <= t < q ==> #[trigger] out@[t] == picked@[order@[t] as int],
        decreases m - q,
    {
        out.push(picked[order[q]]);
        q = q + 1;
    }
    proof {
        assert forall|t: int| 0 <= t < out@.len() implies (#[trigger] out@[t]) < keys@.len() && sel@[out@[t] as int] by {
            assert(order@[t] < m);
        }
        assert forall|a: int, b: int| 0 <= a < b < out@.len() implies out@[a] != out@[b] by {
            assert(order@[a] < m && order@[b] < m && order@[a] != order@[b]);
            if order@[a] < order@[b] {
                assert(picked@[order@[a] as int] < picked@[order@[b] as int]);
            } else {
                assert(picked@[order@[b] as int] < picked@[order@[a] as int]);
            }
        }
        assert forall|k: int| 0 <= k < keys@.len() && sel@[k] implies #[trigger] lists_index(out@, k) by {
            assert(lists_index(picked@, k));
            let w = choose|w: int| 0 <= w < picked@.len() && picked@[w] == k;
            assert(lists_index(order@, w));
            let t = choose|t: int| 0 <= t < order@.len() && order@[t] == w;
            assert(out@[t] == k);
        }
        assert forall|a: int, b: int| 0 <= a < b < out@.len() implies key_le(keys@[out@[a] as int], keys@[out@[b] as int]) by {
            assert(key_le(sub@[order@[a] as int], sub@[order@[b] as int]));
            assert(order@[a] < m && order@[b] < m);
        }
    }
    out
}

/// Sort key of a task row: position, then id.
pub open spec fn task_key(t: TaskRow) -> Key3 {
    (t.position as i64, t.id, 0i64)
}

/// Sort key of a sub-goal row: position, then id.
pub open spec fn subgoal_key(s: SubGoalRow) -> Key3 {
    (s.position as i64, s.id, 0i64)
}

/// Sort key of a plan: priority descending, then newest first, then id descending.
pub open spec fn plan_key(p: PlanRow) -> Key3 {
    (-rank(p.priority) as i64, (-p.created_at.stamp()) as i64, -p.id as i64)
}

/// The sub-goal as shown.
pub open spec fn subgoal_view_of(s: SubGoalRow) -> SubGoalView {
    SubGoalView {
        id: s.id,
        name: s.name,
        estimated_minutes: s.estimated_minutes,
        position: s.position,
        completed: s.completed_at is Some,
    }
}

/// `views` shows, in the order `ord`, the sub-goals of task `id`, and `ord`
/// lists their rows sorted by position then id.
pub open spec fn subgoals_in_order(db: &Database, id: i64, views: Seq<SubGoalView>, ord: Seq<usize>) -> bool {
    &&& selection_sorted(ord,
        Seq::new(db.subgoals@.len(), |k: int| subgoal_key(db.subgoals@[k])),
        Seq::new(db.subgoals@.len(), |k: int| db.subgoals@[k].task_id == id))
    &&& views.len() == ord.len()
    &&& forall|q: int| 0 <= q < ord.len() ==> #[trigger] views[q] == subgoal_view_of(db.subgoals@[ord[q] as int])
}

/// `views` shows the sub-goals of task `id`, sorted by position then id.
pub open spec fn subgoals_shown(db: &Database, id: i64, views: Seq<SubGoalView>) -> bool {
    exists|ord: Seq<usize>| #[trigger] subgoals_in_order(db, id, views, ord)
}

/// `v` shows task row `t`.
pub open spec fn task_shown(db: &Database, t: TaskRow, v: TaskView) -> bool {
    &&& v.id == t.id
    &&& v.name == t.name
    &&& v.summary == t.summary
    &&& v.detail == t.detail
    &&& v.has_subgoals == t.has_subgoals
    &&& v.estimated_minutes == t.estimated_minutes
    &&& v.position == t.position
    &&& v.status == t.status
    &&& subgoals_shown(db, t.id, v.subgoals@)
    &&& v.prerequisite_ids@ == predecessors_of(db.deps@, t.id)
    &&& v.progress == progress_of(db, t)
}

/// `views` shows, in the order `ord`, the live tasks of plan `plan_id`, and
/// `ord` lists their rows sorted by position then id.
pub open spec fn tasks_in_order(db: &Database, plan_id: i64, views: Seq<TaskView>, ord: Seq<usize>) -> bool {
    &&& selection_sorted(ord,
        Seq::new(db.tasks@.len(), |k: int| task_key(db.tasks@[k])),
        Seq::new(db.tasks@.len(), |k: int| db.tasks@[k].plan_id == plan_id && db.tasks@[k].deleted_at is None))
    &&& views.len() == ord.len()
    &&& forall|q: int| 0 <= q < ord.len() ==> task_shown(db, db.tasks@[ord[q] as int], #[trigger] views[q])
}

/// `views` shows the live tasks of plan `plan_id`, sorted by position then id.
pub open spec fn tasks_shown(db: &Database, plan_id: i64, views: Seq<TaskView>) -> bool {
    exists|ord: Seq<usize>| #[trigger] tasks_in_order(db, plan_id, views, ord)
}

/// `views` shows, in the order `ord`, the task rows picked by `sel`, and `ord`
/// lists them sorted by position then id.
pub open spec fn picked_tasks_in_order(db: &Database, sel: Seq<bool>, views: Seq<TaskView>, ord: Seq<usize>) -> bool {
    &&& selection_sorted(ord, Seq::new(db.tasks@.len(), |k: int| task_key(db.tasks@[k])), sel)
    &&& views.len() == ord.len()
    &&& forall|q: int| 0 <= q < ord.len() ==> task_shown(db, db.tasks@[ord[q] as int], #[trigger] views[q])
}

/// `views` shows, in the order `ord`, every plan, and `ord` lists the plan rows
/// by priority (high first), then newest first, then id descending.
pub open spec fn plans_in_order(db: &Database, views: Seq<PlanView>, ord: Seq<usize>) -> bool {
    &&& selection_sorted(ord,
        Seq::new(db.plans@.len(), |k: int| plan_key(db.plans@[k])),
        Seq::new(db.plans@.len(), |k: int| true))
    &&& views.len() == ord.len()
    &&& forall|q: int| 0 <= q < ord.len() ==> plan_shown(db, db.plans@[ord[q] as int], #[trigger] views[q])
}

/// `v` shows plan row `p` with its live tasks.
pub open spec fn plan_shown(db: &Database, p: PlanRow, v: PlanView) -> bool {
    &&& v.id == p.id
    &&& v.name == p.name
    &&& v.summary == p.summary
    &&& v.detail == p.detail
    &&& v.priority == p.priority
    &&& v.due_date == p.due_date
    &&& v.status == p.status
    &&& v.pause_reason == p.pause_reason
    &&& v.created_at == p.created_at
    &&& tasks_shown(db, p.id, v.tasks@)
}

/// |log sum| stays within the count of events times the largest delta.
pub(crate) proof fn lemma_log_sum_bound(log: Seq<LogRow>, id: i64)
    ensures
        -(log.len() as int) * 0x8000_0000_0000_0000 <= log_sum(log, id) <= (log.len() as int) * 0x8000_0000_0000_0000,
    decreases log.len(),
{
    if log.len() > 0 {
        lemma_log_sum_bound(log.drop_last(), id);
    }
}

/// Net logged progress of task `id`.
pub fn log_sum_of(log: &Vec<LogRow>, id: i64) -> (r: i128)
    ensures
        r == log_sum(log@, id),
{
    let n = log.len();
    let mut sum: i128 = 0;
    let mut k: usize = 0;
    while k < n
        invariant
            n == log@.len(),
            k <= n,
            sum == log_sum(log@.subrange(0, k as int), id),
        decreases n - k,
    {
        assert(log@.subrange(0, k + 1).drop_last() =~= log@.subrange(0, k as int));
        proof {
            lemma_log_sum_bound(log@.subrange(0, k + 1), id);
            lemma_log_sum_bound(log@.subrange(0, k as int), id);
        }
        if log[k].task_id == id {
            sum = sum + log[k].delta_milli as i128;
        }
        k = k + 1;
    }
    assert(log@.subrange(0, n as int) =~= log@);
    sum
}

proof fn lemma_done_sum_bound(rows: Seq<SubGoalRow>, id: i64)
    ensures
        0 <= done_sum(rows, id) <= (rows.len() as int) * 0x1_0000_0000,
    decreases rows.len(),
{
    if rows.len() > 0 {
        lemma_done_sum_bound(rows.drop_last(), id);
    }
}

/// Minutes of the completed sub-goals of task `id`.
pub fn done_sum_of(rows: &Vec<SubGoalRow>, id: i64) -> (r: i128)
    ensures
        r == done_sum(rows@, id),
        0 <= r <= (rows@.len() as int) * 0x1_0000_0000,
{
    let n = rows.len();
    let mut sum: i128 = 0;
    let mut k: usize = 0;
    while k < n
        invariant
            n == rows@.len(),
            k <= n,
            sum == done_sum(rows@.subrange(0, k as int), id),
        decreases n - k,
    {
        assert(rows@.subrange(0, k + 1).drop_last() =~= rows@.subrange(0, k as int));
        proof {
            lemma_done_sum_bound(rows@.subrange(0, k + 1), id);
        }
        if rows[k].task_id == id && rows[k].completed_at.is_some() {
            sum = sum + rows[k].estimated_minutes as i128;
        }
        k = k + 1;
    }
    assert(rows@.subrange(0, n as int) =~= rows@);
    proof {
        lemma_done_sum_bound(rows@, id);
    }
    sum
}

/// Progress of the task row at index `i`.
pub fn progress_at(db: &Database, i: usize) -> (r: TaskProgress)
    requires
        i < db.tasks@.len(),
    ensures
        r == progress_of(db, db.tasks@[i as int]),
{
    let t = &db.tasks[i];
    let completed = if t.has_subgoals {
        let d = done_sum_of(&db.subgoals, t.id);
        let ns = db.subgoals.len();
        proof {
            assert(db.subgoals@.len() == ns);
            assert(d * 1000 <= (db.subgoals@.len() as int) * 0x1_0000_0000 * 1000) by (nonlinear_arith)
                requires
                    0 <= d <= (db.subgoals@.len() as int) * 0x1_0000_0000,
            ;
            assert((db.subgoals@.len() as int) * 0x1_0000_0000 * 1000 <= 0xffff_ffff_ffff_ffff * 0x1_0000_0000 * 1000) by (nonlinear_arith)
                requires
                    db.subgoals@.len() <= 0xffff_ffff_ffff_ffff,
            ;
        }
        1000 * d
    } else {
        log_sum_of(&db.log, t.id)
    };
    let total = match t.estimated_minutes {
        Some(m) => m,
        None => 0,
    };
    TaskProgress { completed_milli: completed, total_minutes: total }
}

/// Shown sub-goals of task `id`.
pub fn subgoal_views(db: &Database, id: i64) -> (r: Vec<SubGoalView>)
    ensures
        subgoals_shown(db, id, r@),
{
    let n = db.subgoals.len();
    let mut keys: Vec<Key3> = Vec::new();
    let mut sel: Vec<bool> = Vec::new();
    let mut k: usize = 0;
    while k < n
        invariant
            n == db.subgoals@.len(),
            k <= n,
            keys@.len() == k,
            sel@.len() == k,
            forall|q: int| 0 <= q < k ==> #[trigger] keys@[q] == subgoal_key(db.subgoals@[q]),
            forall|q: int| 0 <= q < k ==> #[trigger] sel@[q] == (db.subgoals@[q].task_id == id),
        decreases n - k,
    {
        keys.push((db.subgoals[k].position as i64, db.subgoals[k].id, 0));
        sel.push(db.subgoals[k].task_id == id);
        k = k + 1;
    }
    let ghost ks = Seq::new(db.subgoals@.len(), |q: int| subgoal_key(db.subgoals@[q]));
    let ghost ss = Seq::new(db.subgoals@.len(), |q: int| db.subgoals@[q].task_id == id);
    assert(keys@ =~= ks);
    assert(sel@ =~= ss);
    let ord = ordered_selection(&keys, &sel);
    let mut out: Vec<SubGoalView> = Vec::new();
    let m = ord.len();
    let mut q: usize = 0;
    while q < m
        invariant
            m == ord@.len(),
            n == db.subgoals@.len(),
            selection_sorted(ord@, ks, ss),
            ks.len() == n,
            q <= m,
            out@.len() == q,
            forall|t: int| 0 <= t < q ==> #[trigger] out@[t] == subgoal_view_of(db.subgoals@[ord@[t] as int]),
        decreases m - q,
    {
        let s = &db.subgoals[ord[q]];
        out.push(SubGoalView {
            id: s.id,
            name: s.name.clone(),
            estimated_minutes: s.estimated_minutes,
            position: s.position,
            completed: s.completed_at.is_some(),
        });
        q = q + 1;
    }
    assert(subgoals_in_order(db, id, out@, ord@));
    out
}

/// The task row at index `i`, shown.
pub fn task_view_at(db: &Database, i: usize) -> (r: TaskView)
    requires
        i < db.tasks@.len(),
    ensures
        task_shown(db, db.tasks@[i as int], r),
{
    let t = &db.tasks[i];
    TaskView {
        id: t.id,
        name: t.name.clone(),
        summary: t.summary.clone(),
        detail: t.detail.clone(),
        has_subgoals: t.has_subgoals,
        estimated_minutes: t.estimated_minutes,
        position: t.position,
        status: t.status,
        subgoals: subgoal_views(db, t.id),
        prerequisite_ids: predecessor_ids(&db.deps, t.id),
        progress: progress_at(db, i),
    }
}

/// Shown live tasks of plan `plan_id`.
pub fn task_views(db: &Database, plan_id: i64) -> (r: Vec<TaskView>)
    ensures
        tasks_shown(db, plan_id, r@),
{
    let n = db.tasks.len();
    let mut keys: Vec<Key3> = Vec::new();
    let mut sel: Vec<bool> = Vec::new();
    let mut k: usize = 0;
    while k < n
        invariant
            n == db.tasks@.len(),
            k <= n,
            keys@.len() == k,
            sel@.len() == k,
            forall|q: int| 0 <= q < k ==> #[trigger] keys@[q] == task_key(db.tasks@[q]),
            forall|q: int| 0 <= q < k ==> #[trigger] sel@[q] == (db.tasks@[q].plan_id == plan_id && db.tasks@[q].deleted_at is None),
        decreases n - k,
    {
        keys.push((db.tasks[k].position as i64, db.tasks[k].id, 0));
        sel.push(db.tasks[k].plan_id == plan_id && db.tasks[k].deleted_at.is_none());
        k = k + 1;
    }
    let ghost ks = Seq::new(db.tasks@.len(), |q: int| task_key(db.tasks@[q]));
    let ghost ss = Seq::new(db.tasks@.len(), |q: int| db.tasks@[q].plan_id == plan_id && db.tasks@[q].deleted_at is None);
    assert(keys@ =~= ks);
    assert(sel@ =~= ss);
    let ord = ordered_selection(&keys, &sel);
    let mut out: Vec<TaskView> = Vec::new();
    let m = ord.len();
    let mut q: usize = 0;
    while q < m
        invariant
            m == ord@.len(),
            n == db.tasks@.len(),
            selection_sorted(ord@, ks, ss),
            ks.len() == n,
            q <= m,
            out@.len() == q,
            forall|t: int| 0 <= t < q ==> task_shown(db, db.tasks@[ord@[t] as int], #[trigger] out@[t]),
        decreases m - q,
    {
        out.push(task_view_at(db, ord[q]));
        q = q + 1;
    }
    assert(tasks_in_order(db, plan_id, out@, ord@));
    out
}

/// Views of the task rows picked by `sel` (one flag per row), sorted by
/// position then id.
pub fn picked_task_views(db: &Database, sel: &Vec<bool>) -> (r: Vec<TaskView>)
    requires
        sel@.len() == db.tasks@.len(),
    ensures
        exists|ord: Seq<usize>| #[trigger] picked_tasks_in_order(db, sel@, r@, ord),
{
    let n = db.tasks.len();
    let mut keys: Vec<Key3> = Vec::new();
    let mut k: usize = 0;
    while k < n
        invariant
            n == db.tasks@.len(),
            k <= n,
            keys@.len() == k,
            forall|q: int| 0 <= q < k ==> #[trigger] keys@[q] == task_key(db.tasks@[q]),
        decreases n - k,
    {
        keys.push((db.tasks[k].position as i64, db.tasks[k].id, 0));
        k = k + 1;
    }
    let ghost ks = Seq::new(db.tasks@.len(), |q: int| task_key(db.tasks@[q]));
    assert(keys@ =~= ks);
    let ord = ordered_selection(&keys, sel);
    let mut out: Vec<TaskView> = Vec::new();
    let m = ord.len();
    let mut q: usize = 0;
    while q < m
        invariant
            m == ord@.len(),
            n == db.tasks@.len(),
            selection_sorted(ord@, ks, sel@),
            ks.len() == n,
            q <= m,
            out@.len() == q,
            forall|t: int| 0 <= t < q ==> task_shown(db, db.tasks@[ord@[t] as int], #[trigger] out@[t]),
        decreases m - q,
    {
        out.push(task_view_at(db, ord[q]));
        q = q + 1;
    }
    assert(picked_tasks_in_order(db, sel@, out@, ord@));
    out
}

/// The plan row at index `i`, shown with its live tasks.
pub fn plan_view_at(db: &Database, i: usize) -> (r: PlanView)
    requires
        i < db.plans@.len(),
    ensures
        plan_shown(db, db.plans@[i as int], r),
{
    let p = &db.plans[i];
    let due_date = match &p.due_date {
        Some(d) => Some(d.clone()),
        None => None,
    };
    PlanView {
        id: p.id,
        name: p.name.clone(),
        summary: p.summary.clone(),
        detail: p.detail.clone(),
        priority: p.priority,
        due_date,
        status: p.status,
        pause_reason: p.pause_reason,
        created_at: p.created_at,
        tasks: task_views(db, p.id),
    }
}

impl PlanService {
    /// One plan with its live tasks (by position); NotFound when absent.
    pub fn get(db: &Database, plan_id: i64) -> (r: Result<PlanView, PlanError>)
        requires
            db.wf(),
        ensures
            no_plan(db, plan_id) ==> r == Err::<PlanView, PlanError>(PlanError::NotFound),
            forall|i: int| has_plan_at(db, plan_id, i) ==> (r matches Ok(v) && plan_shown(db, db.plans@[i], v)),
    {
        match find_plan(db, plan_id) {
            Some(i) => {
                proof {
                    assert forall|j: int| has_plan_at(db, plan_id, j) implies j == i by {
                        if j != i {
                            if j < i {
                                assert(db.plans@[j].id != db.plans@[i as int].id);
                            } else {
                                assert(db.plans@[i as int].id != db.plans@[j].id);
                            }
                        }
                    }
                }
                Ok(plan_view_at(db, i))
            },
            None => Err(PlanError::NotFound),
        }
    }

    /// Every plan with its live tasks, ordered by priority (high first), then
    /// newest first, then id descending.
    pub fn list(db: &Database) -> (r: Vec<PlanView>)
        requires
            db.wf(),
        ensures
            exists|ord: Seq<usize>| #[trigger] plans_in_order(db, r@, ord),
    {
        let n = db.plans.len();
        let mut keys: Vec<Key3> = Vec::new();
        let mut sel: Vec<bool> = Vec::new();
        let mut k: usize = 0;
        while k < n
            invariant
                n == db.plans@.len(),
                db.wf(),
                k <= n,
                keys@.len() == k,
                sel@.len() == k,
                forall|q: int| 0 <= q < k ==> #[trigger] keys@[q] == plan_key(db.plans@[q]),
                forall|q: int| 0 <= q < k ==> #[trigger] sel@[q] == true,
            decreases n - k,
        {
            let p = &db.plans[k];
            assert(p.created_at.wf() && 1 <= p.id);
            let stamp: i64 = p.created_at.day * 1440 + p.created_at.minute as i64;
            keys.push((-(p.priority.rank() as i64), -stamp, -p.id));
            sel.push(true);
            k = k + 1;
        }
        let ghost ks = Seq::new(db.plans@.len(), |q: int| plan_key(db.plans@[q]));
        let ghost ss = Seq::new(db.plans@.len(), |q: int| true);
        assert(keys@ =~= ks);
        assert(sel@ =~= ss);
        let ord = ordered_selection(&keys, &sel);
        let mut out: Vec<PlanView> = Vec::new();
        let m = ord.len();
        let mut q: usize = 0;
        while q < m
            invariant
                m == ord@.len(),
                n == db.plans@.len(),
                selection_sorted(ord@, ks, ss),
                ks.len() == n,
                q <= m,
                out@.len() == q,
                forall|t: int| 0 <= t < q ==> plan_shown(db, db.plans@[ord@[t] as int], #[trigger] out@[t]),
            decreases m - q,
        {
            out.push(plan_view_at(db, ord[q]));
            q = q + 1;
        }
        assert(plans_in_order(db, out@, ord@));
        out
    }

    /// Derived progress of a live task; NotFound when absent or archived.
    pub fn task_progress(db: &Database, task_id: i64) -> (r: Result<TaskProgress, PlanError>)
        requires
            db.wf(),
        ensures
            no_live_task(db, task_id) ==> r == Err::<TaskProgress, PlanError>(PlanError::NotFound),
            forall|i: int| live_task_at(db, task_id, i) ==> r == Ok::<TaskProgress, PlanError>(progress_of(db, db.tasks@[i])),
    {
        match find_live_task(db, task_id) {
            Some(i) => {
                proof {
                    assert forall|j: int| live_task_at(db, task_id, j) implies j == i by {
                        if j != i {
                            if j < i {
                                assert(db.tasks@[j].id != db.tasks@[i as int].id);
                            } else {
                                assert(db.tasks@[i as int].id != db.tasks@[j].id);
                            }
                        }
                    }
                }
                Ok(progress_at(db, i))
            },
            None => Err(PlanError::NotFound),
        }
    }
}

} // verus!
