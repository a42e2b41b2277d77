//! Writing plans: creating a plan from its draft, editing it as a whole, and
//! archiving a task. Every check runs before the store changes, so a refused
//! request leaves the store as it was.

use vstd::prelude::*;
use crate::deps::{add_edge, copy_edges, detach_edges, detached, has_edge, reaches};
use crate::plans::{
    check_dep_indices, effective_minutes, effective_minutes_spec, estimates_fit, first_bad_dep, validate_spec,
    PlanDraft, PlanError, PlanService, PlanStatus, Priority, SubGoalDraft, TaskDraft, TaskStatus,
};
use crate::store::{find_live_task, live_task_at, no_live_task, Database, DepEdge, PlanRow, SubGoalRow, TaskRow};
use crate::text::{default_text, default_text_of, trimmed, trimmed_string};
use crate::time::LocalTime;

verus! {

/// Two optional texts hold the same characters (or are both absent).
pub open spec fn same_opt_text(a: Option<String>, b: Option<String>) -> bool {
    match (a, b) {
        (Some(x), Some(y)) => x@ == y@,
        (None, None) => true,
        _ => false,
    }
}

/// Estimate stored for a task draft (as the stored column holds it).
pub open spec fn stored_estimate(t: TaskDraft) -> Option<u32> {
    match effective_minutes_spec(t) {
        Some(m) => Some(m as u32),
        None => None,
    }
}

/// Row `row` holds the draft fields of task `t` (name and summary trimmed, a
/// blank summary falling back to the name, estimate as stored).
pub open spec fn task_fields_from(row: TaskRow, t: TaskDraft) -> bool {
    &&& row.name@ == trimmed(t.name@)
    &&& row.summary@ == default_text_of(t.summary@, t.name@)
    &&& row.detail@ == t.detail@
    &&& row.has_subgoals == t.has_subgoals
    &&& row.estimated_minutes == stored_estimate(t)
}

/// Row `row` is the new task `id` of plan `plan_id` at `pos`, made from `t` at `now`.
pub open spec fn new_task_row(row: TaskRow, t: TaskDraft, id: i64, plan_id: i64, pos: int, now: LocalTime) -> bool {
    &&& task_fields_from(row, t)
    &&& row.id == id
    &&& row.plan_id == plan_id
    &&& row.position == pos
    &&& row.status == TaskStatus::NotStarted
    &&& row.deleted_at is None
    &&& row.created_at == now
}

/// Row `row` is the new sub-goal `id` of task `task_id` at `pos`, made from `s` at `now`.
pub open spec fn new_subgoal_row(row: SubGoalRow, s: SubGoalDraft, id: i64, task_id: i64, pos: int, now: LocalTime) -> bool {
    &&& row.id == id
    &&& row.task_id == task_id
    &&& row.name@ == trimmed(s.name@)
    &&& row.estimated_minutes == s.estimated_minutes
    &&& row.position == pos
    &&& row.completed_at is None
    &&& row.created_at == now
}

/// Row `row` is the new plan `id` made from `d` at `now`: not started, no pause reason.
pub open spec fn new_plan_row(row: PlanRow, d: PlanDraft, id: i64, now: LocalTime) -> bool {
    &&& row.id == id
    &&& row.name@ == trimmed(d.name@)
    &&& row.summary@ == default_text_of(d.summary@, d.name@)
    &&& row.detail@ == d.detail@
    &&& row.priority == d.priority
    &&& same_opt_text(row.due_date, d.due_date)
    &&& row.status == PlanStatus::NotStarted
    &&& row.created_at == now
    &&& row.pause_reason is None
}

/// Number of sub-goal rows a task draft stores.
pub open spec fn sub_count(t: TaskDraft) -> int {
    if t.has_subgoals { t.subgoals@.len() as int } else { 0 }
}

/// Number of sub-goal rows the first `k` task drafts store.
pub open spec fn sub_offset(tasks: Seq<TaskDraft>, k: int) -> int
    decreases k,
{
    if k <= 0 || k > tasks.len() {
        0
    } else {
        sub_offset(tasks, k - 1) + sub_count(tasks[k - 1])
    }
}

/// The dependency pairs of draft task `i` as (predecessor id, successor id, task index).
pub open spec fn pairs_of(tasks: Seq<TaskDraft>, ids: Seq<i64>, i: int) -> Seq<(i64, i64, int)> {
    Seq::new(tasks[i].depends_on@.len(), |q: int| (ids[tasks[i].depends_on@[q] as int], ids[i], i))
}

/// The dependency pairs of the first `n` draft tasks, in draft order.
pub open spec fn draft_pairs(tasks: Seq<TaskDraft>, ids: Seq<i64>, n: int) -> Seq<(i64, i64, int)>
    decreases n,
{
    if n <= 0 || n > tasks.len() {
        Seq::empty()
    } else {
        draft_pairs(tasks, ids, n - 1) + pairs_of(tasks, ids, n - 1)
    }
}

/// Edges after adding the pairs one by one to `edges`; `Err(i)` names the draft
/// task whose pair first closes a cycle.
pub open spec fn link_pairs(edges: Seq<DepEdge>, pairs: Seq<(i64, i64, int)>) -> Result<Seq<DepEdge>, int>
    decreases pairs.len(),
{
    if pairs.len() == 0 {
        Ok(edges)
    } else {
        match link_pairs(edges, pairs.drop_last()) {
            Err(i) => Err(i),
            Ok(e) => {
                let (p, s, i) = pairs.last();
                if p == s || reaches(e, s, p) {
                    Err(i)
                } else if has_edge(e, p, s) {
                    Ok(e)
                } else {
                    Ok(e.push(DepEdge { predecessor_id: p, successor_id: s }))
                }
            },
        }
    }
}

/// Ids handed to the new tasks of a created plan, in draft order.
pub open spec fn fresh_ids(first: i64, n: int) -> Seq<i64> {
    Seq::new(n as nat, |k: int| (first + k) as i64)
}

/// Creating the draft would need identifiers past `i64::MAX`.
pub open spec fn create_exhausts_ids(db: &Database, d: PlanDraft) -> bool {
    ||| db.next_plan_id >= i64::MAX
    ||| db.next_task_id + d.tasks@.len() > i64::MAX
    ||| db.next_subgoal_id + sub_offset(d.tasks@, d.tasks@.len() as int) > i64::MAX
}

/// Every table but plans, tasks, sub-goals and edges (and their counters) is unchanged.
pub open spec fn rest_unchanged(a: &Database, b: &Database) -> bool {
    &&& b.settings == a.settings
    &&& b.settings_updated_at == a.settings_updated_at
    &&& b.versions@ == a.versions@
    &&& b.allocation == a.allocation
    &&& b.log@ == a.log@
    &&& b.current_task == a.current_task
    &&& b.summary_shown@ == a.summary_shown@
    &&& b.next_log_id == a.next_log_id
}

/// The store after a successful creation of draft `d` as plan `id` at `now`,
/// with the dependency edges `edges`.
pub open spec fn created(old: &Database, new: &Database, d: PlanDraft, now: LocalTime, edges: Seq<DepEdge>) -> bool {
    let n = d.tasks@.len() as int;
    let id = old.next_plan_id;
    &&& new.plans@.len() == old.plans@.len() + 1
    &&& new.plans@.subrange(0, old.plans@.len() as int) == old.plans@
    &&& new_plan_row(new.plans@.last(), d, id, now)
    &&& new.tasks@.len() == old.tasks@.len() + n
    &&& new.tasks@.subrange(0, old.tasks@.len() as int) == old.tasks@
    &&& forall|k: int| 0 <= k < n ==> new_task_row(#[trigger] new.tasks@[old.tasks@.len() + k], d.tasks@[k],
            (old.next_task_id + k) as i64, id, k, now)
    &&& new.subgoals@.len() == old.subgoals@.len() + sub_offset(d.tasks@, n)
    &&& new.subgoals@.subrange(0, old.subgoals@.len() as int) == old.subgoals@
    &&& forall|k: int, j: int| 0 <= k < n && 0 <= j < sub_count(d.tasks@[k]) ==> new_subgoal_row(
            #[trigger] new.subgoals@[old.subgoals@.len() + sub_offset(d.tasks@, k) + j], d.tasks@[k].subgoals@[j],
            (old.next_subgoal_id + sub_offset(d.tasks@, k) + j) as i64, (old.next_task_id + k) as i64, j, now)
    &&& new.deps@ == edges
    &&& new.next_plan_id == id + 1
    &&& new.next_task_id == old.next_task_id + n
    &&& new.next_subgoal_id == old.next_subgoal_id + sub_offset(d.tasks@, n)
    &&& rest_unchanged(old, new)
}

proof fn lemma_sub_offset_grows(tasks: Seq<TaskDraft>, a: int, b: int)
    requires
        0 <= a <= b <= tasks.len(),
    ensures
        0 <= sub_offset(tasks, a) <= sub_offset(tasks, b),
    decreases b,
{
    if b > 0 {
        if a == b {
            lemma_sub_offset_grows(tasks, a - 1, b - 1);
        } else {
            lemma_sub_offset_grows(tasks, a, b - 1);
        }
    }
}

/// Adds the dependency pairs of a draft whose tasks got the ids `ids`.
pub fn link_draft_pairs(edges: &mut Vec<DepEdge>, tasks: &Vec<TaskDraft>, ids: &Vec<i64>) -> (r: Result<(), PlanError>)
    requires
        ids@.len() == tasks@.len(),
        forall|i: int, k: int| 0 <= i < tasks@.len() && 0 <= k < tasks@[i].depends_on@.len()
            ==> #[trigger] tasks@[i].depends_on@[k] < tasks@.len(),
    ensures
        match link_pairs(old(edges)@, draft_pairs(tasks@, ids@, tasks@.len() as int)) {
            Ok(e) => r is Ok && final(edges)@ == e,
            Err(i) => r == Err::<(), PlanError>(PlanError::DependencyCycle { task_index: Some(i as usize) }),
        },
{
    let ghost base = edges@;
    let n = tasks.len();
    let mut i: usize = 0;
    while i < n
        invariant
            n == tasks@.len(),
            ids@.len() == n,
            i <= n,
            forall|a: int, k: int| 0 <= a < tasks@.len() && 0 <= k < tasks@[a].depends_on@.len()
                ==> #[trigger] tasks@[a].depends_on@[k] < tasks@.len(),
            link_pairs(base, draft_pairs(tasks@, ids@, i as int)) == Ok::<Seq<DepEdge>, int>(edges@),
            base == old(edges)@,
        decreases n - i,
    {
        let deps = &tasks[i].depends_on;
        let m = deps.len();
        let mut k: usize = 0;
        while k < m
            invariant
                n == tasks@.len(),
                ids@.len() == n,
                i < n,
                m == deps@.len(),
                deps == tasks@[i as int].depends_on,
                k <= m,
                forall|a: int, q: int| 0 <= a < tasks@.len() && 0 <= q < tasks@[a].depends_on@.len()
                    ==> #[trigger] tasks@[a].depends_on@[q] < tasks@.len(),
                link_pairs(base, draft_pairs(tasks@, ids@, i as int) + pairs_of(tasks@, ids@, i as int).take(k as int))
                    == Ok::<Seq<DepEdge>, int>(edges@),
                base == old(edges)@,
            decreases m - k,
        {
            let p = ids[deps[k]];
            let s = ids[i];
            let ghost before = edges@;
            let ghost done = draft_pairs(tasks@, ids@, i as int) + pairs_of(tasks@, ids@, i as int).take(k as int);
            let ghost next = draft_pairs(tasks@, ids@, i as int) + pairs_of(tasks@, ids@, i as int).take(k + 1);
            assert(next.drop_last() =~= done);
            assert(next.last() == (p, s, i as int));
            let added = add_edge(edges, p, s);
            if added.is_err() {
                assert((i as int) as usize == i);
                proof {
                    lemma_link_pairs_err_sticks(base, next, draft_pairs(tasks@, ids@, tasks@.len() as int), tasks@, ids@, i as int, k + 1);
                }
                return Err(PlanError::DependencyCycle { task_index: Some(i) });
            }
            k = k + 1;
        }
        assert(pairs_of(tasks@, ids@, i as int).take(m as int) =~= pairs_of(tasks@, ids@, i as int));
        assert(draft_pairs(tasks@, ids@, i + 1) == draft_pairs(tasks@, ids@, i as int) + pairs_of(tasks@, ids@, i as int));
        i = i + 1;
    }
    Ok(())
}

/// `draft_pairs` of all tasks starts with the pairs before task `i` followed by
/// the first `k` pairs of task `i`.
proof fn lemma_pairs_prefix(tasks: Seq<TaskDraft>, ids: Seq<i64>, i: int, k: int)
    requires
        0 <= i < tasks.len(),
        0 <= k <= tasks[i].depends_on@.len(),
    ensures
        (draft_pairs(tasks, ids, i) + pairs_of(tasks, ids, i).take(k)).is_prefix_of(draft_pairs(tasks, ids, tasks.len() as int)),
    decreases tasks.len() - i,
{
    let pre = draft_pairs(tasks, ids, i) + pairs_of(tasks, ids, i).take(k);
    let full_i = draft_pairs(tasks, ids, i + 1);
    assert(full_i == draft_pairs(tasks, ids, i) + pairs_of(tasks, ids, i));
    assert(pre.is_prefix_of(full_i)) by {
        assert forall|q: int| 0 <= q < pre.len() implies pre[q] == full_i[q] by {}
    }
    if i + 1 < tasks.len() {
        lemma_pairs_prefix(tasks, ids, i + 1, 0);
        assert(draft_pairs(tasks, ids, i + 1) + pairs_of(tasks, ids, i + 1).take(0) =~= full_i);
    } else {
        assert(i + 1 == tasks.len());
    }
    let all = draft_pairs(tasks, ids, tasks.len() as int);
    assert(full_i.is_prefix_of(all));
    assert forall|q: int| 0 <= q < pre.len() implies pre[q] == all[q] by {
        assert(pre[q] == full_i[q]);
    }
}

/// Once a prefix of the pairs fails, every longer list fails the same way.
proof fn lemma_link_pairs_err_prefix(edges: Seq<DepEdge>, pre: Seq<(i64, i64, int)>, all: Seq<(i64, i64, int)>, i: int)
    requires
        pre.is_prefix_of(all),
        link_pairs(edges, pre) == Err::<Seq<DepEdge>, int>(i),
    ensures
        link_pairs(edges, all) == Err::<Seq<DepEdge>, int>(i),
    decreases all.len(),
{
    if all.len() > pre.len() {
        assert(pre.is_prefix_of(all.drop_last())) by {
            assert forall|q: int| 0 <= q < pre.len() implies pre[q] == all.drop_last()[q] by {}
        }
        lemma_link_pairs_err_prefix(edges, pre, all.drop_last(), i);
    } else {
        assert(pre =~= all);
    }
}

proof fn lemma_link_pairs_err_sticks(edges: Seq<DepEdge>, next: Seq<(i64, i64, int)>, all: Seq<(i64, i64, int)>,
    tasks: Seq<TaskDraft>, ids: Seq<i64>, i: int, k: int)
    requires
        0 <= i < tasks.len(),
        0 <= k <= tasks[i].depends_on@.len(),
        next == draft_pairs(tasks, ids, i) + pairs_of(tasks, ids, i).take(k),
        all == draft_pairs(tasks, ids, tasks.len() as int),
        link_pairs(edges, next) == Err::<Seq<DepEdge>, int>(i),
    ensures
        link_pairs(edges, all) == Err::<Seq<DepEdge>, int>(i),
{
    lemma_pairs_prefix(tasks, ids, i, k);
    lemma_link_pairs_err_prefix(edges, next, all, i);
}

/// Every field but the sub-goals and their counter is the same in `a` and `b`.
pub open spec fn same_but_subgoals(a: &Database, b: &Database) -> bool {
    &&& b.plans@ == a.plans@
    &&& b.tasks@ == a.tasks@
    &&& b.deps@ == a.deps@
    &&& b.next_plan_id == a.next_plan_id
    &&& b.next_task_id == a.next_task_id
    &&& rest_unchanged(a, b)
}

/// Positions of a task's sub-goal rows fit the stored column.
pub open spec fn subgoal_positions_fit(t: TaskDraft) -> bool {
    t.subgoals@.len() <= i32::MAX
}

/// `new` is `old` with task draft `t` appended as task `old.next_task_id` of plan
/// `plan_id` at `pos`, followed by its sub-goal rows.
pub open spec fn appended_task(old: &Database, new: &Database, t: TaskDraft, plan_id: i64, pos: int, now: LocalTime) -> bool {
    let tid = old.next_task_id;
    &&& new.tasks@.len() == old.tasks@.len() + 1
    &&& new.tasks@.drop_last() == old.tasks@
    &&& new_task_row(new.tasks@.last(), t, tid, plan_id, pos, now)
    &&& new.next_task_id == tid + 1
    &&& new.subgoals@.len() == old.subgoals@.len() + sub_count(t)
    &&& new.subgoals@.subrange(0, old.subgoals@.len() as int) == old.subgoals@
    &&& forall|j: int| 0 <= j < sub_count(t) ==> new_subgoal_row(#[trigger] new.subgoals@[old.subgoals@.len() + j],
            t.subgoals@[j], (old.next_subgoal_id + j) as i64, tid, j, now)
    &&& new.next_subgoal_id == old.next_subgoal_id + sub_count(t)
    &&& new.plans@ == old.plans@
    &&& new.deps@ == old.deps@
    &&& new.next_plan_id == old.next_plan_id
    &&& rest_unchanged(old, new)
}

/// Appends task draft `t` as a new task of plan `plan_id` at `pos`, with its sub-goals.
pub fn push_task_rows(db: &mut Database, plan_id: i64, t: &TaskDraft, pos: i32, now: LocalTime)
    requires
        old(db).wf(),
        old(db).next_task_id < i64::MAX,
        old(db).next_subgoal_id + sub_count(*t) <= i64::MAX,
        estimates_fit(*t),
        subgoal_positions_fit(*t),
    ensures
        final(db).wf(),
        appended_task(old(db), final(db), *t, plan_id, pos as int, now),
{
    let tid = db.next_task_id;
    let row = TaskRow {
        id: tid,
        plan_id,
        name: trimmed_string(t.name.as_str()),
        summary: default_text(t.summary.as_str(), t.name.as_str()),
        detail: t.detail.clone(),
        has_subgoals: t.has_subgoals,
        estimated_minutes: effective_minutes(t),
        position: pos,
        status: TaskStatus::NotStarted,
        deleted_at: None,
        created_at: now,
    };
    db.tasks.push(row);
    db.next_task_id = tid + 1;
    assert(db.tasks@.drop_last() =~= old(db).tasks@);
    if t.has_subgoals {
        let m = t.subgoals.len();
        let ghost start = db.subgoals@.len();
        let ghost mid = *db;
        let mut j: usize = 0;
        while j < m
            invariant
                m == t.subgoals@.len(),
                t.has_subgoals,
                j <= m,
                start == old(db).subgoals@.len(),
                db.subgoals@.len() == start + j,
                db.subgoals@.subrange(0, start as int) == old(db).subgoals@,
                forall|q: int| 0 <= q < j ==> new_subgoal_row(#[trigger] db.subgoals@[start + q],
                    t.subgoals@[q], (old(db).next_subgoal_id + q) as i64, tid, q, now),
                db.next_subgoal_id == old(db).next_subgoal_id + j,
                old(db).next_subgoal_id + m <= i64::MAX,
                crate::store::subgoal_ids_ok(db.subgoals@, db.next_subgoal_id),
                crate::store::subgoal_tasks_ok(db.subgoals@, db.next_task_id),
                db.next_task_id == tid + 1,
                1 <= db.next_subgoal_id,
                same_but_subgoals(&mid, db),
                m <= i32::MAX,
            decreases m - j,
        {
            let sd = &t.subgoals[j];
            let sid = db.next_subgoal_id;
            let ghost before = db.subgoals@;
            db.subgoals.push(SubGoalRow {
                id: sid,
                task_id: tid,
                name: trimmed_string(sd.name.as_str()),
                estimated_minutes: sd.estimated_minutes,
                position: j as i32,
                completed_at: None,
                created_at: now,
            });
            db.next_subgoal_id = sid + 1;
            proof {
                assert(db.subgoals@.subrange(0, start as int) =~= before.subrange(0, start as int));
                assert forall|q: int| 0 <= q < j + 1 implies new_subgoal_row(#[trigger] db.subgoals@[start + q],
                    t.subgoals@[q], (old(db).next_subgoal_id + q) as i64, tid, q, now) by {
                    if q < j {
                        assert(db.subgoals@[start + q] == before[start + q]);
                    }
                }
                assert forall|a: int, b: int| 0 <= a < b < db.subgoals@.len() implies db.subgoals@[a].id != db.subgoals@[b].id by {
                    if b < before.len() {
                        assert(before[a].id != before[b].id);
                    } else {
                        assert(before[a].id < sid);
                    }
                }
            }
            j = j + 1;
        }
    } else {
        assert(db.subgoals@.subrange(0, db.subgoals@.len() as int) =~= db.subgoals@);
    }
    proof {
        assert forall|a: int, b: int| 0 <= a < b < db.tasks@.len() implies db.tasks@[a].id != db.tasks@[b].id by {
            if b < old(db).tasks@.len() {
                assert(old(db).tasks@[a].id != old(db).tasks@[b].id);
            } else {
                assert(old(db).tasks@[a].id < tid);
            }
        }
    }
}

/// Sizes of a draft fit the stored columns: task and sub-goal positions fit
/// `i32`, sub-goal estimates of a task sum within `u32`.
pub open spec fn draft_sizes_fit(d: PlanDraft) -> bool {
    &&& d.tasks@.len() <= i32::MAX
    &&& forall|k: int| 0 <= k < d.tasks@.len() ==> estimates_fit(#[trigger] d.tasks@[k]) && subgoal_positions_fit(d.tasks@[k])
}

/// Outcome of creating plan draft `d` at `now` on store `old`, giving `new` and
/// `r`: the draft rules first, then the dependency indexes, then the identifier
/// space, then cycles among the draft's dependencies (the error names the task
/// whose dependency closes one); otherwise the plan, its tasks (new ids in draft
/// order) and sub-goals are stored and the edges added.
pub open spec fn create_outcome(old: &Database, new: &Database, d: PlanDraft, now: LocalTime, r: Result<i64, PlanError>) -> bool {
    let n = d.tasks@.len() as int;
    match validate_spec(d) {
        Err(e) => r == Err::<i64, PlanError>(e) && *new == *old,
        Ok(_) => match first_bad_dep(d.tasks@, 0) {
            Some(i) => r == Err::<i64, PlanError>(PlanError::DependencyInvalid { task_index: i as usize }) && *new == *old,
            None => if create_exhausts_ids(old, d) {
                r matches Err(PlanError::Storage(_)) && *new == *old
            } else {
                match link_pairs(old.deps@, draft_pairs(d.tasks@, fresh_ids(old.next_task_id, n), n)) {
                    Err(i) => r == Err::<i64, PlanError>(PlanError::DependencyCycle { task_index: Some(i as usize) })
                        && *new == *old,
                    Ok(e) => r == Ok::<i64, PlanError>(old.next_plan_id) && created(old, new, d, now, e),
                }
            },
        },
    }
}

/// Whether the identifiers of a creation of `d` would run out, as `create_exhausts_ids`.
fn creation_exhausts_ids(db: &Database, d: &PlanDraft) -> (r: bool)
    requires
        db.wf(),
    ensures
        r == create_exhausts_ids(db, *d),
{
    let n = d.tasks.len();
    if db.next_plan_id == i64::MAX {
        return true;
    }
    if n as u64 > (i64::MAX - db.next_task_id) as u64 {
        return true;
    }
    let mut room: u64 = (i64::MAX - db.next_subgoal_id) as u64;
    let mut k: usize = 0;
    while k < n
        invariant
            n == d.tasks@.len(),
            k <= n,
            db.wf(),
            sub_offset(d.tasks@, k as int) <= i64::MAX - db.next_subgoal_id,
            room == i64::MAX - db.next_subgoal_id - sub_offset(d.tasks@, k as int),
        decreases n - k,
    {
        let t = &d.tasks[k];
        let c: u64 = if t.has_subgoals { t.subgoals.len() as u64 } else { 0 };
        assert(sub_offset(d.tasks@, k + 1) == sub_offset(d.tasks@, k as int) + c);
        if c > room {
            proof {
                lemma_sub_offset_grows(d.tasks@, k + 1, n as int);
            }
            return true;
        }
        room = room - c;
        k = k + 1;
    }
    false
}

impl PlanService {
    /// Creates a plan with all its tasks, sub-goals and dependencies at `now`,
    /// as one change (see `create_outcome`); a blank summary falls back to the
    /// name. Returns the new plan's id.
    pub fn create(db: &mut Database, now: LocalTime, new: &PlanDraft) -> (r: Result<i64, PlanError>)
        requires
            old(db).wf(),
            now.wf(),
            draft_sizes_fit(*new),
        ensures
            final(db).wf(),
            create_outcome(old(db), final(db), *new, now, r),
    {
        new.validate()?;
        check_dep_indices(&new.tasks)?;
        if creation_exhausts_ids(db, new) {
            return Err(PlanError::Storage("identifier space exhausted".to_owned()));
        }
        let n = new.tasks.len();
        let first = db.next_task_id;
        let mut ids: Vec<i64> = Vec::new();
        let mut k: usize = 0;
        while k < n
            invariant
                n == new.tasks@.len(),
                k <= n,
                first + n <= i64::MAX,
                n <= i32::MAX,
                ids@ == fresh_ids(first, k as int),
            decreases n - k,
        {
            ids.push(first + k as i64);
            assert(ids@ =~= fresh_ids(first, k + 1));
            k = k + 1;
        }
        let mut edges = copy_edges(&db.deps);
        link_draft_pairs(&mut edges, &new.tasks, &ids)?;
        let ghost start = *db;
        let plan_id = db.next_plan_id;
        db.plans.push(PlanRow {
            id: plan_id,
            name: trimmed_string(new.name.as_str()),
            summary: default_text(new.summary.as_str(), new.name.as_str()),
            detail: new.detail.clone(),
            priority: new.priority,
            due_date: new.due_date.clone(),
            status: PlanStatus::NotStarted,
            created_at: now,
            pause_reason: None,
        });
        db.next_plan_id = plan_id + 1;
        proof {
            assert forall|a: int, b: int| 0 <= a < b < db.plans@.len() implies db.plans@[a].id != db.plans@[b].id by {
                if b < start.plans@.len() {
                    assert(start.plans@[a].id != start.plans@[b].id);
                } else {
                    assert(start.plans@[a].id < plan_id);
                }
            }
            assert(db.plans@.subrange(0, start.plans@.len() as int) =~= start.plans@);
        }
        let ghost after_plan = *db;
        let mut k: usize = 0;
        while k < n
            invariant
                n == new.tasks@.len(),
                k <= n,
                db.wf(),
                draft_sizes_fit(*new),
                after_plan.wf(),
                db.plans@ == after_plan.plans@,
                db.deps@ == after_plan.deps@,
                db.next_plan_id == after_plan.next_plan_id,
                rest_unchanged(&start, db),
                after_plan.tasks@ == start.tasks@,
                after_plan.subgoals@ == start.subgoals@,
                after_plan.next_task_id == start.next_task_id,
                after_plan.next_subgoal_id == start.next_subgoal_id,
                start.next_task_id + n <= i64::MAX,
                start.next_subgoal_id + sub_offset(new.tasks@, n as int) <= i64::MAX,
                db.tasks@.len() == start.tasks@.len() + k,
                db.tasks@.subrange(0, start.tasks@.len() as int) == start.tasks@,
                forall|q: int| 0 <= q < k ==> new_task_row(#[trigger] db.tasks@[start.tasks@.len() + q], new.tasks@[q],
                    (start.next_task_id + q) as i64, plan_id, q, now),
                db.next_task_id == start.next_task_id + k,
                db.subgoals@.len() == start.subgoals@.len() + sub_offset(new.tasks@, k as int),
                db.subgoals@.subrange(0, start.subgoals@.len() as int) == start.subgoals@,
                forall|q: int, j: int| 0 <= q < k && 0 <= j < sub_count(new.tasks@[q]) ==> new_subgoal_row(
                    #[trigger] db.subgoals@[start.subgoals@.len() + sub_offset(new.tasks@, q) + j], new.tasks@[q].subgoals@[j],
                    (start.next_subgoal_id + sub_offset(new.tasks@, q) + j) as i64, (start.next_task_id + q) as i64, j, now),
                db.next_subgoal_id == start.next_subgoal_id + sub_offset(new.tasks@, k as int),
            decreases n - k,
        {
            let ghost before = *db;
            proof {
                lemma_sub_offset_grows(new.tasks@, k + 1, n as int);
                lemma_sub_offset_grows(new.tasks@, k as int, n as int);
                assert(sub_offset(new.tasks@, k + 1) == sub_offset(new.tasks@, k as int) + sub_count(new.tasks@[k as int]));
            }
            push_task_rows(db, plan_id, &new.tasks[k], k as i32, now);
            proof {
                let bt = before.tasks@.len();
                let bs = before.subgoals@.len();
                assert forall|i: int| 0 <= i < bs implies db.subgoals@[i] == before.subgoals@[i] by {
                    assert(db.subgoals@.subrange(0, bs as int)[i] == db.subgoals@[i]);
                }
                assert forall|i: int| 0 <= i < bt implies db.tasks@[i] == before.tasks@[i] by {
                    assert(db.tasks@.drop_last()[i] == db.tasks@[i]);
                }
                assert(db.tasks@.subrange(0, start.tasks@.len() as int) =~= before.tasks@.subrange(0, start.tasks@.len() as int));
                assert forall|q: int| 0 <= q < k + 1 implies new_task_row(#[trigger] db.tasks@[start.tasks@.len() + q], new.tasks@[q],
                    (start.next_task_id + q) as i64, plan_id, q, now) by {
                    if q < k {
                        assert(db.tasks@[start.tasks@.len() + q] == before.tasks@[start.tasks@.len() + q]);
                    }
                }
                assert(db.subgoals@.subrange(0, start.subgoals@.len() as int) =~= before.subgoals@.subrange(0, start.subgoals@.len() as int));
                assert forall|q: int, j: int| 0 <= q < k + 1 && 0 <= j < sub_count(new.tasks@[q]) implies new_subgoal_row(
                    #[trigger] db.subgoals@[start.subgoals@.len() + sub_offset(new.tasks@, q) + j], new.tasks@[q].subgoals@[j],
                    (start.next_subgoal_id + sub_offset(new.tasks@, q) + j) as i64, (start.next_task_id + q) as i64, j, now) by {
                    if q < k {
                        lemma_sub_offset_grows(new.tasks@, q + 1, k as int);
                        lemma_sub_offset_grows(new.tasks@, q, q + 1);
                        assert(sub_offset(new.tasks@, q + 1) == sub_offset(new.tasks@, q) + sub_count(new.tasks@[q]));
                        assert(db.subgoals@[start.subgoals@.len() + sub_offset(new.tasks@, q) + j]
                            == before.subgoals@[start.subgoals@.len() + sub_offset(new.tasks@, q) + j]);
                    } else {
                        assert(db.subgoals@[bs + j] == db.subgoals@[start.subgoals@.len() + sub_offset(new.tasks@, q) + j]);
                    }
                }
            }
            k = k + 1;
        }
        db.deps = edges;
        proof {
            assert(ids@ == fresh_ids(start.next_task_id, n as int));
        }
        Ok(plan_id)
    }
}

/// Every table but tasks and edges is unchanged, counters included.
pub open spec fn only_tasks_and_edges_changed(a: &Database, b: &Database) -> bool {
    &&& b.plans@ == a.plans@
    &&& b.subgoals@ == a.subgoals@
    &&& b.next_plan_id == a.next_plan_id
    &&& b.next_task_id == a.next_task_id
    &&& b.next_subgoal_id == a.next_subgoal_id
    &&& rest_unchanged(a, b)
}

impl PlanService {
    /// Archives a live task at `now` (its `deleted_at` is set) and removes every
    /// edge it has, so its successors are no longer held by it; NotFound when
    /// the task is absent or already archived.
    pub fn delete_task(db: &mut Database, now: LocalTime, task_id: i64) -> (r: Result<(), PlanError>)
        requires
            old(db).wf(),
        ensures
            final(db).wf(),
            no_live_task(old(db), task_id) ==> r == Err::<(), PlanError>(PlanError::NotFound) && *final(db) == *old(db),
            forall|i: int| live_task_at(old(db), task_id, i) ==> {
                &&& r is Ok
                &&& final(db).tasks@ == old(db).tasks@.update(i, (TaskRow { deleted_at: Some(now), ..old(db).tasks@[i] }))
                &&& final(db).deps@ == detached(old(db).deps@, task_id)
                &&& only_tasks_and_edges_changed(old(db), final(db))
            },
    {
        let i = match find_live_task(db, task_id) {
            Some(i) => i,
            None => return Err(PlanError::NotFound),
        };
        proof {
            assert forall|j: int| live_task_at(db, task_id, j) implies j == i by {
                if j != i {
                    if j < i {
                        assert(db.tasks@[j].id != db.tasks@[i as int].id);
                    } else {
                        assert(db.tasks@[i as int].id != db.tasks@[j].id);
                    }
                }
            }
        }
        let ghost before = db.tasks@;
        let mut row = db.tasks.remove(i);
        row.deleted_at = Some(now);
        db.tasks.insert(i, row);
        assert(db.tasks@ =~= before.update(i as int, (TaskRow { deleted_at: Some(now), ..before[i as int] })));
        let edges = detach_edges(&db.deps, task_id);
        db.deps = edges;
        proof {
            assert forall|a: int, b: int| 0 <= a < b < db.tasks@.len() implies db.tasks@[a].id != db.tasks@[b].id by {
                assert(before[a].id != before[b].id);
            }
            assert forall|k: int| 0 <= k < db.tasks@.len() implies 1 <= (#[trigger] db.tasks@[k]).id < db.next_task_id by {
                assert(before[k].id == db.tasks@[k].id);
            }
        }
        Ok(())
    }
}

/// Whether a plan's sizes fit the stored columns (see `draft_sizes_fit`): the
/// check to make before creating or editing a plan.
pub fn draft_fits(d: &PlanDraft) -> (r: bool)
    ensures
        r == draft_sizes_fit(*d),
{
    if d.tasks.len() > 0x7fff_ffff {
        return false;
    }
    let n = d.tasks.len();
    let mut k: usize = 0;
    while k < n
        invariant
            n == d.tasks@.len(),
            n <= 0x7fff_ffff,
            k <= n,
            forall|q: int| 0 <= q < k ==> estimates_fit(#[trigger] d.tasks@[q]) && subgoal_positions_fit(d.tasks@[q]),
        decreases n - k,
    {
        let t = &d.tasks[k];
        if t.subgoals.len() > 0x7fff_ffff {
            return false;
        }
        let m = t.subgoals.len();
        let mut sum: u64 = 0;
        let mut j: usize = 0;
        while j < m
            invariant
                m == t.subgoals@.len(),
                k < n,
                n == d.tasks@.len(),
                n <= 0x7fff_ffff,
                *t == d.tasks@[k as int],
                forall|q: int| 0 <= q < k ==> estimates_fit(#[trigger] d.tasks@[q]) && subgoal_positions_fit(d.tasks@[q]),
                j <= m,
                sum == crate::plans::subgoal_sum(t.subgoals@.subrange(0, j as int)),
                sum <= 0xffff_ffff,
            decreases m - j,
        {
            assert(t.subgoals@.subrange(0, j + 1).drop_last() =~= t.subgoals@.subrange(0, j as int));
            sum = sum + t.subgoals[j].estimated_minutes as u64;
            if sum > 0xffff_ffff {
                proof {
                    crate::plans::lemma_subgoal_sum_prefix(t.subgoals@, j + 1);
                }
                return false;
            }
            j = j + 1;
        }
        assert(t.subgoals@.subrange(0, m as int) =~= t.subgoals@);
        k = k + 1;
    }
    true
}

} // verus!
