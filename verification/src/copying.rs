//! Copy-as-new: a terminal plan is copied with its live tasks, sub-goals and
//! dependency edges into a new plan that starts at once; progress starts over.

use vstd::prelude::*;
use crate::deps::has_edge;
use crate::editing::rest_unchanged;
use crate::lifecycle::{
    ensure_no_higher_active, first_higher_active, lemma_rows_keep_ids, lemma_start_keeps_invariant, lower_actives,
    preempt_lower_tiers, preempted_below, preemption_invariant, with_state, CopyAsNewOutcome, LifecycleService,
};
use crate::plans::{rank, PlanError, PlanStatus, TaskStatus};
use crate::store::{find_plan, has_plan_at, no_plan, Database, DepEdge, PlanRow, SubGoalRow, TaskRow};
use crate::time::LocalTime;
use crate::views::{plan_shown, plan_view_at, PlanView, SubGoalView, TaskView};

verus! {

/// Suffix that marks the name of a copied plan.
pub open spec fn copy_suffix() -> Seq<char> {
    " - 副本"@
}

/// Row `row` is the new plan `id` copied from view `v` at `now`: active, no
/// pause reason, the name marked as a copy.
pub open spec fn copied_plan_row(row: PlanRow, v: PlanView, id: i64, now: LocalTime) -> bool {
    &&& row.id == id
    &&& row.name@ == v.name@ + copy_suffix()
    &&& row.summary@ == v.summary@
    &&& row.detail@ == v.detail@
    &&& row.priority == v.priority
    &&& crate::editing::same_opt_text(row.due_date, v.due_date)
    &&& row.status == PlanStatus::Active
    &&& row.created_at == now
    &&& row.pause_reason is None
}

/// Row `row` is the new task `id` of plan `plan_id` copied from view `tv`: not
/// started, created at `now`.
pub open spec fn copied_task_row(row: TaskRow, tv: TaskView, id: i64, plan_id: i64, now: LocalTime) -> bool {
    &&& row.id == id
    &&& row.plan_id == plan_id
    &&& row.name@ == tv.name@
    &&& row.summary@ == tv.summary@
    &&& row.detail@ == tv.detail@
    &&& row.has_subgoals == tv.has_subgoals
    &&& row.estimated_minutes == tv.estimated_minutes
    &&& row.position == tv.position
    &&& row.status == TaskStatus::NotStarted
    &&& row.deleted_at is None
    &&& row.created_at == now
}

/// Row `row` is the new sub-goal `id` of task `task_id` copied from view `sv`:
/// not completed, created at `now`.
pub open spec fn copied_subgoal_row(row: SubGoalRow, sv: SubGoalView, id: i64, task_id: i64, now: LocalTime) -> bool {
    &&& row.id == id
    &&& row.task_id == task_id
    &&& row.name@ == sv.name@
    &&& row.estimated_minutes == sv.estimated_minutes
    &&& row.position == sv.position
    &&& row.completed_at is None
    &&& row.created_at == now
}

/// Number of sub-goal rows of the first `k` task views.
pub open spec fn view_sub_offset(ts: Seq<TaskView>, k: int) -> int
    decreases k,
{
    if k <= 0 || k > ts.len() {
        0
    } else {
        view_sub_offset(ts, k - 1) + ts[k - 1].subgoals@.len()
    }
}

/// Index of the first task view, at or after `i`, with id `x`.
pub open spec fn index_of_task(ts: Seq<TaskView>, x: i64, i: int) -> Option<int>
    decreases ts.len() - i,
{
    if i < 0 || i >= ts.len() {
        None
    } else if ts[i].id == x {
        Some(i)
    } else {
        index_of_task(ts, x, i + 1)
    }
}

/// The copied edges into task view `i` from its first `k` predecessors that
/// are among the copied tasks; new task ids start at `first`.
pub open spec fn links_of(ts: Seq<TaskView>, first: i64, i: int, k: int) -> Seq<DepEdge>
    decreases k,
{
    if k <= 0 || k > ts[i].prerequisite_ids@.len() {
        Seq::empty()
    } else {
        let prev = links_of(ts, first, i, k - 1);
        match index_of_task(ts, ts[i].prerequisite_ids@[k - 1], 0) {
            Some(pi) => prev.push(DepEdge { predecessor_id: (first + pi) as i64, successor_id: (first + i) as i64 }),
            None => prev,
        }
    }
}

/// The copied edges of the first `n` task views, in order.
pub open spec fn all_links(ts: Seq<TaskView>, first: i64, n: int) -> Seq<DepEdge>
    decreases n,
{
    if n <= 0 || n > ts.len() {
        Seq::empty()
    } else {
        all_links(ts, first, n - 1) + links_of(ts, first, n - 1, ts[n - 1].prerequisite_ids@.len() as int)
    }
}

/// `edges` with each of `extra` added unless already present.
pub open spec fn add_missing(edges: Seq<DepEdge>, extra: Seq<DepEdge>) -> Seq<DepEdge>
    decreases extra.len(),
{
    if extra.len() == 0 {
        edges
    } else {
        let e = add_missing(edges, extra.drop_last());
        let x = extra.last();
        if has_edge(e, x.predecessor_id, x.successor_id) { e } else { e.push(x) }
    }
}

/// Copying view `v` would need identifiers past `i64::MAX`.
pub open spec fn copy_exhausts_ids(db: &Database, v: PlanView) -> bool {
    ||| db.next_plan_id >= i64::MAX
    ||| db.next_task_id + v.tasks@.len() > i64::MAX
    ||| db.next_subgoal_id + view_sub_offset(v.tasks@, v.tasks@.len() as int) > i64::MAX
}

/// The store after copying view `v` (of the plan at `pi`) at `now`, before
/// the lower tiers are preempted; `row` is the new plan's row.
pub open spec fn copied(old: &Database, new: &Database, v: PlanView, now: LocalTime) -> bool {
    let n = v.tasks@.len() as int;
    let id = old.next_plan_id;
    let ts = v.tasks@;
    &&& new.tasks@.len() == old.tasks@.len() + n
    &&& new.tasks@.subrange(0, old.tasks@.len() as int) == old.tasks@
    &&& forall|k: int| 0 <= k < n ==> copied_task_row(#[trigger] new.tasks@[old.tasks@.len() + k], ts[k],
            (old.next_task_id + k) as i64, id, now)
    &&& new.subgoals@.len() == old.subgoals@.len() + view_sub_offset(ts, n)
    &&& new.subgoals@.subrange(0, old.subgoals@.len() as int) == old.subgoals@
    &&& forall|k: int, j: int| 0 <= k < n && 0 <= j < ts[k].subgoals@.len() ==> copied_subgoal_row(
            #[trigger] new.subgoals@[old.subgoals@.len() + view_sub_offset(ts, k) + j], ts[k].subgoals@[j],
            (old.next_subgoal_id + view_sub_offset(ts, k) + j) as i64, (old.next_task_id + k) as i64, now)
    &&& new.deps@ == add_missing(old.deps@, all_links(ts, old.next_task_id, n))
    &&& new.next_plan_id == id + 1
    &&& new.next_task_id == old.next_task_id + n
    &&& new.next_subgoal_id == old.next_subgoal_id + view_sub_offset(ts, n)
    &&& rest_unchanged(old, new)
}

/// Outcome of copy-as-new of plan `plan_id` at `now`: NotFound when absent;
/// refused unless completed or abandoned; refused while a higher-priority plan
/// is active; refused when identifiers run out; otherwise the plan is copied
/// (see `copied`) as an active plan and the lower tiers are preempted.
pub open spec fn copy_outcome(old: &Database, new: &Database, plan_id: i64, now: LocalTime,
    r: Result<CopyAsNewOutcome, PlanError>) -> bool {
    if no_plan(old, plan_id) {
        r == Err::<CopyAsNewOutcome, PlanError>(PlanError::NotFound) && *new == *old
    } else {
        let pi = choose|i: int| has_plan_at(old, plan_id, i);
        let p = old.plans@[pi];
        if p.status != PlanStatus::Completed && p.status != PlanStatus::Abandoned {
            r == Err::<CopyAsNewOutcome, PlanError>(PlanError::PlanNotTerminal { from: p.status }) && *new == *old
        } else {
            match first_higher_active(old.plans@, rank(p.priority)) {
                Some(h) => r == Err::<CopyAsNewOutcome, PlanError>(PlanError::PreemptedByHigher { plan_name: old.plans@[h].name })
                    && *new == *old,
                None => exists|v: PlanView| #[trigger] plan_shown(old, p, v) && {
                    if copy_exhausts_ids(old, v) {
                        r matches Err(PlanError::Storage(_)) && *new == *old
                    } else {
                        let row = new.plans@.last();
                        let mid = old.plans@.push(row);
                        &&& r matches Ok(out) && out.new_plan_id == old.next_plan_id
                            && out.paused@ == lower_actives(mid, rank(p.priority))
                        &&& copied_plan_row(row, v, old.next_plan_id, now)
                        &&& new.plans@.len() == mid.len()
                        &&& preempted_below(mid, new.plans@, rank(p.priority))
                        &&& copied(old, new, v, now)
                    }
                },
            }
        }
    }
}

/// `new` is `old` with task view `tv` copied as task `old.next_task_id` of plan
/// `plan_id`, followed by its sub-goal rows.
pub open spec fn appended_copy(old: &Database, new: &Database, tv: TaskView, plan_id: i64, now: LocalTime) -> bool {
    let tid = old.next_task_id;
    &&& new.tasks@.len() == old.tasks@.len() + 1
    &&& new.tasks@.drop_last() == old.tasks@
    &&& copied_task_row(new.tasks@.last(), tv, tid, plan_id, now)
    &&& new.next_task_id == tid + 1
    &&& new.subgoals@.len() == old.subgoals@.len() + tv.subgoals@.len()
    &&& new.subgoals@.subrange(0, old.subgoals@.len() as int) == old.subgoals@
    &&& forall|j: int| 0 <= j < tv.subgoals@.len() ==> copied_subgoal_row(#[trigger] new.subgoals@[old.subgoals@.len() + j],
            tv.subgoals@[j], (old.next_subgoal_id + j) as i64, tid, now)
    &&& new.next_subgoal_id == old.next_subgoal_id + tv.subgoals@.len()
    &&& new.plans@ == old.plans@
    &&& new.deps@ == old.deps@
    &&& new.next_plan_id == old.next_plan_id
    &&& rest_unchanged(old, new)
}

/// Appends a copy of task view `tv` as a new task of plan `plan_id`, with its sub-goals.
fn push_copied_task(db: &mut Database, plan_id: i64, tv: &TaskView, now: LocalTime)
    requires
        old(db).wf(),
        old(db).next_task_id < i64::MAX,
        old(db).next_subgoal_id + tv.subgoals@.len() <= i64::MAX,
    ensures
        final(db).wf(),
        appended_copy(old(db), final(db), *tv, plan_id, now),
{
    let tid = db.next_task_id;
    db.tasks.push(TaskRow {
        id: tid,
        plan_id,
        name: tv.name.clone(),
        summary: tv.summary.clone(),
        detail: tv.detail.clone(),
        has_subgoals: tv.has_subgoals,
        estimated_minutes: tv.estimated_minutes,
        position: tv.position,
        status: TaskStatus::NotStarted,
        deleted_at: None,
        created_at: now,
    });
    db.next_task_id = tid + 1;
    assert(db.tasks@.drop_last() =~= old(db).tasks@);
    let m = tv.subgoals.len();
    let ghost start = db.subgoals@.len();
    let ghost mid = *db;
    let mut j: usize = 0;
    while j < m
        invariant
            m == tv.subgoals@.len(),
            j <= m,
            start == old(db).subgoals@.len(),
            db.subgoals@.len() == start + j,
            db.subgoals@.subrange(0, start as int) == old(db).subgoals@,
            forall|q: int| 0 <= q < j ==> copied_subgoal_row(#[trigger] db.subgoals@[start + q],
                tv.subgoals@[q], (old(db).next_subgoal_id + q) as i64, tid, now),
            db.next_subgoal_id == old(db).next_subgoal_id + j,
            old(db).next_subgoal_id + m <= i64::MAX,
            crate::store::subgoal_ids_ok(db.subgoals@, db.next_subgoal_id),
            crate::store::subgoal_tasks_ok(db.subgoals@, db.next_task_id),
            db.next_task_id == tid + 1,
            1 <= db.next_subgoal_id,
            crate::editing::same_but_subgoals(&mid, db),
        decreases m - j,
    {
        let sv = &tv.subgoals[j];
        let sid = db.next_subgoal_id;
        let ghost before = db.subgoals@;
        db.subgoals.push(SubGoalRow {
            id: sid,
            task_id: tid,
            name: sv.name.clone(),
            estimated_minutes: sv.estimated_minutes,
            position: sv.position,
            completed_at: None,
            created_at: now,
        });
        db.next_subgoal_id = sid + 1;
        proof {
            assert(db.subgoals@.subrange(0, start as int) =~= before.subrange(0, start as int));
            assert forall|q: int| 0 <= q < j + 1 implies copied_subgoal_row(#[trigger] db.subgoals@[start + q],
                tv.subgoals@[q], (old(db).next_subgoal_id + q) as i64, tid, now) by {
                if q < j {
                    assert(db.subgoals@[start + q] == before[start + q]);
                }
            }
            assert forall|a: int, b: int| 0 <= a < b < db.subgoals@.len() implies db.subgoals@[a].id != db.subgoals@[b].id by {
                if b < before.len() {
                    assert(before[a].id != before[b].id);
                } else {
                    assert(before[a].id < sid);
                }
            }
        }
        j = j + 1;
    }
    proof {
        assert forall|a: int, b: int| 0 <= a < b < db.tasks@.len() implies db.tasks@[a].id != db.tasks@[b].id by {
            if b < old(db).tasks@.len() {
                assert(old(db).tasks@[a].id != old(db).tasks@[b].id);
            } else {
                assert(old(db).tasks@[a].id < tid);
            }
        }
    }
}

proof fn lemma_view_sub_offset_grows(ts: Seq<TaskView>, a: int, b: int)
    requires
        0 <= a <= b <= ts.len(),
    ensures
        0 <= view_sub_offset(ts, a) <= view_sub_offset(ts, b),
    decreases b,
{
    if b > 0 {
        if a == b {
            lemma_view_sub_offset_grows(ts, a - 1, b - 1);
        } else {
            lemma_view_sub_offset_grows(ts, a, b - 1);
        }
    }
}

/// Index of the first task view with id `x`.
fn index_of_task_in(ts: &Vec<TaskView>, x: i64) -> (r: Option<usize>)
    ensures
        match r {
            Some(i) => index_of_task(ts@, x, 0) == Some(i as int),
            None => index_of_task(ts@, x, 0) is None,
        },
{
    let n = ts.len();
    let mut i: usize = 0;
    while i < n
        invariant
            n == ts@.len(),
            i <= n,
            index_of_task(ts@, x, 0) == index_of_task(ts@, x, i as int),
        decreases n - i,
    {
        if ts[i].id == x {
            return Some(i);
        }
        i = i + 1;
    }
    None
}

/// Adds the edge unless already present.
fn add_if_missing(edges: &mut Vec<DepEdge>, e: DepEdge)
    ensures
        final(edges)@ == if has_edge(old(edges)@, e.predecessor_id, e.successor_id) { old(edges)@ } else { old(edges)@.push(e) },
{
    if !crate::deps::has_edge_in(edges, e.predecessor_id, e.successor_id) {
        edges.push(e);
    }
}

/// The edges after adding the copied links of the task views (see `all_links`).
fn copy_links(edges: &mut Vec<DepEdge>, ts: &Vec<TaskView>, first: i64)
    requires
        first >= 1,
        first + ts@.len() <= i64::MAX,
    ensures
        final(edges)@ == add_missing(old(edges)@, all_links(ts@, first, ts@.len() as int)),
{
    let ghost base = edges@;
    let n = ts.len();
    let mut i: usize = 0;
    while i < n
        invariant
            n == ts@.len(),
            i <= n,
            first >= 1,
            first + n <= i64::MAX,
            base == old(edges)@,
            edges@ == add_missing(base, all_links(ts@, first, i as int)),
        decreases n - i,
    {
        let preds = &ts[i].prerequisite_ids;
        let m = preds.len();
        let mut k: usize = 0;
        while k < m
            invariant
                n == ts@.len(),
                i < n,
                first >= 1,
                first + n <= i64::MAX,
                base == old(edges)@,
                m == preds@.len(),
                preds == ts@[i as int].prerequisite_ids,
                k <= m,
                edges@ == add_missing(base, all_links(ts@, first, i as int) + links_of(ts@, first, i as int, k as int)),
            decreases m - k,
        {
            let ghost done = all_links(ts@, first, i as int) + links_of(ts@, first, i as int, k as int);
            match index_of_task_in(ts, preds[k]) {
                Some(pi) => {
                    proof {
                        lemma_index_of_task_bounds(ts@, preds@[k as int], 0);
                    }
                    let e = DepEdge { predecessor_id: first + pi as i64, successor_id: first + i as i64 };
                    let ghost next = all_links(ts@, first, i as int) + links_of(ts@, first, i as int, k + 1);
                    assert(next =~= done.push(e));
                    assert(next.drop_last() =~= done);
                    add_if_missing(edges, e);
                },
                None => {
                    assert(all_links(ts@, first, i as int) + links_of(ts@, first, i as int, k + 1) =~= done);
                },
            }
            k = k + 1;
        }
        assert(all_links(ts@, first, i + 1) =~= all_links(ts@, first, i as int) + links_of(ts@, first, i as int, m as int));
        i = i + 1;
    }
}

proof fn lemma_index_of_task_bounds(ts: Seq<TaskView>, x: i64, i: int)
    requires
        0 <= i,
    ensures
        index_of_task(ts, x, i) matches Some(pi) ==> i <= pi < ts.len(),
    decreases ts.len() - i,
{
    if i < ts.len() && ts[i].id != x {
        lemma_index_of_task_bounds(ts, x, i + 1);
    }
}

/// Whether copying view `v` would run out of identifiers (see `copy_exhausts_ids`).
fn copying_exhausts_ids(db: &Database, v: &PlanView) -> (r: bool)
    requires
        db.wf(),
    ensures
        r == copy_exhausts_ids(db, *v),
{
    let n = v.tasks.len();
    if db.next_plan_id == i64::MAX {
        return true;
    }
    if n as u64 > (i64::MAX - db.next_task_id) as u64 {
        return true;
    }
    let mut room: u64 = (i64::MAX - db.next_subgoal_id) as u64;
    let mut k: usize = 0;
    while k < n
        invariant
            n == v.tasks@.len(),
            k <= n,
            db.wf(),
            view_sub_offset(v.tasks@, k as int) <= i64::MAX - db.next_subgoal_id,
            room == i64::MAX - db.next_subgoal_id - view_sub_offset(v.tasks@, k as int),
        decreases n - k,
    {
        let c = v.tasks[k].subgoals.len() as u64;
        if c > room {
            proof {
                lemma_view_sub_offset_grows(v.tasks@, k + 1, n as int);
            }
            return true;
        }
        room = room - c;
        k = k + 1;
    }
    false
}

/// Copying keeps the preemption invariant when no active plan ranks above the copy.
#[verifier::spinoff_prover]
#[verifier::rlimit(40)]
proof fn lemma_copy_keeps_invariant(old: Seq<PlanRow>, row: PlanRow, new: Seq<PlanRow>)
    requires
        preemption_invariant(old),
        row.status == PlanStatus::Active,
        row.pause_reason is None,
        first_higher_active(old, rank(row.priority)) is None,
        preempted_below(old.push(row), new, rank(row.priority)),
    ensures
        preemption_invariant(new),
{
    let pre = old.push(PlanRow { status: PlanStatus::Completed, ..row });
    let n = old.len() as int;
    assert(preemption_invariant(pre)) by {
        assert forall|k: int| 0 <= k < pre.len() && #[trigger] crate::lifecycle::is_preempted(pre[k]) implies
            exists|a: int| 0 <= a < pre.len() && crate::lifecycle::is_active(pre[a]) && rank(pre[k].priority) < rank(pre[a].priority) by {
            assert(k < n);
            assert(pre[k] == old[k]);
            let a = choose|a: int| 0 <= a < old.len() && crate::lifecycle::is_active(old[a]) && rank(old[k].priority) < rank(old[a].priority);
            assert(pre[a] == old[a]);
        }
    }
    assert forall|j: int| 0 <= j < pre.len() implies !(crate::lifecycle::is_active(pre[j]) && rank(pre[j].priority) > rank(pre[n].priority)) by {
        if j < n && crate::lifecycle::is_active(pre[j]) && rank(pre[j].priority) > rank(pre[n].priority) {
            assert(pre[j] == old[j]);
            assert(exists|i: int| 0 <= i < old.len() && crate::lifecycle::is_active(old[i]) && rank(old[i].priority) > rank(row.priority));
        }
    }
    assert(with_state(pre, n, PlanStatus::Active, None) =~= old.push(row));
    lemma_start_keeps_invariant(pre, n, new);
}

impl LifecycleService {
    /// Copy-as-new of a completed or abandoned plan at `now` (see
    /// `copy_outcome`): the copy is named with a copy mark, keeps fields, live
    /// tasks, sub-goals and the edges among them, starts over (tasks not
    /// started, sub-goals open) and is active at once; the old plan stays as it
    /// was. Returns the new plan's id and the plans it paused.
    pub fn copy_as_new(db: &mut Database, now: LocalTime, plan_id: i64) -> (r: Result<CopyAsNewOutcome, PlanError>)
        requires
            old(db).wf(),
            now.wf(),
        ensures
            final(db).wf(),
            copy_outcome(old(db), final(db), plan_id, now, r),
            preemption_invariant(old(db).plans@) ==> preemption_invariant(final(db).plans@),
    {
        let pi = match find_plan(db, plan_id) {
            Some(i) => i,
            None => return Err(PlanError::NotFound),
        };
        proof {
            let p0 = choose|i: int| has_plan_at(db, plan_id, i);
            if p0 != pi {
                if p0 < pi {
                    assert(db.plans@[p0].id != db.plans@[pi as int].id);
                } else {
                    assert(db.plans@[pi as int].id != db.plans@[p0].id);
                }
            }
        }
        let source = plan_view_at(db, pi);
        let from = db.plans[pi].status;
        if from != PlanStatus::Completed && from != PlanStatus::Abandoned {
            return Err(PlanError::PlanNotTerminal { from });
        }
        let r = db.plans[pi].priority.rank();
        match ensure_no_higher_active(db, r) {
            Err(e) => return Err(e),
            Ok(()) => {},
        }
        if copying_exhausts_ids(db, &source) {
            return Err(PlanError::Storage("identifier space exhausted".to_owned()));
        }
        let ghost start = *db;
        let first_task = db.next_task_id;
        let new_plan_id = db.next_plan_id;
        let row = PlanRow {
            id: new_plan_id,
            name: source.name.clone().concat(" - 副本"),
            summary: source.summary.clone(),
            detail: source.detail.clone(),
            priority: source.priority,
            due_date: source.due_date.clone(),
            status: PlanStatus::Active,
            created_at: now,
            pause_reason: None,
        };
        db.plans.push(row);
        db.next_plan_id = new_plan_id + 1;
        proof {
            assert forall|a: int, b: int| 0 <= a < b < db.plans@.len() implies db.plans@[a].id != db.plans@[b].id by {
                if b < start.plans@.len() {
                    assert(start.plans@[a].id != start.plans@[b].id);
                } else {
                    assert(start.plans@[a].id < new_plan_id);
                }
            }
        }
        let ghost mid_plans = db.plans@;
        let ghost after_plan = *db;
        let n = source.tasks.len();
        let ts = &source.tasks;
        let mut k: usize = 0;
        while k < n
            invariant
                n == ts@.len(),
                ts == source.tasks,
                k <= n,
                db.wf(),
                db.plans@ == mid_plans,
                db.deps@ == start.deps@,
                db.next_plan_id == new_plan_id + 1,
                new_plan_id == start.next_plan_id,
                rest_unchanged(&start, db),
                start.next_task_id + n <= i64::MAX,
                start.next_subgoal_id + view_sub_offset(ts@, n as int) <= i64::MAX,
                db.tasks@.len() == start.tasks@.len() + k,
                db.tasks@.subrange(0, start.tasks@.len() as int) == start.tasks@,
                forall|q: int| 0 <= q < k ==> copied_task_row(#[trigger] db.tasks@[start.tasks@.len() + q], ts@[q],
                    (start.next_task_id + q) as i64, new_plan_id, now),
                db.next_task_id == start.next_task_id + k,
                db.subgoals@.len() == start.subgoals@.len() + view_sub_offset(ts@, k as int),
                db.subgoals@.subrange(0, start.subgoals@.len() as int) == start.subgoals@,
                forall|q: int, j: int| 0 <= q < k && 0 <= j < ts@[q].subgoals@.len() ==> copied_subgoal_row(
                    #[trigger] db.subgoals@[start.subgoals@.len() + view_sub_offset(ts@, q) + j], ts@[q].subgoals@[j],
                    (start.next_subgoal_id + view_sub_offset(ts@, q) + j) as i64, (start.next_task_id + q) as i64, now),
                db.next_subgoal_id == start.next_subgoal_id + view_sub_offset(ts@, k as int),
            decreases n - k,
        {
            let ghost before = *db;
            proof {
                lemma_view_sub_offset_grows(ts@, k + 1, n as int);
                lemma_view_sub_offset_grows(ts@, k as int, n as int);
            }
            push_copied_task(db, new_plan_id, &ts[k], now);
            proof {
                let bt = before.tasks@.len();
                let bs = before.subgoals@.len();
                assert forall|i: int| 0 <= i < bs implies db.subgoals@[i] == before.subgoals@[i] by {
                    assert(db.subgoals@.subrange(0, bs as int)[i] == db.subgoals@[i]);
                }
                assert forall|i: int| 0 <= i < bt implies db.tasks@[i] == before.tasks@[i] by {
                    assert(db.tasks@.drop_last()[i] == db.tasks@[i]);
                }
                assert(db.tasks@.subrange(0, start.tasks@.len() as int) =~= before.tasks@.subrange(0, start.tasks@.len() as int));
                assert forall|q: int| 0 <= q < k + 1 implies copied_task_row(#[trigger] db.tasks@[start.tasks@.len() + q], ts@[q],
                    (start.next_task_id + q) as i64, new_plan_id, now) by {
                    if q < k {
                        assert(db.tasks@[start.tasks@.len() + q] == before.tasks@[start.tasks@.len() + q]);
                    }
                }
                assert(db.subgoals@.subrange(0, start.subgoals@.len() as int) =~= before.subgoals@.subrange(0, start.subgoals@.len() as int));
                assert forall|q: int, j: int| 0 <= q < k + 1 && 0 <= j < ts@[q].subgoals@.len() implies copied_subgoal_row(
                    #[trigger] db.subgoals@[start.subgoals@.len() + view_sub_offset(ts@, q) + j], ts@[q].subgoals@[j],
                    (start.next_subgoal_id + view_sub_offset(ts@, q) + j) as i64, (start.next_task_id + q) as i64, now) by {
                    if q < k {
                        lemma_view_sub_offset_grows(ts@, q + 1, k as int);
                        lemma_view_sub_offset_grows(ts@, q, q + 1);
                        assert(db.subgoals@[start.subgoals@.len() + view_sub_offset(ts@, q) + j]
                            == before.subgoals@[start.subgoals@.len() + view_sub_offset(ts@, q) + j]);
                    } else {
                        assert(db.subgoals@[bs + j] == db.subgoals@[start.subgoals@.len() + view_sub_offset(ts@, q) + j]);
                    }
                }
            }
            k = k + 1;
        }
        let mut edges = crate::deps::copy_edges(&db.deps);
        copy_links(&mut edges, ts, first_task);
        db.deps = edges;
        let ghost pre_preempt = *db;
        let paused = preempt_lower_tiers(db, r);
        proof {
            let row_v = mid_plans.last();
            assert(mid_plans =~= start.plans@.push(row_v));
            assert(copied_plan_row(row_v, source, start.next_plan_id, now));
            assert(db.plans@.last() == row_v) by {
                assert(crate::lifecycle::same_row(mid_plans[mid_plans.len() - 1], db.plans@[mid_plans.len() - 1]));
            }
            assert(copied(&start, db, source, now));
            assert(plan_shown(&start, start.plans@[pi as int], source));
            if preemption_invariant(start.plans@) {
                lemma_copy_keeps_invariant(start.plans@, row_v, db.plans@);
            }
            // Identifiers of the plans are kept by the preemption.
            assert forall|j: int| 0 <= j < mid_plans.len() implies #[trigger] db.plans@[j].id == mid_plans[j].id
                && db.plans@[j].created_at == mid_plans[j].created_at by {
                if crate::lifecycle::is_active(mid_plans[j]) && rank(mid_plans[j].priority) < r {
                } else {
                }
            }
            lemma_rows_keep_ids(mid_plans, db.plans@);
        }
        Ok(CopyAsNewOutcome { new_plan_id, paused })
    }
}

} // verus!
