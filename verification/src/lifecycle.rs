//! Plan life cycle (one-way waterfall): not started → active; active ⇄ paused;
//! active → completed (manual, all tasks done); active / paused → abandoned;
//! copy-as-new for terminal plans.
//!
//! Preemption: at any moment every active plan has the same priority. Starting,
//! resuming or copying a plan is refused while a higher-priority plan is active,
//! and pauses the active lower-priority plans (reason: auto-preempted). When the
//! top tier clears (pause, complete, abandon), the highest group of
//! auto-preempted plans becomes active again — one group per step; plans paused
//! by the user never resume by themselves.

use vstd::prelude::*;
use crate::plans::{rank, PauseReason, PlanError, PlanStatus, Priority};
use crate::plans::TaskStatus;
use crate::store::{find_live_task, find_plan, has_plan_at, live_task_at, no_live_task, no_plan, Database, PlanRow, TaskRow};
use crate::views::{progress_at, progress_complete, progress_of};

verus! {

/// A plan paused by a start, resume or copy (id for navigation, name for the message).
#[derive(Debug, PartialEq, Eq)]
pub struct PreemptedPlan {
    pub id: i64,
    pub name: String,
}

/// Plans paused by a start or resume.
#[derive(Debug, PartialEq, Eq)]
pub struct LifecycleOutcome {
    pub paused: Vec<PreemptedPlan>,
}

/// Result of copy-as-new: the new plan and the plans it paused.
#[derive(Debug, PartialEq, Eq)]
pub struct CopyAsNewOutcome {
    pub new_plan_id: i64,
    pub paused: Vec<PreemptedPlan>,
}

pub open spec fn is_active(p: PlanRow) -> bool {
    p.status == PlanStatus::Active
}

/// Paused by preemption (and so eligible to resume by itself).
pub open spec fn is_preempted(p: PlanRow) -> bool {
    p.status == PlanStatus::Paused && p.pause_reason == Some(PauseReason::AutoPreempted)
}

/// The preemption invariant: all active plans share one priority, and every
/// auto-preempted plan sits strictly below some active plan.
pub open spec fn preemption_invariant(plans: Seq<PlanRow>) -> bool {
    &&& forall|i: int, j: int| 0 <= i < plans.len() && 0 <= j < plans.len()
            && is_active(plans[i]) && is_active(plans[j])
            ==> rank(plans[i].priority) == rank(plans[j].priority)
    &&& forall|k: int| 0 <= k < plans.len() && #[trigger] is_preempted(plans[k]) ==>
            exists|a: int| 0 <= a < plans.len() && is_active(plans[a])
                && rank(plans[k].priority) < rank(plans[a].priority)
}

/// Highest rank among active plans (-1 when none).
pub open spec fn top_active(plans: Seq<PlanRow>) -> int
    decreases plans.len(),
{
    if plans.len() == 0 {
        -1
    } else {
        let t = top_active(plans.drop_last());
        let here = if is_active(plans.last()) { rank(plans.last().priority) } else { -1 };
        if here > t { here } else { t }
    }
}

/// Highest rank among auto-preempted plans (-1 when none).
pub open spec fn top_preempted(plans: Seq<PlanRow>) -> int
    decreases plans.len(),
{
    if plans.len() == 0 {
        -1
    } else {
        let t = top_preempted(plans.drop_last());
        let here = if is_preempted(plans.last()) { rank(plans.last().priority) } else { -1 };
        if here > t { here } else { t }
    }
}

/// Index of the first active plan ranked above `r`, if any.
pub open spec fn first_higher_active(plans: Seq<PlanRow>, r: int) -> Option<int> {
    if exists|i: int| 0 <= i < plans.len() && is_active(plans[i]) && rank(plans[i].priority) > r {
        Some(choose|i: int| 0 <= i < plans.len() && is_active(plans[i]) && rank(plans[i].priority) > r
            && forall|j: int| 0 <= j < i ==> !(is_active(plans[j]) && rank(plans[j].priority) > r))
    } else {
        None
    }
}

/// The plans that a start at rank `r` pauses, in store order.
pub open spec fn lower_actives(plans: Seq<PlanRow>, r: int) -> Seq<PreemptedPlan>
    decreases plans.len(),
{
    if plans.len() == 0 {
        Seq::empty()
    } else {
        let rest = lower_actives(plans.drop_last(), r);
        let p = plans.last();
        if is_active(p) && rank(p.priority) < r {
            rest.push(PreemptedPlan { id: p.id, name: p.name })
        } else {
            rest
        }
    }
}

/// Row `b` is row `a` with a new status and pause reason.
pub open spec fn same_but_state(a: PlanRow, b: PlanRow, status: PlanStatus, reason: Option<PauseReason>) -> bool {
    &&& b.id == a.id
    &&& b.name == a.name
    &&& b.summary == a.summary
    &&& b.detail == a.detail
    &&& b.priority == a.priority
    &&& b.due_date == a.due_date
    &&& b.created_at == a.created_at
    &&& b.status == status
    &&& b.pause_reason == reason
}

/// Row `b` equals row `a` in every field.
pub open spec fn same_row(a: PlanRow, b: PlanRow) -> bool {
    same_but_state(a, b, a.status, a.pause_reason)
}

/// Effect of preempting below rank `r`: active plans ranked below become paused
/// (auto-preempted); everything else is unchanged.
pub open spec fn preempted_below(old: Seq<PlanRow>, new: Seq<PlanRow>, r: int) -> bool {
    &&& new.len() == old.len()
    &&& forall|j: int| 0 <= j < old.len() ==> if is_active(old[j]) && rank(old[j].priority) < r {
            same_but_state(old[j], #[trigger] new[j], PlanStatus::Paused, Some(PauseReason::AutoPreempted))
        } else {
            same_row(old[j], new[j])
        }
}

/// Effect of the automatic resume: when some plan is auto-preempted and no active
/// plan ranks as high as the top preempted tier, that whole tier becomes active
/// (reason cleared); otherwise nothing changes.
pub open spec fn resumed_top_tier(old: Seq<PlanRow>, new: Seq<PlanRow>) -> bool {
    let t = top_preempted(old);
    &&& new.len() == old.len()
    &&& forall|j: int| 0 <= j < old.len() ==>
            if t >= 0 && top_active(old) < t && is_preempted(old[j]) && rank(old[j].priority) == t {
                same_but_state(old[j], #[trigger] new[j], PlanStatus::Active, None)
            } else {
                same_row(old[j], new[j])
            }
}

proof fn lemma_top_active_bounds(plans: Seq<PlanRow>)
    ensures
        forall|i: int| 0 <= i < plans.len() && is_active(plans[i]) ==> rank(plans[i].priority) <= top_active(plans),
        top_active(plans) >= 0 ==> exists|i: int| 0 <= i < plans.len() && is_active(plans[i])
            && rank(plans[i].priority) == top_active(plans),
        top_active(plans) >= -1,
    decreases plans.len(),
{
    if plans.len() > 0 {
        lemma_top_active_bounds(plans.drop_last());
        assert forall|i: int| 0 <= i < plans.len() && is_active(plans[i]) implies
            rank(plans[i].priority) <= top_active(plans) by {
            if i < plans.len() - 1 {
                assert(plans.drop_last()[i] == plans[i]);
            }
        }
        if top_active(plans) >= 0 {
            if is_active(plans.last()) && rank(plans.last().priority) == top_active(plans) {
            } else {
                let i = choose|i: int| 0 <= i < plans.drop_last().len() && is_active(plans.drop_last()[i])
                    && rank(plans.drop_last()[i].priority) == top_active(plans.drop_last());
                assert(plans[i] == plans.drop_last()[i]);
            }
        }
    }
}

proof fn lemma_top_preempted_bounds(plans: Seq<PlanRow>)
    ensures
        forall|i: int| 0 <= i < plans.len() && is_preempted(plans[i]) ==> rank(plans[i].priority) <= top_preempted(plans),
        top_preempted(plans) >= 0 ==> exists|i: int| 0 <= i < plans.len() && is_preempted(plans[i])
            && rank(plans[i].priority) == top_preempted(plans),
        top_preempted(plans) >= -1,
    decreases plans.len(),
{
    if plans.len() > 0 {
        lemma_top_preempted_bounds(plans.drop_last());
        assert forall|i: int| 0 <= i < plans.len() && is_preempted(plans[i]) implies
            rank(plans[i].priority) <= top_preempted(plans) by {
            if i < plans.len() - 1 {
                assert(plans.drop_last()[i] == plans[i]);
            }
        }
        if top_preempted(plans) >= 0 {
            if is_preempted(plans.last()) && rank(plans.last().priority) == top_preempted(plans) {
            } else {
                let i = choose|i: int| 0 <= i < plans.drop_last().len() && is_preempted(plans.drop_last()[i])
                    && rank(plans.drop_last()[i].priority) == top_preempted(plans.drop_last());
                assert(plans[i] == plans.drop_last()[i]);
            }
        }
    }
}

/// Position of the first active plan ranked above `r`.
fn find_higher_active(db: &Database, r: u8) -> (res: Option<usize>)
    ensures
        match res {
            Some(i) => {
                &&& i < db.plans@.len()
                &&& is_active(db.plans@[i as int]) && rank(db.plans@[i as int].priority) > r
                &&& forall|j: int| 0 <= j < i ==> !(is_active(db.plans@[j]) && rank(db.plans@[j].priority) > r)
            },
            None => forall|j: int| 0 <= j < db.plans@.len() ==> !(is_active(db.plans@[j]) && rank(db.plans@[j].priority) > r),
        },
{
    let n = db.plans.len();
    let mut i: usize = 0;
    while i < n
        invariant
            n == db.plans@.len(),
            i <= n,
            forall|j: int| 0 <= j < i ==> !(is_active(db.plans@[j]) && rank(db.plans@[j].priority) > r),
        decreases n - i,
    {
        if db.plans[i].status == PlanStatus::Active && db.plans[i].priority.rank() > r {
            return Some(i);
        }
        i = i + 1;
    }
    None
}

/// Refuses when a plan ranked above `r` is active; names the first such plan.
pub(crate) fn ensure_no_higher_active(db: &Database, r: u8) -> (res: Result<(), PlanError>)
    ensures
        match first_higher_active(db.plans@, r as int) {
            Some(i) => res == Err::<(), PlanError>(PlanError::PreemptedByHigher { plan_name: db.plans@[i].name }),
            None => res is Ok,
        },
{
    match find_higher_active(db, r) {
        Some(i) => {
            let ghost plans = db.plans@;
            assert(exists|k: int| 0 <= k < plans.len() && is_active(plans[k]) && rank(plans[k].priority) > r) by {
                assert(is_active(plans[i as int]));
            }
            let ghost c = choose|k: int| 0 <= k < plans.len() && is_active(plans[k]) && rank(plans[k].priority) > r
                && forall|j: int| 0 <= j < k ==> !(is_active(plans[j]) && rank(plans[j].priority) > r);
            assert(c == i) by {
                assert(0 <= i < plans.len() && is_active(plans[i as int]) && rank(plans[i as int].priority) > r
                    && forall|j: int| 0 <= j < i ==> !(is_active(plans[j]) && rank(plans[j].priority) > r));
                if c < i {
                } else if c > i {
                }
            }
            Err(PlanError::PreemptedByHigher { plan_name: db.plans[i].name.clone() })
        },
        None => Ok(()),
    }
}

/// Pauses every active plan ranked below `r` (auto-preempted) and lists them.
pub(crate) fn preempt_lower_tiers(db: &mut Database, r: u8) -> (paused: Vec<PreemptedPlan>)
    ensures
        preempted_below(old(db).plans@, final(db).plans@, r as int),
        paused@ == lower_actives(old(db).plans@, r as int),
        final(db).tasks == old(db).tasks,
        final(db).subgoals == old(db).subgoals,
        final(db).deps == old(db).deps,
        final(db).log == old(db).log,
        final(db).allocation == old(db).allocation,
        final(db).current_task == old(db).current_task,
        final(db).summary_shown == old(db).summary_shown,
        final(db).settings == old(db).settings,
        final(db).settings_updated_at == old(db).settings_updated_at,
        final(db).versions == old(db).versions,
        final(db).next_plan_id == old(db).next_plan_id,
        final(db).next_task_id == old(db).next_task_id,
        final(db).next_subgoal_id == old(db).next_subgoal_id,
        final(db).next_log_id == old(db).next_log_id,
{
    let ghost start = db.plans@;
    let n = db.plans.len();
    let mut paused: Vec<PreemptedPlan> = Vec::new();
    let mut i: usize = 0;
    while i < n
        invariant
            n == db.plans@.len() == start.len(),
            i <= n,
            forall|j: int| 0 <= j < i ==> if is_active(start[j]) && rank(start[j].priority) < r {
                same_but_state(start[j], #[trigger] db.plans@[j], PlanStatus::Paused, Some(PauseReason::AutoPreempted))
            } else {
                same_row(start[j], db.plans@[j])
            },
            forall|j: int| i <= j < n ==> #[trigger] db.plans@[j] == start[j],
            paused@ == lower_actives(start.subrange(0, i as int), r as int),
            db.tasks == old(db).tasks,
            db.subgoals == old(db).subgoals,
            db.deps == old(db).deps,
            db.log == old(db).log,
            db.allocation == old(db).allocation,
            db.current_task == old(db).current_task,
            db.summary_shown == old(db).summary_shown,
            db.settings == old(db).settings,
            db.settings_updated_at == old(db).settings_updated_at,
            db.versions == old(db).versions,
            db.next_plan_id == old(db).next_plan_id,
            db.next_task_id == old(db).next_task_id,
            db.next_subgoal_id == old(db).next_subgoal_id,
            db.next_log_id == old(db).next_log_id,
            start == old(db).plans@,
        decreases n - i,
    {
        assert(start.subrange(0, i + 1).drop_last() =~= start.subrange(0, i as int));
        assert(start.subrange(0, i + 1).last() == start[i as int]);
        if db.plans[i].status == PlanStatus::Active && db.plans[i].priority.rank() < r {
            paused.push(PreemptedPlan { id: db.plans[i].id, name: db.plans[i].name.clone() });
            set_plan_state(&mut db.plans, i, PlanStatus::Paused, Some(PauseReason::AutoPreempted));
        }
        i = i + 1;
    }
    assert(start.subrange(0, n as int) =~= start);
    paused
}

/// Resumes the top auto-preempted tier when no active plan ranks as high.
fn auto_resume_top_tier(db: &mut Database)
    ensures
        resumed_top_tier(old(db).plans@, final(db).plans@),
        final(db).tasks == old(db).tasks,
        final(db).subgoals == old(db).subgoals,
        final(db).deps == old(db).deps,
        final(db).log == old(db).log,
        final(db).allocation == old(db).allocation,
        final(db).current_task == old(db).current_task,
        final(db).summary_shown == old(db).summary_shown,
        final(db).settings == old(db).settings,
        final(db).settings_updated_at == old(db).settings_updated_at,
        final(db).versions == old(db).versions,
        final(db).next_plan_id == old(db).next_plan_id,
        final(db).next_task_id == old(db).next_task_id,
        final(db).next_subgoal_id == old(db).next_subgoal_id,
        final(db).next_log_id == old(db).next_log_id,
{
    let ghost start = db.plans@;
    let n = db.plans.len();
    // Highest active and highest preempted ranks.
    let mut top_a: i8 = -1;
    let mut top_p: i8 = -1;
    let mut i: usize = 0;
    while i < n
        invariant
            n == db.plans@.len(),
            start == db.plans@,
            i <= n,
            top_a as int == top_active(start.subrange(0, i as int)),
            top_p as int == top_preempted(start.subrange(0, i as int)),
            -1 <= top_a <= 2,
            -1 <= top_p <= 2,
        decreases n - i,
    {
        assert(start.subrange(0, i + 1).drop_last() =~= start.subrange(0, i as int));
        assert(start.subrange(0, i + 1).last() == start[i as int]);
        let p = &db.plans[i];
        if p.status == PlanStatus::Active {
            let r = p.priority.rank() as i8;
            if r > top_a {
                top_a = r;
            }
        }
        if p.status == PlanStatus::Paused && p.pause_reason == Some(PauseReason::AutoPreempted) {
            let r = p.priority.rank() as i8;
            if r > top_p {
                top_p = r;
            }
        }
        i = i + 1;
    }
    assert(start.subrange(0, n as int) =~= start);
    if top_p < 0 || top_a >= top_p {
        return;
    }
    let mut k: usize = 0;
    while k < n
        invariant
            n == db.plans@.len() == start.len(),
            k <= n,
            top_p as int == top_preempted(start),
            top_a as int == top_active(start),
            top_p >= 0,
            top_a < top_p,
            forall|j: int| 0 <= j < k ==> if is_preempted(start[j]) && rank(start[j].priority) == top_p {
                same_but_state(start[j], #[trigger] db.plans@[j], PlanStatus::Active, None)
            } else {
                same_row(start[j], db.plans@[j])
            },
            forall|j: int| k <= j < n ==> #[trigger] db.plans@[j] == start[j],
            db.tasks == old(db).tasks,
            db.subgoals == old(db).subgoals,
            db.deps == old(db).deps,
            db.log == old(db).log,
            db.allocation == old(db).allocation,
            db.current_task == old(db).current_task,
            db.summary_shown == old(db).summary_shown,
            db.settings == old(db).settings,
            db.settings_updated_at == old(db).settings_updated_at,
            db.versions == old(db).versions,
            db.next_plan_id == old(db).next_plan_id,
            db.next_task_id == old(db).next_task_id,
            db.next_subgoal_id == old(db).next_subgoal_id,
            db.next_log_id == old(db).next_log_id,
            start == old(db).plans@,
        decreases n - k,
    {
        let p = &db.plans[k];
        if p.status == PlanStatus::Paused && p.pause_reason == Some(PauseReason::AutoPreempted)
            && p.priority.rank() as i8 == top_p {
            set_plan_state(&mut db.plans, k, PlanStatus::Active, None);
        }
        k = k + 1;
    }
}

/// Row `i` moved to active with no pause reason.
pub open spec fn with_state(plans: Seq<PlanRow>, i: int, status: PlanStatus, reason: Option<PauseReason>) -> Seq<PlanRow> {
    plans.update(i, (PlanRow { status, pause_reason: reason, ..plans[i] }))
}

/// Starting (or resuming) plan `i` keeps the preemption invariant when no active
/// plan ranks above it.
pub(crate) proof fn lemma_start_keeps_invariant(old: Seq<PlanRow>, i: int, new: Seq<PlanRow>)
    requires
        preemption_invariant(old),
        0 <= i < old.len(),
        !is_active(old[i]),
        forall|j: int| 0 <= j < old.len() ==> !(is_active(old[j]) && rank(old[j].priority) > rank(old[i].priority)),
        preempted_below(with_state(old, i, PlanStatus::Active, None), new, rank(old[i].priority)),
    ensures
        preemption_invariant(new),
{
    let p = rank(old[i].priority);
    let mid = with_state(old, i, PlanStatus::Active, None);
    assert(mid[i].priority == old[i].priority);
    assert(is_active(new[i])) by {
        assert(same_row(mid[i], new[i]));
    }
    assert forall|j: int| 0 <= j < new.len() && is_active(new[j]) implies rank(new[j].priority) == p by {
        if j != i {
            assert(mid[j] == old[j]);
            if is_active(old[j]) && rank(old[j].priority) < p {
                assert(same_but_state(mid[j], new[j], PlanStatus::Paused, Some(PauseReason::AutoPreempted)));
            } else {
                assert(same_row(mid[j], new[j]));
            }
        }
    }
    assert forall|k: int| 0 <= k < new.len() && #[trigger] is_preempted(new[k]) implies
        exists|a: int| 0 <= a < new.len() && is_active(new[a]) && rank(new[k].priority) < rank(new[a].priority) by {
        assert(k != i);
        assert(mid[k] == old[k]);
        if is_active(old[k]) && rank(old[k].priority) < p {
            assert(same_but_state(mid[k], new[k], PlanStatus::Paused, Some(PauseReason::AutoPreempted)));
        } else {
            assert(same_row(mid[k], new[k]));
            assert(is_preempted(old[k]));
            let a = choose|a: int| 0 <= a < old.len() && is_active(old[a]) && rank(old[k].priority) < rank(old[a].priority);
        }
        assert(rank(new[k].priority) < rank(new[i].priority));
    }
}

/// Taking plan `i` out of the active tier (pause, complete, abandon) followed by
/// the automatic resume keeps the preemption invariant.
proof fn lemma_clear_keeps_invariant(old: Seq<PlanRow>, i: int, mid: Seq<PlanRow>, new: Seq<PlanRow>)
    requires
        preemption_invariant(old),
        0 <= i < old.len(),
        mid.len() == old.len(),
        forall|j: int| 0 <= j < old.len() && j != i ==> mid[j] == old[j],
        mid[i].priority == old[i].priority,
        !is_active(mid[i]),
        !is_preempted(mid[i]),
        resumed_top_tier(mid, new),
    ensures
        preemption_invariant(new),
{
    lemma_top_active_bounds(mid);
    lemma_top_preempted_bounds(mid);
    let t = top_preempted(mid);
    // Every preempted plan of `mid` ranks below every active plan of `old`.
    assert forall|k: int, a: int| 0 <= k < mid.len() && 0 <= a < old.len() && is_preempted(mid[k]) && is_active(old[a])
        implies rank(mid[k].priority) < rank(old[a].priority) by {
        assert(k != i);
        assert(is_preempted(old[k]));
        let w = choose|w: int| 0 <= w < old.len() && is_active(old[w]) && rank(old[k].priority) < rank(old[w].priority);
    }
    if t >= 0 && top_active(mid) < t {
        // No plan of `mid` is active: one would outrank the preempted tier.
        assert forall|a: int| 0 <= a < mid.len() implies !is_active(mid[a]) by {
            if is_active(mid[a]) {
                let k = choose|k: int| 0 <= k < mid.len() && is_preempted(mid[k]) && rank(mid[k].priority) == t;
                assert(a != i);
                assert(rank(mid[k].priority) < rank(old[a].priority));
            }
        }
        let w = choose|k: int| 0 <= k < mid.len() && is_preempted(mid[k]) && rank(mid[k].priority) == t;
        assert(is_active(new[w]));
        assert forall|j: int| 0 <= j < new.len() && is_active(new[j]) implies rank(new[j].priority) == t by {
            if !(is_preempted(mid[j]) && rank(mid[j].priority) == t) {
                assert(same_row(mid[j], new[j]));
            }
        }
        assert forall|k: int| 0 <= k < new.len() && #[trigger] is_preempted(new[k]) implies
            exists|a: int| 0 <= a < new.len() && is_active(new[a]) && rank(new[k].priority) < rank(new[a].priority) by {
            assert(same_row(mid[k], new[k]));
            assert(rank(new[k].priority) <= t);
            assert(rank(new[w].priority) == t);
        }
    } else {
        assert forall|j: int| 0 <= j < new.len() implies same_row(mid[j], #[trigger] new[j]) by {}
        assert forall|x: int, y: int| 0 <= x < new.len() && 0 <= y < new.len()
            && is_active(new[x]) && is_active(new[y]) implies rank(new[x].priority) == rank(new[y].priority) by {
            assert(same_row(mid[x], new[x]) && same_row(mid[y], new[y]));
            assert(x != i && y != i);
        }
        assert forall|k: int| 0 <= k < new.len() && #[trigger] is_preempted(new[k]) implies
            exists|a: int| 0 <= a < new.len() && is_active(new[a]) && rank(new[k].priority) < rank(new[a].priority) by {
            assert(same_row(mid[k], new[k]));
            assert(is_preempted(mid[k]));
            assert(t >= 0);
            let a = choose|a: int| 0 <= a < mid.len() && is_active(mid[a]) && rank(mid[a].priority) == top_active(mid);
            assert(a != i);
            assert(rank(mid[k].priority) < rank(old[a].priority));
            assert(same_row(mid[a], new[a]));
        }
    }
}

/// Sets one plan's status and pause reason.
pub fn set_plan_state(plans: &mut Vec<PlanRow>, i: usize, status: PlanStatus, reason: Option<PauseReason>)
    requires
        i < old(plans)@.len(),
    ensures
        final(plans)@ == old(plans)@.update(i as int, (PlanRow { status, pause_reason: reason, ..old(plans)@[i as int] })),
{
    let mut row = plans.remove(i);
    row.status = status;
    row.pause_reason = reason;
    plans.insert(i, row);
    assert(plans@ =~= old(plans)@.update(i as int, (PlanRow { status, pause_reason: reason, ..old(plans)@[i as int] })));
}

/// Checks the current status and moves the plan to `to` (reason set only when pausing).
fn transition(
    db: &mut Database,
    idx: usize,
    allowed_a: PlanStatus,
    allowed_b: PlanStatus,
    to: PlanStatus,
    reason: Option<PauseReason>,
) -> (res: Result<(), PlanError>)
    requires
        idx < old(db).plans@.len(),
    ensures
        old(db).plans@[idx as int].status != allowed_a && old(db).plans@[idx as int].status != allowed_b
            ==> res == Err::<(), PlanError>(PlanError::PlanStatusInvalid { from: old(db).plans@[idx as int].status })
                && final(db).plans@ == old(db).plans@,
        old(db).plans@[idx as int].status == allowed_a || old(db).plans@[idx as int].status == allowed_b
            ==> res is Ok && final(db).plans@ == old(db).plans@.update(idx as int, (PlanRow {
                status: to,
                pause_reason: reason,
                ..old(db).plans@[idx as int]
            })),
        final(db).tasks == old(db).tasks,
        final(db).subgoals == old(db).subgoals,
        final(db).deps == old(db).deps,
        final(db).log == old(db).log,
        final(db).allocation == old(db).allocation,
        final(db).current_task == old(db).current_task,
        final(db).summary_shown == old(db).summary_shown,
        final(db).settings == old(db).settings,
        final(db).settings_updated_at == old(db).settings_updated_at,
        final(db).versions == old(db).versions,
        final(db).next_plan_id == old(db).next_plan_id,
        final(db).next_task_id == old(db).next_task_id,
        final(db).next_subgoal_id == old(db).next_subgoal_id,
        final(db).next_log_id == old(db).next_log_id,
{
    let from = db.plans[idx].status;
    if from != allowed_a && from != allowed_b {
        return Err(PlanError::PlanStatusInvalid { from });
    }
    set_plan_state(&mut db.plans, idx, to, reason);
    Ok(())
}


/// The other tables are untouched.
pub open spec fn only_plans_changed(a: &Database, b: &Database) -> bool {
    &&& b.tasks == a.tasks
    &&& b.subgoals == a.subgoals
    &&& b.deps == a.deps
    &&& b.log == a.log
    &&& b.allocation == a.allocation
    &&& b.current_task == a.current_task
    &&& b.summary_shown == a.summary_shown
    &&& b.settings == a.settings
    &&& b.settings_updated_at == a.settings_updated_at
    &&& b.versions == a.versions
    &&& b.next_plan_id == a.next_plan_id
    &&& b.next_task_id == a.next_task_id
    &&& b.next_subgoal_id == a.next_subgoal_id
    &&& b.next_log_id == a.next_log_id
}

/// The plan has at least one live task and every live task is completed.
pub open spec fn all_tasks_done(db: &Database, plan_id: i64) -> bool {
    &&& exists|k: int| 0 <= k < db.tasks@.len() && db.tasks@[k].plan_id == plan_id && db.tasks@[k].deleted_at is None
    &&& forall|k: int| 0 <= k < db.tasks@.len() && db.tasks@[k].plan_id == plan_id && db.tasks@[k].deleted_at is None
            ==> db.tasks@[k].status == crate::plans::TaskStatus::Completed
}

/// Outcome of starting (from `from_status`) the plan at index `i`: refused while a
/// higher plan is active or when the status is not `from_status`; otherwise the
/// plan becomes active and the lower active plans are paused.
pub open spec fn start_like(old: &Database, new: &Database, i: int, from_status: PlanStatus,
    r: Result<LifecycleOutcome, PlanError>) -> bool {
    let p = old.plans@[i];
    match first_higher_active(old.plans@, rank(p.priority)) {
        Some(h) => r == Err::<LifecycleOutcome, PlanError>(PlanError::PreemptedByHigher { plan_name: old.plans@[h].name })
            && new.plans@ == old.plans@,
        None => if p.status != from_status {
            r == Err::<LifecycleOutcome, PlanError>(PlanError::PlanStatusInvalid { from: p.status })
                && new.plans@ == old.plans@
        } else {
            let mid = with_state(old.plans@, i, PlanStatus::Active, None);
            &&& r matches Ok(out) && out.paused@ == lower_actives(mid, rank(p.priority))
            &&& preempted_below(mid, new.plans@, rank(p.priority))
        },
    }
}

/// Outcome of moving plan `i` from one of the allowed statuses to `to`, then the
/// automatic resume; refused (nothing changes) from any other status.
pub open spec fn clear_like(old: &Database, new: &Database, i: int, allowed_a: PlanStatus, allowed_b: PlanStatus,
    to: PlanStatus, reason: Option<PauseReason>, r: Result<(), PlanError>) -> bool {
    let p = old.plans@[i];
    if p.status != allowed_a && p.status != allowed_b {
        r == Err::<(), PlanError>(PlanError::PlanStatusInvalid { from: p.status }) && new.plans@ == old.plans@
    } else {
        r is Ok && resumed_top_tier(with_state(old.plans@, i, to, reason), new.plans@)
    }
}

/// Plan life-cycle operations.
pub struct LifecycleService;

impl LifecycleService {
    /// Not started → active. Refused while a higher-priority plan is active; on
    /// success the active lower-priority plans are paused and listed.
    pub fn start(db: &mut Database, plan_id: i64) -> (r: Result<LifecycleOutcome, PlanError>)
        requires
            old(db).wf(),
        ensures
            final(db).wf(),
            only_plans_changed(old(db), final(db)),
            no_plan(old(db), plan_id) ==> r == Err::<LifecycleOutcome, PlanError>(PlanError::NotFound)
                && final(db).plans@ == old(db).plans@,
            forall|i: int| has_plan_at(old(db), plan_id, i) ==> start_like(old(db), final(db), i, PlanStatus::NotStarted, r),
            preemption_invariant(old(db).plans@) ==> preemption_invariant(final(db).plans@),
    {
        Self::start_from(db, plan_id, PlanStatus::NotStarted)
    }

    /// Paused → active (reason cleared). Same preemption rules as `start`.
    pub fn resume(db: &mut Database, plan_id: i64) -> (r: Result<LifecycleOutcome, PlanError>)
        requires
            old(db).wf(),
        ensures
            final(db).wf(),
            only_plans_changed(old(db), final(db)),
            no_plan(old(db), plan_id) ==> r == Err::<LifecycleOutcome, PlanError>(PlanError::NotFound)
                && final(db).plans@ == old(db).plans@,
            forall|i: int| has_plan_at(old(db), plan_id, i) ==> start_like(old(db), final(db), i, PlanStatus::Paused, r),
            preemption_invariant(old(db).plans@) ==> preemption_invariant(final(db).plans@),
    {
        Self::start_from(db, plan_id, PlanStatus::Paused)
    }

    fn start_from(db: &mut Database, plan_id: i64, from_status: PlanStatus) -> (r: Result<LifecycleOutcome, PlanError>)
        requires
            old(db).wf(),
            from_status != PlanStatus::Active,
        ensures
            final(db).wf(),
            only_plans_changed(old(db), final(db)),
            no_plan(old(db), plan_id) ==> r == Err::<LifecycleOutcome, PlanError>(PlanError::NotFound)
                && final(db).plans@ == old(db).plans@,
            forall|i: int| has_plan_at(old(db), plan_id, i) ==> start_like(old(db), final(db), i, from_status, r),
            preemption_invariant(old(db).plans@) ==> preemption_invariant(final(db).plans@),
    {
        let idx = match find_plan(db, plan_id) {
            Some(i) => i,
            None => return Err(PlanError::NotFound),
        };
        proof {
            assert forall|i: int| has_plan_at(old(db), plan_id, i) implies i == idx by {}
        }
        let r = db.plans[idx].priority.rank();
        match ensure_no_higher_active(db, r) {
            Err(e) => return Err(e),
            Ok(()) => {},
        }
        let ghost before = db.plans@;
        match transition(db, idx, from_status, from_status, PlanStatus::Active, None) {
            Err(e) => return Err(e),
            Ok(()) => {},
        }
        let ghost mid = db.plans@;
        assert(before[idx as int].status == from_status);
        assert(mid == with_state(before, idx as int, PlanStatus::Active, None));
        let paused = preempt_lower_tiers(db, r);
        proof {
            assert(first_higher_active(before, r as int) is None);
            assert forall|j: int| 0 <= j < before.len() implies !(is_active(before[j]) && rank(before[j].priority) > r) by {
                if is_active(before[j]) && rank(before[j].priority) > r {
                    assert(exists|k: int| 0 <= k < before.len() && is_active(before[k]) && rank(before[k].priority) > r);
                }
            }
            if preemption_invariant(before) {
                lemma_start_keeps_invariant(before, idx as int, db.plans@);
            }
            lemma_rows_keep_ids(before, db.plans@);
        }
        Ok(LifecycleOutcome { paused })
    }

    /// Active → paused by the user; then the automatic resume of the top preempted tier.
    pub fn pause(db: &mut Database, plan_id: i64) -> (r: Result<(), PlanError>)
        requires
            old(db).wf(),
        ensures
            final(db).wf(),
            only_plans_changed(old(db), final(db)),
            no_plan(old(db), plan_id) ==> r == Err::<(), PlanError>(PlanError::NotFound)
                && final(db).plans@ == old(db).plans@,
            forall|i: int| has_plan_at(old(db), plan_id, i) ==> clear_like(old(db), final(db), i,
                PlanStatus::Active, PlanStatus::Active, PlanStatus::Paused, Some(PauseReason::UserInitiated), r),
            preemption_invariant(old(db).plans@) ==> preemption_invariant(final(db).plans@),
    {
        Self::clear_from(db, plan_id, PlanStatus::Active, PlanStatus::Active, PlanStatus::Paused, Some(PauseReason::UserInitiated))
    }

    /// Active or paused → abandoned (terminal); then the automatic resume.
    pub fn abort(db: &mut Database, plan_id: i64) -> (r: Result<(), PlanError>)
        requires
            old(db).wf(),
        ensures
            final(db).wf(),
            only_plans_changed(old(db), final(db)),
            no_plan(old(db), plan_id) ==> r == Err::<(), PlanError>(PlanError::NotFound)
                && final(db).plans@ == old(db).plans@,
            forall|i: int| has_plan_at(old(db), plan_id, i) ==> clear_like(old(db), final(db), i,
                PlanStatus::Active, PlanStatus::Paused, PlanStatus::Abandoned, None, r),
            preemption_invariant(old(db).plans@) ==> preemption_invariant(final(db).plans@),
    {
        Self::clear_from(db, plan_id, PlanStatus::Active, PlanStatus::Paused, PlanStatus::Abandoned, None)
    }

    /// Active → completed, confirmed by the user; needs at least one live task and
    /// every live task completed. Then the automatic resume.
    pub fn complete(db: &mut Database, plan_id: i64) -> (r: Result<(), PlanError>)
        requires
            old(db).wf(),
        ensures
            final(db).wf(),
            only_plans_changed(old(db), final(db)),
            no_plan(old(db), plan_id) ==> r == Err::<(), PlanError>(PlanError::NotFound)
                && final(db).plans@ == old(db).plans@,
            !no_plan(old(db), plan_id) && !all_tasks_done(old(db), plan_id)
                ==> r == Err::<(), PlanError>(PlanError::TasksNotCompleted) && final(db).plans@ == old(db).plans@,
            forall|i: int| has_plan_at(old(db), plan_id, i) && all_tasks_done(old(db), plan_id) ==> clear_like(old(db), final(db), i,
                PlanStatus::Active, PlanStatus::Active, PlanStatus::Completed, None, r),
            preemption_invariant(old(db).plans@) ==> preemption_invariant(final(db).plans@),
    {
        let idx = match find_plan(db, plan_id) {
            Some(i) => i,
            None => return Err(PlanError::NotFound),
        };
        let n = db.tasks.len();
        let mut total: usize = 0;
        let mut unfinished: usize = 0;
        let mut k: usize = 0;
        while k < n
            invariant
                n == db.tasks@.len(),
                k <= n,
                total <= k,
                unfinished <= k,
                (total > 0) == exists|q: int| 0 <= q < k && db.tasks@[q].plan_id == plan_id && db.tasks@[q].deleted_at is None,
                (unfinished == 0) == forall|q: int| 0 <= q < k && db.tasks@[q].plan_id == plan_id && db.tasks@[q].deleted_at is None
                    ==> db.tasks@[q].status == crate::plans::TaskStatus::Completed,
            decreases n - k,
        {
            let t = &db.tasks[k];
            if t.plan_id == plan_id && t.deleted_at.is_none() {
                total = total + 1;
                if t.status != crate::plans::TaskStatus::Completed {
                    unfinished = unfinished + 1;
                }
            }
            k = k + 1;
        }
        if total == 0 || unfinished > 0 {
            return Err(PlanError::TasksNotCompleted);
        }
        proof {
            assert forall|i: int| has_plan_at(old(db), plan_id, i) implies i == idx by {}
        }
        Self::clear_at(db, idx, PlanStatus::Active, PlanStatus::Active, PlanStatus::Completed, None)
    }

    fn clear_from(db: &mut Database, plan_id: i64, allowed_a: PlanStatus, allowed_b: PlanStatus,
        to: PlanStatus, reason: Option<PauseReason>) -> (r: Result<(), PlanError>)
        requires
            old(db).wf(),
            to != PlanStatus::Active,
            reason != Some(PauseReason::AutoPreempted),
        ensures
            final(db).wf(),
            only_plans_changed(old(db), final(db)),
            no_plan(old(db), plan_id) ==> r == Err::<(), PlanError>(PlanError::NotFound)
                && final(db).plans@ == old(db).plans@,
            forall|i: int| has_plan_at(old(db), plan_id, i) ==> clear_like(old(db), final(db), i,
                allowed_a, allowed_b, to, reason, r),
            preemption_invariant(old(db).plans@) ==> preemption_invariant(final(db).plans@),
    {
        let idx = match find_plan(db, plan_id) {
            Some(i) => i,
            None => return Err(PlanError::NotFound),
        };
        proof {
            assert forall|i: int| has_plan_at(old(db), plan_id, i) implies i == idx by {}
        }
        Self::clear_at(db, idx, allowed_a, allowed_b, to, reason)
    }

    fn clear_at(db: &mut Database, idx: usize, allowed_a: PlanStatus, allowed_b: PlanStatus,
        to: PlanStatus, reason: Option<PauseReason>) -> (r: Result<(), PlanError>)
        requires
            old(db).wf(),
            idx < old(db).plans@.len(),
            to != PlanStatus::Active,
            reason != Some(PauseReason::AutoPreempted),
        ensures
            final(db).wf(),
            only_plans_changed(old(db), final(db)),
            clear_like(old(db), final(db), idx as int, allowed_a, allowed_b, to, reason, r),
            preemption_invariant(old(db).plans@) ==> preemption_invariant(final(db).plans@),
    {
        let ghost before = db.plans@;
        match transition(db, idx, allowed_a, allowed_b, to, reason) {
            Err(e) => return Err(e),
            Ok(()) => {},
        }
        let ghost mid = db.plans@;
        assert(mid == with_state(before, idx as int, to, reason));
        auto_resume_top_tier(db);
        proof {
            if preemption_invariant(before) {
                lemma_clear_keeps_invariant(before, idx as int, mid, db.plans@);
            }
            lemma_rows_keep_ids(before, db.plans@);
        }
        Ok(())
    }
}

/// Rows that keep their ids keep the id invariant.
pub(crate) proof fn lemma_rows_keep_ids(old: Seq<PlanRow>, new: Seq<PlanRow>)
    requires
        old.len() == new.len(),
        forall|j: int| 0 <= j < old.len() ==> #[trigger] new[j].id == old[j].id && new[j].created_at == old[j].created_at,
    ensures
        forall|next: i64| crate::store::plan_ids_ok(old, next) ==> crate::store::plan_ids_ok(new, next),
{
    assert forall|next: i64| crate::store::plan_ids_ok(old, next) implies crate::store::plan_ids_ok(new, next) by {
        assert forall|i: int, j: int| 0 <= i < j < new.len() implies new[i].id != new[j].id by {
            assert(new[i].id == old[i].id && new[j].id == old[j].id);
        }
        assert forall|i: int| 0 <= i < new.len() implies 1 <= (#[trigger] new[i]).id < next && new[i].created_at.wf() by {
            assert(new[i].id == old[i].id);
            assert(1 <= old[i].id < next && old[i].created_at.wf());
        }
    }
}

impl LifecycleService {
    /// A live task whose progress reached 100% becomes completed (idempotent);
    /// returns the task's status afterwards. NotFound when absent or archived.
    pub fn sync_task_completion(db: &mut Database, task_id: i64) -> (r: Result<TaskStatus, PlanError>)
        requires
            old(db).wf(),
        ensures
            final(db).wf(),
            no_live_task(old(db), task_id) ==> r == Err::<TaskStatus, PlanError>(PlanError::NotFound) && *final(db) == *old(db),
            forall|i: int| live_task_at(old(db), task_id, i) ==> if progress_complete(progress_of(old(db), old(db).tasks@[i])) {
                &&& r == Ok::<TaskStatus, PlanError>(TaskStatus::Completed)
                &&& final(db).tasks@ == old(db).tasks@.update(i, (TaskRow { status: TaskStatus::Completed, ..old(db).tasks@[i] }))
                &&& final(db).plans@ == old(db).plans@
                &&& final(db).subgoals@ == old(db).subgoals@
                &&& final(db).log@ == old(db).log@
                &&& final(db).deps@ == old(db).deps@
            } else {
                r == Ok::<TaskStatus, PlanError>(old(db).tasks@[i].status) && *final(db) == *old(db)
            },
            final(db).settings == old(db).settings,
            final(db).versions@ == old(db).versions@,
            final(db).allocation == old(db).allocation,
            final(db).current_task == old(db).current_task,
            final(db).summary_shown@ == old(db).summary_shown@,
            final(db).settings_updated_at == old(db).settings_updated_at,
            final(db).next_plan_id == old(db).next_plan_id,
            final(db).next_task_id == old(db).next_task_id,
            final(db).next_subgoal_id == old(db).next_subgoal_id,
            final(db).next_log_id == old(db).next_log_id,
    {
        let i = match find_live_task(db, task_id) {
            Some(i) => i,
            None => return Err(PlanError::NotFound),
        };
        proof {
            assert forall|j: int| live_task_at(db, task_id, j) implies j == i by {
                if j != i {
                    if j < i {
                        assert(db.tasks@[j].id != db.tasks@[i as int].id);
                    } else {
                        assert(db.tasks@[i as int].id != db.tasks@[j].id);
                    }
                }
            }
        }
        let progress = progress_at(db, i);
        if !progress.is_complete() {
            return Ok(db.tasks[i].status);
        }
        let ghost before = db.tasks@;
        let mut row = db.tasks.remove(i);
        row.status = TaskStatus::Completed;
        db.tasks.insert(i, row);
        assert(db.tasks@ =~= before.update(i as int, (TaskRow { status: TaskStatus::Completed, ..before[i as int] })));
        proof {
            assert forall|a: int, b: int| 0 <= a < b < db.tasks@.len() implies db.tasks@[a].id != db.tasks@[b].id by {
                assert(before[a].id != before[b].id);
            }
            assert forall|k: int| 0 <= k < db.tasks@.len() implies 1 <= (#[trigger] db.tasks@[k]).id < db.next_task_id by {
                assert(before[k].id == db.tasks@[k].id);
            }
        }
        Ok(TaskStatus::Completed)
    }
}

} // verus!
