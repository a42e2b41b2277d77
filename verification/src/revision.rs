//! Editing a stored plan as a whole: the draft replaces the plan's fields, its
//! tasks, each task's sub-goals and the plan's dependency edges, under the
//! editing locks (priority once started, completed tasks, completed sub-goals).

use vstd::prelude::*;
use crate::order::{is_index_permutation, key_le, lists_index, Key3};
use crate::plans::{PlanError, SubGoalDraft, TaskDraft};
use crate::deps::reaches;
use crate::editing::{
    appended_task, draft_pairs, draft_sizes_fit, link_draft_pairs, link_pairs, new_subgoal_row, new_task_row, push_task_rows,
    rest_unchanged, same_but_subgoals, same_opt_text, stored_estimate, sub_count, subgoal_positions_fit, task_fields_from,
};
use crate::plans::{check_dep_indices, PlanService};
use crate::store::find_plan;
use crate::plans::{effective_minutes, estimates_fit, validate_spec, first_bad_dep, PlanDraft, PlanStatus, TaskStatus};
use crate::store::{has_plan_at, no_plan, Database, DepEdge, PlanRow, SubGoalRow, TaskRow};
use crate::text::default_text_of;
use crate::views::task_key;
use crate::text::{default_text, text_eq, trimmed, trimmed_string};
use crate::time::LocalTime;
use crate::views::{ordered_selection, selection_sorted, subgoal_key};

verus! {

/// A sub-goal row as plain values: id, task id, name, estimate, position,
/// completion instant, creation instant.
pub type SubGoalAbs = (i64, i64, Seq<char>, u32, i32, Option<LocalTime>, LocalTime);

/// The plain values of a sub-goal row.
pub open spec fn sg_abs(r: SubGoalRow) -> SubGoalAbs {
    (r.id, r.task_id, r.name@, r.estimated_minutes, r.position, r.completed_at, r.created_at)
}

/// Some row of task `tid` with id `x` is completed.
pub open spec fn done_row(rows: Seq<SubGoalRow>, tid: i64, x: i64) -> bool {
    exists|k: int| 0 <= k < rows.len() && rows[k].task_id == tid && rows[k].id == x && rows[k].completed_at is Some
}

/// Some row of task `tid` has id `x`.
pub open spec fn row_of_task(rows: Seq<SubGoalRow>, tid: i64, x: i64) -> bool {
    exists|k: int| 0 <= k < rows.len() && rows[k].task_id == tid && rows[k].id == x
}

/// The draft row names a completed row of task `tid`.
pub open spec fn draft_row_done(rows: Seq<SubGoalRow>, tid: i64, d: SubGoalDraft) -> bool {
    d.id matches Some(x) && done_row(rows, tid, x)
}

/// Indexes of the first `m` draft rows that do not name a completed row, in order.
pub open spec fn undone_idx(rows: Seq<SubGoalRow>, tid: i64, subs: Seq<SubGoalDraft>, m: int) -> Seq<int>
    decreases m,
{
    if m <= 0 || m > subs.len() {
        Seq::empty()
    } else {
        let p = undone_idx(rows, tid, subs, m - 1);
        if draft_row_done(rows, tid, subs[m - 1]) { p } else { p.push(m - 1) }
    }
}

/// The draft keeps completed row `r` unchanged (same id, text and estimate).
pub open spec fn kept_unchanged(subs: Seq<SubGoalDraft>, r: SubGoalRow) -> bool {
    exists|j: int| 0 <= j < subs.len() && subs[j].id == Some(r.id) && trimmed(subs[j].name@) == r.name@
        && subs[j].estimated_minutes == r.estimated_minutes
}

/// Index of the first draft row, at or after `j`, naming an id that is not a
/// row of task `tid`.
pub open spec fn first_foreign(subs: Seq<SubGoalDraft>, rows: Seq<SubGoalRow>, tid: i64, j: int) -> Option<int>
    decreases subs.len() - j,
{
    if j < 0 || j >= subs.len() {
        None
    } else if subs[j].id matches Some(x) && !row_of_task(rows, tid, x) {
        Some(j)
    } else {
        first_foreign(subs, rows, tid, j + 1)
    }
}

/// Whether the sub-goal part of task draft `t` (stored as task `tid`, draft
/// index `i`) is refused: unticking the sub-goals while one is completed, or
/// changing or dropping a completed one, locks; naming a row of another task is invalid.
pub open spec fn sub_error(rows: Seq<SubGoalRow>, tid: i64, t: TaskDraft, i: int) -> Option<PlanError> {
    if !t.has_subgoals {
        if exists|k: int| 0 <= k < rows.len() && rows[k].task_id == tid && rows[k].completed_at is Some {
            Some(PlanError::SubGoalLocked { task_index: i as usize })
        } else {
            None
        }
    } else if exists|k: int| 0 <= k < rows.len() && rows[k].task_id == tid && rows[k].completed_at is Some
        && !kept_unchanged(t.subgoals@, rows[k]) {
        Some(PlanError::SubGoalLocked { task_index: i as usize })
    } else {
        match first_foreign(t.subgoals@, rows, tid, 0) {
            Some(j) => Some(PlanError::SubGoalInvalid { task_index: i as usize, subgoal_index: j as usize }),
            None => None,
        }
    }
}

/// One flag per row: a completed row of task `tid`.
pub open spec fn completed_flags(rows: Seq<SubGoalRow>, tid: i64) -> Seq<bool> {
    Seq::new(rows.len(), |k: int| rows[k].task_id == tid && rows[k].completed_at is Some)
}

/// Sort keys of the rows: position, then id.
pub open spec fn sg_keys(rows: Seq<SubGoalRow>) -> Seq<Key3> {
    Seq::new(rows.len(), |k: int| subgoal_key(rows[k]))
}

/// The completed rows listed by `cs`, renumbered from 0 in that order.
pub open spec fn completed_part(rows: Seq<SubGoalRow>, cs: Seq<usize>) -> Seq<SubGoalAbs> {
    Seq::new(cs.len(), |q: int| {
        let r = rows[cs[q] as int];
        (r.id, r.task_id, r.name@, r.estimated_minutes, q as i32, r.completed_at, r.created_at)
    })
}

/// A later undone draft row names the same id `x`.
pub open spec fn later_same(subs: Seq<SubGoalDraft>, idx: Seq<int>, m: int, x: i64) -> bool {
    exists|m2: int| m < m2 < idx.len() && subs[idx[m2]].id == Some(x)
}

/// Creation instant of the row with id `x`.
pub open spec fn created_of(rows: Seq<SubGoalRow>, x: i64) -> LocalTime {
    rows[choose|k: int| 0 <= k < rows.len() && rows[k].id == x].created_at
}

/// Number of new draft rows (no id) among the first `m` undone rows.
pub open spec fn fresh_before(subs: Seq<SubGoalDraft>, idx: Seq<int>, m: int) -> int
    decreases m,
{
    if m <= 0 || m > idx.len() {
        0
    } else {
        fresh_before(subs, idx, m - 1) + if subs[idx[m - 1]].id is None { 1int } else { 0int }
    }
}

/// The rows that the first `m` undone draft rows become: a new row gets the
/// next fresh id, a named row keeps its id and creation instant and takes the
/// draft's text and estimate (when an id is named twice the later row wins);
/// positions follow the `c` completed rows in draft order.
pub open spec fn undone_rows(rows: Seq<SubGoalRow>, tid: i64, subs: Seq<SubGoalDraft>, idx: Seq<int>, c: int,
    first: i64, now: LocalTime, m: int) -> Seq<SubGoalAbs>
    decreases m,
{
    if m <= 0 || m > idx.len() {
        Seq::empty()
    } else {
        let prev = undone_rows(rows, tid, subs, idx, c, first, now, m - 1);
        let d = subs[idx[m - 1]];
        match d.id {
            None => prev.push(((first + fresh_before(subs, idx, m - 1)) as i64, tid, trimmed(d.name@),
                d.estimated_minutes, (c + m - 1) as i32, None, now)),
            Some(x) => if later_same(subs, idx, m - 1, x) {
                prev
            } else {
                prev.push((x, tid, trimmed(d.name@), d.estimated_minutes, (c + m - 1) as i32, None, created_of(rows, x)))
            },
        }
    }
}

/// The rows of task `tid` after its draft `t` replaced them, completed rows in
/// the order `cs`; `first` is the first fresh id.
pub open spec fn revised_rows(rows: Seq<SubGoalRow>, tid: i64, t: TaskDraft, cs: Seq<usize>, first: i64, now: LocalTime) -> Seq<SubGoalAbs> {
    if !t.has_subgoals {
        Seq::empty()
    } else {
        let idx = undone_idx(rows, tid, t.subgoals@, t.subgoals@.len() as int);
        completed_part(rows, cs) + undone_rows(rows, tid, t.subgoals@, idx, cs.len() as int, first, now, idx.len() as int)
    }
}

/// Number of fresh ids the revision of task `tid` by draft `t` takes.
pub open spec fn fresh_count(rows: Seq<SubGoalRow>, tid: i64, t: TaskDraft) -> int {
    if !t.has_subgoals {
        0
    } else {
        let idx = undone_idx(rows, tid, t.subgoals@, t.subgoals@.len() as int);
        fresh_before(t.subgoals@, idx, idx.len() as int)
    }
}

/// `result` is the revision of task `tid` by draft `t` with the completed rows
/// listed by `cs` in position order.
pub open spec fn revised_with(rows: Seq<SubGoalRow>, tid: i64, t: TaskDraft, first: i64, now: LocalTime,
    result: Seq<SubGoalAbs>, cs: Seq<usize>) -> bool {
    &&& (t.has_subgoals ==> selection_sorted(cs, sg_keys(rows), completed_flags(rows, tid)))
    &&& result == revised_rows(rows, tid, t, cs, first, now)
}

/// `result` is the revision of task `tid`'s sub-goal rows by draft `t`.
pub open spec fn revision_of(rows: Seq<SubGoalRow>, tid: i64, t: TaskDraft, first: i64, now: LocalTime,
    result: Seq<SubGoalAbs>) -> bool {
    exists|cs: Seq<usize>| #[trigger] revised_with(rows, tid, t, first, now, result, cs)
}

/// Whether draft `subs` keeps completed row `r` unchanged.
fn kept_unchanged_in(subs: &Vec<SubGoalDraft>, r: &SubGoalRow) -> (b: bool)
    ensures
        b == kept_unchanged(subs@, *r),
{
    let n = subs.len();
    let mut j: usize = 0;
    while j < n
        invariant
            n == subs@.len(),
            j <= n,
            forall|q: int| 0 <= q < j ==> !(subs@[q].id == Some(r.id) && trimmed(subs@[q].name@) == r.name@
                && subs@[q].estimated_minutes == r.estimated_minutes),
        decreases n - j,
    {
        let d = &subs[j];
        if d.id == Some(r.id) && d.estimated_minutes == r.estimated_minutes {
            let name = trimmed_string(d.name.as_str());
            if crate::text::text_eq(name.as_str(), r.name.as_str()) {
                return true;
            }
        }
        j = j + 1;
    }
    false
}

/// Whether some row of task `tid` has id `x`.
fn row_of_task_in(rows: &Vec<SubGoalRow>, tid: i64, x: i64) -> (b: bool)
    ensures
        b == row_of_task(rows@, tid, x),
{
    let n = rows.len();
    let mut k: usize = 0;
    while k < n
        invariant
            n == rows@.len(),
            k <= n,
            forall|q: int| 0 <= q < k ==> !(rows@[q].task_id == tid && rows@[q].id == x),
        decreases n - k,
    {
        if rows[k].task_id == tid && rows[k].id == x {
            return true;
        }
        k = k + 1;
    }
    false
}

/// Whether some completed row of task `tid` has id `x`.
fn done_row_in(rows: &Vec<SubGoalRow>, tid: i64, x: i64) -> (b: bool)
    ensures
        b == done_row(rows@, tid, x),
{
    let n = rows.len();
    let mut k: usize = 0;
    while k < n
        invariant
            n == rows@.len(),
            k <= n,
            forall|q: int| 0 <= q < k ==> !(rows@[q].task_id == tid && rows@[q].id == x && rows@[q].completed_at is Some),
        decreases n - k,
    {
        if rows[k].task_id == tid && rows[k].id == x && rows[k].completed_at.is_some() {
            return true;
        }
        k = k + 1;
    }
    false
}

/// The refusal, if any, of the sub-goal part of task draft `t` for task `tid` (see `sub_error`).
pub fn sub_error_of(rows: &Vec<SubGoalRow>, tid: i64, t: &TaskDraft, i: usize) -> (r: Option<PlanError>)
    ensures
        r == sub_error(rows@, tid, *t, i as int),
{
    let n = rows.len();
    let mut k: usize = 0;
    while k < n
        invariant
            n == rows@.len(),
            k <= n,
            forall|q: int| 0 <= q < k && rows@[q].task_id == tid && rows@[q].completed_at is Some
                ==> t.has_subgoals && kept_unchanged(t.subgoals@, rows@[q]),
        decreases n - k,
    {
        let row = &rows[k];
        if row.task_id == tid && row.completed_at.is_some() {
            if !t.has_subgoals || !kept_unchanged_in(&t.subgoals, row) {
                return Some(PlanError::SubGoalLocked { task_index: i });
            }
        }
        k = k + 1;
    }
    if !t.has_subgoals {
        return None;
    }
    let m = t.subgoals.len();
    let mut j: usize = 0;
    while j < m
        invariant
            m == t.subgoals@.len(),
            j <= m,
            first_foreign(t.subgoals@, rows@, tid, 0) == first_foreign(t.subgoals@, rows@, tid, j as int),
            t.has_subgoals,
            n == rows@.len(),
            forall|q: int| 0 <= q < n && rows@[q].task_id == tid && rows@[q].completed_at is Some
                ==> kept_unchanged(t.subgoals@, rows@[q]),
        decreases m - j,
    {
        match t.subgoals[j].id {
            Some(x) => {
                if !row_of_task_in(rows, tid, x) {
                    assert(first_foreign(t.subgoals@, rows@, tid, j as int) == Some(j as int));
                    assert((j as int) as usize == j && (i as int) as usize == i);
                    return Some(PlanError::SubGoalInvalid { task_index: i, subgoal_index: j });
                }
            },
            None => {},
        }
        j = j + 1;
    }
    None
}

proof fn lemma_undone_idx(rows: Seq<SubGoalRow>, tid: i64, subs: Seq<SubGoalDraft>, m: int)
    requires
        0 <= m <= subs.len(),
    ensures
        forall|p: int| 0 <= p < undone_idx(rows, tid, subs, m).len() ==> 0 <= #[trigger] undone_idx(rows, tid, subs, m)[p] < m
            && !draft_row_done(rows, tid, subs[undone_idx(rows, tid, subs, m)[p]]),
    decreases m,
{
    if m > 0 {
        lemma_undone_idx(rows, tid, subs, m - 1);
        let p = undone_idx(rows, tid, subs, m - 1);
        assert forall|q: int| 0 <= q < undone_idx(rows, tid, subs, m).len() implies 0 <= #[trigger] undone_idx(rows, tid, subs, m)[q] < m
            && !draft_row_done(rows, tid, subs[undone_idx(rows, tid, subs, m)[q]]) by {
            if q < p.len() {
                assert(undone_idx(rows, tid, subs, m)[q] == p[q]);
            }
        }
    }
}

/// Index of the row of task `tid` with id `x`.
fn row_index_of(rows: &Vec<SubGoalRow>, tid: i64, x: i64) -> (k: usize)
    requires
        row_of_task(rows@, tid, x),
    ensures
        k < rows@.len(),
        rows@[k as int].task_id == tid,
        rows@[k as int].id == x,
{
    let n = rows.len();
    let mut k: usize = 0;
    while k < n
        invariant
            n == rows@.len(),
            k <= n,
            row_of_task(rows@, tid, x),
            forall|q: int| 0 <= q < k ==> !(rows@[q].task_id == tid && rows@[q].id == x),
        decreases n - k,
    {
        if rows[k].task_id == tid && rows[k].id == x {
            return k;
        }
        k = k + 1;
    }
    k
}

proof fn lemma_fresh_before_bounds(subs: Seq<SubGoalDraft>, idx: Seq<int>, a: int, b: int)
    requires
        0 <= a <= b <= idx.len(),
    ensures
        0 <= fresh_before(subs, idx, a) <= fresh_before(subs, idx, b),
    decreases b,
{
    if b > 0 {
        if a == b {
            lemma_fresh_before_bounds(subs, idx, a - 1, b - 1);
        } else {
            lemma_fresh_before_bounds(subs, idx, a, b - 1);
        }
    }
}

/// The rows of task `tid` after draft `t` replaced them (see `revised_rows`),
/// fresh ids starting at `first`.
pub fn revised_task_rows(rows: &Vec<SubGoalRow>, tid: i64, t: &TaskDraft, first: i64, now: LocalTime) -> (res: (Vec<SubGoalRow>, i64))
    requires
        forall|a: int, b: int| 0 <= a < b < rows@.len() ==> rows@[a].id != rows@[b].id,
        forall|k: int| 0 <= k < rows@.len() ==> (#[trigger] rows@[k]).id < first,
        first + fresh_count(rows@, tid, *t) <= i64::MAX,
        t.has_subgoals ==> first_foreign(t.subgoals@, rows@, tid, 0) is None,
    ensures
        ({
            let r = res.0;
            &&& res.1 == first + fresh_count(rows@, tid, *t)
            &&& revision_of(rows@, tid, *t, first, now, r@.map_values(|x: SubGoalRow| sg_abs(x)))
            &&& forall|q: int| 0 <= q < r@.len() ==> (#[trigger] r@[q]).task_id == tid
            &&& forall|a: int, b: int| 0 <= a < b < r@.len() ==> r@[a].id != r@[b].id
            &&& forall|q: int| 0 <= q < r@.len() ==> row_of_task(rows@, tid, (#[trigger] r@[q]).id)
                || (first <= r@[q].id < first + fresh_count(rows@, tid, *t))
        }),
{
    if !t.has_subgoals {
        let out: Vec<SubGoalRow> = Vec::new();
        proof {
            assert(out@.map_values(|x: SubGoalRow| sg_abs(x)) =~= Seq::<SubGoalAbs>::empty());
            assert(revised_with(rows@, tid, *t, first, now, out@.map_values(|x: SubGoalRow| sg_abs(x)), Seq::empty()));
        }
        return (out, first);
    }
    let n = rows.len();
    let mut keys: Vec<Key3> = Vec::new();
    let mut flags: Vec<bool> = Vec::new();
    let mut k: usize = 0;
    while k < n
        invariant
            n == rows@.len(),
            k <= n,
            keys@.len() == k,
            flags@.len() == k,
            forall|q: int| 0 <= q < k ==> #[trigger] keys@[q] == subgoal_key(rows@[q]),
            forall|q: int| 0 <= q < k ==> #[trigger] flags@[q] == (rows@[q].task_id == tid && rows@[q].completed_at is Some),
        decreases n - k,
    {
        keys.push((rows[k].position as i64, rows[k].id, 0));
        flags.push(rows[k].task_id == tid && rows[k].completed_at.is_some());
        k = k + 1;
    }
    assert(keys@ =~= sg_keys(rows@));
    assert(flags@ =~= completed_flags(rows@, tid));
    let cs = ordered_selection(&keys, &flags);
    let c = cs.len();
    let ghost cpart = completed_part(rows@, cs@);
    let mut out: Vec<SubGoalRow> = Vec::new();
    let mut q: usize = 0;
    while q < c
        invariant
            c == cs@.len(),
            n == rows@.len(),
            selection_sorted(cs@, sg_keys(rows@), completed_flags(rows@, tid)),
            cpart == completed_part(rows@, cs@),
            q <= c,
            out@.len() == q,
            forall|p: int| 0 <= p < q ==> sg_abs(#[trigger] out@[p]) == cpart[p],
            forall|p: int| 0 <= p < q ==> (#[trigger] out@[p]).id == rows@[cs@[p] as int].id,
            forall|p: int| 0 <= p < q ==> (#[trigger] out@[p]).task_id == tid,
        decreases c - q,
    {
        let row = &rows[cs[q]];
        let pos = #[verifier::truncate] (q as i32);
        out.push(SubGoalRow {
            id: row.id,
            task_id: row.task_id,
            name: row.name.clone(),
            estimated_minutes: row.estimated_minutes,
            position: pos,
            completed_at: row.completed_at,
            created_at: row.created_at,
        });
        q = q + 1;
    }
    // The undone draft rows, in draft order.
    let subs = &t.subgoals;
    let ns = subs.len();
    let mut idx: Vec<usize> = Vec::new();
    let mut j: usize = 0;
    while j < ns
        invariant
            ns == subs@.len(),
            j <= ns,
            idx@.len() == undone_idx(rows@, tid, subs@, j as int).len(),
            forall|p: int| 0 <= p < idx@.len() ==> #[trigger] idx@[p] as int == undone_idx(rows@, tid, subs@, j as int)[p],
        decreases ns - j,
    {
        let is_done = match subs[j].id {
            Some(x) => done_row_in(rows, tid, x),
            None => false,
        };
        if !is_done {
            idx.push(j);
        }
        j = j + 1;
    }
    let ghost ui = undone_idx(rows@, tid, subs@, ns as int);
    proof {
        lemma_undone_idx(rows@, tid, subs@, ns as int);
    }
    let ni = idx.len();
    let mut fresh: i64 = first;
    let mut m: usize = 0;
    while m < ni
        invariant
            ni == idx@.len() == ui.len(),
            ns == subs@.len(),
            n == rows@.len(),
            c == cs@.len(),
            t.has_subgoals,
            subs == t.subgoals,
            ui == undone_idx(rows@, tid, subs@, ns as int),
            forall|p: int| 0 <= p < ni ==> #[trigger] idx@[p] as int == ui[p],
            forall|p: int| 0 <= p < ui.len() ==> 0 <= #[trigger] ui[p] < ns && !draft_row_done(rows@, tid, subs@[ui[p]]),
            forall|a: int, b: int| 0 <= a < b < rows@.len() ==> rows@[a].id != rows@[b].id,
            forall|k: int| 0 <= k < rows@.len() ==> (#[trigger] rows@[k]).id < first,
            first + fresh_count(rows@, tid, *t) <= i64::MAX,
            fresh_count(rows@, tid, *t) == fresh_before(subs@, ui, ni as int),
            t.has_subgoals ==> first_foreign(t.subgoals@, rows@, tid, 0) is None,
            selection_sorted(cs@, sg_keys(rows@), completed_flags(rows@, tid)),
            cpart == completed_part(rows@, cs@),
            m <= ni,
            fresh == first + fresh_before(subs@, ui, m as int),
            out@.len() == c + undone_rows(rows@, tid, subs@, ui, c as int, first, now, m as int).len(),
            forall|p: int| 0 <= p < c ==> sg_abs(#[trigger] out@[p]) == cpart[p],
            forall|p: int| 0 <= p < c ==> (#[trigger] out@[p]).id == rows@[cs@[p] as int].id,
            forall|p: int| c <= p < out@.len() ==> sg_abs(#[trigger] out@[p])
                == undone_rows(rows@, tid, subs@, ui, c as int, first, now, m as int)[p - c],
            forall|p: int| c <= p < out@.len() && (#[trigger] out@[p]).id >= first ==> out@[p].id < fresh,
            forall|p: int| c <= p < out@.len() && (#[trigger] out@[p]).id < first ==>
                row_of_task(rows@, tid, out@[p].id) && !done_row(rows@, tid, out@[p].id)
                && forall|m2: int| m <= m2 < ni ==> subs@[ui[m2]].id != Some(out@[p].id),
            forall|a: int, b: int| 0 <= a < b < out@.len() ==> out@[a].id != out@[b].id,
            forall|p: int| 0 <= p < out@.len() ==> (#[trigger] out@[p]).task_id == tid,
            forall|p: int| 0 <= p < out@.len() ==> row_of_task(rows@, tid, (#[trigger] out@[p]).id) || first <= out@[p].id < fresh,
        decreases ni - m,
    {
        proof {
            lemma_fresh_before_bounds(subs@, ui, m + 1, ni as int);
            lemma_fresh_before_bounds(subs@, ui, m as int, m + 1);
        }
        let d = &subs[idx[m]];
        let pos = #[verifier::truncate] ((c as u128 + m as u128) as i32);
        let ghost before = out@;
        let ghost ur = undone_rows(rows@, tid, subs@, ui, c as int, first, now, m as int);
        match d.id {
            None => {
                out.push(SubGoalRow {
                    id: fresh,
                    task_id: tid,
                    name: trimmed_string(d.name.as_str()),
                    estimated_minutes: d.estimated_minutes,
                    position: pos,
                    completed_at: None,
                    created_at: now,
                });
                fresh = fresh + 1;
                proof {
                    assert forall|a: int, b: int| 0 <= a < b < out@.len() implies out@[a].id != out@[b].id by {
                        if b == out@.len() - 1 {
                            if a >= c {
                                if before[a].id >= first {
                                } else {
                                }
                            } else {
                                let k0 = cs@[a] as int;
                                assert(rows@[k0].id < first);
                            }
                        }
                    }
                }
            },
            Some(x) => {
                let mut later = false;
                let mut m2: usize = m + 1;
                while m2 < ni
                    invariant
                        ni == idx@.len() == ui.len(),
                        forall|p: int| 0 <= p < ni ==> #[trigger] idx@[p] as int == ui[p],
                        forall|p: int| 0 <= p < ui.len() ==> 0 <= #[trigger] ui[p] < ns,
                        ns == subs@.len(),
                        m < m2 <= ni,
                        later == exists|w: int| m < w < m2 && subs@[ui[w]].id == Some(x),
                    decreases ni - m2,
                {
                    if subs[idx[m2]].id == Some(x) {
                        later = true;
                    }
                    m2 = m2 + 1;
                }
                if !later {
                    // The submitted row names an existing sub-goal of the same task (no foreign ids).
                    proof {
                        lemma_no_foreign(t.subgoals@, rows@, tid, 0, ui[m as int]);
                    }
                    let kk = row_index_of(rows, tid, x);
                    let created = rows[kk].created_at;
                    proof {
                        let k0 = choose|k: int| 0 <= k < rows@.len() && rows@[k].id == x;
                        if k0 != kk {
                            if k0 < kk {
                                assert(rows@[k0].id != rows@[kk as int].id);
                            } else {
                                assert(rows@[kk as int].id != rows@[k0].id);
                            }
                        }
                        assert(created == created_of(rows@, x));
                    }
                    out.push(SubGoalRow {
                        id: x,
                        task_id: tid,
                        name: trimmed_string(d.name.as_str()),
                        estimated_minutes: d.estimated_minutes,
                        position: pos,
                        completed_at: None,
                        created_at: created,
                    });
                    proof {
                        assert(rows@[kk as int].id < first);
                        assert(!done_row(rows@, tid, x));
                        assert forall|a: int, b: int| 0 <= a < b < out@.len() implies out@[a].id != out@[b].id by {
                            if b == out@.len() - 1 {
                                if a < c {
                                    let k0 = cs@[a] as int;
                                    assert(completed_flags(rows@, tid)[k0]);
                                    assert(done_row(rows@, tid, rows@[k0].id));
                                } else if before[a].id < first {
                                    assert(subs@[ui[m as int]].id == Some(x));
                                }
                            }
                        }
                    }
                }
            },
        }
        m = m + 1;
    }
    proof {
        let res = out@.map_values(|x: SubGoalRow| sg_abs(x));
        assert(res =~= revised_rows(rows@, tid, *t, cs@, first, now));
        assert(revised_with(rows@, tid, *t, first, now, res, cs@));
    }
    (out, fresh)
}

proof fn lemma_no_foreign(subs: Seq<SubGoalDraft>, rows: Seq<SubGoalRow>, tid: i64, j: int, at: int)
    requires
        0 <= j <= at < subs.len(),
        first_foreign(subs, rows, tid, j) is None,
    ensures
        subs[at].id matches Some(x) ==> row_of_task(rows, tid, x),
    decreases at - j,
{
    if j < at {
        lemma_no_foreign(subs, rows, tid, j + 1, at);
    }
}

/// Whether a row belongs to task `tid`.
pub open spec fn task_is(tid: i64) -> spec_fn(SubGoalRow) -> bool {
    |r: SubGoalRow| r.task_id == tid
}

/// Whether a row belongs to a task other than `tid`.
pub open spec fn task_is_not(tid: i64) -> spec_fn(SubGoalRow) -> bool {
    |r: SubGoalRow| r.task_id != tid
}

/// The rows of task `tid`, in table order.
pub open spec fn of_task(rows: Seq<SubGoalRow>, tid: i64) -> Seq<SubGoalRow> {
    rows.filter(task_is(tid))
}

/// The rows of tasks other than `tid`, in table order.
pub open spec fn not_of_task(rows: Seq<SubGoalRow>, tid: i64) -> Seq<SubGoalRow> {
    rows.filter(task_is_not(tid))
}

proof fn lemma_of_task_all(r: Seq<SubGoalRow>, tid: i64)
    requires
        forall|p: int| 0 <= p < r.len() ==> (#[trigger] r[p]).task_id == tid,
    ensures
        of_task(r, tid) == r,
    decreases r.len(),
{
    reveal(Seq::filter);
    if r.len() > 0 {
        lemma_of_task_all(r.drop_last(), tid);
        assert(r.drop_last().push(r.last()) =~= r);
    }
}

proof fn lemma_of_task_none(f: Seq<SubGoalRow>, tid: i64)
    requires
        forall|p: int| 0 <= p < f.len() ==> (#[trigger] f[p]).task_id != tid,
    ensures
        of_task(f, tid) == Seq::<SubGoalRow>::empty(),
    decreases f.len(),
{
    reveal(Seq::filter);
    if f.len() > 0 {
        lemma_of_task_none(f.drop_last(), tid);
    }
}

proof fn lemma_of_task_split(f: Seq<SubGoalRow>, r: Seq<SubGoalRow>, tid: i64, y: i64)
    requires
        forall|p: int| 0 <= p < f.len() ==> (#[trigger] f[p]).task_id != tid,
        forall|p: int| 0 <= p < r.len() ==> (#[trigger] r[p]).task_id == tid,
    ensures
        y == tid ==> of_task(f + r, y) == r,
        y != tid ==> of_task(f + r, y) == of_task(f, y),
{
    Seq::filter_distributes_over_add(f, r, task_is(y));
    if y == tid {
        lemma_of_task_none(f, tid);
        lemma_of_task_all(r, tid);
        assert(Seq::<SubGoalRow>::empty() + r =~= r);
    } else {
        lemma_of_task_none(r, y);
        assert(of_task(f, y) + Seq::<SubGoalRow>::empty() =~= of_task(f, y));
    }
}

proof fn lemma_filter_twice(rows: Seq<SubGoalRow>, tid: i64, y: i64)
    requires
        y != tid,
    ensures
        of_task(not_of_task(rows, tid), y) == of_task(rows, y),
    decreases rows.len(),
{
    reveal(Seq::filter);
    if rows.len() > 0 {
        lemma_filter_twice(rows.drop_last(), tid, y);
        let last = rows.last();
        let inner = not_of_task(rows.drop_last(), tid);
        if last.task_id != tid {
            assert(not_of_task(rows, tid) == inner.push(last));
            assert(inner.push(last).drop_last() =~= inner);
        }
    }
}

/// Every row of `f` is one of the first `k` rows of `rows`.
pub open spec fn rows_taken_from_prefix(f: Seq<SubGoalRow>, rows: Seq<SubGoalRow>, k: int) -> bool {
    forall|p: int| 0 <= p < f.len() ==> exists|k2: int| 0 <= k2 < k && rows[k2] == #[trigger] f[p]
}

/// Every row of `f` is a row of `rows`.
pub open spec fn rows_taken_from(f: Seq<SubGoalRow>, rows: Seq<SubGoalRow>) -> bool {
    rows_taken_from_prefix(f, rows, rows.len() as int)
}

/// Rebuilding the table as the other tasks' rows followed by the revised rows
/// keeps identifiers distinct and below the advanced counter.
proof fn lemma_rebuilt_ids(rows: Seq<SubGoalRow>, mine: Seq<SubGoalRow>, f: Seq<SubGoalRow>, rv: Seq<SubGoalRow>, tid: i64,
    next: i64, fresh_n: int)
    requires
        rows_taken_from(mine, rows),
        fresh_n >= 0,
        next >= 1,
        forall|i: int| 0 <= i < rows.len() ==> 1 <= (#[trigger] rows[i]).id < next,
        forall|a: int, b: int| 0 <= a < b < rows.len() ==> rows[a].id != rows[b].id,
        forall|p: int| 0 <= p < f.len() ==> (#[trigger] f[p]).task_id != tid,
        rows_taken_from(f, rows),
        forall|a: int, b: int| 0 <= a < b < f.len() ==> f[a].id != f[b].id,
        forall|a: int, b: int| 0 <= a < b < rv.len() ==> rv[a].id != rv[b].id,
        forall|q: int| 0 <= q < rv.len() ==> row_of_task(mine, tid, (#[trigger] rv[q]).id)
            || (next <= rv[q].id < next + fresh_n),
    ensures
        forall|p: int| 0 <= p < (f + rv).len() ==> 1 <= (#[trigger] (f + rv)[p]).id < next + fresh_n,
        forall|a: int, b: int| 0 <= a < b < (f + rv).len() ==> (f + rv)[a].id != (f + rv)[b].id,
{
    let out = f + rv;
    assert forall|p: int| 0 <= p < out.len() implies 1 <= (#[trigger] out[p]).id < next + fresh_n by {
        if p < f.len() {
            let k2 = choose|k2: int| 0 <= k2 < rows.len() && rows[k2] == f[p];
            assert(out[p] == f[p]);
        } else {
            let r = rv[p - f.len()];
            assert(out[p] == r);
            if row_of_task(mine, tid, r.id) {
                let k1 = choose|k1: int| 0 <= k1 < mine.len() && mine[k1].task_id == tid && mine[k1].id == r.id;
                let k2 = choose|k2: int| 0 <= k2 < rows.len() && rows[k2] == mine[k1];
            }
        }
    }
    assert forall|a: int, b: int| 0 <= a < b < out.len() implies out[a].id != out[b].id by {
        if b >= f.len() {
            let rb = rv[b - f.len()];
            assert(out[b] == rb);
            if a >= f.len() {
                assert(out[a] == rv[a - f.len()]);
            } else {
                assert(out[a] == f[a]);
                let k2 = choose|k2: int| 0 <= k2 < rows.len() && rows[k2] == f[a];
                if row_of_task(mine, tid, rb.id) {
                    let k1 = choose|k1: int| 0 <= k1 < mine.len() && mine[k1].task_id == tid && mine[k1].id == rb.id;
                    let k3 = choose|k3: int| 0 <= k3 < rows.len() && rows[k3] == mine[k1];
                    assert(k2 != k3);
                }
            }
        } else {
            assert(out[a] == f[a] && out[b] == f[b]);
        }
    }
}

/// A copy of a sub-goal row.
pub fn copy_subgoal_row(r: &SubGoalRow) -> (c: SubGoalRow)
    ensures
        c == *r,
{
    SubGoalRow {
        id: r.id,
        task_id: r.task_id,
        name: r.name.clone(),
        estimated_minutes: r.estimated_minutes,
        position: r.position,
        completed_at: r.completed_at,
        created_at: r.created_at,
    }
}

/// Whether row `r` is kept: rows of task `tid` when `mine`, the other rows otherwise.
pub open spec fn picks(tid: i64, mine: bool) -> spec_fn(SubGoalRow) -> bool {
    |r: SubGoalRow| (r.task_id == tid) == mine
}

proof fn lemma_picks_is(tid: i64)
    ensures
        picks(tid, true) == task_is(tid),
        picks(tid, false) == task_is_not(tid),
{
    assert(picks(tid, true) =~= task_is(tid));
    assert(picks(tid, false) =~= task_is_not(tid));
}

/// Copies of the rows of task `tid` (`mine`) or of the other tasks, in table order.
fn rows_picked(rows: &Vec<SubGoalRow>, tid: i64, mine: bool) -> (out: Vec<SubGoalRow>)
    requires
        forall|a: int, b: int| 0 <= a < b < rows@.len() ==> rows@[a].id != rows@[b].id,
    ensures
        out@ == rows@.filter(picks(tid, mine)),
        forall|p: int| 0 <= p < out@.len() ==> ((#[trigger] out@[p]).task_id == tid) == mine,
        rows_taken_from(out@, rows@),
        forall|a: int, b: int| 0 <= a < b < out@.len() ==> out@[a].id != out@[b].id,
{
    let n = rows.len();
    let mut out: Vec<SubGoalRow> = Vec::new();
    let mut k: usize = 0;
    while k < n
        invariant
            n == rows@.len(),
            forall|a: int, b: int| 0 <= a < b < rows@.len() ==> rows@[a].id != rows@[b].id,
            k <= n,
            out@ == rows@.subrange(0, k as int).filter(picks(tid, mine)),
            forall|p: int| 0 <= p < out@.len() ==> ((#[trigger] out@[p]).task_id == tid) == mine,
            rows_taken_from_prefix(out@, rows@, k as int),
            forall|a: int, b: int| 0 <= a < b < out@.len() ==> out@[a].id != out@[b].id,
        decreases n - k,
    {
        let row = &rows[k];
        if (row.task_id == tid) == mine {
            let ghost before = out@;
            out.push(copy_subgoal_row(row));
            proof {
                assert(out@.last() == rows@[k as int]);
                assert forall|p: int| 0 <= p < out@.len() implies exists|k2: int| 0 <= k2 < k + 1 && rows@[k2] == #[trigger] out@[p] by {
                    if p < before.len() {
                        assert(out@[p] == before[p]);
                        let k2 = choose|k2: int| 0 <= k2 < k && rows@[k2] == before[p];
                        assert(rows@[k2] == out@[p]);
                    } else {
                        assert(rows@[k as int] == out@[p]);
                    }
                }
                assert forall|a: int, b: int| 0 <= a < b < out@.len() implies out@[a].id != out@[b].id by {
                    if b == before.len() {
                        let k2 = choose|k2: int| 0 <= k2 < k && rows@[k2] == before[a];
                        assert(rows@[k2].id != rows@[k as int].id);
                    }
                }
            }
        }
        proof {
            reveal_with_fuel(Seq::filter, 1);
            assert(rows@.subrange(0, k + 1).drop_last() =~= rows@.subrange(0, k as int));
            if (row.task_id == tid) != mine {
                assert forall|p: int| 0 <= p < out@.len() implies exists|k2: int| 0 <= k2 < k + 1 && rows@[k2] == #[trigger] out@[p] by {
                    let k2 = choose|k2: int| 0 <= k2 < k && rows@[k2] == out@[p];
                }
            }
        }
        k = k + 1;
    }
    assert(rows@.subrange(0, n as int) =~= rows@);
    out
}

/// Appends copies of `extra` to `out`.
fn append_rows(out: &mut Vec<SubGoalRow>, extra: &Vec<SubGoalRow>)
    ensures
        final(out)@ == old(out)@ + extra@,
{
    let m = extra.len();
    let mut q: usize = 0;
    while q < m
        invariant
            m == extra@.len(),
            q <= m,
            out@ == old(out)@ + extra@.subrange(0, q as int),
        decreases m - q,
    {
        out.push(copy_subgoal_row(&extra[q]));
        assert(out@ =~= old(out)@ + extra@.subrange(0, q + 1));
        q = q + 1;
    }
    assert(extra@.subrange(0, m as int) =~= extra@);
}

/// Replaces the sub-goal rows of task `tid` by its revision under draft `t`
/// (see `revision_of`), taking fresh ids from the store's counter.
#[verifier::rlimit(40)]
pub fn revise_subgoals(db: &mut Database, tid: i64, t: &TaskDraft, now: LocalTime)
    requires
        old(db).wf(),
        tid < old(db).next_task_id,
        t.has_subgoals ==> first_foreign(t.subgoals@, of_task(old(db).subgoals@, tid), tid, 0) is None,
        old(db).next_subgoal_id + fresh_count(of_task(old(db).subgoals@, tid), tid, *t) <= i64::MAX,
    ensures
        final(db).wf(),
        same_but_subgoals(old(db), final(db)),
        final(db).next_subgoal_id == old(db).next_subgoal_id + fresh_count(of_task(old(db).subgoals@, tid), tid, *t),
        revision_of(of_task(old(db).subgoals@, tid), tid, *t, old(db).next_subgoal_id, now,
            of_task(final(db).subgoals@, tid).map_values(|x: SubGoalRow| sg_abs(x))),
        forall|y: i64| y != tid ==> #[trigger] of_task(final(db).subgoals@, y) == of_task(old(db).subgoals@, y),
{
    let ghost rows = db.subgoals@;
    let first = db.next_subgoal_id;
    proof {
        lemma_picks_is(tid);
    }
    let mine = rows_picked(&db.subgoals, tid, true);
    let (revised, next_fresh) = revised_task_rows(&mine, tid, t, first, now);
    let mut out = rows_picked(&db.subgoals, tid, false);
    let ghost f = out@;
    append_rows(&mut out, &revised);
    let ghost fresh_n = fresh_count(mine@, tid, *t);
    proof {
        assert forall|y: i64| y != tid implies #[trigger] of_task(out@, y) == of_task(rows, y) by {
            lemma_of_task_split(f, revised@, tid, y);
            lemma_filter_twice(rows, tid, y);
        }
        lemma_of_task_split(f, revised@, tid, tid);
        if t.has_subgoals {
            let ui = undone_idx(mine@, tid, t.subgoals@, t.subgoals@.len() as int);
            lemma_fresh_before_bounds(t.subgoals@, ui, 0, ui.len() as int);
        }
        lemma_rebuilt_ids(rows, mine@, f, revised@, tid, first, fresh_n);
        assert forall|i: int| 0 <= i < out@.len() implies (#[trigger] out@[i]).task_id < db.next_task_id by {
            if i < f.len() {
                let k2 = choose|k2: int| 0 <= k2 < rows.len() && rows[k2] == f[i];
                assert(out@[i] == f[i]);
            } else {
                assert(out@[i] == revised@[i - f.len()]);
            }
        }
    }
    db.subgoals = out;
    db.next_subgoal_id = next_fresh;
}

/// Appending rows of task `tid` leaves the other tasks' rows as they were.
pub proof fn lemma_appended_of_task(old_rows: Seq<SubGoalRow>, new_rows: Seq<SubGoalRow>, tid: i64, y: i64)
    requires
        old_rows.len() <= new_rows.len(),
        new_rows.subrange(0, old_rows.len() as int) == old_rows,
        forall|p: int| old_rows.len() <= p < new_rows.len() ==> (#[trigger] new_rows[p]).task_id == tid,
    ensures
        y != tid ==> of_task(new_rows, y) == of_task(old_rows, y),
        y == tid ==> of_task(new_rows, y) == of_task(old_rows, y) + new_rows.subrange(old_rows.len() as int, new_rows.len() as int),
{
    let added = new_rows.subrange(old_rows.len() as int, new_rows.len() as int);
    assert(new_rows =~= old_rows + added);
    Seq::filter_distributes_over_add(old_rows, added, task_is(y));
    if y != tid {
        lemma_of_task_none(added, y);
        assert(of_task(old_rows, y) + Seq::<SubGoalRow>::empty() =~= of_task(old_rows, y));
    } else {
        lemma_of_task_all(added, tid);
    }
}

/// The sub-goal rows a new task `y` stores from draft `t`, ids from `first`.
pub open spec fn fresh_task_rows(t: TaskDraft, y: i64, first: int, now: LocalTime) -> Seq<SubGoalAbs> {
    Seq::new(sub_count(t) as nat, |j: int| ((first + j) as i64, y, trimmed(t.subgoals@[j].name@),
        t.subgoals@[j].estimated_minutes, j as i32, None::<LocalTime>, now))
}

/// Task row `k` is a live task of plan `plan_id`.
pub open spec fn live_in_plan(db: &Database, plan_id: i64, k: int) -> bool {
    0 <= k < db.tasks@.len() && db.tasks@[k].plan_id == plan_id && db.tasks@[k].deleted_at is None
}

/// The draft's task ids are exactly the ids of the plan's live tasks: no id
/// twice, each a live task of the plan, and every live task of the plan named.
pub open spec fn task_set_matches(db: &Database, plan_id: i64, tasks: Seq<TaskDraft>) -> bool {
    &&& forall|i: int, j: int| 0 <= i < j < tasks.len() && tasks[i].id is Some ==> tasks[i].id != tasks[j].id
    &&& forall|i: int| 0 <= i < tasks.len() && tasks[i].id is Some ==>
            exists|k: int| live_in_plan(db, plan_id, k) && Some(db.tasks@[k].id) == tasks[i].id
    &&& forall|k: int| live_in_plan(db, plan_id, k) ==>
            exists|i: int| 0 <= i < tasks.len() && tasks[i].id == Some(db.tasks@[k].id)
}

/// Index of the task row with id `x`.
pub open spec fn task_index_of(db: &Database, x: i64) -> int {
    choose|k: int| 0 <= k < db.tasks@.len() && db.tasks@[k].id == x
}

/// Index of the draft task carrying id `x`.
pub open spec fn draft_index_of(tasks: Seq<TaskDraft>, x: i64) -> int {
    choose|i: int| 0 <= i < tasks.len() && tasks[i].id == Some(x)
}

/// The draft task carries the id of a completed task.
pub open spec fn draft_done(db: &Database, t: TaskDraft) -> bool {
    t.id matches Some(x) && db.tasks@[task_index_of(db, x)].status == TaskStatus::Completed
}

/// First draft task, at or after `i`, that changes a completed task's fields.
pub open spec fn first_locked(db: &Database, tasks: Seq<TaskDraft>, i: int) -> Option<int>
    decreases tasks.len() - i,
{
    if i < 0 || i >= tasks.len() {
        None
    } else if draft_done(db, tasks[i]) && !task_fields_from(db.tasks@[task_index_of(db, tasks[i].id->0)], tasks[i]) {
        Some(i)
    } else {
        first_locked(db, tasks, i + 1)
    }
}

/// Indexes of the first `m` draft tasks that are not completed tasks, in order.
pub open spec fn undone_tasks(db: &Database, tasks: Seq<TaskDraft>, m: int) -> Seq<int>
    decreases m,
{
    if m <= 0 || m > tasks.len() {
        Seq::empty()
    } else {
        let p = undone_tasks(db, tasks, m - 1);
        if draft_done(db, tasks[m - 1]) { p } else { p.push(m - 1) }
    }
}

/// One flag per task row: a completed live task of plan `plan_id`.
pub open spec fn done_task_flags(db: &Database, plan_id: i64) -> Seq<bool> {
    Seq::new(db.tasks@.len(), |k: int| live_in_plan(db, plan_id, k) && db.tasks@[k].status == TaskStatus::Completed)
}

/// Sort keys of the task rows: position, then id.
pub open spec fn task_keys(db: &Database) -> Seq<Key3> {
    Seq::new(db.tasks@.len(), |k: int| task_key(db.tasks@[k]))
}

/// Storage order of the draft's tasks: the tasks that are not completed in
/// draft order, then the completed ones in the order `cs` of their rows.
pub open spec fn storage_order(db: &Database, tasks: Seq<TaskDraft>, cs: Seq<usize>) -> Seq<int> {
    undone_tasks(db, tasks, tasks.len() as int)
        + Seq::new(cs.len(), |q: int| draft_index_of(tasks, db.tasks@[cs[q] as int].id))
}

/// Storage position of draft task `di`.
pub open spec fn position_in(ord: Seq<int>, di: int) -> int {
    choose|p: int| 0 <= p < ord.len() && ord[p] == di
}

/// First sub-goal refusal among the draft's known tasks, in storage order from `p`.
pub open spec fn first_sub_error(db: &Database, tasks: Seq<TaskDraft>, ord: Seq<int>, p: int) -> Option<PlanError>
    decreases ord.len() - p,
{
    if p < 0 || p >= ord.len() {
        None
    } else {
        let di = ord[p];
        match tasks[di].id {
            Some(x) => match sub_error(of_task(db.subgoals@, x), x, tasks[di], di) {
                Some(e) => Some(e),
                None => first_sub_error(db, tasks, ord, p + 1),
            },
            None => first_sub_error(db, tasks, ord, p + 1),
        }
    }
}

/// Fresh sub-goal ids the draft task takes.
pub open spec fn task_fresh_subs(db: &Database, t: TaskDraft) -> int {
    match t.id {
        Some(x) => fresh_count(of_task(db.subgoals@, x), x, t),
        None => sub_count(t),
    }
}

/// Fresh sub-goal ids taken by the tasks at storage positions before `p`.
pub open spec fn subs_before(db: &Database, tasks: Seq<TaskDraft>, ord: Seq<int>, p: int) -> int
    decreases p,
{
    if p <= 0 || p > ord.len() {
        0
    } else {
        subs_before(db, tasks, ord, p - 1) + task_fresh_subs(db, tasks[ord[p - 1]])
    }
}

/// New tasks at storage positions before `p`.
pub open spec fn new_in_prefix(tasks: Seq<TaskDraft>, ord: Seq<int>, p: int) -> int
    decreases p,
{
    if p <= 0 || p > ord.len() {
        0
    } else {
        new_in_prefix(tasks, ord, p - 1) + if tasks[ord[p - 1]].id is None { 1int } else { 0int }
    }
}

/// The edit would need identifiers past `i64::MAX`.
pub open spec fn update_exhausts(db: &Database, tasks: Seq<TaskDraft>, ord: Seq<int>) -> bool {
    ||| db.next_task_id + new_in_prefix(tasks, ord, ord.len() as int) > i64::MAX
    ||| db.next_subgoal_id + subs_before(db, tasks, ord, ord.len() as int) > i64::MAX
}

/// Task ids after the edit, per draft index: known ids stay, new tasks take
/// fresh ids in storage order.
pub open spec fn edit_ids(db: &Database, tasks: Seq<TaskDraft>, ord: Seq<int>) -> Seq<i64> {
    Seq::new(tasks.len(), |i: int| match tasks[i].id {
        Some(x) => x,
        None => (db.next_task_id + new_in_prefix(tasks, ord, position_in(ord, i))) as i64,
    })
}

/// Some task of plan `plan_id` (archived or not) has id `s`.
pub open spec fn task_of_plan(db: &Database, plan_id: i64, s: i64) -> bool {
    exists|k: int| 0 <= k < db.tasks@.len() && db.tasks@[k].id == s && db.tasks@[k].plan_id == plan_id
}

/// The edge does not end at a task of plan `plan_id`.
pub open spec fn edge_outside(db: &Database, plan_id: i64) -> spec_fn(DepEdge) -> bool {
    |e: DepEdge| !task_of_plan(db, plan_id, e.successor_id)
}

/// The edges left once the plan's own edges are dropped.
pub open spec fn base_edges(db: &Database, plan_id: i64) -> Seq<DepEdge> {
    db.deps@.filter(edge_outside(db, plan_id))
}

/// Index of the plan with id `id`.
pub open spec fn plan_index_of(db: &Database, id: i64) -> int {
    choose|i: int| has_plan_at(db, id, i)
}

/// Index of the task row with id `x`, if any.
fn task_row_index(db: &Database, x: i64) -> (r: Option<usize>)
    requires
        db.wf(),
    ensures
        match r {
            Some(k) => k < db.tasks@.len() && db.tasks@[k as int].id == x && k as int == task_index_of(db, x),
            None => forall|k: int| 0 <= k < db.tasks@.len() ==> db.tasks@[k].id != x,
        },
{
    match crate::store::find_task(db, x) {
        Some(k) => {
            proof {
                let k0 = task_index_of(db, x);
                assert(0 <= k0 < db.tasks@.len() && db.tasks@[k0].id == x);
                if k0 != k {
                    if k0 < k {
                        assert(db.tasks@[k0].id != db.tasks@[k as int].id);
                    } else {
                        assert(db.tasks@[k as int].id != db.tasks@[k0].id);
                    }
                }
            }
            Some(k)
        },
        None => None,
    }
}

/// Whether the draft's task ids are exactly the plan's live task ids (see `task_set_matches`).
fn task_set_ok(db: &Database, plan_id: i64, tasks: &Vec<TaskDraft>) -> (b: bool)
    requires
        db.wf(),
    ensures
        b == task_set_matches(db, plan_id, tasks@),
{
    let n = tasks.len();
    // No id twice.
    let mut i: usize = 0;
    while i < n
        invariant
            n == tasks@.len(),
            i <= n,
            forall|a: int, b: int| 0 <= a < i && a < b < n && tasks@[a].id is Some ==> tasks@[a].id != tasks@[b].id,
        decreases n - i,
    {
        if tasks[i].id.is_some() {
            let mut j: usize = i + 1;
            while j < n
                invariant
                    n == tasks@.len(),
                    i < n,
                    i < j <= n,
                    tasks@[i as int].id is Some,
                    forall|b: int| i < b < j ==> tasks@[i as int].id != tasks@[b].id,
                decreases n - j,
            {
                if tasks[j].id == tasks[i].id {
                    return false;
                }
                j = j + 1;
            }
        }
        i = i + 1;
    }
    // Each id a live task of the plan.
    let mut i: usize = 0;
    while i < n
        invariant
            n == tasks@.len(),
            db.wf(),
            i <= n,
            forall|a: int| 0 <= a < i && tasks@[a].id is Some ==>
                exists|k: int| live_in_plan(db, plan_id, k) && Some(db.tasks@[k].id) == tasks@[a].id,
        decreases n - i,
    {
        match tasks[i].id {
            Some(x) => {
                match task_row_index(db, x) {
                    Some(k) => {
                        if !(db.tasks[k].plan_id == plan_id && db.tasks[k].deleted_at.is_none()) {
                            proof {
                                assert forall|k2: int| live_in_plan(db, plan_id, k2) implies Some(db.tasks@[k2].id) != tasks@[i as int].id by {
                                    if db.tasks@[k2].id == x && k2 != k {
                                        if k2 < k {
                                            assert(db.tasks@[k2].id != db.tasks@[k as int].id);
                                        } else {
                                            assert(db.tasks@[k as int].id != db.tasks@[k2].id);
                                        }
                                    }
                                }
                            }
                            return false;
                        }
                        assert(live_in_plan(db, plan_id, k as int));
                    },
                    None => {
                        return false;
                    },
                }
            },
            None => {},
        }
        i = i + 1;
    }
    // Every live task of the plan named.
    let nt = db.tasks.len();
    let mut k: usize = 0;
    while k < nt
        invariant
            n == tasks@.len(),
            nt == db.tasks@.len(),
            k <= nt,
            forall|a: int, b: int| 0 <= a < b < n && tasks@[a].id is Some ==> tasks@[a].id != tasks@[b].id,
            forall|a: int| 0 <= a < n && tasks@[a].id is Some ==>
                exists|k2: int| live_in_plan(db, plan_id, k2) && Some(db.tasks@[k2].id) == tasks@[a].id,
            forall|k2: int| 0 <= k2 < k && live_in_plan(db, plan_id, k2) ==>
                exists|a: int| 0 <= a < n && tasks@[a].id == Some(db.tasks@[k2].id),
        decreases nt - k,
    {
        if db.tasks[k].plan_id == plan_id && db.tasks[k].deleted_at.is_none() {
            let x = db.tasks[k].id;
            let mut found = false;
            let mut a: usize = 0;
            while a < n
                invariant
                    n == tasks@.len(),
                    a <= n,
                    found ==> exists|a2: int| 0 <= a2 < n && tasks@[a2].id == Some(x),
                    !found ==> forall|a2: int| 0 <= a2 < a ==> tasks@[a2].id != Some(x),
                decreases n - a,
            {
                if tasks[a].id == Some(x) {
                    found = true;
                }
                a = a + 1;
            }
            if !found {
                proof {
                    assert(live_in_plan(db, plan_id, k as int));
                }
                return false;
            }
        }
        k = k + 1;
    }
    true
}

/// Whether row `row` holds the draft fields of task `t` (see `task_fields_from`).
fn fields_match(row: &TaskRow, t: &TaskDraft) -> (b: bool)
    requires
        estimates_fit(*t),
    ensures
        b == task_fields_from(*row, *t),
{
    let name = trimmed_string(t.name.as_str());
    let summary = default_text(t.summary.as_str(), t.name.as_str());
    let est = effective_minutes(t);
    let same_est = match (est, row.estimated_minutes) {
        (Some(a), Some(b)) => a == b,
        (None, None) => true,
        _ => false,
    };
    text_eq(name.as_str(), row.name.as_str()) && text_eq(summary.as_str(), row.summary.as_str())
        && text_eq(t.detail.as_str(), row.detail.as_str()) && t.has_subgoals == row.has_subgoals && same_est
}

/// Whether draft task `t` carries the id of a completed task (see `draft_done`).
fn draft_done_of(db: &Database, plan_id: i64, t: &TaskDraft) -> (b: bool)
    requires
        db.wf(),
        t.id matches Some(x) ==> exists|k: int| live_in_plan(db, plan_id, k) && db.tasks@[k].id == x,
    ensures
        b == draft_done(db, *t),
{
    match t.id {
        Some(x) => {
            match task_row_index(db, x) {
                Some(k) => db.tasks[k].status == TaskStatus::Completed,
                None => false,
            }
        },
        None => false,
    }
}

/// The first draft task that changes a completed task (see `first_locked`).
fn first_locked_of(db: &Database, plan_id: i64, tasks: &Vec<TaskDraft>) -> (r: Option<usize>)
    requires
        db.wf(),
        task_set_matches(db, plan_id, tasks@),
        forall|k: int| 0 <= k < tasks@.len() ==> estimates_fit(#[trigger] tasks@[k]),
    ensures
        match r {
            Some(i) => first_locked(db, tasks@, 0) == Some(i as int),
            None => first_locked(db, tasks@, 0) is None,
        },
{
    let n = tasks.len();
    let mut i: usize = 0;
    while i < n
        invariant
            n == tasks@.len(),
            db.wf(),
            task_set_matches(db, plan_id, tasks@),
            forall|k: int| 0 <= k < tasks@.len() ==> estimates_fit(#[trigger] tasks@[k]),
            i <= n,
            first_locked(db, tasks@, 0) == first_locked(db, tasks@, i as int),
        decreases n - i,
    {
        let t = &tasks[i];
        if draft_done_of(db, plan_id, t) {
            let x = t.id.unwrap();
            let k = task_row_index(db, x).unwrap();
            if !fields_match(&db.tasks[k], t) {
                return Some(i);
            }
        }
        i = i + 1;
    }
    None
}

/// Index of the draft task carrying id `x`.
fn draft_index_by_id(tasks: &Vec<TaskDraft>, x: i64) -> (a: usize)
    requires
        exists|a2: int| 0 <= a2 < tasks@.len() && tasks@[a2].id == Some(x),
    ensures
        a < tasks@.len(),
        tasks@[a as int].id == Some(x),
{
    let n = tasks.len();
    let mut a: usize = 0;
    while a < n
        invariant
            n == tasks@.len(),
            a <= n,
            exists|a2: int| a <= a2 < n && tasks@[a2].id == Some(x),
        decreases n - a,
    {
        if tasks[a].id == Some(x) {
            return a;
        }
        a = a + 1;
    }
    a
}

/// Storage order of the draft's tasks (see `storage_order`), with the order `cs`
/// of the completed rows.
#[verifier::rlimit(40)]
fn storage_order_of(db: &Database, plan_id: i64, tasks: &Vec<TaskDraft>) -> (res: (Vec<usize>, Vec<usize>))
    requires
        db.wf(),
        task_set_matches(db, plan_id, tasks@),
    ensures
        selection_sorted(res.1@, task_keys(db), done_task_flags(db, plan_id)),
        res.0@.len() == storage_order(db, tasks@, res.1@).len(),
        forall|p: int| 0 <= p < res.0@.len() ==> #[trigger] res.0@[p] as int == storage_order(db, tasks@, res.1@)[p],
        forall|p: int| 0 <= p < res.0@.len() ==> (#[trigger] res.0@[p]) < tasks@.len(),
        forall|a: int, b: int| 0 <= a < b < res.0@.len() ==> res.0@[a] != res.0@[b],
{
    let n = tasks.len();
    let mut ord: Vec<usize> = Vec::new();
    let mut i: usize = 0;
    while i < n
        invariant
            n == tasks@.len(),
            db.wf(),
            task_set_matches(db, plan_id, tasks@),
            i <= n,
            ord@.len() == undone_tasks(db, tasks@, i as int).len(),
            forall|p: int| 0 <= p < ord@.len() ==> #[trigger] ord@[p] as int == undone_tasks(db, tasks@, i as int)[p],
            forall|p: int| 0 <= p < ord@.len() ==> (#[trigger] ord@[p]) < i && !draft_done(db, tasks@[ord@[p] as int]),
            forall|a: int, b: int| 0 <= a < b < ord@.len() ==> ord@[a] < ord@[b],
        decreases n - i,
    {
        if !draft_done_of(db, plan_id, &tasks[i]) {
            ord.push(i);
        }
        i = i + 1;
    }
    let m = ord.len();
    let nt = db.tasks.len();
    let mut keys: Vec<Key3> = Vec::new();
    let mut flags: Vec<bool> = Vec::new();
    let mut k: usize = 0;
    while k < nt
        invariant
            nt == db.tasks@.len(),
            k <= nt,
            keys@.len() == k,
            flags@.len() == k,
            forall|q: int| 0 <= q < k ==> #[trigger] keys@[q] == task_key(db.tasks@[q]),
            forall|q: int| 0 <= q < k ==> #[trigger] flags@[q] == (live_in_plan(db, plan_id, q) && db.tasks@[q].status == TaskStatus::Completed),
        decreases nt - k,
    {
        keys.push((db.tasks[k].position as i64, db.tasks[k].id, 0));
        flags.push(db.tasks[k].plan_id == plan_id && db.tasks[k].deleted_at.is_none() && db.tasks[k].status == TaskStatus::Completed);
        k = k + 1;
    }
    assert(keys@ =~= task_keys(db));
    assert(flags@ =~= done_task_flags(db, plan_id));
    let cs = ordered_selection(&keys, &flags);
    let c = cs.len();
    let ghost so = storage_order(db, tasks@, cs@);
    let ghost und = undone_tasks(db, tasks@, n as int);
    let mut q: usize = 0;
    while q < c
        invariant
            n == tasks@.len(),
            nt == db.tasks@.len(),
            db.wf(),
            task_set_matches(db, plan_id, tasks@),
            c == cs@.len(),
            selection_sorted(cs@, task_keys(db), done_task_flags(db, plan_id)),
            so == storage_order(db, tasks@, cs@),
            und == undone_tasks(db, tasks@, n as int),
            m == und.len(),
            q <= c,
            ord@.len() == m + q,
            forall|p: int| 0 <= p < ord@.len() ==> #[trigger] ord@[p] as int == so[p],
            forall|p: int| 0 <= p < ord@.len() ==> (#[trigger] ord@[p]) < n,
            forall|p: int| 0 <= p < m ==> !draft_done(db, tasks@[#[trigger] ord@[p] as int]),
            forall|p: int| m <= p < ord@.len() ==> draft_done(db, tasks@[#[trigger] ord@[p] as int])
                && tasks@[ord@[p] as int].id == Some(db.tasks@[cs@[p - m] as int].id),
            forall|a: int, b: int| 0 <= a < b < ord@.len() ==> ord@[a] != ord@[b],
        decreases c - q,
    {
        let row_k = cs[q];
        let x = db.tasks[row_k].id;
        proof {
            assert(done_task_flags(db, plan_id)[row_k as int]);
            assert(live_in_plan(db, plan_id, row_k as int));
        }
        let a = draft_index_by_id(tasks, x);
        proof {
            let a0 = draft_index_of(tasks@, x);
            assert(0 <= a0 < n && tasks@[a0].id == Some(x));
            if a0 != a {
                if a0 < a {
                    assert(tasks@[a0].id != tasks@[a as int].id);
                } else {
                    assert(tasks@[a as int].id != tasks@[a0].id);
                }
            }
            let ki = task_index_of(db, x);
            if ki != row_k {
                if ki < row_k {
                    assert(db.tasks@[ki].id != db.tasks@[row_k as int].id);
                } else {
                    assert(db.tasks@[row_k as int].id != db.tasks@[ki].id);
                }
            }
            assert(draft_done(db, tasks@[a as int]));
            assert forall|p: int| 0 <= p < ord@.len() implies ord@[p] != a by {
                if p >= m {
                    let r1 = cs@[p - m] as int;
                    assert(r1 != row_k);
                    assert(db.tasks@[r1].id != db.tasks@[row_k as int].id) by {
                        if r1 < row_k {
                        } else {
                        }
                    }
                }
            }
        }
        ord.push(a);
        q = q + 1;
    }
    (ord, cs)
}

/// The rows of task `tid`, copied (see `of_task`).
fn rows_of_task(db: &Database, tid: i64) -> (out: Vec<SubGoalRow>)
    requires
        db.wf(),
    ensures
        out@ == of_task(db.subgoals@, tid),
{
    proof {
        lemma_picks_is(tid);
    }
    rows_picked(&db.subgoals, tid, true)
}

/// The first sub-goal refusal in storage order (see `first_sub_error`).
fn first_sub_error_of(db: &Database, tasks: &Vec<TaskDraft>, ord: &Vec<usize>, Ghost(ordi): Ghost<Seq<int>>) -> (r: Option<PlanError>)
    requires
        db.wf(),
        ord@.len() == ordi.len(),
        forall|p: int| 0 <= p < ord@.len() ==> #[trigger] ord@[p] as int == ordi[p],
        forall|p: int| 0 <= p < ord@.len() ==> (#[trigger] ord@[p]) < tasks@.len(),
    ensures
        r == first_sub_error(db, tasks@, ordi, 0),
{
    let m = ord.len();
    let mut p: usize = 0;
    while p < m
        invariant
            db.wf(),
            m == ord@.len() == ordi.len(),
            forall|q: int| 0 <= q < ord@.len() ==> #[trigger] ord@[q] as int == ordi[q],
            forall|q: int| 0 <= q < ord@.len() ==> (#[trigger] ord@[q]) < tasks@.len(),
            p <= m,
            first_sub_error(db, tasks@, ordi, 0) == first_sub_error(db, tasks@, ordi, p as int),
        decreases m - p,
    {
        let di = ord[p];
        let t = &tasks[di];
        match t.id {
            Some(x) => {
                let mine = rows_of_task(db, x);
                let e = sub_error_of(&mine, x, t, di);
                if e.is_some() {
                    return e;
                }
            },
            None => {},
        }
        p = p + 1;
    }
    None
}

proof fn lemma_fresh_before_push(subs: Seq<SubGoalDraft>, idx: Seq<int>, e: int, m: int)
    requires
        0 <= m <= idx.len(),
    ensures
        fresh_before(subs, idx.push(e), m) == fresh_before(subs, idx, m),
    decreases m,
{
    if m > 0 {
        lemma_fresh_before_push(subs, idx, e, m - 1);
        assert(idx.push(e)[m - 1] == idx[m - 1]);
    }
}

/// Fresh ids the revision of task `tid` by `t` takes (see `fresh_count`).
fn fresh_count_of(mine: &Vec<SubGoalRow>, tid: i64, t: &TaskDraft) -> (c: u64)
    ensures
        c == fresh_count(mine@, tid, *t),
{
    if !t.has_subgoals {
        return 0;
    }
    let subs = &t.subgoals;
    let n = subs.len();
    let mut count: u64 = 0;
    let mut j: usize = 0;
    while j < n
        invariant
            n == subs@.len(),
            subs == t.subgoals,
            j <= n,
            count == fresh_before(subs@, undone_idx(mine@, tid, subs@, j as int), undone_idx(mine@, tid, subs@, j as int).len() as int),
            count <= j,
        decreases n - j,
    {
        let u = Ghost(undone_idx(mine@, tid, subs@, j as int));
        let done = match subs[j].id {
            Some(x) => done_row_in(mine, tid, x),
            None => false,
        };
        if !done {
            proof {
                lemma_fresh_before_push(subs@, u@, j as int, u@.len() as int);
            }
            if subs[j].id.is_none() {
                count = count + 1;
            }
        }
        j = j + 1;
    }
    count
}

/// Whether task `s` belongs to plan `plan_id` (see `task_of_plan`).
fn task_of_plan_in(db: &Database, plan_id: i64, s: i64) -> (b: bool)
    ensures
        b == task_of_plan(db, plan_id, s),
{
    let n = db.tasks.len();
    let mut k: usize = 0;
    while k < n
        invariant
            n == db.tasks@.len(),
            k <= n,
            forall|q: int| 0 <= q < k ==> !(db.tasks@[q].id == s && db.tasks@[q].plan_id == plan_id),
        decreases n - k,
    {
        if db.tasks[k].id == s && db.tasks[k].plan_id == plan_id {
            return true;
        }
        k = k + 1;
    }
    false
}

/// The edges left once plan `plan_id`'s own edges are dropped (see `base_edges`).
fn base_edges_of(db: &Database, plan_id: i64) -> (r: Vec<DepEdge>)
    ensures
        r@ == base_edges(db, plan_id),
{
    let n = db.deps.len();
    let mut out: Vec<DepEdge> = Vec::new();
    let mut k: usize = 0;
    while k < n
        invariant
            n == db.deps@.len(),
            k <= n,
            out@ == db.deps@.subrange(0, k as int).filter(edge_outside(db, plan_id)),
        decreases n - k,
    {
        let e = db.deps[k];
        if !task_of_plan_in(db, plan_id, e.successor_id) {
            out.push(e);
        }
        proof {
            reveal_with_fuel(Seq::filter, 1);
            assert(db.deps@.subrange(0, k + 1).drop_last() =~= db.deps@.subrange(0, k as int));
        }
        k = k + 1;
    }
    assert(db.deps@.subrange(0, n as int) =~= db.deps@);
    out
}

/// Row `b` is task row `a` with the draft fields of `t` at position `pos`.
pub open spec fn existing_task_edited(a: TaskRow, b: TaskRow, t: TaskDraft, pos: i32) -> bool {
    &&& task_fields_from(b, t)
    &&& b.position == pos
    &&& b.id == a.id
    &&& b.plan_id == a.plan_id
    &&& b.status == a.status
    &&& b.deleted_at == a.deleted_at
    &&& b.created_at == a.created_at
}

/// Plan row `b` is plan row `a` with the draft fields of `d`.
pub open spec fn plan_edited(a: PlanRow, b: PlanRow, d: PlanDraft) -> bool {
    &&& b.name@ == trimmed(d.name@)
    &&& b.summary@ == default_text_of(d.summary@, d.name@)
    &&& b.detail@ == d.detail@
    &&& b.priority == d.priority
    &&& same_opt_text(b.due_date, d.due_date)
    &&& b.id == a.id
    &&& b.status == a.status
    &&& b.created_at == a.created_at
    &&& b.pause_reason == a.pause_reason
}

/// The task at storage position `p` is stored in `new`: a known task's row
/// takes the draft fields and position `p`; a new task is appended with the
/// next fresh id.
pub open spec fn task_stored_at(old: &Database, new: &Database, plan_id: i64, tasks: Seq<TaskDraft>, ord: Seq<int>,
    p: int, now: LocalTime) -> bool {
    let t = tasks[ord[p]];
    match t.id {
        Some(x) => {
            let k = task_index_of(old, x);
            existing_task_edited(old.tasks@[k], new.tasks@[k], t, p as i32)
        },
        None => new_task_row(new.tasks@[old.tasks@.len() + new_in_prefix(tasks, ord, p)], t,
            (old.next_task_id + new_in_prefix(tasks, ord, p)) as i64, plan_id, (p as i32) as int, now),
    }
}

/// The sub-goals of the task at storage position `p` are stored in `new`: a
/// known task's rows are revised by its draft, a new task's rows are fresh;
/// fresh ids continue in storage order.
pub open spec fn subgoals_stored_at(old: &Database, new: &Database, tasks: Seq<TaskDraft>, ord: Seq<int>,
    p: int, now: LocalTime) -> bool {
    let t = tasks[ord[p]];
    let first = old.next_subgoal_id + subs_before(old, tasks, ord, p);
    match t.id {
        Some(x) => revision_of(of_task(old.subgoals@, x), x, t, first as i64, now,
            of_task(new.subgoals@, x).map_values(|r: SubGoalRow| sg_abs(r))),
        None => {
            let y = (old.next_task_id + new_in_prefix(tasks, ord, p)) as i64;
            of_task(new.subgoals@, y).map_values(|r: SubGoalRow| sg_abs(r)) == fresh_task_rows(t, y, first, now)
        },
    }
}

/// Task id `y` is one of the draft's tasks after the edit.
pub open spec fn edited_id(old: &Database, tasks: Seq<TaskDraft>, ord: Seq<int>, y: i64) -> bool {
    exists|p: int| 0 <= p < ord.len() && edit_ids(old, tasks, ord)[ord[p]] == y
}

/// The store after the edit of plan `plan_id` by draft `d` at `now`, tasks in
/// storage order `ord`, with dependency edges `edges`.
pub open spec fn edited(old: &Database, new: &Database, plan_id: i64, d: PlanDraft, now: LocalTime, ord: Seq<int>,
    edges: Seq<DepEdge>) -> bool {
    let pi = plan_index_of(old, plan_id);
    let m = ord.len() as int;
    let ot = old.tasks@.len() as int;
    &&& new.plans@.len() == old.plans@.len()
    &&& forall|j: int| 0 <= j < old.plans@.len() && j != pi ==> new.plans@[j] == old.plans@[j]
    &&& plan_edited(old.plans@[pi], new.plans@[pi], d)
    &&& new.tasks@.len() == ot + new_in_prefix(d.tasks@, ord, m)
    &&& forall|k: int| 0 <= k < ot && !live_in_plan(old, plan_id, k) ==> new.tasks@[k] == old.tasks@[k]
    &&& forall|p: int| 0 <= p < m ==> #[trigger] task_stored_at(old, new, plan_id, d.tasks@, ord, p, now)
    &&& forall|p: int| 0 <= p < m ==> #[trigger] subgoals_stored_at(old, new, d.tasks@, ord, p, now)
    &&& forall|y: i64| !edited_id(old, d.tasks@, ord, y) ==> #[trigger] of_task(new.subgoals@, y) == of_task(old.subgoals@, y)
    &&& new.deps@ == edges
    &&& new.next_plan_id == old.next_plan_id
    &&& new.next_task_id == old.next_task_id + new_in_prefix(d.tasks@, ord, m)
    &&& new.next_subgoal_id == old.next_subgoal_id + subs_before(old, d.tasks@, ord, m)
    &&& rest_unchanged(old, new)
}

/// Outcome of the edit given the order `cs` of the completed task rows: the
/// sub-goal locks (first in storage order), the identifier space, cycles among
/// the draft's dependencies; otherwise the edit is stored.
pub open spec fn edit_with_order(old: &Database, new: &Database, plan_id: i64, d: PlanDraft, now: LocalTime,
    cs: Seq<usize>, r: Result<(), PlanError>) -> bool {
    let ord = storage_order(old, d.tasks@, cs);
    &&& selection_sorted(cs, task_keys(old), done_task_flags(old, plan_id))
    &&& match first_sub_error(old, d.tasks@, ord, 0) {
        Some(e) => r == Err::<(), PlanError>(e) && *new == *old,
        None => if update_exhausts(old, d.tasks@, ord) {
            r matches Err(PlanError::Storage(_)) && *new == *old
        } else {
            match link_pairs(base_edges(old, plan_id), draft_pairs(d.tasks@, edit_ids(old, d.tasks@, ord), d.tasks@.len() as int)) {
                Err(i) => r == Err::<(), PlanError>(PlanError::DependencyCycle { task_index: Some(i as usize) }) && *new == *old,
                Ok(e) => r is Ok && edited(old, new, plan_id, d, now, ord, e),
            }
        },
    }
}

/// Outcome of editing plan `plan_id` with draft `d` at `now`: the draft rules,
/// the dependency indexes, the plan's existence, the priority lock once started,
/// the task set, the completed-task lock, then `edit_with_order`.
pub open spec fn update_outcome(old: &Database, new: &Database, plan_id: i64, d: PlanDraft, now: LocalTime,
    r: Result<(), PlanError>) -> bool {
    match validate_spec(d) {
        Err(e) => r == Err::<(), PlanError>(e) && *new == *old,
        Ok(_) => match first_bad_dep(d.tasks@, 0) {
            Some(i) => r == Err::<(), PlanError>(PlanError::DependencyInvalid { task_index: i as usize }) && *new == *old,
            None => if no_plan(old, plan_id) {
                r == Err::<(), PlanError>(PlanError::NotFound) && *new == *old
            } else if old.plans@[plan_index_of(old, plan_id)].status != PlanStatus::NotStarted
                && d.priority != old.plans@[plan_index_of(old, plan_id)].priority {
                r == Err::<(), PlanError>(PlanError::PriorityLocked) && *new == *old
            } else if !task_set_matches(old, plan_id, d.tasks@) {
                r == Err::<(), PlanError>(PlanError::TaskSetMismatch) && *new == *old
            } else {
                match first_locked(old, d.tasks@, 0) {
                    Some(i) => r == Err::<(), PlanError>(PlanError::TaskLocked { index: i as usize }) && *new == *old,
                    None => exists|cs: Seq<usize>| #[trigger] edit_with_order(old, new, plan_id, d, now, cs, r),
                }
            },
        },
    }
}

/// The sub-goal check refuses only with a sub-goal error.
proof fn lemma_first_sub_error_kind(db: &Database, tasks: Seq<TaskDraft>, ord: Seq<int>, p: int)
    ensures
        first_sub_error(db, tasks, ord, p) matches Some(e)
            ==> (e is SubGoalLocked || e is SubGoalInvalid),
    decreases ord.len() - p,
{
    if 0 <= p < ord.len() {
        lemma_first_sub_error_kind(db, tasks, ord, p + 1);
    }
}

/// What the checks after the task-set and completed-task locks can answer:
/// success or an error that is neither `PriorityLocked`, `TaskSetMismatch` nor
/// `TaskLocked`.
proof fn lemma_edit_refusals(old: &Database, new: &Database, plan_id: i64, d: PlanDraft, now: LocalTime,
    r: Result<(), PlanError>)
    requires
        exists|cs: Seq<usize>| #[trigger] edit_with_order(old, new, plan_id, d, now, cs, r),
    ensures
        r matches Err(e) ==> !(e is PriorityLocked) && !(e is TaskSetMismatch) && !(e is TaskLocked),
{
    let cs = choose|cs: Seq<usize>| #[trigger] edit_with_order(old, new, plan_id, d, now, cs, r);
    lemma_first_sub_error_kind(old, d.tasks@, storage_order(old, d.tasks@, cs), 0);
}

/// The priority is locked once a plan has started: for an existing plan and a
/// draft that passes the draft rules and the dependency indexes, the update is
/// refused with `PriorityLocked`, the store left as it was, exactly when the
/// plan has left `NotStarted` and the draft changes its priority.
pub proof fn lemma_priority_locked_once_started(old: &Database, new: &Database, plan_id: i64, d: PlanDraft,
    now: LocalTime, r: Result<(), PlanError>)
    requires
        update_outcome(old, new, plan_id, d, now, r),
        validate_spec(d) is Ok,
        first_bad_dep(d.tasks@, 0) is None,
        !no_plan(old, plan_id),
    ensures
        (r == Err::<(), PlanError>(PlanError::PriorityLocked)) <==> (
            old.plans@[plan_index_of(old, plan_id)].status != PlanStatus::NotStarted
            && d.priority != old.plans@[plan_index_of(old, plan_id)].priority),
        r == Err::<(), PlanError>(PlanError::PriorityLocked) ==> *new == *old,
{
    if task_set_matches(old, plan_id, d.tasks@) && first_locked(old, d.tasks@, 0) is None {
        if !(old.plans@[plan_index_of(old, plan_id)].status != PlanStatus::NotStarted
            && d.priority != old.plans@[plan_index_of(old, plan_id)].priority) {
            lemma_edit_refusals(old, new, plan_id, d, now, r);
        }
    }
}

/// The task set is fixed by an update: past the draft rules, the dependency
/// indexes, the plan's existence and the priority lock, the update is refused
/// with `TaskSetMismatch`, the store left as it was, exactly when the draft's
/// task ids are not the plan's live tasks, each once.
pub proof fn lemma_task_set_must_match(old: &Database, new: &Database, plan_id: i64, d: PlanDraft,
    now: LocalTime, r: Result<(), PlanError>)
    requires
        update_outcome(old, new, plan_id, d, now, r),
        validate_spec(d) is Ok,
        first_bad_dep(d.tasks@, 0) is None,
        !no_plan(old, plan_id),
        !(old.plans@[plan_index_of(old, plan_id)].status != PlanStatus::NotStarted
            && d.priority != old.plans@[plan_index_of(old, plan_id)].priority),
    ensures
        (r == Err::<(), PlanError>(PlanError::TaskSetMismatch)) <==> !task_set_matches(old, plan_id, d.tasks@),
        r == Err::<(), PlanError>(PlanError::TaskSetMismatch) ==> *new == *old,
{
    if task_set_matches(old, plan_id, d.tasks@) && first_locked(old, d.tasks@, 0) is None {
        lemma_edit_refusals(old, new, plan_id, d, now, r);
    }
}

/// A completed task is locked: past every earlier check, the update is refused
/// with `TaskLocked` exactly when some draft entry edits a completed task, and
/// then the index is the first such entry and the store is left as it was.
pub proof fn lemma_completed_task_locked(old: &Database, new: &Database, plan_id: i64, d: PlanDraft,
    now: LocalTime, r: Result<(), PlanError>)
    requires
        update_outcome(old, new, plan_id, d, now, r),
        validate_spec(d) is Ok,
        first_bad_dep(d.tasks@, 0) is None,
        !no_plan(old, plan_id),
        !(old.plans@[plan_index_of(old, plan_id)].status != PlanStatus::NotStarted
            && d.priority != old.plans@[plan_index_of(old, plan_id)].priority),
        task_set_matches(old, plan_id, d.tasks@),
    ensures
        (r matches Err(PlanError::TaskLocked { .. })) <==> first_locked(old, d.tasks@, 0) is Some,
        first_locked(old, d.tasks@, 0) matches Some(i)
            ==> r == Err::<(), PlanError>(PlanError::TaskLocked { index: i as usize }) && *new == *old,
{
    if first_locked(old, d.tasks@, 0) is None {
        lemma_edit_refusals(old, new, plan_id, d, now, r);
    }
}

proof fn lemma_new_in_prefix_mono(tasks: Seq<TaskDraft>, ord: Seq<int>, a: int, b: int)
    requires
        0 <= a <= b <= ord.len(),
    ensures
        0 <= new_in_prefix(tasks, ord, a) <= new_in_prefix(tasks, ord, b),
    decreases b,
{
    if b > 0 {
        if a == b {
            lemma_new_in_prefix_mono(tasks, ord, a - 1, b - 1);
        } else {
            lemma_new_in_prefix_mono(tasks, ord, a, b - 1);
        }
    }
}

proof fn lemma_task_fresh_subs_nonneg(db: &Database, t: TaskDraft)
    ensures
        task_fresh_subs(db, t) >= 0,
{
    match t.id {
        Some(x) => {
            if t.has_subgoals {
                let ui = undone_idx(of_task(db.subgoals@, x), x, t.subgoals@, t.subgoals@.len() as int);
                lemma_fresh_before_bounds(t.subgoals@, ui, 0, ui.len() as int);
            }
        },
        None => {},
    }
}

proof fn lemma_subs_before_mono(db: &Database, tasks: Seq<TaskDraft>, ord: Seq<int>, a: int, b: int)
    requires
        0 <= a <= b <= ord.len(),
    ensures
        0 <= subs_before(db, tasks, ord, a) <= subs_before(db, tasks, ord, b),
    decreases b,
{
    if b > 0 {
        lemma_task_fresh_subs_nonneg(db, tasks[ord[b - 1]]);
        if a == b {
            lemma_subs_before_mono(db, tasks, ord, a - 1, b - 1);
        } else {
            lemma_subs_before_mono(db, tasks, ord, a, b - 1);
        }
    }
}

proof fn lemma_undone_tasks_lists(db: &Database, tasks: Seq<TaskDraft>, m: int, i: int)
    requires
        0 <= i < m <= tasks.len(),
        !draft_done(db, tasks[i]),
    ensures
        exists|q: int| 0 <= q < undone_tasks(db, tasks, m).len() && undone_tasks(db, tasks, m)[q] == i,
    decreases m,
{
    let u = undone_tasks(db, tasks, m - 1);
    if i == m - 1 {
        assert(undone_tasks(db, tasks, m)[u.len() as int] == i);
    } else {
        lemma_undone_tasks_lists(db, tasks, m - 1, i);
        let q = choose|q: int| 0 <= q < u.len() && u[q] == i;
        assert(undone_tasks(db, tasks, m)[q] == i);
    }
}

proof fn lemma_first_sub_error_none(db: &Database, tasks: Seq<TaskDraft>, ord: Seq<int>, p: int, q: int)
    requires
        0 <= p <= q < ord.len(),
        first_sub_error(db, tasks, ord, p) is None,
    ensures
        tasks[ord[q]].id matches Some(x) ==> sub_error(of_task(db.subgoals@, x), x, tasks[ord[q]], ord[q]) is None,
    decreases q - p,
{
    if p < q {
        lemma_first_sub_error_none(db, tasks, ord, p + 1, q);
    }
}

/// Whether the edit needs identifiers past `i64::MAX` (see `update_exhausts`).
fn update_exhausts_of(db: &Database, tasks: &Vec<TaskDraft>, ord: &Vec<usize>, Ghost(ordi): Ghost<Seq<int>>) -> (b: bool)
    requires
        db.wf(),
        ord@.len() == ordi.len(),
        forall|p: int| 0 <= p < ord@.len() ==> #[trigger] ord@[p] as int == ordi[p],
        forall|p: int| 0 <= p < ord@.len() ==> (#[trigger] ord@[p]) < tasks@.len(),
    ensures
        b == update_exhausts(db, tasks@, ordi),
{
    let m = ord.len();
    let mut room_t: u64 = (i64::MAX - db.next_task_id) as u64;
    let mut room_s: u64 = (i64::MAX - db.next_subgoal_id) as u64;
    let mut p: usize = 0;
    while p < m
        invariant
            db.wf(),
            m == ord@.len() == ordi.len(),
            forall|q: int| 0 <= q < ord@.len() ==> #[trigger] ord@[q] as int == ordi[q],
            forall|q: int| 0 <= q < ord@.len() ==> (#[trigger] ord@[q]) < tasks@.len(),
            p <= m,
            room_t == i64::MAX - db.next_task_id - new_in_prefix(tasks@, ordi, p as int),
            room_s == i64::MAX - db.next_subgoal_id - subs_before(db, tasks@, ordi, p as int),
        decreases m - p,
    {
        let t = &tasks[ord[p]];
        proof {
            lemma_new_in_prefix_mono(tasks@, ordi, p + 1, m as int);
            lemma_subs_before_mono(db, tasks@, ordi, p + 1, m as int);
        }
        let c: u64 = match t.id {
            Some(x) => {
                let mine = rows_of_task(db, x);
                fresh_count_of(&mine, x, t)
            },
            None => {
                if room_t == 0 {
                    return true;
                }
                room_t = room_t - 1;
                if t.has_subgoals { t.subgoals.len() as u64 } else { 0 }
            },
        };
        if c > room_s {
            return true;
        }
        room_s = room_s - c;
        p = p + 1;
    }
    false
}

/// Task ids per draft index after the edit (see `edit_ids`).
fn edit_ids_of(db: &Database, tasks: &Vec<TaskDraft>, ord: &Vec<usize>, Ghost(ordi): Ghost<Seq<int>>) -> (ids: Vec<i64>)
    requires
        db.wf(),
        ord@.len() == ordi.len(),
        forall|p: int| 0 <= p < ord@.len() ==> #[trigger] ord@[p] as int == ordi[p],
        forall|p: int| 0 <= p < ord@.len() ==> (#[trigger] ord@[p]) < tasks@.len(),
        forall|a: int, b: int| 0 <= a < b < ord@.len() ==> ord@[a] != ord@[b],
        forall|i: int| 0 <= i < tasks@.len() && tasks@[i].id is None ==> exists|q: int| 0 <= q < ordi.len() && ordi[q] == i,
        !update_exhausts(db, tasks@, ordi),
    ensures
        ids@ == edit_ids(db, tasks@, ordi),
{
    let n = tasks.len();
    let mut ids: Vec<i64> = Vec::new();
    let mut i: usize = 0;
    while i < n
        invariant
            n == tasks@.len(),
            i <= n,
            ids@.len() == i,
            forall|a: int| 0 <= a < i ==> (tasks@[a].id matches Some(x) ==> #[trigger] ids@[a] == x),
        decreases n - i,
    {
        ids.push(match tasks[i].id { Some(x) => x, None => 0 });
        i = i + 1;
    }
    let m = ord.len();
    let mut newc: i64 = 0;
    let mut p: usize = 0;
    while p < m
        invariant
            db.wf(),
            n == tasks@.len(),
            ids@.len() == n,
            m == ord@.len() == ordi.len(),
            forall|q: int| 0 <= q < ord@.len() ==> #[trigger] ord@[q] as int == ordi[q],
            forall|q: int| 0 <= q < ord@.len() ==> (#[trigger] ord@[q]) < tasks@.len(),
            forall|a: int, b: int| 0 <= a < b < ord@.len() ==> ord@[a] != ord@[b],
            !update_exhausts(db, tasks@, ordi),
            p <= m,
            newc == new_in_prefix(tasks@, ordi, p as int),
            forall|a: int| 0 <= a < n ==> (tasks@[a].id matches Some(x) ==> #[trigger] ids@[a] == x),
            forall|q: int| 0 <= q < p && tasks@[ordi[q]].id is None ==>
                ids@[ordi[q]] == db.next_task_id + new_in_prefix(tasks@, ordi, q),
        decreases m - p,
    {
        let di = ord[p];
        proof {
            lemma_new_in_prefix_mono(tasks@, ordi, p + 1, m as int);
        }
        if tasks[di].id.is_none() {
            let ghost before = ids@;
            ids.set(di, db.next_task_id + newc);
            newc = newc + 1;
            proof {
                assert forall|q: int| 0 <= q < p + 1 && tasks@[ordi[q]].id is None implies
                    ids@[ordi[q]] == db.next_task_id + new_in_prefix(tasks@, ordi, q) by {
                    if q < p {
                        assert(ord@[q] != ord@[p as int]);
                    }
                }
            }
        }
        p = p + 1;
    }
    proof {
        assert forall|i: int| 0 <= i < n implies #[trigger] ids@[i] == edit_ids(db, tasks@, ordi)[i] by {
            if tasks@[i].id is None {
                let q = choose|q: int| 0 <= q < ordi.len() && ordi[q] == i;
                let q0 = position_in(ordi, i);
                if q0 != q {
                    if q0 < q {
                        assert(ord@[q0] != ord@[q]);
                    } else {
                        assert(ord@[q] != ord@[q0]);
                    }
                }
            }
        }
        assert(ids@ =~= edit_ids(db, tasks@, ordi));
    }
    ids
}

/// Gives plan row `i` the draft fields of `d`.
fn set_plan_fields(plans: &mut Vec<PlanRow>, i: usize, d: &PlanDraft)
    requires
        i < old(plans)@.len(),
    ensures
        final(plans)@.len() == old(plans)@.len(),
        forall|j: int| 0 <= j < old(plans)@.len() && j != i ==> final(plans)@[j] == old(plans)@[j],
        plan_edited(old(plans)@[i as int], final(plans)@[i as int], *d),
{
    let mut row = plans.remove(i);
    row.name = trimmed_string(d.name.as_str());
    row.summary = default_text(d.summary.as_str(), d.name.as_str());
    row.detail = d.detail.clone();
    row.priority = d.priority;
    row.due_date = d.due_date.clone();
    plans.insert(i, row);
}

/// Gives task row `k` the draft fields of `t` and position `pos`.
fn set_task_fields(tasks: &mut Vec<TaskRow>, k: usize, t: &TaskDraft, pos: i32)
    requires
        k < old(tasks)@.len(),
        estimates_fit(*t),
    ensures
        final(tasks)@.len() == old(tasks)@.len(),
        forall|j: int| 0 <= j < old(tasks)@.len() && j != k ==> final(tasks)@[j] == old(tasks)@[j],
        existing_task_edited(old(tasks)@[k as int], final(tasks)@[k as int], *t, pos),
{
    let mut row = tasks.remove(k);
    row.name = trimmed_string(t.name.as_str());
    row.summary = default_text(t.summary.as_str(), t.name.as_str());
    row.detail = t.detail.clone();
    row.has_subgoals = t.has_subgoals;
    row.estimated_minutes = effective_minutes(t);
    row.position = pos;
    tasks.insert(k, row);
}

/// The first `p` tasks in storage order are stored in `cur` (see `edited`).
pub open spec fn applied_upto(old: &Database, cur: &Database, plan_id: i64, tasks: Seq<TaskDraft>, ord: Seq<int>,
    p: int, now: LocalTime) -> bool {
    &&& cur.tasks@.len() == old.tasks@.len() + new_in_prefix(tasks, ord, p)
    &&& forall|k: int| 0 <= k < old.tasks@.len() && (forall|q: int| 0 <= q < p ==> tasks[ord[q]].id != Some(old.tasks@[k].id))
            ==> #[trigger] cur.tasks@[k] == old.tasks@[k]
    &&& forall|q: int| 0 <= q < p ==> #[trigger] task_stored_at(old, cur, plan_id, tasks, ord, q, now)
    &&& forall|q: int| 0 <= q < p ==> #[trigger] subgoals_stored_at(old, cur, tasks, ord, q, now)
    &&& forall|y: i64| (forall|q: int| 0 <= q < p ==> edit_ids(old, tasks, ord)[ord[q]] != y)
            ==> #[trigger] of_task(cur.subgoals@, y) == of_task(old.subgoals@, y)
    &&& cur.next_task_id == old.next_task_id + new_in_prefix(tasks, ord, p)
    &&& cur.next_subgoal_id == old.next_subgoal_id + subs_before(old, tasks, ord, p)
    &&& cur.deps@ == old.deps@
    &&& cur.next_plan_id == old.next_plan_id
    &&& rest_unchanged(old, cur)
}

/// Facts about the storage order and draft that every step of the edit relies on.
pub open spec fn edit_ready(old: &Database, plan_id: i64, d: PlanDraft, ord: Seq<usize>, ordi: Seq<int>) -> bool {
    &&& old.wf()
    &&& draft_sizes_fit(d)
    &&& task_set_matches(old, plan_id, d.tasks@)
    &&& ord.len() == ordi.len()
    &&& forall|p: int| 0 <= p < ord.len() ==> #[trigger] ord[p] as int == ordi[p]
    &&& forall|p: int| 0 <= p < ord.len() ==> (#[trigger] ord[p]) < d.tasks@.len()
    &&& forall|a: int, b: int| 0 <= a < b < ord.len() ==> ord[a] != ord[b]
    &&& first_sub_error(old, d.tasks@, ordi, 0) is None
    &&& !update_exhausts(old, d.tasks@, ordi)
}

/// A storage position holds a draft index no other position holds.
proof fn lemma_position_unique(ord: Seq<usize>, ordi: Seq<int>, q: int)
    requires
        ord.len() == ordi.len(),
        forall|p: int| 0 <= p < ord.len() ==> #[trigger] ord[p] as int == ordi[p],
        forall|a: int, b: int| 0 <= a < b < ord.len() ==> ord[a] != ord[b],
        0 <= q < ordi.len(),
    ensures
        position_in(ordi, ordi[q]) == q,
{
    let p = position_in(ordi, ordi[q]);
    assert(0 <= p < ordi.len() && ordi[p] == ordi[q]);
    if p != q {
        if p < q {
            assert(ord[p] != ord[q]);
        } else {
            assert(ord[q] != ord[p]);
        }
    }
}

/// The task ids after the edit differ between storage positions.
proof fn lemma_edit_ids_distinct(old: &Database, plan_id: i64, d: PlanDraft, ord: Seq<usize>, ordi: Seq<int>, q1: int, q2: int)
    requires
        edit_ready(old, plan_id, d, ord, ordi),
        0 <= q1 < q2 < ordi.len(),
    ensures
        edit_ids(old, d.tasks@, ordi)[ordi[q1]] != edit_ids(old, d.tasks@, ordi)[ordi[q2]],
{
    let tasks = d.tasks@;
    let i1 = ordi[q1];
    let i2 = ordi[q2];
    assert(ord[q1] != ord[q2]);
    lemma_new_in_prefix_mono(tasks, ordi, q1 + 1, q2);
    lemma_new_in_prefix_mono(tasks, ordi, q2 + 1, ordi.len() as int);
    lemma_new_in_prefix_mono(tasks, ordi, q1 + 1, ordi.len() as int);
    lemma_position_unique(ord, ordi, q1);
    lemma_position_unique(ord, ordi, q2);
    assert(new_in_prefix(tasks, ordi, q1 + 1) == new_in_prefix(tasks, ordi, q1) + if tasks[i1].id is None { 1int } else { 0int });
    let ids = edit_ids(old, tasks, ordi);
    lemma_new_in_prefix_mono(tasks, ordi, q2, ordi.len() as int);
    lemma_new_in_prefix_mono(tasks, ordi, q1, ordi.len() as int);
    assert(old.next_task_id + new_in_prefix(tasks, ordi, ordi.len() as int) <= i64::MAX);
    match (tasks[i1].id, tasks[i2].id) {
        (Some(x1), Some(x2)) => {
            assert(ids[i1] == x1 && ids[i2] == x2);
            if i1 < i2 {
                assert(tasks[i1].id != tasks[i2].id);
            } else {
                assert(tasks[i2].id != tasks[i1].id);
            }
        },
        (Some(x1), None) => {
            let k = choose|k: int| live_in_plan(old, plan_id, k) && Some(old.tasks@[k].id) == tasks[i1].id;
            assert(old.tasks@[k].id < old.next_task_id);
            assert(ids[i1] == x1);
            assert(ids[i2] == (old.next_task_id + new_in_prefix(tasks, ordi, q2)) as i64);
        },
        (None, Some(x2)) => {
            let k = choose|k: int| live_in_plan(old, plan_id, k) && Some(old.tasks@[k].id) == tasks[i2].id;
            assert(old.tasks@[k].id < old.next_task_id);
            assert(ids[i2] == x2);
            assert(ids[i1] == (old.next_task_id + new_in_prefix(tasks, ordi, q1)) as i64);
        },
        (None, None) => {
            assert(ids[i1] == (old.next_task_id + new_in_prefix(tasks, ordi, q1)) as i64);
            assert(ids[i2] == (old.next_task_id + new_in_prefix(tasks, ordi, q2)) as i64);
        },
    }
}

/// Every task row of `a` but row `changed` is the same in `b`.
pub open spec fn tasks_kept(a: Seq<TaskRow>, b: Seq<TaskRow>, changed: int) -> bool {
    forall|j: int| 0 <= j < a.len() && j != changed ==> #[trigger] b[j] == a[j]
}

/// Stores the task at storage position `p` (see `applied_upto`).
#[verifier::rlimit(60)]
fn apply_step(db: &mut Database, plan_id: i64, d: &PlanDraft, ord: &Vec<usize>, Ghost(base): Ghost<Database>,
    Ghost(ordi): Ghost<Seq<int>>, p: usize, now: LocalTime)
    requires
        edit_ready(&base, plan_id, *d, ord@, ordi),
        old(db).wf(),
        p < ordi.len(),
        applied_upto(&base, old(db), plan_id, d.tasks@, ordi, p as int, now),
    ensures
        final(db).wf(),
        final(db).plans@ == old(db).plans@,
        applied_upto(&base, final(db), plan_id, d.tasks@, ordi, p + 1, now),
{
    let ghost cur = *db;
    let ghost tasks = d.tasks@;
    let ghost ids = edit_ids(&base, tasks, ordi);
    let di = ord[p];
    let t = &d.tasks[di];
    proof {
        lemma_new_in_prefix_mono(tasks, ordi, p + 1, ordi.len() as int);
        lemma_subs_before_mono(&base, tasks, ordi, p + 1, ordi.len() as int);
        lemma_position_unique(ord@, ordi, p as int);
        assert(estimates_fit(tasks[di as int]) && subgoal_positions_fit(tasks[di as int]));
        // The task at `p` takes an id no earlier position took.
        assert forall|q: int| 0 <= q < p implies ids[ordi[q]] != ids[ordi[p as int]] by {
            lemma_edit_ids_distinct(&base, plan_id, *d, ord@, ordi, q, p as int);
        }
    }
    let pos = #[verifier::truncate] (p as i32);
    let ghost mut changed: int = -1;
    match t.id {
        Some(x) => {
            let ghost k0 = task_index_of(&base, x);
            proof {
                changed = k0;
            }
            proof {
                let kl = choose|kl: int| live_in_plan(&base, plan_id, kl) && Some(base.tasks@[kl].id) == tasks[di as int].id;
                assert(0 <= k0 < base.tasks@.len() && base.tasks@[k0].id == x);
                assert(ids[di as int] == x);
                assert forall|q: int| 0 <= q < p implies tasks[ordi[q]].id != Some(base.tasks@[k0].id) by {
                    assert(ord@[q] as int == ordi[q] && ord@[q] < tasks.len());
                    if tasks[ordi[q]].id == Some(x) {
                        assert(ids[ordi[q]] == x);
                    }
                }
                assert(cur.tasks@[k0] == base.tasks@[k0]);
                lemma_first_sub_error_none(&base, tasks, ordi, 0, p as int);
                assert(of_task(cur.subgoals@, x) == of_task(base.subgoals@, x));
            }
            let k = task_row_index(db, x).unwrap();
            proof {
                if k != k0 {
                    if k < k0 {
                        assert(db.tasks@[k as int].id != db.tasks@[k0].id);
                    } else {
                        assert(db.tasks@[k0].id != db.tasks@[k as int].id);
                    }
                }
            }
            set_task_fields(&mut db.tasks, k, t, pos);
            proof {
                assert forall|a: int, b: int| 0 <= a < b < db.tasks@.len() implies db.tasks@[a].id != db.tasks@[b].id by {
                    assert(cur.tasks@[a].id != cur.tasks@[b].id);
                }
                assert forall|i: int| 0 <= i < db.tasks@.len() implies 1 <= (#[trigger] db.tasks@[i]).id < db.next_task_id by {
                    assert(cur.tasks@[i].id == db.tasks@[i].id);
                }
            }
            let ghost mid = *db;
            revise_subgoals(db, x, t, now);
            proof {
                assert(of_task(mid.subgoals@, x) == of_task(base.subgoals@, x));
                assert(db.tasks@ == mid.tasks@);
                assert(existing_task_edited(base.tasks@[k0], db.tasks@[k0], *t, pos));
                assert(task_stored_at(&base, &*db, plan_id, tasks, ordi, p as int, now));
                assert(subgoals_stored_at(&base, &*db, tasks, ordi, p as int, now));
                assert(db.tasks@.len() == cur.tasks@.len());
                assert forall|j: int| 0 <= j < cur.tasks@.len() && j != changed implies db.tasks@[j] == cur.tasks@[j] by {}
                assert(tasks_kept(cur.tasks@, db.tasks@, changed));
                assert forall|z: i64| z != ids[di as int] implies #[trigger] of_task(db.subgoals@, z) == of_task(cur.subgoals@, z) by {}
            }
        },
        None => {
            let ghost y = db.next_task_id;
            proof {
                assert(ids[di as int] == y);
                assert(of_task(cur.subgoals@, y) == of_task(base.subgoals@, y));
                lemma_new_in_prefix_mono(tasks, ordi, p as int, ordi.len() as int);
                assert forall|i: int| 0 <= i < base.subgoals@.len() implies (#[trigger] base.subgoals@[i]).task_id != y by {
                    assert(base.subgoals@[i].task_id < base.next_task_id);
                }
                lemma_of_task_none(base.subgoals@, y);
            }
            push_task_rows(db, plan_id, t, pos, now);
            proof {
                assert forall|q: int| cur.subgoals@.len() <= q < db.subgoals@.len() implies (#[trigger] db.subgoals@[q]).task_id == y by {
                    let j = q - cur.subgoals@.len();
                    assert(new_subgoal_row(db.subgoals@[cur.subgoals@.len() + j], t.subgoals@[j],
                        (cur.next_subgoal_id + j) as i64, y, j, now));
                }
                lemma_appended_of_task(cur.subgoals@, db.subgoals@, y, y);
                assert forall|z: i64| z != y implies #[trigger] of_task(db.subgoals@, z) == of_task(cur.subgoals@, z) by {
                    lemma_appended_of_task(cur.subgoals@, db.subgoals@, y, z);
                }
                assert(db.tasks@.last() == db.tasks@[base.tasks@.len() + new_in_prefix(tasks, ordi, p as int)]);
                assert(task_stored_at(&base, &*db, plan_id, tasks, ordi, p as int, now));
                assert forall|j: int| 0 <= j < cur.tasks@.len() && j != changed implies db.tasks@[j] == cur.tasks@[j] by {
                    assert(db.tasks@.drop_last()[j] == db.tasks@[j]);
                }
                assert(tasks_kept(cur.tasks@, db.tasks@, changed));
                let added = db.subgoals@.subrange(cur.subgoals@.len() as int, db.subgoals@.len() as int);
                let first = base.next_subgoal_id + subs_before(&base, tasks, ordi, p as int);
                assert(Seq::<SubGoalRow>::empty() + added =~= added);
                let absd = added.map_values(|r: SubGoalRow| sg_abs(r));
                assert(absd =~= fresh_task_rows(*t, y, first, now)) by {
                    assert forall|j: int| 0 <= j < added.len() implies #[trigger] absd[j]
                        == fresh_task_rows(*t, y, first, now)[j] by {
                        assert(added[j] == db.subgoals@[cur.subgoals@.len() + j]);
                    }
                }
                assert(of_task(db.subgoals@, y) == of_task(base.subgoals@, y) + added);
                assert(of_task(base.subgoals@, y) + added =~= added);
                assert(subgoals_stored_at(&base, &*db, tasks, ordi, p as int, now));
            }
        },
    }
    proof {
        let new = *db;
        assert(new_in_prefix(tasks, ordi, p + 1) == new_in_prefix(tasks, ordi, p as int)
            + if tasks[ordi[p as int]].id is None { 1int } else { 0int });
        assert(subs_before(&base, tasks, ordi, p + 1) == subs_before(&base, tasks, ordi, p as int)
            + task_fresh_subs(&base, tasks[ordi[p as int]]));
        assert forall|q: int| 0 <= q < p + 1 implies #[trigger] task_stored_at(&base, &new, plan_id, tasks, ordi, q, now) by {
            assert(ord@[q] as int == ordi[q] && ord@[q] < tasks.len());
            if q < p {
                assert(task_stored_at(&base, &cur, plan_id, tasks, ordi, q, now));
                lemma_edit_ids_distinct(&base, plan_id, *d, ord@, ordi, q, p as int);
                lemma_new_in_prefix_mono(tasks, ordi, q + 1, p as int);
                assert(new_in_prefix(tasks, ordi, q + 1) == new_in_prefix(tasks, ordi, q)
                    + if tasks[ordi[q]].id is None { 1int } else { 0int });
                match tasks[ordi[q]].id {
                    Some(xq) => {
                        let kq = task_index_of(&base, xq);
                        let kl = choose|kl: int| live_in_plan(&base, plan_id, kl) && Some(base.tasks@[kl].id) == tasks[ordi[q]].id;
                        assert(0 <= kq < base.tasks@.len() && base.tasks@[kq].id == xq);
                        assert(ids[ordi[q]] == xq);
                        if changed >= 0 {
                            assert(base.tasks@[changed].id == ids[ordi[p as int]]);
                        }
                        assert(kq != changed);
                        assert(tasks_kept(cur.tasks@, new.tasks@, changed));
                        assert(new.tasks@[kq] == cur.tasks@[kq]);
                    },
                    None => {
                        lemma_new_in_prefix_mono(tasks, ordi, q, p as int);
                        let iq = base.tasks@.len() + new_in_prefix(tasks, ordi, q);
                        assert(iq < cur.tasks@.len());
                        assert(tasks_kept(cur.tasks@, new.tasks@, changed));
                        if changed >= 0 {
                            assert(changed < base.tasks@.len());
                        }
                        assert(new.tasks@[iq] == cur.tasks@[iq]);
                    },
                }
            }
        }
        assert(new.tasks@.len() == base.tasks@.len() + new_in_prefix(tasks, ordi, p + 1));
        assert(new.next_task_id == base.next_task_id + new_in_prefix(tasks, ordi, p + 1));
        assert(new.next_subgoal_id == base.next_subgoal_id + subs_before(&base, tasks, ordi, p + 1));
        assert(rest_unchanged(&base, &new));
        assert forall|k: int| 0 <= k < base.tasks@.len() && (forall|q: int| 0 <= q < p + 1 ==> tasks[ordi[q]].id != Some(base.tasks@[k].id))
            implies #[trigger] new.tasks@[k] == base.tasks@[k] by {
            assert(cur.tasks@[k] == base.tasks@[k]);
        }
        assert forall|y: i64| (forall|q: int| 0 <= q < p + 1 ==> ids[ordi[q]] != y)
            implies #[trigger] of_task(new.subgoals@, y) == of_task(base.subgoals@, y) by {
            assert(of_task(cur.subgoals@, y) == of_task(base.subgoals@, y));
        }
        assert forall|q: int| 0 <= q < p + 1 implies #[trigger] subgoals_stored_at(&base, &new, tasks, ordi, q, now) by {
            assert(ord@[q] as int == ordi[q] && ord@[q] < tasks.len());
            if q < p {
                assert(subgoals_stored_at(&base, &cur, tasks, ordi, q, now));
                lemma_edit_ids_distinct(&base, plan_id, *d, ord@, ordi, q, p as int);
                match tasks[ordi[q]].id {
                    Some(xq) => {
                        assert(ids[ordi[q]] == xq);
                        assert(of_task(new.subgoals@, xq) == of_task(cur.subgoals@, xq));
                    },
                    None => {
                        lemma_position_unique(ord@, ordi, q);
                        let yq = (base.next_task_id + new_in_prefix(tasks, ordi, q)) as i64;
                        assert(ids[ordi[q]] == yq);
                        assert(of_task(new.subgoals@, yq) == of_task(cur.subgoals@, yq));
                    },
                }
            }
        }
    }
}

impl PlanService {
    /// Edits a plan as a whole at `now` (see `update_outcome`): the plan's
    /// fields, its tasks (known ones updated, new ones added; tasks not yet
    /// completed first in draft order, completed ones after in their stored
    /// order), each task's sub-goals, and the plan's dependency edges.
    pub fn update(db: &mut Database, now: LocalTime, plan_id: i64, draft: &PlanDraft) -> (r: Result<(), PlanError>)
        requires
            old(db).wf(),
            now.wf(),
            draft_sizes_fit(*draft),
        ensures
            final(db).wf(),
            update_outcome(old(db), final(db), plan_id, *draft, now, r),
    {
        draft.validate()?;
        check_dep_indices(&draft.tasks)?;
        let pi = match find_plan(db, plan_id) {
            Some(i) => i,
            None => return Err(PlanError::NotFound),
        };
        proof {
            let p0 = plan_index_of(db, plan_id);
            assert(has_plan_at(db, plan_id, pi as int));
            if p0 != pi {
                if p0 < pi {
                    assert(db.plans@[p0].id != db.plans@[pi as int].id);
                } else {
                    assert(db.plans@[pi as int].id != db.plans@[p0].id);
                }
            }
        }
        if db.plans[pi].status != PlanStatus::NotStarted && draft.priority != db.plans[pi].priority {
            return Err(PlanError::PriorityLocked);
        }
        if !task_set_ok(db, plan_id, &draft.tasks) {
            return Err(PlanError::TaskSetMismatch);
        }
        match first_locked_of(db, plan_id, &draft.tasks) {
            Some(i) => {
                return Err(PlanError::TaskLocked { index: i });
            },
            None => {},
        }
        let (ord, cs) = storage_order_of(db, plan_id, &draft.tasks);
        let ghost ordi = storage_order(db, draft.tasks@, cs@);
        match first_sub_error_of(db, &draft.tasks, &ord, Ghost(ordi)) {
            Some(e) => {
                assert(edit_with_order(db, db, plan_id, *draft, now, cs@, Err(e)));
                return Err(e);
            },
            None => {},
        }
        if update_exhausts_of(db, &draft.tasks, &ord, Ghost(ordi)) {
            let e = PlanError::Storage("identifier space exhausted".to_owned());
            assert(edit_with_order(db, db, plan_id, *draft, now, cs@, Err(e)));
            return Err(e);
        }
        proof {
            let n = draft.tasks@.len() as int;
            assert forall|i: int| 0 <= i < n && draft.tasks@[i].id is None implies exists|q: int| 0 <= q < ordi.len() && ordi[q] == i by {
                lemma_undone_tasks_lists(db, draft.tasks@, n, i);
                let und = undone_tasks(db, draft.tasks@, n);
                let q = choose|q: int| 0 <= q < und.len() && und[q] == i;
                assert(ordi[q] == i);
            }
        }
        let ids = edit_ids_of(db, &draft.tasks, &ord, Ghost(ordi));
        let mut edges = base_edges_of(db, plan_id);
        match link_draft_pairs(&mut edges, &draft.tasks, &ids) {
            Err(e) => {
                assert(edit_with_order(db, db, plan_id, *draft, now, cs@, Err(e)));
                return Err(e);
            },
            Ok(()) => {},
        }
        let ghost base = *db;
        set_plan_fields(&mut db.plans, pi, draft);
        let ghost plans_after = db.plans@;
        proof {
            assert(edit_ready(&base, plan_id, *draft, ord@, ordi));
            assert forall|i: int| 0 <= i < db.plans@.len() implies 1 <= (#[trigger] db.plans@[i]).id < db.next_plan_id
                && db.plans@[i].created_at.wf() by {
                assert(base.plans@[i].id == db.plans@[i].id);
            }
            assert forall|a: int, b: int| 0 <= a < b < db.plans@.len() implies db.plans@[a].id != db.plans@[b].id by {
                assert(base.plans@[a].id != base.plans@[b].id);
            }
            assert(applied_upto(&base, db, plan_id, draft.tasks@, ordi, 0, now));
        }
        let m = ord.len();
        let mut p: usize = 0;
        while p < m
            invariant
                m == ord@.len() == ordi.len(),
                edit_ready(&base, plan_id, *draft, ord@, ordi),
                db.wf(),
                db.plans@ == plans_after,
                p <= m,
                applied_upto(&base, db, plan_id, draft.tasks@, ordi, p as int, now),
            decreases m - p,
        {
            apply_step(db, plan_id, draft, &ord, Ghost(base), Ghost(ordi), p, now);
            p = p + 1;
        }
        let ghost fin = *db;
        db.deps = edges;
        proof {
            let tasks = draft.tasks@;
            assert forall|q: int| 0 <= q < ordi.len() implies #[trigger] task_stored_at(&base, db, plan_id, tasks, ordi, q, now) by {
                assert(task_stored_at(&base, &fin, plan_id, tasks, ordi, q, now));
            }
            assert forall|q: int| 0 <= q < ordi.len() implies #[trigger] subgoals_stored_at(&base, db, tasks, ordi, q, now) by {
                assert(subgoals_stored_at(&base, &fin, tasks, ordi, q, now));
            }
            assert forall|k: int| 0 <= k < base.tasks@.len() && !live_in_plan(&base, plan_id, k)
                implies db.tasks@[k] == base.tasks@[k] by {
                assert forall|q: int| 0 <= q < m implies tasks[ordi[q]].id != Some(base.tasks@[k].id) by {
                    assert(ord@[q] as int == ordi[q] && ord@[q] < tasks.len());
                    if tasks[ordi[q]].id == Some(base.tasks@[k].id) {
                        let kl = choose|kl: int| live_in_plan(&base, plan_id, kl) && Some(base.tasks@[kl].id) == tasks[ordi[q]].id;
                        if kl != k {
                            if kl < k {
                                assert(base.tasks@[kl].id != base.tasks@[k].id);
                            } else {
                                assert(base.tasks@[k].id != base.tasks@[kl].id);
                            }
                        }
                    }
                }
            }
            lemma_new_in_prefix_mono(tasks, ordi, m as int, m as int);
            let pi0 = plan_index_of(&base, plan_id);
            assert(pi0 == pi);
            assert(plan_edited(base.plans@[pi0], db.plans@[pi0], *draft));
            assert(forall|j: int| 0 <= j < base.plans@.len() && j != pi0 ==> db.plans@[j] == base.plans@[j]);
            assert(forall|q: int| 0 <= q < ordi.len() ==> #[trigger] task_stored_at(&base, db, plan_id, tasks, ordi, q, now));
            assert(forall|q: int| 0 <= q < ordi.len() ==> #[trigger] subgoals_stored_at(&base, db, tasks, ordi, q, now));
            assert forall|y: i64| !edited_id(&base, tasks, ordi, y) implies #[trigger] of_task(db.subgoals@, y) == of_task(base.subgoals@, y) by {
                assert forall|q: int| 0 <= q < m implies edit_ids(&base, tasks, ordi)[ordi[q]] != y by {}
            }
            assert(rest_unchanged(&base, db));
            assert(edited(&base, db, plan_id, *draft, now, ordi, edges@));
            assert(edit_with_order(&base, db, plan_id, *draft, now, cs@, Ok(())));
        }
        Ok(())
    }
}

} // verus!
