//! Task dependencies: an edge says the successor waits for the predecessor.
//! Edges stay inside one plan and never close a cycle; deleting a task detaches
//! its edges; a task is unblocked when every predecessor is completed.

use vstd::prelude::*;
use crate::plans::{PlanError, TaskStatus};
use crate::store::{find_live_task, live_task_at, no_live_task, Database, DepEdge, TaskRow};
use crate::views::{picked_task_views, picked_tasks_in_order, TaskView};

verus! {

/// `to` is reached from `from` in at most `n` steps along edges
/// (predecessor → successor).
pub open spec fn reach_in(edges: Seq<DepEdge>, from: i64, to: i64, n: nat) -> bool
    decreases n,
{
    from == to || (n > 0 && exists|k: int| 0 <= k < edges.len() && edges[k].successor_id == to
        && reach_in(edges, from, edges[k].predecessor_id, (n - 1) as nat))
}

/// `to` is reachable from `from`.
pub open spec fn reaches(edges: Seq<DepEdge>, from: i64, to: i64) -> bool {
    exists|n: nat| reach_in(edges, from, to, n)
}

/// The edge set has no cycle: no edge's successor reaches its predecessor.
pub open spec fn acyclic(edges: Seq<DepEdge>) -> bool {
    forall|k: int| 0 <= k < edges.len() ==> !reaches(edges, #[trigger] edges[k].successor_id, edges[k].predecessor_id)
}

/// Some edge runs from `p` to `s`.
pub open spec fn has_edge(edges: Seq<DepEdge>, p: i64, s: i64) -> bool {
    exists|k: int| 0 <= k < edges.len() && edges[k].predecessor_id == p && edges[k].successor_id == s
}

/// Number of edges whose successor is outside `seen`.
spec fn outside_count(edges: Seq<DepEdge>, seen: Seq<i64>) -> nat
    decreases edges.len(),
{
    if edges.len() == 0 {
        0
    } else {
        outside_count(edges.drop_last(), seen) + if seen.contains(edges.last().successor_id) { 0nat } else { 1nat }
    }
}

proof fn lemma_outside_count_shrinks(edges: Seq<DepEdge>, seen: Seq<i64>, v: i64, k: int)
    requires
        0 <= k < edges.len(),
        edges[k].successor_id == v,
        !seen.contains(v),
    ensures
        outside_count(edges, seen.push(v)) < outside_count(edges, seen),
        forall|j: int| 0 <= j < edges.len() ==> outside_count(edges.subrange(0, j), seen.push(v)) <= outside_count(edges.subrange(0, j), seen),
    decreases edges.len(),
{
    let pushed = seen.push(v);
    assert forall|x: i64| seen.contains(x) implies pushed.contains(x) by {
        let i = choose|i: int| 0 <= i < seen.len() && seen[i] == x;
        assert(pushed[i] == x);
    }
    assert(pushed.contains(v)) by {
        assert(pushed[seen.len() as int] == v);
    }
    lemma_outside_monotone(edges, seen, pushed);
    if k == edges.len() - 1 {
        lemma_outside_monotone(edges.drop_last(), seen, pushed);
    } else {
        lemma_outside_count_shrinks(edges.drop_last(), seen, v, k);
    }
    assert forall|j: int| 0 <= j < edges.len() implies outside_count(edges.subrange(0, j), pushed) <= outside_count(edges.subrange(0, j), seen) by {
        lemma_outside_monotone(edges.subrange(0, j), seen, pushed);
    }
}

proof fn lemma_outside_monotone(edges: Seq<DepEdge>, a: Seq<i64>, b: Seq<i64>)
    requires
        forall|x: i64| a.contains(x) ==> b.contains(x),
    ensures
        outside_count(edges, b) <= outside_count(edges, a),
    decreases edges.len(),
{
    if edges.len() > 0 {
        lemma_outside_monotone(edges.drop_last(), a, b);
    }
}

fn contains_id(v: &Vec<i64>, x: i64) -> (r: bool)
    ensures
        r == v@.contains(x),
{
    let n = v.len();
    let mut i: usize = 0;
    while i < n
        invariant
            n == v@.len(),
            i <= n,
            forall|k: int| 0 <= k < i ==> v@[k] != x,
        decreases n - i,
    {
        if v[i] == x {
            return true;
        }
        i = i + 1;
    }
    false
}

/// Whether `to` is reachable from `from` along `edges`.
pub fn reachable(edges: &Vec<DepEdge>, from: i64, to: i64) -> (r: bool)
    ensures
        r == reaches(edges@, from, to),
{
    let mut seen: Vec<i64> = Vec::new();
    seen.push(from);
    proof {
        assert(reach_in(edges@, from, from, 0));
        assert(seen@[0] == from);
    }
    let m = edges.len();
    loop
        invariant
            m == edges@.len(),
            seen@.contains(from),
            forall|x: i64| seen@.contains(x) ==> reaches(edges@, from, x),
        ensures
            seen@.contains(from),
            forall|j: int| 0 <= j < edges@.len() && seen@.contains(edges@[j].predecessor_id)
                ==> seen@.contains(edges@[j].successor_id),
        decreases outside_count(edges@, seen@),
    {
        let mut grew = false;
        let ghost round_start = seen@;
        let mut k: usize = 0;
        while k < m
            invariant
                m == edges@.len(),
                k <= m,
                seen@.contains(from),
                forall|x: i64| round_start.contains(x) ==> seen@.contains(x),
                forall|x: i64| seen@.contains(x) ==> reaches(edges@, from, x),
                grew ==> outside_count(edges@, seen@) < outside_count(edges@, round_start),
                !grew ==> seen@ == round_start,
                !grew ==> forall|j: int| 0 <= j < k && seen@.contains(edges@[j].predecessor_id)
                    ==> seen@.contains(edges@[j].successor_id),
            decreases m - k,
        {
            let e = edges[k];
            if contains_id(&seen, e.predecessor_id) && !contains_id(&seen, e.successor_id) {
                let ghost before = seen@;
                proof {
                    let n = choose|n: nat| reach_in(edges@, from, e.predecessor_id, n);
                    assert(reach_in(edges@, from, e.successor_id, n + 1));
                    lemma_outside_count_shrinks(edges@, before, e.successor_id, k as int);
                    lemma_outside_monotone(edges@, round_start, before);
                }
                seen.push(e.successor_id);
                proof {
                    assert forall|x: i64| seen@.contains(x) implies reaches(edges@, from, x) by {
                        let i = choose|i: int| 0 <= i < seen@.len() && seen@[i] == x;
                        if i < before.len() {
                            assert(before.contains(x));
                        }
                    }
                    assert forall|x: i64| before.contains(x) implies seen@.contains(x) by {
                        let i = choose|i: int| 0 <= i < before.len() && before[i] == x;
                        assert(seen@[i] == x);
                    }
                }
                grew = true;
            }
            k = k + 1;
        }
        if !grew {
            break;
        }
    }
    // `seen` is closed under edges, so it holds every reachable id.
    let r = contains_id(&seen, to);
    proof {
        if reaches(edges@, from, to) {
            let n = choose|n: nat| reach_in(edges@, from, to, n);
            lemma_closed_contains(edges@, seen@, from, to, n);
        }
    }
    r
}

proof fn lemma_closed_contains(edges: Seq<DepEdge>, seen: Seq<i64>, from: i64, to: i64, n: nat)
    requires
        seen.contains(from),
        forall|j: int| 0 <= j < edges.len() && seen.contains(edges[j].predecessor_id)
            ==> seen.contains(edges[j].successor_id),
        reach_in(edges, from, to, n),
    ensures
        seen.contains(to),
    decreases n,
{
    if from != to {
        let k = choose|k: int| 0 <= k < edges.len() && edges[k].successor_id == to
            && reach_in(edges, from, edges[k].predecessor_id, (n - 1) as nat);
        lemma_closed_contains(edges, seen, from, edges[k].predecessor_id, (n - 1) as nat);
    }
}

/// Outcome of adding the edge `pred → succ` to `edges`, both ends known to be
/// tasks of one plan: a self edge or an edge whose successor already reaches its
/// predecessor closes a cycle; otherwise the edge is added unless present.
pub open spec fn edge_outcome(edges: Seq<DepEdge>, pred: i64, succ: i64,
    r: Result<(), PlanError>, new_edges: Seq<DepEdge>) -> bool {
    if pred == succ || reaches(edges, succ, pred) {
        r == Err::<(), PlanError>(PlanError::DependencyCycle { task_index: None }) && new_edges == edges
    } else if has_edge(edges, pred, succ) {
        r is Ok && new_edges == edges
    } else {
        r is Ok && new_edges == edges.push(DepEdge { predecessor_id: pred, successor_id: succ })
    }
}

/// Outcome of adding the edge `pred → succ` to `edges` for tasks of the store:
/// a self edge is a cycle; either end missing or archived is NotFound; ends in
/// different plans are refused; otherwise as `edge_outcome`.
pub open spec fn link_outcome(db: &Database, edges: Seq<DepEdge>, pred: i64, succ: i64,
    r: Result<(), PlanError>, new_edges: Seq<DepEdge>) -> bool {
    if pred == succ {
        r == Err::<(), PlanError>(PlanError::DependencyCycle { task_index: None }) && new_edges == edges
    } else if no_live_task(db, pred) || no_live_task(db, succ) {
        r == Err::<(), PlanError>(PlanError::NotFound) && new_edges == edges
    } else if exists|i: int, j: int| live_task_at(db, pred, i) && live_task_at(db, succ, j)
        && db.tasks@[i].plan_id != db.tasks@[j].plan_id {
        r == Err::<(), PlanError>(PlanError::DependencyCrossPlan) && new_edges == edges
    } else {
        edge_outcome(edges, pred, succ, r, new_edges)
    }
}

/// A copy of the edge list.
pub fn copy_edges(edges: &Vec<DepEdge>) -> (r: Vec<DepEdge>)
    ensures
        r@ == edges@,
{
    let mut out: Vec<DepEdge> = Vec::new();
    let n = edges.len();
    let mut k: usize = 0;
    while k < n
        invariant
            n == edges@.len(),
            k <= n,
            out@ == edges@.subrange(0, k as int),
        decreases n - k,
    {
        out.push(edges[k]);
        k = k + 1;
    }
    assert(edges@.subrange(0, n as int) =~= edges@);
    out
}

/// Adds the edge `pred → succ` unless it closes a cycle (see `edge_outcome`).
#[verifier::loop_isolation(false)]
pub fn add_edge(edges: &mut Vec<DepEdge>, pred: i64, succ: i64) -> (r: Result<(), PlanError>)
    ensures
        edge_outcome(old(edges)@, pred, succ, r, final(edges)@),
{
    if pred == succ || reachable(edges, succ, pred) {
        return Err(PlanError::DependencyCycle { task_index: None });
    }
    let n = edges.len();
    let mut k: usize = 0;
    while k < n
        invariant
            n == edges@.len(),
            k <= n,
            forall|j: int| 0 <= j < k ==> !(edges@[j].predecessor_id == pred && edges@[j].successor_id == succ),
        decreases n - k,
    {
        if edges[k].predecessor_id == pred && edges[k].successor_id == succ {
            assert(has_edge(edges@, pred, succ));
            return Ok(());
        }
        k = k + 1;
    }
    edges.push(DepEdge { predecessor_id: pred, successor_id: succ });
    Ok(())
}

/// Adds the edge `pred → succ` to `edges` under the rules of `link_outcome`.
pub fn link_into(db: &Database, edges: &mut Vec<DepEdge>, pred: i64, succ: i64) -> (r: Result<(), PlanError>)
    requires
        db.wf(),
    ensures
        link_outcome(db, old(edges)@, pred, succ, r, final(edges)@),
{
    if pred == succ {
        return Err(PlanError::DependencyCycle { task_index: None });
    }
    let pi = find_live_task(db, pred);
    let si = find_live_task(db, succ);
    let (pi, si) = match (pi, si) {
        (Some(a), Some(b)) => (a, b),
        _ => return Err(PlanError::NotFound),
    };
    proof {
        assert forall|i: int, j: int| live_task_at(db, pred, i) && live_task_at(db, succ, j)
            implies i == pi && j == si by {}
    }
    if db.tasks[pi].plan_id != db.tasks[si].plan_id {
        return Err(PlanError::DependencyCrossPlan);
    }
    add_edge(edges, pred, succ)
}

proof fn lemma_reach_step(edges: Seq<DepEdge>, from: i64, k: int, n: nat)
    requires
        0 <= k < edges.len(),
        reach_in(edges, from, edges[k].predecessor_id, n),
    ensures
        reaches(edges, from, edges[k].successor_id),
{
    assert(reach_in(edges, from, edges[k].successor_id, n + 1));
}

proof fn lemma_reach_trans(edges: Seq<DepEdge>, a: i64, b: i64, c: i64, m: nat)
    requires
        reaches(edges, a, b),
        reach_in(edges, b, c, m),
    ensures
        reaches(edges, a, c),
    decreases m,
{
    if b != c {
        let k = choose|k: int| 0 <= k < edges.len() && edges[k].successor_id == c
            && reach_in(edges, b, edges[k].predecessor_id, (m - 1) as nat);
        lemma_reach_trans(edges, a, b, edges[k].predecessor_id, (m - 1) as nat);
        let n = choose|n: nat| reach_in(edges, a, edges[k].predecessor_id, n);
        lemma_reach_step(edges, a, k, n);
    }
}

/// A path over `edges` plus `e` either avoids `e` or passes through it.
proof fn lemma_reach_split(edges: Seq<DepEdge>, e: DepEdge, from: i64, to: i64, n: nat)
    requires
        reach_in(edges.push(e), from, to, n),
    ensures
        reaches(edges, from, to) || (reaches(edges, from, e.predecessor_id) && reaches(edges, e.successor_id, to)),
    decreases n,
{
    let grown = edges.push(e);
    if from == to {
        assert(reach_in(edges, from, to, 0));
    } else {
        let k = choose|k: int| 0 <= k < grown.len() && grown[k].successor_id == to
            && reach_in(grown, from, grown[k].predecessor_id, (n - 1) as nat);
        let pk = grown[k].predecessor_id;
        lemma_reach_split(edges, e, from, pk, (n - 1) as nat);
        if k < edges.len() {
            assert(grown[k] == edges[k]);
            if reaches(edges, from, pk) {
                let w = choose|w: nat| reach_in(edges, from, pk, w);
                lemma_reach_step(edges, from, k, w);
            } else {
                let w = choose|w: nat| reach_in(edges, e.successor_id, pk, w);
                lemma_reach_step(edges, e.successor_id, k, w);
            }
        } else {
            assert(grown[k] == e);
            assert(reach_in(edges, e.successor_id, e.successor_id, 0));
            if reaches(edges, from, pk) {
            } else {
                let w = choose|w: nat| reach_in(edges, from, e.predecessor_id, w);
                assert(reach_in(edges, from, e.predecessor_id, w));
            }
        }
    }
}

/// Adding an edge never closes a cycle: an acyclic edge set stays acyclic.
pub proof fn lemma_add_edge_keeps_acyclic(edges: Seq<DepEdge>, pred: i64, succ: i64,
    r: Result<(), PlanError>, new_edges: Seq<DepEdge>)
    requires
        acyclic(edges),
        edge_outcome(edges, pred, succ, r, new_edges),
    ensures
        acyclic(new_edges),
{
    if new_edges != edges {
        let e = DepEdge { predecessor_id: pred, successor_id: succ };
        assert(new_edges == edges.push(e));
        assert(!reaches(edges, succ, pred));
        assert forall|k: int| 0 <= k < new_edges.len()
            implies !reaches(new_edges, #[trigger] new_edges[k].successor_id, new_edges[k].predecessor_id) by {
            let a = new_edges[k].predecessor_id;
            let b = new_edges[k].successor_id;
            if reaches(new_edges, b, a) {
                let n = choose|n: nat| reach_in(new_edges, b, a, n);
                lemma_reach_split(edges, e, b, a, n);
                if k < edges.len() {
                    assert(new_edges[k] == edges[k]);
                    assert(!reaches(edges, edges[k].successor_id, edges[k].predecessor_id));
                    // b reaches pred, and succ reaches a; with a → b, succ reaches pred.
                    let w = choose|w: nat| reach_in(edges, succ, a, w);
                    lemma_reach_step(edges, succ, k, w);
                    let v = choose|v: nat| reach_in(edges, b, pred, v);
                    lemma_reach_trans(edges, succ, b, pred, v);
                } else {
                    assert(new_edges[k] == e);
                }
            }
        }
    }
}

/// Edges left after detaching task `id` (both directions).
pub open spec fn detached(edges: Seq<DepEdge>, id: i64) -> Seq<DepEdge> {
    edges.filter(|e: DepEdge| e.predecessor_id != id && e.successor_id != id)
}

/// Removes every edge that has task `id` at either end.
pub fn detach_edges(edges: &Vec<DepEdge>, id: i64) -> (r: Vec<DepEdge>)
    ensures
        r@ == detached(edges@, id),
{
    let mut out: Vec<DepEdge> = Vec::new();
    let n = edges.len();
    let mut k: usize = 0;
    while k < n
        invariant
            n == edges@.len(),
            k <= n,
            out@ == detached(edges@.subrange(0, k as int), id),
        decreases n - k,
    {
        assert(edges@.subrange(0, k + 1).drop_last() =~= edges@.subrange(0, k as int));
        reveal_with_fuel(Seq::filter, 1);
        if edges[k].predecessor_id != id && edges[k].successor_id != id {
            out.push(edges[k]);
        }
        k = k + 1;
    }
    assert(edges@.subrange(0, n as int) =~= edges@);
    out
}

/// Ids of the predecessors of task `id`, in edge order.
pub open spec fn predecessors_of(edges: Seq<DepEdge>, id: i64) -> Seq<i64>
    decreases edges.len(),
{
    if edges.len() == 0 {
        Seq::empty()
    } else {
        let rest = predecessors_of(edges.drop_last(), id);
        if edges.last().successor_id == id { rest.push(edges.last().predecessor_id) } else { rest }
    }
}

/// Ids of the predecessors of task `id`, in edge order.
pub fn predecessor_ids(edges: &Vec<DepEdge>, id: i64) -> (r: Vec<i64>)
    ensures
        r@ == predecessors_of(edges@, id),
{
    let mut out: Vec<i64> = Vec::new();
    let n = edges.len();
    let mut k: usize = 0;
    while k < n
        invariant
            n == edges@.len(),
            k <= n,
            out@ == predecessors_of(edges@.subrange(0, k as int), id),
        decreases n - k,
    {
        assert(edges@.subrange(0, k + 1).drop_last() =~= edges@.subrange(0, k as int));
        if edges[k].successor_id == id {
            out.push(edges[k].predecessor_id);
        }
        k = k + 1;
    }
    assert(edges@.subrange(0, n as int) =~= edges@);
    out
}

/// Task `j` is an unfinished live predecessor of task `id`.
pub open spec fn is_waiting_on(db: &Database, id: i64, j: int) -> bool {
    &&& 0 <= j < db.tasks@.len()
    &&& db.tasks@[j].deleted_at is None
    &&& db.tasks@[j].status != TaskStatus::Completed
    &&& has_edge(db.deps@, db.tasks@[j].id, id)
}

/// One flag per task row: whether that row is an unfinished live predecessor of task `id`.
pub open spec fn waiting_flags(db: &Database, id: i64) -> Seq<bool> {
    Seq::new(db.tasks@.len(), |j: int| is_waiting_on(db, id, j))
}

/// `views` shows the unfinished live predecessors of task `id`, by position then id.
pub open spec fn waiting_shown(db: &Database, id: i64, views: Seq<TaskView>) -> bool {
    exists|ord: Seq<usize>| #[trigger] picked_tasks_in_order(db, waiting_flags(db, id), views, ord)
}

/// Whether every live predecessor of task `id` is completed.
pub open spec fn unblocked(db: &Database, id: i64) -> bool {
    forall|j: int| !is_waiting_on(db, id, j)
}

/// Whether the live predecessors of task `id` are all completed.
#[verifier::loop_isolation(false)]
pub fn is_unblocked_in(db: &Database, id: i64) -> (r: bool)
    ensures
        r == unblocked(db, id),
{
    let n = db.tasks.len();
    let mut j: usize = 0;
    while j < n
        invariant
            n == db.tasks@.len(),
            j <= n,
            forall|q: int| 0 <= q < j ==> !is_waiting_on(db, id, q),
        decreases n - j,
    {
        let t = &db.tasks[j];
        if t.deleted_at.is_none() && t.status != TaskStatus::Completed {
            let m = db.deps.len();
            let mut k: usize = 0;
            while k < m
                invariant
                    m == db.deps@.len(),
                    k <= m,
                    j < n,
                    n == db.tasks@.len(),
                    *t == db.tasks@[j as int],
                    forall|q: int| 0 <= q < k ==> !(db.deps@[q].predecessor_id == t.id && db.deps@[q].successor_id == id),
                decreases m - k,
            {
                if db.deps[k].predecessor_id == t.id && db.deps[k].successor_id == id {
                    assert(has_edge(db.deps@, db.tasks@[j as int].id, id));
                    assert(is_waiting_on(db, id, j as int));
                    return false;
                }
                k = k + 1;
            }
        }
        j = j + 1;
    }
    true
}

/// Dependency reads and writes.
pub struct DependencyService;

/// Every field of the store but the dependency edges is the same in `a` and `b`.
pub open spec fn same_but_deps(a: &Database, b: &Database) -> bool {
    &&& a.settings == b.settings
    &&& a.settings_updated_at == b.settings_updated_at
    &&& a.versions@ == b.versions@
    &&& a.plans@ == b.plans@
    &&& a.tasks@ == b.tasks@
    &&& a.subgoals@ == b.subgoals@
    &&& a.allocation == b.allocation
    &&& a.log@ == b.log@
    &&& a.current_task == b.current_task
    &&& a.summary_shown@ == b.summary_shown@
    &&& a.next_plan_id == b.next_plan_id
    &&& a.next_task_id == b.next_task_id
    &&& a.next_subgoal_id == b.next_subgoal_id
    &&& a.next_log_id == b.next_log_id
}

impl DependencyService {
    /// Adds the edge `predecessor_id → successor_id`: both ends live tasks of
    /// one plan, not the same task, and the edge closes no cycle.
    pub fn link(db: &mut Database, predecessor_id: i64, successor_id: i64) -> (r: Result<(), PlanError>)
        requires
            old(db).wf(),
        ensures
            link_outcome(old(db), old(db).deps@, predecessor_id, successor_id, r, final(db).deps@),
            same_but_deps(old(db), final(db)),
            final(db).wf(),
    {
        let mut edges = copy_edges(&db.deps);
        let r = link_into(db, &mut edges, predecessor_id, successor_id);
        db.deps = edges;
        r
    }

    /// Removes every edge of task `task_id` (as predecessor and as successor).
    pub fn detach_task(db: &mut Database, task_id: i64) -> (r: Result<(), PlanError>)
        ensures
            r is Ok,
            final(db).deps@ == detached(old(db).deps@, task_id),
            same_but_deps(old(db), final(db)),
    {
        let edges = detach_edges(&db.deps, task_id);
        db.deps = edges;
        Ok(())
    }

    /// The unfinished live predecessors of task `task_id`, by position.
    pub fn waiting_on(db: &Database, task_id: i64) -> (r: Result<Vec<TaskView>, PlanError>)
        ensures
            r matches Ok(views) && waiting_shown(db, task_id, views@),
    {
        let n = db.tasks.len();
        let mut sel: Vec<bool> = Vec::new();
        let mut j: usize = 0;
        while j < n
            invariant
                n == db.tasks@.len(),
                j <= n,
                sel@.len() == j,
                forall|q: int| 0 <= q < j ==> #[trigger] sel@[q] == is_waiting_on(db, task_id, q),
            decreases n - j,
        {
            let t = &db.tasks[j];
            let w = t.deleted_at.is_none() && t.status != TaskStatus::Completed && has_edge_in(&db.deps, t.id, task_id);
            sel.push(w);
            j = j + 1;
        }
        assert(sel@ =~= waiting_flags(db, task_id));
        let v = picked_task_views(db, &sel);
        proof {
            let ord = choose|ord: Seq<usize>| picked_tasks_in_order(db, sel@, v@, ord);
            assert(picked_tasks_in_order(db, waiting_flags(db, task_id), v@, ord));
        }
        Ok(v)
    }

    /// Whether every live predecessor of task `task_id` is completed.
    pub fn is_unblocked(db: &Database, task_id: i64) -> (r: Result<bool, PlanError>)
        ensures
            r == Ok::<bool, PlanError>(unblocked(db, task_id)),
    {
        Ok(is_unblocked_in(db, task_id))
    }
}

/// Whether some edge runs from `p` to `s`.
pub fn has_edge_in(edges: &Vec<DepEdge>, p: i64, s: i64) -> (r: bool)
    ensures
        r == has_edge(edges@, p, s),
{
    let n = edges.len();
    let mut k: usize = 0;
    while k < n
        invariant
            n == edges@.len(),
            k <= n,
            forall|j: int| 0 <= j < k ==> !(edges@[j].predecessor_id == p && edges@[j].successor_id == s),
        decreases n - k,
    {
        if edges[k].predecessor_id == p && edges[k].successor_id == s {
            return true;
        }
        k = k + 1;
    }
    false
}

} // verus!
