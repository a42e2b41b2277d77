//! Plans and tasks: the status enums and their stored text, the drafts that
//! create and edit a plan, the domain error, the read views, and the draft rules.

use vstd::prelude::*;
use crate::text::{is_blank, is_blank_text, text_eq};

verus! {

/// Plan priority; Low < Medium < High.
#[derive(Clone, Copy, Debug, PartialEq, Eq, Structural, PartialOrd, Ord, Hash)]
pub enum Priority {
    Low,
    Medium,
    High,
}

/// Plan status (one-way waterfall: not started → active ⇄ paused → completed / abandoned).
#[derive(Clone, Copy, Debug, PartialEq, Eq, Structural, Hash)]
pub enum PlanStatus {
    NotStarted,
    Active,
    Paused,
    Completed,
    Abandoned,
}

/// Why a plan is paused.
#[derive(Clone, Copy, Debug, PartialEq, Eq, Structural, Hash)]
pub enum PauseReason {
    UserInitiated,
    AutoPreempted,
}

/// Task status; a task turns completed when its progress reaches 100%.
#[derive(Clone, Copy, Debug, PartialEq, Eq, Structural, Hash)]
pub enum TaskStatus {
    NotStarted,
    Active,
    Completed,
}

/// Numeric rank of a priority (Low 0, Medium 1, High 2).
pub open spec fn rank(p: Priority) -> int {
    match p {
        Priority::Low => 0,
        Priority::Medium => 1,
        Priority::High => 2,
    }
}

/// Stored text of a priority.
pub open spec fn priority_text(p: Priority) -> Seq<char> {
    match p {
        Priority::Low => "Low"@,
        Priority::Medium => "Medium"@,
        Priority::High => "High"@,
    }
}

/// Priority read back from stored text; unknown text reads as Medium.
pub open spec fn priority_from_text(s: Seq<char>) -> Priority {
    if s == "High"@ {
        Priority::High
    } else if s == "Low"@ {
        Priority::Low
    } else {
        Priority::Medium
    }
}

/// Stored text of a plan status.
pub open spec fn plan_status_text(s: PlanStatus) -> Seq<char> {
    match s {
        PlanStatus::NotStarted => "NotStarted"@,
        PlanStatus::Active => "Active"@,
        PlanStatus::Paused => "Paused"@,
        PlanStatus::Completed => "Completed"@,
        PlanStatus::Abandoned => "Abandoned"@,
    }
}

/// Plan status read back from stored text; unknown text reads as NotStarted.
pub open spec fn plan_status_from_text(s: Seq<char>) -> PlanStatus {
    if s == "Active"@ {
        PlanStatus::Active
    } else if s == "Paused"@ {
        PlanStatus::Paused
    } else if s == "Completed"@ {
        PlanStatus::Completed
    } else if s == "Abandoned"@ {
        PlanStatus::Abandoned
    } else {
        PlanStatus::NotStarted
    }
}

/// Stored text of a pause reason.
pub open spec fn pause_reason_text(r: PauseReason) -> Seq<char> {
    match r {
        PauseReason::UserInitiated => "UserInitiated"@,
        PauseReason::AutoPreempted => "AutoPreempted"@,
    }
}

/// Pause reason read back from stored text; unknown text reads as UserInitiated.
pub open spec fn pause_reason_from_text(s: Seq<char>) -> PauseReason {
    if s == "AutoPreempted"@ {
        PauseReason::AutoPreempted
    } else {
        PauseReason::UserInitiated
    }
}

/// Stored text of a task status.
pub open spec fn task_status_text(s: TaskStatus) -> Seq<char> {
    match s {
        TaskStatus::NotStarted => "NotStarted"@,
        TaskStatus::Active => "Active"@,
        TaskStatus::Completed => "Completed"@,
    }
}

/// Task status read back from stored text; unknown text reads as NotStarted.
pub open spec fn task_status_from_text(s: Seq<char>) -> TaskStatus {
    if s == "Active"@ {
        TaskStatus::Active
    } else if s == "Completed"@ {
        TaskStatus::Completed
    } else {
        TaskStatus::NotStarted
    }
}

impl Priority {
    /// Stored text of the priority.
    pub fn as_db(self) -> (r: &'static str)
        ensures
            r@ == priority_text(self),
    {
        match self {
            Priority::Low => "Low",
            Priority::Medium => "Medium",
            Priority::High => "High",
        }
    }

    /// Priority from stored text (unknown text reads as Medium).
    pub fn from_db(s: &str) -> (r: Priority)
        ensures
            r == priority_from_text(s@),
    {
        if text_eq(s, "High") {
            Priority::High
        } else if text_eq(s, "Low") {
            Priority::Low
        } else {
            Priority::Medium
        }
    }

    /// Numeric rank (Low 0, Medium 1, High 2).
    pub fn rank(self) -> (r: u8)
        ensures
            r as int == rank(self),
    {
        match self {
            Priority::Low => 0,
            Priority::Medium => 1,
            Priority::High => 2,
        }
    }
}

impl PlanStatus {
    /// Stored text of the status.
    pub fn as_db(self) -> (r: &'static str)
        ensures
            r@ == plan_status_text(self),
    {
        match self {
            PlanStatus::NotStarted => "NotStarted",
            PlanStatus::Active => "Active",
            PlanStatus::Paused => "Paused",
            PlanStatus::Completed => "Completed",
            PlanStatus::Abandoned => "Abandoned",
        }
    }

    /// Status from stored text (unknown text reads as NotStarted).
    pub fn from_db(s: &str) -> (r: PlanStatus)
        ensures
            r == plan_status_from_text(s@),
    {
        if text_eq(s, "Active") {
            PlanStatus::Active
        } else if text_eq(s, "Paused") {
            PlanStatus::Paused
        } else if text_eq(s, "Completed") {
            PlanStatus::Completed
        } else if text_eq(s, "Abandoned") {
            PlanStatus::Abandoned
        } else {
            PlanStatus::NotStarted
        }
    }
}

impl PauseReason {
    /// Stored text of the reason.
    pub fn as_db(self) -> (r: &'static str)
        ensures
            r@ == pause_reason_text(self),
    {
        match self {
            PauseReason::UserInitiated => "UserInitiated",
            PauseReason::AutoPreempted => "AutoPreempted",
        }
    }

    /// Reason from stored text (unknown text reads as UserInitiated).
    pub fn from_db(s: &str) -> (r: PauseReason)
        ensures
            r == pause_reason_from_text(s@),
    {
        if text_eq(s, "AutoPreempted") {
            PauseReason::AutoPreempted
        } else {
            PauseReason::UserInitiated
        }
    }
}

impl TaskStatus {
    /// Stored text of the status.
    pub fn as_db(self) -> (r: &'static str)
        ensures
            r@ == task_status_text(self),
    {
        match self {
            TaskStatus::NotStarted => "NotStarted",
            TaskStatus::Active => "Active",
            TaskStatus::Completed => "Completed",
        }
    }

    /// Status from stored text (unknown text reads as NotStarted).
    pub fn from_db(s: &str) -> (r: TaskStatus)
        ensures
            r == task_status_from_text(s@),
    {
        if text_eq(s, "Active") {
            TaskStatus::Active
        } else if text_eq(s, "Completed") {
            TaskStatus::Completed
        } else {
            TaskStatus::NotStarted
        }
    }
}

/// Every enum value reads back from its stored text unchanged.
pub proof fn lemma_stored_text_round_trips(
    p: Priority,
    s: PlanStatus,
    r: PauseReason,
    t: TaskStatus,
)
    ensures
        priority_from_text(priority_text(p)) == p,
        plan_status_from_text(plan_status_text(s)) == s,
        pause_reason_from_text(pause_reason_text(r)) == r,
        task_status_from_text(task_status_text(t)) == t,
{
    reveal_strlit("Low");
    reveal_strlit("Medium");
    reveal_strlit("High");
    reveal_strlit("NotStarted");
    reveal_strlit("Active");
    reveal_strlit("Paused");
    reveal_strlit("Completed");
    reveal_strlit("Abandoned");
    reveal_strlit("UserInitiated");
    reveal_strlit("AutoPreempted");
    assert("Low"@ != "High"@) by {
        assert("Low"@[0] != "High"@[0]);
    }
    assert("Medium"@ != "High"@) by {
        assert("Medium"@[0] != "High"@[0]);
    }
    assert("Medium"@ != "Low"@) by {
        assert("Medium"@[0] != "Low"@[0]);
    }
    assert("Paused"@ != "Active"@) by {
        assert("Paused"@[0] != "Active"@[0]);
    }
    assert("Completed"@ != "Active"@) by {
        assert("Completed"@[0] != "Active"@[0]);
    }
    assert("Completed"@ != "Paused"@) by {
        assert("Completed"@[0] != "Paused"@[0]);
    }
    assert("Abandoned"@ != "Active"@) by {
        assert("Abandoned"@.len() != "Active"@.len());
    }
    assert("Abandoned"@ != "Paused"@) by {
        assert("Abandoned"@[0] != "Paused"@[0]);
    }
    assert("Abandoned"@ != "Completed"@) by {
        assert("Abandoned"@[0] != "Completed"@[0]);
    }
    assert("NotStarted"@ != "Active"@) by {
        assert("NotStarted"@[0] != "Active"@[0]);
    }
    assert("NotStarted"@ != "Paused"@) by {
        assert("NotStarted"@[0] != "Paused"@[0]);
    }
    assert("NotStarted"@ != "Completed"@) by {
        assert("NotStarted"@[0] != "Completed"@[0]);
    }
    assert("NotStarted"@ != "Abandoned"@) by {
        assert("NotStarted"@[0] != "Abandoned"@[0]);
    }
    assert("UserInitiated"@ != "AutoPreempted"@) by {
        assert("UserInitiated"@[0] != "AutoPreempted"@[0]);
    }
}

/// Draft of a plan: the form shared by creation and editing.
#[derive(Debug, Clone)]
pub struct PlanDraft {
    pub name: String,
    pub summary: String,
    pub detail: String,
    pub priority: Priority,
    pub due_date: Option<String>,
    pub tasks: Vec<TaskDraft>,
}

/// Draft of a task. `id` is `None` for a new task. A task without sub-goals needs
/// an estimate; with sub-goals the estimate is their sum.
#[derive(Debug, Clone)]
pub struct TaskDraft {
    pub id: Option<i64>,
    pub name: String,
    pub summary: String,
    pub detail: String,
    pub has_subgoals: bool,
    pub estimated_minutes: Option<u32>,
    /// Sub-goal rows (ignored when `has_subgoals` is false).
    pub subgoals: Vec<SubGoalDraft>,
    /// Positions, among the tasks submitted with it, of the tasks it depends on.
    pub depends_on: Vec<usize>,
}

/// Draft of a sub-goal row: text and estimate, both required. `id` is `None` for a new row.
#[derive(Debug, Clone)]
pub struct SubGoalDraft {
    pub id: Option<i64>,
    pub name: String,
    pub estimated_minutes: u32,
}

/// Plan reads and writes.
pub struct PlanService;

/// Domain error.
#[allow(inconsistent_fields)]
#[derive(Debug, PartialEq, Eq)]
pub enum PlanError {
    /// Plan name (task_index None) or a task name is blank.
    EmptyName { task_index: Option<usize> },
    /// A plan needs at least one task.
    NoTasks,
    /// A task without sub-goals needs an estimate.
    TaskNeedsDuration { index: usize },
    /// A task with sub-goals needs at least one sub-goal.
    SubGoalsRequired { index: usize },
    /// A sub-goal row lacks text or estimate, or names an id of another task.
    SubGoalInvalid { task_index: usize, subgoal_index: usize },
    /// A completed sub-goal was changed or dropped.
    SubGoalLocked { task_index: usize },
    /// A dependency index is out of range.
    DependencyInvalid { task_index: usize },
    /// A dependency edge would cross plans.
    DependencyCrossPlan,
    /// A dependency edge would close a cycle.
    DependencyCycle { task_index: Option<usize> },
    /// Priority cannot change once the plan has started.
    PriorityLocked,
    /// The plan status does not allow the operation.
    PlanStatusInvalid { from: PlanStatus },
    /// Copy-as-new needs a terminal plan.
    PlanNotTerminal { from: PlanStatus },
    /// Completing a plan needs every task completed.
    TasksNotCompleted,
    /// The task cannot be allocated today.
    TaskNotAllocatable { task_id: i64 },
    /// The task is not in today's allocation.
    TaskNotInToday { task_id: i64 },
    /// Sub-goals are completed and undone in order only.
    SubGoalOutOfOrder,
    /// Undo of a sub-goal that is not completed.
    SubGoalNotCompleted,
    /// A completed task's progress is locked.
    ProgressLocked,
    /// Percentage out of range.
    PercentInvalid,
    /// The report would pass 100%.
    PercentOverflow,
    /// Percent reports are for tasks without sub-goals.
    NotPercentTask,
    /// Date text is not `YYYY-MM-DD`.
    InvalidDate,
    /// A completed task's fields were changed.
    TaskLocked { index: usize },
    /// The draft's task ids differ from the stored tasks.
    TaskSetMismatch,
    /// No such plan / task / sub-goal.
    NotFound,
    /// Storage failure (identifier space exhausted).
    Storage(String),
    /// A higher-priority plan is active.
    PreemptedByHigher { plan_name: String },
    /// The settings are invalid.
    InvalidSettings { reason: String },
}

/// Draft validation result: the first rule broken, in the order the form is read.
pub open spec fn validate_spec(draft: PlanDraft) -> Result<(), PlanError> {
    if is_blank_text(draft.name@) {
        Err(PlanError::EmptyName { task_index: None })
    } else if draft.tasks@.len() == 0 {
        Err(PlanError::NoTasks)
    } else {
        validate_tasks_from(draft.tasks@, 0)
    }
}

/// First task rule broken at or after task `i`.
pub open spec fn validate_tasks_from(tasks: Seq<TaskDraft>, i: int) -> Result<(), PlanError>
    decreases tasks.len() - i,
{
    if i < 0 || i >= tasks.len() {
        Ok(())
    } else {
        match task_error(tasks[i], i) {
            Some(e) => Err(e),
            None => validate_tasks_from(tasks, i + 1),
        }
    }
}

/// First rule broken by task `t` at draft index `i`.
pub open spec fn task_error(t: TaskDraft, i: int) -> Option<PlanError> {
    if is_blank_text(t.name@) {
        Some(PlanError::EmptyName { task_index: Some(i as usize) })
    } else if !t.has_subgoals && (t.estimated_minutes is None || t.estimated_minutes == Some(0u32)) {
        Some(PlanError::TaskNeedsDuration { index: i as usize })
    } else if t.has_subgoals && t.subgoals@.len() == 0 {
        Some(PlanError::SubGoalsRequired { index: i as usize })
    } else if t.has_subgoals {
        match first_bad_subgoal(t.subgoals@, 0) {
            Some(j) => Some(PlanError::SubGoalInvalid { task_index: i as usize, subgoal_index: j as usize }),
            None => None,
        }
    } else {
        None
    }
}

/// A sub-goal row is invalid when its text is blank or its estimate is zero.
pub open spec fn subgoal_row_invalid(s: SubGoalDraft) -> bool {
    is_blank_text(s.name@) || s.estimated_minutes == 0
}

/// Index of the first invalid sub-goal row at or after `j`.
pub open spec fn first_bad_subgoal(rows: Seq<SubGoalDraft>, j: int) -> Option<int>
    decreases rows.len() - j,
{
    if j < 0 || j >= rows.len() {
        None
    } else if subgoal_row_invalid(rows[j]) {
        Some(j)
    } else {
        first_bad_subgoal(rows, j + 1)
    }
}

/// Index of the first task with an out-of-range dependency index, at or after `i`.
pub open spec fn first_bad_dep(tasks: Seq<TaskDraft>, i: int) -> Option<int>
    decreases tasks.len() - i,
{
    if i < 0 || i >= tasks.len() {
        None
    } else if exists|k: int| 0 <= k < tasks[i].depends_on@.len() && tasks[i].depends_on@[k] >= tasks.len() {
        Some(i)
    } else {
        first_bad_dep(tasks, i + 1)
    }
}

/// Sum of sub-goal estimates.
pub open spec fn subgoal_sum(rows: Seq<SubGoalDraft>) -> int
    decreases rows.len(),
{
    if rows.len() == 0 {
        0
    } else {
        subgoal_sum(rows.drop_last()) + rows.last().estimated_minutes
    }
}

/// Estimate stored for a task: the draft value, or the sum of its sub-goals.
pub open spec fn effective_minutes_spec(t: TaskDraft) -> Option<int> {
    if t.has_subgoals {
        Some(subgoal_sum(t.subgoals@))
    } else {
        match t.estimated_minutes {
            Some(m) => Some(m as int),
            None => None,
        }
    }
}

impl PlanDraft {
    /// The draft rules checked before saving (creation and editing alike).
    pub fn validate(&self) -> (r: Result<(), PlanError>)
        ensures
            r == validate_spec(*self),
    {
        if is_blank(self.name.as_str()) {
            return Err(PlanError::EmptyName { task_index: None });
        }
        if self.tasks.len() == 0 {
            return Err(PlanError::NoTasks);
        }
        let n = self.tasks.len();
        let mut i: usize = 0;
        while i < n
            invariant
                n == self.tasks@.len(),
                i <= n,
                validate_tasks_from(self.tasks@, 0) == validate_tasks_from(self.tasks@, i as int),
                validate_spec(*self) == validate_tasks_from(self.tasks@, 0),
            decreases n - i,
        {
            let t = &self.tasks[i];
            assert((i as int) as usize == i);
            assert(validate_tasks_from(self.tasks@, i as int) == match task_error(self.tasks@[i as int], i as int) {
                Some(e) => Err(e),
                None => validate_tasks_from(self.tasks@, i + 1),
            });
            if is_blank(t.name.as_str()) {
                return Err(PlanError::EmptyName { task_index: Some(i) });
            }
            let est_zero = match t.estimated_minutes {
                Some(m) => m == 0,
                None => true,
            };
            if !t.has_subgoals && est_zero {
                return Err(PlanError::TaskNeedsDuration { index: i });
            }
            if t.has_subgoals {
                if t.subgoals.len() == 0 {
                    return Err(PlanError::SubGoalsRequired { index: i });
                }
                let m = t.subgoals.len();
                let mut j: usize = 0;
                while j < m
                    invariant
                        m == t.subgoals@.len(),
                        j <= m,
                        first_bad_subgoal(t.subgoals@, 0) == first_bad_subgoal(t.subgoals@, j as int),
                        validate_spec(*self) == validate_tasks_from(self.tasks@, i as int),
                        i < n,
                        n == self.tasks@.len(),
                        *t == self.tasks@[i as int],
                        t.has_subgoals,
                        !is_blank_text(t.name@),
                        (i as int) as usize == i,
                        validate_tasks_from(self.tasks@, i as int) == match task_error(self.tasks@[i as int], i as int) {
                            Some(e) => Err(e),
                            None => validate_tasks_from(self.tasks@, i + 1),
                        },
                    decreases m - j,
                {
                    let s = &t.subgoals[j];
                    assert((j as int) as usize == j);
                    assert(first_bad_subgoal(t.subgoals@, j as int) == if subgoal_row_invalid(t.subgoals@[j as int]) {
                        Some(j as int)
                    } else {
                        first_bad_subgoal(t.subgoals@, j + 1)
                    });
                    if is_blank(s.name.as_str()) || s.estimated_minutes == 0 {
                        return Err(PlanError::SubGoalInvalid { task_index: i, subgoal_index: j });
                    }
                    j = j + 1;
                }
            }
            i = i + 1;
        }
        Ok(())
    }
}

/// Dependency indexes must point inside the draft.
pub fn check_dep_indices(tasks: &Vec<TaskDraft>) -> (r: Result<(), PlanError>)
    ensures
        r == (match first_bad_dep(tasks@, 0) {
            Some(i) => Err(PlanError::DependencyInvalid { task_index: i as usize }),
            None => Ok(()),
        }),
        r is Ok ==> forall|i: int, k: int|
            0 <= i < tasks@.len() && 0 <= k < tasks@[i].depends_on@.len()
                ==> #[trigger] tasks@[i].depends_on@[k] < tasks@.len(),
{
    let n = tasks.len();
    let mut i: usize = 0;
    while i < n
        invariant
            n == tasks@.len(),
            i <= n,
            first_bad_dep(tasks@, 0) == first_bad_dep(tasks@, i as int),
            forall|a: int, k: int|
                0 <= a < i && 0 <= k < tasks@[a].depends_on@.len()
                    ==> #[trigger] tasks@[a].depends_on@[k] < tasks@.len(),
        decreases n - i,
    {
        let deps = &tasks[i].depends_on;
        assert((i as int) as usize == i);
        let m = deps.len();
        let mut k: usize = 0;
        while k < m
            invariant
                n == tasks@.len(),
                i < n,
                m == deps@.len(),
                deps == tasks@[i as int].depends_on,
                k <= m,
                forall|q: int| 0 <= q < k ==> #[trigger] deps@[q] < n,
                first_bad_dep(tasks@, 0) == first_bad_dep(tasks@, i as int),
                (i as int) as usize == i,
            decreases m - k,
        {
            if deps[k] >= n {
                assert(tasks@[i as int].depends_on@[k as int] >= tasks@.len());
                assert(first_bad_dep(tasks@, i as int) == Some(i as int));
                assert((i as int) as usize == i);
                return Err(PlanError::DependencyInvalid { task_index: i });
            }
            k = k + 1;
        }
        assert(!(exists|q: int| 0 <= q < tasks@[i as int].depends_on@.len() && tasks@[i as int].depends_on@[q] >= tasks@.len()));
        assert(first_bad_dep(tasks@, i as int) == first_bad_dep(tasks@, i + 1));
        i = i + 1;
    }
    Ok(())
}

/// Sum of a task draft's sub-goal estimates fits in `u32` (a larger sum
/// overflows the stored column).
pub open spec fn estimates_fit(t: TaskDraft) -> bool {
    subgoal_sum(t.subgoals@) <= u32::MAX
}

/// A prefix never sums to more than the whole.
pub proof fn lemma_subgoal_sum_prefix(rows: Seq<SubGoalDraft>, j: int)
    requires
        0 <= j <= rows.len(),
    ensures
        subgoal_sum(rows.subrange(0, j)) <= subgoal_sum(rows),
        subgoal_sum(rows.subrange(0, j)) >= 0,
    decreases rows.len(),
{
    if rows.len() == 0 {
        assert(rows.subrange(0, j) =~= rows);
    } else if j == rows.len() {
        assert(rows.subrange(0, j) =~= rows);
        lemma_subgoal_sum_prefix(rows.drop_last(), j - 1);
    } else {
        lemma_subgoal_sum_prefix(rows.drop_last(), j);
        assert(rows.drop_last().subrange(0, j) =~= rows.subrange(0, j));
    }
}

/// Stored estimate of a task draft: the typed value, or the sum of its sub-goals.
pub fn effective_minutes(t: &TaskDraft) -> (r: Option<u32>)
    requires
        estimates_fit(*t),
    ensures
        match effective_minutes_spec(*t) {
            Some(m) => r == Some(m as u32),
            None => r is None,
        },
{
    if t.has_subgoals {
        let n = t.subgoals.len();
        let mut sum: u64 = 0;
        let mut j: usize = 0;
        while j < n
            invariant
                n == t.subgoals@.len(),
                j <= n,
                sum == subgoal_sum(t.subgoals@.subrange(0, j as int)),
                subgoal_sum(t.subgoals@) <= u32::MAX,
            decreases n - j,
        {
            assert(t.subgoals@.subrange(0, j + 1).drop_last() =~= t.subgoals@.subrange(0, j as int));
            proof {
                lemma_subgoal_sum_prefix(t.subgoals@, j + 1);
            }
            sum = sum + t.subgoals[j].estimated_minutes as u64;
            j = j + 1;
        }
        assert(t.subgoals@.subrange(0, n as int) =~= t.subgoals@);
        Some(sum as u32)
    } else {
        t.estimated_minutes
    }
}

} // verus!
