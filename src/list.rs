//! The task list: an ordered sequence of tasks addressed by 1-based position,
//! with a history of snapshots for undo.
use vstd::prelude::*;

use crate::date::{Date, MAX_YEAR};
use crate::task::{all_wf, due_date_valid, priority_in_range, segments_of, Segment, Task, TaskModel};
use crate::text::{contains, lower_of, matches_folded, same_text, to_lower, trim, trimmed};

verus! {

/// Why an operation on the list was rejected.
#[derive(Clone, Copy, Debug, PartialEq, Eq, Structural)]
pub enum TaskError {
    /// The position is not between 1 and the number of tasks.
    InvalidPosition,
    /// The description is empty once whitespace is trimmed.
    EmptyDescription,
    /// The priority is not between 1 and 5.
    PriorityOutOfRange,
    /// The due date is not a day of the calendar.
    InvalidDate,
    /// A task with the same description and priority is already listed.
    Duplicate,
    /// The text is not a whole number.
    NotANumber,
    /// The text is not a date written `YYYY-MM-DD`.
    MalformedDate,
}

/// The models of a sequence of tasks.
pub open spec fn models(v: Seq<Task>) -> Seq<TaskModel> {
    v.map_values(|t: Task| t@)
}

/// The list as a mathematical value: its tasks and its snapshots, the most
/// recent last.
pub struct ListModel {
    pub tasks: Seq<TaskModel>,
    pub history: Seq<Seq<TaskModel>>,
}

/// An ordered list of tasks together with its undo history.
pub struct TaskList {
    tasks: Vec<Task>,
    history: Vec<Vec<Task>>,
}

impl View for TaskList {
    type V = ListModel;

    closed spec fn view(&self) -> ListModel {
        ListModel {
            tasks: models(self.tasks@),
            history: self.history@.map_values(|v: Vec<Task>| models(v@)),
        }
    }
}

/// Whether `position` is a 1-based position of a list of `len` tasks.
pub open spec fn valid_position(len: nat, position: int) -> bool {
    1 <= position <= len
}

/// The task that adding `description` with `priority` and `due_date` appends.
pub open spec fn new_task(
    description: Seq<char>,
    priority: Option<u8>,
    due_date: Option<Date>,
) -> TaskModel {
    TaskModel { description: trimmed(description), completed: false, priority, due_date }
}

/// Why adding `description` with `priority` and `due_date` is rejected, if it
/// is.
pub open spec fn add_rejection(
    description: Seq<char>,
    priority: Option<u8>,
    due_date: Option<Date>,
) -> Option<TaskError> {
    if trimmed(description).len() == 0 {
        Some(TaskError::EmptyDescription)
    } else if !priority_in_range(priority) {
        Some(TaskError::PriorityOutOfRange)
    } else if !due_date_valid(due_date) {
        Some(TaskError::InvalidDate)
    } else {
        None
    }
}

/// Whether `tasks` holds a task with this description and priority.
pub open spec fn has_same(tasks: Seq<TaskModel>, description: Seq<char>, priority: Option<u8>) -> bool {
    exists|i: int|
        0 <= i < tasks.len() && (#[trigger] tasks[i]).description == description && tasks[i].priority
            == priority
}

/// `tasks` with the completion flag of the task at 0-based index `i` flipped.
pub open spec fn toggled(tasks: Seq<TaskModel>, i: int) -> Seq<TaskModel> {
    tasks.update(i, TaskModel { completed: !tasks[i].completed, ..tasks[i] })
}

/// `tasks` with the task at 0-based index `i` marked as done.
pub open spec fn completed_at(tasks: Seq<TaskModel>, i: int) -> Seq<TaskModel> {
    tasks.update(i, TaskModel { completed: true, ..tasks[i] })
}

/// `tasks` with the description of the task at 0-based index `i` replaced.
pub open spec fn edited(tasks: Seq<TaskModel>, i: int, description: Seq<char>) -> Seq<TaskModel> {
    tasks.update(i, TaskModel { description, ..tasks[i] })
}

/// `tasks` with the priority of the task at 0-based index `i` replaced.
pub open spec fn reprioritized(tasks: Seq<TaskModel>, i: int, priority: u8) -> Seq<TaskModel> {
    tasks.update(i, TaskModel { priority: Some(priority), ..tasks[i] })
}

/// The list after a snapshot of its tasks is taken.
pub open spec fn recorded(m: ListModel) -> ListModel {
    ListModel { tasks: m.tasks, history: m.history.push(m.tasks) }
}

/// The list after an undo: the latest snapshot becomes the tasks; with no
/// snapshot nothing changes.
pub open spec fn undone(m: ListModel) -> ListModel {
    if m.history.len() == 0 {
        m
    } else {
        ListModel { tasks: m.history.last(), history: m.history.drop_last() }
    }
}

/// Which tasks a listing shows.
#[derive(Clone, Copy, Debug, PartialEq, Eq, Structural)]
pub enum ViewFilter {
    All,
    Completed,
    Pending,
}

/// Whether a listing with `filter` shows `t`.
pub open spec fn shows(filter: ViewFilter) -> spec_fn(TaskModel) -> bool {
    |t: TaskModel|
        match filter {
            ViewFilter::All => true,
            ViewFilter::Completed => t.completed,
            ViewFilter::Pending => !t.completed,
        }
}

/// Whether a search for `keyword` finds `t`: the trimmed keyword stands in
/// the description when both are lowercased.
pub open spec fn finds(keyword: Seq<char>) -> spec_fn(TaskModel) -> bool {
    |t: TaskModel| contains(lower_of(t.description), lower_of(trimmed(keyword)))
}

/// The 0-based indices, in increasing order, of the tasks that satisfy `pred`.
pub open spec fn indices_where(tasks: Seq<TaskModel>, pred: spec_fn(TaskModel) -> bool) -> Seq<
    int,
>
    decreases tasks.len(),
{
    if tasks.len() == 0 {
        Seq::empty()
    } else {
        let rest = indices_where(tasks.drop_last(), pred);
        if pred(tasks.last()) {
            rest.push(tasks.len() - 1)
        } else {
            rest
        }
    }
}

/// The indices held by `v`, as integers.
pub open spec fn as_ints(v: Seq<usize>) -> Seq<int> {
    v.map_values(|i: usize| i as int)
}

proof fn lemma_indices_step(tasks: Seq<TaskModel>, pred: spec_fn(TaskModel) -> bool, i: int)
    requires
        0 <= i < tasks.len(),
    ensures
        indices_where(tasks.take(i + 1), pred) == if pred(tasks[i]) {
            indices_where(tasks.take(i), pred).push(i)
        } else {
            indices_where(tasks.take(i), pred)
        },
{
    assert(tasks.take(i + 1).drop_last() == tasks.take(i));
}

proof fn lemma_indices_bounded(tasks: Seq<TaskModel>, pred: spec_fn(TaskModel) -> bool)
    ensures
        forall|j: int|
            0 <= j < indices_where(tasks, pred).len() ==> 0 <= #[trigger] indices_where(
                tasks,
                pred,
            )[j] < tasks.len(),
    decreases tasks.len(),
{
    if tasks.len() > 0 {
        let rest = indices_where(tasks.drop_last(), pred);
        lemma_indices_bounded(tasks.drop_last(), pred);
        assert forall|j: int|
            0 <= j < indices_where(tasks, pred).len() implies 0 <= #[trigger] indices_where(
                tasks,
                pred,
            )[j] < tasks.len() by {
            if j < rest.len() {
                assert(indices_where(tasks, pred)[j] == rest[j]);
            }
        }
    }
}

/// The key by which the list can be sorted.
#[derive(Clone, Copy, Debug, PartialEq, Eq, Structural)]
pub enum SortKey {
    /// Ascending priority; tasks without one come last.
    Priority,
    /// Pending tasks before done ones.
    Status,
    /// Ascending due date; tasks without one come last.
    DueDate,
}

/// The rank of a task without a due date in a sort on due dates: above the
/// rank of every valid date.
pub open spec fn undated_rank() -> int {
    (MAX_YEAR + 1) * 10000
}

/// The rank of `t` in a sort on `key`; lower ranks come first.
pub open spec fn rank(t: TaskModel, key: SortKey) -> int {
    match key {
        SortKey::Priority => match t.priority {
            Some(p) => p as int,
            None => 99,
        },
        SortKey::Status => if t.completed {
            1
        } else {
            0
        },
        SortKey::DueDate => match t.due_date {
            Some(d) => d.ordinal_key(),
            None => undated_rank(),
        },
    }
}

/// Whether a task has rank `k` in a sort on `key`.
pub open spec fn has_rank(key: SortKey, k: int) -> spec_fn(TaskModel) -> bool {
    |t: TaskModel| rank(t, key) == k
}

/// Whether the ranks on `key` never decrease along `tasks`.
pub open spec fn ordered_by(tasks: Seq<TaskModel>, key: SortKey) -> bool {
    forall|a: int, b: int|
        0 <= a < b < tasks.len() ==> rank(#[trigger] tasks[a], key) <= rank(#[trigger] tasks[b], key)
}

/// Whether `result` is `original` sorted stably on `key`: ordered by rank,
/// and for every rank the tasks of that rank in their original order.
pub open spec fn stably_sorted(result: Seq<TaskModel>, original: Seq<TaskModel>, key: SortKey) -> bool {
    &&& result.len() == original.len()
    &&& ordered_by(result, key)
    &&& forall|k: int| #[trigger] result.filter(has_rank(key, k)) == original.filter(has_rank(key, k))
}

proof fn lemma_filter_push(s: Seq<TaskModel>, x: TaskModel, p: spec_fn(TaskModel) -> bool)
    ensures
        s.push(x).filter(p) == if p(x) {
            s.filter(p).push(x)
        } else {
            s.filter(p)
        },
{
    reveal(Seq::filter);
    assert(s.push(x).drop_last() == s);
}

proof fn lemma_filter_none(s: Seq<TaskModel>, p: spec_fn(TaskModel) -> bool)
    requires
        forall|i: int| 0 <= i < s.len() ==> !p(#[trigger] s[i]),
    ensures
        s.filter(p) == Seq::<TaskModel>::empty(),
    decreases s.len(),
{
    reveal(Seq::filter);
    if s.len() > 0 {
        lemma_filter_none(s.drop_last(), p);
    }
}

/// Inserting `x` into the ordered `o` at `j`, after every task of rank at
/// most that of `x` and before every task of greater rank, keeps `o` ordered
/// and appends `x` to the tasks of its rank.
proof fn lemma_insert_in_order(o: Seq<TaskModel>, j: int, x: TaskModel, key: SortKey)
    requires
        0 <= j <= o.len(),
        ordered_by(o, key),
        j > 0 ==> rank(o[j - 1], key) <= rank(x, key),
        forall|m: int| j <= m < o.len() ==> rank(#[trigger] o[m], key) > rank(x, key),
    ensures
        ordered_by(o.insert(j, x), key),
        forall|k: int|
            #[trigger] o.insert(j, x).filter(has_rank(key, k)) == if k == rank(x, key) {
                o.filter(has_rank(key, k)).push(x)
            } else {
                o.filter(has_rank(key, k))
            },
{
    let n = o.insert(j, x);
    assert forall|a: int, b: int| 0 <= a < b < n.len() implies rank(#[trigger] n[a], key) <= rank(
        #[trigger] n[b],
        key,
    ) by {
        if a < j {
            assert(rank(o[a], key) <= rank(x, key)) by {
                if a < j - 1 {
                    assert(rank(o[a], key) <= rank(o[j - 1], key));
                }
            }
            if b > j {
                assert(n[b] == o[b - 1]);
            }
        } else if a == j {
            assert(n[b] == o[b - 1]);
        } else {
            assert(n[a] == o[a - 1] && n[b] == o[b - 1]);
        }
    }
    let front = o.subrange(0, j);
    let back = o.subrange(j, o.len() as int);
    assert(o == front + back);
    assert(n == front.push(x) + back);
    assert forall|k: int| #[trigger] n.filter(has_rank(key, k)) == if k == rank(x, key) {
        o.filter(has_rank(key, k)).push(x)
    } else {
        o.filter(has_rank(key, k))
    } by {
        let p = has_rank(key, k);
        Seq::filter_distributes_over_add(front.push(x), back, p);
        Seq::filter_distributes_over_add(front, back, p);
        lemma_filter_push(front, x, p);
        if k == rank(x, key) {
            lemma_filter_none(back, p);
            assert(back.filter(p) == Seq::<TaskModel>::empty());
            assert(front.filter(p) + back.filter(p) == front.filter(p));
            assert(front.filter(p).push(x) + back.filter(p) == front.filter(p).push(x));
        }
    }
}

/// A copy of `tasks`.
pub fn copy_tasks(tasks: &Vec<Task>) -> (r: Vec<Task>)
    ensures
        r@ == tasks@,
{
    let mut out: Vec<Task> = Vec::new();
    for i in 0..tasks.len()
        invariant
            out@ == tasks@.take(i as int),
    {
        out.push(tasks[i].duplicate());
        assert(tasks@.take(i + 1) == tasks@.take(i as int).push(tasks@[i as int]));
    }
    assert(tasks@.take(tasks@.len() as int) == tasks@);
    out
}

impl Task {
    /// The rank of the task in a sort on `key`.
    pub fn rank(&self, key: SortKey) -> (r: i64)
        requires
            self@.wf(),
        ensures
            r == rank(self@, key),
    {
        match key {
            SortKey::Priority => match self.priority {
                Some(p) => p as i64,
                None => 99,
            },
            SortKey::Status => if self.completed {
                1
            } else {
                0
            },
            SortKey::DueDate => match &self.due_date {
                Some(d) => d.ordinal(),
                None => (MAX_YEAR as i64 + 1) * 10000,
            },
        }
    }
}

impl TaskList {
    /// The invariant: every task, listed or kept in a snapshot, is well formed.
    pub closed spec fn wf(&self) -> bool {
        &&& all_wf(self@.tasks)
        &&& forall|i: int| 0 <= i < self@.history.len() ==> all_wf(#[trigger] self@.history[i])
    }

    /// An empty list with no history.
    pub fn new() -> (r: TaskList)
        ensures
            r.wf(),
            r@.tasks.len() == 0,
            r@.history.len() == 0,
    {
        let r = TaskList { tasks: Vec::new(), history: Vec::new() };
        assert(r@.tasks =~= Seq::<TaskModel>::empty());
        assert(r@.history =~= Seq::<Seq<TaskModel>>::empty());
        r
    }

    /// A list of the given tasks, with no history.
    pub fn from_tasks(tasks: Vec<Task>) -> (r: TaskList)
        requires
            all_wf(models(tasks@)),
        ensures
            r.wf(),
            r@.tasks == models(tasks@),
            r@.history.len() == 0,
    {
        let r = TaskList { tasks, history: Vec::new() };
        assert(r@.history =~= Seq::<Seq<TaskModel>>::empty());
        r
    }

    /// The tasks, in order.
    pub fn tasks(&self) -> (r: &Vec<Task>)
        ensures
            models(r@) == self@.tasks,
            self.wf() ==> all_wf(models(r@)),
    {
        &self.tasks
    }

    /// The number of tasks.
    pub fn len(&self) -> (r: usize)
        ensures
            r == self@.tasks.len(),
    {
        self.tasks.len()
    }

    /// Whether the list holds no task.
    pub fn is_empty(&self) -> (r: bool)
        ensures
            r == (self@.tasks.len() == 0),
    {
        self.tasks.len() == 0
    }

    /// Whether there is a snapshot to go back to.
    pub fn can_undo(&self) -> (r: bool)
        ensures
            r == (self@.history.len() > 0),
    {
        self.history.len() > 0
    }

    /// Replaces the tasks wholesale, as loading or importing does; the history
    /// is kept.
    pub fn replace_tasks(&mut self, tasks: Vec<Task>)
        requires
            old(self).wf(),
            all_wf(models(tasks@)),
        ensures
            final(self).wf(),
            final(self)@ == (ListModel { tasks: models(tasks@), history: old(self)@.history }),
    {
        self.tasks = tasks;
    }

    /// Takes a snapshot of the tasks, to which `undo` goes back.
    pub fn record(&mut self)
        requires
            old(self).wf(),
        ensures
            final(self).wf(),
            final(self)@ == recorded(old(self)@),
    {
        let snapshot = copy_tasks(&self.tasks);
        self.history.push(snapshot);
        assert(self@.history =~= old(self)@.history.push(old(self)@.tasks));
    }

    /// Goes back to the latest snapshot and drops it. Returns false, and
    /// changes nothing, when there is none.
    pub fn undo(&mut self) -> (r: bool)
        requires
            old(self).wf(),
        ensures
            final(self).wf(),
            r == (old(self)@.history.len() > 0),
            final(self)@ == undone(old(self)@),
    {
        match self.history.pop() {
            Some(previous) => {
                assert(old(self)@.history.last() == models(previous@));
                self.tasks = previous;
                assert(self@.history =~= old(self)@.history.drop_last());
                true
            },
            None => false,
        }
    }

    /// Appends a pending task with the trimmed `description`. Rejected, with
    /// the list unchanged, when the trimmed description is empty, the priority
    /// is outside 1 to 5, or the due date does not exist.
    pub fn add_task(
        &mut self,
        description: &str,
        priority: Option<u8>,
        due_date: Option<Date>,
    ) -> (r: Result<(), TaskError>)
        requires
            old(self).wf(),
        ensures
            final(self).wf(),
            match add_rejection(description@, priority, due_date) {
                Some(e) => r == Err::<(), TaskError>(e) && final(self)@ == old(self)@,
                None => r is Ok && final(self)@ == (ListModel {
                    tasks: old(self)@.tasks.push(new_task(description@, priority, due_date)),
                    history: old(self)@.history,
                }),
            },
    {
        let text = trim(description);
        if text.as_str().is_empty() {
            return Err(TaskError::EmptyDescription);
        }
        if let Some(p) = priority {
            if p < 1 || p > 5 {
                return Err(TaskError::PriorityOutOfRange);
            }
        }
        if let Some(d) = &due_date {
            if !d.is_valid() {
                return Err(TaskError::InvalidDate);
            }
        }
        self.tasks.push(Task::new(text, priority, due_date));
        assert(self@.tasks =~= old(self)@.tasks.push(new_task(description@, priority, due_date)));
        Ok(())
    }

    /// Whether a task with this description and priority is listed.
    pub fn contains_task(&self, description: &str, priority: Option<u8>) -> (r: bool)
        ensures
            r == has_same(self@.tasks, description@, priority),
    {
        let mut i: usize = 0;
        while i < self.tasks.len()
            invariant
                i <= self@.tasks.len(),
                forall|j: int|
                    0 <= j < i ==> !((#[trigger] self@.tasks[j]).description == description@
                        && self@.tasks[j].priority == priority),
            decreases self@.tasks.len() - i,
        {
            let t = &self.tasks[i];
            assert(self@.tasks[i as int] == t@);
            if same_text(t.description.as_str(), description) && t.priority == priority {
                return true;
            }
            i += 1;
        }
        false
    }

    /// Like `add_task`, but also rejected when a task with the same trimmed
    /// description and the same priority is already listed.
    pub fn add_unique_task(
        &mut self,
        description: &str,
        priority: Option<u8>,
        due_date: Option<Date>,
    ) -> (r: Result<(), TaskError>)
        requires
            old(self).wf(),
        ensures
            final(self).wf(),
            add_rejection(description@, priority, due_date) is Some ==> r == Err::<(), TaskError>(
                add_rejection(description@, priority, due_date)->0,
            ) && final(self)@ == old(self)@,
            add_rejection(description@, priority, due_date) is None && has_same(
                old(self)@.tasks,
                trimmed(description@),
                priority,
            ) ==> r == Err::<(), TaskError>(TaskError::Duplicate) && final(self)@ == old(self)@,
            add_rejection(description@, priority, due_date) is None && !has_same(
                old(self)@.tasks,
                trimmed(description@),
                priority,
            ) ==> r is Ok && final(self)@ == (ListModel {
                tasks: old(self)@.tasks.push(new_task(description@, priority, due_date)),
                history: old(self)@.history,
            }),
    {
        let text = trim(description);
        let in_range = match priority {
            Some(p) => 1 <= p && p <= 5,
            None => true,
        };
        if !text.as_str().is_empty() && in_range {
            if let Some(d) = &due_date {
                if !d.is_valid() {
                    return Err(TaskError::InvalidDate);
                }
            }
            if self.contains_task(text.as_str(), priority) {
                return Err(TaskError::Duplicate);
            }
        }
        self.add_task(description, priority, due_date)
    }

    /// Removes the task at 1-based `position` and hands it back; the tasks
    /// after it move up by one. Rejected, with the list unchanged, when the
    /// position is out of range.
    pub fn remove_task(&mut self, position: usize) -> (r: Result<Task, TaskError>)
        requires
            old(self).wf(),
        ensures
            final(self).wf(),
            valid_position(old(self)@.tasks.len(), position as int) ==> r is Ok && r->Ok_0@
                == old(self)@.tasks[position - 1] && final(self)@ == (ListModel {
                tasks: old(self)@.tasks.remove(position - 1),
                history: old(self)@.history,
            }),
            !valid_position(old(self)@.tasks.len(), position as int) ==> r == Err::<Task, TaskError>(
                TaskError::InvalidPosition,
            ) && final(self)@ == old(self)@,
    {
        if position < 1 || position > self.tasks.len() {
            return Err(TaskError::InvalidPosition);
        }
        let removed = self.tasks.remove(position - 1);
        assert(self@.tasks =~= old(self)@.tasks.remove(position - 1));
        Ok(removed)
    }

    /// Replaces the description of the task at 1-based `position` with the
    /// trimmed `description`. Rejected, with the list unchanged, when the
    /// position is out of range or else the trimmed description is empty.
    pub fn edit_task(&mut self, position: usize, description: &str) -> (r: Result<(), TaskError>)
        requires
            old(self).wf(),
        ensures
            final(self).wf(),
            !valid_position(old(self)@.tasks.len(), position as int) ==> r == Err::<(), TaskError>(
                TaskError::InvalidPosition,
            ) && final(self)@ == old(self)@,
            valid_position(old(self)@.tasks.len(), position as int) && trimmed(description@).len()
                == 0 ==> r == Err::<(), TaskError>(TaskError::EmptyDescription) && final(self)@
                == old(self)@,
            valid_position(old(self)@.tasks.len(), position as int) && trimmed(description@).len()
                > 0 ==> r is Ok && final(self)@ == (ListModel {
                tasks: edited(old(self)@.tasks, position - 1, trimmed(description@)),
                history: old(self)@.history,
            }),
    {
        if position < 1 || position > self.tasks.len() {
            return Err(TaskError::InvalidPosition);
        }
        let text = trim(description);
        if text.as_str().is_empty() {
            return Err(TaskError::EmptyDescription);
        }
        let mut t = self.tasks[position - 1].duplicate();
        t.description = text;
        self.tasks.set(position - 1, t);
        assert(self@.tasks =~= edited(old(self)@.tasks, position - 1, trimmed(description@)));
        Ok(())
    }

    /// Flips whether the task at 1-based `position` is done, and returns its
    /// new state. Rejected, with the list unchanged, when the position is out
    /// of range.
    pub fn toggle_complete(&mut self, position: usize) -> (r: Result<bool, TaskError>)
        requires
            old(self).wf(),
        ensures
            final(self).wf(),
            valid_position(old(self)@.tasks.len(), position as int) ==> r == Ok::<bool, TaskError>(
                !old(self)@.tasks[position - 1].completed,
            ) && final(self)@ == (ListModel {
                tasks: toggled(old(self)@.tasks, position - 1),
                history: old(self)@.history,
            }),
            !valid_position(old(self)@.tasks.len(), position as int) ==> r == Err::<bool, TaskError>(
                TaskError::InvalidPosition,
            ) && final(self)@ == old(self)@,
    {
        if position < 1 || position > self.tasks.len() {
            return Err(TaskError::InvalidPosition);
        }
        let mut t = self.tasks[position - 1].duplicate();
        t.completed = !t.completed;
        let now = t.completed;
        self.tasks.set(position - 1, t);
        assert(self@.tasks =~= toggled(old(self)@.tasks, position - 1));
        Ok(now)
    }

    /// Marks the task at 1-based `position` as done. Rejected, with the list
    /// unchanged, when the position is out of range.
    pub fn mark_complete(&mut self, position: usize) -> (r: Result<(), TaskError>)
        requires
            old(self).wf(),
        ensures
            final(self).wf(),
            valid_position(old(self)@.tasks.len(), position as int) ==> r is Ok && final(self)@ == (
            ListModel {
                tasks: completed_at(old(self)@.tasks, position - 1),
                history: old(self)@.history,
            }),
            !valid_position(old(self)@.tasks.len(), position as int) ==> r == Err::<(), TaskError>(
                TaskError::InvalidPosition,
            ) && final(self)@ == old(self)@,
    {
        if position < 1 || position > self.tasks.len() {
            return Err(TaskError::InvalidPosition);
        }
        let mut t = self.tasks[position - 1].duplicate();
        t.completed = true;
        self.tasks.set(position - 1, t);
        assert(self@.tasks =~= completed_at(old(self)@.tasks, position - 1));
        Ok(())
    }

    /// Sets the priority of the task at 1-based `position`. Rejected, with the
    /// list unchanged, when the position is out of range or else the priority
    /// is outside 1 to 5.
    pub fn change_priority(&mut self, position: usize, priority: u8) -> (r: Result<(), TaskError>)
        requires
            old(self).wf(),
        ensures
            final(self).wf(),
            !valid_position(old(self)@.tasks.len(), position as int) ==> r == Err::<(), TaskError>(
                TaskError::InvalidPosition,
            ) && final(self)@ == old(self)@,
            valid_position(old(self)@.tasks.len(), position as int) && !(1 <= priority <= 5)
                ==> r == Err::<(), TaskError>(TaskError::PriorityOutOfRange) && final(self)@ == old(
                self,
            )@,
            valid_position(old(self)@.tasks.len(), position as int) && 1 <= priority <= 5 ==> r is Ok
                && final(self)@ == (ListModel {
                tasks: reprioritized(old(self)@.tasks, position - 1, priority),
                history: old(self)@.history,
            }),
    {
        if position < 1 || position > self.tasks.len() {
            return Err(TaskError::InvalidPosition);
        }
        if priority < 1 || priority > 5 {
            return Err(TaskError::PriorityOutOfRange);
        }
        let mut t = self.tasks[position - 1].duplicate();
        t.priority = Some(priority);
        self.tasks.set(position - 1, t);
        assert(self@.tasks =~= reprioritized(old(self)@.tasks, position - 1, priority));
        Ok(())
    }

    /// The 0-based indices of the tasks that a listing with `filter` shows,
    /// in list order.
    pub fn positions(&self, filter: ViewFilter) -> (r: Vec<usize>)
        ensures
            as_ints(r@) == indices_where(self@.tasks, shows(filter)),
    {
        let mut out: Vec<usize> = Vec::new();
        for i in 0..self.tasks.len()
            invariant
                as_ints(out@) == indices_where(self@.tasks.take(i as int), shows(filter)),
        {
            proof {
                lemma_indices_step(self@.tasks, shows(filter), i as int);
            }
            let t = &self.tasks[i];
            assert(self@.tasks[i as int] == t@);
            let shown = match filter {
                ViewFilter::All => true,
                ViewFilter::Completed => t.completed,
                ViewFilter::Pending => !t.completed,
            };
            if shown {
                out.push(i);
            }
            assert(as_ints(out@) == indices_where(self@.tasks.take(i + 1), shows(filter)));
        }
        assert(self@.tasks.take(self@.tasks.len() as int) == self@.tasks);
        out
    }

    /// The 0-based indices of the tasks whose description holds the trimmed
    /// `keyword`, ignoring case, in list order.
    pub fn search_tasks(&self, keyword: &str) -> (r: Vec<usize>)
        ensures
            as_ints(r@) == indices_where(self@.tasks, finds(keyword@)),
    {
        let key = trim(keyword);
        let folded_key = to_lower(key.as_str());
        let mut out: Vec<usize> = Vec::new();
        for i in 0..self.tasks.len()
            invariant
                folded_key@ == lower_of(trimmed(keyword@)),
                as_ints(out@) == indices_where(self@.tasks.take(i as int), finds(keyword@)),
        {
            proof {
                lemma_indices_step(self@.tasks, finds(keyword@), i as int);
            }
            let t = &self.tasks[i];
            assert(self@.tasks[i as int] == t@);
            let folded = to_lower(t.description.as_str());
            if matches_folded(folded.as_str(), folded_key.as_str()) {
                out.push(i);
            }
            assert(as_ints(out@) == indices_where(self@.tasks.take(i + 1), finds(keyword@)));
        }
        assert(self@.tasks.take(self@.tasks.len() as int) == self@.tasks);
        out
    }

    /// The listing lines of the tasks that `filter` shows, each numbered by
    /// its position in the whole list; `today` decides which due dates have
    /// passed.
    pub fn view_tasks(&self, filter: ViewFilter, today: &Date) -> (r: Vec<Vec<Segment>>)
        requires
            self.wf(),
        ensures
            r@.len() == indices_where(self@.tasks, shows(filter)).len(),
            forall|j: int|
                0 <= j < r@.len() ==> (#[trigger] r@[j])@.map_values(|s: Segment| s@)
                    == segments_of(
                    self@.tasks[indices_where(self@.tasks, shows(filter))[j]],
                    indices_where(self@.tasks, shows(filter))[j] as nat,
                    *today,
                ),
    {
        let shown = self.positions(filter);
        proof {
            lemma_indices_bounded(self@.tasks, shows(filter));
        }
        let n = self.tasks.len();
        assert forall|j: int| 0 <= j < shown@.len() implies 0 <= #[trigger] shown@[j]
            < self@.tasks.len() by {
            assert(as_ints(shown@)[j] == shown@[j] as int);
        }
        let mut lines: Vec<Vec<Segment>> = Vec::new();
        for k in 0..shown.len()
            invariant
                self.wf(),
                n == self@.tasks.len(),
                as_ints(shown@) == indices_where(self@.tasks, shows(filter)),
                forall|j: int|
                    0 <= j < shown@.len() ==> 0 <= #[trigger] shown@[j] < self@.tasks.len(),
                lines@.len() == k,
                forall|j: int|
                    0 <= j < k ==> (#[trigger] lines@[j])@.map_values(|s: Segment| s@)
                        == segments_of(self@.tasks[shown@[j] as int], shown@[j] as nat, *today),
        {
            let i = shown[k];
            assert(as_ints(shown@)[k as int] == i as int);
            assert(self@.tasks[i as int] == self.tasks@[i as int]@);
            lines.push(self.tasks[i].display(i, today));
        }
        assert forall|j: int| 0 <= j < lines@.len() implies (#[trigger] lines@[j])@.map_values(
            |s: Segment| s@,
        ) == segments_of(
            self@.tasks[indices_where(self@.tasks, shows(filter))[j]],
            indices_where(self@.tasks, shows(filter))[j] as nat,
            *today,
        ) by {
            assert(as_ints(shown@)[j] == shown@[j] as int);
        }
        lines
    }

    /// Sorts the tasks on `key`, keeping the order of tasks of equal rank.
    pub fn sort_tasks(&mut self, key: SortKey)
        requires
            old(self).wf(),
        ensures
            final(self).wf(),
            final(self)@.history == old(self)@.history,
            stably_sorted(final(self)@.tasks, old(self)@.tasks, key),
    {
        let ghost original = self@.tasks;
        let mut out: Vec<Task> = Vec::new();
        let n = self.tasks.len();
        for i in 0..n
            invariant
                n == self@.tasks.len(),
                self.wf(),
                original == self@.tasks,
                all_wf(models(out@)),
                out@.len() == i,
                ordered_by(models(out@), key),
                forall|k: int| #[trigger]
                    models(out@).filter(has_rank(key, k)) == original.take(i as int).filter(
                        has_rank(key, k),
                    ),
        {
            let t = self.tasks[i].duplicate();
            assert(t@ == original[i as int]);
            assert(t@.wf());
            let r = t.rank(key);
            let mut j = out.len();
            while j > 0
                invariant
                    j <= out@.len(),
                    all_wf(models(out@)),
                    r == rank(t@, key),
                    forall|m: int|
                        j <= m < out@.len() ==> rank(#[trigger] models(out@)[m], key) > r,
                ensures
                    j <= out@.len(),
                    j > 0 ==> rank(models(out@)[j - 1], key) <= r,
                    forall|m: int|
                        j <= m < out@.len() ==> rank(#[trigger] models(out@)[m], key) > r,
                decreases j,
            {
                assert(models(out@)[j - 1] == out@[j - 1]@);
                if out[j - 1].rank(key) <= r {
                    break;
                }
                j -= 1;
            }
            let ghost o = models(out@);
            proof {
                if j > 0 {
                    assert(o[j - 1] == out@[j - 1]@);
                }
                lemma_insert_in_order(o, j as int, t@, key);
                assert(original.take(i + 1) == original.take(i as int).push(t@));
                assert forall|k: int| #[trigger]
                    original.take(i + 1).filter(has_rank(key, k)) == if k == rank(t@, key) {
                        original.take(i as int).filter(has_rank(key, k)).push(t@)
                    } else {
                        original.take(i as int).filter(has_rank(key, k))
                    } by {
                    lemma_filter_push(original.take(i as int), t@, has_rank(key, k));
                }
            }
            assert(all_wf(o.insert(j as int, t@))) by {
                assert forall|m: int| 0 <= m < o.insert(j as int, t@).len() implies (
                #[trigger] o.insert(j as int, t@)[m]).wf() by {
                    if m > j {
                        assert(o.insert(j as int, t@)[m] == o[m - 1]);
                    }
                }
            }
            out.insert(j, t);
            assert(models(out@) == o.insert(j as int, t@));
        }
        assert(original.take(n as int) == original);
        self.tasks = out;
        assert(self@.history == old(self)@.history);
        assert(all_wf(self@.tasks));
        assert(forall|i: int|
            0 <= i < self@.history.len() ==> all_wf(#[trigger] self@.history[i]));
    }
}

// ---------------------------------------------------------------------------
// Laws
// ---------------------------------------------------------------------------

/// Adding a task whose trimmed description is not empty, with a priority
/// from 1 to 5, makes a listing of all tasks show exactly one more entry, at
/// the end; that task is pending and carries the trimmed description and the
/// priority. The listing of pending tasks grows by the same entry.
pub proof fn lemma_add_then_view(tasks: Seq<TaskModel>, description: Seq<char>, priority: u8)
    requires
        trimmed(description).len() > 0,
        1 <= priority <= 5,
    ensures
        add_rejection(description, Some(priority), None) is None,
        ({
            let after = tasks.push(new_task(description, Some(priority), None));
            &&& indices_where(after, shows(ViewFilter::All)) == indices_where(
                tasks,
                shows(ViewFilter::All),
            ).push(tasks.len() as int)
            &&& indices_where(after, shows(ViewFilter::Pending)) == indices_where(
                tasks,
                shows(ViewFilter::Pending),
            ).push(tasks.len() as int)
            &&& !after[tasks.len() as int].completed
            &&& after[tasks.len() as int].description == trimmed(description)
            &&& after[tasks.len() as int].priority == Some(priority)
        }),
{
    let after = tasks.push(new_task(description, Some(priority), None));
    assert(after.drop_last() == tasks);
}

/// Removing the task at a valid 1-based position leaves one task fewer: the
/// tasks before it stay where they were, and those after it move up by one.
pub proof fn lemma_remove_shifts(tasks: Seq<TaskModel>, position: int)
    requires
        valid_position(tasks.len(), position),
    ensures
        tasks.remove(position - 1).len() == tasks.len() - 1,
        forall|j: int| 0 <= j < position - 1 ==> #[trigger] tasks.remove(position - 1)[j] == tasks[j],
        forall|j: int|
            position - 1 <= j < tasks.len() - 1 ==> #[trigger] tasks.remove(position - 1)[j]
                == tasks[j + 1],
{
}

/// Toggling the completion of the same task twice gives back the tasks as
/// they were.
pub proof fn lemma_toggle_twice(tasks: Seq<TaskModel>, position: int)
    requires
        valid_position(tasks.len(), position),
    ensures
        toggled(toggled(tasks, position - 1), position - 1) == tasks,
{
    assert(toggled(toggled(tasks, position - 1), position - 1) =~= tasks);
}

/// In a sort on due dates, a task without a due date ranks above every task
/// with one, so it comes after all of them.
pub proof fn lemma_undated_last(dated: TaskModel, undated: TaskModel)
    requires
        dated.wf(),
        dated.due_date is Some,
        undated.due_date is None,
    ensures
        rank(dated, SortKey::DueDate) < rank(undated, SortKey::DueDate),
{
}

/// Undoing after a snapshot and one operation, which changes the tasks and
/// keeps the history, gives back the list exactly as it was before the
/// snapshot. With no snapshot, undo changes nothing.
pub proof fn lemma_undo_restores(before: ListModel, changed: Seq<TaskModel>)
    ensures
        undone(ListModel { tasks: changed, history: recorded(before).history }) == before,
        before.history.len() == 0 ==> undone(before) == before,
{
    assert(before.history.push(before.tasks).drop_last() == before.history);
}

} // verus!
