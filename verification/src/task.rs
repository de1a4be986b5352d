//! The task data model: a single `Task` record and the `TaskVec` collection
//! that owns an ordered sequence of tasks and an identifier allocator.

use vstd::prelude::*;

verus! {

/// The lifecycle state of a task. A new task starts as `Todo`; `mark` may
/// move a task from any state to any other.
#[derive(Clone, Copy, Debug, PartialEq, Eq, Structural)]
pub enum Status {
    Todo,
    Skip,
    InProgress,
    Done,
}

/// The one domain error: an operation named an id that no task in the
/// collection has.
#[derive(Clone, Copy, Debug, PartialEq, Eq, Structural)]
pub enum TaskError {
    NotFound,
}

/// The mathematical value of a `Task`: its fields as plain values, with the
/// text fields as character sequences and the timestamps as milliseconds.
#[verifier::ext_equal]
pub ghost struct TaskModel {
    pub id: u64,
    pub name: Seq<char>,
    pub description: Seq<char>,
    pub status: Status,
    pub created: u64,
    pub updated: u64,
}

/// A task was never touched before it was created.
pub open spec fn task_wf(t: TaskModel) -> bool {
    t.updated >= t.created
}

/// A single to-do item: identity, text fields, status, and timestamps.
/// Timestamps are milliseconds on the system clock, taken when the task is
/// created or mutated.
pub struct Task {
    id: u64,
    name: String,
    description: String,
    status: Status,
    created: u64,
    updated: u64,
}

impl View for Task {
    type V = TaskModel;

    closed spec fn view(&self) -> TaskModel {
        TaskModel {
            id: self.id,
            name: self.name@,
            description: self.description@,
            status: self.status,
            created: self.created,
            updated: self.updated,
        }
    }
}

/// Relies on std's `SystemTime::now`: reads the system clock as milliseconds
/// since the Unix epoch, and as 0 on a clock set before the epoch, so the
/// read cannot abort. Nothing is assumed of the value; callers treat it as
/// arbitrary.
#[verifier::external_body]
fn now_millis() -> u64 {
    std::time::SystemTime::now()
        .duration_since(std::time::UNIX_EPOCH)
        .map(|d| d.as_millis() as u64)
        .unwrap_or(0)
}

/// The later of the current `updated` stamp and the clock reading, so that
/// `updated` never moves backwards even if the clock does.
fn refreshed(updated: u64, now: u64) -> (r: u64)
    ensures
        r >= updated,
        r >= now,
        r == updated || r == now,
{
    if now > updated {
        now
    } else {
        updated
    }
}

impl Task {
    /// Builds a fresh task: status `Todo`, created and updated set to the
    /// same clock reading.
    pub fn new(id: u64, name: String, description: String) -> (r: Task)
        ensures
            r@.id == id,
            r@.name == name@,
            r@.description == description@,
            r@.status == Status::Todo,
            r@.created == r@.updated,
            task_wf(r@),
    {
        let now = now_millis();
        Task { id, name, description, status: Status::Todo, created: now, updated: now }
    }

    /// Rebuilds a task from its stored fields; used when decoding persisted
    /// state.
    pub(crate) fn from_parts(
        id: u64,
        name: String,
        description: String,
        status: Status,
        created: u64,
        updated: u64,
    ) -> (r: Task)
        requires
            updated >= created,
        ensures
            r@ == (TaskModel {
                id,
                name: name@,
                description: description@,
                status,
                created,
                updated,
            }),
    {
        Task { id, name, description, status, created, updated }
    }

    pub fn id(&self) -> (r: u64)
        ensures
            r == self@.id,
    {
        self.id
    }

    pub fn name(&self) -> (r: &str)
        ensures
            r@ == self@.name,
    {
        self.name.as_str()
    }

    pub fn description(&self) -> (r: &str)
        ensures
            r@ == self@.description,
    {
        self.description.as_str()
    }

    pub fn status(&self) -> (r: &Status)
        ensures
            *r == self@.status,
    {
        &self.status
    }

    pub fn created(&self) -> (r: u64)
        ensures
            r == self@.created,
    {
        self.created
    }

    pub fn updated(&self) -> (r: u64)
        ensures
            r == self@.updated,
    {
        self.updated
    }

    /// Replaces the name and refreshes the `updated` stamp.
    pub fn set_name(&mut self, name: String)
        requires
            task_wf(old(self)@),
        ensures
            final(self)@.name == name@,
            final(self)@.id == old(self)@.id,
            final(self)@.description == old(self)@.description,
            final(self)@.status == old(self)@.status,
            final(self)@.created == old(self)@.created,
            final(self)@.updated >= old(self)@.updated,
            task_wf(final(self)@),
    {
        self.name = name;
        self.updated = refreshed(self.updated, now_millis());
    }

    /// Replaces the description and refreshes the `updated` stamp.
    pub fn set_description(&mut self, description: String)
        requires
            task_wf(old(self)@),
        ensures
            final(self)@.description == description@,
            final(self)@.id == old(self)@.id,
            final(self)@.name == old(self)@.name,
            final(self)@.status == old(self)@.status,
            final(self)@.created == old(self)@.created,
            final(self)@.updated >= old(self)@.updated,
            task_wf(final(self)@),
    {
        self.description = description;
        self.updated = refreshed(self.updated, now_millis());
    }

    /// Replaces the status and refreshes the `updated` stamp.
    pub fn set_status(&mut self, status: Status)
        requires
            task_wf(old(self)@),
        ensures
            final(self)@.status == status,
            final(self)@.id == old(self)@.id,
            final(self)@.name == old(self)@.name,
            final(self)@.description == old(self)@.description,
            final(self)@.created == old(self)@.created,
            final(self)@.updated >= old(self)@.updated,
            task_wf(final(self)@),
    {
        self.status = status;
        self.updated = refreshed(self.updated, now_millis());
    }
}

impl Clone for Task {
    /// A clone carries the same model: same id, texts, status, and stamps.
    fn clone(&self) -> (r: Self)
        ensures
            r@ == self@,
    {
        Task {
            id: self.id,
            name: self.name.clone(),
            description: self.description.clone(),
            status: self.status,
            created: self.created,
            updated: self.updated,
        }
    }
}

/// The mathematical value of a `TaskVec`: the task models in collection
/// order, and the next identifier to issue.
#[verifier::ext_equal]
pub ghost struct TasksView {
    pub tasks: Seq<TaskModel>,
    pub next_id: u64,
}

/// The collection invariant: ids are pairwise distinct, every task is
/// well-formed, and every id already issued lies below `next_id`.
pub open spec fn wf_view(v: TasksView) -> bool {
    &&& forall|i: int, j: int|
        0 <= i < j < v.tasks.len() ==> v.tasks[i].id != v.tasks[j].id
    &&& forall|i: int| 0 <= i < v.tasks.len() ==> task_wf(#[trigger] v.tasks[i])
    &&& forall|i: int| 0 <= i < v.tasks.len() ==> (#[trigger] v.tasks[i]).id < v.next_id
}

/// Some task in `s` has the identifier `id`.
pub open spec fn has_id(s: Seq<TaskModel>, id: u64) -> bool {
    exists|i: int| 0 <= i < s.len() && (#[trigger] s[i]).id == id
}

/// The position of the task with identifier `id`; meaningful when
/// `has_id(s, id)` holds and ids are distinct.
pub open spec fn idx_of(s: Seq<TaskModel>, id: u64) -> int {
    choose|i: int| 0 <= i < s.len() && (#[trigger] s[i]).id == id
}

/// With pairwise distinct ids, a position holding `id` is the position
/// `idx_of` picks.
proof fn lemma_idx_of_unique(s: Seq<TaskModel>, id: u64, i: int)
    requires
        forall|p: int, q: int| 0 <= p < q < s.len() ==> s[p].id != s[q].id,
        0 <= i < s.len(),
        s[i].id == id,
    ensures
        has_id(s, id),
        idx_of(s, id) == i,
{
    assert(has_id(s, id));
    let k = idx_of(s, id);
    if k < i {
        assert(s[k].id != s[i].id);
    } else if k > i {
        assert(s[i].id != s[k].id);
    }
}

/// The relation between a collection before and after a successful `add`
/// that appended the task `t`.
pub open spec fn add_result(pre: TasksView, post: TasksView, t: TaskModel) -> bool {
    &&& post.tasks == pre.tasks.push(t)
    &&& t.id == pre.next_id
    &&& post.next_id == pre.next_id + 1
}

/// Law: across any sequence of adds, issued ids strictly increase and are
/// never reused. Two consecutive adds issue `t1` then `t2` with
/// `t1.id < t2.id`; every id already present lies below `t1.id`; and the
/// ids of the resulting collection stay pairwise distinct.
pub proof fn lemma_add_ids_strictly_increase(
    v0: TasksView,
    v1: TasksView,
    t1: TaskModel,
    v2: TasksView,
    t2: TaskModel,
)
    requires
        wf_view(v0),
        add_result(v0, v1, t1),
        add_result(v1, v2, t2),
    ensures
        t1.id < t2.id,
        forall|i: int| 0 <= i < v0.tasks.len() ==> (#[trigger] v0.tasks[i]).id < t1.id,
        forall|i: int, j: int|
            0 <= i < j < v2.tasks.len() ==> v2.tasks[i].id != v2.tasks[j].id,
{
    let n = v0.tasks.len() as int;
    assert(v2.tasks.len() == n + 2);
    assert forall|i: int, j: int|
        0 <= i < j < v2.tasks.len() implies v2.tasks[i].id != v2.tasks[j].id by {
        if i < n {
            assert(v2.tasks[i] == v0.tasks[i]);
            assert(v0.tasks[i].id < v0.next_id);
        } else if i == n {
            assert(v2.tasks[i] == t1);
        }
        if j < n {
            assert(v2.tasks[j] == v0.tasks[j]);
        } else if j == n {
            assert(v2.tasks[j] == t1);
        } else {
            assert(v2.tasks[j] == t2);
        }
    }
}

/// The in-memory store of all tasks: an ordered sequence (insertion order is
/// the display order) plus a monotonically increasing id allocator.
pub struct TaskVec {
    tasks: Vec<Task>,
    next_id: u64,
}

impl View for TaskVec {
    type V = TasksView;

    closed spec fn view(&self) -> TasksView {
        TasksView { tasks: self.tasks@.map_values(|t: Task| t@), next_id: self.next_id }
    }
}

impl TaskVec {
    /// The collection invariant, stated of the model.
    pub open spec fn wf(&self) -> bool {
        wf_view(self@)
    }

    /// An empty collection that will issue ids from 0.
    pub fn new() -> (r: TaskVec)
        ensures
            r@.tasks == Seq::<TaskModel>::empty(),
            r@.next_id == 0,
            r.wf(),
    {
        let r = TaskVec { tasks: Vec::new(), next_id: 0 };
        proof {
            assert(r@.tasks =~= Seq::<TaskModel>::empty());
        }
        r
    }

    /// Rebuilds a collection from decoded parts; used when loading persisted
    /// state.
    pub(crate) fn from_parts(tasks: Vec<Task>, next_id: u64) -> (r: TaskVec)
        ensures
            r@.tasks == tasks@.map_values(|t: Task| t@),
            r@.next_id == next_id,
    {
        TaskVec { tasks, next_id }
    }

    /// The number of tasks held.
    pub fn len(&self) -> (r: usize)
        ensures
            r == self@.tasks.len(),
    {
        self.tasks.len()
    }

    /// The next identifier the collection will issue.
    pub fn next_id(&self) -> (r: u64)
        ensures
            r == self@.next_id,
    {
        self.next_id
    }

    /// The task at a position in insertion order.
    pub fn get(&self, i: usize) -> (r: &Task)
        requires
            i < self@.tasks.len(),
        ensures
            r@ == self@.tasks[i as int],
    {
        &self.tasks[i]
    }

    /// The position of the task with identifier `id`, scanning in insertion
    /// order.
    fn find_index(&self, id: u64) -> (r: Option<usize>)
        ensures
            match r {
                Some(i) => i < self@.tasks.len() && self@.tasks[i as int].id == id,
                None => !has_id(self@.tasks, id),
            },
    {
        let n = self.tasks.len();
        let mut i: usize = 0;
        while i < n
            invariant
                n == self@.tasks.len(),
                i <= n,
                forall|j: int| 0 <= j < i ==> (#[trigger] self@.tasks[j]).id != id,
            decreases n - i,
        {
            if self.tasks[i].id() == id {
                return Some(i);
            }
            i = i + 1;
        }
        None
    }

    /// Allocates the next id, appends a fresh `Todo` task built from the
    /// given texts, and returns a copy of the new record. Returns `None`
    /// only when the id space is exhausted.
    pub fn add(&mut self, name: &str, desc: &str) -> (r: Option<Task>)
        requires
            old(self).wf(),
        ensures
            final(self).wf(),
            old(self)@.next_id < u64::MAX ==> (r matches Some(t)
                && add_result(old(self)@, final(self)@, t@)
                && t@.name == name@
                && t@.description == desc@
                && t@.status == Status::Todo
                && t@.created == t@.updated),
            old(self)@.next_id == u64::MAX ==> r is None && final(self)@ == old(self)@,
    {
        if self.next_id == u64::MAX {
            return None;
        }
        let task = Task::new(self.next_id, name.to_owned(), desc.to_owned());
        let out = task.clone();
        self.tasks.push(task);
        self.next_id = self.next_id + 1;
        proof {
            assert(self@.tasks =~= old(self)@.tasks.push(out@));
        }
        Some(out)
    }

    /// Removes the task with the given id and returns it; the tasks around
    /// it keep their order. Fails with `NotFound`, leaving the collection
    /// unchanged, exactly when no task has that id.
    pub fn del(&mut self, id: u64) -> (r: Result<Task, TaskError>)
        requires
            old(self).wf(),
        ensures
            final(self).wf(),
            has_id(old(self)@.tasks, id) ==> (r matches Ok(t)
                && t@ == old(self)@.tasks[idx_of(old(self)@.tasks, id)]
                && final(self)@.tasks == old(self)@.tasks.remove(idx_of(old(self)@.tasks, id))
                && final(self)@.tasks.len() + 1 == old(self)@.tasks.len()
                && final(self)@.next_id == old(self)@.next_id),
            !has_id(old(self)@.tasks, id) ==> r == Result::<Task, TaskError>::Err(
                TaskError::NotFound,
            ) && final(self)@ == old(self)@,
    {
        match self.find_index(id) {
            Some(i) => {
                proof {
                    lemma_idx_of_unique(self@.tasks, id, i as int);
                }
                let t = self.tasks.remove(i);
                proof {
                    assert(self@.tasks =~= old(self)@.tasks.remove(i as int));
                }
                Ok(t)
            },
            None => Err(TaskError::NotFound),
        }
    }

    /// Replaces the name and/or description of the task with the given id,
    /// refreshing its `updated` stamp if anything was supplied; everything
    /// else is untouched. Fails with `NotFound`, leaving the collection
    /// unchanged, exactly when no task has that id.
    pub fn update(&mut self, id: u64, name: Option<&str>, desc: Option<&str>) -> (r: Result<
        Task,
        TaskError,
    >)
        requires
            old(self).wf(),
        ensures
            final(self).wf(),
            !has_id(old(self)@.tasks, id) ==> r == Result::<Task, TaskError>::Err(
                TaskError::NotFound,
            ) && final(self)@ == old(self)@,
            has_id(old(self)@.tasks, id) ==> ({
                let i = idx_of(old(self)@.tasks, id);
                let pre = old(self)@.tasks[i];
                let post = final(self)@.tasks[i];
                &&& r matches Ok(t) && t@ == post
                &&& final(self)@.tasks.len() == old(self)@.tasks.len()
                &&& forall|j: int|
                    0 <= j < final(self)@.tasks.len() && j != i ==> final(self)@.tasks[j] == old(
                        self,
                    )@.tasks[j]
                &&& final(self)@.next_id == old(self)@.next_id
                &&& post.id == pre.id
                &&& post.status == pre.status
                &&& post.created == pre.created
                &&& post.name == (match name {
                    Some(n) => n@,
                    None => pre.name,
                })
                &&& post.description == (match desc {
                    Some(d) => d@,
                    None => pre.description,
                })
                &&& post.updated >= pre.updated
                &&& post.updated >= post.created
                &&& (name is None && desc is None) ==> post == pre
            }),
    {
        let i = match self.find_index(id) {
            Some(i) => i,
            None => {
                return Err(TaskError::NotFound);
            },
        };
        proof {
            lemma_idx_of_unique(self@.tasks, id, i as int);
        }
        let mut t = self.tasks.remove(i);
        if let Some(n) = name {
            t.set_name(n.to_owned());
        }
        if let Some(d) = desc {
            t.set_description(d.to_owned());
        }
        let out = t.clone();
        self.tasks.insert(i, t);
        proof {
            assert forall|j: int|
                0 <= j < self@.tasks.len() && j != i as int implies self@.tasks[j] == old(
                self,
            )@.tasks[j] by {
                assert(self@.tasks.len() == old(self)@.tasks.len());
            }
        }
        Ok(out)
    }

    /// Sets the status of the task with the given id and refreshes its
    /// `updated` stamp; everything else is untouched. Fails with `NotFound`,
    /// leaving the collection unchanged, exactly when no task has that id.
    pub fn mark(&mut self, id: u64, status: &Status) -> (r: Result<Task, TaskError>)
        requires
            old(self).wf(),
        ensures
            final(self).wf(),
            !has_id(old(self)@.tasks, id) ==> r == Result::<Task, TaskError>::Err(
                TaskError::NotFound,
            ) && final(self)@ == old(self)@,
            has_id(old(self)@.tasks, id) ==> ({
                let i = idx_of(old(self)@.tasks, id);
                let pre = old(self)@.tasks[i];
                let post = final(self)@.tasks[i];
                &&& r matches Ok(t) && t@ == post
                &&& final(self)@.tasks.len() == old(self)@.tasks.len()
                &&& forall|j: int|
                    0 <= j < final(self)@.tasks.len() && j != i ==> final(self)@.tasks[j] == old(
                        self,
                    )@.tasks[j]
                &&& final(self)@.next_id == old(self)@.next_id
                &&& post.id == pre.id
                &&& post.name == pre.name
                &&& post.description == pre.description
                &&& post.created == pre.created
                &&& post.status == *status
                &&& post.updated >= pre.updated
                &&& post.updated >= post.created
            }),
    {
        let i = match self.find_index(id) {
            Some(i) => i,
            None => {
                return Err(TaskError::NotFound);
            },
        };
        proof {
            lemma_idx_of_unique(self@.tasks, id, i as int);
        }
        let mut t = self.tasks.remove(i);
        t.set_status(*status);
        let out = t.clone();
        self.tasks.insert(i, t);
        proof {
            assert forall|j: int|
                0 <= j < self@.tasks.len() && j != i as int implies self@.tasks[j] == old(
                self,
            )@.tasks[j] by {
                assert(self@.tasks.len() == old(self)@.tasks.len());
            }
        }
        Ok(out)
    }

    /// With no filter, copies of all tasks in insertion order; with a
    /// filter, copies of exactly the tasks whose status equals it, keeping
    /// their relative order.
    pub fn list_by_status(&self, status: Option<&Status>) -> (r: Vec<Task>)
        ensures
            match status {
                None => r@.map_values(|t: Task| t@) == self@.tasks,
                Some(s) => r@.map_values(|t: Task| t@) == self@.tasks.filter(
                    (|tm: TaskModel| tm.status == *s),
                ),
            },
    {
        let n = self.tasks.len();
        let mut out: Vec<Task> = Vec::new();
        let mut i: usize = 0;
        match status {
            Some(s) => {
                let ghost pred = |tm: TaskModel| tm.status == *s;
                proof {
                    assert(out@.map_values(|t: Task| t@) =~= self@.tasks.take(0).filter(pred));
                }
                while i < n
                    invariant
                        n == self@.tasks.len(),
                        i <= n,
                        out@.map_values(|t: Task| t@) == self@.tasks.take(i as int).filter(pred),
                        pred == (|tm: TaskModel| tm.status == *s),
                    decreases n - i,
                {
                    let ghost prev = out@.map_values(|t: Task| t@);
                    if *self.tasks[i].status() == *s {
                        out.push(self.tasks[i].clone());
                        proof {
                            assert(out@.map_values(|t: Task| t@) =~= prev.push(
                                self@.tasks[i as int],
                            ));
                        }
                    }
                    proof {
                        lemma_filter_step(self@.tasks, pred, i as int);
                    }
                    i = i + 1;
                }
                proof {
                    assert(self@.tasks.take(n as int) =~= self@.tasks);
                }
                out
            },
            None => {
                while i < n
                    invariant
                        n == self@.tasks.len(),
                        i <= n,
                        out@.map_values(|t: Task| t@) == self@.tasks.take(i as int),
                    decreases n - i,
                {
                    let ghost prev = out@.map_values(|t: Task| t@);
                    out.push(self.tasks[i].clone());
                    proof {
                        assert(out@.map_values(|t: Task| t@) =~= prev.push(self@.tasks[i as int]));
                        assert(self@.tasks.take(i as int + 1) =~= self@.tasks.take(i as int).push(
                            self@.tasks[i as int],
                        ));
                    }
                    i = i + 1;
                }
                proof {
                    assert(self@.tasks.take(n as int) =~= self@.tasks);
                }
                out
            },
        }
    }
}

/// Filtering a prefix one element longer appends the element exactly when it
/// satisfies the predicate.
proof fn lemma_filter_step(s: Seq<TaskModel>, pred: spec_fn(TaskModel) -> bool, i: int)
    requires
        0 <= i < s.len(),
    ensures
        s.take(i + 1).filter(pred) == if pred(s[i]) {
            s.take(i).filter(pred).push(s[i])
        } else {
            s.take(i).filter(pred)
        },
{
    reveal(Seq::filter);
    assert(s.take(i + 1).drop_last() =~= s.take(i));
    assert(s.take(i + 1).last() == s[i]);
    assert(s.take(i + 1) =~= s.take(i).push(s[i]));
}

} // verus!

