//! The data model: tasks, their statuses, list filters and error kinds.

use vstd::prelude::*;

verus! {

/// The lifecycle stage of a task: a closed set of exactly three states.
#[derive(Clone, Copy, Debug, PartialEq, Eq, Structural)]
pub enum Status {
    Todo,
    InProgress,
    Done,
}

/// The filter a listing query selects tasks by.
#[derive(Clone, Copy, Debug, PartialEq, Eq, Structural)]
pub enum ListFilter {
    All,
    Done,
    InProgress,
    NotDone,
}

/// Why a store operation failed.
#[derive(Clone, Copy, Debug, PartialEq, Eq, Structural)]
pub enum StoreError {
    /// The referenced task id is not in the collection.
    NotFound,
    /// The listing filter keyword is not one of the known four.
    InvalidFilter,
    /// The serialized content is not a valid task collection.
    Corrupt,
}

/// The mathematical value of a task: what the contracts speak about.
#[verifier::ext_equal]
pub ghost struct TaskView {
    pub id: u32,
    pub description: Seq<char>,
    pub status: Status,
    pub created_at: u64,
    pub updated_at: u64,
}

/// One trackable unit of work.
#[derive(Debug)]
pub struct Task {
    /// Positive, unique within a store, assigned by the store.
    pub id: u32,
    /// Free-form text.
    pub description: String,
    pub status: Status,
    /// Seconds; set once at creation, immutable thereafter.
    pub created_at: u64,
    /// Seconds; refreshed on every successful mutation.
    pub updated_at: u64,
}

impl View for Task {
    type V = TaskView;

    open spec fn view(&self) -> TaskView {
        TaskView {
            id: self.id,
            description: self.description@,
            status: self.status,
            created_at: self.created_at,
            updated_at: self.updated_at,
        }
    }
}

/// A single task is well formed: its id is positive and it was not
/// updated before it was created.
pub open spec fn wf_task(t: TaskView) -> bool {
    &&& t.id >= 1
    &&& t.updated_at >= t.created_at
}

/// A collection is well formed: every task is, and ids are strictly
/// increasing, hence unique.
pub open spec fn wf_tasks(s: Seq<TaskView>) -> bool {
    &&& forall|i: int| 0 <= i < s.len() ==> wf_task(#[trigger] s[i])
    &&& forall|i: int, j: int| 0 <= i < j < s.len() ==> s[i].id < s[j].id
}

/// Whether some task in the collection carries the given id.
pub open spec fn contains_id(s: Seq<TaskView>, id: u32) -> bool {
    exists|i: int| 0 <= i < s.len() && (#[trigger] s[i]).id == id
}

/// The index of the task with the given id, or -1 where there is none.
pub open spec fn index_of_id(s: Seq<TaskView>, id: u32) -> int
    decreases s.len(),
{
    if s.len() == 0 {
        -1
    } else if s[0].id == id {
        0
    } else {
        let rest = index_of_id(s.drop_first(), id);
        if rest < 0 {
            -1
        } else {
            rest + 1
        }
    }
}

/// `index_of_id` finds the id exactly when the collection holds it.
pub proof fn lemma_index_of_id(s: Seq<TaskView>, id: u32)
    ensures
        contains_id(s, id) <==> 0 <= index_of_id(s, id),
        0 <= index_of_id(s, id) ==> index_of_id(s, id) < s.len()
            && s[index_of_id(s, id)].id == id,
    decreases s.len(),
{
    if s.len() > 0 {
        lemma_index_of_id(s.drop_first(), id);
        if s[0].id != id {
            let r = index_of_id(s.drop_first(), id);
            if r >= 0 {
                assert(s[r + 1] == s.drop_first()[r]);
            }
            if contains_id(s, id) {
                let i = choose|i: int| 0 <= i < s.len() && (#[trigger] s[i]).id == id;
                assert(s.drop_first()[i - 1] == s[i]);
                assert(contains_id(s.drop_first(), id));
            }
            if contains_id(s.drop_first(), id) {
                let i = choose|i: int|
                    0 <= i < s.drop_first().len() && (#[trigger] s.drop_first()[i]).id == id;
                assert(s[i + 1] == s.drop_first()[i]);
                assert(contains_id(s, id));
            }
        }
    }
}

impl Task {
    /// An owned copy whose mathematical value is the same.
    pub fn duplicate(&self) -> (t: Task)
        ensures
            t@ == self@,
    {
        Task {
            id: self.id,
            description: self.description.clone(),
            status: self.status,
            created_at: self.created_at,
            updated_at: self.updated_at,
        }
    }
}

} // verus!
