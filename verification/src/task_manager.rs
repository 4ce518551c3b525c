//! The task store: owns the collection and its mutation rules.
//!
//! The collection is kept sorted by strictly ascending id, so the
//! listing order and the on-disk order coincide and never have to be
//! re-derived.

use crate::models::{ListFilter, Status, StoreError, Task, TaskView};
use crate::models::{contains_id, index_of_id, lemma_index_of_id, wf_task, wf_tasks};
use vstd::prelude::*;
use vstd::string::StringExecFns;

verus! {

/// The task collection, kept sorted by strictly ascending id.
pub struct TaskManager {
    tasks: Vec<Task>,
}

/// The mathematical values of a sequence of tasks, in order.
pub open spec fn views_of(s: Seq<Task>) -> Seq<TaskView> {
    Seq::new(s.len(), |i: int| s[i]@)
}

/// The highest id the collection currently holds, or 0 when it is
/// empty.  For a sorted collection this is the id of the last task.
pub open spec fn spec_max_id(s: Seq<TaskView>) -> u32 {
    if s.len() == 0 {
        0u32
    } else {
        s.last().id
    }
}

/// The task an `add` with these inputs builds: the next free id,
/// status `Todo`, both timestamps set to `now`.
pub open spec fn spec_new_task(s: Seq<TaskView>, description: Seq<char>, now: u64) -> TaskView {
    TaskView {
        id: (spec_max_id(s) + 1) as u32,
        description: description,
        status: Status::Todo,
        created_at: now,
        updated_at: now,
    }
}

/// The collection after an `add` with these inputs.
pub open spec fn spec_add(s: Seq<TaskView>, description: Seq<char>, now: u64) -> Seq<TaskView> {
    s.push(spec_new_task(s, description, now))
}

/// The refreshed `updated_at` of a mutation at time `now`: the clock
/// reading, held up to `created_at` so a backwards clock can never
/// break the order of the two timestamps.
pub open spec fn spec_refreshed(t: TaskView, now: u64) -> u64 {
    if now >= t.created_at {
        now
    } else {
        t.created_at
    }
}

/// The task after its description is replaced at time `now`.
pub open spec fn spec_with_description(t: TaskView, description: Seq<char>, now: u64) -> TaskView {
    TaskView { description: description, updated_at: spec_refreshed(t, now), ..t }
}

/// The task after its status moves to `target` at time `now`.
pub open spec fn spec_transitioned(t: TaskView, target: Status, now: u64) -> TaskView {
    TaskView { status: target, updated_at: spec_refreshed(t, now), ..t }
}

/// What a status transition does, shared by every transition entry
/// point: `pre` and `post` are the collection before and after, `r`
/// the outcome with the returned task's value and whether anything
/// changed.
pub open spec fn transition_post(
    pre: Seq<TaskView>,
    post: Seq<TaskView>,
    id: u32,
    target: Status,
    now: u64,
    r: Result<(TaskView, bool), StoreError>,
) -> bool {
    match r {
        Ok((t, changed)) => {
            let k = index_of_id(pre, id);
            &&& contains_id(pre, id)
            &&& changed == (pre[k].status != target)
            &&& (changed ==> t == spec_transitioned(pre[k], target, now) && post =~= pre.update(
                k,
                t,
            ))
            &&& (!changed ==> t == pre[k] && post =~= pre)
        },
        Err(e) => e == StoreError::NotFound && !contains_id(pre, id) && post =~= pre,
    }
}

/// Whether a task is selected by a filter.
pub open spec fn matches_filter(t: TaskView, f: ListFilter) -> bool {
    match f {
        ListFilter::All => true,
        ListFilter::Done => t.status == Status::Done,
        ListFilter::InProgress => t.status == Status::InProgress,
        ListFilter::NotDone => t.status != Status::Done,
    }
}

/// The subsequence of tasks a filter selects, in the original order.
pub open spec fn spec_filtered(s: Seq<TaskView>, f: ListFilter) -> Seq<TaskView>
    decreases s.len(),
{
    if s.len() == 0 {
        Seq::<TaskView>::empty()
    } else {
        let rest = spec_filtered(s.drop_last(), f);
        if matches_filter(s.last(), f) {
            rest.push(s.last())
        } else {
            rest
        }
    }
}

/// The filter a listing keyword names, or `None` for an unknown
/// keyword.
pub open spec fn spec_filter_of(s: Seq<char>) -> Option<ListFilter> {
    if s == "all"@ {
        Some(ListFilter::All)
    } else if s == "done"@ {
        Some(ListFilter::Done)
    } else if s == "in-progress"@ {
        Some(ListFilter::InProgress)
    } else if s == "not-done"@ {
        Some(ListFilter::NotDone)
    } else {
        None
    }
}

/// The filter a listing argument selects: a missing keyword defaults
/// to `All`.
pub open spec fn spec_filter_arg(filter: Option<String>) -> Option<ListFilter> {
    match filter {
        None => Some(ListFilter::All),
        Some(s) => spec_filter_of(s@),
    }
}

/// In a sorted collection no id exceeds the last one.
proof fn lemma_max_id_bound(s: Seq<TaskView>)
    requires
        wf_tasks(s),
    ensures
        forall|i: int| 0 <= i < s.len() ==> (#[trigger] s[i]).id <= spec_max_id(s),
{
    assert forall|i: int| 0 <= i < s.len() implies (#[trigger] s[i]).id <= spec_max_id(s) by {
        if i < s.len() - 1 {
            assert(s[i].id < s[s.len() - 1].id);
        }
    }
}

impl View for TaskManager {
    type V = Seq<TaskView>;

    closed spec fn view(&self) -> Seq<TaskView> {
        views_of(self.tasks@)
    }
}

impl TaskManager {
    /// The collection invariant.
    pub open spec fn wf(&self) -> bool {
        wf_tasks(self@)
    }

    /// An empty store.
    pub fn new() -> (m: TaskManager)
        ensures
            m@ =~= Seq::<TaskView>::empty(),
            m.wf(),
    {
        TaskManager { tasks: Vec::new() }
    }

    /// A store over an already well-formed collection.
    pub(crate) fn from_vec(tasks: Vec<Task>) -> (m: TaskManager)
        requires
            wf_tasks(views_of(tasks@)),
        ensures
            m@ =~= views_of(tasks@),
            m.wf(),
    {
        TaskManager { tasks }
    }

    /// How many tasks the store holds.
    pub fn len(&self) -> (n: usize)
        ensures
            n == self@.len(),
    {
        self.tasks.len()
    }

    /// The position of the task with the given id, if any.
    fn find(&self, id: u32) -> (r: Option<usize>)
        requires
            self.wf(),
        ensures
            match r {
                Some(i) => i < self@.len() && self@[i as int].id == id && i as int == index_of_id(
                    self@,
                    id,
                ),
                None => !contains_id(self@, id) && index_of_id(self@, id) < 0,
            },
    {
        let ghost s = self@;
        let mut i: usize = 0;
        while i < self.tasks.len()
            invariant
                self.wf(),
                s == self@,
                i <= self@.len(),
                forall|j: int| 0 <= j < i ==> (#[trigger] s[j]).id != id,
            decreases self@.len() - i,
        {
            if self.tasks[i].id == id {
                proof {
                    lemma_index_of_id(s, id);
                    let k = index_of_id(s, id);
                    if k != i {
                        assert(s[k].id == s[i as int].id);
                        assert(false);
                    }
                }
                return Some(i);
            }
            i += 1;
        }
        proof {
            lemma_index_of_id(s, id);
        }
        None
    }

    /// A read-only copy of the task with the given id.
    pub fn get_task(&self, id: u32) -> (r: Option<Task>)
        requires
            self.wf(),
        ensures
            match r {
                Some(t) => contains_id(self@, id) && t@ == self@[index_of_id(self@, id)],
                None => !contains_id(self@, id),
            },
    {
        match self.find(id) {
            Some(i) => Some(self.tasks[i].duplicate()),
            None => None,
        }
    }

    /// Creates a task with the next free id (one past the highest id
    /// currently stored), status `Todo` and both timestamps at `now`,
    /// appends it and returns it.
    pub fn add_task(&mut self, description: String, now: u64) -> (t: Task)
        requires
            old(self).wf(),
            spec_max_id(old(self)@) < u32::MAX,
        ensures
            final(self).wf(),
            t@ == spec_new_task(old(self)@, description@, now),
            final(self)@ =~= spec_add(old(self)@, description@, now),
    {
        let n = self.tasks.len();
        let max: u32 = if n == 0 {
            0
        } else {
            self.tasks[n - 1].id
        };
        let id = max + 1;
        let t = Task {
            id,
            description,
            status: Status::Todo,
            created_at: now,
            updated_at: now,
        };
        let copy = t.duplicate();
        proof {
            lemma_max_id_bound(self@);
        }
        self.tasks.push(copy);
        proof {
            assert(self@ =~= old(self)@.push(t@));
        }
        t
    }

    /// Replaces the description of the task with the given id and
    /// refreshes its `updated_at`; reports `NotFound` and leaves the
    /// collection unchanged when the id is absent.
    pub fn update_task(&mut self, id: u32, description: String, now: u64) -> (r: Result<
        Task,
        StoreError,
    >)
        requires
            old(self).wf(),
        ensures
            final(self).wf(),
            match r {
                Ok(t) => {
                    let k = index_of_id(old(self)@, id);
                    &&& contains_id(old(self)@, id)
                    &&& t@ == spec_with_description(old(self)@[k], description@, now)
                    &&& final(self)@ =~= old(self)@.update(k, t@)
                },
                Err(e) => e == StoreError::NotFound && !contains_id(old(self)@, id)
                    && final(self)@ =~= old(self)@,
            },
    {
        match self.find(id) {
            Some(i) => {
                let prev = &self.tasks[i];
                let refreshed: u64 = if now >= prev.created_at {
                    now
                } else {
                    prev.created_at
                };
                let t = Task {
                    id: prev.id,
                    description,
                    status: prev.status,
                    created_at: prev.created_at,
                    updated_at: refreshed,
                };
                let copy = t.duplicate();
                self.tasks[i] = copy;
                proof {
                    assert(self@ =~= old(self)@.update(i as int, t@));
                }
                Ok(t)
            },
            None => Err(StoreError::NotFound),
        }
    }

    /// Removes the task with the given id permanently; reports
    /// `NotFound` and leaves the collection unchanged when the id is
    /// absent.
    pub fn delete_task(&mut self, id: u32) -> (r: Result<(), StoreError>)
        requires
            old(self).wf(),
        ensures
            final(self).wf(),
            match r {
                Ok(()) => {
                    let k = index_of_id(old(self)@, id);
                    &&& contains_id(old(self)@, id)
                    &&& final(self)@ =~= old(self)@.remove(k)
                },
                Err(e) => e == StoreError::NotFound && !contains_id(old(self)@, id)
                    && final(self)@ =~= old(self)@,
            },
    {
        match self.find(id) {
            Some(i) => {
                self.tasks.remove(i);
                proof {
                    assert(self@ =~= old(self)@.remove(i as int));
                }
                Ok(())
            },
            None => Err(StoreError::NotFound),
        }
    }

    /// Moves the task with the given id to `target`.  A transition to
    /// the status the task already has changes nothing and says so
    /// through the returned flag, so the caller can tell the no-op
    /// apart and skip rewriting storage; otherwise the status and
    /// `updated_at` are refreshed.  Reports `NotFound` when the id is
    /// absent.
    pub fn transition(&mut self, id: u32, target: Status, now: u64) -> (r: Result<
        (Task, bool),
        StoreError,
    >)
        requires
            old(self).wf(),
        ensures
            final(self).wf(),
            transition_post(
                old(self)@,
                final(self)@,
                id,
                target,
                now,
                match r {
                    Ok((t, changed)) => Ok((t@, changed)),
                    Err(e) => Err(e),
                },
            ),
    {
        match self.find(id) {
            Some(i) => {
                let prev = &self.tasks[i];
                if prev.status == target {
                    let t = prev.duplicate();
                    proof {
                        assert(self@ =~= old(self)@);
                    }
                    Ok((t, false))
                } else {
                    let refreshed: u64 = if now >= prev.created_at {
                        now
                    } else {
                        prev.created_at
                    };
                    let t = Task {
                        id: prev.id,
                        description: prev.description.clone(),
                        status: target,
                        created_at: prev.created_at,
                        updated_at: refreshed,
                    };
                    let copy = t.duplicate();
                    self.tasks[i] = copy;
                    proof {
                        assert(self@ =~= old(self)@.update(i as int, t@));
                    }
                    Ok((t, true))
                }
            },
            None => Err(StoreError::NotFound),
        }
    }

    /// Marks the task as in progress: a transition to `InProgress`.
    pub fn mark_in_progress_task(&mut self, id: u32, now: u64) -> (r: Result<
        (Task, bool),
        StoreError,
    >)
        requires
            old(self).wf(),
        ensures
            final(self).wf(),
            transition_post(
                old(self)@,
                final(self)@,
                id,
                Status::InProgress,
                now,
                match r {
                    Ok((t, changed)) => Ok((t@, changed)),
                    Err(e) => Err(e),
                },
            ),
    {
        self.transition(id, Status::InProgress, now)
    }

    /// Marks the task as done: a transition to `Done`.
    pub fn mark_done(&mut self, id: u32, now: u64) -> (r: Result<(Task, bool), StoreError>)
        requires
            old(self).wf(),
        ensures
            final(self).wf(),
            transition_post(
                old(self)@,
                final(self)@,
                id,
                Status::Done,
                now,
                match r {
                    Ok((t, changed)) => Ok((t@, changed)),
                    Err(e) => Err(e),
                },
            ),
    {
        self.transition(id, Status::Done, now)
    }

    /// Restarts the task: a transition back to `Todo`.
    pub fn restart_task(&mut self, id: u32, now: u64) -> (r: Result<(Task, bool), StoreError>)
        requires
            old(self).wf(),
        ensures
            final(self).wf(),
            transition_post(
                old(self)@,
                final(self)@,
                id,
                Status::Todo,
                now,
                match r {
                    Ok((t, changed)) => Ok((t@, changed)),
                    Err(e) => Err(e),
                },
            ),
    {
        self.transition(id, Status::Todo, now)
    }

    /// The tasks a filter keyword selects, in ascending id order: the
    /// keywords are `all` (the default when none is given), `done`,
    /// `in-progress` and `not-done`; any other keyword is an
    /// `InvalidFilter` error.
    pub fn list_tasks(&self, filter: Option<String>) -> (r: Result<Vec<Task>, StoreError>)
        requires
            self.wf(),
        ensures
            match r {
                Ok(v) => spec_filter_arg(filter) is Some && views_of(v@) =~= spec_filtered(
                    self@,
                    spec_filter_arg(filter)->Some_0,
                ),
                Err(e) => e == StoreError::InvalidFilter && spec_filter_arg(filter) is None,
            },
    {
        let f: ListFilter = match &filter {
            None => ListFilter::All,
            Some(s) => {
                match filter_of(s) {
                    Some(f) => f,
                    None => {
                        return Err(StoreError::InvalidFilter);
                    },
                }
            },
        };
        let mut out: Vec<Task> = Vec::new();
        let mut i: usize = 0;
        while i < self.tasks.len()
            invariant
                self.wf(),
                i <= self@.len(),
                views_of(out@) =~= spec_filtered(self@.take(i as int), f),
            decreases self@.len() - i,
        {
            proof {
                assert(self@.take(i + 1).drop_last() =~= self@.take(i as int));
                assert(self@.take(i + 1).last() == self@[i as int]);
            }
            let t = &self.tasks[i];
            let selected = match f {
                ListFilter::All => true,
                ListFilter::Done => t.status == Status::Done,
                ListFilter::InProgress => t.status == Status::InProgress,
                ListFilter::NotDone => !(t.status == Status::Done),
            };
            if selected {
                out.push(t.duplicate());
            }
            i += 1;
        }
        proof {
            assert(self@.take(self@.len() as int) =~= self@);
        }
        Ok(out)
    }
}

/// Strict order between every adjacent pair orders every pair.
proof fn lemma_sorted_from_adjacent(s: Seq<TaskView>, i: int, j: int)
    requires
        forall|q: int| 1 <= q < s.len() ==> (#[trigger] s[q - 1].id) < s[q].id,
        0 <= i < j < s.len(),
    ensures
        s[i].id < s[j].id,
    decreases j - i,
{
    assert(s[j - 1].id < s[j].id);
    if i < j - 1 {
        lemma_sorted_from_adjacent(s, i, j - 1);
    }
}

/// Whether a parsed collection satisfies the store invariant.
fn check_wf(tasks: &Vec<Task>) -> (b: bool)
    ensures
        b == wf_tasks(views_of(tasks@)),
{
    let ghost s = views_of(tasks@);
    let mut i: usize = 0;
    while i < tasks.len()
        invariant
            i <= tasks@.len(),
            s == views_of(tasks@),
            forall|q: int| 0 <= q < i ==> wf_task(#[trigger] s[q]),
            forall|q: int| 1 <= q < i ==> (#[trigger] s[q - 1].id) < s[q].id,
        decreases tasks@.len() - i,
    {
        let t = &tasks[i];
        if t.id < 1 || t.updated_at < t.created_at {
            proof {
                assert(!wf_task(s[i as int]));
            }
            return false;
        }
        if i > 0 && tasks[i - 1].id >= t.id {
            proof {
                assert(s[i - 1].id >= s[i as int].id);
            }
            return false;
        }
        i += 1;
    }
    proof {
        assert forall|a: int, b: int| 0 <= a < b < s.len() implies s[a].id < s[b].id by {
            lemma_sorted_from_adjacent(s, a, b);
        }
    }
    true
}

impl TaskManager {
    /// The highest id the store currently holds, or 0 when it is
    /// empty.
    pub fn max_id(&self) -> (r: u32)
        requires
            self.wf(),
        ensures
            r == spec_max_id(self@),
    {
        let n = self.tasks.len();
        if n == 0 {
            0
        } else {
            self.tasks[n - 1].id
        }
    }

    /// The collection's serialized form, the tasks in their stored
    /// ascending id order.
    pub fn save_tasks(&self) -> (r: String)
        requires
            self.wf(),
        ensures
            r@ == crate::codec::spec_ser(self@),
    {
        crate::codec::serialize_tasks(&self.tasks)
    }

    /// The store a serialized text describes.  An empty text is the
    /// empty store; a text that does not parse, or parses to a
    /// collection breaking the id order or the timestamp order, is
    /// corrupt.
    pub fn load_tasks(data: &str) -> (r: Result<TaskManager, StoreError>)
        ensures
            match r {
                Ok(m) => m.wf() && crate::codec::spec_load(data@) == Some(m@),
                Err(e) => e == StoreError::Corrupt && crate::codec::spec_load(data@) is None,
            },
    {
        match crate::codec::parse_tasks(data) {
            Ok(tasks) => {
                if check_wf(&tasks) {
                    Ok(TaskManager::from_vec(tasks))
                } else {
                    Err(StoreError::Corrupt)
                }
            },
            Err(e) => Err(e),
        }
    }
}

/// Relies on `chrono::Local::now` and `chrono::DateTime::timestamp`:
/// the local clock's current reading, in whole seconds since the Unix
/// epoch.  Nothing can be promised of a clock reading.
#[verifier::external_body]
fn now_seconds_raw() -> (r: i64) {
    chrono::Local::now().timestamp()
}

/// The current time as the store's mutations take it: the clock in
/// whole seconds, a reading before the epoch held up to zero.  No
/// more can be said of it; the mutations are specified for every
/// value handed to them.
pub fn current_time() -> (r: u64) {
    let t = now_seconds_raw();
    if t >= 0 {
        t as u64
    } else {
        0
    }
}

// ---------------------------------------------------------------
// Laws of the store
// ---------------------------------------------------------------
/// The collection after a sequence of `add` calls, one per input
/// pair of description and clock reading.
pub open spec fn spec_adds(s: Seq<TaskView>, inputs: Seq<(Seq<char>, u64)>) -> Seq<TaskView>
    decreases inputs.len(),
{
    if inputs.len() == 0 {
        s
    } else {
        spec_adds(spec_add(s, inputs[0].0, inputs[0].1), inputs.drop_first())
    }
}

proof fn lemma_adds_extend(s: Seq<TaskView>, inputs: Seq<(Seq<char>, u64)>)
    requires
        s.len() + inputs.len() <= u32::MAX,
        spec_max_id(s) == s.len(),
        forall|i: int| 0 <= i < s.len() ==> (#[trigger] s[i]).id == i + 1,
    ensures
        spec_adds(s, inputs).len() == s.len() + inputs.len(),
        forall|i: int|
            0 <= i < s.len() + inputs.len() ==> (#[trigger] spec_adds(s, inputs)[i]).id == i + 1,
    decreases inputs.len(),
{
    if inputs.len() > 0 {
        let s2 = spec_add(s, inputs[0].0, inputs[0].1);
        assert(spec_new_task(s, inputs[0].0, inputs[0].1).id == s.len() + 1);
        assert(forall|i: int| 0 <= i < s.len() ==> (#[trigger] s2[i]).id == i + 1);
        assert(s2[s.len() as int].id == s.len() + 1);
        assert(spec_max_id(s2) == s2.len());
        lemma_adds_extend(s2, inputs.drop_first());
    }
}

/// Starting from an empty store, a sequence of `add` calls assigns
/// the ids 1, 2, 3, ... in order: strictly increasing by one from 1,
/// with no gaps.
pub proof fn lemma_add_ids_sequential(inputs: Seq<(Seq<char>, u64)>)
    requires
        inputs.len() <= u32::MAX,
    ensures
        spec_adds(Seq::<TaskView>::empty(), inputs).len() == inputs.len(),
        forall|i: int|
            0 <= i < inputs.len() ==> (#[trigger] spec_adds(Seq::<TaskView>::empty(), inputs)[i]).id
                == i + 1,
{
    lemma_adds_extend(Seq::<TaskView>::empty(), inputs);
}

/// The `All` filter selects everything, in order.
pub proof fn lemma_filtered_all(s: Seq<TaskView>)
    ensures
        spec_filtered(s, ListFilter::All) == s,
    decreases s.len(),
{
    if s.len() == 0 {
        assert(spec_filtered(s, ListFilter::All) =~= s);
    } else {
        lemma_filtered_all(s.drop_last());
        assert(s.drop_last().push(s.last()) =~= s);
    }
}

/// An `add` followed at once by a listing of everything shows the old
/// collection with exactly one new task appended, carrying the given
/// description and status `Todo`; from an empty store that listing is
/// that one task alone.
pub proof fn lemma_add_then_list_all(s: Seq<TaskView>, description: Seq<char>, now: u64)
    ensures
        spec_filtered(spec_add(s, description, now), ListFilter::All) == spec_add(
            s,
            description,
            now,
        ),
        spec_add(s, description, now) == s.push(spec_new_task(s, description, now)),
        spec_new_task(s, description, now).description == description,
        spec_new_task(s, description, now).status == Status::Todo,
        s.len() == 0 ==> spec_add(s, description, now) =~= seq![
            spec_new_task(s, description, now),
        ],
{
    lemma_filtered_all(spec_add(s, description, now));
}

/// A transition to a genuinely different status at a clock reading
/// past the task's `updated_at` sets the status and strictly
/// increases `updated_at`, to exactly that reading.
pub proof fn lemma_transition_updates(t: TaskView, target: Status, now: u64)
    requires
        wf_task(t),
        t.status != target,
        now > t.updated_at,
    ensures
        spec_transitioned(t, target, now).status == target,
        spec_transitioned(t, target, now).updated_at == now,
        spec_transitioned(t, target, now).updated_at > t.updated_at,
        spec_transitioned(t, target, now).created_at == t.created_at,
        spec_transitioned(t, target, now).id == t.id,
{
}

/// What a filter keeps: exactly the tasks of the collection it
/// selects.
pub proof fn lemma_filtered_contains(s: Seq<TaskView>, f: ListFilter)
    ensures
        forall|t: TaskView|
            #[trigger] spec_filtered(s, f).contains(t) <==> s.contains(t) && matches_filter(t, f),
    decreases s.len(),
{
    if s.len() == 0 {
        assert(forall|t: TaskView| !s.contains(t));
    } else {
        lemma_filtered_contains(s.drop_last(), f);
        let fd = spec_filtered(s.drop_last(), f);
        assert forall|t: TaskView| #[trigger]
            spec_filtered(s, f).contains(t) implies s.contains(t) && matches_filter(t, f) by {
            if matches_filter(s.last(), f) {
                assert(spec_filtered(s, f) == fd.push(s.last()));
                let i = choose|i: int|
                    0 <= i < spec_filtered(s, f).len() && spec_filtered(s, f)[i] == t;
                if i < fd.len() {
                    assert(fd.contains(t));
                    let q = choose|q: int| 0 <= q < s.drop_last().len() && s.drop_last()[q] == t;
                    assert(s[q] == t);
                } else {
                    assert(t == s.last());
                    assert(s[s.len() - 1] == t);
                }
            } else {
                assert(fd.contains(t));
                let q = choose|q: int| 0 <= q < s.drop_last().len() && s.drop_last()[q] == t;
                assert(s[q] == t);
            }
        }
        assert forall|t: TaskView|
            s.contains(t) && matches_filter(t, f) implies #[trigger] spec_filtered(s, f).contains(
            t,
        ) by {
            let i = choose|i: int| 0 <= i < s.len() && s[i] == t;
            if i < s.len() - 1 {
                assert(s.drop_last()[i] == t);
                assert(s.drop_last().contains(t));
                assert(fd.contains(t));
                let q = choose|q: int| 0 <= q < fd.len() && fd[q] == t;
                if matches_filter(s.last(), f) {
                    assert(spec_filtered(s, f)[q] == t);
                } else {
                    assert(spec_filtered(s, f)[q] == t);
                }
            } else {
                assert(t == s.last());
                assert(spec_filtered(s, f) == fd.push(s.last()));
                assert(spec_filtered(s, f)[fd.len() as int] == t);
            }
        }
    }
}

/// The `Done` and `NotDone` listings split the collection exactly:
/// one keeps just the tasks whose status is `Done`, the other just
/// the rest, both in ascending id order, and together they have the
/// whole collection's length.
pub proof fn lemma_list_done_partition(s: Seq<TaskView>)
    requires
        wf_tasks(s),
    ensures
        forall|t: TaskView|
            #[trigger] spec_filtered(s, ListFilter::Done).contains(t) <==> s.contains(t)
                && t.status == Status::Done,
        forall|t: TaskView|
            #[trigger] spec_filtered(s, ListFilter::NotDone).contains(t) <==> s.contains(t)
                && t.status != Status::Done,
        spec_filtered(s, ListFilter::Done).len() + spec_filtered(s, ListFilter::NotDone).len()
            == s.len(),
        wf_tasks(spec_filtered(s, ListFilter::Done)),
        wf_tasks(spec_filtered(s, ListFilter::NotDone)),
{
    lemma_filtered_contains(s, ListFilter::Done);
    lemma_filtered_contains(s, ListFilter::NotDone);
    lemma_filtered_lens(s);
    lemma_filtered_wf(s, ListFilter::Done);
    lemma_filtered_wf(s, ListFilter::NotDone);
}

proof fn lemma_filtered_lens(s: Seq<TaskView>)
    ensures
        spec_filtered(s, ListFilter::Done).len() + spec_filtered(s, ListFilter::NotDone).len()
            == s.len(),
    decreases s.len(),
{
    if s.len() > 0 {
        lemma_filtered_lens(s.drop_last());
    }
}

/// A filter keeps the stored order, so a well-formed collection stays
/// well formed.
pub proof fn lemma_filtered_wf(s: Seq<TaskView>, f: ListFilter)
    requires
        wf_tasks(s),
    ensures
        wf_tasks(spec_filtered(s, f)),
    decreases s.len(),
{
    if s.len() > 0 {
        assert(wf_tasks(s.drop_last())) by {
            assert(forall|i: int|
                0 <= i < s.len() - 1 ==> s.drop_last()[i] == (#[trigger] s[i]));
        }
        lemma_filtered_wf(s.drop_last(), f);
        let fd = spec_filtered(s.drop_last(), f);
        if matches_filter(s.last(), f) {
            lemma_filtered_contains(s.drop_last(), f);
            let w = fd.push(s.last());
            assert(wf_task(s[s.len() - 1]));
            assert forall|i: int, j: int| 0 <= i < j < w.len() implies w[i].id < w[j].id by {
                if j < fd.len() {
                } else {
                    assert(w[j] == s.last());
                    assert(fd.contains(fd[i]));
                    let q = choose|q: int| 0 <= q < s.drop_last().len() && s.drop_last()[q] == fd[i];
                    assert(s[q] == fd[i]);
                    assert(s[q].id < s[s.len() - 1].id);
                }
            }
            assert forall|i: int| 0 <= i < w.len() implies wf_task(#[trigger] w[i]) by {
                if i < fd.len() {
                }
            }
        }
    }
}

/// The filter a keyword names.
fn filter_of(s: &String) -> (r: Option<ListFilter>)
    ensures
        r == spec_filter_of(s@),
{
    if s.eq(&String::from_str("all")) {
        Some(ListFilter::All)
    } else if s.eq(&String::from_str("done")) {
        Some(ListFilter::Done)
    } else if s.eq(&String::from_str("in-progress")) {
        Some(ListFilter::InProgress)
    } else if s.eq(&String::from_str("not-done")) {
        Some(ListFilter::NotDone)
    } else {
        None
    }
}

} // verus!
