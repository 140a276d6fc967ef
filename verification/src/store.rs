//! The task store: named tasks under monotonically assigned IDs, and a
//! completion log keyed by calendar day. This is the component that carries
//! the business invariants: IDs stay below the counter, a day appears at most
//! once in the log, and a day's completion list holds no duplicates.
use vstd::prelude::*;
use vstd::string::StringExecFns;
use crate::day::Day;
use crate::num::dec_rep;
use crate::num::push_dec;

verus! {

broadcast use vstd::seq_lib::group_seq_lib_default;

/// Mathematical image of a task: its ID and the characters of its name.
#[verifier::ext_equal]
pub ghost struct TaskModel {
    pub id: u32,
    pub name: Seq<char>,
}

/// Mathematical image of one day's completion record.
#[verifier::ext_equal]
pub ghost struct LogModel {
    pub day: Day,
    pub ids: Seq<u32>,
}

impl LogModel {
    pub open spec fn wf(self) -> bool {
        self.day.wf() && self.ids.no_duplicates()
    }
}

/// Mathematical image of the whole store.
#[verifier::ext_equal]
pub ghost struct DataModel {
    pub next_id: u32,
    pub tasks: Seq<TaskModel>,
    pub logs: Seq<LogModel>,
}

impl DataModel {
    /// The store's invariants: the counter exceeds every assigned ID, every
    /// logged day is well-formed and appears once, and no day's list repeats
    /// an ID.
    pub open spec fn wf(self) -> bool {
        &&& self.next_id >= 1
        &&& forall|i: int| 0 <= i < self.tasks.len() ==> (#[trigger] self.tasks[i]).id < self.next_id
        &&& forall|i: int| 0 <= i < self.logs.len() ==> (#[trigger] self.logs[i]).wf()
        &&& forall|i: int, j: int|
            0 <= i < j < self.logs.len() ==> self.logs[i].day != self.logs[j].day
    }

    /// Whether a task with this ID exists.
    pub open spec fn has_task(self, id: u32) -> bool {
        exists|i: int| 0 <= i < self.tasks.len() && (#[trigger] self.tasks[i]).id == id
    }

    /// Whether the log records `id` as completed on `day`.
    pub open spec fn spec_done(self, id: u32, day: Day) -> bool {
        exists|i: int|
            0 <= i < self.logs.len() && (#[trigger] self.logs[i]).day == day
                && self.logs[i].ids.contains(id)
    }
}

/// The predicate a today listing filters by: not yet done on `day`.
pub open spec fn pending(m: DataModel, day: Day) -> spec_fn(TaskModel) -> bool {
    |t: TaskModel| !m.spec_done(t.id, day)
}

/// The empty store a first run begins with.
pub open spec fn init_model() -> DataModel {
    DataModel { next_id: 1u32, tasks: Seq::empty(), logs: Seq::empty() }
}

/// What one add does to the store: the counter's value becomes the new
/// task's ID and the counter advances by one.
pub open spec fn spec_add(m: DataModel, name: Seq<char>) -> DataModel {
    DataModel {
        next_id: (m.next_id + 1) as u32,
        tasks: m.tasks.push(TaskModel { id: m.next_id, name }),
        logs: m.logs,
    }
}

/// The store after adding `names`, in order, to a fresh store.
pub open spec fn run_adds(names: Seq<Seq<char>>) -> DataModel
    decreases names.len(),
{
    if names.len() == 0 {
        init_model()
    } else {
        spec_add(run_adds(names.drop_last()), names.last())
    }
}

/// Law: across any sequence of adds on a fresh store, the assigned IDs are
/// exactly 1, 2, 3, ... in insertion order — strictly increasing from 1,
/// with no gaps and no reuse.
pub proof fn lemma_ids_consecutive(names: Seq<Seq<char>>)
    requires
        names.len() < u32::MAX,
    ensures
        run_adds(names).next_id == names.len() + 1,
        run_adds(names).tasks.len() == names.len(),
        forall|i: int|
            0 <= i < names.len() ==> (#[trigger] run_adds(names).tasks[i]).id == i + 1
                && run_adds(names).tasks[i].name == names[i],
    decreases names.len(),
{
    if names.len() > 0 {
        lemma_ids_consecutive(names.drop_last());
    }
}

/// Law: a store that has only seen adds reports nothing as done, on any day
/// and for any ID, known or unknown: completions exist only after an
/// explicit marking call.
pub proof fn lemma_nothing_done_without_marking(names: Seq<Seq<char>>, id: u32, day: Day)
    ensures
        !run_adds(names).spec_done(id, day),
    decreases names.len(),
{
    if names.len() > 0 {
        lemma_nothing_done_without_marking(names.drop_last(), id, day);
    }
}

/// How many completion records the log holds for this ID on this day.
pub open spec fn count_in(ids: Seq<u32>, id: u32) -> nat
    decreases ids.len(),
{
    if ids.len() == 0 {
        0
    } else {
        (if ids[0] == id {
            1nat
        } else {
            0nat
        }) + count_in(ids.drop_first(), id)
    }
}

pub open spec fn completions_of(logs: Seq<LogModel>, id: u32, day: Day) -> nat
    decreases logs.len(),
{
    if logs.len() == 0 {
        0
    } else {
        (if logs[0].day == day {
            count_in(logs[0].ids, id)
        } else {
            0nat
        }) + completions_of(logs.drop_first(), id, day)
    }
}

proof fn lemma_count_absent(ids: Seq<u32>, id: u32)
    requires
        forall|j: int| 0 <= j < ids.len() ==> ids[j] != id,
    ensures
        count_in(ids, id) == 0,
    decreases ids.len(),
{
    if ids.len() > 0 {
        lemma_count_absent(ids.drop_first(), id);
    }
}

proof fn lemma_count_distinct(ids: Seq<u32>, id: u32)
    requires
        ids.no_duplicates(),
    ensures
        count_in(ids, id) <= 1,
    decreases ids.len(),
{
    if ids.len() > 0 {
        let rest = ids.drop_first();
        if ids[0] == id {
            assert(forall|j: int| 0 <= j < rest.len() ==> rest[j] == ids[j + 1]);
            lemma_count_absent(rest, id);
        } else {
            lemma_count_distinct(rest, id);
        }
    }
}

proof fn lemma_completions_absent(logs: Seq<LogModel>, id: u32, day: Day)
    requires
        forall|t: int| 0 <= t < logs.len() ==> (#[trigger] logs[t]).day != day,
    ensures
        completions_of(logs, id, day) == 0,
    decreases logs.len(),
{
    if logs.len() > 0 {
        lemma_completions_absent(logs.drop_first(), id, day);
    }
}

/// Law: in any well-formed store, an ID is recorded at most once per day.
/// Since every operation preserves well-formedness, marking a task done
/// twice on the same day can never leave two records of it.
pub proof fn lemma_completion_recorded_once(m: DataModel, id: u32, day: Day)
    requires
        m.wf(),
    ensures
        completions_of(m.logs, id, day) <= 1,
{
    lemma_completions_once(m.logs, id, day);
}

proof fn lemma_completions_once(logs: Seq<LogModel>, id: u32, day: Day)
    requires
        forall|i: int| 0 <= i < logs.len() ==> (#[trigger] logs[i]).wf(),
        forall|i: int, j: int| 0 <= i < j < logs.len() ==> logs[i].day != logs[j].day,
    ensures
        completions_of(logs, id, day) <= 1,
    decreases logs.len(),
{
    if logs.len() > 0 {
        let rest = logs.drop_first();
        assert(forall|j: int| 0 <= j < rest.len() ==> rest[j] == logs[j + 1]);
        if logs[0].day == day {
            lemma_count_distinct(logs[0].ids, id);
            assert(forall|t: int| 0 <= t < rest.len() ==> (#[trigger] rest[t]).day != day);
            lemma_completions_absent(rest, id, day);
        } else {
            lemma_completions_once(rest, id, day);
        }
    }
}

// ---------------------------------------------------------------------------
// Executable types
// ---------------------------------------------------------------------------
/// A named task under a stable numeric ID.
pub struct TaskDescription {
    pub id: u32,
    pub name: String,
}

impl View for TaskDescription {
    type V = TaskModel;

    open spec fn view(&self) -> TaskModel {
        TaskModel { id: self.id, name: self.name@ }
    }
}

impl Clone for TaskDescription {
    fn clone(&self) -> (r: Self)
        ensures
            r == *self,
    {
        TaskDescription { id: self.id, name: self.name.clone() }
    }
}

/// One day's completion record: the day and the IDs marked done on it.
pub struct DayLog {
    pub day: Day,
    pub ids: Vec<u32>,
}

impl View for DayLog {
    type V = LogModel;

    open spec fn view(&self) -> LogModel {
        LogModel { day: self.day, ids: self.ids@ }
    }
}

/// The in-memory store: tasks in insertion order and the per-day completion
/// log, with the next ID to assign.
pub struct Data {
    pub next_id: u32,
    pub tasks: Vec<TaskDescription>,
    pub completion: Vec<DayLog>,
}

impl View for Data {
    type V = DataModel;

    open spec fn view(&self) -> DataModel {
        DataModel {
            next_id: self.next_id,
            tasks: self.tasks@.map_values(|t: TaskDescription| t@),
            logs: self.completion@.map_values(|l: DayLog| l@),
        }
    }
}

/// Whether `v` holds `x`.
fn contains_u32(v: &Vec<u32>, x: u32) -> (r: bool)
    ensures
        r == v@.contains(x),
{
    let n = v.len();
    let mut k: usize = 0;
    while k < n
        invariant
            n == v@.len(),
            k <= n,
            forall|t: int| 0 <= t < k ==> v@[t] != x,
        decreases n - k,
    {
        if v[k] == x {
            return true;
        }
        k = k + 1;
    }
    false
}

impl Data {
    /// A fresh, empty store; IDs start at 1.
    pub fn new() -> (r: Data)
        ensures
            r@ == init_model(),
            r@.wf(),
    {
        let r = Data { next_id: 1, tasks: Vec::new(), completion: Vec::new() };
        proof {
            assert(r@ =~= init_model());
        }
        r
    }

    /// Appends a task under the next available ID and returns that ID.
    pub fn add_task(&mut self, name: &str) -> (id: u32)
        requires
            old(self)@.wf(),
            old(self)@.next_id < u32::MAX,
        ensures
            id == old(self)@.next_id,
            final(self)@ == spec_add(old(self)@, name@),
            final(self)@.wf(),
    {
        let id = self.next_id;
        self.next_id = self.next_id + 1;
        self.tasks.push(TaskDescription { id, name: name.to_owned() });
        proof {
            assert(self@ =~= spec_add(old(self)@, name@));
        }
        id
    }

    /// Linear lookup by ID; the first (and, in a store built through
    /// `add_task`, only) task with that ID, or `None`.
    pub fn get_task(&self, id: u32) -> (r: Option<&TaskDescription>)
        ensures
            r is Some <==> self@.has_task(id),
            r matches Some(t) ==> t.id == id && exists|i: int|
                0 <= i < self@.tasks.len() && #[trigger] self@.tasks[i] == t@ && (forall|j: int|
                    0 <= j < i ==> self@.tasks[j].id != id),
    {
        let n = self.tasks.len();
        let mut k: usize = 0;
        while k < n
            invariant
                n == self.tasks@.len(),
                k <= n,
                forall|t: int| 0 <= t < k ==> self@.tasks[t].id != id,
            decreases n - k,
        {
            if self.tasks[k].id == id {
                proof {
                    assert(self@.tasks[k as int] == self.tasks@[k as int]@);
                }
                return Some(&self.tasks[k]);
            }
            k = k + 1;
        }
        None
    }

    /// Whether `id` was marked done on `day`. A day with no record answers
    /// `false`, never an error.
    pub fn is_task_done(&self, id: u32, day: &Day) -> (r: bool)
        ensures
            r == self@.spec_done(id, *day),
    {
        let n = self.completion.len();
        let mut k: usize = 0;
        while k < n
            invariant
                n == self.completion@.len(),
                k <= n,
                forall|t: int|
                    0 <= t < k ==> !((#[trigger] self@.logs[t]).day == *day
                        && self@.logs[t].ids.contains(id)),
            decreases n - k,
        {
            if self.completion[k].day == *day {
                if contains_u32(&self.completion[k].ids, id) {
                    proof {
                        assert(self@.logs[k as int].day == *day && self@.logs[k as int].ids.contains(
                            id,
                        ));
                    }
                    return true;
                }
            }
            k = k + 1;
        }
        false
    }

    /// Records `id` as completed on `day`, idempotently: a repeated call
    /// changes nothing. The log does not check that the ID names a task.
    pub fn add_completion(&mut self, id: u32, day: &Day)
        requires
            old(self)@.wf(),
            day.wf(),
        ensures
            final(self)@.wf(),
            final(self)@.tasks == old(self)@.tasks,
            final(self)@.next_id == old(self)@.next_id,
            forall|i2: u32, d2: Day|
                final(self)@.spec_done(i2, d2) == (old(self)@.spec_done(i2, d2) || (i2 == id && d2
                    == *day)),
            old(self)@.spec_done(id, *day) ==> final(self)@ == old(self)@,
            !old(self)@.spec_done(id, *day) ==> {
                ||| exists|k: int|
                    0 <= k < old(self)@.logs.len() && (#[trigger] old(self)@.logs[k]).day == *day
                        && final(self)@.logs == old(self)@.logs.update(
                        k,
                        LogModel { day: *day, ids: old(self)@.logs[k].ids.push(id) },
                    )
                ||| final(self)@.logs == old(self)@.logs.push(LogModel { day: *day, ids: seq![id] })
            },
    {
        let n = self.completion.len();
        let mut k: usize = 0;
        let mut idx: usize = n;
        while k < n
            invariant_except_break
                idx == n,
            invariant
                n == self.completion@.len(),
                k <= n,
                *self == *old(self),
                forall|t: int| 0 <= t < k ==> (#[trigger] self@.logs[t]).day != *day,
            ensures
                n == self.completion@.len(),
                *self == *old(self),
                idx <= n,
                idx == n ==> forall|t: int| 0 <= t < n ==> (#[trigger] self@.logs[t]).day != *day,
                idx < n ==> self@.logs[idx as int].day == *day,
            decreases n - k,
        {
            if self.completion[k].day == *day {
                idx = k;
                break ;
            }
            k = k + 1;
        }
        if idx < n {
            let present = contains_u32(&self.completion[idx].ids, id);
            if !present {
                self.completion[idx].ids.push(id);
                proof {
                    assert(self@.tasks =~= old(self)@.tasks);
                    assert(self@.logs =~= old(self)@.logs.update(
                        idx as int,
                        LogModel {
                            day: old(self)@.logs[idx as int].day,
                            ids: old(self)@.logs[idx as int].ids.push(id),
                        },
                    ));
                    lemma_done_after_insert(old(self)@, self@, idx as int, id, *day);
                    assert(!old(self)@.spec_done(id, *day)) by {
                        if old(self)@.spec_done(id, *day) {
                            let w = choose|w: int|
                                0 <= w < old(self)@.logs.len() && (#[trigger] old(
                                    self,
                                )@.logs[w]).day == *day && old(self)@.logs[w].ids.contains(id);
                            if w != idx {
                                assert(old(self)@.logs[w].day != old(self)@.logs[idx as int].day);
                            }
                        }
                    }
                    assert(old(self)@.logs[idx as int].day == *day);
                    assert(self@.logs == old(self)@.logs.update(
                        idx as int,
                        LogModel { day: *day, ids: old(self)@.logs[idx as int].ids.push(id) },
                    ));
                }
            } else {
                proof {
                    assert(old(self)@.spec_done(id, *day));
                    assert(forall|i2: u32, d2: Day|
                        self@.spec_done(i2, d2) == (old(self)@.spec_done(i2, d2) || (i2 == id && d2
                            == *day)));
                }
            }
        } else {
            let mut ids: Vec<u32> = Vec::new();
            ids.push(id);
            proof {
                assert(ids@ =~= seq![id]);
            }
            self.completion.push(DayLog { day: *day, ids });
            proof {
                assert(self@.tasks =~= old(self)@.tasks);
                assert(self@.logs =~= old(self)@.logs.push(LogModel { day: *day, ids: seq![id] }));
                lemma_done_after_append(old(self)@, self@, id, *day);
                assert(!old(self)@.spec_done(id, *day));
            }
        }
    }

    /// The tasks not yet marked done on `day`, in insertion order: what the
    /// today listing shows.
    pub fn remaining_tasks(&self, day: &Day) -> (r: Vec<TaskDescription>)
        ensures
            r@.map_values(|t: TaskDescription| t@) == self@.tasks.filter(pending(self@, *day)),
    {
        let mut r: Vec<TaskDescription> = Vec::new();
        let n = self.tasks.len();
        let mut k: usize = 0;
        while k < n
            invariant
                n == self.tasks@.len(),
                k <= n,
                r@.map_values(|t: TaskDescription| t@) == self@.tasks.take(k as int).filter(
                    pending(self@, *day),
                ),
            decreases n - k,
        {
            let ghost prefix = self@.tasks.take(k as int);
            let ghost mapped = r@.map_values(|t: TaskDescription| t@);
            proof {
                reveal(Seq::filter);
                assert(self@.tasks.take(k as int + 1).drop_last() =~= prefix);
                assert(self@.tasks.take(k as int + 1).last() == self@.tasks[k as int]);
                assert(pending(self@, *day)(self@.tasks[k as int]) == !self@.spec_done(
                    self@.tasks[k as int].id,
                    *day,
                ));
                assert(self@.tasks[k as int].id == self.tasks@[k as int].id);
            }
            let done = self.is_task_done(self.tasks[k].id, day);
            if !done {
                let item = self.tasks[k].clone();
                r.push(item);
                proof {
                    assert(r@.map_values(|t: TaskDescription| t@) =~= mapped.push(
                        self@.tasks[k as int],
                    ));
                    assert(pending(self@, *day)(self@.tasks.take(k as int + 1).last()));
                }
            } else {
                proof {
                    assert(!pending(self@, *day)(self@.tasks.take(k as int + 1).last()));
                }
            }
            proof {
                assert(r@.map_values(|t: TaskDescription| t@) == self@.tasks.take(k as int
                    + 1).filter(pending(self@, *day)));
            }
            k = k + 1;
        }
        proof {
            assert(self@.tasks.take(n as int) =~= self@.tasks);
        }
        r
    }

    /// One row of the statistics grid: for each day of `days`, whether `id`
    /// was marked done on it.
    pub fn done_marks(&self, id: u32, days: &Vec<Day>) -> (r: Vec<bool>)
        ensures
            r@.len() == days@.len(),
            forall|j: int| 0 <= j < days@.len() ==> r@[j] == self@.spec_done(id, days@[j]),
    {
        let mut r: Vec<bool> = Vec::new();
        let n = days.len();
        let mut k: usize = 0;
        while k < n
            invariant
                n == days@.len(),
                k <= n,
                r@.len() == k,
                forall|j: int| 0 <= j < k ==> r@[j] == self@.spec_done(id, days@[j]),
            decreases n - k,
        {
            let done = self.is_task_done(id, &days[k]);
            r.push(done);
            k = k + 1;
        }
        r
    }

    /// Marks `id` done on `day` if such a task exists; otherwise fails with
    /// a not-found message and leaves the store untouched.
    pub fn mark_task_done(&mut self, id: u32, day: &Day) -> (r: Result<(), String>)
        requires
            old(self)@.wf(),
            day.wf(),
        ensures
            old(self)@.has_task(id) ==> {
                &&& r is Ok
                &&& final(self)@.wf()
                &&& final(self)@.tasks == old(self)@.tasks
                &&& final(self)@.next_id == old(self)@.next_id
                &&& forall|i2: u32, d2: Day|
                    final(self)@.spec_done(i2, d2) == (old(self)@.spec_done(i2, d2) || (i2 == id
                        && d2 == *day))
                &&& old(self)@.spec_done(id, *day) ==> final(self)@ == old(self)@
                &&& !old(self)@.spec_done(id, *day) ==> {
                    ||| exists|k: int|
                        0 <= k < old(self)@.logs.len() && (#[trigger] old(self)@.logs[k]).day
                            == *day && final(self)@.logs == old(self)@.logs.update(
                            k,
                            LogModel { day: *day, ids: old(self)@.logs[k].ids.push(id) },
                        )
                    ||| final(self)@.logs == old(self)@.logs.push(
                        LogModel { day: *day, ids: seq![id] },
                    )
                }
            },
            !old(self)@.has_task(id) ==> {
                &&& r matches Err(m) && m@ == not_found_msg(id)
                &&& *final(self) == *old(self)
            },
    {
        if self.get_task(id).is_some() {
            self.add_completion(id, day);
            Ok(())
        } else {
            Err(not_found_message(id))
        }
    }
}

/// The diagnostic for a marking attempt on an ID no task carries.
pub open spec fn not_found_msg(id: u32) -> Seq<char> {
    ("Task with ID ")@ + dec_rep(id as nat) + (" not found.")@
}

fn not_found_message(id: u32) -> (r: String)
    ensures
        r@ == not_found_msg(id),
{
    let mut s = String::from_str("Task with ID ");
    push_dec(&mut s, id as u64);
    s.append(" not found.");
    s
}

/// After pushing `id` onto the day's record at `idx`, the completion
/// relation grows by exactly that pair, and the invariants hold.
proof fn lemma_done_after_insert(pre: DataModel, post: DataModel, idx: int, id: u32, day: Day)
    requires
        pre.wf(),
        day.wf(),
        0 <= idx < pre.logs.len(),
        pre.logs[idx].day == day,
        !pre.logs[idx].ids.contains(id),
        post.next_id == pre.next_id,
        post.tasks == pre.tasks,
        post.logs == pre.logs.update(
            idx,
            LogModel { day: pre.logs[idx].day, ids: pre.logs[idx].ids.push(id) },
        ),
    ensures
        post.wf(),
        forall|i2: u32, d2: Day|
            post.spec_done(i2, d2) == (pre.spec_done(i2, d2) || (i2 == id && d2 == day)),
{
    let old_ids = pre.logs[idx].ids;
    let new_ids = old_ids.push(id);
    assert(forall|j: int| 0 <= j < old_ids.len() ==> old_ids[j] != id);
    assert(new_ids.no_duplicates()) by {
        assert(forall|j: int| 0 <= j < old_ids.len() ==> new_ids[j] == old_ids[j]);
        assert(new_ids[old_ids.len() as int] == id);
    }
    assert(post.logs[idx].wf());
    assert forall|i2: u32, d2: Day|
        post.spec_done(i2, d2) == (pre.spec_done(i2, d2) || (i2 == id && d2 == day)) by {
        if post.spec_done(i2, d2) {
            let w = choose|w: int|
                0 <= w < post.logs.len() && (#[trigger] post.logs[w]).day == d2
                    && post.logs[w].ids.contains(i2);
            if w != idx {
                assert(pre.logs[w].day == d2 && pre.logs[w].ids.contains(i2));
                assert(pre.spec_done(i2, d2));
            } else {
                let j = choose|j: int| 0 <= j < new_ids.len() && new_ids[j] == i2;
                if j < old_ids.len() {
                    assert(pre.logs[idx].ids.contains(i2));
                    assert(pre.spec_done(i2, d2));
                } else {
                    assert(i2 == id && d2 == day);
                }
            }
        }
        if pre.spec_done(i2, d2) {
            let w = choose|w: int|
                0 <= w < pre.logs.len() && (#[trigger] pre.logs[w]).day == d2
                    && pre.logs[w].ids.contains(i2);
            if w != idx {
                assert(post.logs[w].day == d2 && post.logs[w].ids.contains(i2));
            } else {
                let j = choose|j: int| 0 <= j < old_ids.len() && old_ids[j] == i2;
                assert(new_ids[j] == i2);
                assert(post.logs[idx].ids.contains(i2));
            }
            assert(post.spec_done(i2, d2));
        }
        if i2 == id && d2 == day {
            assert(new_ids[old_ids.len() as int] == id);
            assert(post.logs[idx].ids.contains(i2));
            assert(post.spec_done(i2, d2));
        }
    }
}

/// After appending a fresh one-entry record for a day the log did not hold,
/// the completion relation grows by exactly that pair.
proof fn lemma_done_after_append(pre: DataModel, post: DataModel, id: u32, day: Day)
    requires
        pre.wf(),
        day.wf(),
        forall|t: int| 0 <= t < pre.logs.len() ==> (#[trigger] pre.logs[t]).day != day,
        post.next_id == pre.next_id,
        post.tasks == pre.tasks,
        post.logs == pre.logs.push(LogModel { day, ids: seq![id] }),
    ensures
        post.wf(),
        forall|i2: u32, d2: Day|
            post.spec_done(i2, d2) == (pre.spec_done(i2, d2) || (i2 == id && d2 == day)),
{
    let m = pre.logs.len() as int;
    assert(post.logs[m].wf()) by {
        assert(seq![id].no_duplicates());
    }
    assert(forall|t: int| 0 <= t < m ==> post.logs[t] == pre.logs[t]);
    assert forall|i2: u32, d2: Day|
        post.spec_done(i2, d2) == (pre.spec_done(i2, d2) || (i2 == id && d2 == day)) by {
        if post.spec_done(i2, d2) {
            let w = choose|w: int|
                0 <= w < post.logs.len() && (#[trigger] post.logs[w]).day == d2
                    && post.logs[w].ids.contains(i2);
            if w < m {
                assert(pre.spec_done(i2, d2));
            } else {
                let j = choose|j: int| 0 <= j < seq![id].len() && seq![id][j] == i2;
                assert(i2 == id && d2 == day);
            }
        }
        if pre.spec_done(i2, d2) {
            let w = choose|w: int|
                0 <= w < pre.logs.len() && (#[trigger] pre.logs[w]).day == d2
                    && pre.logs[w].ids.contains(i2);
            assert(post.logs[w].day == d2 && post.logs[w].ids.contains(i2));
            assert(post.spec_done(i2, d2));
        }
        if i2 == id && d2 == day {
            assert(post.logs[m].ids[0] == id);
            assert(post.logs[m].ids.contains(i2));
            assert(post.spec_done(i2, d2));
        }
    }
}

} // verus!
