//! The task store: the tasks in insertion order and the allocation of
//! identifiers.
use vstd::prelude::*;
use crate::codec::{
    format_tasks, lemma_bad_line_skipped, lemma_parse_text_ids, parse_line, parse_tasks, parse_text,
    storable, text_of,
};
use crate::task::{TaskView, Todo};

verus! {

/// Every identifier in `s` is below `bound`.
pub open spec fn ids_below(s: Seq<TaskView>, bound: nat) -> bool {
    forall|i: int| 0 <= i < s.len() ==> #[trigger] s[i].id < bound
}

/// Whether some task in `s` carries `id`.
pub open spec fn has_id(s: Seq<TaskView>, id: nat) -> bool {
    exists|i: int| 0 <= i < s.len() && #[trigger] s[i].id == id
}

/// Index of the first task of `s` that carries `id`, or `s.len()` if none does.
pub open spec fn first_with_id(s: Seq<TaskView>, id: nat) -> int
    decreases s.len(),
{
    if s.len() == 0 {
        0
    } else if s[0].id == id {
        0
    } else {
        1 + first_with_id(s.drop_first(), id)
    }
}

/// `s` with a pending task `(id, d)` appended.
pub open spec fn added(s: Seq<TaskView>, id: nat, d: Seq<char>) -> Seq<TaskView> {
    s.push(TaskView { id, description: d, done: false })
}

/// `s` without the first task that carries `id`.
pub open spec fn removed(s: Seq<TaskView>, id: nat) -> Seq<TaskView> {
    let k = first_with_id(s, id);
    if k < s.len() {
        s.remove(k)
    } else {
        s
    }
}

/// `s` with the description of the first task that carries `id` set to `d`.
pub open spec fn edited(s: Seq<TaskView>, id: nat, d: Seq<char>) -> Seq<TaskView> {
    let k = first_with_id(s, id);
    if k < s.len() {
        s.update(k, TaskView { description: d, ..s[k] })
    } else {
        s
    }
}

/// `s` with the first task that carries `id` marked done.
pub open spec fn marked(s: Seq<TaskView>, id: nat) -> Seq<TaskView> {
    let k = first_with_id(s, id);
    if k < s.len() {
        s.update(k, TaskView { done: true, ..s[k] })
    } else {
        s
    }
}

/// The tasks that a load finds: those the text holds, or none without text.
pub open spec fn loaded(contents: Option<&str>) -> Seq<TaskView> {
    match contents {
        Some(text) => parse_text(text@),
        None => seq![],
    }
}

/// The identifier to assign after loading `s` into a store whose counter
/// stood at `floor`: the larger of `floor` and one above each identifier of
/// `s`.
pub open spec fn next_after(floor: nat, s: Seq<TaskView>) -> nat
    decreases s.len(),
{
    if s.len() == 0 {
        floor
    } else {
        next_after(
            if s[0].id + 1 > floor {
                s[0].id + 1
            } else {
                floor
            },
            s.drop_first(),
        )
    }
}

/// No two tasks of `s` share an identifier.
pub open spec fn ids_distinct(s: Seq<TaskView>) -> bool {
    forall|i: int, j: int| 0 <= i < s.len() && 0 <= j < s.len() && i != j ==> #[trigger] s[i].id
        != #[trigger] s[j].id
}

/// The tasks and the next identifier of a new store after adding the
/// descriptions `descs`, in order.
pub open spec fn after_adds(descs: Seq<Seq<char>>) -> (Seq<TaskView>, nat)
    decreases descs.len(),
{
    if descs.len() == 0 {
        (seq![], 1)
    } else {
        let (s, next) = after_adds(descs.drop_last());
        (added(s, next, descs.last()), next + 1)
    }
}

/// The collection of tasks, in insertion order, and the identifier that the
/// next added task receives.
pub struct TodoList {
    tasks: Vec<Todo>,
    next_id: usize,
}

impl TodoList {
    /// The tasks, in insertion order.
    pub closed spec fn tasks_view(&self) -> Seq<TaskView> {
        self.tasks@.map_values(|t: Todo| t@)
    }

    /// The identifier that the next added task receives.
    pub closed spec fn next(&self) -> nat {
        self.next_id as nat
    }

    /// Every identifier present lies below the next one to be assigned.
    pub open spec fn wf(&self) -> bool {
        ids_below(self.tasks_view(), self.next())
    }

    /// An empty store whose first task will get identifier 1.
    pub fn new() -> (r: TodoList)
        ensures
            r.tasks_view() == Seq::<TaskView>::empty(),
            r.next() == 1,
            r.wf(),
    {
        TodoList { tasks: Vec::new(), next_id: 1 }
    }

    /// The tasks, read-only, in insertion order.
    pub fn list_tasks(&self) -> (r: &Vec<Todo>)
        ensures
            r@.map_values(|t: Todo| t@) == self.tasks_view(),
    {
        &self.tasks
    }

    /// The identifier that the next added task receives.
    pub fn next_id(&self) -> (r: usize)
        ensures
            r as nat == self.next(),
    {
        self.next_id
    }

    /// Index of the first task carrying `id`, or the number of tasks if none does.
    fn find_index(&self, id: usize) -> (r: usize)
        ensures
            r as int == first_with_id(self.tasks_view(), id as nat),
    {
        let ghost s = self.tasks_view();
        let mut i: usize = 0;
        while i < self.tasks.len()
            invariant
                s == self.tasks_view(),
                i <= self.tasks.len(),
                forall|j: int| 0 <= j < i ==> #[trigger] s[j].id != id as nat,
            ensures
                i <= self.tasks.len(),
                i == self.tasks.len() || s[i as int].id == id as nat,
                forall|j: int| 0 <= j < i ==> #[trigger] s[j].id != id as nat,
            decreases self.tasks.len() - i,
        {
            if self.tasks[i].id == id {
                break;
            }
            i = i + 1;
        }
        proof {
            lemma_first_with_id(s, id as nat, i as int);
        }
        i
    }

    /// Appends a new pending task with the next identifier, and returns that
    /// identifier.
    pub fn add_task(&mut self, description: String) -> (id: usize)
        requires
            old(self).wf(),
            old(self).next() < usize::MAX,
        ensures
            id as nat == old(self).next(),
            final(self).tasks_view() == added(old(self).tasks_view(), old(self).next(), description@),
            final(self).next() == old(self).next() + 1,
            final(self).wf(),
    {
        let id = self.next_id;
        let task = Todo { id, description, done: false };
        self.tasks.push(task);
        self.next_id = self.next_id + 1;
        proof {
            assert(self.tasks_view() =~= added(old(self).tasks_view(), old(self).next(), description@));
        }
        id
    }

    /// Removes the first task carrying `id`; returns whether there was one.
    pub fn remove_task(&mut self, id: usize) -> (found: bool)
        requires
            old(self).wf(),
        ensures
            found == has_id(old(self).tasks_view(), id as nat),
            final(self).tasks_view() == removed(old(self).tasks_view(), id as nat),
            final(self).next() == old(self).next(),
            final(self).wf(),
    {
        let pos = self.find_index(id);
        proof {
            lemma_first_with_id_found(self.tasks_view(), id as nat);
        }
        if pos < self.tasks.len() {
            self.tasks.remove(pos);
            proof {
                assert(self.tasks_view() =~= old(self).tasks_view().remove(pos as int));
            }
            true
        } else {
            false
        }
    }

    /// Replaces the description of the first task carrying `id`; returns
    /// whether there was one.
    pub fn edit_task(&mut self, id: usize, new_description: String) -> (found: bool)
        requires
            old(self).wf(),
        ensures
            found == has_id(old(self).tasks_view(), id as nat),
            final(self).tasks_view() == edited(old(self).tasks_view(), id as nat, new_description@),
            final(self).next() == old(self).next(),
            final(self).wf(),
    {
        let pos = self.find_index(id);
        proof {
            lemma_first_with_id_found(self.tasks_view(), id as nat);
        }
        if pos < self.tasks.len() {
            self.tasks[pos].description = new_description;
            proof {
                assert(self.tasks_view() =~= edited(old(self).tasks_view(), id as nat, new_description@));
            }
            true
        } else {
            false
        }
    }

    /// Marks the first task carrying `id` as done; returns whether there was one.
    pub fn mark_done(&mut self, id: usize) -> (found: bool)
        requires
            old(self).wf(),
        ensures
            found == has_id(old(self).tasks_view(), id as nat),
            final(self).tasks_view() == marked(old(self).tasks_view(), id as nat),
            final(self).next() == old(self).next(),
            final(self).wf(),
    {
        let pos = self.find_index(id);
        proof {
            lemma_first_with_id_found(self.tasks_view(), id as nat);
        }
        if pos < self.tasks.len() {
            self.tasks[pos].done = true;
            proof {
                assert(self.tasks_view() =~= marked(old(self).tasks_view(), id as nat));
            }
            true
        } else {
            false
        }
    }

    /// The text that persists the store: one line per task, in order.
    pub fn save_to_string(&self) -> (r: String)
        ensures
            r@ == text_of(self.tasks_view()),
    {
        format_tasks(&self.tasks)
    }

    /// Replaces the tasks by those that `contents` holds, or by none when
    /// there is no saved text, and raises the next identifier above every
    /// identifier loaded. Lines that hold no task are skipped.
    pub fn load_from_str(&mut self, contents: Option<&str>)
        requires
            old(self).wf(),
        ensures
            final(self).tasks_view() == loaded(contents),
            final(self).next() == next_after(old(self).next(), loaded(contents)),
            final(self).next() >= old(self).next(),
            final(self).wf(),
    {
        match contents {
            None => {
                self.tasks = Vec::new();
                assert(self.tasks_view() =~= Seq::<TaskView>::empty());
            },
            Some(text) => {
                let tasks = parse_tasks(text);
                let ghost s = tasks@.map_values(|t: Todo| t@);
                proof {
                    lemma_parse_text_ids(text@);
                }
                let mut next = self.next_id;
                let mut i: usize = 0;
                assert(s.subrange(0, s.len() as int) =~= s);
                while i < tasks.len()
                    invariant
                        s == tasks@.map_values(|t: Todo| t@),
                        s == parse_text(text@),
                        forall|j: int| 0 <= j < s.len() ==> #[trigger] s[j].id < usize::MAX,
                        i <= tasks.len(),
                        next >= old(self).next_id,
                        forall|j: int| 0 <= j < i ==> #[trigger] s[j].id < next,
                        next_after(old(self).next(), s) == next_after(
                            next as nat,
                            s.subrange(i as int, s.len() as int),
                        ),
                    decreases tasks.len() - i,
                {
                    let id = tasks[i].id;
                    assert(s[i as int].id == id);
                    let ghost before = next;
                    if id + 1 > next {
                        next = id + 1;
                    }
                    assert(s.subrange(i as int, s.len() as int).drop_first() =~= s.subrange(
                        i + 1,
                        s.len() as int,
                    ));
                    i = i + 1;
                }
                self.tasks = tasks;
                self.next_id = next;
            },
        }
    }
}

/// Adding to a new store numbers the tasks 1, 2, 3, ... in the order they
/// were added, so their identifiers are distinct and strictly increasing.
pub proof fn lemma_adds_number_from_one(descs: Seq<Seq<char>>)
    ensures
        after_adds(descs).0.len() == descs.len(),
        after_adds(descs).1 == descs.len() + 1,
        forall|i: int|
            0 <= i < descs.len() ==> #[trigger] after_adds(descs).0[i] == (TaskView {
                id: (i + 1) as nat,
                description: descs[i],
                done: false,
            }),
        forall|i: int, j: int|
            0 <= i < j < descs.len() ==> #[trigger] after_adds(descs).0[i].id
                < #[trigger] after_adds(descs).0[j].id,
        ids_distinct(after_adds(descs).0),
    decreases descs.len(),
{
    if descs.len() > 0 {
        let prev = descs.drop_last();
        lemma_adds_number_from_one(prev);
        let s = after_adds(descs).0;
        assert forall|i: int| 0 <= i < descs.len() implies #[trigger] s[i] == (TaskView {
            id: (i + 1) as nat,
            description: descs[i],
            done: false,
        }) by {
            if i < prev.len() {
                assert(s[i] == after_adds(prev).0[i]);
                assert(descs[i] == prev[i]);
            }
        }
    }
}

/// Adding keeps identifiers distinct and below the advanced counter.
pub proof fn lemma_add_keeps_ids_distinct(s: Seq<TaskView>, next: nat, d: Seq<char>)
    requires
        ids_below(s, next),
        ids_distinct(s),
    ensures
        ids_below(added(s, next, d), next + 1),
        ids_distinct(added(s, next, d)),
{
    let t = added(s, next, d);
    assert forall|i: int| 0 <= i < t.len() implies #[trigger] t[i].id < next + 1 by {
        if i < s.len() {
            assert(t[i] == s[i]);
        }
    }
    assert forall|i: int, j: int|
        0 <= i < t.len() && 0 <= j < t.len() && i != j implies #[trigger] t[i].id
        != #[trigger] t[j].id by {
        if i < s.len() {
            assert(t[i] == s[i]);
        }
        if j < s.len() {
            assert(t[j] == s[j]);
        }
    }
}

/// An identifier that was removed is not handed out again: after the next
/// add no task carries it.
pub proof fn lemma_removed_id_not_reused(s: Seq<TaskView>, next: nat, id: nat, d: Seq<char>)
    requires
        ids_below(s, next),
        ids_distinct(s),
        has_id(s, id),
    ensures
        !has_id(added(removed(s, id), next, d), id),
{
    lemma_first_with_id_found(s, id);
    let k = first_with_id(s, id);
    let r = removed(s, id);
    let t = added(r, next, d);
    assert(s[k].id == id);
    if has_id(t, id) {
        let i = choose|i: int| 0 <= i < t.len() && #[trigger] t[i].id == id;
        if i < r.len() {
            if i < k {
                assert(r[i] == s[i]);
            } else {
                assert(r[i] == s[i + 1]);
            }
        }
    }
}

/// Editing, completing or removing an identifier that no task carries
/// leaves the tasks unchanged.
pub proof fn lemma_absent_id_changes_nothing(s: Seq<TaskView>, id: nat, d: Seq<char>)
    requires
        !has_id(s, id),
    ensures
        removed(s, id) == s,
        edited(s, id, d) == s,
        marked(s, id) == s,
{
    lemma_first_with_id_found(s, id);
}

/// Marking a task done twice leaves it as marking it once.
pub proof fn lemma_mark_done_idempotent(s: Seq<TaskView>, id: nat)
    ensures
        marked(marked(s, id), id) == marked(s, id),
{
    lemma_first_with_id_found(s, id);
    let m = marked(s, id);
    let k = first_with_id(s, id);
    assert forall|j: int| 0 <= j < k implies #[trigger] m[j].id != id by {
        assert(m[j] == s[j]);
    }
    lemma_first_with_id(m, id, k);
    if k < s.len() {
        assert(marked(m, id) =~= m);
    }
}

/// A store never hands out an identifier below the counter it had: loading
/// raises the counter or keeps it.
pub proof fn lemma_next_after_grows(floor: nat, s: Seq<TaskView>)
    ensures
        next_after(floor, s) >= floor,
        ids_below(s, next_after(floor, s)),
    decreases s.len(),
{
    if s.len() > 0 {
        let f = if s[0].id + 1 > floor {
            s[0].id + 1
        } else {
            floor
        };
        let t = s.drop_first();
        lemma_next_after_grows(f, t);
        assert forall|i: int| 0 <= i < s.len() implies #[trigger] s[i].id < next_after(
            floor,
            s,
        ) by {
            if i > 0 {
                assert(s[i] == t[i - 1]);
            }
        }
    }
}

/// Loading, into a new store, stored tasks among which stands one line that
/// holds no task gives exactly those tasks, and a next identifier that
/// depends on them alone.
pub proof fn lemma_load_skips_bad_line(
    before: Seq<TaskView>,
    bad: Seq<char>,
    after: Seq<TaskView>,
)
    requires
        forall|i: int| 0 <= i < before.len() ==> storable(#[trigger] before[i]),
        forall|i: int| 0 <= i < after.len() ==> storable(#[trigger] after[i]),
        forall|i: int| 0 <= i < bad.len() ==> #[trigger] bad[i] != '\n',
        parse_line(bad) is None,
    ensures
        parse_text(text_of(before) + bad.push('\n') + text_of(after)) == before + after,
        next_after(1, parse_text(text_of(before) + bad.push('\n') + text_of(after)))
            == next_after(1, before + after),
{
    lemma_bad_line_skipped(before, bad, after);
}

proof fn lemma_first_with_id(s: Seq<TaskView>, id: nat, k: int)
    requires
        0 <= k <= s.len(),
        forall|j: int| 0 <= j < k ==> #[trigger] s[j].id != id,
        k == s.len() || s[k].id == id,
    ensures
        first_with_id(s, id) == k,
    decreases s.len(),
{
    if s.len() > 0 && k > 0 {
        assert(s[0].id != id);
        let t = s.drop_first();
        assert forall|j: int| 0 <= j < k - 1 implies #[trigger] t[j].id != id by {
            assert(t[j] == s[j + 1]);
        }
        lemma_first_with_id(t, id, k - 1);
    }
}

/// The first index with `id` is in range exactly when some task carries `id`,
/// and the task there carries it.
proof fn lemma_first_with_id_found(s: Seq<TaskView>, id: nat)
    ensures
        0 <= first_with_id(s, id) <= s.len(),
        first_with_id(s, id) < s.len() <==> has_id(s, id),
        first_with_id(s, id) < s.len() ==> s[first_with_id(s, id)].id == id,
        forall|j: int| 0 <= j < first_with_id(s, id) ==> #[trigger] s[j].id != id,
    decreases s.len(),
{
    if s.len() > 0 && s[0].id != id {
        let t = s.drop_first();
        lemma_first_with_id_found(t, id);
        assert forall|j: int| 0 <= j < first_with_id(s, id) implies #[trigger] s[j].id != id by {
            if j > 0 {
                assert(s[j] == t[j - 1]);
            }
        }
        if has_id(s, id) {
            let i = choose|i: int| 0 <= i < s.len() && #[trigger] s[i].id == id;
            assert(t[i - 1].id == id);
        }
        if has_id(t, id) {
            let i = choose|i: int| 0 <= i < t.len() && #[trigger] t[i].id == id;
            assert(s[i + 1].id == id);
        }
    }
}

} // verus!
