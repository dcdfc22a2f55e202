//! The task-list model: tasks with completion flags and unique identifiers,
//! kept sorted with incomplete tasks first, plus the four terminal renderings.

use vstd::prelude::*;

use crate::digits::{dec_of, u16_to_decimal};
use crate::style::{green_bold_of, red_bold_of, white_of, white_underline_of};
use crate::style::{paint_green_bold, paint_red_bold, paint_white, paint_white_underline};

verus! {

/// One to-do entry.
#[derive(Debug, PartialEq, Eq, PartialOrd, Ord)]
pub struct Task {
    pub complete: bool,
    pub num: u16,
    pub task: String,
    pub description: String,
}

/// The mathematical value of a `Task`.
pub ghost struct TaskView {
    pub complete: bool,
    pub num: u16,
    pub task: Seq<char>,
    pub description: Seq<char>,
}

impl View for Task {
    type V = TaskView;

    open spec fn view(&self) -> TaskView {
        TaskView {
            complete: self.complete,
            num: self.num,
            task: self.task@,
            description: self.description@,
        }
    }
}

/// Strict display order: incomplete tasks come before complete ones, and
/// within each group tasks are ordered by ascending identifier.
pub open spec fn task_lt(a: TaskView, b: TaskView) -> bool {
    (!a.complete && b.complete) || (a.complete == b.complete && a.num < b.num)
}

/// The reflexive closure of `task_lt`.
pub open spec fn task_le(a: TaskView, b: TaskView) -> bool {
    task_lt(a, b) || (a.complete == b.complete && a.num == b.num)
}

/// The sequence is in display order.
pub open spec fn sorted(s: Seq<TaskView>) -> bool {
    forall|i: int, j: int| 0 <= i < j < s.len() ==> task_le(s[i], s[j])
}

/// No identifier occurs twice.
pub open spec fn unique_nums(s: Seq<TaskView>) -> bool {
    forall|i: int, j: int| 0 <= i < j < s.len() ==> s[i].num != s[j].num
}

/// The list invariant: display order and identifier uniqueness.
pub open spec fn wf_tasks(s: Seq<TaskView>) -> bool {
    sorted(s) && unique_nums(s)
}

/// Some task carries the identifier `n`.
pub open spec fn contains_num(s: Seq<TaskView>, n: u16) -> bool {
    exists|i: int| 0 <= i < s.len() && s[i].num == n
}

/// The position of the task with identifier `n` (unique when `unique_nums`).
pub open spec fn idx_of_num(s: Seq<TaskView>, n: u16) -> int {
    choose|i: int| 0 <= i < s.len() && s[i].num == n
}

/// The largest identifier in use, or 0 for an empty list.
pub open spec fn max_num(s: Seq<TaskView>) -> u16
    decreases s.len(),
{
    if s.len() == 0 {
        0
    } else {
        let m = max_num(s.drop_last());
        if s.last().num > m {
            s.last().num
        } else {
            m
        }
    }
}

/// `t` placed at its ordered position in `s`.
pub open spec fn insert_sorted(s: Seq<TaskView>, t: TaskView) -> Seq<TaskView>
    decreases s.len(),
{
    if s.len() == 0 {
        seq![t]
    } else if task_lt(t, s[0]) {
        seq![t] + s
    } else {
        seq![s[0]] + insert_sorted(s.drop_first(), t)
    }
}

/// `t` with its completion flag set.
pub open spec fn marked_done(t: TaskView) -> TaskView {
    TaskView { complete: true, ..t }
}

/// What completing identifier `n` does to a sorted list: nothing when `n` is
/// absent or already complete; otherwise the task moves to its new position
/// with the flag set.
pub open spec fn complete_spec(s: Seq<TaskView>, n: u16) -> Seq<TaskView> {
    if !contains_num(s, n) {
        s
    } else {
        let i = idx_of_num(s, n);
        if s[i].complete {
            s
        } else {
            insert_sorted(s.remove(i), marked_done(s[i]))
        }
    }
}

/// What deleting identifier `n` does: nothing when absent, otherwise the one
/// task with that identifier is removed.
pub open spec fn delete_spec(s: Seq<TaskView>, n: u16) -> Seq<TaskView> {
    if contains_num(s, n) {
        s.remove(idx_of_num(s, n))
    } else {
        s
    }
}

/// What adding a task does: a fresh incomplete task, with the successor of the
/// largest identifier in use, at its ordered position.
pub open spec fn add_spec(s: Seq<TaskView>, title: Seq<char>, description: Seq<char>) -> Seq<
    TaskView,
> {
    insert_sorted(
        s,
        TaskView {
            complete: false,
            num: (max_num(s) + 1) as u16,
            task: title,
            description,
        },
    )
}

/// The identifier in decimal, right-aligned in a field of width three.
pub open spec fn pad3_of(n: u16) -> Seq<char> {
    if n < 10 {
        seq![' ', ' '] + dec_of(n as nat)
    } else if n < 100 {
        seq![' '] + dec_of(n as nat)
    } else {
        dec_of(n as nat)
    }
}

/// The spacing around a description in a full rendering: a line break and a
/// six-space indent, but only for descriptions longer than one character.
pub open spec fn sep_of(d: Seq<char>) -> Seq<char> {
    if d.len() > 1 {
        seq!['\n', ' ', ' ', ' ', ' ', ' ', ' ']
    } else {
        Seq::empty()
    }
}

/// Short rendering: padded identifier, `": "`, title.
pub open spec fn render_short_of(t: TaskView) -> Seq<char> {
    pad3_of(t.num) + seq![':', ' '] + t.task
}

/// The identifier field of a colored rendering: bold green when complete,
/// bold red when not.
pub open spec fn paint_num_of(t: TaskView) -> Seq<char> {
    if t.complete {
        green_bold_of(pad3_of(t.num))
    } else {
        red_bold_of(pad3_of(t.num))
    }
}

/// Short colored rendering: the identifier colored by completion, the title
/// underlined.
pub open spec fn render_short_colored_of(t: TaskView) -> Seq<char> {
    paint_num_of(t) + seq![':', ' '] + white_underline_of(t.task)
}

/// Full rendering: the short form followed by the description, spaced and
/// indented only when the description is longer than one character.
pub open spec fn render_full_of(t: TaskView) -> Seq<char> {
    pad3_of(t.num) + seq![':', ' '] + t.task + seq![' '] + sep_of(t.description) + t.description
        + seq![' '] + sep_of(t.description)
}

/// Full colored rendering: the full layout with the identifier colored by
/// completion, the title underlined, and the description in plain white.
pub open spec fn render_full_colored_of(t: TaskView) -> Seq<char> {
    paint_num_of(t) + seq![':', ' '] + white_underline_of(t.task) + seq![' '] + sep_of(
        t.description,
    ) + white_of(t.description) + seq![' '] + sep_of(t.description)
}

/// Each task rendered by `line_of` and followed by a line break, in order.
pub open spec fn render_lines(s: Seq<TaskView>, line_of: spec_fn(TaskView) -> Seq<char>) -> Seq<
    char,
>
    decreases s.len(),
{
    if s.len() == 0 {
        Seq::empty()
    } else {
        render_lines(s.drop_last(), line_of) + line_of(s.last()) + seq!['\n']
    }
}

/// The whole list in short rendering, one line per task.
pub open spec fn lines_short_of(s: Seq<TaskView>) -> Seq<char> {
    render_lines(s, |t: TaskView| render_short_of(t))
}

/// The whole list in short colored rendering, one line per task.
pub open spec fn lines_short_colored_of(s: Seq<TaskView>) -> Seq<char> {
    render_lines(s, |t: TaskView| render_short_colored_of(t))
}

/// The whole list in full rendering, one line per task.
pub open spec fn lines_full_of(s: Seq<TaskView>) -> Seq<char> {
    render_lines(s, |t: TaskView| render_full_of(t))
}

/// The whole list in full colored rendering, one line per task.
pub open spec fn lines_full_colored_of(s: Seq<TaskView>) -> Seq<char> {
    render_lines(s, |t: TaskView| render_full_colored_of(t))
}

/// Every identifier in the list is bounded by `max_num`.
pub proof fn lemma_max_ge(s: Seq<TaskView>, i: int)
    requires
        0 <= i < s.len(),
    ensures
        s[i].num <= max_num(s),
    decreases s.len(),
{
    if i < s.len() - 1 {
        lemma_max_ge(s.drop_last(), i);
    }
}

/// A nonempty list attains its `max_num`.
pub proof fn lemma_max_attained(s: Seq<TaskView>)
    requires
        s.len() > 0,
    ensures
        contains_num(s, max_num(s)),
    decreases s.len(),
{
    if s.len() == 1 {
        assert(s.drop_last().len() == 0);
        assert(max_num(s.drop_last()) == 0);
        assert(s[0].num == max_num(s));
    } else if s.last().num >= max_num(s.drop_last()) {
        assert(s[s.len() - 1].num == max_num(s));
    } else {
        lemma_max_attained(s.drop_last());
        let j = choose|j: int|
            0 <= j < s.drop_last().len() && s.drop_last()[j].num == max_num(s.drop_last());
        assert(s[j].num == max_num(s));
    }
}

/// An upper bound on every identifier bounds `max_num`.
pub proof fn lemma_max_le(s: Seq<TaskView>, m: u16)
    requires
        forall|i: int| 0 <= i < s.len() ==> s[i].num <= m,
    ensures
        max_num(s) <= m,
    decreases s.len(),
{
    if s.len() > 0 {
        assert(forall|i: int| 0 <= i < s.drop_last().len() ==> s.drop_last()[i].num <= m);
        lemma_max_le(s.drop_last(), m);
    }
}

/// Placing `t` at position `i`, after everything not above it and before
/// everything above it, is exactly `insert_sorted`.
proof fn lemma_insert_sorted_is_insert_at(s: Seq<TaskView>, t: TaskView, i: int)
    requires
        0 <= i <= s.len(),
        forall|j: int| 0 <= j < i ==> !task_lt(t, #[trigger] s[j]),
        i < s.len() ==> task_lt(t, s[i]),
    ensures
        insert_sorted(s, t) == s.insert(i, t),
    decreases s.len(),
{
    if s.len() == 0 {
        assert(insert_sorted(s, t) =~= s.insert(0, t));
    } else if i == 0 {
        assert(task_lt(t, s[0]));
        assert(insert_sorted(s, t) =~= s.insert(0, t));
    } else {
        assert(!task_lt(t, s[0]));
        assert forall|j: int| 0 <= j < i - 1 implies !task_lt(t, #[trigger] s.drop_first()[j]) by {
            assert(s.drop_first()[j] == s[j + 1]);
        }
        assert(i - 1 < s.drop_first().len() ==> task_lt(t, s.drop_first()[i - 1]));
        lemma_insert_sorted_is_insert_at(s.drop_first(), t, i - 1);
        assert(insert_sorted(s, t) == seq![s[0]] + s.drop_first().insert(i - 1, t));
        assert(seq![s[0]] + s.drop_first().insert(i - 1, t) =~= s.insert(i, t));
    }
}

/// Removing one position preserves the list invariant.
proof fn lemma_remove_wf(s: Seq<TaskView>, i: int)
    requires
        wf_tasks(s),
        0 <= i < s.len(),
    ensures
        wf_tasks(s.remove(i)),
        forall|k: int| 0 <= k < s.remove(i).len() ==> #[trigger] s.remove(i)[k].num <= max_num(s),
{
    s.remove_ensures(i);
    let r = s.remove(i);
    assert forall|p: int, q: int| 0 <= p < q < r.len() implies task_le(r[p], r[q]) && r[p].num
        != r[q].num by {
        let p0 = if p < i { p } else { p + 1 };
        let q0 = if q < i { q } else { q + 1 };
        assert(r[p] == s[p0]);
        assert(r[q] == s[q0]);
    }
    assert forall|k: int| 0 <= k < r.len() implies #[trigger] r[k].num <= max_num(s) by {
        let k0 = if k < i { k } else { k + 1 };
        assert(r[k] == s[k0]);
        lemma_max_ge(s, k0);
    }
}

/// Completing an identifier that is not in the list changes nothing.
pub proof fn lemma_complete_absent_unchanged(s: Seq<TaskView>, n: u16)
    requires
        !contains_num(s, n),
    ensures
        complete_spec(s, n) == s,
{
}

/// Deleting an identifier that is not in the list changes nothing.
pub proof fn lemma_delete_absent_unchanged(s: Seq<TaskView>, n: u16)
    requires
        !contains_num(s, n),
    ensures
        delete_spec(s, n) == s,
{
}

/// Deleting an identifier below the maximum leaves the maximum unchanged:
/// the gap left by such a deletion is never refilled by a later add.
pub proof fn lemma_delete_keeps_max(s: Seq<TaskView>, n: u16)
    requires
        wf_tasks(s),
        n < max_num(s),
    ensures
        max_num(delete_spec(s, n)) == max_num(s),
{
    if contains_num(s, n) {
        let i = idx_of_num(s, n);
        assert(0 <= i < s.len() && s[i].num == n);
        let r = s.remove(i);
        s.remove_ensures(i);
        lemma_remove_wf(s, i);
        lemma_max_le(r, max_num(s));
        lemma_max_attained(s);
        let j = choose|j: int| 0 <= j < s.len() && s[j].num == max_num(s);
        assert(j != i);
        let j1 = if j < i { j } else { j - 1 };
        assert(r[j1] == s[j]);
        lemma_max_ge(r, j1);
    }
}

/// An ordered, owned collection of tasks.
#[derive(Debug)]
pub struct TaskList {
    tasks: Vec<Task>,
}

impl View for TaskList {
    type V = Seq<TaskView>;

    closed spec fn view(&self) -> Seq<TaskView> {
        self.tasks@.map_values(|t: Task| t@)
    }
}

/// `a` comes strictly before `b` in display order.
fn task_lt_exec(a: &Task, b: &Task) -> (r: bool)
    ensures
        r == task_lt(a@, b@),
{
    (!a.complete && b.complete) || (a.complete == b.complete && a.num < b.num)
}

/// `a` comes no later than `b` in display order.
fn task_le_exec(a: &Task, b: &Task) -> (r: bool)
    ensures
        r == task_le(a@, b@),
{
    (!a.complete && b.complete) || (a.complete == b.complete && a.num <= b.num)
}

impl TaskList {
    /// The list invariant: display order and identifier uniqueness.
    pub open spec fn wf(&self) -> bool {
        wf_tasks(self@)
    }

    /// A list owning exactly these tasks, in this order.
    pub(crate) fn from_tasks(tasks: Vec<Task>) -> (r: TaskList)
        ensures
            r@ == tasks@.map_values(|t: Task| t@),
    {
        TaskList { tasks }
    }

    /// Decides the list invariant: display order and identifier uniqueness.
    pub fn is_well_formed(&self) -> (r: bool)
        ensures
            r == self.wf(),
    {
        let len = self.tasks.len();
        let mut p: usize = 0;
        while p < len
            invariant
                len == self.tasks.len(),
                self@.len() == len,
                0 <= p <= len,
                forall|x: int, y: int|
                    0 <= x < y < len && x < p ==> #[trigger] task_le(self@[x], self@[y])
                        && self@[x].num != self@[y].num,
            decreases len - p,
        {
            let mut q = p + 1;
            while q < len
                invariant
                    len == self.tasks.len(),
                    self@.len() == len,
                    0 <= p < len,
                    p < q <= len,
                    forall|x: int, y: int|
                        0 <= x < y < len && x < p ==> #[trigger] task_le(self@[x], self@[y])
                            && self@[x].num != self@[y].num,
                    forall|y: int|
                        p < y < q ==> task_le(self@[p as int], #[trigger] self@[y])
                            && self@[p as int].num != self@[y].num,
                decreases len - q,
            {
                proof {
                    assert(self@[p as int] == self.tasks@[p as int]@);
                    assert(self@[q as int] == self.tasks@[q as int]@);
                }
                let le_ok = task_le_exec(&self.tasks[p], &self.tasks[q]);
                if !le_ok || self.tasks[p].num == self.tasks[q].num {
                    return false;
                }
                q += 1;
            }
            proof {
                assert forall|x: int, y: int| 0 <= x < y < len && x < p + 1 implies #[trigger] task_le(
                    self@[x],
                    self@[y],
                ) && self@[x].num != self@[y].num by {
                    if x < p as int {
                        assert(task_le(self@[x], self@[y]) && self@[x].num != self@[y].num);
                    } else {
                        assert(task_le(self@[p as int], self@[y]) && self@[p as int].num
                            != self@[y].num);
                    }
                }
            }
            p += 1;
        }
        proof {
            assert forall|x: int, y: int| 0 <= x < y < self@.len() implies #[trigger] task_le(
                self@[x],
                self@[y],
            ) by {
            }
            assert forall|x: int, y: int|
                #![trigger self@[x].num, self@[y].num]
                0 <= x < y < self@.len() implies self@[x].num != self@[y].num by {
                assert(task_le(self@[x], self@[y]));
            }
            assert(sorted(self@));
            assert(unique_nums(self@));
        }
        true
    }

    /// An empty list.
    pub fn new() -> (r: TaskList)
        ensures
            r@ == Seq::<TaskView>::empty(),
            r.wf(),
    {
        let r = TaskList { tasks: Vec::new() };
        proof {
            assert(r@ =~= Seq::<TaskView>::empty());
        }
        r
    }

    /// Read access to the tasks, in display order.
    pub fn tasks(&self) -> (r: &Vec<Task>)
        ensures
            r@.len() == self@.len(),
            forall|i: int| 0 <= i < r@.len() ==> #[trigger] r@[i]@ == self@[i],
    {
        &self.tasks
    }

    /// The identifier the next added task will receive: one more than the
    /// largest identifier in use, so 1 on an empty list, and never a number
    /// freed by a deletion.
    pub fn next_identifier(&self) -> (r: u16)
        requires
            max_num(self@) < u16::MAX,
        ensures
            r == max_num(self@) + 1,
            self@.len() == 0 ==> r == 1,
    {
        let ghost s = self@;
        let mut m: u16 = 0;
        let mut i: usize = 0;
        while i < self.tasks.len()
            invariant
                0 <= i <= self.tasks.len(),
                s == self@,
                s.len() == self.tasks.len(),
                m == max_num(s.take(i as int)),
            decreases self.tasks.len() - i,
        {
            proof {
                assert(s.take(i + 1).drop_last() =~= s.take(i as int));
                assert(s.take(i + 1).last() == s[i as int]);
                assert(s[i as int] == self.tasks@[i as int]@);
            }
            if self.tasks[i].num > m {
                m = self.tasks[i].num;
            }
            i += 1;
        }
        proof {
            assert(s.take(s.len() as int) =~= s);
        }
        m + 1
    }

    /// Place a task at its ordered position. The identifier must be fresh;
    /// callers reserve one through `next_identifier`.
    pub fn push(&mut self, task: Task)
        requires
            old(self).wf(),
            !contains_num(old(self)@, task@.num),
        ensures
            final(self).wf(),
            final(self)@ == insert_sorted(old(self)@, task@),
    {
        let ghost s = self@;
        let ghost t = task@;
        let mut i: usize = 0;
        while i < self.tasks.len() && !task_lt_exec(&task, &self.tasks[i])
            invariant
                0 <= i <= self.tasks.len(),
                s == self@,
                s.len() == self.tasks.len(),
                t == task@,
                forall|j: int| 0 <= j < i ==> !task_lt(t, #[trigger] s[j]),
            decreases self.tasks.len() - i,
        {
            proof {
                assert(s[i as int] == self.tasks@[i as int]@);
            }
            i += 1;
        }
        proof {
            if i < self.tasks.len() {
                assert(s[i as int] == self.tasks@[i as int]@);
                assert(task_lt(t, s[i as int]));
            }
        }
        self.tasks.insert(i, task);
        proof {
            lemma_insert_sorted_is_insert_at(s, t, i as int);
            assert(self@ =~= s.insert(i as int, t));
            let ns = s.insert(i as int, t);
            s.insert_ensures(i as int, t);
            assert forall|j: int| 0 <= j < s.len() implies s[j].num != t.num by {
                if s[j].num == t.num {
                    assert(contains_num(s, t.num));
                }
            }
            assert forall|p: int, q: int| 0 <= p < q < ns.len() implies task_le(ns[p], ns[q])
                && ns[p].num != ns[q].num by {
                let p0 = if p < i as int { p } else { p - 1 };
                let q0 = if q < i as int { q } else { q - 1 };
                if p < i as int && q > i as int {
                    assert(ns[p] == s[p]);
                    assert(ns[q] == s[q - 1]);
                } else if q == i as int {
                    assert(ns[p] == s[p]);
                    assert(ns[q] == t);
                } else if p == i as int {
                    assert(ns[p] == t);
                    assert(ns[q] == s[q - 1]);
                    assert(task_lt(t, s[i as int]));
                    assert((i as int) <= q - 1 < s.len());
                    assert((i as int) < q - 1 ==> task_le(s[i as int], s[q - 1]));
                } else {
                    assert(ns[p] == s[p0]);
                    assert(ns[q] == s[q0]);
                }
            }
        }
    }

    /// Add a new incomplete task under the next free identifier.
    pub fn new_task(&mut self, task: &str, description: &str)
        requires
            old(self).wf(),
            max_num(old(self)@) < u16::MAX,
        ensures
            final(self).wf(),
            final(self)@ == add_spec(old(self)@, task@, description@),
    {
        let ghost s = self@;
        let num = self.next_identifier();
        let t = Task::new(num, task, description);
        proof {
            assert forall|j: int| 0 <= j < s.len() implies s[j].num != num by {
                lemma_max_ge(s, j);
            }
            assert(!contains_num(s, num));
        }
        self.push(t);
    }

    /// Mark the task with identifier `num` (if any) complete and restore
    /// display order. Unknown identifiers are a silent no-op.
    pub fn complete(&mut self, num: u16)
        requires
            old(self).wf(),
        ensures
            final(self).wf(),
            final(self)@ == complete_spec(old(self)@, num),
    {
        let ghost s = self@;
        let mut j: usize = 0;
        while j < self.tasks.len() && self.tasks[j].num != num
            invariant
                0 <= j <= self.tasks.len(),
                s == self@,
                s.len() == self.tasks.len(),
                forall|k: int| 0 <= k < j ==> #[trigger] s[k].num != num,
            decreases self.tasks.len() - j,
        {
            proof {
                assert(s[j as int] == self.tasks@[j as int]@);
            }
            j += 1;
        }
        if j == self.tasks.len() {
            proof {
                assert(!contains_num(s, num));
            }
            return ;
        }
        proof {
            assert(s[j as int] == self.tasks@[j as int]@);
            assert(s[j as int].num == num);
            assert(contains_num(s, num));
            let i = idx_of_num(s, num);
            assert(0 <= i < s.len() && s[i].num == num);
            assert(i == j as int);
        }
        if self.tasks[j].complete {
            return ;
        }
        let mut t = self.tasks.remove(j);
        t.complete = true;
        proof {
            lemma_remove_wf(s, j as int);
            assert forall|k: int| 0 <= k < s.remove(j as int).len() implies #[trigger] s.remove(
                j as int,
            )[k].num != t@.num by {
                s.remove_ensures(j as int);
                let k0 = if k < j as int { k } else { k + 1 };
                assert(s.remove(j as int)[k] == s[k0]);
            }
            assert(!contains_num(s.remove(j as int), t@.num));
            assert(t@ == marked_done(s[j as int]));
            assert(self@ =~= s.remove(j as int));
        }
        self.push(t);
        proof {
            assert(contains_num(s, num));
            assert(idx_of_num(s, num) == j as int);
            assert(self@ == insert_sorted(s.remove(j as int), marked_done(s[j as int])));
        }
    }

    /// Remove the task with identifier `num` (if any). Unknown identifiers
    /// are a silent no-op.
    pub fn delete(&mut self, num: u16)
        requires
            old(self).wf(),
        ensures
            final(self).wf(),
            final(self)@ == delete_spec(old(self)@, num),
    {
        let ghost s = self@;
        let mut j: usize = 0;
        while j < self.tasks.len() && self.tasks[j].num != num
            invariant
                0 <= j <= self.tasks.len(),
                s == self@,
                s.len() == self.tasks.len(),
                forall|k: int| 0 <= k < j ==> #[trigger] s[k].num != num,
            decreases self.tasks.len() - j,
        {
            proof {
                assert(s[j as int] == self.tasks@[j as int]@);
            }
            j += 1;
        }
        if j == self.tasks.len() {
            proof {
                assert(!contains_num(s, num));
            }
            return ;
        }
        proof {
            assert(s[j as int] == self.tasks@[j as int]@);
            assert(contains_num(s, num));
            let i = idx_of_num(s, num);
            assert(0 <= i < s.len() && s[i].num == num);
            assert(i == j as int);
        }
        self.tasks.remove(j);
        proof {
            lemma_remove_wf(s, j as int);
            assert(self@ =~= s.remove(j as int));
        }
    }

    /// The whole list in short rendering, one line per task; empty for an
    /// empty list.
    pub fn to_short_string(&self) -> (r: String)
        ensures
            r@ == lines_short_of(self@),
    {
        let mut out = String::new();
        let mut i: usize = 0;
        while i < self.tasks.len()
            invariant
                0 <= i <= self.tasks.len(),
                self@.len() == self.tasks.len(),
                out@ == lines_short_of(self@.take(i as int)),
            decreases self.tasks.len() - i,
        {
            let line = self.tasks[i].to_short_string();
            out.append(line.as_str());
            out.append("\n");
            proof {
                reveal_strlit("\n");
                assert(self@.take(i as int + 1).drop_last() =~= self@.take(i as int));
                assert(self@.take(i as int + 1).last() == self@[i as int]);
                assert(self@[i as int] == self.tasks@[i as int]@);
                assert(out@ =~= lines_short_of(self@.take(i as int + 1)));
            }
            i += 1;
        }
        proof {
            assert(self@.take(self@.len() as int) =~= self@);
        }
        out
    }

    /// The whole list in short colored rendering, one line per task.
    pub fn to_short_colored(&self) -> (r: String)
        ensures
            r@ == lines_short_colored_of(self@),
    {
        let mut out = String::new();
        let mut i: usize = 0;
        while i < self.tasks.len()
            invariant
                0 <= i <= self.tasks.len(),
                self@.len() == self.tasks.len(),
                out@ == lines_short_colored_of(self@.take(i as int)),
            decreases self.tasks.len() - i,
        {
            let line = self.tasks[i].to_short_colored();
            out.append(line.as_str());
            out.append("\n");
            proof {
                reveal_strlit("\n");
                assert(self@.take(i as int + 1).drop_last() =~= self@.take(i as int));
                assert(self@.take(i as int + 1).last() == self@[i as int]);
                assert(self@[i as int] == self.tasks@[i as int]@);
                assert(out@ =~= lines_short_colored_of(self@.take(i as int + 1)));
            }
            i += 1;
        }
        proof {
            assert(self@.take(self@.len() as int) =~= self@);
        }
        out
    }

    /// The whole list in full rendering, one line per task.
    pub fn to_string(&self) -> (r: String)
        ensures
            r@ == lines_full_of(self@),
    {
        let mut out = String::new();
        let mut i: usize = 0;
        while i < self.tasks.len()
            invariant
                0 <= i <= self.tasks.len(),
                self@.len() == self.tasks.len(),
                out@ == lines_full_of(self@.take(i as int)),
            decreases self.tasks.len() - i,
        {
            let line = self.tasks[i].to_string();
            out.append(line.as_str());
            out.append("\n");
            proof {
                reveal_strlit("\n");
                assert(self@.take(i as int + 1).drop_last() =~= self@.take(i as int));
                assert(self@.take(i as int + 1).last() == self@[i as int]);
                assert(self@[i as int] == self.tasks@[i as int]@);
                assert(out@ =~= lines_full_of(self@.take(i as int + 1)));
            }
            i += 1;
        }
        proof {
            assert(self@.take(self@.len() as int) =~= self@);
        }
        out
    }

    /// The whole list in full colored rendering, one line per task.
    pub fn to_colored(&self) -> (r: String)
        ensures
            r@ == lines_full_colored_of(self@),
    {
        let mut out = String::new();
        let mut i: usize = 0;
        while i < self.tasks.len()
            invariant
                0 <= i <= self.tasks.len(),
                self@.len() == self.tasks.len(),
                out@ == lines_full_colored_of(self@.take(i as int)),
            decreases self.tasks.len() - i,
        {
            let line = self.tasks[i].to_colored();
            out.append(line.as_str());
            out.append("\n");
            proof {
                reveal_strlit("\n");
                assert(self@.take(i as int + 1).drop_last() =~= self@.take(i as int));
                assert(self@.take(i as int + 1).last() == self@[i as int]);
                assert(self@[i as int] == self.tasks@[i as int]@);
                assert(out@ =~= lines_full_colored_of(self@.take(i as int + 1)));
            }
            i += 1;
        }
        proof {
            assert(self@.take(self@.len() as int) =~= self@);
        }
        out
    }

    /// Remove every task.
    pub fn clear(&mut self)
        ensures
            final(self).wf(),
            final(self)@ == Seq::<TaskView>::empty(),
    {
        self.tasks.clear();
        proof {
            assert(self@ =~= Seq::<TaskView>::empty());
        }
    }
}

/// The identifier in decimal, right-aligned in a field of width three.
fn pad3(n: u16) -> (r: String)
    ensures
        r@ == pad3_of(n),
{
    let d = u16_to_decimal(n);
    let mut s = String::new();
    if n < 10 {
        s.append("  ");
    } else if n < 100 {
        s.append(" ");
    }
    s.append(d.as_str());
    proof {
        reveal_strlit("  ");
        reveal_strlit(" ");
        assert(s@ =~= pad3_of(n));
    }
    s
}

impl Task {
    /// A fresh, incomplete task under a caller-reserved identifier. Any title
    /// and description are accepted.
    pub fn new(num: u16, task: &str, description: &str) -> (r: Task)
        ensures
            r@ == (TaskView { complete: false, num, task: task@, description: description@ }),
    {
        Task { num, task: task.to_owned(), description: description.to_owned(), complete: false }
    }

    /// The spacing that a full rendering puts around this description.
    fn separator(&self) -> (r: &'static str)
        ensures
            r@ == sep_of(self@.description),
    {
        let len = self.description.as_str().unicode_len();
        proof {
            reveal_strlit("\n      ");
            reveal_strlit("");
            assert("\n      "@ =~= seq!['\n', ' ', ' ', ' ', ' ', ' ', ' ']);
            assert(""@ =~= Seq::<char>::empty());
        }
        if len > 1 {
            "\n      "
        } else {
            ""
        }
    }

    /// The short rendering of one task.
    pub fn to_short_string(&self) -> (r: String)
        ensures
            r@ == render_short_of(self@),
    {
        let mut s = pad3(self.num);
        s.append(": ");
        s.append(self.task.as_str());
        proof {
            reveal_strlit(": ");
            assert(s@ =~= render_short_of(self@));
        }
        s
    }

    /// The short colored rendering of one task.
    pub fn to_short_colored(&self) -> (r: String)
        ensures
            r@ == render_short_colored_of(self@),
    {
        let np = pad3(self.num);
        let mut s = if self.complete {
            paint_green_bold(np.as_str())
        } else {
            paint_red_bold(np.as_str())
        };
        s.append(": ");
        let title = paint_white_underline(self.task.as_str());
        s.append(title.as_str());
        proof {
            reveal_strlit(": ");
            assert(s@ =~= render_short_colored_of(self@));
        }
        s
    }

    /// The full rendering of one task.
    pub fn to_string(&self) -> (r: String)
        ensures
            r@ == render_full_of(self@),
    {
        let sep = self.separator();
        let mut s = pad3(self.num);
        s.append(": ");
        s.append(self.task.as_str());
        s.append(" ");
        s.append(sep);
        s.append(self.description.as_str());
        s.append(" ");
        s.append(sep);
        proof {
            reveal_strlit(": ");
            reveal_strlit(" ");
            assert(s@ =~= render_full_of(self@));
        }
        s
    }

    /// The full colored rendering of one task.
    pub fn to_colored(&self) -> (r: String)
        ensures
            r@ == render_full_colored_of(self@),
    {
        let sep = self.separator();
        let np = pad3(self.num);
        let mut s = if self.complete {
            paint_green_bold(np.as_str())
        } else {
            paint_red_bold(np.as_str())
        };
        s.append(": ");
        let title = paint_white_underline(self.task.as_str());
        s.append(title.as_str());
        s.append(" ");
        s.append(sep);
        let desc = paint_white(self.description.as_str());
        s.append(desc.as_str());
        s.append(" ");
        s.append(sep);
        proof {
            reveal_strlit(": ");
            reveal_strlit(" ");
            assert(s@ =~= render_full_colored_of(self@));
        }
        s
    }
}

} // verus!
