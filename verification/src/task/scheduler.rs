//! A round-robin scheduler over the tasks that are ready.
use vstd::prelude::*;
use crate::task::thread::{Task, TaskState};

verus! {

pub struct Scheduler {
    pub tasks: Vec<Task>,
    pub current_index: usize,
}

impl Default for Scheduler {
    fn default() -> (s: Scheduler)
        ensures
            s.tasks@.len() == 0,
            s.current_index == 0,
    {
        Scheduler::new()
    }
}

pub open spec fn is_ready(t: Task) -> bool {
    t.state == TaskState::Ready
}

/// The index `k` places after `cur`, going round the `len` tasks.
pub open spec fn after(cur: int, k: int, len: int) -> int {
    (cur + k) % len
}

/// Scanning round from `cur`, from `k` places on: the first ready task, or
/// `cur` when the scan comes back to it.
pub open spec fn scan_ready(tasks: Seq<Task>, cur: int, k: int) -> int
    decreases tasks.len() - k,
{
    if k < 1 || k > tasks.len() {
        cur
    } else if is_ready(tasks[after(cur, k, tasks.len() as int)]) {
        after(cur, k, tasks.len() as int)
    } else if k == tasks.len() {
        cur
    } else {
        scan_ready(tasks, cur, k + 1)
    }
}

/// The task that the scheduler switches to from `cur`: the first ready one
/// after it in round order, `cur` itself counted last; `cur` if none is ready.
pub open spec fn next_ready(tasks: Seq<Task>, cur: int) -> int {
    scan_ready(tasks, cur, 1)
}

/// The first task with the given id.
pub open spec fn first_with_id(tasks: Seq<Task>, id: usize, start: int) -> Option<int>
    decreases tasks.len() - start,
{
    if start < 0 || start >= tasks.len() {
        None
    } else if tasks[start].id == id {
        Some(start)
    } else {
        first_with_id(tasks, id, start + 1)
    }
}

pub proof fn lemma_first_with_id(tasks: Seq<Task>, id: usize, start: int)
    requires
        0 <= start,
    ensures
        match first_with_id(tasks, id, start) {
            Some(i) => start <= i < tasks.len() && tasks[i].id == id && forall|j: int|
                start <= j < i ==> (#[trigger] tasks[j]).id != id,
            None => forall|j: int| start <= j < tasks.len() ==> (#[trigger] tasks[j]).id != id,
        },
    decreases tasks.len() - start,
{
    if start < tasks.len() && tasks[start].id != id {
        lemma_first_with_id(tasks, id, start + 1);
    }
}

/// Going round by one place.
proof fn lemma_after_step(cur: int, k: int, len: int)
    requires
        0 <= cur < len,
        0 <= k < len,
    ensures
        after(cur, k + 1, len) == (after(cur, k, len) + 1) % len,
        0 <= after(cur, k, len) < len,
        after(cur, k, len) == if cur + k < len { cur + k } else { cur + k - len },
        after(cur, k + 1, len) == cur <==> k + 1 == len,
        after(cur, k + 1, len) == if cur + k + 1 < len { cur + k + 1 } else { cur + k + 1 - len },
{
    if cur + k < len {
        vstd::arithmetic::div_mod::lemma_small_mod((cur + k) as nat, len as nat);
    } else {
        vstd::arithmetic::div_mod::lemma_fundamental_div_mod_converse(cur + k, len, 1, cur + k - len);
    }
    if cur + k + 1 < len {
        vstd::arithmetic::div_mod::lemma_small_mod((cur + k + 1) as nat, len as nat);
    } else {
        vstd::arithmetic::div_mod::lemma_fundamental_div_mod_converse(cur + k + 1, len, 1, cur + k + 1 - len);
    }
    let a = after(cur, k, len);
    if a + 1 < len {
        vstd::arithmetic::div_mod::lemma_small_mod((a + 1) as nat, len as nat);
    } else {
        vstd::arithmetic::div_mod::lemma_fundamental_div_mod_converse(a + 1, len, 1, a + 1 - len);
    }
}

impl Scheduler {
    /// A scheduler with no tasks.
    pub fn new() -> (s: Scheduler)
        ensures
            s.tasks@.len() == 0,
            s.current_index == 0,
    {
        Scheduler { tasks: Vec::new(), current_index: 0 }
    }

    /// Adds `task` after the other tasks.
    pub fn add_task(&mut self, task: Task)
        ensures
            final(self).tasks@ == old(self).tasks@.push(task),
            final(self).current_index == old(self).current_index,
    {
        self.tasks.push(task);
    }

    /// Marks the current task as blocked.
    pub fn block_current_task(&mut self)
        requires
            old(self).current_index < old(self).tasks@.len(),
        ensures
            final(self).tasks@ == old(self).tasks@.update(
                old(self).current_index as int,
                Task { state: TaskState::Blocked, ..old(self).tasks@[old(self).current_index as int] },
            ),
            final(self).current_index == old(self).current_index,
    {
        self.tasks[self.current_index].state = TaskState::Blocked;
    }

    /// Marks the first task with the given id as ready.
    pub fn unblock_task(&mut self, id: usize)
        ensures
            final(self).current_index == old(self).current_index,
            match first_with_id(old(self).tasks@, id, 0) {
                Some(i) => final(self).tasks@ == old(self).tasks@.update(
                    i,
                    Task { state: TaskState::Ready, ..old(self).tasks@[i] },
                ),
                None => final(self).tasks@ == old(self).tasks@,
            },
    {
        let mut i: usize = 0;
        while i < self.tasks.len()
            invariant
                i <= self.tasks@.len(),
                self.tasks@ == old(self).tasks@,
                self.current_index == old(self).current_index,
                forall|j: int| 0 <= j < i ==> (#[trigger] self.tasks@[j]).id != id,
            decreases self.tasks@.len() - i,
        {
            if self.tasks[i].id == id {
                proof {
                    lemma_first_with_id(old(self).tasks@, id, 0);
                    if let Some(k) = first_with_id(old(self).tasks@, id, 0) {
                        if k < i {
                            assert(self.tasks@[k].id != id);
                        } else if k > i {
                            assert(old(self).tasks@[i as int].id == id);
                        }
                    }
                }
                self.tasks[i].state = TaskState::Ready;
                return;
            }
            i = i + 1;
        }
        proof {
            lemma_first_with_id(old(self).tasks@, id, 0);
        }
    }

    /// Saves `current_rsp` as the stack pointer of the current task, makes the
    /// next ready task current (see `next_ready`) and returns its saved stack
    /// pointer. With no tasks, returns `current_rsp`.
    pub fn switch_context(&mut self, current_rsp: u64) -> (r: u64)
        requires
            old(self).tasks@.len() > 0 ==> old(self).current_index < old(self).tasks@.len(),
        ensures
            old(self).tasks@.len() == 0 ==> r == current_rsp && *final(self) == *old(self),
            old(self).tasks@.len() > 0 ==> {
                let saved = old(self).tasks@.update(
                    old(self).current_index as int,
                    Task { kernel_rsp: current_rsp, ..old(self).tasks@[old(self).current_index as int] },
                );
                &&& final(self).tasks@ == saved
                &&& final(self).current_index == next_ready(old(self).tasks@, old(self).current_index as int)
                &&& r == saved[final(self).current_index as int].kernel_rsp
            },
    {
        if self.tasks.len() == 0 {
            return current_rsp;
        }
        let cur = self.current_index;
        let len = self.tasks.len();
        let ghost old_tasks = self.tasks@;
        self.tasks[cur].kernel_rsp = current_rsp;
        assert(forall|j: int| 0 <= j < len ==> is_ready(#[trigger] self.tasks@[j]) == is_ready(old_tasks[j]));
        let mut next_index = cur;
        let mut k: usize = 0;
        proof {
            lemma_after_step(cur as int, 0, len as int);
        }
        loop
            invariant_except_break
                len == self.tasks@.len(),
                len == old_tasks.len(),
                cur < len,
                k < len,
                forall|j: int| 0 <= j < len ==> is_ready(#[trigger] self.tasks@[j]) == is_ready(old_tasks[j]),
                next_index == after(cur as int, k as int, len as int),
                next_ready(old_tasks, cur as int) == scan_ready(old_tasks, cur as int, k + 1),
            ensures
                next_index == next_ready(old_tasks, cur as int),
                next_index < len,
            decreases len - k,
        {
            proof {
                lemma_after_step(cur as int, k as int, len as int);
            }
            next_index = (next_index + 1) % len;
            k = k + 1;
            if self.tasks[next_index].state == TaskState::Ready {
                break;
            }
            if next_index == cur {
                break;
            }
        }
        self.current_index = next_index;
        self.tasks[self.current_index].kernel_rsp
    }
}

/// Law: when some task is ready, the scheduler switches to a ready task.
pub proof fn law_switch_picks_ready(tasks: Seq<Task>, cur: int)
    requires
        0 <= cur < tasks.len(),
        exists|i: int| 0 <= i < tasks.len() && is_ready(#[trigger] tasks[i]),
    ensures
        is_ready(tasks[next_ready(tasks, cur)]),
        0 <= next_ready(tasks, cur) < tasks.len(),
{
    let len = tasks.len() as int;
    let w = choose|i: int| 0 <= i < tasks.len() && is_ready(#[trigger] tasks[i]);
    // The distance from `cur` round to the witness.
    let d = if w > cur { w - cur } else { w - cur + len };
    assert(after(cur, d, len) == w) by {
        lemma_after_step(cur, d - 1, len);
    }
    lemma_scan_finds(tasks, cur, 1, d);
}

/// Scanning from `k` reaches a ready task no later than the ready one `d`
/// places on.
proof fn lemma_scan_finds(tasks: Seq<Task>, cur: int, k: int, d: int)
    requires
        0 <= cur < tasks.len(),
        1 <= k <= d <= tasks.len(),
        is_ready(tasks[after(cur, d, tasks.len() as int)]),
    ensures
        is_ready(tasks[scan_ready(tasks, cur, k)]),
        0 <= scan_ready(tasks, cur, k) < tasks.len(),
    decreases d - k,
{
    let len = tasks.len() as int;
    lemma_after_step(cur, k - 1, len);
    if !is_ready(tasks[after(cur, k, len)]) {
        assert(k != d);
        lemma_scan_finds(tasks, cur, k + 1, d);
    }
}

/// Law: the scheduler is fair: every task that it passes over on its way
/// round from `cur` to the task it picks is blocked.
pub proof fn law_switch_skips_only_blocked(tasks: Seq<Task>, cur: int, k: int)
    requires
        0 <= cur < tasks.len(),
        1 <= k < tasks.len(),
        forall|j: int| 1 <= j <= k ==> !is_ready(#[trigger] tasks[after(cur, j, tasks.len() as int)]),
    ensures
        next_ready(tasks, cur) == scan_ready(tasks, cur, k + 1),
    decreases k,
{
    let len = tasks.len() as int;
    if k == 1 {
        assert(!is_ready(tasks[after(cur, 1, len)]));
    } else {
        law_switch_skips_only_blocked(tasks, cur, k - 1);
        assert(!is_ready(tasks[after(cur, k, len)]));
    }
}

/// Law: when all tasks are ready, the scheduler goes round in order.
pub proof fn law_all_ready_round_robin(tasks: Seq<Task>, cur: int)
    requires
        0 <= cur < tasks.len(),
        forall|i: int| 0 <= i < tasks.len() ==> is_ready(#[trigger] tasks[i]),
    ensures
        next_ready(tasks, cur) == (cur + 1) % (tasks.len() as int),
{
    lemma_after_step(cur, 0, tasks.len() as int);
    assert(is_ready(tasks[after(cur, 1, tasks.len() as int)]));
}

/// Law: waking a task undoes its blocking itself: when the current task is
/// the first with its id, blocking it and then unblocking that id leaves
/// every task as it was, the current one ready.
pub proof fn law_unblock_undoes_block(tasks: Seq<Task>, cur: int)
    requires
        0 <= cur < tasks.len(),
        first_with_id(tasks, tasks[cur].id, 0) == Some(cur),
    ensures
        ({
            let blocked = tasks.update(cur, Task { state: TaskState::Blocked, ..tasks[cur] });
            &&& first_with_id(blocked, tasks[cur].id, 0) == Some(cur)
            &&& blocked.update(cur, Task { state: TaskState::Ready, ..blocked[cur] }) == tasks.update(
                cur,
                Task { state: TaskState::Ready, ..tasks[cur] },
            )
        }),
{
    let id = tasks[cur].id;
    let blocked = tasks.update(cur, Task { state: TaskState::Blocked, ..tasks[cur] });
    lemma_first_with_id(tasks, id, 0);
    lemma_first_with_id(blocked, id, 0);
    match first_with_id(blocked, id, 0) {
        Some(k) => {
            if k < cur {
                assert(blocked[k] == tasks[k]);
            } else if k > cur {
                assert(blocked[cur].id == id);
            }
        },
        None => {
            assert(blocked[cur].id == id);
        },
    }
    assert(blocked.update(cur, Task { state: TaskState::Ready, ..blocked[cur] }) =~= tasks.update(
        cur,
        Task { state: TaskState::Ready, ..tasks[cur] },
    ));
}

} // verus!
