//! All tasks by number, with a queue of those that are ready.

use vstd::prelude::*;
use std::collections::VecDeque;

verus! {

#[derive(Clone, Copy, PartialEq, Eq, Structural, Debug)]
pub enum TaskState {
    Ready,
    Running,
    Blocking,
    /// Asleep until a time in milliseconds.
    Sleeping(u64),
    /// Ended, with an exit code.
    Zombie(i32),
}

#[derive(Clone, Copy, PartialEq, Eq, Structural, Debug)]
pub struct ManagedTask {
    pub pid: usize,
    pub state: TaskState,
    pub exit_code: i32,
    pub kernel_stack_top: usize,
}

pub struct TaskManager {
    /// Sorted by number.
    pub tasks: Vec<ManagedTask>,
    pub ready_queue: VecDeque<usize>,
    pub current: Option<usize>,
}

pub type TaskList = Seq<ManagedTask>;

pub open spec fn sorted(l: TaskList) -> bool {
    forall|i: int, j: int| 0 <= i < j < l.len() ==> (#[trigger] l[i]).pid < (#[trigger] l[j]).pid
}

pub open spec fn has_pid(l: TaskList, pid: usize) -> bool {
    exists|i: int| 0 <= i < l.len() && (#[trigger] l[i]).pid == pid
}

/// Where the task with a number is.
pub open spec fn index_of(l: TaskList, pid: usize) -> int {
    choose|i: int| 0 <= i < l.len() && (#[trigger] l[i]).pid == pid
}

pub open spec fn task_of(l: TaskList, pid: usize) -> ManagedTask {
    l[index_of(l, pid)]
}

/// The list with the state of one task changed.
pub open spec fn with_state(l: TaskList, i: int, s: TaskState) -> TaskList {
    l.update(i, ManagedTask { state: s, ..l[i] })
}

pub proof fn lemma_index(l: TaskList, i: int)
    requires
        sorted(l),
        0 <= i < l.len(),
    ensures
        has_pid(l, l[i].pid),
        index_of(l, l[i].pid) == i,
{
    let pid = l[i].pid;
    assert(l[i].pid == pid);
    let k = index_of(l, pid);
    if k < i {
        assert(l[k].pid < l[i].pid);
    } else if i < k {
        assert(l[i].pid < l[k].pid);
    }
}

impl TaskManager {
    pub open spec fn wf(&self) -> bool {
        sorted(self.tasks@)
    }

    pub fn new() -> (r: TaskManager)
        ensures
            r.wf(),
            r.tasks@.len() == 0,
            r.ready_queue@.len() == 0,
            r.current is None,
    {
        TaskManager { tasks: Vec::new(), ready_queue: VecDeque::new(), current: None }
    }

    /// The place of a task in the list.
    pub fn find(&self, pid: usize) -> (r: Option<usize>)
        requires
            self.wf(),
        ensures
            match r {
                Some(i) => i < self.tasks@.len() && self.tasks@[i as int].pid == pid && has_pid(
                    self.tasks@,
                    pid,
                ) && index_of(self.tasks@, pid) == i,
                None => !has_pid(self.tasks@, pid),
            },
    {
        let n: usize = self.tasks.len();
        let mut i: usize = 0;
        while i < n
            invariant
                i <= n == self.tasks@.len(),
                self.wf(),
                forall|j: int| 0 <= j < i ==> (#[trigger] self.tasks@[j]).pid != pid,
            decreases n - i,
        {
            if self.tasks[i].pid == pid {
                proof {
                    lemma_index(self.tasks@, i as int);
                }
                return Some(i);
            }
            i = i + 1;
        }
        None
    }

    /// Adds a task, or replaces the one with its number, and queues it.
    pub fn add_task(&mut self, task: ManagedTask)
        requires
            old(self).wf(),
        ensures
            final(self).wf(),
            final(self).current == old(self).current,
            final(self).ready_queue@ == old(self).ready_queue@.push(task.pid),
            has_pid(final(self).tasks@, task.pid),
            task_of(final(self).tasks@, task.pid) == task,
            forall|p: usize|
                p != task.pid ==> #[trigger] has_pid(final(self).tasks@, p) == has_pid(
                    old(self).tasks@,
                    p,
                ),
            forall|p: usize|
                p != task.pid && #[trigger] has_pid(old(self).tasks@, p) ==> task_of(
                    final(self).tasks@,
                    p,
                ) == task_of(old(self).tasks@, p),
    {
        let ghost l = self.tasks@;
        let n: usize = self.tasks.len();
        let mut at: usize = 0;
        while at < n && self.tasks[at].pid < task.pid
            invariant
                at <= n == self.tasks@.len(),
                self.tasks@ == l,
                forall|j: int| 0 <= j < at ==> (#[trigger] l[j]).pid < task.pid,
            decreases n - at,
        {
            at = at + 1;
        }
        let known: bool = at < n && self.tasks[at].pid == task.pid;
        if known {
            self.tasks.set(at, task);
        } else {
            self.tasks.insert(at, task);
        }
        self.ready_queue.push_back(task.pid);
        proof {
            let t = self.tasks@;
            // How an old place maps to a new one.
            let shift = |j: int|
                if known || j < at {
                    j
                } else {
                    j + 1
                };
            assert(forall|j: int| 0 <= j < l.len() && !(known && j == at) ==> t[shift(j)] == #[trigger] l[j]);
            assert forall|i: int, j: int| 0 <= i < j < t.len() implies (#[trigger] t[i]).pid < (
            #[trigger] t[j]).pid by {
                let i0 = if known || i < at {
                    i
                } else {
                    i - 1
                };
                let j0 = if known || j < at {
                    j
                } else {
                    j - 1
                };
                if i == at {
                    if !known {
                        assert(t[j] == l[j - 1]);
                        assert(l[at as int].pid > task.pid);
                        if j - 1 > at {
                            assert(l[at as int].pid < l[j - 1].pid);
                        }
                    } else {
                        assert(l[at as int].pid < l[j].pid);
                    }
                } else if j == at {
                    assert(t[i] == l[i]);
                } else {
                    assert(t[i] == l[i0] && t[j] == l[j0]);
                }
            }
            lemma_index(t, at as int);
            assert forall|p: usize| p != task.pid implies #[trigger] has_pid(t, p) == has_pid(
                l,
                p,
            ) by {
                if has_pid(l, p) {
                    let j = index_of(l, p);
                    assert(l[j].pid == p);
                    assert(t[shift(j)] == l[j]);
                    assert(t[shift(j)].pid == p);
                }
                if has_pid(t, p) {
                    let j = index_of(t, p);
                    assert(t[j].pid == p);
                    if known || j < at {
                        assert(l[j].pid == p);
                    } else {
                        assert(l[j - 1].pid == p);
                    }
                }
            }
            assert forall|p: usize| p != task.pid && #[trigger] has_pid(l, p) implies task_of(t, p)
                == task_of(l, p) by {
                let j = index_of(l, p);
                assert(l[j].pid == p);
                assert(t[shift(j)] == l[j]);
                lemma_index(t, shift(j));
            }
        }
    }

    /// The place of the running task.
    pub fn current_task(&self) -> (r: Option<usize>)
        requires
            self.wf(),
        ensures
            match r {
                Some(i) => self.current is Some && i < self.tasks@.len() && self.tasks@[i as int].pid
                    == self.current->0,
                None => self.current is None || !has_pid(self.tasks@, self.current->0),
            },
    {
        match self.current {
            Some(pid) => self.find(pid),
            None => None,
        }
    }

    /// Chooses the next task: sleepers whose time has come join the queue, and
    /// the first of the queue that is ready is taken; others leave it.
    pub fn pick_next(&mut self, now: u64) -> (r: Option<usize>)
        requires
            old(self).wf(),
        ensures
            final(self).wf(),
            final(self).current == old(self).current,
            final(self).tasks@ == awake(old(self).tasks@, now),
            ({
                let q = old(self).ready_queue@ + due(old(self).tasks@, now);
                let (pid, rest) = first_ready(awake(old(self).tasks@, now), q);
                r == pid && final(self).ready_queue@ == rest
            }),
    {
        self.wake_sleepers(now);
        let ghost q = self.ready_queue@;
        let ghost l = self.tasks@;
        loop
            invariant
                self.wf(),
                self.current == old(self).current,
                self.tasks@ == l,
                first_ready(l, self.ready_queue@) == first_ready(l, q),
                l == awake(old(self).tasks@, now),
                q == old(self).ready_queue@ + due(old(self).tasks@, now),
            decreases self.ready_queue@.len(),
        {
            let ghost q1 = self.ready_queue@;
            match self.ready_queue.pop_front() {
                None => {
                    return None;
                },
                Some(pid) => {
                    proof {
                        assert(self.ready_queue@ =~= q1.skip(1));
                    }
                    match self.find(pid) {
                        Some(i) => {
                            if self.tasks[i].state == TaskState::Ready {
                                return Some(pid);
                            }
                        },
                        None => {},
                    }
                },
            }
        }
    }

    /// Makes the sleepers ready whose time has come.
    fn wake_sleepers(&mut self, now: u64)
        requires
            old(self).wf(),
        ensures
            final(self).wf(),
            final(self).current == old(self).current,
            final(self).tasks@ == awake(old(self).tasks@, now),
            final(self).ready_queue@ == old(self).ready_queue@ + due(old(self).tasks@, now),
    {
        let ghost l = self.tasks@;
        let ghost q = self.ready_queue@;
        let n: usize = self.tasks.len();
        let mut i: usize = 0;
        proof {
            assert(l.take(0) =~= Seq::empty());
            assert(q + due(l.take(0), now) =~= q);
        }
        while i < n
            invariant
                i <= n == self.tasks@.len(),
                n == l.len(),
                sorted(l),
                self.current == old(self).current,
                forall|j: int| 0 <= j < i ==> #[trigger] self.tasks@[j] == awake(l, now)[j],
                forall|j: int| i <= j < n ==> #[trigger] self.tasks@[j] == l[j],
                self.ready_queue@ == q + due(l.take(i as int), now),
            decreases n - i,
        {
            proof {
                assert(self.tasks@[i as int] == l[i as int]);
                assert(l.take(i + 1).drop_last() =~= l.take(i as int));
                assert(l.take(i + 1).last() == l[i as int]);
            }
            let t: ManagedTask = self.tasks[i];
            match t.state {
                TaskState::Sleeping(until) => {
                    if now >= until {
                        self.tasks.set(
                            i,
                            ManagedTask {
                                pid: t.pid,
                                state: TaskState::Ready,
                                exit_code: t.exit_code,
                                kernel_stack_top: t.kernel_stack_top,
                            },
                        );
                        self.ready_queue.push_back(t.pid);
                        proof {
                            assert(self.ready_queue@ =~= q + due(l.take(i + 1), now));
                        }
                    }
                },
                _ => {},
            }
            i = i + 1;
        }
        proof {
            assert(l.take(n as int) =~= l);
            assert(self.tasks@ =~= awake(l, now));
            assert forall|a: int, b: int| 0 <= a < b < self.tasks@.len() implies (
            #[trigger] self.tasks@[a]).pid < (#[trigger] self.tasks@[b]).pid by {
                assert(l[a].pid < l[b].pid);
            }
        }
    }

    /// Makes every task ready that waits for input or output.
    pub fn wake_io_tasks(&mut self)
        requires
            old(self).wf(),
        ensures
            final(self).wf(),
            final(self).current == old(self).current,
            final(self).tasks@ == unblocked(old(self).tasks@),
            final(self).ready_queue@ == old(self).ready_queue@ + blocking(old(self).tasks@),
    {
        let ghost l = self.tasks@;
        let ghost q = self.ready_queue@;
        let n: usize = self.tasks.len();
        let mut i: usize = 0;
        proof {
            assert(l.take(0) =~= Seq::empty());
            assert(q + blocking(l.take(0)) =~= q);
        }
        while i < n
            invariant
                i <= n == self.tasks@.len(),
                n == l.len(),
                sorted(l),
                self.current == old(self).current,
                forall|j: int| 0 <= j < i ==> #[trigger] self.tasks@[j] == unblocked(l)[j],
                forall|j: int| i <= j < n ==> #[trigger] self.tasks@[j] == l[j],
                self.ready_queue@ == q + blocking(l.take(i as int)),
            decreases n - i,
        {
            proof {
                assert(self.tasks@[i as int] == l[i as int]);
                assert(l.take(i + 1).drop_last() =~= l.take(i as int));
                assert(l.take(i + 1).last() == l[i as int]);
            }
            let t: ManagedTask = self.tasks[i];
            if t.state == TaskState::Blocking {
                self.tasks.set(
                    i,
                    ManagedTask {
                        pid: t.pid,
                        state: TaskState::Ready,
                        exit_code: t.exit_code,
                        kernel_stack_top: t.kernel_stack_top,
                    },
                );
                self.ready_queue.push_back(t.pid);
                proof {
                    assert(self.ready_queue@ =~= q + blocking(l.take(i + 1)));
                }
            }
            i = i + 1;
        }
        proof {
            assert(l.take(n as int) =~= l);
            assert(self.tasks@ =~= unblocked(l));
            assert forall|a: int, b: int| 0 <= a < b < self.tasks@.len() implies (
            #[trigger] self.tasks@[a]).pid < (#[trigger] self.tasks@[b]).pid by {
                assert(l[a].pid < l[b].pid);
            }
        }
    }

    /// Ends the running task.
    pub fn exit_current(&mut self, code: i32)
        requires
            old(self).wf(),
        ensures
            final(self).wf(),
            final(self).ready_queue == old(self).ready_queue,
            final(self).current is None,
            final(self).tasks@ == (match old(self).current {
                Some(pid) => if has_pid(old(self).tasks@, pid) {
                    old(self).tasks@.update(
                        index_of(old(self).tasks@, pid),
                        ManagedTask {
                            state: TaskState::Zombie(code),
                            exit_code: code,
                            ..task_of(old(self).tasks@, pid)
                        },
                    )
                } else {
                    old(self).tasks@
                },
                None => old(self).tasks@,
            }),
    {
        match self.current {
            Some(pid) => {
                match self.find(pid) {
                    Some(i) => {
                        let ghost l = self.tasks@;
                        let t: ManagedTask = self.tasks[i];
                        self.tasks.set(
                            i,
                            ManagedTask {
                                pid: t.pid,
                                state: TaskState::Zombie(code),
                                exit_code: code,
                                kernel_stack_top: t.kernel_stack_top,
                            },
                        );
                        proof {
                            assert forall|a: int, b: int| 0 <= a < b < self.tasks@.len() implies (
                            #[trigger] self.tasks@[a]).pid < (#[trigger] self.tasks@[b]).pid by {
                                assert(l[a].pid < l[b].pid);
                            }
                        }
                    },
                    None => {},
                }
                self.current = None;
            },
            None => {},
        }
    }
}

pub open spec fn is_due(t: ManagedTask, now: u64) -> bool {
    t.state matches TaskState::Sleeping(until) && now >= until
}

/// The tasks after sleepers whose time has come were made ready.
pub open spec fn awake(l: TaskList, now: u64) -> TaskList {
    Seq::new(
        l.len(),
        |i: int|
            if is_due(l[i], now) {
                ManagedTask { state: TaskState::Ready, ..l[i] }
            } else {
                l[i]
            },
    )
}

/// The numbers of the sleepers whose time has come, in order.
pub open spec fn due(l: TaskList, now: u64) -> Seq<usize>
    decreases l.len(),
{
    if l.len() == 0 {
        Seq::empty()
    } else if is_due(l.last(), now) {
        due(l.drop_last(), now).push(l.last().pid)
    } else {
        due(l.drop_last(), now)
    }
}

/// The first number of the queue whose task is ready, and the queue behind it.
pub open spec fn first_ready(l: TaskList, q: Seq<usize>) -> (Option<usize>, Seq<usize>)
    decreases q.len(),
{
    if q.len() == 0 {
        (None, q)
    } else if has_pid(l, q[0]) && task_of(l, q[0]).state == TaskState::Ready {
        (Some(q[0]), q.skip(1))
    } else {
        first_ready(l, q.skip(1))
    }
}

pub open spec fn unblocked(l: TaskList) -> TaskList {
    Seq::new(
        l.len(),
        |i: int|
            if l[i].state is Blocking {
                ManagedTask { state: TaskState::Ready, ..l[i] }
            } else {
                l[i]
            },
    )
}

pub open spec fn blocking(l: TaskList) -> Seq<usize>
    decreases l.len(),
{
    if l.len() == 0 {
        Seq::empty()
    } else if l.last().state is Blocking {
        blocking(l.drop_last()).push(l.last().pid)
    } else {
        blocking(l.drop_last())
    }
}

/// A fresh task manager.
pub fn init() -> (r: TaskManager)
    ensures
        r.wf(),
        r.tasks@.len() == 0,
        r.ready_queue@.len() == 0,
        r.current is None,
{
    TaskManager::new()
}

/// A task that is chosen is ready.
pub proof fn chosen_is_ready(l: TaskList, q: Seq<usize>)
    ensures
        match first_ready(l, q).0 {
            Some(pid) => has_pid(l, pid) && task_of(l, pid).state == TaskState::Ready && q.contains(
                pid,
            ),
            None => forall|i: int|
                0 <= i < q.len() ==> !(has_pid(l, #[trigger] q[i]) && task_of(l, q[i]).state
                    == TaskState::Ready),
        },
    decreases q.len(),
{
    if q.len() > 0 {
        if has_pid(l, q[0]) && task_of(l, q[0]).state == TaskState::Ready {
            assert(q.contains(q[0]));
        } else {
            chosen_is_ready(l, q.skip(1));
            match first_ready(l, q).0 {
                Some(pid) => {
                    let i = choose|i: int| 0 <= i < q.skip(1).len() && q.skip(1)[i] == pid;
                    assert(q[i + 1] == pid);
                },
                None => {
                    assert forall|i: int| 0 <= i < q.len() implies !(has_pid(l, #[trigger] q[i])
                        && task_of(l, q[i]).state == TaskState::Ready) by {
                        if i > 0 {
                            assert(q.skip(1)[i - 1] == q[i]);
                        }
                    }
                },
            }
        }
    }
}

/// When something comes in, every task that waits for it becomes ready and is
/// queued, and no other task changes.
pub proof fn input_wakes_the_waiting(l: TaskList, t: int)
    requires
        0 <= t < l.len(),
    ensures
        l[t].state == TaskState::Blocking ==> unblocked(l)[t] == (ManagedTask {
            state: TaskState::Ready,
            ..l[t]
        }) && blocking(l).contains(l[t].pid),
        l[t].state != TaskState::Blocking ==> unblocked(l)[t] == l[t],
    decreases l.len(),
{
    let b = blocking(l);
    if l[t].state == TaskState::Blocking {
        if t == l.len() - 1 {
            assert(b[b.len() - 1] == l[t].pid);
        } else {
            let p = l.drop_last();
            assert(p[t] == l[t]);
            input_wakes_the_waiting(p, t);
            let c = blocking(p);
            let i = choose|i: int| 0 <= i < c.len() && c[i] == l[t].pid;
            assert(b[i] == l[t].pid);
        }
    }
}

/// A task that is woken was waiting: only the numbers of tasks that waited are
/// queued, in the order of the list.
pub proof fn only_waiting_are_queued(l: TaskList, k: int)
    requires
        0 <= k < blocking(l).len(),
    ensures
        exists|t: int|
            0 <= t < l.len() && (#[trigger] l[t]).pid == blocking(l)[k] && l[t].state
                == TaskState::Blocking,
    decreases l.len(),
{
    if l.len() > 0 {
        let p = l.drop_last();
        if k < blocking(p).len() {
            only_waiting_are_queued(p, k);
            let t = choose|t: int|
                0 <= t < p.len() && (#[trigger] p[t]).pid == blocking(p)[k] && p[t].state
                    == TaskState::Blocking;
            assert(l[t] == p[t]);
        } else {
            assert(l[l.len() - 1].pid == blocking(l)[k]);
        }
    }
}

} // verus!
