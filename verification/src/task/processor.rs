//! The task that runs, and the loop that picks the next one.

use vstd::prelude::*;
use crate::task::tcb::{TaskControlBlock, TaskControlBlockInner, TaskStatus};
use crate::trap::context::TrapContext;

verus! {

/// The tasks by number, those that wait for the processor, oldest first, and
/// the one that runs.
pub struct Processor {
    pub tasks: Vec<TaskControlBlock>,
    pub ready: Vec<usize>,
    pub current: Option<usize>,
}

pub open spec fn with_status(t: Seq<TaskControlBlock>, i: int, s: TaskStatus) -> Seq<TaskControlBlock> {
    t.update(
        i,
        TaskControlBlock {
            inner: TaskControlBlockInner { task_status: s, ..t[i].inner },
            ..t[i]
        },
    )
}

impl Processor {
    pub open spec fn wf(&self) -> bool {
        &&& forall|i: int| 0 <= i < self.ready@.len() ==> #[trigger] self.ready@[i]
            < self.tasks@.len()
        &&& self.current is Some ==> self.current->0 < self.tasks@.len()
    }

    pub fn new() -> (r: Processor)
        ensures
            r.wf(),
            r.tasks@.len() == 0,
            r.ready@.len() == 0,
            r.current is None,
    {
        Processor { tasks: Vec::new(), ready: Vec::new(), current: None }
    }

    /// Puts a task at the end of the queue.
    pub fn add_task(&mut self, i: usize)
        requires
            old(self).wf(),
            i < old(self).tasks@.len(),
        ensures
            final(self).wf(),
            final(self).ready@ == old(self).ready@.push(i),
            *final(self) == (Processor { ready: final(self).ready, ..*old(self) }),
    {
        self.ready.push(i);
    }

    /// Takes the task that has waited longest.
    pub fn fetch_task(&mut self) -> (r: Option<usize>)
        requires
            old(self).wf(),
        ensures
            final(self).wf(),
            *final(self) == (Processor { ready: final(self).ready, ..*old(self) }),
            if old(self).ready@.len() == 0 {
                r is None && final(self).ready@ == old(self).ready@
            } else {
                r == Some(old(self).ready@[0]) && final(self).ready@ == old(self).ready@.skip(1)
            },
    {
        let ghost q = self.ready@;
        if self.ready.len() == 0 {
            return None;
        }
        let i: usize = self.ready.remove(0);
        proof {
            assert(self.ready@ =~= q.skip(1));
            assert forall|k: int| 0 <= k < self.ready@.len() implies #[trigger] self.ready@[k]
                < self.tasks@.len() by {
                assert(self.ready@[k] == q[k + 1]);
            }
        }
        Some(i)
    }

    pub fn take_current_task(&mut self) -> (r: Option<usize>)
        requires
            old(self).wf(),
        ensures
            final(self).wf(),
            r == old(self).current,
            *final(self) == (Processor { current: None, ..*old(self) }),
    {
        let r: Option<usize> = self.current;
        self.current = None;
        r
    }

    pub fn current_task(&self) -> (r: Option<usize>)
        ensures
            r == self.current,
    {
        self.current
    }

    /// The value that selects the address space of the running task.
    pub fn current_user_token(&self) -> (r: usize)
        requires
            self.wf(),
            self.current is Some,
        ensures
            r == self.tasks@[self.current->0 as int].inner.token,
    {
        match self.current {
            Some(i) => self.tasks[i].inner.user_token(),
            None => 0,
        }
    }

    /// What the trap of the running task saved.
    pub fn current_trap_cx(&self) -> (r: &TrapContext)
        requires
            self.wf(),
            self.current is Some,
        ensures
            *r == self.tasks@[self.current->0 as int].inner.trap_cx,
    {
        let i: usize = self.current.unwrap();
        &self.tasks[i].inner.trap_cx
    }

    fn set_status(&mut self, i: usize, s: TaskStatus)
        requires
            old(self).wf(),
            i < old(self).tasks@.len(),
        ensures
            final(self).wf(),
            final(self).tasks@ == with_status(old(self).tasks@, i as int, s),
            *final(self) == (Processor { tasks: final(self).tasks, ..*old(self) }),
    {
        let ghost t = self.tasks@;
        self.tasks[i].inner.task_status = s;
        proof {
            assert(self.tasks@ =~= with_status(t, i as int, s));
        }
    }

    /// One turn of the loop: the task that has waited longest runs; `None` where
    /// none waits.
    pub fn run_tasks(&mut self) -> (r: Option<usize>)
        requires
            old(self).wf(),
        ensures
            final(self).wf(),
            r == (if old(self).ready@.len() == 0 {
                None
            } else {
                Some(old(self).ready@[0])
            }),
            match r {
                None => *final(self) == *old(self),
                Some(i) => {
                    &&& final(self).ready@ == old(self).ready@.skip(1)
                    &&& final(self).tasks@ == with_status(
                        old(self).tasks@,
                        i as int,
                        TaskStatus::Running,
                    )
                    &&& final(self).current == Some(i)
                },
            },
    {
        if self.ready.len() == 0 {
            return None;
        }
        proof {
            assert(self.ready@[0] < self.tasks@.len());
        }
        match self.fetch_task() {
            Some(i) => {
                self.set_status(i, TaskStatus::Running);
                self.current = Some(i);
                Some(i)
            },
            None => None,
        }
    }

    /// The running task goes to the end of the queue; gives its number, whose
    /// context is to be saved before the loop goes on.
    pub fn suspend_current_and_run_next(&mut self) -> (r: usize)
        requires
            old(self).wf(),
            old(self).current is Some,
        ensures
            final(self).wf(),
            r == old(self).current->0,
            final(self).current is None,
            final(self).tasks@ == with_status(old(self).tasks@, r as int, TaskStatus::Ready),
            final(self).ready@ == old(self).ready@.push(r),
    {
        match self.take_current_task() {
            Some(i) => {
                self.set_status(i, TaskStatus::Ready);
                self.add_task(i);
                i
            },
            None => 0,
        }
    }
}

/// Tasks take turns: one that waits at place `k` is at place `k - 1` once
/// another was picked and put back.
pub proof fn tasks_take_turns(q: Seq<usize>, k: int)
    requires
        0 < k < q.len(),
    ensures
        q.skip(1).push(q[0])[k - 1] == q[k],
        q.skip(1).push(q[0]).len() == q.len(),
{
}

} // verus!
