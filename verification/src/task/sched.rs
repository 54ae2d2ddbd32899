//! Round-robin scheduling of tasks, which are known by their numbers.

use vstd::prelude::*;
use std::collections::VecDeque;

verus! {

#[derive(Clone, Copy, PartialEq, Eq, Structural, Debug)]
pub enum TaskState {
    Runnable,
    Running,
    Blocked,
    Zombie,
}

/// What the scheduler knows of the tasks.
pub struct Sched {
    /// State of each task.
    pub states: Vec<TaskState>,
    /// The `satp` value of each task's address space.
    pub satps: Vec<u64>,
    /// Tasks that wait for the processor, first come first served.
    pub runqueue: VecDeque<usize>,
    /// The running task; `None` while idle.
    pub current: Option<usize>,
    /// The `satp` value that was loaded last.
    pub active_satp: u64,
}

/// What the processor has to do after a scheduling decision.
#[derive(Clone, Copy, PartialEq, Eq, Structural, Debug)]
pub enum Switch {
    /// Go on where it is.
    Stay,
    /// Save the context of `from` (the idle context if there is none) and go
    /// on with `to`, after loading `satp` if one is given.
    To { from: Option<usize>, to: usize, satp: Option<u64> },
    /// Save the context of `task` and go idle.
    Idle { task: usize },
}

impl Sched {
    /// Every number that occurs is that of a task.
    pub open spec fn wf(&self) -> bool {
        &&& self.satps@.len() == self.states@.len()
        &&& forall|i: int|
            0 <= i < self.runqueue@.len() ==> #[trigger] self.runqueue@[i] < self.states@.len()
        &&& self.current is Some ==> self.current->0 < self.states@.len()
    }

    /// All but states and queue are as in `o`.
    pub open spec fn same_cpu(&self, o: Sched) -> bool {
        self.satps == o.satps && self.current == o.current && self.active_satp == o.active_satp
    }
}

/// States and queue after making `t` runnable. A fresh runnable task is queued
/// only if it is not there yet, and a zombie never.
pub open spec fn made_runnable(
    states: Seq<TaskState>,
    queue: Seq<usize>,
    t: usize,
) -> (Seq<TaskState>, Seq<usize>) {
    let st = states[t as int];
    if st is Zombie {
        (states, queue)
    } else if st is Runnable && queue.contains(t) {
        (states, queue)
    } else {
        (states.update(t as int, TaskState::Runnable), queue.push(t))
    }
}

pub open spec fn runnable_post(a: Sched, t: usize, b: Sched) -> bool {
    &&& b.wf()
    &&& b.same_cpu(a)
    &&& (b.states@, b.runqueue@) == made_runnable(a.states@, a.runqueue@, t)
}

fn queued(q: &VecDeque<usize>, t: usize) -> (r: bool)
    ensures
        r == q@.contains(t),
{
    let n: usize = q.len();
    let mut i: usize = 0;
    while i < n
        invariant
            i <= n == q@.len(),
            forall|j: int| 0 <= j < i ==> q@[j] != t,
        decreases n - i,
    {
        if q[i] == t {
            assert(q@[i as int] == t);
            return true;
        }
        i = i + 1;
    }
    false
}

/// Makes a task ready to run.
pub fn make_runnable(s: &mut Sched, t: usize)
    requires
        old(s).wf(),
        t < old(s).states@.len(),
    ensures
        runnable_post(*old(s), t, *final(s)),
{
    let ghost a = *s;
    match s.states[t] {
        TaskState::Blocked | TaskState::Running => {
            s.states.set(t, TaskState::Runnable);
            s.runqueue.push_back(t);
        },
        TaskState::Runnable => {
            assert(s.states@.update(t as int, TaskState::Runnable) =~= s.states@);
            if !queued(&s.runqueue, t) {
                s.runqueue.push_back(t);
            }
        },
        TaskState::Zombie => {},
    }
}

/// The `satp` value to load for an address space, if it is not active yet.
pub open spec fn satp_to_load(active: u64, satp: u64) -> Option<u64> {
    if active != satp {
        Some(satp)
    } else {
        None
    }
}

/// Notes the address space of `t` as active, and gives the `satp` value to load
/// where it was not.
pub fn activate_mm(s: &mut Sched, t: usize) -> (r: Option<u64>)
    requires
        old(s).wf(),
        t < old(s).states@.len(),
    ensures
        *final(s) == (Sched { active_satp: old(s).satps@[t as int], ..*old(s) }),
        r == satp_to_load(old(s).active_satp, old(s).satps@[t as int]),
{
    let satp: u64 = s.satps[t];
    activate_satp(s, satp)
}

pub fn activate_satp(s: &mut Sched, satp: u64) -> (r: Option<u64>)
    ensures
        *final(s) == (Sched { active_satp: satp, ..*old(s) }),
        r == satp_to_load(old(s).active_satp, satp),
{
    if s.active_satp != satp {
        s.active_satp = satp;
        Some(satp)
    } else {
        None
    }
}

/// Notes the address space of `t` as active, and gives its `satp` value, which
/// is to be loaded in any case.
pub fn reload_mm(s: &mut Sched, t: usize) -> (satp: u64)
    requires
        old(s).wf(),
        t < old(s).states@.len(),
    ensures
        satp == old(s).satps@[t as int],
        *final(s) == (Sched { active_satp: satp, ..*old(s) }),
{
    let satp: u64 = s.satps[t];
    s.active_satp = satp;
    satp
}

/// What choosing the next task does. The current task's state was set before.
pub open spec fn schedule_post(a: Sched, r: Switch, b: Sched) -> bool {
    &&& b.wf()
    &&& b.satps == a.satps
    &&& if a.runqueue@.len() == 0 {
        &&& b.runqueue@ == a.runqueue@
        &&& b.states == a.states
        &&& b.active_satp == a.active_satp
        &&& b.current is None
        &&& r == (match a.current {
            Some(c) => Switch::Idle { task: c },
            None => Switch::Stay,
        })
    } else {
        let next = a.runqueue@[0];
        &&& b.runqueue@ == a.runqueue@.skip(1)
        &&& b.states@ == a.states@.update(next as int, TaskState::Running)
        &&& b.current == Some(next)
        &&& if a.current == Some(next) {
            b.active_satp == a.active_satp && r == Switch::Stay
        } else {
            &&& b.active_satp == a.satps@[next as int]
            &&& r == (Switch::To {
                from: a.current,
                to: next,
                satp: satp_to_load(a.active_satp, a.satps@[next as int]),
            })
        }
    }
}

/// Gives the processor to the task that has waited longest.
pub fn schedule(s: &mut Sched) -> (r: Switch)
    requires
        old(s).wf(),
    ensures
        schedule_post(*old(s), r, *final(s)),
{
    let ghost a = *s;
    match s.runqueue.pop_front() {
        Some(next) => {
            proof {
                assert(next == a.runqueue@[0]);
                assert(s.runqueue@ =~= a.runqueue@.skip(1));
                assert forall|i: int| 0 <= i < s.runqueue@.len() implies #[trigger] s.runqueue@[i]
                    < s.states@.len() by {
                    assert(s.runqueue@[i] == a.runqueue@[i + 1]);
                }
            }
            let from: Option<usize> = s.current;
            s.states.set(next, TaskState::Running);
            match from {
                Some(c) => {
                    if c == next {
                        return Switch::Stay;
                    }
                },
                None => {},
            }
            let satp: Option<u64> = activate_mm(s, next);
            s.current = Some(next);
            Switch::To { from, to: next, satp }
        },
        None => match s.current {
            None => Switch::Stay,
            Some(c) => {
                s.current = None;
                Switch::Idle { task: c }
            },
        },
    }
}

/// Gives up the processor, if any other task waits for it.
pub fn yield_now(s: &mut Sched) -> (r: Switch)
    requires
        old(s).wf(),
        old(s).current is Some,
    ensures
        ({
            let c = old(s).current->0;
            if old(s).runqueue@.len() == 0 {
                r == Switch::Stay && *final(s) == *old(s)
            } else {
                exists|mid: Sched|
                    {
                        &&& mid.states@ == old(s).states@.update(c as int, TaskState::Runnable)
                        &&& mid.runqueue@ == old(s).runqueue@.push(c)
                        &&& mid.same_cpu(*old(s))
                        &&& #[trigger] schedule_post(mid, r, *final(s))
                    }
            }
        }),
        final(s).wf(),
{
    let c: usize = s.current.unwrap();
    if s.runqueue.len() == 0 {
        return Switch::Stay;
    }
    s.states.set(c, TaskState::Runnable);
    s.runqueue.push_back(c);
    let ghost mid = *s;
    let r: Switch = schedule(s);
    assert(schedule_post(mid, r, *s));
    r
}

/// Puts the current task to sleep until it is made runnable.
pub fn block_current(s: &mut Sched) -> (r: Switch)
    requires
        old(s).wf(),
        old(s).current is Some,
    ensures
        exists|mid: Sched|
            {
                &&& mid.states@ == old(s).states@.update(
                    old(s).current->0 as int,
                    TaskState::Blocked,
                )
                &&& mid.runqueue == old(s).runqueue
                &&& mid.same_cpu(*old(s))
                &&& #[trigger] schedule_post(mid, r, *final(s))
            },
        final(s).wf(),
{
    let c: usize = s.current.unwrap();
    s.states.set(c, TaskState::Blocked);
    let ghost mid = *s;
    let r: Switch = schedule(s);
    assert(schedule_post(mid, r, *s));
    r
}

/// One round of the idle loop: the next task to run, or `Stay` to wait for an
/// interrupt.
pub fn idle_loop(s: &mut Sched) -> (r: Switch)
    requires
        old(s).wf(),
        old(s).current is None,
    ensures
        schedule_post(*old(s), r, *final(s)),
{
    schedule(s)
}

pub fn runqueue_len(s: &Sched) -> (n: usize)
    ensures
        n == s.runqueue@.len(),
{
    s.runqueue.len()
}

/// Round robin is fair: a task at place `k` of the queue is at place `k - 1`
/// after each scheduling decision, and runs once it was first.
pub proof fn queue_moves_up(a: Sched, r: Switch, b: Sched, k: int)
    requires
        a.wf(),
        schedule_post(a, r, b),
        0 <= k < a.runqueue@.len(),
    ensures
        k == 0 ==> b.current == Some(a.runqueue@[0]) && b.states@[a.runqueue@[0] as int] is Running,
        k > 0 ==> b.runqueue@[k - 1] == a.runqueue@[k],
{
}

/// Making a task runnable queues it behind the others, once; an ended task is never
/// queued, and no other task changes.
pub proof fn runnable_is_queued_once(states: Seq<TaskState>, queue: Seq<usize>, t: usize, u: int)
    requires
        t < states.len(),
        0 <= u < states.len(),
    ensures
        ({
            let (s, q) = made_runnable(states, queue, t);
            &&& states[t as int] is Zombie ==> s == states && q == queue
            &&& states[t as int] is Blocked ==> s[t as int] is Runnable && q == queue.push(t)
            &&& states[t as int] is Runnable && queue.contains(t) ==> s == states && q == queue
            &&& !(states[t as int] is Zombie) ==> s[t as int] is Runnable && q.contains(t)
            &&& u != t ==> s[u] == states[u]
        }),
{
    let (s, q) = made_runnable(states, queue, t);
    if !(states[t as int] is Zombie) && !(states[t as int] is Runnable && queue.contains(t)) {
        assert(q[q.len() - 1] == t);
    }
}

/// A switch loses no task: with nothing queued the processor is idle, otherwise the
/// first of the queue runs, and every other task keeps its state; its address space
/// is the one that is active.
pub proof fn switch_loses_none(a: Sched, r: Switch, b: Sched, u: int)
    requires
        a.wf(),
        schedule_post(a, r, b),
        0 <= u < a.states@.len(),
    ensures
        a.runqueue@.len() == 0 ==> b.current is None && b.states@ == a.states@,
        a.runqueue@.len() > 0 ==> {
            &&& b.current == Some(a.runqueue@[0])
            &&& b.states@[a.runqueue@[0] as int] is Running
            &&& u != a.runqueue@[0] ==> b.states@[u] == a.states@[u]
            &&& b.runqueue@ == a.runqueue@.skip(1)
            &&& a.current != b.current ==> b.active_satp == a.satps@[a.runqueue@[0] as int]
        },
        r matches Switch::To { from, to, satp } ==> from == a.current && Some(to) == b.current && (
        satp is Some ==> satp == Some(a.satps@[to as int])) && (satp is None ==> a.active_satp
            == a.satps@[to as int]),
{
}

} // verus!
