//! Cooperative scheduling with time slices, over the task manager.

use vstd::prelude::*;
use crate::task::manager::{
    awake, due, first_ready, has_pid, index_of, is_due, lemma_index, task_of, with_state, ManagedTask, TaskList,
    TaskManager, TaskState,
};

verus! {

/// What the processor has to do.
#[derive(Clone, Copy, PartialEq, Eq, Structural, Debug)]
pub enum Next {
    /// The running task goes on.
    Same,
    /// Save the context of `from` (the idle one, where it is `None`) and go on
    /// with `to`, whose kernel stack ends at `stack_top`.
    Switch { from: Option<usize>, to: usize, stack_top: usize },
    /// Nothing is ready: poll the network and wait for an interrupt.
    Idle,
}

/// Tasks and queue after the running task, if it still runs, was put back.
pub open spec fn requeued(l: TaskList, q: Seq<usize>, current: Option<usize>) -> (
    TaskList,
    Seq<usize>,
) {
    match current {
        Some(pid) => if has_pid(l, pid) && task_of(l, pid).state == TaskState::Running {
            (with_state(l, index_of(l, pid), TaskState::Ready), q.push(pid))
        } else {
            (l, q)
        },
        None => (l, q),
    }
}

pub open spec fn schedule_post(a: TaskManager, now: u64, r: Next, b: TaskManager) -> bool {
    let (l, q) = requeued(a.tasks@, a.ready_queue@, a.current);
    let l1 = awake(l, now);
    let (next, rest) = first_ready(l1, q + due(l, now));
    &&& b.wf()
    &&& b.ready_queue@ == rest
    &&& match next {
        None => r == Next::Idle && b.tasks@ == l1 && b.current == a.current,
        Some(pid) => {
            &&& b.current == Some(pid)
            &&& b.tasks@ == with_state(l1, index_of(l1, pid), TaskState::Running)
            &&& r == (if a.current == Some(pid) {
                Next::Same
            } else {
                Next::Switch {
                    from: match a.current {
                        Some(c) => if has_pid(l1, c) {
                            Some(c)
                        } else {
                            None
                        },
                        None => None,
                    },
                    to: pid,
                    stack_top: task_of(l1, pid).kernel_stack_top,
                }
            })
        },
    }
}

fn set_state(mgr: &mut TaskManager, i: usize, s: TaskState)
    requires
        old(mgr).wf(),
        i < old(mgr).tasks@.len(),
    ensures
        final(mgr).wf(),
        final(mgr).tasks@ == with_state(old(mgr).tasks@, i as int, s),
        final(mgr).ready_queue == old(mgr).ready_queue,
        final(mgr).current == old(mgr).current,
{
    let ghost l = mgr.tasks@;
    let t: ManagedTask = mgr.tasks[i];
    mgr.tasks.set(
        i,
        ManagedTask {
            pid: t.pid,
            state: s,
            exit_code: t.exit_code,
            kernel_stack_top: t.kernel_stack_top,
        },
    );
    proof {
        assert forall|a: int, b: int| 0 <= a < b < mgr.tasks@.len() implies (
        #[trigger] mgr.tasks@[a]).pid < (#[trigger] mgr.tasks@[b]).pid by {
            assert(l[a].pid < l[b].pid);
        }
    }
}

proof fn lemma_chosen(l: TaskList, q: Seq<usize>)
    ensures
        first_ready(l, q).0 is Some ==> has_pid(l, first_ready(l, q).0->0),
{
    crate::task::manager::chosen_is_ready(l, q);
}

/// Gives the processor to the next ready task. The running one goes to the end
/// of the queue.
pub fn schedule(mgr: &mut TaskManager, now: u64) -> (r: Next)
    requires
        old(mgr).wf(),
    ensures
        schedule_post(*old(mgr), now, r, *final(mgr)),
{
    let cur: Option<usize> = mgr.current;
    match cur {
        Some(pid) => match mgr.find(pid) {
            Some(i) => {
                if mgr.tasks[i].state == TaskState::Running {
                    set_state(mgr, i, TaskState::Ready);
                    mgr.ready_queue.push_back(pid);
                }
            },
            None => {},
        },
        None => {},
    }
    let ghost l = mgr.tasks@;
    let ghost q = mgr.ready_queue@;
    match mgr.pick_next(now) {
        None => Next::Idle,
        Some(pid) => {
            proof {
                lemma_chosen(awake(l, now), q + due(l, now));
            }
            match mgr.find(pid) {
                None => Next::Idle,
                Some(i) => {
                    let stack_top: usize = mgr.tasks[i].kernel_stack_top;
                    let from: Option<usize> = match cur {
                        Some(c) => match mgr.find(c) {
                            Some(_) => Some(c),
                            None => None,
                        },
                        None => None,
                    };
                    set_state(mgr, i, TaskState::Running);
                    mgr.current = Some(pid);
                    match cur {
                        Some(c) => {
                            if c == pid {
                                return Next::Same;
                            }
                        },
                        None => {},
                    }
                    Next::Switch { from, to: pid, stack_top }
                },
            }
        },
    }
}

/// The manager once the running task has ended: that task is a zombie with its
/// exit code, and every other task, and the queue, are as before.
pub open spec fn exited(a: TaskManager, code: i32, b: TaskManager) -> bool {
    &&& b.wf()
    &&& b.current is None
    &&& b.ready_queue@ == a.ready_queue@
    &&& b.tasks@.len() == a.tasks@.len()
    &&& forall|i: int|
        0 <= i < a.tasks@.len() ==> {
            let t = a.tasks@[i];
            #[trigger] b.tasks@[i] == (if a.current == Some(t.pid) {
                ManagedTask { state: TaskState::Zombie(code), exit_code: code, ..t }
            } else {
                t
            })
        }
}

/// The running task ends and another one is chosen.
pub fn current_task_exit(mgr: &mut TaskManager, code: i32, now: u64) -> (r: Next)
    requires
        old(mgr).wf(),
    ensures
        final(mgr).wf(),
        exists|mid: TaskManager|
            exited(*old(mgr), code, mid) && #[trigger] schedule_post(mid, now, r, *final(mgr)),
{
    let ghost a = *mgr;
    mgr.exit_current(code);
    let ghost mid = *mgr;
    proof {
        assert forall|i: int| 0 <= i < a.tasks@.len() implies {
            let t = a.tasks@[i];
            #[trigger] mid.tasks@[i] == (if a.current == Some(t.pid) {
                ManagedTask { state: TaskState::Zombie(code), exit_code: code, ..t }
            } else {
                t
            })
        } by {
            lemma_index(a.tasks@, i);
            if a.current is Some && has_pid(a.tasks@, a.current->0) {
                let k = index_of(a.tasks@, a.current->0);
                assert(a.tasks@[k].pid == a.current->0);
            }
        }
    }
    let r: Next = schedule(mgr, now);
    assert(schedule_post(mid, now, r, *mgr));
    r
}

// ---- Laws -------------------------------------------------------------------------
/// How far into the queue the first ready task is.
proof fn lemma_front(l: TaskList, q: Seq<usize>) -> (k: int)
    ensures
        0 <= k <= q.len(),
        forall|i: int|
            0 <= i < k ==> !(has_pid(l, #[trigger] q[i]) && task_of(l, q[i]).state
                == TaskState::Ready),
        match first_ready(l, q).0 {
            Some(pid) => k < q.len() && q[k] == pid && first_ready(l, q).1 == q.skip(k + 1),
            None => k == q.len() && first_ready(l, q).1.len() == 0,
        },
    decreases q.len(),
{
    if q.len() == 0 {
        0
    } else if has_pid(l, q[0]) && task_of(l, q[0]).state == TaskState::Ready {
        0
    } else {
        let t = q.skip(1);
        let k = lemma_front(l, t);
        assert forall|i: int| 0 <= i < k + 1 implies !(has_pid(l, #[trigger] q[i]) && task_of(
            l,
            q[i],
        ).state == TaskState::Ready) by {
            if i > 0 {
                assert(t[i - 1] == q[i]);
            }
        }
        if first_ready(l, t).0 is Some {
            assert(t.skip(k + 1) =~= q.skip(k + 2));
        }
        k + 1
    }
}

/// A sleeper whose time has come is among the woken.
proof fn lemma_due(l: TaskList, now: u64, t: int)
    requires
        0 <= t < l.len(),
        is_due(l[t], now),
    ensures
        due(l, now).contains(l[t].pid),
    decreases l.len(),
{
    let d = due(l, now);
    if t == l.len() - 1 {
        assert(d[d.len() - 1] == l[t].pid);
    } else {
        let p = l.drop_last();
        assert(p[t] == l[t]);
        lemma_due(p, now, t);
        let i = choose|i: int| 0 <= i < due(p, now).len() && due(p, now)[i] == l[t].pid;
        assert(d[i] == l[t].pid);
    }
}

/// Where a task that is put back is, and that the list stays sorted.
proof fn lemma_requeued(a: TaskManager, now: u64, t: int)
    requires
        a.wf(),
        0 <= t < a.tasks@.len(),
    ensures
        ({
            let (l, q) = requeued(a.tasks@, a.ready_queue@, a.current);
            let l1 = awake(l, now);
            let x = a.tasks@[t];
            &&& l.len() == a.tasks@.len() == l1.len()
            &&& l[t] == (if a.current == Some(x.pid) && x.state is Running {
                ManagedTask { state: TaskState::Ready, ..x }
            } else {
                x
            })
            &&& has_pid(l1, x.pid) && index_of(l1, x.pid) == t
            &&& q.len() >= a.ready_queue@.len()
            &&& forall|i: int| 0 <= i < a.ready_queue@.len() ==> #[trigger] q[i] == a.ready_queue@[i]
            &&& a.current == Some(x.pid) && x.state is Running ==> q.contains(x.pid)
        }),
{
    let (l, q) = requeued(a.tasks@, a.ready_queue@, a.current);
    let l1 = awake(l, now);
    let x = a.tasks@[t];
    lemma_index(a.tasks@, t);
    if a.current is Some && has_pid(a.tasks@, a.current->0) {
        let k = index_of(a.tasks@, a.current->0);
        assert(a.tasks@[k].pid == a.current->0);
        lemma_index(a.tasks@, k);
    }
    if a.current == Some(x.pid) && x.state is Running {
        assert(q[q.len() - 1] == x.pid);
    }
    assert forall|i: int, j: int| 0 <= i < j < l1.len() implies (#[trigger] l1[i]).pid < (
    #[trigger] l1[j]).pid by {
        assert(a.tasks@[i].pid < a.tasks@[j].pid);
        assert(l[i].pid == a.tasks@[i].pid && l[j].pid == a.tasks@[j].pid);
    }
    assert(l1[t].pid == x.pid);
    lemma_index(l1, t);
}

/// The task at a place of the list can run: it runs already, or it is ready and
/// queued, or it sleeps and its time has come.
pub open spec fn can_run(a: TaskManager, now: u64, t: int) -> bool {
    let x = a.tasks@[t];
    match x.state {
        TaskState::Running => a.current == Some(x.pid),
        TaskState::Ready => a.ready_queue@.contains(x.pid),
        TaskState::Sleeping(until) => until <= now,
        _ => false,
    }
}

/// No task is lost: one that can run is afterwards the running one, or it is
/// ready and queued.
pub proof fn none_is_lost(a: TaskManager, now: u64, r: Next, b: TaskManager, t: int)
    requires
        a.wf(),
        schedule_post(a, now, r, b),
        0 <= t < a.tasks@.len(),
        can_run(a, now, t),
    ensures
        b.tasks@.len() == a.tasks@.len(),
        b.tasks@[t].pid == a.tasks@[t].pid,
        (b.current == Some(a.tasks@[t].pid) && b.tasks@[t].state is Running) || (
        b.tasks@[t].state is Ready && b.ready_queue@.contains(a.tasks@[t].pid)),
{
    let (l, q0) = requeued(a.tasks@, a.ready_queue@, a.current);
    let l1 = awake(l, now);
    let q = q0 + due(l, now);
    let x = a.tasks@[t];
    lemma_requeued(a, now, t);
    let k = lemma_front(l1, q);
    assert(l1[t].state is Ready);
    assert(q.contains(x.pid)) by {
        if is_due(l[t], now) {
            lemma_due(l, now, t);
            let i = choose|i: int| 0 <= i < due(l, now).len() && due(l, now)[i] == x.pid;
            assert(q[q0.len() + i] == x.pid);
        } else if x.state is Ready {
            let i = choose|i: int| 0 <= i < a.ready_queue@.len() && a.ready_queue@[i] == x.pid;
            assert(q0[i] == x.pid);
            assert(q[i] == x.pid);
        } else {
            let i = choose|i: int| 0 <= i < q0.len() && q0[i] == x.pid;
            assert(q[i] == x.pid);
        }
    }
    let i = choose|i: int| 0 <= i < q.len() && q[i] == x.pid;
    assert(task_of(l1, q[i]) == l1[t]);
    lemma_chosen(l1, q);
    if first_ready(l1, q).0 is Some {
        let p = first_ready(l1, q).0->0;
        if p != x.pid {
            let m = index_of(l1, p);
            assert(l1[m].pid == p);
            assert(m != t);
            assert(q.skip(k + 1)[i - k - 1] == x.pid);
        }
    }
}

/// Scheduling changes no task that cannot run, and never runs it.
pub proof fn idle_tasks_stay(a: TaskManager, now: u64, r: Next, b: TaskManager, t: int)
    requires
        a.wf(),
        schedule_post(a, now, r, b),
        0 <= t < a.tasks@.len(),
        !can_run(a, now, t),
        !(a.tasks@[t].state is Ready),
    ensures
        b.tasks@[t] == a.tasks@[t],
        r matches Next::Switch { to, .. } ==> to != a.tasks@[t].pid,
{
    let (l, q0) = requeued(a.tasks@, a.ready_queue@, a.current);
    let l1 = awake(l, now);
    let q = q0 + due(l, now);
    lemma_requeued(a, now, t);
    crate::task::manager::chosen_is_ready(l1, q);
    if first_ready(l1, q).0 is Some {
        let p = first_ready(l1, q).0->0;
        let m = index_of(l1, p);
        assert(l1[m].pid == p);
        assert(l1[m].state is Ready);
        assert(m != t);
    }
}

/// The queue is served from its front: the first task of it that is ready runs
/// next, and those behind it move up in their order.
pub proof fn front_runs_next(a: TaskManager, now: u64, r: Next, b: TaskManager, i: int, t: int)
    requires
        a.wf(),
        schedule_post(a, now, r, b),
        0 <= i < a.ready_queue@.len(),
        0 <= t < a.tasks@.len(),
        a.tasks@[t].pid == a.ready_queue@[i],
        a.tasks@[t].state is Ready,
        forall|j: int, u: int|
            0 <= j < i && 0 <= u < a.tasks@.len() && (#[trigger] a.tasks@[u]).pid
                == #[trigger] a.ready_queue@[j] ==> !(a.tasks@[u].state is Ready) && !can_run(
                a,
                now,
                u,
            ),
    ensures
        b.current == Some(a.tasks@[t].pid),
        b.tasks@[t].state is Running,
        r is Same || (r matches Next::Switch { to, stack_top, .. } && to == a.tasks@[t].pid
            && stack_top == a.tasks@[t].kernel_stack_top),
        b.ready_queue@.len() >= a.ready_queue@.len() - i - 1,
        forall|j: int|
            i < j < a.ready_queue@.len() ==> b.ready_queue@[j - i - 1] == #[trigger] a.ready_queue@[j],
{
    let (l, q0) = requeued(a.tasks@, a.ready_queue@, a.current);
    let l1 = awake(l, now);
    let q = q0 + due(l, now);
    lemma_requeued(a, now, t);
    let k = lemma_front(l1, q);
    assert(q[i] == q0[i] == a.tasks@[t].pid);
    assert(task_of(l1, q[i]) == l1[t]);
    assert(l1[t].state is Ready);
    assert(k <= i);
    if k < i {
        assert(q[k] == q0[k] == a.ready_queue@[k]);
        let p = q[k];
        crate::task::manager::chosen_is_ready(l1, q);
        let u = index_of(l1, p);
        assert(l1[u].pid == p && l1[u].state is Ready);
        lemma_requeued(a, now, u);
        assert(a.tasks@[u].pid == p);
        assert(!can_run(a, now, u));
        assert(false);
    }
    assert forall|j: int| i < j < a.ready_queue@.len() implies b.ready_queue@[j - i - 1]
        == #[trigger] a.ready_queue@[j] by {
        assert(q.skip(k + 1)[j - i - 1] == q[j]);
        assert(q[j] == q0[j]);
    }
}

/// A task that is interrupted goes behind all that wait already: where a ready
/// task is queued, the running one gives way to it.
pub proof fn running_gives_way(a: TaskManager, now: u64, r: Next, b: TaskManager, c: int, t: int)
    requires
        a.wf(),
        schedule_post(a, now, r, b),
        0 <= c < a.tasks@.len(),
        a.current == Some(a.tasks@[c].pid),
        a.tasks@[c].state is Running,
        !a.ready_queue@.contains(a.tasks@[c].pid),
        0 <= t < a.tasks@.len(),
        a.tasks@[t].state is Ready,
        a.ready_queue@.contains(a.tasks@[t].pid),
    ensures
        r matches Next::Switch { from, .. } && from == Some(a.tasks@[c].pid),
        b.current != a.current,
        b.tasks@[c].state is Ready,
        b.ready_queue@.contains(a.tasks@[c].pid),
{
    none_is_lost(a, now, r, b, c);
    let (l, q0) = requeued(a.tasks@, a.ready_queue@, a.current);
    let l1 = awake(l, now);
    let q = q0 + due(l, now);
    lemma_requeued(a, now, t);
    lemma_requeued(a, now, c);
    let k = lemma_front(l1, q);
    let i = choose|i: int| 0 <= i < a.ready_queue@.len() && a.ready_queue@[i] == a.tasks@[t].pid;
    assert(q[i] == q0[i]);
    assert(task_of(l1, q[i]) == l1[t]);
    assert(k <= i);
    assert(q[k] == q0[k] == a.ready_queue@[k]);
}

/// Exiting ends the running task and no other: every ready task that is queued
/// runs next or stays queued, and the ended one keeps its code and is not run.
pub proof fn exit_ends_one_task(
    a: TaskManager,
    code: i32,
    mid: TaskManager,
    now: u64,
    r: Next,
    b: TaskManager,
    t: int,
)
    requires
        a.wf(),
        exited(a, code, mid),
        schedule_post(mid, now, r, b),
        0 <= t < a.tasks@.len(),
    ensures
        mid.ready_queue@ == a.ready_queue@,
        a.current == Some(a.tasks@[t].pid) ==> b.tasks@[t].state == TaskState::Zombie(code)
            && b.tasks@[t].exit_code == code && b.current != a.current,
        a.current != Some(a.tasks@[t].pid) && a.tasks@[t].state is Ready
            && a.ready_queue@.contains(a.tasks@[t].pid) ==> (b.current == Some(a.tasks@[t].pid)
            && b.tasks@[t].state is Running) || (b.tasks@[t].state is Ready
            && b.ready_queue@.contains(a.tasks@[t].pid)),
{
    if a.current == Some(a.tasks@[t].pid) {
        idle_tasks_stay(mid, now, r, b, t);
        assert(mid.tasks@[t].state is Zombie);
    } else if a.tasks@[t].state is Ready && a.ready_queue@.contains(a.tasks@[t].pid) {
        assert(mid.tasks@[t] == a.tasks@[t]);
        none_is_lost(mid, now, r, b, t);
    }
}

/// After an exit the queue is served in its order: its first task, where that is
/// ready, runs, and the others move up.
pub proof fn exit_serves_the_queue(
    a: TaskManager,
    code: i32,
    mid: TaskManager,
    now: u64,
    r: Next,
    b: TaskManager,
    t: int,
)
    requires
        a.wf(),
        exited(a, code, mid),
        schedule_post(mid, now, r, b),
        a.ready_queue@.len() > 0,
        0 <= t < a.tasks@.len(),
        a.tasks@[t].pid == a.ready_queue@[0],
        a.tasks@[t].state is Ready,
        a.current != Some(a.tasks@[t].pid),
    ensures
        b.current == Some(a.ready_queue@[0]),
        r matches Next::Switch { to, .. } && to == a.ready_queue@[0],
        b.ready_queue@.len() >= a.ready_queue@.len() - 1,
        b.ready_queue@.take(a.ready_queue@.len() - 1) == a.ready_queue@.skip(1),
{
    assert(mid.tasks@[t] == a.tasks@[t]);
    front_runs_next(mid, now, r, b, 0, t);
    assert(b.ready_queue@.take(a.ready_queue@.len() - 1) =~= a.ready_queue@.skip(1)) by {
        assert forall|j: int| 0 <= j < a.ready_queue@.len() - 1 implies b.ready_queue@[j]
            == a.ready_queue@.skip(1)[j] by {
            assert(b.ready_queue@[(j + 1) - 0 - 1] == mid.ready_queue@[j + 1]);
        }
    }
}

} // verus!
