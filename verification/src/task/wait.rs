//! Wait queues and the rule by which a blocking operation goes to sleep.

use vstd::prelude::*;
use crate::errno::{EAGAIN, EINTR};
use crate::task::sched;
use crate::task::sched::{made_runnable, runnable_post, schedule_post, Sched, Switch, TaskState};

verus! {

/// What becomes of one attempt at a blocking operation.
pub enum Step<T> {
    /// The operation is over.
    Done(Result<T, i32>),
    /// Sleep on the operation's wait queues, and try again when woken.
    Block,
}

/// One round of a blocking operation: `attempt` is what trying gave, `signal`
/// whether a signal is deliverable to the task.
pub fn block_on<T>(attempt: Result<T, i32>, nonblock: bool, signal: bool) -> (r: Step<T>)
    ensures
        r == (if attempt is Err && attempt->Err_0 == EAGAIN && !nonblock {
            if signal {
                Step::Done(Err::<T, i32>(EINTR))
            } else {
                Step::Block
            }
        } else {
            Step::Done(attempt)
        }),
{
    match attempt {
        Err(e) => {
            if e == EAGAIN && !nonblock {
                if signal {
                    Step::Done(Err(EINTR))
                } else {
                    Step::Block
                }
            } else {
                Step::Done(Err(e))
            }
        },
        Ok(v) => Step::Done(Ok(v)),
    }
}

/// One round of a blocking operation with a deadline on the clock that `now`
/// is read from. A passed deadline gives `EAGAIN`.
pub fn block_on_until<T>(
    attempt: Result<T, i32>,
    deadline: Option<u64>,
    now: u64,
    signal: bool,
) -> (r: Step<T>)
    ensures
        r == (if attempt is Err && attempt->Err_0 == EAGAIN {
            if signal {
                Step::Done(Err::<T, i32>(EINTR))
            } else if deadline is Some && now >= deadline->0 {
                Step::Done(Err::<T, i32>(EAGAIN))
            } else {
                Step::Block
            }
        } else {
            Step::Done(attempt)
        }),
{
    match attempt {
        Err(e) => {
            if e == EAGAIN {
                if signal {
                    return Step::Done(Err(EINTR));
                }
                match deadline {
                    Some(d) => {
                        if now >= d {
                            return Step::Done(Err(EAGAIN));
                        }
                    },
                    None => {},
                }
                Step::Block
            } else {
                Step::Done(Err(e))
            }
        },
        Ok(v) => Step::Done(Ok(v)),
    }
}

/// Tasks that sleep until something happens, in order of arrival.
pub struct WaitQueue {
    pub waiters: Vec<usize>,
}

/// The list without `t`.
pub open spec fn without(l: Seq<usize>, t: usize) -> Seq<usize>
    decreases l.len(),
{
    if l.len() == 0 {
        l
    } else {
        let rest = without(l.drop_last(), t);
        if l.last() == t {
            rest
        } else {
            rest.push(l.last())
        }
    }
}

/// States and queue after the tasks of `l` were made runnable, one by one.
pub open spec fn woken(states: Seq<TaskState>, queue: Seq<usize>, l: Seq<usize>) -> (
    Seq<TaskState>,
    Seq<usize>,
)
    decreases l.len(),
{
    if l.len() == 0 {
        (states, queue)
    } else {
        let (st, q) = woken(states, queue, l.drop_last());
        made_runnable(st, q, l.last())
    }
}

pub open spec fn in_range(l: Seq<usize>, n: int) -> bool {
    forall|i: int| 0 <= i < l.len() ==> #[trigger] l[i] < n
}

impl WaitQueue {
    pub fn new() -> (r: WaitQueue)
        ensures
            r.waiters@.len() == 0,
    {
        WaitQueue { waiters: Vec::new() }
    }

    /// Adds a task, once.
    pub fn add(&mut self, t: usize)
        ensures
            final(self).waiters@ == (if old(self).waiters@.contains(t) {
                old(self).waiters@
            } else {
                old(self).waiters@.push(t)
            }),
    {
        let n: usize = self.waiters.len();
        let mut i: usize = 0;
        while i < n
            invariant
                i <= n == self.waiters@.len(),
                *self == *old(self),
                forall|j: int| 0 <= j < i ==> self.waiters@[j] != t,
            decreases n - i,
        {
            if self.waiters[i] == t {
                assert(self.waiters@[i as int] == t);
                return;
            }
            i = i + 1;
        }
        self.waiters.push(t);
    }

    /// Takes a task out.
    pub fn remove(&mut self, t: usize)
        ensures
            final(self).waiters@ == without(old(self).waiters@, t),
    {
        let ghost l = self.waiters@;
        let n: usize = self.waiters.len();
        let mut kept: Vec<usize> = Vec::new();
        let mut i: usize = 0;
        proof {
            assert(l.take(0) =~= Seq::empty());
            assert(kept@ =~= without(l.take(0), t));
        }
        while i < n
            invariant
                i <= n == self.waiters@.len(),
                l == self.waiters@,
                kept@ == without(l.take(i as int), t),
            decreases n - i,
        {
            proof {
                assert(l.take(i + 1).drop_last() =~= l.take(i as int));
                assert(l.take(i + 1).last() == l[i as int]);
            }
            if self.waiters[i] != t {
                kept.push(self.waiters[i]);
            }
            i = i + 1;
        }
        proof {
            assert(l.take(n as int) =~= l);
        }
        self.waiters = kept;
    }

    /// Makes every waiting task runnable.
    pub fn wake_all(&mut self, s: &mut Sched)
        requires
            old(s).wf(),
            in_range(old(self).waiters@, old(s).states@.len() as int),
        ensures
            final(s).wf(),
            final(s).states@.len() == old(s).states@.len(),
            final(self).waiters@.len() == 0,
            final(s).same_cpu(*old(s)),
            (final(s).states@, final(s).runqueue@) == woken(
                old(s).states@,
                old(s).runqueue@,
                old(self).waiters@,
            ),
    {
        let ghost l = self.waiters@;
        let ghost s0 = *s;
        let n: usize = self.waiters.len();
        let mut i: usize = 0;
        proof {
            assert(l.take(0) =~= Seq::empty());
        }
        while i < n
            invariant
                i <= n == self.waiters@.len(),
                l == self.waiters@,
                in_range(l, s0.states@.len() as int),
                s.wf(),
                s.states@.len() == s0.states@.len(),
                s.same_cpu(s0),
                (s.states@, s.runqueue@) == woken(s0.states@, s0.runqueue@, l.take(i as int)),
            decreases n - i,
        {
            proof {
                assert(l.take(i + 1).drop_last() =~= l.take(i as int));
                assert(l.take(i + 1).last() == l[i as int]);
            }
            sched::make_runnable(s, self.waiters[i]);
            i = i + 1;
        }
        proof {
            assert(l.take(n as int) =~= l);
        }
        self.waiters = Vec::new();
    }

    /// Makes the task that has waited longest runnable.
    pub fn wake_one(&mut self, s: &mut Sched)
        requires
            old(s).wf(),
            in_range(old(self).waiters@, old(s).states@.len() as int),
        ensures
            final(s).wf(),
            final(s).states@.len() == old(s).states@.len(),
            if old(self).waiters@.len() == 0 {
                *final(self) == *old(self) && *final(s) == *old(s)
            } else {
                &&& final(self).waiters@ == old(self).waiters@.skip(1)
                &&& runnable_post(*old(s), old(self).waiters@[0], *final(s))
            },
    {
        if self.waiters.len() == 0 {
            return;
        }
        let ghost l = self.waiters@;
        let t: usize = self.waiters.remove(0);
        proof {
            assert(self.waiters@ =~= l.skip(1));
        }
        sched::make_runnable(s, t);
    }

    pub fn is_empty(&self) -> (r: bool)
        ensures
            r == (self.waiters@.len() == 0),
    {
        self.waiters.len() == 0
    }

    /// Puts the current task to sleep on this queue. When it runs again it is
    /// to be removed from the queue.
    pub fn wait(&mut self, s: &mut Sched) -> (r: Switch)
        requires
            old(s).wf(),
            old(s).current is Some,
        ensures
            final(s).wf(),
            final(self).waiters@.contains(old(s).current->0),
            final(self).waiters@ == (if old(self).waiters@.contains(old(s).current->0) {
                old(self).waiters@
            } else {
                old(self).waiters@.push(old(s).current->0)
            }),
            slept(*old(s), r, *final(s)),
    {
        let c: usize = s.current.unwrap();
        let ghost w = self.waiters@;
        self.add(c);
        proof {
            if !w.contains(c) {
                assert(self.waiters@[w.len() as int] == c);
            }
        }
        sched::block_current(s)
    }

    /// Puts the current task to sleep on this queue until a deadline. `None`
    /// where it has passed already.
    pub fn wait_until(&mut self, s: &mut Sched, deadline: Option<u64>, now: u64) -> (r: Option<
        Switch,
    >)
        requires
            old(s).wf(),
            old(s).current is Some,
        ensures
            final(s).wf(),
            if deadline is Some && now >= deadline->0 {
                r is None && *final(self) == *old(self) && *final(s) == *old(s)
            } else {
                &&& r is Some
                &&& final(self).waiters@ == (if old(self).waiters@.contains(old(s).current->0) {
                    old(self).waiters@
                } else {
                    old(self).waiters@.push(old(s).current->0)
                })
                &&& slept(*old(s), r->0, *final(s))
            },
    {
        match deadline {
            Some(d) => {
                if now >= d {
                    return None;
                }
            },
            None => {},
        }
        Some(self.wait(s))
    }
}

/// The current task of `a` is blocked and another one was chosen.
pub open spec fn slept(a: Sched, r: Switch, b: Sched) -> bool {
    exists|mid: Sched|
        {
            &&& mid.states@ == a.states@.update(a.current->0 as int, TaskState::Blocked)
            &&& mid.runqueue == a.runqueue
            &&& mid.same_cpu(a)
            &&& #[trigger] schedule_post(mid, r, b)
        }
}

/// Removing undoes adding: the task is gone, and the others keep their order.
pub proof fn removed_is_gone(l: Seq<usize>, t: usize)
    ensures
        !without(l, t).contains(t),
        !l.contains(t) ==> without(l, t) == l,
        !l.contains(t) ==> without(l.push(t), t) == l,
    decreases l.len(),
{
    if l.len() > 0 {
        removed_is_gone(l.drop_last(), t);
        let r = without(l.drop_last(), t);
        if !l.contains(t) {
            assert(l[l.len() - 1] != t);
            assert(!l.drop_last().contains(t)) by {
                if l.drop_last().contains(t) {
                    let j = choose|j: int| 0 <= j < l.drop_last().len() && l.drop_last()[j] == t;
                    assert(l[j] == t);
                }
            }
            assert(l.drop_last().push(l.last()) =~= l);
        }
        if without(l, t).contains(t) {
            let w = without(l, t);
            let j = choose|j: int| 0 <= j < w.len() && w[j] == t;
            assert(r.contains(t)) by {
                assert(r[j] == t);
            }
        }
    }
    assert(l.push(t).drop_last() =~= l);
}

/// The list with `t` in it, at the end where it was not.
pub open spec fn with(l: Seq<usize>, t: usize) -> Seq<usize> {
    if l.contains(t) {
        l
    } else {
        l.push(t)
    }
}

/// Whether queue `i` is among the first `n` of those that are named.
pub open spec fn named(wqs: Seq<usize>, n: int, i: int) -> bool {
    exists|k: int| 0 <= k < n && #[trigger] wqs[k] == i
}

/// The task was put on the queues that are named, and on no other.
pub open spec fn joined(a: Seq<WaitQueue>, wqs: Seq<usize>, n: int, t: usize, b: Seq<WaitQueue>) -> bool {
    &&& b.len() == a.len()
    &&& forall|i: int|
        0 <= i < a.len() ==> (#[trigger] b[i]).waiters@ == (if named(wqs, n, i) {
            with(a[i].waiters@, t)
        } else {
            a[i].waiters@
        })
}

/// The task was taken off the queues that are named, and off no other.
pub open spec fn left(a: Seq<WaitQueue>, wqs: Seq<usize>, n: int, t: usize, b: Seq<WaitQueue>) -> bool {
    &&& b.len() == a.len()
    &&& forall|i: int|
        0 <= i < a.len() ==> (#[trigger] b[i]).waiters@ == (if named(wqs, n, i) {
            without(a[i].waiters@, t)
        } else {
            a[i].waiters@
        })
}

/// Puts a task on each of the queues that `wqs` names.
pub fn join_all(queues: &mut Vec<WaitQueue>, wqs: &Vec<usize>, t: usize)
    requires
        in_range(wqs@, old(queues)@.len() as int),
    ensures
        joined(old(queues)@, wqs@, wqs@.len() as int, t, final(queues)@),
{
    let ghost a = queues@;
    let n: usize = wqs.len();
    let mut k: usize = 0;
    while k < n
        invariant
            k <= n == wqs@.len(),
            in_range(wqs@, a.len() as int),
            joined(a, wqs@, k as int, t, queues@),
        decreases n - k,
    {
        let ghost b = queues@;
        let q: usize = wqs[k];
        queues[q].add(t);
        proof {
            assert forall|i: int| 0 <= i < a.len() implies (#[trigger] queues@[i]).waiters@ == (
            if named(wqs@, k + 1, i) {
                with(a[i].waiters@, t)
            } else {
                a[i].waiters@
            }) by {
                assert(b[i].waiters@ == (if named(wqs@, k as int, i) {
                    with(a[i].waiters@, t)
                } else {
                    a[i].waiters@
                }));
                if i == q {
                    assert(wqs@[k as int] == i);
                    let l = a[i].waiters@;
                    assert(l.push(t)[l.len() as int] == t);
                } else {
                    assert(queues@[i] == b[i]);
                    assert(named(wqs@, k + 1, i) == named(wqs@, k as int, i));
                }
            }
        }
        k = k + 1;
    }
}

/// Takes a task off each of the queues that `wqs` names. It is on none of them
/// then.
pub fn leave_all(queues: &mut Vec<WaitQueue>, wqs: &Vec<usize>, t: usize)
    requires
        in_range(wqs@, old(queues)@.len() as int),
    ensures
        left(old(queues)@, wqs@, wqs@.len() as int, t, final(queues)@),
        forall|k: int|
            0 <= k < wqs@.len() ==> !final(queues)@[#[trigger] wqs@[k] as int].waiters@.contains(t),
{
    let ghost a = queues@;
    let n: usize = wqs.len();
    let mut k: usize = 0;
    while k < n
        invariant
            k <= n == wqs@.len(),
            in_range(wqs@, a.len() as int),
            left(a, wqs@, k as int, t, queues@),
        decreases n - k,
    {
        let ghost b = queues@;
        let q: usize = wqs[k];
        queues[q].remove(t);
        proof {
            assert forall|i: int| 0 <= i < a.len() implies (#[trigger] queues@[i]).waiters@ == (
            if named(wqs@, k + 1, i) {
                without(a[i].waiters@, t)
            } else {
                a[i].waiters@
            }) by {
                assert(b[i].waiters@ == (if named(wqs@, k as int, i) {
                    without(a[i].waiters@, t)
                } else {
                    a[i].waiters@
                }));
                if i == q {
                    assert(wqs@[k as int] == i);
                    removed_is_gone(a[i].waiters@, t);
                    removed_is_gone(without(a[i].waiters@, t), t);
                } else {
                    assert(queues@[i] == b[i]);
                    assert(named(wqs@, k + 1, i) == named(wqs@, k as int, i));
                }
            }
        }
        k = k + 1;
    }
    proof {
        assert forall|k: int| 0 <= k < wqs@.len() implies !queues@[
        #[trigger] wqs@[k] as int].waiters@.contains(t) by {
            let i = wqs@[k] as int;
            assert(named(wqs@, n as int, i));
            removed_is_gone(a[i].waiters@, t);
        }
    }
}

/// Puts the current task to sleep on all queues of a blocking operation. Once
/// it runs again it is to leave them.
pub fn sleep_on(queues: &mut Vec<WaitQueue>, wqs: &Vec<usize>, s: &mut Sched) -> (r: Switch)
    requires
        old(s).wf(),
        old(s).current is Some,
        in_range(wqs@, old(queues)@.len() as int),
    ensures
        final(s).wf(),
        joined(old(queues)@, wqs@, wqs@.len() as int, old(s).current->0, final(queues)@),
        slept(*old(s), r, *final(s)),
{
    let c: usize = s.current.unwrap();
    join_all(queues, wqs, c);
    sched::block_current(s)
}

/// A task that slept on queues it was not on leaves them as they were, where
/// nothing else happened to them.
pub proof fn sleeping_leaves_no_trace(
    a: Seq<WaitQueue>,
    wqs: Seq<usize>,
    t: usize,
    b: Seq<WaitQueue>,
    c: Seq<WaitQueue>,
)
    requires
        joined(a, wqs, wqs.len() as int, t, b),
        left(b, wqs, wqs.len() as int, t, c),
        forall|i: int| 0 <= i < a.len() ==> !(#[trigger] a[i]).waiters@.contains(t),
    ensures
        c.len() == a.len(),
        forall|i: int| 0 <= i < a.len() ==> (#[trigger] c[i]).waiters@ == a[i].waiters@,
{
    assert forall|i: int| 0 <= i < a.len() implies (#[trigger] c[i]).waiters@ == a[i].waiters@ by {
        removed_is_gone(a[i].waiters@, t);
        assert(b[i].waiters@ == (if named(wqs, wqs.len() as int, i) {
            with(a[i].waiters@, t)
        } else {
            a[i].waiters@
        }));
    }
}

// ---- Sleepers -----------------------------------------------------------------
/// The sleepers without a task.
pub open spec fn awake(l: Seq<(usize, u64)>, t: usize) -> Seq<(usize, u64)>
    decreases l.len(),
{
    if l.len() == 0 {
        l
    } else if l.last().0 == t {
        awake(l.drop_last(), t)
    } else {
        awake(l.drop_last(), t).push(l.last())
    }
}

/// Notes when a task is to be woken.
pub fn add_sleeper(sleepers: &mut Vec<(usize, u64)>, t: usize, deadline: u64)
    ensures
        final(sleepers)@ == old(sleepers)@.push((t, deadline)),
{
    sleepers.push((t, deadline));
}

/// Forgets when a task was to be woken.
pub fn remove_sleeper(sleepers: &mut Vec<(usize, u64)>, t: usize)
    ensures
        final(sleepers)@ == awake(old(sleepers)@, t),
{
    let ghost l = sleepers@;
    let n: usize = sleepers.len();
    let mut kept: Vec<(usize, u64)> = Vec::new();
    let mut i: usize = 0;
    proof {
        assert(l.take(0) =~= Seq::empty());
        assert(kept@ =~= awake(l.take(0), t));
    }
    while i < n
        invariant
            i <= n == sleepers@.len(),
            l == sleepers@,
            kept@ == awake(l.take(i as int), t),
        decreases n - i,
    {
        proof {
            assert(l.take(i + 1).drop_last() =~= l.take(i as int));
            assert(l.take(i + 1).last() == l[i as int]);
        }
        if sleepers[i].0 != t {
            kept.push((sleepers[i].0, sleepers[i].1));
        }
        i = i + 1;
    }
    proof {
        assert(l.take(n as int) =~= l);
    }
    *sleepers = kept;
}

/// A task that was taken from the sleepers is no longer among them; one that
/// was not among them before it was added leaves them as they were.
pub proof fn awake_is_no_sleeper(l: Seq<(usize, u64)>, t: usize, d: u64)
    ensures
        forall|i: int| 0 <= i < awake(l, t).len() ==> (#[trigger] awake(l, t)[i]).0 != t,
        (forall|i: int| 0 <= i < l.len() ==> (#[trigger] l[i]).0 != t) ==> awake(l, t) == l && awake(
            l.push((t, d)),
            t,
        ) == l,
    decreases l.len(),
{
    assert(l.push((t, d)).drop_last() =~= l);
    if l.len() > 0 {
        awake_is_no_sleeper(l.drop_last(), t, d);
        assert(l.drop_last().push(l.last()) =~= l);
        let r = awake(l.drop_last(), t);
        assert forall|i: int| 0 <= i < awake(l, t).len() implies (#[trigger] awake(l, t)[i]).0 != t by {
            if i < r.len() {
                assert(awake(l, t)[i] == r[i]);
            }
        }
        if forall|i: int| 0 <= i < l.len() ==> (#[trigger] l[i]).0 != t {
            assert(l[l.len() - 1].0 != t);
            assert forall|i: int| 0 <= i < l.drop_last().len() implies (
            #[trigger] l.drop_last()[i]).0 != t by {
                assert(l[i].0 != t);
            }
        }
    }
}

/// Waking wakes every task of the list that is blocked, and no task that is not in
/// it: a blocked one becomes runnable and is queued.
pub proof fn woken_can_run(states: Seq<TaskState>, queue: Seq<usize>, l: Seq<usize>, t: usize)
    requires
        in_range(l, states.len() as int),
        t < states.len(),
    ensures
        ({
            let (s, q) = woken(states, queue, l);
            &&& s.len() == states.len()
            &&& l.contains(t) && !(states[t as int] is Zombie) ==> s[t as int] is Runnable
                && q.contains(t)
            &&& !l.contains(t) || states[t as int] is Zombie ==> s[t as int] == states[t as int]
            &&& queue.contains(t) ==> q.contains(t)
            &&& queue.len() <= q.len() && q.take(queue.len() as int) == queue
        }),
    decreases l.len(),
{
    if l.len() == 0 {
        assert(queue.take(queue.len() as int) =~= queue);
    } else {
        let d = l.drop_last();
        assert(in_range(d, states.len() as int)) by {
            assert forall|i: int| 0 <= i < d.len() implies #[trigger] d[i] < states.len() by {
                assert(d[i] == l[i]);
            }
        }
        woken_can_run(states, queue, d, t);
        let (s1, q1) = woken(states, queue, d);
        let x = l.last();
        assert(l[l.len() - 1] == x);
        assert(x < states.len());
        woken_can_run(states, queue, d, x);
        let (s2, q2) = made_runnable(s1, q1, x);
        if l.contains(t) && t != x {
            let i = choose|i: int| 0 <= i < l.len() && l[i] == t;
            assert(d[i] == t);
        }
        if d.contains(t) {
            let i = choose|i: int| 0 <= i < d.len() && d[i] == t;
            assert(l[i] == t);
        }
        if !(s1[x as int] is Zombie) && !(s1[x as int] is Runnable && q1.contains(x)) {
            assert(q2 == q1.push(x));
            assert(q2[q2.len() - 1] == x);
            if q1.contains(t) {
                let i = choose|i: int| 0 <= i < q1.len() && q1[i] == t;
                assert(q2[i] == t);
            }
        }
        assert(q2.take(queue.len() as int) =~= q1.take(queue.len() as int));
        if t == x {
            assert(l.contains(t));
        }
    }
}

} // verus!
