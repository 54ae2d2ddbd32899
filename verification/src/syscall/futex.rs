//! Futexes: wait queues keyed by the physical address of the futex word.

use vstd::prelude::*;
use crate::abi::{
    FUTEX_CLOCK_REALTIME, FUTEX_CMD_MASK, FUTEX_CMP_REQUEUE, FUTEX_REQUEUE, FUTEX_WAIT,
    FUTEX_WAIT_BITSET, FUTEX_WAKE, FUTEX_WAKE_BITSET,
};
use crate::errno::{SysResult, EAGAIN, EFAULT, EINTR, ENOSYS, ETIMEDOUT};
use crate::syscall::timespec::{capped, read_ts, ts_at};
use crate::task::sched::{Sched, TaskState};
use crate::task::wait::{
    awake, in_range, remove_sleeper, removed_is_gone, without, woken, woken_can_run, WaitQueue,
};
use crate::uaccess::{mapped, num_at, UserMem};

verus! {

pub struct FutexQueue {
    pub key: usize,
    pub queue: WaitQueue,
}

/// All futexes that anyone has waited on.
pub struct Futexes {
    pub queues: Vec<FutexQueue>,
}

impl Futexes {
    /// Keys are distinct, and all waiters are tasks.
    pub open spec fn wf(&self, tasks: int) -> bool {
        &&& forall|i: int, j: int|
            0 <= i < j < self.queues@.len() ==> (#[trigger] self.queues@[i]).key
                != (#[trigger] self.queues@[j]).key
        &&& forall|i: int|
            0 <= i < self.queues@.len() ==> in_range(
                (#[trigger] self.queues@[i]).queue.waiters@,
                tasks,
            )
    }

    /// The tasks that wait on a key.
    pub open spec fn waiters(&self, key: usize) -> Seq<usize> {
        if exists|i: int| 0 <= i < self.queues@.len() && (#[trigger] self.queues@[i]).key == key {
            self.queues@[choose|i: int|
                0 <= i < self.queues@.len() && (#[trigger] self.queues@[i]).key
                    == key].queue.waiters@
        } else {
            Seq::empty()
        }
    }
}

proof fn lemma_waiters(f: Futexes, tasks: int, i: int)
    requires
        f.wf(tasks),
        0 <= i < f.queues@.len(),
    ensures
        f.waiters(f.queues@[i].key) == f.queues@[i].queue.waiters@,
{
    let key = f.queues@[i].key;
    assert(f.queues@[i].key == key);
    let k = choose|k: int| 0 <= k < f.queues@.len() && (#[trigger] f.queues@[k]).key == key;
    if k < i {
        assert(f.queues@[k].key != f.queues@[i].key);
    } else if i < k {
        assert(f.queues@[i].key != f.queues@[k].key);
    }
}

/// The queue of a key, which is created if there is none.
#[verifier::loop_isolation(false)]
fn queue(f: &mut Futexes, key: usize, Ghost(tasks): Ghost<int>) -> (i: usize)
    requires
        old(f).wf(tasks),
    ensures
        final(f).wf(tasks),
        i < final(f).queues@.len(),
        final(f).queues@[i as int].key == key,
        forall|k: usize| #[trigger] final(f).waiters(k) == old(f).waiters(k),
{
    let ghost f0 = *f;
    let n: usize = f.queues.len();
    let mut i: usize = 0;
    while i < n
        invariant
            i <= n == f.queues@.len(),
            *f == f0,
            forall|j: int| 0 <= j < i ==> (#[trigger] f.queues@[j]).key != key,
        decreases n - i,
    {
        if f.queues[i].key == key {
            return i;
        }
        i = i + 1;
    }
    f.queues.push(FutexQueue { key, queue: WaitQueue::new() });
    proof {
        assert forall|k: usize| #[trigger] f.waiters(k) == f0.waiters(k) by {
            if k == key {
                lemma_waiters(*f, tasks, n as int);
                assert(f.waiters(k) =~= Seq::empty());
                assert(f0.waiters(k) =~= Seq::empty());
            } else if exists|j: int| 0 <= j < n && (#[trigger] f0.queues@[j]).key == k {
                let j = choose|j: int| 0 <= j < n && (#[trigger] f0.queues@[j]).key == k;
                assert(f.queues@[j] == f0.queues@[j]);
                lemma_waiters(*f, tasks, j);
                lemma_waiters(f0, tasks, j);
            } else {
                assert(!exists|j: int| 0 <= j < f.queues@.len() && (#[trigger] f.queues@[j]).key == k)
                    by {
                    if exists|j: int| 0 <= j < f.queues@.len() && (#[trigger] f.queues@[j]).key == k {
                        let j = choose|j: int|
                            0 <= j < f.queues@.len() && (#[trigger] f.queues@[j]).key == k;
                        if j < n {
                            assert(f0.queues@[j].key == k);
                        }
                    }
                }
            }
        }
    }
    n
}

/// Only the waiters of `key` may differ.
pub open spec fn others_same(a: Futexes, b: Futexes, key: usize) -> bool {
    forall|k: usize| k != key ==> #[trigger] b.waiters(k) == a.waiters(k)
}

proof fn lemma_replaced(a: Futexes, b: Futexes, tasks: int, i: int)
    requires
        a.wf(tasks),
        b.wf(tasks),
        0 <= i < a.queues@.len(),
        b.queues@.len() == a.queues@.len(),
        b.queues@[i].key == a.queues@[i].key,
        forall|j: int| 0 <= j < a.queues@.len() && j != i ==> #[trigger] b.queues@[j] == a.queues@[j],
    ensures
        others_same(a, b, a.queues@[i].key),
        b.waiters(a.queues@[i].key) == b.queues@[i].queue.waiters@,
{
    lemma_waiters(b, tasks, i);
    assert forall|k: usize| k != a.queues@[i].key implies #[trigger] b.waiters(k) == a.waiters(k) by {
        if exists|j: int| 0 <= j < a.queues@.len() && (#[trigger] a.queues@[j]).key == k {
            let j = choose|j: int| 0 <= j < a.queues@.len() && (#[trigger] a.queues@[j]).key == k;
            assert(b.queues@[j] == a.queues@[j]);
            lemma_waiters(a, tasks, j);
            lemma_waiters(b, tasks, j);
        } else if exists|j: int| 0 <= j < b.queues@.len() && (#[trigger] b.queues@[j]).key == k {
            let j = choose|j: int| 0 <= j < b.queues@.len() && (#[trigger] b.queues@[j]).key == k;
            assert(a.queues@[j].key == k);
        }
    }
}

pub open spec fn lesser(a: int, b: int) -> int {
    if a < b {
        a
    } else {
        b
    }
}

pub open spec fn wake_post(
    f0: Futexes,
    s0: Sched,
    pa: Option<usize>,
    n: int,
    r: int,
    f1: Futexes,
    s1: Sched,
) -> bool {
    match pa {
        None => r == 0 && f1 == f0 && s1 == s0,
        Some(key) => {
            let w = f0.waiters(key);
            &&& r == lesser(n, w.len() as int)
            &&& f1.waiters(key) == w.skip(r)
            &&& others_same(f0, f1, key)
            &&& s1.same_cpu(s0)
            &&& (s1.states@, s1.runqueue@) == woken(s0.states@, s0.runqueue@, w.take(r))
        },
    }
}

/// Wakes up to `n` tasks that wait on the word at the physical address `pa`;
/// `None` is a word that cannot be reached. Gives the number of tasks woken.
#[verifier::loop_isolation(false)]
pub fn wake(f: &mut Futexes, s: &mut Sched, pa: Option<usize>, n: usize) -> (r: usize)
    requires
        old(s).wf(),
        old(f).wf(old(s).states@.len() as int),
    ensures
        final(s).wf(),
        final(s).states@.len() == old(s).states@.len(),
        final(f).wf(final(s).states@.len() as int),
        wake_post(*old(f), *old(s), pa, n as int, r as int, *final(f), *final(s)),
{
    let key: usize = match pa {
        None => {
            return 0;
        },
        Some(k) => k,
    };
    let ghost f0 = *f;
    let ghost s0 = *s;
    let ghost tasks = s.states@.len() as int;
    let ghost w = f.waiters(key);
    let q: usize = queue(f, key, Ghost(tasks));
    let ghost f1 = *f;
    proof {
        lemma_waiters(f1, tasks, q as int);
        assert(f1.waiters(key) == w);
        assert(w.skip(0) =~= w);
        assert(w.take(0) =~= Seq::empty());
    }
    let mut woke: usize = 0;
    while woke < n
        invariant
            woke <= n,
            woke <= w.len(),
            s.wf(),
            s.states@.len() == tasks,
            s.same_cpu(s0),
            f.queues@.len() == f1.queues@.len(),
            q < f.queues@.len(),
            f.queues@[q as int].key == key,
            f.queues@[q as int].queue.waiters@ == w.skip(woke as int),
            forall|j: int|
                0 <= j < f1.queues@.len() && j != q ==> #[trigger] f.queues@[j] == f1.queues@[j],
            (s.states@, s.runqueue@) == woken(s0.states@, s0.runqueue@, w.take(woke as int)),
        decreases n - woke,
    {
        if f.queues[q].queue.is_empty() {
            assert(woke == w.len());
            proof {
                lemma_after_wake(f0, f1, *f, tasks, q as int, w, woke as int);
            }
            return woke;
        }
        proof {
            assert(in_range(w, tasks));
            assert forall|i: int| 0 <= i < w.skip(woke as int).len() implies #[trigger] w.skip(
                woke as int,
            )[i] < tasks by {
                assert(w[woke + i] < tasks);
            }
            assert(w.take(woke + 1).drop_last() =~= w.take(woke as int));
            assert(w.take(woke + 1).last() == w.skip(woke as int)[0]);
            assert(w.skip(woke as int).skip(1) =~= w.skip(woke + 1));
        }
        f.queues[q].queue.wake_one(s);
        woke = woke + 1;
    }
    proof {
        lemma_after_wake(f0, f1, *f, tasks, q as int, w, woke as int);
    }
    woke
}

proof fn lemma_after_wake(
    f0: Futexes,
    f1: Futexes,
    f2: Futexes,
    tasks: int,
    q: int,
    w: Seq<usize>,
    k: int,
)
    requires
        f1.wf(tasks),
        in_range(w, tasks),
        0 <= q < f1.queues@.len(),
        0 <= k <= w.len(),
        f2.queues@.len() == f1.queues@.len(),
        f2.queues@[q].key == f1.queues@[q].key,
        f2.queues@[q].queue.waiters@ == w.skip(k),
        forall|j: int| 0 <= j < f1.queues@.len() && j != q ==> #[trigger] f2.queues@[j] == f1.queues@[j],
        forall|x: usize| #[trigger] f1.waiters(x) == f0.waiters(x),
    ensures
        f2.wf(tasks),
        others_same(f0, f2, f1.queues@[q].key),
        f2.waiters(f1.queues@[q].key) == w.skip(k),
{
    assert forall|i: int| 0 <= i < f2.queues@.len() implies in_range(
        (#[trigger] f2.queues@[i]).queue.waiters@,
        tasks,
    ) by {
        if i == q {
            let t = w.skip(k);
            assert forall|x: int| 0 <= x < t.len() implies #[trigger] t[x] < tasks by {
                assert(w[k + x] < tasks);
            }
        } else {
            assert(f2.queues@[i] == f1.queues@[i]);
        }
    }
    assert forall|i: int, j: int| 0 <= i < j < f2.queues@.len() implies (
    #[trigger] f2.queues@[i]).key != (#[trigger] f2.queues@[j]).key by {
        assert(f1.queues@[i].key != f1.queues@[j].key);
        assert(i != q ==> f2.queues@[i] == f1.queues@[i]);
        assert(j != q ==> f2.queues@[j] == f1.queues@[j]);
    }
    lemma_replaced(f1, f2, tasks, q);
    assert forall|x: usize| x != f1.queues@[q].key implies #[trigger] f2.waiters(x) == f0.waiters(
        x,
    ) by {
        assert(f1.waiters(x) == f0.waiters(x));
    }
}

/// The time that the futex calls go by.
#[derive(Clone, Copy, PartialEq, Eq, Structural, Debug)]
pub struct Clocks {
    pub monotonic_ns: u64,
    pub realtime_ns: u64,
}

/// What a futex call comes to.
#[derive(Clone, Copy, PartialEq, Eq, Debug)]
pub enum FutexStep {
    Done(SysResult),
    /// The task waits on the futex; it is to sleep until it is woken or the
    /// deadline passes, and then to be taken off the futex.
    Sleep { deadline: Option<u64> },
}

/// The moment at which waiting ends: `timeout` is relative, or for a bitset
/// wait a moment of the monotonic or the real time clock.
pub open spec fn deadline_of(cmd: i32, op: i32, ns: int, now: Clocks) -> int {
    if cmd != FUTEX_WAIT_BITSET {
        capped(now.monotonic_ns + ns)
    } else if op & FUTEX_CLOCK_REALTIME != 0 {
        capped(
            now.monotonic_ns + (if ns > now.realtime_ns {
                ns - now.realtime_ns
            } else {
                0
            }),
        )
    } else {
        ns
    }
}

/// How a wait starts: the error it ends with at once, or the deadline.
pub open spec fn wait_start(
    m: Map<int, u8>,
    uaddr: usize,
    op: i32,
    val: u32,
    timeout: usize,
    pa: Option<usize>,
    now: Clocks,
    signal: bool,
) -> Result<Option<u64>, i32> {
    let cmd = op & FUTEX_CMD_MASK;
    let deadline = if timeout != 0 {
        Some(deadline_of(cmd, op, ts_at(m, timeout as int), now) as u64)
    } else {
        None
    };
    if pa is None || (timeout != 0 && !mapped(m, timeout as int, 16)) || !mapped(
        m,
        uaddr as int,
        4,
    ) {
        Err(EFAULT)
    } else if num_at(m, uaddr as int, 4) != val {
        Err(EAGAIN)
    } else if signal {
        Err(EINTR)
    } else if deadline is Some && now.monotonic_ns >= deadline->0 {
        Err(ETIMEDOUT)
    } else {
        Ok(deadline)
    }
}

fn start_wait(
    mem: &UserMem,
    uaddr: usize,
    op: i32,
    val: u32,
    timeout: usize,
    pa: Option<usize>,
    now: Clocks,
    signal: bool,
) -> (r: Result<Option<u64>, i32>)
    ensures
        r == wait_start(mem@, uaddr, op, val, timeout, pa, now, signal),
{
    let cmd: i32 = op & FUTEX_CMD_MASK;
    if pa.is_none() {
        return Err(EFAULT);
    }
    let deadline: Option<u64> = if timeout != 0 {
        match read_ts(mem, timeout) {
            Ok(ns) => {
                if cmd == FUTEX_WAIT_BITSET {
                    if op & FUTEX_CLOCK_REALTIME != 0 {
                        Some(now.monotonic_ns.saturating_add(ns.saturating_sub(now.realtime_ns)))
                    } else {
                        Some(ns)
                    }
                } else {
                    Some(now.monotonic_ns.saturating_add(ns))
                }
            },
            Err(e) => {
                return Err(e);
            },
        }
    } else {
        None
    };
    let cur: u64 = match mem.read_num(uaddr, 4) {
        Ok(v) => v,
        Err(e) => {
            return Err(e);
        },
    };
    if cur != val as u64 {
        return Err(EAGAIN);
    }
    if signal {
        return Err(EINTR);
    }
    match deadline {
        Some(d) => {
            if now.monotonic_ns >= d {
                return Err(ETIMEDOUT);
            }
        },
        None => {},
    }
    Ok(deadline)
}

pub open spec fn is_wait(cmd: i32) -> bool {
    cmd == FUTEX_WAIT || cmd == FUTEX_WAIT_BITSET
}

pub open spec fn is_wake(cmd: i32) -> bool {
    cmd == FUTEX_WAKE || cmd == FUTEX_WAKE_BITSET
}

pub open spec fn is_requeue(cmd: i32) -> bool {
    cmd == FUTEX_REQUEUE || cmd == FUTEX_CMP_REQUEUE
}

/// What a futex call does. `pa` is the physical address of the word, `None`
/// where it cannot be reached.
pub open spec fn futex_post(
    f0: Futexes,
    s0: Sched,
    m: Map<int, u8>,
    uaddr: usize,
    op: i32,
    val: u32,
    timeout: usize,
    val3: u32,
    pa: Option<usize>,
    now: Clocks,
    signal: bool,
    r: FutexStep,
    f1: Futexes,
    s1: Sched,
) -> bool {
    let cmd = op & FUTEX_CMD_MASK;
    let idle = f1 == f0 && s1 == s0;
    if is_wait(cmd) {
        match wait_start(m, uaddr, op, val, timeout, pa, now, signal) {
            Err(e) => r == FutexStep::Done(Err(e)) && idle,
            Ok(deadline) => {
                let w = f0.waiters(pa->0);
                let me = s0.current->0;
                &&& r == (FutexStep::Sleep { deadline })
                &&& s1 == s0
                &&& others_same(f0, f1, pa->0)
                &&& f1.waiters(pa->0) == (if w.contains(me) {
                    w
                } else {
                    w.push(me)
                })
            },
        }
    } else if is_wake(cmd) {
        &&& r matches FutexStep::Done(Ok(n)) && wake_post(
            f0,
            s0,
            pa,
            val as int,
            n as int,
            f1,
            s1,
        )
    } else if is_requeue(cmd) {
        if cmd == FUTEX_CMP_REQUEUE && !mapped(m, uaddr as int, 4) {
            r == FutexStep::Done(Err(EFAULT)) && idle
        } else if cmd == FUTEX_CMP_REQUEUE && num_at(m, uaddr as int, 4) != val3 {
            r == FutexStep::Done(Err(EAGAIN)) && idle
        } else {
            match pa {
                None => r == FutexStep::Done(Err(EFAULT)) && idle,
                Some(key) => {
                    let w = f0.waiters(key);
                    &&& r matches FutexStep::Done(Ok(n)) && n == lesser(val as int, w.len() as int)
                    &&& f1.waiters(key).len() == 0
                    &&& others_same(f0, f1, key)
                    &&& s1.same_cpu(s0)
                    &&& (s1.states@, s1.runqueue@) == woken(s0.states@, s0.runqueue@, w)
                },
            }
        }
    } else {
        r == FutexStep::Done(Err(ENOSYS)) && idle
    }
}

proof fn lemma_woken_split(states: Seq<TaskState>, queue: Seq<usize>, w: Seq<usize>, k: int)
    requires
        0 <= k <= w.len(),
    ensures
        ({
            let (st, q) = woken(states, queue, w.take(k));
            woken(st, q, w.skip(k)) == woken(states, queue, w)
        }),
    decreases w.len() - k,
{
    let (st, q) = woken(states, queue, w.take(k));
    if k == w.len() {
        assert(w.take(k) =~= w);
        assert(w.skip(k) =~= Seq::empty());
    } else {
        lemma_woken_split(states, queue, w.drop_last(), k);
        assert(w.drop_last().take(k) =~= w.take(k));
        assert(w.skip(k).drop_last() =~= w.drop_last().skip(k));
        assert(w.skip(k).last() == w.last());
    }
}

/// The futex call. A requeue wakes everyone: they look at their words again.
pub fn sys_futex(
    f: &mut Futexes,
    s: &mut Sched,
    mem: &UserMem,
    uaddr: usize,
    op: i32,
    val: u32,
    timeout: usize,
    uaddr2: usize,
    val3: u32,
    pa: Option<usize>,
    now: Clocks,
    signal: bool,
) -> (r: FutexStep)
    requires
        old(s).wf(),
        old(s).current is Some,
        old(f).wf(old(s).states@.len() as int),
    ensures
        final(s).wf(),
        final(f).wf(final(s).states@.len() as int),
        futex_post(
            *old(f),
            *old(s),
            mem@,
            uaddr,
            op,
            val,
            timeout,
            val3,
            pa,
            now,
            signal,
            r,
            *final(f),
            *final(s),
        ),
{
    let cmd: i32 = op & FUTEX_CMD_MASK;
    let ghost tasks = s.states@.len() as int;
    let ghost f0 = *f;
    let ghost s0 = *s;
    if cmd == FUTEX_WAIT || cmd == FUTEX_WAIT_BITSET {
        match start_wait(mem, uaddr, op, val, timeout, pa, now, signal) {
            Err(e) => FutexStep::Done(Err(e)),
            Ok(deadline) => {
                let key: usize = pa.unwrap();
                let me: usize = s.current.unwrap();
                let q: usize = queue(f, key, Ghost(tasks));
                let ghost f1 = *f;
                proof {
                    lemma_waiters(f1, tasks, q as int);
                }
                f.queues[q].queue.add(me);
                proof {
                    let w = f1.waiters(key);
                    assert forall|i: int| 0 <= i < f.queues@.len() implies in_range(
                        (#[trigger] f.queues@[i]).queue.waiters@,
                        tasks,
                    ) by {
                        if i != q {
                            assert(f.queues@[i] == f1.queues@[i]);
                        } else {
                            assert(in_range(f1.queues@[i].queue.waiters@, tasks));
                        }
                    }
                    assert forall|i: int, j: int| 0 <= i < j < f.queues@.len() implies (
                    #[trigger] f.queues@[i]).key != (#[trigger] f.queues@[j]).key by {
                        assert(f1.queues@[i].key != f1.queues@[j].key);
                    }
                    lemma_replaced(f1, *f, tasks, q as int);
                    assert(f1.waiters(key) == f0.waiters(key));
                    assert forall|x: usize| x != key implies #[trigger] f.waiters(x) == f0.waiters(
                        x,
                    ) by {
                        assert(f1.waiters(x) == f0.waiters(x));
                    }
                }
                FutexStep::Sleep { deadline }
            },
        }
    } else if cmd == FUTEX_WAKE || cmd == FUTEX_WAKE_BITSET {
        FutexStep::Done(Ok(wake(f, s, pa, val as usize)))
    } else if cmd == FUTEX_REQUEUE || cmd == FUTEX_CMP_REQUEUE {
        if cmd == FUTEX_CMP_REQUEUE {
            match mem.read_num(uaddr, 4) {
                Ok(v) => {
                    if v != val3 as u64 {
                        return FutexStep::Done(Err(EAGAIN));
                    }
                },
                Err(e) => {
                    return FutexStep::Done(Err(e));
                },
            }
        }
        let woke: usize = wake(f, s, pa, val as usize);
        match pa {
            None => FutexStep::Done(Err(EFAULT)),
            Some(key) => {
                let ghost fa = *f;
                let ghost sa = *s;
                let ghost w = f0.waiters(key);
                let q: usize = queue(f, key, Ghost(tasks));
                let ghost f1 = *f;
                proof {
                    lemma_waiters(f1, tasks, q as int);
                }
                f.queues[q].queue.wake_all(s);
                proof {
                    assert forall|i: int| 0 <= i < f.queues@.len() implies in_range(
                        (#[trigger] f.queues@[i]).queue.waiters@,
                        tasks,
                    ) by {
                        if i != q {
                            assert(f.queues@[i] == f1.queues@[i]);
                        }
                    }
                    assert forall|i: int, j: int| 0 <= i < j < f.queues@.len() implies (
                    #[trigger] f.queues@[i]).key != (#[trigger] f.queues@[j]).key by {
                        assert(f1.queues@[i].key != f1.queues@[j].key);
                    }
                    lemma_replaced(f1, *f, tasks, q as int);
                    assert(f1.waiters(key) == fa.waiters(key));
                    assert forall|x: usize| x != key implies #[trigger] f.waiters(x) == f0.waiters(
                        x,
                    ) by {
                        assert(f1.waiters(x) == fa.waiters(x));
                        assert(fa.waiters(x) == f0.waiters(x));
                    }
                    lemma_woken_split(s0.states@, s0.runqueue@, w, woke as int);
                }
                FutexStep::Done(Ok(woke))
            },
        }
    } else {
        FutexStep::Done(Err(ENOSYS))
    }
}

/// What a futex wait returns once the task runs again.
pub open spec fn woken_answer(deadline: Option<u64>, now_ns: u64, signal: bool) -> SysResult {
    if signal {
        Err(EINTR)
    } else if deadline is Some && now_ns >= deadline->0 {
        Err(ETIMEDOUT)
    } else {
        Ok(0)
    }
}

/// Ends a futex wait once the task runs again: it leaves the queue, and the
/// sleepers where it had a deadline.
pub fn futex_woken(
    f: &mut Futexes,
    sleepers: &mut Vec<(usize, u64)>,
    s: &Sched,
    key: usize,
    deadline: Option<u64>,
    now_ns: u64,
    signal: bool,
) -> (r: SysResult)
    requires
        s.wf(),
        s.current is Some,
        old(f).wf(s.states@.len() as int),
    ensures
        final(f).wf(s.states@.len() as int),
        r == woken_answer(deadline, now_ns, signal),
        final(f).waiters(key) == without(old(f).waiters(key), s.current->0),
        !final(f).waiters(key).contains(s.current->0),
        others_same(*old(f), *final(f), key),
        final(sleepers)@ == (if deadline is Some {
            awake(old(sleepers)@, s.current->0)
        } else {
            old(sleepers)@
        }),
{
    let ghost tasks = s.states@.len() as int;
    let ghost f0 = *f;
    let me: usize = s.current.unwrap();
    let q: usize = queue(f, key, Ghost(tasks));
    let ghost f1 = *f;
    proof {
        lemma_waiters(f1, tasks, q as int);
    }
    f.queues[q].queue.remove(me);
    proof {
        let w = f1.waiters(key);
        removed_is_gone(w, me);
        lemma_without_range(w, me, tasks);
        assert forall|i: int| 0 <= i < f.queues@.len() implies in_range(
            (#[trigger] f.queues@[i]).queue.waiters@,
            tasks,
        ) by {
            if i != q {
                assert(f.queues@[i] == f1.queues@[i]);
            } else {
                assert(in_range(f1.queues@[i].queue.waiters@, tasks));
            }
        }
        assert forall|i: int, j: int| 0 <= i < j < f.queues@.len() implies (
        #[trigger] f.queues@[i]).key != (#[trigger] f.queues@[j]).key by {
            assert(f1.queues@[i].key != f1.queues@[j].key);
        }
        lemma_replaced(f1, *f, tasks, q as int);
        assert(f1.waiters(key) == f0.waiters(key));
        assert forall|x: usize| x != key implies #[trigger] f.waiters(x) == f0.waiters(x) by {
            assert(f1.waiters(x) == f0.waiters(x));
        }
    }
    if deadline.is_some() {
        remove_sleeper(sleepers, me);
    }
    if signal {
        return Err(EINTR);
    }
    match deadline {
        Some(d) => {
            if now_ns >= d {
                return Err(ETIMEDOUT);
            }
        },
        None => {},
    }
    Ok(0)
}

proof fn lemma_without_range(l: Seq<usize>, t: usize, n: int)
    ensures
        in_range(l, n) ==> in_range(without(l, t), n),
    decreases l.len(),
{
    if l.len() > 0 && in_range(l, n) {
        assert(in_range(l.drop_last(), n)) by {
            assert forall|i: int| 0 <= i < l.drop_last().len() implies #[trigger] l.drop_last()[i] < n by {
                assert(l[i] < n);
            }
        }
        lemma_without_range(l.drop_last(), t, n);
        assert(l[l.len() - 1] < n);
    }
}

/// The commands of the call: 0 and 9 wait, 1 and 10 wake, 3 and 4 requeue.
pub proof fn commands_have_their_numbers(cmd: i32)
    ensures
        is_wait(cmd) <==> cmd == 0 || cmd == 9,
        is_wake(cmd) <==> cmd == 1 || cmd == 10,
        is_requeue(cmd) <==> cmd == 3 || cmd == 4,
{
}

/// Waking wakes those that have waited longest, as many as are asked for and as
/// there are, and tells how many; the others wait on, in their order, and so do the
/// waiters of every other word.
pub proof fn wake_takes_the_oldest(
    f0: Futexes,
    s0: Sched,
    key: usize,
    n: int,
    r: int,
    f1: Futexes,
    s1: Sched,
    t: usize,
    other: usize,
)
    requires
        0 <= n,
        wake_post(f0, s0, Some(key), n, r, f1, s1),
        in_range(f0.waiters(key), s0.states@.len() as int),
        t < s0.states@.len(),
    ensures
        ({
            let w = f0.waiters(key);
            &&& r <= n && r <= w.len() && (r == n || r == w.len())
            &&& w == w.take(r) + f1.waiters(key)
            &&& other != key ==> f1.waiters(other) == f0.waiters(other)
            &&& w.take(r).contains(t) && !(s0.states@[t as int] is Zombie) ==> s1.states@[t as int] is Runnable
                && s1.runqueue@.contains(t)
            &&& !w.take(r).contains(t) ==> s1.states@[t as int] == s0.states@[t as int]
        }),
{
    let w = f0.waiters(key);
    assert(w =~= w.take(r) + w.skip(r));
    assert(in_range(w.take(r), s0.states@.len() as int)) by {
        assert forall|i: int| 0 <= i < w.take(r).len() implies #[trigger] w.take(r)[i]
            < s0.states@.len() by {
            assert(w.take(r)[i] == w[i]);
        }
    }
    woken_can_run(s0.states@, s0.runqueue@, w.take(r), t);
}

/// A wait starts only where the word still holds the value that was read: otherwise
/// the caller is told to look again, and never sleeps.
pub proof fn changed_word_is_not_waited_for(
    m: Map<int, u8>,
    uaddr: usize,
    op: i32,
    val: u32,
    pa: Option<usize>,
    now: Clocks,
)
    requires
        pa is Some,
        mapped(m, uaddr as int, 4),
    ensures
        num_at(m, uaddr as int, 4) != val ==> wait_start(m, uaddr, op, val, 0, pa, now, false)
            == Err::<Option<u64>, i32>(EAGAIN),
        num_at(m, uaddr as int, 4) == val ==> wait_start(m, uaddr, op, val, 0, pa, now, false)
            == Ok::<Option<u64>, i32>(None),
        num_at(m, uaddr as int, 4) == val ==> wait_start(m, uaddr, op, val, 0, pa, now, true)
            == Err::<Option<u64>, i32>(EINTR),
{
}

/// A wait ends with what ended it: interrupted (4) by a signal, timed out (110) at
/// its deadline, or woken.
pub proof fn waits_end_with_their_reason(deadline: Option<u64>, now_ns: u64, signal: bool)
    ensures
        signal ==> woken_answer(deadline, now_ns, signal) == Err::<usize, i32>(4),
        !signal && deadline is Some && deadline->0 <= now_ns ==> woken_answer(
            deadline,
            now_ns,
            signal,
        ) == Err::<usize, i32>(110),
        !signal && (deadline is None || now_ns < deadline->0) ==> woken_answer(
            deadline,
            now_ns,
            signal,
        ) == Ok::<usize, i32>(0),
{
}

} // verus!
