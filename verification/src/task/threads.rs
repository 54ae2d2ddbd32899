//! Threads and their round-robin scheduling on one processor.

use vstd::prelude::*;
use crate::abi::{CLD_EXITED, CLONE_THREAD, CLONE_VM};
use crate::bytes::le;
use crate::errno::{EAGAIN, EFAULT, EINTR, ENOSYS};
use crate::task::process::Process;
use crate::sigset::{bit, bit_of};
use crate::task::signal::{
    deliver, deliver_post, is_caught, no_info, stack_ok, Outcome, SigInfo, SignalState, UserRegs,
    FP_SIZE, SIGBUS, SIGCHLD, SIGKILL, SIGSEGV,
};
use crate::trap::frame::TrapFrame;
use crate::uaccess::{mapped, num_at, stored, UserMem};

verus! {

pub const KSTACK_SIZE: usize = 0x1_0000;

/// Timer ticks after which a running program is preempted.
pub const QUANTUM: u64 = 8;

#[derive(Clone, Copy, PartialEq, Eq, Structural, Debug)]
pub enum State {
    Ready,
    Running,
    Blocked,
    Zombie,
    Dead,
}

pub struct Thread {
    pub tid: usize,
    pub state: State,
    /// The process of a user thread.
    pub process: Option<Process>,
    /// The tick at which a sleeper wakes; 0 for none.
    pub wake_tick: u64,
    pub exit_code: i32,
    /// Addresses of the kernel stack and of the trap frame.
    pub kstack: usize,
    pub tf_frame: usize,
    pub futex_woken: bool,
    pub futex_addr: usize,
}

pub struct Scheduler {
    pub threads: Vec<Thread>,
    /// Threads that are ready, oldest first.
    pub ready: Vec<usize>,
    pub current: usize,
    pub idle: usize,
    pub next_tid: usize,
    pub quantum: u64,
}

pub type Threads = Seq<Thread>;

impl Scheduler {
    pub open spec fn wf(&self) -> bool {
        &&& self.current < self.threads@.len()
        &&& self.idle < self.threads@.len()
        &&& forall|i: int| 0 <= i < self.ready@.len() ==> #[trigger] self.ready@[i] < self.threads@.len()
        &&& forall|i: int|
            0 <= i < self.threads@.len() && (#[trigger] self.threads@[i]).process is Some
                ==> self.threads@[i].process->0.wf()
    }

    /// All but threads and queue are as in `o`.
    pub open spec fn same_rest(&self, o: Scheduler) -> bool {
        self.current == o.current && self.idle == o.idle && self.next_tid == o.next_tid
            && self.quantum == o.quantum
    }

    pub open spec fn cur(&self) -> Thread {
        self.threads@[self.current as int]
    }
}

/// The threads with one of them in another state.
pub open spec fn with_state(t: Threads, i: int, s: State) -> Threads {
    t.update(i, Thread { state: s, ..t[i] })
}

/// `i` is the first thread with a number.
pub open spec fn is_tid(t: Threads, tid: usize, i: int) -> bool {
    &&& 0 <= i < t.len()
    &&& t[i].tid == tid
    &&& forall|j: int| 0 <= j < i ==> (#[trigger] t[j]).tid != tid
}

pub open spec fn by_tid(t: Threads, tid: usize) -> Option<int> {
    if exists|i: int| is_tid(t, tid, i) {
        Some(choose|i: int| is_tid(t, tid, i))
    } else {
        None
    }
}

/// Sets the state of a thread.
fn set_state(s: &mut Scheduler, i: usize, st: State)
    requires
        old(s).wf(),
        i < old(s).threads@.len(),
    ensures
        final(s).wf(),
        final(s).threads@ == with_state(old(s).threads@, i as int, st),
        final(s).ready == old(s).ready,
        final(s).same_rest(*old(s)),
{
    let ghost t = s.threads@;
    s.threads[i].state = st;
    proof {
        assert(s.threads@ =~= with_state(t, i as int, st));
        assert forall|k: int| 0 <= k < s.threads@.len() && (
        #[trigger] s.threads@[k]).process is Some implies s.threads@[k].process->0.wf() by {
            assert(t[k].process == s.threads@[k].process);
        }
    }
}

/// A thread that has not run yet.
pub open spec fn fresh(tid: usize, process: Option<Process>, tf_frame: usize, kstack: usize) -> Thread {
    Thread {
        tid,
        state: State::Ready,
        process,
        wake_tick: 0,
        exit_code: 0,
        kstack,
        tf_frame,
        futex_woken: false,
        futex_addr: 0,
    }
}

/// A scheduler with the idle thread alone, whose trap frame and stack are
/// given.
pub fn init(tf_frame: usize, kstack: usize) -> (r: Scheduler)
    ensures
        r.wf(),
        r.threads@ == seq![fresh(0, None, tf_frame, kstack)],
        r.ready@ == seq![0usize],
        r.current == 0,
        r.idle == 0,
        r.next_tid == 1,
        r.quantum == 0,
{
    let idle = Thread {
        tid: 0,
        state: State::Ready,
        process: None,
        wake_tick: 0,
        exit_code: 0,
        kstack,
        tf_frame,
        futex_woken: false,
        futex_addr: 0,
    };
    let mut threads: Vec<Thread> = Vec::new();
    threads.push(idle);
    let mut ready: Vec<usize> = Vec::new();
    ready.push(0);
    proof {
        assert(threads@ =~= seq![fresh(0, None, tf_frame, kstack)]);
        assert(ready@ =~= seq![0usize]);
    }
    Scheduler { threads, ready, current: 0, idle: 0, next_tid: 1, quantum: 0 }
}

pub fn current_index(s: &Scheduler) -> (r: usize)
    ensures
        r == s.current,
{
    s.current
}

/// The running thread.
pub fn current(s: &Scheduler) -> (r: &Thread)
    requires
        s.wf(),
    ensures
        *r == s.cur(),
{
    &s.threads[s.current]
}

/// The process of the running thread, which must be a user thread.
pub fn current_process(s: &Scheduler) -> (r: &Process)
    requires
        s.wf(),
        s.cur().process is Some,
    ensures
        *r == s.cur().process->0,
{
    match &s.threads[s.current].process {
        Some(p) => p,
        None => { vstd::pervasive::unreached() },
    }
}

pub fn thread_index_by_tid(s: &Scheduler, tid: usize) -> (r: Option<usize>)
    ensures
        match r {
            Some(i) => by_tid(s.threads@, tid) == Some(i as int) && i < s.threads@.len()
                && s.threads@[i as int].tid == tid,
            None => by_tid(s.threads@, tid) is None,
        },
{
    let n: usize = s.threads.len();
    let mut i: usize = 0;
    while i < n
        invariant
            i <= n == s.threads@.len(),
            forall|j: int| 0 <= j < i ==> (#[trigger] s.threads@[j]).tid != tid,
        decreases n - i,
    {
        if s.threads[i].tid == tid {
            proof {
                assert(is_tid(s.threads@, tid, i as int));
                let k = choose|k: int| is_tid(s.threads@, tid, k);
                assert(k == i);
            }
            return Some(i);
        }
        i = i + 1;
    }
    None
}

pub fn alloc_tid(s: &mut Scheduler) -> (r: usize)
    requires
        old(s).next_tid < usize::MAX,
    ensures
        r == old(s).next_tid,
        *final(s) == (Scheduler { next_tid: (r + 1) as usize, ..*old(s) }),
{
    let t: usize = s.next_tid;
    s.next_tid = t + 1;
    t
}

/// Adds a thread at the end of the queue.
fn add_thread(s: &mut Scheduler, t: Thread)
    requires
        old(s).wf(),
        t.process is Some ==> t.process->0.wf(),
    ensures
        final(s).wf(),
        final(s).threads@ == old(s).threads@.push(t),
        final(s).ready@ == old(s).ready@.push(old(s).threads.len()),
        final(s).same_rest(*old(s)),
{
    let idx: usize = s.threads.len();
    let ghost ts = s.threads@;
    s.threads.push(t);
    s.ready.push(idx);
    proof {
        assert forall|k: int| 0 <= k < s.threads@.len() && (
        #[trigger] s.threads@[k]).process is Some implies s.threads@[k].process->0.wf() by {
            if k < ts.len() {
                assert(ts[k].process is Some);
            }
        }
    }
}

/// Adds a kernel thread.
pub fn spawn_kernel(s: &mut Scheduler, tf_frame: usize, kstack: usize) -> (tid: usize)
    requires
        old(s).wf(),
        old(s).next_tid < usize::MAX,
    ensures
        final(s).wf(),
        tid == old(s).next_tid,
        final(s).next_tid == tid + 1,
        final(s).threads@ == old(s).threads@.push(fresh(tid, None, tf_frame, kstack)),
        final(s).ready@ == old(s).ready@.push(old(s).threads.len()),
        final(s).current == old(s).current,
        final(s).idle == old(s).idle,
        final(s).quantum == old(s).quantum,
{
    let tid: usize = alloc_tid(s);
    add_thread(
        s,
        Thread {
            tid,
            state: State::Ready,
            process: None,
            wake_tick: 0,
            exit_code: 0,
            kstack,
            tf_frame,
            futex_woken: false,
            futex_addr: 0,
        },
    );
    tid
}

/// Adds the thread of a process, under the process's number.
pub fn spawn_user(s: &mut Scheduler, process: Process, tf_frame: usize, kstack: usize) -> (tid: usize)
    requires
        old(s).wf(),
        process.wf(),
    ensures
        final(s).wf(),
        tid == process.pid,
        final(s).threads@ == old(s).threads@.push(fresh(tid, Some(process), tf_frame, kstack)),
        final(s).ready@ == old(s).ready@.push(old(s).threads.len()),
        final(s).same_rest(*old(s)),
{
    let tid: usize = process.pid;
    add_thread(
        s,
        Thread {
            tid,
            state: State::Ready,
            process: Some(process),
            wake_tick: 0,
            exit_code: 0,
            kstack,
            tf_frame,
            futex_woken: false,
            futex_addr: 0,
        },
    );
    tid
}

/// What the processor has to do.
#[derive(Clone, Copy, PartialEq, Eq, Structural, Debug)]
pub enum Switch {
    /// The running thread goes on.
    Stay,
    /// Save the context of `from` and go on with `to`, whose trap frame is at
    /// `tf`.
    To { from: usize, to: usize, tf: usize },
}

pub open spec fn schedule_post(a: Scheduler, r: Switch, b: Scheduler) -> bool {
    let prev = a.current;
    let next = if a.ready@.len() > 0 {
        a.ready@[0]
    } else {
        a.idle
    };
    let rest = if a.ready@.len() > 0 {
        a.ready@.skip(1)
    } else {
        a.ready@
    };
    &&& b.wf()
    &&& b.idle == a.idle
    &&& b.next_tid == a.next_tid
    &&& b.quantum == a.quantum
    &&& b.current == next
    &&& if next == prev {
        &&& r == Switch::Stay
        &&& b.ready@ == rest
        &&& b.threads@ == with_state(a.threads@, prev as int, State::Running)
    } else {
        let running = a.threads@[prev as int].state == State::Running;
        let t = if running {
            with_state(a.threads@, prev as int, State::Ready)
        } else {
            a.threads@
        };
        &&& r == (Switch::To { from: prev, to: next, tf: a.threads@[next as int].tf_frame })
        &&& b.ready@ == (if running {
            rest.push(prev)
        } else {
            rest
        })
        &&& b.threads@ == with_state(t, next as int, State::Running)
    }
}

/// Gives the processor to the thread that has been ready longest, or to the
/// idle thread. A thread that still runs goes to the end of the queue.
pub fn schedule(s: &mut Scheduler) -> (r: Switch)
    requires
        old(s).wf(),
    ensures
        schedule_post(*old(s), r, *final(s)),
{
    let ghost a = *s;
    let prev: usize = s.current;
    let next: usize = if s.ready.len() > 0 {
        let i: usize = s.ready.remove(0);
        proof {
            assert(s.ready@ =~= a.ready@.skip(1));
            assert forall|k: int| 0 <= k < s.ready@.len() implies #[trigger] s.ready@[k]
                < s.threads@.len() by {
                assert(s.ready@[k] == a.ready@[k + 1]);
            }
            assert(a.ready@[0] < a.threads@.len());
        }
        i
    } else {
        s.idle
    };
    if next == prev {
        set_state(s, prev, State::Running);
        return Switch::Stay;
    }
    if s.threads[prev].state == State::Running {
        set_state(s, prev, State::Ready);
        s.ready.push(prev);
    }
    let tf: usize = s.threads[next].tf_frame;
    set_state(s, next, State::Running);
    s.current = next;
    Switch::To { from: prev, to: next, tf }
}

/// Puts the running thread to sleep until it is woken.
pub fn block_current(s: &mut Scheduler) -> (r: Switch)
    requires
        old(s).wf(),
    ensures
        final(s).wf(),
        exists|mid: Scheduler|
            {
                &&& mid.threads@ == with_state(
                    old(s).threads@,
                    old(s).current as int,
                    State::Blocked,
                )
                &&& mid.ready == old(s).ready
                &&& mid.same_rest(*old(s))
                &&& #[trigger] schedule_post(mid, r, *final(s))
            },
{
    let i: usize = s.current;
    set_state(s, i, State::Blocked);
    let ghost mid = *s;
    let r: Switch = schedule(s);
    assert(schedule_post(mid, r, *s));
    r
}

/// Threads and queue after thread `i` was woken: only a blocked one is.
pub open spec fn woken(t: Threads, q: Seq<usize>, i: int) -> (Threads, Seq<usize>) {
    if t[i].state == State::Blocked {
        (with_state(t, i, State::Ready), q.push(i as usize))
    } else {
        (t, q)
    }
}

pub fn wake_index(s: &mut Scheduler, i: usize)
    requires
        old(s).wf(),
        i < old(s).threads@.len(),
    ensures
        final(s).wf(),
        (final(s).threads@, final(s).ready@) == woken(
            old(s).threads@,
            old(s).ready@,
            i as int,
        ),
        final(s).same_rest(*old(s)),
{
    if s.threads[i].state == State::Blocked {
        set_state(s, i, State::Ready);
        s.ready.push(i);
    }
}

pub fn wake_tid(s: &mut Scheduler, tid: usize)
    requires
        old(s).wf(),
    ensures
        final(s).wf(),
        (final(s).threads@, final(s).ready@) == (match by_tid(old(s).threads@, tid) {
            Some(i) => woken(old(s).threads@, old(s).ready@, i),
            None => (old(s).threads@, old(s).ready@),
        }),
        final(s).same_rest(*old(s)),
{
    match thread_index_by_tid(s, tid) {
        Some(i) => wake_index(s, i),
        None => {},
    }
}

/// What is to be done when the running thread ends: whose parent is told, and
/// the word to clear in the process's memory (0 for none).
#[derive(Clone, Copy, PartialEq, Eq, Structural, Debug)]
pub struct Ended {
    pub pid: usize,
    pub clear_tid: usize,
}

/// Ends the running thread. Another one is to be scheduled next.
pub fn exit_current(s: &mut Scheduler, code: i32) -> (r: Ended)
    requires
        old(s).wf(),
    ensures
        final(s).wf(),
        final(s).ready == old(s).ready,
        final(s).same_rest(*old(s)),
        ({
            let i = old(s).current as int;
            let t = old(s).threads@[i];
            let ended = Thread { exit_code: code, state: State::Zombie, ..t };
            match t.process {
                Some(p) => {
                    &&& r == (Ended { pid: p.pid, clear_tid: p.clear_child_tid })
                    &&& final(s).threads@ == old(s).threads@.update(
                        i,
                        Thread {
                            process: Some(Process { exit_code: code, exited: true, ..p }),
                            ..ended
                        },
                    )
                },
                None => {
                    &&& r == (Ended { pid: t.tid, clear_tid: 0 })
                    &&& final(s).threads@ == old(s).threads@.update(i, ended)
                },
            }
        }),
{
    let i: usize = s.current;
    let ghost ts = s.threads@;
    s.threads[i].exit_code = code;
    s.threads[i].state = State::Zombie;
    let mut r = Ended { pid: s.threads[i].tid, clear_tid: 0 };
    match &mut s.threads[i].process {
        Some(p) => {
            p.exit_code = code;
            p.exited = true;
            r = Ended { pid: p.pid, clear_tid: p.clear_child_tid };
        },
        None => {},
    }
    proof {
        let t = ts[i as int];
        let ended = Thread { exit_code: code, state: State::Zombie, ..t };
        assert(s.threads@ =~= ts.update(i as int, s.threads@[i as int]));
        assert forall|k: int| 0 <= k < s.threads@.len() && (
        #[trigger] s.threads@[k]).process is Some implies s.threads@[k].process->0.wf() by {
            assert(ts[k].process is Some);
        }
    }
    r
}

pub open spec fn is_due(t: Thread, now: u64) -> bool {
    t.state == State::Blocked && t.wake_tick != 0 && now >= t.wake_tick
}

/// The threads after the sleepers whose tick has come were made ready.
pub open spec fn ticked(t: Threads, now: u64) -> Threads {
    Seq::new(
        t.len(),
        |i: int|
            if is_due(t[i], now) {
                Thread { wake_tick: 0, state: State::Ready, ..t[i] }
            } else {
                t[i]
            },
    )
}

pub open spec fn due(t: Threads, now: u64) -> Seq<usize>
    decreases t.len(),
{
    if t.len() == 0 {
        Seq::empty()
    } else if is_due(t.last(), now) {
        due(t.drop_last(), now).push((t.len() - 1) as usize)
    } else {
        due(t.drop_last(), now)
    }
}

/// To be called on every timer tick: wakes the sleepers whose time has come.
pub fn on_timer(s: &mut Scheduler, now: u64)
    requires
        old(s).wf(),
    ensures
        final(s).wf(),
        final(s).threads@ == ticked(old(s).threads@, now),
        final(s).ready@ == old(s).ready@ + due(old(s).threads@, now),
        final(s).same_rest(*old(s)),
{
    let ghost t = s.threads@;
    let ghost q = s.ready@;
    let n: usize = s.threads.len();
    let mut i: usize = 0;
    proof {
        assert(t.take(0) =~= Seq::empty());
        assert(q + due(t.take(0), now) =~= q);
    }
    while i < n
        invariant
            i <= n == s.threads@.len(),
            n == t.len(),
            s.wf(),
            s.same_rest(*old(s)),
            forall|j: int| 0 <= j < i ==> #[trigger] s.threads@[j] == ticked(t, now)[j],
            forall|j: int| i <= j < n ==> #[trigger] s.threads@[j] == t[j],
            s.ready@ == q + due(t.take(i as int), now),
        decreases n - i,
    {
        let ghost cur = s.threads@;
        proof {
            assert(cur[i as int] == t[i as int]);
            assert(t.take(i + 1).drop_last() =~= t.take(i as int));
            assert(t.take(i + 1).last() == t[i as int]);
        }
        if s.threads[i].state == State::Blocked && s.threads[i].wake_tick != 0 && now
            >= s.threads[i].wake_tick {
            s.threads[i].wake_tick = 0;
            s.threads[i].state = State::Ready;
            s.ready.push(i);
            proof {
                assert(s.ready@ =~= q + due(t.take(i + 1), now));
                assert forall|k: int| 0 <= k < s.threads@.len() && (
                #[trigger] s.threads@[k]).process is Some implies s.threads@[k].process->0.wf() by {
                    assert(cur[k].process is Some);
                }
            }
        }
        i = i + 1;
    }
    proof {
        assert(t.take(n as int) =~= t);
        assert(s.threads@ =~= ticked(t, now));
    }
}

/// Sleeps for a number of ticks; for none, others get the processor.
pub fn sleep_ticks(s: &mut Scheduler, ticks: u64, now: u64) -> (r: Switch)
    requires
        old(s).wf(),
        now + ticks <= u64::MAX,
    ensures
        final(s).wf(),
        ticks == 0 ==> schedule_post(*old(s), r, *final(s)),
        ticks != 0 ==> exists|mid: Scheduler|
            {
                &&& mid.threads@ == old(s).threads@.update(
                    old(s).current as int,
                    Thread {
                        wake_tick: (now + ticks) as u64,
                        state: State::Blocked,
                        ..old(s).cur()
                    },
                )
                &&& mid.ready == old(s).ready
                &&& mid.same_rest(*old(s))
                &&& #[trigger] schedule_post(mid, r, *final(s))
            },
{
    if ticks == 0 {
        return schedule(s);
    }
    let i: usize = s.current;
    let ghost ts = s.threads@;
    s.threads[i].wake_tick = now + ticks;
    s.threads[i].state = State::Blocked;
    let ghost mid = *s;
    proof {
        assert(s.threads@ =~= ts.update(
            i as int,
            Thread { wake_tick: (now + ticks) as u64, state: State::Blocked, ..ts[i as int] },
        ));
        assert forall|k: int| 0 <= k < s.threads@.len() && (
        #[trigger] s.threads@[k]).process is Some implies s.threads@[k].process->0.wf() by {
            assert(ts[k].process is Some);
        }
    }
    let r: Switch = schedule(s);
    assert(schedule_post(mid, r, *s));
    r
}

/// Counts a tick of a running program; after its quantum others get the
/// processor. Kernel threads are not preempted.
pub fn preempt(s: &mut Scheduler) -> (r: Switch)
    requires
        old(s).wf(),
        old(s).quantum < u64::MAX,
    ensures
        final(s).wf(),
        if old(s).cur().process is None {
            r == Switch::Stay && *final(s) == *old(s)
        } else if old(s).quantum + 1 >= QUANTUM {
            schedule_post((Scheduler { quantum: 0, ..*old(s) }), r, *final(s))
        } else {
            r == Switch::Stay && *final(s) == (Scheduler {
                quantum: (old(s).quantum + 1) as u64,
                ..*old(s)
            })
        },
{
    if s.threads[s.current].process.is_none() {
        return Switch::Stay;
    }
    s.quantum = s.quantum + 1;
    if s.quantum >= QUANTUM {
        s.quantum = 0;
        return schedule(s);
    }
    Switch::Stay
}

/// Whether a clone request is refused: there are no threads, and memory is
/// never shared.
pub fn sys_clone(flags: u64) -> (r: Result<(), i32>)
    ensures
        r == (if flags & (CLONE_VM | CLONE_THREAD) != 0 {
            Err::<(), i32>(ENOSYS)
        } else {
            Ok::<(), i32>(())
        }),
{
    if flags & (CLONE_VM | CLONE_THREAD) != 0 {
        return Err(ENOSYS);
    }
    Ok(())
}

/// The frame with which the child of a clone starts: its parent's, but for the
/// answer, which is 0.
pub fn child_frame(tf: &TrapFrame) -> (r: TrapFrame)
    ensures
        r.x@ == tf.x@.update(10, 0),
        r.sepc == tf.sepc,
        r.sstatus == tf.sstatus,
{
    let mut r: TrapFrame = *tf;
    r.set_a0(0);
    r
}

/// What remains of a clone once the memory was copied: the child's number is
/// stored where it was asked for (what cannot be stored is passed over), and
/// the child is noted and started.
pub fn clone_finish(
    s: &mut Scheduler,
    parent: &mut Process,
    parent_mem: &mut UserMem,
    child: Process,
    child_mem: &mut UserMem,
    ptid: usize,
    ctid: usize,
    tf_frame: usize,
    kstack: usize,
) -> (tid: usize)
    requires
        old(s).wf(),
        child.wf(),
    ensures
        final(s).wf(),
        tid == child.pid,
        final(parent).children@ == old(parent).children@.push(tid),
        *final(parent) == (Process { children: final(parent).children, ..*old(parent) }),
        final(parent_mem)@ == (if ptid != 0 && mapped(old(parent_mem)@, ptid as int, 4) {
            stored(old(parent_mem)@, ptid as int, le(tid as nat, 4))
        } else {
            old(parent_mem)@
        }),
        final(child_mem)@ == (if ctid != 0 && mapped(old(child_mem)@, ctid as int, 4) {
            stored(old(child_mem)@, ctid as int, le(tid as nat, 4))
        } else {
            old(child_mem)@
        }),
        final(s).threads@ == old(s).threads@.push(
            fresh(
                tid,
                Some(
                    Process {
                        clear_child_tid: if ctid != 0 {
                            ctid
                        } else {
                            child.clear_child_tid
                        },
                        ..child
                    },
                ),
                tf_frame,
                kstack,
            ),
        ),
        final(s).same_rest(*old(s)),
        final(s).ready@ == old(s).ready@.push(old(s).threads.len()),
{
    let tid: usize = child.pid;
    let mut child: Process = child;
    if ctid != 0 {
        child.clear_child_tid = ctid;
        let _ = child_mem.write_num(ctid, tid as u64, 4);
    }
    if ptid != 0 {
        let _ = parent_mem.write_num(ptid, tid as u64, 4);
    }
    parent.children.push(tid);
    spawn_user(s, child, tf_frame, kstack)
}

/// `i` is the first ended thread with a number.
pub open spec fn ended(t: Threads, pid: usize, i: int) -> bool {
    &&& 0 <= i < t.len()
    &&& t[i].tid == pid && (t[i].state == State::Zombie || t[i].state == State::Dead)
    &&& forall|j: int|
        0 <= j < i ==> !((#[trigger] t[j]).tid == pid && (t[j].state == State::Zombie || t[j].state
            == State::Dead))
}

/// The exit code of a thread that has ended.
pub open spec fn exit_of(t: Threads, pid: usize) -> Option<i32> {
    if exists|i: int| ended(t, pid, i) {
        Some(t[choose|i: int| ended(t, pid, i)].exit_code)
    } else {
        None
    }
}

/// The exit code with which a thread ended is the one that its parent learns,
/// before and after the thread is buried, where no other thread has its number.
pub proof fn exit_code_is_kept(t: Threads, i: int, code: i32)
    requires
        0 <= i < t.len(),
        t[i].exit_code == code,
        t[i].state == State::Zombie || t[i].state == State::Dead,
        forall|j: int| 0 <= j < t.len() && j != i ==> (#[trigger] t[j]).tid != t[i].tid,
    ensures
        exit_of(t, t[i].tid) == Some(code),
        exit_of(
            t.update(
                i,
                Thread { process: None, state: State::Dead, kstack: 0, tf_frame: 0, ..t[i] },
            ),
            t[i].tid,
        ) == Some(code),
{
    let b = Thread { process: None, state: State::Dead, kstack: 0, tf_frame: 0, ..t[i] };
    let u = t.update(i, b);
    assert(ended(t, t[i].tid, i));
    assert(ended(u, t[i].tid, i));
    assert forall|j: int| #[trigger] ended(u, t[i].tid, j) implies j == i by {
        if j != i {
            assert(u[j] == t[j]);
        }
    }
}

/// The exit code of a child that has ended.
pub fn child_exit_code(s: &Scheduler, pid: usize) -> (r: Option<i32>)
    ensures
        r == exit_of(s.threads@, pid),
{
    let n: usize = s.threads.len();
    let mut i: usize = 0;
    while i < n
        invariant
            i <= n == s.threads@.len(),
            forall|j: int|
                0 <= j < i ==> !((#[trigger] s.threads@[j]).tid == pid && (s.threads@[j].state
                    == State::Zombie || s.threads@[j].state == State::Dead)),
        decreases n - i,
    {
        if s.threads[i].tid == pid && (s.threads[i].state == State::Zombie || s.threads[i].state
            == State::Dead) {
            proof {
                assert(ended(s.threads@, pid, i as int));
                let k = choose|k: int| ended(s.threads@, pid, k);
                assert(k == i);
            }
            return Some(s.threads[i].exit_code);
        }
        i = i + 1;
    }
    None
}

/// The pages that a reaped thread had: its kernel stack and its trap frame.
#[derive(Clone, Copy, PartialEq, Eq, Structural, Debug)]
pub struct Reaped {
    pub kstack: usize,
    pub tf_frame: usize,
    /// The process's memory is to be freed too.
    pub had_process: bool,
}

/// Buries a thread: its process goes, and its pages are to be freed. A thread
/// that is buried already is left alone.
pub fn reap_child(s: &mut Scheduler, pid: usize) -> (r: Option<Reaped>)
    requires
        old(s).wf(),
    ensures
        final(s).wf(),
        final(s).ready == old(s).ready,
        final(s).same_rest(*old(s)),
        match by_tid(old(s).threads@, pid) {
            None => r is None && final(s).threads@ == old(s).threads@,
            Some(i) => {
                let t = old(s).threads@[i];
                if t.state == State::Dead {
                    r is None && final(s).threads@ == old(s).threads@
                } else {
                    &&& r == Some(
                        Reaped {
                            kstack: t.kstack,
                            tf_frame: t.tf_frame,
                            had_process: t.process is Some,
                        },
                    )
                    &&& final(s).threads@ == old(s).threads@.update(
                        i,
                        Thread {
                            process: None,
                            state: State::Dead,
                            kstack: 0,
                            tf_frame: 0,
                            ..t
                        },
                    )
                }
            },
        },
{
    let i: usize = match thread_index_by_tid(s, pid) {
        Some(i) => i,
        None => {
            return None;
        },
    };
    if s.threads[i].state == State::Dead {
        return None;
    }
    let ghost ts = s.threads@;
    let r = Reaped {
        kstack: s.threads[i].kstack,
        tf_frame: s.threads[i].tf_frame,
        had_process: s.threads[i].process.is_some(),
    };
    s.threads[i].process = None;
    s.threads[i].state = State::Dead;
    s.threads[i].kstack = 0;
    s.threads[i].tf_frame = 0;
    proof {
        let t = ts[i as int];
        assert(s.threads@ =~= ts.update(
            i as int,
            Thread { process: None, state: State::Dead, kstack: 0, tf_frame: 0, ..t },
        ));
        assert forall|k: int| 0 <= k < s.threads@.len() && (
        #[trigger] s.threads@[k]).process is Some implies s.threads@[k].process->0.wf() by {
            assert(ts[k].process is Some);
        }
    }
    Some(r)
}

/// Signal state `b` is `a` after a signal was raised with information.
pub open spec fn raised(a: SignalState, b: SignalState, sig: usize, info: SigInfo) -> bool {
    if 0 < sig < 65 {
        &&& b.pending == a.pending | bit(sig as int)
        &&& b.info@ == a.info@.update(sig as int, SigInfo { has_info: true, ..info })
        &&& b == (SignalState { pending: b.pending, info: b.info, ..a })
    } else {
        b == a
    }
}

/// `i` is the first thread whose process is in a group.
pub open spec fn is_in_group(t: Threads, pgid: usize, i: int) -> bool {
    &&& 0 <= i < t.len()
    &&& t[i].process is Some && t[i].process->0.pgid == pgid
    &&& forall|j: int|
        0 <= j < i ==> !((#[trigger] t[j]).process is Some && t[j].process->0.pgid == pgid)
}

/// The thread that a signal for `pid` goes to: the one with that number, or
/// for a number that is not positive the first of the sender's group.
pub open spec fn target_of(s: Scheduler, pid: i32, i: int) -> bool {
    if pid > 0 {
        is_tid(s.threads@, pid as usize, i)
    } else {
        is_in_group(
            s.threads@,
            match s.cur().process {
                Some(p) => p.pgid,
                None => 0,
            },
            i,
        )
    }
}

fn find_target(s: &Scheduler, pid: i32) -> (r: Option<usize>)
    requires
        s.wf(),
    ensures
        match r {
            Some(i) => target_of(*s, pid, i as int),
            None => forall|i: int| !target_of(*s, pid, i),
        },
{
    if pid > 0 {
        let r: Option<usize> = thread_index_by_tid(s, pid as usize);
        proof {
            if r is Some {
                let tid = pid as usize;
                let i = choose|i: int| is_tid(s.threads@, tid, i);
                assert(is_tid(s.threads@, tid, i));
            }
        }
        return r;
    }
    let pgid: usize = match &s.threads[s.current].process {
        Some(p) => p.pgid,
        None => 0,
    };
    let n: usize = s.threads.len();
    let mut i: usize = 0;
    while i < n
        invariant
            i <= n == s.threads@.len(),
            forall|j: int|
                0 <= j < i ==> !((#[trigger] s.threads@[j]).process is Some
                    && s.threads@[j].process->0.pgid == pgid),
            pid <= 0,
            pgid == (match s.cur().process {
                Some(p) => p.pgid,
                None => 0,
            }),
        decreases n - i,
    {
        let hit: bool = match &s.threads[i].process {
            Some(p) => p.pgid == pgid,
            None => false,
        };
        if hit {
            return Some(i);
        }
        i = i + 1;
    }
    None
}

/// Scheduler `b` is `a` after a signal was raised on thread `i`, which is woken.
/// One that is no process is left alone.
pub open spec fn posted(a: Scheduler, b: Scheduler, i: int, sig: usize, info: SigInfo) -> bool {
    let t = a.threads@[i];
    let u = b.threads@[i];
    if t.process is None {
        b == a
    } else {
        &&& b.threads@ == a.threads@.update(i, u)
        &&& u.process is Some
        &&& raised(t.process->0.sig, u.process->0.sig, sig, info)
        &&& u.process->0 == (Process { sig: u.process->0.sig, ..t.process->0 })
        &&& u == (Thread {
            process: u.process,
            futex_woken: true,
            state: if t.state == State::Blocked {
                State::Ready
            } else {
                t.state
            },
            ..t
        })
        &&& b.ready@ == (if t.state == State::Blocked {
            a.ready@.push(i as usize)
        } else {
            a.ready@
        })
        &&& b.same_rest(a)
    }
}

fn post(s: &mut Scheduler, i: usize, sig: usize, info: SigInfo)
    requires
        old(s).wf(),
        i < old(s).threads@.len(),
    ensures
        final(s).wf(),
        posted(*old(s), *final(s), i as int, sig, info),
{
    let ghost ts = s.threads@;
    if s.threads[i].process.is_none() {
        return ;
    }
    match &mut s.threads[i].process {
        Some(p) => {
            p.sig.raise_with(sig, info);
        },
        None => {},
    }
    s.threads[i].futex_woken = true;
    proof {
        assert(s.threads@ =~= ts.update(i as int, s.threads@[i as int]));
        assert forall|k: int| 0 <= k < s.threads@.len() && (
        #[trigger] s.threads@[k]).process is Some implies s.threads@[k].process->0.wf() by {
            assert(ts[k].process is Some);
        }
    }
    wake_index(s, i);
    proof {
        assert(s.threads@ =~= ts.update(i as int, s.threads@[i as int]));
    }
}

/// Sends a signal, with the sender's number, and wakes the receiver. Without a
/// receiver that is a process nothing happens.
pub fn send_signal(s: &mut Scheduler, pid: i32, sig: usize, code: i32)
    requires
        old(s).wf(),
    ensures
        final(s).wf(),
        (forall|i: int| !target_of(*old(s), pid, i)) ==> *final(s) == *old(s),
        forall|i: int| #[trigger]
            target_of(*old(s), pid, i) ==> posted(
                *old(s),
                *final(s),
                i,
                sig,
                (SigInfo { code, pid: old(s).cur().tid as i32, ..no_info() }),
            ),
{
    let i: usize = match find_target(s, pid) {
        Some(i) => i,
        None => {
            return ;
        },
    };
    proof {
        assert forall|k: int| #[trigger] target_of(*old(s), pid, k) implies k == i by {}
    }
    let from: i32 = s.threads[s.current].tid as i32;
    post(s, i, sig, SigInfo { code, pid: from, uid: 0, status: 0, addr: 0, has_info: false });
}

/// Tells the parent of a process that it ended: SIGCHLD with the number of the
/// child and its exit status. Without a parent nothing happens.
pub fn notify_parent(s: &mut Scheduler, pid: usize, ppid: usize, code: i32)
    requires
        old(s).wf(),
    ensures
        final(s).wf(),
        (forall|i: int| !is_tid(old(s).threads@, ppid, i)) ==> *final(s) == *old(s),
        forall|i: int| #[trigger]
            is_tid(old(s).threads@, ppid, i) ==> posted(
                *old(s),
                *final(s),
                i,
                SIGCHLD,
                (SigInfo { code: CLD_EXITED, pid: pid as i32, status: code, ..no_info() }),
            ),
{
    let i: usize = match thread_index_by_tid(s, ppid) {
        Some(i) => i,
        None => {
            return ;
        },
    };
    proof {
        assert forall|k: int| #[trigger] is_tid(old(s).threads@, ppid, k) implies k == i by {}
    }
    post(
        s,
        i,
        SIGCHLD,
        SigInfo {
            code: CLD_EXITED,
            pid: pid as i32,
            uid: 0,
            status: code,
            addr: 0,
            has_info: false,
        },
    );
}

/// What a trap of a user program comes to.
#[derive(Clone, Copy, PartialEq, Eq, Structural, Debug)]
pub enum Fault {
    /// The kernel itself is at fault; nothing can go on.
    Halt,
    Resolved,
    /// The program gets this signal.
    Signal(usize),
}

pub const SCAUSE_STORE_PAGE_FAULT: u64 = 15;

/// A page fault. `resolved` is whether the memory layer could mend it.
pub fn page_fault(s: &Scheduler, scause: u64, resolved: bool) -> (r: Fault)
    requires
        s.wf(),
    ensures
        r == (if s.cur().process is None {
            Fault::Halt
        } else if resolved {
            Fault::Resolved
        } else if scause == SCAUSE_STORE_PAGE_FAULT {
            Fault::Signal(SIGBUS)
        } else {
            Fault::Signal(SIGSEGV)
        }),
{
    if s.threads[s.current].process.is_none() {
        return Fault::Halt;
    }
    if resolved {
        return Fault::Resolved;
    }
    if scause == SCAUSE_STORE_PAGE_FAULT {
        Fault::Signal(SIGBUS)
    } else {
        Fault::Signal(SIGSEGV)
    }
}

/// Any other fault of a user program.
pub fn fault() -> (r: Fault)
    ensures
        r == Fault::Signal(SIGBUS),
{
    Fault::Signal(SIGBUS)
}

/// Delivers signals on the way back to a program. A kill signal ends it at
/// once, whatever else is pending or blocked.
pub fn deliver_signals(
    p: &mut Process,
    tf: &mut UserRegs,
    mem: &mut UserMem,
    fp: &Vec<u8>,
    trampoline: usize,
) -> (r: Outcome)
    requires
        old(p).wf(),
        old(tf).wf(),
        is_caught(old(p).sig) ==> stack_ok(old(p).sig, *old(tf)),
        fp@.len() <= FP_SIZE,
    ensures
        final(p).wf(),
        *final(p) == (Process { sig: final(p).sig, ..*old(p) }),
        if old(p).sig.pending & bit(SIGKILL as int) != 0 {
            r == Outcome::Exit(137) && *final(p) == *old(p) && *final(tf) == *old(tf)
                && final(mem)@ == old(mem)@
        } else {
            deliver_post(
                old(p).sig,
                *old(tf),
                old(mem)@,
                fp@,
                trampoline,
                r,
                final(p).sig,
                *final(tf),
                final(mem)@,
            )
        },
{
    if p.sig.pending & bit_of(SIGKILL) != 0 {
        return Outcome::Exit(137);
    }
    deliver(&mut p.sig, tf, mem, fp, trampoline)
}

/// Who waits for which futex word: pairs of address and thread number.
pub type Waiters = Seq<(usize, usize)>;

/// The waiters without a thread's wait for a word.
pub open spec fn without(w: Waiters, addr: usize, tid: usize) -> Waiters
    decreases w.len(),
{
    if w.len() == 0 {
        Seq::empty()
    } else if w.last().0 == addr && w.last().1 == tid {
        without(w.drop_last(), addr, tid)
    } else {
        without(w.drop_last(), addr, tid).push(w.last())
    }
}

fn forget(w: &Vec<(usize, usize)>, addr: usize, tid: usize) -> (r: Vec<(usize, usize)>)
    ensures
        r@ == without(w@, addr, tid),
{
    let n: usize = w.len();
    let mut r: Vec<(usize, usize)> = Vec::new();
    let mut i: usize = 0;
    proof {
        assert(w@.take(0) =~= Seq::empty());
    }
    while i < n
        invariant
            i <= n == w@.len(),
            r@ == without(w@.take(i as int), addr, tid),
        decreases n - i,
    {
        proof {
            assert(w@.take(i + 1).drop_last() =~= w@.take(i as int));
            assert(w@.take(i + 1).last() == w@[i as int]);
        }
        if !(w[i].0 == addr && w[i].1 == tid) {
            r.push((w[i].0, w[i].1));
        }
        i = i + 1;
    }
    proof {
        assert(w@.take(n as int) =~= w@);
    }
    r
}

/// What starting to wait for a futex word comes to.
pub open spec fn wait_post(
    a: Scheduler,
    w: Waiters,
    m: Map<int, u8>,
    uaddr: usize,
    val: u32,
    r: FutexStep,
    b: Scheduler,
    w1: Waiters,
) -> bool {
    if !mapped(m, uaddr as int, 4) {
        r == FutexStep::Done(Err(EFAULT)) && b == a && w1 == w
    } else if num_at(m, uaddr as int, 4) != val {
        r == FutexStep::Done(Err(EAGAIN)) && b == a && w1 == w
    } else {
        &&& r == FutexStep::Wait
        &&& w1 == w.push((uaddr, a.cur().tid))
        &&& b.threads@ == a.threads@.update(
            a.current as int,
            Thread { futex_addr: uaddr, ..a.cur() },
        )
        &&& b.ready == a.ready
        &&& b.same_rest(a)
    }
}

/// Starts to wait for a futex word, which must hold `val`.
pub fn futex_wait(
    s: &mut Scheduler,
    waiters: &mut Vec<(usize, usize)>,
    mem: &UserMem,
    uaddr: usize,
    val: u32,
) -> (r: Result<(), i32>)
    requires
        old(s).wf(),
    ensures
        final(s).wf(),
        if !mapped(mem@, uaddr as int, 4) {
            r == Err::<(), i32>(EFAULT) && *final(s) == *old(s) && final(waiters)@ == old(waiters)@
        } else if num_at(mem@, uaddr as int, 4) != val {
            r == Err::<(), i32>(EAGAIN) && *final(s) == *old(s) && final(waiters)@ == old(waiters)@
        } else {
            &&& r == Ok::<(), i32>(())
            &&& final(waiters)@ == old(waiters)@.push((uaddr, old(s).cur().tid))
            &&& final(s).threads@ == old(s).threads@.update(
                old(s).current as int,
                Thread { futex_addr: uaddr, ..old(s).cur() },
            )
            &&& final(s).ready == old(s).ready
            &&& final(s).same_rest(*old(s))
        },
{
    let cur: u64 = match mem.read_num(uaddr, 4) {
        Ok(v) => v,
        Err(e) => {
            return Err(e);
        },
    };
    if cur != val as u64 {
        return Err(EAGAIN);
    }
    let i: usize = s.current;
    waiters.push((uaddr, s.threads[i].tid));
    let ghost ts = s.threads@;
    s.threads[i].futex_addr = uaddr;
    proof {
        assert(s.threads@ =~= ts.update(i as int, s.threads@[i as int]));
        assert forall|k: int| 0 <= k < s.threads@.len() && (
        #[trigger] s.threads@[k]).process is Some implies s.threads@[k].process->0.wf() by {
            assert(ts[k].process is Some);
        }
    }
    Ok(())
}

/// A signal that is not blocked awaits the running thread.
pub open spec fn interrupted(s: Scheduler) -> bool {
    s.cur().process is Some && s.cur().process->0.sig.pending & !s.cur().process->0.sig.blocked != 0
}

/// Looks whether the wait is over: the word has changed or can no longer be
/// read, the thread was woken, or a signal came. `None` to sleep another tick.
pub fn futex_round(
    s: &mut Scheduler,
    waiters: &mut Vec<(usize, usize)>,
    mem: &UserMem,
    uaddr: usize,
    val: u32,
) -> (r: Option<Result<usize, i32>>)
    requires
        old(s).wf(),
    ensures
        final(s).wf(),
        final(s).ready == old(s).ready,
        final(s).same_rest(*old(s)),
        ({
            let t = old(s).cur();
            let over = !mapped(mem@, uaddr as int, 4) || num_at(mem@, uaddr as int, 4) != val
                || t.futex_woken;
            if over {
                &&& r == Some(Ok::<usize, i32>(0))
                &&& final(s).threads@ == old(s).threads@.update(
                    old(s).current as int,
                    Thread { futex_woken: false, futex_addr: 0, ..t },
                )
                &&& final(waiters)@ == without(old(waiters)@, uaddr, t.tid)
            } else if interrupted(*old(s)) {
                &&& r == Some(Err::<usize, i32>(EINTR))
                &&& final(s).threads@ == old(s).threads@.update(
                    old(s).current as int,
                    Thread { futex_woken: false, ..t },
                )
                &&& final(waiters)@ == without(old(waiters)@, uaddr, t.tid)
            } else {
                r is None && final(s).threads@ == old(s).threads@ && final(waiters)@ == old(
                    waiters,
                )@
            }
        }),
{
    let i: usize = s.current;
    let ghost ts = s.threads@;
    let over: bool = match mem.read_num(uaddr, 4) {
        Ok(v) => v != val as u64 || s.threads[i].futex_woken,
        Err(_) => true,
    };
    let signalled: bool = match &s.threads[i].process {
        Some(p) => p.sig.pending & !p.sig.blocked != 0,
        None => false,
    };
    if !over && !signalled {
        return None;
    }
    let tid: usize = s.threads[i].tid;
    s.threads[i].futex_woken = false;
    if over {
        s.threads[i].futex_addr = 0;
    }
    *waiters = forget(waiters, uaddr, tid);
    proof {
        assert(s.threads@ =~= ts.update(i as int, s.threads@[i as int]));
        assert forall|k: int| 0 <= k < s.threads@.len() && (
        #[trigger] s.threads@[k]).process is Some implies s.threads@[k].process->0.wf() by {
            assert(ts[k].process is Some);
        }
    }
    if over {
        Some(Ok(0))
    } else {
        Some(Err(EINTR))
    }
}

/// The threads that wait for a word, oldest first.
pub open spec fn waiting(w: Waiters, addr: usize) -> Seq<usize>
    decreases w.len(),
{
    if w.len() == 0 {
        Seq::empty()
    } else if w[0].0 == addr {
        seq![w[0].1] + waiting(w.skip(1), addr)
    } else {
        waiting(w.skip(1), addr)
    }
}

/// Threads, queue and count after waiters were woken in turn until `val` are
/// (all of them for the largest number).
pub open spec fn wake_list(t: Threads, q: Seq<usize>, ws: Seq<usize>, n: int, val: u32) -> (
    Threads,
    Seq<usize>,
    int,
)
    decreases ws.len(),
{
    if ws.len() == 0 || (n >= val && val != u32::MAX) {
        (t, q, n)
    } else {
        match by_tid(t, ws[0]) {
            None => wake_list(t, q, ws.skip(1), n, val),
            Some(i) => {
                let u = woken(t.update(i, Thread { futex_woken: true, ..t[i] }), q, i);
                wake_list(u.0, u.1, ws.skip(1), n + 1, val)
            },
        }
    }
}

/// Wakes up to `val` threads that wait for a word. Tells how many.
#[verifier::loop_isolation(false)]
pub fn futex_wake(s: &mut Scheduler, waiters: &Vec<(usize, usize)>, uaddr: usize, val: u32) -> (r:
    usize)
    requires
        old(s).wf(),
    ensures
        final(s).wf(),
        final(s).same_rest(*old(s)),
        (final(s).threads@, final(s).ready@, r as int) == wake_list(
            old(s).threads@,
            old(s).ready@,
            waiting(waiters@, uaddr),
            0,
            val,
        ),
{
    let ghost t0 = s.threads@;
    let ghost q0 = s.ready@;
    let ghost w = waiters@;
    let mut n: usize = 0;
    let mut k: usize = 0;
    let len: usize = waiters.len();
    proof {
        assert(w.skip(0) =~= w);
    }
    while k < len
        invariant
            k <= len == w.len(),
            w == waiters@,
            n <= k,
            s.wf(),
            s.same_rest(*old(s)),
            wake_list(s.threads@, s.ready@, waiting(w.skip(k as int), uaddr), n as int, val)
                == wake_list(t0, q0, waiting(w, uaddr), 0, val),
        decreases len - k,
    {
        let ghost rest = waiting(w.skip(k as int), uaddr);
        proof {
            assert(w.skip(k as int)[0] == w[k as int]);
            assert(w.skip(k as int).skip(1) =~= w.skip(k + 1));
        }
        if waiters[k].0 == uaddr {
            proof {
                assert(rest[0] == w[k as int].1);
                assert(rest.skip(1) =~= waiting(w.skip(k + 1), uaddr));
            }
            if n >= val as usize && val != u32::MAX {
                return n;
            }
            match thread_index_by_tid(s, waiters[k].1) {
                Some(i) => {
                    let ghost ts = s.threads@;
                    s.threads[i].futex_woken = true;
                    proof {
                        assert(s.threads@ =~= ts.update(
                            i as int,
                            Thread { futex_woken: true, ..ts[i as int] },
                        ));
                        assert forall|k: int| 0 <= k < s.threads@.len() && (
                        #[trigger] s.threads@[k]).process is Some implies s.threads@[k].process->0.wf() by {
                            assert(ts[k].process is Some);
                        }
                    }
                    wake_index(s, i);
                    n = n + 1;
                },
                None => {},
            }
        }
        k = k + 1;
    }
    proof {
        assert(w.skip(len as int).len() == 0);
    }
    n
}

/// What a futex call comes to.
#[derive(Clone, Copy, PartialEq, Eq, Debug)]
pub enum FutexStep {
    Done(Result<usize, i32>),
    /// The thread waits, round by round.
    Wait,
}

/// The futex call: commands 0 and 9 wait, 1 and 10 wake, each also in its
/// private form; any other does nothing.
pub fn futex(
    s: &mut Scheduler,
    waiters: &mut Vec<(usize, usize)>,
    mem: &UserMem,
    uaddr: usize,
    op: i32,
    val: u32,
) -> (r: FutexStep)
    requires
        old(s).wf(),
    ensures
        final(s).wf(),
        ({
            let cmd = op & 0x7f;
            if cmd == 0 || cmd == 9 {
                wait_post(*old(s), old(waiters)@, mem@, uaddr, val, r, *final(s), final(waiters)@)
            } else if cmd == 1 || cmd == 10 {
                &&& final(waiters)@ == old(waiters)@
                &&& final(s).same_rest(*old(s))
                &&& r is Done && r->Done_0 is Ok
                &&& (final(s).threads@, final(s).ready@, r->Done_0->Ok_0 as int) == wake_list(
                    old(s).threads@,
                    old(s).ready@,
                    waiting(old(waiters)@, uaddr),
                    0,
                    val,
                )
            } else {
                r == FutexStep::Done(Ok(0)) && *final(s) == *old(s) && final(waiters)@ == old(
                    waiters,
                )@
            }
        }),
{
    let cmd: i32 = op & 0x7f;
    if cmd == 0 || cmd == 9 {
        match futex_wait(s, waiters, mem, uaddr, val) {
            Ok(()) => FutexStep::Wait,
            Err(e) => FutexStep::Done(Err(e)),
        }
    } else if cmd == 1 || cmd == 10 {
        FutexStep::Done(Ok(futex_wake(s, waiters, uaddr, val)))
    } else {
        FutexStep::Done(Ok(0))
    }
}

/// Every ready thread gets the processor in its turn: what is at place `k` of
/// the queue is at place `k - 1` after the next switch.
pub proof fn ready_moves_up(a: Scheduler, r: Switch, b: Scheduler, k: int)
    requires
        schedule_post(a, r, b),
        0 < k < a.ready@.len(),
    ensures
        b.current == a.ready@[0],
        k - 1 < b.ready@.len(),
        b.ready@[k - 1] == a.ready@[k],
{
}

/// A switch loses no thread: each that was queued runs or is queued still, one
/// place further up; a thread that still ran waits behind all of them. With
/// nothing queued the idle thread runs. No other thread changes its state.
pub proof fn switch_loses_none(a: Scheduler, r: Switch, b: Scheduler, k: int, i: int)
    requires
        a.wf(),
        schedule_post(a, r, b),
        0 <= k < a.ready@.len() || k == -1,
        0 <= i < a.threads@.len(),
    ensures
        k == 0 ==> b.current == a.ready@[0],
        k > 0 ==> b.ready@[k - 1] == a.ready@[k],
        a.ready@.len() == 0 ==> b.current == a.idle,
        b.cur().state == State::Running,
        a.cur().state == State::Running && b.current != a.current ==> b.ready@.last() == a.current
            && b.ready@.len() == (if a.ready@.len() == 0 {
            1
        } else {
            a.ready@.len()
        }) && b.threads@[a.current as int].state == State::Ready,
        a.cur().state != State::Running && b.current != a.current ==> b.threads@[a.current as int]
            == a.cur() && b.ready@.len() == (if a.ready@.len() == 0 {
            0
        } else {
            a.ready@.len() - 1
        }),
        i != a.current && i != b.current ==> b.threads@[i] == a.threads@[i],
        r matches Switch::To { to, tf, from } ==> to == b.current && from == a.current && tf
            == a.threads@[to as int].tf_frame,
        r is Stay <==> b.current == a.current,
{
}

/// A timer tick wakes exactly the sleepers whose tick has come: they are ready and
/// queued, and every other thread is as it was.
pub proof fn timer_wakes_the_due(t: Threads, now: u64, i: int)
    requires
        0 <= i < t.len() <= usize::MAX,
    ensures
        t[i].state == State::Blocked && 0 < t[i].wake_tick <= now ==> {
            &&& ticked(t, now)[i] == (Thread { state: State::Ready, wake_tick: 0, ..t[i] })
            &&& due(t, now).contains(i as usize)
        },
        !(t[i].state == State::Blocked && 0 < t[i].wake_tick <= now) ==> {
            &&& ticked(t, now)[i] == t[i]
            &&& !due(t, now).contains(i as usize)
        },
{
    lemma_due_in(t, now, i);
}

proof fn lemma_due_in(t: Threads, now: u64, i: int)
    requires
        t.len() <= usize::MAX,
    ensures
        0 <= i < t.len() && is_due(t[i], now) ==> due(t, now).contains(i as usize),
        0 <= i <= usize::MAX && !(i < t.len() && is_due(t[i], now)) ==> !due(t, now).contains(
            i as usize,
        ),
    decreases t.len(),
{
    if t.len() > 0 {
        let p = t.drop_last();
        let d = due(p, now);
        let e = due(t, now);
        lemma_due_in(p, now, i);
        if 0 <= i < t.len() - 1 {
            assert(p[i] == t[i]);
        }
        if is_due(t.last(), now) {
            assert(e == d.push((t.len() - 1) as usize));
            assert(e[e.len() - 1] == (t.len() - 1) as usize);
            if 0 <= i < t.len() - 1 && is_due(t[i], now) {
                let k = choose|k: int| 0 <= k < d.len() && d[k] == i as usize;
                assert(e[k] == i as usize);
            }
            if 0 <= i <= usize::MAX && e.contains(i as usize) && i != t.len() - 1 {
                let k = choose|k: int| 0 <= k < e.len() && e[k] == i as usize;
                assert(d[k] == i as usize);
            }
        }
    }
}

/// Waking makes a blocked thread ready and queues it last; a thread that is not
/// blocked, and every other one, is left alone.
pub proof fn waking_queues_last(t: Threads, q: Seq<usize>, i: int, j: int)
    requires
        0 <= i < t.len() <= usize::MAX,
        0 <= j < t.len(),
    ensures
        t[i].state == State::Blocked ==> woken(t, q, i).0[i].state == State::Ready && woken(
            t,
            q,
            i,
        ).1 == q.push(i as usize),
        t[i].state != State::Blocked ==> woken(t, q, i) == (t, q),
        j != i ==> woken(t, q, i).0[j] == t[j],
{
}

/// Thread numbers are unique.
pub open spec fn unique(t: Threads) -> bool {
    forall|i: int, j: int| 0 <= i < j < t.len() ==> (#[trigger] t[i]).tid != (#[trigger] t[j]).tid
}

proof fn lemma_by_tid(t: Threads, i: int)
    requires
        unique(t),
        0 <= i < t.len(),
    ensures
        by_tid(t, t[i].tid) == Some(i),
{
    assert(is_tid(t, t[i].tid, i));
    let k = choose|k: int| is_tid(t, t[i].tid, k);
    if k < i {
        assert(t[k].tid != t[i].tid);
    } else if i < k {
        assert(t[i].tid != t[k].tid);
    }
}

/// Waking the waiters of a word wakes the oldest of them, as many as were asked
/// for (all of them for the largest number), and tells how many; nobody else is
/// touched.
pub proof fn oldest_waiters_wake(t: Threads, q: Seq<usize>, ws: Seq<usize>, n: int, val: u32, i: int)
    requires
        unique(t),
        t.len() <= usize::MAX,
        0 <= n,
        0 <= i < t.len(),
        forall|k: int| 0 <= k < ws.len() ==> exists|j: int|
            0 <= j < t.len() && (#[trigger] t[j]).tid == #[trigger] ws[k],
    ensures
        ({
            let (u, p, c) = wake_list(t, q, ws, n, val);
            let left = if val == u32::MAX || ws.len() < val - n {
                ws.len() as int
            } else if val > n {
                val - n
            } else {
                0
            };
            &&& c == n + left
            &&& u.len() == t.len()
            &&& u[i].tid == t[i].tid
            &&& ws.take(left).contains(t[i].tid) ==> u[i].futex_woken && u[i].state
                != State::Blocked
            &&& !ws.take(left).contains(t[i].tid) ==> u[i] == t[i]
        }),
    decreases ws.len(),
{
    let left = if val == u32::MAX || ws.len() < val - n {
        ws.len() as int
    } else if val > n {
        val - n
    } else {
        0
    };
    if left > 0 {
        let j = choose|j: int| 0 <= j < t.len() && (#[trigger] t[j]).tid == ws[0];
        assert(t[j].tid == ws[0]);
        lemma_by_tid(t, j);
        let m = woken(t.update(j, Thread { futex_woken: true, ..t[j] }), q, j);
        let v = ws.skip(1);
        assert(m.0.len() == t.len());
        assert forall|x: int| 0 <= x < t.len() implies (#[trigger] m.0[x]).tid == t[x].tid by {}
        assert forall|k: int| 0 <= k < v.len() implies exists|x: int|
            0 <= x < m.0.len() && (#[trigger] m.0[x]).tid == #[trigger] v[k] by {
            assert(v[k] == ws[k + 1]);
            let x = choose|x: int| 0 <= x < t.len() && (#[trigger] t[x]).tid == ws[k + 1];
            assert(m.0[x].tid == v[k]);
        }
        assert(unique(m.0)) by {
            assert forall|x: int, y: int| 0 <= x < y < m.0.len() implies (#[trigger] m.0[x]).tid != (
            #[trigger] m.0[y]).tid by {
                assert(t[x].tid != t[y].tid);
            }
        }
        oldest_waiters_wake(m.0, m.1, v, n + 1, val, i);
        assert(ws.take(left).skip(1) =~= v.take(left - 1));
        if ws.take(left).contains(t[i].tid) {
            let k = choose|k: int| 0 <= k < left && ws.take(left)[k] == t[i].tid;
            if k > 0 {
                assert(v.take(left - 1)[k - 1] == t[i].tid);
            } else {
                if i < j {
                    assert(t[i].tid != t[j].tid);
                } else if j < i {
                    assert(t[j].tid != t[i].tid);
                }
                assert(i == j);
            }
        }
        if v.take(left - 1).contains(t[i].tid) {
            let y = v.take(left - 1);
            let k = choose|k: int| 0 <= k < y.len() && y[k] == t[i].tid;
            assert(ws.take(left)[k + 1] == t[i].tid);
        }
        if i == j {
            assert(ws.take(left)[0] == t[i].tid);
        }
    }
}

/// A thread is among the waiters of a word if and only if it waits for that word.
pub proof fn waiters_are_those_who_wait(w: Waiters, addr: usize, tid: usize)
    ensures
        waiting(w, addr).contains(tid) <==> w.contains((addr, tid)),
        waiting(w.push((addr, tid)), addr) == waiting(w, addr).push(tid),
    decreases w.len(),
{
    if w.len() > 0 {
        let v = w.skip(1);
        let x = waiting(w, addr);
        let y = waiting(v, addr);
        waiters_are_those_who_wait(v, addr, tid);
        assert(w.push((addr, tid)).skip(1) =~= v.push((addr, tid)));
        if w.contains((addr, tid)) {
            let k = choose|k: int| 0 <= k < w.len() && w[k] == (addr, tid);
            if k > 0 {
                assert(v[k - 1] == (addr, tid));
                let m = choose|m: int| 0 <= m < y.len() && y[m] == tid;
                assert(x[if w[0].0 == addr { m + 1 } else { m }] == tid);
            } else {
                assert(x[0] == tid);
            }
        }
        if x.contains(tid) {
            let k = choose|k: int| 0 <= k < x.len() && x[k] == tid;
            if w[0].0 == addr && k == 0 {
                assert(w[0] == (addr, tid));
            } else {
                assert(y[if w[0].0 == addr { k - 1 } else { k }] == tid);
                let m = choose|m: int| 0 <= m < v.len() && v[m] == (addr, tid);
                assert(w[m + 1] == (addr, tid));
            }
        }
        assert(waiting(w.push((addr, tid)), addr) =~= x.push(tid));
    } else {
        let e = w.push((addr, tid));
        assert(e.skip(1) =~= Seq::empty());
        assert(waiting(e.skip(1), addr) =~= Seq::empty());
        assert(waiting(e, addr) =~= waiting(w, addr).push(tid));
    }
}

/// A wait that is over is forgotten, and no other one.
pub proof fn forgotten_waits_are_gone(w: Waiters, addr: usize, tid: usize, other: (usize, usize))
    ensures
        !without(w, addr, tid).contains((addr, tid)),
        other != (addr, tid) ==> (without(w, addr, tid).contains(other) <==> w.contains(other)),
    decreases w.len(),
{
    if w.len() > 0 {
        let p = w.drop_last();
        let d = without(p, addr, tid);
        let e = without(w, addr, tid);
        forgotten_waits_are_gone(p, addr, tid, other);
        if other != (addr, tid) {
            if w.contains(other) {
                let k = choose|k: int| 0 <= k < w.len() && w[k] == other;
                if k < w.len() - 1 {
                    assert(p[k] == other);
                    let m = choose|m: int| 0 <= m < d.len() && d[m] == other;
                    assert(e[m] == other);
                } else {
                    assert(e[e.len() - 1] == other);
                }
            }
            if e.contains(other) {
                let m = choose|m: int| 0 <= m < e.len() && e[m] == other;
                if m < d.len() {
                    assert(d[m] == other);
                    let k = choose|k: int| 0 <= k < p.len() && p[k] == other;
                    assert(w[k] == other);
                } else {
                    assert(w[w.len() - 1] == other);
                }
            }
        }
        if e.contains((addr, tid)) {
            let m = choose|m: int| 0 <= m < e.len() && e[m] == (addr, tid);
            if m < d.len() {
                assert(d[m] == (addr, tid));
            }
        }
    }
}

/// The handler of a parent learns of its child: once the parent was told, the
/// delivery of signal 17 stores in the `siginfo_t` the code 1, the child's number
/// and its exit status.
pub proof fn parent_learns_of_child(
    a: Scheduler,
    b: Scheduler,
    i: int,
    pid: usize,
    code: i32,
    t0: UserRegs,
    m0: Map<int, u8>,
    fp: Seq<u8>,
    trampoline: usize,
    s1: SignalState,
    t1: UserRegs,
    m1: Map<int, u8>,
)
    requires
        a.wf(),
        b.wf(),
        0 <= i < a.threads@.len(),
        a.threads@[i].process is Some,
        posted(
            a,
            b,
            i,
            SIGCHLD,
            (SigInfo { code: CLD_EXITED, pid: pid as i32, status: code, ..no_info() }),
        ),
        t0.wf(),
        fp.len() <= FP_SIZE,
        is_caught(b.threads@[i].process->0.sig) ==> stack_ok(b.threads@[i].process->0.sig, t0),
        deliver_post(b.threads@[i].process->0.sig, t0, m0, fp, trampoline, Outcome::Handler, s1, t1, m1),
        t1.x@[10] == 17,
    ensures
        b.threads@[i].process->0.sig.pending & 0x1_0000 != 0,
        b.threads@[i].state != State::Blocked,
        num_at(m1, t1.x@[11] as int, 4) == 17,
        num_at(m1, t1.x@[11] + 8, 4) == 1,
        num_at(m1, t1.x@[11] + 16, 4) == (pid as i32) as u32,
        num_at(m1, t1.x@[11] + 20, 4) == 0,
        num_at(m1, t1.x@[11] + 24, 4) == code as u32,
{
    let s = b.threads@[i].process->0.sig;
    assert(a.threads@[i].process->0.wf());
    crate::task::signal::handler_is_told(s, t0, m0, fp, trampoline, s1, t1, m1);
    let p = a.threads@[i].process->0.sig.pending;
    assert((p | (1u64 << 16u64)) & 0x1_0000 != 0) by (bit_vector);
    assert(bit(17) == 1u64 << 16u64);
}

/// A signal goes to the thread of its number, or for a number that is not positive
/// to a process of the sender's group.
pub proof fn signals_reach_their_target(s: Scheduler, pid: i32, i: int)
    requires
        target_of(s, pid, i),
    ensures
        0 <= i < s.threads@.len(),
        pid > 0 ==> s.threads@[i].tid == pid,
        pid <= 0 ==> s.threads@[i].process is Some,
        pid <= 0 && s.cur().process is Some ==> s.threads@[i].process->0.pgid
            == s.cur().process->0.pgid,
{
}

/// A thread that waits for a word does so only while the word holds the value it
/// saw; then it is among the waiters, and waking the word reaches it.
pub proof fn waiter_is_found(
    a: Scheduler,
    w: Waiters,
    m: Map<int, u8>,
    uaddr: usize,
    val: u32,
    r: FutexStep,
    b: Scheduler,
    w1: Waiters,
)
    requires
        wait_post(a, w, m, uaddr, val, r, b, w1),
        mapped(m, uaddr as int, 4),
    ensures
        r is Wait <==> num_at(m, uaddr as int, 4) == val,
        r is Wait ==> waiting(w1, uaddr).contains(a.cur().tid),
        !(r is Wait) ==> w1 == w && r == FutexStep::Done(Err(EAGAIN)),
{
    if r is Wait {
        assert(w1[w1.len() - 1] == (uaddr, a.cur().tid));
        assert(w1.contains((uaddr, a.cur().tid)));
        waiters_are_those_who_wait(w1, uaddr, a.cur().tid);
    }
}

} // verus!
