//! Signal system calls of a task control block. The memory that a call names
//! must be accessible.

use vstd::prelude::*;
use crate::bytes::{le, lemma_le_len, put_le};
use crate::sigset::member;
use crate::syscall::sigcalls::{action_at, action_bytes};
use crate::task::processor::Processor;
use crate::task::signal::{SigAction, SignalState};
use crate::task::tcb::{TaskControlBlock, TaskControlBlockInner};
use crate::uaccess::{field, mapped, num_at, stored, UserMem};

verus! {

pub const EINTR: isize = -4;
pub const ESRCH: isize = -3;
pub const EINVAL: isize = -22;

fn read_sigaction(mem: &UserMem, ptr: usize) -> (r: SigAction)
    requires
        mapped(mem@, ptr as int, 32),
    ensures
        r == action_at(mem@, ptr as int),
{
    match mem.copy_from_user(ptr, 32) {
        Ok(b) => {
            let handler: u64 = field(&b, 0, 8, Ghost(mem@), Ghost(ptr as int));
            let flags: u64 = field(&b, 8, 8, Ghost(mem@), Ghost(ptr as int));
            let restorer: u64 = field(&b, 16, 8, Ghost(mem@), Ghost(ptr as int));
            let mask: u64 = field(&b, 24, 8, Ghost(mem@), Ghost(ptr as int));
            SigAction { handler: handler as usize, flags, restorer: restorer as usize, mask }
        },
        Err(_) => SigAction { handler: 0, flags: 0, restorer: 0, mask: 0 },
    }
}

/// Memory after an action was told; a null pointer is passed over.
pub open spec fn action_told(m: Map<int, u8>, ptr: usize, a: SigAction) -> Map<int, u8> {
    if ptr == 0 {
        m
    } else {
        stored(m, ptr as int, action_bytes(a))
    }
}

fn write_sigaction(mem: &mut UserMem, ptr: usize, a: SigAction)
    requires
        ptr != 0 ==> mapped(old(mem)@, ptr as int, 32),
    ensures
        final(mem)@ == action_told(old(mem)@, ptr, a),
{
    if ptr == 0 {
        return ;
    }
    let mut b: Vec<u8> = Vec::new();
    put_le(&mut b, a.handler as u64, 8);
    put_le(&mut b, a.flags, 8);
    put_le(&mut b, a.restorer as u64, 8);
    put_le(&mut b, a.mask, 8);
    proof {
        broadcast use crate::bytes::lemma_le_len;

        assert(b@ =~= action_bytes(a));
        assert(b@.len() == 32);
    }
    let _ = mem.copy_to_user(ptr, &b);
}

/// Sets the action of a signal, then tells the former one.
pub fn sys_rt_sigaction(s: &mut SignalState, mem: &mut UserMem, signum: usize, act: usize, oldact: usize) -> (r:
    isize)
    requires
        old(s).wf(),
        act != 0 ==> mapped(old(mem)@, act as int, 32),
        oldact != 0 ==> mapped(old(mem)@, oldact as int, 32),
    ensures
        final(s).wf(),
        if signum == 0 || signum > 64 {
            r == EINVAL && *final(s) == *old(s) && final(mem)@ == old(mem)@
        } else {
            &&& r == 0
            &&& final(s).actions@ == (if act != 0 {
                old(s).actions@.update(signum as int, action_at(old(mem)@, act as int))
            } else {
                old(s).actions@
            })
            &&& *final(s) == (SignalState { actions: final(s).actions, ..*old(s) })
            &&& final(mem)@ == action_told(
                old(mem)@,
                oldact,
                old(s).actions@[signum as int],
            )
        },
{
    if signum == 0 || signum > 64 {
        return EINVAL;
    }
    let was: SigAction = s.actions[signum];
    if act != 0 {
        let a: SigAction = read_sigaction(mem, act);
        s.actions.set(signum, a);
    }
    write_sigaction(mem, oldact, was);
    0
}

/// The mask after a change: signals are added, taken out, or the mask is set;
/// any other request leaves it alone.
pub open spec fn new_mask(how: usize, mask: u64, set: u64) -> u64 {
    if how == 0 {
        mask | set
    } else if how == 1 {
        mask & !set
    } else if how == 2 {
        set
    } else {
        mask
    }
}

/// Changes the signal mask, then tells the former one.
pub fn sys_rt_sigprocmask(s: &mut SignalState, mem: &mut UserMem, how: usize, set: usize, oldset: usize) -> (r:
    isize)
    requires
        old(s).wf(),
        set != 0 ==> mapped(old(mem)@, set as int, 8),
        oldset != 0 ==> mapped(old(mem)@, oldset as int, 8),
    ensures
        r == 0,
        final(s).wf(),
        *final(s) == (SignalState {
            blocked: if set != 0 {
                new_mask(how, old(s).blocked, num_at(old(mem)@, set as int, 8) as u64)
            } else {
                old(s).blocked
            },
            ..*old(s)
        }),
        final(mem)@ == (if oldset != 0 {
            stored(old(mem)@, oldset as int, le(old(s).blocked as nat, 8))
        } else {
            old(mem)@
        }),
{
    let was: u64 = s.blocked;
    if set != 0 {
        let m: u64 = match mem.read_num(set, 8) {
            Ok(v) => v,
            Err(_) => 0,
        };
        s.blocked = match how {
            0 => was | m,
            1 => was & !m,
            2 => m,
            _ => was,
        };
    }
    if oldset != 0 {
        let _ = mem.write_num(oldset, was, 8);
    }
    0
}

/// Starts to wait for a signal under another mask; gives the former mask.
pub fn sys_rt_sigsuspend(s: &mut SignalState, mem: &UserMem, mask: usize) -> (was: u64)
    requires
        mapped(mem@, mask as int, 8),
    ensures
        was == old(s).blocked,
        *final(s) == (SignalState { blocked: num_at(mem@, mask as int, 8) as u64, ..*old(s) }),
{
    let was: u64 = s.blocked;
    match mem.read_num(mask, 8) {
        Ok(v) => {
            s.blocked = v;
        },
        Err(_) => {},
    }
    was
}

/// Ends the wait once a signal can be delivered: the call fails as interrupted.
/// The mask stays in force until that signal is delivered, which brings the
/// former one back. `None` to wait on.
pub fn sigsuspend_round(s: &mut SignalState, was: u64) -> (r: Option<isize>)
    ensures
        if old(s).pending & !old(s).blocked != 0 {
            r == Some(EINTR) && *final(s) == (SignalState {
                in_sigsuspend: true,
                suspended_mask: was,
                ..*old(s)
            })
        } else {
            r is None && *final(s) == *old(s)
        },
{
    if s.pending & !s.blocked != 0 {
        s.in_sigsuspend = true;
        s.suspended_mask = was;
        return Some(EINTR);
    }
    None
}

/// `i` is the first task with a number.
pub open spec fn has_pid(t: Seq<TaskControlBlock>, pid: usize, i: int) -> bool {
    &&& 0 <= i < t.len()
    &&& t[i].pid == pid
    &&& forall|j: int| 0 <= j < i ==> (#[trigger] t[j]).pid != pid
}

fn find_task_by_pid(t: &Vec<TaskControlBlock>, pid: usize) -> (r: Option<usize>)
    ensures
        match r {
            Some(i) => has_pid(t@, pid, i as int),
            None => forall|i: int| !has_pid(t@, pid, i),
        },
{
    let n: usize = t.len();
    let mut i: usize = 0;
    while i < n
        invariant
            i <= n == t@.len(),
            forall|j: int| 0 <= j < i ==> (#[trigger] t@[j]).pid != pid,
        decreases n - i,
    {
        if t[i].pid == pid {
            return Some(i);
        }
        i = i + 1;
    }
    None
}

/// Signal state after a signal was raised.
pub open spec fn raised(s: SignalState, sig: i32) -> SignalState {
    if 0 < sig < 65 {
        SignalState { pending: s.pending | crate::sigset::bit(sig as int), ..s }
    } else {
        s
    }
}

pub open spec fn kill_post(a: Processor, pid: isize, sig: i32, r: isize, b: Processor) -> bool {
    let p = pid as usize;
    if pid <= 0 || sig < 0 {
        r == 0 && b == a
    } else {
        &&& b.ready == a.ready && b.current == a.current
        &&& (forall|i: int| !has_pid(a.tasks@, p, i)) ==> r == ESRCH && b == a
        &&& forall|i: int| #[trigger]
            has_pid(a.tasks@, p, i) ==> {
                let t = a.tasks@[i];
                r == 0 && b.tasks@ == a.tasks@.update(
                    i,
                    TaskControlBlock {
                        inner: TaskControlBlockInner {
                            signals: raised(t.inner.signals, sig),
                            ..t.inner
                        },
                        ..t
                    },
                )
            }
    }
}

/// Sends a signal to a task. Signal 0 only asks whether the task exists; groups
/// of processes are not known, and asking for one succeeds.
pub fn sys_kill(p: &mut Processor, pid: isize, sig: i32) -> (r: isize)
    requires
        old(p).wf(),
        forall|i: int| 0 <= i < old(p).tasks@.len() ==> (#[trigger] old(p).tasks@[i]).inner.signals.wf(),
    ensures
        final(p).wf(),
        kill_post(*old(p), pid, sig, r, *final(p)),
{
    if pid <= 0 || sig < 0 {
        return 0;
    }
    let ghost ts = p.tasks@;
    let ghost n = pid as usize;
    match find_task_by_pid(&p.tasks, pid as usize) {
        None => ESRCH,
        Some(i) => {
            proof {
                assert forall|k: int| #[trigger] has_pid(ts, n, k) implies k == i by {}
                assert(p.tasks@[i as int].inner.signals.wf());
            }
            if sig != 0 {
                p.tasks[i].inner.signals.raise(sig as usize);
            }
            proof {
                assert(p.tasks@ =~= ts.update(i as int, p.tasks@[i as int]));
            }
            0
        },
    }
}

/// Sends a signal to a thread, which is the same here.
pub fn sys_tgkill(p: &mut Processor, pid: isize, sig: i32) -> (r: isize)
    requires
        old(p).wf(),
        forall|i: int| 0 <= i < old(p).tasks@.len() ==> (#[trigger] old(p).tasks@[i]).inner.signals.wf(),
    ensures
        final(p).wf(),
        kill_post(*old(p), pid, sig, r, *final(p)),
{
    sys_kill(p, pid, sig)
}

/// Changing the mask acts signal by signal: 0 blocks those of the set too, 1
/// unblocks them, 2 blocks exactly them; anything else leaves the mask alone.
pub proof fn mask_changes_by_signal(how: usize, mask: u64, set: u64, sig: int)
    requires
        1 <= sig <= 64,
    ensures
        how == 0 ==> (member(new_mask(how, mask, set), sig) <==> member(mask, sig) || member(
            set,
            sig,
        )),
        how == 1 ==> (member(new_mask(how, mask, set), sig) <==> member(mask, sig) && !member(
            set,
            sig,
        )),
        how == 2 ==> (member(new_mask(how, mask, set), sig) <==> member(set, sig)),
        how > 2 ==> new_mask(how, mask, set) == mask,
{
    crate::sigset::set_algebra(mask, set, sig);
}

/// A signal that is sent is pending afterwards, and no other one changes.
pub proof fn sent_is_pending(s: SignalState, sig: i32, other: int)
    requires
        0 < sig < 65,
        1 <= other <= 64,
    ensures
        member(raised(s, sig).pending, other) <==> other == sig || member(s.pending, other),
{
    crate::sigset::one_signal(s.pending, sig as int, other);
}

} // verus!
