//! System calls about signals.

use vstd::prelude::*;
use crate::abi::{
    NSIG, SIGKILL, SIGSTOP, SIG_BLOCK, SIG_SETMASK, SIG_UNBLOCK, SI_USER, SS_DISABLE,
};
use crate::bytes::{le, lemma_le_len, put_le, zeros, put_zeros};
use crate::errno::{SysResult, EAGAIN, EFAULT, EINTR, EINVAL, ENOMEM, ESRCH};
use crate::sigset::{bit, bit_of, bits_differ, lowest, lowest_of, member, set_algebra};
use crate::syscall::process::{err, lemma_mapped_stored, ok};
use crate::syscall::timespec::{capped, read_ts, ts_at};
use crate::task::control::{
    is_task, siginfo, siginfo_bytes, siginfo_vec, KSigAction, SigInfo, StackT, TaskCtl, Tasks,
};
use crate::uaccess::{field, mapped, num_at, stored, stored_field, stored_opt, UserMem};

verus! {

pub open spec fn action_bytes(a: KSigAction) -> Seq<u8> {
    le(a.handler as nat, 8) + le(a.flags as nat, 8) + le(a.mask as nat, 8)
}

pub open spec fn action_at(m: Map<int, u8>, addr: int) -> KSigAction {
    KSigAction {
        handler: num_at(m, addr, 8) as u64,
        flags: num_at(m, addr + 8, 8) as u64,
        mask: num_at(m, addr + 16, 8) as u64,
    }
}

fn action_vec(a: &KSigAction) -> (v: Vec<u8>)
    ensures
        v@ == action_bytes(*a),
        v@.len() == 24,
{
    let mut v: Vec<u8> = Vec::new();
    put_le(&mut v, a.handler, 8);
    put_le(&mut v, a.flags, 8);
    put_le(&mut v, a.mask, 8);
    proof {
        broadcast use crate::bytes::lemma_le_len;

        assert(v@ =~= action_bytes(*a));
    }
    v
}

fn read_action(mem: &UserMem, addr: usize) -> (r: Result<KSigAction, i32>)
    ensures
        match r {
            Ok(a) => mapped(mem@, addr as int, 24) && a == action_at(mem@, addr as int),
            Err(e) => !mapped(mem@, addr as int, 24) && e == EFAULT,
        },
{
    match mem.copy_from_user(addr, 24) {
        Ok(v) => Ok(
            KSigAction {
                handler: field(&v, 0, 8, Ghost(mem@), Ghost(addr as int)),
                flags: field(&v, 8, 8, Ghost(mem@), Ghost(addr as int)),
                mask: field(&v, 16, 8, Ghost(mem@), Ghost(addr as int)),
            },
        ),
        Err(e) => Err(e),
    }
}

/// Gets and sets the handling of a signal. The old handling is stored first;
/// two signals cannot be handled.
pub fn sys_rt_sigaction(
    t: &mut TaskCtl,
    mem: &mut UserMem,
    sig: i32,
    act: usize,
    oldact: usize,
    sigsetsize: usize,
) -> (r: SysResult)
    requires
        old(t).wf(),
    ensures
        final(t).wf(),
        ({
            let m = old(mem)@;
            let m1 = stored_opt(m, oldact as int, action_bytes(old(t).actions@[sig as int]));
            if sigsetsize != 8 || sig < 1 || sig >= NSIG {
                r == err(EINVAL) && final(mem)@ == m && *final(t) == *old(t)
            } else if oldact != 0 && !mapped(m, oldact as int, 24) {
                r == err(EFAULT) && final(mem)@ == m && *final(t) == *old(t)
            } else if act != 0 && (sig == SIGKILL || sig == SIGSTOP) {
                r == err(EINVAL) && final(mem)@ == m1 && *final(t) == *old(t)
            } else if act != 0 && !mapped(m, act as int, 24) {
                r == err(EFAULT) && final(mem)@ == m1 && *final(t) == *old(t)
            } else {
                &&& r == ok(0)
                &&& final(mem)@ == m1
                &&& final(t).actions@ == (if act != 0 {
                    old(t).actions@.update(sig as int, action_at(m1, act as int))
                } else {
                    old(t).actions@
                })
                &&& *final(t) == (TaskCtl { actions: final(t).actions, ..*old(t) })
            }
        }),
{
    if sigsetsize != 8 || sig < 1 || sig as usize >= NSIG {
        return Err(EINVAL);
    }
    let i: usize = sig as usize;
    proof {
        lemma_mapped_stored(mem@, oldact as int, action_bytes(t.actions@[sig as int]));
    }
    if oldact != 0 {
        let v: Vec<u8> = action_vec(&t.actions[i]);
        match mem.copy_to_user(oldact, &v) {
            Ok(_) => {},
            Err(e) => {
                return Err(e);
            },
        }
    }
    if act != 0 {
        if sig == SIGKILL || sig == SIGSTOP {
            return Err(EINVAL);
        }
        match read_action(mem, act) {
            Ok(a) => {
                t.actions.set(i, a);
            },
            Err(e) => {
                return Err(e);
            },
        }
    }
    Ok(0)
}

/// The signals that can be blocked.
pub open spec fn blockable(s: u64) -> u64 {
    s & !(bit(SIGKILL as int) | bit(SIGSTOP as int))
}

fn to_blockable(s: u64) -> (r: u64)
    ensures
        r == blockable(s),
{
    s & !(bit_of(9) | bit_of(19))
}

/// The mask that a request makes of `mask`.
pub open spec fn new_mask(how: i32, mask: u64, s: u64) -> Option<u64> {
    if how == SIG_BLOCK {
        Some(mask | blockable(s))
    } else if how == SIG_UNBLOCK {
        Some(mask & !blockable(s))
    } else if how == SIG_SETMASK {
        Some(blockable(s))
    } else {
        None
    }
}

/// Gets and changes the signal mask. The old mask is stored first.
pub fn sys_rt_sigprocmask(
    t: &mut TaskCtl,
    mem: &mut UserMem,
    how: i32,
    set: usize,
    oldset: usize,
    sigsetsize: usize,
) -> (r: SysResult)
    ensures
        ({
            let m = old(mem)@;
            let m1 = stored_opt(m, oldset as int, le(old(t).sigmask as nat, 8));
            let mask = new_mask(how, old(t).sigmask, num_at(m1, set as int, 8) as u64);
            if sigsetsize != 8 {
                r == err(EINVAL) && final(mem)@ == m && *final(t) == *old(t)
            } else if oldset != 0 && !mapped(m, oldset as int, 8) {
                r == err(EFAULT) && final(mem)@ == m && *final(t) == *old(t)
            } else if set != 0 && !mapped(m, set as int, 8) {
                r == err(EFAULT) && final(mem)@ == m1 && *final(t) == *old(t)
            } else if set != 0 && mask is None {
                r == err(EINVAL) && final(mem)@ == m1 && *final(t) == *old(t)
            } else {
                &&& r == ok(0)
                &&& final(mem)@ == m1
                &&& *final(t) == (TaskCtl {
                    sigmask: if set != 0 {
                        mask->0
                    } else {
                        old(t).sigmask
                    },
                    ..*old(t)
                })
            }
        }),
{
    if sigsetsize != 8 {
        return Err(EINVAL);
    }
    proof {
        lemma_mapped_stored(mem@, oldset as int, le(t.sigmask as nat, 8));
    }
    if oldset != 0 {
        match mem.write_num(oldset, t.sigmask, 8) {
            Ok(_) => {},
            Err(e) => {
                return Err(e);
            },
        }
    }
    if set != 0 {
        let s: u64 = match mem.read_num(set, 8) {
            Ok(s) => to_blockable(s),
            Err(e) => {
                return Err(e);
            },
        };
        match how {
            SIG_BLOCK => {
                t.sigmask = t.sigmask | s;
            },
            SIG_UNBLOCK => {
                t.sigmask = t.sigmask & !s;
            },
            SIG_SETMASK => {
                t.sigmask = s;
            },
            _ => {
                return Err(EINVAL);
            },
        }
    }
    Ok(0)
}

/// The pending signals that are blocked.
pub fn sys_rt_sigpending(t: &TaskCtl, mem: &mut UserMem, set: usize, sigsetsize: usize) -> (r:
    SysResult)
    ensures
        if sigsetsize != 8 {
            r == err(EINVAL) && final(mem)@ == old(mem)@
        } else if !mapped(old(mem)@, set as int, 8) {
            r == err(EFAULT) && final(mem)@ == old(mem)@
        } else {
            &&& r == ok(0)
            &&& final(mem)@ == stored(
                old(mem)@,
                set as int,
                le((t.pending & t.sigmask) as nat, 8),
            )
        },
{
    if sigsetsize != 8 {
        return Err(EINVAL);
    }
    match mem.write_num(set, t.pending & t.sigmask, 8) {
        Ok(_) => Ok(0),
        Err(e) => Err(e),
    }
}

/// Puts a mask in force for the time of a wait. The task then sleeps until a
/// signal is deliverable, and the call ends with `EINTR`; the old mask is back
/// when the signal is delivered.
pub fn sys_rt_sigsuspend(t: &mut TaskCtl, mem: &UserMem, mask: usize, sigsetsize: usize) -> (r:
    Result<(), i32>)
    ensures
        if sigsetsize != 8 {
            r == Err::<(), i32>(EINVAL) && *final(t) == *old(t)
        } else if !mapped(mem@, mask as int, 8) {
            r == Err::<(), i32>(EFAULT) && *final(t) == *old(t)
        } else {
            &&& r == Ok::<(), i32>(())
            &&& *final(t) == (TaskCtl {
                saved_sigmask: Some(old(t).sigmask),
                sigmask: blockable(num_at(mem@, mask as int, 8) as u64),
                ..*old(t)
            })
        },
{
    if sigsetsize != 8 {
        return Err(EINVAL);
    }
    match mem.read_num(mask, 8) {
        Ok(new) => {
            t.saved_sigmask = Some(t.sigmask);
            t.sigmask = to_blockable(new);
            Ok(())
        },
        Err(e) => Err(e),
    }
}

/// What a suspended task does when it runs: it goes on sleeping until a signal
/// is deliverable.
pub fn sigsuspend_woken(t: &TaskCtl) -> (r: Option<SysResult>)
    ensures
        r == (if t.pending & !t.sigmask != 0 {
            Some(err(EINTR))
        } else {
            None
        }),
{
    if t.pending & !t.sigmask != 0 {
        Some(Err(EINTR))
    } else {
        None
    }
}

/// What a timed wait asks for.
#[derive(Clone, Copy, PartialEq, Eq, Structural, Debug)]
pub struct SigWait {
    pub want: u64,
    pub deadline: Option<u64>,
}

/// Reads what a timed wait asks for; `now` is the monotonic time.
pub fn sigtimedwait_request(
    mem: &UserMem,
    set: usize,
    timeout: usize,
    sigsetsize: usize,
    now: u64,
) -> (r: Result<SigWait, i32>)
    ensures
        r == (if sigsetsize != 8 {
            Err::<SigWait, i32>(EINVAL)
        } else if !mapped(mem@, set as int, 8) || (timeout != 0 && !mapped(
            mem@,
            timeout as int,
            16,
        )) {
            Err::<SigWait, i32>(EFAULT)
        } else {
            Ok::<SigWait, i32>(
                SigWait {
                    want: num_at(mem@, set as int, 8) as u64,
                    deadline: if timeout != 0 {
                        Some(capped(now + ts_at(mem@, timeout as int)) as u64)
                    } else {
                        None
                    },
                },
            )
        }),
{
    if sigsetsize != 8 {
        return Err(EINVAL);
    }
    let want: u64 = match mem.read_num(set, 8) {
        Ok(w) => w,
        Err(e) => {
            return Err(e);
        },
    };
    let deadline: Option<u64> = if timeout != 0 {
        match read_ts(mem, timeout) {
            Ok(ns) => Some(now.saturating_add(ns)),
            Err(e) => {
                return Err(e);
            },
        }
    } else {
        None
    };
    Ok(SigWait { want, deadline })
}

/// `i` is the first entry about a signal.
pub open spec fn first_info(l: Seq<SigInfo>, sig: int, i: int) -> bool {
    &&& 0 <= i < l.len()
    &&& l[i].signo == sig
    &&& forall|j: int| 0 <= j < i ==> (#[trigger] l[j]).signo != sig
}

fn find_info(l: &Vec<SigInfo>, sig: i32) -> (r: Option<usize>)
    ensures
        match r {
            Some(i) => first_info(l@, sig as int, i as int),
            None => !exists|i: int| first_info(l@, sig as int, i),
        },
{
    let n: usize = l.len();
    let mut i: usize = 0;
    while i < n
        invariant
            i <= n == l@.len(),
            forall|j: int| 0 <= j < i ==> (#[trigger] l@[j]).signo != sig,
        decreases n - i,
    {
        if l[i].signo == sig {
            return Some(i);
        }
        i = i + 1;
    }
    None
}

/// What is known of a pending signal, and the entries without it.
pub open spec fn take_info(l: Seq<SigInfo>, sig: int) -> (SigInfo, Seq<SigInfo>) {
    if exists|i: int| first_info(l, sig, i) {
        let i = choose|i: int| first_info(l, sig, i);
        (l[i], l.remove(i))
    } else {
        (siginfo(sig as i32), l)
    }
}

/// One round of a timed wait: a wanted signal is taken, another one interrupts,
/// the deadline ends it, or the task sleeps (`None`).
pub fn sys_rt_sigtimedwait(
    t: &mut TaskCtl,
    mem: &mut UserMem,
    w: SigWait,
    info: usize,
    now: u64,
) -> (r: Option<SysResult>)
    ensures
        ({
            let avail = old(t).pending & w.want;
            let sig = lowest(avail);
            let (si, rest) = take_info(old(t).infos@, sig);
            if avail != 0 {
                &&& final(t).pending == old(t).pending & !bit(sig)
                &&& final(t).infos@ == rest
                &&& *final(t) == (TaskCtl {
                    pending: final(t).pending,
                    infos: final(t).infos,
                    ..*old(t)
                })
                &&& if info != 0 && !mapped(old(mem)@, info as int, 128) {
                    r == Some(err(EFAULT)) && final(mem)@ == old(mem)@
                } else {
                    &&& r == Some(ok(sig))
                    &&& final(mem)@ == stored_opt(old(mem)@, info as int, siginfo_bytes(si))
                }
            } else {
                &&& *final(t) == *old(t) && final(mem)@ == old(mem)@
                &&& r == (if old(t).pending & !old(t).sigmask & !w.want != 0 {
                    Some(err(EINTR))
                } else if w.deadline is Some && now >= w.deadline->0 {
                    Some(err(EAGAIN))
                } else {
                    None
                })
            }
        }),
{
    let avail: u64 = t.pending & w.want;
    if avail != 0 {
        let sig: usize = lowest_of(avail);
        t.pending = t.pending & !bit_of(sig);
        let si: SigInfo = match find_info(&t.infos, sig as i32) {
            Some(i) => {
                let ghost l = t.infos@;
                proof {
                    let k = choose|k: int| first_info(l, sig as int, k);
                    assert(first_info(l, sig as int, i as int));
                    assert(k == i);
                }
                t.infos.remove(i)
            },
            None => SigInfo { signo: sig as i32, code: 0, pid: 0, uid: 0, status: 0 },
        };
        if info != 0 {
            let v: Vec<u8> = siginfo_vec(&si);
            match mem.copy_to_user(info, &v) {
                Ok(_) => {},
                Err(e) => {
                    return Some(Err(e));
                },
            }
        }
        return Some(Ok(sig));
    }
    if t.pending & !t.sigmask & !w.want != 0 {
        return Some(Err(EINTR));
    }
    match w.deadline {
        Some(d) => {
            if now >= d {
                return Some(Err(EAGAIN));
            }
        },
        None => {},
    }
    None
}

/// What returning from a handler returns: register `a0` of the restored
/// program, or the error of restoring it.
pub fn sys_rt_sigreturn(restored: Result<usize, i32>) -> (r: SysResult)
    ensures
        r == restored,
{
    restored
}

pub open spec fn stack_bytes(s: StackT) -> Seq<u8> {
    le(s.sp as nat, 8) + le(s.flags as nat, 4) + zeros(4) + le(s.size as nat, 8)
}

pub open spec fn stack_at(m: Map<int, u8>, addr: int) -> StackT {
    StackT {
        sp: num_at(m, addr, 8) as u64,
        flags: num_at(m, addr + 8, 4) as u32,
        size: num_at(m, addr + 16, 8) as u64,
    }
}

pub open spec fn no_stack() -> StackT {
    StackT { sp: 0, flags: 0, size: 0 }
}

/// The smallest alternate stack.
pub const MINSIGSTKSZ: u64 = 2048;

/// Gets and sets the alternate signal stack.
pub fn sys_sigaltstack(t: &mut TaskCtl, mem: &mut UserMem, ss: usize, old_ss: usize) -> (r:
    SysResult)
    ensures
        ({
            let m = old(mem)@;
            let cur = old(t).altstack;
            let shown = if cur.sp == 0 {
                StackT { flags: SS_DISABLE as u32, ..cur }
            } else {
                cur
            };
            let m1 = stored_opt(m, old_ss as int, stack_bytes(shown));
            let new = stack_at(m1, ss as int);
            if old_ss != 0 && !mapped(m, old_ss as int, 24) {
                r == err(EFAULT) && final(mem)@ == m && *final(t) == *old(t)
            } else if ss != 0 && !mapped(m, ss as int, 24) {
                r == err(EFAULT) && final(mem)@ == m1 && *final(t) == *old(t)
            } else if ss != 0 && new.flags & SS_DISABLE as u32 == 0 && new.size < MINSIGSTKSZ {
                r == err(ENOMEM) && final(mem)@ == m1 && *final(t) == *old(t)
            } else {
                &&& r == ok(0)
                &&& final(mem)@ == m1
                &&& *final(t) == (TaskCtl {
                    altstack: if ss == 0 {
                        cur
                    } else if new.flags & SS_DISABLE as u32 != 0 {
                        no_stack()
                    } else {
                        StackT { flags: 0, ..new }
                    },
                    ..*old(t)
                })
            }
        }),
{
    if old_ss != 0 {
        let mut out: StackT = t.altstack;
        if out.sp == 0 {
            out.flags = SS_DISABLE as u32;
        }
        let mut v: Vec<u8> = Vec::new();
        put_le(&mut v, out.sp, 8);
        put_le(&mut v, out.flags as u64, 4);
        put_zeros(&mut v, 4);
        put_le(&mut v, out.size, 8);
        proof {
            broadcast use crate::bytes::lemma_le_len;

            assert(v@ =~= stack_bytes(out));
            lemma_mapped_stored(mem@, old_ss as int, stack_bytes(out));
        }
        match mem.copy_to_user(old_ss, &v) {
            Ok(_) => {},
            Err(e) => {
                return Err(e);
            },
        }
    }
    if ss != 0 {
        proof {
            crate::bytes::lemma_span();
        }
        let new: StackT = match mem.copy_from_user(ss, 24) {
            Ok(v) => StackT {
                sp: field(&v, 0, 8, Ghost(mem@), Ghost(ss as int)),
                flags: field(&v, 8, 4, Ghost(mem@), Ghost(ss as int)) as u32,
                size: field(&v, 16, 8, Ghost(mem@), Ghost(ss as int)),
            },
            Err(e) => {
                return Err(e);
            },
        };
        if new.flags & SS_DISABLE as u32 != 0 {
            t.altstack = StackT { sp: 0, flags: 0, size: 0 };
        } else {
            if new.size < MINSIGSTKSZ {
                return Err(ENOMEM);
            }
            t.altstack = StackT { sp: new.sp, flags: 0, size: new.size };
        }
    }
    Ok(0)
}

/// A signal on its way: to whom it goes, by place in the task list, and what
/// it says.
pub struct Kill {
    pub result: SysResult,
    pub targets: Vec<usize>,
    pub info: SigInfo,
}

/// The tasks that a condition selects, in order.
pub open spec fn chosen(l: Seq<TaskCtl>, p: spec_fn(TaskCtl) -> bool) -> Seq<usize>
    decreases l.len(),
{
    if l.len() == 0 {
        Seq::empty()
    } else {
        let rest = chosen(l.drop_last(), p);
        if p(l.last()) {
            rest.push((l.len() - 1) as usize)
        } else {
            rest
        }
    }
}

fn in_group(l: &Vec<TaskCtl>, pgid: i32) -> (r: Vec<usize>)
    ensures
        r@ == chosen(l@, |t: TaskCtl| t.pgid == pgid),
{
    let ghost p = |t: TaskCtl| t.pgid == pgid;
    let n: usize = l.len();
    let mut r: Vec<usize> = Vec::new();
    let mut i: usize = 0;
    proof {
        assert(l@.take(0) =~= Seq::empty());
        assert(r@ =~= chosen(l@.take(0), p));
    }
    while i < n
        invariant
            i <= n == l@.len(),
            p == (|t: TaskCtl| t.pgid == pgid),
            r@ == chosen(l@.take(i as int), p),
        decreases n - i,
    {
        proof {
            assert(l@.take(i + 1).drop_last() =~= l@.take(i as int));
            assert(l@.take(i + 1).last() == l@[i as int]);
        }
        if l[i].pgid == pgid {
            r.push(i);
        }
        i = i + 1;
    }
    proof {
        assert(l@.take(n as int) =~= l@);
    }
    r
}

fn all_but(l: &Vec<TaskCtl>, pid: i32) -> (r: Vec<usize>)
    ensures
        r@ == chosen(l@, |t: TaskCtl| t.pid != 1 && t.pid != pid),
{
    let ghost p = |t: TaskCtl| t.pid != 1 && t.pid != pid;
    let n: usize = l.len();
    let mut r: Vec<usize> = Vec::new();
    let mut i: usize = 0;
    proof {
        assert(l@.take(0) =~= Seq::empty());
        assert(r@ =~= chosen(l@.take(0), p));
    }
    while i < n
        invariant
            i <= n == l@.len(),
            p == (|t: TaskCtl| t.pid != 1 && t.pid != pid),
            r@ == chosen(l@.take(i as int), p),
        decreases n - i,
    {
        proof {
            assert(l@.take(i + 1).drop_last() =~= l@.take(i as int));
            assert(l@.take(i + 1).last() == l@[i as int]);
        }
        if l[i].pid != 1 && l[i].pid != pid {
            r.push(i);
        }
        i = i + 1;
    }
    proof {
        assert(l@.take(n as int) =~= l@);
    }
    r
}

/// Whom a kill request reaches: one task, the caller's group, everyone but the
/// first task and the caller, or a group. Signal 0 only asks whether there is
/// anyone.
pub open spec fn kill_plan(ts: Tasks, pid: i32, sig: i32) -> (SysResult, Seq<usize>) {
    let l = ts.list@;
    let me = ts.current();
    if sig < 0 || sig >= NSIG {
        (err(EINVAL), Seq::empty())
    } else if pid > 0 {
        if exists|i: int| is_task(l, pid, i) {
            let i = choose|i: int| is_task(l, pid, i);
            (
                ok(0),
                if sig != 0 {
                    seq![i as usize]
                } else {
                    Seq::empty()
                },
            )
        } else {
            (err(ESRCH), Seq::empty())
        }
    } else if sig == 0 {
        (ok(0), Seq::empty())
    } else if pid == 0 {
        (ok(0), chosen(l, |t: TaskCtl| t.pgid == me.pgid))
    } else if pid == -1 {
        (ok(0), chosen(l, |t: TaskCtl| t.pid != 1 && t.pid != me.pid))
    } else {
        let g = chosen(l, |t: TaskCtl| t.pgid == -pid);
        (
            if g.len() > 0 {
                ok(0)
            } else {
                err(ESRCH)
            },
            g,
        )
    }
}

/// Sends a signal to a task or to a group of tasks.
pub fn sys_kill(ts: &Tasks, pid: i32, sig: i32) -> (r: Kill)
    requires
        ts.wf(),
        pid > i32::MIN,
    ensures
        (r.result, r.targets@) == kill_plan(*ts, pid, sig),
        r.info == (SigInfo {
            signo: sig,
            code: SI_USER,
            pid: ts.current().pid,
            uid: ts.current().uid,
            status: 0,
        }),
{
    let me: usize = ts.cur;
    let info = SigInfo {
        signo: sig,
        code: SI_USER,
        pid: ts.list[me].pid,
        uid: ts.list[me].uid,
        status: 0,
    };
    let mut none: Vec<usize> = Vec::new();
    proof {
        assert(none@ =~= Seq::empty());
    }
    if sig < 0 || sig as usize >= NSIG {
        return Kill { result: Err(EINVAL), targets: none, info };
    }
    if pid > 0 {
        match ts.find(pid) {
            None => Kill { result: Err(ESRCH), targets: none, info },
            Some(i) => {
                proof {
                    let k = choose|k: int| is_task(ts.list@, pid, k);
                    assert(is_task(ts.list@, pid, i as int));
                    assert(k == i);
                }
                if sig != 0 {
                    none.push(i);
                    proof {
                        assert(none@ =~= seq![i]);
                    }
                }
                Kill { result: Ok(0), targets: none, info }
            },
        }
    } else if sig == 0 {
        Kill { result: Ok(0), targets: none, info }
    } else if pid == 0 {
        let g: i32 = ts.list[me].pgid;
        Kill { result: Ok(0), targets: in_group(&ts.list, g), info }
    } else if pid == -1 {
        let p: i32 = ts.list[me].pid;
        Kill { result: Ok(0), targets: all_but(&ts.list, p), info }
    } else {
        let targets: Vec<usize> = in_group(&ts.list, -pid);
        if targets.len() > 0 {
            Kill { result: Ok(0), targets, info }
        } else {
            Kill { result: Err(ESRCH), targets, info }
        }
    }
}

pub fn sys_tkill(ts: &Tasks, tid: i32, sig: i32) -> (r: Kill)
    requires
        ts.wf(),
        tid > i32::MIN,
    ensures
        (r.result, r.targets@) == kill_plan(*ts, tid, sig),
        r.info.signo == sig,
{
    sys_kill(ts, tid, sig)
}

pub fn sys_tgkill(ts: &Tasks, tgid: i32, tid: i32, sig: i32) -> (r: Kill)
    requires
        ts.wf(),
        tid > i32::MIN,
    ensures
        (r.result, r.targets@) == kill_plan(*ts, tid, sig),
        r.info.signo == sig,
{
    sys_kill(ts, tid, sig)
}

/// SIGKILL and SIGSTOP are never in the mask that a request makes, unless they
/// were before.
pub proof fn mask_spares_kill_and_stop(how: i32, mask: u64, s: u64)
    requires
        mask & bit(SIGKILL as int) == 0,
        mask & bit(SIGSTOP as int) == 0,
        new_mask(how, mask, s) is Some,
    ensures
        (new_mask(how, mask, s)->0) & bit(SIGKILL as int) == 0,
        (new_mask(how, mask, s)->0) & bit(SIGSTOP as int) == 0,
{
    let a = bit(SIGKILL as int);
    let b = bit(SIGSTOP as int);
    assert({
        let x = s & !(a | b);
        &&& (mask | x) & a == 0 && (mask | x) & b == 0
        &&& (mask & !x) & a == 0 && (mask & !x) & b == 0
        &&& x & a == 0 && x & b == 0
    }) by (bit_vector)
        requires
            mask & a == 0,
            mask & b == 0,
    ;
}

/// Changing the mask acts signal by signal: 0 blocks the signals of the set too, 1
/// unblocks them, 2 blocks exactly them; the two that cannot be blocked (9 and 19)
/// are never added. Nothing else is accepted.
pub proof fn mask_changes_by_signal(how: i32, mask: u64, set: u64, sig: int)
    requires
        1 <= sig <= 64,
    ensures
        new_mask(how, mask, set) is Some <==> 0 <= how <= 2,
        how == 0 ==> (member(new_mask(how, mask, set)->0, sig) <==> member(mask, sig) || (member(
            set,
            sig,
        ) && sig != 9 && sig != 19)),
        how == 1 ==> (member(new_mask(how, mask, set)->0, sig) <==> member(mask, sig) && !(member(
            set,
            sig,
        ) && sig != 9 && sig != 19)),
        how == 2 ==> (member(new_mask(how, mask, set)->0, sig) <==> member(set, sig) && sig != 9
            && sig != 19),
{
    let both = bit(9) | bit(19);
    set_algebra(bit(9), bit(19), sig);
    bits_differ(9, sig);
    bits_differ(19, sig);
    set_algebra(set, both, sig);
    set_algebra(mask, blockable(set), sig);
}

/// The tasks that are chosen are those for which the condition holds.
pub proof fn chosen_are_those(l: Seq<TaskCtl>, p: spec_fn(TaskCtl) -> bool, i: int)
    requires
        0 <= i < l.len() <= usize::MAX,
    ensures
        chosen(l, p).contains(i as usize) <==> p(l[i]),
{
    lemma_chosen_in(l, p, i);
}

proof fn lemma_chosen_in(l: Seq<TaskCtl>, p: spec_fn(TaskCtl) -> bool, i: int)
    requires
        l.len() <= usize::MAX,
        0 <= i <= usize::MAX,
    ensures
        chosen(l, p).contains(i as usize) <==> i < l.len() && p(l[i]),
    decreases l.len(),
{
    if l.len() > 0 {
        let q = l.drop_last();
        let d = chosen(q, p);
        let e = chosen(l, p);
        lemma_chosen_in(q, p, i);
        if i < l.len() - 1 {
            assert(q[i] == l[i]);
        }
        if p(l.last()) {
            assert(e == d.push((l.len() - 1) as usize));
            assert(e[e.len() - 1] == (l.len() - 1) as usize);
            if d.contains(i as usize) {
                let k = choose|k: int| 0 <= k < d.len() && d[k] == i as usize;
                assert(e[k] == i as usize);
            }
            if e.contains(i as usize) && i != l.len() - 1 {
                let k = choose|k: int| 0 <= k < e.len() && e[k] == i as usize;
                assert(d[k] == i as usize);
            }
        }
    }
}

/// Whom a signal reaches: the task with a positive number; for 0 the caller's
/// group; for -1 all but the first task and the caller; for any other negative
/// number the group of that number. Signal 0 reaches nobody.
pub proof fn signal_reaches(ts: Tasks, pid: i32, sig: i32, i: int)
    requires
        0 <= i < ts.list@.len() <= usize::MAX,
        pid > i32::MIN,
    ensures
        ({
            let t = kill_plan(ts, pid, sig).1;
            let x = ts.list@[i];
            &&& !(0 < sig <= 64) ==> t.len() == 0
            &&& 0 < sig <= 64 && pid > 0 ==> t.contains(i as usize) ==> x.pid == pid
            &&& 0 < sig <= 64 && pid > 0 && x.pid == pid ==> t.len() == 1 && kill_plan(
                ts,
                pid,
                sig,
            ).0 is Ok
            &&& 0 < sig <= 64 && pid == 0 ==> (t.contains(i as usize) <==> x.pgid == ts.current().pgid)
            &&& 0 < sig <= 64 && pid == -1 ==> (t.contains(i as usize) <==> x.pid != 1 && x.pid
                != ts.current().pid)
            &&& 0 < sig <= 64 && pid < -1 ==> (t.contains(i as usize) <==> x.pgid == -pid)
        }),
{
    let l = ts.list@;
    let me = ts.current();
    chosen_are_those(l, |t: TaskCtl| t.pgid == me.pgid, i);
    chosen_are_those(l, |t: TaskCtl| t.pid != 1 && t.pid != me.pid, i);
    chosen_are_those(l, |t: TaskCtl| t.pgid == -pid, i);
    if pid > 0 && l[i].pid == pid {
        lemma_first_task(l, pid, i);
    }
}

proof fn lemma_first_task(l: Seq<TaskCtl>, pid: i32, i: int)
    requires
        0 <= i < l.len(),
        l[i].pid == pid,
    ensures
        exists|k: int| is_task(l, pid, k),
    decreases i,
{
    if exists|j: int| 0 <= j < i && (#[trigger] l[j]).pid == pid {
        let j = choose|j: int| 0 <= j < i && (#[trigger] l[j]).pid == pid;
        lemma_first_task(l, pid, j);
    } else {
        assert(is_task(l, pid, i));
    }
}

/// An action and an alternate stack that were stored are read as they were.
pub proof fn action_and_stack_read_back(m: Map<int, u8>, at: int, a: KSigAction, s: StackT)
    requires
        mapped(m, at, 24),
    ensures
        action_at(stored(m, at, action_bytes(a)), at) == a,
        stack_at(stored(m, at, stack_bytes(s)), at) == s,
{
    broadcast use crate::bytes::lemma_le_len;

    crate::bytes::lemma_span();
    let b = action_bytes(a);
    assert(b.subrange(0, 8) =~= le(a.handler as nat, 8));
    assert(b.subrange(8, 16) =~= le(a.flags as nat, 8));
    assert(b.subrange(16, 24) =~= le(a.mask as nat, 8));
    stored_field(m, at, b, 0, a.handler as nat, 8);
    stored_field(m, at, b, 8, a.flags as nat, 8);
    stored_field(m, at, b, 16, a.mask as nat, 8);
    let c = stack_bytes(s);
    assert(c.subrange(0, 8) =~= le(s.sp as nat, 8));
    assert(c.subrange(8, 12) =~= le(s.flags as nat, 4));
    assert(c.subrange(16, 24) =~= le(s.size as nat, 8));
    stored_field(m, at, c, 0, s.sp as nat, 8);
    stored_field(m, at, c, 8, s.flags as nat, 4);
    stored_field(m, at, c, 16, s.size as nat, 8);
}

} // verus!
