//! Signal and child system calls of a process.

use vstd::prelude::*;
use crate::bytes::{le, lemma_le_len, put_le, put_zeros, zeros};
use crate::sigset::member;
use crate::errno::{SysResult, ECHILD, EFAULT, EINTR, EINVAL};
use crate::syscall::process::{err, lemma_mapped_stored, ok};
use crate::syscall::reply::{fits, num};
use crate::task::process::Process;
use crate::task::signal::{SigAction, SignalState};
use crate::task::threads::{
    child_exit_code, exit_of, reap_child, Reaped, Scheduler, State, Threads, by_tid, Thread,
};
use crate::uaccess::{bytes_at, field, mapped, num_at, stored, UserMem};

verus! {

pub const WNOHANG: u32 = 1;

/// An action as user memory holds it: handler, flags, restorer and mask.
pub open spec fn action_bytes(a: SigAction) -> Seq<u8> {
    le(a.handler as nat, 8) + le(a.flags as nat, 8) + le(a.restorer as nat, 8) + le(
        a.mask as nat,
        8,
    )
}

pub open spec fn action_at(m: Map<int, u8>, at: int) -> SigAction {
    SigAction {
        handler: num_at(m, at, 8) as usize,
        flags: num_at(m, at + 8, 8) as u64,
        restorer: num_at(m, at + 16, 8) as usize,
        mask: num_at(m, at + 24, 8) as u64,
    }
}

/// Process `b` is `a` with other signal state.
pub open spec fn only_sig(a: Process, b: Process) -> bool {
    b == (Process { sig: b.sig, ..a })
}

pub open spec fn sigaction_post(sig: usize, new: usize, was: usize, a: Process, m: Map<int, u8>, r: SysResult, b: Process, n: Map<int, u8>) -> bool {
    &&& only_sig(a, b)
    &&& {
        let s0 = a.sig;
        let s1 = b.sig;
        let m0 = m;
        let m1 = if was != 0 {
            stored(m0, was as int, action_bytes(s0.actions@[sig as int]))
        } else {
            m0
        };
        if !(1 <= sig <= 64) {
            r == err(EINVAL) && b == a && n == m0
        } else if was != 0 && !mapped(m0, was as int, 32) {
            r == err(EFAULT) && b == a && n == m0
        } else if new != 0 && !mapped(m0, new as int, 32) {
            r == err(EFAULT) && b == a && n == m1
        } else {
            &&& r == ok(0)
            &&& n == m1
            &&& s1 == (SignalState { actions: s1.actions, ..s0 })
            &&& s1.actions@ == (if new != 0 {
                s0.actions@.update(sig as int, action_at(m1, new as int))
            } else {
                s0.actions@
            })
        }
    }
}

/// Tells the action of a signal and sets a new one.
pub fn sys_rt_sigaction(p: &mut Process, mem: &mut UserMem, sig: usize, new: usize, was: usize) -> (r:
    SysResult)
    requires
        old(p).wf(),
    ensures
        final(p).wf(),
        sigaction_post(sig, new, was, *old(p), old(mem)@, r, *final(p), final(mem)@),
{
    if sig < 1 || sig > 64 {
        return Err(EINVAL);
    }
    let ghost m0 = mem@;
    if was != 0 {
        let act: SigAction = p.sig.actions[sig];
        let mut b: Vec<u8> = Vec::new();
        put_le(&mut b, act.handler as u64, 8);
        put_le(&mut b, act.flags, 8);
        put_le(&mut b, act.restorer as u64, 8);
        put_le(&mut b, act.mask, 8);
        proof {
            lemma_le_len(act.handler as nat, 8);
            lemma_le_len(act.flags as nat, 8);
            lemma_le_len(act.restorer as nat, 8);
            lemma_le_len(act.mask as nat, 8);
            assert(b@ =~= action_bytes(act));
            lemma_mapped_stored(m0, was as int, action_bytes(act));
        }
        match mem.copy_to_user(was, &b) {
            Ok(_) => {},
            Err(e) => {
                return Err(e);
            },
        }
    }
    if new != 0 {
        let b: Vec<u8> = match mem.copy_from_user(new, 32) {
            Ok(b) => b,
            Err(e) => {
                return Err(e);
            },
        };
        let handler: u64 = field(&b, 0, 8, Ghost(mem@), Ghost(new as int));
        let flags: u64 = field(&b, 8, 8, Ghost(mem@), Ghost(new as int));
        let restorer: u64 = field(&b, 16, 8, Ghost(mem@), Ghost(new as int));
        let mask: u64 = field(&b, 24, 8, Ghost(mem@), Ghost(new as int));
        p.sig.actions.set(
            sig,
            SigAction { handler: handler as usize, flags, restorer: restorer as usize, mask },
        );
    }
    Ok(0)
}

/// The mask after a change: blocking adds signals, unblocking takes them out, and
/// setting replaces it.
pub open spec fn changed_mask(how: i32, mask: u64, set: u64) -> Option<u64> {
    if how == 0 {
        Some(mask | set)
    } else if how == 1 {
        Some(mask & !set)
    } else if how == 2 {
        Some(set)
    } else {
        None
    }
}

pub open spec fn sigprocmask_post(how: i32, new: usize, was: usize, a: Process, m: Map<int, u8>, r: SysResult, b: Process, n: Map<int, u8>) -> bool {
    &&& only_sig(a, b)
    &&& {
        let s0 = a.sig;
        let s1 = b.sig;
        let m0 = m;
        let m1 = if was != 0 {
            stored(m0, was as int, le(s0.blocked as nat, 8))
        } else {
            m0
        };
        let set = num_at(m1, new as int, 8) as u64;
        let mask = changed_mask(how, s0.blocked, set);
        if was != 0 && !mapped(m0, was as int, 8) {
            r == err(EFAULT) && s1 == s0 && n == m0
        } else if new == 0 {
            r == ok(0) && s1 == s0 && n == m1
        } else if !mapped(m0, new as int, 8) {
            r == err(EFAULT) && s1 == s0 && n == m1
        } else if mask is None {
            r == err(EINVAL) && s1 == s0 && n == m1
        } else {
            r == ok(0) && s1 == (SignalState { blocked: mask->0, ..s0 }) && n == m1
        }
    }
}

/// Tells the signal mask and changes it.
pub fn sys_rt_sigprocmask(p: &mut Process, mem: &mut UserMem, how: i32, new: usize, was: usize) -> (r:
    SysResult)
    requires
        old(p).wf(),
    ensures
        final(p).wf(),
        sigprocmask_post(how, new, was, *old(p), old(mem)@, r, *final(p), final(mem)@),
{
    let ghost m0 = mem@;
    if was != 0 {
        proof {
            lemma_mapped_stored(m0, was as int, le(p.sig.blocked as nat, 8));
        }
        match mem.write_num(was, p.sig.blocked, 8) {
            Ok(_) => {},
            Err(e) => {
                return Err(e);
            },
        }
    }
    if new != 0 {
        let set: u64 = match mem.read_num(new, 8) {
            Ok(v) => v,
            Err(e) => {
                return Err(e);
            },
        };
        match how {
            0 => {
                p.sig.blocked = p.sig.blocked | set;
            },
            1 => {
                p.sig.blocked = p.sig.blocked & !set;
            },
            2 => {
                p.sig.blocked = set;
            },
            _ => {
                return Err(EINVAL);
            },
        }
    }
    Ok(0)
}

/// Starts to wait for a signal under another mask; gives the former mask.
pub fn sigsuspend(p: &mut Process, mem: &UserMem, mask: usize) -> (r: Result<u64, i32>)
    requires
        old(p).wf(),
    ensures
        final(p).wf(),
        only_sig(*old(p), *final(p)),
        if mapped(mem@, mask as int, 8) {
            &&& r == Ok::<u64, i32>(old(p).sig.blocked)
            &&& final(p).sig == (SignalState {
                blocked: num_at(mem@, mask as int, 8) as u64,
                ..old(p).sig
            })
        } else {
            r == Err::<u64, i32>(EFAULT) && *final(p) == *old(p)
        },
{
    let m: u64 = match mem.read_num(mask, 8) {
        Ok(v) => v,
        Err(e) => {
            return Err(e);
        },
    };
    let saved: u64 = p.sig.blocked;
    p.sig.blocked = m;
    Ok(saved)
}

/// Looks whether a signal has come that the mask lets through. The mask then
/// stays in force until that signal is delivered, which brings the former one
/// back. `None` to sleep another tick.
pub fn sigsuspend_round(p: &mut Process, saved: u64) -> (r: Option<SysResult>)
    requires
        old(p).wf(),
    ensures
        final(p).wf(),
        only_sig(*old(p), *final(p)),
        if old(p).interrupted() {
            r == Some(err(EINTR)) && final(p).sig == (SignalState {
                in_sigsuspend: true,
                suspended_mask: saved,
                ..old(p).sig
            })
        } else {
            r is None && *final(p) == *old(p)
        },
{
    if p.is_interrupted() {
        p.sig.in_sigsuspend = true;
        p.sig.suspended_mask = saved;
        return Some(Err(EINTR));
    }
    None
}

/// The alternate stack as user memory holds it: address, flags and size.
pub open spec fn altstack_bytes(s: SignalState) -> Seq<u8> {
    le(s.altstack_sp as nat, 8) + le(s.altstack_flags as nat, 4) + zeros(4) + le(
        s.altstack_size as nat,
        8,
    )
}

pub open spec fn sigaltstack_post(new: usize, was: usize, a: Process, m: Map<int, u8>, r: SysResult, b: Process, n: Map<int, u8>) -> bool {
    &&& only_sig(a, b)
    &&& {
        let s0 = a.sig;
        let m0 = m;
        let m1 = if was != 0 {
            stored(m0, was as int, altstack_bytes(s0))
        } else {
            m0
        };
        if was != 0 && !mapped(m0, was as int, 24) {
            r == err(EFAULT) && b == a && n == m0
        } else if new != 0 && !mapped(m0, new as int, 24) {
            r == err(EFAULT) && b == a && n == m1
        } else {
            &&& r == ok(0)
            &&& n == m1
            &&& b.sig == (if new != 0 {
                SignalState {
                    altstack_sp: num_at(m1, new as int, 8) as usize,
                    altstack_flags: num_at(m1, new + 8, 4) as u32,
                    altstack_size: num_at(m1, new + 16, 8) as usize,
                    ..s0
                }
            } else {
                s0
            })
        }
    }
}

/// Tells the alternate stack and sets a new one.
pub fn sigaltstack(p: &mut Process, mem: &mut UserMem, new: usize, was: usize) -> (r: SysResult)
    requires
        old(p).wf(),
    ensures
        final(p).wf(),
        sigaltstack_post(new, was, *old(p), old(mem)@, r, *final(p), final(mem)@),
{
    let ghost m0 = mem@;
    if was != 0 {
        let mut b: Vec<u8> = Vec::new();
        put_le(&mut b, p.sig.altstack_sp as u64, 8);
        put_le(&mut b, p.sig.altstack_flags as u64, 4);
        put_zeros(&mut b, 4);
        put_le(&mut b, p.sig.altstack_size as u64, 8);
        proof {
            broadcast use crate::bytes::lemma_le_len;

            assert(b@ =~= altstack_bytes(p.sig));
            lemma_mapped_stored(m0, was as int, altstack_bytes(p.sig));
        }
        match mem.copy_to_user(was, &b) {
            Ok(_) => {},
            Err(e) => {
                return Err(e);
            },
        }
    }
    if new != 0 {
        let b: Vec<u8> = match mem.copy_from_user(new, 24) {
            Ok(b) => b,
            Err(e) => {
                return Err(e);
            },
        };
        let sp: u64 = field(&b, 0, 8, Ghost(mem@), Ghost(new as int));
        let flags: u64 = field(&b, 8, 4, Ghost(mem@), Ghost(new as int));
        let size: u64 = field(&b, 16, 8, Ghost(mem@), Ghost(new as int));
        p.sig.altstack_sp = sp as usize;
        p.sig.altstack_flags = flags as u32;
        p.sig.altstack_size = size as usize;
    }
    Ok(0)
}

/// What a request to send a signal comes to: an answer at once, or the
/// receiver and the signal.
#[derive(Clone, Copy, PartialEq, Eq, Debug)]
pub enum KillStep {
    Done(SysResult),
    Send(i32, usize),
}

/// Signal 0 only asks; there are no signals above 64.
pub fn kill(pid: i32, sig: usize) -> (r: KillStep)
    ensures
        r == (if sig == 0 {
            KillStep::Done(ok(0))
        } else if sig > 64 {
            KillStep::Done(err(EINVAL))
        } else {
            KillStep::Send(pid, sig)
        }),
{
    if sig == 0 {
        return KillStep::Done(Ok(0));
    }
    if sig > 64 {
        return KillStep::Done(Err(EINVAL));
    }
    KillStep::Send(pid, sig)
}

/// A fault signal is raised with the faulting address. Where it has no handler
/// the process ends, with the status told here.
pub fn deliver_signal_fault(p: &mut Process, sig: usize, addr: usize) -> (r: Option<i32>)
    requires
        old(p).wf(),
        1 <= sig <= 64,
    ensures
        final(p).wf(),
        only_sig(*old(p), *final(p)),
        crate::task::threads::raised(
            old(p).sig,
            final(p).sig,
            sig,
            (crate::task::signal::SigInfo { code: 1, addr, ..crate::task::signal::no_info() }),
        ),
        r == (if old(p).sig.actions@[sig as int].handler == crate::task::signal::SIG_DFL {
            Some((128 + sig) as i32)
        } else {
            None
        }),
{
    p.sig.raise_with(
        sig,
        crate::task::signal::SigInfo {
            code: 1,
            pid: 0,
            uid: 0,
            status: 0,
            addr,
            has_info: false,
        },
    );
    if p.sig.is_default(sig) {
        return Some(128 + sig as i32);
    }
    None
}

/// The child is one that is waited for.
pub open spec fn wanted(pid: i32, c: usize) -> bool {
    pid <= 0 || c == pid as usize
}

/// `k` is the first wanted child that has ended.
pub open spec fn first_ended(t: Threads, children: Seq<usize>, pid: i32, k: int) -> bool {
    &&& 0 <= k < children.len()
    &&& wanted(pid, children[k]) && exit_of(t, children[k]) is Some
    &&& forall|j: int|
        0 <= j < k ==> !(wanted(pid, #[trigger] children[j]) && exit_of(t, children[j]) is Some)
}

/// The list without an element.
pub open spec fn others(l: Seq<usize>, x: usize) -> Seq<usize>
    decreases l.len(),
{
    if l.len() == 0 {
        Seq::empty()
    } else if l.last() == x {
        others(l.drop_last(), x)
    } else {
        others(l.drop_last(), x).push(l.last())
    }
}

fn without(l: &Vec<usize>, x: usize) -> (r: Vec<usize>)
    ensures
        r@ == others(l@, x),
{
    let n: usize = l.len();
    let mut r: Vec<usize> = Vec::new();
    let mut i: usize = 0;
    proof {
        assert(l@.take(0) =~= Seq::empty());
    }
    while i < n
        invariant
            i <= n == l@.len(),
            r@ == others(l@.take(i as int), x),
        decreases n - i,
    {
        proof {
            assert(l@.take(i + 1).drop_last() =~= l@.take(i as int));
            assert(l@.take(i + 1).last() == l@[i as int]);
        }
        if l[i] != x {
            r.push(l[i]);
        }
        i = i + 1;
    }
    proof {
        assert(l@.take(n as int) =~= l@);
    }
    r
}

fn find_ended(s: &Scheduler, children: &Vec<usize>, pid: i32) -> (r: Option<(usize, i32)>)
    ensures
        match r {
            Some(x) => exists|k: int|
                #![trigger first_ended(s.threads@, children@, pid, k)]
                first_ended(s.threads@, children@, pid, k) && x.0 == children@[k] && exit_of(
                    s.threads@,
                    x.0,
                ) == Some(x.1),
            None => forall|k: int| !first_ended(s.threads@, children@, pid, k),
        },
{
    let n: usize = children.len();
    let mut i: usize = 0;
    while i < n
        invariant
            i <= n == children@.len(),
            forall|j: int|
                0 <= j < i ==> !(wanted(pid, #[trigger] children@[j]) && exit_of(
                    s.threads@,
                    children@[j],
                ) is Some),
        decreases n - i,
    {
        let c: usize = children[i];
        if pid <= 0 || c == pid as usize {
            match child_exit_code(s, c) {
                Some(code) => {
                    assert(first_ended(s.threads@, children@, pid, i as int));
                    return Some((c, code));
                },
                None => {},
            }
        }
        i = i + 1;
    }
    None
}

/// What waiting for a child comes to.
pub enum WaitStep {
    Done(SysResult),
    /// A child was buried; its pages are to be freed.
    Buried(SysResult, Option<Reaped>),
    /// Nothing yet: sleep another tick.
    Sleep,
}

/// The status word of an exit code.
pub open spec fn status_word(code: i32) -> u32 {
    ((code as u32 & 0xff) << 8) as u32
}

/// Thread `i` after it was buried.
pub open spec fn buried(t: Threads, pid: usize) -> Threads {
    match by_tid(t, pid) {
        Some(i) => if t[i].state == State::Dead {
            t
        } else {
            t.update(
                i,
                Thread { process: None, state: State::Dead, kstack: 0, tf_frame: 0, ..t[i] },
            )
        },
        None => t,
    }
}

/// One look for a child that has ended: it is buried and its status told.
pub fn sys_wait4(
    s: &mut Scheduler,
    p: &mut Process,
    mem: &mut UserMem,
    pid: i32,
    status: usize,
    options: u32,
) -> (r: WaitStep)
    requires
        old(s).wf(),
        old(p).wf(),
    ensures
        final(s).wf(),
        final(p).wf(),
        (forall|k: int| !first_ended(old(s).threads@, old(p).children@, pid, k)) ==> {
            &&& *final(s) == *old(s)
            &&& final(mem)@ == old(mem)@
            &&& if old(p).children@.len() == 0 {
                r == WaitStep::Done(err(ECHILD)) && *final(p) == *old(p)
            } else if options & WNOHANG != 0 {
                r == WaitStep::Done(ok(0)) && *final(p) == *old(p)
            } else if old(p).interrupted() {
                r == WaitStep::Done(err(EINTR)) && *final(p) == *old(p)
            } else {
                r is Sleep && *final(p) == (Process { parent_waiting: true, ..*old(p) })
            }
        },
        forall|k: int| #[trigger]
            first_ended(old(s).threads@, old(p).children@, pid, k) ==> {
                let c = old(p).children@[k];
                let code = exit_of(old(s).threads@, c)->0;
                let o = num(status, status_word(code) as nat, 4);
                &&& r is Buried
                &&& final(p).children@ == others(old(p).children@, c)
                &&& *final(p) == (Process { children: final(p).children, ..*old(p) })
                &&& final(s).threads@ == buried(old(s).threads@, c)
                &&& final(s).same_rest(*old(s))
                &&& final(s).ready == old(s).ready
                &&& if status == 0 || fits(old(mem)@, o) {
                    r->Buried_0 == ok(c as int) && final(mem)@ == (if status == 0 {
                        old(mem)@
                    } else {
                        stored(old(mem)@, status as int, le(status_word(code) as nat, 4))
                    })
                } else {
                    r->Buried_0 == err(EFAULT) && final(mem)@ == old(mem)@
                }
            },
{
    let found: Option<(usize, i32)> = find_ended(s, &p.children, pid);
    match found {
        Some(x) => {
            let c: usize = x.0;
            let code: i32 = x.1;
            let ghost k0 = choose|k: int|
                #![trigger first_ended(s.threads@, p.children@, pid, k)]
                first_ended(s.threads@, p.children@, pid, k) && c == p.children@[k] && exit_of(
                    s.threads@,
                    c,
                ) == Some(code);
            proof {
                assert(first_ended(s.threads@, p.children@, pid, k0));
                assert forall|k: int| #[trigger]
                    first_ended(s.threads@, p.children@, pid, k) implies k == k0 by {}
            }
            p.children = without(&p.children, c);
            let freed: Option<Reaped> = reap_child(s, c);
            proof {
                assert(s.threads@ == buried(old(s).threads@, c));
            }
            if status != 0 {
                let w: u32 = (code as u32 & 0xff) << 8;
                proof {
                    lemma_le_len(w as nat, 4);
                }
                match mem.write_num(status, w as u64, 4) {
                    Ok(_) => {},
                    Err(e) => {
                        return WaitStep::Buried(Err(e), freed);
                    },
                }
            }
            return WaitStep::Buried(Ok(c), freed);
        },
        None => {},
    }
    if p.children.len() == 0 {
        return WaitStep::Done(Err(ECHILD));
    }
    if options & WNOHANG != 0 {
        return WaitStep::Done(Ok(0));
    }
    if p.is_interrupted() {
        return WaitStep::Done(Err(EINTR));
    }
    p.parent_waiting = true;
    WaitStep::Sleep
}

/// An action that was stored in memory is read as the same action.
pub proof fn action_reads_back(m: Map<int, u8>, at: int, a: SigAction)
    requires
        mapped(m, at, 32),
    ensures
        action_at(stored(m, at, action_bytes(a)), at) == a,
{
    broadcast use crate::bytes::lemma_le_len;

    let b = action_bytes(a);
    let m1 = stored(m, at, b);
    crate::bytes::lemma_span();
    assert(bytes_at(m1, at, 8) =~= le(a.handler as nat, 8)) by {
        assert forall|i: int| 0 <= i < 8 implies m1[at + i] == le(a.handler as nat, 8)[i] by {
            assert(m.dom().contains(at + i));
        }
    }
    assert(bytes_at(m1, at + 8, 8) =~= le(a.flags as nat, 8)) by {
        assert forall|i: int| 0 <= i < 8 implies m1[at + 8 + i] == le(a.flags as nat, 8)[i] by {
            assert(m.dom().contains(at + 8 + i));
        }
    }
    assert(bytes_at(m1, at + 16, 8) =~= le(a.restorer as nat, 8)) by {
        assert forall|i: int| 0 <= i < 8 implies m1[at + 16 + i] == le(a.restorer as nat, 8)[i] by {
            assert(m.dom().contains(at + 16 + i));
        }
    }
    assert(bytes_at(m1, at + 24, 8) =~= le(a.mask as nat, 8)) by {
        assert forall|i: int| 0 <= i < 8 implies m1[at + 24 + i] == le(a.mask as nat, 8)[i] by {
            assert(m.dom().contains(at + 24 + i));
        }
    }
    crate::bytes::from_le_of_le(a.handler as nat, 8);
    crate::bytes::from_le_of_le(a.flags as nat, 8);
    crate::bytes::from_le_of_le(a.restorer as nat, 8);
    crate::bytes::from_le_of_le(a.mask as nat, 8);
}

/// Changing the mask acts signal by signal: 0 blocks those of the set besides what
/// is blocked, 1 unblocks them, 2 blocks exactly them; nothing else is accepted.
pub proof fn mask_changes_by_signal(how: i32, mask: u64, set: u64, sig: int)
    requires
        1 <= sig <= 64,
    ensures
        changed_mask(how, mask, set) is Some <==> 0 <= how <= 2,
        how == 0 ==> (member(changed_mask(how, mask, set)->0, sig) <==> member(mask, sig) || member(
            set,
            sig,
        )),
        how == 1 ==> (member(changed_mask(how, mask, set)->0, sig) <==> member(mask, sig)
            && !member(set, sig)),
        how == 2 ==> (member(changed_mask(how, mask, set)->0, sig) <==> member(set, sig)),
{
    crate::sigset::set_algebra(mask, set, sig);
}

/// The status of a child that exited tells its code in bits 8 to 15, and no signal
/// in the bits below.
pub proof fn status_tells_the_code(code: i32)
    ensures
        status_word(code) & 0xff == 0,
        (status_word(code) >> 8) & 0xff == code as u32 & 0xff,
        status_word(code) >> 16 == 0,
{
    let c = code as u32;
    assert(((c & 0xff) << 8) & 0xff == 0 && (((c & 0xff) << 8) >> 8) & 0xff == c & 0xff && ((c
        & 0xff) << 8) >> 16 == 0) by (bit_vector);
}

/// A child that was waited for is a child no more; the others stay.
pub proof fn buried_child_is_gone(l: Seq<usize>, x: usize, y: usize)
    ensures
        !others(l, x).contains(x),
        y != x ==> (others(l, x).contains(y) <==> l.contains(y)),
    decreases l.len(),
{
    if l.len() > 0 {
        let p = l.drop_last();
        let d = others(p, x);
        let e = others(l, x);
        buried_child_is_gone(p, x, y);
        if y != x {
            if l.contains(y) {
                let k = choose|k: int| 0 <= k < l.len() && l[k] == y;
                if k < l.len() - 1 {
                    assert(p[k] == y);
                    let m = choose|m: int| 0 <= m < d.len() && d[m] == y;
                    assert(e[m] == y);
                } else {
                    assert(e[e.len() - 1] == y);
                }
            }
            if e.contains(y) {
                let m = choose|m: int| 0 <= m < e.len() && e[m] == y;
                if m < d.len() {
                    assert(d[m] == y);
                    let k = choose|k: int| 0 <= k < p.len() && p[k] == y;
                    assert(l[k] == y);
                } else {
                    assert(l[l.len() - 1] == y);
                }
            }
        }
        if e.contains(x) {
            let m = choose|m: int| 0 <= m < e.len() && e[m] == x;
            if m < d.len() {
                assert(d[m] == x);
            }
        }
    }
}

/// A mask that was told and set again is the same mask.
pub proof fn mask_reads_back(m: Map<int, u8>, at: usize, mask: u64, other: u64)
    requires
        mapped(m, at as int, 8),
    ensures
        changed_mask(2, other, num_at(stored(m, at as int, le(mask as nat, 8)), at as int, 8) as u64)
            == Some(mask),
{
    lemma_le_len(mask as nat, 8);
    crate::bytes::lemma_span();
    crate::uaccess::load_after_store(m, at as int, le(mask as nat, 8), at as int, 0);
    crate::bytes::from_le_of_le(mask as nat, 8);
}

/// A handler that is set is the one that is called: the action of the signal becomes
/// what memory holds, handler, flags, restorer and mask in words of eight bytes, and
/// no other action changes. The former action is told.
pub proof fn action_is_set(
    sig: usize,
    new: usize,
    a: Process,
    m: Map<int, u8>,
    r: SysResult,
    b: Process,
    n: Map<int, u8>,
    i: int,
)
    requires
        a.wf(),
        1 <= sig <= 64,
        new != 0,
        mapped(m, new as int, 32),
        sigaction_post(sig, new, 0, a, m, r, b, n),
        0 <= i < a.sig.actions@.len(),
    ensures
        r == ok(0),
        n == m,
        b.sig.actions@[sig as int].handler == num_at(m, new as int, 8) as usize,
        b.sig.actions@[sig as int].flags == num_at(m, new + 8, 8) as u64,
        b.sig.actions@[sig as int].restorer == num_at(m, new + 16, 8) as usize,
        b.sig.actions@[sig as int].mask == num_at(m, new + 24, 8) as u64,
        i != sig ==> b.sig.actions@[i] == a.sig.actions@[i],
        b.sig.pending == a.sig.pending && b.sig.blocked == a.sig.blocked,
{
}

/// An alternate stack that is set is told as it was set.
pub proof fn alternate_stack_reads_back(m: Map<int, u8>, at: int, s: SignalState)
    requires
        mapped(m, at, 24),
    ensures
        altstack_bytes(s).len() == 24,
        num_at(stored(m, at, altstack_bytes(s)), at, 8) == s.altstack_sp,
        num_at(stored(m, at, altstack_bytes(s)), at + 8, 4) == s.altstack_flags,
        num_at(stored(m, at, altstack_bytes(s)), at + 16, 8) == s.altstack_size,
{
    broadcast use crate::bytes::lemma_le_len;

    crate::bytes::lemma_span();
    let b = altstack_bytes(s);
    assert(b.subrange(0, 8) =~= le(s.altstack_sp as nat, 8));
    assert(b.subrange(8, 12) =~= le(s.altstack_flags as nat, 4));
    assert(b.subrange(16, 24) =~= le(s.altstack_size as nat, 8));
    crate::uaccess::stored_field(m, at, b, 0, s.altstack_sp as nat, 8);
    crate::uaccess::stored_field(m, at, b, 8, s.altstack_flags as nat, 4);
    crate::uaccess::stored_field(m, at, b, 16, s.altstack_size as nat, 8);
}

/// Waiting finds a child that is wanted, -1 and 0 for any, and has ended; of several
/// the one that was made first.
pub proof fn ended_child_is_found(t: Threads, children: Seq<usize>, pid: i32, k: int, j: int)
    requires
        first_ended(t, children, pid, k),
        0 <= j < children.len(),
        exit_of(t, children[j]) is Some,
        pid <= 0 || children[j] == pid,
    ensures
        k <= j,
        pid > 0 ==> children[k] == pid,
        exit_of(t, children[k]) is Some,
{
}

/// The mask is set from memory and the former one told: afterwards a signal is
/// blocked if and only if it was asked for, or was blocked and not asked to be let
/// through.
pub proof fn mask_is_set(
    how: i32,
    new: usize,
    a: Process,
    m: Map<int, u8>,
    r: SysResult,
    b: Process,
    n: Map<int, u8>,
    sig: int,
)
    requires
        0 <= how <= 2,
        new != 0,
        mapped(m, new as int, 8),
        1 <= sig <= 64,
        sigprocmask_post(how, new, 0, a, m, r, b, n),
    ensures
        r == ok(0),
        ({
            let set = num_at(m, new as int, 8) as u64;
            member(b.sig.blocked, sig) <==> (if how == 0 {
                member(a.sig.blocked, sig) || member(set, sig)
            } else if how == 1 {
                member(a.sig.blocked, sig) && !member(set, sig)
            } else {
                member(set, sig)
            })
        }),
        b.sig.pending == a.sig.pending,
{
    mask_changes_by_signal(how, a.sig.blocked, num_at(m, new as int, 8) as u64, sig);
}

} // verus!
