//! Signals with the Linux riscv64 frame: signal information, then the user
//! context with the alternate stack, the mask, the registers and the floating
//! point state.

use vstd::prelude::*;
use crate::bytes::{le, lemma_le_len, put_le, put_zeros, zeros};
use crate::errno::EFAULT;
use crate::sigset::{
    bit, bit_of, bits_differ, lowest, lowest_is_lowest, lowest_of, member, one_signal, set_algebra,
};
use crate::uaccess::{bytes_at, field, mapped, num_at, stored, stored_field, UserMem};

verus! {

pub const SIGILL: usize = 4;
pub const SIGBUS: usize = 7;
pub const SIGFPE: usize = 8;
pub const SIGKILL: usize = 9;
pub const SIGSEGV: usize = 11;
pub const SIGCHLD: usize = 17;
pub const SIGCONT: usize = 18;
pub const SIGSTOP: usize = 19;
pub const SIGTSTP: usize = 20;
pub const SIGTTIN: usize = 21;
pub const SIGTTOU: usize = 22;
pub const SIGURG: usize = 23;
pub const SIGWINCH: usize = 28;
pub const SIGIO: usize = 29;
pub const SIG_DFL: usize = 0;
pub const SIG_IGN: usize = 1;
pub const SA_ONSTACK: u64 = 0x0800_0000;
pub const SA_NODEFER: u64 = 0x4000_0000;
pub const SA_RESETHAND: u64 = 0x8000_0000;

/// One more than the largest signal number.
pub const NSIG: usize = 65;

/// Size of a signal frame.
pub const SIGFRAME_SIZE: usize = 1088;

/// Where the user context is in the frame, and the registers in that.
pub const UC_OFF: usize = 128;

pub const GREGS: usize = 296;

/// Where the floating point state is in the frame, and how much room it has.
pub const FP_OFF: usize = 552;

pub const FP_SIZE: usize = 536;

#[derive(Clone, Copy, PartialEq, Eq, Structural, Debug)]
pub struct SigAction {
    pub handler: usize,
    pub flags: u64,
    pub restorer: usize,
    pub mask: u64,
}

pub open spec fn action_default() -> SigAction {
    SigAction { handler: SIG_DFL, flags: 0, restorer: 0, mask: 0 }
}

impl Default for SigAction {
    fn default() -> (r: SigAction)
        ensures
            r == action_default(),
    {
        SigAction { handler: SIG_DFL, flags: 0, restorer: 0, mask: 0 }
    }
}

/// What came with a signal.
#[derive(Clone, Copy, PartialEq, Eq, Structural, Debug)]
pub struct SigInfo {
    pub code: i32,
    pub pid: i32,
    pub uid: u32,
    pub status: i32,
    pub addr: usize,
    pub has_info: bool,
}

pub open spec fn no_info() -> SigInfo {
    SigInfo { code: 0, pid: 0, uid: 0, status: 0, addr: 0, has_info: false }
}

impl Default for SigInfo {
    fn default() -> (r: SigInfo)
        ensures
            r == no_info(),
    {
        SigInfo { code: 0, pid: 0, uid: 0, status: 0, addr: 0, has_info: false }
    }
}

pub struct SignalState {
    pub actions: Vec<SigAction>,
    pub pending: u64,
    pub blocked: u64,
    pub altstack_sp: usize,
    pub altstack_size: usize,
    pub altstack_flags: u32,
    pub info: Vec<SigInfo>,
    pub in_sigsuspend: bool,
    pub suspended_mask: u64,
}

/// The alternate stack is disabled.
pub const SS_DISABLE: u32 = 2;

/// No signal is pending, blocked or handled, and there is no alternate stack.
pub open spec fn fresh_signals(s: SignalState) -> bool {
    &&& s.actions@ == Seq::new(NSIG as nat, |i: int| action_default())
    &&& s.info@ == Seq::new(NSIG as nat, |i: int| no_info())
    &&& s.pending == 0
    &&& s.blocked == 0
    &&& s.altstack_sp == 0
    &&& s.altstack_size == 0
    &&& s.altstack_flags == SS_DISABLE
    &&& !s.in_sigsuspend
    &&& s.suspended_mask == 0
}

impl SignalState {
    pub open spec fn wf(&self) -> bool {
        self.actions@.len() == NSIG && self.info@.len() == NSIG
    }

    pub fn new() -> (r: SignalState)
        ensures
            r.wf(),
            fresh_signals(r),
    {
        let mut actions: Vec<SigAction> = Vec::new();
        let mut info: Vec<SigInfo> = Vec::new();
        let mut i: usize = 0;
        while i < NSIG
            invariant
                i <= NSIG,
                actions@ =~= Seq::new(i as nat, |i: int| action_default()),
                info@ =~= Seq::new(i as nat, |i: int| no_info()),
            decreases NSIG - i,
        {
            actions.push(SigAction::default());
            info.push(SigInfo::default());
            i = i + 1;
        }
        SignalState {
            actions,
            pending: 0,
            blocked: 0,
            altstack_sp: 0,
            altstack_size: 0,
            altstack_flags: SS_DISABLE,
            info,
            in_sigsuspend: false,
            suspended_mask: 0,
        }
    }

    /// The state with which a new program starts: ignored signals stay
    /// ignored, all else is as at first.
    pub fn reset_for_exec(&mut self)
        requires
            old(self).wf(),
        ensures
            final(self).wf(),
            final(self).actions@ == after_exec(old(self).actions@),
            *final(self) == (SignalState {
                actions: final(self).actions,
                pending: 0,
                blocked: 0,
                altstack_sp: 0,
                altstack_size: 0,
                altstack_flags: SS_DISABLE,
                ..*old(self)
            }),
    {
        let ghost a = self.actions@;
        let mut i: usize = 0;
        while i < NSIG
            invariant
                i <= NSIG,
                a.len() == NSIG,
                self.actions@.len() == NSIG,
                *self == (SignalState { actions: self.actions, ..*old(self) }),
                forall|j: int| 0 <= j < i ==> #[trigger] self.actions@[j] == after_exec(a)[j],
                forall|j: int| i <= j < NSIG ==> #[trigger] self.actions@[j] == a[j],
            decreases NSIG - i,
        {
            assert(self.actions@[i as int] == a[i as int]);
            if self.actions[i].handler != SIG_IGN {
                self.actions.set(i, SigAction::default());
            } else {
                self.actions.set(
                    i,
                    SigAction { handler: SIG_IGN, flags: 0, restorer: 0, mask: 0 },
                );
            }
            i = i + 1;
        }
        proof {
            assert(self.actions@ =~= after_exec(a));
        }
        self.pending = 0;
        self.blocked = 0;
        self.altstack_flags = SS_DISABLE;
        self.altstack_size = 0;
        self.altstack_sp = 0;
    }

    /// Makes a signal pending; numbers out of range are passed over.
    pub fn raise(&mut self, sig: usize)
        requires
            old(self).wf(),
        ensures
            final(self).wf(),
            *final(self) == (if 0 < sig < 65 {
                SignalState { pending: old(self).pending | bit(sig as int), ..*old(self) }
            } else {
                *old(self)
            }),
    {
        if sig > 0 && sig < 65 {
            self.pending = self.pending | bit_of(sig);
        }
    }

    /// Makes a signal pending together with what is to be told about it.
    pub fn raise_with(&mut self, sig: usize, info: SigInfo)
        requires
            old(self).wf(),
        ensures
            final(self).wf(),
            if 0 < sig < 65 {
                &&& final(self).pending == old(self).pending | bit(sig as int)
                &&& final(self).info@ == old(self).info@.update(
                    sig as int,
                    SigInfo { has_info: true, ..info },
                )
                &&& *final(self) == (SignalState {
                    pending: final(self).pending,
                    info: final(self).info,
                    ..*old(self)
                })
            } else {
                *final(self) == *old(self)
            },
    {
        if sig > 0 && sig < 65 {
            self.pending = self.pending | bit_of(sig);
            let mut i: SigInfo = info;
            i.has_info = true;
            self.info.set(sig, i);
        }
    }

    pub fn is_ignored(&self, sig: usize) -> (r: bool)
        requires
            self.wf(),
            sig < NSIG,
        ensures
            r == (self.actions@[sig as int].handler == SIG_IGN),
    {
        self.actions[sig].handler == SIG_IGN
    }

    pub fn is_default(&self, sig: usize) -> (r: bool)
        requires
            self.wf(),
            sig < NSIG,
        ensures
            r == (self.actions@[sig as int].handler == SIG_DFL),
    {
        self.actions[sig].handler == SIG_DFL
    }

    fn next_deliverable(&self) -> (r: Option<usize>)
        ensures
            match r {
                Some(n) => n == next_of(*self) && 1 <= n <= 64,
                None => next_of(*self) == 0,
            },
    {
        let d: u64 = self.pending & !self.blocked & !bit_of(SIGKILL) & !bit_of(SIGSTOP);
        let n: usize = lowest_of(d);
        if n == 0 {
            None
        } else {
            Some(n)
        }
    }
}

pub open spec fn after_exec(a: Seq<SigAction>) -> Seq<SigAction> {
    Seq::new(
        a.len(),
        |i: int|
            if a[i].handler == SIG_IGN {
                SigAction { handler: SIG_IGN, ..action_default() }
            } else {
                action_default()
            },
    )
}

/// The signal that is delivered next; 0 for none. The two signals that no
/// program can catch are not delivered this way.
pub open spec fn next_of(s: SignalState) -> int {
    lowest(s.pending & !s.blocked & !bit(SIGKILL as int) & !bit(SIGSTOP as int))
}

pub open spec fn ignored_by_default(sig: int) -> bool {
    sig == SIGCHLD || sig == SIGURG || sig == SIGWINCH || sig == SIGCONT || sig == SIGIO
}

pub open spec fn stops_by_default(sig: int) -> bool {
    sig == SIGSTOP || sig == SIGTSTP || sig == SIGTTIN || sig == SIGTTOU
}

fn default_action_is_ignore(sig: usize) -> (r: bool)
    ensures
        r == ignored_by_default(sig as int),
{
    sig == SIGCHLD || sig == SIGURG || sig == SIGWINCH || sig == SIGCONT || sig == SIGIO
}

fn default_is_stop(sig: usize) -> (r: bool)
    ensures
        r == stops_by_default(sig as int),
{
    sig == SIGSTOP || sig == SIGTSTP || sig == SIGTTIN || sig == SIGTTOU
}

/// The registers of a user program.
pub struct UserRegs {
    pub x: Vec<usize>,
    pub sepc: usize,
}

impl UserRegs {
    pub open spec fn wf(&self) -> bool {
        self.x@.len() == 32
    }
}

// ---- The frame ------------------------------------------------------------------
/// The part of the signal information that depends on the signal.
pub open spec fn info_payload(sig: int, i: SigInfo) -> Seq<u8> {
    if sig == SIGCHLD {
        le((i.pid as u32) as nat, 4) + le(i.uid as nat, 4) + le((i.status as u32) as nat, 4)
    } else if sig == SIGSEGV || sig == SIGBUS || sig == SIGILL || sig == SIGFPE {
        le(i.addr as nat, 8) + zeros(4)
    } else {
        zeros(12)
    }
}

/// The code of a signal that the kernel raised by itself.
pub const SI_KERNEL: i32 = 0x80;

pub open spec fn info_part(sig: int, i: SigInfo) -> Seq<u8> {
    let code = if i.has_info {
        i.code
    } else {
        SI_KERNEL
    };
    le(sig as nat, 4) + zeros(4) + le((code as u32) as nat, 4) + zeros(4) + info_payload(sig, i)
        + zeros(100)
}

/// Alternate stack and mask.
pub open spec fn context_part(s: SignalState) -> Seq<u8> {
    zeros(16) + le(s.altstack_sp as nat, 8) + le(s.altstack_flags as nat, 4) + zeros(4) + le(
        s.altstack_size as nat,
        8,
    ) + le(s.blocked as nat, 8) + zeros(120)
}

/// The program counter and registers 1 to `n - 1`.
pub open spec fn regs_part(tf: UserRegs, n: nat) -> Seq<u8>
    decreases n,
{
    if n <= 1 {
        le(tf.sepc as nat, 8)
    } else {
        regs_part(tf, (n - 1) as nat) + le(tf.x@[n - 1] as nat, 8)
    }
}

pub open spec fn frame_spec(
    s: SignalState,
    sig: int,
    tf: UserRegs,
    fp: Seq<u8>,
) -> Seq<u8> {
    info_part(sig, s.info@[sig]) + context_part(s) + regs_part(tf, 32) + fp + zeros(
        (FP_SIZE - fp.len()) as nat,
    )
}

proof fn lemma_regs_len(tf: UserRegs, n: nat)
    requires
        n >= 1,
    ensures
        regs_part(tf, n).len() == 8 * n,
    decreases n,
{
    if n <= 1 {
        lemma_le_len(tf.sepc as nat, 8);
    } else {
        lemma_regs_len(tf, (n - 1) as nat);
        lemma_le_len(tf.x@[n - 1] as nat, 8);
    }
}

proof fn lemma_parts_len(s: SignalState, sig: int)
    ensures
        info_part(sig, s.info@[sig]).len() == 128,
        context_part(s).len() == 168,
{
    broadcast use crate::bytes::lemma_le_len;

}

fn put_info(v: &mut Vec<u8>, sig: usize, info: &SigInfo)
    requires
        old(v)@.len() == 0,
    ensures
        final(v)@ == info_part(sig as int, *info),
{
    let code: i32 = if info.has_info {
        info.code
    } else {
        SI_KERNEL
    };
    put_le(v, sig as u64, 4);
    put_zeros(v, 4);
    put_le(v, (code as u32) as u64, 4);
    put_zeros(v, 4);
    let ghost head = v@;
    if sig == SIGCHLD {
        put_le(v, (info.pid as u32) as u64, 4);
        put_le(v, info.uid as u64, 4);
        put_le(v, (info.status as u32) as u64, 4);
    } else if sig == SIGSEGV || sig == SIGBUS || sig == SIGILL || sig == SIGFPE {
        put_le(v, info.addr as u64, 8);
        put_zeros(v, 4);
    } else {
        put_zeros(v, 12);
    }
    proof {
        assert(v@ =~= head + info_payload(sig as int, *info));
    }
    put_zeros(v, 100);
    proof {
        assert(v@ =~= info_part(sig as int, *info));
    }
}

fn put_context(v: &mut Vec<u8>, s: &SignalState)
    ensures
        final(v)@ == old(v)@ + context_part(*s),
{
    let ghost v0 = v@;
    put_zeros(v, 16);
    put_le(v, s.altstack_sp as u64, 8);
    put_le(v, s.altstack_flags as u64, 4);
    put_zeros(v, 4);
    put_le(v, s.altstack_size as u64, 8);
    put_le(v, s.blocked, 8);
    put_zeros(v, 120);
    proof {
        assert(v@ =~= v0 + context_part(*s));
    }
}

fn put_regs(v: &mut Vec<u8>, tf: &UserRegs)
    requires
        tf.wf(),
    ensures
        final(v)@ == old(v)@ + regs_part(*tf, 32),
{
    let ghost v0 = v@;
    put_le(v, tf.sepc as u64, 8);
    let mut i: usize = 1;
    while i < 32
        invariant
            1 <= i <= 32,
            tf.wf(),
            v@ == v0 + regs_part(*tf, i as nat),
        decreases 32 - i,
    {
        let ghost before = v@;
        put_le(v, tf.x[i] as u64, 8);
        proof {
            assert(v@ =~= v0 + regs_part(*tf, (i + 1) as nat));
        }
        i = i + 1;
    }
}

fn build_frame(s: &SignalState, sig: usize, tf: &UserRegs, fp: &Vec<u8>) -> (v: Vec<u8>)
    requires
        s.wf(),
        tf.wf(),
        1 <= sig <= 64,
        fp@.len() <= FP_SIZE,
    ensures
        v@ == frame_spec(*s, sig as int, *tf, fp@),
        v@.len() == SIGFRAME_SIZE,
{
    let mut v: Vec<u8> = Vec::new();
    put_info(&mut v, sig, &s.info[sig]);
    put_context(&mut v, s);
    put_regs(&mut v, tf);
    v.extend_from_slice(fp);
    put_zeros(&mut v, FP_SIZE - fp.len());
    proof {
        lemma_parts_len(*s, sig as int);
        lemma_regs_len(*tf, 32);
        assert(v@ =~= frame_spec(*s, sig as int, *tf, fp@));
    }
    v
}

/// Where the frame goes: below the alternate stack if the handler wants it and
/// there is one, else below the stack pointer; rounded down.
pub open spec fn frame_at(s: SignalState, flags: u64, sp: usize) -> int {
    let top = if flags & SA_ONSTACK != 0 && s.altstack_flags & 1 == 0 && s.altstack_sp != 0 {
        (s.altstack_sp + s.altstack_size) as int
    } else {
        sp as int
    };
    (top - SIGFRAME_SIZE) / 16 * 16
}

/// The state once signal `n` was taken: it is not pending any more, and a
/// suspended mask is back in force.
pub open spec fn taken(s: SignalState, n: int) -> SignalState {
    SignalState {
        pending: s.pending & !bit(n),
        blocked: if s.in_sigsuspend {
            s.suspended_mask
        } else {
            s.blocked
        },
        in_sigsuspend: false,
        ..s
    }
}

/// What became of the signal that was next.
#[derive(Clone, Copy, PartialEq, Eq, Structural, Debug)]
pub enum Outcome {
    /// There was none.
    Quiet,
    /// It was dropped: ignored, stopping by default, or without room for its
    /// frame.
    Dropped,
    /// The process ends with this exit code.
    Exit(i32),
    /// The program goes on in its handler.
    Handler,
}

pub open spec fn deliver_post(
    s0: SignalState,
    t0: UserRegs,
    m0: Map<int, u8>,
    fp: Seq<u8>,
    trampoline: usize,
    r: Outcome,
    s1: SignalState,
    t1: UserRegs,
    m1: Map<int, u8>,
) -> bool {
    let n = next_of(s0);
    let s = taken(s0, n);
    let t = t0;
    let act = s0.actions@[n];
    let at = frame_at(s, act.flags, t0.x@[2]);
    &&& s1.wf()
    &&& t1.wf()
    &&& if n == 0 {
        r == Outcome::Quiet && s1 == s0 && t1 == t0 && m1 == m0
    } else if act.handler == SIG_IGN || (act.handler == SIG_DFL && (ignored_by_default(n)
        || stops_by_default(n))) {
        r == Outcome::Dropped && s1 == s && t1 == t && m1 == m0
    } else if act.handler == SIG_DFL {
        r == Outcome::Exit((128 + n) as i32) && s1 == s && t1 == t && m1 == m0
    } else if !mapped(m0, at, SIGFRAME_SIZE as int) {
        r == Outcome::Dropped && s1 == s && t1 == t && m1 == m0
    } else {
        &&& r == Outcome::Handler
        &&& m1 == stored(m0, at, frame_spec(s, n, t, fp))
        &&& t1.sepc == act.handler
        &&& t1.x@ == t0.x@.update(2, at as usize).update(10, n as usize).update(
            11,
            at as usize,
        ).update(12, (at + UC_OFF) as usize).update(1, trampoline)
        &&& s1.blocked == (s.blocked | act.mask) | (if act.flags & SA_NODEFER == 0 {
            bit(n)
        } else {
            0
        })
        &&& s1.actions@ == (if act.flags & SA_RESETHAND != 0 {
            s0.actions@.update(n, action_default())
        } else {
            s0.actions@
        })
        &&& s1 == (SignalState { blocked: s1.blocked, actions: s1.actions, ..s })
    }
}

/// The next signal has a handler.
pub open spec fn is_caught(s: SignalState) -> bool {
    let h = s.actions@[next_of(s)].handler;
    next_of(s) > 0 && h != SIG_IGN && h != SIG_DFL
}

/// The stack that the frame goes to ends within the address space and has room
/// for the frame above address 0.
pub open spec fn stack_ok(s: SignalState, tf: UserRegs) -> bool {
    let flags = s.actions@[next_of(s)].flags;
    if flags & SA_ONSTACK != 0 && s.altstack_flags & 1 == 0 && s.altstack_sp != 0 {
        SIGFRAME_SIZE <= s.altstack_sp + s.altstack_size <= usize::MAX
    } else {
        tf.x@[2] >= SIGFRAME_SIZE
    }
}

/// Delivers the next signal, if any. `fp` is the floating point state to save
/// in the frame.
pub fn deliver(
    s: &mut SignalState,
    tf: &mut UserRegs,
    mem: &mut UserMem,
    fp: &Vec<u8>,
    trampoline: usize,
) -> (r: Outcome)
    requires
        old(s).wf(),
        old(tf).wf(),
        is_caught(*old(s)) ==> stack_ok(*old(s), *old(tf)),
        fp@.len() <= FP_SIZE,
    ensures
        deliver_post(
            *old(s),
            *old(tf),
            old(mem)@,
            fp@,
            trampoline,
            r,
            *final(s),
            *final(tf),
            final(mem)@,
        ),
{
    let sig: usize = match s.next_deliverable() {
        Some(n) => n,
        None => {
            return Outcome::Quiet;
        },
    };
    s.pending = s.pending & !bit_of(sig);
    if s.in_sigsuspend {
        s.blocked = s.suspended_mask;
        s.in_sigsuspend = false;
    }
    let ghost mid = *s;
    proof {
        assert(mid == taken(*old(s), sig as int));
    }
    let action: SigAction = s.actions[sig];
    if action.handler == SIG_IGN {
        return Outcome::Dropped;
    }
    if action.handler == SIG_DFL {
        if default_action_is_ignore(sig) || default_is_stop(sig) {
            return Outcome::Dropped;
        }
        return Outcome::Exit(128 + sig as i32);
    }
    let mut sp: usize = tf.x[2];
    if action.flags & SA_ONSTACK != 0 && s.altstack_flags & 1 == 0 && s.altstack_sp != 0 {
        sp = s.altstack_sp + s.altstack_size;
    }
    let frame: usize = (sp - SIGFRAME_SIZE) / 16 * 16;
    let data: Vec<u8> = build_frame(s, sig, tf, fp);
    match mem.copy_to_user(frame, &data) {
        Ok(_) => {},
        Err(_) => {
            return Outcome::Dropped;
        },
    }
    s.blocked = s.blocked | action.mask;
    let ghost b1 = s.blocked;
    if action.flags & SA_NODEFER == 0 {
        s.blocked = s.blocked | bit_of(sig);
    } else {
        proof {
            set_algebra(b1, 0, 1);
        }
    }
    if action.flags & SA_RESETHAND != 0 {
        s.actions.set(sig, SigAction::default());
    }
    tf.sepc = action.handler;
    tf.x.set(2, frame);
    tf.x.set(10, sig);
    tf.x.set(11, frame);
    tf.x.set(12, frame + UC_OFF);
    tf.x.set(1, trampoline);
    Outcome::Handler
}

/// Register `i` as a frame at `at` holds it.
pub open spec fn saved_reg(m: Map<int, u8>, at: int, i: int) -> usize {
    num_at(m, at + GREGS + 8 * i, 8) as usize
}

pub open spec fn return_post(
    s0: SignalState,
    t0: UserRegs,
    m: Map<int, u8>,
    r: Result<(usize, Vec<u8>), i32>,
    s1: SignalState,
    t1: UserRegs,
) -> bool {
    let at = t0.x@[2] as int;
    match r {
        Err(e) => e == EFAULT && !mapped(m, at, SIGFRAME_SIZE as int) && s1 == s0 && t1 == t0,
        Ok((a0, fp)) => {
            &&& mapped(m, at, SIGFRAME_SIZE as int)
            &&& t1.sepc == saved_reg(m, at, 0)
            &&& t1.x@ == t0.x@.take(1) + Seq::new(31, |i: int| saved_reg(m, at, i + 1))
            &&& a0 == saved_reg(m, at, 10)
            &&& fp@ == bytes_at(m, at + FP_OFF, FP_SIZE as int)
            &&& s1 == (SignalState {
                blocked: num_at(m, at + 168, 8) as u64,
                altstack_sp: num_at(m, at + 144, 8) as usize,
                altstack_flags: num_at(m, at + 152, 4) as u32,
                altstack_size: num_at(m, at + 160, 8) as usize,
                ..s0
            })
        },
    }
}

/// Restores the program from the frame at its stack pointer. Gives what the
/// call returns, and the floating point state to load.
pub fn sigreturn(s: &mut SignalState, tf: &mut UserRegs, mem: &UserMem) -> (r: Result<
    (usize, Vec<u8>),
    i32,
>)
    requires
        old(tf).wf(),
    ensures
        return_post(*old(s), *old(tf), mem@, r, *final(s), *final(tf)),
{
    let sp: usize = tf.x[2];
    let v: Vec<u8> = match mem.copy_from_user(sp, SIGFRAME_SIZE) {
        Ok(v) => v,
        Err(e) => {
            return Err(e);
        },
    };
    let ghost m = mem@;
    let ghost at = sp as int;
    let ghost x0 = tf.x@;
    proof {
        crate::bytes::lemma_span();
    }
    tf.sepc = field(&v, GREGS, 8, Ghost(m), Ghost(at)) as usize;
    let mut i: usize = 1;
    while i < 32
        invariant
            1 <= i <= 32,
            v@.len() == SIGFRAME_SIZE,
            v@ == bytes_at(m, at, SIGFRAME_SIZE as int),
            tf.x@.len() == 32,
            x0.len() == 32,
            tf.x@[0] == x0[0],
            tf.sepc == saved_reg(m, at, 0),
            forall|j: int| 1 <= j < i ==> #[trigger] tf.x@[j] == saved_reg(m, at, j),
        decreases 32 - i,
    {
        let x: u64 = field(&v, GREGS + 8 * i, 8, Ghost(m), Ghost(at));
        tf.x.set(i, x as usize);
        i = i + 1;
    }
    s.blocked = field(&v, 168, 8, Ghost(m), Ghost(at));
    s.altstack_sp = field(&v, 144, 8, Ghost(m), Ghost(at)) as usize;
    s.altstack_flags = field(&v, 152, 4, Ghost(m), Ghost(at)) as u32;
    s.altstack_size = field(&v, 160, 8, Ghost(m), Ghost(at)) as usize;
    let fp: Vec<u8> = crate::paths::copy_bytes(
        vstd::slice::slice_subrange(&v, FP_OFF, SIGFRAME_SIZE),
    );
    proof {
        assert(fp@ =~= bytes_at(m, at + FP_OFF, FP_SIZE as int));
        assert(tf.x@ =~= x0.take(1) + Seq::new(31, |i: int| saved_reg(m, at, i + 1)));
    }
    Ok((tf.x[10], fp))
}

// ---- Laws -------------------------------------------------------------------------
proof fn lemma_reg_at(tf: UserRegs, n: nat, i: int)
    requires
        1 <= n,
        0 <= i < n,
    ensures
        regs_part(tf, n).len() == 8 * n,
        regs_part(tf, n).subrange(8 * i, 8 * i + 8) == le(
            (if i == 0 {
                tf.sepc
            } else {
                tf.x@[i]
            }) as nat,
            8,
        ),
    decreases n,
{
    lemma_regs_len(tf, n);
    let b = regs_part(tf, n);
    if n <= 1 {
        lemma_le_len(tf.sepc as nat, 8);
        assert(b.subrange(0, 8) =~= b);
    } else {
        lemma_regs_len(tf, (n - 1) as nat);
        lemma_le_len(tf.x@[n - 1] as nat, 8);
        if i == n - 1 {
            assert(b.subrange(8 * i, 8 * i + 8) =~= le(tf.x@[i] as nat, 8));
        } else {
            lemma_reg_at(tf, (n - 1) as nat, i);
            assert(b.subrange(8 * i, 8 * i + 8) =~= regs_part(tf, (n - 1) as nat).subrange(
                8 * i,
                8 * i + 8,
            ));
        }
    }
}

proof fn lemma_read_back(m: Map<int, u8>, at: int, f: Seq<u8>, off: int, x: nat, n: nat)
    requires
        mapped(m, at, f.len() as int),
        0 <= off,
        off + n <= f.len(),
        f.subrange(off, off + n) == le(x, n),
        x < crate::bytes::span(n),
    ensures
        num_at(stored(m, at, f), at + off, n as int) == x,
{
    stored_field(m, at, f, off, x, n);
}

/// Returning from a handler undoes the delivery: program counter, registers
/// and mask are those from before it, where the handler comes back with the
/// stack pointer it was given and has left the frame alone.
pub proof fn return_undoes_delivery(
    s0: SignalState,
    t0: UserRegs,
    m0: Map<int, u8>,
    fp: Seq<u8>,
    trampoline: usize,
    s1: SignalState,
    t1: UserRegs,
    m1: Map<int, u8>,
    s2: SignalState,
    t2: UserRegs,
    m2: Map<int, u8>,
    r: Result<(usize, Vec<u8>), i32>,
    s3: SignalState,
    t3: UserRegs,
)
    requires
        s0.wf(),
        t0.wf(),
        fp.len() <= FP_SIZE,
        1 <= next_of(s0) <= 64,
        is_caught(s0) ==> stack_ok(s0, t0),
        deliver_post(s0, t0, m0, fp, trampoline, Outcome::Handler, s1, t1, m1),
        t2.wf(),
        t2.x@[2] == t1.x@[2],
        mapped(m2, t1.x@[2] as int, SIGFRAME_SIZE as int),
        bytes_at(m2, t1.x@[2] as int, SIGFRAME_SIZE as int) == bytes_at(
            m1,
            t1.x@[2] as int,
            SIGFRAME_SIZE as int,
        ),
        return_post(s2, t2, m2, r, s3, t3),
    ensures
        r is Ok,
        t3.sepc == t0.sepc,
        t3.x@.skip(1) == t0.x@.skip(1),
        r->Ok_0.0 == t0.x@[10],
        s3.blocked == taken(s0, next_of(s0)).blocked,
        s3.altstack_sp == s0.altstack_sp,
        s3.altstack_size == s0.altstack_size,
        s3.altstack_flags == s0.altstack_flags,
{
    let n = next_of(s0);
    let s = taken(s0, n);
    let t = t0;
    let at = frame_at(s, s0.actions@[n].flags, t0.x@[2]);
    let f = frame_spec(s, n, t, fp);
    crate::bytes::lemma_span();
    lemma_parts_len(s, n);
    lemma_regs_len(t, 32);
    assert(f.len() == SIGFRAME_SIZE);
    assert(t1.x@[2] == at as usize);
    assert(0 <= at <= usize::MAX);
    assert(mapped(m1, at, SIGFRAME_SIZE as int)) by {
        assert forall|a: int| at <= a < at + SIGFRAME_SIZE implies #[trigger] m1.dom().contains(
            a,
        ) by {
            assert(m0.dom().contains(a));
        }
    }
    // What is read of the frame is what was written.
    assert forall|o: int, k: int| 0 <= o && 0 <= k && o + k <= SIGFRAME_SIZE implies #[trigger] num_at(
        m2,
        at + o,
        k,
    ) == num_at(m1, at + o, k) by {
        let x = bytes_at(m1, at, SIGFRAME_SIZE as int);
        let y = bytes_at(m2, at, SIGFRAME_SIZE as int);
        assert(bytes_at(m2, at + o, k) =~= y.subrange(o, o + k));
        assert(bytes_at(m1, at + o, k) =~= x.subrange(o, o + k));
    }
    assert forall|i: int| 0 <= i < 32 implies #[trigger] saved_reg(m2, at, i) == saved_reg(
        m1,
        at,
        i,
    ) by {
        assert(num_at(m2, at + (GREGS + 8 * i), 8) == num_at(m1, at + (GREGS + 8 * i), 8));
    }
    assert(num_at(m2, at + 144, 8) == num_at(m1, at + 144, 8));
    assert(num_at(m2, at + 152, 4) == num_at(m1, at + 152, 4));
    assert(num_at(m2, at + 160, 8) == num_at(m1, at + 160, 8));
    assert(num_at(m2, at + 168, 8) == num_at(m1, at + 168, 8));
    assert forall|i: int| 0 <= i < 32 implies #[trigger] saved_reg(m1, at, i) == (if i == 0 {
        t.sepc
    } else {
        t.x@[i]
    }) by {
        lemma_reg_at(t, 32, i);
        let x = if i == 0 {
            t.sepc
        } else {
            t.x@[i]
        };
        assert(f.subrange(GREGS + 8 * i, GREGS + 8 * i + 8) =~= regs_part(t, 32).subrange(
            8 * i,
            8 * i + 8,
        ));
        lemma_read_back(m0, at, f, GREGS + 8 * i, x as nat, 8);
    }
    assert(saved_reg(m2, at, 0) == saved_reg(m1, at, 0) == t.sepc);
    assert(t3.x@.skip(1) =~= t0.x@.skip(1)) by {
        assert forall|i: int| 0 <= i < 31 implies t3.x@.skip(1)[i] == t0.x@.skip(1)[i] by {
            assert(saved_reg(m2, at, i + 1) == saved_reg(m1, at, i + 1));
            assert(saved_reg(m1, at, i + 1) == t.x@[i + 1]);
        }
    }
    assert(saved_reg(m2, at, 10) == saved_reg(m1, at, 10) == t.x@[10]);
    let c = context_part(s);
    lemma_le_len(s.altstack_sp as nat, 8);
    lemma_le_len(s.altstack_flags as nat, 4);
    lemma_le_len(s.altstack_size as nat, 8);
    lemma_le_len(s.blocked as nat, 8);
    assert(f.subrange(144, 152) =~= le(s.altstack_sp as nat, 8));
    assert(f.subrange(152, 156) =~= le(s.altstack_flags as nat, 4));
    assert(f.subrange(160, 168) =~= le(s.altstack_size as nat, 8));
    assert(f.subrange(168, 176) =~= le(s.blocked as nat, 8));
    lemma_read_back(m0, at, f, 144, s.altstack_sp as nat, 8);
    lemma_read_back(m0, at, f, 152, s.altstack_flags as nat, 4);
    lemma_read_back(m0, at, f, 160, s.altstack_size as nat, 8);
    lemma_read_back(m0, at, f, 168, s.blocked as nat, 8);
}

/// A mask that is in force for a suspension stays so until a signal is
/// delivered, which it lets through; once the handler returns, the former mask
/// is back.
pub proof fn suspension_ends_with_delivery(
    s0: SignalState,
    t0: UserRegs,
    m0: Map<int, u8>,
    fp: Seq<u8>,
    trampoline: usize,
    s1: SignalState,
    t1: UserRegs,
    m1: Map<int, u8>,
    s2: SignalState,
    t2: UserRegs,
    m2: Map<int, u8>,
    r: Result<(usize, Vec<u8>), i32>,
    s3: SignalState,
    t3: UserRegs,
)
    requires
        s0.wf(),
        t0.wf(),
        fp.len() <= FP_SIZE,
        s0.in_sigsuspend,
        is_caught(s0) ==> stack_ok(s0, t0),
        deliver_post(s0, t0, m0, fp, trampoline, Outcome::Handler, s1, t1, m1),
        t2.wf(),
        t2.x@[2] == t1.x@[2],
        mapped(m2, t1.x@[2] as int, SIGFRAME_SIZE as int),
        bytes_at(m2, t1.x@[2] as int, SIGFRAME_SIZE as int) == bytes_at(
            m1,
            t1.x@[2] as int,
            SIGFRAME_SIZE as int,
        ),
        return_post(s2, t2, m2, r, s3, t3),
    ensures
        s0.blocked & bit(next_of(s0)) == 0,
        !s1.in_sigsuspend,
        s3.blocked == s0.suspended_mask,
{
    let d = s0.pending & !s0.blocked & !bit(SIGKILL as int) & !bit(SIGSTOP as int);
    lowest_is_lowest(d);
    return_undoes_delivery(s0, t0, m0, fp, trampoline, s1, t1, m1, s2, t2, m2, r, s3, t3);
    lemma_deliverable(s0.pending, s0.blocked, next_of(s0));
}

proof fn lemma_info(m: Map<int, u8>, at: int, f: Seq<u8>, sig: int, i: SigInfo)
    requires
        1 <= sig <= 64,
        f.len() >= 128,
        f.take(128) == info_part(sig, i),
        mapped(m, at, f.len() as int),
    ensures
        ({
            let t = stored(m, at, f);
            &&& num_at(t, at, 4) == sig
            &&& num_at(t, at + 4, 4) == 0
            &&& num_at(t, at + 8, 4) == ((if i.has_info {
                i.code
            } else {
                0x80
            }) as u32)
            &&& sig == 17 ==> {
                &&& num_at(t, at + 16, 4) == i.pid as u32
                &&& num_at(t, at + 20, 4) == i.uid
                &&& num_at(t, at + 24, 4) == i.status as u32
            }
            &&& sig == 4 || sig == 7 || sig == 8 || sig == 11 ==> num_at(t, at + 16, 8) == i.addr
        }),
{
    broadcast use crate::bytes::lemma_le_len;

    crate::bytes::lemma_span();
    let p = info_part(sig, i);
    let code: i32 = if i.has_info {
        i.code
    } else {
        0x80
    };
    assert forall|o: int, e: int| 0 <= o <= e <= 128 implies #[trigger] f.subrange(o, e)
        == p.subrange(o, e) by {
        assert(f.subrange(o, e) =~= f.take(128).subrange(o, e));
    }
    let c = (code as u32) as nat;
    assert(f.subrange(0, 4) == p.subrange(0, 4));
    assert(p.subrange(0, 4) =~= le(sig as nat, 4));
    stored_field(m, at, f, 0, sig as nat, 4);
    assert(f.subrange(4, 8) == p.subrange(4, 8));
    assert(le(0, 4) =~= zeros(4)) by {
        reveal_with_fuel(le, 5);
    }
    assert(p.subrange(4, 8) =~= zeros(4));
    stored_field(m, at, f, 4, 0, 4);
    assert(f.subrange(8, 12) == p.subrange(8, 12));
    assert(p.subrange(8, 12) =~= le(c, 4));
    stored_field(m, at, f, 8, c, 4);
    if sig == 17 {
        assert(f.subrange(16, 20) == p.subrange(16, 20));
        assert(p.subrange(16, 20) =~= le((i.pid as u32) as nat, 4));
        stored_field(m, at, f, 16, (i.pid as u32) as nat, 4);
        assert(f.subrange(20, 24) == p.subrange(20, 24));
        assert(p.subrange(20, 24) =~= le(i.uid as nat, 4));
        stored_field(m, at, f, 20, i.uid as nat, 4);
        assert(f.subrange(24, 28) == p.subrange(24, 28));
        assert(p.subrange(24, 28) =~= le((i.status as u32) as nat, 4));
        stored_field(m, at, f, 24, (i.status as u32) as nat, 4);
    }
    if sig == 4 || sig == 7 || sig == 8 || sig == 11 {
        assert(f.subrange(16, 24) == p.subrange(16, 24));
        assert(p.subrange(16, 24) =~= le(i.addr as nat, 8));
        stored_field(m, at, f, 16, i.addr as nat, 8);
    }
}

/// A handler finds what Linux gives it: the signal in its first argument, in the
/// second the place of the `siginfo_t`, with number, code and, of an ended child,
/// process, user and status, of a fault the address; in the third the place of
/// the `ucontext_t`. The frame lies at the aligned stack pointer, and the handler
/// returns to the trampoline.
pub proof fn handler_is_told(
    s0: SignalState,
    t0: UserRegs,
    m0: Map<int, u8>,
    fp: Seq<u8>,
    trampoline: usize,
    s1: SignalState,
    t1: UserRegs,
    m1: Map<int, u8>,
)
    requires
        s0.wf(),
        t0.wf(),
        fp.len() <= FP_SIZE,
        is_caught(s0) ==> stack_ok(s0, t0),
        deliver_post(s0, t0, m0, fp, trampoline, Outcome::Handler, s1, t1, m1),
    ensures
        ({
            let n = t1.x@[10] as int;
            let at = t1.x@[11] as int;
            let i = s0.info@[n];
            &&& 1 <= n <= 64
            &&& t1.sepc == s0.actions@[n].handler
            &&& t1.x@[1] == trampoline
            &&& t1.x@[2] == at && at % 16 == 0
            &&& t1.x@[12] == at + 128
            &&& num_at(m1, at, 4) == n
            &&& num_at(m1, at + 4, 4) == 0
            &&& num_at(m1, at + 8, 4) == ((if i.has_info {
                i.code
            } else {
                0x80
            }) as u32)
            &&& n == 17 ==> {
                &&& num_at(m1, at + 16, 4) == i.pid as u32
                &&& num_at(m1, at + 20, 4) == i.uid
                &&& num_at(m1, at + 24, 4) == i.status as u32
            }
            &&& n == 4 || n == 7 || n == 8 || n == 11 ==> num_at(m1, at + 16, 8) == i.addr
        }),
{
    let n = next_of(s0);
    let s = taken(s0, n);
    lowest_is_lowest(s0.pending & !s0.blocked & !bit(SIGKILL as int) & !bit(SIGSTOP as int));
    let at = frame_at(s, s0.actions@[n].flags, t0.x@[2]);
    let f = frame_spec(s, n, t0, fp);
    lemma_parts_len(s, n);
    lemma_regs_len(t0, 32);
    assert(f.len() == SIGFRAME_SIZE);
    assert(0 <= at <= usize::MAX);
    assert(m0.dom().contains(at + SIGFRAME_SIZE - 1));
    assert(f.take(128) =~= info_part(n, s.info@[n]));
    lemma_info(m0, at, f, n, s.info@[n]);
}

/// The frame holds the interrupted program: behind the signal information (128
/// bytes) and 16 bytes the alternate stack, then the mask, then from byte 296 on
/// the program counter and registers 1 to 31, then the floating point state.
pub proof fn frame_holds_the_program(
    s0: SignalState,
    t0: UserRegs,
    m0: Map<int, u8>,
    fp: Seq<u8>,
    trampoline: usize,
    s1: SignalState,
    t1: UserRegs,
    m1: Map<int, u8>,
    i: int,
)
    requires
        s0.wf(),
        t0.wf(),
        fp.len() <= FP_SIZE,
        1 <= i < 32,
        is_caught(s0) ==> stack_ok(s0, t0),
        deliver_post(s0, t0, m0, fp, trampoline, Outcome::Handler, s1, t1, m1),
    ensures
        ({
            let at = t1.x@[2] as int;
            &&& num_at(m1, at + 144, 8) == s0.altstack_sp
            &&& num_at(m1, at + 152, 4) == s0.altstack_flags
            &&& num_at(m1, at + 160, 8) == s0.altstack_size
            &&& num_at(m1, at + 168, 8) == (if s0.in_sigsuspend {
                s0.suspended_mask
            } else {
                s0.blocked
            })
            &&& num_at(m1, at + 296, 8) == t0.sepc
            &&& num_at(m1, at + 296 + 8 * i, 8) == t0.x@[i]
            &&& bytes_at(m1, at + 552, fp.len() as int) == fp
        }),
{
    let n = next_of(s0);
    let s = taken(s0, n);
    lowest_is_lowest(s0.pending & !s0.blocked & !bit(SIGKILL as int) & !bit(SIGSTOP as int));
    let at = frame_at(s, s0.actions@[n].flags, t0.x@[2]);
    let f = frame_spec(s, n, t0, fp);
    crate::bytes::lemma_span();
    lemma_parts_len(s, n);
    lemma_regs_len(t0, 32);
    assert(f.len() == SIGFRAME_SIZE);
    assert(0 <= at <= usize::MAX);
    lemma_le_len(s.altstack_sp as nat, 8);
    lemma_le_len(s.altstack_flags as nat, 4);
    lemma_le_len(s.altstack_size as nat, 8);
    lemma_le_len(s.blocked as nat, 8);
    assert(f.subrange(144, 152) =~= le(s.altstack_sp as nat, 8));
    assert(f.subrange(152, 156) =~= le(s.altstack_flags as nat, 4));
    assert(f.subrange(160, 168) =~= le(s.altstack_size as nat, 8));
    assert(f.subrange(168, 176) =~= le(s.blocked as nat, 8));
    stored_field(m0, at, f, 144, s.altstack_sp as nat, 8);
    stored_field(m0, at, f, 152, s.altstack_flags as nat, 4);
    stored_field(m0, at, f, 160, s.altstack_size as nat, 8);
    stored_field(m0, at, f, 168, s.blocked as nat, 8);
    lemma_reg_at(t0, 32, 0);
    assert(f.subrange(296, 304) =~= regs_part(t0, 32).subrange(0, 8));
    stored_field(m0, at, f, 296, t0.sepc as nat, 8);
    lemma_reg_at(t0, 32, i);
    assert(f.subrange(296 + 8 * i, 296 + 8 * i + 8) =~= regs_part(t0, 32).subrange(
        8 * i,
        8 * i + 8,
    ));
    stored_field(m0, at, f, 296 + 8 * i, t0.x@[i] as nat, 8);
    assert forall|j: int| 0 <= j < fp.len() implies bytes_at(m1, at + 552, fp.len() as int)[j]
        == fp[j] by {
        assert(m0.dom().contains(at + 552 + j));
        assert(f[552 + j] == fp[j]);
    }
    assert(bytes_at(m1, at + 552, fp.len() as int) =~= fp);
}

/// The signal that is delivered is the lowest that is pending and not blocked,
/// and never one of the two that no program can catch; it is pending no more. The
/// handler runs with it blocked, unless it asked otherwise (bit 30), and with its
/// own mask.
pub proof fn lowest_is_delivered(
    s0: SignalState,
    t0: UserRegs,
    m0: Map<int, u8>,
    fp: Seq<u8>,
    trampoline: usize,
    r: Outcome,
    s1: SignalState,
    t1: UserRegs,
    m1: Map<int, u8>,
    i: u64,
)
    requires
        deliver_post(s0, t0, m0, fp, trampoline, r, s1, t1, m1),
        i < 64,
    ensures
        ({
            let n = next_of(s0);
            let p = s0.pending & (1u64 << i) != 0 && s0.blocked & (1u64 << i) == 0;
            &&& r is Quiet ==> !p || i == 8 || i == 18
            &&& !(r is Quiet) ==> {
                &&& 1 <= n <= 64 && n != 9 && n != 19
                &&& i + 1 == n ==> p && s1.pending & (1u64 << i) == 0
                &&& i + 1 < n && i != 8 && i != 18 ==> !p
                &&& i + 1 != n ==> s1.pending & (1u64 << i) == s0.pending & (1u64 << i)
            }
            &&& r is Handler ==> {
                let act = s0.actions@[n];
                let before = if s0.in_sigsuspend {
                    s0.suspended_mask
                } else {
                    s0.blocked
                };
                s1.blocked & (1u64 << i) != 0 <==> before & (1u64 << i) != 0 || act.mask & (1u64
                    << i) != 0 || (i + 1 == n && act.flags & 0x4000_0000 == 0)
            }
        }),
{
    let d = s0.pending & !s0.blocked & !bit(SIGKILL as int) & !bit(SIGSTOP as int);
    lowest_is_lowest(d);
    let n = next_of(s0);
    let act = s0.actions@[n];
    let w = taken(s0, n).blocked;
    let sig = i + 1;
    assert(forall|x: u64| member(x, sig) <==> #[trigger] (x & (1u64 << i)) != 0);
    lemma_deliverable(s0.pending, s0.blocked, sig);
    if n > 0 {
        lemma_deliverable(s0.pending, s0.blocked, n);
        one_signal(s0.pending, n, sig);
        set_algebra(s0.pending & !bit(n), s0.pending, sig);
        set_algebra(w, act.mask, sig);
        set_algebra(w | act.mask, bit(n), sig);
        bits_differ(n, sig);
        if sig != n {
            lemma_same_member(s0.pending, n, i);
        }
    }
}

/// Taking out one signal leaves the bit of another as it is.
proof fn lemma_same_member(p: u64, n: int, i: u64)
    requires
        1 <= n <= 64,
        i < 64,
        i + 1 != n,
    ensures
        (p & !bit(n)) & (1u64 << i) == p & (1u64 << i),
{
    let k = (n - 1) as u64;
    assert((p & !(1u64 << k)) & (1u64 << i) == p & (1u64 << i)) by (bit_vector)
        requires
            i < 64,
            k < 64,
            i != k,
    ;
}

/// Which signals can be delivered to a program.
proof fn lemma_deliverable(p: u64, b: u64, sig: int)
    requires
        1 <= sig <= 64,
    ensures
        member(p & !b & !bit(9) & !bit(19), sig) == (member(p, sig) && !member(b, sig) && sig != 9
            && sig != 19),
{
    set_algebra(p, b, sig);
    set_algebra(p & !b, bit(9), sig);
    set_algebra(p & !b & !bit(9), bit(19), sig);
    bits_differ(9, sig);
    bits_differ(19, sig);
}

/// Without a handler the signals that Linux ignores (17, 18, 23, 28, 29) and those
/// that would stop (20, 21, 22) do nothing; every other one ends the process with
/// 128 and its number. An ignored signal does nothing. Nothing of the program or
/// its memory changes then.
pub proof fn uncaught_signal_ends_or_drops(
    s0: SignalState,
    t0: UserRegs,
    m0: Map<int, u8>,
    fp: Seq<u8>,
    trampoline: usize,
    r: Outcome,
    s1: SignalState,
    t1: UserRegs,
    m1: Map<int, u8>,
)
    requires
        deliver_post(s0, t0, m0, fp, trampoline, r, s1, t1, m1),
        next_of(s0) > 0,
    ensures
        ({
            let n = next_of(s0);
            let h = s0.actions@[n].handler;
            &&& h == 1 ==> r == Outcome::Dropped
            &&& h == 0 && (n == 17 || n == 18 || n == 23 || n == 28 || n == 29) ==> r
                == Outcome::Dropped
            &&& h == 0 && (n == 20 || n == 21 || n == 22) ==> r == Outcome::Dropped
            &&& h == 0 && !(n == 17 || n == 18 || n == 23 || n == 28 || n == 29) && !(20 <= n <= 22)
                ==> r == Outcome::Exit((128 + n) as i32)
            &&& h <= 1 ==> t1 == t0 && m1 == m0 && s1.actions == s0.actions
        }),
{
    lowest_is_lowest(s0.pending & !s0.blocked & !bit(SIGKILL as int) & !bit(SIGSTOP as int));
    lowest_is_delivered(s0, t0, m0, fp, trampoline, r, s1, t1, m1, 18);
}

/// A new program starts without handlers: ignored signals stay ignored, every other
/// one has its default action.
pub proof fn no_handler_survives(a: Seq<SigAction>, i: int)
    requires
        0 <= i < a.len(),
    ensures
        after_exec(a)[i].handler == (if a[i].handler == 1 {
            1usize
        } else {
            0
        }),
        after_exec(a)[i].flags == 0 && after_exec(a)[i].mask == 0,
        after_exec(a).len() == a.len(),
{
}

} // verus!
