//! Signals with a small frame: the registers, the mask, and nothing else.

use vstd::prelude::*;
use std::collections::VecDeque;
use crate::bytes::{le, put_le};
use crate::sigset::{bit, bit_of, member, lowest, lowest_of, one_signal};
use crate::uaccess::{bytes_at, field, mapped, num_at, stored, UserMem};

verus! {

pub const SIG_DFL: usize = 0;

pub const SIG_IGN: usize = 1;

pub const SA_ONSTACK: u32 = 0x0800_0000;

pub const SA_NODEFER: u32 = 0x4000_0000;

pub const SA_RESETHAND: u32 = 0x8000_0000;

/// Signals are 1 to 63.
pub const SIGNALS: usize = 64;

/// Bytes of a signal frame: 32 registers, the program counter, the status
/// register, the mask, and padding.
pub const FRAME: usize = 288;

pub struct SignalState {
    /// Handler addresses by signal.
    pub handlers: Vec<usize>,
    pub flags: Vec<u32>,
    pub mask: u64,
    pub pending: u64,
    pub altstack_sp: usize,
    pub altstack_size: usize,
    pub altstack_active: bool,
}

/// The registers of a user program.
pub struct TrapFrame {
    pub regs: Vec<usize>,
    pub sepc: usize,
    pub sstatus: usize,
}

impl TrapFrame {
    pub open spec fn wf(&self) -> bool {
        self.regs@.len() == 32
    }
}

/// Signals whose default action is to do nothing: a child's end, urgent data, and
/// a new window size.
pub open spec fn ignored_by_default(sig: int) -> bool {
    sig == 17 || sig == 23 || sig == 28
}

impl SignalState {
    pub open spec fn wf(&self) -> bool {
        &&& self.handlers@.len() == SIGNALS
        &&& self.flags@.len() == SIGNALS
        &&& !member(self.pending, 64)
    }

    /// Every signal has its default action, and none is pending or masked.
    pub fn new() -> (r: SignalState)
        ensures
            r.wf(),
            r.handlers@ == Seq::new(SIGNALS as nat, |i: int| SIG_DFL),
            r.flags@ == Seq::new(SIGNALS as nat, |i: int| 0u32),
            r.mask == 0,
            r.pending == 0,
            r.altstack_sp == 0,
            r.altstack_size == 0,
            !r.altstack_active,
    {
        let mut handlers: Vec<usize> = Vec::new();
        let mut flags: Vec<u32> = Vec::new();
        let mut i: usize = 0;
        while i < SIGNALS
            invariant
                i <= SIGNALS,
                handlers@ =~= Seq::new(i as nat, |i: int| SIG_DFL),
                flags@ =~= Seq::new(i as nat, |i: int| 0u32),
            decreases SIGNALS - i,
        {
            handlers.push(SIG_DFL);
            flags.push(0);
            i = i + 1;
        }
        proof {
            crate::sigset::lowest_is_lowest(0);
        }
        SignalState {
            handlers,
            flags,
            mask: 0,
            pending: 0,
            altstack_sp: 0,
            altstack_size: 0,
            altstack_active: false,
        }
    }

    pub fn default_ignore(sig: usize) -> (r: bool)
        ensures
            r == ignored_by_default(sig as int),
    {
        sig == 17 || sig == 23 || sig == 28
    }
}

/// The lowest pending signal that is not masked, or 0.
pub open spec fn next_of(s: SignalState) -> int {
    lowest(s.pending & !s.mask)
}

proof fn lemma_next(s: SignalState)
    requires
        s.wf(),
    ensures
        0 <= next_of(s) <= 63,
        next_of(s) > 0 ==> member(s.pending, next_of(s)),
{
    let p = s.pending;
    let m = s.mask;
    let n = lowest(p & !m);
    crate::sigset::lowest_is_lowest(p & !m);
    if n > 0 {
        crate::sigset::set_algebra(p, m, n);
    }
}

pub fn next_pending(s: &SignalState) -> (r: usize)
    requires
        s.wf(),
    ensures
        r == next_of(*s),
        r <= 63,
{
    proof {
        lemma_next(*s);
    }
    lowest_of(s.pending & !s.mask)
}

pub fn has_pending(s: &SignalState) -> (r: bool)
    requires
        s.wf(),
    ensures
        r == (next_of(*s) != 0),
{
    next_pending(s) != 0
}

/// The signal is pending and does nothing.
pub open spec fn idle_signal(s: SignalState, sig: int) -> bool {
    s.handlers@[sig] == SIG_IGN || (s.handlers@[sig] == SIG_DFL && ignored_by_default(sig))
}

/// The pending set without the signals that come first and do nothing.
pub open spec fn settled(s: SignalState) -> u64
    decreases s.pending,
    when s.wf()
    via settled_decreases
{
    let n = next_of(s);
    if n > 0 && idle_signal(s, n) {
        settled(SignalState { pending: s.pending & !bit(n), ..s })
    } else {
        s.pending
    }
}

#[via_fn]
proof fn settled_decreases(s: SignalState) {
    let n = next_of(s);
    lemma_next(s);
    if n > 0 {
        one_signal(s.pending, n, 64);
    }
}

/// What delivery comes to.
#[derive(Clone, Copy, PartialEq, Eq, Structural, Debug)]
pub enum Delivery {
    /// No signal is left to deliver.
    Quiet,
    /// The program goes on in a handler.
    Handler,
    /// The program ends with this exit code.
    Exit(i32),
}

/// Where the frame for a signal with these flags goes: below the alternate
/// stack's end or the stack pointer, rounded down.
pub open spec fn frame_at(s: SignalState, sp: usize, flags: u32) -> int {
    let top = if flags & SA_ONSTACK != 0 && s.altstack_size > 0 {
        (s.altstack_sp + s.altstack_size) as int
    } else {
        sp as int
    };
    top / 16 * 16 - FRAME
}

/// The words of a frame.
pub open spec fn words_bytes(w: Seq<u64>) -> Seq<u8>
    decreases w.len(),
{
    if w.len() == 0 {
        Seq::empty()
    } else {
        words_bytes(w.drop_last()) + le(w.last() as nat, 8)
    }
}

pub open spec fn frame_words(tf: TrapFrame, mask: u64) -> Seq<u64> {
    Seq::new(32, |i: int| tf.regs@[i] as u64) + seq![
        tf.sepc as u64,
        tf.sstatus as u64,
        mask,
        0u64,
    ]
}

/// What the program's registers are in the handler, whose stack pointer is at
/// the frame.
pub open spec fn in_handler(tf: TrapFrame, sig: int, handler: usize, sp: int, ra: usize) -> Seq<
    usize,
> {
    tf.regs@.update(10, sig as usize).update(1, ra).update(2, sp as usize)
}

pub open spec fn deliver_post(
    s0: SignalState,
    t0: TrapFrame,
    m0: Map<int, u8>,
    trampoline: usize,
    r: Delivery,
    s1: SignalState,
    t1: TrapFrame,
    m1: Map<int, u8>,
) -> bool {
    let p = SignalState { pending: settled(s0), ..s0 };
    let n = next_of(p);
    &&& s1.wf()
    &&& t1.wf()
    &&& if n == 0 {
        &&& r == Delivery::Quiet
        &&& t1 == t0 && m1 == m0
        &&& s1 == p
    } else if s0.handlers@[n] == SIG_DFL {
        &&& r == Delivery::Exit((128 + n) as i32)
        &&& t1 == t0 && m1 == m0
        &&& s1 == p
    } else {
        let flags = s0.flags@[n];
        let at = frame_at(s0, t0.regs@[2], flags);
        &&& r == Delivery::Handler
        &&& m1 == stored(m0, at, words_bytes(frame_words(t0, s0.mask)))
        &&& t1.regs@ == in_handler(t0, n, s0.handlers@[n], at, trampoline)
        &&& t1.sepc == s0.handlers@[n]
        &&& t1.sstatus == t0.sstatus
        &&& s1.pending == p.pending & !bit(n)
        &&& s1.mask == (if flags & SA_NODEFER == 0 {
            s0.mask | bit(n)
        } else {
            s0.mask
        })
        &&& s1.handlers@ == (if flags & SA_RESETHAND != 0 {
            s0.handlers@.update(n, SIG_DFL)
        } else {
            s0.handlers@
        })
        &&& s1 == (SignalState {
            pending: s1.pending,
            mask: s1.mask,
            handlers: s1.handlers,
            ..s0
        })
    }
}

/// The frame that delivery will write, if it will, can be written.
pub open spec fn frame_fits(s: SignalState, tf: TrapFrame, m: Map<int, u8>) -> bool {
    let p = SignalState { pending: settled(s), ..s };
    let n = next_of(p);
    n > 0 && s.handlers@[n] != SIG_DFL ==> {
        let at = frame_at(s, tf.regs@[2], s.flags@[n]);
        &&& 0 <= at && at + FRAME <= usize::MAX
        &&& mapped(m, at, FRAME as int)
    }
}

proof fn lemma_words_len(w: Seq<u64>)
    ensures
        words_bytes(w).len() == 8 * w.len(),
    decreases w.len(),
{
    if w.len() > 0 {
        lemma_words_len(w.drop_last());
        crate::bytes::lemma_le_len(w.last() as nat, 8);
    }
}

fn frame_bytes(tf: &TrapFrame, mask: u64) -> (v: Vec<u8>)
    requires
        tf.wf(),
    ensures
        v@ == words_bytes(frame_words(*tf, mask)),
        v@.len() == FRAME,
{
    let ghost w = frame_words(*tf, mask);
    let mut v: Vec<u8> = Vec::new();
    let mut i: usize = 0;
    proof {
        assert(w.take(0) =~= Seq::empty());
        assert(v@ =~= words_bytes(w.take(0)));
    }
    while i < 36
        invariant
            i <= 36,
            tf.wf(),
            w == frame_words(*tf, mask),
            v@ == words_bytes(w.take(i as int)),
        decreases 36 - i,
    {
        proof {
            assert(w.take(i + 1).drop_last() =~= w.take(i as int));
            assert(w.take(i + 1).last() == w[i as int]);
        }
        let x: u64 = if i < 32 {
            tf.regs[i] as u64
        } else if i == 32 {
            tf.sepc as u64
        } else if i == 33 {
            tf.sstatus as u64
        } else if i == 34 {
            mask
        } else {
            0
        };
        put_le(&mut v, x, 8);
        i = i + 1;
    }
    proof {
        assert(w.take(36) =~= w);
        lemma_words_len(w);
    }
    v
}

/// Delivers the first pending signal that does something: a handler is entered
/// or the program ends. Those before it that do nothing are dropped.
#[verifier::loop_isolation(false)]
pub fn maybe_deliver(
    s: &mut SignalState,
    tf: &mut TrapFrame,
    mem: &mut UserMem,
    trampoline: usize,
) -> (r: Delivery)
    requires
        old(s).wf(),
        old(tf).wf(),
        frame_fits(*old(s), *old(tf), old(mem)@),
    ensures
        deliver_post(
            *old(s),
            *old(tf),
            old(mem)@,
            trampoline,
            r,
            *final(s),
            *final(tf),
            final(mem)@,
        ),
{
    let ghost s0 = *s;
    loop
        invariant
            s.wf(),
            *s == (SignalState { pending: s.pending, ..s0 }),
            settled(*s) == settled(s0),
            *tf == *old(tf),
            mem@ == old(mem)@,
        decreases s.pending,
    {
        let sig: usize = next_pending(s);
        proof {
            lemma_next(*s);
        }
        if sig == 0 {
            return Delivery::Quiet;
        }
        let handler: usize = s.handlers[sig];
        let flags: u32 = s.flags[sig];
        if handler == SIG_IGN || (handler == SIG_DFL && SignalState::default_ignore(sig)) {
            proof {
                one_signal(s.pending, sig as int, 64);
                one_signal(s.pending, sig as int, sig as int);
            }
            s.pending = s.pending & !bit_of(sig);
            continue ;
        }
        assert(settled(*s) == s.pending);
        if handler == SIG_DFL {
            return Delivery::Exit(128 + sig as i32);
        }
        let top: usize = if flags & SA_ONSTACK != 0 && s.altstack_size > 0 {
            s.altstack_sp + s.altstack_size
        } else {
            tf.regs[2]
        };
        let at: usize = top / 16 * 16 - FRAME;
        let v: Vec<u8> = frame_bytes(tf, s.mask);
        let stored_ok: Result<(), i32> = mem.copy_to_user(at, &v);
        tf.regs.set(10, sig);
        tf.regs.set(1, trampoline);
        tf.regs.set(2, at);
        tf.sepc = handler;
        if flags & SA_NODEFER == 0 {
            s.mask = s.mask | bit_of(sig);
        }
        if flags & SA_RESETHAND != 0 {
            s.handlers.set(sig, SIG_DFL);
        }
        proof {
            one_signal(s.pending, sig as int, 64);
        }
        s.pending = s.pending & !bit_of(sig);
        return Delivery::Handler;
    }
}

/// What a task is doing.
#[derive(Clone, Copy, PartialEq, Eq, Structural, Debug)]
pub enum RunState {
    Free,
    Ready,
    Running,
    Blocked,
    Zombie,
}

/// A task that signals can be sent to.
pub struct SigTask {
    pub state: RunState,
    /// What a blocked task waits for.
    pub wchan: usize,
    pub sig: SignalState,
}

pub open spec fn sent(t: SigTask, sig: int) -> SigTask {
    SigTask {
        state: if t.state is Blocked {
            RunState::Ready
        } else {
            t.state
        },
        wchan: if t.state is Blocked {
            0
        } else {
            t.wchan
        },
        sig: SignalState {
            pending: if sig == 0 {
                t.sig.pending
            } else {
                t.sig.pending | bit(sig)
            },
            ..t.sig
        },
    }
}

/// Makes a signal pending on a task, and a blocked task ready. Numbers out of
/// range, and tasks that are gone, are passed over. Signal 0 is never pending,
/// but it too makes a blocked task ready.
pub fn send_signal(
    tasks: &mut Vec<SigTask>,
    ready: &mut VecDeque<usize>,
    pid: usize,
    sig: usize,
)
    requires
        forall|i: int| 0 <= i < old(tasks)@.len() ==> (#[trigger] old(tasks)@[i]).sig.wf(),
    ensures
        forall|i: int| 0 <= i < final(tasks)@.len() ==> (#[trigger] final(tasks)@[i]).sig.wf(),
        ({
            let t = old(tasks)@[pid as int];
            if sig > 63 || pid >= old(tasks)@.len() || t.state is Zombie || t.state is Free {
                final(tasks)@ == old(tasks)@ && final(ready)@ == old(ready)@
            } else {
                &&& final(tasks)@ == old(tasks)@.update(pid as int, sent(t, sig as int))
                &&& final(ready)@ == (if t.state is Blocked {
                    old(ready)@.push(pid)
                } else {
                    old(ready)@
                })
            }
        }),
{
    if sig > 63 || pid >= tasks.len() {
        return;
    }
    let state: RunState = tasks[pid].state;
    if state == RunState::Zombie || state == RunState::Free {
        return;
    }
    let ghost l = tasks@;
    if sig != 0 {
        proof {
            one_signal(tasks@[pid as int].sig.pending, sig as int, 64);
        }
        tasks[pid].sig.pending = tasks[pid].sig.pending | bit_of(sig);
    }
    if state == RunState::Blocked {
        tasks[pid].state = RunState::Ready;
        tasks[pid].wchan = 0;
        ready.push_back(pid);
    }
    proof {
        assert(tasks@ =~= l.update(pid as int, sent(l[pid as int], sig as int)));
    }
}

/// A signal that was sent is pending, and is delivered next unless it is masked
/// or a lower one is pending.
pub proof fn sent_is_pending(t: SigTask, sig: int)
    requires
        1 <= sig <= 63,
        t.sig.pending & !t.sig.mask == 0,
        !member(t.sig.mask, sig),
    ensures
        member(sent(t, sig).sig.pending, sig),
        next_of(sent(t, sig).sig) == sig,
{
    let p = t.sig.pending;
    let m = t.sig.mask;
    let b = bit(sig);
    one_signal(p, sig, sig);
    assert((p | b) & !m == b) by (bit_vector)
        requires
            p & !m == 0,
            m & b == 0,
    ;
    crate::sigset::lowest_is_lowest(b);
    crate::sigset::set_algebra(b, 0, sig);
    let l = lowest(b);
    one_signal(0, sig, l);
    crate::sigset::lowest_is_lowest(0);
}

/// The registers that a frame at `at` holds.
pub open spec fn saved_regs(m: Map<int, u8>, at: int) -> Seq<usize> {
    Seq::new(32, |i: int| num_at(m, at + 8 * i, 8) as usize)
}

/// The program as the frame at its stack pointer restores it.
pub open spec fn return_post(
    s0: SignalState,
    t0: TrapFrame,
    m: Map<int, u8>,
    s1: SignalState,
    t1: TrapFrame,
) -> bool {
    let at = t0.regs@[2] as int;
    &&& t1.regs@ == saved_regs(m, at)
    &&& t1.sepc == num_at(m, at + 256, 8) as usize
    &&& t1.sstatus == num_at(m, at + 264, 8) as usize
    &&& s1 == (SignalState { mask: num_at(m, at + 272, 8) as u64, ..s0 })
}

/// Restores the program from the frame at its stack pointer.
pub fn sigreturn(s: &mut SignalState, tf: &mut TrapFrame, mem: &UserMem)
    requires
        old(s).wf(),
        old(tf).wf(),
        mapped(mem@, old(tf).regs@[2] as int, FRAME as int),
    ensures
        return_post(*old(s), *old(tf), mem@, *final(s), *final(tf)),
{
    let sp: usize = tf.regs[2];
    match mem.copy_from_user(sp, FRAME) {
        Ok(v) => {
            let ghost m = mem@;
            let ghost at = sp as int;
            let mut regs: Vec<usize> = Vec::new();
            let mut i: usize = 0;
            while i < 32
                invariant
                    i <= 32,
                    v@.len() == FRAME,
                    v@ == bytes_at(m, at, FRAME as int),
                    regs@.len() == i,
                    forall|j: int| 0 <= j < i ==> #[trigger] regs@[j] == num_at(m, at + 8 * j, 8)
                        as usize,
                decreases 32 - i,
            {
                let x: u64 = field(&v, 8 * i, 8, Ghost(m), Ghost(at));
                regs.push(x as usize);
                i = i + 1;
            }
            proof {
                crate::bytes::lemma_span();
                assert(regs@ =~= saved_regs(m, at));
            }
            tf.regs = regs;
            tf.sepc = field(&v, 256, 8, Ghost(m), Ghost(at)) as usize;
            tf.sstatus = field(&v, 264, 8, Ghost(m), Ghost(at)) as usize;
            s.mask = field(&v, 272, 8, Ghost(m), Ghost(at));
        },
        Err(_) => {},
    }
}

proof fn lemma_word_at(w: Seq<u64>, i: int)
    requires
        0 <= i < w.len(),
    ensures
        words_bytes(w).len() == 8 * w.len(),
        words_bytes(w).subrange(8 * i, 8 * i + 8) == le(w[i] as nat, 8),
    decreases w.len(),
{
    let d = w.drop_last();
    lemma_words_len(d);
    lemma_words_len(w);
    crate::bytes::lemma_le_len(w.last() as nat, 8);
    let b = words_bytes(w);
    if i == w.len() - 1 {
        assert(b.subrange(8 * i, 8 * i + 8) =~= le(w.last() as nat, 8));
    } else {
        lemma_word_at(d, i);
        assert(b.subrange(8 * i, 8 * i + 8) =~= words_bytes(d).subrange(8 * i, 8 * i + 8));
    }
}

/// A frame holds what delivery saved.
proof fn lemma_frame(m: Map<int, u8>, at: int, tf: TrapFrame, mask: u64)
    requires
        tf.wf(),
        mapped(m, at, FRAME as int),
    ensures
        ({
            let t = stored(m, at, words_bytes(frame_words(tf, mask)));
            &&& saved_regs(t, at) == tf.regs@
            &&& num_at(t, at + 256, 8) == tf.sepc
            &&& num_at(t, at + 264, 8) == tf.sstatus
            &&& num_at(t, at + 272, 8) == mask
        }),
{
    let w = frame_words(tf, mask);
    let b = words_bytes(w);
    let t = stored(m, at, b);
    lemma_words_len(w);
    crate::bytes::lemma_span();
    assert forall|i: int| 0 <= i < 36 implies #[trigger] num_at(t, at + 8 * i, 8) == w[i] by {
        lemma_word_at(w, i);
        crate::bytes::from_le_of_le(w[i] as nat, 8);
        let got = bytes_at(t, at + 8 * i, 8);
        assert forall|j: int| 0 <= j < 8 implies got[j] == le(w[i] as nat, 8)[j] by {
            crate::bytes::lemma_le_len(w[i] as nat, 8);
            assert(m.dom().contains(at + 8 * i + j));
            assert(b.subrange(8 * i, 8 * i + 8)[j] == b[8 * i + j]);
        }
        crate::bytes::lemma_le_len(w[i] as nat, 8);
        assert(got =~= le(w[i] as nat, 8));
    }
    assert(saved_regs(t, at) =~= tf.regs@) by {
        assert forall|i: int| 0 <= i < 32 implies saved_regs(t, at)[i] == tf.regs@[i] by {
            assert(num_at(t, at + 8 * i, 8) == w[i]);
        }
    }
    assert(num_at(t, at + 8 * 32, 8) == w[32]);
    assert(num_at(t, at + 8 * 33, 8) == w[33]);
    assert(num_at(t, at + 8 * 34, 8) == w[34]);
}

/// Returning from a handler undoes its delivery: registers, program counter,
/// status and mask are those from before it, where the handler comes back with
/// the stack pointer it was given and has left the frame alone.
pub proof fn return_undoes_delivery(
    s0: SignalState,
    t0: TrapFrame,
    m0: Map<int, u8>,
    trampoline: usize,
    s1: SignalState,
    t1: TrapFrame,
    m1: Map<int, u8>,
    s2: SignalState,
    t2: TrapFrame,
    m2: Map<int, u8>,
    s3: SignalState,
    t3: TrapFrame,
)
    requires
        t0.wf(),
        frame_fits(s0, t0, m0),
        deliver_post(s0, t0, m0, trampoline, Delivery::Handler, s1, t1, m1),
        t2.regs@[2] == t1.regs@[2],
        bytes_at(m2, t1.regs@[2] as int, FRAME as int) == bytes_at(
            m1,
            t1.regs@[2] as int,
            FRAME as int,
        ),
        return_post(s2, t2, m2, s3, t3),
    ensures
        t3.regs@ == t0.regs@,
        t3.sepc == t0.sepc,
        t3.sstatus == t0.sstatus,
        s3.mask == s0.mask,
{
    let p = SignalState { pending: settled(s0), ..s0 };
    let n = next_of(p);
    let at = frame_at(s0, t0.regs@[2], s0.flags@[n]);
    crate::sigset::lowest_is_lowest(p.pending & !p.mask);
    lemma_frame(m0, at, t0, s0.mask);
    assert(t1.regs@[2] == at as usize);
    assert forall|o: int| 0 <= o && o + 8 <= FRAME implies #[trigger] num_at(m2, at + o, 8) == num_at(
        m1,
        at + o,
        8,
    ) by {
        let x = bytes_at(m1, at, FRAME as int);
        let y = bytes_at(m2, at, FRAME as int);
        assert(bytes_at(m2, at + o, 8) =~= y.subrange(o, o + 8));
        assert(bytes_at(m1, at + o, 8) =~= x.subrange(o, o + 8));
    }
    assert(saved_regs(m2, at) =~= saved_regs(m1, at));
    assert(num_at(m2, at + 256, 8) == num_at(m1, at + 256, 8));
    assert(num_at(m2, at + 264, 8) == num_at(m1, at + 264, 8));
    assert(num_at(m2, at + 272, 8) == num_at(m1, at + 272, 8));
}

/// The code of the page that handlers return to: it makes the return call.
pub open spec fn trampoline_code() -> Seq<u8> {
    seq![0x93u8, 0x08u8, 0xb0u8, 0x08u8, 0x73u8, 0x00u8, 0x00u8, 0x00u8]
}

/// The bytes to put at the start of the trampoline page: `li a7, 139; ecall`.
pub fn install_trampoline() -> (r: Vec<u8>)
    ensures
        r@ == trampoline_code(),
{
    let mut v: Vec<u8> = Vec::new();
    put_le(&mut v, 0x08b0_0893, 4);
    put_le(&mut v, 0x73, 4);
    proof {
        reveal_with_fuel(le, 5);
        assert(v@ =~= trampoline_code());
    }
    v
}

/// A handler is entered with its signal in the first argument, a return address at
/// the trampoline, and the stack pointer at the frame, which is aligned; every
/// other register is as the program left it. The signal is not pending any more,
/// and it is masked unless the handler asked otherwise.
pub proof fn handler_is_entered(
    s0: SignalState,
    t0: TrapFrame,
    m0: Map<int, u8>,
    trampoline: usize,
    s1: SignalState,
    t1: TrapFrame,
    m1: Map<int, u8>,
    i: int,
)
    requires
        s0.wf(),
        t0.wf(),
        frame_fits(s0, t0, m0),
        deliver_post(s0, t0, m0, trampoline, Delivery::Handler, s1, t1, m1),
        0 <= i < 32,
    ensures
        ({
            let n = t1.regs@[10] as int;
            &&& 1 <= n <= 64
            &&& t1.sepc == s0.handlers@[n] && t1.sepc != SIG_DFL
            &&& t1.regs@[1] == trampoline
            &&& t1.regs@[2] % 16 == 0 && t1.regs@[2] + FRAME <= usize::MAX
            &&& i != 1 && i != 2 && i != 10 ==> t1.regs@[i] == t0.regs@[i]
            &&& !member(s1.pending, n)
            &&& s0.flags@[n] & SA_NODEFER == 0 ==> member(s1.mask, n)
        }),
{
    let p = SignalState { pending: settled(s0), ..s0 };
    let n = next_of(p);
    crate::sigset::lowest_is_lowest(p.pending & !p.mask);
    one_signal(p.pending, n, n);
    one_signal(s0.mask, n, n);
}

} // verus!
