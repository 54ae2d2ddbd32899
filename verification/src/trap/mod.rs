//! Traps: the frame they save, and what each of them leads to.

use vstd::prelude::*;

pub mod context;
pub mod frame;

verus! {

pub const SSTATUS_SPIE: usize = 0x20;
pub const SSTATUS_SPP: usize = 0x100;
pub const SSTATUS_FS_INITIAL: usize = 0x2000;
pub const SSTATUS_SUM: usize = 0x4_0000;

/// The enabled interrupts: timer and external.
pub const SIE_STIE: usize = 0x20;
pub const SIE_SEIE: usize = 0x200;

/// The bit that tells interrupts from exceptions.
pub const CAUSE_INTERRUPT: u64 = 0x8000_0000_0000_0000;

pub const SIGILL: i32 = 4;
pub const SIGTRAP: i32 = 5;
pub const SIGBUS: i32 = 7;
pub const SIGSEGV: i32 = 11;

/// Integer and floating point registers of a user program, and the kernel
/// stack to switch to.
#[derive(Clone, Copy, Debug)]
pub struct TrapFrame {
    pub x: [usize; 32],
    pub sepc: usize,
    pub sstatus: usize,
    pub kernel_sp: usize,
    pub f: [u64; 32],
    pub fcsr: usize,
}

impl TrapFrame {
    /// The frame with which a program starts.
    pub fn new_user(entry: usize, sp: usize, kernel_sp: usize) -> (r: TrapFrame)
        ensures
            r.sepc == entry,
            forall|i: int|
                0 <= i < 32 ==> r.x@[i] == (if i == 2 {
                    sp
                } else {
                    0
                }),
            r.sstatus == SSTATUS_SPIE | SSTATUS_FS_INITIAL | SSTATUS_SUM,
            r.kernel_sp == kernel_sp,
            forall|i: int| 0 <= i < 32 ==> r.f@[i] == 0,
            r.fcsr == 0,
    {
        let mut tf = TrapFrame {
            x: [0; 32],
            sepc: entry,
            sstatus: SSTATUS_SPIE | SSTATUS_FS_INITIAL | SSTATUS_SUM,
            kernel_sp,
            f: [0; 32],
            fcsr: 0,
        };
        tf.x[2] = sp;
        tf
    }

    pub fn a0(&self) -> (r: usize)
        ensures
            r == self.x@[10],
    {
        self.x[10]
    }

    pub fn set_a0(&mut self, v: usize)
        ensures
            final(self).x@ == old(self).x@.update(10, v),
            *final(self) == (TrapFrame { x: final(self).x, ..*old(self) }),
    {
        self.x[10] = v;
    }

    pub fn sp(&self) -> (r: usize)
        ensures
            r == self.x@[2],
    {
        self.x[2]
    }

    pub fn set_sp(&mut self, v: usize)
        ensures
            final(self).x@ == old(self).x@.update(2, v),
            *final(self) == (TrapFrame { x: final(self).x, ..*old(self) }),
    {
        self.x[2] = v;
    }

    /// The arguments of a system call.
    pub fn syscall_args(&self) -> (r: [usize; 6])
        ensures
            r@ == self.x@.subrange(10, 16),
    {
        let r: [usize; 6] = [
            self.x[10],
            self.x[11],
            self.x[12],
            self.x[13],
            self.x[14],
            self.x[15],
        ];
        proof {
            assert(r@ =~= self.x@.subrange(10, 16));
        }
        r
    }
}

/// Callee-saved registers of a kernel context.
#[derive(Clone, Copy, Debug)]
pub struct Context {
    pub ra: usize,
    pub sp: usize,
    pub s: [usize; 12],
    pub fs: [u64; 12],
}

impl Context {
    pub fn zero() -> (r: Context)
        ensures
            r.ra == 0,
            r.sp == 0,
            forall|i: int| 0 <= i < 12 ==> r.s@[i] == 0,
            forall|i: int| 0 <= i < 12 ==> r.fs@[i] == 0,
    {
        Context { ra: 0, sp: 0, s: [0; 12], fs: [0; 12] }
    }
}

/// What is written to `sie` when traps are set up.
pub fn init() -> (sie: usize)
    ensures
        sie == SIE_STIE | SIE_SEIE,
{
    SIE_STIE | SIE_SEIE
}

/// What an interrupt leads to.
#[derive(Clone, Copy, PartialEq, Eq, Structural, Debug)]
pub enum Interrupt {
    /// Run the timers; then yield, if a user program was interrupted.
    Timer { yields: bool },
    /// Ask the interrupt controller.
    External,
    /// None that was enabled.
    Unknown,
}

pub fn handle_interrupt(cause: u64, from_user: bool) -> (r: Interrupt)
    ensures
        r == (if cause & !CAUSE_INTERRUPT == 5 {
            Interrupt::Timer { yields: from_user }
        } else if cause & !CAUSE_INTERRUPT == 9 {
            Interrupt::External
        } else {
            Interrupt::Unknown
        }),
{
    match cause & !CAUSE_INTERRUPT {
        5 => Interrupt::Timer { yields: from_user },
        9 => Interrupt::External,
        _ => Interrupt::Unknown,
    }
}

/// How memory was accessed.
#[derive(Clone, Copy, PartialEq, Eq, Structural, Debug)]
pub enum AccessKind {
    Exec,
    Read,
    Write,
}

/// What a trap of a user program leads to.
#[derive(Clone, Copy, PartialEq, Eq, Structural, Debug)]
pub enum UserTrap {
    Irq(Interrupt),
    /// A system call; the program goes on behind it.
    Syscall,
    /// A page fault, for the address space to resolve.
    Fault(AccessKind),
    /// The program gets a signal.
    Signal(i32),
    /// Nothing that a program can cause.
    Unknown,
}

pub open spec fn user_trap(scause: u64) -> UserTrap {
    if scause & CAUSE_INTERRUPT != 0 {
        UserTrap::Irq(
            if scause & !CAUSE_INTERRUPT == 5 {
                Interrupt::Timer { yields: true }
            } else if scause & !CAUSE_INTERRUPT == 9 {
                Interrupt::External
            } else {
                Interrupt::Unknown
            },
        )
    } else {
        match scause {
            8 => UserTrap::Syscall,
            12 => UserTrap::Fault(AccessKind::Exec),
            13 => UserTrap::Fault(AccessKind::Read),
            15 => UserTrap::Fault(AccessKind::Write),
            2 => UserTrap::Signal(SIGILL),
            3 => UserTrap::Signal(SIGTRAP),
            0 | 4 | 6 => UserTrap::Signal(SIGBUS),
            1 | 5 | 7 => UserTrap::Signal(SIGSEGV),
            _ => UserTrap::Unknown,
        }
    }
}

/// Classifies a trap of a user program, and moves the program behind a system
/// call.
pub fn user_trap_handler(tf: &mut TrapFrame, scause: u64) -> (r: UserTrap)
    requires
        user_trap(scause) == UserTrap::Syscall ==> old(tf).sepc <= usize::MAX - 4,
    ensures
        r == user_trap(scause),
        *final(tf) == (TrapFrame {
            sepc: if r == UserTrap::Syscall {
                (old(tf).sepc + 4) as usize
            } else {
                old(tf).sepc
            },
            ..*old(tf)
        }),
{
    if scause & CAUSE_INTERRUPT != 0 {
        return UserTrap::Irq(handle_interrupt(scause, true));
    }
    match scause {
        8 => {
            tf.sepc = tf.sepc + 4;
            UserTrap::Syscall
        },
        12 => UserTrap::Fault(AccessKind::Exec),
        13 => UserTrap::Fault(AccessKind::Read),
        15 => UserTrap::Fault(AccessKind::Write),
        2 => UserTrap::Signal(SIGILL),
        3 => UserTrap::Signal(SIGTRAP),
        0 | 4 | 6 => UserTrap::Signal(SIGBUS),
        1 | 5 | 7 => UserTrap::Signal(SIGSEGV),
        _ => UserTrap::Unknown,
    }
}

/// Why a page fault could not be resolved.
#[derive(Clone, Copy, PartialEq, Eq, Structural, Debug)]
pub enum FaultError {
    NoMapping,
    Protection,
    Io,
}

/// The signal for a page fault that could not be resolved.
pub fn fault_signal(e: FaultError) -> (sig: i32)
    ensures
        sig == (if e == FaultError::Io {
            SIGBUS
        } else {
            SIGSEGV
        }),
{
    match e {
        FaultError::NoMapping | FaultError::Protection => SIGSEGV,
        FaultError::Io => SIGBUS,
    }
}

/// What a trap of a program is: causes 12, 13 and 15 are faults of fetching, loading
/// and storing, 8 is a system call; with the highest bit set 5 is the timer and 9 a
/// device. An illegal instruction gets signal 4, a breakpoint 5, misaligned accesses
/// 7 and other accesses 11.
pub proof fn traps_are_told_apart(scause: u64)
    requires
        scause < 16,
    ensures
        user_trap(scause) is Syscall <==> scause == 8,
        user_trap(scause) == UserTrap::Fault(AccessKind::Exec) <==> scause == 12,
        user_trap(scause) == UserTrap::Fault(AccessKind::Read) <==> scause == 13,
        user_trap(scause) == UserTrap::Fault(AccessKind::Write) <==> scause == 15,
        user_trap(scause) == UserTrap::Signal(4) <==> scause == 2,
        user_trap(scause) == UserTrap::Signal(5) <==> scause == 3,
        user_trap(scause) == UserTrap::Signal(7) <==> scause == 0 || scause == 4 || scause == 6,
        user_trap(scause) == UserTrap::Signal(11) <==> scause == 1 || scause == 5 || scause == 7,
        user_trap(0x8000_0000_0000_0005) == UserTrap::Irq(Interrupt::Timer { yields: true }),
        user_trap(0x8000_0000_0000_0009) == UserTrap::Irq(Interrupt::External),
{
    let top = 0x8000_0000_0000_0000u64;
    assert(scause & top == 0 && 0x8000_0000_0000_0005u64 & top != 0 && 0x8000_0000_0000_0005u64
        & !top == 5 && 0x8000_0000_0000_0009u64 & top != 0 && 0x8000_0000_0000_0009u64 & !top == 9)
        by (bit_vector)
        requires
            scause < 16,
            top == 0x8000_0000_0000_0000u64,
    ;
}

} // verus!
