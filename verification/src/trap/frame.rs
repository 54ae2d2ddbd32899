//! The registers that a trap saves, and the names of its causes.

use vstd::prelude::*;

verus! {

/// The previous mode was the supervisor's.
pub const SSTATUS_SPP: usize = 0x100;

/// Size of a trap frame in memory.
pub const TF_SIZE: usize = 288;

#[derive(Clone, Copy, Debug)]
pub struct TrapFrame {
    pub x: [usize; 32],
    pub sepc: usize,
    pub sstatus: usize,
}

impl TrapFrame {
    pub fn a0(&self) -> (r: usize)
        ensures
            r == self.x@[10],
    {
        self.x[10]
    }

    pub fn a1(&self) -> (r: usize)
        ensures
            r == self.x@[11],
    {
        self.x[11]
    }

    pub fn a2(&self) -> (r: usize)
        ensures
            r == self.x@[12],
    {
        self.x[12]
    }

    pub fn a3(&self) -> (r: usize)
        ensures
            r == self.x@[13],
    {
        self.x[13]
    }

    pub fn a7(&self) -> (r: usize)
        ensures
            r == self.x@[17],
    {
        self.x[17]
    }

    pub fn sp(&self) -> (r: usize)
        ensures
            r == self.x@[2],
    {
        self.x[2]
    }

    pub fn ra(&self) -> (r: usize)
        ensures
            r == self.x@[1],
    {
        self.x[1]
    }

    pub fn set_a0(&mut self, v: usize)
        ensures
            final(self).x@ == old(self).x@.update(10, v),
            *final(self) == (TrapFrame { x: final(self).x, ..*old(self) }),
    {
        self.x[10] = v;
    }

    pub fn set_sp(&mut self, v: usize)
        ensures
            final(self).x@ == old(self).x@.update(2, v),
            *final(self) == (TrapFrame { x: final(self).x, ..*old(self) }),
    {
        self.x[2] = v;
    }

    pub fn set_ra(&mut self, v: usize)
        ensures
            final(self).x@ == old(self).x@.update(1, v),
            *final(self) == (TrapFrame { x: final(self).x, ..*old(self) }),
    {
        self.x[1] = v;
    }

    /// The trap came from a user program.
    pub fn from_user(&self) -> (r: bool)
        ensures
            r == (self.sstatus & SSTATUS_SPP == 0),
    {
        self.sstatus & SSTATUS_SPP == 0
    }
}

/// What a context switch saves.
#[derive(Clone, Copy, Debug)]
pub struct TaskContext {
    pub ra: usize,
    pub sp: usize,
    pub s: [usize; 12],
}

impl TaskContext {
    pub fn empty() -> (r: TaskContext)
        ensures
            r.ra == 0,
            r.sp == 0,
            forall|i: int| 0 <= i < 12 ==> r.s@[i] == 0,
    {
        TaskContext { ra: 0, sp: 0, s: [0; 12] }
    }
}

/// Who deals with a trap.
#[derive(Clone, Copy, PartialEq, Eq, Structural, Debug)]
pub enum TrapFrom {
    User,
    /// A trap of the kernel itself, which is fatal.
    Kernel,
}

pub fn trap_handler(tf: &TrapFrame) -> (r: TrapFrom)
    ensures
        r == (if tf.sstatus & SSTATUS_SPP == 0 {
            TrapFrom::User
        } else {
            TrapFrom::Kernel
        }),
{
    if !tf.from_user() {
        TrapFrom::Kernel
    } else {
        TrapFrom::User
    }
}

/// The supervisor timer interrupt.
pub const SCAUSE_TIMER: u64 = 0x8000_0000_0000_0005;

/// The supervisor external interrupt.
pub const SCAUSE_EXTERNAL: u64 = 0x8000_0000_0000_0009;

pub open spec fn cause_text(scause: u64) -> Seq<char> {
    match scause {
        0 => "instruction address misaligned"@,
        1 => "instruction access fault"@,
        2 => "illegal instruction"@,
        3 => "breakpoint"@,
        4 => "load address misaligned"@,
        5 => "load access fault"@,
        6 => "store address misaligned"@,
        7 => "store access fault"@,
        8 => "ecall from U"@,
        9 => "ecall from S"@,
        12 => "instruction page fault"@,
        13 => "load page fault"@,
        15 => "store page fault"@,
        SCAUSE_TIMER => "supervisor timer interrupt"@,
        SCAUSE_EXTERNAL => "supervisor external interrupt"@,
        _ => "unknown"@,
    }
}

/// The name of a trap's cause.
pub fn cause_name(scause: u64) -> (r: &'static str)
    ensures
        r@ == cause_text(scause),
{
    match scause {
        0 => "instruction address misaligned",
        1 => "instruction access fault",
        2 => "illegal instruction",
        3 => "breakpoint",
        4 => "load address misaligned",
        5 => "load access fault",
        6 => "store address misaligned",
        7 => "store access fault",
        8 => "ecall from U",
        9 => "ecall from S",
        12 => "instruction page fault",
        13 => "load page fault",
        15 => "store page fault",
        SCAUSE_TIMER => "supervisor timer interrupt",
        SCAUSE_EXTERNAL => "supervisor external interrupt",
        _ => "unknown",
    }
}

} // verus!
