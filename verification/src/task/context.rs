//! The callee-saved registers of a kernel thread.

use vstd::prelude::*;

verus! {

#[derive(Clone, Copy, Debug)]
pub struct TaskContext {
    pub ra: usize,
    pub sp: usize,
    pub s: [usize; 12],
}

pub open spec fn fresh_context(c: TaskContext, ra: usize, sp: usize) -> bool {
    c.ra == ra && c.sp == sp && forall|i: int| 0 <= i < 12 ==> c.s@[i] == 0
}

impl TaskContext {
    pub fn zero_init() -> (r: TaskContext)
        ensures
            fresh_context(r, 0, 0),
    {
        TaskContext { ra: 0, sp: 0, s: [0; 12] }
    }

    /// The context of a new task: switching to it goes to `trap_return`, the
    /// address of the code that enters user mode.
    pub fn goto_trap_return(kstack_sp: usize, trap_return: usize) -> (r: TaskContext)
        ensures
            fresh_context(r, trap_return, kstack_sp),
    {
        TaskContext { ra: trap_return, sp: kstack_sp, s: [0; 12] }
    }
}

} // verus!
