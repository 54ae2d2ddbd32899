//! What a trap through the trampoline page saves and needs.

use vstd::prelude::*;

verus! {

/// Interrupts are on after the return, and the floating point unit is fresh.
pub const SSTATUS_INIT: usize = 0x2020;

#[derive(Clone, Copy, Debug)]
pub struct TrapContext {
    pub x: [usize; 32],
    pub sstatus: usize,
    pub sepc: usize,
    /// `satp` of the kernel's address space.
    pub kernel_satp: usize,
    pub kernel_sp: usize,
    pub trap_handler: usize,
}

impl TrapContext {
    pub fn set_sp(&mut self, sp: usize)
        ensures
            final(self).x@ == old(self).x@.update(2, sp),
            *final(self) == (TrapContext { x: final(self).x, ..*old(self) }),
    {
        self.x[2] = sp;
    }

    /// The context with which a program starts: all registers are zero but the
    /// stack pointer.
    pub fn app_init_context(
        entry: usize,
        sp: usize,
        kernel_satp: usize,
        kernel_sp: usize,
        trap_handler: usize,
    ) -> (r: TrapContext)
        ensures
            forall|i: int|
                0 <= i < 32 ==> r.x@[i] == (if i == 2 {
                    sp
                } else {
                    0
                }),
            r.sstatus == SSTATUS_INIT,
            r.sepc == entry,
            r.kernel_satp == kernel_satp,
            r.kernel_sp == kernel_sp,
            r.trap_handler == trap_handler,
    {
        let mut cx = TrapContext {
            x: [0; 32],
            sstatus: SSTATUS_INIT,
            sepc: entry,
            kernel_satp,
            kernel_sp,
            trap_handler,
        };
        cx.set_sp(sp);
        cx
    }
}

} // verus!
