//! The platform-level interrupt controller of the QEMU virt machine. What is to
//! be written to its registers is given as data.

use vstd::prelude::*;
use crate::net::virtio::{reg, Reg};

verus! {

pub const PLIC_BASE: usize = 0x0c00_0000;
pub const PRIORITY: usize = 0x0000_0000;
pub const ENABLE: usize = 0x0000_2000;
pub const THRESHOLD: usize = 0x0020_0000;
pub const CLAIM: usize = 0x0020_0004;

/// The supervisor context of the first hart.
pub const CONTEXT: usize = 1;

pub const MAX_IRQ: usize = 64;

/// Which handler, by number, each interrupt has.
pub struct Plic {
    pub handlers: [Option<usize>; 64],
}

impl Plic {
    pub fn new() -> (r: Plic)
        ensures
            forall|i: int| 0 <= i < MAX_IRQ ==> (#[trigger] r.handlers@[i]) is None,
    {
        Plic { handlers: [None; 64] }
    }
}

/// Lets every priority through.
pub fn init() -> (r: Reg)
    ensures
        r == reg(0x20_0004, 0),
{
    Reg { off: THRESHOLD + 4 * CONTEXT, val: 0 }
}

/// Sets the handler of an interrupt: its priority is 1, and it is the one that
/// is enabled.
pub fn register(plic: &mut Plic, irq: usize, handler: usize) -> (r: [Reg; 2])
    requires
        irq < 32,
    ensures
        final(plic).handlers@ == old(plic).handlers@.update(irq as int, Some(handler)),
        r@ == seq![reg((4 * irq) as usize, 1), reg(0x2004, 1u32 << (irq as u32))],
{
    plic.handlers[irq] = Some(handler);
    let r: [Reg; 2] = [
        Reg { off: PRIORITY + 4 * irq, val: 1 },
        Reg { off: ENABLE + 4 * CONTEXT, val: 1u32 << (irq as u32) },
    ];
    assert(r@ =~= seq![reg((4 * irq) as usize, 1), reg(0x2004, 1u32 << (irq as u32))]);
    r
}

/// What a claimed interrupt asks for.
#[derive(Clone, Copy, PartialEq, Eq, Structural, Debug)]
pub enum Claimed {
    /// Nothing is pending any more.
    Done,
    /// Run the handler, if any, then write the number back.
    Run { handler: Option<usize>, irq: u32 },
}

/// Looks up what to do for the number that a claim gave.
pub fn handle(plic: &Plic, irq: u32) -> (r: Claimed)
    ensures
        r == (if irq == 0 {
            Claimed::Done
        } else {
            Claimed::Run {
                handler: if irq < MAX_IRQ {
                    plic.handlers@[irq as int]
                } else {
                    None
                },
                irq,
            }
        }),
{
    if irq == 0 {
        return Claimed::Done;
    }
    let handler: Option<usize> = if (irq as usize) < MAX_IRQ {
        plic.handlers[irq as usize]
    } else {
        None
    };
    Claimed::Run { handler, irq }
}

} // verus!
