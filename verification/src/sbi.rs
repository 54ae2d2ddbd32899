//! Calls into the machine-mode firmware, as the registers they take.

use vstd::prelude::*;

verus! {

pub const SBI_CONSOLE_PUTCHAR: usize = 1;
pub const SBI_CONSOLE_GETCHAR: usize = 2;
pub const SBI_SET_TIMER: usize = 0;
pub const SBI_SHUTDOWN: usize = 8;

/// A firmware call: extension, function and arguments.
#[derive(Clone, Copy, PartialEq, Eq, Structural, Debug)]
pub struct SbiCall {
    pub eid: usize,
    pub fid: usize,
    pub arg: usize,
}

pub open spec fn call(eid: usize, arg: usize) -> SbiCall {
    SbiCall { eid, fid: 0, arg }
}

/// Prints a byte.
pub fn console_putchar(c: u8) -> (r: SbiCall)
    ensures
        r == call(SBI_CONSOLE_PUTCHAR, c as usize),
{
    SbiCall { eid: SBI_CONSOLE_PUTCHAR, fid: 0, arg: c as usize }
}

/// The byte that the firmware read, from what it returned; `None` for none.
pub fn console_getchar(r: usize) -> (c: Option<u8>)
    ensures
        c == (if r > 255 {
            None
        } else {
            Some(r as u8)
        }),
{
    if r == usize::MAX || r > 255 {
        None
    } else {
        Some(r as u8)
    }
}

/// Asks for the next timer interrupt at an absolute time.
pub fn set_timer(t: u64) -> (r: SbiCall)
    ensures
        r == call(SBI_SET_TIMER, t as usize),
{
    SbiCall { eid: SBI_SET_TIMER, fid: 0, arg: t as usize }
}

/// Stops the machine.
pub fn shutdown(failure: bool) -> (r: SbiCall)
    ensures
        r == call(
            SBI_SHUTDOWN,
            if failure {
                1
            } else {
                0
            },
        ),
{
    SbiCall {
        eid: SBI_SHUTDOWN,
        fid: 0,
        arg: if failure {
            1
        } else {
            0
        },
    }
}

} // verus!
