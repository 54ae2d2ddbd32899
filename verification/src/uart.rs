//! The NS16550A serial port, as the register accesses it takes.

use vstd::prelude::*;

verus! {

pub const UART_BASE: usize = 0x1000_0000;

/// Receive buffer when read, transmit buffer when written.
pub const RBR: usize = 0;
pub const THR: usize = 0;
pub const IER: usize = 1;
pub const FCR: usize = 2;
pub const LCR: usize = 3;
pub const LSR: usize = 5;

/// The transmit buffer is empty.
pub const LSR_THRE: u8 = 0x20;

/// A byte was received.
pub const LSR_DR: u8 = 1;

/// The address of a register.
pub fn reg(off: usize) -> (r: usize)
    requires
        off < 8,
    ensures
        r == UART_BASE + off,
{
    UART_BASE + off
}

/// What sets the port up, register by register: no interrupts, divisor 3 behind
/// the latch bit, 8 data bits without parity and one stop bit, and cleared FIFOs.
pub fn init() -> (r: Vec<(usize, u8)>)
    ensures
        r@ == seq![
            (IER, 0u8),
            (LCR, 0x80u8),
            (0usize, 3u8),
            (1usize, 0u8),
            (LCR, 3u8),
            (FCR, 7u8),
        ],
{
    let r: Vec<(usize, u8)> = vec![(IER, 0), (LCR, 0x80), (0, 3), (1, 0), (LCR, 3), (FCR, 7)];
    proof {
        assert(r@ =~= seq![
            (IER, 0u8),
            (LCR, 0x80u8),
            (0usize, 3u8),
            (1usize, 0u8),
            (LCR, 3u8),
            (FCR, 7u8),
        ]);
    }
    r
}

/// Whether a byte can be written, from the line status.
pub fn can_put(lsr: u8) -> (r: bool)
    ensures
        r == (lsr & LSR_THRE != 0),
{
    lsr & LSR_THRE != 0
}

/// Whether a byte can be read, from the line status.
pub fn can_get(lsr: u8) -> (r: bool)
    ensures
        r == (lsr & LSR_DR != 0),
{
    lsr & LSR_DR != 0
}

/// The bytes on the line for a text: a carriage return goes before each line
/// feed.
pub open spec fn on_line(s: Seq<u8>) -> Seq<u8>
    decreases s.len(),
{
    if s.len() == 0 {
        Seq::empty()
    } else if s.last() == 10 {
        on_line(s.drop_last()).push(13).push(10)
    } else {
        on_line(s.drop_last()).push(s.last())
    }
}

pub fn write_str(s: &Vec<u8>) -> (r: Vec<u8>)
    ensures
        r@ == on_line(s@),
{
    let n: usize = s.len();
    let mut r: Vec<u8> = Vec::new();
    let mut i: usize = 0;
    proof {
        assert(s@.take(0) =~= Seq::empty());
        assert(r@ =~= Seq::empty());
    }
    while i < n
        invariant
            i <= n == s@.len(),
            r@ == on_line(s@.take(i as int)),
        decreases n - i,
    {
        proof {
            assert(s@.take(i + 1).drop_last() =~= s@.take(i as int));
            assert(s@.take(i + 1).last() == s@[i as int]);
        }
        if s[i] == 10 {
            r.push(13);
        }
        r.push(s[i]);
        i = i + 1;
    }
    proof {
        assert(s@.take(n as int) =~= s@);
    }
    r
}

} // verus!
