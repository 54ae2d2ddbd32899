//! Flag words, bit by bit.

use vstd::prelude::*;

verus! {

/// The five lowest bits of a small number, as they are tested in flag words.
pub proof fn small_bits(r: u32)
    requires
        r < 32,
    ensures
        r & 1 != 0 <==> r % 2 == 1,
        r & 4 != 0 <==> (r / 4) % 2 == 1,
        r & 8 != 0 <==> (r / 8) % 2 == 1,
        r & 0x10 != 0 <==> r / 16 == 1,
        r & !5u32 == 0 <==> (r / 2) % 2 == 0 && r < 8,
        r & !0x15u32 == 0 <==> (r / 2) % 2 == 0 && (r / 8) % 2 == 0,
        r & !0x1du32 == 0 <==> (r / 2) % 2 == 0,
{
    assert((r & 1 != 0 <==> r % 2 == 1) && (r & 4 != 0 <==> (r / 4) % 2 == 1) && (r & 8 != 0 <==> (r
        / 8) % 2 == 1) && (r & 0x10 != 0 <==> r / 16 == 1) && (r & !5u32 == 0 <==> (r / 2) % 2 == 0
        && r < 8) && (r & !0x15u32 == 0 <==> (r / 2) % 2 == 0 && (r / 8) % 2 == 0) && (r & !0x1du32
        == 0 <==> (r / 2) % 2 == 0)) by (bit_vector)
        requires
            r < 32,
    ;
}

} // verus!
