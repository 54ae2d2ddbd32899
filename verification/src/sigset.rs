//! Sets of signals: bit `n - 1` stands for signal `n`.

use vstd::prelude::*;
use vstd::std_specs::bits::{axiom_u64_trailing_zeros, u64_trailing_zeros};

verus! {

/// The set of one signal.
pub open spec fn bit(sig: int) -> u64 {
    1u64 << ((sig - 1) as u64)
}

pub open spec fn member(set: u64, sig: int) -> bool {
    set & bit(sig) != 0
}

/// The lowest signal of a set; 0 for the empty set.
pub open spec fn lowest(set: u64) -> int {
    if set == 0 {
        0
    } else {
        u64_trailing_zeros(set) + 1
    }
}

/// The set of one signal, 1 to 64.
pub fn bit_of(sig: usize) -> (r: u64)
    requires
        1 <= sig <= 64,
    ensures
        r == bit(sig as int),
{
    1u64 << ((sig - 1) as u64)
}

/// The lowest signal of a set is in it, and none below it is.
pub proof fn lowest_is_lowest(set: u64)
    ensures
        set != 0 ==> 1 <= lowest(set) <= 64 && member(set, lowest(set)),
        forall|s: int| 1 <= s <= 64 && s < lowest(set) ==> !#[trigger] member(set, s),
        set == 0 ==> forall|s: int| 1 <= s <= 64 ==> !#[trigger] member(set, s),
{
    axiom_u64_trailing_zeros(set);
    let k = u64_trailing_zeros(set) as u64;
    if set != 0 {
        assert((set >> k) & 1u64 == 1u64 ==> set & (1u64 << k) != 0) by (bit_vector)
            requires
                k < 64,
        ;
    }
    assert forall|s: int| 1 <= s <= 64 && (s < lowest(set) || set == 0) implies !#[trigger] member(
        set,
        s,
    ) by {
        let j = (s - 1) as u64;
        if set != 0 {
            assert((set >> j) & 1u64 == 0u64);
        }
        assert((set >> j) & 1u64 == 0u64 || set == 0 ==> set & (1u64 << j) == 0) by (bit_vector)
            requires
                j < 64,
        ;
    }
}

pub fn lowest_of(set: u64) -> (r: usize)
    ensures
        r == lowest(set),
        r <= 64,
        set != 0 ==> r >= 1 && member(set, r as int),
        set == 0 ==> r == 0,
{
    proof {
        lowest_is_lowest(set);
        axiom_u64_trailing_zeros(set);
    }
    if set == 0 {
        0
    } else {
        set.trailing_zeros() as usize + 1
    }
}

/// Sets of signals join, meet and differ signal by signal.
pub proof fn set_algebra(a: u64, b: u64, sig: int)
    requires
        1 <= sig <= 64,
    ensures
        member(a | b, sig) == (member(a, sig) || member(b, sig)),
        member(a & b, sig) == (member(a, sig) && member(b, sig)),
        member(a & !b, sig) == (member(a, sig) && !member(b, sig)),
        !member(0, sig),
        member(bit(sig), sig),
        a | 0 == a,
        0 | a == a,
{
    let i = (sig - 1) as u64;
    assert({
        let y = 1u64 << i;
        &&& ((a | b) & y != 0) == (a & y != 0 || b & y != 0)
        &&& ((a & b) & y != 0) == (a & y != 0 && b & y != 0)
        &&& ((a & !b) & y != 0) == (a & y != 0 && b & y == 0)
        &&& 0 & y == 0
        &&& y & y != 0
        &&& a | 0 == a
        &&& 0 | a == a
    }) by (bit_vector)
        requires
            i < 64,
    ;
}

/// Two different signals have different bits.
pub proof fn bits_differ(sig: int, other: int)
    requires
        1 <= sig <= 64,
        1 <= other <= 64,
    ensures
        member(bit(sig), other) == (sig == other),
{
    one_signal(0, sig, other);
    set_algebra(bit(sig), 0, other);
}

/// Adding a signal adds just that one, and removing it removes just that one.
pub proof fn one_signal(set: u64, sig: int, other: int)
    requires
        1 <= sig <= 64,
        1 <= other <= 64,
    ensures
        member(set | bit(sig), other) == (member(set, other) || other == sig),
        member(set & !bit(sig), other) == (member(set, other) && other != sig),
        member(set, sig) ==> set & !bit(sig) < set,
        set & !bit(sig) <= set,
{
    let a = (sig - 1) as u64;
    let b = (other - 1) as u64;
    assert({
        let x = 1u64 << a;
        let y = 1u64 << b;
        &&& ((set | x) & y != 0) == (set & y != 0 || a == b)
        &&& ((set & !x) & y != 0) == (set & y != 0 && a != b)
        &&& (set & x != 0 ==> set & !x < set)
        &&& set & !x <= set
    }) by (bit_vector)
        requires
            a < 64,
            b < 64,
    ;
}

} // verus!
