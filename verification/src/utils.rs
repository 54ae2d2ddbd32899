//! Address arithmetic.

use vstd::prelude::*;
use vstd::arithmetic::power2::{lemma_pow2_pos, pow2};
use vstd::bits::{lemma_usize_low_bits_mask_is_mod, low_bits_mask};

verus! {

pub const PAGE_SIZE: usize = 4096;

/// Distance between a physical address and its address in the direct map,
/// which fills the upper half of the Sv39 address space.
pub const KERNEL_OFFSET: u64 = 0xffff_ffc0_0000_0000;

/// The greatest multiple of `align` that is not above `val`.
pub open spec fn down(val: int, align: int) -> int {
    val / align * align
}

/// The least multiple of `align` that is not below `val`.
pub open spec fn up(val: int, align: int) -> int {
    down(val + align - 1, align)
}

proof fn lemma_mask_is_down(val: usize, align: usize, k: nat)
    requires
        align == pow2(k),
        k < usize::BITS,
    ensures
        val & !((align - 1) as usize) == down(val as int, align as int),
{
    let m: usize = (align - 1) as usize;
    lemma_pow2_pos(k);
    lemma_usize_low_bits_mask_is_mod(val, k);
    assert(low_bits_mask(k) == m);
    assert(val & m == val % align);
    assert(val & !m == val - (val & m)) by (bit_vector);
    assert(val == align * (val as int / align as int) + val as int % align as int) by {
        vstd::arithmetic::div_mod::lemma_fundamental_div_mod(val as int, align as int);
    }
    assert(align * (val as int / align as int) == val as int / align as int * align)
        by (nonlinear_arith);
}

/// Rounds `val` up to a multiple of `align`, a power of two.
pub fn align_up(val: usize, align: usize) -> (r: usize)
    requires
        align > 0,
        val + align - 1 <= usize::MAX,
    ensures
        r == ((val + align - 1) as usize) & !((align - 1) as usize),
        forall|k: nat| k < usize::BITS && align == #[trigger] pow2(k) ==> r == up(val as int, align as int),
{
    let r: usize = (val + (align - 1)) & !(align - 1);
    proof {
        assert forall|k: nat| k < usize::BITS && align == #[trigger] pow2(k) implies r == up(
            val as int,
            align as int,
        ) by {
            lemma_mask_is_down((val + (align - 1)) as usize, align, k);
        }
    }
    r
}

/// Rounds `val` down to a multiple of `align`, a power of two.
pub fn align_down(val: usize, align: usize) -> (r: usize)
    requires
        align > 0,
    ensures
        r == val & !((align - 1) as usize),
        forall|k: nat|
            k < usize::BITS && align == #[trigger] pow2(k) ==> r == down(val as int, align as int),
{
    let r: usize = val & !(align - 1);
    proof {
        assert forall|k: nat| k < usize::BITS && align == #[trigger] pow2(k) implies r == down(
            val as int,
            align as int,
        ) by {
            lemma_mask_is_down(val, align, k);
        }
    }
    r
}

/// The direct-map address of a physical address.
pub fn phys_to_virt(pa: u64) -> (va: u64)
    requires
        pa + KERNEL_OFFSET <= u64::MAX,
    ensures
        va == pa + KERNEL_OFFSET,
{
    pa + KERNEL_OFFSET
}

/// The physical address behind a direct-map address.
pub fn virt_to_phys(va: u64) -> (pa: u64)
    requires
        va >= KERNEL_OFFSET,
    ensures
        pa == va - KERNEL_OFFSET,
{
    va - KERNEL_OFFSET
}

/// Rounding moves an address by less than one unit, and what is aligned stays.
pub proof fn rounding_is_tight(val: int, align: int)
    requires
        align > 0,
    ensures
        down(val, align) <= val < down(val, align) + align,
        val <= up(val, align) < val + align,
        up(down(val, align), align) == down(val, align),
        down(up(val, align), align) == up(val, align),
{
    let d = val / align;
    let u = (val + align - 1) / align;
    vstd::arithmetic::div_mod::lemma_fundamental_div_mod(val, align);
    vstd::arithmetic::div_mod::lemma_fundamental_div_mod(val + align - 1, align);
    assert(align * d == d * align && align * u == u * align) by (nonlinear_arith);
    vstd::arithmetic::div_mod::lemma_div_multiples_vanish_fancy(d, align - 1, align);
    vstd::arithmetic::div_mod::lemma_div_multiples_vanish_fancy(u, 0, align);
}

} // verus!
