//! Times as programs pass them: seconds and nanoseconds or microseconds.

use vstd::prelude::*;
use crate::bytes::{le, put_le};
use crate::errno::EFAULT;
use crate::uaccess::{bytes_at, field, mapped, num_at, UserMem};

verus! {

pub const NS_PER_SEC: u64 = 1_000_000_000;

/// `x`, or the largest 64-bit number if it is above that.
pub open spec fn capped(x: int) -> int {
    if x > u64::MAX {
        u64::MAX as int
    } else {
        x
    }
}

/// The nanoseconds in a pair of seconds and nanoseconds. Negative seconds
/// count as zero, and what does not fit is capped.
pub open spec fn ts_ns(sec: u64, nsec: u64) -> int {
    capped(
        (if sec < 0x8000_0000_0000_0000 {
            sec as int
        } else {
            0
        }) * 1_000_000_000 + nsec,
    )
}

/// The nanoseconds in the timespec at `addr`.
pub open spec fn ts_at(m: Map<int, u8>, addr: int) -> int {
    ts_ns(num_at(m, addr, 8) as u64, num_at(m, addr + 8, 8) as u64)
}

pub fn to_ns(sec: u64, nsec: u64) -> (r: u64)
    ensures
        r == ts_ns(sec, nsec),
{
    let s: u64 = if sec < 0x8000_0000_0000_0000 {
        sec
    } else {
        0
    };
    match s.checked_mul(NS_PER_SEC) {
        Some(x) => x.saturating_add(nsec),
        None => u64::MAX,
    }
}

/// Reads a timespec as nanoseconds.
pub fn read_ts(mem: &UserMem, addr: usize) -> (r: Result<u64, i32>)
    ensures
        match r {
            Ok(ns) => mapped(mem@, addr as int, 16) && ns == ts_at(mem@, addr as int),
            Err(e) => !mapped(mem@, addr as int, 16) && e == EFAULT,
        },
{
    match mem.copy_from_user(addr, 16) {
        Ok(v) => {
            let sec: u64 = field(&v, 0, 8, Ghost(mem@), Ghost(addr as int));
            let nsec: u64 = field(&v, 8, 8, Ghost(mem@), Ghost(addr as int));
            Ok(to_ns(sec, nsec))
        },
        Err(e) => Err(e),
    }
}

/// The bytes of two 64-bit numbers.
pub open spec fn pair_bytes(a: nat, b: nat) -> Seq<u8> {
    le(a, 8) + le(b, 8)
}

pub fn pair(a: u64, b: u64) -> (r: Vec<u8>)
    ensures
        r@ == pair_bytes(a as nat, b as nat),
        r@.len() == 16,
{
    let mut v: Vec<u8> = Vec::new();
    put_le(&mut v, a, 8);
    put_le(&mut v, b, 8);
    proof {
        crate::bytes::lemma_le_len(a as nat, 8);
        crate::bytes::lemma_le_len(b as nat, 8);
        assert(v@ =~= pair_bytes(a as nat, b as nat));
    }
    v
}

/// The bytes of a timespec of `ns` nanoseconds.
pub open spec fn ts_bytes(ns: nat) -> Seq<u8> {
    pair_bytes(ns / 1_000_000_000, ns % 1_000_000_000)
}

/// The bytes of a timeval of `ns` nanoseconds.
pub open spec fn tv_bytes(ns: nat) -> Seq<u8> {
    pair_bytes(ns / 1_000_000_000, ns % 1_000_000_000 / 1000)
}

pub fn ts_from_ns(ns: u64) -> (r: Vec<u8>)
    ensures
        r@ == ts_bytes(ns as nat),
        r@.len() == 16,
{
    pair(ns / NS_PER_SEC, ns % NS_PER_SEC)
}

pub fn tv_from_ns(ns: u64) -> (r: Vec<u8>)
    ensures
        r@ == tv_bytes(ns as nat),
        r@.len() == 16,
{
    pair(ns / NS_PER_SEC, ns % NS_PER_SEC / 1000)
}

/// A time that was stored as a timespec reads back as the same time.
pub proof fn ts_round_trip(m: Map<int, u8>, addr: int, ns: u64)
    requires
        mapped(m, addr, 16),
    ensures
        ts_at(crate::uaccess::stored(m, addr, ts_bytes(ns as nat)), addr) == ns,
{
    let s = ns as nat / 1_000_000_000;
    let n = ns as nat % 1_000_000_000;
    let b = ts_bytes(ns as nat);
    let t = crate::uaccess::stored(m, addr, b);
    crate::bytes::lemma_le_len(s, 8);
    crate::bytes::lemma_le_len(n, 8);
    crate::bytes::lemma_span();
    crate::bytes::from_le_of_le(s, 8);
    crate::bytes::from_le_of_le(n, 8);
    let lo = bytes_at(t, addr, 8);
    let hi = bytes_at(t, addr + 8, 8);
    assert forall|i: int| 0 <= i < 8 implies lo[i] == le(s, 8)[i] && hi[i] == le(n, 8)[i] by {
        assert(m.dom().contains(addr + i));
        assert(m.dom().contains(addr + 8 + i));
        assert(b[i] == le(s, 8)[i]);
        assert(b[8 + i] == le(n, 8)[i]);
    }
    assert(lo =~= le(s, 8));
    assert(hi =~= le(n, 8));
}

} // verus!
