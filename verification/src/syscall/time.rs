//! Time system calls of a kernel whose clock counts from its start. The memory
//! that a call names must be accessible.

use vstd::prelude::*;
use crate::bytes::zeros;
use crate::syscall::timespec::{pair, pair_bytes};
use crate::uaccess::{field, mapped, num_at, stored, UserMem};

verus! {

/// The time in milliseconds when a sleep is over, capped to what fits.
pub open spec fn wake_ms(now: u64, sec: u64, nsec: u64) -> int {
    crate::syscall::timespec::capped(now + sec * 1000 + nsec / 1_000_000)
}

/// When the task is to wake that starts to sleep at `now`.
pub fn sys_nanosleep(mem: &UserMem, req: usize, now: u64) -> (until: u64)
    requires
        mapped(mem@, req as int, 16),
    ensures
        until == wake_ms(
            now,
            num_at(mem@, req as int, 8) as u64,
            num_at(mem@, req + 8, 8) as u64,
        ),
{
    match mem.copy_from_user(req, 16) {
        Ok(b) => {
            let sec: u64 = field(&b, 0, 8, Ghost(mem@), Ghost(req as int));
            let nsec: u64 = field(&b, 8, 8, Ghost(mem@), Ghost(req as int));
            match sec.checked_mul(1000) {
                Some(x) => now.saturating_add(x).saturating_add(nsec / 1_000_000),
                None => u64::MAX,
            }
        },
        Err(_) => now,
    }
}

fn put_pair(mem: &mut UserMem, at: usize, a: u64, b: u64)
    requires
        mapped(old(mem)@, at as int, 16),
    ensures
        final(mem)@ == stored(old(mem)@, at as int, pair_bytes(a as nat, b as nat)),
{
    let v: Vec<u8> = pair(a, b);
    let _ = mem.copy_to_user(at, &v);
}

/// Tells the time: the seconds from the milliseconds since the start, the
/// nanoseconds from the microseconds.
pub fn sys_clock_gettime(mem: &mut UserMem, tp: usize, ms: u64, us: u64) -> (r: isize)
    requires
        mapped(old(mem)@, tp as int, 16),
    ensures
        r == 0,
        final(mem)@ == stored(
            old(mem)@,
            tp as int,
            pair_bytes((ms / 1000) as nat, (us % 1_000_000 * 1000) as nat),
        ),
{
    put_pair(mem, tp, ms / 1000, us % 1_000_000 * 1000);
    0
}

/// Tells the time in seconds and microseconds.
pub fn sys_gettimeofday(mem: &mut UserMem, tv: usize, us: u64) -> (r: isize)
    requires
        mapped(old(mem)@, tv as int, 16),
    ensures
        r == 0,
        final(mem)@ == stored(
            old(mem)@,
            tv as int,
            pair_bytes((us / 1_000_000) as nat, (us % 1_000_000) as nat),
        ),
{
    put_pair(mem, tv, us / 1_000_000, us % 1_000_000);
    0
}

/// Tells that no processor time was used, where it is asked for; gives the
/// milliseconds since the start.
pub fn sys_times(mem: &mut UserMem, buf: usize, ms: usize) -> (r: isize)
    requires
        buf != 0 ==> mapped(old(mem)@, buf as int, 32),
        ms <= isize::MAX,
    ensures
        r == ms,
        final(mem)@ == (if buf != 0 {
            stored(old(mem)@, buf as int, zeros(32))
        } else {
            old(mem)@
        }),
{
    if buf != 0 {
        let mut v: Vec<u8> = Vec::new();
        crate::bytes::put_zeros(&mut v, 32);
        proof {
            assert(v@ =~= zeros(32));
        }
        let _ = mem.copy_to_user(buf, &v);
    }
    ms as isize
}

/// A sleep is over when its seconds and nanoseconds have passed, in milliseconds.
pub proof fn sleep_is_over_in_time(now: u64, sec: u64, nsec: u64)
    requires
        now + sec * 1000 + nsec <= u64::MAX,
    ensures
        wake_ms(now, sec, nsec) - now >= sec * 1000,
        (wake_ms(now, sec, nsec) - now - sec * 1000) * 1_000_000 <= nsec,
        nsec < (wake_ms(now, sec, nsec) - now - sec * 1000 + 1) * 1_000_000,
{
}

} // verus!
