//! System calls about time and the machine.

use vstd::prelude::*;
use crate::abi::{
    CLOCK_BOOTTIME, CLOCK_MONOTONIC, CLOCK_MONOTONIC_COARSE, CLOCK_MONOTONIC_RAW,
    CLOCK_PROCESS_CPUTIME_ID, CLOCK_REALTIME, CLOCK_REALTIME_COARSE, CLOCK_THREAD_CPUTIME_ID,
};
use crate::bytes::{le, lemma_le_len, put_le, put_zeros, zeros};
use crate::errno::{SysResult, EFAULT, EINTR, EINVAL};
use crate::syscall::futex::Clocks;
use crate::syscall::process::{err, lemma_mapped_stored, ok};
use crate::syscall::timespec::{
    capped, pair, pair_bytes, to_ns, ts_at, ts_bytes, ts_from_ns, tv_bytes, tv_from_ns,
};
use crate::task::control::TaskCtl;
use crate::uaccess::{field, mapped, num_at, stored, stored_opt, UserMem};

verus! {

/// What a clock shows.
pub open spec fn clock_ns(clk: i32, now: Clocks, t: TaskCtl) -> Option<int> {
    if clk == CLOCK_REALTIME || clk == CLOCK_REALTIME_COARSE {
        Some(now.realtime_ns as int)
    } else if clk == CLOCK_MONOTONIC || clk == CLOCK_MONOTONIC_RAW || clk == CLOCK_MONOTONIC_COARSE
        || clk == CLOCK_BOOTTIME {
        Some(now.monotonic_ns as int)
    } else if clk == CLOCK_PROCESS_CPUTIME_ID || clk == CLOCK_THREAD_CPUTIME_ID {
        Some(t.utime + t.stime)
    } else {
        None
    }
}

pub fn sys_clock_gettime(t: &TaskCtl, mem: &mut UserMem, clk: i32, tp: usize, now: Clocks) -> (r:
    SysResult)
    requires
        t.utime + t.stime <= u64::MAX,
    ensures
        match clock_ns(clk, now, *t) {
            None => r == err(EINVAL) && final(mem)@ == old(mem)@,
            Some(ns) => if mapped(old(mem)@, tp as int, 16) {
                r == ok(0) && final(mem)@ == stored(old(mem)@, tp as int, ts_bytes(ns as nat))
            } else {
                r == err(EFAULT) && final(mem)@ == old(mem)@
            },
        },
{
    let ns: u64 = match clk {
        CLOCK_REALTIME | CLOCK_REALTIME_COARSE => now.realtime_ns,
        CLOCK_MONOTONIC | CLOCK_MONOTONIC_RAW | CLOCK_MONOTONIC_COARSE | CLOCK_BOOTTIME =>
        now.monotonic_ns,
        CLOCK_PROCESS_CPUTIME_ID | CLOCK_THREAD_CPUTIME_ID => t.utime + t.stime,
        _ => {
            return Err(EINVAL);
        },
    };
    let v: Vec<u8> = ts_from_ns(ns);
    match mem.copy_to_user(tp, &v) {
        Ok(_) => Ok(0),
        Err(e) => Err(e),
    }
}

/// The resolution of a clock, in nanoseconds.
pub const CLOCK_RES_NS: u64 = 100;

pub fn sys_clock_getres(mem: &mut UserMem, tp: usize) -> (r: SysResult)
    ensures
        if tp != 0 && !mapped(old(mem)@, tp as int, 16) {
            r == err(EFAULT) && final(mem)@ == old(mem)@
        } else {
            &&& r == ok(0)
            &&& final(mem)@ == stored_opt(
                old(mem)@,
                tp as int,
                pair_bytes(0, CLOCK_RES_NS as nat),
            )
        },
{
    if tp != 0 {
        let v: Vec<u8> = pair(0, CLOCK_RES_NS);
        match mem.copy_to_user(tp, &v) {
            Ok(_) => {},
            Err(e) => {
                return Err(e);
            },
        }
    }
    Ok(0)
}

/// The moment that the real time clock is to be set to, or the error. Negative
/// and overlong times are capped.
pub fn sys_clock_settime(mem: &UserMem, clk: i32, tp: usize) -> (r: Result<u64, i32>)
    ensures
        match r {
            Ok(ns) => clk == CLOCK_REALTIME && mapped(mem@, tp as int, 16) && ns == ts_at(
                mem@,
                tp as int,
            ),
            Err(e) => if clk != CLOCK_REALTIME {
                e == EINVAL
            } else {
                e == EFAULT && !mapped(mem@, tp as int, 16)
            },
        },
{
    if clk != CLOCK_REALTIME {
        return Err(EINVAL);
    }
    crate::syscall::timespec::read_ts(mem, tp)
}

pub fn sys_gettimeofday(mem: &mut UserMem, tv: usize, realtime_ns: u64) -> (r: SysResult)
    ensures
        if tv != 0 && !mapped(old(mem)@, tv as int, 16) {
            r == err(EFAULT) && final(mem)@ == old(mem)@
        } else {
            r == ok(0) && final(mem)@ == stored_opt(
                old(mem)@,
                tv as int,
                tv_bytes(realtime_ns as nat),
            )
        },
{
    if tv != 0 {
        let v: Vec<u8> = tv_from_ns(realtime_ns);
        match mem.copy_to_user(tv, &v) {
            Ok(_) => {},
            Err(e) => {
                return Err(e);
            },
        }
    }
    Ok(0)
}

/// A time that can be slept for: seconds and nanoseconds in range.
pub open spec fn sleepable(sec: u64, nsec: u64) -> bool {
    sec < 0x8000_0000_0000_0000 && nsec < 1_000_000_000
}

/// The time at `addr`, or why it cannot be slept for.
pub open spec fn sleep_at(m: Map<int, u8>, addr: int) -> Result<int, i32> {
    if !mapped(m, addr, 16) {
        Err(EFAULT)
    } else if !sleepable(num_at(m, addr, 8) as u64, num_at(m, addr + 8, 8) as u64) {
        Err(EINVAL)
    } else {
        Ok(ts_at(m, addr))
    }
}

fn read_sleep(mem: &UserMem, req: usize) -> (r: Result<u64, i32>)
    ensures
        match r {
            Ok(ns) => sleep_at(mem@, req as int) == Ok::<int, i32>(ns as int),
            Err(e) => sleep_at(mem@, req as int) == Err::<int, i32>(e),
        },
{
    match mem.copy_from_user(req, 16) {
        Ok(v) => {
            let sec: u64 = field(&v, 0, 8, Ghost(mem@), Ghost(req as int));
            let nsec: u64 = field(&v, 8, 8, Ghost(mem@), Ghost(req as int));
            if sec >= 0x8000_0000_0000_0000 || nsec >= 1_000_000_000 {
                return Err(EINVAL);
            }
            Ok(to_ns(sec, nsec))
        },
        Err(e) => Err(e),
    }
}

/// The moment of the monotonic clock until which the task is to sleep.
pub fn sys_nanosleep(mem: &UserMem, req: usize, now: Clocks) -> (deadline: Result<u64, i32>)
    ensures
        match deadline {
            Ok(d) => sleep_at(mem@, req as int) is Ok && d == capped(
                now.monotonic_ns + sleep_at(mem@, req as int)->Ok_0,
            ),
            Err(e) => sleep_at(mem@, req as int) == Err::<int, i32>(e),
        },
{
    match read_sleep(mem, req) {
        Ok(ns) => Ok(now.monotonic_ns.saturating_add(ns)),
        Err(e) => Err(e),
    }
}

/// The moment of the monotonic clock until which `ns` on clock `clk` reaches.
pub open spec fn sleep_deadline(clk: i32, flags: i32, ns: int, now: Clocks) -> int {
    if flags & 1 != 0 {
        if clk == CLOCK_REALTIME {
            capped(
                now.monotonic_ns + (if ns > now.realtime_ns {
                    ns - now.realtime_ns
                } else {
                    0
                }),
            )
        } else {
            ns
        }
    } else {
        capped(now.monotonic_ns + ns)
    }
}

/// The moment until which the task is to sleep, and where to store what is left
/// if it is interrupted; an absolute sleep stores nothing.
pub fn sys_clock_nanosleep(
    mem: &UserMem,
    clk: i32,
    flags: i32,
    req: usize,
    rem: usize,
    now: Clocks,
) -> (r: Result<(u64, usize), i32>)
    ensures
        match r {
            Ok((d, left)) => {
                &&& sleep_at(mem@, req as int) is Ok
                &&& d == sleep_deadline(clk, flags, sleep_at(mem@, req as int)->Ok_0, now)
                &&& left == (if flags & 1 != 0 {
                    0
                } else {
                    rem
                })
            },
            Err(e) => sleep_at(mem@, req as int) == Err::<int, i32>(e),
        },
{
    let dur: u64 = match read_sleep(mem, req) {
        Ok(ns) => ns,
        Err(e) => {
            return Err(e);
        },
    };
    let deadline: u64 = if flags & 1 != 0 {
        match clk {
            CLOCK_REALTIME => now.monotonic_ns.saturating_add(
                dur.saturating_sub(now.realtime_ns),
            ),
            _ => dur,
        }
    } else {
        now.monotonic_ns.saturating_add(dur)
    };
    let left: usize = if flags & 1 != 0 {
        0
    } else {
        rem
    };
    Ok((deadline, left))
}

/// What a sleep returns: `slept` is how it ended, with the time that was left
/// where it was interrupted.
pub fn do_sleep(mem: &mut UserMem, rem: usize, slept: Result<(), u64>) -> (r: SysResult)
    ensures
        match slept {
            Ok(_) => r == ok(0) && final(mem)@ == old(mem)@,
            Err(left) => if rem != 0 && !mapped(old(mem)@, rem as int, 16) {
                r == err(EFAULT) && final(mem)@ == old(mem)@
            } else {
                r == err(EINTR) && final(mem)@ == stored_opt(
                    old(mem)@,
                    rem as int,
                    ts_bytes(left as nat),
                )
            },
        },
{
    match slept {
        Ok(_) => Ok(0),
        Err(left) => {
            if rem != 0 {
                let v: Vec<u8> = ts_from_ns(left);
                match mem.copy_to_user(rem, &v) {
                    Ok(_) => {},
                    Err(e) => {
                        return Err(e);
                    },
                }
            }
            Err(EINTR)
        },
    }
}

/// An interval timer: time to the first expiry and between expiries.
#[derive(Clone, Copy, PartialEq, Eq, Structural, Debug)]
pub struct Itimer {
    pub value_ns: u64,
    pub interval_ns: u64,
}

/// The nanoseconds of the timeval at `addr`; what does not fit is capped.
pub open spec fn tv_at(m: Map<int, u8>, addr: int) -> int {
    capped((num_at(m, addr, 8) * 1_000_000_000 + num_at(m, addr + 8, 8) * 1000) as int)
}

fn tv_ns(sec: u64, usec: u64) -> (r: u64)
    ensures
        r == capped(sec * 1_000_000_000 + usec * 1000),
{
    match sec.checked_mul(1_000_000_000) {
        None => u64::MAX,
        Some(s) => match usec.checked_mul(1000) {
            None => u64::MAX,
            Some(u) => s.saturating_add(u),
        },
    }
}

/// Only the real time timer exists. The old setting is reported as zero; the
/// new one is what is to be set.
pub fn sys_setitimer(mem: &mut UserMem, which: i32, new: usize, old_ptr: usize) -> (r: Result<
    Option<Itimer>,
    i32,
>)
    ensures
        ({
            let m = old(mem)@;
            let m1 = stored_opt(m, old_ptr as int, zeros(32));
            if which != 0 {
                r == Err::<Option<Itimer>, i32>(EINVAL) && final(mem)@ == m
            } else if old_ptr != 0 && !mapped(m, old_ptr as int, 32) {
                r == Err::<Option<Itimer>, i32>(EFAULT) && final(mem)@ == m
            } else if new != 0 && !mapped(m, new as int, 32) {
                r == Err::<Option<Itimer>, i32>(EFAULT) && final(mem)@ == m1
            } else {
                &&& final(mem)@ == m1
                &&& r == Ok::<Option<Itimer>, i32>(
                    if new != 0 {
                        Some(
                            Itimer {
                                interval_ns: tv_at(m1, new as int) as u64,
                                value_ns: tv_at(m1, new + 16) as u64,
                            },
                        )
                    } else {
                        None
                    },
                )
            }
        }),
{
    if which != 0 {
        return Err(EINVAL);
    }
    proof {
        lemma_mapped_stored(mem@, old_ptr as int, zeros(32));
    }
    if old_ptr != 0 {
        let mut z: Vec<u8> = Vec::new();
        put_zeros(&mut z, 32);
        proof {
            assert(z@ =~= zeros(32));
        }
        match mem.copy_to_user(old_ptr, &z) {
            Ok(_) => {},
            Err(e) => {
                return Err(e);
            },
        }
    }
    if new != 0 {
        match mem.copy_from_user(new, 32) {
            Ok(v) => {
                let is: u64 = field(&v, 0, 8, Ghost(mem@), Ghost(new as int));
                let iu: u64 = field(&v, 8, 8, Ghost(mem@), Ghost(new as int));
                let vs: u64 = field(&v, 16, 8, Ghost(mem@), Ghost(new as int));
                let vu: u64 = field(&v, 24, 8, Ghost(mem@), Ghost(new as int));
                Ok(Some(Itimer { interval_ns: tv_ns(is, iu), value_ns: tv_ns(vs, vu) }))
            },
            Err(e) => Err(e),
        }
    } else {
        Ok(None)
    }
}

pub fn sys_getitimer(mem: &mut UserMem, cur: usize) -> (r: SysResult)
    ensures
        if mapped(old(mem)@, cur as int, 32) {
            r == ok(0) && final(mem)@ == stored(old(mem)@, cur as int, zeros(32))
        } else {
            r == err(EFAULT) && final(mem)@ == old(mem)@
        },
{
    let mut z: Vec<u8> = Vec::new();
    put_zeros(&mut z, 32);
    proof {
        assert(z@ =~= zeros(32));
    }
    match mem.copy_to_user(cur, &z) {
        Ok(_) => Ok(0),
        Err(e) => Err(e),
    }
}

/// A text in a field of 65 bytes.
pub open spec fn uts_field(s: Seq<u8>) -> Seq<u8> {
    s + zeros((65 - s.len()) as nat)
}

pub(crate) fn put_field(v: &mut Vec<u8>, s: &[u8])
    requires
        s@.len() <= 64,
    ensures
        final(v)@ == old(v)@ + uts_field(s@),
{
    let ghost v0 = v@;
    v.extend_from_slice(s);
    put_zeros(v, 65 - s.len());
    proof {
        assert(v@ =~= v0 + uts_field(s@));
    }
}

pub open spec fn sysname() -> Seq<u8> {
    seq![76u8, 105, 110, 117, 120]
}

pub open spec fn nodename() -> Seq<u8> {
    seq![106u8, 105, 101, 103, 101]
}

pub open spec fn release() -> Seq<u8> {
    seq![54u8, 46, 54, 46, 48, 45, 106, 105, 101, 103, 101]
}

pub open spec fn version() -> Seq<u8> {
    seq![
        35u8,
        49,
        32,
        83,
        77,
        80,
        32,
        70,
        114,
        105,
        32,
        83,
        101,
        112,
        32,
        53,
        32,
        50,
        48,
        50,
        54,
    ]
}

pub open spec fn machine() -> Seq<u8> {
    seq![114u8, 105, 115, 99, 118, 54, 52]
}

pub open spec fn domainname() -> Seq<u8> {
    seq![40u8, 110, 111, 110, 101, 41]
}

/// The names of the system: `Linux`, `jiege`, `6.6.0-jiege`,
/// `#1 SMP Fri Sep 5 2026`, `riscv64` and `(none)`.
pub open spec fn utsname() -> Seq<u8> {
    uts_field(sysname()) + uts_field(nodename()) + uts_field(release()) + uts_field(version())
        + uts_field(machine()) + uts_field(domainname())
}

pub fn sys_uname(mem: &mut UserMem, buf: usize) -> (r: SysResult)
    ensures
        if mapped(old(mem)@, buf as int, 390) {
            r == ok(0) && final(mem)@ == stored(old(mem)@, buf as int, utsname())
        } else {
            r == err(EFAULT) && final(mem)@ == old(mem)@
        },
{
    let mut v: Vec<u8> = Vec::new();
    let a: Vec<u8> = vec![76, 105, 110, 117, 120];
    let b: Vec<u8> = vec![106, 105, 101, 103, 101];
    let c: Vec<u8> = vec![54, 46, 54, 46, 48, 45, 106, 105, 101, 103, 101];
    let d: Vec<u8> = vec![
        35,
        49,
        32,
        83,
        77,
        80,
        32,
        70,
        114,
        105,
        32,
        83,
        101,
        112,
        32,
        53,
        32,
        50,
        48,
        50,
        54,
    ];
    let e: Vec<u8> = vec![114, 105, 115, 99, 118, 54, 52];
    let f: Vec<u8> = vec![40, 110, 111, 110, 101, 41];
    proof {
        assert(a@ =~= sysname());
        assert(b@ =~= nodename());
        assert(c@ =~= release());
        assert(d@ =~= version());
        assert(e@ =~= machine());
        assert(f@ =~= domainname());
    }
    put_field(&mut v, &a);
    put_field(&mut v, &b);
    put_field(&mut v, &c);
    put_field(&mut v, &d);
    put_field(&mut v, &e);
    put_field(&mut v, &f);
    proof {
        assert(v@ =~= utsname());
        assert(utsname().len() == 390);
    }
    match mem.copy_to_user(buf, &v) {
        Ok(_) => Ok(0),
        Err(e) => Err(e),
    }
}

/// What the sysinfo call reports.
#[derive(Clone, Copy, PartialEq, Eq, Structural, Debug)]
pub struct MachineInfo {
    pub uptime_ns: u64,
    pub used: u64,
    pub total: u64,
    pub procs: u16,
}

pub open spec fn sysinfo_bytes(i: MachineInfo) -> Seq<u8> {
    le((i.uptime_ns / 1_000_000_000) as nat, 8) + zeros(24) + le(i.total as nat, 8) + le(
        (i.total - i.used) as nat,
        8,
    ) + zeros(32) + le(i.procs as nat, 2) + zeros(6) + zeros(16) + le(1, 4) + zeros(4)
}

pub fn sys_sysinfo(mem: &mut UserMem, buf: usize, i: MachineInfo) -> (r: SysResult)
    requires
        i.used <= i.total,
    ensures
        if mapped(old(mem)@, buf as int, 112) {
            r == ok(0) && final(mem)@ == stored(old(mem)@, buf as int, sysinfo_bytes(i))
        } else {
            r == err(EFAULT) && final(mem)@ == old(mem)@
        },
{
    let mut v: Vec<u8> = Vec::new();
    put_le(&mut v, i.uptime_ns / 1_000_000_000, 8);
    put_zeros(&mut v, 24);
    put_le(&mut v, i.total, 8);
    put_le(&mut v, i.total - i.used, 8);
    put_zeros(&mut v, 32);
    put_le(&mut v, i.procs as u64, 2);
    put_zeros(&mut v, 6);
    put_zeros(&mut v, 16);
    put_le(&mut v, 1, 4);
    put_zeros(&mut v, 4);
    proof {
        broadcast use crate::bytes::lemma_le_len;

        assert(v@ =~= sysinfo_bytes(i));
    }
    match mem.copy_to_user(buf, &v) {
        Ok(_) => Ok(0),
        Err(e) => Err(e),
    }
}

/// How many random bytes one call gives at most.
pub const RANDOM_MAX: usize = 0x10_0000;

/// How many random bytes a request of `len` gets.
pub fn random_len(len: usize) -> (n: usize)
    ensures
        n == (if len < RANDOM_MAX {
            len
        } else {
            RANDOM_MAX
        }),
{
    if len < RANDOM_MAX {
        len
    } else {
        RANDOM_MAX
    }
}

/// Stores the random bytes that were drawn for a request, `random_len` of them.
pub fn sys_getrandom(mem: &mut UserMem, buf: usize, bytes: &Vec<u8>) -> (r: SysResult)
    ensures
        if mapped(old(mem)@, buf as int, bytes@.len() as int) {
            &&& r == Ok::<usize, i32>(bytes.len())
            &&& final(mem)@ == stored(old(mem)@, buf as int, bytes@)
        } else {
            r == err(EFAULT) && final(mem)@ == old(mem)@
        },
{
    match mem.copy_to_user(buf, bytes) {
        Ok(_) => Ok(bytes.len()),
        Err(e) => Err(e),
    }
}

/// The task runs on processor 0 of node 0.
pub fn sys_getcpu(mem: &mut UserMem, cpu: usize, node: usize) -> (r: SysResult)
    ensures
        ({
            let m = old(mem)@;
            let m1 = stored_opt(m, cpu as int, le(0, 4));
            if cpu != 0 && !mapped(m, cpu as int, 4) {
                r == err(EFAULT) && final(mem)@ == m
            } else if node != 0 && !mapped(m, node as int, 4) {
                r == err(EFAULT) && final(mem)@ == m1
            } else {
                r == ok(0) && final(mem)@ == stored_opt(m1, node as int, le(0, 4))
            }
        }),
{
    proof {
        lemma_mapped_stored(mem@, cpu as int, le(0, 4));
    }
    if cpu != 0 {
        match mem.write_num(cpu, 0, 4) {
            Ok(_) => {},
            Err(e) => {
                return Err(e);
            },
        }
    }
    if node != 0 {
        match mem.write_num(node, 0, 4) {
            Ok(_) => {},
            Err(e) => {
                return Err(e);
            },
        }
    }
    Ok(0)
}

/// Whether a reboot command stops the machine; others do nothing.
pub fn sys_reboot(cmd: u32) -> (stops: bool)
    ensures
        stops == (cmd == 0x4321_fedc || cmd == 0xcdef_0123 || cmd == 0x0123_4567),
{
    cmd == 0x4321_fedc || cmd == 0xcdef_0123 || cmd == 0x0123_4567
}

/// Clocks 0 and 5 show the time of day, 1, 4, 6 and 7 the time since the start, 2 and
/// 3 the processor time; there are no others.
pub proof fn clocks_have_their_numbers(clk: i32, now: Clocks, t: TaskCtl)
    ensures
        clk == 0 || clk == 5 ==> clock_ns(clk, now, t) == Some(now.realtime_ns as int),
        clk == 1 || clk == 4 || clk == 6 || clk == 7 ==> clock_ns(clk, now, t) == Some(
            now.monotonic_ns as int,
        ),
        clk == 2 || clk == 3 ==> clock_ns(clk, now, t) == Some(t.utime + t.stime),
        clk < 0 || clk > 7 ==> clock_ns(clk, now, t) is None,
{
}

/// A sleep ends when its time has passed: a relative one that long after now, an
/// absolute one when its clock shows that time.
pub proof fn sleeps_end_in_time(ns: int, now: Clocks)
    requires
        0 <= ns,
        now.monotonic_ns + ns <= u64::MAX,
    ensures
        sleep_deadline(1, 0, ns, now) - now.monotonic_ns == ns,
        sleep_deadline(0, 0, ns, now) - now.monotonic_ns == ns,
        sleep_deadline(1, 1, ns, now) == ns,
        ns >= now.realtime_ns ==> sleep_deadline(0, 1, ns, now) - now.monotonic_ns == ns
            - now.realtime_ns,
        ns < now.realtime_ns ==> sleep_deadline(0, 1, ns, now) == now.monotonic_ns,
{
    assert(0i32 & 1 == 0 && 1i32 & 1 != 0) by (bit_vector);
}

} // verus!
