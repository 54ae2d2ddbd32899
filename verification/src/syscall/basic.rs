//! System calls that read or set what a process knows of itself and of the
//! machine.

use vstd::prelude::*;
use crate::bytes::{le, put_le, put_zeros, zeros};
use crate::errno::{SysResult, EAGAIN, EINTR, ENOSYS, EPERM};
use crate::syscall::misc::{domainname, machine, sysname, uts_field, put_field};
use crate::syscall::process::{err, ok};
use crate::syscall::reply::{
    bytes_out, num, num_out, out, views, Out, OutView,
};
use crate::syscall::timespec::{pair, pair_bytes, ts_bytes, tv_bytes, tv_from_ns};
use crate::task::process::Process;

verus! {

/// The arguments of a system call.
pub type Args = [usize; 6];

/// What the machine says at the time of a call.
#[derive(Clone, Copy, PartialEq, Eq, Structural, Debug)]
pub struct Machine {
    pub realtime_ns: u64,
    pub uptime_ns: u64,
    pub total_frames: u64,
    pub free_frames: u64,
}

impl Machine {
    pub open spec fn wf(&self) -> bool {
        self.total_frames * 4096 <= u64::MAX && self.free_frames * 4096 <= u64::MAX
    }
}

/// The calls that succeed and do nothing: setgroups, prctl, setrlimit,
/// scheduler settings, personality, membarrier, syslog, memory advice and
/// locking, owners, modes and times of files, syncing, accounting and
/// capabilities, queued signals, setting the clock, socket options.
pub open spec fn is_noop(nr: usize) -> bool {
    nr == 159 || nr == 167 || nr == 164 || nr == 121 || nr == 120 || nr == 122 || nr == 92 || nr
        == 283 || nr == 116 || (227 <= nr <= 233) || (52 <= nr <= 55) || nr == 88 || (81 <= nr
        <= 83) || nr == 267 || (89 <= nr <= 91) || nr == 138 || nr == 112 || nr == 208
}

/// The calls that this kernel does not have: restartable sequences, hardware
/// probing, statx, timer descriptors and interval timers.
pub open spec fn is_absent(nr: usize) -> bool {
    nr == 293 || nr == 258 || nr == 291 || (85 <= nr <= 87) || (107 <= nr <= 111)
}

/// The answer to calls that store nothing and change nothing.
pub open spec fn plain_spec(nr: usize, p: Process) -> Option<SysResult> {
    if is_noop(nr) {
        Some(ok(0))
    } else if is_absent(nr) {
        Some(err(ENOSYS))
    } else if nr == 172 || nr == 178 {
        Some(ok(p.pid as int))
    } else if nr == 173 {
        Some(ok(p.ppid as int))
    } else if nr == 174 || nr == 175 {
        Some(ok(p.euid as int))
    } else if nr == 176 || nr == 177 {
        Some(ok(p.egid as int))
    } else if nr == 155 {
        Some(ok(p.pgid as int))
    } else if nr == 156 {
        Some(ok(p.sid as int))
    } else if nr == 128 {
        Some(err(EINTR))
    } else if nr == 137 {
        Some(err(EAGAIN))
    } else if 39 <= nr <= 41 || nr == 51 {
        Some(err(EPERM))
    } else {
        None
    }
}

pub fn plain(nr: usize, p: &Process) -> (r: Option<SysResult>)
    ensures
        r == plain_spec(nr, *p),
{
    match nr {
        159 | 167 | 164 | 121 | 120 | 122 | 92 | 283 | 116 | 227 | 228 | 229 | 230 | 231 | 232
        | 233 | 52 | 53 | 54 | 55 | 88 | 81 | 82 | 83 | 267 | 89 | 90 | 91 | 138 | 112 | 208 => Some(
            Ok(0),
        ),
        293 | 258 | 291 | 85 | 86 | 87 | 107 | 108 | 109 | 110 | 111 => Some(Err(ENOSYS)),
        172 | 178 => Some(Ok(p.pid)),
        173 => Some(Ok(p.ppid)),
        174 | 175 => Some(Ok(p.euid as usize)),
        176 | 177 => Some(Ok(p.egid as usize)),
        155 => Some(Ok(p.pgid)),
        156 => Some(Ok(p.sid)),
        128 => Some(Err(EINTR)),
        137 => Some(Err(EAGAIN)),
        39 | 40 | 41 | 51 => Some(Err(EPERM)),
        _ => None,
    }
}

/// The answer to calls that set what a process is, and the process after them.
pub open spec fn setting_spec(nr: usize, a: Seq<usize>, p: Process) -> Option<(usize, Process)> {
    let x = a[0] as u32;
    let y = a[1] as u32;
    if nr == 146 {
        Some((0, Process { uid: x, euid: x, ..p }))
    } else if nr == 144 {
        Some((0, Process { gid: x, egid: x, ..p }))
    } else if nr == 147 {
        Some((0, Process { uid: x, euid: y, ..p }))
    } else if nr == 149 {
        Some((0, Process { gid: x, egid: y, ..p }))
    } else if nr == 154 {
        Some(
            (
                0,
                Process {
                    pgid: if a[1] == 0 {
                        p.pid
                    } else {
                        a[1]
                    },
                    ..p
                },
            ),
        )
    } else if nr == 157 {
        Some((p.pid, Process { sid: p.pid, pgid: p.pid, ..p }))
    } else if nr == 166 {
        Some((p.umask as usize, Process { umask: x, ..p }))
    } else if nr == 96 {
        Some(
            (
                if p.clear_child_tid != 0 {
                    p.clear_child_tid
                } else {
                    p.pid
                },
                Process { clear_child_tid: a[0], ..p },
            ),
        )
    } else if nr == 99 {
        Some((0, Process { robust_list: a[0], robust_list_len: a[1], ..p }))
    } else {
        None
    }
}

pub fn setting(nr: usize, a: &Args, p: &mut Process) -> (r: Option<usize>)
    ensures
        match setting_spec(nr, a@, *old(p)) {
            Some(s) => r == Some(s.0) && *final(p) == s.1,
            None => r is None && *final(p) == *old(p),
        },
{
    match nr {
        146 => {
            p.uid = a[0] as u32;
            p.euid = a[0] as u32;
            Some(0)
        },
        144 => {
            p.gid = a[0] as u32;
            p.egid = a[0] as u32;
            Some(0)
        },
        147 => {
            p.uid = a[0] as u32;
            p.euid = a[1] as u32;
            Some(0)
        },
        149 => {
            p.gid = a[0] as u32;
            p.egid = a[1] as u32;
            Some(0)
        },
        154 => {
            p.pgid = if a[1] == 0 {
                p.pid
            } else {
                a[1]
            };
            Some(0)
        },
        157 => {
            p.sid = p.pid;
            p.pgid = p.pid;
            Some(p.pid)
        },
        166 => {
            let was: u32 = p.umask;
            p.umask = a[0] as u32;
            Some(was as usize)
        },
        96 => {
            let was: usize = p.clear_child_tid;
            p.clear_child_tid = a[0];
            if was != 0 {
                Some(was)
            } else {
                Some(p.pid)
            }
        },
        99 => {
            p.robust_list = a[0];
            p.robust_list_len = a[1];
            Some(0)
        },
        _ => None,
    }
}

/// Soft and hard limit of a resource, as prlimit64 tells them.
pub open spec fn limits(res: usize) -> (u64, u64) {
    if res == 7 {
        (4096, 4096)
    } else if res == 3 {
        (0x80_0000, u64::MAX)
    } else if res == 4 {
        (0, u64::MAX)
    } else if res == 6 {
        (1024, 1024)
    } else {
        (u64::MAX, u64::MAX)
    }
}

/// As `getrlimit` tells them: it does not limit the number of processes.
pub open spec fn limits_of(res: usize) -> (u64, u64) {
    if res == 6 {
        (u64::MAX, u64::MAX)
    } else {
        limits(res)
    }
}

fn limits_now(res: usize) -> (r: (u64, u64))
    ensures
        r == limits(res),
{
    match res {
        7 => (4096, 4096),
        3 => (0x80_0000, u64::MAX),
        4 => (0, u64::MAX),
        6 => (1024, 1024),
        _ => (u64::MAX, u64::MAX),
    }
}

pub open spec fn localhost() -> Seq<u8> {
    seq![108u8, 111, 99, 97, 108, 104, 111, 115, 116]
}

pub open spec fn kernel_release() -> Seq<u8> {
    seq![54u8, 46, 56, 46, 48, 45, 105, 106, 105, 101, 103, 101]
}

pub open spec fn kernel_version() -> Seq<u8> {
    seq![35u8, 49, 32, 83, 77, 80, 32, 114, 105, 115, 99, 118, 54, 52]
}

/// `Linux`, `localhost`, `6.8.0-ijiege`, `#1 SMP riscv64`, `riscv64` and
/// `(none)`.
pub open spec fn names() -> Seq<u8> {
    uts_field(sysname()) + uts_field(localhost()) + uts_field(kernel_release()) + uts_field(
        kernel_version(),
    ) + uts_field(machine()) + uts_field(domainname())
}

fn names_now() -> (v: Vec<u8>)
    ensures
        v@ == names(),
{
    let mut v: Vec<u8> = Vec::new();
    let a: Vec<u8> = vec![76, 105, 110, 117, 120];
    let b: Vec<u8> = vec![108, 111, 99, 97, 108, 104, 111, 115, 116];
    let c: Vec<u8> = vec![54, 46, 56, 46, 48, 45, 105, 106, 105, 101, 103, 101];
    let d: Vec<u8> = vec![35, 49, 32, 83, 77, 80, 32, 114, 105, 115, 99, 118, 54, 52];
    let e: Vec<u8> = vec![114, 105, 115, 99, 118, 54, 52];
    let f: Vec<u8> = vec![40, 110, 111, 110, 101, 41];
    proof {
        assert(a@ =~= sysname());
        assert(b@ =~= localhost());
        assert(c@ =~= kernel_release());
        assert(d@ =~= kernel_version());
        assert(e@ =~= machine());
        assert(f@ =~= domainname());
    }
    put_field(&mut v, &a);
    put_field(&mut v, &b);
    put_field(&mut v, &c);
    put_field(&mut v, &d);
    put_field(&mut v, &e);
    put_field(&mut v, &f);
    proof {
        assert(v@ =~= names());
    }
    v
}

/// Total and free memory at their places, and one process.
pub open spec fn sysinfo(m: Machine) -> Seq<u8> {
    zeros(32) + le((m.total_frames * 4096) as nat, 8) + le((m.free_frames * 4096) as nat, 8) + zeros(
        56,
    ) + le(1, 8)
}

fn sysinfo_now(m: Machine) -> (v: Vec<u8>)
    requires
        m.wf(),
    ensures
        v@ == sysinfo(m),
{
    let mut v: Vec<u8> = Vec::new();
    put_zeros(&mut v, 32);
    put_le(&mut v, m.total_frames * 4096, 8);
    put_le(&mut v, m.free_frames * 4096, 8);
    put_zeros(&mut v, 56);
    put_le(&mut v, 1, 8);
    proof {
        assert(v@ =~= sysinfo(m));
    }
    v
}

/// A file system in memory: its kind, the block size, its size and the counts.
pub open spec fn statfs() -> Seq<u8> {
    le(0x01021994, 8) + le(4096, 8) + le(0x100_0000_0000, 8) + zeros(8) + le(1_000_000, 8) + le(
        500_000,
        8,
    ) + le(500_000, 8) + zeros(64)
}

fn statfs_now() -> (v: Vec<u8>)
    ensures
        v@ == statfs(),
{
    let mut v: Vec<u8> = Vec::new();
    put_le(&mut v, 0x01021994, 8);
    put_le(&mut v, 4096, 8);
    put_le(&mut v, 0x100_0000_0000, 8);
    put_zeros(&mut v, 8);
    put_le(&mut v, 1_000_000, 8);
    put_le(&mut v, 500_000, 8);
    put_le(&mut v, 500_000, 8);
    put_zeros(&mut v, 64);
    proof {
        assert(v@ =~= statfs());
    }
    v
}

/// The time of a clock: the monotonic clocks count from the start, all others
/// are the time of day.
pub open spec fn clock_ns(clock: usize, m: Machine) -> u64 {
    if clock == 1 || clock == 4 || clock == 7 {
        m.uptime_ns
    } else {
        m.realtime_ns
    }
}

/// Seconds and nanoseconds of a clock.
pub fn clock_now(clock: usize, m: &Machine) -> (r: (u64, u64))
    ensures
        r.0 == clock_ns(clock, *m) / 1_000_000_000,
        r.1 == clock_ns(clock, *m) % 1_000_000_000,
{
    let ns: u64 = match clock {
        1 | 4 | 7 => m.uptime_ns,
        _ => m.realtime_ns,
    };
    (ns / 1_000_000_000, ns % 1_000_000_000)
}

/// What a call stores and returns, for the calls that only tell something.
pub open spec fn answer_spec(nr: usize, a: Seq<usize>, p: Process, m: Machine) -> Option<
    (Seq<OutView>, usize),
> {
    let none = Seq::<OutView>::empty();
    if nr == 148 {
        Some(
            (
                seq![
                    num(a[0], p.uid as nat, 4),
                    num(a[1], p.euid as nat, 4),
                    num(a[2], p.uid as nat, 4),
                ],
                0,
            ),
        )
    } else if nr == 150 {
        Some(
            (
                seq![
                    num(a[0], p.gid as nat, 4),
                    num(a[1], p.egid as nat, 4),
                    num(a[2], p.gid as nat, 4),
                ],
                0,
            ),
        )
    } else if nr == 158 {
        Some((seq![num(a[1], p.gid as nat, 4)], 1))
    } else if nr == 160 {
        Some((seq![out(a[0], names())], 0))
    } else if nr == 100 {
        Some((seq![num(a[0], p.robust_list as nat, 8)], 0))
    } else if nr == 261 {
        let l = limits(a[1]);
        Some(
            (
                if a[3] != 0 {
                    seq![out(a[3], pair_bytes(l.0 as nat, l.1 as nat))]
                } else {
                    none
                },
                0,
            ),
        )
    } else if nr == 163 {
        let l = limits_of(a[0]);
        Some((seq![out(a[1], pair_bytes(l.0 as nat, l.1 as nat))], 0))
    } else if nr == 168 {
        Some((seq![num(a[0], 0, 4), num(a[1], 0, 4)], 0))
    } else if nr == 179 {
        Some((seq![out(a[0], sysinfo(m))], 0))
    } else if nr == 123 {
        Some(
            (
                if a[1] < 8 {
                    none
                } else if a[1] == 8 || a[2] + 8 > usize::MAX {
                    seq![num(a[2], 1, 8)]
                } else {
                    seq![num(a[2], 1, 8), out((a[2] + 8) as usize, zeros((a[1] - 8) as nat))]
                },
                8,
            ),
        )
    } else if nr == 43 || nr == 44 {
        Some((seq![out(a[1], statfs())], 0))
    } else if nr == 136 {
        Some((seq![num(a[0], (p.sig.pending & p.sig.blocked) as nat, 8)], 0))
    } else if nr == 169 {
        let tv = out(a[0], tv_bytes(m.realtime_ns as nat));
        let tz = out(a[1], zeros(8));
        Some(
            (
                if a[0] != 0 && a[1] != 0 {
                    seq![tv, tz]
                } else if a[0] != 0 {
                    seq![tv]
                } else if a[1] != 0 {
                    seq![tz]
                } else {
                    none
                },
                0,
            ),
        )
    } else if nr == 113 {
        Some((seq![out(a[1], ts_bytes(clock_ns(a[0], m) as nat))], 0))
    } else if nr == 114 {
        Some((seq![out(a[1], pair_bytes(0, 1_000_000))], 0))
    } else if nr == 153 {
        let t = (m.uptime_ns / 10_000_000) as usize;
        Some((seq![out(a[0], le((m.uptime_ns / 10_000_000) as nat, 8) + zeros(24))], t))
    } else if nr == 165 {
        Some((seq![out(a[1], zeros(144))], 0))
    } else {
        None
    }
}

fn zero_vec(n: usize) -> (v: Vec<u8>)
    ensures
        v@ == zeros(n as nat),
{
    let mut v: Vec<u8> = Vec::new();
    put_zeros(&mut v, n);
    proof {
        assert(v@ =~= zeros(n as nat));
    }
    v
}

/// Builds the answer to a call that only tells something.
pub fn answer(nr: usize, a: &Args, p: &Process, m: &Machine) -> (r: Option<(Vec<Out>, usize)>)
    requires
        m.wf(),
    ensures
        match answer_spec(nr, a@, *p, *m) {
            Some(s) => r is Some && views((r->0).0@) == s.0 && (r->0).1 == s.1,
            None => r is None,
        },
{
    let mut l: Vec<Out> = Vec::new();
    let mut ret: usize = 0;
    match nr {
        148 => {
            l.push(num_out(a[0], p.uid as u64, 4));
            l.push(num_out(a[1], p.euid as u64, 4));
            l.push(num_out(a[2], p.uid as u64, 4));
        },
        150 => {
            l.push(num_out(a[0], p.gid as u64, 4));
            l.push(num_out(a[1], p.egid as u64, 4));
            l.push(num_out(a[2], p.gid as u64, 4));
        },
        158 => {
            l.push(num_out(a[1], p.gid as u64, 4));
            ret = 1;
        },
        160 => {
            l.push(bytes_out(a[0], names_now()));
        },
        100 => {
            l.push(num_out(a[0], p.robust_list as u64, 8));
        },
        261 => {
            let lim: (u64, u64) = limits_now(a[1]);
            if a[3] != 0 {
                l.push(bytes_out(a[3], pair(lim.0, lim.1)));
            }
        },
        163 => {
            let lim: (u64, u64) = if a[0] == 6 {
                (u64::MAX, u64::MAX)
            } else {
                limits_now(a[0])
            };
            l.push(bytes_out(a[1], pair(lim.0, lim.1)));
        },
        168 => {
            l.push(num_out(a[0], 0, 4));
            l.push(num_out(a[1], 0, 4));
        },
        179 => {
            l.push(bytes_out(a[0], sysinfo_now(*m)));
        },
        123 => {
            if a[1] >= 8 {
                l.push(num_out(a[2], 1, 8));
                if a[1] > 8 && a[2] <= usize::MAX - 8 {
                    l.push(bytes_out(a[2] + 8, zero_vec(a[1] - 8)));
                }
            }
            ret = 8;
        },
        43 | 44 => {
            l.push(bytes_out(a[1], statfs_now()));
        },
        136 => {
            l.push(num_out(a[0], p.sig.pending & p.sig.blocked, 8));
        },
        169 => {
            if a[0] != 0 {
                l.push(bytes_out(a[0], tv_from_ns(m.realtime_ns)));
            }
            if a[1] != 0 {
                l.push(bytes_out(a[1], zero_vec(8)));
            }
        },
        113 => {
            let t: (u64, u64) = clock_now(a[0], m);
            l.push(bytes_out(a[1], pair(t.0, t.1)));
        },
        114 => {
            l.push(bytes_out(a[1], pair(0, 1_000_000)));
        },
        153 => {
            let t: u64 = m.uptime_ns / 10_000_000;
            let mut v: Vec<u8> = Vec::new();
            put_le(&mut v, t, 8);
            put_zeros(&mut v, 24);
            proof {
                assert(v@ =~= le(t as nat, 8) + zeros(24));
            }
            l.push(bytes_out(a[0], v));
            ret = t as usize;
        },
        165 => {
            l.push(bytes_out(a[1], zero_vec(144)));
        },
        _ => {
            return None;
        },
    }
    proof {
        let s = answer_spec(nr, a@, *p, *m);
        assert(s is Some);
        assert(views(l@) =~= (s->0).0);
    }
    Some((l, ret))
}

/// Setting who a process is shows in what it is told afterwards.
pub proof fn ids_read_back(a: Seq<usize>, p: Process)
    requires
        a.len() == 6,
    ensures
        setting_spec(146, a, p) is Some,
        plain_spec(174, (setting_spec(146, a, p)->0).1) == Some(ok(a[0] as u32 as int)),
        setting_spec(144, a, p) is Some,
        plain_spec(176, (setting_spec(144, a, p)->0).1) == Some(ok(a[0] as u32 as int)),
        setting_spec(157, a, p) is Some,
        plain_spec(156, (setting_spec(157, a, p)->0).1) == Some(ok(p.pid as int)),
        plain_spec(155, (setting_spec(157, a, p)->0).1) == Some(ok(p.pid as int)),
{
}

} // verus!
