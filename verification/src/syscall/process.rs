//! System calls about the calling process.

use vstd::prelude::*;
use crate::abi::{
    CLD_EXITED, CLD_KILLED, CLONE_PARENT_SETTID, CLONE_THREAD, CLONE_VM, PR_GET_NAME, PR_SET_NAME,
    P_ALL, P_PGID, P_PID, RLIMIT_NOFILE, SIGCHLD, WNOHANG,
};
use crate::bytes::{le, zeros, put_zeros};
use crate::errno::{SysResult, EFAULT, EINVAL, ENOSYS, ESRCH};
use crate::file::{FdTable, FD_MAX};
use crate::paths::copy_bytes;
use crate::syscall::timespec::{pair, pair_bytes, tv_bytes};
use crate::task::control::{siginfo, siginfo_bytes, siginfo_vec, Rlimit, SigInfo, TaskCtl, Tasks};
use crate::task::sched;
use crate::task::sched::{Sched, Switch};
use crate::text::{to_lossy, utf8_lossy};
use crate::syscall::transfer::{array_at, read_str_array, texts, MAX_STR};
use crate::task::exec::{last_part, program_name};
use crate::uaccess::{cstr_at, cstr_mapped, field, mapped, num_at, stored, UserMem};

verus! {

pub open spec fn err(e: i32) -> SysResult {
    Err(e)
}

pub open spec fn ok(v: int) -> SysResult {
    Ok(v as usize)
}

/// The wait status of a task that exits with `code`.
pub open spec fn exit_status(code: i32) -> i32 {
    (code & 0xff) << 8
}

/// The status with which the task ends.
pub fn sys_exit(code: i32) -> (status: i32)
    ensures
        status == exit_status(code),
{
    (code & 0xff) << 8
}

/// The status with which all threads of the process end.
pub fn sys_exit_group(code: i32) -> (status: i32)
    ensures
        status == exit_status(code),
{
    (code & 0xff) << 8
}

pub fn sys_set_tid_address(t: &mut TaskCtl, ptr: usize) -> (r: SysResult)
    ensures
        *final(t) == (TaskCtl { clear_child_tid: ptr, ..*old(t) }),
        r == Ok::<usize, i32>(old(t).pid as usize),
{
    t.clear_child_tid = ptr;
    Ok(t.pid as usize)
}

pub fn sys_set_robust_list(t: &mut TaskCtl, head: usize, len: usize) -> (r: SysResult)
    ensures
        *final(t) == (TaskCtl { robust_list: head, ..*old(t) }),
        r == ok(0),
{
    t.robust_list = head;
    Ok(0)
}

/// Whether a clone request is one for a process of its own: threads and
/// shared memory are not supported.
pub fn clone_forks(flags: u64) -> (r: bool)
    ensures
        r == (flags & CLONE_THREAD == 0 && flags & CLONE_VM == 0),
{
    !(flags & CLONE_THREAD != 0 || flags & CLONE_VM != 0)
}

/// The clone call. `forked` is what forking gave; nothing is to be forked where
/// `clone_forks` is false.
pub fn sys_clone(mem: &mut UserMem, flags: u64, ptid: usize, forked: Result<i32, i32>) -> (r:
    SysResult)
    ensures
        ({
            let stores = flags & CLONE_PARENT_SETTID != 0 && ptid != 0;
            if flags & CLONE_THREAD != 0 || flags & CLONE_VM != 0 {
                r == err(ENOSYS) && final(mem)@ == old(mem)@
            } else {
                match forked {
                    Err(e) => r == err(e) && final(mem)@ == old(mem)@,
                    Ok(pid) => if stores && !mapped(old(mem)@, ptid as int, 4) {
                        r == err(EFAULT) && final(mem)@ == old(mem)@
                    } else {
                        &&& r == Ok::<usize, i32>(pid as usize)
                        &&& final(mem)@ == (if stores {
                            stored(old(mem)@, ptid as int, le((pid as u32) as nat, 4))
                        } else {
                            old(mem)@
                        })
                    },
                }
            }
        }),
{
    if !clone_forks(flags) {
        return Err(ENOSYS);
    }
    match forked {
        Err(e) => Err(e),
        Ok(pid) => {
            if flags & CLONE_PARENT_SETTID != 0 && ptid != 0 {
                match mem.write_num(ptid, (pid as u32) as u64, 4) {
                    Ok(_) => {},
                    Err(e) => {
                        return Err(e);
                    },
                }
            }
            Ok(pid as usize)
        },
    }
}

/// A program to be run: its path, the arguments, the environment and the name
/// that the task gets.
pub struct ExecRequest {
    pub path: Vec<u8>,
    pub argv: Vec<Vec<u8>>,
    pub envp: Vec<Vec<u8>>,
    pub name: Vec<u8>,
}

/// Reads what is to be run.
pub fn sys_execve(mem: &UserMem, path: usize, argv: usize, envp: usize) -> (r: Result<ExecRequest, i32>)
    ensures
        ({
            let m = mem@;
            if !cstr_mapped(m, path as int, MAX_STR as nat) || array_at(m, argv) is None
                || array_at(m, envp) is None {
                r is Err && r->Err_0 == EFAULT
            } else {
                &&& r is Ok
                &&& r->Ok_0.path@ == cstr_at(m, path as int, MAX_STR as nat)
                &&& texts(r->Ok_0.argv@) == array_at(m, argv)->0
                &&& texts(r->Ok_0.envp@) == array_at(m, envp)->0
                &&& r->Ok_0.name@ == last_part(r->Ok_0.path@)
            }
        }),
{
    let path: Vec<u8> = match mem.read_cstr(path, MAX_STR) {
        Ok(s) => s,
        Err(e) => {
            return Err(e);
        },
    };
    let ghost p1 = argv;
    let ghost p2 = envp;
    let argv: Vec<Vec<u8>> = match read_str_array(mem, argv) {
        Ok(l) => l,
        Err(e) => {
            return Err(e);
        },
    };
    let envp: Vec<Vec<u8>> = match read_str_array(mem, envp) {
        Ok(l) => l,
        Err(e) => {
            return Err(e);
        },
    };
    proof {
        if p1 == 0 {
            assert(texts(argv@) =~= Seq::empty());
        }
        if p2 == 0 {
            assert(texts(envp@) =~= Seq::empty());
        }
    }
    let name: Vec<u8> = program_name(&path);
    Ok(ExecRequest { path, argv, envp, name })
}

/// The wait4 call. `waited` is the child that was found and its status; number
/// 0 is that none was.
pub fn sys_wait4(mem: &mut UserMem, status: usize, waited: Result<(i32, i32), i32>) -> (r: SysResult)
    ensures
        match waited {
            Err(e) => r == err(e) && final(mem)@ == old(mem)@,
            Ok((p, st)) => if p > 0 && status != 0 {
                if mapped(old(mem)@, status as int, 4) {
                    &&& r == Ok::<usize, i32>(p as usize)
                    &&& final(mem)@ == stored(old(mem)@, status as int, le((st as u32) as nat, 4))
                } else {
                    r == err(EFAULT) && final(mem)@ == old(mem)@
                }
            } else {
                r == Ok::<usize, i32>(p as usize) && final(mem)@ == old(mem)@
            },
        },
{
    match waited {
        Err(e) => Err(e),
        Ok((p, st)) => {
            if p > 0 && status != 0 {
                match mem.write_num(status, (st as u32) as u64, 4) {
                    Ok(_) => {},
                    Err(e) => {
                        return Err(e);
                    },
                }
            }
            Ok(p as usize)
        },
    }
}

/// Which children a waitid call is about, as wait4 puts it, and the options it
/// passes on.
pub fn waitid_request(idtype: i32, id: i32, options: i32) -> (r: Result<(i32, i32), i32>)
    requires
        idtype == P_PGID ==> id > i32::MIN,
    ensures
        r == (if idtype == P_ALL {
            Ok::<(i32, i32), i32>(((-1) as i32, options & WNOHANG))
        } else if idtype == P_PID {
            Ok::<(i32, i32), i32>((id, options & WNOHANG))
        } else if idtype == P_PGID {
            Ok::<(i32, i32), i32>(((-id) as i32, options & WNOHANG))
        } else {
            Err::<(i32, i32), i32>(EINVAL)
        }),
{
    let pid: i32 = match idtype {
        P_ALL => -1,
        P_PID => id,
        P_PGID => -id,
        _ => {
            return Err(EINVAL);
        },
    };
    let opts: i32 = if options & WNOHANG != 0 {
        WNOHANG
    } else {
        0
    };
    proof {
        assert(options & 1 == 0 || options & 1 == 1) by (bit_vector);
    }
    Ok((pid, opts))
}

/// What waitid reports of a child.
pub open spec fn wait_info(p: i32, st: i32) -> SigInfo {
    if p > 0 {
        if st & 0x7f != 0 {
            SigInfo { pid: p, code: CLD_KILLED, status: st & 0x7f, ..siginfo(SIGCHLD) }
        } else {
            SigInfo { pid: p, code: CLD_EXITED, status: st >> 8, ..siginfo(SIGCHLD) }
        }
    } else {
        siginfo(SIGCHLD)
    }
}

pub fn sys_waitid(mem: &mut UserMem, infop: usize, waited: Result<(i32, i32), i32>) -> (r: SysResult)
    ensures
        match waited {
            Err(e) => r == err(e) && final(mem)@ == old(mem)@,
            Ok((p, st)) => if infop != 0 {
                if mapped(old(mem)@, infop as int, 128) {
                    &&& r == ok(0)
                    &&& final(mem)@ == stored(
                        old(mem)@,
                        infop as int,
                        siginfo_bytes(wait_info(p, st)),
                    )
                } else {
                    r == err(EFAULT) && final(mem)@ == old(mem)@
                }
            } else {
                r == ok(0) && final(mem)@ == old(mem)@
            },
        },
{
    match waited {
        Err(e) => Err(e),
        Ok((p, st)) => {
            if infop != 0 {
                let mut info = SigInfo { signo: SIGCHLD, code: 0, pid: 0, uid: 0, status: 0 };
                if p > 0 {
                    info.pid = p;
                    if st & 0x7f != 0 {
                        info.code = CLD_KILLED;
                        info.status = st & 0x7f;
                    } else {
                        info.code = CLD_EXITED;
                        info.status = st >> 8;
                    }
                }
                let v: Vec<u8> = siginfo_vec(&info);
                match mem.copy_to_user(infop, &v) {
                    Ok(_) => {},
                    Err(e) => {
                        return Err(e);
                    },
                }
            }
            Ok(0)
        },
    }
}

pub fn sys_getpid(t: &TaskCtl) -> (r: SysResult)
    ensures
        r == Ok::<usize, i32>(t.tgid as usize),
{
    Ok(t.tgid as usize)
}

pub fn sys_gettid(t: &TaskCtl) -> (r: SysResult)
    ensures
        r == Ok::<usize, i32>(t.pid as usize),
{
    Ok(t.pid as usize)
}

pub fn sys_getppid(t: &TaskCtl) -> (r: SysResult)
    ensures
        r == Ok::<usize, i32>(t.ppid as usize),
{
    Ok(t.ppid as usize)
}

pub fn sys_getuid(t: &TaskCtl) -> (r: SysResult)
    ensures
        r == Ok::<usize, i32>(t.uid as usize),
{
    Ok(t.uid as usize)
}

pub fn sys_getgid(t: &TaskCtl) -> (r: SysResult)
    ensures
        r == Ok::<usize, i32>(t.gid as usize),
{
    Ok(t.gid as usize)
}

/// Sets the user; the largest number leaves it.
pub fn sys_setuid(t: &mut TaskCtl, uid: u32) -> (r: SysResult)
    ensures
        r == ok(0),
        *final(t) == (TaskCtl {
            uid: if uid != u32::MAX {
                uid
            } else {
                old(t).uid
            },
            ..*old(t)
        }),
{
    if uid != u32::MAX {
        t.uid = uid;
    }
    Ok(0)
}

/// Sets the group; the largest number leaves it.
pub fn sys_setgid(t: &mut TaskCtl, gid: u32) -> (r: SysResult)
    ensures
        r == ok(0),
        *final(t) == (TaskCtl {
            gid: if gid != u32::MAX {
                gid
            } else {
                old(t).gid
            },
            ..*old(t)
        }),
{
    if gid != u32::MAX {
        t.gid = gid;
    }
    Ok(0)
}

/// Storing the same four bytes at three places in turn, up to the first that
/// is not accessible.
pub open spec fn thrice(
    m: Map<int, u8>,
    a: int,
    b: int,
    c: int,
    s: Seq<u8>,
    r: SysResult,
    m1: Map<int, u8>,
) -> bool {
    let ma = stored(m, a, s);
    let mb = stored(ma, b, s);
    if !mapped(m, a, 4) {
        r == err(EFAULT) && m1 == m
    } else if !mapped(m, b, 4) {
        r == err(EFAULT) && m1 == ma
    } else if !mapped(m, c, 4) {
        r == err(EFAULT) && m1 == mb
    } else {
        r == ok(0) && m1 == stored(mb, c, s)
    }
}

/// Storing keeps what is accessible.
pub proof fn lemma_mapped_stored(m: Map<int, u8>, at: int, s: Seq<u8>)
    ensures
        forall|a: int, n: int| #[trigger] mapped(stored(m, at, s), a, n) == mapped(m, a, n),
{
    assert forall|a: int, n: int| #[trigger] mapped(stored(m, at, s), a, n) == mapped(m, a, n) by {
        let t = stored(m, at, s);
        if mapped(t, a, n) {
            assert forall|x: int| a <= x < a + n implies #[trigger] m.dom().contains(x) by {
                assert(t.dom().contains(x));
            }
        }
        if mapped(m, a, n) {
            assert forall|x: int| a <= x < a + n implies #[trigger] t.dom().contains(x) by {
                assert(m.dom().contains(x));
            }
        }
    }
}

fn write_thrice(mem: &mut UserMem, a: usize, b: usize, c: usize, v: u32) -> (r: SysResult)
    ensures
        thrice(
            old(mem)@,
            a as int,
            b as int,
            c as int,
            le(v as nat, 4),
            r,
            final(mem)@,
        ),
{
    let ghost s = le(v as nat, 4);
    let ghost m = mem@;
    proof {
        lemma_mapped_stored(m, a as int, s);
        lemma_mapped_stored(stored(m, a as int, s), b as int, s);
    }
    match mem.write_num(a, v as u64, 4) {
        Ok(_) => {},
        Err(e) => {
            return Err(e);
        },
    }
    match mem.write_num(b, v as u64, 4) {
        Ok(_) => {},
        Err(e) => {
            return Err(e);
        },
    }
    match mem.write_num(c, v as u64, 4) {
        Ok(_) => {},
        Err(e) => {
            return Err(e);
        },
    }
    Ok(0)
}

pub fn sys_getresuid(t: &TaskCtl, mem: &mut UserMem, r: usize, e: usize, s: usize) -> (ret: SysResult)
    ensures
        thrice(
            old(mem)@,
            r as int,
            e as int,
            s as int,
            le(t.uid as nat, 4),
            ret,
            final(mem)@,
        ),
{
    write_thrice(mem, r, e, s, t.uid)
}

pub fn sys_getresgid(t: &TaskCtl, mem: &mut UserMem, r: usize, e: usize, s: usize) -> (ret: SysResult)
    ensures
        thrice(
            old(mem)@,
            r as int,
            e as int,
            s as int,
            le(t.gid as nat, 4),
            ret,
            final(mem)@,
        ),
{
    write_thrice(mem, r, e, s, t.gid)
}

/// Moves a task to a process group; 0 stands for the caller, or for the group
/// that has the task's own number.
pub fn sys_setpgid(ts: &mut Tasks, pid: i32, pgid: i32) -> (r: SysResult)
    requires
        old(ts).wf(),
    ensures
        final(ts).wf(),
        match old(ts).target(pid) {
            None => r == err(ESRCH) && *final(ts) == *old(ts),
            Some(i) => {
                &&& r == ok(0)
                &&& final(ts).cur == old(ts).cur
                &&& final(ts).list@ == old(ts).list@.update(
                    i,
                    TaskCtl {
                        pgid: if pgid == 0 {
                            old(ts).list@[i].pid
                        } else {
                            pgid
                        },
                        ..old(ts).list@[i]
                    },
                )
            },
        },
{
    let i: usize = match ts.find_target(pid) {
        Some(i) => i,
        None => {
            return Err(ESRCH);
        },
    };
    let ghost l = ts.list@;
    let g: i32 = if pgid == 0 {
        ts.list[i].pid
    } else {
        pgid
    };
    ts.list[i].pgid = g;
    proof {
        assert(ts.list@ =~= l.update(i as int, TaskCtl { pgid: g, ..l[i as int] }));
    }
    Ok(0)
}

pub fn sys_getpgid(ts: &Tasks, pid: i32) -> (r: SysResult)
    requires
        ts.wf(),
    ensures
        r == (match ts.target(pid) {
            None => err(ESRCH),
            Some(i) => Ok::<usize, i32>(ts.list@[i].pgid as usize),
        }),
{
    match ts.find_target(pid) {
        Some(i) => Ok(ts.list[i].pgid as usize),
        None => Err(ESRCH),
    }
}

pub fn sys_getsid(ts: &Tasks, pid: i32) -> (r: SysResult)
    requires
        ts.wf(),
    ensures
        r == (match ts.target(pid) {
            None => err(ESRCH),
            Some(i) => Ok::<usize, i32>(ts.list@[i].sid as usize),
        }),
{
    match ts.find_target(pid) {
        Some(i) => Ok(ts.list[i].sid as usize),
        None => Err(ESRCH),
    }
}

/// Starts a session, and a group, of the task's own number.
pub fn sys_setsid(t: &mut TaskCtl) -> (r: SysResult)
    ensures
        *final(t) == (TaskCtl { sid: old(t).pid, pgid: old(t).pid, ..*old(t) }),
        r == Ok::<usize, i32>(old(t).pid as usize),
{
    t.sid = t.pid;
    t.pgid = t.pid;
    Ok(t.pid as usize)
}

/// Lets another task run.
pub fn sys_sched_yield(s: &mut Sched) -> (r: (SysResult, Switch))
    requires
        old(s).wf(),
        old(s).current is Some,
    ensures
        final(s).wf(),
        r.0 == ok(0),
        old(s).runqueue@.len() == 0 ==> r.1 == Switch::Stay && *final(s) == *old(s),
        old(s).runqueue@.len() > 0 ==> final(s).current == Some(old(s).runqueue@[0]),
{
    let sw: Switch = sched::yield_now(s);
    (Ok(0), sw)
}

/// There is one processor.
pub fn sys_sched_getaffinity(mem: &mut UserMem, len: usize, mask: usize) -> (r: SysResult)
    ensures
        if len < 8 {
            r == err(EINVAL) && final(mem)@ == old(mem)@
        } else if !mapped(old(mem)@, mask as int, 8) {
            r == err(EFAULT) && final(mem)@ == old(mem)@
        } else {
            r == ok(8) && final(mem)@ == stored(old(mem)@, mask as int, le(1, 8))
        },
{
    if len < 8 {
        return Err(EINVAL);
    }
    match mem.write_num(mask, 1, 8) {
        Ok(_) => Ok(8),
        Err(e) => Err(e),
    }
}

pub open spec fn rlimit_bytes(r: Rlimit) -> Seq<u8> {
    pair_bytes(r.cur as nat, r.max as nat)
}

/// The limit in memory at `addr`.
pub open spec fn rlimit_at(m: Map<int, u8>, addr: int) -> Rlimit {
    Rlimit { cur: num_at(m, addr, 8) as u64, max: num_at(m, addr + 8, 8) as u64 }
}

fn read_rlimit(mem: &UserMem, addr: usize) -> (r: Result<Rlimit, i32>)
    ensures
        match r {
            Ok(l) => mapped(mem@, addr as int, 16) && l == rlimit_at(mem@, addr as int),
            Err(e) => !mapped(mem@, addr as int, 16) && e == EFAULT,
        },
{
    match mem.copy_from_user(addr, 16) {
        Ok(v) => Ok(
            Rlimit {
                cur: field(&v, 0, 8, Ghost(mem@), Ghost(addr as int)),
                max: field(&v, 8, 8, Ghost(mem@), Ghost(addr as int)),
            },
        ),
        Err(e) => Err(e),
    }
}

pub fn sys_getrlimit(t: &TaskCtl, mem: &mut UserMem, res: u32, rlim: usize) -> (r: SysResult)
    requires
        t.wf(),
    ensures
        if res >= 16 {
            r == err(EINVAL) && final(mem)@ == old(mem)@
        } else if !mapped(old(mem)@, rlim as int, 16) {
            r == err(EFAULT) && final(mem)@ == old(mem)@
        } else {
            &&& r == ok(0)
            &&& final(mem)@ == stored(
                old(mem)@,
                rlim as int,
                rlimit_bytes(t.rlimits@[res as int]),
            )
        },
{
    if res >= 16 {
        return Err(EINVAL);
    }
    let l: Rlimit = t.rlimits[res as usize];
    let v: Vec<u8> = pair(l.cur, l.max);
    match mem.copy_to_user(rlim, &v) {
        Ok(_) => Ok(0),
        Err(e) => Err(e),
    }
}

/// How many descriptors a limit on open files allows.
pub open spec fn fd_limit(r: Rlimit) -> usize {
    if r.cur < FD_MAX {
        r.cur as usize
    } else {
        FD_MAX
    }
}

fn to_fd_limit(r: &Rlimit) -> (n: usize)
    ensures
        n == fd_limit(*r),
{
    if r.cur < FD_MAX as u64 {
        r.cur as usize
    } else {
        FD_MAX
    }
}

/// A limit was set; that on open files bounds the descriptor table too.
pub open spec fn limit_set(
    t0: TaskCtl,
    f0: FdTable,
    res: u32,
    l: Rlimit,
    t1: TaskCtl,
    f1: FdTable,
) -> bool {
    &&& t1.rlimits@ == t0.rlimits@.update(res as int, l)
    &&& t1 == (TaskCtl { rlimits: t1.rlimits, ..t0 })
    &&& f1.entries == f0.entries
    &&& f1.limit == (if res == RLIMIT_NOFILE {
        fd_limit(l)
    } else {
        f0.limit
    })
}

pub fn sys_setrlimit(
    t: &mut TaskCtl,
    fds: &mut FdTable,
    mem: &UserMem,
    res: u32,
    rlim: usize,
) -> (r: SysResult)
    requires
        old(t).wf(),
        old(fds).wf(),
    ensures
        final(t).wf(),
        final(fds).wf(),
        if res >= 16 {
            r == err(EINVAL) && *final(t) == *old(t) && *final(fds) == *old(fds)
        } else if !mapped(mem@, rlim as int, 16) {
            r == err(EFAULT) && *final(t) == *old(t) && *final(fds) == *old(fds)
        } else {
            r == ok(0) && limit_set(
                *old(t),
                *old(fds),
                res,
                rlimit_at(mem@, rlim as int),
                *final(t),
                *final(fds),
            )
        },
{
    if res >= 16 {
        return Err(EINVAL);
    }
    match read_rlimit(mem, rlim) {
        Ok(l) => {
            t.rlimits.set(res as usize, l);
            if res == RLIMIT_NOFILE {
                fds.limit = to_fd_limit(&l);
            }
            Ok(0)
        },
        Err(e) => Err(e),
    }
}

/// Gets and sets a limit of the task `t` with its descriptor table; `found` is
/// whether the task that was asked for exists. The old limit is stored before
/// the new one is read.
pub fn sys_prlimit64(
    t: &mut TaskCtl,
    fds: &mut FdTable,
    mem: &mut UserMem,
    found: bool,
    res: u32,
    new: usize,
    old_ptr: usize,
) -> (r: SysResult)
    requires
        old(t).wf(),
        old(fds).wf(),
    ensures
        final(t).wf(),
        final(fds).wf(),
        ({
            let m = old(mem)@;
            let same = *final(t) == *old(t) && *final(fds) == *old(fds);
            let cur = rlimit_bytes(old(t).rlimits@[res as int]);
            let m1 = if old_ptr != 0 {
                stored(m, old_ptr as int, cur)
            } else {
                m
            };
            if res >= 16 {
                r == err(EINVAL) && final(mem)@ == m && same
            } else if !found {
                r == err(ESRCH) && final(mem)@ == m && same
            } else if old_ptr != 0 && !mapped(m, old_ptr as int, 16) {
                r == err(EFAULT) && final(mem)@ == m && same
            } else if new != 0 && !mapped(m, new as int, 16) {
                r == err(EFAULT) && final(mem)@ == m1 && same
            } else {
                &&& r == ok(0)
                &&& final(mem)@ == m1
                &&& if new != 0 {
                    limit_set(
                        *old(t),
                        *old(fds),
                        res,
                        rlimit_at(m1, new as int),
                        *final(t),
                        *final(fds),
                    )
                } else {
                    same
                }
            }
        }),
{
    if res >= 16 {
        return Err(EINVAL);
    }
    if !found {
        return Err(ESRCH);
    }
    let cur: Rlimit = t.rlimits[res as usize];
    proof {
        lemma_mapped_stored(mem@, old_ptr as int, rlimit_bytes(cur));
    }
    if old_ptr != 0 {
        let v: Vec<u8> = pair(cur.cur, cur.max);
        match mem.copy_to_user(old_ptr, &v) {
            Ok(_) => {},
            Err(e) => {
                return Err(e);
            },
        }
    }
    if new != 0 {
        match read_rlimit(mem, new) {
            Ok(l) => {
                t.rlimits.set(res as usize, l);
                if res == RLIMIT_NOFILE {
                    fds.limit = to_fd_limit(&l);
                }
            },
            Err(e) => {
                return Err(e);
            },
        }
    }
    Ok(0)
}

/// The usage that is reported: times, and zeros for all else.
pub open spec fn rusage_bytes(utime: nat, stime: nat) -> Seq<u8> {
    tv_bytes(utime) + tv_bytes(stime) + zeros(112)
}

pub fn sys_getrusage(t: &TaskCtl, mem: &mut UserMem, usage: usize) -> (r: SysResult)
    ensures
        if !mapped(old(mem)@, usage as int, 144) {
            r == err(EFAULT) && final(mem)@ == old(mem)@
        } else {
            &&& r == ok(0)
            &&& final(mem)@ == stored(
                old(mem)@,
                usage as int,
                rusage_bytes(t.utime as nat, t.stime as nat),
            )
        },
{
    let mut v: Vec<u8> = crate::syscall::timespec::tv_from_ns(t.utime);
    let mut st: Vec<u8> = crate::syscall::timespec::tv_from_ns(t.stime);
    v.append(&mut st);
    put_zeros(&mut v, 112);
    proof {
        assert(v@ =~= rusage_bytes(t.utime as nat, t.stime as nat));
    }
    match mem.copy_to_user(usage, &v) {
        Ok(_) => Ok(0),
        Err(e) => Err(e),
    }
}

/// Times in clock ticks, of which there are 100 in a second.
pub open spec fn tms_bytes(utime: nat, stime: nat) -> Seq<u8> {
    pair_bytes(utime / 10_000_000, stime / 10_000_000) + zeros(16)
}

pub fn sys_times(t: &TaskCtl, mem: &mut UserMem, buf: usize, jiffies: usize) -> (r: SysResult)
    ensures
        if buf != 0 && !mapped(old(mem)@, buf as int, 32) {
            r == err(EFAULT) && final(mem)@ == old(mem)@
        } else {
            &&& r == Ok::<usize, i32>(jiffies)
            &&& final(mem)@ == (if buf != 0 {
                stored(old(mem)@, buf as int, tms_bytes(t.utime as nat, t.stime as nat))
            } else {
                old(mem)@
            })
        },
{
    if buf != 0 {
        let mut v: Vec<u8> = pair(t.utime / 10_000_000, t.stime / 10_000_000);
        put_zeros(&mut v, 16);
        proof {
            assert(v@ =~= tms_bytes(t.utime as nat, t.stime as nat));
        }
        match mem.copy_to_user(buf, &v) {
            Ok(_) => {},
            Err(e) => {
                return Err(e);
            },
        }
    }
    Ok(jiffies)
}

/// The first `n` bytes, or all.
pub open spec fn first(s: Seq<u8>, n: int) -> Seq<u8> {
    if s.len() <= n {
        s
    } else {
        s.take(n)
    }
}

fn cut(v: &Vec<u8>, n: usize) -> (r: Vec<u8>)
    ensures
        r@ == first(v@, n as int),
{
    if v.len() <= n {
        copy_bytes(v)
    } else {
        let s: &[u8] = vstd::slice::slice_subrange(v, 0, n);
        proof {
            assert(s@ =~= v@.take(n as int));
        }
        copy_bytes(s)
    }
}

/// The name that a program gives itself: at most 15 bytes of text; an
/// unreadable name is an empty one.
pub open spec fn new_name(m: Map<int, u8>, addr: int) -> Seq<u8> {
    first(
        utf8_lossy(
            if cstr_mapped(m, addr, 16) {
                cstr_at(m, addr, 16)
            } else {
                Seq::empty()
            },
        ),
        15,
    )
}

/// Sets and gets the task's name; all other requests succeed and do nothing.
pub fn sys_prctl(t: &mut TaskCtl, mem: &mut UserMem, option: i32, arg2: usize) -> (r: SysResult)
    ensures
        ({
            let shown = first(old(t).name@, 15).push(0u8);
            if option == PR_SET_NAME {
                &&& r == ok(0)
                &&& final(mem)@ == old(mem)@
                &&& final(t).name@ == new_name(old(mem)@, arg2 as int)
                &&& *final(t) == (TaskCtl { name: final(t).name, ..*old(t) })
            } else if option == PR_GET_NAME && !mapped(
                old(mem)@,
                arg2 as int,
                shown.len() as int,
            ) {
                r == err(EFAULT) && final(mem)@ == old(mem)@ && *final(t) == *old(t)
            } else {
                &&& r == ok(0)
                &&& *final(t) == *old(t)
                &&& final(mem)@ == (if option == PR_GET_NAME {
                    stored(old(mem)@, arg2 as int, shown)
                } else {
                    old(mem)@
                })
            }
        }),
{
    match option {
        PR_SET_NAME => {
            let raw: Vec<u8> = match mem.read_cstr(arg2, 16) {
                Ok(v) => v,
                Err(_) => {
                    let v: Vec<u8> = Vec::new();
                    assert(v@ =~= Seq::empty());
                    v
                },
            };
            let name: Vec<u8> = to_lossy(&raw);
            t.name = cut(&name, 15);
            Ok(0)
        },
        PR_GET_NAME => {
            let mut buf: Vec<u8> = cut(&t.name, 15);
            buf.push(0);
            match mem.copy_to_user(arg2, &buf) {
                Ok(_) => Ok(0),
                Err(e) => Err(e),
            }
        },
        _ => Ok(0),
    }
}

// ---- Laws ---------------------------------------------------------------------
/// A limit that was set is the one that is then reported.
pub proof fn limit_reads_back(
    t0: TaskCtl,
    f0: FdTable,
    res: u32,
    l: Rlimit,
    t1: TaskCtl,
    f1: FdTable,
)
    requires
        t0.wf(),
        res < 16,
        limit_set(t0, f0, res, l, t1, f1),
    ensures
        t1.rlimits@[res as int] == l,
        forall|k: int| 0 <= k < 16 && k != res ==> t1.rlimits@[k] == t0.rlimits@[k],
{
}

/// The status with which a task exits tells its code, and waiting for it reports
/// that: a child that exited (1), its number and the low byte of its code; one that
/// a signal ended (2) is reported with the signal.
pub proof fn exit_is_reported(p: i32, code: i32, sig: i32)
    requires
        p > 0,
        0 < sig < 0x7f,
    ensures
        exit_status(code) & 0xff == 0,
        (exit_status(code) >> 8) & 0xff == code & 0xff,
        wait_info(p, exit_status(code)) == (SigInfo {
            signo: 17,
            code: 1,
            pid: p,
            uid: 0,
            status: code & 0xff,
        }),
        wait_info(p, sig) == (SigInfo { signo: 17, code: 2, pid: p, uid: 0, status: sig }),
{
    assert(((code & 0xff) << 8) & 0xff == 0 && (((code & 0xff) << 8) >> 8) & 0xff == code & 0xff && (
    (code & 0xff) << 8) & 0x7f == 0 && ((code & 0xff) << 8) >> 8 == code & 0xff && (sig & 0x7f
        == sig)) by (bit_vector)
        requires
            0 < sig < 0x7f,
    ;
}

} // verus!
