//! The system call table. Calls that only concern the process are answered
//! here; for the others the arguments are read and checked, and what is to be
//! done is handed on.

use vstd::prelude::*;
use crate::abi::{AT_EMPTY_PATH, AT_SYMLINK_NOFOLLOW};
use crate::bytes::{put_zeros, zeros};
use crate::errno::{
    SysResult, EBADF, EFAULT, EINVAL, ENODEV, ENOMEM, ENOSYS, ESPIPE,
};
use crate::syscall::basic::{
    answer, answer_spec, plain, plain_spec, setting, setting_spec, Args, Machine,
};
use crate::syscall::files::{
    base_spec, close, close_post, dup, dup3, dup3_post, dup_post, epoll_create1, epoll_file,
    eventfd2, eventfd_file, fchdir, fchdir_post, fcntl, fcntl_post, file_at, getcwd, getcwd_post,
    inode_of, inode_spec, ioctl, ioctl_post, is_open, open_post, pipe2, pipe2_post, resolve_dir,
    MAX_IO,
};
use crate::syscall::netcall::{net_call, net_spec, NetCall};
use crate::syscall::process::{err, ok};
use crate::syscall::readiness::{
    epoll_ctl, epoll_of, read_timeout, timeout_at, EpollCtl, EPOLL_CTL_DEL, EVENT_SIZE,
};
use crate::syscall::reply::{replied, reply_all};
use crate::syscall::select::Sets;
use crate::syscall::sigcalls::{
    kill, sigaction_post, sigaltstack, sigaltstack_post, sigprocmask_post, sys_rt_sigaction,
    sys_rt_sigprocmask, KillStep,
};
use crate::syscall::transfer::{
    array_at, capped, iovs_at, read_iovs, read_str_array, texts, MAX_STR, MAX_VEC,
};
use crate::task::process::{File, FileObj, Process};
use crate::trap::frame::TrapFrame;
use crate::uaccess::{bytes_at, cstr_at, cstr_mapped, field, mapped, num_at, stored, UserMem};

verus! {

pub const MAP_ANONYMOUS: u32 = 0x20;

/// What is to be done for a call, where its arguments are numbers.
#[allow(inconsistent_fields)]
#[derive(Clone, Copy, PartialEq, Eq, Structural, Debug)]
pub enum NumCall {
    Yield,
    Random { buf: usize, len: usize },
    Brk(usize),
    Mmap { addr: usize, len: usize, prot: u32, flags: u32, inode: Option<usize>, off: u64 },
    Munmap { addr: usize, len: usize },
    Mprotect { addr: usize, len: usize, prot: u32 },
    /// Move a mapping to a fixed place.
    Move { from: usize, len: usize, to: usize, new_len: usize },
    /// Map `len` bytes behind a mapping that begins at `addr`.
    Grow { addr: usize, at: usize, len: usize },
    /// The call is answered with the address of the mapping.
    Kept(usize),
    Read { file: usize, buf: usize, len: usize },
    Pread { file: usize, buf: usize, len: usize, off: u64 },
    Seek { file: usize, off: i64, whence: u32 },
    Fstat { file: usize, at: usize },
    Getdents { fd: i32, buf: usize, count: usize },
    Ftruncate { inode: usize, len: u64 },
    SendFile { output: usize, input: usize, offset: usize, len: usize },
    Suspend { mask: usize },
    SigReturn,
    Kill { pid: i32, sig: usize },
    Exit(i32),
    Clone { flags: usize, stack: usize, ptid: usize, ctid: usize, tls: usize },
    Wait { pid: i32, status: usize, options: u32 },
    Sleep { ticks: u64, rem: usize },
    Futex { addr: usize, op: i32, val: u32 },
    Poll { fds: usize, nfds: usize, timeout_ms: i64, sigmask: usize },
    Select { nfds: i32, sets: Sets, timeout_ms: i64 },
    EpollWait { epoll: usize, at: usize, max: usize, timeout: i64, sigmask: usize },
    EpollCtl(EpollCtl),
    /// A socket call.
    Net(NetCall),
}

pub open spec fn at_most(x: usize, max: usize) -> usize {
    if x < max {
        x
    } else {
        max
    }
}

fn lesser(x: usize, max: usize) -> (r: usize)
    ensures
        r == at_most(x, max),
{
    if x < max {
        x
    } else {
        max
    }
}

pub type Num = Result<NumCall, i32>;

/// A call on an open file.
pub open spec fn on_file(p: Process, fd: i32, c: NumCall) -> Num {
    if is_open(p, fd as int) {
        Ok(c)
    } else {
        Err(EBADF)
    }
}

/// The file that a mapping is of.
pub open spec fn mmap_spec(a: Seq<usize>, p: Process, l: Seq<File>) -> Num {
    let flags = a[3] as u32;
    let fd = a[4] as i32;
    let plain = NumCall::Mmap { addr: a[0], len: a[1], prot: a[2] as u32, flags, inode: None, off: 0 };
    if flags & MAP_ANONYMOUS == 0 && fd >= 0 {
        if !is_open(p, fd as int) {
            Err(EBADF)
        } else {
            match inode_spec(l[file_at(p, fd as int)]) {
                None => Err(ENODEV),
                Some(i) => Ok(
                    NumCall::Mmap {
                        addr: a[0],
                        len: a[1],
                        prot: a[2] as u32,
                        flags,
                        inode: Some(i),
                        off: a[5] as u64,
                    },
                ),
            }
        }
    } else {
        Ok(plain)
    }
}

/// The sum of two addresses, which goes round at the end of the address space.
pub open spec fn wrapped(x: usize, y: usize) -> usize {
    if x + y > usize::MAX {
        (x + y - usize::MAX - 1) as usize
    } else {
        (x + y) as usize
    }
}

/// A mapping is moved where that is asked for; one that does not grow stays.
pub open spec fn mremap_spec(a: Seq<usize>) -> NumCall {
    if a[3] as u32 & 2 != 0 {
        NumCall::Move { from: a[0], len: a[1], to: a[4], new_len: a[2] }
    } else if a[2] <= a[1] {
        NumCall::Kept(a[0])
    } else {
        NumCall::Grow { addr: a[0], at: wrapped(a[0], a[1]), len: (a[2] - a[1]) as usize }
    }
}

/// The calls whose arguments are numbers.
pub open spec fn num_spec(nr: usize, a: Seq<usize>, p: Process, l: Seq<File>) -> Option<Num> {
    let fd = a[0] as i32;
    let file = file_at(p, fd as int) as usize;
    if net_spec(nr, a) is Some {
        Some(Ok(NumCall::Net(net_spec(nr, a)->0)))
    } else if nr == 124 {
        Some(Ok(NumCall::Yield))
    } else if nr == 278 {
        Some(Ok(NumCall::Random { buf: a[0], len: at_most(a[1], 4096) }))
    } else if nr == 214 {
        Some(Ok(NumCall::Brk(a[0])))
    } else if nr == 222 {
        Some(mmap_spec(a, p, l))
    } else if nr == 215 {
        Some(Ok(NumCall::Munmap { addr: a[0], len: a[1] }))
    } else if nr == 226 {
        Some(Ok(NumCall::Mprotect { addr: a[0], len: a[1], prot: a[2] as u32 }))
    } else if nr == 216 {
        Some(Ok(mremap_spec(a)))
    } else if nr == 63 {
        Some(on_file(p, fd, NumCall::Read { file, buf: a[1], len: at_most(a[2], MAX_IO) }))
    } else if nr == 67 {
        Some(
            on_file(
                p,
                fd,
                NumCall::Pread { file, buf: a[1], len: at_most(a[2], MAX_IO), off: a[3] as u64 },
            ),
        )
    } else if nr == 62 {
        Some(on_file(p, fd, NumCall::Seek { file, off: a[1] as i64, whence: a[2] as u32 }))
    } else if nr == 80 {
        Some(on_file(p, fd, NumCall::Fstat { file, at: a[1] }))
    } else if nr == 61 {
        Some(Ok(NumCall::Getdents { fd, buf: a[1], count: a[2] }))
    } else if nr == 46 {
        Some(
            if !is_open(p, fd as int) {
                Err(EBADF)
            } else {
                match inode_spec(l[file as int]) {
                    Some(inode) => Ok(NumCall::Ftruncate { inode, len: a[1] as u64 }),
                    None => Err(EINVAL),
                }
            },
        )
    } else if nr == 71 {
        let fd2 = a[1] as i32;
        Some(
            if !is_open(p, fd as int) {
                Err(EBADF)
            } else {
                on_file(
                    p,
                    fd2,
                    NumCall::SendFile {
                        output: file,
                        input: file_at(p, fd2 as int) as usize,
                        offset: a[2],
                        len: at_most(a[3], MAX_IO),
                    },
                )
            },
        )
    } else if nr == 133 {
        Some(Ok(NumCall::Suspend { mask: a[0] }))
    } else if nr == 139 {
        Some(Ok(NumCall::SigReturn))
    } else if nr == 93 || nr == 94 {
        Some(Ok(NumCall::Exit(a[0] as i32)))
    } else if nr == 220 {
        Some(
            Ok(
                NumCall::Clone { flags: a[0], stack: a[1], ptid: a[2], ctid: a[3], tls: a[4] },
            ),
        )
    } else if nr == 260 {
        Some(Ok(NumCall::Wait { pid: fd, status: a[1], options: a[2] as u32 }))
    } else if nr == 98 {
        Some(Ok(NumCall::Futex { addr: a[0], op: a[1] as i32, val: a[2] as u32 }))
    } else if nr == 22 {
        Some(
            if !is_open(p, fd as int) {
                Err(EBADF)
            } else {
                match l[file as int].obj {
                    FileObj::Epoll(id) => Ok(
                        NumCall::EpollWait {
                            epoll: id,
                            at: a[1],
                            max: a[2],
                            timeout: a[3] as i64,
                            sigmask: a[4],
                        },
                    ),
                    _ => Err(EINVAL),
                }
            },
        )
    } else {
        None
    }
}

fn file_call(p: &Process, Ghost(l): Ghost<Seq<File>>, fd: i32) -> (r: Result<usize, i32>)
    requires
        p.files_ok(l),
    ensures
        match r {
            Ok(f) => is_open(*p, fd as int) && f == file_at(*p, fd as int) && f < l.len(),
            Err(e) => !is_open(*p, fd as int) && e == EBADF,
        },
{
    match p.fds.get(fd) {
        Ok(f) => {
            assert(crate::file::open_fd(p.fds.entries@, fd as int));
            Ok(f)
        },
        Err(e) => Err(e),
    }
}

/// Reads a call whose arguments are numbers.
pub fn num_call(nr: usize, a: &Args, p: &Process, files: &Vec<File>) -> (r: Option<Num>)
    requires
        p.files_ok(files@),
    ensures
        r == num_spec(nr, a@, *p, files@),
{
    let fd: i32 = a[0] as i32;
    match net_call(nr, a) {
        Some(c) => {
            return Some(Ok(NumCall::Net(c)));
        },
        None => {},
    }
    match nr {
        124 => Some(Ok(NumCall::Yield)),
        278 => Some(Ok(NumCall::Random { buf: a[0], len: lesser(a[1], 4096) })),
        214 => Some(Ok(NumCall::Brk(a[0]))),
        222 => {
            let flags: u32 = a[3] as u32;
            let mfd: i32 = a[4] as i32;
            let inode: Option<usize> = if flags & MAP_ANONYMOUS == 0 && mfd >= 0 {
                match file_call(p, Ghost(files@), mfd) {
                    Ok(f) => match inode_of(&files[f]) {
                        Some(i) => Some(i),
                        None => {
                            return Some(Err(ENODEV));
                        },
                    },
                    Err(e) => {
                        return Some(Err(e));
                    },
                }
            } else {
                None
            };
            let off: u64 = if inode.is_some() {
                a[5] as u64
            } else {
                0
            };
            Some(
                Ok(NumCall::Mmap { addr: a[0], len: a[1], prot: a[2] as u32, flags, inode, off }),
            )
        },
        215 => Some(Ok(NumCall::Munmap { addr: a[0], len: a[1] })),
        226 => Some(Ok(NumCall::Mprotect { addr: a[0], len: a[1], prot: a[2] as u32 })),
        216 => {
            if a[3] as u32 & 2 != 0 {
                Some(Ok(NumCall::Move { from: a[0], len: a[1], to: a[4], new_len: a[2] }))
            } else if a[2] <= a[1] {
                Some(Ok(NumCall::Kept(a[0])))
            } else {
                Some(
                    Ok(NumCall::Grow { addr: a[0], at: a[0].wrapping_add(a[1]), len: a[2] - a[1] }),
                )
            }
        },
        63 => match file_call(p, Ghost(files@), fd) {
            Ok(file) => Some(Ok(NumCall::Read { file, buf: a[1], len: lesser(a[2], MAX_IO) })),
            Err(e) => Some(Err(e)),
        },
        67 => match file_call(p, Ghost(files@), fd) {
            Ok(file) => Some(
                Ok(
                    NumCall::Pread {
                        file,
                        buf: a[1],
                        len: lesser(a[2], MAX_IO),
                        off: a[3] as u64,
                    },
                ),
            ),
            Err(e) => Some(Err(e)),
        },
        62 => match file_call(p, Ghost(files@), fd) {
            Ok(file) => Some(
                Ok(NumCall::Seek { file, off: a[1] as i64, whence: a[2] as u32 }),
            ),
            Err(e) => Some(Err(e)),
        },
        80 => match file_call(p, Ghost(files@), fd) {
            Ok(file) => Some(Ok(NumCall::Fstat { file, at: a[1] })),
            Err(e) => Some(Err(e)),
        },
        61 => Some(Ok(NumCall::Getdents { fd, buf: a[1], count: a[2] })),
        46 => match file_call(p, Ghost(files@), fd) {
            Ok(file) => match inode_of(&files[file]) {
                Some(inode) => Some(Ok(NumCall::Ftruncate { inode, len: a[1] as u64 })),
                None => Some(Err(EINVAL)),
            },
            Err(e) => Some(Err(e)),
        },
        71 => match file_call(p, Ghost(files@), fd) {
            Ok(output) => match file_call(p, Ghost(files@), a[1] as i32) {
                Ok(input) => Some(
                    Ok(
                        NumCall::SendFile {
                            output,
                            input,
                            offset: a[2],
                            len: lesser(a[3], MAX_IO),
                        },
                    ),
                ),
                Err(e) => Some(Err(e)),
            },
            Err(e) => Some(Err(e)),
        },
        133 => Some(Ok(NumCall::Suspend { mask: a[0] })),
        139 => Some(Ok(NumCall::SigReturn)),
        93 | 94 => Some(Ok(NumCall::Exit(fd))),
        220 => Some(
            Ok(NumCall::Clone { flags: a[0], stack: a[1], ptid: a[2], ctid: a[3], tls: a[4] }),
        ),
        260 => Some(Ok(NumCall::Wait { pid: fd, status: a[1], options: a[2] as u32 })),
        98 => Some(Ok(NumCall::Futex { addr: a[0], op: a[1] as i32, val: a[2] as u32 })),
        22 => match epoll_of(p, files, fd) {
            Ok(epoll) => Some(
                Ok(
                    NumCall::EpollWait {
                        epoll,
                        at: a[1],
                        max: a[2],
                        timeout: a[3] as i64,
                        sigmask: a[4],
                    },
                ),
            ),
            Err(e) => Some(Err(e)),
        },
        _ => None,
    }
}

/// Ticks to sleep for seconds and nanoseconds: a quarter of the milliseconds,
/// one at least. What is more than can be counted is as long as can be.
pub open spec fn sleep_ticks(secs: u64, nsec: u64) -> u64 {
    let ms = secs * 1000 + nsec / 1_000_000;
    let t = (if ms > u64::MAX {
        u64::MAX as int
    } else {
        ms
    }) / 4;
    if t > 1 {
        t as u64
    } else {
        1
    }
}

fn ticks_for(secs: u64, nsec: u64) -> (r: u64)
    ensures
        r == sleep_ticks(secs, nsec),
{
    let ms: u128 = secs as u128 * 1000 + nsec as u128 / 1_000_000;
    let m: u64 = if ms > u64::MAX as u128 {
        u64::MAX
    } else {
        ms as u64
    };
    if m / 4 > 1 {
        m / 4
    } else {
        1
    }
}

pub open spec fn sleep_spec(m: Map<int, u8>, req: usize, rem: usize) -> Num {
    if mapped(m, req as int, 16) {
        Ok(
            NumCall::Sleep {
                ticks: sleep_ticks(
                    num_at(m, req as int, 8) as u64,
                    num_at(m, req + 8, 8) as u64,
                ),
                rem,
            },
        )
    } else {
        Err(EFAULT)
    }
}

fn sleep_call(mem: &UserMem, req: usize, rem: usize) -> (r: Num)
    ensures
        r == sleep_spec(mem@, req, rem),
{
    match mem.copy_from_user(req, 16) {
        Ok(b) => {
            let secs: u64 = field(&b, 0, 8, Ghost(mem@), Ghost(req as int));
            let nsec: u64 = field(&b, 8, 8, Ghost(mem@), Ghost(req as int));
            Ok(NumCall::Sleep { ticks: ticks_for(secs, nsec), rem })
        },
        Err(e) => Err(e),
    }
}

/// A wait for entries with the timeout at an address.
pub open spec fn poll_spec(m: Map<int, u8>, fds: usize, nfds: usize, tmo: usize, sigmask: usize) -> Num {
    match timeout_at(m, tmo) {
        Some(timeout_ms) => Ok(NumCall::Poll { fds, nfds, timeout_ms, sigmask }),
        None => Err(EFAULT),
    }
}

fn poll_call(mem: &UserMem, fds: usize, nfds: usize, tmo: usize, sigmask: usize) -> (r: Num)
    ensures
        r == poll_spec(mem@, fds, nfds, tmo, sigmask),
{
    match read_timeout(mem, tmo) {
        Ok(timeout_ms) => Ok(NumCall::Poll { fds, nfds, timeout_ms, sigmask }),
        Err(e) => Err(e),
    }
}

/// A wait for sets of descriptors: their number, the sets, and the timeout at an
/// address.
pub open spec fn select_spec(a: Seq<usize>, m: Map<int, u8>) -> Num {
    match timeout_at(m, a[4]) {
        Some(timeout_ms) => Ok(
            NumCall::Select {
                nfds: a[0] as i32,
                sets: Sets { read: a[1], write: a[2], except: a[3] },
                timeout_ms,
            },
        ),
        None => Err(EFAULT),
    }
}

fn select_call(a: &Args, mem: &UserMem) -> (r: Num)
    ensures
        r == select_spec(a@, mem@),
{
    match read_timeout(mem, a[4]) {
        Ok(timeout_ms) => Ok(
            NumCall::Select {
                nfds: a[0] as i32,
                sets: Sets { read: a[1], write: a[2], except: a[3] },
                timeout_ms,
            },
        ),
        Err(e) => Err(e),
    }
}

/// The change to an interest list that a call asks for.
pub open spec fn ctl_spec(a: Seq<usize>, p: Process, l: Seq<File>, m: Map<int, u8>) -> Num {
    let epfd = a[0] as i32;
    let op = a[1] as i32;
    let fd = a[2] as i32;
    if !is_open(p, epfd as int) {
        Err(EBADF)
    } else {
        match l[file_at(p, epfd as int)].obj {
            FileObj::Epoll(epoll) => if !is_open(p, fd as int) {
                Err(EBADF)
            } else if op != EPOLL_CTL_DEL && !mapped(m, a[3] as int, EVENT_SIZE as int) {
                Err(EFAULT)
            } else {
                Ok(
                    NumCall::EpollCtl(
                        EpollCtl {
                            epoll,
                            op,
                            fd,
                            file: file_at(p, fd as int) as usize,
                            events: if op == EPOLL_CTL_DEL {
                                0
                            } else {
                                num_at(m, a[3] as int, 4) as u32
                            },
                            data: if op == EPOLL_CTL_DEL {
                                0
                            } else {
                                num_at(m, a[3] + 8, 8) as u64
                            },
                        },
                    ),
                )
            },
            _ => Err(EINVAL),
        }
    }
}

/// The calls that read a number or a time from memory, and those that send a
/// signal.
pub open spec fn read_spec(nr: usize, a: Seq<usize>, p: Process, l: Seq<File>, m: Map<int, u8>) -> Option<
    Num,
> {
    if nr == 101 {
        Some(sleep_spec(m, a[0], a[1]))
    } else if nr == 115 {
        Some(sleep_spec(m, a[2], a[3]))
    } else if nr == 73 {
        Some(poll_spec(m, a[0], a[1], a[2], a[3]))
    } else if nr == 72 {
        Some(select_spec(a, m))
    } else if nr == 21 {
        Some(ctl_spec(a, p, l, m))
    } else {
        None
    }
}

pub fn read_call(nr: usize, a: &Args, p: &Process, files: &Vec<File>, mem: &UserMem) -> (r: Option<Num>)
    requires
        p.files_ok(files@),
    ensures
        r == read_spec(nr, a@, *p, files@, mem@),
{
    match nr {
        101 => Some(sleep_call(mem, a[0], a[1])),
        115 => Some(sleep_call(mem, a[2], a[3])),
        73 => Some(poll_call(mem, a[0], a[1], a[2], a[3])),
        72 => Some(select_call(a, mem)),
        21 => match epoll_ctl(p, files, mem, a[0] as i32, a[1] as i32, a[2] as i32, a[3]) {
            Ok(c) => Some(Ok(NumCall::EpollCtl(c))),
            Err(e) => Some(Err(e)),
        },
        _ => None,
    }
}

/// What is to be done with a path.
#[derive(Clone, Copy, PartialEq, Eq, Structural, Debug)]
pub enum PathOp {
    Open { flags: u32, mode: u32 },
    Stat { follow: bool, at: usize },
    /// The path is empty: tell of this file.
    StatFile { file: usize, at: usize },
    Mkdir { mode: u32 },
    Unlink,
    /// Make the node of the first path known under the second.
    Rename,
    Symlink,
    Link,
    ReadLink { buf: usize, size: usize },
    Access,
    Chdir,
    Truncate { len: u64 },
}

/// A call on a path, and for some on a second one, each with the directory it
/// starts from. Of a symbolic link the first path is the text.
pub struct PathCall {
    pub op: PathOp,
    pub base: usize,
    pub path: Vec<u8>,
    pub base2: usize,
    pub path2: Vec<u8>,
}

pub struct PathView {
    pub op: PathOp,
    pub base: usize,
    pub path: Seq<u8>,
    pub base2: usize,
    pub path2: Seq<u8>,
}

impl View for PathCall {
    type V = PathView;

    open spec fn view(&self) -> PathView {
        PathView {
            op: self.op,
            base: self.base,
            path: self.path@,
            base2: self.base2,
            path2: self.path2@,
        }
    }
}

pub type PathSpec = Result<PathView, i32>;

pub open spec fn readable(m: Map<int, u8>, at: usize) -> bool {
    cstr_mapped(m, at as int, MAX_STR as nat)
}

pub open spec fn path_at(m: Map<int, u8>, at: usize) -> Seq<u8> {
    cstr_at(m, at as int, MAX_STR as nat)
}

/// One path from a directory.
pub open spec fn one_path(op: PathOp, p: Process, l: Seq<File>, m: Map<int, u8>, dirfd: i32, at: usize) -> PathSpec {
    if !readable(m, at) {
        Err(EFAULT)
    } else {
        match base_spec(p, l, dirfd, path_at(m, at)) {
            Err(e) => Err(e),
            Ok(base) => Ok(
                PathView { op, base, path: path_at(m, at), base2: 0, path2: Seq::empty() },
            ),
        }
    }
}

/// One path from the working directory.
pub open spec fn cwd_path(op: PathOp, p: Process, m: Map<int, u8>, at: usize) -> PathSpec {
    if !readable(m, at) {
        Err(EFAULT)
    } else {
        Ok(
            PathView {
                op,
                base: p.cwd,
                path: path_at(m, at),
                base2: 0,
                path2: Seq::empty(),
            },
        )
    }
}

/// Two paths, each from a directory.
pub open spec fn two_paths(op: PathOp, p: Process, l: Seq<File>, m: Map<int, u8>, a: Seq<usize>) -> PathSpec {
    if !readable(m, a[1]) || !readable(m, a[3]) {
        Err(EFAULT)
    } else {
        match base_spec(p, l, a[0] as i32, path_at(m, a[1])) {
            Err(e) => Err(e),
            Ok(base) => match base_spec(p, l, a[2] as i32, path_at(m, a[3])) {
                Err(e) => Err(e),
                Ok(base2) => Ok(
                    PathView {
                        op,
                        base,
                        path: path_at(m, a[1]),
                        base2,
                        path2: path_at(m, a[3]),
                    },
                ),
            },
        }
    }
}

/// A link with a text.
pub open spec fn text_path(p: Process, l: Seq<File>, m: Map<int, u8>, a: Seq<usize>) -> PathSpec {
    if !readable(m, a[0]) || !readable(m, a[2]) {
        Err(EFAULT)
    } else {
        match base_spec(p, l, a[1] as i32, path_at(m, a[2])) {
            Err(e) => Err(e),
            Ok(base2) => Ok(
                PathView {
                    op: PathOp::Symlink,
                    base: 0,
                    path: path_at(m, a[0]),
                    base2,
                    path2: path_at(m, a[2]),
                },
            ),
        }
    }
}

pub open spec fn stat_spec(p: Process, l: Seq<File>, m: Map<int, u8>, a: Seq<usize>) -> PathSpec {
    let fd = a[0] as i32;
    let flags = a[3] as u32;
    if readable(m, a[1]) && path_at(m, a[1]).len() == 0 && flags & AT_EMPTY_PATH != 0 {
        if is_open(p, fd as int) {
            Ok(
                PathView {
                    op: PathOp::StatFile { file: file_at(p, fd as int) as usize, at: a[2] },
                    base: 0,
                    path: Seq::empty(),
                    base2: 0,
                    path2: Seq::empty(),
                },
            )
        } else {
            Err(EBADF)
        }
    } else {
        one_path(
            PathOp::Stat { follow: flags & AT_SYMLINK_NOFOLLOW == 0, at: a[2] },
            p,
            l,
            m,
            fd,
            a[1],
        )
    }
}

pub open spec fn path_spec(nr: usize, a: Seq<usize>, p: Process, l: Seq<File>, m: Map<int, u8>) -> Option<
    PathSpec,
> {
    let fd = a[0] as i32;
    if nr == 56 {
        Some(
            one_path(PathOp::Open { flags: a[2] as u32, mode: a[3] as u32 }, p, l, m, fd, a[1]),
        )
    } else if nr == 79 {
        Some(stat_spec(p, l, m, a))
    } else if nr == 34 {
        Some(one_path(PathOp::Mkdir { mode: a[2] as u32 }, p, l, m, fd, a[1]))
    } else if nr == 35 {
        Some(one_path(PathOp::Unlink, p, l, m, fd, a[1]))
    } else if nr == 38 || nr == 276 {
        Some(two_paths(PathOp::Rename, p, l, m, a))
    } else if nr == 36 {
        Some(text_path(p, l, m, a))
    } else if nr == 37 {
        Some(two_paths(PathOp::Link, p, l, m, a))
    } else if nr == 78 {
        Some(one_path(PathOp::ReadLink { buf: a[2], size: a[3] }, p, l, m, fd, a[1]))
    } else if nr == 48 {
        Some(one_path(PathOp::Access, p, l, m, fd, a[1]))
    } else if nr == 49 {
        Some(cwd_path(PathOp::Chdir, p, m, a[0]))
    } else if nr == 45 {
        Some(cwd_path(PathOp::Truncate { len: a[1] as u64 }, p, m, a[0]))
    } else {
        None
    }
}

/// The result of reading a call on paths is the one that is specified.
pub open spec fn path_read(r: Result<PathCall, i32>, s: PathSpec) -> bool {
    match s {
        Ok(v) => r is Ok && r->Ok_0@ == v,
        Err(e) => r is Err && r->Err_0 == e,
    }
}

fn read_one(op: PathOp, p: &Process, files: &Vec<File>, mem: &UserMem, dirfd: i32, at: usize) -> (r:
    Result<PathCall, i32>)
    requires
        p.files_ok(files@),
    ensures
        path_read(r, one_path(op, *p, files@, mem@, dirfd, at)),
{
    let path: Vec<u8> = match mem.read_cstr(at, MAX_STR) {
        Ok(s) => s,
        Err(e) => {
            return Err(e);
        },
    };
    let base: usize = match resolve_dir(p, files, dirfd, &path) {
        Ok(b) => b,
        Err(e) => {
            return Err(e);
        },
    };
    let path2: Vec<u8> = Vec::new();
    assert(path2@ =~= Seq::empty());
    Ok(PathCall { op, base, path, base2: 0, path2 })
}

fn read_cwd(op: PathOp, p: &Process, mem: &UserMem, at: usize) -> (r: Result<PathCall, i32>)
    ensures
        path_read(r, cwd_path(op, *p, mem@, at)),
{
    match mem.read_cstr(at, MAX_STR) {
        Ok(path) => {
            let path2: Vec<u8> = Vec::new();
            assert(path2@ =~= Seq::empty());
            Ok(PathCall { op, base: p.cwd, path, base2: 0, path2 })
        },
        Err(e) => Err(e),
    }
}

fn read_two(op: PathOp, p: &Process, files: &Vec<File>, mem: &UserMem, a: &Args) -> (r: Result<
    PathCall,
    i32,
>)
    requires
        p.files_ok(files@),
    ensures
        path_read(r, two_paths(op, *p, files@, mem@, a@)),
{
    let path: Vec<u8> = match mem.read_cstr(a[1], MAX_STR) {
        Ok(s) => s,
        Err(e) => {
            return Err(e);
        },
    };
    let path2: Vec<u8> = match mem.read_cstr(a[3], MAX_STR) {
        Ok(s) => s,
        Err(e) => {
            return Err(e);
        },
    };
    let base: usize = match resolve_dir(p, files, a[0] as i32, &path) {
        Ok(b) => b,
        Err(e) => {
            return Err(e);
        },
    };
    let base2: usize = match resolve_dir(p, files, a[2] as i32, &path2) {
        Ok(b) => b,
        Err(e) => {
            return Err(e);
        },
    };
    Ok(PathCall { op, base, path, base2, path2 })
}

fn read_text(p: &Process, files: &Vec<File>, mem: &UserMem, a: &Args) -> (r: Result<PathCall, i32>)
    requires
        p.files_ok(files@),
    ensures
        path_read(r, text_path(*p, files@, mem@, a@)),
{
    let path: Vec<u8> = match mem.read_cstr(a[0], MAX_STR) {
        Ok(s) => s,
        Err(e) => {
            return Err(e);
        },
    };
    let path2: Vec<u8> = match mem.read_cstr(a[2], MAX_STR) {
        Ok(s) => s,
        Err(e) => {
            return Err(e);
        },
    };
    match resolve_dir(p, files, a[1] as i32, &path2) {
        Ok(base2) => Ok(PathCall { op: PathOp::Symlink, base: 0, path, base2, path2 }),
        Err(e) => Err(e),
    }
}

fn read_stat(p: &Process, files: &Vec<File>, mem: &UserMem, a: &Args) -> (r: Result<PathCall, i32>)
    requires
        p.files_ok(files@),
    ensures
        path_read(r, stat_spec(*p, files@, mem@, a@)),
{
    let fd: i32 = a[0] as i32;
    let flags: u32 = a[3] as u32;
    let path: Vec<u8> = match mem.read_cstr(a[1], MAX_STR) {
        Ok(s) => s,
        Err(e) => {
            return Err(e);
        },
    };
    if path.len() == 0 && flags & AT_EMPTY_PATH != 0 {
        return match file_call(p, Ghost(files@), fd) {
            Ok(file) => {
                let path2: Vec<u8> = Vec::new();
                assert(path2@ =~= Seq::empty());
                assert(path@ =~= Seq::empty());
                Ok(
                    PathCall {
                        op: PathOp::StatFile { file, at: a[2] },
                        base: 0,
                        path,
                        base2: 0,
                        path2,
                    },
                )
            },
            Err(e) => Err(e),
        };
    }
    read_one(
        PathOp::Stat { follow: flags & AT_SYMLINK_NOFOLLOW == 0, at: a[2] },
        p,
        files,
        mem,
        fd,
        a[1],
    )
}

/// Reads a call on paths.
pub fn path_call(nr: usize, a: &Args, p: &Process, files: &Vec<File>, mem: &UserMem) -> (r: Option<
    Result<PathCall, i32>,
>)
    requires
        p.files_ok(files@),
    ensures
        match path_spec(nr, a@, *p, files@, mem@) {
            Some(s) => r is Some && path_read(r->0, s),
            None => r is None,
        },
{
    let fd: i32 = a[0] as i32;
    match nr {
        56 => Some(
            read_one(
                PathOp::Open { flags: a[2] as u32, mode: a[3] as u32 },
                p,
                files,
                mem,
                fd,
                a[1],
            ),
        ),
        79 => Some(read_stat(p, files, mem, a)),
        34 => Some(read_one(PathOp::Mkdir { mode: a[2] as u32 }, p, files, mem, fd, a[1])),
        35 => Some(read_one(PathOp::Unlink, p, files, mem, fd, a[1])),
        38 | 276 => Some(read_two(PathOp::Rename, p, files, mem, a)),
        36 => Some(read_text(p, files, mem, a)),
        37 => Some(read_two(PathOp::Link, p, files, mem, a)),
        78 => Some(
            read_one(PathOp::ReadLink { buf: a[2], size: a[3] }, p, files, mem, fd, a[1]),
        ),
        48 => Some(read_one(PathOp::Access, p, files, mem, fd, a[1])),
        49 => Some(read_cwd(PathOp::Chdir, p, mem, a[0])),
        45 => Some(read_cwd(PathOp::Truncate { len: a[1] as u64 }, p, mem, a[0])),
        _ => None,
    }
}

/// Data for a file: to be written where the file stands, or into an inode at a
/// place.
pub struct WriteCall {
    pub file: usize,
    pub data: Vec<u8>,
    pub inode: Option<usize>,
    pub off: u64,
}

/// Reads the data of a write. Only regular files can be written at a place.
pub fn write_call(nr: usize, a: &Args, p: &Process, files: &Vec<File>, mem: &UserMem) -> (r: Option<
    Result<WriteCall, i32>,
>)
    requires
        p.files_ok(files@),
    ensures
        nr != 64 && nr != 68 ==> r is None,
        nr == 64 || nr == 68 ==> {
            let fd = a@[0] as i32;
            let n = at_most(a@[2], MAX_IO) as int;
            let f = file_at(*p, fd as int);
            let w = r->0->Ok_0;
            &&& r is Some
            &&& if !is_open(*p, fd as int) {
                r->0 is Err && r->0->Err_0 == EBADF
            } else if !mapped(mem@, a@[1] as int, n) {
                r->0 is Err && r->0->Err_0 == EFAULT
            } else if nr == 68 && !(files@[f].obj is Regular) {
                r->0 is Err && r->0->Err_0 == ESPIPE
            } else {
                &&& r->0 is Ok
                &&& w.file == f
                &&& w.data@ == bytes_at(mem@, a@[1] as int, n)
                &&& if nr == 68 {
                    w.inode == inode_spec(files@[f]) && w.off == a@[3] as u64
                } else {
                    w.inode is None && w.off == 0
                }
            }
        },
{
    if nr != 64 && nr != 68 {
        return None;
    }
    let file: usize = match file_call(p, Ghost(files@), a[0] as i32) {
        Ok(f) => f,
        Err(e) => {
            return Some(Err(e));
        },
    };
    let data: Vec<u8> = match mem.copy_from_user(a[1], lesser(a[2], MAX_IO)) {
        Ok(d) => d,
        Err(e) => {
            return Some(Err(e));
        },
    };
    if nr == 64 {
        return Some(Ok(WriteCall { file, data, inode: None, off: 0 }));
    }
    match files[file].obj {
        FileObj::Regular { inode, .. } => Some(
            Ok(WriteCall { file, data, inode: Some(inode), off: a[3] as u64 }),
        ),
        _ => Some(Err(ESPIPE)),
    }
}

/// Buffers to read into or to write from.
pub struct VecCall {
    pub file: usize,
    pub iovs: Vec<(usize, usize)>,
    pub write: bool,
}

pub fn vec_call(nr: usize, a: &Args, p: &Process, files: &Vec<File>, mem: &UserMem) -> (r: Option<
    Result<VecCall, i32>,
>)
    requires
        p.files_ok(files@),
    ensures
        nr != 65 && nr != 66 ==> r is None,
        nr == 65 || nr == 66 ==> {
            let fd = a@[0] as i32;
            let n = capped(a@[2], MAX_VEC);
            let v = r->0->Ok_0;
            &&& r is Some
            &&& if !is_open(*p, fd as int) {
                r->0 is Err && r->0->Err_0 == EBADF
            } else if !mapped(mem@, a@[1] as int, 16 * n) {
                r->0 is Err && r->0->Err_0 == EFAULT
            } else {
                &&& r->0 is Ok
                &&& v.file == file_at(*p, fd as int)
                &&& v.iovs@ == iovs_at(mem@, a@[1] as int, n)
                &&& v.write == (nr == 66)
            }
        },
{
    if nr != 65 && nr != 66 {
        return None;
    }
    let file: usize = match file_call(p, Ghost(files@), a[0] as i32) {
        Ok(f) => f,
        Err(e) => {
            return Some(Err(e));
        },
    };
    match read_iovs(mem, a[1], a[2]) {
        Ok(iovs) => Some(Ok(VecCall { file, iovs, write: nr == 66 })),
        Err(e) => Some(Err(e)),
    }
}

/// A program to be run.
pub struct ExecCall {
    pub path: Vec<u8>,
    pub argv: Vec<Vec<u8>>,
    pub envp: Vec<Vec<u8>>,
}

pub fn exec_call(a: &Args, mem: &UserMem) -> (r: Result<ExecCall, i32>)
    ensures
        if !readable(mem@, a@[0]) || array_at(mem@, a@[1]) is None || array_at(
            mem@,
            a@[2],
        ) is None {
            r is Err && r->Err_0 == EFAULT
        } else {
            &&& r is Ok
            &&& r->Ok_0.path@ == path_at(mem@, a@[0])
            &&& texts(r->Ok_0.argv@) == array_at(mem@, a@[1])->0
            &&& texts(r->Ok_0.envp@) == array_at(mem@, a@[2])->0
        },
{
    let path: Vec<u8> = match mem.read_cstr(a[0], MAX_STR) {
        Ok(s) => s,
        Err(e) => {
            return Err(e);
        },
    };
    let argv: Vec<Vec<u8>> = match read_str_array(mem, a[1]) {
        Ok(l) => l,
        Err(e) => {
            return Err(e);
        },
    };
    let envp: Vec<Vec<u8>> = match read_str_array(mem, a[2]) {
        Ok(l) => l,
        Err(e) => {
            return Err(e);
        },
    };
    proof {
        if a@[1] == 0 {
            assert(texts(argv@) =~= Seq::empty());
        }
        if a@[2] == 0 {
            assert(texts(envp@) =~= Seq::empty());
        }
    }
    Ok(ExecCall { path, argv, envp })
}

/// What a system call comes to.
pub enum Step {
    Done(SysResult),
    Num(NumCall),
    Path(PathCall),
    Write(WriteCall),
    Buffers(VecCall),
    Exec(ExecCall),
}

/// The calls that work on descriptors, directories and signals of the process.
pub open spec fn is_own(nr: usize) -> bool {
    nr == 57 || nr == 23 || nr == 24 || nr == 59 || nr == 25 || nr == 29 || nr == 17 || nr == 19
        || nr == 20 || nr == 50 || nr == 134 || nr == 135 || nr == 132 || (129 <= nr <= 131)
}

/// The receiver and the signal of a call that sends one.
pub open spec fn kill_args(nr: usize, a: Seq<usize>) -> (i32, usize) {
    if nr == 131 {
        (a[1] as i32, a[2])
    } else {
        (a[0] as i32, a[1])
    }
}

/// Everything that a call can change.
pub struct Scene {
    pub p: Process,
    pub files: Seq<File>,
    pub mem: Map<int, u8>,
}

pub open spec fn own_post(nr: usize, a: Seq<usize>, fresh: usize, x: Scene, r: Step, y: Scene) -> bool {
    let fd = a[0] as i32;
    let k = kill_args(nr, a);
    if 129 <= nr <= 131 {
        y == x && r == (if k.1 == 0 {
            Step::Done(ok(0))
        } else if k.1 > 64 {
            Step::Done(err(EINVAL))
        } else {
            Step::Num(NumCall::Kill { pid: k.0, sig: k.1 })
        })
    } else {
        let v = r->Done_0;
        &&& r is Done
        &&& if nr == 57 {
            y.files == x.files && y.mem == x.mem && close_post(x.p, fd, v, y.p)
        } else if nr == 23 {
            y.files == x.files && y.mem == x.mem && dup_post(x.p, fd, a[1] as i32, v, y.p)
        } else if nr == 24 {
            y.files == x.files && y.mem == x.mem && dup3_post(x.p, fd, a[1] as i32, v, y.p)
        } else if nr == 59 {
            pipe2_post(
                fresh,
                a[0],
                a[1] as u32,
                x.p,
                x.files,
                x.mem,
                v,
                y.p,
                y.files,
                y.mem,
            )
        } else if nr == 25 {
            y.mem == x.mem && fcntl_post(
                x.p,
                x.files,
                fd,
                a[1] as i32,
                a[2],
                v,
                y.p,
                y.files,
            )
        } else if nr == 29 {
            y.p == x.p && ioctl_post(
                x.p,
                x.files,
                x.mem,
                fd,
                a[1] as u32,
                a[2],
                v,
                y.files,
                y.mem,
            )
        } else if nr == 17 {
            y.p == x.p && y.files == x.files && getcwd_post(a[0], a[1], x.mem, v, y.mem)
        } else if nr == 19 {
            y.mem == x.mem && open_post(
                x.p,
                x.files,
                eventfd_file(fresh, a[1] as u32),
                v,
                y.p,
                y.files,
            )
        } else if nr == 20 {
            y.mem == x.mem && open_post(
                x.p,
                x.files,
                epoll_file(fresh, a[0] as u32),
                v,
                y.p,
                y.files,
            )
        } else if nr == 50 {
            y.files == x.files && y.mem == x.mem && fchdir_post(x.p, x.files, fd, v, y.p)
        } else if nr == 134 {
            y.files == x.files && sigaction_post(a[0], a[1], a[2], x.p, x.mem, v, y.p, y.mem)
        } else if nr == 135 {
            y.files == x.files && sigprocmask_post(fd, a[1], a[2], x.p, x.mem, v, y.p, y.mem)
        } else {
            y.files == x.files && sigaltstack_post(a[0], a[1], x.p, x.mem, v, y.p, y.mem)
        }
    }
}

/// Carries out a call that works on the process alone. `fresh` is the number of
/// a new pipe, event counter or interest list.
fn own_call(
    nr: usize,
    a: &Args,
    fresh: usize,
    p: &mut Process,
    files: &mut Vec<File>,
    mem: &mut UserMem,
) -> (r: Step)
    requires
        is_own(nr),
        old(p).wf(),
        old(p).files_ok(old(files)@),
    ensures
        final(p).wf(),
        final(p).files_ok(final(files)@),
        own_post(
            nr,
            a@,
            fresh,
            Scene { p: *old(p), files: old(files)@, mem: old(mem)@ },
            r,
            Scene { p: *final(p), files: final(files)@, mem: final(mem)@ },
        ),
{
    let fd: i32 = a[0] as i32;
    match nr {
        57 => Step::Done(close(p, files, fd)),
        23 => Step::Done(dup(p, files, fd, a[1] as i32)),
        24 => Step::Done(dup3(p, files, fd, a[1] as i32)),
        59 => Step::Done(pipe2(p, files, mem, fresh, a[0], a[1] as u32)),
        25 => Step::Done(fcntl(p, files, fd, a[1] as i32, a[2])),
        29 => Step::Done(ioctl(p, files, mem, fd, a[1] as u32, a[2])),
        17 => Step::Done(getcwd(mem, a[0], a[1])),
        19 => Step::Done(eventfd2(p, files, fresh, a[1] as u32)),
        20 => Step::Done(epoll_create1(p, files, fresh, a[0] as u32)),
        50 => Step::Done(fchdir(p, files, fd)),
        134 => Step::Done(sys_rt_sigaction(p, mem, a[0], a[1], a[2])),
        135 => Step::Done(sys_rt_sigprocmask(p, mem, fd, a[1], a[2])),
        132 => Step::Done(sigaltstack(p, mem, a[0], a[1])),
        _ => {
            let (pid, sig): (i32, usize) = if nr == 131 {
                (a[1] as i32, a[2])
            } else {
                (fd, a[1])
            };
            match kill(pid, sig) {
                KillStep::Done(v) => Step::Done(v),
                KillStep::Send(pid, sig) => Step::Num(NumCall::Kill { pid, sig }),
            }
        },
    }
}

/// A call that was read, or refused.
pub open spec fn num_step(n: Num, r: Step) -> bool {
    match n {
        Ok(c) => r == Step::Num(c),
        Err(e) => r == Step::Done(err(e)),
    }
}

pub open spec fn path_step(s: PathSpec, r: Step) -> bool {
    match s {
        Ok(v) => r is Path && r->Path_0@ == v,
        Err(e) => r == Step::Done(err(e)),
    }
}

pub open spec fn write_step(nr: usize, a: Seq<usize>, x: Scene, r: Step) -> bool {
    let fd = a[0] as i32;
    let n = at_most(a[2], MAX_IO) as int;
    let f = file_at(x.p, fd as int);
    let w = r->Write_0;
    if !is_open(x.p, fd as int) {
        r == Step::Done(err(EBADF))
    } else if !mapped(x.mem, a[1] as int, n) {
        r == Step::Done(err(EFAULT))
    } else if nr == 68 && !(x.files[f].obj is Regular) {
        r == Step::Done(err(ESPIPE))
    } else {
        &&& r is Write
        &&& w.file == f
        &&& w.data@ == bytes_at(x.mem, a[1] as int, n)
        &&& if nr == 68 {
            w.inode == inode_spec(x.files[f]) && w.off == a[3] as u64
        } else {
            w.inode is None && w.off == 0
        }
    }
}

pub open spec fn buffers_step(nr: usize, a: Seq<usize>, x: Scene, r: Step) -> bool {
    let fd = a[0] as i32;
    let n = capped(a[2], MAX_VEC);
    let v = r->Buffers_0;
    if !is_open(x.p, fd as int) {
        r == Step::Done(err(EBADF))
    } else if !mapped(x.mem, a[1] as int, 16 * n) {
        r == Step::Done(err(EFAULT))
    } else {
        &&& r is Buffers
        &&& v.file == file_at(x.p, fd as int)
        &&& v.iovs@ == iovs_at(x.mem, a[1] as int, n)
        &&& v.write == (nr == 66)
    }
}

pub open spec fn exec_step(a: Seq<usize>, x: Scene, r: Step) -> bool {
    let c = r->Exec_0;
    if !readable(x.mem, a[0]) || array_at(x.mem, a[1]) is None || array_at(x.mem, a[2]) is None {
        r == Step::Done(err(EFAULT))
    } else {
        &&& r is Exec
        &&& c.path@ == path_at(x.mem, a[0])
        &&& texts(c.argv@) == array_at(x.mem, a[1])->0
        &&& texts(c.envp@) == array_at(x.mem, a[2])->0
    }
}

/// What a system call does and answers. A number that is not in the table is
/// refused.
pub open spec fn dispatch_post(
    nr: usize,
    a: Seq<usize>,
    m: Machine,
    fresh: usize,
    x: Scene,
    r: Step,
    y: Scene,
) -> bool {
    let tells = answer_spec(nr, a, x.p, m);
    let sets = setting_spec(nr, a, x.p);
    if plain_spec(nr, x.p) is Some {
        r == Step::Done(plain_spec(nr, x.p)->0) && y == x
    } else if sets is Some {
        r == Step::Done(ok((sets->0).0 as int)) && y == (Scene { p: (sets->0).1, ..x })
    } else if tells is Some {
        &&& r is Done
        &&& y.p == x.p && y.files == x.files
        &&& replied(x.mem, (tells->0).0, (tells->0).1 as int, r->Done_0, y.mem)
    } else if is_own(nr) {
        own_post(nr, a, fresh, x, r, y)
    } else {
        &&& y == x
        &&& if num_spec(nr, a, x.p, x.files) is Some {
            num_step(num_spec(nr, a, x.p, x.files)->0, r)
        } else if read_spec(nr, a, x.p, x.files, x.mem) is Some {
            num_step(read_spec(nr, a, x.p, x.files, x.mem)->0, r)
        } else if path_spec(nr, a, x.p, x.files, x.mem) is Some {
            path_step(path_spec(nr, a, x.p, x.files, x.mem)->0, r)
        } else if nr == 64 || nr == 68 {
            write_step(nr, a, x, r)
        } else if nr == 65 || nr == 66 {
            buffers_step(nr, a, x, r)
        } else if nr == 221 {
            exec_step(a, x, r)
        } else {
            r == Step::Done(err(ENOSYS))
        }
    }
}

fn as_step(n: Num) -> (r: Step)
    ensures
        num_step(n, r),
{
    match n {
        Ok(c) => Step::Num(c),
        Err(e) => Step::Done(Err(e)),
    }
}

/// Carries out a system call, or says what is to be done for it. `fresh` is the
/// number of a new pipe, event counter or interest list.
pub fn dispatch(
    nr: usize,
    a: &Args,
    p: &mut Process,
    files: &mut Vec<File>,
    mem: &mut UserMem,
    m: &Machine,
    fresh: usize,
) -> (r: Step)
    requires
        old(p).wf(),
        old(p).files_ok(old(files)@),
        m.wf(),
    ensures
        final(p).wf(),
        final(p).files_ok(final(files)@),
        dispatch_post(
            nr,
            a@,
            *m,
            fresh,
            Scene { p: *old(p), files: old(files)@, mem: old(mem)@ },
            r,
            Scene { p: *final(p), files: final(files)@, mem: final(mem)@ },
        ),
{
    match plain(nr, p) {
        Some(v) => {
            return Step::Done(v);
        },
        None => {},
    }
    match setting(nr, a, p) {
        Some(v) => {
            return Step::Done(Ok(v));
        },
        None => {},
    }
    match answer(nr, a, p, m) {
        Some(x) => {
            return Step::Done(reply_all(mem, &x.0, x.1));
        },
        None => {},
    }
    match nr {
        57 | 23 | 24 | 59 | 25 | 29 | 17 | 19 | 20 | 50 | 134 | 135 | 132 | 129 | 130 | 131 => {
            return own_call(nr, a, fresh, p, files, mem);
        },
        _ => {},
    }
    match num_call(nr, a, p, files) {
        Some(n) => {
            return as_step(n);
        },
        None => {},
    }
    match read_call(nr, a, p, files, mem) {
        Some(n) => {
            return as_step(n);
        },
        None => {},
    }
    match path_call(nr, a, p, files, mem) {
        Some(Ok(c)) => {
            return Step::Path(c);
        },
        Some(Err(e)) => {
            return Step::Done(Err(e));
        },
        None => {},
    }
    match write_call(nr, a, p, files, mem) {
        Some(Ok(c)) => {
            return Step::Write(c);
        },
        Some(Err(e)) => {
            return Step::Done(Err(e));
        },
        None => {},
    }
    match vec_call(nr, a, p, files, mem) {
        Some(Ok(c)) => {
            return Step::Buffers(c);
        },
        Some(Err(e)) => {
            return Step::Done(Err(e));
        },
        None => {},
    }
    if nr == 221 {
        return match exec_call(a, mem) {
            Ok(c) => Step::Exec(c),
            Err(e) => Step::Done(Err(e)),
        };
    }
    Step::Done(Err(ENOSYS))
}

/// A result as the program finds it: errors as negative numbers.
pub open spec fn encoded(r: SysResult) -> usize {
    match r {
        Ok(v) => v,
        Err(e) => if e > 0 {
            (usize::MAX - e + 1) as usize
        } else {
            (-(e as int)) as usize
        },
    }
}

pub fn encode(r: SysResult) -> (v: usize)
    ensures
        v == encoded(r),
{
    match r {
        Ok(v) => v,
        Err(e) => {
            if e > 0 {
                usize::MAX - (e as usize - 1)
            } else {
                (-(e as i64)) as usize
            }
        },
    }
}

/// Handles the system call of a trap. The result of a call that is done is put
/// where the program finds it; what is left to be done is given back. A thread
/// without a process has no system calls.
pub fn handle(
    tf: &mut TrapFrame,
    process: &mut Option<Process>,
    files: &mut Vec<File>,
    mem: &mut UserMem,
    m: &Machine,
    fresh: usize,
) -> (r: Option<Step>)
    requires
        (*old(process)) is Some ==> (*old(process))->0.wf() && (*old(process))->0.files_ok(
            old(files)@,
        ),
        m.wf(),
    ensures
        (*final(process)) is Some == (*old(process)) is Some,
        final(tf).x@ == (match r {
            Some(Step::Done(v)) => old(tf).x@.update(10, encoded(v)),
            Some(_) => old(tf).x@,
            None => old(tf).x@.update(10, encoded(err(ENOSYS))),
        }),
        *final(tf) == (TrapFrame { x: final(tf).x, ..*old(tf) }),
        match *old(process) {
            None => r is None && final(files)@ == old(files)@ && final(mem)@ == old(mem)@,
            Some(p) => {
                &&& r is Some
                &&& (*final(process))->0.wf() && (*final(process))->0.files_ok(final(files)@)
                &&& dispatch_post(
                    old(tf).x@[17],
                    seq![
                        old(tf).x@[10],
                        old(tf).x@[11],
                        old(tf).x@[12],
                        old(tf).x@[13],
                        old(tf).x@[14],
                        old(tf).x@[15],
                    ],
                    *m,
                    fresh,
                    Scene { p, files: old(files)@, mem: old(mem)@ },
                    r->0,
                    Scene { p: (*final(process))->0, files: final(files)@, mem: final(mem)@ },
                )
            },
        },
{
    let nr: usize = tf.x[17];
    let args: Args = [tf.x[10], tf.x[11], tf.x[12], tf.x[13], tf.x[14], tf.x[15]];
    proof {
        assert(args@ =~= seq![
            tf.x@[10],
            tf.x@[11],
            tf.x@[12],
            tf.x@[13],
            tf.x@[14],
            tf.x@[15],
        ]);
    }
    match process {
        None => {
            tf.x[10] = encode(Err(ENOSYS));
            None
        },
        Some(p) => {
            let r: Step = dispatch(nr, &args, p, files, mem, m, fresh);
            match &r {
                Step::Done(v) => {
                    tf.x[10] = encode(*v);
                },
                _ => {},
            }
            Some(r)
        },
    }
}

/// What brk answers, from the end that the memory layer reached: a request that
/// was not met leaves the former end.
pub fn brk_done(p: &mut Process, asked: usize, reached: usize) -> (r: SysResult)
    ensures
        if asked == 0 || reached == asked {
            r == ok(reached as int) && *final(p) == (Process { brk: reached, ..*old(p) })
        } else {
            r == ok(old(p).brk as int) && *final(p) == *old(p)
        },
{
    if asked != 0 && reached != asked {
        return Ok(p.brk);
    }
    p.brk = reached;
    Ok(reached)
}

/// What growing a mapping comes to, from where the new part was mapped.
pub fn grow_done(addr: usize, at: usize, got: SysResult) -> (r: SysResult)
    ensures
        r == (match got {
            Err(e) => err(e),
            Ok(v) => if v == at {
                ok(addr as int)
            } else {
                err(ENOMEM)
            },
        }),
{
    match got {
        Err(e) => Err(e),
        Ok(v) => {
            if v != at {
                return Err(ENOMEM);
            }
            Ok(addr)
        },
    }
}

/// What a mapping that is to move holds, as far as it fits in its new place.
pub fn move_begin(mem: &UserMem, from: usize, len: usize, new_len: usize) -> (r: Result<Vec<u8>, i32>)
    ensures
        ({
            let n = at_most(len, new_len) as int;
            if mapped(mem@, from as int, n) {
                r is Ok && r->Ok_0@ == bytes_at(mem@, from as int, n)
            } else {
                r is Err && r->Err_0 == EFAULT
            }
        }),
{
    mem.copy_from_user(from, lesser(len, new_len))
}

/// Stores what a call gives to the program; the result is `ret`.
pub fn give(mem: &mut UserMem, at: usize, data: &Vec<u8>, ret: usize) -> (r: SysResult)
    ensures
        if mapped(old(mem)@, at as int, data@.len() as int) {
            r == ok(ret as int) && final(mem)@ == stored(old(mem)@, at as int, data@)
        } else {
            r == err(EFAULT) && final(mem)@ == old(mem)@
        },
{
    match mem.copy_to_user(at, data) {
        Ok(_) => Ok(ret),
        Err(e) => Err(e),
    }
}

/// The end of a move: the data goes to the place that was mapped.
pub fn move_end(mem: &mut UserMem, data: &Vec<u8>, got: SysResult) -> (r: SysResult)
    ensures
        match got {
            Err(e) => r == err(e) && final(mem)@ == old(mem)@,
            Ok(at) => if mapped(old(mem)@, at as int, data@.len() as int) {
                r == ok(at as int) && final(mem)@ == stored(old(mem)@, at as int, data@)
            } else {
                r == err(EFAULT) && final(mem)@ == old(mem)@
            },
        },
{
    match got {
        Err(e) => Err(e),
        Ok(at) => give(mem, at, data, at),
    }
}

/// The end of a sleep, which is never cut short: no time remains.
pub fn sleep_done(mem: &mut UserMem, rem: usize) -> (r: SysResult)
    ensures
        if rem == 0 {
            r == ok(0) && final(mem)@ == old(mem)@
        } else if mapped(old(mem)@, rem as int, 16) {
            r == ok(0) && final(mem)@ == stored(old(mem)@, rem as int, zeros(16))
        } else {
            r == err(EFAULT) && final(mem)@ == old(mem)@
        },
{
    if rem == 0 {
        return Ok(0);
    }
    let mut v: Vec<u8> = Vec::new();
    put_zeros(&mut v, 16);
    proof {
        assert(v@ =~= zeros(16));
    }
    give(mem, rem, &v, 0)
}

/// The table has no two meanings for a number: a call that is answered at once
/// is not handed on.
pub proof fn calls_have_one_meaning(nr: usize, a: Seq<usize>, p: Process, l: Seq<File>, m: Map<int, u8>, k: Machine)
    requires
        a.len() == 6,
    ensures
        plain_spec(nr, p) is Some ==> setting_spec(nr, a, p) is None && answer_spec(
            nr,
            a,
            p,
            k,
        ) is None && !is_own(nr) && num_spec(nr, a, p, l) is None && read_spec(
            nr,
            a,
            p,
            l,
            m,
        ) is None && path_spec(nr, a, p, l, m) is None,
        setting_spec(nr, a, p) is Some ==> answer_spec(nr, a, p, k) is None && !is_own(nr)
            && num_spec(nr, a, p, l) is None && read_spec(nr, a, p, l, m) is None && path_spec(
            nr,
            a,
            p,
            l,
            m,
        ) is None,
        answer_spec(nr, a, p, k) is Some ==> !is_own(nr) && num_spec(nr, a, p, l) is None
            && read_spec(nr, a, p, l, m) is None && path_spec(nr, a, p, l, m) is None,
        is_own(nr) ==> num_spec(nr, a, p, l) is None && read_spec(nr, a, p, l, m) is None
            && path_spec(nr, a, p, l, m) is None,
{
}

/// A program can tell errors from results: an error is told as its negative, one of
/// the 4095 largest numbers, and a result as it is.
pub proof fn errors_are_negative(e: i32, v: usize)
    requires
        0 < e <= 4095,
    ensures
        encoded(Err(e)) + e == usize::MAX + 1,
        encoded(Err(e)) > usize::MAX - 4096,
        encoded(Ok(v)) == v,
{
}

/// A sleep takes a quarter of its milliseconds in ticks, rounded down, and one tick
/// at least; longer sleeps never take fewer ticks.
pub proof fn sleeps_take_their_time(secs: u64, nsec: u64, more: u64)
    requires
        secs * 1000 + nsec / 1_000_000 <= u64::MAX,
        secs <= more,
    ensures
        sleep_ticks(secs, nsec) >= 1,
        secs * 1000 + nsec / 1_000_000 >= 8 ==> 4 * sleep_ticks(secs, nsec) <= secs * 1000 + nsec
            / 1_000_000 < 4 * sleep_ticks(secs, nsec) + 4,
        sleep_ticks(secs, nsec) <= sleep_ticks(more, nsec),
{
}

/// Calls on open descriptors are made with the file behind the descriptor and the
/// arguments in their Linux order: buffer and length for reading, the offset last
/// where one is given, the output before the input for sending a file.
pub proof fn file_calls_get_their_arguments(a: Seq<usize>, p: Process, l: Seq<File>)
    requires
        a.len() == 6,
        is_open(p, (a[0] as i32) as int),
        is_open(p, (a[1] as i32) as int),
        a[2] <= 0x1000,
        a[3] <= 0x1000,
    ensures
        ({
            let f = p.fds.entries@[(a[0] as i32) as int]->0.file;
            let g = p.fds.entries@[(a[1] as i32) as int]->0.file;
            &&& num_spec(63, a, p, l) == Some(
                Ok::<NumCall, i32>(NumCall::Read { file: f, buf: a[1], len: a[2] }),
            )
            &&& num_spec(67, a, p, l) == Some(
                Ok::<NumCall, i32>(
                    NumCall::Pread { file: f, buf: a[1], len: a[2], off: a[3] as u64 },
                ),
            )
            &&& num_spec(62, a, p, l) == Some(
                Ok::<NumCall, i32>(
                    NumCall::Seek { file: f, off: a[1] as i64, whence: a[2] as u32 },
                ),
            )
            &&& num_spec(80, a, p, l) == Some(
                Ok::<NumCall, i32>(NumCall::Fstat { file: f, at: a[1] }),
            )
            &&& num_spec(71, a, p, l) == Some(
                Ok::<NumCall, i32>(
                    NumCall::SendFile { output: f, input: g, offset: a[2], len: a[3] },
                ),
            )
        }),
{
}

/// The calls of processes and memory keep their Linux numbers and the order of
/// their arguments.
pub proof fn process_calls_get_their_arguments(a: Seq<usize>, p: Process, l: Seq<File>)
    requires
        a.len() == 6,
    ensures
        num_spec(214, a, p, l) == Some(Ok::<NumCall, i32>(NumCall::Brk(a[0]))),
        num_spec(215, a, p, l) == Some(
            Ok::<NumCall, i32>(NumCall::Munmap { addr: a[0], len: a[1] }),
        ),
        num_spec(226, a, p, l) == Some(
            Ok::<NumCall, i32>(NumCall::Mprotect { addr: a[0], len: a[1], prot: a[2] as u32 }),
        ),
        a[3] as u32 & 0x20 != 0 ==> num_spec(222, a, p, l) == Some(
            Ok::<NumCall, i32>(
                NumCall::Mmap {
                    addr: a[0],
                    len: a[1],
                    prot: a[2] as u32,
                    flags: a[3] as u32,
                    inode: None,
                    off: 0,
                },
            ),
        ),
        num_spec(93, a, p, l) == Some(Ok::<NumCall, i32>(NumCall::Exit(a[0] as i32))),
        num_spec(94, a, p, l) == Some(Ok::<NumCall, i32>(NumCall::Exit(a[0] as i32))),
        num_spec(220, a, p, l) == Some(
            Ok::<NumCall, i32>(
                NumCall::Clone { flags: a[0], stack: a[1], ptid: a[2], tls: a[4], ctid: a[3] },
            ),
        ),
        num_spec(260, a, p, l) == Some(
            Ok::<NumCall, i32>(
                NumCall::Wait { pid: a[0] as i32, status: a[1], options: a[2] as u32 },
            ),
        ),
        num_spec(98, a, p, l) == Some(
            Ok::<NumCall, i32>(NumCall::Futex { addr: a[0], op: a[1] as i32, val: a[2] as u32 }),
        ),
        num_spec(133, a, p, l) == Some(Ok::<NumCall, i32>(NumCall::Suspend { mask: a[0] })),
        num_spec(139, a, p, l) == Some(Ok::<NumCall, i32>(NumCall::SigReturn)),
        kill_args(129, a) == (a[0] as i32, a[1]),
        kill_args(130, a) == (a[0] as i32, a[1]),
        kill_args(131, a) == (a[1] as i32, a[2]),
{
}

/// Calls on paths take the directory first and the path second, then their flags; of
/// the two that work from the working directory the path comes first.
pub proof fn path_calls_get_their_arguments(a: Seq<usize>, p: Process, l: Seq<File>, m: Map<int, u8>)
    requires
        a.len() == 6,
        cstr_mapped(m, a[1] as int, 4096),
        cstr_mapped(m, a[0] as int, 4096),
        base_spec(p, l, a[0] as i32, cstr_at(m, a[1] as int, 4096)) is Ok,
    ensures
        ({
            let path = cstr_at(m, a[1] as int, 4096);
            let base = base_spec(p, l, a[0] as i32, path)->Ok_0;
            let at = |op: PathOp|
                Some(
                    Ok::<PathView, i32>(
                        PathView { op, base, path, base2: 0, path2: Seq::empty() },
                    ),
                );
            &&& path_spec(56, a, p, l, m) == at(
                PathOp::Open { flags: a[2] as u32, mode: a[3] as u32 },
            )
            &&& path_spec(34, a, p, l, m) == at(PathOp::Mkdir { mode: a[2] as u32 })
            &&& path_spec(35, a, p, l, m) == at(PathOp::Unlink)
            &&& path_spec(78, a, p, l, m) == at(PathOp::ReadLink { buf: a[2], size: a[3] })
            &&& path_spec(48, a, p, l, m) == at(PathOp::Access)
            &&& path_spec(49, a, p, l, m) == Some(
                Ok::<PathView, i32>(
                    PathView {
                        op: PathOp::Chdir,
                        base: p.cwd,
                        path: cstr_at(m, a[0] as int, 4096),
                        base2: 0,
                        path2: Seq::empty(),
                    },
                ),
            )
        }),
{
}

} // verus!
