//! File system calls of a process.

use vstd::prelude::*;
use crate::abi::{O_ACCMODE, O_APPEND, O_CLOEXEC, O_CREAT, O_DIRECTORY, O_NOFOLLOW, O_NONBLOCK};
use crate::abi::{AT_FDCWD, O_RDONLY, O_TRUNC};
use crate::bytes::{le, put_le, put_zeros, zeros};
use crate::errno::{SysResult, EBADF, EFAULT, EINVAL, ELOOP, EMFILE, ENOENT, ENOTDIR, ERANGE};
use crate::file::{free_from, open_fd, with_fd, FdEntry, Fds};
use crate::syscall::process::{err, ok};
use crate::syscall::reply::{
    bytes_out, num, num_out, out, replied, reply_all, reply_one, views, Out,
};
use crate::task::process::{File, FileObj, Process};
use crate::uaccess::{mapped, num_at, UserMem};

verus! {

/// At most this much is moved by one call.
pub const MAX_IO: usize = 0x10_0000;

/// The file of a descriptor.
pub open spec fn file_at(p: Process, fd: int) -> int {
    p.fds.entries@[fd]->0.file as int
}

pub open spec fn is_open(p: Process, fd: int) -> bool {
    open_fd(p.fds.entries@, fd)
}

/// Process `b` is `a` with another descriptor table of the same limit.
pub open spec fn only_fds(a: Process, b: Process) -> bool {
    b == (Process { fds: b.fds, ..a }) && b.fds.limit == a.fds.limit
}

/// A file gets the lowest free descriptor from `min` on, if that is below the
/// limit.
pub open spec fn allocated(a: Process, file: int, min: int, r: Result<i32, i32>, b: Process) -> bool {
    let fd = free_from(a.fds.entries@, min);
    &&& only_fds(a, b)
    &&& if fd < a.fds.limit {
        &&& r == Ok::<i32, i32>(fd as i32)
        &&& b.fds.entries@ == with_fd(
            a.fds.entries@,
            fd,
            Some(FdEntry { file: file as usize, cloexec: false }),
        )
    } else {
        r == Err::<i32, i32>(EMFILE) && b.fds.entries@ == a.fds.entries@
    }
}

/// The place from which a descriptor is looked for.
pub open spec fn from_min(min: i32) -> int {
    if min < 0 {
        0
    } else {
        min as int
    }
}

proof fn lemma_with(p: Process, e: Fds, files: Seq<File>, fd: int, file: usize)
    requires
        p.files_ok(files),
        0 <= fd,
        file < files.len(),
    ensures
        forall|k: int|
            open_fd(with_fd(p.fds.entries@, fd, Some(FdEntry { file, cloexec: false })), k)
                ==> (#[trigger] with_fd(
                p.fds.entries@,
                fd,
                Some(FdEntry { file, cloexec: false }),
            )[k])->0.file < files.len(),
{
    let a = p.fds.entries@;
    let b = with_fd(a, fd, Some(FdEntry { file, cloexec: false }));
    assert forall|k: int| open_fd(b, k) implies (#[trigger] b[k])->0.file < files.len() by {
        if k != fd {
            if k < a.len() {
                assert(b[k] == a[k]);
                assert(open_fd(a, k));
            }
        }
    }
}

/// Gives a file a descriptor.
fn give_fd(p: &mut Process, Ghost(files): Ghost<Seq<File>>, file: usize, min: i32) -> (r: Result<
    i32,
    i32,
>)
    requires
        old(p).wf(),
        old(p).files_ok(files),
        file < files.len(),
    ensures
        final(p).wf(),
        final(p).files_ok(files),
        allocated(*old(p), file as int, from_min(min), r, *final(p)),
{
    let m: usize = if min < 0 {
        0
    } else {
        min as usize
    };
    proof {
        crate::file::free_from_is_lowest(p.fds.entries@, m as int);
        lemma_with(*p, p.fds.entries@, files, free_from(p.fds.entries@, m as int), file);
    }
    p.fds.alloc_fd(file, false, m)
}

/// The file of a descriptor, or an error.
fn get(p: &Process, Ghost(files): Ghost<Seq<File>>, fd: i32) -> (r: Result<usize, i32>)
    requires
        p.files_ok(files),
    ensures
        match r {
            Ok(f) => is_open(*p, fd as int) && f == file_at(*p, fd as int) && f < files.len(),
            Err(e) => !is_open(*p, fd as int) && e == EBADF,
        },
{
    match p.fds.get(fd) {
        Ok(f) => {
            assert(open_fd(p.fds.entries@, fd as int));
            Ok(f)
        },
        Err(e) => Err(e),
    }
}

/// What a call that gives a descriptor returns.
pub open spec fn fd_result(r: Result<i32, i32>) -> SysResult {
    match r {
        Ok(fd) => ok(fd as int),
        Err(e) => err(e),
    }
}

fn as_result(r: Result<i32, i32>) -> (s: SysResult)
    requires
        r is Ok ==> r->Ok_0 >= 0,
    ensures
        s == fd_result(r),
{
    match r {
        Ok(fd) => Ok(fd as usize),
        Err(e) => Err(e),
    }
}

/// The call duplicates a descriptor from `min` on.
pub open spec fn dup_post(a: Process, fd: i32, min: i32, r: SysResult, b: Process) -> bool {
    if is_open(a, fd as int) {
        exists|x: Result<i32, i32>|
            #[trigger] allocated(a, file_at(a, fd as int), from_min(min), x, b) && r == fd_result(x)
    } else {
        r == err(EBADF) && b == a
    }
}

/// Duplicates a descriptor.
pub fn dup(p: &mut Process, files: &Vec<File>, fd: i32, min: i32) -> (r: SysResult)
    requires
        old(p).wf(),
        old(p).files_ok(files@),
    ensures
        final(p).wf(),
        final(p).files_ok(files@),
        dup_post(*old(p), fd, min, r, *final(p)),
{
    match get(p, Ghost(files@), fd) {
        Ok(f) => {
            let ghost p0 = *p;
            proof {
                crate::file::free_from_is_lowest(p.fds.entries@, from_min(min));
            }
            let x: Result<i32, i32> = give_fd(p, Ghost(files@), f, min);
            proof {
                assert(allocated(p0, file_at(p0, fd as int), from_min(min), x, *p));
            }
            as_result(x)
        },
        Err(e) => Err(e),
    }
}

pub open spec fn dup3_post(a: Process, fd: i32, to: i32, r: SysResult, b: Process) -> bool {
    &&& only_fds(a, b)
    &&& if !is_open(a, fd as int) {
        r == err(EBADF) && b.fds.entries@ == a.fds.entries@
    } else if fd == to {
        r == err(EINVAL) && b.fds.entries@ == a.fds.entries@
    } else if 0 <= to < a.fds.limit {
        &&& r == ok(to as int)
        &&& b.fds.entries@ == with_fd(
            a.fds.entries@,
            to as int,
            Some(FdEntry { file: file_at(a, fd as int) as usize, cloexec: false }),
        )
    } else {
        r == err(EBADF) && b.fds.entries@ == a.fds.entries@
    }
}

/// Makes a given descriptor refer to the file of another. One at or above the
/// limit is refused.
pub fn dup3(p: &mut Process, files: &Vec<File>, fd: i32, to: i32) -> (r: SysResult)
    requires
        old(p).wf(),
        old(p).files_ok(files@),
    ensures
        final(p).wf(),
        final(p).files_ok(files@),
        dup3_post(*old(p), fd, to, r, *final(p)),
{
    match get(p, Ghost(files@), fd) {
        Ok(f) => {
            if fd == to {
                return Err(EINVAL);
            }
            proof {
                if to >= 0 {
                    lemma_with(*p, p.fds.entries@, files@, to as int, f);
                }
            }
            match p.fds.set(to, f, false) {
                Ok(_) => Ok(to as usize),
                Err(e) => Err(e),
            }
        },
        Err(e) => Err(e),
    }
}

pub open spec fn close_post(a: Process, fd: i32, r: SysResult, b: Process) -> bool {
    &&& only_fds(a, b)
    &&& if is_open(a, fd as int) {
        r == ok(0) && b.fds.entries@ == a.fds.entries@.update(fd as int, None)
    } else {
        r == err(EBADF) && b.fds.entries@ == a.fds.entries@
    }
}

/// Closes a descriptor.
pub fn close(p: &mut Process, files: &Vec<File>, fd: i32) -> (r: SysResult)
    requires
        old(p).wf(),
        old(p).files_ok(files@),
    ensures
        final(p).wf(),
        final(p).files_ok(files@),
        close_post(*old(p), fd, r, *final(p)),
{
    let ghost a = *p;
    match p.fds.close(fd) {
        Ok(_) => {
            proof {
                assert forall|k: int| open_fd(p.fds.entries@, k) implies (
                #[trigger] p.fds.entries@[k])->0.file < files@.len() by {
                    assert(open_fd(a.fds.entries@, k));
                    assert(a.fds.entries@[k] == p.fds.entries@[k]);
                }
            }
            Ok(0)
        },
        Err(e) => {
            assert(p.files_ok(files@)) by {
                assert forall|k: int| open_fd(p.fds.entries@, k) implies (
                #[trigger] p.fds.entries@[k])->0.file < files@.len() by {
                    assert(open_fd(a.fds.entries@, k));
                    assert(a.fds.entries@[k] == p.fds.entries@[k]);
                }
            }
            Err(e)
        },
    }
}

/// A file is opened: it joins the list and gets the lowest descriptor.
pub open spec fn opened(
    a: Process,
    l: Seq<File>,
    f: File,
    r: Result<i32, i32>,
    b: Process,
    k: Seq<File>,
) -> bool {
    k == l.push(f) && allocated(a, l.len() as int, 0, r, b)
}

proof fn lemma_more_files(p: Process, l: Seq<File>, k: Seq<File>)
    requires
        p.files_ok(l),
        k.len() >= l.len(),
    ensures
        p.files_ok(k),
{
    assert forall|fd: int| open_fd(p.fds.entries@, fd) implies (
    #[trigger] p.fds.entries@[fd])->0.file < k.len() by {
        assert(p.fds.entries@[fd]->0.file < l.len());
    }
}

/// Opens a file.
pub fn open_file(p: &mut Process, files: &mut Vec<File>, f: File) -> (r: Result<i32, i32>)
    requires
        old(p).wf(),
        old(p).files_ok(old(files)@),
    ensures
        final(p).wf(),
        final(p).files_ok(final(files)@),
        opened(*old(p), old(files)@, f, r, *final(p), final(files)@),
        r is Ok ==> r->Ok_0 >= 0,
{
    let n: usize = files.len();
    let ghost l = files@;
    files.push(f);
    proof {
        lemma_more_files(*p, l, files@);
        crate::file::free_from_is_lowest(p.fds.entries@, 0);
    }
    give_fd(p, Ghost(files@), n, 0)
}

pub open spec fn pipe_end(pipe: usize, write_end: bool, flags: u32) -> File {
    File {
        obj: FileObj::Pipe { pipe, write_end },
        status: flags & O_NONBLOCK,
        cloexec: flags & O_CLOEXEC != 0,
    }
}

pub open spec fn pipe2_post(
    pipe: usize,
    at: usize,
    flags: u32,
    a: Process,
    l: Seq<File>,
    m: Map<int, u8>,
    r: SysResult,
    b: Process,
    k: Seq<File>,
    n: Map<int, u8>,
) -> bool {
    exists|p1: Process, x: Result<i32, i32>, l1: Seq<File>|
        {
            &&& #[trigger] opened(a, l, pipe_end(pipe, false, flags), x, p1, l1)
            &&& match x {
                Err(e) => r == err(e) && b == p1 && k == l1 && n
                    == m,
                Ok(fd0) => exists|y: Result<i32, i32>|
                    {
                        &&& #[trigger] opened(
                            p1,
                            l1,
                            pipe_end(pipe, true, flags),
                            y,
                            b,
                            k,
                        )
                        &&& match y {
                            Err(e) => r == err(e) && n == m,
                            Ok(fd1) => replied(
                                m,
                                if at <= usize::MAX - 4 {
                                    seq![
                                        num(at, fd0 as nat, 4),
                                        num((at + 4) as usize, fd1 as nat, 4),
                                    ]
                                } else {
                                    seq![num(at, fd0 as nat, 4)]
                                },
                                0,
                                r,
                                n,
                            ),
                        }
                    },
            }
        }
}

/// Makes the two ends of a pipe and tells their descriptors. Where these cannot
/// be stored, the descriptors stay in use.
pub fn pipe2(
    p: &mut Process,
    files: &mut Vec<File>,
    mem: &mut UserMem,
    pipe: usize,
    at: usize,
    flags: u32,
) -> (r: SysResult)
    requires
        old(p).wf(),
        old(p).files_ok(old(files)@),
    ensures
        final(p).wf(),
        final(p).files_ok(final(files)@),
        pipe2_post(
            pipe,
            at,
            flags,
            *old(p),
            old(files)@,
            old(mem)@,
            r,
            *final(p),
            final(files)@,
            final(mem)@,
        ),
{
    let rd = File {
        obj: FileObj::Pipe { pipe, write_end: false },
        status: flags & O_NONBLOCK,
        cloexec: flags & O_CLOEXEC != 0,
    };
    let wr = File {
        obj: FileObj::Pipe { pipe, write_end: true },
        status: flags & O_NONBLOCK,
        cloexec: flags & O_CLOEXEC != 0,
    };
    let ghost p0 = *p;
    let ghost l0 = files@;
    let x: Result<i32, i32> = open_file(p, files, rd);
    let ghost p1 = *p;
    let ghost l1 = files@;
    assert(opened(p0, l0, pipe_end(pipe, false, flags), x, p1, l1));
    let fd0: i32 = match x {
        Ok(fd) => fd,
        Err(e) => {
            return Err(e);
        },
    };
    let y: Result<i32, i32> = open_file(p, files, wr);
    assert(opened(p1, l1, pipe_end(pipe, true, flags), y, *p, files@));
    let fd1: i32 = match y {
        Ok(fd) => fd,
        Err(e) => {
            return Err(e);
        },
    };
    let mut l: Vec<Out> = Vec::new();
    l.push(num_out(at, fd0 as u64, 4));
    if at <= usize::MAX - 4 {
        l.push(num_out(at + 4, fd1 as u64, 4));
    }
    proof {
        assert(views(l@) =~= if at <= usize::MAX - 4 {
            seq![num(at, fd0 as nat, 4), num((at + 4) as usize, fd1 as nat, 4)]
        } else {
            seq![num(at, fd0 as nat, 4)]
        });
    }
    reply_all(mem, &l, 0)
}

/// A call opens a file and returns its descriptor.
pub open spec fn open_post(
    a: Process,
    l: Seq<File>,
    f: File,
    r: SysResult,
    b: Process,
    k: Seq<File>,
) -> bool {
    exists|x: Result<i32, i32>| #[trigger] opened(a, l, f, x, b, k) && r == fd_result(x)
}

/// An event counter: bit 0 of the flags makes it a semaphore.
pub open spec fn eventfd_file(id: usize, flags: u32) -> File {
    File {
        obj: FileObj::EventFd(id),
        status: flags & O_NONBLOCK,
        cloexec: flags & O_CLOEXEC != 0,
    }
}

/// Opens an event counter, number `id`.
pub fn eventfd2(p: &mut Process, files: &mut Vec<File>, id: usize, flags: u32) -> (r: SysResult)
    requires
        old(p).wf(),
        old(p).files_ok(old(files)@),
    ensures
        final(p).wf(),
        final(p).files_ok(final(files)@),
        open_post(*old(p), old(files)@, eventfd_file(id, flags), r, *final(p), final(files)@),
{
    let f = File {
        obj: FileObj::EventFd(id),
        status: flags & O_NONBLOCK,
        cloexec: flags & O_CLOEXEC != 0,
    };
    let x: Result<i32, i32> = open_file(p, files, f);
    assert(opened(*old(p), old(files)@, eventfd_file(id, flags), x, *p, files@));
    as_result(x)
}

pub open spec fn epoll_file(id: usize, flags: u32) -> File {
    File {
        obj: FileObj::Epoll(id),
        status: if flags & O_NONBLOCK != 0 {
            O_NONBLOCK
        } else {
            O_RDONLY
        },
        cloexec: flags & O_CLOEXEC != 0,
    }
}

/// Opens an interest list, number `id`.
pub fn epoll_create1(p: &mut Process, files: &mut Vec<File>, id: usize, flags: u32) -> (r: SysResult)
    requires
        old(p).wf(),
        old(p).files_ok(old(files)@),
    ensures
        final(p).wf(),
        final(p).files_ok(final(files)@),
        open_post(*old(p), old(files)@, epoll_file(id, flags), r, *final(p), final(files)@),
{
    let f = File {
        obj: FileObj::Epoll(id),
        status: if flags & O_NONBLOCK != 0 {
            O_NONBLOCK
        } else {
            O_RDONLY
        },
        cloexec: flags & O_CLOEXEC != 0,
    };
    let x: Result<i32, i32> = open_file(p, files, f);
    assert(opened(*old(p), old(files)@, epoll_file(id, flags), x, *p, files@));
    as_result(x)
}

/// The status flags that can be changed on an open file.
pub open spec fn new_status(status: u32, v: u32) -> u32 {
    (status & !(O_NONBLOCK | O_APPEND)) | (v & (O_NONBLOCK | O_APPEND))
}

/// The commands of fcntl that this kernel knows: duplicate (0), with close on
/// exec (1030), get and set close on exec (1, 2), get and set the status (3, 4).
pub open spec fn fcntl_known(cmd: i32) -> bool {
    0 <= cmd <= 4 || cmd == 1030
}

pub open spec fn fcntl_post(
    a: Process,
    l: Seq<File>,
    fd: i32,
    cmd: i32,
    arg: usize,
    r: SysResult,
    b: Process,
    k: Seq<File>,
) -> bool {
    let i = file_at(a, fd as int);
    let f = l[i];
    if !fcntl_known(cmd) {
        r == ok(0) && b == a && k == l
    } else if !is_open(a, fd as int) {
        r == err(EBADF) && b == a && k == l
    } else if cmd == 0 {
        dup_post(a, fd, arg as i32, r, b) && k == l
    } else if cmd == 1030 {
        dup_post(a, fd, arg as i32, r, b) && k == l.update(i, File { cloexec: true, ..f })
    } else if cmd == 1 {
        r == ok(if f.cloexec {
            1
        } else {
            0
        }) && b == a && k == l
    } else if cmd == 2 {
        r == ok(0) && b == a && k == l.update(i, File { cloexec: arg & 1 != 0, ..f })
    } else if cmd == 3 {
        r == ok(f.status as int) && b == a && k == l
    } else {
        r == ok(0) && b == a && k == l.update(
            i,
            File { status: new_status(f.status, arg as u32), ..f },
        )
    }
}

/// Reads or changes the flags of an open file. Other commands succeed and do
/// nothing.
pub fn fcntl(p: &mut Process, files: &mut Vec<File>, fd: i32, cmd: i32, arg: usize) -> (r: SysResult)
    requires
        old(p).wf(),
        old(p).files_ok(old(files)@),
    ensures
        final(p).wf(),
        final(p).files_ok(final(files)@),
        fcntl_post(*old(p), old(files)@, fd, cmd, arg, r, *final(p), final(files)@),
{
    if !((0 <= cmd && cmd <= 4) || cmd == 1030) {
        return Ok(0);
    }
    let i: usize = match get(p, Ghost(files@), fd) {
        Ok(i) => i,
        Err(e) => {
            return Err(e);
        },
    };
    let f: File = files[i];
    match cmd {
        0 => dup(p, files, fd, arg as i32),
        1030 => {
            files.set(i, File { obj: f.obj, status: f.status, cloexec: true });
            proof {
                lemma_more_files(*p, old(files)@, files@);
            }
            dup(p, files, fd, arg as i32)
        },
        1 => if f.cloexec {
            Ok(1)
        } else {
            Ok(0)
        },
        2 => {
            files.set(i, File { obj: f.obj, status: f.status, cloexec: arg & 1 != 0 });
            proof {
                lemma_more_files(*p, old(files)@, files@);
            }
            Ok(0)
        },
        3 => Ok(f.status as usize),
        _ => {
            let st: u32 = (f.status & !(O_NONBLOCK | O_APPEND)) | (arg as u32 & (O_NONBLOCK
                | O_APPEND));
            files.set(i, File { obj: f.obj, status: st, cloexec: f.cloexec });
            proof {
                lemma_more_files(*p, old(files)@, files@);
            }
            Ok(0)
        },
    }
}

pub const FIONBIO: u32 = 0x5421;

pub const FIONREAD: u32 = 0x541b;

pub const TCGETS: u32 = 0x5401;

pub const TIOCGWINSZ: u32 = 0x5413;

/// The settings of a terminal of 115200 baud and 8 bits.
pub open spec fn termios() -> Seq<u8> {
    le(0x8a0, 4) + zeros(56)
}

/// A window of 24 rows and 80 columns.
pub open spec fn winsize() -> Seq<u8> {
    le(24, 2) + le(80, 2) + zeros(4)
}

pub open spec fn ioctl_post(
    a: Process,
    l: Seq<File>,
    m: Map<int, u8>,
    fd: i32,
    req: u32,
    arg: usize,
    r: SysResult,
    k: Seq<File>,
    n: Map<int, u8>,
) -> bool {
    let i = file_at(a, fd as int);
    let f = l[i];
    if !is_open(a, fd as int) {
        r == err(EBADF) && k == l && n == m
    } else if req == FIONBIO {
        n == m && if !mapped(m, arg as int, 4) {
            r == err(EFAULT) && k == l
        } else {
            r == ok(0) && k == l.update(
                i,
                File {
                    status: if num_at(m, arg as int, 4) != 0 {
                        f.status | O_NONBLOCK
                    } else {
                        f.status & !O_NONBLOCK
                    },
                    ..f
                },
            )
        }
    } else if req == FIONREAD {
        k == l && replied(m, seq![num(arg, 0, 4)], 0, r, n)
    } else if req == TCGETS {
        k == l && replied(m, seq![out(arg, termios())], 0, r, n)
    } else if req == TIOCGWINSZ {
        k == l && replied(m, seq![out(arg, winsize())], 0, r, n)
    } else {
        r == ok(0) && k == l && n == m
    }
}

/// Device control. Requests that are not known succeed and do nothing.
pub fn ioctl(
    p: &Process,
    files: &mut Vec<File>,
    mem: &mut UserMem,
    fd: i32,
    req: u32,
    arg: usize,
) -> (r: SysResult)
    requires
        p.wf(),
        p.files_ok(old(files)@),
    ensures
        p.files_ok(final(files)@),
        ioctl_post(
            *p,
            old(files)@,
            old(mem)@,
            fd,
            req,
            arg,
            r,
            final(files)@,
            final(mem)@,
        ),
{
    let i: usize = match get(p, Ghost(files@), fd) {
        Ok(i) => i,
        Err(e) => {
            return Err(e);
        },
    };
    match req {
        FIONBIO => {
            let v: u64 = match mem.read_num(arg, 4) {
                Ok(v) => v,
                Err(e) => {
                    return Err(e);
                },
            };
            let f: File = files[i];
            let st: u32 = if v != 0 {
                f.status | O_NONBLOCK
            } else {
                f.status & !O_NONBLOCK
            };
            files.set(i, File { obj: f.obj, status: st, cloexec: f.cloexec });
            proof {
                lemma_more_files(*p, old(files)@, files@);
            }
            Ok(0)
        },
        FIONREAD => reply_one(mem, num_out(arg, 0, 4), 0),
        TCGETS => {
            let mut v: Vec<u8> = Vec::new();
            put_le(&mut v, 0x8a0, 4);
            put_zeros(&mut v, 56);
            proof {
                assert(v@ =~= termios());
            }
            reply_one(mem, bytes_out(arg, v), 0)
        },
        TIOCGWINSZ => {
            let mut v: Vec<u8> = Vec::new();
            put_le(&mut v, 24, 2);
            put_le(&mut v, 80, 2);
            put_zeros(&mut v, 4);
            proof {
                assert(v@ =~= winsize());
            }
            reply_one(mem, bytes_out(arg, v), 0)
        },
        _ => Ok(0),
    }
}

pub open spec fn getcwd_post(
    buf: usize,
    size: usize,
    m: Map<int, u8>,
    r: SysResult,
    n: Map<int, u8>,
) -> bool {
    if size < 2 {
        r == err(ERANGE) && n == m
    } else {
        replied(m, seq![out(buf, seq![47u8, 0])], buf as int, r, n)
    }
}

/// Tells the working directory, which is always told as the root.
pub fn getcwd(mem: &mut UserMem, buf: usize, size: usize) -> (r: SysResult)
    ensures
        getcwd_post(buf, size, old(mem)@, r, final(mem)@),
{
    if size < 2 {
        return Err(ERANGE);
    }
    let v: Vec<u8> = vec![47, 0];
    proof {
        assert(v@ =~= seq![47u8, 0]);
    }
    reply_one(mem, bytes_out(buf, v), buf)
}

/// The inode of a file that has one.
pub open spec fn inode_spec(f: File) -> Option<usize> {
    match f.obj {
        FileObj::Regular { inode, .. } => Some(inode),
        FileObj::Dir { inode, .. } => Some(inode),
        _ => None,
    }
}

pub fn inode_of(f: &File) -> (r: Option<usize>)
    ensures
        r == inode_spec(*f),
{
    match f.obj {
        FileObj::Regular { inode, .. } => Some(inode),
        FileObj::Dir { inode, .. } => Some(inode),
        _ => None,
    }
}

/// The directory that a path starts from: the working directory for a path
/// from the root or without a descriptor, else that of the descriptor.
pub open spec fn base_spec(p: Process, l: Seq<File>, dirfd: i32, path: Seq<u8>) -> Result<usize, i32> {
    if (path.len() > 0 && path[0] == 47) || dirfd == AT_FDCWD {
        Ok(p.cwd)
    } else if !is_open(p, dirfd as int) {
        Err(EBADF)
    } else {
        match inode_spec(l[file_at(p, dirfd as int)]) {
            Some(i) => Ok(i),
            None => Err(ENOTDIR),
        }
    }
}

pub fn resolve_dir(p: &Process, files: &Vec<File>, dirfd: i32, path: &Vec<u8>) -> (r: Result<
    usize,
    i32,
>)
    requires
        p.files_ok(files@),
    ensures
        r == base_spec(*p, files@, dirfd, path@),
{
    if (path.len() > 0 && path[0] == 47) || dirfd == AT_FDCWD {
        return Ok(p.cwd);
    }
    match get(p, Ghost(files@), dirfd) {
        Ok(f) => match inode_of(&files[f]) {
            Some(i) => Ok(i),
            None => Err(ENOTDIR),
        },
        Err(e) => Err(e),
    }
}

/// What kind of node a path leads to.
#[derive(Clone, Copy, PartialEq, Eq, Structural, Debug)]
pub enum Kind {
    File,
    Dir,
    Symlink,
    CharDev,
    Fifo,
    /// A link to one of the process's own descriptors.
    FdLink(u32),
}

/// A node that a lookup found.
#[derive(Clone, Copy, PartialEq, Eq, Structural, Debug)]
pub struct Node {
    pub inode: usize,
    pub kind: Kind,
    pub rdev: u64,
    pub size: u64,
}

/// What opening a path needs next.
#[derive(Clone, Copy, PartialEq, Eq, Structural, Debug)]
pub enum OpenStep {
    Fail(i32),
    /// Create a node of this kind.
    Create(Kind),
    /// Look the path up again, following a link at its end.
    Follow,
    /// Open this node.
    Open(Node),
}

/// Decides on the answer of the first lookup, which follows a link at the end
/// of the path unless that was forbidden.
pub fn open_found(found: Result<Node, i32>, flags: u32) -> (r: OpenStep)
    ensures
        r == (match found {
            Err(e) => if e == ENOENT && flags & O_CREAT != 0 {
                OpenStep::Create(
                    if flags & O_DIRECTORY != 0 {
                        Kind::Dir
                    } else {
                        Kind::File
                    },
                )
            } else {
                OpenStep::Fail(e)
            },
            Ok(n) => if n.kind != Kind::Symlink {
                OpenStep::Open(n)
            } else if flags & O_NOFOLLOW != 0 {
                OpenStep::Fail(ELOOP)
            } else {
                OpenStep::Follow
            },
        }),
{
    match found {
        Err(e) => {
            if e == ENOENT && flags & O_CREAT != 0 {
                if flags & O_DIRECTORY != 0 {
                    OpenStep::Create(Kind::Dir)
                } else {
                    OpenStep::Create(Kind::File)
                }
            } else {
                OpenStep::Fail(e)
            }
        },
        Ok(n) => {
            if n.kind != Kind::Symlink {
                return OpenStep::Open(n);
            }
            if flags & O_NOFOLLOW != 0 {
                return OpenStep::Fail(ELOOP);
            }
            OpenStep::Follow
        },
    }
}

/// Opening a node with these flags empties it first.
pub open spec fn truncates(n: Node, flags: u32) -> bool {
    flags & O_TRUNC != 0 && flags & O_ACCMODE != O_RDONLY && n.kind == Kind::File
}

pub fn must_truncate(n: &Node, flags: u32) -> (r: bool)
    ensures
        r == truncates(*n, flags),
{
    flags & O_TRUNC != 0 && flags & O_ACCMODE != O_RDONLY && n.kind == Kind::File
}

/// The file that opening a node gives. `pipe` is a new pipe, for a named one.
pub open spec fn file_of(n: Node, flags: u32, pipe: usize) -> File {
    File {
        obj: match n.kind {
            Kind::Dir => FileObj::Dir { inode: n.inode, offset: 0 },
            Kind::CharDev => FileObj::CharDev { rdev: n.rdev },
            Kind::Fifo => FileObj::Pipe { pipe, write_end: flags & O_ACCMODE != O_RDONLY },
            _ => FileObj::Regular {
                inode: n.inode,
                offset: if flags & O_APPEND != 0 {
                    n.size
                } else {
                    0
                },
            },
        },
        status: flags & (O_NONBLOCK | O_APPEND),
        cloexec: flags & O_CLOEXEC != 0,
    }
}

pub open spec fn open_node_post(
    a: Process,
    l: Seq<File>,
    n: Node,
    flags: u32,
    pipe: usize,
    r: SysResult,
    b: Process,
    k: Seq<File>,
) -> bool {
    if flags & O_DIRECTORY != 0 && n.kind != Kind::Dir {
        r == err(ENOTDIR) && b == a && k == l
    } else {
        match n.kind {
            Kind::FdLink(d) => k == l && dup_post(a, d as i32, 0, r, b),
            _ => open_post(a, l, file_of(n, flags, pipe), r, b, k),
        }
    }
}

/// Opens the node that a path led to. Its size is that after any truncation.
pub fn open_node(p: &mut Process, files: &mut Vec<File>, n: &Node, flags: u32, pipe: usize) -> (r:
    SysResult)
    requires
        old(p).wf(),
        old(p).files_ok(old(files)@),
    ensures
        final(p).wf(),
        final(p).files_ok(final(files)@),
        open_node_post(*old(p), old(files)@, *n, flags, pipe, r, *final(p), final(files)@),
{
    if flags & O_DIRECTORY != 0 && n.kind != Kind::Dir {
        return Err(ENOTDIR);
    }
    let obj: FileObj = match n.kind {
        Kind::Dir => FileObj::Dir { inode: n.inode, offset: 0 },
        Kind::CharDev => FileObj::CharDev { rdev: n.rdev },
        Kind::FdLink(d) => {
            return dup(p, files, d as i32, 0);
        },
        Kind::Fifo => FileObj::Pipe { pipe, write_end: flags & O_ACCMODE != O_RDONLY },
        _ => FileObj::Regular {
            inode: n.inode,
            offset: if flags & O_APPEND != 0 {
                n.size
            } else {
                0
            },
        },
    };
    let f = File {
        obj,
        status: flags & (O_NONBLOCK | O_APPEND),
        cloexec: flags & O_CLOEXEC != 0,
    };
    let x: Result<i32, i32> = open_file(p, files, f);
    assert(opened(*old(p), old(files)@, file_of(*n, flags, pipe), x, *p, files@));
    as_result(x)
}

/// Changes the working directory to the node that a path led to.
pub fn chdir(p: &mut Process, found: Result<Node, i32>) -> (r: SysResult)
    ensures
        match found {
            Err(e) => r == err(e) && *final(p) == *old(p),
            Ok(n) => if n.kind == Kind::Dir {
                r == ok(0) && *final(p) == (Process { cwd: n.inode, ..*old(p) })
            } else {
                r == err(ENOTDIR) && *final(p) == *old(p)
            },
        },
{
    match found {
        Err(e) => Err(e),
        Ok(n) => {
            if n.kind != Kind::Dir {
                return Err(ENOTDIR);
            }
            p.cwd = n.inode;
            Ok(0)
        },
    }
}

pub open spec fn fchdir_post(a: Process, l: Seq<File>, fd: i32, r: SysResult, b: Process) -> bool {
    if !is_open(a, fd as int) {
        r == err(EBADF) && b == a
    } else {
        match l[file_at(a, fd as int)].obj {
            FileObj::Dir { inode, .. } => r == ok(0) && b == (Process { cwd: inode, ..a }),
            _ => r == err(ENOTDIR) && b == a,
        }
    }
}

/// Changes the working directory to an open directory.
pub fn fchdir(p: &mut Process, files: &Vec<File>, fd: i32) -> (r: SysResult)
    requires
        old(p).files_ok(files@),
    ensures
        fchdir_post(*old(p), files@, fd, r, *final(p)),
{
    let i: usize = match get(p, Ghost(files@), fd) {
        Ok(i) => i,
        Err(e) => {
            return Err(e);
        },
    };
    match files[i].obj {
        FileObj::Dir { inode, .. } => {
            p.cwd = inode;
            Ok(0)
        },
        _ => Err(ENOTDIR),
    }
}

/// The text of a link, cut to the room there is.
pub fn readlink(mem: &mut UserMem, target: &Vec<u8>, buf: usize, size: usize) -> (r: SysResult)
    ensures
        ({
            let n = if target@.len() < size {
                target@.len() as int
            } else {
                size as int
            };
            replied(
                old(mem)@,
                seq![out(buf, target@.take(n))],
                n,
                r,
                final(mem)@,
            )
        }),
{
    let n: usize = if target.len() < size {
        target.len()
    } else {
        size
    };
    let mut v: Vec<u8> = Vec::new();
    let mut i: usize = 0;
    while i < n
        invariant
            i <= n <= target@.len(),
            v@ == target@.take(i as int),
        decreases n - i,
    {
        v.push(target[i]);
        i = i + 1;
        proof {
            assert(target@.take(i as int) =~= target@.take(i - 1).push(target@[i - 1]));
        }
    }
    reply_one(mem, bytes_out(buf, v), n)
}

/// A descriptor that was just given refers to the file.
pub proof fn opened_is_there(
    a: Process,
    l: Seq<File>,
    f: File,
    r: Result<i32, i32>,
    b: Process,
    k: Seq<File>,
)
    requires
        opened(a, l, f, r, b, k),
        a.wf(),
        l.len() <= usize::MAX,
        r is Ok,
    ensures
        is_open(b, r->Ok_0 as int),
        !is_open(a, r->Ok_0 as int),
        k[file_at(b, r->Ok_0 as int)] == f,
        forall|fd: int| is_open(a, fd) ==> #[trigger] is_open(b, fd) && file_at(b, fd) == file_at(
            a,
            fd,
        ),
{
    crate::file::free_from_is_lowest(a.fds.entries@, 0);
    let fd = r->Ok_0 as int;
    crate::file::allocated_is_open(
        a.fds.entries@,
        0,
        FdEntry { file: l.len() as usize, cloexec: false },
        fd,
    );
    assert forall|x: int| is_open(a, x) implies #[trigger] is_open(b, x) && file_at(b, x)
        == file_at(a, x) by {
        assert(b.fds.entries@[x] == a.fds.entries@[x]);
    }
}

/// A duplicate is another descriptor of the same file: the lowest that is free from
/// the number asked for on; every other descriptor stays.
pub proof fn duplicate_is_the_same_file(a: Process, fd: i32, min: i32, r: SysResult, b: Process, other: int)
    requires
        a.wf(),
        min >= 0,
        is_open(a, fd as int),
        dup_post(a, fd, min, r, b),
    ensures
        r matches Ok(k) ==> {
            &&& min <= k < a.fds.limit
            &&& !is_open(a, k as int) && is_open(b, k as int)
            &&& file_at(b, k as int) == file_at(a, fd as int)
            &&& min <= other < k ==> is_open(a, other)
            &&& other != k ==> is_open(b, other) == is_open(a, other) && (is_open(a, other)
                ==> file_at(b, other) == file_at(a, other))
        },
        r is Err ==> r == err(EMFILE) && b.fds.entries@ == a.fds.entries@,
{
    let x = choose|x: Result<i32, i32>|
        #[trigger] allocated(a, file_at(a, fd as int), from_min(min), x, b) && r == fd_result(x);
    let e = a.fds.entries@;
    crate::file::free_from_is_lowest(e, min as int);
    crate::file::allocated_is_open(
        e,
        min as int,
        FdEntry { file: file_at(a, fd as int) as usize, cloexec: false },
        other,
    );
}

/// A descriptor that is put in the place of another refers to the same file, and no
/// other descriptor changes.
pub proof fn replaced_descriptor_is_the_same_file(a: Process, fd: i32, to: i32, r: SysResult, b: Process, other: int)
    requires
        is_open(a, fd as int),
        fd != to,
        0 <= to < a.fds.limit,
        dup3_post(a, fd, to, r, b),
    ensures
        r == ok(to as int),
        is_open(b, to as int),
        file_at(b, to as int) == file_at(a, fd as int),
        other != to ==> is_open(b, other) == is_open(a, other) && (is_open(a, other) ==> file_at(
            b,
            other,
        ) == file_at(a, other)),
{
}

/// A descriptor that was closed is open no more, and every other one stays; closing
/// it again is refused.
pub proof fn closed_is_closed(a: Process, fd: i32, r: SysResult, b: Process, r2: SysResult, c: Process, other: int)
    requires
        is_open(a, fd as int),
        close_post(a, fd, r, b),
        close_post(b, fd, r2, c),
    ensures
        r == ok(0),
        !is_open(b, fd as int),
        other != fd ==> is_open(b, other) == is_open(a, other) && (is_open(a, other) ==> file_at(
            b,
            other,
        ) == file_at(a, other)),
        r2 == err(EBADF),
{
}

/// What opening a node gives: a file of that node, at its start, or at its end with
/// the append flag; a directory and a device are told apart; a named pipe is opened
/// at the end that the access asks for.
pub proof fn opened_node_is_that_node(n: Node, flags: u32, pipe: usize)
    ensures
        n.kind == Kind::File ==> (file_of(n, flags, pipe).obj matches FileObj::Regular {
            inode,
            offset,
        } && inode == n.inode && offset == (if flags & 0x400 != 0 {
            n.size
        } else {
            0
        })),
        n.kind == Kind::Dir ==> (file_of(n, flags, pipe).obj matches FileObj::Dir { inode, offset }
            && inode == n.inode && offset == 0),
        n.kind == Kind::Fifo ==> (file_of(n, flags, pipe).obj matches FileObj::Pipe {
            pipe: p,
            write_end,
        } && p == pipe && write_end == (flags & 3 != 0)),
        truncates(n, flags) <==> flags & 0x200 != 0 && flags & 3 != 0 && n.kind == Kind::File,
{
}

/// Setting the status changes only whether the file blocks (bit 11) and appends (bit
/// 10), to what is asked for.
pub proof fn status_changes_two_bits(status: u32, v: u32)
    ensures
        new_status(status, v) & 0x800 == v & 0x800,
        new_status(status, v) & 0x400 == v & 0x400,
        new_status(status, v) & !0xc00u32 == status & !0xc00u32,
{
    assert(({
        let n = (status & !(0x800u32 | 0x400)) | (v & (0x800u32 | 0x400));
        n & 0x800 == v & 0x800 && n & 0x400 == v & 0x400 && n & !0xc00u32 == status & !0xc00u32
    })) by (bit_vector);
}

/// A pipe has two ends: the first descriptor that is told is the one to read from,
/// the second the one to write to, both of the same pipe.
pub proof fn pipe_has_two_ends(
    pipe: usize,
    at: usize,
    flags: u32,
    a: Process,
    l: Seq<File>,
    m: Map<int, u8>,
    b: Process,
    k: Seq<File>,
    n: Map<int, u8>,
)
    requires
        a.wf(),
        l.len() + 1 < usize::MAX,
        pipe2_post(pipe, at, flags, a, l, m, Ok(0), b, k, n),
    ensures
        k.len() == l.len() + 2,
        k[l.len() as int].obj == (FileObj::Pipe { pipe, write_end: false }),
        k[(l.len() + 1) as int].obj == (FileObj::Pipe { pipe, write_end: true }),
        exists|fd0: int, fd1: int|
            #[trigger] is_open(b, fd0) && #[trigger] is_open(b, fd1) && fd0 != fd1 && file_at(b, fd0)
                == l.len() && file_at(b, fd1) == l.len() + 1 && !is_open(a, fd0) && !is_open(a, fd1),
{
    let (p1, x, l1) = choose|p1: Process, x: Result<i32, i32>, l1: Seq<File>|
        {
            &&& #[trigger] opened(a, l, pipe_end(pipe, false, flags), x, p1, l1)
            &&& match x {
                Err(e) => err(e) == Ok::<usize, i32>(0) && b == p1 && k == l1 && n == m,
                Ok(fd0) => exists|y: Result<i32, i32>|
                    {
                        &&& #[trigger] opened(p1, l1, pipe_end(pipe, true, flags), y, b, k)
                        &&& match y {
                            Err(e) => err(e) == Ok::<usize, i32>(0) && n == m,
                            Ok(fd1) => replied(
                                m,
                                if at <= usize::MAX - 4 {
                                    seq![
                                        num(at, fd0 as nat, 4),
                                        num((at + 4) as usize, fd1 as nat, 4),
                                    ]
                                } else {
                                    seq![num(at, fd0 as nat, 4)]
                                },
                                0,
                                Ok(0),
                                n,
                            ),
                        }
                    },
            }
        };
    assert(x is Ok);
    let y = choose|y: Result<i32, i32>|
        {
            &&& #[trigger] opened(p1, l1, pipe_end(pipe, true, flags), y, b, k)
            &&& y is Ok
        };
    crate::file::free_from_is_lowest(a.fds.entries@, 0);
    crate::file::free_from_is_lowest(p1.fds.entries@, 0);
    opened_is_there(a, l, pipe_end(pipe, false, flags), x, p1, l1);
    assert(p1.wf());
    opened_is_there(p1, l1, pipe_end(pipe, true, flags), y, b, k);
    let (fd0, fd1) = (x->Ok_0 as int, y->Ok_0 as int);
    assert(is_open(p1, fd0));
    assert(is_open(b, fd0) && is_open(b, fd1));
    assert(!is_open(a, fd1)) by {
        if is_open(a, fd1) {
            assert(is_open(p1, fd1));
        }
    }
}

} // verus!
