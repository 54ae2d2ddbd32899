//! File system calls: descriptors, paths and the nodes they lead to.
//!
//! Looking a path up is not done here: a call first says where to look, and goes
//! on with what was found.

use vstd::prelude::*;
use crate::abi::{
    AT_EMPTY_PATH, AT_FDCWD, AT_REMOVEDIR, FIONBIO, O_ACCMODE, O_APPEND, O_CLOEXEC, O_DIRECTORY,
    O_NONBLOCK, O_PATH, O_RDONLY, O_RDWR, O_WRONLY, S_IFDIR, S_IFIFO, S_IFLNK, S_IFMT, S_IFREG,
    S_IFSOCK,
};
use crate::bytes::{le, lemma_le_len, put_le};
use crate::errno::{
    SysResult, EBADF, EEXIST, EFAULT, EINVAL, EISDIR, EMFILE, ENOENT, ENOTDIR, ENOTEMPTY, EPERM,
    ERANGE,
};
use crate::file::{free_from, open_fd, with_fd, FdEntry, FdTable, Fds, OpenFile};
use crate::paths::copy_bytes;
use crate::ramfs::{
    added, child_of, children, is_dir, place_of, with_children, with_meta, KindView, Meta, Node,
    NodeKind, NodeView, Nodes, Tree,
};
use crate::syscall::process::{err, lemma_mapped_stored, ok};
use crate::syscall::transfer::MAX_STR;
use crate::uaccess::{cstr_at, cstr_mapped, field, mapped, num_at, stored, UserMem};

verus! {

/// What the file system calls of a task work on.
pub struct Ctx {
    pub fds: FdTable,
    pub files: Vec<OpenFile>,
    pub nodes: Nodes,
    /// The working directory.
    pub cwd: usize,
    pub umask: u32,
    /// The path of the program that runs.
    pub exe_path: Vec<u8>,
}

impl Ctx {
    pub open spec fn wf(&self) -> bool {
        &&& self.fds.wf()
        &&& self.nodes.wf()
        &&& self.files@.len() < usize::MAX
        &&& self.cwd < self.nodes@.len()
        &&& files_in(self.fds.entries@, self.files@.len() as int)
        &&& nodes_in(self.files@, self.nodes@.len() as int)
    }

    pub open spec fn is_open(&self, fd: i32) -> bool {
        open_fd(self.fds.entries@, fd as int)
    }

    /// The number of the file behind a descriptor.
    pub open spec fn file_no(&self, fd: i32) -> int {
        self.fds.entries@[fd as int]->0.file as int
    }

    pub open spec fn file(&self, fd: i32) -> OpenFile {
        self.files@[self.file_no(fd)]
    }
}

/// Every descriptor refers to one of `n` files.
pub open spec fn files_in(e: Fds, n: int) -> bool {
    forall|fd: int| open_fd(e, fd) ==> (#[trigger] e[fd])->0.file < n
}

/// Every file refers to one of `n` nodes, or to none.
pub open spec fn nodes_in(l: Seq<OpenFile>, n: int) -> bool {
    forall|i: int| 0 <= i < l.len() ==> match (#[trigger] l[i]).node {
        Some(k) => k < n,
        None => true,
    }
}

/// Only the descriptors differ; their limit does not.
pub open spec fn only_fds(a: Ctx, b: Ctx) -> bool {
    b == (Ctx { fds: b.fds, ..a }) && b.fds.limit == a.fds.limit
}

/// Only descriptors and files differ.
pub open spec fn only_files(a: Ctx, b: Ctx) -> bool {
    b == (Ctx { fds: b.fds, files: b.files, ..a }) && b.fds.limit == a.fds.limit
}

/// Only nodes differ.
pub open spec fn only_nodes(a: Ctx, b: Ctx) -> bool {
    b == (Ctx { nodes: b.nodes, ..a })
}

proof fn lemma_with(e: Fds, fd: int, x: FdEntry, n: int)
    requires
        files_in(e, n),
        0 <= fd,
        x.file < n,
    ensures
        files_in(with_fd(e, fd, Some(x)), n),
{
    let b = with_fd(e, fd, Some(x));
    assert forall|k: int| open_fd(b, k) implies (#[trigger] b[k])->0.file < n by {
        if k != fd && k < e.len() {
            assert(b[k] == e[k]);
            assert(open_fd(e, k));
        }
    }
}

proof fn lemma_less(a: Fds, b: Fds, n: int)
    requires
        files_in(a, n),
        forall|k: int| open_fd(b, k) ==> open_fd(a, k) && #[trigger] b[k] == a[k],
    ensures
        files_in(b, n),
{
    assert forall|k: int| open_fd(b, k) implies (#[trigger] b[k])->0.file < n by {
        assert(open_fd(a, k));
        assert(a[k]->0.file < n);
    }
}

/// The file behind a descriptor.
pub fn get_file(c: &Ctx, fd: i32) -> (r: Result<usize, i32>)
    requires
        c.wf(),
    ensures
        match r {
            Ok(f) => c.is_open(fd) && f == c.file_no(fd) && f < c.files@.len(),
            Err(e) => !c.is_open(fd) && e == EBADF,
        },
{
    match c.fds.get(fd) {
        Ok(f) => {
            assert(open_fd(c.fds.entries@, fd as int));
            Ok(f)
        },
        Err(e) => Err(e),
    }
}

/// The directory that a call starts from.
pub open spec fn base_spec(c: Ctx, dirfd: i32) -> Result<usize, i32> {
    if dirfd == AT_FDCWD {
        Ok(c.cwd)
    } else if !c.is_open(dirfd) {
        Err(EBADF)
    } else {
        match c.file(dirfd).node {
            Some(n) => if is_dir(c.nodes@, n as int) {
                Ok(n)
            } else {
                Err(ENOTDIR)
            },
            None => Err(ENOTDIR),
        }
    }
}

pub fn dir_base(c: &Ctx, dirfd: i32) -> (r: Result<usize, i32>)
    requires
        c.wf(),
    ensures
        r == base_spec(*c, dirfd),
{
    if dirfd == AT_FDCWD {
        return Ok(c.cwd);
    }
    match get_file(c, dirfd) {
        Ok(f) => match c.files[f].node {
            Some(n) => {
                if c.nodes.is_dir(n) {
                    Ok(n)
                } else {
                    Err(ENOTDIR)
                }
            },
            None => Err(ENOTDIR),
        },
        Err(e) => Err(e),
    }
}

pub open spec fn path_ok(m: Map<int, u8>, ptr: usize) -> bool {
    cstr_mapped(m, ptr as int, MAX_STR as nat)
}

pub open spec fn path_of(m: Map<int, u8>, ptr: usize) -> Seq<u8> {
    cstr_at(m, ptr as int, MAX_STR as nat)
}

/// Reads a path.
pub fn read_path(mem: &UserMem, ptr: usize) -> (r: Result<Vec<u8>, i32>)
    ensures
        match r {
            Ok(s) => path_ok(mem@, ptr) && s@ == path_of(mem@, ptr),
            Err(e) => !path_ok(mem@, ptr) && e == EFAULT,
        },
{
    mem.read_cstr(ptr, MAX_STR)
}

/// Where a path is to be looked up.
#[derive(Clone, Copy, PartialEq, Eq, Structural, Debug)]
pub enum Start {
    /// The path is empty and this is the node meant.
    Node(usize),
    /// From this directory.
    From(usize),
}

/// Where to look for a path; with the flag for it, an empty path means the
/// descriptor itself.
pub open spec fn start_spec(c: Ctx, dirfd: i32, path: Seq<u8>, flags: u32) -> Result<Start, i32> {
    if path.len() == 0 && flags & AT_EMPTY_PATH != 0 {
        if dirfd == AT_FDCWD {
            Ok(Start::Node(c.cwd))
        } else if !c.is_open(dirfd) {
            Err(EBADF)
        } else {
            match c.file(dirfd).node {
                Some(n) => Ok(Start::Node(n)),
                None => Err(ENOENT),
            }
        }
    } else {
        match base_spec(c, dirfd) {
            Ok(b) => Ok(Start::From(b)),
            Err(e) => Err(e),
        }
    }
}

pub fn lookup_at(c: &Ctx, dirfd: i32, path: &Vec<u8>, flags: u32) -> (r: Result<Start, i32>)
    requires
        c.wf(),
    ensures
        r == start_spec(*c, dirfd, path@, flags),
{
    if path.len() == 0 && flags & AT_EMPTY_PATH != 0 {
        if dirfd == AT_FDCWD {
            return Ok(Start::Node(c.cwd));
        }
        return match get_file(c, dirfd) {
            Ok(f) => match c.files[f].node {
                Some(n) => Ok(Start::Node(n)),
                None => Err(ENOENT),
            },
            Err(e) => Err(e),
        };
    }
    match dir_base(c, dirfd) {
        Ok(b) => Ok(Start::From(b)),
        Err(e) => Err(e),
    }
}

/// A path and where to look for it.
pub struct PathAt {
    pub start: Start,
    pub path: Vec<u8>,
}

pub open spec fn path_at_post(
    c: Ctx,
    m: Map<int, u8>,
    dirfd: i32,
    ptr: usize,
    flags: u32,
    r: Result<PathAt, i32>,
) -> bool {
    if !path_ok(m, ptr) {
        r is Err && r->Err_0 == EFAULT
    } else {
        match start_spec(c, dirfd, path_of(m, ptr), flags) {
            Ok(s) => r is Ok && r->Ok_0.start == s && r->Ok_0.path@ == path_of(m, ptr),
            Err(e) => r is Err && r->Err_0 == e,
        }
    }
}

/// Reads a path and finds out where to look for it: what the calls on paths
/// begin with.
pub fn path_at(c: &Ctx, mem: &UserMem, dirfd: i32, ptr: usize, flags: u32) -> (r: Result<PathAt, i32>)
    requires
        c.wf(),
    ensures
        path_at_post(*c, mem@, dirfd, ptr, flags, r),
{
    let path: Vec<u8> = match read_path(mem, ptr) {
        Ok(s) => s,
        Err(e) => {
            return Err(e);
        },
    };
    match lookup_at(c, dirfd, &path, flags) {
        Ok(start) => Ok(PathAt { start, path }),
        Err(e) => Err(e),
    }
}

/// A descriptor from `min` on for file `f`.
pub open spec fn alloc_post(a: Ctx, f: int, cloexec: bool, min: usize, r: SysResult, b: Ctx) -> bool {
    let fd = free_from(a.fds.entries@, min as int);
    &&& only_fds(a, b)
    &&& if fd < a.fds.limit {
        &&& r == ok(fd)
        &&& b.fds.entries@ == with_fd(
            a.fds.entries@,
            fd,
            Some(FdEntry { file: f as usize, cloexec }),
        )
    } else {
        r == err(EMFILE) && b.fds.entries@ == a.fds.entries@
    }
}

pub fn alloc_from(c: &mut Ctx, f: usize, cloexec: bool, min: usize) -> (r: SysResult)
    requires
        old(c).wf(),
        f < old(c).files@.len(),
    ensures
        final(c).wf(),
        alloc_post(*old(c), f as int, cloexec, min, r, *final(c)),
        r is Ok ==> r->Ok_0 == free_from(old(c).fds.entries@, min as int),
        r is Ok ==> r->Ok_0 < 65536 && final(c).is_open(r->Ok_0 as i32),
{
    proof {
        crate::file::free_from_is_lowest(c.fds.entries@, min as int);
        lemma_with(
            c.fds.entries@,
            free_from(c.fds.entries@, min as int),
            FdEntry { file: f, cloexec },
            c.files@.len() as int,
        );
        crate::file::allocated_is_open(
            c.fds.entries@,
            min as int,
            FdEntry { file: f, cloexec },
            0,
        );
    }
    match c.fds.alloc_fd(f, cloexec, min) {
        Ok(fd) => Ok(fd as usize),
        Err(e) => Err(e),
    }
}

/// A new file with the lowest descriptor. Without a free descriptor it is gone
/// again.
pub open spec fn install_post(a: Ctx, f: OpenFile, cloexec: bool, r: SysResult, b: Ctx) -> bool {
    let fd = free_from(a.fds.entries@, 0);
    &&& only_files(a, b)
    &&& if fd < a.fds.limit {
        &&& r == ok(fd)
        &&& b.files@ == a.files@.push(f)
        &&& b.fds.entries@ == with_fd(
            a.fds.entries@,
            fd,
            Some(FdEntry { file: a.files@.len() as usize, cloexec }),
        )
    } else {
        r == err(EMFILE) && b.fds.entries@ == a.fds.entries@ && b.files@ == a.files@
    }
}

/// Gives a new file a descriptor.
pub fn install_fd(c: &mut Ctx, f: OpenFile, cloexec: bool) -> (r: SysResult)
    requires
        old(c).wf(),
        old(c).files@.len() + 1 < usize::MAX,
        f.node is Some ==> f.node->0 < old(c).nodes@.len(),
    ensures
        final(c).wf(),
        install_post(*old(c), f, cloexec, r, *final(c)),
        r is Ok ==> r->Ok_0 == free_from(old(c).fds.entries@, 0),
        r is Ok ==> r->Ok_0 < 65536 && final(c).is_open(r->Ok_0 as i32),
        final(c).files@.len() <= old(c).files@.len() + 1,
{
    let ghost a = *c;
    let n: usize = c.files.len();
    c.files.push(f);
    proof {
        assert(files_in(c.fds.entries@, c.files@.len() as int)) by {
            assert forall|fd: int| open_fd(c.fds.entries@, fd) implies (
            #[trigger] c.fds.entries@[fd])->0.file < c.files@.len() by {
                assert(a.fds.entries@[fd]->0.file < a.files@.len());
            }
        }
        assert(nodes_in(c.files@, c.nodes@.len() as int)) by {
            assert forall|i: int| 0 <= i < c.files@.len() implies match (#[trigger] c.files@[i]).node {
                Some(k) => k < c.nodes@.len(),
                None => true,
            } by {
                if i < a.files@.len() {
                    assert(c.files@[i] == a.files@[i]);
                }
            }
        }
    }
    let r: SysResult = alloc_from(c, n, cloexec, 0);
    match r {
        Ok(_) => {},
        Err(_) => {
            c.files.pop();
            proof {
                assert(c.files@ =~= a.files@);
            }
        },
    }
    r
}

/// The node of a file, if it is a directory.
pub open spec fn on_dir(c: Ctx, f: OpenFile) -> bool {
    f.node is Some && is_dir(c.nodes@, f.node->0 as int)
}

/// Opens what the file system layer opened for a path.
pub fn sys_openat(c: &mut Ctx, file: Result<OpenFile, i32>, flags: u32) -> (r: SysResult)
    requires
        old(c).wf(),
        old(c).files@.len() + 1 < usize::MAX,
        file is Ok && file->Ok_0.node is Some ==> file->Ok_0.node->0 < old(c).nodes@.len(),
    ensures
        final(c).wf(),
        match file {
            Err(e) => r == err(e) && *final(c) == *old(c),
            Ok(f) => if flags & O_DIRECTORY != 0 && !on_dir(*old(c), f) {
                r == err(ENOTDIR) && *final(c) == *old(c)
            } else {
                install_post(*old(c), f, flags & O_CLOEXEC != 0, r, *final(c))
            },
        },
{
    match file {
        Err(e) => Err(e),
        Ok(f) => {
            if flags & O_DIRECTORY != 0 {
                let dir: bool = match f.node {
                    Some(n) => c.nodes.is_dir(n),
                    None => false,
                };
                if !dir {
                    return Err(ENOTDIR);
                }
            }
            install_fd(c, f, flags & O_CLOEXEC != 0)
        },
    }
}

pub fn sys_close(c: &mut Ctx, fd: i32) -> (r: SysResult)
    requires
        old(c).wf(),
    ensures
        final(c).wf(),
        only_fds(*old(c), *final(c)),
        if old(c).is_open(fd) {
            r == ok(0) && final(c).fds.entries@ == old(c).fds.entries@.update(fd as int, None)
        } else {
            r == err(EBADF) && final(c).fds.entries@ == old(c).fds.entries@
        },
{
    let ghost e = c.fds.entries@;
    match c.fds.close(fd) {
        Ok(_) => {
            proof {
                lemma_less(e, c.fds.entries@, c.files@.len() as int);
            }
            Ok(0)
        },
        Err(e) => Err(e),
    }
}

/// Descriptors `[from, to]` closed.
pub open spec fn closed_between(e: Fds, from: int, to: int) -> Fds {
    Seq::new(
        e.len(),
        |i: int|
            if from <= i <= to {
                None
            } else {
                e[i]
            },
    )
}

/// Closes a range of descriptors, up to number 4095.
pub fn sys_close_range(c: &mut Ctx, first: u32, last: u32) -> (r: SysResult)
    requires
        old(c).wf(),
    ensures
        r == ok(0),
        final(c).wf(),
        only_fds(*old(c), *final(c)),
        final(c).fds.entries@ == closed_between(
            old(c).fds.entries@,
            first as int,
            if last < 4095 {
                last as int
            } else {
                4095
            },
        ),
{
    let to: u32 = if last < 4095 {
        last
    } else {
        4095
    };
    let ghost e = c.fds.entries@;
    let ghost a = *c;
    let mut fd: u32 = first;
    proof {
        assert(closed_between(e, first as int, first - 1) =~= e);
    }
    while fd <= to
        invariant
            first <= fd,
            fd <= to + 1 || fd == first,
            to <= 4095,
            c.wf(),
            only_fds(a, *c),
            c.fds.entries@ == closed_between(e, first as int, fd - 1),
        decreases to + 1 - fd,
    {
        let ghost before = c.fds.entries@;
        let _ = sys_close(c, fd as i32);
        proof {
            let n = closed_between(e, first as int, fd as int);
            assert(c.fds.entries@ =~= n) by {
                if !open_fd(before, fd as int) && fd < before.len() {
                    assert(before[fd as int] is None);
                }
            }
        }
        fd = fd + 1;
    }
    proof {
        assert(c.fds.entries@ =~= closed_between(e, first as int, to as int));
    }
    Ok(0)
}

/// The node that a lookup found, for calls that only ask whether it is there.
pub fn sys_faccessat(found: Result<usize, i32>) -> (r: SysResult)
    ensures
        r == (match found {
            Ok(_) => ok(0),
            Err(e) => err(e),
        }),
{
    match found {
        Ok(_) => Ok(0),
        Err(e) => Err(e),
    }
}

pub open spec fn cut(s: Seq<u8>, n: usize) -> Seq<u8> {
    if s.len() < n {
        s
    } else {
        s.take(n as int)
    }
}

/// As much of a text as there is room for.
fn tell_text(mem: &mut UserMem, s: &Vec<u8>, buf: usize, size: usize) -> (r: SysResult)
    ensures
        ({
            let t = cut(s@, size);
            if mapped(old(mem)@, buf as int, t.len() as int) {
                r == ok(t.len() as int) && final(mem)@ == stored(old(mem)@, buf as int, t)
            } else {
                r == err(EFAULT) && final(mem)@ == old(mem)@
            }
        }),
{
    let n: usize = if s.len() < size {
        s.len()
    } else {
        size
    };
    let mut t: Vec<u8> = Vec::new();
    let mut i: usize = 0;
    while i < n
        invariant
            i <= n <= s@.len(),
            t@ == s@.take(i as int),
        decreases n - i,
    {
        t.push(s[i]);
        i = i + 1;
        proof {
            assert(t@ =~= s@.take(i as int));
        }
    }
    proof {
        assert(t@ =~= cut(s@, size));
    }
    match mem.copy_to_user(buf, &t) {
        Ok(_) => Ok(n),
        Err(e) => Err(e),
    }
}

/// `/proc/self/exe`.
pub open spec fn self_exe() -> Seq<u8> {
    seq![47u8, 112, 114, 111, 99, 47, 115, 101, 108, 102, 47, 101, 120, 101]
}

/// Whether a link is asked for that leads to the running program; an empty path
/// does too.
pub fn is_self_exe(path: &Vec<u8>) -> (r: bool)
    ensures
        r == (path@.len() == 0 || path@ == self_exe()),
{
    let s: Vec<u8> = vec![47, 112, 114, 111, 99, 47, 115, 101, 108, 102, 47, 101, 120, 101];
    proof {
        assert(s@ =~= self_exe());
    }
    path.len() == 0 || crate::paths::bytes_eq(path, &s)
}

/// Tells where a link leads. `found` is the node of the path, which is not
/// looked at for a link to the running program.
pub fn sys_readlinkat(
    c: &Ctx,
    mem: &mut UserMem,
    path: &Vec<u8>,
    found: Result<usize, i32>,
    buf: usize,
    size: usize,
) -> (r: SysResult)
    requires
        c.wf(),
        found is Ok ==> found->Ok_0 < c.nodes@.len(),
    ensures
        ({
            let told = |t: Seq<u8>|
                {
                    if mapped(old(mem)@, buf as int, t.len() as int) {
                        r == ok(t.len() as int) && final(mem)@ == stored(
                            old(mem)@,
                            buf as int,
                            t,
                        )
                    } else {
                        r == err(EFAULT) && final(mem)@ == old(mem)@
                    }
                };
            if path@.len() == 0 || path@ == self_exe() {
                told(cut(c.exe_path@, size))
            } else {
                match found {
                    Err(e) => r == err(e) && final(mem)@ == old(mem)@,
                    Ok(n) => match c.nodes@[n as int].kind {
                        KindView::Symlink(t) => told(cut(t, size)),
                        _ => r == err(EINVAL) && final(mem)@ == old(mem)@,
                    },
                }
            }
        }),
{
    if is_self_exe(path) {
        return tell_text(mem, &c.exe_path, buf, size);
    }
    match found {
        Err(e) => Err(e),
        Ok(n) => match &c.nodes.list[n].kind {
            NodeKind::Symlink(t) => tell_text(mem, t, buf, size),
            _ => Err(EINVAL),
        },
    }
}

/// Tells the path of the working directory with a final zero.
pub fn sys_getcwd(mem: &mut UserMem, path: &Vec<u8>, buf: usize, size: usize) -> (r: SysResult)
    requires
        path@.len() < usize::MAX,
    ensures
        ({
            let n = path@.len() as int;
            let m1 = stored(old(mem)@, buf as int, path@);
            if n + 1 > size {
                r == err(ERANGE) && final(mem)@ == old(mem)@
            } else if !mapped(old(mem)@, buf as int, n) {
                r == err(EFAULT) && final(mem)@ == old(mem)@
            } else if !mapped(old(mem)@, buf + n, 1) {
                r == err(EFAULT) && final(mem)@ == m1
            } else {
                r == ok(n + 1) && final(mem)@ == stored(m1, buf + n, seq![0u8])
            }
        }),
{
    let n: usize = path.len();
    if n + 1 > size {
        return Err(ERANGE);
    }
    let ghost m = mem@;
    proof {
        lemma_mapped_stored(m, buf as int, path@);
        mem.lemma_in_space();
    }
    match mem.copy_to_user(buf, path) {
        Ok(_) => {},
        Err(e) => {
            return Err(e);
        },
    }
    let z: Vec<u8> = vec![0];
    proof {
        assert(z@ =~= seq![0u8]);
    }
    match buf.checked_add(n) {
        Some(at) => match mem.copy_to_user(at, &z) {
            Ok(_) => Ok(n + 1),
            Err(e) => Err(e),
        },
        None => {
            assert(!m.dom().contains(buf + n));
            Err(EFAULT)
        },
    }
}

/// Changes the working directory to the node that a lookup found.
pub fn sys_chdir(c: &mut Ctx, found: Result<usize, i32>) -> (r: SysResult)
    requires
        old(c).wf(),
    ensures
        final(c).wf(),
        match found {
            Err(e) => r == err(e) && *final(c) == *old(c),
            Ok(n) => if is_dir(old(c).nodes@, n as int) {
                r == ok(0) && *final(c) == (Ctx { cwd: n, ..*old(c) })
            } else {
                r == err(ENOTDIR) && *final(c) == *old(c)
            },
        },
{
    match found {
        Err(e) => Err(e),
        Ok(n) => {
            if !c.nodes.is_dir(n) {
                return Err(ENOTDIR);
            }
            c.cwd = n;
            Ok(0)
        },
    }
}

/// Changes the working directory to an open directory.
pub fn sys_fchdir(c: &mut Ctx, fd: i32) -> (r: SysResult)
    requires
        old(c).wf(),
    ensures
        final(c).wf(),
        if !old(c).is_open(fd) {
            r == err(EBADF) && *final(c) == *old(c)
        } else if on_dir(*old(c), old(c).file(fd)) {
            r == ok(0) && *final(c) == (Ctx { cwd: old(c).file(fd).node->0, ..*old(c) })
        } else {
            r == err(ENOTDIR) && *final(c) == *old(c)
        },
{
    match get_file(c, fd) {
        Ok(f) => match c.files[f].node {
            Some(n) => sys_chdir(c, Ok(n)),
            None => Err(ENOTDIR),
        },
        Err(e) => Err(e),
    }
}

/// A directory and a name in it, as a lookup of the parent of a path gives them.
pub struct Slot {
    pub dir: usize,
    pub name: Vec<u8>,
}

/// A new node in a place that must be free.
pub open spec fn made(
    a: Ctx,
    dir: usize,
    name: Seq<u8>,
    meta: Meta,
    kind: KindView,
    r: SysResult,
    b: Ctx,
) -> bool {
    &&& only_nodes(a, b)
    &&& if child_of(a.nodes@, dir as int, name) is Some {
        r == err(EEXIST) && b.nodes@ == a.nodes@
    } else if !is_dir(a.nodes@, dir as int) {
        r == err(ENOTDIR) && b.nodes@ == a.nodes@
    } else {
        r == ok(0) && b.nodes@ == added(a.nodes@, dir as int, NodeView { name, meta, kind })
    }
}

fn make(c: &mut Ctx, dir: usize, name: Vec<u8>, meta: Meta, kind: NodeKind) -> (r: SysResult)
    requires
        old(c).wf(),
        old(c).nodes@.len() + 1 < usize::MAX,
        kind is Dir ==> kind->Dir_0@.len() == 0,
    ensures
        final(c).wf(),
        made(*old(c), dir, name@, meta, kind@, r, *final(c)),
{
    if c.nodes.lookup_child(dir, &name).is_some() {
        return Err(EEXIST);
    }
    let ghost n = c.nodes@.len();
    match c.nodes.add_new(dir, name, meta, kind) {
        Ok(_) => {
            proof {
                lemma_more_nodes(c.files@, n as int, c.nodes@.len() as int);
            }
            Ok(0)
        },
        Err(e) => Err(e),
    }
}

proof fn lemma_more_nodes(l: Seq<OpenFile>, n: int, m: int)
    requires
        nodes_in(l, n),
        n <= m,
    ensures
        nodes_in(l, m),
{
    assert forall|i: int| 0 <= i < l.len() implies match (#[trigger] l[i]).node {
        Some(k) => k < m,
        None => true,
    } by {}
}

/// The attributes of a new node.
pub open spec fn new_meta(mode: u32, now: i64) -> Meta {
    Meta { mode, uid: 0, gid: 0, atime: now, mtime: now, ctime: now }
}

fn fresh_meta(mode: u32, now: i64) -> (r: Meta)
    ensures
        r == new_meta(mode, now),
{
    Meta { mode, uid: 0, gid: 0, atime: now, mtime: now, ctime: now }
}

/// Makes a directory, with the permissions that the mask leaves.
pub fn sys_mkdirat(c: &mut Ctx, parent: Result<Slot, i32>, mode: u32, now: i64) -> (r: SysResult)
    requires
        old(c).wf(),
        old(c).nodes@.len() + 1 < usize::MAX,
    ensures
        final(c).wf(),
        match parent {
            Err(e) => r == err(e) && *final(c) == *old(c),
            Ok(s) => made(
                *old(c),
                s.dir,
                s.name@,
                new_meta(S_IFDIR | (mode & !old(c).umask), now),
                KindView::Dir(Seq::empty()),
                r,
                *final(c),
            ),
        },
{
    match parent {
        Err(e) => Err(e),
        Ok(s) => {
            let l: Vec<usize> = Vec::new();
            assert(l@ =~= Seq::empty());
            let meta: Meta = fresh_meta(S_IFDIR | (mode & !c.umask), now);
            make(c, s.dir, s.name, meta, NodeKind::Dir(l))
        },
    }
}

/// The kind of a special node that is asked for: regular files, also where none
/// is named, pipes and sockets can be made.
pub open spec fn node_kind(mode: u32) -> Option<KindView> {
    let f = mode & S_IFMT;
    if f == S_IFREG || f == 0 {
        Some(KindView::File(Seq::empty()))
    } else if f == S_IFIFO {
        Some(KindView::Fifo)
    } else if f == S_IFSOCK {
        Some(KindView::Socket)
    } else {
        None
    }
}

/// Makes a node.
pub fn sys_mknodat(c: &mut Ctx, parent: Result<Slot, i32>, mode: u32, now: i64) -> (r: SysResult)
    requires
        old(c).wf(),
        old(c).nodes@.len() + 1 < usize::MAX,
    ensures
        final(c).wf(),
        match parent {
            Err(e) => r == err(e) && *final(c) == *old(c),
            Ok(s) => match node_kind(mode) {
                None => *final(c) == *old(c) && r == err(
                    if child_of(old(c).nodes@, s.dir as int, s.name@) is Some {
                        EEXIST
                    } else {
                        EPERM
                    },
                ),
                Some(k) => made(
                    *old(c),
                    s.dir,
                    s.name@,
                    new_meta(
                        if mode & S_IFMT == 0 {
                            S_IFREG | mode
                        } else {
                            mode
                        },
                        now,
                    ),
                    k,
                    r,
                    *final(c),
                ),
            },
        },
{
    match parent {
        Err(e) => Err(e),
        Ok(s) => {
            let f: u32 = mode & S_IFMT;
            let kind: NodeKind = if f == S_IFREG || f == 0 {
                let d: Vec<u8> = Vec::new();
                assert(d@ =~= Seq::empty());
                NodeKind::File(d)
            } else if f == S_IFIFO {
                NodeKind::Fifo
            } else if f == S_IFSOCK {
                NodeKind::Socket
            } else {
                if c.nodes.lookup_child(s.dir, &s.name).is_some() {
                    return Err(EEXIST);
                }
                return Err(EPERM);
            };
            let m: u32 = if f == 0 {
                S_IFREG | mode
            } else {
                mode
            };
            make(c, s.dir, s.name, fresh_meta(m, now), kind)
        },
    }
}

/// The name can be taken out: directories only when they are empty and only
/// where that is asked for.
pub open spec fn unlink_spec(t: Tree, dir: usize, name: Seq<u8>, flags: u32) -> Option<i32> {
    match child_of(t, dir as int, name) {
        None => Some(ENOENT),
        Some(n) => if flags & AT_REMOVEDIR != 0 {
            if !is_dir(t, n as int) {
                Some(ENOTDIR)
            } else if children(t, n as int).len() > 0 {
                Some(ENOTEMPTY)
            } else {
                None
            }
        } else if is_dir(t, n as int) {
            Some(EISDIR)
        } else {
            None
        },
    }
}

/// The tree without a name.
pub open spec fn unlinked(t: Tree, dir: usize, name: Seq<u8>) -> Tree {
    with_children(
        t,
        dir as int,
        children(t, dir as int).remove(place_of(t, dir as int, name)->0),
    )
}

fn has_children(c: &Ctx, n: usize) -> (r: bool)
    requires
        n < c.nodes@.len(),
    ensures
        r == (is_dir(c.nodes@, n as int) && children(c.nodes@, n as int).len() > 0),
{
    match &c.nodes.list[n].kind {
        NodeKind::Dir(l) => l.len() > 0,
        _ => false,
    }
}

/// Takes a name out of its directory.
pub fn sys_unlinkat(c: &mut Ctx, parent: Result<Slot, i32>, flags: u32) -> (r: SysResult)
    requires
        old(c).wf(),
    ensures
        final(c).wf(),
        only_nodes(*old(c), *final(c)),
        match parent {
            Err(e) => r == err(e) && final(c).nodes@ == old(c).nodes@,
            Ok(s) => match unlink_spec(old(c).nodes@, s.dir, s.name@, flags) {
                Some(e) => r == err(e) && final(c).nodes@ == old(c).nodes@,
                None => r == ok(0) && final(c).nodes@ == unlinked(
                    old(c).nodes@,
                    s.dir,
                    s.name@,
                ),
            },
        },
{
    match parent {
        Err(e) => Err(e),
        Ok(s) => {
            let n: usize = match c.nodes.lookup_child(s.dir, &s.name) {
                Some(n) => n,
                None => {
                    return Err(ENOENT);
                },
            };
            if flags & AT_REMOVEDIR != 0 {
                if !c.nodes.is_dir(n) {
                    return Err(ENOTDIR);
                }
                if has_children(c, n) {
                    return Err(ENOTEMPTY);
                }
            } else if c.nodes.is_dir(n) {
                return Err(EISDIR);
            }
            match c.nodes.remove_child(s.dir, &s.name) {
                Ok(_) => Ok(0),
                Err(e) => Err(e),
            }
        },
    }
}

/// Makes a symbolic link with a text.
pub fn sys_symlinkat(c: &mut Ctx, target: Vec<u8>, parent: Result<Slot, i32>, now: i64) -> (r: SysResult)
    requires
        old(c).wf(),
        old(c).nodes@.len() + 1 < usize::MAX,
    ensures
        final(c).wf(),
        match parent {
            Err(e) => r == err(e) && *final(c) == *old(c),
            Ok(s) => made(
                *old(c),
                s.dir,
                s.name@,
                new_meta(S_IFLNK | 0o777, now),
                KindView::Symlink(target@),
                r,
                *final(c),
            ),
        },
{
    match parent {
        Err(e) => Err(e),
        Ok(s) => make(
            c,
            s.dir,
            s.name,
            fresh_meta(S_IFLNK | 0o777, now),
            NodeKind::Symlink(target),
        ),
    }
}

/// Makes a second name for a file, which gets a copy of its bytes.
pub fn sys_linkat(c: &mut Ctx, found: Result<usize, i32>, parent: Result<Slot, i32>, now: i64) -> (r:
    SysResult)
    requires
        old(c).wf(),
        old(c).nodes@.len() + 1 < usize::MAX,
        found is Ok ==> found->Ok_0 < old(c).nodes@.len(),
    ensures
        final(c).wf(),
        match (found, parent) {
            (Err(e), _) => r == err(e) && *final(c) == *old(c),
            (Ok(_), Err(e)) => r == err(e) && *final(c) == *old(c),
            (Ok(n), Ok(s)) => match old(c).nodes@[n as int].kind {
                KindView::File(d) => made(
                    *old(c),
                    s.dir,
                    s.name@,
                    new_meta(old(c).nodes@[n as int].meta.mode, now),
                    KindView::File(d),
                    r,
                    *final(c),
                ),
                _ => *final(c) == *old(c) && r == err(
                    if child_of(old(c).nodes@, s.dir as int, s.name@) is Some {
                        EEXIST
                    } else {
                        EPERM
                    },
                ),
            },
        },
{
    let n: usize = match found {
        Ok(n) => n,
        Err(e) => {
            return Err(e);
        },
    };
    let s: Slot = match parent {
        Ok(s) => s,
        Err(e) => {
            return Err(e);
        },
    };
    let mode: u32 = c.nodes.list[n].meta.mode;
    let copy: Vec<u8> = match &c.nodes.list[n].kind {
        NodeKind::File(d) => copy_bytes(d),
        _ => {
            if c.nodes.lookup_child(s.dir, &s.name).is_some() {
                return Err(EEXIST);
            }
            return Err(EPERM);
        },
    };
    make(c, s.dir, s.name, fresh_meta(mode, now), NodeKind::File(copy))
}

/// The outcome of a renaming that makes no difference or is refused.
pub open spec fn rename_check(t: Tree, o: usize, on: Seq<u8>, n: usize, nn: Seq<u8>) -> Option<SysResult> {
    match child_of(t, o as int, on) {
        None => Some(err(ENOENT)),
        Some(d) => match child_of(t, n as int, nn) {
            None => None,
            Some(x) => if x == d {
                Some(ok(0))
            } else if is_dir(t, x as int) && children(t, x as int).len() > 0 {
                Some(err(ENOTEMPTY))
            } else {
                None
            },
        },
    }
}

/// The tree without what had the new name before.
pub open spec fn cleared(t: Tree, n: usize, nn: Seq<u8>) -> Tree {
    if child_of(t, n as int, nn) is Some {
        unlinked(t, n, nn)
    } else {
        t
    }
}

/// The tree after node `d` was taken out of its directory and got a new name.
pub open spec fn taken(t: Tree, o: usize, on: Seq<u8>, d: usize, nn: Seq<u8>) -> Tree {
    let u = unlinked(t, o, on);
    u.update(d as int, NodeView { name: nn, ..u[d as int] })
}

pub open spec fn rename_post(
    t: Tree,
    o: usize,
    on: Seq<u8>,
    n: usize,
    nn: Seq<u8>,
    r: SysResult,
    u: Tree,
) -> bool {
    let d = child_of(t, o as int, on);
    let t1 = cleared(t, n, nn);
    match rename_check(t, o, on, n, nn) {
        Some(x) => r == x && u == t,
        None => if child_of(t1, o as int, on) is None {
            r == err(ENOENT) && u == t1
        } else {
            let t2 = taken(t1, o, on, d->0, nn);
            if is_dir(t2, n as int) {
                r == ok(0) && u == with_children(t2, n as int, children(t2, n as int).push(d->0))
            } else {
                r == err(ENOTDIR) && u == t2
            }
        },
    }
}

/// Gives a node another name in the same or another directory. What had that
/// name goes, unless it is a directory that is not empty.
pub fn sys_renameat(c: &mut Ctx, oldp: Result<Slot, i32>, newp: Result<Slot, i32>) -> (r: SysResult)
    requires
        old(c).wf(),
    ensures
        final(c).wf(),
        only_nodes(*old(c), *final(c)),
        match (oldp, newp) {
            (Err(e), _) => r == err(e) && final(c).nodes@ == old(c).nodes@,
            (Ok(_), Err(e)) => r == err(e) && final(c).nodes@ == old(c).nodes@,
            (Ok(a), Ok(b)) => rename_post(
                old(c).nodes@,
                a.dir,
                a.name@,
                b.dir,
                b.name@,
                r,
                final(c).nodes@,
            ),
        },
{
    let a: Slot = match oldp {
        Ok(a) => a,
        Err(e) => {
            return Err(e);
        },
    };
    let b: Slot = match newp {
        Ok(b) => b,
        Err(e) => {
            return Err(e);
        },
    };
    let d: usize = match c.nodes.lookup_child(a.dir, &a.name) {
        Some(d) => d,
        None => {
            return Err(ENOENT);
        },
    };
    match c.nodes.lookup_child(b.dir, &b.name) {
        Some(x) => {
            if x == d {
                return Ok(0);
            }
            if has_children(c, x) {
                return Err(ENOTEMPTY);
            }
            match c.nodes.remove_child(b.dir, &b.name) {
                Ok(_) => {},
                Err(e) => {
                    return Err(e);
                },
            }
        },
        None => {},
    }
    match c.nodes.remove_child(a.dir, &a.name) {
        Ok(_) => {},
        Err(e) => {
            return Err(e);
        },
    }
    c.nodes.set_name(d, b.name);
    match c.nodes.add_child(b.dir, d) {
        Ok(_) => Ok(0),
        Err(e) => Err(e),
    }
}

/// Bytes cut or filled with zeros to a length.
pub open spec fn resized(d: Seq<u8>, n: int) -> Seq<u8> {
    if n <= d.len() {
        d.take(n)
    } else {
        d + crate::bytes::zeros((n - d.len()) as nat)
    }
}

fn resize(d: &Vec<u8>, n: usize) -> (r: Vec<u8>)
    ensures
        r@ == resized(d@, n as int),
{
    let len: usize = d.len();
    let keep: usize = if n < len {
        n
    } else {
        len
    };
    let mut r: Vec<u8> = Vec::new();
    let mut i: usize = 0;
    while i < keep
        invariant
            i <= keep <= d@.len(),
            r@ == d@.take(i as int),
        decreases keep - i,
    {
        r.push(d[i]);
        i = i + 1;
        proof {
            assert(r@ =~= d@.take(i as int));
        }
    }
    crate::bytes::put_zeros(&mut r, n - keep);
    proof {
        assert(r@ =~= resized(d@, n as int));
    }
    r
}

/// Cuts or extends the file that a lookup found; a negative length is 0.
pub fn sys_truncate(c: &mut Ctx, found: Result<usize, i32>, len: i64) -> (r: SysResult)
    requires
        old(c).wf(),
        found is Ok ==> found->Ok_0 < old(c).nodes@.len(),
    ensures
        final(c).wf(),
        only_nodes(*old(c), *final(c)),
        match found {
            Err(e) => r == err(e) && final(c).nodes@ == old(c).nodes@,
            Ok(n) => match old(c).nodes@[n as int].kind {
                KindView::File(d) => r == ok(0) && final(c).nodes@ == old(c).nodes@.update(
                    n as int,
                    NodeView {
                        kind: KindView::File(
                            resized(
                                d,
                                if len < 0 {
                                    0
                                } else {
                                    len as usize as int
                                },
                            ),
                        ),
                        ..old(c).nodes@[n as int]
                    },
                ),
                KindView::Dir(_) => r == err(EISDIR) && final(c).nodes@ == old(c).nodes@,
                _ => r == err(EINVAL) && final(c).nodes@ == old(c).nodes@,
            },
        },
{
    let n: usize = match found {
        Ok(n) => n,
        Err(e) => {
            return Err(e);
        },
    };
    let size: usize = if len < 0 {
        0
    } else {
        len as usize
    };
    let d: Vec<u8> = match &c.nodes.list[n].kind {
        NodeKind::File(d) => resize(d, size),
        NodeKind::Dir(_) => {
            return Err(EISDIR);
        },
        _ => {
            return Err(EINVAL);
        },
    };
    c.nodes.set_data(n, d);
    Ok(0)
}

/// Which file is to be cut or extended, and to which length.
pub fn sys_ftruncate(c: &Ctx, fd: i32, len: i64) -> (r: Result<(usize, u64), i32>)
    requires
        c.wf(),
    ensures
        r == (if !c.is_open(fd) {
            Err::<(usize, u64), i32>(EBADF)
        } else if len < 0 {
            Err::<(usize, u64), i32>(EINVAL)
        } else {
            Ok::<(usize, u64), i32>((c.file_no(fd) as usize, len as u64))
        }),
{
    match get_file(c, fd) {
        Ok(f) => {
            if len < 0 {
                return Err(EINVAL);
            }
            Ok((f, len as u64))
        },
        Err(e) => Err(e),
    }
}

/// Whether a file of `size` bytes is to be extended, and to which length.
pub fn sys_fallocate(c: &Ctx, fd: i32, size: u64, off: i64, len: i64) -> (r: Result<Option<(usize, u64)>, i32>)
    requires
        c.wf(),
        0 <= off + len <= i64::MAX,
    ensures
        r == (if !c.is_open(fd) {
            Err::<Option<(usize, u64)>, i32>(EBADF)
        } else if size < off + len {
            Ok::<Option<(usize, u64)>, i32>(Some((c.file_no(fd) as usize, (off + len) as u64)))
        } else {
            Ok::<Option<(usize, u64)>, i32>(None)
        }),
{
    match get_file(c, fd) {
        Ok(f) => {
            let end: u64 = (off + len) as u64;
            if size < end {
                return Ok(Some((f, end)));
            }
            Ok(None)
        },
        Err(e) => Err(e),
    }
}

/// Attributes with other permissions; the type stays.
pub open spec fn chmodded(m: Meta, mode: u32) -> Meta {
    Meta { mode: (m.mode & S_IFMT) | (mode & 0o7777), ..m }
}

/// Attributes with other owners; the largest number leaves one alone.
pub open spec fn chowned(m: Meta, uid: u32, gid: u32) -> Meta {
    Meta {
        uid: if uid != u32::MAX {
            uid
        } else {
            m.uid
        },
        gid: if gid != u32::MAX {
            gid
        } else {
            m.gid
        },
        ..m
    }
}

/// Sets the permissions of the node that a lookup found.
pub fn sys_fchmodat(c: &mut Ctx, found: Result<usize, i32>, mode: u32) -> (r: SysResult)
    requires
        old(c).wf(),
        found is Ok ==> found->Ok_0 < old(c).nodes@.len(),
    ensures
        final(c).wf(),
        only_nodes(*old(c), *final(c)),
        match found {
            Err(e) => r == err(e) && final(c).nodes@ == old(c).nodes@,
            Ok(n) => r == ok(0) && final(c).nodes@ == with_meta(
                old(c).nodes@,
                n as int,
                chmodded(old(c).nodes@[n as int].meta, mode),
            ),
        },
{
    match found {
        Err(e) => Err(e),
        Ok(n) => {
            let mut m: Meta = c.nodes.list[n].meta;
            m.mode = (m.mode & S_IFMT) | (mode & 0o7777);
            c.nodes.set_meta(n, m);
            Ok(0)
        },
    }
}

/// Sets the permissions of an open file; one without a node is left alone.
pub fn sys_fchmod(c: &mut Ctx, fd: i32, mode: u32) -> (r: SysResult)
    requires
        old(c).wf(),
    ensures
        final(c).wf(),
        only_nodes(*old(c), *final(c)),
        if !old(c).is_open(fd) {
            r == err(EBADF) && final(c).nodes@ == old(c).nodes@
        } else {
            r == ok(0) && final(c).nodes@ == (match old(c).file(fd).node {
                None => old(c).nodes@,
                Some(n) => with_meta(
                    old(c).nodes@,
                    n as int,
                    chmodded(old(c).nodes@[n as int].meta, mode),
                ),
            })
        },
{
    match get_file(c, fd) {
        Ok(f) => match c.files[f].node {
            Some(n) => sys_fchmodat(c, Ok(n), mode),
            None => Ok(0),
        },
        Err(e) => Err(e),
    }
}

/// Sets the owners of the node that a lookup found.
pub fn sys_fchownat(c: &mut Ctx, found: Result<usize, i32>, uid: u32, gid: u32) -> (r: SysResult)
    requires
        old(c).wf(),
        found is Ok ==> found->Ok_0 < old(c).nodes@.len(),
    ensures
        final(c).wf(),
        only_nodes(*old(c), *final(c)),
        match found {
            Err(e) => r == err(e) && final(c).nodes@ == old(c).nodes@,
            Ok(n) => r == ok(0) && final(c).nodes@ == with_meta(
                old(c).nodes@,
                n as int,
                chowned(old(c).nodes@[n as int].meta, uid, gid),
            ),
        },
{
    match found {
        Err(e) => Err(e),
        Ok(n) => {
            let mut m: Meta = c.nodes.list[n].meta;
            if uid != u32::MAX {
                m.uid = uid;
            }
            if gid != u32::MAX {
                m.gid = gid;
            }
            c.nodes.set_meta(n, m);
            Ok(0)
        },
    }
}

/// Sets the owners of an open file; one without a node is left alone.
pub fn sys_fchown(c: &mut Ctx, fd: i32, uid: u32, gid: u32) -> (r: SysResult)
    requires
        old(c).wf(),
    ensures
        final(c).wf(),
        only_nodes(*old(c), *final(c)),
        if !old(c).is_open(fd) {
            r == err(EBADF) && final(c).nodes@ == old(c).nodes@
        } else {
            r == ok(0) && final(c).nodes@ == (match old(c).file(fd).node {
                None => old(c).nodes@,
                Some(n) => with_meta(
                    old(c).nodes@,
                    n as int,
                    chowned(old(c).nodes@[n as int].meta, uid, gid),
                ),
            })
        },
{
    match get_file(c, fd) {
        Ok(f) => match c.files[f].node {
            Some(n) => sys_fchownat(c, Ok(n), uid, gid),
            None => Ok(0),
        },
        Err(e) => Err(e),
    }
}

pub const UTIME_NOW: i64 = 0x3fffffff;

pub const UTIME_OMIT: i64 = 0x3ffffffe;

/// A time to set: the present, the one there is, or seconds.
pub open spec fn time_at(m: Map<int, u8>, at: int, now: i64, cur: i64) -> i64 {
    let nsec = num_at(m, at + 8, 8) as u64 as i64;
    if nsec == UTIME_NOW {
        now
    } else if nsec == UTIME_OMIT {
        cur
    } else {
        num_at(m, at, 8) as u64 as i64
    }
}

fn pick_time(sec: u64, nsec: u64, now: i64, cur: i64) -> (r: i64)
    ensures
        r == (if nsec as i64 == UTIME_NOW {
            now
        } else if nsec as i64 == UTIME_OMIT {
            cur
        } else {
            sec as i64
        }),
{
    if nsec as i64 == UTIME_NOW {
        now
    } else if nsec as i64 == UTIME_OMIT {
        cur
    } else {
        sec as i64
    }
}

/// The node whose times a call without a path sets.
pub fn utimens_node(c: &Ctx, fd: i32) -> (r: Result<usize, i32>)
    requires
        c.wf(),
    ensures
        match r {
            Ok(n) => c.is_open(fd) && c.file(fd).node == Some(n) && n < c.nodes@.len(),
            Err(e) => (!c.is_open(fd) || c.file(fd).node is None) && e == EBADF,
        },
{
    match get_file(c, fd) {
        Ok(f) => match c.files[f].node {
            Some(n) => Ok(n),
            None => Err(EBADF),
        },
        Err(e) => Err(e),
    }
}

/// Sets the times of a node: to the present, or to those that memory holds.
pub fn sys_utimensat(c: &mut Ctx, mem: &UserMem, found: Result<usize, i32>, times: usize, now: i64) -> (r:
    SysResult)
    requires
        old(c).wf(),
        found is Ok ==> found->Ok_0 < old(c).nodes@.len(),
    ensures
        final(c).wf(),
        only_nodes(*old(c), *final(c)),
        match found {
            Err(e) => r == err(e) && final(c).nodes@ == old(c).nodes@,
            Ok(n) => {
                let m0 = old(c).nodes@[n as int].meta;
                if times == 0 {
                    r == ok(0) && final(c).nodes@ == with_meta(
                        old(c).nodes@,
                        n as int,
                        Meta { atime: now, mtime: now, ctime: now, ..m0 },
                    )
                } else if !mapped(mem@, times as int, 32) {
                    r == err(EFAULT) && final(c).nodes@ == old(c).nodes@
                } else {
                    r == ok(0) && final(c).nodes@ == with_meta(
                        old(c).nodes@,
                        n as int,
                        Meta {
                            atime: time_at(mem@, times as int, now, m0.atime),
                            mtime: time_at(mem@, times + 16, now, m0.mtime),
                            ctime: now,
                            ..m0
                        },
                    )
                }
            },
        },
{
    let n: usize = match found {
        Ok(n) => n,
        Err(e) => {
            return Err(e);
        },
    };
    let mut m: Meta = c.nodes.list[n].meta;
    if times == 0 {
        m.atime = now;
        m.mtime = now;
    } else {
        let b: Vec<u8> = match mem.copy_from_user(times, 32) {
            Ok(b) => b,
            Err(e) => {
                return Err(e);
            },
        };
        let as_: u64 = field(&b, 0, 8, Ghost(mem@), Ghost(times as int));
        let an: u64 = field(&b, 8, 8, Ghost(mem@), Ghost(times as int));
        let ms: u64 = field(&b, 16, 8, Ghost(mem@), Ghost(times as int));
        let mn: u64 = field(&b, 24, 8, Ghost(mem@), Ghost(times as int));
        m.atime = pick_time(as_, an, now, m.atime);
        m.mtime = pick_time(ms, mn, now, m.mtime);
    }
    m.ctime = now;
    c.nodes.set_meta(n, m);
    Ok(0)
}

/// Sets the mask for new permissions; gives the former one.
pub fn sys_umask(c: &mut Ctx, mask: u32) -> (r: SysResult)
    ensures
        r == ok(old(c).umask as int),
        *final(c) == (Ctx { umask: mask & 0o777, ..*old(c) }),
{
    let was: u32 = c.umask;
    c.umask = mask & 0o777;
    Ok(was as usize)
}

/// Duplicates a descriptor.
pub fn sys_dup(c: &mut Ctx, fd: i32) -> (r: SysResult)
    requires
        old(c).wf(),
    ensures
        final(c).wf(),
        if old(c).is_open(fd) {
            alloc_post(*old(c), old(c).file_no(fd), false, 0, r, *final(c))
        } else {
            r == err(EBADF) && *final(c) == *old(c)
        },
{
    match get_file(c, fd) {
        Ok(f) => alloc_from(c, f, false, 0),
        Err(e) => Err(e),
    }
}

/// Makes descriptor `to` refer to the file of another; what it referred to is
/// closed first.
pub fn sys_dup3(c: &mut Ctx, fd: i32, to: i32, flags: u32) -> (r: SysResult)
    requires
        old(c).wf(),
    ensures
        final(c).wf(),
        only_fds(*old(c), *final(c)),
        ({
            let e = old(c).fds.entries@;
            let e1 = if old(c).is_open(to) {
                e.update(to as int, None)
            } else {
                e
            };
            if fd == to {
                r == err(EINVAL) && final(c).fds.entries@ == e
            } else if !old(c).is_open(fd) {
                r == err(EBADF) && final(c).fds.entries@ == e
            } else if 0 <= to < old(c).fds.limit {
                r == ok(to as int) && final(c).fds.entries@ == with_fd(
                    e1,
                    to as int,
                    Some(
                        FdEntry {
                            file: old(c).file_no(fd) as usize,
                            cloexec: flags & O_CLOEXEC != 0,
                        },
                    ),
                )
            } else {
                r == err(EBADF) && final(c).fds.entries@ == e1
            }
        }),
{
    if fd == to {
        return Err(EINVAL);
    }
    let f: usize = match get_file(c, fd) {
        Ok(f) => f,
        Err(e) => {
            return Err(e);
        },
    };
    let _ = sys_close(c, to);
    proof {
        if to >= 0 {
            lemma_with(
                c.fds.entries@,
                to as int,
                FdEntry { file: f, cloexec: flags & O_CLOEXEC != 0 },
                c.files@.len() as int,
            );
        }
    }
    match c.fds.set(to, f, flags & O_CLOEXEC != 0) {
        Ok(_) => Ok(to as usize),
        Err(e) => Err(e),
    }
}

pub const F_DUPFD: u32 = 0;
pub const F_GETFD: u32 = 1;
pub const F_SETFD: u32 = 2;
pub const F_GETFL: u32 = 3;
pub const F_SETFL: u32 = 4;
pub const F_GETLK: u32 = 5;
pub const F_SETLK: u32 = 6;
pub const F_SETLKW: u32 = 7;
pub const F_SETOWN: u32 = 8;
pub const F_GETOWN: u32 = 9;
pub const F_DUPFD_CLOEXEC: u32 = 1030;
pub const O_DSYNC: u32 = 0o10000;
pub const O_DIRECT: u32 = 0o40000;
pub const O_NOATIME: u32 = 0o1000000;

/// The size of a pipe.
pub const PIPE_BUF_SIZE: usize = 65536;

/// The status flags after a change: the access mode stays.
pub open spec fn set_flags_spec(flags: u32, arg: u32) -> u32 {
    (flags & (O_ACCMODE | O_PATH)) | (arg & (O_APPEND | O_NONBLOCK | O_DSYNC | O_DIRECT
        | O_NOATIME))
}

pub open spec fn with_flags(l: Seq<OpenFile>, i: int, flags: u32) -> Seq<OpenFile> {
    l.update(i, OpenFile { flags, ..l[i] })
}

fn set_file_flags(c: &mut Ctx, f: usize, flags: u32)
    requires
        old(c).wf(),
        f < old(c).files@.len(),
    ensures
        final(c).wf(),
        final(c).files@ == with_flags(old(c).files@, f as int, flags),
        *final(c) == (Ctx { files: final(c).files, ..*old(c) }),
{
    let ghost l = c.files@;
    let mut x: OpenFile = c.files[f];
    x.flags = flags;
    c.files.set(f, x);
    proof {
        assert(c.files@ =~= with_flags(l, f as int, flags));
        assert forall|i: int| 0 <= i < c.files@.len() implies match (#[trigger] c.files@[i]).node {
            Some(k) => k < c.nodes@.len(),
            None => true,
        } by {
            assert(c.files@[i].node == l[i].node);
        }
    }
}

fn set_cloexec(c: &mut Ctx, fd: i32, on: bool) -> (r: SysResult)
    requires
        old(c).wf(),
    ensures
        final(c).wf(),
        cloexec_post(*old(c), fd, on, r, *final(c)),
{
    let ghost e = c.fds.entries@;
    match c.fds.set_cloexec(fd, on) {
        Ok(_) => {
            proof {
                assert forall|k: int| open_fd(c.fds.entries@, k) implies (
                #[trigger] c.fds.entries@[k])->0.file < c.files@.len() by {
                    assert(open_fd(e, k));
                    assert(e[k]->0.file < c.files@.len());
                }
            }
            Ok(0)
        },
        Err(x) => {
            proof {
                lemma_less(e, c.fds.entries@, c.files@.len() as int);
            }
            Err(x)
        },
    }
}

pub open spec fn cloexec_post(a: Ctx, fd: i32, on: bool, r: SysResult, b: Ctx) -> bool {
    &&& only_fds(a, b)
    &&& if a.is_open(fd) {
        r == ok(0) && b.fds.entries@ == a.fds.entries@.update(
            fd as int,
            Some(FdEntry { cloexec: on, ..a.fds.entries@[fd as int]->0 }),
        )
    } else {
        r == err(EBADF) && b.fds.entries@ == a.fds.entries@
    }
}

/// What a command on a descriptor does and returns. No locks are ever held.
pub open spec fn fcntl_post(
    a: Ctx,
    m: Map<int, u8>,
    fd: i32,
    cmd: u32,
    arg: usize,
    r: SysResult,
    b: Ctx,
    n: Map<int, u8>,
) -> bool {
    if cmd == F_GETLK {
        b == a && if mapped(m, arg as int, 2) {
            r == ok(0) && n == stored(m, arg as int, le(2, 2))
        } else {
            r == err(EFAULT) && n == m
        }
    } else {
        &&& n == m
        &&& if cmd == F_DUPFD || cmd == F_DUPFD_CLOEXEC {
            if a.is_open(fd) {
                alloc_post(a, a.file_no(fd), cmd == F_DUPFD_CLOEXEC, arg, r, b)
            } else {
                r == err(EBADF) && b == a
            }
        } else if cmd == F_GETFD {
            b == a && r == (if !a.is_open(fd) {
                err(EBADF)
            } else if a.fds.entries@[fd as int]->0.cloexec {
                ok(1)
            } else {
                ok(0)
            })
        } else if cmd == F_SETFD {
            cloexec_post(a, fd, arg as u32 & 1 != 0, r, b)
        } else if cmd == F_GETFL {
            b == a && r == (if a.is_open(fd) {
                ok(a.file(fd).flags as int)
            } else {
                err(EBADF)
            })
        } else if cmd == F_SETFL {
            if a.is_open(fd) {
                &&& r == ok(0)
                &&& b == (Ctx { files: b.files, ..a })
                &&& b.files@ == with_flags(
                    a.files@,
                    a.file_no(fd),
                    set_flags_spec(a.file(fd).flags, arg as u32),
                )
            } else {
                r == err(EBADF) && b == a
            }
        } else if cmd == F_SETLK || cmd == F_SETLKW {
            b == a && r == (if a.is_open(fd) {
                ok(0)
            } else {
                err(EBADF)
            })
        } else if cmd == F_SETOWN || cmd == F_GETOWN || (1024 <= cmd <= 1026) {
            b == a && r == ok(0)
        } else if cmd == 1031 || cmd == 1032 {
            b == a && r == ok(PIPE_BUF_SIZE as int)
        } else {
            b == a && r == err(EINVAL)
        }
    }
}

pub fn sys_fcntl(c: &mut Ctx, mem: &mut UserMem, fd: i32, cmd: u32, arg: usize) -> (r: SysResult)
    requires
        old(c).wf(),
    ensures
        final(c).wf(),
        fcntl_post(*old(c), old(mem)@, fd, cmd, arg, r, *final(c), final(mem)@),
{
    match cmd {
        F_DUPFD | F_DUPFD_CLOEXEC => match get_file(c, fd) {
            Ok(f) => alloc_from(c, f, cmd == F_DUPFD_CLOEXEC, arg),
            Err(e) => Err(e),
        },
        F_GETFD => match c.fds.get_entry(fd) {
            Ok(x) => if x.cloexec {
                Ok(1)
            } else {
                Ok(0)
            },
            Err(e) => Err(e),
        },
        F_SETFD => set_cloexec(c, fd, arg as u32 & 1 != 0),
        F_GETFL => match get_file(c, fd) {
            Ok(f) => Ok(c.files[f].flags as usize),
            Err(e) => Err(e),
        },
        F_SETFL => match get_file(c, fd) {
            Ok(f) => {
                let keep: u32 = c.files[f].flags & (O_ACCMODE | O_PATH);
                let set: u32 = arg as u32 & (O_APPEND | O_NONBLOCK | O_DSYNC | O_DIRECT
                    | O_NOATIME);
                set_file_flags(c, f, keep | set);
                Ok(0)
            },
            Err(e) => Err(e),
        },
        F_GETLK => match mem.write_num(arg, 2, 2) {
            Ok(_) => Ok(0),
            Err(e) => Err(e),
        },
        F_SETLK | F_SETLKW => match get_file(c, fd) {
            Ok(_) => Ok(0),
            Err(e) => Err(e),
        },
        F_SETOWN | F_GETOWN | 1024 | 1025 | 1026 => Ok(0),
        1031 | 1032 => Ok(PIPE_BUF_SIZE),
        _ => Err(EINVAL),
    }
}

pub const FIOCLEX: u32 = 0x5451;

pub const FIONCLEX: u32 = 0x5450;

/// What a device control request comes to: an answer, or the file whose own
/// control it is for.
#[derive(Clone, Copy, PartialEq, Eq, Debug)]
pub enum Control {
    Done(SysResult),
    File(usize),
}

pub open spec fn ioctl_post(a: Ctx, m: Map<int, u8>, fd: i32, cmd: u32, arg: usize, r: Control, b: Ctx) -> bool {
    let fl = a.file(fd).flags;
    if !a.is_open(fd) {
        r == Control::Done(err(EBADF)) && b == a
    } else if cmd == FIONBIO {
        if !mapped(m, arg as int, 4) {
            r == Control::Done(err(EFAULT)) && b == a
        } else {
            &&& r == Control::Done(ok(0))
            &&& b == (Ctx { files: b.files, ..a })
            &&& b.files@ == with_flags(
                a.files@,
                a.file_no(fd),
                if num_at(m, arg as int, 4) != 0 {
                    fl | O_NONBLOCK
                } else {
                    fl & !O_NONBLOCK
                },
            )
        }
    } else if cmd == FIOCLEX || cmd == FIONCLEX {
        r is Done && cloexec_post(a, fd, cmd == FIOCLEX, r->Done_0, b)
    } else {
        r == Control::File(a.file_no(fd) as usize) && b == a
    }
}

pub fn sys_ioctl(c: &mut Ctx, mem: &UserMem, fd: i32, cmd: u32, arg: usize) -> (r: Control)
    requires
        old(c).wf(),
    ensures
        final(c).wf(),
        ioctl_post(*old(c), mem@, fd, cmd, arg, r, *final(c)),
{
    let f: usize = match get_file(c, fd) {
        Ok(f) => f,
        Err(e) => {
            return Control::Done(Err(e));
        },
    };
    match cmd {
        FIONBIO => {
            let on: u64 = match mem.read_num(arg, 4) {
                Ok(v) => v,
                Err(e) => {
                    return Control::Done(Err(e));
                },
            };
            let fl: u32 = c.files[f].flags;
            let new: u32 = if on != 0 {
                fl | O_NONBLOCK
            } else {
                fl & !O_NONBLOCK
            };
            set_file_flags(c, f, new);
            Control::Done(Ok(0))
        },
        FIOCLEX => Control::Done(set_cloexec(c, fd, true)),
        FIONCLEX => Control::Done(set_cloexec(c, fd, false)),
        _ => Control::File(f),
    }
}

/// A file that has no node.
pub open spec fn anon(flags: u32) -> OpenFile {
    OpenFile { flags, pos: 0, node: None, seekable: false, epoll: None, socket: None }
}

/// The effect of giving two files descriptors: both get one, or none does.
pub open spec fn pair_post(
    a: Ctx,
    m: Map<int, u8>,
    at: usize,
    x: OpenFile,
    y: OpenFile,
    cloexec: bool,
    r: SysResult,
    b: Ctx,
    n: Map<int, u8>,
) -> bool {
    let e = a.fds.entries@;
    let fd0 = free_from(e, 0);
    let e0 = with_fd(e, fd0, Some(FdEntry { file: a.files@.len() as usize, cloexec }));
    let fd1 = free_from(e0, 0);
    let e1 = with_fd(e0, fd1, Some(FdEntry { file: (a.files@.len() + 1) as usize, cloexec }));
    &&& only_files(a, b)
    &&& if fd0 >= a.fds.limit {
        r == err(EMFILE) && b.fds.entries@ == e && b.files@ == a.files@ && n == m
    } else if fd1 >= a.fds.limit {
        &&& r == err(EMFILE)
        &&& b.fds.entries@ == e0.update(fd0, None)
        &&& b.files@ == a.files@.push(x)
        &&& n == m
    } else {
        &&& b.fds.entries@ == e1
        &&& b.files@ == a.files@.push(x).push(y)
        &&& if mapped(m, at as int, 8) {
            r == ok(0) && n == stored(m, at as int, le(fd0 as nat, 4) + le(fd1 as nat, 4))
        } else {
            r == err(EFAULT) && n == m
        }
    }
}

/// Gives two files descriptors and tells them.
pub fn install_pair(c: &mut Ctx, mem: &mut UserMem, at: usize, x: OpenFile, y: OpenFile, cloexec: bool) -> (r:
    SysResult)
    requires
        old(c).wf(),
        old(c).files@.len() + 2 < usize::MAX,
        x.node is None,
        y.node is None,
    ensures
        final(c).wf(),
        pair_post(
            *old(c),
            old(mem)@,
            at,
            x,
            y,
            cloexec,
            r,
            *final(c),
            final(mem)@,
        ),
{
    let fd0: usize = match install_fd(c, x, cloexec) {
        Ok(fd) => fd,
        Err(e) => {
            return Err(e);
        },
    };
    let fd1: usize = match install_fd(c, y, cloexec) {
        Ok(fd) => fd,
        Err(e) => {
            let _ = sys_close(c, fd0 as i32);
            return Err(e);
        },
    };
    let mut v: Vec<u8> = Vec::new();
    put_le(&mut v, fd0 as u64, 4);
    put_le(&mut v, fd1 as u64, 4);
    proof {
        lemma_le_len(fd0 as nat, 4);
        lemma_le_len(fd1 as nat, 4);
        assert(v@ =~= le(fd0 as nat, 4) + le(fd1 as nat, 4));
    }
    match mem.copy_to_user(at, &v) {
        Ok(_) => Ok(0),
        Err(e) => Err(e),
    }
}

/// Makes the two ends of a pipe.
pub fn sys_pipe2(c: &mut Ctx, mem: &mut UserMem, at: usize, flags: u32) -> (r: SysResult)
    requires
        old(c).wf(),
        old(c).files@.len() + 2 < usize::MAX,
    ensures
        final(c).wf(),
        pair_post(
            *old(c),
            old(mem)@,
            at,
            anon(O_RDONLY | (flags & O_NONBLOCK)),
            anon(O_WRONLY | (flags & O_NONBLOCK)),
            flags & O_CLOEXEC != 0,
            r,
            *final(c),
            final(mem)@,
        ),
{
    let fl: u32 = flags & O_NONBLOCK;
    let rd = OpenFile {
        flags: O_RDONLY | fl,
        pos: 0,
        node: None,
        seekable: false,
        epoll: None,
        socket: None,
    };
    let wr = OpenFile {
        flags: O_WRONLY | fl,
        pos: 0,
        node: None,
        seekable: false,
        epoll: None,
        socket: None,
    };
    install_pair(c, mem, at, rd, wr, flags & O_CLOEXEC != 0)
}

/// Opens an event counter.
pub fn sys_eventfd2(c: &mut Ctx, flags: u32) -> (r: SysResult)
    requires
        old(c).wf(),
        old(c).files@.len() + 1 < usize::MAX,
    ensures
        final(c).wf(),
        install_post(
            *old(c),
            anon(O_RDWR | (flags & O_NONBLOCK)),
            flags & O_CLOEXEC != 0,
            r,
            *final(c),
        ),
{
    let f = OpenFile {
        flags: O_RDWR | (flags & O_NONBLOCK),
        pos: 0,
        node: None,
        seekable: false,
        epoll: None,
        socket: None,
    };
    install_fd(c, f, flags & O_CLOEXEC != 0)
}

/// Opens an interest list, number `id`.
pub fn sys_epoll_create1(c: &mut Ctx, id: usize, flags: u32) -> (r: SysResult)
    requires
        old(c).wf(),
        old(c).files@.len() + 1 < usize::MAX,
    ensures
        final(c).wf(),
        install_post(
            *old(c),
            (OpenFile { epoll: Some(id), ..anon(O_RDWR) }),
            flags & O_CLOEXEC != 0,
            r,
            *final(c),
        ),
{
    let f = OpenFile {
        flags: O_RDWR,
        pos: 0,
        node: None,
        seekable: false,
        epoll: Some(id),
        socket: None,
    };
    install_fd(c, f, flags & O_CLOEXEC != 0)
}

/// The interest list behind a descriptor.
pub fn get_epoll(c: &Ctx, fd: i32) -> (r: Result<usize, i32>)
    requires
        c.wf(),
    ensures
        r == epoll_spec(*c, fd),
{
    match get_file(c, fd) {
        Ok(f) => match c.files[f].epoll {
            Some(id) => Ok(id),
            None => Err(EINVAL),
        },
        Err(e) => Err(e),
    }
}

pub open spec fn epoll_spec(c: Ctx, fd: i32) -> Result<usize, i32> {
    if !c.is_open(fd) {
        Err(EBADF)
    } else {
        match c.file(fd).epoll {
            Some(id) => Ok(id),
            None => Err(EINVAL),
        }
    }
}

/// A directory that was made is found, and so are nodes and links.
pub proof fn made_is_found(a: Ctx, dir: usize, name: Seq<u8>, meta: Meta, kind: KindView, r: SysResult, b: Ctx)
    requires
        a.wf(),
        made(a, dir, name, meta, kind, r, b),
        r == ok(0),
    ensures
        child_of(b.nodes@, dir as int, name) is Some,
        ({
            let n = child_of(b.nodes@, dir as int, name)->0 as int;
            b.nodes@[n].kind == kind && b.nodes@[n].meta == meta && b.nodes@[n].name == name
        }),
{
    let x = NodeView { name, meta, kind };
    crate::ramfs::added_is_found(a.nodes@, dir as int, x);
    assert(b.nodes@[a.nodes@.len() as int] == x);
}

/// A file that is cut or made longer keeps its beginning; what is new is zero.
pub proof fn resizing_keeps_the_beginning(d: Seq<u8>, n: int, i: int)
    requires
        0 <= i < n,
    ensures
        resized(d, n).len() == n,
        i < d.len() ==> resized(d, n)[i] == d[i],
        i >= d.len() ==> resized(d, n)[i] == 0,
{
}

/// Closing a range of descriptors closes exactly those.
pub proof fn range_is_closed(e: Fds, from: int, to: int, fd: int)
    ensures
        open_fd(closed_between(e, from, to), fd) <==> open_fd(e, fd) && !(from <= fd <= to),
        open_fd(closed_between(e, from, to), fd) ==> closed_between(e, from, to)[fd] == e[fd],
{
}

/// A name that was taken out is not found any more; the other names of the directory
/// lead where they led, and the node itself stays as it is for those who have it
/// open.
pub proof fn unlinked_name_is_gone(t: Tree, dir: usize, name: Seq<u8>, other: Seq<u8>, n: int)
    requires
        crate::ramfs::tree_wf(t),
        is_dir(t, dir as int),
        crate::ramfs::distinct(t, dir as int),
        child_of(t, dir as int, name) is Some,
        0 <= n < t.len(),
        n != dir,
    ensures
        child_of(unlinked(t, dir, name), dir as int, name) is None,
        other != name ==> child_of(unlinked(t, dir, name), dir as int, other) == child_of(
            t,
            dir as int,
            other,
        ),
        unlinked(t, dir, name)[n] == t[n],
{
    crate::ramfs::removed_is_gone(t, dir as int, name);
    if other != name {
        crate::ramfs::removal_keeps_others(t, dir as int, name, other);
    }
}

/// Changing permissions keeps what kind of file it is, and sets the twelve low bits
/// to what is asked for; owners stay where the largest number is given.
pub proof fn attributes_change_as_asked(m: Meta, mode: u32, uid: u32, gid: u32)
    ensures
        chmodded(m, mode).mode & 0xf000 == m.mode & 0xf000,
        chmodded(m, mode).mode & 0xfff == mode & 0xfff,
        chmodded(m, mode).uid == m.uid && chmodded(m, mode).gid == m.gid,
        chowned(m, uid, gid).uid == (if uid == u32::MAX {
            m.uid
        } else {
            uid
        }),
        chowned(m, uid, gid).gid == (if gid == u32::MAX {
            m.gid
        } else {
            gid
        }),
        chowned(m, uid, gid).mode == m.mode,
{
    let o = m.mode;
    assert(((o & 0xf000) | (mode & 0xfff)) & 0xf000 == o & 0xf000 && ((o & 0xf000) | (mode & 0xfff))
        & 0xfff == mode & 0xfff) by (bit_vector);
}

/// A file that is renamed is found under its new name with all it holds, and no more
/// under its old one; the new name must be free.
pub proof fn renamed_is_found(t: Tree, o: usize, on: Seq<u8>, n: usize, nn: Seq<u8>, r: SysResult, u: Tree)
    requires
        crate::ramfs::tree_wf(t),
        is_dir(t, o as int),
        is_dir(t, n as int),
        crate::ramfs::distinct(t, o as int),
        child_of(t, o as int, on) is Some,
        child_of(t, n as int, nn) is None,
        child_of(t, o as int, on)->0 != o,
        child_of(t, o as int, on)->0 != n,
        o != n ==> !children(t, n as int).contains(child_of(t, o as int, on)->0),
        rename_post(t, o, on, n, nn, r, u),
    ensures
        r == ok(0),
        child_of(u, n as int, nn) == child_of(t, o as int, on),
        child_of(u, o as int, on) is None,
        ({
            let d = child_of(t, o as int, on)->0 as int;
            u[d].kind == t[d].kind && u[d].meta == t[d].meta && u[d].name == nn
        }),
{
    let d = child_of(t, o as int, on)->0;
    let i = place_of(t, o as int, on)->0;
    let c = children(t, o as int);
    assert(crate::ramfs::named(t, o as int, on, i));
    assert(c[i] == d && d < t.len());
    let t1 = unlinked(t, o, on);
    let t2 = taken(t, o, on, d, nn);
    assert(cleared(t, n, nn) == t);
    assert(is_dir(t2, n as int));
    let e = children(t2, n as int);
    let k = e.len() as int;
    assert(u == with_children(t2, n as int, e.push(d)));
    // No child of the new directory is the node itself.
    assert forall|j: int| 0 <= j < e.len() implies #[trigger] e[j] != d && e[j] < t.len()
        && t[e[j] as int].name != nn by {
        if o == n {
            let x = if j < i {
                j
            } else {
                j + 1
            };
            assert(e[j] == c[x]);
            if x < i {
                assert(t[c[x] as int].name != t[c[i] as int].name);
            } else {
                assert(t[c[i] as int].name != t[c[x] as int].name);
            }
            lemma_not_named(t, o as int, nn, x);
        } else {
            let b = children(t, n as int);
            assert(e[j] == b[j]);
            assert(b.contains(b[j]));
            lemma_not_named(t, n as int, nn, j);
        }
    }
    let f = e.push(d);
    assert(children(u, n as int) == f);
    assert(u[d as int].name == nn);
    assert(crate::ramfs::named(u, n as int, nn, k)) by {
        assert forall|j: int| 0 <= j < k implies u[(#[trigger] f[j]) as int].name != nn by {
            assert(f[j] == e[j]);
        }
    }
    crate::ramfs::lemma_place(u, n as int, nn, k);
    if child_of(u, o as int, on) is Some {
        let p = place_of(u, o as int, on)->0;
        assert(crate::ramfs::named(u, o as int, on, p));
        let g = children(u, o as int);
        if o == n && p == k {
            assert(g[p] == d);
            assert(on == nn);
        } else {
            let x = if p < i {
                p
            } else {
                p + 1
            };
            assert(g[p] == c[x]);
            assert(c[x] < t.len());
            if x < i {
                assert(t[c[x] as int].name != t[c[i] as int].name);
            } else {
                assert(t[c[i] as int].name != t[c[x] as int].name);
            }
            assert(c[x] != d);
            assert(u[c[x] as int].name == t[c[x] as int].name);
        }
    }
}

/// Where a name is not found, no child has it.
proof fn lemma_not_named(t: Tree, n: int, name: Seq<u8>, j: int)
    requires
        is_dir(t, n),
        child_of(t, n, name) is None,
        0 <= j < children(t, n).len(),
    ensures
        t[children(t, n)[j] as int].name != name,
{
    if t[children(t, n)[j] as int].name == name {
        crate::ramfs::lemma_some_named(t, n, name, j);
    }
}

/// What can be unlinked: a name that is there (2 otherwise); a directory only where
/// that is asked for (21) and when it is empty (39), anything else only where it is
/// not (20).
pub proof fn what_can_be_unlinked(t: Tree, dir: usize, name: Seq<u8>, flags: u32)
    ensures
        child_of(t, dir as int, name) is None ==> unlink_spec(t, dir, name, flags) == Some(2i32),
        child_of(t, dir as int, name) matches Some(n) ==> {
            &&& is_dir(t, n as int) && flags & 0x200 == 0 ==> unlink_spec(t, dir, name, flags)
                == Some(21i32)
            &&& is_dir(t, n as int) && flags & 0x200 != 0 && children(t, n as int).len() > 0
                ==> unlink_spec(t, dir, name, flags) == Some(39i32)
            &&& is_dir(t, n as int) && flags & 0x200 != 0 && children(t, n as int).len() == 0
                ==> unlink_spec(t, dir, name, flags) is None
            &&& !is_dir(t, n as int) && flags & 0x200 != 0 ==> unlink_spec(t, dir, name, flags)
                == Some(20i32)
            &&& !is_dir(t, n as int) && flags & 0x200 == 0 ==> unlink_spec(t, dir, name, flags) is None
        },
{
}

/// A path starts at the working directory, or at the directory of the descriptor
/// given; a descriptor of anything else is refused.
pub proof fn paths_start_at_their_directory(c: Ctx, dirfd: i32)
    ensures
        dirfd == -100 ==> base_spec(c, dirfd) == Ok::<usize, i32>(c.cwd),
        dirfd != -100 && c.is_open(dirfd) ==> match c.file(dirfd).node {
            Some(n) => base_spec(c, dirfd) == (if is_dir(c.nodes@, n as int) {
                Ok::<usize, i32>(n)
            } else {
                Err(20)
            }),
            None => base_spec(c, dirfd) == Err::<usize, i32>(20),
        },
        dirfd != -100 && !c.is_open(dirfd) ==> base_spec(c, dirfd) == Err::<usize, i32>(9),
{
}

} // verus!
