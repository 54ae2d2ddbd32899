//! System calls of a kernel that runs a single task, which reads and writes the
//! task's memory directly: what a call touches must be accessible.

use vstd::prelude::*;
use crate::bytes::{le, le_bytes, lemma_le_len, put_le, put_zeros, zeros};
use crate::paths::bytes_eq;
use crate::syscall::misc::{put_field, uts_field};
use crate::uaccess::{bytes_at, field, mapped, num_at, stored, stored_field, UserMem};

verus! {

pub const ENOENT: isize = -2;
pub const EBADF: isize = -9;
pub const EAGAIN: isize = -11;
pub const EINVAL: isize = -22;
pub const ERANGE: isize = -34;
pub const ENOSYS: isize = -38;
pub const ENOTSOCK: isize = -88;
pub const EAFNOSUPPORT: isize = -97;
pub const ECONNREFUSED: isize = -111;
pub const O_RDONLY: i32 = 0;
pub const O_WRONLY: i32 = 1;
pub const O_RDWR: i32 = 2;
pub const O_CREAT: i32 = 0o100;
pub const O_TRUNC: i32 = 0o1000;
pub const O_APPEND: i32 = 0o2000;
pub const O_NONBLOCK: i32 = 0o4000;
pub const O_CLOEXEC: i32 = 0o2000000;

/// What a file is.
#[derive(Clone, Copy, PartialEq, Eq, Structural, Debug)]
pub enum FileKind {
    Null,
    Zero,
    Random,
    Console,
    File(usize),
    Dir(usize),
    Socket(usize),
    Epoll(usize),
    Eventfd(u64),
}

#[derive(Clone, Copy, PartialEq, Eq, Structural, Debug)]
pub struct FileDesc {
    pub kind: FileKind,
    pub offset: usize,
    pub flags: i32,
    pub readable: bool,
    pub writable: bool,
}

/// A file or a directory of the file system.
pub struct Data {
    pub is_dir: bool,
    pub bytes: Vec<u8>,
}

/// What is waited for on a descriptor.
#[derive(Clone, Copy, PartialEq, Eq, Structural, Debug)]
pub struct Interest {
    pub fd: u32,
    pub events: u32,
    pub data: u64,
}

/// Everything that the calls work on.
pub struct State {
    /// The file of each descriptor, and whether it is closed when a program
    /// starts.
    pub fds: Vec<Option<(usize, bool)>>,
    pub files: Vec<FileDesc>,
    pub nodes: Vec<Data>,
    pub epolls: Vec<Option<Vec<Interest>>>,
    pub tid_address: usize,
}

pub type Fds = Seq<Option<(usize, bool)>>;

pub open spec fn open_at(e: Fds, fd: int) -> bool {
    0 <= fd < e.len() && e[fd] is Some
}

/// The lowest free descriptor from `min` on.
pub open spec fn free_at(e: Fds, min: int) -> int
    decreases e.len() - min,
{
    if 0 <= min < e.len() && e[min] is Some {
        free_at(e, min + 1)
    } else {
        min
    }
}

/// The table, made long enough, with a descriptor set.
pub open spec fn set_at(e: Fds, fd: int, x: (usize, bool)) -> Fds {
    if fd < e.len() {
        e.update(fd, Some(x))
    } else {
        (e + Seq::new((fd - e.len()) as nat, |i: int| None)).push(Some(x))
    }
}

/// The node that a file is of exists.
pub open spec fn kind_ok(k: FileKind, nodes: int) -> bool {
    match k {
        FileKind::File(n) => n < nodes,
        FileKind::Dir(n) => n < nodes,
        _ => true,
    }
}

impl State {
    pub open spec fn wf(&self) -> bool {
        &&& self.fds@.len() <= isize::MAX
        &&& forall|fd: int|
            open_at(self.fds@, fd) ==> ((#[trigger] self.fds@[fd])->0).0 < self.files@.len()
        &&& forall|i: int|
            0 <= i < self.files@.len() ==> kind_ok(
                (#[trigger] self.files@[i]).kind,
                self.nodes@.len() as int,
            )
    }

    pub open spec fn is_open(&self, fd: usize) -> bool {
        open_at(self.fds@, fd as int)
    }

    pub open spec fn file_no(&self, fd: usize) -> int {
        (self.fds@[fd as int]->0).0 as int
    }

    pub open spec fn file(&self, fd: usize) -> FileDesc {
        self.files@[self.file_no(fd)]
    }

    pub fn get(&self, fd: usize) -> (r: Option<usize>)
        requires
            self.wf(),
        ensures
            r == (if self.is_open(fd) {
                Some(self.file_no(fd) as usize)
            } else {
                None
            }),
            r is Some ==> r->0 < self.files@.len(),
    {
        if fd < self.fds.len() {
            match self.fds[fd] {
                Some(x) => {
                    assert(open_at(self.fds@, fd as int));
                    Some(x.0)
                },
                None => None,
            }
        } else {
            None
        }
    }

    /// Sets a descriptor.
    pub fn set(&mut self, fd: usize, file: usize, cloexec: bool)
        requires
            old(self).wf(),
            file < old(self).files@.len(),
            fd < isize::MAX,
        ensures
            final(self).wf(),
            final(self).fds@ == set_at(old(self).fds@, fd as int, (file, cloexec)),
            *final(self) == (State { fds: final(self).fds, ..*old(self) }),
    {
        let ghost e = self.fds@;
        while self.fds.len() <= fd
            invariant
                fd < isize::MAX,
                self.fds@.len() >= e.len(),
                e.len() <= fd ==> self.fds@.len() <= fd + 1,
                e.len() > fd ==> self.fds@ == e,
                self.fds@ =~= e + Seq::new((self.fds@.len() - e.len()) as nat, |i: int| None),
                *self == (State { fds: self.fds, ..*old(self) }),
                e == old(self).fds@,
            decreases fd + 1 - self.fds@.len(),
        {
            self.fds.push(None);
        }
        self.fds.set(fd, Some((file, cloexec)));
        proof {
            assert(self.fds@ =~= set_at(e, fd as int, (file, cloexec)));
            assert forall|k: int| open_at(self.fds@, k) implies ((#[trigger] self.fds@[k])->0).0
                < self.files@.len() by {
                if k != fd {
                    assert(open_at(e, k));
                    assert((e[k]->0).0 < self.files@.len());
                }
            }
        }
    }

    /// Gives a file the lowest free descriptor from `min` on.
    pub fn alloc_from(&mut self, min: usize, file: usize, cloexec: bool) -> (fd: usize)
        requires
            old(self).wf(),
            file < old(self).files@.len(),
            old(self).fds@.len() < isize::MAX,
            min < isize::MAX,
        ensures
            final(self).wf(),
            fd == free_at(old(self).fds@, min as int),
            final(self).fds@ == set_at(old(self).fds@, fd as int, (file, cloexec)),
            *final(self) == (State { fds: final(self).fds, ..*old(self) }),
    {
        let n: usize = self.fds.len();
        let mut i: usize = min;
        while i < n && self.fds[i].is_some()
            invariant
                min <= i,
                i <= n || i == min,
                n == self.fds@.len(),
                free_at(self.fds@, i as int) == free_at(self.fds@, min as int),
            decreases n - i,
        {
            i = i + 1;
        }
        self.set(i, file, cloexec);
        i
    }

    /// Frees a descriptor; tells whether it was in use.
    pub fn close(&mut self, fd: usize) -> (r: bool)
        requires
            old(self).wf(),
        ensures
            final(self).wf(),
            r == old(self).is_open(fd),
            final(self).fds@ == (if r {
                old(self).fds@.update(fd as int, None)
            } else {
                old(self).fds@
            }),
            *final(self) == (State { fds: final(self).fds, ..*old(self) }),
    {
        let ghost e = self.fds@;
        if fd < self.fds.len() && self.fds[fd].is_some() {
            self.fds.set(fd, None);
            proof {
                assert forall|k: int| open_at(self.fds@, k) implies (
                (#[trigger] self.fds@[k])->0).0 < self.files@.len() by {
                    assert(open_at(e, k));
                    assert((e[k]->0).0 < self.files@.len());
                }
            }
            true
        } else {
            false
        }
    }

    /// Opens a file under the lowest free descriptor.
    pub fn open(&mut self, f: FileDesc, cloexec: bool) -> (fd: usize)
        requires
            old(self).wf(),
            old(self).fds@.len() < isize::MAX,
            kind_ok(f.kind, old(self).nodes@.len() as int),
            old(self).files@.len() < usize::MAX,
        ensures
            final(self).wf(),
            opened(*old(self), f, cloexec, fd, *final(self)),
    {
        let id: usize = self.files.len();
        let ghost a = *self;
        self.files.push(f);
        proof {
            assert forall|k: int| open_at(self.fds@, k) implies ((#[trigger] self.fds@[k])->0).0
                < self.files@.len() by {
                assert((a.fds@[k]->0).0 < a.files@.len());
            }
            assert forall|i: int| 0 <= i < self.files@.len() implies kind_ok(
                (#[trigger] self.files@[i]).kind,
                self.nodes@.len() as int,
            ) by {
                if i < a.files@.len() {
                    assert(self.files@[i] == a.files@[i]);
                }
            }
        }
        self.alloc_from(0, id, cloexec)
    }
}

/// A file was opened under the lowest free descriptor.
pub open spec fn opened(a: State, f: FileDesc, cloexec: bool, fd: usize, b: State) -> bool {
    &&& fd == free_at(a.fds@, 0)
    &&& b.files@ == a.files@.push(f)
    &&& b.fds@ == set_at(a.fds@, fd as int, (a.files@.len() as usize, cloexec))
    &&& b == (State { fds: b.fds, files: b.files, ..a })
}

/// A path from the root.
pub open spec fn abs_spec(p: Seq<u8>) -> Seq<u8> {
    if p.len() > 0 && p[0] == 47 {
        p
    } else {
        seq![47u8] + p
    }
}

/// Relative paths are taken from the root.
pub fn abspath(p: &Vec<u8>) -> (r: Vec<u8>)
    ensures
        r@ == abs_spec(p@),
{
    let mut r: Vec<u8> = Vec::new();
    if !(p.len() > 0 && p[0] == 47) {
        r.push(47);
    }
    r.extend_from_slice(p);
    proof {
        assert(r@ =~= abs_spec(p@));
    }
    r
}

/// A byte as a character of its own, in UTF-8.
pub open spec fn as_char(c: u8) -> Seq<u8> {
    if c < 128 {
        seq![c]
    } else {
        seq![(0xc0 + c / 64) as u8, (0x80 + c % 64) as u8]
    }
}

/// The text at an address up to a zero byte, after `n` bytes of it: it ends once
/// it has more than 4096.
pub open spec fn text_at(m: Map<int, u8>, a: int, n: int) -> Seq<u8>
    decreases 4099 - n,
{
    if n > 4096 || m[a] == 0 {
        Seq::empty()
    } else {
        as_char(m[a]) + text_at(m, a + 1, n + as_char(m[a]).len())
    }
}

/// All that reading a text looks at is accessible.
pub open spec fn text_ok(m: Map<int, u8>, a: int, n: int) -> bool
    decreases 4099 - n,
{
    n > 4096 || (m.dom().contains(a) && (m[a] == 0 || text_ok(
        m,
        a + 1,
        n + as_char(m[a]).len(),
    )))
}

pub open spec fn text_of(m: Map<int, u8>, ptr: usize) -> Seq<u8> {
    if ptr == 0 {
        Seq::empty()
    } else {
        text_at(m, ptr as int, 0)
    }
}

/// Reads a text; a null pointer is the empty one.
#[verifier::loop_isolation(false)]
pub fn read_cstr(mem: &UserMem, ptr: usize) -> (r: Vec<u8>)
    requires
        ptr != 0 ==> text_ok(mem@, ptr as int, 0),
    ensures
        r@ == text_of(mem@, ptr),
{
    let mut s: Vec<u8> = Vec::new();
    if ptr == 0 {
        assert(s@ =~= Seq::empty());
        return s;
    }
    let ghost m = mem@;
    let mut p: usize = ptr;
    proof {
        assert(s@ + text_at(m, ptr as int, 0) =~= text_at(m, ptr as int, 0));
        mem.lemma_in_space();
    }
    while s.len() <= 4096
        invariant
            s@.len() <= 4098,
            text_ok(m, p as int, s@.len() as int),
            s@ + text_at(m, p as int, s@.len() as int) == text_at(m, ptr as int, 0),
        decreases 4099 - s@.len(),
    {
        let c: u8 = match mem.load(p) {
            Some(c) => c,
            None => 0,
        };
        if c == 0 {
            proof {
                assert(s@ + Seq::<u8>::empty() =~= s@);
            }
            return s;
        }
        let ghost s0 = s@;
        if c < 128 {
            s.push(c);
        } else {
            s.push(0xc0 + c / 64);
            s.push(0x80 + c % 64);
        }
        proof {
            let rest = text_at(m, p + 1, s@.len() as int);
            assert(s@ =~= s0 + as_char(c));
            assert(s@ + rest =~= s0 + (as_char(c) + rest));
            assert(s@.len() == s0.len() + as_char(c).len());
            assert(text_ok(m, p + 1, s@.len() as int));
            if s@.len() <= 4096 {
                assert(m.dom().contains(p + 1));
            }
        }
        if s.len() > 4096 {
            proof {
                assert(s@ + Seq::<u8>::empty() =~= s@);
            }
            return s;
        }
        p = p + 1;
    }
    proof {
        assert(s@ + Seq::<u8>::empty() =~= s@);
    }
    s
}

/// `/dev/` and a name.
pub open spec fn dev(name: Seq<u8>) -> Seq<u8> {
    seq![47u8, 100, 101, 118, 47] + name
}

pub open spec fn null_name() -> Seq<u8> {
    seq![110u8, 117, 108, 108]
}

pub open spec fn zero_name() -> Seq<u8> {
    seq![122u8, 101, 114, 111]
}

pub open spec fn random_name() -> Seq<u8> {
    seq![114u8, 97, 110, 100, 111, 109]
}

pub open spec fn urandom_name() -> Seq<u8> {
    seq![117u8, 114, 97, 110, 100, 111, 109]
}

pub open spec fn stdout_name() -> Seq<u8> {
    seq![115u8, 116, 100, 111, 117, 116]
}

pub open spec fn stderr_name() -> Seq<u8> {
    seq![115u8, 116, 100, 101, 114, 114]
}

pub open spec fn tty_name() -> Seq<u8> {
    seq![116u8, 116, 121]
}

pub open spec fn console_name() -> Seq<u8> {
    seq![99u8, 111, 110, 115, 111, 108, 101]
}

/// The device of a path: `null`, `zero`, `random` and `urandom`, and the console
/// as `stdout`, `stderr`, `tty` and `console`, all in `/dev`.
pub open spec fn device(p: Seq<u8>) -> Option<FileKind> {
    if p == dev(null_name()) {
        Some(FileKind::Null)
    } else if p == dev(zero_name()) {
        Some(FileKind::Zero)
    } else if p == dev(random_name()) || p == dev(urandom_name()) {
        Some(FileKind::Random)
    } else if p == dev(stdout_name()) || p == dev(stderr_name()) || p == dev(tty_name()) || p
        == dev(console_name()) {
        Some(FileKind::Console)
    } else {
        None
    }
}

fn is_dev(p: &Vec<u8>, name: &Vec<u8>) -> (r: bool)
    ensures
        r == (p@ == dev(name@)),
{
    let mut v: Vec<u8> = vec![47, 100, 101, 118, 47];
    v.extend_from_slice(name);
    proof {
        assert(v@ =~= dev(name@));
    }
    bytes_eq(p, &v)
}

pub fn device_of(p: &Vec<u8>) -> (r: Option<FileKind>)
    ensures
        r == device(p@),
{
    let null: Vec<u8> = vec![110, 117, 108, 108];
    let zero: Vec<u8> = vec![122, 101, 114, 111];
    let random: Vec<u8> = vec![114, 97, 110, 100, 111, 109];
    let urandom: Vec<u8> = vec![117, 114, 97, 110, 100, 111, 109];
    let stdout: Vec<u8> = vec![115, 116, 100, 111, 117, 116];
    let stderr: Vec<u8> = vec![115, 116, 100, 101, 114, 114];
    let tty: Vec<u8> = vec![116, 116, 121];
    let console: Vec<u8> = vec![99, 111, 110, 115, 111, 108, 101];
    proof {
        assert(null@ =~= null_name());
        assert(zero@ =~= zero_name());
        assert(random@ =~= random_name());
        assert(urandom@ =~= urandom_name());
        assert(stdout@ =~= stdout_name());
        assert(stderr@ =~= stderr_name());
        assert(tty@ =~= tty_name());
        assert(console@ =~= console_name());
    }
    if is_dev(p, &null) {
        return Some(FileKind::Null);
    }
    if is_dev(p, &zero) {
        return Some(FileKind::Zero);
    }
    if is_dev(p, &random) || is_dev(p, &urandom) {
        return Some(FileKind::Random);
    }
    if is_dev(p, &stdout) || is_dev(p, &stderr) || is_dev(p, &tty) || is_dev(p, &console) {
        return Some(FileKind::Console);
    }
    None
}

/// The nodes with a file emptied.
pub open spec fn emptied(n: Seq<Data>, i: int, m: Seq<Data>) -> bool {
    &&& m.len() == n.len()
    &&& m[i].is_dir == n[i].is_dir && m[i].bytes@.len() == 0
    &&& forall|j: int| 0 <= j < n.len() && j != i ==> #[trigger] m[j] == n[j]
}

/// Finds out what a path opens. `found` is the node of the path; `created` is a
/// new file, where one is to be made and can be.
pub fn resolve_open(s: &mut State, path: &Vec<u8>, flags: i32, found: Option<usize>, created: Option<usize>) -> (r:
    Result<FileKind, isize>)
    requires
        old(s).wf(),
        found is Some ==> found->0 < old(s).nodes@.len(),
        created is Some ==> created->0 < old(s).nodes@.len(),
    ensures
        final(s).wf(),
        *final(s) == (State { nodes: final(s).nodes, ..*old(s) }),
        r is Ok ==> kind_ok(r->Ok_0, final(s).nodes@.len() as int),
        final(s).nodes@.len() == old(s).nodes@.len(),
        match device(path@) {
            Some(k) => r == Ok::<FileKind, isize>(k) && final(s).nodes@ == old(s).nodes@,
            None => match found {
                Some(n) => if old(s).nodes@[n as int].is_dir {
                    r == Ok::<FileKind, isize>(FileKind::Dir(n)) && final(s).nodes@ == old(
                        s,
                    ).nodes@
                } else {
                    &&& r == Ok::<FileKind, isize>(FileKind::File(n))
                    &&& if flags & O_TRUNC != 0 && flags & 3 != O_RDONLY {
                        emptied(old(s).nodes@, n as int, final(s).nodes@)
                    } else {
                        final(s).nodes@ == old(s).nodes@
                    }
                },
                None => {
                    &&& final(s).nodes@ == old(s).nodes@
                    &&& r == (if flags & O_CREAT != 0 && created is Some {
                        Ok::<FileKind, isize>(FileKind::File(created->0))
                    } else {
                        Err::<FileKind, isize>(ENOENT)
                    })
                },
            },
        },
{
    match device_of(path) {
        Some(k) => {
            return Ok(k);
        },
        None => {},
    }
    match found {
        Some(n) => {
            if s.nodes[n].is_dir {
                return Ok(FileKind::Dir(n));
            }
            if flags & O_TRUNC != 0 && flags & 3 != O_RDONLY {
                let ghost m = s.nodes@;
                s.nodes.set(n, Data { is_dir: false, bytes: Vec::new() });
                proof {
                    assert(emptied(m, n as int, s.nodes@));
                }
            }
            return Ok(FileKind::File(n));
        },
        None => {},
    }
    if flags & O_CREAT != 0 {
        return match created {
            Some(n) => Ok(FileKind::File(n)),
            None => Err(ENOENT),
        };
    }
    Err(ENOENT)
}

/// Whether a file that is opened with these flags can be read and written.
pub open spec fn access(flags: i32) -> (bool, bool) {
    if flags & 3 == O_WRONLY {
        (false, true)
    } else if flags & 3 == O_RDWR {
        (true, true)
    } else {
        (true, false)
    }
}

/// The file that opening gives.
pub open spec fn open_desc(kind: FileKind, flags: i32) -> FileDesc {
    FileDesc {
        kind,
        offset: 0,
        flags,
        readable: access(flags).0,
        writable: access(flags).1,
    }
}

/// Opens what a path led to.
pub fn do_openat(s: &mut State, kind: Result<FileKind, isize>, flags: i32) -> (r: isize)
    requires
        old(s).wf(),
        old(s).fds@.len() < isize::MAX,
        old(s).files@.len() < usize::MAX,
        kind is Ok ==> kind_ok(kind->Ok_0, old(s).nodes@.len() as int),
    ensures
        final(s).wf(),
        match kind {
            Err(e) => r == e && *final(s) == *old(s),
            Ok(k) => r >= 0 && opened(
                *old(s),
                open_desc(k, flags),
                flags & O_CLOEXEC != 0,
                r as usize,
                *final(s),
            ),
        },
{
    match kind {
        Err(e) => e,
        Ok(k) => {
            let (readable, writable): (bool, bool) = match flags & 3 {
                O_WRONLY => (false, true),
                O_RDWR => (true, true),
                _ => (true, false),
            };
            let f = FileDesc { kind: k, offset: 0, flags, readable, writable };
            let ghost n = s.fds@.len();
            proof {
                lemma_free(s.fds@, 0);
            }
            let fd: usize = s.open(f, flags & O_CLOEXEC != 0);
            fd as isize
        },
    }
}

proof fn lemma_free(e: Fds, min: int)
    requires
        0 <= min,
    ensures
        min <= free_at(e, min),
        free_at(e, min) <= e.len() || free_at(e, min) == min,
    decreases e.len() - min,
{
    if min < e.len() && e[min] is Some {
        lemma_free(e, min + 1);
    }
}

/// The bytes of a file after `data` was written at `off`; a gap is filled with
/// zeros.
pub open spec fn written(b: Seq<u8>, off: int, data: Seq<u8>) -> Seq<u8> {
    let end = off + data.len();
    Seq::new(
        if end > b.len() {
            end as nat
        } else {
            b.len()
        },
        |i: int|
            if off <= i < end {
                data[i - off]
            } else if i < b.len() {
                b[i]
            } else {
                0u8
            },
    )
}

fn write_bytes(b: &Vec<u8>, off: usize, data: &Vec<u8>) -> (r: Vec<u8>)
    requires
        off + data@.len() <= usize::MAX,
    ensures
        r@ == written(b@, off as int, data@),
{
    let end: usize = off + data.len();
    let n: usize = if end > b.len() {
        end
    } else {
        b.len()
    };
    let mut r: Vec<u8> = Vec::new();
    let mut i: usize = 0;
    while i < n
        invariant
            i <= n == written(b@, off as int, data@).len(),
            end == off + data@.len(),
            r@ == written(b@, off as int, data@).take(i as int),
        decreases n - i,
    {
        if off <= i && i < end {
            r.push(data[i - off]);
        } else if i < b.len() {
            r.push(b[i]);
        } else {
            r.push(0);
        }
        i = i + 1;
        proof {
            let w = written(b@, off as int, data@);
            assert(w.take(i as int) =~= w.take(i - 1).push(w[i - 1]));
        }
    }
    proof {
        let w = written(b@, off as int, data@);
        assert(w.take(n as int) =~= w);
    }
    r
}

/// Nodes `m` are `n` but for the bytes of one of them.
pub open spec fn rewritten(n: Seq<Data>, i: int, b: Seq<u8>, m: Seq<Data>) -> bool {
    &&& m.len() == n.len()
    &&& m[i].is_dir == n[i].is_dir && m[i].bytes@ == b
    &&& forall|j: int| 0 <= j < n.len() && j != i ==> #[trigger] m[j] == n[j]
}

/// The files with one of them at another place.
pub open spec fn moved(l: Seq<FileDesc>, i: int, offset: usize) -> Seq<FileDesc> {
    l.update(i, FileDesc { offset, ..l[i] })
}

fn move_to(s: &mut State, i: usize, offset: usize)
    requires
        old(s).wf(),
        i < old(s).files@.len(),
    ensures
        final(s).wf(),
        final(s).files@ == moved(old(s).files@, i as int, offset),
        *final(s) == (State { files: final(s).files, ..*old(s) }),
{
    let ghost l = s.files@;
    let mut f: FileDesc = s.files[i];
    f.offset = offset;
    s.files.set(i, f);
    proof {
        assert(s.files@ =~= moved(l, i as int, offset));
        assert forall|k: int| 0 <= k < s.files@.len() implies kind_ok(
            (#[trigger] s.files@[k]).kind,
            s.nodes@.len() as int,
        ) by {
            assert(kind_ok(l[k].kind, s.nodes@.len() as int));
        }
    }
}

fn set_bytes(s: &mut State, n: usize, b: Vec<u8>)
    requires
        old(s).wf(),
        n < old(s).nodes@.len(),
    ensures
        final(s).wf(),
        rewritten(old(s).nodes@, n as int, b@, final(s).nodes@),
        *final(s) == (State { nodes: final(s).nodes, ..*old(s) }),
{
    let d: bool = s.nodes[n].is_dir;
    s.nodes.set(n, Data { is_dir: d, bytes: b });
}

/// What a transfer comes to.
pub enum Io {
    Done(isize),
    /// Print these bytes.
    Print(Vec<u8>),
    /// Send these bytes on a socket.
    Send(usize, Vec<u8>),
    /// Receive on a socket.
    Recv(usize),
}

pub open spec fn write_post(a: State, m: Map<int, u8>, fd: usize, buf: usize, len: usize, r: Io, b: State) -> bool {
    let f = a.file(fd);
    let data = bytes_at(m, buf as int, len as int);
    if !a.is_open(fd) || (!f.writable && f.kind != FileKind::Console) {
        r == Io::Done(EBADF) && b == a
    } else {
        match f.kind {
            FileKind::Console => r is Print && r->Print_0@ == data && b == a,
            FileKind::Null => r == Io::Done(len as isize) && b == a,
            FileKind::File(n) => {
                let off = if f.flags & O_APPEND != 0 {
                    a.nodes@[n as int].bytes@.len() as int
                } else {
                    f.offset as int
                };
                &&& r == Io::Done(len as isize)
                &&& rewritten(
                    a.nodes@,
                    n as int,
                    written(a.nodes@[n as int].bytes@, off, data),
                    b.nodes@,
                )
                &&& b.files@ == moved(a.files@, a.file_no(fd), (off + len) as usize)
                &&& b == (State { nodes: b.nodes, files: b.files, ..a })
            },
            FileKind::Socket(i) => r is Send && r->Send_0 == i && r->Send_1@ == data && b == a,
            _ => r == Io::Done(EBADF) && b == a,
        }
    }
}

/// The end of a file after a write is within the address space.
pub open spec fn write_fits(s: State, fd: usize, len: usize) -> bool {
    s.is_open(fd) ==> s.file(fd).offset + len <= usize::MAX && match s.file(fd).kind {
        FileKind::File(n) => s.nodes@[n as int].bytes@.len() + len <= usize::MAX,
        _ => true,
    }
}

/// Writes to a file.
pub fn do_write(s: &mut State, mem: &UserMem, fd: usize, buf: usize, len: usize) -> (r: Io)
    requires
        old(s).wf(),
        mapped(mem@, buf as int, len as int),
        len <= isize::MAX,
        write_fits(*old(s), fd, len),
    ensures
        final(s).wf(),
        write_post(*old(s), mem@, fd, buf, len, r, *final(s)),
{
    let i: usize = match s.get(fd) {
        Some(i) => i,
        None => {
            return Io::Done(EBADF);
        },
    };
    let f: FileDesc = s.files[i];
    let data: Vec<u8> = match mem.copy_from_user(buf, len) {
        Ok(d) => d,
        Err(_) => {
            return Io::Done(EBADF);
        },
    };
    if !f.writable && f.kind != FileKind::Console {
        return Io::Done(EBADF);
    }
    match f.kind {
        FileKind::Console => Io::Print(data),
        FileKind::Null => Io::Done(len as isize),
        FileKind::File(n) => {
            proof {
                assert(kind_ok(s.files@[i as int].kind, s.nodes@.len() as int));
            }
            let off: usize = if f.flags & O_APPEND != 0 {
                s.nodes[n].bytes.len()
            } else {
                f.offset
            };
            let b: Vec<u8> = write_bytes(&s.nodes[n].bytes, off, &data);
            set_bytes(s, n, b);
            move_to(s, i, off + len);
            Io::Done(len as isize)
        },
        FileKind::Socket(k) => Io::Send(k, data),
        _ => Io::Done(EBADF),
    }
}

/// The random bytes that come from a seed.
pub open spec fn noise(seed: u64, inc: u64, n: nat) -> Seq<u8>
    decreases n,
{
    let s = ((seed as int * 6364136223846793005 + inc) % 0x1_0000_0000_0000_0000) as u64;
    if n == 0 {
        Seq::empty()
    } else {
        seq![((s >> 33) & 0xff) as u8] + noise(s, inc, (n - 1) as nat)
    }
}

fn make_noise(seed: u64, inc: u64, n: usize) -> (r: Vec<u8>)
    ensures
        r@ == noise(seed, inc, n as nat),
{
    let mut r: Vec<u8> = Vec::new();
    let mut s: u64 = seed;
    let mut i: usize = 0;
    proof {
        assert(r@ + noise(seed, inc, n as nat) =~= noise(seed, inc, n as nat));
    }
    while i < n
        invariant
            i <= n,
            r@ + noise(s, inc, (n - i) as nat) == noise(seed, inc, n as nat),
        decreases n - i,
    {
        let ghost s0 = s;
        s = s.wrapping_mul(6364136223846793005).wrapping_add(inc);
        proof {
            lemma_lcg(s0, inc);
        }
        let ghost r0 = r@;
        r.push(((s >> 33) & 0xff) as u8);
        proof {
            let rest = noise(s, inc, (n - i - 1) as nat);
            assert(r@ + rest =~= r0 + (seq![((s >> 33) & 0xff) as u8] + rest));
        }
        i = i + 1;
    }
    proof {
        assert(r@ + Seq::<u8>::empty() =~= r@);
    }
    r
}

proof fn lemma_lcg(s: u64, inc: u64)
    ensures
        (((s as int * 6364136223846793005) % 0x1_0000_0000_0000_0000) + inc)
            % 0x1_0000_0000_0000_0000 == (s as int * 6364136223846793005 + inc)
            % 0x1_0000_0000_0000_0000,
{
    let p = s as int * 6364136223846793005;
    vstd::arithmetic::div_mod::lemma_add_mod_noop(p, inc as int, 0x1_0000_0000_0000_0000);
    assert((inc as int) % 0x1_0000_0000_0000_0000 == inc);
}

pub const READ_INC: u64 = 1;

pub const RANDOM_INC: u64 = 1442695040888963407;

pub open spec fn smaller(a: int, b: int) -> int {
    if a < b {
        a
    } else {
        b
    }
}

/// The part of a file that a read gives.
pub open spec fn part(b: Seq<u8>, off: int, len: int) -> Seq<u8> {
    if off >= b.len() {
        Seq::empty()
    } else {
        b.subrange(off, off + smaller(len, b.len() - off))
    }
}

fn read_part(b: &Vec<u8>, off: usize, len: usize) -> (r: Vec<u8>)
    ensures
        r@ == part(b@, off as int, len as int),
        r@.len() <= len,
        off < b@.len() ==> off + r@.len() <= b@.len(),
{
    let mut r: Vec<u8> = Vec::new();
    if off >= b.len() {
        assert(r@ =~= Seq::empty());
        return r;
    }
    let take: usize = if len < b.len() - off {
        len
    } else {
        b.len() - off
    };
    let n: usize = b.len();
    let mut i: usize = 0;
    while i < take
        invariant
            i <= take,
            n == b@.len(),
            off + take <= n,
            r@ == b@.subrange(off as int, off + i),
        decreases take - i,
    {
        r.push(b[off + i]);
        i = i + 1;
        proof {
            assert(r@ =~= b@.subrange(off as int, off + i));
        }
    }
    r
}

pub open spec fn read_post(
    a: State,
    m: Map<int, u8>,
    fd: usize,
    buf: usize,
    len: usize,
    seed: u64,
    r: Io,
    b: State,
    n: Map<int, u8>,
) -> bool {
    let f = a.file(fd);
    if !a.is_open(fd) || !f.readable {
        r == Io::Done(EBADF) && b == a && n == m
    } else {
        match f.kind {
            FileKind::Console => r == Io::Done(0) && b == a && n == m,
            FileKind::Null => r == Io::Done(0) && b == a && n == m,
            FileKind::Zero => r == Io::Done(len as isize) && b == a && n == stored(
                m,
                buf as int,
                zeros(len as nat),
            ),
            FileKind::Random => r == Io::Done(len as isize) && b == a && n == stored(
                m,
                buf as int,
                noise(seed, READ_INC, len as nat),
            ),
            FileKind::File(k) => {
                let p = part(a.nodes@[k as int].bytes@, f.offset as int, len as int);
                &&& r == Io::Done(p.len() as isize)
                &&& n == stored(m, buf as int, p)
                &&& b == (State { files: b.files, ..a })
                &&& b.files@ == moved(
                    a.files@,
                    a.file_no(fd),
                    if f.offset >= a.nodes@[k as int].bytes@.len() {
                        f.offset
                    } else {
                        (f.offset + p.len()) as usize
                    },
                )
            },
            FileKind::Socket(k) => r == Io::Recv(k) && b == a && n == m,
            _ => r == Io::Done(EBADF) && b == a && n == m,
        }
    }
}

proof fn lemma_noise_len(seed: u64, inc: u64, n: nat)
    ensures
        noise(seed, inc, n).len() == n,
    decreases n,
{
    if n > 0 {
        let s = ((seed as int * 6364136223846793005 + inc) % 0x1_0000_0000_0000_0000) as u64;
        lemma_noise_len(s, inc, (n - 1) as nat);
    }
}

fn put(mem: &mut UserMem, at: usize, v: &Vec<u8>)
    requires
        mapped(old(mem)@, at as int, v@.len() as int),
    ensures
        final(mem)@ == stored(old(mem)@, at as int, v@),
{
    let _ = mem.copy_to_user(at, v);
}

proof fn lemma_fewer(m: Map<int, u8>, a: int, n: int, k: int)
    requires
        mapped(m, a, n),
        k <= n,
    ensures
        mapped(m, a, k),
{
}

/// Reads from a file. `seed` is what random bytes are made from.
pub fn do_read(s: &mut State, mem: &mut UserMem, fd: usize, buf: usize, len: usize, seed: u64) -> (r: Io)
    requires
        old(s).wf(),
        mapped(old(mem)@, buf as int, len as int),
        len <= isize::MAX,
    ensures
        final(s).wf(),
        read_post(
            *old(s),
            old(mem)@,
            fd,
            buf,
            len,
            seed,
            r,
            *final(s),
            final(mem)@,
        ),
{
    let i: usize = match s.get(fd) {
        Some(i) => i,
        None => {
            return Io::Done(EBADF);
        },
    };
    let f: FileDesc = s.files[i];
    if !f.readable {
        return Io::Done(EBADF);
    }
    match f.kind {
        FileKind::Console | FileKind::Null => Io::Done(0),
        FileKind::Zero => {
            let mut v: Vec<u8> = Vec::new();
            put_zeros(&mut v, len);
            assert(v@ =~= zeros(len as nat));
            put(mem, buf, &v);
            Io::Done(len as isize)
        },
        FileKind::Random => {
            let v: Vec<u8> = make_noise(seed, READ_INC, len);
            proof {
                lemma_noise_len(seed, READ_INC, len as nat);
            }
            put(mem, buf, &v);
            Io::Done(len as isize)
        },
        FileKind::File(k) => {
            proof {
                assert(kind_ok(s.files@[i as int].kind, s.nodes@.len() as int));
            }
            let v: Vec<u8> = read_part(&s.nodes[k].bytes, f.offset, len);
            proof {
                lemma_fewer(mem@, buf as int, len as int, v@.len() as int);
            }
            put(mem, buf, &v);
            let at: usize = if f.offset >= s.nodes[k].bytes.len() {
                f.offset
            } else {
                f.offset + v.len()
            };
            move_to(s, i, at);
            Io::Done(v.len() as isize)
        },
        FileKind::Socket(k) => Io::Recv(k),
        _ => Io::Done(EBADF),
    }
}

/// Reads at a place of a file. Other files are read where they stand.
pub fn do_pread(s: &mut State, mem: &mut UserMem, fd: usize, buf: usize, len: usize, offset: usize, seed: u64) -> (r:
    Io)
    requires
        old(s).wf(),
        mapped(old(mem)@, buf as int, len as int),
        len <= isize::MAX,
    ensures
        final(s).wf(),
        if !old(s).is_open(fd) {
            r == Io::Done(EBADF) && *final(s) == *old(s) && final(mem)@ == old(mem)@
        } else {
            match old(s).file(fd).kind {
                FileKind::File(k) => {
                    let p = part(old(s).nodes@[k as int].bytes@, offset as int, len as int);
                    r == Io::Done(p.len() as isize) && *final(s) == *old(s) && final(mem)@
                        == stored(old(mem)@, buf as int, p)
                },
                _ => read_post(
                    *old(s),
                    old(mem)@,
                    fd,
                    buf,
                    len,
                    seed,
                    r,
                    *final(s),
                    final(mem)@,
                ),
            }
        },
{
    let i: usize = match s.get(fd) {
        Some(i) => i,
        None => {
            return Io::Done(EBADF);
        },
    };
    match s.files[i].kind {
        FileKind::File(k) => {
            proof {
                assert(kind_ok(s.files@[i as int].kind, s.nodes@.len() as int));
            }
            let v: Vec<u8> = read_part(&s.nodes[k].bytes, offset, len);
            proof {
                lemma_fewer(mem@, buf as int, len as int, v@.len() as int);
            }
            put(mem, buf, &v);
            Io::Done(v.len() as isize)
        },
        _ => do_read(s, mem, fd, buf, len, seed),
    }
}

/// Writes at a place of a file. Other files are written where they stand.
pub fn do_pwrite(s: &mut State, mem: &UserMem, fd: usize, buf: usize, len: usize, offset: usize) -> (r: Io)
    requires
        old(s).wf(),
        mapped(mem@, buf as int, len as int),
        len <= isize::MAX,
        offset + len <= usize::MAX,
        write_fits(*old(s), fd, len),
    ensures
        final(s).wf(),
        if !old(s).is_open(fd) {
            r == Io::Done(EBADF) && *final(s) == *old(s)
        } else {
            match old(s).file(fd).kind {
                FileKind::File(n) => {
                    &&& r == Io::Done(len as isize)
                    &&& rewritten(
                        old(s).nodes@,
                        n as int,
                        written(
                            old(s).nodes@[n as int].bytes@,
                            offset as int,
                            bytes_at(mem@, buf as int, len as int),
                        ),
                        final(s).nodes@,
                    )
                    &&& *final(s) == (State { nodes: final(s).nodes, ..*old(s) })
                },
                _ => write_post(*old(s), mem@, fd, buf, len, r, *final(s)),
            }
        },
{
    let i: usize = match s.get(fd) {
        Some(i) => i,
        None => {
            return Io::Done(EBADF);
        },
    };
    match s.files[i].kind {
        FileKind::File(n) => {
            proof {
                assert(kind_ok(s.files@[i as int].kind, s.nodes@.len() as int));
            }
            let data: Vec<u8> = match mem.copy_from_user(buf, len) {
                Ok(d) => d,
                Err(_) => {
                    return Io::Done(EBADF);
                },
            };
            let b: Vec<u8> = write_bytes(&s.nodes[n].bytes, offset, &data);
            set_bytes(s, n, b);
            Io::Done(len as isize)
        },
        _ => do_write(s, mem, fd, buf, len),
    }
}

/// How a call on several buffers goes on.
#[derive(Clone, Copy, PartialEq, Eq, Structural, Debug)]
pub enum VecStep {
    Done(isize),
    Next(isize),
}

pub open spec fn vec_spec(total: isize, len: usize, r: isize) -> VecStep {
    if r < 0 {
        VecStep::Done(
            if total > 0 {
                total
            } else {
                r
            },
        )
    } else if (r as int) < len {
        VecStep::Done((total + r) as isize)
    } else {
        VecStep::Next((total + r) as isize)
    }
}

/// Writing one of several buffers, of `len` bytes, returned `r` after `total`. A
/// failure counts only at the first; a short write ends the call.
pub fn do_writev(total: isize, len: usize, r: isize) -> (s: VecStep)
    requires
        0 <= total,
        r >= 0 ==> total + r <= isize::MAX,
    ensures
        s == vec_spec(total, len, r),
{
    if r < 0 {
        return VecStep::Done(
            if total > 0 {
                total
            } else {
                r
            },
        );
    }
    if (r as usize) < len {
        return VecStep::Done(total + r);
    }
    VecStep::Next(total + r)
}

/// Reading into one of several buffers.
pub fn do_readv(total: isize, len: usize, r: isize) -> (s: VecStep)
    requires
        0 <= total,
        r >= 0 ==> total + r <= isize::MAX,
    ensures
        s == vec_spec(total, len, r),
{
    do_writev(total, len, r)
}

/// The attributes of a file: directories, devices and files have each their
/// mode.
pub open spec fn stat_bytes(size: usize, is_dir: bool, is_chr: bool) -> Seq<u8> {
    let mode: nat = if is_dir {
        0o040755
    } else if is_chr {
        0o020666
    } else {
        0o100644
    };
    le(1, 8) + le(1, 8) + le(mode, 4) + le(1, 4) + zeros(24) + le(size as nat, 8) + le(4096, 4)
        + zeros(4) + le(((size + 511) / 512) as nat, 8) + zeros(56)
}

/// Stores the attributes of a file.
pub fn fill_stat(mem: &mut UserMem, at: usize, size: usize, is_dir: bool, is_chr: bool)
    requires
        mapped(old(mem)@, at as int, 128),
        size + 511 <= usize::MAX,
    ensures
        final(mem)@ == stored(old(mem)@, at as int, stat_bytes(size, is_dir, is_chr)),
{
    let mode: u64 = if is_dir {
        0o040755
    } else if is_chr {
        0o020666
    } else {
        0o100644
    };
    let mut v: Vec<u8> = Vec::new();
    put_le(&mut v, 1, 8);
    put_le(&mut v, 1, 8);
    put_le(&mut v, mode, 4);
    put_le(&mut v, 1, 4);
    put_zeros(&mut v, 24);
    put_le(&mut v, size as u64, 8);
    put_le(&mut v, 4096, 4);
    put_zeros(&mut v, 4);
    put_le(&mut v, ((size + 511) / 512) as u64, 8);
    put_zeros(&mut v, 56);
    proof {
        broadcast use crate::bytes::lemma_le_len;

        assert(v@ =~= stat_bytes(size, is_dir, is_chr));
        assert(v@.len() == 128);
    }
    put(mem, at, &v);
}

/// Size, and whether it is a directory or a device.
pub open spec fn stat_of(s: State, k: FileKind) -> (usize, bool, bool) {
    match k {
        FileKind::File(n) => (s.nodes@[n as int].bytes@.len() as usize, false, false),
        FileKind::Dir(_) => (0, true, false),
        _ => (0, false, true),
    }
}

pub fn stat_kind(s: &State, k: FileKind) -> (r: (usize, bool, bool))
    requires
        kind_ok(k, s.nodes@.len() as int),
    ensures
        r == stat_of(*s, k),
{
    match k {
        FileKind::File(n) => (s.nodes[n].bytes.len(), false, false),
        FileKind::Dir(_) => (0, true, false),
        _ => (0, false, true),
    }
}

/// Tells the attributes of an open file.
pub fn do_fstat(s: &State, mem: &mut UserMem, fd: usize, at: usize) -> (r: isize)
    requires
        s.wf(),
        s.is_open(fd) ==> mapped(old(mem)@, at as int, 128),
        s.is_open(fd) ==> stat_of(*s, s.file(fd).kind).0 + 511 <= usize::MAX,
    ensures
        if s.is_open(fd) {
            let x = stat_of(*s, s.file(fd).kind);
            r == 0 && final(mem)@ == stored(old(mem)@, at as int, stat_bytes(x.0, x.1, x.2))
        } else {
            r == EBADF && final(mem)@ == old(mem)@
        },
{
    match s.get(fd) {
        Some(i) => {
            proof {
                assert(kind_ok(s.files@[i as int].kind, s.nodes@.len() as int));
            }
            let (size, d, c): (usize, bool, bool) = stat_kind(s, s.files[i].kind);
            fill_stat(mem, at, size, d, c);
            0
        },
        None => EBADF,
    }
}

/// Tells the attributes of a path from the root, whose node was looked for.
/// Devices need no node.
pub fn do_fstatat(s: &State, mem: &mut UserMem, full: &Vec<u8>, found: Option<usize>, at: usize) -> (r: isize)
    requires
        s.wf(),
        mapped(old(mem)@, at as int, 128),
        found is Some ==> found->0 < s.nodes@.len() && s.nodes@[found->0 as int].bytes@.len() + 511
            <= usize::MAX,
    ensures
        if device(full@) is Some {
            r == 0 && final(mem)@ == stored(old(mem)@, at as int, stat_bytes(0, false, true))
        } else {
            match found {
                Some(n) => r == 0 && final(mem)@ == stored(
                    old(mem)@,
                    at as int,
                    stat_bytes(
                        s.nodes@[n as int].bytes@.len() as usize,
                        s.nodes@[n as int].is_dir,
                        false,
                    ),
                ),
                None => r == ENOENT && final(mem)@ == old(mem)@,
            }
        },
{
    if device_of(full).is_some() {
        fill_stat(mem, at, 0, false, true);
        return 0;
    }
    match found {
        Some(n) => {
            let size: usize = s.nodes[n].bytes.len();
            let d: bool = s.nodes[n].is_dir;
            fill_stat(mem, at, size, d, false);
            0
        },
        None => ENOENT,
    }
}

/// What a mapping of a file is filled with: the file from `offset` on, as far as
/// the mapping goes. Other files give nothing.
pub fn mmap_data(s: &State, fd: usize, offset: usize, len: usize) -> (r: Vec<u8>)
    requires
        s.wf(),
    ensures
        r@ == (if s.is_open(fd) {
            match s.file(fd).kind {
                FileKind::File(n) => part(s.nodes@[n as int].bytes@, offset as int, len as int),
                _ => Seq::empty(),
            }
        } else {
            Seq::empty()
        }),
{
    let r: Vec<u8> = Vec::new();
    assert(r@ =~= Seq::empty());
    match s.get(fd) {
        Some(i) => match s.files[i].kind {
            FileKind::File(n) => {
                proof {
                    assert(kind_ok(s.files@[i as int].kind, s.nodes@.len() as int));
                }
                read_part(&s.nodes[n].bytes, offset, len)
            },
            _ => r,
        },
        None => r,
    }
}

/// The port of an address in memory.
pub fn sockaddr_port(mem: &UserMem, addr: usize) -> (r: u16)
    requires
        mapped(mem@, addr as int, 4),
    ensures
        r == mem@[addr + 2] * 256 + mem@[addr + 3],
{
    match mem.copy_from_user(addr, 4) {
        Ok(b) => b[2] as u16 * 256 + b[3] as u16,
        Err(_) => 0,
    }
}

/// An address: family, port and number, the last two with the most significant
/// byte first.
pub open spec fn addr_bytes(ip: u32, port: u16) -> Seq<u8> {
    le(2, 2) + seq![
        (port / 256) as u8,
        (port % 256) as u8,
        (ip / 0x100_0000) as u8,
        (ip / 0x1_0000 % 256) as u8,
        (ip / 256 % 256) as u8,
        (ip % 256) as u8,
    ]
}

/// Tells an address where there are 16 bytes for it, and that this is its size.
pub fn write_sockaddr_in(mem: &mut UserMem, addr: usize, addrlen: usize, ip: u32, port: u16)
    requires
        addr != 0 && addrlen != 0 ==> mapped(old(mem)@, addrlen as int, 4) && (num_at(
            old(mem)@,
            addrlen as int,
            4,
        ) >= 16 ==> mapped(old(mem)@, addr as int, 8)),
    ensures
        ({
            let m = old(mem)@;
            let m1 = if num_at(m, addrlen as int, 4) >= 16 {
                stored(m, addr as int, addr_bytes(ip, port))
            } else {
                m
            };
            final(mem)@ == (if addr == 0 || addrlen == 0 {
                m
            } else {
                stored(m1, addrlen as int, le(16, 4))
            })
        }),
{
    if addr == 0 || addrlen == 0 {
        return ;
    }
    let ghost m = mem@;
    let cap: u64 = match mem.read_num(addrlen, 4) {
        Ok(v) => v,
        Err(_) => {
            return ;
        },
    };
    if cap >= 16 {
        let mut v: Vec<u8> = Vec::new();
        put_le(&mut v, 2, 2);
        v.push((port / 256) as u8);
        v.push((port % 256) as u8);
        v.push((ip / 0x100_0000) as u8);
        v.push((ip / 0x1_0000 % 256) as u8);
        v.push((ip / 256 % 256) as u8);
        v.push((ip % 256) as u8);
        proof {
            lemma_le_len(2, 2);
            assert(v@ =~= addr_bytes(ip, port));
            crate::syscall::process::lemma_mapped_stored(m, addr as int, v@);
        }
        put(mem, addr, &v);
    }
    let v: Vec<u8> = le_bytes(16, 4);
    proof {
        lemma_le_len(16, 4);
    }
    put(mem, addrlen, &v);
}

/// The socket behind a descriptor.
pub open spec fn sock_spec(s: State, fd: usize) -> Option<usize> {
    if s.is_open(fd) {
        match s.file(fd).kind {
            FileKind::Socket(i) => Some(i),
            _ => None,
        }
    } else {
        None
    }
}

pub fn sock_idx(s: &State, fd: usize) -> (r: Option<usize>)
    requires
        s.wf(),
    ensures
        r == sock_spec(*s, fd),
{
    match s.get(fd) {
        Some(i) => match s.files[i].kind {
            FileKind::Socket(k) => Some(k),
            _ => None,
        },
        None => None,
    }
}

/// A file that is not of the file system.
pub open spec fn special(kind: FileKind, flags: i32) -> FileDesc {
    FileDesc { kind, offset: 0, flags, readable: true, writable: true }
}

/// Opens a socket's file.
pub fn wrap_socket(s: &mut State, idx: usize, nonblock: bool, cloexec: bool) -> (r: isize)
    requires
        old(s).wf(),
        old(s).fds@.len() < isize::MAX,
        old(s).files@.len() < usize::MAX,
    ensures
        final(s).wf(),
        r >= 0,
        opened(
            *old(s),
            special(
                FileKind::Socket(idx),
                if nonblock {
                    O_NONBLOCK
                } else {
                    0
                },
            ),
            cloexec,
            r as usize,
            *final(s),
        ),
{
    let f = FileDesc {
        kind: FileKind::Socket(idx),
        offset: 0,
        flags: if nonblock {
            O_NONBLOCK
        } else {
            0
        },
        readable: true,
        writable: true,
    };
    proof {
        lemma_free(s.fds@, 0);
    }
    s.open(f, cloexec) as isize
}

pub const SOCK_NONBLOCK: usize = 0o4000;

pub const SOCK_CLOEXEC: usize = 0o2000000;

/// Only internet sockets are known: whether the socket to be made must not
/// block, and whether it is closed when a program starts.
pub fn do_socket(domain: usize, ty: usize) -> (r: Result<(bool, bool), isize>)
    ensures
        r == (if domain != 2 {
            Err::<(bool, bool), isize>(EAFNOSUPPORT)
        } else {
            Ok::<(bool, bool), isize>((ty & SOCK_NONBLOCK != 0, ty & SOCK_CLOEXEC != 0))
        }),
{
    if domain != 2 {
        return Err(EAFNOSUPPORT);
    }
    Ok((ty & SOCK_NONBLOCK != 0, ty & SOCK_CLOEXEC != 0))
}

/// The end of accepting a connection, socket `idx`: its address is told, and it
/// gets a descriptor.
pub fn do_accept(
    s: &mut State,
    mem: &mut UserMem,
    got: Result<usize, isize>,
    local: (u32, u16),
    addr: usize,
    addrlen: usize,
    flags: usize,
) -> (r: isize)
    requires
        old(s).wf(),
        old(s).fds@.len() < isize::MAX,
        old(s).files@.len() < usize::MAX,
        addr != 0 && addrlen != 0 ==> mapped(old(mem)@, addrlen as int, 4) && (num_at(
            old(mem)@,
            addrlen as int,
            4,
        ) >= 16 ==> mapped(old(mem)@, addr as int, 8)),
    ensures
        final(s).wf(),
        match got {
            Err(e) => r == e && *final(s) == *old(s) && final(mem)@ == old(mem)@,
            Ok(idx) => {
                let m = old(mem)@;
                let m1 = if num_at(m, addrlen as int, 4) >= 16 {
                    stored(m, addr as int, addr_bytes(local.0, local.1))
                } else {
                    m
                };
                &&& r >= 0
                &&& opened(
                    *old(s),
                    special(
                        FileKind::Socket(idx),
                        if flags & SOCK_NONBLOCK != 0 {
                            O_NONBLOCK
                        } else {
                            0
                        },
                    ),
                    flags & SOCK_CLOEXEC != 0,
                    r as usize,
                    *final(s),
                )
                &&& final(mem)@ == (if addr == 0 || addrlen == 0 {
                    m
                } else {
                    stored(m1, addrlen as int, le(16, 4))
                })
            },
        },
{
    match got {
        Err(e) => e,
        Ok(idx) => {
            if addr != 0 {
                write_sockaddr_in(mem, addr, addrlen, local.0, local.1);
            }
            wrap_socket(s, idx, flags & SOCK_NONBLOCK != 0, flags & SOCK_CLOEXEC != 0)
        },
    }
}

/// Connects nowhere: no local path is there, and all else refuses.
pub fn do_connect(mem: &UserMem, addr: usize, len: usize) -> (r: isize)
    ensures
        r == (if len >= 2 && mapped(mem@, addr as int, 2) && num_at(mem@, addr as int, 2) == 1 {
            ENOENT
        } else {
            ECONNREFUSED
        }),
{
    if len >= 2 {
        match mem.read_num(addr, 2) {
            Ok(family) => {
                if family == 1 {
                    return ENOENT;
                }
            },
            Err(_) => {},
        }
    }
    ECONNREFUSED
}

/// Tells the address of a socket.
pub fn do_getsockname(s: &State, mem: &mut UserMem, fd: usize, local: (u32, u16), addr: usize, addrlen: usize) -> (r:
    isize)
    requires
        s.wf(),
        addr != 0 && addrlen != 0 ==> mapped(old(mem)@, addrlen as int, 4) && (num_at(
            old(mem)@,
            addrlen as int,
            4,
        ) >= 16 ==> mapped(old(mem)@, addr as int, 8)),
    ensures
        ({
            let m = old(mem)@;
            let m1 = if num_at(m, addrlen as int, 4) >= 16 {
                stored(m, addr as int, addr_bytes(local.0, local.1))
            } else {
                m
            };
            if sock_spec(*s, fd) is None {
                r == ENOTSOCK && final(mem)@ == m
            } else {
                r == 0 && final(mem)@ == (if addr == 0 || addrlen == 0 {
                    m
                } else {
                    stored(m1, addrlen as int, le(16, 4))
                })
            }
        }),
{
    match sock_idx(s, fd) {
        Some(_) => {
            write_sockaddr_in(mem, addr, addrlen, local.0, local.1);
            0
        },
        None => ENOTSOCK,
    }
}

/// Every option is told as zero, in four bytes.
pub fn do_getsockopt(mem: &mut UserMem, optval: usize, optlen: usize) -> (r: isize)
    requires
        optval != 0 && optlen != 0 ==> mapped(old(mem)@, optlen as int, 4) && (num_at(
            old(mem)@,
            optlen as int,
            4,
        ) >= 4 ==> mapped(old(mem)@, optval as int, 4)),
    ensures
        r == 0,
        ({
            let m = old(mem)@;
            let m1 = if num_at(m, optlen as int, 4) >= 4 {
                stored(m, optval as int, le(0, 4))
            } else {
                m
            };
            final(mem)@ == (if optval == 0 || optlen == 0 {
                m
            } else {
                stored(m1, optlen as int, le(4, 4))
            })
        }),
{
    if optval == 0 || optlen == 0 {
        return 0;
    }
    let ghost m = mem@;
    let cap: u64 = match mem.read_num(optlen, 4) {
        Ok(v) => v,
        Err(_) => {
            return 0;
        },
    };
    if cap >= 4 {
        let z: Vec<u8> = le_bytes(0, 4);
        proof {
            lemma_le_len(0, 4);
            crate::syscall::process::lemma_mapped_stored(m, optval as int, z@);
        }
        put(mem, optval, &z);
    }
    let v: Vec<u8> = le_bytes(4, 4);
    proof {
        lemma_le_len(4, 4);
    }
    put(mem, optlen, &v);
    0
}

/// The buffers of a message: their address and number.
pub fn do_sendmsg(mem: &UserMem, msg: usize) -> (r: (usize, usize))
    requires
        mapped(mem@, msg + 16, 16),
        msg + 16 <= usize::MAX,
    ensures
        r.0 == num_at(mem@, msg + 16, 8) as usize,
        r.1 == num_at(mem@, msg + 24, 8) as usize,
{
    match mem.copy_from_user(msg + 16, 16) {
        Ok(b) => {
            let iov: u64 = field(&b, 0, 8, Ghost(mem@), Ghost(msg + 16));
            let n: u64 = field(&b, 8, 8, Ghost(mem@), Ghost(msg + 16));
            (iov as usize, n as usize)
        },
        Err(_) => (0, 0),
    }
}

/// What a file is ready for: reading and writing. `socks` says so of sockets.
pub open spec fn ready_of(k: FileKind, socks: Seq<(bool, bool)>) -> (bool, bool) {
    match k {
        FileKind::Socket(i) => socks[i as int],
        FileKind::Console => (false, true),
        _ => (true, true),
    }
}

pub open spec fn socks_ok(s: State, n: int) -> bool {
    forall|i: int| 0 <= i < s.files@.len() ==> match (#[trigger] s.files@[i]).kind {
        FileKind::Socket(k) => k < n,
        _ => true,
    }
}

fn is_ready(k: FileKind, socks: &Vec<(bool, bool)>) -> (r: (bool, bool))
    requires
        k is Socket ==> k->Socket_0 < socks@.len(),
    ensures
        r == ready_of(k, socks@),
{
    match k {
        FileKind::Socket(i) => socks[i],
        FileKind::Console => (false, true),
        _ => (true, true),
    }
}

/// What an entry of poll is told.
pub open spec fn polled(s: State, socks: Seq<(bool, bool)>, fd: i32, events: u16) -> u16 {
    if fd < 0 || !s.is_open(fd as usize) {
        0
    } else {
        let r = ready_of(s.file(fd as usize).kind, socks);
        let i: int = if events & 1 != 0 && r.0 {
            1
        } else {
            0
        };
        let o: int = if events & 4 != 0 && r.1 {
            4
        } else {
            0
        };
        (i + o) as u16
    }
}

fn poll_one(s: &State, socks: &Vec<(bool, bool)>, fd: i32, events: u16) -> (r: u16)
    requires
        s.wf(),
        socks_ok(*s, socks@.len() as int),
    ensures
        r == polled(*s, socks@, fd, events),
{
    if fd < 0 {
        return 0;
    }
    match s.get(fd as usize) {
        None => 0,
        Some(i) => {
            proof {
                assert(match s.files@[i as int].kind {
                    FileKind::Socket(k) => k < socks@.len(),
                    _ => true,
                });
            }
            let x: (bool, bool) = is_ready(s.files[i].kind, socks);
            let a: u16 = if events & 1 != 0 && x.0 {
                1
            } else {
                0
            };
            let b: u16 = if events & 4 != 0 && x.1 {
                4
            } else {
                0
            };
            a + b
        },
    }
}

/// One look at the entries from the `i`-th of `n` on: the memory and how many
/// were told something, with `count` before.
pub open spec fn poll_look(
    s: State,
    socks: Seq<(bool, bool)>,
    m: Map<int, u8>,
    at: int,
    n: int,
    i: int,
    count: int,
) -> (Map<int, u8>, int)
    decreases n - i,
{
    let a = at + 8 * i;
    let rev = polled(s, socks, num_at(m, a, 4) as u32 as i32, num_at(m, a + 4, 2) as u16);
    if i >= n {
        (m, count)
    } else {
        poll_look(
            s,
            socks,
            stored(m, a + 6, le(rev as nat, 2)),
            at,
            n,
            i + 1,
            if rev != 0 {
                count + 1
            } else {
                count
            },
        )
    }
}

/// One round of poll: tells every entry, and how many are ready.
#[verifier::loop_isolation(false)]
pub fn do_ppoll(s: &State, socks: &Vec<(bool, bool)>, mem: &mut UserMem, fds: usize, nfds: usize) -> (r: usize)
    requires
        s.wf(),
        socks_ok(*s, socks@.len() as int),
        mapped(old(mem)@, fds as int, 8 * nfds),
        fds + 8 * nfds <= usize::MAX,
    ensures
        (final(mem)@, r as int) == poll_look(
            *s,
            socks@,
            old(mem)@,
            fds as int,
            nfds as int,
            0,
            0,
        ),
{
    let ghost all = poll_look(*s, socks@, mem@, fds as int, nfds as int, 0, 0);
    let mut i: usize = 0;
    let mut count: usize = 0;
    while i < nfds
        invariant
            i <= nfds,
            count <= i,
            mapped(mem@, fds as int, 8 * nfds),
            poll_look(*s, socks@, mem@, fds as int, nfds as int, i as int, count as int) == all,
        decreases nfds - i,
    {
        let at: usize = fds + 8 * i;
        let ghost m = mem@;
        proof {
            assert forall|a: int| at <= a < at + 8 implies #[trigger] m.dom().contains(a) by {}
        }
        match mem.copy_from_user(at, 8) {
            Ok(b) => {
                let fd: i32 = field(&b, 0, 4, Ghost(m), Ghost(at as int)) as u32 as i32;
                let events: u16 = field(&b, 4, 2, Ghost(m), Ghost(at as int)) as u16;
                let rev: u16 = poll_one(s, socks, fd, events);
                let v: Vec<u8> = le_bytes(rev as u64, 2);
                proof {
                    lemma_le_len(rev as nat, 2);
                    crate::syscall::process::lemma_mapped_stored(m, at + 6, v@);
                    assert(mapped(m, at + 6, 2));
                }
                put(mem, at + 6, &v);
                if rev != 0 {
                    count = count + 1;
                }
            },
            Err(_) => {},
        }
        i = i + 1;
    }
    count
}

/// The time in milliseconds when a wait is over; what is more than can be
/// counted is as late as can be.
pub open spec fn deadline_ms(now: u64, sec: u64, nsec: u64) -> u64 {
    let t = now + sec * 1000 + nsec / 1_000_000;
    if t > u64::MAX {
        u64::MAX
    } else {
        t as u64
    }
}

fn to_deadline(now: u64, sec: u64, nsec: u64) -> (r: u64)
    ensures
        r == deadline_ms(now, sec, nsec),
{
    let t: u128 = now as u128 + sec as u128 * 1000 + nsec as u128 / 1_000_000;
    if t > u64::MAX as u128 {
        u64::MAX
    } else {
        t as u64
    }
}

/// When a sleep is over.
pub fn do_nanosleep(mem: &UserMem, req: usize, now: u64) -> (r: u64)
    requires
        mapped(mem@, req as int, 16),
    ensures
        r == deadline_ms(
            now,
            num_at(mem@, req as int, 8) as u64,
            num_at(mem@, req + 8, 8) as u64,
        ),
{
    match mem.copy_from_user(req, 16) {
        Ok(b) => {
            let sec: u64 = field(&b, 0, 8, Ghost(mem@), Ghost(req as int));
            let nsec: u64 = field(&b, 8, 8, Ghost(mem@), Ghost(req as int));
            to_deadline(now, sec, nsec)
        },
        Err(_) => now,
    }
}

/// When a sleep on any clock is over.
pub fn do_clock_nanosleep(mem: &UserMem, req: usize, now: u64) -> (r: u64)
    requires
        mapped(mem@, req as int, 16),
    ensures
        r == deadline_ms(
            now,
            num_at(mem@, req as int, 8) as u64,
            num_at(mem@, req + 8, 8) as u64,
        ),
{
    do_nanosleep(mem, req, now)
}

/// Opens an event counter.
pub fn do_eventfd(s: &mut State) -> (r: isize)
    requires
        old(s).wf(),
        old(s).fds@.len() < isize::MAX,
        old(s).files@.len() < usize::MAX,
    ensures
        final(s).wf(),
        r >= 0,
        opened(*old(s), special(FileKind::Eventfd(0), 0), false, r as usize, *final(s)),
{
    proof {
        lemma_free(s.fds@, 0);
    }
    s.open(
        FileDesc {
            kind: FileKind::Eventfd(0),
            offset: 0,
            flags: 0,
            readable: true,
            writable: true,
        },
        false,
    ) as isize
}

/// The first free place among the interest lists.
pub open spec fn epoll_slot(l: Seq<Option<Vec<Interest>>>, i: int) -> int
    decreases l.len() - i,
{
    if 0 <= i < l.len() && l[i] is Some {
        epoll_slot(l, i + 1)
    } else {
        i
    }
}

/// Makes an interest list in the first free place and opens it.
pub fn do_epoll_create(s: &mut State) -> (r: isize)
    requires
        old(s).wf(),
        old(s).fds@.len() < isize::MAX,
        old(s).files@.len() < usize::MAX,
        old(s).epolls@.len() < usize::MAX,
    ensures
        final(s).wf(),
        r >= 0,
        ({
            let k = epoll_slot(old(s).epolls@, 0);
            let e = final(s).epolls@;
            &&& 0 <= k <= old(s).epolls@.len()
            &&& e.len() == (if k == old(s).epolls@.len() {
                k + 1
            } else {
                old(s).epolls@.len() as int
            })
            &&& e[k] is Some && e[k]->0@.len() == 0
            &&& forall|i: int| 0 <= i < old(s).epolls@.len() && i != k ==> #[trigger] e[i] == old(
                s,
            ).epolls@[i]
            &&& opened(
                (State { epolls: final(s).epolls, ..*old(s) }),
                special(FileKind::Epoll(k as usize), 0),
                false,
                r as usize,
                *final(s),
            )
        }),
{
    let n: usize = s.epolls.len();
    let mut k: usize = 0;
    while k < n && s.epolls[k].is_some()
        invariant
            k <= n == s.epolls@.len(),
            epoll_slot(s.epolls@, k as int) == epoll_slot(s.epolls@, 0),
        decreases n - k,
    {
        k = k + 1;
    }
    if k == n {
        s.epolls.push(Some(Vec::new()));
    } else {
        s.epolls.set(k, Some(Vec::new()));
    }
    proof {
        lemma_free(s.fds@, 0);
    }
    s.open(
        FileDesc { kind: FileKind::Epoll(k), offset: 0, flags: 0, readable: true, writable: true },
        false,
    ) as isize
}

/// The interest list behind a descriptor.
pub open spec fn epoll_spec(s: State, fd: usize) -> Option<usize> {
    if s.is_open(fd) {
        match s.file(fd).kind {
            FileKind::Epoll(i) => Some(i),
            _ => None,
        }
    } else {
        None
    }
}

pub fn epoll_idx(s: &State, fd: usize) -> (r: Option<usize>)
    requires
        s.wf(),
    ensures
        r == epoll_spec(*s, fd),
{
    match s.get(fd) {
        Some(i) => match s.files[i].kind {
            FileKind::Epoll(k) => Some(k),
            _ => None,
        },
        None => None,
    }
}

/// The list without a descriptor.
pub open spec fn without(l: Seq<Interest>, fd: u32) -> Seq<Interest>
    decreases l.len(),
{
    if l.len() == 0 {
        Seq::empty()
    } else if l.last().fd == fd {
        without(l.drop_last(), fd)
    } else {
        without(l.drop_last(), fd).push(l.last())
    }
}

/// The list with other events for a descriptor.
pub open spec fn modified(l: Seq<Interest>, x: Interest) -> Seq<Interest> {
    Seq::new(
        l.len(),
        |i: int|
            if l[i].fd == x.fd {
                x
            } else {
                l[i]
            },
    )
}

fn drop_fd(l: &Vec<Interest>, fd: u32) -> (r: Vec<Interest>)
    ensures
        r@ == without(l@, fd),
{
    let n: usize = l.len();
    let mut r: Vec<Interest> = Vec::new();
    let mut i: usize = 0;
    proof {
        assert(l@.take(0) =~= Seq::empty());
    }
    while i < n
        invariant
            i <= n == l@.len(),
            r@ == without(l@.take(i as int), fd),
        decreases n - i,
    {
        proof {
            assert(l@.take(i + 1).drop_last() =~= l@.take(i as int));
            assert(l@.take(i + 1).last() == l@[i as int]);
        }
        if l[i].fd != fd {
            r.push(l[i]);
        }
        i = i + 1;
    }
    proof {
        assert(l@.take(n as int) =~= l@);
    }
    r
}

fn change_fd(l: &Vec<Interest>, x: Interest) -> (r: Vec<Interest>)
    ensures
        r@ == modified(l@, x),
{
    let n: usize = l.len();
    let mut r: Vec<Interest> = Vec::new();
    let mut i: usize = 0;
    while i < n
        invariant
            i <= n == l@.len(),
            r@ == modified(l@, x).take(i as int),
        decreases n - i,
    {
        if l[i].fd == x.fd {
            r.push(x);
        } else {
            r.push(l[i]);
        }
        i = i + 1;
        proof {
            let m = modified(l@, x);
            assert(m.take(i as int) =~= m.take(i - 1).push(m[i - 1]));
        }
    }
    proof {
        assert(modified(l@, x).take(n as int) =~= modified(l@, x));
    }
    r
}

/// The list after a change; `None` for an operation that is not known.
pub open spec fn changed(l: Seq<Interest>, op: usize, x: Interest) -> Option<Seq<Interest>> {
    if op == 1 {
        Some(without(l, x.fd).push(x))
    } else if op == 2 {
        Some(without(l, x.fd))
    } else if op == 3 {
        Some(modified(l, x))
    } else {
        None
    }
}

pub open spec fn event_at(m: Map<int, u8>, fd: usize, ev: usize) -> Interest {
    Interest {
        fd: fd as u32,
        events: if ev != 0 {
            num_at(m, ev as int, 4) as u32
        } else {
            0
        },
        data: if ev != 0 {
            num_at(m, ev + 8, 8) as u64
        } else {
            0
        },
    }
}

/// Adds, removes or changes a descriptor of an interest list.
pub fn do_epoll_ctl(s: &mut State, mem: &UserMem, epfd: usize, op: usize, fd: usize, ev: usize) -> (r: isize)
    requires
        old(s).wf(),
        ev != 0 && epoll_spec(*old(s), epfd) is Some ==> mapped(mem@, ev as int, 16),
    ensures
        final(s).wf(),
        *final(s) == (State { epolls: final(s).epolls, ..*old(s) }),
        ({
            let a = old(s).epolls@;
            let b = final(s).epolls@;
            match epoll_spec(*old(s), epfd) {
                None => r == EBADF && b == a,
                Some(k) => if k >= a.len() || a[k as int] is None {
                    r == EBADF && b == a
                } else {
                    match changed(a[k as int]->0@, op, event_at(mem@, fd, ev)) {
                        None => r == EINVAL && b == a,
                        Some(l) => {
                            &&& r == 0
                            &&& b.len() == a.len()
                            &&& b[k as int] is Some && b[k as int]->0@ == l
                            &&& forall|i: int| 0 <= i < a.len() && i != k ==> #[trigger] b[i] == a[i]
                        },
                    }
                },
            }
        }),
{
    let k: usize = match epoll_idx(s, epfd) {
        Some(k) => k,
        None => {
            return EBADF;
        },
    };
    let mut events: u32 = 0;
    let mut data: u64 = 0;
    if ev != 0 {
        match mem.copy_from_user(ev, 16) {
            Ok(b) => {
                events = field(&b, 0, 4, Ghost(mem@), Ghost(ev as int)) as u32;
                data = field(&b, 8, 8, Ghost(mem@), Ghost(ev as int));
            },
            Err(_) => {},
        }
    }
    if k >= s.epolls.len() {
        return EBADF;
    }
    let x = Interest { fd: fd as u32, events, data };
    let l: Vec<Interest> = match &s.epolls[k] {
        None => {
            return EBADF;
        },
        Some(l) => match op {
            1 => {
                let mut v: Vec<Interest> = drop_fd(l, x.fd);
                v.push(x);
                v
            },
            2 => drop_fd(l, x.fd),
            3 => change_fd(l, x),
            _ => {
                return EINVAL;
            },
        },
    };
    s.epolls.set(k, Some(l));
    0
}

/// What a descriptor is ready for, of what is wanted; interest lists and
/// counters are never ready.
pub open spec fn fd_bits(s: State, socks: Seq<(bool, bool)>, fd: usize, want: u32) -> u32 {
    if !s.is_open(fd) {
        0
    } else {
        let k = s.file(fd).kind;
        let r = if k is Epoll || k is Eventfd {
            (false, false)
        } else {
            ready_of(k, socks)
        };
        let i: int = if r.0 && want & 1 != 0 {
            1
        } else {
            0
        };
        let o: int = if r.1 && want & 4 != 0 {
            4
        } else {
            0
        };
        (i + o) as u32
    }
}

pub fn fd_ready(s: &State, socks: &Vec<(bool, bool)>, fd: usize, want: u32) -> (r: u32)
    requires
        s.wf(),
        socks_ok(*s, socks@.len() as int),
    ensures
        r == fd_bits(*s, socks@, fd, want),
{
    match s.get(fd) {
        None => 0,
        Some(i) => {
            proof {
                assert(match s.files@[i as int].kind {
                    FileKind::Socket(k) => k < socks@.len(),
                    _ => true,
                });
            }
            let k: FileKind = s.files[i].kind;
            let x: (bool, bool) = match k {
                FileKind::Epoll(_) | FileKind::Eventfd(_) => (false, false),
                _ => is_ready(k, socks),
            };
            let a: u32 = if x.0 && want & 1 != 0 {
                1
            } else {
                0
            };
            let b: u32 = if x.1 && want & 4 != 0 {
                4
            } else {
                0
            };
            a + b
        },
    }
}

/// A socket that can be read but not written may have been closed.
pub open spec fn may_be_closed(s: State, socks: Seq<(bool, bool)>, fd: usize) -> bool {
    s.is_open(fd) && s.file(fd).kind is Socket && ready_of(s.file(fd).kind, socks) == (true, false)
}

/// The events that an interest list tells of a descriptor: what it is ready
/// for, and input for a socket that may have been closed, even where that was
/// not asked for.
pub open spec fn answered(s: State, socks: Seq<(bool, bool)>, fd: usize, want: u32) -> u32 {
    if may_be_closed(s, socks, fd) {
        1
    } else {
        fd_bits(s, socks, fd, want)
    }
}

fn fd_answer(s: &State, socks: &Vec<(bool, bool)>, fd: usize, want: u32) -> (r: u32)
    requires
        s.wf(),
        socks_ok(*s, socks@.len() as int),
    ensures
        r == answered(*s, socks@, fd, want),
{
    match s.get(fd) {
        None => {},
        Some(i) => {
            proof {
                assert(match s.files@[i as int].kind {
                    FileKind::Socket(k) => k < socks@.len(),
                    _ => true,
                });
            }
            match s.files[i].kind {
                FileKind::Socket(k) => {
                    if socks[k].0 && !socks[k].1 {
                        return 1;
                    }
                },
                _ => {},
            }
        },
    }
    fd_ready(s, socks, fd, want)
}

/// Events told from the `k`-th entry of an interest list on, after `n` of them.
pub open spec fn told(
    s: State,
    socks: Seq<(bool, bool)>,
    m: Map<int, u8>,
    l: Seq<Interest>,
    at: int,
    max: int,
    k: int,
    n: int,
) -> (Map<int, u8>, int)
    decreases l.len() - k,
{
    let rev = answered(s, socks, l[k].fd as usize, l[k].events);
    if !(0 <= k < l.len()) || n >= max {
        (m, n)
    } else if rev == 0 {
        told(s, socks, m, l, at, max, k + 1, n)
    } else {
        told(
            s,
            socks,
            stored(
                stored(m, at + 16 * n, le(rev as nat, 4)),
                at + 16 * n + 8,
                le(l[k].data as nat, 8),
            ),
            l,
            at,
            max,
            k + 1,
            n + 1,
        )
    }
}

/// How many events a look at an interest list can tell.
pub open spec fn epoll_room(s: State, epfd: usize, max: usize) -> int {
    match epoll_spec(s, epfd) {
        None => 0,
        Some(k) => if k >= s.epolls@.len() || s.epolls@[k as int] is None {
            0
        } else if max < s.epolls@[k as int]->0@.len() {
            max as int
        } else {
            s.epolls@[k as int]->0@.len() as int
        },
    }
}

/// One look at an interest list: the events that came are told, as many as there
/// is room for.
#[verifier::loop_isolation(false)]
pub fn do_epoll_pwait(s: &State, socks: &Vec<(bool, bool)>, mem: &mut UserMem, epfd: usize, at: usize, max: usize) -> (r:
    isize)
    requires
        s.wf(),
        socks_ok(*s, socks@.len() as int),
        mapped(old(mem)@, at as int, 16 * epoll_room(*s, epfd, max)),
        at + 16 * epoll_room(*s, epfd, max) <= usize::MAX,
    ensures
        match epoll_spec(*s, epfd) {
            None => r == EBADF && final(mem)@ == old(mem)@,
            Some(k) => if k >= s.epolls@.len() || s.epolls@[k as int] is None {
                r == EBADF && final(mem)@ == old(mem)@
            } else {
                (final(mem)@, r as int) == told(
                    *s,
                    socks@,
                    old(mem)@,
                    s.epolls@[k as int]->0@,
                    at as int,
                    max as int,
                    0,
                    0,
                )
            },
        },
{
    let e: usize = match epoll_idx(s, epfd) {
        Some(e) => e,
        None => {
            return EBADF;
        },
    };
    if e >= s.epolls.len() {
        return EBADF;
    }
    match &s.epolls[e] {
        None => EBADF,
        Some(l) => {
            let ghost all = told(*s, socks@, mem@, l@, at as int, max as int, 0, 0);
            let len: usize = l.len();
            let mut k: usize = 0;
            let mut n: usize = 0;
            while k < len && n < max
                invariant
                    k <= len == l@.len(),
                    n <= max,
                    n <= k,
                    mapped(mem@, at as int, 16 * epoll_room(*s, epfd, max)),
                    told(
                        *s,
                        socks@,
                        mem@,
                        l@,
                        at as int,
                        max as int,
                        k as int,
                        n as int,
                    ) == all,
                decreases len - k,
            {
                let rev: u32 = fd_answer(s, socks, l[k].fd as usize, l[k].events);
                if rev != 0 {
                    let a: usize = at + 16 * n;
                    let ghost m = mem@;
                    let v: Vec<u8> = le_bytes(rev as u64, 4);
                    let w: Vec<u8> = le_bytes(l[k].data, 8);
                    proof {
                        lemma_le_len(rev as nat, 4);
                        lemma_le_len(l@[k as int].data as nat, 8);
                        crate::syscall::process::lemma_mapped_stored(m, a as int, v@);
                        crate::syscall::process::lemma_mapped_stored(
                            stored(m, a as int, v@),
                            a + 8,
                            w@,
                        );
                        assert(mapped(m, a as int, 4));
                        assert(mapped(m, a + 8, 8));
                    }
                    put(mem, a, &v);
                    put(mem, a + 8, &w);
                    n = n + 1;
                }
                k = k + 1;
            }
            n as isize
        },
    }
}

/// What a wait with nothing ready comes to: `timeout` is in milliseconds, none
/// for a negative one.
pub fn epoll_over(timeout: isize, elapsed_ms: u64) -> (r: bool)
    ensures
        r == (timeout >= 0 && (timeout == 0 || elapsed_ms >= timeout)),
{
    timeout >= 0 && (timeout == 0 || elapsed_ms >= timeout as u64)
}

/// Reads or changes the flags of a file, or duplicates its descriptor. A
/// descriptor itself tells no flags.
pub fn do_fcntl(s: &mut State, fd: usize, cmd: usize, arg: usize) -> (r: (isize, Option<(usize, bool)>))
    requires
        old(s).wf(),
        old(s).fds@.len() < isize::MAX,
        arg < isize::MAX,
    ensures
        final(s).wf(),
        ({
            let f = old(s).file(fd);
            if !old(s).is_open(fd) {
                r == (EBADF, None::<(usize, bool)>) && *final(s) == *old(s)
            } else if cmd == 0 || cmd == 1030 {
                let n = free_at(old(s).fds@, arg as int);
                &&& r.0 == n && r.1 is None
                &&& final(s).fds@ == set_at(
                    old(s).fds@,
                    n,
                    (old(s).file_no(fd) as usize, cmd == 1030),
                )
                &&& *final(s) == (State { fds: final(s).fds, ..*old(s) })
            } else if cmd == 3 {
                r == (f.flags as isize, None::<(usize, bool)>) && *final(s) == *old(s)
            } else if cmd == 4 {
                &&& r.0 == 0
                &&& r.1 == (match f.kind {
                    FileKind::Socket(i) => Some((i, arg as i32 & O_NONBLOCK != 0)),
                    _ => None,
                })
                &&& final(s).files@ == old(s).files@.update(
                    old(s).file_no(fd),
                    FileDesc { flags: arg as i32, ..f },
                )
                &&& *final(s) == (State { files: final(s).files, ..*old(s) })
            } else {
                r == (0isize, None::<(usize, bool)>) && *final(s) == *old(s)
            }
        }),
{
    let i: usize = match s.get(fd) {
        Some(i) => i,
        None => {
            return (EBADF, None);
        },
    };
    match cmd {
        0 | 1030 => {
            proof {
                lemma_free(s.fds@, arg as int);
            }
            let n: usize = s.alloc_from(arg, i, cmd == 1030);
            (n as isize, None)
        },
        3 => (s.files[i].flags as isize, None),
        4 => {
            let mut f: FileDesc = s.files[i];
            f.flags = arg as i32;
            let ghost l = s.files@;
            s.files.set(i, f);
            proof {
                assert forall|k: int| 0 <= k < s.files@.len() implies kind_ok(
                    (#[trigger] s.files@[k]).kind,
                    s.nodes@.len() as int,
                ) by {
                    assert(kind_ok(l[k].kind, s.nodes@.len() as int));
                }
            }
            match f.kind {
                FileKind::Socket(k) => (0, Some((k, arg as i32 & O_NONBLOCK != 0))),
                _ => (0, None),
            }
        },
        _ => (0, None),
    }
}

/// Device control: which socket must not block from now on, if that is asked
/// for. How much can be read is told as 0.
pub fn do_ioctl(s: &State, mem: &mut UserMem, fd: usize, req: usize, arg: usize) -> (r: Option<(usize, bool)>)
    requires
        s.wf(),
        req == 0x5421 || req == 0x541b ==> mapped(old(mem)@, arg as int, 4),
    ensures
        r == (if req == 0x5421 {
            match sock_spec(*s, fd) {
                Some(i) => Some((i, num_at(old(mem)@, arg as int, 4) != 0)),
                None => None,
            }
        } else {
            None
        }),
        final(mem)@ == (if req == 0x541b {
            stored(old(mem)@, arg as int, le(0, 4))
        } else {
            old(mem)@
        }),
{
    match req {
        0x5421 => {
            let on: u64 = match mem.read_num(arg, 4) {
                Ok(v) => v,
                Err(_) => 0,
            };
            match sock_idx(s, fd) {
                Some(i) => Some((i, on != 0)),
                None => None,
            }
        },
        0x541b => {
            let z: Vec<u8> = le_bytes(0, 4);
            proof {
                lemma_le_len(0, 4);
            }
            put(mem, arg, &z);
            None
        },
        _ => None,
    }
}

/// Where a seek starts.
pub open spec fn seek_base(s: State, fd: usize, whence: usize) -> Option<int> {
    if whence == 0 {
        Some(0)
    } else if whence == 1 {
        Some(s.file(fd).offset as int)
    } else if whence == 2 {
        Some(
            match s.file(fd).kind {
                FileKind::File(n) => s.nodes@[n as int].bytes@.len() as int,
                _ => 0,
            },
        )
    } else {
        None
    }
}

/// Moves a file to a place from its start, from where it stands or from its end.
pub fn do_lseek(s: &mut State, fd: usize, offset: isize, whence: usize) -> (r: isize)
    requires
        old(s).wf(),
        old(s).is_open(fd) && seek_base(*old(s), fd, whence) is Some ==> seek_base(
            *old(s),
            fd,
            whence,
        )->0 + offset <= isize::MAX && seek_base(*old(s), fd, whence)->0 <= isize::MAX,
    ensures
        final(s).wf(),
        if !old(s).is_open(fd) {
            r == EBADF && *final(s) == *old(s)
        } else {
            match seek_base(*old(s), fd, whence) {
                None => r == EINVAL && *final(s) == *old(s),
                Some(b) => if b + offset < 0 {
                    r == EINVAL && *final(s) == *old(s)
                } else {
                    &&& r == b + offset
                    &&& final(s).files@ == moved(
                        old(s).files@,
                        old(s).file_no(fd),
                        (b + offset) as usize,
                    )
                    &&& *final(s) == (State { files: final(s).files, ..*old(s) })
                },
            }
        },
{
    let i: usize = match s.get(fd) {
        Some(i) => i,
        None => {
            return EBADF;
        },
    };
    let size: usize = match s.files[i].kind {
        FileKind::File(n) => {
            proof {
                assert(kind_ok(s.files@[i as int].kind, s.nodes@.len() as int));
            }
            s.nodes[n].bytes.len()
        },
        _ => 0,
    };
    let base: isize = match whence {
        0 => 0,
        1 => s.files[i].offset as isize,
        2 => size as isize,
        _ => {
            return EINVAL;
        },
    };
    let at: isize = base + offset;
    if at < 0 {
        return EINVAL;
    }
    move_to(s, i, at as usize);
    at
}

/// Two numbers of 8 bytes.
fn put_pair(mem: &mut UserMem, at: usize, a: u64, b: u64)
    requires
        mapped(old(mem)@, at as int, 16),
    ensures
        final(mem)@ == stored(old(mem)@, at as int, le(a as nat, 8) + le(b as nat, 8)),
{
    let mut v: Vec<u8> = Vec::new();
    put_le(&mut v, a, 8);
    put_le(&mut v, b, 8);
    proof {
        lemma_le_len(a as nat, 8);
        lemma_le_len(b as nat, 8);
        assert(v@ =~= le(a as nat, 8) + le(b as nat, 8));
    }
    put(mem, at, &v);
}

/// Tells the time in seconds and nanoseconds.
pub fn do_clock_gettime(mem: &mut UserMem, tp: usize, now: (u64, u64)) -> (r: isize)
    requires
        mapped(old(mem)@, tp as int, 16),
    ensures
        r == 0,
        final(mem)@ == stored(old(mem)@, tp as int, le(now.0 as nat, 8) + le(now.1 as nat, 8)),
{
    put_pair(mem, tp, now.0, now.1);
    0
}

/// Tells the time in seconds and microseconds.
pub fn do_gettimeofday(mem: &mut UserMem, tv: usize, now: (u64, u64)) -> (r: isize)
    requires
        mapped(old(mem)@, tv as int, 16),
    ensures
        r == 0,
        final(mem)@ == stored(
            old(mem)@,
            tv as int,
            le(now.0 as nat, 8) + le((now.1 / 1000) as nat, 8),
        ),
{
    put_pair(mem, tv, now.0, now.1 / 1000);
    0
}

/// `Linux`, `ijiege`, `6.1.0`, `#1 SMP` and `riscv64`; the domain is empty.
pub open spec fn uts() -> Seq<u8> {
    uts_field(seq![76u8, 105, 110, 117, 120]) + uts_field(seq![105u8, 106, 105, 101, 103, 101])
        + uts_field(seq![54u8, 46, 49, 46, 48]) + uts_field(seq![35u8, 49, 32, 83, 77, 80])
        + uts_field(seq![114u8, 105, 115, 99, 118, 54, 52]) + uts_field(Seq::empty())
}

/// Tells the names of the system.
pub fn do_uname(mem: &mut UserMem, buf: usize) -> (r: isize)
    requires
        mapped(old(mem)@, buf as int, 390),
    ensures
        r == 0,
        final(mem)@ == stored(old(mem)@, buf as int, uts()),
{
    let mut v: Vec<u8> = Vec::new();
    let a: Vec<u8> = vec![76, 105, 110, 117, 120];
    let b: Vec<u8> = vec![105, 106, 105, 101, 103, 101];
    let c: Vec<u8> = vec![54, 46, 49, 46, 48];
    let d: Vec<u8> = vec![35, 49, 32, 83, 77, 80];
    let e: Vec<u8> = vec![114, 105, 115, 99, 118, 54, 52];
    let f: Vec<u8> = Vec::new();
    proof {
        assert(a@ =~= seq![76u8, 105, 110, 117, 120]);
        assert(b@ =~= seq![105u8, 106, 105, 101, 103, 101]);
        assert(c@ =~= seq![54u8, 46, 49, 46, 48]);
        assert(d@ =~= seq![35u8, 49, 32, 83, 77, 80]);
        assert(e@ =~= seq![114u8, 105, 115, 99, 118, 54, 52]);
        assert(f@ =~= Seq::empty());
    }
    put_field(&mut v, &a);
    put_field(&mut v, &b);
    put_field(&mut v, &c);
    put_field(&mut v, &d);
    put_field(&mut v, &e);
    put_field(&mut v, &f);
    proof {
        assert(v@ =~= uts());
        assert(v@.len() == 390);
    }
    put(mem, buf, &v);
    0
}

/// Fills memory with random bytes made from a seed.
pub fn do_getrandom(mem: &mut UserMem, buf: usize, len: usize, seed: u64) -> (r: isize)
    requires
        mapped(old(mem)@, buf as int, len as int),
        len <= isize::MAX,
    ensures
        r == len,
        final(mem)@ == stored(old(mem)@, buf as int, noise(seed, RANDOM_INC, len as nat)),
{
    let v: Vec<u8> = make_noise(seed, RANDOM_INC, len);
    proof {
        lemma_noise_len(seed, RANDOM_INC, len as nat);
    }
    put(mem, buf, &v);
    len as isize
}

/// The extended attributes of a file or directory.
pub open spec fn statx_bytes(size: usize, is_dir: bool) -> Seq<u8> {
    let mode: nat = if is_dir {
        0o040755
    } else {
        0o100644
    };
    le(0x7ff, 4) + le(4096, 4) + zeros(8) + le(1, 4) + zeros(8) + le(mode, 2) + zeros(2) + le(1, 8)
        + le(size as nat, 8) + zeros(208)
}

/// Tells the extended attributes of a path from the root, whose node was looked
/// for; four devices need no node.
pub fn do_statx(s: &State, mem: &mut UserMem, full: &Vec<u8>, found: Option<usize>, at: usize) -> (r: isize)
    requires
        s.wf(),
        mapped(old(mem)@, at as int, 256),
        found is Some ==> found->0 < s.nodes@.len(),
    ensures
        match found {
            Some(n) => r == 0 && final(mem)@ == stored(
                old(mem)@,
                at as int,
                statx_bytes(
                    s.nodes@[n as int].bytes@.len() as usize,
                    s.nodes@[n as int].is_dir,
                ),
            ),
            None => match device(full@) {
                Some(k) => if k == FileKind::Console {
                    r == ENOENT && final(mem)@ == old(mem)@
                } else {
                    r == 0 && final(mem)@ == stored(old(mem)@, at as int, statx_bytes(0, false))
                },
                None => r == ENOENT && final(mem)@ == old(mem)@,
            },
        },
{
    let (size, is_dir): (usize, bool) = match found {
        Some(n) => (s.nodes[n].bytes.len(), s.nodes[n].is_dir),
        None => match device_of(full) {
            Some(k) => {
                if k == FileKind::Console {
                    return ENOENT;
                }
                (0, false)
            },
            None => {
                return ENOENT;
            },
        },
    };
    let mode: u64 = if is_dir {
        0o040755
    } else {
        0o100644
    };
    let mut v: Vec<u8> = Vec::new();
    put_le(&mut v, 0x7ff, 4);
    put_le(&mut v, 4096, 4);
    put_zeros(&mut v, 8);
    put_le(&mut v, 1, 4);
    put_zeros(&mut v, 8);
    put_le(&mut v, mode, 2);
    put_zeros(&mut v, 2);
    put_le(&mut v, 1, 8);
    put_le(&mut v, size as u64, 8);
    put_zeros(&mut v, 208);
    proof {
        broadcast use crate::bytes::lemma_le_len;

        assert(v@ =~= statx_bytes(size, is_dir));
        assert(v@.len() == 256);
    }
    put(mem, at, &v);
    0
}

/// What is to be done for a system call.
#[allow(inconsistent_fields)]
#[derive(Clone, Copy, PartialEq, Eq, Structural, Debug)]
pub enum Call {
    /// Nothing: the call returns this.
    Ret(isize),
    Connect { addr: usize, len: usize },
    Getcwd { buf: usize, size: usize },
    Dup(usize),
    Dup3 { fd: usize, to: usize, cloexec: bool },
    Fcntl { fd: usize, cmd: usize, arg: usize },
    Ioctl { fd: usize, req: usize, arg: usize },
    Mkdir { path: usize },
    Open { path: usize, flags: i32 },
    Close(usize),
    Seek { fd: usize, off: isize, whence: usize },
    Read { fd: usize, buf: usize, len: usize },
    Write { fd: usize, buf: usize, len: usize },
    Readv { fd: usize, iov: usize, cnt: usize },
    Writev { fd: usize, iov: usize, cnt: usize },
    Pread { fd: usize, buf: usize, len: usize, at: usize },
    Pwrite { fd: usize, buf: usize, len: usize, at: usize },
    Poll { fds: usize, nfds: usize, timeout: usize },
    EpollCreate,
    EpollCtl { epfd: usize, op: usize, fd: usize, event: usize },
    EpollWait { epfd: usize, events: usize, max: usize, timeout: isize },
    Eventfd,
    Fstatat { dirfd: isize, path: usize, buf: usize },
    Fstat { fd: usize, buf: usize },
    Exit(i32),
    SetTid(usize),
    ClockGettime { buf: usize },
    Sleep { req: usize },
    Affinity { len: usize, mask: usize },
    Uname(usize),
    Timeofday(usize),
    Socket { domain: usize, ty: usize },
    Bind { fd: usize, addr: usize },
    Listen { fd: usize, backlog: usize },
    Accept { fd: usize, addr: usize, addrlen: usize, flags: usize },
    Name { fd: usize, addr: usize, addrlen: usize },
    Getsockopt { val: usize, len: usize },
    Sendmsg { fd: usize, msg: usize },
    Brk(usize),
    Munmap { addr: usize, len: usize },
    Mmap { addr: usize, len: usize, flags: i32, fd: isize, offset: usize },
    Random { buf: usize, len: usize },
    Statx { path: usize, buf: usize },
}

/// The calls that return a constant.
pub open spec fn constant(no: usize) -> Option<isize> {
    if no == 48 || no == 49 || no == 61 || no == 99 || no == 124 || no == 122 || (129 <= no <= 135)
        || no == 163 || no == 165 || no == 179 || no == 208 || no == 210 || no == 226 || no == 233
        || no == 260 || no == 261 {
        Some(0)
    } else if no == 78 || no == 212 || no == 220 || no == 221 {
        Some(ENOSYS)
    } else if no == 98 {
        Some(EAGAIN)
    } else if no == 172 || no == 173 || no == 178 {
        Some(1)
    } else if 174 <= no <= 177 {
        Some(1000)
    } else {
        None
    }
}

/// The system call table. Receiving and sending with an address are reading and
/// writing.
pub open spec fn table(no: usize, a: Seq<usize>) -> Call {
    if constant(no) is Some {
        Call::Ret(constant(no)->0)
    } else if no == 17 {
        Call::Getcwd { buf: a[0], size: a[1] }
    } else if no == 203 {
        Call::Connect { addr: a[1], len: a[2] }
    } else if no == 23 {
        Call::Dup(a[0])
    } else if no == 24 {
        Call::Dup3 { fd: a[0], to: a[1], cloexec: a[2] as i32 & O_CLOEXEC != 0 }
    } else if no == 25 {
        Call::Fcntl { fd: a[0], cmd: a[1], arg: a[2] }
    } else if no == 29 {
        Call::Ioctl { fd: a[0], req: a[1], arg: a[2] }
    } else if no == 34 {
        Call::Mkdir { path: a[1] }
    } else if no == 56 {
        Call::Open { path: a[1], flags: a[2] as i32 }
    } else if no == 57 {
        Call::Close(a[0])
    } else if no == 62 {
        Call::Seek { fd: a[0], off: a[1] as isize, whence: a[2] }
    } else if no == 63 || no == 207 {
        Call::Read { fd: a[0], buf: a[1], len: a[2] }
    } else if no == 64 || no == 206 {
        Call::Write { fd: a[0], buf: a[1], len: a[2] }
    } else if no == 65 {
        Call::Readv { fd: a[0], iov: a[1], cnt: a[2] }
    } else if no == 66 {
        Call::Writev { fd: a[0], iov: a[1], cnt: a[2] }
    } else if no == 67 {
        Call::Pread { fd: a[0], buf: a[1], len: a[2], at: a[3] }
    } else if no == 68 {
        Call::Pwrite { fd: a[0], buf: a[1], len: a[2], at: a[3] }
    } else if no == 73 {
        Call::Poll { fds: a[0], nfds: a[1], timeout: a[2] }
    } else if no == 20 {
        Call::EpollCreate
    } else if no == 21 {
        Call::EpollCtl { epfd: a[0], op: a[1], fd: a[2], event: a[3] }
    } else if no == 22 {
        Call::EpollWait { epfd: a[0], events: a[1], max: a[2], timeout: a[3] as isize }
    } else if no == 19 {
        Call::Eventfd
    } else if no == 79 {
        Call::Fstatat { dirfd: a[0] as isize, path: a[1], buf: a[2] }
    } else if no == 80 {
        Call::Fstat { fd: a[0], buf: a[1] }
    } else if no == 93 || no == 94 {
        Call::Exit(a[0] as i32)
    } else if no == 96 {
        Call::SetTid(a[0])
    } else if no == 113 {
        Call::ClockGettime { buf: a[1] }
    } else if no == 115 {
        Call::Sleep { req: a[2] }
    } else if no == 101 {
        Call::Sleep { req: a[0] }
    } else if no == 123 {
        Call::Affinity { len: a[1], mask: a[2] }
    } else if no == 160 {
        Call::Uname(a[0])
    } else if no == 169 {
        Call::Timeofday(a[0])
    } else if no == 198 {
        Call::Socket { domain: a[0], ty: a[1] }
    } else if no == 200 {
        Call::Bind { fd: a[0], addr: a[1] }
    } else if no == 201 {
        Call::Listen { fd: a[0], backlog: a[1] }
    } else if no == 202 {
        Call::Accept { fd: a[0], addr: a[1], addrlen: a[2], flags: 0 }
    } else if no == 242 {
        Call::Accept { fd: a[0], addr: a[1], addrlen: a[2], flags: a[3] }
    } else if no == 204 || no == 205 {
        Call::Name { fd: a[0], addr: a[1], addrlen: a[2] }
    } else if no == 209 {
        Call::Getsockopt { val: a[3], len: a[4] }
    } else if no == 211 {
        Call::Sendmsg { fd: a[0], msg: a[1] }
    } else if no == 214 {
        Call::Brk(a[0])
    } else if no == 215 {
        Call::Munmap { addr: a[0], len: a[1] }
    } else if no == 222 {
        Call::Mmap {
            addr: a[0],
            len: a[1],
            flags: a[3] as i32,
            fd: a[4] as isize,
            offset: a[5],
        }
    } else if no == 278 {
        Call::Random { buf: a[0], len: a[1] }
    } else if no == 291 {
        Call::Statx { path: a[1], buf: a[4] }
    } else {
        Call::Ret(ENOSYS)
    }
}

/// Looks a system call up in the table.
pub fn dispatch(no: usize, a: &[usize; 6]) -> (r: Call)
    ensures
        r == table(no, a@),
{
    match no {
        48 | 49 | 61 | 99 | 124 | 122 | 129 | 130 | 131 | 132 | 133 | 134 | 135 | 163 | 165 | 179
        | 208 | 210 | 226 | 233 | 260 | 261 => Call::Ret(0),
        78 | 212 | 220 | 221 => Call::Ret(ENOSYS),
        98 => Call::Ret(EAGAIN),
        172 | 173 | 178 => Call::Ret(1),
        174 | 175 | 176 | 177 => Call::Ret(1000),
        203 => Call::Connect { addr: a[1], len: a[2] },
        17 => Call::Getcwd { buf: a[0], size: a[1] },
        23 => Call::Dup(a[0]),
        24 => Call::Dup3 { fd: a[0], to: a[1], cloexec: a[2] as i32 & O_CLOEXEC != 0 },
        25 => Call::Fcntl { fd: a[0], cmd: a[1], arg: a[2] },
        29 => Call::Ioctl { fd: a[0], req: a[1], arg: a[2] },
        34 => Call::Mkdir { path: a[1] },
        56 => Call::Open { path: a[1], flags: a[2] as i32 },
        57 => Call::Close(a[0]),
        62 => Call::Seek { fd: a[0], off: a[1] as isize, whence: a[2] },
        63 | 207 => Call::Read { fd: a[0], buf: a[1], len: a[2] },
        64 | 206 => Call::Write { fd: a[0], buf: a[1], len: a[2] },
        65 => Call::Readv { fd: a[0], iov: a[1], cnt: a[2] },
        66 => Call::Writev { fd: a[0], iov: a[1], cnt: a[2] },
        67 => Call::Pread { fd: a[0], buf: a[1], len: a[2], at: a[3] },
        68 => Call::Pwrite { fd: a[0], buf: a[1], len: a[2], at: a[3] },
        73 => Call::Poll { fds: a[0], nfds: a[1], timeout: a[2] },
        20 => Call::EpollCreate,
        21 => Call::EpollCtl { epfd: a[0], op: a[1], fd: a[2], event: a[3] },
        22 => Call::EpollWait {
            epfd: a[0],
            events: a[1],
            max: a[2],
            timeout: a[3] as isize,
        },
        19 => Call::Eventfd,
        79 => Call::Fstatat { dirfd: a[0] as isize, path: a[1], buf: a[2] },
        80 => Call::Fstat { fd: a[0], buf: a[1] },
        93 | 94 => Call::Exit(a[0] as i32),
        96 => Call::SetTid(a[0]),
        113 => Call::ClockGettime { buf: a[1] },
        115 => Call::Sleep { req: a[2] },
        101 => Call::Sleep { req: a[0] },
        123 => Call::Affinity { len: a[1], mask: a[2] },
        160 => Call::Uname(a[0]),
        169 => Call::Timeofday(a[0]),
        198 => Call::Socket { domain: a[0], ty: a[1] },
        200 => Call::Bind { fd: a[0], addr: a[1] },
        201 => Call::Listen { fd: a[0], backlog: a[1] },
        202 => Call::Accept { fd: a[0], addr: a[1], addrlen: a[2], flags: 0 },
        242 => Call::Accept { fd: a[0], addr: a[1], addrlen: a[2], flags: a[3] },
        204 | 205 => Call::Name { fd: a[0], addr: a[1], addrlen: a[2] },
        209 => Call::Getsockopt { val: a[3], len: a[4] },
        211 => Call::Sendmsg { fd: a[0], msg: a[1] },
        214 => Call::Brk(a[0]),
        215 => Call::Munmap { addr: a[0], len: a[1] },
        222 => Call::Mmap {
            addr: a[0],
            len: a[1],
            flags: a[3] as i32,
            fd: a[4] as isize,
            offset: a[5],
        },
        278 => Call::Random { buf: a[0], len: a[1] },
        291 => Call::Statx { path: a[1], buf: a[4] },
        _ => Call::Ret(ENOSYS),
    }
}

/// `/nginx` with a final zero.
pub open spec fn cwd_text() -> Seq<u8> {
    seq![47u8, 110, 103, 105, 110, 120, 0]
}

/// Tells the working directory, which never changes.
pub fn do_getcwd(mem: &mut UserMem, buf: usize, size: usize) -> (r: bool)
    requires
        size >= 7 ==> mapped(old(mem)@, buf as int, 7),
    ensures
        r == (size >= 7),
        final(mem)@ == (if size >= 7 {
            stored(old(mem)@, buf as int, cwd_text())
        } else {
            old(mem)@
        }),
{
    if size < 7 {
        return false;
    }
    let v: Vec<u8> = vec![47, 110, 103, 105, 110, 120, 0];
    proof {
        assert(v@ =~= cwd_text());
    }
    put(mem, buf, &v);
    true
}

/// Tells that the task runs on the one processor there is, where it asks where;
/// gives the size of the answer.
pub fn do_affinity(mem: &mut UserMem, len: usize, mask: usize) -> (r: isize)
    requires
        mask != 0 ==> mapped(old(mem)@, mask as int, 8),
    ensures
        r == smaller(len as int, 8),
        final(mem)@ == (if mask != 0 {
            stored(old(mem)@, mask as int, le(1, 8))
        } else {
            old(mem)@
        }),
{
    if mask != 0 {
        let v: Vec<u8> = le_bytes(1, 8);
        proof {
            lemma_le_len(1, 8);
        }
        put(mem, mask, &v);
    }
    if len < 8 {
        len as isize
    } else {
        8
    }
}

/// What was written at a place is read there.
pub proof fn read_gives_written(b: Seq<u8>, off: int, data: Seq<u8>)
    requires
        0 <= off,
        data.len() > 0,
    ensures
        part(written(b, off, data), off, data.len() as int) == data,
{
    assert(part(written(b, off, data), off, data.len() as int) =~= data);
}

/// A write changes its own range only: what is outside of it stays, a gap is zero,
/// and the file ends at the write's end or where it ended.
pub proof fn write_keeps_the_rest(b: Seq<u8>, off: int, data: Seq<u8>, i: int)
    requires
        0 <= off,
        0 <= i,
        data.len() > 0,
    ensures
        i < b.len() && !(off <= i < off + data.len()) ==> written(b, off, data)[i] == b[i],
        b.len() <= i < off ==> written(b, off, data)[i] == 0,
        written(b, off, data).len() >= b.len(),
        written(b, off, data).len() >= off + data.len(),
        written(b, off, data).len() == b.len() || written(b, off, data).len() == off + data.len(),
        off == b.len() ==> written(b, off, data) == b + data,
{
    if off == b.len() {
        assert(written(b, off, data) =~= b + data);
    }
}

/// Reading goes on where it stopped: two reads in a row give what one longer read
/// gives, and at the end nothing is left.
pub proof fn reads_go_on(b: Seq<u8>, off: int, n: int, k: int)
    requires
        0 <= off,
        0 <= n,
        0 <= k,
    ensures
        part(b, off, n).len() <= n,
        part(b, off, n) + part(b, off + part(b, off, n).len(), k) == part(b, off, part(
            b,
            off,
            n,
        ).len() + k),
        off >= b.len() ==> part(b, off, n).len() == 0,
        off < b.len() && n > 0 ==> part(b, off, n).len() > 0 && part(b, off, n)[0] == b[off],
        off + n <= b.len() ==> part(b, off, n) == b.subrange(off, off + n),
{
    let p = part(b, off, n).len() as int;
    if off < b.len() {
        assert(part(b, off, n) + part(b, off + p, k) =~= part(b, off, p + k));
    } else {
        assert(part(b, off, n) + part(b, off + p, k) =~= part(b, off, p + k));
    }
}

/// Data that is written to a file is read back from where it was written; with the
/// append flag it is at the end of what was there, and nothing of that is lost.
pub proof fn file_holds_what_is_written(
    a: State,
    m: Map<int, u8>,
    fd: usize,
    buf: usize,
    len: usize,
    r: Io,
    b: State,
    n: usize,
)
    requires
        a.is_open(fd),
        a.file(fd).kind == FileKind::File(n),
        a.file(fd).writable,
        0 < len <= isize::MAX,
        n < a.nodes@.len(),
        a.file(fd).offset + len <= usize::MAX,
        a.nodes@[n as int].bytes@.len() + len <= usize::MAX,
        0 <= a.file_no(fd) < a.files@.len(),
        write_post(a, m, fd, buf, len, r, b),
    ensures
        r == Io::Done(len as isize),
        ({
            let data = bytes_at(m, buf as int, len as int);
            let was = a.nodes@[n as int].bytes@;
            let now = b.nodes@[n as int].bytes@;
            let end = b.files@[a.file_no(fd)].offset as int;
            &&& now.subrange(end - len, end) == data
            &&& a.file(fd).flags & O_APPEND != 0 ==> now == was + data && end == now.len()
            &&& a.file(fd).flags & O_APPEND == 0 ==> end == a.file(fd).offset + len
            &&& forall|i: int| 0 <= i < was.len() && !(end - len <= i < end) ==> #[trigger] now[i]
                == was[i]
        }),
{
    let data = bytes_at(m, buf as int, len as int);
    let was = a.nodes@[n as int].bytes@;
    let off = if a.file(fd).flags & O_APPEND != 0 {
        was.len() as int
    } else {
        a.file(fd).offset as int
    };
    assert(written(was, off, data).subrange(off, off + len) =~= data);
    write_keeps_the_rest(was, off, data, 0);
}

/// A file can be read unless it was opened for writing only, and written unless it
/// was opened for reading only.
pub proof fn access_is_what_was_asked(flags: i32)
    ensures
        access(flags).0 <==> flags & 3 != 1,
        access(flags).1 <==> flags & 3 == 1 || flags & 3 == 2,
{
}

/// The attributes of a file are where Linux has them: the mode at byte 16, with the
/// kind of the file in its high bits, and the size at byte 48.
pub proof fn attributes_read_back(m: Map<int, u8>, at: int, size: usize, is_dir: bool, is_chr: bool)
    requires
        mapped(m, at, 128),
    ensures
        ({
            let t = stored(m, at, stat_bytes(size, is_dir, is_chr));
            &&& num_at(t, at + 16, 4) == (if is_dir {
                0x41edint
            } else if is_chr {
                0x21b6
            } else {
                0x81a4
            })
            &&& num_at(t, at + 20, 4) == 1
            &&& num_at(t, at + 48, 8) == size
            &&& num_at(t, at + 56, 4) == 4096
        }),
{
    broadcast use crate::bytes::lemma_le_len;

    crate::bytes::lemma_span();
    let b = stat_bytes(size, is_dir, is_chr);
    let mode: nat = if is_dir {
        0x41ed
    } else if is_chr {
        0x21b6
    } else {
        0x81a4
    };
    assert(b.subrange(16, 20) =~= le(mode, 4));
    assert(b.subrange(20, 24) =~= le(1, 4));
    assert(b.subrange(48, 56) =~= le(size as nat, 8));
    assert(b.subrange(56, 60) =~= le(4096, 4));
    stored_field(m, at, b, 16, mode, 4);
    stored_field(m, at, b, 20, 1, 4);
    stored_field(m, at, b, 48, size as nat, 8);
    stored_field(m, at, b, 56, 4096, 4);
}

/// What poll and an interest list tell of an open file, bit by bit: bit 0 where
/// input was asked for and is there, bit 2 where output was asked for and is
/// possible.
pub proof fn told_by_bit(s: State, socks: Seq<(bool, bool)>, fd: i32, events: u16, want: u32)
    requires
        fd >= 0,
        s.is_open(fd as usize),
    ensures
        ({
            let k = s.file(fd as usize).kind;
            let r = ready_of(k, socks);
            let p = polled(s, socks, fd, events);
            let e = fd_bits(s, socks, fd as usize, want);
            &&& p & 1 != 0 <==> events & 1 != 0 && r.0
            &&& p & 4 != 0 <==> events & 4 != 0 && r.1
            &&& p & !5u16 == 0
            &&& !(k is Epoll) && !(k is Eventfd) ==> (e & 1 != 0 <==> want & 1 != 0 && r.0) && (e & 4
                != 0 <==> want & 4 != 0 && r.1)
            &&& k matches FileKind::Socket(i) ==> r == socks[i as int]
            &&& k is File ==> r == (true, true)
        }),
{
    let p = polled(s, socks, fd, events);
    let e = fd_bits(s, socks, fd as usize, want);
    assert((p & 1 != 0 <==> p == 1 || p == 5) && (p & 4 != 0 <==> p == 4 || p == 5) && p & !5u16
        == 0) by (bit_vector)
        requires
            p == 0 || p == 1 || p == 4 || p == 5,
    ;
    crate::flags::small_bits(e);
}

proof fn lemma_look_frame(s: State, socks: Seq<(bool, bool)>, m: Map<int, u8>, at: int, n: int, i: int, count: int, a: int)
    requires
        0 <= i,
        forall|j: int| i <= j < n ==> !(#[trigger] (at + 8 * j) + 6 <= a < at + 8 * j + 8),
    ensures
        poll_look(s, socks, m, at, n, i, count).0.dom() == m.dom(),
        m.dom().contains(a) ==> poll_look(s, socks, m, at, n, i, count).0[a] == m[a],
    decreases n - i,
{
    if i < n {
        let x = at + 8 * i;
        let rev = polled(s, socks, num_at(m, x, 4) as u32 as i32, num_at(m, x + 4, 2) as u16);
        let t = stored(m, x + 6, le(rev as nat, 2));
        lemma_le_len(rev as nat, 2);
        assert(t.dom() =~= m.dom());
        assert(!((at + 8 * i) + 6 <= a < at + 8 * i + 8));
        lemma_look_frame(
            s,
            socks,
            t,
            at,
            n,
            i + 1,
            if rev != 0 {
                count + 1
            } else {
                count
            },
            a,
        );
    }
}

/// Every entry of poll is told in the last two of its eight bytes; its number and
/// its question stay.
pub proof fn every_entry_is_told(
    s: State,
    socks: Seq<(bool, bool)>,
    m: Map<int, u8>,
    at: int,
    n: int,
    i: int,
    count: int,
    k: int,
)
    requires
        0 <= i <= k < n,
        mapped(m, at, 8 * n),
    ensures
        ({
            let t = poll_look(s, socks, m, at, n, i, count).0;
            let fd = num_at(m, at + 8 * k, 4) as u32 as i32;
            let events = num_at(m, at + 8 * k + 4, 2) as u16;
            &&& num_at(t, at + 8 * k, 4) == num_at(m, at + 8 * k, 4)
            &&& num_at(t, at + 8 * k + 4, 2) == num_at(m, at + 8 * k + 4, 2)
            &&& num_at(t, at + 8 * k + 6, 2) == polled(s, socks, fd, events)
        }),
    decreases n - i,
{
    let x = at + 8 * i;
    let rev = polled(s, socks, num_at(m, x, 4) as u32 as i32, num_at(m, x + 4, 2) as u16);
    let t = stored(m, x + 6, le(rev as nat, 2));
    let c = if rev != 0 {
        count + 1
    } else {
        count
    };
    lemma_le_len(rev as nat, 2);
    crate::bytes::lemma_span();
    let f = poll_look(s, socks, t, at, n, i + 1, c).0;
    assert forall|a: int| at <= a < at + 8 * n implies #[trigger] m.dom().contains(a) by {}
    assert(t.dom() =~= m.dom());
    if k == i {
        assert forall|a: int| x <= a < x + 8 implies #[trigger] f[a] == t[a] by {
            assert(m.dom().contains(a));
            lemma_look_frame(s, socks, t, at, n, i + 1, c, a);
        }
        assert forall|a: int| x <= a < x + 6 implies #[trigger] t[a] == m[a] by {
            assert(m.dom().contains(a));
        }
        assert(bytes_at(f, x, 4) =~= bytes_at(m, x, 4));
        assert(bytes_at(f, x + 4, 2) =~= bytes_at(m, x + 4, 2));
        assert(bytes_at(f, x + 6, 2) =~= le(rev as nat, 2)) by {
            assert(m.dom().contains(x + 6) && m.dom().contains(x + 7));
        }
        crate::bytes::from_le_of_le(rev as nat, 2);
    } else {
        assert(mapped(t, at, 8 * n));
        every_entry_is_told(s, socks, t, at, n, i + 1, c, k);
        assert forall|a: int| at + 8 * k <= a < at + 8 * k + 8 implies #[trigger] t[a] == m[a] by {
            assert(m.dom().contains(a));
        }
        assert(bytes_at(t, at + 8 * k, 4) =~= bytes_at(m, at + 8 * k, 4));
        assert(bytes_at(t, at + 8 * k + 4, 2) =~= bytes_at(m, at + 8 * k + 4, 2));
    }
}

/// An interest that is added or changed asks for what was given; one that is removed
/// is gone; interests in other descriptors stay.
pub proof fn interests_are_as_asked(l: Seq<Interest>, op: usize, x: Interest, k: int)
    requires
        0 <= k < l.len(),
        1 <= op <= 3,
    ensures
        changed(l, op, x) is Some,
        op == 1 ==> changed(l, op, x)->0.last() == x,
        op == 2 ==> forall|i: int|
            0 <= i < changed(l, op, x)->0.len() ==> (#[trigger] changed(l, op, x)->0[i]).fd != x.fd,
        op == 3 && l[k].fd == x.fd ==> changed(l, op, x)->0[k] == x,
        l[k].fd != x.fd ==> changed(l, op, x)->0.contains(l[k]),
{
    let w = without(l, x.fd);
    lemma_without(l, x.fd, k);
    if op == 3 {
        assert(modified(l, x)[k] == (if l[k].fd == x.fd { x } else { l[k] }));
        if l[k].fd != x.fd {
            assert(changed(l, op, x)->0[k] == l[k]);
        }
    } else if op == 1 && l[k].fd != x.fd {
        let i = choose|i: int| 0 <= i < w.len() && w[i] == l[k];
        assert(w.push(x)[i] == l[k]);
    }
}

proof fn lemma_without(l: Seq<Interest>, fd: u32, k: int)
    requires
        0 <= k < l.len() || k == -1,
    ensures
        forall|i: int| 0 <= i < without(l, fd).len() ==> (#[trigger] without(l, fd)[i]).fd != fd,
        k >= 0 && l[k].fd != fd ==> without(l, fd).contains(l[k]),
    decreases l.len(),
{
    if l.len() > 0 {
        let p = l.drop_last();
        let d = without(p, fd);
        let w = without(l, fd);
        lemma_without(p, fd, if k < l.len() - 1 { k } else { -1 });
        assert forall|i: int| 0 <= i < w.len() implies (#[trigger] w[i]).fd != fd by {
            if i < d.len() {
                assert(w[i] == d[i]);
            }
        }
        if k >= 0 && l[k].fd != fd {
            if k < l.len() - 1 {
                assert(p[k] == l[k]);
                let i = choose|i: int| 0 <= i < d.len() && d[i] == l[k];
                assert(w[i] == l[k]);
            } else {
                assert(w[w.len() - 1] == l[k]);
            }
        }
    }
}

/// Seeking starts at the beginning (0), at the place of the file (1) or at its end
/// (2).
pub proof fn seeks_start_where_asked(s: State, fd: usize)
    ensures
        seek_base(s, fd, 0) == Some(0int),
        seek_base(s, fd, 1) == Some(s.file(fd).offset as int),
        s.file(fd).kind matches FileKind::File(n) ==> seek_base(s, fd, 2) == Some(
            s.nodes@[n as int].bytes@.len() as int,
        ),
        forall|w: usize| w > 2 ==> #[trigger] seek_base(s, fd, w) is None,
{
}

proof fn lemma_told_frame(
    s: State,
    socks: Seq<(bool, bool)>,
    m: Map<int, u8>,
    l: Seq<Interest>,
    at: int,
    max: int,
    k: int,
    n: int,
    a: int,
)
    requires
        0 <= k,
        a < at + 16 * n,
    ensures
        told(s, socks, m, l, at, max, k, n).0.dom() == m.dom(),
        m.dom().contains(a) ==> told(s, socks, m, l, at, max, k, n).0[a] == m[a],
    decreases l.len() - k,
{
    if k < l.len() && n < max {
        let rev = answered(s, socks, l[k].fd as usize, l[k].events);
        if rev == 0 {
            lemma_told_frame(s, socks, m, l, at, max, k + 1, n, a);
        } else {
            let u = stored(m, at + 16 * n, le(rev as nat, 4));
            let t = stored(u, at + 16 * n + 8, le(l[k].data as nat, 8));
            assert(u.dom() =~= m.dom());
            assert(t.dom() =~= m.dom());
            lemma_told_frame(s, socks, t, l, at, max, k + 1, n + 1, a);
        }
    }
}

/// The first interest that has something to tell is the first event: its events and
/// its data are at its place. A socket that can be read is told so.
pub proof fn first_news_is_told(
    s: State,
    socks: Seq<(bool, bool)>,
    m: Map<int, u8>,
    l: Seq<Interest>,
    at: int,
    max: int,
    k: int,
    n: int,
)
    requires
        0 <= k < l.len(),
        0 <= n < max,
        mapped(m, at + 16 * n, 16),
        answered(s, socks, l[k].fd as usize, l[k].events) != 0,
    ensures
        ({
            let t = told(s, socks, m, l, at, max, k, n).0;
            &&& num_at(t, at + 16 * n, 4) == answered(s, socks, l[k].fd as usize, l[k].events)
            &&& num_at(t, at + 16 * n + 8, 8) == l[k].data
        }),
        told(s, socks, m, l, at, max, k, n).1 > n,
{
    let rev = answered(s, socks, l[k].fd as usize, l[k].events);
    let a = at + 16 * n;
    let u = stored(m, a, le(rev as nat, 4));
    let t = stored(u, a + 8, le(l[k].data as nat, 8));
    lemma_le_len(rev as nat, 4);
    lemma_le_len(l[k].data as nat, 8);
    crate::bytes::lemma_span();
    let f = told(s, socks, t, l, at, max, k + 1, n + 1).0;
    assert forall|y: int| a <= y < a + 16 implies #[trigger] f[y] == t[y] && m.dom().contains(y) by {
        assert(m.dom().contains(y));
        assert(u.dom().contains(y));
        assert(t.dom().contains(y));
        lemma_told_frame(s, socks, t, l, at, max, k + 1, n + 1, y);
    }
    assert(bytes_at(f, a, 4) =~= le(rev as nat, 4)) by {
        assert forall|j: int| 0 <= j < 4 implies bytes_at(f, a, 4)[j] == le(rev as nat, 4)[j] by {
            assert(f[a + j] == t[a + j]);
        }
    }
    assert(bytes_at(f, a + 8, 8) =~= le(l[k].data as nat, 8)) by {
        assert forall|j: int| 0 <= j < 8 implies bytes_at(f, a + 8, 8)[j] == le(
            l[k].data as nat,
            8,
        )[j] by {
            assert(f[a + (8 + j)] == t[a + (8 + j)]);
        }
    }
    crate::bytes::from_le_of_le(rev as nat, 4);
    crate::bytes::from_le_of_le(l[k].data as nat, 8);
    lemma_told_grows(s, socks, t, l, at, max, k + 1, n + 1);
}

proof fn lemma_told_grows(
    s: State,
    socks: Seq<(bool, bool)>,
    m: Map<int, u8>,
    l: Seq<Interest>,
    at: int,
    max: int,
    k: int,
    n: int,
)
    requires
        0 <= k,
    ensures
        told(s, socks, m, l, at, max, k, n).1 >= n,
    decreases l.len() - k,
{
    if k < l.len() && n < max {
        let rev = answered(s, socks, l[k].fd as usize, l[k].events);
        if rev == 0 {
            lemma_told_grows(s, socks, m, l, at, max, k + 1, n);
        } else {
            let t = stored(
                stored(m, at + 16 * n, le(rev as nat, 4)),
                at + 16 * n + 8,
                le(l[k].data as nat, 8),
            );
            lemma_told_grows(s, socks, t, l, at, max, k + 1, n + 1);
        }
    }
}

/// A socket that can be read is told so to an interest in input, and one that can be
/// written to an interest in output.
pub proof fn ready_socket_is_told(s: State, socks: Seq<(bool, bool)>, fd: usize, want: u32, i: usize)
    requires
        s.is_open(fd),
        s.file(fd).kind == FileKind::Socket(i),
    ensures
        socks[i as int].0 && want & 1 != 0 ==> answered(s, socks, fd, want) & 1 != 0,
        socks[i as int].1 && want & 4 != 0 ==> answered(s, socks, fd, want) & 4 != 0,
        !socks[i as int].0 ==> answered(s, socks, fd, want) & 1 == 0,
{
    let r = answered(s, socks, fd, want);
    assert(r == 0 || r == 1 || r == 4 || r == 5);
    crate::flags::small_bits(r);
}

/// A wait is over when its seconds and nanoseconds have passed, in milliseconds.
pub proof fn deadline_is_in_time(now: u64, sec: u64, nsec: u64)
    requires
        now + sec * 1000 + nsec <= u64::MAX,
    ensures
        deadline_ms(now, sec, nsec) - now >= sec * 1000,
        (deadline_ms(now, sec, nsec) - now - sec * 1000) * 1_000_000 <= nsec,
        nsec < (deadline_ms(now, sec, nsec) - now - sec * 1000 + 1) * 1_000_000,
{
}

/// What is read from a file is what it holds at its place, and the place moves on by
/// as much as was read.
pub proof fn read_gives_the_file(
    a: State,
    m: Map<int, u8>,
    fd: usize,
    buf: usize,
    len: usize,
    seed: u64,
    r: Io,
    b: State,
    n: Map<int, u8>,
    k: usize,
)
    requires
        a.is_open(fd),
        a.file(fd).readable,
        a.file(fd).kind == FileKind::File(k),
        0 <= a.file_no(fd) < a.files@.len(),
        mapped(m, buf as int, len as int),
        len <= isize::MAX,
        read_post(a, m, fd, buf, len, seed, r, b, n),
    ensures
        ({
            let d = a.nodes@[k as int].bytes@;
            let off = a.file(fd).offset as int;
            &&& off < d.len() ==> {
                let c = smaller(len as int, d.len() - off);
                &&& r == Io::Done(c as isize)
                &&& bytes_at(n, buf as int, c) == d.subrange(off, off + c)
                &&& b.files@[a.file_no(fd)].offset as int == (off + c) as usize
            }
            &&& off >= d.len() ==> r == Io::Done(0) && b.files@[a.file_no(fd)].offset == off
            &&& b.nodes == a.nodes
        }),
{
    let d = a.nodes@[k as int].bytes@;
    let off = a.file(fd).offset as int;
    let p = part(d, off, len as int);
    if off < d.len() {
        let c = smaller(len as int, d.len() - off);
        assert forall|i: int| 0 <= i < c implies bytes_at(n, buf as int, c)[i] == d.subrange(
            off,
            off + c,
        )[i] by {
            assert(m.dom().contains(buf + i));
        }
        assert(bytes_at(n, buf as int, c) =~= d.subrange(off, off + c));
    }
}

} // verus!
