//! Moving data between a process and its files: vectors of buffers, strings,
//! directory entries, and the steps of calls that may have to wait.

use vstd::prelude::*;
use crate::bytes::{le, lemma_le_len, put_le, put_zeros, zeros};
use crate::errno::{SysResult, EAGAIN, EBADF, EFAULT, EINTR, EINVAL, ENOTDIR, ESPIPE};
use crate::syscall::process::{err, lemma_mapped_stored, ok};
use crate::task::process::{File, FileObj, Process};
use crate::uaccess::{
    bytes_at, cstr_at, cstr_mapped, field, mapped, num_at, stored, stored_field, UserMem,
};

verus! {

/// At most this many strings or buffers are looked at.
pub const MAX_VEC: usize = 1024;

pub const MAX_STR: usize = 4096;

/// The strings that an array of pointers at `at` leads to, up to a null pointer
/// and `left` at most; `None` where something cannot be read.
pub open spec fn strings_at(m: Map<int, u8>, at: int, left: nat) -> Option<Seq<Seq<u8>>>
    decreases left,
{
    let s = num_at(m, at, 8) as usize as int;
    if left == 0 {
        Some(Seq::empty())
    } else if !mapped(m, at, 8) {
        None
    } else if s == 0 {
        Some(Seq::empty())
    } else if !cstr_mapped(m, s, MAX_STR as nat) {
        None
    } else {
        match strings_at(m, at + 8, (left - 1) as nat) {
            None => None,
            Some(l) => Some(seq![cstr_at(m, s, MAX_STR as nat)] + l),
        }
    }
}

/// An array of strings in memory; none for a null pointer.
pub open spec fn array_at(m: Map<int, u8>, at: usize) -> Option<Seq<Seq<u8>>> {
    if at == 0 {
        Some(Seq::empty())
    } else {
        strings_at(m, at as int, MAX_VEC as nat)
    }
}

pub open spec fn texts(l: Seq<Vec<u8>>) -> Seq<Seq<u8>> {
    Seq::new(l.len(), |i: int| l[i]@)
}

/// `strings_at` after `done` was read already.
pub open spec fn after(done: Seq<Seq<u8>>, rest: Option<Seq<Seq<u8>>>) -> Option<Seq<Seq<u8>>> {
    match rest {
        Some(l) => Some(done + l),
        None => None,
    }
}

/// Reads an array of strings; a null pointer stands for an empty one.
#[verifier::loop_isolation(false)]
pub fn read_str_array(mem: &UserMem, ptr: usize) -> (r: Result<Vec<Vec<u8>>, i32>)
    ensures
        ptr == 0 ==> r is Ok && r->Ok_0@.len() == 0,
        ptr != 0 ==> match strings_at(mem@, ptr as int, MAX_VEC as nat) {
            Some(l) => r is Ok && texts(r->Ok_0@) == l,
            None => r == Err::<Vec<Vec<u8>>, i32>(EFAULT),
        },
{
    let mut l: Vec<Vec<u8>> = Vec::new();
    if ptr == 0 {
        return Ok(l);
    }
    let ghost m = mem@;
    let ghost all = strings_at(m, ptr as int, MAX_VEC as nat);
    let mut i: usize = 0;
    let mut next: Option<usize> = Some(ptr);
    proof {
        assert(all is Some ==> texts(l@) + all->0 =~= all->0);
        mem.lemma_in_space();
    }
    while i < MAX_VEC
        invariant
            i <= MAX_VEC,
            m == mem@,
            forall|a: int| #[trigger] m.dom().contains(a) ==> 0 <= a <= usize::MAX,
            next is Some ==> next->0 == ptr + 8 * i,
            next is None ==> ptr + 8 * i > usize::MAX,
            after(texts(l@), strings_at(m, ptr + 8 * i, (MAX_VEC - i) as nat)) == all,
        decreases MAX_VEC - i,
    {
        let at: usize = match next {
            Some(a) => a,
            None => {
                proof {
                    assert(!m.dom().contains(ptr + 8 * i));
                    assert(!mapped(m, ptr + 8 * i, 8));
                }
                return Err(EFAULT);
            },
        };
        let s: usize = match mem.read_num(at, 8) {
            Ok(v) => v as usize,
            Err(e) => {
                return Err(e);
            },
        };
        if s == 0 {
            proof {
                assert(texts(l@) + Seq::<Seq<u8>>::empty() =~= texts(l@));
            }
            return Ok(l);
        }
        match mem.read_cstr(s, MAX_STR) {
            Ok(t) => {
                let ghost l0 = l@;
                l.push(t);
                proof {
                    let rest = strings_at(m, ptr + 8 * (i + 1), (MAX_VEC - i - 1) as nat);
                    assert(ptr + 8 * i + 8 == ptr + 8 * (i + 1));
                    if rest is Some {
                        assert(texts(l0) + (seq![cstr_at(m, s as int, MAX_STR as nat)] + rest->0)
                            =~= texts(l@) + rest->0);
                    }
                }
            },
            Err(e) => {
                return Err(e);
            },
        }
        next = at.checked_add(8);
        i = i + 1;
    }
    proof {
        assert(texts(l@) + Seq::<Seq<u8>>::empty() =~= texts(l@));
    }
    Ok(l)
}

/// The `n` buffers that an array at `at` describes.
pub open spec fn iovs_at(m: Map<int, u8>, at: int, n: int) -> Seq<(usize, usize)> {
    Seq::new(
        n as nat,
        |i: int| (num_at(m, at + 16 * i, 8) as usize, num_at(m, at + 16 * i + 8, 8) as usize),
    )
}

pub open spec fn capped(n: usize, max: usize) -> int {
    if n < max {
        n as int
    } else {
        max as int
    }
}

/// Reads an array of buffers, 1024 at most.
#[verifier::loop_isolation(false)]
pub fn read_iovs(mem: &UserMem, iov: usize, cnt: usize) -> (r: Result<Vec<(usize, usize)>, i32>)
    ensures
        ({
            let n = capped(cnt, MAX_VEC);
            if mapped(mem@, iov as int, 16 * n) {
                r is Ok && r->Ok_0@ == iovs_at(mem@, iov as int, n)
            } else {
                r == Err::<Vec<(usize, usize)>, i32>(EFAULT)
            }
        }),
{
    let n: usize = if cnt < MAX_VEC {
        cnt
    } else {
        MAX_VEC
    };
    let ghost m = mem@;
    let mut l: Vec<(usize, usize)> = Vec::new();
    let mut i: usize = 0;
    let mut next: Option<usize> = Some(iov);
    proof {
        mem.lemma_in_space();
    }
    while i < n
        invariant
            i <= n == capped(cnt, MAX_VEC),
            m == mem@,
            forall|a: int| #[trigger] m.dom().contains(a) ==> 0 <= a <= usize::MAX,
            next is Some ==> next->0 == iov + 16 * i,
            next is None ==> iov + 16 * i > usize::MAX,
            mapped(m, iov as int, 16 * i),
            l@ == iovs_at(m, iov as int, i as int),
        decreases n - i,
    {
        let at: usize = match next {
            Some(a) => a,
            None => {
                proof {
                    assert(!m.dom().contains(iov + 16 * i));
                }
                return Err(EFAULT);
            },
        };
        match mem.copy_from_user(at, 16) {
            Ok(b) => {
                let base: u64 = field(&b, 0, 8, Ghost(m), Ghost(at as int));
                let len: u64 = field(&b, 8, 8, Ghost(m), Ghost(at as int));
                l.push((base as usize, len as usize));
                proof {
                    assert(l@ =~= iovs_at(m, iov as int, i + 1));
                    assert forall|a: int| iov <= a < iov + 16 * (i + 1) implies #[trigger] m.dom().contains(
                    a) by {}
                }
            },
            Err(e) => {
                proof {
                    let a = choose|a: int| at <= a < at + 16 && !#[trigger] m.dom().contains(a);
                    assert(!m.dom().contains(a));
                }
                return Err(e);
            },
        }
        next = at.checked_add(16);
        i = i + 1;
    }
    Ok(l)
}

/// The bytes of buffers, one after the other, from the `k`-th on.
pub open spec fn gathered(m: Map<int, u8>, l: Seq<(usize, usize)>, k: int) -> Option<Seq<u8>>
    decreases l.len() - k,
{
    if !(0 <= k < l.len()) {
        Some(Seq::empty())
    } else if !mapped(m, l[k].0 as int, l[k].1 as int) {
        None
    } else {
        match gathered(m, l, k + 1) {
            None => None,
            Some(rest) => Some(bytes_at(m, l[k].0 as int, l[k].1 as int) + rest),
        }
    }
}

#[verifier::loop_isolation(false)]
pub fn gather(mem: &UserMem, l: &Vec<(usize, usize)>) -> (r: Result<Vec<u8>, i32>)
    ensures
        match gathered(mem@, l@, 0) {
            Some(d) => r is Ok && r->Ok_0@ == d,
            None => r is Err && r->Err_0 == EFAULT,
        },
{
    let ghost m = mem@;
    let ghost all = gathered(m, l@, 0);
    let n: usize = l.len();
    let mut d: Vec<u8> = Vec::new();
    let mut k: usize = 0;
    proof {
        if all is Some {
            assert(d@ + all->0 =~= all->0);
        }
    }
    while k < n
        invariant
            k <= n == l@.len(),
            m == mem@,
            gathered(m, l@, k as int) is Some <==> all is Some,
            all is Some ==> all->0 == d@ + gathered(m, l@, k as int)->0,
        decreases n - k,
    {
        let (base, len): (usize, usize) = (l[k].0, l[k].1);
        match mem.copy_from_user(base, len) {
            Ok(b) => {
                let ghost d0 = d@;
                d.extend_from_slice(&b);
                proof {
                    let rest = gathered(m, l@, k + 1);
                    if rest is Some {
                        assert(d0 + (b@ + rest->0) =~= d@ + rest->0);
                    }
                }
            },
            Err(e) => {
                return Err(e);
            },
        }
        k = k + 1;
    }
    proof {
        assert(d@ + Seq::<u8>::empty() =~= d@);
    }
    Ok(d)
}

/// The room in buffers from the `k`-th on.
pub open spec fn room(l: Seq<(usize, usize)>, k: int) -> int
    decreases l.len() - k,
{
    if 0 <= k < l.len() {
        l[k].1 + room(l, k + 1)
    } else {
        0
    }
}

pub proof fn lemma_room(l: Seq<(usize, usize)>, k: int)
    ensures
        room(l, k) >= 0,
    decreases l.len() - k,
{
    if 0 <= k < l.len() {
        lemma_room(l, k + 1);
    }
}

/// The room in buffers, as far as one call uses it.
pub open spec fn used_room(l: Seq<(usize, usize)>, max: usize) -> nat {
    if room(l, 0) < max {
        room(l, 0) as nat
    } else {
        max as nat
    }
}

pub fn room_of(l: &Vec<(usize, usize)>, max: usize) -> (r: usize)
    requires
        max > 0,
    ensures
        r == used_room(l@, max),
{
    let n: usize = l.len();
    let mut k: usize = 0;
    let mut t: usize = 0;
    while k < n
        invariant
            k <= n == l@.len(),
            t <= max,
            max > 0,
            t < max ==> t + room(l@, k as int) == room(l@, 0),
            t == max ==> room(l@, 0) >= max,
        decreases n - k,
    {
        proof {
            lemma_room(l@, k + 1);
        }
        if l[k].1 < max - t {
            t = t + l[k].1;
        } else {
            t = max;
        }
        k = k + 1;
    }
    t
}

/// Spreading data from byte `off` on over buffers from the `k`-th on: whether
/// all places were accessible, and the memory after it.
pub open spec fn scattered(m: Map<int, u8>, l: Seq<(usize, usize)>, data: Seq<u8>, k: int, off: int) -> (
    bool,
    Map<int, u8>,
)
    decreases l.len() - k,
{
    let left = data.len() - off;
    let n = if l[k].1 < left {
        l[k].1 as int
    } else {
        left
    };
    if !(0 <= k < l.len()) || left <= 0 {
        (true, m)
    } else if !mapped(m, l[k].0 as int, n) {
        (false, m)
    } else {
        scattered(
            stored(m, l[k].0 as int, data.subrange(off, off + n)),
            l,
            data,
            k + 1,
            off + n,
        )
    }
}

#[verifier::loop_isolation(false)]
pub fn scatter(mem: &mut UserMem, l: &Vec<(usize, usize)>, data: &Vec<u8>) -> (r: Result<(), i32>)
    ensures
        (r is Ok, final(mem)@) == scattered(old(mem)@, l@, data@, 0, 0),
        r is Err ==> r->Err_0 == EFAULT,
        forall|a: int, n: int| #[trigger] mapped(final(mem)@, a, n) == mapped(old(mem)@, a, n),
{
    let ghost all = scattered(mem@, l@, data@, 0, 0);
    let n: usize = l.len();
    let mut k: usize = 0;
    let mut off: usize = 0;
    while k < n
        invariant
            k <= n == l@.len(),
            off <= data@.len(),
            scattered(mem@, l@, data@, k as int, off as int) == all,
            forall|a: int, n: int| #[trigger] mapped(mem@, a, n) == mapped(old(mem)@, a, n),
        decreases n - k,
    {
        if off >= data.len() {
            return Ok(());
        }
        let left: usize = data.len() - off;
        let c: usize = if l[k].1 < left {
            l[k].1
        } else {
            left
        };
        let mut part: Vec<u8> = Vec::new();
        let mut i: usize = 0;
        while i < c
            invariant
                i <= c,
                off + c <= data@.len(),
                part@ == data@.subrange(off as int, off + i),
            decreases c - i,
        {
            part.push(data[off + i]);
            i = i + 1;
            proof {
                assert(part@ =~= data@.subrange(off as int, off + i));
            }
        }
        proof {
            lemma_mapped_stored(mem@, l@[k as int].0 as int, part@);
        }
        match mem.copy_to_user(l[k].0, &part) {
            Ok(_) => {},
            Err(e) => {
                return Err(e);
            },
        }
        off = off + c;
        k = k + 1;
    }
    Ok(())
}

/// What a file tells about itself.
#[derive(Clone, Copy, PartialEq, Eq, Structural, Debug)]
pub struct Stat {
    pub dev: u64,
    pub ino: u64,
    pub mode: u32,
    pub nlink: u32,
    pub uid: u32,
    pub gid: u32,
    pub rdev: u64,
    pub size: u64,
    pub blksize: u32,
    pub blocks: u64,
    pub atime: u64,
    pub mtime: u64,
    pub ctime: u64,
}

pub open spec fn stat_bytes(s: Stat) -> Seq<u8> {
    le(s.dev as nat, 8) + le(s.ino as nat, 8) + le(s.mode as nat, 4) + le(s.nlink as nat, 4) + le(
        s.uid as nat,
        4,
    ) + le(s.gid as nat, 4) + le(s.rdev as nat, 8) + zeros(8) + le(s.size as nat, 8) + le(
        s.blksize as nat,
        4,
    ) + zeros(4) + le(s.blocks as nat, 8) + le(s.atime as nat, 8) + zeros(8) + le(s.mtime as nat, 8)
        + zeros(8) + le(s.ctime as nat, 8) + zeros(16)
}

/// Stores what a file tells about itself, in 128 bytes.
pub fn write_stat(mem: &mut UserMem, at: usize, s: &Stat) -> (r: Result<(), i32>)
    ensures
        if mapped(old(mem)@, at as int, 128) {
            r == Ok::<(), i32>(()) && final(mem)@ == stored(old(mem)@, at as int, stat_bytes(*s))
        } else {
            r == Err::<(), i32>(EFAULT) && final(mem)@ == old(mem)@
        },
{
    let mut b: Vec<u8> = Vec::new();
    put_le(&mut b, s.dev, 8);
    put_le(&mut b, s.ino, 8);
    put_le(&mut b, s.mode as u64, 4);
    put_le(&mut b, s.nlink as u64, 4);
    put_le(&mut b, s.uid as u64, 4);
    put_le(&mut b, s.gid as u64, 4);
    put_le(&mut b, s.rdev, 8);
    put_zeros(&mut b, 8);
    put_le(&mut b, s.size, 8);
    put_le(&mut b, s.blksize as u64, 4);
    put_zeros(&mut b, 4);
    put_le(&mut b, s.blocks, 8);
    put_le(&mut b, s.atime, 8);
    put_zeros(&mut b, 8);
    put_le(&mut b, s.mtime, 8);
    put_zeros(&mut b, 8);
    put_le(&mut b, s.ctime, 8);
    put_zeros(&mut b, 16);
    proof {
        broadcast use crate::bytes::lemma_le_len;

        assert(b@ =~= stat_bytes(*s));
        assert(b@.len() == 128);
    }
    match mem.copy_to_user(at, &b) {
        Ok(_) => Ok(()),
        Err(e) => Err(e),
    }
}

/// A directory entry.
pub struct Dirent {
    pub name: Vec<u8>,
    pub ino: u64,
    pub dtype: u8,
}

/// The size of an entry's record: a multiple of 8, with room for a final zero.
pub open spec fn rec_len(e: Dirent) -> int {
    ((e.name@.len() + 27) / 8 * 8) as int
}

/// The record of the entry at place `off`.
pub open spec fn record(e: Dirent, off: int) -> Seq<u8> {
    le(e.ino as nat, 8) + le((off + 1) as nat, 8) + le(rec_len(e) as nat, 2) + seq![e.dtype] + e.name@
        + zeros((rec_len(e) - 19 - e.name@.len()) as nat)
}

/// The records from place `off` on that fit in `room` bytes, and the place
/// after them.
pub open spec fn records(d: Seq<Dirent>, off: int, room: int) -> (Seq<u8>, int)
    decreases d.len() - off,
{
    if !(0 <= off < d.len()) || rec_len(d[off]) > room {
        (Seq::empty(), off)
    } else {
        let rest = records(d, off + 1, room - rec_len(d[off]));
        (record(d[off], off) + rest.0, rest.1)
    }
}

/// No name is too long for the size of its record to be told.
pub open spec fn names_ok(d: Seq<Dirent>) -> bool {
    forall|i: int| 0 <= i < d.len() ==> (#[trigger] d[i]).name@.len() <= 4096
}

pub(crate) fn put_record(v: &mut Vec<u8>, e: &Dirent, off: u64)
    requires
        e.name@.len() <= 4096,
        off < u64::MAX,
    ensures
        final(v)@ == old(v)@ + record(*e, off as int),
        record(*e, off as int).len() == rec_len(*e),
{
    let len: usize = e.name.len();
    let reclen: usize = (len + 27) / 8 * 8;
    let ghost v0 = v@;
    put_le(v, e.ino, 8);
    put_le(v, off + 1, 8);
    put_le(v, reclen as u64, 2);
    v.push(e.dtype);
    v.extend_from_slice(&e.name);
    put_zeros(v, reclen - 19 - len);
    proof {
        broadcast use crate::bytes::lemma_le_len;

        assert(v@ =~= v0 + record(*e, off as int));
    }
}

/// Lists the entries of an open directory from its offset on, as many as fit,
/// and moves the offset past them. `entries` are those of the directory.
#[verifier::loop_isolation(false)]
pub fn sys_getdents64(
    p: &Process,
    files: &mut Vec<File>,
    mem: &mut UserMem,
    entries: &Vec<Dirent>,
    fd: i32,
    buf: usize,
    count: usize,
) -> (r: SysResult)
    requires
        p.files_ok(old(files)@),
        names_ok(entries@),
    ensures
        p.files_ok(final(files)@),
        if !crate::syscall::files::is_open(*p, fd as int) {
            r == err(EBADF) && final(files)@ == old(files)@ && final(mem)@ == old(mem)@
        } else {
            let i = crate::syscall::files::file_at(*p, fd as int);
            let f = old(files)@[i];
            match f.obj {
                FileObj::Dir { inode, offset } => {
                    let d = records(entries@, offset as int, count as int);
                    &&& final(files)@ == old(files)@.update(
                        i,
                        File { obj: FileObj::Dir { inode, offset: d.1 as u64 }, ..f },
                    )
                    &&& if mapped(old(mem)@, buf as int, d.0.len() as int) {
                        r == ok(d.0.len() as int) && final(mem)@ == stored(
                            old(mem)@,
                            buf as int,
                            d.0,
                        )
                    } else {
                        r == err(EFAULT) && final(mem)@ == old(mem)@
                    }
                },
                _ => r == err(ENOTDIR) && final(files)@ == old(files)@ && final(mem)@ == old(mem)@,
            }
        },
{
    let i: usize = match p.fds.get(fd) {
        Ok(i) => i,
        Err(e) => {
            return Err(e);
        },
    };
    proof {
        assert(crate::file::open_fd(p.fds.entries@, fd as int));
    }
    let f: File = files[i];
    let (inode, offset): (usize, u64) = match f.obj {
        FileObj::Dir { inode, offset } => (inode, offset),
        _ => {
            return Err(ENOTDIR);
        },
    };
    let mut v: Vec<u8> = Vec::new();
    let mut off: u64 = offset;
    let ghost d = entries@;
    let ghost all = records(d, offset as int, count as int);
    proof {
        assert(v@ + all.0 =~= all.0);
    }
    while off < entries.len() as u64
        invariant
            offset <= off,
            d == entries@,
            files@ == old(files)@,
            mem@ == old(mem)@,
            v@.len() <= count,
            v@ + records(d, off as int, count - v@.len()).0 == all.0,
            records(d, off as int, count - v@.len()).1 == all.1,
        decreases d.len() - off,
    {
        let e: &Dirent = &entries[off as usize];
        let reclen: usize = (e.name.len() + 27) / 8 * 8;
        proof {
            assert(names_ok(d) && d[off as int] == *e);
        }
        if reclen > count - v.len() {
            proof {
                assert(v@ + Seq::<u8>::empty() =~= v@);
            }
            files.set(
                i,
                File {
                    obj: FileObj::Dir { inode, offset: off },
                    status: f.status,
                    cloexec: f.cloexec,
                },
            );
            proof {
                assert(p.files_ok(files@));
            }
            return finish(mem, buf, v);
        }
        let ghost v0 = v@;
        put_record(&mut v, e, off);
        proof {
            assert(v@ + records(d, off + 1, count - v@.len()).0 =~= v0 + (record(
                d[off as int],
                off as int,
            ) + records(d, off + 1, count - v@.len()).0));
        }
        off = off + 1;
    }
    proof {
        assert(v@ + Seq::<u8>::empty() =~= v@);
    }
    files.set(
        i,
        File { obj: FileObj::Dir { inode, offset: off }, status: f.status, cloexec: f.cloexec },
    );
    finish(mem, buf, v)
}

fn finish(mem: &mut UserMem, buf: usize, v: Vec<u8>) -> (r: SysResult)
    ensures
        if mapped(old(mem)@, buf as int, v@.len() as int) {
            r == ok(v@.len() as int) && final(mem)@ == stored(old(mem)@, buf as int, v@)
        } else {
            r == err(EFAULT) && final(mem)@ == old(mem)@
        },
{
    match mem.copy_to_user(buf, &v) {
        Ok(_) => Ok(v.len()),
        Err(e) => Err(e),
    }
}

/// What a call comes to that may have to wait.
#[derive(Clone, Copy, PartialEq, Eq, Debug)]
pub enum IoStep {
    Done(SysResult),
    /// Sleep a tick and try again.
    Sleep,
}

/// What an attempt to read comes to, from what the file answered: the data is
/// stored; a file that has none makes the caller wait, unless it must not block
/// or a signal has come.
pub fn read_step(
    mem: &mut UserMem,
    buf: usize,
    got: Result<Vec<u8>, i32>,
    nonblocking: bool,
    interrupted: bool,
) -> (r: IoStep)
    ensures
        match got {
            Ok(v) => if mapped(old(mem)@, buf as int, v@.len() as int) {
                r == IoStep::Done(ok(v@.len() as int)) && final(mem)@ == stored(
                    old(mem)@,
                    buf as int,
                    v@,
                )
            } else {
                r == IoStep::Done(err(EFAULT)) && final(mem)@ == old(mem)@
            },
            Err(e) => final(mem)@ == old(mem)@ && r == (if e != EAGAIN {
                IoStep::Done(err(e))
            } else if nonblocking {
                IoStep::Done(err(EAGAIN))
            } else if interrupted {
                IoStep::Done(err(EINTR))
            } else {
                IoStep::Sleep
            }),
        },
{
    match got {
        Ok(v) => IoStep::Done(finish(mem, buf, v)),
        Err(e) => {
            if e != EAGAIN {
                return IoStep::Done(Err(e));
            }
            if nonblocking {
                return IoStep::Done(Err(EAGAIN));
            }
            if interrupted {
                return IoStep::Done(Err(EINTR));
            }
            IoStep::Sleep
        },
    }
}

/// What an attempt to write comes to.
#[derive(Clone, Copy, PartialEq, Eq, Debug)]
pub enum WriteStep {
    Done(SysResult),
    /// Go on after this many bytes.
    More(usize),
    Sleep,
}

/// What a write of `len` bytes comes to after `total` of them, from what the
/// file answered to the attempt to write the rest. A file that takes no more
/// ends the write; one that is full makes the caller wait, unless something was
/// written already, it must not block, or a signal has come.
pub fn write_step(
    total: usize,
    len: usize,
    wrote: Result<usize, i32>,
    nonblocking: bool,
    interrupted: bool,
) -> (r: WriteStep)
    requires
        total < len,
        wrote is Ok ==> total + wrote->Ok_0 <= len,
    ensures
        r == (match wrote {
            Ok(n) => if n == 0 || total + n == len {
                WriteStep::Done(ok(total + n))
            } else {
                WriteStep::More((total + n) as usize)
            },
            Err(e) => if e != EAGAIN {
                WriteStep::Done(err(e))
            } else if total > 0 {
                WriteStep::Done(ok(total as int))
            } else if nonblocking {
                WriteStep::Done(err(EAGAIN))
            } else if interrupted {
                WriteStep::Done(err(EINTR))
            } else {
                WriteStep::Sleep
            },
        }),
{
    match wrote {
        Ok(n) => {
            if n == 0 || total + n == len {
                return WriteStep::Done(Ok(total + n));
            }
            WriteStep::More(total + n)
        },
        Err(e) => {
            if e != EAGAIN {
                return WriteStep::Done(Err(e));
            }
            if total > 0 {
                return WriteStep::Done(Ok(total));
            }
            if nonblocking {
                return WriteStep::Done(Err(EAGAIN));
            }
            if interrupted {
                return WriteStep::Done(Err(EINTR));
            }
            WriteStep::Sleep
        },
    }
}

/// How a call on several buffers goes on.
#[derive(Clone, Copy, PartialEq, Eq, Debug)]
pub enum VecStep {
    Done(SysResult),
    /// Go on with the next buffer, after this many bytes in all.
    Next(usize),
    /// Sleep a tick, then go on with the next buffer.
    SleepNext,
}

/// Reading into one of several buffers, after `total` bytes.
pub fn readv_step(
    mem: &mut UserMem,
    total: usize,
    base: usize,
    len: usize,
    got: Result<Vec<u8>, i32>,
    nonblocking: bool,
) -> (r: VecStep)
    requires
        got is Ok ==> total + got->Ok_0@.len() <= usize::MAX,
    ensures
        match got {
            Ok(v) => if v@.len() == 0 {
                r == VecStep::Done(ok(total as int)) && final(mem)@ == old(mem)@
            } else if !mapped(old(mem)@, base as int, v@.len() as int) {
                r == VecStep::Done(err(EFAULT)) && final(mem)@ == old(mem)@
            } else {
                &&& final(mem)@ == stored(old(mem)@, base as int, v@)
                &&& r == (if v@.len() < len {
                    VecStep::Done(ok(total + v@.len()))
                } else {
                    VecStep::Next((total + v@.len()) as usize)
                })
            },
            Err(e) => final(mem)@ == old(mem)@ && r == (if e != EAGAIN {
                VecStep::Done(err(e))
            } else if total > 0 {
                VecStep::Done(ok(total as int))
            } else if nonblocking {
                VecStep::Done(err(EAGAIN))
            } else {
                VecStep::SleepNext
            }),
        },
{
    match got {
        Ok(v) => {
            if v.len() == 0 {
                return VecStep::Done(Ok(total));
            }
            match mem.copy_to_user(base, &v) {
                Ok(_) => {},
                Err(e) => {
                    return VecStep::Done(Err(e));
                },
            }
            if v.len() < len {
                return VecStep::Done(Ok(total + v.len()));
            }
            VecStep::Next(total + v.len())
        },
        Err(e) => {
            if e != EAGAIN {
                return VecStep::Done(Err(e));
            }
            if total > 0 {
                return VecStep::Done(Ok(total));
            }
            if nonblocking {
                return VecStep::Done(Err(EAGAIN));
            }
            VecStep::SleepNext
        },
    }
}

/// Writing one of several buffers came to `wrote`, after `total` bytes.
pub fn writev_step(total: usize, wrote: SysResult) -> (r: VecStep)
    requires
        wrote is Ok ==> total + wrote->Ok_0 <= usize::MAX,
    ensures
        r == (match wrote {
            Ok(n) => VecStep::Next((total + n) as usize),
            Err(e) => if e == EAGAIN && total > 0 {
                VecStep::Done(ok(total as int))
            } else {
                VecStep::Done(err(e))
            },
        }),
{
    match wrote {
        Ok(n) => VecStep::Next(total + n),
        Err(e) => {
            if e == EAGAIN && total > 0 {
                VecStep::Done(Ok(total))
            } else {
                VecStep::Done(Err(e))
            }
        },
    }
}

/// What reading from a place of a file takes.
#[derive(Clone, Copy, PartialEq, Eq, Structural, Debug)]
pub enum PlaceStep {
    /// Read this inode at the place asked for.
    Inode(usize),
    /// Read from where the file stands, then put it back there.
    Current,
    Fail(i32),
}

pub fn pread_from(f: &File) -> (r: PlaceStep)
    ensures
        r == (match f.obj {
            FileObj::Regular { inode, .. } => PlaceStep::Inode(inode),
            _ => PlaceStep::Current,
        }),
{
    match f.obj {
        FileObj::Regular { inode, .. } => PlaceStep::Inode(inode),
        _ => PlaceStep::Current,
    }
}

/// Only regular files can be written at a place.
pub fn pwrite_to(f: &File) -> (r: PlaceStep)
    ensures
        r == (match f.obj {
            FileObj::Regular { inode, .. } => PlaceStep::Inode(inode),
            _ => PlaceStep::Fail(ESPIPE),
        }),
{
    match f.obj {
        FileObj::Regular { inode, .. } => PlaceStep::Inode(inode),
        _ => PlaceStep::Fail(ESPIPE),
    }
}

/// Where a transfer from file to file reads: the place that user memory holds,
/// or for a null pointer where the file stands. Only regular files can be read
/// from.
pub fn sendfile_start(mem: &UserMem, offset: usize, input: &File, stands: Result<u64, i32>) -> (r:
    Result<(usize, u64), i32>)
    ensures
        r == (if offset != 0 && !mapped(mem@, offset as int, 8) {
            Err::<(usize, u64), i32>(EFAULT)
        } else if offset == 0 && stands is Err {
            Err::<(usize, u64), i32>(stands->Err_0)
        } else {
            let off = if offset != 0 {
                num_at(mem@, offset as int, 8) as u64
            } else {
                stands->Ok_0
            };
            match input.obj {
                FileObj::Regular { inode, .. } => Ok::<(usize, u64), i32>((inode, off)),
                _ => Err::<(usize, u64), i32>(EINVAL),
            }
        }),
{
    let off: u64 = if offset != 0 {
        match mem.read_num(offset, 8) {
            Ok(v) => v,
            Err(e) => {
                return Err(e);
            },
        }
    } else {
        match stands {
            Ok(v) => v,
            Err(e) => {
                return Err(e);
            },
        }
    };
    match input.obj {
        FileObj::Regular { inode, .. } => Ok((inode, off)),
        _ => Err(EINVAL),
    }
}

/// The end of a transfer: the place after what was written is told.
pub fn sendfile_end(mem: &mut UserMem, offset: usize, off: u64, wrote: SysResult) -> (r: SysResult)
    requires
        wrote is Ok ==> off + wrote->Ok_0 <= u64::MAX,
    ensures
        match wrote {
            Err(e) => r == err(e) && final(mem)@ == old(mem)@,
            Ok(w) => if offset == 0 {
                r == ok(w as int) && final(mem)@ == old(mem)@
            } else if mapped(old(mem)@, offset as int, 8) {
                r == ok(w as int) && final(mem)@ == stored(
                    old(mem)@,
                    offset as int,
                    le((off + w) as nat, 8),
                )
            } else {
                r == err(EFAULT) && final(mem)@ == old(mem)@
            },
        },
{
    let w: usize = match wrote {
        Ok(w) => w,
        Err(e) => {
            return Err(e);
        },
    };
    if offset != 0 {
        match mem.write_num(offset, off + w as u64, 8) {
            Ok(_) => {},
            Err(e) => {
                return Err(e);
            },
        }
    }
    Ok(w)
}

// ---- Laws -------------------------------------------------------------------------
/// The attributes of a file are where Linux has them in 128 bytes.
pub proof fn attributes_read_back(m: Map<int, u8>, at: int, s: Stat)
    requires
        mapped(m, at, 128),
    ensures
        ({
            let t = stored(m, at, stat_bytes(s));
            &&& stat_bytes(s).len() == 128
            &&& num_at(t, at, 8) == s.dev && num_at(t, at + 8, 8) == s.ino
            &&& num_at(t, at + 16, 4) == s.mode && num_at(t, at + 20, 4) == s.nlink
            &&& num_at(t, at + 24, 4) == s.uid && num_at(t, at + 28, 4) == s.gid
            &&& num_at(t, at + 32, 8) == s.rdev && num_at(t, at + 48, 8) == s.size
            &&& num_at(t, at + 56, 4) == s.blksize && num_at(t, at + 64, 8) == s.blocks
            &&& num_at(t, at + 72, 8) == s.atime && num_at(t, at + 88, 8) == s.mtime
            &&& num_at(t, at + 104, 8) == s.ctime
        }),
{
    broadcast use crate::bytes::lemma_le_len;

    crate::bytes::lemma_span();
    let b = stat_bytes(s);
    assert(b.len() == 128);
    assert(b.subrange(0, 8) =~= le(s.dev as nat, 8));
    assert(b.subrange(8, 16) =~= le(s.ino as nat, 8));
    assert(b.subrange(16, 20) =~= le(s.mode as nat, 4));
    assert(b.subrange(20, 24) =~= le(s.nlink as nat, 4));
    assert(b.subrange(24, 28) =~= le(s.uid as nat, 4));
    assert(b.subrange(28, 32) =~= le(s.gid as nat, 4));
    assert(b.subrange(32, 40) =~= le(s.rdev as nat, 8));
    assert(b.subrange(48, 56) =~= le(s.size as nat, 8));
    assert(b.subrange(56, 60) =~= le(s.blksize as nat, 4));
    assert(b.subrange(64, 72) =~= le(s.blocks as nat, 8));
    assert(b.subrange(72, 80) =~= le(s.atime as nat, 8));
    assert(b.subrange(88, 96) =~= le(s.mtime as nat, 8));
    assert(b.subrange(104, 112) =~= le(s.ctime as nat, 8));
    stored_field(m, at, b, 0, s.dev as nat, 8);
    stored_field(m, at, b, 8, s.ino as nat, 8);
    stored_field(m, at, b, 16, s.mode as nat, 4);
    stored_field(m, at, b, 20, s.nlink as nat, 4);
    stored_field(m, at, b, 24, s.uid as nat, 4);
    stored_field(m, at, b, 28, s.gid as nat, 4);
    stored_field(m, at, b, 32, s.rdev as nat, 8);
    stored_field(m, at, b, 48, s.size as nat, 8);
    stored_field(m, at, b, 56, s.blksize as nat, 4);
    stored_field(m, at, b, 64, s.blocks as nat, 8);
    stored_field(m, at, b, 72, s.atime as nat, 8);
    stored_field(m, at, b, 88, s.mtime as nat, 8);
    stored_field(m, at, b, 104, s.ctime as nat, 8);
}

/// Gathering takes the buffers one after the other: a list in two parts gives what
/// the first gives followed by what the second gives, and one buffer gives the
/// bytes it holds.
pub proof fn gathering_goes_in_order(m: Map<int, u8>, l: Seq<(usize, usize)>, x: (usize, usize))
    requires
        gathered(m, l, 0) is Some,
        mapped(m, x.0 as int, x.1 as int),
    ensures
        gathered(m, seq![x], 0) == Some(bytes_at(m, x.0 as int, x.1 as int)),
        gathered(m, l.push(x), 0) == Some(
            gathered(m, l, 0)->0 + bytes_at(m, x.0 as int, x.1 as int),
        ),
{
    let one = seq![x];
    assert(gathered(m, one, 1) == Some(Seq::<u8>::empty()));
    assert(bytes_at(m, x.0 as int, x.1 as int) + Seq::<u8>::empty() =~= bytes_at(
        m,
        x.0 as int,
        x.1 as int,
    ));
    lemma_gather_push(m, l, x, 0);
}

proof fn lemma_gather_push(m: Map<int, u8>, l: Seq<(usize, usize)>, x: (usize, usize), k: int)
    requires
        0 <= k <= l.len(),
        gathered(m, l, k) is Some,
        mapped(m, x.0 as int, x.1 as int),
    ensures
        gathered(m, l.push(x), k) == Some(
            gathered(m, l, k)->0 + bytes_at(m, x.0 as int, x.1 as int),
        ),
    decreases l.len() - k,
{
    let p = l.push(x);
    let b = bytes_at(m, x.0 as int, x.1 as int);
    if k == l.len() {
        assert(gathered(m, p, k + 1) == Some(Seq::<u8>::empty()));
        assert(b + Seq::<u8>::empty() =~= Seq::<u8>::empty() + b);
    } else {
        lemma_gather_push(m, l, x, k + 1);
        assert(p[k] == l[k]);
        let c = bytes_at(m, l[k].0 as int, l[k].1 as int);
        assert(c + (gathered(m, l, k + 1)->0 + b) =~= (c + gathered(m, l, k + 1)->0) + b);
    }
}

/// No two buffers share a byte.
pub open spec fn apart(l: Seq<(usize, usize)>) -> bool {
    forall|i: int, j: int|
        0 <= i < j < l.len() ==> (#[trigger] l[i]).0 + l[i].1 <= (#[trigger] l[j]).0 || l[j].0 + l[j].1
            <= l[i].0
}

proof fn lemma_scatter_frame(m: Map<int, u8>, l: Seq<(usize, usize)>, data: Seq<u8>, k: int, off: int, a: int)
    requires
        0 <= k,
        0 <= off,
        forall|j: int| k <= j < l.len() ==> !((#[trigger] l[j]).0 <= a < l[j].0 + l[j].1),
    ensures
        scattered(m, l, data, k, off).1.dom() == m.dom(),
        m.dom().contains(a) ==> scattered(m, l, data, k, off).1[a] == m[a],
    decreases l.len() - k,
{
    let left = data.len() - off;
    if k < l.len() && left > 0 {
        let n = if l[k].1 < left {
            l[k].1 as int
        } else {
            left
        };
        if mapped(m, l[k].0 as int, n) {
            let t = stored(m, l[k].0 as int, data.subrange(off, off + n));
            assert(t.dom() =~= m.dom());
            lemma_scatter_frame(t, l, data, k + 1, off + n, a);
        }
    }
}

/// Scattering fills the buffers one after the other: the first gets the first bytes
/// of the data, as many as it has room for, and the rest goes to the buffers behind
/// it. Nothing outside of the buffers changes.
pub proof fn scattering_goes_in_order(m: Map<int, u8>, l: Seq<(usize, usize)>, data: Seq<u8>, k: int, off: int)
    requires
        0 <= k < l.len(),
        0 <= off <= data.len(),
        apart(l),
        scattered(m, l, data, k, off).0,
    ensures
        ({
            let n = if l[k].1 < data.len() - off {
                l[k].1 as int
            } else {
                data.len() - off
            };
            let t = scattered(m, l, data, k, off).1;
            &&& bytes_at(t, l[k].0 as int, n) == data.subrange(off, off + n)
            &&& scattered(m, l, data, k, off).1 == scattered(
                stored(m, l[k].0 as int, data.subrange(off, off + n)),
                l,
                data,
                k + 1,
                off + n,
            ).1 || n == 0
            &&& forall|a: int|
                m.dom().contains(a) && (forall|j: int|
                    k <= j < l.len() ==> !((#[trigger] l[j]).0 <= a < l[j].0 + l[j].1))
                    ==> #[trigger] t[a] == m[a]
        }),
{
    let left = data.len() - off;
    let n = if l[k].1 < left {
        l[k].1 as int
    } else {
        left
    };
    let t = scattered(m, l, data, k, off).1;
    if left > 0 {
        let s = stored(m, l[k].0 as int, data.subrange(off, off + n));
        assert forall|i: int| 0 <= i < n implies #[trigger] bytes_at(t, l[k].0 as int, n)[i]
            == data.subrange(off, off + n)[i] by {
            let a = l[k].0 + i;
            assert(m.dom().contains(a));
            assert forall|j: int| k + 1 <= j < l.len() implies !((#[trigger] l[j]).0 <= a < l[j].0
                + l[j].1) by {
                assert(l[k].0 + l[k].1 <= l[j].0 || l[j].0 + l[j].1 <= l[k].0);
            }
            assert(s.dom() =~= m.dom());
            lemma_scatter_frame(s, l, data, k + 1, off + n, a);
        }
    }
    assert(bytes_at(t, l[k].0 as int, n) =~= data.subrange(off, off + n));
    assert forall|a: int|
        m.dom().contains(a) && (forall|j: int|
            k <= j < l.len() ==> !((#[trigger] l[j]).0 <= a < l[j].0 + l[j].1)) implies #[trigger] t[a]
        == m[a] by {
        lemma_scatter_frame(m, l, data, k, off, a);
    }
}

/// The record of a directory entry is as Linux has it: the file's number, where to
/// go on, its own size (a multiple of 8), the type, and the name with a zero at its
/// end.
pub proof fn record_reads_back(m: Map<int, u8>, at: int, e: Dirent, off: int)
    requires
        e.name@.len() <= 4096,
        0 <= off < u64::MAX,
        mapped(m, at, rec_len(e)),
    ensures
        ({
            let r = record(e, off);
            let t = stored(m, at, r);
            let n = e.name@.len() as int;
            &&& r.len() == rec_len(e) && rec_len(e) % 8 == 0 && 20 + n <= rec_len(e) < 28 + n
            &&& num_at(t, at, 8) == e.ino
            &&& num_at(t, at + 8, 8) == off + 1
            &&& num_at(t, at + 16, 2) == rec_len(e)
            &&& t[at + 18] == e.dtype
            &&& bytes_at(t, at + 19, n) == e.name@
            &&& t[at + 19 + n] == 0
        }),
{
    broadcast use crate::bytes::lemma_le_len;

    crate::bytes::lemma_span();
    let r = record(e, off);
    let t = stored(m, at, r);
    let n = e.name@.len() as int;
    assert(r.len() == rec_len(e));
    assert(r.subrange(0, 8) =~= le(e.ino as nat, 8));
    assert(r.subrange(8, 16) =~= le((off + 1) as nat, 8));
    assert(r.subrange(16, 18) =~= le(rec_len(e) as nat, 2));
    stored_field(m, at, r, 0, e.ino as nat, 8);
    stored_field(m, at, r, 8, (off + 1) as nat, 8);
    stored_field(m, at, r, 16, rec_len(e) as nat, 2);
    assert(m.dom().contains(at + 18));
    assert(r[18] == e.dtype);
    assert forall|i: int| 0 <= i < n implies bytes_at(t, at + 19, n)[i] == e.name@[i] by {
        assert(m.dom().contains(at + 19 + i));
        assert(r[19 + i] == e.name@[i]);
    }
    assert(bytes_at(t, at + 19, n) =~= e.name@);
    assert(m.dom().contains(at + 19 + n));
    assert(r[19 + n] == 0);
}

/// A directory is listed entry by entry: what is given is the records of the
/// entries from the place asked for up to the place where to go on, and it stops
/// only at the end or where the next record has no room.
pub proof fn listing_stops_for_room(d: Seq<Dirent>, off: int, room: int)
    requires
        0 <= off <= d.len(),
        0 <= room,
        names_ok(d),
        d.len() < u64::MAX,
    ensures
        ({
            let (b, p) = records(d, off, room);
            &&& off <= p <= d.len()
            &&& b.len() <= room
            &&& p < d.len() ==> b.len() + rec_len(d[p]) > room
            &&& p > off ==> b == record(d[off], off) + records(d, off + 1, room - rec_len(d[off])).0
                && records(d, off + 1, room - rec_len(d[off])).1 == p
            &&& p == off ==> b.len() == 0
        }),
    decreases d.len() - off,
{
    broadcast use crate::bytes::lemma_le_len;

    if off < d.len() && rec_len(d[off]) <= room {
        assert(d[off].name@.len() <= 4096);
        assert(record(d[off], off).len() == rec_len(d[off]));
        listing_stops_for_room(d, off + 1, room - rec_len(d[off]));
    }
}

/// An array of strings is read pointer by pointer: the first pointer leads to the
/// first string and the rest follows; a null pointer ends it.
pub proof fn array_is_read_in_order(m: Map<int, u8>, at: int, left: nat)
    requires
        left > 0,
        mapped(m, at, 8),
        strings_at(m, at, left) is Some,
    ensures
        num_at(m, at, 8) as usize == 0 ==> strings_at(m, at, left)->0.len() == 0,
        num_at(m, at, 8) as usize != 0 ==> {
            let l = strings_at(m, at, left)->0;
            &&& l.len() > 0
            &&& l[0] == cstr_at(m, num_at(m, at, 8) as usize as int, MAX_STR as nat)
            &&& l.skip(1) == strings_at(m, at + 8, (left - 1) as nat)->0
        },
{
    if num_at(m, at, 8) as usize != 0 {
        let l = strings_at(m, at, left)->0;
        let t = strings_at(m, at + 8, (left - 1) as nat)->0;
        assert(l.skip(1) =~= t);
    }
}

/// A buffer in an array is its address and its length, eight bytes each.
pub proof fn buffers_are_pairs(m: Map<int, u8>, at: int, n: int, i: int)
    requires
        0 <= i < n,
    ensures
        iovs_at(m, at, n).len() == n,
        iovs_at(m, at, n)[i].0 == num_at(m, at + 16 * i, 8) as usize,
        iovs_at(m, at, n)[i].1 == num_at(m, at + 16 * i + 8, 8) as usize,
{
}

} // verus!
