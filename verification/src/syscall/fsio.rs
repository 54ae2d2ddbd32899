//! File system calls that move data: reading and writing, attributes, directory
//! entries, and waiting for files to become ready.

use vstd::prelude::*;
use crate::abi::Stat;
use crate::bytes::{le, lemma_le_len, put_le, put_zeros, zeros};
use crate::errno::{SysResult, EBADF, EFAULT, EINVAL};
use crate::file::OpenFile;
use crate::syscall::fs::{get_file, install_fd, install_post, Ctx};
use crate::syscall::process::{err, ok};
use crate::syscall::transfer::{
    iovs_at, read_iovs, records, record, room_of, scatter, scattered, used_room, Dirent, MAX_VEC,
    names_ok, put_record,
};
use crate::uaccess::{bytes_at, mapped, num_at, stored, stored_field, UserMem};

verus! {

/// At most this much is read or written at once where a file stands.
pub const CHUNK: usize = 0x4_0000;

/// At most this much is read or written at once at a place.
pub const BIG_CHUNK: usize = 0x10_0000;

pub open spec fn least(a: usize, b: usize) -> usize {
    if a < b {
        a
    } else {
        b
    }
}

fn min_of(a: usize, b: usize) -> (r: usize)
    ensures
        r == least(a, b),
{
    if a < b {
        a
    } else {
        b
    }
}

/// What a call on a file comes to before the file is used.
#[derive(Clone, Copy, PartialEq, Eq, Debug)]
pub enum Plan {
    Done(SysResult),
    /// Read or write this many bytes of a file.
    Use { file: usize, len: usize },
}

/// How much to read from a file; reading nothing needs no file.
pub fn sys_read(c: &Ctx, fd: i32, len: usize) -> (r: Plan)
    requires
        c.wf(),
    ensures
        r == (if !c.is_open(fd) {
            Plan::Done(err(EBADF))
        } else if len == 0 {
            Plan::Done(ok(0))
        } else {
            Plan::Use { file: c.file_no(fd) as usize, len: least(len, CHUNK) }
        }),
{
    match get_file(c, fd) {
        Ok(file) => {
            if len == 0 {
                return Plan::Done(Ok(0));
            }
            Plan::Use { file, len: min_of(len, CHUNK) }
        },
        Err(e) => Plan::Done(Err(e)),
    }
}

/// How much to read from a place of a file.
pub fn sys_pread64(c: &Ctx, fd: i32, len: usize) -> (r: Plan)
    requires
        c.wf(),
    ensures
        r == (if !c.is_open(fd) {
            Plan::Done(err(EBADF))
        } else {
            Plan::Use { file: c.file_no(fd) as usize, len: least(len, BIG_CHUNK) }
        }),
{
    match get_file(c, fd) {
        Ok(file) => Plan::Use { file, len: min_of(len, BIG_CHUNK) },
        Err(e) => Plan::Done(Err(e)),
    }
}

/// Stores what a file gave; the call returns how much that is.
pub fn read_done(mem: &mut UserMem, buf: usize, got: Result<Vec<u8>, i32>) -> (r: SysResult)
    ensures
        match got {
            Err(e) => r == err(e) && final(mem)@ == old(mem)@,
            Ok(v) => if mapped(old(mem)@, buf as int, v@.len() as int) {
                r == ok(v@.len() as int) && final(mem)@ == stored(old(mem)@, buf as int, v@)
            } else {
                r == err(EFAULT) && final(mem)@ == old(mem)@
            },
        },
{
    match got {
        Err(e) => Err(e),
        Ok(v) => match mem.copy_to_user(buf, &v) {
            Ok(_) => Ok(v.len()),
            Err(e) => Err(e),
        },
    }
}

/// Data to be written to a file.
pub struct ToWrite {
    pub file: usize,
    pub data: Vec<u8>,
}

pub open spec fn to_write(c: Ctx, m: Map<int, u8>, fd: i32, buf: usize, n: usize, r: Result<ToWrite, i32>) -> bool {
    if !c.is_open(fd) {
        r is Err && r->Err_0 == EBADF
    } else if !mapped(m, buf as int, n as int) {
        r is Err && r->Err_0 == EFAULT
    } else {
        &&& r is Ok
        &&& r->Ok_0.file == c.file_no(fd)
        &&& r->Ok_0.data@ == bytes_at(m, buf as int, n as int)
    }
}

fn take_data(c: &Ctx, mem: &UserMem, fd: i32, buf: usize, n: usize) -> (r: Result<ToWrite, i32>)
    requires
        c.wf(),
    ensures
        to_write(*c, mem@, fd, buf, n, r),
{
    match get_file(c, fd) {
        Ok(file) => match mem.copy_from_user(buf, n) {
            Ok(data) => Ok(ToWrite { file, data }),
            Err(e) => Err(e),
        },
        Err(e) => Err(e),
    }
}

/// What to write to a file.
pub fn sys_write(c: &Ctx, mem: &UserMem, fd: i32, buf: usize, len: usize) -> (r: Result<ToWrite, i32>)
    requires
        c.wf(),
    ensures
        to_write(*c, mem@, fd, buf, least(len, CHUNK), r),
{
    take_data(c, mem, fd, buf, min_of(len, CHUNK))
}

/// What to write at a place of a file.
pub fn sys_pwrite64(c: &Ctx, mem: &UserMem, fd: i32, buf: usize, len: usize) -> (r: Result<ToWrite, i32>)
    requires
        c.wf(),
    ensures
        to_write(*c, mem@, fd, buf, least(len, BIG_CHUNK), r),
{
    take_data(c, mem, fd, buf, min_of(len, BIG_CHUNK))
}

pub type Iovs = Seq<(usize, usize)>;

/// The buffers that a call describes; more than 1024 are refused.
pub open spec fn iovecs(m: Map<int, u8>, iov: usize, cnt: usize) -> Result<Iovs, i32> {
    if cnt > MAX_VEC {
        Err(EINVAL)
    } else if mapped(m, iov as int, 16 * cnt) {
        Ok(iovs_at(m, iov as int, cnt as int))
    } else {
        Err(EFAULT)
    }
}

pub fn read_iovecs(mem: &UserMem, iov: usize, cnt: usize) -> (r: Result<Vec<(usize, usize)>, i32>)
    ensures
        match iovecs(mem@, iov, cnt) {
            Ok(l) => r is Ok && r->Ok_0@ == l,
            Err(e) => r is Err && r->Err_0 == e,
        },
{
    if cnt > MAX_VEC {
        return Err(EINVAL);
    }
    read_iovs(mem, iov, cnt)
}

/// Buffers to be filled from a file.
pub struct ToFill {
    pub file: usize,
    pub iovs: Vec<(usize, usize)>,
    /// How much to read.
    pub len: usize,
}

pub open spec fn to_fill(
    c: Ctx,
    m: Map<int, u8>,
    fd: i32,
    iov: usize,
    cnt: usize,
    max: usize,
    r: Result<ToFill, i32>,
) -> bool {
    if !c.is_open(fd) {
        r is Err && r->Err_0 == EBADF
    } else {
        match iovecs(m, iov, cnt) {
            Err(e) => r is Err && r->Err_0 == e,
            Ok(l) => {
                &&& r is Ok
                &&& r->Ok_0.file == c.file_no(fd)
                &&& r->Ok_0.iovs@ == l
                &&& r->Ok_0.len == used_room(l, max)
            },
        }
    }
}

fn take_room(c: &Ctx, mem: &UserMem, fd: i32, iov: usize, cnt: usize, max: usize) -> (r: Result<ToFill, i32>)
    requires
        c.wf(),
        max > 0,
    ensures
        to_fill(*c, mem@, fd, iov, cnt, max, r),
{
    let file: usize = match get_file(c, fd) {
        Ok(f) => f,
        Err(e) => {
            return Err(e);
        },
    };
    match read_iovecs(mem, iov, cnt) {
        Ok(iovs) => {
            let len: usize = room_of(&iovs, max);
            Ok(ToFill { file, iovs, len })
        },
        Err(e) => Err(e),
    }
}

/// Which buffers to fill where a file stands. Without room the call returns 0
/// and the file is not read.
pub fn sys_readv(c: &Ctx, mem: &UserMem, fd: i32, iov: usize, cnt: usize) -> (r: Result<ToFill, i32>)
    requires
        c.wf(),
    ensures
        to_fill(*c, mem@, fd, iov, cnt, CHUNK, r),
{
    take_room(c, mem, fd, iov, cnt, CHUNK)
}

/// Which buffers to fill from a place of a file.
pub fn sys_preadv(c: &Ctx, mem: &UserMem, fd: i32, iov: usize, cnt: usize) -> (r: Result<ToFill, i32>)
    requires
        c.wf(),
    ensures
        to_fill(*c, mem@, fd, iov, cnt, BIG_CHUNK, r),
{
    take_room(c, mem, fd, iov, cnt, BIG_CHUNK)
}

/// Spreads what a file gave over the buffers.
pub fn readv_done(mem: &mut UserMem, iovs: &Vec<(usize, usize)>, got: Result<Vec<u8>, i32>) -> (r: SysResult)
    ensures
        match got {
            Err(e) => r == err(e) && final(mem)@ == old(mem)@,
            Ok(v) => {
                let s = scattered(old(mem)@, iovs@, v@, 0, 0);
                final(mem)@ == s.1 && r == (if s.0 {
                    ok(v@.len() as int)
                } else {
                    err(EFAULT)
                })
            },
        },
{
    match got {
        Err(e) => Err(e),
        Ok(v) => match scatter(mem, iovs, &v) {
            Ok(_) => Ok(v.len()),
            Err(e) => Err(e),
        },
    }
}

/// The bytes of buffers from the `k`-th on, after `n` bytes, `max` in all.
pub open spec fn gathered_upto(m: Map<int, u8>, l: Iovs, max: int, k: int, n: int) -> Option<Seq<u8>>
    decreases l.len() - k,
{
    let left = max - n;
    let take = if l[k].1 < left {
        l[k].1 as int
    } else {
        left
    };
    if !(0 <= k < l.len()) || n >= max {
        Some(Seq::empty())
    } else if !mapped(m, l[k].0 as int, take) {
        None
    } else {
        match gathered_upto(m, l, max, k + 1, n + take) {
            None => None,
            Some(rest) => Some(bytes_at(m, l[k].0 as int, take) + rest),
        }
    }
}

/// Collects the bytes of buffers, `max` at most.
#[verifier::loop_isolation(false)]
pub fn gather(mem: &UserMem, l: &Vec<(usize, usize)>, max: usize) -> (r: Result<Vec<u8>, i32>)
    ensures
        match gathered_upto(mem@, l@, max as int, 0, 0) {
            Some(d) => r is Ok && r->Ok_0@ == d,
            None => r is Err && r->Err_0 == EFAULT,
        },
{
    let ghost m = mem@;
    let ghost all = gathered_upto(m, l@, max as int, 0, 0);
    let n: usize = l.len();
    let mut d: Vec<u8> = Vec::new();
    let mut k: usize = 0;
    proof {
        if all is Some {
            assert(d@ + all->0 =~= all->0);
        }
    }
    while k < n
        invariant
            k <= n == l@.len(),
            m == mem@,
            d@.len() <= max,
            gathered_upto(m, l@, max as int, k as int, d@.len() as int) is Some <==> all is Some,
            all is Some ==> all->0 == d@ + gathered_upto(
                m,
                l@,
                max as int,
                k as int,
                d@.len() as int,
            )->0,
        decreases n - k,
    {
        if d.len() >= max {
            proof {
                assert(d@ + Seq::<u8>::empty() =~= d@);
            }
            return Ok(d);
        }
        let left: usize = max - d.len();
        let take: usize = min_of(l[k].1, left);
        match mem.copy_from_user(l[k].0, take) {
            Ok(b) => {
                let ghost d0 = d@;
                d.extend_from_slice(&b);
                proof {
                    let rest = gathered_upto(m, l@, max as int, k + 1, d@.len() as int);
                    if rest is Some {
                        assert(d0 + (b@ + rest->0) =~= d@ + rest->0);
                    }
                }
            },
            Err(e) => {
                return Err(e);
            },
        }
        k = k + 1;
    }
    proof {
        assert(d@ + Seq::<u8>::empty() =~= d@);
    }
    Ok(d)
}

/// What to write from several buffers. Where a file stands, writing nothing
/// returns 0 and the file is not used.
pub fn sys_writev(c: &Ctx, mem: &UserMem, fd: i32, iov: usize, cnt: usize) -> (r: Result<ToWrite, i32>)
    requires
        c.wf(),
    ensures
        if !c.is_open(fd) {
            r is Err && r->Err_0 == EBADF
        } else {
            match iovecs(mem@, iov, cnt) {
                Err(e) => r is Err && r->Err_0 == e,
                Ok(l) => match gathered_upto(mem@, l, BIG_CHUNK as int, 0, 0) {
                    None => r is Err && r->Err_0 == EFAULT,
                    Some(d) => r is Ok && r->Ok_0.file == c.file_no(fd) && r->Ok_0.data@ == d,
                },
            }
        },
{
    let file: usize = match get_file(c, fd) {
        Ok(f) => f,
        Err(e) => {
            return Err(e);
        },
    };
    let l: Vec<(usize, usize)> = match read_iovecs(mem, iov, cnt) {
        Ok(l) => l,
        Err(e) => {
            return Err(e);
        },
    };
    match gather(mem, &l, BIG_CHUNK) {
        Ok(data) => Ok(ToWrite { file, data }),
        Err(e) => Err(e),
    }
}

/// What to write from several buffers at a place of a file.
pub fn sys_pwritev(c: &Ctx, mem: &UserMem, fd: i32, iov: usize, cnt: usize) -> (r: Result<ToWrite, i32>)
    requires
        c.wf(),
    ensures
        if !c.is_open(fd) {
            r is Err && r->Err_0 == EBADF
        } else {
            match iovecs(mem@, iov, cnt) {
                Err(e) => r is Err && r->Err_0 == e,
                Ok(l) => match gathered_upto(mem@, l, BIG_CHUNK as int, 0, 0) {
                    None => r is Err && r->Err_0 == EFAULT,
                    Some(d) => r is Ok && r->Ok_0.file == c.file_no(fd) && r->Ok_0.data@ == d,
                },
            }
        },
{
    sys_writev(c, mem, fd, iov, cnt)
}

/// A transfer from file to file.
#[derive(Clone, Copy, PartialEq, Eq, Structural, Debug)]
pub struct Transfer {
    pub output: usize,
    pub input: usize,
    /// The place to read from.
    pub off: u64,
    /// How much was moved.
    pub total: usize,
}

/// Starts a transfer: from a place that memory holds, or from where the file
/// stands.
pub fn sys_sendfile(c: &Ctx, mem: &UserMem, out_fd: i32, in_fd: i32, off_ptr: usize) -> (r: Result<
    Transfer,
    i32,
>)
    requires
        c.wf(),
    ensures
        r == (if !c.is_open(out_fd) || !c.is_open(in_fd) {
            Err::<Transfer, i32>(EBADF)
        } else if !c.file(in_fd).seekable {
            Err::<Transfer, i32>(EINVAL)
        } else if off_ptr != 0 && !mapped(mem@, off_ptr as int, 8) {
            Err::<Transfer, i32>(EFAULT)
        } else {
            Ok::<Transfer, i32>(
                Transfer {
                    output: c.file_no(out_fd) as usize,
                    input: c.file_no(in_fd) as usize,
                    off: if off_ptr != 0 {
                        num_at(mem@, off_ptr as int, 8) as u64
                    } else {
                        c.file(in_fd).pos
                    },
                    total: 0,
                },
            )
        }),
{
    let output: usize = match get_file(c, out_fd) {
        Ok(f) => f,
        Err(e) => {
            return Err(e);
        },
    };
    let input: usize = match get_file(c, in_fd) {
        Ok(f) => f,
        Err(e) => {
            return Err(e);
        },
    };
    if !c.files[input].seekable {
        return Err(EINVAL);
    }
    let off: u64 = if off_ptr != 0 {
        match mem.read_num(off_ptr, 8) {
            Ok(v) => v,
            Err(e) => {
                return Err(e);
            },
        }
    } else {
        c.files[input].pos
    };
    Ok(Transfer { output, input, off, total: 0 })
}

/// How a transfer goes on after an attempt to write.
#[derive(Clone, Copy, PartialEq, Eq, Structural, Debug)]
pub enum SendWrite {
    /// Write on after this many bytes of the piece.
    More(usize),
    /// The piece ends here.
    Stop(usize),
    Fail(i32),
}

/// Writing a piece of `n` bytes, of which `written` are, after `total` bytes in
/// all. A failure after the first byte only ends the transfer.
pub fn sendfile_write(total: usize, written: usize, n: usize, wrote: SysResult) -> (r: SendWrite)
    requires
        written < n,
        total + n <= usize::MAX,
        wrote is Ok ==> written + wrote->Ok_0 <= n,
    ensures
        r == (match wrote {
            Ok(w) => if w == 0 || written + w == n {
                SendWrite::Stop((written + w) as usize)
            } else {
                SendWrite::More((written + w) as usize)
            },
            Err(e) => if total + written > 0 {
                SendWrite::Stop(written)
            } else {
                SendWrite::Fail(e)
            },
        }),
{
    match wrote {
        Ok(w) => {
            if w == 0 || written + w == n {
                return SendWrite::Stop(written + w);
            }
            SendWrite::More(written + w)
        },
        Err(e) => {
            if total + written > 0 {
                return SendWrite::Stop(written);
            }
            SendWrite::Fail(e)
        },
    }
}

/// A piece of `n` bytes ended after `written`; tells whether the transfer goes
/// on.
pub fn sendfile_round(t: &mut Transfer, count: usize, n: usize, written: usize) -> (more: bool)
    requires
        written <= n,
        old(t).total + written <= usize::MAX,
        old(t).off + written <= u64::MAX,
    ensures
        *final(t) == (Transfer {
            off: (old(t).off + written) as u64,
            total: (old(t).total + written) as usize,
            ..*old(t)
        }),
        more == (written == n && n > 0 && final(t).total < count),
{
    t.off = t.off + written as u64;
    t.total = t.total + written;
    written == n && n > 0 && t.total < count
}

/// How much of a transfer to read next.
pub fn transfer_want(total: usize, count: usize) -> (r: usize)
    requires
        total <= count,
    ensures
        r == least((count - total) as usize, 0x1_0000),
{
    min_of(count - total, 0x1_0000)
}

/// The `n` bytes of a file from a place on, as far as the file goes.
pub open spec fn read_at(d: Seq<u8>, off: int, n: int) -> Seq<u8> {
    if off >= d.len() {
        Seq::empty()
    } else if off + n <= d.len() {
        d.subrange(off, off + n)
    } else {
        d.skip(off)
    }
}

/// The next piece of a transfer, from the contents of the file.
pub fn sendfile_piece(data: &Vec<u8>, t: &Transfer, count: usize) -> (r: Vec<u8>)
    requires
        t.total <= count,
    ensures
        r@ == read_at(data@, t.off as int, least((count - t.total) as usize, 0x1_0000) as int),
{
    let want: usize = transfer_want(t.total, count);
    let mut r: Vec<u8> = Vec::new();
    if t.off >= data.len() as u64 {
        assert(r@ =~= Seq::empty());
        return r;
    }
    let off: usize = t.off as usize;
    let n: usize = min_of(data.len() - off, want);
    let mut i: usize = 0;
    while i < n
        invariant
            i <= n,
            off + n <= data@.len() <= usize::MAX,
            r@ == data@.subrange(off as int, off + i),
        decreases n - i,
    {
        r.push(data[off + i]);
        proof {
            assert(r@ =~= data@.subrange(off as int, off + i + 1));
        }
        i = i + 1;
    }
    proof {
        assert(r@ =~= read_at(data@, off as int, want as int));
    }
    r
}

/// What is still to be written of a piece.
pub fn sendfile_rest(piece: &Vec<u8>, written: usize) -> (r: Vec<u8>)
    requires
        written <= piece@.len(),
    ensures
        r@ == piece@.skip(written as int),
{
    let mut r: Vec<u8> = Vec::new();
    let n: usize = piece.len();
    let mut i: usize = written;
    while i < n
        invariant
            written <= i <= n == piece@.len(),
            r@ == piece@.subrange(written as int, i as int),
        decreases n - i,
    {
        r.push(piece[i]);
        proof {
            assert(r@ =~= piece@.subrange(written as int, i + 1));
        }
        i = i + 1;
    }
    proof {
        assert(r@ =~= piece@.skip(written as int));
    }
    r
}

/// What a transfer writes are the bytes of the file from where it started: so
/// it is at the start, and so it stays when some of the next piece is written.
pub proof fn sent_is_the_file(d: Seq<u8>, start: int, t: Transfer, out: Seq<u8>, want: int, written: int)
    requires
        0 <= start <= d.len(),
        t.off == start + t.total,
        t.off <= d.len(),
        out == d.subrange(start, t.off as int),
        0 <= want,
        0 <= written <= read_at(d, t.off as int, want).len(),
    ensures
        d.subrange(start, start) == Seq::<u8>::empty(),
        t.off + written <= d.len(),
        out + read_at(d, t.off as int, want).take(written) == d.subrange(start, t.off + written),
{
    assert(d.subrange(start, start) =~= Seq::<u8>::empty());
    let piece = read_at(d, t.off as int, want);
    assert(out + piece.take(written) =~= d.subrange(start, t.off + written));
}

pub open spec fn with_pos(l: Seq<OpenFile>, i: int, pos: u64) -> Seq<OpenFile> {
    l.update(i, OpenFile { pos, ..l[i] })
}

fn set_pos(c: &mut Ctx, f: usize, pos: u64)
    requires
        old(c).wf(),
        f < old(c).files@.len(),
    ensures
        final(c).wf(),
        final(c).files@ == with_pos(old(c).files@, f as int, pos),
        *final(c) == (Ctx { files: final(c).files, ..*old(c) }),
{
    let ghost l = c.files@;
    let mut x: OpenFile = c.files[f];
    x.pos = pos;
    c.files.set(f, x);
    proof {
        assert(c.files@ =~= with_pos(l, f as int, pos));
        assert forall|i: int| 0 <= i < c.files@.len() implies match (#[trigger] c.files@[i]).node {
            Some(k) => k < c.nodes@.len(),
            None => true,
        } by {
            assert(c.files@[i].node == l[i].node);
        }
    }
}

/// A place is kept where it came from: in memory, or in the file.
pub open spec fn place_kept(
    a: Ctx,
    m: Map<int, u8>,
    ptr: usize,
    f: int,
    off: u64,
    r: Result<(), i32>,
    b: Ctx,
    n: Map<int, u8>,
) -> bool {
    if ptr != 0 {
        b == a && if mapped(m, ptr as int, 8) {
            r is Ok && n == stored(m, ptr as int, le(off as nat, 8))
        } else {
            r is Err && r->Err_0 == EFAULT && n == m
        }
    } else {
        &&& r is Ok && n == m
        &&& b == (Ctx { files: b.files, ..a })
        &&& b.files@ == with_pos(a.files@, f, off)
    }
}

fn keep_place(c: &mut Ctx, mem: &mut UserMem, ptr: usize, f: usize, off: u64) -> (r: Result<(), i32>)
    requires
        old(c).wf(),
        f < old(c).files@.len(),
    ensures
        final(c).wf(),
        place_kept(*old(c), old(mem)@, ptr, f as int, off, r, *final(c), final(mem)@),
{
    if ptr != 0 {
        match mem.write_num(ptr, off, 8) {
            Ok(_) => Ok(()),
            Err(e) => Err(e),
        }
    } else {
        set_pos(c, f, off);
        Ok(())
    }
}

/// Ends a transfer: the place reached is kept, and the call returns how much was
/// moved.
pub fn sendfile_end(c: &mut Ctx, mem: &mut UserMem, off_ptr: usize, t: &Transfer) -> (r: SysResult)
    requires
        old(c).wf(),
        t.input < old(c).files@.len(),
    ensures
        final(c).wf(),
        exists|k: Result<(), i32>|
            #[trigger] place_kept(
                *old(c),
                old(mem)@,
                off_ptr,
                t.input as int,
                t.off,
                k,
                *final(c),
                final(mem)@,
            ) && r == (match k {
                Ok(_) => ok(t.total as int),
                Err(e) => err(e),
            }),
{
    let k: Result<(), i32> = keep_place(c, mem, off_ptr, t.input, t.off);
    assert(place_kept(
        *old(c),
        old(mem)@,
        off_ptr,
        t.input as int,
        t.off,
        k,
        *c,
        mem@,
    ));
    match k {
        Ok(_) => Ok(t.total),
        Err(e) => Err(e),
    }
}

/// A copy from one place to another.
#[derive(Clone, Copy, PartialEq, Eq, Structural, Debug)]
pub struct Copying {
    pub input: usize,
    pub output: usize,
    pub ioff: u64,
    pub ooff: u64,
    pub total: usize,
}

pub open spec fn place_of(c: Ctx, m: Map<int, u8>, ptr: usize, f: int) -> u64 {
    if ptr != 0 {
        num_at(m, ptr as int, 8) as u64
    } else {
        c.files@[f].pos
    }
}

/// Starts to copy between files.
pub fn sys_copy_file_range(c: &Ctx, mem: &UserMem, fd_in: i32, off_in: usize, fd_out: i32, off_out: usize) -> (r:
    Result<Copying, i32>)
    requires
        c.wf(),
    ensures
        r == (if !c.is_open(fd_in) || !c.is_open(fd_out) {
            Err::<Copying, i32>(EBADF)
        } else if (off_in != 0 && !mapped(mem@, off_in as int, 8)) || (off_out != 0 && !mapped(
            mem@,
            off_out as int,
            8,
        )) {
            Err::<Copying, i32>(EFAULT)
        } else {
            Ok::<Copying, i32>(
                Copying {
                    input: c.file_no(fd_in) as usize,
                    output: c.file_no(fd_out) as usize,
                    ioff: place_of(*c, mem@, off_in, c.file_no(fd_in)),
                    ooff: place_of(*c, mem@, off_out, c.file_no(fd_out)),
                    total: 0,
                },
            )
        }),
{
    let input: usize = match get_file(c, fd_in) {
        Ok(f) => f,
        Err(e) => {
            return Err(e);
        },
    };
    let output: usize = match get_file(c, fd_out) {
        Ok(f) => f,
        Err(e) => {
            return Err(e);
        },
    };
    let ioff: u64 = if off_in != 0 {
        match mem.read_num(off_in, 8) {
            Ok(v) => v,
            Err(e) => {
                return Err(e);
            },
        }
    } else {
        c.files[input].pos
    };
    let ooff: u64 = if off_out != 0 {
        match mem.read_num(off_out, 8) {
            Ok(v) => v,
            Err(e) => {
                return Err(e);
            },
        }
    } else {
        c.files[output].pos
    };
    Ok(Copying { input, output, ioff, ooff, total: 0 })
}

/// A piece of `n` bytes was written as far as `w`; tells whether the copy goes
/// on.
pub fn copy_round(t: &mut Copying, len: usize, n: usize, w: usize) -> (more: bool)
    requires
        w <= n,
        old(t).total + w <= usize::MAX,
        old(t).ioff + w <= u64::MAX,
        old(t).ooff + w <= u64::MAX,
    ensures
        *final(t) == (Copying {
            ioff: (old(t).ioff + w) as u64,
            ooff: (old(t).ooff + w) as u64,
            total: (old(t).total + w) as usize,
            ..*old(t)
        }),
        more == (w == n && n > 0 && final(t).total < len),
{
    t.ioff = t.ioff + w as u64;
    t.ooff = t.ooff + w as u64;
    t.total = t.total + w;
    w == n && n > 0 && t.total < len
}

/// Ends a copy: both places are kept.
pub fn copy_end(c: &mut Ctx, mem: &mut UserMem, off_in: usize, off_out: usize, t: &Copying) -> (r: SysResult)
    requires
        old(c).wf(),
        t.input < old(c).files@.len(),
        t.output < old(c).files@.len(),
    ensures
        final(c).wf(),
        exists|k: Result<(), i32>, mid: Ctx, m: Map<int, u8>|
            #[trigger] place_kept(
                *old(c),
                old(mem)@,
                off_in,
                t.input as int,
                t.ioff,
                k,
                mid,
                m,
            ) && match k {
                Err(e) => r == err(e) && *final(c) == mid && final(mem)@ == m,
                Ok(_) => exists|l: Result<(), i32>|
                    #[trigger] place_kept(
                        mid,
                        m,
                        off_out,
                        t.output as int,
                        t.ooff,
                        l,
                        *final(c),
                        final(mem)@,
                    ) && r == (match l {
                        Ok(_) => ok(t.total as int),
                        Err(e) => err(e),
                    }),
            },
{
    let k: Result<(), i32> = keep_place(c, mem, off_in, t.input, t.ioff);
    let ghost mid = *c;
    let ghost m = mem@;
    assert(place_kept(*old(c), old(mem)@, off_in, t.input as int, t.ioff, k, mid, m));
    match k {
        Ok(_) => {},
        Err(e) => {
            return Err(e);
        },
    }
    let l: Result<(), i32> = keep_place(c, mem, off_out, t.output, t.ooff);
    assert(place_kept(mid, m, off_out, t.output as int, t.ooff, l, *c, mem@));
    match l {
        Ok(_) => Ok(t.total),
        Err(e) => Err(e),
    }
}

/// The place that a seek reached.
pub fn sys_lseek(moved: Result<u64, i32>) -> (r: SysResult)
    ensures
        r == (match moved {
            Ok(v) => Ok::<usize, i32>(v as usize),
            Err(e) => Err::<usize, i32>(e),
        }),
{
    match moved {
        Ok(v) => Ok(v as usize),
        Err(e) => Err(e),
    }
}

/// Attributes as memory holds them, in 128 bytes.
pub open spec fn stat_bytes(s: Stat) -> Seq<u8> {
    le(s.dev as nat, 8) + le(s.ino as nat, 8) + le(s.mode as nat, 4) + le(s.nlink as nat, 4) + le(
        s.uid as nat,
        4,
    ) + le(s.gid as nat, 4) + le(s.rdev as nat, 8) + zeros(8) + le(s.size as nat, 8) + le(
        s.blksize as nat,
        4,
    ) + zeros(4) + le(s.blocks as nat, 8) + le(s.atime_sec as nat, 8) + le(
        s.atime_nsec as nat,
        8,
    ) + le(s.mtime_sec as nat, 8) + le(s.mtime_nsec as nat, 8) + le(s.ctime_sec as nat, 8) + le(
        s.ctime_nsec as nat,
        8,
    ) + zeros(8)
}

fn stat_vec(s: &Stat) -> (b: Vec<u8>)
    ensures
        b@ == stat_bytes(*s),
        b@.len() == 128,
{
    let mut b: Vec<u8> = Vec::new();
    put_le(&mut b, s.dev, 8);
    put_le(&mut b, s.ino, 8);
    put_le(&mut b, s.mode as u64, 4);
    put_le(&mut b, s.nlink as u64, 4);
    put_le(&mut b, s.uid as u64, 4);
    put_le(&mut b, s.gid as u64, 4);
    put_le(&mut b, s.rdev, 8);
    put_zeros(&mut b, 8);
    put_le(&mut b, s.size, 8);
    put_le(&mut b, s.blksize as u64, 4);
    put_zeros(&mut b, 4);
    put_le(&mut b, s.blocks, 8);
    put_le(&mut b, s.atime_sec, 8);
    put_le(&mut b, s.atime_nsec, 8);
    put_le(&mut b, s.mtime_sec, 8);
    put_le(&mut b, s.mtime_nsec, 8);
    put_le(&mut b, s.ctime_sec, 8);
    put_le(&mut b, s.ctime_nsec, 8);
    put_zeros(&mut b, 8);
    proof {
        broadcast use crate::bytes::lemma_le_len;

        assert(b@ =~= stat_bytes(*s));
    }
    b
}

/// Stores what was found out, or passes on why it was not.
pub open spec fn told(m: Map<int, u8>, at: usize, b: Result<Seq<u8>, i32>, r: SysResult, n: Map<int, u8>) -> bool {
    match b {
        Err(e) => r == err(e) && n == m,
        Ok(s) => if mapped(m, at as int, s.len() as int) {
            r == ok(0) && n == stored(m, at as int, s)
        } else {
            r == err(EFAULT) && n == m
        },
    }
}

fn tell(mem: &mut UserMem, at: usize, b: &Vec<u8>) -> (r: SysResult)
    ensures
        told(old(mem)@, at, Ok(b@), r, final(mem)@),
{
    match mem.copy_to_user(at, b) {
        Ok(_) => Ok(0),
        Err(e) => Err(e),
    }
}

/// Tells the attributes of a file.
pub fn sys_fstat(mem: &mut UserMem, st: Result<Stat, i32>, at: usize) -> (r: SysResult)
    ensures
        told(
            old(mem)@,
            at,
            match st {
                Ok(s) => Ok(stat_bytes(s)),
                Err(e) => Err(e),
            },
            r,
            final(mem)@,
        ),
{
    match st {
        Err(e) => Err(e),
        Ok(s) => {
            let b: Vec<u8> = stat_vec(&s);
            tell(mem, at, &b)
        },
    }
}

/// Tells the attributes of the node that a lookup found.
pub fn sys_fstatat(mem: &mut UserMem, st: Result<Stat, i32>, at: usize) -> (r: SysResult)
    ensures
        told(
            old(mem)@,
            at,
            match st {
                Ok(s) => Ok(stat_bytes(s)),
                Err(e) => Err(e),
            },
            r,
            final(mem)@,
        ),
{
    sys_fstat(mem, st, at)
}

pub open spec fn stamp(sec: u64, nsec: u32) -> Seq<u8> {
    le(sec as nat, 8) + le(nsec as nat, 4) + zeros(4)
}

/// The extended attributes, in 256 bytes.
pub open spec fn statx_bytes(s: Stat) -> Seq<u8> {
    le(0x7ff, 4) + le(s.blksize as nat, 4) + zeros(8) + le(s.nlink as nat, 4) + le(
        s.uid as nat,
        4,
    ) + le(s.gid as nat, 4) + le((s.mode as u16) as nat, 2) + zeros(2) + le(s.ino as nat, 8) + le(
        s.size as nat,
        8,
    ) + le(s.blocks as nat, 8) + zeros(8) + stamp(s.atime_sec, s.atime_nsec as u32) + stamp(
        s.ctime_sec,
        0,
    ) + stamp(s.ctime_sec, s.ctime_nsec as u32) + stamp(s.mtime_sec, s.mtime_nsec as u32) + le(
        ((s.rdev >> 8) as u32) as nat,
        4,
    ) + le(((s.rdev & 0xff) as u32) as nat, 4) + zeros(4) + le((s.dev as u32) as nat, 4) + le(1, 8)
        + zeros(104)
}

fn put_stamp(v: &mut Vec<u8>, sec: u64, nsec: u32)
    ensures
        final(v)@ == old(v)@ + stamp(sec, nsec),
{
    let ghost v0 = v@;
    put_le(v, sec, 8);
    put_le(v, nsec as u64, 4);
    put_zeros(v, 4);
    proof {
        assert(v@ =~= v0 + stamp(sec, nsec));
    }
}

/// Builds the extended attributes.
pub fn stat_to_statx(s: &Stat) -> (b: Vec<u8>)
    ensures
        b@ == statx_bytes(*s),
        b@.len() == 256,
{
    let mut b: Vec<u8> = Vec::new();
    put_le(&mut b, 0x7ff, 4);
    put_le(&mut b, s.blksize as u64, 4);
    put_zeros(&mut b, 8);
    put_le(&mut b, s.nlink as u64, 4);
    put_le(&mut b, s.uid as u64, 4);
    put_le(&mut b, s.gid as u64, 4);
    put_le(&mut b, (s.mode as u16) as u64, 2);
    put_zeros(&mut b, 2);
    put_le(&mut b, s.ino, 8);
    put_le(&mut b, s.size, 8);
    put_le(&mut b, s.blocks, 8);
    put_zeros(&mut b, 8);
    put_stamp(&mut b, s.atime_sec, s.atime_nsec as u32);
    put_stamp(&mut b, s.ctime_sec, 0);
    put_stamp(&mut b, s.ctime_sec, s.ctime_nsec as u32);
    put_stamp(&mut b, s.mtime_sec, s.mtime_nsec as u32);
    put_le(&mut b, ((s.rdev >> 8) as u32) as u64, 4);
    put_le(&mut b, ((s.rdev & 0xff) as u32) as u64, 4);
    put_zeros(&mut b, 4);
    put_le(&mut b, (s.dev as u32) as u64, 4);
    put_le(&mut b, 1, 8);
    put_zeros(&mut b, 104);
    proof {
        broadcast use crate::bytes::lemma_le_len;

        assert(b@ =~= statx_bytes(*s));
    }
    b
}

/// Tells the extended attributes.
pub fn sys_statx(mem: &mut UserMem, st: Result<Stat, i32>, at: usize) -> (r: SysResult)
    ensures
        told(
            old(mem)@,
            at,
            match st {
                Ok(s) => Ok(statx_bytes(s)),
                Err(e) => Err(e),
            },
            r,
            final(mem)@,
        ),
{
    match st {
        Err(e) => Err(e),
        Ok(s) => {
            let b: Vec<u8> = stat_to_statx(&s);
            tell(mem, at, &b)
        },
    }
}

/// The file system in memory, of which `used` bytes of `total` are in use.
pub open spec fn statfs_bytes(used: u64, total: u64) -> Seq<u8> {
    let free = ((total - used) / 4096) as nat;
    le(0x01021994, 8) + le(4096, 8) + le((total / 4096) as nat, 8) + le(free, 8) + le(free, 8) + le(
        0x10_0000,
        8,
    ) + le(0x8_0000, 8) + zeros(8) + le(255, 8) + le(4096, 8) + zeros(40)
}

fn statfs_val(used: u64, total: u64) -> (b: Vec<u8>)
    requires
        used <= total,
    ensures
        b@ == statfs_bytes(used, total),
        b@.len() == 120,
{
    let mut b: Vec<u8> = Vec::new();
    let free: u64 = (total - used) / 4096;
    put_le(&mut b, 0x01021994, 8);
    put_le(&mut b, 4096, 8);
    put_le(&mut b, total / 4096, 8);
    put_le(&mut b, free, 8);
    put_le(&mut b, free, 8);
    put_le(&mut b, 0x10_0000, 8);
    put_le(&mut b, 0x8_0000, 8);
    put_zeros(&mut b, 8);
    put_le(&mut b, 255, 8);
    put_le(&mut b, 4096, 8);
    put_zeros(&mut b, 40);
    proof {
        broadcast use crate::bytes::lemma_le_len;

        assert(b@ =~= statfs_bytes(used, total));
    }
    b
}

/// Tells about the file system of the path that a lookup found.
pub fn sys_statfs(mem: &mut UserMem, found: Result<usize, i32>, at: usize, used: u64, total: u64) -> (r:
    SysResult)
    requires
        used <= total,
    ensures
        told(
            old(mem)@,
            at,
            match found {
                Ok(_) => Ok(statfs_bytes(used, total)),
                Err(e) => Err(e),
            },
            r,
            final(mem)@,
        ),
{
    match found {
        Err(e) => Err(e),
        Ok(_) => {
            let b: Vec<u8> = statfs_val(used, total);
            tell(mem, at, &b)
        },
    }
}

/// Tells about the file system of an open file.
pub fn sys_fstatfs(c: &Ctx, mem: &mut UserMem, fd: i32, at: usize, used: u64, total: u64) -> (r: SysResult)
    requires
        c.wf(),
        used <= total,
    ensures
        told(
            old(mem)@,
            at,
            if c.is_open(fd) {
                Ok(statfs_bytes(used, total))
            } else {
                Err(EBADF)
            },
            r,
            final(mem)@,
        ),
{
    match get_file(c, fd) {
        Err(e) => Err(e),
        Ok(f) => sys_statfs(mem, Ok(f), at, used, total),
    }
}

/// Opens a file without a name.
pub fn sys_memfd_create(c: &mut Ctx, file: OpenFile, flags: u32) -> (r: SysResult)
    requires
        old(c).wf(),
        old(c).files@.len() + 1 < usize::MAX,
        file.node is Some ==> file.node->0 < old(c).nodes@.len(),
    ensures
        final(c).wf(),
        install_post(*old(c), file, flags & 1 != 0, r, *final(c)),
{
    install_fd(c, file, flags & 1 != 0)
}

/// Lists the entries of a directory from where it stands, as many as fit. Room
/// for not even one of them is an error. The file moves on only when the
/// entries could be stored.
#[verifier::loop_isolation(false)]
pub fn sys_getdents64(
    c: &mut Ctx,
    mem: &mut UserMem,
    entries: &Vec<Dirent>,
    fd: i32,
    buf: usize,
    len: usize,
) -> (r: SysResult)
    requires
        old(c).wf(),
        names_ok(entries@),
        old(c).is_open(fd) ==> old(c).file(fd).pos <= usize::MAX,
    ensures
        final(c).wf(),
        if !old(c).is_open(fd) {
            r == err(EBADF) && *final(c) == *old(c) && final(mem)@ == old(mem)@
        } else {
            let pos = old(c).file(fd).pos as int;
            let d = records(entries@, pos, len as int);
            if pos < entries@.len() && d.0.len() == 0 {
                r == err(EINVAL) && *final(c) == *old(c) && final(mem)@ == old(mem)@
            } else if !mapped(old(mem)@, buf as int, d.0.len() as int) {
                r == err(EFAULT) && *final(c) == *old(c) && final(mem)@ == old(mem)@
            } else {
                &&& r == ok(d.0.len() as int)
                &&& final(mem)@ == stored(old(mem)@, buf as int, d.0)
                &&& *final(c) == (Ctx { files: final(c).files, ..*old(c) })
                &&& final(c).files@ == with_pos(
                    old(c).files@,
                    old(c).file_no(fd),
                    d.1 as u64,
                )
            }
        },
{
    let f: usize = match get_file(c, fd) {
        Ok(f) => f,
        Err(e) => {
            return Err(e);
        },
    };
    let pos: usize = c.files[f].pos as usize;
    let ghost d = entries@;
    let ghost all = records(d, pos as int, len as int);
    let n: usize = entries.len();
    let mut v: Vec<u8> = Vec::new();
    let mut at: usize = pos;
    let mut more: bool = true;
    proof {
        assert(v@ + all.0 =~= all.0);
    }
    while at < n && more
        invariant
            pos <= at,
            at <= n || at == pos,
            n == d.len(),
            d == entries@,
            *c == *old(c),
            mem@ == old(mem)@,
            v@.len() <= len,
            at == pos ==> v@.len() == 0,
            at > pos ==> v@.len() > 0,
            more ==> v@ + records(d, at as int, len - v@.len()).0 == all.0,
            more ==> records(d, at as int, len - v@.len()).1 == all.1,
            !more ==> v@ == all.0 && at == all.1,
        decreases n - at, more as int,
    {
        let e: &Dirent = &entries[at];
        let reclen: usize = (e.name.len() + 27) / 8 * 8;
        proof {
            assert(d[at as int] == *e);
        }
        if reclen > len - v.len() {
            proof {
                assert(v@ + Seq::<u8>::empty() =~= v@);
            }
            more = false;
        } else {
            let ghost v0 = v@;
            put_record(&mut v, e, at as u64);
            proof {
                assert(v@ + records(d, at + 1, len - v@.len()).0 =~= v0 + (record(
                    d[at as int],
                    at as int,
                ) + records(d, at + 1, len - v@.len()).0));
            }
            at = at + 1;
        }
    }
    proof {
        assert(v@ + Seq::<u8>::empty() =~= v@);
        assert(v@ == all.0 && at == all.1);
    }
    if pos < n && v.len() == 0 {
        return Err(EINVAL);
    }
    match mem.copy_to_user(buf, &v) {
        Ok(_) => {},
        Err(e) => {
            return Err(e);
        },
    }
    set_pos(c, f, at as u64);
    Ok(v.len())
}

/// The attributes of a file are where Linux has them in 128 bytes.
pub proof fn attributes_read_back(m: Map<int, u8>, at: int, s: Stat)
    requires
        mapped(m, at, 128),
    ensures
        ({
            let t = stored(m, at, stat_bytes(s));
            &&& stat_bytes(s).len() == 128
            &&& num_at(t, at, 8) == s.dev && num_at(t, at + 8, 8) == s.ino
            &&& num_at(t, at + 16, 4) == s.mode && num_at(t, at + 20, 4) == s.nlink
            &&& num_at(t, at + 24, 4) == s.uid && num_at(t, at + 28, 4) == s.gid
            &&& num_at(t, at + 48, 8) == s.size && num_at(t, at + 56, 4) == s.blksize
            &&& num_at(t, at + 64, 8) == s.blocks
            &&& num_at(t, at + 72, 8) == s.atime_sec && num_at(t, at + 88, 8) == s.mtime_sec
            &&& num_at(t, at + 104, 8) == s.ctime_sec
        }),
{
    broadcast use crate::bytes::lemma_le_len;

    crate::bytes::lemma_span();
    let b = stat_bytes(s);
    assert(b.len() == 128);
    assert(b.subrange(0, 8) =~= le(s.dev as nat, 8));
    assert(b.subrange(8, 16) =~= le(s.ino as nat, 8));
    assert(b.subrange(16, 20) =~= le(s.mode as nat, 4));
    assert(b.subrange(20, 24) =~= le(s.nlink as nat, 4));
    assert(b.subrange(24, 28) =~= le(s.uid as nat, 4));
    assert(b.subrange(28, 32) =~= le(s.gid as nat, 4));
    assert(b.subrange(48, 56) =~= le(s.size as nat, 8));
    assert(b.subrange(56, 60) =~= le(s.blksize as nat, 4));
    assert(b.subrange(64, 72) =~= le(s.blocks as nat, 8));
    assert(b.subrange(72, 80) =~= le(s.atime_sec as nat, 8));
    assert(b.subrange(88, 96) =~= le(s.mtime_sec as nat, 8));
    assert(b.subrange(104, 112) =~= le(s.ctime_sec as nat, 8));
    stored_field(m, at, b, 0, s.dev as nat, 8);
    stored_field(m, at, b, 8, s.ino as nat, 8);
    stored_field(m, at, b, 16, s.mode as nat, 4);
    stored_field(m, at, b, 20, s.nlink as nat, 4);
    stored_field(m, at, b, 24, s.uid as nat, 4);
    stored_field(m, at, b, 28, s.gid as nat, 4);
    stored_field(m, at, b, 48, s.size as nat, 8);
    stored_field(m, at, b, 56, s.blksize as nat, 4);
    stored_field(m, at, b, 64, s.blocks as nat, 8);
    stored_field(m, at, b, 72, s.atime_sec as nat, 8);
    stored_field(m, at, b, 88, s.mtime_sec as nat, 8);
    stored_field(m, at, b, 104, s.ctime_sec as nat, 8);
}

/// The extended attributes have the owner, the mode, the number of the file and its
/// size where Linux has them.
pub proof fn extended_attributes_read_back(m: Map<int, u8>, at: int, s: Stat)
    requires
        mapped(m, at, 256),
    ensures
        ({
            let t = stored(m, at, statx_bytes(s));
            &&& statx_bytes(s).len() == 256
            &&& num_at(t, at + 4, 4) == s.blksize && num_at(t, at + 16, 4) == s.nlink
            &&& num_at(t, at + 20, 4) == s.uid && num_at(t, at + 24, 4) == s.gid
            &&& num_at(t, at + 28, 2) == s.mode as u16
            &&& num_at(t, at + 32, 8) == s.ino && num_at(t, at + 40, 8) == s.size
            &&& num_at(t, at + 48, 8) == s.blocks
            &&& num_at(t, at + 64, 8) == s.atime_sec && num_at(t, at + 112, 8) == s.mtime_sec
        }),
{
    broadcast use crate::bytes::lemma_le_len;

    crate::bytes::lemma_span();
    let b = statx_bytes(s);
    assert(b.len() == 256);
    assert(b.subrange(4, 8) =~= le(s.blksize as nat, 4));
    assert(b.subrange(16, 20) =~= le(s.nlink as nat, 4));
    assert(b.subrange(20, 24) =~= le(s.uid as nat, 4));
    assert(b.subrange(24, 28) =~= le(s.gid as nat, 4));
    assert(b.subrange(28, 30) =~= le((s.mode as u16) as nat, 2));
    assert(b.subrange(32, 40) =~= le(s.ino as nat, 8));
    assert(b.subrange(40, 48) =~= le(s.size as nat, 8));
    assert(b.subrange(48, 56) =~= le(s.blocks as nat, 8));
    assert(b.subrange(64, 72) =~= le(s.atime_sec as nat, 8));
    assert(b.subrange(112, 120) =~= le(s.mtime_sec as nat, 8));
    stored_field(m, at, b, 4, s.blksize as nat, 4);
    stored_field(m, at, b, 16, s.nlink as nat, 4);
    stored_field(m, at, b, 20, s.uid as nat, 4);
    stored_field(m, at, b, 24, s.gid as nat, 4);
    stored_field(m, at, b, 28, (s.mode as u16) as nat, 2);
    stored_field(m, at, b, 32, s.ino as nat, 8);
    stored_field(m, at, b, 40, s.size as nat, 8);
    stored_field(m, at, b, 48, s.blocks as nat, 8);
    stored_field(m, at, b, 64, s.atime_sec as nat, 8);
    stored_field(m, at, b, 112, s.mtime_sec as nat, 8);
}

} // verus!
