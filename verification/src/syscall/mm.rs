//! System calls about memory: what is asked of the address space, and what is
//! refused.

use vstd::prelude::*;
use crate::abi::{
    MAP_ANONYMOUS, MAP_FIXED, MAP_FIXED_NOREPLACE, MAP_SHARED, MREMAP_FIXED, MREMAP_MAYMOVE,
    PROT_EXEC, PROT_READ, PROT_WRITE,
};
use crate::errno::{SysResult, EACCES, EBADF, EEXIST, EFAULT, EINVAL, ENODEV, ENOMEM};
use crate::file::{open_fd, FdTable, OpenFile};
use crate::uaccess::{bytes_at, mapped, stored, UserMem};

verus! {

pub const PAGE_SIZE: usize = 4096;

/// Access rights.
#[derive(Clone, Copy, PartialEq, Eq, Structural, Debug)]
pub struct Prot {
    pub r: bool,
    pub w: bool,
    pub x: bool,
}

pub open spec fn prot_spec(prot: u32) -> Prot {
    Prot { r: prot & PROT_READ != 0, w: prot & PROT_WRITE != 0, x: prot & PROT_EXEC != 0 }
}

pub fn prot_from(prot: u32) -> (r: Prot)
    ensures
        r == prot_spec(prot),
{
    Prot { r: prot & PROT_READ != 0, w: prot & PROT_WRITE != 0, x: prot & PROT_EXEC != 0 }
}

/// The first page boundary at or above `a`.
pub open spec fn page_up(a: int) -> int {
    (a + 4095) / 4096 * 4096
}

/// Where the program break is, and what a request for one means: 0 asks, any
/// other address is what the break is to be moved to.
pub fn sys_brk(brk: usize, addr: usize) -> (r: Result<usize, usize>)
    ensures
        r == (if addr == 0 {
            Ok::<usize, usize>(brk)
        } else {
            Err::<usize, usize>(addr)
        }),
{
    if addr == 0 {
        Ok(brk)
    } else {
        Err(addr)
    }
}

/// A mapping that the address space is to make.
#[derive(Clone, Copy, PartialEq, Eq, Structural, Debug)]
pub struct MapRequest {
    pub addr: usize,
    pub len: usize,
    pub prot: Prot,
    pub shared: bool,
    pub fixed: bool,
    /// The file that is mapped, with the offset in it.
    pub file: Option<usize>,
    pub off: u64,
}

/// The file behind a mapping: none for anonymous memory, and a file that can be
/// read at any place otherwise.
pub open spec fn map_file(fds: FdTable, files: Seq<OpenFile>, flags: u32, fd: i32) -> Result<
    Option<usize>,
    i32,
> {
    if flags & MAP_ANONYMOUS != 0 {
        Ok(None)
    } else if !open_fd(fds.entries@, fd as int) {
        Err(EBADF)
    } else {
        let f = fds.entries@[fd as int]->0.file;
        if !files[f as int].seekable {
            Err(ENODEV)
        } else if files[f as int].flags & 3 == 1 {
            Err(EACCES)
        } else {
            Ok(Some(f))
        }
    }
}

/// Why a mapping is refused before anything else is looked at.
pub open spec fn map_invalid(addr: usize, len: usize, flags: u32, off: u64) -> bool {
    len == 0 || (addr % PAGE_SIZE != 0 && flags & MAP_FIXED != 0) || off % 4096 != 0
}

pub open spec fn map_plan(
    fds: FdTable,
    files: Seq<OpenFile>,
    addr: usize,
    len: usize,
    prot: u32,
    flags: u32,
    fd: i32,
    off: u64,
    free: bool,
) -> Result<MapRequest, i32> {
    if map_invalid(addr, len, flags, off) {
        Err(EINVAL)
    } else {
        match map_file(fds, files, flags, fd) {
            Err(e) => Err(e),
            Ok(file) => if flags & MAP_FIXED_NOREPLACE != 0 && !free {
                Err(EEXIST)
            } else if flags & MAP_FIXED_NOREPLACE != 0 && addr % PAGE_SIZE != 0 {
                Err(EINVAL)
            } else {
                Ok(
                    MapRequest {
                        addr,
                        len,
                        prot: prot_spec(prot),
                        shared: flags & MAP_SHARED != 0 && file is None,
                        fixed: flags & MAP_FIXED != 0 || flags & MAP_FIXED_NOREPLACE != 0,
                        file,
                        off: if file is None {
                            0
                        } else {
                            off
                        },
                    },
                )
            },
        }
    }
}

/// Every descriptor refers to a file of the list.
pub open spec fn files_ok(fds: FdTable, files: Seq<OpenFile>) -> bool {
    forall|fd: int|
        open_fd(fds.entries@, fd) ==> (#[trigger] fds.entries@[fd])->0.file < files.len()
}

/// The mapping that a request comes to. `free` is whether nothing is mapped in
/// its range, which matters for one that must not replace anything. Shared
/// mappings of files are private.
pub fn sys_mmap(
    fds: &FdTable,
    files: &Vec<OpenFile>,
    addr: usize,
    len: usize,
    prot: u32,
    flags: u32,
    fd: i32,
    off: u64,
    free: bool,
) -> (r: Result<MapRequest, i32>)
    requires
        files_ok(*fds, files@),
    ensures
        r == map_plan(*fds, files@, addr, len, prot, flags, fd, off, free),
{
    if len == 0 {
        return Err(EINVAL);
    }
    if addr % PAGE_SIZE != 0 && flags & MAP_FIXED != 0 {
        return Err(EINVAL);
    }
    if off % 4096 != 0 {
        return Err(EINVAL);
    }
    let file: Option<usize> = if flags & MAP_ANONYMOUS != 0 {
        None
    } else {
        let f: usize = match fds.get(fd) {
            Ok(f) => f,
            Err(e) => {
                return Err(e);
            },
        };
        if !files[f].seekable {
            return Err(ENODEV);
        }
        if files[f].flags & 3 == 1 {
            return Err(EACCES);
        }
        Some(f)
    };
    if flags & MAP_FIXED_NOREPLACE != 0 {
        if !free {
            return Err(EEXIST);
        }
        if addr % PAGE_SIZE != 0 {
            return Err(EINVAL);
        }
    }
    Ok(
        MapRequest {
            addr,
            len,
            prot: prot_from(prot),
            shared: flags & MAP_SHARED != 0 && file.is_none(),
            fixed: flags & MAP_FIXED != 0 || flags & MAP_FIXED_NOREPLACE != 0,
            file,
            off: if file.is_none() {
                0
            } else {
                off
            },
        },
    )
}

/// Whether the range is to be unmapped, or the error.
pub fn sys_munmap(addr: usize, len: usize) -> (r: Result<(), i32>)
    ensures
        r == (if addr % PAGE_SIZE != 0 || len == 0 {
            Err::<(), i32>(EINVAL)
        } else {
            Ok::<(), i32>(())
        }),
{
    if addr % PAGE_SIZE != 0 || len == 0 {
        return Err(EINVAL);
    }
    Ok(())
}

/// The rights that the range is to get; `None` where nothing is to be done.
pub fn sys_mprotect(addr: usize, len: usize, prot: u32) -> (r: Result<Option<Prot>, i32>)
    ensures
        r == (if addr % PAGE_SIZE != 0 {
            Err::<Option<Prot>, i32>(EINVAL)
        } else if len == 0 {
            Ok::<Option<Prot>, i32>(None)
        } else {
            Ok::<Option<Prot>, i32>(Some(prot_spec(prot)))
        }),
{
    if addr % PAGE_SIZE != 0 {
        return Err(EINVAL);
    }
    if len == 0 {
        return Ok(None);
    }
    Ok(Some(prot_from(prot)))
}

/// Advice is taken and not followed.
pub fn sys_madvise(addr: usize, len: usize, advice: i32) -> (r: SysResult)
    ensures
        r == Ok::<usize, i32>(0),
{
    Ok(0)
}

/// A mapped range.
#[derive(Clone, Copy, PartialEq, Eq, Structural, Debug)]
pub struct Vma {
    pub start: usize,
    pub end: usize,
    pub prot: Prot,
    pub shared: bool,
}

/// How a mapping changes its size.
#[derive(Clone, Copy, PartialEq, Eq, Structural, Debug)]
pub enum Remap {
    /// It stays where it is, and the given tail is unmapped.
    Shrink { addr: usize, cut: usize, cut_len: usize },
    /// It stays as it is.
    Keep { addr: usize },
    /// It was made longer in place.
    Grown { addr: usize },
    /// A new mapping is made at `dst`, the old pages are copied, and the old
    /// range is unmapped.
    Move { dst: usize, old_len: usize, new_len: usize, prot: Prot, shared: bool },
}

/// Whether it is worth trying to make the mapping longer in place.
pub open spec fn try_in_place(vma: Vma, addr: usize, old_len: int, new_len: int, flags: u32) -> bool {
    new_len > old_len && flags & MREMAP_FIXED == 0 && vma.end == addr + old_len
}

pub open spec fn remap_plan(
    vma: Option<Vma>,
    addr: usize,
    old_len: usize,
    new_len: usize,
    flags: u32,
    new_addr: usize,
    extended: bool,
    free_at: Option<usize>,
) -> Result<Remap, i32> {
    let o = page_up(old_len as int) as usize;
    let n = page_up(new_len as int) as usize;
    if addr % PAGE_SIZE != 0 {
        Err(EINVAL)
    } else if vma is None || vma->0.end < addr + o {
        Err(EFAULT)
    } else if n < o {
        Ok(Remap::Shrink { addr, cut: (addr + n) as usize, cut_len: (o - n) as usize })
    } else if n == o {
        Ok(Remap::Keep { addr })
    } else if try_in_place(vma->0, addr, o as int, n as int, flags) && extended {
        Ok(Remap::Grown { addr })
    } else if flags & MREMAP_MAYMOVE == 0 {
        Err(ENOMEM)
    } else if flags & MREMAP_FIXED == 0 && free_at is None {
        Err(ENOMEM)
    } else {
        Ok(
            Remap::Move {
                dst: if flags & MREMAP_FIXED != 0 {
                    new_addr
                } else {
                    free_at->0
                },
                old_len: o,
                new_len: n,
                prot: vma->0.prot,
                shared: vma->0.shared,
            },
        )
    }
}

/// Changes the size of a mapping. `vma` is the range that holds `addr`;
/// `extended` is whether it could be made longer in place, and `free_at` where
/// a range of the new length is free.
pub fn sys_mremap(
    vma: Option<Vma>,
    addr: usize,
    old_len: usize,
    new_len: usize,
    flags: u32,
    new_addr: usize,
    extended: bool,
    free_at: Option<usize>,
) -> (r: Result<Remap, i32>)
    requires
        old_len <= usize::MAX - 4095,
        new_len <= usize::MAX - 4095,
        addr + page_up(old_len as int) <= usize::MAX,
    ensures
        r == remap_plan(vma, addr, old_len, new_len, flags, new_addr, extended, free_at),
{
    if addr % PAGE_SIZE != 0 {
        return Err(EINVAL);
    }
    let o: usize = (old_len + 4095) / 4096 * 4096;
    let n: usize = (new_len + 4095) / 4096 * 4096;
    let v: Vma = match vma {
        Some(v) => v,
        None => {
            return Err(EFAULT);
        },
    };
    if v.end < addr + o {
        return Err(EFAULT);
    }
    if n <= o {
        if n < o {
            return Ok(Remap::Shrink { addr, cut: addr + n, cut_len: o - n });
        }
        return Ok(Remap::Keep { addr });
    }
    if flags & MREMAP_FIXED == 0 && v.end == addr + o && extended {
        return Ok(Remap::Grown { addr });
    }
    if flags & MREMAP_MAYMOVE == 0 {
        return Err(ENOMEM);
    }
    let dst: usize = if flags & MREMAP_FIXED != 0 {
        new_addr
    } else {
        match free_at {
            Some(a) => a,
            None => {
                return Err(ENOMEM);
            },
        }
    };
    Ok(Remap::Move { dst, old_len: o, new_len: n, prot: v.prot, shared: v.shared })
}

/// Memory after the first `n` pages at `from` were copied to `to`, page by
/// page; a page that cannot be read is passed over.
pub open spec fn pages_copied(m: Map<int, u8>, from: int, to: int, n: nat) -> Map<int, u8>
    decreases n,
{
    if n == 0 {
        m
    } else {
        let k = n - 1;
        let t = pages_copied(m, from, to, k as nat);
        if mapped(t, from + 4096 * k, 4096) {
            stored(t, to + 4096 * k, bytes_at(t, from + 4096 * k, 4096))
        } else {
            t
        }
    }
}

/// The page that is copied as number `k` has somewhere to go.
pub open spec fn page_goes(m: Map<int, u8>, from: int, to: int, k: int) -> bool {
    mapped(m, from + 4096 * k, 4096) ==> mapped(m, to + 4096 * k, 4096)
}

/// Copies the pages of a mapping that moves. An error where a page has nowhere
/// to go; the pages before it are copied.
pub fn copy_pages(mem: &mut UserMem, from: usize, to: usize, len: usize) -> (r: Result<(), i32>)
    requires
        len % PAGE_SIZE == 0,
        from + len <= usize::MAX,
        to + len <= usize::MAX,
    ensures
        match r {
            Ok(_) => final(mem)@ == pages_copied(
                old(mem)@,
                from as int,
                to as int,
                (len / PAGE_SIZE) as nat,
            ),
            Err(e) => e == EFAULT && exists|k: int|
                0 <= k < len / PAGE_SIZE && !#[trigger] page_goes(
                    pages_copied(old(mem)@, from as int, to as int, k as nat),
                    from as int,
                    to as int,
                    k,
                ) && final(mem)@ == pages_copied(old(mem)@, from as int, to as int, k as nat),
        },
{
    let ghost m = mem@;
    let n: usize = len / PAGE_SIZE;
    let mut k: usize = 0;
    while k < n
        invariant
            k <= n == len / PAGE_SIZE,
            from + len <= usize::MAX,
            to + len <= usize::MAX,
            m == old(mem)@,
            mem@ == pages_copied(m, from as int, to as int, k as nat),
        decreases n - k,
    {
        let off: usize = k * PAGE_SIZE;
        match mem.copy_from_user(from + off, PAGE_SIZE) {
            Ok(v) => match mem.copy_to_user(to + off, &v) {
                Ok(_) => {},
                Err(e) => {
                    let ghost ki: int = k as int;
                    assert(!page_goes(
                        pages_copied(old(mem)@, from as int, to as int, ki as nat),
                        from as int,
                        to as int,
                        ki,
                    ));
                    return Err(e);
                },
            },
            Err(_) => {},
        }
        k = k + 1;
    }
    Ok(())
}

/// A mapping has the rights that were asked for, each if and only if its bit is set.
pub proof fn rights_are_those_asked(prot: u32)
    ensures
        prot_spec(prot).r <==> prot & 1 != 0,
        prot_spec(prot).w <==> prot & 2 != 0,
        prot_spec(prot).x <==> prot & 4 != 0,
{
}

/// A request for memory is passed on as it was made: place, length and rights, a
/// file only without the flag for anonymous memory (bit 5), a fixed place with
/// either of its flags (bits 4 and 20). An empty one, and an offset or a fixed
/// place that is no page boundary, are refused.
pub proof fn request_is_passed_on(
    fds: FdTable,
    files: Seq<OpenFile>,
    addr: usize,
    len: usize,
    prot: u32,
    flags: u32,
    fd: i32,
    off: u64,
    free: bool,
)
    ensures
        ({
            let r = map_plan(fds, files, addr, len, prot, flags, fd, off, free);
            &&& len == 0 || off % 4096 != 0 || (flags & 0x10 != 0 && addr % 4096 != 0) ==> r is Err
            &&& r is Ok ==> {
                let q = r->Ok_0;
                &&& q.addr == addr && q.len == len
                &&& q.prot.r == (prot & 1 != 0) && q.prot.w == (prot & 2 != 0) && q.prot.x == (prot & 4
                    != 0)
                &&& q.file is None <==> flags & 0x20 != 0
                &&& q.file is Some ==> open_fd(fds.entries@, fd as int) && q.file->0
                    == fds.entries@[fd as int]->0.file && q.off == off && !q.shared
                &&& q.file is None ==> q.shared == (flags & 1 != 0) && q.off == 0
                &&& q.fixed <==> flags & 0x10 != 0 || flags & 0x10_0000 != 0
                &&& q.fixed ==> addr % 4096 == 0
                &&& flags & 0x10_0000 != 0 ==> free
            }
            &&& flags & 0x20 != 0 && flags & 0x10_0000 == 0 && flags & 0x10 == 0 && len > 0 && off
                % 4096 == 0 ==> r is Ok
        }),
{
}

/// Changing the size of a mapping loses none of it: one that shrinks loses just what
/// is beyond the new length; one that stays or grows in place keeps its address;
/// one that moves takes all its pages, with its rights, to a place for the new
/// length, and only where it may move.
pub proof fn resizing_loses_nothing(
    v: Vma,
    addr: usize,
    old_len: usize,
    new_len: usize,
    flags: u32,
    new_addr: usize,
    extended: bool,
    free_at: Option<usize>,
)
    requires
        old_len <= usize::MAX - 4095,
        new_len <= usize::MAX - 4095,
        addr + page_up(old_len as int) <= usize::MAX,
    ensures
        ({
            let r = remap_plan(Some(v), addr, old_len, new_len, flags, new_addr, extended, free_at);
            &&& r matches Ok(Remap::Shrink { addr: a, cut, cut_len }) ==> a == addr && addr + new_len
                <= cut < addr + new_len + 4096 && cut + cut_len == addr + page_up(old_len as int)
                && cut_len > 0
            &&& r matches Ok(Remap::Keep { addr: a }) ==> a == addr
            &&& r matches Ok(Remap::Grown { addr: a }) ==> a == addr && extended && v.end == addr
                + page_up(old_len as int)
            &&& r matches Ok(Remap::Move { dst, old_len: o, new_len: n, prot, shared }) ==> {
                &&& o >= old_len && n >= new_len && n > o && o % 4096 == 0 && n % 4096 == 0
                &&& prot == v.prot && shared == v.shared
                &&& flags & 1 != 0
                &&& flags & 2 != 0 ==> dst == new_addr
                &&& flags & 2 == 0 ==> free_at == Some(dst)
            }
            &&& addr % 4096 != 0 ==> r is Err
        }),
{
}

/// Pages that are copied arrive: where the two ranges share no byte, each page that
/// could be read is found at its new place, and everything outside of that is left
/// alone.
pub proof fn copied_pages_arrive(m: Map<int, u8>, from: int, to: int, n: nat, k: int, x: int)
    requires
        0 <= k < n,
        from + 4096 * n <= to || to + 4096 * n <= from,
        mapped(m, from + 4096 * k, 4096),
        mapped(m, to + 4096 * k, 4096),
    ensures
        bytes_at(pages_copied(m, from, to, n), to + 4096 * k, 4096) == bytes_at(
            m,
            from + 4096 * k,
            4096,
        ),
        pages_copied(m, from, to, n).dom() == m.dom(),
        m.dom().contains(x) && !(to <= x < to + 4096 * n) ==> pages_copied(m, from, to, n)[x] == m[x],
    decreases n,
{
    let j = n - 1;
    let t = pages_copied(m, from, to, j as nat);
    let u = pages_copied(m, from, to, n);
    assert forall|a: int| m.dom().contains(a) && !(to <= a < to + 4096 * j) implies #[trigger] t[a]
        == m[a] by {
        lemma_copied_frame(m, from, to, j as nat, a);
    }
    lemma_copied_frame(m, from, to, j as nat, x);
    lemma_copied_frame(m, from, to, n, x);
    let old = bytes_at(m, from + 4096 * k, 4096);
    let new = bytes_at(u, to + 4096 * k, 4096);
    if k < j {
        copied_pages_arrive(m, from, to, j as nat, k, x);
        assert forall|i: int| 0 <= i < 4096 implies new[i] == old[i] by {
            let a = to + 4096 * k + i;
            assert(m.dom().contains(a));
            assert(t.dom().contains(a));
            assert(bytes_at(t, to + 4096 * k, 4096)[i] == old[i]);
        }
    } else {
        assert(mapped(t, from + 4096 * k, 4096)) by {
            assert forall|a: int|
                from + 4096 * k <= a < from + 4096 * k + 4096 implies #[trigger] t.dom().contains(
                a,
            ) by {
                assert(m.dom().contains(a));
            }
        }
        assert forall|i: int| 0 <= i < 4096 implies new[i] == old[i] by {
            let a = to + 4096 * k + i;
            let b = from + 4096 * k + i;
            assert(m.dom().contains(a) && m.dom().contains(b));
            assert(t[b] == m[b]);
            assert(t.dom().contains(a));
        }
    }
    assert(new =~= old);
}

proof fn lemma_copied_frame(m: Map<int, u8>, from: int, to: int, n: nat, x: int)
    ensures
        pages_copied(m, from, to, n).dom() == m.dom(),
        m.dom().contains(x) && !(to <= x < to + 4096 * n) ==> pages_copied(m, from, to, n)[x] == m[x],
    decreases n,
{
    if n > 0 {
        let k = n - 1;
        let t = pages_copied(m, from, to, k as nat);
        lemma_copied_frame(m, from, to, k as nat, x);
        let s = stored(t, to + 4096 * k, bytes_at(t, from + 4096 * k, 4096));
        assert(s.dom() =~= t.dom());
    }
}

} // verus!
