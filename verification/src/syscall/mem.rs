//! Memory calls of the configuration whose mappings grow down from a fixed
//! address. Results are negative error numbers.

use vstd::prelude::*;
use crate::uaccess::{bytes_at, mapped, stored, UserMem};

verus! {

pub const PAGE: usize = 4096;
pub const PROT_NONE: usize = 0;
pub const PROT_READ: usize = 1;
pub const PROT_WRITE: usize = 2;
pub const PROT_EXEC: usize = 4;
pub const MAP_FIXED: usize = 0x10;
pub const MAP_ANONYMOUS: usize = 0x20;
pub const E_BADF: isize = -9;
pub const E_NOMEM: isize = -12;
pub const E_FAULT: isize = -14;
pub const E_INVAL: isize = -22;

/// The address space as these calls see it.
#[derive(Clone, Copy, PartialEq, Eq, Structural, Debug)]
pub struct Mm {
    /// Where the mapping that was made last starts.
    pub mmap_next: usize,
    pub brk: usize,
    pub brk_start: usize,
    /// Where mappings start to grow down from.
    pub mmap_base: usize,
    /// End of the user addresses.
    pub user_limit: usize,
}

/// What a call asks of the page tables.
#[derive(Clone, Copy, PartialEq, Eq, Structural, Debug)]
pub enum MemOp {
    Nothing,
    MapAnon { start: usize, end: usize, prot: usize },
    MapFile { start: usize, end: usize, prot: usize, file: usize, offset: usize },
    Unmap { start: usize, end: usize },
    Protect { start: usize, end: usize, prot: usize },
    /// Map `[start, end)`, copy the first `copy` bytes of the old range there, and
    /// unmap the old range.
    Relocate { start: usize, end: usize, prot: usize, copy: usize, old: usize, old_end: usize },
}

pub open spec fn page_up(a: int) -> int {
    (a + 4095) / 4096 * 4096
}

/// The rights of a request: its low three bits.
pub open spec fn prot_of(prot: usize) -> usize {
    (if prot & 1 != 0 {
        PROT_READ
    } else {
        0
    }) | (if prot & 2 != 0 {
        PROT_WRITE
    } else {
        0
    }) | (if prot & 4 != 0 {
        PROT_EXEC
    } else {
        0
    })
}

fn flags_to_prot(prot: usize) -> (p: usize)
    ensures
        p == prot_of(prot),
{
    let r: usize = if prot & 1 != 0 {
        PROT_READ
    } else {
        PROT_NONE
    };
    let w: usize = if prot & 2 != 0 {
        PROT_WRITE
    } else {
        PROT_NONE
    };
    let x: usize = if prot & 4 != 0 {
        PROT_EXEC
    } else {
        PROT_NONE
    };
    r | w | x
}

/// What a descriptor stands for, where a mapping is concerned.
#[derive(Clone, Copy, PartialEq, Eq, Structural, Debug)]
pub enum Mappable {
    /// The descriptor is not open.
    Closed,
    /// It is open on something that is no file.
    Other,
    File(usize),
}

/// Where the mapping goes.
pub open spec fn place(mm: Mm, addr: usize, len: int, flags: usize) -> int {
    if flags & MAP_FIXED == 0 {
        mm.mmap_next - len
    } else {
        addr as int
    }
}

pub open spec fn mmap_post(
    mm: Mm,
    addr: usize,
    len0: usize,
    prot: usize,
    flags: usize,
    what: Mappable,
    offset: usize,
    r: (isize, MemOp),
    mm1: Mm,
) -> bool {
    let len = page_up(len0 as int);
    let start = place(mm, addr, len, flags);
    let moved = Mm { mmap_next: start as usize, ..mm };
    if len0 == 0 {
        r == (E_INVAL, MemOp::Nothing) && mm1 == mm
    } else if flags & MAP_FIXED == 0 && start < mm.mmap_base / 2 {
        r == (E_NOMEM, MemOp::Nothing) && mm1 == moved
    } else {
        &&& mm1 == (if flags & MAP_FIXED == 0 {
            moved
        } else {
            mm
        })
        &&& if start + len > mm.user_limit || start % 4096 != 0 {
            r == (E_INVAL, MemOp::Nothing)
        } else if flags & MAP_ANONYMOUS != 0 {
            r == (
                (start as usize) as isize,
                MemOp::MapAnon {
                    start: start as usize,
                    end: (start + len) as usize,
                    prot: prot_of(prot),
                },
            )
        } else {
            match what {
                Mappable::Closed => r == (E_BADF, MemOp::Nothing),
                Mappable::Other => r == (E_INVAL, MemOp::Nothing),
                Mappable::File(file) => r == (
                    (start as usize) as isize,
                    MemOp::MapFile {
                        start: start as usize,
                        end: (start + len) as usize,
                        prot: prot_of(prot),
                        file,
                        offset,
                    },
                ),
            }
        }
    }
}

/// Maps memory or a file; without a fixed address below the last mapping.
pub fn sys_mmap(
    mm: &mut Mm,
    addr: usize,
    len: usize,
    prot: usize,
    flags: usize,
    what: Mappable,
    offset: usize,
) -> (r: (isize, MemOp))
    requires
        len <= usize::MAX - 4095,
        flags & MAP_FIXED == 0 ==> page_up(len as int) <= old(mm).mmap_next,
        flags & MAP_FIXED != 0 ==> addr + page_up(len as int) <= usize::MAX,
    ensures
        mmap_post(*old(mm), addr, len, prot, flags, what, offset, r, *final(mm)),
{
    if len == 0 {
        return (E_INVAL, MemOp::Nothing);
    }
    let len: usize = (len + 4095) / 4096 * 4096;
    let start: usize = if flags & MAP_FIXED == 0 {
        let s: usize = mm.mmap_next - len;
        mm.mmap_next = s;
        if s < mm.mmap_base / 2 {
            return (E_NOMEM, MemOp::Nothing);
        }
        s
    } else {
        addr
    };
    if start + len > mm.user_limit || start % PAGE != 0 {
        return (E_INVAL, MemOp::Nothing);
    }
    let p: usize = flags_to_prot(prot);
    if flags & MAP_ANONYMOUS != 0 {
        (start as isize, MemOp::MapAnon { start, end: start + len, prot: p })
    } else {
        match what {
            Mappable::Closed => (E_BADF, MemOp::Nothing),
            Mappable::Other => (E_INVAL, MemOp::Nothing),
            Mappable::File(file) => (
                start as isize,
                MemOp::MapFile { start, end: start + len, prot: p, file, offset },
            ),
        }
    }
}

pub fn sys_munmap(addr: usize, len: usize) -> (r: (isize, MemOp))
    requires
        len <= usize::MAX - 4095,
        addr + page_up(len as int) <= usize::MAX,
    ensures
        r == (if len == 0 || addr % PAGE != 0 {
            (E_INVAL, MemOp::Nothing)
        } else {
            (
                0isize,
                MemOp::Unmap { start: addr, end: (addr + page_up(len as int)) as usize },
            )
        }),
{
    if len == 0 || addr % PAGE != 0 {
        return (E_INVAL, MemOp::Nothing);
    }
    let len: usize = (len + 4095) / 4096 * 4096;
    (0, MemOp::Unmap { start: addr, end: addr + len })
}

pub fn sys_mprotect(addr: usize, len: usize, prot: usize) -> (r: (isize, MemOp))
    requires
        len <= usize::MAX - 4095,
        addr + page_up(len as int) <= usize::MAX,
    ensures
        r == (if len == 0 || addr % PAGE != 0 {
            (E_INVAL, MemOp::Nothing)
        } else {
            (
                0isize,
                MemOp::Protect {
                    start: addr,
                    end: (addr + page_up(len as int)) as usize,
                    prot: prot_of(prot),
                },
            )
        }),
{
    if len == 0 || addr % PAGE != 0 {
        return (E_INVAL, MemOp::Nothing);
    }
    let len: usize = (len + 4095) / 4096 * 4096;
    (0, MemOp::Protect { start: addr, end: addr + len, prot: flags_to_prot(prot) })
}

/// The break after a request for one, and the pages that come or go.
pub open spec fn brk_plan(mm: Mm, new_brk: usize) -> (usize, MemOp) {
    let n = page_up(new_brk as int);
    let start = page_up(mm.brk as int);
    if new_brk == 0 || n < mm.brk_start || n > mm.mmap_base {
        (mm.brk, MemOp::Nothing)
    } else if n > mm.brk {
        (
            n as usize,
            if n > start {
                MemOp::MapAnon {
                    start: start as usize,
                    end: n as usize,
                    prot: PROT_READ | PROT_WRITE,
                }
            } else {
                MemOp::Nothing
            },
        )
    } else if n < mm.brk {
        (n as usize, MemOp::Unmap { start: n as usize, end: mm.brk })
    } else {
        (n as usize, MemOp::Nothing)
    }
}

/// Moves the program break; a request that is out of range leaves it.
pub fn sys_brk(mm: &mut Mm, new_brk: usize) -> (r: (isize, MemOp))
    requires
        new_brk <= usize::MAX - 4095,
        old(mm).brk <= usize::MAX - 4095,
    ensures
        ({
            let (brk, op) = brk_plan(*old(mm), new_brk);
            r == (brk as isize, op) && *final(mm) == (Mm { brk, ..*old(mm) })
        }),
{
    if new_brk == 0 {
        return (mm.brk as isize, MemOp::Nothing);
    }
    let n: usize = (new_brk + 4095) / 4096 * 4096;
    if n < mm.brk_start || n > mm.mmap_base {
        return (mm.brk as isize, MemOp::Nothing);
    }
    let old_brk: usize = mm.brk;
    let mut op: MemOp = MemOp::Nothing;
    if n > old_brk {
        let start: usize = (old_brk + 4095) / 4096 * 4096;
        if n > start {
            op = MemOp::MapAnon { start, end: n, prot: PROT_READ | PROT_WRITE };
        }
    } else if n < old_brk {
        op = MemOp::Unmap { start: n, end: old_brk };
    }
    mm.brk = n;
    (n as isize, op)
}

pub open spec fn mremap_post(
    a: Mm,
    vma: Option<(usize, usize)>,
    addr: usize,
    old_len: usize,
    new_len: usize,
    r: (isize, MemOp),
    b: Mm,
) -> bool {
    match vma {
        None => r == (E_FAULT, MemOp::Nothing) && b == a,
        Some((start, prot)) => if addr != start {
            r == (E_INVAL, MemOp::Nothing) && b == a
        } else if new_len <= old_len {
            r == (addr as isize, MemOp::Nothing) && b == a
        } else {
            let at = (a.mmap_next - page_up(new_len as int)) as usize;
            &&& b == (Mm { mmap_next: at, ..a })
            &&& r == (
                at as isize,
                MemOp::Relocate {
                    start: at,
                    end: a.mmap_next,
                    prot,
                    copy: old_len,
                    old: addr,
                    old_end: (addr + page_up(old_len as int)) as usize,
                },
            )
        },
    }
}

/// Makes a mapping longer by moving it. `vma` is the start and the rights of
/// the range that holds `addr`. A shorter one stays as it is. The first
/// `old_len` bytes move along; `copy_moved` copies them.
pub fn sys_mremap(
    mm: &mut Mm,
    vma: Option<(usize, usize)>,
    addr: usize,
    old_len: usize,
    new_len: usize,
) -> (r: (isize, MemOp))
    requires
        new_len <= usize::MAX - 4095,
        page_up(new_len as int) <= old(mm).mmap_next,
        old_len <= usize::MAX - 4095,
        addr + page_up(old_len as int) <= usize::MAX,
    ensures
        mremap_post(*old(mm), vma, addr, old_len, new_len, r, *final(mm)),
{
    match vma {
        None => (E_FAULT, MemOp::Nothing),
        Some((start, prot)) => {
            if addr != start {
                return (E_INVAL, MemOp::Nothing);
            }
            if new_len <= old_len {
                return (addr as isize, MemOp::Nothing);
            }
            let len: usize = (new_len + 4095) / 4096 * 4096;
            let end: usize = mm.mmap_next;
            let at: usize = end - len;
            mm.mmap_next = at;
            let old_end: usize = addr + (old_len + 4095) / 4096 * 4096;
            (
                at as isize,
                MemOp::Relocate { start: at, end, prot, copy: old_len, old: addr, old_end },
            )
        },
    }
}

/// Memory after the bytes of a mapping were copied to its new place, where both
/// are accessible.
pub open spec fn moved(m: Map<int, u8>, from: usize, to: usize, n: usize) -> Map<int, u8> {
    if mapped(m, from as int, n as int) && mapped(m, to as int, n as int) {
        stored(m, to as int, bytes_at(m, from as int, n as int))
    } else {
        m
    }
}

/// Copies the bytes of a mapping that moves, once its new place is there.
pub fn copy_moved(mem: &mut UserMem, from: usize, to: usize, n: usize)
    ensures
        final(mem)@ == moved(old(mem)@, from, to, n),
{
    match mem.copy_from_user(from, n) {
        Ok(data) => {
            let _ = mem.copy_to_user(to, &data);
        },
        Err(_) => {},
    }
}

/// A mapping that moved holds at its new place what it held before, and all of
/// its old place is what gets unmapped.
pub proof fn moved_holds_its_bytes(
    a: Mm,
    vma: Option<(usize, usize)>,
    addr: usize,
    old_len: usize,
    new_len: usize,
    r: (isize, MemOp),
    b: Mm,
    m: Map<int, u8>,
)
    requires
        addr + page_up(old_len as int) <= usize::MAX,
        mremap_post(a, vma, addr, old_len, new_len, r, b),
        r.1 is Relocate,
        mapped(m, addr as int, old_len as int),
        mapped(m, b.mmap_next as int, old_len as int),
    ensures
        ({
            let n = moved(m, r.1->old, b.mmap_next, r.1->copy);
            &&& r.0 == b.mmap_next as isize
            &&& bytes_at(n, b.mmap_next as int, old_len as int) == bytes_at(
                m,
                addr as int,
                old_len as int,
            )
            &&& r.1->old == addr && addr + old_len <= r.1->old_end
        }),
{
    let at = b.mmap_next as int;
    let old_bytes = bytes_at(m, addr as int, old_len as int);
    let n = moved(m, addr, b.mmap_next, old_len);
    assert forall|i: int| 0 <= i < old_len implies #[trigger] bytes_at(n, at, old_len as int)[i]
        == old_bytes[i] by {
        assert(m.dom().contains(at + i));
    }
    assert(bytes_at(n, at, old_len as int) =~= old_bytes);
}

/// A range of addresses with its rights.
#[derive(Clone, Copy, PartialEq, Eq, Structural, Debug)]
pub struct Area {
    pub start: usize,
    pub end: usize,
    pub prot: usize,
}

pub open spec fn writable(areas: Seq<Area>, addr: usize) -> bool {
    exists|i: int|
        0 <= i < areas.len() && (#[trigger] areas[i]).start <= addr < areas[i].end && areas[i].prot
            & PROT_WRITE != 0
}

/// Whether the byte at `addr` can be written.
pub fn mm_is_writable(areas: &Vec<Area>, addr: usize) -> (r: bool)
    ensures
        r == writable(areas@, addr),
{
    let n: usize = areas.len();
    let mut i: usize = 0;
    while i < n
        invariant
            i <= n == areas@.len(),
            forall|j: int|
                0 <= j < i ==> !((#[trigger] areas@[j]).start <= addr < areas@[j].end
                    && areas@[j].prot & PROT_WRITE != 0),
        decreases n - i,
    {
        let a: Area = areas[i];
        if a.start <= addr && addr < a.end && a.prot & PROT_WRITE != 0 {
            assert(areas@[i as int].start <= addr < areas@[i as int].end);
            return true;
        }
        i = i + 1;
    }
    false
}

/// Mappings without a fixed address do not overlap those made before them.
pub proof fn mappings_go_down(
    mm: Mm,
    addr: usize,
    len: usize,
    prot: usize,
    flags: usize,
    what: Mappable,
    offset: usize,
    r: (isize, MemOp),
    mm1: Mm,
)
    requires
        len > 0,
        len <= usize::MAX - 4095,
        flags & MAP_FIXED == 0,
        page_up(len as int) <= mm.mmap_next,
        mmap_post(mm, addr, len, prot, flags, what, offset, r, mm1),
    ensures
        mm1.mmap_next + page_up(len as int) == mm.mmap_next,
        r.1 matches MemOp::MapAnon { start, end, prot: p } ==> start == mm1.mmap_next && end
            == mm.mmap_next,
{
}

/// A mapping has the rights that were asked for, each if and only if its bit is
/// set: reading (bit 0), writing (bit 1), executing (bit 2).
pub proof fn rights_are_those_asked(prot: usize)
    ensures
        prot_of(prot) & 1 != 0 <==> prot & 1 != 0,
        prot_of(prot) & 2 != 0 <==> prot & 2 != 0,
        prot_of(prot) & 4 != 0 <==> prot & 4 != 0,
        prot_of(prot) <= 7,
{
    let r: usize = if prot & 1 != 0 { 1 } else { 0 };
    let w: usize = if prot & 2 != 0 { 2 } else { 0 };
    let x: usize = if prot & 4 != 0 { 4 } else { 0 };
    assert(((r | w | x) & 1 != 0 <==> r == 1) && ((r | w | x) & 2 != 0 <==> w == 2) && ((r | w | x)
        & 4 != 0 <==> x == 4) && (r | w | x) <= 7) by (bit_vector)
        requires
            r == 0 || r == 1,
            w == 0 || w == 2,
            x == 0 || x == 4,
    ;
}

/// A mapping that is made starts at a page boundary, where the caller is told, or
/// where it was wanted if that was fixed; it covers what was asked for up to the
/// end of its last page, lies below the end of the user addresses, and has the
/// rights asked for.
pub proof fn mapping_covers_request(
    mm: Mm,
    addr: usize,
    len: usize,
    prot: usize,
    flags: usize,
    what: Mappable,
    offset: usize,
    r: (isize, MemOp),
    mm1: Mm,
)
    requires
        len <= usize::MAX - 4095,
        mm.user_limit <= isize::MAX,
        flags & MAP_FIXED == 0 ==> page_up(len as int) <= mm.mmap_next,
        mmap_post(mm, addr, len, prot, flags, what, offset, r, mm1),
    ensures
        r.0 >= 0 <==> !(r.1 is Nothing),
        r.1 matches MemOp::MapAnon { start, end, prot: p } ==> {
            &&& r.0 == start && start % 4096 == 0 && end % 4096 == 0
            &&& start + len <= end < start + len + 4096 && end <= mm.user_limit
            &&& flags & 0x10 != 0 ==> start == addr
            &&& flags & 0x20 != 0
            &&& (p & 1 != 0 <==> prot & 1 != 0) && (p & 2 != 0 <==> prot & 2 != 0) && (p & 4 != 0
                <==> prot & 4 != 0)
        },
        r.1 matches MemOp::MapFile { start, end, prot: p, file, offset: o } ==> {
            &&& r.0 == start && start % 4096 == 0 && end % 4096 == 0
            &&& start + len <= end < start + len + 4096 && end <= mm.user_limit
            &&& flags & 0x10 != 0 ==> start == addr
            &&& flags & 0x20 == 0 && what == Mappable::File(file) && o == offset
            &&& (p & 1 != 0 <==> prot & 1 != 0) && (p & 2 != 0 <==> prot & 2 != 0) && (p & 4 != 0
                <==> prot & 4 != 0)
        },
        !(r.1 is Unmap) && !(r.1 is Protect) && !(r.1 is Relocate),
{
    rights_are_those_asked(prot);
    let n = page_up(len as int);
    let start = place(mm, addr, n, flags);
    assert(n % 4096 == 0 && len <= n < len + 4096);
    if len > 0 && !(flags & MAP_FIXED == 0 && start < mm.mmap_base / 2) && !(start + n > mm.user_limit
        || start % 4096 != 0) {
        assert(0 <= start <= isize::MAX);
        assert((start + n) % 4096 == 0);
    }
}

/// Two mappings without a fixed address, one after the other, share no byte.
pub proof fn mappings_do_not_overlap(
    mm: Mm,
    len: usize,
    prot: usize,
    flags: usize,
    r: (isize, MemOp),
    mm1: Mm,
    len2: usize,
    prot2: usize,
    flags2: usize,
    r2: (isize, MemOp),
    mm2: Mm,
    x: int,
)
    requires
        0 < len <= usize::MAX - 4095,
        0 < len2 <= usize::MAX - 4095,
        flags & MAP_FIXED == 0,
        flags2 & MAP_FIXED == 0,
        page_up(len as int) <= mm.mmap_next,
        page_up(len2 as int) <= mm1.mmap_next,
        mmap_post(mm, 0, len, prot, flags, Mappable::Closed, 0, r, mm1),
        mmap_post(mm1, 0, len2, prot2, flags2, Mappable::Closed, 0, r2, mm2),
    ensures
        r.1 matches MemOp::MapAnon { start, end, prot: p } ==> (r2.1 matches MemOp::MapAnon {
            start: s,
            end: e,
            prot: q,
        } ==> !(start <= x < end && s <= x < e)),
{
}

/// The break moves to the first page boundary at or above what is asked for, where
/// that is in range. When it grows, all between the old and the new break that had
/// no page gets one, readable and writable; when it shrinks, what is above the new
/// break goes.
pub proof fn break_moves(mm: Mm, want: usize, x: int)
    requires
        want <= usize::MAX - 4095,
        mm.brk <= usize::MAX - 4095,
        0 < want,
        mm.brk_start <= want,
        mm.brk_start % 4096 == 0,
        want + 4095 <= mm.mmap_base,
    ensures
        ({
            let (brk, op) = brk_plan(mm, want);
            &&& want <= brk < want + 4096 && brk % 4096 == 0
            &&& mm.brk + 4095 <= x < brk && x % 4096 == 0 ==> (op matches MemOp::MapAnon {
                start,
                end,
                prot,
            } && start <= x < end && end == brk && start % 4096 == 0 && mm.brk <= start && prot & 1
                != 0 && prot & 2 != 0 && prot & 4 == 0)
            &&& brk <= x < mm.brk ==> (op matches MemOp::Unmap { start, end } && start <= x < end
                && start == brk && end == mm.brk)
            &&& op matches MemOp::MapAnon { start, end, prot } ==> mm.brk <= start && end <= brk
        }),
{
    assert(1usize | 2 == 3 && 3usize & 1 != 0 && 3usize & 2 != 0 && 3usize & 4 == 0) by (bit_vector);
    let n = page_up(want as int);
    assert(n % 4096 == 0 && want <= n < want + 4096);
    let s = page_up(mm.brk as int);
    assert(s % 4096 == 0 && mm.brk <= s < mm.brk + 4096);
}

/// A mapping that grows is moved to a new place that holds all it held: the copy
/// is as long as the old mapping and fits, and the rights stay.
pub proof fn growing_moves_all(
    a: Mm,
    start: usize,
    prot: usize,
    old_len: usize,
    new_len: usize,
    r: (isize, MemOp),
    b: Mm,
)
    requires
        old_len < new_len <= usize::MAX - 4095,
        page_up(new_len as int) <= a.mmap_next <= isize::MAX,
        start + page_up(old_len as int) <= usize::MAX,
        mremap_post(a, Some((start, prot)), start, old_len, new_len, r, b),
    ensures
        r.1 matches MemOp::Relocate { start: s, end, prot: p, copy, old, old_end } && r.0 == s && end
            - s >= new_len && end == a.mmap_next && b.mmap_next == s && p == prot && copy == old_len
            && s + copy <= end && old == start && old_end >= old + old_len && old_end < old + old_len
            + 4096,
{
}

} // verus!
