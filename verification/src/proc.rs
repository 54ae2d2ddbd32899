//! The address space bookkeeping of the single-process configuration: one
//! process at a time, pages mapped on first use.

use vstd::prelude::*;
use crate::errno::{ENOENT, ENOMEM};
use crate::page;
use crate::page::{gibs, in_chunks, kernel_pte, KernelRegions, VA_END};
use crate::pmm::{
    alloc_page, alloc_post, lemma_taken_more, lemma_taken_one, pages_taken, zero_page, PhysMem,
};
use crate::sv39::{
    blocked, entry_set, find, is_data, leaf, leaf_pte, lemma_find_same, lemma_kept_alloc,
    lemma_kept_root, lemma_root_place, lemma_tree_alloc, missing, pages_kept, same_ways, table_wf, walk, Place, PTE_A,
    PTE_D, PTE_V,
};
use crate::paths::{copy_bytes, SLASH};
use crate::vfs::{found, open_read, target_of, tmp_at, FileData, Vfs};

verus! {

/// The signal for a bad memory access.
pub const SIGSEGV: i32 = 11;

/// Where ranges without a wished address start.
pub const MMAP_FIRST: u64 = 0x30_0000_0000;

/// The part of the address space that the kernel maps for itself: device
/// registers and RAM.
pub const KERNEL_LOW: u64 = 0x0800_0000;

pub const KERNEL_HIGH: u64 = 0x8800_0000;

/// A range of user addresses and its page flags.
#[derive(Clone, Copy, PartialEq, Eq, Structural, Debug)]
pub struct Vma {
    pub start: u64,
    pub end: u64,
    pub flags: u64,
}

/// What a file descriptor stands for.
#[derive(Clone, Copy, PartialEq, Eq, Structural, Debug)]
pub enum FdEntry {
    Console,
    /// An open file, by number.
    File(usize),
}

pub struct Process {
    pub pid: usize,
    /// Root page of the user page table.
    pub root: u64,
    pub vmas: Vec<Vma>,
    pub brk: u64,
    pub mmap_next: u64,
    pub cwd: Vec<u8>,
    pub fds: Vec<Option<FdEntry>>,
    pub exiting: bool,
}

pub open spec fn holds(v: Vma, a: u64) -> bool {
    v.start <= a < v.end
}

/// `i` is the first range that holds `a`.
pub open spec fn first_vma(vmas: Seq<Vma>, a: u64, i: int) -> bool {
    &&& 0 <= i < vmas.len()
    &&& holds(vmas[i], a)
    &&& forall|j: int| 0 <= j < i ==> !holds(#[trigger] vmas[j], a)
}

pub open spec fn overlap(v: Vma, start: u64, end: u64) -> bool {
    start < v.end && end > v.start
}

/// No two ranges overlap.
pub open spec fn disjoint(vmas: Seq<Vma>) -> bool {
    forall|i: int, j: int|
        0 <= i < j < vmas.len() ==> !overlap(#[trigger] vmas[i], (#[trigger] vmas[j]).start, vmas[j].end)
}

/// The start of the page of `a`.
pub open spec fn page_of(a: u64) -> u64 {
    (a / 4096 * 4096) as u64
}

/// The first page boundary at or above `a`.
pub open spec fn page_end(a: int) -> int {
    (a + 4095) / 4096 * 4096
}

impl Process {
    pub open spec fn wf(&self, pm: PhysMem) -> bool {
        table_wf(pm, self.root)
    }
}

pub fn current_page_table_root(p: &Process) -> (root: u64)
    ensures
        root == p.root,
{
    p.root
}

fn find_vma(vmas: &Vec<Vma>, a: u64) -> (r: Option<usize>)
    ensures
        match r {
            Some(i) => first_vma(vmas@, a, i as int),
            None => forall|i: int| 0 <= i < vmas@.len() ==> !holds(#[trigger] vmas@[i], a),
        },
{
    let n: usize = vmas.len();
    let mut i: usize = 0;
    while i < n
        invariant
            i <= n == vmas@.len(),
            forall|j: int| 0 <= j < i ==> !holds(#[trigger] vmas@[j], a),
        decreases n - i,
    {
        if a >= vmas[i].start && a < vmas[i].end {
            return Some(i);
        }
        i = i + 1;
    }
    None
}

/// Pages in use hold what they held.
pub open spec fn in_use_kept(a: PhysMem, b: PhysMem) -> bool {
    forall|p: u64|
        a.is_page(p as int) && !#[trigger] a.is_free(p as int) ==> b.page(p as int) == a.page(
            p as int,
        )
}

/// A new page can be put at `va`: neither a large page nor a lack of pages for
/// the page itself and its tables stands against it.
pub open spec fn room_for(pm: PhysMem, root: u64, va: u64) -> bool {
    !blocked(pm, root, 2, va, 0) && pm.free@.len() - 1 >= missing(pm, root, 2, va, 0)
}

pub open spec fn zero_page_post(
    p: Process,
    pm0: PhysMem,
    va: u64,
    r: bool,
    pm1: PhysMem,
) -> bool {
    let a = page_of(va);
    if exists|i: int| first_vma(p.vmas@, a, i) {
        let i = choose|i: int| first_vma(p.vmas@, a, i);
        &&& r == (pm0.free@.len() > 0)
        &&& if r && room_for(pm0, p.root, a) {
            &&& entry_set(
                pm0,
                pm1,
                p.root,
                a,
                0,
                leaf_pte(pm0.free@.last(), p.vmas@[i].flags | 0xc1),
            )
            &&& is_data(pm1, p.root, pm0.free@.last())
            &&& pm1.page(pm0.free@.last() as int) == zero_page()
        } else {
            same_ways(pm0, pm1, p.root)
        }
        &&& pages_kept(pm0, pm1, p.root)
        &&& pages_taken(pm0, pm1)
    } else {
        !r && pm1 == pm0
    }
}

/// Maps a cleared page at the page of `va`, with the flags of the range that
/// holds it. `false` outside all ranges and where no page is left.
pub fn map_zero_page(p: &Process, pm: &mut PhysMem, va: u64) -> (r: bool)
    requires
        p.wf(*old(pm)),
    ensures
        table_wf(*final(pm), p.root),
        zero_page_post(*p, *old(pm), va, r, *final(pm)),
{
    let a: u64 = va / 4096 * 4096;
    match find_vma(&p.vmas, a) {
        None => false,
        Some(i) => {
            let ghost pm0 = *pm;
            let flags: u64 = p.vmas[i].flags;
            proof {
                let k = choose|k: int| first_vma(p.vmas@, a, k);
                assert(first_vma(p.vmas@, a, i as int));
                assert(k == i);
                crate::page_table::lemma_mapping(0, flags);
            }
            let ghost at = choose|at: Map<u64, Place>| crate::sv39::tree(pm0, p.root, at);
            let page: Option<u64> = alloc_page(pm);
            let ghost pm1 = *pm;
            proof {
                lemma_tree_alloc(pm0, pm1, p.root, at, page);
                lemma_kept_alloc(pm0, pm1, p.root, at, page);
                lemma_taken_one(pm0, page, pm1);
                assert forall|x: u64| #[trigger]
                    find(pm1, p.root, 2, x) == find(pm0, p.root, 2, x) by {
                    lemma_root_place(x);
                    lemma_find_same(pm0, pm1, p.root, at, p.root, 2, x, 0);
                }
                lemma_root_place(a);
                lemma_find_same(pm0, pm1, p.root, at, p.root, 2, a, 0);
            }
            match page {
                Some(pa) => {
                    let ok: bool = page::map_4k(pm, p.root, a, pa, flags | PTE_A | PTE_D | PTE_V);
                    proof {
                        assert(ok == room_for(pm0, p.root, a));
                        assert(is_data(pm1, p.root, pa));
                        lemma_taken_more(pm0, pm1, *pm);
                        assert(pages_kept(pm0, *pm, p.root)) by {
                            assert forall|q: u64| #[trigger]
                                is_data(pm0, p.root, q) implies is_data(*pm, p.root, q) && pm.page(
                                q as int,
                            ) == pm0.page(q as int) by {
                                assert(is_data(pm1, p.root, q));
                            }
                        }
                        assert forall|x: u64| !ok implies #[trigger] find(*pm, p.root, 2, x) == find(
                            pm0,
                            p.root,
                            2,
                            x,
                        ) by {
                            assert(find(pm1, p.root, 2, x) == find(pm0, p.root, 2, x));
                        }
                    }
                    true
                },
                None => false,
            }
        },
    }
}

/// Handles a page fault of the process: the page is mapped, or the process gets
/// SIGSEGV.
pub fn handle_page_fault(p: &Process, pm: &mut PhysMem, va: u64, code: u64) -> (r: Result<(), i32>)
    requires
        p.wf(*old(pm)),
    ensures
        table_wf(*final(pm), p.root),
        r is Err ==> r->Err_0 == SIGSEGV,
        zero_page_post(*p, *old(pm), va, r is Ok, *final(pm)),
{
    if map_zero_page(p, pm, va) {
        Ok(())
    } else {
        Err(SIGSEGV)
    }
}

/// Reserves the next `len` bytes of the upper address space.
pub fn alloc_user_range(p: &mut Process, len: u64, flags: u64) -> (r: Option<(u64, u64)>)
    requires
        old(p).mmap_next + len + 0xfff <= u64::MAX,
    ensures
        ({
            let start = old(p).mmap_next;
            let end = page_end(start + len) as u64;
            &&& r == Some((start, end))
            &&& final(p).mmap_next == end
            &&& final(p).vmas@ == old(p).vmas@.push(Vma { start, end, flags })
            &&& *final(p) == (Process {
                vmas: final(p).vmas,
                mmap_next: end,
                ..*old(p)
            })
        }),
{
    let start: u64 = p.mmap_next;
    let end: u64 = (start + len + 0xfff) / 4096 * 4096;
    p.mmap_next = end;
    p.vmas.push(Vma { start, end, flags });
    Some((start, end))
}

/// Why a range is refused: it is empty, touches the kernel's part, or overlaps
/// an existing one.
pub open spec fn vma_refused(vmas: Seq<Vma>, start: u64, end: u64) -> bool {
    ||| start >= end
    ||| start < KERNEL_HIGH && end > KERNEL_LOW
    ||| exists|i: int| 0 <= i < vmas.len() && overlap(#[trigger] vmas[i], start, end)
}

/// Adds a range at a given address, widened to whole pages.
#[verifier::loop_isolation(false)]
pub fn add_vma(p: &mut Process, start: u64, end: u64, flags: u64) -> (r: bool)
    requires
        end + 0xfff <= u64::MAX,
    ensures
        ({
            let s = page_of(start);
            let e = page_end(end as int) as u64;
            &&& r == !vma_refused(old(p).vmas@, s, e)
            &&& *final(p) == (Process { vmas: final(p).vmas, ..*old(p) })
            &&& final(p).vmas@ == (if r {
                old(p).vmas@.push(Vma { start: s, end: e, flags })
            } else {
                old(p).vmas@
            })
        }),
        disjoint(old(p).vmas@) ==> disjoint(final(p).vmas@),
{
    let s: u64 = start / 4096 * 4096;
    let e: u64 = (end + 0xfff) / 4096 * 4096;
    if s >= e {
        return false;
    }
    if s < KERNEL_HIGH && e > KERNEL_LOW {
        return false;
    }
    let n: usize = p.vmas.len();
    let mut i: usize = 0;
    while i < n
        invariant
            i <= n,
            forall|j: int| 0 <= j < i ==> !overlap(#[trigger] p.vmas@[j], s, e),
        decreases n - i,
    {
        if s < p.vmas[i].end && e > p.vmas[i].start {
            assert(overlap(p.vmas@[i as int], s, e));
            return false;
        }
        i = i + 1;
    }
    p.vmas.push(Vma { start: s, end: e, flags });
    true
}

/// The lowest free descriptor, or the length of the table.
pub open spec fn lowest_free(fds: Seq<Option<FdEntry>>) -> int
    decreases fds.len(),
{
    if fds.len() == 0 || fds[0] is None {
        0
    } else {
        1 + lowest_free(fds.skip(1))
    }
}

proof fn lemma_lowest(fds: Seq<Option<FdEntry>>, k: int)
    requires
        0 <= k <= fds.len(),
        forall|i: int| 0 <= i < k ==> #[trigger] fds[i] is Some,
        k < fds.len() ==> fds[k] is None,
    ensures
        lowest_free(fds) == k,
    decreases fds.len(),
{
    if k > 0 {
        assert(fds[0] is Some);
        assert forall|i: int| 0 <= i < k - 1 implies #[trigger] fds.skip(1)[i] is Some by {
            assert(fds[i + 1] is Some);
        }
        lemma_lowest(fds.skip(1), k - 1);
    }
}

/// Finds a free descriptor, growing the table where all are taken.
#[verifier::loop_isolation(false)]
pub fn alloc_fd(p: &mut Process) -> (fd: usize)
    ensures
        fd == lowest_free(old(p).fds@),
        final(p).fds@ == (if fd < old(p).fds@.len() {
            old(p).fds@
        } else {
            old(p).fds@.push(None)
        }),
        *final(p) == (Process { fds: final(p).fds, ..*old(p) }),
{
    let n: usize = p.fds.len();
    let mut i: usize = 0;
    while i < n
        invariant
            i <= n,
            forall|j: int| 0 <= j < i ==> #[trigger] p.fds@[j] is Some,
        decreases n - i,
    {
        if p.fds[i].is_none() {
            proof {
                lemma_lowest(p.fds@, i as int);
            }
            return i;
        }
        i = i + 1;
    }
    proof {
        lemma_lowest(p.fds@, n as int);
    }
    p.fds.push(None);
    n
}

/// What a descriptor stands for.
pub fn get_fd(p: &Process, fd: usize) -> (r: Option<FdEntry>)
    ensures
        r == (if fd < p.fds@.len() {
            p.fds@[fd as int]
        } else {
            None
        }),
{
    if fd >= p.fds.len() {
        return None;
    }
    p.fds[fd]
}

/// What a program file holds that can be opened under `path`.
pub open spec fn program(fs: Vfs, cwd: Seq<u8>, path: Seq<u8>) -> Option<Seq<u8>> {
    let norm = target_of(fs.root(), cwd, path);
    match tmp_at(fs.tmps(), norm) {
        Some(k) => Some(fs.files@[k as int]@),
        None => match found(fs.root(), norm) {
            Some(e) => if e.kind is File {
                Some(e.data)
            } else {
                None
            },
            None => None,
        },
    }
}

/// What the table of a new process maps: the kernel's regions and nothing else.
pub open spec fn kernel_only(pm: PhysMem, root: u64, regions: KernelRegions) -> bool {
    forall|b: u64|
        b < VA_END ==> #[trigger] find(pm, root, 2, b) == (if in_chunks(
            b,
            regions.ram_start,
            regions.ram_end,
        ) || in_chunks(b, regions.mmio_start, regions.mmio_end) {
            Some((kernel_pte(b), 1int))
        } else {
            None
        })
}

/// Makes the first process from the program `argv[0]`, still without
/// descriptors, and gives the program's bytes to be loaded. Where a page is left,
/// pages for the tables of the kernel's regions must be left too.
pub fn spawn(fs: &Vfs, pm: &mut PhysMem, regions: &KernelRegions, cwd: &Vec<u8>, argv: &Vec<Vec<u8>>) -> (r:
    Result<(Process, Vec<u8>), i32>)
    requires
        fs.wf(),
        old(pm).wf(),
        argv@.len() > 0,
        regions.ram_end <= VA_END,
        regions.mmio_end <= VA_END,
        old(pm).free@.len() > 0 ==> old(pm).free@.len() >= 1 + gibs(
            regions.ram_start,
            regions.ram_end,
        ) + gibs(regions.mmio_start, regions.mmio_end),
    ensures
        match program(*fs, cwd@, argv@[0]@) {
            None => r is Err && r->Err_0 == ENOENT && *final(pm) == *old(pm),
            Some(data) => if old(pm).free@.len() == 0 {
                r is Err && r->Err_0 == ENOMEM && alloc_post(*old(pm), None, *final(pm))
            } else {
                &&& r is Ok
                &&& (r->Ok_0).1@ == data
                &&& ({
                    let p = (r->Ok_0).0;
                    &&& p.wf(*final(pm))
                    &&& p.pid == 1
                    &&& p.root == old(pm).free@.last()
                    &&& kernel_only(*final(pm), p.root, *regions)
                    &&& in_use_kept(*old(pm), *final(pm))
                    &&& pages_taken(*old(pm), *final(pm))
                    &&& p.vmas@.len() == 0
                    &&& p.brk == 0
                    &&& p.mmap_next == MMAP_FIRST
                    &&& p.cwd@ == seq![SLASH]
                    &&& p.fds@.len() == 0
                    &&& !p.exiting
                })
            },
        },
{
    let data: Vec<u8> = match open_read(fs, cwd, &argv[0]) {
        None => {
            return Err(ENOENT);
        },
        Some((d, _)) => match d {
            FileData::Static(i) => copy_bytes(&fs.rootfs[i].data),
            FileData::Tmp(k) => copy_bytes(&fs.files[k]),
        },
    };
    let root: u64 = match page::alloc_table(pm) {
        None => {
            return Err(ENOMEM);
        },
        Some(x) => x,
    };
    let ghost mid = *pm;
    proof {
        page::lemma_no_gib_pages(mid, root);
        lemma_kept_root(*old(pm), mid, root);
    }
    page::map_kernel_regions(pm, regions, root);
    proof {
        lemma_taken_one(*old(pm), Some(root), mid);
        lemma_taken_more(*old(pm), mid, *pm);
        assert forall|q: u64|
            old(pm).is_page(q as int) && !#[trigger] old(pm).is_free(q as int) implies pm.page(
            q as int,
        ) == old(pm).page(q as int) by {
            assert(is_data(mid, root, q));
        }
    }
    let p: Process = Process {
        pid: 1,
        root,
        vmas: Vec::new(),
        brk: 0,
        mmap_next: MMAP_FIRST,
        cwd: vec![SLASH],
        fds: Vec::new(),
        exiting: false,
    };
    proof {
        assert(p.cwd@ =~= seq![SLASH]);
    }
    Ok((p, data))
}

/// Goes on after the program was loaded: the process gets the console as its
/// descriptors 0 to 2, or the error of the loading is passed on.
pub fn start(p: &mut Process, loaded: Result<(), i32>) -> (r: Result<(), i32>)
    ensures
        r is Ok == loaded is Ok,
        r is Err ==> r->Err_0 == loaded->Err_0,
        final(p).fds@ == (if loaded is Ok {
            old(p).fds@ + Seq::new(3, |i: int| Some(FdEntry::Console))
        } else {
            old(p).fds@
        }),
        *final(p) == (Process { fds: final(p).fds, ..*old(p) }),
{
    match loaded {
        Err(e) => Err(e),
        Ok(_) => {
            p.fds.push(Some(FdEntry::Console));
            p.fds.push(Some(FdEntry::Console));
            p.fds.push(Some(FdEntry::Console));
            proof {
                assert(p.fds@ =~= old(p).fds@ + Seq::new(3, |i: int| Some(FdEntry::Console)));
            }
            Ok(())
        },
    }
}

/// A fault in one of the ranges of a process brings a page of its own: the address
/// then translates into a page that was free and is cleared, at its offset; the
/// rest of memory translates as before. A fault outside of all ranges brings none.
pub proof fn fault_brings_a_page(p: Process, a: PhysMem, va: u64, r: bool, b: PhysMem, i: int, other: u64)
    requires
        zero_page_post(p, a, va, r, b),
        first_vma(p.vmas@, (va / 4096 * 4096) as u64, i),
        a.wf(),
        a.free@.len() > 0,
        room_for(a, p.root, (va / 4096 * 4096) as u64),
        p.vmas@[i].flags < 0x400,
        leaf(p.vmas@[i].flags),
        (va as int / 4096) % 0x800_0000 != (other as int / 4096) % 0x800_0000,
    ensures
        r,
        walk(b, p.root, va) is Some,
        ({
            let frame = ((walk(b, p.root, va)->0) as int - va as int % 4096) as u64;
            &&& (walk(b, p.root, va)->0) as int % 4096 == va as int % 4096
            &&& a.is_free(frame as int) && !b.is_free(frame as int)
            &&& b.page(frame as int) == zero_page()
        }),
        walk(b, p.root, other) == walk(a, p.root, other),
{
    let x = page_of(va);
    let k = choose|k: int| first_vma(p.vmas@, x, k);
    assert(first_vma(p.vmas@, x, i));
    assert(k == i) by {
        if k < i {
            assert(!holds(p.vmas@[k], x));
        } else if i < k {
            assert(!holds(p.vmas@[i], x));
        }
    }
    let pa = a.free@.last();
    let flags = p.vmas@[i].flags;
    assert(a.is_free(pa as int)) by {
        assert(a.free@[a.free@.len() - 1] == pa);
    }
    crate::page_table::lemma_mapping(pa, flags);
    crate::page_table::lemma_same_page(x, va);
    crate::page_table::lemma_same_page(x, other);
    assert(x as int / 4096 == va as int / 4096);
    assert(find(b, p.root, 2, va) == Some((leaf_pte(pa, flags | 0xc1), 0int)));
    assert(find(b, p.root, 2, other) == find(a, p.root, 2, other));
    assert(b.is_page(pa as int));
    let o = va & 0xfff;
    assert(va & 0xfff == va % 4096 && pa | (va & 0xfff) == pa + (va & 0xfff)) by (bit_vector)
        requires
            pa % 4096 == 0,
    ;
}

/// Without a range that holds it, a fault brings no page and changes nothing.
pub proof fn stray_fault_brings_none(p: Process, a: PhysMem, va: u64, r: bool, b: PhysMem)
    requires
        zero_page_post(p, a, va, r, b),
        forall|i: int|
            0 <= i < p.vmas@.len() ==> !(p.vmas@[i].start <= va / 4096 * 4096 < (
            #[trigger] p.vmas@[i]).end),
    ensures
        !r,
        b == a,
{
}

/// A range that is accepted shares no address with another one, nor with the
/// kernel's part, and holds the range asked for in whole pages.
pub proof fn accepted_range_is_free(vmas: Seq<Vma>, start: u64, end: u64, i: int, x: u64)
    requires
        end + 0xfff <= u64::MAX,
        !vma_refused(vmas, page_of(start), page_end(end as int) as u64),
        0 <= i < vmas.len(),
        page_of(start) <= x < page_end(end as int),
    ensures
        !(vmas[i].start <= x < vmas[i].end),
        !(KERNEL_LOW <= x < KERNEL_HIGH),
        page_of(start) % 4096 == 0 && page_end(end as int) % 4096 == 0,
        page_of(start) <= start < page_of(start) + 4096,
        end <= page_end(end as int) < end + 4096,
{
    if vmas[i].start <= x < vmas[i].end {
        assert(overlap(vmas[i], page_of(start), page_end(end as int) as u64));
    }
}

/// The descriptor that is given out is the lowest that is free.
pub proof fn lowest_descriptor_is_given(fds: Seq<Option<FdEntry>>, i: int)
    ensures
        0 <= lowest_free(fds) <= fds.len(),
        0 <= i < lowest_free(fds) ==> fds[i] is Some,
        lowest_free(fds) < fds.len() ==> fds[lowest_free(fds)] is None,
    decreases fds.len(),
{
    if fds.len() > 0 && fds[0] is Some {
        lowest_descriptor_is_given(fds.skip(1), i - 1);
        if 0 < i < lowest_free(fds) {
            assert(fds.skip(1)[i - 1] == fds[i]);
        }
        let k = lowest_free(fds.skip(1));
        if k < fds.skip(1).len() {
            assert(fds.skip(1)[k] == fds[k + 1]);
        }
    }
}

} // verus!
