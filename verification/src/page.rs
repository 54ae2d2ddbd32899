//! Page tables of the identity-mapped kernel: every table maps all of RAM and
//! the device registers in 2M pages without user access.

use vstd::prelude::*;
use crate::page_table::{lemma_blocked, lemma_end, lemma_mapping, lemma_missing, mapping};
use crate::pmm::{
    alloc_page, alloc_post, lemma_taken_more, lemma_taken_none, lemma_taken_one, pages_taken, PhysMem,
};
use crate::sv39::{
    addr, blocked, descend, end_of, entry, entry_set, find, find_end, find_leaf, idx, is_data,
    leaf, leaf_pte, lemma_bits, lemma_empty_table, lemma_kept_root, lemma_leaf_pte, link, missing, offset, offset_of,
    pages_kept, same_entry, same_ways, set_entry, table_wf, walk, PTE_A, PTE_D, PTE_R, PTE_V, PTE_W, PTE_X,
};

verus! {

pub const TWO_M: u64 = 0x20_0000;

/// The physical address of a page number.
pub fn ppn_to_pa(ppn: u64) -> (pa: u64)
    ensures
        pa == ppn << 12,
{
    ppn << 12
}

/// The page number of a physical address.
pub fn pa_to_ppn(pa: u64) -> (ppn: u64)
    ensures
        ppn == pa >> 12,
{
    pa >> 12
}

/// A cleared page for a table.
pub fn alloc_table(pm: &mut PhysMem) -> (r: Option<u64>)
    requires
        old(pm).wf(),
    ensures
        final(pm).wf(),
        alloc_post(*old(pm), r, *final(pm)),
        r is Some ==> !final(pm).is_free(r->0 as int),
        r is Some ==> table_wf(*final(pm), r->0) && forall|va: u64| #[trigger]
            find(*final(pm), r->0, 2, va) is None,
{
    let r: Option<u64> = alloc_page(pm);
    proof {
        if r is Some {
            lemma_empty_table(*pm, r->0);
        }
    }
    r
}

/// The tables that a 4K mapping of `va` needs can be had.
pub open spec fn can_map(pm: PhysMem, root: u64, va: u64) -> bool {
    !blocked(pm, root, 2, va, 0) && pm.free@.len() >= missing(pm, root, 2, va, 0)
}

/// Maps a 4K page. `false` where a large page is in the way or pages for the
/// tables run out; no address is affected then.
pub fn map_4k(pm: &mut PhysMem, root: u64, va: u64, pa: u64, flags: u64) -> (r: bool)
    requires
        table_wf(*old(pm), root),
    ensures
        table_wf(*final(pm), root),
        r == can_map(*old(pm), root, va),
        r ==> entry_set(*old(pm), *final(pm), root, va, 0, leaf_pte(pa, flags | 1)),
        r ==> final(pm).free@.len() == old(pm).free@.len() - missing(*old(pm), root, 2, va, 0),
        !r ==> same_ways(*old(pm), *final(pm), root),
        pages_kept(*old(pm), *final(pm), root),
        pages_taken(*old(pm), *final(pm)),
{
    match descend(pm, root, va, 0) {
        Some(u) => {
            proof {
                lemma_leaf_pte(pa, flags | 1);
                assert((flags | 1) & 1 != 0 && ((pa >> 12) << 10) | flags | 1 == ((pa >> 12) << 10)
                    | (flags | 1)) by (bit_vector);
            }
            let ghost b = *pm;
            set_entry(pm, root, u, va, 0, (pa_to_ppn(pa) << 10) | flags | PTE_V);
            proof {
                lemma_taken_more(*old(pm), b, *pm);
            }
            true
        },
        None => false,
    }
}

/// Maps a 2M page. No 1G page may be in the way, and a page for a missing
/// table must be there.
pub fn map_2m(pm: &mut PhysMem, root: u64, va: u64, pa: u64, flags: u64) -> (r: bool)
    requires
        table_wf(*old(pm), root),
        va % TWO_M == 0,
        pa % TWO_M == 0,
        leaf(flags),
        !blocked(*old(pm), root, 2, va, 1),
        old(pm).free@.len() >= missing(*old(pm), root, 2, va, 1),
    ensures
        r,
        table_wf(*final(pm), root),
        entry_set(*old(pm), *final(pm), root, va, 1, mapping(pa, flags)),
        pages_kept(*old(pm), *final(pm), root),
        pages_taken(*old(pm), *final(pm)),
        final(pm).free@.len() == old(pm).free@.len() - missing(*old(pm), root, 2, va, 1),
{
    match descend(pm, root, va, 1) {
        Some(u) => {
            proof {
                lemma_mapping(pa, flags);
            }
            let ghost b = *pm;
            set_entry(
                pm,
                root,
                u,
                va,
                1,
                (pa_to_ppn(pa) << 10) | flags | PTE_V | PTE_A | PTE_D,
            );
            proof {
                lemma_taken_more(*old(pm), b, *pm);
            }
            true
        },
        None => true,
    }
}

/// What looking `va` up gives: for a large page the address under it, for a 4K
/// page the page's address; and the entry.
pub open spec fn looked_up(found: Option<(u64, int)>, va: u64) -> Option<(u64, u64)> {
    match found {
        Some((e, lvl)) => Some(
            (
                if lvl > 0 {
                    addr(e) | offset(va, lvl)
                } else {
                    addr(e)
                },
                e,
            ),
        ),
        None => None,
    }
}

/// Finds the leaf entry of `va` without adding anything.
pub fn lookup(pm: &PhysMem, root: u64, va: u64) -> (r: Option<(u64, u64)>)
    requires
        table_wf(*pm, root),
    ensures
        r == looked_up(find(*pm, root, 2, va), va),
{
    match find_leaf(pm, root, va) {
        None => None,
        Some((e, lvl)) => {
            let base: u64 = ppn_to_pa(e >> 10);
            if lvl > 0 {
                Some((base | offset_of(va, lvl), e))
            } else {
                Some((base, e))
            }
        },
    }
}

/// The entry `v` with its flag bits replaced.
pub open spec fn reflagged(v: u64, flags: u64) -> u64 {
    (v & !0xff) | flags | 1
}

/// Replaces the flags of the leaf that maps `va`. `false` where nothing does.
pub fn remap_flags(pm: &mut PhysMem, root: u64, va: u64, flags: u64) -> (r: bool)
    requires
        table_wf(*old(pm), root),
        find(*old(pm), root, 2, va) is Some && (find(*old(pm), root, 2, va)->0).1 > 0 ==> leaf(flags),
    ensures
        table_wf(*final(pm), root),
        match find(*old(pm), root, 2, va) {
            Some((e, lvl)) => r && entry_set(
                *old(pm),
                *final(pm),
                root,
                va,
                lvl,
                reflagged(e, flags),
            ),
            None => !r && *final(pm) == *old(pm),
        },
        pages_kept(*old(pm), *final(pm), root),
        pages_taken(*old(pm), *final(pm)),
        final(pm).free@ == old(pm).free@,
{
    proof {
        lemma_taken_none(*pm, *pm);
        lemma_end(*pm, root, 2, va);
    }
    match find_end(pm, root, va) {
        Some((u, lvl)) => {
            let v: u64 = pm.read(u, crate::sv39::index_of(va, lvl));
            if v & PTE_V == 0 {
                return false;
            }
            let e: u64 = (v & !0xff) | flags | PTE_V;
            proof {
                assert(e & 0xe == flags & 0xe) by (bit_vector)
                    requires
                        e == (v & !0xff) | flags | 1,
                ;
            }
            set_entry(pm, root, u, va, lvl, e);
            true
        },
        None => false,
    }
}

/// Clears the entry where the way of `va` ends, be it a large page or not.
pub fn unmap(pm: &mut PhysMem, root: u64, va: u64) -> (r: bool)
    requires
        table_wf(*old(pm), root),
    ensures
        table_wf(*final(pm), root),
        match end_of(*old(pm), root, 2, va) {
            Some((u, lvl)) => r && entry_set(*old(pm), *final(pm), root, va, lvl, 0),
            None => !r && *final(pm) == *old(pm),
        },
        pages_kept(*old(pm), *final(pm), root),
        pages_taken(*old(pm), *final(pm)),
        final(pm).free@ == old(pm).free@,
{
    proof {
        lemma_taken_none(*pm, *pm);
    }
    match find_end(pm, root, va) {
        Some((u, lvl)) => {
            proof {
                lemma_bits();
            }
            set_entry(pm, root, u, va, lvl, 0);
            true
        },
        None => false,
    }
}

/// The root of the kernel's table, which every address space takes over.
pub struct KernelRoot {
    pub root: u64,
}

pub fn set_kernel_root(k: &mut KernelRoot, root: u64)
    ensures
        final(k).root == root,
{
    k.root = root;
}

/// The value of `satp` that selects the table at `root`.
pub fn satp_of(root: u64) -> (r: u64)
    ensures
        r == 0x8000_0000_0000_0000 | (root >> 12),
{
    0x8000_0000_0000_0000 | (root >> 12)
}

// ---- Kernel mappings ----------------------------------------------------------
/// RAM and device registers, which every table maps.
#[derive(Clone, Copy, PartialEq, Eq, Structural, Debug)]
pub struct KernelRegions {
    pub ram_start: u64,
    pub ram_end: u64,
    pub mmio_start: u64,
    pub mmio_end: u64,
}

pub fn record_kernel_regions(
    regions: &mut KernelRegions,
    ram_start: u64,
    ram_end: u64,
    mmio_start: u64,
    mmio_end: u64,
)
    ensures
        *final(regions) == (KernelRegions { ram_start, ram_end, mmio_start, mmio_end }),
{
    *regions = KernelRegions { ram_start, ram_end, mmio_start, mmio_end };
}

/// The start of the 2M page of `a`.
pub open spec fn chunk(a: int) -> int {
    a / 0x20_0000 * 0x20_0000
}

/// `a` lies in a 2M page that `[start, end)` touches, counted from the first.
pub open spec fn in_chunks(a: u64, start: u64, end: u64) -> bool {
    chunk(start as int) <= chunk(a as int) < end
}

/// The entry of a kernel page: all rights but the user's.
pub open spec fn kernel_pte(a: u64) -> u64 {
    mapping(chunk(a as int) as u64, 0xce)
}

/// The end of the addresses that Sv39 tells apart.
pub const VA_END: u64 = 0x80_0000_0000;

/// How many 1G regions the 2M pages of `[start, end)` touch.
pub open spec fn gibs(start: u64, end: u64) -> int {
    if chunk(start as int) < end {
        (end - 1) as int / 0x4000_0000 - start as int / 0x4000_0000 + 1
    } else {
        0
    }
}

/// No 1G page maps anything below the end of the addresses.
pub open spec fn no_gib_pages(pm: PhysMem, root: u64) -> bool {
    forall|va: u64| va < VA_END ==> !#[trigger] blocked(pm, root, 2, va, 1)
}

proof fn lemma_same_chunk(a: u64, b: u64)
    requires
        a < VA_END,
        b < VA_END,
    ensures
        same_entry(a, b, 1) <==> chunk(a as int) == chunk(b as int),
        a as int / 0x4000_0000 == b as int / 0x4000_0000 ==> idx(a, 2) == idx(b, 2),
{
    assert((a / 0x4000_0000 == b / 0x4000_0000 ==> (a >> 30) & 0x1ff == (b >> 30) & 0x1ff) && ((a
        >> 30) & 0x1ff == (b >> 30) & 0x1ff && (a >> 21) & 0x1ff == (b >> 21) & 0x1ff <==> a
        / 0x20_0000 == b / 0x20_0000)) by (bit_vector)
        requires
            a < 0x80_0000_0000,
            b < 0x80_0000_0000,
    ;
    if same_entry(a, b, 1) {
        assert(idx(a, 1) == idx(b, 1));
        assert(idx(a, 2) == idx(b, 2));
    }
    if chunk(a as int) == chunk(b as int) {
        assert(a as int / 0x20_0000 == b as int / 0x20_0000);
        assert forall|k: int| 1 <= k <= 2 implies #[trigger] idx(a, k) == idx(b, k) by {}
    }
}

/// A 1G page is in the way exactly if the way ends on level 2.
proof fn lemma_gib(pm: PhysMem, root: u64, va: u64)
    ensures
        blocked(pm, root, 2, va, 1) == (find(pm, root, 2, va) is Some && (find(
            pm,
            root,
            2,
            va,
        )->0).1 == 2),
        missing(pm, root, 2, va, 1) <= 1,
        0 <= missing(pm, root, 2, va, 1),
        find(pm, root, 2, va) is Some && (find(pm, root, 2, va)->0).1 == 1 ==> missing(
            pm,
            root,
            2,
            va,
            1,
        ) == 0 && link(entry(pm, root, idx(va, 2))),
{
    reveal_with_fuel(find, 4);
    reveal_with_fuel(blocked, 3);
    reveal_with_fuel(missing, 3);
}

/// The 2M pages of `[start, end)` are mapped to themselves; other addresses
/// lead where they did.
pub open spec fn identity(pm0: PhysMem, pm1: PhysMem, root: u64, start: u64, end: u64) -> bool {
    forall|b: u64|
        b < VA_END ==> #[trigger] find(pm1, root, 2, b) == (if in_chunks(b, start, end) {
            Some((kernel_pte(b), 1int))
        } else {
            find(pm0, root, 2, b)
        })
}

#[verifier::loop_isolation(false)]
#[verifier::rlimit(30)]
fn map_region(pm: &mut PhysMem, root: u64, start: u64, end: u64)
    requires
        table_wf(*old(pm), root),
        end <= VA_END,
        no_gib_pages(*old(pm), root),
        old(pm).free@.len() >= gibs(start, end),
    ensures
        table_wf(*final(pm), root),
        identity(*old(pm), *final(pm), root, start, end),
        pages_kept(*old(pm), *final(pm), root),
        pages_taken(*old(pm), *final(pm)),
        no_gib_pages(*final(pm), root),
        old(pm).free@.len() - final(pm).free@.len() <= gibs(start, end),
{
    let ghost pm0 = *pm;
    let flags: u64 = PTE_R | PTE_W | PTE_X | PTE_A | PTE_D;
    proof {
        lemma_taken_none(pm0, pm0);
        lemma_bits();
        assert(start & !0x1f_ffffu64 == start / 0x20_0000 * 0x20_0000) by (bit_vector);
    }
    let first: u64 = start & !(TWO_M - 1);
    let mut va: u64 = first;
    while va < end
        invariant
            va % TWO_M == 0,
            first <= va,
            va < end + TWO_M || va == first,
            table_wf(*pm, root),
            identity(pm0, *pm, root, start, va),
            pages_kept(pm0, *pm, root),
            pages_taken(pm0, *pm),
            no_gib_pages(*pm, root),
            va == first ==> pm.free@.len() == pm0.free@.len(),
            va > first ==> pm0.free@.len() - pm.free@.len() <= (va - TWO_M) as int / 0x4000_0000
                - start as int / 0x4000_0000 + 1,
        decreases end + TWO_M - va,
    {
        let ghost b = *pm;
        proof {
            lemma_gib(b, root, va);
            assert(!blocked(b, root, 2, va, 1));
            lemma_mapping(va, 0xce);
            if va > first {
                let prev = (va - TWO_M) as u64;
                assert(in_chunks(prev, start, va));
                assert(find(b, root, 2, prev) == Some((kernel_pte(prev), 1int)));
                lemma_gib(b, root, prev);
                lemma_same_chunk(prev, va);
                if prev as int / 0x4000_0000 == va as int / 0x4000_0000 {
                    reveal_with_fuel(missing, 3);
                    assert(missing(b, root, 2, va, 1) == 0);
                }
            }
            assert(va as int / 0x4000_0000 <= (end - 1) as int / 0x4000_0000);
        }
        let _ = map_2m(pm, root, va, va, flags);
        proof {
            lemma_taken_more(pm0, b, *pm);
            assert forall|x: u64| x < VA_END implies #[trigger] find(*pm, root, 2, x) == (
            if in_chunks(x, start, (va + TWO_M) as u64) {
                Some((kernel_pte(x), 1int))
            } else {
                find(pm0, root, 2, x)
            }) by {
                lemma_same_chunk(va, x);
                assert(find(b, root, 2, x) == find(b, root, 2, x));
                assert(chunk(va as int) == va);
                if chunk(x as int) != va {
                    assert(in_chunks(x, start, (va + TWO_M) as u64) == in_chunks(x, start, va));
                }
            }
            assert forall|x: u64| x < VA_END implies !#[trigger] blocked(*pm, root, 2, x, 1) by {
                lemma_gib(*pm, root, x);
                lemma_gib(b, root, x);
                assert(!blocked(b, root, 2, x, 1));
                assert(find(*pm, root, 2, x) == find(*pm, root, 2, x));
            }
        }
        va = va + TWO_M;
    }
    proof {
        assert forall|x: u64| x < VA_END implies #[trigger] find(*pm, root, 2, x) == (
        if in_chunks(x, start, end) {
            Some((kernel_pte(x), 1int))
        } else {
            find(pm0, root, 2, x)
        }) by {
            assert(in_chunks(x, start, end) == in_chunks(x, start, va));
        }
    }
}

/// Adds the kernel's identity mappings to a table.
pub fn map_kernel_regions(pm: &mut PhysMem, regions: &KernelRegions, root: u64)
    requires
        table_wf(*old(pm), root),
        regions.ram_end <= VA_END,
        regions.mmio_end <= VA_END,
        no_gib_pages(*old(pm), root),
        old(pm).free@.len() >= gibs(regions.ram_start, regions.ram_end) + gibs(
            regions.mmio_start,
            regions.mmio_end,
        ),
    ensures
        table_wf(*final(pm), root),
        forall|b: u64|
            b < VA_END ==> #[trigger] find(*final(pm), root, 2, b) == (if in_chunks(
                b,
                regions.ram_start,
                regions.ram_end,
            ) || in_chunks(b, regions.mmio_start, regions.mmio_end) {
                Some((kernel_pte(b), 1int))
            } else {
                find(*old(pm), root, 2, b)
            }),
        pages_kept(*old(pm), *final(pm), root),
        pages_taken(*old(pm), *final(pm)),
        no_gib_pages(*final(pm), root),
{
    let ghost a = *pm;
    map_region(pm, root, regions.ram_start, regions.ram_end);
    let ghost b = *pm;
    map_region(pm, root, regions.mmio_start, regions.mmio_end);
    proof {
        lemma_taken_more(a, b, *pm);
        assert forall|x: u64| x < VA_END implies #[trigger] find(*pm, root, 2, x) == (
        if in_chunks(x, regions.ram_start, regions.ram_end) || in_chunks(
            x,
            regions.mmio_start,
            regions.mmio_end,
        ) {
            Some((kernel_pte(x), 1int))
        } else {
            find(a, root, 2, x)
        }) by {
            assert(find(b, root, 2, x) == find(b, root, 2, x));
        }
    }
}

/// A table that maps nothing has no 1G pages.
pub proof fn lemma_no_gib_pages(pm: PhysMem, root: u64)
    requires
        forall|va: u64| #[trigger] find(pm, root, 2, va) is None,
    ensures
        no_gib_pages(pm, root),
{
    assert forall|va: u64| va < VA_END implies !#[trigger] blocked(pm, root, 2, va, 1) by {
        lemma_gib(pm, root, va);
        assert(find(pm, root, 2, va) is None);
    }
}

/// Builds the kernel's own table: its root, and the `satp` value that turns
/// paging on. Pages for the tables must be there.
pub fn init_kernel_paging(
    pm: &mut PhysMem,
    regions: &mut KernelRegions,
    ram_start: u64,
    ram_end: u64,
    mmio_start: u64,
    mmio_end: u64,
) -> (r: (u64, u64))
    requires
        old(pm).wf(),
        ram_end <= VA_END,
        mmio_end <= VA_END,
        old(pm).free@.len() >= 1 + gibs(ram_start, ram_end) + gibs(mmio_start, mmio_end),
    ensures
        table_wf(*final(pm), r.0),
        r.1 == 0x8000_0000_0000_0000 | (r.0 >> 12),
        *final(regions) == (KernelRegions { ram_start, ram_end, mmio_start, mmio_end }),
        forall|b: u64|
            b < VA_END ==> #[trigger] find(*final(pm), r.0, 2, b) == (if in_chunks(
                b,
                ram_start,
                ram_end,
            ) || in_chunks(b, mmio_start, mmio_end) {
                Some((kernel_pte(b), 1int))
            } else {
                None
            }),
        forall|p: u64|
            old(pm).is_page(p as int) && !#[trigger] old(pm).is_free(p as int) ==> final(pm).page(
                p as int,
            ) == old(pm).page(p as int),
        r.0 == old(pm).free@.last(),
        pages_taken(*old(pm), *final(pm)),
{
    let ghost a = *pm;
    record_kernel_regions(regions, ram_start, ram_end, mmio_start, mmio_end);
    match alloc_table(pm) {
        Some(root) => {
            let ghost b = *pm;
            proof {
                lemma_no_gib_pages(b, root);
                lemma_kept_root(a, b, root);
            }
            map_kernel_regions(pm, regions, root);
            proof {
                lemma_taken_one(a, Some(root), b);
                lemma_taken_more(a, b, *pm);
                assert forall|p: u64|
                    a.is_page(p as int) && !#[trigger] a.is_free(p as int) implies pm.page(p as int)
                    == a.page(p as int) by {
                    assert(is_data(b, root, p));
                }
            }
            (root, satp_of(root))
        },
        None => (0, 0),
    }
}

/// Every address of a kernel region translates to itself, and is found with all
/// rights but the user's.
pub proof fn kernel_is_identity_mapped(pm: PhysMem, root: u64, b: u64)
    requires
        b < VA_END,
        find(pm, root, 2, b) == Some((kernel_pte(b), 1int)),
    ensures
        walk(pm, root, b) == Some(b),
        looked_up(find(pm, root, 2, b), b) == Some((b, kernel_pte(b))),
        kernel_pte(b) & 0x10 == 0,
        kernel_pte(b) & 0xe == 0xe,
{
    let c = chunk(b as int) as u64;
    lemma_mapping(c, 0xce);
    lemma_bits();
    assert((((c >> 12) << 10) | (0xceu64 | 0xc1)) & 0x10 == 0 && (((c >> 12) << 10) | (0xceu64 | 0xc1))
        & 0xe
        == 0xe && b & !0x1f_ffffu64 == b / 0x20_0000 * 0x20_0000 && (b & !0x1f_ffffu64) | (b & 0x1f_ffff)
        == b) by (bit_vector);
}

/// In a table that maps nothing every page can be mapped with two free pages
/// for the tables below the root; a page that was mapped is found, with its
/// address and flags.
pub proof fn mapped_is_found(a: PhysMem, b: PhysMem, root: u64, va: u64, pa: u64, flags: u64)
    requires
        forall|x: u64| #[trigger] find(a, root, 2, x) is None,
        a.free@.len() >= 2,
        pa % 4096 == 0,
        flags < 0x400,
        entry_set(a, b, root, va, 0, leaf_pte(pa, flags | 1)),
    ensures
        can_map(a, root, va),
        looked_up(find(b, root, 2, va), va) == Some((pa, leaf_pte(pa, flags | 1))),
        leaf_pte(pa, flags | 1) & 0x3ff == flags | 1,
{
    lemma_blocked(a, root, 2, va);
    lemma_missing(a, root, 2, va, 2);
    assert(find(a, root, 2, va) is None);
    assert((flags | 1) < 0x400 && (flags | 1) & 1 != 0) by (bit_vector)
        requires
            flags < 0x400,
    ;
    lemma_leaf_pte(pa, flags | 1);
    assert(same_entry(va, va, 0));
    assert(find(b, root, 2, va) == find(b, root, 2, va));
}

/// Where nothing maps an address, replacing its flags does nothing: it is still
/// not found.
pub proof fn absent_stays_absent(a: PhysMem, b: PhysMem, root: u64, va: u64, r: bool, flags: u64)
    requires
        find(a, root, 2, va) is None,
        match find(a, root, 2, va) {
            Some((e, lvl)) => r && entry_set(a, b, root, va, lvl, reflagged(e, flags)),
            None => !r && b == a,
        },
    ensures
        !r,
        looked_up(find(b, root, 2, va), va) is None,
{
}

} // verus!
