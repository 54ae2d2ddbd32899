//! A page table as an object, identified by its root page.

use vstd::prelude::*;
use crate::pmm::{
    alloc_page, alloc_post, lemma_taken_more, lemma_taken_none, pages_taken, PhysMem,
};
use crate::sv39::{
    addr, blocked, descend, entry, entry_set, find, find_leaf, idx, leaf, leaf_pte,
    lemma_bits, lemma_empty_table, lemma_leaf_pte, lemma_missing_by_reach, lemma_reach_same, link,
    missing, offset, offset_of, pages_kept, reach, same_entry, set_entry, table_wf, tables_stay,
    valid, walk, PTE_A, PTE_D, PTE_R, PTE_V, PTE_W, PTE_X,
};

verus! {

pub const PAGE_SIZE: u64 = 4096;

#[derive(Clone, Copy)]
pub struct PageTable {
    pub root: u64,
}

/// The entry that `map_at` writes.
pub open spec fn mapping(pa: u64, flags: u64) -> u64 {
    leaf_pte(pa, flags | 0xc1)
}

pub proof fn lemma_mapping(pa: u64, flags: u64)
    ensures
        valid(mapping(pa, flags)),
        leaf(mapping(pa, flags)) == leaf(flags),
        flags < 0x400 ==> addr(mapping(pa, flags)) == pa - pa % 4096,
        ((pa >> 12) << 10) | flags | 1 | 0x40 | 0x80 == mapping(pa, flags),
        flags | 0x40 | 0x80 | 1 | 1 == flags | 0xc1,
{
    assert((flags < 0x400 ==> (flags | 0xc1) < 0x400) && (flags | 0xc1) & 1 != 0 && (flags | 0xc1)
        & 0xe == flags & 0xe && flags | 0x40 | 0x80 | 1 | 1 == flags | 0xc1 && ((pa >> 12) << 10)
        | flags | 1 | 0x40 | 0x80 == ((pa >> 12) << 10) | (flags | 0xc1)) by (bit_vector);
    lemma_leaf_pte(pa, flags | 0xc1);
}

/// What removing a 4K mapping comes to.
pub open spec fn unmap_post(a: PhysMem, root: u64, va: u64, r: Option<u64>, b: PhysMem) -> bool {
    match find(a, root, 2, va) {
        Some((e, lvl)) => if lvl == 0 {
            r == Some(addr(e)) && entry_set(a, b, root, va, 0, 0)
        } else {
            r is None && b == a
        },
        None => r is None && b == a,
    }
}

impl PageTable {
    /// A table without mappings. There must be a free page.
    pub fn new(pm: &mut PhysMem) -> (r: PageTable)
        requires
            old(pm).wf(),
            old(pm).free@.len() > 0,
        ensures
            table_wf(*final(pm), r.root),
            alloc_post(*old(pm), Some(r.root), *final(pm)),
            forall|va: u64| #[trigger] find(*final(pm), r.root, 2, va) is None,
    {
        match alloc_page(pm) {
            Some(root) => {
                proof {
                    lemma_empty_table(*pm, root);
                }
                PageTable { root }
            },
            None => PageTable { root: 0 },
        }
    }

    /// Maps `va` to `pa` at a level (0 for 4K, 1 for 2M, 2 for 1G pages). No
    /// larger page may be in the way, and pages for missing tables must be
    /// there.
    pub fn map_at(&self, pm: &mut PhysMem, va: u64, pa: u64, flags: u64, level: usize)
        requires
            table_wf(*old(pm), self.root),
            level <= 2,
            level > 0 ==> leaf(flags),
            !blocked(*old(pm), self.root, 2, va, level as int),
            old(pm).free@.len() >= missing(*old(pm), self.root, 2, va, level as int),
        ensures
            table_wf(*final(pm), self.root),
            entry_set(
                *old(pm),
                *final(pm),
                self.root,
                va,
                level as int,
                mapping(pa, flags),
            ),
            pages_kept(*old(pm), *final(pm), self.root),
            level == 0 ==> tables_stay(*old(pm), *final(pm), self.root),
            final(pm).free@.len() == old(pm).free@.len() - missing(
                *old(pm),
                self.root,
                2,
                va,
                level as int,
            ),
            pages_taken(*old(pm), *final(pm)),
    {
        match descend(pm, self.root, va, level) {
            Some(u) => {
                proof {
                    lemma_mapping(pa, flags);
                }
                let e: u64 = ((pa >> 12) << 10) | flags | PTE_V | PTE_A | PTE_D;
                let ghost b = *pm;
                set_entry(pm, self.root, u, va, level, e);
                proof {
                    lemma_taken_more(*old(pm), b, *pm);
                }
            },
            None => {},
        }
    }

    /// Maps a 4K page.
    pub fn map(&self, pm: &mut PhysMem, va: u64, pa: u64, flags: u64)
        requires
            table_wf(*old(pm), self.root),
            !blocked(*old(pm), self.root, 2, va, 0),
            old(pm).free@.len() >= missing(*old(pm), self.root, 2, va, 0),
        ensures
            table_wf(*final(pm), self.root),
            entry_set(*old(pm), *final(pm), self.root, va, 0, mapping(pa, flags)),
            pages_kept(*old(pm), *final(pm), self.root),
            tables_stay(*old(pm), *final(pm), self.root),
            final(pm).free@.len() == old(pm).free@.len() - missing(
                *old(pm),
                self.root,
                2,
                va,
                0,
            ),
            pages_taken(*old(pm), *final(pm)),
    {
        self.map_at(pm, va, pa, flags, 0);
    }

    /// Removes a 4K mapping, if there is one, and gives the page it led to. A
    /// larger page stays.
    pub fn unmap(&self, pm: &mut PhysMem, va: u64) -> (r: Option<u64>)
        requires
            table_wf(*old(pm), self.root),
        ensures
            table_wf(*final(pm), self.root),
            unmap_post(*old(pm), self.root, va, r, *final(pm)),
            pages_kept(*old(pm), *final(pm), self.root),
            pages_taken(*old(pm), *final(pm)),
            final(pm).free@ == old(pm).free@,
    {
        proof {
            lemma_taken_none(*pm, *pm);
            lemma_end(*pm, self.root, 2, va);
        }
        match find_leaf(pm, self.root, va) {
            None => None,
            Some((e, lvl)) => {
                if lvl > 0 {
                    return None;
                }
                proof {
                    lemma_bits();
                }
                match crate::sv39::find_end(pm, self.root, va) {
                    Some((u, l)) => {
                        set_entry(pm, self.root, u, va, l, 0);
                    },
                    None => {},
                }
                Some((e >> 10) << 12)
            },
        }
    }

    /// The physical address of `va`, under pages of any size.
    pub fn translate(&self, pm: &PhysMem, va: u64) -> (r: Option<u64>)
        requires
            table_wf(*pm, self.root),
        ensures
            r == walk(*pm, self.root, va),
    {
        match find_leaf(pm, self.root, va) {
            None => None,
            Some((e, lvl)) => {
                proof {
                    lemma_bits();
                }
                if e & (PTE_R | PTE_W | PTE_X) != 0 {
                    Some(((e >> 10) << 12) | offset_of(va, lvl))
                } else {
                    None
                }
            },
        }
    }

    /// The value of the `satp` register that selects this table.
    pub fn satp(&self) -> (r: u64)
        ensures
            r == 0x8000_0000_0000_0000 | (self.root >> 12),
    {
        0x8000_0000_0000_0000 | (self.root >> 12)
    }
}

/// The way of an address ends at its leaf, if it has one; without one it ends
/// nowhere or at an entry that is not valid.
pub proof fn lemma_end(pm: PhysMem, t: u64, lvl: int, va: u64)
    requires
        0 <= lvl,
    ensures
        match (crate::sv39::end_of(pm, t, lvl, va), find(pm, t, lvl, va)) {
            (Some((u, l)), Some((e, k))) => l == k && e == entry(pm, u, idx(va, l)) && valid(e),
            (Some((u, l)), None) => l == 0 && !valid(entry(pm, u, idx(va, l))),
            (None, f) => f is None,
        },
    decreases lvl,
{
    let e = entry(pm, t, idx(va, lvl));
    if lvl > 0 && valid(e) && !leaf(e) {
        lemma_end(pm, addr(e), lvl - 1, va);
    }
}

// ---- Ranges -----------------------------------------------------------------
/// Addresses in one 2M, or 1G, region select the same entries above it, and
/// only addresses whose page numbers agree in 27 bits select the same page.
proof fn lemma_regions(a: u64, b: u64)
    ensures
        a as int / 0x4000_0000 == b as int / 0x4000_0000 ==> idx(a, 2) == idx(b, 2),
        a as int / 0x20_0000 == b as int / 0x20_0000 ==> idx(a, 2) == idx(b, 2) && idx(a, 1)
            == idx(b, 1),
        same_entry(a, b, 0) ==> (a as int / 4096) % 0x800_0000 == (b as int / 4096) % 0x800_0000,
{
    assert((a / 0x4000_0000 == b / 0x4000_0000 ==> (a >> 30) & 0x1ff == (b >> 30) & 0x1ff) && (a
        / 0x20_0000 == b / 0x20_0000 ==> (a >> 30) & 0x1ff == (b >> 30) & 0x1ff && (a >> 21) & 0x1ff
        == (b >> 21) & 0x1ff) && ((a >> 30) & 0x1ff == (b >> 30) & 0x1ff && (a >> 21) & 0x1ff == (b
        >> 21) & 0x1ff && (a >> 12) & 0x1ff == (b >> 12) & 0x1ff ==> (a / 4096) % 0x800_0000 == (b
        / 4096) % 0x800_0000)) by (bit_vector);
    if same_entry(a, b, 0) {
        assert(idx(a, 0) == idx(b, 0));
        assert(idx(a, 1) == idx(b, 1));
        assert(idx(a, 2) == idx(b, 2));
    }
}

/// An address is blocked where its way ends at a large page.
pub proof fn lemma_blocked(pm: PhysMem, t: u64, lvl: int, va: u64)
    requires
        0 <= lvl,
    ensures
        blocked(pm, t, lvl, va, 0) == (find(pm, t, lvl, va) is Some && (find(
            pm,
            t,
            lvl,
            va,
        )->0).1 > 0),
    decreases lvl,
{
    let e = entry(pm, t, idx(va, lvl));
    if lvl > 0 && link(e) {
        lemma_blocked(pm, addr(e), lvl - 1, va);
    }
}

/// A way that gets to a level has no table missing above it.
pub proof fn lemma_missing(pm: PhysMem, t: u64, lvl: int, va: u64, stop: int)
    requires
        0 <= stop <= lvl,
    ensures
        0 <= missing(pm, t, lvl, va, 0) <= lvl,
        reach(pm, t, lvl, va, stop) is Some ==> missing(pm, t, lvl, va, 0) <= stop,
    decreases lvl,
{
    let e = entry(pm, t, idx(va, lvl));
    if lvl > 0 && link(e) {
        if stop <= lvl - 1 {
            lemma_missing(pm, addr(e), lvl - 1, va, stop);
        } else {
            lemma_missing(pm, addr(e), lvl - 1, va, 0);
        }
    }
}

/// The address of page `k` of a range that starts at `va`.
pub open spec fn page_at(va: u64, k: int) -> u64 {
    (va + 4096 * k) as u64
}

/// How many pages a range of `size` bytes takes.
pub open spec fn page_count(size: u64) -> int {
    (size + 4095) / 4096
}

/// How many tables page `k` of a range lacks, once the page before it is
/// mapped: none in one 2M region with that page, and in one 1G region with it
/// only the last.
pub open spec fn needs(pm: PhysMem, root: u64, va: u64, k: int) -> int {
    let m = missing(pm, root, 2, page_at(va, k), 0);
    let prev = page_at(va, k - 1) as int;
    let cur = page_at(va, k) as int;
    if k == 0 {
        m
    } else if prev / 0x20_0000 == cur / 0x20_0000 {
        0
    } else if prev / 0x4000_0000 == cur / 0x4000_0000 && m > 1 {
        1
    } else {
        m
    }
}

/// How many tables the first `n` pages of a range lack.
pub open spec fn missing_tables(pm: PhysMem, root: u64, va: u64, n: int) -> int
    decreases n,
{
    if n <= 0 {
        0
    } else {
        missing_tables(pm, root, va, n - 1) + needs(pm, root, va, n - 1)
    }
}

pub proof fn lemma_tables_grow(pm: PhysMem, root: u64, va: u64, k: int, n: int)
    requires
        0 <= k <= n,
    ensures
        0 <= missing_tables(pm, root, va, k) <= missing_tables(pm, root, va, n),
    decreases n,
{
    if k < n {
        lemma_tables_grow(pm, root, va, k, n - 1);
        lemma_missing(pm, root, 2, page_at(va, n - 1), 2);
    } else if k > 0 {
        lemma_tables_grow(pm, root, va, k - 1, n - 1);
        lemma_missing(pm, root, 2, page_at(va, n - 1), 2);
    }
}

/// A leaf has a level, and the tables down to it are there.
proof fn lemma_found_above(pm: PhysMem, t: u64, lvl: int, va: u64, stop: int)
    requires
        0 <= stop <= lvl,
        find(pm, t, lvl, va) is Some,
    ensures
        0 <= (find(pm, t, lvl, va)->0).1 <= lvl,
        (find(pm, t, lvl, va)->0).1 <= stop ==> reach(pm, t, lvl, va, stop) is Some,
    decreases lvl,
{
    let e = entry(pm, t, idx(va, lvl));
    if lvl > 0 && !leaf(e) {
        if stop <= lvl - 1 {
            lemma_found_above(pm, addr(e), lvl - 1, va, stop);
        } else {
            lemma_found_above(pm, addr(e), lvl - 1, va, 0);
        }
    }
}

/// Addresses that agree in their entries down to a leaf lead to the same leaf.
proof fn lemma_found_same(pm: PhysMem, t: u64, lvl: int, a: u64, b: u64, stop: int)
    requires
        0 <= stop <= lvl <= 2,
        forall|l: int| stop <= l <= lvl ==> #[trigger] idx(a, l) == idx(b, l),
        find(pm, t, lvl, a) is Some,
        (find(pm, t, lvl, a)->0).1 >= stop,
    ensures
        find(pm, t, lvl, b) == find(pm, t, lvl, a),
    decreases lvl,
{
    let e = entry(pm, t, idx(a, lvl));
    assert(idx(a, lvl) == idx(b, lvl));
    if lvl > 0 && !leaf(e) {
        lemma_found_above(pm, addr(e), lvl - 1, a, 0);
        lemma_found_same(pm, addr(e), lvl - 1, a, b, stop);
    }
}

/// The tables that page `k` of a range still lacks, once the page before it is
/// there, are those that it was counted to lack.
pub proof fn lemma_tables_step(a: PhysMem, b: PhysMem, root: u64, va: u64, k: int)
    requires
        0 <= k,
        va + 4096 * (k + 1) <= u64::MAX + 1,
        k > 0 ==> find(b, root, 2, page_at(va, k - 1)) is Some,
        !blocked(a, root, 2, page_at(va, k), 0),
        !blocked(b, root, 2, page_at(va, k), 0),
        tables_stay(a, b, root),
    ensures
        missing(b, root, 2, page_at(va, k), 0) <= needs(a, root, va, k),
        0 <= needs(a, root, va, k),
{
    let cur = page_at(va, k);
    lemma_missing(a, root, 2, cur, 2);
    lemma_missing_by_reach(a, root, cur);
    lemma_missing_by_reach(b, root, cur);
    assert(missing(b, root, 2, cur, 0) <= missing(a, root, 2, cur, 0)) by {
        assert(reach(a, root, 2, cur, 0) is Some ==> reach(b, root, 2, cur, 0) is Some);
        assert(reach(a, root, 2, cur, 1) is Some ==> reach(b, root, 2, cur, 1) is Some);
    }
    lemma_blocked(b, root, 2, cur);
    if k > 0 {
        let prev = page_at(va, k - 1);
        lemma_found_above(b, root, 2, prev, 0);
        lemma_found_above(b, root, 2, prev, 1);
        lemma_regions(prev, cur);
        if prev as int / 0x20_0000 == cur as int / 0x20_0000 {
            assert forall|l: int| 0 < l <= 2 implies #[trigger] idx(prev, l) == idx(cur, l) by {}
            if (find(b, root, 2, prev)->0).1 >= 1 {
                lemma_found_same(b, root, 2, prev, cur, 1);
            }
            lemma_reach_same(b, root, 2, prev, cur, 0);
        } else if prev as int / 0x4000_0000 == cur as int / 0x4000_0000 {
            assert forall|l: int| 1 < l <= 2 implies #[trigger] idx(prev, l) == idx(cur, l) by {}
            if (find(b, root, 2, prev)->0).1 >= 2 {
                lemma_found_same(b, root, 2, prev, cur, 2);
            }
            lemma_reach_same(b, root, 2, prev, cur, 1);
        }
    }
}

/// The first `n` pages of the range are mapped one by one; all other addresses
/// lead where they did.
pub open spec fn range_mapped(
    a: PhysMem,
    b: PhysMem,
    root: u64,
    va: u64,
    pa: u64,
    n: int,
    flags: u64,
) -> bool {
    forall|x: u64| #[trigger]
        find(b, root, 2, x) == (if exists|k: int|
            0 <= k < n && same_entry(#[trigger] page_at(va, k), x, 0) {
            let k = choose|k: int| 0 <= k < n && same_entry(#[trigger] page_at(va, k), x, 0);
            Some((mapping((pa + 4096 * k) as u64, flags), 0int))
        } else {
            find(a, root, 2, x)
        })
}

/// Two pages of a range are told apart by their entries.
pub proof fn lemma_pages_differ(va: u64, n: int, j: int, k: int, x: u64)
    requires
        0 <= j < n,
        0 <= k < n,
        n <= 0x800_0000,
        va + 4096 * n <= u64::MAX,
        same_entry(page_at(va, j), x, 0),
        same_entry(page_at(va, k), x, 0),
    ensures
        j == k,
{
    let a = page_at(va, j);
    let b = page_at(va, k);
    assert(same_entry(a, b, 0)) by {
        assert forall|l: int| 0 <= l <= 2 implies #[trigger] idx(a, l) == idx(b, l) by {
            assert(idx(a, l) == idx(x, l));
            assert(idx(b, l) == idx(x, l));
        }
    }
    lemma_regions(a, b);
    assert(a as int / 4096 == va as int / 4096 + j);
    assert(b as int / 4096 == va as int / 4096 + k);
}

impl PageTable {
    /// Maps a range page by page. No large page may be in the way, and pages
    /// for the missing tables must be there.
    #[verifier::loop_isolation(false)]
    #[verifier::rlimit(30)]
    pub fn map_range(&self, pm: &mut PhysMem, va: u64, pa: u64, size: u64, flags: u64)
        requires
            table_wf(*old(pm), self.root),
            size <= 0x80_0000_0000,
            va + 4096 * page_count(size) <= u64::MAX,
            pa + 4096 * page_count(size) <= u64::MAX,
            forall|k: int|
                0 <= k < page_count(size) ==> !blocked(
                    *old(pm),
                    self.root,
                    2,
                    #[trigger] page_at(va, k),
                    0,
                ),
            old(pm).free@.len() >= missing_tables(*old(pm), self.root, va, page_count(size)),
        ensures
            table_wf(*final(pm), self.root),
            pages_kept(*old(pm), *final(pm), self.root),
            pages_taken(*old(pm), *final(pm)),
            old(pm).free@.len() - final(pm).free@.len() <= missing_tables(
                *old(pm),
                self.root,
                va,
                page_count(size),
            ),
            range_mapped(*old(pm), *final(pm), self.root, va, pa, page_count(size), flags),
    {
        let ghost a = *pm;
        let ghost n = page_count(size);
        let mut off: u64 = 0;
        let ghost mut k: int = 0;
        proof {
            lemma_taken_none(a, a);
        }
        while off < size
            invariant
                off == 4096 * k,
                0 <= k <= n,
                table_wf(*pm, self.root),
                range_mapped(a, *pm, self.root, va, pa, k, flags),
                pages_kept(a, *pm, self.root),
                tables_stay(a, *pm, self.root),
                pages_taken(a, *pm),
                a.free@.len() - pm.free@.len() <= missing_tables(a, self.root, va, k),
                k > 0 ==> find(*pm, self.root, 2, page_at(va, k - 1)) is Some,
            decreases n - k,
        {
            let ghost cur = page_at(va, k);
            let ghost b = *pm;
            proof {
                assert(k < n);
                assert(cur == va + off);
                // No large page is in the way.
                lemma_blocked(a, self.root, 2, cur);
                lemma_blocked(b, self.root, 2, cur);
                assert(!blocked(a, self.root, 2, page_at(va, k), 0));
                assert(find(b, self.root, 2, cur) == find(b, self.root, 2, cur));
                // The tables that are missing are accounted for.
                lemma_tables_step(a, b, self.root, va, k);
                lemma_tables_grow(a, self.root, va, k + 1, n);
            }
            self.map(pm, va + off, pa + off, flags);
            proof {
                lemma_taken_more(a, b, *pm);
                let e = mapping((pa + 4096 * k) as u64, flags);
                lemma_mapping((pa + 4096 * k) as u64, flags);
                assert forall|x: u64| #[trigger]
                    find(*pm, self.root, 2, x) == (if exists|j: int|
                        0 <= j < k + 1 && same_entry(#[trigger] page_at(va, j), x, 0) {
                        let j = choose|j: int|
                            0 <= j < k + 1 && same_entry(#[trigger] page_at(va, j), x, 0);
                        Some((mapping((pa + 4096 * j) as u64, flags), 0int))
                    } else {
                        find(a, self.root, 2, x)
                    }) by {
                    assert(find(b, self.root, 2, x) == find(b, self.root, 2, x));
                    if same_entry(cur, x, 0) {
                        assert(same_entry(page_at(va, k), x, 0));
                        let j = choose|j: int|
                            0 <= j < k + 1 && same_entry(#[trigger] page_at(va, j), x, 0);
                        lemma_pages_differ(va, n, j, k, x);
                    } else if exists|j: int|
                        0 <= j < k && same_entry(#[trigger] page_at(va, j), x, 0) {
                        let i = choose|j: int|
                            0 <= j < k && same_entry(#[trigger] page_at(va, j), x, 0);
                        assert(0 <= i < k + 1 && same_entry(page_at(va, i), x, 0));
                        let j = choose|j: int|
                            0 <= j < k + 1 && same_entry(#[trigger] page_at(va, j), x, 0);
                        lemma_pages_differ(va, n, i, j, x);
                    }
                }
                assert(same_entry(cur, cur, 0));
                assert(find(*pm, self.root, 2, cur) == find(*pm, self.root, 2, cur));
                k = k + 1;
            }
            off = off + PAGE_SIZE;
        }
        assert(k == n);
    }
}

// ---- Laws -------------------------------------------------------------------
/// A mapped address translates to where it was mapped, with its offset; every
/// address of another page translates as before.
pub proof fn mapped_translates(
    a: PhysMem,
    b: PhysMem,
    root: u64,
    va: u64,
    pa: u64,
    flags: u64,
    level: int,
    x: u64,
)
    requires
        0 <= level <= 2,
        pa % 4096 == 0,
        flags < 0x400,
        leaf(flags),
        entry_set(a, b, root, va, level, mapping(pa, flags)),
    ensures
        same_entry(va, x, level) ==> walk(b, root, x) == Some(pa | offset(x, level)),
        !same_entry(va, x, level) ==> walk(b, root, x) == walk(a, root, x),
{
    lemma_mapping(pa, flags);
    assert(find(b, root, 2, x) == find(b, root, 2, x));
}

/// An unmapped page does not translate any more; every other page does as
/// before.
pub proof fn unmapped_is_gone(a: PhysMem, b: PhysMem, root: u64, va: u64, x: u64)
    requires
        entry_set(a, b, root, va, 0, 0),
    ensures
        same_entry(va, x, 0) ==> walk(b, root, x) is None,
        !same_entry(va, x, 0) ==> walk(b, root, x) == walk(a, root, x),
{
    lemma_bits();
    assert(find(b, root, 2, x) == find(b, root, 2, x));
}

/// Addresses of one page select the same entries; addresses whose page numbers
/// differ in their 27 bits do not.
pub proof fn lemma_same_page(a: u64, b: u64)
    ensures
        a as int / 4096 == b as int / 4096 ==> same_entry(a, b, 0),
        (a as int / 4096) % 0x800_0000 != (b as int / 4096) % 0x800_0000 ==> !same_entry(a, b, 0),
{
    lemma_regions(a, b);
    assert(a / 4096 == b / 4096 ==> (a >> 12) & 0x1ff == (b >> 12) & 0x1ff && (a >> 21) & 0x1ff == (
    b >> 21) & 0x1ff && (a >> 30) & 0x1ff == (b >> 30) & 0x1ff) by (bit_vector);
    if a as int / 4096 == b as int / 4096 {
        assert forall|k: int| 0 <= k <= 2 implies #[trigger] idx(a, k) == idx(b, k) by {
            assert(k == 0 || k == 1 || k == 2);
        }
    }
}

/// Mapping a page leaves the translation of every other page alone, whatever the
/// flags.
pub proof fn mapping_keeps_others(a: PhysMem, b: PhysMem, root: u64, va: u64, pa: u64, flags: u64, other: u64)
    requires
        entry_set(a, b, root, va, 0, mapping(pa, flags)),
        (va as int / 4096) % 0x800_0000 != (other as int / 4096) % 0x800_0000,
    ensures
        walk(b, root, other) == walk(a, root, other),
{
    lemma_same_page(va, other);
    assert(find(b, root, 2, other) == find(a, root, 2, other));
}

/// Unmapping a page that was mapped gives the page it was mapped to; afterwards
/// it does not translate, and unmapping it again finds nothing.
pub proof fn unmapping_undoes_mapping(
    a: PhysMem,
    b: PhysMem,
    c: PhysMem,
    d: PhysMem,
    root: u64,
    va: u64,
    pa: u64,
    flags: u64,
    first: Option<u64>,
    second: Option<u64>,
)
    requires
        pa % 4096 == 0,
        flags < 0x400,
        entry_set(a, b, root, va, 0, mapping(pa, flags)),
        unmap_post(b, root, va, first, c),
        unmap_post(c, root, va, second, d),
    ensures
        first == Some(pa),
        walk(c, root, va) is None,
        second is None,
        d == c,
{
    lemma_mapping(pa, flags);
    lemma_bits();
    assert(same_entry(va, va, 0));
    assert(find(b, root, 2, va) == Some((mapping(pa, flags), 0int)));
    assert(find(c, root, 2, va) is None);
}

/// Every byte of a mapped range translates to its place, up to the end of the
/// last page; pages outside the range translate as before.
pub proof fn range_translates(
    a: PhysMem,
    b: PhysMem,
    root: u64,
    va: u64,
    pa: u64,
    size: u64,
    flags: u64,
    x: u64,
)
    requires
        va % 4096 == 0,
        pa % 4096 == 0,
        size <= 0x80_0000_0000,
        va + 4096 * page_count(size) <= 0x80_0000_0000,
        pa + 4096 * page_count(size) <= u64::MAX,
        flags < 0x400,
        leaf(flags),
        range_mapped(a, b, root, va, pa, page_count(size), flags),
    ensures
        va <= x < va + 4096 * page_count(size) ==> walk(b, root, x) == Some((pa + (x - va)) as u64),
        !(va <= x < va + 4096 * page_count(size)) && x < 0x80_0000_0000 ==> walk(b, root, x) == walk(
            a,
            root,
            x,
        ),
{
    let n = page_count(size);
    assert(find(b, root, 2, x) == find(b, root, 2, x));
    if va <= x < va + 4096 * n {
        let k = (x - va) as int / 4096;
        let p = page_at(va, k);
        assert(x as int / 4096 == p as int / 4096);
        lemma_same_page(p, x);
        assert(0 <= k < n && same_entry(page_at(va, k), x, 0));
        let j = choose|j: int| 0 <= j < n && same_entry(#[trigger] page_at(va, j), x, 0);
        lemma_pages_differ(va, n, j, k, x);
        let q = (pa + 4096 * k) as u64;
        lemma_mapping(q, flags);
        let o = x & 0xfff;
        assert(x & 0xfff == x % 4096 && q | (x & 0xfff) == q + (x & 0xfff)) by (bit_vector)
            requires
                q % 4096 == 0,
        ;
        assert(offset(x, 0) == o);
        assert(q + x % 4096 == pa + (x - va));
    } else if x < 0x80_0000_0000 {
        if exists|k: int| 0 <= k < n && same_entry(#[trigger] page_at(va, k), x, 0) {
            let k = choose|k: int| 0 <= k < n && same_entry(#[trigger] page_at(va, k), x, 0);
            let p = page_at(va, k);
            lemma_same_page(p, x);
            assert(p as int / 4096 == x as int / 4096);
        }
    }
}

} // verus!
