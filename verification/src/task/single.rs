//! The memory of the one task of a kernel without others.

use vstd::prelude::*;
use crate::page_table::{
    lemma_blocked, lemma_mapping, lemma_missing, lemma_tables_grow, lemma_tables_step, mapping,
    missing_tables, page_at, PageTable,
};
use crate::pmm::{
    alloc_page, lemma_taken_more, lemma_taken_none, lemma_taken_one, pages_taken, zero_page, PhysMem,
};
use crate::sv39::{
    addr, blocked, find, is_data, leaf, lemma_find_same, lemma_kept_alloc, lemma_root_place,
    lemma_tree_alloc, missing, pages_kept, reach, same_entry, table_wf, tables_stay, tree, walk,
    Place, PTE_U,
};

verus! {

/// Where mappings without a place of their own begin.
pub const MMAP_BASE: u64 = 0x20_0000_0000;

/// Readable, writable and executable.
pub const PERM_ALL: u64 = 0xe;

pub const MAP_FIXED: i32 = 0x10;

pub const MAP_ANONYMOUS: i32 = 0x20;

pub struct Task {
    pub pt: PageTable,
    pub brk: u64,
    pub mmap_top: u64,
    pub tid_address: usize,
}

/// The registers with which user mode is entered.
#[derive(Clone, Copy, PartialEq, Eq, Debug)]
pub struct EntryContext {
    pub x: [u64; 32],
    pub sstatus: u64,
    pub sepc: u64,
}

/// The registers that start a program at `entry`: all are zero but the stack
/// pointer. `sstatus` is changed to return to user mode (bit 8), with interrupts
/// (bit 5) and access of the kernel to user memory (bit 18).
pub fn enter_user(sstatus: u64, entry: u64, user_sp: u64) -> (r: EntryContext)
    ensures
        r.x@ == Seq::new(32, |i: int| 0u64).update(2, user_sp),
        r.sstatus == (sstatus & !0x100) | 0x20 | 0x4_0000,
        r.sepc == entry,
{
    let mut x: [u64; 32] = [0; 32];
    x[2] = user_sp;
    proof {
        assert(x@ =~= Seq::new(32, |i: int| 0u64).update(2, user_sp));
    }
    EntryContext { x, sstatus: (sstatus & !0x100) | 0x20 | 0x4_0000, sepc: entry }
}

/// The first page of a range.
pub open spec fn first_page(va: u64) -> u64 {
    (va - va % 4096) as u64
}

/// How many pages a range touches.
pub open spec fn touched(va: u64, size: u64) -> int {
    (va + size + 4095) / 4096 - va as int / 4096
}

/// Page `k` of the range is the one of address `x`.
pub open spec fn page_of(va: u64, k: int, x: u64) -> bool {
    same_entry(page_at(first_page(va), k), x, 0)
}

/// Addresses that led somewhere lead there still.
pub open spec fn ways_kept(a: PhysMem, b: PhysMem, root: u64) -> bool {
    forall|x: u64| walk(a, root, x) is Some ==> #[trigger] find(b, root, 2, x) == find(a, root, 2, x)
}

/// Outside the first `n` pages of a range nothing changed.
pub open spec fn only_range(a: PhysMem, b: PhysMem, root: u64, va: u64, n: int) -> bool {
    forall|x: u64|
        (forall|k: int| 0 <= k < n ==> !#[trigger] page_of(va, k, x)) ==> #[trigger] find(
            b,
            root,
            2,
            x,
        ) == find(a, root, 2, x)
}

/// A page that was free is in use for data and cleared.
pub open spec fn new_page(a: PhysMem, b: PhysMem, root: u64, pa: u64) -> bool {
    a.is_free(pa as int) && is_data(b, root, pa) && b.page(pa as int) == zero_page()
}

/// Each of the first `n` pages of a range leads somewhere; where it did not, it
/// leads to a page that was free and is cleared, with the permissions.
pub open spec fn range_present(a: PhysMem, b: PhysMem, root: u64, va: u64, n: int, perm: u64) -> bool {
    forall|k: int|
        0 <= k < n ==> {
            let x = #[trigger] page_at(first_page(va), k);
            &&& walk(b, root, x) is Some
            &&& walk(a, root, x) is None ==> exists|pa: u64|
                #[trigger] new_page(a, b, root, pa) && find(b, root, 2, x) == Some(
                    (mapping(pa, perm | PTE_U), 0int),
                )
        }
}

/// `f` gives each absent page of a range a frame of its own: one that was free, is
/// cleared and is mapped there. Only addresses that select the same entries share
/// one.
pub open spec fn frames_given(
    a: PhysMem,
    b: PhysMem,
    root: u64,
    va: u64,
    n: int,
    perm: u64,
    f: Map<int, u64>,
) -> bool {
    &&& forall|k: int|
        0 <= k < n && walk(a, root, #[trigger] page_at(first_page(va), k)) is None ==> new_page(
            a,
            b,
            root,
            f[k],
        ) && find(b, root, 2, page_at(first_page(va), k)) == Some((mapping(f[k], perm | PTE_U), 0int))
    &&& forall|j: int, k: int|
        0 <= j < n && 0 <= k < n && walk(a, root, #[trigger] page_at(first_page(va), j)) is None
            && walk(a, root, #[trigger] page_at(first_page(va), k)) is None && !page_of(
            va,
            j,
            page_at(first_page(va), k),
        ) ==> f[j] != f[k]
}

/// Every absent page of a range got a frame of its own.
pub open spec fn own_frames(a: PhysMem, b: PhysMem, root: u64, va: u64, n: int, perm: u64) -> bool {
    exists|f: Map<int, u64>| frames_given(a, b, root, va, n, perm, f)
}

/// How many of the first `n` pages of a range are absent.
pub open spec fn absent(pm: PhysMem, root: u64, va: u64, n: int) -> int
    decreases n,
{
    if n <= 0 {
        0
    } else {
        absent(pm, root, va, n - 1) + (if walk(pm, root, page_at(first_page(va), n - 1)) is None {
            1int
        } else {
            0
        })
    }
}

/// The free pages with which a range can be made present: one for each absent
/// page, and one for each table that is missing.
pub open spec fn pages_for(pm: PhysMem, root: u64, va: u64, n: int) -> int {
    absent(pm, root, va, n) + missing_tables(pm, root, first_page(va), n)
}

proof fn lemma_absent_grows(pm: PhysMem, root: u64, va: u64, k: int, n: int)
    requires
        0 <= k <= n,
    ensures
        0 <= absent(pm, root, va, k) <= absent(pm, root, va, n),
    decreases n,
{
    if k < n {
        lemma_absent_grows(pm, root, va, k, n - 1);
    } else if k > 0 {
        lemma_absent_grows(pm, root, va, k - 1, n - 1);
    }
}

proof fn lemma_pages_grow(pm: PhysMem, root: u64, va: u64, k: int)
    requires
        0 <= k,
    ensures
        pages_for(pm, root, va, k) <= pages_for(pm, root, va, k + 1),
{
    lemma_absent_grows(pm, root, va, k, k + 1);
    lemma_tables_grow(pm, root, first_page(va), k, k + 1);
}

/// The share of page `k` covers the page and the tables it still needs.
proof fn lemma_share(a: PhysMem, b: PhysMem, root: u64, va: u64, k: int, n: int)
    requires
        0 <= k < n,
        first_page(va) + 4096 * n <= u64::MAX + 1,
        k > 0 ==> walk(b, root, page_at(first_page(va), k - 1)) is Some,
        walk(a, root, page_at(first_page(va), k)) is None,
        !blocked(a, root, 2, page_at(first_page(va), k), 0),
        !blocked(b, root, 2, page_at(first_page(va), k), 0),
        tables_stay(a, b, root),
    ensures
        0 <= missing(b, root, 2, page_at(first_page(va), k), 0),
        1 + missing(b, root, 2, page_at(first_page(va), k), 0) <= pages_for(a, root, va, k + 1)
            - pages_for(a, root, va, k),
        pages_for(a, root, va, k + 1) <= pages_for(a, root, va, n),
{
    lemma_tables_step(a, b, root, first_page(va), k);
    lemma_missing(b, root, 2, page_at(first_page(va), k), 2);
    lemma_absent_grows(a, root, va, k + 1, n);
    lemma_tables_grow(a, root, first_page(va), k + 1, n);
}

/// What holds when the first `k` pages of a range have been made present.
#[verifier::opaque]
spec fn so_far(a: PhysMem, b: PhysMem, root: u64, va: u64, k: int, perm: u64) -> bool {
    &&& ways_kept(a, b, root)
    &&& only_range(a, b, root, va, k)
    &&& range_present(a, b, root, va, k, perm)
    &&& own_frames(a, b, root, va, k, perm)
    &&& pages_kept(a, b, root)
    &&& tables_stay(a, b, root)
    &&& b.free@.len() + pages_for(a, root, va, k) >= a.free@.len()
    &&& pages_taken(a, b)
}

/// There is room for page `k` of a range, where it is absent.
proof fn lemma_room(a: PhysMem, b: PhysMem, root: u64, va: u64, k: int, n: int, perm: u64)
    requires
        0 <= k < n,
        first_page(va) + 4096 * n <= u64::MAX + 1,
        so_far(a, b, root, va, k, perm),
        walk(b, root, page_at(first_page(va), k)) is None,
        a.free@.len() >= pages_for(a, root, va, n),
    ensures
        walk(a, root, page_at(first_page(va), k)) is None,
        !blocked(b, root, 2, page_at(first_page(va), k), 0),
        0 <= missing(b, root, 2, page_at(first_page(va), k), 0) < b.free@.len(),
        b.free@.len() - 1 - missing(b, root, 2, page_at(first_page(va), k), 0) + pages_for(
            a,
            root,
            va,
            k + 1,
        ) >= a.free@.len(),
{
    let cur = page_at(first_page(va), k);
    assert(walk(a, root, cur) is None && (k > 0 ==> walk(
        b,
        root,
        page_at(first_page(va), k - 1),
    ) is Some) && tables_stay(a, b, root) && b.free@.len() + pages_for(a, root, va, k)
        >= a.free@.len()) by {
        reveal(so_far);
        assert(find(b, root, 2, cur) == find(b, root, 2, cur));
        assert(k > 0 ==> page_at(first_page(va), k - 1) == page_at(first_page(va), k - 1));
    }
    lemma_blocked(a, root, 2, cur);
    if find(a, root, 2, cur) is Some && (find(a, root, 2, cur)->0).1 > 0 {
        lemma_leaf_above(a, root, 2, cur);
    }
    lemma_blocked(b, root, 2, cur);
    if find(b, root, 2, cur) is Some && (find(b, root, 2, cur)->0).1 > 0 {
        lemma_leaf_above(b, root, 2, cur);
    }
    lemma_share(a, b, root, va, k, n);
}

/// Page `k` of a range was absent and was mapped.
proof fn lemma_added(a: PhysMem, b: PhysMem, d: PhysMem, root: u64, va: u64, k: int, n: int, pa: u64, perm: u64)
    requires
        0 <= k < n,
        first_page(va) + 4096 * n <= u64::MAX + 1,
        so_far(a, b, root, va, k, perm),
        walk(b, root, page_at(first_page(va), k)) is None,
        a.free@.len() >= pages_for(a, root, va, n),
        leaf(perm),
        b.free@.len() > 0,
        pa == b.free@.last(),
        forall|x: u64| #[trigger]
            find(d, root, 2, x) == (if same_entry(page_at(first_page(va), k), x, 0) {
                Some((mapping(pa, perm | PTE_U), 0int))
            } else {
                find(b, root, 2, x)
            }),
        d.free@.len() == b.free@.len() - 1 - missing(b, root, 2, page_at(first_page(va), k), 0),
        pages_taken(b, d),
        pages_kept(b, d, root),
        tables_stay(b, d, root),
        is_data(d, root, pa),
        d.page(pa as int) == zero_page(),
    ensures
        so_far(a, d, root, va, k + 1, perm),
{
    lemma_room(a, b, root, va, k, n, perm);
    reveal(so_far);
    assert((perm | 0x10) & 0xe == perm & 0xe) by (bit_vector);
    lemma_mapping(pa, perm | PTE_U);
    assert(a.free@[b.free@.len() - 1] == pa);
    assert(a.is_free(pa as int));
    lemma_taken_more(a, b, d);
    lemma_grown(a, b, d, root, va, k, page_at(first_page(va), k), pa, perm);
    lemma_frame_added(a, b, d, root, va, k, pa, perm);
}

/// The frame that is taken for page `k` is none of those given before.
proof fn lemma_frame_added(a: PhysMem, b: PhysMem, d: PhysMem, root: u64, va: u64, k: int, pa: u64, perm: u64)
    requires
        0 <= k,
        own_frames(a, b, root, va, k, perm),
        range_present(a, b, root, va, k, perm),
        walk(b, root, page_at(first_page(va), k)) is None,
        b.is_free(pa as int),
        forall|x: u64| #[trigger]
            find(d, root, 2, x) == (if same_entry(page_at(first_page(va), k), x, 0) {
                Some((mapping(pa, perm | PTE_U), 0int))
            } else {
                find(b, root, 2, x)
            }),
        new_page(a, d, root, pa),
        pages_kept(b, d, root),
    ensures
        own_frames(a, d, root, va, k + 1, perm),
{
    let f = choose|f: Map<int, u64>| frames_given(a, b, root, va, k, perm, f);
    let g = f.insert(k, pa);
    let cur = page_at(first_page(va), k);
    assert(same_entry(cur, cur, 0));
    assert forall|j: int|
        0 <= j < k + 1 && walk(a, root, #[trigger] page_at(first_page(va), j)) is None implies new_page(
        a,
        d,
        root,
        g[j],
    ) && find(d, root, 2, page_at(first_page(va), j)) == Some((mapping(g[j], perm | PTE_U), 0int)) by {
        let x = page_at(first_page(va), j);
        if j < k {
            assert(new_page(a, b, root, f[j]));
            assert(is_data(b, root, f[j]));
            assert(is_data(d, root, f[j]));
            assert(walk(b, root, x) is Some);
            if same_entry(cur, x, 0) {
                lemma_find_entry(b, root, 2, cur, x);
            }
        }
    }
    assert forall|i: int, j: int|
        0 <= i < k + 1 && 0 <= j < k + 1 && walk(a, root, #[trigger] page_at(first_page(va), i)) is None
            && walk(a, root, #[trigger] page_at(first_page(va), j)) is None && !page_of(
            va,
            i,
            page_at(first_page(va), j),
        ) implies g[i] != g[j] by {
        if i < k && j == k {
            assert(is_data(b, root, f[i]));
        } else if i == k && j < k {
            assert(is_data(b, root, f[j]));
        } else if i == k {
            assert(same_entry(cur, cur, 0));
        }
    }
    assert(frames_given(a, d, root, va, k + 1, perm, g));
}

/// Page `k` shares the frame of an earlier page, if it was absent.
proof fn lemma_frame_there(a: PhysMem, b: PhysMem, root: u64, va: u64, k: int, perm: u64)
    requires
        0 <= k,
        own_frames(a, b, root, va, k, perm),
        only_range(a, b, root, va, k),
        walk(b, root, page_at(first_page(va), k)) is Some,
    ensures
        own_frames(a, b, root, va, k + 1, perm),
{
    let f = choose|f: Map<int, u64>| frames_given(a, b, root, va, k, perm, f);
    let cur = page_at(first_page(va), k);
    if walk(a, root, cur) is Some {
        assert forall|j: int|
            0 <= j < k + 1 && walk(a, root, #[trigger] page_at(first_page(va), j)) is None implies j
            < k by {}
        assert(frames_given(a, b, root, va, k + 1, perm, f));
    } else {
        if forall|j: int| 0 <= j < k ==> !#[trigger] page_of(va, j, cur) {
            assert(find(b, root, 2, cur) == find(a, root, 2, cur));
        }
        let m = choose|m: int| 0 <= m < k && #[trigger] page_of(va, m, cur);
        let y = page_at(first_page(va), m);
        lemma_find_entry(a, root, 2, y, cur);
        lemma_find_entry(b, root, 2, y, cur);
        assert(walk(a, root, y) is None);
        let g = f.insert(k, f[m]);
        assert(new_page(a, b, root, f[m]));
        assert forall|i: int, j: int|
            0 <= i < k + 1 && 0 <= j < k + 1 && walk(a, root, #[trigger] page_at(first_page(va), i)) is None
                && walk(a, root, #[trigger] page_at(first_page(va), j)) is None && !page_of(
                va,
                i,
                page_at(first_page(va), j),
            ) implies g[i] != g[j] by {
            let p = page_at(first_page(va), i);
            let q = page_at(first_page(va), j);
            if i < k && j == k {
                if same_entry(p, y, 0) {
                    assert(same_entry(p, cur, 0));
                }
                assert(!page_of(va, i, y));
            } else if i == k && j < k {
                if same_entry(y, q, 0) {
                    assert(same_entry(cur, q, 0));
                }
                assert(!page_of(va, m, q));
            } else if i == k {
                assert(same_entry(cur, cur, 0));
            }
        }
        assert(frames_given(a, b, root, va, k + 1, perm, g));
    }
}

/// Page `k` of a range was there already.
proof fn lemma_there(a: PhysMem, b: PhysMem, root: u64, va: u64, k: int, perm: u64)
    requires
        0 <= k,
        so_far(a, b, root, va, k, perm),
        walk(b, root, page_at(first_page(va), k)) is Some,
    ensures
        so_far(a, b, root, va, k + 1, perm),
{
    lemma_pages_grow(a, root, va, k);
    reveal(so_far);
    lemma_kept_page(a, b, root, va, k, page_at(first_page(va), k), perm);
    lemma_frame_there(a, b, root, va, k, perm);
}

impl Task {
    pub fn new(pt: PageTable) -> (r: Task)
        ensures
            r == (Task { pt, brk: 0, mmap_top: MMAP_BASE, tid_address: 0 }),
    {
        Task { pt, brk: 0, mmap_top: MMAP_BASE, tid_address: 0 }
    }

    /// Maps a cleared page at `va`, and gives it.
    fn add_page(&self, pm: &mut PhysMem, va: u64, perm: u64) -> (r: u64)
        requires
            table_wf(*old(pm), self.pt.root),
            !blocked(*old(pm), self.pt.root, 2, va, 0),
            0 <= missing(*old(pm), self.pt.root, 2, va, 0) < old(pm).free@.len(),
        ensures
            table_wf(*final(pm), self.pt.root),
            r == old(pm).free@.last(),
            forall|x: u64| #[trigger]
                find(*final(pm), self.pt.root, 2, x) == (if same_entry(va, x, 0) {
                    Some((mapping(r, perm | PTE_U), 0int))
                } else {
                    find(*old(pm), self.pt.root, 2, x)
                }),
            final(pm).free@.len() == old(pm).free@.len() - 1 - missing(
                *old(pm),
                self.pt.root,
                2,
                va,
                0,
            ),
            pages_taken(*old(pm), *final(pm)),
            pages_kept(*old(pm), *final(pm), self.pt.root),
            tables_stay(*old(pm), *final(pm), self.pt.root),
            is_data(*final(pm), self.pt.root, r),
            final(pm).page(r as int) == zero_page(),
    {
        let ghost b = *pm;
        let ghost root = self.pt.root;
        let ghost tr = choose|tr: Map<u64, Place>| tree(b, root, tr);
        let page: Option<u64> = alloc_page(pm);
        let ghost c = *pm;
        proof {
            lemma_tree_alloc(b, c, root, tr, page);
            assert forall|x: u64| #[trigger] find(c, root, 2, x) == find(b, root, 2, x) by {
                lemma_root_place(x);
                lemma_find_same(b, c, root, tr, root, 2, x, 0);
            }
            lemma_root_place(va);
            lemma_find_same(b, c, root, tr, root, 2, va, 0);
            lemma_kept_alloc(b, c, root, tr, page);
            assert forall|x: u64, l: int|
                0 <= l <= 2 && reach(b, root, 2, x, l) is Some implies #[trigger] reach(
                c,
                root,
                2,
                x,
                l,
            ) == reach(b, root, 2, x, l) by {
                lemma_root_place(x);
                lemma_find_same(b, c, root, tr, root, 2, x, l);
            }
        }
        let pa: u64 = page.unwrap();
        proof {
            lemma_mapping(pa, perm | PTE_U);
        }
        self.pt.map(pm, va, pa, perm | PTE_U);
        proof {
            lemma_taken_one(b, page, c);
            lemma_taken_more(b, c, *pm);
        }
        pa
    }

    /// Makes `size` bytes at `va` present: every page without a translation gets
    /// a cleared one. There must be free pages for these and for tables.
    pub fn map_user(&self, pm: &mut PhysMem, va: u64, size: u64, perm: u64)
        requires
            table_wf(*old(pm), self.pt.root),
            va + size + 4095 <= u64::MAX,
            leaf(perm),
            old(pm).free@.len() >= pages_for(*old(pm), self.pt.root, va, touched(va, size)),
        ensures
            table_wf(*final(pm), self.pt.root),
            ways_kept(*old(pm), *final(pm), self.pt.root),
            pages_kept(*old(pm), *final(pm), self.pt.root),
            pages_taken(*old(pm), *final(pm)),
            only_range(*old(pm), *final(pm), self.pt.root, va, touched(va, size)),
            range_present(
                *old(pm),
                *final(pm),
                self.pt.root,
                va,
                touched(va, size),
                perm,
            ),
            own_frames(*old(pm), *final(pm), self.pt.root, va, touched(va, size), perm),
            final(pm).free@.len() + pages_for(*old(pm), self.pt.root, va, touched(va, size))
                >= old(pm).free@.len(),
    {
        let ghost a = *pm;
        let ghost root = self.pt.root;
        let ghost n = touched(va, size);
        let start: u64 = va - va % 4096;
        let end: u64 = (va + size + 4095) / 4096 * 4096;
        let mut at: u64 = start;
        let ghost mut k: int = 0;
        proof {
            assert(so_far(a, a, root, va, 0, perm)) by {
                reveal(so_far);
                lemma_taken_none(a, a);
                assert(frames_given(a, a, root, va, 0, perm, Map::empty()));
            }
        }
        while at < end
            invariant
                root == self.pt.root,
                start == first_page(va),
                end == start + 4096 * n,
                at == start + 4096 * k,
                0 <= k <= n,
                leaf(perm),
                a.free@.len() >= pages_for(a, root, va, n),
                table_wf(*pm, root),
                so_far(a, *pm, root, va, k, perm),
            decreases n - k,
        {
            let ghost b = *pm;
            proof {
                assert(at == page_at(first_page(va), k));
                assert(k < n);
            }
            if self.pt.translate(pm, at).is_none() {
                proof {
                    lemma_room(a, b, root, va, k, n, perm);
                }
                let pa: u64 = self.add_page(pm, at, perm);
                proof {
                    lemma_added(a, b, *pm, root, va, k, n, pa, perm);
                }
            } else {
                proof {
                    lemma_there(a, b, root, va, k, perm);
                }
            }
            proof {
                k = k + 1;
            }
            at = at + 4096;
        }
        proof {
            reveal(so_far);
        }
    }
}

/// Where the way of an address ends above the last level, it ends at a large
/// page.
proof fn lemma_leaf_above(pm: PhysMem, t: u64, lvl: int, va: u64)
    requires
        0 <= lvl,
        find(pm, t, lvl, va) is Some,
        (find(pm, t, lvl, va)->0).1 > 0,
    ensures
        leaf((find(pm, t, lvl, va)->0).0),
    decreases lvl,
{
    let e = crate::sv39::entry(pm, t, crate::sv39::idx(va, lvl));
    if lvl > 0 && !leaf(e) {
        lemma_leaf_above(pm, addr(e), lvl - 1, va);
    }
}

/// One more page of a range was mapped.
proof fn lemma_grown(a: PhysMem, b: PhysMem, d: PhysMem, root: u64, va: u64, k: int, cur: u64, pa: u64, perm: u64)
    requires
        0 <= k,
        cur == page_at(first_page(va), k),
        ways_kept(a, b, root),
        only_range(a, b, root, va, k),
        range_present(a, b, root, va, k, perm),
        walk(b, root, cur) is None,
        forall|x: u64| #[trigger]
            find(d, root, 2, x) == (if same_entry(cur, x, 0) {
                Some((mapping(pa, perm | PTE_U), 0int))
            } else {
                find(b, root, 2, x)
            }),
        leaf(mapping(pa, perm | PTE_U)),
        new_page(a, d, root, pa),
        pages_kept(b, d, root),
    ensures
        ways_kept(a, d, root),
        only_range(a, d, root, va, k + 1),
        range_present(a, d, root, va, k + 1, perm),
{
    assert forall|x: u64| walk(a, root, x) is Some implies #[trigger] find(d, root, 2, x) == find(
        a,
        root,
        2,
        x,
    ) by {
        assert(find(b, root, 2, x) == find(a, root, 2, x));
        if same_entry(cur, x, 0) {
            lemma_find_entry(b, root, 2, cur, x);
        }
    }
    assert forall|x: u64|
        (forall|j: int| 0 <= j < k + 1 ==> !#[trigger] page_of(va, j, x)) implies #[trigger] find(
        d,
        root,
        2,
        x,
    ) == find(a, root, 2, x) by {
        assert(!page_of(va, k, x));
        assert forall|j: int| 0 <= j < k implies !#[trigger] page_of(va, j, x) by {}
        assert(find(b, root, 2, x) == find(a, root, 2, x));
    }
    assert forall|j: int| 0 <= j < k + 1 implies {
        let x = #[trigger] page_at(first_page(va), j);
        &&& walk(d, root, x) is Some
        &&& walk(a, root, x) is None ==> exists|p: u64|
            #[trigger] new_page(a, d, root, p) && find(d, root, 2, x) == Some(
                (mapping(p, perm | PTE_U), 0int),
            )
    } by {
        let x = page_at(first_page(va), j);
        if j < k {
            assert(walk(b, root, x) is Some);
            if same_entry(cur, x, 0) {
                lemma_find_entry(b, root, 2, cur, x);
            }
            if walk(a, root, x) is None {
                let p = choose|p: u64|
                    #[trigger] new_page(a, b, root, p) && find(b, root, 2, x) == Some(
                        (mapping(p, perm | PTE_U), 0int),
                    );
                assert(is_data(b, root, p));
                assert(new_page(a, d, root, p));
            }
        } else {
            assert(same_entry(cur, cur, 0));
            assert(new_page(a, d, root, pa) && find(d, root, 2, cur) == Some(
                (mapping(pa, perm | PTE_U), 0int),
            ));
        }
    }
}

/// A page of a range was there already.
proof fn lemma_kept_page(a: PhysMem, b: PhysMem, root: u64, va: u64, k: int, cur: u64, perm: u64)
    requires
        0 <= k,
        cur == page_at(first_page(va), k),
        ways_kept(a, b, root),
        only_range(a, b, root, va, k),
        range_present(a, b, root, va, k, perm),
        walk(b, root, cur) is Some,
    ensures
        only_range(a, b, root, va, k + 1),
        range_present(a, b, root, va, k + 1, perm),
{
    assert forall|x: u64|
        (forall|j: int| 0 <= j < k + 1 ==> !#[trigger] page_of(va, j, x)) implies #[trigger] find(
        b,
        root,
        2,
        x,
    ) == find(a, root, 2, x) by {
        assert forall|j: int| 0 <= j < k implies !#[trigger] page_of(va, j, x) by {}
    }
    if walk(a, root, cur) is None {
        // An earlier page of the range is the same page.
        if forall|j: int| 0 <= j < k ==> !#[trigger] page_of(va, j, cur) {
            assert(find(b, root, 2, cur) == find(a, root, 2, cur));
        } else {
            let j = choose|j: int| 0 <= j < k && #[trigger] page_of(va, j, cur);
            let y = page_at(first_page(va), j);
            lemma_find_entry(b, root, 2, y, cur);
            lemma_find_entry(a, root, 2, y, cur);
            assert(walk(b, root, y) is Some);
            assert(walk(a, root, y) is None);
            let p = choose|p: u64|
                #[trigger] new_page(a, b, root, p) && find(b, root, 2, y) == Some(
                    (mapping(p, perm | PTE_U), 0int),
                );
            assert(new_page(a, b, root, p) && find(b, root, 2, cur) == Some(
                (mapping(p, perm | PTE_U), 0int),
            ));
        }
    }
    assert forall|j: int| 0 <= j < k + 1 implies {
        let x = #[trigger] page_at(first_page(va), j);
        &&& walk(b, root, x) is Some
        &&& walk(a, root, x) is None ==> exists|p: u64|
            #[trigger] new_page(a, b, root, p) && find(b, root, 2, x) == Some(
                (mapping(p, perm | PTE_U), 0int),
            )
    } by {
        if j == k {
            assert(page_at(first_page(va), j) == cur);
        }
    }
}

/// Addresses with the same entries lead to the same entry.
proof fn lemma_find_entry(pm: PhysMem, t: u64, lvl: int, x: u64, y: u64)
    requires
        0 <= lvl <= 2,
        same_entry(x, y, 0),
    ensures
        find(pm, t, lvl, x) == find(pm, t, lvl, y),
    decreases lvl,
{
    let e = crate::sv39::entry(pm, t, crate::sv39::idx(x, lvl));
    assert(crate::sv39::idx(x, lvl) == crate::sv39::idx(y, lvl));
    if lvl > 0 && !leaf(e) {
        lemma_find_entry(pm, addr(e), lvl - 1, x, y);
    }
}

/// The length of a mapping in whole pages.
pub open spec fn whole(length: u64) -> int {
    (length + 4095) / 4096 * 4096
}

/// `size` bytes at `va` were made present.
pub open spec fn made_present(a: PhysMem, b: PhysMem, root: u64, va: u64, size: u64) -> bool {
    &&& ways_kept(a, b, root)
    &&& pages_kept(a, b, root)
    &&& pages_taken(a, b)
    &&& only_range(a, b, root, va, touched(va, size))
    &&& range_present(a, b, root, va, touched(va, size), PERM_ALL)
    &&& own_frames(a, b, root, va, touched(va, size), PERM_ALL)
}

impl Task {
    /// Makes a range present; what is there stays.
    pub fn ensure_mapped(&self, pm: &mut PhysMem, va: u64, size: u64, perm: u64)
        requires
            table_wf(*old(pm), self.pt.root),
            va + size + 4095 <= u64::MAX,
            leaf(perm),
            old(pm).free@.len() >= pages_for(*old(pm), self.pt.root, va, touched(va, size)),
        ensures
            table_wf(*final(pm), self.pt.root),
            ways_kept(*old(pm), *final(pm), self.pt.root),
            pages_kept(*old(pm), *final(pm), self.pt.root),
            pages_taken(*old(pm), *final(pm)),
            only_range(*old(pm), *final(pm), self.pt.root, va, touched(va, size)),
            range_present(
                *old(pm),
                *final(pm),
                self.pt.root,
                va,
                touched(va, size),
                perm,
            ),
            own_frames(*old(pm), *final(pm), self.pt.root, va, touched(va, size), perm),
    {
        self.map_user(pm, va, size, perm);
    }
}

/// Moves the end of the heap. 0 only asks where it is; memory is made present
/// where it grows, and never given back.
pub fn do_brk(t: &mut Task, pm: &mut PhysMem, new: u64) -> (r: u64)
    requires
        table_wf(*old(pm), old(t).pt.root),
        new + 4095 <= u64::MAX,
        new > old(t).brk ==> old(pm).free@.len() >= pages_for(
            *old(pm),
            old(t).pt.root,
            old(t).brk,
            touched(old(t).brk, (new - old(t).brk) as u64),
        ),
    ensures
        table_wf(*final(pm), old(t).pt.root),
        if new == 0 {
            r == old(t).brk && *final(t) == *old(t) && *final(pm) == *old(pm)
        } else {
            &&& r == new
            &&& *final(t) == (Task { brk: new, ..*old(t) })
            &&& if new > old(t).brk {
                made_present(
                    *old(pm),
                    *final(pm),
                    old(t).pt.root,
                    old(t).brk,
                    (new - old(t).brk) as u64,
                )
            } else {
                *final(pm) == *old(pm)
            }
        },
{
    if new == 0 {
        return t.brk;
    }
    if new > t.brk {
        proof {
            crate::sv39::lemma_bits();
        }
        t.map_user(pm, t.brk, new - t.brk, PERM_ALL);
    }
    t.brk = new;
    new
}

/// Where a mapping goes: to a fixed place, or behind the last one.
pub open spec fn mmap_at(t: Task, addr: u64, flags: i32) -> u64 {
    if flags & MAP_FIXED != 0 && addr != 0 {
        addr
    } else {
        t.mmap_top
    }
}

/// Maps memory and makes it present.
pub fn do_mmap(t: &mut Task, pm: &mut PhysMem, addr: u64, length: u64, flags: i32) -> (va: u64)
    requires
        table_wf(*old(pm), old(t).pt.root),
        length + 4095 <= u64::MAX,
        old(t).mmap_top + whole(length) + 4095 <= u64::MAX,
        addr + whole(length) + 4095 <= u64::MAX,
        old(pm).free@.len() >= pages_for(
            *old(pm),
            old(t).pt.root,
            mmap_at(*old(t), addr, flags),
            touched(mmap_at(*old(t), addr, flags), whole(length) as u64),
        ),
    ensures
        table_wf(*final(pm), old(t).pt.root),
        va == mmap_at(*old(t), addr, flags),
        *final(t) == (Task {
            mmap_top: if flags & MAP_FIXED != 0 && addr != 0 {
                old(t).mmap_top
            } else {
                (old(t).mmap_top + whole(length)) as u64
            },
            ..*old(t)
        }),
        made_present(*old(pm), *final(pm), old(t).pt.root, va, whole(length) as u64),
{
    let len: u64 = (length + 4095) / 4096 * 4096;
    let va: u64 = if flags & MAP_FIXED != 0 && addr != 0 {
        addr
    } else {
        let v: u64 = t.mmap_top;
        t.mmap_top = v + len;
        v
    };
    proof {
        crate::sv39::lemma_bits();
    }
    t.map_user(pm, va, len, PERM_ALL);
    va
}

/// A way that ends at a large page.
pub open spec fn large(f: Option<(u64, int)>) -> bool {
    f is Some && (f->0).1 != 0
}

/// The frames behind the first `n` pages of a range, large pages apart.
pub open spec fn frames_of(pm: PhysMem, root: u64, va: u64, n: int) -> Seq<u64>
    decreases n,
{
    if n <= 0 {
        Seq::empty()
    } else {
        let f = find(pm, root, 2, page_at(first_page(va), n - 1));
        if f is Some && !large(f) {
            frames_of(pm, root, va, n - 1).push(addr((f->0).0))
        } else {
            frames_of(pm, root, va, n - 1)
        }
    }
}

/// The first `n` pages of a range lead nowhere, but for those of large pages, and
/// nothing else changed.
pub open spec fn range_gone(a: PhysMem, b: PhysMem, root: u64, va: u64, n: int) -> bool {
    forall|x: u64| #[trigger]
        find(b, root, 2, x) == (if !large(find(a, root, 2, x)) && exists|k: int|
            0 <= k < n && #[trigger] page_of(va, k, x) {
            None
        } else {
            find(a, root, 2, x)
        })
}

/// How many pages unmapping touches.
pub open spec fn unmapped_pages(addr: u64, length: u64) -> int {
    (addr + whole(length) - first_page(addr) + 4095) / 4096
}

/// Unmaps memory page by page; gives the frames to be freed. Large pages stay.
#[verifier::loop_isolation(false)]
#[verifier::rlimit(60)]
pub fn do_munmap(t: &Task, pm: &mut PhysMem, at: u64, length: u64) -> (r: Vec<u64>)
    requires
        table_wf(*old(pm), t.pt.root),
        length + 4095 <= u64::MAX,
        at + whole(length) + 8191 <= u64::MAX,
        unmapped_pages(at, length) <= 0x800_0000,
    ensures
        table_wf(*final(pm), t.pt.root),
        range_gone(*old(pm), *final(pm), t.pt.root, at, unmapped_pages(at, length)),
        pages_kept(*old(pm), *final(pm), t.pt.root),
        pages_taken(*old(pm), *final(pm)),
        final(pm).free@ == old(pm).free@,
        r@ == frames_of(*old(pm), t.pt.root, at, unmapped_pages(at, length)),
{
    let ghost a = *pm;
    let ghost root = t.pt.root;
    let ghost n = unmapped_pages(at, length);
    let len: u64 = (length + 4095) / 4096 * 4096;
    let start: u64 = at - at % 4096;
    let end: u64 = at + len;
    let mut x: u64 = start;
    let mut r: Vec<u64> = Vec::new();
    let ghost mut k: int = 0;
    proof {
        lemma_taken_none(a, a);
    }
    while x < end
        invariant
            x == start + 4096 * k,
            0 <= k <= n,
            table_wf(*pm, root),
            range_gone(a, *pm, root, at, k),
            pages_kept(a, *pm, root),
            pages_taken(a, *pm),
            pm.free@ == a.free@,
            r@ == frames_of(a, root, at, k),
        decreases n - k,
    {
        let ghost b = *pm;
        let ghost cur = page_at(first_page(at), k);
        proof {
            assert(k < n);
            assert(cur == x);
            assert(!exists|j: int| 0 <= j < k && #[trigger] page_of(at, j, cur)) by {
                if exists|j: int| 0 <= j < k && #[trigger] page_of(at, j, cur) {
                    let j = choose|j: int| 0 <= j < k && #[trigger] page_of(at, j, cur);
                    assert(same_entry(cur, cur, 0));
                    crate::page_table::lemma_pages_differ(first_page(at), n, j, k, cur);
                }
            }
            assert(find(b, root, 2, cur) == find(a, root, 2, cur));
        }
        match t.pt.unmap(pm, x) {
            Some(pa) => {
                r.push(pa);
            },
            None => {},
        }
        proof {
            let c = *pm;
            lemma_taken_more(a, b, c);
            crate::sv39::lemma_bits();
            assert forall|y: u64| #[trigger]
                find(c, root, 2, y) == (if !large(find(a, root, 2, y)) && exists|j: int|
                    0 <= j < k + 1 && #[trigger] page_of(at, j, y) {
                    None
                } else {
                    find(a, root, 2, y)
                }) by {
                assert(find(b, root, 2, y) == (if !large(find(a, root, 2, y)) && exists|j: int|
                    0 <= j < k && #[trigger] page_of(at, j, y) {
                    None
                } else {
                    find(a, root, 2, y)
                }));
                if same_entry(cur, y, 0) {
                    assert(page_of(at, k, y));
                    lemma_find_entry(b, root, 2, cur, y);
                    lemma_find_entry(a, root, 2, cur, y);
                } else {
                    assert(!page_of(at, k, y));
                    if exists|j: int| 0 <= j < k + 1 && #[trigger] page_of(at, j, y) {
                        let j = choose|j: int| 0 <= j < k + 1 && #[trigger] page_of(at, j, y);
                        assert(j < k);
                    }
                }
            }
            k = k + 1;
        }
        x = x + 4096;
    }
    r
}

/// Memory that was unmapped leads nowhere, unless a large page holds it.
pub proof fn unmapped_is_absent(a: PhysMem, b: PhysMem, root: u64, at: u64, n: int, k: int)
    requires
        range_gone(a, b, root, at, n),
        0 <= k < n,
        !large(find(a, root, 2, page_at(first_page(at), k))),
    ensures
        walk(b, root, page_at(first_page(at), k)) is None,
{
    let x = page_at(first_page(at), k);
    assert(same_entry(x, x, 0));
    assert(page_of(at, k, x));
}

/// A page of a range starts at a page boundary.
proof fn lemma_page_start(va: u64, size: u64, k: int)
    requires
        va + size + 4095 <= u64::MAX,
        0 <= k < touched(va, size),
    ensures
        page_at(first_page(va), k) % 4096 == 0,
        page_at(first_page(va), k) == first_page(va) + 4096 * k,
{
}

/// A page that is mapped for the user with all rights translates to its frame.
proof fn lemma_frame_address(b: PhysMem, root: u64, x: u64, pa: u64)
    requires
        is_data(b, root, pa),
        x % 4096 == 0,
        find(b, root, 2, x) == Some((mapping(pa, PERM_ALL | PTE_U), 0int)),
    ensures
        walk(b, root, x) == Some(pa),
{
    assert(0xeu64 | 0x10 < 0x400 && (0xeu64 | 0x10) & 0xe != 0 && x & 0xfff == x % 4096 && pa | 0
        == pa) by (bit_vector);
    lemma_mapping(pa, PERM_ALL | PTE_U);
}

/// An absent page of a range that was made present translates to its frame.
proof fn lemma_given(a: PhysMem, b: PhysMem, root: u64, va: u64, size: u64, f: Map<int, u64>, k: int)
    requires
        va + size + 4095 <= u64::MAX,
        frames_given(a, b, root, va, touched(va, size), PERM_ALL, f),
        0 <= k < touched(va, size),
        walk(a, root, page_at(first_page(va), k)) is None,
    ensures
        new_page(a, b, root, f[k]),
        walk(b, root, page_at(first_page(va), k)) == Some(f[k]),
{
    let x = page_at(first_page(va), k);
    lemma_page_start(va, size, k);
    assert(new_page(a, b, root, f[k]) && find(b, root, 2, x) == Some(
        (mapping(f[k], PERM_ALL | PTE_U), 0int),
    ));
    lemma_frame_address(b, root, x, f[k]);
}

/// Every page that a range was made present for has a frame of its own: two of
/// them translate to different pages, each of which was free, is in use now, and
/// holds zeros.
pub proof fn new_pages_are_apart(a: PhysMem, b: PhysMem, root: u64, va: u64, size: u64, j: int, k: int)
    requires
        va + size + 4095 <= u64::MAX,
        made_present(a, b, root, va, size),
        0 <= j < touched(va, size),
        0 <= k < touched(va, size),
        walk(a, root, page_at(first_page(va), j)) is None,
        walk(a, root, page_at(first_page(va), k)) is None,
        (page_at(first_page(va), j) as int / 4096) % 0x800_0000 != (page_at(first_page(va), k) as int
            / 4096) % 0x800_0000,
    ensures
        walk(b, root, page_at(first_page(va), j)) is Some,
        walk(b, root, page_at(first_page(va), k)) is Some,
        walk(b, root, page_at(first_page(va), j)) != walk(b, root, page_at(first_page(va), k)),
        ({
            let p = walk(b, root, page_at(first_page(va), j))->0;
            a.is_free(p as int) && !b.is_free(p as int) && b.page(p as int) == zero_page()
        }),
{
    let n = touched(va, size);
    let (x, y) = (page_at(first_page(va), j), page_at(first_page(va), k));
    let f = choose|f: Map<int, u64>| frames_given(a, b, root, va, n, PERM_ALL, f);
    crate::page_table::lemma_same_page(x, y);
    assert(!page_of(va, j, y));
    lemma_given(a, b, root, va, size, f, j);
    lemma_given(a, b, root, va, size, f, k);
    assert(f[j] != f[k]);
}

/// A page that a range was made present for shares nothing with what was mapped
/// before: an address that led to a page in use leads there still, and the new
/// page does not lead there.
pub proof fn new_page_is_not_shared(a: PhysMem, b: PhysMem, root: u64, va: u64, size: u64, k: int, y: u64)
    requires
        va + size + 4095 <= u64::MAX,
        made_present(a, b, root, va, size),
        0 <= k < touched(va, size),
        walk(a, root, page_at(first_page(va), k)) is None,
        walk(a, root, y) is Some,
        !a.is_free((walk(a, root, y)->0) as int),
    ensures
        walk(b, root, y) == walk(a, root, y),
        walk(b, root, page_at(first_page(va), k)) is Some,
        walk(b, root, page_at(first_page(va), k)) != walk(b, root, y),
{
    let f = choose|f: Map<int, u64>|
        frames_given(a, b, root, va, touched(va, size), PERM_ALL, f);
    lemma_given(a, b, root, va, size, f, k);
    assert(find(b, root, 2, y) == find(a, root, 2, y));
}

/// Every byte of a range that was made present translates. Where its page was
/// absent, the program may read, write and execute it (bits 1, 2, 3, and 4 for the
/// user), and it lies in its page at its offset.
pub proof fn range_is_usable(a: PhysMem, b: PhysMem, root: u64, va: u64, size: u64, x: u64)
    requires
        va + size + 4095 <= u64::MAX,
        made_present(a, b, root, va, size),
        va <= x < va + size,
    ensures
        walk(b, root, x) is Some,
        walk(a, root, x) is Some ==> walk(b, root, x) == walk(a, root, x),
        walk(a, root, x) is None ==> {
            let e = (find(b, root, 2, x)->0).0;
            &&& e & 1 != 0 && e & 2 != 0 && e & 4 != 0 && e & 8 != 0 && e & 0x10 != 0
            &&& (walk(b, root, x)->0) as int % 4096 == x as int % 4096
        },
{
    let k = x as int / 4096 - va as int / 4096;
    assert(0 <= k < touched(va, size));
    lemma_page_start(va, size, k);
    let p = page_at(first_page(va), k);
    assert(p as int / 4096 == x as int / 4096);
    crate::page_table::lemma_same_page(p, x);
    lemma_find_entry(a, root, 2, p, x);
    lemma_find_entry(b, root, 2, p, x);
    assert(walk(b, root, p) is Some);
    assert(find(b, root, 2, x) == find(b, root, 2, x));
    if walk(a, root, x) is None {
        let pa = choose|pa: u64|
            #[trigger] new_page(a, b, root, pa) && find(b, root, 2, p) == Some(
                (mapping(pa, PERM_ALL | PTE_U), 0int),
            );
        let e = mapping(pa, 0xeu64 | 0x10);
        lemma_mapping(pa, 0xeu64 | 0x10);
        let q = pa >> 12;
        assert((q << 10 | ((0xeu64 | 0x10) | 0xc1)) & 1 != 0 && (q << 10 | ((0xeu64 | 0x10) | 0xc1))
            & 2 != 0 && (q << 10 | ((0xeu64 | 0x10) | 0xc1)) & 4 != 0 && (q << 10 | ((0xeu64 | 0x10)
            | 0xc1)) & 8 != 0 && (q << 10 | ((0xeu64 | 0x10) | 0xc1)) & 0x10 != 0 && (((e >> 10)
            << 12) | (x & 0xfff)) % 4096 == x % 4096) by (bit_vector);
    }
}

/// A mapping takes whole pages, enough for its length and no more than one page too
/// many; without a fixed place it begins where the last one ended.
pub proof fn mappings_follow_each_other(t: Task, addr: u64, length: u64, flags: i32, flags2: i32)
    requires
        t.mmap_top + whole(length) <= u64::MAX,
        flags & 0x10 == 0,
        flags2 & 0x10 == 0,
    ensures
        whole(length) % 4096 == 0,
        length <= whole(length) < length + 4096,
        mmap_at(t, addr, flags) == t.mmap_top,
        mmap_at((Task { mmap_top: (t.mmap_top + whole(length)) as u64, ..t }), addr, flags2)
            == mmap_at(t, addr, flags) + whole(length),
{
}

/// A mapping with a fixed place goes there.
pub proof fn fixed_mapping_is_there(t: Task, addr: u64, flags: i32)
    requires
        flags & 0x10 != 0,
        addr != 0,
    ensures
        mmap_at(t, addr, flags) == addr,
{
}

/// Unmapping reaches every page of the range, and gives back the frame of each page
/// that was there, large pages apart.
pub proof fn unmapping_gives_all_frames(a: PhysMem, root: u64, at: u64, length: u64, x: u64)
    requires
        at + whole(length) + 8191 <= u64::MAX,
        at <= x < at + length,
        find(a, root, 2, x) is Some,
        !large(find(a, root, 2, x)),
    ensures
        frames_of(a, root, at, unmapped_pages(at, length)).contains(addr((find(a, root, 2, x)->0).0)),
{
    let k = x as int / 4096 - at as int / 4096;
    let n = unmapped_pages(at, length);
    assert(0 <= k < n);
    let p = page_at(first_page(at), k);
    assert(p == first_page(at) + 4096 * k);
    assert(p as int / 4096 == x as int / 4096);
    crate::page_table::lemma_same_page(p, x);
    lemma_find_entry(a, root, 2, p, x);
    lemma_frame_in(a, root, at, n, k);
}

proof fn lemma_frame_in(a: PhysMem, root: u64, at: u64, n: int, k: int)
    requires
        0 <= k < n,
        find(a, root, 2, page_at(first_page(at), k)) is Some,
        !large(find(a, root, 2, page_at(first_page(at), k))),
    ensures
        frames_of(a, root, at, n).contains(addr((find(a, root, 2, page_at(first_page(at), k))->0).0)),
    decreases n,
{
    let f = frames_of(a, root, at, n);
    let y = addr((find(a, root, 2, page_at(first_page(at), k))->0).0);
    if k == n - 1 {
        assert(f[f.len() - 1] == y);
    } else {
        lemma_frame_in(a, root, at, n - 1, k);
        let g = frames_of(a, root, at, n - 1);
        let i = choose|i: int| 0 <= i < g.len() && g[i] == y;
        assert(f[i] == y);
    }
}

} // verus!
