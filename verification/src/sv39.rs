//! Sv39 page tables: three levels of 512 entries over physical memory.
//!
//! `walk` is what the hardware does with an address. A table tree is described
//! by `tree`: every table has its place, level and address prefix, so that two
//! entries never lead to the same table.

use vstd::prelude::*;
use crate::pmm::{
    alloc_post, lemma_frame_no, lemma_taken_more, lemma_taken_none, lemma_taken_one, pages_taken,
    written, zero_page, PhysMem, WORDS,
};

verus! {

pub const PTE_V: u64 = 1;
pub const PTE_R: u64 = 2;
pub const PTE_W: u64 = 4;
pub const PTE_X: u64 = 8;
pub const PTE_U: u64 = 0x10;
pub const PTE_G: u64 = 0x20;
pub const PTE_A: u64 = 0x40;
pub const PTE_D: u64 = 0x80;

/// Entries of the three levels that an address selects.
pub open spec fn idx(va: u64, lvl: int) -> int {
    if lvl == 0 {
        ((va >> 12) & 0x1ff) as int
    } else if lvl == 1 {
        ((va >> 21) & 0x1ff) as int
    } else {
        ((va >> 30) & 0x1ff) as int
    }
}

/// The part of an address that stays under a leaf of a level.
pub open spec fn offset(va: u64, lvl: int) -> u64 {
    if lvl == 0 {
        va & 0xfff
    } else if lvl == 1 {
        va & 0x1f_ffff
    } else {
        va & 0x3fff_ffff
    }
}

pub open spec fn valid(e: u64) -> bool {
    e & 1 != 0
}

pub open spec fn leaf(e: u64) -> bool {
    e & 0xe != 0
}

/// The physical address in an entry.
pub open spec fn addr(e: u64) -> u64 {
    (e >> 10) << 12
}

/// An entry that points to the next table.
pub open spec fn link(e: u64) -> bool {
    valid(e) && !leaf(e)
}

/// Both addresses select the same entry down to level `lvl`.
pub open spec fn same_entry(a: u64, b: u64, lvl: int) -> bool {
    forall|k: int| lvl <= k <= 2 ==> #[trigger] idx(a, k) == idx(b, k)
}

pub open spec fn entry(pm: PhysMem, t: u64, i: int) -> u64 {
    pm.page(t as int)[i]
}

/// The leaf that `va` leads to from table `t` of level `lvl`: the entry and
/// its level.
pub open spec fn find(pm: PhysMem, t: u64, lvl: int, va: u64) -> Option<(u64, int)>
    decreases lvl,
{
    let e = entry(pm, t, idx(va, lvl));
    if !valid(e) {
        None
    } else if leaf(e) || lvl <= 0 {
        Some((e, lvl))
    } else {
        find(pm, addr(e), lvl - 1, va)
    }
}

/// The physical address that `va` is translated to.
pub open spec fn translation(found: Option<(u64, int)>, va: u64) -> Option<u64> {
    match found {
        Some((e, lvl)) => if leaf(e) {
            Some(addr(e) | offset(va, lvl))
        } else {
            None
        },
        None => None,
    }
}

pub open spec fn walk(pm: PhysMem, root: u64, va: u64) -> Option<u64> {
    translation(find(pm, root, 2, va), va)
}

/// The table of level `stop` on the way of `va`, if the way gets there.
pub open spec fn reach(pm: PhysMem, t: u64, lvl: int, va: u64, stop: int) -> Option<u64>
    decreases lvl - stop,
{
    if lvl <= stop {
        Some(t)
    } else {
        let e = entry(pm, t, idx(va, lvl));
        if link(e) {
            reach(pm, addr(e), lvl - 1, va, stop)
        } else {
            None
        }
    }
}

/// A large page lies on the way of `va` above level `stop`.
pub open spec fn blocked(pm: PhysMem, t: u64, lvl: int, va: u64, stop: int) -> bool
    decreases lvl - stop,
{
    if lvl <= stop {
        false
    } else {
        let e = entry(pm, t, idx(va, lvl));
        valid(e) && (leaf(e) || blocked(pm, addr(e), lvl - 1, va, stop))
    }
}

/// How many tables are missing on the way of `va` down to level `stop`.
pub open spec fn missing(pm: PhysMem, t: u64, lvl: int, va: u64, stop: int) -> int
    decreases lvl - stop,
{
    if lvl <= stop {
        0
    } else {
        let e = entry(pm, t, idx(va, lvl));
        if !valid(e) {
            lvl - stop
        } else if leaf(e) {
            0
        } else {
            missing(pm, addr(e), lvl - 1, va, stop)
        }
    }
}

/// The place of a table: its level, and the number that the entries above it
/// select.
pub struct Place {
    pub lvl: int,
    pub pre: int,
}

/// The prefix of `va` above level `lvl`.
pub open spec fn prefix(va: u64, lvl: int) -> int
    decreases 2 - lvl,
{
    if lvl >= 2 {
        0
    } else {
        prefix(va, lvl + 1) * 512 + idx(va, lvl + 1)
    }
}

pub open spec fn place_of(va: u64, lvl: int) -> Place {
    Place { lvl, pre: prefix(va, lvl) }
}

/// The tables of the tree under `root`, with their places.
pub open spec fn tree(pm: PhysMem, root: u64, at: Map<u64, Place>) -> bool {
    &&& pm.wf()
    &&& at.dom().contains(root)
    &&& at[root] == (Place { lvl: 2, pre: 0 })
    &&& forall|t: u64| #[trigger]
        at.dom().contains(t) ==> pm.is_page(t as int) && !pm.is_free(t as int) && 0 <= at[t].lvl
            <= 2
    &&& forall|t: u64, i: int|
        at.dom().contains(t) && 0 <= i < 512 ==> entry_ok(at, at[t], i, #[trigger] entry(pm, t, i))
}

pub open spec fn entry_ok(at: Map<u64, Place>, p: Place, i: int, e: u64) -> bool {
    link(e) && p.lvl > 0 ==> at.dom().contains(addr(e)) && at[addr(e)] == (Place {
        lvl: p.lvl - 1,
        pre: p.pre * 512 + i,
    })
}

/// `root` is the root of a well-formed tree of tables.
pub open spec fn table_wf(pm: PhysMem, root: u64) -> bool {
    exists|at: Map<u64, Place>| tree(pm, root, at)
}

/// Facts about the flag bits.
pub proof fn lemma_bits()
    ensures
        2u64 | 4 | 8 == 0xe,
        2u64 | 4 | 8 | 0x40 | 0x80 == 0xce,
        !valid(0),
        leaf(0xce),
        leaf(0xe),
{
    assert(2u64 | 4 | 8 == 0xe && 2u64 | 4 | 8 | 0x40 | 0x80 == 0xce && 0u64 & 1 == 0 && 0u64 >> 54
        == 0 && 0xceu64 & 0xe != 0 && 0xeu64 & 0xe != 0) by (bit_vector);
}

pub proof fn lemma_idx(va: u64, lvl: int)
    ensures
        0 <= idx(va, lvl) < 512,
{
    assert((va >> 12) & 0x1ff < 512 && (va >> 21) & 0x1ff < 512 && (va >> 30) & 0x1ff < 512)
        by (bit_vector);
}

proof fn lemma_prefix_same(a: u64, b: u64, lvl: int)
    requires
        0 <= lvl <= 2,
    ensures
        prefix(a, lvl) == prefix(b, lvl) && idx(a, lvl) == idx(b, lvl) <==> same_entry(a, b, lvl),
{
    lemma_idx(a, 0);
    lemma_idx(a, 1);
    lemma_idx(a, 2);
    lemma_idx(b, 0);
    lemma_idx(b, 1);
    lemma_idx(b, 2);
    reveal_with_fuel(prefix, 4);
    assert(prefix(a, 2) == 0 && prefix(b, 2) == 0);
    assert(prefix(a, 1) == idx(a, 2) && prefix(b, 1) == idx(b, 2));
    assert(prefix(a, 0) == idx(a, 2) * 512 + idx(a, 1));
    assert(prefix(b, 0) == idx(b, 2) * 512 + idx(b, 1));
    if prefix(a, lvl) == prefix(b, lvl) && idx(a, lvl) == idx(b, lvl) {
        assert forall|k: int| lvl <= k <= 2 implies #[trigger] idx(a, k) == idx(b, k) by {
            if lvl == 0 {
                assert(idx(a, 2) == idx(b, 2));
                assert(idx(a, 1) == idx(b, 1));
            }
        }
    }
    if same_entry(a, b, lvl) {
        assert(idx(a, lvl) == idx(b, lvl));
        if lvl <= 1 {
            assert(idx(a, 2) == idx(b, 2));
        }
        if lvl == 0 {
            assert(idx(a, 1) == idx(b, 1));
        }
    }
}

proof fn lemma_child_place(va: u64, lvl: int)
    requires
        0 < lvl <= 2,
    ensures
        place_of(va, lvl - 1) == (Place { lvl: lvl - 1, pre: prefix(va, lvl) * 512 + idx(va, lvl) }),
{
    reveal_with_fuel(prefix, 2);
}

/// A table that is reached is where its place says.
pub proof fn lemma_reach(
    pm: PhysMem,
    root: u64,
    at: Map<u64, Place>,
    t: u64,
    lvl: int,
    va: u64,
    stop: int,
)
    requires
        tree(pm, root, at),
        0 <= stop <= lvl <= 2,
        at.dom().contains(t),
        at[t] == place_of(va, lvl),
    ensures
        match reach(pm, t, lvl, va, stop) {
            Some(u) => at.dom().contains(u) && at[u] == place_of(va, stop),
            None => true,
        },
    decreases lvl,
{
    if lvl > stop {
        lemma_idx(va, lvl);
        let e = entry(pm, t, idx(va, lvl));
        assert(entry_ok(at, at[t], idx(va, lvl), e));
        if link(e) {
            lemma_child_place(va, lvl);
            lemma_reach(pm, root, at, addr(e), lvl - 1, va, stop);
        }
    }
}

/// Where an address whose way leads through the changed entry goes, and where
/// any other goes, when entry `i` of table `u` is replaced by one that is no
/// link (or by anything in a table of the last level).
pub proof fn lemma_find_set(
    pm: PhysMem,
    pm2: PhysMem,
    root: u64,
    at: Map<u64, Place>,
    t: u64,
    lvl: int,
    va: u64,
    u: u64,
    i: int,
    e: u64,
)
    requires
        tree(pm, root, at),
        0 <= lvl <= 2,
        at.dom().contains(t),
        at[t] == place_of(va, lvl),
        at.dom().contains(u),
        0 <= i < 512,
        written(pm, u as int, i, e, pm2),
        at[u].lvl == 0 || !link(e),
    ensures
        ({
            let through = reach(pm, t, lvl, va, at[u].lvl) == Some(u) && idx(va, at[u].lvl) == i
                && at[u].lvl <= lvl;
            find(pm2, t, lvl, va) == (if through {
                if valid(e) {
                    Some((e, at[u].lvl))
                } else {
                    None
                }
            } else {
                find(pm, t, lvl, va)
            })
        }),
    decreases lvl,
{
    let k = idx(va, lvl);
    lemma_idx(va, lvl);
    let old_e = entry(pm, t, k);
    assert(entry_ok(at, at[t], k, old_e));
    lemma_frame_no(pm, t as int, u as int);
    assert(pm.page(t as int).len() == WORDS);
    if t == u {
        if k == i {
            assert(entry(pm2, t, k) == e);
        } else {
            assert(entry(pm2, t, k) == old_e);
            if link(old_e) && lvl > 0 {
                lemma_child_place(va, lvl);
                lemma_find_set(pm, pm2, root, at, addr(old_e), lvl - 1, va, u, i, e);
            }
        }
    } else {
        assert(entry(pm2, t, k) == old_e);
        if link(old_e) && lvl > 0 {
            lemma_child_place(va, lvl);
            lemma_find_set(pm, pm2, root, at, addr(old_e), lvl - 1, va, u, i, e);
        }
    }
}

/// The tree stays a tree when an entry that is no link is written.
pub proof fn lemma_tree_set(
    pm: PhysMem,
    pm2: PhysMem,
    root: u64,
    at: Map<u64, Place>,
    u: u64,
    i: int,
    e: u64,
)
    requires
        tree(pm, root, at),
        at.dom().contains(u),
        0 <= i < 512,
        written(pm, u as int, i, e, pm2),
        pm2.wf(),
        at[u].lvl == 0 || !link(e),
    ensures
        tree(pm2, root, at),
{
    assert forall|t: u64| #[trigger] at.dom().contains(t) implies pm2.is_page(t as int)
        && !pm2.is_free(t as int) && 0 <= at[t].lvl <= 2 by {
        assert(pm.is_page(t as int));
    }
    assert forall|t: u64, j: int| at.dom().contains(t) && 0 <= j < 512 implies entry_ok(
        at,
        at[t],
        j,
        #[trigger] entry(pm2, t, j),
    ) by {
        assert(entry_ok(at, at[t], j, entry(pm, t, j)));
        lemma_frame_no(pm, t as int, u as int);
        assert(pm.page(t as int).len() == WORDS);
    }
}

/// Linking a cleared page as a new table changes no translation.
pub proof fn lemma_find_link(
    pm: PhysMem,
    pm2: PhysMem,
    root: u64,
    at: Map<u64, Place>,
    t: u64,
    lvl: int,
    va: u64,
    u: u64,
    i: int,
    e: u64,
)
    requires
        tree(pm, root, at),
        0 <= lvl <= 2,
        at.dom().contains(t),
        at[t] == place_of(va, lvl),
        at.dom().contains(u),
        at[u].lvl > 0,
        0 <= i < 512,
        written(pm, u as int, i, e, pm2),
        !valid(entry(pm, u, i)),
        link(e),
        pm.is_page(addr(e) as int),
        !at.dom().contains(addr(e)),
        pm.page(addr(e) as int) == zero_page(),
    ensures
        find(pm2, t, lvl, va) == find(pm, t, lvl, va),
    decreases lvl,
{
    let k = idx(va, lvl);
    lemma_idx(va, lvl);
    let old_e = entry(pm, t, k);
    assert(entry_ok(at, at[t], k, old_e));
    lemma_frame_no(pm, t as int, u as int);
    assert(pm.page(t as int).len() == WORDS);
    if t == u && k == i {
        assert(entry(pm2, t, k) == e);
        lemma_idx(va, lvl - 1);
        assert(pm2.page(addr(e) as int) == zero_page());
        let z = entry(pm2, addr(e), idx(va, lvl - 1));
        assert(z == 0);
        lemma_bits();
        assert(find(pm2, addr(e), lvl - 1, va) is None);
    } else {
        assert(entry(pm2, t, k) == old_e);
        if link(old_e) && lvl > 0 {
            lemma_child_place(va, lvl);
            lemma_find_link(pm, pm2, root, at, addr(old_e), lvl - 1, va, u, i, e);
        }
    }
}

/// The tree with a new table linked in.
pub proof fn lemma_tree_link(
    pm: PhysMem,
    pm2: PhysMem,
    root: u64,
    at: Map<u64, Place>,
    u: u64,
    i: int,
    e: u64,
)
    requires
        tree(pm, root, at),
        at.dom().contains(u),
        at[u].lvl > 0,
        0 <= i < 512,
        written(pm, u as int, i, e, pm2),
        pm2.wf(),
        link(e),
        pm.is_page(addr(e) as int),
        !pm.is_free(addr(e) as int),
        !at.dom().contains(addr(e)),
        pm.page(addr(e) as int) == zero_page(),
    ensures
        tree(
            pm2,
            root,
            at.insert(addr(e), Place { lvl: at[u].lvl - 1, pre: at[u].pre * 512 + i }),
        ),
{
    let n = addr(e);
    let at2 = at.insert(n, Place { lvl: at[u].lvl - 1, pre: at[u].pre * 512 + i });
    assert forall|t: u64| #[trigger] at2.dom().contains(t) implies pm2.is_page(t as int)
        && !pm2.is_free(t as int) && 0 <= at2[t].lvl <= 2 by {
        if t != n {
            assert(at.dom().contains(t));
        } else {
            assert(at.dom().contains(u));
        }
    }
    assert forall|t: u64, j: int| at2.dom().contains(t) && 0 <= j < 512 implies entry_ok(
        at2,
        at2[t],
        j,
        #[trigger] entry(pm2, t, j),
    ) by {
        if t == n {
            lemma_frame_no(pm, n as int, u as int);
            assert(pm2.page(n as int) == zero_page());
            assert(entry(pm2, t, j) == 0);
            lemma_bits();
        } else {
            assert(entry_ok(at, at[t], j, entry(pm, t, j)));
            lemma_frame_no(pm, t as int, u as int);
            assert(pm.page(t as int).len() == WORDS);
        }
    }
}

/// Taking a page off the free stack leaves tree and translations alone, and
/// the page is no table.
pub proof fn lemma_tree_alloc(
    pm: PhysMem,
    pm2: PhysMem,
    root: u64,
    at: Map<u64, Place>,
    r: Option<u64>,
)
    requires
        tree(pm, root, at),
        alloc_post(pm, r, pm2),
        pm2.wf(),
    ensures
        tree(pm2, root, at),
        r is Some ==> !at.dom().contains(r->0),
        forall|t: u64, i: int|
            at.dom().contains(t) && 0 <= i < 512 ==> #[trigger] entry(pm2, t, i) == entry(pm, t, i),
{
    if r is Some {
        assert(pm.free@[pm.free@.len() - 1] == r->0);
        assert(pm.is_free(r->0 as int));
    }
    assert forall|t: u64| #[trigger] at.dom().contains(t) implies pm2.is_page(t as int)
        && !pm2.is_free(t as int) && 0 <= at[t].lvl <= 2 && pm2.page(t as int) == pm.page(
        t as int,
    ) by {
        assert(pm.is_page(t as int) && !pm.is_free(t as int));
        if pm2.is_free(t as int) {
            let i = choose|i: int| 0 <= i < pm2.free@.len() && #[trigger] pm2.free@[i] == t;
            assert(pm.free@[i] == t);
        }
    }
    assert forall|t: u64, i: int| at.dom().contains(t) && 0 <= i < 512 implies #[trigger] entry(
        pm2,
        t,
        i,
    ) == entry(pm, t, i) by {
        assert(at.dom().contains(t));
    }
    assert forall|t: u64, j: int| at.dom().contains(t) && 0 <= j < 512 implies entry_ok(
        at,
        at[t],
        j,
        #[trigger] entry(pm2, t, j),
    ) by {
        assert(entry_ok(at, at[t], j, entry(pm, t, j)));
    }
}

/// Where the entries of all tables agree, so do the ways through them.
pub proof fn lemma_find_same(
    pm: PhysMem,
    pm2: PhysMem,
    root: u64,
    at: Map<u64, Place>,
    t: u64,
    lvl: int,
    va: u64,
    stop: int,
)
    requires
        tree(pm, root, at),
        0 <= lvl <= 2,
        0 <= stop,
        at.dom().contains(t),
        at[t] == place_of(va, lvl),
        forall|t: u64, i: int|
            at.dom().contains(t) && 0 <= i < 512 ==> #[trigger] entry(pm2, t, i) == entry(pm, t, i),
    ensures
        find(pm2, t, lvl, va) == find(pm, t, lvl, va),
        missing(pm2, t, lvl, va, stop) == missing(pm, t, lvl, va, stop),
        blocked(pm2, t, lvl, va, stop) == blocked(pm, t, lvl, va, stop),
        reach(pm2, t, lvl, va, stop) == reach(pm, t, lvl, va, stop),
    decreases lvl,
{
    let k = idx(va, lvl);
    lemma_idx(va, lvl);
    let e = entry(pm, t, k);
    assert(entry(pm2, t, k) == e);
    assert(entry_ok(at, at[t], k, e));
    if link(e) && lvl > 0 {
        lemma_child_place(va, lvl);
        lemma_find_same(pm, pm2, root, at, addr(e), lvl - 1, va, stop);
    }
}

/// Addresses that agree down to a level have the same way to it.
pub proof fn lemma_reach_same(pm: PhysMem, t: u64, lvl: int, a: u64, b: u64, stop: int)
    requires
        0 <= stop <= lvl <= 2,
        forall|k: int| stop < k <= lvl ==> #[trigger] idx(a, k) == idx(b, k),
    ensures
        reach(pm, t, lvl, a, stop) == reach(pm, t, lvl, b, stop),
    decreases lvl,
{
    if lvl > stop {
        assert(idx(a, lvl) == idx(b, lvl));
        let e = entry(pm, t, idx(a, lvl));
        if link(e) {
            lemma_reach_same(pm, addr(e), lvl - 1, a, b, stop);
        }
    }
}

/// The effect of replacing the entry of level `lvl` on the way of `va`: exactly
/// the addresses under that entry are affected.
pub open spec fn entry_set(
    pm: PhysMem,
    pm2: PhysMem,
    root: u64,
    va: u64,
    lvl: int,
    e: u64,
) -> bool {
    forall|b: u64| #[trigger]
        find(pm2, root, 2, b) == (if same_entry(va, b, lvl) {
            if valid(e) {
                Some((e, lvl))
            } else {
                None
            }
        } else {
            find(pm, root, 2, b)
        })
}

/// All addresses lead where they did.
pub open spec fn same_ways(pm: PhysMem, pm2: PhysMem, root: u64) -> bool {
    forall|b: u64| #[trigger] find(pm2, root, 2, b) == find(pm, root, 2, b)
}

pub proof fn lemma_entry_set(
    pm: PhysMem,
    pm2: PhysMem,
    root: u64,
    at: Map<u64, Place>,
    va: u64,
    lvl: int,
    u: u64,
    e: u64,
)
    requires
        tree(pm, root, at),
        0 <= lvl <= 2,
        reach(pm, root, 2, va, lvl) == Some(u),
        written(pm, u as int, idx(va, lvl), e, pm2),
        pm2.wf(),
        lvl == 0 || !link(e),
    ensures
        entry_set(pm, pm2, root, va, lvl, e),
        tree(pm2, root, at),
{
    lemma_idx(va, lvl);
    lemma_reach(pm, root, at, root, 2, va, lvl);
    lemma_tree_set(pm, pm2, root, at, u, idx(va, lvl), e);
    assert forall|b: u64| #[trigger]
        find(pm2, root, 2, b) == (if same_entry(va, b, lvl) {
            if valid(e) {
                Some((e, lvl))
            } else {
                None
            }
        } else {
            find(pm, root, 2, b)
        }) by {
        lemma_find_set(pm, pm2, root, at, root, 2, b, u, idx(va, lvl), e);
        lemma_prefix_same(va, b, lvl);
        lemma_reach(pm, root, at, root, 2, b, lvl);
        if same_entry(va, b, lvl) {
            assert(idx(va, lvl) == idx(b, lvl));
            assert forall|k: int| lvl < k <= 2 implies #[trigger] idx(va, k) == idx(b, k) by {}
            lemma_reach_same(pm, root, 2, va, b, lvl);
        }
    }
}

// ---- Entries ----------------------------------------------------------------
/// The entry that points to the table at `pa`.
pub open spec fn table_pte(pa: u64) -> u64 {
    ((pa >> 12) << 10) | 1
}

pub proof fn lemma_table_pte(pa: u64)
    requires
        pa % 4096 == 0,
        pa < 0x100_0000_0000_0000,
    ensures
        link(table_pte(pa)),
        addr(table_pte(pa)) == pa,
{
    assert(pa & 0xfff == 0) by (bit_vector)
        requires
            pa % 4096 == 0,
    ;
    assert({
        let e = ((pa >> 12) << 10) | 1;
        e & 1 != 0 && e & 0xe == 0 && e >> 54 == 0 && (e >> 10) << 12 == pa
    }) by (bit_vector)
        requires
            pa & 0xfff == 0,
            pa < 0x100_0000_0000_0000,
    ;
}

/// The entry that maps to `pa` with the given flag bits.
pub open spec fn leaf_pte(pa: u64, flags: u64) -> u64 {
    ((pa >> 12) << 10) | flags
}

pub proof fn lemma_leaf_pte(pa: u64, flags: u64)
    ensures
        valid(leaf_pte(pa, flags)) == valid(flags),
        leaf(leaf_pte(pa, flags)) == leaf(flags),
        flags < 0x400 ==> addr(leaf_pte(pa, flags)) == pa - pa % 4096 && leaf_pte(pa, flags) & 0x3ff
            == flags,
{
    assert({
        let e = ((pa >> 12) << 10) | flags;
        (e & 1 == flags & 1) && (e & 0xe == flags & 0xe) && (flags < 0x400 ==> (e >> 10) << 12 == pa
            - pa % 4096 && e & 0x3ff == flags)
    }) by (bit_vector);
}

/// What the walk steps over are pages of the tree.
pub proof fn lemma_step(
    pm: PhysMem,
    root: u64,
    at: Map<u64, Place>,
    t: u64,
    lvl: int,
    va: u64,
)
    requires
        tree(pm, root, at),
        0 <= lvl <= 2,
        at.dom().contains(t),
        at[t] == place_of(va, lvl),
    ensures
        pm.is_page(t as int),
        lvl > 0 && link(entry(pm, t, idx(va, lvl))) ==> at.dom().contains(
            addr(entry(pm, t, idx(va, lvl))),
        ) && at[addr(entry(pm, t, idx(va, lvl)))] == place_of(va, lvl - 1),
{
    lemma_idx(va, lvl);
    assert(entry_ok(at, at[t], idx(va, lvl), entry(pm, t, idx(va, lvl))));
    if lvl > 0 {
        lemma_child_place(va, lvl);
    }
}

pub proof fn lemma_root_place(va: u64)
    ensures
        place_of(va, 2) == (Place { lvl: 2, pre: 0 }),
{
    reveal_with_fuel(prefix, 2);
}

/// The entry number that `va` selects on level `lvl`.
pub fn index_of(va: u64, lvl: usize) -> (i: usize)
    requires
        lvl <= 2,
    ensures
        i == idx(va, lvl as int),
        i < 512,
{
    proof {
        lemma_idx(va, lvl as int);
    }
    if lvl == 0 {
        ((va >> 12) & 0x1ff) as usize
    } else if lvl == 1 {
        ((va >> 21) & 0x1ff) as usize
    } else {
        ((va >> 30) & 0x1ff) as usize
    }
}

/// The offset of `va` under a leaf of level `lvl`.
pub fn offset_of(va: u64, lvl: usize) -> (o: u64)
    requires
        lvl <= 2,
    ensures
        o == offset(va, lvl as int),
{
    if lvl == 0 {
        va & 0xfff
    } else if lvl == 1 {
        va & 0x1f_ffff
    } else {
        va & 0x3fff_ffff
    }
}

/// One more step of a way.
pub proof fn lemma_reach_extend(pm: PhysMem, t: u64, top: int, va: u64, lvl: int, u: u64)
    requires
        0 < lvl <= top <= 2,
        reach(pm, t, top, va, lvl) == Some(u),
        link(entry(pm, u, idx(va, lvl))),
    ensures
        reach(pm, t, top, va, lvl - 1) == Some(addr(entry(pm, u, idx(va, lvl)))),
    decreases top,
{
    reveal_with_fuel(reach, 2);
    if top > lvl {
        lemma_reach_extend(pm, addr(entry(pm, t, idx(va, top))), top - 1, va, lvl, u);
    }
}

/// A way above a level does not depend on the tables at or below it.
proof fn lemma_reach_write(
    pm: PhysMem,
    pm2: PhysMem,
    root: u64,
    at: Map<u64, Place>,
    t: u64,
    lvl: int,
    va: u64,
    stop: int,
    u: u64,
    i: int,
    e: u64,
)
    requires
        tree(pm, root, at),
        0 <= stop <= lvl <= 2,
        at.dom().contains(t),
        at[t] == place_of(va, lvl),
        at.dom().contains(u),
        at[u].lvl <= stop,
        0 <= i < 512,
        written(pm, u as int, i, e, pm2),
    ensures
        reach(pm2, t, lvl, va, stop) == reach(pm, t, lvl, va, stop),
    decreases lvl,
{
    if lvl > stop {
        lemma_step(pm, root, at, t, lvl, va);
        lemma_idx(va, lvl);
        let x = entry(pm, t, idx(va, lvl));
        assert(entry(pm2, t, idx(va, lvl)) == x);
        if link(x) {
            lemma_reach_write(pm, pm2, root, at, addr(x), lvl - 1, va, stop, u, i, e);
        }
    }
}

/// `p` is a table that some address leads to.
pub open spec fn is_table(pm: PhysMem, root: u64, p: u64) -> bool {
    exists|va: u64, lvl: int| 0 <= lvl <= 2 && #[trigger] reach(pm, root, 2, va, lvl) == Some(p)
}

/// `p` is a page in use that is no table.
pub open spec fn is_data(pm: PhysMem, root: u64, p: u64) -> bool {
    pm.is_page(p as int) && !pm.is_free(p as int) && !is_table(pm, root, p)
}

/// Pages in use that are no tables stay so, with what they hold.
pub open spec fn pages_kept(a: PhysMem, b: PhysMem, root: u64) -> bool {
    forall|p: u64| #[trigger]
        is_data(a, root, p) ==> is_data(b, root, p) && b.page(p as int) == a.page(p as int)
}

/// No way gets further, nor elsewhere, when an entry that is no link is
/// written (or any entry in a table of the last level).
proof fn lemma_reach_set(
    pm: PhysMem,
    pm2: PhysMem,
    root: u64,
    at: Map<u64, Place>,
    t: u64,
    lvl: int,
    va: u64,
    stop: int,
    u: u64,
    i: int,
    e: u64,
)
    requires
        tree(pm, root, at),
        0 <= stop <= lvl <= 2,
        at.dom().contains(t),
        at[t] == place_of(va, lvl),
        at.dom().contains(u),
        0 <= i < 512,
        written(pm, u as int, i, e, pm2),
        at[u].lvl == 0 || !link(e),
    ensures
        reach(pm2, t, lvl, va, stop) is Some ==> reach(pm2, t, lvl, va, stop) == reach(
            pm,
            t,
            lvl,
            va,
            stop,
        ),
    decreases lvl,
{
    if lvl > stop {
        let k = idx(va, lvl);
        lemma_step(pm, root, at, t, lvl, va);
        lemma_idx(va, lvl);
        lemma_frame_no(pm, t as int, u as int);
        assert(pm.page(t as int).len() == WORDS);
        let x = entry(pm, t, k);
        if t == u && k == i {
            assert(entry(pm2, t, k) == e);
        } else {
            assert(entry(pm2, t, k) == x);
            if link(x) {
                lemma_reach_set(pm, pm2, root, at, addr(x), lvl - 1, va, stop, u, i, e);
            }
        }
    }
}

/// Writing an entry that is no link keeps the pages that are no tables.
proof fn lemma_kept_set(
    pm: PhysMem,
    pm2: PhysMem,
    root: u64,
    at: Map<u64, Place>,
    u: u64,
    i: int,
    e: u64,
)
    requires
        tree(pm, root, at),
        at.dom().contains(u),
        is_table(pm, root, u),
        0 <= i < 512,
        written(pm, u as int, i, e, pm2),
        at[u].lvl == 0 || !link(e),
    ensures
        pages_kept(pm, pm2, root),
{
    assert forall|p: u64| #[trigger] is_data(pm, root, p) implies is_data(pm2, root, p) && pm2.page(
        p as int,
    ) == pm.page(p as int) by {
        assert(p != u);
        if is_table(pm2, root, p) {
            let (va, lvl) = choose|va: u64, lvl: int|
                0 <= lvl <= 2 && #[trigger] reach(pm2, root, 2, va, lvl) == Some(p);
            lemma_root_place(va);
            lemma_reach_set(pm, pm2, root, at, root, 2, va, lvl, u, i, e);
            assert(reach(pm, root, 2, va, lvl) == Some(p));
        }
    }
}

/// A way through a new link ends at the new table; all others are as they were.
proof fn lemma_reach_link(
    pm: PhysMem,
    pm2: PhysMem,
    root: u64,
    at: Map<u64, Place>,
    t: u64,
    lvl: int,
    va: u64,
    stop: int,
    u: u64,
    i: int,
    e: u64,
)
    requires
        tree(pm, root, at),
        0 <= stop <= lvl <= 2,
        at.dom().contains(t),
        at[t] == place_of(va, lvl),
        at.dom().contains(u),
        0 <= i < 512,
        written(pm, u as int, i, e, pm2),
        pm.is_page(addr(e) as int),
        addr(e) != u,
        pm.page(addr(e) as int) == zero_page(),
    ensures
        match reach(pm2, t, lvl, va, stop) {
            Some(p) => p == addr(e) || reach(pm, t, lvl, va, stop) == Some(p),
            None => true,
        },
    decreases lvl,
{
    if lvl > stop {
        let k = idx(va, lvl);
        lemma_step(pm, root, at, t, lvl, va);
        lemma_idx(va, lvl);
        lemma_frame_no(pm, t as int, u as int);
        assert(pm.page(t as int).len() == WORDS);
        let x = entry(pm, t, k);
        if t == u && k == i {
            assert(entry(pm2, t, k) == e);
            if lvl - 1 > stop {
                lemma_idx(va, lvl - 1);
                assert(pm2.page(addr(e) as int) == zero_page());
                assert(entry(pm2, addr(e), idx(va, lvl - 1)) == 0);
                assert(!link(0)) by {
                    lemma_bits();
                }
                assert(reach(pm2, addr(e), lvl - 1, va, stop) is None);
            } else {
                assert(reach(pm2, addr(e), lvl - 1, va, stop) == Some(addr(e)));
            }
        } else {
            assert(entry(pm2, t, k) == x);
            if link(x) {
                lemma_reach_link(pm, pm2, root, at, addr(x), lvl - 1, va, stop, u, i, e);
            }
        }
    }
}

/// A page that was in use stays in use for data, with what it holds, when a new
/// root is handed out.
pub proof fn lemma_kept_root(a: PhysMem, b: PhysMem, root: u64)
    requires
        a.wf(),
        b.wf(),
        alloc_post(a, Some(root), b),
        !b.is_free(root as int),
    ensures
        forall|p: u64|
            a.is_page(p as int) && !#[trigger] a.is_free(p as int) ==> is_data(b, root, p) && b.page(
                p as int,
            ) == a.page(p as int),
{
    assert(a.free@[a.free@.len() - 1] == root);
    assert(a.is_free(root as int));
    assert forall|p: u64| a.is_page(p as int) && !#[trigger] a.is_free(p as int) implies is_data(
        b,
        root,
        p,
    ) && b.page(p as int) == a.page(p as int) by {
        if b.is_free(p as int) {
            let i = choose|i: int| 0 <= i < b.free@.len() && #[trigger] b.free@[i] == p as int;
            assert(a.free@[i] == p as int);
        }
        if is_table(b, root, p) {
            let (va, lvl) = choose|va: u64, lvl: int|
                0 <= lvl <= 2 && #[trigger] reach(b, root, 2, va, lvl) == Some(p);
            lemma_idx(va, 2);
            assert(entry(b, root, idx(va, 2)) == 0);
            assert(!link(0)) by {
                lemma_bits();
            }
        }
    }
}

/// Handing out a page keeps the pages that are no tables, and the new one is
/// none.
pub proof fn lemma_kept_alloc(
    a: PhysMem,
    b: PhysMem,
    root: u64,
    at: Map<u64, Place>,
    r: Option<u64>,
)
    requires
        tree(a, root, at),
        alloc_post(a, r, b),
        b.wf(),
        r is Some ==> !b.is_free(r->0 as int),
    ensures
        pages_kept(a, b, root),
        r is Some ==> is_data(b, root, r->0) && b.page(r->0 as int) == zero_page(),
        forall|p: u64| is_table(b, root, p) ==> #[trigger] is_table(a, root, p),
{
    lemma_tree_alloc(a, b, root, at, r);
    assert forall|p: u64| is_table(b, root, p) implies #[trigger] is_table(a, root, p) && at.dom().contains(
        p,
    ) by {
        let (va, lvl) = choose|va: u64, lvl: int|
            0 <= lvl <= 2 && #[trigger] reach(b, root, 2, va, lvl) == Some(p);
        lemma_root_place(va);
        lemma_find_same(a, b, root, at, root, 2, va, lvl);
        lemma_reach(a, root, at, root, 2, va, lvl);
        assert(reach(a, root, 2, va, lvl) == Some(p));
    }
    if r is Some {
        assert(a.free@[a.free@.len() - 1] == r->0);
        assert(a.is_free(r->0 as int));
        assert(a.is_page(a.free@[a.free@.len() - 1] as int));
        if is_table(b, root, r->0) {
            assert(is_table(a, root, r->0));
        }
    }
    assert forall|p: u64| #[trigger] is_data(a, root, p) implies is_data(b, root, p) && b.page(
        p as int,
    ) == a.page(p as int) by {
        if b.is_free(p as int) {
            let i = choose|i: int| 0 <= i < b.free@.len() && #[trigger] b.free@[i] == p as int;
            assert(a.free@[i] == p as int);
        }
        if is_table(b, root, p) {
            assert(is_table(a, root, p));
        }
    }
}

/// Handing out a page and linking it as a table keeps the pages that are no
/// tables.
proof fn lemma_kept_link(
    a: PhysMem,
    b: PhysMem,
    c: PhysMem,
    root: u64,
    at: Map<u64, Place>,
    t: u64,
    i: int,
    n: u64,
    e: u64,
)
    requires
        tree(a, root, at),
        alloc_post(a, Some(n), b),
        b.wf(),
        !b.is_free(n as int),
        at.dom().contains(t),
        is_table(a, root, t),
        0 <= i < 512,
        written(b, t as int, i, e, c),
        addr(e) == n,
    ensures
        pages_kept(a, c, root),
{
    lemma_tree_alloc(a, b, root, at, Some(n));
    lemma_kept_alloc(a, b, root, at, Some(n));
    assert(a.free@[a.free@.len() - 1] == n);
    assert(a.is_free(n as int));
    assert forall|p: u64| #[trigger] is_data(a, root, p) implies is_data(c, root, p) && c.page(
        p as int,
    ) == a.page(p as int) by {
        assert(is_data(b, root, p));
        assert(p != n);
        assert(p != t);
        if is_table(c, root, p) {
            let (va, lvl) = choose|va: u64, lvl: int|
                0 <= lvl <= 2 && #[trigger] reach(c, root, 2, va, lvl) == Some(p);
            lemma_root_place(va);
            lemma_reach_link(b, c, root, at, root, 2, va, lvl, t, i, e);
            assert(reach(b, root, 2, va, lvl) == Some(p));
            assert(is_table(b, root, p));
        }
    }
}

/// Every table that an address led to, it leads to still.
pub open spec fn tables_stay(a: PhysMem, b: PhysMem, root: u64) -> bool {
    forall|x: u64, l: int|
        0 <= l <= 2 && reach(a, root, 2, x, l) is Some ==> #[trigger] reach(b, root, 2, x, l)
            == reach(a, root, 2, x, l)
}

/// A link that is put where no entry was leaves every way as it was, as far as
/// it got.
proof fn lemma_reach_grows(
    pm: PhysMem,
    pm2: PhysMem,
    root: u64,
    at: Map<u64, Place>,
    t: u64,
    lvl: int,
    va: u64,
    stop: int,
    u: u64,
    i: int,
    e: u64,
)
    requires
        tree(pm, root, at),
        0 <= stop <= lvl <= 2,
        at.dom().contains(t),
        at[t] == place_of(va, lvl),
        at.dom().contains(u),
        0 <= i < 512,
        written(pm, u as int, i, e, pm2),
        !valid(entry(pm, u, i)),
        reach(pm, t, lvl, va, stop) is Some,
    ensures
        reach(pm2, t, lvl, va, stop) == reach(pm, t, lvl, va, stop),
    decreases lvl,
{
    if lvl > stop {
        let k = idx(va, lvl);
        lemma_step(pm, root, at, t, lvl, va);
        lemma_idx(va, lvl);
        lemma_frame_no(pm, t as int, u as int);
        assert(pm.page(t as int).len() == WORDS);
        let x = entry(pm, t, k);
        assert(link(x));
        assert(!(t == u && k == i));
        assert(entry(pm2, t, k) == x);
        lemma_reach_grows(pm, pm2, root, at, addr(x), lvl - 1, va, stop, u, i, e);
    }
}

/// Which tables are missing, by how far the way gets.
pub proof fn lemma_missing_by_reach(pm: PhysMem, root: u64, va: u64)
    ensures
        !blocked(pm, root, 2, va, 0) ==> missing(pm, root, 2, va, 0) == (if reach(
            pm,
            root,
            2,
            va,
            0,
        ) is Some {
            0int
        } else if reach(pm, root, 2, va, 1) is Some {
            1
        } else {
            2
        }),
{
    reveal_with_fuel(reach, 3);
    reveal_with_fuel(missing, 3);
    reveal_with_fuel(blocked, 3);
}

/// Goes down to the table of level `stop` on the way of `va`, adding the
/// tables that are missing. `None` where a large page is in the way or no page
/// is left; either way no address leads anywhere else than before.
#[verifier::loop_isolation(false)]
pub fn descend(pm: &mut PhysMem, root: u64, va: u64, stop: usize) -> (r: Option<u64>)
    requires
        table_wf(*old(pm), root),
        stop <= 2,
    ensures
        table_wf(*final(pm), root),
        same_ways(*old(pm), *final(pm), root),
        pages_kept(*old(pm), *final(pm), root),
        tables_stay(*old(pm), *final(pm), root),
        pages_taken(*old(pm), *final(pm)),
        match r {
            Some(u) => {
                &&& !blocked(*old(pm), root, 2, va, stop as int)
                &&& final(pm).free@.len() == old(pm).free@.len() - missing(
                    *old(pm),
                    root,
                    2,
                    va,
                    stop as int,
                )
                &&& reach(*final(pm), root, 2, va, stop as int) == Some(u)
            },
            None => blocked(*old(pm), root, 2, va, stop as int) || old(pm).free@.len() < missing(
                *old(pm),
                root,
                2,
                va,
                stop as int,
            ),
        },
{
    let ghost pm0 = *pm;
    let ghost mut at = choose|at: Map<u64, Place>| tree(*pm, root, at);
    let mut t: u64 = root;
    let mut lvl: usize = 2;
    proof {
        lemma_root_place(va);
        lemma_taken_none(pm0, *pm);
    }
    while lvl > stop
        invariant
            stop <= lvl <= 2,
            tree(*pm, root, at),
            at.dom().contains(t),
            at[t] == place_of(va, lvl as int),
            reach(*pm, root, 2, va, lvl as int) == Some(t),
            same_ways(pm0, *pm, root),
            pages_kept(pm0, *pm, root),
            tables_stay(pm0, *pm, root),
            pages_taken(pm0, *pm),
            blocked(*pm, t, lvl as int, va, stop as int) == blocked(
                pm0,
                root,
                2,
                va,
                stop as int,
            ),
            missing(*pm, t, lvl as int, va, stop as int) + pm0.free@.len() - pm.free@.len()
                == missing(pm0, root, 2, va, stop as int),
        decreases lvl,
    {
        let i: usize = index_of(va, lvl);
        proof {
            lemma_step(*pm, root, at, t, lvl as int, va);
        }
        let e: u64 = pm.read(t, i);
        if e & PTE_V == 0 {
            let ghost a = *pm;
            let page: Option<u64> = crate::pmm::alloc_page(pm);
            match page {
                None => {
                    proof {
                        lemma_tree_alloc(a, *pm, root, at, page);
                        lemma_kept_alloc(a, *pm, root, at, page);
                        lemma_taken_one(a, page, *pm);
                        lemma_taken_more(pm0, a, *pm);
                        assert forall|b: u64| #[trigger]
                            find(*pm, root, 2, b) == find(pm0, root, 2, b) by {
                            lemma_root_place(b);
                            lemma_find_same(a, *pm, root, at, root, 2, b, 0);
                        }
                        assert forall|x: u64, l: int|
                            0 <= l <= 2 && reach(pm0, root, 2, x, l) is Some implies #[trigger] reach(
                            *pm,
                            root,
                            2,
                            x,
                            l,
                        ) == reach(pm0, root, 2, x, l) by {
                            lemma_root_place(x);
                            lemma_find_same(a, *pm, root, at, root, 2, x, l);
                        }
                    }
                    return None;
                },
                Some(n) => {
                    let ghost b = *pm;
                    proof {
                        lemma_tree_alloc(a, b, root, at, page);
                        lemma_find_same(a, b, root, at, root, 2, va, lvl as int);
                        lemma_table_pte(n);
                    }
                    let ne: u64 = ((n >> 12) << 10) | PTE_V;
                    pm.write(t, i, ne);
                    proof {
                        let c = *pm;
                        assert(entry(b, t, i as int) == e);
                        lemma_tree_link(b, c, root, at, t, i as int, ne);
                        lemma_kept_link(a, b, c, root, at, t, i as int, n, ne);
                        lemma_taken_one(a, page, b);
                        lemma_taken_none(b, c);
                        lemma_taken_more(a, b, c);
                        lemma_taken_more(pm0, a, c);
                        let at2 = at.insert(
                            n,
                            Place { lvl: at[t].lvl - 1, pre: at[t].pre * 512 + i },
                        );
                        assert forall|x: u64| #[trigger]
                            find(c, root, 2, x) == find(pm0, root, 2, x) by {
                            lemma_root_place(x);
                            lemma_find_same(a, b, root, at, root, 2, x, 0);
                            lemma_find_link(b, c, root, at, root, 2, x, t, i as int, ne);
                        }
                        assert forall|x: u64, l: int|
                            0 <= l <= 2 && reach(pm0, root, 2, x, l) is Some implies #[trigger] reach(
                            c,
                            root,
                            2,
                            x,
                            l,
                        ) == reach(pm0, root, 2, x, l) by {
                            assert(reach(a, root, 2, x, l) == reach(pm0, root, 2, x, l));
                            lemma_root_place(x);
                            lemma_find_same(a, b, root, at, root, 2, x, l);
                            lemma_reach_grows(b, c, root, at, root, 2, x, l, t, i as int, ne);
                        }
                        lemma_reach_write(
                            b,
                            c,
                            root,
                            at,
                            root,
                            2,
                            va,
                            lvl as int,
                            t,
                            i as int,
                            ne,
                        );
                        assert(entry(c, t, i as int) == ne) by {
                            lemma_frame_no(b, t as int, t as int);
                            assert(b.page(t as int).len() == WORDS);
                        }
                        lemma_reach_extend(c, root, 2, va, lvl as int, t);
                        lemma_child_place(va, lvl as int);
                        at = at2;
                        // The new table is empty.
                        lemma_idx(va, lvl - 1);
                        lemma_frame_no(b, n as int, t as int);
                        assert(c.page(n as int) == zero_page());
                        assert(entry(c, n, idx(va, lvl - 1)) == 0);
                        lemma_bits();
                    }
                    t = n;
                },
            }
        } else {
            proof {
                lemma_bits();
            }
            if e & (PTE_R | PTE_W | PTE_X) != 0 {
                return None;
            }
            proof {
                lemma_reach_extend(*pm, root, 2, va, lvl as int, t);
            }
            t = (e >> 10) << 12;
        }
        lvl = lvl - 1;
    }
    Some(t)
}

/// Replaces the entry of level `lvl` in the table `u` that the way of `va`
/// leads to.
pub fn set_entry(pm: &mut PhysMem, root: u64, u: u64, va: u64, lvl: usize, e: u64)
    requires
        table_wf(*old(pm), root),
        lvl <= 2,
        reach(*old(pm), root, 2, va, lvl as int) == Some(u),
        lvl == 0 || !link(e),
    ensures
        table_wf(*final(pm), root),
        entry_set(*old(pm), *final(pm), root, va, lvl as int, e),
        pages_kept(*old(pm), *final(pm), root),
        lvl == 0 ==> tables_stay(*old(pm), *final(pm), root),
        pages_taken(*old(pm), *final(pm)),
        final(pm).free == old(pm).free,
{
    let ghost a = *pm;
    let ghost at = choose|at: Map<u64, Place>| tree(a, root, at);
    proof {
        lemma_root_place(va);
        lemma_reach(a, root, at, root, 2, va, lvl as int);
    }
    let i: usize = index_of(va, lvl);
    pm.write(u, i, e);
    proof {
        lemma_taken_none(a, *pm);
        lemma_kept_set(a, *pm, root, at, u, i as int, e);
        assert forall|x: u64, l: int|
            lvl == 0 && 0 <= l <= 2 && reach(a, root, 2, x, l) is Some implies #[trigger] reach(
            *pm,
            root,
            2,
            x,
            l,
        ) == reach(a, root, 2, x, l) by {
            lemma_root_place(x);
            lemma_reach_write(a, *pm, root, at, root, 2, x, l, u, i as int, e);
        }
        lemma_entry_set(a, *pm, root, at, va, lvl as int, u, e);
    }
}

/// The way of `va`, followed as far as it goes.
#[verifier::loop_isolation(false)]
pub fn find_leaf(pm: &PhysMem, root: u64, va: u64) -> (r: Option<(u64, usize)>)
    requires
        table_wf(*pm, root),
    ensures
        match r {
            Some((e, lvl)) => find(*pm, root, 2, va) == Some((e, lvl as int)) && lvl <= 2,
            None => find(*pm, root, 2, va) is None,
        },
{
    let ghost at = choose|at: Map<u64, Place>| tree(*pm, root, at);
    let mut t: u64 = root;
    let mut lvl: usize = 2;
    proof {
        lemma_root_place(va);
        lemma_bits();
    }
    while lvl > 0
        invariant
            lvl <= 2,
            at.dom().contains(t),
            at[t] == place_of(va, lvl as int),
            find(*pm, t, lvl as int, va) == find(*pm, root, 2, va),
        decreases lvl,
    {
        proof {
            lemma_step(*pm, root, at, t, lvl as int, va);
        }
        let e: u64 = pm.read(t, index_of(va, lvl));
        if e & PTE_V == 0 {
            return None;
        }
        if e & (PTE_R | PTE_W | PTE_X) != 0 {
            return Some((e, lvl));
        }
        t = (e >> 10) << 12;
        lvl = lvl - 1;
    }
    proof {
        lemma_step(*pm, root, at, t, 0, va);
    }
    let e: u64 = pm.read(t, index_of(va, 0));
    if e & PTE_V == 0 {
        None
    } else {
        Some((e, 0))
    }
}

/// The table and level where the way of `va` ends: at a large page, or at the
/// last level, whatever the entry there holds.
pub open spec fn end_of(pm: PhysMem, t: u64, lvl: int, va: u64) -> Option<(u64, int)>
    decreases lvl,
{
    if lvl <= 0 {
        Some((t, lvl))
    } else {
        let e = entry(pm, t, idx(va, lvl));
        if !valid(e) {
            None
        } else if leaf(e) {
            Some((t, lvl))
        } else {
            end_of(pm, addr(e), lvl - 1, va)
        }
    }
}

/// Follows the way of `va` to the entry where it ends, adding nothing.
#[verifier::loop_isolation(false)]
pub fn find_end(pm: &PhysMem, root: u64, va: u64) -> (r: Option<(u64, usize)>)
    requires
        table_wf(*pm, root),
    ensures
        match r {
            Some((u, lvl)) => {
                &&& lvl <= 2
                &&& end_of(*pm, root, 2, va) == Some((u, lvl as int))
                &&& reach(*pm, root, 2, va, lvl as int) == Some(u)
                &&& pm.wf() && pm.is_page(u as int)
                &&& lvl > 0 ==> leaf(entry(*pm, u, idx(va, lvl as int)))
            },
            None => end_of(*pm, root, 2, va) is None,
        },
{
    let ghost at = choose|at: Map<u64, Place>| tree(*pm, root, at);
    let mut t: u64 = root;
    let mut lvl: usize = 2;
    proof {
        lemma_root_place(va);
        lemma_bits();
    }
    while lvl > 0
        invariant
            lvl <= 2,
            at.dom().contains(t),
            at[t] == place_of(va, lvl as int),
            reach(*pm, root, 2, va, lvl as int) == Some(t),
            end_of(*pm, t, lvl as int, va) == end_of(*pm, root, 2, va),
        decreases lvl,
    {
        proof {
            lemma_step(*pm, root, at, t, lvl as int, va);
        }
        let e: u64 = pm.read(t, index_of(va, lvl));
        if e & PTE_V == 0 {
            return None;
        }
        if e & (PTE_R | PTE_W | PTE_X) != 0 {
            return Some((t, lvl));
        }
        proof {
            lemma_reach_extend(*pm, root, 2, va, lvl as int, t);
        }
        t = (e >> 10) << 12;
        lvl = lvl - 1;
    }
    proof {
        lemma_step(*pm, root, at, t, 0, va);
    }
    Some((t, 0))
}

/// A cleared page is the root of a tree without any mapping.
pub proof fn lemma_empty_table(pm: PhysMem, root: u64)
    requires
        pm.wf(),
        pm.is_page(root as int),
        !pm.is_free(root as int),
        pm.page(root as int) == zero_page(),
    ensures
        table_wf(pm, root),
        forall|va: u64| #[trigger] find(pm, root, 2, va) is None,
{
    let at = Map::<u64, Place>::empty().insert(root, Place { lvl: 2, pre: 0 });
    lemma_bits();
    assert forall|t: u64, i: int| at.dom().contains(t) && 0 <= i < 512 implies entry_ok(
        at,
        at[t],
        i,
        #[trigger] entry(pm, t, i),
    ) by {
        assert(entry(pm, root, i) == 0);
    }
    assert(tree(pm, root, at));
    assert forall|va: u64| #[trigger] find(pm, root, 2, va) is None by {
        lemma_idx(va, 2);
        assert(entry(pm, root, idx(va, 2)) == 0);
    }
}

} // verus!
