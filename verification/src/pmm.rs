//! Physical memory: a stack of free pages, and the contents of all pages.

use vstd::prelude::*;

verus! {

pub const PAGE_SIZE: u64 = 4096;

/// How many 64-bit words a page has.
pub const WORDS: usize = 512;

/// Physical memory from `start` on, page by page.
pub struct PhysMem {
    pub start: u64,
    /// The pages' contents as 64-bit words.
    pub frames: Vec<Vec<u64>>,
    /// Addresses of free pages; the last one is handed out first.
    pub free: Vec<u64>,
    pub alloc_count: u64,
    pub free_count: u64,
}

/// A page of zero words.
pub open spec fn zero_page() -> Seq<u64> {
    Seq::new(WORDS as nat, |i: int| 0u64)
}

/// The first page boundary at or above `a`.
pub open spec fn page_up(a: int) -> int {
    (a + 4095) / 4096 * 4096
}

/// The last page boundary at or below `a`.
pub open spec fn page_down(a: int) -> int {
    a / 4096 * 4096
}

/// The page addresses of `[start, end)`, both page boundaries, in order.
pub open spec fn pages(start: int, end: int) -> Seq<u64> {
    Seq::new(
        (if start < end {
            (end - start) / 4096
        } else {
            0
        }) as nat,
        |i: int| (start + 4096 * i) as u64,
    )
}

impl PhysMem {
    pub open spec fn in_ram(&self, pa: int) -> bool {
        self.start <= pa < self.start + 4096 * self.frames@.len()
    }

    /// `pa` is the address of a page.
    pub open spec fn is_page(&self, pa: int) -> bool {
        self.in_ram(pa) && pa % 4096 == 0
    }

    pub open spec fn frame_no(&self, pa: int) -> int {
        (pa - self.start) / 4096
    }

    /// The contents of the page at `pa`.
    pub open spec fn page(&self, pa: int) -> Seq<u64> {
        self.frames@[self.frame_no(pa)]@
    }

    pub open spec fn is_free(&self, pa: int) -> bool {
        exists|i: int| 0 <= i < self.free@.len() && #[trigger] self.free@[i] == pa
    }

    pub open spec fn wf(&self) -> bool {
        &&& self.start % 4096 == 0
        &&& self.frames@.len() > 0 ==> self.start + 4096 * self.frames@.len()
            <= 0x100_0000_0000_0000
        &&& forall|k: int|
            0 <= k < self.frames@.len() ==> (#[trigger] self.frames@[k])@.len() == WORDS
        &&& forall|i: int|
            0 <= i < self.free@.len() ==> self.is_page(#[trigger] self.free@[i] as int)
        &&& self.free@.no_duplicates()
    }
}

/// Two pages share a frame only if they are the same page.
pub proof fn lemma_frame_no(pm: PhysMem, a: int, b: int)
    requires
        pm.wf(),
        pm.is_page(a),
        pm.is_page(b),
    ensures
        0 <= pm.frame_no(a) < pm.frames@.len(),
        pm.frame_no(a) == pm.frame_no(b) ==> a == b,
{
}

/// Takes over the memory in `[start, end)`, cut to whole pages, all free. Bounds
/// that hold no whole page leave none.
pub fn init(start: u64, end: u64) -> (r: PhysMem)
    requires
        start + 4095 <= u64::MAX,
        end <= 0x100_0000_0000_0000,
    ensures
        r.wf(),
        r.start == page_up(start as int),
        r.free@ == pages(page_up(start as int), page_down(end as int)),
        r.frames@.len() == r.free@.len(),
        r.alloc_count == 0,
        r.free_count == r.free@.len(),
        forall|a: int| r.is_page(a) ==> #[trigger] r.page(a) == zero_page(),
{
    let first: u64 = (start + 4095) / 4096 * 4096;
    let last: u64 = end / 4096 * 4096;
    let mut free: Vec<u64> = Vec::new();
    let mut frames: Vec<Vec<u64>> = Vec::new();
    let mut p: u64 = first;
    while p < last
        invariant
            first == page_up(start as int),
            last == page_down(end as int),
            end <= 0x100_0000_0000_0000,
            first % 4096 == 0,
            last % 4096 == 0,
            p % 4096 == 0,
            first <= p,
            p <= last || p == first,
            free@.len() == (p - first) / 4096,
            frames@.len() == free@.len(),
            forall|i: int| 0 <= i < free@.len() ==> #[trigger] free@[i] == first + 4096 * i,
            forall|i: int| 0 <= i < frames@.len() ==> (#[trigger] frames@[i])@ == zero_page(),
        decreases last - p,
    {
        free.push(p);
        let page: Vec<u64> = zeroed();
        frames.push(page);
        p = p + 4096;
    }
    let n: u64 = free.len() as u64;
    let r = PhysMem { start: first, frames, free, alloc_count: 0, free_count: n };
    proof {
        assert(r.free@ =~= pages(page_up(start as int), page_down(end as int)));
        assert forall|a: int| r.is_page(a) implies #[trigger] r.page(a) == zero_page() by {
            lemma_frame_bounds(r.start as int, r.frames@.len() as int, a);
        }
        assert forall|i: int| 0 <= i < r.free@.len() implies r.is_page(
            #[trigger] r.free@[i] as int,
        ) by {
            assert(r.free@[i] == first + 4096 * i);
        }
    }
    r
}

proof fn lemma_frame_bounds(start: int, n: int, a: int)
    requires
        start <= a < start + 4096 * n,
    ensures
        0 <= (a - start) / 4096 < n,
{
}

fn zeroed() -> (r: Vec<u64>)
    ensures
        r@ == zero_page(),
{
    let mut r: Vec<u64> = Vec::new();
    let mut i: usize = 0;
    while i < WORDS
        invariant
            i <= WORDS,
            r@ =~= Seq::new(i as nat, |j: int| 0u64),
        decreases WORDS - i,
    {
        r.push(0);
        i = i + 1;
    }
    r
}

/// What handing out a page changes: it leaves the free stack and is cleared.
pub open spec fn alloc_post(a: PhysMem, r: Option<u64>, b: PhysMem) -> bool {
    if a.free@.len() == 0 {
        &&& r is None
        &&& b.free@ == a.free@
        &&& b.start == a.start
        &&& b.frames == a.frames
        &&& b.alloc_count == a.alloc_count
        &&& b.free_count == a.free_count
    } else {
        &&& r == Some(a.free@.last())
        &&& b.free@ == a.free@.drop_last()
        &&& b.start == a.start
        &&& b.frames@.len() == a.frames@.len()
        &&& b.page(r->0 as int) == zero_page()
        &&& forall|p: int| a.is_page(p) && p != r->0 ==> #[trigger] b.page(p) == a.page(p)
        &&& b.free_count == a.free_count
        &&& b.alloc_count == (if a.alloc_count == u64::MAX {
            0
        } else {
            (a.alloc_count + 1) as u64
        })
    }
}

/// Pages were handed out from the top of the free stack, as the count of such
/// pages tells, and nothing else of the bookkeeping changed.
pub open spec fn pages_taken(a: PhysMem, b: PhysMem) -> bool {
    &&& b.start == a.start
    &&& b.frames@.len() == a.frames@.len()
    &&& b.free@.len() <= a.free@.len()
    &&& b.free@ == a.free@.take(b.free@.len() as int)
    &&& b.free_count == a.free_count
    &&& b.alloc_count == (a.alloc_count + (a.free@.len() - b.free@.len())) % 0x1_0000_0000_0000_0000
}

pub proof fn lemma_taken_none(a: PhysMem, b: PhysMem)
    requires
        b.start == a.start,
        b.frames@.len() == a.frames@.len(),
        b.free@ == a.free@,
        b.free_count == a.free_count,
        b.alloc_count == a.alloc_count,
    ensures
        pages_taken(a, b),
{
    assert(b.free@ =~= a.free@.take(b.free@.len() as int));
}

pub proof fn lemma_taken_one(a: PhysMem, r: Option<u64>, b: PhysMem)
    requires
        alloc_post(a, r, b),
    ensures
        pages_taken(a, b),
{
    assert(b.free@ =~= a.free@.take(b.free@.len() as int));
}

pub proof fn lemma_taken_more(a: PhysMem, b: PhysMem, c: PhysMem)
    requires
        pages_taken(a, b),
        pages_taken(b, c),
    ensures
        pages_taken(a, c),
{
    assert(c.free@ =~= a.free@.take(c.free@.len() as int));
}

impl PhysMem {
    /// The frame of a page, as an index.
    fn index(&self, pa: u64) -> (k: usize)
        requires
            self.wf(),
            self.in_ram(pa as int),
        ensures
            k == self.frame_no(pa as int),
            k < self.frames@.len(),
    {
        proof {
            lemma_frame_bounds(self.start as int, self.frames@.len() as int, pa as int);
        }
        let n: usize = self.frames.len();
        ((pa - self.start) / 4096) as usize
    }

    /// Word `i` of the page at `pa`.
    pub fn read(&self, pa: u64, i: usize) -> (v: u64)
        requires
            self.wf(),
            self.is_page(pa as int),
            i < WORDS,
        ensures
            v == self.page(pa as int)[i as int],
    {
        let k: usize = self.index(pa);
        self.frames[k][i]
    }

    /// Stores word `i` of the page at `pa`.
    pub fn write(&mut self, pa: u64, i: usize, v: u64)
        requires
            old(self).wf(),
            old(self).is_page(pa as int),
            i < WORDS,
        ensures
            final(self).wf(),
            written(*old(self), pa as int, i as int, v, *final(self)),
    {
        let k: usize = self.index(pa);
        let ghost a = *self;
        self.frames[k][i] = v;
        proof {
            assert forall|p: int| a.is_page(p) && p != pa implies #[trigger] self.page(p) == a.page(
                p,
            ) by {
                lemma_frame_no(a, p, pa as int);
            }
            assert forall|j: int| 0 <= j < self.frames@.len() implies (
            #[trigger] self.frames@[j])@.len() == WORDS by {
                assert(a.frames@[j]@.len() == WORDS);
            }
        }
    }
}

/// `b` is `a` with word `i` of the page at `pa` set to `v`.
pub open spec fn written(a: PhysMem, pa: int, i: int, v: u64, b: PhysMem) -> bool {
    &&& b.start == a.start
    &&& b.frames@.len() == a.frames@.len()
    &&& b.free == a.free
    &&& b.alloc_count == a.alloc_count
    &&& b.free_count == a.free_count
    &&& b.page(pa) == a.page(pa).update(i, v)
    &&& forall|p: int| a.is_page(p) && p != pa ==> #[trigger] b.page(p) == a.page(p)
}

/// Hands out a page, cleared.
pub fn alloc_page(pm: &mut PhysMem) -> (r: Option<u64>)
    requires
        old(pm).wf(),
    ensures
        final(pm).wf(),
        alloc_post(*old(pm), r, *final(pm)),
        r is Some ==> final(pm).is_page(r->0 as int) && !final(pm).is_free(r->0 as int),
{
    let ghost a = *pm;
    match pm.free.pop() {
        None => None,
        Some(pa) => {
            pm.alloc_count = pm.alloc_count.wrapping_add(1);
            let n: usize = pm.frames.len();
            proof {
                assert(a.free@[a.free@.len() - 1] == pa);
                assert(a.is_page(a.free@[a.free@.len() - 1] as int));
                lemma_frame_bounds(pm.start as int, pm.frames@.len() as int, pa as int);
                assert forall|i: int| 0 <= i < pm.free@.len() implies a.is_page(
                    #[trigger] pm.free@[i] as int,
                ) && pm.free@[i] != pa by {
                    assert(pm.free@[i] == a.free@[i]);
                }
            }
            let k: usize = ((pa - pm.start) / 4096) as usize;
            let page: Vec<u64> = zeroed();
            pm.frames.set(k, page);
            proof {
                assert forall|p: int| a.is_page(p) && p != pa implies #[trigger] pm.page(p)
                    == a.page(p) by {
                    lemma_frame_no(a, p, pa as int);
                }
                assert forall|j: int| 0 <= j < pm.frames@.len() implies (
                #[trigger] pm.frames@[j])@.len() == WORDS by {
                    if j != k {
                        assert(a.frames@[j]@.len() == WORDS);
                    }
                }
            }
            Some(pa)
        },
    }
}

/// Gives a page back.
pub fn free_page(pm: &mut PhysMem, pa: u64)
    requires
        old(pm).wf(),
        old(pm).is_page(pa as int),
        !old(pm).is_free(pa as int),
    ensures
        final(pm).wf(),
        final(pm).free@ == old(pm).free@.push(pa),
        final(pm).frames == old(pm).frames,
        final(pm).start == old(pm).start,
        final(pm).alloc_count == old(pm).alloc_count,
        final(pm).free_count == (if old(pm).free_count == u64::MAX {
            0
        } else {
            (old(pm).free_count + 1) as u64
        }),
{
    let ghost a = *pm;
    pm.free.push(pa);
    pm.free_count = pm.free_count.wrapping_add(1);
    proof {
        assert forall|i: int| 0 <= i < pm.free@.len() implies pm.is_page(
            #[trigger] pm.free@[i] as int,
        ) by {
            if i < a.free@.len() {
                assert(a.is_page(a.free@[i] as int));
            }
        }
        assert forall|i: int, j: int|
            0 <= i < pm.free@.len() && 0 <= j < pm.free@.len() && i != j implies pm.free@[i]
            != pm.free@[j] by {
            if i == a.free@.len() {
                assert(a.free@[j] != pa);
            } else if j == a.free@.len() {
                assert(a.free@[i] != pa);
            }
        }
    }
}

/// How many pages were handed out, and how many were given to the stack.
pub fn stats(pm: &PhysMem) -> (r: (u64, u64))
    ensures
        r == (pm.alloc_count, pm.free_count),
{
    (pm.alloc_count, pm.free_count)
}

/// A page that is given back is the next one handed out, cleared.
pub proof fn freed_page_comes_back(a: PhysMem, pa: u64, b: PhysMem, r: Option<u64>, c: PhysMem)
    requires
        b.free@ == a.free@.push(pa),
        alloc_post(b, r, c),
    ensures
        r == Some(pa),
        c.free@ == a.free@,
        c.page(pa as int) == zero_page(),
{
    assert(a.free@.push(pa).drop_last() =~= a.free@);
}

/// Two pages that are handed out, and not given back in between, are different, and
/// each is cleared; the first keeps what it holds while the second is handed out.
pub proof fn live_pages_differ(a: PhysMem, r: Option<u64>, b: PhysMem, s: Option<u64>, c: PhysMem)
    requires
        a.wf(),
        b.wf(),
        alloc_post(a, r, b),
        alloc_post(b, s, c),
        r is Some,
        s is Some,
    ensures
        r != s,
        a.is_free(r->0 as int) && !b.is_free(r->0 as int),
        b.page(r->0 as int) == zero_page(),
        c.page(s->0 as int) == zero_page(),
        c.page(r->0 as int) == b.page(r->0 as int),
{
    assert(a.free@[a.free@.len() - 1] == r->0);
    assert(a.free@[a.free@.len() - 2] == s->0);
    assert(a.is_free(r->0 as int));
    assert(b.is_page(r->0 as int));
}

} // verus!
