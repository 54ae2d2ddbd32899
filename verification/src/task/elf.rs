//! RISC-V ELF64 programs: reading the headers, and what the pages of a segment
//! hold.

use vstd::prelude::*;
use crate::bytes::{from_le, get_le, lemma_span};
use crate::sv39::{PTE_A, PTE_D, PTE_R, PTE_U, PTE_W, PTE_X};
use crate::text::{to_lossy, utf8_lossy};

verus! {

pub const PT_LOAD: u32 = 1;
pub const PT_DYNAMIC: u32 = 2;
pub const PT_INTERP: u32 = 3;
pub const PT_PHDR: u32 = 6;
pub const PF_X: u32 = 1;
pub const PF_W: u32 = 2;
pub const PF_R: u32 = 4;
pub const EM_RISCV: u16 = 243;
pub const PAGE_SIZE: usize = 4096;

#[derive(Clone, Copy, PartialEq, Eq, Structural, Debug)]
pub struct Phdr {
    pub p_type: u32,
    pub p_flags: u32,
    pub p_offset: u64,
    pub p_vaddr: u64,
    pub p_filesz: u64,
    pub p_memsz: u64,
    pub p_align: u64,
}

/// What the headers say of a program. `interp` is the path of its loader.
pub struct ElfImage {
    pub entry: usize,
    pub base: usize,
    pub phdr: usize,
    pub phnum: usize,
    pub phent: usize,
    pub interp: Option<Vec<u8>>,
    pub is_dyn: bool,
    /// The end of the highest segment.
    pub max_vaddr: usize,
}

/// The number in `n` bytes of `d` from `o` on.
pub open spec fn at(d: Seq<u8>, o: int, n: int) -> int {
    from_le(d.subrange(o, o + n)) as int
}

fn rd_u16(d: &[u8], o: usize) -> (r: u16)
    requires
        o + 2 <= d@.len(),
    ensures
        r == at(d@, o as int, 2),
{
    proof {
        lemma_span();
    }
    get_le(d, o, 2) as u16
}

fn rd_u32(d: &[u8], o: usize) -> (r: u32)
    requires
        o + 4 <= d@.len(),
    ensures
        r == at(d@, o as int, 4),
{
    proof {
        lemma_span();
    }
    get_le(d, o, 4) as u32
}

fn rd_u64(d: &[u8], o: usize) -> (r: u64)
    requires
        o + 8 <= d@.len(),
    ensures
        r == at(d@, o as int, 8),
{
    get_le(d, o, 8)
}

pub open spec fn phoff_of(d: Seq<u8>) -> int {
    at(d, 32, 8) as usize as int
}

pub open spec fn phent_of(d: Seq<u8>) -> int {
    at(d, 54, 2)
}

pub open spec fn phnum_of(d: Seq<u8>) -> int {
    at(d, 56, 2)
}

/// Where header `i` is.
pub open spec fn header_at(d: Seq<u8>, i: int) -> int {
    phoff_of(d) + i * phent_of(d)
}

/// Why a file is not a program for this machine.
pub open spec fn refused(d: Seq<u8>) -> Option<Seq<char>> {
    if d.len() < 64 || d.subrange(0, 4) != seq![0x7fu8, 0x45, 0x4c, 0x46] {
        Some("not an ELF file"@)
    } else if d[4] != 2 || d[5] != 1 {
        Some("not a 64-bit little-endian ELF"@)
    } else if at(d, 18, 2) != EM_RISCV {
        Some("not a RISC-V binary"@)
    } else if phoff_of(d) + phnum_of(d) * phent_of(d) > d.len() {
        Some("program headers out of range"@)
    } else {
        None
    }
}

/// What is read of a header is in the file, and a segment ends within the
/// address space.
pub open spec fn header_ok(d: Seq<u8>, i: int) -> bool {
    let o = header_at(d, i);
    &&& o + 4 <= d.len()
    &&& at(d, o, 4) == PT_INTERP ==> o + 40 <= d.len()
    &&& at(d, o, 4) == PT_LOAD ==> o + 48 <= d.len() && at(d, o + 16, 8) as usize + at(
        d,
        o + 40,
        8,
    ) as usize <= usize::MAX
}

pub open spec fn headers_ok(d: Seq<u8>) -> bool {
    refused(d) is None ==> forall|i: int| 0 <= i < phnum_of(d) ==> #[trigger] header_ok(d, i)
}

/// The bytes before the first zero byte.
pub open spec fn before_zero(s: Seq<u8>) -> Seq<u8>
    decreases s.len(),
{
    if s.len() == 0 || s[0] == 0 {
        Seq::empty()
    } else {
        seq![s[0]] + before_zero(s.skip(1))
    }
}

/// The path of the loader, after the first `n` headers: the last one that is
/// within the file.
pub open spec fn interp_of(d: Seq<u8>, n: int) -> Option<Seq<u8>>
    decreases n,
{
    if n <= 0 {
        None
    } else {
        let o = header_at(d, n - 1);
        let off = at(d, o + 8, 8) as usize as int;
        let sz = at(d, o + 32, 8) as usize as int;
        if at(d, o, 4) == PT_INTERP && off + sz <= d.len() {
            Some(utf8_lossy(before_zero(d.subrange(off, off + sz))))
        } else {
            interp_of(d, n - 1)
        }
    }
}

/// The highest end of a segment, among the first `n` headers.
pub open spec fn top_of(d: Seq<u8>, n: int) -> int
    decreases n,
{
    if n <= 0 {
        0
    } else {
        let o = header_at(d, n - 1);
        let end = at(d, o + 16, 8) as usize + at(d, o + 40, 8) as usize;
        if at(d, o, 4) == PT_LOAD && end > top_of(d, n - 1) {
            end
        } else {
            top_of(d, n - 1)
        }
    }
}

fn cut_at_zero(s: &[u8], from: usize, to: usize) -> (r: Vec<u8>)
    requires
        from <= to <= s@.len(),
    ensures
        r@ == before_zero(s@.subrange(from as int, to as int)),
{
    let ghost all = s@.subrange(from as int, to as int);
    let mut r: Vec<u8> = Vec::new();
    let mut i: usize = from;
    proof {
        assert(r@ + before_zero(all) =~= before_zero(all));
    }
    while i < to && s[i] != 0
        invariant
            from <= i <= to <= s@.len(),
            r@ + before_zero(s@.subrange(i as int, to as int)) == before_zero(all),
        decreases to - i,
    {
        let ghost rest = s@.subrange(i as int, to as int);
        let ghost r0 = r@;
        proof {
            assert(rest[0] == s@[i as int]);
            assert(rest.skip(1) =~= s@.subrange(i + 1, to as int));
        }
        r.push(s[i]);
        proof {
            assert(r@ + before_zero(rest.skip(1)) =~= r0 + (seq![s@[i as int]] + before_zero(
                rest.skip(1),
            )));
        }
        i = i + 1;
    }
    proof {
        let rest = s@.subrange(i as int, to as int);
        if i < to {
            assert(rest[0] == s@[i as int]);
        }
        assert(r@ + Seq::<u8>::empty() =~= r@);
    }
    r
}

/// Reads the headers of a program.
#[verifier::loop_isolation(false)]
pub fn parse(data: &[u8]) -> (r: Result<ElfImage, &'static str>)
    requires
        headers_ok(data@),
    ensures
        match refused(data@) {
            Some(why) => r is Err && r->Err_0@ == why,
            None => {
                let n = phnum_of(data@);
                &&& r is Ok
                &&& r->Ok_0.entry == at(data@, 24, 8) as usize
                &&& r->Ok_0.base == 0
                &&& r->Ok_0.phdr == 0
                &&& r->Ok_0.phnum == n
                &&& r->Ok_0.phent == phent_of(data@)
                &&& r->Ok_0.is_dyn == (at(data@, 16, 2) == 3)
                &&& r->Ok_0.max_vaddr == top_of(data@, n)
                &&& match interp_of(data@, n) {
                    Some(p) => r->Ok_0.interp is Some && r->Ok_0.interp->0@ == p,
                    None => r->Ok_0.interp is None,
                }
            },
        },
{
    let ghost d = data@;
    if data.len() < 64 {
        return Err("not an ELF file");
    }
    proof {
        let m = seq![0x7fu8, 0x45, 0x4c, 0x46];
        let h = d.subrange(0, 4);
        assert(h == m <==> (d[0] == 0x7f && d[1] == 0x45 && d[2] == 0x4c && d[3] == 0x46)) by {
            if d[0] == 0x7f && d[1] == 0x45 && d[2] == 0x4c && d[3] == 0x46 {
                assert(h =~= m);
            }
            assert(h[0] == d[0] && h[1] == d[1] && h[2] == d[2] && h[3] == d[3]);
            assert(m[0] == 0x7f && m[1] == 0x45 && m[2] == 0x4c && m[3] == 0x46);
        }
    }
    if !(data[0] == 0x7f && data[1] == 0x45 && data[2] == 0x4c && data[3] == 0x46) {
        return Err("not an ELF file");
    }
    if data[4] != 2 || data[5] != 1 {
        return Err("not a 64-bit little-endian ELF");
    }
    let e_type: u16 = rd_u16(data, 16);
    if rd_u16(data, 18) != EM_RISCV {
        return Err("not a RISC-V binary");
    }
    let entry: usize = rd_u64(data, 24) as usize;
    let phoff: usize = rd_u64(data, 32) as usize;
    let phent: usize = rd_u16(data, 54) as usize;
    let phnum: usize = rd_u16(data, 56) as usize;
    proof {
        assert(0 <= phnum * phent <= 0xffff * 0xffff) by (nonlinear_arith)
            requires
                0 <= phnum <= 0xffff,
                0 <= phent <= 0xffff,
        ;
    }
    if phoff as u128 + phnum as u128 * phent as u128 > data.len() as u128 {
        return Err("program headers out of range");
    }
    let mut interp: Option<Vec<u8>> = None;
    let mut max_vaddr: usize = 0;
    let mut i: usize = 0;
    while i < phnum
        invariant
            i <= phnum,
            max_vaddr == top_of(d, i as int),
            match interp_of(d, i as int) {
                Some(p) => interp is Some && interp->0@ == p,
                None => interp is None,
            },
        decreases phnum - i,
    {
        proof {
            assert(header_ok(d, i as int));
            assert(i * phent <= phnum * phent) by (nonlinear_arith)
                requires
                    i <= phnum,
                    0 <= phent,
            ;
            assert(0 <= i * phent) by (nonlinear_arith)
                requires
                    0 <= i,
                    0 <= phent,
            ;
            assert(header_at(d, i as int) == phoff + i * phent);
        }
        let o: usize = phoff + i * phent;
        let p_type: u32 = rd_u32(data, o);
        if p_type == PT_INTERP {
            let off: usize = rd_u64(data, o + 8) as usize;
            let sz: usize = rd_u64(data, o + 32) as usize;
            if off <= data.len() && sz <= data.len() - off {
                let s: Vec<u8> = cut_at_zero(data, off, off + sz);
                interp = Some(to_lossy(&s));
            }
        }
        if p_type == PT_LOAD {
            let va: usize = rd_u64(data, o + 16) as usize;
            let memsz: usize = rd_u64(data, o + 40) as usize;
            if va + memsz > max_vaddr {
                max_vaddr = va + memsz;
            }
        }
        i = i + 1;
    }
    Ok(
        ElfImage {
            entry,
            base: 0,
            phdr: 0,
            phnum,
            phent,
            interp,
            is_dyn: e_type == 3,
            max_vaddr,
        },
    )
}

/// The header at a place in the file.
pub open spec fn phdr_at(d: Seq<u8>, o: int) -> Phdr {
    Phdr {
        p_type: at(d, o, 4) as u32,
        p_flags: at(d, o + 4, 4) as u32,
        p_offset: at(d, o + 8, 8) as u64,
        p_vaddr: at(d, o + 16, 8) as u64,
        p_filesz: at(d, o + 32, 8) as u64,
        p_memsz: at(d, o + 40, 8) as u64,
        p_align: at(d, o + 48, 8) as u64,
    }
}

/// Reads the program headers, which must be within the file.
pub fn phdrs(data: &[u8], phoff: usize, phnum: usize, phentsize: usize) -> (r: Vec<Phdr>)
    requires
        forall|i: int|
            0 <= i < phnum ==> phoff + #[trigger] (i * phentsize) + 56 <= data@.len(),
    ensures
        r@ == Seq::new(phnum as nat, |i: int| phdr_at(data@, phoff + i * phentsize)),
{
    let ghost d = data@;
    let len: usize = data.len();
    let mut v: Vec<Phdr> = Vec::new();
    let mut i: usize = 0;
    while i < phnum
        invariant
            i <= phnum,
            d == data@,
            len == data@.len(),
            forall|i: int|
                0 <= i < phnum ==> phoff + #[trigger] (i * phentsize) + 56 <= data@.len(),
            v@ == Seq::new(i as nat, |k: int| phdr_at(d, phoff + k * phentsize)),
        decreases phnum - i,
    {
        proof {
            assert(phoff + i * phentsize + 56 <= data@.len());
            assert(0 <= i * phentsize) by (nonlinear_arith)
                requires
                    0 <= i,
                    0 <= phentsize,
            ;
        }
        let o: usize = phoff + i * phentsize;
        v.push(
            Phdr {
                p_type: rd_u32(data, o),
                p_flags: rd_u32(data, o + 4),
                p_offset: rd_u64(data, o + 8),
                p_vaddr: rd_u64(data, o + 16),
                p_filesz: rd_u64(data, o + 32),
                p_memsz: rd_u64(data, o + 40),
                p_align: rd_u64(data, o + 48),
            },
        );
        i = i + 1;
        proof {
            assert(v@ =~= Seq::new(i as nat, |k: int| phdr_at(d, phoff + k * phentsize)));
        }
    }
    v
}

/// Where the program headers are.
pub fn phoff(data: &[u8]) -> (r: usize)
    requires
        data@.len() >= 40,
    ensures
        r == phoff_of(data@),
{
    rd_u64(data, 32) as usize
}

/// A page to be mapped.
pub struct Page {
    pub va: usize,
    pub data: Vec<u8>,
}

/// The pages of a segment.
pub struct Segment {
    pub pages: Vec<Page>,
    pub flags: u64,
    /// The end, at a page boundary.
    pub end: usize,
}

/// The address of a segment when the program is moved by `base`.
pub open spec fn seg_start(ph: Phdr, base: usize) -> int {
    let v = ph.p_vaddr as usize;
    if v + base > usize::MAX {
        v + base - usize::MAX - 1
    } else {
        v + base
    }
}

pub open spec fn seg_flags(f: u32) -> u64 {
    let r = if f & PF_R != 0 {
        PTE_R as int
    } else {
        0
    };
    let w = if f & PF_W != 0 {
        PTE_W as int
    } else {
        0
    };
    let x = if f & PF_X != 0 {
        PTE_X as int
    } else {
        0
    };
    (PTE_U + PTE_A + PTE_D + r + w + x) as u64
}

/// The pages can be read (bit 1), written (bit 2) and executed (bit 3) exactly
/// where the header says so in its bits 2, 1 and 0; they are for the user (bit 4),
/// accessed (bit 6) and dirty (bit 7), and no other bit is set.
pub open spec fn has_rights(p_flags: u32, flags: u64) -> bool {
    &&& flags & 2 != 0 <==> p_flags & 4 != 0
    &&& flags & 4 != 0 <==> p_flags & 2 != 0
    &&& flags & 8 != 0 <==> p_flags & 1 != 0
    &&& flags & 0x10 != 0 && flags & 0x40 != 0 && flags & 0x80 != 0
    &&& flags & !0xdeu64 == 0
}

pub open spec fn lesser(a: int, b: int) -> int {
    if a < b {
        a
    } else {
        b
    }
}

pub open spec fn greater(a: int, b: int) -> int {
    if a > b {
        a
    } else {
        b
    }
}

/// The part of a page at `va` that comes from the file.
pub open spec fn part_lo(v: int, va: int) -> int {
    greater(va, v)
}

pub open spec fn part_hi(v: int, filesz: int, va: int) -> int {
    lesser(va + PAGE_SIZE, v + filesz)
}

/// The file has all that the page wants of it.
pub open spec fn has_part(len: int, ph: Phdr, v: int, va: int) -> bool {
    let off = ph.p_offset as usize as int;
    let sz = ph.p_filesz as usize as int;
    let lo = part_lo(v, va);
    let hi = part_hi(v, sz, va);
    lo < hi && off + (hi - v) <= len && off + sz <= len + PAGE_SIZE
}

/// What the page at `va` holds: bytes of the file where the segment has them
/// and the file reaches, zeros elsewhere.
pub open spec fn page_bytes(d: Seq<u8>, ph: Phdr, v: int, va: int) -> Seq<u8> {
    Seq::new(
        PAGE_SIZE as nat,
        |i: int|
            if has_part(d.len() as int, ph, v, va) && part_lo(v, va) <= va + i < part_hi(
                v,
                ph.p_filesz as usize as int,
                va,
            ) {
                d[ph.p_offset as usize + (va + i - v)]
            } else {
                0u8
            },
    )
}

/// The segment fits in the address space.
pub open spec fn seg_ok(ph: Phdr, base: usize) -> bool {
    let v = seg_start(ph, base);
    &&& v + ph.p_memsz as usize + PAGE_SIZE <= usize::MAX
    &&& v + ph.p_filesz as usize + PAGE_SIZE <= usize::MAX
    &&& ph.p_offset as usize + ph.p_filesz as usize + PAGE_SIZE <= usize::MAX
}

fn fill_page(data: &[u8], ph: &Phdr, v: usize, va: usize) -> (r: Vec<u8>)
    requires
        data@.len() + PAGE_SIZE <= usize::MAX,
        va + PAGE_SIZE <= usize::MAX,
        v + ph.p_filesz as usize <= usize::MAX,
        ph.p_offset as usize + ph.p_filesz as usize <= usize::MAX,
    ensures
        r@ == page_bytes(data@, *ph, v as int, va as int),
{
    let off: usize = ph.p_offset as usize;
    let sz: usize = ph.p_filesz as usize;
    let lo: usize = if va > v {
        va
    } else {
        v
    };
    let hi: usize = if va + PAGE_SIZE < v + sz {
        va + PAGE_SIZE
    } else {
        v + sz
    };
    let has: bool = lo < hi && off + (hi - v) <= data.len() && off + sz <= data.len() + PAGE_SIZE;
    let mut r: Vec<u8> = Vec::new();
    let mut i: usize = 0;
    while i < PAGE_SIZE
        invariant
            i <= PAGE_SIZE,
            va + PAGE_SIZE <= usize::MAX,
            data@.len() <= usize::MAX,
            off == ph.p_offset as usize,
            lo == part_lo(v as int, va as int),
            hi == part_hi(v as int, sz as int, va as int),
            sz == ph.p_filesz as usize,
            has == has_part(data@.len() as int, *ph, v as int, va as int),
            r@ == page_bytes(data@, *ph, v as int, va as int).take(i as int),
        decreases PAGE_SIZE - i,
    {
        if has && lo <= va + i && va + i < hi {
            r.push(data[off + (va + i - v)]);
        } else {
            r.push(0);
        }
        i = i + 1;
        proof {
            let all = page_bytes(data@, *ph, v as int, va as int);
            assert(all.take(i as int) =~= all.take(i - 1).push(all[i - 1]));
        }
    }
    proof {
        let all = page_bytes(data@, *ph, v as int, va as int);
        assert(all.take(PAGE_SIZE as int) =~= all);
    }
    r
}

/// The pages of a segment, from the one with its first byte on; `None` where
/// there is nothing to load.
#[verifier::loop_isolation(false)]
pub fn load_segment(data: &[u8], ph: &Phdr, base: usize) -> (r: Option<Segment>)
    requires
        seg_ok(*ph, base),
        data@.len() + PAGE_SIZE <= usize::MAX,
    ensures
        if ph.p_type != PT_LOAD || ph.p_memsz == 0 {
            r is None
        } else {
            let v = seg_start(*ph, base);
            let start = v / PAGE_SIZE as int * PAGE_SIZE;
            let end = (v + ph.p_memsz as usize + PAGE_SIZE - 1) / PAGE_SIZE as int * PAGE_SIZE;
            &&& r is Some
            &&& r->0.flags == seg_flags(ph.p_flags)
            &&& has_rights(ph.p_flags, r->0.flags)
            &&& r->0.end == end
            &&& r->0.pages@.len() * PAGE_SIZE == end - start
            &&& forall|i: int|
                0 <= i < r->0.pages@.len() ==> {
                    &&& (#[trigger] r->0.pages@[i]).va == start + i * PAGE_SIZE
                    &&& r->0.pages@[i].data@ == page_bytes(
                        data@,
                        *ph,
                        v,
                        start + i * PAGE_SIZE,
                    )
                }
        },
{
    if ph.p_type != PT_LOAD || ph.p_memsz == 0 {
        return None;
    }
    let v: usize = (ph.p_vaddr as usize).wrapping_add(base);
    let start: usize = v / PAGE_SIZE * PAGE_SIZE;
    let end: usize = (v + ph.p_memsz as usize + PAGE_SIZE - 1) / PAGE_SIZE * PAGE_SIZE;
    let mut flags: u64 = PTE_U + PTE_A + PTE_D;
    if ph.p_flags & PF_R != 0 {
        flags = flags + PTE_R;
    }
    if ph.p_flags & PF_W != 0 {
        flags = flags + PTE_W;
    }
    if ph.p_flags & PF_X != 0 {
        flags = flags + PTE_X;
    }
    let mut pages: Vec<Page> = Vec::new();
    let mut va: usize = start;
    proof {
        segment_has_its_rights(ph.p_flags);
        assert(start % PAGE_SIZE == 0 && end % PAGE_SIZE == 0);
        assert(start <= end);
    }
    while va < end
        invariant
            start <= va <= end,
            va == start + pages@.len() * PAGE_SIZE,
            end % PAGE_SIZE == 0,
            va % PAGE_SIZE == 0,
            forall|i: int|
                0 <= i < pages@.len() ==> {
                    &&& (#[trigger] pages@[i]).va == start + i * PAGE_SIZE
                    &&& pages@[i].data@ == page_bytes(
                        data@,
                        *ph,
                        v as int,
                        start + i * PAGE_SIZE,
                    )
                },
        decreases end - va,
    {
        proof {
            assert(end <= v + ph.p_memsz as usize + PAGE_SIZE - 1);
            assert(va + PAGE_SIZE <= end);
        }
        let page: Vec<u8> = fill_page(data, ph, v, va);
        pages.push(Page { va, data: page });
        va = va + PAGE_SIZE;
    }
    Some(Segment { pages, flags, end })
}

/// The pages of a segment have the rights that its header gives: each of reading,
/// writing and executing if and only if the header has it.
pub proof fn segment_has_its_rights(p_flags: u32)
    ensures
        has_rights(p_flags, seg_flags(p_flags)),
        seg_flags(p_flags) & 2 != 0 <==> p_flags & 4 != 0,
        seg_flags(p_flags) & 4 != 0 <==> p_flags & 2 != 0,
        seg_flags(p_flags) & 8 != 0 <==> p_flags & 1 != 0,
        seg_flags(p_flags) & 0x10 != 0,
{
    let f = seg_flags(p_flags);
    assert(f == 0xd0 || f == 0xd2 || f == 0xd4 || f == 0xd6 || f == 0xd8 || f == 0xda || f == 0xdc
        || f == 0xde);
    assert((f & 2 != 0 <==> f == 0xd2 || f == 0xd6 || f == 0xda || f == 0xde) && (f & 4 != 0 <==> f
        == 0xd4 || f == 0xd6 || f == 0xdc || f == 0xde) && (f & 8 != 0 <==> f == 0xd8 || f == 0xda
        || f == 0xdc || f == 0xde) && f & 0x10 != 0 && f & 0x40 != 0 && f & 0x80 != 0 && f
        & !0xdeu64 == 0) by (bit_vector)
        requires
            f == 0xd0 || f == 0xd2 || f == 0xd4 || f == 0xd6 || f == 0xd8 || f == 0xda || f == 0xdc
                || f == 0xde,
    ;
}

/// Within a segment whose bytes are all in the file, every byte of the file is
/// found at its address.
pub proof fn segment_holds_file(d: Seq<u8>, ph: Phdr, v: int, va: int, a: int)
    requires
        v >= 0,
        ph.p_offset as usize + ph.p_filesz as usize <= d.len(),
        v <= a < v + ph.p_filesz as usize,
        va <= a < va + PAGE_SIZE,
    ensures
        page_bytes(d, ph, v, va)[a - va] == d[ph.p_offset as usize + (a - v)],
{
}

/// Behind the bytes of the file a segment is zero.
pub proof fn segment_ends_in_zeros(d: Seq<u8>, ph: Phdr, v: int, va: int, a: int)
    requires
        v + ph.p_filesz as usize <= a,
        va <= a < va + PAGE_SIZE,
    ensures
        page_bytes(d, ph, v, va)[a - va] == 0,
{
}

/// The break of a program lies behind all its segments: none ends above the highest
/// end, and where there is one, some segment ends there.
pub proof fn top_is_the_highest_end(d: Seq<u8>, n: int, i: int)
    requires
        0 <= i < n,
        at(d, header_at(d, i), 4) == 1,
    ensures
        at(d, header_at(d, i) + 16, 8) as usize + at(d, header_at(d, i) + 40, 8) as usize <= top_of(
            d,
            n,
        ),
    decreases n,
{
    if i < n - 1 {
        top_is_the_highest_end(d, n - 1, i);
    }
}

/// A program that is accepted is a 64-bit little-endian ELF file for RISC-V, with
/// its program headers within the file.
pub proof fn accepted_is_riscv(d: Seq<u8>)
    requires
        refused(d) is None,
    ensures
        d.len() >= 64,
        d[0] == 0x7f && d[1] == 0x45 && d[2] == 0x4c && d[3] == 0x46,
        d[4] == 2 && d[5] == 1,
        from_le(d.subrange(18, 20)) == 243,
        from_le(d.subrange(32, 40)) as usize + from_le(d.subrange(56, 58)) * from_le(
            d.subrange(54, 56),
        ) <= d.len(),
{
    let h = d.subrange(0, 4);
    let m = seq![0x7fu8, 0x45, 0x4c, 0x46];
    assert(h == m);
    assert(h[0] == d[0] && h[1] == d[1] && h[2] == d[2] && h[3] == d[3]);
    assert(m[0] == 0x7f && m[1] == 0x45 && m[2] == 0x4c && m[3] == 0x46);
}

/// The fields of a program header are where the format has them, and header `i` is
/// `i` headers behind the first.
pub proof fn header_has_its_fields(d: Seq<u8>, o: int, i: int)
    ensures
        ({
            let p = phdr_at(d, o);
            &&& p.p_type == from_le(d.subrange(o, o + 4)) as int as u32
            &&& p.p_flags == from_le(d.subrange(o + 4, o + 4 + 4)) as int as u32
            &&& p.p_offset == from_le(d.subrange(o + 8, o + 8 + 8)) as int as u64
            &&& p.p_vaddr == from_le(d.subrange(o + 16, o + 16 + 8)) as int as u64
            &&& p.p_filesz == from_le(d.subrange(o + 32, o + 32 + 8)) as int as u64
            &&& p.p_memsz == from_le(d.subrange(o + 40, o + 40 + 8)) as int as u64
            &&& p.p_align == from_le(d.subrange(o + 48, o + 48 + 8)) as int as u64
        }),
        header_at(d, 0) == from_le(d.subrange(32, 40)) as usize as int,
        header_at(d, i + 1) == header_at(d, i) + from_le(d.subrange(54, 56)),
{
    assert((i + 1) * phent_of(d) == i * phent_of(d) + phent_of(d)) by (nonlinear_arith);
}

/// The name of a loader ends at the first zero byte.
pub proof fn name_ends_at_zero(s: Seq<u8>)
    ensures
        before_zero(s).len() <= s.len(),
        before_zero(s) == s.take(before_zero(s).len() as int),
        !before_zero(s).contains(0u8),
        before_zero(s).len() < s.len() ==> s[before_zero(s).len() as int] == 0,
    decreases s.len(),
{
    let b = before_zero(s);
    if s.len() == 0 || s[0] == 0 {
        assert(b =~= s.take(0));
    } else {
        let t = s.skip(1);
        let c = before_zero(t);
        name_ends_at_zero(t);
        assert(b == seq![s[0]] + c);
        assert(b =~= s.take(b.len() as int)) by {
            assert forall|i: int| 0 <= i < c.len() implies c[i] == s[i + 1] by {
                assert(t.take(c.len() as int)[i] == t[i]);
            }
        }
        if b.contains(0u8) {
            let i = choose|i: int| 0 <= i < b.len() && b[i] == 0;
            assert(c[i - 1] == 0);
        }
    }
}

/// The pages of a segment cover it: every address of the segment lies in one of
/// them, and none is needless.
pub proof fn pages_cover_the_segment(ph: Phdr, base: usize, a: int)
    requires
        seg_ok(ph, base),
        ph.p_memsz as usize > 0,
    ensures
        ({
            let v = seg_start(ph, base);
            let start = v / PAGE_SIZE as int * PAGE_SIZE;
            let end = (v + ph.p_memsz as usize + PAGE_SIZE - 1) / PAGE_SIZE as int * PAGE_SIZE;
            &&& 0 <= v <= usize::MAX
            &&& v == ph.p_vaddr as usize + base || v == ph.p_vaddr as usize + base - usize::MAX - 1
            &&& v <= a < v + ph.p_memsz as usize ==> start <= a < end
            &&& start <= v < start + 4096
            &&& end - 4096 < v + ph.p_memsz as usize <= end
        }),
{
}

/// The loader of a program is the one its header of type 3 names, the text that the
/// header's offset and size give, where that lies within the file; a later header
/// counts.
pub proof fn loader_is_named(d: Seq<u8>, n: int)
    requires
        n > 0,
        at(d, header_at(d, n - 1), 4) == 3,
    ensures
        ({
            let o = header_at(d, n - 1);
            let off = at(d, o + 8, 8) as usize as int;
            let sz = at(d, o + 32, 8) as usize as int;
            off + sz <= d.len() ==> interp_of(d, n) == Some(
                utf8_lossy(before_zero(d.subrange(off, off + sz))),
            )
        }),
        n > 1 && at(d, header_at(d, n - 2), 4) != 3 ==> interp_of(d, n - 1) == interp_of(d, n - 2),
{
}

} // verus!
