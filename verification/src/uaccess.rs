//! The memory of a user process, as the kernel reads and writes it.

use vstd::prelude::*;
use crate::bytes::{from_le, get_le, le, le_bytes, lemma_le_len, span};
use crate::errno::EFAULT;

verus! {

/// A run of accessible bytes.
pub struct Area {
    pub start: usize,
    pub data: Vec<u8>,
}

/// User memory: the areas a process can reach. Where two areas overlap the
/// first one counts.
pub struct UserMem {
    pub areas: Vec<Area>,
}

pub open spec fn covers(a: Area, addr: int) -> bool {
    a.start <= addr < a.start + a.data@.len() && addr <= usize::MAX
}

/// The byte at `addr`, if it is accessible.
pub open spec fn byte_at(areas: Seq<Area>, addr: int) -> Option<u8>
    decreases areas.len(),
{
    if areas.len() == 0 {
        None
    } else if covers(areas[0], addr) {
        Some(areas[0].data@[addr - areas[0].start])
    } else {
        byte_at(areas.skip(1), addr)
    }
}

/// Every byte of `[addr, addr + n)` is accessible.
pub open spec fn mapped(m: Map<int, u8>, addr: int, n: int) -> bool {
    forall|a: int| addr <= a < addr + n ==> #[trigger] m.dom().contains(a)
}

/// The `n` bytes at `addr`.
pub open spec fn bytes_at(m: Map<int, u8>, addr: int, n: int) -> Seq<u8> {
    Seq::new(n as nat, |i: int| m[addr + i])
}

/// The number in the `n` bytes at `addr`.
pub open spec fn num_at(m: Map<int, u8>, addr: int, n: int) -> nat {
    from_le(bytes_at(m, addr, n))
}

/// Memory after the bytes `s` were stored at `addr`.
pub open spec fn stored(m: Map<int, u8>, addr: int, s: Seq<u8>) -> Map<int, u8> {
    Map::new(
        |a: int| m.dom().contains(a),
        |a: int|
            if addr <= a < addr + s.len() {
                s[a - addr]
            } else {
                m[a]
            },
    )
}

/// Memory after the bytes `s` were stored at `addr`, or unchanged for a null
/// pointer.
pub open spec fn stored_opt(m: Map<int, u8>, addr: int, s: Seq<u8>) -> Map<int, u8> {
    if addr == 0 {
        m
    } else {
        stored(m, addr, s)
    }
}

impl View for UserMem {
    type V = Map<int, u8>;

    open spec fn view(&self) -> Map<int, u8> {
        Map::new(
            |a: int| byte_at(self.areas@, a) is Some,
            |a: int| byte_at(self.areas@, a)->0,
        )
    }
}

proof fn lemma_first(areas: Seq<Area>, addr: int, k: int)
    requires
        0 <= k <= areas.len(),
        forall|j: int| 0 <= j < k ==> !covers(#[trigger] areas[j], addr),
    ensures
        k == areas.len() ==> byte_at(areas, addr) is None,
        k < areas.len() && covers(areas[k], addr) ==> byte_at(areas, addr) == Some(
            areas[k].data@[addr - areas[k].start],
        ),
    decreases areas.len(),
{
    if areas.len() > 0 && k > 0 {
        let t = areas.skip(1);
        assert forall|j: int| 0 <= j < k - 1 implies !covers(#[trigger] t[j], addr) by {
            assert(t[j] == areas[j + 1]);
        }
        assert(!covers(areas[0], addr));
        lemma_first(t, addr, k - 1);
        assert(k < areas.len() ==> t[k - 1] == areas[k]);
    }
}

proof fn lemma_range(areas: Seq<Area>, addr: int)
    ensures
        byte_at(areas, addr) is Some ==> 0 <= addr <= usize::MAX,
    decreases areas.len(),
{
    if areas.len() > 0 {
        lemma_range(areas.skip(1), addr);
    }
}

proof fn lemma_update(areas: Seq<Area>, b: Seq<Area>, addr: int, k: int, v: u8)
    requires
        0 <= k < areas.len(),
        covers(areas[k], addr),
        forall|j: int| 0 <= j < k ==> !covers(#[trigger] areas[j], addr),
        b.len() == areas.len(),
        forall|j: int| 0 <= j < areas.len() && j != k ==> #[trigger] b[j] == areas[j],
        b[k].start == areas[k].start,
        b[k].data@ == areas[k].data@.update(addr - areas[k].start, v),
    ensures
        forall|a: int| #[trigger]
            byte_at(b, a) == (if a == addr {
                Some(v)
            } else {
                byte_at(areas, a)
            }),
    decreases areas.len(),
{
    if k == 0 {
        assert(b.skip(1) =~= areas.skip(1));
        assert forall|a: int| #[trigger]
            byte_at(b, a) == (if a == addr {
                Some(v)
            } else {
                byte_at(areas, a)
            }) by {
            assert(covers(b[0], a) == covers(areas[0], a));
        }
    } else {
        let t = areas.skip(1);
        let u = b.skip(1);
        assert(b[0] == areas[0]);
        assert forall|j: int| 0 <= j < k - 1 implies !covers(#[trigger] t[j], addr) by {
            assert(t[j] == areas[j + 1]);
        }
        assert forall|j: int| 0 <= j < t.len() && j != k - 1 implies #[trigger] u[j] == t[j] by {
            assert(u[j] == b[j + 1] && t[j] == areas[j + 1]);
        }
        lemma_update(t, u, addr, k - 1, v);
        assert forall|a: int| #[trigger]
            byte_at(b, a) == (if a == addr {
                Some(v)
            } else {
                byte_at(areas, a)
            }) by {
            assert(byte_at(u, a) == (if a == addr {
                Some(v)
            } else {
                byte_at(t, a)
            }));
            assert(!covers(areas[0], addr));
        }
    }
}

proof fn lemma_push(areas: Seq<Area>, x: Area, a: int)
    ensures
        byte_at(areas.push(x), a) == (if byte_at(areas, a) is Some {
            byte_at(areas, a)
        } else if covers(x, a) {
            Some(x.data@[a - x.start])
        } else {
            None
        }),
    decreases areas.len(),
{
    let b = areas.push(x);
    if areas.len() == 0 {
        assert(b.skip(1).len() == 0);
        assert(b[0] == x);
        assert(byte_at(b.skip(1), a) is None);
    } else {
        lemma_push(areas.skip(1), x, a);
        assert(b.skip(1) =~= areas.skip(1).push(x));
        assert(b[0] == areas[0]);
    }
}

/// A store is read back, and leaves every other byte alone.
pub proof fn load_after_store(m: Map<int, u8>, addr: int, s: Seq<u8>, other: int, n: int)
    requires
        mapped(m, addr, s.len() as int),
        n >= 0,
        other + n <= addr || addr + s.len() <= other,
        mapped(m, other, n),
    ensures
        mapped(stored(m, addr, s), addr, s.len() as int),
        bytes_at(stored(m, addr, s), addr, s.len() as int) == s,
        mapped(stored(m, addr, s), other, n),
        bytes_at(stored(m, addr, s), other, n) == bytes_at(m, other, n),
{
    let t = stored(m, addr, s);
    let read = bytes_at(t, addr, s.len() as int);
    assert forall|i: int| 0 <= i < s.len() implies read[i] == s[i] by {
        assert(m.dom().contains(addr + i));
    }
    assert(read =~= s);
    let before = bytes_at(m, other, n);
    let after = bytes_at(t, other, n);
    assert forall|i: int| 0 <= i < n implies after[i] == before[i] by {
        assert(m.dom().contains(other + i));
    }
    assert(after =~= before);
}

impl UserMem {
    /// No byte is accessible outside the address space.
    pub proof fn lemma_in_space(&self)
        ensures
            forall|a: int| #[trigger] self@.dom().contains(a) ==> 0 <= a <= usize::MAX,
    {
        assert forall|a: int| #[trigger] self@.dom().contains(a) implies 0 <= a <= usize::MAX by {
            lemma_range(self.areas@, a);
        }
    }

    /// Memory without any accessible byte.
    pub fn new() -> (r: UserMem)
        ensures
            r@ == Map::<int, u8>::empty(),
    {
        let r = UserMem { areas: Vec::new() };
        assert(r@ =~= Map::<int, u8>::empty());
        r
    }

    /// Makes `data` accessible at `start`, beneath what is accessible already.
    pub fn add_area(&mut self, start: usize, data: Vec<u8>)
        ensures
            forall|a: int| #[trigger]
                final(self)@.dom().contains(a) <==> old(self)@.dom().contains(a) || (start <= a
                    < start + data@.len() && a <= usize::MAX),
            forall|a: int| #[trigger]
                final(self)@.dom().contains(a) ==> final(self)@[a] == (if old(self)@.dom().contains(
                    a,
                ) {
                    old(self)@[a]
                } else {
                    data@[a - start]
                }),
    {
        let x = Area { start, data };
        proof {
            assert forall|a: int| true implies #[trigger] byte_at(self.areas@.push(x), a) == (
            if byte_at(self.areas@, a) is Some {
                byte_at(self.areas@, a)
            } else if covers(x, a) {
                Some(x.data@[a - x.start])
            } else {
                None
            }) by {
                lemma_push(self.areas@, x, a);
            }
        }
        self.areas.push(x);
    }

    fn find(&self, addr: usize) -> (r: Option<usize>)
        ensures
            match r {
                Some(k) => {
                    &&& k < self.areas@.len()
                    &&& covers(self.areas@[k as int], addr as int)
                    &&& forall|j: int| 0 <= j < k ==> !covers(#[trigger] self.areas@[j], addr as int)
                },
                None => !self@.dom().contains(addr as int),
            },
    {
        let n: usize = self.areas.len();
        let mut k: usize = 0;
        while k < n
            invariant
                k <= n,
                n == self.areas@.len(),
                forall|j: int| 0 <= j < k ==> !covers(#[trigger] self.areas@[j], addr as int),
            decreases n - k,
        {
            let a = &self.areas[k];
            if a.start <= addr && addr - a.start < a.data.len() {
                return Some(k);
            }
            k = k + 1;
        }
        proof {
            lemma_first(self.areas@, addr as int, n as int);
        }
        None
    }

    /// The byte at `addr`, or `None` where it is not accessible.
    pub fn load(&self, addr: usize) -> (r: Option<u8>)
        ensures
            r == (if self@.dom().contains(addr as int) {
                Some(self@[addr as int])
            } else {
                None
            }),
    {
        match self.find(addr) {
            Some(k) => {
                proof {
                    lemma_first(self.areas@, addr as int, k as int);
                }
                let a = &self.areas[k];
                Some(a.data[addr - a.start])
            },
            None => None,
        }
    }

    /// Stores one byte; `false`, and nothing stored, where it is not accessible.
    pub fn store(&mut self, addr: usize, v: u8) -> (r: bool)
        ensures
            r == old(self)@.dom().contains(addr as int),
            final(self)@ == (if r {
                stored(old(self)@, addr as int, seq![v])
            } else {
                old(self)@
            }),
    {
        match self.find(addr) {
            Some(k) => {
                let off: usize = addr - self.areas[k].start;
                let ghost before = self.areas@;
                let ghost m = self@;
                self.areas[k].data[off] = v;
                proof {
                    lemma_first(before, addr as int, k as int);
                    lemma_update(before, self.areas@, addr as int, k as int, v);
                    assert(self@ =~= stored(m, addr as int, seq![v]));
                }
                true
            },
            None => false,
        }
    }

    /// Whether all of `[addr, addr + len)` is accessible.
    pub fn accessible(&self, addr: usize, len: usize) -> (r: bool)
        ensures
            r == mapped(self@, addr as int, len as int),
    {
        let mut i: usize = 0;
        while i < len
            invariant
                i <= len,
                i > 0 ==> addr + i - 1 <= usize::MAX,
                mapped(self@, addr as int, i as int),
            decreases len - i,
        {
            match addr.checked_add(i) {
                Some(a) => {
                    if self.load(a).is_none() {
                        assert(!self@.dom().contains(addr + i));
                        return false;
                    }
                },
                None => {
                    proof {
                        lemma_range(self.areas@, addr + i);
                        assert(!self@.dom().contains(addr + i));
                    }
                    return false;
                },
            }
            i = i + 1;
        }
        true
    }

    /// Copies `len` bytes out of user memory; all of them must be accessible.
    pub fn copy_from_user(&self, addr: usize, len: usize) -> (r: Result<Vec<u8>, i32>)
        ensures
            match r {
                Ok(v) => mapped(self@, addr as int, len as int) && v@ == bytes_at(
                    self@,
                    addr as int,
                    len as int,
                ),
                Err(e) => !mapped(self@, addr as int, len as int) && e == EFAULT,
            },
    {
        let mut v: Vec<u8> = Vec::new();
        let mut i: usize = 0;
        while i < len
            invariant
                i <= len,
                mapped(self@, addr as int, i as int),
                v@ == bytes_at(self@, addr as int, i as int),
            decreases len - i,
        {
            match addr.checked_add(i) {
                Some(a) => match self.load(a) {
                    Some(b) => {
                        v.push(b);
                        assert(v@ =~= bytes_at(self@, addr as int, i + 1));
                    },
                    None => {
                        assert(!self@.dom().contains(addr + i));
                        return Err(EFAULT);
                    },
                },
                None => {
                    proof {
                        lemma_range(self.areas@, addr + i);
                        assert(!self@.dom().contains(addr + i));
                    }
                    return Err(EFAULT);
                },
            }
            i = i + 1;
        }
        Ok(v)
    }

    /// Copies `data` into user memory; all of the target must be accessible,
    /// else nothing is written.
    pub fn copy_to_user(&mut self, addr: usize, data: &[u8]) -> (r: Result<(), i32>)
        ensures
            match r {
                Ok(_) => mapped(old(self)@, addr as int, data@.len() as int) && final(self)@
                    == stored(old(self)@, addr as int, data@),
                Err(e) => !mapped(old(self)@, addr as int, data@.len() as int) && e == EFAULT
                    && final(self)@ == old(self)@,
            },
    {
        let len: usize = data.len();
        if !self.accessible(addr, len) {
            return Err(EFAULT);
        }
        let ghost m = self@;
        let mut i: usize = 0;
        proof {
            assert forall|a: int| #[trigger] m.dom().contains(a) implies a <= usize::MAX by {
                lemma_range(self.areas@, a);
            }
            assert(stored(m, addr as int, data@.take(0)) =~= m);
        }
        while i < len
            invariant
                i <= len == data@.len(),
                mapped(m, addr as int, len as int),
                forall|a: int| #[trigger] m.dom().contains(a) ==> a <= usize::MAX,
                self@ == stored(m, addr as int, data@.take(i as int)),
            decreases len - i,
        {
            proof {
                assert(m.dom().contains(addr + i));
            }
            let a: usize = addr + i;
            let ghost before = self@;
            let done: bool = self.store(a, data[i]);
            proof {
                assert(before.dom().contains(addr + i));
                assert(self@ =~= stored(m, addr as int, data@.take(i + 1)));
            }
            i = i + 1;
        }
        proof {
            assert(data@.take(len as int) =~= data@);
        }
        Ok(())
    }

    /// The number in the `n` bytes at `addr`.
    pub fn read_num(&self, addr: usize, n: usize) -> (r: Result<u64, i32>)
        requires
            n <= 8,
        ensures
            match r {
                Ok(v) => mapped(self@, addr as int, n as int) && v == num_at(
                    self@,
                    addr as int,
                    n as int,
                ) && v < span(n as nat),
                Err(e) => !mapped(self@, addr as int, n as int) && e == EFAULT,
            },
    {
        match self.copy_from_user(addr, n) {
            Ok(v) => {
                assert(v@.subrange(0, n as int) =~= v@);
                Ok(get_le(&v, 0, n))
            },
            Err(e) => Err(e),
        }
    }

    /// Stores `x` in the `n` bytes at `addr`.
    pub fn write_num(&mut self, addr: usize, x: u64, n: usize) -> (r: Result<(), i32>)
        ensures
            match r {
                Ok(_) => mapped(old(self)@, addr as int, n as int) && final(self)@ == stored(
                    old(self)@,
                    addr as int,
                    le(x as nat, n as nat),
                ),
                Err(e) => !mapped(old(self)@, addr as int, n as int) && e == EFAULT && final(self)@
                    == old(self)@,
            },
    {
        let v: Vec<u8> = le_bytes(x, n);
        proof {
            lemma_le_len(x as nat, n as nat);
        }
        self.copy_to_user(addr, &v)
    }
}

/// The number in `n` of the bytes `v` that were read from `addr`.
pub fn field(
    v: &Vec<u8>,
    off: usize,
    n: usize,
    Ghost(m): Ghost<Map<int, u8>>,
    Ghost(addr): Ghost<int>,
) -> (r: u64)
    requires
        n <= 8,
        off + n <= v@.len(),
        v@ == bytes_at(m, addr, v@.len() as int),
    ensures
        r == num_at(m, addr + off, n as int),
        r < span(n as nat),
{
    proof {
        assert(v@.subrange(off as int, off + n) =~= bytes_at(m, addr + off, n as int));
    }
    get_le(v, off, n)
}

/// The bytes at `addr` before the first zero byte, `max` at most.
pub open spec fn cstr_at(m: Map<int, u8>, addr: int, max: nat) -> Seq<u8>
    decreases max,
{
    if max == 0 || m[addr] == 0 {
        Seq::empty()
    } else {
        seq![m[addr]] + cstr_at(m, addr + 1, (max - 1) as nat)
    }
}

/// The bytes that reading a string looks at are accessible.
pub open spec fn cstr_mapped(m: Map<int, u8>, addr: int, max: nat) -> bool
    decreases max,
{
    max == 0 || (m.dom().contains(addr) && (m[addr] == 0 || cstr_mapped(
        m,
        addr + 1,
        (max - 1) as nat,
    )))
}

impl UserMem {
    /// Reads a string: the bytes before a zero byte, `max` at most.
    pub fn read_cstr(&self, addr: usize, max: usize) -> (r: Result<Vec<u8>, i32>)
        ensures
            match r {
                Ok(v) => cstr_mapped(self@, addr as int, max as nat) && v@ == cstr_at(
                    self@,
                    addr as int,
                    max as nat,
                ),
                Err(e) => !cstr_mapped(self@, addr as int, max as nat) && e == EFAULT,
            },
    {
        let mut v: Vec<u8> = Vec::new();
        let mut i: usize = 0;
        let ghost m = self@;
        proof {
            assert(v@ + cstr_at(m, addr as int, max as nat) =~= cstr_at(
                m,
                addr as int,
                max as nat,
            ));
        }
        while i < max
            invariant
                i <= max,
                m == self@,
                v@ + cstr_at(m, addr + i, (max - i) as nat) == cstr_at(m, addr as int, max as nat),
                cstr_mapped(m, addr + i, (max - i) as nat) == cstr_mapped(
                    m,
                    addr as int,
                    max as nat,
                ),
            decreases max - i,
        {
            match addr.checked_add(i) {
                None => {
                    proof {
                        lemma_range(self.areas@, addr + i);
                    }
                    return Err(EFAULT);
                },
                Some(a) => match self.load(a) {
                    None => {
                        return Err(EFAULT);
                    },
                    Some(b) => {
                        if b == 0 {
                            proof {
                                assert(v@ + Seq::empty() =~= v@);
                            }
                            return Ok(v);
                        }
                        let ghost v0 = v@;
                        v.push(b);
                        proof {
                            assert(v@ + cstr_at(m, addr + i + 1, (max - i - 1) as nat) =~= v0 + (
                            seq![b] + cstr_at(m, addr + i + 1, (max - i - 1) as nat)));
                        }
                    },
                },
            }
            i = i + 1;
        }
        proof {
            assert(v@ + Seq::empty() =~= v@);
        }
        Ok(v)
    }
}

/// A number that is stored as part of a run of bytes is read back from its place.
pub proof fn stored_field(m: Map<int, u8>, at: int, f: Seq<u8>, off: int, x: nat, n: nat)
    requires
        mapped(m, at, f.len() as int),
        0 <= off,
        off + n <= f.len(),
        f.subrange(off, off + n) == le(x, n),
        x < span(n),
    ensures
        num_at(stored(m, at, f), at + off, n as int) == x,
{
    let t = stored(m, at, f);
    let got = bytes_at(t, at + off, n as int);
    lemma_le_len(x, n);
    assert forall|j: int| 0 <= j < n implies got[j] == le(x, n)[j] by {
        assert(m.dom().contains(at + off + j));
        assert(f.subrange(off, off + n)[j] == f[off + j]);
    }
    assert(got =~= le(x, n));
    crate::bytes::from_le_of_le(x, n);
}

} // verus!
