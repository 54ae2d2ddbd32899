//! Moving and growing a mapping: which ranges are unmapped and mapped in turn,
//! and which bytes go along.

use vstd::prelude::*;
use crate::errno::{EFAULT, ENOMEM};
use crate::uaccess::{bytes_at, mapped, stored, UserMem};

verus! {

/// Readable and writable.
pub const REMAP_PROT: u32 = 3;

/// A private mapping without a file, at the given place.
pub const REMAP_FLAGS: u32 = 0x32;

/// What a remapping waits for.
#[allow(inconsistent_fields)]
pub enum Remap {
    /// That the old range is unmapped; `saved` holds its bytes.
    Unmapped { to: usize, new_len: usize, saved: Vec<u8> },
    /// That the new range is mapped.
    Mapped { saved: Vec<u8> },
    /// That the range behind the mapping at `addr` is mapped.
    Grown { addr: usize, at: usize },
    Ended,
}

/// What is to be done for a remapping.
#[allow(inconsistent_fields)]
#[derive(Clone, Copy, PartialEq, Eq, Debug)]
pub enum RemapAsk {
    UnmapAt { addr: usize, len: usize },
    MapAt { addr: usize, len: usize, prot: u32, flags: u32 },
    Done(Result<usize, i32>),
}

pub open spec fn lesser_of(x: usize, y: usize) -> usize {
    if x < y {
        x
    } else {
        y
    }
}

/// Starts to move `len` bytes at `from` to `to`, where `new_len` bytes are to
/// be: the bytes that fit are put aside, and the old range is to go.
pub fn remap_move(mem: &UserMem, from: usize, len: usize, to: usize, new_len: usize) -> (r: (
    Remap,
    RemapAsk,
))
    ensures
        ({
            let n = lesser_of(len, new_len);
            if mapped(mem@, from as int, n as int) {
                &&& r.0 matches Remap::Unmapped { to: t, new_len: l, saved }
                &&& t == to && l == new_len
                &&& saved@ == bytes_at(mem@, from as int, n as int)
                &&& r.1 == (RemapAsk::UnmapAt { addr: from, len })
            } else {
                r.0 is Ended && r.1 == RemapAsk::Done(Err(EFAULT))
            }
        }),
{
    let n: usize = if len < new_len {
        len
    } else {
        new_len
    };
    match mem.copy_from_user(from, n) {
        Ok(saved) => (Remap::Unmapped { to, new_len, saved }, RemapAsk::UnmapAt { addr: from, len }),
        Err(e) => (Remap::Ended, RemapAsk::Done(Err(e))),
    }
}

/// Starts to map `len` bytes at `at`, behind the mapping that begins at `addr`.
pub fn remap_grow(addr: usize, at: usize, len: usize) -> (r: (Remap, RemapAsk))
    ensures
        r.0 == (Remap::Grown { addr, at }),
        r.1 == (RemapAsk::MapAt { addr: at, len, prot: REMAP_PROT, flags: REMAP_FLAGS }),
{
    (
        Remap::Grown { addr, at },
        RemapAsk::MapAt { addr: at, len, prot: REMAP_PROT, flags: REMAP_FLAGS },
    )
}

/// What follows on the answer to what was asked. An error ends the remapping
/// with it.
pub open spec fn remap_post(
    s: Remap,
    done: Result<usize, i32>,
    m0: Map<int, u8>,
    s1: Remap,
    ask: RemapAsk,
    m1: Map<int, u8>,
) -> bool {
    match done {
        Err(e) => s1 is Ended && ask == RemapAsk::Done(Err(e)) && m1 == m0,
        Ok(v) => match s {
            Remap::Unmapped { to, new_len, saved } => {
                &&& s1 == (Remap::Mapped { saved })
                &&& ask == (RemapAsk::MapAt {
                    addr: to,
                    len: new_len,
                    prot: REMAP_PROT,
                    flags: REMAP_FLAGS,
                })
                &&& m1 == m0
            },
            Remap::Mapped { saved } => {
                &&& s1 is Ended
                &&& if mapped(m0, v as int, saved@.len() as int) {
                    ask == RemapAsk::Done(Ok(v)) && m1 == stored(m0, v as int, saved@)
                } else {
                    ask == RemapAsk::Done(Err(EFAULT)) && m1 == m0
                }
            },
            Remap::Grown { addr, at } => {
                &&& s1 is Ended
                &&& ask == RemapAsk::Done(
                    if v == at {
                        Ok(addr)
                    } else {
                        Err(ENOMEM)
                    },
                )
                &&& m1 == m0
            },
            Remap::Ended => s1 is Ended && ask == RemapAsk::Done(Ok(v)) && m1 == m0,
        },
    }
}

/// Goes on with a remapping, from the answer to what was asked: where a range
/// was mapped, its address.
pub fn remap_next(s: Remap, done: Result<usize, i32>, mem: &mut UserMem) -> (r: (Remap, RemapAsk))
    ensures
        remap_post(s, done, old(mem)@, r.0, r.1, final(mem)@),
{
    let v: usize = match done {
        Ok(v) => v,
        Err(e) => {
            return (Remap::Ended, RemapAsk::Done(Err(e)));
        },
    };
    match s {
        Remap::Unmapped { to, new_len, saved } => (
            Remap::Mapped { saved },
            RemapAsk::MapAt { addr: to, len: new_len, prot: REMAP_PROT, flags: REMAP_FLAGS },
        ),
        Remap::Mapped { saved } => match mem.copy_to_user(v, saved.as_slice()) {
            Ok(()) => (Remap::Ended, RemapAsk::Done(Ok(v))),
            Err(e) => (Remap::Ended, RemapAsk::Done(Err(e))),
        },
        Remap::Grown { addr, at } => {
            if v == at {
                (Remap::Ended, RemapAsk::Done(Ok(addr)))
            } else {
                (Remap::Ended, RemapAsk::Done(Err(ENOMEM)))
            }
        },
        Remap::Ended => (Remap::Ended, RemapAsk::Done(Ok(v))),
    }
}

/// A mapping that was moved holds at its new place the bytes that it held, as
/// far as they fit.
pub proof fn moved_keeps_its_bytes(
    m0: Map<int, u8>,
    from: usize,
    len: usize,
    new_len: usize,
    saved: Vec<u8>,
    m1: Map<int, u8>,
    at: usize,
    s: Remap,
    m2: Map<int, u8>,
)
    requires
        saved@ == bytes_at(m0, from as int, lesser_of(len, new_len) as int),
        mapped(m1, at as int, saved@.len() as int),
        remap_post((Remap::Mapped { saved }), Ok(at), m1, s, RemapAsk::Done(Ok(at)), m2),
    ensures
        bytes_at(m2, at as int, lesser_of(len, new_len) as int) == bytes_at(
            m0,
            from as int,
            lesser_of(len, new_len) as int,
        ),
{
    assert(bytes_at(m2, at as int, lesser_of(len, new_len) as int) =~= saved@);
}

} // verus!
