//! Answers that a system call stores in user memory, one after the other.

use vstd::prelude::*;
use crate::bytes::{le, le_bytes};
use crate::errno::{SysResult, EFAULT};
use crate::syscall::process::{err, ok};
use crate::uaccess::{mapped, stored, UserMem};

verus! {

/// Bytes to be stored at an address. `nonnull`: a null address is refused even
/// where it is accessible.
pub struct Out {
    pub at: usize,
    pub data: Vec<u8>,
    pub nonnull: bool,
}

pub struct OutView {
    pub at: int,
    pub data: Seq<u8>,
    pub nonnull: bool,
}

impl View for Out {
    type V = OutView;

    open spec fn view(&self) -> OutView {
        OutView { at: self.at as int, data: self.data@, nonnull: self.nonnull }
    }
}

pub open spec fn views(l: Seq<Out>) -> Seq<OutView> {
    Seq::new(l.len(), |i: int| l[i]@)
}

pub open spec fn out(at: usize, data: Seq<u8>) -> OutView {
    OutView { at: at as int, data, nonnull: false }
}

/// A number in `n` bytes, at an address that must not be null.
pub open spec fn num(at: usize, x: nat, n: nat) -> OutView {
    OutView { at: at as int, data: le(x, n), nonnull: true }
}

pub open spec fn fits(m: Map<int, u8>, o: OutView) -> bool {
    !(o.nonnull && o.at == 0) && mapped(m, o.at, o.data.len() as int)
}

/// Memory after the answers were stored in turn, up to the first that does not
/// fit, and whether all did.
pub open spec fn store_all(m: Map<int, u8>, l: Seq<OutView>) -> (bool, Map<int, u8>)
    decreases l.len(),
{
    if l.len() == 0 {
        (true, m)
    } else if !fits(m, l[0]) {
        (false, m)
    } else {
        store_all(stored(m, l[0].at, l[0].data), l.skip(1))
    }
}

/// Bytes for an address.
pub fn bytes_out(at: usize, data: Vec<u8>) -> (r: Out)
    ensures
        r@ == out(at, data@),
{
    Out { at, data, nonnull: false }
}

/// A number for an address.
pub fn num_out(at: usize, x: u64, n: usize) -> (r: Out)
    ensures
        r@ == num(at, x as nat, n as nat),
{
    Out { at, data: le_bytes(x, n), nonnull: true }
}

#[verifier::loop_isolation(false)]
pub fn store_each(mem: &mut UserMem, l: &Vec<Out>) -> (r: Result<(), i32>)
    ensures
        (r is Ok, final(mem)@) == store_all(old(mem)@, views(l@)),
        r is Err ==> r->Err_0 == EFAULT,
{
    let ghost v = views(l@);
    let ghost m = mem@;
    let n: usize = l.len();
    let mut i: usize = 0;
    proof {
        assert(v.skip(0) =~= v);
    }
    while i < n
        invariant
            i <= n == l@.len(),
            v == views(l@),
            store_all(mem@, v.skip(i as int)) == store_all(m, v),
        decreases n - i,
    {
        proof {
            assert(v.skip(i as int)[0] == l@[i as int]@);
            assert(v.skip(i as int).skip(1) =~= v.skip(i + 1));
        }
        if l[i].nonnull && l[i].at == 0 {
            return Err(EFAULT);
        }
        match mem.copy_to_user(l[i].at, &l[i].data) {
            Ok(_) => {},
            Err(e) => {
                return Err(e);
            },
        }
        i = i + 1;
    }
    Ok(())
}

/// The effect of storing answers and returning `ret`.
pub open spec fn replied(
    m: Map<int, u8>,
    l: Seq<OutView>,
    ret: int,
    r: SysResult,
    m1: Map<int, u8>,
) -> bool {
    let s = store_all(m, l);
    m1 == s.1 && r == (if s.0 {
        ok(ret)
    } else {
        err(EFAULT)
    })
}

/// Stores the answers; for all of them the call returns `ret`.
pub fn reply_all(mem: &mut UserMem, l: &Vec<Out>, ret: usize) -> (r: SysResult)
    ensures
        replied(old(mem)@, views(l@), ret as int, r, final(mem)@),
{
    match store_each(mem, l) {
        Ok(_) => Ok(ret),
        Err(e) => Err(e),
    }
}

pub open spec fn no_outs() -> Seq<OutView> {
    Seq::empty()
}

/// One answer.
pub fn reply_one(mem: &mut UserMem, o: Out, ret: usize) -> (r: SysResult)
    ensures
        replied(old(mem)@, seq![o@], ret as int, r, final(mem)@),
{
    let mut l: Vec<Out> = Vec::new();
    l.push(o);
    proof {
        assert(views(l@) =~= seq![o@]);
    }
    reply_all(mem, &l, ret)
}

/// One answer that fits is stored.
pub proof fn one_reply(m: Map<int, u8>, o: OutView, ret: int, r: SysResult, m1: Map<int, u8>)
    requires
        replied(m, seq![o], ret, r, m1),
    ensures
        fits(m, o) ==> r == ok(ret) && m1 == stored(m, o.at, o.data),
        !fits(m, o) ==> r == err(EFAULT) && m1 == m,
{
    assert(seq![o].skip(1) =~= no_outs());
    reveal_with_fuel(store_all, 2);
}

} // verus!
