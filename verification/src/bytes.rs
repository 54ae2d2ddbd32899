//! Little-endian encoding of integers.

use vstd::prelude::*;

verus! {

/// `x` in `n` bytes, least significant byte first; higher bytes are cut off.
pub open spec fn le(x: nat, n: nat) -> Seq<u8>
    decreases n,
{
    if n == 0 {
        Seq::empty()
    } else {
        seq![(x % 256) as u8] + le(x / 256, (n - 1) as nat)
    }
}

/// The number that a sequence of bytes encodes, least significant byte first.
pub open spec fn from_le(s: Seq<u8>) -> nat
    decreases s.len(),
{
    if s.len() == 0 {
        0
    } else {
        s[0] as nat + 256 * from_le(s.skip(1))
    }
}

/// `256` to the power `n`: one past the largest number that `n` bytes hold.
pub open spec fn span(n: nat) -> nat
    decreases n,
{
    if n == 0 {
        1
    } else {
        256 * span((n - 1) as nat)
    }
}

/// `n` zero bytes.
pub open spec fn zeros(n: nat) -> Seq<u8> {
    Seq::new(n, |i: int| 0u8)
}

pub broadcast proof fn lemma_le_len(x: nat, n: nat)
    ensures
        #[trigger] le(x, n).len() == n,
    decreases n,
{
    if n > 0 {
        lemma_le_len(x / 256, (n - 1) as nat);
    }
}

/// Decoding gives back what was encoded, where it fits.
pub proof fn from_le_of_le(x: nat, n: nat)
    requires
        x < span(n),
    ensures
        from_le(le(x, n)) == x,
    decreases n,
{
    if n > 0 {
        lemma_le_len(x / 256, (n - 1) as nat);
        from_le_of_le(x / 256, (n - 1) as nat);
        assert(le(x, n).skip(1) =~= le(x / 256, (n - 1) as nat));
    }
}

/// Encoding gives back what was decoded.
pub proof fn le_of_from_le(s: Seq<u8>)
    ensures
        le(from_le(s), s.len()) == s,
        from_le(s) < span(s.len()),
    decreases s.len(),
{
    if s.len() > 0 {
        le_of_from_le(s.skip(1));
        let r = from_le(s.skip(1));
        assert((s[0] as nat + 256 * r) % 256 == s[0] as nat);
        assert((s[0] as nat + 256 * r) / 256 == r);
        assert(le(from_le(s), s.len()) =~= s);
    } else {
        assert(le(from_le(s), s.len()) =~= s);
    }
}

pub proof fn lemma_span()
    ensures
        span(0) == 1,
        span(1) == 0x100,
        span(2) == 0x1_0000,
        span(4) == 0x1_0000_0000,
        span(8) == 0x1_0000_0000_0000_0000,
{
    reveal_with_fuel(span, 9);
}

/// Appends `x` in `n` bytes to `v`.
pub fn put_le(v: &mut Vec<u8>, x: u64, n: usize)
    ensures
        final(v)@ == old(v)@ + le(x as nat, n as nat),
{
    let ghost start = v@;
    let mut rest: u64 = x;
    let mut i: usize = 0;
    while i < n
        invariant
            i <= n,
            start + le(x as nat, n as nat) =~= v@ + le(rest as nat, (n - i) as nat),
        decreases n - i,
    {
        let ghost before = v@;
        v.push((rest % 256) as u8);
        proof {
            assert(le(rest as nat, (n - i) as nat) == seq![(rest % 256) as u8] + le(
                (rest / 256) as nat,
                (n - i - 1) as nat,
            ));
            assert(v@ + le((rest / 256) as nat, (n - i - 1) as nat) =~= before + le(
                rest as nat,
                (n - i) as nat,
            ));
        }
        rest = rest / 256;
        i = i + 1;
    }
}

/// `x` in `n` bytes.
pub fn le_bytes(x: u64, n: usize) -> (r: Vec<u8>)
    ensures
        r@ == le(x as nat, n as nat),
{
    let mut v: Vec<u8> = Vec::new();
    put_le(&mut v, x, n);
    proof {
        assert(v@ =~= le(x as nat, n as nat));
    }
    v
}

/// Appends `n` zero bytes to `v`.
pub fn put_zeros(v: &mut Vec<u8>, n: usize)
    ensures
        final(v)@ == old(v)@ + zeros(n as nat),
{
    let ghost start = v@;
    let mut i: usize = 0;
    while i < n
        invariant
            i <= n,
            v@ =~= start + zeros(i as nat),
        decreases n - i,
    {
        v.push(0);
        i = i + 1;
    }
}

/// The number in the `n` bytes of `b` that start at `off`.
pub fn get_le(b: &[u8], off: usize, n: usize) -> (r: u64)
    requires
        n <= 8,
        off + n <= b@.len(),
    ensures
        r == from_le(b@.subrange(off as int, off + n)),
        r < span(n as nat),
{
    let len: usize = b.len();
    let mut r: u64 = 0;
    let mut i: usize = n;
    proof {
        lemma_span();
    }
    while i > 0
        invariant
            i <= n <= 8,
            off + n <= len == b@.len(),
            r == from_le(b@.subrange(off + i, off + n)),
            r < span((n - i) as nat),
        decreases i,
    {
        i = i - 1;
        proof {
            let s = b@.subrange(off + i, off + n);
            assert(s.skip(1) =~= b@.subrange(off + i + 1, off + n));
            reveal_with_fuel(span, 9);
            assert(span((n - i) as nat) == 256 * span((n - i - 1) as nat));
        }
        r = r * 256 + b[off + i] as u64;
    }
    r
}

} // verus!
