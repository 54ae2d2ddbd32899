//! What TCP, UDP and UNIX sockets have in common.

use vstd::prelude::*;
use crate::abi::{AF_INET, AF_UNIX, AF_UNSPEC};
use crate::bytes::{get_le, le, put_le, put_zeros, zeros, from_le};
use crate::errno::{EAFNOSUPPORT, EINVAL, ENOENT, ENOTCONN, EOPNOTSUPP};

verus! {

/// A socket address.
pub enum SockAddr {
    Inet { addr: [u8; 4], port: u16 },
    Unix(Vec<u8>),
    Unspec,
}

/// A socket address, mathematically.
pub enum SockAddrView {
    Inet { addr: Seq<u8>, port: u16 },
    Unix(Seq<u8>),
    Unspec,
}

impl View for SockAddr {
    type V = SockAddrView;

    open spec fn view(&self) -> SockAddrView {
        match self {
            SockAddr::Inet { addr, port } => SockAddrView::Inet { addr: addr@, port: *port },
            SockAddr::Unix(path) => SockAddrView::Unix(path@),
            SockAddr::Unspec => SockAddrView::Unspec,
        }
    }
}

/// The bytes before the first zero byte.
pub open spec fn until_nul(s: Seq<u8>) -> Seq<u8>
    decreases s.len(),
{
    if s.len() == 0 || s[0] == 0 {
        Seq::empty()
    } else {
        seq![s[0]] + until_nul(s.skip(1))
    }
}

/// The address in the bytes of a `sockaddr`, or the error it is refused with.
pub open spec fn parse_sockaddr(b: Seq<u8>) -> Result<SockAddrView, i32> {
    if b.len() < 2 {
        Err(EINVAL)
    } else if from_le(b.take(2)) == AF_INET {
        if b.len() < 8 {
            Err(EINVAL)
        } else {
            Ok(SockAddrView::Inet { addr: b.subrange(4, 8), port: (b[2] * 256 + b[3]) as u16 })
        }
    } else if from_le(b.take(2)) == AF_UNIX {
        Ok(SockAddrView::Unix(until_nul(b.skip(2))))
    } else if from_le(b.take(2)) == AF_UNSPEC {
        Ok(SockAddrView::Unspec)
    } else {
        Err(EAFNOSUPPORT)
    }
}

/// The bytes of a `sockaddr`: the family, then a port in network order and an
/// address, or a path with its terminator.
pub open spec fn sockaddr_bytes(a: SockAddrView) -> Seq<u8> {
    match a {
        SockAddrView::Inet { addr, port } => le(AF_INET as nat, 2) + seq![
            (port / 256) as u8,
            (port % 256) as u8,
        ] + addr + zeros(8),
        SockAddrView::Unix(path) => le(AF_UNIX as nat, 2) + path + seq![0u8],
        SockAddrView::Unspec => zeros(16),
    }
}

proof fn lemma_until_nul(s: Seq<u8>, n: int)
    requires
        0 <= n <= s.len(),
        forall|i: int| 0 <= i < n ==> s[i] != 0,
        n == s.len() || s[n] == 0,
    ensures
        until_nul(s) == s.take(n),
    decreases s.len(),
{
    if n == 0 {
        assert(s.take(0) =~= Seq::empty());
    } else {
        lemma_until_nul(s.skip(1), n - 1);
        assert(seq![s[0]] + s.skip(1).take(n - 1) =~= s.take(n));
    }
}

impl SockAddr {
    /// Parses a `sockaddr` from user bytes.
    pub fn parse(bytes: &[u8]) -> (r: Result<SockAddr, i32>)
        ensures
            match r {
                Ok(a) => parse_sockaddr(bytes@) == Ok::<SockAddrView, i32>(a@),
                Err(e) => parse_sockaddr(bytes@) == Err::<SockAddrView, i32>(e),
            },
    {
        let len: usize = bytes.len();
        if len < 2 {
            return Err(EINVAL);
        }
        let family: u64 = get_le(bytes, 0, 2);
        proof {
            assert(bytes@.subrange(0, 2) =~= bytes@.take(2));
        }
        if family == AF_INET as u64 {
            if len < 8 {
                return Err(EINVAL);
            }
            let port: u16 = bytes[2] as u16 * 256 + bytes[3] as u16;
            let addr: [u8; 4] = [bytes[4], bytes[5], bytes[6], bytes[7]];
            proof {
                assert(addr@ =~= bytes@.subrange(4, 8));
            }
            Ok(SockAddr::Inet { addr, port })
        } else if family == AF_UNIX as u64 {
            let mut path: Vec<u8> = Vec::new();
            let mut i: usize = 2;
            while i < len && bytes[i] != 0
                invariant
                    2 <= i <= len == bytes@.len(),
                    path@ =~= bytes@.subrange(2, i as int),
                    forall|j: int| 2 <= j < i ==> bytes@[j] != 0,
                decreases len - i,
            {
                path.push(bytes[i]);
                i = i + 1;
            }
            proof {
                lemma_until_nul(bytes@.skip(2), i - 2);
                assert(bytes@.skip(2).take(i - 2) =~= path@);
            }
            Ok(SockAddr::Unix(path))
        } else if family == AF_UNSPEC as u64 {
            Ok(SockAddr::Unspec)
        } else {
            Err(EAFNOSUPPORT)
        }
    }

    /// The address in the layout of a `sockaddr`.
    pub fn to_bytes(&self) -> (r: Vec<u8>)
        ensures
            r@ == sockaddr_bytes(self@),
    {
        let mut v: Vec<u8> = Vec::new();
        match self {
            SockAddr::Inet { addr, port } => {
                put_le(&mut v, AF_INET as u64, 2);
                v.push((*port / 256) as u8);
                v.push((*port % 256) as u8);
                let mut i: usize = 0;
                let ghost head = v@;
                while i < 4
                    invariant
                        i <= 4,
                        v@ =~= head + addr@.take(i as int),
                    decreases 4 - i,
                {
                    v.push(addr[i]);
                    i = i + 1;
                }
                put_zeros(&mut v, 8);
                proof {
                    assert(v@ =~= sockaddr_bytes(self@));
                }
            },
            SockAddr::Unix(path) => {
                put_le(&mut v, AF_UNIX as u64, 2);
                v.extend_from_slice(path);
                v.push(0);
                proof {
                    assert(v@ =~= sockaddr_bytes(self@));
                }
            },
            SockAddr::Unspec => {
                put_zeros(&mut v, 16);
                proof {
                    assert(v@ =~= sockaddr_bytes(self@));
                }
            },
        }
        v
    }
}

/// Parsing gives back the address that was serialised; a path comes back if it
/// holds no zero byte.
pub proof fn parse_of_bytes(a: SockAddr)
    requires
        a is Unix ==> !a->Unix_0@.contains(0u8),
    ensures
        parse_sockaddr(sockaddr_bytes(a@)) == Ok::<SockAddrView, i32>(a@),
{
    let b = sockaddr_bytes(a@);
    reveal_with_fuel(le, 3);
    reveal_with_fuel(from_le, 3);
    match a {
        SockAddr::Inet { addr, port } => {
            assert(b.take(2) =~= seq![2u8, 0u8]);
            assert(b.take(2).skip(1) =~= seq![0u8]);
            assert(from_le(b.take(2)) == 2);
            assert(b.subrange(4, 8) =~= addr@);
        },
        SockAddr::Unix(path) => {
            assert(b.take(2) =~= seq![1u8, 0u8]);
            assert(b.take(2).skip(1) =~= seq![0u8]);
            assert(from_le(b.take(2)) == 1);
            let t = b.skip(2);
            assert(t =~= path@ + seq![0u8]);
            assert forall|i: int| 0 <= i < path@.len() implies t[i] != 0 by {
                assert(path@.contains(path@[i]));
            }
            lemma_until_nul(t, path@.len() as int);
            assert(t.take(path@.len() as int) =~= path@);
        },
        SockAddr::Unspec => {
            assert(b.take(2) =~= seq![0u8, 0u8]);
            assert(b.take(2).skip(1) =~= seq![0u8]);
            assert(from_le(b.take(2)) == 0);
        },
    }
}

/// The value of an integer socket option.
pub fn i32_opt(v: i32) -> (r: Vec<u8>)
    ensures
        r@ == le((v as u32) as nat, 4),
{
    crate::bytes::le_bytes((v as u32) as u64, 4)
}

/// The four bytes of an integer socket option.
pub open spec fn opt_bytes(v: int) -> Seq<u8> {
    le(((v as i32) as u32) as nat, 4)
}

/// Files passed along with a message, by their number.
pub struct Ancillary {
    pub fds: Vec<usize>,
}

/// What a send came to: the bytes taken or an error, and whether the caller is
/// to get SIGPIPE.
pub struct Sent {
    pub result: Result<usize, i32>,
    pub sigpipe: bool,
}

/// The operations of a socket. Each call is one attempt; `EAGAIN` is where a
/// blocking caller goes to sleep. `Ctx` is the state that the socket shares
/// with others: the network stack, or the other end of a pair.
pub trait SocketOps: Sized {
    type Ctx;

    /// What the socket and the shared state satisfy between calls.
    spec fn ready(&self, ctx: Self::Ctx) -> bool;

    fn bind(&mut self, ctx: &mut Self::Ctx, addr: SockAddr) -> (r: Result<(), i32>)
        requires
            old(self).ready(*old(ctx)),
        ensures
            final(self).ready(*final(ctx)),
        default_ensures
            r == Err::<(), i32>(EOPNOTSUPP),
            *final(self) == *old(self),
            *final(ctx) == *old(ctx),
    {
        Err(EOPNOTSUPP)
    }

    fn listen(&mut self, ctx: &mut Self::Ctx, backlog: i32) -> (r: Result<(), i32>)
        requires
            old(self).ready(*old(ctx)),
        ensures
            final(self).ready(*final(ctx)),
        default_ensures
            r == Err::<(), i32>(EOPNOTSUPP),
            *final(self) == *old(self),
            *final(ctx) == *old(ctx),
    {
        Err(EOPNOTSUPP)
    }

    /// No local path is there to connect to.
    fn connect(&mut self, ctx: &mut Self::Ctx, addr: SockAddr, nonblock: bool) -> (r: Result<(), i32>)
        requires
            old(self).ready(*old(ctx)),
        ensures
            final(self).ready(*final(ctx)),
        default_ensures
            r == Err::<(), i32>(
                if addr is Unix {
                    ENOENT
                } else {
                    EOPNOTSUPP
                },
            ),
            *final(self) == *old(self),
            *final(ctx) == *old(ctx),
    {
        match addr {
            SockAddr::Unix(_) => Err(ENOENT),
            _ => Err(EOPNOTSUPP),
        }
    }

    fn send(
        &mut self,
        ctx: &mut Self::Ctx,
        buf: &[u8],
        flags: u32,
        to: Option<SockAddr>,
        anc: Ancillary,
    ) -> (r: Sent)
        requires
            old(self).ready(*old(ctx)),
        ensures
            final(self).ready(*final(ctx)),
    ;

    /// Gives the number of bytes, the source address and passed files.
    fn recv(&mut self, ctx: &mut Self::Ctx, buf: &mut [u8], flags: u32) -> (r: Result<
        (usize, Option<SockAddr>, Ancillary),
        i32,
    >)
        requires
            old(self).ready(*old(ctx)),
        ensures
            final(self).ready(*final(ctx)),
    ;

    fn shutdown(&mut self, ctx: &mut Self::Ctx, how: i32) -> (r: Result<(), i32>)
        requires
            old(self).ready(*old(ctx)),
        ensures
            final(self).ready(*final(ctx)),
        default_ensures
            r == Ok::<(), i32>(()),
            *final(self) == *old(self),
            *final(ctx) == *old(ctx),
    {
        Ok(())
    }

    fn local_addr(&self, ctx: &Self::Ctx) -> (r: Result<SockAddr, i32>)
        requires
            self.ready(*ctx),
    ;

    fn peer_addr(&self, ctx: &Self::Ctx) -> (r: Result<SockAddr, i32>)
        requires
            self.ready(*ctx),
        default_ensures
            r == Err::<SockAddr, i32>(ENOTCONN),
    {
        Err(ENOTCONN)
    }

    fn setsockopt(&mut self, ctx: &mut Self::Ctx, level: i32, opt: i32, val: &[u8]) -> (r: Result<
        (),
        i32,
    >)
        requires
            old(self).ready(*old(ctx)),
        ensures
            final(self).ready(*final(ctx)),
        default_ensures
            r == Ok::<(), i32>(()),
            *final(self) == *old(self),
            *final(ctx) == *old(ctx),
    {
        Ok(())
    }

    fn getsockopt(&mut self, ctx: &Self::Ctx, level: i32, opt: i32) -> (r: Result<Vec<u8>, i32>)
        requires
            old(self).ready(*ctx),
        ensures
            final(self).ready(*ctx),
    ;

    fn sock_type(&self) -> (r: u32);

    fn domain(&self) -> (r: u16);
}

} // verus!
