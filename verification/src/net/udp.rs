//! UDP sockets on smoltcp.

use smoltcp::iface::SocketHandle;
use vstd::prelude::*;
use crate::abi::{
    socket_stat, socket_stat_spec, Stat, AF_INET, MSG_PEEK, POLLIN, POLLOUT, SOCK_DGRAM,
    SOL_SOCKET, SO_DOMAIN, SO_ERROR, SO_PROTOCOL, SO_RCVBUF, SO_SNDBUF, SO_TYPE,
};
use crate::errno::{
    EADDRINUSE, EAGAIN, EDESTADDRREQ, EHOSTUNREACH, EINVAL, ENOENT, ENOPROTOOPT, ENOTCONN,
};
use crate::net::smol;
use crate::net::smol::{
    fresh_udp, is_udp, sockets, udp_of, unspecified, with_udp, Ip, SockModel, UdpSent, UdpSock,
};
use crate::net::socket::{i32_opt, opt_bytes, Ancillary, Sent, SockAddr, SocketOps};
use crate::net::tcp::{
    alloc_ephemeral_port, any_addr, bound_to, connect_port, inet, listen_addr, to_listen, Kind,
    ListenAt, Shared,
};

verus! {

/// Datagrams that wait in each direction, and their bytes.
pub const UDP_PACKETS: usize = 16;

pub const UDP_BUF: usize = 0x1_0000;

pub struct UdpSocket {
    /// The socket in the set, once bound.
    pub handle: Option<SocketHandle>,
    pub peer: Option<(Ip, u16)>,
}

/// The endpoint a request for `ep` binds to, and the port counter afterwards:
/// port 0 takes an ephemeral port.
pub open spec fn bind_at(ep: ListenAt, next: u64) -> (ListenAt, u64) {
    if ep.1 == 0 {
        let (p, n) = connect_port(Kind::Unbound, next);
        ((ep.0, p), n)
    } else {
        (ep, next)
    }
}

/// `h` is the socket's handle, which was bound to `ep` if there was none.
pub open spec fn bound_post(
    s0: UdpSocket,
    c0: Shared,
    ep: ListenAt,
    h: SocketHandle,
    s1: UdpSocket,
    c1: Shared,
) -> bool {
    match s0.handle {
        Some(k) => h == k && s1 == s0 && c1 == c0,
        None => {
            let (at, next) = bind_at(ep, c0.next_port);
            &&& !c0.m().dom().contains(h)
            &&& c1.m() == with_udp(
                c0.m(),
                h,
                UdpSock { bound: at, ..fresh_udp(UDP_BUF as nat) },
            )
            &&& c1 == (Shared { sockets: c1.sockets, next_port: next, ..c0 })
            &&& s1 == (UdpSocket { handle: Some(h), ..s0 })
        },
    }
}

impl UdpSocket {
    pub fn new() -> (r: UdpSocket)
        ensures
            r.handle is None,
            r.peer is None,
    {
        UdpSocket { handle: None, peer: None }
    }

    /// Binds the socket if that was not done yet.
    fn ensure_bound(&mut self, ctx: &mut Shared, ep: ListenAt) -> (r: Result<SocketHandle, i32>)
        requires
            old(self).ready(*old(ctx)),
        ensures
            final(self).ready(*final(ctx)),
            r is Ok,
            bound_post(*old(self), *old(ctx), ep, r->Ok_0, *final(self), *final(ctx)),
    {
        match self.handle {
            Some(h) => Ok(h),
            None => {
                let at: ListenAt = if ep.1 == 0 {
                    (ep.0, alloc_ephemeral_port(&mut ctx.next_port))
                } else {
                    ep
                };
                let ghost m = ctx.m();
                let h = smol::add_udp(&mut ctx.sockets, UDP_PACKETS, UDP_BUF);
                if !smol::udp_bind(&mut ctx.sockets, h, at.0, at.1) {
                    smol::remove(&mut ctx.sockets, h);
                    return Err(EADDRINUSE);
                }
                proof {
                    assert(ctx.m() =~= with_udp(
                        m,
                        h,
                        UdpSock { bound: at, ..fresh_udp(UDP_BUF as nat) },
                    ));
                }
                self.handle = Some(h);
                Ok(h)
            },
        }
    }
}

pub open spec fn any_ep() -> ListenAt {
    (None, 0)
}

impl SocketOps for UdpSocket {
    type Ctx = Shared;

    open spec fn ready(&self, ctx: Shared) -> bool {
        ctx.wf() && (self.handle is Some ==> is_udp(ctx.m(), self.handle->0))
    }

    fn bind(&mut self, ctx: &mut Shared, addr: SockAddr) -> (r: Result<(), i32>)
        ensures
            if addr is Inet && old(self).handle is None {
                &&& r == Ok::<(), i32>(())
                &&& final(self).handle is Some
                &&& bound_post(
                    *old(self),
                    *old(ctx),
                    bound_to(addr->addr, addr->port),
                    final(self).handle->0,
                    *final(self),
                    *final(ctx),
                )
            } else {
                r == Err::<(), i32>(EINVAL) && *final(self) == *old(self) && *final(ctx) == *old(
                    ctx,
                )
            },
    {
        match addr {
            SockAddr::Inet { addr, port } => {
                if self.handle.is_some() {
                    return Err(EINVAL);
                }
                match self.ensure_bound(ctx, to_listen(addr, port)) {
                    Ok(_) => Ok(()),
                    Err(e) => Err(e),
                }
            },
            _ => Err(EINVAL),
        }
    }

    /// Sets the address that datagrams go to by default. No local path is there to
    /// connect to.
    fn connect(&mut self, ctx: &mut Shared, addr: SockAddr, nonblock: bool) -> (r: Result<(), i32>)
        ensures
            if addr is Inet {
                &&& r == Ok::<(), i32>(())
                &&& final(self).peer == Some((addr->addr, addr->port))
                &&& final(self).handle is Some
                &&& bound_post(
                    (UdpSocket { peer: final(self).peer, ..*old(self) }),
                    *old(ctx),
                    any_ep(),
                    final(self).handle->0,
                    *final(self),
                    *final(ctx),
                )
            } else {
                r == Err::<(), i32>(
                    if addr is Unix {
                        ENOENT
                    } else {
                        EINVAL
                    },
                ) && *final(self) == *old(self) && *final(ctx) == *old(ctx)
            },
    {
        match addr {
            SockAddr::Inet { addr, port } => {
                match self.ensure_bound(ctx, (None, 0)) {
                    Ok(_) => {},
                    Err(e) => {
                        return Err(e);
                    },
                }
                self.peer = Some((addr, port));
                Ok(())
            },
            SockAddr::Unix(_) => Err(ENOENT),
            SockAddr::Unspec => Err(EINVAL),
        }
    }

    /// Hands a datagram over whole. Whether the buffer has room for it is
    /// smoltcp's to say.
    fn send(
        &mut self,
        ctx: &mut Shared,
        buf: &[u8],
        flags: u32,
        to: Option<SockAddr>,
        anc: Ancillary,
    ) -> (r: Sent)
        ensures
            !r.sigpipe,
            final(self).peer == old(self).peer,
            exists|h: SocketHandle, c: Shared| #[trigger]
                bound_post(*old(self), *old(ctx), any_ep(), h, *final(self), c) && udp_sent(
                    c.m(),
                    h,
                    buf@,
                    dest_of(to, old(self).peer),
                    r.result,
                    final(ctx).m(),
                ) && *final(ctx) == (Shared { sockets: final(ctx).sockets, ..c }),
    {
        let h: SocketHandle = match self.ensure_bound(ctx, (None, 0)) {
            Ok(h) => h,
            Err(e) => {
                return Sent { result: Err(e), sigpipe: false };
            },
        };
        let ghost c = *ctx;
        let ghost dest = dest_of(to, self.peer);
        assert(bound_post(*old(self), *old(ctx), any_ep(), h, *self, c));
        let dst: (Ip, u16) = match to {
            Some(a) => match a {
                SockAddr::Inet { addr, port } => (addr, port),
                _ => {
                    assert(udp_sent(c.m(), h, buf@, dest, Err(EINVAL), ctx.m()));
                    return Sent { result: Err(EINVAL), sigpipe: false };
                },
            },
            None => match self.peer {
                Some(p) => p,
                None => {
                    assert(udp_sent(c.m(), h, buf@, dest, Err(EDESTADDRREQ), ctx.m()));
                    return Sent { result: Err(EDESTADDRREQ), sigpipe: false };
                },
            },
        };
        let result: Result<usize, i32> = match smol::udp_send_slice(
            &mut ctx.sockets,
            h,
            buf,
            dst,
        ) {
            UdpSent::Queued => Ok(buf.len()),
            UdpSent::Full => Err(EAGAIN),
            UdpSent::Unaddressable => Err(EHOSTUNREACH),
        };
        assert(udp_sent(c.m(), h, buf@, dest, result, ctx.m()));
        Sent { result, sigpipe: false }
    }

    /// One attempt to take, or look at, the oldest datagram. One that does not
    /// fit into the buffer is lost, or passed over when only looking.
    fn recv(&mut self, ctx: &mut Shared, buf: &mut [u8], flags: u32) -> (r: Result<
        (usize, Option<SockAddr>, Ancillary),
        i32,
    >)
        ensures
            *final(self) == *old(self),
            *final(ctx) == (Shared { sockets: final(ctx).sockets, ..*old(ctx) }),
            match old(self).handle {
                None => r is Err && r->Err_0 == ENOTCONN && *final(ctx) == *old(ctx) && final(buf)@
                    == old(buf)@,
                Some(h) => {
                    let s = udp_of(old(ctx).m(), h);
                    let fits = s.rx.len() > 0 && s.rx[0].0.len() <= old(buf)@.len();
                    &&& final(ctx).m() == (if flags & MSG_PEEK != 0 || s.rx.len() == 0 {
                        old(ctx).m()
                    } else {
                        with_udp(old(ctx).m(), h, UdpSock { rx: s.rx.skip(1), ..s })
                    })
                    &&& match r {
                        Ok((n, from, anc)) => {
                            &&& fits && n == s.rx[0].0.len()
                            &&& final(buf)@ == s.rx[0].0 + old(buf)@.skip(n as int)
                            &&& from is Some && (from->0)@ == inet(s.rx[0].1)
                            &&& anc.fds@.len() == 0
                        },
                        Err(e) => !fits && e == EAGAIN && final(buf)@ == old(buf)@,
                    }
                },
            },
    {
        let h: SocketHandle = match self.handle {
            Some(h) => h,
            None => {
                return Err(ENOTCONN);
            },
        };
        let ghost m = ctx.m();
        let got: Option<(usize, (Ip, u16))> = if flags & MSG_PEEK != 0 {
            smol::udp_peek_slice(&mut ctx.sockets, h, buf)
        } else {
            smol::udp_recv_slice(&mut ctx.sockets, h, buf)
        };
        proof {
            if udp_of(m, h).rx.len() == 0 {
                assert(ctx.m() =~= m);
            }
        }
        match got {
            Some((n, ep)) => Ok(
                (
                    n,
                    Some(SockAddr::Inet { addr: ep.0, port: ep.1 }),
                    Ancillary { fds: Vec::new() },
                ),
            ),
            None => Err(EAGAIN),
        }
    }

    fn local_addr(&self, ctx: &Shared) -> (r: Result<SockAddr, i32>)
        ensures
            r is Ok,
            r->Ok_0@ == (match self.handle {
                Some(h) => listen_addr(udp_of(ctx.m(), h).bound),
                None => listen_addr((None, 0)),
            }),
    {
        let any: [u8; 4] = [0, 0, 0, 0];
        proof {
            assert(any@ =~= any_addr());
        }
        match self.handle {
            Some(h) => {
                let ep: (Option<Ip>, u16) = smol::udp_endpoint(&ctx.sockets, h);
                let addr: Ip = match ep.0 {
                    Some(a) => a,
                    None => any,
                };
                Ok(SockAddr::Inet { addr, port: ep.1 })
            },
            None => Ok(SockAddr::Inet { addr: any, port: 0 }),
        }
    }

    fn peer_addr(&self, ctx: &Shared) -> (r: Result<SockAddr, i32>)
        ensures
            match self.peer {
                Some(ep) => r is Ok && r->Ok_0@ == inet(ep),
                None => r is Err && r->Err_0 == ENOTCONN,
            },
    {
        match self.peer {
            Some(ep) => Ok(SockAddr::Inet { addr: ep.0, port: ep.1 }),
            None => Err(ENOTCONN),
        }
    }

    fn getsockopt(&mut self, ctx: &Shared, level: i32, opt: i32) -> (r: Result<Vec<u8>, i32>)
        ensures
            *final(self) == *old(self),
            match udp_option(level, opt) {
                Some(v) => r is Ok && r->Ok_0@ == opt_bytes(v),
                None => r is Err && r->Err_0 == ENOPROTOOPT,
            },
    {
        if level != SOL_SOCKET {
            return Err(ENOPROTOOPT);
        }
        match opt {
            SO_TYPE => Ok(i32_opt(SOCK_DGRAM as i32)),
            SO_ERROR => Ok(i32_opt(0)),
            SO_DOMAIN => Ok(i32_opt(AF_INET as i32)),
            SO_PROTOCOL => Ok(i32_opt(17)),
            SO_RCVBUF | SO_SNDBUF => Ok(i32_opt(65536)),
            _ => Err(ENOPROTOOPT),
        }
    }

    fn sock_type(&self) -> (r: u32)
        ensures
            r == SOCK_DGRAM,
    {
        SOCK_DGRAM
    }

    fn domain(&self) -> (r: u16)
        ensures
            r == AF_INET,
    {
        AF_INET
    }
}

/// Where a datagram goes: the address given with it, or the connected one.
pub open spec fn dest_of(to: Option<SockAddr>, peer: Option<(Ip, u16)>) -> Result<
    Option<(Ip, u16)>,
    i32,
> {
    match to {
        Some(SockAddr::Inet { addr, port }) => Ok(Some((addr, port))),
        Some(_) => Err(EINVAL),
        None => Ok(peer),
    }
}

pub open spec fn udp_option(level: i32, opt: i32) -> Option<int> {
    if level != SOL_SOCKET {
        None
    } else if opt == SO_TYPE {
        Some(SOCK_DGRAM as int)
    } else if opt == SO_ERROR {
        Some(0)
    } else if opt == SO_DOMAIN {
        Some(AF_INET as int)
    } else if opt == SO_PROTOCOL {
        Some(17)
    } else if opt == SO_RCVBUF || opt == SO_SNDBUF {
        Some(65536)
    } else {
        None
    }
}

/// What sending `data` on the bound socket `h` comes to. `dest` is the
/// destination, none, or the error that naming it gave.
pub open spec fn udp_sent(
    m: Map<SocketHandle, SockModel>,
    h: SocketHandle,
    data: Seq<u8>,
    dest: Result<Option<(Ip, u16)>, i32>,
    r: Result<usize, i32>,
    m1: Map<SocketHandle, SockModel>,
) -> bool {
    let s = udp_of(m, h);
    match dest {
        Err(e) => r == Err::<usize, i32>(e) && m1 == m,
        Ok(None) => r == Err::<usize, i32>(EDESTADDRREQ) && m1 == m,
        Ok(Some(to)) => if s.bound.1 == 0 || unspecified(to.0) || to.1 == 0 {
            r == Err::<usize, i32>(EHOSTUNREACH) && m1 == m
        } else {
            match r {
                Ok(n) => n == data.len() && data.len() <= s.tx_cap && m1 == with_udp(
                    m,
                    h,
                    UdpSock { tx: s.tx.push((data, to)), ..s },
                ),
                Err(e) => e == EAGAIN && m1 == m,
            }
        },
    }
}

impl UdpSocket {
    /// Always writable; readable where a datagram waits.
    pub fn poll(&self, ctx: &Shared) -> (ev: u32)
        requires
            self.ready(*ctx),
        ensures
            ev == POLLOUT || ev == POLLOUT | POLLIN,
            self.handle is None ==> ev == POLLOUT,
            self.handle is Some && udp_of(ctx.m(), self.handle->0).rx.len() > 0 ==> ev == POLLOUT
                | POLLIN,
    {
        match self.handle {
            Some(h) => {
                if smol::udp_can_recv(&ctx.sockets, h) {
                    POLLOUT | POLLIN
                } else {
                    POLLOUT
                }
            },
            None => POLLOUT,
        }
    }

    pub fn stat(&self) -> (r: Stat)
        ensures
            r == socket_stat_spec(),
    {
        socket_stat()
    }

    /// To be called when the last file of the socket is closed.
    pub fn release(&mut self, ctx: &mut Shared)
        requires
            old(self).ready(*old(ctx)),
        ensures
            *final(self) == (UdpSocket { handle: None, ..*old(self) }),
            final(ctx).m() == (match old(self).handle {
                Some(h) => old(ctx).m().remove(h),
                None => old(ctx).m(),
            }),
            *final(ctx) == (Shared { sockets: final(ctx).sockets, ..*old(ctx) }),
    {
        match self.handle {
            Some(h) => {
                smol::remove(&mut ctx.sockets, h);
                self.handle = None;
            },
            None => {},
        }
    }
}

/// A datagram goes whole to the address given with it, or to the connected peer
/// without one, behind those sent before; without either it is refused.
pub proof fn datagram_goes_to_its_address(
    m: Map<SocketHandle, SockModel>,
    h: SocketHandle,
    data: Seq<u8>,
    to: Option<SockAddr>,
    peer: Option<(Ip, u16)>,
    r: Result<usize, i32>,
    m1: Map<SocketHandle, SockModel>,
)
    requires
        udp_sent(m, h, data, dest_of(to, peer), r, m1),
    ensures
        to is None && peer is None ==> r is Err && m1 == m,
        r matches Ok(n) ==> {
            let tx = udp_of(m1, h).tx;
            &&& n == data.len()
            &&& tx.len() == udp_of(m, h).tx.len() + 1
            &&& tx.last().0 == data
            &&& to matches Some(SockAddr::Inet { addr, port }) ==> tx.last().1 == (addr, port)
            &&& to is None ==> Some(tx.last().1) == peer
            &&& tx.drop_last() == udp_of(m, h).tx
        },
        r is Err ==> m1 == m,
{
    if r is Ok {
        let tx = udp_of(m1, h).tx;
        assert(tx.drop_last() =~= udp_of(m, h).tx);
    }
}

} // verus!
