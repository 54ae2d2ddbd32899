//! TCP sockets as files: one smoltcp socket per connection, several per
//! listening socket.

use smoltcp::iface::{Interface, SocketHandle, SocketSet};
use vstd::prelude::*;
use crate::abi::{
    socket_stat, socket_stat_spec, Stat, AF_INET, FIONREAD, MSG_NOSIGNAL, MSG_PEEK, POLLERR,
    POLLHUP, POLLIN, POLLOUT, POLLRDHUP, SHUT_RD, SHUT_RDWR, SHUT_WR, SOCK_STREAM, SOL_IP,
    SOL_SOCKET, SOL_TCP, SO_ACCEPTCONN, SO_DOMAIN, SO_ERROR, SO_KEEPALIVE, SO_LINGER, SO_PROTOCOL,
    SO_RCVBUF, SO_REUSEADDR, SO_REUSEPORT, SO_SNDBUF, SO_TYPE, TCP_MAXSEG, TCP_NODELAY,
};
use crate::bytes::{from_le, get_le, le, put_zeros, zeros};
use crate::errno::{
    SysResult, EADDRINUSE, EADDRNOTAVAIL, EAGAIN, EALREADY, ECONNREFUSED, EFAULT, EINPROGRESS,
    EINVAL, EISCONN, ENOENT, ENOPROTOOPT, ENOTCONN, ENOTTY, EPIPE,
};
use crate::net::smol;
use crate::net::smol::{
    added, closed, connecting, fresh_tcp, is_tcp, listening, may_recv, may_send, smaller, sockets,
    source_address, tcp_of, unspecified, with_tcp, Ip, SockModel, TcpSock, TcpState,
};
use crate::net::socket::{i32_opt, opt_bytes, Ancillary, Sent, SockAddr, SockAddrView, SocketOps};
use crate::net::unix::{bit_if, next_seq};
use crate::net::GUEST_IP;
use crate::uaccess::{mapped, stored, UserMem};

verus! {

pub const RX_BUF: usize = 0x2_0000;

pub const TX_BUF: usize = 0x2_0000;

pub const MAX_BACKLOG: usize = 32;

/// The first ephemeral port.
pub const PORT_BASE: u64 = 49152;

/// An endpoint to listen on: any address of ours, or a given one.
pub type ListenAt = (Option<Ip>, u16);

pub enum Kind {
    Unbound,
    Bound(ListenAt),
    Listening { local: ListenAt, handles: Vec<SocketHandle> },
    Connecting(SocketHandle),
    Connected(SocketHandle),
    Closed,
}

/// What all internet sockets share.
pub struct Shared {
    pub iface: Interface,
    pub sockets: SocketSet<'static>,
    /// The counter behind `alloc_ephemeral_port`.
    pub next_port: u64,
    /// Sockets whose file is gone but which still have to finish.
    pub orphans: Vec<SocketHandle>,
}

impl Shared {
    pub open spec fn wf(&self) -> bool {
        PORT_BASE <= self.next_port <= 65535
    }

    pub open spec fn m(&self) -> Map<SocketHandle, SockModel> {
        sockets(self.sockets)
    }
}

/// Something to compare a socket's condition by: state, received bytes, unsent
/// bytes, and whether it can send.
pub type Snapshot = (u8, usize, usize, bool);

pub struct TcpSocket {
    pub kind: Kind,
    pub nodelay: bool,
    pub keepalive: bool,
    pub shut_rd: bool,
    pub shut_wr: bool,
    pub error: i32,
    pub backlog: usize,
    pub seq: u64,
    pub snapshot: Snapshot,
}

/// The port that the counter value `p` stands for.
pub open spec fn port_of(p: u64) -> u16 {
    (PORT_BASE + (p - PORT_BASE) % 16000) as u16
}

/// Hands out the next ephemeral port.
pub fn alloc_ephemeral_port(next: &mut u64) -> (r: u16)
    requires
        PORT_BASE <= *old(next) <= 65535,
    ensures
        r == port_of(*old(next)),
        PORT_BASE <= r < PORT_BASE + 16000,
        *final(next) == (if *old(next) >= 65535 {
            PORT_BASE
        } else {
            (*old(next) + 1) as u64
        }),
{
    let p: u64 = *next;
    if p >= 65535 {
        *next = PORT_BASE;
    } else {
        *next = p + 1;
    }
    (PORT_BASE + (p - PORT_BASE) % 16000) as u16
}

/// A new socket: neither Nagle's algorithm nor delayed acknowledgements.
pub open spec fn new_sock() -> TcpSock {
    TcpSock { nagle: false, delayed_ack: false, ..fresh_tcp(RX_BUF as nat) }
}

fn new_smol_socket(set: &mut SocketSet<'static>) -> (h: SocketHandle)
    ensures
        !sockets(*old(set)).dom().contains(h),
        sockets(*final(set)) == with_tcp(sockets(*old(set)), h, new_sock()),
{
    let ghost m = sockets(*set);
    let h = smol::add_tcp(set, RX_BUF);
    smol::set_nagle(set, h, false);
    smol::disable_ack_delay(set, h);
    proof {
        assert(sockets(*set) =~= with_tcp(m, h, new_sock()));
    }
    h
}

pub open spec fn inet(ep: (Ip, u16)) -> SockAddrView {
    SockAddrView::Inet { addr: ep.0@, port: ep.1 }
}

pub open spec fn any_addr() -> Seq<u8> {
    seq![0u8, 0u8, 0u8, 0u8]
}

pub open spec fn listen_addr(ep: ListenAt) -> SockAddrView {
    SockAddrView::Inet {
        addr: match ep.0 {
            Some(a) => a@,
            None => any_addr(),
        },
        port: ep.1,
    }
}

fn ep_to_sockaddr(ep: (Ip, u16)) -> (r: SockAddr)
    ensures
        r@ == inet(ep),
{
    SockAddr::Inet { addr: ep.0, port: ep.1 }
}

fn listen_to_sockaddr(ep: ListenAt) -> (r: SockAddr)
    ensures
        r@ == listen_addr(ep),
{
    match ep.0 {
        Some(a) => SockAddr::Inet { addr: a, port: ep.1 },
        None => unspecified_at(ep.1),
    }
}

/// The unspecified address with a port.
fn unspecified_at(port: u16) -> (r: SockAddr)
    ensures
        r@ == (SockAddrView::Inet { addr: any_addr(), port }),
{
    let addr: [u8; 4] = [0, 0, 0, 0];
    proof {
        assert(addr@ =~= any_addr());
    }
    SockAddr::Inet { addr, port }
}

/// Addresses that a socket here can be bound to: any, ours, or the loopback.
pub open spec fn ours(a: Seq<u8>) -> bool {
    a =~= any_addr() || a =~= GUEST_IP@ || a =~= seq![127u8, 0u8, 0u8, 1u8]
}

fn same(a: &Ip, b: &Ip) -> (r: bool)
    ensures
        r == (a@ =~= b@),
{
    a[0] == b[0] && a[1] == b[1] && a[2] == b[2] && a[3] == b[3]
}

pub fn is_our_addr(addr: Ip) -> (r: bool)
    ensures
        r == ours(addr@),
{
    let any: [u8; 4] = [0, 0, 0, 0];
    let loopback: [u8; 4] = [127, 0, 0, 1];
    let us: [u8; 4] = GUEST_IP;
    proof {
        assert(any@ =~= any_addr());
        assert(loopback@ =~= seq![127u8, 0u8, 0u8, 1u8]);
    }
    same(&addr, &any) || same(&addr, &us) || same(&addr, &loopback)
}

pub open spec fn state_num(s: TcpState) -> u8 {
    match s {
        TcpState::Closed => 0,
        TcpState::Listen => 1,
        TcpState::SynSent => 2,
        TcpState::SynReceived => 3,
        TcpState::Established => 4,
        TcpState::FinWait1 => 5,
        TcpState::FinWait2 => 6,
        TcpState::CloseWait => 7,
        TcpState::Closing => 8,
        TcpState::LastAck => 9,
        TcpState::TimeWait => 10,
    }
}

/// A number for each TCP state.
pub fn state_u8(s: TcpState) -> (r: u8)
    ensures
        r == state_num(s),
{
    match s {
        TcpState::Closed => 0,
        TcpState::Listen => 1,
        TcpState::SynSent => 2,
        TcpState::SynReceived => 3,
        TcpState::Established => 4,
        TcpState::FinWait1 => 5,
        TcpState::FinWait2 => 6,
        TcpState::CloseWait => 7,
        TcpState::Closing => 8,
        TcpState::LastAck => 9,
        TcpState::TimeWait => 10,
    }
}

/// The socket has a peer that a listener can hand out.
pub open spec fn can_accept(s: TcpState) -> bool {
    !(s is Listen || s is SynReceived || s is SynSent || s is Closed)
}

/// How many of the sockets can be handed out.
pub open spec fn count_ready(hs: Seq<SocketHandle>, m: Map<SocketHandle, SockModel>) -> nat
    decreases hs.len(),
{
    if hs.len() == 0 {
        0
    } else {
        count_ready(hs.drop_last(), m) + (if can_accept(tcp_of(m, hs.last()).state) {
            1nat
        } else {
            0nat
        })
    }
}

pub open spec fn all_tcp(hs: Seq<SocketHandle>, m: Map<SocketHandle, SockModel>) -> bool {
    forall|i: int| 0 <= i < hs.len() ==> is_tcp(m, #[trigger] hs[i])
}

/// The peer will send no more.
pub open spec fn peer_closed(s: TcpState) -> bool {
    s is CloseWait || s is LastAck || s is Closing || s is TimeWait || s is Closed
}

pub open spec fn can_send(s: TcpSock) -> bool {
    may_send(s) && s.tx.len() != s.tx_cap
}

/// Readiness of a connection.
pub open spec fn conn_events(s: TcpSock, shut_rd: bool, error: i32) -> u32 {
    bit_if(s.rx.len() > 0 || shut_rd, POLLIN) | bit_if(peer_closed(s.state), POLLIN | POLLRDHUP)
        | bit_if(s.state is Closed, POLLHUP) | bit_if(can_send(s), POLLOUT) | bit_if(
        error != 0,
        POLLERR,
    )
}

impl TcpSocket {
    /// The sockets that this one refers to exist, once each.
    pub open spec fn wf(&self, m: Map<SocketHandle, SockModel>) -> bool {
        match self.kind {
            Kind::Listening { local, handles } => all_tcp(handles@, m) && handles@.no_duplicates()
                && local.1 != 0,
            Kind::Connecting(h) => is_tcp(m, h),
            Kind::Connected(h) => is_tcp(m, h),
            _ => true,
        }
    }

    pub open spec fn events(&self, m: Map<SocketHandle, SockModel>) -> u32 {
        match self.kind {
            Kind::Listening { local, handles } => bit_if(count_ready(handles@, m) > 0, POLLIN),
            Kind::Connected(h) => conn_events(tcp_of(m, h), self.shut_rd, self.error),
            Kind::Connecting(h) => conn_events(tcp_of(m, h), self.shut_rd, self.error),
            Kind::Closed => POLLHUP | POLLIN | POLLOUT,
            Kind::Unbound | Kind::Bound(_) => POLLOUT | POLLHUP,
        }
    }

    pub open spec fn condition(&self, m: Map<SocketHandle, SockModel>) -> (int, int, int, bool) {
        match self.kind {
            Kind::Listening { local, handles } => (1, count_ready(handles@, m) as int, 0, false),
            Kind::Connected(h) => conn_condition(tcp_of(m, h)),
            Kind::Connecting(h) => conn_condition(tcp_of(m, h)),
            _ => (0, 0, 0, false),
        }
    }

    /// A new socket that is not bound.
    pub fn new() -> (r: TcpSocket)
        ensures
            r == fresh_socket(Kind::Unbound),
    {
        TcpSocket {
            kind: Kind::Unbound,
            nodelay: false,
            keepalive: false,
            shut_rd: false,
            shut_wr: false,
            error: 0,
            backlog: 8,
            seq: 1,
            snapshot: (0, 0, 0, false),
        }
    }

    fn from_handle(h: SocketHandle) -> (r: TcpSocket)
        ensures
            r == fresh_socket(Kind::Connected(h)),
    {
        let mut s = TcpSocket::new();
        s.kind = Kind::Connected(h);
        s
    }
}

pub open spec fn conn_condition(s: TcpSock) -> (int, int, int, bool) {
    (state_num(s.state) as int, s.rx.len() as int, s.tx.len() as int, can_send(s))
}

pub open spec fn snap_is(s: Snapshot, c: (int, int, int, bool)) -> bool {
    s.0 == c.0 && s.1 == c.1 && s.2 == c.2 && s.3 == c.3
}

pub open spec fn fresh_socket(kind: Kind) -> TcpSocket {
    TcpSocket {
        kind,
        nodelay: false,
        keepalive: false,
        shut_rd: false,
        shut_wr: false,
        error: 0,
        backlog: 8,
        seq: 1,
        snapshot: (0, 0, 0, false),
    }
}

fn conn_readiness(set: &SocketSet<'static>, h: SocketHandle, shut_rd: bool, error: i32) -> (r: (
    u32,
    Snapshot,
))
    requires
        is_tcp(sockets(*set), h),
    ensures
        r.0 == conn_events(tcp_of(sockets(*set), h), shut_rd, error),
        snap_is(r.1, conn_condition(tcp_of(sockets(*set), h))),
{
    let st: TcpState = smol::state(set, h);
    let rx: usize = smol::recv_queue(set, h);
    let tx: usize = smol::send_queue(set, h);
    let sendable: bool = smol::can_send(set, h);
    let mut ev: u32 = if rx > 0 || shut_rd {
        POLLIN
    } else {
        0
    };
    let gone: bool = match st {
        TcpState::CloseWait
        | TcpState::LastAck
        | TcpState::Closing
        | TcpState::TimeWait
        | TcpState::Closed => true,
        _ => false,
    };
    ev = ev | if gone {
        POLLIN | POLLRDHUP
    } else {
        0
    };
    ev = ev | if st == TcpState::Closed {
        POLLHUP
    } else {
        0
    };
    ev = ev | if sendable && st != TcpState::SynSent && st != TcpState::SynReceived {
        POLLOUT
    } else {
        0
    };
    ev = ev | if error != 0 {
        POLLERR
    } else {
        0
    };
    (ev, (state_u8(st), rx, tx, sendable))
}

fn acceptable(set: &SocketSet<'static>, h: SocketHandle) -> (r: bool)
    requires
        is_tcp(sockets(*set), h),
    ensures
        r == can_accept(tcp_of(sockets(*set), h).state),
{
    match smol::state(set, h) {
        TcpState::Listen | TcpState::SynReceived | TcpState::SynSent | TcpState::Closed => false,
        _ => true,
    }
}

impl TcpSocket {
    /// Readiness, and the snapshot to recognise changes by.
    fn readiness(&self, ctx: &Shared) -> (r: (u32, Snapshot))
        requires
            self.wf(ctx.m()),
        ensures
            r.0 == self.events(ctx.m()),
            snap_is(r.1, self.condition(ctx.m())),
    {
        match &self.kind {
            Kind::Listening { local, handles } => {
                let mut n: usize = 0;
                let mut i: usize = 0;
                let len: usize = handles.len();
                while i < len
                    invariant
                        i <= len == handles@.len(),
                        n <= i,
                        all_tcp(handles@, ctx.m()),
                        n == count_ready(handles@.take(i as int), ctx.m()),
                    decreases len - i,
                {
                    proof {
                        assert(handles@.take(i + 1).drop_last() =~= handles@.take(i as int));
                        assert(handles@.take(i + 1).last() == handles@[i as int]);
                    }
                    if acceptable(&ctx.sockets, handles[i]) {
                        n = n + 1;
                    }
                    i = i + 1;
                }
                proof {
                    assert(handles@.take(len as int) =~= handles@);
                }
                let ev: u32 = if n > 0 {
                    POLLIN
                } else {
                    0
                };
                (ev, (1, n, 0, false))
            },
            Kind::Connected(h) => conn_readiness(&ctx.sockets, *h, self.shut_rd, self.error),
            Kind::Connecting(h) => conn_readiness(&ctx.sockets, *h, self.shut_rd, self.error),
            Kind::Closed => (POLLHUP | POLLIN | POLLOUT, (0, 0, 0, false)),
            Kind::Unbound | Kind::Bound(_) => (POLLOUT | POLLHUP, (0, 0, 0, false)),
        }
    }

    /// Takes a new snapshot; a change counts as an event.
    fn check_changed(&mut self, ctx: &Shared) -> (r: bool)
        requires
            old(self).wf(ctx.m()),
        ensures
            r == !snap_is(old(self).snapshot, old(self).condition(ctx.m())),
            snap_is(final(self).snapshot, old(self).condition(ctx.m())),
            *final(self) == (TcpSocket {
                snapshot: final(self).snapshot,
                seq: if r {
                    next_seq(old(self).seq)
                } else {
                    old(self).seq
                },
                ..*old(self)
            }),
    {
        let (_, snap): (u32, Snapshot) = self.readiness(ctx);
        let cur: Snapshot = self.snapshot;
        if cur.0 != snap.0 || cur.1 != snap.1 || cur.2 != snap.2 || cur.3 != snap.3 {
            self.snapshot = snap;
            self.seq = self.seq.wrapping_add(1);
            true
        } else {
            false
        }
    }
}

/// To be called after every run of the interface: gives every socket whose
/// condition changed an event, and says whether there was any.
pub fn update_event_seqs(list: &mut Vec<TcpSocket>, ctx: &Shared) -> (any: bool)
    requires
        forall|i: int| 0 <= i < old(list)@.len() ==> (#[trigger] old(list)@[i]).wf(ctx.m()),
    ensures
        final(list)@.len() == old(list)@.len(),
        forall|i: int|
            0 <= i < old(list)@.len() ==> updated(
                old(list)@[i],
                #[trigger] final(list)@[i],
                ctx.m(),
            ),
        any == exists|i: int|
            0 <= i < old(list)@.len() && changed(#[trigger] old(list)@[i], ctx.m()),
{
    let ghost l0 = list@;
    let mut any: bool = false;
    let n: usize = list.len();
    let mut i: usize = 0;
    while i < n
        invariant
            i <= n == list@.len(),
            n == l0.len(),
            forall|j: int| 0 <= j < n ==> (#[trigger] l0[j]).wf(ctx.m()),
            forall|j: int| i <= j < n ==> list@[j] == l0[j],
            forall|j: int| 0 <= j < i ==> updated(l0[j], #[trigger] list@[j], ctx.m()),
            any == exists|j: int| 0 <= j < i && changed(#[trigger] l0[j], ctx.m()),
        decreases n - i,
    {
        assert(list@[i as int] == l0[i as int]);
        assert(l0[i as int].wf(ctx.m()));
        let c: bool = list[i].check_changed(ctx);
        if c {
            assert(changed(l0[i as int], ctx.m()));
            any = true;
        }
        i = i + 1;
    }
    any
}

pub open spec fn changed(s: TcpSocket, m: Map<SocketHandle, SockModel>) -> bool {
    !snap_is(s.snapshot, s.condition(m))
}

pub open spec fn updated(s: TcpSocket, t: TcpSocket, m: Map<SocketHandle, SockModel>) -> bool {
    &&& snap_is(t.snapshot, s.condition(m))
    &&& t == (TcpSocket {
        snapshot: t.snapshot,
        seq: if changed(s, m) {
            next_seq(s.seq)
        } else {
            s.seq
        },
        ..s
    })
}

// ---- Receiving and sending -------------------------------------------------
pub open spec fn recv_attempt(
    before: TcpSocket,
    c0: Shared,
    buf: Seq<u8>,
    peek: bool,
    r: SysResult,
    after: TcpSocket,
    c1: Shared,
    filled: Seq<u8>,
) -> bool {
    let idle = after == before && c1.m() == c0.m() && filled == buf;
    if buf.len() == 0 {
        r == Ok::<usize, i32>(0) && idle
    } else {
        match before.kind {
            Kind::Connected(h) => {
                let s = tcp_of(c0.m(), h);
                let n = smaller(buf.len() as int, s.rx.len() as int);
                if s.rx.len() > 0 {
                    &&& r is Ok && r->Ok_0 == n
                    &&& filled == s.rx.take(n) + buf.skip(n)
                    &&& after == before
                    &&& c1.m() == (if peek {
                        c0.m()
                    } else {
                        with_tcp(c0.m(), h, TcpSock { rx: s.rx.skip(n), ..s })
                    })
                } else if before.shut_rd || !may_recv(s) {
                    if s.state is Closed && before.error != 0 {
                        &&& r == Err::<usize, i32>(before.error)
                        &&& after == (TcpSocket { error: 0, ..before })
                        &&& c1.m() == c0.m() && filled == buf
                    } else {
                        r == Ok::<usize, i32>(0) && idle
                    }
                } else {
                    r == Err::<usize, i32>(EAGAIN) && idle
                }
            },
            Kind::Connecting(_) => r == Err::<usize, i32>(EAGAIN) && idle,
            Kind::Closed => r == Ok::<usize, i32>(0) && idle,
            _ => r == Err::<usize, i32>(ENOTCONN) && idle,
        }
    }
}

/// What one attempt to send gives.
pub open spec fn send_attempt(before: TcpSocket, m: Map<SocketHandle, SockModel>, data: Seq<u8>) -> (
    SysResult,
    Map<SocketHandle, SockModel>,
) {
    if before.shut_wr {
        (Err(EPIPE), m)
    } else {
        match before.kind {
            Kind::Connected(h) => {
                let s = tcp_of(m, h);
                let n = smaller(data.len() as int, s.tx_cap - s.tx.len());
                if !may_send(s) {
                    (Err(EPIPE), m)
                } else if !can_send(s) || data.len() == 0 {
                    (Err(EAGAIN), m)
                } else {
                    (Ok(n as usize), with_tcp(m, h, TcpSock { tx: s.tx + data.take(n), ..s }))
                }
            },
            Kind::Connecting(_) => (Err(EAGAIN), m),
            Kind::Closed => (Err(EPIPE), m),
            _ => (Err(ENOTCONN), m),
        }
    }
}

/// Where a send that may take several attempts stands.
pub enum SendStep {
    /// It is over; `sigpipe` is whether the caller gets SIGPIPE.
    Done { result: SysResult, sigpipe: bool },
    /// Some bytes went; run the interface and go on from `sent`.
    Progress { sent: usize },
    /// Sleep until the network has changed, then go on.
    Block,
}

/// What follows one attempt of a send that has moved `sent` of `len` bytes.
pub open spec fn after_attempt(
    r: SysResult,
    sent: usize,
    len: usize,
    flags: u32,
    nonblock: bool,
    signal: bool,
) -> SendStep {
    match r {
        Ok(n) => if sent + n >= len || nonblock {
            SendStep::Done { result: Ok((sent + n) as usize), sigpipe: false }
        } else {
            SendStep::Progress { sent: (sent + n) as usize }
        },
        Err(e) => if e == EAGAIN && !nonblock && !signal {
            SendStep::Block
        } else if sent > 0 {
            SendStep::Done { result: Ok(sent), sigpipe: false }
        } else if e == EAGAIN && !nonblock {
            SendStep::Done { result: Err(crate::errno::EINTR), sigpipe: false }
        } else {
            SendStep::Done { result: Err(e), sigpipe: e == EPIPE && flags & MSG_NOSIGNAL == 0 }
        },
    }
}

impl TcpSocket {
    /// One attempt to receive.
    pub fn do_recv(&mut self, ctx: &mut Shared, buf: &mut [u8], flags: u32) -> (r: SysResult)
        requires
            old(self).wf(old(ctx).m()),
        ensures
            recv_attempt(
                *old(self),
                *old(ctx),
                old(buf)@,
                flags & MSG_PEEK != 0,
                r,
                *final(self),
                *final(ctx),
                final(buf)@,
            ),
            final(self).wf(final(ctx).m()),
            *final(ctx) == (Shared { sockets: final(ctx).sockets, ..*old(ctx) }),
    {
        if buf.len() == 0 {
            return Ok(0);
        }
        let peek: bool = flags & MSG_PEEK != 0;
        let h: SocketHandle = match &self.kind {
            Kind::Connected(h) => *h,
            Kind::Connecting(_) => {
                return Err(EAGAIN);
            },
            Kind::Closed => {
                return Ok(0);
            },
            _ => {
                return Err(ENOTCONN);
            },
        };
        if smol::recv_queue(&ctx.sockets, h) > 0 {
            let got: Option<usize> = if peek {
                smol::peek_slice(&mut ctx.sockets, h, buf)
            } else {
                smol::recv_slice(&mut ctx.sockets, h, buf)
            };
            return match got {
                Some(n) => Ok(n),
                None => Ok(0),
            };
        }
        if self.shut_rd || !smol::may_recv_now(&ctx.sockets, h) {
            if smol::state(&ctx.sockets, h) == TcpState::Closed {
                let err: i32 = self.error;
                if err != 0 {
                    self.error = 0;
                    return Err(err);
                }
            }
            return Ok(0);
        }
        Err(EAGAIN)
    }

    /// One attempt to send `buf` from `sent` on.
    fn try_send(&mut self, ctx: &mut Shared, buf: &[u8], sent: usize) -> (r: SysResult)
        requires
            old(self).wf(old(ctx).m()),
            sent <= buf@.len(),
        ensures
            *final(self) == *old(self),
            r == send_attempt(*old(self), old(ctx).m(), buf@.skip(sent as int)).0,
            final(ctx).m() == send_attempt(*old(self), old(ctx).m(), buf@.skip(sent as int)).1,
            final(self).wf(final(ctx).m()),
            *final(ctx) == (Shared { sockets: final(ctx).sockets, ..*old(ctx) }),
            r is Ok ==> r->Ok_0 <= buf@.len() - sent,
    {
        if self.shut_wr {
            return Err(EPIPE);
        }
        let h: SocketHandle = match &self.kind {
            Kind::Connected(h) => *h,
            Kind::Connecting(_) => {
                return Err(EAGAIN);
            },
            Kind::Closed => {
                return Err(EPIPE);
            },
            _ => {
                return Err(ENOTCONN);
            },
        };
        if !smol::may_send_now(&ctx.sockets, h) {
            return Err(EPIPE);
        }
        if !smol::can_send(&ctx.sockets, h) {
            return Err(EAGAIN);
        }
        let ghost m = ctx.m();
        let rest: &[u8] = vstd::slice::slice_subrange(buf, sent, buf.len());
        proof {
            assert(rest@ =~= buf@.skip(sent as int));
        }
        match smol::send_slice(&mut ctx.sockets, h, rest) {
            Some(n) => {
                if n == 0 {
                    proof {
                        let s = tcp_of(m, h);
                        assert(s.tx + rest@.take(0) =~= s.tx);
                        assert(ctx.m() =~= m);
                    }
                    Err(EAGAIN)
                } else {
                    Ok(n)
                }
            },
            None => Err(EPIPE),
        }
    }

    /// One round of a send: an attempt, and what follows from it.
    pub fn do_send(
        &mut self,
        ctx: &mut Shared,
        buf: &[u8],
        sent: usize,
        flags: u32,
        nonblock: bool,
        signal: bool,
    ) -> (r: SendStep)
        requires
            old(self).wf(old(ctx).m()),
            sent <= buf@.len(),
        ensures
            *final(self) == *old(self),
            final(self).wf(final(ctx).m()),
            *final(ctx) == (Shared { sockets: final(ctx).sockets, ..*old(ctx) }),
            buf@.len() == 0 ==> final(ctx).m() == old(ctx).m() && r == (SendStep::Done {
                result: Ok(0),
                sigpipe: false,
            }),
            buf@.len() > 0 ==> ({
                let (attempt, m) = send_attempt(*old(self), old(ctx).m(), buf@.skip(sent as int));
                &&& final(ctx).m() == m
                &&& r == after_attempt(attempt, sent, buf.len(), flags, nonblock, signal)
            }),
    {
        let len: usize = buf.len();
        if len == 0 {
            return SendStep::Done { result: Ok(0), sigpipe: false };
        }
        match self.try_send(ctx, buf, sent) {
            Ok(n) => {
                let total: usize = sent + n;
                if total >= len || nonblock {
                    SendStep::Done { result: Ok(total), sigpipe: false }
                } else {
                    SendStep::Progress { sent: total }
                }
            },
            Err(e) => {
                if e == EAGAIN && !nonblock && !signal {
                    SendStep::Block
                } else if sent > 0 {
                    SendStep::Done { result: Ok(sent), sigpipe: false }
                } else if e == EAGAIN && !nonblock {
                    SendStep::Done { result: Err(crate::errno::EINTR), sigpipe: false }
                } else {
                    SendStep::Done {
                        result: Err(e),
                        sigpipe: e == EPIPE && flags & MSG_NOSIGNAL == 0,
                    }
                }
            },
        }
    }
}

// ---- The socket calls -------------------------------------------------------
/// Some socket of the set listens on `port`.
pub open spec fn port_taken(m: Map<SocketHandle, SockModel>, port: u16) -> bool {
    exists|h: SocketHandle| listens_on(m, h, port)
}

pub open spec fn listens_on(m: Map<SocketHandle, SockModel>, h: SocketHandle, port: u16) -> bool {
    is_tcp(m, h) && tcp_of(m, h).state is Listen && tcp_of(m, h).listen.1 == port
}

#[verifier::loop_isolation(false)]
fn is_port_taken(set: &SocketSet<'static>, port: u16) -> (r: bool)
    ensures
        r == port_taken(sockets(*set), port),
{
    let ghost m = sockets(*set);
    let hs: Vec<(SocketHandle, bool)> = smol::handles(set);
    let n: usize = hs.len();
    let mut i: usize = 0;
    while i < n
        invariant
            i <= n == hs@.len(),
            forall|j: int| 0 <= j < i ==> !listens_on(m, (#[trigger] hs@[j]).0, port),
        decreases n - i,
    {
        let (h, tcp): (SocketHandle, bool) = hs[i];
        if tcp && smol::state(set, h) == TcpState::Listen && smol::listen_port(set, h) == port {
            assert(listens_on(m, h, port));
            return true;
        }
        i = i + 1;
    }
    proof {
        assert forall|h: SocketHandle| !listens_on(m, h, port) by {
            if m.dom().contains(h) {
                let j = choose|j: int| 0 <= j < hs@.len() && (#[trigger] hs@[j]).0 == h;
                assert(!listens_on(m, hs@[j].0, port));
            }
        }
    }
    false
}

/// The endpoint that binding to an address means.
pub open spec fn bound_to(addr: Ip, port: u16) -> ListenAt {
    (
        if unspecified(addr) {
            None
        } else {
            Some(addr)
        },
        port,
    )
}

pub fn to_listen(addr: Ip, port: u16) -> (r: ListenAt)
    ensures
        r == bound_to(addr, port),
{
    let any: [u8; 4] = [0, 0, 0, 0];
    proof {
        assert(any@ =~= any_addr());
    }
    if same(&addr, &any) {
        (None, port)
    } else {
        (Some(addr), port)
    }
}

pub open spec fn backlog_of(backlog: i32) -> int {
    if backlog < 1 {
        1
    } else {
        smaller(backlog as int, MAX_BACKLOG as int)
    }
}

fn add_listening(set: &mut SocketSet<'static>, at: ListenAt) -> (r: (SocketHandle, bool))
    requires
        at.1 != 0,
    ensures
        !sockets(*old(set)).dom().contains(r.0),
        sockets(*final(set)) == with_tcp(
            sockets(*old(set)),
            r.0,
            listening(new_sock(), at.0, at.1),
        ),
        r.1,
{
    let ghost m = sockets(*set);
    let h = new_smol_socket(set);
    let ok: bool = smol::listen(set, h, at.0, at.1);
    proof {
        assert(sockets(*set) =~= with_tcp(m, h, listening(new_sock(), at.0, at.1)));
    }
    (h, ok)
}

pub open spec fn start_ok(
    m: Map<SocketHandle, SockModel>,
    iface: Interface,
    addr: Ip,
    port: u16,
) -> bool {
    port != 0 && !unspecified(addr) && source_address(iface, addr@) is Some
}

/// The local port that connecting uses, and the port counter afterwards.
pub open spec fn connect_port(kind: Kind, next: u64) -> (u16, u64) {
    match kind {
        Kind::Bound(ep) if ep.1 != 0 => (ep.1, next),
        _ => (
            port_of(next),
            if next >= 65535 {
                PORT_BASE
            } else {
                (next + 1) as u64
            },
        ),
    }
}

impl TcpSocket {
    /// Whether the connection attempt on `h` has ended, and how.
    fn connect_wait(&mut self, ctx: &Shared, h: SocketHandle) -> (r: Result<(), i32>)
        requires
            is_tcp(ctx.m(), h),
            old(self).kind == Kind::Connecting(h),
        ensures
            wait_post(*old(self), tcp_of(ctx.m(), h).state, h, r, *final(self)),
    {
        match smol::state(&ctx.sockets, h) {
            TcpState::SynSent | TcpState::SynReceived => Err(EAGAIN),
            TcpState::Closed => Err(ECONNREFUSED),
            _ => {
                self.kind = Kind::Connected(h);
                Ok(())
            },
        }
    }

    /// One attempt to accept: the first of the pool's sockets that has a peer
    /// becomes a socket of its own, and a new one listens in its place.
    pub fn accept(&mut self, ctx: &mut Shared) -> (r: Result<(TcpSocket, SockAddr), i32>)
        requires
            old(self).wf(old(ctx).m()),
        ensures
            final(self).wf(final(ctx).m()),
            *final(ctx) == (Shared { sockets: final(ctx).sockets, ..*old(ctx) }),
            *final(self) == (TcpSocket { kind: final(self).kind, ..*old(self) }),
            match old(self).kind {
                Kind::Listening { local, handles } => accept_result(
                    local,
                    handles@,
                    old(self).nodelay,
                    old(ctx).m(),
                    r,
                    final(self).kind,
                    final(ctx).m(),
                ),
                _ => r is Err && r->Err_0 == EINVAL && *final(self) == *old(self) && final(ctx).m()
                    == old(ctx).m(),
            },
    {
        let ghost m = ctx.m();
        let nodelay: bool = self.nodelay;
        match &mut self.kind {
            Kind::Listening { local, handles } => {
                let at: ListenAt = *local;
                let found: Option<usize> = find_ready(&ctx.sockets, handles);
                match found {
                    None => Err(EAGAIN),
                    Some(i) => {
                        let ghost hs = handles@;
                        let h = handles.remove(i);
                        let remote: Option<(Ip, u16)> = smol::remote_endpoint(&ctx.sockets, h);
                        let (l, ok): (SocketHandle, bool) = add_listening(&mut ctx.sockets, at);
                        if ok {
                            handles.push(l);
                        }
                        if nodelay {
                            smol::set_nagle(&mut ctx.sockets, h, false);
                        }
                        proof {
                            assert(handles@ =~= hs.remove(i as int).push(l));
                            assert(hs[i as int] == h);
                            assert forall|j: int| 0 <= j < handles@.len() implies is_tcp(
                                ctx.m(),
                                #[trigger] handles@[j],
                            ) by {
                                if j < handles@.len() - 1 {
                                    assert(handles@[j] == hs[if j < i {
                                        j
                                    } else {
                                        j + 1
                                    }]);
                                }
                            }
                            assert(handles@.no_duplicates());
                            assert(first_can_accept(hs, m, i as int));
                        }
                        let peer: SockAddr = match remote {
                            Some(ep) => ep_to_sockaddr(ep),
                            None => unspecified_at(0),
                        };
                        Ok((TcpSocket::from_handle(h), peer))
                    },
                }
            },
            _ => Err(EINVAL),
        }
    }
}

#[verifier::loop_isolation(false)]
fn find_ready(set: &SocketSet<'static>, handles: &Vec<SocketHandle>) -> (r: Option<usize>)
    requires
        all_tcp(handles@, sockets(*set)),
    ensures
        match r {
            Some(i) => first_can_accept(handles@, sockets(*set), i as int),
            None => forall|j: int|
                0 <= j < handles@.len() ==> !can_accept(
                    tcp_of(sockets(*set), #[trigger] handles@[j]).state,
                ),
        },
{
    let n: usize = handles.len();
    let mut i: usize = 0;
    while i < n
        invariant
            i <= n == handles@.len(),
            forall|j: int|
                0 <= j < i ==> !can_accept(tcp_of(sockets(*set), #[trigger] handles@[j]).state),
        decreases n - i,
    {
        if acceptable(set, handles[i]) {
            return Some(i);
        }
        i = i + 1;
    }
    None
}

/// `i` is the first of the handles whose socket can be handed out.
pub open spec fn first_can_accept(
    hs: Seq<SocketHandle>,
    m: Map<SocketHandle, SockModel>,
    i: int,
) -> bool {
    &&& 0 <= i < hs.len()
    &&& can_accept(tcp_of(m, hs[i]).state)
    &&& forall|j: int| 0 <= j < i ==> !can_accept(tcp_of(m, #[trigger] hs[j]).state)
}

pub open spec fn accept_result(
    local: ListenAt,
    hs: Seq<SocketHandle>,
    nodelay: bool,
    m: Map<SocketHandle, SockModel>,
    r: Result<(TcpSocket, SockAddr), i32>,
    kind: Kind,
    m1: Map<SocketHandle, SockModel>,
) -> bool {
    match r {
        Err(e) => {
            &&& e == EAGAIN
            &&& forall|j: int|
                0 <= j < hs.len() ==> !can_accept(tcp_of(m, #[trigger] hs[j]).state)
            &&& m1 == m
            &&& kind matches Kind::Listening { local: l, handles } && l == local && handles@ == hs
        },
        Ok((sock, peer)) => exists|i: int, l: SocketHandle|
            {
                let h = hs[i];
                let s = tcp_of(m, h);
                &&& #[trigger] first_can_accept(hs, m, i)
                &&& !(#[trigger] m.dom().contains(l))
                &&& sock == fresh_socket(Kind::Connected(h))
                &&& peer@ == (match s.remote {
                    Some(ep) => inet(ep),
                    None => SockAddrView::Inet { addr: any_addr(), port: 0 },
                })
                &&& kind matches Kind::Listening { local: at, handles } && at == local && handles@
                    == hs.remove(i).push(l)
                &&& m1 == ({
                    let added = with_tcp(m, l, listening(new_sock(), local.0, local.1));
                    if nodelay {
                        with_tcp(added, h, TcpSock { nagle: false, ..s })
                    } else {
                        added
                    }
                })
            },
    }
}

/// How a connection attempt in a given state ends.
pub open spec fn wait_post(
    before: TcpSocket,
    state: TcpState,
    h: SocketHandle,
    r: Result<(), i32>,
    after: TcpSocket,
) -> bool {
    if state is SynSent || state is SynReceived {
        r == Err::<(), i32>(EAGAIN) && after == before
    } else if state is Closed {
        r == Err::<(), i32>(ECONNREFUSED) && after == before
    } else {
        r == Ok::<(), i32>(()) && after == (TcpSocket { kind: Kind::Connected(h), ..before })
    }
}

/// The integer that an option value holds; 0 for a short one.
pub open spec fn opt_value(val: Seq<u8>) -> u32 {
    if val.len() >= 4 {
        from_le(val.take(4)) as u32
    } else {
        0
    }
}

fn read_opt(val: &[u8]) -> (r: u32)
    ensures
        r == opt_value(val@),
{
    if val.len() >= 4 {
        proof {
            assert(val@.subrange(0, 4) =~= val@.take(4));
            crate::bytes::lemma_span();
        }
        get_le(val, 0, 4) as u32
    } else {
        0
    }
}

/// The value of an option that does not depend on the connection.
pub open spec fn plain_option(s: TcpSocket, level: i32, opt: i32) -> Option<int> {
    if level == SOL_SOCKET {
        if opt == SO_TYPE {
            Some(SOCK_STREAM as int)
        } else if opt == SO_DOMAIN {
            Some(AF_INET as int)
        } else if opt == SO_PROTOCOL {
            Some(6)
        } else if opt == SO_ACCEPTCONN {
            Some(
                if s.kind is Listening {
                    1
                } else {
                    0
                },
            )
        } else if opt == SO_RCVBUF {
            Some(RX_BUF as int)
        } else if opt == SO_SNDBUF {
            Some(TX_BUF as int)
        } else if opt == SO_REUSEADDR || opt == SO_REUSEPORT {
            Some(1)
        } else if opt == SO_KEEPALIVE {
            Some(
                if s.keepalive {
                    1
                } else {
                    0
                },
            )
        } else {
            None
        }
    } else if level == SOL_TCP {
        if opt == TCP_NODELAY {
            Some(
                if s.nodelay {
                    1
                } else {
                    0
                },
            )
        } else if opt == TCP_MAXSEG {
            Some(1460)
        } else {
            None
        }
    } else {
        None
    }
}

/// The pending error that `SO_ERROR` reports, and the socket afterwards: the
/// error is cleared, and a connection that is up is noticed.
pub open spec fn take_error(s: TcpSocket, m: Map<SocketHandle, SockModel>) -> (int, TcpSocket) {
    let cleared = TcpSocket { error: 0, ..s };
    match s.kind {
        Kind::Connecting(h) => if tcp_of(m, h).state is Established {
            (0, TcpSocket { kind: Kind::Connected(h), ..cleared })
        } else if tcp_of(m, h).state is Closed {
            (ECONNREFUSED as int, cleared)
        } else {
            (EINPROGRESS as int, cleared)
        },
        _ => (s.error as int, cleared),
    }
}

fn bool_opt(b: bool) -> (r: Vec<u8>)
    ensures
        r@ == opt_bytes(
            if b {
                1
            } else {
                0
            },
        ),
{
    i32_opt(
        if b {
            1
        } else {
            0
        },
    )
}

impl SocketOps for TcpSocket {
    type Ctx = Shared;

    open spec fn ready(&self, ctx: Shared) -> bool {
        self.wf(ctx.m()) && ctx.wf()
    }

    fn bind(&mut self, ctx: &mut Shared, addr: SockAddr) -> (r: Result<(), i32>)
        ensures
            *final(ctx) == *old(ctx),
            ({
                let err = match addr {
                    SockAddr::Inet { addr: a, port } => if !ours(a@) {
                        EADDRNOTAVAIL
                    } else if !(old(self).kind is Unbound) {
                        EINVAL
                    } else if port != 0 && port_taken(old(ctx).m(), port) {
                        EADDRINUSE
                    } else {
                        0
                    },
                    _ => EINVAL,
                };
                if err != 0 {
                    r == Err::<(), i32>(err) && *final(self) == *old(self)
                } else {
                    &&& r == Ok::<(), i32>(())
                    &&& *final(self) == (TcpSocket {
                        kind: Kind::Bound(bound_to(addr->addr, addr->port)),
                        ..*old(self)
                    })
                }
            }),
    {
        match addr {
            SockAddr::Inet { addr, port } => {
                if !is_our_addr(addr) {
                    return Err(EADDRNOTAVAIL);
                }
                match self.kind {
                    Kind::Unbound => {},
                    _ => {
                        return Err(EINVAL);
                    },
                }
                if port != 0 && is_port_taken(&ctx.sockets, port) {
                    return Err(EADDRINUSE);
                }
                self.kind = Kind::Bound(to_listen(addr, port));
                Ok(())
            },
            _ => Err(EINVAL),
        }
    }

    #[verifier::loop_isolation(false)]
    fn listen(&mut self, ctx: &mut Shared, backlog: i32) -> (r: Result<(), i32>)
        ensures
            ({
                let at = match old(self).kind {
                    Kind::Bound(ep) => ep,
                    _ => (None, port_of(old(ctx).next_port)),
                };
                let next = if old(self).kind is Unbound {
                    connect_port(Kind::Unbound, old(ctx).next_port).1
                } else {
                    old(ctx).next_port
                };
                &&& *final(ctx) == (Shared {
                    sockets: final(ctx).sockets,
                    next_port: next,
                    ..*old(ctx)
                })
                &&& match old(self).kind {
                    Kind::Listening { local, handles } => r == Ok::<(), i32>(()) && *final(self)
                        == *old(self) && final(ctx).m() == old(ctx).m(),
                    Kind::Connecting(_) | Kind::Connected(_) | Kind::Closed => r == Err::<(), i32>(
                        EINVAL,
                    ) && *final(self) == *old(self) && final(ctx).m() == old(ctx).m(),
                    _ => if at.1 == 0 {
                        r == Err::<(), i32>(EADDRINUSE) && *final(self) == *old(self)
                            && final(ctx).m() == old(ctx).m()
                    } else {
                        &&& r == Ok::<(), i32>(())
                        &&& final(self).kind matches Kind::Listening { local, handles } && local
                            == at && handles@.len() == backlog_of(backlog) && added(
                            old(ctx).m(),
                            final(ctx).m(),
                            handles@,
                            listening(new_sock(), at.0, at.1),
                        )
                        &&& *final(self) == (TcpSocket {
                            kind: final(self).kind,
                            backlog: backlog_of(backlog) as usize,
                            ..*old(self)
                        })
                    },
                }
            }),
    {
        let local: ListenAt = match &self.kind {
            Kind::Bound(ep) => *ep,
            Kind::Listening { .. } => {
                return Ok(());
            },
            Kind::Unbound => (None, alloc_ephemeral_port(&mut ctx.next_port)),
            _ => {
                return Err(EINVAL);
            },
        };
        if local.1 == 0 {
            return Err(EADDRINUSE);
        }
        let n: usize = if backlog < 1 {
            1
        } else if backlog as usize > MAX_BACKLOG {
            MAX_BACKLOG
        } else {
            backlog as usize
        };
        let ghost m0 = ctx.m();
        let ghost c0 = *ctx;
        let mut handles: Vec<SocketHandle> = Vec::new();
        let mut i: usize = 0;
        proof {
            smol::lemma_added_none(m0, listening(new_sock(), local.0, local.1));
            assert(handles@ =~= Seq::empty());
        }
        while i < n
            invariant
                i <= n,
                handles@.len() == i,
                added(m0, ctx.m(), handles@, listening(new_sock(), local.0, local.1)),
                *ctx == (Shared { sockets: ctx.sockets, ..c0 }),
            decreases n - i,
        {
            let ghost hs = handles@;
            let ghost m = ctx.m();
            let (h, ok): (SocketHandle, bool) = add_listening(&mut ctx.sockets, local);
            if !ok {
                return Err(EADDRINUSE);
            }
            handles.push(h);
            proof {
                smol::lemma_added_push(m0, m, hs, listening(new_sock(), local.0, local.1), h);
            }
            i = i + 1;
        }
        self.backlog = n;
        self.kind = Kind::Listening { local, handles };
        Ok(())
    }

    /// Starts a connection, or asks how a started one is doing. No local path is
    /// there to connect to.
    fn connect(&mut self, ctx: &mut Shared, addr: SockAddr, nonblock: bool) -> (r: Result<(), i32>)
        ensures
            match addr {
                SockAddr::Inet { addr: ip, port } => match old(self).kind {
                    Kind::Unbound | Kind::Bound(_) => {
                        let (local, next) = connect_port(old(self).kind, old(ctx).next_port);
                        &&& final(ctx).next_port == next
                        &&& final(ctx).orphans == old(ctx).orphans
                        &&& if !start_ok(old(ctx).m(), old(ctx).iface, ip, port) {
                            &&& r == Err::<(), i32>(ECONNREFUSED)
                            &&& *final(self) == *old(self) && final(ctx).m() == old(ctx).m()
                        } else {
                            &&& r == Err::<(), i32>(
                                if nonblock {
                                    EINPROGRESS
                                } else {
                                    EAGAIN
                                },
                            )
                            &&& exists|h: SocketHandle|
                                {
                                    &&& !(#[trigger] old(ctx).m().dom().contains(h))
                                    &&& *final(self) == (TcpSocket {
                                        kind: Kind::Connecting(h),
                                        ..*old(self)
                                    })
                                    &&& final(ctx).m() == with_tcp(
                                        old(ctx).m(),
                                        h,
                                        connecting(
                                            new_sock(),
                                            (
                                                source_address(old(ctx).iface, ip@)->0,
                                                local,
                                            ),
                                            (ip, port),
                                        ),
                                    )
                                }
                        }
                    },
                    Kind::Connecting(h) => {
                        let state = tcp_of(old(ctx).m(), h).state;
                        &&& *final(ctx) == *old(ctx)
                        &&& if nonblock {
                            if state is Established {
                                r == Ok::<(), i32>(()) && *final(self) == (TcpSocket {
                                    kind: Kind::Connected(h),
                                    ..*old(self)
                                })
                            } else {
                                &&& *final(self) == *old(self)
                                &&& r == Err::<(), i32>(
                                    if state is Closed {
                                        ECONNREFUSED
                                    } else {
                                        EALREADY
                                    },
                                )
                            }
                        } else {
                            wait_post(*old(self), state, h, r, *final(self))
                        }
                    },
                    Kind::Connected(_) => r == Err::<(), i32>(EISCONN) && *final(self) == *old(self)
                        && *final(ctx) == *old(ctx),
                    _ => r == Err::<(), i32>(EINVAL) && *final(self) == *old(self) && *final(ctx)
                        == *old(ctx),
                },
                SockAddr::Unix(_) => r == Err::<(), i32>(ENOENT) && *final(self) == *old(self)
                    && *final(ctx) == *old(ctx),
                SockAddr::Unspec => r == Err::<(), i32>(EINVAL) && *final(self) == *old(self)
                    && *final(ctx) == *old(ctx),
            },
    {
        let (ip, port): (Ip, u16) = match addr {
            SockAddr::Inet { addr, port } => (addr, port),
            SockAddr::Unix(_) => {
                return Err(ENOENT);
            },
            _ => {
                return Err(EINVAL);
            },
        };
        let bound: Option<u16> = match &self.kind {
            Kind::Unbound => None,
            Kind::Bound(ep) => if ep.1 != 0 {
                Some(ep.1)
            } else {
                None
            },
            Kind::Connecting(h) => {
                let h: SocketHandle = *h;
                if nonblock {
                    return match smol::state(&ctx.sockets, h) {
                        TcpState::Established => {
                            self.kind = Kind::Connected(h);
                            Ok(())
                        },
                        TcpState::Closed => Err(ECONNREFUSED),
                        _ => Err(EALREADY),
                    };
                }
                return self.connect_wait(ctx, h);
            },
            Kind::Connected(_) => {
                return Err(EISCONN);
            },
            _ => {
                return Err(EINVAL);
            },
        };
        let local: u16 = match bound {
            Some(p) => p,
            None => alloc_ephemeral_port(&mut ctx.next_port),
        };
        let ghost m = ctx.m();
        let h = new_smol_socket(&mut ctx.sockets);
        if !smol::connect(&mut ctx.sockets, &mut ctx.iface, h, (ip, port), (None, local)) {
            smol::remove(&mut ctx.sockets, h);
            proof {
                assert(ctx.m() =~= m);
            }
            return Err(ECONNREFUSED);
        }
        self.kind = Kind::Connecting(h);
        proof {
            assert(ctx.m() =~= with_tcp(
                m,
                h,
                connecting(
                    new_sock(),
                    (source_address(old(ctx).iface, ip@)->0, local),
                    (ip, port),
                ),
            ));
            assert(!m.dom().contains(h));
        }
        if nonblock {
            Err(EINPROGRESS)
        } else {
            Err(EAGAIN)
        }
    }

    fn send(
        &mut self,
        ctx: &mut Shared,
        buf: &[u8],
        flags: u32,
        to: Option<SockAddr>,
        anc: Ancillary,
    ) -> (r: Sent)
        ensures
            *final(self) == *old(self),
            *final(ctx) == (Shared { sockets: final(ctx).sockets, ..*old(ctx) }),
            buf@.len() == 0 ==> r == (Sent { result: Ok(0), sigpipe: false }) && final(ctx).m()
                == old(ctx).m(),
            buf@.len() > 0 ==> ({
                let (attempt, m) = send_attempt(*old(self), old(ctx).m(), buf@);
                &&& final(ctx).m() == m
                &&& r.result == attempt
                &&& r.sigpipe == (attempt is Err && attempt->Err_0 == EPIPE && flags & MSG_NOSIGNAL
                    == 0)
            }),
    {
        proof {
            assert(buf@.skip(0) =~= buf@);
        }
        match self.do_send(ctx, buf, 0, flags, true, false) {
            SendStep::Done { result, sigpipe } => Sent { result, sigpipe },
            _ => Sent { result: Err(EAGAIN), sigpipe: false },
        }
    }

    fn recv(&mut self, ctx: &mut Shared, buf: &mut [u8], flags: u32) -> (r: Result<
        (usize, Option<SockAddr>, Ancillary),
        i32,
    >)
        ensures
            recv_attempt(
                *old(self),
                *old(ctx),
                old(buf)@,
                flags & MSG_PEEK != 0,
                match r {
                    Ok((n, _, _)) => Ok(n),
                    Err(e) => Err(e),
                },
                *final(self),
                *final(ctx),
                final(buf)@,
            ),
            r matches Ok((n, from, anc)) ==> from is None && anc.fds@.len() == 0,
    {
        match self.do_recv(ctx, buf, flags) {
            Ok(n) => Ok((n, None, Ancillary { fds: Vec::new() })),
            Err(e) => Err(e),
        }
    }

    fn shutdown(&mut self, ctx: &mut Shared, how: i32) -> (r: Result<(), i32>)
        ensures
            *final(ctx) == (Shared { sockets: final(ctx).sockets, ..*old(ctx) }),
            match old(self).kind {
                Kind::Connected(h) => {
                    let rd = how == SHUT_RD || how == SHUT_RDWR;
                    let wr = how == SHUT_WR || how == SHUT_RDWR;
                    &&& r == Ok::<(), i32>(())
                    &&& *final(self) == (TcpSocket {
                        shut_rd: old(self).shut_rd || rd,
                        shut_wr: old(self).shut_wr || wr,
                        ..*old(self)
                    })
                    &&& final(ctx).m() == (if wr {
                        with_tcp(old(ctx).m(), h, closed(tcp_of(old(ctx).m(), h)))
                    } else {
                        old(ctx).m()
                    })
                },
                _ => {
                    &&& r == (if old(self).kind is Listening {
                        Ok::<(), i32>(())
                    } else {
                        Err::<(), i32>(ENOTCONN)
                    })
                    &&& *final(self) == *old(self) && final(ctx).m() == old(ctx).m()
                },
            },
    {
        let h: SocketHandle = match &self.kind {
            Kind::Connected(h) => *h,
            Kind::Listening { .. } => {
                return Ok(());
            },
            _ => {
                return Err(ENOTCONN);
            },
        };
        if how == SHUT_RD || how == SHUT_RDWR {
            self.shut_rd = true;
        }
        if how == SHUT_WR || how == SHUT_RDWR {
            self.shut_wr = true;
            smol::close(&mut ctx.sockets, h);
        }
        Ok(())
    }

    fn local_addr(&self, ctx: &Shared) -> (r: Result<SockAddr, i32>)
        ensures
            r is Ok,
            r->Ok_0@ == (match self.kind {
                Kind::Bound(ep) => listen_addr(ep),
                Kind::Listening { local, handles } => listen_addr(local),
                Kind::Connected(h) => local_or_ours(tcp_of(ctx.m(), h)),
                Kind::Connecting(h) => local_or_ours(tcp_of(ctx.m(), h)),
                _ => SockAddrView::Inet { addr: any_addr(), port: 0 },
            }),
    {
        match &self.kind {
            Kind::Unbound | Kind::Closed => Ok(unspecified_at(0)),
            Kind::Bound(ep) => Ok(listen_to_sockaddr(*ep)),
            Kind::Listening { local, .. } => Ok(listen_to_sockaddr(*local)),
            Kind::Connected(h) | Kind::Connecting(h) => match smol::local_endpoint(
                &ctx.sockets,
                *h,
            ) {
                Some(ep) => Ok(ep_to_sockaddr(ep)),
                None => Ok(SockAddr::Inet { addr: GUEST_IP, port: 0 }),
            },
        }
    }

    fn peer_addr(&self, ctx: &Shared) -> (r: Result<SockAddr, i32>)
        ensures
            match self.kind {
                Kind::Connected(h) => match tcp_of(ctx.m(), h).remote {
                    Some(ep) => r is Ok && r->Ok_0@ == inet(ep),
                    None => r == Err::<SockAddr, i32>(ENOTCONN),
                },
                _ => r == Err::<SockAddr, i32>(ENOTCONN),
            },
    {
        match &self.kind {
            Kind::Connected(h) => match smol::remote_endpoint(&ctx.sockets, *h) {
                Some(ep) => Ok(ep_to_sockaddr(ep)),
                None => Err(ENOTCONN),
            },
            _ => Err(ENOTCONN),
        }
    }

    fn setsockopt(&mut self, ctx: &mut Shared, level: i32, opt: i32, val: &[u8]) -> (r: Result<
        (),
        i32,
    >)
        ensures
            *final(ctx) == (Shared { sockets: final(ctx).sockets, ..*old(ctx) }),
            ({
                let on = opt_value(val@) != 0;
                let m = old(ctx).m();
                if level == SOL_TCP && opt == TCP_NODELAY {
                    &&& r == Ok::<(), i32>(())
                    &&& *final(self) == (TcpSocket { nodelay: on, ..*old(self) })
                    &&& final(ctx).m() == (match old(self).kind {
                        Kind::Connected(h) => with_tcp(
                            m,
                            h,
                            TcpSock { nagle: !on, ..tcp_of(m, h) },
                        ),
                        _ => m,
                    })
                } else if level == SOL_SOCKET && opt == SO_KEEPALIVE {
                    &&& r == Ok::<(), i32>(())
                    &&& *final(self) == (TcpSocket { keepalive: on, ..*old(self) })
                    &&& final(ctx).m() == (match old(self).kind {
                        Kind::Connected(h) => with_tcp(
                            m,
                            h,
                            TcpSock {
                                keep_alive: if on {
                                    Some(60)
                                } else {
                                    None
                                },
                                ..tcp_of(m, h)
                            },
                        ),
                        _ => m,
                    })
                } else {
                    &&& r == (if level == SOL_SOCKET || level == SOL_TCP || level == SOL_IP {
                        Ok::<(), i32>(())
                    } else {
                        Err::<(), i32>(ENOPROTOOPT)
                    })
                    &&& *final(self) == *old(self) && final(ctx).m() == m
                }
            }),
    {
        let v: u32 = read_opt(val);
        if level == SOL_TCP && opt == TCP_NODELAY {
            self.nodelay = v != 0;
            match &self.kind {
                Kind::Connected(h) => smol::set_nagle(&mut ctx.sockets, *h, v == 0),
                _ => {},
            }
            Ok(())
        } else if level == SOL_SOCKET && opt == SO_KEEPALIVE {
            self.keepalive = v != 0;
            match &self.kind {
                Kind::Connected(h) => {
                    let secs: Option<u64> = if v != 0 {
                        Some(60)
                    } else {
                        None
                    };
                    smol::set_keep_alive(&mut ctx.sockets, *h, secs)
                },
                _ => {},
            }
            Ok(())
        } else if level == SOL_SOCKET || level == SOL_TCP || level == SOL_IP {
            Ok(())
        } else {
            Err(ENOPROTOOPT)
        }
    }

    fn getsockopt(&mut self, ctx: &Shared, level: i32, opt: i32) -> (r: Result<Vec<u8>, i32>)
        ensures
            if level == SOL_SOCKET && opt == SO_ERROR {
                let (e, after) = take_error(*old(self), ctx.m());
                r is Ok && r->Ok_0@ == opt_bytes(e) && *final(self) == after
            } else {
                &&& *final(self) == *old(self)
                &&& if level == SOL_SOCKET && opt == SO_LINGER {
                    r is Ok && r->Ok_0@ == zeros(8)
                } else {
                    match plain_option(*old(self), level, opt) {
                        Some(v) => r is Ok && r->Ok_0@ == opt_bytes(v),
                        None => r is Err && r->Err_0 == ENOPROTOOPT,
                    }
                }
            },
    {
        if level == SOL_SOCKET {
            match opt {
                SO_TYPE => Ok(i32_opt(SOCK_STREAM as i32)),
                SO_ERROR => {
                    let e: i32 = self.error;
                    self.error = 0;
                    match &self.kind {
                        Kind::Connecting(h) => {
                            let h: SocketHandle = *h;
                            match smol::state(&ctx.sockets, h) {
                                TcpState::Established => {
                                    self.kind = Kind::Connected(h);
                                    Ok(i32_opt(0))
                                },
                                TcpState::Closed => Ok(i32_opt(ECONNREFUSED)),
                                _ => Ok(i32_opt(EINPROGRESS)),
                            }
                        },
                        _ => Ok(i32_opt(e)),
                    }
                },
                SO_DOMAIN => Ok(i32_opt(AF_INET as i32)),
                SO_PROTOCOL => Ok(i32_opt(6)),
                SO_ACCEPTCONN => {
                    let listens: bool = match &self.kind {
                        Kind::Listening { .. } => true,
                        _ => false,
                    };
                    Ok(bool_opt(listens))
                },
                SO_RCVBUF => Ok(i32_opt(RX_BUF as i32)),
                SO_SNDBUF => Ok(i32_opt(TX_BUF as i32)),
                SO_REUSEADDR | SO_REUSEPORT => Ok(i32_opt(1)),
                SO_KEEPALIVE => Ok(bool_opt(self.keepalive)),
                SO_LINGER => {
                    let mut v: Vec<u8> = Vec::new();
                    put_zeros(&mut v, 8);
                    proof {
                        assert(v@ =~= zeros(8));
                    }
                    Ok(v)
                },
                _ => Err(ENOPROTOOPT),
            }
        } else if level == SOL_TCP {
            match opt {
                TCP_NODELAY => Ok(bool_opt(self.nodelay)),
                TCP_MAXSEG => Ok(i32_opt(1460)),
                _ => Err(ENOPROTOOPT),
            }
        } else {
            Err(ENOPROTOOPT)
        }
    }

    fn sock_type(&self) -> (r: u32)
        ensures
            r == SOCK_STREAM,
    {
        SOCK_STREAM
    }

    fn domain(&self) -> (r: u16)
        ensures
            r == AF_INET,
    {
        AF_INET
    }
}

pub open spec fn local_or_ours(s: TcpSock) -> SockAddrView {
    match s.local {
        Some(ep) => inet(ep),
        None => SockAddrView::Inet { addr: GUEST_IP@, port: 0 },
    }
}

impl TcpSocket {
    /// Readiness.
    pub fn poll(&self, ctx: &Shared) -> (ev: u32)
        requires
            self.wf(ctx.m()),
        ensures
            ev == self.events(ctx.m()),
    {
        self.readiness(ctx).0
    }

    pub fn event_seq(&self) -> (r: u64)
        ensures
            r == self.seq,
    {
        self.seq
    }

    /// `FIONREAD` stores the number of unread bytes; nothing else is known.
    pub fn ioctl(&self, ctx: &Shared, mem: &mut UserMem, cmd: u32, arg: usize) -> (r: SysResult)
        requires
            self.wf(ctx.m()),
        ensures
            ({
                let n = match self.kind {
                    Kind::Connected(h) => tcp_of(ctx.m(), h).rx.len(),
                    _ => 0,
                };
                if cmd != FIONREAD {
                    r == Err::<usize, i32>(ENOTTY) && final(mem)@ == old(mem)@
                } else if !mapped(old(mem)@, arg as int, 4) {
                    r == Err::<usize, i32>(EFAULT) && final(mem)@ == old(mem)@
                } else {
                    r == Ok::<usize, i32>(0) && final(mem)@ == stored(old(mem)@, arg as int, le(n, 4))
                }
            }),
    {
        if cmd == FIONREAD {
            let n: usize = match &self.kind {
                Kind::Connected(h) => smol::recv_queue(&ctx.sockets, *h),
                _ => 0,
            };
            match mem.write_num(arg, n as u64, 4) {
                Ok(_) => Ok(0),
                Err(e) => Err(e),
            }
        } else {
            Err(ENOTTY)
        }
    }

    pub fn stat(&self) -> (r: Stat)
        ensures
            r == socket_stat_spec(),
    {
        socket_stat()
    }
}

pub open spec fn aborted(s: TcpSock) -> TcpSock {
    TcpSock { state: TcpState::Closed, ..s }
}

/// The pending connections among the handles, in order.
pub open spec fn pending_of(hs: Seq<SocketHandle>, m: Map<SocketHandle, SockModel>) -> Seq<
    SocketHandle,
>
    decreases hs.len(),
{
    if hs.len() == 0 {
        Seq::empty()
    } else {
        let rest = pending_of(hs.drop_last(), m);
        if can_accept(tcp_of(m, hs.last()).state) {
            rest.push(hs.last())
        } else {
            rest
        }
    }
}

/// The sockets after a listener with the given handles is gone: connections
/// that nobody accepted are reset, the rest is removed.
pub open spec fn listener_gone(hs: Seq<SocketHandle>, m: Map<SocketHandle, SockModel>) -> Map<
    SocketHandle,
    SockModel,
>
    decreases hs.len(),
{
    if hs.len() == 0 {
        m
    } else {
        let rest = listener_gone(hs.drop_last(), m);
        let h = hs.last();
        if can_accept(tcp_of(m, h).state) {
            with_tcp(rest, h, aborted(tcp_of(m, h)))
        } else {
            rest.remove(h)
        }
    }
}

proof fn lemma_gone_other(hs: Seq<SocketHandle>, m: Map<SocketHandle, SockModel>, h: SocketHandle)
    requires
        !hs.contains(h),
    ensures
        listener_gone(hs, m).dom().contains(h) == m.dom().contains(h),
        m.dom().contains(h) ==> listener_gone(hs, m)[h] == m[h],
    decreases hs.len(),
{
    if hs.len() > 0 {
        assert(hs.contains(hs.last())) by {
            assert(hs[hs.len() - 1] == hs.last());
        }
        assert(!hs.drop_last().contains(h)) by {
            if hs.drop_last().contains(h) {
                let j = choose|j: int| 0 <= j < hs.drop_last().len() && hs.drop_last()[j] == h;
                assert(hs[j] == h);
            }
        }
        lemma_gone_other(hs.drop_last(), m, h);
    }
}

/// What closing a connection's file does to its socket: unread bytes mean a
/// reset, otherwise it is closed in order.
pub open spec fn conn_gone(s: TcpSock) -> TcpSock {
    if s.rx.len() > 0 {
        aborted(s)
    } else {
        closed(s)
    }
}

fn release_conn(ctx: &mut Shared, h: SocketHandle)
    requires
        is_tcp(old(ctx).m(), h),
    ensures
        final(ctx).m() == with_tcp(old(ctx).m(), h, conn_gone(tcp_of(old(ctx).m(), h))),
        final(ctx).orphans@ == old(ctx).orphans@.push(h),
        final(ctx).next_port == old(ctx).next_port,
        final(ctx).iface == old(ctx).iface,
{
    if smol::recv_queue(&ctx.sockets, h) > 0 {
        smol::abort(&mut ctx.sockets, h);
    } else {
        smol::close(&mut ctx.sockets, h);
    }
    ctx.orphans.push(h);
}

#[verifier::loop_isolation(false)]
fn release_listener(ctx: &mut Shared, handles: &Vec<SocketHandle>)
    requires
        all_tcp(handles@, old(ctx).m()),
        handles@.no_duplicates(),
    ensures
        final(ctx).m() == listener_gone(handles@, old(ctx).m()),
        final(ctx).orphans@ == old(ctx).orphans@ + pending_of(handles@, old(ctx).m()),
        final(ctx).next_port == old(ctx).next_port,
        final(ctx).iface == old(ctx).iface,
{
    let ghost m = ctx.m();
    let ghost o = ctx.orphans@;
    let ghost hs = handles@;
    let n: usize = handles.len();
    let mut i: usize = 0;
    proof {
        assert(o + Seq::<SocketHandle>::empty() =~= o);
    }
    while i < n
        invariant
            i <= n == hs.len(),
            ctx.m() == listener_gone(hs.take(i as int), m),
            ctx.orphans@ == o + pending_of(hs.take(i as int), m),
            ctx.next_port == old(ctx).next_port,
            ctx.iface == old(ctx).iface,
        decreases n - i,
    {
        let h: SocketHandle = handles[i];
        proof {
            assert(hs.take(i + 1).drop_last() =~= hs.take(i as int));
            assert(!hs.take(i as int).contains(h));
            lemma_gone_other(hs.take(i as int), m, h);
            assert(is_tcp(m, hs[i as int]));
        }
        if acceptable(&ctx.sockets, h) {
            smol::abort(&mut ctx.sockets, h);
            ctx.orphans.push(h);
            proof {
                assert(ctx.orphans@ =~= o + pending_of(hs.take(i + 1), m));
            }
        } else {
            smol::remove(&mut ctx.sockets, h);
        }
        i = i + 1;
    }
    proof {
        assert(hs.take(n as int) =~= hs);
    }
}

impl TcpSocket {
    /// To be called when the last file of the socket is closed.
    pub fn release(&mut self, ctx: &mut Shared)
        requires
            old(self).wf(old(ctx).m()),
        ensures
            *final(self) == (TcpSocket { kind: Kind::Closed, ..*old(self) }),
            final(ctx).next_port == old(ctx).next_port,
            final(ctx).iface == old(ctx).iface,
            ({
                let m = old(ctx).m();
                let o = old(ctx).orphans@;
                match old(self).kind {
                    Kind::Listening { local, handles } => final(ctx).m() == listener_gone(
                        handles@,
                        m,
                    ) && final(ctx).orphans@ == o + pending_of(handles@, m),
                    Kind::Connected(h) => final(ctx).m() == with_tcp(
                        m,
                        h,
                        conn_gone(tcp_of(m, h)),
                    ) && final(ctx).orphans@ == o.push(h),
                    Kind::Connecting(h) => final(ctx).m() == with_tcp(
                        m,
                        h,
                        conn_gone(tcp_of(m, h)),
                    ) && final(ctx).orphans@ == o.push(h),
                    _ => final(ctx).m() == m && final(ctx).orphans@ == o,
                }
            }),
    {
        match &self.kind {
            Kind::Listening { handles, .. } => release_listener(ctx, handles),
            Kind::Connected(h) => release_conn(ctx, *h),
            Kind::Connecting(h) => release_conn(ctx, *h),
            _ => {},
        }
        self.kind = Kind::Closed;
    }
}

// ---- Laws -------------------------------------------------------------------
/// After accepting, the pool has as many sockets as before.
pub proof fn accept_keeps_backlog(
    local: ListenAt,
    hs: Seq<SocketHandle>,
    nodelay: bool,
    m: Map<SocketHandle, SockModel>,
    r: Result<(TcpSocket, SockAddr), i32>,
    kind: Kind,
    m1: Map<SocketHandle, SockModel>,
)
    requires
        accept_result(local, hs, nodelay, m, r, kind, m1),
    ensures
        kind matches Kind::Listening { local: l, handles } && l == local && handles@.len()
            == hs.len(),
{
}

/// Ephemeral ports are in the range, and two counter values less than a full
/// range apart give different ports.
pub proof fn ephemeral_ports_differ(p: u64, q: u64)
    requires
        PORT_BASE <= p < q <= 65535,
        q - p < 16000,
    ensures
        port_of(p) != port_of(q),
        PORT_BASE <= port_of(p) < PORT_BASE + 16000,
{
    let a = p - PORT_BASE;
    let b = q - PORT_BASE;
    assert(a % 16000 != b % 16000);
}

/// The readiness of a connection, bit by bit: input (bit 0) with received bytes or
/// when none will come any more, output (bit 2) while bytes can be taken, an error
/// (bit 3) that was not told yet, a hang-up (bit 4) once it is closed.
pub proof fn connection_events_by_bit(s: TcpSock, shut_rd: bool, error: i32)
    ensures
        conn_events(s, shut_rd, error) & 1 != 0 <==> s.rx.len() > 0 || shut_rd || s.state
            == TcpState::CloseWait || s.state == TcpState::LastAck || s.state == TcpState::Closing
            || s.state == TcpState::TimeWait || s.state == TcpState::Closed,
        conn_events(s, shut_rd, error) & 4 != 0 <==> (s.state == TcpState::Established || s.state
            == TcpState::CloseWait) && s.tx.len() != s.tx_cap,
        conn_events(s, shut_rd, error) & 8 != 0 <==> error != 0,
        conn_events(s, shut_rd, error) & 0x10 != 0 <==> s.state == TcpState::Closed,
{
    let i: u32 = bit_if(s.rx.len() > 0 || shut_rd, POLLIN);
    let p: u32 = bit_if(peer_closed(s.state), POLLIN | POLLRDHUP);
    let h: u32 = bit_if(s.state is Closed, POLLHUP);
    let o: u32 = bit_if(can_send(s), POLLOUT);
    let e: u32 = bit_if(error != 0, POLLERR);
    assert((((i | p | h | o | e) & 1 != 0) <==> i == 1 || p == 0x2001) && ((i | p | h | o | e) & 4
        != 0 <==> o == 4) && ((i | p | h | o | e) & 8 != 0 <==> e == 8) && ((i | p | h | o | e) & 0x10
        != 0 <==> h == 0x10) && 1u32 | 0x2000 == 0x2001) by (bit_vector)
        requires
            i == 0 || i == 1,
            p == 0 || p == 1u32 | 0x2000,
            h == 0 || h == 0x10,
            o == 0 || o == 4,
            e == 0 || e == 8,
    ;
}

/// A listening socket is told readable exactly where a connection can be accepted.
pub proof fn listener_events_tell_accept(hs: Seq<SocketHandle>, m: Map<SocketHandle, SockModel>)
    ensures
        count_ready(hs, m) > 0 <==> exists|i: int|
            0 <= i < hs.len() && can_accept(tcp_of(m, #[trigger] hs[i]).state),
    decreases hs.len(),
{
    if hs.len() > 0 {
        let p = hs.drop_last();
        listener_events_tell_accept(p, m);
        if can_accept(tcp_of(m, hs.last()).state) {
            assert(can_accept(tcp_of(m, hs[hs.len() - 1]).state));
        } else if exists|i: int| 0 <= i < hs.len() && can_accept(tcp_of(m, #[trigger] hs[i]).state) {
            let i = choose|i: int|
                0 <= i < hs.len() && can_accept(tcp_of(m, #[trigger] hs[i]).state);
            assert(p[i] == hs[i]);
        }
        if exists|i: int| 0 <= i < p.len() && can_accept(tcp_of(m, #[trigger] p[i]).state) {
            let i = choose|i: int|
                0 <= i < p.len() && can_accept(tcp_of(m, #[trigger] p[i]).state);
            assert(hs[i] == p[i]);
        }
    }
}

/// What is accepted is the first connection of the pool that is past its handshake,
/// with the address of its peer, and a new socket listens on the port in its place.
pub proof fn accepted_is_past_its_handshake(
    local: ListenAt,
    hs: Seq<SocketHandle>,
    nodelay: bool,
    m: Map<SocketHandle, SockModel>,
    r: Result<(TcpSocket, SockAddr), i32>,
    kind: Kind,
    m1: Map<SocketHandle, SockModel>,
    k: int,
)
    requires
        accept_result(local, hs, nodelay, m, r, kind, m1),
        all_tcp(hs, m),
        0 <= k < hs.len(),
    ensures
        tcp_of(m, hs[k]).state == TcpState::Established || tcp_of(m, hs[k]).state
            == TcpState::CloseWait ==> r is Ok,
        r matches Ok((sock, peer)) ==> (sock.kind matches Kind::Connected(h) && hs.contains(h)
            && tcp_of(m1, h).rx == tcp_of(m, h).rx && tcp_of(m1, h).state == tcp_of(m, h).state
            && tcp_of(m, h).state != TcpState::Listen && tcp_of(m, h).state != TcpState::SynReceived
            && tcp_of(m, h).state != TcpState::SynSent && tcp_of(m, h).state != TcpState::Closed && (
        tcp_of(m, h).remote is Some ==> peer@ == (SockAddrView::Inet {
            addr: (tcp_of(m, h).remote->0).0@,
            port: (tcp_of(m, h).remote->0).1,
        }))),
{
    if r is Ok {
        let (i, l) = choose|i: int, l: SocketHandle|
            {
                let h = hs[i];
                let s = tcp_of(m, h);
                let (sock, peer) = r->Ok_0;
                &&& #[trigger] first_can_accept(hs, m, i)
                &&& !(#[trigger] m.dom().contains(l))
                &&& sock == fresh_socket(Kind::Connected(h))
                &&& peer@ == (match s.remote {
                    Some(ep) => inet(ep),
                    None => SockAddrView::Inet { addr: any_addr(), port: 0 },
                })
                &&& kind matches Kind::Listening { local: at, handles } && at == local && handles@
                    == hs.remove(i).push(l)
                &&& m1 == ({
                    let added = with_tcp(m, l, listening(new_sock(), local.0, local.1));
                    if nodelay {
                        with_tcp(added, h, TcpSock { nagle: false, ..s })
                    } else {
                        added
                    }
                })
            };
        assert(is_tcp(m, hs[i]));
        assert(hs.contains(hs[i]));
    } else {
        assert(!can_accept(tcp_of(m, hs[k]).state));
    }
}

/// Received bytes are read once each and in order; a look at them takes none.
pub proof fn stream_is_read_in_order(
    before: TcpSocket,
    c0: Shared,
    buf: Seq<u8>,
    peek: bool,
    r: SysResult,
    after: TcpSocket,
    c1: Shared,
    filled: Seq<u8>,
    h: SocketHandle,
)
    requires
        before.kind == Kind::Connected(h),
        is_tcp(c0.m(), h),
        recv_attempt(before, c0, buf, peek, r, after, c1, filled),
    ensures
        ({
            let rx = tcp_of(c0.m(), h).rx;
            let left = tcp_of(c1.m(), h).rx;
            &&& r matches Ok(n) ==> n <= buf.len() && filled.take(n as int) == rx.take(n as int)
                && filled.skip(n as int) == buf.skip(n as int) && left == (if peek {
                rx
            } else {
                rx.skip(n as int)
            })
            &&& r is Err ==> filled == buf && left == rx
            &&& rx.len() > 0 && buf.len() > 0 ==> r is Ok && r->Ok_0 > 0
        }),
{
    let rx = tcp_of(c0.m(), h).rx;
    if r is Ok {
        let n = r->Ok_0 as int;
        assert(filled.take(n) =~= rx.take(n));
        assert(filled.skip(n) =~= buf.skip(n));
        if n == 0 {
            assert(rx.skip(0) =~= rx);
        }
    }
}

/// Sent bytes wait behind those sent before, in order; as many as there is room for
/// are taken.
pub proof fn stream_is_sent_in_order(
    before: TcpSocket,
    m: Map<SocketHandle, SockModel>,
    data: Seq<u8>,
    h: SocketHandle,
)
    requires
        before.kind == Kind::Connected(h),
        is_tcp(m, h),
        tcp_of(m, h).tx.len() <= tcp_of(m, h).tx_cap,
        data.len() <= usize::MAX,
    ensures
        ({
            let (r, n) = send_attempt(before, m, data);
            let s = tcp_of(m, h);
            &&& r matches Ok(k) ==> k <= data.len() && tcp_of(n, h).tx == s.tx + data.take(k as int) && k
                > 0
            &&& r is Err ==> n == m
            &&& s.state == TcpState::Established && !before.shut_wr && s.tx.len() < s.tx_cap
                && data.len() > 0 ==> r is Ok
            &&& before.shut_wr ==> r == Err::<usize, i32>(EPIPE)
        }),
{
}

/// The pending error is told once: a connection that is being made tells that it is
/// up, refused (111) or under way (115), any other socket what has gone wrong; then
/// there is none.
pub proof fn error_is_told_once(s: TcpSocket, m: Map<SocketHandle, SockModel>)
    ensures
        take_error(s, m).1.error == 0,
        !(s.kind is Connecting) ==> take_error(s, m).0 == s.error && take_error(s, m).1.kind
            == s.kind,
        s.kind matches Kind::Connecting(h) ==> {
            let st = tcp_of(m, h).state;
            &&& st == TcpState::Established ==> take_error(s, m).0 == 0 && take_error(s, m).1.kind
                == Kind::Connected(h)
            &&& st == TcpState::Closed ==> take_error(s, m).0 == 111
            &&& st == TcpState::SynSent ==> take_error(s, m).0 == 115
        },
{
}

/// A connection that is closed with unread bytes is reset; otherwise it is closed in
/// order, and what waits to be sent still goes.
pub proof fn closing_resets_unread(s: TcpSock)
    ensures
        s.rx.len() > 0 ==> conn_gone(s).state == TcpState::Closed,
        s.rx.len() == 0 && s.state == TcpState::Established ==> conn_gone(s).state
            == TcpState::FinWait1 && conn_gone(s).tx == s.tx,
        s.rx.len() == 0 && s.state == TcpState::CloseWait ==> conn_gone(s).state
            == TcpState::LastAck && conn_gone(s).tx == s.tx,
{
}

/// A send that may block goes on until everything is sent; one that must not tells
/// how much went. Bytes that went are never told as an error.
pub proof fn sends_go_on(r: SysResult, sent: usize, len: usize, flags: u32, nonblock: bool, signal: bool)
    requires
        sent <= len,
        r matches Ok(n) ==> n <= len - sent,
    ensures
        r matches Ok(n) && sent + n == len ==> after_attempt(r, sent, len, flags, nonblock, signal) == (
        SendStep::Done { result: Ok(len), sigpipe: false }),
        r matches Ok(n) && sent + n < len && !nonblock ==> after_attempt(
            r,
            sent,
            len,
            flags,
            nonblock,
            signal,
        ) == (SendStep::Progress { sent: (sent + r->Ok_0) as usize }),
        r is Err && sent > 0 ==> (after_attempt(r, sent, len, flags, nonblock, signal) matches SendStep::Done {
            result,
            sigpipe,
        } ==> result == Ok::<usize, i32>(sent) && !sigpipe),
        r == Err::<usize, i32>(32) && sent == 0 ==> after_attempt(
            r,
            sent,
            len,
            flags,
            nonblock,
            signal,
        ) == (SendStep::Done { result: Err(32), sigpipe: flags & MSG_NOSIGNAL == 0 }),
        r == Err::<usize, i32>(11) && !nonblock && !signal ==> after_attempt(
            r,
            sent,
            len,
            flags,
            nonblock,
            signal,
        ) is Block,
{
}

/// A connection attempt ends when the peer answers: connected, or refused where it
/// was reset; until then it has to be waited for.
pub proof fn connecting_ends(before: TcpSocket, state: TcpState, h: SocketHandle, r: Result<(), i32>, after: TcpSocket)
    requires
        wait_post(before, state, h, r, after),
    ensures
        state == TcpState::Established ==> r is Ok && after.kind == Kind::Connected(h),
        state == TcpState::Closed ==> r == Err::<(), i32>(111) && after == before,
        state == TcpState::SynSent || state == TcpState::SynReceived ==> r == Err::<(), i32>(11)
            && after == before,
{
}

/// What a socket is ready for: a listening one for input where a connection can be
/// accepted; one that is not connected is never readable.
pub proof fn socket_events(s: TcpSocket, m: Map<SocketHandle, SockModel>)
    ensures
        s.kind matches Kind::Listening { local, handles } ==> (s.events(m) == (if count_ready(
            handles@,
            m,
        ) > 0 {
            1u32
        } else {
            0
        })),
        s.kind matches Kind::Connected(h) ==> s.events(m) == conn_events(
            tcp_of(m, h),
            s.shut_rd,
            s.error,
        ),
        s.kind is Unbound ==> s.events(m) & 1 == 0 && s.events(m) & 4 != 0,
{
    assert((4u32 | 0x10) & 1 == 0 && (4u32 | 0x10) & 4 != 0) by (bit_vector);
}

} // verus!
