//! The calls into smoltcp. A `SocketSet` is seen through `sockets`: which
//! handles it holds and, for each, the part of the socket that callers can
//! observe. What smoltcp does on the wire (sequence numbers, timers,
//! retransmission) is not modelled.

use smoltcp::iface::{Interface, SocketHandle, SocketSet};
use smoltcp::socket::{tcp, udp, Socket};
use smoltcp::wire::{IpAddress, IpEndpoint, IpListenEndpoint};
use vstd::prelude::*;

verus! {

/// TCP connection state.
#[derive(Clone, Copy, PartialEq, Eq, Structural, Debug)]
pub enum TcpState {
    Closed,
    Listen,
    SynSent,
    SynReceived,
    Established,
    FinWait1,
    FinWait2,
    CloseWait,
    Closing,
    LastAck,
    TimeWait,
}

/// An IPv4 address.
pub type Ip = [u8; 4];

#[verifier::external_type_specification]
#[verifier::external_body]
pub struct ExSocketSet<'a>(SocketSet<'a>);

#[verifier::external_type_specification]
#[verifier::external_body]
pub struct ExSocketHandle(SocketHandle);

#[verifier::external_type_specification]
#[verifier::external_body]
pub struct ExInterface(Interface);

/// What can be observed of a TCP socket.
pub struct TcpSock {
    pub state: TcpState,
    /// The endpoint that `listen` was last called with.
    pub listen: (Option<Ip>, u16),
    pub local: Option<(Ip, u16)>,
    pub remote: Option<(Ip, u16)>,
    /// Received bytes that were not read yet.
    pub rx: Seq<u8>,
    /// Bytes accepted for sending that were not acknowledged yet.
    pub tx: Seq<u8>,
    pub tx_cap: nat,
    pub nagle: bool,
    pub delayed_ack: bool,
    /// Keep-alive interval in seconds.
    pub keep_alive: Option<u64>,
}

/// What can be observed of a UDP socket.
pub struct UdpSock {
    /// The bound endpoint; port 0 while unbound.
    pub bound: (Option<Ip>, u16),
    /// Received datagrams that were not read yet, with their senders.
    pub rx: Seq<(Seq<u8>, (Ip, u16))>,
    /// Datagrams accepted for sending, with their destinations.
    pub tx: Seq<(Seq<u8>, (Ip, u16))>,
    /// How many bytes the transmit buffer can hold.
    pub tx_cap: nat,
}

/// What became of a datagram that was handed over for sending.
#[derive(Clone, Copy, PartialEq, Eq, Structural, Debug)]
pub enum UdpSent {
    Queued,
    Full,
    Unaddressable,
}

pub enum SockModel {
    Tcp(TcpSock),
    Udp(UdpSock),
}

/// The sockets that a set holds, by handle.
pub uninterp spec fn sockets(set: SocketSet<'static>) -> Map<SocketHandle, SockModel>;

/// The address that an interface sends from when it sends to a given address.
pub uninterp spec fn source_address(iface: Interface, to: Seq<u8>) -> Option<Ip>;

pub open spec fn no_sockets() -> Map<SocketHandle, SockModel> {
    Map::empty()
}

pub open spec fn is_tcp(m: Map<SocketHandle, SockModel>, h: SocketHandle) -> bool {
    m.dom().contains(h) && m[h] is Tcp
}

pub open spec fn tcp_of(m: Map<SocketHandle, SockModel>, h: SocketHandle) -> TcpSock {
    m[h]->Tcp_0
}

pub open spec fn is_udp(m: Map<SocketHandle, SockModel>, h: SocketHandle) -> bool {
    m.dom().contains(h) && m[h] is Udp
}

pub open spec fn udp_of(m: Map<SocketHandle, SockModel>, h: SocketHandle) -> UdpSock {
    m[h]->Udp_0
}

pub open spec fn with_tcp(
    m: Map<SocketHandle, SockModel>,
    h: SocketHandle,
    s: TcpSock,
) -> Map<SocketHandle, SockModel> {
    m.insert(h, SockModel::Tcp(s))
}

pub open spec fn with_udp(
    m: Map<SocketHandle, SockModel>,
    h: SocketHandle,
    s: UdpSock,
) -> Map<SocketHandle, SockModel> {
    m.insert(h, SockModel::Udp(s))
}

/// A UDP socket as it is created.
pub open spec fn fresh_udp(cap: nat) -> UdpSock {
    UdpSock { bound: (None, 0), rx: Seq::empty(), tx: Seq::empty(), tx_cap: cap }
}

/// The socket neither exchanges packets nor listens.
pub open spec fn is_idle(s: TcpState) -> bool {
    s is Closed || s is TimeWait
}

/// The transmit half is open.
pub open spec fn may_send(s: TcpSock) -> bool {
    s.state is Established || s.state is CloseWait
}

/// The receive half is open, or unread bytes are left.
pub open spec fn may_recv(s: TcpSock) -> bool {
    s.state is Established || s.state is FinWait1 || s.state is FinWait2 || s.rx.len() > 0
}

/// The state after the transmit half was closed.
pub open spec fn after_close(s: TcpState) -> TcpState {
    match s {
        TcpState::Listen | TcpState::SynSent => TcpState::Closed,
        TcpState::SynReceived | TcpState::Established => TcpState::FinWait1,
        TcpState::CloseWait => TcpState::LastAck,
        _ => s,
    }
}

pub open spec fn closed(s: TcpSock) -> TcpSock {
    TcpSock { state: after_close(s.state), ..s }
}

/// A socket as it is created, with `cap` bytes of buffer in each direction.
pub open spec fn fresh_tcp(cap: nat) -> TcpSock {
    TcpSock {
        state: TcpState::Closed,
        listen: (None, 0),
        local: None,
        remote: None,
        rx: Seq::empty(),
        tx: Seq::empty(),
        tx_cap: cap,
        nagle: true,
        delayed_ack: true,
        keep_alive: None,
    }
}

/// The socket after it was put into the listening state.
pub open spec fn listening(s: TcpSock, addr: Option<Ip>, port: u16) -> TcpSock {
    TcpSock {
        state: TcpState::Listen,
        listen: (addr, port),
        local: None,
        remote: None,
        rx: Seq::empty(),
        tx: Seq::empty(),
        ..s
    }
}

/// The socket after it started to connect.
pub open spec fn connecting(s: TcpSock, local: (Ip, u16), remote: (Ip, u16)) -> TcpSock {
    TcpSock {
        state: TcpState::SynSent,
        listen: (None, 0),
        local: Some(local),
        remote: Some(remote),
        rx: Seq::empty(),
        tx: Seq::empty(),
        ..s
    }
}

pub open spec fn unspecified(ip: Ip) -> bool {
    ip@ =~= seq![0u8, 0u8, 0u8, 0u8]
}

pub open spec fn smaller(a: int, b: int) -> int {
    if a < b {
        a
    } else {
        b
    }
}

/// `hs` are new TCP sockets of `m1`, each like `s`; the rest of `m1` is `m0`.
pub open spec fn added(
    m0: Map<SocketHandle, SockModel>,
    m1: Map<SocketHandle, SockModel>,
    hs: Seq<SocketHandle>,
    s: TcpSock,
) -> bool {
    &&& hs.no_duplicates()
    &&& forall|i: int|
        0 <= i < hs.len() ==> !m0.dom().contains(#[trigger] hs[i]) && m1.dom().contains(hs[i])
            && m1[hs[i]] == SockModel::Tcp(s)
    &&& forall|h: SocketHandle| #[trigger]
        m1.dom().contains(h) <==> m0.dom().contains(h) || hs.contains(h)
    &&& forall|h: SocketHandle| #[trigger] m0.dom().contains(h) ==> m1[h] == m0[h]
}

pub proof fn lemma_added_none(m: Map<SocketHandle, SockModel>, s: TcpSock)
    ensures
        added(m, m, Seq::empty(), s),
{
}

pub proof fn lemma_added_push(
    m0: Map<SocketHandle, SockModel>,
    m1: Map<SocketHandle, SockModel>,
    hs: Seq<SocketHandle>,
    s: TcpSock,
    h: SocketHandle,
)
    requires
        added(m0, m1, hs, s),
        !m1.dom().contains(h),
    ensures
        added(m0, with_tcp(m1, h, s), hs.push(h), s),
{
    let m2 = with_tcp(m1, h, s);
    let hs2 = hs.push(h);
    assert forall|j: int| 0 <= j < hs.len() implies hs[j] != h by {
        assert(m1.dom().contains(hs[j]));
    }
    assert(hs2.no_duplicates());
    assert forall|x: SocketHandle| #[trigger]
        m2.dom().contains(x) <==> m0.dom().contains(x) || hs2.contains(x) by {
        if x == h {
            assert(hs2[hs.len() as int] == h);
        }
        if hs.contains(x) {
            let j = choose|j: int| 0 <= j < hs.len() && hs[j] == x;
            assert(hs2[j] == x);
        }
        if hs2.contains(x) && x != h {
            let j = choose|j: int| 0 <= j < hs2.len() && hs2[j] == x;
            assert(hs[j] == x);
        }
    }
}

/// `SocketSet::new` on an empty `Vec`: a set without sockets, which grows.
#[verifier::external_body]
pub(crate) fn new_set() -> (set: SocketSet<'static>)
    ensures
        sockets(set) == no_sockets(),
{
    SocketSet::new(Vec::new())
}

/// `tcp::Socket::new` on two zeroed buffers of `cap` bytes, handed to
/// `SocketSet::add`: the handle is new, and the socket is closed. `Socket::new`
/// panics above one GiB.
#[verifier::external_body]
pub(crate) fn add_tcp(set: &mut SocketSet<'static>, cap: usize) -> (h: SocketHandle)
    requires
        cap <= 0x4000_0000,
    ensures
        !sockets(*old(set)).dom().contains(h),
        sockets(*final(set)) == with_tcp(sockets(*old(set)), h, fresh_tcp(cap as nat)),
{
    let rx = tcp::SocketBuffer::new(vec![0u8; cap]);
    let tx = tcp::SocketBuffer::new(vec![0u8; cap]);
    set.add(tcp::Socket::new(rx, tx))
}

/// `SocketSet::remove`: the socket leaves the set. It panics on a handle that
/// the set does not hold.
#[verifier::external_body]
pub(crate) fn remove(set: &mut SocketSet<'static>, h: SocketHandle)
    requires
        sockets(*old(set)).dom().contains(h),
    ensures
        sockets(*final(set)) == sockets(*old(set)).remove(h),
{
    let _ = set.remove(h);
}

/// `SocketSet::iter`: every handle once, with whether its socket is a TCP one.
#[verifier::external_body]
pub(crate) fn handles(set: &SocketSet<'static>) -> (r: Vec<(SocketHandle, bool)>)
    ensures
        forall|i: int|
            0 <= i < r@.len() ==> sockets(*set).dom().contains((#[trigger] r@[i]).0) && r@[i].1 == is_tcp(
                sockets(*set),
                r@[i].0,
            ),
        forall|h: SocketHandle| #[trigger]
            sockets(*set).dom().contains(h) ==> exists|i: int|
                0 <= i < r@.len() && (#[trigger] r@[i]).0 == h,
        forall|i: int, j: int|
            0 <= i < j < r@.len() ==> (#[trigger] r@[i]).0 != (#[trigger] r@[j]).0,
{
    set.iter().map(|(h, s)| (h, matches!(s, Socket::Tcp(_)))).collect()
}

/// `tcp::Socket::set_ack_delay` with `None`: acknowledgements are not delayed.
#[verifier::external_body]
pub(crate) fn disable_ack_delay(set: &mut SocketSet<'static>, h: SocketHandle)
    requires
        is_tcp(sockets(*old(set)), h),
    ensures
        sockets(*final(set)) == with_tcp(
            sockets(*old(set)),
            h,
            (TcpSock { delayed_ack: false, ..tcp_of(sockets(*old(set)), h) }),
        ),
{
    set.get_mut::<tcp::Socket>(h).set_ack_delay(None);
}

/// `tcp::Socket::set_nagle_enabled`.
#[verifier::external_body]
pub(crate) fn set_nagle(set: &mut SocketSet<'static>, h: SocketHandle, on: bool)
    requires
        is_tcp(sockets(*old(set)), h),
    ensures
        sockets(*final(set)) == with_tcp(
            sockets(*old(set)),
            h,
            (TcpSock { nagle: on, ..tcp_of(sockets(*old(set)), h) }),
        ),
{
    set.get_mut::<tcp::Socket>(h).set_nagle_enabled(on);
}

/// `tcp::Socket::set_keep_alive`, with the interval in seconds.
#[verifier::external_body]
pub(crate) fn set_keep_alive(set: &mut SocketSet<'static>, h: SocketHandle, secs: Option<u64>)
    requires
        is_tcp(sockets(*old(set)), h),
        secs is Some ==> secs->0 <= 0xffff_ffff,
    ensures
        sockets(*final(set)) == with_tcp(
            sockets(*old(set)),
            h,
            (TcpSock { keep_alive: secs, ..tcp_of(sockets(*old(set)), h) }),
        ),
{
    set.get_mut::<tcp::Socket>(h).set_keep_alive(secs.map(smoltcp::time::Duration::from_secs));
}

/// `tcp::Socket::state`.
#[verifier::external_body]
pub(crate) fn state(set: &SocketSet<'static>, h: SocketHandle) -> (s: TcpState)
    requires
        is_tcp(sockets(*set), h),
    ensures
        s == tcp_of(sockets(*set), h).state,
{
    match set.get::<tcp::Socket>(h).state() {
        tcp::State::Closed => TcpState::Closed,
        tcp::State::Listen => TcpState::Listen,
        tcp::State::SynSent => TcpState::SynSent,
        tcp::State::SynReceived => TcpState::SynReceived,
        tcp::State::Established => TcpState::Established,
        tcp::State::FinWait1 => TcpState::FinWait1,
        tcp::State::FinWait2 => TcpState::FinWait2,
        tcp::State::CloseWait => TcpState::CloseWait,
        tcp::State::Closing => TcpState::Closing,
        tcp::State::LastAck => TcpState::LastAck,
        tcp::State::TimeWait => TcpState::TimeWait,
    }
}

/// The port of `tcp::Socket::listen_endpoint`.
#[verifier::external_body]
pub(crate) fn listen_port(set: &SocketSet<'static>, h: SocketHandle) -> (p: u16)
    requires
        is_tcp(sockets(*set), h),
    ensures
        p == tcp_of(sockets(*set), h).listen.1,
{
    set.get::<tcp::Socket>(h).listen_endpoint().port
}

/// `tcp::Socket::local_endpoint`.
#[verifier::external_body]
pub(crate) fn local_endpoint(set: &SocketSet<'static>, h: SocketHandle) -> (r: Option<(Ip, u16)>)
    requires
        is_tcp(sockets(*set), h),
    ensures
        r == tcp_of(sockets(*set), h).local,
{
    match set.get::<tcp::Socket>(h).local_endpoint() {
        Some(IpEndpoint { addr: IpAddress::Ipv4(a), port }) => Some((a.octets(), port)),
        None => None,
    }
}

/// `tcp::Socket::remote_endpoint`.
#[verifier::external_body]
pub(crate) fn remote_endpoint(set: &SocketSet<'static>, h: SocketHandle) -> (r: Option<(Ip, u16)>)
    requires
        is_tcp(sockets(*set), h),
    ensures
        r == tcp_of(sockets(*set), h).remote,
{
    match set.get::<tcp::Socket>(h).remote_endpoint() {
        Some(IpEndpoint { addr: IpAddress::Ipv4(a), port }) => Some((a.octets(), port)),
        None => None,
    }
}

/// `tcp::Socket::listen`: refused for port 0, and while the socket is open
/// unless it listens on the very endpoint already.
#[verifier::external_body]
pub(crate) fn listen(
    set: &mut SocketSet<'static>,
    h: SocketHandle,
    addr: Option<Ip>,
    port: u16,
) -> (ok: bool)
    requires
        is_tcp(sockets(*old(set)), h),
    ensures
        ok == (port != 0 && (is_idle(tcp_of(sockets(*old(set)), h).state) || (tcp_of(
            sockets(*old(set)),
            h,
        ).state is Listen && tcp_of(sockets(*old(set)), h).listen == (addr, port)))),
        sockets(*final(set)) == (if ok && is_idle(tcp_of(sockets(*old(set)), h).state) {
            with_tcp(
                sockets(*old(set)),
                h,
                listening(tcp_of(sockets(*old(set)), h), addr, port),
            )
        } else {
            sockets(*old(set))
        }),
{
    let addr = addr.map(|a| IpAddress::v4(a[0], a[1], a[2], a[3]));
    set.get_mut::<tcp::Socket>(h).listen(IpListenEndpoint { addr, port }).is_ok()
}

/// `tcp::Socket::connect`: refused while the socket is open, for a zero port on
/// either side, for an unspecified address, and where no local address is given
/// and the interface has none. The initial sequence number, which it draws at
/// random, is not part of the model.
#[verifier::external_body]
pub(crate) fn connect(
    set: &mut SocketSet<'static>,
    iface: &mut Interface,
    h: SocketHandle,
    remote: (Ip, u16),
    local: (Option<Ip>, u16),
) -> (ok: bool)
    requires
        is_tcp(sockets(*old(set)), h),
    ensures
        ({
            let s = tcp_of(sockets(*old(set)), h);
            let from = if local.0 is Some {
                local.0
            } else {
                source_address(*old(iface), remote.0@)
            };
            &&& ok == (is_idle(s.state) && remote.1 != 0 && !unspecified(remote.0) && local.1 != 0
                && from is Some && !(local.0 is Some && unspecified(local.0->0)))
            &&& sockets(*final(set)) == (if ok {
                with_tcp(sockets(*old(set)), h, connecting(s, (from->0, local.1), remote))
            } else {
                sockets(*old(set))
            })
        }),
{
    let (ip, port) = remote;
    let to = IpEndpoint::new(IpAddress::v4(ip[0], ip[1], ip[2], ip[3]), port);
    let addr = local.0.map(|a| IpAddress::v4(a[0], a[1], a[2], a[3]));
    let from = IpListenEndpoint { addr, port: local.1 };
    set.get_mut::<tcp::Socket>(h).connect(iface.context(), to, from).is_ok()
}

/// `tcp::Socket::close`: closes the transmit half.
#[verifier::external_body]
pub(crate) fn close(set: &mut SocketSet<'static>, h: SocketHandle)
    requires
        is_tcp(sockets(*old(set)), h),
    ensures
        sockets(*final(set)) == with_tcp(
            sockets(*old(set)),
            h,
            closed(tcp_of(sockets(*old(set)), h)),
        ),
{
    set.get_mut::<tcp::Socket>(h).close();
}

/// `tcp::Socket::abort`: the socket is closed at once.
#[verifier::external_body]
pub(crate) fn abort(set: &mut SocketSet<'static>, h: SocketHandle)
    requires
        is_tcp(sockets(*old(set)), h),
    ensures
        sockets(*final(set)) == with_tcp(
            sockets(*old(set)),
            h,
            (TcpSock { state: TcpState::Closed, ..tcp_of(sockets(*old(set)), h) }),
        ),
{
    set.get_mut::<tcp::Socket>(h).abort();
}

/// `tcp::Socket::can_send`: the transmit half is open and its buffer has room.
#[verifier::external_body]
pub(crate) fn can_send(set: &SocketSet<'static>, h: SocketHandle) -> (r: bool)
    requires
        is_tcp(sockets(*set), h),
    ensures
        r == (may_send(tcp_of(sockets(*set), h)) && tcp_of(sockets(*set), h).tx.len() != tcp_of(
            sockets(*set),
            h,
        ).tx_cap),
{
    set.get::<tcp::Socket>(h).can_send()
}

/// `tcp::Socket::can_recv`: received bytes are waiting.
#[verifier::external_body]
pub(crate) fn can_recv(set: &SocketSet<'static>, h: SocketHandle) -> (r: bool)
    requires
        is_tcp(sockets(*set), h),
    ensures
        r == (tcp_of(sockets(*set), h).rx.len() > 0),
{
    set.get::<tcp::Socket>(h).can_recv()
}

/// `tcp::Socket::may_recv`.
#[verifier::external_body]
pub(crate) fn may_recv_now(set: &SocketSet<'static>, h: SocketHandle) -> (r: bool)
    requires
        is_tcp(sockets(*set), h),
    ensures
        r == may_recv(tcp_of(sockets(*set), h)),
{
    set.get::<tcp::Socket>(h).may_recv()
}

/// `tcp::Socket::may_send`.
#[verifier::external_body]
pub(crate) fn may_send_now(set: &SocketSet<'static>, h: SocketHandle) -> (r: bool)
    requires
        is_tcp(sockets(*set), h),
    ensures
        r == may_send(tcp_of(sockets(*set), h)),
{
    set.get::<tcp::Socket>(h).may_send()
}

/// `tcp::Socket::send_slice`: takes as many bytes as the transmit buffer has
/// room for; `None` where the transmit half is not open.
#[verifier::external_body]
pub(crate) fn send_slice(
    set: &mut SocketSet<'static>,
    h: SocketHandle,
    data: &[u8],
) -> (r: Option<usize>)
    requires
        is_tcp(sockets(*old(set)), h),
    ensures
        ({
            let s = tcp_of(sockets(*old(set)), h);
            match r {
                Some(n) => {
                    &&& may_send(s)
                    &&& n == smaller(data@.len() as int, s.tx_cap - s.tx.len())
                    &&& sockets(*final(set)) == with_tcp(
                        sockets(*old(set)),
                        h,
                        (TcpSock { tx: s.tx + data@.take(n as int), ..s }),
                    )
                },
                None => !may_send(s) && sockets(*final(set)) == sockets(*old(set)),
            }
        }),
{
    set.get_mut::<tcp::Socket>(h).send_slice(data).ok()
}

/// `tcp::Socket::recv_slice`: moves received bytes out, as many as there are
/// and fit; `None` where the receive half is closed and nothing is left.
#[verifier::external_body]
pub(crate) fn recv_slice(
    set: &mut SocketSet<'static>,
    h: SocketHandle,
    data: &mut [u8],
) -> (r: Option<usize>)
    requires
        is_tcp(sockets(*old(set)), h),
    ensures
        final(data)@.len() == old(data)@.len(),
        ({
            let s = tcp_of(sockets(*old(set)), h);
            match r {
                Some(n) => {
                    &&& may_recv(s)
                    &&& n == smaller(old(data)@.len() as int, s.rx.len() as int)
                    &&& final(data)@ == s.rx.take(n as int) + old(data)@.skip(n as int)
                    &&& sockets(*final(set)) == with_tcp(
                        sockets(*old(set)),
                        h,
                        (TcpSock { rx: s.rx.skip(n as int), ..s }),
                    )
                },
                None => !may_recv(s) && sockets(*final(set)) == sockets(*old(set)) && final(data)@
                    == old(data)@,
            }
        }),
{
    set.get_mut::<tcp::Socket>(h).recv_slice(data).ok()
}

/// `tcp::Socket::peek_slice`: copies received bytes without removing them. It
/// never reports an error.
#[verifier::external_body]
pub(crate) fn peek_slice(
    set: &mut SocketSet<'static>,
    h: SocketHandle,
    data: &mut [u8],
) -> (r: Option<usize>)
    requires
        is_tcp(sockets(*old(set)), h),
    ensures
        r is Some,
        r->0 == smaller(old(data)@.len() as int, tcp_of(sockets(*old(set)), h).rx.len() as int),
        final(data)@ == tcp_of(sockets(*old(set)), h).rx.take(r->0 as int) + old(data)@.skip(
            r->0 as int,
        ),
        sockets(*final(set)) == sockets(*old(set)),
{
    set.get_mut::<tcp::Socket>(h).peek_slice(data).ok()
}

/// `tcp::Socket::recv_queue`: how many received bytes were not read yet.
#[verifier::external_body]
pub(crate) fn recv_queue(set: &SocketSet<'static>, h: SocketHandle) -> (n: usize)
    requires
        is_tcp(sockets(*set), h),
    ensures
        n == tcp_of(sockets(*set), h).rx.len(),
{
    set.get::<tcp::Socket>(h).recv_queue()
}

/// `tcp::Socket::send_queue`: how many bytes wait in the transmit buffer.
#[verifier::external_body]
pub(crate) fn send_queue(set: &SocketSet<'static>, h: SocketHandle) -> (n: usize)
    requires
        is_tcp(sockets(*set), h),
    ensures
        n == tcp_of(sockets(*set), h).tx.len(),
{
    set.get::<tcp::Socket>(h).send_queue()
}

/// `udp::Socket::new` on two packet buffers for `packets` datagrams and `cap`
/// bytes each, handed to `SocketSet::add`: the handle is new, and the socket
/// is not bound.
#[verifier::external_body]
pub(crate) fn add_udp(set: &mut SocketSet<'static>, packets: usize, cap: usize) -> (h: SocketHandle)
    ensures
        !sockets(*old(set)).dom().contains(h),
        sockets(*final(set)) == with_udp(sockets(*old(set)), h, fresh_udp(cap as nat)),
{
    let rx = udp::PacketBuffer::new(vec![udp::PacketMetadata::EMPTY; packets], vec![0u8; cap]);
    let tx = udp::PacketBuffer::new(vec![udp::PacketMetadata::EMPTY; packets], vec![0u8; cap]);
    set.add(udp::Socket::new(rx, tx))
}

/// `udp::Socket::bind`: refused for port 0 and on a socket that is bound.
#[verifier::external_body]
pub(crate) fn udp_bind(
    set: &mut SocketSet<'static>,
    h: SocketHandle,
    addr: Option<Ip>,
    port: u16,
) -> (ok: bool)
    requires
        is_udp(sockets(*old(set)), h),
    ensures
        ok == (port != 0 && udp_of(sockets(*old(set)), h).bound.1 == 0),
        sockets(*final(set)) == (if ok {
            with_udp(
                sockets(*old(set)),
                h,
                (UdpSock { bound: (addr, port), ..udp_of(sockets(*old(set)), h) }),
            )
        } else {
            sockets(*old(set))
        }),
{
    let addr = addr.map(|a| IpAddress::v4(a[0], a[1], a[2], a[3]));
    set.get_mut::<udp::Socket>(h).bind(IpListenEndpoint { addr, port }).is_ok()
}

/// `udp::Socket::endpoint`.
#[verifier::external_body]
pub(crate) fn udp_endpoint(set: &SocketSet<'static>, h: SocketHandle) -> (r: (Option<Ip>, u16))
    requires
        is_udp(sockets(*set), h),
    ensures
        r == udp_of(sockets(*set), h).bound,
{
    let ep = set.get::<udp::Socket>(h).endpoint();
    (ep.addr.map(|a| match a { IpAddress::Ipv4(v) => v.octets() }), ep.port)
}

/// `udp::Socket::can_recv`: true wherever a datagram is waiting. It can also be
/// true when none is, as padding in the ring counts.
#[verifier::external_body]
pub(crate) fn udp_can_recv(set: &SocketSet<'static>, h: SocketHandle) -> (r: bool)
    requires
        is_udp(sockets(*set), h),
    ensures
        udp_of(sockets(*set), h).rx.len() > 0 ==> r,
{
    set.get::<udp::Socket>(h).can_recv()
}

/// `udp::Socket::send_slice`: refused as unaddressable while the socket is
/// unbound and for an unspecified destination; otherwise the datagram is queued
/// whole or the buffer is full, always so for one larger than the buffer. When
/// a smaller one finds the buffer full depends on how the ring is filled, and
/// is not said here.
#[verifier::external_body]
pub(crate) fn udp_send_slice(
    set: &mut SocketSet<'static>,
    h: SocketHandle,
    data: &[u8],
    to: (Ip, u16),
) -> (r: UdpSent)
    requires
        is_udp(sockets(*old(set)), h),
    ensures
        ({
            let s = udp_of(sockets(*old(set)), h);
            &&& r is Unaddressable <==> (s.bound.1 == 0 || unspecified(to.0) || to.1 == 0)
            &&& r is Queued ==> data@.len() <= s.tx_cap
            &&& sockets(*final(set)) == (if r is Queued {
                with_udp(sockets(*old(set)), h, (UdpSock { tx: s.tx.push((data@, to)), ..s }))
            } else {
                sockets(*old(set))
            })
        }),
{
    let (ip, port) = to;
    let to = IpEndpoint::new(IpAddress::v4(ip[0], ip[1], ip[2], ip[3]), port);
    match set.get_mut::<udp::Socket>(h).send_slice(data, to) {
        Ok(()) => UdpSent::Queued,
        Err(udp::SendError::BufferFull) => UdpSent::Full,
        Err(udp::SendError::Unaddressable) => UdpSent::Unaddressable,
    }
}

/// `udp::Socket::recv_slice`: takes the first waiting datagram; where it does
/// not fit it is dropped, which is an error as finding none is.
#[verifier::external_body]
pub(crate) fn udp_recv_slice(
    set: &mut SocketSet<'static>,
    h: SocketHandle,
    data: &mut [u8],
) -> (r: Option<(usize, (Ip, u16))>)
    requires
        is_udp(sockets(*old(set)), h),
    ensures
        ({
            let s = udp_of(sockets(*old(set)), h);
            let rest = if s.rx.len() == 0 {
                s.rx
            } else {
                s.rx.skip(1)
            };
            &&& sockets(*final(set)) == with_udp(sockets(*old(set)), h, (UdpSock { rx: rest, ..s }))
            &&& match r {
                Some((n, from)) => {
                    &&& s.rx.len() > 0 && n == s.rx[0].0.len() <= old(data)@.len()
                    &&& from == s.rx[0].1
                    &&& final(data)@ == s.rx[0].0 + old(data)@.skip(n as int)
                },
                None => (s.rx.len() == 0 || s.rx[0].0.len() > old(data)@.len()) && final(data)@
                    == old(data)@,
            }
        }),
{
    match set.get_mut::<udp::Socket>(h).recv_slice(data).map(|(n, m)| (n, m.endpoint)) {
        Ok((n, IpEndpoint { addr: IpAddress::Ipv4(a), port })) => Some((n, (a.octets(), port))),
        Err(_) => None,
    }
}

/// `udp::Socket::peek_slice`: copies the first waiting datagram and leaves it;
/// one that does not fit is an error as finding none is.
#[verifier::external_body]
pub(crate) fn udp_peek_slice(
    set: &mut SocketSet<'static>,
    h: SocketHandle,
    data: &mut [u8],
) -> (r: Option<(usize, (Ip, u16))>)
    requires
        is_udp(sockets(*old(set)), h),
    ensures
        sockets(*final(set)) == sockets(*old(set)),
        ({
            let s = udp_of(sockets(*old(set)), h);
            match r {
                Some((n, from)) => {
                    &&& s.rx.len() > 0 && n == s.rx[0].0.len() <= old(data)@.len()
                    &&& from == s.rx[0].1
                    &&& final(data)@ == s.rx[0].0 + old(data)@.skip(n as int)
                },
                None => (s.rx.len() == 0 || s.rx[0].0.len() > old(data)@.len()) && final(data)@
                    == old(data)@,
            }
        }),
{
    match set.get_mut::<udp::Socket>(h).peek_slice(data).map(|(n, m)| (n, m.endpoint)) {
        Ok((n, IpEndpoint { addr: IpAddress::Ipv4(a), port })) => Some((n, (a.octets(), port))),
        Err(_) => None,
    }
}

} // verus!
