//! Linux sockets: internet sockets over the kernel's TCP stack, and pairs of
//! local sockets. Where the network is involved, the interface is to be run
//! before a call.

use vstd::prelude::*;
use crate::abi::{
    AF_INET, AF_UNIX, O_NONBLOCK, POLLHUP, POLLIN, POLLOUT, SOCK_CLOEXEC, SOCK_NONBLOCK,
    SOCK_STREAM,
};
use crate::bytes::{le, lemma_le_len, lemma_span, put_le, put_zeros, zeros};
use crate::errno::{
    SysResult, EADDRINUSE, EAFNOSUPPORT, EAGAIN, EBADF, ECONNREFUSED, EFAULT, EINPROGRESS, EINTR,
    EINVAL, EIO, ENETUNREACH, ENOENT, ENOTCONN, ENOTSOCK, EPIPE, EPROTONOSUPPORT,
};
use crate::file::open_fd;
use crate::net::stack::{
    accept_post, connect_post, dropped, listen_post, local_of, peer_of, pending_of, recv_post,
    send_post, shutdown_view, state_of,
};
use crate::net::{
    tcp_accept, tcp_connect, tcp_drop, tcp_listen, tcp_local_addr, tcp_peer_addr, tcp_pending,
    tcp_recv, tcp_send, tcp_shutdown, tcp_state, ErrnoKind, Ip, NetState, TcpHandle, TcpState,
    GUEST_IP,
};
use crate::syscall::files::{fd_result, file_at, is_open, open_file, opened, MAX_IO};
use crate::syscall::process::{err, lemma_mapped_stored, ok};
use crate::syscall::reply::{
    bytes_out, no_outs, out, replied, reply_all, store_all, store_each, views, Out, OutView,
};
use crate::syscall::transfer::{
    capped, gather, gathered, iovs_at, lemma_room, read_iovs, room, room_of, scatter, scattered,
    used_room, IoStep, MAX_VEC,
};
use crate::task::process::{File, FileObj, Process};
use crate::uaccess::{bytes_at, field, mapped, num_at, stored, UserMem};

verus! {

/// What a socket is at the moment. Pipes go by their numbers.
#[derive(Clone, Copy, PartialEq, Eq, Structural, Debug)]
pub enum SockInner {
    Unconnected { domain: u16, ty: u32 },
    UnixPair { rx: usize, tx: usize },
    InetIdle,
    InetListening { handle: TcpHandle },
    InetConnected { handle: TcpHandle },
}

#[derive(Clone, Copy, PartialEq, Eq, Structural, Debug)]
pub struct Socket {
    pub inner: SockInner,
}

/// What the pipe of a local socket answered to an attempt to use it.
pub type PipeAnswer = Result<usize, i32>;

pub open spec fn recv_errno(r: Result<usize, ErrnoKind>) -> SysResult {
    match r {
        Ok(n) => ok(n as int),
        Err(ErrnoKind::Again) => err(EAGAIN),
        Err(ErrnoKind::Closed) => ok(0),
        Err(_) => err(EIO),
    }
}

pub open spec fn send_errno(r: Result<usize, ErrnoKind>) -> SysResult {
    match r {
        Ok(n) => ok(n as int),
        Err(ErrnoKind::Again) => err(EAGAIN),
        Err(ErrnoKind::Closed) => err(EPIPE),
        Err(_) => err(EIO),
    }
}

/// The network after data was received on a connection.
pub open spec fn net_recv(
    a: NetState,
    h: TcpHandle,
    buf: Seq<u8>,
    r: Result<usize, ErrnoKind>,
    b: NetState,
    filled: Seq<u8>,
) -> bool {
    &&& b.same_device(a)
    &&& match a.stack {
        None => b.stack is None && r == Err::<usize, ErrnoKind>(ErrnoKind::Invalid) && filled
            == buf,
        Some(s) => b.stack is Some && recv_post(s, h, buf, r, b.stack->0, filled),
    }
}

pub open spec fn net_send(
    a: NetState,
    h: TcpHandle,
    data: Seq<u8>,
    r: Result<usize, ErrnoKind>,
    b: NetState,
) -> bool {
    &&& b.same_device(a)
    &&& match a.stack {
        None => b.stack is None && r == Err::<usize, ErrnoKind>(ErrnoKind::Invalid),
        Some(s) => b.stack is Some && send_post(s, h, data, r, b.stack->0),
    }
}

pub open spec fn net_listen(a: NetState, port: u16, r: Result<TcpHandle, &'static str>, b: NetState) -> bool {
    &&& b.same_device(a)
    &&& match a.stack {
        None => b.stack is None && r is Err,
        Some(s) => b.stack is Some && listen_post(s, port, r, b.stack->0),
    }
}

pub open spec fn net_accept(
    a: NetState,
    h: TcpHandle,
    r: Result<Option<(TcpHandle, Ip, u16)>, &'static str>,
    b: NetState,
) -> bool {
    &&& b.same_device(a)
    &&& match a.stack {
        None => b.stack is None && r is Err,
        Some(s) => b.stack is Some && accept_post(s, h, r, b.stack->0),
    }
}

pub open spec fn net_connect(
    a: NetState,
    ip: Ip,
    port: u16,
    r: Result<TcpHandle, &'static str>,
    b: NetState,
) -> bool {
    &&& b.same_device(a)
    &&& if port == 0 {
        r is Err && b.stack == a.stack
    } else {
        match a.stack {
            None => b.stack is None && r is Err,
            Some(s) => b.stack is Some && connect_post(s, ip, port, r, b.stack->0),
        }
    }
}

pub open spec fn net_drop(a: NetState, h: TcpHandle, b: NetState) -> bool {
    &&& b.same_device(a)
    &&& match a.stack {
        None => b.stack is None,
        Some(s) => {
            &&& b.stack is Some
            &&& b.stack->0@ == dropped(s@, h.0 as int)
            &&& b.stack->0.next_port == s.next_port
        },
    }
}

impl Socket {
    pub fn new_unconnected(domain: u16, ty: u32) -> (r: Socket)
        ensures
            r.inner == (SockInner::Unconnected { domain, ty }),
    {
        Socket { inner: SockInner::Unconnected { domain, ty } }
    }

    pub fn new_inet() -> (r: Socket)
        ensures
            r.inner == SockInner::InetIdle,
    {
        Socket { inner: SockInner::InetIdle }
    }

    pub fn new_unix_pair(rx: usize, tx: usize) -> (r: Socket)
        ensures
            r.inner == (SockInner::UnixPair { rx, tx }),
    {
        Socket { inner: SockInner::UnixPair { rx, tx } }
    }

    pub fn new_connected(handle: TcpHandle) -> (r: Socket)
        ensures
            r.inner == (SockInner::InetConnected { handle }),
    {
        Socket { inner: SockInner::InetConnected { handle } }
    }

    /// Receives into a buffer. `pipe` is what the pipe of a local socket put
    /// there.
    pub fn recv(&self, net: &mut NetState, buf: &mut [u8], pipe: PipeAnswer) -> (r: SysResult)
        requires
            old(net).wf(),
        ensures
            final(net).wf(),
            match self.inner {
                SockInner::UnixPair { .. } => r == pipe && *final(net) == *old(net)
                    && final(buf)@ == old(buf)@,
                SockInner::InetConnected { handle } => exists|x: Result<usize, ErrnoKind>|
                    #[trigger] net_recv(
                        *old(net),
                        handle,
                        old(buf)@,
                        x,
                        *final(net),
                        final(buf)@,
                    ) && r == recv_errno(x),
                _ => r == err(ENOTCONN) && *final(net) == *old(net) && final(buf)@ == old(buf)@,
            },
    {
        match self.inner {
            SockInner::UnixPair { .. } => pipe,
            SockInner::InetConnected { handle } => {
                let ghost b0 = buf@;
                let x: Result<usize, ErrnoKind> = tcp_recv(net, handle, buf);
                assert(net_recv(*old(net), handle, b0, x, *net, buf@));
                match x {
                    Ok(n) => Ok(n),
                    Err(ErrnoKind::Again) => Err(EAGAIN),
                    Err(ErrnoKind::Closed) => Ok(0),
                    Err(ErrnoKind::Invalid) => Err(EIO),
                }
            },
            _ => Err(ENOTCONN),
        }
    }

    /// Sends data. `pipe` is what the pipe of a local socket took.
    pub fn send(&self, net: &mut NetState, data: &[u8], pipe: PipeAnswer) -> (r: SysResult)
        requires
            old(net).wf(),
        ensures
            final(net).wf(),
            match self.inner {
                SockInner::UnixPair { .. } => r == pipe && *final(net) == *old(net),
                SockInner::InetConnected { handle } => exists|x: Result<usize, ErrnoKind>|
                    #[trigger] net_send(*old(net), handle, data@, x, *final(net)) && r
                        == send_errno(x),
                _ => r == err(ENOTCONN) && *final(net) == *old(net),
            },
    {
        match self.inner {
            SockInner::UnixPair { .. } => pipe,
            SockInner::InetConnected { handle } => {
                let x: Result<usize, ErrnoKind> = tcp_send(net, handle, data);
                assert(net_send(*old(net), handle, data@, x, *net));
                match x {
                    Ok(n) => Ok(n),
                    Err(ErrnoKind::Again) => Err(EAGAIN),
                    Err(ErrnoKind::Closed) => Err(EPIPE),
                    Err(ErrnoKind::Invalid) => Err(EIO),
                }
            },
            _ => Err(ENOTCONN),
        }
    }

    /// What the socket is ready for. `readable` and `writable` are what the
    /// pipes of a local socket are.
    pub fn readiness(&self, net: &NetState, readable: bool, writable: bool) -> (r: u32)
        requires
            net.wf(),
        ensures
            r == readiness_spec(*self, *net, readable, writable),
            self.inner matches SockInner::InetConnected { handle } ==> pending_of(net.stack, handle)
                > 0 ==> r & 1 != 0,
    {
        proof {
            readiness_bits(*self, *net, readable, writable);
        }
        match self.inner {
            SockInner::UnixPair { .. } => {
                let i: u32 = if readable {
                    POLLIN
                } else {
                    0
                };
                let o: u32 = if writable {
                    POLLOUT
                } else {
                    0
                };
                i + o
            },
            SockInner::InetConnected { handle } => {
                let data: bool = tcp_pending(net, handle) > 0;
                match tcp_state(net, handle) {
                    TcpState::Established => if data {
                        POLLIN + POLLOUT
                    } else {
                        POLLOUT
                    },
                    TcpState::CloseWait | TcpState::Closed | TcpState::LastAck => POLLIN + POLLHUP,
                    TcpState::TimeWait => if data {
                        POLLIN + POLLHUP
                    } else {
                        POLLHUP
                    },
                    _ => if data {
                        POLLIN
                    } else {
                        0
                    },
                }
            },
            SockInner::InetListening { .. } => POLLIN,
            _ => POLLIN + POLLOUT,
        }
    }

    /// Closes a connection in one or both directions; other sockets are left
    /// alone.
    pub fn shutdown(&self, net: &mut NetState, how: i32) -> (r: SysResult)
        requires
            old(net).wf(),
        ensures
            r == ok(0),
            final(net).wf(),
            final(net).same_device(*old(net)),
            match self.inner {
                SockInner::InetConnected { handle } => match old(net).stack {
                    None => final(net).stack is None,
                    Some(s) => {
                        &&& final(net).stack is Some
                        &&& final(net).stack->0@ == shutdown_view(
                            s@,
                            handle.0 as int,
                            how == 1 || how == 2,
                        )
                        &&& final(net).stack->0.next_port == s.next_port
                    },
                },
                _ => *final(net) == *old(net),
            },
    {
        match self.inner {
            SockInner::InetConnected { handle } => {
                tcp_shutdown(net, handle, how == 0 || how == 2, how == 1 || how == 2);
            },
            _ => {},
        }
        Ok(0)
    }

    pub fn local_addr(&self, net: &NetState) -> (r: Option<(Ip, u16)>)
        requires
            net.wf(),
        ensures
            r == local_spec(*self, *net),
    {
        match self.inner {
            SockInner::InetConnected { handle } => tcp_local_addr(net, handle),
            SockInner::InetListening { handle } => tcp_local_addr(net, handle),
            _ => None,
        }
    }

    pub fn peer_addr(&self, net: &NetState) -> (r: Option<(Ip, u16)>)
        requires
            net.wf(),
        ensures
            r == peer_spec(*self, *net),
    {
        match self.inner {
            SockInner::InetConnected { handle } => tcp_peer_addr(net, handle),
            _ => None,
        }
    }

    pub fn is_listening(&self) -> (r: bool)
        ensures
            r == (self.inner is InetListening),
    {
        match self.inner {
            SockInner::InetListening { .. } => true,
            _ => false,
        }
    }

    pub fn is_connected(&self) -> (r: bool)
        ensures
            r == (self.inner is InetConnected),
    {
        match self.inner {
            SockInner::InetConnected { .. } => true,
            _ => false,
        }
    }

    /// Releases what the socket holds of the network, when its last descriptor
    /// is gone.
    pub fn release(&self, net: &mut NetState)
        requires
            old(net).wf(),
        ensures
            final(net).wf(),
            match self.inner {
                SockInner::InetConnected { handle } => net_drop(*old(net), handle, *final(net)),
                SockInner::InetListening { handle } => net_drop(*old(net), handle, *final(net)),
                _ => *final(net) == *old(net),
            },
    {
        match self.inner {
            SockInner::InetConnected { handle } => {
                tcp_drop(net, handle);
            },
            SockInner::InetListening { handle } => {
                tcp_drop(net, handle);
            },
            _ => {},
        }
    }
}

/// Readiness for input and output, and hang-up.
pub open spec fn bits(input: bool, output: bool, ended: bool) -> u32 {
    let i = if input {
        POLLIN as int
    } else {
        0
    };
    let o = if output {
        POLLOUT as int
    } else {
        0
    };
    let h = if ended {
        POLLHUP as int
    } else {
        0
    };
    (i + o + h) as u32
}

/// A connection is readable with data, or when the peer has closed it; it is
/// writable while established. Sockets that are not connected never wait.
pub open spec fn readiness_spec(s: Socket, net: NetState, readable: bool, writable: bool) -> u32 {
    match s.inner {
        SockInner::UnixPair { .. } => bits(readable, writable, false),
        SockInner::InetConnected { handle } => {
            let data = pending_of(net.stack, handle) > 0;
            let st = state_of(net.stack, handle);
            let ended = st is CloseWait || st is Closed || st is LastAck;
            bits(data || ended, st is Established, ended || st is TimeWait)
        },
        SockInner::InetListening { .. } => POLLIN,
        _ => bits(true, true, false),
    }
}

/// What the bits of a readiness mean, in every state. Bit 0, for input: received
/// bytes wait, or the peer has closed, or a connection may wait to be accepted.
/// Bit 2, for output: the connection is established. Bit 4: it has ended. No other
/// bit is set.
pub proof fn readiness_bits(s: Socket, net: NetState, readable: bool, writable: bool)
    ensures
        ({
            let r = readiness_spec(s, net, readable, writable);
            &&& r & !0x15u32 == 0
            &&& match s.inner {
                SockInner::InetConnected { handle } => {
                    let st = state_of(net.stack, handle);
                    &&& pending_of(net.stack, handle) > 0 ==> r & 1 != 0
                    &&& st == TcpState::CloseWait || st == TcpState::Closed || st
                        == TcpState::LastAck ==> r & 1 != 0 && r & 0x10 != 0
                    &&& r & 1 != 0 ==> pending_of(net.stack, handle) > 0 || st
                        == TcpState::CloseWait || st == TcpState::Closed || st == TcpState::LastAck
                    &&& r & 4 != 0 <==> st == TcpState::Established
                    &&& st == TcpState::TimeWait ==> r & 0x10 != 0
                    &&& st == TcpState::Established || st == TcpState::SynSent || st
                        == TcpState::SynReceived ==> r & 0x10 == 0
                },
                SockInner::InetListening { .. } => r & 1 != 0 && r & 4 == 0,
                SockInner::UnixPair { .. } => (r & 1 != 0 <==> readable) && (r & 4 != 0
                    <==> writable) && r & 0x10 == 0,
                _ => r & 1 != 0 && r & 4 != 0,
            }
        }),
{
    let r = readiness_spec(s, net, readable, writable);
    assert(r == 0 || r == 1 || r == 4 || r == 5 || r == 0x10 || r == 0x11 || r == 0x14 || r
        == 0x15);
    crate::flags::small_bits(r);
}

/// Readiness tells what the next call finds. Where receiving would give bytes the
/// connection is told readable, and where it is told readable receiving does not
/// have to wait; where it is told writable, sending does not fail for good.
pub proof fn told_is_found(
    s: Socket,
    handle: TcpHandle,
    net: NetState,
    buf: Seq<u8>,
    x: Result<usize, ErrnoKind>,
    net1: NetState,
    filled: Seq<u8>,
    data: Seq<u8>,
    y: Result<usize, ErrnoKind>,
    net2: NetState,
)
    requires
        net.wf(),
        s.inner == (SockInner::InetConnected { handle }),
        net_recv(net, handle, buf, x, net1, filled),
        net_send(net, handle, data, y, net2),
    ensures
        ({
            let r = readiness_spec(s, net, false, false);
            &&& x is Ok && x->Ok_0 > 0 ==> r & 1 != 0
            &&& r & 1 != 0 ==> x != Err::<usize, ErrnoKind>(ErrnoKind::Again)
            &&& r & 4 != 0 ==> y != Err::<usize, ErrnoKind>(ErrnoKind::Closed)
            &&& y is Ok && y->Ok_0 > 0 && state_of(net.stack, handle) == TcpState::Established ==> r
                & 4 != 0
        }),
{
    readiness_bits(s, net, false, false);
}

pub open spec fn local_spec(s: Socket, net: NetState) -> Option<(Ip, u16)> {
    match s.inner {
        SockInner::InetConnected { handle } => local_of(net.stack, handle),
        SockInner::InetListening { handle } => local_of(net.stack, handle),
        _ => None,
    }
}

pub open spec fn peer_spec(s: Socket, net: NetState) -> Option<(Ip, u16)> {
    match s.inner {
        SockInner::InetConnected { handle } => peer_of(net.stack, handle),
        _ => None,
    }
}

/// Every socket file refers to a socket of the list.
pub open spec fn socks_ok(files: Seq<File>, socks: Seq<Socket>) -> bool {
    forall|i: int|
        0 <= i < files.len() ==> match (#[trigger] files[i]).obj {
            FileObj::Socket(k) => k < socks.len(),
            _ => true,
        }
}

/// The socket of a descriptor.
pub open spec fn sock_spec(p: Process, files: Seq<File>, fd: i32) -> Result<usize, i32> {
    if !is_open(p, fd as int) {
        Err(EBADF)
    } else {
        match files[file_at(p, fd as int)].obj {
            FileObj::Socket(k) => Ok(k),
            _ => Err(ENOTSOCK),
        }
    }
}

pub fn get_sock(p: &Process, files: &Vec<File>, fd: i32) -> (r: Result<usize, i32>)
    requires
        p.files_ok(files@),
    ensures
        r == sock_spec(*p, files@, fd),
        r is Ok ==> 0 <= file_at(*p, fd as int) < files@.len(),
{
    match p.fds.get(fd) {
        Ok(f) => {
            assert(open_fd(p.fds.entries@, fd as int));
            match files[f].obj {
                FileObj::Socket(k) => Ok(k),
                _ => Err(ENOTSOCK),
            }
        },
        Err(e) => Err(e),
    }
}

/// An internet address as user memory describes it.
#[derive(Clone, Copy, PartialEq, Eq, Debug)]
pub struct Addr {
    pub ip: Ip,
    pub port: u16,
    pub family: u16,
}

/// What reading the address at a place in memory gives. Of other families only
/// the family is read.
pub open spec fn parsed(m: Map<int, u8>, at: usize, len: usize, r: Result<Addr, i32>) -> bool {
    let family = num_at(m, at as int, 2) as u16;
    let a = at as int;
    if at == 0 || len < 8 {
        r is Err && r->Err_0 == EINVAL
    } else if !mapped(m, a, capped(len, 16)) {
        r is Err && r->Err_0 == EFAULT
    } else {
        &&& r is Ok
        &&& r->Ok_0.family == family
        &&& if family != AF_INET {
            r->Ok_0.ip@ == seq![0u8, 0, 0, 0] && r->Ok_0.port == 0
        } else {
            r->Ok_0.ip@ == bytes_at(m, a + 4, 4) && r->Ok_0.port == m[a + 2] * 256 + m[a + 3]
        }
    }
}

pub fn parse_sockaddr(mem: &UserMem, addr: usize, len: usize) -> (r: Result<Addr, i32>)
    ensures
        parsed(mem@, addr, len, r),
{
    if addr == 0 || len < 8 {
        return Err(EINVAL);
    }
    let n: usize = if len < 16 {
        len
    } else {
        16
    };
    let b: Vec<u8> = match mem.copy_from_user(addr, n) {
        Ok(b) => b,
        Err(e) => {
            return Err(e);
        },
    };
    let family: u16 = field(&b, 0, 2, Ghost(mem@), Ghost(addr as int)) as u16;
    if family != AF_INET {
        let ip: Ip = [0, 0, 0, 0];
        assert(ip@ =~= seq![0u8, 0, 0, 0]);
        return Ok(Addr { ip, port: 0, family });
    }
    let port: u16 = b[2] as u16 * 256 + b[3] as u16;
    let ip: Ip = [b[4], b[5], b[6], b[7]];
    assert(ip@ =~= bytes_at(mem@, addr + 4, 4));
    Ok(Addr { ip, port, family })
}

/// An internet address in memory: the family, then port and address with the
/// most significant byte first.
pub open spec fn addr_bytes(ip: Ip, port: u16) -> Seq<u8> {
    le(AF_INET as nat, 2) + seq![(port / 256) as u8, (port % 256) as u8] + ip@ + zeros(8)
}

/// An address and its size, for two places in memory; nothing where one of them
/// is null.
pub open spec fn addr_outs(addr: usize, addrlen: usize, ip: Ip, port: u16) -> Seq<OutView> {
    if addr == 0 || addrlen == 0 {
        no_outs()
    } else {
        seq![out(addr, addr_bytes(ip, port)), out(addrlen, le(16, 4))]
    }
}

fn sockaddr_outs(addr: usize, addrlen: usize, ip: Ip, port: u16) -> (l: Vec<Out>)
    ensures
        views(l@) == addr_outs(addr, addrlen, ip, port),
{
    let mut l: Vec<Out> = Vec::new();
    if addr != 0 && addrlen != 0 {
        let mut b: Vec<u8> = Vec::new();
        put_le(&mut b, AF_INET as u64, 2);
        b.push((port / 256) as u8);
        b.push((port % 256) as u8);
        b.push(ip[0]);
        b.push(ip[1]);
        b.push(ip[2]);
        b.push(ip[3]);
        put_zeros(&mut b, 8);
        proof {
            lemma_le_len(AF_INET as nat, 2);
            assert(b@ =~= addr_bytes(ip, port));
        }
        l.push(bytes_out(addr, b));
        l.push(bytes_out(addrlen, crate::bytes::le_bytes(16, 4)));
    }
    proof {
        assert(views(l@) =~= addr_outs(addr, addrlen, ip, port));
    }
    l
}

/// Tells an address. Null pointers are passed over.
pub fn write_sockaddr(mem: &mut UserMem, addr: usize, addrlen: usize, ip: Ip, port: u16) -> (r: Result<
    (),
    i32,
>)
    ensures
        (r is Ok, final(mem)@) == store_all(old(mem)@, addr_outs(addr, addrlen, ip, port)),
        r is Err ==> r->Err_0 == EFAULT,
{
    let l: Vec<Out> = sockaddr_outs(addr, addrlen, ip, port);
    store_each(mem, &l)
}

/// The file of a new socket.
pub open spec fn sock_file(k: usize, ty: u32) -> File {
    File {
        obj: FileObj::Socket(k),
        status: if ty & SOCK_NONBLOCK != 0 {
            O_NONBLOCK
        } else {
            0
        },
        cloexec: ty & SOCK_CLOEXEC != 0,
    }
}

fn new_file(k: usize, ty: u32) -> (r: File)
    ensures
        r == sock_file(k, ty),
{
    File {
        obj: FileObj::Socket(k),
        status: if ty & SOCK_NONBLOCK != 0 {
            O_NONBLOCK
        } else {
            0
        },
        cloexec: ty & SOCK_CLOEXEC != 0,
    }
}

/// A socket joins the list, and a file for it gets a descriptor.
pub open spec fn sock_opened(
    a: Process,
    l: Seq<File>,
    s: Seq<Socket>,
    f: File,
    x: Socket,
    r: Result<i32, i32>,
    b: Process,
    k: Seq<File>,
    t: Seq<Socket>,
) -> bool {
    opened(a, l, f, r, b, k) && t == s.push(x)
}

fn open_sock(p: &mut Process, files: &mut Vec<File>, socks: &mut Vec<Socket>, ty: u32, x: Socket) -> (r:
    Result<i32, i32>)
    requires
        old(p).wf(),
        old(p).files_ok(old(files)@),
        socks_ok(old(files)@, old(socks)@),
    ensures
        final(p).wf(),
        final(p).files_ok(final(files)@),
        socks_ok(final(files)@, final(socks)@),
        sock_opened(
            *old(p),
            old(files)@,
            old(socks)@,
            sock_file(old(socks)@.len() as usize, ty),
            x,
            r,
            *final(p),
            final(files)@,
            final(socks)@,
        ),
        r is Ok ==> r->Ok_0 >= 0,
{
    let k: usize = socks.len();
    let ghost l = files@;
    let ghost s = socks@;
    socks.push(x);
    let f: File = new_file(k, ty);
    let r: Result<i32, i32> = open_file(p, files, f);
    proof {
        assert forall|i: int| 0 <= i < files@.len() implies match (#[trigger] files@[i]).obj {
            FileObj::Socket(k) => k < socks@.len(),
            _ => true,
        } by {
            if i < l.len() {
                assert(files@[i] == l[i]);
            }
        }
    }
    r
}

/// The socket that a domain and a type ask for. Only streams are known.
pub open spec fn socket_kind(domain: usize, ty: u32) -> Result<Socket, i32> {
    let d = domain as u16;
    if d != AF_INET && d != AF_UNIX {
        Err(EAFNOSUPPORT)
    } else if ty & 0xf != SOCK_STREAM {
        Err(EPROTONOSUPPORT)
    } else if d == AF_INET {
        Ok(Socket { inner: SockInner::InetIdle })
    } else {
        Ok(Socket { inner: SockInner::Unconnected { domain: AF_UNIX, ty: ty & 0xf } })
    }
}

/// Opens a socket.
pub fn sys_socket(p: &mut Process, files: &mut Vec<File>, socks: &mut Vec<Socket>, domain: usize, ty: u32) -> (r:
    SysResult)
    requires
        old(p).wf(),
        old(p).files_ok(old(files)@),
        socks_ok(old(files)@, old(socks)@),
    ensures
        final(p).wf(),
        final(p).files_ok(final(files)@),
        socks_ok(final(files)@, final(socks)@),
        match socket_kind(domain, ty) {
            Err(e) => r == err(e) && *final(p) == *old(p) && final(files)@ == old(files)@
                && final(socks)@ == old(socks)@,
            Ok(x) => exists|o: Result<i32, i32>|
                #[trigger] sock_opened(
                    *old(p),
                    old(files)@,
                    old(socks)@,
                    sock_file(old(socks)@.len() as usize, ty),
                    x,
                    o,
                    *final(p),
                    final(files)@,
                    final(socks)@,
                ) && r == fd_result(o),
        },
{
    let base_ty: u32 = ty & 0xf;
    let sock: Socket = match domain as u16 {
        AF_INET => Socket::new_inet(),
        AF_UNIX => Socket::new_unconnected(AF_UNIX, base_ty),
        _ => {
            return Err(EAFNOSUPPORT);
        },
    };
    if base_ty != SOCK_STREAM {
        return Err(EPROTONOSUPPORT);
    }
    let ghost p0 = *p;
    let ghost l0 = files@;
    let ghost s0 = socks@;
    let o: Result<i32, i32> = open_sock(p, files, socks, ty, sock);
    assert(sock_opened(
        p0,
        l0,
        s0,
        sock_file(s0.len() as usize, ty),
        sock,
        o,
        *p,
        files@,
        socks@,
    ));
    match o {
        Ok(fd) => Ok(fd as usize),
        Err(e) => Err(e),
    }
}

/// Opens a pair of local sockets over two new pipes, each reading what the
/// other writes, and tells their descriptors.
pub fn sys_socketpair(
    p: &mut Process,
    files: &mut Vec<File>,
    socks: &mut Vec<Socket>,
    mem: &mut UserMem,
    domain: usize,
    ty: u32,
    sv: usize,
    pipes: (usize, usize),
) -> (r: SysResult)
    requires
        old(p).wf(),
        old(p).files_ok(old(files)@),
        socks_ok(old(files)@, old(socks)@),
    ensures
        final(p).wf(),
        final(p).files_ok(final(files)@),
        socks_ok(final(files)@, final(socks)@),
        domain as u16 != AF_UNIX ==> r == err(EAFNOSUPPORT) && *final(p) == *old(p)
            && final(files)@ == old(files)@ && final(socks)@ == old(socks)@ && final(mem)@ == old(
            mem,
        )@,
        domain as u16 == AF_UNIX ==> pair_post(
            ty,
            sv,
            pipes,
            PairScene { p: *old(p), files: old(files)@, socks: old(socks)@, mem: old(mem)@ },
            r,
            PairScene {
                p: *final(p),
                files: final(files)@,
                socks: final(socks)@,
                mem: final(mem)@,
            },
        ),
{
    if domain as u16 != AF_UNIX {
        return Err(EAFNOSUPPORT);
    }
    let ghost x = PairScene { p: *p, files: files@, socks: socks@, mem: mem@ };
    let s0: Socket = Socket::new_unix_pair(pipes.0, pipes.1);
    let s1: Socket = Socket::new_unix_pair(pipes.1, pipes.0);
    let a: Result<i32, i32> = open_sock(p, files, socks, ty, s0);
    let ghost mid = PairScene { p: *p, files: files@, socks: socks@, mem: mem@ };
    proof {
        assert(opens(x, ty, s0, a, mid));
    }
    let fd0: i32 = match a {
        Ok(fd) => fd,
        Err(e) => {
            return Err(e);
        },
    };
    let b: Result<i32, i32> = open_sock(p, files, socks, ty, s1);
    let ghost last = PairScene { p: *p, files: files@, socks: socks@, mem: mem@ };
    proof {
        assert(opens(mid, ty, s1, b, last));
    }
    let fd1: i32 = match b {
        Ok(fd) => fd,
        Err(e) => {
            return Err(e);
        },
    };
    let mut v: Vec<u8> = Vec::new();
    put_le(&mut v, fd0 as u64, 4);
    put_le(&mut v, fd1 as u64, 4);
    proof {
        lemma_le_len(fd0 as nat, 4);
        lemma_le_len(fd1 as nat, 4);
        assert(v@ =~= le(fd0 as nat, 4) + le(fd1 as nat, 4));
    }
    match mem.copy_to_user(sv, &v) {
        Ok(_) => Ok(0),
        Err(e) => Err(e),
    }
}

/// What opening sockets can change.
pub struct PairScene {
    pub p: Process,
    pub files: Seq<File>,
    pub socks: Seq<Socket>,
    pub mem: Map<int, u8>,
}

pub open spec fn opens(a: PairScene, ty: u32, x: Socket, r: Result<i32, i32>, b: PairScene) -> bool {
    &&& b.mem == a.mem
    &&& sock_opened(
        a.p,
        a.files,
        a.socks,
        sock_file(a.socks.len() as usize, ty),
        x,
        r,
        b.p,
        b.files,
        b.socks,
    )
}

pub open spec fn pair_socket(rx: usize, tx: usize) -> Socket {
    Socket { inner: SockInner::UnixPair { rx, tx } }
}

/// The first socket is opened, then the second; then the descriptors are
/// stored. What was opened before a failure stays open.
pub open spec fn pair_post(
    ty: u32,
    sv: usize,
    pipes: (usize, usize),
    x: PairScene,
    r: SysResult,
    y: PairScene,
) -> bool {
    exists|mid: PairScene, a: Result<i32, i32>|
        {
            &&& #[trigger] opens(x, ty, pair_socket(pipes.0, pipes.1), a, mid)
            &&& match a {
                Err(e) => r == err(e) && y == mid,
                Ok(fd0) => exists|last: PairScene, b: Result<i32, i32>|
                    {
                        &&& #[trigger] opens(mid, ty, pair_socket(pipes.1, pipes.0), b, last)
                        &&& y == (PairScene { mem: y.mem, ..last })
                        &&& match b {
                            Err(e) => r == err(e) && y.mem == x.mem,
                            Ok(fd1) => if mapped(x.mem, sv as int, 8) {
                                r == ok(0) && y.mem == stored(
                                    x.mem,
                                    sv as int,
                                    le(fd0 as nat, 4) + le(fd1 as nat, 4),
                                )
                            } else {
                                r == err(EFAULT) && y.mem == x.mem
                            },
                        }
                    },
            }
        }
}

/// The sockets with one of them in another state.
pub open spec fn with_inner(s: Seq<Socket>, k: int, inner: SockInner) -> Seq<Socket> {
    s.update(k, Socket { inner })
}

/// Listening on a port for socket `k`: whatever stands against it, the address
/// is told to be in use.
pub open spec fn listened(
    k: usize,
    port: u16,
    a: NetState,
    s: Seq<Socket>,
    r: SysResult,
    b: NetState,
    t: Seq<Socket>,
) -> bool {
    exists|x: Result<TcpHandle, &'static str>|
        #[trigger] net_listen(a, port, x, b) && match x {
            Ok(handle) => r == ok(0) && t == with_inner(
                s,
                k as int,
                SockInner::InetListening { handle },
            ),
            Err(_) => r == err(EADDRINUSE) && t == s,
        }
}

fn start_listening(net: &mut NetState, socks: &mut Vec<Socket>, k: usize, port: u16) -> (r: SysResult)
    requires
        old(net).wf(),
        k < old(socks)@.len(),
    ensures
        final(net).wf(),
        final(socks)@.len() == old(socks)@.len(),
        listened(k, port, *old(net), old(socks)@, r, *final(net), final(socks)@),
{
    let x: Result<TcpHandle, &'static str> = tcp_listen(net, port);
    assert(net_listen(*old(net), port, x, *net));
    match x {
        Ok(handle) => {
            socks.set(k, Socket { inner: SockInner::InetListening { handle } });
            Ok(0)
        },
        Err(_) => Err(EADDRINUSE),
    }
}

/// Binds a socket to a port, which starts to listen at once.
pub fn sys_bind(
    p: &Process,
    files: &Vec<File>,
    socks: &mut Vec<Socket>,
    net: &mut NetState,
    mem: &UserMem,
    fd: i32,
    addr: usize,
    len: usize,
) -> (r: SysResult)
    requires
        p.files_ok(files@),
        socks_ok(files@, old(socks)@),
        old(net).wf(),
    ensures
        final(net).wf(),
        socks_ok(files@, final(socks)@),
        bind_post(
            sock_spec(*p, files@, fd),
            mem@,
            addr,
            len,
            *old(net),
            old(socks)@,
            r,
            *final(net),
            final(socks)@,
        ),
{
    let k: usize = match get_sock(p, files, fd) {
        Ok(k) => k,
        Err(e) => {
            return Err(e);
        },
    };
    let x: Result<Addr, i32> = parse_sockaddr(mem, addr, len);
    proof {
        assert(parsed(mem@, addr, len, x));
    }
    match x {
        Err(e) => Err(e),
        Ok(a) => {
            if a.family != AF_INET {
                return Err(EAFNOSUPPORT);
            }
            start_listening(net, socks, k, a.port)
        },
    }
}

pub open spec fn bind_post(
    sock: Result<usize, i32>,
    m: Map<int, u8>,
    addr: usize,
    len: usize,
    a: NetState,
    s: Seq<Socket>,
    r: SysResult,
    b: NetState,
    t: Seq<Socket>,
) -> bool {
    match sock {
        Err(e) => r == err(e) && b == a && t == s,
        Ok(k) => exists|x: Result<Addr, i32>|
            #[trigger] parsed(m, addr, len, x) && match x {
                Err(e) => r == err(e) && b == a && t == s,
                Ok(y) => if y.family != AF_INET {
                    r == err(EAFNOSUPPORT) && b == a && t == s
                } else {
                    listened(k, y.port, a, s, r, b, t)
                },
            },
    }
}

/// Makes a socket listen; one that is not bound gets a port.
pub fn sys_listen(
    p: &Process,
    files: &Vec<File>,
    socks: &mut Vec<Socket>,
    net: &mut NetState,
    fd: i32,
) -> (r: SysResult)
    requires
        p.files_ok(files@),
        socks_ok(files@, old(socks)@),
        old(net).wf(),
    ensures
        final(net).wf(),
        socks_ok(files@, final(socks)@),
        match sock_spec(*p, files@, fd) {
            Err(e) => r == err(e) && *final(net) == *old(net) && final(socks)@ == old(socks)@,
            Ok(k) => if old(socks)@[k as int].inner is InetListening {
                r == ok(0) && *final(net) == *old(net) && final(socks)@ == old(socks)@
            } else {
                listened(k, 0, *old(net), old(socks)@, r, *final(net), final(socks)@)
            },
        },
{
    let k: usize = match get_sock(p, files, fd) {
        Ok(k) => k,
        Err(e) => {
            return Err(e);
        },
    };
    if socks[k].is_listening() {
        return Ok(0);
    }
    start_listening(net, socks, k, 0)
}

/// Whether a file must not block.
pub open spec fn nonblocking(p: Process, files: Seq<File>, fd: i32) -> bool {
    files[file_at(p, fd as int)].status & O_NONBLOCK != 0
}

fn is_nonblocking(p: &Process, files: &Vec<File>, fd: i32) -> (r: bool)
    requires
        p.files_ok(files@),
        is_open(*p, fd as int),
    ensures
        r == nonblocking(*p, files@, fd),
{
    match p.fds.get(fd) {
        Ok(f) => {
            assert(open_fd(p.fds.entries@, fd as int));
            files[f].status & O_NONBLOCK != 0
        },
        Err(_) => false,
    }
}

/// What waiting comes to for a socket that has nothing yet.
pub open spec fn wait_step(nonblock: bool, interrupted: bool) -> IoStep {
    if nonblock {
        IoStep::Done(err(EAGAIN))
    } else if interrupted {
        IoStep::Done(err(EINTR))
    } else {
        IoStep::Sleep
    }
}

fn waits(nonblock: bool, interrupted: bool) -> (r: IoStep)
    ensures
        r == wait_step(nonblock, interrupted),
{
    if nonblock {
        return IoStep::Done(Err(EAGAIN));
    }
    if interrupted {
        return IoStep::Done(Err(EINTR));
    }
    IoStep::Sleep
}

/// The type flags of a file that must not block.
pub open spec fn accept_ty(nonblock: bool) -> u32 {
    if nonblock {
        SOCK_NONBLOCK
    } else {
        0
    }
}

/// The effect of accepting a connection that has come.
pub open spec fn accepted_post(
    x: PairScene,
    addr: usize,
    addrlen: usize,
    nonblock: bool,
    got: (TcpHandle, Ip, u16),
    a: NetState,
    r: SysResult,
    y: PairScene,
    b: NetState,
) -> bool {
    let l = if addr != 0 {
        addr_outs(addr, addrlen, got.1, got.2)
    } else {
        no_outs()
    };
    let s = store_all(x.mem, l);
    &&& y.mem == s.1
    &&& if !s.0 {
        r == err(EFAULT) && b == a && y == (PairScene { mem: y.mem, ..x })
    } else {
        exists|o: Result<i32, i32>, z: PairScene|
            {
                &&& #[trigger] opens(
                    x,
                    accept_ty(nonblock),
                    Socket { inner: SockInner::InetConnected { handle: got.0 } },
                    o,
                    z,
                )
                &&& y == (PairScene { mem: y.mem, ..z })
                &&& r == fd_result(o)
                &&& if o is Ok {
                    b == a
                } else {
                    net_drop(a, got.0, b)
                }
            }
    }
}

/// One attempt to accept a connection. The peer's address is told first; a
/// connection for which there is no descriptor is dropped.
pub fn sys_accept(
    p: &mut Process,
    files: &mut Vec<File>,
    socks: &mut Vec<Socket>,
    net: &mut NetState,
    mem: &mut UserMem,
    fd: i32,
    addr: usize,
    addrlen: usize,
    nonblock: bool,
) -> (r: IoStep)
    requires
        old(p).wf(),
        old(p).files_ok(old(files)@),
        socks_ok(old(files)@, old(socks)@),
        old(net).wf(),
    ensures
        final(p).wf(),
        final(p).files_ok(final(files)@),
        socks_ok(final(files)@, final(socks)@),
        final(net).wf(),
        ({
            let x = PairScene {
                p: *old(p),
                files: old(files)@,
                socks: old(socks)@,
                mem: old(mem)@,
            };
            let y = PairScene {
                p: *final(p),
                files: final(files)@,
                socks: final(socks)@,
                mem: final(mem)@,
            };
            match sock_spec(x.p, x.files, fd) {
                Err(e) => r == IoStep::Done(err(e)) && y == x && *final(net) == *old(net),
                Ok(k) => match x.socks[k as int].inner {
                    SockInner::InetListening { handle } => exists|
                        g: Result<Option<(TcpHandle, Ip, u16)>, &'static str>,
                        mid: NetState,
                    |
                        #[trigger] net_accept(*old(net), handle, g, mid) && match g {
                            Err(_) => r == IoStep::Done(err(EINVAL)) && y == x && *final(net)
                                == mid,
                            Ok(None) => y == x && *final(net) == mid && r == wait_step(
                                nonblock || nonblocking(x.p, x.files, fd),
                                x.p.interrupted(),
                            ),
                            Ok(Some(got)) => r is Done && accepted_post(
                                x,
                                addr,
                                addrlen,
                                nonblock,
                                got,
                                mid,
                                r->Done_0,
                                y,
                                *final(net),
                            ),
                        },
                    _ => r == IoStep::Done(err(EINVAL)) && y == x && *final(net) == *old(net),
                },
            }
        }),
{
    let k: usize = match get_sock(p, files, fd) {
        Ok(k) => k,
        Err(e) => {
            return IoStep::Done(Err(e));
        },
    };
    let handle: TcpHandle = match socks[k].inner {
        SockInner::InetListening { handle } => handle,
        _ => {
            return IoStep::Done(Err(EINVAL));
        },
    };
    let fnonblock: bool = is_nonblocking(p, files, fd);
    let g: Result<Option<(TcpHandle, Ip, u16)>, &'static str> = tcp_accept(net, handle);
    let ghost mid = *net;
    proof {
        assert(net_accept(*old(net), handle, g, mid));
    }
    let ghost x = PairScene { p: *p, files: files@, socks: socks@, mem: mem@ };
    match g {
        Err(_) => IoStep::Done(Err(EINVAL)),
        Ok(None) => waits(nonblock || fnonblock, p.is_interrupted()),
        Ok(Some(got)) => {
            if addr != 0 {
                match write_sockaddr(mem, addr, addrlen, got.1, got.2) {
                    Ok(_) => {},
                    Err(e) => {
                        return IoStep::Done(Err(e));
                    },
                }
            }
            let ty: u32 = if nonblock {
                SOCK_NONBLOCK
            } else {
                0
            };
            let o: Result<i32, i32> = open_sock(
                p,
                files,
                socks,
                ty,
                Socket::new_connected(got.0),
            );
            proof {
                let z = PairScene { p: *p, files: files@, socks: socks@, mem: x.mem };
                assert(opens(
                    x,
                    accept_ty(nonblock),
                    Socket { inner: SockInner::InetConnected { handle: got.0 } },
                    o,
                    z,
                ));
            }
            match o {
                Ok(fd) => IoStep::Done(Ok(fd as usize)),
                Err(e) => {
                    tcp_drop(net, got.0);
                    assert(net_drop(mid, got.0, *net));
                    IoStep::Done(Err(e))
                },
            }
        },
    }
}

/// Starts to connect a socket; gives the handle of the connection. There are no
/// local sockets to connect to.
pub fn sys_connect(
    p: &Process,
    files: &Vec<File>,
    socks: &mut Vec<Socket>,
    net: &mut NetState,
    mem: &UserMem,
    fd: i32,
    addr: usize,
    len: usize,
) -> (r: Result<TcpHandle, i32>)
    requires
        p.files_ok(files@),
        socks_ok(files@, old(socks)@),
        old(net).wf(),
    ensures
        final(net).wf(),
        socks_ok(files@, final(socks)@),
        match sock_spec(*p, files@, fd) {
            Err(e) => r == Err::<TcpHandle, i32>(e) && *final(net) == *old(net) && final(socks)@
                == old(socks)@,
            Ok(k) => exists|x: Result<Addr, i32>|
                #[trigger] parsed(mem@, addr, len, x) && match x {
                    Err(e) => r == Err::<TcpHandle, i32>(e) && *final(net) == *old(net)
                        && final(socks)@ == old(socks)@,
                    Ok(y) => if y.family != AF_INET {
                        r == Err::<TcpHandle, i32>(
                            if y.family == AF_UNIX {
                                ENOENT
                            } else {
                                EAFNOSUPPORT
                            },
                        ) && *final(net) == *old(net) && final(socks)@ == old(socks)@
                    } else {
                        exists|h: Result<TcpHandle, &'static str>|
                            #[trigger] net_connect(*old(net), y.ip, y.port, h, *final(net))
                                && match h {
                                Err(_) => r == Err::<TcpHandle, i32>(ENETUNREACH) && final(socks)@
                                    == old(socks)@,
                                Ok(handle) => r == Ok::<TcpHandle, i32>(handle) && final(socks)@
                                    == with_inner(
                                    old(socks)@,
                                    k as int,
                                    SockInner::InetConnected { handle },
                                ),
                            }
                    },
                },
        },
{
    let k: usize = match get_sock(p, files, fd) {
        Ok(k) => k,
        Err(e) => {
            return Err(e);
        },
    };
    let x: Result<Addr, i32> = parse_sockaddr(mem, addr, len);
    proof {
        assert(parsed(mem@, addr, len, x));
    }
    let y: Addr = match x {
        Err(e) => {
            return Err(e);
        },
        Ok(y) => y,
    };
    if y.family == AF_UNIX {
        return Err(ENOENT);
    }
    if y.family != AF_INET {
        return Err(EAFNOSUPPORT);
    }
    let h: Result<TcpHandle, &'static str> = tcp_connect(net, y.ip, y.port);
    proof {
        assert(net_connect(*old(net), y.ip, y.port, h, *net));
    }
    match h {
        Err(_) => Err(ENETUNREACH),
        Ok(handle) => {
            socks.set(k, Socket { inner: SockInner::InetConnected { handle } });
            Ok(handle)
        },
    }
}

/// One look at a connection that is being set up.
pub fn connect_round(net: &NetState, handle: TcpHandle, nonblock: bool, interrupted: bool) -> (r: IoStep)
    requires
        net.wf(),
    ensures
        ({
            let st = state_of(net.stack, handle);
            r == (if st is Established {
                IoStep::Done(ok(0))
            } else if st is Closed || st is TimeWait {
                IoStep::Done(err(ECONNREFUSED))
            } else if nonblock {
                IoStep::Done(err(EINPROGRESS))
            } else if interrupted {
                IoStep::Done(err(EINTR))
            } else {
                IoStep::Sleep
            })
        }),
{
    match tcp_state(net, handle) {
        TcpState::Established => {
            return IoStep::Done(Ok(0));
        },
        TcpState::Closed | TcpState::TimeWait => {
            return IoStep::Done(Err(ECONNREFUSED));
        },
        _ => {},
    }
    if nonblock {
        return IoStep::Done(Err(EINPROGRESS));
    }
    if interrupted {
        return IoStep::Done(Err(EINTR));
    }
    IoStep::Sleep
}

/// Tells the address of a socket; one without an address has ours and port 0.
pub fn sys_getsockname(
    p: &Process,
    files: &Vec<File>,
    socks: &Vec<Socket>,
    net: &NetState,
    mem: &mut UserMem,
    fd: i32,
    addr: usize,
    addrlen: usize,
) -> (r: SysResult)
    requires
        p.files_ok(files@),
        socks_ok(files@, socks@),
        net.wf(),
    ensures
        match sock_spec(*p, files@, fd) {
            Err(e) => r == err(e) && final(mem)@ == old(mem)@,
            Ok(k) => match local_spec(socks@[k as int], *net) {
                Some(a) => replied(old(mem)@, addr_outs(addr, addrlen, a.0, a.1), 0, r, final(mem)@),
                None => replied(
                    old(mem)@,
                    addr_outs(addr, addrlen, GUEST_IP, 0),
                    0,
                    r,
                    final(mem)@,
                ),
            },
        },
{
    let k: usize = match get_sock(p, files, fd) {
        Ok(k) => k,
        Err(e) => {
            return Err(e);
        },
    };
    let (ip, port): (Ip, u16) = match socks[k].local_addr(net) {
        Some(a) => a,
        None => (GUEST_IP, 0),
    };
    let l: Vec<Out> = sockaddr_outs(addr, addrlen, ip, port);
    reply_all(mem, &l, 0)
}

/// Tells the address of the peer of a connection.
pub fn sys_getpeername(
    p: &Process,
    files: &Vec<File>,
    socks: &Vec<Socket>,
    net: &NetState,
    mem: &mut UserMem,
    fd: i32,
    addr: usize,
    addrlen: usize,
) -> (r: SysResult)
    requires
        p.files_ok(files@),
        socks_ok(files@, socks@),
        net.wf(),
    ensures
        match sock_spec(*p, files@, fd) {
            Err(e) => r == err(e) && final(mem)@ == old(mem)@,
            Ok(k) => match peer_spec(socks@[k as int], *net) {
                Some(a) => replied(old(mem)@, addr_outs(addr, addrlen, a.0, a.1), 0, r, final(mem)@),
                None => r == err(ENOTCONN) && final(mem)@ == old(mem)@,
            },
        },
{
    let k: usize = match get_sock(p, files, fd) {
        Ok(k) => k,
        Err(e) => {
            return Err(e);
        },
    };
    match socks[k].peer_addr(net) {
        Some(a) => {
            let l: Vec<Out> = sockaddr_outs(addr, addrlen, a.0, a.1);
            reply_all(mem, &l, 0)
        },
        None => Err(ENOTCONN),
    }
}

/// What sending data on a socket does.
pub open spec fn send_rel(
    s: Socket,
    a: NetState,
    data: Seq<u8>,
    pipe: PipeAnswer,
    r: SysResult,
    b: NetState,
) -> bool {
    match s.inner {
        SockInner::UnixPair { .. } => r == pipe && b == a,
        SockInner::InetConnected { handle } => exists|x: Result<usize, ErrnoKind>|
            #[trigger] net_send(a, handle, data, x, b) && r == send_errno(x),
        _ => r == err(ENOTCONN) && b == a,
    }
}

/// What the pipe of a local socket gave.
pub type PipeData = Result<Vec<u8>, i32>;

/// What receiving `len` bytes at most on a socket gives.
pub open spec fn recv_rel(
    s: Socket,
    a: NetState,
    len: nat,
    pipe: PipeData,
    r: Result<Vec<u8>, i32>,
    b: NetState,
) -> bool {
    match s.inner {
        SockInner::UnixPair { .. } => r == pipe && b == a,
        SockInner::InetConnected { handle } => exists|x: Result<usize, ErrnoKind>, filled: Seq<u8>|
            #[trigger] net_recv(a, handle, zeros(len), x, b, filled) && match recv_errno(x) {
                Ok(n) => r is Ok && r->Ok_0@ == filled.take(n as int),
                Err(e) => r is Err && r->Err_0 == e,
            },
        _ => r is Err && r->Err_0 == ENOTCONN && b == a,
    }
}

impl Socket {
    /// Receives `len` bytes at most.
    pub fn recv_vec(&self, net: &mut NetState, len: usize, pipe: PipeData) -> (r: Result<Vec<u8>, i32>)
        requires
            old(net).wf(),
        ensures
            final(net).wf(),
            recv_rel(*self, *old(net), len as nat, pipe, r, *final(net)),
    {
        match self.inner {
            SockInner::UnixPair { .. } => {
                return pipe;
            },
            _ => {},
        }
        let mut buf: Vec<u8> = Vec::new();
        put_zeros(&mut buf, len);
        proof {
            assert(buf@ =~= zeros(len as nat));
        }
        let r: SysResult = self.recv(net, buf.as_mut_slice(), Ok(0));
        match r {
            Ok(n) => {
                let ghost filled = buf@;
                proof {
                    let handle = self.inner->InetConnected_handle;
                    let x = choose|x: Result<usize, ErrnoKind>|
                        #[trigger] net_recv(*old(net), handle, zeros(len as nat), x, *net, filled)
                            && r == recv_errno(x);
                    assert(net_recv(*old(net), handle, zeros(len as nat), x, *net, filled));
                    assert(n <= filled.len());
                }
                buf.truncate(n);
                proof {
                    assert(buf@ =~= filled.take(n as int));
                }
                Ok(buf)
            },
            Err(e) => Err(e),
        }
    }
}

/// The outcome of an attempt: one that would block makes the caller wait.
pub open spec fn io_step(r: SysResult, nonblock: bool, interrupted: bool) -> IoStep {
    if r == err(EAGAIN) {
        wait_step(nonblock, interrupted)
    } else {
        IoStep::Done(r)
    }
}

fn as_io(r: SysResult, nonblock: bool, interrupted: bool) -> (s: IoStep)
    ensures
        s == io_step(r, nonblock, interrupted),
{
    match r {
        Err(e) => {
            if e == EAGAIN {
                return waits(nonblock, interrupted);
            }
            IoStep::Done(Err(e))
        },
        Ok(n) => IoStep::Done(Ok(n)),
    }
}

/// One attempt to send data.
fn send_once(
    p: &Process,
    files: &Vec<File>,
    socks: &Vec<Socket>,
    net: &mut NetState,
    fd: i32,
    k: usize,
    data: &Vec<u8>,
    pipe: PipeAnswer,
) -> (r: IoStep)
    requires
        p.files_ok(files@),
        old(net).wf(),
        is_open(*p, fd as int),
        k < socks@.len(),
    ensures
        final(net).wf(),
        sent_post(*p, files@, socks@[k as int], fd, data@, pipe, *old(net), r, *final(net)),
{
    let x: SysResult = socks[k].send(net, data, pipe);
    proof {
        assert(send_rel(socks@[k as int], *old(net), data@, pipe, x, *net));
    }
    as_io(x, is_nonblocking(p, files, fd), p.is_interrupted())
}

pub open spec fn sent_post(
    p: Process,
    files: Seq<File>,
    s: Socket,
    fd: i32,
    data: Seq<u8>,
    pipe: PipeAnswer,
    a: NetState,
    r: IoStep,
    b: NetState,
) -> bool {
    exists|x: SysResult|
        #[trigger] send_rel(s, a, data, pipe, x, b) && r == io_step(
            x,
            nonblocking(p, files, fd),
            p.interrupted(),
        )
}

/// One attempt to send data from memory. The address of the receiver is not
/// looked at.
pub fn sys_sendto(
    p: &Process,
    files: &Vec<File>,
    socks: &Vec<Socket>,
    net: &mut NetState,
    mem: &UserMem,
    fd: i32,
    buf: usize,
    len: usize,
    pipe: PipeAnswer,
) -> (r: IoStep)
    requires
        p.files_ok(files@),
        socks_ok(files@, socks@),
        old(net).wf(),
    ensures
        final(net).wf(),
        match sock_spec(*p, files@, fd) {
            Err(e) => r == IoStep::Done(err(e)) && *final(net) == *old(net),
            Ok(k) => {
                let n = capped(len, MAX_IO);
                if mapped(mem@, buf as int, n) {
                    sent_post(
                        *p,
                        files@,
                        socks@[k as int],
                        fd,
                        bytes_at(mem@, buf as int, n),
                        pipe,
                        *old(net),
                        r,
                        *final(net),
                    )
                } else {
                    r == IoStep::Done(err(EFAULT)) && *final(net) == *old(net)
                }
            },
        },
{
    let k: usize = match get_sock(p, files, fd) {
        Ok(k) => k,
        Err(e) => {
            return IoStep::Done(Err(e));
        },
    };
    let n: usize = if len < MAX_IO {
        len
    } else {
        MAX_IO
    };
    match mem.copy_from_user(buf, n) {
        Ok(data) => send_once(p, files, socks, net, fd, k, &data, pipe),
        Err(e) => IoStep::Done(Err(e)),
    }
}

/// What storing received data comes to: the data, then the peer's address where
/// it is asked for and known.
pub open spec fn recvfrom_outs(
    buf: usize,
    data: Seq<u8>,
    addr: usize,
    addrlen: usize,
    peer: Option<(Ip, u16)>,
) -> Seq<OutView> {
    if addr != 0 && peer is Some {
        seq![out(buf, data)] + addr_outs(addr, addrlen, (peer->0).0, (peer->0).1)
    } else {
        seq![out(buf, data)]
    }
}

/// One attempt to receive data into memory.
pub fn sys_recvfrom(
    p: &Process,
    files: &Vec<File>,
    socks: &Vec<Socket>,
    net: &mut NetState,
    mem: &mut UserMem,
    fd: i32,
    buf: usize,
    len: usize,
    addr: usize,
    addrlen: usize,
    pipe: PipeData,
) -> (r: IoStep)
    requires
        p.files_ok(files@),
        socks_ok(files@, socks@),
        old(net).wf(),
    ensures
        final(net).wf(),
        match sock_spec(*p, files@, fd) {
            Err(e) => r == IoStep::Done(err(e)) && *final(net) == *old(net) && final(mem)@ == old(
                mem,
            )@,
            Ok(k) => exists|x: Result<Vec<u8>, i32>|
                #[trigger] recv_rel(
                    socks@[k as int],
                    *old(net),
                    capped(len, MAX_IO) as nat,
                    pipe,
                    x,
                    *final(net),
                ) && match x {
                    Err(e) => final(mem)@ == old(mem)@ && r == io_step(
                        err(e),
                        nonblocking(*p, files@, fd),
                        p.interrupted(),
                    ),
                    Ok(v) => r is Done && replied(
                        old(mem)@,
                        recvfrom_outs(
                            buf,
                            v@,
                            addr,
                            addrlen,
                            peer_spec(socks@[k as int], *final(net)),
                        ),
                        v@.len() as int,
                        r->Done_0,
                        final(mem)@,
                    ),
                },
        },
{
    let k: usize = match get_sock(p, files, fd) {
        Ok(k) => k,
        Err(e) => {
            return IoStep::Done(Err(e));
        },
    };
    let n: usize = if len < MAX_IO {
        len
    } else {
        MAX_IO
    };
    let x: Result<Vec<u8>, i32> = socks[k].recv_vec(net, n, pipe);
    proof {
        assert(recv_rel(
            socks@[k as int],
            *old(net),
            capped(len, MAX_IO) as nat,
            pipe,
            x,
            *net,
        ));
    }
    match x {
        Err(e) => as_io(Err(e), is_nonblocking(p, files, fd), p.is_interrupted()),
        Ok(v) => {
            let got: usize = v.len();
            let ghost data = v@;
            let mut l: Vec<Out> = Vec::new();
            l.push(bytes_out(buf, v));
            let peer: Option<(Ip, u16)> = socks[k].peer_addr(net);
            if addr != 0 {
                match peer {
                    Some(a) => {
                        let mut more: Vec<Out> = sockaddr_outs(addr, addrlen, a.0, a.1);
                        let ghost m = views(more@);
                        let ghost l0 = views(l@);
                        let ghost mq = more@;
                        let ghost lq = l@;
                        l.append(&mut more);
                        proof {
                            assert(l@ =~= lq + mq);
                            assert(views(l@) =~= l0 + m);
                        }
                    },
                    None => {},
                }
            }
            proof {
                assert(views(l@) =~= recvfrom_outs(
                    buf,
                    data,
                    addr,
                    addrlen,
                    peer_spec(socks@[k as int], *net),
                ));
            }
            IoStep::Done(reply_all(mem, &l, got))
        },
    }
}

/// The array of buffers that a message header describes.
pub open spec fn header_iovs(m: Map<int, u8>, hdr: usize) -> Option<Seq<(usize, usize)>> {
    let at = num_at(m, hdr + 16, 8) as usize;
    let n = capped(num_at(m, hdr + 24, 8) as usize, MAX_VEC);
    if mapped(m, hdr as int, 56) && mapped(m, at as int, 16 * n) {
        Some(iovs_at(m, at as int, n))
    } else {
        None
    }
}

pub fn read_msghdr(mem: &UserMem, hdr: usize) -> (r: Result<Vec<(usize, usize)>, i32>)
    ensures
        match header_iovs(mem@, hdr) {
            Some(l) => r is Ok && r->Ok_0@ == l,
            None => r is Err && r->Err_0 == EFAULT,
        },
        r is Ok ==> mapped(mem@, hdr as int, 56),
{
    match mem.copy_from_user(hdr, 56) {
        Ok(b) => {
            let at: u64 = field(&b, 16, 8, Ghost(mem@), Ghost(hdr as int));
            let n: u64 = field(&b, 24, 8, Ghost(mem@), Ghost(hdr as int));
            read_iovs(mem, at as usize, n as usize)
        },
        Err(e) => Err(e),
    }
}

pub open spec fn sendmsg_post(
    p: Process,
    files: Seq<File>,
    socks: Seq<Socket>,
    m: Map<int, u8>,
    fd: i32,
    hdr: usize,
    pipe: PipeAnswer,
    a: NetState,
    r: IoStep,
    b: NetState,
) -> bool {
    match sock_spec(p, files, fd) {
        Err(e) => r == IoStep::Done(err(e)) && b == a,
        Ok(k) => match header_iovs(m, hdr) {
            None => r == IoStep::Done(err(EFAULT)) && b == a,
            Some(l) => match gathered(m, l, 0) {
                None => r == IoStep::Done(err(EFAULT)) && b == a,
                Some(data) => sent_post(p, files, socks[k as int], fd, data, pipe, a, r, b),
            },
        },
    }
}

/// One attempt to send a message from several buffers.
pub fn sys_sendmsg(
    p: &Process,
    files: &Vec<File>,
    socks: &Vec<Socket>,
    net: &mut NetState,
    mem: &UserMem,
    fd: i32,
    hdr: usize,
    pipe: PipeAnswer,
) -> (r: IoStep)
    requires
        p.files_ok(files@),
        socks_ok(files@, socks@),
        old(net).wf(),
    ensures
        final(net).wf(),
        sendmsg_post(*p, files@, socks@, mem@, fd, hdr, pipe, *old(net), r, *final(net)),
{
    let k: usize = match get_sock(p, files, fd) {
        Ok(k) => k,
        Err(e) => {
            return IoStep::Done(Err(e));
        },
    };
    let l: Vec<(usize, usize)> = match read_msghdr(mem, hdr) {
        Ok(l) => l,
        Err(e) => {
            return IoStep::Done(Err(e));
        },
    };
    match gather(mem, &l) {
        Ok(data) => send_once(p, files, socks, net, fd, k, &data, pipe),
        Err(e) => IoStep::Done(Err(e)),
    }
}

/// The end of receiving a message: the data is spread over the buffers, and the
/// header tells that there is no address and no flags.
pub open spec fn message_post(
    m: Map<int, u8>,
    hdr: usize,
    l: Seq<(usize, usize)>,
    data: Seq<u8>,
    r: SysResult,
    n: Map<int, u8>,
) -> bool {
    let s = scattered(m, l, data, 0, 0);
    if s.0 {
        r == ok(data.len() as int) && n == stored(
            stored(s.1, hdr + 8, zeros(4)),
            hdr + 48,
            zeros(4),
        )
    } else {
        r == err(EFAULT) && n == s.1
    }
}

fn message_done(mem: &mut UserMem, hdr: usize, l: &Vec<(usize, usize)>, data: &Vec<u8>) -> (r: SysResult)
    requires
        mapped(old(mem)@, hdr as int, 56),
    ensures
        message_post(old(mem)@, hdr, l@, data@, r, final(mem)@),
{
    match scatter(mem, l, data) {
        Ok(_) => {},
        Err(e) => {
            return Err(e);
        },
    }
    let mut z: Vec<u8> = Vec::new();
    put_zeros(&mut z, 4);
    proof {
        assert(z@ =~= zeros(4));
        assert(mapped(mem@, hdr as int, 56));
        mem.lemma_in_space();
        assert(mem@.dom().contains(hdr + 55));
        lemma_mapped_stored(mem@, hdr + 8, zeros(4));
        assert(mapped(mem@, hdr + 8, 4));
        assert(mapped(mem@, hdr + 48, 4));
    }
    match mem.copy_to_user(hdr + 8, &z) {
        Ok(_) => {},
        Err(e) => {
            return Err(e);
        },
    }
    match mem.copy_to_user(hdr + 48, &z) {
        Ok(_) => {},
        Err(e) => {
            return Err(e);
        },
    }
    Ok(data.len())
}

pub open spec fn recvmsg_post(
    p: Process,
    files: Seq<File>,
    socks: Seq<Socket>,
    m: Map<int, u8>,
    fd: i32,
    hdr: usize,
    pipe: PipeData,
    a: NetState,
    r: IoStep,
    b: NetState,
    n: Map<int, u8>,
) -> bool {
    match sock_spec(p, files, fd) {
        Err(e) => r == IoStep::Done(err(e)) && b == a && n == m,
        Ok(k) => match header_iovs(m, hdr) {
            None => r == IoStep::Done(err(EFAULT)) && b == a && n
                == m,
            Some(l) => if room(l, 0) == 0 {
                r == IoStep::Done(ok(0)) && b == a && n == m
            } else {
                exists|x: Result<Vec<u8>, i32>|
                    #[trigger] recv_rel(
                        socks[k as int],
                        a,
                        used_room(l, MAX_IO),
                        pipe,
                        x,
                        b,
                    ) && match x {
                        Err(e) => n == m && r == io_step(
                            err(e),
                            nonblocking(p, files, fd),
                            p.interrupted(),
                        ),
                        Ok(v) => r is Done && message_post(
                            m,
                            hdr,
                            l,
                            v@,
                            r->Done_0,
                            n,
                        ),
                    }
            },
        },
    }
}

/// One attempt to receive a message into several buffers. Without room nothing
/// is received.
pub fn sys_recvmsg(
    p: &Process,
    files: &Vec<File>,
    socks: &Vec<Socket>,
    net: &mut NetState,
    mem: &mut UserMem,
    fd: i32,
    hdr: usize,
    pipe: PipeData,
) -> (r: IoStep)
    requires
        p.files_ok(files@),
        socks_ok(files@, socks@),
        old(net).wf(),
    ensures
        final(net).wf(),
        recvmsg_post(
            *p,
            files@,
            socks@,
            old(mem)@,
            fd,
            hdr,
            pipe,
            *old(net),
            r,
            *final(net),
            final(mem)@,
        ),
{
    let k: usize = match get_sock(p, files, fd) {
        Ok(k) => k,
        Err(e) => {
            return IoStep::Done(Err(e));
        },
    };
    let l: Vec<(usize, usize)> = match read_msghdr(mem, hdr) {
        Ok(l) => l,
        Err(e) => {
            return IoStep::Done(Err(e));
        },
    };
    let total: usize = room_of(&l, MAX_IO);
    proof {
        lemma_room(l@, 0);
    }
    if total == 0 {
        return IoStep::Done(Ok(0));
    }
    let x: Result<Vec<u8>, i32> = socks[k].recv_vec(net, total, pipe);
    proof {
        assert(recv_rel(socks@[k as int], *old(net), total as nat, pipe, x, *net));
    }
    match x {
        Err(e) => as_io(Err(e), is_nonblocking(p, files, fd), p.is_interrupted()),
        Ok(v) => IoStep::Done(message_done(mem, hdr, &l, &v)),
    }
}

/// How a call on several messages goes on.
#[derive(Clone, Copy, PartialEq, Eq, Debug)]
pub enum MessageStep {
    Done(SysResult),
    /// Go on with the next message, after this many.
    Next(usize),
    /// Sleep a tick and try the same message again.
    Sleep,
}

/// The size of a message's entry, and where in it the length is told.
pub const MMSG_SIZE: usize = 64;

pub const MMSG_LEN: usize = 56;

pub open spec fn counted(
    m: Map<int, u8>,
    at: usize,
    done: usize,
    r: SysResult,
    s: MessageStep,
    n: Map<int, u8>,
) -> bool {
    match r {
        Err(e) => n == m && s == (if done > 0 {
            MessageStep::Done(ok(done as int))
        } else {
            MessageStep::Done(err(e))
        }),
        Ok(k) => if mapped(m, at + MMSG_LEN, 4) {
            s == MessageStep::Next((done + 1) as usize) && n == stored(
                m,
                at + MMSG_LEN,
                le(k as nat, 4),
            )
        } else {
            s == MessageStep::Done(err(EFAULT)) && n == m
        },
    }
}

/// A message of several came to `r`, after `done` of them: its length is told.
/// A failure after the first message only ends the call.
pub fn mmsg_step(mem: &mut UserMem, at: usize, done: usize, r: SysResult) -> (s: MessageStep)
    requires
        at + MMSG_SIZE <= usize::MAX,
        done < usize::MAX,
    ensures
        counted(old(mem)@, at, done, r, s, final(mem)@),
{
    match r {
        Err(e) => {
            if done > 0 {
                MessageStep::Done(Ok(done))
            } else {
                MessageStep::Done(Err(e))
            }
        },
        Ok(n) => match mem.write_num(at + MMSG_LEN, n as u64, 4) {
            Ok(_) => MessageStep::Next(done + 1),
            Err(e) => MessageStep::Done(Err(e)),
        },
    }
}

/// One attempt to send the next of several messages, whose entry is at `at`.
pub fn sys_sendmmsg(
    p: &Process,
    files: &Vec<File>,
    socks: &Vec<Socket>,
    net: &mut NetState,
    mem: &mut UserMem,
    fd: i32,
    at: usize,
    done: usize,
    pipe: PipeAnswer,
) -> (s: MessageStep)
    requires
        p.files_ok(files@),
        socks_ok(files@, socks@),
        old(net).wf(),
        at + MMSG_SIZE <= usize::MAX,
        done < usize::MAX,
    ensures
        final(net).wf(),
        exists|r: IoStep|
            #[trigger] sendmsg_post(
                *p,
                files@,
                socks@,
                old(mem)@,
                fd,
                at,
                pipe,
                *old(net),
                r,
                *final(net),
            ) && match r {
                IoStep::Sleep => s == MessageStep::Sleep && final(mem)@ == old(mem)@,
                IoStep::Done(v) => counted(old(mem)@, at, done, v, s, final(mem)@),
            },
{
    let r: IoStep = sys_sendmsg(p, files, socks, net, mem, fd, at, pipe);
    match r {
        IoStep::Sleep => MessageStep::Sleep,
        IoStep::Done(v) => mmsg_step(mem, at, done, v),
    }
}

/// One attempt to receive the next of several messages, whose entry is at `at`.
pub fn sys_recvmmsg(
    p: &Process,
    files: &Vec<File>,
    socks: &Vec<Socket>,
    net: &mut NetState,
    mem: &mut UserMem,
    fd: i32,
    at: usize,
    done: usize,
    pipe: PipeData,
) -> (s: MessageStep)
    requires
        p.files_ok(files@),
        socks_ok(files@, socks@),
        old(net).wf(),
        at + MMSG_SIZE <= usize::MAX,
        done < usize::MAX,
    ensures
        final(net).wf(),
        exists|r: IoStep, m: Map<int, u8>|
            #[trigger] recvmsg_post(
                *p,
                files@,
                socks@,
                old(mem)@,
                fd,
                at,
                pipe,
                *old(net),
                r,
                *final(net),
                m,
            ) && match r {
                IoStep::Sleep => s == MessageStep::Sleep && final(mem)@ == m,
                IoStep::Done(v) => counted(m, at, done, v, s, final(mem)@),
            },
{
    let r: IoStep = sys_recvmsg(p, files, socks, net, mem, fd, at, pipe);
    match r {
        IoStep::Sleep => MessageStep::Sleep,
        IoStep::Done(v) => mmsg_step(mem, at, done, v),
    }
}

/// Every option is told as zero, in at most 64 bytes.
pub fn sys_getsockopt(
    p: &Process,
    files: &Vec<File>,
    mem: &mut UserMem,
    fd: i32,
    optval: usize,
    optlen: usize,
) -> (r: SysResult)
    requires
        p.files_ok(files@),
    ensures
        ({
            let n = capped(num_at(old(mem)@, optlen as int, 4) as usize, 64);
            match sock_spec(*p, files@, fd) {
                Err(e) => r == err(e) && final(mem)@ == old(mem)@,
                Ok(_) => if optlen == 0 {
                    r == ok(0) && final(mem)@ == old(mem)@
                } else if !mapped(old(mem)@, optlen as int, 4) {
                    r == err(EFAULT) && final(mem)@ == old(mem)@
                } else if optval == 0 {
                    r == ok(0) && final(mem)@ == old(mem)@
                } else if mapped(old(mem)@, optval as int, n) {
                    r == ok(0) && final(mem)@ == stored(
                        old(mem)@,
                        optval as int,
                        zeros(n as nat),
                    )
                } else {
                    r == err(EFAULT) && final(mem)@ == old(mem)@
                },
            }
        }),
{
    match get_sock(p, files, fd) {
        Ok(_) => {},
        Err(e) => {
            return Err(e);
        },
    }
    if optlen == 0 {
        return Ok(0);
    }
    let n: usize = match mem.read_num(optlen, 4) {
        Ok(v) => v as usize,
        Err(e) => {
            return Err(e);
        },
    };
    if optval == 0 {
        return Ok(0);
    }
    let c: usize = if n < 64 {
        n
    } else {
        64
    };
    let mut z: Vec<u8> = Vec::new();
    put_zeros(&mut z, c);
    proof {
        assert(z@ =~= zeros(c as nat));
    }
    match mem.copy_to_user(optval, &z) {
        Ok(_) => Ok(0),
        Err(e) => Err(e),
    }
}

/// Closes a connection in one or both directions.
pub fn sys_shutdown(
    p: &Process,
    files: &Vec<File>,
    socks: &Vec<Socket>,
    net: &mut NetState,
    fd: i32,
    how: i32,
) -> (r: SysResult)
    requires
        p.files_ok(files@),
        socks_ok(files@, socks@),
        old(net).wf(),
    ensures
        final(net).wf(),
        match sock_spec(*p, files@, fd) {
            Err(e) => r == err(e) && *final(net) == *old(net),
            Ok(k) => r == ok(0) && match (socks@[k as int].inner, old(net).stack) {
                (SockInner::InetConnected { handle }, Some(s)) => {
                    &&& final(net).same_device(*old(net))
                    &&& final(net).stack is Some
                    &&& final(net).stack->0@ == shutdown_view(
                        s@,
                        handle.0 as int,
                        how == 1 || how == 2,
                    )
                    &&& final(net).stack->0.next_port == s.next_port
                },
                (SockInner::InetConnected { .. }, None) => final(net).same_device(*old(net))
                    && final(net).stack is None,
                _ => *final(net) == *old(net),
            },
        },
{
    match get_sock(p, files, fd) {
        Ok(k) => socks[k].shutdown(net, how),
        Err(e) => Err(e),
    }
}

/// An address that was told reads back as the same address.
pub proof fn address_reads_back(m: Map<int, u8>, at: usize, ip: Ip, port: u16, r: Result<Addr, i32>)
    requires
        at != 0,
        mapped(m, at as int, 16),
        parsed(stored(m, at as int, addr_bytes(ip, port)), at, 16, r),
    ensures
        r is Ok,
        r->Ok_0.family == AF_INET,
        r->Ok_0.ip@ == ip@,
        r->Ok_0.port == port,
{
    let b = addr_bytes(ip, port);
    let m1 = stored(m, at as int, b);
    let a = at as int;
    lemma_le_len(AF_INET as nat, 2);
    lemma_span();
    lemma_mapped_stored(m, a, b);
    assert forall|i: int| 0 <= i < 16 implies #[trigger] m1[a + i] == b[i] by {
        assert(m.dom().contains(a + i));
    }
    assert(bytes_at(m1, a, 2) =~= le(AF_INET as nat, 2)) by {
        assert(m1[a + 0] == b[0] && m1[a + 1] == b[1]);
    }
    crate::bytes::from_le_of_le(AF_INET as nat, 2);
    assert(m1[a + 2] == (port / 256) as u8);
    assert(m1[a + 3] == (port % 256) as u8);
    assert(bytes_at(m1, a + 4, 4) =~= ip@) by {
        assert(m1[a + 4] == b[4] && m1[a + 5] == b[5] && m1[a + 6] == b[6] && m1[a + 7] == b[7]);
    }
}

/// What a program learns of a connection: 0 at the end of the stream, that it should
/// try again (11) while nothing is there or nothing fits, and a broken pipe (32) once
/// the connection is closed for sending.
pub proof fn connection_errors(n: usize)
    ensures
        recv_errno(Ok(n)) == Ok::<usize, i32>(n),
        recv_errno(Err(ErrnoKind::Closed)) == Ok::<usize, i32>(0),
        recv_errno(Err(ErrnoKind::Again)) == Err::<usize, i32>(11),
        send_errno(Ok(n)) == Ok::<usize, i32>(n),
        send_errno(Err(ErrnoKind::Closed)) == Err::<usize, i32>(32),
        send_errno(Err(ErrnoKind::Again)) == Err::<usize, i32>(11),
{
}

/// A call that finds nothing to do waits only where it may: one that must not block
/// is told to try again, one that a signal reaches is interrupted; any other answer
/// is passed on.
pub proof fn waiting_is_allowed(r: SysResult, nonblock: bool, interrupted: bool)
    ensures
        r != Err::<usize, i32>(11) ==> io_step(r, nonblock, interrupted) == IoStep::Done(r),
        r == Err::<usize, i32>(11) && nonblock ==> io_step(r, nonblock, interrupted)
            == IoStep::Done(Err(11)),
        r == Err::<usize, i32>(11) && !nonblock && interrupted ==> io_step(r, nonblock, interrupted)
            == IoStep::Done(Err(4)),
        r == Err::<usize, i32>(11) && !nonblock && !interrupted ==> io_step(
            r,
            nonblock,
            interrupted,
        ) == IoStep::Sleep,
{
}

/// The bytes that are received on a connection are the first of those that wait, and
/// they wait no longer.
pub proof fn received_bytes_are_the_first(
    s: Socket,
    handle: TcpHandle,
    a: NetState,
    len: nat,
    pipe: PipeData,
    r: Result<Vec<u8>, i32>,
    b: NetState,
)
    requires
        s.inner == (SockInner::InetConnected { handle }),
        a.stack is Some,
        crate::net::stack::is_conn(a.stack->0@, handle.0 as int),
        recv_rel(s, a, len, pipe, r, b),
    ensures
        b.stack is Some,
        ({
            let rx = a.stack->0@[handle.0 as int]->sock.rx;
            let left = b.stack->0@[handle.0 as int]->sock.rx;
            &&& r matches Ok(v) ==> v@.len() <= len && v@ + left == rx
            &&& r is Err ==> left == rx
            &&& rx.len() > 0 && len > 0 ==> r is Ok && r->Ok_0@.len() > 0
        }),
{
    let (x, filled) = choose|x: Result<usize, ErrnoKind>, filled: Seq<u8>|
        #[trigger] net_recv(a, handle, zeros(len), x, b, filled) && match recv_errno(x) {
            Ok(n) => r is Ok && r->Ok_0@ == filled.take(n as int),
            Err(e) => r is Err && r->Err_0 == e,
        };
    crate::net::stack::received_in_order(
        a.stack->0,
        handle,
        zeros(len),
        x,
        b.stack->0,
        filled,
        handle.0 as int,
    );
    if r is Ok && x is Err {
        assert(filled.take(0) =~= Seq::<u8>::empty());
        assert(Seq::<u8>::empty() + a.stack->0@[handle.0 as int]->sock.rx
            =~= a.stack->0@[handle.0 as int]->sock.rx);
    }
}

/// The two sockets of a pair are joined crosswise: what one sends is what the other
/// receives. Their descriptors are told in two words of four bytes.
pub proof fn pair_is_joined(
    ty: u32,
    sv: usize,
    pipes: (usize, usize),
    x: PairScene,
    y: PairScene,
)
    requires
        pair_post(ty, sv, pipes, x, Ok(0), y),
        x.p.wf(),
        x.files.len() + 1 < usize::MAX,
        x.socks.len() + 1 < usize::MAX,
    ensures
        y.socks.len() == x.socks.len() + 2,
        y.socks[x.socks.len() as int].inner == (SockInner::UnixPair { rx: pipes.0, tx: pipes.1 }),
        y.socks[(x.socks.len() + 1) as int].inner == (SockInner::UnixPair { rx: pipes.1, tx: pipes.0 }),
        forall|k: int| 0 <= k < x.socks.len() ==> #[trigger] y.socks[k] == x.socks[k],
        y.files[x.files.len() as int].obj == FileObj::Socket(x.socks.len() as usize),
        y.files[(x.files.len() + 1) as int].obj == FileObj::Socket((x.socks.len() + 1) as usize),
{
    let (mid, a) = choose|mid: PairScene, a: Result<i32, i32>|
        {
            &&& #[trigger] opens(x, ty, pair_socket(pipes.0, pipes.1), a, mid)
            &&& match a {
                Err(e) => err(e) == Ok::<usize, i32>(0) && y == mid,
                Ok(fd0) => exists|last: PairScene, b: Result<i32, i32>|
                    {
                        &&& #[trigger] opens(mid, ty, pair_socket(pipes.1, pipes.0), b, last)
                        &&& y == (PairScene { mem: y.mem, ..last })
                        &&& match b {
                            Err(e) => err(e) == Ok::<usize, i32>(0) && y.mem == x.mem,
                            Ok(fd1) => if mapped(x.mem, sv as int, 8) {
                                y.mem == stored(
                                    x.mem,
                                    sv as int,
                                    le(fd0 as nat, 4) + le(fd1 as nat, 4),
                                )
                            } else {
                                err(EFAULT) == Ok::<usize, i32>(0) && y.mem == x.mem
                            },
                        }
                    },
            }
        };
    assert(a is Ok);
}

/// An accepted connection is a new socket under its own descriptor: the socket is
/// connected with the connection that was handed out, and no other socket changes.
pub proof fn accepted_socket_is_connected(
    x: PairScene,
    addr: usize,
    addrlen: usize,
    nonblock: bool,
    got: (TcpHandle, Ip, u16),
    a: NetState,
    r: SysResult,
    y: PairScene,
    b: NetState,
)
    requires
        accepted_post(x, addr, addrlen, nonblock, got, a, r, y, b),
        x.p.wf(),
        x.files.len() < usize::MAX,
        x.socks.len() < usize::MAX,
        r is Ok,
    ensures
        b == a,
        y.socks == x.socks.push(Socket { inner: SockInner::InetConnected { handle: got.0 } }),
        is_open(y.p, r->Ok_0 as int),
        !is_open(x.p, r->Ok_0 as int),
        y.files[file_at(y.p, r->Ok_0 as int)].obj == FileObj::Socket(x.socks.len() as usize),
{
    let (o, z) = choose|o: Result<i32, i32>, z: PairScene|
        {
            &&& #[trigger] opens(
                x,
                accept_ty(nonblock),
                Socket { inner: SockInner::InetConnected { handle: got.0 } },
                o,
                z,
            )
            &&& y == (PairScene { mem: y.mem, ..z })
            &&& r == fd_result(o)
            &&& if o is Ok {
                b == a
            } else {
                net_drop(a, got.0, b)
            }
        };
    crate::syscall::files::opened_is_there(
        x.p,
        x.files,
        sock_file(x.socks.len() as usize, accept_ty(nonblock)),
        o,
        z.p,
        z.files,
    );
    crate::file::free_from_is_lowest(x.p.fds.entries@, 0);
}

/// A socket that listens does so on the port asked for, with the address of this
/// machine; a port that is taken is refused (98) and nothing changes.
pub proof fn listening_socket_is_on_its_port(
    k: usize,
    port: u16,
    a: NetState,
    s: Seq<Socket>,
    r: SysResult,
    b: NetState,
    t: Seq<Socket>,
)
    requires
        port != 0,
        k < s.len(),
        a.stack is Some,
        listened(k, port, a, s, r, b, t),
    ensures
        r is Ok ==> (t[k as int].inner matches SockInner::InetListening { handle } && local_of(
            b.stack,
            handle,
        ) == Some((GUEST_IP, port)) && state_of(b.stack, handle) == TcpState::Listen),
        r is Err ==> r == Err::<usize, i32>(98) && t == s,
        forall|j: int| 0 <= j < s.len() && j != k ==> #[trigger] t[j] == s[j],
        crate::net::stack::port_in_use(a.stack->0@, port) <==> r is Err,
{
    let x = choose|x: Result<TcpHandle, &'static str>|
        #[trigger] net_listen(a, port, x, b) && match x {
            Ok(handle) => r == ok(0) && t == with_inner(
                s,
                k as int,
                SockInner::InetListening { handle },
            ),
            Err(_) => r == err(EADDRINUSE) && t == s,
        };
    if x is Ok {
        crate::net::stack::listener_is_on_its_port(a.stack->0, port, x->Ok_0, b.stack->0);
    }
}

/// The sockets that can be opened: streams of the internet (2) and local ones (1);
/// other families (97) and types (93) are refused.
pub proof fn sockets_that_can_be_opened(domain: usize, ty: u32)
    requires
        domain < 0x1_0000,
    ensures
        domain == 2 && ty & 0xf == 1 ==> socket_kind(domain, ty) == Ok::<Socket, i32>(
            Socket { inner: SockInner::InetIdle },
        ),
        domain == 1 && ty & 0xf == 1 ==> socket_kind(domain, ty) == Ok::<Socket, i32>(
            Socket { inner: SockInner::Unconnected { domain: 1, ty: 1 } },
        ),
        domain != 1 && domain != 2 ==> socket_kind(domain, ty) == Err::<Socket, i32>(97),
        (domain == 1 || domain == 2) && ty & 0xf != 1 ==> socket_kind(domain, ty) == Err::<
            Socket,
            i32,
        >(93),
{
}

/// The bytes that are sent on a connection wait behind those sent before.
pub proof fn sent_bytes_are_the_last(
    s: Socket,
    handle: TcpHandle,
    a: NetState,
    data: Seq<u8>,
    pipe: PipeAnswer,
    r: SysResult,
    b: NetState,
)
    requires
        s.inner == (SockInner::InetConnected { handle }),
        a.stack is Some,
        crate::net::stack::is_conn(a.stack->0@, handle.0 as int),
        a.stack->0@[handle.0 as int]->sock.tx.len() <= a.stack->0@[handle.0 as int]->sock.tx_cap,
        send_rel(s, a, data, pipe, r, b),
    ensures
        b.stack is Some,
        ({
            let x = a.stack->0@[handle.0 as int]->sock;
            let tx = b.stack->0@[handle.0 as int]->sock.tx;
            &&& r matches Ok(n) ==> n <= data.len() && tx == x.tx + data.take(n as int)
            &&& r is Err ==> tx == x.tx
            &&& x.state == TcpState::Established && data.len() > 0 && x.tx.len() < x.tx_cap ==> r is Ok
                && r->Ok_0 > 0
        }),
{
    let x = choose|x: Result<usize, ErrnoKind>|
        #[trigger] net_send(a, handle, data, x, b) && r == send_errno(x);
    crate::net::stack::sent_in_order(
        a.stack->0,
        handle,
        data,
        x,
        b.stack->0,
        handle.0 as int,
    );
}

} // verus!
