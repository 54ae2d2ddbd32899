//! Socket system calls: reading what is asked for and telling what came of it.
//! What a socket itself does comes in as an argument.

use vstd::prelude::*;
use crate::abi::{
    AF_INET, AF_UNIX, MSG_CMSG_CLOEXEC, O_RDWR, SOCK_CLOEXEC, SOCK_DGRAM, SOCK_NONBLOCK,
    SOCK_STREAM, SOL_SOCKET,
};
use crate::bytes::{from_le, get_le, le, lemma_le_len, put_le, put_zeros, zeros};
use crate::errno::{
    SysResult, EAFNOSUPPORT, EBADF, EFAULT, EINVAL, EMFILE, EMSGSIZE, ENOTSOCK, EPROTONOSUPPORT,
};
use crate::file::{free_from, with_fd, FdEntry, Fds, OpenFile};
use crate::net::socket::{parse_sockaddr, sockaddr_bytes, SockAddr, SockAddrView};
use crate::syscall::fs::{
    alloc_from, anon, get_file, install_fd, install_pair, install_post, only_fds, pair_post, Ctx,
};
use crate::syscall::process::{err, lemma_mapped_stored, ok};
use crate::syscall::transfer::{
    gather, gathered, iovs_at, read_iovs, room_of, scatter, scattered, used_room, MAX_VEC,
};
use crate::uaccess::{bytes_at, field, mapped, num_at, stored, UserMem};

verus! {

pub const SOCK_TYPE_MASK: u32 = 0xf;
pub const SOCK_SEQPACKET: u32 = 5;
pub const SCM_RIGHTS: i32 = 1;
pub const MSG_CTRUNC: u32 = 8;

/// At most this much is sent or received by one call.
pub const MAX_DATA: usize = 0x10_0000;

/// The socket behind a descriptor.
pub open spec fn sock_spec(c: Ctx, fd: i32) -> Result<usize, i32> {
    if !c.is_open(fd) {
        Err(EBADF)
    } else {
        match c.file(fd).socket {
            Some(s) => Ok(s),
            None => Err(ENOTSOCK),
        }
    }
}

pub fn sock_of(c: &Ctx, fd: i32) -> (r: Result<usize, i32>)
    requires
        c.wf(),
    ensures
        r == sock_spec(*c, fd),
{
    match get_file(c, fd) {
        Ok(f) => match c.files[f].socket {
            Some(s) => Ok(s),
            None => Err(ENOTSOCK),
        },
        Err(e) => Err(e),
    }
}

pub open spec fn least(a: int, b: int) -> int {
    if a < b {
        a
    } else {
        b
    }
}

/// The address that memory holds.
pub open spec fn addr_at(m: Map<int, u8>, addr: usize, len: u32) -> Result<SockAddrView, i32> {
    let n = least(len as int, 128);
    if addr == 0 || len < 2 {
        Err(EINVAL)
    } else if !mapped(m, addr as int, n) {
        Err(EFAULT)
    } else {
        parse_sockaddr(bytes_at(m, addr as int, n))
    }
}

pub open spec fn addr_read(r: Result<SockAddr, i32>, s: Result<SockAddrView, i32>) -> bool {
    match s {
        Ok(v) => r is Ok && r->Ok_0@ == v,
        Err(e) => r is Err && r->Err_0 == e,
    }
}

/// Reads an address, of which 128 bytes at most are looked at.
pub fn read_sockaddr(mem: &UserMem, addr: usize, len: u32) -> (r: Result<SockAddr, i32>)
    ensures
        addr_read(r, addr_at(mem@, addr, len)),
{
    if addr == 0 || len < 2 {
        return Err(EINVAL);
    }
    let n: usize = if len < 128 {
        len as usize
    } else {
        128
    };
    match mem.copy_from_user(addr, n) {
        Ok(b) => SockAddr::parse(&b),
        Err(e) => Err(e),
    }
}

/// Telling an address: as much as there is room for, then its whole size.
pub open spec fn addr_told(
    m: Map<int, u8>,
    a: SockAddrView,
    addr: usize,
    lenp: usize,
) -> (bool, Map<int, u8>) {
    let b = sockaddr_bytes(a);
    let n = least(b.len() as int, num_at(m, lenp as int, 4) as int);
    let m1 = stored(m, addr as int, b.take(n));
    if addr == 0 || lenp == 0 {
        (true, m)
    } else if !mapped(m, lenp as int, 4) || !mapped(m, addr as int, n) {
        (false, m)
    } else {
        (true, stored(m1, lenp as int, le(b.len(), 4)))
    }
}

fn take_part(b: &Vec<u8>, n: usize) -> (r: Vec<u8>)
    requires
        n <= b@.len(),
    ensures
        r@ == b@.take(n as int),
{
    let mut r: Vec<u8> = Vec::new();
    let mut i: usize = 0;
    while i < n
        invariant
            i <= n <= b@.len(),
            r@ == b@.take(i as int),
        decreases n - i,
    {
        r.push(b[i]);
        i = i + 1;
        proof {
            assert(r@ =~= b@.take(i as int));
        }
    }
    r
}

/// Tells an address; null pointers are passed over.
pub fn write_sockaddr(mem: &mut UserMem, sa: &SockAddr, addr: usize, lenp: usize) -> (r: Result<(), i32>)
    ensures
        (r is Ok, final(mem)@) == addr_told(old(mem)@, sa@, addr, lenp),
        r is Err ==> r->Err_0 == EFAULT,
{
    if addr == 0 || lenp == 0 {
        return Ok(());
    }
    let ghost m = mem@;
    let cap: usize = match mem.read_num(lenp, 4) {
        Ok(v) => {
            proof {
                crate::bytes::lemma_span();
            }
            v as usize
        },
        Err(e) => {
            return Err(e);
        },
    };
    let b: Vec<u8> = sa.to_bytes();
    let n: usize = if b.len() < cap {
        b.len()
    } else {
        cap
    };
    let part: Vec<u8> = take_part(&b, n);
    proof {
        lemma_mapped_stored(m, addr as int, part@);
    }
    match mem.copy_to_user(addr, &part) {
        Ok(_) => {},
        Err(e) => {
            return Err(e);
        },
    }
    match mem.write_num(lenp, b.len() as u64, 4) {
        Ok(_) => Ok(()),
        Err(e) => Err(e),
    }
}

/// The kind of a socket.
#[derive(Clone, Copy, PartialEq, Eq, Structural, Debug)]
pub enum SockKind {
    Tcp,
    Udp,
    /// A local socket, of streams or of messages.
    Unix { stream: bool },
}

/// The socket that is asked for. Internet sockets need a network.
pub open spec fn kind_spec(domain: u32, ty: u32, protocol: u32, up: bool) -> Result<SockKind, i32> {
    let kind = ty & SOCK_TYPE_MASK;
    if domain as u16 == AF_INET && (kind == SOCK_STREAM || kind == SOCK_DGRAM) {
        let own: u32 = if kind == SOCK_STREAM {
            6
        } else {
            17
        };
        if protocol != 0 && protocol != own {
            Err(EPROTONOSUPPORT)
        } else if !up {
            Err(EAFNOSUPPORT)
        } else if kind == SOCK_STREAM {
            Ok(SockKind::Tcp)
        } else {
            Ok(SockKind::Udp)
        }
    } else if domain as u16 == AF_UNIX && (kind == SOCK_STREAM || kind == SOCK_DGRAM) {
        Ok(SockKind::Unix { stream: kind == SOCK_STREAM })
    } else {
        Err(EAFNOSUPPORT)
    }
}

pub fn socket_kind(domain: u32, ty: u32, protocol: u32, up: bool) -> (r: Result<SockKind, i32>)
    ensures
        r == kind_spec(domain, ty, protocol, up),
{
    let kind: u32 = ty & SOCK_TYPE_MASK;
    let d: u16 = domain as u16;
    if d == AF_INET && kind == SOCK_STREAM {
        if protocol != 0 && protocol != 6 {
            return Err(EPROTONOSUPPORT);
        }
        if !up {
            return Err(EAFNOSUPPORT);
        }
        return Ok(SockKind::Tcp);
    }
    if d == AF_INET && kind == SOCK_DGRAM {
        if protocol != 0 && protocol != 17 {
            return Err(EPROTONOSUPPORT);
        }
        if !up {
            return Err(EAFNOSUPPORT);
        }
        return Ok(SockKind::Udp);
    }
    if d == AF_UNIX && (kind == SOCK_STREAM || kind == SOCK_DGRAM) {
        return Ok(SockKind::Unix { stream: kind == SOCK_STREAM });
    }
    Err(EAFNOSUPPORT)
}

pub open spec fn cloexec(flags: u32) -> bool {
    flags & SOCK_CLOEXEC != 0
}

/// The file of socket number `s`.
pub open spec fn sock_file(s: usize, flags: u32) -> OpenFile {
    OpenFile { socket: Some(s), ..anon(O_RDWR | (flags & SOCK_NONBLOCK)) }
}

fn new_file(s: usize, flags: u32) -> (r: OpenFile)
    ensures
        r == sock_file(s, flags),
{
    OpenFile {
        flags: O_RDWR | (flags & SOCK_NONBLOCK),
        pos: 0,
        node: None,
        seekable: false,
        epoll: None,
        socket: Some(s),
    }
}

/// Gives socket number `s`, which was made as asked for, a descriptor.
pub fn sys_socket(c: &mut Ctx, kind: Result<SockKind, i32>, s: usize, ty: u32) -> (r: SysResult)
    requires
        old(c).wf(),
        old(c).files@.len() + 1 < usize::MAX,
    ensures
        final(c).wf(),
        match kind {
            Err(e) => r == err(e) && *final(c) == *old(c),
            Ok(_) => install_post(
                *old(c),
                sock_file(s, ty),
                ty & SOCK_CLOEXEC != 0,
                r,
                *final(c),
            ),
        },
{
    match kind {
        Err(e) => Err(e),
        Ok(_) => install_fd(c, new_file(s, ty), ty & SOCK_CLOEXEC != 0),
    }
}

/// Whether a pair of sockets can be made; they are streams for the stream type.
pub fn pair_kind(domain: u32, ty: u32) -> (r: Result<bool, i32>)
    ensures
        ({
            let kind = ty & SOCK_TYPE_MASK;
            r == (if domain as u16 != AF_UNIX {
                Err::<bool, i32>(EAFNOSUPPORT)
            } else if kind != SOCK_STREAM && kind != SOCK_DGRAM && kind != SOCK_SEQPACKET {
                Err::<bool, i32>(EPROTONOSUPPORT)
            } else {
                Ok::<bool, i32>(kind == SOCK_STREAM)
            })
        }),
{
    if domain as u16 != AF_UNIX {
        return Err(EAFNOSUPPORT);
    }
    let kind: u32 = ty & SOCK_TYPE_MASK;
    if kind != SOCK_STREAM && kind != SOCK_DGRAM && kind != SOCK_SEQPACKET {
        return Err(EPROTONOSUPPORT);
    }
    Ok(kind == SOCK_STREAM)
}

/// Gives the two sockets of a pair descriptors.
pub fn sys_socketpair(c: &mut Ctx, mem: &mut UserMem, a: usize, b: usize, ty: u32, sv: usize) -> (r: SysResult)
    requires
        old(c).wf(),
        old(c).files@.len() + 2 < usize::MAX,
    ensures
        final(c).wf(),
        pair_post(
            *old(c),
            old(mem)@,
            sv,
            sock_file(a, ty),
            sock_file(b, ty),
            ty & SOCK_CLOEXEC != 0,
            r,
            *final(c),
            final(mem)@,
        ),
{
    install_pair(c, mem, sv, new_file(a, ty), new_file(b, ty), ty & SOCK_CLOEXEC != 0)
}

/// A socket and an address to bind or connect it to.
pub struct WithAddr {
    pub sock: usize,
    pub addr: SockAddr,
}

pub open spec fn with_addr(c: Ctx, m: Map<int, u8>, fd: i32, addr: usize, len: u32, r: Result<WithAddr, i32>) -> bool {
    if !c.is_open(fd) {
        r is Err && r->Err_0 == EBADF
    } else {
        match addr_at(m, addr, len) {
            Err(e) => r is Err && r->Err_0 == e,
            Ok(a) => match sock_spec(c, fd) {
                Err(e) => r is Err && r->Err_0 == e,
                Ok(s) => r is Ok && r->Ok_0.sock == s && r->Ok_0.addr@ == a,
            },
        }
    }
}

/// Which socket to bind to which address.
pub fn sys_bind(c: &Ctx, mem: &UserMem, fd: i32, addr: usize, len: u32) -> (r: Result<WithAddr, i32>)
    requires
        c.wf(),
    ensures
        with_addr(*c, mem@, fd, addr, len, r),
{
    match get_file(c, fd) {
        Ok(_) => {},
        Err(e) => {
            return Err(e);
        },
    }
    let addr: SockAddr = match read_sockaddr(mem, addr, len) {
        Ok(a) => a,
        Err(e) => {
            return Err(e);
        },
    };
    match sock_of(c, fd) {
        Ok(sock) => Ok(WithAddr { sock, addr }),
        Err(e) => Err(e),
    }
}

/// Which socket to connect to which address.
pub fn sys_connect(c: &Ctx, mem: &UserMem, fd: i32, addr: usize, len: u32) -> (r: Result<WithAddr, i32>)
    requires
        c.wf(),
    ensures
        with_addr(*c, mem@, fd, addr, len, r),
{
    sys_bind(c, mem, fd, addr, len)
}

/// What a call returns that only asks a socket to do something.
pub open spec fn unit_result(did: Result<(), i32>) -> SysResult {
    match did {
        Ok(_) => ok(0),
        Err(e) => err(e),
    }
}

/// The end of a call that asked a socket to bind, listen, connect, shut down or
/// set an option.
pub fn sys_listen(did: Result<(), i32>) -> (r: SysResult)
    ensures
        r == unit_result(did),
{
    match did {
        Ok(_) => Ok(0),
        Err(e) => Err(e),
    }
}

/// The end of shutting a connection down.
pub fn sys_shutdown(did: Result<(), i32>) -> (r: SysResult)
    ensures
        r == unit_result(did),
{
    sys_listen(did)
}

/// Gives an accepted connection, socket number `s`, a descriptor, then tells
/// the peer's address. Where that cannot be told the descriptor stays.
pub fn sys_accept4(
    c: &mut Ctx,
    mem: &mut UserMem,
    got: Result<(usize, SockAddr), i32>,
    addr: usize,
    lenp: usize,
    flags: u32,
) -> (r: SysResult)
    requires
        old(c).wf(),
        old(c).files@.len() + 1 < usize::MAX,
    ensures
        final(c).wf(),
        match got {
            Err(e) => r == err(e) && *final(c) == *old(c) && final(mem)@ == old(mem)@,
            Ok(x) => exists|v: SysResult|
                #[trigger] install_post(
                    *old(c),
                    sock_file(x.0, flags),
                    cloexec(flags),
                    v,
                    *final(c),
                ) && match v {
                    Err(e) => r == err(e) && final(mem)@ == old(mem)@,
                    Ok(fd) => {
                        let t = addr_told(old(mem)@, x.1@, addr, lenp);
                        final(mem)@ == t.1 && r == (if t.0 {
                            ok(fd as int)
                        } else {
                            err(EFAULT)
                        })
                    },
                },
        },
{
    match got {
        Err(e) => Err(e),
        Ok(x) => {
            let v: SysResult = install_fd(c, new_file(x.0, flags), flags & SOCK_CLOEXEC != 0);
            assert(install_post(*old(c), sock_file(x.0, flags), cloexec(flags), v, *c));
            let fd: usize = match v {
                Ok(fd) => fd,
                Err(e) => {
                    return Err(e);
                },
            };
            match write_sockaddr(mem, &x.1, addr, lenp) {
                Ok(_) => Ok(fd),
                Err(e) => Err(e),
            }
        },
    }
}

pub open spec fn name_post(
    m: Map<int, u8>,
    got: Result<SockAddr, i32>,
    addr: usize,
    lenp: usize,
    r: SysResult,
    n: Map<int, u8>,
) -> bool {
    match got {
        Err(e) => r == err(e) && n == m,
        Ok(a) => {
            let t = addr_told(m, a@, addr, lenp);
            n == t.1 && r == (if t.0 {
                ok(0)
            } else {
                err(EFAULT)
            })
        },
    }
}

/// Tells the address of a socket.
pub fn sys_getsockname(mem: &mut UserMem, got: Result<SockAddr, i32>, addr: usize, lenp: usize) -> (r: SysResult)
    ensures
        name_post(old(mem)@, got, addr, lenp, r, final(mem)@),
{
    match got {
        Err(e) => Err(e),
        Ok(a) => match write_sockaddr(mem, &a, addr, lenp) {
            Ok(_) => Ok(0),
            Err(e) => Err(e),
        },
    }
}

/// Tells the address of a socket's peer.
pub fn sys_getpeername(mem: &mut UserMem, got: Result<SockAddr, i32>, addr: usize, lenp: usize) -> (r: SysResult)
    ensures
        name_post(old(mem)@, got, addr, lenp, r, final(mem)@),
{
    sys_getsockname(mem, got, addr, lenp)
}

/// Data for a socket, and the receiver where one is named.
pub struct ToSend {
    pub sock: usize,
    pub data: Vec<u8>,
    pub to: Option<SockAddr>,
    /// The files that go with the data.
    pub files: Vec<usize>,
}

/// The receiver that memory names, if any.
pub open spec fn receiver(m: Map<int, u8>, addr: usize, len: u32) -> Result<Option<SockAddrView>, i32> {
    if addr != 0 && len > 0 {
        match addr_at(m, addr, len) {
            Ok(a) => Ok(Some(a)),
            Err(e) => Err(e),
        }
    } else {
        Ok(None)
    }
}

pub open spec fn opt_view(a: Option<SockAddr>) -> Option<SockAddrView> {
    match a {
        Some(x) => Some(x@),
        None => None,
    }
}

fn read_receiver(mem: &UserMem, addr: usize, len: u32) -> (r: Result<Option<SockAddr>, i32>)
    ensures
        match receiver(mem@, addr, len) {
            Ok(v) => r is Ok && opt_view(r->Ok_0) == v,
            Err(e) => r is Err && r->Err_0 == e,
        },
{
    if addr != 0 && len > 0 {
        match read_sockaddr(mem, addr, len) {
            Ok(a) => Ok(Some(a)),
            Err(e) => Err(e),
        }
    } else {
        Ok(None)
    }
}

/// What to send from a buffer.
pub fn sys_sendto(c: &Ctx, mem: &UserMem, fd: i32, buf: usize, len: usize, addr: usize, addrlen: u32) -> (r:
    Result<ToSend, i32>)
    requires
        c.wf(),
    ensures
        ({
            let n = least(len as int, MAX_DATA as int);
            match sock_spec(*c, fd) {
                Err(e) => r is Err && r->Err_0 == e,
                Ok(s) => if !mapped(mem@, buf as int, n) {
                    r is Err && r->Err_0 == EFAULT
                } else {
                    match receiver(mem@, addr, addrlen) {
                        Err(e) => r is Err && r->Err_0 == e,
                        Ok(to) => {
                            &&& r is Ok
                            &&& r->Ok_0.sock == s
                            &&& r->Ok_0.data@ == bytes_at(mem@, buf as int, n)
                            &&& opt_view(r->Ok_0.to) == to
                            &&& r->Ok_0.files@.len() == 0
                        },
                    }
                },
            }
        }),
{
    let sock: usize = match sock_of(c, fd) {
        Ok(s) => s,
        Err(e) => {
            return Err(e);
        },
    };
    let n: usize = if len < MAX_DATA {
        len
    } else {
        MAX_DATA
    };
    let data: Vec<u8> = match mem.copy_from_user(buf, n) {
        Ok(d) => d,
        Err(e) => {
            return Err(e);
        },
    };
    match read_receiver(mem, addr, addrlen) {
        Ok(to) => Ok(ToSend { sock, data, to, files: Vec::new() }),
        Err(e) => Err(e),
    }
}

/// What a socket received.
pub struct Received {
    pub data: Vec<u8>,
    pub from: Option<SockAddr>,
    /// The files that came with the data.
    pub files: Vec<usize>,
}

/// Stores what was received, and the sender's address where there is one.
pub fn sys_recvfrom(mem: &mut UserMem, buf: usize, addr: usize, lenp: usize, got: Result<Received, i32>) -> (r:
    SysResult)
    ensures
        match got {
            Err(e) => r == err(e) && final(mem)@ == old(mem)@,
            Ok(x) => {
                let m1 = stored(old(mem)@, buf as int, x.data@);
                if !mapped(old(mem)@, buf as int, x.data@.len() as int) {
                    r == err(EFAULT) && final(mem)@ == old(mem)@
                } else {
                    match x.from {
                        None => r == ok(x.data@.len() as int) && final(mem)@ == m1,
                        Some(a) => {
                            let t = addr_told(m1, a@, addr, lenp);
                            final(mem)@ == t.1 && r == (if t.0 {
                                ok(x.data@.len() as int)
                            } else {
                                err(EFAULT)
                            })
                        },
                    }
                }
            },
        },
{
    let x: Received = match got {
        Ok(x) => x,
        Err(e) => {
            return Err(e);
        },
    };
    match mem.copy_to_user(buf, &x.data) {
        Ok(_) => {},
        Err(e) => {
            return Err(e);
        },
    }
    match &x.from {
        Some(a) => match write_sockaddr(mem, a, addr, lenp) {
            Ok(_) => {},
            Err(e) => {
                return Err(e);
            },
        },
        None => {},
    }
    Ok(x.data.len())
}

/// A socket option to be set.
pub struct ToSet {
    pub sock: usize,
    pub val: Vec<u8>,
}

/// Reads the value of an option, 256 bytes at most; none for a null pointer.
pub fn sys_setsockopt(c: &Ctx, mem: &UserMem, fd: i32, val: usize, len: u32) -> (r: Result<ToSet, i32>)
    requires
        c.wf(),
    ensures
        ({
            let n = least(len as int, 256);
            match sock_spec(*c, fd) {
                Err(e) => r is Err && r->Err_0 == e,
                Ok(s) => if val != 0 && !mapped(mem@, val as int, n) {
                    r is Err && r->Err_0 == EFAULT
                } else {
                    &&& r is Ok
                    &&& r->Ok_0.sock == s
                    &&& r->Ok_0.val@ == (if val != 0 {
                        bytes_at(mem@, val as int, n)
                    } else {
                        Seq::empty()
                    })
                },
            }
        }),
{
    let sock: usize = match sock_of(c, fd) {
        Ok(s) => s,
        Err(e) => {
            return Err(e);
        },
    };
    if val == 0 {
        let v: Vec<u8> = Vec::new();
        assert(v@ =~= Seq::empty());
        return Ok(ToSet { sock, val: v });
    }
    let n: usize = if len < 256 {
        len as usize
    } else {
        256
    };
    match mem.copy_from_user(val, n) {
        Ok(v) => Ok(ToSet { sock, val: v }),
        Err(e) => Err(e),
    }
}

/// Tells the value of an option, as much as there is room for, and how much that
/// is.
pub fn sys_getsockopt(mem: &mut UserMem, got: Result<Vec<u8>, i32>, val: usize, lenp: usize) -> (r: SysResult)
    ensures
        match got {
            Err(e) => r == err(e) && final(mem)@ == old(mem)@,
            Ok(v) => {
                let m = old(mem)@;
                let n = least(v@.len() as int, num_at(m, lenp as int, 4) as int);
                if !mapped(m, lenp as int, 4) || !mapped(m, val as int, n) {
                    r == err(EFAULT) && final(mem)@ == m
                } else {
                    r == ok(0) && final(mem)@ == stored(
                        stored(m, val as int, v@.take(n)),
                        lenp as int,
                        le(n as nat, 4),
                    )
                }
            },
        },
{
    let v: Vec<u8> = match got {
        Ok(v) => v,
        Err(e) => {
            return Err(e);
        },
    };
    let ghost m = mem@;
    let cap: usize = match mem.read_num(lenp, 4) {
        Ok(x) => {
            proof {
                crate::bytes::lemma_span();
            }
            x as usize
        },
        Err(e) => {
            return Err(e);
        },
    };
    let n: usize = if v.len() < cap {
        v.len()
    } else {
        cap
    };
    let part: Vec<u8> = take_part(&v, n);
    proof {
        lemma_mapped_stored(m, val as int, part@);
    }
    match mem.copy_to_user(val, &part) {
        Ok(_) => {},
        Err(e) => {
            return Err(e);
        },
    }
    match mem.write_num(lenp, n as u64, 4) {
        Ok(_) => Ok(0),
        Err(e) => Err(e),
    }
}

/// The header of a message.
pub struct MsgHdr {
    /// Its bytes as they were read.
    pub raw: Vec<u8>,
    pub name: usize,
    pub namelen: u32,
    pub iov: usize,
    pub iovlen: usize,
    pub control: usize,
    pub controllen: usize,
}

pub open spec fn hdr_is(h: MsgHdr, m: Map<int, u8>, at: int) -> bool {
    &&& h.raw@ == bytes_at(m, at, 56)
    &&& h.name == num_at(m, at, 8) as usize
    &&& h.namelen == num_at(m, at + 8, 4) as u32
    &&& h.iov == num_at(m, at + 16, 8) as usize
    &&& h.iovlen == num_at(m, at + 24, 8) as usize
    &&& h.control == num_at(m, at + 32, 8) as usize
    &&& h.controllen == num_at(m, at + 40, 8) as usize
}

/// Reads the header of a message.
pub fn read_hdr(mem: &UserMem, msg: usize) -> (r: Result<MsgHdr, i32>)
    ensures
        match r {
            Ok(h) => mapped(mem@, msg as int, 56) && hdr_is(h, mem@, msg as int),
            Err(e) => !mapped(mem@, msg as int, 56) && e == EFAULT,
        },
{
    match mem.copy_from_user(msg, 56) {
        Ok(raw) => {
            let name: u64 = field(&raw, 0, 8, Ghost(mem@), Ghost(msg as int));
            let namelen: u64 = field(&raw, 8, 4, Ghost(mem@), Ghost(msg as int));
            let iov: u64 = field(&raw, 16, 8, Ghost(mem@), Ghost(msg as int));
            let iovlen: u64 = field(&raw, 24, 8, Ghost(mem@), Ghost(msg as int));
            let control: u64 = field(&raw, 32, 8, Ghost(mem@), Ghost(msg as int));
            let controllen: u64 = field(&raw, 40, 8, Ghost(mem@), Ghost(msg as int));
            proof {
                assert(msg + 0 == msg as int);
            }
            Ok(
                MsgHdr {
                    raw,
                    name: name as usize,
                    namelen: namelen as u32,
                    iov: iov as usize,
                    iovlen: iovlen as usize,
                    control: control as usize,
                    controllen: controllen as usize,
                },
            )
        },
        Err(e) => Err(e),
    }
}

/// The buffers of a message; more than 1024 are refused.
pub open spec fn msg_iovs(m: Map<int, u8>, iov: usize, cnt: usize) -> Result<Seq<(usize, usize)>, i32> {
    if cnt > MAX_VEC {
        Err(EMSGSIZE)
    } else if mapped(m, iov as int, 16 * cnt) {
        Ok(iovs_at(m, iov as int, cnt as int))
    } else {
        Err(EFAULT)
    }
}

fn read_msg_iovs(mem: &UserMem, iov: usize, cnt: usize) -> (r: Result<Vec<(usize, usize)>, i32>)
    ensures
        match msg_iovs(mem@, iov, cnt) {
            Ok(l) => r is Ok && r->Ok_0@ == l,
            Err(e) => r is Err && r->Err_0 == e,
        },
{
    if cnt > MAX_VEC {
        return Err(EMSGSIZE);
    }
    read_iovs(mem, iov, cnt)
}

/// The number in `n` bytes of `d` from `o` on.
pub open spec fn at(d: Seq<u8>, o: int, n: int) -> int {
    from_le(d.subrange(o, o + n)) as int
}

/// The files behind descriptors from the `k`-th on of those in `[from, to)`;
/// `None` where one is not open.
pub open spec fn passed(c: Ctx, ctl: Seq<u8>, from: int, to: int) -> Option<Seq<usize>>
    decreases to - from,
{
    let fd = at(ctl, from, 4) as u32 as i32;
    if from + 4 > to {
        Some(Seq::empty())
    } else if !c.is_open(fd) {
        None
    } else {
        match passed(c, ctl, from + 4, to) {
            None => None,
            Some(l) => Some(seq![c.file_no(fd) as usize] + l),
        }
    }
}

pub open spec fn up8(x: int) -> int {
    (x + 7) / 8 * 8
}

/// The files that control messages from place `off` on pass. A message that is
/// too short or too long ends them.
pub open spec fn rights(c: Ctx, ctl: Seq<u8>, off: int) -> Option<Seq<usize>>
    decreases ctl.len() + 8 - off,
{
    let clen = at(ctl, off, 8);
    let level = at(ctl, off + 8, 4) as u32 as i32;
    let ty = at(ctl, off + 12, 4) as u32 as i32;
    if off < 0 || off + 16 > ctl.len() || clen < 16 || off + clen > ctl.len() {
        Some(Seq::empty())
    } else {
        let rest = rights(c, ctl, off + up8(clen));
        if level == SOL_SOCKET && ty == SCM_RIGHTS {
            match passed(c, ctl, off + 16, off + clen) {
                None => None,
                Some(l) => match rest {
                    None => None,
                    Some(k) => Some(l + k),
                },
            }
        } else {
            rest
        }
    }
}

fn num(d: &Vec<u8>, o: usize, n: usize) -> (r: u64)
    requires
        o + n <= d@.len(),
        n <= 8,
    ensures
        r == at(d@, o as int, n as int),
        r < crate::bytes::span(n as nat),
{
    get_le(d, o, n)
}

/// Adds the files of the descriptors in `[from, to)`.
#[verifier::loop_isolation(false)]
fn take_passed(c: &Ctx, ctl: &Vec<u8>, from: usize, to: usize, files: &mut Vec<usize>) -> (r: Result<(), i32>)
    requires
        c.wf(),
        from <= to <= ctl@.len(),
    ensures
        match passed(*c, ctl@, from as int, to as int) {
            Some(l) => r is Ok && final(files)@ == old(files)@ + l,
            None => r is Err && r->Err_0 == EBADF,
        },
{
    let ghost all = passed(*c, ctl@, from as int, to as int);
    let ghost f0 = files@;
    let mut i: usize = from;
    proof {
        if all is Some {
            assert(f0 + all->0 =~= files@ + all->0);
        }
    }
    while to - i >= 4
        invariant
            from <= i <= to,
            passed(*c, ctl@, i as int, to as int) is Some <==> all is Some,
            all is Some ==> f0 + all->0 == files@ + passed(*c, ctl@, i as int, to as int)->0,
        decreases to - i,
    {
        let fd: i32 = num(ctl, i, 4) as u32 as i32;
        match get_file(c, fd) {
            Ok(f) => {
                let ghost before = files@;
                files.push(f);
                proof {
                    let rest = passed(*c, ctl@, i + 4, to as int);
                    if rest is Some {
                        assert(before + (seq![f] + rest->0) =~= files@ + rest->0);
                    }
                }
            },
            Err(e) => {
                return Err(e);
            },
        }
        i = i + 4;
    }
    proof {
        assert(files@ + Seq::<usize>::empty() =~= files@);
    }
    Ok(())
}

/// Reads the files that control messages pass.
#[verifier::loop_isolation(false)]
pub fn read_rights(c: &Ctx, ctl: &Vec<u8>) -> (r: Result<Vec<usize>, i32>)
    requires
        c.wf(),
        ctl@.len() <= 4096,
    ensures
        match rights(*c, ctl@, 0) {
            Some(l) => r is Ok && r->Ok_0@ == l,
            None => r is Err && r->Err_0 == EBADF,
        },
{
    let ghost all = rights(*c, ctl@, 0);
    let n: usize = ctl.len();
    let mut files: Vec<usize> = Vec::new();
    let mut off: usize = 0;
    proof {
        if all is Some {
            assert(files@ + all->0 =~= all->0);
        }
    }
    while off + 16 <= n
        invariant
            n == ctl@.len(),
            off <= n + 8,
            rights(*c, ctl@, off as int) is Some <==> all is Some,
            all is Some ==> all->0 == files@ + rights(*c, ctl@, off as int)->0,
        decreases n + 8 - off,
    {
        let clen: u64 = num(ctl, off, 8);
        let level: i32 = num(ctl, off + 8, 4) as u32 as i32;
        let ty: i32 = num(ctl, off + 12, 4) as u32 as i32;
        if clen < 16 || clen > (n - off) as u64 {
            proof {
                assert(files@ + Seq::<usize>::empty() =~= files@);
            }
            return Ok(files);
        }
        let len: usize = clen as usize;
        let ghost before = files@;
        let ghost rest = rights(*c, ctl@, off + up8(clen as int));
        if level == SOL_SOCKET && ty == SCM_RIGHTS {
            let ghost l = passed(*c, ctl@, off + 16, off + clen);
            match take_passed(c, ctl, off + 16, off + len, &mut files) {
                Ok(_) => {
                    proof {
                        if rest is Some {
                            assert(before + (l->0 + rest->0) =~= files@ + rest->0);
                        }
                    }
                },
                Err(e) => {
                    return Err(e);
                },
            }
        }
        off = off + (len + 7) / 8 * 8;
    }
    proof {
        assert(files@ + Seq::<usize>::empty() =~= files@);
    }
    Ok(files)
}

/// The control messages of a header, 4096 bytes at most.
pub open spec fn control_of(m: Map<int, u8>, control: usize, len: usize) -> Option<Seq<u8>> {
    let n = least(len as int, 4096);
    if control == 0 || len < 16 {
        Some(Seq::empty())
    } else if mapped(m, control as int, n) {
        Some(bytes_at(m, control as int, n))
    } else {
        None
    }
}

/// What sending a message reads.
pub open spec fn sendmsg_spec(c: Ctx, m: Map<int, u8>, h: MsgHdr, r: Result<ToSend, i32>, sock: usize) -> bool {
    match msg_iovs(m, h.iov, h.iovlen) {
        Err(e) => r is Err && r->Err_0 == e,
        Ok(l) => match gathered(m, l, 0) {
            None => r is Err && r->Err_0 == EFAULT,
            Some(data) => match receiver(m, h.name, h.namelen) {
                Err(e) => r is Err && r->Err_0 == e,
                Ok(to) => match control_of(m, h.control, h.controllen) {
                    None => r is Err && r->Err_0 == EFAULT,
                    Some(ctl) => match rights(c, ctl, 0) {
                        None => r is Err && r->Err_0 == EBADF,
                        Some(files) => {
                            &&& r is Ok
                            &&& r->Ok_0.sock == sock
                            &&& r->Ok_0.data@ == data
                            &&& opt_view(r->Ok_0.to) == to
                            &&& r->Ok_0.files@ == files
                        },
                    },
                },
            },
        },
    }
}

/// What to send from several buffers, to whom, and with which files.
pub fn sys_sendmsg(c: &Ctx, mem: &UserMem, fd: i32, msg: usize) -> (r: Result<ToSend, i32>)
    requires
        c.wf(),
    ensures
        match sock_spec(*c, fd) {
            Err(e) => r is Err && r->Err_0 == e,
            Ok(s) => if !mapped(mem@, msg as int, 56) {
                r is Err && r->Err_0 == EFAULT
            } else {
                exists|h: MsgHdr|
                    #[trigger] hdr_is(h, mem@, msg as int) && sendmsg_spec(*c, mem@, h, r, s)
            },
        },
{
    let sock: usize = match sock_of(c, fd) {
        Ok(s) => s,
        Err(e) => {
            return Err(e);
        },
    };
    let h: MsgHdr = match read_hdr(mem, msg) {
        Ok(h) => h,
        Err(e) => {
            return Err(e);
        },
    };
    assert(hdr_is(h, mem@, msg as int));
    let l: Vec<(usize, usize)> = match read_msg_iovs(mem, h.iov, h.iovlen) {
        Ok(l) => l,
        Err(e) => {
            return Err(e);
        },
    };
    let data: Vec<u8> = match gather(mem, &l) {
        Ok(d) => d,
        Err(e) => {
            return Err(e);
        },
    };
    let to: Option<SockAddr> = match read_receiver(mem, h.name, h.namelen) {
        Ok(t) => t,
        Err(e) => {
            return Err(e);
        },
    };
    let mut ctl: Vec<u8> = Vec::new();
    if h.control != 0 && h.controllen >= 16 {
        let n: usize = if h.controllen < 4096 {
            h.controllen
        } else {
            4096
        };
        match mem.copy_from_user(h.control, n) {
            Ok(b) => {
                ctl = b;
            },
            Err(e) => {
                return Err(e);
            },
        }
    }
    proof {
        assert(control_of(mem@, h.control, h.controllen) is Some);
        assert(ctl@ =~= control_of(mem@, h.control, h.controllen)->0);
    }
    match read_rights(c, &ctl) {
        Ok(files) => Ok(ToSend { sock, data, to, files }),
        Err(e) => Err(e),
    }
}

/// A message to be received: its header, the buffers, and how much they hold.
pub struct ToReceive {
    pub sock: usize,
    pub hdr: MsgHdr,
    pub iovs: Vec<(usize, usize)>,
    pub len: usize,
}

/// Begins to receive a message.
pub fn sys_recvmsg(c: &Ctx, mem: &UserMem, fd: i32, msg: usize) -> (r: Result<ToReceive, i32>)
    requires
        c.wf(),
    ensures
        match sock_spec(*c, fd) {
            Err(e) => r is Err && r->Err_0 == e,
            Ok(s) => if !mapped(mem@, msg as int, 56) {
                r is Err && r->Err_0 == EFAULT
            } else {
                let iov = num_at(mem@, msg + 16, 8) as usize;
                let cnt = num_at(mem@, msg + 24, 8) as usize;
                match msg_iovs(mem@, iov, cnt) {
                    Err(e) => r is Err && r->Err_0 == e,
                    Ok(l) => {
                        &&& r is Ok
                        &&& r->Ok_0.sock == s
                        &&& hdr_is(r->Ok_0.hdr, mem@, msg as int)
                        &&& r->Ok_0.iovs@ == l
                        &&& r->Ok_0.len == used_room(l, MAX_DATA)
                    },
                }
            },
        },
{
    let sock: usize = match sock_of(c, fd) {
        Ok(s) => s,
        Err(e) => {
            return Err(e);
        },
    };
    let hdr: MsgHdr = match read_hdr(mem, msg) {
        Ok(h) => h,
        Err(e) => {
            return Err(e);
        },
    };
    match read_msg_iovs(mem, hdr.iov, hdr.iovlen) {
        Ok(iovs) => {
            let len: usize = room_of(&iovs, MAX_DATA);
            Ok(ToReceive { sock, hdr, iovs, len })
        },
        Err(e) => Err(e),
    }
}

/// Descriptors for files from the `k`-th on: those given out, whether there were
/// enough, and the table after it.
pub open spec fn given(e: Fds, limit: int, files: Seq<usize>, cloexec: bool, k: int) -> (
    Seq<int>,
    bool,
    Fds,
)
    decreases files.len() - k,
{
    let fd = free_from(e, 0);
    if !(0 <= k < files.len()) {
        (Seq::empty(), true, e)
    } else if fd >= limit {
        (Seq::empty(), false, e)
    } else {
        let rest = given(
            with_fd(e, fd, Some(FdEntry { file: files[k], cloexec })),
            limit,
            files,
            cloexec,
            k + 1,
        );
        (seq![fd] + rest.0, rest.1, rest.2)
    }
}

/// Descriptors in four bytes each.
pub open spec fn fd_bytes(l: Seq<int>) -> Seq<u8>
    decreases l.len(),
{
    if l.len() == 0 {
        Seq::empty()
    } else {
        le(l[0] as nat, 4) + fd_bytes(l.skip(1))
    }
}

#[verifier::loop_isolation(false)]
fn give_fds(c: &mut Ctx, files: &Vec<usize>, cloexec: bool, v: &mut Vec<u8>) -> (r: Result<(), i32>)
    requires
        old(c).wf(),
        forall|i: int| 0 <= i < files@.len() ==> #[trigger] files@[i] < old(c).files@.len(),
    ensures
        final(c).wf(),
        only_fds(*old(c), *final(c)),
        ({
            let g = given(
                old(c).fds.entries@,
                old(c).fds.limit as int,
                files@,
                cloexec,
                0,
            );
            &&& final(c).fds.entries@ == g.2
            &&& r is Ok == g.1
            &&& r is Ok ==> final(v)@ == old(v)@ + fd_bytes(g.0)
            &&& r is Err ==> r->Err_0 == EMFILE
        }),
{
    let ghost a = *c;
    let ghost limit = c.fds.limit as int;
    let ghost all = given(c.fds.entries@, limit, files@, cloexec, 0);
    let ghost v0 = v@;
    let ghost mut done: Seq<int> = Seq::empty();
    let n: usize = files.len();
    let mut k: usize = 0;
    proof {
        assert(done + all.0 =~= all.0);
        assert(v0 + fd_bytes(done) =~= v0);
    }
    while k < n
        invariant
            k <= n == files@.len(),
            c.wf(),
            only_fds(a, *c),
            ({
                let g = given(c.fds.entries@, limit, files@, cloexec, k as int);
                all.1 == g.1 && all.2 == g.2 && all.0 == done + g.0
            }),
            v@ == v0 + fd_bytes(done),
        decreases n - k,
    {
        let ghost e = c.fds.entries@;
        match alloc_from(c, files[k], cloexec, 0) {
            Ok(fd) => {
                let ghost v1 = v@;
                put_le(v, fd as u64, 4);
                proof {
                    let g = given(c.fds.entries@, limit, files@, cloexec, k + 1);
                    lemma_fd_push(done, fd as int);
                    assert(done + (seq![fd as int] + g.0) =~= done.push(fd as int) + g.0);
                    assert(v@ =~= v0 + fd_bytes(done.push(fd as int)));
                    done = done.push(fd as int);
                }
            },
            Err(x) => {
                return Err(x);
            },
        }
        k = k + 1;
    }
    proof {
        assert(done + Seq::<int>::empty() =~= done);
    }
    Ok(())
}

proof fn lemma_fd_push(l: Seq<int>, x: int)
    ensures
        fd_bytes(l.push(x)) == fd_bytes(l) + le(x as nat, 4),
    decreases l.len(),
{
    if l.len() == 0 {
        assert(l.push(x).skip(1) =~= Seq::empty());
        assert(le(x as nat, 4) + Seq::<u8>::empty() =~= Seq::<u8>::empty() + le(x as nat, 4));
        reveal_with_fuel(fd_bytes, 2);
    } else {
        lemma_fd_push(l.skip(1), x);
        assert(l.push(x).skip(1) =~= l.skip(1).push(x));
        assert(le(l[0] as nat, 4) + (fd_bytes(l.skip(1)) + le(x as nat, 4)) =~= (le(
            l[0] as nat,
            4,
        ) + fd_bytes(l.skip(1))) + le(x as nat, 4));
    }
}

/// A control message that passes descriptors, padded to a multiple of 8.
pub open spec fn rights_bytes(l: Seq<int>) -> Seq<u8> {
    let b = le((16 + 4 * l.len()) as nat, 8) + le(SOL_SOCKET as nat, 4) + le(SCM_RIGHTS as nat, 4)
        + fd_bytes(l);
    b + zeros((up8(b.len() as int) - b.len()) as nat)
}

/// The header after a message was received.
pub open spec fn hdr_bytes(raw: Seq<u8>, namelen: u32, controllen: int, flags: u32) -> Seq<u8> {
    raw.take(8) + le(namelen as nat, 4) + raw.subrange(12, 40) + le(controllen as nat, 8) + le(
        flags as nat,
        4,
    ) + raw.subrange(52, 56)
}

/// Telling the sender: whether it could be stored, the memory, and the size that
/// the header tells.
pub open spec fn sender_told(m: Map<int, u8>, name: usize, namelen: u32, from: Option<SockAddrView>) -> (
    bool,
    Map<int, u8>,
    u32,
) {
    match from {
        None => (true, m, 0),
        Some(a) => {
            let b = sockaddr_bytes(a);
            let n = least(b.len() as int, namelen as int);
            if name == 0 {
                (true, m, namelen)
            } else if mapped(m, name as int, n) {
                (true, stored(m, name as int, b.take(n)), b.len() as u32)
            } else {
                (false, m, namelen)
            }
        },
    }
}

/// The end of receiving a message.
pub open spec fn recvmsg_post(
    a: Ctx,
    m: Map<int, u8>,
    msg: usize,
    h: MsgHdr,
    iovs: Seq<(usize, usize)>,
    x: Received,
    flags: u32,
    r: SysResult,
    b: Ctx,
    n: Map<int, u8>,
) -> bool {
    let s = scattered(m, iovs, x.data@, 0, 0);
    let t = sender_told(s.1, h.name, h.namelen, opt_view(x.from));
    let k = x.files@.len();
    let g = given(a.fds.entries@, a.fds.limit as int, x.files@, flags & MSG_CMSG_CLOEXEC != 0, 0);
    let ctl = rights_bytes(g.0);
    let done = |m2: Map<int, u8>, len: int, fl: u32|
        if mapped(m2, msg as int, 56) {
            r == ok(x.data@.len() as int) && n == stored(
                m2,
                msg as int,
                hdr_bytes(h.raw@, t.2, len, fl),
            )
        } else {
            r == err(EFAULT) && n == m2
        };
    if !s.0 {
        r == err(EFAULT) && n == s.1 && b == a
    } else if !t.0 {
        r == err(EFAULT) && n == t.1 && b == a
    } else if k == 0 || h.control == 0 {
        b == a && done(t.1, 0, 0)
    } else if h.controllen < 16 + 4 * k {
        b == a && done(t.1, 0, MSG_CTRUNC)
    } else {
        &&& only_fds(a, b)
        &&& b.fds.entries@ == g.2
        &&& if !g.1 {
            r == err(EMFILE) && n == t.1
        } else if !mapped(t.1, h.control as int, ctl.len() as int) {
            r == err(EFAULT) && n == t.1
        } else {
            done(stored(t.1, h.control as int, ctl), ctl.len() as int, 0)
        }
    }
}

fn put_part(v: &mut Vec<u8>, s: &Vec<u8>, from: usize, to: usize)
    requires
        from <= to <= s@.len(),
    ensures
        final(v)@ == old(v)@ + s@.subrange(from as int, to as int),
{
    let ghost v0 = v@;
    let mut i: usize = from;
    proof {
        assert(v0 + s@.subrange(from as int, from as int) =~= v0);
    }
    while i < to
        invariant
            from <= i <= to <= s@.len(),
            v@ == v0 + s@.subrange(from as int, i as int),
        decreases to - i,
    {
        v.push(s[i]);
        i = i + 1;
        proof {
            assert(v@ =~= v0 + s@.subrange(from as int, i as int));
        }
    }
}

fn finish(mem: &mut UserMem, msg: usize, raw: &Vec<u8>, namelen: u32, controllen: usize, flags: u32, n: usize) -> (r:
    SysResult)
    requires
        raw@.len() == 56,
    ensures
        if mapped(old(mem)@, msg as int, 56) {
            r == ok(n as int) && final(mem)@ == stored(
                old(mem)@,
                msg as int,
                hdr_bytes(raw@, namelen, controllen as int, flags),
            )
        } else {
            r == err(EFAULT) && final(mem)@ == old(mem)@
        },
{
    let mut v: Vec<u8> = Vec::new();
    put_part(&mut v, raw, 0, 8);
    put_le(&mut v, namelen as u64, 4);
    put_part(&mut v, raw, 12, 40);
    put_le(&mut v, controllen as u64, 8);
    put_le(&mut v, flags as u64, 4);
    put_part(&mut v, raw, 52, 56);
    proof {
        broadcast use crate::bytes::lemma_le_len;

        assert(raw@.subrange(0, 8) =~= raw@.take(8));
        assert(v@ =~= hdr_bytes(raw@, namelen, controllen as int, flags));
        assert(v@.len() == 56);
    }
    match mem.copy_to_user(msg, &v) {
        Ok(_) => Ok(n),
        Err(e) => Err(e),
    }
}

/// Ends receiving a message: the data is spread over the buffers, the sender is
/// told, the files that came get descriptors, and the header is stored. Where
/// there is no room to tell the descriptors, the files are dropped and the
/// header says so.
pub fn recvmsg_done(
    c: &mut Ctx,
    mem: &mut UserMem,
    msg: usize,
    req: &ToReceive,
    got: Result<Received, i32>,
    flags: u32,
) -> (r: SysResult)
    requires
        old(c).wf(),
        req.hdr.raw@.len() == 56,
        got is Ok ==> got->Ok_0.files@.len() < 0x1000_0000,
        got is Ok ==> forall|i: int|
            0 <= i < got->Ok_0.files@.len() ==> #[trigger] got->Ok_0.files@[i] < old(
                c,
            ).files@.len(),
    ensures
        final(c).wf(),
        match got {
            Err(e) => r == err(e) && *final(c) == *old(c) && final(mem)@ == old(mem)@,
            Ok(x) => recvmsg_post(
                *old(c),
                old(mem)@,
                msg,
                req.hdr,
                req.iovs@,
                x,
                flags,
                r,
                *final(c),
                final(mem)@,
            ),
        },
{
    let x: Received = match got {
        Ok(x) => x,
        Err(e) => {
            return Err(e);
        },
    };
    let n: usize = x.data.len();
    match scatter(mem, &req.iovs, &x.data) {
        Ok(_) => {},
        Err(e) => {
            return Err(e);
        },
    }
    let mut namelen: u32 = 0;
    match &x.from {
        Some(a) => {
            namelen = req.hdr.namelen;
            if req.hdr.name != 0 {
                let b: Vec<u8> = a.to_bytes();
                let k: usize = if b.len() < namelen as usize {
                    b.len()
                } else {
                    namelen as usize
                };
                let part: Vec<u8> = take_part(&b, k);
                match mem.copy_to_user(req.hdr.name, &part) {
                    Ok(_) => {},
                    Err(e) => {
                        return Err(e);
                    },
                }
                namelen = b.len() as u32;
            }
        },
        None => {},
    }
    let k: usize = x.files.len();
    if k == 0 || req.hdr.control == 0 {
        return finish(mem, msg, &req.hdr.raw, namelen, 0, 0, n);
    }
    let need: usize = 16 + 4 * k;
    if req.hdr.controllen < need {
        return finish(mem, msg, &req.hdr.raw, namelen, 0, MSG_CTRUNC, n);
    }
    let ghost e0 = c.fds.entries@;
    let ghost g = given(
        e0,
        c.fds.limit as int,
        x.files@,
        flags & MSG_CMSG_CLOEXEC != 0,
        0,
    );
    let mut ctl: Vec<u8> = Vec::new();
    put_le(&mut ctl, need as u64, 8);
    put_le(&mut ctl, SOL_SOCKET as u64, 4);
    put_le(&mut ctl, SCM_RIGHTS as u64, 4);
    let ghost head = ctl@;
    match give_fds(c, &x.files, flags & MSG_CMSG_CLOEXEC != 0, &mut ctl) {
        Ok(_) => {},
        Err(e) => {
            return Err(e);
        },
    }
    proof {
        lemma_given_len(e0, c.fds.limit as int, x.files@, flags & MSG_CMSG_CLOEXEC != 0, 0);
        lemma_fd_len(g.0);
        broadcast use crate::bytes::lemma_le_len;

        assert(head =~= le(need as nat, 8) + le(SOL_SOCKET as nat, 4) + le(SCM_RIGHTS as nat, 4));
        assert(ctl@.len() == need);
    }
    let ghost b = ctl@;
    let pad: usize = (need + 7) / 8 * 8 - need;
    put_zeros(&mut ctl, pad);
    proof {
        assert(b =~= le((16 + 4 * g.0.len()) as nat, 8) + le(SOL_SOCKET as nat, 4) + le(
            SCM_RIGHTS as nat,
            4,
        ) + fd_bytes(g.0));
        assert(ctl@ =~= rights_bytes(g.0));
    }
    match mem.copy_to_user(req.hdr.control, &ctl) {
        Ok(_) => {},
        Err(e) => {
            return Err(e);
        },
    }
    finish(mem, msg, &req.hdr.raw, namelen, ctl.len(), 0, n)
}

proof fn lemma_given_len(e: Fds, limit: int, files: Seq<usize>, cloexec: bool, k: int)
    requires
        0 <= k <= files.len(),
        given(e, limit, files, cloexec, k).1,
    ensures
        given(e, limit, files, cloexec, k).0.len() == files.len() - k,
    decreases files.len() - k,
{
    if k < files.len() {
        let fd = free_from(e, 0);
        lemma_given_len(
            with_fd(e, fd, Some(FdEntry { file: files[k], cloexec })),
            limit,
            files,
            cloexec,
            k + 1,
        );
    }
}

proof fn lemma_fd_len(l: Seq<int>)
    ensures
        fd_bytes(l).len() == 4 * l.len(),
    decreases l.len(),
{
    if l.len() > 0 {
        lemma_fd_len(l.skip(1));
        lemma_le_len(l[0] as nat, 4);
    }
}

/// The files behind descriptors.
pub open spec fn files_of(c: Ctx, l: Seq<int>) -> Seq<usize> {
    Seq::new(l.len(), |i: int| c.file_no(l[i] as i32) as usize)
}

proof fn lemma_passed(c: Ctx, ctl: Seq<u8>, from: int, l: Seq<int>)
    requires
        0 <= from,
        from + 4 * l.len() <= ctl.len(),
        ctl.subrange(from, from + 4 * l.len()) == fd_bytes(l),
        forall|i: int| 0 <= i < l.len() ==> 0 <= #[trigger] l[i] <= i32::MAX && c.is_open(l[i] as i32),
    ensures
        passed(c, ctl, from, from + 4 * l.len()) == Some(files_of(c, l)),
    decreases l.len(),
{
    if l.len() == 0 {
        assert(files_of(c, l) =~= Seq::empty());
    } else {
        let b = fd_bytes(l);
        let rest = l.skip(1);
        lemma_le_len(l[0] as nat, 4);
        lemma_fd_len(rest);
        crate::bytes::lemma_span();
        crate::bytes::from_le_of_le(l[0] as nat, 4);
        assert(ctl.subrange(from, from + 4) =~= b.subrange(0, 4));
        assert(b.subrange(0, 4) =~= le(l[0] as nat, 4));
        assert(ctl.subrange(from + 4, from + 4 + 4 * rest.len()) =~= b.subrange(4, b.len() as int));
        assert(b.subrange(4, b.len() as int) =~= fd_bytes(rest));
        assert forall|i: int| 0 <= i < rest.len() implies 0 <= #[trigger] rest[i] <= i32::MAX && c.is_open(
            rest[i] as i32,
        ) by {
            assert(rest[i] == l[i + 1]);
        }
        lemma_passed(c, ctl, from + 4, rest);
        assert(c.is_open(l[0] as i32));
        assert(seq![c.file_no(l[0] as i32) as usize] + files_of(c, rest) =~= files_of(c, l));
    }
}

/// The control message that tells a receiver of its new descriptors passes, when
/// it is sent on, just the files behind them.
pub proof fn passed_files_read_back(c: Ctx, l: Seq<int>)
    requires
        l.len() <= 1024,
        forall|i: int| 0 <= i < l.len() ==> 0 <= #[trigger] l[i] <= i32::MAX && c.is_open(l[i] as i32),
    ensures
        rights(c, rights_bytes(l), 0) == Some(files_of(c, l)),
{
    let n = 16 + 4 * l.len();
    let ctl = rights_bytes(l);
    broadcast use crate::bytes::lemma_le_len;

    lemma_fd_len(l);
    crate::bytes::lemma_span();
    crate::bytes::from_le_of_le(n as nat, 8);
    crate::bytes::from_le_of_le(SOL_SOCKET as nat, 4);
    crate::bytes::from_le_of_le(SCM_RIGHTS as nat, 4);
    assert(ctl.subrange(0, 8) =~= le(n as nat, 8));
    assert(ctl.subrange(8, 12) =~= le(SOL_SOCKET as nat, 4));
    assert(ctl.subrange(12, 16) =~= le(SCM_RIGHTS as nat, 4));
    assert(ctl.subrange(16, (16 + 4 * l.len()) as int) =~= fd_bytes(l));
    lemma_passed(c, ctl, 16, l);
    assert(ctl.len() == up8(n as int));
    assert(rights(c, ctl, up8(n as int)) == Some(Seq::<usize>::empty()));
    assert(files_of(c, l) + Seq::<usize>::empty() =~= files_of(c, l));
}

} // verus!
