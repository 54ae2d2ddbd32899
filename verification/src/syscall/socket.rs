//! Socket system calls on a descriptor table of fixed size. What the sockets
//! themselves do comes in as an argument.

use vstd::prelude::*;
use crate::bytes::{le, le_bytes, lemma_le_len, put_le, put_zeros, zeros};
use crate::syscall::process::lemma_mapped_stored;
use crate::uaccess::{bytes_at, field, mapped, num_at, stored, UserMem};

verus! {

pub const AF_UNIX: i32 = 1;
pub const AF_INET: i32 = 2;
pub const SOCK_STREAM: i32 = 1;
pub const SOCK_DGRAM: i32 = 2;
pub const SOCK_NONBLOCK: i32 = 0o4000;
pub const SOCK_CLOEXEC: i32 = 0o2000000;
pub const ENOENT: i32 = -2;
pub const EBADF: i32 = -9;
pub const EFAULT: i32 = -14;
pub const EINVAL: i32 = -22;
pub const EMFILE: i32 = -24;
pub const EOPNOTSUPP: i32 = -95;
pub const EAFNOSUPPORT: i32 = -97;
pub const ECONNREFUSED: i32 = -111;
pub const O_NONBLOCK: u32 = 0o4000;

/// What a descriptor is.
#[derive(Clone, Copy, PartialEq, Eq, Structural, Debug)]
pub enum FdKind {
    Socket { sock_id: usize },
    UnixPair { sock_id: usize },
    Other,
}

#[derive(Clone, Copy, PartialEq, Eq, Structural, Debug)]
pub struct Fd {
    pub kind: FdKind,
    pub flags: u32,
    pub cloexec: bool,
}

pub struct Fds {
    pub fds: Vec<Option<Fd>>,
}

pub type Table = Seq<Option<Fd>>;

/// The lowest free descriptor from `i` on.
pub open spec fn free_from(t: Table, i: int) -> int
    decreases t.len() - i,
{
    if 0 <= i < t.len() && t[i] is Some {
        free_from(t, i + 1)
    } else {
        i
    }
}

impl Fds {
    fn lowest(&self) -> (r: Option<usize>)
        ensures
            ({
                let k = free_from(self.fds@, 0);
                match r {
                    Some(i) => i == k && i < self.fds@.len() && self.fds@[i as int] is None,
                    None => k >= self.fds@.len(),
                }
            }),
    {
        let n: usize = self.fds.len();
        let mut i: usize = 0;
        while i < n && self.fds[i].is_some()
            invariant
                i <= n == self.fds@.len(),
                free_from(self.fds@, i as int) == free_from(self.fds@, 0),
            decreases n - i,
        {
            i = i + 1;
        }
        if i < n {
            Some(i)
        } else {
            None
        }
    }
}

/// The socket behind a descriptor.
pub open spec fn sock_spec(t: Table, fd: usize) -> Result<usize, i32> {
    if fd >= t.len() || t[fd as int] is None {
        Err(EBADF)
    } else {
        match t[fd as int]->0.kind {
            FdKind::Socket { sock_id } => Ok(sock_id),
            FdKind::UnixPair { sock_id } => Ok(sock_id),
            FdKind::Other => Err(EINVAL),
        }
    }
}

pub fn sock_id_of(t: &Fds, fd: usize) -> (r: Result<usize, i32>)
    ensures
        r == sock_spec(t.fds@, fd),
{
    if fd >= t.fds.len() {
        return Err(EBADF);
    }
    match t.fds[fd] {
        None => Err(EBADF),
        Some(f) => match f.kind {
            FdKind::Socket { sock_id } => Ok(sock_id),
            FdKind::UnixPair { sock_id } => Ok(sock_id),
            FdKind::Other => Err(EINVAL),
        },
    }
}

/// A descriptor for a file, if there is one left.
pub open spec fn installed(a: Table, f: Fd, r: isize, b: Table) -> bool {
    let k = free_from(a, 0);
    if k < a.len() {
        r == k && b == a.update(k, Some(f))
    } else {
        r == EMFILE && b == a
    }
}

fn install(t: &mut Fds, f: Fd) -> (r: isize)
    requires
        old(t).fds@.len() <= isize::MAX,
    ensures
        installed(old(t).fds@, f, r, final(t).fds@),
{
    match t.lowest() {
        Some(i) => {
            t.fds.set(i, Some(f));
            i as isize
        },
        None => EMFILE as isize,
    }
}

/// The socket that is asked for can be made: only streams can, internet and
/// local ones.
pub open spec fn socket_check(domain: i32, ty: i32) -> Option<i32> {
    if domain != AF_INET && domain != AF_UNIX {
        Some(EAFNOSUPPORT)
    } else if ty & !(SOCK_NONBLOCK | SOCK_CLOEXEC) != SOCK_STREAM {
        Some(EOPNOTSUPP)
    } else {
        None
    }
}

pub fn check_socket(domain: i32, ty: i32) -> (r: Option<i32>)
    ensures
        r == socket_check(domain, ty),
{
    if domain != AF_INET && domain != AF_UNIX {
        return Some(EAFNOSUPPORT);
    }
    if ty & !(SOCK_NONBLOCK | SOCK_CLOEXEC) != SOCK_STREAM {
        return Some(EOPNOTSUPP);
    }
    None
}

pub open spec fn sock_fd(id: usize, nonblock: bool, cloexec: bool) -> Fd {
    Fd {
        kind: FdKind::Socket { sock_id: id },
        flags: if nonblock {
            O_NONBLOCK
        } else {
            0
        },
        cloexec,
    }
}

fn new_fd(id: usize, nonblock: bool, cloexec: bool) -> (r: Fd)
    ensures
        r == sock_fd(id, nonblock, cloexec),
{
    Fd {
        kind: FdKind::Socket { sock_id: id },
        flags: if nonblock {
            O_NONBLOCK
        } else {
            0
        },
        cloexec,
    }
}

/// Gives a new socket a descriptor. `made` is its number.
pub fn sys_socket(t: &mut Fds, domain: i32, ty: i32, made: Result<usize, i32>) -> (r: isize)
    requires
        old(t).fds@.len() <= isize::MAX,
    ensures
        match socket_check(domain, ty) {
            Some(e) => r == e && final(t).fds@ == old(t).fds@,
            None => match made {
                Err(e) => r == e && final(t).fds@ == old(t).fds@,
                Ok(id) => installed(
                    old(t).fds@,
                    sock_fd(id, ty & SOCK_NONBLOCK != 0, ty & SOCK_CLOEXEC != 0),
                    r,
                    final(t).fds@,
                ),
            },
        },
{
    match check_socket(domain, ty) {
        Some(e) => {
            return e as isize;
        },
        None => {},
    }
    match made {
        Err(e) => e as isize,
        Ok(id) => install(t, new_fd(id, ty & SOCK_NONBLOCK != 0, ty & SOCK_CLOEXEC != 0)),
    }
}

/// An address: its family, and of internet ones the number and the port.
#[derive(Clone, Copy, PartialEq, Eq, Structural, Debug)]
pub struct Addr {
    pub family: i32,
    pub ip: u32,
    pub port: u16,
}

pub open spec fn addr_at(m: Map<int, u8>, at: usize, len: usize) -> Result<Addr, i32> {
    let a = at as int;
    let family = num_at(m, a, 2) as i32;
    if len < 8 {
        Err(EINVAL)
    } else if !mapped(m, a, 8) {
        Err(EFAULT)
    } else if family == AF_INET {
        if len < 16 {
            Err(EINVAL)
        } else if !mapped(m, a, 16) {
            Err(EFAULT)
        } else {
            Ok(
                Addr {
                    family,
                    ip: (m[a + 4] * 0x100_0000 + m[a + 5] * 0x1_0000 + m[a + 6] * 256 + m[a
                        + 7]) as u32,
                    port: (m[a + 2] * 256 + m[a + 3]) as u16,
                },
            )
        }
    } else if family == AF_UNIX {
        Ok(Addr { family, ip: 0, port: 0 })
    } else {
        Err(EAFNOSUPPORT)
    }
}

/// Reads an address.
pub fn parse_sockaddr(mem: &UserMem, at: usize, len: usize) -> (r: Result<Addr, i32>)
    ensures
        r == addr_at(mem@, at, len),
{
    if len < 8 {
        return Err(EINVAL);
    }
    let d: Vec<u8> = match mem.copy_from_user(at, 8) {
        Ok(d) => d,
        Err(_) => {
            return Err(EFAULT);
        },
    };
    let family: i32 = field(&d, 0, 2, Ghost(mem@), Ghost(at as int)) as i32;
    if family == AF_INET {
        if len < 16 {
            return Err(EINVAL);
        }
        let d: Vec<u8> = match mem.copy_from_user(at, 16) {
            Ok(d) => d,
            Err(_) => {
                return Err(EFAULT);
            },
        };
        let port: u16 = d[2] as u16 * 256 + d[3] as u16;
        let ip: u32 = d[4] as u32 * 0x100_0000 + d[5] as u32 * 0x1_0000 + d[6] as u32 * 256
            + d[7] as u32;
        Ok(Addr { family, ip, port })
    } else if family == AF_UNIX {
        Ok(Addr { family, ip: 0, port: 0 })
    } else {
        Err(EAFNOSUPPORT)
    }
}

/// Which socket to bind to which address. The address is read first; local
/// sockets cannot be bound.
pub fn sys_bind(t: &Fds, mem: &UserMem, fd: usize, addr: usize, len: usize) -> (r: Result<(usize, Addr), i32>)
    ensures
        r == (match addr_at(mem@, addr, len) {
            Err(e) => Err::<(usize, Addr), i32>(e),
            Ok(a) => match sock_spec(t.fds@, fd) {
                Err(e) => Err::<(usize, Addr), i32>(e),
                Ok(s) => if a.family == AF_INET {
                    Ok::<(usize, Addr), i32>((s, a))
                } else {
                    Err::<(usize, Addr), i32>(EINVAL)
                },
            },
        }),
{
    let a: Addr = match parse_sockaddr(mem, addr, len) {
        Ok(a) => a,
        Err(e) => {
            return Err(e);
        },
    };
    match sock_id_of(t, fd) {
        Err(e) => Err(e),
        Ok(s) => {
            if a.family == AF_INET {
                Ok((s, a))
            } else {
                Err(EINVAL)
            }
        },
    }
}

/// What a call returns that asked socket `fd` to do something.
pub open spec fn did(t: Table, fd: usize, r: Result<(), i32>) -> isize {
    match sock_spec(t, fd) {
        Err(e) => e as isize,
        Ok(_) => match r {
            Ok(_) => 0,
            Err(e) => e as isize,
        },
    }
}

/// The end of making a socket listen.
pub fn sys_listen(t: &Fds, fd: usize, done: Result<(), i32>) -> (r: isize)
    ensures
        r == did(t.fds@, fd, done),
{
    match sock_id_of(t, fd) {
        Err(e) => e as isize,
        Ok(_) => match done {
            Ok(_) => 0,
            Err(e) => e as isize,
        },
    }
}

/// The end of shutting a connection down.
pub fn sys_shutdown(t: &Fds, fd: usize, done: Result<(), i32>) -> (r: isize)
    ensures
        r == did(t.fds@, fd, done),
{
    sys_listen(t, fd, done)
}

/// There are no connections to elsewhere: no local path is there, and internet
/// addresses refuse.
pub fn sys_connect(t: &Fds, mem: &UserMem, fd: usize, addr: usize, len: usize) -> (r: isize)
    ensures
        r == (match addr_at(mem@, addr, len) {
            Err(e) => e as isize,
            Ok(a) => match sock_spec(t.fds@, fd) {
                Err(e) => e as isize,
                Ok(_) => if a.family == AF_UNIX {
                    ENOENT as isize
                } else {
                    ECONNREFUSED as isize
                },
            },
        }),
{
    match parse_sockaddr(mem, addr, len) {
        Err(e) => e as isize,
        Ok(a) => match sock_id_of(t, fd) {
            Err(e) => e as isize,
            Ok(_) => if a.family == AF_UNIX {
                ENOENT as isize
            } else {
                ECONNREFUSED as isize
            },
        },
    }
}

/// An internet address in 16 bytes.
pub open spec fn addr_bytes(ip: u32, port: u16) -> Seq<u8> {
    seq![
        2u8,
        0,
        (port / 256) as u8,
        (port % 256) as u8,
        (ip / 0x100_0000) as u8,
        (ip / 0x1_0000 % 256) as u8,
        (ip / 256 % 256) as u8,
        (ip % 256) as u8,
    ] + zeros(8)
}

fn addr_vec(ip: u32, port: u16) -> (v: Vec<u8>)
    ensures
        v@ == addr_bytes(ip, port),
        v@.len() == 16,
{
    let mut v: Vec<u8> = vec![
        2,
        0,
        (port / 256) as u8,
        (port % 256) as u8,
        (ip / 0x100_0000) as u8,
        (ip / 0x1_0000 % 256) as u8,
        (ip / 256 % 256) as u8,
        (ip % 256) as u8,
    ];
    put_zeros(&mut v, 8);
    proof {
        assert(v@ =~= addr_bytes(ip, port));
    }
    v
}

/// Memory after bytes were stored, where they could be.
pub open spec fn tried(m: Map<int, u8>, at: usize, s: Seq<u8>) -> Map<int, u8> {
    if mapped(m, at as int, s.len() as int) {
        stored(m, at as int, s)
    } else {
        m
    }
}

fn try_write(mem: &mut UserMem, at: usize, v: &Vec<u8>)
    ensures
        final(mem)@ == tried(old(mem)@, at, v@),
{
    let _ = mem.copy_to_user(at, v);
}

/// Memory after the size of an address was told.
pub open spec fn size_told(m: Map<int, u8>, lenp: usize) -> Map<int, u8> {
    if lenp != 0 {
        tried(m, lenp, le(16, 4))
    } else {
        m
    }
}

fn tell_size(mem: &mut UserMem, lenp: usize)
    ensures
        final(mem)@ == size_told(old(mem)@, lenp),
{
    if lenp != 0 {
        let v: Vec<u8> = le_bytes(16, 4);
        try_write(mem, lenp, &v);
    }
}

/// A connection that was accepted.
#[derive(Clone, Copy, PartialEq, Eq, Structural, Debug)]
pub struct Peer {
    pub id: usize,
    pub ip: u32,
    pub port: u16,
}

/// The end of accepting a connection: the peer is told where that is asked for
/// and possible, and the connection gets a descriptor. `nonblock` is whether
/// the listening socket must not block.
pub fn sys_accept(
    t: &mut Fds,
    mem: &mut UserMem,
    fd: usize,
    got: Result<Peer, i32>,
    addr: usize,
    addrlen: usize,
    flags: usize,
    nonblock: bool,
) -> (r: isize)
    requires
        old(t).fds@.len() <= isize::MAX,
    ensures
        match sock_spec(old(t).fds@, fd) {
            Err(e) => r == e && final(t).fds@ == old(t).fds@ && final(mem)@ == old(mem)@,
            Ok(_) => match got {
                Err(e) => r == e && final(t).fds@ == old(t).fds@ && final(mem)@ == old(mem)@,
                Ok(p) => {
                    &&& final(mem)@ == (if addr != 0 {
                        tried(size_told(old(mem)@, addrlen), addr, addr_bytes(p.ip, p.port))
                    } else {
                        old(mem)@
                    })
                    &&& installed(
                        old(t).fds@,
                        sock_fd(
                            p.id,
                            flags & 0o4000 != 0 || nonblock,
                            flags & 0o2000000 != 0,
                        ),
                        r,
                        final(t).fds@,
                    )
                },
            },
        },
{
    match sock_id_of(t, fd) {
        Err(e) => {
            return e as isize;
        },
        Ok(_) => {},
    }
    let nb: bool = flags & 0o4000 != 0 || nonblock;
    match got {
        Err(e) => e as isize,
        Ok(p) => {
            if addr != 0 {
                tell_size(mem, addrlen);
                let v: Vec<u8> = addr_vec(p.ip, p.port);
                try_write(mem, addr, &v);
            }
            install(t, new_fd(p.id, nb, flags & 0o2000000 != 0))
        },
    }
}

pub open spec fn name_post(
    t: Table,
    m: Map<int, u8>,
    fd: usize,
    name: (u32, u16),
    addr: usize,
    addrlen: usize,
    r: isize,
    n: Map<int, u8>,
) -> bool {
    match sock_spec(t, fd) {
        Err(e) => r == e && n == m,
        Ok(_) => r == 0 && n == size_told(tried(m, addr, addr_bytes(name.0, name.1)), addrlen),
    }
}

/// Tells the address of a socket, as far as it can be stored.
pub fn sys_getsockname(t: &Fds, mem: &mut UserMem, fd: usize, name: (u32, u16), addr: usize, addrlen: usize) -> (r:
    isize)
    ensures
        name_post(t.fds@, old(mem)@, fd, name, addr, addrlen, r, final(mem)@),
{
    match sock_id_of(t, fd) {
        Err(e) => {
            return e as isize;
        },
        Ok(_) => {},
    }
    let v: Vec<u8> = addr_vec(name.0, name.1);
    try_write(mem, addr, &v);
    tell_size(mem, addrlen);
    0
}

/// Tells the address of a socket's peer, as far as it can be stored.
pub fn sys_getpeername(t: &Fds, mem: &mut UserMem, fd: usize, name: (u32, u16), addr: usize, addrlen: usize) -> (r:
    isize)
    ensures
        name_post(t.fds@, old(mem)@, fd, name, addr, addrlen, r, final(mem)@),
{
    sys_getsockname(t, mem, fd, name, addr, addrlen)
}

/// The data to send. It is read before the descriptor is looked at.
pub fn sys_sendto(t: &Fds, mem: &UserMem, fd: usize, buf: usize, len: usize) -> (r: Result<Vec<u8>, i32>)
    ensures
        if !mapped(mem@, buf as int, len as int) {
            r is Err && r->Err_0 == EFAULT
        } else if fd >= t.fds@.len() || t.fds@[fd as int] is None {
            r is Err && r->Err_0 == EBADF
        } else {
            r is Ok && r->Ok_0@ == bytes_at(mem@, buf as int, len as int)
        },
{
    match mem.copy_from_user(buf, len) {
        Err(_) => Err(EFAULT),
        Ok(d) => {
            if fd >= t.fds.len() || t.fds[fd].is_none() {
                return Err(EBADF);
            }
            Ok(d)
        },
    }
}

/// Stores what was received, where it can be; the call returns how much came.
pub fn sys_recvfrom(t: &Fds, mem: &mut UserMem, fd: usize, buf: usize, got: Result<Vec<u8>, i32>) -> (r: isize)
    requires
        got is Ok ==> got->Ok_0@.len() <= isize::MAX,
    ensures
        if fd >= t.fds@.len() || t.fds@[fd as int] is None {
            r == EBADF && final(mem)@ == old(mem)@
        } else {
            match got {
                Err(e) => r == e && final(mem)@ == old(mem)@,
                Ok(v) => r == v@.len() && final(mem)@ == (if v@.len() > 0 {
                    tried(old(mem)@, buf, v@)
                } else {
                    old(mem)@
                }),
            }
        },
{
    if fd >= t.fds.len() || t.fds[fd].is_none() {
        return EBADF as isize;
    }
    match got {
        Err(e) => e as isize,
        Ok(v) => {
            if v.len() > 0 {
                try_write(mem, buf, &v);
            }
            v.len() as isize
        },
    }
}

/// The value of an option to be set; none where it cannot be read.
pub fn sys_setsockopt(t: &Fds, mem: &UserMem, fd: usize, val: usize, len: usize) -> (r: Result<(usize, Vec<u8>), i32>)
    ensures
        match sock_spec(t.fds@, fd) {
            Err(e) => r is Err && r->Err_0 == e,
            Ok(s) => r is Ok && (r->Ok_0).0 == s && (r->Ok_0).1@ == (if mapped(
                mem@,
                val as int,
                len as int,
            ) {
                bytes_at(mem@, val as int, len as int)
            } else {
                Seq::empty()
            }),
        },
{
    match sock_id_of(t, fd) {
        Err(e) => Err(e),
        Ok(s) => match mem.copy_from_user(val, len) {
            Ok(d) => Ok((s, d)),
            Err(_) => {
                let d: Vec<u8> = Vec::new();
                assert(d@ =~= Seq::empty());
                Ok((s, d))
            },
        },
    }
}

/// Tells the value of an option and its size, as far as they can be stored.
pub fn sys_getsockopt(t: &Fds, mem: &mut UserMem, fd: usize, got: Result<Vec<u8>, i32>, val: usize, vallen: usize) -> (r:
    isize)
    ensures
        match sock_spec(t.fds@, fd) {
            Err(e) => r == e && final(mem)@ == old(mem)@,
            Ok(_) => match got {
                Err(e) => r == e && final(mem)@ == old(mem)@,
                Ok(v) => r == 0 && final(mem)@ == tried(
                    tried(old(mem)@, val, v@),
                    vallen,
                    le(v@.len(), 4),
                ),
            },
        },
{
    match sock_id_of(t, fd) {
        Err(e) => {
            return e as isize;
        },
        Ok(_) => {},
    }
    match got {
        Err(e) => e as isize,
        Ok(v) => {
            try_write(mem, val, &v);
            let n: Vec<u8> = le_bytes(v.len() as u64, 4);
            try_write(mem, vallen, &n);
            0
        },
    }
}

/// The buffers of a message: their address and number.
pub fn message_iovs(mem: &UserMem, msg: usize) -> (r: Result<(usize, usize), i32>)
    ensures
        r == (if mapped(mem@, msg as int, 56) {
            Ok::<(usize, usize), i32>(
                (num_at(mem@, msg + 16, 8) as usize, num_at(mem@, msg + 24, 8) as usize),
            )
        } else {
            Err::<(usize, usize), i32>(EFAULT)
        }),
{
    match mem.copy_from_user(msg, 56) {
        Ok(b) => {
            let iov: u64 = field(&b, 16, 8, Ghost(mem@), Ghost(msg as int));
            let n: u64 = field(&b, 24, 8, Ghost(mem@), Ghost(msg as int));
            Ok((iov as usize, n as usize))
        },
        Err(_) => Err(EFAULT),
    }
}

/// How a call on several buffers goes on.
#[derive(Clone, Copy, PartialEq, Eq, Structural, Debug)]
pub enum MsgStep {
    Done(isize),
    Next(usize),
}

/// Sending one of several buffers came to `wrote`, after `total` bytes.
pub fn sys_sendmsg(total: usize, wrote: Result<usize, i32>) -> (r: MsgStep)
    requires
        wrote is Ok ==> total + wrote->Ok_0 <= usize::MAX,
    ensures
        r == (match wrote {
            Ok(n) => MsgStep::Next((total + n) as usize),
            Err(e) => MsgStep::Done(e as isize),
        }),
{
    match wrote {
        Ok(n) => MsgStep::Next(total + n),
        Err(e) => MsgStep::Done(e as isize),
    }
}

/// Receiving into one of several buffers of `len` bytes, after `total` bytes. A
/// buffer that is not filled is the last.
pub fn sys_recvmsg(mem: &mut UserMem, total: usize, base: usize, len: usize, got: Result<Vec<u8>, i32>) -> (r:
    MsgStep)
    requires
        got is Ok ==> total + got->Ok_0@.len() <= isize::MAX,
    ensures
        match got {
            Err(e) => r == MsgStep::Done(e as isize) && final(mem)@ == old(mem)@,
            Ok(v) => {
                &&& final(mem)@ == (if v@.len() > 0 {
                    tried(old(mem)@, base, v@)
                } else {
                    old(mem)@
                })
                &&& r == (if v@.len() < len {
                    MsgStep::Done((total + v@.len()) as isize)
                } else {
                    MsgStep::Next((total + v@.len()) as usize)
                })
            },
        },
{
    match got {
        Err(e) => MsgStep::Done(e as isize),
        Ok(v) => {
            if v.len() > 0 {
                try_write(mem, base, &v);
            }
            if v.len() < len {
                MsgStep::Done((total + v.len()) as isize)
            } else {
                MsgStep::Next(total + v.len())
            }
        },
    }
}

pub open spec fn pair_fd(id: usize) -> Fd {
    Fd { kind: FdKind::UnixPair { sock_id: id }, flags: 0, cloexec: false }
}

/// Gives the two sockets of a pair, which were made, descriptors, and tells
/// them.
pub fn sys_socketpair(t: &mut Fds, mem: &mut UserMem, domain: i32, ty: i32, made: Result<(usize, usize), i32>, sv: usize) -> (r:
    isize)
    requires
        old(t).fds@.len() <= isize::MAX,
    ensures
        ({
            let a = old(t).fds@;
            let same = final(t).fds@ == a && final(mem)@ == old(mem)@;
            if domain != AF_UNIX {
                r == EAFNOSUPPORT && same
            } else if ty & !(SOCK_NONBLOCK | SOCK_CLOEXEC) != SOCK_STREAM {
                r == EOPNOTSUPP && same
            } else {
                match made {
                    Err(e) => r == e && same,
                    Ok(p) => {
                        let fa = free_from(a, 0);
                        let t1 = a.update(fa, Some(pair_fd(p.0)));
                        let fb = free_from(t1, 0);
                        if fa >= a.len() {
                            r == EMFILE && same
                        } else if fb >= a.len() {
                            r == EMFILE && final(t).fds@ == t1 && final(mem)@ == old(mem)@
                        } else {
                            &&& final(t).fds@ == t1.update(fb, Some(pair_fd(p.1)))
                            &&& if mapped(old(mem)@, sv as int, 8) {
                                r == 0 && final(mem)@ == stored(
                                    old(mem)@,
                                    sv as int,
                                    le(fa as nat, 4) + le(fb as nat, 4),
                                )
                            } else {
                                r == EFAULT && final(mem)@ == old(mem)@
                            }
                        }
                    },
                }
            }
        }),
{
    if domain != AF_UNIX {
        return EAFNOSUPPORT as isize;
    }
    if ty & !(SOCK_NONBLOCK | SOCK_CLOEXEC) != SOCK_STREAM {
        return EOPNOTSUPP as isize;
    }
    let p: (usize, usize) = match made {
        Ok(p) => p,
        Err(e) => {
            return e as isize;
        },
    };
    let fa: usize = match t.lowest() {
        Some(i) => i,
        None => {
            return EMFILE as isize;
        },
    };
    t.fds.set(
        fa,
        Some(Fd { kind: FdKind::UnixPair { sock_id: p.0 }, flags: 0, cloexec: false }),
    );
    let fb: usize = match t.lowest() {
        Some(i) => i,
        None => {
            return EMFILE as isize;
        },
    };
    t.fds.set(
        fb,
        Some(Fd { kind: FdKind::UnixPair { sock_id: p.1 }, flags: 0, cloexec: false }),
    );
    let mut v: Vec<u8> = Vec::new();
    put_le(&mut v, fa as u64, 4);
    put_le(&mut v, fb as u64, 4);
    proof {
        lemma_le_len(fa as nat, 4);
        lemma_le_len(fb as nat, 4);
        assert(v@ =~= le(fa as nat, 4) + le(fb as nat, 4));
    }
    match mem.copy_to_user(sv, &v) {
        Ok(_) => 0,
        Err(_) => EFAULT as isize,
    }
}

/// Whether a descriptor is a socket that must not block. `nonblock` says so of
/// the sockets.
pub fn sock_fd_nonblock(f: &Fd, nonblock: &Vec<bool>) -> (r: bool)
    ensures
        r == (match f.kind {
            FdKind::Socket { sock_id } => sock_id < nonblock@.len() && nonblock@[sock_id as int],
            FdKind::UnixPair { sock_id } => sock_id < nonblock@.len()
                && nonblock@[sock_id as int],
            FdKind::Other => false,
        }),
{
    let id: usize = match f.kind {
        FdKind::Socket { sock_id } => sock_id,
        FdKind::UnixPair { sock_id } => sock_id,
        FdKind::Other => {
            return false;
        },
    };
    id < nonblock.len() && nonblock[id]
}

/// An address that was told reads back as the same address.
pub proof fn address_reads_back(m: Map<int, u8>, at: usize, ip: u32, port: u16)
    requires
        mapped(m, at as int, 16),
    ensures
        addr_at(stored(m, at as int, addr_bytes(ip, port)), at, 16) == Ok::<Addr, i32>(
            Addr { family: AF_INET, ip, port },
        ),
{
    let b = addr_bytes(ip, port);
    let a = at as int;
    let n = stored(m, a, b);
    lemma_mapped_stored(m, a, b);
    assert forall|i: int| 0 <= i < 16 implies #[trigger] n[a + i] == b[i] by {
        assert(m.dom().contains(a + i));
    }
    assert(mapped(n, a, 16));
    assert(mapped(n, a, 8));
    lemma_le_len(2, 2);
    assert(bytes_at(n, a, 2) =~= le(2, 2)) by {
        reveal_with_fuel(le, 3);
        assert(n[a + 0] == 2 && n[a + 1] == 0);
    }
    crate::bytes::lemma_span();
    crate::bytes::from_le_of_le(2, 2);
    assert(n[a + 2] == (port / 256) as u8 && n[a + 3] == (port % 256) as u8);
    assert(n[a + 4] == (ip / 0x100_0000) as u8 && n[a + 5] == (ip / 0x1_0000 % 256) as u8 && n[a
        + 6] == (ip / 256 % 256) as u8 && n[a + 7] == (ip % 256) as u8);
}

} // verus!
