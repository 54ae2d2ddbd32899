//! The socket calls: from a call's number to the call and its arguments.

use vstd::prelude::*;
use crate::syscall::basic::Args;

verus! {

/// A socket call with its arguments.
#[allow(inconsistent_fields)]
#[derive(Clone, Copy, PartialEq, Eq, Structural, Debug)]
pub enum NetCall {
    Socket { domain: usize, ty: u32, proto: u32 },
    SocketPair { domain: usize, ty: u32, proto: u32, sv: usize },
    Bind { fd: i32, addr: usize, len: usize },
    Listen { fd: i32, backlog: i32 },
    /// Without waiting, where `nonblock`.
    Accept { fd: i32, addr: usize, addrlen: usize, nonblock: bool },
    Connect { fd: i32, addr: usize, len: usize },
    SockName { fd: i32, addr: usize, addrlen: usize },
    PeerName { fd: i32, addr: usize, addrlen: usize },
    SendTo { fd: i32, buf: usize, len: usize, flags: usize, addr: usize, addrlen: usize },
    RecvFrom { fd: i32, buf: usize, len: usize, flags: usize, addr: usize, addrlen: usize },
    SockOpt { fd: i32, level: usize, name: usize, val: usize, len: usize },
    Shutdown { fd: i32, how: i32 },
    SendMsg { fd: i32, hdr: usize, flags: usize },
    RecvMsg { fd: i32, hdr: usize, flags: usize },
    SendMmsg { fd: i32, hdrs: usize, count: usize, flags: usize },
    RecvMmsg { fd: i32, hdrs: usize, count: usize, flags: usize },
}

pub open spec fn net_spec(nr: usize, a: Seq<usize>) -> Option<NetCall> {
    let fd = a[0] as i32;
    if nr == 198 {
        Some(NetCall::Socket { domain: a[0], ty: a[1] as u32, proto: a[2] as u32 })
    } else if nr == 199 {
        Some(NetCall::SocketPair { domain: a[0], ty: a[1] as u32, proto: a[2] as u32, sv: a[3] })
    } else if nr == 200 {
        Some(NetCall::Bind { fd, addr: a[1], len: a[2] })
    } else if nr == 201 {
        Some(NetCall::Listen { fd, backlog: a[1] as i32 })
    } else if nr == 202 || nr == 242 {
        Some(NetCall::Accept { fd, addr: a[1], addrlen: a[2], nonblock: nr == 242 })
    } else if nr == 203 {
        Some(NetCall::Connect { fd, addr: a[1], len: a[2] })
    } else if nr == 204 {
        Some(NetCall::SockName { fd, addr: a[1], addrlen: a[2] })
    } else if nr == 205 {
        Some(NetCall::PeerName { fd, addr: a[1], addrlen: a[2] })
    } else if nr == 206 {
        Some(
            NetCall::SendTo { fd, buf: a[1], len: a[2], flags: a[3], addr: a[4], addrlen: a[5] },
        )
    } else if nr == 207 {
        Some(
            NetCall::RecvFrom { fd, buf: a[1], len: a[2], flags: a[3], addr: a[4], addrlen: a[5] },
        )
    } else if nr == 209 {
        Some(NetCall::SockOpt { fd, level: a[1], name: a[2], val: a[3], len: a[4] })
    } else if nr == 210 {
        Some(NetCall::Shutdown { fd, how: a[1] as i32 })
    } else if nr == 211 {
        Some(NetCall::SendMsg { fd, hdr: a[1], flags: a[2] })
    } else if nr == 212 {
        Some(NetCall::RecvMsg { fd, hdr: a[1], flags: a[2] })
    } else if nr == 269 {
        Some(NetCall::SendMmsg { fd, hdrs: a[1], count: a[2], flags: a[3] })
    } else if nr == 243 {
        Some(NetCall::RecvMmsg { fd, hdrs: a[1], count: a[2], flags: a[3] })
    } else {
        None
    }
}

/// The socket call of a number; `None` for a number of another call.
pub fn net_call(nr: usize, a: &Args) -> (r: Option<NetCall>)
    ensures
        r == net_spec(nr, a@),
{
    let fd: i32 = a[0] as i32;
    match nr {
        198 => Some(NetCall::Socket { domain: a[0], ty: a[1] as u32, proto: a[2] as u32 }),
        199 => Some(
            NetCall::SocketPair { domain: a[0], ty: a[1] as u32, proto: a[2] as u32, sv: a[3] },
        ),
        200 => Some(NetCall::Bind { fd, addr: a[1], len: a[2] }),
        201 => Some(NetCall::Listen { fd, backlog: a[1] as i32 }),
        202 => Some(NetCall::Accept { fd, addr: a[1], addrlen: a[2], nonblock: false }),
        242 => Some(NetCall::Accept { fd, addr: a[1], addrlen: a[2], nonblock: true }),
        203 => Some(NetCall::Connect { fd, addr: a[1], len: a[2] }),
        204 => Some(NetCall::SockName { fd, addr: a[1], addrlen: a[2] }),
        205 => Some(NetCall::PeerName { fd, addr: a[1], addrlen: a[2] }),
        206 => Some(
            NetCall::SendTo { fd, buf: a[1], len: a[2], flags: a[3], addr: a[4], addrlen: a[5] },
        ),
        207 => Some(
            NetCall::RecvFrom { fd, buf: a[1], len: a[2], flags: a[3], addr: a[4], addrlen: a[5] },
        ),
        209 => Some(NetCall::SockOpt { fd, level: a[1], name: a[2], val: a[3], len: a[4] }),
        210 => Some(NetCall::Shutdown { fd, how: a[1] as i32 }),
        211 => Some(NetCall::SendMsg { fd, hdr: a[1], flags: a[2] }),
        212 => Some(NetCall::RecvMsg { fd, hdr: a[1], flags: a[2] }),
        269 => Some(NetCall::SendMmsg { fd, hdrs: a[1], count: a[2], flags: a[3] }),
        243 => Some(NetCall::RecvMmsg { fd, hdrs: a[1], count: a[2], flags: a[3] }),
        _ => None,
    }
}

} // verus!
