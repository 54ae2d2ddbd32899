//! AF_UNIX stream and datagram sockets, in pairs, with file passing.

use vstd::prelude::*;
use std::collections::VecDeque;
use crate::abi::{
    AF_UNIX, FIONREAD, MSG_NOSIGNAL, MSG_PEEK, POLLHUP, POLLIN, POLLOUT, POLLRDHUP, SHUT_RD,
    SHUT_RDWR, SHUT_WR, SOCK_DGRAM, SOCK_STREAM, SOL_SOCKET, SO_ACCEPTCONN, SO_DOMAIN, SO_ERROR,
    SO_RCVBUF, SO_SNDBUF, SO_TYPE,
};
use crate::bytes::le;
use crate::errno::{EAGAIN, EFAULT, ENOPROTOOPT, ENOTTY, EPIPE, SysResult};
use crate::net::smol::smaller;
use crate::net::socket::{i32_opt, opt_bytes, Ancillary, Sent, SockAddr, SockAddrView, SocketOps};
use crate::uaccess::{mapped, stored, UserMem};

verus! {

/// How many bytes a queue takes before senders have to wait.
pub const UNIX_BUF_MAX: usize = 0x4_0000;

pub struct Message {
    pub data: Vec<u8>,
    /// How much of `data` was read already.
    pub pos: usize,
    /// Numbers of the files that travel with the message.
    pub fds: Vec<usize>,
}

/// What is left of a message.
pub struct Msg {
    pub data: Seq<u8>,
    pub fds: Seq<usize>,
}

impl View for Message {
    type V = Msg;

    open spec fn view(&self) -> Msg {
        Msg { data: self.data@.skip(self.pos as int), fds: self.fds@ }
    }
}

pub struct Queue {
    pub msgs: VecDeque<Message>,
    pub bytes: usize,
}

impl View for Queue {
    type V = Seq<Msg>;

    open spec fn view(&self) -> Seq<Msg> {
        Seq::new(self.msgs@.len(), |i: int| self.msgs@[i]@)
    }
}

/// The number of unread bytes.
pub open spec fn total(q: Seq<Msg>) -> int
    decreases q.len(),
{
    if q.len() == 0 {
        0
    } else {
        q[0].data.len() + total(q.skip(1))
    }
}

impl Queue {
    pub open spec fn positions_ok(&self) -> bool {
        forall|i: int|
            0 <= i < self.msgs@.len() ==> (#[trigger] self.msgs@[i]).pos <= self.msgs@[i].data@.len()
    }
}

/// One end of a pair. The other end is handed to the operations that need it.
pub struct UnixSocket {
    /// What was sent to this end.
    pub rx: Queue,
    /// This end is closed, or shut down for writing.
    pub closed: bool,
    pub stream: bool,
    pub shut_rd: bool,
    pub shut_wr: bool,
    /// Counts events of this end, for edge-triggered polling.
    pub rx_seq: u64,
    /// Tasks that wait on this end are to be woken.
    pub woken: bool,
}

impl UnixSocket {
    /// The byte count is right; only a released end, which takes no more
    /// messages, may have lost it.
    pub open spec fn wf(&self) -> bool {
        &&& self.rx.positions_ok()
        &&& self.rx.bytes == total(self.rx@) || (self.closed && self.rx@.len() == 0)
    }
}

// ---- Receiving ------------------------------------------------------------
/// What reading `want` bytes from a stream gives: the bytes, the files, and
/// what stays. Reading runs across messages until one that carries files.
pub open spec fn stream_take(q: Seq<Msg>, want: nat) -> (Seq<u8>, Seq<usize>, Seq<Msg>)
    decreases q.len(),
{
    if want == 0 || q.len() == 0 {
        (Seq::empty(), Seq::empty(), q)
    } else {
        let m = q[0];
        if m.data.len() > want {
            (
                m.data.take(want as int),
                m.fds,
                seq![Msg { data: m.data.skip(want as int), fds: Seq::empty() }] + q.skip(1),
            )
        } else if m.fds.len() > 0 {
            (m.data, m.fds, q.skip(1))
        } else {
            let (d, f, r) = stream_take(q.skip(1), (want - m.data.len()) as nat);
            (m.data + d, f, r)
        }
    }
}

/// What peeking at a stream gives: bytes and files of the first message.
pub open spec fn stream_peek(q: Seq<Msg>, want: nat) -> (Seq<u8>, Seq<usize>) {
    if want == 0 || q.len() == 0 {
        (Seq::empty(), Seq::empty())
    } else {
        (q[0].data.take(smaller(q[0].data.len() as int, want as int)), q[0].fds)
    }
}

/// What receiving gives from a queue that is not empty: bytes, files, and what
/// stays. A datagram leaves whole, what did not fit is lost.
pub open spec fn received(q: Seq<Msg>, stream: bool, peek: bool, want: nat) -> (
    Seq<u8>,
    Seq<usize>,
    Seq<Msg>,
) {
    if stream {
        if peek {
            let (d, f) = stream_peek(q, want);
            (d, f, q)
        } else {
            stream_take(q, want)
        }
    } else {
        let d = q[0].data.take(smaller(q[0].data.len() as int, want as int));
        if peek {
            (d, q[0].fds, q)
        } else {
            (d, q[0].fds, q.skip(1))
        }
    }
}

proof fn lemma_total_nonneg(q: Seq<Msg>)
    ensures
        total(q) >= 0,
    decreases q.len(),
{
    if q.len() > 0 {
        lemma_total_nonneg(q.skip(1));
    }
}

proof fn lemma_total_push(q: Seq<Msg>, m: Msg)
    ensures
        total(q.push(m)) == total(q) + m.data.len(),
    decreases q.len(),
{
    if q.len() == 0 {
        assert(q.push(m).skip(1) =~= Seq::empty());
        assert(total(q.push(m).skip(1)) == 0);
    } else {
        lemma_total_push(q.skip(1), m);
        assert(q.push(m).skip(1) =~= q.skip(1).push(m));
    }
}

/// A read takes at most what was asked for, and the unread bytes fall by it.
pub proof fn stream_take_total(q: Seq<Msg>, want: nat)
    ensures
        stream_take(q, want).0.len() <= want,
        total(stream_take(q, want).2) == total(q) - stream_take(q, want).0.len(),
        stream_take(q, want).2.len() <= q.len(),
    decreases q.len(),
{
    if want > 0 && q.len() > 0 {
        let m = q[0];
        if m.data.len() > want {
            let r = seq![Msg { data: m.data.skip(want as int), fds: Seq::empty() }] + q.skip(1);
            assert(r.skip(1) =~= q.skip(1));
        } else if m.fds.len() == 0 {
            stream_take_total(q.skip(1), (want - m.data.len()) as nat);
        }
    }
}

impl UnixSocket {
    /// One attempt to receive. An empty queue is the end of the stream once
    /// the peer has closed or this end was shut down for reading.
    #[verifier::rlimit(40)]
    pub fn do_recv(&mut self, peer: &mut UnixSocket, buf: &mut [u8], flags: u32) -> (r: Result<
        (usize, Option<SockAddr>, Ancillary),
        i32,
    >)
        requires
            old(self).wf(),
        ensures
            final(self).wf(),
            final(buf)@.len() == old(buf)@.len(),
            ({
                let q = old(self).rx@;
                let got = received(
                    q,
                    old(self).stream,
                    flags & MSG_PEEK != 0,
                    old(buf)@.len(),
                );
                if q.len() == 0 {
                    &&& *final(self) == *old(self)
                    &&& *final(peer) == *old(peer)
                    &&& final(buf)@ == old(buf)@
                    &&& match r {
                        Ok((n, from, anc)) => (old(peer).closed || old(self).shut_rd) && n == 0
                            && from is None && anc.fds@.len() == 0,
                        Err(e) => !old(peer).closed && !old(self).shut_rd && e == EAGAIN,
                    }
                } else {
                    &&& r matches Ok((n, from, anc)) && n == got.0.len() && from is None
                        && anc.fds@ == got.1
                    &&& final(buf)@ == got.0 + old(buf)@.skip(got.0.len() as int)
                    &&& final(self).rx@ == got.2
                    &&& *final(self) == (UnixSocket { rx: final(self).rx, ..*old(self) })
                    &&& *final(peer) == (UnixSocket {
                        woken: true,
                        rx_seq: next_seq(old(peer).rx_seq),
                        ..*old(peer)
                    })
                }
            }),
    {
        let peek: bool = flags & MSG_PEEK != 0;
        let len: usize = buf.len();
        if self.rx.msgs.len() == 0 {
            if peer.closed || self.shut_rd {
                return Ok((0, None, Ancillary { fds: Vec::new() }));
            }
            return Err(EAGAIN);
        }
        let ghost q0 = self.rx@;
        let ghost b0 = buf@;
        let mut fds: Vec<usize> = Vec::new();
        let mut n: usize = 0;
        if self.stream {
            if peek {
                if len > 0 {
                    let m = &self.rx.msgs[0];
                    let avail: usize = m.data.len() - m.pos;
                    let take: usize = if avail < len {
                        avail
                    } else {
                        len
                    };
                    copy_into(buf, 0, &m.data, m.pos, take);
                    n = take;
                    fds = copy_fds(&m.fds);
                    proof {
                        assert(m.data@.subrange(m.pos as int, m.pos + take) =~= q0[0].data.take(
                            take as int,
                        ));
                        assert(buf@ =~= q0[0].data.take(take as int) + b0.skip(take as int));
                    }
                } else {
                    proof {
                        assert(buf@ =~= Seq::<u8>::empty() + b0.skip(0));
                    }
                }
            } else {
                let ghost want = stream_take(q0, len as nat);
                let ghost mut acc = Seq::<u8>::empty();
                proof {
                    assert(acc + stream_take(self.rx@, len as nat).0 =~= want.0);
                    assert(buf@ =~= acc + b0.skip(0));
                }
                while n < len && self.rx.msgs.len() > 0
                    invariant_except_break
                        acc.len() == n,
                        buf@ =~= acc + b0.skip(n as int),
                        fds@.len() == 0,
                        acc + stream_take(self.rx@, (len - n) as nat).0 =~= want.0,
                        stream_take(self.rx@, (len - n) as nat).1 == want.1,
                        stream_take(self.rx@, (len - n) as nat).2 == want.2,
                    invariant
                        n <= len,
                        len == b0.len(),
                        self.rx.positions_ok(),
                        self.rx.bytes == total(self.rx@),
                        buf@.len() == len,
                        *self == (UnixSocket { rx: self.rx, ..*old(self) }),
                        *peer == *old(peer),
                        want == stream_take(q0, len as nat),
                    ensures
                        n == want.0.len(),
                        buf@ =~= want.0 + b0.skip(n as int),
                        fds@ == want.1,
                        self.rx@ == want.2,
                    decreases self.rx.msgs@.len(),
                {
                    let ghost q = self.rx@;
                    let ghost left = (len - n) as nat;
                    let mut m = take_front(&mut self.rx);
                    let avail: usize = m.data.len() - m.pos;
                    let take: usize = if avail < len - n {
                        avail
                    } else {
                        len - n
                    };
                    copy_into(buf, n, &m.data, m.pos, take);
                    proof {
                        let piece = m.data@.subrange(m.pos as int, m.pos + take);
                        assert(piece =~= q[0].data.take(take as int));
                        assert(buf@ =~= (acc + piece) + b0.skip(n + take));
                        acc = acc + piece;
                        stream_take_total(q, left);
                        lemma_total_nonneg(q.skip(1));
                    }
                    n = n + take;
                    fds.append(&mut m.fds);
                    m.pos = m.pos + take;
                    self.rx.bytes = self.rx.bytes - take;
                    if m.pos < m.data.len() {
                        let ghost rest = m@;
                        self.rx.msgs.push_front(m);
                        proof {
                            assert(rest.data =~= q[0].data.skip(take as int));
                            assert(self.rx@ =~= seq![rest] + q.skip(1));
                            assert(rest.fds =~= Seq::empty());
                            assert(self.rx@.skip(1) =~= q.skip(1));
                        }
                        assert(n == len);
                        break ;
                    }
                    proof {
                        assert(q[0].data.take(take as int) =~= q[0].data);
                        assert(self.rx@ =~= q.skip(1));
                    }
                    if fds.len() > 0 {
                        break ;
                    }
                }
            }
        } else {
            if peek {
                let m = &self.rx.msgs[0];
                let avail: usize = m.data.len() - m.pos;
                let take: usize = if avail < len {
                    avail
                } else {
                    len
                };
                copy_into(buf, 0, &m.data, m.pos, take);
                n = take;
                fds = copy_fds(&m.fds);
                proof {
                    assert(m.data@.subrange(m.pos as int, m.pos + take) =~= q0[0].data.take(
                        take as int,
                    ));
                    assert(buf@ =~= q0[0].data.take(take as int) + b0.skip(take as int));
                }
            } else {
                let mut m = take_front(&mut self.rx);
                let avail: usize = m.data.len() - m.pos;
                let take: usize = if avail < len {
                    avail
                } else {
                    len
                };
                copy_into(buf, 0, &m.data, m.pos, take);
                n = take;
                proof {
                    assert(m.data@.subrange(m.pos as int, m.pos + take) =~= q0[0].data.take(
                        take as int,
                    ));
                    assert(buf@ =~= q0[0].data.take(take as int) + b0.skip(take as int));
                    lemma_total_nonneg(q0.skip(1));
                }
                self.rx.bytes = self.rx.bytes - avail;
                fds.append(&mut m.fds);
                proof {
                    assert(fds@ =~= q0[0].fds);
                }
            }
        }
        peer.woken = true;
        peer.rx_seq = peer.rx_seq.wrapping_add(1);
        Ok((n, None, Ancillary { fds }))
    }
}

pub open spec fn next_seq(s: u64) -> u64 {
    if s == u64::MAX {
        0
    } else {
        (s + 1) as u64
    }
}

/// Takes the first message off a queue, leaving the byte count.
fn take_front(q: &mut Queue) -> (m: Message)
    requires
        old(q).msgs@.len() > 0,
        old(q).positions_ok(),
    ensures
        m == old(q).msgs@[0],
        final(q).msgs@ == old(q).msgs@.skip(1),
        final(q)@ == old(q)@.skip(1),
        final(q).positions_ok(),
        final(q).bytes == old(q).bytes,
{
    let ghost q0 = q@;
    let ghost m0 = q.msgs@;
    let m: Message = q.msgs.pop_front().unwrap();
    proof {
        assert(q.msgs@ =~= m0.skip(1));
        assert(q@ =~= q0.skip(1));
        assert forall|i: int| 0 <= i < q.msgs@.len() implies (#[trigger] q.msgs@[i]).pos
            <= q.msgs@[i].data@.len() by {
            assert(q.msgs@[i] == m0[i + 1]);
        }
    }
    m
}

/// Copies `n` bytes of `src` from `from` on into `dst` at `at`.
fn copy_into(dst: &mut [u8], at: usize, src: &Vec<u8>, from: usize, n: usize)
    requires
        at + n <= old(dst)@.len(),
        from + n <= src@.len(),
    ensures
        final(dst)@ == old(dst)@.take(at as int) + src@.subrange(from as int, from + n) + old(
            dst,
        )@.skip(at + n),
{
    let ghost d0 = dst@;
    let len: usize = dst.len();
    let slen: usize = src.len();
    let mut i: usize = 0;
    while i < n
        invariant
            i <= n,
            at + n <= len == d0.len(),
            dst@.len() == len,
            from + n <= slen == src@.len(),
            dst@ =~= d0.take(at as int) + src@.subrange(from as int, from + i) + d0.skip(at + i),
        decreases n - i,
    {
        dst[at + i] = src[from + i];
        i = i + 1;
    }
}

fn copy_fds(v: &Vec<usize>) -> (r: Vec<usize>)
    ensures
        r@ == v@,
{
    let mut r: Vec<usize> = Vec::new();
    let n: usize = v.len();
    let mut i: usize = 0;
    while i < n
        invariant
            i <= n == v@.len(),
            r@ =~= v@.take(i as int),
        decreases n - i,
    {
        r.push(v[i]);
        i = i + 1;
    }
    proof {
        assert(v@.take(n as int) =~= v@);
    }
    r
}

// ---- Sending and the rest -------------------------------------------------
/// A new end without messages.
fn new_end(stream: bool) -> (r: UnixSocket)
    ensures
        r.wf(),
        fresh_end(r, stream),
{
    let r = UnixSocket {
        rx: Queue { msgs: VecDeque::new(), bytes: 0 },
        closed: false,
        stream,
        shut_rd: false,
        shut_wr: false,
        rx_seq: 0,
        woken: false,
    };
    proof {
        assert(r.rx@ =~= Seq::empty());
    }
    r
}

pub open spec fn fresh_end(s: UnixSocket, stream: bool) -> bool {
    &&& s.rx@ == Seq::<Msg>::empty()
    &&& s.rx.bytes == 0
    &&& s.stream == stream
    &&& !s.closed && !s.shut_rd && !s.shut_wr && !s.woken
    &&& s.rx_seq == 0
}

/// Two connected ends.
pub fn socketpair(stream: bool) -> (r: (UnixSocket, UnixSocket))
    ensures
        r.0.wf(),
        r.1.wf(),
        fresh_end(r.0, stream),
        fresh_end(r.1, stream),
{
    (new_end(stream), new_end(stream))
}

/// The queue has no room for `len` more bytes. A message always fits into an
/// empty queue, whatever its size.
pub open spec fn queue_full(bytes: int, len: int) -> bool {
    bytes + len > UNIX_BUF_MAX && bytes > 0
}

impl SocketOps for UnixSocket {
    type Ctx = UnixSocket;

    open spec fn ready(&self, ctx: UnixSocket) -> bool {
        self.wf() && ctx.wf()
    }

    /// One attempt to send: a message is taken whole or not at all.
    fn send(
        &mut self,
        ctx: &mut UnixSocket,
        buf: &[u8],
        flags: u32,
        to: Option<SockAddr>,
        anc: Ancillary,
    ) -> (r: Sent)
        ensures
            if old(self).shut_wr {
                &&& r.result == Err::<usize, i32>(EPIPE) && !r.sigpipe
                &&& *final(self) == *old(self) && *final(ctx) == *old(ctx)
            } else if old(ctx).closed {
                &&& r.result == Err::<usize, i32>(EPIPE)
                &&& r.sigpipe == (flags & MSG_NOSIGNAL == 0)
                &&& *final(self) == *old(self) && *final(ctx) == *old(ctx)
            } else if queue_full(old(ctx).rx.bytes as int, buf@.len() as int) {
                &&& r.result == Err::<usize, i32>(EAGAIN) && !r.sigpipe
                &&& *final(self) == *old(self) && *final(ctx) == *old(ctx)
            } else {
                &&& r.result == Ok::<usize, i32>(buf.len()) && !r.sigpipe
                &&& final(ctx).rx@ == old(ctx).rx@.push(Msg { data: buf@, fds: anc.fds@ })
                &&& *final(ctx) == (UnixSocket { rx: final(ctx).rx, ..*old(ctx) })
                &&& *final(self) == (UnixSocket {
                    woken: true,
                    rx_seq: next_seq(old(self).rx_seq),
                    ..*old(self)
                })
            },
    {
        if self.shut_wr {
            return Sent { result: Err(EPIPE), sigpipe: false };
        }
        if ctx.closed {
            return Sent { result: Err(EPIPE), sigpipe: flags & MSG_NOSIGNAL == 0 };
        }
        let len: usize = buf.len();
        let used: usize = ctx.rx.bytes;
        if used > 0 && (used > UNIX_BUF_MAX || len > UNIX_BUF_MAX - used) {
            return Sent { result: Err(EAGAIN), sigpipe: false };
        }
        let ghost q0 = ctx.rx@;
        let data: Vec<u8> = vstd::slice::slice_to_vec(buf);
        let m = Message { data, pos: 0, fds: anc.fds };
        let ghost mv = m@;
        proof {
            assert(mv.data =~= buf@);
            lemma_total_push(q0, mv);
        }
        ctx.rx.bytes = used + len;
        ctx.rx.msgs.push_back(m);
        proof {
            assert(ctx.rx@ =~= q0.push(mv));
        }
        self.woken = true;
        self.rx_seq = self.rx_seq.wrapping_add(1);
        Sent { result: Ok(len), sigpipe: false }
    }

    fn recv(&mut self, ctx: &mut UnixSocket, buf: &mut [u8], flags: u32) -> (r: Result<
        (usize, Option<SockAddr>, Ancillary),
        i32,
    >)
        ensures
            final(buf)@.len() == old(buf)@.len(),
            ({
                let q = old(self).rx@;
                let got = received(
                    q,
                    old(self).stream,
                    flags & MSG_PEEK != 0,
                    old(buf)@.len(),
                );
                if q.len() == 0 {
                    &&& *final(self) == *old(self)
                    &&& *final(ctx) == *old(ctx)
                    &&& final(buf)@ == old(buf)@
                    &&& match r {
                        Ok((n, from, anc)) => (old(ctx).closed || old(self).shut_rd) && n == 0
                            && from is None && anc.fds@.len() == 0,
                        Err(e) => !old(ctx).closed && !old(self).shut_rd && e == EAGAIN,
                    }
                } else {
                    &&& r matches Ok((n, from, anc)) && n == got.0.len() && from is None
                        && anc.fds@ == got.1
                    &&& final(buf)@ == got.0 + old(buf)@.skip(got.0.len() as int)
                    &&& final(self).rx@ == got.2
                }
            }),
    {
        self.do_recv(ctx, buf, flags)
    }

    fn shutdown(&mut self, ctx: &mut UnixSocket, how: i32) -> (r: Result<(), i32>)
        ensures
            r == Ok::<(), i32>(()),
            ({
                let rd = how == SHUT_RD || how == SHUT_RDWR;
                let wr = how == SHUT_WR || how == SHUT_RDWR;
                &&& *final(self) == (UnixSocket {
                    shut_rd: old(self).shut_rd || rd,
                    shut_wr: old(self).shut_wr || wr,
                    closed: old(self).closed || wr,
                    woken: old(self).woken || rd,
                    rx_seq: if wr {
                        next_seq(old(self).rx_seq)
                    } else {
                        old(self).rx_seq
                    },
                    ..*old(self)
                })
                &&& *final(ctx) == (UnixSocket {
                    woken: old(ctx).woken || wr,
                    rx_seq: if wr {
                        next_seq(old(ctx).rx_seq)
                    } else {
                        old(ctx).rx_seq
                    },
                    ..*old(ctx)
                })
            }),
    {
        if how == SHUT_RD || how == SHUT_RDWR {
            self.shut_rd = true;
            self.woken = true;
        }
        if how == SHUT_WR || how == SHUT_RDWR {
            self.shut_wr = true;
            self.closed = true;
            ctx.woken = true;
            self.rx_seq = self.rx_seq.wrapping_add(1);
            ctx.rx_seq = ctx.rx_seq.wrapping_add(1);
        }
        Ok(())
    }

    fn local_addr(&self, ctx: &UnixSocket) -> (r: Result<SockAddr, i32>)
        ensures
            r is Ok && r->Ok_0@ == SockAddrView::Unix(Seq::empty()),
    {
        let a = SockAddr::Unix(Vec::new());
        proof {
            assert(a->Unix_0@ =~= Seq::empty());
        }
        Ok(a)
    }

    fn peer_addr(&self, ctx: &UnixSocket) -> (r: Result<SockAddr, i32>)
        ensures
            r is Ok && r->Ok_0@ == SockAddrView::Unix(Seq::empty()),
    {
        let a = SockAddr::Unix(Vec::new());
        proof {
            assert(a->Unix_0@ =~= Seq::empty());
        }
        Ok(a)
    }

    fn getsockopt(&mut self, ctx: &UnixSocket, level: i32, opt: i32) -> (r: Result<Vec<u8>, i32>)
        ensures
            *final(self) == *old(self),
            ({
                let v = if level != SOL_SOCKET {
                    None
                } else if opt == SO_TYPE {
                    Some(type_of(old(self).stream) as int)
                } else if opt == SO_ERROR || opt == SO_ACCEPTCONN {
                    Some(0int)
                } else if opt == SO_DOMAIN {
                    Some(AF_UNIX as int)
                } else if opt == SO_SNDBUF || opt == SO_RCVBUF {
                    Some(UNIX_BUF_MAX as int)
                } else {
                    None
                };
                match r {
                    Ok(b) => v is Some && b@ == opt_bytes(v->0),
                    Err(e) => v is None && e == ENOPROTOOPT,
                }
            }),
    {
        if level != SOL_SOCKET {
            return Err(ENOPROTOOPT);
        }
        match opt {
            SO_TYPE => Ok(i32_opt(self.sock_type() as i32)),
            SO_ERROR | SO_ACCEPTCONN => Ok(i32_opt(0)),
            SO_DOMAIN => Ok(i32_opt(AF_UNIX as i32)),
            SO_SNDBUF | SO_RCVBUF => Ok(i32_opt(UNIX_BUF_MAX as i32)),
            _ => Err(ENOPROTOOPT),
        }
    }

    fn sock_type(&self) -> (r: u32)
        ensures
            r == type_of(self.stream),
    {
        if self.stream {
            SOCK_STREAM
        } else {
            SOCK_DGRAM
        }
    }

    fn domain(&self) -> (r: u16)
        ensures
            r == AF_UNIX,
    {
        AF_UNIX
    }
}

pub open spec fn type_of(stream: bool) -> u32 {
    if stream {
        SOCK_STREAM
    } else {
        SOCK_DGRAM
    }
}

/// `bit` where `cond` holds, else no bit.
pub open spec fn bit_if(cond: bool, bit: u32) -> u32 {
    if cond {
        bit
    } else {
        0
    }
}

impl UnixSocket {
    /// Readiness of this end.
    pub fn poll(&self, peer: &UnixSocket) -> (ev: u32)
        ensures
            ev == bit_if(self.rx@.len() > 0, POLLIN) | bit_if(
                peer.closed,
                POLLIN | POLLRDHUP | POLLHUP,
            ) | bit_if(self.shut_rd, POLLIN | POLLRDHUP) | bit_if(
                peer.rx.bytes < UNIX_BUF_MAX,
                POLLOUT,
            ) | bit_if(peer.closed && self.closed, POLLHUP),
    {
        let mut ev: u32 = 0;
        if self.rx.msgs.len() != 0 {
            ev = POLLIN;
        }
        ev = ev | if peer.closed {
            POLLIN | POLLRDHUP | POLLHUP
        } else {
            0
        };
        ev = ev | if self.shut_rd {
            POLLIN | POLLRDHUP
        } else {
            0
        };
        ev = ev | if peer.rx.bytes < UNIX_BUF_MAX {
            POLLOUT
        } else {
            0
        };
        ev | if peer.closed && self.closed {
            POLLHUP
        } else {
            0
        }
    }

    pub fn event_seq(&self) -> (r: u64)
        ensures
            r == self.rx_seq,
    {
        self.rx_seq
    }

    /// `FIONREAD` stores the number of unread bytes; nothing else is known.
    pub fn ioctl(&self, mem: &mut UserMem, cmd: u32, arg: usize) -> (r: SysResult)
        ensures
            if cmd != FIONREAD {
                r == Err::<usize, i32>(ENOTTY) && final(mem)@ == old(mem)@
            } else if !mapped(old(mem)@, arg as int, 4) {
                r == Err::<usize, i32>(EFAULT) && final(mem)@ == old(mem)@
            } else {
                &&& r == Ok::<usize, i32>(0)
                &&& final(mem)@ == stored(old(mem)@, arg as int, le(self.rx.bytes as nat, 4))
            },
    {
        if cmd == FIONREAD {
            match mem.write_num(arg, self.rx.bytes as u64, 4) {
                Ok(_) => Ok(0),
                Err(e) => Err(e),
            }
        } else {
            Err(ENOTTY)
        }
    }

    /// Closes this end for good and drops what was sent to it.
    pub fn release(&mut self, peer: &mut UnixSocket)
        requires
            old(self).wf(),
        ensures
            final(self).wf(),
            final(self).rx@ == Seq::<Msg>::empty(),
            *final(self) == (UnixSocket {
                closed: true,
                woken: true,
                rx: final(self).rx,
                ..*old(self)
            }),
            *final(peer) == (UnixSocket {
                woken: true,
                rx_seq: next_seq(old(peer).rx_seq),
                ..*old(peer)
            }),
    {
        self.closed = true;
        self.rx.msgs.clear();
        proof {
            assert(self.rx@ =~= Seq::empty());
        }
        peer.woken = true;
        self.woken = true;
        peer.rx_seq = peer.rx_seq.wrapping_add(1);
    }
}

// ---- Laws -----------------------------------------------------------------
/// All unread bytes of a queue, in order.
pub open spec fn flat(q: Seq<Msg>) -> Seq<u8>
    decreases q.len(),
{
    if q.len() == 0 {
        Seq::empty()
    } else {
        q[0].data + flat(q.skip(1))
    }
}

/// All files that travel in a queue, in order.
pub open spec fn flat_fds(q: Seq<Msg>) -> Seq<usize>
    decreases q.len(),
{
    if q.len() == 0 {
        Seq::empty()
    } else {
        q[0].fds + flat_fds(q.skip(1))
    }
}

/// Reading a stream loses no byte and no file and keeps their order: what was
/// read, followed by what stays, is what was there.
pub proof fn stream_is_fifo(q: Seq<Msg>, want: nat)
    ensures
        stream_take(q, want).0 + flat(stream_take(q, want).2) == flat(q),
        stream_take(q, want).1 + flat_fds(stream_take(q, want).2) == flat_fds(q),
    decreases q.len(),
{
    let (d, f, r) = stream_take(q, want);
    if want > 0 && q.len() > 0 {
        let m = q[0];
        if m.data.len() > want {
            assert(r.skip(1) =~= q.skip(1));
            assert(d + flat(r) =~= flat(q));
            assert(f + flat_fds(r) =~= flat_fds(q));
        } else if m.fds.len() > 0 {
            assert(d + flat(r) =~= flat(q));
        } else {
            stream_is_fifo(q.skip(1), (want - m.data.len()) as nat);
            assert(d + flat(r) =~= flat(q));
            assert(f + flat_fds(r) =~= flat_fds(q));
        }
    } else {
        assert(d + flat(r) =~= flat(q));
        assert(f + flat_fds(r) =~= flat_fds(q));
    }
}

/// A message that was sent comes after everything sent before it.
pub proof fn sent_comes_last(q: Seq<Msg>, m: Msg)
    ensures
        flat(q.push(m)) == flat(q) + m.data,
        flat_fds(q.push(m)) == flat_fds(q) + m.fds,
    decreases q.len(),
{
    let p = q.push(m);
    if q.len() == 0 {
        assert(p.skip(1) =~= Seq::empty());
        reveal_with_fuel(flat, 2);
        reveal_with_fuel(flat_fds, 2);
        assert(flat(p) =~= flat(q) + m.data);
        assert(flat_fds(p) =~= flat_fds(q) + m.fds);
    } else {
        sent_comes_last(q.skip(1), m);
        assert(p.skip(1) =~= q.skip(1).push(m));
        assert(flat(p) =~= flat(q) + m.data);
        assert(flat_fds(p) =~= flat_fds(q) + m.fds);
    }
}

/// Datagrams keep their boundaries: with room for it, one receive gives exactly
/// the oldest datagram.
pub proof fn datagram_is_whole(q: Seq<Msg>, want: nat)
    requires
        q.len() > 0,
        want >= q[0].data.len(),
    ensures
        received(q, false, false, want) == (q[0].data, q[0].fds, q.skip(1)),
{
    assert(q[0].data.take(q[0].data.len() as int) =~= q[0].data);
}

/// What was sent in two parts on a stream arrives in order, and one receive runs
/// from the first into the second, as far as there is room.
pub proof fn two_sends_arrive_in_order(a: Msg, b: Msg, want: nat)
    requires
        a.fds.len() == 0,
        b.fds.len() == 0,
    ensures
        ({
            let q = Seq::<Msg>::empty().push(a).push(b);
            let all = a.data + b.data;
            let n = smaller(all.len() as int, want as int);
            let got = received(q, true, false, want);
            &&& got.0 == all.take(n)
            &&& flat(got.2) == all.skip(n)
        }),
{
    let q = Seq::<Msg>::empty().push(a).push(b);
    let all = a.data + b.data;
    let n = smaller(all.len() as int, want as int);
    let q1 = q.skip(1);
    assert(q1 =~= seq![b]);
    assert(q1.skip(1) =~= Seq::empty());
    reveal_with_fuel(stream_take, 4);
    reveal_with_fuel(flat, 4);
    let got = stream_take(q, want);
    stream_is_fifo(q, want);
    assert(flat(q) =~= all);
    assert(got.0.len() == n);
    assert(got.0 =~= (got.0 + flat(got.2)).take(n));
    assert(flat(got.2) =~= (got.0 + flat(got.2)).skip(n));
}

/// Two datagrams are received one by one, each as it was sent where there is room
/// for it.
pub proof fn two_datagrams_stay_apart(a: Msg, b: Msg, want: nat)
    requires
        want >= a.data.len(),
        want >= b.data.len(),
    ensures
        ({
            let q = Seq::<Msg>::empty().push(a).push(b);
            let first = received(q, false, false, want);
            let second = received(first.2, false, false, want);
            &&& first.0 == a.data && first.1 == a.fds
            &&& second.0 == b.data && second.1 == b.fds
            &&& second.2.len() == 0
        }),
{
    let q = Seq::<Msg>::empty().push(a).push(b);
    datagram_is_whole(q, want);
    datagram_is_whole(q.skip(1), want);
}

/// A peek takes nothing away, and what it shows is what the next read of that
/// size begins with.
pub proof fn peek_shows_what_is_read(q: Seq<Msg>, stream: bool, want: nat)
    requires
        q.len() > 0,
    ensures
        ({
            let peek = received(q, stream, true, want);
            let read = received(peek.2, stream, false, want);
            &&& peek.2 == q
            &&& peek.0.len() <= read.0.len()
            &&& read.0.take(peek.0.len() as int) == peek.0
            &&& !stream ==> read.0 == peek.0 && read.1 == peek.1
        }),
{
    let peek = received(q, stream, true, want);
    let read = received(q, stream, false, want);
    if stream && want > 0 {
        let m = q[0];
        if m.data.len() > want {
            assert(read.0.take(want as int) =~= peek.0);
        } else {
            assert(m.data.take(m.data.len() as int) =~= m.data);
            assert(read.0.take(m.data.len() as int) =~= m.data);
        }
    } else {
        assert(read.0.take(peek.0.len() as int) =~= peek.0);
    }
}

} // verus!
