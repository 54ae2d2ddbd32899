//! Listening sockets that queue their completed connections.

use smoltcp::iface::{SocketHandle, SocketSet};
use std::collections::VecDeque;
use vstd::prelude::*;
use crate::net::smol;
use crate::net::smol::{
    added, fresh_tcp, is_tcp, lemma_added_none, lemma_added_push, listening, sockets, tcp_of,
    with_tcp, SockModel, TcpSock, TcpState,
};

verus! {

/// How many sockets listen on a port.
pub const BACKLOG_TARGET: usize = 4;

pub const SOCKET_BUFFER_SIZE: usize = 0x2_0000;

pub struct Listener {
    pub port: u16,
    /// Sockets that listen.
    pub backlog: Vec<SocketHandle>,
    /// Sockets that have left the listening state, oldest first.
    pub accept_queue: VecDeque<SocketHandle>,
}

/// The listeners and the sockets they own.
pub struct ListenState {
    pub sockets: SocketSet<'static>,
    pub listeners: Vec<Listener>,
}

pub open spec fn all_tcp(hs: Seq<SocketHandle>, m: Map<SocketHandle, SockModel>) -> bool {
    forall|i: int| 0 <= i < hs.len() ==> is_tcp(m, #[trigger] hs[i])
}

/// A socket that was put to listen on `port`.
pub open spec fn new_listening(port: u16) -> TcpSock {
    listening(fresh_tcp(SOCKET_BUFFER_SIZE as nat), None, port)
}

/// The handles whose sockets still listen, in order.
pub open spec fn stays(hs: Seq<SocketHandle>, m: Map<SocketHandle, SockModel>) -> Seq<SocketHandle>
    decreases hs.len(),
{
    if hs.len() == 0 {
        Seq::empty()
    } else if tcp_of(m, hs.last()).state is Listen {
        stays(hs.drop_last(), m).push(hs.last())
    } else {
        stays(hs.drop_last(), m)
    }
}

/// The handles whose sockets have left the listening state, in order.
pub open spec fn leaves(hs: Seq<SocketHandle>, m: Map<SocketHandle, SockModel>) -> Seq<SocketHandle>
    decreases hs.len(),
{
    if hs.len() == 0 {
        Seq::empty()
    } else if tcp_of(m, hs.last()).state is Listen {
        leaves(hs.drop_last(), m)
    } else {
        leaves(hs.drop_last(), m).push(hs.last())
    }
}

proof fn lemma_stays_len(hs: Seq<SocketHandle>, m: Map<SocketHandle, SockModel>)
    ensures
        stays(hs, m).len() <= hs.len(),
        stays(hs, m).len() + leaves(hs, m).len() == hs.len(),
    decreases hs.len(),
{
    if hs.len() > 0 {
        lemma_stays_len(hs.drop_last(), m);
    }
}

proof fn lemma_stays_tcp(hs: Seq<SocketHandle>, m: Map<SocketHandle, SockModel>)
    requires
        all_tcp(hs, m),
    ensures
        all_tcp(stays(hs, m), m),
    decreases hs.len(),
{
    if hs.len() > 0 {
        assert forall|i: int| 0 <= i < hs.drop_last().len() implies is_tcp(
            m,
            #[trigger] hs.drop_last()[i],
        ) by {
            assert(is_tcp(m, hs[i]));
        }
        assert(is_tcp(m, hs[hs.len() - 1]));
        lemma_stays_tcp(hs.drop_last(), m);
    }
}

/// The servicing of one listener: sockets that left the listening state are
/// queued behind those already queued, and new ones fill the backlog up.
pub open spec fn serviced(
    l0: Listener,
    m0: Map<SocketHandle, SockModel>,
    l1: Listener,
    m1: Map<SocketHandle, SockModel>,
) -> bool {
    let kept = stays(l0.backlog@, m0);
    &&& l1.port == l0.port
    &&& l1.accept_queue@ == l0.accept_queue@ + leaves(l0.backlog@, m0)
    &&& exists|fresh: Seq<SocketHandle>|
        {
            &&& l1.backlog@ == kept + fresh
            &&& fresh.len() == (if kept.len() < BACKLOG_TARGET {
                BACKLOG_TARGET - kept.len()
            } else {
                0
            })
            &&& #[trigger] added(m0, m1, fresh, new_listening(l0.port))
        }
}

fn new_listening_socket(set: &mut SocketSet<'static>, port: u16) -> (h: SocketHandle)
    requires
        port != 0,
    ensures
        !sockets(*old(set)).dom().contains(h),
        sockets(*final(set)) == with_tcp(sockets(*old(set)), h, new_listening(port)),
{
    let ghost m = sockets(*set);
    let h = smol::add_tcp(set, SOCKET_BUFFER_SIZE);
    let ok: bool = smol::listen(set, h, None, port);
    proof {
        assert(ok);
        assert(sockets(*set) =~= with_tcp(m, h, new_listening(port)));
    }
    h
}

/// Adds listening sockets until `hs` has as many as wanted.
#[verifier::loop_isolation(false)]
fn top_up(set: &mut SocketSet<'static>, port: u16, hs: &mut Vec<SocketHandle>)
    requires
        port != 0,
    ensures
        exists|fresh: Seq<SocketHandle>|
            {
                &&& final(hs)@ == old(hs)@ + fresh
                &&& fresh.len() == (if old(hs)@.len() < BACKLOG_TARGET {
                    BACKLOG_TARGET - old(hs)@.len()
                } else {
                    0
                })
                &&& #[trigger] added(
                    sockets(*old(set)),
                    sockets(*final(set)),
                    fresh,
                    new_listening(port),
                )
            },
{
    let ghost m0 = sockets(*set);
    let ghost h0 = hs@;
    let ghost mut fresh = Seq::<SocketHandle>::empty();
    proof {
        lemma_added_none(m0, new_listening(port));
        assert(h0 + fresh =~= h0);
    }
    while hs.len() < BACKLOG_TARGET
        invariant
            hs@ == h0 + fresh,
            added(m0, sockets(*set), fresh, new_listening(port)),
            h0.len() >= BACKLOG_TARGET ==> fresh.len() == 0,
            h0.len() < BACKLOG_TARGET ==> hs@.len() <= BACKLOG_TARGET,
        decreases BACKLOG_TARGET - hs@.len(),
    {
        let ghost m = sockets(*set);
        let h = new_listening_socket(set, port);
        hs.push(h);
        proof {
            lemma_added_push(m0, m, fresh, new_listening(port), h);
            assert(hs@ =~= h0 + fresh.push(h));
            fresh = fresh.push(h);
        }
    }
    assert(added(m0, sockets(*set), fresh, new_listening(port)));
}

impl Listener {
    pub open spec fn wf(&self, m: Map<SocketHandle, SockModel>) -> bool {
        all_tcp(self.backlog@, m) && self.port != 0
    }

    /// A listener whose backlog is full of listening sockets.
    pub fn new(set: &mut SocketSet<'static>, port: u16) -> (r: Listener)
        requires
            port != 0,
        ensures
            r.port == port,
            r.backlog@.len() == BACKLOG_TARGET,
            r.accept_queue@.len() == 0,
            added(
                sockets(*old(set)),
                sockets(*final(set)),
                r.backlog@,
                new_listening(port),
            ),
            r.wf(sockets(*final(set))),
    {
        let mut backlog: Vec<SocketHandle> = Vec::new();
        let ghost m0 = sockets(*set);
        top_up(set, port, &mut backlog);
        proof {
            let fresh = choose|fresh: Seq<SocketHandle>|
                {
                    &&& backlog@ == Seq::<SocketHandle>::empty() + fresh
                    &&& fresh.len() == BACKLOG_TARGET
                    &&& #[trigger] added(m0, sockets(*set), fresh, new_listening(port))
                };
            assert(backlog@ =~= fresh);
        }
        Listener { port, backlog, accept_queue: VecDeque::new() }
    }

    #[verifier::loop_isolation(false)]
    fn service(&mut self, set: &mut SocketSet<'static>)
        requires
            old(self).wf(sockets(*old(set))),
        ensures
            serviced(*old(self), sockets(*old(set)), *final(self), sockets(*final(set))),
            final(self).wf(sockets(*final(set))),
    {
        let ghost m = sockets(*set);
        let ghost hs = self.backlog@;
        let ghost aq = self.accept_queue@;
        let ghost mut k: int = 0;
        let mut i: usize = 0;
        proof {
            assert(hs.skip(0) =~= hs);
            assert(stays(hs.take(0), m) + hs.skip(0) =~= hs);
            assert(aq + leaves(hs.take(0), m) =~= aq);
        }
        while i < self.backlog.len()
            invariant
                0 <= k <= hs.len(),
                i == stays(hs.take(k), m).len(),
                self.backlog@ == stays(hs.take(k), m) + hs.skip(k),
                self.accept_queue@ == aq + leaves(hs.take(k), m),
                self.port == old(self).port,
            decreases hs.len() - k,
        {
            let h: SocketHandle = self.backlog[i];
            proof {
                assert(h == hs[k]);
                assert(hs.take(k + 1).drop_last() =~= hs.take(k));
                assert(hs.take(k + 1).last() == hs[k]);
            }
            let ghost kept = stays(hs.take(k), m);
            let ghost left = leaves(hs.take(k), m);
            if smol::state(set, h) != TcpState::Listen {
                let _ = self.backlog.remove(i);
                self.accept_queue.push_back(h);
                proof {
                    assert(self.backlog@ =~= kept + hs.skip(k + 1));
                    assert(self.accept_queue@ =~= aq + left.push(h));
                    k = k + 1;
                }
            } else {
                i = i + 1;
                proof {
                    assert(self.backlog@ =~= kept.push(h) + hs.skip(k + 1));
                    k = k + 1;
                }
            }
        }
        proof {
            lemma_stays_len(hs.take(k), m);
            assert(k == hs.len());
            assert(hs.take(k) =~= hs);
            assert(self.backlog@ =~= stays(hs, m));
            lemma_stays_tcp(hs, m);
        }
        let ghost kept = self.backlog@;
        top_up(set, self.port, &mut self.backlog);
        proof {
            let b = self.backlog@;
            let m1 = sockets(*set);
            assert forall|j: int| 0 <= j < b.len() implies is_tcp(m1, #[trigger] b[j]) by {
                if j < kept.len() {
                    assert(is_tcp(m, kept[j]));
                }
            }
        }
    }
}

/// Services every listener in turn.
#[verifier::loop_isolation(false)]
pub fn service_listeners(state: &mut ListenState)
    requires
        forall|i: int|
            0 <= i < old(state).listeners@.len() ==> (#[trigger] old(state).listeners@[i]).wf(
                sockets(old(state).sockets),
            ),
    ensures
        final(state).listeners@.len() == old(state).listeners@.len(),
        forall|i: int|
            0 <= i < old(state).listeners@.len() ==> in_turn(
                *old(state),
                *final(state),
                i,
                #[trigger] final(state).listeners@[i],
            ),
        kept(sockets(old(state).sockets), sockets(final(state).sockets)),
        new_apart(
            sockets(old(state).sockets),
            final(state).listeners@,
            final(state).listeners@.len() as int,
        ),
{
    let ghost s0 = *state;
    let n: usize = state.listeners.len();
    let mut i: usize = 0;
    while i < n
        invariant
            i <= n == state.listeners@.len(),
            n == s0.listeners@.len(),
            kept(sockets(s0.sockets), sockets(state.sockets)),
            new_apart(sockets(s0.sockets), state.listeners@, i as int),
            forall|j: int, x: int|
                0 <= j < i && 0 <= x < state.listeners@[j].backlog@.len() ==> sockets(
                    state.sockets,
                ).dom().contains(#[trigger] state.listeners@[j].backlog@[x]),
            forall|j: int| i <= j < n ==> #[trigger] state.listeners@[j] == s0.listeners@[j],
            forall|j: int|
                0 <= j < i ==> in_turn(s0, *state, j, #[trigger] state.listeners@[j]),
        decreases n - i,
    {
        let ghost m = sockets(state.sockets);
        let ghost l0 = s0.listeners@[i as int];
        let ghost before = *state;
        proof {
            assert(state.listeners@[i as int] == l0);
            assert forall|j: int| 0 <= j < l0.backlog@.len() implies is_tcp(
                m,
                #[trigger] l0.backlog@[j],
            ) by {
                assert(is_tcp(sockets(s0.sockets), l0.backlog@[j]));
            }
            lemma_same(l0.backlog@, sockets(s0.sockets), m);
        }
        state.listeners[i].service(&mut state.sockets);
        proof {
            let m1 = sockets(state.sockets);
            let l1 = state.listeners@[i as int];
            assert(serviced(l0, m, l1, m1));
            let fresh = choose|fresh: Seq<SocketHandle>|
                {
                    &&& l1.backlog@ == stays(l0.backlog@, m) + fresh
                    &&& fresh.len() == (if stays(l0.backlog@, m).len() < BACKLOG_TARGET {
                        BACKLOG_TARGET - stays(l0.backlog@, m).len()
                    } else {
                        0
                    })
                    &&& #[trigger] added(m, m1, fresh, new_listening(l0.port))
                };
            assert(added(m, m1, fresh, new_listening(l0.port)));
            assert forall|j: int| 0 <= j < fresh.len() implies !sockets(s0.sockets).dom().contains(
                #[trigger] fresh[j],
            ) by {
                assert(!m.dom().contains(fresh[j]));
            }
            assert(new_in(s0, *state, fresh, l0.port));
            assert(in_turn(s0, *state, i as int, l1));
            assert forall|j: int| 0 <= j < i implies in_turn(
                s0,
                *state,
                j,
                #[trigger] state.listeners@[j],
            ) by {
                assert(state.listeners@[j] == before.listeners@[j]);
                assert(in_turn(s0, before, j, before.listeners@[j]));
                let k0 = s0.listeners@[j];
                let k1 = state.listeners@[j];
                let f = choose|f: Seq<SocketHandle>|
                    {
                        &&& k1.backlog@ == stays(k0.backlog@, sockets(s0.sockets)) + f
                        &&& f.len() == missing(stays(k0.backlog@, sockets(s0.sockets)).len() as int)
                        &&& #[trigger] new_in(s0, before, f, k0.port)
                    };
                assert(new_in(s0, *state, f, k0.port));
            }
            assert forall|x: int| 0 <= x < l1.backlog@.len() implies m1.dom().contains(
                #[trigger] l1.backlog@[x],
            ) by {
                let st = stays(l0.backlog@, m);
                if x < st.len() {
                    lemma_stays_tcp(l0.backlog@, m);
                    assert(is_tcp(m, st[x]));
                    assert(l1.backlog@[x] == st[x]);
                } else {
                    assert(l1.backlog@[x] == fresh[x - st.len()]);
                }
            }
            assert forall|j: int, x: int|
                0 <= j < i + 1 && 0 <= x < state.listeners@[j].backlog@.len() implies m1.dom().contains(
                #[trigger] state.listeners@[j].backlog@[x],
            ) by {
                if j < i {
                    assert(state.listeners@[j] == before.listeners@[j]);
                    assert(m.dom().contains(before.listeners@[j].backlog@[x]));
                }
            }
            assert forall|j: int, k: int, h: SocketHandle|
                0 <= j < k < i + 1 && !sockets(s0.sockets).dom().contains(h)
                    && #[trigger] state.listeners@[j].backlog@.contains(
                    h,
                ) implies !#[trigger] state.listeners@[k].backlog@.contains(h) by {
                assert(state.listeners@[j] == before.listeners@[j]);
                if k < i {
                    assert(state.listeners@[k] == before.listeners@[k]);
                } else if l1.backlog@.contains(h) {
                    let b = before.listeners@[j].backlog@;
                    let y = choose|y: int| 0 <= y < b.len() && b[y] == h;
                    assert(m.dom().contains(before.listeners@[j].backlog@[y]));
                    let x = choose|x: int| 0 <= x < l1.backlog@.len() && l1.backlog@[x] == h;
                    let st = stays(l0.backlog@, sockets(s0.sockets));
                    if x < st.len() {
                        lemma_stays_tcp(l0.backlog@, sockets(s0.sockets));
                        assert(is_tcp(sockets(s0.sockets), st[x]));
                        assert(l1.backlog@[x] == st[x]);
                    } else {
                        assert(l1.backlog@[x] == fresh[x - st.len()]);
                    }
                }
            }
        }
        i = i + 1;
    }
}

proof fn lemma_same(
    hs: Seq<SocketHandle>,
    m0: Map<SocketHandle, SockModel>,
    m1: Map<SocketHandle, SockModel>,
)
    requires
        all_tcp(hs, m0),
        forall|h: SocketHandle| #[trigger] m0.dom().contains(h) ==> m1[h] == m0[h],
    ensures
        stays(hs, m1) == stays(hs, m0),
        leaves(hs, m1) == leaves(hs, m0),
    decreases hs.len(),
{
    if hs.len() > 0 {
        assert(is_tcp(m0, hs[hs.len() - 1]));
        assert forall|i: int| 0 <= i < hs.drop_last().len() implies is_tcp(
            m0,
            #[trigger] hs.drop_last()[i],
        ) by {
            assert(is_tcp(m0, hs[i]));
        }
        lemma_same(hs.drop_last(), m0, m1);
    }
}

pub open spec fn missing(n: int) -> int {
    if n < BACKLOG_TARGET {
        BACKLOG_TARGET - n
    } else {
        0
    }
}

/// The sockets that were there are as they were.
pub open spec fn kept(m0: Map<SocketHandle, SockModel>, m1: Map<SocketHandle, SockModel>) -> bool {
    forall|h: SocketHandle| #[trigger]
        m0.dom().contains(h) ==> m1.dom().contains(h) && m1[h] == m0[h]
}

/// No two of the first `n` listeners share a socket that is new.
pub open spec fn new_apart(m0: Map<SocketHandle, SockModel>, l: Seq<Listener>, n: int) -> bool {
    forall|j: int, k: int, h: SocketHandle|
        0 <= j < k < n && !m0.dom().contains(h) && #[trigger] l[j].backlog@.contains(h)
            ==> !#[trigger] l[k].backlog@.contains(h)
}

/// `fresh` are different sockets of `s1` that `s0` had not, listening on `port`.
pub open spec fn new_in(
    s0: ListenState,
    s1: ListenState,
    fresh: Seq<SocketHandle>,
    port: u16,
) -> bool {
    &&& fresh.no_duplicates()
    &&& forall|i: int|
        0 <= i < fresh.len() ==> {
            &&& !sockets(s0.sockets).dom().contains(#[trigger] fresh[i])
            &&& sockets(s1.sockets).dom().contains(fresh[i])
            &&& sockets(s1.sockets)[fresh[i]] == SockModel::Tcp(new_listening(port))
        }
}

/// Listener `i` after all were serviced: what left the listening state is
/// queued, what still listens stays, and new sockets fill the backlog.
pub open spec fn in_turn(s0: ListenState, s1: ListenState, i: int, l1: Listener) -> bool {
    let l0 = s0.listeners@[i];
    let m0 = sockets(s0.sockets);
    let kept = stays(l0.backlog@, m0);
    &&& l1.port == l0.port
    &&& l1.accept_queue@ == l0.accept_queue@ + leaves(l0.backlog@, m0)
    &&& exists|fresh: Seq<SocketHandle>|
        {
            &&& l1.backlog@ == kept + fresh
            &&& fresh.len() == missing(kept.len() as int)
            &&& #[trigger] new_in(s0, s1, fresh, l0.port)
        }
}

/// Servicing a listener loses no socket: one that a client has reached is queued to
/// be accepted, one that still listens stays, and none is both.
pub proof fn reached_sockets_are_queued(hs: Seq<SocketHandle>, m: Map<SocketHandle, SockModel>, i: int)
    requires
        0 <= i < hs.len(),
    ensures
        tcp_of(m, hs[i]).state != TcpState::Listen ==> leaves(hs, m).contains(hs[i]),
        tcp_of(m, hs[i]).state == TcpState::Listen ==> stays(hs, m).contains(hs[i]),
        stays(hs, m).len() + leaves(hs, m).len() == hs.len(),
    decreases hs.len(),
{
    let p = hs.drop_last();
    let (s, l) = (stays(hs, m), leaves(hs, m));
    let (s0, l0) = (stays(p, m), leaves(p, m));
    if i < hs.len() - 1 {
        assert(p[i] == hs[i]);
        reached_sockets_are_queued(p, m, i);
        if tcp_of(m, hs[i]).state == TcpState::Listen {
            let k = choose|k: int| 0 <= k < s0.len() && s0[k] == hs[i];
            assert(s[k] == hs[i]);
        } else {
            let k = choose|k: int| 0 <= k < l0.len() && l0[k] == hs[i];
            assert(l[k] == hs[i]);
        }
    } else {
        if p.len() > 0 {
            reached_sockets_are_queued(p, m, 0);
        }
        if tcp_of(m, hs[i]).state == TcpState::Listen {
            assert(s[s.len() - 1] == hs[i]);
        } else {
            assert(l[l.len() - 1] == hs[i]);
        }
    }
}

} // verus!
