//! The TCP handle table over smoltcp's socket set.
//!
//! smoltcp has no listen backlog: one listening socket completes one handshake
//! at a time. So every listened-on port has a pool of listening sockets, and
//! accepting a connection puts a new listening socket in its place.

use smoltcp::iface::{Interface, SocketHandle, SocketSet};
use vstd::prelude::*;
use crate::net::smol;
use crate::net::smol::{
    closed, connecting, fresh_tcp, is_tcp, listening, may_recv, may_send, smaller, sockets, tcp_of,
    unspecified, with_tcp, Ip, SockModel, TcpSock, TcpState,
};
use crate::net::{ErrnoKind, TcpHandle, GUEST_IP};

verus! {

/// Per-direction TCP socket buffer.
pub const SOCK_BUF: usize = 0x1_0000;

/// Number of listening sockets kept for one port.
pub const LISTEN_BACKLOG: usize = 16;

/// Ephemeral port range handed out by `tcp_connect` and `tcp_listen(0)`.
pub const EPHEMERAL_FIRST: u16 = 49152;

pub const EPHEMERAL_LAST: u16 = 60999;

#[derive(Clone, Copy, PartialEq, Eq, Structural, Debug)]
pub enum SlotKind {
    Free,
    /// Listening socket; `port` is the listen port.
    Listener,
    /// Connected or connecting socket owned by a handle.
    Conn,
    /// The handle was released while the closing handshake still runs.
    Zombie,
}

#[derive(Clone, Copy)]
pub struct Slot {
    pub kind: SlotKind,
    pub port: u16,
    pub sk: SocketHandle,
}

pub struct Stack {
    pub iface: Interface,
    pub sockets: SocketSet<'static>,
    pub slots: Vec<Slot>,
    pub next_port: u16,
}

/// A slot of the handle table as callers see it.
pub enum SlotView {
    Free,
    Live { kind: SlotKind, port: u16, sock: TcpSock },
}

// ---- The table over the socket set --------------------------------------
pub open spec fn slot_view(s: Slot, m: Map<SocketHandle, SockModel>) -> SlotView {
    if s.kind is Free {
        SlotView::Free
    } else {
        SlotView::Live { kind: s.kind, port: s.port, sock: tcp_of(m, s.sk) }
    }
}

pub open spec fn table_view(slots: Seq<Slot>, m: Map<SocketHandle, SockModel>) -> Seq<SlotView> {
    Seq::new(slots.len(), |i: int| slot_view(slots[i], m))
}

pub open spec fn refers(slots: Seq<Slot>, i: int, h: SocketHandle) -> bool {
    0 <= i < slots.len() && !(slots[i].kind is Free) && slots[i].sk == h
}

/// Every live slot has a TCP socket of its own in the set, and every socket of
/// the set has a slot or is in `loose`.
pub open spec fn table_wf(
    slots: Seq<Slot>,
    m: Map<SocketHandle, SockModel>,
    loose: Set<SocketHandle>,
) -> bool {
    &&& forall|i: int|
        0 <= i < slots.len() && !((#[trigger] slots[i]).kind is Free) ==> is_tcp(m, slots[i].sk)
            && slots[i].port != 0 && !loose.contains(slots[i].sk)
    &&& forall|i: int, j: int|
        0 <= i < slots.len() && 0 <= j < slots.len() && i != j && !((#[trigger] slots[i]).kind is Free)
            && !((#[trigger] slots[j]).kind is Free) ==> slots[i].sk != slots[j].sk
    &&& forall|h: SocketHandle| #[trigger]
        loose.contains(h) ==> is_tcp(m, h)
    &&& forall|h: SocketHandle| #[trigger]
        m.dom().contains(h) ==> loose.contains(h) || exists|i: int| refers(slots, i, h)
}

proof fn lemma_add(
    slots: Seq<Slot>,
    m: Map<SocketHandle, SockModel>,
    loose: Set<SocketHandle>,
    h: SocketHandle,
    s: TcpSock,
)
    requires
        table_wf(slots, m, loose),
        !m.dom().contains(h) || loose.contains(h),
    ensures
        table_wf(slots, with_tcp(m, h, s), loose.insert(h)),
        table_view(slots, with_tcp(m, h, s)) == table_view(slots, m),
{
    let m2 = with_tcp(m, h, s);
    assert forall|i: int| 0 <= i < slots.len() && !((#[trigger] slots[i]).kind is Free) implies is_tcp(
        m2,
        slots[i].sk,
    ) && slots[i].sk != h by {
        assert(is_tcp(m, slots[i].sk));
    }
    assert(table_view(slots, m2) =~= table_view(slots, m));
}

proof fn lemma_fill(
    slots: Seq<Slot>,
    m: Map<SocketHandle, SockModel>,
    loose: Set<SocketHandle>,
    k: int,
    x: Slot,
)
    requires
        table_wf(slots, m, loose),
        0 <= k <= slots.len(),
        k < slots.len() ==> slots[k].kind is Free,
        loose.contains(x.sk),
        !(x.kind is Free),
        x.port != 0,
    ensures
        ({
            let slots2 = if k < slots.len() {
                slots.update(k, x)
            } else {
                slots.push(x)
            };
            let v = table_view(slots, m);
            &&& table_wf(slots2, m, loose.remove(x.sk))
            &&& table_view(slots2, m) == (if k < slots.len() {
                v.update(k, slot_view(x, m))
            } else {
                v.push(slot_view(x, m))
            })
        }),
{
    let slots2 = if k < slots.len() {
        slots.update(k, x)
    } else {
        slots.push(x)
    };
    let v = table_view(slots, m);
    let loose2 = loose.remove(x.sk);
    assert forall|h: SocketHandle| #[trigger] m.dom().contains(h) implies loose2.contains(h)
        || exists|i: int| refers(slots2, i, h) by {
        if !loose2.contains(h) {
            if h == x.sk {
                assert(refers(slots2, k, h));
            } else {
                let i = choose|i: int| refers(slots, i, h);
                assert(refers(slots2, i, h));
            }
        }
    }
    assert(table_view(slots2, m) =~= (if k < slots.len() {
        v.update(k, slot_view(x, m))
    } else {
        v.push(slot_view(x, m))
    }));
}

proof fn lemma_unlink(
    slots: Seq<Slot>,
    m: Map<SocketHandle, SockModel>,
    loose: Set<SocketHandle>,
    k: int,
)
    requires
        table_wf(slots, m, loose),
        0 <= k < slots.len(),
        !(slots[k].kind is Free),
    ensures
        ({
            let slots2 = slots.update(k, Slot { kind: SlotKind::Free, ..slots[k] });
            &&& table_wf(slots2, m, loose.insert(slots[k].sk))
            &&& table_view(slots2, m) == table_view(slots, m).update(k, SlotView::Free)
        }),
{
    let slots2 = slots.update(k, Slot { kind: SlotKind::Free, ..slots[k] });
    let loose2 = loose.insert(slots[k].sk);
    assert forall|h: SocketHandle| #[trigger] m.dom().contains(h) implies loose2.contains(h)
        || exists|i: int| refers(slots2, i, h) by {
        if !loose2.contains(h) {
            let i = choose|i: int| refers(slots, i, h);
            assert(refers(slots2, i, h));
        }
    }
    assert(table_view(slots2, m) =~= table_view(slots, m).update(k, SlotView::Free));
}

proof fn lemma_drop(
    slots: Seq<Slot>,
    m: Map<SocketHandle, SockModel>,
    loose: Set<SocketHandle>,
    h: SocketHandle,
)
    requires
        table_wf(slots, m, loose),
        loose.contains(h),
    ensures
        table_wf(slots, m.remove(h), loose.remove(h)),
        table_view(slots, m.remove(h)) == table_view(slots, m),
{
    assert(table_view(slots, m.remove(h)) =~= table_view(slots, m));
}

proof fn lemma_sock(slots: Seq<Slot>, m: Map<SocketHandle, SockModel>, k: int, s: TcpSock)
    requires
        table_wf(slots, m, Set::empty()),
        0 <= k < slots.len(),
        !(slots[k].kind is Free),
    ensures
        table_wf(slots, with_tcp(m, slots[k].sk, s), Set::empty()),
        table_view(slots, with_tcp(m, slots[k].sk, s)) == table_view(slots, m).update(
            k,
            SlotView::Live { kind: slots[k].kind, port: slots[k].port, sock: s },
        ),
{
    let m2 = with_tcp(m, slots[k].sk, s);
    assert(is_tcp(m, slots[k].sk));
    assert(table_view(slots, m2) =~= table_view(slots, m).update(
        k,
        SlotView::Live { kind: slots[k].kind, port: slots[k].port, sock: s },
    ));
}

proof fn lemma_kind(slots: Seq<Slot>, m: Map<SocketHandle, SockModel>, k: int, kind: SlotKind)
    requires
        table_wf(slots, m, Set::empty()),
        0 <= k < slots.len(),
        !(slots[k].kind is Free),
        !(kind is Free),
    ensures
        ({
            let slots2 = slots.update(k, Slot { kind, ..slots[k] });
            &&& table_wf(slots2, m, Set::empty())
            &&& table_view(slots2, m) == table_view(slots, m).update(
                k,
                SlotView::Live { kind, port: slots[k].port, sock: tcp_of(m, slots[k].sk) },
            )
        }),
{
    let slots2 = slots.update(k, Slot { kind, ..slots[k] });
    assert forall|h: SocketHandle| #[trigger] m.dom().contains(h) implies Set::<
        SocketHandle,
    >::empty().contains(h) || exists|i: int| refers(slots2, i, h) by {
        let i = choose|i: int| refers(slots, i, h);
        assert(refers(slots2, i, h));
    }
    assert(table_view(slots2, m) =~= table_view(slots, m).update(
        k,
        SlotView::Live { kind, port: slots[k].port, sock: tcp_of(m, slots[k].sk) },
    ));
}

impl View for Stack {
    type V = Seq<SlotView>;

    open spec fn view(&self) -> Seq<SlotView> {
        table_view(self.slots@, sockets(self.sockets))
    }
}

impl Stack {
    /// The handle table and the socket set agree, and no socket is lost.
    pub open spec fn wf(&self) -> bool {
        &&& table_wf(self.slots@, sockets(self.sockets), Set::empty())
        &&& EPHEMERAL_FIRST <= self.next_port <= EPHEMERAL_LAST
    }
}

pub open spec fn up_wf(st: Option<Stack>) -> bool {
    st is Some ==> st->0.wf()
}

// ---- What the operations do to the table ---------------------------------
/// The lowest free slot, or the length of the table.
pub open spec fn first_free(v: Seq<SlotView>) -> int
    decreases v.len(),
{
    if v.len() == 0 || v[0] is Free {
        0
    } else {
        1 + first_free(v.skip(1))
    }
}

/// `x` in the lowest free slot, or in a new one at the end.
pub open spec fn place(v: Seq<SlotView>, x: SlotView) -> Seq<SlotView> {
    let i = first_free(v);
    if i < v.len() {
        v.update(i, x)
    } else {
        v.push(x)
    }
}

pub open spec fn place_n(v: Seq<SlotView>, x: SlotView, n: nat) -> Seq<SlotView>
    decreases n,
{
    if n == 0 {
        v
    } else {
        place(place_n(v, x, (n - 1) as nat), x)
    }
}

/// A new socket of this stack.
pub open spec fn new_sock() -> TcpSock {
    TcpSock { delayed_ack: false, ..fresh_tcp(SOCK_BUF as nat) }
}

/// The slot of a socket that has just been put to listen on `port`.
pub open spec fn listener(port: u16) -> SlotView {
    SlotView::Live { kind: SlotKind::Listener, port, sock: listening(new_sock(), None, port) }
}

pub open spec fn conn(port: u16, sock: TcpSock) -> SlotView {
    SlotView::Live { kind: SlotKind::Conn, port, sock }
}

pub open spec fn live(v: Seq<SlotView>, h: int) -> bool {
    0 <= h < v.len() && v[h] is Live
}

/// The handle is that of a live connection.
pub open spec fn is_conn(v: Seq<SlotView>, h: int) -> bool {
    live(v, h) && v[h]->kind is Conn
}

pub open spec fn is_listener(v: Seq<SlotView>, h: int) -> bool {
    live(v, h) && v[h]->kind is Listener
}

/// Slot `i` belongs to the listen pool of `port`.
pub open spec fn pooled(v: Seq<SlotView>, i: int, port: u16) -> bool {
    is_listener(v, i) && v[i]->port == port
}

pub open spec fn port_in_use(v: Seq<SlotView>, port: u16) -> bool {
    exists|i: int| pooled(v, i, port)
}

/// The socket left the listening state for good: it can be accepted.
pub open spec fn ready(s: TcpState) -> bool {
    !(s is Listen || s is SynSent || s is SynReceived || s is Closed)
}

pub open spec fn acceptable(v: Seq<SlotView>, i: int, port: u16) -> bool {
    pooled(v, i, port) && ready(v[i]->sock.state)
}

/// Slot `j` is the first of the pool that can be accepted.
pub open spec fn first_ready(v: Seq<SlotView>, port: u16, j: int) -> bool {
    acceptable(v, j, port) && forall|i: int| 0 <= i < j ==> !acceptable(v, i, port)
}

/// The table after the reset sockets among the first `n` slots of the pool were
/// put back to listen.
pub open spec fn rearmed(v: Seq<SlotView>, port: u16, n: int) -> Seq<SlotView> {
    Seq::new(
        v.len(),
        |i: int|
            if i < n && pooled(v, i, port) && v[i]->sock.state is Closed {
                listener(port)
            } else {
                v[i]
            },
    )
}

/// The table after released connections whose handshake has ended were dropped.
pub open spec fn reaped(v: Seq<SlotView>) -> Seq<SlotView> {
    Seq::new(
        v.len(),
        |i: int|
            if v[i] is Live && v[i]->kind is Zombie && v[i]->sock.state is Closed {
                SlotView::Free
            } else {
                v[i]
            },
    )
}

/// The table after the listen pool of `port` was dropped.
pub open spec fn unlistened(v: Seq<SlotView>, port: u16) -> Seq<SlotView> {
    Seq::new(
        v.len(),
        |i: int|
            if pooled(v, i, port) {
                SlotView::Free
            } else {
                v[i]
            },
    )
}

/// The table after the handle `h` was released.
pub open spec fn dropped(v: Seq<SlotView>, h: int) -> Seq<SlotView> {
    if is_listener(v, h) {
        unlistened(v, v[h]->port)
    } else if is_conn(v, h) {
        let s = v[h]->sock;
        v.update(
            h,
            if s.state is Closed {
                SlotView::Free
            } else {
                SlotView::Live { kind: SlotKind::Zombie, port: v[h]->port, sock: closed(s) }
            },
        )
    } else {
        v
    }
}

pub open spec fn with_sock(v: Seq<SlotView>, h: int, s: TcpSock) -> Seq<SlotView> {
    v.update(h, SlotView::Live { kind: v[h]->kind, port: v[h]->port, sock: s })
}

/// The next ephemeral port after `p`.
pub open spec fn port_after(p: u16) -> u16 {
    if p >= EPHEMERAL_LAST {
        EPHEMERAL_FIRST
    } else {
        (p + 1) as u16
    }
}

proof fn lemma_first_free(v: Seq<SlotView>, k: int)
    requires
        0 <= k <= v.len(),
        forall|i: int| 0 <= i < k ==> !(#[trigger] v[i] is Free),
        k < v.len() ==> v[k] is Free,
    ensures
        first_free(v) == k,
    decreases v.len(),
{
    if v.len() > 0 && k > 0 {
        let t = v.skip(1);
        assert(!(v[0] is Free));
        assert forall|i: int| 0 <= i < k - 1 implies !(#[trigger] t[i] is Free) by {
            assert(t[i] == v[i + 1]);
        }
        lemma_first_free(t, k - 1);
    }
}

// ---- Operations -----------------------------------------------------------
impl Stack {
    /// A stack without sockets on a configured interface.
    pub fn new(iface: Interface) -> (r: Stack)
        ensures
            r.wf(),
            r@.len() == 0,
            r.iface == iface,
            r.next_port == EPHEMERAL_FIRST,
    {
        Stack { iface, sockets: smol::new_set(), slots: Vec::new(), next_port: EPHEMERAL_FIRST }
    }

    /// Takes the next port of the ephemeral range.
    fn alloc_port(&mut self) -> (p: u16)
        requires
            old(self).wf(),
        ensures
            final(self).wf(),
            p == old(self).next_port,
            final(self).next_port == port_after(p),
            final(self)@ == old(self)@,
            final(self).iface == old(self).iface,
            final(self).sockets == old(self).sockets,
            final(self).slots == old(self).slots,
    {
        let p: u16 = self.next_port;
        self.next_port = if p >= EPHEMERAL_LAST {
            EPHEMERAL_FIRST
        } else {
            p + 1
        };
        p
    }

    /// Puts a socket that no slot refers to into the lowest free slot.
    fn alloc_slot(
        &mut self,
        kind: SlotKind,
        port: u16,
        sk: SocketHandle,
        Ghost(loose): Ghost<Set<SocketHandle>>,
    ) -> (r: usize)
        requires
            table_wf(old(self).slots@, sockets(old(self).sockets), loose),
            loose.contains(sk),
            !(kind is Free),
            port != 0,
        ensures
            table_wf(final(self).slots@, sockets(final(self).sockets), loose.remove(sk)),
            r == first_free(old(self)@),
            final(self)@ == place(
                old(self)@,
                SlotView::Live { kind, port, sock: tcp_of(sockets(old(self).sockets), sk) },
            ),
            final(self).sockets == old(self).sockets,
            final(self).iface == old(self).iface,
            final(self).next_port == old(self).next_port,
    {
        let ghost v = self@;
        let ghost slots = self.slots@;
        let x = Slot { kind, port, sk };
        let n: usize = self.slots.len();
        let mut i: usize = 0;
        while i < n
            invariant
                i <= n,
                n == self.slots@.len(),
                self.slots@ == slots,
                v == table_view(slots, sockets(self.sockets)),
                self.sockets == old(self).sockets,
                self.iface == old(self).iface,
                self.next_port == old(self).next_port,
                table_wf(slots, sockets(self.sockets), loose),
                loose.contains(sk),
                !(kind is Free),
                port != 0,
                x == (Slot { kind, port, sk }),
                v == old(self)@,
                slots == old(self).slots@,
                forall|j: int| 0 <= j < i ==> !(#[trigger] v[j] is Free),
            decreases n - i,
        {
            if self.slots[i].kind == SlotKind::Free {
                proof {
                    lemma_first_free(v, i as int);
                    lemma_fill(slots, sockets(self.sockets), loose, i as int, x);
                }
                self.slots.set(i, x);
                return i;
            }
            i = i + 1;
        }
        proof {
            lemma_first_free(v, n as int);
            lemma_fill(slots, sockets(self.sockets), loose, n as int, x);
        }
        self.slots.push(x);
        n
    }

    /// Adds a new socket that listens on `port`, not yet in any slot.
    fn add_listener(&mut self, port: u16, Ghost(loose): Ghost<Set<SocketHandle>>) -> (r: (
        SocketHandle,
        bool,
    ))
        requires
            table_wf(old(self).slots@, sockets(old(self).sockets), loose),
            port != 0,
        ensures
            table_wf(final(self).slots@, sockets(final(self).sockets), loose.insert(r.0)),
            !sockets(old(self).sockets).dom().contains(r.0),
            sockets(final(self).sockets) == with_tcp(
                sockets(old(self).sockets),
                r.0,
                listening(new_sock(), None, port),
            ),
            r.1,
            final(self)@ == old(self)@,
            final(self).slots == old(self).slots,
            final(self).iface == old(self).iface,
            final(self).next_port == old(self).next_port,
    {
        let ghost m = sockets(self.sockets);
        let h = smol::add_tcp(&mut self.sockets, SOCK_BUF);
        smol::disable_ack_delay(&mut self.sockets, h);
        let ok: bool = smol::listen(&mut self.sockets, h, None, port);
        proof {
            lemma_add(self.slots@, m, loose, h, listening(new_sock(), None, port));
            assert(sockets(self.sockets) =~= with_tcp(m, h, listening(new_sock(), None, port)));
        }
        (h, ok)
    }

    /// Drops sockets whose closing handshake finished after the handle was
    /// released. To be called after every run of the interface.
    pub fn reap(&mut self)
        requires
            old(self).wf(),
        ensures
            final(self).wf(),
            final(self)@ == reaped(old(self)@),
            final(self).iface == old(self).iface,
            final(self).next_port == old(self).next_port,
    {
        let ghost v = self@;
        let n: usize = self.slots.len();
        let mut i: usize = 0;
        while i < n
            invariant
                i <= n,
                n == self.slots@.len(),
                n == v.len(),
                self.wf(),
                self.iface == old(self).iface,
                self.next_port == old(self).next_port,
                v == old(self)@,
                forall|j: int| 0 <= j < i ==> #[trigger] self@[j] == reaped(v)[j],
                forall|j: int| i <= j < n ==> #[trigger] self@[j] == v[j],
            decreases n - i,
        {
            let ghost cur = self@;
            let s: Slot = self.slots[i];
            assert(cur[i as int] == v[i as int]);
            if s.kind == SlotKind::Zombie && smol::state(&self.sockets, s.sk) == TcpState::Closed {
                self.discard(i);
            }
            i = i + 1;
        }
        assert(self@ =~= reaped(v));
    }

    /// The socket of a handle that must be a live connection.
    fn conn_sk(&self, h: TcpHandle) -> (r: Result<SocketHandle, ErrnoKind>)
        requires
            self.wf(),
        ensures
            match r {
                Ok(sk) => is_conn(self@, h.0 as int) && self.slots@[h.0 as int].sk == sk,
                Err(e) => !is_conn(self@, h.0 as int) && e is Invalid,
            },
    {
        if h.0 < self.slots.len() && self.slots[h.0].kind == SlotKind::Conn {
            Ok(self.slots[h.0].sk)
        } else {
            Err(ErrnoKind::Invalid)
        }
    }
}

// ---- The socket calls -----------------------------------------------------
/// The port that a listen request for `port` is about.
pub open spec fn chosen_port(st: Stack, port: u16) -> u16 {
    if port == 0 {
        st.next_port
    } else {
        port
    }
}

pub open spec fn listen_post(
    before: Stack,
    port: u16,
    r: Result<TcpHandle, &'static str>,
    after: Stack,
) -> bool {
    let p = chosen_port(before, port);
    &&& after.wf()
    &&& after.iface == before.iface
    &&& after.next_port == (if port == 0 {
        port_after(before.next_port)
    } else {
        before.next_port
    })
    &&& match r {
        Ok(h) => {
            &&& !port_in_use(before@, p)
            &&& h.0 == first_free(before@)
            &&& after@ == place_n(before@, listener(p), LISTEN_BACKLOG as nat)
        },
        Err(e) => port_in_use(before@, p) && e@ == "address already in use"@ && after@ == before@,
    }
}

impl Stack {
    #[verifier::loop_isolation(false)]
    fn listen(&mut self, port: u16) -> (r: Result<TcpHandle, &'static str>)
        requires
            old(self).wf(),
        ensures
            listen_post(*old(self), port, r, *final(self)),
    {
        let port: u16 = if port == 0 {
            self.alloc_port()
        } else {
            port
        };
        let ghost mid = *self;
        let ghost v = self@;
        let n: usize = self.slots.len();
        let mut i: usize = 0;
        while i < n
            invariant
                i <= n,
                n == self.slots@.len(),
                v == self@,
                *self == mid,
                forall|j: int| 0 <= j < i ==> !pooled(v, j, port),
            decreases n - i,
        {
            if self.slots[i].kind == SlotKind::Listener && self.slots[i].port == port {
                assert(pooled(v, i as int, port));
                return Err("address already in use");
            }
            i = i + 1;
        }
        assert(!port_in_use(v, port));
        let mut first: usize = 0;
        let mut k: usize = 0;
        while k < LISTEN_BACKLOG
            invariant
                k <= LISTEN_BACKLOG,
                self.wf(),
                port != 0,
                self@ == place_n(v, listener(port), k as nat),
                self.iface == mid.iface,
                self.next_port == mid.next_port,
                k > 0 ==> first == first_free(v),
            decreases LISTEN_BACKLOG - k,
        {
            let (sk, ok): (SocketHandle, bool) = self.add_listener(port, Ghost(Set::empty()));
            if !ok {
                return Err("cannot listen on that port");
            }
            let ghost loose = Set::<SocketHandle>::empty().insert(sk);
            let idx: usize = self.alloc_slot(SlotKind::Listener, port, sk, Ghost(loose));
            if k == 0 {
                first = idx;
            }
            proof {
                assert(loose.remove(sk) =~= Set::empty());
            }
            k = k + 1;
        }
        Ok(TcpHandle(first))
    }
}

/// Creates the listen pool of a port; port 0 picks an ephemeral one. The
/// handle is that of the pool's first socket.
pub fn tcp_listen(st: &mut Option<Stack>, port: u16) -> (r: Result<TcpHandle, &'static str>)
    requires
        up_wf(*old(st)),
    ensures
        match *old(st) {
            None => *final(st) is None && r is Err && r->Err_0@ == "network is down"@,
            Some(s) => *final(st) is Some && listen_post(s, port, r, (*final(st))->0),
        },
{
    match st {
        None => Err("network is down"),
        Some(st) => st.listen(port),
    }
}

/// What accepting on `h` gives: the table is changed by re-arming, and the
/// first connection that is ready moves to a slot of its own.
pub open spec fn accept_post(
    before: Stack,
    h: TcpHandle,
    r: Result<Option<(TcpHandle, Ip, u16)>, &'static str>,
    after: Stack,
) -> bool {
    let v = before@;
    let port = v[h.0 as int]->port;
    &&& after.wf()
    &&& after.iface == before.iface
    &&& after.next_port == before.next_port
    &&& match r {
        Err(e) => !is_listener(v, h.0 as int) && e@ == "invalid handle"@ && after@ == v,
        Ok(None) => {
            &&& is_listener(v, h.0 as int)
            &&& forall|i: int| !acceptable(v, i, port)
            &&& after@ == rearmed(v, port, v.len() as int)
        },
        Ok(Some((c, ip, p))) => {
            &&& is_listener(v, h.0 as int)
            &&& exists|j: int|
                {
                    let sock = v[j]->sock;
                    &&& #[trigger] first_ready(v, port, j)
                    &&& c.0 == first_free(v)
                    &&& after@ == place(
                        rearmed(v, port, j).update(j, listener(port)),
                        conn(port, sock),
                    )
                    &&& match sock.remote {
                        Some(ep) => ep == (ip, p),
                        None => unspecified(ip) && p == 0,
                    }
                }
        },
    }
}

proof fn lemma_first_free_same(v: Seq<SlotView>, w: Seq<SlotView>)
    requires
        v.len() == w.len(),
        forall|i: int| 0 <= i < v.len() ==> ((#[trigger] v[i]) is Free) == (w[i] is Free),
    ensures
        first_free(v) == first_free(w),
    decreases v.len(),
{
    if v.len() > 0 {
        assert(v[0] is Free == w[0] is Free);
        assert forall|i: int| 0 <= i < v.skip(1).len() implies ((#[trigger] v.skip(1)[i]) is Free)
            == (w.skip(1)[i] is Free) by {
            assert(v[i + 1] is Free == w[i + 1] is Free);
        }
        lemma_first_free_same(v.skip(1), w.skip(1));
    }
}

impl Stack {
    #[verifier::loop_isolation(false)]
    fn accept(&mut self, h: TcpHandle) -> (r: Result<Option<(TcpHandle, Ip, u16)>, &'static str>)
        requires
            old(self).wf(),
        ensures
            accept_post(*old(self), h, r, *final(self)),
    {
        let ghost before = *self;
        let ghost v = self@;
        let idx: usize = h.0;
        let n: usize = self.slots.len();
        if idx >= n || self.slots[idx].kind != SlotKind::Listener {
            return Err("invalid handle");
        }
        let port: u16 = self.slots[idx].port;
        assert(v[idx as int]->port == port);
        let mut j: usize = 0;
        while j < n
            invariant
                j <= n,
                n == v.len(),
                n == self.slots@.len(),
                v == before@,
                is_listener(v, h.0 as int),
                port == v[h.0 as int]->port,
                port != 0,
                self.wf(),
                self@ == rearmed(v, port, j as int),
                forall|i: int| 0 <= i < j ==> !acceptable(v, i, port),
                self.iface == before.iface,
                self.next_port == before.next_port,
            decreases n - j,
        {
            let s: Slot = self.slots[j];
            let ghost cur = self@;
            assert(cur[j as int] == v[j as int]);
            if s.kind == SlotKind::Listener && s.port == port {
                assert(pooled(v, j as int, port));
                let sk = s.sk;
                let state: TcpState = smol::state(&self.sockets, sk);
                match state {
                    TcpState::Listen | TcpState::SynSent | TcpState::SynReceived => {
                        assert(rearmed(v, port, j + 1) =~= rearmed(v, port, j as int));
                    },
                    TcpState::Closed => {
                        let ghost slots = self.slots@;
                        let ghost m = sockets(self.sockets);
                        let ghost free = slots.update(
                            j as int,
                            Slot { kind: SlotKind::Free, ..s },
                        );
                        proof {
                            lemma_unlink(slots, m, Set::empty(), j as int);
                            lemma_drop(free, m, Set::empty().insert(sk), sk);
                            assert(Set::<SocketHandle>::empty().insert(sk).remove(sk)
                                =~= Set::empty());
                        }
                        self.slots.set(j, Slot { kind: SlotKind::Free, port: s.port, sk });
                        smol::remove(&mut self.sockets, sk);
                        let (l, ok): (SocketHandle, bool) = self.add_listener(
                            port,
                            Ghost(Set::empty()),
                        );
                        if ok {
                            proof {
                                lemma_fill(
                                    free,
                                    sockets(self.sockets),
                                    Set::empty().insert(l),
                                    j as int,
                                    Slot { kind: SlotKind::Listener, port, sk: l },
                                );
                                assert(Set::<SocketHandle>::empty().insert(l).remove(l)
                                    =~= Set::empty());
                            }
                            self.slots.set(j, Slot { kind: SlotKind::Listener, port, sk: l });
                        }
                        assert(self@ =~= rearmed(v, port, j + 1));
                    },
                    _ => {
                        let ghost slots = self.slots@;
                        let ghost m = sockets(self.sockets);
                        let ghost free = slots.update(
                            j as int,
                            Slot { kind: SlotKind::Free, ..s },
                        );
                        proof {
                            assert(first_ready(v, port, j as int));
                            lemma_unlink(slots, m, Set::empty(), j as int);
                        }
                        let (ip, peer_port): (Ip, u16) = match smol::remote_endpoint(
                            &self.sockets,
                            sk,
                        ) {
                            Some(ep) => ep,
                            None => ([0u8, 0u8, 0u8, 0u8], 0),
                        };
                        self.slots.set(j, Slot { kind: SlotKind::Free, port: s.port, sk });
                        let ghost loose = Set::<SocketHandle>::empty().insert(sk);
                        let (l, ok): (SocketHandle, bool) = self.add_listener(port, Ghost(loose));
                        if ok {
                            proof {
                                lemma_fill(
                                    free,
                                    sockets(self.sockets),
                                    loose.insert(l),
                                    j as int,
                                    Slot { kind: SlotKind::Listener, port, sk: l },
                                );
                                assert(loose.insert(l).remove(l) =~= loose);
                            }
                            self.slots.set(j, Slot { kind: SlotKind::Listener, port, sk: l });
                        }
                        assert(self@ =~= rearmed(v, port, j as int).update(
                            j as int,
                            listener(port),
                        ));
                        proof {
                            lemma_first_free_same(v, self@);
                        }
                        let ni: usize = self.alloc_slot(SlotKind::Conn, port, sk, Ghost(loose));
                        proof {
                            assert(loose.remove(sk) =~= Set::empty());
                            assert(self.wf());
                            assert(v[j as int]->sock.remote is None ==> unspecified(ip));
                            assert(ni == first_free(v));
                            assert(self@ == place(
                    rearmed(v, port, j as int).update(j as int, listener(port)),
                    conn(port, v[j as int]->sock),
                ));
                            assert(first_ready(v, port, j as int));
                        }
                        return Ok(Some((TcpHandle(ni), ip, peer_port)));
                    },
                }
            } else {
                assert(rearmed(v, port, j + 1) =~= rearmed(v, port, j as int));
            }
            j = j + 1;
        }
        Ok(None)
    }
}

/// Hands out a completed connection of the listen pool as a new handle, with
/// the peer's address. The interface is to be run before.
pub fn tcp_accept(st: &mut Option<Stack>, h: TcpHandle) -> (r: Result<
    Option<(TcpHandle, Ip, u16)>,
    &'static str,
>)
    requires
        up_wf(*old(st)),
    ensures
        match *old(st) {
            None => *final(st) is None && r is Err && r->Err_0@ == "network is down"@,
            Some(s) => *final(st) is Some && accept_post(s, h, r, (*final(st))->0),
        },
{
    match st {
        None => Err("network is down"),
        Some(st) => st.accept(h),
    }
}

/// A connection in the listen pool that a blocked accept should be woken for.
pub open spec fn pending(s: TcpState) -> bool {
    s is Established || s is CloseWait || s is Closing || s is FinWait1 || s is FinWait2
        || s is LastAck
}

pub open spec fn listen_pending(st: Option<Stack>, h: TcpHandle) -> bool {
    st is Some && is_listener(st->0@, h.0 as int) && exists|i: int|
        #![trigger pooled(st->0@, i, st->0@[h.0 as int]->port)]
        pooled(st->0@, i, st->0@[h.0 as int]->port) && pending(st->0@[i]->sock.state)
}

/// Whether the listen pool of this handle has a completed connection.
#[verifier::loop_isolation(false)]
pub fn tcp_listen_pending(st: &Option<Stack>, h: TcpHandle) -> (r: bool)
    requires
        up_wf(*st),
    ensures
        r == listen_pending(*st, h),
{
    match st {
        None => false,
        Some(st) => {
            let ghost v = st@;
            let idx: usize = h.0;
            let n: usize = st.slots.len();
            if idx >= n || st.slots[idx].kind != SlotKind::Listener {
                return false;
            }
            let port: u16 = st.slots[idx].port;
            assert(v[idx as int]->port == port);
            let mut i: usize = 0;
            while i < n
                invariant
                    i <= n,
                    n == st.slots@.len(),
                    v == st@,
                    st.wf(),
                    is_listener(v, idx as int),
                    h.0 == idx,
                    port == v[idx as int]->port,
                    forall|j: int|
                        0 <= j < i ==> !(#[trigger] pooled(v, j, port) && pending(
                            v[j]->sock.state,
                        )),
                decreases n - i,
            {
                let s: Slot = st.slots[i];
                if s.kind == SlotKind::Listener && s.port == port {
                    assert(pooled(v, i as int, port));
                    match smol::state(&st.sockets, s.sk) {
                        TcpState::Established
                        | TcpState::CloseWait
                        | TcpState::Closing
                        | TcpState::FinWait1
                        | TcpState::FinWait2
                        | TcpState::LastAck => {
                            return true;
                        },
                        _ => {},
                    }
                }
                i = i + 1;
            }
            false
        },
    }
}

pub open spec fn connect_post(
    before: Stack,
    ip: Ip,
    port: u16,
    r: Result<TcpHandle, &'static str>,
    after: Stack,
) -> bool {
    let p = before.next_port;
    &&& after.wf()
    &&& after.next_port == port_after(p)
    &&& match r {
        Ok(h) => {
            &&& !unspecified(ip)
            &&& h.0 == first_free(before@)
            &&& after@ == place(
                before@,
                conn(p, connecting(new_sock(), (GUEST_IP, p), (ip, port))),
            )
        },
        Err(e) => unspecified(ip) && e@ == "cannot connect"@ && after@ == before@,
    }
}

impl Stack {
    fn connect(&mut self, ip: Ip, port: u16) -> (r: Result<TcpHandle, &'static str>)
        requires
            old(self).wf(),
            port != 0,
        ensures
            connect_post(*old(self), ip, port, r, *final(self)),
    {
        let local_port: u16 = self.alloc_port();
        let ghost m = sockets(self.sockets);
        let ghost empty = Set::<SocketHandle>::empty();
        let ghost sock = connecting(new_sock(), (GUEST_IP, local_port), (ip, port));
        let h = smol::add_tcp(&mut self.sockets, SOCK_BUF);
        smol::disable_ack_delay(&mut self.sockets, h);
        let ok: bool = smol::connect(
            &mut self.sockets,
            &mut self.iface,
            h,
            (ip, port),
            (Some(GUEST_IP), local_port),
        );
        proof {
            assert(GUEST_IP@[0] == 10);
            assert(ok == !unspecified(ip));
        }
        if !ok {
            smol::remove(&mut self.sockets, h);
            proof {
                assert(sockets(self.sockets) =~= m);
            }
            return Err("cannot connect");
        }
        proof {
            lemma_add(self.slots@, m, empty, h, sock);
            assert(sockets(self.sockets) =~= with_tcp(m, h, sock));
        }
        let idx: usize = self.alloc_slot(SlotKind::Conn, local_port, h, Ghost(empty.insert(h)));
        proof {
            assert(empty.insert(h).remove(h) =~= empty);
        }
        Ok(TcpHandle(idx))
    }
}

/// Starts a connection from an ephemeral port. It is established once
/// `tcp_state` says so.
pub fn tcp_connect(st: &mut Option<Stack>, ip: Ip, port: u16) -> (r: Result<
    TcpHandle,
    &'static str,
>)
    requires
        up_wf(*old(st)),
    ensures
        port == 0 ==> r is Err && r->Err_0@ == "bad port"@ && *final(st) == *old(st),
        port != 0 ==> match *old(st) {
            None => *final(st) is None && r is Err && r->Err_0@ == "network is down"@,
            Some(s) => *final(st) is Some && connect_post(s, ip, port, r, (*final(st))->0),
        },
{
    if port == 0 {
        return Err("bad port");
    }
    match st {
        None => Err("network is down"),
        Some(st) => st.connect(ip, port),
    }
}

/// Why a connection in this state takes no data.
pub open spec fn send_error(s: TcpState) -> ErrnoKind {
    match s {
        TcpState::Closed
        | TcpState::TimeWait
        | TcpState::Closing
        | TcpState::LastAck
        | TcpState::FinWait1
        | TcpState::FinWait2 => ErrnoKind::Closed,
        TcpState::Listen => ErrnoKind::Invalid,
        _ => ErrnoKind::Again,
    }
}

pub open spec fn send_post(
    before: Stack,
    h: TcpHandle,
    buf: Seq<u8>,
    r: Result<usize, ErrnoKind>,
    after: Stack,
) -> bool {
    let v = before@;
    let s = v[h.0 as int]->sock;
    let n = smaller(buf.len() as int, s.tx_cap - s.tx.len());
    &&& after.wf()
    &&& after.iface == before.iface
    &&& after.next_port == before.next_port
    &&& if !is_conn(v, h.0 as int) {
        r == Err::<usize, ErrnoKind>(ErrnoKind::Invalid) && after@ == v
    } else if !may_send(s) {
        r == Err::<usize, ErrnoKind>(send_error(s.state)) && after@ == v
    } else if n == 0 && buf.len() > 0 {
        r == Err::<usize, ErrnoKind>(ErrnoKind::Again) && after@ == v
    } else {
        r is Ok && r->Ok_0 == n && after@ == with_sock(
            v,
            h.0 as int,
            TcpSock { tx: s.tx + buf.take(n), ..s },
        )
    }
}

impl Stack {
    fn send(&mut self, h: TcpHandle, buf: &[u8]) -> (r: Result<usize, ErrnoKind>)
        requires
            old(self).wf(),
        ensures
            send_post(*old(self), h, buf@, r, *final(self)),
    {
        let sk = match self.conn_sk(h) {
            Ok(sk) => sk,
            Err(e) => {
                return Err(e);
            },
        };
        let ghost m = sockets(self.sockets);
        let ghost s = tcp_of(m, sk);
        let ghost k = h.0 as int;
        assert(self@[k]->sock == s);
        match smol::send_slice(&mut self.sockets, sk, buf) {
            Some(n) => {
                proof {
                    lemma_sock(self.slots@, m, k, TcpSock { tx: s.tx + buf@.take(n as int), ..s });
                }
                if n == 0 && buf.len() != 0 {
                    proof {
                        assert(s.tx + buf@.take(0) =~= s.tx);
                        assert(self@ =~= old(self)@);
                    }
                    Err(ErrnoKind::Again)
                } else {
                    Ok(n)
                }
            },
            None => Err(
                match smol::state(&self.sockets, sk) {
                    TcpState::Closed
                    | TcpState::TimeWait
                    | TcpState::Closing
                    | TcpState::LastAck
                    | TcpState::FinWait1
                    | TcpState::FinWait2 => ErrnoKind::Closed,
                    TcpState::Listen => ErrnoKind::Invalid,
                    _ => ErrnoKind::Again,
                },
            ),
        }
    }
}

/// Queues bytes for sending. `Again` means that it would block, `Closed` that
/// the connection is closed or reset.
pub fn tcp_send(st: &mut Option<Stack>, h: TcpHandle, buf: &[u8]) -> (r: Result<usize, ErrnoKind>)
    requires
        up_wf(*old(st)),
    ensures
        match *old(st) {
            None => *final(st) is None && r == Err::<usize, ErrnoKind>(ErrnoKind::Invalid),
            Some(s) => *final(st) is Some && send_post(s, h, buf@, r, (*final(st))->0),
        },
{
    match st {
        None => Err(ErrnoKind::Invalid),
        Some(st) => st.send(h, buf),
    }
}

pub open spec fn recv_post(
    before: Stack,
    h: TcpHandle,
    buf: Seq<u8>,
    r: Result<usize, ErrnoKind>,
    after: Stack,
    filled: Seq<u8>,
) -> bool {
    let v = before@;
    let s = v[h.0 as int]->sock;
    &&& after.wf()
    &&& after.iface == before.iface
    &&& after.next_port == before.next_port
    &&& if !is_conn(v, h.0 as int) {
        r == Err::<usize, ErrnoKind>(ErrnoKind::Invalid) && after@ == v && filled == buf
    } else if s.rx.len() > 0 {
        let n = smaller(buf.len() as int, s.rx.len() as int);
        &&& r is Ok && r->Ok_0 == n
        &&& filled == s.rx.take(n) + buf.skip(n)
        &&& after@ == with_sock(v, h.0 as int, TcpSock { rx: s.rx.skip(n), ..s })
    } else {
        &&& after@ == v && filled == buf
        &&& if may_recv(s) {
            r == (if buf.len() == 0 {
                Ok::<usize, ErrnoKind>(0)
            } else {
                Err(ErrnoKind::Again)
            })
        } else if s.state is Listen || s.state is SynSent || s.state is SynReceived {
            r == Err::<usize, ErrnoKind>(ErrnoKind::Again)
        } else {
            r == Ok::<usize, ErrnoKind>(0)
        }
    }
}

impl Stack {
    fn recv(&mut self, h: TcpHandle, buf: &mut [u8]) -> (r: Result<usize, ErrnoKind>)
        requires
            old(self).wf(),
        ensures
            recv_post(*old(self), h, old(buf)@, r, *final(self), final(buf)@),
    {
        let sk = match self.conn_sk(h) {
            Ok(sk) => sk,
            Err(e) => {
                return Err(e);
            },
        };
        let ghost m = sockets(self.sockets);
        let ghost s = tcp_of(m, sk);
        let ghost k = h.0 as int;
        assert(self@[k]->sock == s);
        let state: TcpState = smol::state(&self.sockets, sk);
        if smol::can_recv(&self.sockets, sk) {
            return match smol::recv_slice(&mut self.sockets, sk, buf) {
                Some(n) => {
                    proof {
                        lemma_sock(self.slots@, m, k, TcpSock { rx: s.rx.skip(n as int), ..s });
                    }
                    Ok(n)
                },
                None => Ok(0),
            };
        }
        if state == TcpState::Closed {
            return Ok(0);
        }
        if smol::may_recv_now(&self.sockets, sk) {
            return if buf.len() == 0 {
                Ok(0)
            } else {
                Err(ErrnoKind::Again)
            };
        }
        match state {
            TcpState::Listen | TcpState::SynSent | TcpState::SynReceived => Err(ErrnoKind::Again),
            _ => Ok(0),
        }
    }
}

/// Reads received bytes. `Ok(0)` means that the peer closed the connection,
/// `Again` that nothing has arrived yet.
pub fn tcp_recv(st: &mut Option<Stack>, h: TcpHandle, buf: &mut [u8]) -> (r: Result<
    usize,
    ErrnoKind,
>)
    requires
        up_wf(*old(st)),
    ensures
        match *old(st) {
            None => *final(st) is None && r == Err::<usize, ErrnoKind>(ErrnoKind::Invalid)
                && final(buf)@ == old(buf)@,
            Some(s) => *final(st) is Some && recv_post(
                s,
                h,
                old(buf)@,
                r,
                (*final(st))->0,
                final(buf)@,
            ),
        },
{
    match st {
        None => Err(ErrnoKind::Invalid),
        Some(st) => st.recv(h, buf),
    }
}

pub open spec fn state_of(st: Option<Stack>, h: TcpHandle) -> TcpState {
    if st is Some && live(st->0@, h.0 as int) {
        st->0@[h.0 as int]->sock.state
    } else {
        TcpState::Closed
    }
}

/// The TCP state of a handle; `Closed` for a handle that is not in use.
pub fn tcp_state(st: &Option<Stack>, h: TcpHandle) -> (r: TcpState)
    requires
        up_wf(*st),
    ensures
        r == state_of(*st, h),
{
    match st {
        None => TcpState::Closed,
        Some(st) => {
            if h.0 < st.slots.len() && st.slots[h.0].kind != SlotKind::Free {
                assert(live(st@, h.0 as int));
                smol::state(&st.sockets, st.slots[h.0].sk)
            } else {
                TcpState::Closed
            }
        },
    }
}

pub open spec fn local_of(st: Option<Stack>, h: TcpHandle) -> Option<(Ip, u16)> {
    if st is Some && live(st->0@, h.0 as int) {
        let x = st->0@[h.0 as int];
        if x->kind is Listener {
            Some((GUEST_IP, x->port))
        } else {
            x->sock.local
        }
    } else {
        None
    }
}

/// The local address of a connection, or the bound port of a listener.
pub fn tcp_local_addr(st: &Option<Stack>, h: TcpHandle) -> (r: Option<(Ip, u16)>)
    requires
        up_wf(*st),
    ensures
        r == local_of(*st, h),
{
    match st {
        None => None,
        Some(st) => {
            if h.0 >= st.slots.len() {
                return None;
            }
            let s: Slot = st.slots[h.0];
            match s.kind {
                SlotKind::Free => None,
                SlotKind::Listener => {
                    assert(live(st@, h.0 as int));
                    Some((GUEST_IP, s.port))
                },
                _ => {
                    assert(live(st@, h.0 as int));
                    smol::local_endpoint(&st.sockets, s.sk)
                },
            }
        },
    }
}

pub open spec fn peer_of(st: Option<Stack>, h: TcpHandle) -> Option<(Ip, u16)> {
    if st is Some && live(st->0@, h.0 as int) && !(st->0@[h.0 as int]->kind is Listener) {
        st->0@[h.0 as int]->sock.remote
    } else {
        None
    }
}

/// The remote address of a connection.
pub fn tcp_peer_addr(st: &Option<Stack>, h: TcpHandle) -> (r: Option<(Ip, u16)>)
    requires
        up_wf(*st),
    ensures
        r == peer_of(*st, h),
{
    match st {
        None => None,
        Some(st) => {
            if h.0 >= st.slots.len() {
                return None;
            }
            let s: Slot = st.slots[h.0];
            match s.kind {
                SlotKind::Free | SlotKind::Listener => None,
                _ => {
                    assert(live(st@, h.0 as int));
                    smol::remote_endpoint(&st.sockets, s.sk)
                },
            }
        },
    }
}

pub open spec fn shutdown_view(v: Seq<SlotView>, h: int, write: bool) -> Seq<SlotView> {
    if is_conn(v, h) && write {
        with_sock(v, h, closed(v[h]->sock))
    } else {
        v
    }
}

impl Stack {
    fn shutdown(&mut self, h: TcpHandle, write: bool)
        requires
            old(self).wf(),
        ensures
            final(self).wf(),
            final(self)@ == shutdown_view(old(self)@, h.0 as int, write),
            final(self).iface == old(self).iface,
            final(self).next_port == old(self).next_port,
    {
        match self.conn_sk(h) {
            Ok(sk) => {
                if write {
                    proof {
                        lemma_sock(
                            self.slots@,
                            sockets(self.sockets),
                            h.0 as int,
                            closed(tcp_of(sockets(self.sockets), sk)),
                        );
                    }
                    smol::close(&mut self.sockets, sk);
                }
            },
            Err(_) => {},
        }
    }

    fn release(&mut self, h: TcpHandle)
        requires
            old(self).wf(),
        ensures
            final(self).wf(),
            final(self)@ == dropped(old(self)@, h.0 as int),
            final(self).iface == old(self).iface,
            final(self).next_port == old(self).next_port,
    {
        let ghost v = self@;
        let n: usize = self.slots.len();
        if h.0 >= n {
            return;
        }
        let slot: Slot = self.slots[h.0];
        assert(v[h.0 as int] == slot_view(slot, sockets(self.sockets)));
        match slot.kind {
            SlotKind::Free | SlotKind::Zombie => {},
            SlotKind::Listener => {
                let port: u16 = slot.port;
                let mut i: usize = 0;
                while i < n
                    invariant
                        i <= n,
                        n == self.slots@.len(),
                        n == v.len(),
                        self.wf(),
                        self.iface == old(self).iface,
                        self.next_port == old(self).next_port,
                        forall|j: int| 0 <= j < i ==> #[trigger] self@[j] == unlistened(v, port)[j],
                        forall|j: int| i <= j < n ==> #[trigger] self@[j] == v[j],
                    decreases n - i,
                {
                    let ghost cur = self@;
                    let s: Slot = self.slots[i];
                    assert(cur[i as int] == v[i as int]);
                    if s.kind == SlotKind::Listener && s.port == port {
                        assert(pooled(v, i as int, port));
                        self.discard(i);
                    }
                    i = i + 1;
                }
                assert(self@ =~= unlistened(v, port));
            },
            SlotKind::Conn => {
                if smol::state(&self.sockets, slot.sk) == TcpState::Closed {
                    self.discard(h.0);
                } else {
                    let ghost m = sockets(self.sockets);
                    let ghost k = h.0 as int;
                    proof {
                        lemma_sock(self.slots@, m, k, closed(tcp_of(m, slot.sk)));
                        lemma_kind(
                            self.slots@,
                            with_tcp(m, slot.sk, closed(tcp_of(m, slot.sk))),
                            k,
                            SlotKind::Zombie,
                        );
                    }
                    smol::close(&mut self.sockets, slot.sk);
                    self.slots.set(
                        h.0,
                        Slot { kind: SlotKind::Zombie, port: slot.port, sk: slot.sk },
                    );
                    assert(self@ =~= dropped(v, k));
                }
            },
        }
    }

    /// Removes the socket of a live slot and frees the slot.
    fn discard(&mut self, i: usize)
        requires
            old(self).wf(),
            live(old(self)@, i as int),
        ensures
            final(self).wf(),
            final(self)@ == old(self)@.update(i as int, SlotView::Free),
            final(self).slots@.len() == old(self).slots@.len(),
            final(self).iface == old(self).iface,
            final(self).next_port == old(self).next_port,
    {
        let s: Slot = self.slots[i];
        let ghost slots = self.slots@;
        let ghost m = sockets(self.sockets);
        proof {
            lemma_unlink(slots, m, Set::empty(), i as int);
            let slots2 = slots.update(i as int, Slot { kind: SlotKind::Free, ..s });
            lemma_drop(slots2, m, Set::empty().insert(s.sk), s.sk);
            assert(Set::<SocketHandle>::empty().insert(s.sk).remove(s.sk) =~= Set::empty());
        }
        smol::remove(&mut self.sockets, s.sk);
        self.slots.set(i, Slot { kind: SlotKind::Free, port: s.port, sk: s.sk });
    }
}

/// Half-closes a connection. Closing the read side has no effect: smoltcp has
/// no way to stop receiving short of aborting.
pub fn tcp_shutdown(st: &mut Option<Stack>, h: TcpHandle, read: bool, write: bool)
    requires
        up_wf(*old(st)),
    ensures
        match *old(st) {
            None => *final(st) is None,
            Some(s) => {
                &&& *final(st) is Some && up_wf(*final(st))
                &&& (*final(st))->0@ == shutdown_view(s@, h.0 as int, write)
                &&& (*final(st))->0.iface == s.iface
                &&& (*final(st))->0.next_port == s.next_port
            },
        },
{
    match st {
        None => {},
        Some(st) => st.shutdown(h, write),
    }
}

/// Releases a handle. A listener takes its whole pool with it; a connection is
/// closed in order and its socket is dropped by `reap` once that is done.
pub fn tcp_drop(st: &mut Option<Stack>, h: TcpHandle)
    requires
        up_wf(*old(st)),
    ensures
        match *old(st) {
            None => *final(st) is None,
            Some(s) => {
                &&& *final(st) is Some && up_wf(*final(st))
                &&& (*final(st))->0@ == dropped(s@, h.0 as int)
                &&& (*final(st))->0.iface == s.iface
                &&& (*final(st))->0.next_port == s.next_port
            },
        },
{
    match st {
        None => {},
        Some(st) => st.release(h),
    }
}

pub open spec fn pending_of(st: Option<Stack>, h: TcpHandle) -> nat {
    if st is Some && live(st->0@, h.0 as int) && !(st->0@[h.0 as int]->kind is Listener) {
        st->0@[h.0 as int]->sock.rx.len()
    } else {
        0
    }
}

/// How many received bytes wait to be read.
pub fn tcp_pending(st: &Option<Stack>, h: TcpHandle) -> (r: usize)
    requires
        up_wf(*st),
    ensures
        r == pending_of(*st, h),
{
    match st {
        None => 0,
        Some(st) => {
            if h.0 >= st.slots.len() {
                return 0;
            }
            let s: Slot = st.slots[h.0];
            match s.kind {
                SlotKind::Free | SlotKind::Listener => 0,
                _ => {
                    assert(live(st@, h.0 as int));
                    smol::recv_queue(&st.sockets, s.sk)
                },
            }
        },
    }
}

/// To be called after the interface has run: drops what is finished.
pub fn poll(st: &mut Option<Stack>)
    requires
        up_wf(*old(st)),
    ensures
        match *old(st) {
            None => *final(st) is None,
            Some(s) => {
                &&& *final(st) is Some && up_wf(*final(st))
                &&& (*final(st))->0@ == reaped(s@)
                &&& (*final(st))->0.iface == s.iface
                &&& (*final(st))->0.next_port == s.next_port
            },
        },
{
    match st {
        None => {},
        Some(st) => st.reap(),
    }
}

/// How many slots of the table are of a kind.
pub open spec fn count_kind(v: Seq<SlotView>, kind: SlotKind) -> nat
    decreases v.len(),
{
    if v.len() == 0 {
        0
    } else {
        count_kind(v.drop_last(), kind) + (if v.last() is Live && v.last()->kind == kind {
            1nat
        } else {
            0nat
        })
    }
}

/// Sizes of the handle table.
#[derive(Clone, Copy, PartialEq, Eq, Structural, Debug)]
pub struct Usage {
    pub handles: usize,
    pub listening: usize,
    pub connected: usize,
    pub zombie: usize,
}

/// The numbers that the self test reports of the handle table.
pub fn usage(st: &Stack) -> (r: Usage)
    requires
        st.wf(),
    ensures
        r.handles == st@.len(),
        r.listening == count_kind(st@, SlotKind::Listener),
        r.connected == count_kind(st@, SlotKind::Conn),
        r.zombie == count_kind(st@, SlotKind::Zombie),
{
    let n: usize = st.slots.len();
    let mut r = Usage { handles: n, listening: 0, connected: 0, zombie: 0 };
    let ghost v = st@;
    let mut i: usize = 0;
    while i < n
        invariant
            i <= n,
            n == st.slots@.len(),
            v == st@,
            r.handles == n,
            r.listening <= i,
            r.connected <= i,
            r.zombie <= i,
            r.listening == count_kind(v.take(i as int), SlotKind::Listener),
            r.connected == count_kind(v.take(i as int), SlotKind::Conn),
            r.zombie == count_kind(v.take(i as int), SlotKind::Zombie),
        decreases n - i,
    {
        proof {
            assert(v.take(i + 1).drop_last() =~= v.take(i as int));
            assert(v.take(i + 1).last() == v[i as int]);
        }
        match st.slots[i].kind {
            SlotKind::Free => {},
            SlotKind::Listener => {
                r.listening = r.listening + 1;
            },
            SlotKind::Conn => {
                r.connected = r.connected + 1;
            },
            SlotKind::Zombie => {
                r.zombie = r.zombie + 1;
            },
        }
        i = i + 1;
    }
    assert(v.take(n as int) =~= v);
    r
}

// ---- Laws -----------------------------------------------------------------
/// How many listening slots the pool of `port` has.
pub open spec fn pool_size(v: Seq<SlotView>, port: u16) -> nat
    decreases v.len(),
{
    if v.len() == 0 {
        0
    } else {
        pool_size(v.drop_last(), port) + (if pooled(v, v.len() - 1, port) {
            1nat
        } else {
            0nat
        })
    }
}

spec fn in_pool(x: SlotView, port: u16) -> int {
    if x is Live && x->kind is Listener && x->port == port {
        1
    } else {
        0
    }
}

proof fn lemma_pool_update(v: Seq<SlotView>, i: int, x: SlotView, port: u16)
    requires
        0 <= i < v.len(),
    ensures
        pool_size(v.update(i, x), port) == pool_size(v, port) - in_pool(v[i], port) + in_pool(
            x,
            port,
        ),
    decreases v.len(),
{
    let w = v.update(i, x);
    if i == v.len() - 1 {
        assert(w.drop_last() =~= v.drop_last());
    } else {
        lemma_pool_update(v.drop_last(), i, x, port);
        assert(w.drop_last() =~= v.drop_last().update(i, x));
    }
}

proof fn lemma_pool_place(v: Seq<SlotView>, x: SlotView, port: u16)
    ensures
        pool_size(place(v, x), port) == pool_size(v, port) + in_pool(x, port),
{
    lemma_first_free_is(v);
    let i = first_free(v);
    if i < v.len() {
        lemma_pool_update(v, i, x, port);
    } else {
        assert(v.push(x).drop_last() =~= v);
    }
}

proof fn lemma_first_free_is(v: Seq<SlotView>)
    ensures
        0 <= first_free(v) <= v.len(),
        first_free(v) < v.len() ==> v[first_free(v)] is Free,
    decreases v.len(),
{
    if v.len() > 0 {
        lemma_first_free_is(v.skip(1));
    }
}

proof fn lemma_pool_same(v: Seq<SlotView>, w: Seq<SlotView>, port: u16)
    requires
        v.len() == w.len(),
        forall|i: int| 0 <= i < v.len() ==> in_pool(#[trigger] v[i], port) == in_pool(w[i], port),
    ensures
        pool_size(v, port) == pool_size(w, port),
    decreases v.len(),
{
    if v.len() > 0 {
        assert(in_pool(v[v.len() - 1], port) == in_pool(w[v.len() - 1], port));
        assert forall|i: int| 0 <= i < v.drop_last().len() implies in_pool(
            #[trigger] v.drop_last()[i],
            port,
        ) == in_pool(w.drop_last()[i], port) by {
            assert(in_pool(v[i], port) == in_pool(w[i], port));
        }
        lemma_pool_same(v.drop_last(), w.drop_last(), port);
    }
}

proof fn lemma_pool_place_n(v: Seq<SlotView>, p: u16, n: nat)
    ensures
        pool_size(place_n(v, listener(p), n), p) == pool_size(v, p) + n,
    decreases n,
{
    if n > 0 {
        lemma_pool_place_n(v, p, (n - 1) as nat);
        lemma_pool_place(place_n(v, listener(p), (n - 1) as nat), listener(p), p);
    }
}

proof fn lemma_no_pool(v: Seq<SlotView>, p: u16)
    requires
        !port_in_use(v, p),
    ensures
        pool_size(v, p) == 0,
    decreases v.len(),
{
    if v.len() > 0 {
        assert(!pooled(v, v.len() - 1, p));
        assert forall|i: int| !pooled(v.drop_last(), i, p) by {
            assert(!pooled(v, i, p));
        }
        lemma_no_pool(v.drop_last(), p);
    }
}

proof fn lemma_pool_nonempty(v: Seq<SlotView>, p: u16)
    requires
        pool_size(v, p) > 0,
    ensures
        port_in_use(v, p),
    decreases v.len(),
{
    if pooled(v, v.len() - 1, p) {
        assert(port_in_use(v, p));
    } else {
        lemma_pool_nonempty(v.drop_last(), p);
        let i = choose|i: int| pooled(v.drop_last(), i, p);
        assert(pooled(v, i, p));
    }
}

/// A listen that succeeds gives the port a pool of `LISTEN_BACKLOG` sockets.
pub proof fn listen_fills_pool(before: Stack, port: u16, h: TcpHandle, after: Stack)
    requires
        listen_post(before, port, Ok(h), after),
    ensures
        pool_size(after@, chosen_port(before, port)) == LISTEN_BACKLOG,
{
    let p = chosen_port(before, port);
    lemma_no_pool(before@, p);
    lemma_pool_place_n(before@, p, LISTEN_BACKLOG as nat);
}

/// While a port is listened on, listening on it again is refused.
pub proof fn listening_twice_is_refused(
    s0: Stack,
    port: u16,
    h: TcpHandle,
    s1: Stack,
    r: Result<TcpHandle, &'static str>,
    s2: Stack,
)
    requires
        port != 0,
        listen_post(s0, port, Ok(h), s1),
        listen_post(s1, port, r, s2),
    ensures
        r is Err,
        s2@ == s1@,
{
    listen_fills_pool(s0, port, h, s1);
    lemma_pool_nonempty(s1@, port);
}

/// Accepting a connection puts a listening socket in its place: the pool of
/// every port keeps its size, whatever came back.
pub proof fn accept_keeps_pool(
    before: Stack,
    h: TcpHandle,
    r: Result<Option<(TcpHandle, Ip, u16)>, &'static str>,
    after: Stack,
    port: u16,
)
    requires
        accept_post(before, h, r, after),
    ensures
        pool_size(after@, port) == pool_size(before@, port),
{
    let v = before@;
    let p = v[h.0 as int]->port;
    match r {
        Err(_) => {},
        Ok(None) => {
            lemma_pool_same(v, after@, port);
        },
        Ok(Some(_)) => {
            let j = choose|j: int|
                {
                    &&& #[trigger] first_ready(v, p, j)
                    &&& after@ == place(
                        rearmed(v, p, j).update(j, listener(p)),
                        conn(p, v[j]->sock),
                    )
                };
            let w = rearmed(v, p, j).update(j, listener(p));
            assert(acceptable(v, j, p));
            lemma_pool_same(v, w, port);
            lemma_pool_place(w, conn(p, v[j]->sock), port);
        },
    }
}

/// An accepted connection is a live connection under the handle that came
/// back, which was not in use before; no other connection changed.
pub proof fn accepted_handle_is_a_connection(
    before: Stack,
    h: TcpHandle,
    c: TcpHandle,
    ip: Ip,
    port: u16,
    after: Stack,
)
    requires
        before.wf(),
        accept_post(before, h, Ok(Some((c, ip, port))), after),
    ensures
        !live(before@, c.0 as int),
        is_conn(after@, c.0 as int),
        forall|k: int| is_conn(before@, k) ==> #[trigger] after@[k] == before@[k],
{
    let v = before@;
    let p = v[h.0 as int]->port;
    let j = choose|j: int|
        {
            &&& #[trigger] first_ready(v, p, j)
            &&& after@ == place(rearmed(v, p, j).update(j, listener(p)), conn(p, v[j]->sock))
        };
    let w = rearmed(v, p, j).update(j, listener(p));
    assert(acceptable(v, j, p));
    lemma_first_free_same(v, w);
    lemma_first_free_is(v);
    assert(c.0 == first_free(w));
    assert forall|k: int| is_conn(before@, k) implies #[trigger] after@[k] == before@[k] by {
        assert(w[k] == v[k]);
    }
}

/// A released handle is no connection and no listener any more.
pub proof fn dropped_handle_is_gone(v: Seq<SlotView>, h: int)
    ensures
        !is_conn(dropped(v, h), h),
        !is_listener(dropped(v, h), h),
{
}

/// Dropping a listener frees its port.
pub proof fn dropped_port_is_free(v: Seq<SlotView>, h: int)
    requires
        is_listener(v, h),
    ensures
        !port_in_use(dropped(v, h), v[h]->port),
{
    let p = v[h]->port;
    let w = dropped(v, h);
    assert forall|i: int| !pooled(w, i, p) by {
        if 0 <= i < v.len() && pooled(v, i, p) {
            assert(w[i] is Free);
        }
    }
}

/// Received bytes are read once each, in their order: what a read gives and what is
/// left make up what was there; the rest of the buffer and all other sockets stay.
pub proof fn received_in_order(
    before: Stack,
    h: TcpHandle,
    buf: Seq<u8>,
    r: Result<usize, ErrnoKind>,
    after: Stack,
    filled: Seq<u8>,
    k: int,
)
    requires
        is_conn(before@, h.0 as int),
        recv_post(before, h, buf, r, after, filled),
        0 <= k < before@.len(),
    ensures
        ({
            let rx = before@[h.0 as int]->sock.rx;
            let left = after@[h.0 as int]->sock.rx;
            &&& r matches Ok(n) ==> n <= buf.len() && filled.take(n as int) + left == rx && filled.skip(
                n as int,
            ) == buf.skip(n as int)
            &&& r is Err ==> filled == buf && left == rx
            &&& rx.len() > 0 && buf.len() > 0 ==> r is Ok && r->Ok_0 > 0
            &&& rx.len() >= buf.len() && buf.len() > 0 ==> r is Ok && r->Ok_0 == buf.len()
            &&& after@[h.0 as int]->sock.tx == before@[h.0 as int]->sock.tx
            &&& after@[h.0 as int]->sock.state == before@[h.0 as int]->sock.state
            &&& k != h.0 ==> after@[k] == before@[k]
        }),
{
    let rx = before@[h.0 as int]->sock.rx;
    if rx.len() > 0 {
        let n = r->Ok_0 as int;
        assert(filled.take(n) =~= rx.take(n));
        assert(rx.take(n) + rx.skip(n) =~= rx);
        assert(filled.skip(n) =~= buf.skip(n));
    } else if r is Ok {
        assert(filled.take(0) + rx =~= rx);
        assert(filled.skip(0) =~= buf.skip(0));
    }
}

/// Bytes are sent in their order and none is made up: what was taken of the data is
/// behind what waits already, as much as there is room for; all other sockets stay.
pub proof fn sent_in_order(
    before: Stack,
    h: TcpHandle,
    buf: Seq<u8>,
    r: Result<usize, ErrnoKind>,
    after: Stack,
    k: int,
)
    requires
        is_conn(before@, h.0 as int),
        send_post(before, h, buf, r, after),
        before@[h.0 as int]->sock.tx.len() <= before@[h.0 as int]->sock.tx_cap,
        0 <= k < before@.len(),
    ensures
        ({
            let s = before@[h.0 as int]->sock;
            let t = after@[h.0 as int]->sock;
            &&& r matches Ok(n) ==> n <= buf.len() && t.tx == s.tx + buf.take(n as int)
            &&& r is Err ==> t.tx == s.tx
            &&& s.state == TcpState::Established && buf.len() > 0 && s.tx.len() < s.tx_cap ==> r is Ok
                && r->Ok_0 > 0
            &&& s.state == TcpState::Established && buf.len() <= s.tx_cap - s.tx.len() && buf.len()
                > 0 ==> r is Ok && r->Ok_0 == buf.len()
            &&& s.state == TcpState::FinWait1 || s.state == TcpState::Closed ==> r
                == Err::<usize, ErrnoKind>(ErrnoKind::Closed)
            &&& t.rx == s.rx && t.state == s.state
            &&& k != h.0 ==> after@[k] == before@[k]
        }),
{
}

/// A connection that a client has established is handed out: where a socket of the
/// pool is established, accepting gives a connection.
pub proof fn established_is_accepted(
    before: Stack,
    h: TcpHandle,
    r: Result<Option<(TcpHandle, Ip, u16)>, &'static str>,
    after: Stack,
    i: int,
)
    requires
        is_listener(before@, h.0 as int),
        accept_post(before, h, r, after),
        pooled(before@, i, before@[h.0 as int]->port),
        before@[i]->sock.state == TcpState::Established || before@[i]->sock.state
            == TcpState::CloseWait,
    ensures
        r is Ok,
        r->Ok_0 is Some,
{
    assert(acceptable(before@, i, before@[h.0 as int]->port));
}

/// What is accepted is the connection of a client: under its handle it has the
/// address that is told, is past its handshake, and holds all that the client has
/// sent so far; in its place a socket listens on the port.
pub proof fn accepted_is_the_clients(
    before: Stack,
    h: TcpHandle,
    c: TcpHandle,
    ip: Ip,
    port: u16,
    after: Stack,
)
    requires
        before.wf(),
        accept_post(before, h, Ok(Some((c, ip, port))), after),
    ensures
        ({
            let p = before@[h.0 as int]->port;
            let s = after@[c.0 as int]->sock;
            &&& exists|j: int|
                #[trigger] pooled(before@, j, p) && before@[j]->sock == s && pooled(after@, j, p)
                    && after@[j]->sock.state == TcpState::Listen
            &&& s.state != TcpState::Listen && s.state != TcpState::SynSent && s.state
                != TcpState::SynReceived && s.state != TcpState::Closed
            &&& s.remote is Some ==> s.remote == Some((ip, port))
            &&& peer_of(Some(after), c) == s.remote
        }),
{
    let v = before@;
    let p = v[h.0 as int]->port;
    accepted_handle_is_a_connection(before, h, c, ip, port, after);
    let j = choose|j: int|
        {
            let sock = v[j]->sock;
            &&& #[trigger] first_ready(v, p, j)
            &&& after@ == place(rearmed(v, p, j).update(j, listener(p)), conn(p, sock))
            &&& match sock.remote {
                Some(ep) => ep == (ip, port),
                None => unspecified(ip) && port == 0,
            }
        };
    let w = rearmed(v, p, j).update(j, listener(p));
    assert(acceptable(v, j, p));
    lemma_first_free_same(v, w);
    lemma_first_free_is(v);
    assert(c.0 == first_free(w));
    assert(after@[c.0 as int] == conn(p, v[j]->sock));
    assert(c.0 != j) by {
        assert(live(v, j));
    }
    assert(after@[j] == listener(p));
    assert(pooled(v, j, p) && pooled(after@, j, p));
}

/// A port that is listened on has a pool of sixteen sockets, and the handle that
/// came back is a listener on that port.
pub proof fn listener_is_on_its_port(before: Stack, port: u16, h: TcpHandle, after: Stack)
    requires
        port != 0,
        listen_post(before, port, Ok(h), after),
    ensures
        pool_size(after@, port) == 16,
        pooled(after@, h.0 as int, port),
        after@[h.0 as int]->sock.state == TcpState::Listen,
        local_of(Some(after), h) == Some((GUEST_IP, port)),
        forall|k: int| 0 <= k < before@.len() && before@[k] is Live ==> #[trigger] after@[k]
            == before@[k],
{
    listen_fills_pool(before, port, h, after);
    lemma_placed(before@, listener(port), 16);
}

/// Placing fills the first free slot and leaves live ones alone.
proof fn lemma_placed(v: Seq<SlotView>, x: SlotView, n: nat)
    requires
        n > 0,
        x is Live,
    ensures
        ({
            let w = place_n(v, x, n);
            &&& w.len() >= v.len()
            &&& 0 <= first_free(v) < w.len()
            &&& w[first_free(v)] == x
            &&& forall|k: int| 0 <= k < v.len() && v[k] is Live ==> #[trigger] w[k] == v[k]
        }),
    decreases n,
{
    lemma_first_free_is(v);
    let f = first_free(v);
    if n == 1 {
        assert(place_n(v, x, 0) == v);
        assert(place_n(v, x, 1) == place(v, x));
    } else {
        let u = place_n(v, x, (n - 1) as nat);
        lemma_placed(v, x, (n - 1) as nat);
        lemma_first_free_is(u);
        assert(u[f] is Live);
        assert(first_free(u) != f);
        assert forall|k: int| 0 <= k < v.len() && v[k] is Live implies #[trigger] place(u, x)[k]
            == v[k] by {
            assert(u[k] == v[k]);
        }
    }
}

/// A connection that is opened goes to the address asked for, from the guest's
/// address and the next free port, and has sent its first packet.
pub proof fn connected_to_the_peer(before: Stack, ip: Ip, port: u16, h: TcpHandle, after: Stack)
    requires
        connect_post(before, ip, port, Ok(h), after),
    ensures
        is_conn(after@, h.0 as int),
        peer_of(Some(after), h) == Some((ip, port)),
        local_of(Some(after), h) == Some((GUEST_IP, before.next_port)),
        state_of(Some(after), h) == TcpState::SynSent,
        pending_of(Some(after), h) == 0,
        after.next_port != before.next_port || before.next_port == EPHEMERAL_FIRST,
{
    lemma_first_free_is(before@);
}

/// Closing the sending direction lets nothing more be sent, keeps what waits to be
/// sent and to be read, and touches no other socket; a read side that is closed
/// changes nothing.
pub proof fn shutdown_stops_sending(v: Seq<SlotView>, h: int, k: int)
    requires
        is_conn(v, h),
        0 <= k < v.len(),
    ensures
        ({
            let w = shutdown_view(v, h, true);
            let s = v[h]->sock;
            let t = w[h]->sock;
            &&& is_conn(w, h)
            &&& !may_send(t)
            &&& t.rx == s.rx && t.tx == s.tx && t.remote == s.remote
            &&& s.state == TcpState::Established ==> t.state == TcpState::FinWait1
            &&& s.state == TcpState::CloseWait ==> t.state == TcpState::LastAck
            &&& k != h ==> w[k] == v[k]
        }),
        shutdown_view(v, h, false) == v,
{
}

/// Releasing a connection touches no other slot, and a released one is freed once
/// its handshake is over, and not before.
pub proof fn released_is_freed_at_its_end(v: Seq<SlotView>, h: int, k: int)
    requires
        is_conn(v, h),
        0 <= k < v.len(),
    ensures
        k != h ==> dropped(v, h)[k] == v[k],
        v[h]->sock.state == TcpState::Closed ==> dropped(v, h)[h] is Free,
        v[h]->sock.state != TcpState::Closed ==> dropped(v, h)[h] is Live,
        reaped(v)[k] is Free <==> v[k] is Free || (v[k]->kind == SlotKind::Zombie
            && v[k]->sock.state == TcpState::Closed),
        !(reaped(v)[k] is Free) ==> reaped(v)[k] == v[k],
{
}

/// A listener has something to accept exactly where a client's connection is past
/// its handshake and not yet over.
pub proof fn pending_is_told(st: Stack, h: TcpHandle, i: int)
    requires
        is_listener(st@, h.0 as int),
        pooled(st@, i, st@[h.0 as int]->port),
    ensures
        st@[i]->sock.state == TcpState::Established || st@[i]->sock.state == TcpState::CloseWait
            ==> listen_pending(Some(st), h),
        (forall|j: int|
            #[trigger] pooled(st@, j, st@[h.0 as int]->port) ==> st@[j]->sock.state
                == TcpState::Listen || st@[j]->sock.state == TcpState::SynReceived)
            ==> !listen_pending(Some(st), h),
{
}

/// Ephemeral ports go round in their range, and two in a row differ.
pub proof fn ephemeral_ports_go_round(p: u16)
    requires
        49152 <= p <= 60999,
    ensures
        49152 <= port_after(p) <= 60999,
        port_after(p) != p,
        p < 60999 ==> port_after(p) == p + 1,
{
}

} // verus!
