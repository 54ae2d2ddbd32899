//! Networking: the TCP handle table over smoltcp, sockets and the virtio-net
//! driver. The functions here are what the system calls use.

use smoltcp::iface::Interface;
use vstd::prelude::*;

pub mod listener;
pub mod probe;
pub mod smol;
pub mod socket;
pub mod stack;
pub mod tcp;
pub mod udp;
pub mod unix;
pub mod virtio;
pub mod virtio_net;

pub use smol::{Ip, TcpState};
use virtio::{Net, RxQueue, Transport, TxQueue};
use stack::{
    accept_post, connect_post, dropped, listen_pending, listen_post, local_of, peer_of, pending_of,
    reaped, recv_post, send_post, shutdown_view, state_of, up_wf, Stack, Usage,
};

verus! {

/// Guest IPv4 address on QEMU slirp user networking.
pub const GUEST_IP: [u8; 4] = [10, 0, 2, 15];

/// The slirp gateway.
pub const GATEWAY_IP: [u8; 4] = [10, 0, 2, 2];

/// The slirp name server.
pub const DNS_IP: [u8; 4] = [10, 0, 2, 3];

/// The hardware address until a device reports its own.
pub const GUEST_MAC: [u8; 6] = [0x52, 0x54, 0x00, 0x12, 0x34, 0x56];

/// Error kind returned by the socket calls.
#[derive(Clone, Copy, PartialEq, Eq, Structural, Debug)]
pub enum ErrnoKind {
    Again,
    Closed,
    Invalid,
}

/// A TCP socket handle: an index into the handle table. It stays valid until
/// it is dropped.
#[derive(Clone, Copy, PartialEq, Eq, Structural, Debug)]
pub struct TcpHandle(pub usize);

/// Everything the kernel knows about its network.
pub struct NetState {
    /// `None` until a device was found.
    pub stack: Option<Stack>,
    pub present: bool,
    pub mac: [u8; 6],
    /// Interrupts seen.
    pub irq_count: u64,
}

impl NetState {
    pub open spec fn wf(&self) -> bool {
        up_wf(self.stack)
    }

    /// All but the stack is as in `other`.
    pub open spec fn same_device(&self, other: NetState) -> bool {
        self.present == other.present && self.mac == other.mac && self.irq_count == other.irq_count
    }

    /// The state before any device was looked for.
    pub fn new() -> (r: NetState)
        ensures
            r.wf(),
            r.stack is None,
            !r.present,
            r.mac == GUEST_MAC,
            r.irq_count == 0,
    {
        NetState { stack: None, present: false, mac: GUEST_MAC, irq_count: 0 }
    }
}

/// What the interface's random numbers start from.
pub fn random_seed(uptime_ns: u64, realtime_ms: u64) -> (r: u64)
    ensures
        r == uptime_ns ^ (((realtime_ms * 0x9e37_79b9_7f4a_7c15) % 0x1_0000_0000_0000_0000) as u64),
{
    uptime_ns ^ realtime_ms.wrapping_mul(0x9e37_79b9_7f4a_7c15)
}

/// The interrupt line of a virtio-mmio slot on the QEMU virt machine.
pub fn irq_of_slot(slot: usize) -> (irq: usize)
    requires
        slot < usize::MAX,
    ensures
        irq == slot + 1,
{
    slot + 1
}

/// Takes over the device that was found, if any: its configured interface and
/// its hardware address.
pub fn init(net: &mut NetState, found: Option<(Interface, [u8; 6])>)
    requires
        old(net).wf(),
    ensures
        final(net).wf(),
        found is None ==> *final(net) == *old(net),
        found is Some ==> {
            &&& final(net).stack is Some
            &&& final(net).stack->0@.len() == 0
            &&& final(net).stack->0.iface == (found->0).0
            &&& final(net).stack->0.next_port == stack::EPHEMERAL_FIRST
            &&& final(net).present
            &&& final(net).mac == (found->0).1
            &&& final(net).irq_count == old(net).irq_count
        },
{
    match found {
        None => {},
        Some((iface, mac)) => {
            net.stack = Some(Stack::new(iface));
            net.mac = mac;
            net.present = true;
        },
    }
}

/// Counts an interrupt of the device.
pub fn irq_handler(net: &mut NetState)
    ensures
        final(net).stack == old(net).stack,
        final(net).present == old(net).present,
        final(net).mac == old(net).mac,
        final(net).irq_count == (if old(net).irq_count == u64::MAX {
            0
        } else {
            (old(net).irq_count + 1) as u64
        }),
{
    net.irq_count = net.irq_count.wrapping_add(1);
}

/// To be called after the interface has run: drops connections that were
/// released and have finished closing.
pub fn poll(net: &mut NetState)
    requires
        old(net).wf(),
    ensures
        final(net).wf(),
        final(net).same_device(*old(net)),
        match old(net).stack {
            None => final(net).stack is None,
            Some(s) => {
                &&& final(net).stack is Some
                &&& final(net).stack->0@ == reaped(s@)
                &&& final(net).stack->0.iface == s.iface
                &&& final(net).stack->0.next_port == s.next_port
            },
        },
{
    stack::poll(&mut net.stack)
}

/// Whether a device was found and the stack is ready.
pub fn present(net: &NetState) -> (r: bool)
    ensures
        r == net.present,
{
    net.present
}

/// Our IPv4 address.
pub fn ip() -> (r: [u8; 4])
    ensures
        r == GUEST_IP,
{
    GUEST_IP
}

/// Our hardware address.
pub fn mac(net: &NetState) -> (r: [u8; 6])
    ensures
        r == net.mac,
{
    net.mac
}

/// Creates a listening socket. Port 0 picks an ephemeral port.
pub fn tcp_listen(net: &mut NetState, port: u16) -> (r: Result<TcpHandle, &'static str>)
    requires
        old(net).wf(),
    ensures
        final(net).wf(),
        final(net).same_device(*old(net)),
        match old(net).stack {
            None => final(net).stack is None && r is Err && r->Err_0@ == "network is down"@,
            Some(s) => final(net).stack is Some && listen_post(s, port, r, final(net).stack->0),
        },
{
    stack::tcp_listen(&mut net.stack, port)
}

/// Hands out a completed connection, if any, as a new handle. The interface is
/// to be run before.
pub fn tcp_accept(net: &mut NetState, h: TcpHandle) -> (r: Result<
    Option<(TcpHandle, Ip, u16)>,
    &'static str,
>)
    requires
        old(net).wf(),
    ensures
        final(net).wf(),
        final(net).same_device(*old(net)),
        match old(net).stack {
            None => final(net).stack is None && r is Err && r->Err_0@ == "network is down"@,
            Some(s) => final(net).stack is Some && accept_post(s, h, r, final(net).stack->0),
        },
{
    stack::tcp_accept(&mut net.stack, h)
}

/// Whether the listen pool of this handle has a completed connection.
pub fn tcp_listen_pending(net: &NetState, h: TcpHandle) -> (r: bool)
    requires
        net.wf(),
    ensures
        r == listen_pending(net.stack, h),
{
    stack::tcp_listen_pending(&net.stack, h)
}

/// Starts to connect. It is done when `tcp_state` is `Established`.
pub fn tcp_connect(net: &mut NetState, ip: Ip, port: u16) -> (r: Result<TcpHandle, &'static str>)
    requires
        old(net).wf(),
    ensures
        final(net).wf(),
        final(net).same_device(*old(net)),
        port == 0 ==> r is Err && r->Err_0@ == "bad port"@ && final(net).stack == old(net).stack,
        port != 0 ==> match old(net).stack {
            None => final(net).stack is None && r is Err && r->Err_0@ == "network is down"@,
            Some(s) => final(net).stack is Some && connect_post(
                s,
                ip,
                port,
                r,
                final(net).stack->0,
            ),
        },
{
    stack::tcp_connect(&mut net.stack, ip, port)
}

/// Queues bytes for sending. `Again` means that it would block, `Closed` that
/// the connection is closed or reset.
pub fn tcp_send(net: &mut NetState, h: TcpHandle, buf: &[u8]) -> (r: Result<usize, ErrnoKind>)
    requires
        old(net).wf(),
    ensures
        final(net).wf(),
        final(net).same_device(*old(net)),
        match old(net).stack {
            None => final(net).stack is None && r == Err::<usize, ErrnoKind>(ErrnoKind::Invalid),
            Some(s) => final(net).stack is Some && send_post(s, h, buf@, r, final(net).stack->0),
        },
{
    stack::tcp_send(&mut net.stack, h, buf)
}

/// Reads received bytes. `Ok(0)` means that the peer closed the connection,
/// `Again` that nothing has arrived yet.
pub fn tcp_recv(net: &mut NetState, h: TcpHandle, buf: &mut [u8]) -> (r: Result<usize, ErrnoKind>)
    requires
        old(net).wf(),
    ensures
        final(net).wf(),
        final(net).same_device(*old(net)),
        match old(net).stack {
            None => final(net).stack is None && r == Err::<usize, ErrnoKind>(ErrnoKind::Invalid)
                && final(buf)@ == old(buf)@,
            Some(s) => final(net).stack is Some && recv_post(
                s,
                h,
                old(buf)@,
                r,
                final(net).stack->0,
                final(buf)@,
            ),
        },
{
    stack::tcp_recv(&mut net.stack, h, buf)
}

/// The TCP state of a handle; `Closed` for one that is not in use.
pub fn tcp_state(net: &NetState, h: TcpHandle) -> (r: TcpState)
    requires
        net.wf(),
    ensures
        r == state_of(net.stack, h),
{
    stack::tcp_state(&net.stack, h)
}

/// The local address of a connection, or the bound port of a listener.
pub fn tcp_local_addr(net: &NetState, h: TcpHandle) -> (r: Option<(Ip, u16)>)
    requires
        net.wf(),
    ensures
        r == local_of(net.stack, h),
{
    stack::tcp_local_addr(&net.stack, h)
}

/// The remote address of a connection.
pub fn tcp_peer_addr(net: &NetState, h: TcpHandle) -> (r: Option<(Ip, u16)>)
    requires
        net.wf(),
    ensures
        r == peer_of(net.stack, h),
{
    stack::tcp_peer_addr(&net.stack, h)
}

/// Half-closes a connection: `write` sends FIN, `read` has no effect.
pub fn tcp_shutdown(net: &mut NetState, h: TcpHandle, read: bool, write: bool)
    requires
        old(net).wf(),
    ensures
        final(net).wf(),
        final(net).same_device(*old(net)),
        match old(net).stack {
            None => final(net).stack is None,
            Some(s) => {
                &&& final(net).stack is Some
                &&& final(net).stack->0@ == shutdown_view(s@, h.0 as int, write)
                &&& final(net).stack->0.iface == s.iface
                &&& final(net).stack->0.next_port == s.next_port
            },
        },
{
    stack::tcp_shutdown(&mut net.stack, h, read, write)
}

/// Releases a handle. A connection is closed in order, and its socket goes
/// once that is done.
pub fn tcp_drop(net: &mut NetState, h: TcpHandle)
    requires
        old(net).wf(),
    ensures
        final(net).wf(),
        final(net).same_device(*old(net)),
        match old(net).stack {
            None => final(net).stack is None,
            Some(s) => {
                &&& final(net).stack is Some
                &&& final(net).stack->0@ == dropped(s@, h.0 as int)
                &&& final(net).stack->0.iface == s.iface
                &&& final(net).stack->0.next_port == s.next_port
            },
        },
{
    stack::tcp_drop(&mut net.stack, h)
}

/// How many received bytes wait to be read.
pub fn tcp_pending(net: &NetState, h: TcpHandle) -> (r: usize)
    requires
        net.wf(),
    ensures
        r == pending_of(net.stack, h),
{
    stack::tcp_pending(&net.stack, h)
}

/// What is read from the device for the self test: its status register and how
/// far it has come in the two used rings.
#[derive(Clone, Copy, PartialEq, Eq, Structural, Debug)]
pub struct Reading {
    pub status: u32,
    pub rx_used: u16,
    pub tx_used: u16,
}

/// The device as the self test reports it.
#[derive(Clone, Copy, PartialEq, Eq, Structural, Debug)]
pub struct DeviceLine {
    pub slot: usize,
    pub base: usize,
    pub transport: Transport,
    pub hdr_len: usize,
    pub status: u32,
    pub features: u64,
    pub irq_status: u32,
}

/// The receiving queue as the self test reports it.
#[derive(Clone, Copy, PartialEq, Eq, Structural, Debug)]
pub struct RxLine {
    pub num: u16,
    pub used_idx: u16,
    pub last_used: u16,
    pub packets: u64,
    pub malformed: u64,
}

/// The sending queue as the self test reports it.
#[derive(Clone, Copy, PartialEq, Eq, Structural, Debug)]
pub struct TxLine {
    pub num: u16,
    pub free: u16,
    pub used_idx: u16,
    pub last_used: u16,
    pub packets: u64,
    pub dropped: u64,
}

/// What the self test finds behind the stack's lock.
pub enum Inside {
    /// Someone else holds the lock.
    Busy,
    /// The stack was not set up.
    Down,
    Up { device: DeviceLine, rx: RxLine, tx: TxLine, sockets: Usage },
}

/// What the self test reports.
pub struct SelfTest {
    pub present: bool,
    pub irqs: u64,
    pub mac: [u8; 6],
    pub ip: [u8; 4],
    pub inside: Inside,
}

pub open spec fn device_line(d: Net, read: Reading) -> DeviceLine {
    DeviceLine {
        slot: d.slot,
        base: d.base,
        transport: d.transport,
        hdr_len: d.hdr_len,
        status: read.status,
        features: d.features,
        irq_status: d.last_irq_status,
    }
}

pub open spec fn rx_line(q: RxQueue, used_idx: u16) -> RxLine {
    RxLine {
        num: q.q.num,
        used_idx,
        last_used: q.last_used,
        packets: q.packets,
        malformed: q.malformed,
    }
}

pub open spec fn tx_line(q: TxQueue, used_idx: u16) -> TxLine {
    TxLine {
        num: q.q.num,
        free: q.num_free,
        used_idx,
        last_used: q.last_used,
        packets: q.packets,
        dropped: q.dropped,
    }
}

/// Collects what is printed as the network self test. Of the stack, and of the
/// device that it drives, only where the stack's lock is not `busy`.
pub fn selftest(net: &NetState, dev: Option<&Net>, read: Reading, busy: bool) -> (r: SelfTest)
    requires
        net.wf(),
        net.stack is Some ==> dev is Some,
    ensures
        r.present == net.present,
        r.irqs == net.irq_count,
        r.mac == net.mac,
        r.ip == GUEST_IP,
        if busy {
            r.inside is Busy
        } else {
            match net.stack {
                None => r.inside is Down,
                Some(s) => {
                    &&& r.inside matches Inside::Up { device, rx, tx, sockets }
                    &&& device == device_line(*dev->0, read)
                    &&& rx == rx_line(dev->0.rx, read.rx_used)
                    &&& tx == tx_line(dev->0.tx, read.tx_used)
                    &&& sockets.handles == s@.len()
                    &&& sockets.listening == stack::count_kind(s@, stack::SlotKind::Listener)
                    &&& sockets.connected == stack::count_kind(s@, stack::SlotKind::Conn)
                    &&& sockets.zombie == stack::count_kind(s@, stack::SlotKind::Zombie)
                },
            }
        },
{
    let inside = if busy {
        Inside::Busy
    } else {
        match (&net.stack, dev) {
            (Some(s), Some(d)) => Inside::Up {
                device: DeviceLine {
                    slot: d.slot,
                    base: d.base,
                    transport: d.transport,
                    hdr_len: d.hdr_len,
                    status: read.status,
                    features: d.features,
                    irq_status: d.last_irq_status,
                },
                rx: RxLine {
                    num: d.rx.q.num,
                    used_idx: read.rx_used,
                    last_used: d.rx.last_used,
                    packets: d.rx.packets,
                    malformed: d.rx.malformed,
                },
                tx: TxLine {
                    num: d.tx.q.num,
                    free: d.tx.num_free,
                    used_idx: read.tx_used,
                    last_used: d.tx.last_used,
                    packets: d.tx.packets,
                    dropped: d.tx.dropped,
                },
                sockets: stack::usage(s),
            },
            _ => Inside::Down,
        }
    };
    SelfTest { present: net.present, irqs: net.irq_count, mac: net.mac, ip: GUEST_IP, inside }
}

} // verus!
