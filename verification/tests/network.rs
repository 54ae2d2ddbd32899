//! The TCP/IP stack over a loop-back device, the sockets on it and local
//! sockets.

use ijiege::net;
use ijiege::net::listener::{service_listeners, ListenState, Listener};
use ijiege::net::smol::TcpState;
use ijiege::net::socket::{i32_opt, Ancillary, SockAddr, SocketOps};
use ijiege::net::tcp::{
    alloc_ephemeral_port, is_our_addr, state_u8, to_listen, update_event_seqs, Kind, SendStep,
    Shared, TcpSocket,
};
use ijiege::net::udp::UdpSocket;
use ijiege::net::unix::socketpair;
use ijiege::net::virtio::{setup_queue, Net, Transport};
use ijiege::net::{ErrnoKind, Inside, NetState, Reading, TcpHandle};
use ijiege::uaccess::UserMem;
use smoltcp::iface::{Config, Interface, SocketSet};
use smoltcp::phy::{Loopback, Medium};
use smoltcp::time::Instant;
use smoltcp::wire::{EthernetAddress, HardwareAddress, IpAddress, IpCidr};

const HERE: [u8; 4] = [10, 0, 2, 15];
const READ: Reading = Reading { status: 0xf, rx_used: 3, tx_used: 5 };

fn device() -> (Loopback, Interface) {
    let mut dev = Loopback::new(Medium::Ethernet);
    let hw = HardwareAddress::Ethernet(EthernetAddress([2, 0, 0, 0, 0, 1]));
    let mut iface = Interface::new(Config::new(hw), &mut dev, Instant::from_millis(0));
    iface.update_ip_addrs(|a| {
        let _ = a.push(IpCidr::new(IpAddress::v4(10, 0, 2, 15), 24));
    });
    (dev, iface)
}

fn network() -> (Loopback, NetState) {
    let (dev, iface) = device();
    let mut n = NetState::new();
    net::init(&mut n, Some((iface, [2, 0, 0, 0, 0, 1])));
    (dev, n)
}

/// Lets the device and the stack run for a while.
fn run(dev: &mut Loopback, n: &mut NetState, from: i64) {
    for t in from..from + 50 {
        let s = n.stack.as_mut().unwrap();
        s.iface.poll(Instant::from_millis(t), dev, &mut s.sockets);
    }
    net::poll(n);
}

fn run_shared(dev: &mut Loopback, s: &mut Shared, from: i64) {
    for t in from..from + 50 {
        s.iface.poll(Instant::from_millis(t), dev, &mut s.sockets);
    }
}

fn shared() -> (Loopback, Shared) {
    let (dev, iface) = device();
    let s = Shared {
        iface,
        sockets: SocketSet::new(vec![]),
        next_port: 49152,
        orphans: Vec::new(),
    };
    (dev, s)
}

#[test]
fn without_a_device() {
    let mut n = NetState::new();
    net::init(&mut n, None);
    assert!(!net::present(&n));
    assert_eq!(net::tcp_listen(&mut n, 80).err(), Some("network is down"));
    assert_eq!(net::tcp_connect(&mut n, HERE, 80).err(), Some("network is down"));
    assert!(matches!(net::selftest(&n, None, READ, false).inside, Inside::Down));
    assert!(matches!(net::selftest(&n, None, READ, true).inside, Inside::Busy));
    net::irq_handler(&mut n);
    assert_eq!(net::selftest(&n, None, READ, false).irqs, 1);
    assert_eq!(net::irq_of_slot(7), 8);
}

#[test]
fn a_connection_over_the_stack() {
    let (mut dev, mut n) = network();
    assert!(net::present(&n));
    assert_eq!(net::ip(), HERE);
    let l = net::tcp_listen(&mut n, 80).unwrap();
    assert_eq!(n.stack.as_ref().unwrap().slots.len(), 16);
    assert_eq!(net::tcp_listen(&mut n, 80).err(), Some("address already in use"));
    assert_eq!(net::tcp_connect(&mut n, HERE, 0).err(), Some("bad port"));
    assert!(matches!(net::tcp_accept(&mut n, l), Ok(None)));
    assert!(net::tcp_accept(&mut n, TcpHandle(999)).is_err());
    assert!(!net::tcp_listen_pending(&n, l));

    let c = net::tcp_connect(&mut n, HERE, 80).unwrap();
    assert_eq!(net::tcp_state(&n, c), TcpState::SynSent);
    run(&mut dev, &mut n, 1);
    assert_eq!(net::tcp_state(&n, c), TcpState::Established);
    assert_eq!(net::tcp_peer_addr(&n, c), Some((HERE, 80)));
    assert!(net::tcp_listen_pending(&n, l));
    let (s, ip, port) = net::tcp_accept(&mut n, l).unwrap().unwrap();
    assert_eq!((ip, port), (HERE, 49152));
    assert_eq!(net::tcp_local_addr(&n, s), Some((HERE, 80)));
    assert!(!net::tcp_listen_pending(&n, l));
    let (rx, _) = setup_queue(Transport::Modern, 0, 4, 0x8000_0000, 0x8001_0000);
    let (tx, _) = setup_queue(Transport::Modern, 1, 8, 0x8002_0000, 0x8003_0000);
    let nic = Net::new(2, Transport::Modern, [7; 6], 0x20, rx, tx);
    assert_eq!(nic.publish_irq_base(), nic.base);
    assert_eq!(nic.device_status(), nic.base + 0x70);
    match net::selftest(&n, Some(&nic), READ, false).inside {
        Inside::Up { device, rx, tx, sockets } => {
            assert_eq!((device.slot, device.hdr_len, device.status), (2, 12, 0xf));
            assert_eq!((device.base, device.features), (nic.base, 0x20));
            assert_eq!((rx.num, rx.used_idx, rx.packets), (4, 3, 0));
            assert_eq!((tx.num, tx.free, tx.used_idx), (8, 8, 5));
            assert_eq!((sockets.listening, sockets.connected), (16, 2));
        }
        _ => panic!("the stack is up"),
    }

    let mut buf = [0u8; 16];
    assert_eq!(net::tcp_recv(&mut n, s, &mut buf), Err(ErrnoKind::Again));
    assert_eq!(net::tcp_send(&mut n, c, b"hello"), Ok(5));
    run(&mut dev, &mut n, 100);
    assert_eq!(net::tcp_pending(&n, s), 5);
    assert_eq!(net::tcp_recv(&mut n, s, &mut buf), Ok(5));
    assert_eq!(&buf[..5], b"hello");

    net::tcp_shutdown(&mut n, c, true, false);
    assert_eq!(net::tcp_state(&n, c), TcpState::Established);
    net::tcp_shutdown(&mut n, c, false, true);
    run(&mut dev, &mut n, 200);
    assert_eq!(net::tcp_recv(&mut n, s, &mut buf), Ok(0));
    net::tcp_drop(&mut n, s);
    assert_eq!(net::tcp_send(&mut n, s, b"x"), Err(ErrnoKind::Invalid));
    net::tcp_drop(&mut n, c);
    net::tcp_drop(&mut n, l);
    assert!(net::tcp_listen(&mut n, 80).is_ok());
}

#[test]
fn ephemeral_ports() {
    let mut next = 49152;
    let a = alloc_ephemeral_port(&mut next);
    let b = alloc_ephemeral_port(&mut next);
    assert_eq!((a, b), (49152, 49153));
    next = 49152 + 16000;
    assert_eq!(alloc_ephemeral_port(&mut next), 49152);
}

#[test]
fn stream_sockets() {
    let (mut dev, mut ctx) = shared();
    let mut l = TcpSocket::new();
    let any = SockAddr::Inet { addr: [0; 4], port: 8080 };
    assert!(l.bind(&mut ctx, any).is_ok());
    assert_eq!(l.bind(&mut ctx, SockAddr::Unspec).err(), Some(22));
    let far = SockAddr::Inet { addr: [1, 2, 3, 4], port: 1 };
    assert_eq!(l.bind(&mut ctx, far).err(), Some(99));
    assert_eq!(l.bind(&mut ctx, SockAddr::Inet { addr: [0; 4], port: 1 }).err(), Some(22));
    assert!(l.listen(&mut ctx, 4).is_ok());
    let backlog = match &l.kind {
        Kind::Listening { handles, .. } => handles.len(),
        _ => 0,
    };
    assert_eq!(backlog, 4);
    assert_eq!(l.accept(&mut ctx).err(), Some(11));
    assert_eq!(l.getsockopt(&ctx, 1, 30).unwrap(), i32_opt(1));

    let mut c = TcpSocket::new();
    let to = SockAddr::Inet { addr: HERE, port: 8080 };
    assert_eq!(c.poll(&ctx), 0x14);
    let local = SockAddr::Unix(b"/run/x".to_vec());
    assert_eq!(c.connect(&mut ctx, local, true).err(), Some(2));
    assert_eq!(c.connect(&mut ctx, to, true).err(), Some(115));
    run_shared(&mut dev, &mut ctx, 1);
    assert_eq!(l.poll(&ctx) & 1, 1);
    let (mut s, from) = l.accept(&mut ctx).unwrap();
    match from {
        SockAddr::Inet { addr, .. } => assert_eq!(addr, HERE),
        _ => panic!("no address"),
    }
    let left = match &l.kind {
        Kind::Listening { handles, .. } => handles.len(),
        _ => 0,
    };
    assert_eq!(left, 4);
    assert_eq!(s.local_addr(&ctx).unwrap().to_bytes()[..4], [2, 0, 0x1f, 0x90]);

    assert!(matches!(c.kind, Kind::Connecting(_)));
    let again = SockAddr::Inet { addr: HERE, port: 8080 };
    assert!(c.connect(&mut ctx, again, true).is_ok());
    assert!(matches!(c.kind, Kind::Connected(_)));
    assert_eq!(c.getsockopt(&ctx, 1, 4).unwrap(), i32_opt(0));
    match c.do_send(&mut ctx, b"abcdef", 0, 0, false, false) {
        SendStep::Done { result, sigpipe } => assert_eq!((result, sigpipe), (Ok(6), false)),
        _ => panic!("not sent"),
    }
    run_shared(&mut dev, &mut ctx, 100);
    let mut list = vec![s];
    assert!(update_event_seqs(&mut list, &ctx));
    assert!(!update_event_seqs(&mut list, &ctx));
    s = list.pop().unwrap();
    assert_eq!(s.event_seq(), 2);
    assert_eq!(s.poll(&ctx) & 5, 5);
    let mut mem = UserMem::new();
    mem.add_area(0x1000, vec![0; 4]);
    assert_eq!(s.ioctl(&ctx, &mut mem, 0x541b, 0x1000), Ok(0));
    assert_eq!(mem.read_num(0x1000, 4), Ok(6));
    assert_eq!(s.ioctl(&ctx, &mut mem, 1, 0x1000), Err(25));
    let mut buf = [0u8; 4];
    assert_eq!(s.do_recv(&mut ctx, &mut buf, 2), Ok(4));
    assert_eq!(&buf, b"abcd");
    assert_eq!(s.do_recv(&mut ctx, &mut buf, 0), Ok(4));
    assert_eq!(s.do_recv(&mut ctx, &mut buf, 0), Ok(2));
    assert_eq!(&buf[..2], b"ef");
    assert_eq!(s.do_recv(&mut ctx, &mut buf, 0), Err(11));

    assert!(c.setsockopt(&mut ctx, 6, 1, &[1, 0, 0, 0]).is_ok());
    assert_eq!(c.getsockopt(&ctx, 6, 1).unwrap(), i32_opt(1));
    assert!(c.setsockopt(&mut ctx, 1, 9, &[1, 0, 0, 0]).is_ok());
    let h = match c.kind {
        Kind::Connected(h) => h,
        _ => panic!("not connected"),
    };
    let inner = ctx.sockets.get::<smoltcp::socket::tcp::Socket>(h);
    assert!(!inner.nagle_enabled());
    assert!(inner.keep_alive().is_some());
    assert!(inner.ack_delay().is_none());
    let mut taken = TcpSocket::new();
    let same = SockAddr::Inet { addr: [0; 4], port: 8080 };
    assert_eq!(taken.bind(&mut ctx, same).err(), Some(98));
    assert!(c.shutdown(&mut ctx, 1).is_ok());
    match c.do_send(&mut ctx, b"x", 0, 0, false, false) {
        SendStep::Done { result, sigpipe } => assert_eq!((result, sigpipe), (Err(32), true)),
        _ => panic!("sent"),
    }
    run_shared(&mut dev, &mut ctx, 200);
    assert_eq!(s.do_recv(&mut ctx, &mut buf, 0), Ok(0));
    s.release(&mut ctx);
    c.release(&mut ctx);
    l.release(&mut ctx);
    assert!(matches!(l.kind, Kind::Closed));
    assert_eq!(ctx.orphans.len(), 2);
}

#[test]
fn unread_data_resets_the_connection() {
    let (mut dev, mut ctx) = shared();
    let mut l = TcpSocket::new();
    assert!(l.bind(&mut ctx, SockAddr::Inet { addr: [0; 4], port: 81 }).is_ok());
    assert!(l.listen(&mut ctx, 1).is_ok());
    let mut c = TcpSocket::new();
    assert!(c.connect(&mut ctx, SockAddr::Inet { addr: HERE, port: 81 }, true).is_err());
    run_shared(&mut dev, &mut ctx, 1);
    let (mut s, _) = l.accept(&mut ctx).unwrap();
    assert!(c.connect(&mut ctx, SockAddr::Inet { addr: HERE, port: 81 }, true).is_ok());
    c.do_send(&mut ctx, b"unread", 0, 0, false, false);
    run_shared(&mut dev, &mut ctx, 100);
    s.release(&mut ctx);
    run_shared(&mut dev, &mut ctx, 200);
    let mut buf = [0u8; 4];
    assert_eq!(c.do_recv(&mut ctx, &mut buf, 0).is_ok(), true);
    assert_eq!(c.poll(&ctx) & 0x10, 0x10);
}

#[test]
fn addresses_of_this_machine() {
    assert!(is_our_addr(HERE));
    assert!(is_our_addr([127, 0, 0, 1]));
    assert!(!is_our_addr([10, 0, 2, 2]));
    assert_eq!(to_listen([0; 4], 5), (None, 5));
    assert_eq!(to_listen(HERE, 5), (Some(HERE), 5));
    assert_ne!(state_u8(TcpState::Closed), state_u8(TcpState::Established));
}

#[test]
fn datagram_sockets() {
    let (mut dev, mut ctx) = shared();
    let mut a = UdpSocket::new();
    let mut b = UdpSocket::new();
    assert!(a.bind(&mut ctx, SockAddr::Inet { addr: [0; 4], port: 5353 }).is_ok());
    assert_eq!(b.poll(&ctx) & 1, 0);
    assert_eq!(b.peer_addr(&ctx).err(), Some(107));
    let none = b.send(&mut ctx, b"x", 0, None, Ancillary { fds: vec![] });
    assert_eq!(none.result, Err(89));
    assert!(b.connect(&mut ctx, SockAddr::Inet { addr: HERE, port: 5353 }, false).is_ok());
    let sent = b.send(&mut ctx, b"ping", 0, None, Ancillary { fds: vec![] });
    assert_eq!(sent.result, Ok(4));
    run_shared(&mut dev, &mut ctx, 1);
    let mut buf = [0u8; 8];
    assert_eq!(a.poll(&ctx) & 1, 1);
    let (n, from, _) = a.recv(&mut ctx, &mut buf, 2).unwrap();
    assert_eq!((n, &buf[..4]), (4, &b"ping"[..]));
    assert!(matches!(from, Some(SockAddr::Inet { addr: HERE, .. })));
    let (n, _, _) = a.recv(&mut ctx, &mut buf, 0).unwrap();
    assert_eq!(n, 4);
    assert_eq!(a.recv(&mut ctx, &mut buf, 0).err(), Some(11));
    assert_eq!(a.sock_type(), 2);
    assert_eq!(a.local_addr(&ctx).unwrap().to_bytes()[..4], [2, 0, 0x14, 0xe9]);
    let nowhere = SockAddr::Inet { addr: [0; 4], port: 9 };
    let bad = b.send(&mut ctx, b"x", 0, Some(nowhere), Ancillary { fds: vec![] });
    assert!(bad.result.is_err());
    b.release(&mut ctx);
    assert!(b.handle.is_none());
}

#[test]
fn listeners_are_topped_up() {
    let (mut dev, mut iface) = device();
    let mut sockets = SocketSet::new(vec![]);
    let l = Listener::new(&mut sockets, 90);
    assert_eq!(l.backlog.len(), 4);
    let mut st = ListenState { sockets, listeners: vec![l] };
    let mut c = smoltcp::socket::tcp::Socket::new(
        smoltcp::socket::tcp::SocketBuffer::new(vec![0; 64]),
        smoltcp::socket::tcp::SocketBuffer::new(vec![0; 64]),
    );
    c.connect(iface.context(), (IpAddress::v4(10, 0, 2, 15), 90), 50000).unwrap();
    st.sockets.add(c);
    for t in 1..50 {
        iface.poll(Instant::from_millis(t), &mut dev, &mut st.sockets);
    }
    service_listeners(&mut st);
    assert_eq!(st.listeners[0].accept_queue.len(), 1);
    assert_eq!(st.listeners[0].backlog.len(), 4);
}

#[test]
fn socket_addresses() {
    let a = SockAddr::parse(&[2, 0, 0x1f, 0x90, 1, 2, 3, 4, 0, 0, 0, 0, 0, 0, 0, 0]).unwrap();
    match &a {
        SockAddr::Inet { addr, port } => assert_eq!((*addr, *port), ([1, 2, 3, 4], 8080)),
        _ => panic!("not an internet address"),
    }
    assert_eq!(a.to_bytes(), [2, 0, 0x1f, 0x90, 1, 2, 3, 4, 0, 0, 0, 0, 0, 0, 0, 0]);
    match SockAddr::parse(b"\x01\x00/tmp/s\0\0").unwrap() {
        SockAddr::Unix(p) => assert_eq!(p, b"/tmp/s"),
        _ => panic!("not a path"),
    }
    assert_eq!(SockAddr::parse(&[2]).err(), Some(22));
    assert_eq!(SockAddr::parse(&[2, 0, 0]).err(), Some(22));
    assert_eq!(SockAddr::parse(&[77, 0, 0, 0]).err(), Some(97));
}

#[test]
fn local_pairs() {
    let (mut a, mut b) = socketpair(true);
    let mut buf = [0u8; 3];
    assert_eq!(b.recv(&mut a, &mut buf, 0).err(), Some(11));
    let local = SockAddr::Unix(b"/run/x".to_vec());
    assert_eq!(a.connect(&mut b, local, true).err(), Some(2));
    let s = a.send(&mut b, b"hello", 0, None, Ancillary { fds: vec![7] });
    assert_eq!(s.result, Ok(5));
    assert_eq!(b.poll(&a) & 1, 1);
    let (n, _, anc) = b.recv(&mut a, &mut buf, 0).unwrap();
    assert_eq!((n, &buf, anc.fds), (3, b"hel", vec![7]));
    let (n, _, anc) = b.recv(&mut a, &mut buf, 0).unwrap();
    assert_eq!((n, anc.fds.len()), (2, 0));
    let mut mem = UserMem::new();
    mem.add_area(0, vec![9; 8]);
    assert_eq!(b.ioctl(&mut mem, 0x541b, 0), Ok(0));
    assert_eq!(mem.read_num(0, 4), Ok(0));
    a.release(&mut b);
    let (n, _, _) = b.recv(&mut a, &mut buf, 0).unwrap();
    assert_eq!(n, 0);
    let s = b.send(&mut a, b"x", 0, None, Ancillary { fds: vec![] });
    assert_eq!((s.result, s.sigpipe), (Err(32), true));
}

#[test]
fn two_sends_and_one_receive() {
    let (mut a, mut b) = socketpair(true);
    let none = || Ancillary { fds: vec![] };
    assert_eq!(a.send(&mut b, b"one", 0, None, none()).result, Ok(3));
    assert_eq!(a.send(&mut b, b"two", 0, None, none()).result, Ok(3));
    let mut buf = [0u8; 5];
    assert_eq!(b.recv(&mut a, &mut buf, 2).unwrap().0, 3);
    assert_eq!(&buf[..3], b"one");
    assert_eq!(b.recv(&mut a, &mut buf, 0).unwrap().0, 5);
    assert_eq!(&buf, b"onetw");
    assert_eq!(b.recv(&mut a, &mut buf, 0).unwrap().0, 1);
}

#[test]
fn a_datagram_stays_whole() {
    let (mut a, mut b) = socketpair(false);
    let none = || Ancillary { fds: vec![] };
    assert_eq!(a.send(&mut b, b"one", 0, None, none()).result, Ok(3));
    assert_eq!(a.send(&mut b, b"two!", 0, None, none()).result, Ok(4));
    let mut buf = [0u8; 2];
    assert_eq!(b.recv(&mut a, &mut buf, 0).unwrap().0, 2);
    assert_eq!(&buf, b"on");
    let mut big = [0u8; 9];
    assert_eq!(b.recv(&mut a, &mut big, 0).unwrap().0, 4);
    assert_eq!(&big[..4], b"two!");
}
