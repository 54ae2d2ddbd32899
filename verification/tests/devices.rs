//! Timers, interrupts, the firmware, the serial port and the network devices.

use ijiege::net::probe as slot;
use ijiege::net::virtio as nic;
use ijiege::net::virtio::{Layout, MacReading, Sent, Transport, Used, UsedElem};
use ijiege::net::virtio_net as modern;
use ijiege::plic;
use ijiege::sbi;
use ijiege::sync::{Global, SpinLock};
use ijiege::time::{read_rtc_ns, uptime_ns, Clock};
use ijiege::timer::{ms_to_ticks, ticks_to_ms, Timer};
use ijiege::timer_wheel::{TimerKind, Wheel};
use ijiege::uart;
use ijiege::virtio;

fn used(idx: u16, n: usize, entries: &[(u32, u32)]) -> Used {
    let mut ring = Vec::new();
    for i in 0..n {
        let (id, len) = if i < entries.len() { entries[i] } else { (0, 0) };
        ring.push(UsedElem { id, len });
    }
    Used { idx, ring }
}

#[test]
fn time_of_day_starts_at_the_clock() {
    assert_eq!(uptime_ns(123), 12_300);
    assert_eq!(read_rtc_ns(0, 0), None);
    assert_eq!(read_rtc_ns(5, 1), Some(0x1_0000_0005));
    let mut c = Clock::init(Some(2_000_000), 10);
    assert_eq!(c.realtime_ns(10), 2_000_000);
    assert_eq!(c.realtime_ns(20), 2_001_000);
    assert_eq!(c.realtime_ms(10), 2);
    assert_eq!(c.next_deadline, 10_010);
    assert_eq!(c.on_tick(10_020), 20_020);
    assert_eq!(c.ticks(), 1);
    let d = Clock::init(None, 0);
    assert_eq!(d.realtime_ns(0), 1_700_000_000_000_000_000);
}

#[test]
fn milliseconds_there_and_back() {
    assert_eq!(ms_to_ticks(10_000_000, 7), 70_000);
    assert_eq!(ticks_to_ms(10_000_000, 70_000), 7);
    let (mut t, next) = Timer::init(10_000_000, 5);
    assert_eq!((t.now_ms(), next), (0, 100_005));
    assert_eq!(t.on_timer_interrupt(100_010), 200_010);
    assert_eq!(t.now_ms(), 10);
}

#[test]
fn timers_fire_once() {
    let mut w = Wheel::new();
    w.set_timer(10, 1, TimerKind::Wake);
    w.set_timer(30, 2, TimerKind::Wake);
    w.set_timer(20, 3, TimerKind::Wake);
    w.set_timer(20, 0, TimerKind::Net);
    let a = w.on_tick(20);
    assert_eq!((a.wake, a.net), (vec![1, 3], true));
    let b = w.on_tick(20);
    assert_eq!((b.wake, b.net), (vec![], false));
    assert_eq!(w.on_tick(30).wake, vec![2]);
}

#[test]
fn interrupts_find_their_handler() {
    let mut p = plic::Plic::new();
    assert_eq!(plic::init(), nic::Reg { off: 0x20_0004, val: 0 });
    let w = plic::register(&mut p, 8, 42);
    assert_eq!(w[0], nic::Reg { off: 32, val: 1 });
    assert_eq!(w[1], nic::Reg { off: 0x2004, val: 0x100 });
    assert_eq!(plic::handle(&p, 0), plic::Claimed::Done);
    assert_eq!(plic::handle(&p, 8), plic::Claimed::Run { handler: Some(42), irq: 8 });
    assert_eq!(plic::handle(&p, 9), plic::Claimed::Run { handler: None, irq: 9 });
    assert_eq!(plic::handle(&p, 1000), plic::Claimed::Run { handler: None, irq: 1000 });
}

#[test]
fn firmware_calls() {
    assert_eq!(sbi::console_putchar(65), sbi::SbiCall { eid: 1, fid: 0, arg: 65 });
    assert_eq!(sbi::console_getchar(usize::MAX), None);
    assert_eq!(sbi::console_getchar(66), Some(66));
    assert_eq!(sbi::set_timer(99), sbi::SbiCall { eid: 0, fid: 0, arg: 99 });
    assert_eq!(sbi::shutdown(false).eid, 8);
}

#[test]
fn serial_port() {
    assert_eq!(uart::init()[1], (3, 0x80));
    assert_eq!(uart::reg(5), 0x1000_0005);
    assert!(uart::can_put(0x20) && !uart::can_put(0x1f));
    assert!(uart::can_get(1) && !uart::can_get(0xfe));
    assert_eq!(uart::write_str(&b"a\nb\n".to_vec()), b"a\r\nb\r\n");
}

#[test]
fn a_lock_has_one_holder() {
    let mut l = SpinLock::new(5);
    assert!(!l.is_locked());
    l.lock();
    assert!(!l.try_lock());
    assert_eq!(l.replace(6), 5);
    assert_eq!(*l.get(), 6);
    l.unlock();
    assert!(l.try_lock());
    let mut g: Global<u8> = Global::new();
    assert!(!g.is_init());
    g.init(3);
    assert!(g.is_init());
    assert_eq!(*g.get(), 3);
}

#[test]
fn both_transports() {
    assert_eq!(nic::identify(0x7472_6976, 0x554d_4551, 1, 1), Some(Transport::Legacy));
    assert_eq!(nic::identify(0x7472_6976, 0x554d_4551, 1, 2), Some(Transport::Modern));
    assert_eq!(nic::identify(0x7472_6976, 0x554d_4551, 1, 3), None);
    assert_eq!(nic::identify(0x7472_6976, 0x554d_4551, 2, 2), None);
    assert_eq!(nic::identify(0, 0x554d_4551, 1, 2), None);
    assert_eq!(nic::hdr_len(Transport::Legacy), 10);
    assert_eq!(nic::hdr_len(Transport::Modern), 12);
    assert_eq!(nic::reset(Transport::Modern).len(), 3);
    assert_eq!(nic::reset(Transport::Legacy)[3], nic::Reg { off: 0x28, val: 4096 });
    assert!(nic::negotiate(Transport::Modern, 0x20, 0).refused);
    let n = nic::negotiate(Transport::Modern, 0xff, 1);
    assert!(!n.refused);
    assert_eq!(n.features, 0x1_0000_00ff);
    assert!(nic::accepted(Transport::Legacy, 0));
    assert!(!nic::accepted(Transport::Modern, 3));
    assert!(nic::accepted(Transport::Modern, 11));
}

#[test]
fn hardware_address_needs_a_stable_reading() {
    let a = MacReading { before: 1, mac: [1; 6], after: 2 };
    let b = MacReading { before: 2, mac: [2; 6], after: 2 };
    assert_eq!(nic::read_mac(Transport::Modern, &vec![a, b]), Some([2; 6]));
    assert_eq!(nic::read_mac(Transport::Modern, &vec![a, a]), None);
    assert_eq!(nic::read_mac(Transport::Legacy, &vec![a]), Some([1; 6]));
    assert_eq!(nic::choose_mac(0x20, Some([3; 6])), [3; 6]);
    assert_eq!(nic::choose_mac(0, Some([3; 6])), nic::choose_mac(0x20, None));
}

#[test]
fn queue_layout() {
    assert_eq!(nic::queue_size(1), None);
    assert_eq!(nic::queue_size(100), Some(64));
    assert_eq!(nic::queue_size(1024), Some(128));
    let l: Layout = nic::layout(Transport::Legacy, 128);
    assert_eq!((l.avail_off, l.used_off, l.ring_bytes), (2048, 4096, 8192));
    assert_eq!((l.ring_frames, l.buf_frames), (2, 64));
    let m: Layout = nic::layout(Transport::Modern, 128);
    assert_eq!((m.used_off, m.ring_bytes, m.ring_frames), (2312, 3342, 1));
    let (q, regs) = nic::setup_queue(Transport::Legacy, 1, 128, 0x8000_0000, 0x8001_0000);
    assert_eq!(regs.last().unwrap().val, 0x8_0000);
    assert_eq!(q.buf_pa(2), 0x8001_1000);
}

#[test]
fn receive_queue() {
    let (q, _) = nic::setup_queue(Transport::Modern, 0, 4, 0x8000_0000, 0x8001_0000);
    let mut rx = nic::RxQueue::new(q);
    assert_eq!(rx.q.avail_idx, 4);
    let u = used(3, 4, &[(2, 5), (9, 100), (1, 72)]);
    assert_eq!(rx.pop_used(&u), Some((1, 60)));
    assert_eq!(rx.malformed, 2);
    assert_eq!(rx.last_used(), 3);
    assert_eq!(rx.pop_used(&u), None);
    rx.recycle(1);
    assert_eq!(rx.q.desc[1].len, 2048);
    assert_eq!(nic::frame_at(12, 60), (12, 72));
}

#[test]
fn send_queue() {
    let (q, _) = nic::setup_queue(Transport::Modern, 1, 2, 0x8000_0000, 0x8001_0000);
    let mut tx = nic::TxQueue::new(q);
    let none = used(0, 2, &[]);
    for want in 0..2u16 {
        match tx.send(&none, b"hello") {
            Sent::Packet { id, data } => {
                assert_eq!(id, want);
                assert_eq!(data.len(), 17);
                assert_eq!(&data[12..], b"hello");
            }
            Sent::Dropped => panic!("dropped"),
        }
    }
    assert!(matches!(tx.send(&none, b"x"), Sent::Dropped));
    assert_eq!((tx.free(), tx.packets, tx.dropped), (0, 2, 1));
    let done = used(1, 2, &[(1, 0)]);
    assert!(matches!(tx.send(&done, b"x"), Sent::Packet { id: 1, .. }));
    assert!(matches!(tx.send(&done, &[0; 4000]), Sent::Dropped));
}

#[test]
fn interrupt_is_acknowledged() {
    assert_eq!(nic::ack_interrupt_nolock(0), None);
    assert_eq!(nic::ack_interrupt_nolock(3), Some(nic::Reg { off: 0x64, val: 3 }));
}

#[test]
fn device_of_the_single_process_kernel() {
    let empty = modern::SlotId { magic: 0x7472_6976, version: 2, device: 0 };
    let net = modern::SlotId { magic: 0x7472_6976, version: 2, device: 1 };
    assert_eq!(modern::find_device(&vec![empty, empty, net]), Some(0x1000_1400));
    assert_eq!(modern::find_device(&vec![empty]), None);
    assert_eq!(modern::choose_features(u64::MAX), 0x1_0000_0020);
    assert_eq!(modern::block_pages(4097, 16), 3);
    assert_eq!(modern::block_start(&vec![0x1000, 0x2000], 8192, 16), Some(0x1000));
    assert_eq!(modern::block_start(&vec![0x1000, 0x4000], 8192, 16), None);
    let mut n = modern::VirtioNet::new([7; 6], vec![0x9000; 128], vec![0xa000; 128]);
    assert_eq!(n.mac(), [7; 6]);
    let none = used(0, 128, &[]);
    assert_eq!(n.receive(&none, &none), None);
    let got = used(1, 128, &[(5, 72)]);
    assert_eq!(n.receive(&got, &none), Some((5, 60)));
    assert!(matches!(n.send(&none, &[0; 1527]), modern::SendStep::TooLong));
    match n.send(&none, b"abc") {
        modern::SendStep::Packet { id, data } => assert_eq!((id, data.len()), (127, 15)),
        _ => panic!("not sent"),
    }
    assert!(n.tx_available(&none));
}

#[test]
fn device_with_word_descriptors() {
    let other = virtio::SlotId { magic: 0x7472_6976, device: 2 };
    let net = virtio::SlotId { magic: 0x7472_6976, device: 1 };
    assert_eq!(virtio::find_device(&vec![other, net]), 0x1000_1000);
    assert_eq!(virtio::find_device(&vec![other]), 0);
    assert_eq!((virtio::config_at(true), virtio::config_at(false)), (0x70, 0x100));
    assert_eq!(virtio::notify(true, 1), nic::Reg { off: 0x3c, val: 1 });
    assert_eq!(virtio::set_desc(5, 6, 7, 8).info, (6 << 32) | 7 | (8 << 48));
    assert_eq!(virtio::irq_handler(false, 3).1.len(), 2);
    assert!(!virtio::irq_handler(false, 2).0);
}

fn word(off: usize, val: u32) -> virtio::Write {
    virtio::Write::Word(nic::Reg { off, val })
}

#[test]
fn the_legacy_layout_is_started() {
    let net = virtio::SlotId { magic: 0x7472_6976, device: 1 };
    let (s, _, a) = virtio::init(virtio::Init::Find, virtio::Event::Slots(vec![net]));
    assert!(matches!(a, virtio::Ask::Version { base: 0x1000_0000 }));
    let (s, w, _) = virtio::init(s, virtio::Event::Version(1));
    assert_eq!(w, vec![word(0x70, 0), word(0x70, 3)]);
    let (s, w, a) = virtio::init(s, virtio::Event::Features { lo: u32::MAX, hi: 0 });
    assert_eq!(w, vec![word(0x20, 0x1_0021)]);
    assert!(matches!(a, virtio::Ask::Mac { at: 0x70 }));
    let (s, w, _) = virtio::init(s, virtio::Event::Mac([7; 6]));
    assert_eq!(w, vec![word(0x28, 0)]);
    let (s, w, _) = virtio::init(s, virtio::Event::Pages(0x8000_0000));
    assert_eq!(w[1], word(0x34, 0x8_0000));
    assert_eq!(w[3], word(0x28, 1));
    let (s, w, a) = virtio::init(s, virtio::Event::Pages(0x8000_2000));
    assert_eq!(w.last(), Some(&word(0x70, 7)));
    assert!(matches!(a, virtio::Ask::Buffers));
    let bufs: Vec<u64> = (0..64).map(|i| 0x9000_0000 + 4096 * i).collect();
    let (s, w, a) = virtio::init(s, virtio::Event::Buffers(bufs));
    assert_eq!(w, vec![word(0x3c, 0)]);
    assert!(matches!(s, virtio::Init::Ended));
    match a {
        virtio::Ask::Ready(d) => {
            assert_eq!((d.mac, d.rx.avail_idx, d.rx.bufs[3]), ([7; 6], 64, 0x9000_3000));
            assert_eq!((d.rx_at.avail, d.tx_at.used), (0x8000_0800, 0x8000_3000));
        }
        _ => panic!("not ready"),
    }
    let (_, _, a) = virtio::init(virtio::Init::Find, virtio::Event::Slots(vec![]));
    assert!(matches!(a, virtio::Ask::Fail));
    let (_, _, a) = virtio::init(virtio::Init::Status, virtio::Event::Status(3));
    assert!(matches!(a, virtio::Ask::Fail));
}

#[test]
fn a_slot_is_probed() {
    let ids = slot::Event::Ids { magic: 0x7472_6976, vendor: 0x554d_4551, device: 1, version: 2 };
    let (s, w, _) = slot::probe(3, slot::Probe::Identify, ids);
    assert_eq!(w.len(), 3);
    let (s, _, a) = slot::probe(3, s, slot::Event::Features { lo: 0x20, hi: 1 });
    assert!(matches!(a, slot::Ask::Status));
    let (s, w, a) = slot::probe(3, s, slot::Event::Status(11));
    assert!(w.is_empty() && matches!(a, slot::Ask::Readings));
    let r = MacReading { before: 1, mac: [9; 6], after: 1 };
    let (s, w, _) = slot::probe(3, s, slot::Event::Readings(vec![r]));
    assert_eq!(w, vec![nic::Reg { off: 0x30, val: 0 }]);
    let (s, _, a) = slot::probe(3, s, slot::Event::Size(1024));
    assert!(matches!(a, slot::Ask::Frames(1)));
    let (s, _, a) = slot::probe(3, s, slot::Event::Frames(Some(0x8000_0000)));
    assert!(matches!(a, slot::Ask::Frames(64)));
    let (s, w, _) = slot::probe(3, s, slot::Event::Frames(Some(0x8001_0000)));
    assert_eq!(w.last(), Some(&nic::Reg { off: 0x30, val: 1 }));
    let (s, _, _) = slot::probe(3, s, slot::Event::Size(64));
    let (s, _, _) = slot::probe(3, s, slot::Event::Frames(Some(0x8100_0000)));
    let (_, w, a) = slot::probe(3, s, slot::Event::Frames(Some(0x8101_0000)));
    assert_eq!(w.last(), Some(&nic::Reg { off: 0x70, val: 15 }));
    match a {
        slot::Ask::Ready(n) => {
            assert_eq!((n.mac, n.base, n.hdr_len), ([9; 6], 0x1000_4000, 12));
            assert_eq!((n.rx.num(), n.tx.num()), (128, 64));
        }
        _ => panic!("not ready"),
    }
    let bad = slot::Event::Ids { magic: 0, vendor: 0, device: 1, version: 2 };
    let (_, w, a) = slot::probe(3, slot::Probe::Identify, bad);
    assert!(w.is_empty() && matches!(a, slot::Ask::GiveUp { free: None }));
    let t = Transport::Modern;
    let (_, w, a) = slot::probe(3, slot::Probe::Status { t, features: 0 }, slot::Event::Status(3));
    assert!(w == vec![nic::Reg { off: 0x70, val: 0 }] && matches!(a, slot::Ask::GiveUp { free: None }));
    let ring = 0x8000_0000;
    let want = slot::Probe::RxBufs { t, features: 0, mac: [0; 6], num: 128, ring };
    let (_, _, a) = slot::probe(3, want, slot::Event::Frames(None));
    assert!(matches!(a, slot::Ask::GiveUp { free: Some((0x8000_0000, 1)) }));
    let small = slot::Probe::RxSize { t, features: 0, mac: [0; 6] };
    assert!(matches!(slot::probe(3, small, slot::Event::Size(1)).2, slot::Ask::GiveUp { free: None }));
}

#[test]
fn a_modern_device_is_probed() {
    let net = modern::SlotId { magic: 0x7472_6976, version: 2, device: 1 };
    let (s, w, a) = modern::probe(modern::Probe::Find, modern::Event::Slots(vec![net]));
    assert_eq!(w.len(), 3);
    assert!(matches!(a, modern::Ask::Features { base: 0x1000_1000 }));
    let (s, w, _) = modern::probe(s, modern::Event::Features(u64::MAX));
    assert_eq!((w[0].val, w[1].val, w[2].val), (0x20, 1, 11));
    let (s, _, _) = modern::probe(s, modern::Event::Status(11));
    let p = |x: u64| modern::RingParts { desc: x, avail: x + 0x800, used: x + 0x1000 };
    let (s, _, _) = modern::probe(s, modern::Event::Memory { mac: [4; 6], rx: p(0x1_8000_0000), tx: p(0x9000) });
    let (s, w, _) = modern::probe(s, modern::Event::Size(128));
    assert_eq!((w[1].val, w[2].val), (0x8000_0000, 1));
    let (s, w, _) = modern::probe(s, modern::Event::Size(128));
    assert_eq!(w.last().map(|r| r.val), Some(15));
    let bufs = modern::Event::Buffers { rx: vec![0x5000; 128], tx: vec![0x6000; 128] };
    match modern::probe(s, bufs).2 {
        modern::Ask::Ready(n) => assert_eq!((n.mac(), n.rx.avail[0]), ([4; 6], 127)),
        _ => panic!("not ready"),
    }
    assert!(matches!(modern::probe(modern::Probe::Status, modern::Event::Status(0)).2, modern::Ask::Absent));
}

#[test]
fn what_was_sent_is_free_again() {
    let mut q = virtio::Vq::new();
    assert!(virtio::net_tx(true, false, &mut q, b"hi", 0x5000).is_none());
    let p = virtio::net_tx(true, true, &mut q, b"hi", 0x5000).unwrap();
    assert_eq!(p.data, b"\0\0\0\0\0\0\0\0\0\0hi");
    assert_eq!(q.free.len(), 63);
    let (freed, last) = virtio::tx_interrupt(&mut q, &used(1, 64, &[(63, 0)]), 0);
    assert_eq!((freed, last), (vec![0x5000], 1));
    assert_eq!(q.free.last(), Some(&63));
    let mut r = virtio::Vq::new();
    r.give_rx_buf(0, 0x7000);
    let new = vec![0x9000u64; 64];
    let (frames, last) = virtio::rx_interrupt(true, &mut r, &used(1, 64, &[(0, 70)]), 0, &new);
    assert_eq!(frames, vec![virtio::Frame { at: 0x700a, len: 60 }]);
    assert_eq!((last, r.bufs[0]), (1, 0x9000));
    r.give_rx_buf(1, 0x7000);
    let (frames, _) = virtio::rx_interrupt(false, &mut r, &used(1, 64, &[(1, 72)]), 0, &new);
    assert_eq!(frames, vec![virtio::Frame { at: 0x700c, len: 60 }]);
    assert_eq!(virtio::net_tx(false, true, &mut q, b"hi", 0x5000).unwrap().data.len(), 14);
}
