//! Looking for a network device in a slot and making it ready: from what the
//! device answered to what is written to it and asked next.

use vstd::prelude::*;
use crate::net::virtio::{
    accepted, choose_mac, chosen_mac, driver_ok, give_up, hdr_spec, identified, identify, layout,
    layout_spec, mac_read, negotiate, queue_set_up, queue_size, read_mac, ready_status, reg, reset,
    reset_regs, rx_fresh, setup_queue, tx_fresh, wanted, word_features, Layout, MacReading, Net,
    Negotiated, Reg, Transport, Vq, BUF_SIZE, FEAT_VERSION_1_WORD1, MAX_SLOTS, QUEUE_NUM,
    R_QUEUE_NOTIFY, R_QUEUE_SEL, R_STATUS, SLOT_BASE, SLOT_STRIDE, ST_FEATURES_OK,
};
use crate::net::GUEST_MAC;

verus! {

/// How far the probing of a slot is.
pub enum Probe {
    Identify,
    Features { t: Transport },
    Status { t: Transport, features: u64 },
    Address { t: Transport, features: u64 },
    RxSize { t: Transport, features: u64, mac: [u8; 6] },
    RxRing { t: Transport, features: u64, mac: [u8; 6], num: u16 },
    RxBufs { t: Transport, features: u64, mac: [u8; 6], num: u16, ring: u64 },
    TxSize { t: Transport, features: u64, mac: [u8; 6], rx: Vq },
    TxRing { t: Transport, features: u64, mac: [u8; 6], rx: Vq, num: u16 },
    TxBufs { t: Transport, features: u64, mac: [u8; 6], rx: Vq, num: u16, ring: u64 },
    Ended,
}

/// What came back for what was asked.
pub enum Event {
    Ids { magic: u32, vendor: u32, device: u32, version: u32 },
    /// The two feature words; the legacy transport has the first only.
    Features { lo: u32, hi: u32 },
    Status(u32),
    Readings(Vec<MacReading>),
    /// How many descriptors a queue may have.
    Size(u32),
    /// Zeroed frames in a row.
    Frames(Option<u64>),
}

/// What to do next, once the registers were written.
pub enum Ask {
    Features,
    Status,
    Readings,
    Size,
    /// So many zeroed frames in a row: for the rings of a queue, then for its
    /// buffers.
    Frames(usize),
    /// The device cannot be used. The frames from this address on, so many, are to
    /// be given back.
    GiveUp { free: Option<(u64, usize)> },
    Ready(Net),
}

/// The event that a state waits for came, with memory that can be used.
pub open spec fn awaited(s: Probe, e: Event) -> bool {
    match s {
        Probe::Identify => e is Ids,
        Probe::Features { .. } => e is Features,
        Probe::Status { .. } => e is Status,
        Probe::Address { .. } => e is Readings,
        Probe::RxSize { .. } => e is Size,
        Probe::TxSize { rx, .. } => e is Size && rx.wf(),
        Probe::RxRing { num, .. } => ring_ok(num, e),
        Probe::RxBufs { num, ring, .. } => bufs_ok(num, ring, e),
        Probe::TxRing { rx, num, .. } => ring_ok(num, e) && rx.wf(),
        Probe::TxBufs { rx, num, ring, .. } => bufs_ok(num, ring, e) && rx.wf(),
        Probe::Ended => false,
    }
}

pub open spec fn ring_ok(num: u16, e: Event) -> bool {
    &&& 2 <= num <= QUEUE_NUM
    &&& match e {
        Event::Frames(Some(ring)) => ring <= 0xffff_ffff_ffff_0000,
        Event::Frames(None) => true,
        _ => false,
    }
}

pub open spec fn bufs_ok(num: u16, ring: u64, e: Event) -> bool {
    &&& 2 <= num <= QUEUE_NUM
    &&& ring <= 0xffff_ffff_ffff_0000
    &&& match e {
        Event::Frames(Some(buf)) => buf + num * BUF_SIZE <= u64::MAX,
        Event::Frames(None) => true,
        _ => false,
    }
}

/// The driver gives up, with nothing to give back; the device is reset where it
/// was touched.
pub open spec fn gives_up(s: Probe, w: Seq<Reg>, ask: Ask, regs: Seq<Reg>) -> bool {
    s is Ended && w == regs && ask == (Ask::GiveUp { free: None })
}

/// The driver gives up for want of buffers, and gives the rings back.
pub open spec fn gives_back(t: Transport, num: u16, ring: u64, s: Probe, w: Seq<Reg>, ask: Ask) -> bool {
    &&& s is Ended
    &&& w == give_up()
    &&& exists|l: Layout|
        #[trigger] layout_spec(t, num as int, l) && ask == (Ask::GiveUp {
            free: Some((ring, l.ring_frames)),
        })
}

/// After the features: the hardware address is read where the device has one,
/// else the first queue is next.
pub open spec fn goes_on(t: Transport, features: u64, w0: Seq<Reg>, s: Probe, w: Seq<Reg>, ask: Ask) -> bool {
    if features & 0x20 != 0 {
        s == (Probe::Address { t, features }) && w == w0 && ask is Readings
    } else {
        to_rx(t, features, GUEST_MAC, w0, s, w, ask)
    }
}

/// The receive queue is selected and its size asked for.
pub open spec fn to_rx(t: Transport, features: u64, mac: [u8; 6], w0: Seq<Reg>, s: Probe, w: Seq<Reg>, ask: Ask) -> bool {
    &&& s == (Probe::RxSize { t, features, mac })
    &&& w == w0.push(reg(R_QUEUE_SEL, 0))
    &&& ask is Size
}

/// `num` is the size of a queue for which a device offers `max`: the largest
/// power of two within both limits.
pub open spec fn sized(max: u32, num: u16) -> bool {
    &&& 2 <= num <= QUEUE_NUM
    &&& num <= max
    &&& exists|k: nat| num == #[trigger] crate::net::virtio::pow2(k)
    &&& num == QUEUE_NUM || 2 * num > max
}

/// Frames are asked for the rings of a queue of `num` descriptors.
pub open spec fn asks_ring(t: Transport, num: u16, ask: Ask) -> bool {
    exists|l: Layout|
        #[trigger] layout_spec(t, num as int, l) && ask == Ask::Frames(l.ring_frames)
}

/// Frames are asked for the buffers of a queue of `num` descriptors.
pub open spec fn asks_bufs(t: Transport, num: u16, ask: Ask) -> bool {
    exists|l: Layout|
        #[trigger] layout_spec(t, num as int, l) && ask == Ask::Frames(l.buf_frames)
}

/// What a step comes to.
pub open spec fn stepped(slot: usize, s: Probe, e: Event, s1: Probe, w: Seq<Reg>, ask: Ask) -> bool {
    match (s, e) {
        (Probe::Identify, Event::Ids { magic, vendor, device, version }) => match identified(
            magic,
            vendor,
            device,
            version,
        ) {
            None => gives_up(s1, w, ask, Seq::empty()),
            Some(t) => s1 == (Probe::Features { t }) && w == reset_regs(t) && ask is Features,
        },
        (Probe::Features { t }, Event::Features { lo, hi }) => match t {
            Transport::Modern => if hi & FEAT_VERSION_1_WORD1 == 0 {
                gives_up(s1, w, ask, give_up())
            } else {
                s1 == (Probe::Status { t, features: word_features(t, lo, hi) }) && w == wanted(
                    t,
                    lo,
                    hi,
                ) && ask is Status
            },
            Transport::Legacy => goes_on(t, word_features(t, lo, hi), wanted(t, lo, hi), s1, w, ask),
        },
        (Probe::Status { t, features }, Event::Status(st)) => if t == Transport::Modern && st
            & ST_FEATURES_OK == 0 {
            gives_up(s1, w, ask, give_up())
        } else {
            goes_on(t, features, Seq::empty(), s1, w, ask)
        },
        (Probe::Address { t, features }, Event::Readings(l)) => exists|m: Option<[u8; 6]>|
            #[trigger] mac_read(t, l@, m) && to_rx(
                t,
                features,
                chosen_mac(features, m),
                Seq::empty(),
                s1,
                w,
                ask,
            ),
        (Probe::RxSize { t, features, mac }, Event::Size(max)) => if max < 2 {
            gives_up(s1, w, ask, give_up())
        } else {
            &&& s1 is RxRing
            &&& s1 == (Probe::RxRing { t, features, mac, num: s1->RxRing_num })
            &&& sized(max, s1->RxRing_num)
            &&& w == Seq::<Reg>::empty()
            &&& asks_ring(t, s1->RxRing_num, ask)
        },
        (Probe::RxRing { t, features, mac, num }, Event::Frames(m)) => match m {
            None => gives_up(s1, w, ask, give_up()),
            Some(ring) => {
                &&& s1 == (Probe::RxBufs { t, features, mac, num, ring })
                &&& w == Seq::<Reg>::empty()
                &&& asks_bufs(t, num, ask)
            },
        },
        (Probe::RxBufs { t, features, mac, num, ring }, Event::Frames(m)) => match m {
            None => gives_back(t, num, ring, s1, w, ask),
            Some(buf) => {
                &&& s1 is TxSize
                &&& s1 == (Probe::TxSize { t, features, mac, rx: s1->TxSize_rx })
                &&& w.len() > 0
                &&& queue_set_up(t, 0, num, ring, buf, s1->TxSize_rx, w.drop_last())
                &&& w.last() == reg(R_QUEUE_SEL, 1)
                &&& ask is Size
            },
        },
        (Probe::TxSize { t, features, mac, rx }, Event::Size(max)) => if max < 2 {
            gives_up(s1, w, ask, give_up())
        } else {
            &&& s1 is TxRing
            &&& s1 == (Probe::TxRing { t, features, mac, rx, num: s1->TxRing_num })
            &&& sized(max, s1->TxRing_num)
            &&& w == Seq::<Reg>::empty()
            &&& asks_ring(t, s1->TxRing_num, ask)
        },
        (Probe::TxRing { t, features, mac, rx, num }, Event::Frames(m)) => match m {
            None => gives_up(s1, w, ask, give_up()),
            Some(ring) => {
                &&& s1 == (Probe::TxBufs { t, features, mac, rx, num, ring })
                &&& w == Seq::<Reg>::empty()
                &&& asks_bufs(t, num, ask)
            },
        },
        (Probe::TxBufs { t, features, mac, rx, num, ring }, Event::Frames(m)) => match m {
            None => gives_back(t, num, ring, s1, w, ask),
            Some(buf) => {
                &&& s1 is Ended
                &&& ask is Ready
                &&& w.len() >= 2
                &&& w[w.len() - 2] == reg(R_QUEUE_NOTIFY, 0)
                &&& w.last() == reg(R_STATUS, ready_status(t))
                &&& exists|tx: Vq|
                    #[trigger] queue_set_up(t, 1, num, ring, buf, tx, w.take(w.len() - 2))
                        && tx_fresh(tx, ask->Ready_0.tx)
                &&& ({
                    let n = ask->Ready_0;
                    &&& n.base == SLOT_BASE + slot * SLOT_STRIDE
                    &&& n.slot == slot
                    &&& n.mac == mac
                    &&& n.features == features
                    &&& n.transport == t
                    &&& n.hdr_len == hdr_spec(t)
                    &&& rx_fresh(rx, n.rx)
                    &&& n.rx.q.wf()
                    &&& n.tx.wf()
                    &&& n.last_irq_status == 0
                })
            },
        },
        _ => true,
    }
}

fn select(w: &mut Vec<Reg>, qidx: u32)
    ensures
        final(w)@ == old(w)@.push(reg(R_QUEUE_SEL, qidx)),
{
    w.push(Reg { off: R_QUEUE_SEL, val: qidx });
}

fn fail() -> (r: (Probe, Vec<Reg>, Ask))
    ensures
        gives_up(r.0, r.1@, r.2, give_up()),
{
    let w: Vec<Reg> = vec![Reg { off: R_STATUS, val: 0 }];
    proof {
        assert(w@ =~= give_up());
    }
    (Probe::Ended, w, Ask::GiveUp { free: None })
}

fn go_on(t: Transport, features: u64, w0: Vec<Reg>) -> (r: (Probe, Vec<Reg>, Ask))
    ensures
        goes_on(t, features, w0@, r.0, r.1@, r.2),
{
    let mut w: Vec<Reg> = w0;
    if features & 0x20 != 0 {
        return (Probe::Address { t, features }, w, Ask::Readings);
    }
    select(&mut w, 0);
    (Probe::RxSize { t, features, mac: GUEST_MAC }, w, Ask::Size)
}

fn fail_back(t: Transport, num: u16, ring: u64) -> (r: (Probe, Vec<Reg>, Ask))
    requires
        2 <= num <= QUEUE_NUM,
    ensures
        gives_back(t, num, ring, r.0, r.1@, r.2),
{
    let (s, w, _): (Probe, Vec<Reg>, Ask) = fail();
    let l: Layout = layout(t, num);
    proof {
        assert(layout_spec(t, num as int, l));
    }
    (s, w, Ask::GiveUp { free: Some((ring, l.ring_frames)) })
}

fn ask_ring(t: Transport, num: u16) -> (r: Ask)
    requires
        2 <= num <= QUEUE_NUM,
    ensures
        asks_ring(t, num, r),
{
    let l: Layout = layout(t, num);
    proof {
        assert(layout_spec(t, num as int, l));
    }
    Ask::Frames(l.ring_frames)
}

fn ask_bufs(t: Transport, num: u16) -> (r: Ask)
    requires
        2 <= num <= QUEUE_NUM,
    ensures
        asks_bufs(t, num, r),
{
    let l: Layout = layout(t, num);
    proof {
        assert(layout_spec(t, num as int, l));
    }
    Ask::Frames(l.buf_frames)
}

/// Goes one step on: the state after an event, the registers to write, and what
/// to do after that.
#[verifier::rlimit(60)]
pub fn probe(slot: usize, s: Probe, e: Event) -> (r: (Probe, Vec<Reg>, Ask))
    requires
        slot < MAX_SLOTS,
        awaited(s, e),
    ensures
        stepped(slot, s, e, r.0, r.1@, r.2),
        match r.0 {
            Probe::TxSize { rx, .. } => rx.wf(),
            Probe::TxRing { rx, .. } => rx.wf(),
            Probe::TxBufs { rx, .. } => rx.wf(),
            _ => true,
        },
{
    match (s, e) {
        (Probe::Identify, Event::Ids { magic, vendor, device, version }) => {
            match identify(magic, vendor, device, version) {
                None => (Probe::Ended, Vec::new(), Ask::GiveUp { free: None }),
                Some(t) => (Probe::Features { t }, reset(t), Ask::Features),
            }
        },
        (Probe::Features { t }, Event::Features { lo, hi }) => {
            let n: Negotiated = negotiate(t, lo, hi);
            if n.refused {
                return fail();
            }
            match t {
                Transport::Modern => (
                    Probe::Status { t, features: n.features },
                    n.writes,
                    Ask::Status,
                ),
                Transport::Legacy => go_on(t, n.features, n.writes),
            }
        },
        (Probe::Status { t, features }, Event::Status(st)) => {
            if !accepted(t, st) {
                return fail();
            }
            go_on(t, features, Vec::new())
        },
        (Probe::Address { t, features }, Event::Readings(l)) => {
            let read: Option<[u8; 6]> = read_mac(t, &l);
            let mac: [u8; 6] = choose_mac(features, read);
            let mut w: Vec<Reg> = Vec::new();
            select(&mut w, 0);
            proof {
                assert(mac_read(t, l@, read));
            }
            (Probe::RxSize { t, features, mac }, w, Ask::Size)
        },
        (Probe::RxSize { t, features, mac }, Event::Size(max)) => match queue_size(max) {
            None => fail(),
            Some(num) => (
                Probe::RxRing { t, features, mac, num },
                Vec::new(),
                ask_ring(t, num),
            ),
        },
        (Probe::RxRing { t, features, mac, num }, Event::Frames(m)) => match m {
            None => fail(),
            Some(ring) => (
                Probe::RxBufs { t, features, mac, num, ring },
                Vec::new(),
                ask_bufs(t, num),
            ),
        },
        (Probe::RxBufs { t, features, mac, num, ring }, Event::Frames(m)) => match m {
            None => fail_back(t, num, ring),
            Some(buf) => {
                let (q, regs): (Vq, Vec<Reg>) = setup_queue(t, 0, num, ring, buf);
                let ghost r0 = regs@;
                let mut w: Vec<Reg> = regs;
                select(&mut w, 1);
                proof {
                    assert(w@.drop_last() =~= r0);
                }
                (Probe::TxSize { t, features, mac, rx: q }, w, Ask::Size)
            },
        },
        (Probe::TxSize { t, features, mac, rx }, Event::Size(max)) => match queue_size(max) {
            None => fail(),
            Some(num) => (
                Probe::TxRing { t, features, mac, rx, num },
                Vec::new(),
                ask_ring(t, num),
            ),
        },
        (Probe::TxRing { t, features, mac, rx, num }, Event::Frames(m)) => match m {
            None => fail(),
            Some(ring) => (
                Probe::TxBufs { t, features, mac, rx, num, ring },
                Vec::new(),
                ask_bufs(t, num),
            ),
        },
        (Probe::TxBufs { t, features, mac, rx, num, ring }, Event::Frames(m)) => match m {
            None => fail_back(t, num, ring),
            Some(buf) => {
                let (q, regs): (Vq, Vec<Reg>) = setup_queue(t, 1, num, ring, buf);
                let ghost r0 = regs@;
                let ghost tx = q;
                let mut w: Vec<Reg> = regs;
                w.push(Reg { off: R_QUEUE_NOTIFY, val: 0 });
                w.push(Reg { off: R_STATUS, val: driver_ok(t) });
                let n: Net = Net::new(slot, t, mac, features, rx, q);
                proof {
                    assert(w@.take(w@.len() - 2) =~= r0);
                    assert(queue_set_up(t, 1, num, ring, buf, tx, w@.take(w@.len() - 2)));
                }
                (Probe::Ended, w, Ask::Ready(n))
            },
        },
        _ => fail(),
    }
}

/// A queue that cannot be set up keeps no frame: rings for which there are no
/// buffers are given back whole.
pub proof fn failed_queue_keeps_nothing(slot: usize, s: Probe, e: Event, s1: Probe, w: Seq<Reg>, ask: Ask)
    requires
        awaited(s, e),
        stepped(slot, s, e, s1, w, ask),
        e == Event::Frames(None),
    ensures
        ask is GiveUp,
        s is RxRing || s is TxRing ==> ask->free is None,
        s is RxBufs ==> ask->free is Some && (ask->free->0).0 == s->RxBufs_ring && asks_ring(
            s->RxBufs_t,
            s->RxBufs_num,
            Ask::Frames((ask->free->0).1),
        ),
        s is TxBufs ==> ask->free is Some && (ask->free->0).0 == s->TxBufs_ring && asks_ring(
            s->TxBufs_t,
            s->TxBufs_num,
            Ask::Frames((ask->free->0).1),
        ),
{
}

/// The status that lets the device run is written last, after both queues are
/// known to it; and a device that was touched and cannot be used is reset.
pub proof fn ready_comes_last(slot: usize, s: Probe, e: Event, s1: Probe, w: Seq<Reg>, ask: Ask)
    requires
        awaited(s, e),
        stepped(slot, s, e, s1, w, ask),
    ensures
        ask is Ready ==> s is TxBufs && w.last() == reg(R_STATUS, ready_status(ask->Ready_0.transport)),
        ask is GiveUp && !(s is Identify) ==> w.last() == reg(R_STATUS, 0),
{
    match (s, e) {
        (Probe::Address { t, features }, Event::Readings(l)) => {},
        _ => {},
    }
}

} // verus!
