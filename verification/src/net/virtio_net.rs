//! A polling virtio-net driver for the modern virtio-mmio transport.
//!
//! Descriptors and available rings are kept here and are to be copied to the
//! memory that the device sees after each call; what the device wrote comes in
//! as [`Used`].

use vstd::prelude::*;
use crate::net::virtio::{next16, pending, reg, Desc, Reg, Used, UsedElem, MAGIC_VALUE};

verus! {

pub const MMIO_DRV_FEATURES: usize = 0x020;
pub const MMIO_QUEUE_SEL: usize = 0x030;
pub const MMIO_QUEUE_NUM: usize = 0x038;
pub const MMIO_QUEUE_READY: usize = 0x044;
pub const MMIO_QUEUE_NOTIFY: usize = 0x050;
pub const MMIO_STATUS: usize = 0x070;
pub const MMIO_QUEUE_DESC_LOW: usize = 0x080;
pub const MMIO_QUEUE_DESC_HIGH: usize = 0x084;
pub const MMIO_QUEUE_AVAIL_LOW: usize = 0x090;
pub const MMIO_QUEUE_AVAIL_HIGH: usize = 0x094;
pub const MMIO_QUEUE_USED_LOW: usize = 0x0a0;
pub const MMIO_QUEUE_USED_HIGH: usize = 0x0a4;

pub const VIRTIO_FEATURES_OK: u32 = 8;

/// The features that are taken: the first version and the hardware address.
pub const FEATURES: u64 = 0x1_0000_0020;

pub const RX_QUEUE: usize = 0;
pub const TX_QUEUE: usize = 1;
pub const QUEUE_SIZE: usize = 128;

/// Size of the packet header.
pub const NET_HDR_SIZE: usize = 12;

/// The longest frame.
pub const FRAME_SIZE: usize = 1526;

/// What the registers of a slot say: magic number, version and device.
#[derive(Clone, Copy, PartialEq, Eq, Structural, Debug)]
pub struct SlotId {
    pub magic: u32,
    pub version: u32,
    pub device: u32,
}

pub open spec fn is_net(s: SlotId) -> bool {
    s.magic == MAGIC_VALUE && s.version == 2 && s.device == 1
}

/// The registers of a slot.
pub open spec fn slot_base(i: int) -> int {
    0x1000_1000 + i * 0x200
}

/// `b` are the registers of the first network device, if there is one.
pub open spec fn found_at(l: Seq<SlotId>, b: Option<usize>) -> bool {
    match b {
        Some(b) => exists|i: int|
            0 <= i < l.len() && is_net(#[trigger] l[i]) && b == slot_base(i) && forall|j: int|
                0 <= j < i ==> !is_net(#[trigger] l[j]),
        None => forall|i: int| 0 <= i < l.len() ==> !is_net(#[trigger] l[i]),
    }
}

/// The registers of the first slot with a modern network device.
pub fn find_device(slots: &Vec<SlotId>) -> (r: Option<usize>)
    requires
        slots@.len() <= 32,
    ensures
        found_at(slots@, r),
{
    let n: usize = slots.len();
    let mut i: usize = 0;
    while i < n
        invariant
            i <= n == slots@.len(),
            n <= 32,
            forall|j: int| 0 <= j < i ==> !is_net(#[trigger] slots@[j]),
        decreases n - i,
    {
        let s: SlotId = slots[i];
        if s.magic == MAGIC_VALUE && s.version == 2 && s.device == 1 {
            assert(is_net(slots@[i as int]));
            return Some(0x1000_1000 + i * 0x200);
        }
        i = i + 1;
    }
    None
}

/// The features to take of those that are offered.
pub fn choose_features(offered: u64) -> (r: u64)
    ensures
        r == offered & FEATURES,
{
    offered & FEATURES
}

/// Resets a device and makes the driver known.
pub open spec fn hello_regs() -> Seq<Reg> {
    seq![reg(MMIO_STATUS, 0), reg(MMIO_STATUS, 1), reg(MMIO_STATUS, 3)]
}

/// Tells the device the features to use. It must then keep `VIRTIO_FEATURES_OK`
/// in its status.
pub open spec fn feature_regs(features: u64) -> Seq<Reg> {
    seq![
        reg(MMIO_DRV_FEATURES, crate::net::virtio::low(features as int)),
        reg(0x024, crate::net::virtio::high(features as int)),
        reg(MMIO_STATUS, 11),
    ]
}

/// The registers that make a queue known.
pub open spec fn ring_regs(p: RingParts) -> Seq<Reg> {
    seq![
        reg(MMIO_QUEUE_NUM, 128),
        reg(MMIO_QUEUE_DESC_LOW, crate::net::virtio::low(p.desc as int)),
        reg(MMIO_QUEUE_DESC_HIGH, crate::net::virtio::high(p.desc as int)),
        reg(MMIO_QUEUE_AVAIL_LOW, crate::net::virtio::low(p.avail as int)),
        reg(MMIO_QUEUE_AVAIL_HIGH, crate::net::virtio::high(p.avail as int)),
        reg(MMIO_QUEUE_USED_LOW, crate::net::virtio::low(p.used as int)),
        reg(MMIO_QUEUE_USED_HIGH, crate::net::virtio::high(p.used as int)),
        reg(MMIO_QUEUE_READY, 1),
    ]
}

/// Where the parts of a queue are.
#[derive(Clone, Copy, PartialEq, Eq, Structural, Debug)]
pub struct RingParts {
    pub desc: u64,
    pub avail: u64,
    pub used: u64,
}

/// Makes a queue known to the device, which must offer `QUEUE_SIZE`
/// descriptors for it.
fn queue_regs(p: RingParts) -> (r: Vec<Reg>)
    ensures
        r@ == ring_regs(p),
{
    let l: Vec<Reg> = vec![
        Reg { off: MMIO_QUEUE_NUM, val: 128 },
        Reg { off: MMIO_QUEUE_DESC_LOW, val: (p.desc % 0x1_0000_0000) as u32 },
        Reg { off: MMIO_QUEUE_DESC_HIGH, val: (p.desc / 0x1_0000_0000) as u32 },
        Reg { off: MMIO_QUEUE_AVAIL_LOW, val: (p.avail % 0x1_0000_0000) as u32 },
        Reg { off: MMIO_QUEUE_AVAIL_HIGH, val: (p.avail / 0x1_0000_0000) as u32 },
        Reg { off: MMIO_QUEUE_USED_LOW, val: (p.used % 0x1_0000_0000) as u32 },
        Reg { off: MMIO_QUEUE_USED_HIGH, val: (p.used / 0x1_0000_0000) as u32 },
        Reg { off: MMIO_QUEUE_READY, val: 1 },
    ];
    proof {
        assert(l@ =~= ring_regs(p));
    }
    l
}

/// How far the probing for a device is.
#[derive(Clone, Copy, PartialEq, Eq, Debug)]
pub enum Probe {
    Find,
    Features,
    Status,
    Memory,
    RxSize { mac: [u8; 6], rx: RingParts, tx: RingParts },
    TxSize { mac: [u8; 6], tx: RingParts },
    Buffers { mac: [u8; 6] },
    Ended,
}

/// What came back for what was asked.
#[allow(inconsistent_fields)]
pub enum Event {
    Slots(Vec<SlotId>),
    Features(u64),
    Status(u32),
    /// The hardware address, and zeroed memory for both queues.
    Memory { mac: [u8; 6], rx: RingParts, tx: RingParts },
    /// How many descriptors a queue may have.
    Size(u32),
    /// A page for each descriptor of both queues.
    Buffers { rx: Vec<u64>, tx: Vec<u64> },
}

/// What to do next, once the registers were written.
pub enum Ask {
    /// The features of the device with these registers.
    Features { base: usize },
    Status,
    Memory,
    Size,
    Buffers,
    /// There is no device, or it refused the features.
    Absent,
    Ready(VirtioNet),
}

/// The event that a state waits for came; queues are large enough, and there is
/// a buffer for each descriptor.
pub open spec fn awaited(s: Probe, e: Event) -> bool {
    match (s, e) {
        (Probe::Find, Event::Slots(l)) => l@.len() <= 32,
        (Probe::Features, Event::Features(_)) => true,
        (Probe::Status, Event::Status(_)) => true,
        (Probe::Memory, Event::Memory { .. }) => true,
        (Probe::RxSize { .. }, Event::Size(n)) => n >= QUEUE_SIZE,
        (Probe::TxSize { .. }, Event::Size(n)) => n >= QUEUE_SIZE,
        (Probe::Buffers { .. }, Event::Buffers { rx, tx }) => rx@.len() == QUEUE_SIZE && tx@.len()
            == QUEUE_SIZE,
        _ => false,
    }
}

/// What a step comes to.
pub open spec fn stepped(s: Probe, e: Event, s1: Probe, w: Seq<Reg>, ask: Ask) -> bool {
    match (s, e) {
        (Probe::Find, Event::Slots(l)) => exists|b: Option<usize>|
            #[trigger] found_at(l@, b) && match b {
                None => s1 == Probe::Ended && w == Seq::<Reg>::empty() && ask is Absent,
                Some(base) => s1 == Probe::Features && w == hello_regs() && ask == (Ask::Features {
                    base,
                }),
            },
        (Probe::Features, Event::Features(f)) => s1 == Probe::Status && w == feature_regs(
            f & FEATURES,
        ) && ask is Status,
        (Probe::Status, Event::Status(st)) => {
            &&& w == Seq::<Reg>::empty()
            &&& if st & VIRTIO_FEATURES_OK == 0 {
                s1 == Probe::Ended && ask is Absent
            } else {
                s1 == Probe::Memory && ask is Memory
            }
        },
        (Probe::Memory, Event::Memory { mac, rx, tx }) => s1 == (Probe::RxSize { mac, rx, tx }) && w
            == seq![reg(MMIO_QUEUE_SEL, 0)] && ask is Size,
        (Probe::RxSize { mac, rx, tx }, Event::Size(_)) => s1 == (Probe::TxSize { mac, tx }) && w
            == ring_regs(rx).push(reg(MMIO_QUEUE_SEL, 1)) && ask is Size,
        (Probe::TxSize { mac, tx }, Event::Size(_)) => s1 == (Probe::Buffers { mac }) && w
            == ring_regs(tx).push(reg(MMIO_STATUS, 15)) && ask is Buffers,
        (Probe::Buffers { mac }, Event::Buffers { rx, tx }) => {
            &&& s1 == Probe::Ended
            &&& w == seq![reg(MMIO_QUEUE_NOTIFY, 0)]
            &&& ask is Ready
            &&& fresh_net(ask->Ready_0, mac, rx, tx)
        },
        _ => true,
    }
}

/// Goes one step on: the state after an event, the registers to write, and what
/// to do after that.
pub fn probe(s: Probe, e: Event) -> (r: (Probe, Vec<Reg>, Ask))
    requires
        awaited(s, e),
    ensures
        stepped(s, e, r.0, r.1@, r.2),
        r.2 is Ready ==> r.2->Ready_0.wf(),
{
    let mut w: Vec<Reg> = Vec::new();
    match (s, e) {
        (Probe::Find, Event::Slots(l)) => {
            let b: Option<usize> = find_device(&l);
            proof {
                assert(found_at(l@, b));
            }
            match b {
                None => (Probe::Ended, w, Ask::Absent),
                Some(base) => {
                    w.push(Reg { off: MMIO_STATUS, val: 0 });
                    w.push(Reg { off: MMIO_STATUS, val: 1 });
                    w.push(Reg { off: MMIO_STATUS, val: 3 });
                    proof {
                        assert(w@ =~= hello_regs());
                    }
                    (Probe::Features, w, Ask::Features { base })
                },
            }
        },
        (Probe::Features, Event::Features(f)) => {
            let x: u64 = choose_features(f);
            w.push(Reg { off: MMIO_DRV_FEATURES, val: (x % 0x1_0000_0000) as u32 });
            w.push(Reg { off: 0x024, val: (x / 0x1_0000_0000) as u32 });
            w.push(Reg { off: MMIO_STATUS, val: 11 });
            proof {
                assert(w@ =~= feature_regs(f & FEATURES));
            }
            (Probe::Status, w, Ask::Status)
        },
        (Probe::Status, Event::Status(st)) => {
            if st & VIRTIO_FEATURES_OK == 0 {
                return (Probe::Ended, w, Ask::Absent);
            }
            (Probe::Memory, w, Ask::Memory)
        },
        (Probe::Memory, Event::Memory { mac, rx, tx }) => {
            w.push(Reg { off: MMIO_QUEUE_SEL, val: RX_QUEUE as u32 });
            proof {
                assert(w@ =~= seq![reg(MMIO_QUEUE_SEL, 0)]);
            }
            (Probe::RxSize { mac, rx, tx }, w, Ask::Size)
        },
        (Probe::RxSize { mac, rx, tx }, Event::Size(_)) => {
            let mut w: Vec<Reg> = queue_regs(rx);
            w.push(Reg { off: MMIO_QUEUE_SEL, val: TX_QUEUE as u32 });
            (Probe::TxSize { mac, tx }, w, Ask::Size)
        },
        (Probe::TxSize { mac, tx }, Event::Size(_)) => {
            let mut w: Vec<Reg> = queue_regs(tx);
            w.push(Reg { off: MMIO_STATUS, val: 15 });
            (Probe::Buffers { mac }, w, Ask::Buffers)
        },
        (Probe::Buffers { mac }, Event::Buffers { rx, tx }) => {
            w.push(Reg { off: MMIO_QUEUE_NOTIFY, val: RX_QUEUE as u32 });
            proof {
                assert(w@ =~= seq![reg(MMIO_QUEUE_NOTIFY, 0)]);
            }
            (Probe::Ended, w, Ask::Ready(VirtioNet::new(mac, rx, tx)))
        },
        _ => (Probe::Ended, w, Ask::Absent),
    }
}

/// How many pages to take for a block of memory with an alignment.
pub fn block_pages(bytes: usize, align: usize) -> (r: usize)
    requires
        bytes + align + 0x1000 <= usize::MAX,
    ensures
        r == (bytes + align + 0xfff) / 0x1000 + 1,
{
    (bytes + align + 0xfff) / 0x1000 + 1
}

/// Page `i` can be the first of `need` pages with an alignment.
pub open spec fn aligned_at(chain: Seq<u64>, align: int, need: int, i: int) -> bool {
    chain[i] as int % align == 0 && i + need <= chain.len()
}

/// The page that a block begins at: the first that is aligned, where the
/// alignment is more than a page, else the first of all.
pub open spec fn is_start(chain: Seq<u64>, align: int, need: int, i: int) -> bool {
    if align > 0x1000 {
        ||| {
            &&& 0 <= i < chain.len() && aligned_at(chain, align, need, i)
            &&& forall|j: int| 0 <= j < i ==> !#[trigger] aligned_at(chain, align, need, j)
        }
        ||| i == 0 && forall|j: int|
            0 <= j < chain.len() ==> !#[trigger] aligned_at(chain, align, need, j)
    } else {
        i == 0
    }
}

pub open spec fn contiguous(chain: Seq<u64>, i: int, need: int) -> bool {
    i + need <= chain.len() && forall|k: int|
        0 <= k < need ==> #[trigger] chain[i + k] == chain[i] + k * 0x1000
}

/// The start of a block in pages that were taken one after the other; `None`
/// where they do not lie in a row.
#[verifier::loop_isolation(false)]
pub fn block_start(chain: &Vec<u64>, bytes: usize, align: usize) -> (r: Option<u64>)
    requires
        bytes + 0x1000 <= usize::MAX,
        chain@.len() > 0,
        align > 0,
    ensures
        ({
            let need = (bytes + 0xfff) / 0x1000;
            exists|i: int|
                #[trigger] is_start(chain@, align as int, need, i) && 0 <= i < chain@.len() && (if contiguous(
                    chain@,
                    i,
                    need,
                ) {
                    r == Some(chain@[i])
                } else {
                    r is None
                })
        }),
{
    let need: usize = (bytes + 0xfff) / 0x1000;
    let n: usize = chain.len();
    let mut start: usize = 0;
    if align > 0x1000 {
        let mut i: usize = 0;
        let mut found: bool = false;
        while i < n && !found
            invariant
                i <= n,
                n == chain@.len(),
                !found ==> start == 0,
                !found ==> forall|j: int|
                    0 <= j < i ==> !#[trigger] aligned_at(
                        chain@,
                        align as int,
                        need as int,
                        j,
                    ),
                found ==> start < n && aligned_at(
                    chain@,
                    align as int,
                    need as int,
                    start as int,
                ) && forall|j: int|
                    0 <= j < start ==> !#[trigger] aligned_at(
                        chain@,
                        align as int,
                        need as int,
                        j,
                    ),
            decreases n - i, !found as int,
        {
            if chain[i] % (align as u64) == 0 && need <= n - i {
                start = i;
                found = true;
            } else {
                i = i + 1;
            }
        }
    }
    proof {
        assert(is_start(chain@, align as int, need as int, start as int));
    }
    if need > n - start {
        assert(!contiguous(chain@, start as int, need as int));
        return None;
    }
    let first: u64 = chain[start];
    let mut k: usize = 0;
    while k < need
        invariant
            k <= need,
            start + need <= chain@.len(),
            first == chain@[start as int],
            forall|j: int|
                0 <= j < k ==> #[trigger] chain@[start + j] == chain@[start as int] + j * 0x1000,
        decreases need - k,
    {
        let want: u128 = first as u128 + k as u128 * 0x1000;
        if chain[start + k] as u128 != want {
            assert(chain@[start + k] != chain@[start as int] + k * 0x1000);
            return None;
        }
        k = k + 1;
    }
    Some(first)
}

/// The driver side of a queue.
pub struct Ring {
    pub desc: Vec<Desc>,
    pub avail_idx: u16,
    pub avail: Vec<u16>,
}

pub struct RingView {
    pub desc: Seq<Desc>,
    pub avail_idx: u16,
    pub avail: Seq<u16>,
}

impl View for Ring {
    type V = RingView;

    open spec fn view(&self) -> RingView {
        RingView { desc: self.desc@, avail_idx: self.avail_idx, avail: self.avail@ }
    }
}

/// The available ring as the device reads it.
pub struct Avail {
    pub flags: u16,
    pub idx: u16,
    pub ring: Vec<u16>,
    pub used_event: u16,
}

/// A queue after a descriptor was set and made available.
pub open spec fn submitted(r: RingView, id: int, d: Desc) -> RingView {
    RingView {
        desc: r.desc.update(id, d),
        avail: r.avail.update(r.avail_idx as int % QUEUE_SIZE as int, id as u16),
        avail_idx: next16(r.avail_idx),
    }
}

/// A queue in zeroed memory.
pub open spec fn blank_ring() -> RingView {
    RingView {
        desc: Seq::new(QUEUE_SIZE as nat, |i: int| Desc { addr: 0, len: 0, flags: 0, next: 0 }),
        avail_idx: 0,
        avail: Seq::new(QUEUE_SIZE as nat, |i: int| 0u16),
    }
}

/// The numbers of all descriptors.
pub open spec fn every_id() -> Seq<usize> {
    Seq::new(QUEUE_SIZE as nat, |i: int| i as usize)
}

impl Ring {
    pub open spec fn wf(&self) -> bool {
        self.desc@.len() == QUEUE_SIZE && self.avail@.len() == QUEUE_SIZE
    }

    /// The available ring that is to be put into the device's memory.
    pub fn avail(&self) -> (r: Avail)
        ensures
            r.flags == 0,
            r.idx == self.avail_idx,
            r.ring@ == self.avail@,
            r.used_event == 0,
    {
        let n: usize = self.avail.len();
        let mut ring: Vec<u16> = Vec::new();
        let mut i: usize = 0;
        while i < n
            invariant
                i <= n == self.avail@.len(),
                ring@ == self.avail@.take(i as int),
            decreases n - i,
        {
            ring.push(self.avail[i]);
            proof {
                assert(ring@ =~= self.avail@.take(i + 1));
            }
            i = i + 1;
        }
        proof {
            assert(ring@ =~= self.avail@);
        }
        Avail { flags: 0, idx: self.avail_idx, ring, used_event: 0 }
    }

    pub fn new() -> (r: Ring)
        ensures
            r.wf(),
            r@ == blank_ring(),
    {
        let mut desc: Vec<Desc> = Vec::new();
        let mut avail: Vec<u16> = Vec::new();
        let mut i: usize = 0;
        while i < QUEUE_SIZE
            invariant
                i <= QUEUE_SIZE,
                desc@ =~= blank_ring().desc.take(i as int),
                avail@ =~= blank_ring().avail.take(i as int),
            decreases QUEUE_SIZE - i,
        {
            desc.push(Desc { addr: 0, len: 0, flags: 0, next: 0 });
            avail.push(0);
            i = i + 1;
        }
        proof {
            assert(desc@ =~= blank_ring().desc);
            assert(avail@ =~= blank_ring().avail);
        }
        Ring { desc, avail_idx: 0, avail }
    }

    fn submit(&mut self, id: usize, d: Desc)
        requires
            old(self).wf(),
            id < QUEUE_SIZE,
        ensures
            final(self).wf(),
            final(self)@ == submitted(old(self)@, id as int, d),
    {
        self.desc.set(id, d);
        let slot: usize = self.avail_idx as usize % QUEUE_SIZE;
        self.avail.set(slot, id as u16);
        self.avail_idx = self.avail_idx.wrapping_add(1);
    }
}

pub struct VirtioNet {
    pub mac: [u8; 6],
    pub rx: Ring,
    pub tx: Ring,
    /// Addresses of the buffers.
    pub rx_buffers: Vec<u64>,
    pub tx_buffers: Vec<u64>,
    /// Free descriptors; the last goes first.
    pub rx_free: Vec<usize>,
    pub tx_free: Vec<usize>,
    pub rx_used_seen: u16,
    pub tx_used_seen: u16,
}

pub open spec fn rx_desc(addr: u64) -> Desc {
    Desc { addr, len: (NET_HDR_SIZE + FRAME_SIZE) as u32, flags: 2, next: 0 }
}

/// The receive queue after all free buffers were given to the device.
pub open spec fn refilled(r: RingView, bufs: Seq<u64>, free: Seq<usize>) -> RingView
    decreases free.len(),
{
    if free.len() == 0 {
        r
    } else {
        refilled(
            submitted(r, free.last() as int, rx_desc(bufs[free.last() as int])),
            bufs,
            free.drop_last(),
        )
    }
}

pub open spec fn all_ids(l: Seq<usize>) -> bool {
    forall|i: int| 0 <= i < l.len() ==> #[trigger] l[i] < QUEUE_SIZE
}

/// The device names only descriptors that exist.
pub open spec fn used_ok(u: Used) -> bool {
    u.ring@.len() == QUEUE_SIZE && forall|i: int|
        0 <= i < QUEUE_SIZE ==> (#[trigger] u.ring@[i]).id < QUEUE_SIZE
}

/// The free send descriptors after all finished ones were taken back.
pub open spec fn reaped(free: Seq<usize>, seen: u16, idx: u16, ring: Seq<UsedElem>) -> Seq<usize>
    decreases pending(seen, idx),
{
    if seen == idx {
        free
    } else {
        reaped(
            free.push(ring[seen as int % QUEUE_SIZE as int].id as usize),
            next16(seen),
            idx,
            ring,
        )
    }
}

pub open spec fn shorter(a: int, b: int) -> int {
    if a < b {
        a
    } else {
        b
    }
}

/// The size of the frame in a buffer with `total` bytes.
pub open spec fn frame_len(total: int) -> int {
    shorter(
        if total >= NET_HDR_SIZE {
            total - NET_HDR_SIZE
        } else {
            0
        },
        FRAME_SIZE as int,
    )
}

/// What sending a frame came to.
pub enum SendStep {
    /// The frame is too long and was dropped.
    TooLong,
    /// No descriptor is free yet.
    Full,
    /// These bytes are for the buffer of this descriptor; the device is to be
    /// notified.
    Packet { id: usize, data: Vec<u8> },
}

/// A device with all send descriptors free, to which all receive buffers were
/// given.
pub open spec fn fresh_net(r: VirtioNet, mac: [u8; 6], rx_buffers: Vec<u64>, tx_buffers: Vec<u64>) -> bool {
    &&& r.mac == mac
    &&& r.rx_free@.len() == 0
    &&& r.rx@ == refilled(blank_ring(), rx_buffers@, every_id())
    &&& r.rx.avail_idx == QUEUE_SIZE
    &&& forall|i: int|
        0 <= i < QUEUE_SIZE ==> #[trigger] r.rx.desc@[i] == rx_desc(rx_buffers@[i])
    &&& r.tx@ == blank_ring()
    &&& r.tx_free@ == every_id()
    &&& r.rx_buffers == rx_buffers
    &&& r.tx_buffers == tx_buffers
    &&& r.rx_used_seen == 0
    &&& r.tx_used_seen == 0
}

impl VirtioNet {
    pub open spec fn wf(&self) -> bool {
        &&& self.rx.wf()
        &&& self.tx.wf()
        &&& self.rx_buffers@.len() == QUEUE_SIZE
        &&& self.tx_buffers@.len() == QUEUE_SIZE
        &&& all_ids(self.rx_free@)
        &&& all_ids(self.tx_free@)
    }

    /// What a call on one queue leaves alone.
    pub open spec fn same_tx(&self, o: VirtioNet) -> bool {
        self.mac == o.mac && self.tx == o.tx && self.rx_buffers == o.rx_buffers && self.tx_buffers
            == o.tx_buffers && self.tx_free == o.tx_free && self.tx_used_seen == o.tx_used_seen
    }

    pub open spec fn same_rx(&self, o: VirtioNet) -> bool {
        self.mac == o.mac && self.rx == o.rx && self.rx_buffers == o.rx_buffers && self.tx_buffers
            == o.tx_buffers && self.rx_free == o.rx_free && self.rx_used_seen == o.rx_used_seen
    }

    /// A device with all its descriptors free; the receive buffers are given to
    /// it at once.
    pub fn new(mac: [u8; 6], rx_buffers: Vec<u64>, tx_buffers: Vec<u64>) -> (r: VirtioNet)
        requires
            rx_buffers@.len() == QUEUE_SIZE,
            tx_buffers@.len() == QUEUE_SIZE,
        ensures
            r.wf(),
            fresh_net(r, mac, rx_buffers, tx_buffers),
    {
        let mut rx_free: Vec<usize> = Vec::new();
        let mut tx_free: Vec<usize> = Vec::new();
        let mut i: usize = 0;
        while i < QUEUE_SIZE
            invariant
                i <= QUEUE_SIZE,
                rx_free@.len() == i,
                tx_free@.len() == i,
                forall|j: int| 0 <= j < i ==> #[trigger] rx_free@[j] == j,
                forall|j: int| 0 <= j < i ==> #[trigger] tx_free@[j] == j,
            decreases QUEUE_SIZE - i,
        {
            rx_free.push(i);
            tx_free.push(i);
            i = i + 1;
        }
        proof {
            assert(tx_free@ =~= every_id());
            assert(rx_free@ =~= every_id());
        }
        let ghost bufs = rx_buffers@;
        let mut r = VirtioNet {
            mac,
            rx: Ring::new(),
            tx: Ring::new(),
            rx_buffers,
            tx_buffers,
            rx_free,
            tx_free,
            rx_used_seen: 0,
            tx_used_seen: 0,
        };
        proof {
            lemma_refill_all(r.rx@, bufs, r.rx_free@);
        }
        r.refill_rx();
        r
    }

    /// Gives all free receive buffers to the device. Tells whether there were
    /// any, and the device is to be notified.
    pub fn refill_rx(&mut self) -> (notify: bool)
        requires
            old(self).wf(),
        ensures
            final(self).wf(),
            final(self).same_tx(*old(self)),
            final(self).rx_used_seen == old(self).rx_used_seen,
            notify == (old(self).rx_free@.len() > 0),
            final(self).rx_free@.len() == 0,
            final(self).rx@ == refilled(old(self).rx@, old(self).rx_buffers@, old(self).rx_free@),
    {
        let mut notify: bool = false;
        let ghost all = refilled(self.rx@, self.rx_buffers@, self.rx_free@);
        while self.rx_free.len() > 0
            invariant
                self.wf(),
                self.same_tx(*old(self)),
                self.rx_used_seen == old(self).rx_used_seen,
                notify || self.rx_free@ == old(self).rx_free@,
                notify ==> old(self).rx_free@.len() > 0,
                refilled(self.rx@, self.rx_buffers@, self.rx_free@) == all,
            decreases self.rx_free@.len(),
        {
            let ghost free = self.rx_free@;
            match self.rx_free.pop() {
                Some(id) => {
                    proof {
                        assert(free.last() < QUEUE_SIZE);
                        assert(self.rx_free@ =~= free.drop_last());
                        assert forall|i: int| 0 <= i < self.rx_free@.len() implies #[trigger] self.rx_free@[i]
                            < QUEUE_SIZE by {
                            assert(self.rx_free@[i] == free[i]);
                        }
                    }
                    let addr: u64 = self.rx_buffers[id];
                    self.rx.submit(
                        id,
                        Desc {
                            addr,
                            len: (NET_HDR_SIZE + FRAME_SIZE) as u32,
                            flags: 2,
                            next: 0,
                        },
                    );
                    notify = true;
                },
                None => {},
            }
        }
        notify
    }

    /// Takes back the descriptors of packets that were sent.
    pub fn reap_tx(&mut self, used: &Used)
        requires
            old(self).wf(),
            used_ok(*used),
        ensures
            final(self).wf(),
            final(self).same_rx(*old(self)),
            final(self).tx == old(self).tx,
            final(self).tx_used_seen == used.idx,
            final(self).tx_free@ == reaped(
                old(self).tx_free@,
                old(self).tx_used_seen,
                used.idx,
                used.ring@,
            ),
    {
        let ghost all = reaped(self.tx_free@, self.tx_used_seen, used.idx, used.ring@);
        let mut n: u16 = self.tx_used_seen;
        while n != used.idx
            invariant
                self.wf(),
                used_ok(*used),
                self.same_rx(*old(self)),
                self.tx == old(self).tx,
                reaped(self.tx_free@, n, used.idx, used.ring@) == all,
            decreases pending(n, used.idx),
        {
            let slot: usize = n as usize % QUEUE_SIZE;
            let id: usize = used.ring[slot].id as usize;
            let ghost free = self.tx_free@;
            self.tx_free.push(id);
            proof {
                assert(used.ring@[slot as int].id < QUEUE_SIZE);
                assert forall|i: int| 0 <= i < self.tx_free@.len() implies #[trigger] self.tx_free@[i]
                    < QUEUE_SIZE by {
                    if i < free.len() {
                        assert(self.tx_free@[i] == free[i]);
                    }
                }
            }
            n = n.wrapping_add(1);
        }
        self.tx_used_seen = n;
    }

    /// Looks for a received frame: the descriptor whose buffer it is in, and its
    /// size behind the header. The frame must be copied out before the rings go
    /// to the device, which gets the buffer back.
    pub fn receive(&mut self, rx_used: &Used, tx_used: &Used) -> (r: Option<(usize, usize)>)
        requires
            old(self).wf(),
            used_ok(*rx_used),
            used_ok(*tx_used),
        ensures
            final(self).wf(),
            final(self).mac == old(self).mac,
            final(self).tx == old(self).tx,
            final(self).tx_used_seen == tx_used.idx,
            final(self).tx_free@ == reaped(
                old(self).tx_free@,
                old(self).tx_used_seen,
                tx_used.idx,
                tx_used.ring@,
            ),
            final(self).rx_free@.len() == 0,
            final(self).rx_buffers == old(self).rx_buffers,
            final(self).tx_buffers == old(self).tx_buffers,
            ({
                let e = rx_used.ring@[old(self).rx_used_seen as int % QUEUE_SIZE as int];
                if old(self).rx_used_seen == rx_used.idx {
                    &&& r is None
                    &&& final(self).rx_used_seen == old(self).rx_used_seen
                    &&& final(self).rx@ == refilled(
                        old(self).rx@,
                        old(self).rx_buffers@,
                        old(self).rx_free@,
                    )
                } else {
                    &&& r is Some
                    &&& (r->0).0 == e.id
                    &&& (r->0).1 == frame_len(e.len as int)
                    &&& final(self).rx_used_seen == next16(old(self).rx_used_seen)
                    &&& final(self).rx@ == refilled(
                        old(self).rx@,
                        old(self).rx_buffers@,
                        old(self).rx_free@.push(e.id as usize),
                    )
                }
            }),
    {
        self.reap_tx(tx_used);
        let seen: u16 = self.rx_used_seen;
        if seen == rx_used.idx {
            self.refill_rx();
            return None;
        }
        let slot: usize = seen as usize % QUEUE_SIZE;
        let e: UsedElem = rx_used.ring[slot];
        proof {
            assert(rx_used.ring@[slot as int].id < QUEUE_SIZE);
        }
        self.rx_used_seen = seen.wrapping_add(1);
        let id: usize = e.id as usize;
        let total: usize = e.len as usize;
        let body: usize = if total >= NET_HDR_SIZE {
            total - NET_HDR_SIZE
        } else {
            0
        };
        let len: usize = if body < FRAME_SIZE {
            body
        } else {
            FRAME_SIZE
        };
        let ghost free = self.rx_free@;
        self.rx_free.push(id);
        proof {
            assert forall|i: int| 0 <= i < self.rx_free@.len() implies #[trigger] self.rx_free@[i]
                < QUEUE_SIZE by {
                if i < free.len() {
                    assert(self.rx_free@[i] == free[i]);
                }
            }
        }
        self.refill_rx();
        Some((id, len))
    }

    /// One attempt to send a frame.
    pub fn send(&mut self, tx_used: &Used, frame: &[u8]) -> (r: SendStep)
        requires
            old(self).wf(),
            used_ok(*tx_used),
        ensures
            final(self).wf(),
            final(self).same_rx(*old(self)),
            frame@.len() > FRAME_SIZE ==> r is TooLong && *final(self) == *old(self),
            frame@.len() <= FRAME_SIZE ==> {
                let free = if old(self).tx_free@.len() > 0 {
                    old(self).tx_free@
                } else {
                    reaped(
                        old(self).tx_free@,
                        old(self).tx_used_seen,
                        tx_used.idx,
                        tx_used.ring@,
                    )
                };
                if free.len() == 0 {
                    r is Full && final(self).tx == old(self).tx && final(self).tx_free@ == free
                } else {
                    let id = free.last() as int;
                    &&& r is Packet
                    &&& r->id == id
                    &&& r->data@ == crate::bytes::zeros(NET_HDR_SIZE as nat) + frame@
                    &&& final(self).tx_free@ == free.drop_last()
                    &&& final(self).tx@ == submitted(
                        old(self).tx@,
                        id,
                        Desc {
                            addr: old(self).tx_buffers@[id],
                            len: (NET_HDR_SIZE + frame@.len()) as u32,
                            flags: 0,
                            next: 0,
                        },
                    )
                }
            },
    {
        if frame.len() > FRAME_SIZE {
            return SendStep::TooLong;
        }
        if self.tx_free.len() == 0 {
            self.reap_tx(tx_used);
        }
        let ghost free = self.tx_free@;
        match self.tx_free.pop() {
            None => SendStep::Full,
            Some(id) => {
                proof {
                    assert(free.last() < QUEUE_SIZE);
                    assert(self.tx_free@ =~= free.drop_last());
                    assert forall|i: int| 0 <= i < self.tx_free@.len() implies #[trigger] self.tx_free@[i]
                        < QUEUE_SIZE by {
                        assert(self.tx_free@[i] == free[i]);
                    }
                }
                let addr: u64 = self.tx_buffers[id];
                self.tx.submit(
                    id,
                    Desc { addr, len: (NET_HDR_SIZE + frame.len()) as u32, flags: 0, next: 0 },
                );
                let mut data: Vec<u8> = Vec::new();
                crate::bytes::put_zeros(&mut data, NET_HDR_SIZE);
                data.extend_from_slice(frame);
                proof {
                    assert(data@ =~= crate::bytes::zeros(NET_HDR_SIZE as nat) + frame@);
                }
                SendStep::Packet { id, data }
            },
        }
    }

    pub fn mac(&self) -> (r: [u8; 6])
        ensures
            r == self.mac,
    {
        self.mac
    }

    /// Whether a frame can be sent now.
    pub fn tx_available(&mut self, used: &Used) -> (r: bool)
        requires
            old(self).wf(),
            used_ok(*used),
        ensures
            final(self).wf(),
            final(self).same_rx(*old(self)),
            final(self).tx == old(self).tx,
            final(self).tx_used_seen == used.idx,
            final(self).tx_free@ == reaped(
                old(self).tx_free@,
                old(self).tx_used_seen,
                used.idx,
                used.ring@,
            ),
            r == (final(self).tx_free@.len() > 0),
    {
        self.reap_tx(used);
        self.tx_free.len() > 0
    }
}

proof fn lemma_refill_all(r: RingView, bufs: Seq<u64>, free: Seq<usize>)
    requires
        r.desc.len() == QUEUE_SIZE,
        free.len() <= QUEUE_SIZE,
        r.avail_idx + free.len() <= QUEUE_SIZE,
        forall|i: int| 0 <= i < free.len() ==> #[trigger] free[i] == i,
        forall|i: int| free.len() <= i < QUEUE_SIZE ==> #[trigger] r.desc[i] == rx_desc(bufs[i]),
    ensures
        refilled(r, bufs, free).avail_idx == r.avail_idx + free.len(),
        refilled(r, bufs, free).desc.len() == QUEUE_SIZE,
        forall|i: int|
            0 <= i < QUEUE_SIZE ==> #[trigger] refilled(r, bufs, free).desc[i] == rx_desc(bufs[i]),
    decreases free.len(),
{
    if free.len() > 0 {
        let id = free.last() as int;
        assert(free[free.len() - 1] == free.len() - 1);
        let r1 = submitted(r, id, rx_desc(bufs[id]));
        let f1 = free.drop_last();
        assert forall|i: int| 0 <= i < f1.len() implies #[trigger] f1[i] == i by {
            assert(free[i] == i);
        }
        assert forall|i: int| f1.len() <= i < QUEUE_SIZE implies #[trigger] r1.desc[i] == rx_desc(
            bufs[i],
        ) by {
            if i != id {
                assert(r.desc[i] == rx_desc(bufs[i]));
            }
        }
        lemma_refill_all(r1, bufs, f1);
    }
}

/// A descriptor that is submitted is the next that is available, and no other one
/// changes.
pub proof fn submitted_is_available(r: RingView, id: int, d: Desc, k: int)
    requires
        0 <= id < QUEUE_SIZE,
        0 <= k < QUEUE_SIZE,
        r.desc.len() == QUEUE_SIZE,
        r.avail.len() == QUEUE_SIZE,
    ensures
        submitted(r, id, d).desc[id] == d,
        k != id ==> submitted(r, id, d).desc[k] == r.desc[k],
        submitted(r, id, d).avail[r.avail_idx as int % QUEUE_SIZE as int] == id,
        submitted(r, id, d).avail_idx as int == (r.avail_idx + 1) % 0x1_0000,
{
}

/// The frame in a buffer is what the device wrote without the header of twelve bytes.
pub proof fn frame_is_behind_the_header(total: int)
    requires
        12 <= total <= 12 + 1526,
    ensures
        frame_len(total) == total - 12,
        rx_desc(0).len == 12 + 1526,
        rx_desc(0).flags == 2,
{
}

/// Every send descriptor that the device has finished with is free again, behind
/// those that were free.
pub proof fn finished_are_free(free: Seq<usize>, seen: u16, idx: u16, ring: Seq<UsedElem>)
    ensures
        reaped(free, seen, idx, ring).len() == free.len() + pending(seen, idx),
        reaped(free, seen, idx, ring).take(free.len() as int) == free,
        seen != idx ==> reaped(free, seen, idx, ring)[free.len() as int] == ring[seen as int
            % QUEUE_SIZE as int].id as usize,
    decreases pending(seen, idx),
{
    if seen == idx {
        assert(free.take(free.len() as int) =~= free);
    } else {
        let x = ring[seen as int % QUEUE_SIZE as int].id as usize;
        let g = free.push(x);
        finished_are_free(g, next16(seen), idx, ring);
        let r = reaped(free, seen, idx, ring);
        assert(r.take(g.len() as int) == g);
        assert(r.take(free.len() as int) =~= free) by {
            assert forall|i: int| 0 <= i < free.len() implies r[i] == free[i] by {
                assert(r.take(g.len() as int)[i] == g[i]);
            }
        }
        assert(r.take(g.len() as int)[free.len() as int] == x);
    }
}

/// The receive buffers that are free are all given to the device, each in its own
/// descriptor.
pub proof fn free_buffers_are_given(r: RingView, bufs: Seq<u64>, free: Seq<usize>, k: int)
    requires
        all_ids(free),
        free.no_duplicates(),
        0 <= k < free.len(),
        r.desc.len() == QUEUE_SIZE,
        r.avail.len() == QUEUE_SIZE,
    ensures
        refilled(r, bufs, free).desc.len() == QUEUE_SIZE,
        refilled(r, bufs, free).desc[free[k] as int].addr == bufs[free[k] as int],
        refilled(r, bufs, free).desc[free[k] as int].flags == 2,
    decreases free.len(),
{
    let x = free.last();
    assert(free[free.len() - 1] == x);
    let s = submitted(r, x as int, rx_desc(bufs[x as int]));
    let rest = free.drop_last();
    assert(all_ids(rest)) by {
        assert forall|i: int| 0 <= i < rest.len() implies #[trigger] rest[i] < QUEUE_SIZE by {
            assert(rest[i] == free[i]);
        }
    }
    if k < rest.len() {
        free_buffers_are_given(s, bufs, rest, k);
        assert(rest[k] == free[k]);
    } else {
        assert forall|i: int| 0 <= i < rest.len() implies #[trigger] rest[i] != x by {
            assert(rest[i] == free[i]);
        }
        lemma_refill_frame(s, bufs, rest, x as int);
    }
}

proof fn lemma_refill_frame(r: RingView, bufs: Seq<u64>, free: Seq<usize>, id: int)
    requires
        all_ids(free),
        0 <= id < QUEUE_SIZE,
        r.desc.len() == QUEUE_SIZE,
        forall|i: int| 0 <= i < free.len() ==> #[trigger] free[i] != id,
    ensures
        refilled(r, bufs, free).desc.len() == QUEUE_SIZE,
        refilled(r, bufs, free).desc[id] == r.desc[id],
    decreases free.len(),
{
    if free.len() > 0 {
        let x = free.last();
        assert(free[free.len() - 1] == x);
        let rest = free.drop_last();
        assert forall|i: int| 0 <= i < rest.len() implies #[trigger] rest[i] < QUEUE_SIZE && rest[i]
            != id by {
            assert(rest[i] == free[i]);
        }
        lemma_refill_frame(submitted(r, x as int, rx_desc(bufs[x as int])), bufs, rest, id);
    }
}

} // verus!
