//! A virtio-net driver for both virtio-mmio transports: what is written to the
//! registers, how the rings are laid out, and how buffers go round.
//!
//! The driver side of the rings is kept here; what the device wrote comes in as
//! [`Used`].

use vstd::prelude::*;
use crate::net::GUEST_MAC;

verus! {

// Register offsets.
pub const R_MAGIC: usize = 0x000;
pub const R_VERSION: usize = 0x004;
pub const R_DEVICE_ID: usize = 0x008;
pub const R_VENDOR_ID: usize = 0x00c;
pub const R_DEVICE_FEATURES: usize = 0x010;
pub const R_DEVICE_FEATURES_SEL: usize = 0x014;
pub const R_DRIVER_FEATURES: usize = 0x020;
pub const R_DRIVER_FEATURES_SEL: usize = 0x024;
pub const R_GUEST_PAGE_SIZE: usize = 0x028;
pub const R_QUEUE_SEL: usize = 0x030;
pub const R_QUEUE_NUM_MAX: usize = 0x034;
pub const R_QUEUE_NUM: usize = 0x038;
pub const R_QUEUE_ALIGN: usize = 0x03c;
pub const R_QUEUE_PFN: usize = 0x040;
pub const R_QUEUE_READY: usize = 0x044;
pub const R_QUEUE_NOTIFY: usize = 0x050;
pub const R_INTERRUPT_STATUS: usize = 0x060;
pub const R_INTERRUPT_ACK: usize = 0x064;
pub const R_STATUS: usize = 0x070;
pub const R_QUEUE_DESC_LOW: usize = 0x080;
pub const R_QUEUE_DESC_HIGH: usize = 0x084;
pub const R_QUEUE_DRIVER_LOW: usize = 0x090;
pub const R_QUEUE_DRIVER_HIGH: usize = 0x094;
pub const R_QUEUE_DEVICE_LOW: usize = 0x0a0;
pub const R_QUEUE_DEVICE_HIGH: usize = 0x0a4;
pub const R_CONFIG_GENERATION: usize = 0x0fc;
pub const R_CONFIG: usize = 0x100;

pub const MAGIC_VALUE: u32 = 0x7472_6976;
pub const VENDOR_QEMU: u32 = 0x554d_4551;
pub const DEVICE_ID_NET: u32 = 1;

/// The device has a hardware address.
pub const FEAT_MAC: u32 = 0x20;

/// In the second feature word: the modern transport.
pub const FEAT_VERSION_1_WORD1: u32 = 1;

pub const ST_FEATURES_OK: u32 = 8;

/// The device writes to the buffer.
pub const VIRTQ_DESC_F_WRITE: u16 = 2;

/// Alignment of the rings on the legacy transport.
pub const LEGACY_ALIGN: usize = 4096;

/// Descriptors per queue.
pub const QUEUE_NUM: u16 = 128;

/// Size of a buffer: a header and a whole frame.
pub const BUF_SIZE: usize = 2048;

/// Size of the packet header on the legacy transport.
pub const HDR_LEGACY: usize = 10;

/// Size of the packet header on the modern transport.
pub const HDR_MODERN: usize = 12;

pub const SLOT_BASE: usize = 0x1000_1000;
pub const SLOT_STRIDE: usize = 0x1000;
pub const MAX_SLOTS: usize = 8;

/// Which transport a device speaks.
#[derive(Clone, Copy, PartialEq, Eq, Structural, Debug)]
pub enum Transport {
    Legacy,
    Modern,
}

/// A value for a register.
#[derive(Clone, Copy, PartialEq, Eq, Structural, Debug)]
pub struct Reg {
    pub off: usize,
    pub val: u32,
}

pub open spec fn reg(off: usize, val: u32) -> Reg {
    Reg { off, val }
}

/// The registers of a slot.
pub fn base_of(slot: usize) -> (r: usize)
    requires
        slot < MAX_SLOTS,
    ensures
        r == SLOT_BASE + slot * SLOT_STRIDE,
{
    SLOT_BASE + slot * SLOT_STRIDE
}

pub open spec fn identified(magic: u32, vendor: u32, device: u32, version: u32) -> Option<Transport> {
    if magic != MAGIC_VALUE || vendor != VENDOR_QEMU || device != DEVICE_ID_NET {
        None
    } else if version == 1 {
        Some(Transport::Legacy)
    } else if version == 2 {
        Some(Transport::Modern)
    } else {
        None
    }
}

/// Whether there is a network device in a slot, and which transport it speaks.
pub fn identify(magic: u32, vendor: u32, device: u32, version: u32) -> (r: Option<Transport>)
    ensures
        r == identified(magic, vendor, device, version),
{
    if magic != MAGIC_VALUE || vendor != VENDOR_QEMU || device != DEVICE_ID_NET {
        return None;
    }
    match version {
        1 => Some(Transport::Legacy),
        2 => Some(Transport::Modern),
        _ => None,
    }
}

pub open spec fn hdr_spec(t: Transport) -> usize {
    match t {
        Transport::Legacy => HDR_LEGACY,
        Transport::Modern => HDR_MODERN,
    }
}

/// The size of the packet header.
pub fn hdr_len(t: Transport) -> (r: usize)
    ensures
        r == hdr_spec(t),
{
    match t {
        Transport::Legacy => HDR_LEGACY,
        Transport::Modern => HDR_MODERN,
    }
}

pub open spec fn reset_regs(t: Transport) -> Seq<Reg> {
    seq![reg(R_STATUS, 0), reg(R_STATUS, 1), reg(R_STATUS, 3)] + (match t {
        Transport::Legacy => seq![reg(R_GUEST_PAGE_SIZE, 4096)],
        Transport::Modern => Seq::empty(),
    })
}

/// Resets a device and makes the driver known; the legacy transport is told the
/// page size.
pub fn reset(t: Transport) -> (r: Vec<Reg>)
    ensures
        r@ == reset_regs(t),
{
    let mut l: Vec<Reg> = Vec::new();
    l.push(Reg { off: R_STATUS, val: 0 });
    l.push(Reg { off: R_STATUS, val: 1 });
    l.push(Reg { off: R_STATUS, val: 3 });
    match t {
        Transport::Legacy => {
            l.push(Reg { off: R_GUEST_PAGE_SIZE, val: 4096 });
        },
        Transport::Modern => {},
    }
    proof {
        assert(l@ =~= reset_regs(t));
    }
    l
}

/// What the driver makes of the features of a device.
pub struct Negotiated {
    /// The device cannot be used.
    pub refused: bool,
    pub features: u64,
    pub writes: Vec<Reg>,
}

/// The registers of a driver that gives up.
pub open spec fn give_up() -> Seq<Reg> {
    seq![reg(R_STATUS, 0)]
}

pub open spec fn wanted(t: Transport, lo: u32, hi: u32) -> Seq<Reg> {
    match t {
        Transport::Legacy => seq![reg(R_DRIVER_FEATURES, lo & FEAT_MAC)],
        Transport::Modern => seq![
            reg(R_DRIVER_FEATURES_SEL, 1),
            reg(R_DRIVER_FEATURES, hi & FEAT_VERSION_1_WORD1),
            reg(R_DRIVER_FEATURES_SEL, 0),
            reg(R_DRIVER_FEATURES, lo & FEAT_MAC),
            reg(R_STATUS, 11),
        ],
    }
}

/// The features of a device as one number.
pub open spec fn word_features(t: Transport, lo: u32, hi: u32) -> u64 {
    match t {
        Transport::Legacy => lo as u64,
        Transport::Modern => (hi as u64) << 32 | lo as u64,
    }
}

/// Chooses among the features: the hardware address, and on the modern
/// transport, where that is a must, the first version. The legacy transport
/// has a single feature word.
pub fn negotiate(t: Transport, lo: u32, hi: u32) -> (r: Negotiated)
    ensures
        r.refused == (t == Transport::Modern && hi & FEAT_VERSION_1_WORD1 == 0),
        r.features == word_features(t, lo, hi),
        r.writes@ == (if r.refused {
            give_up()
        } else {
            wanted(t, lo, hi)
        }),
{
    let mut writes: Vec<Reg> = Vec::new();
    let mut refused: bool = false;
    let features: u64;
    match t {
        Transport::Legacy => {
            features = lo as u64;
            writes.push(Reg { off: R_DRIVER_FEATURES, val: lo & FEAT_MAC });
        },
        Transport::Modern => {
            features = (hi as u64) << 32 | lo as u64;
            if hi & FEAT_VERSION_1_WORD1 == 0 {
                refused = true;
                writes.push(Reg { off: R_STATUS, val: 0 });
            } else {
                writes.push(Reg { off: R_DRIVER_FEATURES_SEL, val: 1 });
                writes.push(Reg { off: R_DRIVER_FEATURES, val: hi & FEAT_VERSION_1_WORD1 });
                writes.push(Reg { off: R_DRIVER_FEATURES_SEL, val: 0 });
                writes.push(Reg { off: R_DRIVER_FEATURES, val: lo & FEAT_MAC });
                writes.push(Reg { off: R_STATUS, val: 11 });
            }
        },
    }
    proof {
        assert(writes@ =~= if refused {
            give_up()
        } else {
            wanted(t, lo, hi)
        });
    }
    Negotiated { refused, features, writes }
}

/// Whether the device took the features, from its status. Only the modern
/// transport is asked.
pub fn accepted(t: Transport, status: u32) -> (r: bool)
    ensures
        r == (t == Transport::Legacy || status & ST_FEATURES_OK != 0),
{
    match t {
        Transport::Legacy => true,
        Transport::Modern => status & ST_FEATURES_OK != 0,
    }
}

/// One reading of the hardware address, with the generation of the
/// configuration before and after it.
#[derive(Clone, Copy, Debug)]
pub struct MacReading {
    pub before: u32,
    pub mac: [u8; 6],
    pub after: u32,
}

/// How often a reading is tried.
pub const MAC_TRIES: usize = 8;

/// `k` is the first reading during which the configuration did not change.
pub open spec fn steady(l: Seq<MacReading>, k: int) -> bool {
    &&& 0 <= k < l.len() && k < MAC_TRIES
    &&& l[k].before == l[k].after
    &&& forall|j: int| 0 <= j < k ==> (#[trigger] l[j]).before != l[j].after
}

/// `r` is the address that readings give.
pub open spec fn mac_read(t: Transport, l: Seq<MacReading>, r: Option<[u8; 6]>) -> bool {
    match t {
        Transport::Legacy => r == (if l.len() > 0 {
            Some(l[0].mac)
        } else {
            None
        }),
        Transport::Modern => match r {
            Some(m) => exists|k: int| #[trigger] steady(l, k) && m == l[k].mac,
            None => forall|k: int| !steady(l, k),
        },
    }
}

/// The hardware address from a series of readings. The legacy transport has no
/// generations, so its first reading counts.
#[verifier::loop_isolation(false)]
pub fn read_mac(t: Transport, l: &Vec<MacReading>) -> (r: Option<[u8; 6]>)
    ensures
        mac_read(t, l@, r),
{
    match t {
        Transport::Legacy => {
            if l.len() > 0 {
                return Some(l[0].mac);
            }
            None
        },
        Transport::Modern => {
            let n: usize = if l.len() < MAC_TRIES {
                l.len()
            } else {
                MAC_TRIES
            };
            let mut i: usize = 0;
            while i < n
                invariant
                    i <= n <= l@.len(),
                    n <= MAC_TRIES,
                    forall|j: int| 0 <= j < i ==> (#[trigger] l@[j]).before != l@[j].after,
                decreases n - i,
            {
                if l[i].before == l[i].after {
                    assert(steady(l@, i as int));
                    return Some(l[i].mac);
                }
                i = i + 1;
            }
            None
        },
    }
}

pub open spec fn chosen_mac(features: u64, read: Option<[u8; 6]>) -> [u8; 6] {
    if features & 0x20 != 0 && read is Some {
        read->0
    } else {
        GUEST_MAC
    }
}

/// The address to use: that of the device, where it has one and it could be
/// read.
pub fn choose_mac(features: u64, read: Option<[u8; 6]>) -> (r: [u8; 6])
    ensures
        r == chosen_mac(features, read),
{
    if features & 0x20 != 0 {
        match read {
            Some(m) => {
                return m;
            },
            None => {},
        }
    }
    GUEST_MAC
}

pub open spec fn pow2(k: nat) -> int
    decreases k,
{
    if k == 0 {
        1
    } else {
        2 * pow2((k - 1) as nat)
    }
}

/// The largest power of two that is at most what the device offers and at most
/// `QUEUE_NUM`; a queue needs two descriptors.
pub fn queue_size(max: u32) -> (r: Option<u16>)
    ensures
        match r {
            Some(n) => {
                &&& 2 <= n <= QUEUE_NUM
                &&& n <= max
                &&& exists|k: nat| n == #[trigger] pow2(k)
                &&& n == QUEUE_NUM || 2 * n > max
            },
            None => max < 2,
        },
{
    if max < 2 {
        return None;
    }
    let mut n: u16 = QUEUE_NUM;
    let ghost mut k: nat = 7;
    proof {
        reveal_with_fuel(pow2, 8);
        assert(pow2(7) == 128);
    }
    while n as u32 > max
        invariant
            2 <= n <= QUEUE_NUM,
            n == pow2(k),
            n == QUEUE_NUM || 2 * n > max,
            max >= 2,
        decreases n,
    {
        proof {
            if k == 0 {
                assert(pow2(k) == 1);
            }
            assert(pow2(k) == 2 * pow2((k - 1) as nat));
            k = (k - 1) as nat;
        }
        n = n / 2;
    }
    Some(n)
}

pub open spec fn up_to(x: int, a: int) -> int {
    (x + a - 1) / a * a
}

/// Where the parts of a queue are, in bytes from its start, and the pages for
/// rings and buffers.
#[derive(Clone, Copy, PartialEq, Eq, Structural, Debug)]
pub struct Layout {
    pub avail_off: usize,
    pub used_off: usize,
    pub ring_bytes: usize,
    pub ring_frames: usize,
    pub buf_frames: usize,
}

/// Descriptors, then the available ring, then the used ring: on the modern
/// transport at the next multiple of 4, on the legacy transport on pages of
/// its own.
pub open spec fn layout_spec(t: Transport, num: int, l: Layout) -> bool {
    let avail = 16 * num;
    let used = 6 + 8 * num;
    &&& l.avail_off == avail
    &&& l.used_off == up_to(
        avail + 6 + 2 * num,
        match t {
            Transport::Modern => 4,
            Transport::Legacy => LEGACY_ALIGN as int,
        },
    )
    &&& l.ring_bytes == l.used_off + (match t {
        Transport::Modern => used,
        Transport::Legacy => up_to(used, LEGACY_ALIGN as int),
    })
    &&& l.ring_frames == (l.ring_bytes + 4095) / 4096
    &&& l.buf_frames == (num * BUF_SIZE + 4095) / 4096
}

pub fn layout(t: Transport, num: u16) -> (l: Layout)
    requires
        2 <= num <= QUEUE_NUM,
    ensures
        layout_spec(t, num as int, l),
{
    let n: usize = num as usize;
    let avail_off: usize = 16 * n;
    let avail_bytes: usize = 6 + 2 * n;
    let used_bytes: usize = 6 + 8 * n;
    let (used_off, ring_bytes): (usize, usize) = match t {
        Transport::Modern => {
            let u: usize = (avail_off + avail_bytes + 3) / 4 * 4;
            (u, u + used_bytes)
        },
        Transport::Legacy => {
            let u: usize = (avail_off + avail_bytes + 4095) / 4096 * 4096;
            (u, u + (used_bytes + 4095) / 4096 * 4096)
        },
    };
    Layout {
        avail_off,
        used_off,
        ring_bytes,
        ring_frames: (ring_bytes + 4095) / 4096,
        buf_frames: (n * BUF_SIZE + 4095) / 4096,
    }
}

/// The parts of a queue do not overlap, and are aligned as the transport asks.
pub proof fn parts_are_apart(t: Transport, num: int, l: Layout)
    requires
        2 <= num <= QUEUE_NUM,
        layout_spec(t, num, l),
    ensures
        16 * num <= l.avail_off,
        l.avail_off + 6 + 2 * num <= l.used_off,
        l.used_off + 6 + 8 * num <= l.ring_bytes,
        l.ring_bytes <= 4096 * l.ring_frames,
        num * BUF_SIZE <= 4096 * l.buf_frames,
        l.avail_off % 2 == 0,
        l.used_off % 4 == 0,
        t == Transport::Legacy ==> l.used_off % 4096 == 0,
{
    let x = 16 * num + 6 + 2 * num;
    match t {
        Transport::Modern => {
            assert(up_to(x, 4) == (x + 3) / 4 * 4);
        },
        Transport::Legacy => {
            assert(up_to(x, 4096) == (x + 4095) / 4096 * 4096);
        },
    }
}

#[derive(Clone, Copy, PartialEq, Eq, Structural, Debug)]
pub struct Desc {
    pub addr: u64,
    pub len: u32,
    pub flags: u16,
    pub next: u16,
}

#[derive(Clone, Copy, PartialEq, Eq, Structural, Debug)]
pub struct UsedElem {
    pub id: u32,
    pub len: u32,
}

/// What the device wrote to a queue.
pub struct Used {
    pub idx: u16,
    pub ring: Vec<UsedElem>,
}

/// The driver side of a queue: descriptors and available ring. The buffers are
/// in a row from `buf_pa` on.
pub struct Vq {
    pub qidx: u32,
    pub num: u16,
    /// Size of the packet header.
    pub hdr_len: usize,
    pub desc: Vec<Desc>,
    pub avail_idx: u16,
    pub avail_ring: Vec<u16>,
    pub buf_pa: u64,
    pub ring_pa: u64,
    pub ring_frames: usize,
    pub buf_frames: usize,
}

pub struct VqView {
    pub num: u16,
    pub hdr_len: usize,
    pub desc: Seq<Desc>,
    pub avail_idx: u16,
    pub avail: Seq<u16>,
    pub buf_pa: u64,
}

impl View for Vq {
    type V = VqView;

    open spec fn view(&self) -> VqView {
        VqView {
            num: self.num,
            hdr_len: self.hdr_len,
            desc: self.desc@,
            avail_idx: self.avail_idx,
            avail: self.avail_ring@,
            buf_pa: self.buf_pa,
        }
    }
}

pub open spec fn next16(x: u16) -> u16 {
    if x == u16::MAX {
        0
    } else {
        (x + 1) as u16
    }
}

/// How many entries of the used ring have not been looked at.
pub open spec fn pending(last: u16, idx: u16) -> int {
    if idx >= last {
        idx - last
    } else {
        idx - last + 0x1_0000
    }
}

/// A queue after a descriptor was put on the available ring.
pub open spec fn published(v: VqView, id: u16) -> VqView {
    VqView {
        avail: v.avail.update(v.avail_idx as int % v.num as int, id),
        avail_idx: next16(v.avail_idx),
        ..v
    }
}

/// A buffer that the device can write a packet to.
pub open spec fn rx_desc(v: VqView, id: u16) -> Desc {
    Desc {
        addr: (v.buf_pa + id * BUF_SIZE) as u64,
        len: BUF_SIZE as u32,
        flags: VIRTQ_DESC_F_WRITE,
        next: 0,
    }
}

pub open spec fn recycled(v: VqView, id: u16) -> VqView {
    published(VqView { desc: v.desc.update(id as int, rx_desc(v, id)), ..v }, id)
}

impl Vq {
    pub open spec fn wf(&self) -> bool {
        &&& 2 <= self.num <= QUEUE_NUM
        &&& self.desc@.len() == self.num
        &&& self.avail_ring@.len() == self.num
        &&& self.hdr_len == HDR_LEGACY || self.hdr_len == HDR_MODERN
        &&& self.buf_pa + self.num * BUF_SIZE <= u64::MAX
    }

    /// What never changes is as in `o`.
    pub open spec fn same_place(&self, o: Vq) -> bool {
        self.qidx == o.qidx && self.ring_pa == o.ring_pa && self.ring_frames == o.ring_frames
            && self.buf_frames == o.buf_frames
    }

    /// Puts a descriptor on the available ring. The device is to be notified.
    fn add_avail(&mut self, id: u16)
        requires
            old(self).wf(),
        ensures
            final(self).wf(),
            final(self).same_place(*old(self)),
            final(self)@ == published(old(self)@, id),
    {
        let slot: usize = self.avail_idx as usize % self.num as usize;
        self.avail_ring.set(slot, id);
        self.avail_idx = self.avail_idx.wrapping_add(1);
    }

    /// The address of a buffer.
    pub fn buf_pa(&self, id: u16) -> (r: u64)
        requires
            self.wf(),
            id < self.num,
        ensures
            r == self.buf_pa + id * BUF_SIZE,
    {
        proof {
            assert(id * BUF_SIZE <= self.num * BUF_SIZE) by (nonlinear_arith)
                requires
                    id < self.num,
            ;
        }
        self.buf_pa + id as u64 * BUF_SIZE as u64
    }
}

/// The receiving half of the driver.
pub struct RxQueue {
    pub q: Vq,
    pub last_used: u16,
    /// Frames handed on.
    pub packets: u64,
    /// Entries that made no sense.
    pub malformed: u64,
}

/// What taking a packet gives, the queue after it, the place in the used ring
/// and the count of entries that made no sense. Such an entry is passed over;
/// its buffer, if it names one, goes back to the device.
pub open spec fn popped(v: VqView, last: u16, bad: int, idx: u16, ring: Seq<UsedElem>) -> (
    Option<(u16, int)>,
    VqView,
    u16,
    int,
)
    decreases pending(last, idx),
{
    let e = ring[last as int % v.num as int];
    if last == idx {
        (None, v, last, bad)
    } else if e.id >= v.num {
        popped(v, next16(last), bad + 1, idx, ring)
    } else if v.hdr_len <= e.len <= BUF_SIZE {
        (Some((e.id as u16, e.len - v.hdr_len)), v, next16(last), bad)
    } else {
        popped(recycled(v, e.id as u16), next16(last), bad + 1, idx, ring)
    }
}

/// The receiving half over a queue that was set up: all buffers are available.
pub open spec fn rx_fresh(q: Vq, r: RxQueue) -> bool {
    &&& r.q.same_place(q)
    &&& r.q@.desc == Seq::new(q.num as nat, |i: int| rx_desc(q@, i as u16))
    &&& r.q@.avail == Seq::new(q.num as nat, |i: int| i as u16)
    &&& r.q@ == (VqView { desc: r.q@.desc, avail: r.q@.avail, avail_idx: q.num, ..q@ })
    &&& r.last_used == 0
    &&& r.packets == 0
    &&& r.malformed == 0
}

impl RxQueue {
    /// Makes all buffers available to the device.
    pub fn new(q: Vq) -> (r: RxQueue)
        requires
            q.wf(),
        ensures
            r.q.wf(),
            rx_fresh(q, r),
    {
        let ghost q0 = q;
        let mut q: Vq = q;
        let n: u16 = q.num;
        let mut i: u16 = 0;
        while i < n
            invariant
                i <= n == q.num,
                n == q0.num,
                q.wf(),
                q.same_place(q0),
                q@ == (VqView { desc: q.desc@, avail: q.avail_ring@, ..q0@ }),
                forall|j: int| 0 <= j < i ==> #[trigger] q.desc@[j] == rx_desc(q0@, j as u16),
                forall|j: int| 0 <= j < i ==> #[trigger] q.avail_ring@[j] == j as u16,
            decreases n - i,
        {
            let addr: u64 = q.buf_pa(i);
            q.desc.set(
                i as usize,
                Desc { addr, len: BUF_SIZE as u32, flags: VIRTQ_DESC_F_WRITE, next: 0 },
            );
            q.avail_ring.set(i as usize, i);
            i = i + 1;
        }
        q.avail_idx = n;
        proof {
            assert(q.desc@ =~= Seq::new(n as nat, |i: int| rx_desc(q0@, i as u16)));
            assert(q.avail_ring@ =~= Seq::new(n as nat, |i: int| i as u16));
        }
        RxQueue { q, last_used: 0, packets: 0, malformed: 0 }
    }

    /// Takes one received packet: the descriptor, and the size of the frame
    /// behind the header.
    pub fn pop_used(&mut self, used: &Used) -> (r: Option<(u16, usize)>)
        requires
            old(self).q.wf(),
            used.ring@.len() == old(self).q.num,
            old(self).malformed + pending(old(self).last_used, used.idx) <= u64::MAX,
        ensures
            final(self).q.wf(),
            final(self).q.same_place(old(self).q),
            final(self).packets == old(self).packets,
            ({
                let s = popped(
                    old(self).q@,
                    old(self).last_used,
                    old(self).malformed as int,
                    used.idx,
                    used.ring@,
                );
                &&& r == (match s.0 {
                    Some(x) => Some((x.0, x.1 as usize)),
                    None => None,
                })
                &&& final(self).q@ == s.1
                &&& final(self).last_used == s.2
                &&& final(self).malformed == s.3
            }),
            r is Some ==> (r->0).0 < final(self).q.num && (r->0).1 + final(self).q.hdr_len
                <= BUF_SIZE,
    {
        let ghost all = popped(
            self.q@,
            self.last_used,
            self.malformed as int,
            used.idx,
            used.ring@,
        );
        let ghost num = self.q.num;
        loop
            invariant
                self.q.wf(),
                self.q.num == num,
                self.q.same_place(old(self).q),
                self.packets == old(self).packets,
                used.ring@.len() == num,
                self.malformed + pending(self.last_used, used.idx) <= u64::MAX,
                all == popped(
                    old(self).q@,
                    old(self).last_used,
                    old(self).malformed as int,
                    used.idx,
                    used.ring@,
                ),
                popped(
                    self.q@,
                    self.last_used,
                    self.malformed as int,
                    used.idx,
                    used.ring@,
                ) == all,
            decreases pending(self.last_used, used.idx),
        {
            if self.last_used == used.idx {
                return None;
            }
            let slot: usize = self.last_used as usize % self.q.num as usize;
            let e: UsedElem = used.ring[slot];
            self.last_used = self.last_used.wrapping_add(1);
            let len: usize = e.len as usize;
            if e.id < self.q.num as u32 {
                if len >= self.q.hdr_len && len <= BUF_SIZE {
                    return Some((e.id as u16, len - self.q.hdr_len));
                }
                self.malformed = self.malformed + 1;
                self.recycle(e.id as u16);
            } else {
                self.malformed = self.malformed + 1;
            }
        }
    }

    /// Gives a buffer back to the device.
    pub fn recycle(&mut self, id: u16)
        requires
            old(self).q.wf(),
            id < old(self).q.num,
        ensures
            final(self).q.wf(),
            final(self).q.same_place(old(self).q),
            final(self).q@ == recycled(old(self).q@, id),
            final(self).last_used == old(self).last_used,
            final(self).packets == old(self).packets,
            final(self).malformed == old(self).malformed,
    {
        let addr: u64 = self.q.buf_pa(id);
        self.q.desc.set(
            id as usize,
            Desc { addr, len: BUF_SIZE as u32, flags: VIRTQ_DESC_F_WRITE, next: 0 },
        );
        self.q.add_avail(id);
    }

    pub fn last_used(&self) -> (r: u16)
        ensures
            r == self.last_used,
    {
        self.last_used
    }

    pub fn num(&self) -> (r: u16)
        ensures
            r == self.q.num,
    {
        self.q.num
    }
}

/// Where the frame is in a receive buffer.
pub fn frame_at(hdr_len: usize, len: usize) -> (r: (usize, usize))
    requires
        hdr_len + len <= BUF_SIZE,
    ensures
        r.0 == hdr_len,
        r.1 == hdr_len + len,
{
    (hdr_len, hdr_len + len)
}

/// The sending half of the driver. Free descriptors are chained from
/// `free_head` on by their `next`.
pub struct TxQueue {
    pub q: Vq,
    pub last_used: u16,
    pub free_head: u16,
    pub num_free: u16,
    /// Packets handed to the device.
    pub packets: u64,
    /// Packets that were dropped.
    pub dropped: u64,
}

/// The part of a sending queue that taking back descriptors changes.
pub struct TxView {
    pub q: VqView,
    pub last: u16,
    pub head: u16,
    pub free: int,
}

/// The `n` first free descriptors.
pub open spec fn free_list(desc: Seq<Desc>, head: u16, n: nat) -> Seq<u16>
    decreases n,
{
    if n == 0 || head >= desc.len() {
        Seq::empty()
    } else {
        seq![head] + free_list(desc, desc[head as int].next, (n - 1) as nat)
    }
}

/// Descriptor `id` put in front of the free ones.
pub open spec fn freed(t: TxView, id: u16) -> TxView {
    TxView {
        q: VqView {
            desc: t.q.desc.update(id as int, Desc { next: t.head, ..t.q.desc[id as int] }),
            ..t.q
        },
        head: id,
        free: t.free + 1,
        ..t
    }
}

/// A sending queue after all that the device has finished with was taken back.
pub open spec fn reclaimed(t: TxView, idx: u16, ring: Seq<UsedElem>) -> TxView
    decreases pending(t.last, idx),
{
    let e = ring[t.last as int % t.q.num as int];
    if t.last == idx {
        t
    } else if e.id < t.q.num {
        reclaimed(TxView { last: next16(t.last), ..freed(t, e.id as u16) }, idx, ring)
    } else {
        reclaimed(TxView { last: next16(t.last), ..t }, idx, ring)
    }
}

/// The bytes of a packet: an empty header, which on the modern transport says
/// one buffer, and the frame.
pub open spec fn packet(hdr_len: usize, frame: Seq<u8>) -> Seq<u8> {
    Seq::new(hdr_len as nat, |i: int| if i == 10 {
        1u8
    } else {
        0u8
    }) + frame
}

/// What sending came to.
pub enum Sent {
    /// The ring is full or the frame too large.
    Dropped,
    /// These bytes are for the buffer of this descriptor; the device is to be
    /// notified.
    Packet { id: u16, data: Vec<u8> },
}

/// The sending half over a queue that was set up: all descriptors are free, and
/// chained in their order.
pub open spec fn tx_fresh(q: Vq, r: TxQueue) -> bool {
    &&& r.q.same_place(q)
    &&& r.q@ == (VqView { desc: r.q@.desc, ..q@ })
    &&& r.q@.desc == Seq::new(
        q.num as nat,
        |i: int|
            Desc {
                addr: (q.buf_pa + i * BUF_SIZE) as u64,
                len: 0,
                flags: 0,
                next: if i + 1 < q.num {
                    (i + 1) as u16
                } else {
                    0
                },
            },
    )
    &&& r.last_used == 0
    &&& r.free_head == 0
    &&& r.num_free == q.num
    &&& r.packets == 0
    &&& r.dropped == 0
}

impl TxQueue {
    pub open spec fn wf(&self) -> bool {
        &&& self.q.wf()
        &&& self.free_head < self.q.num
        &&& forall|i: int| 0 <= i < self.q.num ==> (#[trigger] self.q.desc@[i]).next < self.q.num
    }

    pub open spec fn model(&self) -> TxView {
        TxView {
            q: self.q@,
            last: self.last_used,
            head: self.free_head,
            free: self.num_free as int,
        }
    }

    /// All descriptors are free.
    pub fn new(q: Vq) -> (r: TxQueue)
        requires
            q.wf(),
        ensures
            r.wf(),
            tx_fresh(q, r),
    {
        let ghost q0 = q;
        let mut q: Vq = q;
        let n: u16 = q.num;
        let ghost want = Seq::new(
            n as nat,
            |i: int|
                Desc {
                    addr: (q0.buf_pa + i * BUF_SIZE) as u64,
                    len: 0,
                    flags: 0,
                    next: if i + 1 < n {
                        (i + 1) as u16
                    } else {
                        0
                    },
                },
        );
        let mut i: u16 = 0;
        while i < n
            invariant
                i <= n == q.num,
                n == q0.num,
                want.len() == n,
                want == Seq::new(
                    n as nat,
                    |i: int|
                        Desc {
                            addr: (q0.buf_pa + i * BUF_SIZE) as u64,
                            len: 0,
                            flags: 0,
                            next: if i + 1 < n {
                                (i + 1) as u16
                            } else {
                                0
                            },
                        },
                ),
                q.wf(),
                q.same_place(q0),
                q@ == (VqView { desc: q.desc@, ..q0@ }),
                forall|j: int| 0 <= j < i ==> #[trigger] q.desc@[j] == want[j],
            decreases n - i,
        {
            let addr: u64 = q.buf_pa(i);
            let next: u16 = if i + 1 < n {
                i + 1
            } else {
                0
            };
            q.desc.set(i as usize, Desc { addr, len: 0, flags: 0, next });
            i = i + 1;
        }
        proof {
            assert(q.desc@ =~= want);
        }
        TxQueue { q, last_used: 0, free_head: 0, num_free: n, packets: 0, dropped: 0 }
    }

    /// Takes back the descriptors that the device has finished with.
    pub fn reclaim(&mut self, used: &Used)
        requires
            old(self).wf(),
            used.ring@.len() == old(self).q.num,
            old(self).num_free + pending(old(self).last_used, used.idx) <= u16::MAX,
        ensures
            final(self).wf(),
            final(self).q.same_place(old(self).q),
            final(self).packets == old(self).packets,
            final(self).dropped == old(self).dropped,
            final(self).model() == reclaimed(old(self).model(), used.idx, used.ring@),
            final(self).q.num == old(self).q.num,
            final(self).q.hdr_len == old(self).q.hdr_len,
    {
        let ghost all = reclaimed(self.model(), used.idx, used.ring@);
        let ghost num = self.q.num;
        while self.last_used != used.idx
            invariant
                self.wf(),
                self.q.num == num,
                self.q.hdr_len == old(self).q.hdr_len,
                self.q.same_place(old(self).q),
                self.packets == old(self).packets,
                self.dropped == old(self).dropped,
                used.ring@.len() == num,
                self.num_free + pending(self.last_used, used.idx) <= u16::MAX,
                reclaimed(self.model(), used.idx, used.ring@) == all,
            decreases pending(self.last_used, used.idx),
        {
            let ghost before = self.model();
            let slot: usize = self.last_used as usize % self.q.num as usize;
            let e: UsedElem = used.ring[slot];
            self.last_used = self.last_used.wrapping_add(1);
            if e.id < self.q.num as u32 {
                let id: usize = e.id as usize;
                let mut d: Desc = self.q.desc[id];
                d.next = self.free_head;
                let ghost ds = self.q.desc@;
                self.q.desc.set(id, d);
                self.free_head = e.id as u16;
                self.num_free = self.num_free + 1;
                proof {
                    assert(self.model() == (TxView {
                        last: next16(before.last),
                        ..freed(before, e.id as u16)
                    }));
                }
            } else {
                proof {
                    assert(self.model() == (TxView { last: next16(before.last), ..before }));
                }
            }
        }
    }

    /// How many descriptors are free.
    pub fn free(&self) -> (r: u16)
        ensures
            r == self.num_free,
    {
        self.num_free
    }

    pub fn last_used(&self) -> (r: u16)
        ensures
            r == self.last_used,
    {
        self.last_used
    }

    pub fn num(&self) -> (r: u16)
        ensures
            r == self.q.num,
    {
        self.q.num
    }

    /// Sends a frame. Where there is no free descriptor, or the frame does not
    /// fit in a buffer with its header, it is dropped.
    pub fn send(&mut self, used: &Used, frame: &[u8]) -> (r: Sent)
        requires
            old(self).wf(),
            used.ring@.len() == old(self).q.num,
            old(self).num_free + pending(old(self).last_used, used.idx) <= u16::MAX,
            old(self).packets < u64::MAX,
            old(self).dropped < u64::MAX,
        ensures
            final(self).wf(),
            final(self).q.same_place(old(self).q),
            ({
                let t = reclaimed(old(self).model(), used.idx, used.ring@);
                let total = old(self).q.hdr_len + frame@.len();
                if t.free == 0 || total > BUF_SIZE {
                    &&& r is Dropped
                    &&& final(self).model() == t
                    &&& final(self).dropped == old(self).dropped + 1
                    &&& final(self).packets == old(self).packets
                } else {
                    &&& r is Packet
                    &&& r->id == t.head
                    &&& r->data@ == packet(old(self).q.hdr_len, frame@)
                    &&& final(self).model() == sent_view(t, total as u32)
                    &&& final(self).packets == old(self).packets + 1
                    &&& final(self).dropped == old(self).dropped
                }
            }),
    {
        self.reclaim(used);
        let hdr: usize = self.q.hdr_len;
        if self.num_free == 0 || frame.len() > BUF_SIZE - hdr {
            self.dropped = self.dropped + 1;
            return Sent::Dropped;
        }
        let ghost t = self.model();
        let id: u16 = self.free_head;
        let next: u16 = self.q.desc[id as usize].next;
        self.free_head = next;
        self.num_free = self.num_free - 1;
        let addr: u64 = self.q.buf_pa(id);
        let total: usize = hdr + frame.len();
        self.q.desc.set(id as usize, Desc { addr, len: total as u32, flags: 0, next: 0 });
        self.q.add_avail(id);
        self.packets = self.packets + 1;
        let mut data: Vec<u8> = Vec::new();
        let mut i: usize = 0;
        while i < hdr
            invariant
                i <= hdr,
                data@.len() == i,
                forall|j: int|
                    0 <= j < i ==> #[trigger] data@[j] == (if j == 10 {
                        1u8
                    } else {
                        0u8
                    }),
            decreases hdr - i,
        {
            if i == 10 {
                data.push(1);
            } else {
                data.push(0);
            }
            i = i + 1;
        }
        data.extend_from_slice(frame);
        proof {
            assert(data@ =~= packet(hdr, frame@));
            assert(self.model() == sent_view(t, total as u32));
        }
        Sent::Packet { id, data }
    }
}

/// A sending queue after a packet of `total` bytes was put in the first free
/// buffer.
pub open spec fn sent_view(t: TxView, total: u32) -> TxView {
    TxView {
        q: published(
            VqView {
                desc: t.q.desc.update(
                    t.head as int,
                    Desc {
                        addr: (t.q.buf_pa + t.head * BUF_SIZE) as u64,
                        len: total,
                        flags: 0,
                        next: 0,
                    },
                ),
                ..t.q
            },
            t.head,
        ),
        head: t.q.desc[t.head as int].next,
        free: t.free - 1,
        ..t
    }
}

proof fn lemma_list_same(a: Seq<Desc>, b: Seq<Desc>, head: u16, n: nat, id: u16)
    requires
        a.len() == b.len(),
        forall|i: int| 0 <= i < a.len() && i != id ==> #[trigger] a[i] == b[i],
        !free_list(a, head, n).contains(id),
    ensures
        free_list(b, head, n) == free_list(a, head, n),
    decreases n,
{
    if n > 0 && head < a.len() {
        let l = free_list(a, head, n);
        assert(l[0] == head);
        assert(l.contains(head));
        let rest = free_list(a, a[head as int].next, (n - 1) as nat);
        assert forall|x: u16| rest.contains(x) implies l.contains(x) by {
            let k = choose|k: int| 0 <= k < rest.len() && rest[k] == x;
            assert(l[k + 1] == x);
        }
        assert(a[head as int] == b[head as int]);
        lemma_list_same(a, b, a[head as int].next, (n - 1) as nat, id);
    }
}

/// A descriptor that the device gives back is the first free one, in front of
/// those that were free.
pub proof fn freed_comes_first(t: TxView, id: u16)
    requires
        t.free >= 0,
        id < t.q.desc.len(),
        !free_list(t.q.desc, t.head, t.free as nat).contains(id),
    ensures
        ({
            let u = freed(t, id);
            free_list(u.q.desc, u.head, u.free as nat) == seq![id] + free_list(
                t.q.desc,
                t.head,
                t.free as nat,
            )
        }),
{
    let u = freed(t, id);
    lemma_list_same(t.q.desc, u.q.desc, t.head, t.free as nat, id);
}

/// Sending takes the first free descriptor and leaves the others, in their
/// order.
pub proof fn sending_takes_first(t: TxView, total: u32)
    requires
        t.free > 0,
        t.head < t.q.desc.len(),
        free_list(t.q.desc, t.head, t.free as nat).no_duplicates(),
    ensures
        ({
            let u = sent_view(t, total);
            let l = free_list(t.q.desc, t.head, t.free as nat);
            l[0] == t.head && free_list(u.q.desc, u.head, u.free as nat) == l.skip(1)
        }),
{
    let u = sent_view(t, total);
    let l = free_list(t.q.desc, t.head, t.free as nat);
    let rest = free_list(t.q.desc, t.q.desc[t.head as int].next, (t.free - 1) as nat);
    assert(l.skip(1) =~= rest);
    if rest.contains(t.head) {
        let k = choose|k: int| 0 <= k < rest.len() && rest[k] == t.head;
        assert(l[k + 1] == l[0]);
    }
    lemma_list_same(t.q.desc, u.q.desc, u.head, u.free as nat, t.head);
}

/// A probed and initialised device.
pub struct Net {
    pub base: usize,
    pub slot: usize,
    pub mac: [u8; 6],
    pub features: u64,
    pub transport: Transport,
    pub hdr_len: usize,
    pub rx: RxQueue,
    pub tx: TxQueue,
    /// The interrupt status that was read last.
    pub last_irq_status: u32,
}

pub open spec fn low(x: int) -> u32 {
    (x % 0x1_0000_0000) as u32
}

pub open spec fn high(x: int) -> u32 {
    (x / 0x1_0000_0000) as u32
}

/// The registers that make a queue known to the device.
pub open spec fn queue_regs(t: Transport, num: u16, ring_pa: int, l: Layout) -> Seq<Reg> {
    match t {
        Transport::Modern => seq![
            reg(R_QUEUE_NUM, num as u32),
            reg(R_QUEUE_DESC_LOW, low(ring_pa)),
            reg(R_QUEUE_DESC_HIGH, high(ring_pa)),
            reg(R_QUEUE_DRIVER_LOW, low(ring_pa + l.avail_off)),
            reg(R_QUEUE_DRIVER_HIGH, high(ring_pa + l.avail_off)),
            reg(R_QUEUE_DEVICE_LOW, low(ring_pa + l.used_off)),
            reg(R_QUEUE_DEVICE_HIGH, high(ring_pa + l.used_off)),
            reg(R_QUEUE_READY, 1),
        ],
        Transport::Legacy => seq![
            reg(R_QUEUE_NUM, num as u32),
            reg(R_QUEUE_ALIGN, 4096),
            reg(R_QUEUE_PFN, low(ring_pa / 4096)),
        ],
    }
}

fn lo(x: u64) -> (r: u32)
    ensures
        r == low(x as int),
{
    (x % 0x1_0000_0000) as u32
}

fn hi(x: u64) -> (r: u32)
    ensures
        r == high(x as int),
{
    (x / 0x1_0000_0000) as u32
}

/// `q` is a queue in zeroed memory, and `w` are the registers that make it known.
pub open spec fn queue_set_up(t: Transport, qidx: u32, num: u16, ring_pa: u64, buf_pa: u64, q: Vq, w: Seq<Reg>) -> bool {
    &&& q.qidx == qidx
    &&& q.num == num
    &&& q.hdr_len == hdr_spec(t)
    &&& q.ring_pa == ring_pa
    &&& q.buf_pa == buf_pa
    &&& q.avail_idx == 0
    &&& q.avail_ring@ == Seq::new(num as nat, |i: int| 0u16)
    &&& q.desc@ == Seq::new(num as nat, |i: int| Desc { addr: 0, len: 0, flags: 0, next: 0 })
    &&& exists|l: Layout|
        #[trigger] layout_spec(t, num as int, l) && q.ring_frames == l.ring_frames
            && q.buf_frames == l.buf_frames && w == queue_regs(t, num, ring_pa as int, l)
}

/// Sets up a queue of `num` descriptors, which was selected before, in zeroed
/// memory for rings and buffers. Gives the queue and the registers to write.
pub fn setup_queue(t: Transport, qidx: u32, num: u16, ring_pa: u64, buf_pa: u64) -> (r: (Vq, Vec<Reg>))
    requires
        2 <= num <= QUEUE_NUM,
        buf_pa + num * BUF_SIZE <= u64::MAX,
        ring_pa <= 0xffff_ffff_ffff_0000,
    ensures
        r.0.wf(),
        queue_set_up(t, qidx, num, ring_pa, buf_pa, r.0, r.1@),
{
    let l: Layout = layout(t, num);
    proof {
        parts_are_apart(t, num as int, l);
        let x = 16 * num + 6 + 2 * num;
        assert(up_to(x, 4) == (x + 3) / 4 * 4);
        assert(up_to(x, 4096) == (x + 4095) / 4096 * 4096);
        assert(l.used_off <= 8192);
    }
    let mut regs: Vec<Reg> = Vec::new();
    regs.push(Reg { off: R_QUEUE_NUM, val: num as u32 });
    match t {
        Transport::Modern => {
            let avail: u64 = ring_pa + l.avail_off as u64;
            let used: u64 = ring_pa + l.used_off as u64;
            regs.push(Reg { off: R_QUEUE_DESC_LOW, val: lo(ring_pa) });
            regs.push(Reg { off: R_QUEUE_DESC_HIGH, val: hi(ring_pa) });
            regs.push(Reg { off: R_QUEUE_DRIVER_LOW, val: lo(avail) });
            regs.push(Reg { off: R_QUEUE_DRIVER_HIGH, val: hi(avail) });
            regs.push(Reg { off: R_QUEUE_DEVICE_LOW, val: lo(used) });
            regs.push(Reg { off: R_QUEUE_DEVICE_HIGH, val: hi(used) });
            regs.push(Reg { off: R_QUEUE_READY, val: 1 });
        },
        Transport::Legacy => {
            regs.push(Reg { off: R_QUEUE_ALIGN, val: 4096 });
            regs.push(Reg { off: R_QUEUE_PFN, val: lo(ring_pa / 4096) });
        },
    }
    let mut desc: Vec<Desc> = Vec::new();
    let mut avail_ring: Vec<u16> = Vec::new();
    let mut i: u16 = 0;
    while i < num
        invariant
            i <= num,
            desc@.len() == i,
            avail_ring@.len() == i,
            forall|j: int|
                0 <= j < i ==> #[trigger] desc@[j] == (Desc { addr: 0, len: 0, flags: 0, next: 0 }),
            forall|j: int| 0 <= j < i ==> #[trigger] avail_ring@[j] == 0,
        decreases num - i,
    {
        desc.push(Desc { addr: 0, len: 0, flags: 0, next: 0 });
        avail_ring.push(0);
        i = i + 1;
    }
    proof {
        assert(regs@ =~= queue_regs(t, num, ring_pa as int, l));
        assert(desc@ =~= Seq::new(
            num as nat,
            |i: int| Desc { addr: 0, len: 0, flags: 0, next: 0 },
        ));
        assert(avail_ring@ =~= Seq::new(num as nat, |i: int| 0u16));
        assert(layout_spec(t, num as int, l));
    }
    (
        Vq {
            qidx,
            num,
            hdr_len: hdr_len(t),
            desc,
            avail_idx: 0,
            avail_ring,
            buf_pa,
            ring_pa,
            ring_frames: l.ring_frames,
            buf_frames: l.buf_frames,
        },
        regs,
    )
}

/// The status of a driver that is ready.
pub open spec fn ready_status(t: Transport) -> u32 {
    match t {
        Transport::Legacy => 7u32,
        Transport::Modern => 15,
    }
}

/// The status of a driver that is ready.
pub fn driver_ok(t: Transport) -> (r: u32)
    ensures
        r == ready_status(t),
{
    match t {
        Transport::Legacy => 7,
        Transport::Modern => 15,
    }
}

impl Net {
    /// The register in which the device shows its status.
    pub fn device_status(&self) -> (r: usize)
        requires
            self.base + R_STATUS <= usize::MAX,
        ensures
            r == self.base + R_STATUS,
    {
        self.base + R_STATUS
    }

    /// The base address by which interrupts are acknowledged without the lock.
    pub fn publish_irq_base(&self) -> (r: usize)
        ensures
            r == self.base,
    {
        self.base
    }

    /// A device whose queues were set up: all receive buffers are available,
    /// all send descriptors free.
    pub fn new(slot: usize, t: Transport, mac: [u8; 6], features: u64, rx: Vq, tx: Vq) -> (r: Net)
        requires
            slot < MAX_SLOTS,
            rx.wf(),
            tx.wf(),
        ensures
            r.base == SLOT_BASE + slot * SLOT_STRIDE,
            r.slot == slot,
            r.mac == mac,
            r.features == features,
            r.transport == t,
            r.hdr_len == hdr_spec(t),
            r.rx.q.wf(),
            rx_fresh(rx, r.rx),
            r.tx.wf(),
            tx_fresh(tx, r.tx),
            r.last_irq_status == 0,
    {
        Net {
            base: base_of(slot),
            slot,
            mac,
            features,
            transport: t,
            hdr_len: hdr_len(t),
            rx: RxQueue::new(rx),
            tx: TxQueue::new(tx),
            last_irq_status: 0,
        }
    }

    /// Notes an interrupt status; one that is not zero is to be acknowledged
    /// with the value told.
    pub fn ack_interrupt(&mut self, status: u32) -> (r: Option<Reg>)
        ensures
            *final(self) == (Net { last_irq_status: status, ..*old(self) }),
            r == ack_spec(status),
    {
        self.last_irq_status = status;
        ack_interrupt_nolock(status)
    }

    /// Whether a send descriptor is free, once the finished ones were taken
    /// back.
    pub fn tx_ready(&mut self, used: &Used) -> (r: bool)
        requires
            old(self).tx.wf(),
            used.ring@.len() == old(self).tx.q.num,
            old(self).tx.num_free + pending(old(self).tx.last_used, used.idx) <= u16::MAX,
        ensures
            final(self).tx.wf(),
            final(self).tx.model() == reclaimed(old(self).tx.model(), used.idx, used.ring@),
            *final(self) == (Net { tx: final(self).tx, ..*old(self) }),
            r == (final(self).tx.num_free > 0),
    {
        self.tx.reclaim(used);
        self.tx.num_free > 0
    }
}

pub open spec fn ack_spec(status: u32) -> Option<Reg> {
    if status != 0 {
        Some(reg(R_INTERRUPT_ACK, status))
    } else {
        None
    }
}

/// The register that acknowledges an interrupt.
pub fn ack_interrupt_nolock(status: u32) -> (r: Option<Reg>)
    ensures
        r == ack_spec(status),
{
    if status != 0 {
        return Some(Reg { off: R_INTERRUPT_ACK, val: status });
    }
    None
}

/// A packet is its header, ten bytes on the legacy transport and twelve on the modern
/// one, and the frame behind it.
pub proof fn packet_carries_the_frame(t: Transport, frame: Seq<u8>)
    ensures
        hdr_spec(t) == (if t is Legacy {
            10usize
        } else {
            12
        }),
        packet(hdr_spec(t), frame).len() == hdr_spec(t) + frame.len(),
        packet(hdr_spec(t), frame).skip(hdr_spec(t) as int) == frame,
        forall|i: int| 0 <= i < 10 ==> packet(hdr_spec(t), frame)[i] == 0,
{
    assert(packet(hdr_spec(t), frame).skip(hdr_spec(t) as int) =~= frame);
}

/// A descriptor that is put on the available ring is in its next place, and only
/// that place changes.
pub proof fn published_is_next(v: VqView, id: u16, k: int)
    requires
        v.num > 0,
        v.avail.len() == v.num,
        0 <= k < v.num,
    ensures
        published(v, id).avail[v.avail_idx as int % v.num as int] == id,
        k != v.avail_idx as int % v.num as int ==> published(v, id).avail[k] == v.avail[k],
        published(v, id).avail_idx as int == (v.avail_idx + 1) % 0x1_0000,
        published(v, id).desc == v.desc,
{
}

/// The receive buffers are apart: each descriptor has 2048 bytes of its own, which
/// the device may write.
pub proof fn receive_buffers_are_apart(v: VqView, i: u16, j: u16)
    requires
        i != j,
        v.buf_pa + 0x1_0000 * 2048 <= u64::MAX,
    ensures
        rx_desc(v, i).len == 2048 && rx_desc(v, i).flags == 2,
        rx_desc(v, i).addr + 2048 <= rx_desc(v, j).addr || rx_desc(v, j).addr + 2048 <= rx_desc(
            v,
            i,
        ).addr,
{
    assert(i < j ==> i * 2048 + 2048 <= j * 2048);
    assert(j < i ==> j * 2048 + 2048 <= i * 2048);
}

/// The next packet that the device has used is taken: its buffer, and its length
/// without the header. Without one the whole used ring has been looked at.
pub proof fn next_packet_is_taken(v: VqView, last: u16, bad: int, idx: u16, ring: Seq<UsedElem>)
    requires
        v.num > 0,
    ensures
        ({
            let e = ring[last as int % v.num as int];
            let r = popped(v, last, bad, idx, ring);
            &&& last == idx ==> r == (None::<(u16, int)>, v, last, bad)
            &&& last != idx && e.id < v.num && v.hdr_len <= e.len <= 2048 ==> r.0 == Some(
                (e.id as u16, e.len - v.hdr_len),
            ) && r.2 as int == (last + 1) % 0x1_0000 && r.1 == v
            &&& r.0 is None ==> r.2 == idx
            &&& r.3 >= bad
        }),
    decreases pending(last, idx),
{
    let e = ring[last as int % v.num as int];
    if last != idx {
        if e.id >= v.num {
            next_packet_is_taken(v, next16(last), bad + 1, idx, ring);
        } else if !(v.hdr_len <= e.len <= BUF_SIZE) {
            next_packet_is_taken(recycled(v, e.id as u16), next16(last), bad + 1, idx, ring);
        }
    }
}

/// A packet that is sent is in the buffer of the descriptor that the device is given
/// next, with its length.
pub proof fn sent_packet_is_given(t: TxView, total: u32)
    requires
        t.head < t.q.desc.len(),
        t.q.num > 0,
        t.q.avail.len() == t.q.num,
        t.q.buf_pa + 0x1_0000 * 2048 <= u64::MAX,
    ensures
        ({
            let u = sent_view(t, total);
            let d = u.q.desc[t.head as int];
            &&& d.addr == t.q.buf_pa + t.head * 2048
            &&& d.len == total && d.flags == 0
            &&& u.q.avail[t.q.avail_idx as int % t.q.num as int] == t.head
            &&& u.q.avail_idx as int == (t.q.avail_idx + 1) % 0x1_0000
            &&& u.free == t.free - 1
        }),
{
}

/// What the device has finished with is taken back, all of it.
pub proof fn finished_is_taken_back(t: TxView, idx: u16, ring: Seq<UsedElem>)
    requires
        t.q.num > 0,
        forall|k: int| 0 <= k < t.q.num ==> (#[trigger] ring[k]).id < t.q.num,
    ensures
        reclaimed(t, idx, ring).last == idx,
        reclaimed(t, idx, ring).free == t.free + pending(t.last, idx),
    decreases pending(t.last, idx),
{
    if t.last != idx {
        let e = ring[t.last as int % t.q.num as int];
        assert(e.id < t.q.num);
        let u = TxView { last: next16(t.last), ..freed(t, e.id as u16) };
        assert(pending(u.last, idx) == pending(t.last, idx) - 1);
        finished_is_taken_back(u, idx, ring);
    }
}

} // verus!
