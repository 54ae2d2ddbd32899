//! A virtio network driver for the QEMU virt machine, for the legacy and the
//! modern register layout, driven by interrupts.
//!
//! The rings are kept here and are to be copied to the memory that the device
//! sees; buffers go by their addresses.

use vstd::prelude::*;
use crate::bytes::{put_zeros, zeros};
use crate::net::virtio::{reg, Reg, Used, UsedElem, MAGIC_VALUE};

verus! {

pub const QUEUE_SIZE: usize = 64;
/// Size of the packet header on the legacy layout.
pub const LEGACY_HDR: usize = 10;

/// Size of the packet header on the modern layout.
pub const MODERN_HDR: usize = 12;

/// The size of the header before each packet.
pub open spec fn hdr_spec(legacy: bool) -> usize {
    if legacy {
        LEGACY_HDR
    } else {
        MODERN_HDR
    }
}

pub fn hdr_len(legacy: bool) -> (r: usize)
    ensures
        r == hdr_spec(legacy),
{
    if legacy {
        LEGACY_HDR
    } else {
        MODERN_HDR
    }
}

/// Checksums, hardware address and link status.
pub const WANTED: u32 = 0x1_0021;

pub const STATUS_FEATURES_OK: u32 = 8;

// Registers of the modern layout.
pub const M_DRIVER_FEATURES: usize = 0x020;
pub const M_DRIVER_FEATURES_SEL: usize = 0x024;
pub const M_QUEUE_SEL: usize = 0x028;
pub const M_QUEUE_NUM: usize = 0x030;
pub const M_QUEUE_READY: usize = 0x034;
pub const M_QUEUE_NOTIFY: usize = 0x060;
pub const M_INTERRUPT_ACK: usize = 0x068;
pub const M_STATUS: usize = 0x070;
pub const M_CONFIG: usize = 0x100;

// Registers of the legacy layout.
pub const L_QUEUE_NUM: usize = 0x030;
pub const L_QUEUE_PFN: usize = 0x034;
pub const L_QUEUE_ALIGN: usize = 0x038;
pub const L_QUEUE_NOTIFY: usize = 0x03c;
pub const L_INTERRUPT_ACK: usize = 0x054;
pub const L_CONFIG: usize = 0x070;

/// What the registers of a slot say: magic number and device.
#[derive(Clone, Copy, PartialEq, Eq, Structural, Debug)]
pub struct SlotId {
    pub magic: u32,
    pub device: u32,
}

pub open spec fn is_net(s: SlotId) -> bool {
    s.magic == MAGIC_VALUE && s.device == 1
}

/// `r` are the registers of the first network device; 0 for none.
pub open spec fn found_at(slots: Seq<SlotId>, r: usize) -> bool {
    if exists|i: int| 0 <= i < slots.len() && is_net(#[trigger] slots[i]) {
        exists|i: int|
            0 <= i < slots.len() && is_net(#[trigger] slots[i]) && r == 0x1000_0000 + i * 0x1000
                && forall|j: int| 0 <= j < i ==> !is_net(#[trigger] slots[j])
    } else {
        r == 0
    }
}

/// The registers of the first slot with a network device; 0 for none.
pub fn find_device(slots: &Vec<SlotId>) -> (r: usize)
    requires
        slots@.len() <= 32,
    ensures
        found_at(slots@, r),
{
    let n: usize = slots.len();
    let mut i: usize = 0;
    while i < n
        invariant
            i <= n == slots@.len(),
            n <= 32,
            forall|j: int| 0 <= j < i ==> !is_net(#[trigger] slots@[j]),
        decreases n - i,
    {
        if slots[i].magic == MAGIC_VALUE && slots[i].device == 1 {
            assert(is_net(slots@[i as int]));
            return 0x1000_0000 + i * 0x1000;
        }
        i = i + 1;
    }
    0
}

/// A write to the device: of 32 bits or of 64 bits.
#[derive(Clone, Copy, PartialEq, Eq, Structural, Debug)]
pub enum Write {
    Word(Reg),
    Wide(WideReg),
}

pub open spec fn word(off: usize, val: u32) -> Write {
    Write::Word(reg(off, val))
}

pub open spec fn wide(off: usize, val: u64) -> Write {
    Write::Wide(WideReg { off, val })
}

/// Tells the device the features to use. On the modern layout it must then keep
/// `STATUS_FEATURES_OK` in its status.
pub open spec fn feature_writes(legacy: bool, lo: u32, hi: u32) -> Seq<Write> {
    if legacy {
        seq![word(M_DRIVER_FEATURES, lo & WANTED)]
    } else {
        seq![
            word(M_DRIVER_FEATURES_SEL, 1),
            word(M_DRIVER_FEATURES, hi & 1),
            word(M_DRIVER_FEATURES_SEL, 0),
            word(M_DRIVER_FEATURES, lo & WANTED),
            word(M_STATUS, 11),
        ]
    }
}

/// Where the hardware address is.
pub fn config_at(legacy: bool) -> (r: usize)
    ensures
        r == (if legacy {
            L_CONFIG
        } else {
            M_CONFIG
        }),
{
    if legacy {
        L_CONFIG
    } else {
        M_CONFIG
    }
}

/// Where the parts of a queue are.
#[derive(Clone, Copy, PartialEq, Eq, Structural, Debug)]
pub struct Parts {
    pub desc: u64,
    pub avail: u64,
    pub used: u64,
}

/// A 64-bit value for a register.
#[derive(Clone, Copy, PartialEq, Eq, Structural, Debug)]
pub struct WideReg {
    pub off: usize,
    pub val: u64,
}

/// On the legacy layout a queue is in two pages in a row.
pub open spec fn legacy_parts(pages: u64) -> Parts {
    Parts { desc: pages, avail: (pages + 0x800) as u64, used: (pages + 0x1000) as u64 }
}

/// The writes that make a queue known: on the modern layout each part has a page
/// of its own.
pub open spec fn queue_writes(legacy: bool, p: Parts) -> Seq<Write> {
    if legacy {
        seq![
            word(L_QUEUE_NUM, 64),
            word(L_QUEUE_PFN, crate::net::virtio::low(p.desc as int / 4096)),
            word(L_QUEUE_ALIGN, 4096),
        ]
    } else {
        seq![
            wide(0x044, p.desc),
            wide(0x048, 0),
            wide(0x050, p.avail),
            wide(0x054, 0),
            wide(0x058, p.used),
            wide(0x05c, 0),
            word(M_QUEUE_READY, 1),
        ]
    }
}

/// The register that notifies the device of a queue.
pub fn notify(legacy: bool, qidx: usize) -> (r: Reg)
    requires
        qidx < 2,
    ensures
        r == reg(
            if legacy {
                L_QUEUE_NOTIFY
            } else {
                M_QUEUE_NOTIFY
            },
            qidx as u32,
        ),
{
    Reg {
        off: if legacy {
            L_QUEUE_NOTIFY
        } else {
            M_QUEUE_NOTIFY
        },
        val: qidx as u32,
    }
}

/// A descriptor as two words: the address; the length in the upper half, the
/// flags in the lower and the next one in the topmost bits.
#[derive(Clone, Copy, PartialEq, Eq, Structural, Debug)]
pub struct DescWords {
    pub addr: u64,
    pub info: u64,
}

pub open spec fn words(addr: u64, len: u32, flags: u16, next: u16) -> DescWords {
    DescWords { addr, info: (((len as u64) << 32) | flags as u64) | ((next as u64) << 48) }
}

pub fn set_desc(addr: u64, len: u32, flags: u16, next: u16) -> (r: DescWords)
    ensures
        r == words(addr, len, flags, next),
{
    DescWords { addr, info: (((len as u64) << 32) | flags as u64) | ((next as u64) << 48) }
}

/// The driver side of a queue. Buffers are 0 where there is none.
pub struct Vq {
    pub desc: Vec<DescWords>,
    pub avail_idx: u16,
    pub avail: Vec<u16>,
    pub bufs: Vec<u64>,
    pub free: Vec<usize>,
}

pub struct VqView {
    pub desc: Seq<DescWords>,
    pub avail_idx: u16,
    pub avail: Seq<u16>,
    pub bufs: Seq<u64>,
    pub free: Seq<usize>,
}

impl View for Vq {
    type V = VqView;

    open spec fn view(&self) -> VqView {
        VqView {
            desc: self.desc@,
            avail_idx: self.avail_idx,
            avail: self.avail@,
            bufs: self.bufs@,
            free: self.free@,
        }
    }
}

/// A queue after descriptor `i` was set for a buffer and made available.
pub open spec fn offered(v: VqView, i: int, buf: u64, w: DescWords) -> VqView {
    VqView {
        desc: v.desc.update(i, w),
        bufs: v.bufs.update(i, buf),
        avail: v.avail.update(v.avail_idx as int % QUEUE_SIZE as int, i as u16),
        avail_idx: crate::net::virtio::next16(v.avail_idx),
        ..v
    }
}

/// A receive queue after buffer `buf` was given to the device.
pub open spec fn given(v: VqView, i: int, buf: u64) -> VqView {
    offered(v, i, buf, words(buf, 2048, 2, 0))
}

impl Vq {
    pub open spec fn wf(&self) -> bool {
        &&& self.desc@.len() == QUEUE_SIZE
        &&& self.avail@.len() == QUEUE_SIZE
        &&& self.bufs@.len() == QUEUE_SIZE
        &&& forall|i: int| 0 <= i < self.free@.len() ==> #[trigger] self.free@[i] < QUEUE_SIZE
    }

    /// A queue with all descriptors free and no buffers.
    pub fn new() -> (r: Vq)
        ensures
            r.wf(),
            r.avail_idx == 0,
            r.desc@ == Seq::new(QUEUE_SIZE as nat, |i: int| DescWords { addr: 0, info: 0 }),
            r.avail@ == Seq::new(QUEUE_SIZE as nat, |i: int| 0u16),
            r.free@ == Seq::new(QUEUE_SIZE as nat, |i: int| i as usize),
            r.bufs@ == Seq::new(QUEUE_SIZE as nat, |i: int| 0u64),
    {
        let mut desc: Vec<DescWords> = Vec::new();
        let mut avail: Vec<u16> = Vec::new();
        let mut bufs: Vec<u64> = Vec::new();
        let mut free: Vec<usize> = Vec::new();
        let mut i: usize = 0;
        while i < QUEUE_SIZE
            invariant
                i <= QUEUE_SIZE,
                desc@.len() == i,
                avail@.len() == i,
                bufs@.len() == i,
                free@.len() == i,
                forall|j: int| 0 <= j < i ==> #[trigger] free@[j] == j,
                forall|j: int| 0 <= j < i ==> #[trigger] bufs@[j] == 0,
                forall|j: int| 0 <= j < i ==> #[trigger] avail@[j] == 0,
                forall|j: int|
                    0 <= j < i ==> #[trigger] desc@[j] == (DescWords { addr: 0, info: 0 }),
            decreases QUEUE_SIZE - i,
        {
            desc.push(DescWords { addr: 0, info: 0 });
            avail.push(0);
            bufs.push(0);
            free.push(i);
            i = i + 1;
        }
        proof {
            assert(free@ =~= Seq::new(QUEUE_SIZE as nat, |i: int| i as usize));
            assert(bufs@ =~= Seq::new(QUEUE_SIZE as nat, |i: int| 0u64));
            assert(avail@ =~= Seq::new(QUEUE_SIZE as nat, |i: int| 0u16));
            assert(desc@ =~= Seq::new(
                QUEUE_SIZE as nat,
                |i: int| DescWords { addr: 0, info: 0 },
            ));
        }
        Vq { desc, avail_idx: 0, avail, bufs, free }
    }

    fn offer(&mut self, i: usize, buf: u64, w: DescWords)
        requires
            old(self).wf(),
            i < QUEUE_SIZE,
        ensures
            final(self).wf(),
            final(self)@ == offered(old(self)@, i as int, buf, w),
    {
        self.bufs.set(i, buf);
        self.desc.set(i, w);
        let slot: usize = self.avail_idx as usize % QUEUE_SIZE;
        self.avail.set(slot, i as u16);
        self.avail_idx = self.avail_idx.wrapping_add(1);
    }

    /// Gives a receive buffer to the device.
    pub fn give_rx_buf(&mut self, i: usize, buf: u64)
        requires
            old(self).wf(),
            i < QUEUE_SIZE,
        ensures
            final(self).wf(),
            final(self)@ == given(old(self)@, i as int, buf),
    {
        self.offer(i, buf, set_desc(buf, 2048, 2, 0));
    }
}

/// A frame in memory.
#[derive(Clone, Copy, PartialEq, Eq, Structural, Debug)]
pub struct Frame {
    pub at: u64,
    pub len: usize,
}

/// What handling the receive interrupt does, from place `last` of the used ring
/// and the `n`-th entry on: the queue, the frames to hand on, the place reached.
/// Each entry's buffer is replaced by a new one.
pub open spec fn received(
    hdr: usize,
    v: VqView,
    last: int,
    idx: u16,
    ring: Seq<UsedElem>,
    new: Seq<u64>,
    n: int,
) -> (VqView, Seq<Frame>, int)
    decreases QUEUE_SIZE - n,
{
    if last == idx || n >= QUEUE_SIZE {
        (v, Seq::empty(), last)
    } else {
        let e = ring[last % QUEUE_SIZE as int];
        let rest = received(hdr, given(v, e.id as int, new[n]), last + 1, idx, ring, new, n + 1);
        if e.len > hdr {
            (
                rest.0,
                seq![
                    Frame {
                        at: (v.bufs[e.id as int] + hdr) as u64,
                        len: (e.len - hdr) as usize,
                    },
                ] + rest.1,
                rest.2,
            )
        } else {
            rest
        }
    }
}

/// The device names only descriptors that exist.
pub open spec fn used_ok(u: Used) -> bool {
    u.ring@.len() == QUEUE_SIZE && forall|i: int|
        0 <= i < QUEUE_SIZE ==> (#[trigger] u.ring@[i]).id < QUEUE_SIZE
}

pub open spec fn bufs_ok(l: Seq<u64>) -> bool {
    forall|i: int| 0 <= i < l.len() ==> #[trigger] l[i] <= 0xffff_ffff_ffff_f000
}

/// Takes the received frames. `new` holds a new buffer for each entry.
#[verifier::loop_isolation(false)]
pub fn rx_interrupt(legacy: bool, vq: &mut Vq, used: &Used, last: u16, new: &Vec<u64>) -> (r: (
    Vec<Frame>,
    u16,
))
    requires
        old(vq).wf(),
        used_ok(*used),
        bufs_ok(old(vq).bufs@),
        bufs_ok(new@),
        new@.len() >= QUEUE_SIZE,
    ensures
        final(vq).wf(),
        ({
            let s = received(hdr_spec(legacy), old(vq)@, last as int, used.idx, used.ring@, new@, 0);
            final(vq)@ == s.0 && r.0@ == s.1 && r.1 == s.2 as u16
        }),
{
    let hdr: usize = hdr_len(legacy);
    let ghost all = received(hdr, vq@, last as int, used.idx, used.ring@, new@, 0);
    let mut frames: Vec<Frame> = Vec::new();
    let mut at: usize = last as usize;
    let mut n: usize = 0;
    proof {
        assert(frames@ + all.1 =~= all.1);
    }
    while at != used.idx as usize && n < QUEUE_SIZE
        invariant
            vq.wf(),
            bufs_ok(vq.bufs@),
            n <= QUEUE_SIZE,
            at == last + n,
            ({
                let s = received(hdr, vq@, at as int, used.idx, used.ring@, new@, n as int);
                s.0 == all.0 && frames@ + s.1 == all.1 && s.2 == all.2
            }),
        decreases QUEUE_SIZE - n,
    {
        let e: UsedElem = used.ring[at % QUEUE_SIZE];
        proof {
            assert(used.ring@[at as int % QUEUE_SIZE as int].id < QUEUE_SIZE);
        }
        let id: usize = e.id as usize;
        let buf: u64 = vq.bufs[id];
        let ghost f0 = frames@;
        let ghost rest = received(
            hdr,
            given(vq@, id as int, new@[n as int]),
            at + 1,
            used.idx,
            used.ring@,
            new@,
            n + 1,
        );
        if e.len as usize > hdr {
            proof {
                assert(vq.bufs@[id as int] <= 0xffff_ffff_ffff_f000);
            }
            let f = Frame {
                at: buf + hdr as u64,
                len: e.len as usize - hdr,
            };
            frames.push(f);
            proof {
                assert(frames@ + rest.1 =~= f0 + (seq![f] + rest.1));
            }
        }
        let b: u64 = new[n];
        let ghost bufs = vq.bufs@;
        vq.give_rx_buf(id, b);
        proof {
            assert forall|i: int| 0 <= i < vq.bufs@.len() implies #[trigger] vq.bufs@[i]
                <= 0xffff_ffff_ffff_f000 by {
                if i != id {
                    assert(vq.bufs@[i] == bufs[i]);
                } else {
                    assert(new@[n as int] <= 0xffff_ffff_ffff_f000);
                }
            }
        }
        at = at + 1;
        n = n + 1;
    }
    proof {
        assert(frames@ + Seq::<Frame>::empty() =~= frames@);
    }
    (frames, at as u16)
}

/// What handling the send interrupt does: the queue, the buffers to free, the
/// place reached. A descriptor without a buffer is passed over.
pub open spec fn finished(v: VqView, last: int, idx: u16, ring: Seq<UsedElem>, n: int) -> (
    VqView,
    Seq<u64>,
    int,
)
    decreases QUEUE_SIZE - n,
{
    if last == idx || n >= QUEUE_SIZE {
        (v, Seq::empty(), last)
    } else {
        let id = ring[last % QUEUE_SIZE as int].id as int;
        if v.bufs[id] != 0 {
            let rest = finished(
                VqView { bufs: v.bufs.update(id, 0), free: v.free.push(id as usize), ..v },
                last + 1,
                idx,
                ring,
                n + 1,
            );
            (rest.0, seq![v.bufs[id]] + rest.1, rest.2)
        } else {
            finished(v, last + 1, idx, ring, n + 1)
        }
    }
}

/// Takes back what was sent; gives the buffers to free.
#[verifier::loop_isolation(false)]
pub fn tx_interrupt(vq: &mut Vq, used: &Used, last: u16) -> (r: (Vec<u64>, u16))
    requires
        old(vq).wf(),
        used_ok(*used),
    ensures
        final(vq).wf(),
        ({
            let s = finished(old(vq)@, last as int, used.idx, used.ring@, 0);
            final(vq)@ == s.0 && r.0@ == s.1 && r.1 == s.2 as u16
        }),
{
    let ghost all = finished(vq@, last as int, used.idx, used.ring@, 0);
    let mut out: Vec<u64> = Vec::new();
    let mut at: usize = last as usize;
    let mut n: usize = 0;
    proof {
        assert(out@ + all.1 =~= all.1);
    }
    while at != used.idx as usize && n < QUEUE_SIZE
        invariant
            vq.wf(),
            n <= QUEUE_SIZE,
            at == last + n,
            ({
                let s = finished(vq@, at as int, used.idx, used.ring@, n as int);
                s.0 == all.0 && out@ + s.1 == all.1 && s.2 == all.2
            }),
        decreases QUEUE_SIZE - n,
    {
        proof {
            assert(used.ring@[at as int % QUEUE_SIZE as int].id < QUEUE_SIZE);
        }
        let id: usize = used.ring[at % QUEUE_SIZE].id as usize;
        let buf: u64 = vq.bufs[id];
        if buf != 0 {
            let ghost o0 = out@;
            let ghost v0 = vq@;
            let ghost free = vq.free@;
            vq.bufs.set(id, 0);
            vq.free.push(id);
            out.push(buf);
            proof {
                assert(vq@ == (VqView {
                    bufs: v0.bufs.update(id as int, 0),
                    free: v0.free.push(id),
                    ..v0
                }));
                let rest = finished(vq@, at + 1, used.idx, used.ring@, n + 1);
                assert(out@ + rest.1 =~= o0 + (seq![buf] + rest.1));
                assert forall|i: int| 0 <= i < vq.free@.len() implies #[trigger] vq.free@[i]
                    < QUEUE_SIZE by {
                    if i < free.len() {
                        assert(vq.free@[i] == free[i]);
                    }
                }
            }
        }
        at = at + 1;
        n = n + 1;
    }
    proof {
        assert(out@ + Seq::<u64>::empty() =~= out@);
    }
    (out, at as u16)
}

/// What an interrupt asks for: to look at the queues, and the values that
/// acknowledge it.
pub fn irq_handler(legacy: bool, status: u32) -> (r: (bool, Vec<Reg>))
    ensures
        ({
            let off = if legacy {
                L_INTERRUPT_ACK
            } else {
                M_INTERRUPT_ACK
            };
            let a = if status & 1 != 0 {
                seq![reg(off, 1)]
            } else {
                Seq::empty()
            };
            let b = if status & 2 != 0 {
                seq![reg(off, 2)]
            } else {
                Seq::empty()
            };
            r.0 == (status & 1 != 0) && r.1@ == a + b
        }),
{
    let off: usize = if legacy {
        L_INTERRUPT_ACK
    } else {
        M_INTERRUPT_ACK
    };
    let mut l: Vec<Reg> = Vec::new();
    if status & 1 != 0 {
        l.push(Reg { off, val: 1 });
    }
    if status & 2 != 0 {
        l.push(Reg { off, val: 2 });
    }
    proof {
        let a = if status & 1 != 0 {
            seq![reg(off, 1)]
        } else {
            Seq::empty()
        };
        let b = if status & 2 != 0 {
            seq![reg(off, 2)]
        } else {
            Seq::empty()
        };
        assert(l@ =~= a + b);
    }
    (status & 1 != 0, l)
}

/// A packet for a buffer.
pub struct Packet {
    pub buf: u64,
    pub data: Vec<u8>,
}

/// Sends a frame in a new buffer. Before the device is ready, and without a free
/// descriptor, nothing is sent.
pub fn net_tx(legacy: bool, ready: bool, vq: &mut Vq, frame: &[u8], buf: u64) -> (r: Option<Packet>)
    requires
        old(vq).wf(),
        hdr_spec(legacy) + frame@.len() <= 4096,
    ensures
        final(vq).wf(),
        if !ready || old(vq).free@.len() == 0 {
            r is None && final(vq)@ == old(vq)@
        } else {
            let id = old(vq).free@.last() as int;
            &&& r is Some
            &&& r->0.buf == buf
            &&& r->0.data@ == zeros(hdr_spec(legacy) as nat) + frame@
            &&& final(vq)@ == offered(
                VqView { free: old(vq).free@.drop_last(), ..old(vq)@ },
                id,
                buf,
                words(buf, (hdr_spec(legacy) + frame@.len()) as u32, 0, 0),
            )
        },
{
    let hdr: usize = hdr_len(legacy);
    if !ready {
        return None;
    }
    let ghost free = vq.free@;
    match vq.free.pop() {
        None => None,
        Some(id) => {
            proof {
                assert(free.last() < QUEUE_SIZE);
                assert(vq.free@ =~= free.drop_last());
                assert forall|i: int| 0 <= i < vq.free@.len() implies #[trigger] vq.free@[i]
                    < QUEUE_SIZE by {
                    assert(vq.free@[i] == free[i]);
                }
            }
            let total: u32 = (hdr + frame.len()) as u32;
            vq.offer(id, buf, set_desc(buf, total, 0, 0));
            let mut data: Vec<u8> = Vec::new();
            put_zeros(&mut data, hdr);
            data.extend_from_slice(frame);
            proof {
                assert(data@ =~= zeros(hdr as nat) + frame@);
            }
            Some(Packet { buf, data })
        },
    }
}

/// How far the start of the device is.
#[allow(inconsistent_fields)]
#[derive(Clone, Copy, PartialEq, Eq, Debug)]
pub enum Init {
    Find,
    Version,
    Features { legacy: bool },
    Status,
    Mac { legacy: bool },
    /// The size of a queue; `rx` is the receive queue once it is known.
    Size { mac: [u8; 6], rx: Option<Parts> },
    /// Memory for a queue.
    Memory { legacy: bool, mac: [u8; 6], rx: Option<Parts> },
    Buffers { legacy: bool, mac: [u8; 6], rx: Parts, tx: Parts },
    Ended,
}

/// What came back for what was asked.
pub enum Event {
    Slots(Vec<SlotId>),
    Version(u32),
    Features { lo: u32, hi: u32 },
    Status(u32),
    Mac([u8; 6]),
    Size(u32),
    /// Two zeroed pages in a row.
    Pages(u64),
    /// A zeroed page for each part of a queue.
    Parts(Parts),
    /// A page for each receive buffer.
    Buffers(Vec<u64>),
}

/// A device that runs.
pub struct Device {
    pub legacy: bool,
    pub mac: [u8; 6],
    pub rx: Vq,
    pub tx: Vq,
    pub rx_at: Parts,
    pub tx_at: Parts,
}

/// What to do next, once the registers were written.
pub enum Ask {
    Version { base: usize },
    Features,
    Status,
    Mac { at: usize },
    Size,
    Pages,
    Parts,
    Buffers,
    /// There is no device, or it refused the features.
    Fail,
    Ready(Device),
}

/// The event that a state waits for came. Memory must be there, and the queues
/// must be large enough.
pub open spec fn awaited(s: Init, e: Event) -> bool {
    match (s, e) {
        (Init::Find, Event::Slots(l)) => l@.len() <= 32,
        (Init::Version, Event::Version(_)) => true,
        (Init::Features { .. }, Event::Features { .. }) => true,
        (Init::Status, Event::Status(_)) => true,
        (Init::Mac { .. }, Event::Mac(_)) => true,
        (Init::Size { .. }, Event::Size(max)) => max >= QUEUE_SIZE,
        (Init::Memory { legacy, .. }, Event::Pages(p)) => legacy && p <= 0xffff_ffff_ffff_e000,
        (Init::Memory { legacy, .. }, Event::Parts(_)) => !legacy,
        (Init::Buffers { .. }, Event::Buffers(l)) => l@.len() == QUEUE_SIZE,
        _ => false,
    }
}

/// After one of the queues: the other is selected, or the driver is ready.
pub open spec fn queue_done(legacy: bool, mac: [u8; 6], rx: Option<Parts>, p: Parts, s1: Init, w: Seq<Write>, ask: Ask) -> bool {
    match rx {
        None => {
            &&& w == queue_writes(legacy, p).push(word(M_QUEUE_SEL, 1))
            &&& next_queue(legacy, mac, Some(p), s1, ask)
        },
        Some(q) => {
            &&& s1 == (Init::Buffers { legacy, mac, rx: q, tx: p })
            &&& w == queue_writes(legacy, p).push(word(M_STATUS, 7)) + (if legacy {
                Seq::empty()
            } else {
                seq![word(M_STATUS, 15)]
            })
            &&& ask is Buffers
        },
    }
}

/// A queue was selected: the legacy layout asks for its pages, the modern one
/// for its size.
pub open spec fn next_queue(legacy: bool, mac: [u8; 6], rx: Option<Parts>, s1: Init, ask: Ask) -> bool {
    if legacy {
        s1 == (Init::Memory { legacy, mac, rx }) && ask is Pages
    } else {
        s1 == (Init::Size { mac, rx }) && ask is Size
    }
}

/// A receive queue after the first `n` buffers were given to the device.
pub open spec fn filled(v: VqView, bufs: Seq<u64>, n: int) -> VqView
    decreases n,
{
    if n <= 0 {
        v
    } else {
        given(filled(v, bufs, n - 1), n - 1, bufs[n - 1])
    }
}

/// A queue without buffers, whose descriptors are free.
pub open spec fn empty_queue(v: VqView) -> bool {
    &&& v.avail_idx == 0
    &&& v.free == Seq::new(QUEUE_SIZE as nat, |i: int| i as usize)
    &&& v.bufs == Seq::new(QUEUE_SIZE as nat, |i: int| 0u64)
}

/// What a step comes to.
pub open spec fn stepped(s: Init, e: Event, s1: Init, w: Seq<Write>, ask: Ask) -> bool {
    let none = Seq::<Write>::empty();
    match (s, e) {
        (Init::Find, Event::Slots(l)) => {
            &&& w == none
            &&& exists|base: usize| #[trigger]
                found_at(l@, base) && if base == 0 {
                    s1 == Init::Ended && ask is Fail
                } else {
                    s1 == Init::Version && ask == (Ask::Version { base })
                }
        },
        (Init::Version, Event::Version(v)) => s1 == (Init::Features { legacy: v == 1 }) && w
            == seq![word(M_STATUS, 0), word(M_STATUS, 3)] && ask is Features,
        (Init::Features { legacy }, Event::Features { lo, hi }) => {
            &&& w == feature_writes(legacy, lo, hi)
            &&& if legacy {
                s1 == (Init::Mac { legacy }) && ask == (Ask::Mac { at: L_CONFIG })
            } else {
                s1 == Init::Status && ask is Status
            }
        },
        (Init::Status, Event::Status(st)) => {
            &&& w == none
            &&& if st & STATUS_FEATURES_OK == 0 {
                s1 == Init::Ended && ask is Fail
            } else {
                s1 == (Init::Mac { legacy: false }) && ask == (Ask::Mac { at: M_CONFIG })
            }
        },
        (Init::Mac { legacy }, Event::Mac(mac)) => w == seq![word(M_QUEUE_SEL, 0)] && next_queue(
            legacy,
            mac,
            None,
            s1,
            ask,
        ),
        (Init::Size { mac, rx }, Event::Size(_)) => s1 == (Init::Memory { legacy: false, mac, rx })
            && w == seq![word(M_QUEUE_NUM, 64)] && ask is Parts,
        (Init::Memory { legacy, mac, rx }, Event::Pages(p)) => queue_done(
            legacy,
            mac,
            rx,
            legacy_parts(p),
            s1,
            w,
            ask,
        ),
        (Init::Memory { legacy, mac, rx }, Event::Parts(p)) => queue_done(
            legacy,
            mac,
            rx,
            p,
            s1,
            w,
            ask,
        ),
        (Init::Buffers { legacy, mac, rx, tx }, Event::Buffers(l)) => {
            &&& s1 == Init::Ended
            &&& w == seq![
                word(
                    if legacy {
                        L_QUEUE_NOTIFY
                    } else {
                        M_QUEUE_NOTIFY
                    },
                    0,
                ),
            ]
            &&& ask is Ready
            &&& ({
                let d = ask->Ready_0;
                &&& d.legacy == legacy
                &&& d.mac == mac
                &&& d.rx_at == rx
                &&& d.tx_at == tx
                &&& d.tx.wf()
                &&& empty_queue(d.tx@)
                &&& d.rx.wf()
                &&& exists|v: VqView|
                    #[trigger] empty_queue(v) && d.rx@ == filled(v, l@, QUEUE_SIZE as int)
            })
        },
        _ => true,
    }
}

fn put(w: &mut Vec<Write>, off: usize, val: u32)
    ensures
        final(w)@ == old(w)@.push(word(off, val)),
{
    w.push(Write::Word(Reg { off, val }));
}

fn put_wide(w: &mut Vec<Write>, off: usize, val: u64)
    ensures
        final(w)@ == old(w)@.push(wide(off, val)),
{
    w.push(Write::Wide(WideReg { off, val }));
}

fn put_queue(legacy: bool, p: Parts) -> (w: Vec<Write>)
    ensures
        w@ == queue_writes(legacy, p),
{
    let mut w: Vec<Write> = Vec::new();
    if legacy {
        put(&mut w, L_QUEUE_NUM, 64);
        put(&mut w, L_QUEUE_PFN, (p.desc / 4096 % 0x1_0000_0000) as u32);
        put(&mut w, L_QUEUE_ALIGN, 4096);
    } else {
        put_wide(&mut w, 0x044, p.desc);
        put_wide(&mut w, 0x048, 0);
        put_wide(&mut w, 0x050, p.avail);
        put_wide(&mut w, 0x054, 0);
        put_wide(&mut w, 0x058, p.used);
        put_wide(&mut w, 0x05c, 0);
        put(&mut w, M_QUEUE_READY, 1);
    }
    proof {
        assert(w@ =~= queue_writes(legacy, p));
    }
    w
}

fn begin_queue(legacy: bool, mac: [u8; 6], rx: Option<Parts>) -> (r: (Init, Ask))
    ensures
        next_queue(legacy, mac, rx, r.0, r.1),
{
    if legacy {
        (Init::Memory { legacy, mac, rx }, Ask::Pages)
    } else {
        (Init::Size { mac, rx }, Ask::Size)
    }
}

fn end_queue(legacy: bool, mac: [u8; 6], rx: Option<Parts>, p: Parts) -> (r: (Init, Vec<Write>, Ask))
    ensures
        queue_done(legacy, mac, rx, p, r.0, r.1@, r.2),
{
    let mut w: Vec<Write> = put_queue(legacy, p);
    match rx {
        None => {
            put(&mut w, M_QUEUE_SEL, 1);
            let (s, a): (Init, Ask) = begin_queue(legacy, mac, Some(p));
            (s, w, a)
        },
        Some(q) => {
            put(&mut w, M_STATUS, 7);
            let ghost w0 = w@;
            if !legacy {
                put(&mut w, M_STATUS, 15);
            }
            proof {
                assert(w@ =~= w0 + (if legacy {
                    Seq::empty()
                } else {
                    seq![word(M_STATUS, 15)]
                }));
            }
            (Init::Buffers { legacy, mac, rx: q, tx: p }, w, Ask::Buffers)
        },
    }
}

fn fill(l: &Vec<u64>) -> (q: Vq)
    requires
        l@.len() == QUEUE_SIZE,
    ensures
        q.wf(),
        exists|v: VqView|
            #[trigger] empty_queue(v) && q@ == filled(v, l@, QUEUE_SIZE as int),
{
    let mut q: Vq = Vq::new();
    let ghost v = q@;
    let mut i: usize = 0;
    while i < QUEUE_SIZE
        invariant
            i <= QUEUE_SIZE,
            q.wf(),
            l@.len() == QUEUE_SIZE,
            q@ == filled(v, l@, i as int),
        decreases QUEUE_SIZE - i,
    {
        q.give_rx_buf(i, l[i]);
        i = i + 1;
    }
    proof {
        assert(empty_queue(v));
    }
    q
}

/// Goes one step on: the state after an event, the registers to write, and what
/// to do after that.
pub fn init(s: Init, e: Event) -> (r: (Init, Vec<Write>, Ask))
    requires
        awaited(s, e),
    ensures
        stepped(s, e, r.0, r.1@, r.2),
{
    let mut w: Vec<Write> = Vec::new();
    match (s, e) {
        (Init::Find, Event::Slots(l)) => {
            let base: usize = find_device(&l);
            proof {
                assert(found_at(l@, base));
            }
            if base == 0 {
                (Init::Ended, w, Ask::Fail)
            } else {
                (Init::Version, w, Ask::Version { base })
            }
        },
        (Init::Version, Event::Version(v)) => {
            put(&mut w, M_STATUS, 0);
            put(&mut w, M_STATUS, 3);
            proof {
                assert(w@ =~= seq![word(M_STATUS, 0), word(M_STATUS, 3)]);
            }
            (Init::Features { legacy: v == 1 }, w, Ask::Features)
        },
        (Init::Features { legacy }, Event::Features { lo, hi }) => {
            if legacy {
                put(&mut w, M_DRIVER_FEATURES, lo & WANTED);
                proof {
                    assert(w@ =~= feature_writes(legacy, lo, hi));
                }
                (Init::Mac { legacy }, w, Ask::Mac { at: config_at(true) })
            } else {
                put(&mut w, M_DRIVER_FEATURES_SEL, 1);
                put(&mut w, M_DRIVER_FEATURES, hi & 1);
                put(&mut w, M_DRIVER_FEATURES_SEL, 0);
                put(&mut w, M_DRIVER_FEATURES, lo & WANTED);
                put(&mut w, M_STATUS, 11);
                proof {
                    assert(w@ =~= feature_writes(legacy, lo, hi));
                }
                (Init::Status, w, Ask::Status)
            }
        },
        (Init::Status, Event::Status(st)) => {
            if st & STATUS_FEATURES_OK == 0 {
                return (Init::Ended, w, Ask::Fail);
            }
            (Init::Mac { legacy: false }, w, Ask::Mac { at: config_at(false) })
        },
        (Init::Mac { legacy }, Event::Mac(mac)) => {
            put(&mut w, M_QUEUE_SEL, 0);
            proof {
                assert(w@ =~= seq![word(M_QUEUE_SEL, 0)]);
            }
            let (s, a): (Init, Ask) = begin_queue(legacy, mac, None);
            (s, w, a)
        },
        (Init::Size { mac, rx }, Event::Size(_)) => {
            put(&mut w, M_QUEUE_NUM, 64);
            proof {
                assert(w@ =~= seq![word(M_QUEUE_NUM, 64)]);
            }
            (Init::Memory { legacy: false, mac, rx }, w, Ask::Parts)
        },
        (Init::Memory { legacy, mac, rx }, Event::Pages(p)) => end_queue(
            legacy,
            mac,
            rx,
            Parts { desc: p, avail: p + 0x800, used: p + 0x1000 },
        ),
        (Init::Memory { legacy, mac, rx }, Event::Parts(p)) => end_queue(legacy, mac, rx, p),
        (Init::Buffers { legacy, mac, rx, tx }, Event::Buffers(l)) => {
            let n: Reg = notify(legacy, 0);
            put(&mut w, n.off, n.val);
            proof {
                assert(w@ =~= seq![
                    word(
                        if legacy {
                            L_QUEUE_NOTIFY
                        } else {
                            M_QUEUE_NOTIFY
                        },
                        0,
                    ),
                ]);
            }
            let d = Device { legacy, mac, rx: fill(&l), tx: Vq::new(), rx_at: rx, tx_at: tx };
            (Init::Ended, w, Ask::Ready(d))
        },
        _ => (Init::Ended, w, Ask::Fail),
    }
}

/// A descriptor that was used for sending and has finished is free again.
pub proof fn finished_is_free(v: VqView, last: int, idx: u16, ring: Seq<UsedElem>)
    requires
        last != idx,
        v.bufs.len() == QUEUE_SIZE,
        ring.len() == QUEUE_SIZE,
        last >= 0,
        ring[last % QUEUE_SIZE as int].id < QUEUE_SIZE,
        v.bufs[ring[last % QUEUE_SIZE as int].id as int] != 0,
    ensures
        finished(v, last, idx, ring, 0).0.free.contains(
            ring[last % QUEUE_SIZE as int].id as usize,
        ),
        finished(v, last, idx, ring, 0).1[0] == v.bufs[ring[last % QUEUE_SIZE as int].id as int],
{
    let id = ring[last % QUEUE_SIZE as int].id as int;
    let w = VqView { bufs: v.bufs.update(id, 0), free: v.free.push(id as usize), ..v };
    lemma_free_grows(w, last + 1, idx, ring, 1);
    assert(w.free[v.free.len() as int] == id as usize);
    assert(finished(w, last + 1, idx, ring, 1).0.free[v.free.len() as int] == id as usize);
}

proof fn lemma_free_grows(v: VqView, last: int, idx: u16, ring: Seq<UsedElem>, n: int)
    ensures
        finished(v, last, idx, ring, n).0.free.len() >= v.free.len(),
        forall|i: int|
            0 <= i < v.free.len() ==> #[trigger] finished(v, last, idx, ring, n).0.free[i]
                == v.free[i],
    decreases QUEUE_SIZE - n,
{
    if last != idx && n < QUEUE_SIZE {
        let id = ring[last % QUEUE_SIZE as int].id as int;
        if v.bufs[id] != 0 {
            let w = VqView { bufs: v.bufs.update(id, 0), free: v.free.push(id as usize), ..v };
            lemma_free_grows(w, last + 1, idx, ring, n + 1);
            assert forall|i: int| 0 <= i < v.free.len() implies #[trigger] finished(
                v,
                last,
                idx,
                ring,
                n,
            ).0.free[i] == v.free[i] by {
                assert(w.free[i] == v.free[i]);
            }
        } else {
            lemma_free_grows(v, last + 1, idx, ring, n + 1);
        }
    }
}

/// Every packet that the device has used is handed on, in order: the frame of the
/// first begins behind the header in its buffer and is as long as the packet without
/// the header; the buffer is replaced by a new one, and the rest follows.
pub proof fn used_packets_are_handed_on(
    hdr: usize,
    v: VqView,
    last: int,
    idx: u16,
    ring: Seq<UsedElem>,
    new: Seq<u64>,
    n: int,
)
    requires
        0 <= n < QUEUE_SIZE,
        last != idx,
        ring[last % QUEUE_SIZE as int].len > hdr,
        v.bufs[ring[last % QUEUE_SIZE as int].id as int] + hdr <= u64::MAX,
    ensures
        ({
            let e = ring[last % QUEUE_SIZE as int];
            let r = received(hdr, v, last, idx, ring, new, n);
            let rest = received(hdr, given(v, e.id as int, new[n]), last + 1, idx, ring, new, n + 1);
            &&& r.1.len() > 0
            &&& r.1[0].at == v.bufs[e.id as int] + hdr
            &&& r.1[0].len == e.len - hdr
            &&& r.1.skip(1) == rest.1
            &&& r.0 == rest.0 && r.2 == rest.2
        }),
{
    let e = ring[last % QUEUE_SIZE as int];
    let r = received(hdr, v, last, idx, ring, new, n);
    let rest = received(hdr, given(v, e.id as int, new[n]), last + 1, idx, ring, new, n + 1);
    assert(r.1.skip(1) =~= rest.1);
}

/// All that the device has used is looked at, as far as the queue is long.
pub proof fn all_used_are_looked_at(
    hdr: usize,
    v: VqView,
    last: int,
    idx: u16,
    ring: Seq<UsedElem>,
    new: Seq<u64>,
    n: int,
)
    requires
        0 <= n <= QUEUE_SIZE,
        last <= idx <= last + (QUEUE_SIZE - n),
    ensures
        received(hdr, v, last, idx, ring, new, n).2 == idx,
        received(hdr, v, last, idx, ring, new, n).1.len() <= idx - last,
    decreases QUEUE_SIZE - n,
{
    if last != idx {
        let e = ring[last % QUEUE_SIZE as int];
        all_used_are_looked_at(hdr, given(v, e.id as int, new[n]), last + 1, idx, ring, new, n + 1);
    }
}

/// A buffer that is given to the device is in its descriptor, and the descriptor is
/// the next that is available; no other descriptor changes.
pub proof fn given_buffer_is_available(v: VqView, i: int, buf: u64, k: int)
    requires
        0 <= i < QUEUE_SIZE,
        0 <= k < QUEUE_SIZE,
        v.desc.len() == QUEUE_SIZE,
        v.bufs.len() == QUEUE_SIZE,
        v.avail.len() == QUEUE_SIZE,
    ensures
        ({
            let u = given(v, i, buf);
            &&& u.desc[i].addr == buf && u.bufs[i] == buf
            &&& u.avail[v.avail_idx as int % QUEUE_SIZE as int] == i
            &&& u.avail_idx as int == (v.avail_idx + 1) % 0x1_0000
            &&& k != i ==> u.desc[k] == v.desc[k] && u.bufs[k] == v.bufs[k]
        }),
{
}

} // verus!
