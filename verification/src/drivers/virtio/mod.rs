//! VirtIO devices: which MMIO slot holds the wanted device, and where a
//! queue's rings lie. The register accesses are the caller's.

pub mod blk;

use vstd::prelude::*;
use crate::mem::layout::{PAGE_SIZE, VIRTIO_BASE};

verus! {

/// "virt", the magic value of every virtio-mmio transport.
pub const MAGIC: u32 = 0x7472_6976;

pub const DEVICE_ID_NET: u32 = 1;
pub const DEVICE_ID_BLOCK: u32 = 2;

/// Number of virtio-mmio slots the machine has.
pub const SLOTS: usize = 8;

/// Distance between two slots.
pub const SLOT_STRIDE: usize = 0x1000;

/// Descriptors per queue.
pub const QUEUE_SIZE: usize = 8;

/// Size of one descriptor (addr, len, flags, next).
pub const DESC_SIZE: usize = 16;

/// What the identification registers of one slot read: magic value,
/// version and device id.
pub type SlotRegs = (u32, u32, u32);

/// Whether a slot holds a legacy (version 1) device with id `id`.
pub open spec fn slot_matches(r: SlotRegs, id: u32) -> bool {
    r.0 == MAGIC && r.1 == 1 && r.2 == id
}

/// MMIO base of slot `i`.
pub open spec fn slot_base(i: int) -> int {
    VIRTIO_BASE + i * SLOT_STRIDE
}

/// Probes the slots in order and returns the base of the first one that
/// holds a legacy device with id `id`; devices of other ids and other
/// versions are skipped.
pub fn find_device(regs: &[SlotRegs], id: u32) -> (r: Option<usize>)
    requires
        regs@.len() <= SLOTS,
    ensures
        r matches Some(base) ==> exists|i: int|
            0 <= i < regs@.len() && #[trigger] slot_matches(regs@[i], id) && base == slot_base(i) && forall|k: int|
                0 <= k < i ==> !#[trigger] slot_matches(regs@[k], id),
        r is None ==> forall|k: int| 0 <= k < regs@.len() ==> !#[trigger] slot_matches(regs@[k], id),
{
    let mut i: usize = 0;
    while i < regs.len()
        invariant
            regs@.len() <= SLOTS,
            i <= regs@.len(),
            forall|k: int| 0 <= k < i ==> !#[trigger] slot_matches(regs@[k], id),
        decreases regs@.len() - i,
    {
        let (magic, version, dev) = regs[i];
        if magic == MAGIC && version == 1 && dev == id {
            assert(slot_matches(regs@[i as int], id));
            return Some(VIRTIO_BASE + i * SLOT_STRIDE);
        }
        i = i + 1;
    }
    None
}

/// Whether a queue whose maximum size reads `max` can hold the driver's
/// `QUEUE_SIZE` descriptors.
pub fn queue_usable(max: u32) -> (r: bool)
    ensures
        r == (max != 0 && max >= QUEUE_SIZE),
{
    max != 0 && max as usize >= QUEUE_SIZE
}

/// Where the descriptor table, available ring and used ring of a legacy
/// queue lie in the two pages at `mem`.
pub fn queue_layout(mem: usize) -> (r: (usize, usize, usize))
    requires
        mem + 2 * PAGE_SIZE <= usize::MAX,
    ensures
        r.0 == mem,
        r.1 == mem + QUEUE_SIZE * DESC_SIZE,
        r.2 == mem + PAGE_SIZE,
{
    (mem, mem + QUEUE_SIZE * DESC_SIZE, mem + PAGE_SIZE)
}

/// Descriptor flag: the chain continues at `next`.
pub const DESC_F_NEXT: u16 = 1;

/// Descriptor flag: the device writes this buffer.
pub const DESC_F_WRITE: u16 = 2;

/// Size of the header virtio-net puts before every frame.
pub const NET_HDR_LEN: usize = 10;

/// Size of each receive buffer.
pub const NET_BUF_SIZE: usize = 2048;

/// Feature bit: the device reports its MAC address in its config space.
pub const F_MAC: u32 = 32;

/// Status bits written during device initialization.
pub const STATUS_ACKNOWLEDGE: u32 = 1;
pub const STATUS_DRIVER: u32 = 2;
pub const STATUS_DRIVER_OK: u32 = 4;

/// One buffer descriptor: guest-physical address, length, flags and
/// the next descriptor of a chain.
#[derive(Clone, Copy, Debug, PartialEq, Eq, Structural)]
pub struct Descriptor {
    pub addr: u64,
    pub len: u32,
    pub flags: u16,
    pub next: u16,
}

/// The ring of buffers the driver offers: `ring[i % QUEUE_SIZE]` for
/// every `i` below `idx` (which wraps at 2^16).
pub struct AvailRing {
    pub flags: u16,
    pub idx: u16,
    pub ring: Vec<u16>,
    pub used_event: u16,
}

/// A buffer the device has finished with, and how many bytes it wrote.
#[derive(Clone, Copy, Debug, PartialEq, Eq, Structural)]
pub struct UsedElem {
    pub id: u32,
    pub len: u32,
}

/// The ring of buffers the device hands back.
pub struct UsedRing {
    pub flags: u16,
    pub idx: u16,
    pub ring: Vec<UsedElem>,
    pub avail_event: u16,
}

/// The driver's side of one legacy virtqueue: the descriptor table, the
/// two rings it shares with the device, and how far it has consumed the
/// used ring.
pub struct VirtQueue {
    /// MMIO base of the owning transport.
    pub base: usize,
    pub desc: Vec<Descriptor>,
    pub avail: AvailRing,
    pub used: UsedRing,
    pub last_used: u16,
}

/// `x + 1` wrapping at 2^16.
pub open spec fn next16(x: u16) -> u16 {
    if x == u16::MAX { 0 } else { (x + 1) as u16 }
}

impl VirtQueue {
    pub open spec fn wf(&self) -> bool {
        &&& self.desc@.len() == QUEUE_SIZE
        &&& self.avail.ring@.len() == QUEUE_SIZE
        &&& self.used.ring@.len() == QUEUE_SIZE
    }

    /// A queue of the transport at `base` with every ring empty.
    pub fn new(base: usize) -> (q: VirtQueue)
        ensures
            q.wf(),
            q.base == base,
            q.avail.idx == 0,
            q.used.idx == 0,
            q.last_used == 0,
            forall|i: int| 0 <= i < QUEUE_SIZE ==> #[trigger] q.desc@[i] == (Descriptor { addr: 0, len: 0, flags: 0, next: 0 }),
    {
        let mut desc: Vec<Descriptor> = Vec::new();
        let mut ring: Vec<u16> = Vec::new();
        let mut used: Vec<UsedElem> = Vec::new();
        let mut i: usize = 0;
        while i < QUEUE_SIZE
            invariant
                i <= QUEUE_SIZE,
                desc@.len() == i,
                ring@.len() == i,
                used@.len() == i,
                forall|k: int| 0 <= k < i ==> #[trigger] desc@[k] == (Descriptor { addr: 0, len: 0, flags: 0, next: 0 }),
            decreases QUEUE_SIZE - i,
        {
            desc.push(Descriptor { addr: 0, len: 0, flags: 0, next: 0 });
            ring.push(0);
            used.push(UsedElem { id: 0, len: 0 });
            i = i + 1;
        }
        VirtQueue {
            base,
            desc,
            avail: AvailRing { flags: 0, idx: 0, ring, used_event: 0 },
            used: UsedRing { flags: 0, idx: 0, ring: used, avail_event: 0 },
            last_used: 0,
        }
    }

    /// Sets descriptor `i`.
    pub fn set_desc(&mut self, i: usize, d: Descriptor)
        requires
            old(self).wf(),
            i < QUEUE_SIZE,
        ensures
            final(self).wf(),
            final(self).desc@ == old(self).desc@.update(i as int, d),
            final(self).avail.idx == old(self).avail.idx,
            final(self).avail.ring@ == old(self).avail.ring@,
            final(self).used.idx == old(self).used.idx,
            final(self).used.ring@ == old(self).used.ring@,
            final(self).last_used == old(self).last_used,
    {
        self.desc.set(i, d);
    }

    /// Offers the chain that starts at descriptor `head` to the device:
    /// it goes in the next slot of the available ring, and the index
    /// moves on.
    pub fn offer(&mut self, head: u16)
        requires
            old(self).wf(),
        ensures
            final(self).wf(),
            final(self).avail.ring@ == old(self).avail.ring@.update(old(self).avail.idx as int % QUEUE_SIZE as int, head),
            final(self).avail.idx == next16(old(self).avail.idx),
            final(self).desc@ == old(self).desc@,
            final(self).used.idx == old(self).used.idx,
            final(self).used.ring@ == old(self).used.ring@,
            final(self).last_used == old(self).last_used,
    {
        let slot = self.avail.idx as usize % QUEUE_SIZE;
        self.avail.ring.set(slot, head);
        self.avail.idx = if self.avail.idx == u16::MAX { 0 } else { self.avail.idx + 1 };
    }

    /// The next buffer the device has returned, if any: the used-ring
    /// entry at `last_used`, which then moves on.
    pub fn take_used(&mut self) -> (r: Option<UsedElem>)
        requires
            old(self).wf(),
        ensures
            final(self).wf(),
            final(self).desc@ == old(self).desc@,
            final(self).avail.idx == old(self).avail.idx,
            final(self).avail.ring@ == old(self).avail.ring@,
            final(self).used.idx == old(self).used.idx,
            final(self).used.ring@ == old(self).used.ring@,
            old(self).used.idx == old(self).last_used ==> r is None && final(self).last_used == old(self).last_used,
            old(self).used.idx != old(self).last_used ==> r == Some(
                old(self).used.ring@[old(self).last_used as int % QUEUE_SIZE as int],
            ) && final(self).last_used == next16(old(self).last_used),
    {
        if self.used.idx == self.last_used {
            return None;
        }
        let e = self.used.ring[self.last_used as usize % QUEUE_SIZE];
        self.last_used = if self.last_used == u16::MAX { 0 } else { self.last_used + 1 };
        Some(e)
    }
}

/// The received frame a used-ring entry describes, past its virtio-net
/// header: the buffer index and the frame length. Entries with nothing
/// past the header, or with an unknown buffer, carry no frame.
pub fn rx_frame(e: UsedElem) -> (r: Option<(usize, usize)>)
    ensures
        (e.len > NET_HDR_LEN && e.id < QUEUE_SIZE) ==> r == Some((e.id as usize, (e.len - NET_HDR_LEN) as usize)),
        !(e.len > NET_HDR_LEN && e.id < QUEUE_SIZE) ==> r is None,
{
    if e.len as usize > NET_HDR_LEN && (e.id as usize) < QUEUE_SIZE {
        Some((e.id as usize, e.len as usize - NET_HDR_LEN))
    } else {
        None
    }
}

/// The descriptor that posts receive buffer `i` of the `NET_BUF_SIZE`
/// buffers starting at `rx_mem` for the device to fill.
pub fn rx_desc(rx_mem: u64, i: usize) -> (d: Descriptor)
    requires
        i < QUEUE_SIZE,
        rx_mem + QUEUE_SIZE * NET_BUF_SIZE <= u64::MAX,
    ensures
        d == (Descriptor { addr: (rx_mem + i * NET_BUF_SIZE) as u64, len: NET_BUF_SIZE as u32, flags: DESC_F_WRITE, next: 0 }),
{
    Descriptor { addr: rx_mem + i as u64 * NET_BUF_SIZE as u64, len: NET_BUF_SIZE as u32, flags: DESC_F_WRITE, next: 0 }
}

/// The three-descriptor chain of a block request: the request header
/// (read by the device), the data buffer (written by the device for a
/// read), and the status byte (written by the device).
pub fn blk_chain(header: u64, header_len: u32, buf: u64, buf_len: u32, status: u64, write: bool) -> (r: [Descriptor; 3])
    ensures
        r@[0] == (Descriptor { addr: header, len: header_len, flags: DESC_F_NEXT, next: 1 }),
        r@[1] == (Descriptor {
            addr: buf,
            len: buf_len,
            flags: if write { DESC_F_NEXT } else { (DESC_F_NEXT | DESC_F_WRITE) as u16 },
            next: 2,
        }),
        r@[2] == (Descriptor { addr: status, len: 1, flags: DESC_F_WRITE, next: 0 }),
{
    let data_flags = if write { DESC_F_NEXT } else { DESC_F_NEXT | DESC_F_WRITE };
    [
        Descriptor { addr: header, len: header_len, flags: DESC_F_NEXT, next: 1 },
        Descriptor { addr: buf, len: buf_len, flags: data_flags, next: 2 },
        Descriptor { addr: status, len: 1, flags: DESC_F_WRITE, next: 0 },
    ]
}

/// The features the network driver accepts of those `offered`: only the
/// MAC address.
pub fn net_features(offered: u32) -> (r: u32)
    ensures
        r == offered & F_MAC,
{
    offered & F_MAC
}

/// The block device's capacity in sectors, from the two halves of its
/// config word.
pub fn capacity_sectors(lo: u32, hi: u32) -> (r: u64)
    ensures
        r == hi as u64 * 0x1_0000_0000 + lo as u64,
{
    let r = ((hi as u64) << 32u64) | lo as u64;
    assert(r == hi as u64 * 0x1_0000_0000 + lo as u64) by (bit_vector)
        requires
            r == ((hi as u64) << 32u64) | lo as u64,
    ;
    r
}

/// Register offsets the bring-up writes.
pub const REG_GUEST_FEATURES: usize = 0x020;
pub const REG_GUEST_PAGE_SIZE: usize = 0x028;
pub const REG_STATUS: usize = 0x070;

/// What bringing up a legacy device writes before its queue is set up,
/// as (register offset, value): reset, ACKNOWLEDGE, DRIVER, no features
/// accepted, the guest page size.
pub open spec fn bringup_seq() -> Seq<(usize, u32)> {
    seq![
        (REG_STATUS, 0u32),
        (REG_STATUS, STATUS_ACKNOWLEDGE),
        (REG_STATUS, STATUS_ACKNOWLEDGE | STATUS_DRIVER),
        (REG_GUEST_FEATURES, 0u32),
        (REG_GUEST_PAGE_SIZE, PAGE_SIZE as u32),
    ]
}

/// The bring-up writes, in order.
pub fn bringup_writes() -> (r: Vec<(usize, u32)>)
    ensures
        r@ == bringup_seq(),
{
    let r = vec![
        (REG_STATUS, 0u32),
        (REG_STATUS, STATUS_ACKNOWLEDGE),
        (REG_STATUS, STATUS_ACKNOWLEDGE | STATUS_DRIVER),
        (REG_GUEST_FEATURES, 0u32),
        (REG_GUEST_PAGE_SIZE, PAGE_SIZE as u32),
    ];
    assert(r@ =~= bringup_seq());
    r
}

/// The status a device gets once its queue is set up.
pub fn driver_ok_status() -> (r: u32)
    ensures
        r == STATUS_ACKNOWLEDGE | STATUS_DRIVER | STATUS_DRIVER_OK,
{
    STATUS_ACKNOWLEDGE | STATUS_DRIVER | STATUS_DRIVER_OK
}

/// The block device to bring up: the first slot holding a legacy block
/// device (`find_device`). `queue_max` is what its queue 0 reports as its
/// maximum size once the bring-up writes (`bringup_writes`) are done; a
/// queue too small for `QUEUE_SIZE` descriptors leaves no device. On
/// `Some`, the caller sets the queue up and writes `driver_ok_status`.
pub fn probe_block_device(regs: &[SlotRegs], queue_max: u32) -> (r: Option<usize>)
    requires
        regs@.len() <= SLOTS,
    ensures
        r matches Some(base) ==> queue_usable_spec(queue_max) && exists|i: int|
            0 <= i < regs@.len() && #[trigger] slot_matches(regs@[i], DEVICE_ID_BLOCK) && base == slot_base(i)
                && forall|k: int| 0 <= k < i ==> !#[trigger] slot_matches(regs@[k], DEVICE_ID_BLOCK),
        r is None ==> !queue_usable_spec(queue_max) || forall|k: int| 0 <= k < regs@.len() ==> !#[trigger] slot_matches(regs@[k], DEVICE_ID_BLOCK),
{
    let base = find_device(regs, DEVICE_ID_BLOCK)?;
    if !queue_usable(queue_max) {
        return None;
    }
    Some(base)
}

/// A queue whose maximum size is `max` holds `QUEUE_SIZE` descriptors.
pub open spec fn queue_usable_spec(max: u32) -> bool {
    max != 0 && max >= QUEUE_SIZE
}

} // verus!
