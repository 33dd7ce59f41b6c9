//! VirtIO block device: sector-addressed storage with capacity checks.
//!
//! The device is modelled by its contents: `read_sectors` and
//! `write_sectors` are the synchronous request path as the filesystem
//! sees it (a 512-byte-sector transfer that fails beyond capacity).

use vstd::prelude::*;

verus! {

pub const SECTOR_SIZE: usize = 512;

/// An initialized block device: its contents, `capacity` sectors long.
pub struct BlkDev {
    pub data: Vec<u8>,
}

impl BlkDev {
    pub open spec fn wf(&self) -> bool {
        self.data@.len() % (SECTOR_SIZE as nat) == 0
    }

    /// Capacity in sectors.
    pub open spec fn capacity(&self) -> nat {
        self.data@.len() / (SECTOR_SIZE as nat)
    }
}

/// The device with contents `data`, when it holds whole sectors.
pub fn init(data: Vec<u8>) -> (r: Option<BlkDev>)
    ensures
        match r {
            Some(d) => d.wf() && d.data@ == data@ && data@.len() % (SECTOR_SIZE as nat) == 0,
            None => data@.len() % (SECTOR_SIZE as nat) != 0,
        },
{
    if data.len() % SECTOR_SIZE != 0 {
        return None;
    }
    Some(BlkDev { data })
}

pub fn is_present(dev: &Option<BlkDev>) -> (r: bool)
    ensures
        r == dev is Some,
{
    dev.is_some()
}

/// Whether a transfer of `len` bytes at `sector` fits the device.
pub open spec fn in_capacity(dev: BlkDev, sector: u64, len: nat) -> bool {
    sector as nat * SECTOR_SIZE as nat + len <= dev.data@.len()
}

/// Byte offset of `sector` when `len` bytes from there fit in `total`.
fn transfer_start(sector: u64, len: usize, total: usize) -> (r: Option<usize>)
    ensures
        match r {
            Some(s) => s == sector as int * SECTOR_SIZE as int && s + len <= total,
            None => sector as int * SECTOR_SIZE as int + len > total,
        },
{
    if len > total {
        return None;
    }
    let room = (total - len) / SECTOR_SIZE;
    if sector as u128 > room as u128 {
        assert(sector as int * SECTOR_SIZE as int > total - len) by (nonlinear_arith)
            requires
                sector > room,
                room == (total - len) / 512,
                total >= len;
        return None;
    }
    assert(sector as int * SECTOR_SIZE as int <= total - len) by (nonlinear_arith)
        requires
            sector <= room,
            room == (total - len) / 512,
            total >= len;
    let s = sector as usize * SECTOR_SIZE;
    Some(s)
}

/// Read `buf.len()` bytes starting at byte offset `sector * 512`.
pub fn read_sectors(dev: &Option<BlkDev>, sector: u64, buf: &mut [u8]) -> (r: Result<(), &'static str>)
    requires
        old(buf)@.len() % (SECTOR_SIZE as nat) == 0,
    ensures
        final(buf)@.len() == old(buf)@.len(),
        dev is None ==> r == Err::<(), &'static str>("virtio-blk: not initialized") && final(buf)@ == old(buf)@,
        dev is Some && !in_capacity(dev->0, sector, old(buf)@.len()) ==> r == Err::<(), &'static str>(
            "virtio-blk: transfer beyond device capacity",
        ) && final(buf)@ == old(buf)@,
        dev is Some && in_capacity(dev->0, sector, old(buf)@.len()) ==> r is Ok && final(buf)@
            == dev->0.data@.subrange(
            sector as int * SECTOR_SIZE as int,
            sector as int * SECTOR_SIZE as int + old(buf)@.len(),
        ),
{
    let d = match dev {
        Some(d) => d,
        None => {
            return Err("virtio-blk: not initialized");
        },
    };
    let len = buf.len();
    let total = d.data.len();
    let start = match transfer_start(sector, len, total) {
        Some(s) => s,
        None => {
            return Err("virtio-blk: transfer beyond device capacity");
        },
    };
    let mut i: usize = 0;
    while i < len
        invariant
            total == d.data@.len(),
            len == buf@.len(),
            start + len <= d.data@.len(),
            start == sector as int * SECTOR_SIZE as int,
            i <= len,
            forall|j: int| 0 <= j < i ==> buf@[j] == d.data@[start + j],
        decreases len - i,
    {
        buf[i] = d.data[start + i];
        i = i + 1;
    }
    assert(buf@ =~= d.data@.subrange(start as int, start + len));
    Ok(())
}

/// Write `buf` starting at byte offset `sector * 512`.
pub fn write_sectors(dev: &mut Option<BlkDev>, sector: u64, buf: &[u8]) -> (r: Result<(), &'static str>)
    requires
        buf@.len() % (SECTOR_SIZE as nat) == 0,
    ensures
        *old(dev) is None ==> r == Err::<(), &'static str>("virtio-blk: not initialized") && *final(dev) == *old(dev),
        *old(dev) is Some && !in_capacity((*old(dev))->0, sector, buf@.len()) ==> r == Err::<(), &'static str>(
            "virtio-blk: transfer beyond device capacity",
        ) && *final(dev) == *old(dev),
        *old(dev) is Some && in_capacity((*old(dev))->0, sector, buf@.len()) ==> {
            let s = sector as int * SECTOR_SIZE as int;
            let old_data = (*old(dev))->0.data@;
            &&& r is Ok
            &&& *final(dev) is Some
            &&& (*final(dev))->0.data@ == old_data.subrange(0, s) + buf@ + old_data.subrange(s + buf@.len(), old_data.len() as int)
        },
{
    match dev {
        None => {
            return Err("virtio-blk: not initialized");
        },
        Some(d) => {
            let len = buf.len();
            let total = d.data.len();
            let start = match transfer_start(sector, len, total) {
                Some(s) => s,
                None => {
                    return Err("virtio-blk: transfer beyond device capacity");
                },
            };
            let ghost old_data = d.data@;
            let mut i: usize = 0;
            while i < len
                invariant
                    total == old_data.len(),
                    len == buf@.len(),
                    start + len <= old_data.len(),
                    d.data@.len() == old_data.len(),
                    start == sector as int * SECTOR_SIZE as int,
                    i <= len,
                    forall|j: int| 0 <= j < d.data@.len() ==> #[trigger] d.data@[j] == if start <= j < start + i {
                        buf@[j - start]
                    } else {
                        old_data[j]
                    },
                decreases len - i,
            {
                d.data.set(start + i, buf[i]);
                i = i + 1;
            }
            assert(d.data@ =~= old_data.subrange(0, start as int) + buf@ + old_data.subrange(
                start + len,
                old_data.len() as int,
            ));
        },
    }
    Ok(())
}

/// Law: a read of sectors just written returns what was written.
pub proof fn lemma_write_then_read(data: Seq<u8>, s: int, buf: Seq<u8>)
    requires
        0 <= s,
        s + buf.len() <= data.len(),
    ensures
        (data.subrange(0, s) + buf + data.subrange(s + buf.len(), data.len() as int)).subrange(s, s + buf.len())
            == buf,
{
    assert((data.subrange(0, s) + buf + data.subrange(s + buf.len(), data.len() as int)).subrange(s, s + buf.len())
        =~= buf);
}

} // verus!
