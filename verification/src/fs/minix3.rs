//! Minix3 filesystem driver (read-only; the format is royalty-free and
//! fully documented).
//!
//! On-disk layout (1024-byte blocks): boot, superblock, inode bitmap,
//! zone bitmap, inode table (64-byte inodes), data zones. Directory
//! entries are 64 bytes: u32 inode + 60-byte name. Zones 0..6 are
//! direct, zone 7 single-indirect, zone 8 double-indirect; all three
//! are followed, so files past 269 KiB read in full.

use vstd::prelude::*;
use crate::drivers::virtio::blk::{self, BlkDev};
use crate::text::is_utf8;
use vstd::utf8::valid_utf8;
use vstd::string::StringSliceAdditionalSpecFns;

verus! {

pub const BLOCK_SIZE: usize = 1024;
pub const MAGIC_V3: u16 = 0x4d5a;
pub const INODE_SIZE: usize = 64;
pub const ROOT_INO: u32 = 1;
pub const DIRENT_SIZE: usize = 64;
pub const ZONES_PER_BLOCK: usize = 256;
pub const INODES_PER_BLOCK: usize = 16;

pub const S_IFDIR: u16 = 0o040000;
pub const S_IFREG: u16 = 0o100000;
pub const S_IFMT: u16 = 0o170000;

/// Little-endian u16 at `b[off]`.
pub open spec fn le16(b: Seq<u8>, off: int) -> u16 {
    (b[off] as nat + b[off + 1] as nat * 256) as u16
}

/// Little-endian u32 at `b[off]`.
pub open spec fn le32(b: Seq<u8>, off: int) -> u32 {
    (b[off] as nat + b[off + 1] as nat * 256 + b[off + 2] as nat * 65536 + b[off + 3] as nat * 16777216) as u32
}

pub fn read_le16(b: &[u8], off: usize) -> (r: u16)
    requires
        off + 2 <= b@.len(),
    ensures
        r == le16(b@, off as int),
{
    b[off] as u16 + b[off + 1] as u16 * 256
}

pub fn read_le32(b: &[u8], off: usize) -> (r: u32)
    requires
        off + 4 <= b@.len(),
    ensures
        r == le32(b@, off as int),
{
    b[off] as u32 + b[off + 1] as u32 * 256 + b[off + 2] as u32 * 65536 + b[off + 3] as u32 * 16777216
}

/// Whether block `b` lies on the device.
pub open spec fn block_ok(dev: Option<BlkDev>, b: nat) -> bool {
    dev is Some && b * 1024 + 1024 <= dev->0.data@.len()
}

/// The bytes of block `b`.
pub open spec fn block_bytes(dev: Option<BlkDev>, b: nat) -> Seq<u8> {
    dev->0.data@.subrange(b as int * 1024, b as int * 1024 + 1024)
}

/// Read one 1024-byte block (two sectors).
pub fn read_block(dev: &Option<BlkDev>, block: u32, buf: &mut [u8]) -> (r: Result<(), &'static str>)
    requires
        old(buf)@.len() == BLOCK_SIZE,
    ensures
        final(buf)@.len() == BLOCK_SIZE,
        r is Ok == block_ok(*dev, block as nat),
        r is Ok ==> final(buf)@ == block_bytes(*dev, block as nat),
{
    let r = blk::read_sectors(dev, block as u64 * 2, buf);
    r
}

#[derive(Clone, Copy)]
pub struct Inode {
    pub ino: u32,
    pub mode: u16,
    pub nlinks: u16,
    pub size: u32,
    pub zones: [u32; 10],
}

impl Inode {
    pub open spec fn spec_is_dir(&self) -> bool {
        self.mode & S_IFMT == S_IFDIR
    }

    pub open spec fn spec_is_file(&self) -> bool {
        self.mode & S_IFMT == S_IFREG
    }

    pub fn is_dir(&self) -> (r: bool)
        ensures
            r == self.spec_is_dir(),
    {
        self.mode & S_IFMT == S_IFDIR
    }

    pub fn is_file(&self) -> (r: bool)
        ensures
            r == self.spec_is_file(),
    {
        self.mode & S_IFMT == S_IFREG
    }
}

pub struct MinixFs {
    pub imap_blocks: u16,
    pub zmap_blocks: u16,
    pub ninodes: u32,
    pub zones: u32,
}

/// Block number of the first inode-table block.
pub open spec fn spec_itable(fs: MinixFs) -> nat {
    (2 + fs.imap_blocks + fs.zmap_blocks) as nat
}

/// The block holding inode `ino` (1-based).
pub open spec fn inode_block(fs: MinixFs, ino: u32) -> nat {
    spec_itable(fs) + ((ino - 1) as nat / 16)
}

/// Byte offset of inode `ino` within its block.
pub open spec fn inode_offset(ino: u32) -> int {
    ((ino - 1) as int % 16) * 64
}

/// Model of an inode: its fields, zone pointers as a sequence.
#[verifier::ext_equal]
pub struct InodeModel {
    pub ino: u32,
    pub mode: u16,
    pub nlinks: u16,
    pub size: u32,
    pub zones: Seq<u32>,
}

impl View for Inode {
    type V = InodeModel;

    open spec fn view(&self) -> InodeModel {
        InodeModel { ino: self.ino, mode: self.mode, nlinks: self.nlinks, size: self.size, zones: self.zones@ }
    }
}

/// The inode decoded from its 64 on-disk bytes at `off` of block `b`.
pub open spec fn decode_inode(b: Seq<u8>, off: int, ino: u32) -> InodeModel {
    InodeModel {
        ino,
        mode: le16(b, off),
        nlinks: le16(b, off + 2),
        size: le32(b, off + 8),
        zones: Seq::new(10, |k: int| le32(b, off + 24 + k * 4)),
    }
}

/// Whether inode number `ino` is valid for this filesystem.
pub open spec fn ino_in_range(fs: MinixFs, ino: u32) -> bool {
    1 <= ino <= fs.ninodes
}

impl MinixFs {
    /// Read and validate the superblock (block 1).
    pub fn mount(dev: &Option<BlkDev>) -> (r: Result<MinixFs, &'static str>)
        ensures
            !block_ok(*dev, 1) ==> r is Err,
            block_ok(*dev, 1) ==> {
                let sb = block_bytes(*dev, 1);
                if le16(sb, 24) != MAGIC_V3 {
                    r == Err::<MinixFs, &'static str>("minix3: bad superblock magic")
                } else if le16(sb, 28) != BLOCK_SIZE {
                    r == Err::<MinixFs, &'static str>("minix3: unsupported block size")
                } else {
                    &&& r is Ok
                    &&& r->Ok_0.ninodes == le32(sb, 0)
                    &&& r->Ok_0.imap_blocks == le16(sb, 6)
                    &&& r->Ok_0.zmap_blocks == le16(sb, 8)
                    &&& r->Ok_0.zones == le32(sb, 20)
                }
            },
    {
        let mut sb: Vec<u8> = vec![0u8; BLOCK_SIZE];
        match read_block(dev, 1, sb.as_mut_slice()) {
            Ok(()) => {},
            Err(e) => {
                return Err(e);
            },
        }
        let magic = read_le16(sb.as_slice(), 24);
        if magic != MAGIC_V3 {
            return Err("minix3: bad superblock magic");
        }
        if read_le16(sb.as_slice(), 28) as usize != BLOCK_SIZE {
            return Err("minix3: unsupported block size");
        }
        Ok(
            MinixFs {
                ninodes: read_le32(sb.as_slice(), 0),
                imap_blocks: read_le16(sb.as_slice(), 6),
                zmap_blocks: read_le16(sb.as_slice(), 8),
                zones: read_le32(sb.as_slice(), 20),
            },
        )
    }

    pub fn inode_table_block(&self) -> (r: u32)
        ensures
            r == spec_itable(*self),
    {
        2 + self.imap_blocks as u32 + self.zmap_blocks as u32
    }

    /// Load inode `ino` (1-based, root = 1).
    pub fn inode(&self, dev: &Option<BlkDev>, ino: u32) -> (r: Result<Inode, &'static str>)
        ensures
            !ino_in_range(*self, ino) ==> r == Err::<Inode, &'static str>("minix3: inode out of range"),
            ino_in_range(*self, ino) ==> (r is Ok == block_ok(*dev, inode_block(*self, ino))),
            r is Ok ==> ino_in_range(*self, ino) && r->Ok_0@ == decode_inode(
                block_bytes(*dev, inode_block(*self, ino)),
                inode_offset(ino),
                ino,
            ),
    {
        if ino == 0 || ino > self.ninodes {
            return Err("minix3: inode out of range");
        }
        let index = (ino - 1) as usize;
        let block = self.inode_table_block() + (index / INODES_PER_BLOCK) as u32;
        let off = (index % INODES_PER_BLOCK) * INODE_SIZE;
        let mut buf: Vec<u8> = vec![0u8; BLOCK_SIZE];
        match read_block(dev, block, buf.as_mut_slice()) {
            Ok(()) => {},
            Err(e) => {
                return Err(e);
            },
        }
        let mut zones = [0u32; 10];
        let mut i: usize = 0;
        while i < 10
            invariant
                buf@.len() == BLOCK_SIZE,
                off + 64 <= BLOCK_SIZE,
                i <= 10,
                forall|k: int| 0 <= k < i ==> #[trigger] zones@[k] == le32(buf@, off + 24 + k * 4),
            decreases 10 - i,
        {
            zones[i] = read_le32(buf.as_slice(), off + 24 + i * 4);
            i = i + 1;
        }
        let r = Inode {
            ino,
            mode: read_le16(buf.as_slice(), off),
            nlinks: read_le16(buf.as_slice(), off + 2),
            size: read_le32(buf.as_slice(), off + 8),
            zones,
        };
        assert(r.zones@ =~= Seq::new(10, |k: int| le32(buf@, off + 24 + k * 4)));
        assert(r@ =~= decode_inode(buf@, off as int, ino));
        Ok(r)
    }

    pub fn stats(&self) -> (r: (u32, u32))
        ensures
            r == (self.ninodes, self.zones),
    {
        (self.ninodes, self.zones)
    }
}


/// The zone holding file block `n`, or `None` when it cannot be read
/// (indirect block off the device, or beyond single-indirect range).
pub open spec fn zone_of(dev: Option<BlkDev>, i: InodeModel, n: nat) -> Option<u32> {
    if n < 7 {
        Some(i.zones[n as int])
    } else if n - 7 < ZONES_PER_BLOCK {
        if i.zones[7] == 0 {
            Some(0u32)
        } else if block_ok(dev, i.zones[7] as nat) {
            Some(le32(block_bytes(dev, i.zones[7] as nat), (n - 7) * 4))
        } else {
            None
        }
    } else if n - 7 - ZONES_PER_BLOCK < ZONES_PER_BLOCK * ZONES_PER_BLOCK {
        let m = n - 7 - ZONES_PER_BLOCK;
        if i.zones[8] == 0 {
            Some(0u32)
        } else if !block_ok(dev, i.zones[8] as nat) {
            None
        } else {
            let z1 = le32(block_bytes(dev, i.zones[8] as nat), (m / 256) * 4);
            if z1 == 0 {
                Some(0u32)
            } else if block_ok(dev, z1 as nat) {
                Some(le32(block_bytes(dev, z1 as nat), (m % 256) * 4))
            } else {
                None
            }
        }
    } else {
        None
    }
}

/// Byte `p` of the file: holes read as zeros; `None` when unreadable.
pub open spec fn file_byte(dev: Option<BlkDev>, i: InodeModel, p: nat) -> Option<u8> {
    match zone_of(dev, i, p / 1024) {
        None => None,
        Some(z) => if z == 0 {
            Some(0u8)
        } else if block_ok(dev, z as nat) {
            Some(dev->0.data@[z as int * 1024 + (p % 1024) as int])
        } else {
            None
        },
    }
}

/// Law: byte `p` of one of the first seven file blocks is read from the
/// inode's direct zone `p / 1024` (a hole, zero, when that zone is zero).
pub proof fn lemma_direct_byte(dev: Option<BlkDev>, i: InodeModel, p: nat)
    requires
        p < 7 * 1024,
    ensures
        ({
            let z = i.zones[(p / 1024) as int] as int;
            let d = dev->0.data@;
            file_byte(dev, i, p) == if z == 0 {
                Some(0u8)
            } else if dev is Some && z * 1024 + 1024 <= d.len() {
                Some(d[z * 1024 + (p % 1024) as int])
            } else {
                None
            }
        }),
{
}

/// Little-endian word `k` of block `b` on the device, read from the
/// device's bytes.
pub open spec fn dev_word(dev: Option<BlkDev>, b: int, k: int) -> int {
    let d = dev->0.data@;
    let at = b * 1024 + k * 4;
    d[at] as int + d[at + 1] as int * 256 + d[at + 2] as int * 65536 + d[at + 3] as int * 16777216
}

proof fn lemma_dev_word(dev: Option<BlkDev>, b: nat, k: int)
    requires
        block_ok(dev, b),
        0 <= k < 256,
    ensures
        le32(block_bytes(dev, b), k * 4) as int == dev_word(dev, b as int, k),
{
    let d = dev->0.data@;
    let bb = block_bytes(dev, b);
    let at = b as int * 1024 + k * 4;
    assert(bb[k * 4] == d[at] && bb[k * 4 + 1] == d[at + 1] && bb[k * 4 + 2] == d[at + 2] && bb[k * 4 + 3] == d[at + 3]);
}

/// Law: file blocks 7 to 262 are found through the single-indirect zone,
/// inode zone 7. Byte `p` of such a block is a hole (zero) when zone 7 is
/// zero; otherwise the block's zone number is the little-endian word
/// `p / 1024 - 7` of the block that zone 7 names, and the byte is read
/// from that zone (zero again when the word is zero).
pub proof fn lemma_single_indirect_byte(dev: Option<BlkDev>, i: InodeModel, p: nat)
    requires
        7 * 1024 <= p < (7 + 256) * 1024,
    ensures
        i.zones[7] == 0 ==> file_byte(dev, i, p) == Some(0u8),
        i.zones[7] != 0 && !block_ok(dev, i.zones[7] as nat) ==> file_byte(dev, i, p) is None,
        i.zones[7] != 0 && block_ok(dev, i.zones[7] as nat) ==> {
            let d = dev->0.data@;
            let z = dev_word(dev, i.zones[7] as int, p / 1024 - 7);
            file_byte(dev, i, p) == if z == 0 {
                Some(0u8)
            } else if z * 1024 + 1024 <= d.len() {
                Some(d[z * 1024 + (p % 1024) as int])
            } else {
                None
            }
        },
{
    let n = p / 1024;
    assert(7 <= n < 263);
    if i.zones[7] != 0 && block_ok(dev, i.zones[7] as nat) {
        lemma_dev_word(dev, i.zones[7] as nat, n - 7);
    }
}

/// Law: file blocks from 263 on (up to 263 + 256 * 256) are found through
/// the double-indirect zone, inode zone 8: word `m / 256` (with
/// `m = p / 1024 - 263`) of the block zone 8 names gives a block whose
/// word `m % 256` is the data zone; a zero at either step is a hole.
pub proof fn lemma_double_indirect_byte(dev: Option<BlkDev>, i: InodeModel, p: nat)
    requires
        263 * 1024 <= p < (263 + 65536) * 1024,
    ensures
        i.zones[8] == 0 ==> file_byte(dev, i, p) == Some(0u8),
        i.zones[8] != 0 && !block_ok(dev, i.zones[8] as nat) ==> file_byte(dev, i, p) is None,
        i.zones[8] != 0 && block_ok(dev, i.zones[8] as nat) ==> {
            let m = p / 1024 - 263;
            let d = dev->0.data@;
            let z1 = dev_word(dev, i.zones[8] as int, m / 256);
            file_byte(dev, i, p) == if z1 == 0 {
                Some(0u8)
            } else if z1 * 1024 + 1024 > d.len() {
                None
            } else {
                let z = dev_word(dev, z1, m % 256);
                if z == 0 {
                    Some(0u8)
                } else if z * 1024 + 1024 <= d.len() {
                    Some(d[z * 1024 + (p % 1024) as int])
                } else {
                    None
                }
            }
        },
{
    let n = p / 1024;
    assert(263 <= n < 263 + 65536);
    let m = (n - 263) as int;
    assert(0 <= m / 256 < 256 && 0 <= m % 256 < 256) by (nonlinear_arith)
        requires
            0 <= m < 65536,
    ;
    if i.zones[8] != 0 && block_ok(dev, i.zones[8] as nat) {
        lemma_dev_word(dev, i.zones[8] as nat, m / 256);
        let z1 = dev_word(dev, i.zones[8] as int, m / 256);
        if z1 != 0 && block_ok(dev, z1 as nat) {
            lemma_dev_word(dev, z1 as nat, m % 256);
        }
    }
}

/// How many bytes a read of `len` at `offset` transfers.
pub open spec fn want(i: InodeModel, offset: nat, len: nat) -> nat {
    if offset >= i.size {
        0
    } else if len < i.size - offset {
        len
    } else {
        (i.size - offset) as nat
    }
}

/// Bytes `[offset, offset + n)` of the file are all readable.
pub open spec fn bytes_ok(dev: Option<BlkDev>, i: InodeModel, offset: nat, n: nat) -> bool {
    forall|k: nat| k < n ==> #[trigger] file_byte(dev, i, offset + k) is Some
}

proof fn lemma_div_mod_1024(pos: nat, j: nat)
    requires
        pos % 1024 + j < 1024,
    ensures
        (pos + j) / 1024 == pos / 1024,
        (pos + j) % 1024 == pos % 1024 + j,
{
    assert((pos + j) / 1024 == pos / 1024 && (pos + j) % 1024 == pos % 1024 + j) by (nonlinear_arith)
        requires
            pos % 1024 + j < 1024,
    {
        assert(pos == 1024 * (pos / 1024) + pos % 1024);
        assert(pos + j == 1024 * (pos / 1024) + (pos % 1024 + j));
    }
}

impl MinixFs {
    /// Zone number holding bytes `[n*1024, (n+1)*1024)` of the file,
    /// following the single- or double-indirect zone when needed.
    pub fn file_zone(&self, dev: &Option<BlkDev>, inode: &Inode, n: usize) -> (r: Result<u32, &'static str>)
        ensures
            match r {
                Ok(z) => zone_of(*dev, inode@, n as nat) == Some(z),
                Err(_) => zone_of(*dev, inode@, n as nat) is None,
            },
    {
        if n < 7 {
            return Ok(inode.zones[n]);
        }
        let indirect = n - 7;
        if indirect < ZONES_PER_BLOCK {
            if inode.zones[7] == 0 {
                return Ok(0);
            }
            let mut buf: Vec<u8> = vec![0u8; BLOCK_SIZE];
            match read_block(dev, inode.zones[7], buf.as_mut_slice()) {
                Ok(()) => {},
                Err(e) => {
                    return Err(e);
                },
            }
            return Ok(read_le32(buf.as_slice(), indirect * 4));
        }
        let m = indirect - ZONES_PER_BLOCK;
        if m < ZONES_PER_BLOCK * ZONES_PER_BLOCK {
            if inode.zones[8] == 0 {
                return Ok(0);
            }
            let mut buf: Vec<u8> = vec![0u8; BLOCK_SIZE];
            match read_block(dev, inode.zones[8], buf.as_mut_slice()) {
                Ok(()) => {},
                Err(e) => {
                    return Err(e);
                },
            }
            proof {
                assert(m / 256 < 256) by (nonlinear_arith)
                    requires
                        m < 65536,
                ;
            }
            let z1 = read_le32(buf.as_slice(), (m / 256) * 4);
            if z1 == 0 {
                return Ok(0);
            }
            match read_block(dev, z1, buf.as_mut_slice()) {
                Ok(()) => {},
                Err(e) => {
                    return Err(e);
                },
            }
            return Ok(read_le32(buf.as_slice(), (m % 256) * 4));
        }
        Err("minix3: file too large")
    }

    /// Read up to `buf.len()` bytes at `offset`; returns bytes read.
    pub fn read_at(&self, dev: &Option<BlkDev>, inode: &Inode, offset: usize, buf: &mut [u8]) -> (r: Result<usize, &'static str>)
        ensures
            final(buf)@.len() == old(buf)@.len(),
            r is Ok == bytes_ok(*dev, inode@, offset as nat, want(inode@, offset as nat, old(buf)@.len())),
            r is Ok ==> {
                let n = r->Ok_0;
                &&& n == want(inode@, offset as nat, old(buf)@.len())
                &&& forall|k: int| 0 <= k < n ==> Some(#[trigger] final(buf)@[k]) == file_byte(*dev, inode@, (offset + k) as nat)
                &&& forall|k: int| n <= k < old(buf)@.len() ==> #[trigger] final(buf)@[k] == old(buf)@[k]
            },
    {
        let size = inode.size as usize;
        if offset >= size {
            return Ok(0);
        }
        let want_n: usize = if buf.len() < size - offset { buf.len() } else { size - offset };
        let mut done: usize = 0;
        while done < want_n
            invariant
                want_n == want(inode@, offset as nat, old(buf)@.len()),
                offset < size,
                size == inode.size,
                want_n <= buf@.len(),
                buf@.len() == old(buf)@.len(),
                done <= want_n,
                forall|k: int| 0 <= k < done ==> Some(#[trigger] buf@[k]) == file_byte(*dev, inode@, (offset + k) as nat),
                forall|k: int| done <= k < buf@.len() ==> #[trigger] buf@[k] == old(buf)@[k],
            decreases want_n - done,
        {
            let pos = offset + done;
            let zone = match self.file_zone(dev, inode, pos / BLOCK_SIZE) {
                Ok(z) => z,
                Err(e) => {
                    assert(file_byte(*dev, inode@, (offset + done) as nat) is None);
                    return Err(e);
                },
            };
            let in_block = pos % BLOCK_SIZE;
            let n: usize = if BLOCK_SIZE - in_block < want_n - done { BLOCK_SIZE - in_block } else { want_n - done };
            if zone == 0 {
                let mut j: usize = 0;
                while j < n
                    invariant
                        done + n <= want_n <= buf@.len(),
                        buf@.len() == old(buf)@.len(),
                        in_block == pos % 1024,
                        pos == offset + done,
                        in_block + n <= 1024,
                        zone_of(*dev, inode@, (pos / 1024) as nat) == Some(0u32),
                        j <= n,
                        forall|k: int| 0 <= k < done + j ==> Some(#[trigger] buf@[k]) == file_byte(*dev, inode@, (offset + k) as nat),
                        forall|k: int| done + j <= k < buf@.len() ==> #[trigger] buf@[k] == old(buf)@[k],
                    decreases n - j,
                {
                    proof {
                        lemma_div_mod_1024(pos as nat, j as nat);
                    }
                    buf[done + j] = 0;
                    j = j + 1;
                }
            } else {
                let mut block: Vec<u8> = vec![0u8; BLOCK_SIZE];
                match read_block(dev, zone, block.as_mut_slice()) {
                    Ok(()) => {},
                    Err(e) => {
                        assert(file_byte(*dev, inode@, (offset + done) as nat) is None);
                        return Err(e);
                    },
                }
                let mut j: usize = 0;
                while j < n
                    invariant
                        done + n <= want_n <= buf@.len(),
                        buf@.len() == old(buf)@.len(),
                        block@.len() == 1024,
                        block@ == block_bytes(*dev, zone as nat),
                        block_ok(*dev, zone as nat),
                        zone != 0,
                        in_block == pos % 1024,
                        pos == offset + done,
                        in_block + n <= 1024,
                        zone_of(*dev, inode@, (pos / 1024) as nat) == Some(zone),
                        j <= n,
                        forall|k: int| 0 <= k < done + j ==> Some(#[trigger] buf@[k]) == file_byte(*dev, inode@, (offset + k) as nat),
                        forall|k: int| done + j <= k < buf@.len() ==> #[trigger] buf@[k] == old(buf)@[k],
                    decreases n - j,
                {
                    proof {
                        lemma_div_mod_1024(pos as nat, j as nat);
                    }
                    buf[done + j] = block[in_block + j];
                    j = j + 1;
                }
            }
            done = done + n;
        }
        proof {
            assert forall|k: nat| k < want_n implies #[trigger] file_byte(*dev, inode@, offset as nat + k) is Some by {
                assert(Some(buf@[k as int]) == file_byte(*dev, inode@, (offset + k) as nat));
            }
        }
        Ok(done)
    }

    /// Whole-file read (for exec).
    pub fn read_file(&self, dev: &Option<BlkDev>, inode: &Inode) -> (r: Result<Vec<u8>, &'static str>)
        ensures
            r is Ok == bytes_ok(*dev, inode@, 0, inode.size as nat),
            r is Ok ==> r->Ok_0@.len() == inode.size && forall|k: int|
                0 <= k < inode.size ==> Some(#[trigger] r->Ok_0@[k]) == file_byte(*dev, inode@, k as nat),
    {
        let mut data: Vec<u8> = vec![0u8; inode.size as usize];
        let n = match self.read_at(dev, inode, 0, data.as_mut_slice()) {
            Ok(n) => n,
            Err(e) => {
                return Err(e);
            },
        };
        data.truncate(n);
        Ok(data)
    }
}


/// Length of a directory entry's name: up to the first NUL in the 60
/// name bytes, or all 60.
pub open spec fn name_len(raw: Seq<u8>) -> int {
    let f = name_field(raw);
    if exists|i: int| 0 <= i < 60 && f[i] == 0 {
        choose|i: int| 0 <= i < 60 && f[i] == 0 && forall|j: int| 0 <= j < i ==> f[j] != 0
    } else {
        60
    }
}

/// The 60 name bytes of a raw directory entry.
pub open spec fn name_field(raw: Seq<u8>) -> Seq<u8> {
    raw.subrange(4, 64)
}

/// The (name, inode) a raw 64-byte entry names: none for a free entry
/// (inode 0) or a name that is not UTF-8.
pub open spec fn entry_of(raw: Seq<u8>) -> Option<(Seq<u8>, u32)> {
    let ino = le32(raw, 0);
    let name = raw.subrange(4, 4 + name_len(raw));
    if ino == 0 || !valid_utf8(name) {
        None
    } else {
        Some((name, ino))
    }
}

/// The raw bytes of directory entry `k`, if readable.
pub open spec fn dirent_raw(dev: Option<BlkDev>, dir: InodeModel, k: nat) -> Option<Seq<u8>> {
    if bytes_ok(dev, dir, k * 64, 64) {
        Some(Seq::new(64, |j: int| file_byte(dev, dir, (k * 64 + j) as nat)->0))
    } else {
        None
    }
}

/// The named entries among the first `k` directory slots, in order;
/// `None` when one of those slots cannot be read.
pub open spec fn spec_readdir(dev: Option<BlkDev>, dir: InodeModel, k: nat) -> Option<Seq<(Seq<u8>, u32)>>
    decreases k,
{
    if k == 0 {
        Some(Seq::empty())
    } else {
        match spec_readdir(dev, dir, (k - 1) as nat) {
            None => None,
            Some(es) => match dirent_raw(dev, dir, (k - 1) as nat) {
                None => None,
                Some(raw) => Some(
                    match entry_of(raw) {
                        Some(e) => es.push(e),
                        None => es,
                    },
                ),
            },
        }
    }
}

/// The inode of the last entry called `name`, if any.
pub open spec fn last_match(es: Seq<(Seq<u8>, u32)>, name: Seq<u8>) -> Option<u32>
    decreases es.len(),
{
    if es.len() == 0 {
        None
    } else if es.last().0 == name {
        Some(es.last().1)
    } else {
        last_match(es.drop_last(), name)
    }
}

/// Position of the first NUL among the 60 name bytes (60 if none).
fn entry_name_len(raw: &[u8]) -> (r: usize)
    requires
        raw@.len() == 64,
    ensures
        r == name_len(raw@),
        r <= 60,
{
    let ghost f = name_field(raw@);
    let mut i: usize = 0;
    while i < 60 && raw[4 + i] != 0
        invariant
            raw@.len() == 64,
            f == name_field(raw@),
            i <= 60,
            forall|j: int| 0 <= j < i ==> f[j] != 0,
        decreases 60 - i,
    {
        assert(f[i as int] == raw@[4 + i]);
        i = i + 1;
    }
    proof {
        if i < 60 {
            assert(f[i as int] == raw@[4 + i]);
            let c = choose|c: int| 0 <= c < 60 && f[c] == 0 && forall|j: int| 0 <= j < c ==> f[j] != 0;
            assert(0 <= c < 60 && f[c] == 0 && forall|j: int| 0 <= j < c ==> f[j] != 0);
            if c < i {
                assert(f[c] != 0);
            } else if c > i {
                assert(f[i as int] == 0);
            }
        } else {
            assert(!exists|c: int| 0 <= c < 60 && f[c] == 0);
        }
    }
    i
}

/// Copy of `b[from..to]`.
fn copy_range(b: &[u8], from: usize, to: usize) -> (r: Vec<u8>)
    requires
        from <= to <= b@.len(),
    ensures
        r@ == b@.subrange(from as int, to as int),
{
    let mut r: Vec<u8> = Vec::new();
    let mut i = from;
    while i < to
        invariant
            from <= i <= to <= b@.len(),
            r@ == b@.subrange(from as int, i as int),
        decreases to - i,
    {
        r.push(b[i]);
        i = i + 1;
        assert(r@ =~= b@.subrange(from as int, i as int));
    }
    r
}

impl MinixFs {
    /// The directory's entries in order, as (name, inode) pairs; names
    /// that are not valid UTF-8 are skipped.
    pub fn readdir(&self, dev: &Option<BlkDev>, dir: &Inode) -> (r: Result<Vec<(Vec<u8>, u32)>, &'static str>)
        ensures
            !dir.spec_is_dir() ==> r == Err::<Vec<(Vec<u8>, u32)>, &'static str>("minix3: not a directory"),
            dir.spec_is_dir() ==> (r is Ok == spec_readdir(*dev, dir@, dir.size as nat / 64) is Some),
            r is Ok ==> r->Ok_0@.map_values(|e: (Vec<u8>, u32)| (e.0@, e.1)) == spec_readdir(
                *dev,
                dir@,
                dir.size as nat / 64,
            )->0,
    {
        if !dir.is_dir() {
            return Err("minix3: not a directory");
        }
        let mut out: Vec<(Vec<u8>, u32)> = Vec::new();
        let mut offset: usize = 0;
        let mut entry: Vec<u8> = vec![0u8; DIRENT_SIZE];
        let ghost count = dir.size as nat / 64;
        while offset + DIRENT_SIZE <= dir.size as usize
            invariant
                dir.spec_is_dir(),
                offset % 64 == 0,
                offset <= dir.size,
                entry@.len() == 64,
                spec_readdir(*dev, dir@, offset as nat / 64) is Some,
                out@.map_values(|e: (Vec<u8>, u32)| (e.0@, e.1)) == spec_readdir(*dev, dir@, offset as nat / 64)->0,
                count == dir.size as nat / 64,
            decreases dir.size - offset,
        {
            let ghost k = offset as nat / 64;
            assert((offset + 64) as nat / 64 == k + 1);
            let n = match self.read_at(dev, dir, offset, entry.as_mut_slice()) {
                Ok(n) => n,
                Err(e) => {
                    proof {
                        assert(dirent_raw(*dev, dir@, k) is None);
                        lemma_readdir_none_mono(*dev, dir@, k + 1, count);
                    }
                    return Err(e);
                },
            };
            assert(n == 64);
            assert(entry@ =~= dirent_raw(*dev, dir@, k)->0) by {
                assert forall|j: int| 0 <= j < 64 implies entry@[j] == dirent_raw(*dev, dir@, k)->0[j] by {
                    assert(Some(entry@[j]) == file_byte(*dev, dir@, (offset + j) as nat));
                }
            }
            let ino = read_le32(entry.as_slice(), 0);
            let ghost es = out@.map_values(|e: (Vec<u8>, u32)| (e.0@, e.1));
            if ino != 0 {
                let name_end = entry_name_len(entry.as_slice());
                let name = copy_range(entry.as_slice(), 4, 4 + name_end);
                if is_utf8(name.as_slice()) {
                    out.push((name, ino));
                    assert(out@.map_values(|e: (Vec<u8>, u32)| (e.0@, e.1)) =~= es.push((name@, ino)));
                }
            }
            offset = offset + DIRENT_SIZE;
        }
        assert(offset as nat / 64 == count);
        Ok(out)
    }

    /// Look up one component in a directory (the last entry with that
    /// name wins).
    pub fn dir_lookup(&self, dev: &Option<BlkDev>, dir: &Inode, name: &str) -> (r: Result<Option<u32>, &'static str>)
        ensures
            !dir.spec_is_dir() ==> r is Err,
            dir.spec_is_dir() ==> (r is Ok == spec_readdir(*dev, dir@, dir.size as nat / 64) is Some),
            r is Ok ==> r->Ok_0 == last_match(spec_readdir(*dev, dir@, dir.size as nat / 64)->0, name.spec_bytes()),
    {
        let es = match self.readdir(dev, dir) {
            Ok(es) => es,
            Err(e) => {
                return Err(e);
            },
        };
        let ghost model = es@.map_values(|e: (Vec<u8>, u32)| (e.0@, e.1));
        let nb = name.as_bytes();
        let mut found: Option<u32> = None;
        let mut i: usize = 0;
        while i < es.len()
            invariant
                i <= es@.len(),
                model == es@.map_values(|e: (Vec<u8>, u32)| (e.0@, e.1)),
                nb@ == name.spec_bytes(),
                found == last_match(model.take(i as int), nb@),
            decreases es@.len() - i,
        {
            assert(model.take(i as int + 1).drop_last() =~= model.take(i as int));
            if bytes_equal(es[i].0.as_slice(), nb) {
                found = Some(es[i].1);
            }
            i = i + 1;
        }
        assert(model.take(i as int) =~= model);
        Ok(found)
    }
}

/// Whether two byte strings are equal.
pub fn bytes_equal(a: &[u8], b: &[u8]) -> (r: bool)
    ensures
        r == (a@ == b@),
{
    if a.len() != b.len() {
        return false;
    }
    let mut i: usize = 0;
    while i < a.len()
        invariant
            a@.len() == b@.len(),
            i <= a@.len(),
            forall|j: int| 0 <= j < i ==> a@[j] == b@[j],
        decreases a@.len() - i,
    {
        if a[i] != b[i] {
            return false;
        }
        i = i + 1;
    }
    assert(a@ =~= b@);
    true
}

/// Once a prefix of the slots is unreadable, every longer prefix is.
proof fn lemma_readdir_none_mono(dev: Option<BlkDev>, dir: InodeModel, k: nat, m: nat)
    requires
        spec_readdir(dev, dir, k) is None,
        k <= m,
    ensures
        spec_readdir(dev, dir, m) is None,
    decreases m - k,
{
    if k < m {
        lemma_readdir_none_mono(dev, dir, k + 1, m);
    }
}


/// A component as `lookup` uses it: empty components and "." vanish.
pub open spec fn keep(c: Seq<u8>) -> Seq<Seq<u8>> {
    if c.len() == 0 || c == seq![46u8] {
        Seq::empty()
    } else {
        seq![c]
    }
}

/// Components of `b`, with `cur` the component read so far.
pub open spec fn comps_acc(b: Seq<u8>, cur: Seq<u8>) -> Seq<Seq<u8>>
    decreases b.len(),
{
    if b.len() == 0 {
        keep(cur)
    } else if b[0] == 47 {
        keep(cur) + comps_acc(b.drop_first(), Seq::empty())
    } else {
        comps_acc(b.drop_first(), cur.push(b[0]))
    }
}

/// The components of a path: split at '/', empty parts and "." dropped.
pub open spec fn path_components(b: Seq<u8>) -> Seq<Seq<u8>> {
    comps_acc(b, Seq::empty())
}

/// Append `cur` to `out` unless it is empty or ".".
fn push_kept(out: &mut Vec<Vec<u8>>, cur: Vec<u8>)
    ensures
        final(out)@.map_values(|c: Vec<u8>| c@) == old(out)@.map_values(|c: Vec<u8>| c@) + keep(cur@),
{
    let dot = cur.len() == 1 && cur[0] == 46;
    if cur.len() == 0 || dot {
        if dot {
            assert(cur@ =~= seq![46u8]);
        }
        assert(keep(cur@) =~= Seq::<Seq<u8>>::empty());
        assert(out@.map_values(|c: Vec<u8>| c@) =~= old(out)@.map_values(|c: Vec<u8>| c@) + keep(cur@));
    } else {
        assert(cur@ != seq![46u8]);
        let ghost cv = cur@;
        out.push(cur);
        assert(out@.map_values(|c: Vec<u8>| c@) =~= old(out)@.map_values(|c: Vec<u8>| c@) + keep(cv));
    }
}

/// Split a path into its components.
pub fn split_path(b: &[u8]) -> (r: Vec<Vec<u8>>)
    ensures
        r@.map_values(|c: Vec<u8>| c@) == path_components(b@),
{
    let mut out: Vec<Vec<u8>> = Vec::new();
    let mut cur: Vec<u8> = Vec::new();
    let mut i: usize = 0;
    assert(b@.skip(0) =~= b@);
    assert(out@.map_values(|c: Vec<u8>| c@) =~= Seq::<Seq<u8>>::empty());
    assert(Seq::<Seq<u8>>::empty() + path_components(b@) =~= path_components(b@));
    while i < b.len()
        invariant
            i <= b@.len(),
            out@.map_values(|c: Vec<u8>| c@) + comps_acc(b@.skip(i as int), cur@) == path_components(b@),
        decreases b@.len() - i,
    {
        let ghost rest = b@.skip(i as int);
        assert(rest.drop_first() =~= b@.skip(i as int + 1));
        assert(rest[0] == b@[i as int]);
        let ghost c = cur@;
        let ghost o = out@.map_values(|x: Vec<u8>| x@);
        if b[i] == 47 {
            push_kept(&mut out, cur);
            cur = Vec::new();
            assert(o + keep(c) + comps_acc(b@.skip(i as int + 1), cur@) =~= o + comps_acc(rest, c));
        } else {
            cur.push(b[i]);
        }
        i = i + 1;
    }
    assert(b@.skip(i as int) =~= Seq::<u8>::empty());
    push_kept(&mut out, cur);
    out
}

/// The inode `ino` as stored, if in range and readable.
pub open spec fn spec_inode(fs: MinixFs, dev: Option<BlkDev>, ino: u32) -> Option<InodeModel> {
    if ino_in_range(fs, ino) && block_ok(dev, inode_block(fs, ino)) {
        Some(decode_inode(block_bytes(dev, inode_block(fs, ino)), inode_offset(ino), ino))
    } else {
        None
    }
}

pub open spec fn model_is_dir(i: InodeModel) -> bool {
    i.mode & S_IFMT == S_IFDIR
}

/// Resolving `comps` from directory `i`: `None` on a read error,
/// `Some(None)` when a component is missing or not under a directory.
pub open spec fn spec_walk(fs: MinixFs, dev: Option<BlkDev>, i: InodeModel, comps: Seq<Seq<u8>>) -> Option<Option<InodeModel>>
    decreases comps.len(),
{
    if comps.len() == 0 {
        Some(Some(i))
    } else if !model_is_dir(i) {
        Some(None)
    } else {
        match spec_readdir(dev, i, i.size as nat / 64) {
            None => None,
            Some(es) => match last_match(es, comps[0]) {
                None => Some(None),
                Some(ino) => match spec_inode(fs, dev, ino) {
                    None => None,
                    Some(i2) => spec_walk(fs, dev, i2, comps.drop_first()),
                },
            },
        }
    }
}

/// Resolving an absolute path from the root directory.
pub open spec fn spec_lookup(fs: MinixFs, dev: Option<BlkDev>, path: Seq<u8>) -> Option<Option<InodeModel>> {
    match spec_inode(fs, dev, ROOT_INO) {
        None => None,
        Some(root) => spec_walk(fs, dev, root, path_components(path)),
    }
}

impl MinixFs {
    /// Resolve an absolute path to an inode (`None` when it doesn't exist).
    pub fn lookup(&self, dev: &Option<BlkDev>, path: &str) -> (r: Result<Option<Inode>, &'static str>)
        ensures
            r is Ok == spec_lookup(*self, *dev, path.spec_bytes()) is Some,
            r is Ok ==> match r->Ok_0 {
                Some(i) => spec_lookup(*self, *dev, path.spec_bytes())->0 == Some(i@),
                None => spec_lookup(*self, *dev, path.spec_bytes())->0 is None,
            },
    {
        let mut inode = match self.inode(dev, ROOT_INO) {
            Ok(i) => i,
            Err(e) => {
                return Err(e);
            },
        };
        let comps = split_path(path.as_bytes());
        let ghost cs = comps@.map_values(|c: Vec<u8>| c@);
        let mut k: usize = 0;
        assert(cs.skip(0) =~= cs);
        assert(spec_inode(*self, *dev, ROOT_INO) == Some(inode@));
        while k < comps.len()
            invariant
                k <= comps@.len(),
                cs == comps@.map_values(|c: Vec<u8>| c@),
                cs == path_components(path.spec_bytes()),
                spec_lookup(*self, *dev, path.spec_bytes()) == spec_walk(*self, *dev, inode@, cs.skip(k as int)),
            decreases comps@.len() - k,
        {
            let ghost rest = cs.skip(k as int);
            assert(rest.drop_first() =~= cs.skip(k as int + 1));
            assert(rest[0] == comps@[k as int]@);
            if !inode.is_dir() {
                return Ok(None);
            }
            let name = comps[k].as_slice();
            let es = match self.readdir(dev, &inode) {
                Ok(es) => es,
                Err(e) => {
                    return Err(e);
                },
            };
            let found = find_last(&es, name);
            match found {
                None => {
                    return Ok(None);
                },
                Some(ino) => {
                    inode = match self.inode(dev, ino) {
                        Ok(i) => i,
                        Err(e) => {
                            return Err(e);
                        },
                    };
                },
            }
            k = k + 1;
        }
        assert(cs.skip(k as int) =~= Seq::<Seq<u8>>::empty());
        Ok(Some(inode))
    }
}

/// The inode of the last entry named `name`.
pub fn find_last(es: &Vec<(Vec<u8>, u32)>, name: &[u8]) -> (r: Option<u32>)
    ensures
        r == last_match(es@.map_values(|e: (Vec<u8>, u32)| (e.0@, e.1)), name@),
{
    let ghost model = es@.map_values(|e: (Vec<u8>, u32)| (e.0@, e.1));
    let mut found: Option<u32> = None;
    let mut i: usize = 0;
    while i < es.len()
        invariant
            i <= es@.len(),
            model == es@.map_values(|e: (Vec<u8>, u32)| (e.0@, e.1)),
            found == last_match(model.take(i as int), name@),
        decreases es@.len() - i,
    {
        assert(model.take(i as int + 1).drop_last() =~= model.take(i as int));
        if bytes_equal(es[i].0.as_slice(), name) {
            found = Some(es[i].1);
        }
        i = i + 1;
    }
    assert(model.take(i as int) =~= model);
    found
}


/// Some zero at or after `i` in the first 60 bytes makes a first one.
proof fn lemma_first_zero(f: Seq<u8>, i: int)
    requires
        0 <= i <= 60,
        forall|j: int| 0 <= j < i ==> f[j] != 0,
        exists|j: int| i <= j < 60 && f[j] == 0,
    ensures
        exists|x: int| 0 <= x < 60 && f[x] == 0 && forall|j: int| 0 <= j < x ==> f[j] != 0,
    decreases 60 - i,
{
    if f[i] == 0 {
        assert(0 <= i < 60 && f[i] == 0 && forall|j: int| 0 <= j < i ==> f[j] != 0);
    } else {
        lemma_first_zero(f, i + 1);
    }
}

/// A name is at most 60 bytes.
pub proof fn lemma_name_len(raw: Seq<u8>)
    ensures
        0 <= name_len(raw) <= 60,
{
    let f = name_field(raw);
    if exists|i: int| 0 <= i < 60 && f[i] == 0 {
        lemma_first_zero(f, 0);
    }
}

/// Every name `spec_readdir` yields is at most 60 bytes.
pub proof fn lemma_readdir_names(dev: Option<BlkDev>, dir: InodeModel, k: nat)
    ensures
        spec_readdir(dev, dir, k) matches Some(es) ==> forall|j: int| 0 <= j < es.len() ==> (#[trigger] es[j]).0.len() <= 60,
    decreases k,
{
    if k > 0 {
        lemma_readdir_names(dev, dir, (k - 1) as nat);
        match dirent_raw(dev, dir, (k - 1) as nat) {
            Some(raw) => {
                lemma_name_len(raw);
            },
            None => {},
        }
    }
}

} // verus!
