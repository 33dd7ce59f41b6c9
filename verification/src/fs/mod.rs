//! Virtual File System: a thin façade over the mounted root filesystem
//! (Minix3 on virtio-blk) with the embedded ramfs as early-boot fallback
//! for program images.
//!
//! The mounted root is explicit state here: `root` is `None` until
//! `mount_root` succeeds, and every access goes through it.

pub mod minix3;
pub mod ramfs;

use vstd::prelude::*;
use vstd::string::StringSliceAdditionalSpecFns;
use crate::drivers::virtio::blk::BlkDev;
use minix3::{Inode, InodeModel, MinixFs, spec_lookup, bytes_ok, file_byte, spec_readdir, ino_in_range,
    block_ok, inode_block, decode_inode, inode_offset, le16, MAGIC_V3, BLOCK_SIZE};
use ramfs::{spec_find, files_view};

verus! {

pub const NO_ROOT: &'static str = "vfs: no root filesystem mounted";

/// What the VFS serves from: the mounted root (if any), the block device
/// under it, and the program images the kernel carries.
pub struct Vfs {
    pub root: Option<MinixFs>,
    pub dev: Option<BlkDev>,
    pub programs: Vec<(Vec<u8>, Vec<u8>)>,
}

/// Mount the Minix3 root from the block device, if there is one and it
/// holds a valid superblock.
pub fn mount_root(dev: &Option<BlkDev>) -> (r: Option<MinixFs>)
    ensures
        r is Some == (block_ok(*dev, 1) && le16(minix3::block_bytes(*dev, 1), 24) == MAGIC_V3
            && le16(minix3::block_bytes(*dev, 1), 28) == BLOCK_SIZE),
        r is Some ==> {
            let sb = minix3::block_bytes(*dev, 1);
            &&& r->0.ninodes == minix3::le32(sb, 0)
            &&& r->0.imap_blocks == le16(sb, 6)
            &&& r->0.zmap_blocks == le16(sb, 8)
            &&& r->0.zones == minix3::le32(sb, 20)
        },
{
    match MinixFs::mount(dev) {
        Ok(fs) => Some(fs),
        Err(_) => None,
    }
}

/// Resolve `path`; `Ok(None)` when it doesn't exist.
pub fn lookup(root: &Option<MinixFs>, dev: &Option<BlkDev>, path: &str) -> (r: Result<Option<Inode>, &'static str>)
    ensures
        root is None ==> r == Err::<Option<Inode>, &'static str>(NO_ROOT),
        root is Some ==> {
            &&& r is Ok == spec_lookup(root->0, *dev, path.spec_bytes()) is Some
            &&& r is Ok ==> match r->Ok_0 {
                Some(i) => spec_lookup(root->0, *dev, path.spec_bytes())->0 == Some(i@),
                None => spec_lookup(root->0, *dev, path.spec_bytes())->0 is None,
            }
        },
{
    match root {
        Some(fs) => fs.lookup(dev, path),
        None => Err(NO_ROOT),
    }
}

/// Read from `inode` at `offset` into `buf`; the count read.
pub fn read_at(root: &Option<MinixFs>, dev: &Option<BlkDev>, inode: &Inode, offset: usize, buf: &mut [u8]) -> (r: Result<usize, &'static str>)
    ensures
        final(buf)@.len() == old(buf)@.len(),
        root is None ==> r == Err::<usize, &'static str>(NO_ROOT) && final(buf)@ == old(buf)@,
        root is Some ==> {
            &&& r is Ok == bytes_ok(*dev, inode@, offset as nat, minix3::want(inode@, offset as nat, old(buf)@.len()))
            &&& r is Ok ==> {
                let n = r->Ok_0;
                &&& n == minix3::want(inode@, offset as nat, old(buf)@.len())
                &&& forall|k: int| 0 <= k < n ==> Some(#[trigger] final(buf)@[k]) == file_byte(*dev, inode@, (offset + k) as nat)
                &&& forall|k: int| n <= k < old(buf)@.len() ==> #[trigger] final(buf)@[k] == old(buf)@[k]
            }
        },
{
    match root {
        Some(fs) => fs.read_at(dev, inode, offset, buf),
        None => Err(NO_ROOT),
    }
}

/// The whole contents of a file, as the model reads them.
pub open spec fn file_contents(dev: Option<BlkDev>, i: InodeModel) -> Seq<u8> {
    Seq::new(i.size as nat, |k: int| file_byte(dev, i, k as nat)->0)
}

/// Read a whole file.
pub fn read_file(root: &Option<MinixFs>, dev: &Option<BlkDev>, inode: &Inode) -> (r: Result<Vec<u8>, &'static str>)
    ensures
        root is None ==> r == Err::<Vec<u8>, &'static str>(NO_ROOT),
        root is Some ==> {
            &&& r is Ok == bytes_ok(*dev, inode@, 0, inode.size as nat)
            &&& r is Ok ==> r->Ok_0@ == file_contents(*dev, inode@)
        },
{
    match root {
        Some(fs) => {
            let r = fs.read_file(dev, inode);
            proof {
                if r is Ok {
                    assert(r->Ok_0@ =~= file_contents(*dev, inode@));
                }
            }
            r
        },
        None => Err(NO_ROOT),
    }
}

/// The entries of a directory, as `(name, inode number)` pairs.
pub fn readdir(root: &Option<MinixFs>, dev: &Option<BlkDev>, inode: &Inode) -> (r: Result<Vec<(Vec<u8>, u32)>, &'static str>)
    ensures
        root is None ==> r == Err::<Vec<(Vec<u8>, u32)>, &'static str>(NO_ROOT),
        root is Some ==> {
            &&& !inode.spec_is_dir() ==> r == Err::<Vec<(Vec<u8>, u32)>, &'static str>("minix3: not a directory")
            &&& inode.spec_is_dir() ==> (r is Ok == spec_readdir(*dev, inode@, inode.size as nat / 64) is Some)
            &&& r is Ok ==> r->Ok_0@.map_values(|e: (Vec<u8>, u32)| (e.0@, e.1))
                == spec_readdir(*dev, inode@, inode.size as nat / 64)->0
        },
{
    match root {
        Some(fs) => fs.readdir(dev, inode),
        None => Err(NO_ROOT),
    }
}

/// Fetch inode `ino`.
pub fn inode(root: &Option<MinixFs>, dev: &Option<BlkDev>, ino: u32) -> (r: Result<Inode, &'static str>)
    ensures
        root is None ==> r == Err::<Inode, &'static str>(NO_ROOT),
        root is Some ==> {
            &&& !ino_in_range(root->0, ino) ==> r == Err::<Inode, &'static str>("minix3: inode out of range")
            &&& ino_in_range(root->0, ino) ==> (r is Ok == block_ok(*dev, inode_block(root->0, ino)))
            &&& r is Ok ==> r->Ok_0@ == decode_inode(minix3::block_bytes(*dev, inode_block(root->0, ino)), inode_offset(ino), ino)
        },
{
    match root {
        Some(fs) => fs.inode(dev, ino),
        None => Err(NO_ROOT),
    }
}

/// The program image that the disk holds at `path`: a regular file that
/// resolves and reads without error.
pub open spec fn disk_program(root: Option<MinixFs>, dev: Option<BlkDev>, path: Seq<u8>) -> Option<Seq<u8>> {
    match root {
        None => None,
        Some(fs) => match spec_lookup(fs, dev, path) {
            Some(Some(i)) => if i.mode & minix3::S_IFMT == minix3::S_IFREG && bytes_ok(dev, i, 0, i.size as nat) {
                Some(file_contents(dev, i))
            } else {
                None
            },
            _ => None,
        },
    }
}

/// Load a program image: disk first, the embedded images as fallback.
pub fn load_program(root: &Option<MinixFs>, dev: &Option<BlkDev>, files: &Vec<(Vec<u8>, Vec<u8>)>, path: &str) -> (r: Option<Vec<u8>>)
    ensures
        match disk_program(*root, *dev, path.spec_bytes()) {
            Some(img) => r is Some && r->0@ == img,
            None => match spec_find(files_view(files@), path.spec_bytes()) {
                Some(img) => r is Some && r->0@ == img,
                None => r is None,
            },
        },
{
    if let Ok(Some(inode)) = lookup(root, dev, path) {
        if inode.is_file() {
            if let Ok(bytes) = read_file(root, dev, &inode) {
                return Some(bytes);
            }
        }
    }
    match ramfs::lookup(files, path) {
        Some(b) => {
            let v = slice_to_vec(b);
            Some(v)
        },
        None => None,
    }
}

/// A copy of `b`.
pub fn slice_to_vec(b: &[u8]) -> (r: Vec<u8>)
    ensures
        r@ == b@,
{
    let mut v: Vec<u8> = Vec::new();
    let mut i: usize = 0;
    while i < b.len()
        invariant
            i <= b@.len(),
            v@ == b@.subrange(0, i as int),
        decreases b@.len() - i,
    {
        v.push(b[i]);
        i = i + 1;
        assert(v@ =~= b@.subrange(0, i as int));
    }
    assert(b@.subrange(0, i as int) =~= b@);
    v
}

} // verus!
