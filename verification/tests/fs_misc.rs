use lib::drivers::virtio::blk::{self, BlkDev};
use lib::drivers::virtio::{find_device, queue_layout, queue_usable, DEVICE_ID_BLOCK, DEVICE_ID_NET, MAGIC};
use lib::drivers::virtio::{bringup_writes, driver_ok_status, probe_block_device};
use lib::fs::minix3::MinixFs;
use lib::fs::{self, NO_ROOT};
use lib::nce::power::{doorbell_value, trim_str, PowerState};
use lib::text::{dec, is_utf8, to_crlf};
use lib::trap::{classify, exception_name, irq_action, next_deadline, timer_tick, IrqAction, TrapCause};

const BS: usize = 1024;

fn put16(img: &mut [u8], off: usize, v: u16) {
    img[off..off + 2].copy_from_slice(&v.to_le_bytes());
}

fn put32(img: &mut [u8], off: usize, v: u32) {
    img[off..off + 4].copy_from_slice(&v.to_le_bytes());
}

fn inode(img: &mut [u8], ino: usize, mode: u16, size: u32, zone: u32) {
    let off = 4 * BS + (ino - 1) * 64;
    put16(img, off, mode);
    put16(img, off + 2, 1);
    put32(img, off + 8, size);
    put32(img, off + 24, zone);
}

fn dirent(img: &mut [u8], block: usize, i: usize, ino: u32, name: &[u8]) {
    let off = block * BS + i * 64;
    put32(img, off, ino);
    img[off + 4..off + 4 + name.len()].copy_from_slice(name);
}

/// A small Minix v3 image: / holds etc/ (with motd) and bin/.
fn minix_image() -> Vec<u8> {
    let mut img = vec![0u8; 16 * BS];
    let sb = BS;
    put32(&mut img, sb, 16);
    put16(&mut img, sb + 6, 1);
    put16(&mut img, sb + 8, 1);
    put32(&mut img, sb + 20, 16);
    put16(&mut img, sb + 24, 0x4d5a);
    put16(&mut img, sb + 28, 1024);
    inode(&mut img, 1, 0o040755, 4 * 64, 6);
    inode(&mut img, 2, 0o040755, 3 * 64, 7);
    inode(&mut img, 3, 0o100644, 11, 8);
    inode(&mut img, 4, 0o040755, 2 * 64, 9);
    dirent(&mut img, 6, 0, 1, b".");
    dirent(&mut img, 6, 1, 1, b"..");
    dirent(&mut img, 6, 2, 2, b"etc");
    dirent(&mut img, 6, 3, 4, b"bin");
    dirent(&mut img, 7, 0, 2, b".");
    dirent(&mut img, 7, 1, 1, b"..");
    dirent(&mut img, 7, 2, 3, b"motd");
    img[8 * BS..8 * BS + 11].copy_from_slice(b"Hello motd\n");
    dirent(&mut img, 9, 0, 4, b".");
    dirent(&mut img, 9, 1, 1, b"..");
    img
}

#[test]
fn blk_rejects_partial_sectors() {
    assert!(blk::init(vec![0u8; 1000]).is_none());
    let dev = blk::init(vec![7u8; 1024]);
    assert!(blk::is_present(&dev));
    let mut buf = [0u8; 512];
    assert!(blk::read_sectors(&dev, 1, &mut buf).is_ok());
    assert!(buf.iter().all(|&b| b == 7));
    assert!(blk::read_sectors(&dev, 2, &mut buf).is_err());
    let none: Option<BlkDev> = None;
    assert!(blk::read_sectors(&none, 0, &mut buf).is_err());
}

#[test]
fn blk_write_then_read() {
    let mut dev = blk::init(vec![0u8; 2048]);
    let data = [0x5au8; 512];
    blk::write_sectors(&mut dev, 3, &data).unwrap();
    let mut back = [0u8; 512];
    blk::read_sectors(&dev, 3, &mut back).unwrap();
    assert_eq!(back, data);
    blk::read_sectors(&dev, 2, &mut back).unwrap();
    assert!(back.iter().all(|&b| b == 0));
}

#[test]
fn minix_mount_lookup_and_read() {
    let dev = blk::init(minix_image());
    let fs = MinixFs::mount(&dev).unwrap();
    assert_eq!(fs.inode_table_block(), 4);
    let root = Some(fs);
    let motd = fs::lookup(&root, &dev, "/etc/motd").unwrap().unwrap();
    assert!(motd.is_file());
    assert_eq!(motd.size, 11);
    assert_eq!(fs::read_file(&root, &dev, &motd).unwrap(), b"Hello motd\n".to_vec());
    let mut part = [0u8; 4];
    assert_eq!(fs::read_at(&root, &dev, &motd, 6, &mut part).unwrap(), 4);
    assert_eq!(&part, b"motd");
    assert_eq!(fs::read_at(&root, &dev, &motd, 9, &mut part).unwrap(), 2);
    assert_eq!(fs::read_at(&root, &dev, &motd, 20, &mut part).unwrap(), 0);
    assert!(fs::lookup(&root, &dev, "/etc/nope").unwrap().is_none());
    let dir = fs::lookup(&root, &dev, "/").unwrap().unwrap();
    assert!(dir.is_dir());
    let names: Vec<Vec<u8>> = fs::readdir(&root, &dev, &dir).unwrap().into_iter().map(|e| e.0).collect();
    assert_eq!(names, vec![b".".to_vec(), b"..".to_vec(), b"etc".to_vec(), b"bin".to_vec()]);
    let bin = fs::lookup(&root, &dev, "/etc/../bin").unwrap().unwrap();
    assert_eq!(bin.ino, 4);
    assert!(fs::readdir(&root, &dev, &motd).is_err());
}

#[test]
fn minix_mount_errors() {
    let mut img = minix_image();
    img[BS + 24] = 0;
    let dev = blk::init(img);
    assert_eq!(MinixFs::mount(&dev).err(), Some("minix3: bad superblock magic"));
    let mut img = minix_image();
    put16(&mut img, BS + 28, 4096);
    let dev = blk::init(img);
    assert_eq!(MinixFs::mount(&dev).err(), Some("minix3: unsupported block size"));
    assert!(fs::mount_root(&None).is_none());
    let dev = blk::init(minix_image());
    assert_eq!(fs::lookup(&None, &dev, "/etc").err(), Some(NO_ROOT));
}

#[test]
fn virtio_probe_finds_first_legacy_device() {
    let slots = [(0u32, 0u32, 0u32), (MAGIC, 2, DEVICE_ID_BLOCK), (MAGIC, 1, DEVICE_ID_NET), (MAGIC, 1, DEVICE_ID_BLOCK)];
    assert_eq!(find_device(&slots, DEVICE_ID_BLOCK), Some(0x1000_1000 + 3 * 0x1000));
    assert_eq!(find_device(&slots, DEVICE_ID_NET), Some(0x1000_1000 + 2 * 0x1000));
    assert_eq!(find_device(&slots[..2], DEVICE_ID_BLOCK), None);
    assert!(queue_usable(8));
    assert!(!queue_usable(4));
    assert!(!queue_usable(0));
    assert_eq!(queue_layout(0x8040_0000), (0x8040_0000, 0x8040_0080, 0x8040_1000));
}

#[test]
fn trap_cause_decoding() {
    assert_eq!(classify(0x8000_0000_0000_0005), TrapCause::Timer);
    assert_eq!(classify(0x8000_0000_0000_0009), TrapCause::External);
    assert_eq!(classify(0x8000_0000_0000_0001), TrapCause::Software);
    assert_eq!(classify(0x8000_0000_0000_0007), TrapCause::UnknownInterrupt(7));
    assert_eq!(classify(8), TrapCause::Exception(8));
    assert_eq!(exception_name(8), "ecall from U-mode");
    assert_eq!(exception_name(13), "load page fault");
    assert_eq!(exception_name(4), "unknown");
    assert_eq!(irq_action(0), IrqAction::Spurious);
    assert_eq!(irq_action(10), IrqAction::Uart);
    assert_eq!(irq_action(1), IrqAction::Unexpected(1));
}

#[test]
fn trap_timer_ticks() {
    assert_eq!(timer_tick(0), (1, false));
    assert_eq!(timer_tick(99), (100, true));
    assert_eq!(timer_tick(100), (101, false));
    assert_eq!(timer_tick(usize::MAX), (0, false));
    assert_eq!(next_deadline(10, 100_000), 100_010);
    assert_eq!(next_deadline(u64::MAX, 2), 1);
}

#[test]
fn nce_power_state_names() {
    assert_eq!(PowerState::parse(" active\n"), Some(PowerState::Active));
    assert_eq!(PowerState::parse("idle"), Some(PowerState::Idle));
    assert_eq!(PowerState::parse("turbo\t"), Some(PowerState::Turbo));
    assert_eq!(PowerState::parse("fast"), None);
    assert_eq!(trim_str("  x y \n"), "x y");
    assert!(PowerState::Idle.can_transition(PowerState::Active));
    assert!(!PowerState::Idle.can_transition(PowerState::Turbo));
    assert!(PowerState::Active.can_transition(PowerState::Turbo));
    assert_ne!(doorbell_value(PowerState::Idle), doorbell_value(PowerState::Turbo));
}

#[test]
fn text_helpers() {
    assert_eq!(dec(0), b"0".to_vec());
    assert_eq!(dec(1234567890), b"1234567890".to_vec());
    assert!(is_utf8("héllo".as_bytes()));
    assert!(!is_utf8(&[0xc3]));
    assert_eq!(to_crlf(b"a\nb\n"), b"a\r\nb\r\n".to_vec());
    assert_eq!(to_crlf(b""), Vec::<u8>::new());
}

#[test]
fn minix_reads_past_single_indirect() {
    let mut img = minix_image();
    img.resize(20 * BS, 0);
    put32(&mut img, BS + 20, 20);
    // A 269 KiB file: holes everywhere but its first double-indirect block.
    inode(&mut img, 5, 0o100644, 269 * 1024, 0);
    put32(&mut img, 4 * BS + 4 * 64 + 24 + 8 * 4, 10);
    put32(&mut img, 10 * BS, 11);
    put32(&mut img, 11 * BS, 12);
    img[12 * BS..12 * BS + 5].copy_from_slice(b"deep!");
    let dev = blk::init(img);
    let root = Some(MinixFs::mount(&dev).unwrap());
    let big = fs::inode(&root, &dev, 5).unwrap();
    let mut buf = [9u8; 5];
    assert_eq!(fs::read_at(&root, &dev, &big, 263 * 1024, &mut buf).unwrap(), 5);
    assert_eq!(&buf, b"deep!");
    assert_eq!(fs::read_at(&root, &dev, &big, 262 * 1024, &mut buf).unwrap(), 5);
    assert_eq!(buf, [0u8; 5]);
    assert_eq!(fs::read_at(&root, &dev, &big, 269 * 1024 - 2, &mut buf).unwrap(), 2);
}

#[test]
fn virtio_block_probe_checks_queue_and_writes_status() {
    let slots = [(MAGIC, 1, DEVICE_ID_NET), (MAGIC, 2, DEVICE_ID_BLOCK), (MAGIC, 1, DEVICE_ID_BLOCK)];
    assert_eq!(probe_block_device(&slots, 8), Some(0x1000_1000 + 2 * 0x1000));
    assert_eq!(probe_block_device(&slots, 4), None);
    assert_eq!(probe_block_device(&slots[..2], 8), None);
    assert_eq!(bringup_writes(), vec![(0x070, 0), (0x070, 1), (0x070, 3), (0x020, 0), (0x028, 4096)]);
    assert_eq!(driver_ok_status(), 7);
}
