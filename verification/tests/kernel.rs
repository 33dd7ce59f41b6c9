use lib::elf::{self, ERR_CLASS, ERR_MACHINE, ERR_MAGIC, ERR_TYPE, ERR_UNALIGNED};
use lib::fs::Vfs;
use lib::mem::mmu::{enable, table_at, Mem, PageTable};
use lib::mem::page;
use lib::mem::uaccess::{copy_in, copy_out};
use lib::net::Net;
use lib::net::{arp, ethernet, ipv4, udp};
use lib::sched::process::{self, ProcState, ProcTable, NO_PROC};
use lib::sched::round_robin::pick_next;
use lib::syscall::posix;
use lib::syscall::{dispatch, Dispatch, Kernel};
use lib::syscall::wait::{net_wait_step, Blocked, UDP_POLL_BUDGET};
use lib::user::libc::SysInfo;

const HEAP_START: usize = 0x8020_0000;
const CODE_VA: usize = 0x4000_0000;

/// A minimal RISC-V executable: one read/execute segment at
/// `CODE_VA` holding the whole file, entry just past the headers.
fn tiny_elf() -> Vec<u8> {
    let mut img = vec![0u8; 128];
    img[..4].copy_from_slice(&[0x7f, b'E', b'L', b'F']);
    img[4] = 2;
    img[5] = 1;
    img[6] = 1;
    img[16..18].copy_from_slice(&2u16.to_le_bytes());
    img[18..20].copy_from_slice(&243u16.to_le_bytes());
    img[20..24].copy_from_slice(&1u32.to_le_bytes());
    img[24..32].copy_from_slice(&((CODE_VA + 120) as u64).to_le_bytes());
    img[32..40].copy_from_slice(&64u64.to_le_bytes());
    img[52..54].copy_from_slice(&64u16.to_le_bytes());
    img[54..56].copy_from_slice(&56u16.to_le_bytes());
    img[56..58].copy_from_slice(&1u16.to_le_bytes());
    let ph = 64;
    img[ph..ph + 4].copy_from_slice(&1u32.to_le_bytes());
    img[ph + 4..ph + 8].copy_from_slice(&5u32.to_le_bytes());
    img[ph + 16..ph + 24].copy_from_slice(&(CODE_VA as u64).to_le_bytes());
    img[ph + 32..ph + 40].copy_from_slice(&128u64.to_le_bytes());
    img[ph + 40..ph + 48].copy_from_slice(&0x2000u64.to_le_bytes());
    img[ph + 48..ph + 56].copy_from_slice(&0x1000u64.to_le_bytes());
    img
}

fn booted_mem() -> Mem {
    let mut m = Mem::new();
    page::init(&mut m.alloc, HEAP_START);
    let root = PageTable::allocate(&mut m).unwrap();
    enable(&mut m, &root);
    m
}

fn test_vfs() -> Vfs {
    Vfs {
        root: None,
        dev: None,
        programs: vec![(b"/bin/init".to_vec(), tiny_elf()), (b"hello".to_vec(), tiny_elf())],
    }
}

fn boot() -> Kernel {
    let mut mem = booted_mem();
    let vfs = test_vfs();
    let mut procs = ProcTable::new();
    let pid = process::spawn(&mut procs, &mut mem, &vfs, "/bin/init").unwrap();
    assert_eq!(pid, 1);
    let (slot, _) = pick_next(&mut procs).unwrap();
    assert_eq!(slot, 0);
    procs.current = slot;
    Kernel {
        procs,
        mem,
        vfs,
        nces: Vec::new(),
        net: Net::new(),
        ticks: 250,
        console_in: Vec::new(),
        console_out: Vec::new(),
        doorbells: Vec::new(),
        net_out: Vec::new(),
    }
}

fn set_call(k: &mut Kernel, nr: usize, args: &[usize]) {
    let c = k.procs.current;
    k.procs.frames[c].regs[17] = nr;
    for (i, a) in args.iter().enumerate() {
        k.procs.frames[c].regs[10 + i] = *a;
    }
}

fn call(k: &mut Kernel, nr: usize, args: &[usize]) -> (Dispatch, isize) {
    let c = k.procs.current;
    set_call(k, nr, args);
    let d = dispatch(k);
    (d, k.procs.frames[c].regs[10] as isize)
}

fn user_root(k: &Kernel) -> PageTable {
    let c = k.procs.current;
    table_at(k.procs.slots[c].as_ref().unwrap().root_pa)
}

/// A fresh read/write page of the current process, from mmap.
fn scratch(k: &mut Kernel) -> usize {
    let (d, addr) = call(k, 222, &[0, 4096]);
    assert!(matches!(d, Dispatch::Resume));
    assert!(addr > 0);
    addr as usize
}

#[test]
fn elf_load_maps_the_segment() {
    let mut m = booted_mem();
    let root = PageTable::allocate(&mut m).unwrap();
    let img = tiny_elf();
    let e = elf::load(&mut m, &img, &root).unwrap();
    assert_eq!(e.entry, CODE_VA + 120);
    assert_eq!(e.brk, CODE_VA + 0x2000);
    let mut head = [0u8; 4];
    copy_in(&m, &root, CODE_VA, &mut head).unwrap();
    assert_eq!(head, [0x7f, b'E', b'L', b'F']);
    // The zero-filled rest of the segment is mapped too.
    let mut tail = [1u8; 4];
    copy_in(&m, &root, CODE_VA + 0x1ffc, &mut tail).unwrap();
    assert_eq!(tail, [0, 0, 0, 0]);
}

#[test]
fn elf_load_rejects_bad_headers() {
    let mut m = booted_mem();
    let root = PageTable::allocate(&mut m).unwrap();
    let mut img = tiny_elf();
    img[0] = 0;
    assert_eq!(elf::load(&mut m, &img, &root).err(), Some(ERR_MAGIC));
    let mut img = tiny_elf();
    img[4] = 1;
    assert_eq!(elf::load(&mut m, &img, &root).err(), Some(ERR_CLASS));
    let mut img = tiny_elf();
    img[18] = 62;
    assert_eq!(elf::load(&mut m, &img, &root).err(), Some(ERR_MACHINE));
    let mut img = tiny_elf();
    img[16] = 3;
    assert_eq!(elf::load(&mut m, &img, &root).err(), Some(ERR_TYPE));
    let mut img = tiny_elf();
    img[64 + 16] = 0x10;
    assert_eq!(elf::load(&mut m, &img, &root).err(), Some(ERR_UNALIGNED));
}

#[test]
fn process_fork_exit_wait_lifecycle() {
    let mut m = booted_mem();
    let vfs = test_vfs();
    let mut t = ProcTable::new();
    assert_eq!(process::spawn(&mut t, &mut m, &vfs, "/bin/nope").err(), Some(process::ERR_NO_PROGRAM));
    let init_pid = process::spawn(&mut t, &mut m, &vfs, "/bin/init").unwrap();
    assert_eq!(init_pid, 1);
    assert_eq!(t.slots[0].as_ref().unwrap().pid, 1);
    let (s, _) = pick_next(&mut t).unwrap();
    assert_eq!(s, 0);
    t.current = s;
    let child_pid = process::fork_current(&mut t, &mut m);
    assert_eq!(child_pid, 2);
    let child = t.slots[1].as_ref().unwrap();
    assert_eq!(child.parent, 0);
    assert_eq!(child.state, ProcState::Ready);
    // The parent waits: its child is alive, so it sleeps.
    process::wait_current(&mut t, &mut m, 0);
    assert_eq!(t.current, NO_PROC);
    assert_eq!(t.slots[0].as_ref().unwrap().state, ProcState::SleepChild);
    // Round robin: the child runs next.
    let (s, _) = pick_next(&mut t).unwrap();
    assert_eq!(s, 1);
    t.current = s;
    process::exit_current(&mut t, &mut m, 7);
    // The sleeping parent is woken with the child's pid and the child is reaped.
    assert!(t.slots[1].is_none());
    assert_eq!(t.slots[0].as_ref().unwrap().state, ProcState::Ready);
    assert_eq!(t.frames[0].regs[10], 2);
    let (s, _) = pick_next(&mut t).unwrap();
    assert_eq!(s, 0);
    t.current = s;
    // No children left: wait returns ECHILD.
    process::wait_current(&mut t, &mut m, 0);
    assert_eq!(t.frames[0].regs[10] as isize, -10);
}

#[test]
fn process_listing_names_processes() {
    let k = boot();
    let text = process::listing(&k.procs);
    let s = String::from_utf8(text).unwrap();
    assert!(s.starts_with("  PID"));
    assert!(s.contains("/bin/init"));
}

#[test]
fn syscall_getpid_and_unknown() {
    let mut k = boot();
    let (d, r) = call(&mut k, 172, &[]);
    assert!(matches!(d, Dispatch::Resume));
    assert_eq!(r, 1);
    let (d, r) = call(&mut k, 9999, &[]);
    assert!(matches!(d, Dispatch::Resume));
    assert_eq!(r, -38);
    // sysinfo into an unmapped buffer faults.
    let (d, r) = call(&mut k, 179, &[0]);
    assert!(matches!(d, Dispatch::Resume));
    assert_eq!(r, posix::EFAULT);
}

#[test]
fn syscall_network_and_power_numbers_are_routed() {
    let mut k = boot();
    let buf = scratch(&mut k);
    let (d, r) = call(&mut k, 179, &[buf]);
    assert!(matches!(d, Dispatch::Resume));
    assert_eq!(r, 0);
    let (_, fd) = call(&mut k, 198, &[2, 2, 0]);
    assert!(fd >= 3);
    // No interface: a datagram to 10.0.2.2:53 is unreachable.
    let root = user_root(&k);
    copy_out(&mut k.mem, &root, buf, &[2, 0, 0, 53, 10, 0, 2, 2]).unwrap();
    let (d, r) = call(&mut k, 206, &[fd as usize, buf + 64, 4, 0, buf, 16]);
    assert!(matches!(d, Dispatch::Resume));
    assert_eq!(r, posix::ENETUNREACH);
    // recvfrom on the socket waits on the network.
    let (d, _) = call(&mut k, 207, &[fd as usize, buf + 64, 4, 0, 0]);
    assert!(matches!(d, Dispatch::Wait { .. }));
    let (d, _) = call(&mut k, 142, &[0]);
    assert!(matches!(d, Dispatch::PowerOff));
    let (d, _) = call(&mut k, 142, &[1]);
    assert!(matches!(d, Dispatch::Reboot));
    let (_, n) = call(&mut k, 500, &[buf, 256]);
    assert!(n > 0);
}

#[test]
fn udp_recv_wait_times_out() {
    let mut k = boot();
    let buf = scratch(&mut k);
    let (_, fd) = call(&mut k, 198, &[2, 2, 0]);
    let (d, _) = call(&mut k, 207, &[fd as usize, buf, 16, 0, 0]);
    let w = match d {
        Dispatch::Wait { wait } => wait,
        _ => panic!("recvfrom did not wait"),
    };
    let mut b = Blocked::new(w);
    let mut answer = None;
    let mut rounds = 0;
    while answer.is_none() {
        answer = net_wait_step(&mut k, &mut b);
        rounds += 1;
    }
    assert_eq!(answer, Some(posix::EAGAIN));
    assert_eq!(rounds, UDP_POLL_BUDGET);
}

#[test]
fn udp_sendto_queues_one_datagram() {
    let mac = [0x52, 0x54, 0, 0x12, 0x34, 0x56];
    let gw = [0x52, 0x55, 10, 0, 2, 2];
    let mut k = boot();
    assert!(lib::net::init(&mut k.net, Some(mac)));
    let rep = arp::build(arp::OP_REPLY, gw, lib::net::GATEWAY_IP, mac, lib::net::OUR_IP);
    let f = ethernet::build(mac, gw, ethernet::ETHERTYPE_ARP, &rep);
    assert!(lib::net::handle_frame(&mut k.net, &f).is_none());
    let buf = scratch(&mut k);
    let root = user_root(&k);
    copy_out(&mut k.mem, &root, buf, &[2, 0, 0, 53, 8, 8, 8, 8]).unwrap();
    copy_out(&mut k.mem, &root, buf + 64, b"ping").unwrap();
    let (_, fd) = call(&mut k, 198, &[2, 2, 0]);
    let (d, r) = call(&mut k, 206, &[fd as usize, buf + 64, 4, 0, buf, 16]);
    assert!(matches!(d, Dispatch::Resume));
    assert_eq!(r, 4);
    assert_eq!(k.net_out.len(), 1);
    let eth = ethernet::parse(&k.net_out[0]).unwrap();
    assert_eq!(eth.dst, gw);
    let ip = ipv4::parse(eth.payload).unwrap();
    assert_eq!(ip.dst, [8, 8, 8, 8]);
    let u = udp::parse(ip.payload).unwrap();
    assert_eq!(u.dst_port, 53);
    assert!(u.src_port != 0);
    assert_eq!(u.payload, b"ping");
}
