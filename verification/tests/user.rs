use lib::user::httpget::{scan_chunk, status_line, MARKER};
use lib::user::libc::{path_buffer, sockaddr_in, sockaddr_peer, SysInfo, PATH_BUF};
use lib::user::netprobe::{build_query, first_a_record, reply_header, skip_name};
use lib::user::shell::{ls_entries, read_line, Cwd};

fn cwd_at(path: &[u8]) -> Cwd {
    let root = Cwd::new();
    let p = root.resolve(path);
    let mut c = Cwd::new();
    c.buf[..p.len()].copy_from_slice(&p);
    c.len = p.len();
    c
}

#[test]
fn shell_resolves_relative_and_absolute_paths() {
    let root = Cwd::new();
    assert_eq!(root.as_str(), b"/".to_vec());
    assert_eq!(root.resolve(b"bin"), b"/bin".to_vec());
    assert_eq!(root.resolve(b"./etc/./motd"), b"/etc/motd".to_vec());
    assert_eq!(root.resolve(b".."), b"/".to_vec());
    assert_eq!(root.resolve(b"//etc//"), b"/etc".to_vec());
    let c = cwd_at(b"/a/b");
    assert_eq!(c.as_str(), b"/a/b".to_vec());
    assert_eq!(c.resolve(b"../c"), b"/a/c".to_vec());
    assert_eq!(c.resolve(b"../.."), b"/".to_vec());
    assert_eq!(c.resolve(b"/etc"), b"/etc".to_vec());
    assert_eq!(c.resolve(b""), b"/a/b".to_vec());
}

#[test]
fn shell_resolve_truncates_to_path_buffer() {
    let root = Cwd::new();
    let long = vec![b'x'; 200];
    let r = root.resolve(&long);
    assert_eq!(r.len(), 119);
    assert_eq!(r[0], b'/');
    assert!(r[1..].iter().all(|&b| b == b'x'));
}

#[test]
fn shell_command_path_uses_bin_for_bare_names() {
    let c = cwd_at(b"/home");
    assert_eq!(c.command_path(b"hello"), b"/bin/hello".to_vec());
    assert_eq!(c.command_path(b"./prog"), b"/home/prog".to_vec());
    assert_eq!(c.command_path(b"/bin/sh"), b"/bin/sh".to_vec());
}

#[test]
fn shell_read_line_handles_backspace_and_newline() {
    let (line, used) = read_line(b"lx\x7fs -l\nrest");
    assert_eq!(line, b"ls -l".to_vec());
    assert_eq!(used, 8);
    let (line, used) = read_line(b"\x08\x08ab");
    assert_eq!(line, b"ab".to_vec());
    assert_eq!(used, 4);
    let long = vec![b'a'; 300];
    let (line, used) = read_line(&long);
    assert_eq!(line.len(), 255);
    assert_eq!(used, 300);
}

fn dirent(buf: &mut Vec<u8>, name: &[u8], dtype: u8) {
    let reclen = (19 + name.len() + 1 + 7) / 8 * 8;
    let start = buf.len();
    buf.resize(start + reclen, 0);
    buf[start + 16] = (reclen & 0xff) as u8;
    buf[start + 17] = (reclen >> 8) as u8;
    buf[start + 18] = dtype;
    buf[start + 19..start + 19 + name.len()].copy_from_slice(name);
}

#[test]
fn shell_ls_prints_names_with_dir_slash() {
    let mut buf = Vec::new();
    dirent(&mut buf, b"bin", 4);
    dirent(&mut buf, b"etc", 4);
    dirent(&mut buf, b"motd", 8);
    let n = buf.len();
    assert_eq!(ls_entries(&buf, n), b"bin/  etc/  motd  ".to_vec());
    // A record shorter than its header ends the listing.
    let mut bad = buf.clone();
    bad[16] = 3;
    bad[17] = 0;
    assert_eq!(ls_entries(&bad, n), Vec::<u8>::new());
    // Invalid UTF-8 names are skipped.
    let mut odd = Vec::new();
    dirent(&mut odd, &[0xff, 0xfe], 8);
    dirent(&mut odd, b"ok", 8);
    let n2 = odd.len();
    assert_eq!(ls_entries(&odd, n2), b"ok  ".to_vec());
}

#[test]
fn netprobe_query_layout() {
    let mut out = [0u8; 64];
    let n = build_query("example.com", &mut out);
    assert_eq!(n, 29);
    let expected: Vec<u8> = vec![
        0x4c, 0x4f, 0x01, 0x00, 0x00, 0x01, 0, 0, 0, 0, 0, 0, 7, b'e', b'x', b'a', b'm', b'p', b'l', b'e', 3, b'c',
        b'o', b'm', 0, 0, 1, 0, 1,
    ];
    assert_eq!(out[..n].to_vec(), expected);
    assert!(out[n..].iter().all(|&b| b == 0));
}

#[test]
fn netprobe_query_keeps_counts_and_empty_labels() {
    let mut out = [0xaau8; 32];
    let n = build_query("a.", &mut out);
    assert_eq!(n, 20);
    assert_eq!(out[6..12].to_vec(), vec![0xaa; 6]);
    assert_eq!(out[12..n].to_vec(), vec![1, b'a', 0, 0, 0, 1, 0, 1]);
    assert_eq!(out[n], 0xaa);
}

fn dns_reply() -> Vec<u8> {
    let mut m = vec![0x4c, 0x4f, 0x81, 0x80, 0, 1, 0, 2, 0, 0, 0, 0];
    m.extend_from_slice(&[7, b'e', b'x', b'a', b'm', b'p', b'l', b'e', 3, b'c', b'o', b'm', 0, 0, 1, 0, 1]);
    // A CNAME-like record (type 5) first, then an A record.
    m.extend_from_slice(&[0xc0, 0x0c, 0, 5, 0, 1, 0, 0, 0, 60, 0, 2, 0xc0, 0x0c]);
    m.extend_from_slice(&[0xc0, 0x0c, 0, 1, 0, 1, 0, 0, 0, 60, 0, 4, 93, 184, 216, 34]);
    m
}

#[test]
fn netprobe_finds_first_a_record() {
    let m = dns_reply();
    assert_eq!(first_a_record(&m), Some([93, 184, 216, 34]));
    assert_eq!(reply_header(&m, m.len()), (true, 2));
    assert_eq!(first_a_record(&m[..m.len() - 1]), None);
    assert_eq!(first_a_record(&m[..11]), None);
    assert_eq!(reply_header(&m, 11), (false, 0));
}

#[test]
fn netprobe_skip_name_labels_and_pointers() {
    let m = [3, b'a', b'b', b'c', 0, 0xc0, 0x0c, 5];
    assert_eq!(skip_name(&m, 0), Some(5));
    assert_eq!(skip_name(&m, 5), Some(7));
    assert_eq!(skip_name(&m, 7), None);
    assert_eq!(skip_name(&m, 8), None);
}

#[test]
fn libc_sockaddr_roundtrip() {
    let sa = sockaddr_in([10, 0, 2, 3], 53);
    assert_eq!(sa, [2, 0, 0, 53, 10, 0, 2, 3, 0, 0, 0, 0, 0, 0, 0, 0]);
    assert_eq!(sockaddr_peer(&sa), ([10, 0, 2, 3], 53));
    let sa = sockaddr_in([1, 2, 3, 4], 0x1234);
    assert_eq!(sockaddr_peer(&sa), ([1, 2, 3, 4], 0x1234));
}

#[test]
fn libc_path_buffer_is_nul_terminated() {
    let b = path_buffer("/bin/sh");
    assert_eq!(b.len(), PATH_BUF);
    assert_eq!(&b[..7], b"/bin/sh");
    assert!(b[7..].iter().all(|&x| x == 0));
    let long = "x".repeat(200);
    let b = path_buffer(&long);
    assert_eq!(b.len(), 128);
    assert!(b[..126].iter().all(|&x| x == b'x'));
    assert_eq!(&b[126..], &[0, 0]);
}

#[test]
fn libc_sysinfo_decodes_little_endian_words() {
    let mut buf = Vec::new();
    for v in [12u64, 0x800_0000, 0x123_4567_89ab, 3] {
        buf.extend_from_slice(&v.to_le_bytes());
    }
    let info = SysInfo::from_bytes(&buf);
    assert_eq!(info.uptime_secs, 12);
    assert_eq!(info.total_ram, 0x800_0000);
    assert_eq!(info.free_ram, 0x123_4567_89ab);
    assert_eq!(info.procs, 3);
}

#[test]
fn httpget_finds_marker_split_across_chunks() {
    let marker = MARKER.as_bytes();
    let (found, tail) = scan_chunk(&[], b"HTTP/1.0 200 OK\r\n\r\nhello LightOS-T", marker);
    assert!(!found);
    assert_eq!(tail, b"llo LightOS-T".to_vec());
    let (found, tail) = scan_chunk(&tail, b"CP-OK bye", marker);
    assert!(found);
    assert_eq!(tail, b"OS-TCP-OK bye".to_vec());
    let (found, tail) = scan_chunk(&[], b"ab", marker);
    assert!(!found);
    assert_eq!(tail, b"ab".to_vec());
}

#[test]
fn httpget_status_line_stops_at_cr() {
    assert_eq!(status_line(b"HTTP/1.0 200 OK\r\nServer: x"), b"HTTP/1.0 200 OK".to_vec());
    assert_eq!(status_line(b"no newline"), b"no newline".to_vec());
    assert_eq!(status_line(b""), Vec::<u8>::new());
}
