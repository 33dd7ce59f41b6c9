use lib::net::{arp, ethernet, icmp, ipv4, socket, tcp, udp};
use lib::net::{self_test, SelfTest, SelfTestNote, SELF_TEST_ROUNDS};

#[test]
fn ipv4_checksum_known_header() {
    let hdr = [
        0x45, 0x00, 0x00, 0x73, 0x00, 0x00, 0x40, 0x00, 0x40, 0x11, 0x00, 0x00, 0xc0, 0xa8, 0x00, 0x01, 0xc0, 0xa8, 0x00,
        0xc7,
    ];
    assert_eq!(ipv4::checksum(&hdr), 0xb861);
    let mut with = hdr;
    with[10] = 0xb8;
    with[11] = 0x61;
    assert_eq!(ipv4::checksum(&with), 0);
    // Odd length: the last byte is padded with zero.
    assert_eq!(ipv4::checksum(&[0x01]), !0x0100u16);
    assert_eq!(ipv4::checksum(&[]), 0xffff);
}

#[test]
fn ipv4_build_then_parse() {
    let pkt = ipv4::build([10, 0, 2, 15], [10, 0, 2, 2], ipv4::PROTO_UDP, b"hi", 7);
    assert_eq!(pkt.len(), 22);
    assert_eq!(pkt[0], 0x45);
    assert_eq!(&pkt[2..4], &[0, 22]);
    assert_eq!(&pkt[4..6], &[0, 7]);
    assert_eq!(ipv4::checksum(&pkt[..20]), 0);
    let p = ipv4::parse(&pkt).unwrap();
    assert_eq!(p.src, [10, 0, 2, 15]);
    assert_eq!(p.dst, [10, 0, 2, 2]);
    assert_eq!(p.proto, ipv4::PROTO_UDP);
    assert_eq!(p.payload, b"hi");
    assert!(ipv4::parse(&pkt[..19]).is_none());
    let mut v6 = pkt.clone();
    v6[0] = 0x65;
    assert!(ipv4::parse(&v6).is_none());
}

#[test]
fn udp_build_then_parse() {
    let d = udp::build([10, 0, 2, 15], [10, 0, 2, 3], 49152, 53, b"query");
    assert_eq!(d.len(), 13);
    assert_eq!(&d[..6], &[0xc0, 0x00, 0x00, 0x35, 0x00, 0x0d]);
    let u = udp::parse(&d).unwrap();
    assert_eq!(u.src_port, 49152);
    assert_eq!(u.dst_port, 53);
    assert_eq!(u.payload, b"query");
    assert!(udp::parse(&d[..7]).is_none());
}

#[test]
fn icmp_build_then_parse() {
    let m = icmp::build(icmp::TYPE_ECHO_REQUEST, 0x1234, 1, b"ping");
    assert_eq!(m.len(), 12);
    assert_eq!(ipv4::checksum(&m), 0);
    let p = icmp::parse(&m).unwrap();
    assert_eq!(p.msg_type, icmp::TYPE_ECHO_REQUEST);
    assert_eq!(p.id, 0x1234);
    assert_eq!(p.seq, 1);
    assert_eq!(p.payload, b"ping");
    assert!(icmp::parse(&m[..7]).is_none());
}

#[test]
fn ethernet_build_then_parse() {
    let f = ethernet::build(ethernet::BROADCAST, [2, 0, 0, 0, 0, 1], ethernet::ETHERTYPE_ARP, b"xyz");
    assert_eq!(f.len(), 17);
    assert_eq!(&f[12..14], &[0x08, 0x06]);
    let p = ethernet::parse(&f).unwrap();
    assert_eq!(p.dst, ethernet::BROADCAST);
    assert_eq!(p.src, [2, 0, 0, 0, 0, 1]);
    assert_eq!(p.ethertype, ethernet::ETHERTYPE_ARP);
    assert_eq!(p.payload, b"xyz");
    assert!(ethernet::parse(&f[..13]).is_none());
}

#[test]
fn arp_build_then_parse() {
    let a = arp::build(arp::OP_REQUEST, [2, 0, 0, 0, 0, 1], [10, 0, 2, 15], [0; 6], [10, 0, 2, 2]);
    assert_eq!(a.len(), 28);
    let p = arp::parse(&a).unwrap();
    assert_eq!(p.op, arp::OP_REQUEST);
    assert_eq!(p.sender_mac, [2, 0, 0, 0, 0, 1]);
    assert_eq!(p.sender_ip, [10, 0, 2, 15]);
    assert_eq!(p.target_ip, [10, 0, 2, 2]);
    assert!(arp::parse(&a[..27]).is_none());
}

#[test]
fn tcp_segment_build_then_parse() {
    let s = tcp::build_segment([10, 0, 2, 15], [10, 0, 2, 2], 49152, 18080, 1000, 2000, 0x18, b"GET");
    assert_eq!(s.len(), 23);
    let p = tcp::parse(&s).unwrap();
    assert_eq!(p.src_port, 49152);
    assert_eq!(p.dst_port, 18080);
    assert_eq!(p.seq, 1000);
    assert_eq!(p.ack, 2000);
    assert_eq!(p.flags, 0x18);
    assert_eq!(p.payload, b"GET");
    assert!(tcp::parse(&s[..19]).is_none());
}

#[test]
fn socket_bind_deliver_recv() {
    let mut t = socket::SocketTable::new();
    let a = socket::allocate(&mut t).unwrap();
    let b = socket::allocate(&mut t).unwrap();
    assert_ne!(a, b);
    assert_eq!(socket::bind(&mut t, a, 5000), Some(5000));
    assert!(socket::port_in_use(&t, 5000));
    // The port is taken: a second bind to it fails.
    assert_eq!(socket::bind(&mut t, b, 5000), None);
    // Port 0 picks an ephemeral port.
    assert_eq!(socket::bind(&mut t, b, 0), Some(socket::EPHEMERAL_BASE));
    assert_eq!(socket::local_port(&t, b), socket::EPHEMERAL_BASE);
    socket::deliver(&mut t, 5000, [10, 0, 2, 3], 53, b"answer");
    // Nothing queued for the other socket.
    assert!(socket::recv(&mut t, b).is_none());
    let d = socket::recv(&mut t, a).unwrap();
    assert_eq!(d.src_ip, [10, 0, 2, 3]);
    assert_eq!(d.src_port, 53);
    assert_eq!(d.data, b"answer".to_vec());
    assert!(socket::recv(&mut t, a).is_none());
    socket::free(&mut t, a);
    assert!(!socket::port_in_use(&t, 5000));
    assert_eq!(socket::local_port(&t, a), 0);
}

const MAC: [u8; 6] = [0x52, 0x54, 0, 0x12, 0x34, 0x56];
const GW_MAC: [u8; 6] = [0x52, 0x55, 10, 0, 2, 2];

fn up() -> lib::net::Net {
    let mut n = lib::net::Net::new();
    assert!(!lib::net::init(&mut n, None));
    assert!(lib::net::init(&mut n, Some(MAC)));
    n
}

#[test]
fn net_answers_arp_for_our_address() {
    let mut n = up();
    assert_eq!(lib::net::our_ip(&n), Some(lib::net::OUR_IP));
    let req = arp::build(arp::OP_REQUEST, GW_MAC, lib::net::GATEWAY_IP, [0; 6], lib::net::OUR_IP);
    let frame = ethernet::build(ethernet::BROADCAST, GW_MAC, ethernet::ETHERTYPE_ARP, &req);
    let reply = lib::net::handle_frame(&mut n, &frame).unwrap();
    let eth = ethernet::parse(&reply).unwrap();
    assert_eq!(eth.dst, GW_MAC);
    assert_eq!(eth.src, MAC);
    let a = arp::parse(eth.payload).unwrap();
    assert_eq!(a.op, arp::OP_REPLY);
    assert_eq!(a.sender_mac, MAC);
    assert_eq!(a.sender_ip, lib::net::OUR_IP);
    // A request for another address gets no answer.
    let other = arp::build(arp::OP_REQUEST, GW_MAC, lib::net::GATEWAY_IP, [0; 6], [10, 0, 2, 99]);
    let frame = ethernet::build(ethernet::BROADCAST, GW_MAC, ethernet::ETHERTYPE_ARP, &other);
    assert!(lib::net::handle_frame(&mut n, &frame).is_none());
}

#[test]
fn net_learns_gateway_mac_then_pings() {
    let mut n = up();
    assert_eq!(lib::net::gateway_mac(&n), None);
    let req = lib::net::send_arp_request(&n, lib::net::GATEWAY_IP).unwrap();
    assert_eq!(ethernet::parse(&req).unwrap().dst, ethernet::BROADCAST);
    let rep = arp::build(arp::OP_REPLY, GW_MAC, lib::net::GATEWAY_IP, MAC, lib::net::OUR_IP);
    let frame = ethernet::build(MAC, GW_MAC, ethernet::ETHERTYPE_ARP, &rep);
    assert!(lib::net::handle_frame(&mut n, &frame).is_none());
    assert_eq!(lib::net::gateway_mac(&n), Some(GW_MAC));
    let ping = lib::net::send_ping(&mut n, lib::net::GATEWAY_IP, GW_MAC, 1).unwrap();
    let ip = ipv4::parse(ethernet::parse(&ping).unwrap().payload).unwrap();
    assert_eq!(ip.proto, ipv4::PROTO_ICMP);
    let echo = icmp::parse(ip.payload).unwrap();
    assert_eq!(echo.msg_type, icmp::TYPE_ECHO_REQUEST);
    assert_eq!(echo.seq, 1);
    // The gateway's echo reply is counted.
    let before = lib::net::ping_replies(&n);
    let back = icmp::build(icmp::TYPE_ECHO_REPLY, echo.id, 1, echo.payload);
    let pkt = ipv4::build(lib::net::GATEWAY_IP, lib::net::OUR_IP, ipv4::PROTO_ICMP, &back, 9);
    let frame = ethernet::build(MAC, GW_MAC, ethernet::ETHERTYPE_IPV4, &pkt);
    assert!(lib::net::handle_frame(&mut n, &frame).is_none());
    assert_eq!(lib::net::ping_replies(&n), before + 1);
}

#[test]
fn net_answers_echo_requests() {
    let mut n = up();
    let req = icmp::build(icmp::TYPE_ECHO_REQUEST, 7, 3, b"abc");
    let pkt = ipv4::build(lib::net::GATEWAY_IP, lib::net::OUR_IP, ipv4::PROTO_ICMP, &req, 1);
    let frame = ethernet::build(MAC, GW_MAC, ethernet::ETHERTYPE_IPV4, &pkt);
    let reply = lib::net::handle_frame(&mut n, &frame).unwrap();
    let eth = ethernet::parse(&reply).unwrap();
    assert_eq!(eth.dst, GW_MAC);
    let ip = ipv4::parse(eth.payload).unwrap();
    assert_eq!(ip.dst, lib::net::GATEWAY_IP);
    let m = icmp::parse(ip.payload).unwrap();
    assert_eq!(m.msg_type, icmp::TYPE_ECHO_REPLY);
    assert_eq!((m.id, m.seq), (7, 3));
    assert_eq!(m.payload, b"abc");
}

#[test]
fn net_queues_udp_for_bound_socket() {
    let mut n = up();
    let idx = socket::allocate(&mut n.sockets).unwrap();
    assert_eq!(socket::bind(&mut n.sockets, idx, 4000), Some(4000));
    let d = udp::build([10, 0, 2, 3], lib::net::OUR_IP, 53, 4000, b"reply");
    let pkt = ipv4::build([10, 0, 2, 3], lib::net::OUR_IP, ipv4::PROTO_UDP, &d, 2);
    let frame = ethernet::build(MAC, GW_MAC, ethernet::ETHERTYPE_IPV4, &pkt);
    assert!(lib::net::handle_frame(&mut n, &frame).is_none());
    let got = socket::recv(&mut n.sockets, idx).unwrap();
    assert_eq!(got.src_ip, [10, 0, 2, 3]);
    assert_eq!(got.src_port, 53);
    assert_eq!(got.data, b"reply".to_vec());
}

#[test]
fn net_udp_needs_gateway_mac() {
    let mut n = up();
    assert!(lib::net::send_udp(&mut n, [10, 0, 2, 3], 53, 4000, b"q").is_err());
}

#[test]
fn tcp_handshake_data_and_close() {
    let ours = [10, 0, 2, 15];
    let peer = [10, 0, 2, 2];
    let mut t = tcp::TcpTable::new();
    let idx = tcp::allocate(&mut t).unwrap();
    assert_eq!(tcp::state(&t, idx), tcp::State::Closed);
    assert!(tcp::connect_begin(&mut t, idx, ours, peer, 18080));
    assert_eq!(tcp::state(&t, idx), tcp::State::SynSent);
    let (to, segs) = tcp::pump(&mut t, idx).unwrap();
    assert_eq!(to, peer);
    assert_eq!(segs.len(), 1);
    let syn = tcp::parse(&segs[0]).unwrap();
    assert_eq!(syn.flags, tcp::SYN);
    assert_eq!(syn.dst_port, 18080);
    let local = syn.src_port;
    let iss = syn.seq;
    // The peer answers SYN-ACK.
    let synack = tcp::build_segment(peer, ours, 18080, local, 5000, iss.wrapping_add(1), tcp::SYN | tcp::ACK, &[]);
    tcp::deliver(&mut t, ours, peer, &tcp::parse(&synack).unwrap());
    assert_eq!(tcp::state(&t, idx), tcp::State::Established);
    let (_, segs) = tcp::pump(&mut t, idx).unwrap();
    let ack = tcp::parse(segs.last().unwrap()).unwrap();
    assert_eq!(ack.flags & tcp::ACK, tcp::ACK);
    assert_eq!(ack.ack, 5001);
    // Data from the peer is buffered in order.
    let data = tcp::build_segment(peer, ours, 18080, local, 5001, iss.wrapping_add(1), tcp::PSH_ACK, b"hello");
    tcp::deliver(&mut t, ours, peer, &tcp::parse(&data).unwrap());
    let mut out = [0u8; 3];
    assert_eq!(tcp::recv_buffered(&mut t, idx, &mut out), 3);
    assert_eq!(&out, b"hel");
    assert_eq!(tcp::recv_buffered(&mut t, idx, &mut out), 2);
    assert_eq!(&out[..2], b"lo");
    assert!(!tcp::at_eof(&t, idx));
    // Our data goes out and is acknowledged.
    assert!(tcp::send_data(&mut t, idx, b"GET"));
    assert!(!tcp::send_complete(&t, idx));
    let ack = tcp::build_segment(peer, ours, 18080, local, 5006, iss.wrapping_add(4), tcp::ACK, &[]);
    tcp::deliver(&mut t, ours, peer, &tcp::parse(&ack).unwrap());
    assert!(tcp::send_complete(&t, idx));
    // The peer closes: end of stream once the buffer is drained.
    let fin = tcp::build_segment(peer, ours, 18080, local, 5006, iss.wrapping_add(4), tcp::FIN_ACK, &[]);
    tcp::deliver(&mut t, ours, peer, &tcp::parse(&fin).unwrap());
    assert_eq!(tcp::state(&t, idx), tcp::State::CloseWait);
    assert!(tcp::at_eof(&t, idx));
    assert!(!tcp::was_reset(&t, idx));
}

#[test]
fn tcp_reset_during_connect() {
    let ours = [10, 0, 2, 15];
    let peer = [10, 0, 2, 2];
    let mut t = tcp::TcpTable::new();
    let idx = tcp::allocate(&mut t).unwrap();
    tcp::connect_begin(&mut t, idx, ours, peer, 80);
    let (_, segs) = tcp::pump(&mut t, idx).unwrap();
    let syn = tcp::parse(&segs[0]).unwrap();
    let rst = tcp::build_segment(peer, ours, 80, syn.src_port, 0, syn.seq.wrapping_add(1), tcp::RST | tcp::ACK, &[]);
    tcp::deliver(&mut t, ours, peer, &tcp::parse(&rst).unwrap());
    assert!(tcp::was_reset(&t, idx));
    assert_eq!(tcp::state(&t, idx), tcp::State::Closed);
}

#[test]
fn self_test_resolves_gateway_then_pings() {
    let mut n = up();
    let (st, frame, note) = self_test(&mut n, SelfTest::Start);
    assert_eq!(st, SelfTest::Resolving(0));
    assert!(matches!(note, SelfTestNote::Nothing));
    assert_eq!(frame, lib::net::send_arp_request(&n, lib::net::GATEWAY_IP));
    // No answer yet: keep polling.
    let (st, frame, _) = self_test(&mut n, st);
    assert_eq!(st, SelfTest::Resolving(1));
    assert!(frame.is_none());
    // The gateway answers: the echo request goes out.
    let rep = arp::build(arp::OP_REPLY, GW_MAC, lib::net::GATEWAY_IP, MAC, lib::net::OUR_IP);
    let arp_frame = ethernet::build(MAC, GW_MAC, ethernet::ETHERTYPE_ARP, &rep);
    assert!(lib::net::handle_frame(&mut n, &arp_frame).is_none());
    let (st, frame, note) = self_test(&mut n, st);
    assert_eq!(st, SelfTest::Pinging(0, 0));
    assert!(matches!(note, SelfTestNote::GatewayAt(m) if m == GW_MAC));
    let ping = frame.unwrap();
    let eth = ethernet::parse(&ping).unwrap();
    assert_eq!(eth.dst, GW_MAC);
    let ip = ipv4::parse(eth.payload).unwrap();
    assert_eq!(ip.dst, lib::net::GATEWAY_IP);
    let echo = icmp::parse(ip.payload).unwrap();
    assert_eq!((echo.msg_type, echo.id, echo.seq), (icmp::TYPE_ECHO_REQUEST, lib::net::PING_ID, 1));
    let (st, _, _) = self_test(&mut n, st);
    assert_eq!(st, SelfTest::Pinging(0, 1));
    // The reply arrives.
    let back = icmp::build(icmp::TYPE_ECHO_REPLY, echo.id, 1, echo.payload);
    let pkt = ipv4::build(lib::net::GATEWAY_IP, lib::net::OUR_IP, ipv4::PROTO_ICMP, &back, 9);
    let reply = ethernet::build(MAC, GW_MAC, ethernet::ETHERTYPE_IPV4, &pkt);
    assert!(lib::net::handle_frame(&mut n, &reply).is_none());
    let (st, frame, note) = self_test(&mut n, st);
    assert_eq!(st, SelfTest::Finished);
    assert!(frame.is_none());
    assert!(matches!(note, SelfTestNote::PingReplied));
    let (st, _, note) = self_test(&mut n, st);
    assert_eq!(st, SelfTest::Finished);
    assert!(matches!(note, SelfTestNote::Nothing));
    assert_eq!(SELF_TEST_ROUNDS, 2000);
}

#[test]
fn self_test_times_out() {
    let mut n = up();
    let (st, _, note) = self_test(&mut n, SelfTest::Resolving(SELF_TEST_ROUNDS - 1));
    assert_eq!(st, SelfTest::Finished);
    assert!(matches!(note, SelfTestNote::ArpTimedOut));
    let (st, _, note) = self_test(&mut n, SelfTest::Pinging(0, SELF_TEST_ROUNDS - 2));
    assert_eq!(st, SelfTest::Pinging(0, SELF_TEST_ROUNDS - 1));
    assert!(matches!(note, SelfTestNote::Nothing));
    let (st, _, note) = self_test(&mut n, st);
    assert_eq!(st, SelfTest::Finished);
    assert!(matches!(note, SelfTestNote::PingTimedOut));
    // With the interface down nothing goes out and ARP never resolves.
    let mut down = lib::net::Net::new();
    let (st, frame, _) = self_test(&mut down, SelfTest::Start);
    assert_eq!(st, SelfTest::Resolving(0));
    assert!(frame.is_none());
}
