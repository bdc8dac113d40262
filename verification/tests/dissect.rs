use rusty_shark::addr::{fmt_ipv4, fmt_ipv6, fmt_mac};
use rusty_shark::analysis::record;
use rusty_shark::dissect::{dissect, parse_first_qname, DissectConfig, Dissection};
use rusty_shark::field::{extract, Value};
use rusty_shark::pcap::{LinkType, RawPacket};

fn raw(data: Vec<u8>) -> RawPacket {
    let len = data.len() as u32;
    RawPacket {
        ts_sec: 0,
        ts_nsec: 0,
        orig_len: len,
        link_type: LinkType::Ethernet,
        data,
    }
}

fn with_link(link_type: LinkType, data: &[u8]) -> Dissection {
    let mut pkt = raw(data.to_vec());
    pkt.link_type = link_type;
    dissect(&pkt, &DissectConfig::default())
}

/// An Ethernet frame with a given ethertype and payload.
fn eth(etype: u16, payload: &[u8]) -> Dissection {
    let mut f = vec![0x00, 0x11, 0x22, 0x33, 0x44, 0x55, 0xaa, 0xbb, 0xcc, 0xdd, 0xee, 0xff];
    f.extend_from_slice(&etype.to_be_bytes());
    f.extend_from_slice(payload);
    dissect(&raw(f), &DissectConfig::default())
}

/// An IPv4 packet from 10.0.0.1 to 10.0.0.2.
fn ipv4(proto: u8, payload: &[u8]) -> Vec<u8> {
    let mut p = vec![0x45, 0x03, 0, 0, 0, 0, 0, 0, 64, proto, 0, 0, 10, 0, 0, 1, 10, 0, 0, 2];
    let len = (p.len() + payload.len()) as u16;
    p[2..4].copy_from_slice(&len.to_be_bytes());
    p.extend_from_slice(payload);
    p
}

fn udp(sport: u16, dport: u16, payload: &[u8]) -> Vec<u8> {
    let mut p = Vec::new();
    p.extend_from_slice(&sport.to_be_bytes());
    p.extend_from_slice(&dport.to_be_bytes());
    p.extend_from_slice(&(payload.len() as u16 + 8).to_be_bytes());
    p.extend_from_slice(&[0, 0]);
    p.extend_from_slice(payload);
    p
}

/// Build an Ethernet + IPv4 + TCP SYN frame from 192.168.0.1:55555 to
/// 192.168.0.2:443, seq=1.
fn tcp_syn_frame() -> Vec<u8> {
    let mut eth = vec![
        0x00, 0x11, 0x22, 0x33, 0x44, 0x55, // dst mac
        0xaa, 0xbb, 0xcc, 0xdd, 0xee, 0xff, // src mac
        0x08, 0x00, // IPv4 ethertype
    ];
    let ipv4 = [
        0x45, 0x00, 0x00, 0x28, 0x00, 0x01, 0x00, 0x00, 0x40, 0x06, 0x00, 0x00,
        192, 168, 0, 1,
        192, 168, 0, 2,
    ];
    let tcp = [
        0xd9, 0x03, 0x01, 0xbb, // sport 55555 dport 443
        0x00, 0x00, 0x00, 0x01, // seq 1
        0x00, 0x00, 0x00, 0x00, // ack 0
        0x50, 0x02,              // data-off 5 * 4, flags SYN
        0xfa, 0xf0,              // window 64240
        0x00, 0x00, 0x00, 0x00,  // checksum + urg
    ];
    eth.extend_from_slice(&ipv4);
    eth.extend_from_slice(&tcp);
    eth
}

#[test]
fn dissect_tcp_syn_ipv4_over_ethernet() {
    let pkt = raw(tcp_syn_frame());
    let d = dissect(&pkt, &DissectConfig::default());
    let s = &d.summary;
    assert_eq!(s.protocol, "TCP");
    assert_eq!(s.src, "192.168.0.1");
    assert_eq!(s.dst, "192.168.0.2");
    assert!(s.info.contains("55555"));
    assert!(s.info.contains("443"));
    assert!(s.info.contains("[SYN]"));
}

#[test]
fn tree_has_named_fields() {
    let pkt = raw(tcp_syn_frame());
    let d = dissect(&pkt, &DissectConfig::default());
    // Protocol layers are siblings at the top level.
    assert_eq!(d.tree.len(), 3); // Ethernet, IPv4, TCP
    assert_eq!(
        extract(&d.tree, "ip.src"),
        Some(&Value::Str("192.168.0.1".into()))
    );
    assert_eq!(extract(&d.tree, "tcp.dstport"), Some(&Value::Uint(443)));
    assert_eq!(extract(&d.tree, "tcp.srcport"), Some(&Value::Uint(55555)));
    assert_eq!(extract(&d.tree, "eth.type"), Some(&Value::Uint(0x0800)));
}

#[test]
fn dissect_arp_who_has() {
    let mut eth = vec![
        0xff, 0xff, 0xff, 0xff, 0xff, 0xff,
        0x00, 0x01, 0x02, 0x03, 0x04, 0x05,
        0x08, 0x06,
    ];
    let arp = [
        0x00, 0x01, 0x08, 0x00, 0x06, 0x04, 0x00, 0x01, // hw/proto types, opcode=request
        0x00, 0x01, 0x02, 0x03, 0x04, 0x05,             // sha
        10, 0, 0, 1,                                     // spa
        0x00, 0x00, 0x00, 0x00, 0x00, 0x00,             // tha
        10, 0, 0, 2,                                     // tpa
    ];
    eth.extend_from_slice(&arp);
    let pkt = raw(eth);
    let d = dissect(&pkt, &DissectConfig::default());
    assert_eq!(d.summary.protocol, "ARP");
    assert_eq!(d.summary.src, "10.0.0.1");
    assert_eq!(d.summary.dst, "10.0.0.2");
    assert!(d.summary.info.contains("Who has 10.0.0.2"));
    assert_eq!(
        extract(&d.tree, "arp.src.proto_ipv4"),
        Some(&Value::Str("10.0.0.1".into()))
    );
}

#[test]
fn dns_qname_decoded() {
    let mut dns = vec![
        0x12, 0x34, 0x01, 0x00,
        0x00, 0x01, 0x00, 0x00, 0x00, 0x00, 0x00, 0x00,
    ];
    for label in ["www", "example", "com"] {
        dns.push(label.len() as u8);
        dns.extend_from_slice(label.as_bytes());
    }
    dns.push(0);
    dns.extend_from_slice(&[0x00, 0x01, 0x00, 0x01]); // QTYPE=A QCLASS=IN

    let name = parse_first_qname(&dns).unwrap();
    assert_eq!(name, "www.example.com");
}

#[test]
fn truncated_tcp_header_handled() {
    // Ethernet + IPv4 header valid, TCP header only 8 bytes long.
    let mut frame = vec![
        0x00, 0x11, 0x22, 0x33, 0x44, 0x55,
        0xaa, 0xbb, 0xcc, 0xdd, 0xee, 0xff,
        0x08, 0x00,
    ];
    let ipv4 = [
        0x45, 0x00, 0x00, 0x1c, 0x00, 0x01, 0x00, 0x00, 0x40, 0x06, 0x00, 0x00,
        10, 0, 0, 1,
        10, 0, 0, 2,
    ];
    frame.extend_from_slice(&ipv4);
    frame.extend_from_slice(&[0; 8]); // too-short TCP
    let pkt = raw(frame);
    let d = dissect(&pkt, &DissectConfig::default());
    assert_eq!(d.summary.protocol, "TCP");
    assert!(d.summary.info.contains("truncated"));
}

#[test]
fn tcp_line_and_tree_in_full() {
    let d = dissect(&raw(tcp_syn_frame()), &DissectConfig::default());
    assert_eq!(d.summary.info, "55555 \u{2192} 443 [SYN] Seq=1 Ack=0 Win=64240 Len=0");
    assert_eq!(
        d.tree[0].text,
        "Ethernet II, Src: aa:bb:cc:dd:ee:ff, Dst: 00:11:22:33:44:55"
    );
    assert_eq!(d.tree[0].children[2].text, "Type: IPv4 (0x0800)");
    assert_eq!(d.tree[1].children[1].text, "Header Length: 20 bytes (5)");
    assert_eq!(d.tree[1].children[2].text, "ECN: 0x00 (Not-ECT)");
    assert_eq!(d.tree[1].children[5].text, "Protocol: TCP (6)");
    assert_eq!(
        d.tree[2].text,
        "Transmission Control Protocol, Src Port: 55555, Dst Port: 443, Seq: 1, Len: 0"
    );
    assert_eq!(d.tree[2].children[4].text, "Flags: 0x002 [SYN]");
}

#[test]
fn several_tcp_flags_are_listed() {
    let mut frame = tcp_syn_frame();
    frame[14 + 20 + 13] = 0xff;
    let d = dissect(&raw(frame), &DissectConfig::default());
    assert!(d.summary.info.contains("[FIN, SYN, RST, PSH, ACK, URG, ECE, CWR]"));
}

#[test]
fn the_length_column_is_the_length_on_the_wire() {
    let mut pkt = raw(vec![0; 3]);
    pkt.orig_len = 1500;
    let d = dissect(&pkt, &DissectConfig::default());
    assert_eq!(d.summary.length, 1500);
    assert_eq!(d.summary.info, "truncated ethernet header");
}

#[test]
fn one_vlan_tag_is_taken_off() {
    let mut tagged = vec![0x00, 0x05, 0x08, 0x00];
    tagged.extend_from_slice(&ipv4(1, &[8, 0, 0, 0]));
    let d = eth(0x8100, &tagged);
    assert_eq!(d.summary.protocol, "ICMP");
    assert_eq!(d.summary.info, "Echo (ping) request");
    assert_eq!(extract(&d.tree, "eth.type"), Some(&Value::Uint(0x0800)));
    let cut = eth(0x8100, &[0, 5]);
    assert_eq!(cut.summary.info, "ethertype 0x8100");
    assert_eq!(eth(0x1234, &[]).summary.info, "ethertype 0x1234");
}

#[test]
fn control_messages() {
    let info = |ty: u8, code: u8| eth(0x0800, &ipv4(1, &[ty, code, 0, 0])).summary.info;
    assert_eq!(info(0, 0), "Echo (ping) reply");
    assert_eq!(info(3, 1), "Destination unreachable (code 1)");
    assert_eq!(info(11, 0), "Time-to-live exceeded (code 0)");
    assert_eq!(info(5, 2), "type 5 code 2");
    assert_eq!(eth(0x0800, &ipv4(1, &[8])).summary.info, "truncated");
    assert_eq!(eth(0x0800, &ipv4(99, &[8])).summary.info, "proto 99");
}

#[test]
fn ipv4_headers_that_do_not_fit() {
    assert_eq!(eth(0x0800, &[0x45; 19]).summary.info, "truncated IPv4 header");
    assert_eq!(eth(0x0800, &[0x44; 20]).summary.info, "bad IPv4 header length");
    assert_eq!(eth(0x0800, &[0x46; 20]).summary.info, "bad IPv4 header length");
}

#[test]
fn the_ipv4_payload_ends_at_the_total_length() {
    let mut p = ipv4(17, &udp(1000, 2000, b"abcd"));
    p.extend_from_slice(&[0; 6]); // Ethernet padding
    let d = eth(0x0800, &p);
    assert_eq!(d.summary.info, "1000 \u{2192} 2000  Len=4");
    // A total length of 0 stands for everything captured.
    p[2] = 0;
    p[3] = 0;
    assert_eq!(eth(0x0800, &p).summary.protocol, "UDP");
    // One that lies inside the header leaves nothing.
    p[3] = 10;
    assert_eq!(eth(0x0800, &p).summary.info, "truncated UDP header");
}

#[test]
fn ecn_codepoints_are_named() {
    let text = |tos: u8| {
        let mut p = ipv4(99, &[]);
        p[1] = tos;
        eth(0x0800, &p).tree[1].children[2].text.clone()
    };
    assert_eq!(text(0), "ECN: 0x00 (Not-ECT)");
    assert_eq!(text(1), "ECN: 0x01 (ECT(1))");
    assert_eq!(text(2), "ECN: 0x02 (ECT(0))");
    assert_eq!(text(3), "ECN: 0x03 (CE)");
}

fn ipv6(next: u8, payload: &[u8]) -> Vec<u8> {
    let mut p = vec![0u8; 40];
    p[0] = 0x60;
    p[1] = 0x30; // traffic class 3: ECN CE
    p[4..6].copy_from_slice(&(payload.len() as u16).to_be_bytes());
    p[6] = next;
    p[7] = 64;
    p[8] = 0xfe;
    p[9] = 0x80;
    p[23] = 1;
    p[24] = 0x20;
    p[25] = 0x01;
    p[39] = 2;
    p.extend_from_slice(payload);
    p
}

#[test]
fn ipv6_and_its_control_messages() {
    let d = eth(0x86dd, &ipv6(58, &[135, 0, 0, 0]));
    assert_eq!(d.summary.protocol, "ICMPv6");
    assert_eq!(d.summary.info, "Neighbor Solicitation");
    assert_eq!(d.summary.src, "fe80::1");
    assert_eq!(d.summary.dst, "2001::2");
    assert_eq!(extract(&d.tree, "ipv6.dsfield.ecn"), Some(&Value::Uint(3)));
    let info = |ty: u8| eth(0x86dd, &ipv6(58, &[ty, 0, 0, 0])).summary.info;
    assert_eq!(info(128), "Echo Request");
    assert_eq!(info(129), "Echo Reply");
    assert_eq!(info(133), "Router Solicitation");
    assert_eq!(info(134), "Router Advertisement");
    assert_eq!(info(136), "Neighbor Advertisement");
    assert_eq!(info(137), "Redirect");
    assert_eq!(info(1), "type 1");
    assert_eq!(eth(0x86dd, &ipv6(0, &[])).summary.info, "next header 0");
    assert_eq!(eth(0x86dd, &[0; 39]).summary.info, "truncated IPv6 header");
    assert_eq!(eth(0x86dd, &ipv6(6, &[0; 4])).summary.info, "truncated TCP header");
}

#[test]
fn well_known_udp_ports_are_labelled() {
    let protocol = |s: u16, d: u16| eth(0x0800, &ipv4(17, &udp(s, d, b""))).summary.protocol;
    assert_eq!(protocol(67, 1), "DHCP");
    assert_eq!(protocol(1, 68), "DHCP");
    assert_eq!(protocol(123, 9), "NTP");
    assert_eq!(protocol(9, 5353), "MDNS");
    assert_eq!(protocol(9, 53), "DNS");
    assert_eq!(protocol(4791, 9), "RoCE");
    assert_eq!(protocol(9, 10), "UDP");
}

#[test]
fn dns_queries_and_responses() {
    let mut q = vec![0x12, 0x34, 0x01, 0x00, 0, 1, 0, 0, 0, 0, 0, 0];
    q.extend_from_slice(b"\x03a\x01b\x00");
    let d = eth(0x0800, &ipv4(17, &udp(9, 53, &q)));
    assert_eq!(d.summary.info, "0x1234 standard query qd=1 an=0 rcode=0 a?b");
    assert_eq!(extract(&d.tree, "dns.qry.name"), Some(&Value::Str("a?b".into())));
    let r = [0xab, 0xcd, 0xa8, 0x03, 0, 0, 0, 2, 0, 0, 0, 0];
    let d = eth(0x0800, &ipv4(17, &udp(53, 9, &r)));
    assert_eq!(d.summary.info, "0xabcd update response qd=0 an=2 rcode=3");
    assert_eq!(extract(&d.tree, "dns.qry.name"), None);
    assert_eq!(eth(0x0800, &ipv4(17, &udp(53, 9, &[0; 11]))).summary.info, "truncated");
}

#[test]
fn names_that_are_not_plain_labels() {
    let mut dns = vec![0u8; 12];
    assert_eq!(parse_first_qname(&dns), None);
    dns.push(0);
    assert_eq!(parse_first_qname(&dns), None);
    dns[12] = 0xc0;
    assert_eq!(parse_first_qname(&dns), None);
    dns[12] = 2;
    dns.push(b'a');
    assert_eq!(parse_first_qname(&dns), None);
    dns.push(b'b');
    assert_eq!(parse_first_qname(&dns), None);
    dns.push(0);
    assert_eq!(parse_first_qname(&dns), Some("ab".to_string()));
    assert_eq!(parse_first_qname(&[0; 11]), None);
}

#[test]
fn pause_and_priority_flow_control() {
    let d = eth(0x8808, &[0, 1, 0xff, 0xff]);
    assert_eq!((d.summary.protocol, d.summary.info.as_str()), ("PAUSE", "MAC PAUSE: quanta=65535"));
    assert_eq!(eth(0x8808, &[0, 1]).summary.info, "MAC PAUSE: quanta=0");

    let mut pfc = vec![1, 1, 0, 0b0000_1001];
    for class in 0..8u16 {
        pfc.extend_from_slice(&(class * 100).to_be_bytes());
    }
    let d = eth(0x8808, &pfc);
    assert_eq!(d.summary.protocol, "PFC");
    assert_eq!(d.summary.info, "PFC pause: P0=0 P3=300");
    assert_eq!(extract(&d.tree, "pfc.time.prio7"), Some(&Value::Uint(700)));
    assert_eq!(d.tree[1].children[5].text, "Priority 3: enabled time=300");
    assert_eq!(d.tree[1].children[6].text, "Priority 4: disabled time=400");
    // Times that were cut off count as 0.
    assert_eq!(eth(0x8808, &[1, 1, 0, 0x80]).summary.info, "PFC pause: P7=0");
    assert_eq!(eth(0x8808, &[1, 1, 0, 0]).summary.info, "PFC: no classes paused");
    assert_eq!(eth(0x8808, &[1, 1, 0]).summary.info, "truncated PFC frame");
    assert_eq!(eth(0x8808, &[0]).summary.info, "truncated MAC Control frame");
    assert_eq!(eth(0x8808, &[0, 9]).summary.info, "opcode 0x0009");
}

#[test]
fn arp_operations() {
    let info = |op: u8| {
        let mut p = vec![0, 1, 8, 0, 6, 4, 0, op];
        p.extend_from_slice(&[2, 0, 0, 0, 0, 1, 10, 0, 0, 1, 2, 0, 0, 0, 0, 2, 10, 0, 0, 2]);
        eth(0x0806, &p).summary.info
    };
    assert_eq!(info(1), "Who has 10.0.0.2? Tell 10.0.0.1");
    assert_eq!(info(2), "10.0.0.1 is at 02:00:00:00:00:01");
    assert_eq!(info(3), "Reverse request for 02:00:00:00:00:02");
    assert_eq!(info(4), "Reverse reply: 10.0.0.2 is at 02:00:00:00:00:02");
    assert_eq!(info(9), "opcode 9");
    assert_eq!(eth(0x0806, &[0; 27]).summary.info, "truncated ARP packet");
}

#[test]
fn other_link_layers() {
    let ip = ipv4(1, &[8, 0, 0, 0]);
    let mut sll = vec![0u8; 14];
    sll.extend_from_slice(&[0x08, 0x00]);
    sll.extend_from_slice(&ip);
    assert_eq!(with_link(LinkType::LinuxSll, &sll).summary.protocol, "ICMP");
    sll[14] = 0x12;
    assert_eq!(with_link(LinkType::LinuxSll, &sll).summary.info, "ethertype 0x1200");
    assert_eq!(with_link(LinkType::LinuxSll, &[0; 15]).summary.protocol, "SLL");

    for family in [[2u8, 0, 0, 0], [0, 0, 0, 2]] {
        let mut null = family.to_vec();
        null.extend_from_slice(&ip);
        assert_eq!(with_link(LinkType::Null, &null).summary.protocol, "ICMP");
    }
    let mut null6 = vec![0, 0, 0, 30];
    null6.extend_from_slice(&ipv6(58, &[128, 0, 0, 0]));
    assert_eq!(with_link(LinkType::Null, &null6).summary.protocol, "ICMPv6");
    assert_eq!(with_link(LinkType::Null, &[1, 0, 0, 9]).summary.info, "family 0x09000001");
    assert_eq!(with_link(LinkType::Null, &[1]).summary.protocol, "NULL");

    assert_eq!(with_link(LinkType::RawIp, &ip).summary.protocol, "ICMP");
    assert_eq!(with_link(LinkType::RawIp, &[0x50]).summary.info, "unknown IP version 5");
    assert_eq!(with_link(LinkType::RawIp, &[]).summary.protocol, "UNKNOWN");
    let other = with_link(LinkType::Other(99), &[1, 2, 3]);
    assert_eq!(other.summary.protocol, "LINK");
    assert_eq!(other.summary.info, "unsupported DLT 99, 3 bytes");
    assert_eq!(with_link(LinkType::Infiniband, &[]).summary.info, "truncated LRH");
}

#[test]
fn addresses_as_text() {
    assert_eq!(fmt_mac(&[0, 1, 2, 0xab, 0xcd, 0xef, 9], 0), "00:01:02:ab:cd:ef");
    assert_eq!(fmt_ipv4(&[9, 255, 0, 10, 1], 1), "255.0.10.1");
    let v6 = |groups: [u16; 8]| {
        let bytes: Vec<u8> = groups.iter().flat_map(|g| g.to_be_bytes()).collect();
        fmt_ipv6(&bytes, 0)
    };
    assert_eq!(v6([0, 0, 0, 0, 0, 0, 0, 0]), "::");
    assert_eq!(v6([0, 0, 0, 0, 0, 0, 0, 1]), "::1");
    assert_eq!(v6([1, 0, 0, 0, 0, 0, 0, 0]), "1::");
    assert_eq!(v6([0xfe80, 0, 0, 0, 0, 0, 1, 2]), "fe80::1:2");
    assert_eq!(v6([1, 2, 3, 4, 5, 6, 7, 8]), "1:2:3:4:5:6:7:8");
    // A single zero group is written out.
    assert_eq!(v6([1, 0, 3, 4, 5, 6, 7, 8]), "1:0:3:4:5:6:7:8");
    // The longest run is shortened, and of two equally long ones the first.
    assert_eq!(v6([1, 0, 0, 4, 5, 0, 0, 8]), "1::4:5:0:0:8");
    assert_eq!(v6([1, 0, 0, 4, 0, 0, 0, 8]), "1:0:0:4::8");
    assert_eq!(v6([0, 1, 0, 0, 0, 0, 0, 0]), "0:1::");
    assert_eq!(v6([0x2001, 0xdb8, 0, 0, 0xa, 0, 0, 1]), "2001:db8::a:0:0:1");
    // Only IPv4-mapped addresses end in IPv4 form.
    assert_eq!(v6([0, 0, 0, 0, 0, 0xffff, 0x102, 0x304]), "::ffff:1.2.3.4");
    assert_eq!(v6([0, 0, 0, 0, 0, 0, 0x102, 0x304]), "::102:304");
}

#[test]
fn a_rocev2_packet_is_recorded_with_its_queue_pair_and_sequence_number() {
    let bth = [0x0a, 0, 0xff, 0xff, 0, 0x00, 0x01, 0x23, 0, 0, 0, 100];
    for (etype, packet, dst) in [
        (0x0800, ipv4(17, &udp(50000, 4791, &bth)), "10.0.0.2"),
        (0x86dd, ipv6(17, &udp(50000, 4791, &bth)), "2001::2"),
    ] {
        let d = eth(etype, &packet);
        assert_eq!(d.summary.protocol, "RoCE");
        let r = record(3, &d.summary.dst, &d.tree).unwrap();
        assert_eq!((r.framenum, r.dst.as_str(), r.qp, r.psn), (3, dst, 0x123, 100));
    }
}

#[test]
fn rocev1_rides_on_ethernet() {
    let mut p = vec![0u8; 40];
    p[0] = 0x60;
    p[6] = 0x1b;
    p[23] = 1;
    p[39] = 2;
    p.extend_from_slice(&[0x04, 0, 0xff, 0xff, 0, 0, 0, 7, 0, 0, 0, 8]);
    let d = eth(0x8915, &p);
    assert_eq!(d.summary.protocol, "RoCE");
    assert_eq!((d.summary.src.as_str(), d.summary.dst.as_str()), ("::1", "::2"));
    assert_eq!(d.tree.len(), 3);
}

#[test]
fn bytes_behind_the_total_length_are_ignored() {
    let packet = ipv4(17, &udp(1000, 2000, &[1, 2, 3]));
    let mut padded = packet.clone();
    padded.extend_from_slice(&[0xee; 15]);
    let (a, mut b) = (eth(0x0800, &packet), eth(0x0800, &padded));
    assert_eq!(b.summary.length, a.summary.length + 15);
    b.summary.length = a.summary.length;
    assert_eq!(format!("{a:?}"), format!("{b:?}"));

    let segment = [0, 1, 0, 2, 0, 0, 0, 0, 0, 0, 0, 0, 0x50, 0, 0, 0, 0, 0, 0, 0];
    let mut whole = ipv4(6, &segment);
    whole.extend_from_slice(&[0; 6]);
    assert_eq!(extract(&eth(0x0800, &whole).tree, "tcp.len"), Some(&Value::Uint(0)));
    whole[2..4].copy_from_slice(&[0, 0]);
    assert_eq!(extract(&eth(0x0800, &whole).tree, "tcp.len"), Some(&Value::Uint(6)));
}

#[test]
fn one_vlan_tag_does_not_matter_and_a_second_stays() {
    let packet = ipv4(17, &udp(1000, 2000, &[1, 2, 3]));
    let mut tagged = vec![0x20, 0x64, 0x08, 0x00];
    tagged.extend_from_slice(&packet);
    let (a, mut b) = (eth(0x0800, &packet), eth(0x8100, &tagged));
    assert_eq!(b.summary.length, a.summary.length + 4);
    b.summary.length = a.summary.length;
    assert_eq!(format!("{a:?}"), format!("{b:?}"));
    assert_eq!(extract(&b.tree, "eth.type"), Some(&Value::Uint(0x0800)));

    let mut twice = vec![0x20, 0x64, 0x81, 0x00];
    twice.extend_from_slice(&tagged);
    let d = eth(0x8100, &twice);
    assert_eq!(d.summary.protocol, "ETH");
    assert_eq!(d.summary.info, "ethertype 0x8100");
    assert_eq!(d.tree.len(), 1);
}
