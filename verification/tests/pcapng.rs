use rusty_shark::pcap::{CaptureError, CaptureReader, Input, LinkType};
use rusty_shark::pcapng::{PcapNgReader, BT_EPB, BT_IDB, BT_SHB, BT_SPB, SHB_BOM};

fn write_option(out: &mut Vec<u8>, code: u16, value: &[u8]) {
    out.extend_from_slice(&code.to_le_bytes());
    out.extend_from_slice(&(value.len() as u16).to_le_bytes());
    out.extend_from_slice(value);
    // Pad to 32-bit.
    while out.len() % 4 != 0 {
        out.push(0);
    }
}

fn write_block(out: &mut Vec<u8>, block_type: u32, body: &[u8]) {
    let mut padded = body.to_vec();
    while padded.len() % 4 != 0 {
        padded.push(0);
    }
    let total = (12 + padded.len()) as u32;
    out.extend_from_slice(&block_type.to_le_bytes());
    out.extend_from_slice(&total.to_le_bytes());
    out.extend_from_slice(&padded);
    out.extend_from_slice(&total.to_le_bytes());
}

fn build_shb() -> Vec<u8> {
    // body: BOM(4) major(2) minor(2) section_length(8) opt_endofopt
    let mut body = Vec::new();
    body.extend_from_slice(&SHB_BOM.to_le_bytes());
    body.extend_from_slice(&1u16.to_le_bytes()); // major
    body.extend_from_slice(&0u16.to_le_bytes()); // minor
    body.extend_from_slice(&u64::MAX.to_le_bytes()); // section_length: unspecified
    // opt_endofopt
    body.extend_from_slice(&0u16.to_le_bytes());
    body.extend_from_slice(&0u16.to_le_bytes());
    body
}

fn build_idb(link_type: u16, tsresol: Option<u8>) -> Vec<u8> {
    let mut body = Vec::new();
    body.extend_from_slice(&link_type.to_le_bytes());
    body.extend_from_slice(&0u16.to_le_bytes()); // reserved
    body.extend_from_slice(&65535u32.to_le_bytes()); // snaplen
    if let Some(v) = tsresol {
        write_option(&mut body, 9, &[v]);
        write_option(&mut body, 0, &[]);
    }
    body
}

fn build_epb(interface_id: u32, ts: u64, data: &[u8]) -> Vec<u8> {
    let mut body = Vec::new();
    body.extend_from_slice(&interface_id.to_le_bytes());
    body.extend_from_slice(&((ts >> 32) as u32).to_le_bytes());
    body.extend_from_slice(&(ts as u32).to_le_bytes());
    body.extend_from_slice(&(data.len() as u32).to_le_bytes());
    body.extend_from_slice(&(data.len() as u32).to_le_bytes());
    body.extend_from_slice(data);
    // pad packet data to 4 bytes
    while body.len() % 4 != 0 {
        body.push(0);
    }
    // opt_endofopt
    body.extend_from_slice(&0u16.to_le_bytes());
    body.extend_from_slice(&0u16.to_le_bytes());
    body
}

fn build_capture(idb_link: u16, tsresol: Option<u8>, packets: &[(u64, Vec<u8>)]) -> Vec<u8> {
    let mut buf = Vec::new();
    write_block(&mut buf, BT_SHB, &build_shb());
    write_block(&mut buf, BT_IDB, &build_idb(idb_link, tsresol));
    for (ts, data) in packets {
        write_block(&mut buf, BT_EPB, &build_epb(0, *ts, data));
    }
    buf
}

/// The first outcome behind a section header.
fn after_section(blocks: &[u8]) -> Result<Option<Vec<u8>>, CaptureError> {
    let mut buf = Vec::new();
    write_block(&mut buf, BT_SHB, &build_shb());
    buf.extend_from_slice(blocks);
    let mut input = Input::new(buf);
    let mut r = PcapNgReader::new(&mut input).unwrap();
    r.next_packet(&mut input).map(|p| p.map(|p| p.data))
}

fn block(block_type: u32, body: &[u8]) -> Vec<u8> {
    let mut out = Vec::new();
    write_block(&mut out, block_type, body);
    out
}

#[test]
fn reads_epb_us_resolution() {
    // Default tsresol is microseconds.
    let payload = [0xde, 0xad, 0xbe, 0xef];
    let ts = 1_700_000_000u64 * 1_000_000 + 500_000; // 500 ms after
    let buf = build_capture(1, None, &[(ts, payload.to_vec())]);
    let mut input = Input::new(buf);
    let mut r = PcapNgReader::new(&mut input).unwrap();
    let pkt = r.next_packet(&mut input).unwrap().unwrap();
    assert_eq!(pkt.link_type, LinkType::Ethernet);
    assert_eq!(pkt.ts_sec, 1_700_000_000);
    assert_eq!(pkt.ts_nsec, 500_000_000);
    assert_eq!(pkt.data, payload);
    assert!(r.next_packet(&mut input).unwrap().is_none());
}

#[test]
fn reads_epb_nanosecond_resolution() {
    let payload = [1, 2, 3, 4, 5];
    // tsresol = 9 (base-10 exp): nanoseconds
    let ts = 1_700_000_000u64 * 1_000_000_000 + 123_456_789;
    let buf = build_capture(1, Some(9), &[(ts, payload.to_vec())]);
    let mut input = Input::new(buf);
    let mut r = PcapNgReader::new(&mut input).unwrap();
    let pkt = r.next_packet(&mut input).unwrap().unwrap();
    assert_eq!(pkt.ts_sec, 1_700_000_000);
    assert_eq!(pkt.ts_nsec, 123_456_789);
}

#[test]
fn skips_unknown_block_types() {
    // Standard SHB + IDB + one unknown block + one EPB.
    let mut buf = Vec::new();
    write_block(&mut buf, BT_SHB, &build_shb());
    write_block(&mut buf, BT_IDB, &build_idb(1, None));
    write_block(&mut buf, 0xdead_beef, &[0, 1, 2, 3, 4, 5, 6, 7]); // gibberish
    write_block(&mut buf, BT_EPB, &build_epb(0, 42, &[0xaa; 8]));

    let mut input = Input::new(buf);
    let mut r = PcapNgReader::new(&mut input).unwrap();
    let pkt = r.next_packet(&mut input).unwrap().unwrap();
    assert_eq!(pkt.data, [0xaa; 8]);
}

#[test]
fn rejects_bad_magic() {
    let buf = vec![0; 32];
    let err = match PcapNgReader::new(&mut Input::new(buf)) {
        Ok(_) => panic!("expected error"),
        Err(e) => e,
    };
    assert!(err.to_string().contains("not a pcapng file"));
    assert_eq!(err.to_string(), "not a pcapng file (magic = 0x00000000)");
}

#[test]
fn each_interface_has_its_link_type_and_resolution() {
    let mut buf = Vec::new();
    write_block(&mut buf, BT_SHB, &build_shb());
    write_block(&mut buf, BT_IDB, &build_idb(1, Some(3)));
    write_block(&mut buf, BT_IDB, &build_idb(101, Some(0x80 | 10)));
    write_block(&mut buf, BT_EPB, &build_epb(1, 1024 * 7 + 512, b"one"));
    write_block(&mut buf, BT_EPB, &build_epb(0, 5_250, b"zero"));
    write_block(&mut buf, BT_EPB, &build_epb(2, 3_000_001, b"none"));
    let mut input = Input::new(buf);
    let mut r = CaptureReader::new(&mut input).unwrap();
    let one = r.next_packet(&mut input).unwrap().unwrap();
    assert_eq!((one.link_type, one.ts_sec, one.ts_nsec), (LinkType::RawIp, 7, 500_000_000));
    let zero = r.next_packet(&mut input).unwrap().unwrap();
    assert_eq!((zero.link_type, zero.ts_sec, zero.ts_nsec), (LinkType::Ethernet, 5, 250_000_000));
    let none = r.next_packet(&mut input).unwrap().unwrap();
    assert_eq!((none.link_type, none.ts_sec, none.ts_nsec), (LinkType::Ethernet, 3, 1_000));
}

#[test]
fn other_options_are_passed_over() {
    let mut body = build_idb(1, None);
    write_option(&mut body, 2, b"eth0");
    write_option(&mut body, 3, b"uplink");
    write_option(&mut body, 9, &[9]);
    write_option(&mut body, 0, &[]);
    let mut blocks = block(BT_IDB, &body);
    blocks.extend_from_slice(&block(BT_EPB, &build_epb(0, 2_000_000_003, b"x")));
    let mut buf = block(BT_SHB, &build_shb());
    buf.extend_from_slice(&blocks);
    let mut input = Input::new(buf);
    let mut r = PcapNgReader::new(&mut input).unwrap();
    let pkt = r.next_packet(&mut input).unwrap().unwrap();
    assert_eq!((pkt.ts_sec, pkt.ts_nsec), (2, 3));
}

#[test]
fn an_absurd_resolution_means_the_default() {
    for v in [20u8, 0x7f, 0x80 | 63] {
        let buf = build_capture(1, Some(v), &[(1_500_000, vec![1])]);
        let mut input = Input::new(buf);
        let mut r = PcapNgReader::new(&mut input).unwrap();
        let pkt = r.next_packet(&mut input).unwrap().unwrap();
        assert_eq!((pkt.ts_sec, pkt.ts_nsec), (1, 500_000_000));
    }
    let buf = build_capture(1, Some(19), &[(10_000_000_000_000_000_000, vec![1])]);
    let mut input = Input::new(buf);
    let mut r = PcapNgReader::new(&mut input).unwrap();
    assert_eq!(r.next_packet(&mut input).unwrap().unwrap().ts_sec, 1);
}

#[test]
fn seconds_saturate() {
    let buf = build_capture(1, Some(0), &[(u64::MAX, vec![1])]);
    let mut input = Input::new(buf);
    let mut r = PcapNgReader::new(&mut input).unwrap();
    let pkt = r.next_packet(&mut input).unwrap().unwrap();
    assert_eq!((pkt.ts_sec, pkt.ts_nsec), (u32::MAX, 0));
}

#[test]
fn simple_packets_lose_their_padding() {
    let mut body = 5u32.to_le_bytes().to_vec();
    body.extend_from_slice(b"abcde");
    let mut blocks = block(BT_IDB, &build_idb(113, None));
    blocks.extend_from_slice(&block(BT_SPB, &body));
    let mut buf = block(BT_SHB, &build_shb());
    buf.extend_from_slice(&blocks);
    let mut input = Input::new(buf);
    let mut r = PcapNgReader::new(&mut input).unwrap();
    let pkt = r.next_packet(&mut input).unwrap().unwrap();
    assert_eq!(pkt.data, b"abcde");
    assert_eq!((pkt.orig_len, pkt.ts_sec, pkt.ts_nsec), (5, 0, 0));
    assert_eq!(pkt.link_type, LinkType::LinuxSll);
}

#[test]
fn a_new_section_forgets_the_interfaces() {
    let mut buf = build_capture(101, None, &[(0, vec![1])]);
    write_block(&mut buf, BT_SHB, &build_shb());
    write_block(&mut buf, BT_EPB, &build_epb(0, 0, b"x"));
    let mut input = Input::new(buf);
    let mut r = PcapNgReader::new(&mut input).unwrap();
    assert_eq!(r.next_packet(&mut input).unwrap().unwrap().link_type, LinkType::RawIp);
    assert_eq!(r.next_packet(&mut input).unwrap().unwrap().link_type, LinkType::Ethernet);
}

#[test]
fn a_big_endian_file() {
    let mut buf = Vec::new();
    let be = |v: u32| v.to_be_bytes();
    for word in [BT_SHB, 28, SHB_BOM, 0x0001_0000, 0xffff_ffff, 0xffff_ffff, 28] {
        buf.extend_from_slice(&be(word));
    }
    for word in [BT_EPB, 36, 0, 0, 1_000_002, 4, 9] {
        buf.extend_from_slice(&be(word));
    }
    buf.extend_from_slice(b"data");
    buf.extend_from_slice(&be(36));
    let mut input = Input::new(buf);
    let mut r = CaptureReader::new(&mut input).unwrap();
    let pkt = r.next_packet(&mut input).unwrap().unwrap();
    assert_eq!((pkt.ts_sec, pkt.ts_nsec, pkt.orig_len), (1, 2_000, 9));
    assert_eq!(pkt.data, b"data");
}

#[test]
fn every_pcapng_error() {
    let text = |r: Result<Option<Vec<u8>>, CaptureError>| r.unwrap_err().to_string();
    let words = |ws: &[u32]| -> Vec<u8> { ws.iter().flat_map(|w| w.to_le_bytes()).collect() };
    let open = |bytes: Vec<u8>| PcapNgReader::new(&mut Input::new(bytes)).err().unwrap().to_string();

    assert_eq!(open(vec![0x0a]), "reading pcapng magic");
    assert_eq!(open(words(&[BT_SHB, 28])), "reading pcapng SHB prefix");
    assert_eq!(
        open(words(&[BT_SHB, 28, 5])),
        "pcapng SHB byte-order magic invalid (got 0x00000005)"
    );
    assert_eq!(
        open(words(&[BT_SHB, 8, SHB_BOM])),
        "implausible pcapng SHB total length: 8"
    );
    assert_eq!(open(words(&[BT_SHB, 28, SHB_BOM])), "reading pcapng SHB body");
    assert_eq!(
        open(words(&[BT_SHB, 12, SHB_BOM])),
        "pcapng section header block too short: 12"
    );
    assert_eq!(
        open(words(&[BT_SHB, 16, SHB_BOM, 17])),
        "pcapng SHB trailer length mismatch: 17 vs 16"
    );

    assert_eq!(after_section(&[1, 2, 3]), Ok(None));
    assert_eq!(text(after_section(&words(&[7, 11]))), "implausible pcapng block length: 11");
    assert_eq!(text(after_section(&words(&[7, 20, 0]))), "reading pcapng block body");
    assert_eq!(text(after_section(&words(&[7, 16, 0]))), "reading pcapng block trailer");
    assert_eq!(
        text(after_section(&words(&[7, 16, 0, 20]))),
        "pcapng block trailer length mismatch: 20 vs 16"
    );
    assert_eq!(
        text(after_section(&words(&[BT_SHB, 16, 0x4d3c_2b1a, 16]))),
        "pcapng section header block with foreign byte order not supported"
    );
    assert_eq!(
        text(after_section(&words(&[BT_SHB, 12, 12]))),
        "pcapng section header block too short: 12"
    );
    assert_eq!(text(after_section(&block(BT_IDB, &[1, 0]))), "truncated pcapng IDB body");
    assert_eq!(text(after_section(&block(BT_EPB, &[0; 16]))), "truncated pcapng EPB body");
    assert_eq!(text(after_section(&block(BT_SPB, &[]))), "truncated pcapng SPB body");
    assert_eq!(
        text(after_section(&block(BT_EPB, &words(&[0, 0, 0, 9, 9, 0])))),
        "pcapng EPB captured length 9 exceeds body (4 bytes)"
    );
}

#[test]
fn pcapng_bytes_may_arrive_in_pieces() {
    let whole = build_capture(1, Some(9), &[(1, vec![1; 5]), (2, vec![2; 6])]);
    for size in [1usize, 3, 7, 64] {
        let mut input = Input::empty();
        let mut pieces = whole.chunks(size);
        let mut reader = loop {
            match CaptureReader::new(&mut input) {
                Ok(r) => break r,
                Err(e) => assert_eq!(e, CaptureError::Incomplete),
            }
            input.feed(pieces.next().unwrap());
        };
        let mut lens: Vec<usize> = Vec::new();
        loop {
            match reader.next_packet(&mut input) {
                Ok(Some(p)) => lens.push(p.data.len()),
                Ok(None) => break,
                Err(e) => {
                    assert_eq!(e, CaptureError::Incomplete);
                    match pieces.next() {
                        Some(piece) => input.feed(piece),
                        None => input.finish(),
                    }
                }
            }
        }
        assert_eq!(lens, vec![5, 6]);
    }
}
