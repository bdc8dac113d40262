use rusty_shark::pcap::{
    CaptureError, CaptureReader, Input, LinkType, Part, PcapReader, PCAP_MAGIC_NS, PCAP_MAGIC_US,
};

fn build_pcap(magic: u32, records: &[(u32, u32, &[u8])]) -> Vec<u8> {
    let mut buf = Vec::new();
    buf.extend_from_slice(&magic.to_le_bytes());
    buf.extend_from_slice(&2u16.to_le_bytes()); // major
    buf.extend_from_slice(&4u16.to_le_bytes()); // minor
    buf.extend_from_slice(&0u32.to_le_bytes()); // zone
    buf.extend_from_slice(&0u32.to_le_bytes()); // sigfigs
    buf.extend_from_slice(&65535u32.to_le_bytes()); // snaplen
    buf.extend_from_slice(&1u32.to_le_bytes()); // DLT = EN10MB
    for (ts_sec, ts_sub, data) in records {
        buf.extend_from_slice(&ts_sec.to_le_bytes());
        buf.extend_from_slice(&ts_sub.to_le_bytes());
        buf.extend_from_slice(&(data.len() as u32).to_le_bytes());
        buf.extend_from_slice(&(data.len() as u32).to_le_bytes());
        buf.extend_from_slice(data);
    }
    buf
}

fn build_big_endian(magic: u32, link: u32, records: &[(u32, u32, &[u8])]) -> Vec<u8> {
    let mut buf = Vec::new();
    buf.extend_from_slice(&magic.to_be_bytes());
    buf.extend_from_slice(&[0u8; 16]);
    buf.extend_from_slice(&link.to_be_bytes());
    for (ts_sec, ts_sub, data) in records {
        buf.extend_from_slice(&ts_sec.to_be_bytes());
        buf.extend_from_slice(&ts_sub.to_be_bytes());
        buf.extend_from_slice(&(data.len() as u32).to_be_bytes());
        buf.extend_from_slice(&(data.len() as u32 + 10).to_be_bytes());
        buf.extend_from_slice(data);
    }
    buf
}

#[test]
fn round_trip_microsecond_pcap() {
    let payload = &[0xde, 0xad, 0xbe, 0xef];
    let buf = build_pcap(PCAP_MAGIC_US, &[(42, 500_000, payload)]);
    let mut input = Input::new(buf);
    let r = PcapReader::new(&mut input).unwrap();
    assert_eq!(r.link_type(), LinkType::Ethernet);
    let pkt = r.next_packet(&mut input).unwrap().unwrap();
    assert_eq!(pkt.ts_sec, 42);
    // 500_000 us -> 500_000_000 ns
    assert_eq!(pkt.ts_nsec, 500_000_000);
    assert_eq!(pkt.orig_len, 4);
    assert_eq!(pkt.link_type, LinkType::Ethernet);
    assert_eq!(pkt.data, payload);
    assert!(r.next_packet(&mut input).unwrap().is_none());
}

#[test]
fn round_trip_nanosecond_pcap() {
    let buf = build_pcap(PCAP_MAGIC_NS, &[(7, 123_456_789, b"x")]);
    let mut input = Input::new(buf);
    let r = PcapReader::new(&mut input).unwrap();
    let pkt = r.next_packet(&mut input).unwrap().unwrap();
    assert_eq!(pkt.ts_sec, 7);
    assert_eq!(pkt.ts_nsec, 123_456_789);
}

#[test]
fn rejects_non_pcap_capture() {
    let buf = b"not-a-pcap-file-header-xxxxxxxx".to_vec();
    let err = match CaptureReader::new(&mut Input::new(buf)) {
        Ok(_) => panic!("expected error"),
        Err(e) => e,
    };
    assert!(err.to_string().contains("unrecognised capture-file magic"));
    assert_eq!(
        err.to_string(),
        "unrecognised capture-file magic 0x2d746f6e; supported: pcap, pcapng"
    );
}

#[test]
fn big_endian_files_of_both_resolutions() {
    for (magic, nsec) in [(PCAP_MAGIC_US, 5_000u32), (PCAP_MAGIC_NS, 5u32)] {
        let mut input = Input::new(build_big_endian(magic, 247, &[(1, 5, b"abc"), (2, 0, b"")]));
        let mut r = CaptureReader::new(&mut input).unwrap();
        let a = r.next_packet(&mut input).unwrap().unwrap();
        assert_eq!((a.ts_sec, a.ts_nsec, a.orig_len), (1, nsec, 13));
        assert_eq!(a.link_type, LinkType::Infiniband);
        assert_eq!(a.data, b"abc");
        let b = r.next_packet(&mut input).unwrap().unwrap();
        assert_eq!((b.ts_sec, b.data.len()), (2, 0));
        assert!(r.next_packet(&mut input).unwrap().is_none());
    }
}

#[test]
fn link_types_have_their_numbers() {
    assert_eq!(LinkType::from_u32(0), LinkType::Null);
    assert_eq!(LinkType::from_u32(1), LinkType::Ethernet);
    assert_eq!(LinkType::from_u32(101), LinkType::RawIp);
    assert_eq!(LinkType::from_u32(113), LinkType::LinuxSll);
    assert_eq!(LinkType::from_u32(247), LinkType::Infiniband);
    assert_eq!(LinkType::from_u32(9), LinkType::Other(9));
}

#[test]
fn microseconds_saturate() {
    let mut input = Input::new(build_pcap(PCAP_MAGIC_US, &[(0, 4_294_968, b"")]));
    let r = PcapReader::new(&mut input).unwrap();
    assert_eq!(r.next_packet(&mut input).unwrap().unwrap().ts_nsec, u32::MAX);
}

#[test]
fn cut_off_files() {
    let whole = build_pcap(PCAP_MAGIC_US, &[(1, 2, b"abcd")]);
    let open = |n: usize| PcapReader::new(&mut Input::new(whole[..n].to_vec())).err().unwrap();
    assert_eq!(open(3), CaptureError::Truncated(Part::PcapMagic));
    assert_eq!(open(3).to_string(), "reading pcap magic");
    assert_eq!(open(23).to_string(), "reading pcap global header");
    let capture = CaptureReader::new(&mut Input::new(vec![1, 2])).err().unwrap();
    assert_eq!(capture.to_string(), "reading capture-file magic");

    // Inside a record header the file just ends, inside the bytes it is cut.
    let mut input = Input::new(whole[..39].to_vec());
    let r = PcapReader::new(&mut input).unwrap();
    assert!(r.next_packet(&mut input).unwrap().is_none());
    let mut input = Input::new(whole[..43].to_vec());
    let r = PcapReader::new(&mut input).unwrap();
    let err = r.next_packet(&mut input).unwrap_err();
    assert_eq!(err.to_string(), "reading pcap record payload");
    assert!(r.next_packet(&mut input).unwrap().is_none());
}

#[test]
fn an_absurd_record_length_is_refused() {
    let mut buf = build_pcap(PCAP_MAGIC_US, &[]);
    buf.extend_from_slice(&[0; 8]);
    buf.extend_from_slice(&0x1000_0001u32.to_le_bytes());
    buf.extend_from_slice(&[0; 4]);
    let mut input = Input::new(buf);
    let r = PcapReader::new(&mut input).unwrap();
    let err = r.next_packet(&mut input).unwrap_err();
    assert_eq!(err, CaptureError::RecordLength(0x1000_0001));
    assert_eq!(err.to_string(), "implausible pcap record length: 268435457");
}

#[test]
fn a_pcap_reader_refuses_other_files() {
    let err = PcapReader::new(&mut Input::new(vec![0; 32])).err().unwrap();
    assert_eq!(err.to_string(), "not a classic pcap file (magic = 0x00000000)");
}

#[test]
fn bytes_may_arrive_one_at_a_time() {
    let whole = build_pcap(PCAP_MAGIC_NS, &[(1, 2, b"abc"), (3, 4, b"defg")]);
    let mut input = Input::empty();
    let mut reader: Option<CaptureReader> = None;
    let mut seen: Vec<Vec<u8>> = Vec::new();
    for b in &whole {
        input.feed(&[*b]);
        if reader.is_none() {
            match CaptureReader::new(&mut input) {
                Ok(r) => reader = Some(r),
                Err(e) => assert_eq!(e, CaptureError::Incomplete),
            }
        }
        if let Some(r) = reader.as_mut() {
            match r.next_packet(&mut input) {
                Ok(p) => seen.push(p.unwrap().data),
                Err(e) => assert_eq!(e, CaptureError::Incomplete),
            }
        }
    }
    input.finish();
    assert!(input.is_ended());
    assert!(reader.unwrap().next_packet(&mut input).unwrap().is_none());
    assert_eq!(seen, vec![b"abc".to_vec(), b"defg".to_vec()]);
}

#[test]
fn asking_for_more_has_a_message_too() {
    assert_eq!(CaptureError::Incomplete.to_string(), "more input is needed");
}
