use rusty_shark::cli::Args;
use rusty_shark::dissect::DissectConfig;
use rusty_shark::pcap::{CaptureError, CaptureReader, Input};
use rusty_shark::pipeline::{
    dissect_batch, unknown_statistics, Collected, Frame, Plan, Session, StatKind,
};

fn args() -> Args {
    Args {
        read_file: "-".to_string(),
        count: None,
        jobs: 0,
        batch: 4096,
        no_parallel: false,
        quiet: false,
        verbose: false,
        fields: Vec::new(),
        display_filter: None,
        statistics: None,
        nvme: false,
    }
}

/// An Ethernet, IPv4, UDP and BTH packet to 10.0.0.2.
fn roce(opcode: u8, qp: u8, psn: u8, tos: u8) -> Vec<u8> {
    let mut p = vec![0u8; 12];
    p.extend_from_slice(&[0x08, 0x00]);
    p.extend_from_slice(&[0x45, tos, 0, 40, 0, 0, 0, 0, 64, 17, 0, 0, 10, 0, 0, 1, 10, 0, 0, 2]);
    p.extend_from_slice(&[0xc3, 0x50, 0x12, 0xb7, 0, 20, 0, 0]);
    p.extend_from_slice(&[opcode, 0, 0xff, 0xff, 0, 0, 0, qp, 0, 0, 0, psn]);
    p
}

fn capture(packets: &[Vec<u8>]) -> Vec<u8> {
    let mut buf = Vec::new();
    buf.extend_from_slice(&0xa1b2_c3d4u32.to_le_bytes());
    buf.extend_from_slice(&[0; 16]);
    buf.extend_from_slice(&1u32.to_le_bytes());
    for (i, data) in packets.iter().enumerate() {
        buf.extend_from_slice(&(100 + i as u32).to_le_bytes());
        buf.extend_from_slice(&(5 * i as u32).to_le_bytes());
        buf.extend_from_slice(&(data.len() as u32).to_le_bytes());
        buf.extend_from_slice(&(data.len() as u32).to_le_bytes());
        buf.extend_from_slice(data);
    }
    buf
}

fn stream() -> Vec<u8> {
    capture(&[
        roce(0x04, 7, 1, 0),
        roce(0x04, 7, 2, 3),
        roce(0x81, 9, 0, 0),
        roce(0x04, 7, 5, 0),
        vec![0; 20],
    ])
}

/// Everything a run prints of a whole capture.
fn run(bytes: &[u8], a: &Args) -> String {
    let plan = Plan::new(a).unwrap();
    let mut input = Input::new(bytes.to_vec());
    let reader = CaptureReader::new(&mut input).unwrap();
    let mut session = Session::new(reader, a.count, a.batch);
    let mut records = Collected::new();
    let mut out = String::new();
    let mut batch: Vec<Frame> = Vec::new();
    loop {
        session.fill_batch(&mut input, &mut batch).unwrap();
        if batch.is_empty() {
            break;
        }
        let times: Vec<String> = batch.iter().map(|f| format!("{}.000000", f.delta_sec)).collect();
        plan.flush_batch(&mut batch, &times, &mut records, &mut out);
        assert!(batch.is_empty());
    }
    assert!(records.fits());
    out + &records.statistics(plan.stat)
}

#[test]
fn output_is_in_the_order_of_capture_for_every_batch_size() {
    let mut a = args();
    a.no_parallel = true;
    let expected = run(&stream(), &a);
    let lines: Vec<&str> = expected.lines().collect();
    assert_eq!(lines.len(), 5);
    assert_eq!(
        lines[1],
        "    2    1.000000 10.0.0.1        \u{2192} 10.0.0.2        RoCE      54 RC SEND Only DQP=0x000007 PSN=2"
    );
    for batch in [0usize, 1, 2, 3, 100] {
        for no_parallel in [false, true] {
            a.batch = batch;
            a.no_parallel = no_parallel;
            assert_eq!(run(&stream(), &a), expected);
        }
    }
}

#[test]
fn many_threads_keep_the_order() {
    let packets: Vec<Vec<u8>> = (0..200u8).map(|i| roce(0x04, i, i, 0)).collect();
    let mut a = args();
    let out = run(&capture(&packets), &a);
    for (i, line) in out.lines().enumerate() {
        assert!(line.ends_with(&format!("DQP=0x{:06x} PSN={i}", i)), "{line}");
    }
    a.no_parallel = true;
    assert_eq!(run(&capture(&packets), &a), out);
}

#[test]
fn parallel_dissection_is_the_sequential_one() {
    let mut input = Input::new(stream());
    let reader = CaptureReader::new(&mut input).unwrap();
    let mut session = Session::new(reader, None, 10);
    let mut batch: Vec<Frame> = Vec::new();
    session.fill_batch(&mut input, &mut batch).unwrap();
    let cfg = DissectConfig::default();
    let one = dissect_batch(&batch, &cfg, false);
    let many = dissect_batch(&batch, &cfg, true);
    assert_eq!(one.len(), 5);
    assert_eq!(many.len(), 5);
    for i in 0..5 {
        assert_eq!(one[i].summary.info, many[i].summary.info);
        assert_eq!(one[i].tree.len(), many[i].tree.len());
    }
}

#[test]
fn frames_are_numbered_and_timed_from_the_first() {
    let mut input = Input::new(stream());
    let reader = CaptureReader::new(&mut input).unwrap();
    let mut session = Session::new(reader, Some(3), 2);
    let mut batch: Vec<Frame> = Vec::new();
    session.fill_batch(&mut input, &mut batch).unwrap();
    assert_eq!(batch.len(), 2);
    batch.clear();
    session.fill_batch(&mut input, &mut batch).unwrap();
    assert_eq!(batch.len(), 1);
    assert_eq!((batch[0].number, batch[0].delta_sec, batch[0].delta_nsec), (3, 2, 10_000));
    batch.clear();
    session.fill_batch(&mut input, &mut batch).unwrap();
    assert!(batch.is_empty());
}

#[test]
fn a_batch_goes_on_once_more_input_is_there() {
    let bytes = stream();
    let mut input = Input::empty();
    input.feed(&bytes[..24]);
    let reader = CaptureReader::new(&mut input).unwrap();
    let mut session = Session::new(reader, None, 100);
    let mut batch: Vec<Frame> = Vec::new();
    for piece in bytes[24..].chunks(11) {
        assert_eq!(session.fill_batch(&mut input, &mut batch), Err(CaptureError::Incomplete));
        input.feed(piece);
    }
    assert_eq!(session.fill_batch(&mut input, &mut batch), Err(CaptureError::Incomplete));
    input.finish();
    assert_eq!(session.fill_batch(&mut input, &mut batch), Ok(()));
    let numbers: Vec<u64> = batch.iter().map(|f| f.number).collect();
    assert_eq!(numbers, vec![1, 2, 3, 4, 5]);
}

#[test]
fn a_limit_stops_the_listing() {
    let mut a = args();
    let all = run(&stream(), &a);
    a.count = Some(2);
    let two = run(&stream(), &a);
    assert_eq!(two.lines().count(), 2);
    assert!(all.starts_with(&two));
    a.count = Some(0);
    assert_eq!(run(&stream(), &a), "");
}

#[test]
fn a_filter_keeps_frame_numbers() {
    let mut a = args();
    let all = run(&stream(), &a);
    a.display_filter = Some("infiniband.bth.psn == 5 || frame.number == 2".to_string());
    let some = run(&stream(), &a);
    let numbers: Vec<&str> = some.lines().map(|l| l.split_whitespace().next().unwrap()).collect();
    assert_eq!(numbers, vec!["2", "4"]);
    for line in some.lines() {
        assert!(all.lines().any(|l| l == line));
    }
}

#[test]
fn fields_and_trees() {
    let mut a = args();
    a.verbose = true;
    a.count = Some(1);
    let out = run(&stream(), &a);
    assert!(out.starts_with("Frame 1: 54 bytes on wire (432 bits), 54 bytes captured (432 bits)\n    Frame Number: 1\n"));
    assert!(out.ends_with("    BECN: 0\n\n"));
    a.fields = vec!["frame.number".to_string(), "infiniband.bth.psn".to_string()];
    a.count = None;
    assert_eq!(run(&stream(), &a), "1\t1\n2\t2\n3\t0\n4\t5\n5\t\n");
}

#[test]
fn quiet_prints_only_the_report() {
    let mut a = args();
    a.quiet = true;
    assert_eq!(run(&stream(), &a), "");
    a.statistics = Some("roce,psn".to_string());
    let report = run(&stream(), &a);
    assert!(report.starts_with("====="));
    assert!(report.ends_with("Totals: QPs=1 Packets=3 Gaps=1 Missing=2 Retrans=0\n"));
}

#[test]
fn reports_see_every_packet_whatever_the_filter() {
    let mut a = args();
    a.quiet = true;
    for name in ["roce,psn", "roce-psn", "rdma,psn", "roce,cong", "roce-cong", "rdma,cong"] {
        a.statistics = Some(name.to_string());
        a.display_filter = None;
        let open = run(&stream(), &a);
        a.display_filter = Some("tcp".to_string());
        assert_eq!(run(&stream(), &a), open);
    }
    assert!(run(&stream(), &a).ends_with("Totals: QPs=2 Packets=4 CE=1 CNPs=1\n"));
}

#[test]
fn options_that_make_no_sense() {
    let mut a = args();
    a.display_filter = Some("ip ==".to_string());
    a.statistics = Some("nope\n".to_string());
    assert_eq!(
        Plan::new(&a).unwrap_err(),
        "invalid display filter: expected a value after operator for 'ip'"
    );
    a.display_filter = None;
    assert_eq!(
        Plan::new(&a).unwrap_err(),
        "unknown -z statistics spec \"nope\\n\"; supported: roce,psn | roce,cong"
    );
    assert_eq!(
        unknown_statistics("<x>"),
        "unknown -z statistics spec <x>; supported: roce,psn | roce,cong"
    );
}

#[test]
fn a_plan_follows_the_options() {
    let mut a = args();
    a.nvme = true;
    a.no_parallel = true;
    a.statistics = Some("rdma,cong".to_string());
    let p = Plan::new(&a).unwrap();
    assert!(p.cfg.nvme_force && !p.parallel && !p.quiet);
    assert_eq!(p.stat, Some(StatKind::Cong));
}
