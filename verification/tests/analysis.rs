use rusty_shark::analysis::{analyze, record, seq_diff, Rec, Report};
use rusty_shark::congestion::{analyze_cong, cong_record, CongRec};
use rusty_shark::field::{Node, Value};

fn rec(framenum: u64, dst: &str, qp: u32, psn: u32) -> Rec {
    Rec {
        framenum,
        dst: dst.into(),
        qp,
        psn,
    }
}

fn cong(dst: &str, qp: u32, marked: bool, cnp: bool) -> CongRec {
    CongRec {
        dst: dst.into(),
        qp,
        marked,
        cnp,
    }
}

fn roce_tree(opcode: u64, qp: u64, psn: u64, ecn: u64) -> Vec<Node> {
    let mut ip = Node::proto("Internet Protocol Version 4");
    ip.add("ip.dsfield.ecn", Value::Uint(ecn), "ECN");
    let mut bth = Node::proto("InfiniBand BTH");
    bth.add("infiniband.bth.opcode", Value::Uint(opcode), "Opcode");
    bth.add("infiniband.bth.destqp", Value::Uint(qp), "DQP");
    bth.add("infiniband.bth.psn", Value::Uint(psn), "PSN");
    vec![ip, bth]
}

#[test]
fn clean_sequence_no_issues() {
    let recs = vec![
        rec(1, "10.0.0.2", 0x123, 100),
        rec(2, "10.0.0.2", 0x123, 101),
        rec(3, "10.0.0.2", 0x123, 102),
    ];
    let rep = analyze(&recs);
    assert_eq!(rep.rows.len(), 1);
    let r = &rep.rows[0];
    assert_eq!(r.packets, 3);
    assert_eq!(r.first_psn, 100);
    assert_eq!(r.last_psn, 102);
    assert_eq!(r.gap_events, 0);
    assert_eq!(r.missing, 0);
    assert_eq!(r.retransmits, 0);
}

#[test]
fn detects_gap_and_retransmit() {
    // 100, 101, 103 (drop of 102), 102 (retransmit/ooo)
    let recs = vec![
        rec(1, "10.0.0.2", 0x123, 100),
        rec(2, "10.0.0.2", 0x123, 101),
        rec(3, "10.0.0.2", 0x123, 103),
        rec(4, "10.0.0.2", 0x123, 102),
    ];
    let rep = analyze(&recs);
    let r = &rep.rows[0];
    assert_eq!(r.packets, 4);
    assert_eq!(r.gap_events, 1);
    assert_eq!(r.missing, 1); // one PSN (102) skipped
    assert_eq!(r.retransmits, 1); // 102 arrives late
    assert_eq!(r.last_psn, 103);
    assert_eq!(r.first_issue_frame, Some(3)); // gap first seen at frame 3
}

#[test]
fn detects_duplicate() {
    let recs = vec![
        rec(1, "10.0.0.2", 0x123, 5),
        rec(2, "10.0.0.2", 0x123, 5),
    ];
    let rep = analyze(&recs);
    assert_eq!(rep.rows[0].retransmits, 1);
}

#[test]
fn larger_gap_counts_all_missing() {
    // 10 then 15: four missing (11, 12, 13, 14)
    let recs = vec![
        rec(1, "10.0.0.2", 0x1, 10),
        rec(2, "10.0.0.2", 0x1, 15),
    ];
    let rep = analyze(&recs);
    assert_eq!(rep.rows[0].gap_events, 1);
    assert_eq!(rep.rows[0].missing, 4);
}

#[test]
fn psn_wraparound_is_not_a_gap() {
    let recs = vec![
        rec(1, "10.0.0.2", 0x1, 0x00ff_fffe),
        rec(2, "10.0.0.2", 0x1, 0x00ff_ffff),
        rec(3, "10.0.0.2", 0x1, 0x0000_0000),
        rec(4, "10.0.0.2", 0x1, 0x0000_0001),
    ];
    let rep = analyze(&recs);
    assert_eq!(rep.rows[0].gap_events, 0);
    assert_eq!(rep.rows[0].missing, 0);
    assert_eq!(rep.rows[0].retransmits, 0);
}

#[test]
fn separate_qps_and_hosts_tracked_independently() {
    let recs = vec![
        rec(1, "10.0.0.2", 0x123, 100),
        rec(2, "10.0.0.3", 0x123, 200), // same QP number, different host
        rec(3, "10.0.0.2", 0x456, 5),
    ];
    let rep = analyze(&recs);
    assert_eq!(rep.rows.len(), 3);
    assert_eq!(rep.total_packets, 3);
}

#[test]
fn seq_diff_basics() {
    assert_eq!(seq_diff(101, 100), 1);
    assert_eq!(seq_diff(100, 101), -1);
    assert_eq!(seq_diff(0x000000, 0x00ffffff), 1); // wrap forward
    assert_eq!(seq_diff(0x00ffffff, 0x000000), -1); // wrap backward
}

#[test]
fn seq_diff_half_way_round_counts_as_behind() {
    assert_eq!(seq_diff(0x80_0000, 0), -0x80_0000);
    assert_eq!(seq_diff(0, 0x80_0000), -0x80_0000);
    assert_eq!(seq_diff(0x7f_ffff, 0), 0x7f_ffff);
    assert_eq!(seq_diff(7, 7), 0);
}

#[test]
fn rows_are_ordered_by_destination_then_queue_pair() {
    let recs = vec![
        rec(1, "10.0.0.3", 2, 1),
        rec(2, "10.0.0.2", 9, 1),
        rec(3, "10.0.0.2", 4, 1),
        rec(4, "10.0.0.10", 1, 1),
    ];
    let rep = analyze(&recs);
    let keys: Vec<(String, u32)> = rep.rows.iter().map(|r| (r.dst.clone(), r.qp)).collect();
    assert_eq!(
        keys,
        vec![
            ("10.0.0.10".to_string(), 1),
            ("10.0.0.2".to_string(), 4),
            ("10.0.0.2".to_string(), 9),
            ("10.0.0.3".to_string(), 2),
        ]
    );
}

#[test]
fn other_queue_pairs_do_not_change_a_row() {
    let alone = analyze(&[rec(1, "a", 1, 10), rec(4, "a", 1, 12)]);
    let mixed = analyze(&[
        rec(1, "a", 1, 10),
        rec(2, "a", 2, 500),
        rec(3, "b", 1, 77),
        rec(4, "a", 1, 12),
    ]);
    let row = &mixed.rows[0];
    assert_eq!(row.missing, 1);
    assert_eq!(row.missing, alone.rows[0].missing);
    assert_eq!(row.first_issue_frame, alone.rows[0].first_issue_frame);
    assert_eq!(mixed.total_packets, 4);
}

#[test]
fn record_takes_reliable_connections_only() {
    let r = record(9, "10.0.0.2", &roce_tree(0x0a, 0x123, 100, 0)).unwrap();
    assert_eq!((r.framenum, r.qp, r.psn), (9, 0x123, 100));
    assert_eq!(r.dst, "10.0.0.2");
    assert!(record(9, "10.0.0.2", &roce_tree(0x81, 0x123, 0, 0)).is_none());
    assert!(record(9, "10.0.0.2", &roce_tree(0x24, 0x123, 0, 0)).is_none());
    assert!(record(9, "10.0.0.2", &[]).is_none());
}

#[test]
fn report_text_of_nothing() {
    let rule = "=".repeat(67);
    assert_eq!(
        Report::default().to_string(),
        format!(
            "{rule}\nRoCE PSN analysis (reliable connections, per destination QP)\n{rule}\nNo RoCE RC packets found.\n"
        )
    );
}

#[test]
fn report_text_has_aligned_rows_and_totals() {
    let rep = analyze(&[rec(1, "10.0.0.2", 0x123, 100), rec(2, "10.0.0.2", 0x123, 103)]);
    let rule = "=".repeat(67);
    let dashes = "-".repeat(79);
    let head = format!(
        "{:<18} {:>10} {:>8} {:>9} {:>9} {:>6} {:>8} {:>8} {:>11}",
        "Dst IP", "QP", "Packets", "FirstPSN", "LastPSN", "Gaps", "Missing", "Retrans", "1stIssue@"
    );
    let row = format!(
        "{:<18} {:>#10x} {:>8} {:>9} {:>9} {:>6} {:>8} {:>8} {:>11}",
        "10.0.0.2", 0x123, 2, 100, 103, 1, 2, 0, "2"
    );
    assert_eq!(
        rep.to_string(),
        format!(
            "{rule}\nRoCE PSN analysis (reliable connections, per destination QP)\n{rule}\n{head}\n{dashes}\n{row}\n{dashes}\nTotals: QPs=1 Packets=2 Gaps=1 Missing=2 Retrans=0\n"
        )
    );
    assert!(analyze(&[rec(1, "h", 1, 1)]).to_string().contains("          -\n"));
}

#[test]
fn congestion_record_sees_marks_and_notifications() {
    let marked = cong_record("10.0.0.2", &roce_tree(0x0a, 0x123, 1, 3)).unwrap();
    assert!(marked.marked && !marked.cnp);
    let cnp = cong_record("10.0.0.1", &roce_tree(0x81, 0x55, 0, 0)).unwrap();
    assert!(!cnp.marked && cnp.cnp);
    assert_eq!(cnp.qp, 0x55);
    let mut v6 = roce_tree(0x0a, 1, 1, 0);
    let mut ip6 = Node::proto("Internet Protocol Version 6");
    ip6.add("ipv6.dsfield.ecn", Value::Uint(3), "ECN");
    v6.push(ip6);
    assert!(cong_record("::1", &v6).unwrap().marked);
    assert!(cong_record("10.0.0.2", &[]).is_none());
}

#[test]
fn congestion_counts_per_queue_pair() {
    let rep = analyze_cong(&[
        cong("10.0.0.2", 7, true, false),
        cong("10.0.0.1", 3, false, true),
        cong("10.0.0.2", 7, false, false),
        cong("10.0.0.2", 7, true, false),
    ]);
    assert_eq!(rep.rows.len(), 2);
    assert_eq!(rep.rows[0].dst, "10.0.0.1");
    assert_eq!((rep.rows[0].packets, rep.rows[0].marked, rep.rows[0].cnps), (1, 0, 1));
    assert_eq!((rep.rows[1].packets, rep.rows[1].marked, rep.rows[1].cnps), (3, 2, 0));
    assert_eq!((rep.total_packets, rep.total_marked, rep.total_cnps), (4, 2, 1));
    assert!(rep.to_string().ends_with("Totals: QPs=2 Packets=4 CE=2 CNPs=1\n"));
    assert!(analyze_cong(&[]).to_string().ends_with("No RoCE packets found.\n"));
}

#[test]
fn the_first_issue_stays_the_first() {
    let rep = analyze(&[
        rec(10, "h", 1, 1),
        rec(11, "h", 1, 1),
        rec(12, "h", 1, 9),
        rec(13, "h", 1, 3),
    ]);
    let r = &rep.rows[0];
    assert_eq!(r.first_issue_frame, Some(11));
    assert_eq!((r.gap_events, r.missing, r.retransmits), (1, 7, 2));
    assert_eq!((r.first_psn, r.last_psn, r.packets), (1, 9, 4));
}

#[test]
fn a_row_is_the_report_on_its_own_records() {
    let recs = [
        rec(1, "10.0.0.2", 1, 10),
        rec(2, "10.0.0.2", 2, 70),
        rec(3, "10.0.0.3", 1, 90),
        rec(4, "10.0.0.2", 1, 13),
        rec(5, "10.0.0.2", 2, 70),
        rec(6, "10.0.0.2", 1, 14),
    ];
    let all = analyze(&recs);
    assert_eq!(all.rows.len(), 3);
    for row in &all.rows {
        let own: Vec<Rec> =
            recs.iter().filter(|r| r.dst == row.dst && r.qp == row.qp).cloned().collect();
        let alone = analyze(&own);
        assert_eq!(alone.rows.len(), 1);
        assert_eq!(format!("{:?}", alone.rows[0]), format!("{row:?}"));
    }
    let mut grouped: Vec<Rec> = recs.to_vec();
    grouped.sort_by_key(|r| (r.qp, r.dst.clone()));
    assert_eq!(format!("{:?}", analyze(&grouped)), format!("{all:?}"));
}
