use rusty_shark::dissect::{DissectConfig, Dissection, Summary};
use rusty_shark::field::{extract, Value};
use rusty_shark::roce::{dissect, dissect_grh, dissect_lrh, BTH_LEN, GRH_LEN, LRH_LEN};

fn dis() -> Dissection {
    // Bare dissection with IP columns already filled, as the UDP
    // dissector would leave it before handing off to RoCE.
    Dissection {
        summary: Summary {
            src: "10.0.0.1".into(),
            dst: "10.0.0.2".into(),
            protocol: "UDP",
            info: String::new(),
            length: 0,
        },
        tree: Vec::new(),
    }
}

fn bth(opcode: u8, dest_qp: u32, psn: u32, byte1: u8, byte4: u8, byte8: u8) -> Vec<u8> {
    let mut v = vec![
        opcode,
        byte1,
        0xff,
        0xff, // p_key
        byte4,
        ((dest_qp >> 16) & 0xff) as u8,
        ((dest_qp >> 8) & 0xff) as u8,
        (dest_qp & 0xff) as u8,
        byte8,
        ((psn >> 16) & 0xff) as u8,
        ((psn >> 8) & 0xff) as u8,
        (psn & 0xff) as u8,
    ];
    assert_eq!(v.len(), BTH_LEN);
    v.reserve(16);
    v
}

#[test]
fn send_only_rc() {
    // RC SEND Only (0x04), DQP 0xd2, PSN 1, AckReq set (byte8 0x80).
    let payload = bth(0x04, 0x0000d2, 1, 0x00, 0x00, 0x80);
    let mut d = dis();
    dissect(&payload, &mut d, &DissectConfig::default());
    let s = &d.summary;
    assert_eq!(s.protocol, "RoCE");
    assert!(s.info.contains("RC SEND Only"), "{}", s.info);
    assert!(s.info.contains("DQP=0x0000d2"), "{}", s.info);
    assert!(s.info.contains("PSN=1"), "{}", s.info);
    assert!(s.info.contains("AckReq"), "{}", s.info);
    // The same values are addressable as typed fields.
    assert_eq!(extract(&d.tree, "infiniband.bth.destqp"), Some(&Value::Uint(0xd2)));
    assert_eq!(extract(&d.tree, "infiniband.bth.psn"), Some(&Value::Uint(1)));
    assert_eq!(extract(&d.tree, "infiniband.bth.opcode"), Some(&Value::Uint(0x04)));
}

#[test]
fn rdma_write_only_carries_reth() {
    // RC RDMA WRITE Only (0x0a) + RETH (VA, RKey, Len).
    let mut payload = bth(0x0a, 0x123456, 42, 0x00, 0x00, 0x00);
    payload.extend_from_slice(&0x1122_3344_5566_7788u64.to_be_bytes()); // VA
    payload.extend_from_slice(&0xdead_beefu32.to_be_bytes()); // RKey
    payload.extend_from_slice(&4096u32.to_be_bytes()); // DMA length
    let mut d = dis();
    dissect(&payload, &mut d, &DissectConfig::default());
    let s = &d.summary;
    assert!(s.info.contains("RDMA WRITE Only"), "{}", s.info);
    assert!(s.info.contains("VA=0x1122334455667788"), "{}", s.info);
    assert!(s.info.contains("RKey=0xdeadbeef"), "{}", s.info);
    assert!(s.info.contains("Len=4096"), "{}", s.info);
    assert_eq!(extract(&d.tree, "infiniband.reth.dmalen"), Some(&Value::Uint(4096)));
    assert_eq!(
        extract(&d.tree, "infiniband.reth.rkey"),
        Some(&Value::Uint(0xdead_beef))
    );
}

#[test]
fn ack_carries_aeth() {
    // RC Acknowledge (0x11) + AETH (syndrome 0x00 = ACK, MSN 7).
    let mut payload = bth(0x11, 0x000001, 100, 0x00, 0x00, 0x00);
    payload.push(0x00); // syndrome: ACK
    payload.extend_from_slice(&[0x00, 0x00, 0x07]); // MSN = 7
    let mut d = dis();
    dissect(&payload, &mut d, &DissectConfig::default());
    let s = &d.summary;
    assert!(s.info.contains("Acknowledge"), "{}", s.info);
    assert!(s.info.contains("ACK"), "{}", s.info);
    assert!(s.info.contains("MSN=7"), "{}", s.info);
    assert_eq!(extract(&d.tree, "infiniband.aeth.msn"), Some(&Value::Uint(7)));
}

#[test]
fn cnp_congestion_packet() {
    let payload = bth(0x81, 0x000abc, 0, 0x00, 0x00, 0x00);
    let mut d = dis();
    dissect(&payload, &mut d, &DissectConfig::default());
    assert!(d.summary.info.contains("CNP"), "{}", d.summary.info);
}

#[test]
fn congestion_flags_surfaced() {
    // FECN + BECN set in byte 4.
    let payload = bth(0x04, 0x000001, 5, 0x00, 0xc0, 0x00);
    let mut d = dis();
    dissect(&payload, &mut d, &DissectConfig::default());
    assert!(d.summary.info.contains("FECN"), "{}", d.summary.info);
    assert!(d.summary.info.contains("BECN"), "{}", d.summary.info);
    assert_eq!(extract(&d.tree, "infiniband.bth.fecn"), Some(&Value::Uint(1)));
    assert_eq!(extract(&d.tree, "infiniband.bth.becn"), Some(&Value::Uint(1)));
}

#[test]
fn truncated_bth() {
    let payload = vec![0u8; 8];
    let mut d = dis();
    dissect(&payload, &mut d, &DissectConfig::default());
    assert_eq!(d.summary.protocol, "RoCE");
    assert!(d.summary.info.contains("truncated"), "{}", d.summary.info);
}

fn grh(next_hdr: u8, bth: &[u8]) -> Vec<u8> {
    let mut g = vec![0u8; GRH_LEN];
    g[0] = 0x60; // IPVer 6
    g[6] = next_hdr;
    g[7] = 64; // hop limit
    // SGID = ::1, DGID = ::2 for easy assertion.
    g[23] = 1;
    g[39] = 2;
    g.extend_from_slice(bth);
    g
}

#[test]
fn rocev1_grh_then_bth() {
    // GRH (next header 0x1B = BTH) + RC SEND Only.
    let bth = bth(0x04, 0x000abc, 7, 0x00, 0x00, 0x00);
    let payload = grh(0x1b, &bth);
    let mut d = dis();
    dissect_grh(&payload, &mut d, &DissectConfig::default(), "RoCE");
    assert_eq!(d.summary.protocol, "RoCE");
    assert_eq!(d.summary.src, "::1");
    assert_eq!(d.summary.dst, "::2");
    assert!(d.summary.info.contains("RC SEND Only"), "{}", d.summary.info);
    assert_eq!(extract(&d.tree, "infiniband.bth.destqp"), Some(&Value::Uint(0xabc)));
    assert_eq!(
        extract(&d.tree, "infiniband.grh.sgid"),
        Some(&Value::Str("::1".into()))
    );
}

#[test]
fn native_ib_lrh_local_bth() {
    // LRH with LNH=0b10 (IBA local: BTH directly), SLID 3 DLID 4.
    let bth = bth(0x11, 0x000001, 50, 0x00, 0x00, 0x00); // Acknowledge
    let mut lrh = vec![0u8; LRH_LEN];
    lrh[1] = 0x02; // SL=0, LNH=0b10
    lrh[2] = 0x00;
    lrh[3] = 0x04; // DLID = 4
    lrh[6] = 0x00;
    lrh[7] = 0x03; // SLID = 3
    lrh.extend_from_slice(&bth);
    // Add a fake AETH so the ACK opcode has its ext header.
    lrh.extend_from_slice(&[0x00, 0x00, 0x00, 0x05]);
    let mut d = dis();
    dissect_lrh(&lrh, &mut d, &DissectConfig::default());
    assert_eq!(d.summary.protocol, "IB");
    assert_eq!(d.summary.src, "LID 3");
    assert_eq!(d.summary.dst, "LID 4");
    assert!(d.summary.info.contains("Acknowledge"), "{}", d.summary.info);
    assert_eq!(extract(&d.tree, "infiniband.lrh.slid"), Some(&Value::Uint(3)));
    assert_eq!(extract(&d.tree, "infiniband.lrh.dlid"), Some(&Value::Uint(4)));
}

#[test]
fn native_ib_lrh_global_grh_bth() {
    // LRH with LNH=0b11 (IBA global: GRH then BTH).
    let bth = bth(0x04, 0x000fff, 1, 0x00, 0x00, 0x00);
    let g = grh(0x1b, &bth);
    let mut lrh = vec![0u8; LRH_LEN];
    lrh[1] = 0x03; // LNH=0b11
    lrh.extend_from_slice(&g);
    let mut d = dis();
    dissect_lrh(&lrh, &mut d, &DissectConfig::default());
    assert_eq!(d.summary.protocol, "IB");
    // GRH overrides the address columns with the GIDs.
    assert_eq!(d.summary.src, "::1");
    assert_eq!(d.summary.dst, "::2");
    assert_eq!(extract(&d.tree, "infiniband.bth.destqp"), Some(&Value::Uint(0xfff)));
    // Both LRH and GRH nodes are present.
    assert_eq!(extract(&d.tree, "infiniband.lrh.lnh"), Some(&Value::Uint(3)));
    assert_eq!(
        extract(&d.tree, "infiniband.grh.dgid"),
        Some(&Value::Str("::2".into()))
    );
}

#[test]
fn truncated_grh_and_lrh() {
    let mut d = dis();
    dissect_grh(&[0u8; 10], &mut d, &DissectConfig::default(), "RoCE");
    assert!(d.summary.info.contains("truncated GRH"), "{}", d.summary.info);

    let mut d2 = dis();
    dissect_lrh(&[0u8; 4], &mut d2, &DissectConfig::default());
    assert!(d2.summary.info.contains("truncated LRH"), "{}", d2.summary.info);
}

#[test]
fn write_with_immediate_carries_two_headers() {
    let mut payload = bth(0x0b, 1, 2, 0x00, 0x00, 0x00);
    payload.extend_from_slice(&[0u8; 16]);
    payload.extend_from_slice(&0x0102_0304u32.to_be_bytes());
    let mut d = dis();
    dissect(&payload, &mut d, &DissectConfig::default());
    assert_eq!(
        d.summary.info,
        "RC RDMA WRITE Only w/ Imm DQP=0x000001 PSN=2 VA=0x0000000000000000 RKey=0x00000000 Len=0 ImmDt=0x01020304"
    );
    assert_eq!(
        extract(&d.tree, "infiniband.immdt.immediatedata"),
        Some(&Value::Uint(0x0102_0304))
    );
}

#[test]
fn cut_off_extended_headers_are_named() {
    let mut payload = bth(0x0b, 1, 2, 0x00, 0x00, 0x00);
    payload.extend_from_slice(&[0u8; 5]);
    let mut d = dis();
    dissect(&payload, &mut d, &DissectConfig::default());
    assert!(d.summary.info.ends_with(" RETH=<truncated> ImmDt=<truncated>"));
    let mut d = dis();
    dissect(&bth(0x11, 1, 2, 0, 0, 0), &mut d, &DissectConfig::default());
    assert!(d.summary.info.ends_with(" AETH=<truncated>"));
}

#[test]
fn opcodes_without_a_name_show_their_number() {
    let info = |opcode: u8| {
        let mut d = dis();
        dissect(&bth(opcode, 0, 0, 0, 0, 0), &mut d, &DissectConfig::default());
        d.summary.info
    };
    assert_eq!(info(0x15), "RC opcode 0x15 DQP=0x000000 PSN=0");
    assert_eq!(info(0xff), "Vendor opcode 0x1f DQP=0x000000 PSN=0");
    assert_eq!(info(0x80), "CNP SEND First DQP=0x000000 PSN=0");
    assert_eq!(info(0x24), "UC SEND Only DQP=0x000000 PSN=0");
}

#[test]
fn all_flags_in_order() {
    let mut d = dis();
    dissect(&bth(0x06, 0, 0, 0xc0, 0xc0, 0x80), &mut d, &DissectConfig::default());
    assert!(d.summary.info.ends_with(" [AckReq, SE, FECN, BECN, MigReq]"), "{}", d.summary.info);
}

#[test]
fn a_fabrics_capsule_behind_a_send_is_labelled() {
    let mut payload = bth(0x04, 1, 2, 0, 0, 0);
    let mut capsule = [0u8; 64];
    capsule[0] = 0x7f;
    capsule[4] = 0x08;
    payload.extend_from_slice(&capsule);
    payload.extend_from_slice(&[0xee; 4]);
    let mut d = dis();
    dissect(&payload, &mut d, &DissectConfig::default());
    assert_eq!(d.summary.protocol, "NVMeF");
    assert!(d.summary.info.ends_with(" | NVMe-oF Disconnect CID=0"), "{}", d.summary.info);
    // Without its last byte the capsule is too short once the checksum is off.
    payload.pop();
    let mut d = dis();
    dissect(&payload, &mut d, &DissectConfig::default());
    assert_eq!(d.summary.protocol, "RoCE");
}

#[test]
fn capsules_are_decoded_on_request() {
    let mut payload = bth(0x04, 1, 2, 0, 0, 0);
    payload.extend_from_slice(&[0u8; 20]);
    let mut d = dis();
    dissect(&payload, &mut d, &DissectConfig { nvme_force: true });
    assert_eq!(d.summary.protocol, "NVMe");
    let mut d = dis();
    dissect(&payload, &mut d, &DissectConfig { nvme_force: false });
    assert_eq!(d.summary.protocol, "RoCE");
}

#[test]
fn other_link_next_headers_are_not_followed() {
    let mut lrh = vec![0u8; 20];
    lrh[1] = 0x01;
    let mut d = dis();
    dissect_lrh(&lrh, &mut d, &DissectConfig::default());
    assert_eq!(d.summary.info, "LNH 1 (non-IBA payload)");
}

#[test]
fn summaries_of_common_operations() {
    let info = |payload: &[u8]| {
        let mut d = dis();
        dissect(payload, &mut d, &DissectConfig::default());
        d.summary.info
    };
    let mut write = bth(0x0a, 0x123, 100, 0, 0, 0);
    write.extend_from_slice(&0x1122_3344_5566_7788u64.to_be_bytes());
    write.extend_from_slice(&0xdead_beefu32.to_be_bytes());
    write.extend_from_slice(&4096u32.to_be_bytes());
    assert_eq!(
        info(&write),
        "RC RDMA WRITE Only DQP=0x000123 PSN=100 VA=0x1122334455667788 RKey=0xdeadbeef Len=4096"
    );
    let mut ack = bth(0x11, 0x456, 100, 0, 0, 0);
    ack.extend_from_slice(&[0, 0, 0, 7]);
    assert_eq!(info(&ack), "RC Acknowledge DQP=0x000456 PSN=100 ACK Syndrome=0x00 MSN=7");
    assert_eq!(info(&bth(0x81, 0x123, 0, 0, 0, 0)), "CNP DQP=0x000123 PSN=0");
    assert_eq!(
        info(&bth(0x04, 0x123, 102, 0, 0x40, 0x80)),
        "RC SEND Only DQP=0x000123 PSN=102 [AckReq, BECN]"
    );
}

#[test]
fn syndromes_have_kinds() {
    let info = |syndrome: u8| {
        let mut p = bth(0x12, 0, 0, 0, 0, 0);
        p.extend_from_slice(&[syndrome, 0, 0, 0]);
        let mut d = dis();
        dissect(&p, &mut d, &DissectConfig::default());
        d.summary.info
    };
    assert!(info(0x1f).ends_with(" ACK Syndrome=0x1f MSN=0"));
    assert!(info(0x20).ends_with(" RNR-NAK Syndrome=0x20 MSN=0"));
    assert!(info(0x60).ends_with(" NAK Syndrome=0x60 MSN=0"));
    assert!(info(0x40).ends_with(" reserved Syndrome=0x40 MSN=0"));
}

#[test]
fn other_next_headers_of_a_route_header_are_not_followed() {
    let inner = bth(0x04, 0x55, 9, 0, 0, 0);
    for next in [0x00, 0x11, 0x1a, 0x1c] {
        let mut d = dis();
        dissect_grh(&grh(next, &inner), &mut d, &DissectConfig::default(), "RoCE");
        assert_eq!(d.summary.protocol, "RoCE");
        assert_eq!((d.summary.src.as_str(), d.summary.dst.as_str()), ("::1", "::2"));
        assert_eq!(d.summary.info, "");
        assert_eq!(d.tree.len(), 1);
        assert_eq!(
            extract(&d.tree, "infiniband.grh.nxthdr"),
            Some(&Value::Uint(next as u64))
        );
        assert_eq!(extract(&d.tree, "infiniband.bth.opcode"), None);
    }
}
