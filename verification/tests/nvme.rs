use rusty_shark::field::{extract, Node, Value};
use rusty_shark::nvme::try_dissect;

fn parent() -> Node {
    Node::proto("InfiniBand BTH")
}

fn fabrics_connect() -> Vec<u8> {
    let mut c = vec![0u8; 64];
    c[0] = 0x7f; // Fabrics opcode
    c[2] = 0x2a; // CID low = 42
    c[3] = 0x00;
    c[4] = 0x01; // fctype = Connect
    c
}

#[test]
fn auto_detects_fabrics_connect() {
    let cap = fabrics_connect();
    let mut info = String::new();
    let mut node = parent();
    let label = try_dissect(&cap, false, &mut info, &mut node);
    assert_eq!(label, Some("NVMeF"));
    assert!(info.contains("Connect"), "{info}");
    assert!(info.contains("CID=42"), "{info}");
    assert_eq!(
        extract(std::slice::from_ref(&node), "nvmeof.fctype"),
        Some(&Value::Uint(0x01))
    );
}

#[test]
fn auto_declines_plain_io_command() {
    // A Write command should NOT be auto-claimed (could be another ULP).
    let mut cap = vec![0u8; 64];
    cap[0] = 0x01; // Write
    let mut info = String::new();
    let mut node = parent();
    assert_eq!(try_dissect(&cap, false, &mut info, &mut node), None);
    assert!(info.is_empty());
}

#[test]
fn forced_decodes_write_with_lba() {
    let mut cap = vec![0u8; 64];
    cap[0] = 0x01; // Write
    cap[2] = 0x07; // CID = 7
    cap[4] = 0x01; // NSID = 1
    cap[40..48].copy_from_slice(&0x1000u64.to_le_bytes()); // SLBA
    cap[48..50].copy_from_slice(&7u16.to_le_bytes()); // NLB = 7 (0-based), so 8
    let mut info = String::new();
    let mut node = parent();
    let label = try_dissect(&cap, true, &mut info, &mut node);
    assert_eq!(label, Some("NVMe"));
    assert!(info.contains("NVMe Write"), "{info}");
    assert_eq!(
        extract(std::slice::from_ref(&node), "nvme.cmd.slba"),
        Some(&Value::Uint(0x1000))
    );
    assert_eq!(
        extract(std::slice::from_ref(&node), "nvme.cmd.nlb"),
        Some(&Value::Uint(8))
    );
    assert_eq!(info, " | NVMe Write nsid=1 CID=7 SLBA=4096 NLB=8");
}

#[test]
fn forced_decodes_response_cqe() {
    let mut cap = vec![0u8; 16];
    cap[12] = 0x07; // CID = 7
    cap[14] = 0x00; // status low
    cap[15] = 0x00; // status high: success, phase 0
    let mut info = String::new();
    let mut node = parent();
    let label = try_dissect(&cap, true, &mut info, &mut node);
    assert_eq!(label, Some("NVMe"));
    assert!(info.contains("NVMe response"), "{info}");
    assert!(info.contains("Success"), "{info}");
}

#[test]
fn short_capsule_declined() {
    let cap = vec![0u8; 8];
    let mut info = String::new();
    let mut node = parent();
    assert_eq!(try_dissect(&cap, true, &mut info, &mut node), None);
}

#[test]
fn declining_leaves_info_and_parent_alone() {
    let mut info = String::from("before");
    let mut node = parent();
    assert_eq!(try_dissect(&[0u8; 64], false, &mut info, &mut node), None);
    assert_eq!(info, "before");
    assert!(node.children.is_empty());
}

#[test]
fn failed_response_shows_its_codes() {
    let mut cap = vec![0u8; 16];
    let status: u16 = (2 << 9) | (0x81 << 1) | 1;
    cap[14..16].copy_from_slice(&status.to_le_bytes());
    let mut info = String::new();
    let mut node = parent();
    try_dissect(&cap, true, &mut info, &mut node);
    assert_eq!(info, " | NVMe response CID=0 status=SCT=2 SC=0x81");
    assert_eq!(
        node.children[0].children[1].text,
        "Status: 0x0503 (SCT=2 SC=0x81, phase=1)"
    );
}

#[test]
fn a_flush_has_no_block_range() {
    let mut info = String::new();
    let mut node = parent();
    assert_eq!(try_dissect(&[0u8; 64], true, &mut info, &mut node), Some("NVMe"));
    assert_eq!(info, " | NVMe Flush nsid=0 CID=0");
    assert_eq!(extract(&[node], "nvme.cmd.slba"), None);
}
