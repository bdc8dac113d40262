//! RDMA over Converged Ethernet and native InfiniBand.
//!
//! RoCEv2 carries the InfiniBand transport over UDP: the payload of port 4791
//! begins with the Base Transport Header (BTH), whose opcode decides which
//! extended headers follow. RoCEv1 puts a Global Route Header (GRH) and the
//! BTH directly on Ethernet; native InfiniBand starts with a Local Route
//! Header (LRH). NVMe capsules in SEND operations are handed on without the
//! checksum that ends every packet.

use vstd::prelude::*;
use vstd::slice::slice_subrange;

use crate::addr::fmt_ipv6;
#[allow(unused_imports)]
use crate::addr::ipv6_text;
use crate::bytes::{get_be16, get_be24, get_be32, get_be64};
#[allow(unused_imports)]
use crate::bytes::{be16, be24, be32, be64};
use crate::dissect::{DissectConfig, Dissection};
#[allow(unused_imports)]
use crate::dissect::{addressed, informed, labelled, layered, DissectionView};
use crate::field::Node;
#[allow(unused_imports)]
use crate::field::{
    is_layer,
    layer,
    num,
    shows_number,
    shows_text,
    txt,
    with_child,
    NodeView,
};
use crate::nvme::try_dissect;
#[allow(unused_imports)]
use crate::nvme::{capsule, Capsule};
use crate::text::{cat2, cat3, cat4, cat5, cat6, dec, hexw, join, push_if};
#[allow(unused_imports)]
use crate::text::{dec_text, hex_fixed, joined, name_if, strings};

verus! {

/// The well-known UDP port of RoCEv2.
pub const ROCE_V2_UDP_PORT: u16 = 4791;

/// The length of a Base Transport Header.
pub const BTH_LEN: usize = 12;

/// The length of a Global Route Header.
pub const GRH_LEN: usize = 40;

/// The next header value of a Global Route Header that a Base Transport Header
/// follows.
pub const NEXT_IS_BTH: u8 = 0x1b;

/// The length of a Local Route Header.
pub const LRH_LEN: usize = 8;

// ---- opcodes ----

/// The transport service in the high three bits of an opcode.
pub open spec fn service(opcode: u8) -> Seq<char> {
    let svc = opcode / 32;
    if svc == 0 {
        "RC"@
    } else if svc == 1 {
        "UC"@
    } else if svc == 2 {
        "RD"@
    } else if svc == 3 {
        "UD"@
    } else if svc == 4 {
        "CNP"@
    } else if svc == 5 {
        "XRC"@
    } else {
        "Vendor"@
    }
}

/// The operation in the low five bits of an opcode, where it has a name.
pub open spec fn operation(op: u8) -> Option<Seq<char>> {
    if op == 0x00 {
        Some("SEND First"@)
    } else if op == 0x01 {
        Some("SEND Middle"@)
    } else if op == 0x02 {
        Some("SEND Last"@)
    } else if op == 0x03 {
        Some("SEND Last w/ Imm"@)
    } else if op == 0x04 {
        Some("SEND Only"@)
    } else if op == 0x05 {
        Some("SEND Only w/ Imm"@)
    } else if op == 0x06 {
        Some("RDMA WRITE First"@)
    } else if op == 0x07 {
        Some("RDMA WRITE Middle"@)
    } else if op == 0x08 {
        Some("RDMA WRITE Last"@)
    } else if op == 0x09 {
        Some("RDMA WRITE Last w/ Imm"@)
    } else if op == 0x0a {
        Some("RDMA WRITE Only"@)
    } else if op == 0x0b {
        Some("RDMA WRITE Only w/ Imm"@)
    } else if op == 0x0c {
        Some("RDMA READ Request"@)
    } else if op == 0x0d {
        Some("RDMA READ Response First"@)
    } else if op == 0x0e {
        Some("RDMA READ Response Middle"@)
    } else if op == 0x0f {
        Some("RDMA READ Response Last"@)
    } else if op == 0x10 {
        Some("RDMA READ Response Only"@)
    } else if op == 0x11 {
        Some("Acknowledge"@)
    } else if op == 0x12 {
        Some("ATOMIC Acknowledge"@)
    } else if op == 0x13 {
        Some("CmpSwap"@)
    } else if op == 0x14 {
        Some("FetchAdd"@)
    } else if op == 0x16 {
        Some("SEND Last w/ Invalidate"@)
    } else if op == 0x17 {
        Some("SEND Only w/ Invalidate"@)
    } else {
        None
    }
}

/// The name of an opcode: service and operation; the congestion notification
/// packet has a name of its own.
pub open spec fn opcode_text(opcode: u8) -> Seq<char> {
    if opcode == 0x81 {
        "CNP"@
    } else {
        match operation(opcode % 32) {
            Some(op) => service(opcode) + " "@ + op,
            None => service(opcode) + " opcode 0x"@ + hex_fixed((opcode % 32) as nat, 2),
        }
    }
}

fn service_name(opcode: u8) -> (r: &'static str)
    ensures
        r@ == service(opcode),
{
    match opcode / 32 {
        0 => "RC",
        1 => "UC",
        2 => "RD",
        3 => "UD",
        4 => "CNP",
        5 => "XRC",
        _ => "Vendor",
    }
}

fn operation_name(op: u8) -> (r: Option<&'static str>)
    ensures
        match r {
            Some(s) => operation(op) == Some(s@),
            None => operation(op) is None,
        },
{
    Some(
        match op {
            0x00 => "SEND First",
            0x01 => "SEND Middle",
            0x02 => "SEND Last",
            0x03 => "SEND Last w/ Imm",
            0x04 => "SEND Only",
            0x05 => "SEND Only w/ Imm",
            0x06 => "RDMA WRITE First",
            0x07 => "RDMA WRITE Middle",
            0x08 => "RDMA WRITE Last",
            0x09 => "RDMA WRITE Last w/ Imm",
            0x0a => "RDMA WRITE Only",
            0x0b => "RDMA WRITE Only w/ Imm",
            0x0c => "RDMA READ Request",
            0x0d => "RDMA READ Response First",
            0x0e => "RDMA READ Response Middle",
            0x0f => "RDMA READ Response Last",
            0x10 => "RDMA READ Response Only",
            0x11 => "Acknowledge",
            0x12 => "ATOMIC Acknowledge",
            0x13 => "CmpSwap",
            0x14 => "FetchAdd",
            0x16 => "SEND Last w/ Invalidate",
            0x17 => "SEND Only w/ Invalidate",
            _ => return None,
        },
    )
}

fn opcode_name(opcode: u8) -> (r: String)
    ensures
        r@ == opcode_text(opcode),
{
    if opcode == 0x81 {
        return String::from_str("CNP");
    }
    let svc = service_name(opcode);
    match operation_name(opcode % 32) {
        Some(op) => cat3(svc, " ", op),
        None => cat3(svc, " opcode 0x", &hexw((opcode % 32) as u64, 2)),
    }
}

/// Whether an opcode is of the SEND family on a reliable or unreliable
/// connection: the operations that carry a payload for an upper layer.
pub open spec fn is_send(opcode: u8) -> bool {
    let op = opcode % 32;
    opcode / 32 <= 1 && (op <= 0x05 || op == 0x16 || op == 0x17)
}

fn is_send_opcode(opcode: u8) -> (r: bool)
    ensures
        r == is_send(opcode),
{
    let svc = opcode / 32;
    let op = opcode % 32;
    svc <= 1 && (op <= 0x05 || op == 0x16 || op == 0x17)
}

// ---- extended headers ----

/// What extended headers add: info text, fields, and the bytes they take.
pub ghost struct Extension {
    pub info: Seq<char>,
    pub fields: Seq<NodeView>,
    pub used: nat,
}

/// No extended header.
pub open spec fn no_extension() -> Extension {
    Extension { info: Seq::empty(), fields: Seq::empty(), used: 0 }
}

/// A header that the packet is too short for takes what is there.
pub open spec fn cut_off(info: Seq<char>, ext: Seq<u8>) -> Extension {
    Extension { info, fields: Seq::empty(), used: ext.len() }
}

/// The RDMA header: virtual address, remote key, length.
pub open spec fn reth(ext: Seq<u8>) -> Extension {
    let va = hex_fixed(be64(ext, 0), 16);
    let key = hex_fixed(be32(ext, 8), 8);
    let len = be32(ext, 12);
    if ext.len() < 16 {
        cut_off(" RETH=<truncated>"@, ext)
    } else {
        Extension {
            info: " VA=0x"@ + va + " RKey=0x"@ + key + " Len="@ + dec_text(len),
            fields: seq![
                num("infiniband.reth.va"@, be64(ext, 0), "Virtual Address: 0x"@ + va),
                num("infiniband.reth.rkey"@, be32(ext, 8), "Remote Key: 0x"@ + key),
                num("infiniband.reth.dmalen"@, len, "DMA Length: "@ + dec_text(len)),
            ],
            used: 16,
        }
    }
}

/// Immediate data.
pub open spec fn immdt(ext: Seq<u8>) -> Extension {
    let imm = hex_fixed(be32(ext, 0), 8);
    if ext.len() < 4 {
        cut_off(" ImmDt=<truncated>"@, ext)
    } else {
        Extension {
            info: " ImmDt=0x"@ + imm,
            fields: seq![
                num("infiniband.immdt.immediatedata"@, be32(ext, 0), "Immediate Data: 0x"@ + imm),
            ],
            used: 4,
        }
    }
}

/// What a syndrome says: its high three bits.
pub open spec fn syndrome_kind(syndrome: u8) -> Seq<char> {
    let kind = syndrome / 32;
    if kind == 0 {
        "ACK"@
    } else if kind == 1 {
        "RNR-NAK"@
    } else if kind == 3 {
        "NAK"@
    } else {
        "reserved"@
    }
}

/// The acknowledgement header: syndrome, message sequence number.
pub open spec fn aeth(ext: Seq<u8>) -> Extension {
    let syndrome = hex_fixed(ext[0] as nat, 2);
    let kind = syndrome_kind(ext[0]);
    let msn = be24(ext, 1);
    if ext.len() < 4 {
        cut_off(" AETH=<truncated>"@, ext)
    } else {
        Extension {
            info: " "@ + kind + " Syndrome=0x"@ + syndrome + " MSN="@ + dec_text(msn),
            fields: seq![
                num(
                    "infiniband.aeth.syndrome"@,
                    ext[0] as nat,
                    "Syndrome: 0x"@ + syndrome + " ("@ + kind + ")"@,
                ),
                num("infiniband.aeth.msn"@, msn, "Message Sequence Number: "@ + dec_text(msn)),
            ],
            used: 4,
        }
    }
}

/// Whether an operation carries an RDMA header: WRITE First and Only, with
/// immediate data or not, and READ Request.
pub open spec fn has_reth(op: u8) -> bool {
    op == 0x06 || op == 0x0a || op == 0x0b || op == 0x0c
}

/// Whether an operation carries an acknowledgement header.
pub open spec fn has_aeth(op: u8) -> bool {
    op == 0x11 || op == 0x12
}

/// Whether an operation carries immediate data.
pub open spec fn has_immdt(op: u8) -> bool {
    op == 0x03 || op == 0x05 || op == 0x09 || op == 0x0b
}

/// One header behind another.
pub open spec fn followed(a: Extension, b: Extension) -> Extension {
    Extension { info: a.info + b.info, fields: a.fields + b.fields, used: a.used + b.used }
}

/// The extended headers that an opcode calls for, in order. Those of the
/// unreliable datagram and later services are not decoded.
pub open spec fn extensions(opcode: u8, ext: Seq<u8>) -> Extension {
    let op = opcode % 32;
    let none = no_extension();
    if opcode / 32 > 2 {
        none
    } else {
        let a = if has_reth(op) {
            reth(ext)
        } else {
            none
        };
        let b = if has_aeth(op) {
            aeth(ext.skip(a.used as int))
        } else {
            none
        };
        let c = if has_immdt(op) {
            immdt(ext.skip((a.used + b.used) as int))
        } else {
            none
        };
        followed(followed(a, b), c)
    }
}

/// A node with some children more.
pub open spec fn extended(n: NodeView, fields: Seq<NodeView>) -> NodeView {
    NodeView { children: n.children + fields, ..n }
}

fn append_reth(ext: &[u8], info: &mut String, node: &mut Node) -> (used: usize)
    ensures
        used == reth(ext@).used,
        final(info)@ == old(info)@ + reth(ext@).info,
        final(node)@ == extended(old(node)@, reth(ext@).fields),
{
    if ext.len() < 16 {
        info.append(" RETH=<truncated>");
        assert(node@.children =~= extended(node@, reth(ext@).fields).children);
        return ext.len();
    }
    let va = get_be64(ext, 0);
    let r_key = get_be32(ext, 8) as u64;
    let dma_len = get_be32(ext, 12) as u64;
    let va_text = hexw(va, 16);
    let key_text = hexw(r_key, 8);
    info.append(&cat6(" VA=0x", &va_text, " RKey=0x", &key_text, " Len=", &dec(dma_len)));
    node.add_num("infiniband.reth.va", va, &cat2("Virtual Address: 0x", &va_text));
    node.add_num("infiniband.reth.rkey", r_key, &cat2("Remote Key: 0x", &key_text));
    node.add_num("infiniband.reth.dmalen", dma_len, &cat2("DMA Length: ", &dec(dma_len)));
    assert(node@.children =~= extended(old(node)@, reth(ext@).fields).children);
    16
}

fn append_immdt(ext: &[u8], info: &mut String, node: &mut Node) -> (used: usize)
    ensures
        used == immdt(ext@).used,
        final(info)@ == old(info)@ + immdt(ext@).info,
        final(node)@ == extended(old(node)@, immdt(ext@).fields),
{
    if ext.len() < 4 {
        info.append(" ImmDt=<truncated>");
        assert(node@.children =~= extended(node@, immdt(ext@).fields).children);
        return ext.len();
    }
    let imm = get_be32(ext, 0) as u64;
    let imm_text = hexw(imm, 8);
    info.append(&cat2(" ImmDt=0x", &imm_text));
    node.add_num(
        "infiniband.immdt.immediatedata",
        imm,
        &cat2("Immediate Data: 0x", &imm_text),
    );
    assert(node@.children =~= extended(old(node)@, immdt(ext@).fields).children);
    4
}

fn syndrome_name(syndrome: u8) -> (r: &'static str)
    ensures
        r@ == syndrome_kind(syndrome),
{
    match syndrome / 32 {
        0 => "ACK",
        1 => "RNR-NAK",
        3 => "NAK",
        _ => "reserved",
    }
}

fn append_aeth(ext: &[u8], info: &mut String, node: &mut Node) -> (used: usize)
    ensures
        used == aeth(ext@).used,
        final(info)@ == old(info)@ + aeth(ext@).info,
        final(node)@ == extended(old(node)@, aeth(ext@).fields),
{
    if ext.len() < 4 {
        info.append(" AETH=<truncated>");
        assert(node@.children =~= extended(node@, aeth(ext@).fields).children);
        return ext.len();
    }
    let syndrome = ext[0];
    let msn = get_be24(ext, 1) as u64;
    let kind = syndrome_name(syndrome);
    let syndrome_text = hexw(syndrome as u64, 2);
    node.add_num(
        "infiniband.aeth.syndrome",
        syndrome as u64,
        &cat5("Syndrome: 0x", &syndrome_text, " (", kind, ")"),
    );
    node.add_num(
        "infiniband.aeth.msn",
        msn,
        &cat2("Message Sequence Number: ", &dec(msn)),
    );
    info.append(&cat6(" ", kind, " Syndrome=0x", &syndrome_text, " MSN=", &dec(msn)));
    assert(node@.children =~= extended(old(node)@, aeth(ext@).fields).children);
    4
}

fn decode_ext_headers(opcode: u8, ext: &[u8], info: &mut String, node: &mut Node) -> (used: usize)
    ensures
        used == extensions(opcode, ext@).used,
        used <= ext@.len(),
        final(info)@ == old(info)@ + extensions(opcode, ext@).info,
        final(node)@ == extended(old(node)@, extensions(opcode, ext@).fields),
{
    let op = opcode % 32;
    let svc = opcode / 32;
    proof {
        assert(node@.children =~= node@.children + Seq::<NodeView>::empty());
        assert(info@ =~= info@ + Seq::<char>::empty());
    }
    if svc > 2 {
        return 0;
    }
    let mut off: usize = 0;
    assert(ext@.skip(0) =~= ext@);
    let ghost none = no_extension();
    let ghost a = if has_reth(op) {
        reth(ext@)
    } else {
        none
    };
    if op == 0x06 || op == 0x0a || op == 0x0b || op == 0x0c {
        off = append_reth(ext, info, node);
    }
    let ghost b = if has_aeth(op) {
        aeth(ext@.skip(a.used as int))
    } else {
        none
    };
    if op == 0x11 || op == 0x12 {
        let rest = slice_subrange(ext, off, ext.len());
        assert(rest@ =~= ext@.skip(a.used as int));
        let n = append_aeth(rest, info, node);
        off += n;
    }
    if op == 0x03 || op == 0x05 || op == 0x09 || op == 0x0b {
        let rest = slice_subrange(ext, off, ext.len());
        assert(rest@ =~= ext@.skip((a.used + b.used) as int));
        let n = append_immdt(rest, info, node);
        off += n;
    }
    proof {
        assert(info@ =~= old(info)@ + extensions(opcode, ext@).info);
        assert(node@.children =~= extended(
            old(node)@,
            extensions(opcode, ext@).fields,
        ).children);
    }
    off
}

/// The upper-layer payload: all but the four-byte checksum at the end.
pub open spec fn without_checksum(s: Seq<u8>) -> Seq<u8> {
    if s.len() > 4 {
        s.take(s.len() - 4)
    } else {
        Seq::empty()
    }
}

fn strip_icrc(bytes: &[u8]) -> (r: &[u8])
    ensures
        r@ == without_checksum(bytes@),
{
    let n = bytes.len();
    let end: usize = if n > 4 {
        n - 4
    } else {
        0
    };
    let r = slice_subrange(bytes, 0, end);
    assert(r@ =~= without_checksum(bytes@));
    r
}

// ---- Base Transport Header ----

/// Whether the bit of a given weight is set.
pub open spec fn bit(b: u8, weight: u8) -> bool {
    (b / weight) % 2 == 1
}

/// 1 for a set flag, 0 for a clear one.
pub open spec fn flag(on: bool) -> nat {
    if on {
        1
    } else {
        0
    }
}

fn flag_num(on: bool) -> (r: u64)
    ensures
        r == flag(on),
{
    if on {
        1
    } else {
        0
    }
}

/// The fields of a Base Transport Header.
pub open spec fn bth_fields(p: Seq<u8>) -> Seq<NodeView> {
    let opcode = p[0];
    let pkey = be16(p, 2);
    let qp = be24(p, 5);
    let psn = be24(p, 9);
    let se = flag(bit(p[1], 0x80));
    let ack = flag(bit(p[8], 0x80));
    let fecn = flag(bit(p[4], 0x80));
    let becn = flag(bit(p[4], 0x40));
    seq![
        num(
            "infiniband.bth.opcode"@,
            opcode as nat,
            "Opcode: "@ + opcode_text(opcode) + " (0x"@ + hex_fixed(opcode as nat, 2) + ")"@,
        ),
        num("infiniband.bth.pkey"@, pkey, "Partition Key: 0x"@ + hex_fixed(pkey, 4)),
        num("infiniband.bth.destqp"@, qp, "Destination Queue Pair: 0x"@ + hex_fixed(qp, 6)),
        num("infiniband.bth.psn"@, psn, "Packet Sequence Number: "@ + dec_text(psn)),
        num("infiniband.bth.se"@, se, "Solicited Event: "@ + dec_text(se)),
        num("infiniband.bth.ackreq"@, ack, "Acknowledge Request: "@ + dec_text(ack)),
        num("infiniband.bth.fecn"@, fecn, "FECN: "@ + dec_text(fecn)),
        num("infiniband.bth.becn"@, becn, "BECN: "@ + dec_text(becn)),
    ]
}

/// The names of the flags that are set in a Base Transport Header.
pub open spec fn bth_flags(p: Seq<u8>) -> Seq<Seq<char>> {
    name_if(bit(p[8], 0x80), "AckReq"@) + name_if(bit(p[1], 0x80), "SE"@) + name_if(
        bit(p[4], 0x80),
        "FECN"@,
    ) + name_if(bit(p[4], 0x40), "BECN"@) + name_if(bit(p[1], 0x40), "MigReq"@)
}

/// The flags as they end the info text: nothing where none is set.
pub open spec fn flags_text(names: Seq<Seq<char>>) -> Seq<char> {
    if names.len() == 0 {
        Seq::empty()
    } else {
        " ["@ + joined(names, ", "@) + "]"@
    }
}

/// What an upper layer makes of the payload of a packet: only a SEND is
/// looked at, and only where a payload is left without the checksum.
pub open spec fn upper_layer(p: Seq<u8>, force: bool) -> Option<Capsule> {
    let ext = p.skip(BTH_LEN as int);
    let payload = without_checksum(ext.skip(extensions(p[0], ext).used as int));
    if is_send(p[0]) && payload.len() > 0 {
        capsule(payload, force)
    } else {
        None
    }
}

/// A packet from its Base Transport Header on: opcode, queue pair and sequence
/// number, extended headers, an upper layer, the flags that are set.
pub open spec fn bth(
    p: Seq<u8>,
    d: DissectionView,
    force: bool,
    proto: Seq<char>,
) -> DissectionView {
    if p.len() < BTH_LEN {
        layered(
            informed(labelled(d, proto), "truncated BTH"@),
            layer("InfiniBand Base Transport Header (truncated)"@, seq![]),
        )
    } else {
        let name = opcode_text(p[0]);
        let ext = extensions(p[0], p.skip(BTH_LEN as int));
        let head = name + " DQP=0x"@ + hex_fixed(be24(p, 5), 6) + " PSN="@ + dec_text(be24(p, 9));
        let flags = flags_text(bth_flags(p));
        let node = extended(
            layer("InfiniBand BTH \u{2014} "@ + name, bth_fields(p)),
            ext.fields,
        );
        match upper_layer(p, force) {
            Some(c) => layered(
                informed(labelled(d, c.label), head + ext.info + c.info + flags),
                with_child(node, c.node),
            ),
            None => layered(informed(labelled(d, proto), head + ext.info + flags), node),
        }
    }
}

fn bth_node(p: &[u8], name: &str) -> (r: Node)
    requires
        p.len() >= BTH_LEN,
        name@ == opcode_text(p@[0]),
    ensures
        r@ == layer("InfiniBand BTH \u{2014} "@ + name@, bth_fields(p@)),
{
    let opcode = p[0];
    let pkey = get_be16(p, 2) as u64;
    let qp = get_be24(p, 5) as u64;
    let psn = get_be24(p, 9) as u64;
    let se = flag_num((p[1] / 0x80) % 2 == 1);
    let ack = flag_num((p[8] / 0x80) % 2 == 1);
    let fecn = flag_num((p[4] / 0x80) % 2 == 1);
    let becn = flag_num((p[4] / 0x40) % 2 == 1);
    let mut node = Node::proto(&cat2("InfiniBand BTH \u{2014} ", name));
    node.add_num(
        "infiniband.bth.opcode",
        opcode as u64,
        &cat5("Opcode: ", name, " (0x", &hexw(opcode as u64, 2), ")"),
    );
    node.add_num("infiniband.bth.pkey", pkey, &cat2("Partition Key: 0x", &hexw(pkey, 4)));
    node.add_num(
        "infiniband.bth.destqp",
        qp,
        &cat2("Destination Queue Pair: 0x", &hexw(qp, 6)),
    );
    node.add_num("infiniband.bth.psn", psn, &cat2("Packet Sequence Number: ", &dec(psn)));
    node.add_num("infiniband.bth.se", se, &cat2("Solicited Event: ", &dec(se)));
    node.add_num("infiniband.bth.ackreq", ack, &cat2("Acknowledge Request: ", &dec(ack)));
    node.add_num("infiniband.bth.fecn", fecn, &cat2("FECN: ", &dec(fecn)));
    node.add_num("infiniband.bth.becn", becn, &cat2("BECN: ", &dec(becn)));
    assert(node@.children =~= bth_fields(p@));
    node
}

fn bth_flag_names(p: &[u8]) -> (r: String)
    requires
        p.len() >= BTH_LEN,
    ensures
        r@ == flags_text(bth_flags(p@)),
{
    let mut flags: Vec<String> = Vec::new();
    assert(strings(flags@) =~= Seq::empty());
    push_if(&mut flags, (p[8] / 0x80) % 2 == 1, "AckReq");
    push_if(&mut flags, (p[1] / 0x80) % 2 == 1, "SE");
    push_if(&mut flags, (p[4] / 0x80) % 2 == 1, "FECN");
    push_if(&mut flags, (p[4] / 0x40) % 2 == 1, "BECN");
    push_if(&mut flags, (p[1] / 0x40) % 2 == 1, "MigReq");
    assert(strings(flags@) =~= bth_flags(p@));
    assert(flags@.len() == bth_flags(p@).len());
    if flags.len() == 0 {
        String::new()
    } else {
        cat3(" [", &join(&flags, ", "), "]")
    }
}

fn dissect_bth(payload: &[u8], d: &mut Dissection, cfg: &DissectConfig, proto: &'static str)
    ensures
        final(d)@ == bth(payload@, old(d)@, cfg.nvme_force, proto@),
{
    d.label(proto);
    if payload.len() < BTH_LEN {
        d.inform(String::from_str("truncated BTH"));
        d.push(Node::proto("InfiniBand Base Transport Header (truncated)"));
        return;
    }
    let opcode = payload[0];
    let qp = get_be24(payload, 5) as u64;
    let psn = get_be24(payload, 9) as u64;
    let name = opcode_name(opcode);
    let mut info = cat5(&name, " DQP=0x", &hexw(qp, 6), " PSN=", &dec(psn));
    let mut node = bth_node(payload, &name);

    let ext = slice_subrange(payload, BTH_LEN, payload.len());
    assert(ext@ =~= payload@.skip(BTH_LEN as int));
    let ext_len = decode_ext_headers(opcode, ext, &mut info, &mut node);

    if is_send_opcode(opcode) {
        let after_ext = slice_subrange(ext, ext_len, ext.len());
        assert(after_ext@ =~= ext@.skip(ext_len as int));
        let capsule_bytes = strip_icrc(after_ext);
        if capsule_bytes.len() > 0 {
            if let Some(label) = try_dissect(
                capsule_bytes,
                cfg.nvme_force,
                &mut info,
                &mut node,
            ) {
                d.label(label);
            }
        }
    }
    info.append(&bth_flag_names(payload));
    d.inform(info);
    d.push(node);
}

/// Decodes a RoCEv2 payload, the bytes behind the UDP header.
pub fn dissect(payload: &[u8], d: &mut Dissection, cfg: &DissectConfig)
    ensures
        final(d)@ == bth(payload@, old(d)@, cfg.nvme_force, "RoCE"@),
{
    dissect_bth(payload, d, cfg, "RoCE");
}

// ---- Global and Local Route Headers ----

/// The layer of a Global Route Header, which has the shape of an IPv6 header.
pub open spec fn grh_layer(p: Seq<u8>) -> NodeView {
    let ipver = (p[0] / 16) as nat;
    let tclass = ((p[0] % 16) * 16 + p[1] / 16) as nat;
    let flow = ((p[1] % 16) * 0x1_0000 + be16(p, 2)) as nat;
    let paylen = be16(p, 4);
    let next = p[6] as nat;
    let hops = p[7] as nat;
    let sgid = ipv6_text(p, 8);
    let dgid = ipv6_text(p, 24);
    layer(
        "InfiniBand Global Route Header, SGID: "@ + sgid + ", DGID: "@ + dgid,
        seq![
            num("infiniband.grh.ipver"@, ipver, "IP Version: "@ + dec_text(ipver)),
            num("infiniband.grh.tclass"@, tclass, "Traffic Class: "@ + dec_text(tclass)),
            num("infiniband.grh.flowlabel"@, flow, "Flow Label: "@ + dec_text(flow)),
            num("infiniband.grh.paylen"@, paylen, "Payload Length: "@ + dec_text(paylen)),
            num(
                "infiniband.grh.nxthdr"@,
                next,
                "Next Header: "@ + dec_text(next) + " (0x"@ + hex_fixed(next, 2) + ")"@,
            ),
            num("infiniband.grh.hoplmt"@, hops, "Hop Limit: "@ + dec_text(hops)),
            txt("infiniband.grh.sgid"@, sgid, "Source GID: "@ + sgid),
            txt("infiniband.grh.dgid"@, dgid, "Destination GID: "@ + dgid),
        ],
    )
}

/// A packet from its Global Route Header on: the global identifiers become
/// the addresses, and the next header says whether a Base Transport Header
/// follows. Anything else is not followed.
pub open spec fn grh(
    p: Seq<u8>,
    d: DissectionView,
    force: bool,
    proto: Seq<char>,
) -> DissectionView {
    if p.len() < GRH_LEN {
        layered(
            informed(labelled(d, proto), "truncated GRH"@),
            layer("InfiniBand Global Route Header (truncated)"@, seq![]),
        )
    } else {
        let here = layered(
            addressed(labelled(d, proto), ipv6_text(p, 8), ipv6_text(p, 24)),
            grh_layer(p),
        );
        if p[6] == NEXT_IS_BTH {
            bth(p.skip(GRH_LEN as int), here, force, proto)
        } else {
            here
        }
    }
}

fn grh_node(p: &[u8], sgid: &str, dgid: &str) -> (r: Node)
    requires
        p.len() >= GRH_LEN,
        sgid@ == ipv6_text(p@, 8),
        dgid@ == ipv6_text(p@, 24),
    ensures
        r@ == grh_layer(p@),
{
    let ipver = (p[0] / 16) as u64;
    let tclass = (p[0] % 16) as u64 * 16 + (p[1] / 16) as u64;
    let flow = (p[1] % 16) as u64 * 0x1_0000 + get_be16(p, 2) as u64;
    let paylen = get_be16(p, 4) as u64;
    let next = p[6] as u64;
    let hops = p[7] as u64;
    let mut node = Node::proto(
        &cat4("InfiniBand Global Route Header, SGID: ", sgid, ", DGID: ", dgid),
    );
    node.add_num("infiniband.grh.ipver", ipver, &cat2("IP Version: ", &dec(ipver)));
    node.add_num("infiniband.grh.tclass", tclass, &cat2("Traffic Class: ", &dec(tclass)));
    node.add_num("infiniband.grh.flowlabel", flow, &cat2("Flow Label: ", &dec(flow)));
    node.add_num("infiniband.grh.paylen", paylen, &cat2("Payload Length: ", &dec(paylen)));
    node.add_num(
        "infiniband.grh.nxthdr",
        next,
        &cat5("Next Header: ", &dec(next), " (0x", &hexw(next, 2), ")"),
    );
    node.add_num("infiniband.grh.hoplmt", hops, &cat2("Hop Limit: ", &dec(hops)));
    node.add_str("infiniband.grh.sgid", sgid, &cat2("Source GID: ", sgid));
    node.add_str("infiniband.grh.dgid", dgid, &cat2("Destination GID: ", dgid));
    assert(node@.children =~= grh_layer(p@).children);
    node
}

/// Decodes from a Global Route Header on; `proto` labels what carries it. A
/// Base Transport Header is decoded where the next header announces one.
pub fn dissect_grh(payload: &[u8], d: &mut Dissection, cfg: &DissectConfig, proto: &'static str)
    ensures
        final(d)@ == grh(payload@, old(d)@, cfg.nvme_force, proto@),
{
    d.label(proto);
    if payload.len() < GRH_LEN {
        d.inform(String::from_str("truncated GRH"));
        d.push(Node::proto("InfiniBand Global Route Header (truncated)"));
        return;
    }
    let sgid = fmt_ipv6(payload, 8);
    let dgid = fmt_ipv6(payload, 24);
    let node = grh_node(payload, &sgid, &dgid);
    d.address(sgid, dgid);
    d.push(node);
    if payload[6] == NEXT_IS_BTH {
        let rest = slice_subrange(payload, GRH_LEN, payload.len());
        assert(rest@ =~= payload@.skip(GRH_LEN as int));
        dissect_bth(rest, d, cfg, proto);
    }
}

/// The layer of a Local Route Header.
pub open spec fn lrh_layer(p: Seq<u8>) -> NodeView {
    let vl = (p[0] / 16) as nat;
    let lver = (p[0] % 16) as nat;
    let sl = (p[1] / 16) as nat;
    let lnh = (p[1] % 4) as nat;
    let dlid = be16(p, 2);
    let pktlen = be16(p, 4) % 0x800;
    let slid = be16(p, 6);
    layer(
        "InfiniBand Local Route Header, SLID: "@ + dec_text(slid) + ", DLID: "@ + dec_text(dlid),
        seq![
            num("infiniband.lrh.vl"@, vl, "Virtual Lane: "@ + dec_text(vl)),
            num("infiniband.lrh.lver"@, lver, "Link Version: "@ + dec_text(lver)),
            num("infiniband.lrh.sl"@, sl, "Service Level: "@ + dec_text(sl)),
            num("infiniband.lrh.lnh"@, lnh, "Link Next Header: "@ + dec_text(lnh)),
            num("infiniband.lrh.dlid"@, dlid, "Destination LID: "@ + dec_text(dlid)),
            num("infiniband.lrh.pktlen"@, pktlen, "Packet Length: "@ + dec_text(pktlen)),
            num("infiniband.lrh.slid"@, slid, "Source LID: "@ + dec_text(slid)),
        ],
    )
}

/// A packet from its Local Route Header on. The link next header says what
/// follows: a Global Route Header, a Base Transport Header, or something that
/// is not InfiniBand's.
pub open spec fn lrh(p: Seq<u8>, d: DissectionView, force: bool) -> DissectionView {
    if p.len() < LRH_LEN {
        layered(
            informed(labelled(d, "IB"@), "truncated LRH"@),
            layer("InfiniBand Local Route Header (truncated)"@, seq![]),
        )
    } else {
        let lnh = p[1] % 4;
        let rest = p.skip(LRH_LEN as int);
        let here = layered(
            addressed(
                labelled(d, "IB"@),
                "LID "@ + dec_text(be16(p, 6)),
                "LID "@ + dec_text(be16(p, 2)),
            ),
            lrh_layer(p),
        );
        if lnh == 3 {
            grh(rest, here, force, "IB"@)
        } else if lnh == 2 {
            bth(rest, here, force, "IB"@)
        } else {
            informed(here, "LNH "@ + dec_text(lnh as nat) + " (non-IBA payload)"@)
        }
    }
}

fn lrh_node(p: &[u8]) -> (r: Node)
    requires
        p.len() >= LRH_LEN,
    ensures
        r@ == lrh_layer(p@),
{
    let vl = (p[0] / 16) as u64;
    let lver = (p[0] % 16) as u64;
    let sl = (p[1] / 16) as u64;
    let lnh = (p[1] % 4) as u64;
    let dlid = get_be16(p, 2) as u64;
    let pktlen = (get_be16(p, 4) % 0x800) as u64;
    let slid = get_be16(p, 6) as u64;
    let mut node = Node::proto(
        &cat4("InfiniBand Local Route Header, SLID: ", &dec(slid), ", DLID: ", &dec(dlid)),
    );
    node.add_num("infiniband.lrh.vl", vl, &cat2("Virtual Lane: ", &dec(vl)));
    node.add_num("infiniband.lrh.lver", lver, &cat2("Link Version: ", &dec(lver)));
    node.add_num("infiniband.lrh.sl", sl, &cat2("Service Level: ", &dec(sl)));
    node.add_num("infiniband.lrh.lnh", lnh, &cat2("Link Next Header: ", &dec(lnh)));
    node.add_num("infiniband.lrh.dlid", dlid, &cat2("Destination LID: ", &dec(dlid)));
    node.add_num("infiniband.lrh.pktlen", pktlen, &cat2("Packet Length: ", &dec(pktlen)));
    node.add_num("infiniband.lrh.slid", slid, &cat2("Source LID: ", &dec(slid)));
    assert(node@.children =~= lrh_layer(p@).children);
    node
}

/// Decodes native InfiniBand, from its Local Route Header on.
pub fn dissect_lrh(payload: &[u8], d: &mut Dissection, cfg: &DissectConfig)
    ensures
        final(d)@ == lrh(payload@, old(d)@, cfg.nvme_force),
{
    d.label("IB");
    if payload.len() < LRH_LEN {
        d.inform(String::from_str("truncated LRH"));
        d.push(Node::proto("InfiniBand Local Route Header (truncated)"));
        return;
    }
    let lnh = payload[1] % 4;
    let dlid = get_be16(payload, 2) as u64;
    let slid = get_be16(payload, 6) as u64;
    d.address(cat2("LID ", &dec(slid)), cat2("LID ", &dec(dlid)));
    d.push(lrh_node(payload));
    let rest = slice_subrange(payload, LRH_LEN, payload.len());
    assert(rest@ =~= payload@.skip(LRH_LEN as int));
    match lnh {
        3 => dissect_grh(rest, d, cfg, "IB"),
        2 => dissect_bth(rest, d, cfg, "IB"),
        other => d.inform(cat3("LNH ", &dec(other as u64), " (non-IBA payload)")),
    }
}

// ---- laws ----

/// An opcode is named by its service, from the high three bits, and its
/// operation, from the low five; an operation without a name is shown as a
/// number. The congestion notification 0x81 has a name of its own.
pub proof fn law_opcodes_are_named(opcode: u8) -> (rest: Seq<char>)
    ensures
        opcode == 0x81 ==> opcode_text(opcode) == "CNP"@,
        ({
            let op = opcode % 32;
            &&& opcode < 0x20 ==> opcode_text(opcode) == "RC "@ + rest
            &&& 0x20 <= opcode < 0x40 ==> opcode_text(opcode) == "UC "@ + rest
            &&& 0x40 <= opcode < 0x60 ==> opcode_text(opcode) == "RD "@ + rest
            &&& 0x60 <= opcode < 0x80 ==> opcode_text(opcode) == "UD "@ + rest
            &&& 0x80 <= opcode < 0xa0 && opcode != 0x81 ==> opcode_text(opcode) == "CNP "@ + rest
            &&& 0xa0 <= opcode < 0xc0 ==> opcode_text(opcode) == "XRC "@ + rest
            &&& 0xc0 <= opcode ==> opcode_text(opcode) == "Vendor "@ + rest
            &&& op == 0x00 ==> rest == "SEND First"@
            &&& op == 0x01 ==> rest == "SEND Middle"@
            &&& op == 0x02 ==> rest == "SEND Last"@
            &&& op == 0x03 ==> rest == "SEND Last w/ Imm"@
            &&& op == 0x04 ==> rest == "SEND Only"@
            &&& op == 0x05 ==> rest == "SEND Only w/ Imm"@
            &&& op == 0x06 ==> rest == "RDMA WRITE First"@
            &&& op == 0x07 ==> rest == "RDMA WRITE Middle"@
            &&& op == 0x08 ==> rest == "RDMA WRITE Last"@
            &&& op == 0x09 ==> rest == "RDMA WRITE Last w/ Imm"@
            &&& op == 0x0a ==> rest == "RDMA WRITE Only"@
            &&& op == 0x0b ==> rest == "RDMA WRITE Only w/ Imm"@
            &&& op == 0x0c ==> rest == "RDMA READ Request"@
            &&& op == 0x0d ==> rest == "RDMA READ Response First"@
            &&& op == 0x0e ==> rest == "RDMA READ Response Middle"@
            &&& op == 0x0f ==> rest == "RDMA READ Response Last"@
            &&& op == 0x10 ==> rest == "RDMA READ Response Only"@
            &&& op == 0x11 ==> rest == "Acknowledge"@
            &&& op == 0x12 ==> rest == "ATOMIC Acknowledge"@
            &&& op == 0x13 ==> rest == "CmpSwap"@
            &&& op == 0x14 ==> rest == "FetchAdd"@
            &&& op == 0x16 ==> rest == "SEND Last w/ Invalidate"@
            &&& op == 0x17 ==> rest == "SEND Only w/ Invalidate"@
            &&& op == 0x15 || op >= 0x18 ==> rest == "opcode 0x"@ + hex_fixed(op as nat, 2)
        }),
{
    let op = opcode % 32;
    reveal_strlit(" ");
    reveal_strlit("RC");
    reveal_strlit("UC");
    reveal_strlit("RD");
    reveal_strlit("UD");
    reveal_strlit("CNP");
    reveal_strlit("XRC");
    reveal_strlit("Vendor");
    reveal_strlit("RC ");
    reveal_strlit("UC ");
    reveal_strlit("RD ");
    reveal_strlit("UD ");
    reveal_strlit("CNP ");
    reveal_strlit("XRC ");
    reveal_strlit("Vendor ");
    reveal_strlit(" opcode 0x");
    reveal_strlit("opcode 0x");
    let rest = match operation(op) {
        Some(name) => name,
        None => "opcode 0x"@ + hex_fixed(op as nat, 2),
    };
    assert(" opcode 0x"@ =~= " "@ + "opcode 0x"@);
    if opcode != 0x81 {
        assert(opcode_text(opcode) =~= service(opcode) + " "@ + rest);
        assert("RC "@ =~= "RC"@ + " "@);
        assert("UC "@ =~= "UC"@ + " "@);
        assert("RD "@ =~= "RD"@ + " "@);
        assert("UD "@ =~= "UD"@ + " "@);
        assert("CNP "@ =~= "CNP"@ + " "@);
        assert("XRC "@ =~= "XRC"@ + " "@);
        assert("Vendor "@ =~= "Vendor"@ + " "@);
    }
    rest
}

/// What the info column starts with: the name of the opcode, the queue pair
/// and the sequence number.
pub open spec fn transport_head(p: Seq<u8>) -> Seq<char> {
    opcode_text(p[0]) + " DQP=0x"@ + hex_fixed(
        (p[5] * 0x1_0000 + p[6] * 0x100 + p[7]) as nat,
        6,
    ) + " PSN="@ + dec_text((p[9] * 0x1_0000 + p[10] * 0x100 + p[11]) as nat)
}

/// What the info column ends with: the names of the flags that are set, in
/// brackets.
pub open spec fn transport_tail(p: Seq<u8>) -> Seq<char> {
    let ack = if p[8] >= 0x80 {
        seq!["AckReq"@]
    } else {
        seq![]
    };
    let se = if p[1] >= 0x80 {
        seq!["SE"@]
    } else {
        seq![]
    };
    let fecn = if p[4] >= 0x80 {
        seq!["FECN"@]
    } else {
        seq![]
    };
    let becn = if p[4] % 0x80 >= 0x40 {
        seq!["BECN"@]
    } else {
        seq![]
    };
    let mig = if p[1] % 0x80 >= 0x40 {
        seq!["MigReq"@]
    } else {
        seq![]
    };
    let names = ack + se + fecn + becn + mig;
    if names.len() == 0 {
        Seq::empty()
    } else {
        " ["@ + joined(names, ", "@) + "]"@
    }
}

proof fn lemma_tail(p: Seq<u8>)
    ensures
        flags_text(bth_flags(p)) == transport_tail(p),
{
}

/// The fields of a transport header are the numbers in its bytes: opcode,
/// partition key, queue pair, sequence number, then four flags, each the top
/// bit of its byte or the one below it.
pub proof fn law_transport_header_fields(
    p: Seq<u8>,
    d: DissectionView,
    force: bool,
    proto: Seq<char>,
)
    requires
        p.len() >= 12,
    ensures
        ({
            let r = bth(p, d, force, proto);
            let l = r.tree.last();
            let opcode = p[0] as int;
            let pkey = p[2] * 0x100 + p[3];
            let qp = p[5] * 0x1_0000 + p[6] * 0x100 + p[7];
            let psn = p[9] * 0x1_0000 + p[10] * 0x100 + p[11];
            let se = (p[1] / 0x80) as int;
            let ack = (p[8] / 0x80) as int;
            let fecn = (p[4] / 0x80) as int;
            let becn = (p[4] / 0x40) % 2;
            &&& r.tree == d.tree.push(l)
            &&& l.abbrev is None
            &&& l.text == "InfiniBand BTH \u{2014} "@ + opcode_text(p[0])
            &&& shows_number(
                l,
                0,
                "infiniband.bth.opcode"@,
                opcode,
                "Opcode: "@ + opcode_text(p[0]) + " (0x"@ + hex_fixed(opcode as nat, 2) + ")"@,
            )
            &&& shows_number(
                l,
                1,
                "infiniband.bth.pkey"@,
                pkey,
                "Partition Key: 0x"@ + hex_fixed(pkey as nat, 4),
            )
            &&& shows_number(
                l,
                2,
                "infiniband.bth.destqp"@,
                qp,
                "Destination Queue Pair: 0x"@ + hex_fixed(qp as nat, 6),
            )
            &&& shows_number(
                l,
                3,
                "infiniband.bth.psn"@,
                psn,
                "Packet Sequence Number: "@ + dec_text(psn as nat),
            )
            &&& shows_number(
                l,
                4,
                "infiniband.bth.se"@,
                se,
                "Solicited Event: "@ + dec_text(se as nat),
            )
            &&& shows_number(
                l,
                5,
                "infiniband.bth.ackreq"@,
                ack,
                "Acknowledge Request: "@ + dec_text(ack as nat),
            )
            &&& shows_number(l, 6, "infiniband.bth.fecn"@, fecn, "FECN: "@ + dec_text(fecn as nat))
            &&& shows_number(
                l,
                7,
                "infiniband.bth.becn"@,
                becn as int,
                "BECN: "@ + dec_text(becn as nat),
            )
            &&& r.summary.src == d.summary.src
            &&& r.summary.dst == d.summary.dst
        }),
{
    let l = bth(p, d, force, proto).tree.last();
    assert forall|k: int| 0 <= k < 8 implies l.children[k] == #[trigger] bth_fields(p)[k] by {}
    assert(bth_fields(p)[0] == l.children[0]);
    assert(bth_fields(p)[1] == l.children[1]);
    assert(bth_fields(p)[2] == l.children[2]);
    assert(bth_fields(p)[3] == l.children[3]);
    assert(bth_fields(p)[4] == l.children[4]);
    assert(bth_fields(p)[5] == l.children[5]);
    assert(bth_fields(p)[6] == l.children[6]);
    assert(bth_fields(p)[7] == l.children[7]);
}

/// What extended headers there are to show of a packet that carries no upper
/// layer: the fields behind those of the transport header, and the info text
/// between its head and its tail.
pub open spec fn shows_extension(
    r: DissectionView,
    p: Seq<u8>,
    fields: nat,
    info: Seq<char>,
) -> bool {
    &&& r.tree.last().children.len() == 8 + fields
    &&& r.summary.info == transport_head(p) + info + transport_tail(p)
}

/// An RDMA operation that starts a transfer shows where it goes: virtual
/// address, remote key and length, the numbers in the sixteen bytes behind the
/// transport header.
pub proof fn law_rdma_header_is_shown(
    p: Seq<u8>,
    d: DissectionView,
    force: bool,
    proto: Seq<char>,
)
    requires
        p.len() >= 28,
        p[0] < 0x60,
        p[0] % 32 == 0x06 || p[0] % 32 == 0x0a || p[0] % 32 == 0x0c,
    ensures
        ({
            let r = bth(p, d, force, proto);
            let l = r.tree.last();
            let va = be64(p, 12);
            let key = be32(p, 20);
            let len = be32(p, 24);
            &&& shows_extension(
                r,
                p,
                3,
                " VA=0x"@ + hex_fixed(va, 16) + " RKey=0x"@ + hex_fixed(key, 8) + " Len="@
                    + dec_text(len),
            )
            &&& shows_number(
                l,
                8,
                "infiniband.reth.va"@,
                va as int,
                "Virtual Address: 0x"@ + hex_fixed(va, 16),
            )
            &&& shows_number(
                l,
                9,
                "infiniband.reth.rkey"@,
                key as int,
                "Remote Key: 0x"@ + hex_fixed(key, 8),
            )
            &&& shows_number(
                l,
                10,
                "infiniband.reth.dmalen"@,
                len as int,
                "DMA Length: "@ + dec_text(len),
            )
            &&& r.summary.protocol == proto
        }),
{
    let ext = p.skip(12);
    lemma_tail(p);
    lemma_ext_numbers(p, 12);
    let a = reth(ext);
    let none = no_extension();
    assert(a.fields + none.fields + none.fields =~= a.fields);
    assert(a.info + none.info + none.info =~= a.info);
    assert(extensions(p[0], ext) == followed(followed(a, none), none));
    let l = bth(p, d, force, proto).tree.last();
    assert(l.children =~= bth_fields(p) + a.fields);
    assert(l.children[8] == a.fields[0]);
    assert(l.children[9] == a.fields[1]);
    assert(l.children[10] == a.fields[2]);
}

/// Numbers behind a header are those in the packet.
proof fn lemma_ext_numbers(p: Seq<u8>, k: int)
    requires
        0 <= k,
        p.len() >= k + 4,
    ensures
        be32(p.skip(k), 0) == be32(p, k),
        be24(p.skip(k), 1) == be24(p, k + 1),
        p.skip(k)[0] == p[k],
        p.len() >= k + 16 ==> be64(p.skip(k), 0) == be64(p, k) && be32(p.skip(k), 8) == be32(
            p,
            k + 8,
        ) && be32(p.skip(k), 12) == be32(p, k + 12),
{
}

/// A WRITE Only with immediate data shows both headers: the RDMA header, then
/// the immediate data behind it.
pub proof fn law_write_with_immediate_shows_both(
    p: Seq<u8>,
    d: DissectionView,
    force: bool,
    proto: Seq<char>,
)
    requires
        p.len() >= 32,
        p[0] < 0x60,
        p[0] % 32 == 0x0b,
    ensures
        ({
            let r = bth(p, d, force, proto);
            let l = r.tree.last();
            let va = be64(p, 12);
            let key = be32(p, 20);
            let len = be32(p, 24);
            let imm = be32(p, 28);
            &&& shows_extension(
                r,
                p,
                4,
                " VA=0x"@ + hex_fixed(va, 16) + " RKey=0x"@ + hex_fixed(key, 8) + " Len="@
                    + dec_text(len) + (" ImmDt=0x"@ + hex_fixed(imm, 8)),
            )
            &&& shows_number(
                l,
                8,
                "infiniband.reth.va"@,
                va as int,
                "Virtual Address: 0x"@ + hex_fixed(va, 16),
            )
            &&& shows_number(
                l,
                9,
                "infiniband.reth.rkey"@,
                key as int,
                "Remote Key: 0x"@ + hex_fixed(key, 8),
            )
            &&& shows_number(
                l,
                10,
                "infiniband.reth.dmalen"@,
                len as int,
                "DMA Length: "@ + dec_text(len),
            )
            &&& shows_number(
                l,
                11,
                "infiniband.immdt.immediatedata"@,
                imm as int,
                "Immediate Data: 0x"@ + hex_fixed(imm, 8),
            )
            &&& r.summary.protocol == proto
        }),
{
    let ext = p.skip(12);
    lemma_tail(p);
    lemma_ext_numbers(p, 12);
    lemma_ext_numbers(p, 28);
    let a = reth(ext);
    let none = no_extension();
    assert(ext.skip(16) =~= p.skip(28));
    let c = immdt(p.skip(28));
    assert(a.fields + none.fields + c.fields =~= a.fields + c.fields);
    assert(a.info + none.info + c.info =~= a.info + c.info);
    assert(extensions(p[0], ext) == followed(followed(a, none), c));
    let l = bth(p, d, force, proto).tree.last();
    assert(l.children =~= bth_fields(p) + (a.fields + c.fields));
    assert(l.children[8] == a.fields[0]);
    assert(l.children[9] == a.fields[1]);
    assert(l.children[10] == a.fields[2]);
    assert(l.children[11] == c.fields[0]);
}

/// An acknowledgement shows its syndrome, with what the high three bits of it
/// say, and its message sequence number.
pub proof fn law_acknowledgement_is_shown(
    p: Seq<u8>,
    d: DissectionView,
    force: bool,
    proto: Seq<char>,
)
    requires
        p.len() >= 16,
        p[0] < 0x60,
        p[0] % 32 == 0x11 || p[0] % 32 == 0x12,
    ensures
        ({
            let r = bth(p, d, force, proto);
            let l = r.tree.last();
            let syndrome = hex_fixed(p[12] as nat, 2);
            let msn = p[13] * 0x1_0000 + p[14] * 0x100 + p[15];
            let kind = if p[12] < 0x20 {
                "ACK"@
            } else if p[12] < 0x40 {
                "RNR-NAK"@
            } else if 0x60 <= p[12] < 0x80 {
                "NAK"@
            } else {
                "reserved"@
            };
            &&& shows_extension(
                r,
                p,
                2,
                " "@ + kind + " Syndrome=0x"@ + syndrome + " MSN="@ + dec_text(msn as nat),
            )
            &&& shows_number(
                l,
                8,
                "infiniband.aeth.syndrome"@,
                p[12] as int,
                "Syndrome: 0x"@ + syndrome + " ("@ + kind + ")"@,
            )
            &&& shows_number(
                l,
                9,
                "infiniband.aeth.msn"@,
                msn,
                "Message Sequence Number: "@ + dec_text(msn as nat),
            )
            &&& r.summary.protocol == proto
        }),
{
    let ext = p.skip(12);
    lemma_tail(p);
    lemma_ext_numbers(p, 12);
    assert(ext.skip(0) =~= ext);
    let b = aeth(ext);
    let none = no_extension();
    assert(none.fields + b.fields + none.fields =~= b.fields);
    assert(none.info + b.info + none.info =~= b.info);
    assert(extensions(p[0], ext) == followed(followed(none, b), none));
    let l = bth(p, d, force, proto).tree.last();
    assert(l.children =~= bth_fields(p) + b.fields);
    assert(l.children[8] == b.fields[0]);
    assert(l.children[9] == b.fields[1]);
}

/// A WRITE Last with immediate data shows it.
pub proof fn law_immediate_data_is_shown(
    p: Seq<u8>,
    d: DissectionView,
    force: bool,
    proto: Seq<char>,
)
    requires
        p.len() >= 16,
        p[0] < 0x60,
        p[0] % 32 == 0x09,
    ensures
        ({
            let r = bth(p, d, force, proto);
            let imm = be32(p, 12);
            &&& shows_extension(r, p, 1, " ImmDt=0x"@ + hex_fixed(imm, 8))
            &&& shows_number(
                r.tree.last(),
                8,
                "infiniband.immdt.immediatedata"@,
                imm as int,
                "Immediate Data: 0x"@ + hex_fixed(imm, 8),
            )
            &&& r.summary.protocol == proto
        }),
{
    let ext = p.skip(12);
    lemma_tail(p);
    lemma_ext_numbers(p, 12);
    assert(ext.skip(0) =~= ext);
    let c = immdt(ext);
    let none = no_extension();
    assert(none.fields + none.fields + c.fields =~= c.fields);
    assert(none.info + none.info + c.info =~= c.info);
    assert(extensions(p[0], ext) == followed(followed(none, none), c));
    let l = bth(p, d, force, proto).tree.last();
    assert(l.children =~= bth_fields(p) + c.fields);
    assert(l.children[8] == c.fields[0]);
}

/// An operation of another service, or one that has no extended header and is
/// no SEND, shows its transport header and nothing more.
pub proof fn law_other_operations_show_the_header_alone(
    p: Seq<u8>,
    d: DissectionView,
    force: bool,
    proto: Seq<char>,
)
    requires
        p.len() >= 12,
        ({
            let op = p[0] % 32;
            p[0] >= 0x60 || op == 0x07 || op == 0x08 || (0x0d <= op <= 0x10) || (0x13 <= op
                <= 0x15) || op >= 0x18
        }),
    ensures
        shows_extension(bth(p, d, force, proto), p, 0, Seq::empty()),
        bth(p, d, force, proto).summary.protocol == proto,
{
    let ext = p.skip(12);
    lemma_tail(p);
    let none = no_extension();
    assert(none.fields + none.fields =~= none.fields);
    assert(none.info + none.info =~= none.info);
    assert(extensions(p[0], ext) == none);
    let l = bth(p, d, force, proto).tree.last();
    assert(l.children =~= bth_fields(p));
}

/// A header that the packet is too short for is named as cut off, and adds no
/// field.
pub proof fn law_cut_off_headers_are_named(
    p: Seq<u8>,
    d: DissectionView,
    force: bool,
    proto: Seq<char>,
)
    requires
        12 <= p.len(),
        p[0] < 0x60,
    ensures
        ({
            let r = bth(p, d, force, proto);
            let op = p[0] % 32;
            &&& p.len() < 28 && (op == 0x06 || op == 0x0a || op == 0x0c) ==> shows_extension(
                r,
                p,
                0,
                " RETH=<truncated>"@,
            )
            &&& p.len() < 16 && (op == 0x11 || op == 0x12) ==> shows_extension(
                r,
                p,
                0,
                " AETH=<truncated>"@,
            )
            &&& p.len() < 16 && op == 0x09 ==> shows_extension(r, p, 0, " ImmDt=<truncated>"@)
            &&& p.len() < 28 && op == 0x0b ==> shows_extension(
                r,
                p,
                0,
                " RETH=<truncated>"@ + " ImmDt=<truncated>"@,
            )
        }),
{
    let ext = p.skip(12);
    let op = p[0] % 32;
    lemma_tail(p);
    let none = no_extension();
    assert(ext.skip(0) =~= ext);
    let x = extensions(p[0], ext);
    let l = bth(p, d, force, proto).tree.last();
    if op == 0x06 || op == 0x0a || op == 0x0c || op == 0x0b {
        if p.len() < 28 {
            assert(ext.skip(ext.len() as int).len() == 0);
            assert(x.fields =~= Seq::empty());
            assert(op != 0x0b ==> x.info =~= " RETH=<truncated>"@);
            assert(op == 0x0b ==> x.info =~= " RETH=<truncated>"@ + " ImmDt=<truncated>"@);
            assert(l.children =~= bth_fields(p));
        }
    } else if op == 0x11 || op == 0x12 || op == 0x09 {
        if p.len() < 16 {
            assert(x.fields =~= Seq::empty());
            assert(op != 0x09 ==> x.info =~= " AETH=<truncated>"@);
            assert(op == 0x09 ==> x.info =~= " ImmDt=<truncated>"@);
            assert(l.children =~= bth_fields(p));
        }
    }
}

/// A SEND hands on its payload: what lies between its headers and the four
/// bytes of checksum at the end. What is taken for a capsule there gives the
/// packet its label, ends the info text before the flags and stands below the
/// transport header; what is not leaves the packet as it is.
pub proof fn law_send_hands_on_its_payload(
    head: Seq<u8>,
    imm: Seq<u8>,
    payload: Seq<u8>,
    checksum: Seq<u8>,
    d: DissectionView,
    force: bool,
    proto: Seq<char>,
)
    requires
        head.len() == 12,
        checksum.len() == 4,
        payload.len() > 0,
        ({
            let op = head[0] % 32;
            &&& head[0] < 0x40
            &&& op <= 0x05 || op == 0x16 || op == 0x17
            &&& imm.len() == if op == 0x03 || op == 0x05 {
                4int
            } else {
                0
            }
        }),
    ensures
        ({
            let p = head + imm + payload + checksum;
            let r = bth(p, d, force, proto);
            let l = r.tree.last();
            let op = head[0] % 32;
            let n = if op == 0x03 || op == 0x05 {
                9int
            } else {
                8
            };
            let shown = transport_head(p) + if op == 0x03 || op == 0x05 {
                " ImmDt=0x"@ + hex_fixed(be32(imm, 0), 8)
            } else {
                Seq::empty()
            };
            &&& (op == 0x03 || op == 0x05) ==> shows_number(
                l,
                8,
                "infiniband.immdt.immediatedata"@,
                be32(imm, 0) as int,
                "Immediate Data: 0x"@ + hex_fixed(be32(imm, 0), 8),
            )
            &&& match capsule(payload, force) {
                Some(c) => {
                    &&& r.summary.protocol == c.label
                    &&& r.summary.info == shown + c.info + transport_tail(p)
                    &&& l.children.len() == n + 1
                    &&& l.children[n] == c.node
                },
                None => {
                    &&& r.summary.protocol == proto
                    &&& r.summary.info == shown + transport_tail(p)
                    &&& l.children.len() == n
                },
            }
        }),
{
    let p = head + imm + payload + checksum;
    let op = head[0] % 32;
    let ext = p.skip(12);
    assert(p[0] == head[0]);
    lemma_tail(p);
    let none = no_extension();
    assert(ext.skip(0) =~= ext);
    assert(ext =~= imm + payload + checksum);
    let x = extensions(p[0], ext);
    let l = bth(p, d, force, proto).tree.last();
    if op == 0x03 || op == 0x05 {
        assert(be32(ext, 0) == be32(imm, 0));
        let c = immdt(ext);
        assert(x.fields =~= c.fields);
        assert(x.info =~= c.info);
        assert(without_checksum(ext.skip(4)) =~= payload);
        assert(l.children[8] == c.fields[0]);
    } else {
        assert(x.fields =~= Seq::empty());
        assert(x.info =~= Seq::empty());
        assert(without_checksum(ext) =~= payload);
        assert(transport_head(p) + Seq::<char>::empty() =~= transport_head(p));
    }
    assert(upper_layer(p, force) == capsule(payload, force));
}

/// The fields of a Global Route Header are the numbers in its bytes, laid out
/// as in an IPv6 header; the identifiers become the addresses.
pub proof fn law_route_header_fields(
    p: Seq<u8>,
    d: DissectionView,
    force: bool,
    proto: Seq<char>,
)
    requires
        p.len() >= 40,
    ensures
        ({
            let r = grh(p, d, force, proto);
            let l = r.tree[d.tree.len() as int];
            let ipver = (p[0] / 16) as int;
            let tclass = (p[0] % 16) * 16 + p[1] / 16;
            let flow = (p[1] % 16) * 0x1_0000 + p[2] * 0x100 + p[3];
            let paylen = p[4] * 0x100 + p[5];
            let next = p[6] as int;
            let hops = p[7] as int;
            let sgid = ipv6_text(p, 8);
            let dgid = ipv6_text(p, 24);
            &&& r.tree.take(d.tree.len() as int) == d.tree
            &&& is_layer(
                l,
                "InfiniBand Global Route Header, SGID: "@ + sgid + ", DGID: "@ + dgid,
                8,
            )
            &&& shows_number(
                l,
                0,
                "infiniband.grh.ipver"@,
                ipver,
                "IP Version: "@ + dec_text(ipver as nat),
            )
            &&& shows_number(
                l,
                1,
                "infiniband.grh.tclass"@,
                tclass,
                "Traffic Class: "@ + dec_text(tclass as nat),
            )
            &&& shows_number(
                l,
                2,
                "infiniband.grh.flowlabel"@,
                flow,
                "Flow Label: "@ + dec_text(flow as nat),
            )
            &&& shows_number(
                l,
                3,
                "infiniband.grh.paylen"@,
                paylen,
                "Payload Length: "@ + dec_text(paylen as nat),
            )
            &&& shows_number(
                l,
                4,
                "infiniband.grh.nxthdr"@,
                next,
                "Next Header: "@ + dec_text(next as nat) + " (0x"@ + hex_fixed(next as nat, 2)
                    + ")"@,
            )
            &&& shows_number(
                l,
                5,
                "infiniband.grh.hoplmt"@,
                hops,
                "Hop Limit: "@ + dec_text(hops as nat),
            )
            &&& shows_text(l, 6, "infiniband.grh.sgid"@, sgid, "Source GID: "@ + sgid)
            &&& shows_text(l, 7, "infiniband.grh.dgid"@, dgid, "Destination GID: "@ + dgid)
            &&& r.summary.src == sgid
            &&& r.summary.dst == dgid
            &&& p[6] == 0x1b ==> exists|here: DissectionView|
                here.tree == d.tree.push(l) && #[trigger] bth(p.skip(40), here, force, proto) == r
        }),
{
    let here = layered(
        addressed(labelled(d, proto), ipv6_text(p, 8), ipv6_text(p, 24)),
        grh_layer(p),
    );
    let r = grh(p, d, force, proto);
    if p[6] == 0x1b {
        assert(r == bth(p.skip(40), here, force, proto));
    }
    assert(r.tree.take(d.tree.len() as int) =~= d.tree);
    assert(r.tree[d.tree.len() as int] == grh_layer(p));
}

/// The fields of a Local Route Header are the numbers in its bytes; the local
/// identifiers become the addresses, and what follows is what the low two bits
/// of the second byte say.
pub proof fn law_local_route_header_fields(p: Seq<u8>, d: DissectionView, force: bool)
    requires
        p.len() >= 8,
    ensures
        ({
            let r = lrh(p, d, force);
            let l = r.tree[d.tree.len() as int];
            let vl = (p[0] / 16) as int;
            let lver = (p[0] % 16) as int;
            let sl = (p[1] / 16) as int;
            let lnh = (p[1] % 4) as int;
            let dlid = p[2] * 0x100 + p[3];
            let pktlen = (p[4] % 8) * 0x100 + p[5];
            let slid = p[6] * 0x100 + p[7];
            let here = DissectionView {
                summary: crate::dissect::SummaryView {
                    src: "LID "@ + dec_text(slid as nat),
                    dst: "LID "@ + dec_text(dlid as nat),
                    protocol: "IB"@,
                    ..d.summary
                },
                tree: d.tree.push(l),
            };
            &&& is_layer(
                l,
                "InfiniBand Local Route Header, SLID: "@ + dec_text(slid as nat) + ", DLID: "@
                    + dec_text(dlid as nat),
                7,
            )
            &&& shows_number(
                l,
                0,
                "infiniband.lrh.vl"@,
                vl,
                "Virtual Lane: "@ + dec_text(vl as nat),
            )
            &&& shows_number(
                l,
                1,
                "infiniband.lrh.lver"@,
                lver,
                "Link Version: "@ + dec_text(lver as nat),
            )
            &&& shows_number(
                l,
                2,
                "infiniband.lrh.sl"@,
                sl,
                "Service Level: "@ + dec_text(sl as nat),
            )
            &&& shows_number(
                l,
                3,
                "infiniband.lrh.lnh"@,
                lnh,
                "Link Next Header: "@ + dec_text(lnh as nat),
            )
            &&& shows_number(
                l,
                4,
                "infiniband.lrh.dlid"@,
                dlid,
                "Destination LID: "@ + dec_text(dlid as nat),
            )
            &&& shows_number(
                l,
                5,
                "infiniband.lrh.pktlen"@,
                pktlen,
                "Packet Length: "@ + dec_text(pktlen as nat),
            )
            &&& shows_number(
                l,
                6,
                "infiniband.lrh.slid"@,
                slid,
                "Source LID: "@ + dec_text(slid as nat),
            )
            &&& lnh == 3 ==> r == grh(p.skip(8), here, force, "IB"@)
            &&& lnh == 2 ==> r == bth(p.skip(8), here, force, "IB"@)
            &&& lnh < 2 ==> r == informed(
                here,
                "LNH "@ + dec_text(lnh as nat) + " (non-IBA payload)"@,
            )
        }),
{
    assert(((p[4] * 0x100 + p[5]) as nat) % 0x800 == (p[4] % 8) * 0x100 + p[5]);
    let here = layered(
        addressed(
            labelled(d, "IB"@),
            "LID "@ + dec_text(be16(p, 6)),
            "LID "@ + dec_text(be16(p, 2)),
        ),
        lrh_layer(p),
    );
    let r = lrh(p, d, force);
    assert(r.tree[d.tree.len() as int] == lrh_layer(p));
}

/// A header that is cut off is said to be, under the label of what carries it,
/// and nothing is read from it.
pub proof fn law_cut_off_packets_are_named(
    p: Seq<u8>,
    d: DissectionView,
    force: bool,
    proto: Seq<char>,
)
    ensures
        p.len() < 12 ==> {
            let r = bth(p, d, force, proto);
            &&& r.summary.protocol == proto
            &&& r.summary.info == "truncated BTH"@
            &&& r.tree.len() == d.tree.len() + 1
            &&& is_layer(
                r.tree.last(),
                "InfiniBand Base Transport Header (truncated)"@,
                0,
            )
        },
        p.len() < 40 ==> {
            let r = grh(p, d, force, proto);
            &&& r.summary.protocol == proto
            &&& r.summary.info == "truncated GRH"@
            &&& is_layer(r.tree.last(), "InfiniBand Global Route Header (truncated)"@, 0)
        },
        p.len() < 8 ==> {
            let r = lrh(p, d, force);
            &&& r.summary.protocol == "IB"@
            &&& r.summary.info == "truncated LRH"@
            &&& is_layer(r.tree.last(), "InfiniBand Local Route Header (truncated)"@, 0)
        },
{
}

/// A SEND of a reliable datagram service, and one with nothing between its
/// headers and its checksum, shows its headers and no upper layer.
pub proof fn law_other_sends_show_their_headers_alone(
    p: Seq<u8>,
    d: DissectionView,
    force: bool,
    proto: Seq<char>,
)
    requires
        p[0] < 0x60,
        ({
            let op = p[0] % 32;
            let imm = op == 0x03 || op == 0x05;
            let headers = if imm {
                16int
            } else {
                12
            };
            &&& op <= 0x05 || op == 0x16 || op == 0x17
            &&& p.len() >= headers
            &&& p[0] >= 0x40 || p.len() <= headers + 4
        }),
    ensures
        ({
            let r = bth(p, d, force, proto);
            let op = p[0] % 32;
            let imm = op == 0x03 || op == 0x05;
            &&& r.summary.protocol == proto
            &&& imm ==> shows_extension(r, p, 1, " ImmDt=0x"@ + hex_fixed(be32(p, 12), 8))
            &&& !imm ==> shows_extension(r, p, 0, Seq::empty())
        }),
{
    let op = p[0] % 32;
    if op == 0x03 || op == 0x05 {
        lemma_send_with_immediate(p, d, force, proto);
    } else {
        lemma_send_without_immediate(p, d, force, proto);
    }
}

proof fn lemma_send_with_immediate(
    p: Seq<u8>,
    d: DissectionView,
    force: bool,
    proto: Seq<char>,
)
    requires
        p[0] < 0x60,
        p[0] % 32 == 0x03 || p[0] % 32 == 0x05,
        p.len() >= 16,
        p[0] >= 0x40 || p.len() <= 20,
    ensures
        shows_extension(
            bth(p, d, force, proto),
            p,
            1,
            " ImmDt=0x"@ + hex_fixed(be32(p, 12), 8),
        ),
        bth(p, d, force, proto).summary.protocol == proto,
{
    let ext = p.skip(12);
    lemma_tail(p);
    assert(be32(ext, 0) == be32(p, 12));
    assert(ext.skip(0) =~= ext);
    let none = no_extension();
    let c = immdt(ext);
    assert(none.fields + none.fields + c.fields =~= c.fields);
    assert(none.info + none.info + c.info =~= c.info);
    assert(extensions(p[0], ext) == followed(followed(none, none), c));
    assert(upper_layer(p, force) is None);
    let l = bth(p, d, force, proto).tree.last();
    assert(l.children =~= bth_fields(p) + c.fields);
}

proof fn lemma_send_without_immediate(
    p: Seq<u8>,
    d: DissectionView,
    force: bool,
    proto: Seq<char>,
)
    requires
        p[0] < 0x60,
        p[0] % 32 <= 0x02 || p[0] % 32 == 0x04 || p[0] % 32 == 0x16 || p[0] % 32 == 0x17,
        p.len() >= 12,
        p[0] >= 0x40 || p.len() <= 16,
    ensures
        shows_extension(bth(p, d, force, proto), p, 0, Seq::empty()),
        bth(p, d, force, proto).summary.protocol == proto,
{
    let ext = p.skip(12);
    lemma_tail(p);
    let none = no_extension();
    assert(none.fields + none.fields =~= none.fields);
    assert(none.info + none.info =~= none.info);
    assert(extensions(p[0], ext) == none);
    assert(ext.skip(0) =~= ext);
    assert(upper_layer(p, force) is None);
    let l = bth(p, d, force, proto).tree.last();
    assert(l.children =~= bth_fields(p));
}

/// Immediate data that the packet is too short for is named as cut off: alone
/// behind the header of a SEND, or behind the RDMA header of a WRITE, which is
/// shown.
pub proof fn law_cut_off_immediate_data_is_named(
    p: Seq<u8>,
    d: DissectionView,
    force: bool,
    proto: Seq<char>,
)
    requires
        12 <= p.len(),
        p[0] < 0x60,
    ensures
        ({
            let r = bth(p, d, force, proto);
            let op = p[0] % 32;
            &&& p.len() < 16 && (op == 0x03 || op == 0x05) ==> shows_extension(
                r,
                p,
                0,
                " ImmDt=<truncated>"@,
            )
            &&& 28 <= p.len() < 32 && op == 0x0b ==> shows_extension(
                r,
                p,
                3,
                " VA=0x"@ + hex_fixed(be64(p, 12), 16) + " RKey=0x"@ + hex_fixed(be32(p, 20), 8)
                    + " Len="@ + dec_text(be32(p, 24)) + " ImmDt=<truncated>"@,
            )
        }),
{
    let op = p[0] % 32;
    if p.len() < 16 && (op == 0x03 || op == 0x05) {
        lemma_cut_off_send(p, d, force, proto);
    }
    if 28 <= p.len() < 32 && op == 0x0b {
        lemma_cut_off_write(p, d, force, proto);
    }
}

proof fn lemma_cut_off_send(p: Seq<u8>, d: DissectionView, force: bool, proto: Seq<char>)
    requires
        12 <= p.len() < 16,
        p[0] < 0x60,
        p[0] % 32 == 0x03 || p[0] % 32 == 0x05,
    ensures
        shows_extension(bth(p, d, force, proto), p, 0, " ImmDt=<truncated>"@),
{
    let ext = p.skip(12);
    lemma_tail(p);
    assert(ext.skip(0) =~= ext);
    let none = no_extension();
    let c = immdt(ext);
    assert(none.fields + none.fields + c.fields =~= Seq::empty());
    assert(none.info + none.info + c.info =~= " ImmDt=<truncated>"@);
    assert(extensions(p[0], ext) == followed(followed(none, none), c));
    assert(ext.skip(ext.len() as int).len() == 0);
    assert(upper_layer(p, force) is None);
    let l = bth(p, d, force, proto).tree.last();
    assert(l.children =~= bth_fields(p));
}

proof fn lemma_cut_off_write(p: Seq<u8>, d: DissectionView, force: bool, proto: Seq<char>)
    requires
        28 <= p.len() < 32,
        p[0] < 0x60,
        p[0] % 32 == 0x0b,
    ensures
        shows_extension(
            bth(p, d, force, proto),
            p,
            3,
            " VA=0x"@ + hex_fixed(be64(p, 12), 16) + " RKey=0x"@ + hex_fixed(be32(p, 20), 8)
                + " Len="@ + dec_text(be32(p, 24)) + " ImmDt=<truncated>"@,
        ),
{
    let ext = p.skip(12);
    lemma_tail(p);
    assert(be64(ext, 0) == be64(p, 12));
    assert(be32(ext, 8) == be32(p, 20));
    assert(be32(ext, 12) == be32(p, 24));
    let none = no_extension();
    let a = reth(ext);
    let c = immdt(ext.skip(16));
    assert(a.used == 16);
    assert(a.fields + none.fields + c.fields =~= a.fields);
    assert(a.info + none.info + c.info =~= a.info + " ImmDt=<truncated>"@);
    assert(extensions(p[0], ext) == followed(followed(a, none), c));
    let l = bth(p, d, force, proto).tree.last();
    assert(l.children =~= bth_fields(p) + a.fields);
}

} // verus!
