//! Stateless dissection, one packet at a time. A dissection depends on the
//! packet and the options alone, so packets can be dissected in any order and
//! in parallel. Reassembly, conversation tracking and stream following would
//! need state and are left out.
//!
//! One pass gives two things: the summary columns ([`Summary`]) of one-line
//! output, and the protocol detail tree behind verbose output, extraction and
//! filters.

use vstd::prelude::*;
use vstd::slice::slice_subrange;

use crate::addr::{fmt_ipv4, fmt_ipv6, fmt_mac};
#[allow(unused_imports)]
use crate::addr::{ipv4_text, ipv6_text, mac_text};
use crate::bytes::{get_be16, get_be32, get_le32};
#[allow(unused_imports)]
use crate::bytes::{be16, be32, le32};
use crate::field::Node;
#[allow(unused_imports)]
use crate::field::{
    is_layer,
    layer,
    lemma_views_push,
    num,
    shows_number,
    shows_text,
    txt,
    views,
    with_child,
    NodeView,
};
use crate::pcap::{LinkType, RawPacket};
#[allow(unused_imports)]
use crate::pcap::PacketView;
use crate::roce::{dissect_grh, dissect_lrh, ROCE_V2_UDP_PORT};
#[allow(unused_imports)]
use crate::roce::{bit, bth, grh, lrh};
use crate::text::{cat2, cat3, cat4, cat5, cat6, dec, hexw, join, push_if};
#[allow(unused_imports)]
use crate::text::{dec_text, hex_fixed, joined, name_if, strings};
#[allow(unused_imports)]
use crate::analysis::number_in;
#[allow(unused_imports)]
use crate::transport::{is_silent_on, lemma_found_in_layer};

verus! {

/// The summary columns of one packet.
#[derive(Debug)]
pub struct Summary {
    pub src: String,
    pub dst: String,
    pub protocol: &'static str,
    pub info: String,
    pub length: u32,
}

/// What a [`Summary`] says.
pub ghost struct SummaryView {
    pub src: Seq<char>,
    pub dst: Seq<char>,
    pub protocol: Seq<char>,
    pub info: Seq<char>,
    pub length: u32,
}

impl View for Summary {
    type V = SummaryView;

    open spec fn view(&self) -> SummaryView {
        SummaryView {
            src: self.src@,
            dst: self.dst@,
            protocol: self.protocol@,
            info: self.info@,
            length: self.length,
        }
    }
}

impl Clone for Summary {
    fn clone(&self) -> (r: Self)
        ensures
            r@ == self@,
    {
        Summary {
            src: self.src.clone(),
            dst: self.dst.clone(),
            protocol: self.protocol,
            info: self.info.clone(),
            length: self.length,
        }
    }
}

/// Options that dissectors consult.
#[derive(Debug, Clone, Copy)]
pub struct DissectConfig {
    /// Decode every SEND capsule of reliable and unreliable connections as
    /// NVMe. Fabrics capsules are recognised in any case.
    pub nvme_force: bool,
}

impl Default for DissectConfig {
    fn default() -> (r: Self)
        ensures
            !r.nvme_force,
    {
        DissectConfig { nvme_force: false }
    }
}

/// The result of dissecting one packet: summary columns, and the detail tree
/// as a list of protocol layers, each with its fields below it.
#[derive(Debug)]
pub struct Dissection {
    pub summary: Summary,
    pub tree: Vec<Node>,
}

/// What a [`Dissection`] says.
pub ghost struct DissectionView {
    pub summary: SummaryView,
    pub tree: Seq<NodeView>,
}

impl View for Dissection {
    type V = DissectionView;

    open spec fn view(&self) -> DissectionView {
        DissectionView { summary: self.summary@, tree: views(self.tree@) }
    }
}

/// The dissection of a packet of which nothing has been looked at.
pub open spec fn undissected(length: u32) -> DissectionView {
    DissectionView {
        summary: SummaryView {
            src: Seq::empty(),
            dst: Seq::empty(),
            protocol: "UNKNOWN"@,
            info: Seq::empty(),
            length,
        },
        tree: Seq::empty(),
    }
}

/// A dissection with another protocol label.
pub open spec fn labelled(d: DissectionView, protocol: Seq<char>) -> DissectionView {
    DissectionView { summary: SummaryView { protocol, ..d.summary }, ..d }
}

/// A dissection with another info text.
pub open spec fn informed(d: DissectionView, info: Seq<char>) -> DissectionView {
    DissectionView { summary: SummaryView { info, ..d.summary }, ..d }
}

/// A dissection with other addresses.
pub open spec fn addressed(d: DissectionView, src: Seq<char>, dst: Seq<char>) -> DissectionView {
    DissectionView { summary: SummaryView { src, dst, ..d.summary }, ..d }
}

/// A dissection with one protocol layer more.
pub open spec fn layered(d: DissectionView, node: NodeView) -> DissectionView {
    DissectionView { tree: d.tree.push(node), ..d }
}

impl Dissection {
    fn new(length: u32) -> (r: Self)
        ensures
            r@ == undissected(length),
    {
        let r = Dissection {
            summary: Summary {
                src: String::new(),
                dst: String::new(),
                protocol: "UNKNOWN",
                info: String::new(),
                length,
            },
            tree: Vec::new(),
        };
        assert(r@.tree =~= Seq::empty());
        assert(r.summary.src@ =~= Seq::empty());
        r
    }

    /// Sets the protocol label.
    pub(crate) fn label(&mut self, protocol: &'static str)
        ensures
            final(self)@ == labelled(old(self)@, protocol@),
    {
        self.summary.protocol = protocol;
    }

    /// Sets the info text.
    pub(crate) fn inform(&mut self, info: String)
        ensures
            final(self)@ == informed(old(self)@, info@),
    {
        self.summary.info = info;
    }

    /// Sets the addresses.
    pub(crate) fn address(&mut self, src: String, dst: String)
        ensures
            final(self)@ == addressed(old(self)@, src@, dst@),
    {
        self.summary.src = src;
        self.summary.dst = dst;
    }

    /// Appends a protocol layer.
    pub(crate) fn push(&mut self, node: Node)
        ensures
            final(self)@ == layered(old(self)@, node@),
    {
        proof {
            lemma_views_push(self.tree@, node);
        }
        self.tree.push(node);
    }
}

pub const ETHERTYPE_IPV4: u16 = 0x0800;

pub const ETHERTYPE_ARP: u16 = 0x0806;

pub const ETHERTYPE_IPV6: u16 = 0x86dd;

pub const ETHERTYPE_VLAN: u16 = 0x8100;

/// IEEE 802.3x PAUSE and 802.1Qbb PFC.
pub const ETHERTYPE_FLOW_CONTROL: u16 = 0x8808;

/// RoCEv1: GRH and BTH directly on Ethernet.
pub const ETHERTYPE_ROCE: u16 = 0x8915;

pub const IPPROTO_ICMP: u8 = 1;

pub const IPPROTO_TCP: u8 = 6;

pub const IPPROTO_UDP: u8 = 17;

pub const IPPROTO_ICMPV6: u8 = 58;

// ---- MAC control ----

/// The pause time in a PAUSE frame, 0 where it is cut off.
pub open spec fn pause_quanta(p: Seq<u8>) -> nat {
    if p.len() >= 4 {
        be16(p, 2)
    } else {
        0
    }
}

/// An IEEE 802.3x PAUSE frame: one pause time, in quanta of 512 bit times.
pub open spec fn pause(p: Seq<u8>, d: DissectionView) -> DissectionView {
    let quanta = pause_quanta(p);
    layered(
        informed(labelled(d, "PAUSE"@), "MAC PAUSE: quanta="@ + dec_text(quanta)),
        layer(
            "MAC Control: Pause"@,
            seq![
                num("mac.control.opcode"@, 0x0001, "Opcode: Pause (0x0001)"@),
                num(
                    "mac.control.pause.time"@,
                    quanta,
                    "Pause Time: "@ + dec_text(quanta) + " quanta"@,
                ),
            ],
        ),
    )
}

/// The field name of a priority class.
pub open spec fn pfc_field(class: int) -> Seq<char> {
    if class == 0 {
        "pfc.time.prio0"@
    } else if class == 1 {
        "pfc.time.prio1"@
    } else if class == 2 {
        "pfc.time.prio2"@
    } else if class == 3 {
        "pfc.time.prio3"@
    } else if class == 4 {
        "pfc.time.prio4"@
    } else if class == 5 {
        "pfc.time.prio5"@
    } else if class == 6 {
        "pfc.time.prio6"@
    } else {
        "pfc.time.prio7"@
    }
}

/// The weight of a priority class in the class-enable vector.
pub open spec fn class_weight(class: int) -> u8 {
    if class == 0 {
        1
    } else if class == 1 {
        2
    } else if class == 2 {
        4
    } else if class == 3 {
        8
    } else if class == 4 {
        16
    } else if class == 5 {
        32
    } else if class == 6 {
        64
    } else {
        128
    }
}

/// Whether a priority class is paused.
pub open spec fn pfc_enabled(p: Seq<u8>, class: int) -> bool {
    bit(p[3], class_weight(class))
}

/// The pause time of a priority class, 0 where it is cut off.
pub open spec fn pfc_time(p: Seq<u8>, class: int) -> nat {
    if p.len() >= 6 + 2 * class {
        be16(p, 4 + 2 * class)
    } else {
        0
    }
}

/// The field of a priority class.
pub open spec fn pfc_class(p: Seq<u8>, class: int) -> NodeView {
    num(
        pfc_field(class),
        pfc_time(p, class),
        "Priority "@ + dec_text(class as nat) + ": "@ + (if pfc_enabled(p, class) {
            "enabled"@
        } else {
            "disabled"@
        }) + " time="@ + dec_text(pfc_time(p, class)),
    )
}

/// The paused ones of the first `n` priority classes, with their times.
pub open spec fn pfc_paused(p: Seq<u8>, n: nat) -> Seq<Seq<char>>
    decreases n,
{
    if n == 0 {
        seq![]
    } else {
        pfc_paused(p, (n - 1) as nat) + name_if(
            pfc_enabled(p, n - 1),
            "P"@ + dec_text((n - 1) as nat) + "="@ + dec_text(pfc_time(p, n - 1)),
        )
    }
}

/// An IEEE 802.1Qbb priority flow control frame: a vector that says which of
/// the eight priority classes are paused, and a time for each.
pub open spec fn pfc(p: Seq<u8>, d: DissectionView) -> DissectionView {
    if p.len() < 4 {
        informed(labelled(d, "PFC"@), "truncated PFC frame"@)
    } else {
        let paused = pfc_paused(p, 8);
        layered(
            informed(
                labelled(d, "PFC"@),
                if paused.len() == 0 {
                    "PFC: no classes paused"@
                } else {
                    "PFC pause: "@ + joined(paused, " "@)
                },
            ),
            layer(
                "MAC Control: Priority Flow Control (PFC)"@,
                seq![
                    num("mac.control.opcode"@, 0x0101, "Opcode: PFC (0x0101)"@),
                    num(
                        "pfc.enable"@,
                        p[3] as nat,
                        "Class Enable Vector: 0x"@ + hex_fixed(p[3] as nat, 2),
                    ),
                ] + Seq::new(8, |class: int| pfc_class(p, class)),
            ),
        )
    }
}

/// A MAC control frame, by its opcode.
pub open spec fn flow_control(p: Seq<u8>, d: DissectionView) -> DissectionView {
    let opcode = be16(p, 0);
    if p.len() < 2 {
        informed(labelled(d, "MAC CTRL"@), "truncated MAC Control frame"@)
    } else if opcode == 0x0001 {
        pause(p, d)
    } else if opcode == 0x0101 {
        pfc(p, d)
    } else {
        layered(
            informed(labelled(d, "MAC CTRL"@), "opcode 0x"@ + hex_fixed(opcode, 4)),
            layer(
                "MAC Control"@,
                seq![num("mac.control.opcode"@, opcode, "Opcode: 0x"@ + hex_fixed(opcode, 4))],
            ),
        )
    }
}

fn dissect_pause(data: &[u8], d: &mut Dissection)
    ensures
        final(d)@ == pause(data@, old(d)@),
{
    d.label("PAUSE");
    let quanta: u64 = if data.len() >= 4 {
        get_be16(data, 2) as u64
    } else {
        0
    };
    d.inform(cat2("MAC PAUSE: quanta=", &dec(quanta)));

    let mut node = Node::proto("MAC Control: Pause");
    node.add_num("mac.control.opcode", 0x0001, "Opcode: Pause (0x0001)");
    node.add_num(
        "mac.control.pause.time",
        quanta,
        &cat3("Pause Time: ", &dec(quanta), " quanta"),
    );
    assert(node@.children =~= pause(data@, old(d)@).tree.last().children);
    d.push(node);
}

fn pfc_field_name(class: usize) -> (r: &'static str)
    requires
        class < 8,
    ensures
        r@ == pfc_field(class as int),
{
    match class {
        0 => "pfc.time.prio0",
        1 => "pfc.time.prio1",
        2 => "pfc.time.prio2",
        3 => "pfc.time.prio3",
        4 => "pfc.time.prio4",
        5 => "pfc.time.prio5",
        6 => "pfc.time.prio6",
        _ => "pfc.time.prio7",
    }
}

fn class_bit(class: usize) -> (r: u8)
    requires
        class < 8,
    ensures
        r == class_weight(class as int),
        r > 0,
{
    match class {
        0 => 1,
        1 => 2,
        2 => 4,
        3 => 8,
        4 => 16,
        5 => 32,
        6 => 64,
        _ => 128,
    }
}

fn dissect_pfc(data: &[u8], d: &mut Dissection)
    ensures
        final(d)@ == pfc(data@, old(d)@),
{
    d.label("PFC");
    if data.len() < 4 {
        d.inform(String::from_str("truncated PFC frame"));
        return;
    }
    let enable = data[3];

    let mut node = Node::proto("MAC Control: Priority Flow Control (PFC)");
    node.add_num("mac.control.opcode", 0x0101, "Opcode: PFC (0x0101)");
    node.add_num(
        "pfc.enable",
        enable as u64,
        &cat2("Class Enable Vector: 0x", &hexw(enable as u64, 2)),
    );
    let ghost head = node@;
    let mut paused: Vec<String> = Vec::new();
    proof {
        assert(strings(paused@) =~= pfc_paused(data@, 0));
        assert(head.children =~= head.children + Seq::new(
            0,
            |class: int| pfc_class(data@, class),
        ));
    }
    for class in 0..8usize
        invariant
            data.len() >= 4,
            enable == data@[3],
            strings(paused@) == pfc_paused(data@, class as nat),
            node@ == (NodeView {
                children: head.children + Seq::new(
                    class as nat,
                    |class: int| pfc_class(data@, class),
                ),
                ..head
            }),
    {
        let time: u64 = if data.len() >= 6 + 2 * class {
            get_be16(data, 4 + 2 * class) as u64
        } else {
            0
        };
        let enabled = (enable / class_bit(class)) % 2 == 1;
        let class_text = dec(class as u64);
        let state = if enabled {
            "enabled"
        } else {
            "disabled"
        };
        node.add_num(
            pfc_field_name(class),
            time,
            &cat6("Priority ", &class_text, ": ", state, " time=", &dec(time)),
        );
        push_if(&mut paused, enabled, &cat4("P", &class_text, "=", &dec(time)));
        assert(node@.children =~= head.children + Seq::new(
            (class + 1) as nat,
            |class: int| pfc_class(data@, class),
        ));
    }
    assert(strings(paused@).len() == paused@.len());
    let info = if paused.len() == 0 {
        String::from_str("PFC: no classes paused")
    } else {
        cat2("PFC pause: ", &join(&paused, " "))
    };
    d.inform(info);
    assert(node@.children =~= pfc(data@, old(d)@).tree.last().children);
    d.push(node);
}

fn dissect_flow_control(data: &[u8], d: &mut Dissection)
    ensures
        final(d)@ == flow_control(data@, old(d)@),
{
    if data.len() < 2 {
        d.label("MAC CTRL");
        d.inform(String::from_str("truncated MAC Control frame"));
        return;
    }
    match get_be16(data, 0) {
        0x0001 => dissect_pause(data, d),
        0x0101 => dissect_pfc(data, d),
        other => {
            let opcode = hexw(other as u64, 4);
            d.label("MAC CTRL");
            d.inform(cat2("opcode 0x", &opcode));
            let mut node = Node::proto("MAC Control");
            node.add_num("mac.control.opcode", other as u64, &cat2("Opcode: 0x", &opcode));
            assert(node@.children =~= flow_control(data@, old(d)@).tree.last().children);
            d.push(node);
        },
    }
}

// ---- ARP ----

/// What an ARP packet asks or tells.
pub open spec fn arp_info(p: Seq<u8>) -> Seq<char> {
    let op = be16(p, 6);
    let sha = mac_text(p, 8);
    let spa = ipv4_text(p, 14);
    let tha = mac_text(p, 18);
    let tpa = ipv4_text(p, 24);
    if op == 1 {
        "Who has "@ + tpa + "? Tell "@ + spa
    } else if op == 2 {
        spa + " is at "@ + sha
    } else if op == 3 {
        "Reverse request for "@ + tha
    } else if op == 4 {
        "Reverse reply: "@ + tpa + " is at "@ + tha
    } else {
        "opcode "@ + dec_text(op)
    }
}

/// The layer of an ARP packet.
pub open spec fn arp_layer(p: Seq<u8>) -> NodeView {
    let op = be16(p, 6);
    let sha = mac_text(p, 8);
    let spa = ipv4_text(p, 14);
    let tha = mac_text(p, 18);
    let tpa = ipv4_text(p, 24);
    layer(
        "Address Resolution Protocol"@,
        seq![
            num("arp.opcode"@, op, "Opcode: "@ + dec_text(op)),
            txt("arp.src.hw_mac"@, sha, "Sender MAC address: "@ + sha),
            txt("arp.src.proto_ipv4"@, spa, "Sender IP address: "@ + spa),
            txt("arp.dst.hw_mac"@, tha, "Target MAC address: "@ + tha),
            txt("arp.dst.proto_ipv4"@, tpa, "Target IP address: "@ + tpa),
        ],
    )
}

/// An ARP packet.
pub open spec fn arp(p: Seq<u8>, d: DissectionView) -> DissectionView {
    if p.len() < 28 {
        informed(labelled(d, "ARP"@), "truncated ARP packet"@)
    } else {
        layered(
            informed(
                addressed(labelled(d, "ARP"@), ipv4_text(p, 14), ipv4_text(p, 24)),
                arp_info(p),
            ),
            arp_layer(p),
        )
    }
}

fn dissect_arp(data: &[u8], d: &mut Dissection)
    ensures
        final(d)@ == arp(data@, old(d)@),
{
    d.label("ARP");
    if data.len() < 28 {
        d.inform(String::from_str("truncated ARP packet"));
        return;
    }
    let op = get_be16(data, 6);
    let sha = fmt_mac(data, 8);
    let spa = fmt_ipv4(data, 14);
    let tha = fmt_mac(data, 18);
    let tpa = fmt_ipv4(data, 24);
    let info = match op {
        1 => cat4("Who has ", &tpa, "? Tell ", &spa),
        2 => cat3(&spa, " is at ", &sha),
        3 => cat2("Reverse request for ", &tha),
        4 => cat4("Reverse reply: ", &tpa, " is at ", &tha),
        other => cat2("opcode ", &dec(other as u64)),
    };
    d.inform(info);

    let mut node = Node::proto("Address Resolution Protocol");
    node.add_num("arp.opcode", op as u64, &cat2("Opcode: ", &dec(op as u64)));
    node.add_str("arp.src.hw_mac", &sha, &cat2("Sender MAC address: ", &sha));
    node.add_str("arp.src.proto_ipv4", &spa, &cat2("Sender IP address: ", &spa));
    node.add_str("arp.dst.hw_mac", &tha, &cat2("Target MAC address: ", &tha));
    node.add_str("arp.dst.proto_ipv4", &tpa, &cat2("Target IP address: ", &tpa));
    assert(node@.children =~= arp_layer(data@).children);
    d.address(spa, tpa);
    d.push(node);
}

// ---- TCP ----

/// The names of the flags that are set in a TCP header.
pub open spec fn tcp_flags(flags: u8) -> Seq<Seq<char>> {
    name_if(bit(flags, 0x01), "FIN"@) + name_if(bit(flags, 0x02), "SYN"@) + name_if(
        bit(flags, 0x04),
        "RST"@,
    ) + name_if(bit(flags, 0x08), "PSH"@) + name_if(bit(flags, 0x10), "ACK"@) + name_if(
        bit(flags, 0x20),
        "URG"@,
    ) + name_if(bit(flags, 0x40), "ECE"@) + name_if(bit(flags, 0x80), "CWR"@)
}

/// The bytes behind a TCP header.
pub open spec fn tcp_payload_len(p: Seq<u8>) -> nat {
    let offset = (p[12] / 16) * 4;
    if p.len() < offset {
        0
    } else {
        (p.len() - offset) as nat
    }
}

/// The summary of a TCP segment.
pub open spec fn tcp_info(p: Seq<u8>) -> Seq<char> {
    dec_text(be16(p, 0)) + " \u{2192} "@ + dec_text(be16(p, 2)) + " ["@ + joined(
        tcp_flags(p[13]),
        ", "@,
    ) + "]"@ + (" Seq="@ + dec_text(be32(p, 4)) + " Ack="@ + dec_text(be32(p, 8)) + " Win="@
        + dec_text(be16(p, 14))) + (" Len="@ + dec_text(tcp_payload_len(p)))
}

/// The layer of a TCP segment.
pub open spec fn tcp_layer(p: Seq<u8>) -> NodeView {
    let sport = be16(p, 0);
    let dport = be16(p, 2);
    let seqno = be32(p, 4);
    let ack = be32(p, 8);
    let flags = p[13] as nat;
    let window = be16(p, 14);
    let len = tcp_payload_len(p);
    layer(
        "Transmission Control Protocol, Src Port: "@ + dec_text(sport) + ", Dst Port: "@
            + dec_text(dport) + ", Seq: "@ + dec_text(seqno) + (", Len: "@ + dec_text(len)),
        seq![
            num("tcp.srcport"@, sport, "Source Port: "@ + dec_text(sport)),
            num("tcp.dstport"@, dport, "Destination Port: "@ + dec_text(dport)),
            num("tcp.seq"@, seqno, "Sequence Number: "@ + dec_text(seqno)),
            num("tcp.ack"@, ack, "Acknowledgment Number: "@ + dec_text(ack)),
            num(
                "tcp.flags"@,
                flags,
                "Flags: 0x"@ + hex_fixed(flags, 3) + " ["@ + joined(tcp_flags(p[13]), ", "@)
                    + "]"@,
            ),
            num("tcp.window_size"@, window, "Window: "@ + dec_text(window)),
            num("tcp.len"@, len, "TCP payload Length: "@ + dec_text(len)),
        ],
    )
}

/// A TCP segment.
pub open spec fn tcp(p: Seq<u8>, d: DissectionView) -> DissectionView {
    if p.len() < 20 {
        informed(labelled(d, "TCP"@), "truncated TCP header"@)
    } else {
        layered(informed(labelled(d, "TCP"@), tcp_info(p)), tcp_layer(p))
    }
}

fn tcp_flag_names(flags: u8) -> (r: String)
    ensures
        r@ == joined(tcp_flags(flags), ", "@),
{
    let mut names: Vec<String> = Vec::new();
    assert(strings(names@) =~= Seq::empty());
    push_if(&mut names, (flags / 0x01) % 2 == 1, "FIN");
    push_if(&mut names, (flags / 0x02) % 2 == 1, "SYN");
    push_if(&mut names, (flags / 0x04) % 2 == 1, "RST");
    push_if(&mut names, (flags / 0x08) % 2 == 1, "PSH");
    push_if(&mut names, (flags / 0x10) % 2 == 1, "ACK");
    push_if(&mut names, (flags / 0x20) % 2 == 1, "URG");
    push_if(&mut names, (flags / 0x40) % 2 == 1, "ECE");
    push_if(&mut names, (flags / 0x80) % 2 == 1, "CWR");
    assert(strings(names@) =~= tcp_flags(flags));
    join(&names, ", ")
}

fn dissect_tcp(data: &[u8], d: &mut Dissection)
    ensures
        final(d)@ == tcp(data@, old(d)@),
{
    d.label("TCP");
    if data.len() < 20 {
        d.inform(String::from_str("truncated TCP header"));
        return;
    }
    let sport = get_be16(data, 0) as u64;
    let dport = get_be16(data, 2) as u64;
    let seqno = get_be32(data, 4) as u64;
    let ack = get_be32(data, 8) as u64;
    let data_off = (data[12] / 16) as usize * 4;
    let flags = data[13];
    let window = get_be16(data, 14) as u64;
    let payload_len: u64 = if data.len() < data_off {
        0
    } else {
        (data.len() - data_off) as u64
    };
    let flag_names = tcp_flag_names(flags);
    let ports = cat6(&dec(sport), " \u{2192} ", &dec(dport), " [", &flag_names, "]");
    let numbers = cat6(" Seq=", &dec(seqno), " Ack=", &dec(ack), " Win=", &dec(window));
    d.inform(cat3(&ports, &numbers, &cat2(" Len=", &dec(payload_len))));

    let mut title = cat6(
        "Transmission Control Protocol, Src Port: ",
        &dec(sport),
        ", Dst Port: ",
        &dec(dport),
        ", Seq: ",
        &dec(seqno),
    );
    title.append(&cat2(", Len: ", &dec(payload_len)));
    let mut node = Node::proto(&title);
    node.add_num("tcp.srcport", sport, &cat2("Source Port: ", &dec(sport)));
    node.add_num("tcp.dstport", dport, &cat2("Destination Port: ", &dec(dport)));
    node.add_num("tcp.seq", seqno, &cat2("Sequence Number: ", &dec(seqno)));
    node.add_num("tcp.ack", ack, &cat2("Acknowledgment Number: ", &dec(ack)));
    node.add_num(
        "tcp.flags",
        flags as u64,
        &cat5("Flags: 0x", &hexw(flags as u64, 3), " [", &flag_names, "]"),
    );
    node.add_num("tcp.window_size", window, &cat2("Window: ", &dec(window)));
    node.add_num("tcp.len", payload_len, &cat2("TCP payload Length: ", &dec(payload_len)));
    assert(node@.children =~= tcp_layer(data@).children);
    d.push(node);
}

// ---- ICMP ----

/// What an ICMP message says.
pub open spec fn control_info(p: Seq<u8>) -> Seq<char> {
    let ty = p[0];
    let code = dec_text(p[1] as nat);
    if ty == 0 {
        "Echo (ping) reply"@
    } else if ty == 3 {
        "Destination unreachable (code "@ + code + ")"@
    } else if ty == 8 {
        "Echo (ping) request"@
    } else if ty == 11 {
        "Time-to-live exceeded (code "@ + code + ")"@
    } else {
        "type "@ + dec_text(ty as nat) + " code "@ + code
    }
}

/// An ICMP message.
pub open spec fn control_message(p: Seq<u8>, d: DissectionView) -> DissectionView {
    if p.len() < 4 {
        informed(labelled(d, "ICMP"@), "truncated"@)
    } else {
        layered(
            informed(labelled(d, "ICMP"@), control_info(p)),
            layer(
                "Internet Control Message Protocol"@,
                seq![
                    num("icmp.type"@, p[0] as nat, "Type: "@ + dec_text(p[0] as nat)),
                    num("icmp.code"@, p[1] as nat, "Code: "@ + dec_text(p[1] as nat)),
                ],
            ),
        )
    }
}

fn dissect_control_message(data: &[u8], d: &mut Dissection)
    ensures
        final(d)@ == control_message(data@, old(d)@),
{
    d.label("ICMP");
    if data.len() < 4 {
        d.inform(String::from_str("truncated"));
        return;
    }
    let ty = data[0];
    let ty_text = dec(ty as u64);
    let code = data[1];
    let code_text = dec(code as u64);
    let info = match ty {
        0 => String::from_str("Echo (ping) reply"),
        3 => cat3("Destination unreachable (code ", &code_text, ")"),
        8 => String::from_str("Echo (ping) request"),
        11 => cat3("Time-to-live exceeded (code ", &code_text, ")"),
        _ => cat4("type ", &ty_text, " code ", &code_text),
    };
    d.inform(info);

    let mut node = Node::proto("Internet Control Message Protocol");
    node.add_num("icmp.type", ty as u64, &cat2("Type: ", &ty_text));
    node.add_num("icmp.code", code as u64, &cat2("Code: ", &code_text));
    assert(node@.children =~= control_message(data@, old(d)@).tree.last().children);
    d.push(node);
}

/// What an ICMPv6 message says.
pub open spec fn control_info_v6(ty: u8) -> Seq<char> {
    if ty == 128 {
        "Echo Request"@
    } else if ty == 129 {
        "Echo Reply"@
    } else if ty == 133 {
        "Router Solicitation"@
    } else if ty == 134 {
        "Router Advertisement"@
    } else if ty == 135 {
        "Neighbor Solicitation"@
    } else if ty == 136 {
        "Neighbor Advertisement"@
    } else if ty == 137 {
        "Redirect"@
    } else {
        "type "@ + dec_text(ty as nat)
    }
}

/// An ICMPv6 message.
pub open spec fn control_message_v6(p: Seq<u8>, d: DissectionView) -> DissectionView {
    if p.len() < 4 {
        informed(labelled(d, "ICMPv6"@), "truncated"@)
    } else {
        layered(
            informed(labelled(d, "ICMPv6"@), control_info_v6(p[0])),
            layer(
                "Internet Control Message Protocol v6"@,
                seq![num("icmpv6.type"@, p[0] as nat, "Type: "@ + dec_text(p[0] as nat))],
            ),
        )
    }
}

fn dissect_control_message_v6(data: &[u8], d: &mut Dissection)
    ensures
        final(d)@ == control_message_v6(data@, old(d)@),
{
    d.label("ICMPv6");
    if data.len() < 4 {
        d.inform(String::from_str("truncated"));
        return;
    }
    let ty = data[0];
    let ty_text = dec(ty as u64);
    let info = match ty {
        128 => String::from_str("Echo Request"),
        129 => String::from_str("Echo Reply"),
        133 => String::from_str("Router Solicitation"),
        134 => String::from_str("Router Advertisement"),
        135 => String::from_str("Neighbor Solicitation"),
        136 => String::from_str("Neighbor Advertisement"),
        137 => String::from_str("Redirect"),
        _ => cat2("type ", &ty_text),
    };
    d.inform(info);

    let mut node = Node::proto("Internet Control Message Protocol v6");
    node.add_num("icmpv6.type", ty as u64, &cat2("Type: ", &ty_text));
    assert(node@.children =~= control_message_v6(data@, old(d)@).tree.last().children);
    d.push(node);
}

// ---- DNS ----

/// A byte of a domain name: itself where it is a graphic character, else a
/// question mark.
pub open spec fn name_char(b: u8) -> char {
    if 0x21 <= b <= 0x7e {
        b as char
    } else {
        '?'
    }
}

/// `n` bytes of `s` at `i` as a label of a domain name.
pub open spec fn label_text(s: Seq<u8>, i: int, n: nat) -> Seq<char> {
    Seq::new(n, |k: int| name_char(s[i + k]))
}

/// The labels of a domain name from `i` on, up to the empty label that ends
/// it. None where it is cut off or holds a compression pointer.
pub open spec fn labels(s: Seq<u8>, i: int) -> Option<Seq<Seq<char>>>
    decreases s.len() - i,
{
    if i < 0 || i >= s.len() {
        None
    } else if s[i] == 0 {
        Some(seq![])
    } else if s[i] >= 64 || i + 1 + s[i] > s.len() {
        None
    } else {
        match labels(s, i + 1 + s[i]) {
            Some(more) => Some(seq![label_text(s, i + 1, s[i] as nat)] + more),
            None => None,
        }
    }
}

/// The name in the first question of a DNS message: its labels with dots
/// between. None for the root.
pub open spec fn first_qname(s: Seq<u8>) -> Option<Seq<char>> {
    if s.len() < 12 {
        None
    } else {
        match labels(s, 12) {
            Some(ls) => if ls.len() == 0 {
                None
            } else {
                Some(joined(ls, "."@))
            },
            None => None,
        }
    }
}

fn qname_label(dns: &[u8], i: usize, n: usize) -> (r: String)
    requires
        i + n <= dns.len(),
    ensures
        r@ == label_text(dns@, i as int, n as nat),
{
    let mut out = String::new();
    for k in 0..n
        invariant
            i + n <= dns.len(),
            out@ =~= label_text(dns@, i as int, k as nat),
    {
        let b = dns[i + k];
        if 0x21 <= b && b <= 0x7e {
            out.push(b as char);
        } else {
            out.push('?');
        }
    }
    out
}

/// The name in the first question of a DNS message.
pub fn parse_first_qname(dns: &[u8]) -> (r: Option<String>)
    ensures
        match r {
            Some(s) => first_qname(dns@) == Some(s@),
            None => first_qname(dns@) is None,
        },
{
    if dns.len() < 12 {
        return None;
    }
    let mut i: usize = 12;
    let mut out: Vec<String> = Vec::new();
    proof {
        let all = labels(dns@, 12);
        if all is Some {
            assert(strings(out@) + all->0 =~= all->0);
        }
    }
    while i < dns.len()
        invariant
            12 <= i,
            dns.len() >= 12,
            labels(dns@, 12) == match labels(dns@, i as int) {
                Some(more) => Some(strings(out@) + more),
                None => None,
            },
        decreases dns.len() - i,
    {
        let n = dns[i] as usize;
        if n == 0 {
            assert(strings(out@) + seq![] =~= strings(out@));
            return if out.len() == 0 {
                None
            } else {
                Some(join(&out, "."))
            };
        }
        if n >= 64 || dns.len() - i - 1 < n {
            return None;
        }
        let label = qname_label(dns, i + 1, n);
        let ghost before = strings(out@);
        out.push(label);
        proof {
            assert(strings(out@) =~= before.push(label@));
            let more = labels(dns@, i + 1 + n);
            if more is Some {
                assert(strings(out@) + more->0 =~= before + (seq![label@] + more->0));
            }
        }
        i = i + 1 + n;
    }
    None
}

/// The kind of a DNS operation.
pub open spec fn dns_operation(op: nat) -> Seq<char> {
    if op == 0 {
        "standard"@
    } else if op == 1 {
        "inverse"@
    } else if op == 2 {
        "status"@
    } else if op == 4 {
        "notify"@
    } else if op == 5 {
        "update"@
    } else {
        "other"@
    }
}

/// A DNS message.
pub open spec fn dns(p: Seq<u8>, d: DissectionView) -> DissectionView {
    if p.len() < 12 {
        informed(labelled(d, "DNS"@), "truncated"@)
    } else {
        let txid = hex_fixed(be16(p, 0), 4);
        let flags = be16(p, 2);
        let qr = flags / 0x8000;
        let op = (flags / 0x800) % 16;
        let info = "0x"@ + txid + " "@ + dns_operation(op) + (if qr == 0 {
            " query qd="@
        } else {
            " response qd="@
        }) + dec_text(be16(p, 4)) + (" an="@ + dec_text(be16(p, 6)) + " rcode="@ + dec_text(
            flags % 16,
        ));
        let node = layer(
            "Domain Name System"@,
            seq![
                num("dns.id"@, be16(p, 0), "Transaction ID: 0x"@ + txid),
                num(
                    "dns.flags.response"@,
                    qr,
                    "Response: "@ + (if qr == 0 {
                        "Message is a query"@
                    } else {
                        "Message is a response"@
                    }),
                ),
            ],
        );
        match first_qname(p) {
            Some(name) => layered(
                informed(labelled(d, "DNS"@), info + (" "@ + name)),
                with_child(node, txt("dns.qry.name"@, name, "Name: "@ + name)),
            ),
            None => layered(informed(labelled(d, "DNS"@), info), node),
        }
    }
}

fn dns_operation_name(op: u16) -> (r: &'static str)
    ensures
        r@ == dns_operation(op as nat),
{
    match op {
        0 => "standard",
        1 => "inverse",
        2 => "status",
        4 => "notify",
        5 => "update",
        _ => "other",
    }
}

fn dissect_dns(data: &[u8], d: &mut Dissection)
    ensures
        final(d)@ == dns(data@, old(d)@),
{
    d.label("DNS");
    if data.len() < 12 {
        d.inform(String::from_str("truncated"));
        return;
    }
    let txid = get_be16(data, 0);
    let txid_text = hexw(txid as u64, 4);
    let flags = get_be16(data, 2);
    let qd = get_be16(data, 4);
    let an = get_be16(data, 6);
    let qr = flags / 0x8000;
    let op = (flags / 0x800) % 16;
    let rcode = flags % 16;
    let opname = dns_operation_name(op);
    let kind = if qr == 0 {
        " query qd="
    } else {
        " response qd="
    };
    let mut info = cat6("0x", &txid_text, " ", opname, kind, &dec(qd as u64));
    info.append(&cat4(" an=", &dec(an as u64), " rcode=", &dec(rcode as u64)));

    let mut node = Node::proto("Domain Name System");
    node.add_num("dns.id", txid as u64, &cat2("Transaction ID: 0x", &txid_text));
    node.add_num(
        "dns.flags.response",
        qr as u64,
        &cat2(
            "Response: ",
            if qr == 0 {
                "Message is a query"
            } else {
                "Message is a response"
            },
        ),
    );
    if let Some(qname) = parse_first_qname(data) {
        info.append(&cat2(" ", &qname));
        node.add_str("dns.qry.name", &qname, &cat2("Name: ", &qname));
    }
    d.inform(info);
    assert(node@.children =~= dns(data@, old(d)@).tree.last().children);
    d.push(node);
}

// ---- UDP ----

/// The layer of a UDP datagram.
pub open spec fn udp_layer(p: Seq<u8>) -> NodeView {
    let sport = be16(p, 0);
    let dport = be16(p, 2);
    let length = be16(p, 4);
    layer(
        "User Datagram Protocol, Src Port: "@ + dec_text(sport) + ", Dst Port: "@ + dec_text(
            dport,
        ),
        seq![
            num("udp.srcport"@, sport, "Source Port: "@ + dec_text(sport)),
            num("udp.dstport"@, dport, "Destination Port: "@ + dec_text(dport)),
            num("udp.length"@, length, "Length: "@ + dec_text(length)),
        ],
    )
}

/// A UDP datagram. RoCE and DNS payloads are decoded, a few other well-known
/// ports only name the protocol.
pub open spec fn udp(p: Seq<u8>, d: DissectionView, force: bool) -> DissectionView {
    if p.len() < 8 {
        informed(labelled(d, "UDP"@), "truncated UDP header"@)
    } else {
        let sport = be16(p, 0);
        let dport = be16(p, 2);
        let length = be16(p, 4);
        let body = if length < 8 {
            0
        } else {
            (length - 8) as nat
        };
        let payload = p.skip(8);
        let here = layered(
            informed(
                labelled(d, "UDP"@),
                dec_text(sport) + " \u{2192} "@ + dec_text(dport) + "  Len="@ + dec_text(body),
            ),
            udp_layer(p),
        );
        if dport == ROCE_V2_UDP_PORT || sport == ROCE_V2_UDP_PORT {
            bth(payload, here, force, "RoCE"@)
        } else if sport == 53 || dport == 53 {
            dns(payload, here)
        } else if sport == 67 || sport == 68 || dport == 67 || dport == 68 {
            labelled(here, "DHCP"@)
        } else if sport == 123 || dport == 123 {
            labelled(here, "NTP"@)
        } else if sport == 5353 || dport == 5353 {
            labelled(here, "MDNS"@)
        } else {
            here
        }
    }
}

fn dissect_udp(data: &[u8], d: &mut Dissection, cfg: &DissectConfig)
    ensures
        final(d)@ == udp(data@, old(d)@, cfg.nvme_force),
{
    d.label("UDP");
    if data.len() < 8 {
        d.inform(String::from_str("truncated UDP header"));
        return;
    }
    let sport = get_be16(data, 0);
    let dport = get_be16(data, 2);
    let length = get_be16(data, 4);
    let sport_text = dec(sport as u64);
    let dport_text = dec(dport as u64);
    let body: u16 = if length < 8 {
        0
    } else {
        length - 8
    };
    d.inform(cat5(&sport_text, " \u{2192} ", &dport_text, "  Len=", &dec(body as u64)));

    let mut node = Node::proto(
        &cat4(
            "User Datagram Protocol, Src Port: ",
            &sport_text,
            ", Dst Port: ",
            &dport_text,
        ),
    );
    node.add_num("udp.srcport", sport as u64, &cat2("Source Port: ", &sport_text));
    node.add_num("udp.dstport", dport as u64, &cat2("Destination Port: ", &dport_text));
    node.add_num("udp.length", length as u64, &cat2("Length: ", &dec(length as u64)));
    assert(node@.children =~= udp_layer(data@).children);
    d.push(node);

    let payload = slice_subrange(data, 8, data.len());
    assert(payload@ =~= data@.skip(8));
    if dport == ROCE_V2_UDP_PORT || sport == ROCE_V2_UDP_PORT {
        crate::roce::dissect(payload, d, cfg);
    } else if sport == 53 || dport == 53 {
        dissect_dns(payload, d);
    } else if sport == 67 || sport == 68 || dport == 67 || dport == 68 {
        d.label("DHCP");
    } else if sport == 123 || dport == 123 {
        d.label("NTP");
    } else if sport == 5353 || dport == 5353 {
        d.label("MDNS");
    }
}

// ---- IP ----

/// The name of an ECN codepoint.
pub open spec fn ecn_text(ecn: nat) -> Seq<char> {
    if ecn == 0 {
        "Not-ECT"@
    } else if ecn == 1 {
        "ECT(1)"@
    } else if ecn == 2 {
        "ECT(0)"@
    } else {
        "CE"@
    }
}

/// The name of an IP protocol number.
pub open spec fn ip_proto(proto: u8) -> Seq<char> {
    if proto == IPPROTO_ICMP {
        "ICMP"@
    } else if proto == IPPROTO_TCP {
        "TCP"@
    } else if proto == IPPROTO_UDP {
        "UDP"@
    } else if proto == IPPROTO_ICMPV6 {
        "IPv6-ICMP"@
    } else {
        "Unknown"@
    }
}

fn ecn_name(ecn: u8) -> (r: &'static str)
    requires
        ecn < 4,
    ensures
        r@ == ecn_text(ecn as nat),
{
    match ecn {
        0 => "Not-ECT",
        1 => "ECT(1)",
        2 => "ECT(0)",
        _ => "CE",
    }
}

fn ip_proto_name(proto: u8) -> (r: &'static str)
    ensures
        r@ == ip_proto(proto),
{
    match proto {
        IPPROTO_ICMP => "ICMP",
        IPPROTO_TCP => "TCP",
        IPPROTO_UDP => "UDP",
        IPPROTO_ICMPV6 => "IPv6-ICMP",
        _ => "Unknown",
    }
}

/// The header length of an IPv4 packet, in bytes.
pub open spec fn ipv4_header_len(p: Seq<u8>) -> nat {
    ((p[0] % 16) * 4) as nat
}

/// The layer of an IPv4 packet.
pub open spec fn ipv4_layer(p: Seq<u8>) -> NodeView {
    let ihl = ipv4_header_len(p);
    let ecn = (p[1] % 4) as nat;
    let total = be16(p, 2);
    let ttl = p[8] as nat;
    let proto = p[9] as nat;
    let src = ipv4_text(p, 12);
    let dst = ipv4_text(p, 16);
    layer(
        "Internet Protocol Version 4, Src: "@ + src + ", Dst: "@ + dst,
        seq![
            num("ip.version"@, 4, "Version: 4"@),
            num(
                "ip.hdr_len"@,
                ihl,
                "Header Length: "@ + dec_text(ihl) + " bytes ("@ + dec_text(ihl / 4) + ")"@,
            ),
            num(
                "ip.dsfield.ecn"@,
                ecn,
                "ECN: 0x"@ + hex_fixed(ecn, 2) + " ("@ + ecn_text(ecn) + ")"@,
            ),
            num("ip.len"@, total, "Total Length: "@ + dec_text(total)),
            num("ip.ttl"@, ttl, "Time to Live: "@ + dec_text(ttl)),
            num(
                "ip.proto"@,
                proto,
                "Protocol: "@ + ip_proto(p[9]) + " ("@ + dec_text(proto) + ")"@,
            ),
            txt("ip.src"@, src, "Source Address: "@ + src),
            txt("ip.dst"@, dst, "Destination Address: "@ + dst),
        ],
    )
}

/// The payload of an IPv4 packet: from the end of the header to the total
/// length, which is 0 (unknown) in segmentation-offload captures.
pub open spec fn ipv4_payload(p: Seq<u8>) -> Seq<u8> {
    let ihl = ipv4_header_len(p) as int;
    let total = be16(p, 2) as int;
    let end = if total == 0 || total > p.len() {
        p.len() as int
    } else {
        total
    };
    p.subrange(
        ihl,
        if end < ihl {
            ihl
        } else {
            end
        },
    )
}

/// An IPv4 packet.
pub open spec fn ipv4(p: Seq<u8>, d: DissectionView, force: bool) -> DissectionView {
    let ihl = ipv4_header_len(p);
    if p.len() < 20 {
        informed(labelled(d, "IPv4"@), "truncated IPv4 header"@)
    } else if ihl < 20 || p.len() < ihl {
        informed(labelled(d, "IPv4"@), "bad IPv4 header length"@)
    } else {
        let payload = ipv4_payload(p);
        let here = layered(
            addressed(labelled(d, "IPv4"@), ipv4_text(p, 12), ipv4_text(p, 16)),
            ipv4_layer(p),
        );
        if p[9] == IPPROTO_ICMP {
            control_message(payload, here)
        } else if p[9] == IPPROTO_TCP {
            tcp(payload, here)
        } else if p[9] == IPPROTO_UDP {
            udp(payload, here, force)
        } else {
            informed(here, "proto "@ + dec_text(p[9] as nat))
        }
    }
}

fn ipv4_node(p: &[u8], src: &str, dst: &str) -> (r: Node)
    requires
        p.len() >= 20,
        src@ == ipv4_text(p@, 12),
        dst@ == ipv4_text(p@, 16),
    ensures
        r@ == ipv4_layer(p@),
{
    let ihl = (p[0] % 16) as u64 * 4;
    let ecn = p[1] % 4;
    let total = get_be16(p, 2) as u64;
    let ttl = p[8] as u64;
    let proto = p[9];
    let mut node = Node::proto(
        &cat4("Internet Protocol Version 4, Src: ", src, ", Dst: ", dst),
    );
    node.add_num("ip.version", 4, "Version: 4");
    node.add_num(
        "ip.hdr_len",
        ihl,
        &cat5("Header Length: ", &dec(ihl), " bytes (", &dec(ihl / 4), ")"),
    );
    node.add_num(
        "ip.dsfield.ecn",
        ecn as u64,
        &cat5("ECN: 0x", &hexw(ecn as u64, 2), " (", ecn_name(ecn), ")"),
    );
    node.add_num("ip.len", total, &cat2("Total Length: ", &dec(total)));
    node.add_num("ip.ttl", ttl, &cat2("Time to Live: ", &dec(ttl)));
    node.add_num(
        "ip.proto",
        proto as u64,
        &cat5("Protocol: ", ip_proto_name(proto), " (", &dec(proto as u64), ")"),
    );
    node.add_str("ip.src", src, &cat2("Source Address: ", src));
    node.add_str("ip.dst", dst, &cat2("Destination Address: ", dst));
    assert(node@.children =~= ipv4_layer(p@).children);
    node
}

fn dissect_ipv4(data: &[u8], d: &mut Dissection, cfg: &DissectConfig)
    ensures
        final(d)@ == ipv4(data@, old(d)@, cfg.nvme_force),
{
    d.label("IPv4");
    if data.len() < 20 {
        d.inform(String::from_str("truncated IPv4 header"));
        return;
    }
    let ihl = (data[0] % 16) as usize * 4;
    if ihl < 20 || data.len() < ihl {
        d.inform(String::from_str("bad IPv4 header length"));
        return;
    }
    let total_len = get_be16(data, 2) as usize;
    let proto = data[9];
    let src = fmt_ipv4(data, 12);
    let dst = fmt_ipv4(data, 16);
    let node = ipv4_node(data, &src, &dst);
    d.address(src, dst);
    d.push(node);

    let end = if total_len == 0 || total_len > data.len() {
        data.len()
    } else {
        total_len
    };
    let payload = slice_subrange(
        data,
        ihl,
        if end < ihl {
            ihl
        } else {
            end
        },
    );
    assert(payload@ == ipv4_payload(data@));
    match proto {
        IPPROTO_ICMP => dissect_control_message(payload, d),
        IPPROTO_TCP => dissect_tcp(payload, d),
        IPPROTO_UDP => dissect_udp(payload, d, cfg),
        other => d.inform(cat2("proto ", &dec(other as u64))),
    }
}

/// The layer of an IPv6 packet.
pub open spec fn ipv6_layer(p: Seq<u8>) -> NodeView {
    let ecn = ((p[1] / 16) % 4) as nat;
    let plen = be16(p, 4);
    let next = p[6] as nat;
    let hops = p[7] as nat;
    let src = ipv6_text(p, 8);
    let dst = ipv6_text(p, 24);
    layer(
        "Internet Protocol Version 6, Src: "@ + src + ", Dst: "@ + dst,
        seq![
            num("ipv6.version"@, 6, "Version: 6"@),
            num(
                "ipv6.dsfield.ecn"@,
                ecn,
                "ECN: 0x"@ + hex_fixed(ecn, 2) + " ("@ + ecn_text(ecn) + ")"@,
            ),
            num("ipv6.plen"@, plen, "Payload Length: "@ + dec_text(plen)),
            num(
                "ipv6.nxt"@,
                next,
                "Next Header: "@ + ip_proto(p[6]) + " ("@ + dec_text(next) + ")"@,
            ),
            num("ipv6.hlim"@, hops, "Hop Limit: "@ + dec_text(hops)),
            txt("ipv6.src"@, src, "Source Address: "@ + src),
            txt("ipv6.dst"@, dst, "Destination Address: "@ + dst),
        ],
    )
}

/// The payload of an IPv6 packet, as far as it was captured.
pub open spec fn ipv6_payload(p: Seq<u8>) -> Seq<u8> {
    let end = 40 + be16(p, 4) as int;
    p.subrange(
        40,
        if end > p.len() {
            p.len() as int
        } else {
            end
        },
    )
}

/// An IPv6 packet.
pub open spec fn ipv6(p: Seq<u8>, d: DissectionView, force: bool) -> DissectionView {
    if p.len() < 40 {
        informed(labelled(d, "IPv6"@), "truncated IPv6 header"@)
    } else {
        let payload = ipv6_payload(p);
        let here = layered(
            addressed(labelled(d, "IPv6"@), ipv6_text(p, 8), ipv6_text(p, 24)),
            ipv6_layer(p),
        );
        if p[6] == IPPROTO_TCP {
            tcp(payload, here)
        } else if p[6] == IPPROTO_UDP {
            udp(payload, here, force)
        } else if p[6] == IPPROTO_ICMPV6 {
            control_message_v6(payload, here)
        } else {
            informed(here, "next header "@ + dec_text(p[6] as nat))
        }
    }
}

fn ipv6_node(p: &[u8], src: &str, dst: &str) -> (r: Node)
    requires
        p.len() >= 40,
        src@ == ipv6_text(p@, 8),
        dst@ == ipv6_text(p@, 24),
    ensures
        r@ == ipv6_layer(p@),
{
    let ecn = (p[1] / 16) % 4;
    let plen = get_be16(p, 4) as u64;
    let next = p[6];
    let hops = p[7] as u64;
    let mut node = Node::proto(
        &cat4("Internet Protocol Version 6, Src: ", src, ", Dst: ", dst),
    );
    node.add_num("ipv6.version", 6, "Version: 6");
    node.add_num(
        "ipv6.dsfield.ecn",
        ecn as u64,
        &cat5("ECN: 0x", &hexw(ecn as u64, 2), " (", ecn_name(ecn), ")"),
    );
    node.add_num("ipv6.plen", plen, &cat2("Payload Length: ", &dec(plen)));
    node.add_num(
        "ipv6.nxt",
        next as u64,
        &cat5("Next Header: ", ip_proto_name(next), " (", &dec(next as u64), ")"),
    );
    node.add_num("ipv6.hlim", hops, &cat2("Hop Limit: ", &dec(hops)));
    node.add_str("ipv6.src", src, &cat2("Source Address: ", src));
    node.add_str("ipv6.dst", dst, &cat2("Destination Address: ", dst));
    assert(node@.children =~= ipv6_layer(p@).children);
    node
}

fn dissect_ipv6(data: &[u8], d: &mut Dissection, cfg: &DissectConfig)
    ensures
        final(d)@ == ipv6(data@, old(d)@, cfg.nvme_force),
{
    d.label("IPv6");
    if data.len() < 40 {
        d.inform(String::from_str("truncated IPv6 header"));
        return;
    }
    let next_header = data[6];
    let payload_len = get_be16(data, 4) as usize;
    let src = fmt_ipv6(data, 8);
    let dst = fmt_ipv6(data, 24);
    let node = ipv6_node(data, &src, &dst);
    d.address(src, dst);
    d.push(node);

    let payload = slice_subrange(
        data,
        40,
        if 40 + payload_len > data.len() {
            data.len()
        } else {
            40 + payload_len
        },
    );
    assert(payload@ == ipv6_payload(data@));
    match next_header {
        IPPROTO_TCP => dissect_tcp(payload, d),
        IPPROTO_UDP => dissect_udp(payload, d, cfg),
        IPPROTO_ICMPV6 => dissect_control_message_v6(payload, d),
        other => d.inform(cat2("next header ", &dec(other as u64))),
    }
}

/// A packet that starts with an IP header of either version.
pub open spec fn ip_auto(p: Seq<u8>, d: DissectionView, force: bool) -> DissectionView {
    let version = p[0] / 16;
    if p.len() == 0 {
        d
    } else if version == 4 {
        ipv4(p, d, force)
    } else if version == 6 {
        ipv6(p, d, force)
    } else {
        informed(labelled(d, "IP"@), "unknown IP version "@ + dec_text(version as nat))
    }
}

fn dissect_ip_auto(data: &[u8], d: &mut Dissection, cfg: &DissectConfig)
    ensures
        final(d)@ == ip_auto(data@, old(d)@, cfg.nvme_force),
{
    if data.len() == 0 {
        return;
    }
    match data[0] / 16 {
        4 => dissect_ipv4(data, d, cfg),
        6 => dissect_ipv6(data, d, cfg),
        other => {
            d.label("IP");
            d.inform(cat2("unknown IP version ", &dec(other as u64)));
        },
    }
}

// ---- link layers ----

/// The name of an ethertype.
pub open spec fn ethertype(etype: nat) -> Seq<char> {
    if etype == ETHERTYPE_IPV4 {
        "IPv4"@
    } else if etype == ETHERTYPE_IPV6 {
        "IPv6"@
    } else if etype == ETHERTYPE_ARP {
        "ARP"@
    } else if etype == ETHERTYPE_VLAN {
        "802.1Q Virtual LAN"@
    } else if etype == ETHERTYPE_FLOW_CONTROL {
        "MAC Control"@
    } else if etype == ETHERTYPE_ROCE {
        "RoCE"@
    } else {
        "Unknown"@
    }
}

fn ethertype_name(etype: u16) -> (r: &'static str)
    ensures
        r@ == ethertype(etype as nat),
{
    match etype {
        ETHERTYPE_IPV4 => "IPv4",
        ETHERTYPE_IPV6 => "IPv6",
        ETHERTYPE_ARP => "ARP",
        ETHERTYPE_VLAN => "802.1Q Virtual LAN",
        ETHERTYPE_FLOW_CONTROL => "MAC Control",
        ETHERTYPE_ROCE => "RoCE",
        _ => "Unknown",
    }
}

/// The layer of an Ethernet frame with a given ethertype.
pub open spec fn ethernet_layer(p: Seq<u8>, etype: nat) -> NodeView {
    let dst = mac_text(p, 0);
    let src = mac_text(p, 6);
    layer(
        "Ethernet II, Src: "@ + src + ", Dst: "@ + dst,
        seq![
            txt("eth.dst"@, dst, "Destination: "@ + dst),
            txt("eth.src"@, src, "Source: "@ + src),
            num(
                "eth.type"@,
                etype,
                "Type: "@ + ethertype(etype) + " (0x"@ + hex_fixed(etype, 4) + ")"@,
            ),
        ],
    )
}

/// An Ethernet frame: addresses, one VLAN tag where there is one, ethertype,
/// payload.
pub open spec fn ethernet(p: Seq<u8>, d: DissectionView, force: bool) -> DissectionView {
    if p.len() < 14 {
        informed(labelled(d, "ETH"@), "truncated ethernet header"@)
    } else {
        let tagged = be16(p, 12) == ETHERTYPE_VLAN && p.len() >= 18;
        let etype = if tagged {
            be16(p, 16)
        } else {
            be16(p, 12)
        };
        let payload = if tagged {
            p.skip(18)
        } else {
            p.skip(14)
        };
        let here = layered(
            addressed(labelled(d, "ETH"@), mac_text(p, 6), mac_text(p, 0)),
            ethernet_layer(p, etype),
        );
        if etype == ETHERTYPE_IPV4 {
            ipv4(payload, here, force)
        } else if etype == ETHERTYPE_IPV6 {
            ipv6(payload, here, force)
        } else if etype == ETHERTYPE_ARP {
            arp(payload, here)
        } else if etype == ETHERTYPE_FLOW_CONTROL {
            flow_control(payload, here)
        } else if etype == ETHERTYPE_ROCE {
            grh(payload, here, force, "RoCE"@)
        } else if d.summary.info.len() == 0 {
            informed(here, "ethertype 0x"@ + hex_fixed(etype, 4))
        } else {
            here
        }
    }
}

fn dissect_ethernet(data: &[u8], d: &mut Dissection, cfg: &DissectConfig)
    ensures
        final(d)@ == ethernet(data@, old(d)@, cfg.nvme_force),
{
    d.label("ETH");
    if data.len() < 14 {
        d.inform(String::from_str("truncated ethernet header"));
        return;
    }
    let dst = fmt_mac(data, 0);
    let src = fmt_mac(data, 6);
    let mut etype = get_be16(data, 12);
    let mut off: usize = 14;
    if etype == ETHERTYPE_VLAN && data.len() >= 18 {
        etype = get_be16(data, 16);
        off = 18;
    }

    let mut node = Node::proto(&cat4("Ethernet II, Src: ", &src, ", Dst: ", &dst));
    node.add_str("eth.dst", &dst, &cat2("Destination: ", &dst));
    node.add_str("eth.src", &src, &cat2("Source: ", &src));
    node.add_num(
        "eth.type",
        etype as u64,
        &cat5("Type: ", ethertype_name(etype), " (0x", &hexw(etype as u64, 4), ")"),
    );
    assert(node@.children =~= ethernet_layer(data@, etype as nat).children);
    d.address(src, dst);
    d.push(node);

    let payload = slice_subrange(data, off, data.len());
    assert(payload@ =~= data@.skip(off as int));
    match etype {
        ETHERTYPE_IPV4 => dissect_ipv4(payload, d, cfg),
        ETHERTYPE_IPV6 => dissect_ipv6(payload, d, cfg),
        ETHERTYPE_ARP => dissect_arp(payload, d),
        ETHERTYPE_FLOW_CONTROL => dissect_flow_control(payload, d),
        ETHERTYPE_ROCE => dissect_grh(payload, d, cfg, "RoCE"),
        other => {
            if d.summary.info.as_str().unicode_len() == 0 {
                d.inform(cat2("ethertype 0x", &hexw(other as u64, 4)));
            }
        },
    }
}

/// BSD loopback: a protocol family in the byte order of the host, then an IP
/// packet. IPv6 has several family numbers.
pub open spec fn null(p: Seq<u8>, d: DissectionView, force: bool) -> DissectionView {
    let le = le32(p, 0);
    let be = be32(p, 0);
    let payload = p.skip(4);
    if p.len() < 4 {
        labelled(d, "NULL"@)
    } else if le == 2 || be == 2 {
        ipv4(payload, d, force)
    } else if le == 24 || be == 24 || le == 28 || be == 28 || le == 30 || be == 30 {
        ipv6(payload, d, force)
    } else {
        informed(labelled(d, "NULL"@), "family 0x"@ + hex_fixed(le, 8))
    }
}

fn dissect_null(data: &[u8], d: &mut Dissection, cfg: &DissectConfig)
    ensures
        final(d)@ == null(data@, old(d)@, cfg.nvme_force),
{
    if data.len() < 4 {
        d.label("NULL");
        return;
    }
    let le = get_le32(data, 0);
    let be = get_be32(data, 0);
    let payload = slice_subrange(data, 4, data.len());
    assert(payload@ =~= data@.skip(4));
    if le == 2 || be == 2 {
        dissect_ipv4(payload, d, cfg);
    } else if le == 24 || be == 24 || le == 28 || be == 28 || le == 30 || be == 30 {
        dissect_ipv6(payload, d, cfg);
    } else {
        d.label("NULL");
        d.inform(cat2("family 0x", &hexw(le as u64, 8)));
    }
}

/// Linux cooked capture: 16 bytes that end in an ethertype, then the payload.
pub open spec fn linux_sll(p: Seq<u8>, d: DissectionView, force: bool) -> DissectionView {
    let etype = be16(p, 14);
    let payload = p.skip(16);
    if p.len() < 16 {
        labelled(d, "SLL"@)
    } else if etype == ETHERTYPE_IPV4 {
        ipv4(payload, d, force)
    } else if etype == ETHERTYPE_IPV6 {
        ipv6(payload, d, force)
    } else if etype == ETHERTYPE_ARP {
        arp(payload, d)
    } else {
        informed(labelled(d, "SLL"@), "ethertype 0x"@ + hex_fixed(etype, 4))
    }
}

fn dissect_linux_sll(data: &[u8], d: &mut Dissection, cfg: &DissectConfig)
    ensures
        final(d)@ == linux_sll(data@, old(d)@, cfg.nvme_force),
{
    if data.len() < 16 {
        d.label("SLL");
        return;
    }
    let payload = slice_subrange(data, 16, data.len());
    assert(payload@ =~= data@.skip(16));
    match get_be16(data, 14) {
        ETHERTYPE_IPV4 => dissect_ipv4(payload, d, cfg),
        ETHERTYPE_IPV6 => dissect_ipv6(payload, d, cfg),
        ETHERTYPE_ARP => dissect_arp(payload, d),
        other => {
            d.label("SLL");
            d.inform(cat2("ethertype 0x", &hexw(other as u64, 4)));
        },
    }
}

// ---- packets ----

/// The dissection of a packet, by its link type.
pub open spec fn dissected(pkt: PacketView, force: bool) -> DissectionView {
    let d = undissected(pkt.orig_len);
    match pkt.link_type {
        LinkType::Ethernet => ethernet(pkt.data, d, force),
        LinkType::RawIp => ip_auto(pkt.data, d, force),
        LinkType::Null => null(pkt.data, d, force),
        LinkType::LinuxSll => linux_sll(pkt.data, d, force),
        LinkType::Infiniband => lrh(pkt.data, d, force),
        LinkType::Other(n) => informed(
            labelled(d, "LINK"@),
            "unsupported DLT "@ + dec_text(n as nat) + ", "@ + dec_text(pkt.data.len())
                + " bytes"@,
        ),
    }
}

/// Dissects one packet.
pub fn dissect(pkt: &RawPacket, cfg: &DissectConfig) -> (d: Dissection)
    ensures
        d@ == dissected(pkt@, cfg.nvme_force),
{
    let mut d = Dissection::new(pkt.orig_len);
    let data = pkt.data.as_slice();
    match pkt.link_type {
        LinkType::Ethernet => dissect_ethernet(data, &mut d, cfg),
        LinkType::RawIp => dissect_ip_auto(data, &mut d, cfg),
        LinkType::Null => dissect_null(data, &mut d, cfg),
        LinkType::LinuxSll => dissect_linux_sll(data, &mut d, cfg),
        LinkType::Infiniband => dissect_lrh(data, &mut d, cfg),
        LinkType::Other(n) => {
            d.label("LINK");
            d.inform(
                cat5(
                    "unsupported DLT ",
                    &dec(n as u64),
                    ", ",
                    &dec(data.len() as u64),
                    " bytes",
                ),
            );
        },
    }
    d
}

// ---- laws ----

proof fn lemma_grh_length(p: Seq<u8>, d: DissectionView, force: bool, proto: Seq<char>)
    ensures
        grh(p, d, force, proto).summary.length == d.summary.length,
{
}

proof fn lemma_udp_length(p: Seq<u8>, d: DissectionView, force: bool)
    ensures
        udp(p, d, force).summary.length == d.summary.length,
{
}

proof fn lemma_ipv4_length(p: Seq<u8>, d: DissectionView, force: bool)
    ensures
        ipv4(p, d, force).summary.length == d.summary.length,
{
    let payload = ipv4_payload(p);
    let here = layered(
        addressed(labelled(d, "IPv4"@), ipv4_text(p, 12), ipv4_text(p, 16)),
        ipv4_layer(p),
    );
    lemma_udp_length(payload, here, force);
}

proof fn lemma_ipv6_length(p: Seq<u8>, d: DissectionView, force: bool)
    ensures
        ipv6(p, d, force).summary.length == d.summary.length,
{
    let payload = ipv6_payload(p);
    let here = layered(
        addressed(labelled(d, "IPv6"@), ipv6_text(p, 8), ipv6_text(p, 24)),
        ipv6_layer(p),
    );
    lemma_udp_length(payload, here, force);
}

proof fn lemma_ethernet_length(p: Seq<u8>, d: DissectionView, force: bool)
    ensures
        ethernet(p, d, force).summary.length == d.summary.length,
{
    let tagged = be16(p, 12) == ETHERTYPE_VLAN && p.len() >= 18;
    let etype = if tagged {
        be16(p, 16)
    } else {
        be16(p, 12)
    };
    let payload = if tagged {
        p.skip(18)
    } else {
        p.skip(14)
    };
    let here = layered(
        addressed(labelled(d, "ETH"@), mac_text(p, 6), mac_text(p, 0)),
        ethernet_layer(p, etype),
    );
    lemma_ipv4_length(payload, here, force);
    lemma_ipv6_length(payload, here, force);
    lemma_grh_length(payload, here, force, "RoCE"@);
}

proof fn lemma_lrh_length(p: Seq<u8>, d: DissectionView, force: bool)
    ensures
        lrh(p, d, force).summary.length == d.summary.length,
{
}

/// Whatever a packet holds, its length column is its length on the wire.
pub proof fn law_length_is_kept(pkt: PacketView, force: bool)
    ensures
        dissected(pkt, force).summary.length == pkt.orig_len,
{
    let d = undissected(pkt.orig_len);
    match pkt.link_type {
        LinkType::Ethernet => {
            lemma_ethernet_length(pkt.data, d, force);
        },
        LinkType::RawIp => {
            lemma_ipv4_length(pkt.data, d, force);
            lemma_ipv6_length(pkt.data, d, force);
        },
        LinkType::Null => {
            lemma_ipv4_length(pkt.data.skip(4), d, force);
            lemma_ipv6_length(pkt.data.skip(4), d, force);
        },
        LinkType::LinuxSll => {
            lemma_ipv4_length(pkt.data.skip(16), d, force);
            lemma_ipv6_length(pkt.data.skip(16), d, force);
        },
        LinkType::Infiniband => {
            lemma_lrh_length(pkt.data, d, force);
        },
        LinkType::Other(_) => {},
    }
}

/// The text of a MAC address depends on its bytes alone.
proof fn lemma_same_mac(a: Seq<u8>, b: Seq<u8>, i: int)
    requires
        forall|k: int| i <= k < i + 6 ==> a[k] == b[k],
    ensures
        mac_text(a, i) == mac_text(b, i),
{
    assert(Seq::new(6, |k: int| hex_fixed(a[i + k] as nat, 2)) =~= Seq::new(
        6,
        |k: int| hex_fixed(b[i + k] as nat, 2),
    ));
}

/// The text of an IPv4 address depends on its bytes alone.
proof fn lemma_same_ipv4(a: Seq<u8>, b: Seq<u8>, i: int)
    requires
        forall|k: int| i <= k < i + 4 ==> a[k] == b[k],
    ensures
        ipv4_text(a, i) == ipv4_text(b, i),
{
    assert(Seq::new(4, |k: int| dec_text(a[i + k] as nat)) =~= Seq::new(
        4,
        |k: int| dec_text(b[i + k] as nat),
    ));
}

/// Bytes behind the total length of an IPv4 packet, such as the padding of a
/// short Ethernet frame, are ignored.
pub proof fn law_bytes_behind_the_total_length_are_ignored(
    p: Seq<u8>,
    extra: Seq<u8>,
    d: DissectionView,
    force: bool,
)
    requires
        p.len() >= 20,
        p.len() >= ipv4_header_len(p),
        0 < be16(p, 2) <= p.len(),
    ensures
        ipv4(p + extra, d, force) == ipv4(p, d, force),
{
    let q = p + extra;
    assert forall|i: int| 0 <= i < 20 implies #[trigger] q[i] == p[i] by {}
    lemma_same_ipv4(q, p, 12);
    lemma_same_ipv4(q, p, 16);
    assert(ipv4_payload(q) =~= ipv4_payload(p));
    assert(ipv4_layer(q) == ipv4_layer(p));
}

/// Where the total length of an IPv4 packet is 0, the payload is all that lies
/// behind the header.
pub proof fn law_no_total_length_takes_everything(p: Seq<u8>)
    requires
        p.len() >= ipv4_header_len(p),
        be16(p, 2) == 0,
    ensures
        ipv4_payload(p) == p.skip(ipv4_header_len(p) as int),
{
}

/// An Ethernet frame: the two addresses, what stands between them and the
/// ethertype, the ethertype, the payload.
pub open spec fn frame_bytes(
    macs: Seq<u8>,
    tag: Seq<u8>,
    etype: Seq<u8>,
    payload: Seq<u8>,
) -> Seq<u8> {
    macs + tag + etype + payload
}

/// A VLAN tag does not matter: a frame that has one is dissected as the frame
/// without it is.
pub proof fn law_one_vlan_tag_is_passed_over(
    macs: Seq<u8>,
    tci: Seq<u8>,
    etype: Seq<u8>,
    payload: Seq<u8>,
    d: DissectionView,
    force: bool,
)
    requires
        macs.len() == 12,
        tci.len() == 2,
        etype.len() == 2,
        be16(etype, 0) != 0x8100,
    ensures
        ethernet(frame_bytes(macs, seq![0x81u8, 0x00u8] + tci, etype, payload), d, force)
            == ethernet(frame_bytes(macs, Seq::empty(), etype, payload), d, force),
{
    let a = frame_bytes(macs, seq![0x81u8, 0x00u8] + tci, etype, payload);
    let b = frame_bytes(macs, Seq::empty(), etype, payload);
    assert forall|i: int| 0 <= i < 12 implies #[trigger] a[i] == b[i] by {}
    assert(a[12] == 0x81 && a[13] == 0x00);
    assert(a[16] == etype[0] && a[17] == etype[1]);
    assert(b[12] == etype[0] && b[13] == etype[1]);
    assert(be16(a, 12) == 0x8100);
    assert(be16(a, 16) == be16(etype, 0));
    assert(be16(b, 12) == be16(etype, 0));
    assert(a.skip(18) =~= payload);
    assert(b.skip(14) =~= payload);
    lemma_same_mac(a, b, 0);
    lemma_same_mac(a, b, 6);
    assert(ethernet_layer(a, be16(etype, 0)) == ethernet_layer(b, be16(etype, 0)));
}

/// A second VLAN tag is not unwrapped: there is the Ethernet layer and nothing
/// behind it.
pub proof fn law_second_vlan_tag_is_not_unwrapped(
    macs: Seq<u8>,
    tci: Seq<u8>,
    payload: Seq<u8>,
    d: DissectionView,
    force: bool,
)
    requires
        macs.len() == 12,
        tci.len() == 2,
        d.summary.info.len() == 0,
    ensures
        ({
            let frame = frame_bytes(
                macs,
                seq![0x81u8, 0x00u8] + tci,
                seq![0x81u8, 0x00u8],
                payload,
            );
            let r = ethernet(frame, d, force);
            &&& r.summary.protocol == "ETH"@
            &&& r.summary.info == "ethertype 0x8100"@
            &&& r.tree == d.tree.push(ethernet_layer(frame, 0x8100))
        }),
{
    let a = frame_bytes(macs, seq![0x81u8, 0x00u8] + tci, seq![0x81u8, 0x00u8], payload);
    assert(a[12] == 0x81 && a[13] == 0x00);
    assert(a[16] == 0x81 && a[17] == 0x00);
    assert(be16(a, 12) == 0x8100);
    assert(be16(a, 16) == 0x8100);
    reveal_with_fuel(hex_fixed, 5);
    reveal_strlit("ethertype 0x");
    reveal_strlit("ethertype 0x8100");
    assert("ethertype 0x"@ + hex_fixed(0x8100, 4) =~= "ethertype 0x8100"@);
}

/// A dissection with one layer more, and all columns but the length as given.
pub open spec fn continued(
    d: DissectionView,
    src: Seq<char>,
    dst: Seq<char>,
    protocol: Seq<char>,
    info: Seq<char>,
    l: NodeView,
) -> DissectionView {
    DissectionView {
        summary: SummaryView { src, dst, protocol, info, length: d.summary.length },
        tree: d.tree.push(l),
    }
}

/// A dissection with another protocol and info, and no layer more.
pub open spec fn noted(
    d: DissectionView,
    protocol: Seq<char>,
    info: Seq<char>,
) -> DissectionView {
    DissectionView {
        summary: SummaryView {
            src: d.summary.src,
            dst: d.summary.dst,
            protocol,
            info,
            length: d.summary.length,
        },
        tree: d.tree,
    }
}

// ---- laws on TCP ----

/// A bit more, above all that are set, changes no other bit.
proof fn lemma_bit_added(f: u8, w: u8, v: u8)
    by (bit_vector)
    requires
        w == 1 || w == 2 || w == 4 || w == 8 || w == 16 || w == 32 || w == 64 || w == 128,
        v == 1 || v == 2 || v == 4 || v == 8 || v == 16 || v == 32 || v == 64 || v == 128,
        f < w,
    ensures
        v < w ==> (((f + w) as u8) / v) % 2 == (f / v) % 2,
        v == w ==> (((f + w) as u8) / v) % 2 == 1,
        v > w ==> (((f + w) as u8) / v) % 2 == 0,
        v >= w ==> (f / v) % 2 == 0,
{
}

spec fn flag_name(i: int) -> Seq<char> {
    if i == 0 {
        "FIN"@
    } else if i == 1 {
        "SYN"@
    } else if i == 2 {
        "RST"@
    } else if i == 3 {
        "PSH"@
    } else if i == 4 {
        "ACK"@
    } else if i == 5 {
        "URG"@
    } else if i == 6 {
        "ECE"@
    } else {
        "CWR"@
    }
}

/// The names of the flags among the lowest `n` bits.
spec fn flags_below(f: u8, n: nat) -> Seq<Seq<char>>
    decreases n,
{
    if n == 0 {
        seq![]
    } else {
        flags_below(f, (n - 1) as nat) + name_if(bit(f, class_weight(n - 1)), flag_name(n - 1))
    }
}

proof fn lemma_flags_below(f: u8)
    ensures
        tcp_flags(f) == flags_below(f, 8),
{
    reveal_with_fuel(flags_below, 9);
    let none: Seq<Seq<char>> = seq![];
    assert(none + name_if(bit(f, 0x01), "FIN"@) =~= name_if(bit(f, 0x01), "FIN"@));
}

proof fn lemma_same_flags(f: u8, g: u8, n: nat)
    requires
        n <= 8,
        forall|i: int|
            0 <= i < n ==> bit(f, #[trigger] class_weight(i)) == bit(g, class_weight(i)),
    ensures
        flags_below(f, n) == flags_below(g, n),
    decreases n,
{
    if n > 0 {
        lemma_same_flags(f, g, (n - 1) as nat);
        assert(bit(f, class_weight(n - 1)) == bit(g, class_weight(n - 1)));
    }
}

proof fn lemma_no_flags(f: u8, k: nat, n: nat)
    requires
        k <= n <= 8,
        forall|i: int| k <= i < n ==> !bit(f, #[trigger] class_weight(i)),
    ensures
        flags_below(f, n) == flags_below(f, k),
    decreases n,
{
    if k < n {
        lemma_no_flags(f, k, (n - 1) as nat);
        assert(!bit(f, class_weight(n - 1)));
        assert(flags_below(f, n) =~= flags_below(f, (n - 1) as nat));
    }
}

proof fn lemma_flag_added(f: u8, k: int)
    requires
        0 <= k < 8,
        f < class_weight(k),
    ensures
        tcp_flags((f + class_weight(k)) as u8) == tcp_flags(f).push(flag_name(k)),
{
    let w = class_weight(k);
    let g = (f + w) as u8;
    assert forall|i: int| 0 <= i < 8 implies {
        &&& i < k ==> bit(g, #[trigger] class_weight(i)) == bit(f, class_weight(i))
        &&& i == k ==> bit(g, class_weight(i))
        &&& i > k ==> !bit(g, class_weight(i))
        &&& i >= k ==> !bit(f, class_weight(i))
    } by {
        lemma_bit_added(f, w, class_weight(i));
    }
    lemma_flags_below(f);
    lemma_flags_below(g);
    lemma_same_flags(g, f, k as nat);
    lemma_no_flags(f, k as nat, 8);
    lemma_no_flags(g, (k + 1) as nat, 8);
    assert(bit(g, class_weight(k)));
    assert(flags_below(g, (k + 1) as nat) =~= flags_below(f, k as nat).push(flag_name(k)));
}

/// The flag with the highest bit comes last: a flag more, above all that are
/// set, is one name more at the end.
pub proof fn law_tcp_flags_are_named_by_their_bits(flags: u8)
    ensures
        tcp_flags(0) == Seq::<Seq<char>>::empty(),
        flags < 0x01 ==> tcp_flags((flags + 0x01) as u8) == tcp_flags(flags).push("FIN"@),
        flags < 0x02 ==> tcp_flags((flags + 0x02) as u8) == tcp_flags(flags).push("SYN"@),
        flags < 0x04 ==> tcp_flags((flags + 0x04) as u8) == tcp_flags(flags).push("RST"@),
        flags < 0x08 ==> tcp_flags((flags + 0x08) as u8) == tcp_flags(flags).push("PSH"@),
        flags < 0x10 ==> tcp_flags((flags + 0x10) as u8) == tcp_flags(flags).push("ACK"@),
        flags < 0x20 ==> tcp_flags((flags + 0x20) as u8) == tcp_flags(flags).push("URG"@),
        flags < 0x40 ==> tcp_flags((flags + 0x40) as u8) == tcp_flags(flags).push("ECE"@),
        flags < 0x80 ==> tcp_flags((flags + 0x80) as u8) == tcp_flags(flags).push("CWR"@),
{
    lemma_flags_below(0);
    lemma_flags_below(flags);
    lemma_no_flags(0, 0, 8);
    if flags < 0x01 {
        lemma_flag_added(flags, 0);
    }
    if flags < 0x02 {
        lemma_flag_added(flags, 1);
    }
    if flags < 0x04 {
        lemma_flag_added(flags, 2);
    }
    if flags < 0x08 {
        lemma_flag_added(flags, 3);
    }
    if flags < 0x10 {
        lemma_flag_added(flags, 4);
    }
    if flags < 0x20 {
        lemma_flag_added(flags, 5);
    }
    if flags < 0x40 {
        lemma_flag_added(flags, 6);
    }
    if flags < 0x80 {
        lemma_flag_added(flags, 7);
    }
}

/// What the dissection of a TCP segment with a payload of `len` bytes is.
pub open spec fn is_tcp(r: DissectionView, p: Seq<u8>, d: DissectionView, len: nat) -> bool {
    let l = r.tree.last();
    let sport = dec_text(be16(p, 0));
    let dport = dec_text(be16(p, 2));
    let seqno = dec_text(be32(p, 4));
    let ack = dec_text(be32(p, 8));
    let window = dec_text(be16(p, 14));
    let flags = joined(tcp_flags(p[13]), ", "@);
    &&& r == continued(
        d,
        d.summary.src,
        d.summary.dst,
        "TCP"@,
        sport + " \u{2192} "@ + dport + " ["@ + flags + "]"@ + (" Seq="@ + seqno + " Ack="@ + ack
            + " Win="@ + window) + (" Len="@ + dec_text(len)),
        l,
    )
    &&& is_layer(
        l,
        "Transmission Control Protocol, Src Port: "@ + sport + ", Dst Port: "@ + dport
            + ", Seq: "@ + seqno + (", Len: "@ + dec_text(len)),
        7,
    )
    &&& shows_number(l, 0, "tcp.srcport"@, be16(p, 0) as int, "Source Port: "@ + sport)
    &&& shows_number(l, 1, "tcp.dstport"@, be16(p, 2) as int, "Destination Port: "@ + dport)
    &&& shows_number(l, 2, "tcp.seq"@, be32(p, 4) as int, "Sequence Number: "@ + seqno)
    &&& shows_number(l, 3, "tcp.ack"@, be32(p, 8) as int, "Acknowledgment Number: "@ + ack)
    &&& shows_number(
        l,
        4,
        "tcp.flags"@,
        p[13] as int,
        "Flags: 0x"@ + hex_fixed(p[13] as nat, 3) + " ["@ + flags + "]"@,
    )
    &&& shows_number(l, 5, "tcp.window_size"@, be16(p, 14) as int, "Window: "@ + window)
    &&& shows_number(l, 6, "tcp.len"@, len as int, "TCP payload Length: "@ + dec_text(len))
}

/// A TCP segment is a header of four times as many bytes as the high nibble of
/// its byte 12 says, and a payload. Its length is that of the payload, whatever
/// the options in the header hold, and everything else is read from the header.
pub proof fn law_tcp_length_is_that_of_the_payload(
    header: Seq<u8>,
    payload: Seq<u8>,
    k: nat,
    d: DissectionView,
)
    requires
        5 <= k <= 15,
        header.len() == 4 * k,
        header[12] / 16 == k,
        payload.len() <= u64::MAX,
        is_silent_on(d.tree, "tcp.len"@),
    ensures
        is_tcp(tcp(header + payload, d), header, d, payload.len()),
        number_in(tcp(header + payload, d).tree, "tcp.len"@) == Some(payload.len() as u64),
{
    let p = header + payload;
    let r = tcp(p, d);
    let l = r.tree.last();
    assert forall|i: int| 0 <= i < 20 implies #[trigger] p[i] == header[i] by {}
    assert(tcp_payload_len(p) == payload.len());
    assert(be16(p, 0) == be16(header, 0));
    assert(be16(p, 2) == be16(header, 2));
    assert(be32(p, 4) == be32(header, 4));
    assert(be32(p, 8) == be32(header, 8));
    assert(be16(p, 14) == be16(header, 14));
    reveal_strlit("tcp.srcport");
    reveal_strlit("tcp.dstport");
    reveal_strlit("tcp.seq");
    reveal_strlit("tcp.ack");
    reveal_strlit("tcp.flags");
    reveal_strlit("tcp.window_size");
    reveal_strlit("tcp.len");
    assert("tcp.len"@[4] == 'l');
    assert("tcp.seq"@[4] == 's');
    assert("tcp.ack"@[4] == 'a');
    lemma_found_in_layer(d.tree, l, 6, "tcp.len"@);
}

/// Where the header of a TCP segment is longer than what was captured of it,
/// there is no payload; where not even the fixed part of the header is there,
/// the segment is truncated.
pub proof fn law_tcp_header_may_be_cut_off(p: Seq<u8>, d: DissectionView)
    ensures
        p.len() < 20 ==> tcp(p, d) == noted(d, "TCP"@, "truncated TCP header"@),
        20 <= p.len() < 4 * (p[12] / 16) ==> is_tcp(tcp(p, d), p, d, 0),
{
}

// ---- laws on MAC control ----

/// A PAUSE frame says how long to pause, in the two bytes behind the opcode.
pub proof fn law_pause_time_is_shown(p: Seq<u8>, d: DissectionView)
    requires
        p.len() >= 2,
        p[0] == 0x00,
        p[1] == 0x01,
    ensures
        ({
            let r = flow_control(p, d);
            let l = r.tree.last();
            let quanta = if p.len() >= 4 {
                p[2] * 0x100 + p[3]
            } else {
                0
            };
            let text = dec_text(quanta as nat);
            &&& r == continued(
                d,
                d.summary.src,
                d.summary.dst,
                "PAUSE"@,
                "MAC PAUSE: quanta="@ + text,
                l,
            )
            &&& is_layer(l, "MAC Control: Pause"@, 2)
            &&& shows_number(l, 0, "mac.control.opcode"@, 1, "Opcode: Pause (0x0001)"@)
            &&& shows_number(
                l,
                1,
                "mac.control.pause.time"@,
                quanta,
                "Pause Time: "@ + text + " quanta"@,
            )
        }),
{
}

/// The name of the field of a priority class ends in the number of the class.
pub proof fn law_priority_fields_are_numbered(class: int)
    requires
        0 <= class < 8,
    ensures
        pfc_field(class) == "pfc.time.prio"@.push((('0' as int) + class) as char),
{
    reveal_strlit("pfc.time.prio");
    reveal_strlit("pfc.time.prio0");
    reveal_strlit("pfc.time.prio1");
    reveal_strlit("pfc.time.prio2");
    reveal_strlit("pfc.time.prio3");
    reveal_strlit("pfc.time.prio4");
    reveal_strlit("pfc.time.prio5");
    reveal_strlit("pfc.time.prio6");
    reveal_strlit("pfc.time.prio7");
    assert(pfc_field(class) =~= "pfc.time.prio"@.push((('0' as int) + class) as char));
}

/// The number that is a power of two.
pub open spec fn two_to(k: nat) -> nat
    decreases k,
{
    if k == 0 {
        1
    } else {
        2 * two_to((k - 1) as nat)
    }
}

proof fn lemma_class_weight(class: int)
    requires
        0 <= class < 8,
    ensures
        class_weight(class) == two_to(class as nat),
{
    reveal_with_fuel(two_to, 9);
}

/// The time in the two bytes from 4 + 2 `class` on, 0 where they are missing.
pub open spec fn class_time(p: Seq<u8>, class: int) -> int {
    if p.len() >= 6 + 2 * class {
        p[4 + 2 * class] * 0x100 + p[5 + 2 * class]
    } else {
        0
    }
}

/// A priority flow control frame shows all eight classes: class `k` is enabled
/// exactly if bit `k` of byte 3 is set, and its time is the number in the two
/// bytes from 4 + 2 `k` on.
pub proof fn law_priority_classes_are_shown(p: Seq<u8>, d: DissectionView, class: int)
    requires
        p.len() >= 4,
        p[0] == 0x01,
        p[1] == 0x01,
        0 <= class < 8,
    ensures
        ({
            let r = flow_control(p, d);
            let l = r.tree.last();
            let time = class_time(p, class);
            &&& r == continued(
                d,
                d.summary.src,
                d.summary.dst,
                "PFC"@,
                if p[3] == 0 {
                    "PFC: no classes paused"@
                } else {
                    "PFC pause: "@ + joined(pfc_paused(p, 8), " "@)
                },
                l,
            )
            &&& is_layer(l, "MAC Control: Priority Flow Control (PFC)"@, 10)
            &&& shows_number(l, 0, "mac.control.opcode"@, 0x0101, "Opcode: PFC (0x0101)"@)
            &&& shows_number(
                l,
                1,
                "pfc.enable"@,
                p[3] as int,
                "Class Enable Vector: 0x"@ + hex_fixed(p[3] as nat, 2),
            )
            &&& shows_number(
                l,
                2 + class,
                pfc_field(class),
                time,
                "Priority "@ + dec_text(class as nat) + ": "@ + (if (p[3] as nat / two_to(
                    class as nat,
                )) % 2 == 1 {
                    "enabled"@
                } else {
                    "disabled"@
                }) + " time="@ + dec_text(time as nat),
            )
        }),
{
    let r = flow_control(p, d);
    let l = r.tree.last();
    let all = Seq::new(8, |class: int| pfc_class(p, class));
    assert(l.children[2 + class] == all[class]);
    lemma_class_weight(class);
    lemma_classes_listed(p);
}

/// The list of paused classes is empty exactly if no bit is set.
proof fn lemma_classes_listed(p: Seq<u8>)
    ensures
        pfc_paused(p, 8).len() == 0 <==> p[3] == 0,
{
    if p[3] == 0 {
        lemma_none_paused(p, 0, 8);
    } else {
        let f = p[3];
        assert(bit(f, 1) || bit(f, 2) || bit(f, 4) || bit(f, 8) || bit(f, 16) || bit(f, 32)
            || bit(f, 64) || bit(f, 128)) by {
            lemma_some_bit(f);
        }
        reveal_with_fuel(pfc_paused, 9);
    }
}

proof fn lemma_some_bit(f: u8)
    by (bit_vector)
    requires
        f > 0,
    ensures
        (f / 1) % 2 == 1 || (f / 2) % 2 == 1 || (f / 4) % 2 == 1 || (f / 8) % 2 == 1 || (f / 16)
            % 2 == 1 || (f / 32) % 2 == 1 || (f / 64) % 2 == 1 || (f / 128) % 2 == 1,
{
}

proof fn lemma_none_paused(p: Seq<u8>, k: nat, n: nat)
    requires
        k <= n <= 8,
        forall|i: int| k <= i < n ==> !bit(p[3], #[trigger] class_weight(i)),
    ensures
        pfc_paused(p, n) == pfc_paused(p, k),
    decreases n,
{
    if k < n {
        lemma_none_paused(p, k, (n - 1) as nat);
        assert(!bit(p[3], class_weight(n - 1)));
        assert(pfc_paused(p, n) =~= pfc_paused(p, (n - 1) as nat));
    }
}

proof fn lemma_same_paused(p: Seq<u8>, q: Seq<u8>, n: nat)
    requires
        n <= 8,
        p.len() == q.len(),
        forall|i: int| 4 <= i < p.len() ==> p[i] == q[i],
        forall|i: int|
            0 <= i < n ==> bit(p[3], #[trigger] class_weight(i)) == bit(q[3], class_weight(i)),
    ensures
        pfc_paused(p, n) == pfc_paused(q, n),
    decreases n,
{
    if n > 0 {
        lemma_same_paused(p, q, (n - 1) as nat);
        assert(bit(p[3], class_weight(n - 1)) == bit(q[3], class_weight(n - 1)));
    }
}

/// The class with the highest bit is listed last: one class more, above all
/// that are paused, is one entry more at the end, with its own time.
pub proof fn law_paused_classes_are_listed_by_their_bits(p: Seq<u8>, class: int)
    requires
        p.len() >= 4,
        0 <= class < 8,
        p[3] < two_to(class as nat),
    ensures
        p[3] == 0 ==> pfc_paused(p, 8).len() == 0,
        pfc_paused(p.update(3, (p[3] + two_to(class as nat)) as u8), 8) == pfc_paused(p, 8).push(
            "P"@ + dec_text(class as nat) + "="@ + dec_text(class_time(p, class) as nat),
        ),
{
    lemma_class_weight(class);
    lemma_classes_listed(p);
    let f = p[3];
    let w = class_weight(class);
    let g = (f + w) as u8;
    let q = p.update(3, g);
    assert forall|i: int| 0 <= i < 8 implies {
        &&& i < class ==> bit(g, #[trigger] class_weight(i)) == bit(f, class_weight(i))
        &&& i == class ==> bit(g, class_weight(i))
        &&& i > class ==> !bit(g, class_weight(i))
        &&& i >= class ==> !bit(f, class_weight(i))
    } by {
        lemma_bit_added(f, w, class_weight(i));
    }
    lemma_same_paused(q, p, class as nat);
    lemma_none_paused(p, class as nat, 8);
    lemma_none_paused(q, (class + 1) as nat, 8);
    assert(bit(g, class_weight(class)));
    assert(pfc_paused(q, (class + 1) as nat) =~= pfc_paused(p, class as nat).push(
        "P"@ + dec_text(class as nat) + "="@ + dec_text(pfc_time(p, class)),
    ));
}

/// A priority flow control frame without a class-enable vector is truncated.
pub proof fn law_priority_vector_may_be_cut_off(p: Seq<u8>, d: DissectionView)
    requires
        2 <= p.len() < 4,
        p[0] == 0x01,
        p[1] == 0x01,
    ensures
        flow_control(p, d) == noted(d, "PFC"@, "truncated PFC frame"@),
{
}

/// A MAC control frame with any other opcode shows the opcode alone.
pub proof fn law_other_control_opcodes_are_shown(p: Seq<u8>, d: DissectionView)
    ensures
        p.len() < 2 ==> flow_control(p, d) == noted(
            d,
            "MAC CTRL"@,
            "truncated MAC Control frame"@,
        ),
        p.len() >= 2 && !(p[0] <= 1 && p[1] == 1) ==> ({
            let r = flow_control(p, d);
            let l = r.tree.last();
            let opcode = p[0] * 0x100 + p[1];
            let text = hex_fixed(opcode as nat, 4);
            &&& r == continued(
                d,
                d.summary.src,
                d.summary.dst,
                "MAC CTRL"@,
                "opcode 0x"@ + text,
                l,
            )
            &&& is_layer(l, "MAC Control"@, 1)
            &&& shows_number(l, 0, "mac.control.opcode"@, opcode, "Opcode: 0x"@ + text)
        }),
{
}

// ---- laws on ARP and ICMP ----

/// An ARP packet: the operation in bytes 6 and 7, then the sender's and the
/// target's hardware and IP address, in this order. A request asks for the
/// target, a reply tells of the sender.
pub proof fn law_arp_packet_is_shown(p: Seq<u8>, d: DissectionView)
    ensures
        p.len() < 28 ==> arp(p, d) == noted(d, "ARP"@, "truncated ARP packet"@),
        p.len() >= 28 ==> ({
            let r = arp(p, d);
            let l = r.tree.last();
            let op = p[6] * 0x100 + p[7];
            let sender_mac = mac_text(p, 8);
            let sender = ipv4_text(p, 14);
            let target_mac = mac_text(p, 18);
            let target = ipv4_text(p, 24);
            let info = r.summary.info;
            &&& r == continued(d, sender, target, "ARP"@, info, l)
            &&& op == 1 ==> info == "Who has "@ + target + "? Tell "@ + sender
            &&& op == 2 ==> info == sender + " is at "@ + sender_mac
            &&& op == 3 ==> info == "Reverse request for "@ + target_mac
            &&& op == 4 ==> info == "Reverse reply: "@ + target + " is at "@ + target_mac
            &&& (op == 0 || op > 4) ==> info == "opcode "@ + dec_text(op as nat)
            &&& is_layer(l, "Address Resolution Protocol"@, 5)
            &&& shows_number(l, 0, "arp.opcode"@, op, "Opcode: "@ + dec_text(op as nat))
            &&& shows_text(
                l,
                1,
                "arp.src.hw_mac"@,
                sender_mac,
                "Sender MAC address: "@ + sender_mac,
            )
            &&& shows_text(l, 2, "arp.src.proto_ipv4"@, sender, "Sender IP address: "@ + sender)
            &&& shows_text(
                l,
                3,
                "arp.dst.hw_mac"@,
                target_mac,
                "Target MAC address: "@ + target_mac,
            )
            &&& shows_text(l, 4, "arp.dst.proto_ipv4"@, target, "Target IP address: "@ + target)
        }),
{
}

/// An ICMP message shows its type and its code, and says what the type means.
pub proof fn law_control_message_is_shown(p: Seq<u8>, d: DissectionView)
    ensures
        p.len() < 4 ==> control_message(p, d) == noted(d, "ICMP"@, "truncated"@),
        p.len() >= 4 ==> ({
            let r = control_message(p, d);
            let l = r.tree.last();
            let ty = dec_text(p[0] as nat);
            let code = dec_text(p[1] as nat);
            let info = r.summary.info;
            &&& r == continued(d, d.summary.src, d.summary.dst, "ICMP"@, info, l)
            &&& p[0] == 0 ==> info == "Echo (ping) reply"@
            &&& p[0] == 8 ==> info == "Echo (ping) request"@
            &&& p[0] == 3 ==> info == "Destination unreachable (code "@ + code + ")"@
            &&& p[0] == 11 ==> info == "Time-to-live exceeded (code "@ + code + ")"@
            &&& !(p[0] == 0 || p[0] == 3 || p[0] == 8 || p[0] == 11) ==> info == "type "@ + ty
                + " code "@ + code
            &&& is_layer(l, "Internet Control Message Protocol"@, 2)
            &&& shows_number(l, 0, "icmp.type"@, p[0] as int, "Type: "@ + ty)
            &&& shows_number(l, 1, "icmp.code"@, p[1] as int, "Code: "@ + code)
        }),
{
}

/// An ICMPv6 message shows its type, and says what the type means.
pub proof fn law_control_message_v6_is_shown(p: Seq<u8>, d: DissectionView)
    ensures
        p.len() < 4 ==> control_message_v6(p, d) == noted(d, "ICMPv6"@, "truncated"@),
        p.len() >= 4 ==> ({
            let r = control_message_v6(p, d);
            let l = r.tree.last();
            let ty = dec_text(p[0] as nat);
            let info = r.summary.info;
            &&& r == continued(d, d.summary.src, d.summary.dst, "ICMPv6"@, info, l)
            &&& p[0] == 128 ==> info == "Echo Request"@
            &&& p[0] == 129 ==> info == "Echo Reply"@
            &&& p[0] == 133 ==> info == "Router Solicitation"@
            &&& p[0] == 134 ==> info == "Router Advertisement"@
            &&& p[0] == 135 ==> info == "Neighbor Solicitation"@
            &&& p[0] == 136 ==> info == "Neighbor Advertisement"@
            &&& p[0] == 137 ==> info == "Redirect"@
            &&& (p[0] < 128 || 129 < p[0] < 133 || 137 < p[0]) ==> info == "type "@ + ty
            &&& is_layer(l, "Internet Control Message Protocol v6"@, 1)
            &&& shows_number(l, 0, "icmpv6.type"@, p[0] as int, "Type: "@ + ty)
        }),
{
}

// ---- laws on UDP ----

/// Whether a UDP datagram comes from or goes to a port.
pub open spec fn speaks(p: Seq<u8>, port: int) -> bool {
    p[0] * 0x100 + p[1] == port || p[2] * 0x100 + p[3] == port
}

/// A UDP header shows both ports and the length. The length of the body is
/// that of the datagram without the 8 bytes of the header.
pub proof fn law_udp_header_is_shown(p: Seq<u8>)
    requires
        p.len() >= 8,
    ensures
        ({
            let l = udp_layer(p);
            let sport = p[0] * 0x100 + p[1];
            let dport = p[2] * 0x100 + p[3];
            let length = p[4] * 0x100 + p[5];
            &&& is_layer(
                l,
                "User Datagram Protocol, Src Port: "@ + dec_text(sport as nat) + ", Dst Port: "@
                    + dec_text(dport as nat),
                3,
            )
            &&& shows_number(
                l,
                0,
                "udp.srcport"@,
                sport,
                "Source Port: "@ + dec_text(sport as nat),
            )
            &&& shows_number(
                l,
                1,
                "udp.dstport"@,
                dport,
                "Destination Port: "@ + dec_text(dport as nat),
            )
            &&& shows_number(l, 2, "udp.length"@, length, "Length: "@ + dec_text(length as nat))
        }),
{
}

/// A UDP datagram is handed on by its ports, whichever of the two it is: RoCE
/// before everything else, then DNS; DHCP, NTP and mDNS are only named.
pub proof fn law_udp_ports_name_the_protocol(p: Seq<u8>, d: DissectionView, force: bool)
    ensures
        p.len() < 8 ==> udp(p, d, force) == noted(d, "UDP"@, "truncated UDP header"@),
        p.len() >= 8 ==> ({
            let r = udp(p, d, force);
            let length = p[4] * 0x100 + p[5];
            let info = dec_text((p[0] * 0x100 + p[1]) as nat) + " \u{2192} "@ + dec_text(
                (p[2] * 0x100 + p[3]) as nat,
            ) + "  Len="@ + dec_text(
                (if length >= 8 {
                    length - 8
                } else {
                    0
                }) as nat,
            );
            let here = continued(d, d.summary.src, d.summary.dst, "UDP"@, info, udp_layer(p));
            let dhcp = speaks(p, 67) || speaks(p, 68);
            &&& speaks(p, 4791) ==> r == bth(p.skip(8), here, force, "RoCE"@)
            &&& !speaks(p, 4791) && speaks(p, 53) ==> r == dns(p.skip(8), here)
            &&& !speaks(p, 4791) && !speaks(p, 53) ==> {
                &&& dhcp ==> r == noted(here, "DHCP"@, info)
                &&& !dhcp && speaks(p, 123) ==> r == noted(here, "NTP"@, info)
                &&& !dhcp && !speaks(p, 123) && speaks(p, 5353) ==> r == noted(
                    here,
                    "MDNS"@,
                    info,
                )
                &&& !dhcp && !speaks(p, 123) && !speaks(p, 5353) ==> r == here
            }
        }),
{
}

// ---- laws on IP ----

/// An IPv4 header shows its fields.
pub proof fn law_ipv4_header_is_shown(p: Seq<u8>)
    requires
        p.len() >= 20,
    ensures
        ({
            let l = ipv4_layer(p);
            let words = (p[0] % 16) as nat;
            let ecn = (p[1] % 4) as nat;
            let total = p[2] * 0x100 + p[3];
            let src = ipv4_text(p, 12);
            let dst = ipv4_text(p, 16);
            &&& is_layer(l, "Internet Protocol Version 4, Src: "@ + src + ", Dst: "@ + dst, 8)
            &&& shows_number(l, 0, "ip.version"@, 4, "Version: 4"@)
            &&& shows_number(
                l,
                1,
                "ip.hdr_len"@,
                4 * words as int,
                "Header Length: "@ + dec_text((4 * words) as nat) + " bytes ("@ + dec_text(words)
                    + ")"@,
            )
            &&& shows_number(
                l,
                2,
                "ip.dsfield.ecn"@,
                ecn as int,
                "ECN: 0x"@ + hex_fixed(ecn, 2) + " ("@ + ecn_text(ecn) + ")"@,
            )
            &&& shows_number(l, 3, "ip.len"@, total, "Total Length: "@ + dec_text(total as nat))
            &&& shows_number(
                l,
                4,
                "ip.ttl"@,
                p[8] as int,
                "Time to Live: "@ + dec_text(p[8] as nat),
            )
            &&& shows_number(
                l,
                5,
                "ip.proto"@,
                p[9] as int,
                "Protocol: "@ + ip_proto(p[9]) + " ("@ + dec_text(p[9] as nat) + ")"@,
            )
            &&& shows_text(l, 6, "ip.src"@, src, "Source Address: "@ + src)
            &&& shows_text(l, 7, "ip.dst"@, dst, "Destination Address: "@ + dst)
        }),
{
    assert(ipv4_header_len(p) / 4 == p[0] % 16);
}

/// The names of ECN codepoints and of IP protocols.
pub proof fn law_codepoints_and_protocols_are_named(proto: u8)
    ensures
        ecn_text(0) == "Not-ECT"@,
        ecn_text(1) == "ECT(1)"@,
        ecn_text(2) == "ECT(0)"@,
        ecn_text(3) == "CE"@,
        ip_proto(1) == "ICMP"@,
        ip_proto(6) == "TCP"@,
        ip_proto(17) == "UDP"@,
        ip_proto(58) == "IPv6-ICMP"@,
        !(proto == 1 || proto == 6 || proto == 17 || proto == 58) ==> ip_proto(proto)
            == "Unknown"@,
{
}

/// An IPv4 packet is a header of four times as many bytes as the low nibble of
/// its first byte says, and a payload; the total length counts both, and what
/// lies behind is padding. The payload, and nothing else, is handed on by the
/// protocol number.
pub proof fn law_ipv4_payload_is_handed_on(
    header: Seq<u8>,
    payload: Seq<u8>,
    padding: Seq<u8>,
    k: nat,
    d: DissectionView,
    force: bool,
)
    requires
        5 <= k <= 15,
        header.len() == 4 * k,
        header[0] % 16 == k,
        header[2] * 0x100 + header[3] == 4 * k + payload.len(),
    ensures
        ({
            let r = ipv4(header + payload + padding, d, force);
            let src = ipv4_text(header, 12);
            let dst = ipv4_text(header, 16);
            let here = continued(d, src, dst, "IPv4"@, d.summary.info, ipv4_layer(header));
            let proto = header[9];
            &&& proto == 1 ==> r == control_message(payload, here)
            &&& proto == 6 ==> r == tcp(payload, here)
            &&& proto == 17 ==> r == udp(payload, here, force)
            &&& !(proto == 1 || proto == 6 || proto == 17) ==> r == noted(
                here,
                "IPv4"@,
                "proto "@ + dec_text(proto as nat),
            )
        }),
{
    let p = header + payload + padding;
    assert forall|i: int| 0 <= i < 20 implies #[trigger] p[i] == header[i] by {}
    assert(be16(p, 2) == 4 * k + payload.len());
    lemma_same_ipv4(p, header, 12);
    lemma_same_ipv4(p, header, 16);
    assert(ipv4_header_len(p) == 4 * k);
    assert(ipv4_payload(p) =~= payload);
    assert(ipv4_layer(p) == ipv4_layer(header));
}

/// An IPv4 packet of which less was captured than its total length says, or
/// whose total length is 0, hands on all that was captured behind the header.
pub proof fn law_ipv4_payload_may_be_cut_off(p: Seq<u8>, k: nat)
    requires
        5 <= k <= 15,
        p.len() >= 4 * k,
        p[0] % 16 == k,
        p[2] * 0x100 + p[3] == 0 || p[2] * 0x100 + p[3] > p.len(),
    ensures
        ipv4_payload(p) == p.skip(4 * k as int),
{
    assert(ipv4_payload(p) =~= p.skip(4 * k as int));
}

/// An IPv4 packet whose total length ends within its own header has no payload.
pub proof fn law_ipv4_payload_may_be_missing(p: Seq<u8>, k: nat)
    requires
        5 <= k <= 15,
        p.len() >= 4 * k,
        p[0] % 16 == k,
        0 < p[2] * 0x100 + p[3] <= 4 * k,
    ensures
        ipv4_payload(p) == Seq::<u8>::empty(),
{
    assert(ipv4_payload(p) =~= Seq::empty());
}

/// An IPv4 packet without a whole header is told apart from one whose header
/// length is impossible: below 20 bytes, or more than was captured.
pub proof fn law_bad_ipv4_headers_are_named(p: Seq<u8>, d: DissectionView, force: bool)
    ensures
        p.len() < 20 ==> ipv4(p, d, force) == noted(d, "IPv4"@, "truncated IPv4 header"@),
        p.len() >= 20 && (p[0] % 16 < 5 || p.len() < 4 * (p[0] % 16)) ==> ipv4(p, d, force)
            == noted(d, "IPv4"@, "bad IPv4 header length"@),
{
}

/// An IPv6 header shows its fields. The ECN codepoint is the low two bits of
/// the traffic class, whose low nibble is the high nibble of byte 1.
pub proof fn law_ipv6_header_is_shown(p: Seq<u8>)
    requires
        p.len() >= 40,
    ensures
        ({
            let l = ipv6_layer(p);
            let class = (p[0] % 16) * 16 + p[1] / 16;
            let ecn = (class % 4) as nat;
            let plen = p[4] * 0x100 + p[5];
            let src = ipv6_text(p, 8);
            let dst = ipv6_text(p, 24);
            &&& is_layer(l, "Internet Protocol Version 6, Src: "@ + src + ", Dst: "@ + dst, 7)
            &&& shows_number(l, 0, "ipv6.version"@, 6, "Version: 6"@)
            &&& shows_number(
                l,
                1,
                "ipv6.dsfield.ecn"@,
                ecn as int,
                "ECN: 0x"@ + hex_fixed(ecn, 2) + " ("@ + ecn_text(ecn) + ")"@,
            )
            &&& shows_number(
                l,
                2,
                "ipv6.plen"@,
                plen,
                "Payload Length: "@ + dec_text(plen as nat),
            )
            &&& shows_number(
                l,
                3,
                "ipv6.nxt"@,
                p[6] as int,
                "Next Header: "@ + ip_proto(p[6]) + " ("@ + dec_text(p[6] as nat) + ")"@,
            )
            &&& shows_number(
                l,
                4,
                "ipv6.hlim"@,
                p[7] as int,
                "Hop Limit: "@ + dec_text(p[7] as nat),
            )
            &&& shows_text(l, 5, "ipv6.src"@, src, "Source Address: "@ + src)
            &&& shows_text(l, 6, "ipv6.dst"@, dst, "Destination Address: "@ + dst)
        }),
{
    let class = (p[0] % 16) * 16 + p[1] / 16;
    assert(class % 4 == (p[1] / 16) % 4);
}

/// The text of an IPv6 address depends on its bytes alone.
proof fn lemma_same_ipv6(a: Seq<u8>, b: Seq<u8>, i: int)
    requires
        forall|k: int| i <= k < i + 16 ==> a[k] == b[k],
    ensures
        ipv6_text(a, i) == ipv6_text(b, i),
{
    assert(crate::addr::groups(a, i) =~= crate::addr::groups(b, i));
    lemma_same_ipv4(a, b, i + 12);
}

/// An IPv6 packet is a header of 40 bytes and a payload, whose length bytes 4
/// and 5 say; what lies behind is padding. The payload, and nothing else, is
/// handed on by the next header.
pub proof fn law_ipv6_payload_is_handed_on(
    header: Seq<u8>,
    payload: Seq<u8>,
    padding: Seq<u8>,
    d: DissectionView,
    force: bool,
)
    requires
        header.len() == 40,
        header[4] * 0x100 + header[5] == payload.len(),
    ensures
        ({
            let r = ipv6(header + payload + padding, d, force);
            let src = ipv6_text(header, 8);
            let dst = ipv6_text(header, 24);
            let here = continued(d, src, dst, "IPv6"@, d.summary.info, ipv6_layer(header));
            let next = header[6];
            &&& next == 6 ==> r == tcp(payload, here)
            &&& next == 17 ==> r == udp(payload, here, force)
            &&& next == 58 ==> r == control_message_v6(payload, here)
            &&& !(next == 6 || next == 17 || next == 58) ==> r == noted(
                here,
                "IPv6"@,
                "next header "@ + dec_text(next as nat),
            )
        }),
{
    let p = header + payload + padding;
    assert forall|i: int| 0 <= i < 40 implies #[trigger] p[i] == header[i] by {}
    lemma_same_ipv6(p, header, 8);
    lemma_same_ipv6(p, header, 24);
    assert(be16(p, 4) == payload.len());
    assert(ipv6_payload(p) =~= payload);
    assert(ipv6_layer(p) == ipv6_layer(header));
}

/// An IPv6 packet of which less was captured than its payload length says
/// hands on all that was captured; without a whole header it is truncated.
pub proof fn law_ipv6_payload_may_be_cut_off(p: Seq<u8>, d: DissectionView, force: bool)
    ensures
        p.len() < 40 ==> ipv6(p, d, force) == noted(d, "IPv6"@, "truncated IPv6 header"@),
        p.len() >= 40 && p[4] * 0x100 + p[5] > p.len() - 40 ==> ipv6_payload(p) == p.skip(40),
{
    if p.len() >= 40 && p[4] * 0x100 + p[5] > p.len() - 40 {
        assert(ipv6_payload(p) =~= p.skip(40));
    }
}

// ---- laws on link layers ----

/// The names of ethertypes.
pub proof fn law_ethertypes_are_named(etype: nat)
    ensures
        ethertype(0x0800) == "IPv4"@,
        ethertype(0x86dd) == "IPv6"@,
        ethertype(0x0806) == "ARP"@,
        ethertype(0x8100) == "802.1Q Virtual LAN"@,
        ethertype(0x8808) == "MAC Control"@,
        ethertype(0x8915) == "RoCE"@,
        !(etype == 0x0800 || etype == 0x86dd || etype == 0x0806 || etype == 0x8100 || etype
            == 0x8808 || etype == 0x8915) ==> ethertype(etype) == "Unknown"@,
{
}

/// An Ethernet frame is the destination's address, the source's address, an
/// ethertype and a payload. The layer shows the addresses and the type, and
/// the payload is handed on by the type.
pub proof fn law_ethernet_payload_is_handed_on(
    dst: Seq<u8>,
    src: Seq<u8>,
    high: u8,
    low: u8,
    payload: Seq<u8>,
    d: DissectionView,
    force: bool,
)
    requires
        dst.len() == 6,
        src.len() == 6,
        !(high == 0x81 && low == 0x00),
        d.summary.info.len() == 0,
    ensures
        ({
            let p = dst + src + seq![high, low] + payload;
            let r = ethernet(p, d, force);
            let etype = high * 0x100 + low;
            let from = mac_text(src, 0);
            let to = mac_text(dst, 0);
            let l = r.tree[d.tree.len() as int];
            let here = continued(d, from, to, "ETH"@, Seq::empty(), l);
            &&& is_layer(l, "Ethernet II, Src: "@ + from + ", Dst: "@ + to, 3)
            &&& shows_text(l, 0, "eth.dst"@, to, "Destination: "@ + to)
            &&& shows_text(l, 1, "eth.src"@, from, "Source: "@ + from)
            &&& shows_number(
                l,
                2,
                "eth.type"@,
                etype,
                "Type: "@ + ethertype(etype as nat) + " (0x"@ + hex_fixed(etype as nat, 4) + ")"@,
            )
            &&& etype == 0x0800 ==> r == ipv4(payload, here, force)
            &&& etype == 0x86dd ==> r == ipv6(payload, here, force)
            &&& etype == 0x0806 ==> r == arp(payload, here)
            &&& etype == 0x8808 ==> r == flow_control(payload, here)
            &&& etype == 0x8915 ==> r == grh(payload, here, force, "RoCE"@)
            &&& !(etype == 0x0800 || etype == 0x86dd || etype == 0x0806 || etype == 0x8808
                || etype == 0x8915) ==> r == noted(
                here,
                "ETH"@,
                "ethertype 0x"@ + hex_fixed(etype as nat, 4),
            )
        }),
{
    let p = dst + src + seq![high, low] + payload;
    assert(p.skip(14) =~= payload);
    assert(p[12] == high && p[13] == low);
    let etype = be16(p, 12);
    assert(etype == high * 0x100 + low);
    assert(Seq::new(6, |k: int| hex_fixed(p[0 + k] as nat, 2)) =~= Seq::new(
        6,
        |k: int| hex_fixed(dst[0 + k] as nat, 2),
    ));
    assert(Seq::new(6, |k: int| hex_fixed(p[6 + k] as nat, 2)) =~= Seq::new(
        6,
        |k: int| hex_fixed(src[0 + k] as nat, 2),
    ));
    assert(mac_text(p, 0) == mac_text(dst, 0));
    assert(mac_text(p, 6) == mac_text(src, 0));
    assert(d.summary.info =~= Seq::empty());
    let l = ethernet_layer(p, etype);
    let here = layered(
        addressed(labelled(d, "ETH"@), mac_text(p, 6), mac_text(p, 0)),
        l,
    );
    let n = d.tree.len() as int;
    assert(here.tree[n] == l);
    lemma_layer_stays_ipv4(payload, here, force, n);
    lemma_layer_stays_ipv6(payload, here, force, n);
    lemma_layer_stays_grh(payload, here, force, n);
}

/// Whatever lies below, the layers that are there stay.
proof fn lemma_layer_stays_grh(p: Seq<u8>, d: DissectionView, force: bool, n: int)
    requires
        0 <= n < d.tree.len(),
    ensures
        grh(p, d, force, "RoCE"@).tree[n] == d.tree[n],
{
}

proof fn lemma_layer_stays_udp(p: Seq<u8>, d: DissectionView, force: bool, n: int)
    requires
        0 <= n < d.tree.len(),
    ensures
        udp(p, d, force).tree[n] == d.tree[n],
{
}

proof fn lemma_layer_stays_ipv4(p: Seq<u8>, d: DissectionView, force: bool, n: int)
    requires
        0 <= n < d.tree.len(),
    ensures
        ipv4(p, d, force).tree[n] == d.tree[n],
{
    let here = layered(
        addressed(labelled(d, "IPv4"@), ipv4_text(p, 12), ipv4_text(p, 16)),
        ipv4_layer(p),
    );
    lemma_layer_stays_udp(ipv4_payload(p), here, force, n);
}

proof fn lemma_layer_stays_ipv6(p: Seq<u8>, d: DissectionView, force: bool, n: int)
    requires
        0 <= n < d.tree.len(),
    ensures
        ipv6(p, d, force).tree[n] == d.tree[n],
{
    let here = layered(
        addressed(labelled(d, "IPv6"@), ipv6_text(p, 8), ipv6_text(p, 24)),
        ipv6_layer(p),
    );
    lemma_layer_stays_udp(ipv6_payload(p), here, force, n);
}

/// A packet of a raw IP capture is taken by the version in its first nibble.
pub proof fn law_raw_packets_go_by_their_version(p: Seq<u8>, d: DissectionView, force: bool)
    ensures
        p.len() == 0 ==> ip_auto(p, d, force) == d,
        p.len() > 0 && 0x40 <= p[0] < 0x50 ==> ip_auto(p, d, force) == ipv4(p, d, force),
        p.len() > 0 && 0x60 <= p[0] < 0x70 ==> ip_auto(p, d, force) == ipv6(p, d, force),
        p.len() > 0 && !(0x40 <= p[0] < 0x50) && !(0x60 <= p[0] < 0x70) ==> ip_auto(p, d, force)
            == noted(d, "IP"@, "unknown IP version "@ + dec_text((p[0] / 16) as nat)),
{
}

/// The family of a loopback packet may be written in either byte order: the
/// packet and the one with the family's bytes reversed are taken for the same,
/// where the family is known.
pub proof fn law_loopback_families_are_known_in_either_byte_order(
    family: u8,
    payload: Seq<u8>,
    d: DissectionView,
    force: bool,
)
    ensures
        ({
            let a = null(seq![family, 0u8, 0u8, 0u8] + payload, d, force);
            let b = null(seq![0u8, 0u8, 0u8, family] + payload, d, force);
            &&& family == 2 ==> a == ipv4(payload, d, force) && b == ipv4(payload, d, force)
            &&& (family == 24 || family == 28 || family == 30) ==> {
                &&& a == ipv6(payload, d, force)
                &&& b == ipv6(payload, d, force)
            }
            &&& !(family == 2 || family == 24 || family == 28 || family == 30) ==> {
                &&& a == noted(d, "NULL"@, "family 0x"@ + hex_fixed(family as nat, 8))
                &&& b == noted(
                    d,
                    "NULL"@,
                    "family 0x"@ + hex_fixed((family * 0x100_0000) as nat, 8),
                )
            }
        }),
{
    let p = seq![family, 0u8, 0u8, 0u8] + payload;
    let q = seq![0u8, 0u8, 0u8, family] + payload;
    assert(p[0] == family && p[1] == 0 && p[2] == 0 && p[3] == 0);
    assert(q[0] == 0 && q[1] == 0 && q[2] == 0 && q[3] == family);
    assert(p.skip(4) =~= payload);
    assert(q.skip(4) =~= payload);
    assert(le32(p, 0) == family);
    assert(be32(q, 0) == family);
    assert(be32(p, 0) == family * 0x100_0000);
    assert(le32(q, 0) == family * 0x100_0000);
}

/// A loopback packet with a family above 255 in both byte orders is of no
/// known family, and shows it in little-endian order.
pub proof fn law_other_loopback_families_are_shown(
    p: Seq<u8>,
    d: DissectionView,
    force: bool,
)
    ensures
        p.len() < 4 ==> null(p, d, force) == noted(d, "NULL"@, d.summary.info),
        p.len() >= 4 && (p[1] != 0 || p[2] != 0 || (p[0] != 0 && p[3] != 0)) ==> null(p, d, force)
            == noted(
            d,
            "NULL"@,
            "family 0x"@ + hex_fixed(
                (p[0] + p[1] * 0x100 + p[2] * 0x1_0000 + p[3] * 0x100_0000) as nat,
                8,
            ),
        ),
{
}

/// A Linux cooked packet is 14 bytes, an ethertype and a payload, which is
/// handed on by the type.
pub proof fn law_cooked_payload_is_handed_on(
    head: Seq<u8>,
    high: u8,
    low: u8,
    payload: Seq<u8>,
    d: DissectionView,
    force: bool,
)
    requires
        head.len() == 14,
    ensures
        ({
            let r = linux_sll(head + seq![high, low] + payload, d, force);
            let etype = high * 0x100 + low;
            &&& etype == 0x0800 ==> r == ipv4(payload, d, force)
            &&& etype == 0x86dd ==> r == ipv6(payload, d, force)
            &&& etype == 0x0806 ==> r == arp(payload, d)
            &&& !(etype == 0x0800 || etype == 0x86dd || etype == 0x0806) ==> r == noted(
                d,
                "SLL"@,
                "ethertype 0x"@ + hex_fixed(etype as nat, 4),
            )
        }),
        linux_sll(head, d, force) == noted(d, "SLL"@, d.summary.info),
{
    let p = head + seq![high, low] + payload;
    assert(p[14] == high && p[15] == low);
    assert(p.skip(16) =~= payload);
}

/// A packet is taken by the link type of its capture, with all columns but the
/// length empty to start with; a link type that is not known is named.
pub proof fn law_packets_go_by_their_link_type(pkt: PacketView, force: bool)
    ensures
        ({
            let r = dissected(pkt, force);
            let start = DissectionView {
                summary: SummaryView {
                    src: Seq::empty(),
                    dst: Seq::empty(),
                    protocol: "UNKNOWN"@,
                    info: Seq::empty(),
                    length: pkt.orig_len,
                },
                tree: Seq::empty(),
            };
            match pkt.link_type {
                LinkType::Ethernet => r == ethernet(pkt.data, start, force),
                LinkType::RawIp => r == ip_auto(pkt.data, start, force),
                LinkType::Null => r == null(pkt.data, start, force),
                LinkType::LinuxSll => r == linux_sll(pkt.data, start, force),
                LinkType::Infiniband => r == lrh(pkt.data, start, force),
                LinkType::Other(n) => r == noted(
                    start,
                    "LINK"@,
                    "unsupported DLT "@ + dec_text(n as nat) + ", "@ + dec_text(pkt.data.len())
                        + " bytes"@,
                ),
            }
        }),
        pkt.link_type is Ethernet && pkt.data.len() < 14 ==> {
            &&& dissected(pkt, force).summary.protocol == "ETH"@
            &&& dissected(pkt, force).summary.info == "truncated ethernet header"@
            &&& dissected(pkt, force).tree.len() == 0
        },
{
}

// ---- laws on DNS ----

/// The kinds of DNS operations.
pub proof fn law_dns_operations_are_named(op: nat)
    ensures
        dns_operation(0) == "standard"@,
        dns_operation(1) == "inverse"@,
        dns_operation(2) == "status"@,
        dns_operation(4) == "notify"@,
        dns_operation(5) == "update"@,
        op == 3 || op > 5 ==> dns_operation(op) == "other"@,
{
}

/// A DNS message shows its identifier and whether it is a response, which the
/// top bit of byte 2 says; the operation is the next four bits, the response
/// code the low four bits of byte 3. A name that can be read is shown too.
pub proof fn law_dns_header_is_shown(p: Seq<u8>, d: DissectionView)
    ensures
        p.len() < 12 ==> dns(p, d) == noted(d, "DNS"@, "truncated"@),
        p.len() >= 12 ==> ({
            let r = dns(p, d);
            let l = r.tree.last();
            let id = p[0] * 0x100 + p[1];
            let reply = p[2] >= 0x80;
            let op = (p[2] / 8) % 16;
            let info = "0x"@ + hex_fixed(id as nat, 4) + " "@ + dns_operation(op as nat) + (
            if reply {
                " response qd="@
            } else {
                " query qd="@
            }) + dec_text((p[4] * 0x100 + p[5]) as nat) + (" an="@ + dec_text(
                (p[6] * 0x100 + p[7]) as nat,
            ) + " rcode="@ + dec_text((p[3] % 16) as nat));
            let name = first_qname(p);
            &&& r == continued(
                d,
                d.summary.src,
                d.summary.dst,
                "DNS"@,
                match name {
                    Some(n) => info + (" "@ + n),
                    None => info,
                },
                l,
            )
            &&& is_layer(
                l,
                "Domain Name System"@,
                if name is Some {
                    3
                } else {
                    2
                },
            )
            &&& shows_number(
                l,
                0,
                "dns.id"@,
                id,
                "Transaction ID: 0x"@ + hex_fixed(id as nat, 4),
            )
            &&& shows_number(
                l,
                1,
                "dns.flags.response"@,
                if reply {
                    1
                } else {
                    0
                },
                "Response: "@ + (if reply {
                    "Message is a response"@
                } else {
                    "Message is a query"@
                }),
            )
            &&& name matches Some(n) ==> shows_text(l, 2, "dns.qry.name"@, n, "Name: "@ + n)
        }),
{
    if p.len() >= 12 {
        let flags = be16(p, 2);
        assert(flags / 0x8000 == p[2] / 128);
        assert((flags / 0x800) % 16 == (p[2] / 8) % 16);
        assert(flags % 16 == p[3] % 16);
    }
}

/// Some labels as they stand in a message: each behind a byte with its length.
pub open spec fn wire_labels(ls: Seq<Seq<u8>>) -> Seq<u8>
    decreases ls.len(),
{
    if ls.len() == 0 {
        seq![]
    } else {
        seq![ls[0].len() as u8] + ls[0] + wire_labels(ls.drop_first())
    }
}

/// Whether labels can stand in a domain name: none is empty or longer than 63
/// bytes.
pub open spec fn are_labels(ls: Seq<Seq<u8>>) -> bool {
    forall|i: int| 0 <= i < ls.len() ==> 1 <= (#[trigger] ls[i]).len() <= 63
}

/// A byte as it is shown: itself, or a question mark.
pub open spec fn masked(b: u8) -> char {
    if b <= 0x20 || b >= 0x7f {
        '?'
    } else {
        b as char
    }
}

/// Labels as text.
pub open spec fn label_texts(ls: Seq<Seq<u8>>) -> Seq<Seq<char>> {
    Seq::new(ls.len(), |i: int| Seq::new(ls[i].len(), |k: int| masked(ls[i][k])))
}

proof fn lemma_wire_labels(before: Seq<u8>, ls: Seq<Seq<u8>>, behind: Seq<u8>)
    requires
        are_labels(ls),
    ensures
        ({
            let s = before + wire_labels(ls) + behind;
            labels(s, before.len() as int) == match labels(
                s,
                (before.len() + wire_labels(ls).len()) as int,
            ) {
                Some(more) => Some(label_texts(ls) + more),
                None => None,
            }
        }),
    decreases ls.len(),
{
    let s = before + wire_labels(ls) + behind;
    let i = before.len() as int;
    if ls.len() == 0 {
        let more = labels(s, i);
        if more is Some {
            assert(label_texts(ls) + more->0 =~= more->0);
        }
    } else {
        let a = ls[0];
        let rest = ls.drop_first();
        let next = before + (seq![a.len() as u8] + a);
        let t = next + wire_labels(rest) + behind;
        assert forall|i: int| 0 <= i < rest.len() implies 1 <= (#[trigger] rest[i]).len() <= 63 by {
            assert(rest[i] == ls[i + 1]);
        }
        assert(s =~= t);
        lemma_wire_labels(next, rest, behind);
        assert(s[i] == a.len());
        assert(s.len() >= i + 1 + a.len());
        assert(next.len() == i + 1 + a.len());
        assert(label_text(s, i + 1, a.len()) =~= Seq::new(a.len(), |k: int| masked(ls[0][k]))) by {
            assert forall|k: int| 0 <= k < a.len() implies name_char(s[i + 1 + k]) == masked(
                ls[0][k],
            ) by {
                assert(s[i + 1 + k] == ls[0][k]);
            }
        }
        let more = labels(s, (before.len() + wire_labels(ls).len()) as int);
        if more is Some {
            assert(seq![label_texts(ls)[0]] + (label_texts(rest) + more->0) =~= label_texts(ls)
                + more->0);
        }
    }
}

/// A name that was written into the first question of a message is read back:
/// its labels with dots between, and a question mark for each byte that is not
/// a graphic character. The root has no name.
pub proof fn law_question_names_are_read_back(
    head: Seq<u8>,
    ls: Seq<Seq<u8>>,
    behind: Seq<u8>,
)
    requires
        head.len() == 12,
        are_labels(ls),
    ensures
        first_qname(head + wire_labels(ls) + (seq![0u8] + behind)) == if ls.len() == 0 {
            None
        } else {
            Some(joined(label_texts(ls), "."@))
        },
{
    let end = seq![0u8] + behind;
    let s = head + wire_labels(ls) + end;
    lemma_wire_labels(head, ls, end);
    let j = (head.len() + wire_labels(ls).len()) as int;
    assert(s[j] == 0);
    assert(label_texts(ls) + Seq::<Seq<char>>::empty() =~= label_texts(ls));
}

/// A name that goes on with a compression pointer, or that ends before its
/// empty label or within a label, is not read.
pub proof fn law_unfinished_names_are_not_read(
    head: Seq<u8>,
    ls: Seq<Seq<u8>>,
    n: u8,
    behind: Seq<u8>,
)
    requires
        head.len() == 12,
        are_labels(ls),
        n >= 64 || behind.len() < n,
    ensures
        first_qname(head + wire_labels(ls)) is None,
        first_qname(head + wire_labels(ls) + (seq![n] + behind)) is None,
{
    let end = seq![n] + behind;
    let s = head + wire_labels(ls) + end;
    lemma_wire_labels(head, ls, end);
    let j = (head.len() + wire_labels(ls).len()) as int;
    assert(s[j] == n);
    lemma_wire_labels(head, ls, seq![]);
    assert(head + wire_labels(ls) + seq![] =~= head + wire_labels(ls));
}

/// A VLAN tag that is cut off is not passed over: the frame is shown with the
/// type of the tag.
pub proof fn law_cut_off_vlan_tags_are_shown(p: Seq<u8>, d: DissectionView, force: bool)
    requires
        14 <= p.len() < 18,
        p[12] == 0x81,
        p[13] == 0x00,
        d.summary.info.len() == 0,
    ensures
        ({
            let r = ethernet(p, d, force);
            let l = r.tree.last();
            &&& r == continued(
                d,
                mac_text(p, 6),
                mac_text(p, 0),
                "ETH"@,
                "ethertype 0x"@ + hex_fixed(0x8100, 4),
                l,
            )
            &&& shows_number(
                l,
                2,
                "eth.type"@,
                0x8100,
                "Type: "@ + "802.1Q Virtual LAN"@ + " (0x"@ + hex_fixed(0x8100, 4) + ")"@,
            )
        }),
{
    assert(be16(p, 12) == 0x8100);
}

} // verus!
