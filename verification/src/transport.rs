//! What is found in the tree of a whole packet: what the statistics see of its
//! transport header and of its congestion mark, the fields of its extended
//! headers, and the length of a TCP payload.

use vstd::prelude::*;

#[allow(unused_imports)]
use crate::addr::{ipv4_text, ipv6_text, mac_text};
#[allow(unused_imports)]
use crate::analysis::{number_in, recorded, Qp, RecView};
#[allow(unused_imports)]
use crate::bytes::{be16, be24, be32, be64};
#[allow(unused_imports)]
use crate::congestion::{cong_recorded, CongView};
#[allow(unused_imports)]
use crate::dissect::{
    addressed,
    continued,
    dissected,
    ethernet,
    ethernet_layer,
    informed,
    ipv4,
    ipv4_header_len,
    ipv4_layer,
    ipv4_payload,
    ipv6,
    ipv6_layer,
    ipv6_payload,
    labelled,
    law_ipv4_payload_is_handed_on,
    law_tcp_length_is_that_of_the_payload,
    layered,
    tcp,
    udp,
    udp_layer,
    undissected,
    DissectionView,
};
#[allow(unused_imports)]
use crate::field::{
    entries,
    entries_upto,
    first,
    lemma_named_concat,
    lemma_prefix_named,
    lemma_single,
    named,
    node_entries,
    Entry,
    NodeView,
    ValueView,
};
#[allow(unused_imports)]
use crate::nvme::capsule;
#[allow(unused_imports)]
use crate::pcap::{LinkType, PacketView};
#[allow(unused_imports)]
use crate::roce::{
    aeth,
    bth,
    bth_fields,
    extensions,
    grh,
    grh_layer,
    immdt,
    law_acknowledgement_is_shown,
    law_transport_header_fields,
    law_write_with_immediate_shows_both,
    reth,
    upper_layer,
};
#[allow(unused_imports)]
use crate::text::dec_text;

verus! {

/// Nodes behind the first `k` do not matter to these.
proof fn lemma_entries_prefix(ns: Seq<NodeView>, ms: Seq<NodeView>, k: nat, depth: nat)
    requires
        k <= ns.len(),
        k <= ms.len(),
        forall|i: int| 0 <= i < k ==> ns[i] == ms[i],
    ensures
        entries_upto(ns, k, depth) == entries_upto(ms, k, depth),
    decreases k,
{
    if k > 0 {
        lemma_entries_prefix(ns, ms, (k - 1) as nat, depth);
        assert(ns[k - 1] == ms[k - 1]);
    }
}

/// Fields without the name say nothing about it.
proof fn lemma_unnamed_fields(cs: Seq<NodeView>, k: nat, depth: nat, name: Seq<char>)
    requires
        k <= cs.len(),
        forall|i: int|
            0 <= i < k ==> (#[trigger] cs[i]).children.len() == 0 && cs[i].abbrev != Some(name),
    ensures
        named(entries_upto(cs, k, depth), name) == Seq::<ValueView>::empty(),
    decreases k,
{
    if k > 0 {
        lemma_unnamed_fields(cs, (k - 1) as nat, depth, name);
        lemma_one_field(cs[k - 1], depth, name);
        lemma_named_concat(
            entries_upto(cs, (k - 1) as nat, depth),
            node_entries(cs[k - 1], depth),
            name,
        );
        assert(named(entries_upto(cs, k, depth), name) =~= Seq::empty());
    }
}

/// What a field alone says about a name.
proof fn lemma_one_field(c: NodeView, depth: nat, name: Seq<char>)
    requires
        c.children.len() == 0,
    ensures
        named(node_entries(c, depth), name) == if c.abbrev == Some(name) {
            seq![c.value]
        } else {
            Seq::empty()
        },
{
    let e = Entry { depth, abbrev: c.abbrev, value: c.value, text: c.text };
    lemma_single(e, name);
    assert(entries_upto(c.children, c.children.len(), depth + 1) =~= Seq::empty());
    assert(node_entries(c, depth) =~= seq![e]);
}

/// In a tree that does not say anything about a name, the first field of that
/// name is found in the layer that is added.
pub proof fn lemma_found_in_layer(tree: Seq<NodeView>, layer: NodeView, m: nat, name: Seq<char>)
    requires
        named(entries(tree), name).len() == 0,
        layer.abbrev is None,
        m < layer.children.len(),
        layer.children[m as int].abbrev == Some(name),
        forall|i: int|
            0 <= i <= m ==> (#[trigger] layer.children[i]).children.len() == 0,
        forall|i: int|
            0 <= i < m ==> (#[trigger] layer.children[i]).abbrev != Some(name),
    ensures
        first(named(entries(tree.push(layer)), name)) == Some(layer.children[m as int].value),
{
    let all = tree.push(layer);
    let cs = layer.children;
    let n = tree.len();
    lemma_entries_prefix(all, tree, n, 0);
    assert(entries(all) == entries(tree) + node_entries(layer, 0));
    lemma_named_concat(entries(tree), node_entries(layer, 0), name);
    let head = Entry { depth: 0, abbrev: layer.abbrev, value: layer.value, text: layer.text };
    lemma_single(head, name);
    lemma_named_concat(seq![head], entries_upto(cs, cs.len(), 1), name);
    lemma_unnamed_fields(cs, m, 1, name);
    lemma_one_field(cs[m as int], 1, name);
    lemma_named_concat(entries_upto(cs, m, 1), node_entries(cs[m as int], 1), name);
    lemma_prefix_named(cs, m + 1, cs.len(), 1, name);
    let upto = named(entries_upto(cs, m + 1, 1), name);
    assert(upto =~= seq![cs[m as int].value]);
    let whole = named(entries_upto(cs, cs.len(), 1), name);
    assert(whole[0] == upto[0]);
    assert(named(entries(all), name) =~= whole);
}

/// The names of the first fields of a transport header.
proof fn lemma_names_differ()
    ensures
        "infiniband.bth.opcode"@ != "infiniband.bth.destqp"@,
        "infiniband.bth.opcode"@ != "infiniband.bth.psn"@,
        "infiniband.bth.pkey"@ != "infiniband.bth.destqp"@,
        "infiniband.bth.pkey"@ != "infiniband.bth.psn"@,
        "infiniband.bth.destqp"@ != "infiniband.bth.psn"@,
{
    reveal_strlit("infiniband.bth.opcode");
    reveal_strlit("infiniband.bth.pkey");
    reveal_strlit("infiniband.bth.destqp");
    reveal_strlit("infiniband.bth.psn");
    assert("infiniband.bth.opcode"@[15] != "infiniband.bth.destqp"@[15]);
    assert("infiniband.bth.pkey"@.len() != "infiniband.bth.psn"@.len());
}

/// Whether a tree says nothing yet about a transport header.
pub open spec fn no_transport(tree: Seq<NodeView>) -> bool {
    &&& named(entries(tree), "infiniband.bth.opcode"@).len() == 0
    &&& named(entries(tree), "infiniband.bth.destqp"@).len() == 0
    &&& named(entries(tree), "infiniband.bth.psn"@).len() == 0
}

/// The statistics see of a packet the opcode, the queue pair and the sequence
/// number in its transport header, whatever extended headers and upper layers
/// follow.
pub proof fn law_transport_is_seen(
    p: Seq<u8>,
    d: DissectionView,
    force: bool,
    proto: Seq<char>,
)
    requires
        p.len() >= 12,
        no_transport(d.tree),
    ensures
        ({
            let tree = bth(p, d, force, proto).tree;
            &&& number_in(tree, "infiniband.bth.opcode"@) == Some(p[0] as u64)
            &&& number_in(tree, "infiniband.bth.destqp"@) == Some(be24(p, 5) as u64)
            &&& number_in(tree, "infiniband.bth.psn"@) == Some(be24(p, 9) as u64)
        }),
{
    lemma_names_differ();
    let tree = bth(p, d, force, proto).tree;
    let layer = tree.last();
    assert(tree =~= d.tree.push(layer));
    assert forall|i: int| 0 <= i < 8 implies layer.children[i] == bth_fields(p)[i] by {}
    lemma_found_in_layer(d.tree, layer, 0, "infiniband.bth.opcode"@);
    lemma_found_in_layer(d.tree, layer, 2, "infiniband.bth.destqp"@);
    lemma_found_in_layer(d.tree, layer, 3, "infiniband.bth.psn"@);
}

/// A packet of a reliable connection is recorded with its queue pair and
/// sequence number, and a packet of any other service is not.
pub proof fn law_transport_is_recorded(
    p: Seq<u8>,
    d: DissectionView,
    force: bool,
    proto: Seq<char>,
    framenum: u64,
    dst: Seq<char>,
)
    requires
        p.len() >= 12,
        no_transport(d.tree),
    ensures
        recorded(framenum, dst, bth(p, d, force, proto).tree) == if p[0] < 32 {
            Some(
                RecView {
                    framenum,
                    qp: Qp { dst, qp: be24(p, 5) as u32 },
                    psn: be24(p, 9) as u32,
                },
            )
        } else {
            None
        },
{
    law_transport_is_seen(p, d, force, proto);
}

// ---- whole packets ----

/// Whether a layer has fields alone, all with names shorter than those of a
/// transport header.
spec fn is_plain(layer: NodeView) -> bool {
    &&& layer.abbrev is None
    &&& forall|i: int|
        0 <= i < layer.children.len() ==> {
            &&& (#[trigger] layer.children[i]).children.len() == 0
            &&& layer.children[i].abbrev is Some
            &&& layer.children[i].abbrev->0.len() < 18
        }
}

/// A layer whose fields have other names says nothing about a name.
proof fn lemma_silent_layer(tree: Seq<NodeView>, layer: NodeView, name: Seq<char>)
    requires
        layer.abbrev is None,
        forall|i: int|
            0 <= i < layer.children.len() ==> {
                &&& (#[trigger] layer.children[i]).children.len() == 0
                &&& layer.children[i].abbrev != Some(name)
            },
        named(entries(tree), name).len() == 0,
    ensures
        named(entries(tree.push(layer)), name).len() == 0,
{
    let all = tree.push(layer);
    let cs = layer.children;
    lemma_entries_prefix(all, tree, tree.len(), 0);
    assert(entries(all) == entries(tree) + node_entries(layer, 0));
    lemma_named_concat(entries(tree), node_entries(layer, 0), name);
    let head = Entry { depth: 0, abbrev: layer.abbrev, value: layer.value, text: layer.text };
    lemma_single(head, name);
    lemma_named_concat(seq![head], entries_upto(cs, cs.len(), 1), name);
    lemma_unnamed_fields(cs, cs.len(), 1, name);
}

/// A plain layer says nothing about a long name.
proof fn lemma_plain_layer(tree: Seq<NodeView>, layer: NodeView, name: Seq<char>)
    requires
        is_plain(layer),
        name.len() >= 18,
        named(entries(tree), name).len() == 0,
    ensures
        named(entries(tree.push(layer)), name).len() == 0,
{
    let cs = layer.children;
    assert forall|i: int| 0 <= i < cs.len() implies (#[trigger] cs[i]).children.len() == 0
        && cs[i].abbrev != Some(name) by {
        assert(cs[i].abbrev->0.len() < 18);
    }
    lemma_silent_layer(tree, layer, name);
}

proof fn lemma_transport_names()
    ensures
        "infiniband.bth.opcode"@.len() >= 18,
        "infiniband.bth.destqp"@.len() >= 18,
        "infiniband.bth.psn"@.len() >= 18,
{
    reveal_strlit("infiniband.bth.opcode");
    reveal_strlit("infiniband.bth.destqp");
    reveal_strlit("infiniband.bth.psn");
}

/// Three plain layers say nothing about a transport header.
proof fn lemma_no_transport(a: NodeView, b: NodeView, c: NodeView)
    requires
        is_plain(a),
        is_plain(b),
        is_plain(c),
    ensures
        no_transport(Seq::empty().push(a).push(b).push(c)),
{
    lemma_transport_names();
    let none = Seq::<NodeView>::empty();
    let names = seq![
        "infiniband.bth.opcode"@,
        "infiniband.bth.destqp"@,
        "infiniband.bth.psn"@,
    ];
    assert forall|i: int| 0 <= i < 3 implies named(
        entries(none.push(a).push(b).push(c)),
        #[trigger] names[i],
    ).len() == 0 by {
        assert(entries(none) =~= Seq::empty());
        lemma_plain_layer(none, a, names[i]);
        lemma_plain_layer(none.push(a), b, names[i]);
        lemma_plain_layer(none.push(a).push(b), c, names[i]);
    }
    assert(names[0] == "infiniband.bth.opcode"@);
    assert(names[1] == "infiniband.bth.destqp"@);
    assert(names[2] == "infiniband.bth.psn"@);
}

proof fn lemma_ethernet_is_plain(p: Seq<u8>, etype: nat)
    ensures
        is_plain(ethernet_layer(p, etype)),
{
    reveal_strlit("eth.dst");
    reveal_strlit("eth.src");
    reveal_strlit("eth.type");
}

proof fn lemma_ipv4_is_plain(p: Seq<u8>)
    ensures
        is_plain(ipv4_layer(p)),
{
    reveal_strlit("ip.version");
    reveal_strlit("ip.hdr_len");
    reveal_strlit("ip.dsfield.ecn");
    reveal_strlit("ip.len");
    reveal_strlit("ip.ttl");
    reveal_strlit("ip.proto");
    reveal_strlit("ip.src");
    reveal_strlit("ip.dst");
}

proof fn lemma_ipv6_is_plain(p: Seq<u8>)
    ensures
        is_plain(ipv6_layer(p)),
{
    reveal_strlit("ipv6.version");
    reveal_strlit("ipv6.dsfield.ecn");
    reveal_strlit("ipv6.plen");
    reveal_strlit("ipv6.nxt");
    reveal_strlit("ipv6.hlim");
    reveal_strlit("ipv6.src");
    reveal_strlit("ipv6.dst");
}

proof fn lemma_udp_is_plain(p: Seq<u8>)
    ensures
        is_plain(udp_layer(p)),
{
    reveal_strlit("udp.srcport");
    reveal_strlit("udp.dstport");
    reveal_strlit("udp.length");
}

/// Whether a UDP datagram carries a whole transport header to or from the
/// RoCEv2 port.
pub open spec fn carries_transport(u: Seq<u8>) -> bool {
    &&& u.len() >= 20
    &&& be16(u, 0) == 4791 || be16(u, 2) == 4791
}

/// The record of a RoCEv2 datagram.
pub open spec fn datagram_record(framenum: u64, dst: Seq<char>, u: Seq<u8>) -> Option<RecView> {
    if u[8] < 32 {
        Some(
            RecView {
                framenum,
                qp: Qp { dst, qp: be24(u, 13) as u32 },
                psn: be24(u, 17) as u32,
            },
        )
    } else {
        None
    }
}

proof fn lemma_datagram(
    u: Seq<u8>,
    d: DissectionView,
    eth: NodeView,
    ip: NodeView,
    force: bool,
    framenum: u64,
)
    requires
        carries_transport(u),
        d.tree == Seq::empty().push(eth).push(ip),
        is_plain(eth),
        is_plain(ip),
    ensures
        udp(u, d, force).summary.dst == d.summary.dst,
        recorded(framenum, d.summary.dst, udp(u, d, force).tree) == datagram_record(
            framenum,
            d.summary.dst,
            u,
        ),
{
    lemma_udp_is_plain(u);
    lemma_no_transport(eth, ip, udp_layer(u));
    let sport = be16(u, 0);
    let dport = be16(u, 2);
    let length = be16(u, 4);
    let body = if length < 8 {
        0
    } else {
        (length - 8) as nat
    };
    let here = layered(
        informed(
            labelled(d, "UDP"@),
            dec_text(sport) + " \u{2192} "@ + dec_text(dport) + "  Len="@ + dec_text(body),
        ),
        udp_layer(u),
    );
    let p = u.skip(8);
    assert(udp(u, d, force) == bth(p, here, force, "RoCE"@));
    assert(here.tree =~= Seq::empty().push(eth).push(ip).push(udp_layer(u)));
    law_transport_is_recorded(p, here, force, "RoCE"@, framenum, d.summary.dst);
    assert(be24(p, 5) == be24(u, 13));
    assert(be24(p, 9) == be24(u, 17));
}

/// The IPv4 packet in an untagged Ethernet frame, if there is one with a whole
/// header that holds UDP.
pub open spec fn is_udp_over_ipv4(data: Seq<u8>) -> bool {
    let p = data.skip(14);
    &&& data.len() >= 34
    &&& be16(data, 12) == 0x0800
    &&& 20 <= ipv4_header_len(p) <= p.len()
    &&& p[9] == 17
}

/// The IPv6 packet in an untagged Ethernet frame, if there is one with a whole
/// header that holds UDP.
pub open spec fn is_udp_over_ipv6(data: Seq<u8>) -> bool {
    let p = data.skip(14);
    &&& data.len() >= 54
    &&& be16(data, 12) == 0x86dd
    &&& p[6] == 17
}

/// Every RoCEv2 packet over Ethernet and IPv4 is recorded for its destination
/// address and queue pair with its sequence number, if it is one of a reliable
/// connection.
pub proof fn law_rocev2_over_ipv4_is_recorded(pkt: PacketView, force: bool, framenum: u64)
    requires
        pkt.link_type == LinkType::Ethernet,
        is_udp_over_ipv4(pkt.data),
        carries_transport(ipv4_payload(pkt.data.skip(14))),
    ensures
        ({
            let d = dissected(pkt, force);
            let p = pkt.data.skip(14);
            &&& d.summary.dst == ipv4_text(p, 16)
            &&& recorded(framenum, d.summary.dst, d.tree) == datagram_record(
                framenum,
                ipv4_text(p, 16),
                ipv4_payload(p),
            )
        }),
{
    let data = pkt.data;
    let p = data.skip(14);
    let start = undissected(pkt.orig_len);
    let eth = ethernet_layer(data, be16(data, 12));
    let here = layered(
        addressed(labelled(start, "ETH"@), mac_text(data, 6), mac_text(data, 0)),
        eth,
    );
    let there = layered(
        addressed(labelled(here, "IPv4"@), ipv4_text(p, 12), ipv4_text(p, 16)),
        ipv4_layer(p),
    );
    assert(ethernet(data, start, force) == ipv4(p, here, force));
    assert(ipv4(p, here, force) == udp(ipv4_payload(p), there, force));
    lemma_ethernet_is_plain(data, be16(data, 12));
    lemma_ipv4_is_plain(p);
    lemma_datagram(ipv4_payload(p), there, eth, ipv4_layer(p), force, framenum);
}

/// Every RoCEv2 packet over Ethernet and IPv6 is recorded for its destination
/// address and queue pair with its sequence number, if it is one of a reliable
/// connection.
pub proof fn law_rocev2_over_ipv6_is_recorded(pkt: PacketView, force: bool, framenum: u64)
    requires
        pkt.link_type == LinkType::Ethernet,
        is_udp_over_ipv6(pkt.data),
        carries_transport(ipv6_payload(pkt.data.skip(14))),
    ensures
        ({
            let d = dissected(pkt, force);
            let p = pkt.data.skip(14);
            &&& d.summary.dst == ipv6_text(p, 24)
            &&& recorded(framenum, d.summary.dst, d.tree) == datagram_record(
                framenum,
                ipv6_text(p, 24),
                ipv6_payload(p),
            )
        }),
{
    let data = pkt.data;
    let p = data.skip(14);
    let start = undissected(pkt.orig_len);
    let eth = ethernet_layer(data, be16(data, 12));
    let here = layered(
        addressed(labelled(start, "ETH"@), mac_text(data, 6), mac_text(data, 0)),
        eth,
    );
    let there = layered(
        addressed(labelled(here, "IPv6"@), ipv6_text(p, 8), ipv6_text(p, 24)),
        ipv6_layer(p),
    );
    assert(ethernet(data, start, force) == ipv6(p, here, force));
    assert(ipv6(p, here, force) == udp(ipv6_payload(p), there, force));
    lemma_ethernet_is_plain(data, be16(data, 12));
    lemma_ipv6_is_plain(p);
    lemma_datagram(ipv6_payload(p), there, eth, ipv6_layer(p), force, framenum);
}

// ---- what is not a transport header ----

/// The fields of a Global Route Header have names of their own.
proof fn lemma_route_names(p: Seq<u8>)
    ensures
        forall|i: int|
            0 <= i < grh_layer(p).children.len() ==> {
                let c = #[trigger] grh_layer(p).children[i];
                c.children.len() == 0 && c.abbrev is Some && c.abbrev->0.len() > 11
                    && c.abbrev->0[11] == 'g'
            },
        "infiniband.bth.opcode"@[11] == 'b',
        "infiniband.bth.destqp"@[11] == 'b',
        "infiniband.bth.psn"@[11] == 'b',
{
    reveal_strlit("infiniband.grh.ipver");
    reveal_strlit("infiniband.grh.tclass");
    reveal_strlit("infiniband.grh.flowlabel");
    reveal_strlit("infiniband.grh.paylen");
    reveal_strlit("infiniband.grh.nxthdr");
    reveal_strlit("infiniband.grh.hoplmt");
    reveal_strlit("infiniband.grh.sgid");
    reveal_strlit("infiniband.grh.dgid");
    reveal_strlit("infiniband.bth.opcode");
    reveal_strlit("infiniband.bth.destqp");
    reveal_strlit("infiniband.bth.psn");
}

/// What a Global Route Header does not announce as a transport header is not
/// taken for one: nothing but the route header is added, and no report counts
/// the packet.
pub proof fn law_other_next_headers_are_not_followed(
    p: Seq<u8>,
    d: DissectionView,
    force: bool,
    proto: Seq<char>,
    framenum: u64,
    dst: Seq<char>,
)
    requires
        p.len() >= 40,
        p[6] != 0x1b,
        no_transport(d.tree),
    ensures
        ({
            let r = grh(p, d, force, proto);
            &&& r.tree == d.tree.push(grh_layer(p))
            &&& r.summary.src == ipv6_text(p, 8)
            &&& r.summary.dst == ipv6_text(p, 24)
            &&& no_transport(r.tree)
            &&& recorded(framenum, dst, r.tree) is None
            &&& cong_recorded(dst, r.tree) is None
        }),
{
    lemma_route_names(p);
    let layer = grh_layer(p);
    lemma_silent_layer(d.tree, layer, "infiniband.bth.opcode"@);
    lemma_silent_layer(d.tree, layer, "infiniband.bth.destqp"@);
    lemma_silent_layer(d.tree, layer, "infiniband.bth.psn"@);
}

// ---- extended headers ----

/// The names of the fields of a transport header, and of those of extended
/// headers, differ in their twelfth character.
proof fn lemma_header_names()
    ensures
        "infiniband.bth.opcode"@[11] == 'b',
        "infiniband.bth.pkey"@[11] == 'b',
        "infiniband.bth.destqp"@[11] == 'b',
        "infiniband.bth.psn"@[11] == 'b',
        "infiniband.bth.se"@[11] == 'b',
        "infiniband.bth.ackreq"@[11] == 'b',
        "infiniband.bth.fecn"@[11] == 'b',
        "infiniband.bth.becn"@[11] == 'b',
        "infiniband.reth.va"@[11] == 'r',
        "infiniband.reth.rkey"@[11] == 'r',
        "infiniband.reth.dmalen"@[11] == 'r',
        "infiniband.aeth.syndrome"@[11] == 'a',
        "infiniband.aeth.msn"@[11] == 'a',
        "infiniband.immdt.immediatedata"@[11] == 'i',
        "infiniband.reth.va"@.len() == 18,
        "infiniband.reth.rkey"@.len() == 20,
        "infiniband.reth.dmalen"@.len() == 22,
        "infiniband.aeth.syndrome"@.len() == 24,
        "infiniband.aeth.msn"@.len() == 19,
{
    reveal_strlit("infiniband.bth.opcode");
    reveal_strlit("infiniband.bth.pkey");
    reveal_strlit("infiniband.bth.destqp");
    reveal_strlit("infiniband.bth.psn");
    reveal_strlit("infiniband.bth.se");
    reveal_strlit("infiniband.bth.ackreq");
    reveal_strlit("infiniband.bth.fecn");
    reveal_strlit("infiniband.bth.becn");
    reveal_strlit("infiniband.reth.va");
    reveal_strlit("infiniband.reth.rkey");
    reveal_strlit("infiniband.reth.dmalen");
    reveal_strlit("infiniband.aeth.syndrome");
    reveal_strlit("infiniband.aeth.msn");
    reveal_strlit("infiniband.immdt.immediatedata");
}

/// Whether a tree says nothing about a name.
pub open spec fn is_silent_on(tree: Seq<NodeView>, name: Seq<char>) -> bool {
    named(entries(tree), name).len() == 0
}

proof fn lemma_behind_header(
    p: Seq<u8>,
    d: DissectionView,
    force: bool,
    proto: Seq<char>,
    m: nat,
    name: Seq<char>,
)
    requires
        p.len() >= 12,
        is_silent_on(d.tree, name),
        name[11] != 'b',
        ({
            let l = bth(p, d, force, proto).tree.last();
            &&& 8 <= m < l.children.len()
            &&& l.children[m as int].abbrev == Some(name)
            &&& forall|i: int|
                8 <= i <= m ==> (#[trigger] l.children[i]).children.len() == 0 && (i < m
                    ==> l.children[i].abbrev != Some(name))
        }),
    ensures
        ({
            let r = bth(p, d, force, proto);
            first(named(entries(r.tree), name)) == Some(r.tree.last().children[m as int].value)
        }),
{
    let r = bth(p, d, force, proto);
    let l = r.tree.last();
    law_transport_header_fields(p, d, force, proto);
    lemma_header_names();
    assert forall|i: int| 0 <= i < m implies (#[trigger] l.children[i]).abbrev != Some(name) by {
        if i < 8 {
            assert(l.children[i] == bth_fields(p)[i]);
        }
    }
    assert forall|i: int| 0 <= i <= m implies (#[trigger] l.children[i]).children.len() == 0 by {
        if i < 8 {
            assert(l.children[i] == bth_fields(p)[i]);
        }
    }
    lemma_found_in_layer(d.tree, l, m, name);
}

/// The address, key and length of every RDMA WRITE First, WRITE Only, WRITE
/// Only with immediate data and READ Request can be filtered and extracted:
/// they are the big-endian numbers at bytes 12, 20 and 24.
pub proof fn law_rdma_header_is_found(
    p: Seq<u8>,
    d: DissectionView,
    force: bool,
    proto: Seq<char>,
)
    requires
        p[0] < 0x60,
        p[0] % 32 == 0x06 || p[0] % 32 == 0x0a || p[0] % 32 == 0x0b || p[0] % 32 == 0x0c,
        p.len() >= 28,
        is_silent_on(d.tree, "infiniband.reth.va"@),
        is_silent_on(d.tree, "infiniband.reth.rkey"@),
        is_silent_on(d.tree, "infiniband.reth.dmalen"@),
    ensures
        ({
            let tree = bth(p, d, force, proto).tree;
            &&& number_in(tree, "infiniband.reth.va"@) == Some(be64(p, 12) as u64)
            &&& number_in(tree, "infiniband.reth.rkey"@) == Some(be32(p, 20) as u64)
            &&& number_in(tree, "infiniband.reth.dmalen"@) == Some(be32(p, 24) as u64)
        }),
{
    lemma_header_names();
    let ext = p.skip(12);
    let a = reth(ext);
    let x = extensions(p[0], ext);
    let l = bth(p, d, force, proto).tree.last();
    assert(a.fields.len() == 3);
    assert(x.fields.len() >= 3);
    assert forall|k: int| 0 <= k < 3 implies #[trigger] l.children[8 + k] == a.fields[k] by {
        assert(x.fields[k] == a.fields[k]);
    }
    assert(l.children[8] == a.fields[0] && l.children[9] == a.fields[1] && l.children[10]
        == a.fields[2]) by {
        assert(l.children[8 + 0int] == a.fields[0]);
        assert(l.children[8 + 1int] == a.fields[1]);
        assert(l.children[8 + 2int] == a.fields[2]);
    }
    assert(be64(ext, 0) == be64(p, 12));
    assert(be32(ext, 8) == be32(p, 20));
    assert(be32(ext, 12) == be32(p, 24));
    lemma_behind_header(p, d, force, proto, 8, "infiniband.reth.va"@);
    lemma_behind_header(p, d, force, proto, 9, "infiniband.reth.rkey"@);
    lemma_behind_header(p, d, force, proto, 10, "infiniband.reth.dmalen"@);
}

/// The syndrome and message sequence number of every acknowledgement can be
/// filtered and extracted.
pub proof fn law_acknowledgement_is_found(
    p: Seq<u8>,
    d: DissectionView,
    force: bool,
    proto: Seq<char>,
)
    requires
        p.len() >= 16,
        p[0] < 0x60,
        p[0] % 32 == 0x11 || p[0] % 32 == 0x12,
        is_silent_on(d.tree, "infiniband.aeth.syndrome"@),
        is_silent_on(d.tree, "infiniband.aeth.msn"@),
    ensures
        ({
            let tree = bth(p, d, force, proto).tree;
            &&& number_in(tree, "infiniband.aeth.syndrome"@) == Some(p[12] as u64)
            &&& number_in(tree, "infiniband.aeth.msn"@) == Some(be24(p, 13) as u64)
        }),
{
    lemma_header_names();
    law_acknowledgement_is_shown(p, d, force, proto);
    lemma_behind_header(p, d, force, proto, 8, "infiniband.aeth.syndrome"@);
    lemma_behind_header(p, d, force, proto, 9, "infiniband.aeth.msn"@);
}

/// The immediate data of every operation that carries some can be filtered and
/// extracted: of SEND Last, SEND Only and WRITE Last it is the number at byte
/// 12, of WRITE Only, behind the RDMA header, that at byte 28.
pub proof fn law_immediate_data_is_found(
    p: Seq<u8>,
    d: DissectionView,
    force: bool,
    proto: Seq<char>,
)
    requires
        p[0] < 0x60,
        p[0] % 32 == 0x03 || p[0] % 32 == 0x05 || p[0] % 32 == 0x09 || p[0] % 32 == 0x0b,
        p.len() >= if p[0] % 32 == 0x0b {
            32int
        } else {
            16
        },
        is_silent_on(d.tree, "infiniband.immdt.immediatedata"@),
    ensures
        number_in(bth(p, d, force, proto).tree, "infiniband.immdt.immediatedata"@) == Some(
            be32(
                p,
                if p[0] % 32 == 0x0b {
                    28
                } else {
                    12
                },
            ) as u64,
        ),
{
    lemma_header_names();
    if p[0] % 32 == 0x0b {
        law_write_with_immediate_shows_both(p, d, force, proto);
        lemma_behind_header(p, d, force, proto, 11, "infiniband.immdt.immediatedata"@);
    } else {
        let ext = p.skip(12);
        let c = immdt(ext);
        let x = extensions(p[0], ext);
        assert(ext.skip(0) =~= ext);
        assert(x.fields =~= c.fields);
        assert(be32(ext, 0) == be32(p, 12));
        let l = bth(p, d, force, proto).tree.last();
        assert(l.children[8] == c.fields[0]);
        lemma_behind_header(p, d, force, proto, 8, "infiniband.immdt.immediatedata"@);
    }
}

// ---- congestion ----

/// Whether a name is neither one of IPv4 nor one of IPv6.
spec fn is_foreign(a: Seq<char>) -> bool {
    a.len() > 1 && a[1] != 'p'
}

/// Whether fields all have foreign names.
spec fn are_foreign(cs: Seq<NodeView>) -> bool {
    forall|i: int|
        0 <= i < cs.len() ==> {
            &&& (#[trigger] cs[i]).children.len() == 0
            &&& cs[i].abbrev is Some
            &&& is_foreign(cs[i].abbrev->0)
        }
}

proof fn lemma_foreign_concat(a: Seq<NodeView>, b: Seq<NodeView>)
    requires
        are_foreign(a),
        are_foreign(b),
    ensures
        are_foreign(a + b),
{
    assert forall|i: int| 0 <= i < (a + b).len() implies {
        &&& (#[trigger] (a + b)[i]).children.len() == 0
        &&& (a + b)[i].abbrev is Some
        &&& is_foreign((a + b)[i].abbrev->0)
    } by {
        if i < a.len() {
            assert((a + b)[i] == a[i]);
        } else {
            assert((a + b)[i] == b[i - a.len()]);
        }
    }
}

proof fn lemma_header_is_foreign(p: Seq<u8>)
    ensures
        are_foreign(bth_fields(p)),
{
    lemma_foreign_names();
}

proof fn lemma_foreign_names()
    ensures
        is_foreign("infiniband.bth.opcode"@),
        is_foreign("infiniband.bth.pkey"@),
        is_foreign("infiniband.bth.destqp"@),
        is_foreign("infiniband.bth.psn"@),
        is_foreign("infiniband.bth.se"@),
        is_foreign("infiniband.bth.ackreq"@),
        is_foreign("infiniband.bth.fecn"@),
        is_foreign("infiniband.bth.becn"@),
        is_foreign("infiniband.reth.va"@),
        is_foreign("infiniband.reth.rkey"@),
        is_foreign("infiniband.reth.dmalen"@),
        is_foreign("infiniband.aeth.syndrome"@),
        is_foreign("infiniband.aeth.msn"@),
        is_foreign("infiniband.immdt.immediatedata"@),
{
    reveal_strlit("infiniband.bth.opcode");
    reveal_strlit("infiniband.bth.pkey");
    reveal_strlit("infiniband.bth.destqp");
    reveal_strlit("infiniband.bth.psn");
    reveal_strlit("infiniband.bth.se");
    reveal_strlit("infiniband.bth.ackreq");
    reveal_strlit("infiniband.bth.fecn");
    reveal_strlit("infiniband.bth.becn");
    reveal_strlit("infiniband.reth.va");
    reveal_strlit("infiniband.reth.rkey");
    reveal_strlit("infiniband.reth.dmalen");
    reveal_strlit("infiniband.aeth.syndrome");
    reveal_strlit("infiniband.aeth.msn");
    reveal_strlit("infiniband.immdt.immediatedata");
}

proof fn lemma_extensions_are_foreign(opcode: u8, ext: Seq<u8>)
    ensures
        are_foreign(extensions(opcode, ext).fields),
{
    lemma_foreign_names();
    let op = opcode % 32;
    let none = Seq::<NodeView>::empty();
    assert(are_foreign(none));
    assert(are_foreign(reth(ext).fields));
    if opcode / 32 <= 2 {
        let x = crate::roce::no_extension();
        let a = if crate::roce::has_reth(op) {
            reth(ext)
        } else {
            x
        };
        let b = if crate::roce::has_aeth(op) {
            aeth(ext.skip(a.used as int))
        } else {
            x
        };
        let c = if crate::roce::has_immdt(op) {
            immdt(ext.skip((a.used + b.used) as int))
        } else {
            x
        };
        assert(are_foreign(a.fields));
        assert(are_foreign(b.fields));
        assert(are_foreign(c.fields));
        lemma_foreign_concat(a.fields, b.fields);
        lemma_foreign_concat(a.fields + b.fields, c.fields);
    }
}

proof fn lemma_capsule_is_foreign(c: Seq<u8>, force: bool)
    ensures
        capsule(c, force) matches Some(k) ==> k.node.abbrev is None && are_foreign(
            k.node.children,
        ),
{
    reveal_strlit("nvme.cmd.opcode");
    reveal_strlit("nvmeof.fctype");
    reveal_strlit("nvme.cmd.cid");
    reveal_strlit("nvme.cmd.nsid");
    reveal_strlit("nvme.cmd.slba");
    reveal_strlit("nvme.cmd.nlb");
    reveal_strlit("nvme.cqe.cid");
    reveal_strlit("nvme.cqe.status");
    if let Some(k) = capsule(c, force) {
        let n = k.node.children.len();
        assert(n <= 5);
        assert forall|i: int| 0 <= i < n implies {
            &&& (#[trigger] k.node.children[i]).children.len() == 0
            &&& k.node.children[i].abbrev is Some
            &&& is_foreign(k.node.children[i].abbrev->0)
        } by {}
    }
}

proof fn lemma_foreign_fields(cs: Seq<NodeView>, k: nat, depth: nat, name: Seq<char>)
    requires
        k <= cs.len(),
        are_foreign(cs),
        name.len() > 1,
        name[1] == 'p',
    ensures
        named(entries_upto(cs, k, depth), name) == Seq::<ValueView>::empty(),
{
    assert forall|i: int| 0 <= i < k implies (#[trigger] cs[i]).children.len() == 0
        && cs[i].abbrev != Some(name) by {
        assert(is_foreign(cs[i].abbrev->0));
    }
    lemma_unnamed_fields(cs, k, depth, name);
}

/// A transport header, with whatever follows it, says nothing about names of
/// IPv4 or IPv6.
proof fn lemma_transport_is_foreign(
    p: Seq<u8>,
    d: DissectionView,
    force: bool,
    proto: Seq<char>,
    name: Seq<char>,
)
    requires
        p.len() >= 12,
        name.len() > 1,
        name[1] == 'p',
    ensures
        named(node_entries(bth(p, d, force, proto).tree.last(), 0), name) == Seq::<
            ValueView,
        >::empty(),
{
    let l = bth(p, d, force, proto).tree.last();
    let ext = p.skip(12);
    let fields = bth_fields(p) + extensions(p[0], ext).fields;
    lemma_header_is_foreign(p);
    lemma_extensions_are_foreign(p[0], ext);
    lemma_foreign_concat(bth_fields(p), extensions(p[0], ext).fields);
    let n = fields.len();
    let cs = l.children;
    let head = Entry { depth: 0, abbrev: l.abbrev, value: l.value, text: l.text };
    lemma_single(head, name);
    lemma_named_concat(seq![head], entries_upto(cs, cs.len(), 1), name);
    lemma_foreign_fields(fields, n, 1, name);
    lemma_entries_prefix(cs, fields, n, 1);
    if let Some(c) = upper_layer(p, force) {
        let payload = crate::roce::without_checksum(
            ext.skip(extensions(p[0], ext).used as int),
        );
        lemma_capsule_is_foreign(payload, force);
        assert(cs =~= fields.push(c.node));
        lemma_foreign_fields(c.node.children, c.node.children.len(), 2, name);
        let inner = Entry {
            depth: 1,
            abbrev: c.node.abbrev,
            value: c.node.value,
            text: c.node.text,
        };
        lemma_single(inner, name);
        lemma_named_concat(
            seq![inner],
            entries_upto(c.node.children, c.node.children.len(), 2),
            name,
        );
        lemma_named_concat(entries_upto(cs, n, 1), node_entries(c.node, 1), name);
        assert(entries_upto(cs, cs.len(), 1) == entries_upto(cs, n, 1) + node_entries(c.node, 1));
    } else {
        assert(cs =~= fields);
    }
    assert(named(node_entries(l, 0), name) =~= Seq::empty());
}

/// What a layer says of a name stays what it is, whatever layers follow that
/// do not speak of it.
proof fn lemma_layer_says(tree: Seq<NodeView>, layer: NodeView, name: Seq<char>)
    requires
        named(node_entries(layer, 0), name) == Seq::<ValueView>::empty(),
    ensures
        named(entries(tree.push(layer)), name) == named(entries(tree), name),
{
    let all = tree.push(layer);
    lemma_entries_prefix(all, tree, tree.len(), 0);
    assert(entries(all) == entries(tree) + node_entries(layer, 0));
    lemma_named_concat(entries(tree), node_entries(layer, 0), name);
    assert(named(entries(all), name) =~= named(entries(tree), name));
}

proof fn lemma_leaves_silent(layer: NodeView, name: Seq<char>)
    requires
        layer.abbrev is None,
        forall|i: int|
            0 <= i < layer.children.len() ==> {
                &&& (#[trigger] layer.children[i]).children.len() == 0
                &&& layer.children[i].abbrev != Some(name)
            },
    ensures
        named(node_entries(layer, 0), name) == Seq::<ValueView>::empty(),
{
    let cs = layer.children;
    let head = Entry { depth: 0, abbrev: layer.abbrev, value: layer.value, text: layer.text };
    lemma_single(head, name);
    lemma_named_concat(seq![head], entries_upto(cs, cs.len(), 1), name);
    lemma_unnamed_fields(cs, cs.len(), 1, name);
    assert(named(node_entries(layer, 0), name) =~= Seq::empty());
}

/// The congestion record of a RoCEv2 datagram in an IP packet with a given
/// mark.
pub open spec fn datagram_mark(dst: Seq<char>, u: Seq<u8>, marked: bool) -> Option<CongView> {
    Some(
        CongView {
            qp: Qp { dst, qp: (u[13] * 0x1_0000 + u[14] * 0x100 + u[15]) as u32 },
            marked,
            cnp: u[8] == 0x81,
        },
    )
}

proof fn lemma_marked_names()
    ensures
        "ip.dsfield.ecn"@.len() == 14,
        "ipv6.dsfield.ecn"@.len() == 16,
        "ip.dsfield.ecn"@[1] == 'p',
        "ipv6.dsfield.ecn"@[1] == 'p',
        "eth.dst"@.len() < 14,
        "eth.src"@.len() < 14,
        "eth.type"@.len() < 14,
        "udp.srcport"@.len() < 14,
        "udp.dstport"@.len() < 14,
        "udp.length"@.len() < 14,
        "ip.version"@.len() < 14,
        "ip.hdr_len"@.len() < 14,
        "ip.len"@.len() < 14,
        "ip.ttl"@.len() < 14,
        "ip.proto"@.len() < 14,
        "ip.src"@.len() < 14,
        "ip.dst"@.len() < 14,
        "ipv6.version"@.len() < 14,
        "ipv6.plen"@.len() < 14,
        "ipv6.nxt"@.len() < 14,
        "ipv6.hlim"@.len() < 14,
        "ipv6.src"@.len() < 14,
        "ipv6.dst"@.len() < 14,
{
    reveal_strlit("ip.dsfield.ecn");
    reveal_strlit("ipv6.dsfield.ecn");
    reveal_strlit("eth.dst");
    reveal_strlit("eth.src");
    reveal_strlit("eth.type");
    reveal_strlit("udp.srcport");
    reveal_strlit("udp.dstport");
    reveal_strlit("udp.length");
    reveal_strlit("ip.version");
    reveal_strlit("ip.hdr_len");
    reveal_strlit("ip.len");
    reveal_strlit("ip.ttl");
    reveal_strlit("ip.proto");
    reveal_strlit("ip.src");
    reveal_strlit("ip.dst");
    reveal_strlit("ipv6.version");
    reveal_strlit("ipv6.plen");
    reveal_strlit("ipv6.nxt");
    reveal_strlit("ipv6.hlim");
    reveal_strlit("ipv6.src");
    reveal_strlit("ipv6.dst");
}

/// What a RoCEv2 datagram below an Ethernet and an IP layer says: its own
/// transport header, and what the IP layer says of congestion.
proof fn lemma_marked_datagram(
    u: Seq<u8>,
    d: DissectionView,
    eth: NodeView,
    ip: NodeView,
    force: bool,
    name: Seq<char>,
)
    requires
        carries_transport(u),
        d.tree == Seq::empty().push(eth).push(ip),
        is_plain(eth),
        is_plain(ip),
        name.len() >= 14,
        name[1] == 'p',
    ensures
        ({
            let r = udp(u, d, force);
            &&& r.summary.dst == d.summary.dst
            &&& number_in(r.tree, "infiniband.bth.opcode"@) == Some(u[8] as u64)
            &&& number_in(r.tree, "infiniband.bth.destqp"@) == Some(be24(u, 13) as u64)
            &&& named(entries(r.tree), name) == named(entries(d.tree), name)
        }),
{
    lemma_udp_is_plain(u);
    lemma_no_transport(eth, ip, udp_layer(u));
    lemma_marked_names();
    let sport = be16(u, 0);
    let dport = be16(u, 2);
    let length = be16(u, 4);
    let body = if length < 8 {
        0
    } else {
        (length - 8) as nat
    };
    let here = layered(
        informed(
            labelled(d, "UDP"@),
            dec_text(sport) + " \u{2192} "@ + dec_text(dport) + "  Len="@ + dec_text(body),
        ),
        udp_layer(u),
    );
    let p = u.skip(8);
    let r = udp(u, d, force);
    assert(r == bth(p, here, force, "RoCE"@));
    assert(here.tree =~= Seq::empty().push(eth).push(ip).push(udp_layer(u)));
    law_transport_is_seen(p, here, force, "RoCE"@);
    assert(be24(p, 5) == be24(u, 13));
    assert(p[0] == u[8]);
    law_transport_header_fields(p, here, force, "RoCE"@);
    lemma_transport_is_foreign(p, here, force, "RoCE"@, name);
    lemma_layer_says(here.tree, r.tree.last(), name);
    lemma_leaves_silent(udp_layer(u), name);
    lemma_layer_says(d.tree, udp_layer(u), name);
}

/// The congestion record of every RoCEv2 packet over Ethernet and IPv4 is for
/// its destination address and queue pair. It is marked exactly if the low two
/// bits of the second byte of the IP header are both set, and a notification
/// exactly if the opcode is 0x81.
pub proof fn law_congestion_over_ipv4_is_recorded(pkt: PacketView, force: bool)
    requires
        pkt.link_type == LinkType::Ethernet,
        is_udp_over_ipv4(pkt.data),
        carries_transport(ipv4_payload(pkt.data.skip(14))),
    ensures
        ({
            let d = dissected(pkt, force);
            let p = pkt.data.skip(14);
            cong_recorded(d.summary.dst, d.tree) == datagram_mark(
                ipv4_text(p, 16),
                ipv4_payload(p),
                p[1] % 4 == 3,
            )
        }),
{
    let data = pkt.data;
    let p = data.skip(14);
    let start = undissected(pkt.orig_len);
    let eth = ethernet_layer(data, be16(data, 12));
    let ip = ipv4_layer(p);
    let here = layered(
        addressed(labelled(start, "ETH"@), mac_text(data, 6), mac_text(data, 0)),
        eth,
    );
    let there = layered(
        addressed(labelled(here, "IPv4"@), ipv4_text(p, 12), ipv4_text(p, 16)),
        ip,
    );
    let u = ipv4_payload(p);
    assert(ethernet(data, start, force) == ipv4(p, here, force));
    assert(ipv4(p, here, force) == udp(u, there, force));
    lemma_ethernet_is_plain(data, be16(data, 12));
    lemma_ipv4_is_plain(p);
    lemma_marked_names();
    lemma_marked_datagram(u, there, eth, ip, force, "ip.dsfield.ecn"@);
    lemma_marked_datagram(u, there, eth, ip, force, "ipv6.dsfield.ecn"@);
    let none = Seq::<NodeView>::empty();
    assert(entries(none) =~= Seq::empty());
    lemma_silent_layer(none, eth, "ip.dsfield.ecn"@);
    lemma_silent_layer(none, eth, "ipv6.dsfield.ecn"@);
    lemma_silent_layer(none.push(eth), ip, "ipv6.dsfield.ecn"@);
    lemma_found_in_layer(none.push(eth), ip, 2, "ip.dsfield.ecn"@);
    assert(there.tree =~= none.push(eth).push(ip));
}

/// The congestion record of every RoCEv2 packet over Ethernet and IPv6 is for
/// its destination address and queue pair. It is marked exactly if the low two
/// bits of the traffic class, bits 5 and 4 of the second byte of the IP
/// header, are both set, and a notification exactly if the opcode is 0x81.
pub proof fn law_congestion_over_ipv6_is_recorded(pkt: PacketView, force: bool)
    requires
        pkt.link_type == LinkType::Ethernet,
        is_udp_over_ipv6(pkt.data),
        carries_transport(ipv6_payload(pkt.data.skip(14))),
    ensures
        ({
            let d = dissected(pkt, force);
            let p = pkt.data.skip(14);
            cong_recorded(d.summary.dst, d.tree) == datagram_mark(
                ipv6_text(p, 24),
                ipv6_payload(p),
                (p[1] / 16) % 4 == 3,
            )
        }),
{
    let data = pkt.data;
    let p = data.skip(14);
    let start = undissected(pkt.orig_len);
    let eth = ethernet_layer(data, be16(data, 12));
    let ip = ipv6_layer(p);
    let here = layered(
        addressed(labelled(start, "ETH"@), mac_text(data, 6), mac_text(data, 0)),
        eth,
    );
    let there = layered(
        addressed(labelled(here, "IPv6"@), ipv6_text(p, 8), ipv6_text(p, 24)),
        ip,
    );
    let u = ipv6_payload(p);
    assert(ethernet(data, start, force) == ipv6(p, here, force));
    assert(ipv6(p, here, force) == udp(u, there, force));
    lemma_ethernet_is_plain(data, be16(data, 12));
    lemma_ipv6_is_plain(p);
    lemma_marked_names();
    lemma_marked_datagram(u, there, eth, ip, force, "ip.dsfield.ecn"@);
    lemma_marked_datagram(u, there, eth, ip, force, "ipv6.dsfield.ecn"@);
    let none = Seq::<NodeView>::empty();
    assert(entries(none) =~= Seq::empty());
    lemma_silent_layer(none, eth, "ip.dsfield.ecn"@);
    lemma_silent_layer(none, eth, "ipv6.dsfield.ecn"@);
    lemma_silent_layer(none.push(eth), ip, "ip.dsfield.ecn"@);
    lemma_found_in_layer(none.push(eth), ip, 1, "ipv6.dsfield.ecn"@);
    assert(there.tree =~= none.push(eth).push(ip));
}

// ---- TCP ----

/// A whole frame shows the length of its TCP payload: what lies behind the
/// Ethernet header, the IP header and the TCP header, each as long as it says
/// it is, and before what pads the frame.
pub proof fn law_tcp_over_ipv4_shows_its_payload(
    eth: Seq<u8>,
    ip: Seq<u8>,
    header: Seq<u8>,
    payload: Seq<u8>,
    padding: Seq<u8>,
    pkt: PacketView,
    force: bool,
)
    requires
        pkt.link_type == LinkType::Ethernet,
        pkt.data == eth + (ip + (header + payload) + padding),
        eth.len() == 14,
        eth[12] == 0x08,
        eth[13] == 0x00,
        20 <= ip.len() <= 60,
        ip.len() == 4 * (ip[0] % 16),
        ip[9] == 6,
        20 <= header.len() <= 60,
        header.len() == 4 * (header[12] / 16),
        ip[2] * 0x100 + ip[3] == ip.len() + header.len() + payload.len(),
    ensures
        number_in(dissected(pkt, force).tree, "tcp.len"@) == Some(payload.len() as u64),
{
    let p = ip + (header + payload) + padding;
    let data = pkt.data;
    assert(data.skip(14) =~= p);
    assert(data[12] == 0x08 && data[13] == 0x00);
    let start = undissected(pkt.orig_len);
    let link = ethernet_layer(data, 0x0800);
    let here = layered(
        addressed(labelled(start, "ETH"@), mac_text(data, 6), mac_text(data, 0)),
        link,
    );
    assert(be16(data, 12) == 0x0800);
    assert(ethernet(data, start, force) == ipv4(p, here, force));
    let k = (ip[0] % 16) as nat;
    law_ipv4_payload_is_handed_on(ip, header + payload, padding, k, here, force);
    let net = ipv4_layer(ip);
    let there = continued(
        here,
        ipv4_text(ip, 12),
        ipv4_text(ip, 16),
        "IPv4"@,
        here.summary.info,
        net,
    );
    assert(ipv4(p, here, force) == tcp(header + payload, there));
    lemma_tcp_names();
    let none = Seq::<NodeView>::empty();
    assert(entries(none) =~= Seq::empty());
    lemma_leaves_silent(link, "tcp.len"@);
    lemma_leaves_silent(net, "tcp.len"@);
    lemma_layer_says(none, link, "tcp.len"@);
    lemma_layer_says(none.push(link), net, "tcp.len"@);
    assert(there.tree =~= none.push(link).push(net));
    law_tcp_length_is_that_of_the_payload(header, payload, (header[12] / 16) as nat, there);
}

proof fn lemma_tcp_names()
    ensures
        "tcp.len"@[0] == 't',
        "eth.dst"@[0] == 'e',
        "eth.src"@[0] == 'e',
        "eth.type"@[0] == 'e',
        "ip.version"@[0] == 'i',
        "ip.hdr_len"@[0] == 'i',
        "ip.dsfield.ecn"@[0] == 'i',
        "ip.len"@[0] == 'i',
        "ip.ttl"@[0] == 'i',
        "ip.proto"@[0] == 'i',
        "ip.src"@[0] == 'i',
        "ip.dst"@[0] == 'i',
{
    reveal_strlit("tcp.len");
    reveal_strlit("eth.dst");
    reveal_strlit("eth.src");
    reveal_strlit("eth.type");
    reveal_strlit("ip.version");
    reveal_strlit("ip.hdr_len");
    reveal_strlit("ip.dsfield.ecn");
    reveal_strlit("ip.len");
    reveal_strlit("ip.ttl");
    reveal_strlit("ip.proto");
    reveal_strlit("ip.src");
    reveal_strlit("ip.dst");
}

} // verus!
