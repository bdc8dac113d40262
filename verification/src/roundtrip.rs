//! What reading a capture gives back of what was written, and that it does
//! not matter in which pieces the bytes arrive.

use vstd::prelude::*;

#[allow(unused_imports)]
use crate::bytes::{be32, le32, lemma_put16_len, lemma_put32_len, put16, put32};
#[allow(unused_imports)]
use crate::pcap::{
    capture_next,
    capture_open,
    link_of,
    pcap_next,
    pcap_open_after,
    u16_at,
    u32_at,
    CaptureError,
    CaptureFile,
    CaptureOpened,
    CaptureStep,
    PacketView,
    PcapFile,
    PcapStep,
    PCAP_MAGIC_NS,
    PCAP_MAGIC_NS_SWAP,
    PCAP_MAGIC_US,
    PCAP_MAGIC_US_SWAP,
};
#[allow(unused_imports)]
use crate::pcapng::{
    epb,
    interface_at,
    ng_block,
    ng_body,
    ng_next,
    ng_open,
    ng_open_after,
    padding,
    resolution,
    ticks_time,
    tsresol,
    Interface,
    NgBlock,
    NgFile,
    NgOpened,
    NgStep,
    BT_SHB,
    SHB_BOM,
};

verus! {

// ---- writing ----

broadcast use {lemma_put16_len, lemma_put32_len};

/// A 16-bit number reads back wherever it stands.
pub proof fn lemma_put16(s: Seq<u8>, i: int, v: u16, big: bool)
    requires
        0 <= i,
        i + 2 <= s.len(),
        s.subrange(i, i + 2) == put16(v, big),
    ensures
        u16_at(s, i, big) == v,
{
    reveal(put16);
    let p = put16(v, big);
    assert(s[i] == p[0]);
    assert(s[i + 1] == p[1]);
}

/// A 32-bit number reads back wherever it stands.
pub proof fn lemma_put32(s: Seq<u8>, i: int, v: u32, big: bool)
    requires
        0 <= i,
        i + 4 <= s.len(),
        s.subrange(i, i + 4) == put32(v, big),
    ensures
        u32_at(s, i, big) == v,
        big ==> be32(s, i) == v,
        !big ==> le32(s, i) == v,
{
    reveal(put16);
    reveal(put32);
    let p = put32(v, big);
    assert(s[i] == p[0]);
    assert(s[i + 1] == p[1]);
    assert(s[i + 2] == p[2]);
    assert(s[i + 3] == p[3]);
}

/// A packet as a pcap file holds it; `sub` counts microseconds or nanoseconds.
pub ghost struct Record {
    pub ts_sec: u32,
    pub sub: u32,
    pub orig_len: u32,
    pub data: Seq<u8>,
}

/// The global header of a pcap file. `between` stands for its version, zone,
/// accuracy and snap length.
pub open spec fn pcap_header(big: bool, ns: bool, link: u32, between: Seq<u8>) -> Seq<u8> {
    put32(
        if ns {
            0xa1b2_3c4du32
        } else {
            0xa1b2_c3d4u32
        },
        big,
    ) + between + put32(link, big)
}

/// A record of a pcap file.
pub open spec fn pcap_record(r: Record, big: bool) -> Seq<u8> {
    put32(r.ts_sec, big) + put32(r.sub, big) + put32(r.data.len() as u32, big) + put32(
        r.orig_len,
        big,
    ) + r.data
}

/// The records of a pcap file.
pub open spec fn pcap_records(rs: Seq<Record>, big: bool) -> Seq<u8>
    decreases rs.len(),
{
    if rs.len() == 0 {
        Seq::empty()
    } else {
        pcap_record(rs[0], big) + pcap_records(rs.drop_first(), big)
    }
}

/// The packet that a record stands for.
pub open spec fn record_packet(r: Record, f: PcapFile) -> PacketView {
    PacketView {
        ts_sec: r.ts_sec,
        ts_nsec: if f.ns {
            r.sub
        } else if r.sub <= 4_294_967 {
            (1000 * r.sub) as u32
        } else {
            u32::MAX
        },
        orig_len: r.orig_len,
        link_type: f.link,
        data: r.data,
    }
}

/// A block of a pcapng file as its writer sees it.
pub ghost enum Block {
    /// A section header; `more` stands for version, section length, options.
    Section { more: Seq<u8> },
    /// An interface; `between` stands for the reserved field and the snap
    /// length.
    Interface { link: u16, between: Seq<u8>, options: Seq<u8> },
    /// A packet of the interface `id`; `tail` stands for padding and options.
    Enhanced { id: u32, ticks: u64, orig_len: u32, data: Seq<u8>, tail: Seq<u8> },
    /// A whole packet of the first interface, with its padding.
    Simple { data: Seq<u8>, pad: Seq<u8> },
    /// A block of any other type.
    Other { block_type: u32, body: Seq<u8> },
}

/// The type of a block.
pub open spec fn block_type(b: Block) -> u32 {
    match b {
        Block::Section { .. } => 0x0a0d_0d0a,
        Block::Interface { .. } => 1,
        Block::Enhanced { .. } => 6,
        Block::Simple { .. } => 3,
        Block::Other { block_type, .. } => block_type,
    }
}

/// The body of a block.
pub open spec fn block_body(b: Block, big: bool) -> Seq<u8> {
    match b {
        Block::Section { more } => put32(0x1a2b_3c4d, big) + more,
        Block::Interface { link, between, options } => put16(link, big) + between + options,
        Block::Enhanced { id, ticks, orig_len, data, tail } => put32(id, big) + put32(
            (ticks / 0x1_0000_0000) as u32,
            big,
        ) + put32((ticks % 0x1_0000_0000) as u32, big) + put32(data.len() as u32, big) + put32(
            orig_len,
            big,
        ) + data + tail,
        Block::Simple { data, pad } => put32(data.len() as u32, big) + data + pad,
        Block::Other { body, .. } => body,
    }
}

/// A block: type, total length, body, total length.
pub open spec fn block_written(b: Block, big: bool) -> Seq<u8> {
    let body = block_body(b, big);
    let total = put32((body.len() + 12) as u32, big);
    put32(block_type(b), big) + total + body + total
}

/// Whether a block is one that a writer can write.
pub open spec fn block_ok(b: Block, big: bool) -> bool {
    &&& block_body(b, big).len() + 12 <= 0x1000_0000
    &&& match b {
        Block::Interface { between, .. } => between.len() == 6,
        Block::Simple { data, pad } => pad.len() < 4 && (data.len() + pad.len()) % 4 == 0,
        Block::Other { block_type, .. } => block_type != 0x0a0d_0d0a && block_type != 1
            && block_type != 6 && block_type != 3,
        _ => true,
    }
}

/// Some blocks one after the other.
pub open spec fn blocks_written(bs: Seq<Block>, big: bool) -> Seq<u8>
    decreases bs.len(),
{
    if bs.len() == 0 {
        Seq::empty()
    } else {
        block_written(bs[0], big) + blocks_written(bs.drop_first(), big)
    }
}

/// The state of the file behind a block: a section forgets the interfaces, an
/// interface is added, any other block leaves it as it is.
pub open spec fn block_state(f: NgFile, b: Block) -> NgFile {
    match b {
        Block::Section { .. } => NgFile { interfaces: Seq::empty(), ..f },
        Block::Interface { link, options, .. } => NgFile {
            interfaces: f.interfaces.push(
                Interface {
                    link_type: link_of(link as u32),
                    ticks_per_sec: match tsresol(options, 0, f.swap) {
                        Some(t) => t,
                        None => 1_000_000,
                    },
                },
            ),
            ..f
        },
        _ => f,
    }
}

/// The packet in a block, if it is a packet block.
pub open spec fn block_packet(f: NgFile, b: Block) -> Option<PacketView> {
    match b {
        Block::Enhanced { id, ticks, orig_len, data, .. } => {
            let iface = interface_at(f, id as int);
            Some(
                PacketView {
                    ts_sec: ticks_time(ticks, iface.ticks_per_sec).0,
                    ts_nsec: ticks_time(ticks, iface.ticks_per_sec).1,
                    orig_len,
                    link_type: iface.link_type,
                    data,
                },
            )
        },
        Block::Simple { data, .. } => Some(
            PacketView {
                ts_sec: 0,
                ts_nsec: 0,
                orig_len: data.len() as u32,
                link_type: interface_at(f, 0).link_type,
                data,
            },
        ),
        _ => None,
    }
}

/// The packets in some blocks.
pub open spec fn blocks_packets(f: NgFile, bs: Seq<Block>) -> Seq<PacketView>
    decreases bs.len(),
{
    if bs.len() == 0 {
        Seq::empty()
    } else {
        let later = blocks_packets(block_state(f, bs[0]), bs.drop_first());
        match block_packet(f, bs[0]) {
            Some(p) => seq![p] + later,
            None => later,
        }
    }
}

/// An option of an interface: code, length, value, padding.
pub open spec fn option_written(code: u16, value: Seq<u8>, pad: Seq<u8>, big: bool) -> Seq<u8> {
    put16(code, big) + put16(value.len() as u16, big) + value + pad
}

// ---- reading everything ----

/// Every packet of a whole capture from here on, up to its end or the first
/// error.
pub open spec fn capture_all(f: CaptureFile, rest: Seq<u8>) -> Seq<PacketView>
    decreases rest.len(),
{
    let step = capture_next(f, rest, true);
    match step.out {
        Ok(Some(p)) => if step.rest.len() < rest.len() {
            seq![p] + capture_all(step.file, step.rest)
        } else {
            Seq::empty()
        },
        _ => Seq::empty(),
    }
}

/// Every packet takes up input.
pub proof fn law_packets_take_input(f: CaptureFile, rest: Seq<u8>, ended: bool)
    ensures
        capture_next(f, rest, ended).out matches Ok(Some(_)) ==> capture_next(
            f,
            rest,
            ended,
        ).rest.len() < rest.len(),
{
    if f is PcapNg {
        lemma_ng_shrinks(f->PcapNg_0, rest, ended);
    }
}

proof fn lemma_ng_shrinks(f: NgFile, rest: Seq<u8>, ended: bool)
    ensures
        ng_next(f, rest, ended).rest.len() <= rest.len(),
        ng_next(f, rest, ended).out matches Ok(Some(_)) ==> ng_next(f, rest, ended).rest.len()
            < rest.len(),
    decreases rest.len(),
{
    match ng_block(f, rest, ended) {
        NgBlock::Stop(step) => {},
        NgBlock::Next(f2, rest2) => {
            lemma_ng_shrinks(f2, rest2, ended);
        },
    }
}

/// A capture whose end is known is never answered with a request for more
/// input, neither on opening nor on reading.
pub proof fn law_whole_capture_never_incomplete(f: CaptureFile, rest: Seq<u8>)
    ensures
        capture_open(rest, true).out != Err::<CaptureFile, CaptureError>(CaptureError::Incomplete),
        capture_next(f, rest, true).out != Err::<Option<PacketView>, CaptureError>(
            CaptureError::Incomplete,
        ),
{
    if f is PcapNg {
        lemma_ng_never_incomplete(f->PcapNg_0, rest);
    }
}

proof fn lemma_ng_never_incomplete(f: NgFile, rest: Seq<u8>)
    ensures
        ng_next(f, rest, true).out != Err::<Option<PacketView>, CaptureError>(
            CaptureError::Incomplete,
        ),
    decreases rest.len(),
{
    match ng_block(f, rest, true) {
        NgBlock::Stop(step) => {},
        NgBlock::Next(f2, rest2) => {
            lemma_ng_never_incomplete(f2, rest2);
        },
    }
}

// ---- classic pcap ----

/// A written record reads back as its packet, and what follows it is left.
pub proof fn law_pcap_record_reads_back(f: PcapFile, r: Record, tail: Seq<u8>, ended: bool)
    requires
        r.data.len() <= 0x1000_0000,
    ensures
        pcap_next(f, pcap_record(r, f.swap) + tail, ended) == (PcapStep {
            out: Ok(Some(record_packet(r, f))),
            rest: tail,
        }),
{
    let s = pcap_record(r, f.swap) + tail;
    assert(s.subrange(0, 4) =~= put32(r.ts_sec, f.swap));
    assert(s.subrange(4, 8) =~= put32(r.sub, f.swap));
    assert(s.subrange(8, 12) =~= put32(r.data.len() as u32, f.swap));
    assert(s.subrange(12, 16) =~= put32(r.orig_len, f.swap));
    lemma_put32(s, 0, r.ts_sec, f.swap);
    lemma_put32(s, 4, r.sub, f.swap);
    lemma_put32(s, 8, r.data.len() as u32, f.swap);
    lemma_put32(s, 12, r.orig_len, f.swap);
    assert(s.subrange(16, 16 + r.data.len() as int) =~= r.data);
    assert(s.skip(16 + r.data.len() as int) =~= tail);
}

/// A pcap file reads back: whatever its byte order, timestamp resolution and
/// link type, opening it as a capture and reading to the end gives exactly
/// the packets that were written, in order.
pub proof fn law_pcap_reads_back(
    big: bool,
    ns: bool,
    link: u32,
    between: Seq<u8>,
    records: Seq<Record>,
)
    requires
        between.len() == 16,
        forall|i: int| 0 <= i < records.len() ==> (#[trigger] records[i]).data.len()
            <= 0x1000_0000,
    ensures
        ({
            let opened = capture_open(
                pcap_header(big, ns, link, between) + pcap_records(records, big),
                true,
            );
            let file = PcapFile { swap: big, ns, link: link_of(link) };
            &&& opened.out == Ok::<CaptureFile, CaptureError>(CaptureFile::Classic(file))
            &&& capture_all(CaptureFile::Classic(file), opened.rest) == Seq::new(
                records.len(),
                |i: int| record_packet(records[i], file),
            )
        }),
{
    let head = pcap_header(big, ns, link, between);
    let body = pcap_records(records, big);
    let s = head + body;
    let magic = if ns {
        PCAP_MAGIC_NS
    } else {
        PCAP_MAGIC_US
    };
    let file = PcapFile { swap: big, ns, link: link_of(link) };
    assert(s.subrange(0, 4) =~= put32(magic, big));
    lemma_magic(s, magic, big);
    let after = s.skip(4);
    assert(after.subrange(16, 20) =~= put32(link, big));
    lemma_put32(after, 16, link, big);
    assert(after.skip(20) =~= body);
    lemma_all_records(file, records);
}

/// A pcap magic number as it is seen by a reader that has yet to learn the
/// byte order.
proof fn lemma_magic(s: Seq<u8>, magic: u32, big: bool)
    requires
        s.len() >= 4,
        s.subrange(0, 4) == put32(magic, big),
        magic == PCAP_MAGIC_US || magic == PCAP_MAGIC_NS,
    ensures
        le32(s, 0) == if magic == PCAP_MAGIC_US {
            if big {
                PCAP_MAGIC_US_SWAP
            } else {
                PCAP_MAGIC_US
            }
        } else {
            if big {
                PCAP_MAGIC_NS_SWAP
            } else {
                PCAP_MAGIC_NS
            }
        },
{
    reveal(put16);
    reveal(put32);
    let p = put32(magic, big);
    assert(s[0] == p[0]);
    assert(s[1] == p[1]);
    assert(s[2] == p[2]);
    assert(s[3] == p[3]);
}

proof fn lemma_all_records(f: PcapFile, rs: Seq<Record>)
    requires
        forall|i: int| 0 <= i < rs.len() ==> (#[trigger] rs[i]).data.len() <= 0x1000_0000,
    ensures
        capture_all(CaptureFile::Classic(f), pcap_records(rs, f.swap)) == Seq::new(
            rs.len(),
            |i: int| record_packet(rs[i], f),
        ),
    decreases rs.len(),
{
    let s = pcap_records(rs, f.swap);
    if rs.len() == 0 {
        assert(capture_all(CaptureFile::Classic(f), s) =~= Seq::empty());
        assert(Seq::new(rs.len(), |i: int| record_packet(rs[i], f)) =~= Seq::empty());
    } else {
        let tail = pcap_records(rs.drop_first(), f.swap);
        law_pcap_record_reads_back(f, rs[0], tail, true);
        lemma_all_records(f, rs.drop_first());
        assert(capture_all(CaptureFile::Classic(f), s) =~= Seq::new(
            rs.len(),
            |i: int| record_packet(rs[i], f),
        ));
    }
}

// ---- pcapng ----

/// A written block is taken as a whole, and means what its body means.
proof fn lemma_block_taken(f: NgFile, b: Block, tail: Seq<u8>, ended: bool)
    requires
        block_ok(b, f.swap),
    ensures
        ng_block(f, block_written(b, f.swap) + tail, ended) == ng_body(
            f,
            block_type(b),
            block_body(b, f.swap),
            tail,
        ),
{
    let body = block_body(b, f.swap);
    let total = (body.len() + 12) as u32;
    let s = block_written(b, f.swap) + tail;
    assert(s.subrange(0, 4) =~= put32(block_type(b), f.swap));
    lemma_put32(s, 0, block_type(b), f.swap);
    assert(s.subrange(4, 8) =~= put32(total, f.swap));
    lemma_put32(s, 4, total, f.swap);
    assert(s.subrange(total - 4, total as int) =~= put32(total, f.swap));
    lemma_put32(s, total - 4, total, f.swap);
    assert(s.subrange(8, total - 4) =~= body);
    assert(s.skip(total as int) =~= tail);
}

/// What the body of a written block means: the packet in it, or the changed
/// state of the file.
proof fn lemma_body_taken(f: NgFile, b: Block, tail: Seq<u8>)
    requires
        block_ok(b, f.swap),
    ensures
        ng_body(f, block_type(b), block_body(b, f.swap), tail) == match block_packet(f, b) {
            Some(p) => NgBlock::Stop(NgStep { out: Ok(Some(p)), file: f, rest: tail }),
            None => NgBlock::Next(block_state(f, b), tail),
        },
{
    let body = block_body(b, f.swap);
    match b {
        Block::Section { more } => {
            assert(body.subrange(0, 4) =~= put32(SHB_BOM, f.swap));
            lemma_put32(body, 0, SHB_BOM, f.swap);
        },
        Block::Interface { link, between, options } => {
            assert(body.subrange(0, 2) =~= put16(link, f.swap));
            lemma_put16(body, 0, link, f.swap);
            assert(body.skip(8) =~= options);
        },
        Block::Enhanced { id, ticks, orig_len, data, tail: more } => {
            lemma_enhanced(f, id, ticks, orig_len, data, more);
        },
        Block::Simple { data, pad } => {
            assert(body.subrange(0, 4) =~= put32(data.len() as u32, f.swap));
            lemma_put32(body, 0, data.len() as u32, f.swap);
            assert(body.subrange(4, body.len() - pad.len()) =~= data);
        },
        Block::Other { .. } => {},
    }
}

proof fn lemma_enhanced(
    f: NgFile,
    id: u32,
    ticks: u64,
    orig_len: u32,
    data: Seq<u8>,
    more: Seq<u8>,
)
    requires
        data.len() <= 0x1000_0000,
    ensures
        ({
            let b = Block::Enhanced { id, ticks, orig_len, data, tail: more };
            epb(f, block_body(b, f.swap)) == Ok::<PacketView, CaptureError>(
                block_packet(f, b)->Some_0,
            )
        }),
{
    let body = block_body(Block::Enhanced { id, ticks, orig_len, data, tail: more }, f.swap);
    let high = (ticks / 0x1_0000_0000) as u32;
    let low = (ticks % 0x1_0000_0000) as u32;
    let len = data.len() as u32;
    assert(body.subrange(0, 4) =~= put32(id, f.swap));
    assert(body.subrange(4, 8) =~= put32(high, f.swap));
    assert(body.subrange(8, 12) =~= put32(low, f.swap));
    assert(body.subrange(12, 16) =~= put32(len, f.swap));
    assert(body.subrange(16, 20) =~= put32(orig_len, f.swap));
    lemma_put32(body, 0, id, f.swap);
    lemma_put32(body, 4, high, f.swap);
    lemma_put32(body, 8, low, f.swap);
    lemma_put32(body, 12, len, f.swap);
    lemma_put32(body, 16, orig_len, f.swap);
    assert(body.subrange(20, 20 + len) =~= data);
    assert(high * 0x1_0000_0000 + low == ticks);
}

/// A packet block reads back as its packet; any other block is passed over,
/// whatever its type, with the effect it has on the interface table.
pub proof fn law_block_reads_back(f: NgFile, b: Block, tail: Seq<u8>, ended: bool)
    requires
        block_ok(b, f.swap),
    ensures
        ng_next(f, block_written(b, f.swap) + tail, ended) == match block_packet(f, b) {
            Some(p) => NgStep { out: Ok(Some(p)), file: f, rest: tail },
            None => ng_next(block_state(f, b), tail, ended),
        },
{
    lemma_block_taken(f, b, tail, ended);
    lemma_body_taken(f, b, tail);
}

/// A pcapng file reads back: whatever its byte order, opening it as a capture
/// and reading to the end gives exactly the packets of its packet blocks, in
/// order, each with the link type and time of the interface it names.
pub proof fn law_pcapng_reads_back(big: bool, more: Seq<u8>, blocks: Seq<Block>)
    requires
        more.len() + 16 <= 0x100_0000,
        forall|i: int| 0 <= i < blocks.len() ==> block_ok(#[trigger] blocks[i], big),
    ensures
        ({
            let opened = capture_open(
                block_written(Block::Section { more }, big) + blocks_written(blocks, big),
                true,
            );
            let file = NgFile { swap: big, interfaces: Seq::empty() };
            &&& opened.out == Ok::<CaptureFile, CaptureError>(CaptureFile::PcapNg(file))
            &&& capture_all(CaptureFile::PcapNg(file), opened.rest) == blocks_packets(
                file,
                blocks,
            )
        }),
{
    let file = NgFile { swap: big, interfaces: Seq::empty() };
    let tail = blocks_written(blocks, big);
    lemma_section_opens(big, more, tail, true);
    lemma_all_blocks(file, blocks);
}

proof fn lemma_section_opens(big: bool, more: Seq<u8>, tail: Seq<u8>, ended: bool)
    requires
        more.len() + 16 <= 0x100_0000,
    ensures
        ({
            let s = block_written(Block::Section { more }, big) + tail;
            &&& le32(s, 0) == BT_SHB
            &&& s.len() >= 16
            &&& ng_open(s, ended) == (NgOpened {
                out: Ok(NgFile { swap: big, interfaces: Seq::empty() }),
                rest: tail,
            })
        }),
{
    let total = (more.len() + 16) as u32;
    let s = block_written(Block::Section { more }, big) + tail;
    let after = s.skip(4);
    assert(s.subrange(0, 4) =~= put32(BT_SHB, big));
    lemma_section_magic(s, big);
    assert(after.subrange(0, 4) =~= put32(total, big));
    lemma_put32(after, 0, total, big);
    assert(after.subrange(4, 8) =~= put32(SHB_BOM, big));
    lemma_put32(after, 4, SHB_BOM, big);
    lemma_byte_order(after, big);
    assert(after.subrange(total - 8, total - 4) =~= put32(total, big));
    lemma_put32(after, total - 8, total, big);
    assert(after.skip(total - 4) =~= tail);
}

/// The type of a section header is the same in both byte orders.
proof fn lemma_section_magic(s: Seq<u8>, big: bool)
    requires
        s.len() >= 4,
        s.subrange(0, 4) == put32(BT_SHB, big),
    ensures
        le32(s, 0) == BT_SHB,
{
    reveal(put16);
    reveal(put32);
    let p = put32(BT_SHB, big);
    assert(s[0] == p[0]);
    assert(s[1] == p[1]);
    assert(s[2] == p[2]);
    assert(s[3] == p[3]);
}

/// The byte-order magic tells the byte orders apart.
proof fn lemma_byte_order(s: Seq<u8>, big: bool)
    requires
        s.len() >= 8,
        s.subrange(4, 8) == put32(SHB_BOM, big),
    ensures
        (le32(s, 4) != SHB_BOM) == big,
{
    reveal(put16);
    reveal(put32);
    let p = put32(SHB_BOM, big);
    assert(s[4] == p[0]);
    assert(s[5] == p[1]);
    assert(s[6] == p[2]);
    assert(s[7] == p[3]);
}

proof fn lemma_all_blocks(f: NgFile, bs: Seq<Block>)
    requires
        forall|i: int| 0 <= i < bs.len() ==> block_ok(#[trigger] bs[i], f.swap),
    ensures
        capture_all(CaptureFile::PcapNg(f), blocks_written(bs, f.swap)) == blocks_packets(f, bs),
    decreases bs.len(),
{
    if bs.len() > 0 {
        let b = bs[0];
        let later = bs.drop_first();
        let tail = blocks_written(later, f.swap);
        let s = block_written(b, f.swap) + tail;
        assert forall|i: int| 0 <= i < later.len() implies block_ok(
            #[trigger] later[i],
            f.swap,
        ) by {
            assert(later[i] == bs[i + 1]);
        }
        law_block_reads_back(f, b, tail, true);
        lemma_all_blocks(block_state(f, b), later);
        if block_packet(f, b) is None {
            lemma_ng_shrinks(block_state(f, b), tail, true);
        }
    }
}

/// An option that is neither the end of the list nor a timestamp resolution
/// is passed over, value and padding included.
pub proof fn law_other_options_are_passed_over(
    code: u16,
    value: Seq<u8>,
    pad: Seq<u8>,
    options: Seq<u8>,
    big: bool,
)
    requires
        code != 0,
        code != 9 || value.len() == 0,
        value.len() <= u16::MAX,
        pad.len() < 4,
        (value.len() + pad.len()) % 4 == 0,
    ensures
        tsresol(option_written(code, value, pad, big) + options, 0, big) == tsresol(
            options,
            0,
            big,
        ),
{
    let head = option_written(code, value, pad, big);
    let s = head + options;
    assert(s.subrange(0, 2) =~= put16(code, big));
    lemma_put16(s, 0, code, big);
    assert(s.subrange(2, 4) =~= put16(value.len() as u16, big));
    lemma_put16(s, 2, value.len() as u16, big);
    lemma_options_shift(head, options, 0, big);
}

/// A timestamp resolution is found where it comes first: it is the first byte
/// of the value.
pub proof fn law_resolution_is_found(
    value: Seq<u8>,
    pad: Seq<u8>,
    options: Seq<u8>,
    big: bool,
)
    requires
        1 <= value.len() <= u16::MAX,
    ensures
        tsresol(option_written(9, value, pad, big) + options, 0, big) == resolution(value[0]),
{
    let s = option_written(9, value, pad, big) + options;
    assert(s.subrange(0, 2) =~= put16(9, big));
    lemma_put16(s, 0, 9, big);
    assert(s.subrange(2, 4) =~= put16(value.len() as u16, big));
    lemma_put16(s, 2, value.len() as u16, big);
    assert(s[4] == value[0]);
}

/// Options mean the same wherever they stand.
proof fn lemma_options_shift(head: Seq<u8>, options: Seq<u8>, i: int, big: bool)
    requires
        0 <= i,
    ensures
        tsresol(head + options, head.len() + i, big) == tsresol(options, i, big),
    decreases options.len() - i,
{
    if i + 4 <= options.len() {
        let s = head + options;
        let at = head.len() + i;
        assert(u16_at(s, at, big) == u16_at(options, i, big));
        assert(u16_at(s, at + 2, big) == u16_at(options, i + 2, big));
        let len = u16_at(options, i + 2, big) as int;
        if i + 4 + len + padding(len) <= options.len() {
            lemma_options_shift(head, options, i + 4 + len + padding(len), big);
        }
    }
}

// ---- pieces ----

/// Opening a capture does not depend on how much of it has arrived. With part
/// of the bytes it either asks for more and leaves them all in place, or does
/// what it does with all of them.
pub proof fn law_opening_in_pieces(a: Seq<u8>, b: Seq<u8>, ended: bool)
    ensures
        ({
            let part = capture_open(a, false);
            let whole = capture_open(a + b, ended);
            if part.out == Err::<CaptureFile, CaptureError>(CaptureError::Incomplete) {
                part.rest == a
            } else {
                whole == (CaptureOpened { out: part.out, rest: part.rest + b })
            }
        }),
{
    let s = a + b;
    if a.len() >= 4 {
        assert(le32(a, 0) == le32(s, 0));
        assert(s.skip(4) =~= a.skip(4) + b);
        lemma_pcap_open_pieces(le32(a, 0) as u32, a.skip(4), b, ended);
        lemma_ng_open_pieces(a.skip(4), b, ended);
    }
}

proof fn lemma_pcap_open_pieces(magic: u32, a: Seq<u8>, b: Seq<u8>, ended: bool)
    ensures
        ({
            let part = pcap_open_after(magic, a, false);
            let whole = pcap_open_after(magic, a + b, ended);
            part.out != Err::<PcapFile, CaptureError>(CaptureError::Incomplete) ==> {
                &&& whole.out == part.out
                &&& whole.rest == part.rest + b
            }
        }),
{
    let s = a + b;
    if a.len() >= 20 {
        assert(u32_at(a, 16, true) == u32_at(s, 16, true));
        assert(u32_at(a, 16, false) == u32_at(s, 16, false));
        assert(s.skip(20) =~= a.skip(20) + b);
    }
}

proof fn lemma_ng_open_pieces(a: Seq<u8>, b: Seq<u8>, ended: bool)
    ensures
        ({
            let part = ng_open_after(a, false);
            let whole = ng_open_after(a + b, ended);
            part.out != Err::<NgFile, CaptureError>(CaptureError::Incomplete) ==> {
                &&& whole.out == part.out
                &&& whole.rest == part.rest + b
            }
        }),
{
    let s = a + b;
    if a.len() >= 8 {
        assert(le32(a, 4) == le32(s, 4));
        assert(be32(a, 4) == be32(s, 4));
        let swap = le32(a, 4) != SHB_BOM;
        let total = u32_at(a, 0, swap);
        assert(total == u32_at(s, 0, swap));
        assert(s.skip(8) =~= a.skip(8) + b);
        if 12 <= total && a.len() >= total - 4 {
            assert(s.skip(total - 4) =~= a.skip(total - 4) + b);
            if total >= 16 {
                assert(u32_at(a, total - 8, swap) == u32_at(s, total - 8, swap));
            }
        }
    }
}

/// Reading a capture does not depend on how much of it has arrived. With part
/// of the bytes it either asks for more, and goes on from there once more is
/// there, or does what it does with all of them.
pub proof fn law_reading_in_pieces(f: CaptureFile, a: Seq<u8>, b: Seq<u8>, ended: bool)
    ensures
        ({
            let part = capture_next(f, a, false);
            let whole = capture_next(f, a + b, ended);
            if part.out == Err::<Option<PacketView>, CaptureError>(CaptureError::Incomplete) {
                whole == capture_next(part.file, part.rest + b, ended)
            } else {
                whole == (CaptureStep { rest: part.rest + b, ..part })
            }
        }),
{
    match f {
        CaptureFile::Classic(p) => {
            lemma_pcap_pieces(p, a, b, ended);
        },
        CaptureFile::PcapNg(n) => {
            lemma_ng_pieces(n, a, b, ended);
        },
    }
}

proof fn lemma_pcap_pieces(f: PcapFile, a: Seq<u8>, b: Seq<u8>, ended: bool)
    ensures
        ({
            let part = pcap_next(f, a, false);
            let whole = pcap_next(f, a + b, ended);
            if part.out == Err::<Option<PacketView>, CaptureError>(CaptureError::Incomplete) {
                part.rest == a
            } else {
                whole == (PcapStep { rest: part.rest + b, ..part })
            }
        }),
{
    let s = a + b;
    if a.len() >= 16 {
        assert(u32_at(a, 0, f.swap) == u32_at(s, 0, f.swap));
        assert(u32_at(a, 4, f.swap) == u32_at(s, 4, f.swap));
        assert(u32_at(a, 8, f.swap) == u32_at(s, 8, f.swap));
        assert(u32_at(a, 12, f.swap) == u32_at(s, 12, f.swap));
        assert(s.skip(16) =~= a.skip(16) + b);
        let len = u32_at(a, 8, f.swap);
        if a.len() - 16 >= len {
            assert(s.subrange(16, 16 + len) =~= a.subrange(16, 16 + len));
            assert(s.skip(16 + len) =~= a.skip(16 + len) + b);
        }
    }
}

proof fn lemma_ng_pieces(f: NgFile, a: Seq<u8>, b: Seq<u8>, ended: bool)
    ensures
        ({
            let part = ng_next(f, a, false);
            let whole = ng_next(f, a + b, ended);
            if part.out == Err::<Option<PacketView>, CaptureError>(CaptureError::Incomplete) {
                whole == ng_next(part.file, part.rest + b, ended)
            } else {
                whole == (NgStep { rest: part.rest + b, ..part })
            }
        }),
    decreases a.len(),
{
    lemma_block_pieces(f, a, b, ended);
    match ng_block(f, a, false) {
        NgBlock::Stop(step) => {},
        NgBlock::Next(f2, a2) => {
            lemma_ng_pieces(f2, a2, b, ended);
        },
    }
}

proof fn lemma_block_pieces(f: NgFile, a: Seq<u8>, b: Seq<u8>, ended: bool)
    ensures
        match ng_block(f, a, false) {
            NgBlock::Stop(step) => if step.out == Err::<Option<PacketView>, CaptureError>(
                CaptureError::Incomplete,
            ) {
                step.file == f && step.rest == a
            } else {
                ng_block(f, a + b, ended) == NgBlock::Stop(
                    NgStep { rest: step.rest + b, ..step },
                )
            },
            NgBlock::Next(f2, a2) => ng_block(f, a + b, ended) == NgBlock::Next(f2, a2 + b),
        },
{
    let s = a + b;
    if a.len() >= 8 {
        assert(u32_at(a, 0, f.swap) == u32_at(s, 0, f.swap));
        assert(u32_at(a, 4, f.swap) == u32_at(s, 4, f.swap));
        assert(s.skip(8) =~= a.skip(8) + b);
        let total = u32_at(a, 4, f.swap);
        if 12 <= total && a.len() >= total {
            assert(u32_at(a, total - 4, f.swap) == u32_at(s, total - 4, f.swap));
            assert(s.subrange(8, total - 4) =~= a.subrange(8, total - 4));
            assert(s.skip(total as int) =~= a.skip(total as int) + b);
        }
    }
}

} // verus!
