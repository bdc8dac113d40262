//! pcapng decoding: Enhanced and Simple Packet Blocks, with the interface
//! table they refer to. Other block types are skipped by length.

use vstd::prelude::*;
use vstd::slice::slice_subrange;
use vstd::slice::slice_to_vec;

#[allow(unused_imports)]
use vstd::arithmetic::power::{lemma_pow_increases, pow};
#[allow(unused_imports)]
use vstd::arithmetic::power2::{lemma2_to64_rest, lemma_pow2};

use crate::bytes::{get_be32, get_le32};
#[allow(unused_imports)]
use crate::bytes::{be32, le32};
use crate::pcap::{read_u16, read_u32, CaptureError, Input, LinkType, Part, RawPacket};
#[allow(unused_imports)]
use crate::pcap::{
    left_after_short,
    link_of,
    packet_view,
    short_of,
    u16_at,
    u32_at,
    PacketView,
};

verus! {

/// Section Header Block.
pub const BT_SHB: u32 = 0x0a0d_0d0a;

/// Interface Description Block.
pub const BT_IDB: u32 = 0x0000_0001;

/// Simple Packet Block.
pub const BT_SPB: u32 = 0x0000_0003;

/// Enhanced Packet Block.
pub const BT_EPB: u32 = 0x0000_0006;

/// The byte-order magic of a section, in the byte order of the section.
pub const SHB_BOM: u32 = 0x1a2b_3c4d;

/// The longest section header that is taken for real.
pub const MAX_SECTION_LEN: u32 = 0x100_0000;

/// The longest block that is taken for real.
pub const MAX_BLOCK_LEN: u32 = 0x1000_0000;

/// One interface described by an Interface Description Block. Packets of
/// several interfaces can share a file, each with its own link layer and
/// timestamp resolution; an Enhanced Packet Block names its interface by its
/// place in the table.
#[derive(Debug, Clone, Copy)]
pub struct Interface {
    pub link_type: LinkType,
    /// Ticks per second of the interface's timestamps.
    pub ticks_per_sec: u64,
}

/// What stands in for an interface that was never described: Ethernet,
/// microseconds.
pub open spec fn fallback() -> Interface {
    Interface { link_type: LinkType::Ethernet, ticks_per_sec: 1_000_000 }
}

impl Interface {
    fn default_ethernet() -> (r: Self)
        ensures
            r == fallback(),
    {
        Interface { link_type: LinkType::Ethernet, ticks_per_sec: 1_000_000 }
    }
}

/// Decoder of pcapng blocks.
pub struct PcapNgReader {
    swap: bool,
    interfaces: Vec<Interface>,
}

/// The state of a pcapng file being read: its byte order and the interfaces
/// of the current section.
pub ghost struct NgFile {
    pub swap: bool,
    pub interfaces: Seq<Interface>,
}

impl PcapNgReader {
    /// Whether the file is big-endian.
    pub closed spec fn big_endian(&self) -> bool {
        self.swap
    }

    /// The interfaces described so far in this section.
    pub closed spec fn table(&self) -> Seq<Interface> {
        self.interfaces@
    }
}

impl View for PcapNgReader {
    type V = NgFile;

    open spec fn view(&self) -> NgFile {
        NgFile { swap: self.big_endian(), interfaces: self.table() }
    }
}

// ---- opening ----

/// What comes of opening a pcapng file: the file or the error, and the input
/// that is left.
pub ghost struct NgOpened {
    pub out: Result<NgFile, CaptureError>,
    pub rest: Seq<u8>,
}

/// Opening a pcapng file just behind its first four bytes. Of the section
/// header there remain the total length, the byte-order magic (which fixes
/// the byte order of both), further fields, and the total length once more.
pub open spec fn ng_open_after(rest: Seq<u8>, ended: bool) -> NgOpened {
    let swap = le32(rest, 4) != SHB_BOM;
    let total = u32_at(rest, 0, swap);
    let trailer = u32_at(rest, total - 8, swap);
    if rest.len() < 8 {
        NgOpened {
            out: Err(short_of(ended, Part::SectionPrefix)),
            rest: left_after_short(rest, ended),
        }
    } else if le32(rest, 4) != SHB_BOM && be32(rest, 4) != SHB_BOM {
        NgOpened { out: Err(CaptureError::ByteOrder(le32(rest, 4) as u32)), rest: rest.skip(8) }
    } else if !(12 <= total <= MAX_SECTION_LEN) {
        NgOpened { out: Err(CaptureError::SectionLength(total)), rest: rest.skip(8) }
    } else if rest.len() < total - 4 {
        NgOpened {
            out: Err(short_of(ended, Part::SectionBody)),
            rest: left_after_short(rest, ended),
        }
    } else if total < 16 {
        NgOpened { out: Err(CaptureError::SectionTooShort(total)), rest: rest.skip(total - 4) }
    } else if trailer != total {
        NgOpened {
            out: Err(CaptureError::SectionTrailer(trailer, total)),
            rest: rest.skip(total - 4),
        }
    } else {
        NgOpened {
            out: Ok(NgFile { swap, interfaces: Seq::empty() }),
            rest: rest.skip(total - 4),
        }
    }
}

/// Opening a pcapng file at its first byte.
pub open spec fn ng_open(rest: Seq<u8>, ended: bool) -> NgOpened {
    if rest.len() < 4 {
        NgOpened {
            out: Err(short_of(ended, Part::PcapNgMagic)),
            rest: left_after_short(rest, ended),
        }
    } else if le32(rest, 0) != BT_SHB {
        NgOpened { out: Err(CaptureError::NotPcapNg(le32(rest, 0) as u32)), rest: rest.skip(4) }
    } else {
        let after = ng_open_after(rest.skip(4), ended);
        if after.out == Err::<NgFile, CaptureError>(CaptureError::Incomplete) {
            NgOpened { out: after.out, rest }
        } else {
            after
        }
    }
}

/// The view of what opening a pcapng file returns.
pub open spec fn ng_view(r: Result<PcapNgReader, CaptureError>) -> Result<NgFile, CaptureError> {
    match r {
        Ok(p) => Ok(p@),
        Err(e) => Err(e),
    }
}

impl PcapNgReader {
    /// Reads the first section header of a pcapng file.
    pub fn new(input: &mut Input) -> (r: Result<PcapNgReader, CaptureError>)
        ensures
            final(input).ended() == old(input).ended(),
            ng_view(r) == ng_open(old(input).rest(), old(input).ended()).out,
            final(input).rest() == ng_open(old(input).rest(), old(input).ended()).rest,
    {
        if input.available() < 4 {
            return Err(input.short(Part::PcapNgMagic));
        }
        let magic = get_le32(input.pending(), 0);
        if magic != BT_SHB {
            input.advance(4);
            return Err(CaptureError::NotPcapNg(magic));
        }
        PcapNgReader::from_magic(input)
    }

    /// Reads a section header whose first four bytes are known to be
    /// [`BT_SHB`].
    pub(crate) fn from_magic(input: &mut Input) -> (r: Result<PcapNgReader, CaptureError>)
        requires
            old(input).rest().len() >= 4,
            le32(old(input).rest(), 0) == BT_SHB,
        ensures
            final(input).ended() == old(input).ended(),
            ng_view(r) == ng_open(old(input).rest(), old(input).ended()).out,
            final(input).rest() == ng_open(old(input).rest(), old(input).ended()).rest,
    {
        let ghost start = input.rest();
        let ghost body = start.skip(4);
        let avail = input.available();
        if avail < 12 {
            return Err(input.short(Part::SectionPrefix));
        }
        let head = input.pending();
        let bom_le = get_le32(head, 8);
        let bom_be = get_be32(head, 8);
        assert(bom_le == le32(body, 4));
        assert(bom_be == be32(body, 4));
        let swap = if bom_le == SHB_BOM {
            false
        } else if bom_be == SHB_BOM {
            true
        } else {
            input.advance(12);
            assert(start.skip(12) =~= body.skip(8));
            return Err(CaptureError::ByteOrder(bom_le));
        };
        let total = read_u32(head, 4, swap);
        assert(total == u32_at(body, 0, swap));
        if !(12 <= total && total <= MAX_SECTION_LEN) {
            input.advance(12);
            assert(start.skip(12) =~= body.skip(8));
            return Err(CaptureError::SectionLength(total));
        }
        let len: usize = total as usize;
        if avail < len {
            return Err(input.short(Part::SectionBody));
        }
        assert(start.skip(len as int) =~= body.skip(len - 4));
        if len < 16 {
            input.advance(len);
            return Err(CaptureError::SectionTooShort(total));
        }
        let trailer = read_u32(input.pending(), len - 4, swap);
        assert(trailer == u32_at(body, total - 8, swap));
        input.advance(len);
        if trailer != total {
            return Err(CaptureError::SectionTrailer(trailer, total));
        }
        let interfaces: Vec<Interface> = Vec::new();
        assert(interfaces@ =~= Seq::<Interface>::empty());
        Ok(PcapNgReader { swap, interfaces })
    }
}

// ---- interfaces ----

/// The bytes that fill `n` bytes up to a multiple of four.
pub open spec fn padding(n: int) -> int {
    (4 - n % 4) % 4
}

/// The ticks per second that an `if_tsresol` byte stands for: a power of ten,
/// or of two where the top bit is set; none where it is too large.
pub open spec fn resolution(v: u8) -> Option<u64> {
    if v < 128 {
        if pow(10, v as nat) <= u64::MAX {
            Some(pow(10, v as nat) as u64)
        } else {
            None
        }
    } else if v - 128 >= 63 {
        None
    } else {
        Some(pow(2, (v - 128) as nat) as u64)
    }
}

/// The timestamp resolution among options from `i` on. An option is a code, a
/// length, and a value padded to four bytes; code 0 ends the list, code 9 is
/// `if_tsresol`.
pub open spec fn tsresol(options: Seq<u8>, i: int, swap: bool) -> Option<u64>
    decreases options.len() - i,
{
    if i < 0 || i + 4 > options.len() {
        None
    } else {
        let code = u16_at(options, i, swap);
        let len = u16_at(options, i + 2, swap) as int;
        if code == 0 || i + 4 + len > options.len() {
            None
        } else if code == 9 && len >= 1 {
            resolution(options[i + 4])
        } else if i + 4 + len + padding(len) > options.len() {
            None
        } else {
            tsresol(options, i + 4 + len + padding(len), swap)
        }
    }
}

/// The interface that an Interface Description Block describes: the link type
/// in the first two bytes, options from byte 8.
pub open spec fn idb(body: Seq<u8>, swap: bool) -> Result<Interface, CaptureError> {
    if body.len() < 8 {
        Err(CaptureError::ShortInterface)
    } else {
        Ok(
            Interface {
                link_type: link_of(u16_at(body, 0, swap) as u32),
                ticks_per_sec: match tsresol(body.skip(8), 0, swap) {
                    Some(t) => t,
                    None => 1_000_000,
                },
            },
        )
    }
}

/// The interface with a number, or the fallback.
pub open spec fn interface_at(f: NgFile, id: int) -> Interface {
    if 0 <= id < f.interfaces.len() {
        f.interfaces[id]
    } else {
        fallback()
    }
}

fn pad4(n: usize) -> (r: usize)
    ensures
        r == padding(n as int),
{
    (4 - (n % 4)) % 4
}

/// `base` to the power of `exp`, if it fits.
fn power(base: u64, exp: u8) -> (r: Option<u64>)
    requires
        base >= 2,
    ensures
        r == if pow(base as int, exp as nat) <= u64::MAX {
            Some(pow(base as int, exp as nat) as u64)
        } else {
            None
        },
{
    let mut value: u64 = 1;
    let mut i: u8 = 0;
    reveal(pow);
    while i < exp
        invariant
            base >= 2,
            i <= exp,
            value == pow(base as int, i as nat),
        decreases exp - i,
    {
        reveal(pow);
        proof {
            lemma_pow_increases(base as nat, (i + 1) as nat, exp as nat);
            assert(pow(base as int, (i + 1) as nat) == base * value);
        }
        match base.checked_mul(value) {
            Some(v) => {
                value = v;
            },
            None => return None,
        }
        i += 1;
    }
    Some(value)
}

fn resolution_of(v: u8) -> (r: Option<u64>)
    ensures
        r == resolution(v),
{
    if v < 128 {
        power(10, v)
    } else if v - 128 >= 63 {
        None
    } else {
        proof {
            lemma_pow_increases(2, (v - 128) as nat, 63);
            lemma_pow2(63);
            lemma2_to64_rest();
        }
        power(2, v - 128)
    }
}

fn parse_tsresol_option(options: &[u8], swap: bool) -> (r: Option<u64>)
    ensures
        r == tsresol(options@, 0, swap),
{
    let mut i: usize = 0;
    while options.len() >= 4 && i <= options.len() - 4
        invariant
            tsresol(options@, 0, swap) == tsresol(options@, i as int, swap),
        decreases options.len() - i,
    {
        let code = read_u16(options, i, swap);
        let len: usize = read_u16(options, i + 2, swap) as usize;
        i += 4;
        if code == 0 {
            return None;
        }
        if options.len() - i < len {
            return None;
        }
        if code == 9 && len >= 1 {
            return resolution_of(options[i]);
        }
        let next = i + len;
        let pad = pad4(len);
        if options.len() - next < pad {
            return None;
        }
        i = next + pad;
    }
    None
}

fn parse_idb(body: &[u8], swap: bool) -> (r: Result<Interface, CaptureError>)
    ensures
        r == idb(body@, swap),
{
    if body.len() < 8 {
        return Err(CaptureError::ShortInterface);
    }
    let link_type_raw = read_u16(body, 0, swap) as u32;
    let options = slice_subrange(body, 8, body.len());
    assert(options@ =~= body@.skip(8));
    let ticks_per_sec = match parse_tsresol_option(options, swap) {
        Some(t) => t,
        None => 1_000_000,
    };
    Ok(Interface { link_type: LinkType::from_u32(link_type_raw), ticks_per_sec })
}

// ---- packets ----

/// Seconds and nanoseconds of a tick count, rounded down; the seconds stop at
/// the largest 32-bit number.
pub open spec fn ticks_time(ticks: u64, ticks_per_sec: u64) -> (u32, u32) {
    if ticks_per_sec == 0 {
        (0, 0)
    } else {
        (
            if ticks / ticks_per_sec > u32::MAX {
                u32::MAX
            } else {
                (ticks / ticks_per_sec) as u32
            },
            ((ticks % ticks_per_sec) * 1_000_000_000int / ticks_per_sec as int) as u32,
        )
    }
}

/// The packet in an Enhanced Packet Block: interface, timestamp (high word
/// first), captured length, original length, then the bytes.
pub open spec fn epb(f: NgFile, body: Seq<u8>) -> Result<PacketView, CaptureError> {
    let iface = interface_at(f, u32_at(body, 0, f.swap) as int);
    let ticks = (u32_at(body, 4, f.swap) * 0x1_0000_0000 + u32_at(body, 8, f.swap)) as u64;
    let captured = u32_at(body, 12, f.swap);
    let time = ticks_time(ticks, iface.ticks_per_sec);
    if body.len() < 20 {
        Err(CaptureError::ShortEnhanced)
    } else if body.len() - 20 < captured {
        Err(CaptureError::EnhancedLength(captured, (body.len() - 20) as u32))
    } else {
        Ok(
            PacketView {
                ts_sec: time.0,
                ts_nsec: time.1,
                orig_len: u32_at(body, 16, f.swap),
                link_type: iface.link_type,
                data: body.subrange(20, 20 + captured),
            },
        )
    }
}

/// The packet in a Simple Packet Block: the original length, then the bytes
/// and the padding that this length calls for. It has no timestamp and
/// belongs to the first interface.
pub open spec fn spb(f: NgFile, body: Seq<u8>) -> Result<PacketView, CaptureError> {
    let orig_len = u32_at(body, 0, f.swap);
    let pad = padding(orig_len as int);
    if body.len() < 4 {
        Err(CaptureError::ShortSimple)
    } else {
        Ok(
            PacketView {
                ts_sec: 0,
                ts_nsec: 0,
                orig_len,
                link_type: interface_at(f, 0).link_type,
                data: if body.len() - 4 < pad {
                    Seq::empty()
                } else {
                    body.subrange(4, body.len() - pad)
                },
            },
        )
    }
}

fn split_ticks(ticks: u64, ticks_per_sec: u64) -> (r: (u32, u32))
    ensures
        r == ticks_time(ticks, ticks_per_sec),
{
    if ticks_per_sec == 0 {
        return (0, 0);
    }
    let sec = ticks / ticks_per_sec;
    let sub = ticks % ticks_per_sec;
    assert(sub < ticks_per_sec);
    assert(0 <= sub * 1_000_000_000 / ticks_per_sec as int <= 1_000_000_000) by (nonlinear_arith)
        requires
            0 <= sub < ticks_per_sec,
    ;
    let nsec = (sub as u128 * 1_000_000_000u128 / ticks_per_sec as u128) as u32;
    (
        if sec > u32::MAX as u64 {
            u32::MAX
        } else {
            sec as u32
        },
        nsec,
    )
}

/// The view of a packet or an error.
pub open spec fn one_view(r: Result<RawPacket, CaptureError>) -> Result<PacketView, CaptureError> {
    match r {
        Ok(p) => Ok(p@),
        Err(e) => Err(e),
    }
}

impl PcapNgReader {
    fn interface(&self, id: u32) -> (r: Interface)
        ensures
            r == interface_at(self@, id as int),
    {
        if (id as usize) < self.interfaces.len() {
            self.interfaces[id as usize]
        } else {
            Interface::default_ethernet()
        }
    }

    fn parse_epb(&self, body: &[u8]) -> (r: Result<RawPacket, CaptureError>)
        requires
            body.len() <= MAX_BLOCK_LEN,
        ensures
            one_view(r) == epb(self@, body@),
    {
        if body.len() < 20 {
            return Err(CaptureError::ShortEnhanced);
        }
        let interface_id = read_u32(body, 0, self.swap);
        let ts_high = read_u32(body, 4, self.swap) as u64;
        let ts_low = read_u32(body, 8, self.swap) as u64;
        let captured = read_u32(body, 12, self.swap);
        let captured_len: usize = captured as usize;
        let orig_len = read_u32(body, 16, self.swap);
        if body.len() - 20 < captured_len {
            return Err(CaptureError::EnhancedLength(captured, (body.len() - 20) as u32));
        }
        let data = slice_to_vec(slice_subrange(body, 20, 20 + captured_len));
        let iface = self.interface(interface_id);
        let (ts_sec, ts_nsec) = split_ticks(ts_high * 0x1_0000_0000 + ts_low, iface.ticks_per_sec);
        Ok(RawPacket { ts_sec, ts_nsec, orig_len, link_type: iface.link_type, data })
    }

    fn parse_spb(&self, body: &[u8]) -> (r: Result<RawPacket, CaptureError>)
        ensures
            one_view(r) == spb(self@, body@),
    {
        if body.len() < 4 {
            return Err(CaptureError::ShortSimple);
        }
        let orig_len = read_u32(body, 0, self.swap);
        let pad = pad4(orig_len as usize);
        let end = if body.len() - 4 < pad {
            4
        } else {
            body.len() - pad
        };
        let data = slice_to_vec(slice_subrange(body, 4, end));
        assert(data@ =~= spb(self@, body@)->Ok_0.data);
        let iface = self.interface(0);
        Ok(RawPacket { ts_sec: 0, ts_nsec: 0, orig_len, link_type: iface.link_type, data })
    }
}

// ---- blocks ----

/// What comes of asking for a packet: the packet, the end of the file or an
/// error, the state of the file and the input that is left.
pub ghost struct NgStep {
    pub out: Result<Option<PacketView>, CaptureError>,
    pub file: NgFile,
    pub rest: Seq<u8>,
}

/// What comes of one block: an outcome, or a changed state to go on with.
pub ghost enum NgBlock {
    Stop(NgStep),
    Next(NgFile, Seq<u8>),
}

/// The outcome of a packet block.
pub open spec fn found(p: Result<PacketView, CaptureError>) -> Result<
    Option<PacketView>,
    CaptureError,
> {
    match p {
        Ok(p) => Ok(Some(p)),
        Err(e) => Err(e),
    }
}

/// What a whole block of a given type means for the file.
pub open spec fn ng_body(f: NgFile, block_type: u32, body: Seq<u8>, rest: Seq<u8>) -> NgBlock {
    let cleared = NgFile { interfaces: Seq::empty(), ..f };
    if block_type == BT_SHB {
        if body.len() < 4 {
            NgBlock::Stop(
                NgStep {
                    out: Err(CaptureError::SectionTooShort((body.len() + 12) as u32)),
                    file: cleared,
                    rest,
                },
            )
        } else if u32_at(body, 0, f.swap) != SHB_BOM {
            NgBlock::Stop(NgStep { out: Err(CaptureError::ForeignSection), file: cleared, rest })
        } else {
            NgBlock::Next(cleared, rest)
        }
    } else if block_type == BT_IDB {
        match idb(body, f.swap) {
            Ok(iface) => NgBlock::Next(
                NgFile { interfaces: f.interfaces.push(iface), ..f },
                rest,
            ),
            Err(e) => NgBlock::Stop(NgStep { out: Err(e), file: f, rest }),
        }
    } else if block_type == BT_EPB {
        NgBlock::Stop(NgStep { out: found(epb(f, body)), file: f, rest })
    } else if block_type == BT_SPB {
        NgBlock::Stop(NgStep { out: found(spb(f, body)), file: f, rest })
    } else {
        NgBlock::Next(f, rest)
    }
}

/// The block at the start of the input: type, total length, body, and the
/// total length once more.
pub open spec fn ng_block(f: NgFile, rest: Seq<u8>, ended: bool) -> NgBlock {
    let total = u32_at(rest, 4, f.swap);
    let trailer = u32_at(rest, total - 4, f.swap);
    if rest.len() < 8 {
        NgBlock::Stop(
            if ended {
                NgStep { out: Ok(None), file: f, rest: Seq::empty() }
            } else {
                NgStep { out: Err(CaptureError::Incomplete), file: f, rest }
            },
        )
    } else if !(12 <= total <= MAX_BLOCK_LEN) {
        NgBlock::Stop(
            NgStep { out: Err(CaptureError::BlockLength(total)), file: f, rest: rest.skip(8) },
        )
    } else if rest.len() < total {
        NgBlock::Stop(
            NgStep {
                out: Err(
                    short_of(
                        ended,
                        if rest.len() < total - 4 {
                            Part::BlockBody
                        } else {
                            Part::BlockTrailer
                        },
                    ),
                ),
                file: f,
                rest: left_after_short(rest, ended),
            },
        )
    } else if trailer != total {
        NgBlock::Stop(
            NgStep {
                out: Err(CaptureError::BlockTrailer(trailer, total)),
                file: f,
                rest: rest.skip(total as int),
            },
        )
    } else {
        ng_body(
            f,
            u32_at(rest, 0, f.swap),
            rest.subrange(8, total - 4),
            rest.skip(total as int),
        )
    }
}

/// The next packet of a pcapng file: blocks up to the first that holds a
/// packet, ends the file or is in error.
pub open spec fn ng_next(f: NgFile, rest: Seq<u8>, ended: bool) -> NgStep
    decreases rest.len(),
{
    match ng_block(f, rest, ended) {
        NgBlock::Stop(step) => step,
        NgBlock::Next(f2, rest2) => if rest2.len() < rest.len() {
            ng_next(f2, rest2, ended)
        } else {
            NgStep { out: Ok(None), file: f, rest }
        },
    }
}

/// The outcome of one block, or `None` to go on.
pub open spec fn block_view(r: Option<Result<Option<RawPacket>, CaptureError>>) -> Option<
    Result<Option<PacketView>, CaptureError>,
> {
    match r {
        Some(r) => Some(packet_view(r)),
        None => None,
    }
}

impl PcapNgReader {
    /// The next packet of an Enhanced or Simple Packet Block, past blocks of
    /// other types, or `Ok(None)` at the end of the file.
    pub fn next_packet(&mut self, input: &mut Input) -> (r: Result<
        Option<RawPacket>,
        CaptureError,
    >)
        ensures
            final(input).ended() == old(input).ended(),
            packet_view(r) == ng_next(old(self)@, old(input).rest(), old(input).ended()).out,
            final(self)@ == ng_next(old(self)@, old(input).rest(), old(input).ended()).file,
            final(input).rest() == ng_next(
                old(self)@,
                old(input).rest(),
                old(input).ended(),
            ).rest,
    {
        loop
            invariant
                input.ended() == old(input).ended(),
                ng_next(self@, input.rest(), input.ended()) == ng_next(
                    old(self)@,
                    old(input).rest(),
                    old(input).ended(),
                ),
            decreases input.rest().len(),
        {
            if let Some(r) = self.next_block(input) {
                return r;
            }
        }
    }

    fn next_block(&mut self, input: &mut Input) -> (r: Option<
        Result<Option<RawPacket>, CaptureError>,
    >)
        ensures
            final(input).ended() == old(input).ended(),
            match ng_block(old(self)@, old(input).rest(), old(input).ended()) {
                NgBlock::Stop(step) => {
                    &&& block_view(r) == Some(step.out)
                    &&& final(self)@ == step.file
                    &&& final(input).rest() == step.rest
                },
                NgBlock::Next(file, rest) => {
                    &&& r is None
                    &&& final(self)@ == file
                    &&& final(input).rest() == rest
                    &&& rest.len() < old(input).rest().len()
                },
            },
    {
        let avail = input.available();
        if avail < 8 {
            return if input.is_ended() {
                input.drain();
                Some(Ok(None))
            } else {
                Some(Err(CaptureError::Incomplete))
            };
        }
        let block_type = read_u32(input.pending(), 0, self.swap);
        let total = read_u32(input.pending(), 4, self.swap);
        if !(12 <= total && total <= MAX_BLOCK_LEN) {
            input.advance(8);
            return Some(Err(CaptureError::BlockLength(total)));
        }
        let len: usize = total as usize;
        if avail < len {
            let part = if avail < len - 4 {
                Part::BlockBody
            } else {
                Part::BlockTrailer
            };
            return Some(Err(input.short(part)));
        }
        let trailer = read_u32(input.pending(), len - 4, self.swap);
        if trailer != total {
            input.advance(len);
            return Some(Err(CaptureError::BlockTrailer(trailer, total)));
        }
        let body = slice_to_vec(slice_subrange(input.pending(), 8, len - 4));
        input.advance(len);
        self.take_block(block_type, body.as_slice(), Ghost(input.rest()))
    }

    fn take_block(&mut self, block_type: u32, body: &[u8], Ghost(rest): Ghost<Seq<u8>>) -> (r:
        Option<Result<Option<RawPacket>, CaptureError>>)
        requires
            body.len() <= MAX_BLOCK_LEN,
        ensures
            match ng_body(old(self)@, block_type, body@, rest) {
                NgBlock::Stop(step) => {
                    &&& block_view(r) == Some(step.out)
                    &&& final(self)@ == step.file
                },
                NgBlock::Next(file, _) => {
                    &&& r is None
                    &&& final(self)@ == file
                },
            },
    {
        match block_type {
            BT_SHB => {
                self.interfaces = Vec::new();
                assert(self.interfaces@ =~= Seq::<Interface>::empty());
                if body.len() < 4 {
                    return Some(Err(CaptureError::SectionTooShort((body.len() + 12) as u32)));
                }
                if read_u32(body, 0, self.swap) != SHB_BOM {
                    return Some(Err(CaptureError::ForeignSection));
                }
                None
            },
            BT_IDB => match parse_idb(body, self.swap) {
                Ok(iface) => {
                    self.interfaces.push(iface);
                    None
                },
                Err(e) => Some(Err(e)),
            },
            BT_EPB => match self.parse_epb(body) {
                Ok(p) => Some(Ok(Some(p))),
                Err(e) => Some(Err(e)),
            },
            BT_SPB => match self.parse_spb(body) {
                Ok(p) => Some(Ok(Some(p))),
                Err(e) => Some(Err(e)),
            },
            _ => None,
        }
    }
}

// ---- laws ----

/// Padding fills up to the next multiple of four, and is shorter than four.
pub proof fn law_padding_fills_up_to_four(n: int)
    requires
        n >= 0,
    ensures
        0 <= padding(n) < 4,
        (n + padding(n)) % 4 == 0,
{
}

/// A timestamp resolution is a power: each step up is ten times as many ticks
/// per second, or twice as many where the top bit is set. Powers of ten reach
/// as far as 64 bits do, powers of two up to 2^62.
pub proof fn law_resolutions_are_powers(v: u8)
    ensures
        resolution(0) == Some(1u64),
        v < 19 ==> resolution(v) is Some && resolution((v + 1) as u8) == Some(
            (10 * resolution(v)->0) as u64,
        ) && 10 * resolution(v)->0 <= u64::MAX,
        20 <= v < 128 ==> resolution(v) is None,
        resolution(128) == Some(1u64),
        128 <= v < 190 ==> resolution(v) is Some && resolution((v + 1) as u8) == Some(
            (2 * resolution(v)->0) as u64,
        ) && 2 * resolution(v)->0 <= u64::MAX,
        191 <= v ==> resolution(v) is None,
{
    reveal(pow);
    assert(pow(10, 0) == 1);
    assert(pow(2, 0) == 1);
    lemma_powers_of_ten();
    if v < 19 {
        assert(pow(10, (v + 1) as nat) == 10 * pow(10, v as nat));
        lemma_pow_increases(10, v as nat, 19);
        lemma_pow_increases(10, (v + 1) as nat, 19);
        vstd::arithmetic::power::lemma_pow_positive(10, v as nat);
    } else if 20 <= v < 128 {
        lemma_pow_increases(10, 20, v as nat);
    } else if 128 <= v < 190 {
        let e = (v - 128) as nat;
        assert(pow(2, e + 1) == 2 * pow(2, e));
        lemma_pow_increases(2, e, 62);
        lemma_pow_increases(2, e + 1, 62);
        vstd::arithmetic::power::lemma_pow_positive(2, e);
        lemma_pow2(62);
        lemma2_to64_rest();
    }
}

proof fn lemma_powers_of_ten()
    ensures
        pow(10, 19) == 10_000_000_000_000_000_000,
        pow(10, 20) == 100_000_000_000_000_000_000,
{
    reveal_with_fuel(pow, 21);
}

/// The time of a tick count is the whole seconds in it, and the whole
/// nanoseconds in what remains: one tick less than the next second is never
/// rounded up.
pub proof fn law_ticks_are_split_without_rounding_up(ticks: u64, per_sec: u64)
    requires
        per_sec > 0,
    ensures
        ({
            let (sec, nsec) = ticks_time(ticks, per_sec);
            let whole = ticks / per_sec;
            let part = ticks - whole * per_sec;
            &&& whole * per_sec <= ticks < (whole + 1) * per_sec
            &&& sec == if whole <= u32::MAX {
                whole as int
            } else {
                u32::MAX as int
            }
            &&& nsec < 1_000_000_000
            &&& nsec * per_sec <= part * 1_000_000_000 < (nsec + 1) * per_sec
        }),
        ticks_time(ticks, 0) == (0u32, 0u32),
{
    let whole = (ticks / per_sec) as int;
    let part = (ticks % per_sec) as int;
    let t = ticks as int;
    let p = per_sec as int;
    assert(t == whole * p + part && 0 <= part < p && (whole + 1) * p == whole * p + p)
        by (nonlinear_arith)
        requires
            p > 0,
            whole == t / p,
            part == t % p,
    ;
    let scaled = part * 1_000_000_000;
    let nsec = scaled / p;
    assert(nsec * p <= scaled < (nsec + 1) * p && 0 <= nsec < 1_000_000_000) by (nonlinear_arith)
        requires
            p > 0,
            0 <= part < p,
            scaled == part * 1_000_000_000,
            nsec == scaled / p,
    ;
}

/// An interface is found by its place in the table; one that was never
/// described counts as Ethernet with microseconds.
pub proof fn law_interfaces_are_found_by_their_place(
    f: NgFile,
    more: Seq<Interface>,
    i: Interface,
    id: int,
)
    ensures
        interface_at(NgFile { interfaces: f.interfaces.push(i) + more, ..f }, f.interfaces.len()
            as int) == i,
        id >= f.interfaces.len() || id < 0 ==> interface_at(f, id).link_type
            == LinkType::Ethernet && interface_at(f, id).ticks_per_sec == 1_000_000,
{
    assert((f.interfaces.push(i) + more)[f.interfaces.len() as int] == i);
}

/// An interface description without a timestamp resolution counts in
/// microseconds; it is refused exactly if it has fewer than 8 bytes.
pub proof fn law_interface_descriptions_are_read(body: Seq<u8>, swap: bool)
    ensures
        body.len() < 8 <==> idb(body, swap) == Err::<Interface, CaptureError>(
            CaptureError::ShortInterface,
        ),
        body.len() >= 8 ==> ({
            let i = idb(body, swap);
            &&& i is Ok
            &&& i->Ok_0.link_type == link_of(
                (if swap {
                    body[0] * 0x100 + body[1]
                } else {
                    body[0] + body[1] * 0x100
                }) as u32,
            )
            &&& tsresol(body.skip(8), 0, swap) is None ==> i->Ok_0.ticks_per_sec == 1_000_000
            &&& tsresol(body.skip(8), 0, swap) matches Some(t) ==> i->Ok_0.ticks_per_sec == t
        }),
        body.len() == 8 ==> tsresol(body.skip(8), 0, swap) is None,
{
}

/// A list of options that ends, or is cut off, before a timestamp resolution
/// has none.
pub proof fn law_ended_options_have_no_resolution(options: Seq<u8>, swap: bool)
    ensures
        options.len() < 4 ==> tsresol(options, 0, swap) is None,
        tsresol(seq![0u8, 0u8] + options, 0, swap) is None,
        options.len() >= 4 && options.len() - 4 < u16_at(options, 2, swap) ==> tsresol(
            options,
            0,
            swap,
        ) is None,
{
    let s = seq![0u8, 0u8] + options;
    assert(s[0] == 0 && s[1] == 0);
}

/// A packet block that is too short, or claims more bytes than it has, is
/// refused; an enhanced one needs 20 bytes before its data, a simple one 4.
pub proof fn law_short_packets_are_refused(f: NgFile, body: Seq<u8>)
    ensures
        body.len() < 20 <==> epb(f, body) == Err::<PacketView, CaptureError>(
            CaptureError::ShortEnhanced,
        ),
        body.len() >= 20 ==> ({
            let n = u32_at(body, 12, f.swap);
            &&& n > body.len() - 20 ==> epb(f, body) == Err::<PacketView, CaptureError>(
                CaptureError::EnhancedLength(n, (body.len() - 20) as u32),
            )
            &&& n <= body.len() - 20 ==> epb(f, body) is Ok
        }),
        body.len() < 4 <==> spb(f, body) == Err::<PacketView, CaptureError>(
            CaptureError::ShortSimple,
        ),
        body.len() >= 4 ==> spb(f, body) is Ok,
{
}

/// A simple packet has no time and belongs to the first interface. Its data is
/// all that is there but the padding that its original length calls for, also
/// where less was captured than that length says.
pub proof fn law_simple_packets_are_what_is_there(
    f: NgFile,
    orig_len: u32,
    data: Seq<u8>,
    pad: Seq<u8>,
    body: Seq<u8>,
)
    requires
        body.len() == 4 + data.len() + pad.len(),
        u32_at(body, 0, f.swap) == orig_len,
        body.skip(4) == data + pad,
        pad.len() < 4,
        (orig_len + pad.len()) % 4 == 0,
    ensures
        spb(f, body) == Ok::<PacketView, CaptureError>(
            PacketView {
                ts_sec: 0,
                ts_nsec: 0,
                orig_len,
                link_type: if f.interfaces.len() > 0 {
                    f.interfaces[0].link_type
                } else {
                    LinkType::Ethernet
                },
                data,
            },
        ),
{
    law_padding_fills_up_to_four(orig_len as int);
    assert(padding(orig_len as int) == pad.len());
    assert(body.subrange(4, body.len() - pad.len()) =~= data) by {
        let sent = body.skip(4);
        assert(sent == data + pad);
        assert(sent.take(data.len() as int) =~= data);
        assert(body.subrange(4, body.len() - pad.len()) =~= sent.take(data.len() as int));
    }
}

/// A section header is refused for its byte-order magic, for a length below 12
/// or above 0x1000000, for being too short to hold its own trailer, and for a
/// trailer that differs.
pub proof fn law_bad_section_headers_are_told(s: Seq<u8>)
    requires
        s.len() >= 12,
        s[0] == 0x0a,
        s[1] == 0x0d,
        s[2] == 0x0d,
        s[3] == 0x0a,
    ensures
        ({
            let out = ng_open(s, true).out;
            let big = s[8] == 0x1a && s[9] == 0x2b && s[10] == 0x3c && s[11] == 0x4d;
            let little = s[8] == 0x4d && s[9] == 0x3c && s[10] == 0x2b && s[11] == 0x1a;
            let n = u32_at(s, 4, big);
            &&& !big && !little ==> out == Err::<NgFile, CaptureError>(
                CaptureError::ByteOrder(u32_at(s, 8, false)),
            )
            &&& big || little ==> {
                &&& n < 12 || n > 0x100_0000 ==> out == Err::<NgFile, CaptureError>(
                    CaptureError::SectionLength(n),
                )
                &&& 12 <= n <= 0x100_0000 && s.len() < n ==> out == Err::<NgFile, CaptureError>(
                    CaptureError::Truncated(Part::SectionBody),
                )
                &&& 12 <= n < 16 && s.len() >= n ==> out == Err::<NgFile, CaptureError>(
                    CaptureError::SectionTooShort(n),
                )
                &&& 16 <= n <= 0x100_0000 && s.len() >= n ==> ({
                    let t = u32_at(s, n - 4, big);
                    &&& t != n ==> out == Err::<NgFile, CaptureError>(
                        CaptureError::SectionTrailer(t, n),
                    )
                    &&& t == n ==> out == Ok::<NgFile, CaptureError>(
                        NgFile { swap: big, interfaces: Seq::empty() },
                    ) && ng_open(s, true).rest == s.skip(n as int)
                })
            }
        }),
{
    let after = s.skip(4);
    let big = s[8] == 0x1a && s[9] == 0x2b && s[10] == 0x3c && s[11] == 0x4d;
    let little = s[8] == 0x4d && s[9] == 0x3c && s[10] == 0x2b && s[11] == 0x1a;
    assert(le32(s, 0) == 0x0a0d_0d0a);
    assert(after[4] == s[8] && after[5] == s[9] && after[6] == s[10] && after[7] == s[11]);
    if le32(after, 4) == 0x1a2b_3c4d {
        assert(little);
    }
    if be32(after, 4) == 0x1a2b_3c4d {
        assert(big);
    }
    let n = u32_at(s, 4, big);
    if big || little {
        assert(u32_at(after, 0, big) == n);
        if 16 <= n <= 0x100_0000 && s.len() >= n {
            assert(u32_at(after, n - 8, big) == u32_at(s, n - 4, big));
            assert(after.skip(n - 4) =~= s.skip(n as int));
        }
    }
}

/// A block is refused for a length below 12 or above 0x10000000 and for a
/// trailer that differs; one that is cut off is truncated in its body or in its
/// trailer, and a file may end anywhere in the first 8 bytes of a block.
pub proof fn law_bad_blocks_are_told(f: NgFile, s: Seq<u8>)
    ensures
        s.len() < 8 ==> ng_next(f, s, true).out == Ok::<Option<PacketView>, CaptureError>(None),
        s.len() < 8 ==> ng_next(f, s, false).out == Err::<Option<PacketView>, CaptureError>(
            CaptureError::Incomplete,
        ),
        s.len() >= 8 ==> ({
            let n = u32_at(s, 4, f.swap);
            let out = ng_next(f, s, true).out;
            &&& n < 12 || n > 0x1000_0000 ==> out == Err::<Option<PacketView>, CaptureError>(
                CaptureError::BlockLength(n),
            )
            &&& 12 <= n <= 0x1000_0000 && s.len() < n - 4 ==> out == Err::<
                Option<PacketView>,
                CaptureError,
            >(CaptureError::Truncated(Part::BlockBody))
            &&& 12 <= n <= 0x1000_0000 && n - 4 <= s.len() < n ==> out == Err::<
                Option<PacketView>,
                CaptureError,
            >(CaptureError::Truncated(Part::BlockTrailer))
            &&& 12 <= n <= 0x1000_0000 && s.len() >= n && u32_at(s, n - 4, f.swap) != n ==> out
                == Err::<Option<PacketView>, CaptureError>(
                CaptureError::BlockTrailer(u32_at(s, n - 4, f.swap), n),
            )
        }),
{
}

/// A later section that is written in the other byte order, or is too short to
/// tell, is refused; like every section it forgets the interfaces before it.
pub proof fn law_later_sections_keep_the_byte_order(
    f: NgFile,
    body: Seq<u8>,
    rest: Seq<u8>,
)
    ensures
        body.len() < 4 ==> ng_body(f, 0x0a0d_0d0a, body, rest) == NgBlock::Stop(
            NgStep {
                out: Err(CaptureError::SectionTooShort((body.len() + 12) as u32)),
                file: NgFile { swap: f.swap, interfaces: Seq::empty() },
                rest,
            },
        ),
        body.len() >= 4 && u32_at(body, 0, f.swap) != 0x1a2b_3c4d ==> ng_body(
            f,
            0x0a0d_0d0a,
            body,
            rest,
        ) == NgBlock::Stop(
            NgStep {
                out: Err(CaptureError::ForeignSection),
                file: NgFile { swap: f.swap, interfaces: Seq::empty() },
                rest,
            },
        ),
        body.len() >= 4 && u32_at(body, 0, f.swap) == 0x1a2b_3c4d ==> ng_body(
            f,
            0x0a0d_0d0a,
            body,
            rest,
        ) == NgBlock::Next(NgFile { swap: f.swap, interfaces: Seq::empty() }, rest),
{
}

/// A file that does not start with a section header is refused with its first
/// four bytes; one that ends within the first twelve is truncated.
pub proof fn law_other_files_are_refused(s: Seq<u8>)
    ensures
        s.len() < 4 ==> ng_open(s, true).out == Err::<NgFile, CaptureError>(
            CaptureError::Truncated(Part::PcapNgMagic),
        ),
        s.len() >= 4 && !(s[0] == 0x0a && s[1] == 0x0d && s[2] == 0x0d && s[3] == 0x0a) ==> {
            &&& ng_open(s, true).out == Err::<NgFile, CaptureError>(
                CaptureError::NotPcapNg(u32_at(s, 0, false)),
            )
            &&& ng_open(s, true).rest == s.skip(4)
        },
        4 <= s.len() < 12 && s[0] == 0x0a && s[1] == 0x0d && s[2] == 0x0d && s[3] == 0x0a ==> {
            &&& ng_open(s, true).out == Err::<NgFile, CaptureError>(
                CaptureError::Truncated(Part::SectionPrefix),
            )
            &&& ng_open(s, false).out == Err::<NgFile, CaptureError>(CaptureError::Incomplete)
            &&& ng_open(s, false).rest == s
        },
{
    if s.len() >= 4 && le32(s, 0) == 0x0a0d_0d0a {
        assert(s[0] == 0x0a && s[1] == 0x0d && s[2] == 0x0d && s[3] == 0x0a);
    }
}

/// After a block with an absurd length the input behind its first 8 bytes is
/// left, after one with a wrong trailer that behind the block, after one that
/// is cut off nothing; with more to come nothing is lost.
pub proof fn law_what_is_left_of_bad_blocks(f: NgFile, s: Seq<u8>)
    requires
        s.len() >= 8,
    ensures
        ({
            let n = u32_at(s, 4, f.swap);
            let step = ng_next(f, s, true);
            let part = ng_next(f, s, false);
            &&& n < 12 || n > 0x1000_0000 ==> step.rest == s.skip(8) && step.file == f
            &&& 12 <= n <= 0x1000_0000 && s.len() < n ==> {
                &&& step.rest.len() == 0
                &&& step.file == f
                &&& part.out == Err::<Option<PacketView>, CaptureError>(CaptureError::Incomplete)
                &&& part.rest == s
                &&& part.file == f
            }
            &&& 12 <= n <= 0x1000_0000 && s.len() >= n && u32_at(s, n - 4, f.swap) != n ==> {
                &&& step.rest == s.skip(n as int)
                &&& step.file == f
            }
        }),
{
}

} // verus!
