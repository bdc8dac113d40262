//! Classic pcap decoding, and the choice between pcap and pcapng.
//!
//! The decoders do no input of their own. Bytes arrive in an [`Input`], in
//! pieces of any size; a decoder takes what it can use and asks for more with
//! [`CaptureError::Incomplete`] until the input is marked complete. What is
//! decoded does not depend on how the bytes were cut.

use vstd::prelude::*;
use vstd::slice::slice_subrange;
use vstd::slice::slice_to_vec;

use crate::bytes::{get_be16, get_be32, get_le16, get_le32};
#[allow(unused_imports)]
use crate::bytes::{be16, be32, le16, le32};
use crate::pcapng::PcapNgReader;
#[allow(unused_imports)]
use crate::pcapng::{ng_next, ng_open, NgFile};
use crate::text::{cat2, cat3, cat4, dec, hexw};
#[allow(unused_imports)]
use crate::text::{dec_text, hex_fixed};

verus! {

pub const PCAP_MAGIC_US: u32 = 0xa1b2_c3d4;

pub const PCAP_MAGIC_US_SWAP: u32 = 0xd4c3_b2a1;

pub const PCAP_MAGIC_NS: u32 = 0xa1b2_3c4d;

pub const PCAP_MAGIC_NS_SWAP: u32 = 0x4d3c_b2a1;

pub const PCAPNG_MAGIC_SHB: u32 = 0x0a0d_0d0a;

/// The longest record that is taken for real.
pub const MAX_RECORD_LEN: u32 = 0x1000_0000;

/// Well-known pcap link-layer types (subset).
#[derive(Debug, Clone, Copy, PartialEq, Eq, Structural)]
pub enum LinkType {
    /// 1 (DLT_EN10MB)
    Ethernet,
    /// 101 (DLT_RAW)
    RawIp,
    /// 113 (DLT_LINUX_SLL)
    LinuxSll,
    /// 0 (DLT_NULL)
    Null,
    /// 247 (DLT_INFINIBAND): native InfiniBand, the frame starts at the LRH
    Infiniband,
    Other(u32),
}

/// The link type with a given number.
pub open spec fn link_of(v: u32) -> LinkType {
    if v == 0 {
        LinkType::Null
    } else if v == 1 {
        LinkType::Ethernet
    } else if v == 101 {
        LinkType::RawIp
    } else if v == 113 {
        LinkType::LinuxSll
    } else if v == 247 {
        LinkType::Infiniband
    } else {
        LinkType::Other(v)
    }
}

impl LinkType {
    /// The link type with a given number.
    pub fn from_u32(v: u32) -> (r: Self)
        ensures
            r == link_of(v),
    {
        match v {
            0 => LinkType::Null,
            1 => LinkType::Ethernet,
            101 => LinkType::RawIp,
            113 => LinkType::LinuxSll,
            247 => LinkType::Infiniband,
            x => LinkType::Other(x),
        }
    }
}

/// A packet record of a capture file.
///
/// `link_type` is per packet because pcapng files can hold records from
/// interfaces with different link layers.
#[derive(Debug)]
pub struct RawPacket {
    /// Timestamp seconds (since the Unix epoch).
    pub ts_sec: u32,
    /// Sub-second component in nanoseconds.
    pub ts_nsec: u32,
    /// Original (on-wire) length.
    pub orig_len: u32,
    /// Link-layer type of `data`.
    pub link_type: LinkType,
    /// Captured bytes (may be cut off at the snap length).
    pub data: Vec<u8>,
}

/// What a [`RawPacket`] says.
pub ghost struct PacketView {
    pub ts_sec: u32,
    pub ts_nsec: u32,
    pub orig_len: u32,
    pub link_type: LinkType,
    pub data: Seq<u8>,
}

impl View for RawPacket {
    type V = PacketView;

    open spec fn view(&self) -> PacketView {
        PacketView {
            ts_sec: self.ts_sec,
            ts_nsec: self.ts_nsec,
            orig_len: self.orig_len,
            link_type: self.link_type,
            data: self.data@,
        }
    }
}

impl Clone for RawPacket {
    fn clone(&self) -> (r: Self)
        ensures
            r@ == self@,
    {
        RawPacket {
            ts_sec: self.ts_sec,
            ts_nsec: self.ts_nsec,
            orig_len: self.orig_len,
            link_type: self.link_type,
            data: slice_to_vec(self.data.as_slice()),
        }
    }
}

// ---- errors ----

/// A part of a capture file.
#[derive(Debug, Clone, Copy, PartialEq, Eq, Structural)]
pub enum Part {
    CaptureMagic,
    PcapMagic,
    PcapHeader,
    PcapPayload,
    PcapNgMagic,
    SectionPrefix,
    SectionBody,
    BlockBody,
    BlockTrailer,
}

/// Why a capture could not be read on.
#[derive(Debug, Clone, Copy, PartialEq, Eq, Structural)]
pub enum CaptureError {
    /// The input so far ends inside something; nothing was lost, and with
    /// more input the same call goes on.
    Incomplete,
    /// The file ends inside this part.
    Truncated(Part),
    /// No known capture format starts with these four bytes.
    UnknownMagic(u32),
    /// Not a classic pcap file.
    NotPcap(u32),
    /// Not a pcapng file.
    NotPcapNg(u32),
    /// A pcap record claims an absurd length.
    RecordLength(u32),
    /// A pcapng section has an unknown byte-order magic.
    ByteOrder(u32),
    /// A pcapng section claims an absurd length.
    SectionLength(u32),
    /// A pcapng section is too short to hold its own trailer.
    SectionTooShort(u32),
    /// The two lengths of a pcapng section differ.
    SectionTrailer(u32, u32),
    /// A pcapng block claims an absurd length.
    BlockLength(u32),
    /// The two lengths of a pcapng block differ.
    BlockTrailer(u32, u32),
    /// A later section has another byte order than the first.
    ForeignSection,
    /// An interface description is too short.
    ShortInterface,
    /// An enhanced packet is too short.
    ShortEnhanced,
    /// An enhanced packet claims more bytes than its block holds.
    EnhancedLength(u32, u32),
    /// A simple packet is too short.
    ShortSimple,
}

/// What was being read when the file ended.
pub open spec fn part_text(p: Part) -> Seq<char> {
    match p {
        Part::CaptureMagic => "reading capture-file magic"@,
        Part::PcapMagic => "reading pcap magic"@,
        Part::PcapHeader => "reading pcap global header"@,
        Part::PcapPayload => "reading pcap record payload"@,
        Part::PcapNgMagic => "reading pcapng magic"@,
        Part::SectionPrefix => "reading pcapng SHB prefix"@,
        Part::SectionBody => "reading pcapng SHB body"@,
        Part::BlockBody => "reading pcapng block body"@,
        Part::BlockTrailer => "reading pcapng block trailer"@,
    }
}

fn part_name(p: Part) -> (r: &'static str)
    ensures
        r@ == part_text(p),
{
    match p {
        Part::CaptureMagic => "reading capture-file magic",
        Part::PcapMagic => "reading pcap magic",
        Part::PcapHeader => "reading pcap global header",
        Part::PcapPayload => "reading pcap record payload",
        Part::PcapNgMagic => "reading pcapng magic",
        Part::SectionPrefix => "reading pcapng SHB prefix",
        Part::SectionBody => "reading pcapng SHB body",
        Part::BlockBody => "reading pcapng block body",
        Part::BlockTrailer => "reading pcapng block trailer",
    }
}

/// The message of an error.
pub open spec fn error_text(e: CaptureError) -> Seq<char> {
    match e {
        CaptureError::Incomplete => "more input is needed"@,
        CaptureError::Truncated(p) => part_text(p),
        CaptureError::UnknownMagic(m) => "unrecognised capture-file magic 0x"@ + hex_fixed(
            m as nat,
            8,
        ) + "; supported: pcap, pcapng"@,
        CaptureError::NotPcap(m) => "not a classic pcap file (magic = 0x"@ + hex_fixed(m as nat, 8)
            + ")"@,
        CaptureError::NotPcapNg(m) => "not a pcapng file (magic = 0x"@ + hex_fixed(m as nat, 8)
            + ")"@,
        CaptureError::RecordLength(n) => "implausible pcap record length: "@ + dec_text(n as nat),
        CaptureError::ByteOrder(m) => "pcapng SHB byte-order magic invalid (got 0x"@ + hex_fixed(
            m as nat,
            8,
        ) + ")"@,
        CaptureError::SectionLength(n) => "implausible pcapng SHB total length: "@ + dec_text(
            n as nat,
        ),
        CaptureError::SectionTooShort(n) => "pcapng section header block too short: "@ + dec_text(
            n as nat,
        ),
        CaptureError::SectionTrailer(a, b) => "pcapng SHB trailer length mismatch: "@ + dec_text(
            a as nat,
        ) + " vs "@ + dec_text(b as nat),
        CaptureError::BlockLength(n) => "implausible pcapng block length: "@ + dec_text(n as nat),
        CaptureError::BlockTrailer(a, b) => "pcapng block trailer length mismatch: "@ + dec_text(
            a as nat,
        ) + " vs "@ + dec_text(b as nat),
        CaptureError::ForeignSection =>
            "pcapng section header block with foreign byte order not supported"@,
        CaptureError::ShortInterface => "truncated pcapng IDB body"@,
        CaptureError::ShortEnhanced => "truncated pcapng EPB body"@,
        CaptureError::EnhancedLength(a, b) => "pcapng EPB captured length "@ + dec_text(a as nat)
            + " exceeds body ("@ + (dec_text(b as nat) + " bytes)"@),
        CaptureError::ShortSimple => "truncated pcapng SPB body"@,
    }
}

impl CaptureError {
    /// The message of the error.
    pub fn to_string(&self) -> (r: String)
        ensures
            r@ == error_text(*self),
    {
        match *self {
            CaptureError::Incomplete => String::from_str("more input is needed"),
            CaptureError::Truncated(p) => String::from_str(part_name(p)),
            CaptureError::UnknownMagic(m) => cat3(
                "unrecognised capture-file magic 0x",
                &hexw(m as u64, 8),
                "; supported: pcap, pcapng",
            ),
            CaptureError::NotPcap(m) => cat3(
                "not a classic pcap file (magic = 0x",
                &hexw(m as u64, 8),
                ")",
            ),
            CaptureError::NotPcapNg(m) => cat3(
                "not a pcapng file (magic = 0x",
                &hexw(m as u64, 8),
                ")",
            ),
            CaptureError::RecordLength(n) => cat2(
                "implausible pcap record length: ",
                &dec(n as u64),
            ),
            CaptureError::ByteOrder(m) => cat3(
                "pcapng SHB byte-order magic invalid (got 0x",
                &hexw(m as u64, 8),
                ")",
            ),
            CaptureError::SectionLength(n) => cat2(
                "implausible pcapng SHB total length: ",
                &dec(n as u64),
            ),
            CaptureError::SectionTooShort(n) => cat2(
                "pcapng section header block too short: ",
                &dec(n as u64),
            ),
            CaptureError::SectionTrailer(a, b) => cat4(
                "pcapng SHB trailer length mismatch: ",
                &dec(a as u64),
                " vs ",
                &dec(b as u64),
            ),
            CaptureError::BlockLength(n) => cat2(
                "implausible pcapng block length: ",
                &dec(n as u64),
            ),
            CaptureError::BlockTrailer(a, b) => cat4(
                "pcapng block trailer length mismatch: ",
                &dec(a as u64),
                " vs ",
                &dec(b as u64),
            ),
            CaptureError::ForeignSection => String::from_str(
                "pcapng section header block with foreign byte order not supported",
            ),
            CaptureError::ShortInterface => String::from_str("truncated pcapng IDB body"),
            CaptureError::ShortEnhanced => String::from_str("truncated pcapng EPB body"),
            CaptureError::EnhancedLength(a, b) => cat4(
                "pcapng EPB captured length ",
                &dec(a as u64),
                " exceeds body (",
                &cat2(&dec(b as u64), " bytes)"),
            ),
            CaptureError::ShortSimple => String::from_str("truncated pcapng SPB body"),
        }
    }
}

// ---- input ----

/// Bytes of a capture that have arrived and were not used yet, and whether
/// more can come.
pub struct Input {
    buf: Vec<u8>,
    pos: usize,
    done: bool,
}

impl Input {
    /// The bytes not used yet.
    pub closed spec fn rest(&self) -> Seq<u8> {
        self.buf@.skip(self.pos as int)
    }

    /// Whether the end of the capture has been reached.
    pub closed spec fn ended(&self) -> bool {
        self.done
    }

    /// The read position lies within the buffer.
    #[verifier::type_invariant]
    spec fn position_is_valid(&self) -> bool {
        self.pos <= self.buf@.len()
    }

    /// A whole capture.
    pub fn new(bytes: Vec<u8>) -> (r: Self)
        ensures
            r.rest() == bytes@,
            r.ended(),
    {
        assert(bytes@.skip(0) =~= bytes@);
        Input { buf: bytes, pos: 0, done: true }
    }

    /// The start of a capture of which nothing has arrived.
    pub fn empty() -> (r: Self)
        ensures
            r.rest() == Seq::<u8>::empty(),
            !r.ended(),
    {
        let buf: Vec<u8> = Vec::new();
        assert(buf@.skip(0) =~= Seq::<u8>::empty());
        Input { buf, pos: 0, done: false }
    }

    /// Appends bytes that arrived.
    pub fn feed(&mut self, bytes: &[u8])
        ensures
            final(self).rest() == old(self).rest() + bytes@,
            final(self).ended() == old(self).ended(),
    {
        proof {
            use_type_invariant(&*self);
        }
        let mut buf: Vec<u8> = Vec::new();
        if self.pos == 0 {
            std::mem::swap(&mut buf, &mut self.buf);
        } else {
            buf = slice_to_vec(slice_subrange(self.buf.as_slice(), self.pos, self.buf.len()));
        }
        assert(buf@ =~= old(self).rest());
        buf.extend_from_slice(bytes);
        self.pos = 0;
        self.buf = buf;
        assert(self.rest() =~= old(self).rest() + bytes@);
    }

    /// Marks the end of the capture.
    pub fn finish(&mut self)
        ensures
            final(self).rest() == old(self).rest(),
            final(self).ended(),
    {
        proof {
            use_type_invariant(&*self);
        }
        self.done = true;
    }

    /// Whether the end of the capture has been reached.
    pub fn is_ended(&self) -> (r: bool)
        ensures
            r == self.ended(),
    {
        self.done
    }

    /// The number of bytes not used yet.
    pub(crate) fn available(&self) -> (n: usize)
        ensures
            n == self.rest().len(),
    {
        proof {
            use_type_invariant(self);
        }
        self.buf.len() - self.pos
    }

    /// The bytes not used yet.
    pub(crate) fn pending(&self) -> (r: &[u8])
        ensures
            r@ == self.rest(),
    {
        proof {
            use_type_invariant(self);
        }
        let r = slice_subrange(self.buf.as_slice(), self.pos, self.buf.len());
        assert(r@ =~= self.rest());
        r
    }

    /// Uses up `n` bytes.
    pub(crate) fn advance(&mut self, n: usize)
        requires
            n <= old(self).rest().len(),
        ensures
            final(self).rest() == old(self).rest().skip(n as int),
            final(self).ended() == old(self).ended(),
    {
        proof {
            use_type_invariant(&*self);
        }
        assert(self.pos + n <= self.buf.len());
        self.pos = self.pos + n;
        assert(self.rest() =~= old(self).rest().skip(n as int));
    }

    /// Uses up everything that is left.
    pub(crate) fn drain(&mut self)
        ensures
            final(self).rest() == Seq::<u8>::empty(),
            final(self).ended() == old(self).ended(),
    {
        self.pos = self.buf.len();
        assert(self.rest() =~= Seq::<u8>::empty());
    }

    /// Too few bytes are there for `part`: at the end of the capture it is cut
    /// off there, else more input is needed.
    pub(crate) fn short(&mut self, part: Part) -> (e: CaptureError)
        ensures
            final(self).ended() == old(self).ended(),
            e == short_of(old(self).ended(), part),
            final(self).rest() == left_after_short(old(self).rest(), old(self).ended()),
    {
        if self.done {
            self.drain();
            CaptureError::Truncated(part)
        } else {
            CaptureError::Incomplete
        }
    }
}

/// The error where too few bytes are there for `part`.
pub open spec fn short_of(ended: bool, part: Part) -> CaptureError {
    if ended {
        CaptureError::Truncated(part)
    } else {
        CaptureError::Incomplete
    }
}

/// What is left of the input after such an error: nothing at the end of the
/// capture, else everything.
pub open spec fn left_after_short(rest: Seq<u8>, ended: bool) -> Seq<u8> {
    if ended {
        Seq::empty()
    } else {
        rest
    }
}

// ---- integers in the byte order of the file ----

/// The 32-bit number at `i`, big-endian if `swap`.
pub open spec fn u32_at(s: Seq<u8>, i: int, swap: bool) -> u32 {
    (if swap {
        be32(s, i)
    } else {
        le32(s, i)
    }) as u32
}

/// The 16-bit number at `i`, big-endian if `swap`.
pub open spec fn u16_at(s: Seq<u8>, i: int, swap: bool) -> u16 {
    (if swap {
        be16(s, i)
    } else {
        le16(s, i)
    }) as u16
}

pub(crate) fn read_u32(s: &[u8], i: usize, swap: bool) -> (r: u32)
    requires
        i + 4 <= s.len(),
    ensures
        r == u32_at(s@, i as int, swap),
{
    if swap {
        get_be32(s, i)
    } else {
        get_le32(s, i)
    }
}

pub(crate) fn read_u16(s: &[u8], i: usize, swap: bool) -> (r: u16)
    requires
        i + 2 <= s.len(),
    ensures
        r == u16_at(s@, i as int, swap),
{
    if swap {
        get_be16(s, i)
    } else {
        get_le16(s, i)
    }
}

// ---- classic pcap ----

/// Decoder of classic pcap records.
#[derive(Debug, Clone, Copy)]
pub struct PcapReader {
    pub(crate) swap: bool,
    pub(crate) ns_precision: bool,
    pub(crate) link_type: LinkType,
}

impl PcapReader {
    /// Whether the file is big-endian.
    pub closed spec fn big_endian(&self) -> bool {
        self.swap
    }

    /// Whether timestamps are in nanoseconds rather than microseconds.
    pub closed spec fn nanoseconds(&self) -> bool {
        self.ns_precision
    }

    /// The link type of the file.
    pub closed spec fn link(&self) -> LinkType {
        self.link_type
    }
}

/// What the global header of a pcap file fixes.
pub ghost struct PcapFile {
    pub swap: bool,
    pub ns: bool,
    pub link: LinkType,
}

impl View for PcapReader {
    type V = PcapFile;

    open spec fn view(&self) -> PcapFile {
        PcapFile { swap: self.big_endian(), ns: self.nanoseconds(), link: self.link() }
    }
}

/// Whether a magic number is one of classic pcap's.
pub open spec fn is_pcap_magic(m: u32) -> bool {
    m == PCAP_MAGIC_US || m == PCAP_MAGIC_NS || m == PCAP_MAGIC_US_SWAP || m == PCAP_MAGIC_NS_SWAP
}

/// What comes of opening a pcap file: the file or the error, and the input
/// that is left.
pub ghost struct PcapOpened {
    pub out: Result<PcapFile, CaptureError>,
    pub rest: Seq<u8>,
}

/// Opening a pcap file whose magic number was `magic`, at the rest of the
/// global header: 20 bytes, the last four of which give the link type.
pub open spec fn pcap_open_after(magic: u32, rest: Seq<u8>, ended: bool) -> PcapOpened {
    let swap = magic == PCAP_MAGIC_US_SWAP || magic == PCAP_MAGIC_NS_SWAP;
    let ns = magic == PCAP_MAGIC_NS || magic == PCAP_MAGIC_NS_SWAP;
    if !is_pcap_magic(magic) {
        PcapOpened { out: Err(CaptureError::NotPcap(magic)), rest }
    } else if rest.len() < 20 {
        PcapOpened {
            out: Err(short_of(ended, Part::PcapHeader)),
            rest: left_after_short(rest, ended),
        }
    } else {
        PcapOpened {
            out: Ok(PcapFile { swap, ns, link: link_of(u32_at(rest, 16, swap)) }),
            rest: rest.skip(20),
        }
    }
}

/// Opening a pcap file at its first byte.
pub open spec fn pcap_open(rest: Seq<u8>, ended: bool) -> PcapOpened {
    if rest.len() < 4 {
        PcapOpened {
            out: Err(short_of(ended, Part::PcapMagic)),
            rest: left_after_short(rest, ended),
        }
    } else {
        let after = pcap_open_after(le32(rest, 0) as u32, rest.skip(4), ended);
        if after.out == Err::<PcapFile, CaptureError>(CaptureError::Incomplete) {
            PcapOpened { out: after.out, rest }
        } else {
            after
        }
    }
}

/// What comes of asking for a packet: the packet, the end of the file or an
/// error, and the input that is left.
pub ghost struct PcapStep {
    pub out: Result<Option<PacketView>, CaptureError>,
    pub rest: Seq<u8>,
}

/// A timestamp fraction in nanoseconds.
pub open spec fn nanos(sub: u32, ns: bool) -> u32 {
    if ns {
        sub
    } else if sub * 1000 > u32::MAX {
        u32::MAX
    } else {
        (sub * 1000) as u32
    }
}

/// The next record of a pcap file: a 16-byte header (seconds, fraction,
/// captured length, original length), then the captured bytes.
pub open spec fn pcap_next(f: PcapFile, rest: Seq<u8>, ended: bool) -> PcapStep {
    let incl_len = u32_at(rest, 8, f.swap);
    if rest.len() < 16 {
        if ended {
            PcapStep { out: Ok(None), rest: Seq::empty() }
        } else {
            PcapStep { out: Err(CaptureError::Incomplete), rest }
        }
    } else if incl_len > MAX_RECORD_LEN {
        PcapStep { out: Err(CaptureError::RecordLength(incl_len)), rest: rest.skip(16) }
    } else if rest.len() - 16 < incl_len {
        PcapStep {
            out: Err(short_of(ended, Part::PcapPayload)),
            rest: left_after_short(rest, ended),
        }
    } else {
        PcapStep {
            out: Ok(
                Some(
                    PacketView {
                        ts_sec: u32_at(rest, 0, f.swap),
                        ts_nsec: nanos(u32_at(rest, 4, f.swap), f.ns),
                        orig_len: u32_at(rest, 12, f.swap),
                        link_type: f.link,
                        data: rest.subrange(16, 16 + incl_len),
                    },
                ),
            ),
            rest: rest.skip(16 + incl_len),
        }
    }
}

/// The view of what `next_packet` returns.
pub open spec fn packet_view(r: Result<Option<RawPacket>, CaptureError>) -> Result<
    Option<PacketView>,
    CaptureError,
> {
    match r {
        Ok(Some(p)) => Ok(Some(p@)),
        Ok(None) => Ok(None),
        Err(e) => Err(e),
    }
}

/// The view of what opening a pcap file returns.
pub open spec fn pcap_view(r: Result<PcapReader, CaptureError>) -> Result<PcapFile, CaptureError> {
    match r {
        Ok(p) => Ok(p@),
        Err(e) => Err(e),
    }
}

impl PcapReader {
    /// Reads the global header of a pcap file.
    pub fn new(input: &mut Input) -> (r: Result<PcapReader, CaptureError>)
        ensures
            final(input).ended() == old(input).ended(),
            pcap_view(r) == pcap_open(old(input).rest(), old(input).ended()).out,
            final(input).rest() == pcap_open(old(input).rest(), old(input).ended()).rest,
    {
        if input.available() < 4 {
            return Err(input.short(Part::PcapMagic));
        }
        let magic = get_le32(input.pending(), 0);
        if is_known(magic) && input.available() < 24 && !input.is_ended() {
            return Err(CaptureError::Incomplete);
        }
        input.advance(4);
        PcapReader::from_magic(magic, input)
    }

    /// Reads on in a global header whose first four bytes were `magic`.
    pub(crate) fn from_magic(magic: u32, input: &mut Input) -> (r: Result<
        PcapReader,
        CaptureError,
    >)
        ensures
            final(input).ended() == old(input).ended(),
            pcap_view(r) == pcap_open_after(magic, old(input).rest(), old(input).ended()).out,
            final(input).rest() == pcap_open_after(
                magic,
                old(input).rest(),
                old(input).ended(),
            ).rest,
    {
        let (swap, ns_precision) = match magic {
            PCAP_MAGIC_US => (false, false),
            PCAP_MAGIC_NS => (false, true),
            PCAP_MAGIC_US_SWAP => (true, false),
            PCAP_MAGIC_NS_SWAP => (true, true),
            other => return Err(CaptureError::NotPcap(other)),
        };
        if input.available() < 20 {
            return Err(input.short(Part::PcapHeader));
        }
        let link = read_u32(input.pending(), 16, swap);
        input.advance(20);
        Ok(PcapReader { swap, ns_precision, link_type: LinkType::from_u32(link) })
    }

    /// The link type of the file.
    pub fn link_type(&self) -> (r: LinkType)
        ensures
            r == self@.link,
    {
        self.link_type
    }

    /// The next record, or `Ok(None)` at the end of the file.
    pub fn next_packet(&self, input: &mut Input) -> (r: Result<Option<RawPacket>, CaptureError>)
        ensures
            final(input).ended() == old(input).ended(),
            packet_view(r) == pcap_next(self@, old(input).rest(), old(input).ended()).out,
            final(input).rest() == pcap_next(self@, old(input).rest(), old(input).ended()).rest,
    {
        let avail = input.available();
        if avail < 16 {
            return if input.is_ended() {
                input.drain();
                Ok(None)
            } else {
                Err(CaptureError::Incomplete)
            };
        }
        let rec = input.pending();
        let ts_sec = read_u32(rec, 0, self.swap);
        let ts_sub = read_u32(rec, 4, self.swap);
        let incl_len = read_u32(rec, 8, self.swap);
        let orig_len = read_u32(rec, 12, self.swap);
        if incl_len > MAX_RECORD_LEN {
            input.advance(16);
            return Err(CaptureError::RecordLength(incl_len));
        }
        let len: usize = incl_len as usize;
        if avail - 16 < len {
            return Err(input.short(Part::PcapPayload));
        }
        let data = slice_to_vec(slice_subrange(input.pending(), 16, 16 + len));
        input.advance(16 + len);
        let ts_nsec: u32 = if self.ns_precision {
            ts_sub
        } else if ts_sub > 4_294_967 {
            u32::MAX
        } else {
            ts_sub * 1000
        };
        Ok(Some(RawPacket { ts_sec, ts_nsec, orig_len, link_type: self.link_type, data }))
    }
}

fn is_known(magic: u32) -> (r: bool)
    ensures
        r == is_pcap_magic(magic),
{
    magic == PCAP_MAGIC_US || magic == PCAP_MAGIC_NS || magic == PCAP_MAGIC_US_SWAP || magic
        == PCAP_MAGIC_NS_SWAP
}

// ---- either format ----

/// A capture being read, of either format.
pub enum CaptureReader {
    Classic(PcapReader),
    PcapNg(PcapNgReader),
}

/// The state of a capture of either format.
pub ghost enum CaptureFile {
    Classic(PcapFile),
    PcapNg(NgFile),
}

impl View for CaptureReader {
    type V = CaptureFile;

    open spec fn view(&self) -> CaptureFile {
        match self {
            CaptureReader::Classic(r) => CaptureFile::Classic(r@),
            CaptureReader::PcapNg(r) => CaptureFile::PcapNg(r@),
        }
    }
}

/// What comes of opening a capture.
pub ghost struct CaptureOpened {
    pub out: Result<CaptureFile, CaptureError>,
    pub rest: Seq<u8>,
}

/// Opening a capture: the first four bytes decide the format.
pub open spec fn capture_open(rest: Seq<u8>, ended: bool) -> CaptureOpened {
    let magic = le32(rest, 0) as u32;
    if rest.len() < 4 {
        CaptureOpened {
            out: Err(short_of(ended, Part::CaptureMagic)),
            rest: left_after_short(rest, ended),
        }
    } else if is_pcap_magic(magic) {
        CaptureOpened {
            out: match pcap_open(rest, ended).out {
                Ok(f) => Ok(CaptureFile::Classic(f)),
                Err(e) => Err(e),
            },
            rest: pcap_open(rest, ended).rest,
        }
    } else if magic == PCAPNG_MAGIC_SHB {
        CaptureOpened {
            out: match ng_open(rest, ended).out {
                Ok(f) => Ok(CaptureFile::PcapNg(f)),
                Err(e) => Err(e),
            },
            rest: ng_open(rest, ended).rest,
        }
    } else {
        CaptureOpened { out: Err(CaptureError::UnknownMagic(magic)), rest: rest.skip(4) }
    }
}

/// What comes of asking a capture for a packet.
pub ghost struct CaptureStep {
    pub out: Result<Option<PacketView>, CaptureError>,
    pub file: CaptureFile,
    pub rest: Seq<u8>,
}

/// The next packet of a capture.
pub open spec fn capture_next(f: CaptureFile, rest: Seq<u8>, ended: bool) -> CaptureStep {
    match f {
        CaptureFile::Classic(p) => CaptureStep {
            out: pcap_next(p, rest, ended).out,
            file: f,
            rest: pcap_next(p, rest, ended).rest,
        },
        CaptureFile::PcapNg(n) => CaptureStep {
            out: ng_next(n, rest, ended).out,
            file: CaptureFile::PcapNg(ng_next(n, rest, ended).file),
            rest: ng_next(n, rest, ended).rest,
        },
    }
}

/// The view of what opening a capture returns.
pub open spec fn capture_view(r: Result<CaptureReader, CaptureError>) -> Result<
    CaptureFile,
    CaptureError,
> {
    match r {
        Ok(c) => Ok(c@),
        Err(e) => Err(e),
    }
}

impl CaptureReader {
    /// Opens a capture of either format.
    pub fn new(input: &mut Input) -> (r: Result<CaptureReader, CaptureError>)
        ensures
            final(input).ended() == old(input).ended(),
            capture_view(r) == capture_open(old(input).rest(), old(input).ended()).out,
            final(input).rest() == capture_open(old(input).rest(), old(input).ended()).rest,
    {
        if input.available() < 4 {
            return Err(input.short(Part::CaptureMagic));
        }
        let magic = get_le32(input.pending(), 0);
        if is_known(magic) {
            match PcapReader::new(input) {
                Ok(r) => Ok(CaptureReader::Classic(r)),
                Err(e) => Err(e),
            }
        } else if magic == PCAPNG_MAGIC_SHB {
            match PcapNgReader::from_magic(input) {
                Ok(r) => Ok(CaptureReader::PcapNg(r)),
                Err(e) => Err(e),
            }
        } else {
            input.advance(4);
            Err(CaptureError::UnknownMagic(magic))
        }
    }

    /// The next packet, or `Ok(None)` at the end of the file.
    pub fn next_packet(&mut self, input: &mut Input) -> (r: Result<
        Option<RawPacket>,
        CaptureError,
    >)
        ensures
            final(input).ended() == old(input).ended(),
            packet_view(r) == capture_next(old(self)@, old(input).rest(), old(input).ended()).out,
            final(self)@ == capture_next(old(self)@, old(input).rest(), old(input).ended()).file,
            final(input).rest() == capture_next(
                old(self)@,
                old(input).rest(),
                old(input).ended(),
            ).rest,
    {
        match self {
            CaptureReader::Classic(r) => r.next_packet(input),
            CaptureReader::PcapNg(r) => r.next_packet(input),
        }
    }
}

// ---- laws ----

/// The numbers of the link types that are known; any other number is kept.
pub proof fn law_link_types_are_numbered(v: u32)
    ensures
        link_of(v) == LinkType::Null <==> v == 0,
        link_of(v) == LinkType::Ethernet <==> v == 1,
        link_of(v) == LinkType::RawIp <==> v == 101,
        link_of(v) == LinkType::LinuxSll <==> v == 113,
        link_of(v) == LinkType::Infiniband <==> v == 247,
        v != 0 && v != 1 && v != 101 && v != 113 && v != 247 ==> link_of(v) == LinkType::Other(v),
{
}

/// A number in a big-endian file has its high byte first, one in a
/// little-endian file its low byte.
pub proof fn law_byte_orders_are_mirrored(s: Seq<u8>, i: int)
    ensures
        u32_at(s, i, true) == s[i] * 0x100_0000 + s[i + 1] * 0x1_0000 + s[i + 2] * 0x100 + s[i + 3],
        u32_at(s, i, false) == s[i] + s[i + 1] * 0x100 + s[i + 2] * 0x1_0000 + s[i + 3]
            * 0x100_0000,
        u16_at(s, i, true) == s[i] * 0x100 + s[i + 1],
        u16_at(s, i, false) == s[i] + s[i + 1] * 0x100,
{
}

/// Microseconds become nanoseconds, a thousand for each; nanoseconds stay. A
/// fraction too large for that is held at the largest number.
pub proof fn law_fractions_become_nanoseconds(sub: u32)
    ensures
        nanos(sub, true) == sub,
        sub < 1_000_000 ==> nanos(sub, false) == 1000 * sub && nanos(sub, false) < 1_000_000_000,
        1000 * sub <= u32::MAX ==> nanos(sub, false) == 1000 * sub,
        1000 * sub > u32::MAX ==> nanos(sub, false) == u32::MAX,
{
}

/// The magic number of a pcap file, as its first four bytes stand in the file,
/// fixes the byte order and the unit of time; no other bytes are taken.
pub proof fn law_magic_fixes_order_and_unit(s: Seq<u8>)
    requires
        s.len() >= 24,
    ensures
        ({
            let out = pcap_open(s, true).out;
            let head = s.take(4);
            let big_us = head == seq![0xa1u8, 0xb2u8, 0xc3u8, 0xd4u8];
            let big_ns = head == seq![0xa1u8, 0xb2u8, 0x3cu8, 0x4du8];
            let little_us = head == seq![0xd4u8, 0xc3u8, 0xb2u8, 0xa1u8];
            let little_ns = head == seq![0x4du8, 0x3cu8, 0xb2u8, 0xa1u8];
            &&& big_us ==> out == Ok::<PcapFile, CaptureError>(
                PcapFile { swap: true, ns: false, link: link_of(u32_at(s, 20, true)) },
            )
            &&& big_ns ==> out == Ok::<PcapFile, CaptureError>(
                PcapFile { swap: true, ns: true, link: link_of(u32_at(s, 20, true)) },
            )
            &&& little_us ==> out == Ok::<PcapFile, CaptureError>(
                PcapFile { swap: false, ns: false, link: link_of(u32_at(s, 20, false)) },
            )
            &&& little_ns ==> out == Ok::<PcapFile, CaptureError>(
                PcapFile { swap: false, ns: true, link: link_of(u32_at(s, 20, false)) },
            )
            &&& !big_us && !big_ns && !little_us && !little_ns ==> out == Err::<
                PcapFile,
                CaptureError,
            >(CaptureError::NotPcap(u32_at(s, 0, false)))
            &&& out is Ok ==> pcap_open(s, true).rest == s.skip(24)
        }),
{
    let head = s.take(4);
    let magic = le32(s, 0) as u32;
    assert(head.len() == 4);
    assert(head[0] == s[0] && head[1] == s[1] && head[2] == s[2] && head[3] == s[3]);
    let big_us = seq![0xa1u8, 0xb2u8, 0xc3u8, 0xd4u8];
    let big_ns = seq![0xa1u8, 0xb2u8, 0x3cu8, 0x4du8];
    let little_us = seq![0xd4u8, 0xc3u8, 0xb2u8, 0xa1u8];
    let little_ns = seq![0x4du8, 0x3cu8, 0xb2u8, 0xa1u8];
    if magic == 0xd4c3_b2a1 {
        assert(head =~= big_us);
    }
    if magic == 0x4d3c_b2a1 {
        assert(head =~= big_ns);
    }
    if magic == 0xa1b2_c3d4 {
        assert(head =~= little_us);
    }
    if magic == 0xa1b2_3c4d {
        assert(head =~= little_ns);
    }
    assert(u32_at(s.skip(4), 16, true) == u32_at(s, 20, true));
    assert(u32_at(s.skip(4), 16, false) == u32_at(s, 20, false));
    assert(s.skip(4).skip(20) =~= s.skip(24));
}

/// A capture of which no format is known is refused with its first four bytes,
/// one that is shorter as truncated, one that ends in its header likewise.
pub proof fn law_unknown_captures_are_refused(s: Seq<u8>)
    ensures
        s.len() < 4 ==> capture_open(s, true).out == Err::<CaptureFile, CaptureError>(
            CaptureError::Truncated(Part::CaptureMagic),
        ),
        s.len() < 4 ==> pcap_open(s, true).out == Err::<PcapFile, CaptureError>(
            CaptureError::Truncated(Part::PcapMagic),
        ),
        s.len() < 4 ==> capture_open(s, false).out == Err::<CaptureFile, CaptureError>(
            CaptureError::Incomplete,
        ),
        4 <= s.len() < 24 && s.take(4) == seq![0xd4u8, 0xc3u8, 0xb2u8, 0xa1u8] ==> {
            &&& capture_open(s, true).out == Err::<CaptureFile, CaptureError>(
                CaptureError::Truncated(Part::PcapHeader),
            )
            &&& capture_open(s, false).out == Err::<CaptureFile, CaptureError>(
                CaptureError::Incomplete,
            )
        },
        s.len() >= 4 && !(s[0] == 0x0a && s[1] == 0x0d && s[2] == 0x0d && s[3] == 0x0a)
            && pcap_open(s, true).out == Err::<PcapFile, CaptureError>(
            CaptureError::NotPcap(u32_at(s, 0, false)),
        ) ==> capture_open(s, true).out == Err::<CaptureFile, CaptureError>(
            CaptureError::UnknownMagic(u32_at(s, 0, false)),
        ),
{
    if s.len() >= 4 {
        let head = s.take(4);
        assert(head[0] == s[0] && head[1] == s[1] && head[2] == s[2] && head[3] == s[3]);
        if head == seq![0xd4u8, 0xc3u8, 0xb2u8, 0xa1u8] {
            assert(le32(s, 0) == 0xa1b2_c3d4);
        }
        if le32(s, 0) == 0x0a0d_0d0a {
            assert(s[0] == 0x0a && s[1] == 0x0d && s[2] == 0x0d && s[3] == 0x0a);
        }
    }
}

/// A record claims an absurd length exactly if it claims more than 0x10000000
/// bytes; one that is longer than what is left is truncated, and a file may
/// end anywhere in a record header.
pub proof fn law_bad_records_are_told(f: PcapFile, s: Seq<u8>)
    ensures
        s.len() < 16 ==> pcap_next(f, s, true).out == Ok::<Option<PacketView>, CaptureError>(
            None,
        ),
        s.len() < 16 ==> pcap_next(f, s, false).out == Err::<Option<PacketView>, CaptureError>(
            CaptureError::Incomplete,
        ),
        s.len() >= 16 ==> ({
            let n = u32_at(s, 8, f.swap);
            let out = pcap_next(f, s, true).out;
            &&& n > 0x1000_0000 ==> out == Err::<Option<PacketView>, CaptureError>(
                CaptureError::RecordLength(n),
            )
            &&& n <= 0x1000_0000 && s.len() < 16 + n ==> {
                &&& out == Err::<Option<PacketView>, CaptureError>(
                    CaptureError::Truncated(Part::PcapPayload),
                )
                &&& pcap_next(f, s, false).out == Err::<Option<PacketView>, CaptureError>(
                    CaptureError::Incomplete,
                )
            }
            &&& n <= 0x1000_0000 && s.len() >= 16 + n ==> out is Ok && out->Ok_0 is Some
        }),
{
}

/// What each error says.
pub proof fn law_errors_say_what_is_wrong(a: u32, b: u32)
    ensures
        error_text(CaptureError::Incomplete) == "more input is needed"@,
        error_text(CaptureError::UnknownMagic(a)) == "unrecognised capture-file magic 0x"@
            + hex_fixed(a as nat, 8) + "; supported: pcap, pcapng"@,
        error_text(CaptureError::NotPcap(a)) == "not a classic pcap file (magic = 0x"@ + hex_fixed(
            a as nat,
            8,
        ) + ")"@,
        error_text(CaptureError::NotPcapNg(a)) == "not a pcapng file (magic = 0x"@ + hex_fixed(
            a as nat,
            8,
        ) + ")"@,
        error_text(CaptureError::RecordLength(a)) == "implausible pcap record length: "@
            + dec_text(a as nat),
        error_text(CaptureError::ByteOrder(a)) == "pcapng SHB byte-order magic invalid (got 0x"@
            + hex_fixed(a as nat, 8) + ")"@,
        error_text(CaptureError::SectionLength(a)) == "implausible pcapng SHB total length: "@
            + dec_text(a as nat),
        error_text(CaptureError::SectionTooShort(a))
            == "pcapng section header block too short: "@ + dec_text(a as nat),
        error_text(CaptureError::SectionTrailer(a, b))
            == "pcapng SHB trailer length mismatch: "@ + dec_text(a as nat) + " vs "@ + dec_text(
            b as nat,
        ),
        error_text(CaptureError::BlockLength(a)) == "implausible pcapng block length: "@
            + dec_text(a as nat),
        error_text(CaptureError::BlockTrailer(a, b))
            == "pcapng block trailer length mismatch: "@ + dec_text(a as nat) + " vs "@ + dec_text(
            b as nat,
        ),
        error_text(CaptureError::ForeignSection)
            == "pcapng section header block with foreign byte order not supported"@,
        error_text(CaptureError::ShortInterface) == "truncated pcapng IDB body"@,
        error_text(CaptureError::ShortEnhanced) == "truncated pcapng EPB body"@,
        error_text(CaptureError::EnhancedLength(a, b)) == "pcapng EPB captured length "@ + dec_text(
            a as nat,
        ) + " exceeds body ("@ + (dec_text(b as nat) + " bytes)"@),
        error_text(CaptureError::ShortSimple) == "truncated pcapng SPB body"@,
        error_text(CaptureError::Truncated(Part::CaptureMagic)) == "reading capture-file magic"@,
        error_text(CaptureError::Truncated(Part::PcapMagic)) == "reading pcap magic"@,
        error_text(CaptureError::Truncated(Part::PcapHeader)) == "reading pcap global header"@,
        error_text(CaptureError::Truncated(Part::PcapPayload)) == "reading pcap record payload"@,
        error_text(CaptureError::Truncated(Part::PcapNgMagic)) == "reading pcapng magic"@,
        error_text(CaptureError::Truncated(Part::SectionPrefix)) == "reading pcapng SHB prefix"@,
        error_text(CaptureError::Truncated(Part::SectionBody)) == "reading pcapng SHB body"@,
        error_text(CaptureError::Truncated(Part::BlockBody)) == "reading pcapng block body"@,
        error_text(CaptureError::Truncated(Part::BlockTrailer))
            == "reading pcapng block trailer"@,
{
}

/// After a refused record the input behind its header is left, after a
/// truncated one nothing is; with more to come nothing is lost.
pub proof fn law_what_is_left_of_bad_records(f: PcapFile, s: Seq<u8>)
    ensures
        pcap_next(f, s, true).out matches Err(CaptureError::RecordLength(_)) ==> pcap_next(
            f,
            s,
            true,
        ).rest == s.skip(16),
        pcap_next(f, s, true).out matches Err(CaptureError::Truncated(_)) ==> pcap_next(
            f,
            s,
            true,
        ).rest.len() == 0,
        pcap_next(f, s, true).out matches Ok(None) ==> pcap_next(f, s, true).rest.len() == 0,
        pcap_next(f, s, false).out matches Err(CaptureError::Incomplete) ==> pcap_next(
            f,
            s,
            false,
        ).rest == s,
        capture_open(s, false).out matches Err(CaptureError::Incomplete) ==> capture_open(
            s,
            false,
        ).rest == s,
        capture_open(s, true).out matches Err(CaptureError::UnknownMagic(_)) ==> capture_open(
            s,
            true,
        ).rest == s.skip(4),
{
}

} // verus!
