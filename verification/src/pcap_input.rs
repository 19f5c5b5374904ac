//! Captured frames: from the bytes of a capture format's packets to TCP segments and timestamps.

use etherparse::{LaxNetSlice, LaxSlicedPacket, TcpSlice, TransportSlice};
use std::ops::Range;
use vstd::prelude::*;
use vstd::slice::slice_subrange;
use vstd::string::*;
use crate::bytes::{be_number, lemma_be_number_2, lemma_be_number_4};
use crate::net::IpAddr;
use crate::time::{Duration, NANOS_PER_SEC};

verus! {

/// The flags of a TCP segment.
#[derive(Clone, Copy, Debug, PartialEq, Eq, Structural)]
pub struct TcpFlags {
    pub syn: bool,
    pub fin: bool,
    pub rst: bool,
    pub ack: bool,
    pub psh: bool,
}

impl Default for TcpFlags {
    fn default() -> (flags: TcpFlags)
        ensures
            flags == (TcpFlags { syn: false, fin: false, rst: false, ack: false, psh: false }),
    {
        TcpFlags { syn: false, fin: false, rst: false, ack: false, psh: false }
    }
}

/// One captured TCP segment: which connection it belongs to, its numbers and flags, and where its
/// payload stands in the packet.
#[derive(Debug, PartialEq, Eq)]
pub struct TcpFrame {
    pub src_ip: IpAddr,
    pub dst_ip: IpAddr,
    pub src_port: u16,
    pub dst_port: u16,
    pub seq: u32,
    pub ack_number: u32,
    pub flags: TcpFlags,
    pub payload_range: Range<usize>,
}

/// Why a frame gave no TCP segment.
#[derive(Clone, Copy, Debug, PartialEq, Eq, Structural)]
pub enum ParseError {
    NotTcp,
}

impl ParseError {
    pub fn message(&self) -> (text: &'static str)
        ensures
            text@ == "not a TCP/IP frame (or truncated below a full IP+TCP header)"@,
    {
        "not a TCP/IP frame (or truncated below a full IP+TCP header)"
    }
}

/// The link layer of a capture, as far as frames can be read here.
#[allow(non_camel_case_types)]
#[derive(Clone, Copy, Debug, PartialEq, Eq, Structural)]
pub enum DataLink {
    /// BSD loopback.
    NULL,
    ETHERNET,
    /// Bare IP.
    RAW,
    /// OpenBSD loopback.
    LOOP,
    /// Linux cooked capture, version 1.
    LINUX_SLL,
    /// Linux cooked capture, version 2.
    LINUX_SLL2,
    /// Any other link type, by its number.
    Unknown(u32),
}

/// The length of the Linux cooked-capture header, version 1: packet type, device type, address
/// length, address and protocol.
pub const LINUX_SLL_HEADER_LEN: usize = 16;

/// The length of the Linux cooked-capture header, version 2.
pub const LINUX_SLL2_HEADER_LEN: usize = 20;

/// The length of the address family in front of a loopback packet.
pub const NULL_LOOP_HEADER_LEN: usize = 4;

/// What slicing a packet found: the addresses of an IP header, and where a TCP segment begins and
/// how long it is, header included.
#[derive(Clone, Copy, Debug, PartialEq, Eq)]
pub struct Layers {
    pub addresses: Option<(IpAddr, IpAddr)>,
    pub segment: Option<(usize, usize)>,
}

impl Layers {
    /// The segment lies within a packet of `len` bytes.
    pub open spec fn within(self, len: nat) -> bool {
        self.segment matches Some((start, n)) ==> start + n <= len
    }
}

/// What an Ethernet frame slices into; `None` where it has no Ethernet header.
pub uninterp spec fn ethernet_layers(frame: Seq<u8>) -> Option<Layers>;

/// What an IP packet slices into; `None` where it has no IP header.
pub uninterp spec fn ip_layers(packet: Seq<u8>) -> Option<Layers>;

/// Calls `etherparse::LaxSlicedPacket::from_ethernet` and reads off the IPv4 or IPv6 addresses and
/// the place of a TCP segment, as far as there are any. The segment comes back as a part of `data`;
/// its place is how far its address lies behind that of `data`. The result depends on the bytes
/// alone, and the segment lies within them.
#[verifier::external_body]
fn slice_ethernet(data: &[u8]) -> (layers: Option<Layers>)
    ensures
        layers == ethernet_layers(data@),
        layers matches Some(found) ==> found.within(data@.len()),
{
    let sliced = LaxSlicedPacket::from_ethernet(data).ok()?;
    Some(Layers {
        addresses: match sliced.net {
            Some(LaxNetSlice::Ipv4(ip)) => Some((IpAddr::V4(ip.header().source_addr().into()), IpAddr::V4(ip.header().destination_addr().into()))),
            Some(LaxNetSlice::Ipv6(ip)) => Some((IpAddr::V6(ip.header().source_addr().into()), IpAddr::V6(ip.header().destination_addr().into()))),
            _ => None,
        },
        segment: match sliced.transport {
            Some(TransportSlice::Tcp(tcp)) => Some((tcp.slice().as_ptr() as usize - data.as_ptr() as usize, tcp.slice().len())),
            _ => None,
        },
    })
}

/// Calls `etherparse::LaxSlicedPacket::from_ip` and reads off the IPv4 or IPv6 addresses and the
/// place of a TCP segment, as far as there are any. The segment comes back as a part of `data`; its
/// place is how far its address lies behind that of `data`. The result depends on the bytes alone,
/// and the segment lies within them.
#[verifier::external_body]
fn slice_ip(data: &[u8]) -> (layers: Option<Layers>)
    ensures
        layers == ip_layers(data@),
        layers matches Some(found) ==> found.within(data@.len()),
{
    let sliced = LaxSlicedPacket::from_ip(data).ok()?;
    Some(Layers {
        addresses: match sliced.net {
            Some(LaxNetSlice::Ipv4(ip)) => Some((IpAddr::V4(ip.header().source_addr().into()), IpAddr::V4(ip.header().destination_addr().into()))),
            Some(LaxNetSlice::Ipv6(ip)) => Some((IpAddr::V6(ip.header().source_addr().into()), IpAddr::V6(ip.header().destination_addr().into()))),
            _ => None,
        },
        segment: match sliced.transport {
            Some(TransportSlice::Tcp(tcp)) => Some((tcp.slice().as_ptr() as usize - data.as_ptr() as usize, tcp.slice().len())),
            _ => None,
        },
    })
}

/// The number that two bytes spell, the high one first.
pub open spec fn be16(s: Seq<u8>, at: int) -> int {
    s[at] * 0x100 + s[at + 1]
}

/// The number that four bytes spell, the high one first.
pub open spec fn be32(s: Seq<u8>, at: int) -> int {
    s[at] * 0x100_0000 + s[at + 1] * 0x1_0000 + s[at + 2] * 0x100 + s[at + 3]
}

/// The header fields of a TCP segment.
pub struct TcpHeader {
    pub src_port: u16,
    pub dst_port: u16,
    pub seq: u32,
    pub ack_number: u32,
    pub flags: TcpFlags,
    pub header_len: usize,
}

/// The header length that a TCP segment gives, in bytes.
pub open spec fn tcp_header_len(segment: Seq<u8>) -> int {
    segment[12] / 16 * 4
}

/// The segment is long enough for a TCP header and for the header length that it gives.
pub open spec fn has_tcp_header(segment: Seq<u8>) -> bool {
    segment.len() >= 20 && 20 <= tcp_header_len(segment) <= segment.len()
}

/// The header fields that the bytes of a TCP segment spell.
pub open spec fn tcp_header_of(segment: Seq<u8>) -> TcpHeader {
    TcpHeader {
        src_port: be16(segment, 0) as u16,
        dst_port: be16(segment, 2) as u16,
        seq: be32(segment, 4) as u32,
        ack_number: be32(segment, 8) as u32,
        flags: TcpFlags {
            syn: segment[13] / 2 % 2 == 1,
            fin: segment[13] % 2 == 1,
            rst: segment[13] / 4 % 2 == 1,
            ack: segment[13] / 16 % 2 == 1,
            psh: segment[13] / 8 % 2 == 1,
        },
        header_len: tcp_header_len(segment) as usize,
    }
}

/// Calls `etherparse::TcpSlice::from_slice` and reads off the header fields. It fails exactly where
/// the segment cannot hold the header that it announces; otherwise each field is what its bytes
/// spell.
#[verifier::external_body]
fn slice_tcp(segment: &[u8]) -> (header: Option<TcpHeader>)
    ensures
        match header {
            Some(header) => has_tcp_header(segment@) && header == tcp_header_of(segment@),
            None => !has_tcp_header(segment@),
        },
{
    let tcp = TcpSlice::from_slice(segment).ok()?;
    Some(
        TcpHeader {
            src_port: tcp.source_port(),
            dst_port: tcp.destination_port(),
            seq: tcp.sequence_number(),
            ack_number: tcp.acknowledgment_number(),
            flags: TcpFlags { syn: tcp.syn(), fin: tcp.fin(), rst: tcp.rst(), ack: tcp.ack(), psh: tcp.psh() },
            header_len: tcp.header_len(),
        },
    )
}

/// The frame that a packet's layers give, where slicing began at `base`; `None` where it holds no
/// whole TCP/IP segment.
pub open spec fn layered_frame(layers: Layers, base: int, data: Seq<u8>) -> Option<TcpFrame> {
    match (layers.addresses, layers.segment) {
        (Some((src_ip, dst_ip)), Some((start, len))) => {
            let segment = data.subrange(base + start, base + start + len);
            if base + start + len <= data.len() && has_tcp_header(segment) {
                let header = tcp_header_of(segment);
                Some(
                    TcpFrame {
                        src_ip,
                        dst_ip,
                        src_port: header.src_port,
                        dst_port: header.dst_port,
                        seq: header.seq,
                        ack_number: header.ack_number,
                        flags: header.flags,
                        payload_range: (Range {
                            start: (base + start + header.header_len) as usize,
                            end: (base + start + len) as usize,
                        }),
                    },
                )
            } else {
                None
            }
        },
        _ => None,
    }
}

/// How many bytes stand in front of the IP packet on a link that carries bare IP behind a header
/// of fixed length.
pub open spec fn fixed_header_len(link_type: DataLink) -> Option<nat> {
    match link_type {
        DataLink::LINUX_SLL => Some(LINUX_SLL_HEADER_LEN as nat),
        DataLink::LINUX_SLL2 => Some(LINUX_SLL2_HEADER_LEN as nat),
        DataLink::RAW => Some(0),
        DataLink::NULL | DataLink::LOOP => Some(NULL_LOOP_HEADER_LEN as nat),
        DataLink::ETHERNET | DataLink::Unknown(_) => None,
    }
}

/// What slicing a captured packet finds, and where the slicing began; `None` where there is nothing
/// to slice.
pub open spec fn layers_of(link_type: DataLink, data: Seq<u8>) -> Option<(nat, Layers)> {
    if link_type == DataLink::ETHERNET {
        match ethernet_layers(data) {
            Some(layers) => Some((0, layers)),
            None => None,
        }
    } else {
        match fixed_header_len(link_type) {
            Some(base) if base <= data.len() => match ip_layers(data.skip(base as int)) {
                Some(layers) => Some((base, layers)),
                None => None,
            },
            _ => None,
        }
    }
}

/// The frame in a captured packet; `None` where it holds no whole TCP/IP segment.
pub open spec fn frame_of(link_type: DataLink, data: Seq<u8>) -> Option<TcpFrame> {
    match layers_of(link_type, data) {
        Some((base, layers)) => layered_frame(layers, base as int, data),
        None => None,
    }
}

/// A link header of fixed length only shifts the payload: whatever it holds, the packet behind it
/// parses as it does on its own.
pub proof fn law_fixed_header_only_shifts(link_type: DataLink, header: Seq<u8>, packet: Seq<u8>)
    requires
        fixed_header_len(link_type) == Some(header.len()),
        header.len() + packet.len() <= usize::MAX,
    ensures
        frame_of(link_type, header + packet) == match frame_of(DataLink::RAW, packet) {
            Some(frame) => Some(
                TcpFrame {
                    payload_range: (Range {
                        start: (header.len() + frame.payload_range.start) as usize,
                        end: (header.len() + frame.payload_range.end) as usize,
                    }),
                    ..frame
                },
            ),
            None => None,
        },
        frame_of(DataLink::RAW, packet) matches Some(frame) ==> frame.payload_range.start
            <= frame.payload_range.end <= packet.len(),
{
    let data = header + packet;
    assert(data.skip(header.len() as int) =~= packet);
    assert(packet.skip(0) =~= packet);
    if let Some(layers) = ip_layers(packet) {
        if let Some((start, len)) = layers.segment {
            if start + len <= packet.len() {
                assert(data.subrange(header.len() + start, header.len() + start + len)
                    =~= packet.subrange(start as int, start + len));
            }
        }
    }
}

/// A packet too short for its link header, and one of a link that cannot be read here, holds no
/// frame.
pub proof fn law_unreadable_link_is_refused(link_type: DataLink, data: Seq<u8>)
    requires
        link_type is Unknown || (fixed_header_len(link_type) is Some && data.len()
            < fixed_header_len(link_type)->0),
    ensures
        frame_of(link_type, data) is None,
{
}

/// The bytes in front of the IP packet: sixteen and twenty for Linux cooked capture, four for
/// loopback, none for bare IP.
pub proof fn law_link_headers_have_their_lengths(other: u32)
    ensures
        fixed_header_len(DataLink::LINUX_SLL) == Some(16nat),
        fixed_header_len(DataLink::LINUX_SLL2) == Some(20nat),
        fixed_header_len(DataLink::NULL) == Some(4nat),
        fixed_header_len(DataLink::LOOP) == Some(4nat),
        fixed_header_len(DataLink::RAW) == Some(0nat),
        fixed_header_len(DataLink::ETHERNET) is None,
        fixed_header_len(DataLink::Unknown(other)) is None,
{
}

/// A frame's payload is its TCP segment without the header, options included: it begins as many
/// four-byte words into the segment as the data offset, the high half of byte 12, says, and ends
/// with the segment. The header fields are what the segment's bytes spell.
pub proof fn law_payload_follows_the_whole_header(
    link_type: DataLink,
    data: Seq<u8>,
    base: nat,
    layers: Layers,
    start: usize,
    len: usize,
)
    requires
        data.len() <= usize::MAX,
        layers_of(link_type, data) == Some((base, layers)),
        layers.within((data.len() - base) as nat),
        layers.segment == Some((start, len)),
        frame_of(link_type, data) is Some,
    ensures
        ({
            let frame = frame_of(link_type, data)->0;
            let segment = data.subrange(base + start, base + start + len);
            let range = frame.payload_range;
            let words = (segment[12] >> 4) as int;
            &&& base + start + 4 * words == range.start <= range.end == base + start + len
            &&& range.end - range.start == len - 4 * words
            &&& 5 <= words
            &&& data.subrange(range.start as int, range.end as int) == segment.skip(4 * words)
            &&& layers.addresses == Some((frame.src_ip, frame.dst_ip))
            &&& be_number(segment.subrange(0, 2)) == frame.src_port
            &&& be_number(segment.subrange(2, 4)) == frame.dst_port
            &&& be_number(segment.subrange(4, 8)) == frame.seq
            &&& be_number(segment.subrange(8, 12)) == frame.ack_number
            &&& frame.flags.fin == (segment[13] & 1 != 0)
            &&& frame.flags.syn == (segment[13] & 2 != 0)
            &&& frame.flags.rst == (segment[13] & 4 != 0)
            &&& frame.flags.psh == (segment[13] & 8 != 0)
            &&& frame.flags.ack == (segment[13] & 16 != 0)
        }),
{
    let frame = frame_of(link_type, data)->0;
    let segment = data.subrange(base + start, base + start + len);
    let range = frame.payload_range;
    let offset = segment[12];
    let bits = segment[13];
    assert(offset >> 4 == offset / 16) by (bit_vector);
    assert((bits & 1 != 0) == (bits % 2 == 1) && (bits & 2 != 0) == (bits / 2 % 2 == 1) && (bits & 4
        != 0) == (bits / 4 % 2 == 1) && (bits & 8 != 0) == (bits / 8 % 2 == 1) && (bits & 16 != 0)
        == (bits / 16 % 2 == 1)) by (bit_vector);
    assert(data.subrange(range.start as int, range.end as int) =~= segment.skip(
        4 * (offset >> 4) as int,
    ));
    lemma_be_number_2(segment.subrange(0, 2));
    lemma_be_number_2(segment.subrange(2, 4));
    lemma_be_number_4(segment.subrange(4, 8));
    lemma_be_number_4(segment.subrange(8, 12));
}

/// A segment that is built as a header of twenty bytes, any options that its data offset counts,
/// and a payload, has that payload, wherever in the packet it stands and however long the options
/// are.
pub proof fn law_options_are_no_payload(
    link_type: DataLink,
    before: Seq<u8>,
    header: Seq<u8>,
    options: Seq<u8>,
    payload: Seq<u8>,
    after: Seq<u8>,
    base: nat,
    layers: Layers,
)
    requires
        before.len() + header.len() + options.len() + payload.len() + after.len() <= usize::MAX,
        header.len() == 20,
        options.len() <= 40,
        header[12] / 16 * 4 == 20 + options.len(),
        layers.addresses is Some,
        layers_of(link_type, before + header + options + payload + after) == Some((base, layers)),
        base <= before.len(),
        layers.segment == Some(
            (
                (before.len() - base) as usize,
                (header.len() + options.len() + payload.len()) as usize,
            ),
        ),
    ensures
        ({
            let data = before + header + options + payload + after;
            frame_of(link_type, data) matches Some(frame) && data.subrange(
                frame.payload_range.start as int,
                frame.payload_range.end as int,
            ) == payload
        }),
{
    let data = before + header + options + payload + after;
    let n = header.len() + options.len() + payload.len();
    let segment = data.subrange(before.len() as int, before.len() + n as int);
    assert(segment =~= header + options + payload);
    assert(segment[12] == header[12]);
    assert(has_tcp_header(segment));
    let frame = frame_of(link_type, data)->0;
    assert(data.subrange(
        frame.payload_range.start as int,
        frame.payload_range.end as int,
    ) =~= payload);
}

/// The frame that `layers`, found in `data` from `base` on, make up.
pub fn frame_from_layers(layers: Layers, base: usize, data: &[u8]) -> (frame: Result<
    TcpFrame,
    ParseError,
>)
    requires
        base <= data@.len(),
        layers.within((data@.len() - base) as nat),
    ensures
        match frame {
            Ok(frame) => {
                &&& layered_frame(layers, base as int, data@) == Some(frame)
                &&& frame.payload_range.start <= frame.payload_range.end <= data@.len()
            },
            Err(e) => e == ParseError::NotTcp && layered_frame(layers, base as int, data@) is None,
        },
{
    match (layers.addresses, layers.segment) {
        (Some((src_ip, dst_ip)), Some((start, len))) => {
            assert(base + start + len <= data.len());
            let from: usize = base + start;
            let segment = slice_subrange(data, from, from + len);
            match slice_tcp(segment) {
                Some(header) => Ok(
                    TcpFrame {
                        src_ip,
                        dst_ip,
                        src_port: header.src_port,
                        dst_port: header.dst_port,
                        seq: header.seq,
                        ack_number: header.ack_number,
                        flags: header.flags,
                        payload_range: Range { start: from + header.header_len, end: from + len },
                    },
                ),
                None => Err(ParseError::NotTcp),
            }
        },
        _ => Err(ParseError::NotTcp),
    }
}

/// Parses one captured packet. Whatever is no full TCP/IP segment is refused: it holds nothing to
/// decode, and is no reason to stop.
pub fn parse_tcp_frame(link_type: DataLink, data: &[u8]) -> (frame: Result<TcpFrame, ParseError>)
    ensures
        match frame {
            Ok(frame) => {
                &&& frame_of(link_type, data@) == Some(frame)
                &&& frame.payload_range.start <= frame.payload_range.end <= data@.len()
            },
            Err(e) => e == ParseError::NotTcp && frame_of(link_type, data@) is None,
        },
        layers_of(link_type, data@) matches Some((base, layers)) ==> layers.within(
            (data@.len() - base) as nat,
        ),
{
    let base: usize = match link_type {
        DataLink::ETHERNET => {
            return match slice_ethernet(data) {
                Some(layers) => frame_from_layers(layers, 0, data),
                None => Err(ParseError::NotTcp),
            };
        },
        DataLink::LINUX_SLL => LINUX_SLL_HEADER_LEN,
        DataLink::LINUX_SLL2 => LINUX_SLL2_HEADER_LEN,
        DataLink::RAW => 0,
        DataLink::NULL | DataLink::LOOP => NULL_LOOP_HEADER_LEN,
        DataLink::Unknown(_) => {
            return Err(ParseError::NotTcp);
        },
    };
    if data.len() < base {
        return Err(ParseError::NotTcp);
    }
    let packet = slice_subrange(data, base, data.len());
    assert(packet@ =~= data@.skip(base as int));
    match slice_ip(packet) {
        Some(layers) => frame_from_layers(layers, base, data),
        None => Err(ParseError::NotTcp),
    }
}

/// A packet's bytes, its place in the stream of packets, and its capture time since the epoch.
pub struct RawPacket {
    pub index: usize,
    pub data: Vec<u8>,
    pub timestamp: Duration,
}

/// The two capture file formats.
#[derive(Clone, Copy, Debug, PartialEq, Eq, Structural)]
pub enum CaptureFormat {
    Pcap,
    PcapNg,
}

/// Why a capture could not be opened or read on.
#[derive(Debug)]
pub enum OpenError {
    TooShort,
    UnknownMagic,
    /// The capture format's own parser failed, with this message.
    Pcap(String),
}

impl OpenError {
    /// What is said of the error.
    pub open spec fn text(&self) -> Seq<char> {
        match self {
            OpenError::TooShort => "could not read enough bytes to detect the capture format"@,
            OpenError::UnknownMagic =>
                "unrecognized capture format (not classic pcap or pcapng magic)"@,
            OpenError::Pcap(message) => "pcap/pcapng parse error: "@ + message@,
        }
    }

    pub fn message(&self) -> (out: String)
        ensures
            out@ == self.text(),
    {
        let mut out = String::new();
        match self {
            OpenError::TooShort => out.append(
                "could not read enough bytes to detect the capture format",
            ),
            OpenError::UnknownMagic => out.append(
                "unrecognized capture format (not classic pcap or pcapng magic)",
            ),
            OpenError::Pcap(message) => {
                out.append("pcap/pcapng parse error: ");
                out.append(message.as_str());
            },
        }
        assert(out@ =~= self.text());
        out
    }
}

/// The format that the first four bytes of a capture announce.
pub open spec fn format_of(magic: Seq<u8>) -> Option<CaptureFormat> {
    if magic == seq![0xa1u8, 0xb2, 0xc3, 0xd4] || magic == seq![0xd4u8, 0xc3, 0xb2, 0xa1] || magic
        == seq![0xa1u8, 0xb2, 0x3c, 0x4d] || magic == seq![0x4du8, 0x3c, 0xb2, 0xa1] {
        Some(CaptureFormat::Pcap)
    } else if magic == seq![0x0au8, 0x0d, 0x0d, 0x0a] {
        Some(CaptureFormat::PcapNg)
    } else {
        None
    }
}

/// Tells the capture formats apart by their first bytes: classic pcap in either byte order, with
/// microsecond or nanosecond timestamps, and pcapng. Takes what could be read of the first four.
pub fn detect_format(head: &[u8]) -> (format: Result<CaptureFormat, OpenError>)
    ensures
        match format {
            Ok(format) => head@.len() >= 4 && format_of(head@.take(4)) == Some(format),
            Err(OpenError::TooShort) => head@.len() < 4,
            Err(OpenError::UnknownMagic) => head@.len() >= 4 && format_of(head@.take(4)) is None,
            Err(OpenError::Pcap(_)) => false,
        },
{
    if head.len() < 4 {
        return Err(OpenError::TooShort);
    }
    let (a, b, c, d) = (head[0], head[1], head[2], head[3]);
    proof {
        assert(head@.take(4) =~= seq![a, b, c, d]);
        lemma_four_bytes(a, b, c, d, 0xa1, 0xb2, 0xc3, 0xd4);
        lemma_four_bytes(a, b, c, d, 0xd4, 0xc3, 0xb2, 0xa1);
        lemma_four_bytes(a, b, c, d, 0xa1, 0xb2, 0x3c, 0x4d);
        lemma_four_bytes(a, b, c, d, 0x4d, 0x3c, 0xb2, 0xa1);
        lemma_four_bytes(a, b, c, d, 0x0a, 0x0d, 0x0d, 0x0a);
    }
    if (a == 0xa1 && b == 0xb2 && c == 0xc3 && d == 0xd4) || (a == 0xd4 && b == 0xc3 && c == 0xb2
        && d == 0xa1) || (a == 0xa1 && b == 0xb2 && c == 0x3c && d == 0x4d) || (a == 0x4d && b
        == 0x3c && c == 0xb2 && d == 0xa1) {
        Ok(CaptureFormat::Pcap)
    } else if a == 0x0a && b == 0x0d && c == 0x0d && d == 0x0a {
        Ok(CaptureFormat::PcapNg)
    } else {
        Err(OpenError::UnknownMagic)
    }
}

proof fn lemma_four_bytes(a: u8, b: u8, c: u8, d: u8, e: u8, f: u8, g: u8, h: u8)
    ensures
        seq![a, b, c, d] == seq![e, f, g, h] <==> a == e && b == f && c == g && d == h,
{
    let s = seq![a, b, c, d];
    let t = seq![e, f, g, h];
    if s == t {
        assert(s[0] == t[0] && s[1] == t[1] && s[2] == t[2] && s[3] == t[3]);
    }
}

/// An option of a pcapng interface description.
#[derive(Clone, Copy, Debug, PartialEq, Eq, Structural)]
pub enum InterfaceOption {
    /// The resolution of the interface's timestamps.
    IfTsResol(u8),
    Other,
}

/// What a pcapng capture says of an interface.
pub struct Interface {
    pub link_type: DataLink,
    pub options: Vec<InterfaceOption>,
}

/// The first timestamp resolution among the options.
pub open spec fn tsresol_of(options: Seq<InterfaceOption>) -> Option<u8>
    decreases options.len(),
{
    if options.len() == 0 {
        None
    } else {
        match options[0] {
            InterfaceOption::IfTsResol(v) => Some(v),
            InterfaceOption::Other => tsresol_of(options.drop_first()),
        }
    }
}

fn find_tsresol(options: &[InterfaceOption]) -> (tsresol: Option<u8>)
    ensures
        tsresol == tsresol_of(options@),
{
    let mut i: usize = 0;
    proof {
        assert(options@.skip(0) =~= options@);
    }
    while i < options.len()
        invariant
            i <= options@.len(),
            tsresol_of(options@.skip(i as int)) == tsresol_of(options@),
        decreases options@.len() - i,
    {
        assert(options@.skip(i as int).drop_first() =~= options@.skip(i + 1));
        if let InterfaceOption::IfTsResol(v) = options[i] {
            return Some(v);
        }
        i += 1;
    }
    None
}

/// How many ticks make a second: a power of two where the high bit is set, else a power of ten,
/// 10^9 at most. Without the option ticks are microseconds.
pub open spec fn ticks_per_sec(if_tsresol: Option<u8>) -> nat {
    let v = match if_tsresol {
        Some(v) => v,
        None => 6,
    };
    if v >= 0x80 {
        (1u128 << ((v - 0x80) as u128)) as nat
    } else {
        ten_to(if v < 9 { v as nat } else { 9 })
    }
}

pub open spec fn ten_to(n: nat) -> nat
    decreases n,
{
    if n == 0 {
        1
    } else {
        10 * ten_to((n - 1) as nat)
    }
}

/// The time that `ticks` ticks are, in nanoseconds rounded down. Whole seconds count modulo 2^64.
pub open spec fn ticks_to_nanos(ticks: nat, per_sec: nat) -> nat {
    (ticks / per_sec) % 0x1_0000_0000_0000_0000 * NANOS_PER_SEC as nat + ticks % per_sec
        * NANOS_PER_SEC as nat / per_sec
}

/// A tick count that fits in 64 bits gives the exact time, rounded down to a nanosecond.
pub proof fn law_timestamp_is_exact(ticks: nat, per_sec: nat)
    requires
        ticks <= u64::MAX,
        per_sec > 0,
    ensures
        ticks_to_nanos(ticks, per_sec) == ticks * (NANOS_PER_SEC as nat) / per_sec,
{
    let n = NANOS_PER_SEC as nat;
    let q = ticks / per_sec;
    let r = ticks % per_sec;
    assert(q <= ticks) by (nonlinear_arith)
        requires
            q == ticks / per_sec,
            per_sec > 0,
    ;
    vstd::arithmetic::div_mod::lemma_fundamental_div_mod(ticks as int, per_sec as int);
    assert(ticks * n / per_sec == q * n + r * n / per_sec) by {
        assert(ticks * n == per_sec * (q * n) + r * n) by (nonlinear_arith)
            requires
                ticks == per_sec * q + r,
        ;
        vstd::arithmetic::div_mod::lemma_hoist_over_denominator(
            (r * n) as int,
            (q * n) as int,
            per_sec,
        );
        assert((q * n) * per_sec == per_sec * (q * n)) by (nonlinear_arith);
    }
}

/// What a tick is: powers of ten for the resolutions zero to nine, nanoseconds for those above,
/// powers of two where the high bit is set, and microseconds where nothing is said.
pub proof fn law_resolution_says_what_a_tick_is(v: u8)
    ensures
        ticks_per_sec(None) == 1_000_000,
        ticks_per_sec(Some(0)) == 1,
        v < 9 ==> ticks_per_sec(Some((v + 1) as u8)) == 10 * ticks_per_sec(Some(v)),
        9 <= v < 0x80 ==> ticks_per_sec(Some(v)) == 1_000_000_000,
        ticks_per_sec(Some(0x80)) == 1,
        0x80 <= v < 0xff ==> ticks_per_sec(Some((v + 1) as u8)) == 2 * ticks_per_sec(Some(v)),
{
    reveal_with_fuel(ten_to, 10);
    assert(1u128 << 0u128 == 1) by (bit_vector);
    if 0x80 <= v < 0xff {
        let a = (v - 0x80) as u128;
        let b = (v + 1 - 0x80) as u128;
        assert(1u128 << b == 2 * (1u128 << a)) by (bit_vector)
            requires
                b == a + 1,
                a < 127,
        ;
    }
}

/// The first resolution among an interface's options counts, whatever stands before and after it.
pub proof fn law_first_resolution_counts(
    before: Seq<InterfaceOption>,
    v: u8,
    after: Seq<InterfaceOption>,
)
    requires
        forall|i: int| 0 <= i < before.len() ==> (#[trigger] before[i]) is Other,
    ensures
        tsresol_of(before + seq![InterfaceOption::IfTsResol(v)] + after) == Some(v),
        tsresol_of(before) is None,
    decreases before.len(),
{
    let all = before + seq![InterfaceOption::IfTsResol(v)] + after;
    if before.len() > 0 {
        let rest = before.drop_first();
        assert forall|i: int| 0 <= i < rest.len() implies (#[trigger] rest[i]) is Other by {
            assert(rest[i] == before[i + 1]);
        }
        law_first_resolution_counts(rest, v, after);
        assert(all.drop_first() =~= rest + seq![InterfaceOption::IfTsResol(v)] + after);
        assert(all[0] == before[0]);
    }
}

/// The right capture time of a packet whose raw tick count was taken for nanoseconds. The
/// interface says what a tick is.
pub fn correct_epb_timestamp(mis_scaled: Duration, if_tsresol: Option<u8>) -> (d: Duration)
    ensures
        d@ == ticks_to_nanos(mis_scaled@, ticks_per_sec(if_tsresol)),
{
    let raw_ticks: u128 = mis_scaled.as_nanos();
    let tsresol: u8 = match if_tsresol {
        Some(v) => v,
        None => 6,
    };
    let unit: u128 = if tsresol >= 0x80 {
        let shift: u128 = (tsresol - 0x80) as u128;
        assert(1u128 << shift > 0) by (bit_vector)
            requires
                shift < 128,
        ;
        1u128 << shift
    } else {
        let exp: u8 = if tsresol < 9 { tsresol } else { 9 };
        let mut unit: u128 = 1;
        let mut i: u8 = 0;
        while i < exp
            invariant
                i <= exp <= 9,
                unit == ten_to(i as nat),
            decreases exp - i,
        {
            proof {
                reveal_with_fuel(ten_to, 10);
            }
            unit = unit * 10;
            i += 1;
        }
        proof {
            reveal_with_fuel(ten_to, 10);
        }
        unit
    };
    let whole_secs: u64 = (raw_ticks / unit % 0x1_0000_0000_0000_0000) as u64;
    let frac_ticks: u128 = raw_ticks % unit;
    proof {
        assert(frac_ticks <= raw_ticks) by (nonlinear_arith)
            requires
                frac_ticks == raw_ticks % unit,
                unit > 0,
        ;
        assert(frac_ticks * 1_000_000_000 <= 18_446_744_073_709_551_615_999_999_999
            * 1_000_000_000);
        assert(0 <= frac_ticks * 1_000_000_000 / (unit as int) < 1_000_000_000)
            by (nonlinear_arith)
            requires
                0 <= frac_ticks < unit,
        ;
    }
    let subsec_nanos: u32 = (frac_ticks * 1_000_000_000 / unit) as u32;
    Duration::new(whole_secs, subsec_nanos)
}

/// The packet that an enhanced packet block of a pcapng capture holds, and its link type.
/// `mis_scaled` is the block's raw tick count taken for nanoseconds; `interface` is what the
/// capture says of the block's interface. A block that names no known interface is taken to be
/// Ethernet with microsecond ticks.
pub fn packet_from_block(
    index: usize,
    data: Vec<u8>,
    mis_scaled: Duration,
    interface: Option<&Interface>,
) -> (packet: (RawPacket, DataLink))
    ensures
        packet.0.index == index,
        packet.0.data == data,
        match interface {
            Some(interface) => {
                &&& packet.0.timestamp@ == ticks_to_nanos(
                    mis_scaled@,
                    ticks_per_sec(tsresol_of(interface.options@)),
                )
                &&& packet.1 == interface.link_type
            },
            None => {
                &&& packet.0.timestamp@ == ticks_to_nanos(mis_scaled@, ticks_per_sec(None))
                &&& packet.1 == DataLink::ETHERNET
            },
        },
{
    match interface {
        Some(interface) => {
            let timestamp = correct_epb_timestamp(
                mis_scaled,
                find_tsresol(interface.options.as_slice()),
            );
            (RawPacket { index, data, timestamp }, interface.link_type)
        },
        None => {
            let timestamp = correct_epb_timestamp(mis_scaled, None);
            (RawPacket { index, data, timestamp }, DataLink::ETHERNET)
        },
    }
}

/// There is a frame exactly where there are addresses and a segment that holds the whole header it
/// announces, of five to fifteen words.
pub proof fn law_half_a_header_is_no_frame(layers: Layers, base: int, data: Seq<u8>)
    requires
        0 <= base,
        layers.segment matches Some((start, len)) ==> base + start + len <= data.len(),
    ensures
        layers.addresses is None ==> layered_frame(layers, base, data) is None,
        layers.segment is None ==> layered_frame(layers, base, data) is None,
        layers.addresses is Some && layers.segment is Some ==> {
            let (start, len) = layers.segment->0;
            layered_frame(layers, base, data) is Some <==> {
                &&& len >= 20
                &&& data[base + start + 12] >= 0x50
                &&& 4 * (data[base + start + 12] / 16) <= len
            }
        },
{
}

/// A capture is told by the number that its first four bytes spell: one of four for classic pcap,
/// in either byte order, and one for pcapng.
pub proof fn law_format_is_told_by_its_number(magic: Seq<u8>)
    requires
        magic.len() == 4,
    ensures
        ({
            let n = be_number(magic);
            &&& format_of(magic) == Some(CaptureFormat::Pcap) <==> n == 0xa1b2c3d4 || n
                == 0xd4c3b2a1 || n == 0xa1b23c4d || n == 0x4d3cb2a1
            &&& format_of(magic) == Some(CaptureFormat::PcapNg) <==> n == 0x0a0d0d0a
        }),
{
    lemma_be_number_4(magic);
    lemma_spelled_by(magic, 0xa1, 0xb2, 0xc3, 0xd4);
    lemma_spelled_by(magic, 0xd4, 0xc3, 0xb2, 0xa1);
    lemma_spelled_by(magic, 0xa1, 0xb2, 0x3c, 0x4d);
    lemma_spelled_by(magic, 0x4d, 0x3c, 0xb2, 0xa1);
    lemma_spelled_by(magic, 0x0a, 0x0d, 0x0d, 0x0a);
}

proof fn lemma_spelled_by(m: Seq<u8>, a: u8, b: u8, c: u8, d: u8)
    requires
        m.len() == 4,
    ensures
        m == seq![a, b, c, d] <==> m[0] * 0x100_0000 + m[1] * 0x1_0000 + m[2] * 0x100 + m[3] == a
            * 0x100_0000 + b * 0x1_0000 + c * 0x100 + d,
{
    if m[0] == a && m[1] == b && m[2] == c && m[3] == d {
        assert(m =~= seq![a, b, c, d]);
    }
    if m == seq![a, b, c, d] {
        assert(m[0] == a && m[1] == b && m[2] == c && m[3] == d);
    }
}

} // verus!
