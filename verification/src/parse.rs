//! Minimal packet metadata parser.
//!
//! Only the fields of a [`PacketEvent`] are extracted; payloads are never inspected.
//! Anything that cannot be parsed gives `None`, so the capture loop can drop it.
//! The header walking itself is etherparse's; this module decides what becomes of
//! its findings.
use vstd::prelude::*;

use etherparse::{NetSlice, SlicedPacket, TransportSlice};

use crate::direction::{direction_of, DirectionResolver};
use crate::ip::{ip_text, ip_to_string, IpAddress, IpView};
use crate::types::{PacketEvent, Protocol};

verus! {

/// Subset of pcap data link types that can be parsed.
#[derive(Debug, Clone, Copy, PartialEq, Eq, Structural)]
pub enum DataLink {
    /// Ethernet (`DLT_EN10MB` = 1).
    Ethernet,
    /// macOS loopback (`DLT_NULL` = 0): 4-byte host-order address family prefix.
    Null,
    /// BSD loopback (`DLT_LOOP` = 12): 4-byte big-endian address family prefix.
    Loop,
    /// Raw IP (`DLT_IPV4` = 228 / `DLT_IPV6` = 229).
    Raw,
    /// Anything else; not parsed.
    Unsupported,
}

/// The data link that a pcap link-type code stands for.
pub open spec fn link_of_code(code: i32) -> DataLink {
    if code == 1 {
        DataLink::Ethernet
    } else if code == 0 {
        DataLink::Null
    } else if code == 12 {
        DataLink::Loop
    } else if code == 228 || code == 229 {
        DataLink::Raw
    } else {
        DataLink::Unsupported
    }
}

impl DataLink {
    /// Maps a pcap link-type code (the number inside `pcap::Linktype`) to a data link.
    pub fn from_pcap(linktype: i32) -> (res: Self)
        ensures
            res == link_of_code(linktype),
    {
        match linktype {
            1 => DataLink::Ethernet,
            0 => DataLink::Null,
            12 => DataLink::Loop,
            228 | 229 => DataLink::Raw,
            _ => DataLink::Unsupported,
        }
    }
}

/// Transport-layer facts of a packet: the protocol and, for TCP and UDP, the ports.
#[derive(Debug, Clone, Copy, PartialEq, Eq, Structural)]
pub enum TransportInfo {
    /// TCP with (source, destination) ports.
    Tcp(u16, u16),
    /// UDP with (source, destination) ports.
    Udp(u16, u16),
    /// ICMPv4 or ICMPv6.
    Icmp,
    /// No transport layer that is understood.
    Absent,
}

/// What `etherparse::SlicedPacket::from_ethernet` finds in a frame: whether an IP
/// layer follows the link-layer headers, and how many bytes there are from the start
/// of the bytes after those headers (Ethernet II and VLAN tags) to the end of the frame.
/// `None` when etherparse refuses the frame.
pub uninterp spec fn etherparse_ethernet_frame(raw: Seq<u8>) -> Option<(bool, usize)>;

/// Calls `etherparse::SlicedPacket::from_ethernet` and reports, per
/// [`etherparse_ethernet_frame`], whether a network layer was found and the length of
/// the ether payload after the Ethernet II header and any VLAN headers.
/// Claimed of the outside code: the result is a function of the bytes alone; frames
/// shorter than the 14-byte Ethernet II header are refused; the payload length leaves
/// room for that header.
#[verifier::external_body]
fn slice_ethernet(raw: &[u8]) -> (res: Option<(bool, usize)>)
    ensures
        res == etherparse_ethernet_frame(raw@),
        raw@.len() < 14 ==> res is None,
        res matches Some((_, rest)) ==> rest + 14 <= raw@.len(),
{
    let sliced = SlicedPacket::from_ethernet(raw).ok()?;
    let ether = match (sliced.vlan, sliced.link) {
        (Some(vlan), _) => vlan.payload(),
        (None, Some(link)) => link.ether_payload()?,
        (None, None) => return None,
    };
    Some((sliced.net.is_some(), ether.payload.len()))
}

/// What `etherparse::SlicedPacket::from_ip` finds in bytes that start at an IP header:
/// the source and destination addresses of the network layer and the transport layer.
/// `None` when etherparse refuses the bytes.
pub uninterp spec fn etherparse_ip_layers(payload: Seq<u8>) -> Option<(IpView, IpView, TransportInfo)>;

/// Calls `etherparse::SlicedPacket::from_ip` and returns the IPv4 or IPv6 source and
/// destination addresses of the network layer it found.
/// Claimed of the outside code: the addresses are those of [`etherparse_ip_layers`],
/// a function of the bytes alone.
#[verifier::external_body]
fn ip_endpoints(payload: &[u8]) -> (res: Option<(IpAddress, IpAddress)>)
    ensures
        match res {
            Some((s, d)) => etherparse_ip_layers(payload@) matches Some((a, b, _)) && a == s@ && b
                == d@,
            None => etherparse_ip_layers(payload@) is None,
        },
{
    match SlicedPacket::from_ip(payload).ok()?.net? {
        NetSlice::Ipv4(v) => Some((IpAddress::V4(v.header().source()), IpAddress::V4(v.header().destination()))),
        NetSlice::Ipv6(v) => Some((IpAddress::V6(v.header().source()), IpAddress::V6(v.header().destination()))),
    }
}

/// Calls `etherparse::SlicedPacket::from_ip` and returns the transport layer it found:
/// TCP or UDP with their ports, ICMPv4/ICMPv6, or none.
/// Claimed of the outside code: the result is that of [`etherparse_ip_layers`], a
/// function of the bytes alone.
#[verifier::external_body]
fn ip_transport(payload: &[u8]) -> (res: Option<TransportInfo>)
    ensures
        match res {
            Some(t) => etherparse_ip_layers(payload@) matches Some((_, _, u)) && u == t,
            None => etherparse_ip_layers(payload@) is None,
        },
{
    Some(match SlicedPacket::from_ip(payload).ok()?.transport {
        Some(TransportSlice::Tcp(t)) => TransportInfo::Tcp(t.source_port(), t.destination_port()),
        Some(TransportSlice::Udp(u)) => TransportInfo::Udp(u.source_port(), u.destination_port()),
        Some(TransportSlice::Icmpv4(_)) | Some(TransportSlice::Icmpv6(_)) => TransportInfo::Icmp,
        None => TransportInfo::Absent,
    })
}

/// The bytes that follow the Ethernet framing, given what etherparse found in the frame:
/// present only when an IP layer was found.
pub open spec fn ethernet_payload(raw: Seq<u8>, frame: Option<(bool, usize)>) -> Option<Seq<u8>> {
    match frame {
        Some((has_net, rest)) => if has_net && rest <= raw.len() {
            Some(raw.subrange(raw.len() - rest, raw.len() as int))
        } else {
            None
        },
        None => None,
    }
}

/// The bytes of a frame from its IP header on, per data link.
pub open spec fn link_payload(raw: Seq<u8>, link: DataLink) -> Option<Seq<u8>> {
    match link {
        DataLink::Ethernet => ethernet_payload(raw, etherparse_ethernet_frame(raw)),
        DataLink::Null | DataLink::Loop => if raw.len() >= 4 {
            Some(raw.subrange(4, raw.len() as int))
        } else {
            None
        },
        DataLink::Raw => Some(raw),
        DataLink::Unsupported => None,
    }
}

/// The protocol of an event with the given transport layer.
pub open spec fn transport_protocol(t: TransportInfo) -> Protocol {
    match t {
        TransportInfo::Tcp(_, _) => Protocol::Tcp,
        TransportInfo::Udp(_, _) => Protocol::Udp,
        TransportInfo::Icmp => Protocol::Icmp,
        TransportInfo::Absent => Protocol::Other,
    }
}

/// The source port of an event with the given transport layer.
pub open spec fn transport_src_port(t: TransportInfo) -> Option<u16> {
    match t {
        TransportInfo::Tcp(s, _) => Some(s),
        TransportInfo::Udp(s, _) => Some(s),
        _ => None,
    }
}

/// The destination port of an event with the given transport layer.
pub open spec fn transport_dst_port(t: TransportInfo) -> Option<u16> {
    match t {
        TransportInfo::Tcp(_, d) => Some(d),
        TransportInfo::Udp(_, d) => Some(d),
        _ => None,
    }
}

/// `ev` is the event of a packet captured at `ts` with `len` bytes, between the given
/// addresses, over the given transport layer, as seen from a host whose local
/// addresses are `locals`.
pub open spec fn event_fields(
    ev: PacketEvent,
    ts: i64,
    len: u32,
    src: IpView,
    dst: IpView,
    t: TransportInfo,
    locals: Set<Seq<char>>,
) -> bool {
    &&& ev.timestamp == ts
    &&& ev.packet_length == len
    &&& ev.src_ip@ == ip_text(src)
    &&& ev.dst_ip@ == ip_text(dst)
    &&& ev.protocol == transport_protocol(t)
    &&& ev.src_port == transport_src_port(t)
    &&& ev.dst_port == transport_dst_port(t)
    &&& ev.direction == direction_of(locals.contains(ip_text(src)), locals.contains(ip_text(dst)))
}

/// `res` is what parsing the frame `raw` on data link `link`, captured at `ts` with
/// `len` bytes, gives on a host with local addresses `locals`: `None` when the link
/// framing or the IP layers cannot be read, else the event of the packet.
pub open spec fn parsed_as(
    res: Option<PacketEvent>,
    ts: i64,
    len: u32,
    raw: Seq<u8>,
    link: DataLink,
    locals: Set<Seq<char>>,
) -> bool {
    match link_payload(raw, link) {
        None => res is None,
        Some(p) => match etherparse_ip_layers(p) {
            None => res is None,
            Some((s, d, t)) => res matches Some(ev) && event_fields(ev, ts, len, s, d, t, locals),
        },
    }
}

/// The bytes after the Ethernet framing, given what etherparse found in the frame
/// (see [`etherparse_ethernet_frame`]): `None` unless an IP layer was found.
pub fn payload_after_ethernet<'a>(raw: &'a [u8], frame: Option<(bool, usize)>) -> (res: Option<
    &'a [u8],
>)
    ensures
        match res {
            Some(p) => ethernet_payload(raw@, frame) == Some(p@),
            None => ethernet_payload(raw@, frame) is None,
        },
{
    match frame {
        Some((true, rest)) => {
            if rest <= raw.len() {
                Some(vstd::slice::slice_subrange(raw, raw.len() - rest, raw.len()))
            } else {
                None
            }
        },
        _ => None,
    }
}

/// Strips the link-layer framing so that the result starts at the IP header.
pub fn strip_link_layer<'a>(raw: &'a [u8], link: DataLink) -> (res: Option<&'a [u8]>)
    ensures
        match res {
            Some(p) => link_payload(raw@, link) == Some(p@),
            None => link_payload(raw@, link) is None,
        },
        link == DataLink::Ethernet && raw@.len() < 14 ==> res is None,
{
    match link {
        DataLink::Ethernet => {
            let frame = slice_ethernet(raw);
            payload_after_ethernet(raw, frame)
        },
        DataLink::Null | DataLink::Loop => {
            if raw.len() >= 4 {
                Some(vstd::slice::slice_subrange(raw, 4, raw.len()))
            } else {
                None
            }
        },
        DataLink::Raw => Some(raw),
        DataLink::Unsupported => None,
    }
}

/// The event of a packet whose network and transport layers were found: addresses in
/// their standard text form, protocol and ports from the transport layer, and the
/// direction from the resolver's local addresses.
pub fn event_from_layers(
    timestamp_ms: i64,
    captured_len: u32,
    src: &IpAddress,
    dst: &IpAddress,
    transport: TransportInfo,
    direction_resolver: &DirectionResolver,
) -> (res: PacketEvent)
    ensures
        event_fields(
            res,
            timestamp_ms,
            captured_len,
            src@,
            dst@,
            transport,
            direction_resolver.locals(),
        ),
{
    let src_ip = ip_to_string(src);
    let dst_ip = ip_to_string(dst);
    let (protocol, src_port, dst_port) = match transport {
        TransportInfo::Tcp(s, d) => (Protocol::Tcp, Some(s), Some(d)),
        TransportInfo::Udp(s, d) => (Protocol::Udp, Some(s), Some(d)),
        TransportInfo::Icmp => (Protocol::Icmp, None, None),
        TransportInfo::Absent => (Protocol::Other, None, None),
    };
    let direction = direction_resolver.classify(src_ip.as_str(), dst_ip.as_str());
    PacketEvent {
        timestamp: timestamp_ms,
        src_ip,
        dst_ip,
        src_port,
        dst_port,
        protocol,
        packet_length: captured_len,
        direction,
    }
}

/// Parses a captured frame into a [`PacketEvent`].
///
/// Returns `None` for traffic that is not supported (unsupported link layer, non-IP,
/// malformed).
pub fn parse_packet(
    timestamp_ms: i64,
    captured_len: u32,
    raw: &[u8],
    link: DataLink,
    direction_resolver: &DirectionResolver,
) -> (res: Option<PacketEvent>)
    ensures
        parsed_as(res, timestamp_ms, captured_len, raw@, link, direction_resolver.locals()),
        link == DataLink::Ethernet && raw@.len() < 14 ==> res is None,
{
    let payload = match strip_link_layer(raw, link) {
        Some(p) => p,
        None => return None,
    };
    let ends = ip_endpoints(payload);
    let transport = ip_transport(payload);
    match (ends, transport) {
        (Some((src, dst)), Some(t)) => Some(
            event_from_layers(timestamp_ms, captured_len, &src, &dst, t, direction_resolver),
        ),
        _ => None,
    }
}

} // verus!
