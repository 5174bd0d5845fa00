//! Decisions of the capture side: which interfaces are offered and usable, which data
//! link a capture uses, what the capture loop does after each read, and the counters it
//! keeps. Opening devices and reading frames are the application's part.
use vstd::prelude::*;

use crate::direction::DirectionResolver;
use crate::ip::{ip_text, ip_to_string, IpAddress};
use crate::parse::{link_of_code, parse_packet, parsed_as, DataLink};
use crate::text::compare_text;
use crate::types::{InterfaceInfo, PacketEvent};

verus! {

/// Snapshot length passed to libpcap: enough for IPv6 and TCP options, too small to
/// copy useful payload by accident.
pub const SNAPLEN: i32 = 256;

/// Read timeout in milliseconds: keeps the loop responsive to a stop request without
/// spinning.
pub const READ_TIMEOUT_MS: i32 = 250;

/// Pause after a read error other than a timeout, in milliseconds.
pub const ERROR_BACKOFF_MS: u64 = 50;

/// Why a capture session could not start.
#[derive(Debug)]
pub enum CaptureError {
    /// An error reported by libpcap, by its message.
    Pcap(String),
    /// No interface has the requested name.
    InterfaceNotFound(String),
    /// The interface's link layer cannot be parsed.
    UnsupportedLink { name: String, linktype: i32 },
    /// A session is running already.
    AlreadyRunning,
}

/// Connection state of an interface, as libpcap reports it.
#[derive(Debug, Clone, Copy, PartialEq, Eq, Structural)]
pub enum LinkState {
    Unknown,
    Connected,
    Disconnected,
    NotApplicable,
}

/// Whether an interface in the given state is worth offering for capture: it is up,
/// and connected or of unknown connection state.
pub open spec fn usable(state: LinkState, up: bool) -> bool {
    (state == LinkState::Connected || state == LinkState::Unknown) && up
}

/// Whether an interface in the given state is worth offering for capture.
pub fn is_usable(state: LinkState, up: bool) -> (res: bool)
    ensures
        res == usable(state, up),
{
    let connected = match state {
        LinkState::Connected | LinkState::Unknown => true,
        _ => false,
    };
    connected && up
}

/// The entry of an interface in the list offered to the user: its name serves as id
/// and name, an empty description counts as none.
pub fn map_device(name: String, desc: Option<String>, state: LinkState, up: bool) -> (res:
    InterfaceInfo)
    ensures
        res.id@ == name@,
        res.name@ == name@,
        res.description == (match desc {
            Some(d) => if d@.len() == 0 {
                None
            } else {
                Some(d)
            },
            None => None,
        }),
        res.usable == usable(state, up),
{
    let usable = is_usable(state, up);
    let description = match desc {
        Some(d) => if d.as_str().is_empty() {
            None
        } else {
            Some(d)
        },
        None => None,
    };
    InterfaceInfo { id: name.clone(), name, description, usable }
}

/// The index of the first interface named `interface_name`, or the error that names it.
pub fn find_interface(names: &[String], interface_name: &str) -> (res: Result<
    usize,
    CaptureError,
>)
    ensures
        match res {
            Ok(i) => i < names@.len() && names@[i as int]@ == interface_name@ && forall|j: int|
                0 <= j < i ==> #[trigger] names@[j]@ != interface_name@,
            Err(e) => {
                &&& forall|j: int| 0 <= j < names@.len() ==> #[trigger] names@[j]@ != interface_name@
                &&& e matches CaptureError::InterfaceNotFound(n) && n@ == interface_name@
            },
        },
{
    let mut i: usize = 0;
    while i < names.len()
        invariant
            i <= names@.len(),
            forall|j: int| 0 <= j < i ==> #[trigger] names@[j]@ != interface_name@,
        decreases names@.len() - i,
    {
        let (_, same) = compare_text(names[i].as_str(), interface_name);
        if same {
            return Ok(i);
        }
        i = i + 1;
    }
    Err(CaptureError::InterfaceNotFound(String::from_str(interface_name)))
}

/// The data link of a capture on `interface_name` with pcap link type `linktype`, or
/// the error for a link layer that cannot be parsed.
pub fn select_link(interface_name: &str, linktype: i32) -> (res: Result<DataLink, CaptureError>)
    ensures
        match res {
            Ok(l) => l == link_of_code(linktype) && l != DataLink::Unsupported,
            Err(e) => {
                &&& link_of_code(linktype) == DataLink::Unsupported
                &&& e matches CaptureError::UnsupportedLink { name, linktype: code } && name@
                    == interface_name@ && code == linktype
            },
        },
{
    let link = DataLink::from_pcap(linktype);
    if link == DataLink::Unsupported {
        Err(CaptureError::UnsupportedLink { name: String::from_str(interface_name), linktype })
    } else {
        Ok(link)
    }
}

/// The texts of a list of addresses.
pub open spec fn address_texts(addrs: Seq<IpAddress>) -> Seq<Seq<char>> {
    addrs.map_values(|a: IpAddress| ip_text(a@))
}

/// A direction resolver for an interface with the given addresses: packets from them
/// are outbound, packets to them inbound.
pub fn resolver_for(addrs: &[IpAddress]) -> (res: DirectionResolver)
    ensures
        res.locals() == address_texts(addrs@).to_set(),
{
    let mut texts: Vec<String> = Vec::new();
    let mut i: usize = 0;
    while i < addrs.len()
        invariant
            i <= addrs@.len(),
            texts@.len() == i,
            forall|j: int| 0 <= j < i ==> #[trigger] texts@[j]@ == ip_text(addrs@[j]@),
        decreases addrs@.len() - i,
    {
        texts.push(ip_to_string(&addrs[i]));
        i = i + 1;
    }
    proof {
        assert(texts@.map_values(|s: String| s@) =~= address_texts(addrs@));
    }
    DirectionResolver::new(texts)
}

/// `a / b` rounded toward zero, as Rust divides signed integers.
pub open spec fn div_toward_zero(a: int, b: int) -> int {
    if a >= 0 {
        a / b
    } else {
        -((-a) / b)
    }
}

/// The capture time of a frame in Unix epoch milliseconds, from its timestamp in
/// seconds and microseconds.
pub open spec fn frame_ms(tv_sec: i64, tv_usec: i64) -> int {
    tv_sec * 1000 + div_toward_zero(tv_usec as int, 1000)
}

/// The capture time of a frame in Unix epoch milliseconds.
pub fn frame_timestamp_ms(tv_sec: i64, tv_usec: i64) -> (res: i64)
    requires
        i64::MIN <= tv_sec * 1000 <= i64::MAX,
        i64::MIN <= frame_ms(tv_sec, tv_usec) <= i64::MAX,
    ensures
        res == frame_ms(tv_sec, tv_usec),
{
    let usec: i128 = tv_usec as i128;
    let ms: i128 = if usec >= 0 {
        usec / 1000
    } else {
        -((-usec) / 1000)
    };
    let total: i128 = (tv_sec as i128) * 1000 + ms;
    total as i64
}

/// Counters of a capture session.
#[derive(Debug, Default)]
pub struct CaptureStats {
    pub packets_parsed: u64,
    pub packets_dropped_unparsed: u64,
    pub bytes_seen: u64,
}

/// A copy of the counters of a capture session.
#[derive(Debug, Clone, Copy)]
pub struct CaptureStatsSnapshot {
    pub packets_parsed: u64,
    pub packets_dropped_unparsed: u64,
    pub bytes_seen: u64,
}

impl CaptureStats {
    /// The current values of the counters.
    pub fn snapshot(&self) -> (res: CaptureStatsSnapshot)
        ensures
            res.packets_parsed == self.packets_parsed,
            res.packets_dropped_unparsed == self.packets_dropped_unparsed,
            res.bytes_seen == self.bytes_seen,
    {
        CaptureStatsSnapshot {
            packets_parsed: self.packets_parsed,
            packets_dropped_unparsed: self.packets_dropped_unparsed,
            bytes_seen: self.bytes_seen,
        }
    }

    /// Counts one captured frame of `captured_len` bytes, parsed or dropped. The
    /// counters wrap around like the atomic counters of the capture thread.
    pub fn record_frame(&mut self, captured_len: u32, parsed: bool)
        ensures
            final(self).bytes_seen == old(self).bytes_seen.wrapping_add(captured_len as u64),
            final(self).packets_parsed == (if parsed {
                old(self).packets_parsed.wrapping_add(1)
            } else {
                old(self).packets_parsed
            }),
            final(self).packets_dropped_unparsed == (if parsed {
                old(self).packets_dropped_unparsed
            } else {
                old(self).packets_dropped_unparsed.wrapping_add(1)
            }),
    {
        self.bytes_seen = self.bytes_seen.wrapping_add(captured_len as u64);
        if parsed {
            self.packets_parsed = self.packets_parsed.wrapping_add(1);
        } else {
            self.packets_dropped_unparsed = self.packets_dropped_unparsed.wrapping_add(1);
        }
    }
}

/// Handles one captured frame: counts its bytes, parses it, and counts it as parsed or
/// dropped. Returns the event to hand on, if the frame parsed.
pub fn process_frame(
    stats: &mut CaptureStats,
    timestamp_ms: i64,
    captured_len: u32,
    data: &[u8],
    link: DataLink,
    resolver: &DirectionResolver,
) -> (res: Option<PacketEvent>)
    ensures
        parsed_as(res, timestamp_ms, captured_len, data@, link, resolver.locals()),
        link == DataLink::Ethernet && data@.len() < 14 ==> res is None,
        final(stats).bytes_seen == old(stats).bytes_seen.wrapping_add(captured_len as u64),
        final(stats).packets_parsed == (if res is Some {
            old(stats).packets_parsed.wrapping_add(1)
        } else {
            old(stats).packets_parsed
        }),
        final(stats).packets_dropped_unparsed == (if res is Some {
            old(stats).packets_dropped_unparsed
        } else {
            old(stats).packets_dropped_unparsed.wrapping_add(1)
        }),
{
    let event = parse_packet(timestamp_ms, captured_len, data, link, resolver);
    stats.record_frame(captured_len, event.is_some());
    event
}

/// What a read from the capture handle gave.
#[derive(Debug, Clone, Copy, PartialEq, Eq, Structural)]
pub enum ReadOutcome {
    /// A frame (handled by [`process_frame`]).
    Packet,
    /// The read timeout expired without traffic.
    TimeoutExpired,
    /// The source has no more packets.
    NoMorePackets,
    /// Any other read error.
    OtherError,
}

/// What the capture loop does next.
#[derive(Debug, Clone, Copy, PartialEq, Eq, Structural)]
pub enum LoopAction {
    /// Check the stop flag and read again.
    Continue,
    /// Leave the loop.
    Stop,
    /// Pause for [`ERROR_BACKOFF_MS`] milliseconds, then read again.
    BackOff,
}

/// The capture loop's reaction to a read: keep going after a frame or an idle timeout,
/// stop when the source is exhausted, and back off after any other error so that a
/// persisting error does not spin the thread.
pub fn next_action(outcome: ReadOutcome) -> (res: LoopAction)
    ensures
        res == (match outcome {
            ReadOutcome::Packet | ReadOutcome::TimeoutExpired => LoopAction::Continue,
            ReadOutcome::NoMorePackets => LoopAction::Stop,
            ReadOutcome::OtherError => LoopAction::BackOff,
        }),
{
    match outcome {
        ReadOutcome::Packet | ReadOutcome::TimeoutExpired => LoopAction::Continue,
        ReadOutcome::NoMorePackets => LoopAction::Stop,
        ReadOutcome::OtherError => LoopAction::BackOff,
    }
}

} // verus!
