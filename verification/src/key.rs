//! Canonical bidirectional flow key.
//!
//! Two packets with swapped (src, dst) endpoints map to the same key, so the
//! aggregator buckets request and reply traffic together.
use vstd::prelude::*;

use crate::text::{compare_text, decimal, push_char, push_decimal, push_text, text_lt};
use crate::types::{PacketEvent, Protocol};

verus! {

/// The canonical key of a flow: the protocol and the two endpoints,
/// with endpoint `a` ordered before endpoint `b`.
#[derive(Debug)]
pub struct FlowKey {
    pub protocol: Protocol,
    pub a_ip: String,
    pub a_port: Option<u16>,
    pub b_ip: String,
    pub b_port: Option<u16>,
}

/// The mathematical value of a [`FlowKey`]: address texts as character sequences.
pub struct KeyView {
    pub protocol: Protocol,
    pub a_ip: Seq<char>,
    pub a_port: Option<u16>,
    pub b_ip: Seq<char>,
    pub b_port: Option<u16>,
}

impl View for FlowKey {
    type V = KeyView;

    open spec fn view(&self) -> KeyView {
        KeyView {
            protocol: self.protocol,
            a_ip: self.a_ip@,
            a_port: self.a_port,
            b_ip: self.b_ip@,
            b_port: self.b_port,
        }
    }
}

/// `None` sorts before every port, ports sort numerically.
pub open spec fn port_le(x: Option<u16>, y: Option<u16>) -> bool {
    match (x, y) {
        (None, _) => true,
        (Some(_), None) => false,
        (Some(a), Some(b)) => a <= b,
    }
}

/// The order of endpoints `(address text, port)`: address first (byte-wise), then port.
pub open spec fn endpoint_le(ip1: Seq<char>, p1: Option<u16>, ip2: Seq<char>, p2: Option<u16>) -> bool {
    text_lt(ip1, ip2) || (ip1 == ip2 && port_le(p1, p2))
}

/// The key of a packet: its endpoints in canonical order.
pub open spec fn key_of(e: PacketEvent) -> FlowKey {
    if endpoint_le(e.src_ip@, e.src_port, e.dst_ip@, e.dst_port) {
        FlowKey {
            protocol: e.protocol,
            a_ip: e.src_ip,
            a_port: e.src_port,
            b_ip: e.dst_ip,
            b_port: e.dst_port,
        }
    } else {
        FlowKey {
            protocol: e.protocol,
            a_ip: e.dst_ip,
            a_port: e.dst_port,
            b_ip: e.src_ip,
            b_port: e.src_port,
        }
    }
}

/// The lower-case name of a protocol, as used in flow ids and messages.
pub open spec fn protocol_name(p: Protocol) -> Seq<char> {
    match p {
        Protocol::Tcp => "tcp"@,
        Protocol::Udp => "udp"@,
        Protocol::Icmp => "icmp"@,
        Protocol::Other => "other"@,
    }
}

/// A port in a flow id: its decimal value, or `-` when absent.
pub open spec fn port_text(p: Option<u16>) -> Seq<char> {
    match p {
        Some(v) => decimal(v as nat),
        None => seq!['-'],
    }
}

/// The textual id of a key: `proto:a_ip:a_port-b_ip:b_port`.
pub open spec fn key_id(k: KeyView) -> Seq<char> {
    protocol_name(k.protocol) + seq![':'] + k.a_ip + seq![':'] + port_text(k.a_port) + seq!['-']
        + k.b_ip + seq![':'] + port_text(k.b_port)
}

/// Appends the lower-case protocol name.
pub fn push_protocol_name(s: &mut String, p: Protocol)
    ensures
        final(s)@ == old(s)@ + protocol_name(p),
{
    match p {
        Protocol::Tcp => push_text(s, "tcp"),
        Protocol::Udp => push_text(s, "udp"),
        Protocol::Icmp => push_text(s, "icmp"),
        Protocol::Other => push_text(s, "other"),
    }
}

fn push_port_text(s: &mut String, p: Option<u16>)
    ensures
        final(s)@ == old(s)@ + port_text(p),
{
    match p {
        Some(v) => push_decimal(s, v as u64),
        None => push_char(s, '-'),
    }
}

fn port_le_exec(x: Option<u16>, y: Option<u16>) -> (res: bool)
    ensures
        res == port_le(x, y),
{
    match (x, y) {
        (None, _) => true,
        (Some(_), None) => false,
        (Some(a), Some(b)) => a <= b,
    }
}

fn ports_equal(x: Option<u16>, y: Option<u16>) -> (res: bool)
    ensures
        res == (x == y),
{
    match (x, y) {
        (None, None) => true,
        (Some(a), Some(b)) => a == b,
        _ => false,
    }
}

impl FlowKey {
    /// The canonical key of a packet.
    pub fn from_packet(event: &PacketEvent) -> (res: Self)
        ensures
            res == key_of(*event),
    {
        let (lt, eq) = compare_text(event.src_ip.as_str(), event.dst_ip.as_str());
        let src_first = lt || (eq && port_le_exec(event.src_port, event.dst_port));
        if src_first {
            FlowKey {
                protocol: event.protocol,
                a_ip: event.src_ip.clone(),
                a_port: event.src_port,
                b_ip: event.dst_ip.clone(),
                b_port: event.dst_port,
            }
        } else {
            FlowKey {
                protocol: event.protocol,
                a_ip: event.dst_ip.clone(),
                a_port: event.dst_port,
                b_ip: event.src_ip.clone(),
                b_port: event.src_port,
            }
        }
    }

    /// The textual id `proto:a_ip:a_port-b_ip:b_port` (absent ports written `-`).
    pub fn id(&self) -> (res: String)
        ensures
            res@ == key_id(self@),
    {
        let mut s = String::new();
        push_protocol_name(&mut s, self.protocol);
        push_char(&mut s, ':');
        push_text(&mut s, self.a_ip.as_str());
        push_char(&mut s, ':');
        push_port_text(&mut s, self.a_port);
        push_char(&mut s, '-');
        push_text(&mut s, self.b_ip.as_str());
        push_char(&mut s, ':');
        push_port_text(&mut s, self.b_port);
        assert(s@ =~= key_id(self@));
        s
    }

    /// Whether two keys are equal as values (same protocol, texts and ports).
    pub fn same_as(&self, other: &FlowKey) -> (res: bool)
        ensures
            res == (self@ == other@),
    {
        self.protocol == other.protocol && self.a_ip == other.a_ip && ports_equal(
            self.a_port,
            other.a_port,
        ) && self.b_ip == other.b_ip && ports_equal(self.b_port, other.b_port)
    }

    /// A copy of this key.
    pub fn copy(&self) -> (res: FlowKey)
        ensures
            res == *self,
    {
        FlowKey {
            protocol: self.protocol,
            a_ip: self.a_ip.clone(),
            a_port: self.a_port,
            b_ip: self.b_ip.clone(),
            b_port: self.b_port,
        }
    }
}

impl PartialEq for FlowKey {
    fn eq(&self, other: &FlowKey) -> (res: bool) {
        self.same_as(other)
    }
}

impl vstd::std_specs::cmp::PartialEqSpecImpl for FlowKey {
    open spec fn obeys_eq_spec() -> bool {
        true
    }

    open spec fn eq_spec(&self, other: &FlowKey) -> bool {
        self@ == other@
    }
}

impl Eq for FlowKey {}

/// The byte-wise order of texts is a strict order: irreflexive.
pub proof fn lemma_bytes_lt_irreflexive(a: Seq<u8>)
    ensures
        !crate::text::bytes_lt(a, a),
    decreases a.len(),
{
    if a.len() > 0 {
        lemma_bytes_lt_irreflexive(a.drop_first());
    }
}

/// The byte-wise order of texts is a strict order: asymmetric.
pub proof fn lemma_bytes_lt_asymmetric(a: Seq<u8>, b: Seq<u8>)
    ensures
        !(crate::text::bytes_lt(a, b) && crate::text::bytes_lt(b, a)),
    decreases a.len(),
{
    if a.len() > 0 && b.len() > 0 && a[0] == b[0] {
        lemma_bytes_lt_asymmetric(a.drop_first(), b.drop_first());
    }
}

/// Swapping the endpoints of a packet does not change its key: request and reply
/// traffic share one flow.
pub proof fn lemma_swapped_endpoints_same_key(e: PacketEvent, r: PacketEvent)
    requires
        r.protocol == e.protocol,
        r.src_ip@ == e.dst_ip@,
        r.dst_ip@ == e.src_ip@,
        r.src_port == e.dst_port,
        r.dst_port == e.src_port,
    ensures
        key_of(r)@ == key_of(e)@,
        key_id(key_of(r)@) == key_id(key_of(e)@),
{
    let a = vstd::utf8::encode_utf8(e.src_ip@);
    let b = vstd::utf8::encode_utf8(e.dst_ip@);
    lemma_bytes_lt_asymmetric(a, b);
    lemma_bytes_lt_irreflexive(a);
    vstd::utf8::encode_utf8_decode_utf8(e.src_ip@);
    vstd::utf8::encode_utf8_decode_utf8(e.dst_ip@);
    if !text_lt(e.src_ip@, e.dst_ip@) && !text_lt(e.dst_ip@, e.src_ip@) && e.src_ip@ != e.dst_ip@ {
        // distinct texts have distinct encodings, and distinct byte strings are ordered
        lemma_bytes_lt_total(a, b);
    }
}

/// Any two distinct byte strings are ordered one way or the other.
pub proof fn lemma_bytes_lt_total(a: Seq<u8>, b: Seq<u8>)
    requires
        a != b,
    ensures
        crate::text::bytes_lt(a, b) || crate::text::bytes_lt(b, a),
    decreases a.len(),
{
    if a.len() > 0 && b.len() > 0 && a[0] == b[0] {
        if a.drop_first() == b.drop_first() {
            assert(a =~= seq![a[0]] + a.drop_first());
            assert(b =~= seq![b[0]] + b.drop_first());
        }
        lemma_bytes_lt_total(a.drop_first(), b.drop_first());
    } else if a.len() == 0 && b.len() == 0 {
        assert(a =~= b);
    }
}

} // verus!
