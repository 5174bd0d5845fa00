//! Flow aggregation engine.
//!
//! Groups [`PacketEvent`]s into bidirectional flows keyed by
//! `(protocol, endpoint_a, endpoint_b)` where the endpoints are ordered so that
//! traffic in either direction lands in the same bucket.
//!
//! The "up" / "down" labels follow [`Direction`]:
//! - `Outbound` packet → `bytes_up` / `packets_up`
//! - `Inbound` packet → `bytes_down` / `packets_down`
//! - `Unknown` → counted as `up`
use vstd::prelude::*;

use crate::key::{key_id, key_of, FlowKey, KeyView};
use crate::ranking::{lemma_ranked_prefix_order, ranked_prefix, top_n_by_bytes, Ranked};
use crate::types::{Direction, FlowRecord, PacketEvent, Protocol};

verus! {

/// Default time after which a flow with no new packets is considered stale.
pub const DEFAULT_STALE_MS: i64 = 60_000;

/// The running counters of one flow.
#[derive(Debug)]
pub struct FlowState {
    /// The endpoint that sent the first packet attributed as outbound
    /// (or the source of the first packet when its direction is unknown).
    pub up_ip: String,
    pub up_port: Option<u16>,
    pub down_ip: String,
    pub down_port: Option<u16>,
    pub protocol: Protocol,
    pub bytes_up: u64,
    pub bytes_down: u64,
    pub packets_up: u64,
    pub packets_down: u64,
    pub first_seen: i64,
    pub last_seen: i64,
}

/// One row of the flow table: its key and its counters.
#[derive(Debug)]
pub struct FlowEntry {
    pub key: FlowKey,
    pub state: FlowState,
}

/// The flow table.
#[derive(Debug)]
pub struct FlowAggregator {
    flows: Vec<FlowEntry>,
    stale_after_ms: i64,
}

/// `a + b`, clamped at `u64::MAX` (`u64::saturating_add`).
pub open spec fn sat_add(a: u64, b: int) -> u64 {
    if a + b > u64::MAX {
        u64::MAX
    } else {
        (a + b) as u64
    }
}

/// `a - b`, clamped to the range of `i64` (`i64::saturating_sub`).
pub open spec fn sat_sub_i64(a: i64, b: i64) -> i64 {
    if a - b < i64::MIN {
        i64::MIN
    } else if a - b > i64::MAX {
        i64::MAX
    } else {
        (a - b) as i64
    }
}

/// The counters of a flow before its first packet is counted: the "up" side is the
/// source of that packet, unless the packet is inbound, in which case it is the destination.
pub open spec fn initial_state(e: PacketEvent) -> FlowState {
    if e.direction == Direction::Inbound {
        FlowState {
            up_ip: e.dst_ip,
            up_port: e.dst_port,
            down_ip: e.src_ip,
            down_port: e.src_port,
            protocol: e.protocol,
            bytes_up: 0,
            bytes_down: 0,
            packets_up: 0,
            packets_down: 0,
            first_seen: e.timestamp,
            last_seen: e.timestamp,
        }
    } else {
        FlowState {
            up_ip: e.src_ip,
            up_port: e.src_port,
            down_ip: e.dst_ip,
            down_port: e.dst_port,
            protocol: e.protocol,
            bytes_up: 0,
            bytes_down: 0,
            packets_up: 0,
            packets_down: 0,
            first_seen: e.timestamp,
            last_seen: e.timestamp,
        }
    }
}

/// Whether a packet counts as "up" for a flow: it does when it is sent from the flow's up
/// endpoint, it does not when sent from the down endpoint, and otherwise it does unless
/// the packet is inbound.
pub open spec fn is_up(e: PacketEvent, st: FlowState) -> bool {
    if e.src_ip@ == st.up_ip@ && e.src_port == st.up_port {
        true
    } else if e.src_ip@ == st.down_ip@ && e.src_port == st.down_port {
        false
    } else {
        e.direction != Direction::Inbound
    }
}

/// The counters of a flow after one more packet: its length and one packet are added to
/// the up or down side (saturating), and the seen-interval widens to its timestamp.
pub open spec fn absorb(st: FlowState, e: PacketEvent) -> FlowState {
    let up = is_up(e, st);
    FlowState {
        bytes_up: if up { sat_add(st.bytes_up, e.packet_length as int) } else { st.bytes_up },
        packets_up: if up { sat_add(st.packets_up, 1) } else { st.packets_up },
        bytes_down: if up { st.bytes_down } else { sat_add(st.bytes_down, e.packet_length as int) },
        packets_down: if up { st.packets_down } else { sat_add(st.packets_down, 1) },
        first_seen: if e.timestamp < st.first_seen { e.timestamp } else { st.first_seen },
        last_seen: if e.timestamp > st.last_seen { e.timestamp } else { st.last_seen },
        ..st
    }
}

/// The index of the entry whose key equals `k`, if any.
pub open spec fn find_key(entries: Seq<FlowEntry>, k: KeyView) -> Option<int> {
    if exists|i: int| 0 <= i < entries.len() && (#[trigger] entries[i]).key@ == k {
        Some(choose|i: int| 0 <= i < entries.len() && (#[trigger] entries[i]).key@ == k)
    } else {
        None
    }
}

/// The flow table after one packet: the packet's flow is updated in place, or a new flow
/// is appended when none has its key.
pub open spec fn ingest_result(entries: Seq<FlowEntry>, e: PacketEvent) -> Seq<FlowEntry> {
    match find_key(entries, key_of(e)@) {
        Some(i) => entries.update(
            i,
            FlowEntry { key: entries[i].key, state: absorb(entries[i].state, e) },
        ),
        None => entries.push(FlowEntry { key: key_of(e), state: absorb(initial_state(e), e) }),
    }
}

/// No two entries share a key.
pub open spec fn keys_distinct(entries: Seq<FlowEntry>) -> bool {
    forall|i: int, j: int|
        0 <= i < entries.len() && 0 <= j < entries.len() && i != j ==> (#[trigger] entries[i]).key@
            != (#[trigger] entries[j]).key@
}

/// An entry's counters belong to its key: same protocol, and the up/down endpoints are the
/// key's two endpoints.
pub open spec fn entry_consistent(en: FlowEntry) -> bool {
    let k = en.key@;
    let st = en.state;
    &&& st.protocol == k.protocol
    &&& ((st.up_ip@ == k.a_ip && st.up_port == k.a_port && st.down_ip@ == k.b_ip && st.down_port
        == k.b_port) || (st.up_ip@ == k.b_ip && st.up_port == k.b_port && st.down_ip@ == k.a_ip
        && st.down_port == k.a_port))
}

/// The invariant of a flow table.
pub open spec fn table_wf(entries: Seq<FlowEntry>) -> bool {
    &&& keys_distinct(entries)
    &&& forall|i: int| 0 <= i < entries.len() ==> entry_consistent(#[trigger] entries[i])
}

/// Total bytes of a flow's counters, saturating (`bytes_up + bytes_down`).
pub open spec fn state_total(st: FlowState) -> u64 {
    sat_add(st.bytes_up, st.bytes_down as int)
}

/// The exported record of a flow table entry: its id, its up endpoint as source,
/// its down endpoint as destination, its counters, and no enrichment.
pub open spec fn record_of(r: FlowRecord, en: FlowEntry) -> bool {
    &&& r.id@ == key_id(en.key@)
    &&& r.src_ip == en.state.up_ip
    &&& r.dst_ip == en.state.down_ip
    &&& r.hostname is None
    &&& r.country is None
    &&& r.src_port == en.state.up_port
    &&& r.dst_port == en.state.down_port
    &&& r.protocol == en.state.protocol
    &&& r.bytes_up == en.state.bytes_up
    &&& r.bytes_down == en.state.bytes_down
    &&& r.packets_up == en.state.packets_up
    &&& r.packets_down == en.state.packets_down
    &&& r.first_seen == en.state.first_seen
    &&& r.last_seen == en.state.last_seen
}

/// `records` is the export of `entries`, entry by entry.
pub open spec fn records_of(records: Seq<FlowRecord>, entries: Seq<FlowEntry>) -> bool {
    &&& records.len() == entries.len()
    &&& forall|i: int| 0 <= i < entries.len() ==> record_of(#[trigger] records[i], entries[i])
}

impl FlowState {
    /// A copy of these counters.
    pub fn copy(&self) -> (res: FlowState)
        ensures
            res == *self,
    {
        FlowState {
            up_ip: self.up_ip.clone(),
            up_port: self.up_port,
            down_ip: self.down_ip.clone(),
            down_port: self.down_port,
            protocol: self.protocol,
            bytes_up: self.bytes_up,
            bytes_down: self.bytes_down,
            packets_up: self.packets_up,
            packets_down: self.packets_down,
            first_seen: self.first_seen,
            last_seen: self.last_seen,
        }
    }

    /// The exported record of these counters under `key`.
    pub fn to_record(&self, key: &FlowKey) -> (res: FlowRecord)
        ensures
            record_of(res, FlowEntry { key: *key, state: *self }),
    {
        FlowRecord {
            id: key.id(),
            src_ip: self.up_ip.clone(),
            dst_ip: self.down_ip.clone(),
            hostname: None,
            country: None,
            src_port: self.up_port,
            dst_port: self.down_port,
            protocol: self.protocol,
            bytes_up: self.bytes_up,
            bytes_down: self.bytes_down,
            packets_up: self.packets_up,
            packets_down: self.packets_down,
            first_seen: self.first_seen,
            last_seen: self.last_seen,
        }
    }

    /// Total bytes in both directions (saturating).
    pub fn total_bytes(&self) -> (res: u64)
        ensures
            res == state_total(*self),
    {
        self.bytes_up.saturating_add(self.bytes_down)
    }
}

impl FlowEntry {
    /// A copy of this entry.
    pub fn copy(&self) -> (res: FlowEntry)
        ensures
            res == *self,
    {
        FlowEntry { key: self.key.copy(), state: self.state.copy() }
    }
}

fn initial_state_exec(e: &PacketEvent) -> (res: FlowState)
    ensures
        res == initial_state(*e),
{
    match e.direction {
        Direction::Inbound => FlowState {
            up_ip: e.dst_ip.clone(),
            up_port: e.dst_port,
            down_ip: e.src_ip.clone(),
            down_port: e.src_port,
            protocol: e.protocol,
            bytes_up: 0,
            bytes_down: 0,
            packets_up: 0,
            packets_down: 0,
            first_seen: e.timestamp,
            last_seen: e.timestamp,
        },
        _ => FlowState {
            up_ip: e.src_ip.clone(),
            up_port: e.src_port,
            down_ip: e.dst_ip.clone(),
            down_port: e.dst_port,
            protocol: e.protocol,
            bytes_up: 0,
            bytes_down: 0,
            packets_up: 0,
            packets_down: 0,
            first_seen: e.timestamp,
            last_seen: e.timestamp,
        },
    }
}

fn same_port(x: Option<u16>, y: Option<u16>) -> (res: bool)
    ensures
        res == (x == y),
{
    match (x, y) {
        (None, None) => true,
        (Some(a), Some(b)) => a == b,
        _ => false,
    }
}

/// Whether `event` counts as "up" for an existing flow: compared by source endpoint
/// identity, because reply packets carry the opposite direction of the first packet.
pub fn packet_is_up(event: &PacketEvent, state: &FlowState) -> (res: bool)
    ensures
        res == is_up(*event, *state),
{
    let src_matches_up = event.src_ip == state.up_ip && same_port(event.src_port, state.up_port);
    if src_matches_up {
        return true;
    }
    let src_matches_down = event.src_ip == state.down_ip && same_port(
        event.src_port,
        state.down_port,
    );
    if src_matches_down {
        return false;
    }
    match event.direction {
        Direction::Inbound => false,
        _ => true,
    }
}

fn absorb_exec(st: &mut FlowState, event: &PacketEvent)
    ensures
        *final(st) == absorb(*old(st), *event),
{
    let len = event.packet_length as u64;
    let up = packet_is_up(event, st);
    if up {
        st.bytes_up = st.bytes_up.saturating_add(len);
        st.packets_up = st.packets_up.saturating_add(1);
    } else {
        st.bytes_down = st.bytes_down.saturating_add(len);
        st.packets_down = st.packets_down.saturating_add(1);
    }
    if event.timestamp < st.first_seen {
        st.first_seen = event.timestamp;
    }
    if event.timestamp > st.last_seen {
        st.last_seen = event.timestamp;
    }
}

proof fn lemma_new_entry_consistent(e: PacketEvent)
    ensures
        entry_consistent(FlowEntry { key: key_of(e), state: absorb(initial_state(e), e) }),
{
}

/// `r` is a reply to `e`: same protocol, endpoints swapped.
pub open spec fn is_reply(e: PacketEvent, r: PacketEvent) -> bool {
    &&& r.protocol == e.protocol
    &&& r.src_ip@ == e.dst_ip@
    &&& r.dst_ip@ == e.src_ip@
    &&& r.src_port == e.dst_port
    &&& r.dst_port == e.src_port
}

/// The two endpoints of a packet differ.
pub open spec fn distinct_endpoints(e: PacketEvent) -> bool {
    !(e.src_ip@ == e.dst_ip@ && e.src_port == e.dst_port)
}

/// After one packet, the table is well formed and holds its flow at a known index.
proof fn lemma_ingest_places(entries: Seq<FlowEntry>, e: PacketEvent) -> (i: int)
    requires
        table_wf(entries),
    ensures
        table_wf(ingest_result(entries, e)),
        0 <= i < ingest_result(entries, e).len(),
        ingest_result(entries, e)[i].key@ == key_of(e)@,
        find_key(ingest_result(entries, e), key_of(e)@) == Some(i),
{
    let k = key_of(e)@;
    let t = ingest_result(entries, e);
    match find_key(entries, k) {
        Some(j) => {
            assert(entries[j].key@ == k);
            assert(t[j].state == absorb(entries[j].state, e));
            assert forall|a: int| 0 <= a < t.len() implies entry_consistent(#[trigger] t[a]) by {
                assert(entry_consistent(entries[a]));
            }
            assert forall|a: int, b: int|
                0 <= a < t.len() && 0 <= b < t.len() && a != b implies (#[trigger] t[a]).key@
                != (#[trigger] t[b]).key@ by {
                assert(t[a].key == entries[a].key);
                assert(t[b].key == entries[b].key);
            }
            assert(t[j].key@ == k);
            let c = choose|c: int| 0 <= c < t.len() && (#[trigger] t[c]).key@ == k;
            assert(c == j);
            j
        },
        None => {
            let n = entries.len() as int;
            lemma_new_entry_consistent(e);
            assert forall|a: int| 0 <= a < t.len() implies entry_consistent(#[trigger] t[a]) by {
                if a < n {
                    assert(t[a] == entries[a]);
                }
            }
            assert forall|a: int, b: int|
                0 <= a < t.len() && 0 <= b < t.len() && a != b implies (#[trigger] t[a]).key@
                != (#[trigger] t[b]).key@ by {
                if a < n && b < n {
                    assert(t[a] == entries[a]);
                    assert(t[b] == entries[b]);
                } else if a < n {
                    assert(t[a] == entries[a]);
                    assert(entries[a].key@ != k);
                } else if b < n {
                    assert(t[b] == entries[b]);
                    assert(entries[b].key@ != k);
                }
            }
            assert(t[n].key@ == k);
            let c = choose|c: int| 0 <= c < t.len() && (#[trigger] t[c]).key@ == k;
            assert(c == n);
            n
        },
    }
}

/// Request and reply share one flow and are counted on opposite sides of it: in a
/// well-formed table, a reply to a packet opens no new flow, updates the packet's flow,
/// and counts up exactly when the packet counted down.
pub proof fn lemma_reply_same_flow(entries: Seq<FlowEntry>, e: PacketEvent, r: PacketEvent)
    requires
        table_wf(entries),
        is_reply(e, r),
        distinct_endpoints(e),
    ensures
        ({
            let t1 = ingest_result(entries, e);
            let t2 = ingest_result(t1, r);
            &&& t2.len() == t1.len()
            &&& find_key(t1, key_of(r)@) == find_key(t1, key_of(e)@)
            &&& find_key(t1, key_of(e)@) matches Some(i) && t2 == t1.update(
                i,
                FlowEntry { key: t1[i].key, state: absorb(t1[i].state, r) },
            ) && is_up(r, t1[i].state) == !is_up(e, t1[i].state)
        }),
{
    crate::key::lemma_swapped_endpoints_same_key(e, r);
    let i = lemma_ingest_places(entries, e);
    let t1 = ingest_result(entries, e);
    assert(key_of(r)@ == key_of(e)@);
    assert(entry_consistent(t1[i]));
}

/// The bytes of all flows of a table, counted once on each side.
pub open spec fn table_bytes(entries: Seq<FlowEntry>) -> int
    decreases entries.len(),
{
    if entries.len() == 0 {
        0
    } else {
        table_bytes(entries.drop_last()) + entries.last().state.bytes_up
            + entries.last().state.bytes_down
    }
}

proof fn lemma_table_bytes_update(entries: Seq<FlowEntry>, i: int, x: FlowEntry)
    requires
        0 <= i < entries.len(),
    ensures
        table_bytes(entries.update(i, x)) == table_bytes(entries) - entries[i].state.bytes_up
            - entries[i].state.bytes_down + x.state.bytes_up + x.state.bytes_down,
    decreases entries.len(),
{
    let t = entries.update(i, x);
    if i == entries.len() - 1 {
        assert(t.drop_last() =~= entries.drop_last());
    } else {
        assert(t.drop_last() =~= entries.drop_last().update(i, x));
        lemma_table_bytes_update(entries.drop_last(), i, x);
    }
}

/// Every byte is counted once: when no counter reaches its limit, one packet adds
/// exactly its length to the bytes of the table.
pub proof fn lemma_ingest_counts_bytes(entries: Seq<FlowEntry>, e: PacketEvent)
    requires
        forall|i: int|
            0 <= i < entries.len() ==> (#[trigger] entries[i]).state.bytes_up + e.packet_length
                <= u64::MAX && entries[i].state.bytes_down + e.packet_length <= u64::MAX,
    ensures
        table_bytes(ingest_result(entries, e)) == table_bytes(entries) + e.packet_length,
{
    let k = key_of(e)@;
    match find_key(entries, k) {
        Some(j) => {
            assert(entries[j].key@ == k);
            lemma_table_bytes_update(
                entries,
                j,
                FlowEntry { key: entries[j].key, state: absorb(entries[j].state, e) },
            );
        },
        None => {
            let t = ingest_result(entries, e);
            assert(t.drop_last() =~= entries);
        },
    }
}

/// The table after a sequence of packets, one after the other.
pub open spec fn ingest_all(entries: Seq<FlowEntry>, events: Seq<PacketEvent>) -> Seq<FlowEntry>
    decreases events.len(),
{
    if events.len() == 0 {
        entries
    } else {
        ingest_result(ingest_all(entries, events.drop_last()), events.last())
    }
}

/// The keys of the flows of a table.
pub open spec fn table_keys(entries: Seq<FlowEntry>) -> Set<KeyView> {
    entries.map_values(|en: FlowEntry| en.key@).to_set()
}

/// The keys of a sequence of packets.
pub open spec fn event_keys(events: Seq<PacketEvent>) -> Set<KeyView> {
    events.map_values(|e: PacketEvent| key_of(e)@).to_set()
}

/// One packet adds its key to the keys of a well-formed table, and nothing else.
proof fn lemma_ingest_keys(entries: Seq<FlowEntry>, e: PacketEvent)
    requires
        table_wf(entries),
    ensures
        table_wf(ingest_result(entries, e)),
        table_keys(ingest_result(entries, e)) == table_keys(entries).insert(key_of(e)@),
{
    let k = key_of(e)@;
    let t = ingest_result(entries, e);
    let _ = lemma_ingest_places(entries, e);
    let f = |en: FlowEntry| en.key@;
    match find_key(entries, k) {
        Some(j) => {
            assert(entries[j].key@ == k);
            assert(t.map_values(f) =~= entries.map_values(f));
            assert(entries.map_values(f)[j] == k);
            assert(table_keys(entries).contains(k));
            assert(table_keys(entries).insert(k) =~= table_keys(entries));
        },
        None => {
            assert(t.map_values(f) =~= entries.map_values(f).push(k));
            entries.map_values(f).lemma_push_to_set_commute(k);
        },
    }
}

/// Flows are the distinct keys of the traffic: after a sequence of packets into an empty
/// table, the table holds one flow per distinct (protocol, endpoint pair) of the packets,
/// so the flow count is the number of distinct keys.
pub proof fn lemma_flows_are_distinct_keys(events: Seq<PacketEvent>)
    ensures
        table_wf(ingest_all(Seq::empty(), events)),
        table_keys(ingest_all(Seq::empty(), events)) == event_keys(events),
        ingest_all(Seq::empty(), events).len() == event_keys(events).len(),
    decreases events.len(),
{
    let f = |en: FlowEntry| en.key@;
    let g = |e: PacketEvent| key_of(e)@;
    let t = ingest_all(Seq::empty(), events);
    if events.len() == 0 {
        assert(t.map_values(f) =~= Seq::<KeyView>::empty());
        assert(events.map_values(g) =~= Seq::<KeyView>::empty());
    } else {
        let rest = events.drop_last();
        lemma_flows_are_distinct_keys(rest);
        lemma_ingest_keys(ingest_all(Seq::empty(), rest), events.last());
        assert(events.map_values(g) =~= rest.map_values(g).push(key_of(events.last())@));
        rest.map_values(g).lemma_push_to_set_commute(key_of(events.last())@);
    }
    assert(t.map_values(f).no_duplicates()) by {
        assert forall|a: int, b: int|
            0 <= a < t.map_values(f).len() && 0 <= b < t.map_values(f).len() && a != b implies t.map_values(f)[a]
            != t.map_values(f)[b] by {
            assert(t[a].key@ != t[b].key@);
        }
    }
    t.map_values(f).unique_seq_to_set();
}

impl FlowAggregator {
    /// The flow table, in insertion order.
    pub closed spec fn entries(&self) -> Seq<FlowEntry> {
        self.flows@
    }

    /// The staleness threshold in milliseconds.
    pub closed spec fn stale_ms(&self) -> i64 {
        self.stale_after_ms
    }

    /// The aggregator's invariant: distinct keys, counters consistent with keys.
    pub open spec fn wf(&self) -> bool {
        table_wf(self.entries())
    }

    /// An empty aggregator with the default staleness threshold.
    pub fn new() -> (res: Self)
        ensures
            res.wf(),
            res.entries() == Seq::<FlowEntry>::empty(),
            res.stale_ms() == DEFAULT_STALE_MS,
    {
        Self::with_stale_after_ms(DEFAULT_STALE_MS)
    }

    /// An empty aggregator with the given staleness threshold.
    pub fn with_stale_after_ms(stale_after_ms: i64) -> (res: Self)
        ensures
            res.wf(),
            res.entries() == Seq::<FlowEntry>::empty(),
            res.stale_ms() == stale_after_ms,
    {
        FlowAggregator { flows: Vec::new(), stale_after_ms }
    }

    /// The number of flows in the table.
    pub fn flow_count(&self) -> (res: usize)
        ensures
            res == self.entries().len(),
    {
        self.flows.len()
    }

    /// Number of milliseconds after which a flow is considered stale.
    pub fn stale_after_ms(&self) -> (res: i64)
        ensures
            res == self.stale_ms(),
    {
        self.stale_after_ms
    }

    /// Update the stale-after threshold (the next cleanup uses it).
    pub fn set_stale_after_ms(&mut self, ms: i64)
        ensures
            final(self).stale_ms() == ms,
            final(self).entries() == old(self).entries(),
    {
        self.stale_after_ms = ms;
    }

    /// The index of the flow with key `key`, if any.
    fn find(&self, key: &FlowKey) -> (res: Option<usize>)
        requires
            self.wf(),
        ensures
            match res {
                Some(i) => find_key(self.entries(), key@) == Some(i as int),
                None => find_key(self.entries(), key@) is None,
            },
    {
        let n = self.flows.len();
        let mut i: usize = 0;
        while i < n
            invariant
                n == self.flows@.len(),
                i <= n,
                table_wf(self.flows@),
                forall|j: int| 0 <= j < i ==> (#[trigger] self.flows@[j]).key@ != key@,
            decreases n - i,
        {
            if self.flows[i].key.same_as(key) {
                proof {
                    let ghost es = self.flows@;
                    assert(es[i as int].key@ == key@);
                    let c = choose|c: int| 0 <= c < es.len() && (#[trigger] es[c]).key@ == key@;
                    if c != i {
                        assert(es[c].key@ != es[i as int].key@);
                    }
                }
                return Some(i);
            }
            i = i + 1;
        }
        None
    }

    /// Ingest one parsed packet event into the aggregator.
    pub fn ingest(&mut self, event: &PacketEvent)
        requires
            old(self).wf(),
        ensures
            final(self).wf(),
            final(self).entries() == ingest_result(old(self).entries(), *event),
            final(self).stale_ms() == old(self).stale_ms(),
    {
        let key = FlowKey::from_packet(event);
        match self.find(&key) {
            Some(i) => {
                let ghost old_entries = self.flows@;
                let mut slot = FlowEntry {
                    key: FlowKey {
                        protocol: Protocol::Other,
                        a_ip: String::new(),
                        a_port: None,
                        b_ip: String::new(),
                        b_port: None,
                    },
                    state: initial_state_exec(event),
                };
                self.flows.set_and_swap(i, &mut slot);
                absorb_exec(&mut slot.state, event);
                self.flows.set(i, slot);
                proof {
                    let ghost es = self.flows@;
                    assert(es =~= old_entries.update(
                        i as int,
                        FlowEntry {
                            key: old_entries[i as int].key,
                            state: absorb(old_entries[i as int].state, *event),
                        },
                    ));
                    assert forall|j: int| 0 <= j < es.len() implies entry_consistent(
                        #[trigger] es[j],
                    ) by {
                        if j != i {
                            assert(es[j] == old_entries[j]);
                        }
                    }
                    assert forall|a: int, b: int|
                        0 <= a < es.len() && 0 <= b < es.len() && a != b implies (#[trigger] es[a]).key@
                        != (#[trigger] es[b]).key@ by {
                        assert(es[a].key == old_entries[a].key);
                        assert(es[b].key == old_entries[b].key);
                    }
                }
            },
            None => {
                let mut st = initial_state_exec(event);
                absorb_exec(&mut st, event);
                let ghost old_entries = self.flows@;
                self.flows.push(FlowEntry { key, state: st });
                proof {
                    lemma_new_entry_consistent(*event);
                    let ghost es = self.flows@;
                    assert forall|j: int| 0 <= j < es.len() implies entry_consistent(
                        #[trigger] es[j],
                    ) by {
                        if j < old_entries.len() {
                            assert(es[j] == old_entries[j]);
                        }
                    }
                    assert forall|a: int, b: int|
                        0 <= a < es.len() && 0 <= b < es.len() && a != b implies (#[trigger] es[a]).key@
                        != (#[trigger] es[b]).key@ by {
                        if a == old_entries.len() {
                            assert(es[b] == old_entries[b]);
                        } else if b == old_entries.len() {
                            assert(es[a] == old_entries[a]);
                        } else {
                            assert(es[a] == old_entries[a]);
                            assert(es[b] == old_entries[b]);
                        }
                    }
                }
            },
        }
    }

    /// Snapshot all current flows as records, in table order.
    pub fn snapshot(&self) -> (res: Vec<FlowRecord>)
        ensures
            records_of(res@, self.entries()),
    {
        let n = self.flows.len();
        let mut out: Vec<FlowRecord> = Vec::new();
        let mut i: usize = 0;
        while i < n
            invariant
                n == self.flows@.len(),
                i <= n,
                out@.len() == i,
                forall|j: int| 0 <= j < i ==> record_of(#[trigger] out@[j], self.flows@[j]),
            decreases n - i,
        {
            let r = self.flows[i].state.to_record(&self.flows[i].key);
            out.push(r);
            i = i + 1;
        }
        out
    }

    /// Snapshot the top `n` flows by total bytes (largest first).
    pub fn snapshot_top(&self, n: usize) -> (res: Vec<FlowRecord>)
        ensures
            exists|all: Seq<FlowRecord>|
                records_of(all, self.entries()) && #[trigger] ranked_prefix(all, res@, n as int)
                    && forall|k: int, i: int|
                    0 <= k < all.len() && !res@.contains(#[trigger] all[k]) && 0 <= i < res@.len()
                        ==> sat_add((#[trigger] res@[i]).bytes_up, res@[i].bytes_down as int)
                        >= sat_add(all[k].bytes_up, all[k].bytes_down as int),
            forall|i: int, j: int|
                0 <= i < j < res@.len() ==> sat_add(
                    (#[trigger] res@[i]).bytes_up,
                    res@[i].bytes_down as int,
                ) >= sat_add((#[trigger] res@[j]).bytes_up, res@[j].bytes_down as int),
    {
        let all = self.snapshot();
        let ghost all_view = all@;
        let res = top_n_by_bytes(all, n);
        proof {
            lemma_top_flows_largest_first(all_view, res@, n as int);
        }
        assert(records_of(all_view, self.entries()) && ranked_prefix(all_view, res@, n as int));
        res
    }

    /// The lower bound of `last_seen` that survives a cleanup at `now_ms`.
    pub open spec fn cutoff(&self, now_ms: i64) -> i64 {
        sat_sub_i64(now_ms, self.stale_ms())
    }

    /// Drop flows whose `last_seen` is older than `now_ms - stale_after_ms`
    /// (saturating). Returns the number of removed flows.
    pub fn cleanup_stale(&mut self, now_ms: i64) -> (removed: usize)
        requires
            old(self).wf(),
        ensures
            final(self).wf(),
            final(self).entries() == old(self).entries().filter(
                |en: FlowEntry| en.state.last_seen >= old(self).cutoff(now_ms),
            ),
            removed == old(self).entries().len() - final(self).entries().len(),
            final(self).stale_ms() == old(self).stale_ms(),
    {
        let cutoff = saturating_sub_i64(now_ms, self.stale_after_ms);
        let ghost pred = |en: FlowEntry| en.state.last_seen >= cutoff;
        let n = self.flows.len();
        let mut kept: Vec<FlowEntry> = Vec::new();
        let mut i: usize = 0;
        while i < n
            invariant
                n == self.flows@.len(),
                i <= n,
                table_wf(self.flows@),
                pred == (|en: FlowEntry| en.state.last_seen >= cutoff),
                kept@ == self.flows@.take(i as int).filter(pred),
                kept@.len() <= i,
                forall|j: int|
                    0 <= j < kept@.len() ==> exists|m: int|
                        0 <= m < i && #[trigger] kept@[j] == #[trigger] self.flows@[m],
                table_wf(kept@),
            decreases n - i,
        {
            let ghost before = kept@;
            let ghost flows = self.flows@;
            proof {
                assert(flows.take(i + 1) =~= flows.take(i as int).push(flows[i as int]));
                flows.take(i as int).lemma_filter_push(flows[i as int], pred);
            }
            if self.flows[i].state.last_seen >= cutoff {
                let en = self.flows[i].copy();
                kept.push(en);
                proof {
                    let ks = kept@;
                    assert(ks[before.len() as int] == flows[i as int]);
                    assert forall|j: int| 0 <= j < ks.len() implies exists|m: int|
                        0 <= m < i + 1 && #[trigger] ks[j] == #[trigger] flows[m] by {
                        if j < before.len() {
                            assert(ks[j] == before[j]);
                            let m = choose|m: int| 0 <= m < i && before[j] == #[trigger] flows[m];
                            assert(ks[j] == flows[m]);
                        } else {
                            assert(ks[j] == flows[i as int]);
                        }
                    }
                    assert forall|a: int, b: int|
                        0 <= a < ks.len() && 0 <= b < ks.len() && a != b implies (#[trigger] ks[a]).key@
                        != (#[trigger] ks[b]).key@ by {
                        if a < before.len() && b < before.len() {
                            assert(ks[a] == before[a]);
                            assert(ks[b] == before[b]);
                        } else if a < before.len() {
                            assert(ks[a] == before[a]);
                            let m = choose|m: int| 0 <= m < i && before[a] == #[trigger] flows[m];
                            assert(flows[m].key@ != flows[i as int].key@);
                        } else {
                            assert(ks[b] == before[b]);
                            let m = choose|m: int| 0 <= m < i && before[b] == #[trigger] flows[m];
                            assert(flows[m].key@ != flows[i as int].key@);
                        }
                    }
                    assert forall|j: int| 0 <= j < ks.len() implies entry_consistent(
                        #[trigger] ks[j],
                    ) by {
                        if j < before.len() {
                            assert(ks[j] == before[j]);
                        }
                    }
                }
            } else {
                proof {
                    assert forall|j: int| 0 <= j < kept@.len() implies exists|m: int|
                        0 <= m < i + 1 && #[trigger] kept@[j] == #[trigger] flows[m] by {
                        let m = choose|m: int| 0 <= m < i && kept@[j] == #[trigger] flows[m];
                        assert(kept@[j] == flows[m]);
                    }
                }
            }
            i = i + 1;
        }
        proof {
            assert(self.flows@.take(n as int) =~= self.flows@);
        }
        let before = self.flows.len();
        self.flows = kept;
        before - self.flows.len()
    }

    /// Reset the aggregator (a new capture session starts empty).
    pub fn clear(&mut self)
        ensures
            final(self).wf(),
            final(self).entries() == Seq::<FlowEntry>::empty(),
            final(self).stale_ms() == old(self).stale_ms(),
    {
        self.flows.clear();
    }
}

/// `a - b` clamped to the range of `i64`.
pub fn saturating_sub_i64(a: i64, b: i64) -> (res: i64)
    ensures
        res == sat_sub_i64(a, b),
{
    if b >= 0 {
        if a < i64::MIN + b {
            i64::MIN
        } else {
            a - b
        }
    } else {
        if a > i64::MAX + b {
            i64::MAX
        } else {
            a - b
        }
    }
}

impl Default for FlowAggregator {
    fn default() -> (res: Self)
        ensures
            res.wf(),
            res.entries() == Seq::<FlowEntry>::empty(),
            res.stale_ms() == DEFAULT_STALE_MS,
    {
        Self::new()
    }
}

impl Ranked for FlowRecord {
    open spec fn rank(&self) -> u64 {
        sat_add(self.bytes_up, self.bytes_down as int)
    }

    fn rank_exec(&self) -> (res: u64) {
        self.bytes_up.saturating_add(self.bytes_down)
    }
}

/// The top flows come largest first by bytes in both directions (saturating), hold `n`
/// flows (all of them when there are fewer), and no flow left out carries more bytes than
/// one listed.
pub proof fn lemma_top_flows_largest_first(all: Seq<FlowRecord>, res: Seq<FlowRecord>, n: int)
    requires
        0 <= n,
        ranked_prefix(all, res, n),
    ensures
        forall|i: int, j: int|
            0 <= i < j < res.len() ==> sat_add((#[trigger] res[i]).bytes_up, res[i].bytes_down as int)
                >= sat_add((#[trigger] res[j]).bytes_up, res[j].bytes_down as int),
        res.len() == (if n < all.len() {
            n
        } else {
            all.len() as int
        }),
        forall|k: int, i: int|
            0 <= k < all.len() && !res.contains(#[trigger] all[k]) && 0 <= i < res.len()
                ==> sat_add((#[trigger] res[i]).bytes_up, res[i].bytes_down as int) >= sat_add(
                all[k].bytes_up,
                all[k].bytes_down as int,
            ),
{
    lemma_ranked_prefix_order(all, res, n);
}

} // verus!
