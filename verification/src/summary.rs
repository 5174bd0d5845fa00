//! Aggregate views over the flow table for dashboard rendering.
//!
//! Counters cover lifetime traffic of the current session, not per-tick rates.
use vstd::prelude::*;

use crate::aggregator::{
    find_key, ingest_result, records_of, sat_add, table_wf, FlowAggregator, FlowEntry,
};
use crate::key::key_of;
use crate::ranking::{lemma_ranked_prefix_order, ranked_prefix, top_n_by_bytes, Ranked};
use crate::text::clone_opt_string;
use crate::types::{FlowRecord, PacketEvent, Protocol};

verus! {

/// Session totals in each direction.
#[derive(Debug, Clone, Copy)]
pub struct Totals {
    pub bytes_up: u64,
    pub bytes_down: u64,
    pub packets_up: u64,
    pub packets_down: u64,
}

/// Traffic toward one remote address.
#[derive(Debug)]
pub struct HostStat {
    pub ip: String,
    pub hostname: Option<String>,
    pub country: Option<String>,
    pub bytes: u64,
    pub packets: u64,
}

/// Traffic of one protocol.
#[derive(Debug, Clone, Copy)]
pub struct ProtocolStat {
    pub protocol: Protocol,
    pub bytes: u64,
    pub packets: u64,
}

/// Traffic toward one destination port.
#[derive(Debug, Clone, Copy)]
pub struct PortStat {
    pub port: u16,
    pub bytes: u64,
    pub packets: u64,
}

/// Traffic toward one country.
#[derive(Debug)]
pub struct CountryStat {
    pub country: String,
    pub bytes: u64,
    pub packets: u64,
}

/// `v` clamped at `u64::MAX`.
pub open spec fn clamp_u64(v: int) -> u64 {
    if v > u64::MAX {
        u64::MAX
    } else {
        v as u64
    }
}

/// The sum of `val` over all flows.
pub open spec fn sum_all(flows: Seq<FlowRecord>, val: spec_fn(FlowRecord) -> int) -> int
    decreases flows.len(),
{
    if flows.len() == 0 {
        0
    } else {
        sum_all(flows.drop_last(), val) + val(flows.last())
    }
}

/// The sum of `val` over the flows whose key is `k` (flows without a key are skipped).
pub open spec fn sum_where<K>(
    flows: Seq<FlowRecord>,
    key: spec_fn(FlowRecord) -> Option<K>,
    k: K,
    val: spec_fn(FlowRecord) -> int,
) -> int
    decreases flows.len(),
{
    if flows.len() == 0 {
        0
    } else {
        sum_where(flows.drop_last(), key, k, val) + if key(flows.last()) == Some(k) {
            val(flows.last())
        } else {
            0
        }
    }
}

/// The first present value of `field` among the flows whose key is `k`, in flow order.
pub open spec fn first_some<K>(
    flows: Seq<FlowRecord>,
    key: spec_fn(FlowRecord) -> Option<K>,
    k: K,
    field: spec_fn(FlowRecord) -> Option<String>,
) -> Option<String>
    decreases flows.len(),
{
    if flows.len() == 0 {
        None
    } else {
        let prev = first_some(flows.drop_last(), key, k, field);
        if prev is Some {
            prev
        } else if key(flows.last()) == Some(k) {
            field(flows.last())
        } else {
            None
        }
    }
}

/// Total bytes of a flow (saturating).
pub open spec fn record_bytes() -> spec_fn(FlowRecord) -> int {
    |f: FlowRecord| sat_add(f.bytes_up, f.bytes_down as int) as int
}

/// Total packets of a flow (saturating).
pub open spec fn record_packets() -> spec_fn(FlowRecord) -> int {
    |f: FlowRecord| sat_add(f.packets_up, f.packets_down as int) as int
}

/// Hosts are keyed by the flow's destination address.
pub open spec fn host_key() -> spec_fn(FlowRecord) -> Option<Seq<char>> {
    |f: FlowRecord| Some(f.dst_ip@)
}

/// Protocols are keyed by the flow's protocol.
pub open spec fn protocol_key() -> spec_fn(FlowRecord) -> Option<Protocol> {
    |f: FlowRecord| Some(f.protocol)
}

/// Ports are keyed by the flow's destination port; flows without one are skipped.
pub open spec fn port_key() -> spec_fn(FlowRecord) -> Option<u16> {
    |f: FlowRecord| f.dst_port
}

/// Countries are keyed by the flow's country; flows without one are skipped.
pub open spec fn country_key() -> spec_fn(FlowRecord) -> Option<Seq<char>> {
    |f: FlowRecord|
        match f.country {
            Some(c) => Some(c@),
            None => None,
        }
}

/// `ks` are the group keys of `flows`: pairwise distinct, each the key of some flow, and
/// every keyed flow's key among them.
pub open spec fn group_keys_ok<K>(
    flows: Seq<FlowRecord>,
    key: spec_fn(FlowRecord) -> Option<K>,
    ks: Seq<K>,
) -> bool {
    &&& forall|i: int, j: int| 0 <= i < j < ks.len() ==> ks[i] != ks[j]
    &&& forall|i: int| 0 <= i < ks.len() ==> #[trigger] key_occurs(flows, key, ks[i])
    &&& forall|m: int|
        0 <= m < flows.len() && (#[trigger] key(flows[m])) is Some ==> ks.contains(
            key(flows[m])->0,
        )
}

/// Some flow has key `k`.
pub open spec fn key_occurs<K>(flows: Seq<FlowRecord>, key: spec_fn(FlowRecord) -> Option<K>, k: K) -> bool {
    exists|m: int| 0 <= m < flows.len() && #[trigger] key(flows[m]) == Some(k)
}

/// A group's byte and packet counts are the clamped sums over the flows of its key.
pub open spec fn group_counts_ok<K>(
    flows: Seq<FlowRecord>,
    key: spec_fn(FlowRecord) -> Option<K>,
    k: K,
    bytes: u64,
    packets: u64,
) -> bool {
    &&& bytes == clamp_u64(sum_where(flows, key, k, record_bytes()))
    &&& packets == clamp_u64(sum_where(flows, key, k, record_packets()))
}

/// `gs` are the groups of `flows` by `key`, read through the accessors `sk` (group key),
/// `sb` (bytes) and `sp` (packets): their keys are the distinct keys of the flows, and
/// each group's counts are the clamped sums over its flows.
pub open spec fn groups_ok<S, K>(
    flows: Seq<FlowRecord>,
    key: spec_fn(FlowRecord) -> Option<K>,
    gs: Seq<S>,
    sk: spec_fn(S) -> K,
    sb: spec_fn(S) -> u64,
    sp: spec_fn(S) -> u64,
) -> bool {
    &&& group_keys_ok(flows, key, gs.map_values(sk))
    &&& forall|i: int|
        0 <= i < gs.len() ==> group_counts_ok(flows, key, sk(#[trigger] gs[i]), sb(gs[i]), sp(gs[i]))
}

/// The key of a host group.
pub open spec fn host_ip() -> spec_fn(HostStat) -> Seq<char> {
    |h: HostStat| h.ip@
}

/// `hs` are the host groups of `flows`, each with the first known hostname and country
/// among its flows.
pub open spec fn host_groups(flows: Seq<FlowRecord>, hs: Seq<HostStat>) -> bool {
    &&& groups_ok(flows, host_key(), hs, host_ip(), |h: HostStat| h.bytes, |h: HostStat| h.packets)
    &&& forall|i: int|
        0 <= i < hs.len() ==> {
            &&& (#[trigger] hs[i]).hostname == first_some(
                flows,
                host_key(),
                hs[i].ip@,
                |f: FlowRecord| f.hostname,
            )
            &&& hs[i].country == first_some(flows, host_key(), hs[i].ip@, |f: FlowRecord| f.country)
        }
}

/// `ps` are the protocol groups of `flows`.
pub open spec fn protocol_groups(flows: Seq<FlowRecord>, ps: Seq<ProtocolStat>) -> bool {
    groups_ok(
        flows,
        protocol_key(),
        ps,
        |p: ProtocolStat| p.protocol,
        |p: ProtocolStat| p.bytes,
        |p: ProtocolStat| p.packets,
    )
}

/// `ps` are the destination-port groups of `flows`.
pub open spec fn port_groups(flows: Seq<FlowRecord>, ps: Seq<PortStat>) -> bool {
    groups_ok(flows, port_key(), ps, |p: PortStat| p.port, |p: PortStat| p.bytes, |p: PortStat| p.packets)
}

/// `cs` are the country groups of `flows`.
pub open spec fn country_groups(flows: Seq<FlowRecord>, cs: Seq<CountryStat>) -> bool {
    groups_ok(
        flows,
        country_key(),
        cs,
        |c: CountryStat| c.country@,
        |c: CountryStat| c.bytes,
        |c: CountryStat| c.packets,
    )
}

impl Ranked for HostStat {
    open spec fn rank(&self) -> u64 {
        self.bytes
    }

    fn rank_exec(&self) -> (res: u64) {
        self.bytes
    }
}

impl Ranked for ProtocolStat {
    open spec fn rank(&self) -> u64 {
        self.bytes
    }

    fn rank_exec(&self) -> (res: u64) {
        self.bytes
    }
}

impl Ranked for PortStat {
    open spec fn rank(&self) -> u64 {
        self.bytes
    }

    fn rank_exec(&self) -> (res: u64) {
        self.bytes
    }
}

impl Ranked for CountryStat {
    open spec fn rank(&self) -> u64 {
        self.bytes
    }

    fn rank_exec(&self) -> (res: u64) {
        self.bytes
    }
}

impl Totals {
    /// Bytes in both directions (saturating).
    pub fn total_bytes(&self) -> (res: u64)
        ensures
            res == sat_add(self.bytes_up, self.bytes_down as int),
    {
        self.bytes_up.saturating_add(self.bytes_down)
    }

    /// Packets in both directions (saturating).
    pub fn total_packets(&self) -> (res: u64)
        ensures
            res == sat_add(self.packets_up, self.packets_down as int),
    {
        self.packets_up.saturating_add(self.packets_down)
    }
}

/// A sum over a prefix extended by one flow.
pub proof fn lemma_sum_all_take(flows: Seq<FlowRecord>, i: int, val: spec_fn(FlowRecord) -> int)
    requires
        0 <= i < flows.len(),
    ensures
        sum_all(flows.take(i + 1), val) == sum_all(flows.take(i), val) + val(flows[i]),
{
    assert(flows.take(i + 1).drop_last() =~= flows.take(i));
}

/// Values of `val` are non-negative, so are their sums.
pub proof fn lemma_sum_all_nonneg(flows: Seq<FlowRecord>, val: spec_fn(FlowRecord) -> int)
    requires
        forall|f: FlowRecord| #[trigger] val(f) >= 0,
    ensures
        sum_all(flows, val) >= 0,
    decreases flows.len(),
{
    if flows.len() > 0 {
        lemma_sum_all_nonneg(flows.drop_last(), val);
    }
}

/// Sum over all flows of up bytes, down bytes, up packets and down packets, clamped.
pub open spec fn totals_of(flows: Seq<FlowRecord>) -> Totals {
    Totals {
        bytes_up: clamp_u64(sum_all(flows, |f: FlowRecord| f.bytes_up as int)),
        bytes_down: clamp_u64(sum_all(flows, |f: FlowRecord| f.bytes_down as int)),
        packets_up: clamp_u64(sum_all(flows, |f: FlowRecord| f.packets_up as int)),
        packets_down: clamp_u64(sum_all(flows, |f: FlowRecord| f.packets_down as int)),
    }
}

/// Sums all flows' counters (each sum saturating at `u64::MAX`).
pub fn totals(flows: &[FlowRecord]) -> (res: Totals)
    ensures
        res == totals_of(flows@),
{
    let mut t = Totals { bytes_up: 0, bytes_down: 0, packets_up: 0, packets_down: 0 };
    let n = flows.len();
    let mut i: usize = 0;
    while i < n
        invariant
            n == flows@.len(),
            i <= n,
            t == totals_of(flows@.take(i as int)),
        decreases n - i,
    {
        let f = &flows[i];
        proof {
            lemma_sum_all_take(flows@, i as int, |f: FlowRecord| f.bytes_up as int);
            lemma_sum_all_take(flows@, i as int, |f: FlowRecord| f.bytes_down as int);
            lemma_sum_all_take(flows@, i as int, |f: FlowRecord| f.packets_up as int);
            lemma_sum_all_take(flows@, i as int, |f: FlowRecord| f.packets_down as int);
            lemma_sum_all_nonneg(flows@.take(i as int), |f: FlowRecord| f.bytes_up as int);
            lemma_sum_all_nonneg(flows@.take(i as int), |f: FlowRecord| f.bytes_down as int);
            lemma_sum_all_nonneg(flows@.take(i as int), |f: FlowRecord| f.packets_up as int);
            lemma_sum_all_nonneg(flows@.take(i as int), |f: FlowRecord| f.packets_down as int);
        }
        t.bytes_up = t.bytes_up.saturating_add(f.bytes_up);
        t.bytes_down = t.bytes_down.saturating_add(f.bytes_down);
        t.packets_up = t.packets_up.saturating_add(f.packets_up);
        t.packets_down = t.packets_down.saturating_add(f.packets_down);
        i = i + 1;
    }
    proof {
        assert(flows@.take(n as int) =~= flows@);
    }
    t
}


/// A keyed sum over a prefix extended by one flow.
pub proof fn lemma_sum_where_take<K>(
    flows: Seq<FlowRecord>,
    i: int,
    key: spec_fn(FlowRecord) -> Option<K>,
    k: K,
    val: spec_fn(FlowRecord) -> int,
)
    requires
        0 <= i < flows.len(),
    ensures
        sum_where(flows.take(i + 1), key, k, val) == sum_where(flows.take(i), key, k, val) + if key(
            flows[i],
        ) == Some(k) {
            val(flows[i])
        } else {
            0
        },
{
    assert(flows.take(i + 1).drop_last() =~= flows.take(i));
}

/// A keyed sum is zero when no flow has the key.
pub proof fn lemma_sum_where_absent<K>(
    flows: Seq<FlowRecord>,
    key: spec_fn(FlowRecord) -> Option<K>,
    k: K,
    val: spec_fn(FlowRecord) -> int,
)
    requires
        forall|m: int| 0 <= m < flows.len() ==> key(#[trigger] flows[m]) != Some(k),
    ensures
        sum_where(flows, key, k, val) == 0,
    decreases flows.len(),
{
    if flows.len() > 0 {
        assert(key(flows[flows.len() - 1]) != Some(k));
        lemma_sum_where_absent(flows.drop_last(), key, k, val);
    }
}

/// Keyed sums of non-negative values are non-negative.
pub proof fn lemma_sum_where_nonneg<K>(
    flows: Seq<FlowRecord>,
    key: spec_fn(FlowRecord) -> Option<K>,
    k: K,
    val: spec_fn(FlowRecord) -> int,
)
    requires
        forall|f: FlowRecord| #[trigger] val(f) >= 0,
    ensures
        sum_where(flows, key, k, val) >= 0,
    decreases flows.len(),
{
    if flows.len() > 0 {
        lemma_sum_where_nonneg(flows.drop_last(), key, k, val);
    }
}

/// The first present field over a prefix extended by one flow.
pub proof fn lemma_first_some_take<K>(
    flows: Seq<FlowRecord>,
    i: int,
    key: spec_fn(FlowRecord) -> Option<K>,
    k: K,
    field: spec_fn(FlowRecord) -> Option<String>,
)
    requires
        0 <= i < flows.len(),
    ensures
        first_some(flows.take(i + 1), key, k, field) == if first_some(
            flows.take(i),
            key,
            k,
            field,
        ) is Some {
            first_some(flows.take(i), key, k, field)
        } else if key(flows[i]) == Some(k) {
            field(flows[i])
        } else {
            None
        },
{
    assert(flows.take(i + 1).drop_last() =~= flows.take(i));
}

/// No flow with the key: no field found.
pub proof fn lemma_first_some_absent<K>(
    flows: Seq<FlowRecord>,
    key: spec_fn(FlowRecord) -> Option<K>,
    k: K,
    field: spec_fn(FlowRecord) -> Option<String>,
)
    requires
        forall|m: int| 0 <= m < flows.len() ==> key(#[trigger] flows[m]) != Some(k),
    ensures
        first_some(flows, key, k, field) is None,
    decreases flows.len(),
{
    if flows.len() > 0 {
        assert(key(flows[flows.len() - 1]) != Some(k));
        lemma_first_some_absent(flows.drop_last(), key, k, field);
    }
}

/// Group keys after one more flow whose key is already a group key, or that has no key.
pub proof fn lemma_group_keys_same<K>(
    flows: Seq<FlowRecord>,
    i: int,
    key: spec_fn(FlowRecord) -> Option<K>,
    ks: Seq<K>,
)
    requires
        0 <= i < flows.len(),
        group_keys_ok(flows.take(i), key, ks),
        key(flows[i]) is None || ks.contains(key(flows[i])->0),
    ensures
        group_keys_ok(flows.take(i + 1), key, ks),
{
    let t0 = flows.take(i);
    let t1 = flows.take(i + 1);
    assert forall|j: int| 0 <= j < ks.len() implies #[trigger] key_occurs(t1, key, ks[j]) by {
        assert(key_occurs(t0, key, ks[j]));
        let m = choose|m: int| 0 <= m < t0.len() && #[trigger] key(t0[m]) == Some(ks[j]);
        assert(t1[m] == t0[m]);
        assert(key(t1[m]) == Some(ks[j]));
    }
    assert forall|m: int| 0 <= m < t1.len() && (#[trigger] key(t1[m])) is Some implies ks.contains(
        key(t1[m])->0,
    ) by {
        if m < i {
            assert(t1[m] == t0[m]);
            assert(key(t0[m]) is Some);
        } else {
            assert(t1[m] == flows[i]);
        }
    }
}

/// Group keys after one more flow whose key is new.
pub proof fn lemma_group_keys_push<K>(
    flows: Seq<FlowRecord>,
    i: int,
    key: spec_fn(FlowRecord) -> Option<K>,
    ks: Seq<K>,
    k: K,
)
    requires
        0 <= i < flows.len(),
        group_keys_ok(flows.take(i), key, ks),
        key(flows[i]) == Some(k),
        !ks.contains(k),
    ensures
        group_keys_ok(flows.take(i + 1), key, ks.push(k)),
        forall|m: int| 0 <= m < i ==> key(#[trigger] flows.take(i)[m]) != Some(k),
{
    let t0 = flows.take(i);
    let t1 = flows.take(i + 1);
    let ks1 = ks.push(k);
    assert forall|m: int| 0 <= m < i implies key(#[trigger] t0[m]) != Some(k) by {
        if key(t0[m]) == Some(k) {
            assert(key(t0[m]) is Some);
            assert(ks.contains(key(t0[m])->0));
        }
    }
    assert forall|a: int, b: int| 0 <= a < b < ks1.len() implies ks1[a] != ks1[b] by {
        if b == ks.len() {
            assert(ks1[a] == ks[a]);
            assert(ks.contains(ks[a]));
        } else {
            assert(ks1[a] == ks[a]);
            assert(ks1[b] == ks[b]);
        }
    }
    assert forall|j: int| 0 <= j < ks1.len() implies #[trigger] key_occurs(t1, key, ks1[j]) by {
        if j < ks.len() {
            assert(ks1[j] == ks[j]);
            assert(key_occurs(t0, key, ks[j]));
            let m = choose|m: int| 0 <= m < t0.len() && #[trigger] key(t0[m]) == Some(ks[j]);
            assert(t1[m] == t0[m]);
            assert(key(t1[m]) == Some(ks1[j]));
        } else {
            assert(t1[i] == flows[i]);
            assert(key(t1[i]) == Some(ks1[j]));
        }
    }
    assert forall|m: int| 0 <= m < t1.len() && (#[trigger] key(t1[m])) is Some implies ks1.contains(
        key(t1[m])->0,
    ) by {
        if m < i {
            assert(t1[m] == t0[m]);
            assert(key(t0[m]) is Some);
            let g = choose|g: int| 0 <= g < ks.len() && ks[g] == key(t0[m])->0;
            assert(ks1[g] == ks[g]);
        } else {
            assert(t1[m] == flows[i]);
            assert(ks1[ks.len() as int] == k);
        }
    }
}

/// Group counts after one more flow.
pub proof fn lemma_group_counts_step<K>(
    flows: Seq<FlowRecord>,
    i: int,
    key: spec_fn(FlowRecord) -> Option<K>,
    k: K,
    bytes: u64,
    packets: u64,
)
    requires
        0 <= i < flows.len(),
        group_counts_ok(flows.take(i), key, k, bytes, packets),
    ensures
        key(flows[i]) == Some(k) ==> group_counts_ok(
            flows.take(i + 1),
            key,
            k,
            sat_add(bytes, (record_bytes())(flows[i])),
            sat_add(packets, (record_packets())(flows[i])),
        ),
        key(flows[i]) != Some(k) ==> group_counts_ok(flows.take(i + 1), key, k, bytes, packets),
{
    lemma_sum_where_take(flows, i, key, k, record_bytes());
    lemma_sum_where_take(flows, i, key, k, record_packets());
    lemma_sum_where_nonneg(flows.take(i), key, k, record_bytes());
    lemma_sum_where_nonneg(flows.take(i), key, k, record_packets());
}

/// Counts of a new group from its first flow.
pub proof fn lemma_group_counts_new<K>(
    flows: Seq<FlowRecord>,
    i: int,
    key: spec_fn(FlowRecord) -> Option<K>,
    k: K,
)
    requires
        0 <= i < flows.len(),
        key(flows[i]) == Some(k),
        forall|m: int| 0 <= m < i ==> key(#[trigger] flows.take(i)[m]) != Some(k),
    ensures
        group_counts_ok(
            flows.take(i + 1),
            key,
            k,
            (record_bytes())(flows[i]) as u64,
            (record_packets())(flows[i]) as u64,
        ),
{
    lemma_sum_where_take(flows, i, key, k, record_bytes());
    lemma_sum_where_take(flows, i, key, k, record_packets());
    lemma_sum_where_absent(flows.take(i), key, k, record_bytes());
    lemma_sum_where_absent(flows.take(i), key, k, record_packets());
}

fn record_total_bytes(f: &FlowRecord) -> (res: u64)
    ensures
        res as int == (record_bytes())(*f),
{
    f.bytes_up.saturating_add(f.bytes_down)
}

fn record_total_packets(f: &FlowRecord) -> (res: u64)
    ensures
        res as int == (record_packets())(*f),
{
    f.packets_up.saturating_add(f.packets_down)
}

/// The groups after one more flow whose key is group `g`'s: that group's counts grow.
pub proof fn lemma_groups_update<S, K>(
    flows: Seq<FlowRecord>,
    i: int,
    key: spec_fn(FlowRecord) -> Option<K>,
    before: Seq<S>,
    after: Seq<S>,
    g: int,
    sk: spec_fn(S) -> K,
    sb: spec_fn(S) -> u64,
    sp: spec_fn(S) -> u64,
)
    requires
        0 <= i < flows.len(),
        groups_ok(flows.take(i), key, before, sk, sb, sp),
        0 <= g < before.len(),
        key(flows[i]) == Some(sk(before[g])),
        after.len() == before.len(),
        forall|j: int| 0 <= j < before.len() && j != g ==> after[j] == before[j],
        sk(after[g]) == sk(before[g]),
        sb(after[g]) == sat_add(sb(before[g]), (record_bytes())(flows[i])),
        sp(after[g]) == sat_add(sp(before[g]), (record_packets())(flows[i])),
    ensures
        groups_ok(flows.take(i + 1), key, after, sk, sb, sp),
{
    let ks = before.map_values(sk);
    assert(after.map_values(sk) =~= ks) by {
        assert forall|j: int| 0 <= j < after.len() implies after.map_values(sk)[j] == ks[j] by {
            if j != g {
                assert(after[j] == before[j]);
            }
        }
    }
    assert(ks[g] == sk(before[g]));
    assert(ks.contains(key(flows[i])->0));
    lemma_group_keys_same(flows, i, key, ks);
    assert forall|j: int| 0 <= j < after.len() implies group_counts_ok(
        flows.take(i + 1),
        key,
        sk(#[trigger] after[j]),
        sb(after[j]),
        sp(after[j]),
    ) by {
        lemma_group_counts_step(flows, i, key, sk(before[j]), sb(before[j]), sp(before[j]));
        if j != g {
            assert(after[j] == before[j]);
            assert(ks[j] != ks[g]) by {
                if j < g {
                } else {
                }
            }
        }
    }
}

/// The groups after one more flow with a new key: a group is appended for it.
pub proof fn lemma_groups_push<S, K>(
    flows: Seq<FlowRecord>,
    i: int,
    key: spec_fn(FlowRecord) -> Option<K>,
    before: Seq<S>,
    x: S,
    sk: spec_fn(S) -> K,
    sb: spec_fn(S) -> u64,
    sp: spec_fn(S) -> u64,
)
    requires
        0 <= i < flows.len(),
        groups_ok(flows.take(i), key, before, sk, sb, sp),
        key(flows[i]) == Some(sk(x)),
        forall|j: int| 0 <= j < before.len() ==> sk(#[trigger] before[j]) != sk(x),
        sb(x) as int == (record_bytes())(flows[i]),
        sp(x) as int == (record_packets())(flows[i]),
    ensures
        groups_ok(flows.take(i + 1), key, before.push(x), sk, sb, sp),
        forall|m: int| 0 <= m < i ==> key(#[trigger] flows.take(i)[m]) != Some(sk(x)),
{
    let ks = before.map_values(sk);
    let after = before.push(x);
    assert forall|j: int| 0 <= j < ks.len() implies ks[j] != sk(x) by {
        assert(ks[j] == sk(before[j]));
    }
    lemma_group_keys_push(flows, i, key, ks, sk(x));
    assert(after.map_values(sk) =~= ks.push(sk(x)));
    lemma_group_counts_new(flows, i, key, sk(x));
    assert forall|j: int| 0 <= j < after.len() implies group_counts_ok(
        flows.take(i + 1),
        key,
        sk(#[trigger] after[j]),
        sb(after[j]),
        sp(after[j]),
    ) by {
        if j < before.len() {
            assert(after[j] == before[j]);
            lemma_group_counts_step(flows, i, key, sk(before[j]), sb(before[j]), sp(before[j]));
        }
    }
}

/// The groups after one more flow without a key: unchanged.
pub proof fn lemma_groups_skip<S, K>(
    flows: Seq<FlowRecord>,
    i: int,
    key: spec_fn(FlowRecord) -> Option<K>,
    gs: Seq<S>,
    sk: spec_fn(S) -> K,
    sb: spec_fn(S) -> u64,
    sp: spec_fn(S) -> u64,
)
    requires
        0 <= i < flows.len(),
        groups_ok(flows.take(i), key, gs, sk, sb, sp),
        key(flows[i]) is None,
    ensures
        groups_ok(flows.take(i + 1), key, gs, sk, sb, sp),
{
    lemma_group_keys_same(flows, i, key, gs.map_values(sk));
    assert forall|j: int| 0 <= j < gs.len() implies group_counts_ok(
        flows.take(i + 1),
        key,
        sk(#[trigger] gs[j]),
        sb(gs[j]),
        sp(gs[j]),
    ) by {
        lemma_group_counts_step(flows, i, key, sk(gs[j]), sb(gs[j]), sp(gs[j]));
    }
}

/// Before any flow there are no groups.
pub proof fn lemma_groups_empty<S, K>(
    flows: Seq<FlowRecord>,
    key: spec_fn(FlowRecord) -> Option<K>,
    sk: spec_fn(S) -> K,
    sb: spec_fn(S) -> u64,
    sp: spec_fn(S) -> u64,
)
    ensures
        groups_ok(flows.take(0), key, Seq::<S>::empty(), sk, sb, sp),
{
    assert(Seq::<S>::empty().map_values(sk) =~= Seq::<K>::empty());
}

/// Groups flows by protocol, in order of first appearance.
fn group_protocols(flows: &[FlowRecord]) -> (res: Vec<ProtocolStat>)
    ensures
        protocol_groups(flows@, res@),
{
    let mut acc: Vec<ProtocolStat> = Vec::new();
    let n = flows.len();
    let mut i: usize = 0;
    proof {
        lemma_groups_empty(
            flows@,
            protocol_key(),
            |p: ProtocolStat| p.protocol,
            |p: ProtocolStat| p.bytes,
            |p: ProtocolStat| p.packets,
        );
    }
    while i < n
        invariant
            n == flows@.len(),
            i <= n,
            protocol_groups(flows@.take(i as int), acc@),
        decreases n - i,
    {
        let f = &flows[i];
        let tb = record_total_bytes(f);
        let tp = record_total_packets(f);
        let ghost before = acc@;
        let mut g: usize = 0;
        while g < acc.len() && acc[g].protocol != f.protocol
            invariant
                g <= acc@.len(),
                acc@ == before,
                forall|j: int| 0 <= j < g ==> (#[trigger] acc@[j]).protocol != f.protocol,
            decreases acc@.len() - g,
        {
            g = g + 1;
        }
        if g < acc.len() {
            let mut st = acc[g];
            st.bytes = st.bytes.saturating_add(tb);
            st.packets = st.packets.saturating_add(tp);
            acc.set(g, st);
            proof {
                lemma_groups_update(
                    flows@,
                    i as int,
                    protocol_key(),
                    before,
                    acc@,
                    g as int,
                    |p: ProtocolStat| p.protocol,
                    |p: ProtocolStat| p.bytes,
                    |p: ProtocolStat| p.packets,
                );
            }
        } else {
            let st = ProtocolStat { protocol: f.protocol, bytes: tb, packets: tp };
            proof {
                lemma_groups_push(
                    flows@,
                    i as int,
                    protocol_key(),
                    before,
                    st,
                    |p: ProtocolStat| p.protocol,
                    |p: ProtocolStat| p.bytes,
                    |p: ProtocolStat| p.packets,
                );
            }
            acc.push(st);
        }
        i = i + 1;
    }
    proof {
        assert(flows@.take(n as int) =~= flows@);
    }
    acc
}

/// The `n` protocols with the most bytes, largest first.
pub fn top_protocols(flows: &[FlowRecord], n: usize) -> (res: Vec<ProtocolStat>)
    ensures
        exists|groups: Seq<ProtocolStat>|
            protocol_groups(flows@, groups) && #[trigger] ranked_prefix(groups, res@, n as int) && forall|
                k: int,
                i: int,
            |
                0 <= k < groups.len() && !res@.contains(#[trigger] groups[k]) && 0 <= i < res@.len()
                    ==> (#[trigger] res@[i]).bytes >= groups[k].bytes,
        forall|i: int, j: int|
            0 <= i < j < res@.len() ==> (#[trigger] res@[i]).bytes >= (#[trigger] res@[j]).bytes,
{
    let groups = group_protocols(flows);
    let ghost gv = groups@;
    let res = top_n_by_bytes(groups, n);
    proof {
        lemma_top_protocols_largest_first(gv, res@, n as int);
    }
    assert(protocol_groups(flows@, gv) && ranked_prefix(gv, res@, n as int));
    res
}

/// Groups flows by destination port (flows without one are skipped).
fn group_ports(flows: &[FlowRecord]) -> (res: Vec<PortStat>)
    ensures
        port_groups(flows@, res@),
{
    let mut acc: Vec<PortStat> = Vec::new();
    let n = flows.len();
    let mut i: usize = 0;
    proof {
        lemma_groups_empty(flows@, port_key(), |p: PortStat| p.port, |p: PortStat| p.bytes, |p: PortStat| p.packets);
    }
    while i < n
        invariant
            n == flows@.len(),
            i <= n,
            port_groups(flows@.take(i as int), acc@),
        decreases n - i,
    {
        let f = &flows[i];
        match f.dst_port {
            None => {
                proof {
                    lemma_groups_skip(flows@, i as int, port_key(), acc@, |p: PortStat| p.port, |p: PortStat| p.bytes, |p: PortStat| p.packets);
                }
            },
            Some(port) => {
                let tb = record_total_bytes(f);
                let tp = record_total_packets(f);
                let ghost before = acc@;
                let mut g: usize = 0;
                while g < acc.len() && acc[g].port != port
                    invariant
                        g <= acc@.len(),
                        acc@ == before,
                        forall|j: int| 0 <= j < g ==> (#[trigger] acc@[j]).port != port,
                    decreases acc@.len() - g,
                {
                    g = g + 1;
                }
                if g < acc.len() {
                    let mut st = acc[g];
                    st.bytes = st.bytes.saturating_add(tb);
                    st.packets = st.packets.saturating_add(tp);
                    acc.set(g, st);
                    proof {
                        lemma_groups_update(flows@, i as int, port_key(), before, acc@, g as int, |p: PortStat| p.port, |p: PortStat| p.bytes, |p: PortStat| p.packets);
                    }
                } else {
                    let st = PortStat { port, bytes: tb, packets: tp };
                    proof {
                        lemma_groups_push(flows@, i as int, port_key(), before, st, |p: PortStat| p.port, |p: PortStat| p.bytes, |p: PortStat| p.packets);
                    }
                    acc.push(st);
                }
            },
        }
        i = i + 1;
    }
    proof {
        assert(flows@.take(n as int) =~= flows@);
    }
    acc
}

/// The `n` destination ports with the most bytes, largest first.
pub fn top_ports(flows: &[FlowRecord], n: usize) -> (res: Vec<PortStat>)
    ensures
        exists|groups: Seq<PortStat>|
            port_groups(flows@, groups) && #[trigger] ranked_prefix(groups, res@, n as int) && forall|
                k: int,
                i: int,
            |
                0 <= k < groups.len() && !res@.contains(#[trigger] groups[k]) && 0 <= i < res@.len()
                    ==> (#[trigger] res@[i]).bytes >= groups[k].bytes,
        forall|i: int, j: int|
            0 <= i < j < res@.len() ==> (#[trigger] res@[i]).bytes >= (#[trigger] res@[j]).bytes,
{
    let groups = group_ports(flows);
    let ghost gv = groups@;
    let res = top_n_by_bytes(groups, n);
    proof {
        lemma_top_ports_largest_first(gv, res@, n as int);
    }
    assert(port_groups(flows@, gv) && ranked_prefix(gv, res@, n as int));
    res
}

/// Groups flows by country (flows without one are skipped).
fn group_countries(flows: &[FlowRecord]) -> (res: Vec<CountryStat>)
    ensures
        country_groups(flows@, res@),
{
    let mut acc: Vec<CountryStat> = Vec::new();
    let n = flows.len();
    let mut i: usize = 0;
    proof {
        lemma_groups_empty(flows@, country_key(), |c: CountryStat| c.country@, |c: CountryStat| c.bytes, |c: CountryStat| c.packets);
    }
    while i < n
        invariant
            n == flows@.len(),
            i <= n,
            country_groups(flows@.take(i as int), acc@),
        decreases n - i,
    {
        let f = &flows[i];
        match &f.country {
            None => {
                proof {
                    lemma_groups_skip(flows@, i as int, country_key(), acc@, |c: CountryStat| c.country@, |c: CountryStat| c.bytes, |c: CountryStat| c.packets);
                }
            },
            Some(country) => {
                let tb = record_total_bytes(f);
                let tp = record_total_packets(f);
                let ghost before = acc@;
                let mut g: usize = 0;
                while g < acc.len() && !(acc[g].country == *country)
                    invariant
                        g <= acc@.len(),
                        acc@ == before,
                        forall|j: int| 0 <= j < g ==> (#[trigger] acc@[j]).country@ != country@,
                    decreases acc@.len() - g,
                {
                    g = g + 1;
                }
                if g < acc.len() {
                    let mut slot = CountryStat { country: String::new(), bytes: 0, packets: 0 };
                    acc.set_and_swap(g, &mut slot);
                    slot.bytes = slot.bytes.saturating_add(tb);
                    slot.packets = slot.packets.saturating_add(tp);
                    acc.set(g, slot);
                    proof {
                        lemma_groups_update(flows@, i as int, country_key(), before, acc@, g as int, |c: CountryStat| c.country@, |c: CountryStat| c.bytes, |c: CountryStat| c.packets);
                    }
                } else {
                    let st = CountryStat { country: country.clone(), bytes: tb, packets: tp };
                    proof {
                        lemma_groups_push(flows@, i as int, country_key(), before, st, |c: CountryStat| c.country@, |c: CountryStat| c.bytes, |c: CountryStat| c.packets);
                    }
                    acc.push(st);
                }
            },
        }
        i = i + 1;
    }
    proof {
        assert(flows@.take(n as int) =~= flows@);
    }
    acc
}

/// The `n` countries with the most bytes, largest first (flows without a country skipped).
pub fn top_countries(flows: &[FlowRecord], n: usize) -> (res: Vec<CountryStat>)
    ensures
        exists|groups: Seq<CountryStat>|
            country_groups(flows@, groups) && #[trigger] ranked_prefix(groups, res@, n as int) && forall|
                k: int,
                i: int,
            |
                0 <= k < groups.len() && !res@.contains(#[trigger] groups[k]) && 0 <= i < res@.len()
                    ==> (#[trigger] res@[i]).bytes >= groups[k].bytes,
        forall|i: int, j: int|
            0 <= i < j < res@.len() ==> (#[trigger] res@[i]).bytes >= (#[trigger] res@[j]).bytes,
{
    let groups = group_countries(flows);
    let ghost gv = groups@;
    let res = top_n_by_bytes(groups, n);
    proof {
        lemma_top_countries_largest_first(gv, res@, n as int);
    }
    assert(country_groups(flows@, gv) && ranked_prefix(gv, res@, n as int));
    res
}

/// A top list of hosts comes largest first by bytes, holds `n` hosts (all of them when
/// there are fewer), and no host left out carries more bytes than one listed.
pub proof fn lemma_top_hosts_largest_first(groups: Seq<HostStat>, res: Seq<HostStat>, n: int)
    requires
        0 <= n,
        ranked_prefix(groups, res, n),
    ensures
        forall|i: int, j: int| 0 <= i < j < res.len() ==> (#[trigger] res[i]).bytes >= (#[trigger] res[j]).bytes,
        res.len() == (if n < groups.len() {
            n
        } else {
            groups.len() as int
        }),
        forall|k: int, i: int|
            0 <= k < groups.len() && !res.contains(#[trigger] groups[k]) && 0 <= i < res.len()
                ==> (#[trigger] res[i]).bytes >= groups[k].bytes,
{
    lemma_ranked_prefix_order(groups, res, n);
}

/// A top list of protocols comes largest first by bytes, holds `n` protocols (all of them when
/// there are fewer), and no protocol left out carries more bytes than one listed.
pub proof fn lemma_top_protocols_largest_first(groups: Seq<ProtocolStat>, res: Seq<ProtocolStat>, n: int)
    requires
        0 <= n,
        ranked_prefix(groups, res, n),
    ensures
        forall|i: int, j: int| 0 <= i < j < res.len() ==> (#[trigger] res[i]).bytes >= (#[trigger] res[j]).bytes,
        res.len() == (if n < groups.len() {
            n
        } else {
            groups.len() as int
        }),
        forall|k: int, i: int|
            0 <= k < groups.len() && !res.contains(#[trigger] groups[k]) && 0 <= i < res.len()
                ==> (#[trigger] res[i]).bytes >= groups[k].bytes,
{
    lemma_ranked_prefix_order(groups, res, n);
}

/// A top list of ports comes largest first by bytes, holds `n` ports (all of them when
/// there are fewer), and no port left out carries more bytes than one listed.
pub proof fn lemma_top_ports_largest_first(groups: Seq<PortStat>, res: Seq<PortStat>, n: int)
    requires
        0 <= n,
        ranked_prefix(groups, res, n),
    ensures
        forall|i: int, j: int| 0 <= i < j < res.len() ==> (#[trigger] res[i]).bytes >= (#[trigger] res[j]).bytes,
        res.len() == (if n < groups.len() {
            n
        } else {
            groups.len() as int
        }),
        forall|k: int, i: int|
            0 <= k < groups.len() && !res.contains(#[trigger] groups[k]) && 0 <= i < res.len()
                ==> (#[trigger] res[i]).bytes >= groups[k].bytes,
{
    lemma_ranked_prefix_order(groups, res, n);
}

/// A top list of countries comes largest first by bytes, holds `n` countries (all of them when
/// there are fewer), and no country left out carries more bytes than one listed.
pub proof fn lemma_top_countries_largest_first(groups: Seq<CountryStat>, res: Seq<CountryStat>, n: int)
    requires
        0 <= n,
        ranked_prefix(groups, res, n),
    ensures
        forall|i: int, j: int| 0 <= i < j < res.len() ==> (#[trigger] res[i]).bytes >= (#[trigger] res[j]).bytes,
        res.len() == (if n < groups.len() {
            n
        } else {
            groups.len() as int
        }),
        forall|k: int, i: int|
            0 <= k < groups.len() && !res.contains(#[trigger] groups[k]) && 0 <= i < res.len()
                ==> (#[trigger] res[i]).bytes >= groups[k].bytes,
{
    lemma_ranked_prefix_order(groups, res, n);
}

/// The hostname and country of every host group are the first known ones among its flows.
pub open spec fn host_names_ok(flows: Seq<FlowRecord>, hs: Seq<HostStat>) -> bool {
    forall|i: int|
        0 <= i < hs.len() ==> {
            &&& (#[trigger] hs[i]).hostname == first_some(
                flows,
                host_key(),
                hs[i].ip@,
                |f: FlowRecord| f.hostname,
            )
            &&& hs[i].country == first_some(flows, host_key(), hs[i].ip@, |f: FlowRecord| f.country)
        }
}

/// Groups flows by destination address, keeping the first known hostname and country.
fn group_hosts(flows: &[FlowRecord]) -> (res: Vec<HostStat>)
    ensures
        host_groups(flows@, res@),
{
    let mut acc: Vec<HostStat> = Vec::new();
    let n = flows.len();
    let mut i: usize = 0;
    proof {
        lemma_groups_empty(flows@, host_key(), host_ip(), |h: HostStat| h.bytes, |h: HostStat| h.packets);
    }
    while i < n
        invariant
            n == flows@.len(),
            i <= n,
            groups_ok(flows@.take(i as int), host_key(), acc@, host_ip(), |h: HostStat| h.bytes, |h: HostStat| h.packets),
            host_names_ok(flows@.take(i as int), acc@),
        decreases n - i,
    {
        let f = &flows[i];
        let tb = record_total_bytes(f);
        let tp = record_total_packets(f);
        let ghost before = acc@;
        let mut g: usize = 0;
        while g < acc.len() && !(acc[g].ip == f.dst_ip)
            invariant
                g <= acc@.len(),
                acc@ == before,
                forall|j: int| 0 <= j < g ==> (#[trigger] acc@[j]).ip@ != f.dst_ip@,
            decreases acc@.len() - g,
        {
            g = g + 1;
        }
        if g < acc.len() {
            let mut slot = HostStat { ip: String::new(), hostname: None, country: None, bytes: 0, packets: 0 };
            acc.set_and_swap(g, &mut slot);
            slot.bytes = slot.bytes.saturating_add(tb);
            slot.packets = slot.packets.saturating_add(tp);
            if slot.hostname.is_none() {
                slot.hostname = clone_opt_string(&f.hostname);
            }
            if slot.country.is_none() {
                slot.country = clone_opt_string(&f.country);
            }
            acc.set(g, slot);
            proof {
                lemma_groups_update(flows@, i as int, host_key(), before, acc@, g as int, host_ip(), |h: HostStat| h.bytes, |h: HostStat| h.packets);
                let ks = before.map_values(host_ip());
                assert forall|j: int| 0 <= j < acc@.len() implies {
                    &&& (#[trigger] acc@[j]).hostname == first_some(flows@.take(i + 1), host_key(), acc@[j].ip@, |f: FlowRecord| f.hostname)
                    &&& acc@[j].country == first_some(flows@.take(i + 1), host_key(), acc@[j].ip@, |f: FlowRecord| f.country)
                } by {
                    lemma_first_some_take(flows@, i as int, host_key(), before[j].ip@, |f: FlowRecord| f.hostname);
                    lemma_first_some_take(flows@, i as int, host_key(), before[j].ip@, |f: FlowRecord| f.country);
                    if j != g {
                        assert(acc@[j] == before[j]);
                        assert(ks[j] != ks[g as int]);
                    }
                }
            }
        } else {
            let st = HostStat {
                ip: f.dst_ip.clone(),
                hostname: clone_opt_string(&f.hostname),
                country: clone_opt_string(&f.country),
                bytes: tb,
                packets: tp,
            };
            proof {
                lemma_groups_push(flows@, i as int, host_key(), before, st, host_ip(), |h: HostStat| h.bytes, |h: HostStat| h.packets);
            }
            acc.push(st);
            proof {
                assert forall|j: int| 0 <= j < acc@.len() implies {
                    &&& (#[trigger] acc@[j]).hostname == first_some(flows@.take(i + 1), host_key(), acc@[j].ip@, |f: FlowRecord| f.hostname)
                    &&& acc@[j].country == first_some(flows@.take(i + 1), host_key(), acc@[j].ip@, |f: FlowRecord| f.country)
                } by {
                    lemma_first_some_take(flows@, i as int, host_key(), acc@[j].ip@, |f: FlowRecord| f.hostname);
                    lemma_first_some_take(flows@, i as int, host_key(), acc@[j].ip@, |f: FlowRecord| f.country);
                    if j < before.len() {
                        assert(acc@[j] == before[j]);
                    } else {
                        lemma_first_some_absent(flows@.take(i as int), host_key(), st.ip@, |f: FlowRecord| f.hostname);
                        lemma_first_some_absent(flows@.take(i as int), host_key(), st.ip@, |f: FlowRecord| f.country);
                    }
                }
            }
        }
        i = i + 1;
    }
    proof {
        assert(flows@.take(n as int) =~= flows@);
    }
    acc
}

/// The `n` destination hosts with the most bytes, largest first.
pub fn top_hosts(flows: &[FlowRecord], n: usize) -> (res: Vec<HostStat>)
    ensures
        exists|groups: Seq<HostStat>|
            host_groups(flows@, groups) && #[trigger] ranked_prefix(groups, res@, n as int) && forall|
                k: int,
                i: int,
            |
                0 <= k < groups.len() && !res@.contains(#[trigger] groups[k]) && 0 <= i < res@.len()
                    ==> (#[trigger] res@[i]).bytes >= groups[k].bytes,
        forall|i: int, j: int|
            0 <= i < j < res@.len() ==> (#[trigger] res@[i]).bytes >= (#[trigger] res@[j]).bytes,
{
    let groups = group_hosts(flows);
    let ghost gv = groups@;
    let res = top_n_by_bytes(groups, n);
    proof {
        lemma_top_hosts_largest_first(gv, res@, n as int);
    }
    assert(host_groups(flows@, gv) && ranked_prefix(gv, res@, n as int));
    res
}

/// Sums of `val` over two lists that agree at every index but `j`.
proof fn lemma_sum_all_but_one(
    a: Seq<FlowRecord>,
    b: Seq<FlowRecord>,
    val: spec_fn(FlowRecord) -> int,
    j: int,
)
    requires
        a.len() == b.len(),
        0 <= j < a.len(),
        forall|k: int| 0 <= k < a.len() && k != j ==> val(#[trigger] a[k]) == val(b[k]),
    ensures
        sum_all(b, val) == sum_all(a, val) - val(a[j]) + val(b[j]),
    decreases a.len(),
{
    if j < a.len() - 1 {
        lemma_sum_all_but_one(a.drop_last(), b.drop_last(), val, j);
        assert(a.drop_last()[j] == a[j] && b.drop_last()[j] == b[j]);
        assert(val(a[a.len() - 1]) == val(b[b.len() - 1]));
    } else {
        lemma_sum_all_same(a.drop_last(), b.drop_last(), val);
    }
}

/// Sums of `val` over two lists that agree at every index.
proof fn lemma_sum_all_same(a: Seq<FlowRecord>, b: Seq<FlowRecord>, val: spec_fn(FlowRecord) -> int)
    requires
        a.len() == b.len(),
        forall|k: int| 0 <= k < a.len() ==> val(#[trigger] a[k]) == val(b[k]),
    ensures
        sum_all(b, val) == sum_all(a, val),
    decreases a.len(),
{
    if a.len() > 0 {
        assert forall|k: int| 0 <= k < a.len() - 1 implies val(#[trigger] a.drop_last()[k])
            == val(b.drop_last()[k]) by {
            assert(a.drop_last()[k] == a[k] && b.drop_last()[k] == b[k]);
        }
        lemma_sum_all_same(a.drop_last(), b.drop_last(), val);
        assert(val(a[a.len() - 1]) == val(b[b.len() - 1]));
    }
}

/// A value of a non-negative `val` at one flow is at most its sum.
proof fn lemma_sum_all_ge(flows: Seq<FlowRecord>, val: spec_fn(FlowRecord) -> int, j: int)
    requires
        0 <= j < flows.len(),
        forall|f: FlowRecord| #[trigger] val(f) >= 0,
    ensures
        val(flows[j]) <= sum_all(flows, val),
    decreases flows.len(),
{
    lemma_sum_all_nonneg(flows.drop_last(), val);
    if j < flows.len() - 1 {
        lemma_sum_all_ge(flows.drop_last(), val, j);
        assert(flows.drop_last()[j] == flows[j]);
    }
}

/// Every byte and packet of a packet lands in the session totals, and the packet's flow
/// widens its seen interval to the packet's timestamp: when no counter reaches its limit,
/// one packet adds its length to the total bytes and one to the total packets; the flow's
/// first and last seen become the minimum and maximum of the earlier ones and the packet's
/// timestamp (both the timestamp for a new flow).
pub proof fn lemma_ingest_totals(
    entries: Seq<FlowEntry>,
    e: PacketEvent,
    before: Seq<FlowRecord>,
    after: Seq<FlowRecord>,
)
    requires
        table_wf(entries),
        records_of(before, entries),
        records_of(after, ingest_result(entries, e)),
        sum_all(before, |f: FlowRecord| f.bytes_up as int) + sum_all(
            before,
            |f: FlowRecord| f.bytes_down as int,
        ) + e.packet_length <= u64::MAX,
        sum_all(before, |f: FlowRecord| f.packets_up as int) + sum_all(
            before,
            |f: FlowRecord| f.packets_down as int,
        ) + 1 <= u64::MAX,
    ensures
        sat_add(totals_of(after).bytes_up, totals_of(after).bytes_down as int) == sat_add(
            totals_of(before).bytes_up,
            totals_of(before).bytes_down as int,
        ) + e.packet_length,
        sat_add(totals_of(after).packets_up, totals_of(after).packets_down as int) == sat_add(
            totals_of(before).packets_up,
            totals_of(before).packets_down as int,
        ) + 1,
        match find_key(entries, key_of(e)@) {
            Some(j) => {
                &&& after[j].first_seen == (if e.timestamp < before[j].first_seen {
                    e.timestamp
                } else {
                    before[j].first_seen
                })
                &&& after[j].last_seen == (if e.timestamp > before[j].last_seen {
                    e.timestamp
                } else {
                    before[j].last_seen
                })
            },
            None => after[before.len() as int].first_seen == e.timestamp
                && after[before.len() as int].last_seen == e.timestamp,
        },
{
    let bu = |f: FlowRecord| f.bytes_up as int;
    let bd = |f: FlowRecord| f.bytes_down as int;
    let pu = |f: FlowRecord| f.packets_up as int;
    let pd = |f: FlowRecord| f.packets_down as int;
    lemma_sum_all_nonneg(before, bu);
    lemma_sum_all_nonneg(before, bd);
    lemma_sum_all_nonneg(before, pu);
    lemma_sum_all_nonneg(before, pd);
    let len = e.packet_length as int;
    let t = ingest_result(entries, e);
    match find_key(entries, key_of(e)@) {
        Some(j) => {
            lemma_sum_all_ge(before, bu, j);
            lemma_sum_all_ge(before, bd, j);
            lemma_sum_all_ge(before, pu, j);
            lemma_sum_all_ge(before, pd, j);
            assert forall|k: int| 0 <= k < before.len() && k != j implies #[trigger] before[k]
                == before[k] && bu(before[k]) == bu(after[k]) && bd(before[k]) == bd(after[k])
                && pu(before[k]) == pu(after[k]) && pd(before[k]) == pd(after[k]) by {
                assert(t[k] == entries[k]);
            }
            lemma_sum_all_but_one(before, after, bu, j);
            lemma_sum_all_but_one(before, after, bd, j);
            lemma_sum_all_but_one(before, after, pu, j);
            lemma_sum_all_but_one(before, after, pd, j);
        },
        None => {
            let n = before.len() as int;
            assert(after.drop_last().len() == before.len());
            assert forall|k: int| 0 <= k < n implies #[trigger] before[k] == before[k] && bu(
                before[k],
            ) == bu(after.drop_last()[k]) && bd(before[k]) == bd(after.drop_last()[k]) && pu(
                before[k],
            ) == pu(after.drop_last()[k]) && pd(before[k]) == pd(after.drop_last()[k]) by {
                assert(t[k] == entries[k]);
                assert(after.drop_last()[k] == after[k]);
            }
            lemma_sum_all_same(before, after.drop_last(), bu);
            lemma_sum_all_same(before, after.drop_last(), bd);
            lemma_sum_all_same(before, after.drop_last(), pu);
            lemma_sum_all_same(before, after.drop_last(), pd);
            assert(after[n] == after.last());
        },
    }
}

impl FlowAggregator {
    /// Session totals over all flows.
    pub fn totals(&self) -> (res: Totals)
        ensures
            exists|all: Seq<FlowRecord>|
                crate::aggregator::records_of(all, self.entries()) && res == #[trigger] totals_of(all),
    {
        let snap = self.snapshot();
        let res = totals(snap.as_slice());
        assert(crate::aggregator::records_of(snap@, self.entries()) && res == totals_of(snap@));
        res
    }

    /// The `n` destination hosts with the most bytes.
    pub fn top_hosts(&self, n: usize) -> (res: Vec<HostStat>)
        ensures
            exists|all: Seq<FlowRecord>, groups: Seq<HostStat>|
                #[trigger] crate::aggregator::records_of(all, self.entries()) && host_groups(all, groups)
                    && #[trigger] ranked_prefix(groups, res@, n as int) && forall|k: int, i: int|
                    0 <= k < groups.len() && !res@.contains(#[trigger] groups[k]) && 0 <= i
                        < res@.len() ==> (#[trigger] res@[i]).bytes >= groups[k].bytes,
            forall|i: int, j: int|
                0 <= i < j < res@.len() ==> (#[trigger] res@[i]).bytes >= (#[trigger] res@[j]).bytes,
    {
        let snap = self.snapshot();
        top_hosts(snap.as_slice(), n)
    }

    /// The `n` protocols with the most bytes.
    pub fn top_protocols(&self, n: usize) -> (res: Vec<ProtocolStat>)
        ensures
            exists|all: Seq<FlowRecord>, groups: Seq<ProtocolStat>|
                #[trigger] crate::aggregator::records_of(all, self.entries()) && protocol_groups(all, groups)
                    && #[trigger] ranked_prefix(groups, res@, n as int) && forall|k: int, i: int|
                    0 <= k < groups.len() && !res@.contains(#[trigger] groups[k]) && 0 <= i
                        < res@.len() ==> (#[trigger] res@[i]).bytes >= groups[k].bytes,
            forall|i: int, j: int|
                0 <= i < j < res@.len() ==> (#[trigger] res@[i]).bytes >= (#[trigger] res@[j]).bytes,
    {
        let snap = self.snapshot();
        top_protocols(snap.as_slice(), n)
    }

    /// The `n` destination ports with the most bytes.
    pub fn top_ports(&self, n: usize) -> (res: Vec<PortStat>)
        ensures
            exists|all: Seq<FlowRecord>, groups: Seq<PortStat>|
                #[trigger] crate::aggregator::records_of(all, self.entries()) && port_groups(all, groups)
                    && #[trigger] ranked_prefix(groups, res@, n as int) && forall|k: int, i: int|
                    0 <= k < groups.len() && !res@.contains(#[trigger] groups[k]) && 0 <= i
                        < res@.len() ==> (#[trigger] res@[i]).bytes >= groups[k].bytes,
            forall|i: int, j: int|
                0 <= i < j < res@.len() ==> (#[trigger] res@[i]).bytes >= (#[trigger] res@[j]).bytes,
    {
        let snap = self.snapshot();
        top_ports(snap.as_slice(), n)
    }

    /// The `n` countries with the most bytes.
    pub fn top_countries(&self, n: usize) -> (res: Vec<CountryStat>)
        ensures
            exists|all: Seq<FlowRecord>, groups: Seq<CountryStat>|
                #[trigger] crate::aggregator::records_of(all, self.entries()) && country_groups(all, groups)
                    && #[trigger] ranked_prefix(groups, res@, n as int) && forall|k: int, i: int|
                    0 <= k < groups.len() && !res@.contains(#[trigger] groups[k]) && 0 <= i
                        < res@.len() ==> (#[trigger] res@[i]).bytes >= groups[k].bytes,
            forall|i: int, j: int|
                0 <= i < j < res@.len() ==> (#[trigger] res@[i]).bytes >= (#[trigger] res@[j]).bytes,
    {
        let snap = self.snapshot();
        top_countries(snap.as_slice(), n)
    }
}

} // verus!
