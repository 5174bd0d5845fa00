//! Composition of the periodic dashboard snapshot.
//!
//! On every tick the flow table is copied, enriched, checked by the anomaly heuristics,
//! summarised and cut to the largest flows; the pieces computed here are those of the
//! snapshot that do not depend on the clock (rates per second are left to the caller).
use vstd::prelude::*;

use crate::aggregator::{sat_add, sat_sub_i64};
use crate::anomaly::{
    anomaly_views, by_severity, evaluate_anomalies, findings, first_n, MAX_ANOMALIES,
};
use crate::ranking::{lemma_ranked_prefix_order, ranked_prefix, stable_ranked_prefix, top_n_by_bytes};
use crate::summary::{
    country_groups, host_groups, port_groups, protocol_groups, top_countries, top_hosts, top_ports,
    top_protocols, totals, totals_of, CountryStat, HostStat, PortStat, ProtocolStat, Totals,
};
use crate::text::text_set;
use crate::types::{AnomalyRuleSettings, FlowAnomaly, FlowRecord};

verus! {

/// Interval between stale-flow cleanups, in milliseconds.
pub const STALE_CLEANUP_INTERVAL_MS: u64 = 5_000;

/// Length of each top list of the dashboard summary.
pub const TOP_LIST_LEN: usize = 8;

/// At most this many anomalies are shown per snapshot.
pub const MAX_TICK_ANOMALIES: usize = 100;

/// The shortest interval between two snapshots, in milliseconds.
pub const MIN_INTERVAL_MS: u64 = 100;

/// The interval between snapshots for a configured interval: never below
/// [`MIN_INTERVAL_MS`].
pub fn tick_interval_ms(interval_ms: u64) -> (res: u64)
    ensures
        res == (if interval_ms < MIN_INTERVAL_MS {
            MIN_INTERVAL_MS
        } else {
            interval_ms
        }),
{
    if interval_ms < MIN_INTERVAL_MS {
        MIN_INTERVAL_MS
    } else {
        interval_ms
    }
}

/// Whether a stale-flow cleanup is due, `elapsed_ms` after the previous one.
pub fn cleanup_due(elapsed_ms: u64) -> (res: bool)
    ensures
        res == (elapsed_ms >= STALE_CLEANUP_INTERVAL_MS),
{
    elapsed_ms >= STALE_CLEANUP_INTERVAL_MS
}

/// The inputs of a per-second rate: the growth of a counter (clamped at 0) and the
/// elapsed milliseconds (saturating), or `None` (a rate of 0) without an earlier sample
/// or when no time has passed.
pub open spec fn rate_inputs(previous: Option<(i64, u64)>, now_ms: i64, current: u64) -> Option<
    (u64, i64),
> {
    match previous {
        None => None,
        Some((prev_ms, prev_value)) => {
            let dt = sat_sub_i64(now_ms, prev_ms);
            if dt <= 0 {
                None
            } else {
                Some(
                    (
                        if current >= prev_value {
                            (current - prev_value) as u64
                        } else {
                            0
                        },
                        dt,
                    ),
                )
            }
        },
    }
}

/// The inputs of a per-second rate (see [`rate_inputs`]); the rate is
/// `delta * 1000 / dt`.
pub fn rate_parts(previous: Option<(i64, u64)>, now_ms: i64, current: u64) -> (res: Option<
    (u64, i64),
>)
    ensures
        res == rate_inputs(previous, now_ms, current),
{
    match previous {
        None => None,
        Some((prev_ms, prev_value)) => {
            let dt = crate::aggregator::saturating_sub_i64(now_ms, prev_ms);
            if dt <= 0 {
                None
            } else {
                Some((current.saturating_sub(prev_value), dt))
            }
        },
    }
}

/// The clock-independent parts of a dashboard snapshot.
#[derive(Debug)]
pub struct TickLists {
    /// Number of flows in the table.
    pub flow_count: usize,
    /// The largest flows, largest first.
    pub flows: Vec<FlowRecord>,
    /// The anomalies shown, most severe first.
    pub anomalies: Vec<FlowAnomaly>,
    pub totals: Totals,
    pub top_hosts: Vec<HostStat>,
    pub top_protocols: Vec<ProtocolStat>,
    pub top_ports: Vec<PortStat>,
    pub top_countries: Vec<CountryStat>,
}

/// The clock-independent parts of a snapshot of the (already enriched) flow table
/// `all_flows`: anomalies over the whole table (at most [`MAX_TICK_ANOMALIES`] shown),
/// totals and top lists over the whole table, and the `top_n` largest flows.
pub fn compose_tick(
    all_flows: Vec<FlowRecord>,
    flow_count: usize,
    top_n: usize,
    rules: &AnomalyRuleSettings,
    session_seen_remotes: &mut Vec<String>,
) -> (res: TickLists)
    ensures
        res.flow_count == flow_count,
        anomaly_views(res.anomalies@) == first_n(
            by_severity(
                first_n(
                    findings(all_flows@, *rules, text_set(old(session_seen_remotes)@)).0,
                    MAX_ANOMALIES as nat,
                ),
            ),
            MAX_TICK_ANOMALIES as nat,
        ),
        text_set(final(session_seen_remotes)@) == findings(
            all_flows@,
            *rules,
            text_set(old(session_seen_remotes)@),
        ).1,
        res.totals == totals_of(all_flows@),
        exists|g: Seq<HostStat>|
            host_groups(all_flows@, g) && #[trigger] ranked_prefix(
                g,
                res.top_hosts@,
                TOP_LIST_LEN as int,
            ),
        exists|g: Seq<ProtocolStat>|
            protocol_groups(all_flows@, g) && #[trigger] ranked_prefix(
                g,
                res.top_protocols@,
                TOP_LIST_LEN as int,
            ),
        exists|g: Seq<PortStat>|
            port_groups(all_flows@, g) && #[trigger] ranked_prefix(
                g,
                res.top_ports@,
                TOP_LIST_LEN as int,
            ),
        exists|g: Seq<CountryStat>|
            country_groups(all_flows@, g) && #[trigger] ranked_prefix(
                g,
                res.top_countries@,
                TOP_LIST_LEN as int,
            ),
        ranked_prefix(all_flows@, res.flows@, top_n as int),
        stable_ranked_prefix(all_flows@, res.flows@, top_n as int),
        res.anomalies@.len() <= 100,
        res.top_hosts@.len() <= 8,
        res.top_protocols@.len() <= 8,
        res.top_ports@.len() <= 8,
        res.top_countries@.len() <= 8,
        forall|i: int, j: int|
            0 <= i < j < res.top_hosts@.len() ==> (#[trigger] res.top_hosts@[i]).bytes >= (
            #[trigger] res.top_hosts@[j]).bytes,
        forall|i: int, j: int|
            0 <= i < j < res.top_protocols@.len() ==> (#[trigger] res.top_protocols@[i]).bytes >= (
            #[trigger] res.top_protocols@[j]).bytes,
        forall|i: int, j: int|
            0 <= i < j < res.top_ports@.len() ==> (#[trigger] res.top_ports@[i]).bytes >= (
            #[trigger] res.top_ports@[j]).bytes,
        forall|i: int, j: int|
            0 <= i < j < res.top_countries@.len() ==> (#[trigger] res.top_countries@[i]).bytes >= (
            #[trigger] res.top_countries@[j]).bytes,
        forall|i: int, j: int|
            0 <= i < j < res.flows@.len() ==> sat_add(
                (#[trigger] res.flows@[i]).bytes_up,
                res.flows@[i].bytes_down as int,
            ) >= sat_add((#[trigger] res.flows@[j]).bytes_up, res.flows@[j].bytes_down as int),
        res.flows@.len() == (if top_n < all_flows@.len() {
            top_n as int
        } else {
            all_flows@.len() as int
        }),
{
    let mut anomalies = evaluate_anomalies(all_flows.as_slice(), rules, session_seen_remotes);
    let ghost all_anomalies = anomaly_views(anomalies@);
    anomalies.truncate(MAX_TICK_ANOMALIES);
    assert(anomaly_views(anomalies@) =~= first_n(all_anomalies, MAX_TICK_ANOMALIES as nat));
    let t = totals(all_flows.as_slice());
    let hosts = top_hosts(all_flows.as_slice(), TOP_LIST_LEN);
    let protocols = top_protocols(all_flows.as_slice(), TOP_LIST_LEN);
    let ports = top_ports(all_flows.as_slice(), TOP_LIST_LEN);
    let countries = top_countries(all_flows.as_slice(), TOP_LIST_LEN);
    let ghost fv = all_flows@;
    let ghost gh = choose|g: Seq<HostStat>|
        host_groups(fv, g) && #[trigger] ranked_prefix(g, hosts@, TOP_LIST_LEN as int);
    let ghost gp = choose|g: Seq<ProtocolStat>|
        protocol_groups(fv, g) && #[trigger] ranked_prefix(g, protocols@, TOP_LIST_LEN as int);
    let ghost go = choose|g: Seq<PortStat>|
        port_groups(fv, g) && #[trigger] ranked_prefix(g, ports@, TOP_LIST_LEN as int);
    let ghost gc = choose|g: Seq<CountryStat>|
        country_groups(fv, g) && #[trigger] ranked_prefix(g, countries@, TOP_LIST_LEN as int);
    let flows = top_n_by_bytes(all_flows, top_n);
    proof {
        lemma_ranked_prefix_order(fv, flows@, top_n as int);
        lemma_ranked_prefix_order(gh, hosts@, TOP_LIST_LEN as int);
        lemma_ranked_prefix_order(gp, protocols@, TOP_LIST_LEN as int);
        lemma_ranked_prefix_order(go, ports@, TOP_LIST_LEN as int);
        lemma_ranked_prefix_order(gc, countries@, TOP_LIST_LEN as int);
    }
    let res = TickLists {
        flow_count,
        flows,
        anomalies,
        totals: t,
        top_hosts: hosts,
        top_protocols: protocols,
        top_ports: ports,
        top_countries: countries,
    };
    assert(host_groups(fv, gh) && ranked_prefix(gh, res.top_hosts@, TOP_LIST_LEN as int));
    assert(protocol_groups(fv, gp) && ranked_prefix(gp, res.top_protocols@, TOP_LIST_LEN as int));
    assert(port_groups(fv, go) && ranked_prefix(go, res.top_ports@, TOP_LIST_LEN as int));
    assert(country_groups(fv, gc) && ranked_prefix(gc, res.top_countries@, TOP_LIST_LEN as int));
    res
}

} // verus!
