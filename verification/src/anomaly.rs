//! Transparent heuristics over the flow table: cues for a person to look at, not
//! malware verdicts.
//!
//! Each flow is checked, in table order, against the enabled rules (rare destination
//! port, upload-heavy share, geo tag on a non-web port, first contact with a remote
//! this session). At most [`MAX_ANOMALIES`] findings are kept; they are then ordered by
//! severity (warnings first, then notices, then informational cues), keeping their
//! order within one severity.
use vstd::prelude::*;

use crate::aggregator::sat_add;
use crate::ip::{is_reasonable_inet_target, reasonable_inet_target};
use crate::text::{
    decimal, push_decimal, push_text, text_set, texts_contain, trim, trim_white_space,
};
use crate::types::{
    AnomalyRuleSettings, AnomalyView, FlowAnomaly, FlowAnomalySeverity, FlowRecord, Protocol,
    PPM_SCALE,
};

verus! {

/// At most this many findings are reported by one evaluation.
pub const MAX_ANOMALIES: usize = 300;

/// Destination ports of common services, never flagged as rare.
pub open spec fn common_port(p: u16) -> bool {
    p == 20 || p == 21 || p == 22 || p == 23 || p == 25 || p == 53 || p == 80 || p == 110 || p
        == 123 || p == 143 || p == 443 || p == 465 || p == 587 || p == 993 || p == 995 || p
        == 8080 || p == 8443 || p == 853 || p == 5228
}

/// A destination port that the rare-port rule lets pass: a common one or one of the
/// user's extra ports.
pub open spec fn allowed_dst_port(p: u16, extra: Seq<u16>) -> bool {
    common_port(p) || extra.contains(p)
}

/// Lower-case protocol label used in messages.
pub open spec fn proto_label(p: Protocol) -> Seq<char> {
    match p {
        Protocol::Tcp => "tcp"@,
        Protocol::Udp => "udp"@,
        Protocol::Icmp => "icmp"@,
        Protocol::Other => "other"@,
    }
}

/// TCP or UDP: the protocols with ports.
pub open spec fn has_ports(p: Protocol) -> bool {
    p == Protocol::Tcp || p == Protocol::Udp
}

/// Message of the rare-port rule.
pub open spec fn rare_port_message(dp: u16, p: Protocol, remote: Seq<char>) -> Seq<char> {
    "Uncommon destination port "@ + decimal(dp as nat) + " ("@ + proto_label(p) + ") toward "@
        + remote + " \u{2014} verify it matches an app you trust."@
}

/// Finding of the rare-port rule for one flow: a TCP/UDP flow toward a remote internet
/// host on a destination port that is neither common nor allowed by the user.
pub open spec fn rare_port_finding(f: FlowRecord, extra: Seq<u16>) -> Option<AnomalyView> {
    match f.dst_port {
        Some(dp) => if has_ports(f.protocol) && !allowed_dst_port(dp, extra)
            && reasonable_inet_target(f.dst_ip@) {
            Some(
                AnomalyView {
                    id: "rare_port-"@ + f.id@,
                    rule_id: "rare_destination_port"@,
                    severity: FlowAnomalySeverity::Notice,
                    flow_id: f.id@,
                    message: rare_port_message(dp, f.protocol, f.dst_ip@),
                },
            )
        } else {
            None
        },
        None => None,
    }
}

/// Bytes of a flow in both directions, clamped at `u64::MAX`.
pub open spec fn flow_total(f: FlowRecord) -> u64 {
    sat_add(f.bytes_up, f.bytes_down as int)
}

/// Whether `up` is at least `threshold_ppm` parts per million of `total`.
pub open spec fn upload_share_reached(up: u64, total: u64, threshold_ppm: u64) -> bool {
    up * PPM_SCALE >= threshold_ppm * total
}

/// `100 * up / total` rounded to the nearest integer, halves rounded to even (as a
/// percentage printed with no decimals).
pub open spec fn upload_percent(up: u64, total: u64) -> nat {
    let q = (100 * up) / (total as int);
    let r = (100 * up) % (total as int);
    if 2 * r > total || (2 * r == total && q % 2 == 1) {
        (q + 1) as nat
    } else {
        q as nat
    }
}

/// Message of the upload-share rule.
pub open spec fn high_upload_message(pct: nat, p: Protocol, remote: Seq<char>) -> Seq<char> {
    "~"@ + decimal(pct) + "% of bytes leaving your machine toward "@ + remote
        + " are upload-heavy ("@ + proto_label(p)
        + ") \u{2014} can be benign sync/backups."@
}

/// Finding of the upload-share rule for one flow: a TCP/UDP flow of at least 512 bytes
/// toward a remote internet host, of which the upload share reaches the threshold.
pub open spec fn high_upload_finding(f: FlowRecord, threshold_ppm: u64) -> Option<AnomalyView> {
    let total = flow_total(f);
    if has_ports(f.protocol) && total >= 512 && upload_share_reached(
        f.bytes_up,
        total,
        threshold_ppm,
    ) && reasonable_inet_target(f.dst_ip@) {
        Some(
            AnomalyView {
                id: "upload_ratio-"@ + f.id@,
                rule_id: "high_upload_share"@,
                severity: FlowAnomalySeverity::Notice,
                flow_id: f.id@,
                message: high_upload_message(
                    upload_percent(f.bytes_up, total),
                    f.protocol,
                    f.dst_ip@,
                ),
            },
        )
    } else {
        None
    }
}

/// Ports that pair naturally with a CDN or DNS: web (80, 443, 8080, 8443) and DNS (53, 853).
pub open spec fn geo_exempt_port(p: u16) -> bool {
    p == 80 || p == 443 || p == 8080 || p == 8443 || p == 53 || p == 853
}

/// Message of the geo rule.
pub open spec fn geo_message(remote: Seq<char>, cc: Seq<char>, dp: u16, p: Protocol) -> Seq<char> {
    "Geo tags "@ + remote + " ("@ + cc + "), but destination port="@ + decimal(dp as nat) + "/"@
        + proto_label(p) + " is not a typical CDN/DNS pairing."@
}

/// Finding of the geo rule for one flow: a flow with a non-blank country tag (compared
/// trimmed) and a destination port outside the web and DNS ports.
pub open spec fn geo_finding(f: FlowRecord) -> Option<AnomalyView> {
    match f.country {
        Some(c) => {
            let cc = trim_white_space(c@);
            match f.dst_port {
                Some(dp) => if cc.len() > 0 && !geo_exempt_port(dp) {
                    Some(
                        AnomalyView {
                            id: "geo-"@ + f.id@,
                            rule_id: "geo_non_web_service_port"@,
                            severity: FlowAnomalySeverity::Info,
                            flow_id: f.id@,
                            message: geo_message(f.dst_ip@, cc, dp, f.protocol),
                        },
                    )
                } else {
                    None
                },
                None => None,
            }
        },
        None => None,
    }
}

/// Message of the new-remote rule.
pub open spec fn new_remote_message(remote: Seq<char>) -> Seq<char> {
    "First observation this capture session toward "@ + remote + "."@
}

/// Finding of the new-remote rule: a flow toward a remote internet host that has not
/// been seen before in this session.
pub open spec fn new_remote_finding(f: FlowRecord, seen: Set<Seq<char>>) -> Option<AnomalyView> {
    if reasonable_inet_target(f.dst_ip@) && !seen.contains(f.dst_ip@) {
        Some(
            AnomalyView {
                id: "new_remote-"@ + f.id@,
                rule_id: "session_new_remote"@,
                severity: FlowAnomalySeverity::Info,
                flow_id: f.id@,
                message: new_remote_message(f.dst_ip@),
            },
        )
    } else {
        None
    }
}

/// The remotes seen this session after the new-remote rule looked at `f`.
pub open spec fn seen_after(f: FlowRecord, seen: Set<Seq<char>>) -> Set<Seq<char>> {
    if reasonable_inet_target(f.dst_ip@) {
        seen.insert(f.dst_ip@)
    } else {
        seen
    }
}

/// An optional finding as a sequence of zero or one finding.
pub open spec fn opt_seq(o: Option<AnomalyView>) -> Seq<AnomalyView> {
    match o {
        Some(a) => seq![a],
        None => seq![],
    }
}

/// The findings of the enabled rules for one flow, in rule order.
pub open spec fn flow_findings(
    f: FlowRecord,
    rules: AnomalyRuleSettings,
    seen: Set<Seq<char>>,
) -> Seq<AnomalyView> {
    opt_seq(
        if rules.rare_port_enabled {
            rare_port_finding(f, rules.rare_extra_allowlist@)
        } else {
            None
        },
    ) + opt_seq(
        if rules.high_upload_enabled {
            high_upload_finding(f, rules.upload_ratio_threshold_ppm)
        } else {
            None
        },
    ) + opt_seq(
        if rules.geo_notice_enabled {
            geo_finding(f)
        } else {
            None
        },
    ) + opt_seq(
        if rules.session_new_remote_enabled {
            new_remote_finding(f, seen)
        } else {
            None
        },
    )
}

/// The remotes seen this session after the rules looked at `f`.
pub open spec fn seen_after_flow(
    f: FlowRecord,
    rules: AnomalyRuleSettings,
    seen: Set<Seq<char>>,
) -> Set<Seq<char>> {
    if rules.session_new_remote_enabled {
        seen_after(f, seen)
    } else {
        seen
    }
}

/// The findings for a table of flows, in table order and rule order, and the remotes
/// seen afterwards, starting from the remotes `seen` before.
pub open spec fn findings(
    flows: Seq<FlowRecord>,
    rules: AnomalyRuleSettings,
    seen: Set<Seq<char>>,
) -> (Seq<AnomalyView>, Set<Seq<char>>)
    decreases flows.len(),
{
    if flows.len() == 0 {
        (seq![], seen)
    } else {
        let (out, s) = findings(flows.drop_last(), rules, seen);
        (
            out + flow_findings(flows.last(), rules, s),
            seen_after_flow(flows.last(), rules, s),
        )
    }
}

/// Findings of the given severity.
pub open spec fn has_severity(sev: FlowAnomalySeverity) -> spec_fn(AnomalyView) -> bool {
    |a: AnomalyView| a.severity == sev
}

/// A stable ordering by severity: warnings, then notices, then informational cues, each
/// group in the order it had.
pub open spec fn by_severity(s: Seq<AnomalyView>) -> Seq<AnomalyView> {
    s.filter(has_severity(FlowAnomalySeverity::Warn)) + s.filter(
        has_severity(FlowAnomalySeverity::Notice),
    ) + s.filter(has_severity(FlowAnomalySeverity::Info))
}

/// The first `n` elements of `s` (all of them when there are fewer).
pub open spec fn first_n(s: Seq<AnomalyView>, n: nat) -> Seq<AnomalyView> {
    if s.len() > n {
        s.subrange(0, n as int)
    } else {
        s
    }
}

/// The values of a list of anomalies.
pub open spec fn anomaly_views(v: Seq<FlowAnomaly>) -> Seq<AnomalyView> {
    v.map_values(|a: FlowAnomaly| a@)
}

/// The value of an optional anomaly.
pub open spec fn opt_view(o: Option<FlowAnomaly>) -> Option<AnomalyView> {
    match o {
        Some(a) => Some(a@),
        None => None,
    }
}

/// Lower-case protocol label used in messages.
pub fn format_proto(p: Protocol) -> (res: &'static str)
    ensures
        res@ == proto_label(p),
{
    match p {
        Protocol::Tcp => "tcp",
        Protocol::Udp => "udp",
        Protocol::Icmp => "icmp",
        Protocol::Other => "other",
    }
}

/// Whether `p` is the destination port of a common service.
pub fn is_common_port(p: u16) -> (res: bool)
    ensures
        res == common_port(p),
{
    match p {
        20 | 21 | 22 | 23 | 25 | 53 | 80 | 110 | 123 | 143 | 443 | 465 | 587 | 993 | 995 | 8080
        | 8443 | 853 | 5228 => true,
        _ => false,
    }
}

/// Whether the rare-port rule lets destination port `dp` pass.
pub fn is_allowed_dst_port(dp: u16, rules: &AnomalyRuleSettings) -> (res: bool)
    ensures
        res == allowed_dst_port(dp, rules.rare_extra_allowlist@),
{
    if is_common_port(dp) {
        return true;
    }
    let extra = &rules.rare_extra_allowlist;
    let mut i: usize = 0;
    while i < extra.len()
        invariant
            extra@ == rules.rare_extra_allowlist@,
            !common_port(dp),
            i <= extra@.len(),
            forall|j: int| 0 <= j < i ==> extra@[j] != dp,
        decreases extra@.len() - i,
    {
        if extra[i] == dp {
            assert(extra@[i as int] == dp);
            assert(extra@.contains(dp));
            return true;
        }
        i = i + 1;
    }
    false
}

/// The rare-port rule on one flow.
pub fn eval_rare_port(f: &FlowRecord, rules: &AnomalyRuleSettings) -> (res: Option<FlowAnomaly>)
    ensures
        opt_view(res) == rare_port_finding(*f, rules.rare_extra_allowlist@),
{
    let dp = match f.dst_port {
        Some(p) => p,
        None => return None,
    };
    match f.protocol {
        Protocol::Tcp | Protocol::Udp => {},
        _ => return None,
    }
    if is_allowed_dst_port(dp, rules) {
        return None;
    }
    let remote = f.dst_ip.as_str();
    if !is_reasonable_inet_target(remote) {
        return None;
    }
    let mut id = String::from_str("rare_port-");
    push_text(&mut id, f.id.as_str());
    let mut message = String::from_str("Uncommon destination port ");
    push_decimal(&mut message, dp as u64);
    push_text(&mut message, " (");
    push_text(&mut message, format_proto(f.protocol));
    push_text(&mut message, ") toward ");
    push_text(&mut message, remote);
    push_text(&mut message, " \u{2014} verify it matches an app you trust.");
    Some(
        FlowAnomaly {
            id,
            rule_id: String::from_str("rare_destination_port"),
            severity: FlowAnomalySeverity::Notice,
            flow_id: f.id.clone(),
            message,
        },
    )
}

/// `100 * up / total` rounded to the nearest integer, halves rounded to even.
pub fn upload_percent_of(up: u64, total: u64) -> (res: u128)
    requires
        total > 0,
    ensures
        res == upload_percent(up, total),
{
    let num: u128 = 100 * (up as u128);
    let den: u128 = total as u128;
    let q = num / den;
    let r = num % den;
    if 2 * r > den || (2 * r == den && q % 2 == 1) {
        assert(q * den + r == num && 0 <= r < den) by (nonlinear_arith)
            requires
                q == num / den,
                r == num % den,
                den > 0,
        ;
        assert(q < num) by (nonlinear_arith)
            requires
                q * den + r == num,
                2 * r >= den,
                den > 0,
                r >= 0,
        ;
        q + 1
    } else {
        q
    }
}

/// The upload-share rule on one flow.
pub fn eval_high_upload(f: &FlowRecord, rules: &AnomalyRuleSettings) -> (res: Option<FlowAnomaly>)
    ensures
        opt_view(res) == high_upload_finding(*f, rules.upload_ratio_threshold_ppm),
{
    match f.protocol {
        Protocol::Tcp | Protocol::Udp => {},
        _ => return None,
    }
    let total = f.bytes_up.saturating_add(f.bytes_down);
    if total < 512 {
        return None;
    }
    let scaled_up: u128 = (f.bytes_up as u128) * (PPM_SCALE as u128);
    assert((rules.upload_ratio_threshold_ppm as u128) * (total as u128) <= u64::MAX * u64::MAX)
        by (nonlinear_arith);
    let scaled_threshold: u128 = (rules.upload_ratio_threshold_ppm as u128) * (total as u128);
    if scaled_up < scaled_threshold {
        return None;
    }
    let remote = f.dst_ip.as_str();
    if !is_reasonable_inet_target(remote) {
        return None;
    }
    let pct = upload_percent_of(f.bytes_up, total);
    assert(pct <= u64::MAX) by (nonlinear_arith)
        requires
            pct == upload_percent(f.bytes_up, total),
            total >= 512,
    {
        let q = (100 * f.bytes_up) / (total as int);
        assert(q * total <= 100 * f.bytes_up);
        assert(q <= 100 * f.bytes_up / 512);
    }
    let mut id = String::from_str("upload_ratio-");
    push_text(&mut id, f.id.as_str());
    let mut message = String::from_str("~");
    push_decimal(&mut message, pct as u64);
    push_text(&mut message, "% of bytes leaving your machine toward ");
    push_text(&mut message, remote);
    push_text(&mut message, " are upload-heavy (");
    push_text(&mut message, format_proto(f.protocol));
    push_text(&mut message, ") \u{2014} can be benign sync/backups.");
    Some(
        FlowAnomaly {
            id,
            rule_id: String::from_str("high_upload_share"),
            severity: FlowAnomalySeverity::Notice,
            flow_id: f.id.clone(),
            message,
        },
    )
}

/// The geo rule on one flow.
pub fn eval_geo_notice(f: &FlowRecord) -> (res: Option<FlowAnomaly>)
    ensures
        opt_view(res) == geo_finding(*f),
{
    let cc = match &f.country {
        Some(c) => trim(c.as_str()),
        None => return None,
    };
    if cc.as_str().is_empty() {
        return None;
    }
    let dp = match f.dst_port {
        Some(p) => p,
        None => return None,
    };
    let web_ok = dp == 80 || dp == 443 || dp == 8080 || dp == 8443;
    if web_ok || dp == 53 || dp == 853 {
        return None;
    }
    let remote = f.dst_ip.as_str();
    let mut id = String::from_str("geo-");
    push_text(&mut id, f.id.as_str());
    let mut message = String::from_str("Geo tags ");
    push_text(&mut message, remote);
    push_text(&mut message, " (");
    push_text(&mut message, cc.as_str());
    push_text(&mut message, "), but destination port=");
    push_decimal(&mut message, dp as u64);
    push_text(&mut message, "/");
    push_text(&mut message, format_proto(f.protocol));
    push_text(&mut message, " is not a typical CDN/DNS pairing.");
    Some(
        FlowAnomaly {
            id,
            rule_id: String::from_str("geo_non_web_service_port"),
            severity: FlowAnomalySeverity::Info,
            flow_id: f.id.clone(),
            message,
        },
    )
}

/// The new-remote rule on one flow; records the flow's remote as seen.
pub fn eval_session_new_remote(f: &FlowRecord, seen: &mut Vec<String>) -> (res: Option<
    FlowAnomaly,
>)
    ensures
        opt_view(res) == new_remote_finding(*f, text_set(old(seen)@)),
        text_set(final(seen)@) == seen_after(*f, text_set(old(seen)@)),
{
    let remote = f.dst_ip.as_str();
    if !is_reasonable_inet_target(remote) {
        return None;
    }
    if texts_contain(seen, remote) {
        proof {
            assert(text_set(old(seen)@).insert(remote@) =~= text_set(old(seen)@));
        }
        return None;
    }
    let ghost before = seen@;
    seen.push(String::from_str(remote));
    proof {
        let g = |s: String| s@;
        assert(seen@.map_values(g) =~= before.map_values(g).push(remote@));
        before.map_values(g).lemma_push_to_set_commute(remote@);
    }
    let mut id = String::from_str("new_remote-");
    push_text(&mut id, f.id.as_str());
    let mut message = String::from_str("First observation this capture session toward ");
    push_text(&mut message, remote);
    push_text(&mut message, ".");
    Some(
        FlowAnomaly {
            id,
            rule_id: String::from_str("session_new_remote"),
            severity: FlowAnomalySeverity::Info,
            flow_id: f.id.clone(),
            message,
        },
    )
}

/// Appends the optional finding `o`.
fn push_opt(out: &mut Vec<FlowAnomaly>, o: Option<FlowAnomaly>)
    ensures
        anomaly_views(final(out)@) == anomaly_views(old(out)@) + opt_seq(opt_view(o)),
{
    let ghost before = out@;
    match o {
        Some(a) => {
            out.push(a);
            assert(anomaly_views(out@) =~= anomaly_views(before) + opt_seq(opt_view(o)));
        },
        None => {
            assert(anomaly_views(out@) =~= anomaly_views(before) + opt_seq(opt_view(o)));
        },
    }
}

/// The findings of the enabled rules for one flow, in rule order; records the flow's
/// remote as seen when the new-remote rule is enabled.
pub fn flow_anomalies(f: &FlowRecord, rules: &AnomalyRuleSettings, seen: &mut Vec<String>) -> (res:
    Vec<FlowAnomaly>)
    ensures
        anomaly_views(res@) == flow_findings(*f, *rules, text_set(old(seen)@)),
        text_set(final(seen)@) == seen_after_flow(*f, *rules, text_set(old(seen)@)),
{
    let mut found: Vec<FlowAnomaly> = Vec::new();
    let rare = if rules.rare_port_enabled {
        eval_rare_port(f, rules)
    } else {
        None
    };
    push_opt(&mut found, rare);
    let upload = if rules.high_upload_enabled {
        eval_high_upload(f, rules)
    } else {
        None
    };
    push_opt(&mut found, upload);
    let geo = if rules.geo_notice_enabled {
        eval_geo_notice(f)
    } else {
        None
    };
    push_opt(&mut found, geo);
    let new_remote = if rules.session_new_remote_enabled {
        eval_session_new_remote(f, seen)
    } else {
        None
    };
    push_opt(&mut found, new_remote);
    assert(anomaly_views(found@) =~= flow_findings(*f, *rules, text_set(old(seen)@)));
    found
}

/// Appends, in their order, the anomalies of `src` that have severity `sev`.
fn push_with_severity(res: &mut Vec<FlowAnomaly>, src: &Vec<FlowAnomaly>, sev: FlowAnomalySeverity)
    ensures
        anomaly_views(final(res)@) == anomaly_views(old(res)@) + anomaly_views(src@).filter(
            has_severity(sev),
        ),
{
    let ghost start = anomaly_views(res@);
    let ghost all = anomaly_views(src@);
    let mut i: usize = 0;
    while i < src.len()
        invariant
            i <= src@.len(),
            all == anomaly_views(src@),
            anomaly_views(res@) == start + all.subrange(0, i as int).filter(has_severity(sev)),
        decreases src@.len() - i,
    {
        let ghost before = res@;
        proof {
            reveal(Seq::filter);
            assert(all.subrange(0, i + 1).drop_last() =~= all.subrange(0, i as int));
            assert(all.subrange(0, i + 1).last() == src@[i as int]@);
        }
        if src[i].severity == sev {
            res.push(src[i].clone());
            assert(anomaly_views(res@) =~= anomaly_views(before).push(src@[i as int]@));
        }
        i = i + 1;
    }
    assert(all.subrange(0, src@.len() as int) =~= all);
}

/// Evaluates the enabled heuristic rules over the whole flow table.
///
/// The findings come per flow in table order, and per flow in rule order (rare port,
/// upload share, geo tag, new remote); remotes met for the first time are added to
/// `session_seen_remotes`. At most [`MAX_ANOMALIES`] findings are kept, and these are
/// ordered by severity, warnings first, keeping their order within a severity.
pub fn evaluate_anomalies(
    flows: &[FlowRecord],
    rules: &AnomalyRuleSettings,
    session_seen_remotes: &mut Vec<String>,
) -> (res: Vec<FlowAnomaly>)
    ensures
        anomaly_views(res@) == by_severity(
            first_n(
                findings(flows@, *rules, text_set(old(session_seen_remotes)@)).0,
                MAX_ANOMALIES as nat,
            ),
        ),
        text_set(final(session_seen_remotes)@) == findings(
            flows@,
            *rules,
            text_set(old(session_seen_remotes)@),
        ).1,
{
    let ghost seen0 = text_set(session_seen_remotes@);
    let mut out: Vec<FlowAnomaly> = Vec::new();
    let mut i: usize = 0;
    while i < flows.len()
        invariant
            i <= flows@.len(),
            (anomaly_views(out@), text_set(session_seen_remotes@)) == findings(
                flows@.subrange(0, i as int),
                *rules,
                seen0,
            ),
        decreases flows@.len() - i,
    {
        let ghost before = out@;
        let mut found = flow_anomalies(&flows[i], rules, session_seen_remotes);
        out.append(&mut found);
        proof {
            let sub = flows@.subrange(0, i + 1);
            assert(sub.drop_last() =~= flows@.subrange(0, i as int));
            assert(sub.last() == flows@[i as int]);
            assert(anomaly_views(out@) =~= anomaly_views(before) + flow_findings(
                flows@[i as int],
                *rules,
                findings(flows@.subrange(0, i as int), *rules, seen0).1,
            ));
        }
        i = i + 1;
    }
    assert(flows@.subrange(0, flows@.len() as int) =~= flows@);
    let ghost all = anomaly_views(out@);
    if out.len() > MAX_ANOMALIES {
        out.truncate(MAX_ANOMALIES);
    }
    assert(anomaly_views(out@) =~= first_n(all, MAX_ANOMALIES as nat));
    let mut res: Vec<FlowAnomaly> = Vec::new();
    push_with_severity(&mut res, &out, FlowAnomalySeverity::Warn);
    push_with_severity(&mut res, &out, FlowAnomalySeverity::Notice);
    push_with_severity(&mut res, &out, FlowAnomalySeverity::Info);
    assert(anomaly_views(res@) =~= by_severity(anomaly_views(out@)));
    res
}

/// No finding of `s` is a first-contact cue.
pub open spec fn no_new_remote(s: Seq<AnomalyView>) -> bool {
    forall|j: int| 0 <= j < s.len() ==> s[j].rule_id != "session_new_remote"@
}

/// The remotes recorded by an evaluation include those known before and, when the
/// new-remote rule is enabled, every remote internet host of the table.
proof fn lemma_seen_grows(flows: Seq<FlowRecord>, rules: AnomalyRuleSettings, seen: Set<Seq<char>>)
    ensures
        seen.subset_of(findings(flows, rules, seen).1),
        rules.session_new_remote_enabled ==> forall|k: int|
            0 <= k < flows.len() && reasonable_inet_target(#[trigger] flows[k].dst_ip@)
                ==> findings(flows, rules, seen).1.contains(flows[k].dst_ip@),
    decreases flows.len(),
{
    if flows.len() > 0 {
        let rest = flows.drop_last();
        lemma_seen_grows(rest, rules, seen);
        let s = findings(rest, rules, seen).1;
        assert forall|k: int|
            0 <= k < flows.len() - 1 implies #[trigger] flows[k] == rest[k] by {}
    }
}

/// The findings of one flow other than the first-contact cue.
proof fn lemma_other_rule_ids(f: FlowRecord, rules: AnomalyRuleSettings)
    ensures
        rules.rare_port_enabled ==> no_new_remote(opt_seq(rare_port_finding(f, rules.rare_extra_allowlist@))),
        rules.high_upload_enabled ==> no_new_remote(opt_seq(high_upload_finding(f, rules.upload_ratio_threshold_ppm))),
        rules.geo_notice_enabled ==> no_new_remote(opt_seq(geo_finding(f))),
{
    reveal_strlit("session_new_remote");
    reveal_strlit("rare_destination_port");
    reveal_strlit("high_upload_share");
    reveal_strlit("geo_non_web_service_port");
    assert("rare_destination_port"@ != "session_new_remote"@) by {
        assert("rare_destination_port"@.len() != "session_new_remote"@.len());
    }
    assert("high_upload_share"@ != "session_new_remote"@) by {
        assert("high_upload_share"@.len() != "session_new_remote"@.len());
    }
    let r = rare_port_finding(f, rules.rare_extra_allowlist@);
    let u = high_upload_finding(f, rules.upload_ratio_threshold_ppm);
    if r is Some {
        assert(opt_seq(r)[0] == r->0);
    }
    if u is Some {
        assert(opt_seq(u)[0] == u->0);
    }
    assert("geo_non_web_service_port"@ != "session_new_remote"@) by {
        assert("geo_non_web_service_port"@.len() != "session_new_remote"@.len());
    }
    let g = geo_finding(f);
    if g is Some {
        assert(opt_seq(g)[0] == g->0);
    }
}

/// With every remote internet host of the table already seen, an evaluation reports no
/// first-contact cue.
proof fn lemma_no_new_remote(flows: Seq<FlowRecord>, rules: AnomalyRuleSettings, seen: Set<Seq<char>>)
    requires
        forall|k: int|
            0 <= k < flows.len() && reasonable_inet_target(#[trigger] flows[k].dst_ip@)
                ==> seen.contains(flows[k].dst_ip@),
    ensures
        no_new_remote(findings(flows, rules, seen).0),
    decreases flows.len(),
{
    if flows.len() > 0 {
        let rest = flows.drop_last();
        let f = flows.last();
        assert forall|k: int|
            0 <= k < rest.len() && reasonable_inet_target(#[trigger] rest[k].dst_ip@)
                implies seen.contains(rest[k].dst_ip@) by {
            assert(rest[k] == flows[k]);
        }
        lemma_no_new_remote(rest, rules, seen);
        lemma_seen_grows(rest, rules, seen);
        lemma_other_rule_ids(f, rules);
        let (o, s) = findings(rest, rules, seen);
        assert(reasonable_inet_target(f.dst_ip@) ==> seen.contains(flows[flows.len() - 1].dst_ip@));
        assert(new_remote_finding(f, s) is None);
        let ff = flow_findings(f, rules, s);
        assert(no_new_remote(ff));
        assert(no_new_remote(o + ff)) by {
            assert forall|j: int| 0 <= j < (o + ff).len() implies (o + ff)[j].rule_id
                != "session_new_remote"@ by {
                if j < o.len() {
                    assert((o + ff)[j] == o[j]);
                } else {
                    assert((o + ff)[j] == ff[j - o.len()]);
                }
            }
        }
    }
}

/// Every element of a filtered sequence is an element of the sequence.
proof fn lemma_filter_elements(s: Seq<AnomalyView>, pred: spec_fn(AnomalyView) -> bool)
    ensures
        forall|i: int| 0 <= i < s.filter(pred).len() ==> s.contains(#[trigger] s.filter(pred)[i]),
    decreases s.len(),
{
    reveal(Seq::filter);
    if s.len() > 0 {
        let rest = s.drop_last();
        lemma_filter_elements(rest, pred);
        assert forall|i: int| 0 <= i < s.filter(pred).len() implies s.contains(
            #[trigger] s.filter(pred)[i],
        ) by {
            if i < rest.filter(pred).len() {
                let x = rest.filter(pred)[i];
                assert(s.filter(pred)[i] == x);
                assert(rest.contains(x));
                let j = choose|j: int| 0 <= j < rest.len() && rest[j] == x;
                assert(s[j] == x);
            } else {
                assert(s.filter(pred)[i] == s.last());
                assert(s[s.len() - 1] == s.last());
            }
        }
    }
}

/// Ordering by severity and keeping the first findings add no first-contact cue.
proof fn lemma_no_new_remote_kept(s: Seq<AnomalyView>)
    requires
        no_new_remote(s),
    ensures
        no_new_remote(by_severity(first_n(s, MAX_ANOMALIES as nat))),
{
    lemma_kept_from(s);
    let kept = by_severity(first_n(s, MAX_ANOMALIES as nat));
    assert forall|j: int| 0 <= j < kept.len() implies kept[j].rule_id != "session_new_remote"@ by {
        assert(s.contains(kept[j]));
        let k = choose|k: int| 0 <= k < s.len() && s[k] == kept[j];
        assert(s[k].rule_id != "session_new_remote"@);
    }
}

/// Each remote gets its first-contact cue at most once per session: evaluating the same
/// flow table again, with the remotes recorded by a first evaluation, reports no
/// first-contact cue.
pub proof fn lemma_new_remote_reported_once(
    flows: Seq<FlowRecord>,
    rules: AnomalyRuleSettings,
    seen: Set<Seq<char>>,
)
    ensures
        no_new_remote(
            by_severity(
                first_n(
                    findings(flows, rules, findings(flows, rules, seen).1).0,
                    MAX_ANOMALIES as nat,
                ),
            ),
        ),
{
    let seen1 = findings(flows, rules, seen).1;
    lemma_seen_grows(flows, rules, seen);
    if rules.session_new_remote_enabled {
        lemma_no_new_remote(flows, rules, seen1);
        lemma_no_new_remote_kept(findings(flows, rules, seen1).0);
    } else {
        lemma_no_new_remote_disabled(flows, rules, seen1);
        lemma_no_new_remote_kept(findings(flows, rules, seen1).0);
    }
}

/// With the new-remote rule disabled, an evaluation reports no first-contact cue.
proof fn lemma_no_new_remote_disabled(
    flows: Seq<FlowRecord>,
    rules: AnomalyRuleSettings,
    seen: Set<Seq<char>>,
)
    requires
        !rules.session_new_remote_enabled,
    ensures
        no_new_remote(findings(flows, rules, seen).0),
    decreases flows.len(),
{
    if flows.len() > 0 {
        let rest = flows.drop_last();
        lemma_no_new_remote_disabled(rest, rules, seen);
        lemma_other_rule_ids(flows.last(), rules);
        let (o, s) = findings(rest, rules, seen);
        let ff = flow_findings(flows.last(), rules, s);
        assert(no_new_remote(ff));
        assert forall|j: int| 0 <= j < (o + ff).len() implies (o + ff)[j].rule_id
            != "session_new_remote"@ by {
            if j < o.len() {
                assert((o + ff)[j] == o[j]);
            } else {
                assert((o + ff)[j] == ff[j - o.len()]);
            }
        }
    }
}

/// Every finding of `s` refers to one of `flows`.
pub open spec fn refers_to_flows(s: Seq<AnomalyView>, flows: Seq<FlowRecord>) -> bool {
    forall|j: int|
        0 <= j < s.len() ==> exists|i: int| 0 <= i < flows.len() && #[trigger] s[j].flow_id == flows[i].id@
}

/// The findings of one flow refer to it.
proof fn lemma_flow_findings_refer(f: FlowRecord, rules: AnomalyRuleSettings, seen: Set<Seq<char>>)
    ensures
        forall|j: int|
            0 <= j < flow_findings(f, rules, seen).len() ==> (#[trigger] flow_findings(
                f,
                rules,
                seen,
            )[j]).flow_id == f.id@,
{
    let r = if rules.rare_port_enabled {
        rare_port_finding(f, rules.rare_extra_allowlist@)
    } else {
        None
    };
    let u = if rules.high_upload_enabled {
        high_upload_finding(f, rules.upload_ratio_threshold_ppm)
    } else {
        None
    };
    let g = if rules.geo_notice_enabled {
        geo_finding(f)
    } else {
        None
    };
    let n = if rules.session_new_remote_enabled {
        new_remote_finding(f, seen)
    } else {
        None
    };
    let ff = flow_findings(f, rules, seen);
    assert(ff == opt_seq(r) + opt_seq(u) + opt_seq(g) + opt_seq(n));
    assert forall|j: int| 0 <= j < ff.len() implies (#[trigger] ff[j]).flow_id == f.id@ by {
        let a = opt_seq(r);
        let b = opt_seq(u);
        let c = opt_seq(g);
        let d = opt_seq(n);
        if j < a.len() {
            assert(ff[j] == a[j]);
        } else if j < a.len() + b.len() {
            assert(ff[j] == b[j - a.len()]);
        } else if j < a.len() + b.len() + c.len() {
            assert(ff[j] == c[j - a.len() - b.len()]);
        } else {
            assert(ff[j] == d[j - a.len() - b.len() - c.len()]);
        }
    }
}

/// The findings of a table refer to its flows.
proof fn lemma_findings_refer(flows: Seq<FlowRecord>, rules: AnomalyRuleSettings, seen: Set<Seq<char>>)
    ensures
        refers_to_flows(findings(flows, rules, seen).0, flows),
    decreases flows.len(),
{
    if flows.len() > 0 {
        let rest = flows.drop_last();
        lemma_findings_refer(rest, rules, seen);
        let (o, s) = findings(rest, rules, seen);
        let f = flows.last();
        lemma_flow_findings_refer(f, rules, s);
        let ff = flow_findings(f, rules, s);
        let all = o + ff;
        assert forall|j: int| 0 <= j < all.len() implies exists|i: int|
            0 <= i < flows.len() && #[trigger] all[j].flow_id == flows[i].id@ by {
            if j < o.len() {
                assert(all[j] == o[j]);
                let i = choose|i: int| 0 <= i < rest.len() && o[j].flow_id == rest[i].id@;
                assert(flows[i] == rest[i]);
            } else {
                assert(all[j] == ff[j - o.len()]);
                assert(flows[flows.len() - 1] == f);
            }
        }
    }
}

/// The findings kept and ordered by severity are findings of `s`.
proof fn lemma_kept_from(s: Seq<AnomalyView>)
    ensures
        forall|j: int|
            0 <= j < by_severity(first_n(s, MAX_ANOMALIES as nat)).len() ==> s.contains(
                #[trigger] by_severity(first_n(s, MAX_ANOMALIES as nat))[j],
            ),
{
    let t = first_n(s, MAX_ANOMALIES as nat);
    let w = t.filter(has_severity(FlowAnomalySeverity::Warn));
    let n = t.filter(has_severity(FlowAnomalySeverity::Notice));
    let i = t.filter(has_severity(FlowAnomalySeverity::Info));
    lemma_filter_elements(t, has_severity(FlowAnomalySeverity::Warn));
    lemma_filter_elements(t, has_severity(FlowAnomalySeverity::Notice));
    lemma_filter_elements(t, has_severity(FlowAnomalySeverity::Info));
    let all = w + n + i;
    assert forall|j: int| 0 <= j < all.len() implies s.contains(#[trigger] all[j]) by {
        let x = all[j];
        if j < w.len() {
            assert(x == w[j]);
            assert(t.contains(w[j]));
        } else if j < w.len() + n.len() {
            assert(x == n[j - w.len()]);
            assert(t.contains(n[j - w.len()]));
        } else {
            assert(x == i[j - w.len() - n.len()]);
            assert(t.contains(i[j - w.len() - n.len()]));
        }
        let k = choose|k: int| 0 <= k < t.len() && t[k] == x;
        assert(s[k] == x);
    }
}

/// Every reported cue refers to a flow of the table it was computed from, which may lie
/// outside the largest flows that are shown.
pub proof fn lemma_findings_refer_to_flows(
    flows: Seq<FlowRecord>,
    rules: AnomalyRuleSettings,
    seen: Set<Seq<char>>,
)
    ensures
        refers_to_flows(
            by_severity(first_n(findings(flows, rules, seen).0, MAX_ANOMALIES as nat)),
            flows,
        ),
{
    let s = findings(flows, rules, seen).0;
    lemma_findings_refer(flows, rules, seen);
    lemma_kept_from(s);
    let kept = by_severity(first_n(s, MAX_ANOMALIES as nat));
    assert forall|j: int| 0 <= j < kept.len() implies exists|i: int|
        0 <= i < flows.len() && #[trigger] kept[j].flow_id == flows[i].id@ by {
        assert(s.contains(kept[j]));
        let k = choose|k: int| 0 <= k < s.len() && s[k] == kept[j];
        assert(s[k].flow_id == kept[j].flow_id);
    }
}

/// The rank of a severity in the reported order: warnings first, then notices, then
/// informational cues.
pub open spec fn severity_rank(s: FlowAnomalySeverity) -> int {
    match s {
        FlowAnomalySeverity::Warn => 0,
        FlowAnomalySeverity::Notice => 1,
        FlowAnomalySeverity::Info => 2,
    }
}

/// `id` is the id of a rule that `rules` enables.
pub open spec fn rule_enabled(id: Seq<char>, rules: AnomalyRuleSettings) -> bool {
    ||| id == "rare_destination_port"@ && rules.rare_port_enabled
    ||| id == "high_upload_share"@ && rules.high_upload_enabled
    ||| id == "geo_non_web_service_port"@ && rules.geo_notice_enabled
    ||| id == "session_new_remote"@ && rules.session_new_remote_enabled
}

/// `a` is the first-contact cue for the remote `x`.
pub open spec fn new_remote_cue_for(a: AnomalyView, x: Seq<char>) -> bool {
    a.rule_id == "session_new_remote"@ && a.message == new_remote_message(x)
}

/// The destinations of `flows` that are remote internet hosts.
pub open spec fn reasonable_dsts(flows: Seq<FlowRecord>) -> Set<Seq<char>> {
    Set::new(
        |x: Seq<char>|
            exists|i: int|
                0 <= i < flows.len() && #[trigger] flows[i].dst_ip@ == x && reasonable_inet_target(
                    x,
                ),
    )
}

/// Two first-contact messages are equal only for the same remote.
proof fn lemma_new_remote_message_injective(x: Seq<char>, y: Seq<char>)
    requires
        new_remote_message(x) == new_remote_message(y),
    ensures
        x == y,
{
    let p = "First observation this capture session toward "@;
    reveal_strlit(".");
    let mx = new_remote_message(x);
    let my = new_remote_message(y);
    assert(mx.len() == p.len() + x.len() + 1);
    assert(my.len() == p.len() + y.len() + 1);
    assert(x =~= mx.subrange(p.len() as int, (p.len() + x.len()) as int));
    assert(y =~= my.subrange(p.len() as int, (p.len() + y.len()) as int));
}

/// The findings of one flow: each of an enabled rule, and a first-contact cue only at
/// the end, as the flow's new-remote finding.
proof fn lemma_flow_findings_shape(f: FlowRecord, rules: AnomalyRuleSettings, seen: Set<Seq<char>>)
    ensures
        forall|j: int|
            0 <= j < flow_findings(f, rules, seen).len() ==> rule_enabled(
                (#[trigger] flow_findings(f, rules, seen)[j]).rule_id,
                rules,
            ),
        forall|j: int|
            0 <= j < flow_findings(f, rules, seen).len() && (#[trigger] flow_findings(
                f,
                rules,
                seen,
            )[j]).rule_id == "session_new_remote"@ ==> j == flow_findings(f, rules, seen).len()
                - 1 && rules.session_new_remote_enabled && new_remote_finding(f, seen) == Some(
                flow_findings(f, rules, seen)[j],
            ),
{
    lemma_other_rule_ids(f, rules);
    let r = if rules.rare_port_enabled {
        rare_port_finding(f, rules.rare_extra_allowlist@)
    } else {
        None
    };
    let u = if rules.high_upload_enabled {
        high_upload_finding(f, rules.upload_ratio_threshold_ppm)
    } else {
        None
    };
    let g = if rules.geo_notice_enabled {
        geo_finding(f)
    } else {
        None
    };
    let n = if rules.session_new_remote_enabled {
        new_remote_finding(f, seen)
    } else {
        None
    };
    let a = opt_seq(r);
    let b = opt_seq(u);
    let c = opt_seq(g);
    let d = opt_seq(n);
    let ff = flow_findings(f, rules, seen);
    assert(ff == a + b + c + d);
    assert forall|j: int| 0 <= j < ff.len() implies rule_enabled((#[trigger] ff[j]).rule_id, rules)
        && (ff[j].rule_id == "session_new_remote"@ ==> j == ff.len() - 1
        && rules.session_new_remote_enabled && new_remote_finding(f, seen) == Some(ff[j])) by {
        if j < a.len() {
            assert(ff[j] == a[j]);
        } else if j < a.len() + b.len() {
            assert(ff[j] == b[j - a.len()]);
        } else if j < a.len() + b.len() + c.len() {
            assert(ff[j] == c[j - a.len() - b.len()]);
        } else {
            assert(ff[j] == d[j - a.len() - b.len() - c.len()]);
        }
    }
}

/// The shape of the findings of a table: each of an enabled rule, first-contact cues
/// (which are informational) only for remotes not seen before and seen afterwards, at
/// most one per remote; and the remotes seen afterwards.
proof fn lemma_findings_shape(flows: Seq<FlowRecord>, rules: AnomalyRuleSettings, seen: Set<Seq<char>>)
    ensures
        ({
            let (found, after) = findings(flows, rules, seen);
            &&& forall|j: int| 0 <= j < found.len() ==> rule_enabled((#[trigger] found[j]).rule_id, rules)
            &&& forall|j: int|
                0 <= j < found.len() && (#[trigger] found[j]).rule_id == "session_new_remote"@
                    ==> found[j].severity == FlowAnomalySeverity::Info
            &&& forall|j: int, x: Seq<char>|
                0 <= j < found.len() && #[trigger] new_remote_cue_for(found[j], x) ==> !seen.contains(
                    x,
                ) && after.contains(x)
            &&& forall|i: int, j: int, x: Seq<char>|
                0 <= i < j < found.len() && #[trigger] new_remote_cue_for(found[i], x)
                    ==> !#[trigger] new_remote_cue_for(found[j], x)
            &&& after == seen + (if rules.session_new_remote_enabled {
                reasonable_dsts(flows)
            } else {
                Set::<Seq<char>>::empty()
            })
        }),
    decreases flows.len(),
{
    let (found, after) = findings(flows, rules, seen);
    if flows.len() == 0 {
        assert(reasonable_dsts(flows) =~= Set::<Seq<char>>::empty());
        assert(seen + Set::<Seq<char>>::empty() =~= seen);
    } else {
        let rest = flows.drop_last();
        let f = flows.last();
        lemma_findings_shape(rest, rules, seen);
        let (o, s) = findings(rest, rules, seen);
        lemma_flow_findings_shape(f, rules, s);
        let ff = flow_findings(f, rules, s);
        assert(found == o + ff);
        assert(after == seen_after_flow(f, rules, s));
        let add = if rules.session_new_remote_enabled {
            reasonable_dsts(flows)
        } else {
            Set::<Seq<char>>::empty()
        };
        assert(after =~= seen + add) by {
            if rules.session_new_remote_enabled {
                assert forall|x: Seq<char>| reasonable_dsts(flows).contains(x) <==> (
                reasonable_dsts(rest).contains(x) || (x == f.dst_ip@ && reasonable_inet_target(x))) by {
                    if reasonable_dsts(flows).contains(x) {
                        let i = choose|i: int|
                            0 <= i < flows.len() && #[trigger] flows[i].dst_ip@ == x
                                && reasonable_inet_target(x);
                        if i < rest.len() {
                            assert(rest[i] == flows[i]);
                        }
                    }
                    if reasonable_dsts(rest).contains(x) {
                        let i = choose|i: int|
                            0 <= i < rest.len() && #[trigger] rest[i].dst_ip@ == x
                                && reasonable_inet_target(x);
                        assert(flows[i] == rest[i]);
                    }
                    if x == f.dst_ip@ && reasonable_inet_target(x) {
                        assert(flows[flows.len() - 1] == f);
                    }
                }
            }
        }
        assert forall|j: int| 0 <= j < found.len() implies rule_enabled((#[trigger] found[j]).rule_id, rules)
            && (found[j].rule_id == "session_new_remote"@ ==> found[j].severity
            == FlowAnomalySeverity::Info) by {
            if j < o.len() {
                assert(found[j] == o[j]);
            } else {
                assert(found[j] == ff[j - o.len()]);
            }
        }
        assert forall|j: int, x: Seq<char>|
            0 <= j < found.len() && #[trigger] new_remote_cue_for(found[j], x) implies !seen.contains(x)
            && after.contains(x) by {
            if j < o.len() {
                assert(found[j] == o[j]);
            } else {
                let k = j - o.len();
                assert(found[j] == ff[k]);
                lemma_new_remote_message_injective(x, f.dst_ip@);
                lemma_seen_grows(rest, rules, seen);
            }
        }
        assert forall|i: int, j: int, x: Seq<char>|
            0 <= i < j < found.len() && #[trigger] new_remote_cue_for(found[i], x) implies !#[trigger] new_remote_cue_for(
            found[j],
            x,
        ) by {
            if j < o.len() {
                assert(found[i] == o[i] && found[j] == o[j]);
            } else if i < o.len() {
                assert(found[i] == o[i]);
                assert(found[j] == ff[j - o.len()]);
                if new_remote_cue_for(found[j], x) {
                    lemma_new_remote_message_injective(x, f.dst_ip@);
                }
            } else {
                assert(found[i] == ff[i - o.len()]);
                assert(found[j] == ff[j - o.len()]);
            }
        }
    }
}

/// Filtering keeps the order of the elements it keeps: any two kept elements come from two
/// positions of the sequence in the same order.
proof fn lemma_filter_positions(s: Seq<AnomalyView>, pred: spec_fn(AnomalyView) -> bool)
    ensures
        forall|i: int, j: int|
            0 <= i < j < s.filter(pred).len() ==> exists|k1: int, k2: int|
                0 <= k1 < k2 < s.len() && s[k1] == #[trigger] s.filter(pred)[i] && s[k2]
                    == #[trigger] s.filter(pred)[j],
    decreases s.len(),
{
    reveal(Seq::filter);
    if s.len() > 0 {
        let d = s.drop_last();
        lemma_filter_positions(d, pred);
        lemma_filter_elements(d, pred);
        let fs = s.filter(pred);
        let fd = d.filter(pred);
        assert forall|i: int, j: int| 0 <= i < j < fs.len() implies exists|k1: int, k2: int|
            0 <= k1 < k2 < s.len() && s[k1] == #[trigger] fs[i] && s[k2] == #[trigger] fs[j] by {
            if j < fd.len() {
                assert(fs[i] == fd[i] && fs[j] == fd[j]);
                let (k1, k2) = choose|k1: int, k2: int|
                    0 <= k1 < k2 < d.len() && d[k1] == #[trigger] fd[i] && d[k2] == #[trigger] fd[j];
                assert(s[k1] == d[k1] && s[k2] == d[k2]);
            } else {
                assert(fs[i] == fd[i]);
                assert(d.contains(fd[i]));
                let k1 = choose|k1: int| 0 <= k1 < d.len() && d[k1] == fd[i];
                assert(s[k1] == d[k1]);
                assert(fs[j] == s.last());
                assert(s[s.len() - 1] == s.last());
            }
        }
    }
}

/// The three severity groups together hold every element once.
proof fn lemma_filter_partition(t: Seq<AnomalyView>)
    ensures
        t.filter(has_severity(FlowAnomalySeverity::Warn)).len() + t.filter(
            has_severity(FlowAnomalySeverity::Notice),
        ).len() + t.filter(has_severity(FlowAnomalySeverity::Info)).len() == t.len(),
    decreases t.len(),
{
    reveal(Seq::filter);
    if t.len() > 0 {
        lemma_filter_partition(t.drop_last());
    }
}

/// What an evaluation reports: at most [`MAX_ANOMALIES`] cues, ordered by severity, each
/// naming a flow of the table and an enabled rule; the remotes seen afterwards are those
/// seen before and, with the new-remote rule on, every remote internet host of the table;
/// a first-contact cue is never given for a remote seen before, nor twice for one remote.
pub proof fn lemma_evaluation_shape(
    flows: Seq<FlowRecord>,
    rules: AnomalyRuleSettings,
    seen: Set<Seq<char>>,
)
    ensures
        ({
            let (found, after) = findings(flows, rules, seen);
            let out = by_severity(first_n(found, MAX_ANOMALIES as nat));
            &&& out.len() <= 300
            &&& forall|i: int, j: int|
                0 <= i < j < out.len() ==> severity_rank((#[trigger] out[i]).severity)
                    <= severity_rank((#[trigger] out[j]).severity)
            &&& refers_to_flows(out, flows)
            &&& forall|j: int| 0 <= j < out.len() ==> rule_enabled((#[trigger] out[j]).rule_id, rules)
            &&& after == seen + (if rules.session_new_remote_enabled {
                reasonable_dsts(flows)
            } else {
                Set::<Seq<char>>::empty()
            })
            &&& forall|j: int, x: Seq<char>|
                0 <= j < out.len() && #[trigger] new_remote_cue_for(out[j], x) ==> !seen.contains(x)
            &&& forall|i: int, j: int, x: Seq<char>|
                0 <= i < j < out.len() && #[trigger] new_remote_cue_for(out[i], x)
                    ==> !#[trigger] new_remote_cue_for(out[j], x)
        }),
{
    let (found, after) = findings(flows, rules, seen);
    lemma_findings_shape(flows, rules, seen);
    lemma_findings_refer_to_flows(flows, rules, seen);
    let t = first_n(found, MAX_ANOMALIES as nat);
    let out = by_severity(t);
    lemma_kept_from(found);
    lemma_filter_partition(t);
    let pw = has_severity(FlowAnomalySeverity::Warn);
    let pn = has_severity(FlowAnomalySeverity::Notice);
    let pi = has_severity(FlowAnomalySeverity::Info);
    let w = t.filter(pw);
    let n = t.filter(pn);
    let i = t.filter(pi);
    assert(out == w + n + i);
    assert forall|k: int| 0 <= k < w.len() implies (#[trigger] w[k]).severity == FlowAnomalySeverity::Warn by {
        t.lemma_filter_pred(pw, k);
    }
    assert forall|k: int| 0 <= k < n.len() implies (#[trigger] n[k]).severity == FlowAnomalySeverity::Notice by {
        t.lemma_filter_pred(pn, k);
    }
    assert forall|k: int| 0 <= k < i.len() implies (#[trigger] i[k]).severity == FlowAnomalySeverity::Info by {
        t.lemma_filter_pred(pi, k);
    }
    assert forall|a: int| 0 <= a < out.len() implies severity_rank((#[trigger] out[a]).severity) == (
    if a < w.len() {
        0int
    } else if a < w.len() + n.len() {
        1int
    } else {
        2int
    }) by {
        if a < w.len() {
            assert(out[a] == w[a]);
        } else if a < w.len() + n.len() {
            assert(out[a] == n[a - w.len()]);
        } else {
            assert(out[a] == i[a - w.len() - n.len()]);
        }
    }
    assert forall|a: int, b: int| 0 <= a < b < out.len() implies severity_rank((#[trigger] out[a]).severity)
        <= severity_rank((#[trigger] out[b]).severity) by {}
    assert forall|j: int| 0 <= j < out.len() implies rule_enabled((#[trigger] out[j]).rule_id, rules)
        && (forall|x: Seq<char>| #[trigger] new_remote_cue_for(out[j], x) ==> !seen.contains(x)) by {
        assert(found.contains(out[j]));
        let k = choose|k: int| 0 <= k < found.len() && found[k] == out[j];
        assert forall|x: Seq<char>| #[trigger] new_remote_cue_for(out[j], x) implies !seen.contains(x) by {
            assert(new_remote_cue_for(found[k], x));
        }
    }
    lemma_filter_positions(t, pi);
    assert forall|a: int, b: int, x: Seq<char>|
        0 <= a < b < out.len() && #[trigger] new_remote_cue_for(out[a], x) implies !#[trigger] new_remote_cue_for(
        out[b],
        x,
    ) by {
        if new_remote_cue_for(out[b], x) {
            assert(found.contains(out[a]) && found.contains(out[b]));
            let ka = choose|k: int| 0 <= k < found.len() && found[k] == out[a];
            let kb = choose|k: int| 0 <= k < found.len() && found[k] == out[b];
            assert(found[ka].rule_id == "session_new_remote"@);
            assert(found[kb].rule_id == "session_new_remote"@);
            // both are informational, so both lie in the last group
            assert(a >= w.len() + n.len());
            assert(b >= w.len() + n.len());
            let ia = a - w.len() - n.len();
            let ib = b - w.len() - n.len();
            assert(out[a] == i[ia] && out[b] == i[ib]);
            let (k1, k2) = choose|k1: int, k2: int|
                0 <= k1 < k2 < t.len() && t[k1] == #[trigger] i[ia] && t[k2] == #[trigger] i[ib];
            assert(t[k1] == found[k1] && t[k2] == found[k2]);
            assert(new_remote_cue_for(found[k1], x));
        }
    }
}

/// The rare-port rule passes every flow toward the port of a common service, whatever
/// the user's extra ports: FTP (20, 21), SSH (22), Telnet (23), SMTP (25, 465, 587), DNS
/// (53, 853), HTTP (80, 8080), POP3 (110, 995), NTP (123), IMAP (143, 993), HTTPS (443,
/// 8443) and 5228.
pub proof fn lemma_common_ports_never_rare(f: FlowRecord, extra: Seq<u16>, p: u16)
    requires
        f.dst_port == Some(p),
        p == 20 || p == 21 || p == 22 || p == 23 || p == 25 || p == 53 || p == 80 || p == 110
            || p == 123 || p == 143 || p == 443 || p == 465 || p == 587 || p == 993 || p == 995
            || p == 8080 || p == 8443 || p == 853 || p == 5228,
    ensures
        allowed_dst_port(p, extra),
        rare_port_finding(f, extra) is None,
{
}

/// Every other destination port of a TCP or UDP flow toward a remote internet host is
/// reported as rare unless the user allowed it, as a notice naming the port.
pub proof fn lemma_other_ports_are_rare(f: FlowRecord, extra: Seq<u16>, p: u16)
    requires
        f.dst_port == Some(p),
        !(p == 20 || p == 21 || p == 22 || p == 23 || p == 25 || p == 53 || p == 80 || p == 110
            || p == 123 || p == 143 || p == 443 || p == 465 || p == 587 || p == 993 || p == 995
            || p == 8080 || p == 8443 || p == 853 || p == 5228),
        !extra.contains(p),
        f.protocol == Protocol::Tcp || f.protocol == Protocol::Udp,
        reasonable_inet_target(f.dst_ip@),
    ensures
        !allowed_dst_port(p, extra),
        rare_port_finding(f, extra) is Some,
        rare_port_finding(f, extra).unwrap().rule_id == "rare_destination_port"@,
        rare_port_finding(f, extra).unwrap().severity == FlowAnomalySeverity::Notice,
        rare_port_finding(f, extra).unwrap().message == "Uncommon destination port "@ + decimal(
            p as nat,
        ) + " ("@ + proto_label(f.protocol) + ") toward "@ + f.dst_ip@
            + " \u{2014} verify it matches an app you trust."@,
{
}

/// The geo rule never reports a flow toward a web port (80, 443, 8080, 8443) or a DNS
/// port (53, 853), whatever its country tag.
pub proof fn lemma_geo_exempt_ports(f: FlowRecord, p: u16)
    requires
        f.dst_port == Some(p),
        p == 80 || p == 443 || p == 8080 || p == 8443 || p == 53 || p == 853,
    ensures
        geo_finding(f) is None,
{
}

/// A flow with a non-blank country tag toward any other destination port is reported by
/// the geo rule, as information naming the remote, the trimmed tag and the port.
pub proof fn lemma_geo_other_ports(f: FlowRecord, c: String, p: u16)
    requires
        f.country == Some(c),
        trim_white_space(c@).len() > 0,
        f.dst_port == Some(p),
        !(p == 80 || p == 443 || p == 8080 || p == 8443 || p == 53 || p == 853),
    ensures
        geo_finding(f) is Some,
        geo_finding(f).unwrap().rule_id == "geo_non_web_service_port"@,
        geo_finding(f).unwrap().severity == FlowAnomalySeverity::Info,
        geo_finding(f).unwrap().message == "Geo tags "@ + f.dst_ip@ + " ("@ + trim_white_space(c@)
            + "), but destination port="@ + decimal(p as nat) + "/"@ + proto_label(f.protocol)
            + " is not a typical CDN/DNS pairing."@,
{
}

/// The printed upload percentage is `100 * up / total` rounded to the nearest integer:
/// it lies within half a unit of the exact value, and an exact half goes to the even one.
pub proof fn lemma_upload_percent_nearest(up: u64, total: u64)
    requires
        total > 0,
    ensures
        ({
            let d = 100 * up - upload_percent(up, total) * total;
            &&& -total <= 2 * d <= total
            &&& (2 * d == total || 2 * d == -total) ==> upload_percent(up, total) % 2 == 0
        }),
{
    let t = total as int;
    let num = 100 * up;
    vstd::arithmetic::div_mod::lemma_fundamental_div_mod(num, t);
    let q = num / t;
    let r = num % t;
    assert(num == t * q + r);
    assert(0 <= r < t);
    let pct = upload_percent(up, total) as int;
    if 2 * r > t || (2 * r == t && q % 2 == 1) {
        assert(pct == q + 1);
        assert(num - pct * t == r - t) by (nonlinear_arith)
            requires
                num == t * q + r,
                pct == q + 1,
        ;
    } else {
        assert(pct == q);
        assert(num - pct * t == r) by (nonlinear_arith)
            requires
                num == t * q + r,
                pct == q,
        ;
    }
}

/// The upload-share rule never reports a flow of fewer than 512 bytes in all, nor one
/// whose upload share, in parts per million of its bytes, stays under the threshold.
pub proof fn lemma_upload_rule_needs_volume_and_share(f: FlowRecord, threshold_ppm: u64)
    requires
        f.bytes_up + f.bytes_down < 512 || (f.bytes_up + f.bytes_down <= u64::MAX && f.bytes_up
            * 1_000_000 < threshold_ppm * (f.bytes_up + f.bytes_down)),
    ensures
        high_upload_finding(f, threshold_ppm) is None,
{
}

/// A TCP or UDP flow of at least 512 bytes toward a remote internet host whose upload
/// share reaches the threshold is reported as upload-heavy, with its rounded percentage.
pub proof fn lemma_upload_rule_fires(f: FlowRecord, threshold_ppm: u64)
    requires
        512 <= f.bytes_up + f.bytes_down <= u64::MAX,
        f.bytes_up * 1_000_000 >= threshold_ppm * (f.bytes_up + f.bytes_down),
        f.protocol == Protocol::Tcp || f.protocol == Protocol::Udp,
        reasonable_inet_target(f.dst_ip@),
    ensures
        high_upload_finding(f, threshold_ppm) is Some,
        high_upload_finding(f, threshold_ppm).unwrap().rule_id == "high_upload_share"@,
        high_upload_finding(f, threshold_ppm).unwrap().severity == FlowAnomalySeverity::Notice,
        high_upload_finding(f, threshold_ppm).unwrap().message == high_upload_message(
            upload_percent(f.bytes_up, (f.bytes_up + f.bytes_down) as u64),
            f.protocol,
            f.dst_ip@,
        ),
{
}

} // verus!
