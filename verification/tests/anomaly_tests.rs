use network_monitor::anomaly::{
    eval_geo_notice, eval_high_upload, eval_rare_port, eval_session_new_remote, evaluate_anomalies,
    format_proto, is_allowed_dst_port, upload_percent_of, MAX_ANOMALIES,
};
use network_monitor::types::{AnomalyRuleSettings, FlowAnomalySeverity, FlowRecord, Protocol};

fn sample_tcp_flow(port: u16, up: u64, down: u64) -> FlowRecord {
    FlowRecord {
        id: "t1".into(),
        src_ip: "192.168.1.50".into(),
        dst_ip: "8.8.8.8".into(),
        hostname: None,
        country: None,
        src_port: Some(50_000),
        dst_port: Some(port),
        protocol: Protocol::Tcp,
        bytes_up: up,
        bytes_down: down,
        packets_up: 1,
        packets_down: 1,
        first_seen: 0,
        last_seen: 0,
    }
}

#[test]
fn rare_port_triggers() {
    let f = sample_tcp_flow(1337, 100, 100);
    let mut seen = Vec::new();
    let rules = AnomalyRuleSettings::default();
    let out = evaluate_anomalies(&[f], &rules, &mut seen);
    assert!(out.iter().any(|a| a.rule_id == "rare_destination_port"));
}

#[test]
fn high_upload_triggers() {
    let f = sample_tcp_flow(443, 9000, 200);
    let mut seen = Vec::new();
    let rules = AnomalyRuleSettings::default();
    let out = evaluate_anomalies(&[f], &rules, &mut seen);
    assert!(out.iter().any(|a| a.rule_id == "high_upload_share"));
}

fn rules_only(rare: bool, upload: bool, geo: bool, new_remote: bool) -> AnomalyRuleSettings {
    let mut r = AnomalyRuleSettings::default();
    r.rare_port_enabled = rare;
    r.high_upload_enabled = upload;
    r.geo_notice_enabled = geo;
    r.session_new_remote_enabled = new_remote;
    r
}

#[test]
fn rare_port_message_is_exact() {
    let f = sample_tcp_flow(1337, 100, 100);
    let a = eval_rare_port(&f, &AnomalyRuleSettings::default()).expect("finding");
    assert_eq!(a.id, "rare_port-t1");
    assert_eq!(a.flow_id, "t1");
    assert_eq!(a.severity, FlowAnomalySeverity::Notice);
    assert_eq!(
        a.message,
        "Uncommon destination port 1337 (tcp) toward 8.8.8.8 \u{2014} verify it matches an app you trust."
    );
}

#[test]
fn rare_port_respects_common_and_extra_ports() {
    let rules = AnomalyRuleSettings::default();
    assert!(eval_rare_port(&sample_tcp_flow(5228, 1, 1), &rules).is_none());
    let mut extra = AnomalyRuleSettings::default();
    extra.rare_extra_allowlist = vec![1337];
    assert!(is_allowed_dst_port(1337, &extra));
    assert!(!is_allowed_dst_port(1338, &extra));
    assert!(eval_rare_port(&sample_tcp_flow(1337, 1, 1), &extra).is_none());
}

#[test]
fn rare_port_skips_private_destinations_and_icmp() {
    let rules = AnomalyRuleSettings::default();
    let mut f = sample_tcp_flow(1337, 1, 1);
    f.dst_ip = "192.168.1.1".into();
    assert!(eval_rare_port(&f, &rules).is_none());
    let mut g = sample_tcp_flow(1337, 1, 1);
    g.protocol = Protocol::Icmp;
    assert!(eval_rare_port(&g, &rules).is_none());
}

#[test]
fn high_upload_percent_and_message() {
    let f = sample_tcp_flow(443, 9000, 200);
    let a = eval_high_upload(&f, &AnomalyRuleSettings::default()).expect("finding");
    assert_eq!(a.id, "upload_ratio-t1");
    assert_eq!(
        a.message,
        "~98% of bytes leaving your machine toward 8.8.8.8 are upload-heavy (tcp) \u{2014} can be benign sync/backups."
    );
    assert_eq!(upload_percent_of(9000, 9200), 98);
    assert_eq!(upload_percent_of(1, 2), 50);
    assert_eq!(upload_percent_of(1, 200), 0);
    assert_eq!(upload_percent_of(3, 200), 2);
    assert_eq!(upload_percent_of(320, 512), 62);
    assert_eq!(upload_percent_of(2, 3), 67);
    assert_eq!(upload_percent_of(1, 201), 0);
}

#[test]
fn upload_percent_halves_round_to_even() {
    let mut rules = AnomalyRuleSettings::default();
    rules.upload_ratio_threshold_ppm = 600_000;
    let a = eval_high_upload(&sample_tcp_flow(443, 320, 192), &rules).expect("finding");
    assert!(a.message.starts_with("~62% of bytes"));
}

#[test]
fn high_upload_needs_volume_and_share() {
    let rules = AnomalyRuleSettings::default();
    assert!(eval_high_upload(&sample_tcp_flow(443, 500, 11), &rules).is_none());
    assert!(eval_high_upload(&sample_tcp_flow(443, 880, 120), &rules).is_some());
    assert!(eval_high_upload(&sample_tcp_flow(443, 879, 121), &rules).is_none());
}

#[test]
fn geo_rule_flags_non_web_ports() {
    let mut f = sample_tcp_flow(22, 1, 1);
    f.country = Some("  DE ".into());
    let a = eval_geo_notice(&f).expect("finding");
    assert_eq!(a.id, "geo-t1");
    assert_eq!(a.rule_id, "geo_non_web_service_port");
    assert_eq!(a.severity, FlowAnomalySeverity::Info);
    assert_eq!(
        a.message,
        "Geo tags 8.8.8.8 (DE), but destination port=22/tcp is not a typical CDN/DNS pairing."
    );
    f.dst_port = Some(853);
    assert!(eval_geo_notice(&f).is_none());
    f.dst_port = Some(22);
    f.country = Some("   ".into());
    assert!(eval_geo_notice(&f).is_none());
}

#[test]
fn new_remote_is_reported_once_per_session() {
    let f = sample_tcp_flow(443, 1, 1);
    let mut seen = Vec::new();
    let a = eval_session_new_remote(&f, &mut seen).expect("first contact");
    assert_eq!(a.message, "First observation this capture session toward 8.8.8.8.");
    assert!(eval_session_new_remote(&f, &mut seen).is_none());
    assert_eq!(seen, vec!["8.8.8.8".to_string()]);
    let rules = AnomalyRuleSettings::default();
    let again = evaluate_anomalies(&[sample_tcp_flow(443, 1, 1)], &rules, &mut seen);
    assert!(again.iter().all(|a| a.rule_id != "session_new_remote"));
}

#[test]
fn findings_are_ordered_by_severity() {
    let mut f = sample_tcp_flow(1337, 1, 1);
    f.country = Some("DE".into());
    let rules = rules_only(true, true, true, true);
    let mut seen = Vec::new();
    let out = evaluate_anomalies(&[f], &rules, &mut seen);
    let ids: Vec<&str> = out.iter().map(|a| a.rule_id.as_str()).collect();
    assert_eq!(ids, vec!["rare_destination_port", "geo_non_web_service_port", "session_new_remote"]);
}

#[test]
fn findings_are_capped() {
    let mut flows = Vec::new();
    for i in 0..400u32 {
        let mut f = sample_tcp_flow(1337, 1, 1);
        f.id = format!("f{i}");
        f.dst_ip = format!("8.8.{}.{}", i / 200, i % 200);
        flows.push(f);
    }
    let mut seen = Vec::new();
    let out = evaluate_anomalies(&flows, &rules_only(true, false, false, true), &mut seen);
    assert_eq!(out.len(), MAX_ANOMALIES);
    assert_eq!(out[0].id, "rare_port-f0");
    assert_eq!(out[149].id, "rare_port-f149");
    assert_eq!(out[150].id, "new_remote-f0");
    assert_eq!(seen.len(), 400);
}

#[test]
fn protocol_labels_are_lower_case() {
    assert_eq!(format_proto(Protocol::Tcp), "tcp");
    assert_eq!(format_proto(Protocol::Udp), "udp");
    assert_eq!(format_proto(Protocol::Icmp), "icmp");
    assert_eq!(format_proto(Protocol::Other), "other");
}

#[test]
fn every_cue_names_one_of_the_flows() {
    let mut a = sample_tcp_flow(1337, 9000, 100);
    a.id = "a".into();
    let mut b = sample_tcp_flow(443, 1, 1);
    b.id = "b".into();
    b.dst_ip = "1.1.1.1".into();
    let mut seen = Vec::new();
    let out = evaluate_anomalies(&[a, b], &rules_only(true, true, true, true), &mut seen);
    assert_eq!(out.len(), 4);
    assert!(out.iter().all(|x| x.flow_id == "a" || x.flow_id == "b"));
}

#[test]
fn seen_remotes_grow_by_public_destinations_only() {
    let mut a = sample_tcp_flow(443, 1, 1);
    a.id = "a".into();
    let mut b = sample_tcp_flow(443, 1, 1);
    b.id = "b".into();
    let mut c = sample_tcp_flow(443, 1, 1);
    c.id = "c".into();
    c.dst_ip = "10.0.0.9".into();
    let mut d = sample_tcp_flow(443, 1, 1);
    d.id = "d".into();
    d.dst_ip = "1.1.1.1".into();
    let flows = vec![a, b, c, d];
    let mut seen = vec!["1.1.1.1".to_string()];
    let out = evaluate_anomalies(&flows, &rules_only(false, false, false, true), &mut seen);
    let ids: Vec<&str> = out.iter().map(|x| x.id.as_str()).collect();
    assert_eq!(ids, vec!["new_remote-a"]);
    let mut sorted = seen.clone();
    sorted.sort();
    assert_eq!(sorted, vec!["1.1.1.1".to_string(), "8.8.8.8".to_string()]);

    let mut untouched = vec!["1.1.1.1".to_string()];
    let none = evaluate_anomalies(&flows, &rules_only(true, true, true, false), &mut untouched);
    assert!(none.iter().all(|x| x.rule_id != "session_new_remote"));
    assert_eq!(untouched, vec!["1.1.1.1".to_string()]);
}
