use network_monitor::capture::CaptureStatsSnapshot;
use network_monitor::enrich::EnrichmentSnapshot;
use network_monitor::export::{
    capture_status_of, csv_escape, enrichment_status_of, export_format, flows_to_csv,
    geoip_action, protocol_to_str, ExportFormat, GeoipAction, Settings,
};
use network_monitor::types::{FlowRecord, Protocol};

#[test]
fn csv_fields_are_quoted_when_needed() {
    assert_eq!(csv_escape("plain"), "plain");
    assert_eq!(csv_escape("a,b"), "\"a,b\"");
    assert_eq!(csv_escape("say \"hi\""), "\"say \"\"hi\"\"\"");
    assert_eq!(csv_escape("two\nlines"), "\"two\nlines\"");
    assert_eq!(csv_escape(""), "");
}

#[test]
fn protocols_are_upper_case_in_exports() {
    assert_eq!(protocol_to_str(Protocol::Tcp), "TCP");
    assert_eq!(protocol_to_str(Protocol::Udp), "UDP");
    assert_eq!(protocol_to_str(Protocol::Icmp), "ICMP");
    assert_eq!(protocol_to_str(Protocol::Other), "OTHER");
}

#[test]
fn csv_export_has_header_and_one_line_per_flow() {
    let f = FlowRecord {
        id: "tcp:1.1.1.1:5-2.2.2.2:443".into(),
        src_ip: "1.1.1.1".into(),
        dst_ip: "2.2.2.2".into(),
        hostname: Some("x,y".into()),
        country: None,
        src_port: Some(5),
        dst_port: None,
        protocol: Protocol::Tcp,
        bytes_up: 10,
        bytes_down: 20,
        packets_up: 1,
        packets_down: 2,
        first_seen: -3,
        last_seen: 4,
    };
    let csv = flows_to_csv(&[f]);
    assert_eq!(
        csv,
        "id,src_ip,src_port,dst_ip,dst_port,protocol,bytes_up,bytes_down,packets_up,packets_down,hostname,country,first_seen,last_seen\n\
         tcp:1.1.1.1:5-2.2.2.2:443,1.1.1.1,5,2.2.2.2,,TCP,10,20,1,2,\"x,y\",,-3,4\n"
    );
    assert_eq!(
        flows_to_csv(&[]),
        "id,src_ip,src_port,dst_ip,dst_port,protocol,bytes_up,bytes_down,packets_up,packets_down,hostname,country,first_seen,last_seen\n"
    );
}

#[test]
fn export_formats_are_case_insensitive() {
    assert_eq!(export_format("JSON").ok(), Some(ExportFormat::Json));
    assert_eq!(export_format("csv").ok(), Some(ExportFormat::Csv));
    assert_eq!(export_format("Csv").ok(), Some(ExportFormat::Csv));
    assert_eq!(export_format("XML").err().as_deref(), Some("unsupported format: xml"));
}

#[test]
fn capture_status_reflects_session() {
    let stats = CaptureStatsSnapshot { packets_parsed: 3, packets_dropped_unparsed: 1, bytes_seen: 99 };
    let s = capture_status_of(Some(("eth0".into(), stats)), true, 7);
    assert!(s.running);
    assert!(s.paused);
    assert_eq!(s.interface.as_deref(), Some("eth0"));
    assert_eq!(s.stats.map(|x| x.bytes_seen), Some(99));
    assert_eq!(s.flow_count, 7);
    let idle = capture_status_of(None, true, 2);
    assert!(!idle.running);
    assert!(!idle.paused);
    assert!(idle.interface.is_none());
    assert!(idle.stats.is_none());
    assert_eq!(idle.flow_count, 2);
}

#[test]
fn enrichment_status_copies_counters() {
    let s = enrichment_status_of(EnrichmentSnapshot {
        cached_entries: 4,
        queue_depth: 2,
        geoip_loaded: true,
        rdns_enabled: false,
    });
    assert_eq!(s.cached_entries, 4);
    assert_eq!(s.queue_depth, 2);
    assert!(s.geoip_loaded);
    assert!(!s.rdns_enabled);
}

#[test]
fn geoip_path_changes_decide_the_action() {
    let a = Some("/db/a.mmdb".to_string());
    let b = Some("/db/b.mmdb".to_string());
    assert!(matches!(geoip_action(&a, &a.clone()), GeoipAction::Keep));
    assert!(matches!(geoip_action(&None, &None), GeoipAction::Keep));
    match geoip_action(&a, &b) {
        GeoipAction::Load(p) => assert_eq!(p, "/db/b.mmdb"),
        other => panic!("unexpected {other:?}"),
    }
    assert!(matches!(geoip_action(&a, &None), GeoipAction::Clear));
}

#[test]
fn settings_defaults() {
    let s = Settings::default();
    assert_eq!(s.snapshot_interval_ms, 750);
    assert_eq!(s.stale_after_ms, 60_000);
    assert_eq!(s.top_n, 250);
    assert!(!s.reverse_dns_enabled);
    assert!(s.geoip_db_path.is_none());
    assert!(s.anomalies.rare_port_enabled);
    assert!(!s.anomalies.geo_notice_enabled);
    assert_eq!(s.anomalies.upload_ratio_threshold_ppm, 880_000);
}
