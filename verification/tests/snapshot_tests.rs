use network_monitor::snapshot::{cleanup_due, compose_tick, rate_parts, tick_interval_ms};
use network_monitor::types::{AnomalyRuleSettings, FlowRecord, Protocol};

fn record(dst: &str, up: u64, port: u16) -> FlowRecord {
    FlowRecord {
        id: format!("f-{dst}"),
        src_ip: "10.0.0.1".into(),
        dst_ip: dst.into(),
        hostname: None,
        country: None,
        src_port: Some(5000),
        dst_port: Some(port),
        protocol: Protocol::Tcp,
        bytes_up: up,
        bytes_down: 0,
        packets_up: 1,
        packets_down: 0,
        first_seen: 0,
        last_seen: 0,
    }
}

#[test]
fn rates_need_an_earlier_sample_and_elapsed_time() {
    assert_eq!(rate_parts(None, 1_000, 50), None);
    assert_eq!(rate_parts(Some((1_000, 10)), 1_000, 50), None);
    assert_eq!(rate_parts(Some((1_000, 10)), 1_500, 50), Some((40, 500)));
    assert_eq!(rate_parts(Some((1_000, 60)), 1_500, 50), Some((0, 500)));
    assert_eq!(rate_parts(Some((i64::MIN, 0)), i64::MAX, 1), Some((1, i64::MAX)));
}

#[test]
fn intervals_have_a_floor() {
    assert_eq!(tick_interval_ms(10), 100);
    assert_eq!(tick_interval_ms(750), 750);
    assert!(cleanup_due(5_000));
    assert!(!cleanup_due(4_999));
}

#[test]
fn ticks_rank_flows_and_cap_anomalies() {
    let flows = vec![record("1.1.1.1", 10, 443), record("2.2.2.2", 35, 1337), record("3.3.3.3", 20, 443)];
    let mut seen = Vec::new();
    let tick = compose_tick(flows, 3, 2, &AnomalyRuleSettings::default(), &mut seen);
    assert_eq!(tick.flow_count, 3);
    assert_eq!(tick.flows.len(), 2);
    assert_eq!(tick.flows[0].dst_ip, "2.2.2.2");
    assert_eq!(tick.flows[1].dst_ip, "3.3.3.3");
    assert_eq!(tick.totals.bytes_up, 65);
    assert_eq!(tick.top_hosts.len(), 3);
    assert_eq!(tick.top_ports[0].port, 1337);
    assert_eq!(tick.anomalies.len(), 4);
    assert_eq!(tick.anomalies[0].rule_id, "rare_destination_port");
    assert_eq!(seen.len(), 3);
}
