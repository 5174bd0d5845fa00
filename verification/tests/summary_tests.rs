use network_monitor::aggregator::FlowAggregator;
use network_monitor::summary::{top_countries, top_hosts, totals};
use network_monitor::types::{Direction, FlowRecord, PacketEvent, Protocol};

fn pkt(src: &str, sp: u16, dst: &str, dp: u16, proto: Protocol, len: u32, dir: Direction) -> PacketEvent {
    PacketEvent {
        timestamp: 0,
        src_ip: src.into(),
        dst_ip: dst.into(),
        src_port: Some(sp),
        dst_port: Some(dp),
        protocol: proto,
        packet_length: len,
        direction: dir,
    }
}

#[test]
fn totals_sum_all_flows() {
    let mut agg = FlowAggregator::new();
    agg.ingest(&pkt("10.0.0.1", 5000, "1.1.1.1", 443, Protocol::Tcp, 100, Direction::Outbound));
    agg.ingest(&pkt("1.1.1.1", 443, "10.0.0.1", 5000, Protocol::Tcp, 200, Direction::Inbound));
    agg.ingest(&pkt("10.0.0.1", 6000, "8.8.8.8", 53, Protocol::Udp, 50, Direction::Outbound));
    let t = agg.totals();
    assert_eq!(t.bytes_up, 150);
    assert_eq!(t.bytes_down, 200);
    assert_eq!(t.packets_up, 2);
    assert_eq!(t.packets_down, 1);
}

#[test]
fn top_hosts_orders_by_total_bytes() {
    let mut agg = FlowAggregator::new();
    agg.ingest(&pkt("10.0.0.1", 5000, "1.1.1.1", 443, Protocol::Tcp, 100, Direction::Outbound));
    agg.ingest(&pkt("10.0.0.1", 5001, "8.8.8.8", 443, Protocol::Tcp, 5000, Direction::Outbound));
    agg.ingest(&pkt("10.0.0.1", 5002, "9.9.9.9", 443, Protocol::Tcp, 800, Direction::Outbound));
    let top = agg.top_hosts(2);
    assert_eq!(top.len(), 2);
    assert_eq!(top[0].ip, "8.8.8.8");
    assert_eq!(top[1].ip, "9.9.9.9");
}

#[test]
fn top_protocols_groups_correctly() {
    let mut agg = FlowAggregator::new();
    agg.ingest(&pkt("10.0.0.1", 5000, "1.1.1.1", 443, Protocol::Tcp, 100, Direction::Outbound));
    agg.ingest(&pkt("10.0.0.1", 5001, "8.8.8.8", 443, Protocol::Tcp, 200, Direction::Outbound));
    agg.ingest(&pkt("10.0.0.1", 6000, "8.8.8.8", 53, Protocol::Udp, 1000, Direction::Outbound));
    let top = agg.top_protocols(5);
    assert_eq!(top[0].protocol, Protocol::Udp);
    assert_eq!(top[0].bytes, 1000);
    assert_eq!(top[1].protocol, Protocol::Tcp);
    assert_eq!(top[1].bytes, 300);
}

#[test]
fn top_ports_uses_dst_port() {
    let mut agg = FlowAggregator::new();
    agg.ingest(&pkt("10.0.0.1", 5000, "1.1.1.1", 443, Protocol::Tcp, 100, Direction::Outbound));
    agg.ingest(&pkt("10.0.0.1", 5001, "8.8.8.8", 443, Protocol::Tcp, 200, Direction::Outbound));
    agg.ingest(&pkt("10.0.0.1", 6000, "8.8.8.8", 53, Protocol::Udp, 50, Direction::Outbound));
    let top = agg.top_ports(5);
    assert_eq!(top[0].port, 443);
    assert_eq!(top[1].port, 53);
}

#[test]
fn top_countries_skips_unenriched_flows() {
    let mut agg = FlowAggregator::new();
    agg.ingest(&pkt("10.0.0.1", 5000, "1.1.1.1", 443, Protocol::Tcp, 100, Direction::Outbound));
    // No country enrichment yet → empty result.
    let top = agg.top_countries(5);
    assert!(top.is_empty());
}

fn record(dst: &str, up: u64, down: u64, host: Option<&str>, country: Option<&str>) -> FlowRecord {
    FlowRecord {
        id: format!("id-{dst}-{up}"),
        src_ip: "10.0.0.1".into(),
        dst_ip: dst.into(),
        hostname: host.map(|s| s.to_string()),
        country: country.map(|s| s.to_string()),
        src_port: Some(5000),
        dst_port: Some(443),
        protocol: Protocol::Tcp,
        bytes_up: up,
        bytes_down: down,
        packets_up: 1,
        packets_down: 1,
        first_seen: 0,
        last_seen: 0,
    }
}

#[test]
fn host_groups_take_first_known_names_and_sum_bytes() {
    let flows = vec![
        record("1.1.1.1", 10, 0, None, None),
        record("1.1.1.1", 5, 5, Some("one.one"), Some("AU")),
        record("1.1.1.1", 1, 0, Some("other"), Some("US")),
        record("2.2.2.2", 100, 0, None, None),
    ];
    let top = top_hosts(&flows, 8);
    assert_eq!(top.len(), 2);
    assert_eq!(top[0].ip, "2.2.2.2");
    assert_eq!(top[1].ip, "1.1.1.1");
    assert_eq!(top[1].bytes, 21);
    assert_eq!(top[1].packets, 6);
    assert_eq!(top[1].hostname.as_deref(), Some("one.one"));
    assert_eq!(top[1].country.as_deref(), Some("AU"));
}

#[test]
fn country_groups_sum_and_rank() {
    let flows = vec![
        record("1.1.1.1", 10, 0, None, Some("AU")),
        record("2.2.2.2", 30, 0, None, Some("US")),
        record("3.3.3.3", 25, 0, None, Some("AU")),
    ];
    let top = top_countries(&flows, 1);
    assert_eq!(top.len(), 1);
    assert_eq!(top[0].country, "AU");
    assert_eq!(top[0].bytes, 35);
    assert_eq!(top[0].packets, 4);
}

#[test]
fn totals_saturate_and_sum_packets() {
    let flows = vec![record("1.1.1.1", u64::MAX, 3, None, None), record("2.2.2.2", 7, 4, None, None)];
    let t = totals(&flows);
    assert_eq!(t.bytes_up, u64::MAX);
    assert_eq!(t.bytes_down, 7);
    assert_eq!(t.packets_up, 2);
    assert_eq!(t.total_bytes(), u64::MAX);
    assert_eq!(t.total_packets(), 4);
}

#[test]
fn ingest_raises_totals_by_one_packet() {
    let mut agg = FlowAggregator::new();
    let mut first = pkt("10.0.0.1", 5000, "1.1.1.1", 443, Protocol::Tcp, 100, Direction::Outbound);
    first.timestamp = 50;
    agg.ingest(&first);
    let before = totals(&agg.snapshot());
    let mut reply = pkt("1.1.1.1", 443, "10.0.0.1", 5000, Protocol::Tcp, 300, Direction::Inbound);
    reply.timestamp = 20;
    agg.ingest(&reply);
    let after = totals(&agg.snapshot());
    assert_eq!(after.total_bytes(), before.total_bytes() + 300);
    assert_eq!(after.total_packets(), before.total_packets() + 1);
    let snap = agg.snapshot();
    assert_eq!(snap.len(), 1);
    assert_eq!(snap[0].first_seen, 20);
    assert_eq!(snap[0].last_seen, 50);
}
