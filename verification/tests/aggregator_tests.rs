use network_monitor::aggregator::FlowAggregator;
use network_monitor::types::{Direction, PacketEvent, Protocol};

fn pkt(
    ts: i64,
    src_ip: &str,
    dst_ip: &str,
    src_port: u16,
    dst_port: u16,
    proto: Protocol,
    len: u32,
    dir: Direction,
) -> PacketEvent {
    PacketEvent {
        timestamp: ts,
        src_ip: src_ip.into(),
        dst_ip: dst_ip.into(),
        src_port: Some(src_port),
        dst_port: Some(dst_port),
        protocol: proto,
        packet_length: len,
        direction: dir,
    }
}

#[test]
fn single_packet_creates_one_flow() {
    let mut agg = FlowAggregator::new();
    agg.ingest(&pkt(1, "10.0.0.1", "8.8.8.8", 5000, 443, Protocol::Tcp, 100, Direction::Outbound));
    assert_eq!(agg.flow_count(), 1);
    let snap = agg.snapshot();
    assert_eq!(snap.len(), 1);
    let f = &snap[0];
    assert_eq!(f.src_ip, "10.0.0.1");
    assert_eq!(f.dst_ip, "8.8.8.8");
    assert_eq!(f.bytes_up, 100);
    assert_eq!(f.bytes_down, 0);
    assert_eq!(f.packets_up, 1);
    assert_eq!(f.first_seen, 1);
    assert_eq!(f.last_seen, 1);
}

#[test]
fn same_direction_packets_accumulate() {
    let mut agg = FlowAggregator::new();
    agg.ingest(&pkt(1, "10.0.0.1", "8.8.8.8", 5000, 443, Protocol::Tcp, 100, Direction::Outbound));
    agg.ingest(&pkt(2, "10.0.0.1", "8.8.8.8", 5000, 443, Protocol::Tcp, 200, Direction::Outbound));
    let snap = agg.snapshot();
    assert_eq!(snap.len(), 1);
    assert_eq!(snap[0].bytes_up, 300);
    assert_eq!(snap[0].packets_up, 2);
    assert_eq!(snap[0].last_seen, 2);
}

#[test]
fn reply_packet_lands_on_same_flow_and_increments_down() {
    let mut agg = FlowAggregator::new();
    agg.ingest(&pkt(1, "10.0.0.1", "8.8.8.8", 5000, 443, Protocol::Tcp, 100, Direction::Outbound));
    agg.ingest(&pkt(2, "8.8.8.8", "10.0.0.1", 443, 5000, Protocol::Tcp, 250, Direction::Inbound));
    assert_eq!(agg.flow_count(), 1);
    let f = &agg.snapshot()[0];
    assert_eq!(f.bytes_up, 100);
    assert_eq!(f.bytes_down, 250);
    assert_eq!(f.packets_up, 1);
    assert_eq!(f.packets_down, 1);
    assert_eq!(f.first_seen, 1);
    assert_eq!(f.last_seen, 2);
}

#[test]
fn different_protocol_is_different_flow() {
    let mut agg = FlowAggregator::new();
    agg.ingest(&pkt(1, "10.0.0.1", "8.8.8.8", 5000, 443, Protocol::Tcp, 100, Direction::Outbound));
    agg.ingest(&pkt(2, "10.0.0.1", "8.8.8.8", 5000, 443, Protocol::Udp, 100, Direction::Outbound));
    assert_eq!(agg.flow_count(), 2);
}

#[test]
fn different_ports_are_different_flows() {
    let mut agg = FlowAggregator::new();
    agg.ingest(&pkt(1, "10.0.0.1", "8.8.8.8", 5000, 443, Protocol::Tcp, 100, Direction::Outbound));
    agg.ingest(&pkt(2, "10.0.0.1", "8.8.8.8", 5001, 443, Protocol::Tcp, 100, Direction::Outbound));
    assert_eq!(agg.flow_count(), 2);
}

#[test]
fn cleanup_stale_removes_old_flows() {
    let mut agg = FlowAggregator::with_stale_after_ms(1_000);
    agg.ingest(&pkt(1_000, "10.0.0.1", "8.8.8.8", 5000, 443, Protocol::Tcp, 100, Direction::Outbound));
    agg.ingest(&pkt(5_000, "10.0.0.1", "1.1.1.1", 5001, 443, Protocol::Tcp, 100, Direction::Outbound));
    // now=5500: cutoff=4500, so the 1000ms flow is stale, the 5000ms is not.
    let removed = agg.cleanup_stale(5_500);
    assert_eq!(removed, 1);
    assert_eq!(agg.flow_count(), 1);
}

#[test]
fn snapshot_top_sorts_by_total_bytes() {
    let mut agg = FlowAggregator::new();
    agg.ingest(&pkt(1, "10.0.0.1", "1.1.1.1", 5000, 443, Protocol::Tcp, 100, Direction::Outbound));
    agg.ingest(&pkt(2, "10.0.0.1", "8.8.8.8", 5001, 443, Protocol::Tcp, 5000, Direction::Outbound));
    agg.ingest(&pkt(3, "10.0.0.1", "9.9.9.9", 5002, 443, Protocol::Tcp, 800, Direction::Outbound));
    let top = agg.snapshot_top(2);
    assert_eq!(top.len(), 2);
    assert_eq!(top[0].dst_ip, "8.8.8.8");
    assert_eq!(top[1].dst_ip, "9.9.9.9");
}

#[test]
fn unknown_direction_packet_counts_as_up() {
    let mut agg = FlowAggregator::new();
    agg.ingest(&pkt(1, "10.0.0.1", "8.8.8.8", 5000, 443, Protocol::Tcp, 100, Direction::Unknown));
    let f = &agg.snapshot()[0];
    assert_eq!(f.bytes_up, 100);
    assert_eq!(f.bytes_down, 0);
}

#[test]
fn clear_resets_flows() {
    let mut agg = FlowAggregator::new();
    agg.ingest(&pkt(1, "10.0.0.1", "8.8.8.8", 5000, 443, Protocol::Tcp, 100, Direction::Outbound));
    agg.clear();
    assert_eq!(agg.flow_count(), 0);
}

#[test]
fn inbound_first_packet_makes_destination_the_up_side() {
    let mut agg = FlowAggregator::new();
    agg.ingest(&pkt(7, "8.8.8.8", "10.0.0.1", 443, 5000, Protocol::Tcp, 60, Direction::Inbound));
    let f = &agg.snapshot()[0];
    assert_eq!(f.src_ip, "10.0.0.1");
    assert_eq!(f.dst_ip, "8.8.8.8");
    assert_eq!(f.src_port, Some(5000));
    assert_eq!(f.bytes_up, 0);
    assert_eq!(f.bytes_down, 60);
    assert_eq!(f.packets_down, 1);
    assert_eq!(f.id, "tcp:10.0.0.1:5000-8.8.8.8:443");
}

#[test]
fn out_of_order_timestamps_widen_the_seen_interval() {
    let mut agg = FlowAggregator::new();
    agg.ingest(&pkt(50, "10.0.0.1", "8.8.8.8", 5000, 443, Protocol::Tcp, 10, Direction::Outbound));
    agg.ingest(&pkt(20, "10.0.0.1", "8.8.8.8", 5000, 443, Protocol::Tcp, 10, Direction::Outbound));
    agg.ingest(&pkt(90, "10.0.0.1", "8.8.8.8", 5000, 443, Protocol::Tcp, 10, Direction::Outbound));
    let f = &agg.snapshot()[0];
    assert_eq!(f.first_seen, 20);
    assert_eq!(f.last_seen, 90);
}

#[test]
fn byte_counters_saturate() {
    let mut agg = FlowAggregator::new();
    for _ in 0..3 {
        agg.ingest(&pkt(1, "10.0.0.1", "8.8.8.8", 5000, 443, Protocol::Tcp, u32::MAX, Direction::Outbound));
    }
    let f = &agg.snapshot()[0];
    assert_eq!(f.bytes_up, 3 * (u32::MAX as u64));
    assert_eq!(f.packets_up, 3);
}

#[test]
fn cleanup_cutoff_saturates_and_keeps_equal_timestamps() {
    let mut agg = FlowAggregator::with_stale_after_ms(1_000);
    agg.ingest(&pkt(4_500, "10.0.0.1", "8.8.8.8", 5000, 443, Protocol::Tcp, 1, Direction::Outbound));
    assert_eq!(agg.cleanup_stale(5_500), 0);
    assert_eq!(agg.flow_count(), 1);
    let mut agg2 = FlowAggregator::with_stale_after_ms(i64::MAX);
    agg2.ingest(&pkt(i64::MIN, "10.0.0.1", "8.8.8.8", 5000, 443, Protocol::Tcp, 1, Direction::Outbound));
    assert_eq!(agg2.cleanup_stale(-10), 0);
}

#[test]
fn stale_setting_is_kept() {
    let mut agg = FlowAggregator::default();
    assert_eq!(agg.stale_after_ms(), 60_000);
    agg.set_stale_after_ms(5);
    assert_eq!(agg.stale_after_ms(), 5);
}

#[test]
fn every_byte_is_counted_once() {
    let mut agg = FlowAggregator::new();
    let packets = [
        pkt(1, "10.0.0.1", "8.8.8.8", 5000, 443, Protocol::Tcp, 100, Direction::Outbound),
        pkt(2, "8.8.8.8", "10.0.0.1", 443, 5000, Protocol::Tcp, 40, Direction::Inbound),
        pkt(3, "10.0.0.1", "1.1.1.1", 5001, 53, Protocol::Udp, 70, Direction::Outbound),
    ];
    let mut expected = 0u64;
    for p in &packets {
        agg.ingest(p);
        expected += p.packet_length as u64;
        let total: u64 = agg.snapshot().iter().map(|f| f.bytes_up + f.bytes_down).sum();
        assert_eq!(total, expected);
    }
}

#[test]
fn equal_totals_keep_table_order_in_top_lists() {
    let mut agg = FlowAggregator::new();
    agg.ingest(&pkt(1, "10.0.0.1", "3.3.3.3", 5000, 443, Protocol::Tcp, 10, Direction::Outbound));
    agg.ingest(&pkt(2, "10.0.0.1", "1.1.1.1", 5001, 443, Protocol::Tcp, 10, Direction::Outbound));
    agg.ingest(&pkt(3, "10.0.0.1", "2.2.2.2", 5002, 443, Protocol::Tcp, 20, Direction::Outbound));
    let top = agg.snapshot_top(3);
    assert_eq!(top[0].dst_ip, "2.2.2.2");
    assert_eq!(top[1].dst_ip, "3.3.3.3");
    assert_eq!(top[2].dst_ip, "1.1.1.1");
}

#[test]
fn flow_count_is_the_number_of_distinct_keys() {
    let mut agg = FlowAggregator::new();
    let packets = [
        pkt(1, "10.0.0.1", "8.8.8.8", 5000, 443, Protocol::Tcp, 1, Direction::Outbound),
        pkt(2, "8.8.8.8", "10.0.0.1", 443, 5000, Protocol::Tcp, 1, Direction::Inbound),
        pkt(3, "10.0.0.1", "8.8.8.8", 5000, 443, Protocol::Udp, 1, Direction::Outbound),
        pkt(4, "10.0.0.1", "8.8.8.8", 5000, 443, Protocol::Tcp, 1, Direction::Outbound),
        pkt(5, "10.0.0.1", "8.8.4.4", 5000, 443, Protocol::Tcp, 1, Direction::Outbound),
    ];
    for p in &packets {
        agg.ingest(p);
    }
    assert_eq!(agg.flow_count(), 3);
}
