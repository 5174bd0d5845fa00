use network_monitor::key::FlowKey;
use network_monitor::types::{Direction, PacketEvent, Protocol};

fn pkt(src_ip: &str, src_port: u16, dst_ip: &str, dst_port: u16) -> PacketEvent {
    PacketEvent {
        timestamp: 0,
        src_ip: src_ip.into(),
        dst_ip: dst_ip.into(),
        src_port: Some(src_port),
        dst_port: Some(dst_port),
        protocol: Protocol::Tcp,
        packet_length: 0,
        direction: Direction::Unknown,
    }
}

#[test]
fn swapped_endpoints_produce_same_key() {
    let a = FlowKey::from_packet(&pkt("10.0.0.1", 5000, "8.8.8.8", 443));
    let b = FlowKey::from_packet(&pkt("8.8.8.8", 443, "10.0.0.1", 5000));
    assert_eq!(a, b);
}

#[test]
fn id_is_stable_for_canonical_key() {
    let a = FlowKey::from_packet(&pkt("10.0.0.1", 5000, "8.8.8.8", 443));
    let b = FlowKey::from_packet(&pkt("8.8.8.8", 443, "10.0.0.1", 5000));
    assert_eq!(a.id(), b.id());
}

#[test]
fn key_id_has_canonical_text_form() {
    let a = FlowKey::from_packet(&pkt("8.8.8.8", 443, "10.0.0.1", 5000));
    assert_eq!(a.id(), "tcp:10.0.0.1:5000-8.8.8.8:443");
}

#[test]
fn key_id_renders_missing_ports_as_dash() {
    let e = PacketEvent {
        timestamp: 0,
        src_ip: "1.1.1.1".into(),
        dst_ip: "2.2.2.2".into(),
        src_port: None,
        dst_port: None,
        protocol: Protocol::Icmp,
        packet_length: 0,
        direction: Direction::Unknown,
    };
    assert_eq!(FlowKey::from_packet(&e).id(), "icmp:1.1.1.1:--2.2.2.2:-");
}

#[test]
fn same_address_orders_by_port() {
    let a = FlowKey::from_packet(&pkt("1.1.1.1", 9000, "1.1.1.1", 80));
    assert_eq!(a.id(), "tcp:1.1.1.1:80-1.1.1.1:9000");
}
