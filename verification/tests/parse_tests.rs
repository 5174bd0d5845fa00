use etherparse::PacketBuilder;
use network_monitor::direction::DirectionResolver;
use network_monitor::ip::IpAddress;
use network_monitor::parse::{
    event_from_layers, parse_packet, payload_after_ethernet, strip_link_layer, DataLink,
    TransportInfo,
};
use network_monitor::types::{Direction, Protocol};

#[test]
fn unsupported_link_returns_none() {
    let resolver = DirectionResolver::new(Vec::new());
    let result = parse_packet(0, 0, &[], DataLink::Unsupported, &resolver);
    assert!(result.is_none());
}

#[test]
fn empty_ethernet_returns_none() {
    let resolver = DirectionResolver::new(Vec::new());
    let result = parse_packet(0, 0, &[], DataLink::Ethernet, &resolver);
    assert!(result.is_none());
}

#[test]
fn truncated_null_returns_none() {
    let resolver = DirectionResolver::new(Vec::new());
    let result = parse_packet(0, 0, &[1, 2], DataLink::Null, &resolver);
    assert!(result.is_none());
}

#[test]
fn parses_simple_ipv4_udp_ethernet_frame() {
    // Hand-crafted minimal Ethernet/IPv4/UDP frame: src 10.0.0.1 -> 10.0.0.2 dport 53.
    let payload = [0u8; 4];
    let builder = PacketBuilder::ethernet2([1, 2, 3, 4, 5, 6], [6, 5, 4, 3, 2, 1])
        .ipv4([10, 0, 0, 1], [10, 0, 0, 2], 64)
        .udp(12345, 53);

    let mut frame = Vec::with_capacity(builder.size(payload.len()));
    builder.write(&mut frame, &payload).unwrap();

    let resolver = DirectionResolver::new(vec!["10.0.0.1".into()]);
    let event = parse_packet(42, frame.len() as u32, &frame, DataLink::Ethernet, &resolver)
        .expect("should parse");

    assert_eq!(event.timestamp, 42);
    assert_eq!(event.src_ip, "10.0.0.1");
    assert_eq!(event.dst_ip, "10.0.0.2");
    assert_eq!(event.src_port, Some(12345));
    assert_eq!(event.dst_port, Some(53));
    assert_eq!(event.protocol, Protocol::Udp);
    assert_eq!(event.direction, Direction::Outbound);
}

#[test]
fn link_codes_map_to_data_links() {
    assert_eq!(DataLink::from_pcap(1), DataLink::Ethernet);
    assert_eq!(DataLink::from_pcap(0), DataLink::Null);
    assert_eq!(DataLink::from_pcap(12), DataLink::Loop);
    assert_eq!(DataLink::from_pcap(228), DataLink::Raw);
    assert_eq!(DataLink::from_pcap(229), DataLink::Raw);
    assert_eq!(DataLink::from_pcap(113), DataLink::Unsupported);
    assert_eq!(DataLink::from_pcap(-1), DataLink::Unsupported);
}

fn ipv6_tcp_packet() -> Vec<u8> {
    let builder = PacketBuilder::ipv6(
        [0x20, 0x01, 0x0d, 0xb8, 0, 0, 0, 0, 0, 0, 0, 0, 0, 0, 0, 1],
        [0x20, 0x01, 0x0d, 0xb8, 0, 0, 0, 0, 0, 0, 0, 0, 0, 0, 0, 2],
        64,
    )
    .tcp(40000, 443, 1, 1024);
    let payload = [1u8, 2, 3];
    let mut out = Vec::with_capacity(builder.size(payload.len()));
    builder.write(&mut out, &payload).unwrap();
    out
}

#[test]
fn raw_ipv6_tcp_packet_parses_inbound() {
    let raw = ipv6_tcp_packet();
    let resolver = DirectionResolver::new(vec!["2001:db8::2".into()]);
    let event = parse_packet(7, 99, &raw, DataLink::Raw, &resolver).expect("should parse");
    assert_eq!(event.src_ip, "2001:db8::1");
    assert_eq!(event.dst_ip, "2001:db8::2");
    assert_eq!(event.src_port, Some(40000));
    assert_eq!(event.dst_port, Some(443));
    assert_eq!(event.protocol, Protocol::Tcp);
    assert_eq!(event.packet_length, 99);
    assert_eq!(event.direction, Direction::Inbound);
}

#[test]
fn loopback_prefix_is_skipped() {
    let mut raw = vec![2u8, 0, 0, 0];
    let builder = PacketBuilder::ipv4([127, 0, 0, 1], [127, 0, 0, 1], 64).icmpv4_echo_request(1, 1);
    let mut ip = Vec::with_capacity(builder.size(0));
    builder.write(&mut ip, &[]).unwrap();
    raw.extend_from_slice(&ip);
    let resolver = DirectionResolver::new(Vec::new());
    let event = parse_packet(1, 30, &raw, DataLink::Loop, &resolver).expect("should parse");
    assert_eq!(event.protocol, Protocol::Icmp);
    assert_eq!(event.src_port, None);
    assert_eq!(event.dst_port, None);
    assert_eq!(event.direction, Direction::Unknown);
    assert_eq!(strip_link_layer(&raw, DataLink::Null).map(|p| p.len()), Some(ip.len()));
}

#[test]
fn non_ip_bytes_give_none() {
    let resolver = DirectionResolver::new(Vec::new());
    assert!(parse_packet(0, 4, &[0x00, 0x01, 0x02, 0x03], DataLink::Raw, &resolver).is_none());
}

#[test]
fn ethernet_payload_follows_the_framing() {
    let raw = [9u8, 8, 7, 6, 5];
    assert_eq!(payload_after_ethernet(&raw, Some((true, 2))), Some(&raw[3..]));
    assert_eq!(payload_after_ethernet(&raw, Some((false, 2))), None);
    assert_eq!(payload_after_ethernet(&raw, Some((true, 9))), None);
    assert_eq!(payload_after_ethernet(&raw, None), None);
}

#[test]
fn events_are_built_from_layers() {
    let resolver = DirectionResolver::new(vec!["192.168.0.2".into()]);
    let ev = event_from_layers(
        5,
        60,
        &IpAddress::V4([8, 8, 4, 4]),
        &IpAddress::V4([192, 168, 0, 2]),
        TransportInfo::Udp(53, 5353),
        &resolver,
    );
    assert_eq!(ev.src_ip, "8.8.4.4");
    assert_eq!(ev.dst_ip, "192.168.0.2");
    assert_eq!(ev.protocol, Protocol::Udp);
    assert_eq!(ev.src_port, Some(53));
    assert_eq!(ev.dst_port, Some(5353));
    assert_eq!(ev.direction, Direction::Inbound);
    let other = event_from_layers(
        5,
        60,
        &IpAddress::V4([8, 8, 4, 4]),
        &IpAddress::V4([1, 1, 1, 1]),
        TransportInfo::Absent,
        &resolver,
    );
    assert_eq!(other.protocol, Protocol::Other);
    assert_eq!(other.direction, Direction::Unknown);
}
