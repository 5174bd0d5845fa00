use etherparse::PacketBuilder;
use network_monitor::capture::{
    find_interface, frame_timestamp_ms, is_usable, map_device, next_action, process_frame,
    resolver_for, select_link, CaptureError, CaptureStats, LinkState, LoopAction, ReadOutcome,
};
use network_monitor::ip::IpAddress;
use network_monitor::parse::DataLink;
use network_monitor::types::Direction;

#[test]
fn usable_interfaces_are_up_and_connected_or_unknown() {
    assert!(is_usable(LinkState::Connected, true));
    assert!(is_usable(LinkState::Unknown, true));
    assert!(!is_usable(LinkState::Disconnected, true));
    assert!(!is_usable(LinkState::NotApplicable, true));
    assert!(!is_usable(LinkState::Connected, false));
}

#[test]
fn devices_map_to_interface_entries() {
    let i = map_device("en0".into(), Some(String::new()), LinkState::Connected, true);
    assert_eq!(i.id, "en0");
    assert_eq!(i.name, "en0");
    assert!(i.description.is_none());
    assert!(i.usable);
    let j = map_device("lo".into(), Some("Loopback".into()), LinkState::NotApplicable, true);
    assert_eq!(j.description.as_deref(), Some("Loopback"));
    assert!(!j.usable);
}

#[test]
fn interfaces_are_found_by_name() {
    let names = vec!["lo".to_string(), "eth0".to_string(), "eth0".to_string()];
    assert_eq!(find_interface(&names, "eth0").ok(), Some(1));
    match find_interface(&names, "wlan0") {
        Err(CaptureError::InterfaceNotFound(n)) => assert_eq!(n, "wlan0"),
        other => panic!("unexpected {other:?}"),
    }
}

#[test]
fn unsupported_links_are_refused() {
    assert_eq!(select_link("eth0", 1).ok(), Some(DataLink::Ethernet));
    match select_link("wlan0", 127) {
        Err(CaptureError::UnsupportedLink { name, linktype }) => {
            assert_eq!(name, "wlan0");
            assert_eq!(linktype, 127);
        }
        other => panic!("unexpected {other:?}"),
    }
}

#[test]
fn frame_timestamps_are_in_milliseconds() {
    assert_eq!(frame_timestamp_ms(1_700_000_000, 123_456), 1_700_000_000_123);
    assert_eq!(frame_timestamp_ms(0, -1_500), -1);
    assert_eq!(frame_timestamp_ms(-1, 999), -1_000);
}

#[test]
fn frames_are_counted_parsed_or_dropped() {
    let builder = PacketBuilder::ipv4([10, 0, 0, 1], [1, 1, 1, 1], 64).udp(5000, 53);
    let mut frame = Vec::with_capacity(builder.size(2));
    builder.write(&mut frame, &[7, 7]).unwrap();
    let resolver = resolver_for(&[IpAddress::V4([10, 0, 0, 1])]);
    let mut stats = CaptureStats::default();
    let ev = process_frame(&mut stats, 5, 30, &frame, DataLink::Raw, &resolver).expect("parsed");
    assert_eq!(ev.direction, Direction::Outbound);
    assert!(process_frame(&mut stats, 6, 10, &[1, 2, 3], DataLink::Raw, &resolver).is_none());
    let snap = stats.snapshot();
    assert_eq!(snap.packets_parsed, 1);
    assert_eq!(snap.packets_dropped_unparsed, 1);
    assert_eq!(snap.bytes_seen, 40);
}

#[test]
fn counters_wrap_around() {
    let mut stats = CaptureStats { packets_parsed: u64::MAX, packets_dropped_unparsed: 0, bytes_seen: u64::MAX };
    stats.record_frame(2, true);
    assert_eq!(stats.packets_parsed, 0);
    assert_eq!(stats.bytes_seen, 1);
}

#[test]
fn loop_reacts_to_reads() {
    assert_eq!(next_action(ReadOutcome::Packet), LoopAction::Continue);
    assert_eq!(next_action(ReadOutcome::TimeoutExpired), LoopAction::Continue);
    assert_eq!(next_action(ReadOutcome::NoMorePackets), LoopAction::Stop);
    assert_eq!(next_action(ReadOutcome::OtherError), LoopAction::BackOff);
}

#[test]
fn resolver_uses_address_texts() {
    let r = resolver_for(&[
        IpAddress::V4([192, 168, 1, 10]),
        IpAddress::V6([0xfe, 0x80, 0, 0, 0, 0, 0, 0, 0, 0, 0, 0, 0, 0, 0, 1]),
    ]);
    assert!(r.is_local("192.168.1.10"));
    assert!(r.is_local("fe80::1"));
    assert!(!r.is_local("fe80::0:1"));
}
