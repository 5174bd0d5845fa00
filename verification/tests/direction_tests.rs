use network_monitor::direction::DirectionResolver;
use network_monitor::types::Direction;

#[test]
fn outbound_when_src_is_local() {
    let r = DirectionResolver::new(vec!["192.168.1.10".into()]);
    assert_eq!(r.classify("192.168.1.10", "1.1.1.1"), Direction::Outbound);
}

#[test]
fn inbound_when_dst_is_local() {
    let r = DirectionResolver::new(vec!["192.168.1.10".into()]);
    assert_eq!(r.classify("1.1.1.1", "192.168.1.10"), Direction::Inbound);
}

#[test]
fn unknown_when_neither_local() {
    let r = DirectionResolver::new(vec!["192.168.1.10".into()]);
    assert_eq!(r.classify("8.8.8.8", "1.1.1.1"), Direction::Unknown);
}

#[test]
fn source_local_wins_over_destination_local() {
    let r = DirectionResolver::new(vec!["10.0.0.1".into(), "10.0.0.2".into()]);
    assert_eq!(r.classify("10.0.0.2", "10.0.0.1"), Direction::Outbound);
    assert!(r.is_local("10.0.0.1"));
    assert!(!r.is_local("10.0.0.3"));
}
