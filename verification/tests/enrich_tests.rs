use network_monitor::enrich::{reverse_name_result, Enrichment, EnrichmentCache};
use network_monitor::ip::{parse_ip, IpAddress};
use network_monitor::types::{FlowRecord, Protocol};

fn flow(dst: &str) -> FlowRecord {
    FlowRecord {
        id: "x".into(),
        src_ip: "10.0.0.1".into(),
        dst_ip: dst.into(),
        hostname: None,
        country: None,
        src_port: None,
        dst_port: None,
        protocol: Protocol::Tcp,
        bytes_up: 1,
        bytes_down: 0,
        packets_up: 1,
        packets_down: 0,
        first_seen: 0,
        last_seen: 0,
    }
}

#[test]
fn lookup_returns_none_when_no_data() {
    let e = EnrichmentCache::new(false);
    let ip = parse_ip("8.8.8.8").unwrap();
    assert!(e.lookup(&ip).is_none());
}

#[test]
fn private_addresses_are_skipped() {
    let mut e = EnrichmentCache::new(false);
    let mut flows = vec![flow("10.0.0.2")];
    let queued = e.enrich_in_place(&mut flows);
    // No work scheduled for private space.
    assert!(queued.is_empty());
    let stats = e.stats();
    assert_eq!(stats.queue_depth, 0);
}

#[test]
fn rdns_toggle_persists() {
    let mut e = EnrichmentCache::new(false);
    assert!(!e.rdns_enabled());
    e.set_rdns_enabled(true);
    assert!(e.rdns_enabled());
}

#[test]
fn misses_are_queued_once_and_results_read_back() {
    let mut e = EnrichmentCache::new(true);
    let mut flows = vec![flow("8.8.8.8"), flow("8.8.8.8"), flow("not an ip"), flow("1.1.1.1")];
    let queued = e.enrich_in_place(&mut flows);
    assert_eq!(queued.len(), 2);
    assert_eq!(e.stats().queue_depth, 2);
    assert!(e.enrich_in_place(&mut flows).is_empty());
    let ip = IpAddress::V4([8, 8, 8, 8]);
    assert!(!e.request(&ip));
    e.complete_lookup(
        &ip,
        Enrichment { hostname: Some("dns.google".into()), country: Some("US".into()) },
    );
    let s = e.stats();
    assert_eq!(s.cached_entries, 1);
    assert_eq!(s.queue_depth, 1);
    let got = e.lookup(&ip).expect("cached");
    assert_eq!(got.hostname.as_deref(), Some("dns.google"));
    e.enrich_in_place(&mut flows);
    assert_eq!(flows[0].hostname.as_deref(), Some("dns.google"));
    assert_eq!(flows[1].country.as_deref(), Some("US"));
    assert_eq!(flows[3].hostname, None);
}

#[test]
fn existing_enrichment_is_not_overwritten() {
    let mut e = EnrichmentCache::new(true);
    let ip = IpAddress::V4([1, 1, 1, 1]);
    e.complete_lookup(&ip, Enrichment { hostname: Some("one".into()), country: Some("AU".into()) });
    let mut f = flow("1.1.1.1");
    f.hostname = Some("mine".into());
    let mut flows = vec![f];
    e.enrich_in_place(&mut flows);
    assert_eq!(flows[0].hostname.as_deref(), Some("mine"));
    assert_eq!(flows[0].country.as_deref(), Some("AU"));
}

#[test]
fn switching_rdns_on_drops_nameless_entries() {
    let mut e = EnrichmentCache::new(false);
    e.complete_lookup(&IpAddress::V4([1, 1, 1, 1]), Enrichment { hostname: None, country: Some("AU".into()) });
    e.complete_lookup(&IpAddress::V4([2, 2, 2, 2]), Enrichment { hostname: Some("two".into()), country: None });
    e.set_rdns_enabled(true);
    assert_eq!(e.stats().cached_entries, 1);
    assert!(e.lookup(&IpAddress::V4([1, 1, 1, 1])).is_none());
    e.geoip_db_loaded();
    assert!(e.geoip_loaded());
    assert_eq!(e.stats().cached_entries, 0);
    e.clear_geoip();
    assert!(!e.geoip_loaded());
}

#[test]
fn stopped_service_queues_nothing_and_clear_forgets() {
    let mut e = EnrichmentCache::new(false);
    assert!(e.request(&IpAddress::V4([9, 9, 9, 9])));
    e.clear_cache();
    assert_eq!(e.stats().queue_depth, 0);
    e.stop();
    assert!(!e.request(&IpAddress::V4([9, 9, 9, 9])));
}

#[test]
fn reverse_names_echoing_the_address_are_dropped() {
    let ip = IpAddress::V4([8, 8, 8, 8]);
    assert_eq!(reverse_name_result(Some("8.8.8.8".into()), &ip), None);
    assert_eq!(reverse_name_result(Some(String::new()), &ip), None);
    assert_eq!(reverse_name_result(None, &ip), None);
    assert_eq!(reverse_name_result(Some("dns.google".into()), &ip).as_deref(), Some("dns.google"));
}
