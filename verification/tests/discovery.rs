use clipbridge::network::address::SocketAddress;
use clipbridge::network::discovery::{
    announcement, discovery_target, parse_announce, DeviceDiscovery, Received,
    ANNOUNCE_INTERVAL_SECS, DEVICE_TTL_SECS, DISCOVERY_PORT, LISTEN_TIMEOUT_SECS,
    MAX_DATAGRAM_LEN,
};

fn addr(last: u8) -> SocketAddress {
    SocketAddress::v4(192, 168, 1, last, 40000)
}

fn ids(discovery: &DeviceDiscovery) -> Vec<String> {
    discovery.get_discovered_devices().into_iter().map(|d| d.device_id).collect()
}

#[test]
fn announcement_is_magic_colon_id() {
    assert_eq!(announcement("device-1"), b"CLIPBRIDGE_DISCOVERY:device-1".to_vec());
    assert_eq!(announcement(""), b"CLIPBRIDGE_DISCOVERY:".to_vec());
}

#[test]
fn discovery_target_is_the_multicast_group() {
    assert_eq!(DISCOVERY_PORT, 7878);
    assert_eq!(discovery_target(), SocketAddress::V4 { ip: 0xEFFF_4D4D, port: 7878 });
    assert_eq!(discovery_target(), SocketAddress::v4(239, 255, 77, 77, 7878));
    assert_eq!(discovery_target().port(), 7878);
}

#[test]
fn parse_announce_reads_the_id() {
    assert_eq!(parse_announce(b"CLIPBRIDGE_DISCOVERY:abc"), Some("abc".to_string()));
    assert_eq!(parse_announce(b"CLIPBRIDGE_DISCOVERY:"), Some(String::new()));
    assert_eq!(parse_announce(b"CLIPBRIDGE_DISCOVERY:a:b"), Some("a:b".to_string()));
    assert_eq!(
        parse_announce("CLIPBRIDGE_DISCOVERY:gerät".as_bytes()),
        Some("gerät".to_string())
    );
}

#[test]
fn parse_announce_ignores_foreign_datagrams() {
    assert_eq!(parse_announce(b""), None);
    assert_eq!(parse_announce(b"CLIPBRIDGE_DISCOVERY"), None);
    assert_eq!(parse_announce(b"clipbridge_discovery:abc"), None);
    assert_eq!(parse_announce(b"OTHER_MAGIC:abc"), None);
    assert_eq!(parse_announce(b" CLIPBRIDGE_DISCOVERY:abc"), None);
}

#[test]
fn parse_announce_replaces_malformed_bytes() {
    let mut datagram = b"CLIPBRIDGE_DISCOVERY:a".to_vec();
    datagram.push(0xff);
    datagram.push(b'b');
    assert_eq!(parse_announce(&datagram), Some("a\u{fffd}b".to_string()));
    assert_eq!(parse_announce(&[0xff, 0xfe]), None);
}

#[test]
fn announce_of_a_peer_is_parsed_back() {
    assert_eq!(parse_announce(&announcement("peer")), Some("peer".to_string()));
}

#[test]
fn new_discovery_is_stopped_and_empty() {
    let discovery = DeviceDiscovery::new("A".to_string());
    assert!(!discovery.is_running());
    assert!(discovery.get_discovered_devices().is_empty());
    assert!(discovery.broadcast_presence().is_none());
}

#[test]
fn discovery_starts_and_stops_idempotently() {
    let mut discovery = DeviceDiscovery::new("A".to_string());
    assert!(discovery.start());
    assert!(!discovery.start());
    assert!(discovery.is_running());
    let round = discovery.broadcast_presence().unwrap();
    assert_eq!(round.datagram, b"CLIPBRIDGE_DISCOVERY:A".to_vec());
    assert_eq!(round.target, SocketAddress::v4(239, 255, 77, 77, 7878));
    assert_eq!(round.pause_secs, 5);
    discovery.stop();
    discovery.stop();
    assert!(!discovery.is_running());
    assert!(discovery.broadcast_presence().is_none());
}

#[test]
fn intervals() {
    assert_eq!(ANNOUNCE_INTERVAL_SECS, 5);
    assert_eq!(LISTEN_TIMEOUT_SECS, 1);
    assert_eq!(MAX_DATAGRAM_LEN, 1024);
}

#[test]
fn a_peer_is_added_and_refreshed() {
    let mut discovery = DeviceDiscovery::new("A".to_string());
    discovery.record(&announcement("B"), addr(2), 1000);
    let devices = discovery.get_discovered_devices();
    assert_eq!(devices.len(), 1);
    assert_eq!(devices[0].device_id, "B");
    assert_eq!(devices[0].addr, addr(2));
    assert_eq!(devices[0].last_seen, 1000);

    discovery.record(&announcement("C"), addr(3), 1005);
    discovery.record(&announcement("B"), addr(9), 1010);
    let devices = discovery.get_discovered_devices();
    assert_eq!(devices.len(), 2);
    assert_eq!(devices[0].device_id, "B");
    assert_eq!(devices[0].addr, addr(9));
    assert_eq!(devices[0].last_seen, 1010);
    assert_eq!(devices[1].device_id, "C");
    assert_eq!(devices[1].last_seen, 1005);
}

#[test]
fn own_announce_is_never_added() {
    let mut discovery = DeviceDiscovery::new("A".to_string());
    discovery.record(&announcement("A"), addr(1), 1000);
    assert!(discovery.get_discovered_devices().is_empty());
    discovery.record(&announcement("B"), addr(2), 1000);
    discovery.record(&announcement("A"), addr(1), 1001);
    assert_eq!(ids(&discovery), vec!["B".to_string()]);
}

#[test]
fn own_announce_does_not_prune() {
    let mut discovery = DeviceDiscovery::new("A".to_string());
    discovery.record(&announcement("B"), addr(2), 1000);
    discovery.record(&announcement("A"), addr(1), 5000);
    assert_eq!(ids(&discovery), vec!["B".to_string()]);
}

#[test]
fn foreign_datagram_changes_nothing() {
    let mut discovery = DeviceDiscovery::new("A".to_string());
    discovery.record(&announcement("B"), addr(2), 1000);
    discovery.record(b"hello", addr(3), 5000);
    assert_eq!(ids(&discovery), vec!["B".to_string()]);
}

#[test]
fn silent_devices_are_dropped_after_the_ttl() {
    assert_eq!(DEVICE_TTL_SECS, 30);
    let now = 10_000;
    let mut discovery = DeviceDiscovery::new("A".to_string());
    discovery.record(&announcement("old"), addr(2), now - 31);
    discovery.record(&announcement("edge"), addr(3), now - 30);
    discovery.record(&announcement("young"), addr(4), now - 29);
    assert_eq!(ids(&discovery), vec!["old".to_string(), "edge".to_string(), "young".to_string()]);
    discovery.record(&announcement("D"), addr(5), now);
    assert_eq!(ids(&discovery), vec!["young".to_string(), "D".to_string()]);
}

#[test]
fn a_clock_that_went_back_drops_nothing() {
    let mut discovery = DeviceDiscovery::new("A".to_string());
    discovery.record(&announcement("B"), addr(2), 1000);
    discovery.record(&announcement("C"), addr(3), 900);
    assert_eq!(ids(&discovery), vec!["B".to_string(), "C".to_string()]);
}

#[test]
fn listener_records_at_the_time_of_the_clock() {
    let mut discovery = DeviceDiscovery::new("A".to_string());
    assert!(!discovery
        .listen_for_devices(Received::Datagram { bytes: announcement("B"), from: addr(2) }));
    discovery.start();
    assert!(discovery
        .listen_for_devices(Received::Datagram { bytes: announcement("C"), from: addr(3) }));
    assert!(discovery.listen_for_devices(Received::TimedOut));
    assert!(discovery.listen_for_devices(Received::Failed));
    let devices = discovery.get_discovered_devices();
    assert_eq!(devices.len(), 2);
    // later than the year 2020
    assert!(devices[0].last_seen > 1_577_836_800);
    assert!(devices[1].last_seen >= devices[0].last_seen);
}

#[test]
fn snapshot_is_a_copy() {
    let mut discovery = DeviceDiscovery::new("A".to_string());
    discovery.record(&announcement("B"), addr(2), 1000);
    let mut snapshot = discovery.get_discovered_devices();
    snapshot.clear();
    assert_eq!(discovery.get_discovered_devices().len(), 1);
}
