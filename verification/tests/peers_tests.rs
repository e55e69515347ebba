use saved_core::discovery::{NetworkControls, ScanFind, ScanRange};
use saved_core::peers::{simulate_connection_attempt, text_contains, NetworkError, PeerEvent, PeerTable};
use saved_core::types::{ConnectionState, DiscoveryMethod, PeerGroup, PeerHealth};

fn table() -> PeerTable {
    PeerTable::new("SAVED".to_string(), "_saved._tcp".to_string())
}

fn addr() -> Vec<String> {
    vec!["/ip4/127.0.0.1/tcp/8080".to_string()]
}

#[test]
fn networking_test_peer_connection() {
    let mut t = table();
    let result = t.connect_to_peer("test-peer".to_string(), addr());
    assert!(result.is_ok());
    let peers = t.get_connected_peers();
    assert!(peers.contains(&"test-peer".to_string()));
    assert!(t.is_peer_connected("test-peer"));
    t.disconnect_peer("test-peer");
    assert!(!t.is_peer_connected("test-peer"));
}

#[test]
fn networking_test_connection_failure() {
    let mut t = table();
    let result = t.connect_to_peer("fail-peer".to_string(), addr());
    assert!(result.is_err());
    assert!(!t.is_peer_connected("fail-peer"));
    let state = t.get_peer_connection_state("fail-peer");
    assert!(matches!(state, Some(ConnectionState::Failed)));
}

#[test]
fn networking_test_connection_states() {
    let mut t = table();
    assert!(t.get_peer_connection_state("nonexistent-peer").is_none());
    assert!(t.connect_to_peer("test-peer".to_string(), addr()).is_ok());
    assert!(matches!(t.get_peer_connection_state("test-peer"), Some(ConnectionState::Connected)));
    let d = t.disconnect_peer("test-peer").unwrap();
    assert!(matches!(t.get_peer_connection_state("test-peer"), Some(ConnectionState::Disconnected)));
    assert!(!t.is_peer_connected("test-peer"));
    assert_eq!(d.event, PeerEvent::Disconnected("test-peer".to_string()));
    assert_eq!(d.forget_after_ms, 5_000);
    assert!(t.forget_peer("test-peer"));
    assert!(t.get_peer_connection_state("test-peer").is_none());
    assert!(t.disconnect_peer("test-peer").is_none());
}

#[test]
fn networking_test_peer_health_management() {
    let mut t = table();
    let device_id = "health-test-peer".to_string();
    assert!(t.connect_to_peer(device_id.clone(), addr()).is_ok());
    assert!(matches!(t.get_peer_health(&device_id), Some(PeerHealth::Unknown)));
    t.set_peer_health(&device_id, PeerHealth::Healthy);
    assert!(matches!(t.get_peer_health(&device_id), Some(PeerHealth::Healthy)));
    let healthy_peers = t.get_peers_by_health(PeerHealth::Healthy);
    assert!(healthy_peers.contains(&device_id));
}

#[test]
fn networking_test_peer_statistics() {
    let mut t = table();
    let device_id = "stats-test-peer".to_string();
    assert!(t.connect_to_peer(device_id.clone(), addr()).is_ok());
    let stats = t.get_peer_stats(&device_id);
    assert!(stats.is_some());
    let initial_stats = stats.unwrap();
    assert_eq!(initial_stats.total_connection_attempts, 0);
    let mut new_stats = initial_stats;
    new_stats.total_connection_attempts = 5;
    new_stats.bytes_sent = 1024;
    new_stats.bytes_received = 2048;
    t.update_peer_stats(&device_id, new_stats);
    let updated_stats = t.get_peer_stats(&device_id).unwrap();
    assert_eq!(updated_stats.total_connection_attempts, 5);
    assert_eq!(updated_stats.bytes_sent, 1024);
    assert_eq!(updated_stats.bytes_received, 2048);
    let history = t.get_peer_stats_history(&device_id);
    assert!(history.len() >= 1);
}

#[test]
fn networking_test_peer_groups() {
    let mut t = table();
    let device_id = "group-test-peer".to_string();
    assert!(t.connect_to_peer(device_id.clone(), addr()).is_ok());
    let config = t.get_peer_config(&device_id).unwrap();
    assert!(matches!(config.group, PeerGroup::Local));
    let mut new_config = config.clone();
    new_config.group = PeerGroup::Internet;
    new_config.priority = 10;
    t.update_peer_config(&device_id, new_config);
    let internet_peers = t.get_peers_by_group(&PeerGroup::Internet);
    assert!(internet_peers.contains(&device_id));
    let local_peers = t.get_peers_by_group(&PeerGroup::Local);
    assert!(!local_peers.contains(&device_id));
    let groups = t.get_peer_groups();
    assert!(groups.iter().any(|(g, _)| *g == PeerGroup::Internet));
}

#[test]
fn networking_test_peer_tags() {
    let mut t = table();
    let device_id = "tag-test-peer".to_string();
    assert!(t.connect_to_peer(device_id.clone(), addr()).is_ok());
    t.add_peer_tag(&device_id, "important".to_string());
    t.add_peer_tag(&device_id, "mobile".to_string());
    assert!(t.get_peers_by_tag("important").contains(&device_id));
    assert!(t.get_peers_by_tag("mobile").contains(&device_id));
    t.remove_peer_tag(&device_id, "mobile");
    assert!(!t.get_peers_by_tag("mobile").contains(&device_id));
    assert!(t.get_peers_by_tag("important").contains(&device_id));
}

#[test]
fn networking_test_peer_management_summary() {
    let mut t = table();
    let summary = t.get_peer_management_summary();
    assert_eq!(summary.total_peers, 0);
    assert_eq!(summary.connected_peers, 0);
    let device_id = "summary-test-peer".to_string();
    assert!(t.connect_to_peer(device_id.clone(), addr()).is_ok());
    t.set_peer_health(&device_id, PeerHealth::Healthy);
    let summary = t.get_peer_management_summary();
    assert_eq!(summary.total_peers, 1);
    assert_eq!(summary.connected_peers, 1);
    assert_eq!(summary.healthy_peers, 1);
    assert_eq!(summary.unhealthy_peers, 0);
}

#[test]
fn networking_test_manual_peer_discovery() {
    let mut t = table();
    t.add_discovered_peer("manual-peer".to_string(), vec!["/ip4/192.168.1.100/tcp/8080".to_string()], DiscoveryMethod::Manual);
    let manual = t.get_discovered_peers_by_method(DiscoveryMethod::Manual);
    assert_eq!(manual.len(), 1);
    assert_eq!(manual[0].device_id, "manual-peer");
    assert_eq!(manual[0].service_name, "SAVED-manual-p");
    assert!(t.get_discovered_peers_by_method(DiscoveryMethod::Mdns).is_empty());
    t.remove_discovered_peer("manual-peer");
    assert!(t.get_discovered_peers_by_method(DiscoveryMethod::Manual).is_empty());
}

#[test]
fn connecting_twice_and_while_connecting() {
    let mut t = table();
    let r = t.begin_connection_at("slow-peer-1".to_string(), addr(), 10).unwrap();
    assert!(r);
    assert!(matches!(t.begin_connection_at("slow-peer-1".to_string(), addr(), 11), Err(NetworkError::ConnectionInProgress)));
    assert!(t.finish_connection_at("slow-peer-1", Ok(()), 12).is_ok());
    assert!(!t.begin_connection_at("slow-peer-1".to_string(), addr(), 13).unwrap());
    let stats = t.get_peer_stats("slow-peer-1").unwrap();
    assert_eq!(stats.successful_connections, 1);
    assert_eq!(stats.last_activity, 12);
    // The peer was recorded as discovered by hand.
    let d = t.get_discovered_peers_by_method(DiscoveryMethod::Manual);
    assert_eq!(d[0].discovered_at, 10);
    assert_eq!(d[0].addresses, addr());
}

#[test]
fn failed_connection_counts_attempts() {
    let mut t = table();
    assert!(t.connect_to_peer_at("failing-peer".to_string(), addr(), 5).is_err());
    let stats = t.get_peer_stats("failing-peer").unwrap();
    assert_eq!(stats.failed_connections, 1);
    assert_eq!(stats.last_failed_connection, Some(5));
    // A failed peer may be tried again.
    assert!(t.connect_to_peer_at("failing-peer".to_string(), addr(), 6).is_err());
}

#[test]
fn simulated_attempts_fail_on_marker() {
    assert!(simulate_connection_attempt("peer-one").is_ok());
    assert!(simulate_connection_attempt("my-fail").is_err());
    assert!(simulate_connection_attempt("fai").is_ok());
    match simulate_connection_attempt("fail") {
        Err(NetworkError::ConnectionFailed(m)) => assert_eq!(m, "Simulated connection failure"),
        _ => panic!("expected a failure"),
    }
}

#[test]
fn maintenance_forgets_long_disconnected_peers() {
    let mut t = table();
    t.connect_to_peer_at("old-peer-x".to_string(), addr(), 0).unwrap();
    t.connect_to_peer_at("new-peer-x".to_string(), addr(), 0).unwrap();
    t.disconnect_peer_at("old-peer-x", 1_000);
    t.disconnect_peer_at("new-peer-x", 2_000);
    // 300 whole seconds after the first disconnection: nothing is forgotten.
    t.perform_network_maintenance_at(301_999);
    assert_eq!(t.get_peer_management_summary().total_peers, 2);
    t.perform_network_maintenance_at(302_000);
    assert!(t.get_peer_connection_state("old-peer-x").is_none());
    assert!(t.get_peer_connection_state("new-peer-x").is_some());
}

#[test]
fn health_checks_grade_idle_peers() {
    let mut t = table();
    t.connect_to_peer_at("idle-peer-1".to_string(), addr(), 0).unwrap();
    t.connect_to_peer_at("busy-peer-1".to_string(), addr(), 200_000).unwrap();
    let changes = t.perform_health_checks_at(301_000);
    assert_eq!(
        changes,
        vec![
            ("idle-peer-1".to_string(), PeerHealth::Unknown, PeerHealth::Degraded),
            ("busy-peer-1".to_string(), PeerHealth::Unknown, PeerHealth::Healthy),
        ]
    );
    // A second check changes nothing.
    assert!(t.perform_health_checks_at(301_000).is_empty());
    t.set_peer_health("idle-peer-1", PeerHealth::Healthy);
    t.check_peer_health_at(600_999);
    assert_eq!(t.get_peer_health("idle-peer-1"), Some(PeerHealth::Healthy));
    t.check_peer_health_at(601_000);
    assert_eq!(t.get_peer_health("idle-peer-1"), Some(PeerHealth::Degraded));
}

#[test]
fn stats_history_keeps_last_hundred() {
    let mut t = table();
    t.connect_to_peer_at("stat-peer-1".to_string(), addr(), 0).unwrap();
    let base = t.get_peer_stats("stat-peer-1").unwrap();
    for i in 0..150u64 {
        let mut s = base;
        s.bytes_sent = i;
        t.update_peer_stats("stat-peer-1", s);
    }
    let h = t.get_peer_stats_history("stat-peer-1");
    assert_eq!(h.len(), 100);
    assert_eq!(h[0].bytes_sent, 50);
    assert_eq!(h[99].bytes_sent, 149);
    // Unknown peers keep no history.
    t.update_peer_stats("nobody-at-all", base);
    assert!(t.get_peer_stats_history("nobody-at-all").is_empty());
}

#[test]
fn force_disconnect_forgets_at_once() {
    let mut t = table();
    t.connect_to_peer_at("gone-peer-1".to_string(), addr(), 0).unwrap();
    assert_eq!(t.force_disconnect_peer("gone-peer-1"), Some(PeerEvent::Disconnected("gone-peer-1".to_string())));
    assert_eq!(t.force_disconnect_peer("gone-peer-1"), None);
    assert!(t.get_peer_connection_state("gone-peer-1").is_none());
}

#[test]
fn peers_without_certificate_are_not_authorized() {
    let mut t = table();
    assert_eq!(t.is_peer_authorized("unknown-peer").unwrap(), false);
    t.connect_to_peer_at("good-peer-1".to_string(), addr(), 0).unwrap();
    assert_eq!(t.is_peer_authorized_at("good-peer-1", 1).unwrap(), false);
}

#[test]
fn text_search() {
    assert!(text_contains("my-ADMIN-x", "ADMIN"));
    assert!(!text_contains("my-ADMIN-x", "admin"));
    assert!(text_contains("abc", ""));
    assert!(!text_contains("ab", "abc"));
    assert!(text_contains("abcabd", "abd"));
}

#[test]
fn networking_test_network_discovery() {
    let t = table();
    let mut controls = NetworkControls::new();
    assert!(t.get_discovered_peers().is_empty());
    controls.start_discovery();
    assert!(controls.is_discovery_enabled());
    controls.stop_discovery();
    assert!(!controls.is_discovery_enabled());
}

#[test]
fn networking_test_network_scanning() {
    let mut t = table();
    let discovered_peers = t.scan_local_network();
    assert!(discovered_peers.len() <= 8);
    let all_discovered = t.get_discovered_peers();
    assert!(all_discovered.len() >= discovered_peers.len());
    for p in &discovered_peers {
        assert!(all_discovered.iter().any(|d| d.device_id == p.device_id));
        assert!(p.device_id.starts_with("scanned-"));
        assert_eq!(p.service_name, "SAVED-scanned-");
    }
}

#[test]
fn networking_test_discovery_methods() {
    let mut t = table();
    t.add_discovered_peer("mdns-peer".to_string(), vec!["/ip4/192.168.1.101/tcp/8080".to_string()], DiscoveryMethod::Mdns);
    t.add_discovered_peer("manual-peer".to_string(), vec!["/ip4/192.168.1.102/tcp/8080".to_string()], DiscoveryMethod::Manual);
    t.add_discovered_peer("relay-peer".to_string(), vec!["/ip4/192.168.1.103/tcp/8080".to_string()], DiscoveryMethod::Relay);
    let ids = |v: Vec<saved_core::peers::DiscoveryInfo>| v.into_iter().map(|d| d.device_id).collect::<Vec<_>>();
    let mdns_peers = ids(t.get_mdns_peers());
    assert!(mdns_peers.contains(&"mdns-peer".to_string()));
    assert!(!mdns_peers.contains(&"manual-peer".to_string()));
    let manual_peers = ids(t.get_manually_discovered_peers());
    assert!(manual_peers.contains(&"manual-peer".to_string()));
    assert!(!manual_peers.contains(&"mdns-peer".to_string()));
    let relay_peers = ids(t.get_discovered_peers_by_method(DiscoveryMethod::Relay));
    assert!(relay_peers.contains(&"relay-peer".to_string()));
    assert!(!relay_peers.contains(&"manual-peer".to_string()));
}

#[test]
fn networking_test_discovery_interval() {
    let mut controls = NetworkControls::new();
    controls.set_discovery_interval(5_000);
    assert_eq!(controls.discovery_interval_ms, 5_000);
}

#[test]
fn networking_test_peer_management() {
    let mut controls = NetworkControls::new();
    assert!(controls.is_peer_management_enabled());
    controls.start_peer_management();
    controls.stop_peer_management();
    assert!(!controls.is_peer_management_enabled());
}

#[test]
fn scans_record_what_they_find() {
    let mut t = table();
    let finds = vec![
        ScanFind { range: ScanRange::Home1, id: 0xbeef, host: 7 },
        ScanFind { range: ScanRange::Private172, id: 0x0012, host: 254 },
        ScanFind { range: ScanRange::Private10, id: 0xbeef, host: 100 },
    ];
    let found = t.scan_local_network_with(&finds, 1_000);
    assert_eq!(found.len(), 3);
    assert_eq!(found[0].device_id, "scanned-beef");
    assert_eq!(found[0].addresses, vec!["/ip4/192.168.1.7/tcp/8080".to_string()]);
    assert_eq!(found[1].device_id, "scanned-0012");
    assert_eq!(found[1].addresses, vec!["/ip4/172.16.0.254/tcp/8080".to_string()]);
    assert_eq!(found[1].service_type, "_saved._tcp");
    assert_eq!(found[1].discovered_at, 1_000);
    // The later find of the same id replaces the earlier one.
    let all = t.get_discovered_peers();
    assert_eq!(all.len(), 2);
    let beef = all.iter().find(|d| d.device_id == "scanned-beef").unwrap();
    assert_eq!(beef.addresses, vec!["/ip4/10.0.0.100/tcp/8080".to_string()]);
    assert_eq!(t.get_manually_discovered_peers().len(), 2);
}

#[test]
fn simulated_mdns_finds_a_peer_below_thirty() {
    let mut t = table();
    assert!(t.simulate_mdns_discovery_at(30, 5).is_none());
    assert!(t.get_discovered_peers().is_empty());
    let d = t.simulate_mdns_discovery_at(29, 5).unwrap();
    assert_eq!(d.device_id, "discovered-001d");
    assert_eq!(d.addresses, vec!["/ip4/192.168.1.30".to_string(), "/ip4/10.0.0.59".to_string()]);
    assert_eq!(d.service_name, "SAVED-discover");
    assert_eq!(d.discovery_method, DiscoveryMethod::Mdns);
    assert_eq!(t.get_mdns_peers().len(), 1);
    let _ = t.simulate_mdns_discovery();
    assert!(t.get_mdns_peers().len() <= 2);
}

#[test]
fn all_peer_stats_follow_the_peers() {
    let mut t = table();
    assert!(t.get_all_peer_stats().is_empty());
    t.connect_to_peer("stats-peer-1".to_string(), addr()).unwrap();
    let all = t.get_all_peer_stats();
    assert_eq!(all.len(), 1);
    assert_eq!(all[0].0, "stats-peer-1");
    let one = t.get_peer_stats("stats-peer-1").unwrap();
    assert_eq!(all[0].1.total_connection_attempts, one.total_connection_attempts);
    assert_eq!(all[0].1.last_activity, one.last_activity);
}

#[test]
fn a_peer_is_held_once_however_often_it_is_recorded() {
    let mut t = table();
    t.connect_to_peer_at("peer-00001".to_string(), vec!["/ip4/10.0.0.1/tcp/1".to_string()], 10).unwrap();
    t.disconnect_peer_at("peer-00001", 20);
    t.connect_to_peer_at("peer-00001".to_string(), vec!["/ip4/10.0.0.2/tcp/1".to_string()], 30).unwrap();
    t.add_discovered_peer_at("peer-00001".to_string(), vec![], DiscoveryMethod::Mdns, 40);
    let s = t.get_peer_management_summary();
    assert_eq!(s.total_peers, 1);
    assert_eq!(s.connected_peers, 1);
    assert_eq!(t.get_discovered_peers().len(), 1);
}
