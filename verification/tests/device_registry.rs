//! The device registry.

use pocketstream_network::arp::ArpDevice;
use pocketstream_network::config::{AppSettings, CachedDevice, ManualNode};
use pocketstream_network::device_registry::{
    configured_pins, is_user_pinned, DeviceRegistry, DeviceStatus, EmitWindow,
};
use pocketstream_network::net::Ipv4Addr;
use pocketstream_network::textmap::TextSet;

const NOW: &str = "2026-05-02T00:00:00Z";


fn arp(mac: &str, ip: &str, subnet: &str) -> ArpDevice {
    ArpDevice {
        mac: mac.into(),
        ip: ip.into(),
        subnet: subnet.into(),
        first_seen: "2026-04-27T00:00:00Z".into(),
        last_seen: "2026-04-27T00:00:00Z".into(),
    }
}

fn cached(mac: &str, ip: &str, subnet: &str, ports: Vec<u16>, alias: &str) -> CachedDevice {
    CachedDevice {
        mac: mac.into(),
        ip: ip.into(),
        subnet: subnet.into(),
        open_ports: ports,
        alias: alias.into(),
        last_seen: "2026-04-26T00:00:00Z".into(),
    }
}

#[test]
fn snapshot_starts_empty() {
    let r = DeviceRegistry::new();
    assert!(r.snapshot().is_empty());
}

#[test]
fn merge_scan_result_zero_ports_does_not_promote_to_live() {
    let mut r = DeviceRegistry::new();
    r.hydrate_from_cache(&vec![cached(
        "AA:BB:CC:DD:EE:01",
        "192.168.1.10",
        "192.168.1.0/24",
        vec![80],
        "",
    )]);
    // Cached row starts CachedOnly. A zero-port verify must NOT flip
    // it to Live (that resurrected dead devices).
    r.merge_scan_result("192.168.1.10", &vec![]);
    assert_eq!(r.snapshot()[0].status, DeviceStatus::CachedOnly);
    // A non-empty scan does promote.
    r.merge_scan_result("192.168.1.10", &vec![80]);
    assert_eq!(r.snapshot()[0].status, DeviceStatus::Live);
}

#[test]
fn evict_phantom_removes_unaliased_cached_row() {
    let mut r = DeviceRegistry::new();
    r.hydrate_from_cache(&vec![cached(
        "AA:BB:CC:DD:EE:01",
        "192.168.1.10",
        "192.168.1.0/24",
        vec![],
        "",
    )]);
    assert_eq!(
        r.evict_phantom("192.168.1.10", &TextSet::new()).as_deref(),
        Some("AA:BB:CC:DD:EE:01")
    );
    assert!(r.snapshot().is_empty());
}

#[test]
fn evict_phantom_exempts_aliased_and_live() {
    // Aliased CAM/PTU are treated as fixed and never auto-removed.
    let mut r = DeviceRegistry::new();
    r.hydrate_from_cache(&vec![cached(
        "AA:BB:CC:DD:EE:01",
        "192.168.1.10",
        "192.168.1.0/24",
        vec![],
        "CAM",
    )]);
    assert!(r.evict_phantom("192.168.1.10", &TextSet::new()).is_none());
    assert_eq!(r.snapshot().len(), 1);

    // A Live (ARP-confirmed) device is never evicted either.
    let mut r2 = DeviceRegistry::new();
    r2.merge_arp(&arp("AA:BB:CC:DD:EE:02", "192.168.1.11", "192.168.1.0/24"));
    assert!(r2.evict_phantom("192.168.1.11", &TextSet::new()).is_none());
    assert_eq!(r2.snapshot().len(), 1);
}

#[test]
fn evict_phantom_exempts_configured_pins() {
    // A record with no alias whose IP is user-configured (the
    // persisted stream target here) is user intent — never evicted
    // even though nothing on the registry row itself marks it.
    let mut r = DeviceRegistry::new();
    r.hydrate_from_cache(&vec![cached(
        "AA:BB:CC:DD:EE:01",
        "172.31.169.65",
        "172.31.169.0/24",
        vec![],
        "",
    )]);
    let mut settings = AppSettings::default();
    settings.stream.camera_ip = "172.31.169.65".into();
    let pins = configured_pins(&settings);
    assert!(r.evict_phantom("172.31.169.65", &pins).is_none());
    assert_eq!(r.snapshot().len(), 1);
}

#[test]
fn configured_pins_collects_manual_nodes_and_stream_target() {
    let mut settings = AppSettings::default();
    settings.manual_nodes.push(ManualNode {
        ip: "192.168.4.202".into(),
        alias: "PTU".into(),
    });
    settings.stream.camera_ip = "172.31.169.65".into();
    let pins = configured_pins(&settings);
    assert!(pins.contains("192.168.4.202"));
    assert!(pins.contains("172.31.169.65"));

    // An unset stream target must not pin the empty string.
    settings.stream.camera_ip = String::new();
    assert!(!configured_pins(&settings).contains(""));
}

#[test]
fn user_pinned_ips_returns_pinned_records_only() {
    let mut r = DeviceRegistry::new();
    r.hydrate_from_cache(&vec![
        cached(
            "AA:BB:CC:DD:EE:01",
            "192.168.4.65",
            "192.168.4.0/24",
            vec![80],
            "CAM",
        ),
        cached(
            "AA:BB:CC:DD:EE:02",
            "192.168.4.90",
            "192.168.4.0/24",
            vec![80],
            "",
        ),
        cached("AA:BB:CC:DD:EE:03", "10.0.0.5", "10.0.0.0/24", vec![], ""),
    ]);
    let mut pins = TextSet::new();
    pins.insert("10.0.0.5".to_string());
    let mut ips = r.user_pinned_ips(&pins);
    ips.sort_by_key(|ip| ip.to_num());
    // The aliased CAM and the configured pin qualify; the anonymous
    // row does not.
    assert_eq!(
        ips,
        vec![
            Ipv4Addr::parse("10.0.0.5").unwrap(),
            Ipv4Addr::parse("192.168.4.65").unwrap(),
        ]
    );
}

#[test]
fn is_user_pinned_covers_every_intent_signal_and_nothing_else() {
    let mut pins = TextSet::new();
    pins.insert("10.0.0.5".to_string());
    // Pinned registry entry, regardless of alias.
    assert!(is_user_pinned("manual:10.0.0.9", "", "10.0.0.9", &pins));
    // Any non-empty alias — CAM, PTU, or a custom name.
    assert!(is_user_pinned(
        "AA:BB:CC:DD:EE:01",
        "CAM",
        "10.0.0.1",
        &pins
    ));
    assert!(is_user_pinned(
        "AA:BB:CC:DD:EE:02",
        "PTU",
        "10.0.0.2",
        &pins
    ));
    assert!(is_user_pinned(
        "AA:BB:CC:DD:EE:03",
        "warehouse-cam",
        "10.0.0.3",
        &pins
    ));
    // Configured pin (manual node or stream target).
    assert!(is_user_pinned("AA:BB:CC:DD:EE:04", "", "10.0.0.5", &pins));
    // Unaliased, unconfigured, ordinary MAC key — not pinned.
    assert!(!is_user_pinned("AA:BB:CC:DD:EE:05", "", "10.0.0.6", &pins));
}

#[test]
fn hydrate_from_cache_drops_non_ipv4_rows() {
    let mut r = DeviceRegistry::new();
    let result = r.hydrate_from_cache(&vec![
        cached(
            "AA:BB:CC:DD:EE:01",
            "192.168.1.10",
            "192.168.1.0/24",
            vec![80],
            "",
        ),
        cached(
            "AA:BB:CC:DD:EE:02",
            "camera.local",
            "192.168.1.0/24",
            vec![80],
            "",
        ),
        cached("", "192.168.1.11", "192.168.1.0/24", vec![], ""),
        cached(
            "AA:BB:CC:DD:EE:04",
            "169.254.5.5",
            "169.254.0.0/24",
            vec![],
            "",
        ),
    ]);
    assert!(result.changed);
    let snap = r.snapshot();
    // Only the valid-IPv4, non-empty-MAC rows survive: 192.168.1.10
    // and the APIPA one. The hostname and empty-MAC rows are dropped.
    let ips: Vec<&str> = snap.iter().map(|d| d.ip.as_str()).collect();
    assert!(ips.contains(&"192.168.1.10"));
    assert!(ips.contains(&"169.254.5.5"));
    assert!(!ips.contains(&"camera.local"));
    assert_eq!(snap.len(), 2);
}

#[test]
fn merge_arp_inserts_new_record_as_live() {
    let mut r = DeviceRegistry::new();
    let result = r.merge_arp(&arp("AA:BB:CC:DD:EE:01", "192.168.1.10", "192.168.1.0/24"));
    assert!(result.changed);
    let snap = r.snapshot();
    assert_eq!(snap.len(), 1);
    assert_eq!(snap[0].status, DeviceStatus::Live);
    assert!(snap[0].open_ports.is_empty());
    assert_eq!(snap[0].alias, "");
}

#[test]
fn merge_arp_idempotent_when_nothing_changed() {
    let mut r = DeviceRegistry::new();
    let dev = arp("AA:BB:CC:DD:EE:01", "192.168.1.10", "192.168.1.0/24");
    assert!(r.merge_arp(&dev).changed);
    assert!(
        !r.merge_arp(&dev).changed,
        "second merge with identical data must be a no-op"
    );
}

#[test]
fn merge_arp_promotes_cached_only_to_live() {
    let mut r = DeviceRegistry::new();
    r.hydrate_from_cache(&vec![cached(
        "AA:BB:CC:DD:EE:01",
        "192.168.1.10",
        "192.168.1.0/24",
        vec![80],
        "",
    )]);
    assert_eq!(r.snapshot()[0].status, DeviceStatus::CachedOnly);

    let result = r.merge_arp(&arp("AA:BB:CC:DD:EE:01", "192.168.1.10", "192.168.1.0/24"));
    assert!(
        result.changed,
        "promoting CachedOnly → Live counts as a change"
    );
    assert_eq!(r.snapshot()[0].status, DeviceStatus::Live);
}

#[test]
fn merge_scan_result_populates_open_ports_and_flips_to_live() {
    let mut r = DeviceRegistry::new();
    r.hydrate_from_cache(&vec![cached(
        "AA:BB:CC:DD:EE:01",
        "192.168.1.10",
        "192.168.1.0/24",
        vec![],
        "",
    )]);
    r.set_status("AA:BB:CC:DD:EE:01", DeviceStatus::Verifying);
    assert_eq!(r.snapshot()[0].status, DeviceStatus::Verifying);

    let changed = r.merge_scan_result("192.168.1.10", &vec![80, 554]);
    assert!(changed);
    let snap = r.snapshot();
    assert_eq!(snap[0].open_ports, vec![80, 554]);
    assert_eq!(snap[0].status, DeviceStatus::Live);
}

#[test]
fn merge_scan_result_noop_when_ip_unknown() {
    let mut r = DeviceRegistry::new();
    assert!(!r.merge_scan_result("10.0.0.1", &vec![22]));
}

#[test]
fn set_alias_updates_existing_record() {
    let mut r = DeviceRegistry::new();
    r.merge_arp(&arp("AA:BB:CC:DD:EE:01", "192.168.1.10", "192.168.1.0/24"));
    assert!(r.set_alias("192.168.1.10", "CAM"));
    assert_eq!(r.snapshot()[0].alias, "CAM");
    assert!(
        !r.set_alias("192.168.1.10", "CAM"),
        "identical write is a no-op"
    );
    assert!(r.set_alias("192.168.1.10", ""), "empty string clears");
    assert_eq!(r.snapshot()[0].alias, "");
}

#[test]
fn forget_removes_record() {
    let mut r = DeviceRegistry::new();
    r.merge_arp(&arp("AA:BB:CC:DD:EE:01", "192.168.1.10", "192.168.1.0/24"));
    assert!(r.forget("AA:BB:CC:DD:EE:01"));
    assert!(r.snapshot().is_empty());
    assert!(!r.forget("AA:BB:CC:DD:EE:01"), "second forget is a no-op");
}

#[test]
fn hydrate_from_cache_skips_when_already_populated() {
    let mut r = DeviceRegistry::new();
    r.merge_arp(&arp("AA:BB:CC:DD:EE:01", "192.168.1.10", "192.168.1.0/24"));
    let result = r.hydrate_from_cache(&vec![cached(
        "FF:FF:FF:FF:FF:FF",
        "10.0.0.1",
        "10.0.0.0/24",
        vec![],
        "",
    )]);
    assert!(
        !result.changed,
        "hydrate is a one-shot — must skip if registry isn't empty"
    );
    assert_eq!(r.snapshot().len(), 1);
}

#[test]
fn snapshot_sorts_by_subnet_then_ip_numerically() {
    let mut r = DeviceRegistry::new();
    r.merge_arp(&arp("MAC:1", "192.168.1.20", "192.168.1.0/24"));
    r.merge_arp(&arp("MAC:2", "192.168.1.3", "192.168.1.0/24"));
    r.merge_arp(&arp("MAC:3", "10.0.0.5", "10.0.0.0/24"));

    let snap = r.snapshot();
    assert_eq!(snap[0].ip, "10.0.0.5");
    assert_eq!(snap[1].ip, "192.168.1.3");
    assert_eq!(snap[2].ip, "192.168.1.20");
}

#[test]
fn set_status_returns_false_for_unknown_mac() {
    let mut r = DeviceRegistry::new();
    assert!(!r.set_status("DOES:NOT:EXIST", DeviceStatus::Offline));
}

#[test]
fn merge_arp_drops_stale_record_at_same_ip() {
    let mut r = DeviceRegistry::new();
    r.hydrate_from_cache(&vec![cached(
        "OLD:MAC",
        "192.168.1.202",
        "192.168.1.0/24",
        vec![80],
        "PTU",
    )]);

    let result = r.merge_arp(&arp("NEW:MAC", "192.168.1.202", "192.168.1.0/24"));

    assert!(result.changed);
    assert_eq!(result.dropped_macs, vec!["OLD:MAC".to_string()]);
    let snap = r.snapshot();
    assert_eq!(snap.len(), 1, "stale MAC must be dropped, not co-listed");
    assert_eq!(snap[0].mac, "NEW:MAC");
    assert_eq!(
        snap[0].alias, "PTU",
        "alias should follow the IP across MAC changes"
    );
}

#[test]
fn merge_arp_preserves_explicit_alias_over_inherited() {
    let mut r = DeviceRegistry::new();
    r.hydrate_from_cache(&vec![
        cached(
            "OLD:MAC",
            "192.168.1.202",
            "192.168.1.0/24",
            vec![80],
            "Old",
        ),
        cached("NEW:MAC", "10.0.0.5", "10.0.0.0/24", vec![80], "Explicit"),
    ]);
    // NEW:MAC moves to PTU's IP. Its existing alias should not be
    // clobbered by the inheriting code path.
    r.merge_arp(&arp("NEW:MAC", "192.168.1.202", "192.168.1.0/24"));

    let snap = r.snapshot();
    let new_record = snap.iter().find(|r| r.mac == "NEW:MAC").unwrap();
    assert_eq!(new_record.alias, "Explicit");
}

#[test]
fn hydrate_dedups_same_ip_keeping_newest() {
    let mut r = DeviceRegistry::new();
    let older = CachedDevice {
        mac: "OLD:MAC".into(),
        ip: "192.168.1.202".into(),
        subnet: "192.168.1.0/24".into(),
        open_ports: vec![80],
        alias: "PTU".into(),
        last_seen: "2026-04-01T00:00:00Z".into(),
    };
    let newer = CachedDevice {
        mac: "NEW:MAC".into(),
        ip: "192.168.1.202".into(),
        subnet: "192.168.1.0/24".into(),
        open_ports: vec![80],
        alias: "".into(),
        last_seen: "2026-05-01T00:00:00Z".into(),
    };
    let result = r.hydrate_from_cache(&vec![older, newer]);

    assert!(result.changed);
    assert_eq!(result.dropped_macs, vec!["OLD:MAC".to_string()]);
    let snap = r.snapshot();
    assert_eq!(snap.len(), 1);
    assert_eq!(snap[0].mac, "NEW:MAC");
    assert_eq!(
        snap[0].alias, "PTU",
        "alias inherits from the dropped duplicate when survivor is unnamed"
    );
}

// ── hydrate_manual_nodes ────────────────────────────────────────

fn manual(ip: &str, alias: &str) -> ManualNode {
    ManualNode {
        ip: ip.into(),
        alias: alias.into(),
    }
}

#[test]
fn hydrate_manual_nodes_inserts_records_with_synthetic_mac() {
    let mut r = DeviceRegistry::new();
    let changed = r.hydrate_manual_nodes(&vec![
        manual("192.168.1.50", "CAM"),
        manual("192.168.1.202", "PTU"),
    ], NOW);
    assert!(changed);
    let snap = r.snapshot();
    assert_eq!(snap.len(), 2);
    // Synthetic MAC keys mark these as manual hydrations, so any
    // MAC-parsing code path will reject them cleanly rather than
    // mistaking them for real ARP records.
    assert!(snap.iter().all(|d| d.mac.starts_with("manual:")));
}

#[test]
fn hydrate_manual_nodes_derives_subnet_from_ip() {
    let mut r = DeviceRegistry::new();
    r.hydrate_manual_nodes(&vec![manual("10.13.248.55", "")], NOW);
    let snap = r.snapshot();
    assert_eq!(snap.len(), 1);
    assert_eq!(snap[0].subnet, "10.13.248.0/24");
}

#[test]
fn hydrate_manual_nodes_idempotent_for_unchanged_input() {
    let mut r = DeviceRegistry::new();
    let nodes = vec![manual("192.168.1.50", "CAM")];
    assert!(r.hydrate_manual_nodes(&nodes, NOW));
    // Second call with identical input must report no-change so
    // callers can skip a redundant device-list-changed emission.
    assert!(!r.hydrate_manual_nodes(&nodes, NOW));
}

#[test]
fn hydrate_manual_nodes_updates_alias_in_place() {
    let mut r = DeviceRegistry::new();
    r.hydrate_manual_nodes(&vec![manual("192.168.1.50", "OLD")], NOW);
    let changed = r.hydrate_manual_nodes(&vec![manual("192.168.1.50", "NEW")], NOW);
    assert!(changed, "alias rename must register as a change");
    let snap = r.snapshot();
    assert_eq!(snap.len(), 1);
    assert_eq!(snap[0].alias, "NEW");
}

#[test]
fn hydrate_manual_nodes_empty_list_is_noop() {
    let mut r = DeviceRegistry::new();
    assert!(!r.hydrate_manual_nodes(&vec![], NOW));
    assert!(r.snapshot().is_empty());
}

// ── clear ───────────────────────────────────────────────────────

#[test]
fn clear_returns_false_when_empty() {
    let mut r = DeviceRegistry::new();
    assert!(!r.clear());
}

#[test]
fn clear_drops_all_records_and_returns_true() {
    let mut r = DeviceRegistry::new();
    r.merge_arp(&arp("AA:BB:CC:DD:EE:01", "192.168.1.10", "192.168.1.0/24"));
    r.hydrate_manual_nodes(&vec![manual("192.168.1.50", "CAM")], NOW);
    assert_eq!(r.snapshot().len(), 2);
    assert!(r.clear());
    assert!(r.snapshot().is_empty());
}

// ── removal ─────────────────────────────────────────────────────────

#[test]
fn manual_entries_are_removed_alone() {
    let mut r = DeviceRegistry::new();
    r.merge_arp(&arp("AA:BB:CC:DD:EE:01", "192.168.1.10", "192.168.1.0/24"));
    r.hydrate_manual_nodes(&vec![manual("192.168.1.50", "CAM")], NOW);
    assert!(r.remove_manual_entries());
    let snap = r.snapshot();
    assert_eq!(snap.len(), 1);
    assert_eq!(snap[0].mac, "AA:BB:CC:DD:EE:01");
    assert!(!r.remove_manual_entries());
}

#[test]
fn remove_by_mac_drops_that_record_alone() {
    let mut r = DeviceRegistry::new();
    r.merge_arp(&arp("AA:BB:CC:DD:EE:01", "192.168.1.10", "192.168.1.0/24"));
    r.merge_arp(&arp("AA:BB:CC:DD:EE:02", "192.168.1.11", "192.168.1.0/24"));
    assert!(r.remove_by_mac("AA:BB:CC:DD:EE:01"));
    assert!(!r.remove_by_mac("AA:BB:CC:DD:EE:01"));
    assert_eq!(r.snapshot()[0].mac, "AA:BB:CC:DD:EE:02");
    assert_eq!(r.len(), 1);
}

// ── roles ───────────────────────────────────────────────────────────

#[test]
fn one_device_at_most_holds_a_role() {
    let mut r = DeviceRegistry::new();
    r.hydrate_from_cache(&vec![
        cached("AA:BB:CC:DD:EE:01", "192.168.1.10", "192.168.1.0/24", vec![80], "CAM"),
        cached("AA:BB:CC:DD:EE:02", "192.168.1.11", "192.168.1.0/24", vec![80], "CAM"),
        cached("AA:BB:CC:DD:EE:03", "192.168.1.12", "192.168.1.0/24", vec![80], "PTU"),
    ]);
    let demoted = r.normalize_role_duplicates(Some("192.168.1.11"));
    assert_eq!(demoted, vec!["192.168.1.10".to_string()]);
    let cams: Vec<String> = r
        .snapshot()
        .into_iter()
        .filter(|d| d.alias == "CAM")
        .map(|d| d.ip)
        .collect();
    assert_eq!(cams, vec!["192.168.1.11".to_string()]);
    assert!(r.normalize_role_duplicates(Some("192.168.1.11")).is_empty());
}

// ── showing the list again ──────────────────────────────────────────

#[test]
fn changes_within_a_window_open_none() {
    let mut w = EmitWindow::new();
    assert!(w.poke());
    assert!(!w.poke());
    assert!(!w.poke());
    w.close();
    assert!(w.poke());
}
