//! Ghost subnets.

use pocketstream_network::config::CachedDevice;
use pocketstream_network::ghost::{
    classify_adoption, is_structural_ghost_adoption, is_structural_ghost_ip,
    non_wired_networks_of, partition_cached, AdoptionClass, CacheReject,
};
use pocketstream_network::interface;
use pocketstream_network::interface::{InterfaceInfo, IpInfo};
use pocketstream_network::net::{Ipv4Addr, Ipv4Network};
use pocketstream_network::textmap::TextSet;


fn ip(addr: &str, prefix: u8) -> IpInfo {
    IpInfo {
        address: addr.into(),
        prefix,
        // Recomputed by ip_to_network from address/prefix; unused here.
        subnet: String::new(),
    }
}

fn ifc(
    ips: Vec<IpInfo>,
    is_up: bool,
    is_ethernet: bool,
    is_vpn: bool,
    is_virtual: bool,
) -> InterfaceInfo {
    InterfaceInfo {
        name: "t".into(),
        display_name: "t".into(),
        ips,
        mac: String::new(),
        is_up,
        is_ethernet,
        is_wifi: !is_ethernet,
        is_vpn,
        is_virtual,
    }
}

fn net(s: &str) -> Ipv4Network {
    Ipv4Network::parse(s).unwrap()
}

// ── is_wired_ethernet matrix ────────────────────────────────────

#[test]
fn wired_ethernet_only_for_up_physical_ethernet() {
    // The canonical camera port.
    assert!(interface::is_wired_ethernet(&ifc(
        vec![ip("192.168.1.10", 24)],
        true,
        true,
        false,
        false
    )));
    // Down Ethernet is not selectable as a live camera port.
    assert!(!interface::is_wired_ethernet(&ifc(
        vec![],
        false,
        true,
        false,
        false
    )));
    // WiFi (non-Ethernet media).
    assert!(!interface::is_wired_ethernet(&ifc(
        vec![ip("192.168.12.5", 24)],
        true,
        false,
        false,
        false
    )));
    // VPN reporting Ethernet media must be rejected.
    assert!(!interface::is_wired_ethernet(&ifc(
        vec![ip("10.39.129.5", 24)],
        true,
        true,
        true,
        false
    )));
    // Keyword-missed virtual switch reporting Ethernet media.
    assert!(!interface::is_wired_ethernet(&ifc(
        vec![ip("172.28.0.1", 20)],
        true,
        true,
        false,
        true
    )));
}

// ── non_wired_networks_of ───────────────────────────────────────

#[test]
fn non_wired_excludes_wifi_subnet() {
    let ifaces = vec![
        ifc(vec![ip("192.168.1.10", 24)], true, true, false, false), // wired
        ifc(vec![ip("192.168.12.5", 24)], true, false, false, false), // WiFi
    ];
    let excluded = non_wired_networks_of(&ifaces);
    assert_eq!(excluded, vec![net("192.168.12.0/24")]);
}

#[test]
fn non_wired_carves_out_subnet_shared_with_wired() {
    // A camera deliberately placed on a /24 that WiFi also owns must
    // stay discoverable — the shared subnet is on wired, so it is
    // carved out of the ghost set.
    let ifaces = vec![
        ifc(vec![ip("10.0.0.5", 24)], true, true, false, false), // wired 10.0.0.0/24
        ifc(vec![ip("10.0.0.9", 24)], true, false, false, false), // WiFi 10.0.0.0/24
    ];
    assert!(non_wired_networks_of(&ifaces).is_empty());
}

#[test]
fn non_wired_excludes_vpn_as_ethernet() {
    // VPN adapter reporting Ethernet media —
    // its subnet must land in the ghost set.
    let ifaces = vec![
        ifc(vec![ip("192.168.1.10", 24)], true, true, false, false),
        ifc(vec![ip("10.39.129.50", 24)], true, true, true, false),
    ];
    assert_eq!(non_wired_networks_of(&ifaces), vec![net("10.39.129.0/24")]);
}

#[test]
fn non_wired_excludes_virtual_switch() {
    // Hyper-V/WSL vEthernet: Ethernet media, Virtual=true.
    let ifaces = vec![ifc(vec![ip("172.28.0.1", 20)], true, true, false, true)];
    assert_eq!(non_wired_networks_of(&ifaces), vec![net("172.28.0.0/20")]);
}

#[test]
fn non_wired_ignores_down_interfaces() {
    let ifaces = vec![ifc(vec![ip("172.16.0.5", 24)], false, false, false, false)];
    assert!(non_wired_networks_of(&ifaces).is_empty());
}

#[test]
fn non_wired_preserves_non_24_prefixes() {
    let ifaces = vec![
        ifc(vec![ip("172.28.5.4", 16)], true, false, false, false), // /16
        ifc(vec![ip("10.20.16.9", 20)], true, false, false, false), // /20
        ifc(vec![ip("10.30.2.9", 23)], true, false, false, false),  // /23
    ];
    let excluded = non_wired_networks_of(&ifaces);
    assert!(excluded.contains(&net("172.28.0.0/16")));
    assert!(excluded.contains(&net("10.20.16.0/20")));
    assert!(excluded.contains(&net("10.30.2.0/23")));
}

// ── is_structural_ghost_ip ──────────────────────────────────────

#[test]
fn ghost_ip_containment() {
    let ghosts = vec![net("192.168.12.0/24")];
    assert!(is_structural_ghost_ip(
        Ipv4Addr::parse("192.168.12.50").unwrap(),
        &ghosts
    ));
    assert!(!is_structural_ghost_ip(
        Ipv4Addr::parse("192.168.1.50").unwrap(),
        &ghosts
    ));
}

#[test]
fn ghost_ip_containment_wide_prefix() {
    let ghosts = vec![net("172.28.0.0/16")];
    assert!(is_structural_ghost_ip(
        Ipv4Addr::parse("172.28.240.9").unwrap(),
        &ghosts
    ));
    assert!(!is_structural_ghost_ip(
        Ipv4Addr::parse("172.29.0.9").unwrap(),
        &ghosts
    ));
}

// ── is_structural_ghost_adoption ────────────────────────────────

#[test]
fn ghost_adoption_exact_match() {
    let ghosts = vec![net("192.168.12.0/24")];
    assert!(is_structural_ghost_adoption("192.168.12.0/24", &ghosts));
    assert!(!is_structural_ghost_adoption("192.168.1.0/24", &ghosts));
}

#[test]
fn ghost_adoption_24_contained_in_ghost_16() {
    let ghosts = vec![net("172.28.0.0/16")];
    assert!(is_structural_ghost_adoption("172.28.5.0/24", &ghosts));
}

#[test]
fn ghost_adoption_foreign_camera_subnet_survives() {
    // CAM on a legitimate foreign subnet owned by no local interface
    // must not be classified a ghost.
    let ghosts = vec![net("192.168.12.0/24"), net("10.39.129.0/24")];
    assert!(!is_structural_ghost_adoption("10.13.248.0/24", &ghosts));
}

#[test]
fn ghost_adoption_unparseable_key_is_not_ghost() {
    // Fail open: a key we cannot parse is never pruned.
    let ghosts = vec![net("192.168.12.0/24")];
    assert!(!is_structural_ghost_adoption("not-a-subnet", &ghosts));
    assert!(!is_structural_ghost_adoption("", &ghosts));
}

// ── classify_adoption ───────────────────────────────────────────

fn native(subnets: &[&str]) -> TextSet {
    let mut r = TextSet::new();
    for s in subnets {
        r.insert(s.to_string());
    }
    r
}

#[test]
fn classify_native_subnet_prunes_native() {
    let n = native(&["192.168.1.0/24"]);
    assert_eq!(
        classify_adoption("192.168.1.0/24", "192.168.1.50", &n, &vec![]),
        AdoptionClass::PruneNative
    );
}

#[test]
fn classify_ghost_subnet_prunes_ghost() {
    let ghosts = vec![net("192.168.12.0/24")];
    assert_eq!(
        classify_adoption("192.168.12.0/24", "192.168.12.103", &native(&[]), &ghosts),
        AdoptionClass::PruneGhost
    );
}

#[test]
fn classify_invalid_ip_prunes_invalid() {
    assert_eq!(
        classify_adoption("10.5.0.0/24", "not-an-ip", &native(&[]), &vec![]),
        AdoptionClass::PruneInvalid
    );
}

#[test]
fn classify_foreign_camera_subnet_is_kept() {
    // CAM: a foreign subnet owned by no local interface — neither
    // native nor ghost — must be re-bound.
    let ghosts = vec![net("192.168.12.0/24")];
    assert_eq!(
        classify_adoption(
            "10.13.248.0/24",
            "10.13.248.102",
            &native(&["192.168.1.0/24"]),
            &ghosts
        ),
        AdoptionClass::Keep
    );
}

#[test]
fn classify_ghost_takes_precedence_over_valid_ip() {
    // A ghost subnet with a perfectly valid bound IP is still pruned.
    let ghosts = vec![net("172.28.0.0/16")];
    assert_eq!(
        classify_adoption("172.28.5.0/24", "172.28.5.42", &native(&[]), &ghosts),
        AdoptionClass::PruneGhost
    );
}

// ── partition_cached ────────────────────────────────────────────────

fn row(mac: &str, addr: &str) -> CachedDevice {
    CachedDevice {
        mac: mac.into(),
        ip: addr.into(),
        subnet: String::new(),
        open_ports: vec![80],
        alias: String::new(),
        last_seen: "2026-04-26T00:00:00Z".into(),
    }
}

#[test]
fn cached_rows_are_turned_away_for_two_reasons_only() {
    let rows = vec![
        row("m1", "192.168.12.50"),
        row("m2", "192.168.1.204"),
        row("m3", "10.13.248.24"),
        row("m4", "camera.local"),
    ];
    let local = vec![Ipv4Addr::parse("192.168.1.204").unwrap()];
    let (allowed, rejected) = partition_cached(&rows, &vec![net("192.168.12.0/24")], &local);
    let kept: Vec<&str> = allowed.iter().map(|d| d.mac.as_str()).collect();
    assert_eq!(kept, vec!["m3", "m4"]);
    assert_eq!(rejected[0].0.mac, "m1");
    assert_eq!(rejected[0].1, CacheReject::NonWiredSubnet);
    assert_eq!(rejected[1].0.mac, "m2");
    assert_eq!(rejected[1].1, CacheReject::HostOwnedIp);
    assert_eq!(rejected.len(), 2);
}

#[test]
fn nothing_known_turns_no_row_away() {
    let rows = vec![row("m1", "192.168.12.50"), row("m2", "192.168.1.204")];
    let (allowed, rejected) = partition_cached(&rows, &vec![], &vec![]);
    assert_eq!(allowed.len(), 2);
    assert!(rejected.is_empty());
}
