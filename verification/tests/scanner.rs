//! Scanning a subnet.

use pocketstream_network::net::{Ipv4Addr, Ipv4Network};
use pocketstream_network::scanner::{
    check_scan_size, is_scannable, probe_ports, probe_result, scan_hosts, scan_results,
};

// ── Fan-out cap ────────────────────────────────────────────

#[test]
fn scan_size_cap_rejects_wide_subnets() {
    assert!(check_scan_size(0).is_err()); // /0 — the whole IPv4 space
    assert!(check_scan_size(8).is_err()); // /8 — 16.7 M
    assert!(check_scan_size(16).is_err()); // /16 — 65 k
    assert!(check_scan_size(19).is_err()); // 8192 > 4096
}

#[test]
fn scan_size_cap_allows_reasonable_subnets() {
    assert!(check_scan_size(20).is_ok()); // exactly 4096
    assert!(check_scan_size(24).is_ok()); // 256
    assert!(check_scan_size(31).is_ok()); // 2
    assert!(check_scan_size(32).is_ok()); // 1
}

#[test]
fn scan_rejects_oversized_subnet_end_to_end() {
    assert!(scan_hosts("10.0.0.0/8").is_err());
    assert!(scan_hosts("192.168.0.0/16").is_err());
}

#[test]
fn scan_invalid_subnet_returns_err() {
    let result = scan_hosts("not-a-subnet");
    assert!(result.is_err());
    assert!(result.unwrap_err().message().starts_with("Invalid subnet: "));
}

// ── Network/broadcast skipping ─────────────────────────────

fn net(cidr: &str) -> Ipv4Network {
    Ipv4Network::parse(cidr).unwrap()
}
fn v4(a: u8, b: u8, c: u8, d: u8) -> Ipv4Addr {
    Ipv4Addr::new(a, b, c, d)
}

#[test]
fn is_scannable_slash24_skips_network_and_broadcast() {
    let n = net("192.168.1.0/24");
    assert!(!is_scannable(&v4(192, 168, 1, 0), &n));
    assert!(!is_scannable(&v4(192, 168, 1, 255), &n));
    assert!(is_scannable(&v4(192, 168, 1, 1), &n));
    assert!(is_scannable(&v4(192, 168, 1, 254), &n));
}

#[test]
fn is_scannable_slash31_scans_both_legs() {
    // RFC 3021: a /31 has no network/broadcast — both are hosts.
    let n = net("10.0.0.0/31");
    assert!(is_scannable(&v4(10, 0, 0, 0), &n));
    assert!(is_scannable(&v4(10, 0, 0, 1), &n));
}

#[test]
fn is_scannable_slash32_scans_the_host() {
    // Even a /32 of a .0 host must be scanned.
    let n = net("192.168.1.0/32");
    assert!(is_scannable(&v4(192, 168, 1, 0), &n));
}

#[test]
fn is_scannable_slash25_uses_real_broadcast() {
    // 192.168.1.0/25 → network .0, broadcast .127.
    let n = net("192.168.1.0/25");
    assert!(!is_scannable(&v4(192, 168, 1, 0), &n));
    assert!(!is_scannable(&v4(192, 168, 1, 127), &n));
    assert!(is_scannable(&v4(192, 168, 1, 1), &n));
    assert!(is_scannable(&v4(192, 168, 1, 126), &n));
}

#[test]
fn hosts_are_asked_from_the_lowest_up() {
    let hosts = scan_hosts("192.168.1.77/24").unwrap();
    assert_eq!(hosts.len(), 254);
    assert_eq!(hosts[0], v4(192, 168, 1, 1));
    assert_eq!(hosts[253], v4(192, 168, 1, 254));
    assert_eq!(scan_hosts("127.0.0.1/32").unwrap(), vec![v4(127, 0, 0, 1)]);
    assert_eq!(
        scan_hosts("10.0.0.1/31").unwrap(),
        vec![v4(10, 0, 0, 0), v4(10, 0, 0, 1)]
    );
    assert_eq!(
        scan_hosts("255.255.255.252/30").unwrap(),
        vec![v4(255, 255, 255, 253), v4(255, 255, 255, 254)]
    );
    assert_eq!(scan_hosts("10.0.0.0/20").unwrap().len(), 4094);
}

#[test]
fn the_size_limit_is_told() {
    assert_eq!(
        check_scan_size(16).unwrap_err().message(),
        "Subnet /16 has 65536 addresses \u{2014} too large to scan (limit 4096 \u{2248} /20). Narrow the range; /16 and wider are rejected to avoid a multi-minute scan."
    );
    assert!(check_scan_size(40).is_ok());
}

#[test]
fn open_ports_are_sorted_and_make_a_host_reachable() {
    let r = probe_result(v4(127, 0, 0, 1), vec![8080, 22, 554]);
    assert_eq!(r.ip, "127.0.0.1");
    assert!(r.reachable);
    assert_eq!(r.open_ports, vec![22, 554, 8080]);
    let r = probe_result(v4(127, 0, 0, 1), vec![]);
    assert!(!r.reachable);
    assert!(r.open_ports.is_empty());
    assert_eq!(probe_ports(), vec![22, 80, 443, 554, 8080, 8554, 8899]);
}

#[test]
fn results_are_the_reachable_hosts_by_address() {
    let r = scan_results(vec![
        (v4(10, 0, 0, 20), vec![80]),
        (v4(10, 0, 0, 7), vec![]),
        (v4(10, 0, 0, 3), vec![443, 80]),
        (v4(9, 255, 0, 1), vec![22]),
    ]);
    let ips: Vec<&str> = r.iter().map(|x| x.ip.as_str()).collect();
    assert_eq!(ips, vec!["9.255.0.1", "10.0.0.3", "10.0.0.20"]);
    assert_eq!(r[1].open_ports, vec![80, 443]);
}
