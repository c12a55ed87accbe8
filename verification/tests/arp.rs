//! Frames off the wire: who sent them, what is let through, what the neighbor table says.

use pocketstream_network::arp::{
    checked_packet_range, classify_sender, data_size_ok, extract_arp, format_mac,
    parse_arp_packet, start_task, tasks_dropped, ArpCounters, DedupeLru, SenderVerdict,
    DEDUPE_TTL, MAX_DESCRIPTOR_BYTES,
};
use pocketstream_network::neighbors::parse_neighbors_json;
use pocketstream_network::net::{Ipv4Addr, Ipv4Network};
use pocketstream_network::time::{Duration, Instant};

#[test]
fn checked_range_rejects_zero_length() {
    assert_eq!(checked_packet_range(100, 0, 0), None);
}

#[test]
fn checked_range_rejects_overflow() {
    assert_eq!(checked_packet_range(100, usize::MAX, 1), None);
}

#[test]
fn checked_range_rejects_end_past_buffer() {
    assert_eq!(checked_packet_range(100, 50, 60), None);
}

#[test]
fn checked_range_accepts_valid() {
    assert_eq!(checked_packet_range(100, 14, 42), Some((14, 56)));
}

#[test]
fn data_size_cap_rejects_zero_and_oversized() {
    assert!(!data_size_ok(0));
    assert!(!data_size_ok(MAX_DESCRIPTOR_BYTES + 1));
    assert!(data_size_ok(1500));
    assert!(data_size_ok(MAX_DESCRIPTOR_BYTES));
}


#[test]
fn arp_task_admission_respects_bound() {
    let sem = std::sync::Arc::new(tokio::sync::Semaphore::new(2));
    let mut counters = ArpCounters::new();
    let p1 = sem.clone().try_acquire_owned().ok();
    assert!(start_task(p1.is_some(), &mut counters));
    let p2 = sem.clone().try_acquire_owned().ok();
    assert!(start_task(p2.is_some(), &mut counters));
    assert!(p1.is_some() && p2.is_some());
    // Bound reached: the next frame is dropped, and counted.
    let p3 = sem.clone().try_acquire_owned().ok();
    assert!(p3.is_none());
    assert!(!start_task(p3.is_some(), &mut counters));
    assert_eq!(tasks_dropped(&counters), 1);
    // Releasing a permit frees a slot for the next frame.
    drop(p1);
    let p4 = sem.clone().try_acquire_owned().ok();
    assert!(p4.is_some());
    assert!(start_task(p4.is_some(), &mut counters));
    assert_eq!(tasks_dropped(&counters), 1);
}

// ── classify_sender ─────────────────────────────────────────────
//
// Reference topology: the wired port holds a static 192.168.1.101/24
// (to reach a fixed-IP device at 192.168.1.202) while WiFi holds DHCP
// 192.168.1.204/24 — both adapters own 192.168.1.0/24, so the shared
// subnet is deliberately absent from the excluded set and only the
// self-IP / own-MAC checks can reject the host's own WiFi traffic.

fn ipv4(s: &str) -> Ipv4Addr {
    Ipv4Addr::parse(s).unwrap()
}

fn local_set(ips: &[&str]) -> Vec<Ipv4Addr> {
    ips.iter().map(|s| ipv4(s)).collect()
}

const WIRED_MAC: [u8; 6] = [0x00, 0x11, 0x22, 0x33, 0x44, 0x55];
const OTHER_MAC: [u8; 6] = [0x66, 0x77, 0x88, 0x99, 0xaa, 0xbb];

#[test]
fn sender_own_wifi_ip_on_shared_subnet_dropped_as_self() {
    // Our own WiFi NIC ARPing on the shared subnet: wrong MAC for the
    // own-MAC check, subnet not excludable — the self-IP check is the
    // only thing standing between this frame and a phantom node.
    let local = local_set(&["192.168.1.101", "192.168.1.204"]);
    assert_eq!(
        classify_sender(
            ipv4("192.168.1.204"),
            OTHER_MAC,
            Some(WIRED_MAC),
            &local,
            &vec![]
        ),
        SenderVerdict::DropSelfIp
    );
}

#[test]
fn sender_own_mac_dropped() {
    // Our gratuitous ARP for a just-bound secondary IP: the IP may not
    // be in the local set yet (set refresh races the bind), so the MAC
    // check must catch it on its own.
    let local = local_set(&["192.168.1.101"]);
    assert_eq!(
        classify_sender(
            ipv4("10.13.248.102"),
            WIRED_MAC,
            Some(WIRED_MAC),
            &local,
            &vec![]
        ),
        SenderVerdict::DropOwnMac
    );
}

#[test]
fn sender_on_excluded_subnet_dropped() {
    let excluded = vec![Ipv4Network::parse("192.168.12.0/24").unwrap()];
    assert_eq!(
        classify_sender(
            ipv4("192.168.12.1"),
            OTHER_MAC,
            Some(WIRED_MAC),
            &local_set(&["192.168.1.101"]),
            &excluded
        ),
        SenderVerdict::DropNonWiredSubnet
    );
}

#[test]
fn wired_peers_accepted_beside_local_ips_on_same_subnet() {
    // A fixed-IP wired device sharing the /24 with two of our own
    // addresses must never be rejected, and neither may a camera on a
    // foreign adopted subnet.
    let local = local_set(&["192.168.1.101", "192.168.1.204"]);
    assert_eq!(
        classify_sender(
            ipv4("192.168.1.202"),
            OTHER_MAC,
            Some(WIRED_MAC),
            &local,
            &vec![]
        ),
        SenderVerdict::Accept
    );
    assert_eq!(
        classify_sender(
            ipv4("10.194.200.24"),
            OTHER_MAC,
            Some(WIRED_MAC),
            &local,
            &vec![]
        ),
        SenderVerdict::Accept
    );
}

#[test]
fn empty_sets_fail_open() {
    // Enumeration failure yields empty sets; the filter must admit
    // everything rather than blind discovery.
    assert_eq!(
        classify_sender(ipv4("192.168.1.204"), OTHER_MAC, None, &vec![], &vec![]),
        SenderVerdict::Accept
    );
}

#[test]
fn excluded_subnet_takes_precedence_over_self_ip() {
    // An IP that is both ours and on an excluded subnet counts as a
    // non-wired drop — pins which counter/log fires.
    let excluded = vec![Ipv4Network::parse("192.168.12.0/24").unwrap()];
    assert_eq!(
        classify_sender(
            ipv4("192.168.12.103"),
            OTHER_MAC,
            Some(WIRED_MAC),
            &local_set(&["192.168.12.103"]),
            &excluded
        ),
        SenderVerdict::DropNonWiredSubnet
    );
}

/// Build a minimal valid ARP packet (42 bytes: 14 Ethernet + 28 ARP).
fn make_arp_packet(sender_mac: [u8; 6], sender_ip: [u8; 4]) -> Vec<u8> {
    let mut pkt = vec![0u8; 42];
    // Destination MAC (6 bytes) + Source MAC (6 bytes) — left as zeros
    // Ethertype: ARP = 0x0806
    pkt[12] = 0x08;
    pkt[13] = 0x06;
    // ARP header starts at offset 14
    let arp = &mut pkt[14..];
    arp[0] = 0x00;
    arp[1] = 0x01; // Hardware type: Ethernet (1)
    arp[2] = 0x08;
    arp[3] = 0x00; // Protocol type: IPv4 (0x0800)
    arp[4] = 6; // Hardware address length
    arp[5] = 4; // Protocol address length
    arp[6] = 0x00;
    arp[7] = 0x02; // Opcode: Reply (2)
    arp[8..14].copy_from_slice(&sender_mac);
    arp[14..18].copy_from_slice(&sender_ip);
    pkt
}

#[test]
fn parse_valid_arp_reply() {
    let pkt = make_arp_packet([0xAA, 0xBB, 0xCC, 0xDD, 0xEE, 0x01], [192, 168, 1, 100]);
    let (ip, mac) = parse_arp_packet(&pkt).unwrap();
    assert_eq!(ip, Ipv4Addr::new(192, 168, 1, 100));
    assert_eq!(mac, [0xAA, 0xBB, 0xCC, 0xDD, 0xEE, 0x01]);
}

#[test]
fn parse_arp_different_subnet() {
    let pkt = make_arp_packet([0x00, 0x11, 0x22, 0x33, 0x44, 0x55], [10, 0, 0, 42]);
    let (ip, mac) = parse_arp_packet(&pkt).unwrap();
    assert_eq!(ip, Ipv4Addr::new(10, 0, 0, 42));
    assert_eq!(mac, [0x00, 0x11, 0x22, 0x33, 0x44, 0x55]);
}

#[test]
fn parse_arp_high_octets() {
    let pkt = make_arp_packet([0xFE, 0xDC, 0xBA, 0x98, 0x76, 0x54], [172, 16, 255, 254]);
    let (ip, _mac) = parse_arp_packet(&pkt).unwrap();
    assert_eq!(ip, Ipv4Addr::new(172, 16, 255, 254));
}

#[test]
fn reject_packet_too_short() {
    assert!(parse_arp_packet(&[0u8; 41]).is_none());
}

#[test]
fn reject_empty_packet() {
    assert!(parse_arp_packet(&[]).is_none());
}

#[test]
fn reject_non_arp_ethertype() {
    let mut pkt = make_arp_packet([1; 6], [10, 0, 0, 1]);
    pkt[12] = 0x08;
    pkt[13] = 0x00; // IPv4 ethertype, not ARP
    assert!(parse_arp_packet(&pkt).is_none());
}

#[test]
fn reject_non_ethernet_hardware_type() {
    let mut pkt = make_arp_packet([1; 6], [10, 0, 0, 1]);
    pkt[14] = 0x00;
    pkt[15] = 0x06; // Hardware type 6 (IEEE 802) instead of 1
    assert!(parse_arp_packet(&pkt).is_none());
}

#[test]
fn reject_non_ipv4_protocol() {
    let mut pkt = make_arp_packet([1; 6], [10, 0, 0, 1]);
    pkt[16] = 0x86;
    pkt[17] = 0xDD; // IPv6 protocol type
    assert!(parse_arp_packet(&pkt).is_none());
}

#[test]
fn reject_wrong_hardware_addr_len() {
    let mut pkt = make_arp_packet([1; 6], [10, 0, 0, 1]);
    pkt[18] = 8; // hw addr len 8 instead of 6
    assert!(parse_arp_packet(&pkt).is_none());
}

#[test]
fn reject_wrong_protocol_addr_len() {
    let mut pkt = make_arp_packet([1; 6], [10, 0, 0, 1]);
    pkt[19] = 16; // proto addr len 16 instead of 4
    assert!(parse_arp_packet(&pkt).is_none());
}

#[test]
fn reject_broadcast_mac() {
    let pkt = make_arp_packet([0xFF; 6], [192, 168, 1, 1]);
    assert!(parse_arp_packet(&pkt).is_none());
}

#[test]
fn accept_exactly_42_bytes() {
    let pkt = make_arp_packet([0x01, 0x02, 0x03, 0x04, 0x05, 0x06], [1, 2, 3, 4]);
    assert_eq!(pkt.len(), 42);
    assert!(parse_arp_packet(&pkt).is_some());
}

#[test]
fn accept_oversized_packet() {
    let mut pkt = make_arp_packet([0x01; 6], [192, 168, 0, 1]);
    pkt.extend_from_slice(&[0u8; 100]); // trailing data (padding)
    let (ip, _) = parse_arp_packet(&pkt).unwrap();
    assert_eq!(ip, Ipv4Addr::new(192, 168, 0, 1));
}

// ── extract_arp / parse_arp_header (capture-backend feed) ───────

/// Captured ARP request frame (Ethernet II, 42 bytes):
/// gateway 192.168.12.1 asking, laptop AC-45-EF-38-F9-F5 sender.
const CAPTURED_REQUEST: [u8; 42] = [
    0xFF, 0xFF, 0xFF, 0xFF, 0xFF, 0xFF, 0xAC, 0x45, 0xEF, 0x38, 0xF9, 0xF5, 0x08, 0x06, 0x00,
    0x01, 0x08, 0x00, 0x06, 0x04, 0x00, 0x01, 0xAC, 0x45, 0xEF, 0x38, 0xF9, 0xF5, 0xC0, 0xA8,
    0x0C, 0x40, 0x00, 0x00, 0x00, 0x00, 0x00, 0x00, 0xC0, 0xA8, 0x0C, 0x01,
];

/// Captured ARP reply frame (Ethernet II, 42 bytes):
/// gateway 192.168.12.1 / 64-67-72-20-06-A3 replying.
const CAPTURED_REPLY: [u8; 42] = [
    0xAC, 0x45, 0xEF, 0x38, 0xF9, 0xF5, 0x64, 0x67, 0x72, 0x20, 0x06, 0xA3, 0x08, 0x06, 0x00,
    0x01, 0x08, 0x00, 0x06, 0x04, 0x00, 0x02, 0x64, 0x67, 0x72, 0x20, 0x06, 0xA3, 0xC0, 0xA8,
    0x0C, 0x01, 0xAC, 0x45, 0xEF, 0x38, 0xF9, 0xF5, 0xC0, 0xA8, 0x0C, 0x40,
];

#[test]
fn extract_arp_from_real_request_frame() {
    let (op, mac, ip) = extract_arp(&CAPTURED_REQUEST, 1).unwrap();
    assert_eq!(op, 1); // request
    assert_eq!(mac, [0xAC, 0x45, 0xEF, 0x38, 0xF9, 0xF5]);
    assert_eq!(ip, Ipv4Addr::new(192, 168, 12, 64));
}

#[test]
fn extract_arp_from_real_reply_frame() {
    let (op, mac, ip) = extract_arp(&CAPTURED_REPLY, 1).unwrap();
    assert_eq!(op, 2); // reply
    assert_eq!(mac, [0x64, 0x67, 0x72, 0x20, 0x06, 0xA3]);
    assert_eq!(ip, Ipv4Addr::new(192, 168, 12, 1));
}

#[test]
fn extract_arp_accepts_direct_header_when_packet_type_7() {
    // PacketType==7 payload starts at the ARP header (no Ethernet II
    // prefix). Defensive path.
    let direct = &CAPTURED_REQUEST[14..];
    assert_eq!(direct.len(), 28);
    let (op, mac, ip) = extract_arp(direct, 7).unwrap();
    assert_eq!(op, 1);
    assert_eq!(mac, [0xAC, 0x45, 0xEF, 0x38, 0xF9, 0xF5]);
    assert_eq!(ip, Ipv4Addr::new(192, 168, 12, 64));
}

#[test]
fn extract_arp_rejects_bare_header_without_type_7() {
    // Same 28-byte header but packet_type=1 (Ethernet II expected):
    // no 0x0806 at offset 12, so it must not parse.
    let direct = &CAPTURED_REQUEST[14..];
    assert!(extract_arp(direct, 1).is_none());
}

#[test]
fn extract_arp_rejects_non_arp_frame() {
    let mut frame = CAPTURED_REQUEST;
    frame[12] = 0x08;
    frame[13] = 0x00; // IPv4, not ARP
    assert!(extract_arp(&frame, 1).is_none());
}

// ── DedupeLru ───────────────────────────────────────────────────

#[test]
fn dedupe_suppresses_repeat_within_ttl() {
    let mut lru = DedupeLru::new();
    let t0 = Instant { nanos: 0 };
    let mac = [0xAC, 0x45, 0xEF, 0x38, 0xF9, 0xF5];
    let ip = Ipv4Addr::new(192, 168, 12, 64);
    assert!(lru.accepts(1, mac, ip, t0));
    // Same content again immediately — suppressed.
    assert!(!lru.accepts(1, mac, ip, t0));
    // Different opcode is a different key.
    assert!(lru.accepts(2, mac, ip, t0));
}

#[test]
fn dedupe_readmits_after_ttl() {
    let mut lru = DedupeLru::new();
    let t0 = Instant { nanos: 0 };
    let mac = [0x01, 0x02, 0x03, 0x04, 0x05, 0x06];
    let ip = Ipv4Addr::new(10, 0, 0, 5);
    assert!(lru.accepts(1, mac, ip, t0));
    let later = t0.after(Duration::from_millis(DEDUPE_TTL * 1000 + 1));
    assert!(lru.accepts(1, mac, ip, later));
}

// ── format_mac ──────────────────────────────────────────────────

#[test]
fn format_mac_standard() {
    assert_eq!(
        format_mac(&[0xAA, 0xBB, 0xCC, 0x01, 0x02, 0x03]),
        "aa:bb:cc:01:02:03"
    );
}

#[test]
fn format_mac_all_zeros() {
    assert_eq!(format_mac(&[0; 6]), "00:00:00:00:00:00");
}

#[test]
fn format_mac_all_ff() {
    assert_eq!(format_mac(&[0xFF; 6]), "ff:ff:ff:ff:ff:ff");
}

// ── parse_neighbors_json ────────────────────────────────────────
// Get-NetNeighbor JSON is the same on any Windows language.

#[test]
fn parse_neighbors_json_array_numeric_state() {
    // State: 5=Reachable, 4=Stale (both dynamic), 6=Permanent (static).
    let json = r#"[
        {"IPAddress":"192.168.1.1","LinkLayerAddress":"AA-BB-CC-DD-EE-01","State":5},
        {"IPAddress":"192.168.1.207","LinkLayerAddress":"aa-bb-cc-dd-ee-02","State":4},
        {"IPAddress":"192.168.1.255","LinkLayerAddress":"FF-FF-FF-FF-FF-FF","State":6}
    ]"#;
    let entries = parse_neighbors_json(json);
    assert_eq!(entries.len(), 2);
    assert_eq!(
        entries[0],
        (Ipv4Addr::new(192, 168, 1, 1), "aa:bb:cc:dd:ee:01".into())
    );
    assert_eq!(
        entries[1],
        (Ipv4Addr::new(192, 168, 1, 207), "aa:bb:cc:dd:ee:02".into())
    );
}

#[test]
fn parse_neighbors_json_single_object() {
    // ConvertTo-Json emits a bare object for a single row.
    let json = r#"{"IPAddress":"10.0.0.5","LinkLayerAddress":"11-22-33-44-55-66","State":5}"#;
    let entries = parse_neighbors_json(json);
    assert_eq!(entries.len(), 1);
    assert_eq!(entries[0].1, "11:22:33:44:55:66");
}

#[test]
fn parse_neighbors_json_accepts_enum_name_state() {
    // Defensive: if State serializes as the (invariant) enum name
    // rather than the number, we still classify it correctly.
    let json = r#"[
        {"IPAddress":"10.0.0.1","LinkLayerAddress":"AA-BB-CC-DD-EE-FF","State":"Reachable"},
        {"IPAddress":"10.0.0.2","LinkLayerAddress":"AA-BB-CC-DD-EE-01","State":"Permanent"}
    ]"#;
    let entries = parse_neighbors_json(json);
    assert_eq!(entries.len(), 1);
    assert_eq!(entries[0].0, Ipv4Addr::new(10, 0, 0, 1));
}

#[test]
fn parse_neighbors_json_excludes_permanent_and_incomplete() {
    // 6=Permanent (multicast/broadcast/static), 1=Incomplete (no MAC),
    // 0=Unreachable — none should appear.
    let json = r#"[
        {"IPAddress":"224.0.0.22","LinkLayerAddress":"01-00-5E-00-00-16","State":6},
        {"IPAddress":"192.168.1.50","LinkLayerAddress":"","State":1},
        {"IPAddress":"192.168.1.51","LinkLayerAddress":"AA-BB-CC-DD-EE-02","State":0}
    ]"#;
    assert!(parse_neighbors_json(json).is_empty());
}

#[test]
fn parse_neighbors_json_skips_placeholder_macs() {
    let json = r#"[
        {"IPAddress":"192.168.1.255","LinkLayerAddress":"FF-FF-FF-FF-FF-FF","State":5},
        {"IPAddress":"192.168.1.50","LinkLayerAddress":"00-00-00-00-00-00","State":5}
    ]"#;
    assert!(parse_neighbors_json(json).is_empty());
}

#[test]
fn parse_neighbors_json_empty_and_blank() {
    assert!(parse_neighbors_json("").is_empty());
    assert!(parse_neighbors_json("   \r\n ").is_empty());
}
