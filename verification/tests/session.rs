//! What frames a discovery session.

use pocketstream_network::arp::{format_mac, ArpDevice};
use pocketstream_network::config::{CachedDevice, ManualNode, NetworkMode};
use pocketstream_network::device_registry::DeviceRegistry;
use pocketstream_network::firewall::{
    count_rules_script, create_rule_script, read_count, rule_action, unblock_script,
    update_rule_script, RuleAction,
};
use pocketstream_network::interface::{InterfaceInfo, IpInfo};
use pocketstream_network::neighbors::{
    in_use, normalize_mac, ping_args, resolved_mac, table_script, target_script,
};
use pocketstream_network::net::{Ipv4Addr, Ipv4Network};
use pocketstream_network::pktmon::CaptureMode;
use pocketstream_network::session::{
    adoption_paused, after_quiet, camera_port, check_wired, enter_manual, get_interface_ips,
    hydrate_device_registry, hydrate_manual_nodes, is_subnet_pinned, mode_change, nodes_to_pin,
    parse_mac_bytes, persist_alias_writethrough, ping_sweep_subnets, sweep_delay, DhcpGate,
    DiscoveryState, GhostCache, LadderStep, ModeChange, WatchStep, Watchdog,
};
use pocketstream_network::textmap::TextSet;
use pocketstream_network::time::{Duration, Instant};
use pocketstream_network::watcher::{pick, shown_adapter};

fn at(secs: u64) -> Instant {
    Instant { nanos: 0 }.after(Duration::from_secs(secs))
}

fn ip(s: &str) -> Ipv4Addr {
    Ipv4Addr::parse(s).unwrap()
}

fn iface(name: &str, is_up: bool, is_vpn: bool, addrs: &[&str]) -> InterfaceInfo {
    InterfaceInfo {
        name: name.into(),
        display_name: name.into(),
        ips: addrs
            .iter()
            .map(|a| IpInfo {
                address: a.to_string(),
                prefix: 24,
                subnet: String::new(),
            })
            .collect(),
        mac: String::new(),
        is_up,
        is_ethernet: true,
        is_wifi: false,
        is_vpn,
        is_virtual: false,
    }
}

#[test]
fn discovery_runs_on_wired_adapters_only() {
    assert!(check_wired(&iface("Ethernet", true, false, &[]), "Ethernet").is_ok());
    assert_eq!(
        check_wired(&iface("Wi-Fi", false, false, &[]), "Wi-Fi").unwrap_err().message(),
        "'Wi-Fi' is not an up, wired Ethernet adapter \u{2014} ARP discovery only runs on the wired camera port"
    );
}

#[test]
fn macs_are_read_between_colons_or_hyphens() {
    assert_eq!(
        parse_mac_bytes("AA:bb:0C:00:ff:01"),
        Some([0xAA, 0xBB, 0x0C, 0, 0xFF, 1])
    );
    assert_eq!(parse_mac_bytes("40-C2-BA-CF-D5-75"), Some([0x40, 0xC2, 0xBA, 0xCF, 0xD5, 0x75]));
    let written = format_mac(&[0x0A, 0xB1, 0, 0xFF, 0x7E, 9]);
    assert_eq!(written, "0a:b1:00:ff:7e:09");
    assert_eq!(parse_mac_bytes(&written), Some([0x0A, 0xB1, 0, 0xFF, 0x7E, 9]));
    for bad in ["", "AA:BB:CC:DD:EE", "AA:BB:CC:DD:EE:FF:00", "AA:BB:CC:DD:EE:", "AA:bb:0C:00:ff:1", "+1:002:3:4:5:6", "+A:BB:CC:DD:EE:FF", "AA:BB:CC:DD:EE:0FF", "AA:BB:CC:DD:EE-FF", "G0:00:00:00:00:00"] {
        assert_eq!(parse_mac_bytes(bad), None);
    }
}

#[test]
fn adapter_addresses_are_read() {
    assert_eq!(
        get_interface_ips(&iface("e", true, false, &["10.0.0.1", "fe80::1", "10.0.0.2"]).ips),
        vec![ip("10.0.0.1"), ip("10.0.0.2")]
    );
}

#[test]
fn a_sweep_pings_every_host_from_its_address() {
    let pings = ping_sweep_subnets(&vec!["192.168.1.77".to_string(), "bad".to_string(), "10.0.0.9".to_string()]);
    assert_eq!(pings.len(), 508);
    assert_eq!(pings[0], ("192.168.1.77".to_string(), ip("192.168.1.1")));
    assert_eq!(pings[253], ("192.168.1.77".to_string(), ip("192.168.1.254")));
    assert_eq!(pings[254], ("10.0.0.9".to_string(), ip("10.0.0.1")));
}

#[test]
fn a_fence_holds_for_its_session() {
    let mut s = DiscoveryState::new();
    let f1 = s.start(at(10));
    assert!(!s.is_over(&f1));
    assert_eq!(s.session_elapsed(at(15)), Duration::from_secs(5));
    s.stop();
    assert!(s.is_over(&f1));
    assert_eq!(s.session_elapsed(at(15)), Duration::from_secs(0));
    let f2 = s.start(at(20));
    assert!(s.is_over(&f1));
    assert!(!s.is_over(&f2));
}

#[test]
fn adoption_pauses_while_there_is_a_lease() {
    let leased = vec![ip("169.254.1.1"), ip("192.168.1.5")];
    assert!(adoption_paused(true, &leased));
    assert!(!adoption_paused(false, &leased));
    assert!(!adoption_paused(true, &vec![ip("169.254.1.1")]));
    assert!(!adoption_paused(true, &vec![]));
}

#[test]
fn a_reading_of_the_dhcp_state_lasts_five_seconds() {
    let mut g = DhcpGate::new();
    assert_eq!(g.current(at(0)), None);
    assert!(g.note(Some(true), at(0)));
    assert_eq!(g.current(at(5)), Some(true));
    assert_eq!(g.current(at(6)), None);
    // A failed reading counts as static, and lasts as long.
    assert!(!g.note(None, at(6)));
    assert_eq!(g.current(at(11)), Some(false));
}

#[test]
fn a_list_of_ghosts_lasts_half_a_minute() {
    let mut g = GhostCache::new();
    assert!(!g.is_fresh(at(0)));
    g.note(vec![Ipv4Network::parse("10.0.0.0/8").unwrap()], at(0));
    assert!(g.is_fresh(at(29)));
    assert!(!g.is_fresh(at(30)));
    assert_eq!(g.networks.len(), 1);
}

#[test]
fn a_quiet_capture_is_started_again_twice_before_it_is_degraded() {
    let mut w = Watchdog::new(7);
    assert_eq!(w.window_over(7), Some(LadderStep::Restart(CaptureMode::PreferScoped)));
    assert_eq!(w.window_over(7), Some(LadderStep::Restart(CaptureMode::ForcedUnscoped)));
    assert_eq!(w.window_over(7), Some(LadderStep::Degraded));
    assert_eq!(w.window_over(7), Some(LadderStep::Degraded));
    assert_eq!(w.restarts, 2);
    let mut w = Watchdog::new(7);
    w.window_over(7);
    assert_eq!(w.window_over(8), None);
    assert_eq!(after_quiet(255), LadderStep::Degraded);
}

#[test]
fn the_watchdog_gives_up_after_five_minutes() {
    let mut w = Watchdog::new(7);
    for _ in 0..149 {
        assert_eq!(w.poll(7), WatchStep::Watching);
    }
    assert_eq!(w.poll(7), WatchStep::GaveUp);
    let mut w = Watchdog::new(7);
    assert_eq!(w.poll(7), WatchStep::Watching);
    assert_eq!(w.poll(8), WatchStep::Recovered);
}

#[test]
fn the_camera_port_is_up_wired_and_addressed() {
    let list = vec![
        iface("vpn", true, true, &["10.0.0.1"]),
        iface("down", false, false, &["10.0.0.2"]),
        iface("bare", true, false, &[]),
        iface("good", true, false, &["10.0.0.3"]),
    ];
    assert_eq!(camera_port(&list), Some(3));
    assert_eq!(camera_port(&vec![]), None);
    // What is shown needs no link.
    assert_eq!(pick(&list), Some(1));
    assert_eq!(shown_adapter(list).name, "down");
    let bare = vec![iface("vpn", true, true, &["10.0.0.1"]), iface("bare", true, false, &[])];
    assert_eq!(shown_adapter(bare).name, "bare");
    let none = shown_adapter(vec![iface("vpn", true, true, &[])]);
    assert_eq!(none.name, "");
    assert!(none.is_ethernet && !none.is_up && none.ips.is_empty());
}

#[test]
fn only_the_manual_mode_moves_machinery() {
    let (auto, manual) = (NetworkMode::StaticAuto, NetworkMode::StaticManual);
    let dhcp = NetworkMode::Dhcp;
    assert_eq!(mode_change(auto, auto), ModeChange::Same);
    assert_eq!(mode_change(auto, manual), ModeChange::EnterManual);
    assert_eq!(mode_change(manual, dhcp), ModeChange::LeaveManual);
    assert_eq!(mode_change(auto, dhcp), ModeChange::Restart);
}

fn heard(mac: &str, addr: &str) -> ArpDevice {
    ArpDevice {
        mac: mac.into(),
        ip: addr.into(),
        subnet: "192.168.1.0/24".into(),
        first_seen: "t".into(),
        last_seen: "t".into(),
    }
}

fn row(mac: &str, addr: &str, alias: &str) -> CachedDevice {
    CachedDevice {
        mac: mac.into(),
        ip: addr.into(),
        subnet: "192.168.1.0/24".into(),
        open_ports: vec![80],
        alias: alias.into(),
        last_seen: "2026-04-26T00:00:00Z".into(),
    }
}

#[test]
fn devices_with_open_ports_are_pinned() {
    let mut r = DeviceRegistry::new();
    r.merge_arp(&heard("m1", "192.168.1.5"));
    r.merge_arp(&heard("m2", "192.168.1.6"));
    r.merge_scan_result("192.168.1.6", &vec![554]);
    r.set_alias("192.168.1.6", "CAM");
    r.hydrate_manual_nodes(
        &vec![ManualNode {
            ip: "192.168.1.7".into(),
            alias: "x".into(),
        }],
        "t",
    );
    r.merge_scan_result("192.168.1.7", &vec![80]);
    let pins = nodes_to_pin(&r.snapshot());
    assert_eq!(pins.len(), 1);
    assert_eq!(pins[0].ip, "192.168.1.6");
    assert_eq!(pins[0].alias, "CAM");
    let (demoted, show) = enter_manual(&mut r, &pins, "t", "");
    assert!(demoted.is_empty() && show);
    let snap = r.snapshot();
    assert_eq!(snap.len(), 1);
    assert_eq!(snap[0].mac, "manual:192.168.1.6");
}

#[test]
fn labels_are_written_where_they_are_kept() {
    let mut r = DeviceRegistry::new();
    r.merge_arp(&heard("m1", "192.168.1.5"));
    r.merge_arp(&heard("m2", "192.168.1.6"));
    r.merge_scan_result("192.168.1.6", &vec![554]);
    r.set_alias("192.168.1.6", "CAM");
    let writes = persist_alias_writethrough(
        &r.snapshot(),
        &vec![
            "192.168.1.6".to_string(),
            "10.0.0.1".to_string(),
            "192.168.1.5".to_string(),
        ],
    );
    assert_eq!(writes.len(), 2);
    assert_eq!(writes[0].row.as_ref().unwrap().mac, "m2");
    assert_eq!(writes[0].row.as_ref().unwrap().open_ports, vec![554]);
    assert_eq!(writes[0].alias, "CAM");
    assert!(writes[1].row.is_none());
    assert_eq!(writes[1].ip, "192.168.1.5");
}

#[test]
fn the_registry_starts_from_the_cache() {
    let mut r = DeviceRegistry::new();
    let cached = vec![
        row("m1", "192.168.1.5", "CAM"),
        row("m2", "192.168.1.6", "CAM"),
        row("m3", "10.5.0.9", ""),
        row("m4", "192.168.1.204", ""),
    ];
    let report = hydrate_device_registry(
        &mut r,
        &cached,
        &vec![Ipv4Network::parse("10.5.0.0/16").unwrap()],
        &vec![ip("192.168.1.204")],
        "192.168.1.6",
    );
    assert_eq!(report.evict, vec!["m3".to_string(), "m4".to_string()]);
    assert_eq!(report.demoted, vec!["192.168.1.5".to_string()]);
    assert!(report.changed);
    let cams: Vec<String> =
        r.snapshot().into_iter().filter(|d| d.alias == "CAM").map(|d| d.mac).collect();
    assert_eq!(cams, vec!["m2".to_string()]);
    assert_eq!(r.len(), 2);
    // A second time nothing comes of it.
    let report = hydrate_device_registry(&mut r, &vec![], &vec![], &vec![], "192.168.1.6");
    assert!(!report.changed && report.evict.is_empty() && report.demoted.is_empty());
}

#[test]
fn no_pinned_nodes_change_nothing() {
    let mut r = DeviceRegistry::new();
    let (demoted, show) = hydrate_manual_nodes(&mut r, &vec![], "t", "");
    assert!(demoted.is_empty() && !show);
    let nodes = vec![ManualNode {
        ip: "192.168.1.7".into(),
        alias: "x".into(),
    }];
    let (_, show) = hydrate_manual_nodes(&mut r, &nodes, "t", "");
    assert!(show);
    let (_, show) = hydrate_manual_nodes(&mut r, &nodes, "t", "");
    assert!(!show);
}

#[test]
fn a_pin_holds_its_subnet() {
    let mut r = DeviceRegistry::new();
    r.hydrate_from_cache(&vec![row("m1", "192.168.1.5", "CAM"), row("m2", "10.9.0.5", "")]);
    let mut pins = TextSet::new();
    pins.insert("172.31.169.65".to_string());
    pins.insert("camera.local".to_string());
    assert!(is_subnet_pinned(&r, &pins, "192.168.1.0/24"));
    assert!(is_subnet_pinned(&r, &pins, "172.31.169.0/24"));
    assert!(!is_subnet_pinned(&r, &pins, "10.9.0.0/24"));
}

// ── firewall ────────────────────────────────────────────────────────

#[test]
fn only_a_certain_answer_makes_a_rule() {
    assert_eq!(rule_action(Some(" 0\r\n")), RuleAction::Create);
    assert_eq!(rule_action(Some("2")), RuleAction::Update);
    assert_eq!(rule_action(Some("")), RuleAction::Leave);
    assert_eq!(rule_action(Some("error")), RuleAction::Leave);
    assert_eq!(rule_action(None), RuleAction::Leave);
    assert_eq!(read_count("+7"), Some(7));
    assert_eq!(read_count("4294967295"), Some(u32::MAX));
    assert_eq!(read_count("4294967296"), None);
    assert_eq!(read_count("+"), None);
    assert_eq!(read_count("-1"), None);
}

#[test]
fn rules_are_spelled_out() {
    assert!(count_rules_script().contains("-DisplayName 'PocketStream RTSP Server'"));
    assert_eq!(
        update_rule_script(8554),
        "Set-NetFirewallRule -DisplayName 'PocketStream RTSP Server' -LocalPort 8554"
    );
    assert!(create_rule_script(8554).contains("-LocalPort 8554 -Action Allow"));
    assert!(unblock_script("C:\\Bob's\\app.exe").contains("$_.Program -eq 'C:\\Bob''s\\app.exe' }"));
}

// ── neighbors ───────────────────────────────────────────────────────

#[test]
fn neighbor_macs_are_brought_to_one_form() {
    assert_eq!(normalize_mac("AA-BB-CC-DD-EE-0F").as_deref(), Some("aa:bb:cc:dd:ee:0f"));
    assert_eq!(normalize_mac("FF-FF-FF-FF-FF-FF"), None);
    assert_eq!(normalize_mac(""), None);
    let entries = vec![
        (ip("10.0.0.1"), "a".to_string()),
        (ip("10.0.0.2"), "b".to_string()),
    ];
    assert_eq!(resolved_mac(&entries, ip("10.0.0.2")).as_deref(), Some("b"));
    assert_eq!(resolved_mac(&entries, ip("10.0.0.3")), None);
    assert!(table_script("10.0.0.1").starts_with("$idx=(Get-NetIPAddress -IPAddress '10.0.0.1'"));
    assert!(target_script(ip("10.0.0.1")).contains("-IPAddress '10.0.0.1'"));
}

#[test]
fn pings_are_spelled_out() {
    assert_eq!(
        ping_args(ip("10.0.0.5"), None, 1000),
        vec!["-n", "1", "-w", "1000", "10.0.0.5"]
    );
    assert_eq!(
        ping_args(ip("10.0.0.5"), Some(ip("10.0.0.254")), 200),
        vec!["-n", "1", "-w", "200", "-S", "10.0.0.254", "10.0.0.5"]
    );
    assert!(!in_use(&vec![]));
    assert!(in_use(&vec![(ip("10.0.0.5"), "a".to_string())]));
}

#[test]
fn an_adopted_subnet_is_swept_three_times() {
    let delays: Vec<Option<u64>> = (0..5).map(|i| sweep_delay(i, false)).collect();
    assert_eq!(delays, vec![Some(1500), Some(5000), Some(12000), None, None]);
    assert_eq!(sweep_delay(0, true), None);
}
