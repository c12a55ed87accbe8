//! Adapters: reading what the system says of them.

use pocketstream_network::command::{CommandEnd, CommandOutput};
use pocketstream_network::interface::{
    adapter_query, adapters_of_raw, all_local_ipv4, enumeration_log_action, get_by_name,
    is_vpn_adapter, is_wired_ethernet, is_wired_physical, list_adapters, list_vpn,
    mac_of_hardware, names_vpn, own_address, parse_adapter, parse_adapter_json,
    physical_medium_is_wireless, query_output, quick_status_by_mac, InterfaceInfo, LocalAdapter,
    RawAdapter, ValidatedNames,
};
use pocketstream_network::json;
use pocketstream_network::net::Ipv4Addr;
use pocketstream_network::time::{Duration, Instant};


// ── Camera-port predicates ──────────────────────────────────────

fn flags_iface(
    is_up: bool,
    is_ethernet: bool,
    is_vpn: bool,
    is_virtual: bool,
) -> InterfaceInfo {
    InterfaceInfo {
        name: "t".into(),
        display_name: "t".into(),
        ips: vec![],
        mac: String::new(),
        is_up,
        is_ethernet,
        is_wifi: false,
        is_vpn,
        is_virtual,
    }
}

#[test]
fn wired_predicates_split_link_state_from_structure() {
    // A disconnected wired port is structurally valid but not "up".
    let down_wired = flags_iface(false, true, false, false);
    assert!(is_wired_physical(&down_wired));
    assert!(!is_wired_ethernet(&down_wired));
    // Up and wired satisfies both.
    let up_wired = flags_iface(true, true, false, false);
    assert!(is_wired_physical(&up_wired));
    assert!(is_wired_ethernet(&up_wired));
    // Structure rejects non-Ethernet, VPN, and virtual no matter
    // the link state.
    assert!(!is_wired_physical(&flags_iface(true, false, false, false)));
    assert!(!is_wired_physical(&flags_iface(true, true, true, false)));
    assert!(!is_wired_physical(&flags_iface(true, true, false, true)));
    assert!(!is_wired_ethernet(&flags_iface(true, true, true, false)));
}

// ── Enumeration log change-gate ─────────────────────────────────

#[test]
fn enumeration_log_first_result_logs_with_zero_suppressed() {
    let mut last: Option<(String, u64)> = None;
    assert_eq!(enumeration_log_action(&mut last, "a"), Some(0));
}

#[test]
fn enumeration_log_identical_results_are_suppressed_and_counted() {
    let mut last: Option<(String, u64)> = None;
    let _ = enumeration_log_action(&mut last, "a");
    assert_eq!(enumeration_log_action(&mut last, "a"), None);
    assert_eq!(enumeration_log_action(&mut last, "a"), None);
    assert_eq!(enumeration_log_action(&mut last, "a"), None);
    // A change logs again and reports how many repeats were withheld.
    assert_eq!(enumeration_log_action(&mut last, "b"), Some(3));
    // The counter reset with the new value.
    assert_eq!(enumeration_log_action(&mut last, "c"), Some(0));
    assert_eq!(enumeration_log_action(&mut last, "c"), None);
}

// ── Windows-specific parse functions ─────────────────────────────


#[test]
fn is_vpn_adapter_matches_known_keywords() {
    assert!(is_vpn_adapter("Tailscale Tunnel"));
    assert!(is_vpn_adapter("TAP-Windows Adapter V9"));
    assert!(is_vpn_adapter("WireGuard Tunnel"));
    assert!(is_vpn_adapter("Cisco AnyConnect Virtual Miniport"));
    assert!(is_vpn_adapter("NordLynx Tunnel"));
    assert!(is_vpn_adapter("OpenVPN TAP-Windows6"));
    assert!(is_vpn_adapter("Fortinet Virtual Ethernet Adapter"));
    assert!(is_vpn_adapter("ZeroTier One Virtual Port"));
}

#[test]
fn is_vpn_adapter_case_insensitive() {
    assert!(is_vpn_adapter("TAILSCALE TUNNEL"));
    assert!(is_vpn_adapter("wireguard"));
    assert!(is_vpn_adapter("VPN Connection"));
}

#[test]
fn is_vpn_adapter_rejects_normal() {
    assert!(!is_vpn_adapter("Intel(R) Ethernet Connection I219-V"));
    assert!(!is_vpn_adapter("Realtek PCIe GBE Family Controller"));
    assert!(!is_vpn_adapter("Microsoft Wi-Fi Direct Virtual Adapter"));
}

// ── physical-medium classification ────────────────────────────

#[test]
fn physical_medium_numeric_wireless_set() {
    for n in [1u64, 8, 9, 10, 12, 13, 20] {
        assert!(
            physical_medium_is_wireless(Some(n), ""),
            "NdisPhysicalMedium {n} must classify wireless"
        );
    }
    // 14 = physical 802.3; 2 = CableModem — wired media stay wired.
    assert!(!physical_medium_is_wireless(Some(14), ""));
    assert!(!physical_medium_is_wireless(Some(2), ""));
}

#[test]
fn physical_medium_numeric_beats_string() {
    // A conclusive wired numeric wins even against a wireless string.
    assert!(!physical_medium_is_wireless(Some(14), "Native 802.11"));
}

#[test]
fn physical_medium_string_fallback_variants() {
    assert!(physical_medium_is_wireless(None, "Native 802.11"));
    assert!(physical_medium_is_wireless(Some(0), "Wireless LAN"));
    assert!(physical_medium_is_wireless(None, "wireless wan"));
    assert!(physical_medium_is_wireless(None, "802.11"));
}

#[test]
fn physical_medium_unspecified_falls_back_to_not_wireless() {
    assert!(!physical_medium_is_wireless(None, ""));
    assert!(!physical_medium_is_wireless(Some(0), "Unspecified"));
    assert!(!physical_medium_is_wireless(Some(0), ""));
}

#[test]
fn parse_adapter_emulated_802_3_wireless_dongle_not_ethernet() {
    let json = json::read(
        r#"{
        "Name": "Wi-Fi Dongle",
        "Description": "Generic USB Wireless Adapter",
        "MacAddress": "AA-BB-CC-00-11-22",
        "MediaType": "802.3",
        "NdisPhysicalMedium": 9,
        "Status": "Up",
        "IPs": []
    }"#,
    )
    .unwrap();
    let iface = parse_adapter(&json, false);
    assert!(
        !iface.is_ethernet,
        "wireless physical medium must override logical 802.3"
    );
    assert!(iface.is_wifi);
}

#[test]
fn parse_adapter_physical_802_3_stays_ethernet() {
    let json = json::read(
        r#"{
        "Name": "Ethernet",
        "Description": "Intel(R) Ethernet Connection I219-V",
        "MacAddress": "AA-BB-CC-DD-EE-FF",
        "MediaType": "802.3",
        "PhysicalMediaType": "802.3",
        "NdisPhysicalMedium": 14,
        "Status": "Up",
        "IPs": []
    }"#,
    )
    .unwrap();
    let iface = parse_adapter(&json, false);
    assert!(iface.is_ethernet);
    assert!(!iface.is_wifi);
}

#[test]
fn parse_adapter_wireless_string_overrides_logical_802_3() {
    let json = json::read(
        r#"{
        "Name": "Mobile Broadband",
        "Description": "WWAN Modem",
        "MacAddress": "AA-BB-CC-33-44-55",
        "MediaType": "802.3",
        "PhysicalMediaType": "Wireless WAN",
        "Status": "Up",
        "IPs": []
    }"#,
    )
    .unwrap();
    let iface = parse_adapter(&json, false);
    assert!(!iface.is_ethernet);
    assert!(iface.is_wifi);
}

#[test]
fn parse_adapter_missing_physical_fields_keeps_today_behavior() {
    // Without either physical-medium field the logical one decides.
    let json = json::read(
        r#"{
        "Name": "Ethernet",
        "Description": "Realtek PCIe GbE",
        "MacAddress": "11-22-33-44-55-66",
        "MediaType": "802.3",
        "Status": "Up",
        "IPs": []
    }"#,
    )
    .unwrap();
    let iface = parse_adapter(&json, false);
    assert!(iface.is_ethernet);
    assert!(!iface.is_wifi);
}

#[test]
fn parse_adapter_json_empty_string() {
    let result = parse_adapter_json("").unwrap();
    assert!(result.is_empty());
}

#[test]
fn parse_adapter_json_single_object() {
    let json = r#"{"Name":"Ethernet","Description":"Intel Ethernet","MacAddress":"AA-BB-CC-DD-EE-FF","MediaType":"802.3","IPs":[]}"#;
    let result = parse_adapter_json(json).unwrap();
    assert_eq!(result.len(), 1);
    assert_eq!(result[0].text_of("Name").unwrap(), "Ethernet");
}

#[test]
fn parse_adapter_json_array() {
    let json = r#"[{"Name":"Eth1","Description":"Intel","MacAddress":"","MediaType":"","IPs":[]},{"Name":"Eth2","Description":"Realtek","MacAddress":"","MediaType":"","IPs":[]}]"#;
    let result = parse_adapter_json(json).unwrap();
    assert_eq!(result.len(), 2);
}

#[test]
fn parse_adapter_json_invalid() {
    assert!(parse_adapter_json("not json").is_err());
}

#[test]
fn parse_adapter_basic() {
    let json = json::read(
        r#"{
        "Name": "Ethernet 2",
        "Description": "Intel(R) I210 Gigabit Ethernet",
        "MacAddress": "AA-BB-CC-DD-EE-FF",
        "MediaType": "802.3",
        "Status": "Up",
        "IPs": [{"Address": "192.168.1.100", "PrefixLength": 24}]
    }"#,
    )
    .unwrap();
    let iface = parse_adapter(&json, false);
    assert_eq!(iface.name, "Ethernet 2");
    assert_eq!(iface.display_name, "Ethernet 2");
    assert_eq!(iface.mac, "AA:BB:CC:DD:EE:FF");
    assert!(iface.is_ethernet);
    assert!(!iface.is_vpn);
    assert!(iface.is_up);
    assert_eq!(iface.ips.len(), 1);
    assert_eq!(iface.ips[0].address, "192.168.1.100");
    assert_eq!(iface.ips[0].prefix, 24);
}

#[test]
fn parse_adapter_disconnected() {
    let json = json::read(
        r#"{
        "Name": "Ethernet",
        "Description": "Realtek PCIe GbE",
        "MacAddress": "11-22-33-44-55-66",
        "MediaType": "802.3",
        "Status": "Disconnected",
        "IPs": []
    }"#,
    )
    .unwrap();
    let iface = parse_adapter(&json, false);
    assert!(iface.is_ethernet);
    assert!(!iface.is_up, "Disconnected adapter must report is_up=false");
    assert!(iface.ips.is_empty());
}

#[test]
fn parse_adapter_vpn() {
    let json = json::read(
        r#"{
        "Name": "Tailscale",
        "Description": "Tailscale Tunnel",
        "MacAddress": "",
        "MediaType": "",
        "Status": "Up",
        "IPs": []
    }"#,
    )
    .unwrap();
    let iface = parse_adapter(&json, true);
    assert!(iface.is_vpn);
    assert!(!iface.is_ethernet);
    assert!(iface.ips.is_empty());
}

#[test]
fn parse_adapter_no_ips() {
    let json = json::read(
        r#"{
        "Name": "Ethernet",
        "Description": "Realtek",
        "MacAddress": "",
        "MediaType": "802.3",
        "IPs": null
    }"#,
    )
    .unwrap();
    let iface = parse_adapter(&json, false);
    assert!(iface.ips.is_empty());
}

#[test]
fn parse_adapter_ipv6_passthrough() {
    // parse_adapter accepts any valid IP (including IPv6)
    // because the PowerShell query already filters to IPv4.
    // Verify it doesn't panic on IPv6 input.
    let json = json::read(
        r#"{
        "Name": "Ethernet",
        "Description": "Intel",
        "MacAddress": "",
        "MediaType": "802.3",
        "IPs": [{"Address": "fe80::1", "PrefixLength": 64}]
    }"#,
    )
    .unwrap();
    let iface = parse_adapter(&json, false);
    // IPv6 may or may not parse — the function shouldn't panic
    assert!(iface.ips.len() <= 1);
}

#[test]
fn parse_adapter_ethernet_requires_802_3_media_type() {
    // Only MediaType "802.3" qualifies as ethernet — name/description
    // containing "ethernet" is NOT enough (avoids WiFi false positives).
    let json = json::read(
        r#"{
        "Name": "Connection 1",
        "Description": "USB Ethernet Adapter",
        "MacAddress": "",
        "MediaType": "",
        "IPs": []
    }"#,
    )
    .unwrap();
    let iface = parse_adapter(&json, false);
    assert!(!iface.is_ethernet, "Empty MediaType should not be ethernet");

    let json_802_3 = json::read(
        r#"{
        "Name": "Connection 1",
        "Description": "USB Ethernet Adapter",
        "MacAddress": "",
        "MediaType": "802.3",
        "IPs": []
    }"#,
    )
    .unwrap();
    let iface2 = parse_adapter(&json_802_3, false);
    assert!(iface2.is_ethernet, "802.3 MediaType should be ethernet");
}

#[test]
fn parse_adapter_wifi_not_ethernet() {
    let json = json::read(
        r#"{
        "Name": "Wi-Fi",
        "Description": "Intel(R) Wi-Fi 6E AX211",
        "MacAddress": "AA-BB-CC-DD-EE-FF",
        "MediaType": "Native 802.11",
        "IPs": [{"Address": "192.168.1.50", "PrefixLength": 24}]
    }"#,
    )
    .unwrap();
    let iface = parse_adapter(&json, false);
    assert!(
        !iface.is_ethernet,
        "WiFi (802.11) must not be marked ethernet"
    );
    assert!(iface.is_wifi, "WiFi (802.11) must be marked as wifi");
}

#[test]
fn parse_adapter_reads_virtual_flag() {
    // A virtual adapter whose description misses the VPN keyword
    // list (e.g. a Hyper-V/WSL vEthernet switch) must still be
    // marked is_virtual so the ghost machinery can see its subnet.
    let json = json::read(
        r#"{
        "Name": "vEthernet (WSL)",
        "Description": "Hyper-V Virtual Ethernet Adapter",
        "MacAddress": "00-15-5D-00-00-01",
        "MediaType": "802.3",
        "Status": "Up",
        "Virtual": true,
        "IPs": [{"Address": "172.28.0.1", "PrefixLength": 20}]
    }"#,
    )
    .unwrap();
    let iface = parse_adapter(&json, false);
    assert!(iface.is_virtual, "Virtual=true must set is_virtual");
    assert!(
        !iface.is_vpn,
        "non-keyword description must not be classified VPN"
    );
}

#[test]
fn parse_adapter_virtual_defaults_false() {
    // A real physical adapter reports Virtual=false (or omits it).
    let json = json::read(
        r#"{
        "Name": "Ethernet",
        "Description": "Intel(R) I210 Gigabit Ethernet",
        "MacAddress": "AA-BB-CC-DD-EE-FF",
        "MediaType": "802.3",
        "Status": "Up",
        "Virtual": false,
        "IPs": []
    }"#,
    )
    .unwrap();
    let iface = parse_adapter(&json, false);
    assert!(!iface.is_virtual);
    assert!(!iface.is_vpn);
}

#[test]
fn parse_adapter_vpn_from_description_when_physical() {
    // Defensive branch: a VPN driver that registers as physical
    // (Virtual=false) is still flagged is_vpn from its description,
    // even though list_physical passes force_vpn=false.
    let json = json::read(
        r#"{
        "Name": "Ethernet 3",
        "Description": "Fortinet SSL VPN Virtual Ethernet Adapter",
        "MacAddress": "",
        "MediaType": "802.3",
        "Status": "Up",
        "Virtual": false,
        "IPs": []
    }"#,
    )
    .unwrap();
    let iface = parse_adapter(&json, false);
    assert!(
        iface.is_vpn,
        "VPN keyword in description must set is_vpn even when Virtual=false"
    );
    assert!(!iface.is_virtual);
}

// ── finding adapters ────────────────────────────────────────────────

#[test]
fn get_by_name_nonexistent_returns_err() {
    let result = get_by_name(vec![], "__nonexistent_interface_42__");
    assert!(result.is_err());
    let err = result.unwrap_err();
    assert!(err.message().contains("not found"));
    assert_eq!(err.message(), "Interface '__nonexistent_interface_42__' not found");
}

#[test]
fn get_by_name_gives_the_first_of_that_name() {
    let mut a = flags_iface(true, true, false, false);
    a.name = "eth0".into();
    let mut b = flags_iface(false, true, false, false);
    b.name = "eth1".into();
    let mut c = flags_iface(true, true, false, false);
    c.name = "eth1".into();
    let found = get_by_name(vec![a, b, c], "eth1").unwrap();
    assert_eq!(found.name, "eth1");
    assert!(!found.is_up);
}

#[test]
fn validation_cache_remembers_within_ttl() {
    let name = "__ttl_cache_probe__";
    let t0 = Instant { nanos: 0 };
    let mut cache = ValidatedNames::new();
    assert!(!cache.recently_validated(name, t0));
    cache.remember_validated(name, t0);
    assert!(cache.recently_validated(name, t0));
    assert!(cache.recently_validated(name, t0.after(Duration::from_millis(29_999))));
    assert!(!cache.recently_validated(name, t0.after(Duration::from_secs(30))));
}

#[test]
fn validate_interface_name_rejects_unknown() {
    let mut cache = ValidatedNames::new();
    let t0 = Instant { nanos: 0 };
    let result = cache.validate_interface_name("__nonexistent_interface_43__", &vec![], t0);
    assert!(result.is_err());
    assert!(result
        .unwrap_err()
        .message()
        .contains("Unknown network interface"));
    assert!(!cache.recently_validated("__nonexistent_interface_43__", t0));
}

#[test]
fn validate_interface_name_remembers_a_listed_one() {
    let mut cache = ValidatedNames::new();
    let t0 = Instant { nanos: 7 };
    let list = vec![flags_iface(true, true, false, false)];
    assert!(cache.validate_interface_name("t", &list, t0).is_ok());
    assert!(cache.recently_validated("t", t0));
    // Within the window the list does not matter.
    assert!(cache.validate_interface_name("t", &vec![], t0).is_ok());
}

// ── listings ────────────────────────────────────────────────────────

#[test]
fn parse_adapter_keeps_ipv6_blocks() {
    let json = json::read(
        r#"{"Name":"Ethernet","IPs":{"Address":"fe80::1","PrefixLength":64}}"#,
    )
    .unwrap();
    let iface = parse_adapter(&json, false);
    assert_eq!(iface.ips.len(), 1);
    assert_eq!(iface.ips[0].subnet, "fe80::/64");
}

#[test]
fn parse_adapter_drops_bad_addresses_and_defaults_the_prefix() {
    let json = json::read(
        r#"{"IPs":[{"Address":"10.1.2.3"},{"Address":"x"},{"PrefixLength":8},
            {"Address":"10.1.2.3","PrefixLength":33},{"Address":"10.1.2.3","PrefixLength":264}]}"#,
    )
    .unwrap();
    let iface = parse_adapter(&json, false);
    let subnets: Vec<&str> = iface.ips.iter().map(|i| i.subnet.as_str()).collect();
    assert_eq!(subnets, vec!["10.1.2.0/24", "10.0.0.0/8"]);
    assert_eq!(iface.ips[1].prefix, 8);
}

#[test]
fn listing_reads_every_adapter() {
    let out = r#"[{"Name":"Ethernet","MediaType":"802.3","Status":"up","Virtual":false},
        {"Name":"Tailscale","Description":"Tailscale Tunnel","Status":"Up","Virtual":true}]"#;
    let all = list_adapters(out).unwrap();
    assert_eq!(all.len(), 2);
    assert!(is_wired_ethernet(&all[0]));
    assert!(all[1].is_vpn && all[1].is_virtual && !is_wired_physical(&all[1]));
    let vpn = list_vpn(out).unwrap();
    assert_eq!(vpn.len(), 1);
    assert_eq!(vpn[0].name, "Tailscale");
}

#[test]
fn listing_of_broken_output_is_an_error() {
    let e = list_adapters("{").unwrap_err();
    assert!(e.message().starts_with("Failed to parse adapter JSON: "));
    assert!(list_vpn("[1").is_err());
    assert!(list_adapters("  \r\n").unwrap().is_empty());
}

#[test]
fn vpn_words_are_found_in_small_letters_only() {
    assert!(names_vpn("my wintun adapter"));
    assert!(!names_vpn("my WINTUN adapter"));
}

#[test]
fn query_carries_its_condition() {
    let q = adapter_query("$_.Virtual -eq $false");
    assert!(q.starts_with(
        "Get-NetAdapter | Where-Object { ($_.Status -eq 'Up' -or $_.Status -eq 'Disconnected') -and $_.Virtual -eq $false } | ForEach-Object {"
    ));
    assert!(q.ends_with("} | ConvertTo-Json -Depth 3 -Compress"));
    assert!(q.contains("[PSCustomObject]@{"));
}

fn ended(success: bool, code: Option<i32>, stdout: &str, stderr: &str) -> CommandEnd {
    CommandEnd::Ended(CommandOutput {
        success,
        code,
        stdout: stdout.into(),
        stderr: stderr.into(),
    })
}

#[test]
fn a_failed_query_is_no_empty_list() {
    assert_eq!(query_output(ended(true, Some(0), "[]", "warning")).unwrap(), "[]");
    assert_eq!(
        query_output(ended(false, Some(-3), "[]", " bad \n")).unwrap_err().message(),
        "Adapter enumeration failed (exit -3): bad"
    );
    assert_eq!(
        query_output(ended(false, None, "", "x")).unwrap_err().message(),
        "Adapter enumeration failed (exit -1): x"
    );
    assert_eq!(
        query_output(ended(false, Some(12), "", "")).unwrap_err().message(),
        "Adapter enumeration failed (exit 12): "
    );
    assert_eq!(
        query_output(CommandEnd::TimedOut).unwrap_err().message(),
        "Adapter enumeration timed out after 10s (PowerShell/WMI may be hung)"
    );
    assert_eq!(
        query_output(CommandEnd::NotRun("gone".into())).unwrap_err().message(),
        "Failed to run PowerShell: gone"
    );
}

// ── the system's own interface ──────────────────────────────────────

fn raw(name: &str, loopback: bool) -> RawAdapter {
    RawAdapter {
        name: name.into(),
        mac: Some("aa:bb:cc:dd:ee:ff".into()),
        is_up: true,
        is_loopback: loopback,
        ips: vec![(Ipv4Addr::new(10, 20, 18, 9), 20)],
    }
}

#[test]
fn raw_adapters_show_their_kind_in_their_names() {
    let list = adapters_of_raw(&vec![
        raw("lo", true),
        raw("ENP3S0", false),
        raw("wlan0", false),
        raw("tun0", false),
        raw("Tailscale0", false),
    ]);
    assert_eq!(list.len(), 4);
    assert!(is_wired_ethernet(&list[0]));
    assert_eq!(list[0].name, "ENP3S0");
    assert_eq!(list[0].ips[0].address, "10.20.18.9");
    assert_eq!(list[0].ips[0].subnet, "10.20.16.0/20");
    assert!(list[1].is_wifi && !list[1].is_ethernet);
    assert!(list[2].is_vpn && list[2].is_virtual);
    assert!(list[3].is_vpn && list[3].is_virtual);
}

#[test]
fn own_address_with_a_prefix_that_is_too_long_stands_alone() {
    assert_eq!(own_address(Ipv4Addr::new(10, 0, 0, 9), 33).subnet, "10.0.0.9/33");
    assert_eq!(own_address(Ipv4Addr::new(10, 0, 0, 9), 0).subnet, "0.0.0.0/0");
}

#[test]
fn hardware_addresses_are_written_in_small_letters() {
    let bytes = [0xAA, 0x0B, 0xCC, 0x01, 0x02, 0xFF, 9, 9];
    assert_eq!(mac_of_hardware(&bytes, 6), "aa:0b:cc:01:02:ff");
    assert_eq!(mac_of_hardware(&bytes, 8), "aa:0b:cc:01:02:ff");
    assert_eq!(mac_of_hardware(&bytes, 5), "");
}

fn local(mac: Option<&str>, up: bool, addrs: &[(u8, u8, u8, u8)]) -> LocalAdapter {
    LocalAdapter {
        mac: mac.map(|m| m.to_string()),
        is_up: up,
        ips: addrs
            .iter()
            .map(|a| own_address(Ipv4Addr::new(a.0, a.1, a.2, a.3), 24))
            .collect(),
    }
}

#[test]
fn status_is_found_by_mac_in_any_case() {
    let list = vec![
        local(None, true, &[]),
        local(Some("aa:bb:cc:dd:ee:01"), false, &[(10, 0, 0, 1)]),
        local(Some("AA:BB:CC:DD:EE:02"), true, &[(10, 0, 1, 1), (10, 0, 2, 1)]),
    ];
    let (up, ips) = quick_status_by_mac(&list, "aa:bb:cc:dd:ee:02").unwrap();
    assert!(up);
    assert_eq!(ips.len(), 2);
    assert_eq!(ips[1].address, "10.0.2.1");
    assert!(quick_status_by_mac(&list, "aa:bb:cc:dd:ee:03").is_none());
    let all = all_local_ipv4(&list);
    assert_eq!(
        all,
        vec![
            Ipv4Addr::new(10, 0, 0, 1),
            Ipv4Addr::new(10, 0, 1, 1),
            Ipv4Addr::new(10, 0, 2, 1)
        ]
    );
}
