//! Setting addresses.

use pocketstream_network::adapter_refresh::{
    elevated_restart_script, hard_refresh_result, restart_script, soft_refresh_result,
};
use pocketstream_network::command::{
    command_output, elevated_script, needs_elevation, CommandEnd, CommandOutput,
};
use pocketstream_network::interface::IpInfo;
use pocketstream_network::ip_config::{
    add_address_args, check_secondary, check_static, cidr_text, delete_address_args, dhcp_result,
    dhcp_script, dhcp_state, dhcp_state_script, elevated_dhcp_script, mask_to_prefix,
    new_address_script, prefix_to_mask, set_address_args, set_address_runs, to_restore,
    validate_ip,
};
use pocketstream_network::net::Ipv4Addr;


// ── validate_ip ─────────────────────────────────────────────────

#[test]
fn validate_ip_valid_addresses() {
    assert!(validate_ip("192.168.1.1").is_ok());
    assert!(validate_ip("10.0.0.1").is_ok());
    assert!(validate_ip("255.255.255.0").is_ok());
    assert!(validate_ip("0.0.0.0").is_ok());
    assert!(validate_ip("172.16.0.1").is_ok());
}

#[test]
fn validate_ip_invalid_addresses() {
    assert!(validate_ip("").is_err());
    assert!(validate_ip("not-an-ip").is_err());
    assert!(validate_ip("256.1.1.1").is_err());
    assert!(validate_ip("192.168.1").is_err());
    assert!(validate_ip("192.168.1.1.1").is_err());
    assert!(validate_ip("::1").is_err()); // IPv6 rejected
}

#[test]
fn validate_ip_error_message() {
    let err = validate_ip("bad").unwrap_err();
    assert!(err.message().contains("Invalid IP address"));
    assert!(err.message().contains("bad"));
}

// ── mask_to_prefix ─────────────────────────────────


#[test]
fn mask_to_prefix_common_masks() {
    assert_eq!(mask_to_prefix("255.255.255.0").unwrap(), 24);
    assert_eq!(mask_to_prefix("255.255.0.0").unwrap(), 16);
    assert_eq!(mask_to_prefix("255.0.0.0").unwrap(), 8);
    assert_eq!(mask_to_prefix("255.255.255.255").unwrap(), 32);
    assert_eq!(mask_to_prefix("255.255.255.128").unwrap(), 25);
    assert_eq!(mask_to_prefix("255.255.252.0").unwrap(), 22);
}

#[test]
fn mask_to_prefix_invalid() {
    assert!(mask_to_prefix("not-a-mask").is_err());
}

#[test]
fn faults_name_the_text() {
    assert_eq!(
        mask_to_prefix("not-a-mask").unwrap_err().message(),
        "Invalid subnet mask: not-a-mask"
    );
    assert_eq!(
        check_static("10.0.0.1", "255.0.0.0", Some("gw")).unwrap_err().message(),
        "Invalid IP address: gw"
    );
    assert_eq!(
        check_static("ip", "mask", None).unwrap_err().message(),
        "Invalid IP address: ip"
    );
    assert!(check_static("10.0.0.1", "255.0.0.0", None).is_ok());
    assert_eq!(check_secondary("10.0.0.1", "255.255.255.0").unwrap(), 24);
    assert_eq!(
        check_secondary("10.0.0.1", "x").unwrap_err().message(),
        "Invalid IP address: x"
    );
}

#[test]
fn prefix_comes_back_from_its_mask() {
    for p in 0u8..=32 {
        assert_eq!(mask_to_prefix(&prefix_to_mask(p)).unwrap(), p);
    }
    assert_eq!(prefix_to_mask(24), "255.255.255.0");
    assert_eq!(prefix_to_mask(20), "255.255.240.0");
    assert_eq!(prefix_to_mask(1), "128.0.0.0");
    assert_eq!(prefix_to_mask(0), "0.0.0.0");
    assert_eq!(prefix_to_mask(40), "255.255.255.255");
}

fn sec(address: &str) -> IpInfo {
    IpInfo {
        address: address.into(),
        prefix: 24,
        subnet: String::new(),
    }
}

#[test]
fn only_preserved_secondaries_come_back() {
    let ips = vec![sec("192.168.1.10"), sec("169.254.7.102"), sec("10.0.0.9"), sec("bad")];
    let keep = vec![Ipv4Addr::new(169, 254, 7, 102), Ipv4Addr::new(192, 168, 1, 10)];
    let back = to_restore(&ips, "192.168.1.10", &keep);
    assert_eq!(back.len(), 1);
    assert_eq!(back[0].address, "169.254.7.102");
}

#[test]
fn commands_are_spelled_out() {
    assert_eq!(
        set_address_args("Ethernet", "10.0.0.2", "255.255.255.0", Some("10.0.0.1")),
        vec!["interface", "ip", "set", "address", "Ethernet", "static", "10.0.0.2", "255.255.255.0", "10.0.0.1"]
    );
    assert_eq!(
        add_address_args("Ethernet 2", "10.0.0.2", "255.255.255.0"),
        vec!["interface", "ip", "add", "address", "name=Ethernet 2", "10.0.0.2", "255.255.255.0"]
    );
    assert_eq!(
        delete_address_args("Ethernet", "10.0.0.2"),
        vec!["interface", "ip", "delete", "address", "name=Ethernet", "10.0.0.2"]
    );
    assert_eq!(cidr_text("10.0.0.2", 24), "10.0.0.2/24");
    let runs = set_address_runs("eth0", "10.0.0.2", "255.255.0.0", Some("10.0.0.1")).unwrap();
    assert_eq!(runs.len(), 4);
    assert_eq!(runs[1].args, vec!["addr", "add", "10.0.0.2/16", "dev", "eth0"]);
    assert_eq!(runs[3].args, vec!["route", "add", "default", "via", "10.0.0.1", "dev", "eth0"]);
    let required: Vec<bool> = runs.iter().map(|r| r.required).collect();
    assert_eq!(required, vec![true, true, true, false]);
    assert!(set_address_runs("eth0", "10.0.0.2", "x", None).is_err());
}

#[test]
fn names_are_quoted_in_scripts() {
    assert_eq!(
        new_address_script("Bob's NIC", "10.0.0.2", 24),
        "New-NetIPAddress -InterfaceAlias 'Bob''s NIC' -IPAddress '10.0.0.2' -PrefixLength 24 -ErrorAction Stop | Out-Null"
    );
    assert_eq!(
        dhcp_state_script("Bob's NIC"),
        "(Get-NetIPInterface -InterfaceAlias 'Bob''s NIC' -AddressFamily IPv4).Dhcp"
    );
    let inner = dhcp_script("Bob's NIC");
    assert!(inner.starts_with("$alias='Bob''s NIC'; Get-NetIPAddress"));
    assert!(inner.ends_with("ipconfig /renew $alias | Out-Null"));
    assert_eq!(elevated_dhcp_script("Bob's NIC"), elevated_script(&inner));
    assert!(elevated_dhcp_script("Bob's NIC").contains("$alias=''Bob''''s NIC''; "));
    assert_eq!(
        restart_script("Bob's NIC"),
        "Restart-NetAdapter -Name 'Bob''s NIC' -Confirm:$false"
    );
    assert!(elevated_restart_script("Eth")
        .ends_with("'Restart-NetAdapter -Name ''Eth'' -Confirm:$false'"));
}

fn out(success: bool, stdout: &str, stderr: &str) -> CommandOutput {
    CommandOutput {
        success,
        code: Some(if success { 0 } else { 1 }),
        stdout: stdout.into(),
        stderr: stderr.into(),
    }
}

#[test]
fn failures_of_commands_are_told() {
    assert_eq!(command_output("netsh", Ok(out(true, " x ", "y"))).unwrap(), " x ");
    assert_eq!(
        command_output("netsh", Ok(out(false, " in use \n", " \r\n"))).unwrap_err().message(),
        "netsh failed: in use"
    );
    assert_eq!(
        command_output("netsh", Ok(out(false, "a", " b "))).unwrap_err().message(),
        "netsh failed: b"
    );
    assert_eq!(
        command_output("netsh", Err("gone".into())).unwrap_err().message(),
        "Failed to run netsh: gone"
    );
}

#[test]
fn dhcp_state_is_read_in_any_case() {
    assert!(dhcp_state(Ok(out(true, " Enabled\r\n", ""))).unwrap());
    assert!(dhcp_state(Ok(out(true, "ENABLED", ""))).unwrap());
    assert!(!dhcp_state(Ok(out(true, "Disabled", ""))).unwrap());
    assert_eq!(
        dhcp_state(Ok(out(false, "Enabled", " no such "))).unwrap_err().message(),
        "Get-NetIPInterface failed: no such"
    );
    assert_eq!(
        dhcp_state(Err("gone".into())).unwrap_err().message(),
        "Failed to read DHCP state: gone"
    );
}

#[test]
fn steps_tell_how_they_failed() {
    assert!(dhcp_result(CommandEnd::Ended(out(true, "", ""))).is_ok());
    assert_eq!(
        dhcp_result(CommandEnd::TimedOut).unwrap_err().message(),
        "DHCP toggle timed out after 60s"
    );
    assert_eq!(
        dhcp_result(CommandEnd::NotRun("x".into())).unwrap_err().message(),
        "Failed to launch elevation: x"
    );
    assert_eq!(
        dhcp_result(CommandEnd::Ended(out(false, "", " no "))).unwrap_err().message(),
        "DHCP toggle failed (UAC may have been declined): no"
    );
    assert_eq!(
        hard_refresh_result(CommandEnd::TimedOut).unwrap_err().message(),
        "Elevated refresh timed out after 60s"
    );
    assert_eq!(
        soft_refresh_result(CommandEnd::Ended(out(false, "", "no lease"))).unwrap_err().message(),
        "ipconfig /renew failed: no lease"
    );
    assert!(!needs_elevation(&CommandEnd::Ended(out(true, "", ""))));
    assert!(needs_elevation(&CommandEnd::Ended(out(false, "", ""))));
    assert!(needs_elevation(&CommandEnd::TimedOut));
}
