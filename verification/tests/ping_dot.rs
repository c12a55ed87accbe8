//! Reachability checks.

use pocketstream_network::arp::ArpDevice;
use pocketstream_network::device_registry::DeviceRegistry;
use pocketstream_network::ping_dot::{is_echo_reply, ping_targets};


#[test]
fn real_echo_reply_is_reachable() {
    let out = "\r\nPinging 192.168.12.1 with 32 bytes of data:\r\n\
               Reply from 192.168.12.1: bytes=32 time=1ms TTL=64\r\n\r\n\
               Ping statistics for 192.168.12.1:\r\n\
                   Packets: Sent = 1, Received = 1, Lost = 0 (0% loss),\r\n";
    assert!(is_echo_reply(out));
}

#[test]
fn unreachable_reported_by_self_is_not_reachable() {
    // ARP failure on the local subnet: our own adapter "replies".
    // This is the exact output for an unplugged camera.
    let out = "\r\nPinging 192.168.12.77 with 32 bytes of data:\r\n\
               Reply from 192.168.12.64: Destination host unreachable.\r\n\r\n\
               Ping statistics for 192.168.12.77:\r\n\
                   Packets: Sent = 1, Received = 1, Lost = 0 (0% loss),\r\n";
    assert!(!is_echo_reply(out));
}

#[test]
fn unreachable_reported_by_router_is_not_reachable() {
    let out = "\r\nPinging 10.20.30.40 with 32 bytes of data:\r\n\
               Reply from 192.168.12.1: Destination host unreachable.\r\n";
    assert!(!is_echo_reply(out));
}

#[test]
fn timeout_is_not_reachable() {
    let out = "\r\nPinging 192.168.12.77 with 32 bytes of data:\r\n\
               Request timed out.\r\n\r\n\
               Ping statistics for 192.168.12.77:\r\n\
                   Packets: Sent = 1, Received = 0, Lost = 1 (100% loss),\r\n";
    assert!(!is_echo_reply(out));
}

#[test]
fn only_addresses_are_pinged() {
    let mut r = DeviceRegistry::new();
    for (mac, ip) in [("m1", "192.168.1.20"), ("m2", "camera.local"), ("m3", "192.168.1.3")] {
        r.merge_arp(&ArpDevice {
            mac: mac.into(),
            ip: ip.into(),
            subnet: "192.168.1.0/24".into(),
            first_seen: "2026-04-27T00:00:00Z".into(),
            last_seen: "2026-04-27T00:00:00Z".into(),
        });
    }
    assert_eq!(
        ping_targets(&r.snapshot()),
        vec!["192.168.1.3".to_string(), "192.168.1.20".to_string()]
    );
}
