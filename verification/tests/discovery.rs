//! The decisions of a discovery session.

use pocketstream_network::adoptions::Adoptions;
use pocketstream_network::arp::{tasks_dropped, ArpCapture, ArpCounters, ArpDevice};
use pocketstream_network::auto_adopt::PendingIps;
use pocketstream_network::device_registry::DeviceRegistry;
use pocketstream_network::discovery::{
    AdoptLoop, AdoptOutcome, AfterAttempt, Attempt, DeviceGate, ReapDecision, ReapScreen,
};
use pocketstream_network::dwell::{DwellTracker, DwellVerdict};
use pocketstream_network::interface::IpInfo;
use pocketstream_network::net::{Ipv4Addr, Ipv4Network};
use pocketstream_network::pktmon::StreamDataDescriptor;
use pocketstream_network::session::DiscoveryState;
use pocketstream_network::sightings::{
    any_changed, merge_arp_table, merge_session_table, on_arp_seen,
};
use pocketstream_network::textmap::TextMap;
use pocketstream_network::time::{Duration, Instant};

const STALE: &str = "169.254.168.0/24";
const WALL: &str = "2026-07-16T12:00:00+00:00";

fn at(secs: u64) -> Instant {
    Instant { nanos: 0 }.after(Duration::from_secs(secs))
}

fn secs(s: u64) -> Duration {
    Duration::from_secs(s)
}

fn ip(s: &str) -> Ipv4Addr {
    Ipv4Addr::parse(s).unwrap()
}

fn fresh() -> AdoptLoop {
    AdoptLoop::new(&vec![
        IpInfo {
            address: "192.168.1.10".into(),
            prefix: 24,
            subnet: "192.168.1.0/24".into(),
        },
        IpInfo {
            address: "bad".into(),
            prefix: 24,
            subnet: String::new(),
        },
    ])
}

// ── removal of stale adoptions ──────────────────────────────────────

#[test]
fn reap_screen_looks_before_it_reads() {
    let mut l = fresh();
    assert_eq!(
        l.reap_screen("garbage", None, secs(99_999), at(0)),
        ReapScreen::BadKey { first: true }
    );
    assert_eq!(
        l.reap_screen("garbage", None, secs(99_999), at(0)),
        ReapScreen::BadKey { first: false }
    );
    assert_eq!(l.reap_screen(STALE, None, secs(599), at(0)), ReapScreen::Keep);
    assert_eq!(l.reap_screen(STALE, None, secs(600), at(0)), ReapScreen::Due);
    assert_eq!(
        l.reap_screen(STALE, Some(secs(1_799)), secs(9_999), at(0)),
        ReapScreen::Keep
    );
    assert_eq!(
        l.reap_screen("172.31.169.0/24", None, secs(9_999), at(0)),
        ReapScreen::Keep
    );
}

fn decide(l: &mut AdoptLoop, pinned: bool, rescued: bool, ips: &[&str]) -> ReapDecision {
    let ips: Vec<String> = ips.iter().map(|s| s.to_string()).collect();
    l.reap_decide(
        STALE,
        ip("169.254.168.102"),
        None,
        secs(600),
        pinned,
        rescued,
        &ips,
        at(1_000),
    )
}

#[test]
fn a_pin_or_a_rescue_holds_a_removal() {
    let mut l = fresh();
    let ips = ["192.168.1.10", "169.254.168.102"];
    assert!(matches!(decide(&mut l, true, false, &ips), ReapDecision::Held));
    assert!(matches!(decide(&mut l, false, true, &ips), ReapDecision::Held));
    assert!(matches!(decide(&mut l, false, false, &ips), ReapDecision::Unbind));
}

#[test]
fn a_blocked_removal_waits_a_minute() {
    let mut l = fresh();
    match decide(&mut l, false, false, &["169.254.168.102"]) {
        ReapDecision::Blocked(why) => assert_eq!(why, "is the adapter's primary IP"),
        _ => unreachable!(),
    }
    assert_eq!(
        l.reap_screen(STALE, None, secs(600), at(1_059)),
        ReapScreen::Cooling
    );
    assert_eq!(
        l.reap_screen(STALE, None, secs(600), at(1_060)),
        ReapScreen::Due
    );
}

#[test]
fn failed_removals_wait_longer_each_time() {
    let mut l = fresh();
    let mut a = Adoptions::new();
    a.record_adoption(STALE, ip("169.254.168.102"), at(0), WALL);
    let waits: Vec<u64> =
        (0..6).map(|_| l.reap_ended(&mut a, STALE, false, at(0)).unwrap()).collect();
    assert_eq!(waits, vec![60, 120, 240, 480, 600, 600]);
    // Nothing is forgotten while the address is bound.
    assert!(a.adopted.contains_key(STALE) && a.meta.contains_key(STALE));
}

#[test]
fn a_reaped_subnet_can_be_adopted_again() {
    let mut l = fresh();
    let mut a = Adoptions::new();
    a.record_adoption(STALE, ip("169.254.168.102"), at(0), WALL);
    // The subnet is known from the adoption on.
    assert!(l.consider("169.254.168.7", &a.adopted).is_none());
    assert_eq!(l.reap_ended(&mut a, STALE, true, at(0)), None);
    assert!(!a.adopted.contains_key(STALE));
    assert!(!a.liveness.contains_key(STALE));
    assert!(!a.meta.contains_key(STALE));
    assert_eq!(
        l.consider("169.254.168.7", &a.adopted),
        Some(ip("169.254.168.7"))
    );
    assert_eq!(
        l.gate(ip("169.254.168.7"), "m", "t1", &vec![], at(0)),
        DeviceGate::Started
    );
}

// ── adoption ────────────────────────────────────────────────────────

#[test]
fn known_and_adopted_subnets_are_passed_over() {
    let mut l = fresh();
    let mut adopted: TextMap<Ipv4Addr> = TextMap::new();
    adopted.insert("10.9.0.0/24".into(), ip("10.9.0.100"));
    assert!(l.consider("192.168.1.77", &adopted).is_none());
    assert!(l.consider("10.9.0.5", &adopted).is_none());
    assert!(l.consider("not-an-ip", &adopted).is_none());
    assert!(l.consider("10.8.0.5", &adopted).is_some());
    // A subnet that the adapter is on is known from then on.
    assert!(!l.screen(ip("10.8.0.5"), &vec![ip("10.8.0.1")], at(0)));
    assert!(l.consider("10.8.0.5", &adopted).is_none());
}

#[test]
fn adoption_needs_a_second_observation() {
    let mut l = fresh();
    let d = ip("10.8.0.5");
    assert!(l.screen(d, &vec![], at(0)));
    assert_eq!(l.gate(d, "m", "t1", &vec![], at(0)), DeviceGate::Started);
    assert_eq!(l.gate(d, "m", "t1", &vec![], at(2)), DeviceGate::Waiting);
    assert_eq!(l.gate(d, "n", "t9", &vec![], at(2)), DeviceGate::Started);
    assert_eq!(l.gate(d, "m", "t2", &vec![], at(4)), DeviceGate::Adopt);
}

#[test]
fn a_ghost_is_left_alone_for_a_while_only() {
    let mut l = fresh();
    let d = ip("10.8.0.5");
    let ghosts = vec![Ipv4Network::parse("10.8.0.0/16").unwrap()];
    assert_eq!(l.gate(d, "m", "t1", &ghosts, at(0)), DeviceGate::GhostSubnet);
    assert!(!l.screen(d, &vec![], at(299)));
    assert!(l.screen(d, &vec![], at(300)));
    assert_eq!(l.gate(d, "m", "t1", &vec![], at(300)), DeviceGate::Started);
}

fn ended(
    l: &mut AdoptLoop,
    subnet: &str,
    outcome: AdoptOutcome,
    shutdown: bool,
    t: u64,
) -> AfterAttempt {
    let attempt = Attempt {
        iface: "eth".into(),
        subnet: subnet.into(),
        adoption_id: 3,
    };
    let mut a = Adoptions::new();
    let mut pending = PendingIps::new();
    pending.pending_insert("eth", ip("10.8.0.100"), 3);
    let r = l.attempt_ended(&mut a, &mut pending, &attempt, outcome, shutdown, at(t), WALL);
    // The adoption is recorded exactly where it is pending no more.
    let recorded = matches!(r, AfterAttempt::Recorded(_));
    assert_eq!(a.adopted.contains_key(subnet), recorded);
    assert_eq!(pending.list.is_empty(), recorded);
    r
}

#[test]
fn a_failed_attempt_cools_down_and_starts_over() {
    let mut l = fresh();
    let d = ip("10.8.0.5");
    l.gate(d, "m", "t1", &vec![], at(0));
    assert_eq!(l.gate(d, "m", "t2", &vec![], at(0)), DeviceGate::Adopt);
    assert_eq!(
        ended(&mut l, "10.8.0.0/24", AdoptOutcome::Failed, false, 0),
        AfterAttempt::RollBack { retry_in: 60 }
    );
    assert!(!l.screen(d, &vec![], at(59)));
    assert!(l.screen(d, &vec![], at(60)));
    assert_eq!(l.gate(d, "m", "t3", &vec![], at(60)), DeviceGate::Started);
    assert_eq!(
        ended(&mut l, "10.8.0.0/24", AdoptOutcome::TimedOut, true, 60),
        AfterAttempt::RollBack { retry_in: 120 }
    );
}

#[test]
fn a_stop_that_overtakes_an_adoption_rolls_it_back() {
    let mut l = fresh();
    assert_eq!(
        ended(&mut l, "10.8.0.0/24", AdoptOutcome::Adopted(ip("10.8.0.100")), true, 0),
        AfterAttempt::RollBackAndStop
    );
    assert!(l.consider("10.8.0.5", &TextMap::new()).is_some());
    assert_eq!(
        ended(&mut l, "10.8.0.0/24", AdoptOutcome::Nothing, true, 0),
        AfterAttempt::Stop
    );
}

#[test]
fn a_finished_attempt_makes_the_subnet_known() {
    let mut l = fresh();
    assert_eq!(
        ended(&mut l, "10.8.0.0/24", AdoptOutcome::Adopted(ip("10.8.0.100")), false, 0),
        AfterAttempt::Recorded(ip("10.8.0.100"))
    );
    assert!(l.consider("10.8.0.5", &TextMap::new()).is_none());
    assert_eq!(
        ended(&mut l, "10.7.0.0/24", AdoptOutcome::Nothing, false, 0),
        AfterAttempt::GoOn
    );
    assert!(l.consider("10.7.0.5", &TextMap::new()).is_none());
}

#[test]
fn a_pruned_subnet_starts_over() {
    let mut d = DwellTracker::new();
    assert_eq!(d.check("s", "m", "1"), DwellVerdict::Started);
    assert_eq!(d.check("s", "m", "2"), DwellVerdict::Mature);
    assert_eq!(d.check("t", "m", "1"), DwellVerdict::Started);
    d.prune_subnet("s");
    assert_eq!(d.check("s", "m", "3"), DwellVerdict::Started);
    assert_eq!(d.check("t", "m", "2"), DwellVerdict::Mature);
}

// ── frames and the neighbor table ───────────────────────────────────

fn arp_blob(mac: [u8; 6], addr: [u8; 4]) -> Vec<u8> {
    let mut b = vec![0u8; 40 + 42];
    b[14] = 1; // packet type: Ethernet
    b[12] = 1; // direction
    let f = &mut b[40..];
    f[12] = 0x08;
    f[13] = 0x06;
    f[15] = 1;
    f[16] = 0x08;
    f[18] = 6;
    f[19] = 4;
    f[21] = 1;
    f[22..28].copy_from_slice(&mac);
    f[28..32].copy_from_slice(&addr);
    b
}

fn desc(missed: u32) -> StreamDataDescriptor {
    StreamDataDescriptor {
        data_size: 82,
        metadata_offset: 0,
        packet_offset: 40,
        packet_length: 42,
        missed_packet_write_count: missed,
        missed_packet_read_count: 0,
    }
}

#[test]
fn the_host_never_lists_itself() {
    let own = [0x00, 0x11, 0x22, 0x33, 0x44, 0x55];
    let peer = [0x66, 0x77, 0x88, 0x99, 0xaa, 0xbb];
    let mut c = ArpCapture::new(Some(own), vec![Ipv4Network::parse("10.5.0.0/16").unwrap()]);
    let mut n = ArpCounters::new();
    let local = vec![ip("192.168.1.204")];
    let mut see = |mac, addr, t| {
        c.on_packet(&desc(0), &arp_blob(mac, addr), &local, false, at(t), &mut n)
    };
    assert_eq!(
        see(peer, [192, 168, 1, 202], 0),
        Some((ip("192.168.1.202"), peer))
    );
    // The same frame again within two seconds is a duplicate.
    assert_eq!(see(peer, [192, 168, 1, 202], 1), None);
    assert_eq!(
        see(peer, [192, 168, 1, 202], 5),
        Some((ip("192.168.1.202"), peer))
    );
    assert_eq!(see(peer, [192, 168, 1, 204], 9), None);
    assert_eq!(see(own, [192, 168, 1, 9], 9), None);
    assert_eq!(see(peer, [10, 5, 3, 9], 9), None);
    assert_eq!(tasks_dropped(&n), 0);
}

#[test]
fn a_heard_device_is_listed_and_refreshed() {
    let mut devices: TextMap<ArpDevice> = TextMap::new();
    let mut registry = DeviceRegistry::new();
    let mut n = ArpCounters::new();
    let mac = [0x66, 0x77, 0x88, 0x99, 0xaa, 0xbb];
    let first = on_arp_seen(ip("10.0.0.5"), &mac, "t1", &mut devices, &mut registry, &mut n);
    assert!(first.is_new && first.merge.changed);
    assert_eq!(first.device.mac, "66:77:88:99:aa:bb");
    assert_eq!(first.device.subnet, "10.0.0.0/24");
    let again = on_arp_seen(ip("10.0.0.5"), &mac, "t2", &mut devices, &mut registry, &mut n);
    assert!(!again.is_new);
    let kept = devices.get("66:77:88:99:aa:bb").unwrap();
    assert_eq!(kept.first_seen, "t1");
    assert_eq!(kept.last_seen, "t2");
    assert_eq!(registry.snapshot().len(), 1);
}

#[test]
fn the_table_adds_only_new_peers_on_the_wire() {
    let mut devices: TextMap<ArpDevice> = TextMap::new();
    let mut registry = DeviceRegistry::new();
    let excluded = vec![Ipv4Network::parse("10.5.0.0/16").unwrap()];
    let local = vec![ip("192.168.1.204")];
    let entries = vec![
        (ip("192.168.1.202"), "m1".to_string()),
        (ip("192.168.1.204"), "m2".to_string()),
        (ip("10.5.1.1"), "m3".to_string()),
        (ip("192.168.1.203"), "m1".to_string()),
    ];
    let found = merge_arp_table(&entries, &mut devices, &mut registry, &excluded, &local, "t");
    assert_eq!(found.len(), 1);
    assert_eq!(found[0].device.ip, "192.168.1.202");
    assert!(any_changed(&found));
    assert_eq!(registry.snapshot().len(), 1);
    let again = merge_arp_table(&entries, &mut devices, &mut registry, &excluded, &local, "t");
    assert!(again.is_empty());
    assert!(!any_changed(&again));
}

#[test]
fn a_session_that_is_over_merges_nothing() {
    let mut devices: TextMap<ArpDevice> = TextMap::new();
    let mut registry = DeviceRegistry::new();
    let entries = vec![(ip("192.168.1.202"), "m1".to_string())];
    let mut state = DiscoveryState::new();
    let fence = state.start(at(0));
    state.stop();
    let mut merge = |state: &DiscoveryState, devices: &mut TextMap<ArpDevice>| {
        let (none, local) = (vec![], vec![]);
        merge_session_table(
            state, &fence, &entries, devices, &mut registry, &none, &local, "t",
        )
        .len()
    };
    assert_eq!(merge(&state, &mut devices), 0);
    assert!(devices.is_empty());
    let _ = state.start(at(1));
    assert_eq!(merge(&state, &mut devices), 0);
    state.generation = 1;
    assert_eq!(merge(&state, &mut devices), 1);
    assert!(devices.contains_key("m1"));
    assert_eq!(registry.len(), 1);
}
