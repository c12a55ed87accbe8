//! What keeps an adoption alive, and what is written of it.

use pocketstream_network::config::AdoptedMeta;
use pocketstream_network::interface;
use pocketstream_network::interface::IpInfo;
use pocketstream_network::lifecycle::{
    adoption_meta_view, badge_age, host_in_apipa_rescue, merge_adopted_config,
    meta_dirty_flush_due, record_positive_liveness, select_wired_source, unbind_guard_blocks,
    MetaFlush, SweepFence,
};
use pocketstream_network::net::{subnet_key_for, Ipv4Addr};
use pocketstream_network::session::ActiveScans;
use pocketstream_network::textmap::TextMap;
use pocketstream_network::time::{Duration, Instant};
use pocketstream_network::wall::{age_since, WallTime};



// ── wired source selection for MAC verification ───────────────

fn ip(s: &str) -> Ipv4Addr {
    Ipv4Addr::parse(s).unwrap()
}

fn ip_info(address: &str, prefix: u8) -> IpInfo {
    interface::ip_info(address, prefix).unwrap()
}

fn adopted(entries: &[(&str, &str)]) -> TextMap<Ipv4Addr> {
    let mut r = TextMap::new();
    for (subnet, addr) in entries {
        r.insert(subnet.to_string(), ip(addr));
    }
    r
}

#[test]
fn wired_source_prefers_adopted_ip_for_its_subnet() {
    let adopted = adopted(&[("172.31.169.0/24", "172.31.169.102")]);
    let native = vec![ip_info("192.168.1.101", 24)];
    assert_eq!(
        select_wired_source(ip("172.31.169.50"), &adopted, &native),
        Some(ip("172.31.169.102"))
    );
}

#[test]
fn wired_source_adopted_beats_native_on_same_subnet() {
    // Both the adopted binding and a native IP contain the target —
    // the adopted binding wins (it was created to reach devices
    // there).
    let adopted = adopted(&[("192.168.1.0/24", "192.168.1.55")]);
    let native = vec![ip_info("192.168.1.101", 24)];
    assert_eq!(
        select_wired_source(ip("192.168.1.202"), &adopted, &native),
        Some(ip("192.168.1.55"))
    );
}

#[test]
fn wired_source_uses_native_iface_ip() {
    let native = vec![ip_info("192.168.1.101", 24)];
    assert_eq!(
        select_wired_source(ip("192.168.1.202"), &TextMap::new(), &native),
        Some(ip("192.168.1.101"))
    );
}

#[test]
fn wired_source_none_when_no_subnet_matches() {
    // A foreign-subnet target with no wired identity: verification
    // must fail rather than fall back to an unbound probe.
    let adopted = adopted(&[("172.31.169.0/24", "172.31.169.102")]);
    let native = vec![ip_info("192.168.1.101", 24)];
    assert_eq!(select_wired_source(ip("10.0.0.7"), &adopted, &native), None);
}

#[test]
fn wired_source_skips_malformed_adopted_keys() {
    let adopted = adopted(&[("not-a-subnet", "172.31.169.102")]);
    let native = vec![ip_info("192.168.1.101", 24)];
    assert_eq!(
        select_wired_source(ip("192.168.1.202"), &adopted, &native),
        Some(ip("192.168.1.101"))
    );
}

#[test]
fn wired_source_respects_non_24_prefixes() {
    let native = vec![ip_info("10.10.0.5", 16)];
    assert_eq!(
        select_wired_source(ip("10.10.200.9"), &TextMap::new(), &native),
        Some(ip("10.10.0.5"))
    );
    assert_eq!(
        select_wired_source(ip("10.11.0.9"), &TextMap::new(), &native),
        None
    );
}

#[test]
fn fence_fresh_session_is_not_stale() {
    assert!(!SweepFence::new(1).is_stale(1, true));
}

#[test]
fn fence_superseded_generation_is_stale() {
    // A newer start advanced the generation past this work's capture.
    assert!(SweepFence::new(1).is_stale(2, true));
}

#[test]
fn fence_inactive_discovery_is_stale() {
    // A stop with no restart clears `active` without moving the
    // generation (Static Auto -> Manual) — must still read as stale.
    assert!(SweepFence::new(1).is_stale(1, false));
}

#[test]
fn subnet_key_matches_adoption_key_derivation() {
    assert_eq!(
        subnet_key_for(Ipv4Addr::new(169, 254, 168, 7)),
        "169.254.168.0/24"
    );
    assert_eq!(subnet_key_for(Ipv4Addr::new(10, 0, 0, 255)), "10.0.0.0/24");
}

#[test]
fn positive_liveness_refreshes_only_adopted_subnets() {
    let mut adopted = TextMap::new();
    adopted.insert(
        "169.254.168.0/24".to_string(),
        Ipv4Addr::new(169, 254, 168, 102),
    );
    let mut liveness: TextMap<Instant> = TextMap::new();
    let mut meta: TextMap<AdoptedMeta> = TextMap::new();
    let t0 = Instant { nanos: 5 };

    // Evidence from a device on the adopted subnet lands: session
    // clock refreshed, display metadata stamped.
    assert!(record_positive_liveness(
        Ipv4Addr::new(169, 254, 168, 7),
        &adopted,
        &mut liveness,
        &mut meta,
        t0,
        "2026-07-16T12:00:00+00:00",
    ));
    assert_eq!(liveness.get("169.254.168.0/24"), Some(&t0));
    assert_eq!(
        meta.get("169.254.168.0/24").unwrap().last_device_seen.as_deref(),
        Some("2026-07-16T12:00:00+00:00")
    );

    // Evidence from a non-adopted subnet touches nothing.
    assert!(!record_positive_liveness(
        Ipv4Addr::new(192, 168, 1, 50),
        &adopted,
        &mut liveness,
        &mut meta,
        t0,
        "2026-07-16T12:00:01+00:00",
    ));
    assert_eq!(liveness.len(), 1);
    assert_eq!(meta.len(), 1);

    // A later sighting advances both stamps.
    let t1 = t0.after(Duration::from_secs(60));
    record_positive_liveness(
        Ipv4Addr::new(169, 254, 168, 9),
        &adopted,
        &mut liveness,
        &mut meta,
        t1,
        "2026-07-16T12:01:00+00:00",
    );
    assert_eq!(liveness.get("169.254.168.0/24"), Some(&t1));
    assert_eq!(
        meta.get("169.254.168.0/24").unwrap().last_device_seen.as_deref(),
        Some("2026-07-16T12:01:00+00:00")
    );
}

#[test]
fn meta_flush_cadence_coalesces_writes() {
    let t0 = Instant { nanos: 5 };
    let mut state = MetaFlush {
        dirty: false,
        last_flush: t0,
    };
    // Stamps inside the interval mark dirty but never flush.
    assert!(!meta_dirty_flush_due(&mut state, t0));
    assert!(!meta_dirty_flush_due(
        &mut state,
        t0.after(Duration::from_secs(299))
    ));
    assert!(state.dirty);
    // The first stamp past the interval flushes and resets both the
    // dirt and the cadence.
    assert!(meta_dirty_flush_due(
        &mut state,
        t0.after(Duration::from_secs(300))
    ));
    assert!(!state.dirty);
    // …so the next stamp starts a fresh interval.
    assert!(!meta_dirty_flush_due(
        &mut state,
        t0.after(Duration::from_secs(301))
    ));
    assert!(state.dirty);
}

#[test]
fn badge_age_prefers_last_seen_and_tolerates_bad_stamps() {
    let now = chrono::DateTime::parse_from_rfc3339("2026-07-16T12:00:00+00:00").unwrap();
    let now = WallTime::new(now.timestamp(), now.timestamp_subsec_nanos()).unwrap();
    let seen = AdoptedMeta {
        adopted_at: Some("2026-07-10T12:00:00+00:00".into()),
        last_device_seen: Some("2026-07-16T11:00:00+00:00".into()),
    };
    assert_eq!(
        badge_age(Some(&seen), now),
        Some(Duration::from_secs(3600))
    );

    // Never seen: the adoption time itself anchors the badge.
    let never = AdoptedMeta {
        adopted_at: Some("2026-07-16T10:00:00+00:00".into()),
        last_device_seen: None,
    };
    assert_eq!(
        badge_age(Some(&never), now),
        Some(Duration::from_secs(7200))
    );

    // Nothing recorded, unparseable, or future stamps: no age —
    // skew and corruption may only mislabel toward "not stale".
    assert_eq!(badge_age(None, now), None);
    let garbage = AdoptedMeta {
        adopted_at: Some("yesterday-ish".into()),
        last_device_seen: None,
    };
    assert_eq!(badge_age(Some(&garbage), now), None);
    let future = AdoptedMeta {
        adopted_at: Some("2026-07-17T00:00:00+00:00".into()),
        last_device_seen: None,
    };
    assert_eq!(badge_age(Some(&future), now), None);
}

#[test]
fn meta_view_staleness_follows_the_lifecycle_policy() {
    let min = |m: u64| Duration::from_secs(m * 60);
    let hour = |h: u64| Duration::from_secs(h * 3600);

    // APIPA, never sighted: stale only past the startup grace.
    let v = adoption_meta_view("169.254.168.0/24", None, None, min(11), None);
    assert!(v.stale);
    let v = adoption_meta_view("169.254.168.0/24", None, None, min(9), None);
    assert!(!v.stale);

    // APIPA sighted recently is healthy however old the session.
    let v = adoption_meta_view("169.254.168.0/24", None, Some(min(1)), hour(10), None);
    assert!(!v.stale);

    // Non-APIPA badges on the 24 h wall age only.
    let v = adoption_meta_view("172.31.169.0/24", None, None, hour(10), Some(hour(25)));
    assert!(v.stale);
    let v = adoption_meta_view("172.31.169.0/24", None, None, hour(10), Some(hour(23)));
    assert!(!v.stale);

    // The stored stamps ride through to the view unchanged.
    let meta = AdoptedMeta {
        adopted_at: Some("2026-07-01T00:00:00+00:00".into()),
        last_device_seen: Some("2026-07-15T00:00:00+00:00".into()),
    };
    let v = adoption_meta_view("172.31.169.0/24", Some(&meta), None, min(1), None);
    assert_eq!(v.adopted_at.as_deref(), Some("2026-07-01T00:00:00+00:00"));
    assert_eq!(
        v.last_device_seen.as_deref(),
        Some("2026-07-15T00:00:00+00:00")
    );
}

#[test]
fn rescue_state_ignores_apipa_adopted_and_pending_addresses() {
    let apipa_native = Ipv4Addr::new(169, 254, 7, 20);
    let adopted_foreign = Ipv4Addr::new(172, 31, 169, 102);
    let pending_scratch = Ipv4Addr::new(10, 0, 0, 254);
    let real_lease = Ipv4Addr::new(192, 168, 12, 64);
    let adopted = vec![adopted_foreign];
    let pending = vec![pending_scratch];

    // Only APIPA + adopted + pending addresses on the adapter: the
    // host is rescued. The adopted non-APIPA secondary deliberately
    // does not count as native connectivity.
    assert!(host_in_apipa_rescue(
        &vec![apipa_native, adopted_foreign, pending_scratch],
        &adopted,
        &pending,
    ));

    // A real (native, non-APIPA) address ends the rescue state.
    assert!(!host_in_apipa_rescue(
        &vec![apipa_native, adopted_foreign, real_lease],
        &adopted,
        &pending,
    ));

    // No addresses at all is rescue too — nothing native to rely on.
    assert!(host_in_apipa_rescue(&vec![], &adopted, &pending));
}

#[test]
fn unbind_guards_block_primary_and_last_address_only() {
    let ips = vec![
        "192.168.12.64".to_string(),
        "169.254.168.102".to_string(),
        "172.31.169.102".to_string(),
    ];
    // A secondary among several: no block.
    assert_eq!(unbind_guard_blocks("169.254.168.102", &ips), None);
    // The primary (first) address is always blocked.
    assert!(unbind_guard_blocks("192.168.12.64", &ips).is_some());
    // The adapter's only address is blocked.
    let sole = vec!["169.254.168.102".to_string()];
    assert!(unbind_guard_blocks("169.254.168.102", &sole).is_some());
    // An address the adapter no longer holds: nothing to guard.
    assert_eq!(unbind_guard_blocks("169.254.43.102", &ips), None);
}

#[test]
fn merge_keeps_pending_restore_entries() {
    // A transiently-failed restore held in
    // pending_restore survives a persist derived from the live map.
    let mut live = TextMap::new();
    live.insert("10.0.0.0/24".to_string(), Ipv4Addr::new(10, 0, 0, 100));
    let mut pending = TextMap::new();
    pending.insert("10.9.0.0/24".to_string(), Ipv4Addr::new(10, 9, 0, 100));
    let out = merge_adopted_config(&live, &pending);
    assert_eq!(
        out.get("10.0.0.0/24").map(String::as_str),
        Some("10.0.0.100")
    );
    assert_eq!(
        out.get("10.9.0.0/24").map(String::as_str),
        Some("10.9.0.100")
    );
    assert_eq!(out.len(), 2);
}

#[test]
fn merge_live_wins_on_conflict() {
    // If a subnet is both live and pending (shouldn't normally persist,
    // but be safe), the confirmed live binding wins.
    let mut live = TextMap::new();
    live.insert("10.0.0.0/24".to_string(), Ipv4Addr::new(10, 0, 0, 100));
    let mut pending = TextMap::new();
    pending.insert("10.0.0.0/24".to_string(), Ipv4Addr::new(10, 0, 0, 200));
    let out = merge_adopted_config(&live, &pending);
    assert_eq!(
        out.get("10.0.0.0/24").map(String::as_str),
        Some("10.0.0.100")
    );
    assert_eq!(out.len(), 1);
}

#[test]
fn scan_guard_removes_subnet_on_drop() {
    let mut active = ActiveScans::new();
    assert!(active.begin("10.0.0.0/24").is_ok());
    assert!(active.contains("10.0.0.0/24"));
    active.finish("10.0.0.0/24");
    assert!(!active.contains("10.0.0.0/24"));
}

#[test]
fn a_second_scan_of_a_subnet_is_refused() {
    let mut active = ActiveScans::new();
    assert!(active.begin("10.0.0.0/24").is_ok());
    assert_eq!(
        active.begin("10.0.0.0/24").unwrap_err().message(),
        "Scan already in progress for 10.0.0.0/24"
    );
    assert!(active.begin("10.0.1.0/24").is_ok());
    active.finish("10.0.0.0/24");
    assert!(active.begin("10.0.0.0/24").is_ok());
}

#[test]
fn unbind_guards_say_why() {
    let ips = vec!["192.168.12.64".to_string(), "169.254.168.102".to_string()];
    assert_eq!(
        unbind_guard_blocks("192.168.12.64", &ips),
        Some("is the adapter's primary IP")
    );
    assert_eq!(
        unbind_guard_blocks("169.254.168.102", &vec!["169.254.168.102".to_string()]),
        Some("is the adapter's primary IP")
    );
}

#[test]
fn age_counts_from_the_stamp_and_never_backwards() {
    let now = WallTime::new(1_000, 500).unwrap();
    assert_eq!(age_since(&now, 999, 500), Some(Duration::from_secs(1)));
    assert_eq!(age_since(&now, 1_000, 400).unwrap().nanos, 100);
    assert_eq!(age_since(&now, 1_001, 0), None);
    assert!(WallTime::new(0, 2_000_000_000).is_none());
}
