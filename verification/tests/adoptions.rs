//! The state of all adoptions, and their restore.

use pocketstream_network::adoptions::{load_adopted_from_config, Adoptions, UnbindGuard};
use pocketstream_network::config::AdoptedMeta;
use pocketstream_network::interface::IpInfo;
use pocketstream_network::lifecycle::MetaFlush;
use pocketstream_network::net::{Ipv4Addr, Ipv4Network};
use pocketstream_network::textmap::TextMap;
use pocketstream_network::time::{Duration, Instant};
use pocketstream_network::wall::WallTime;

const WALL: &str = "2026-07-16T12:00:00+00:00";

fn ip(s: &str) -> Ipv4Addr {
    Ipv4Addr::parse(s).unwrap()
}

fn at(secs: u64) -> Instant {
    Instant { nanos: 0 }.after(Duration::from_secs(secs))
}

fn strings(list: &[&str]) -> Vec<String> {
    list.iter().map(|s| s.to_string()).collect()
}

fn two() -> Adoptions {
    let mut a = Adoptions::new();
    a.record_adoption("169.254.168.0/24", ip("169.254.168.102"), at(0), WALL);
    a.record_adoption("172.31.169.0/24", ip("172.31.169.102"), at(0), WALL);
    a
}

#[test]
fn a_new_adoption_is_stamped_and_written() {
    let a = two();
    let meta = a.meta.get("169.254.168.0/24").unwrap();
    assert_eq!(meta.adopted_at.as_deref(), Some(WALL));
    assert_eq!(meta.last_device_seen.as_deref(), Some(WALL));
    let saved = a.adopted_config_snapshot();
    assert_eq!(saved.len(), 2);
    assert_eq!(saved.get("172.31.169.0/24").unwrap(), "172.31.169.102");
}

#[test]
fn the_snapshot_shows_what_is_stale() {
    let a = two();
    // Half an hour after the last sighting, and a day after the stamps.
    let wall = WallTime::new(1_784_203_200 + 86_400, 0).unwrap();
    let s = a.adoption_snapshot(Duration::from_secs(3_600), at(1_800), wall);
    assert_eq!(
        s.adopted_subnets.get("169.254.168.0/24").unwrap(),
        "169.254.168.102"
    );
    assert!(s.meta.get("169.254.168.0/24").unwrap().stale);
    assert!(s.meta.get("172.31.169.0/24").unwrap().stale);
    let earlier = WallTime::new(1_784_203_200 + 86_399, 0).unwrap();
    let s = a.adoption_snapshot(Duration::from_secs(3_600), at(1_799), earlier);
    assert!(!s.meta.get("169.254.168.0/24").unwrap().stale);
    assert!(!s.meta.get("172.31.169.0/24").unwrap().stale);
    assert_eq!(
        s.meta.get("172.31.169.0/24").unwrap().adopted_at.as_deref(),
        Some(WALL)
    );
}

#[test]
fn evidence_is_recorded_and_written_now_and_then() {
    let mut a = two();
    let mut flush = MetaFlush {
        dirty: false,
        last_flush: at(0),
    };
    assert!(!a.note_positive_liveness(ip("10.0.0.1"), at(400), "w", &mut flush));
    assert!(!flush.dirty);
    assert!(!a.note_positive_liveness(ip("169.254.168.7"), at(299), "w", &mut flush));
    assert!(flush.dirty);
    assert!(a.note_positive_liveness(ip("169.254.168.7"), at(300), "x", &mut flush));
    assert_eq!(a.liveness.get("169.254.168.0/24"), Some(&at(300)));
    assert_eq!(
        a.meta.get("169.254.168.0/24").unwrap().last_device_seen.as_deref(),
        Some("x")
    );
}

#[test]
fn an_address_that_the_user_claims_is_no_adoption() {
    let mut a = two();
    assert!(!a.untrack_adopted_ip("10.0.0.1"));
    assert!(a.untrack_adopted_ip("172.31.169.102"));
    assert!(!a.adopted.contains_key("172.31.169.0/24"));
    assert!(!a.meta.contains_key("172.31.169.0/24"));
    assert!(a.adopted.contains_key("169.254.168.0/24"));
}

#[test]
fn a_removed_subnet_leaves_no_trace() {
    let mut a = two();
    assert_eq!(
        a.removal_target(None, "172.31.169.0/24").unwrap_err().message(),
        "No interface configured"
    );
    assert_eq!(
        a.removal_target(Some("Ethernet"), "10.0.0.0/24").unwrap_err().message(),
        "Subnet 10.0.0.0/24 not adopted"
    );
    assert_eq!(
        a.removal_target(Some("Ethernet"), "172.31.169.0/24").unwrap(),
        ip("172.31.169.102")
    );
    a.note_restored("172.31.169.0/24", ip("172.31.169.102"), false);
    a.remove_adopted_subnet("172.31.169.0/24");
    assert_eq!(a.adopted_config_snapshot().len(), 1);
}

#[test]
fn a_failed_restore_is_still_written() {
    let mut a = Adoptions::new();
    a.meta.insert(
        "10.0.0.0/24".into(),
        AdoptedMeta {
            adopted_at: Some(WALL.into()),
            last_device_seen: None,
        },
    );
    assert!(a.note_restored("10.9.0.0/24", ip("10.9.0.100"), false).is_none());
    let m = a.note_restored("10.0.0.0/24", ip("10.0.0.100"), true).unwrap();
    assert_eq!(m.adopted_at.as_deref(), Some(WALL));
    assert!(a.note_restored("10.1.0.0/24", ip("10.1.0.100"), true).unwrap().adopted_at.is_none());
    assert!(!a.adopted.contains_key("10.9.0.0/24"));
    let saved = a.adopted_config_snapshot();
    assert_eq!(saved.get("10.9.0.0/24").unwrap(), "10.9.0.100");
    assert_eq!(saved.len(), 3);
}

#[test]
fn the_end_leaves_the_adapter_an_address() {
    let a = two();
    let t = a.cleanup_targets(&strings(&["192.168.1.10", "169.254.168.102", "172.31.169.102"]));
    assert_eq!(t.len(), 2);
    let t = a.cleanup_targets(&strings(&["169.254.168.102", "172.31.169.102"]));
    assert_eq!(t.len(), 1);
    assert_eq!(t[0].0, "172.31.169.0/24");
    let t = a.cleanup_targets(&strings(&["169.254.168.102", "169.254.168.102"]));
    assert_eq!(t.len(), 1);
    // An address that is not on the adapter any more may be unbound.
    assert_eq!(a.cleanup_targets(&vec![]).len(), 2);
}

#[test]
fn tracking_of_given_subnets_is_forgotten() {
    let mut a = two();
    a.forget_adoption_tracking(&strings(&["172.31.169.0/24", "10.0.0.0/24"]));
    assert!(!a.liveness.contains_key("172.31.169.0/24"));
    assert!(a.liveness.contains_key("169.254.168.0/24"));
    assert_eq!(a.meta.len(), 1);
    assert_eq!(a.adopted.len(), 2);
}

// ── restore ─────────────────────────────────────────────────────────

fn addr(s: &str) -> IpInfo {
    IpInfo {
        address: s.into(),
        prefix: 24,
        subnet: String::new(),
    }
}

fn settings(list: &[(&str, &str)]) -> TextMap<String> {
    let mut m = TextMap::new();
    for (k, v) in list {
        m.insert(k.to_string(), v.to_string());
    }
    m
}

#[test]
fn the_restore_keeps_foreign_adoptions_alone() {
    let saved = settings(&[
        ("192.168.1.0/24", "192.168.1.77"),
        ("10.13.248.0/24", "10.13.248.102"),
        ("172.28.5.0/24", "172.28.5.42"),
        ("10.5.0.0/24", "nonsense"),
        ("10.6.0.0/24", "10.6.0.100"),
    ]);
    let mut meta: TextMap<AdoptedMeta> = TextMap::new();
    for k in ["192.168.1.0/24", "10.13.248.0/24"] {
        meta.insert(
            k.into(),
            AdoptedMeta {
                adopted_at: Some(WALL.into()),
                last_device_seen: None,
            },
        );
    }
    let ips = vec![
        addr("192.168.1.10"),
        addr("10.13.248.102"),
        addr("172.28.5.42"),
    ];
    let ghosts = vec![Ipv4Network::parse("172.28.0.0/16").unwrap()];
    let plan = load_adopted_from_config(&saved, &meta, &ips, &ghosts);
    assert!(plan.pruned);
    let kept: Vec<(&str, bool)> = plan
        .keep
        .iter()
        .map(|k| (k.subnet.as_str(), k.needs_add))
        .collect();
    assert_eq!(kept, vec![("10.13.248.0/24", false), ("10.6.0.0/24", true)]);
    assert_eq!(plan.leftovers.len(), 1);
    assert_eq!(plan.leftovers[0].ip, "172.28.5.42");
    assert_eq!(plan.leftovers[0].guard, UnbindGuard::Clear);
    assert_eq!(plan.meta.len(), 1);
    assert!(plan.meta.contains_key("10.13.248.0/24"));
}

#[test]
fn an_adopted_address_does_not_make_its_subnet_native() {
    let saved = settings(&[("10.13.248.0/24", "10.13.248.102")]);
    let plan = load_adopted_from_config(
        &saved,
        &TextMap::new(),
        &vec![addr("10.13.248.102")],
        &vec![],
    );
    assert!(!plan.pruned);
    assert_eq!(plan.keep.len(), 1);
    // The same address, claimed by nobody, does.
    let plan = load_adopted_from_config(
        &saved,
        &TextMap::new(),
        &vec![addr("10.13.248.103")],
        &vec![],
    );
    assert!(plan.pruned);
    assert!(plan.keep.is_empty());
}

#[test]
fn the_last_address_stays_bound_though_it_is_a_ghost() {
    let saved = settings(&[("172.28.5.0/24", "172.28.5.42")]);
    let ghosts = vec![Ipv4Network::parse("172.28.0.0/16").unwrap()];
    let plan =
        load_adopted_from_config(&saved, &TextMap::new(), &vec![addr("172.28.5.42")], &ghosts);
    assert_eq!(plan.leftovers[0].guard, UnbindGuard::LastAddress);
}
