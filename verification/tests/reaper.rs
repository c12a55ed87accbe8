//! The lifecycle of adoptions.

use pocketstream_network::net::Ipv4Addr;
use pocketstream_network::reaper::{
    lifecycle_verdict, parse_subnet_key, LifecycleInput, ReapVerdict,
};
use pocketstream_network::time::Duration;


const MIN: u64 = 60;
const HOUR: u64 = 3600;

fn apipa_input() -> LifecycleInput {
    LifecycleInput {
        subnet: parse_subnet_key("169.254.168.0/24"),
        last_positive_elapsed: None,
        session_elapsed: Duration::from_secs(0),
        pinned: false,
        host_rescued: false,
        badge_age: None,
    }
}

fn foreign_input() -> LifecycleInput {
    LifecycleInput {
        subnet: parse_subnet_key("172.31.169.0/24"),
        ..apipa_input()
    }
}

// ── key parsing ──────────────────────────────────────────────────

#[test]
fn parse_subnet_key_accepts_the_canonical_shape() {
    assert_eq!(
        parse_subnet_key("169.254.168.0/24"),
        Some(Ipv4Addr::new(169, 254, 168, 0))
    );
}

#[test]
fn parse_subnet_key_rejects_other_shapes() {
    assert_eq!(parse_subnet_key("169.254.0.0/16"), None);
    assert_eq!(parse_subnet_key("169.254.168.0"), None);
    assert_eq!(parse_subnet_key("not-a-subnet/24"), None);
    assert_eq!(parse_subnet_key(""), None);
}

// ── containment: only parsed APIPA can reap ──────────────────────

#[test]
fn non_apipa_never_reaps_even_with_every_flag_favoring_removal() {
    let input = LifecycleInput {
        last_positive_elapsed: None,
        session_elapsed: Duration::from_secs(100 * HOUR),
        badge_age: Some(Duration::from_secs(100 * HOUR)),
        ..foreign_input()
    };
    assert_eq!(lifecycle_verdict(&input), ReapVerdict::StaleOnly);
}

#[test]
fn unparseable_key_is_always_kept() {
    let input = LifecycleInput {
        subnet: None,
        session_elapsed: Duration::from_secs(100 * HOUR),
        badge_age: Some(Duration::from_secs(100 * HOUR)),
        ..apipa_input()
    };
    assert_eq!(lifecycle_verdict(&input), ReapVerdict::Keep);
}

// ── non-APIPA badge ──────────────────────────────────────────────

#[test]
fn non_apipa_badges_at_24_hours_and_not_before() {
    let fresh = LifecycleInput {
        badge_age: Some(Duration::from_secs(23 * HOUR)),
        ..foreign_input()
    };
    assert_eq!(lifecycle_verdict(&fresh), ReapVerdict::Keep);

    let stale = LifecycleInput {
        badge_age: Some(Duration::from_secs(24 * HOUR)),
        ..foreign_input()
    };
    assert_eq!(lifecycle_verdict(&stale), ReapVerdict::StaleOnly);

    // No badge age at all (freshly recorded metadata): keep.
    assert_eq!(lifecycle_verdict(&foreign_input()), ReapVerdict::Keep);
}

// ── APIPA TTL after a sighting ───────────────────────────────────

#[test]
fn apipa_recently_sighted_is_kept() {
    let input = LifecycleInput {
        last_positive_elapsed: Some(Duration::from_secs(29 * MIN)),
        session_elapsed: Duration::from_secs(10 * HOUR),
        ..apipa_input()
    };
    assert_eq!(lifecycle_verdict(&input), ReapVerdict::Keep);
}

#[test]
fn apipa_reaps_thirty_minutes_after_its_last_sighting() {
    let input = LifecycleInput {
        last_positive_elapsed: Some(Duration::from_secs(30 * MIN)),
        session_elapsed: Duration::from_secs(10 * HOUR),
        ..apipa_input()
    };
    assert_eq!(lifecycle_verdict(&input), ReapVerdict::Reap);
}

#[test]
fn a_sighting_outranks_the_startup_grace() {
    // Sighted once, recently — kept even though the session is far
    // past the grace window.
    let input = LifecycleInput {
        last_positive_elapsed: Some(Duration::from_secs(MIN)),
        session_elapsed: Duration::from_secs(10 * HOUR),
        ..apipa_input()
    };
    assert_eq!(lifecycle_verdict(&input), ReapVerdict::Keep);
}

// ── APIPA startup grace (never sighted this session) ─────────────

#[test]
fn apipa_never_sighted_survives_the_grace_window() {
    let input = LifecycleInput {
        session_elapsed: Duration::from_secs(9 * MIN),
        ..apipa_input()
    };
    assert_eq!(lifecycle_verdict(&input), ReapVerdict::Keep);
}

#[test]
fn apipa_never_sighted_reaps_after_the_grace_window() {
    let input = LifecycleInput {
        session_elapsed: Duration::from_secs(10 * MIN),
        ..apipa_input()
    };
    assert_eq!(lifecycle_verdict(&input), ReapVerdict::Reap);
}

// ── vetoes downgrade to a badge ──────────────────────────────────

#[test]
fn pinned_apipa_badges_instead_of_reaping() {
    let input = LifecycleInput {
        session_elapsed: Duration::from_secs(HOUR),
        pinned: true,
        ..apipa_input()
    };
    assert_eq!(lifecycle_verdict(&input), ReapVerdict::StaleOnly);
}

#[test]
fn rescued_host_holds_every_apipa_reap() {
    let input = LifecycleInput {
        session_elapsed: Duration::from_secs(HOUR),
        host_rescued: true,
        ..apipa_input()
    };
    assert_eq!(lifecycle_verdict(&input), ReapVerdict::StaleOnly);
}

#[test]
fn vetoes_do_not_mask_a_healthy_subnet() {
    // Pinned + within TTL is plain Keep, not a badge.
    let input = LifecycleInput {
        last_positive_elapsed: Some(Duration::from_secs(MIN)),
        session_elapsed: Duration::from_secs(HOUR),
        pinned: true,
        ..apipa_input()
    };
    assert_eq!(lifecycle_verdict(&input), ReapVerdict::Keep);
}

// ── wall clock can never remove ──────────────────────────────────

#[test]
fn badge_age_is_irrelevant_to_the_apipa_reap_decision() {
    // Ancient wall timestamps with a fresh session sighting: kept.
    // Wall time is display-only; only monotonic session evidence
    // may remove.
    let input = LifecycleInput {
        last_positive_elapsed: Some(Duration::from_secs(MIN)),
        session_elapsed: Duration::from_secs(10 * HOUR),
        badge_age: Some(Duration::from_secs(1000 * HOUR)),
        ..apipa_input()
    };
    assert_eq!(lifecycle_verdict(&input), ReapVerdict::Keep);
}

#[test]
fn only_network_addresses_are_keys() {
    assert_eq!(parse_subnet_key("10.0.0.5/24"), None);
    assert_eq!(parse_subnet_key("10.0.0.0/24"), Some(Ipv4Addr::new(10, 0, 0, 0)));
    assert_eq!(parse_subnet_key("10.0.0.00/24"), None);
    assert_eq!(parse_subnet_key("/24"), None);
}
