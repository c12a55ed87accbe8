//! The probe of cached devices on foreign subnets.

use pocketstream_network::cache_probe::{derive_candidates, ProbeCandidate};
use pocketstream_network::config::CachedDevice;
use pocketstream_network::net::{Ipv4Addr, Ipv4Network};
use pocketstream_network::probe_pass::{
    PassReport, ProbeAction, ProbeEvent, ProbePass, CACHE_PROBE_PASS_BUDGET,
};
use pocketstream_network::textmap::TextSet;
use pocketstream_network::time::{Duration, Instant};


fn record(mac: &str, ip: &str, stored_subnet: &str) -> CachedDevice {
    CachedDevice {
        mac: mac.into(),
        ip: ip.into(),
        subnet: stored_subnet.into(),
        open_ports: vec![80],
        alias: String::new(),
        last_seen: "2026-07-17T01:10:18Z".into(),
    }
}

fn sets(entries: &[&str]) -> TextSet {
    let mut r = TextSet::new();
    for s in entries {
        r.insert(s.to_string());
    }
    r
}

// ── candidate derivation ─────────────────────────────────────────

#[test]
fn candidates_require_stored_mac_and_derive_subnet_from_ip() {
    let cached = vec![
        // Stored subnet lies — the canonical subnet must come from
        // the IP's octets.
        record("40-CD-3A-03-28-E2", "172.31.169.64", "10.0.0.0/24"),
        // MAC-less rows (manual nodes never observed) are excluded.
        record("", "172.31.170.5", "172.31.170.0/24"),
        // Broadcast/zero placeholders don't count as identity.
        record("ff:ff:ff:ff:ff:ff", "172.31.171.5", "172.31.171.0/24"),
        // Unparseable IP rows are skipped.
        record("aa:bb:cc:dd:ee:01", "not-an-ip", "172.31.172.0/24"),
    ];
    let none = TextSet::new();
    let out = derive_candidates(&cached, &none, &none, &none, &vec![], &none);
    assert_eq!(out.len(), 1);
    assert_eq!(out[0].subnet, "172.31.169.0/24");
    // Dash-uppercase cached MAC arrives normalized colon-lowercase.
    assert_eq!(
        out[0].pairs,
        vec![(Ipv4Addr::parse("172.31.169.64").unwrap(), "40:cd:3a:03:28:e2".into())]
    );
}

#[test]
fn candidates_exclude_native_adopted_pending_and_attempted() {
    let cached = vec![
        record("aa:bb:cc:dd:ee:01", "192.168.1.20", "192.168.1.0/24"),
        record("aa:bb:cc:dd:ee:02", "172.31.169.64", "172.31.169.0/24"),
        record("aa:bb:cc:dd:ee:03", "172.31.170.64", "172.31.170.0/24"),
        record("aa:bb:cc:dd:ee:04", "172.31.171.64", "172.31.171.0/24"),
        record("aa:bb:cc:dd:ee:05", "172.31.172.64", "172.31.172.0/24"),
    ];
    let out = derive_candidates(
        &cached,
        &sets(&["192.168.1.0/24"]),
        &sets(&["172.31.169.0/24"]),
        &sets(&["172.31.170.0/24"]),
        &vec![],
        &sets(&["172.31.171.0/24"]),
    );
    assert_eq!(out.len(), 1);
    assert_eq!(out[0].subnet, "172.31.172.0/24");
}

#[test]
fn candidates_apply_ghost_screen_but_admit_apipa() {
    let cached = vec![
        // Owned by a non-wired local interface — structurally ghost.
        record("aa:bb:cc:dd:ee:01", "10.5.0.9", "10.5.0.0/24"),
        // APIPA is a primary use case (camera DHCP fallback) — in.
        record("2c:a5:9c:2b:a9:fc", "169.254.73.42", "169.254.73.0/24"),
    ];
    let ghost_nets = vec![Ipv4Network::parse("10.5.0.0/16").unwrap()];
    let none = TextSet::new();
    let out = derive_candidates(&cached, &none, &none, &none, &ghost_nets, &none);
    assert_eq!(out.len(), 1);
    assert_eq!(out[0].subnet, "169.254.73.0/24");
}

#[test]
fn candidates_group_same_subnet_under_one_entry() {
    let cached = vec![
        record("aa:bb:cc:dd:ee:02", "172.31.169.65", "172.31.169.0/24"),
        record("aa:bb:cc:dd:ee:01", "172.31.169.64", "172.31.169.0/24"),
    ];
    let none = TextSet::new();
    let out = derive_candidates(&cached, &none, &none, &none, &vec![], &none);
    assert_eq!(out.len(), 1);
    // IP-ordered, so the pass probes deterministically.
    assert_eq!(out[0].pairs.len(), 2);
    assert!(out[0].pairs[0].0.is_below(&out[0].pairs[1].0));
}

// ── the pass ────────────────────────────────────────────────────────

struct MockProbeIo {
    /// The MAC that a target answers with; a missing target does not answer.
    answers: Vec<(Ipv4Addr, String)>,
    resolve_delay: u64,
    fail_bind: bool,
    /// A stop is signalled once so many events have passed.
    shutdown_at_event: Option<usize>,
    adopt_returns: bool,
    events: Vec<String>,
    bound: Vec<Ipv4Addr>,
    seconds: u64,
}

impl MockProbeIo {
    fn new() -> Self {
        Self {
            answers: Vec::new(),
            resolve_delay: 0,
            fail_bind: false,
            shutdown_at_event: None,
            adopt_returns: true,
            events: Vec::new(),
            bound: Vec::new(),
            seconds: 0,
        }
    }

    fn answer(&mut self, ip: &str, mac: &str) {
        self.answers.push((Ipv4Addr::parse(ip).unwrap(), mac.to_string()));
    }

    fn now(&self) -> Instant {
        Instant { nanos: 0 }.after(Duration::from_secs(self.seconds))
    }

    fn shutdown(&self) -> bool {
        self.shutdown_at_event.is_some_and(|n| self.events.len() >= n)
    }
}

fn run_pass(io: &mut MockProbeIo, candidates: Vec<ProbeCandidate>, budget: u64) -> PassReport {
    let deadline = io.now().after(Duration::from_secs(budget));
    let pass = ProbePass::run_pass(candidates, deadline);
    let (mut pass, mut action) = pass.step(ProbeEvent::Begin, io.shutdown(), io.now());
    loop {
        let event = match action {
            ProbeAction::Bind { subnet, scratch } => {
                io.events.push(format!("bind {} {}", subnet, scratch.text()));
                if !io.fail_bind {
                    io.bound.push(scratch);
                }
                ProbeEvent::Bound(!io.fail_bind)
            }
            ProbeAction::Resolve { target, .. } => {
                io.events.push(format!("resolve {}", target.text()));
                io.seconds += io.resolve_delay;
                let found = io.answers.iter().find(|(ip, _)| *ip == target);
                ProbeEvent::Resolved(match found {
                    Some((_, mac)) if mac == "FLUSH-FAIL" => None,
                    Some((_, mac)) => Some(mac.clone()),
                    None => None,
                })
            }
            ProbeAction::Release { subnet, scratch } => {
                io.events.push(format!("release {} {}", subnet, scratch.text()));
                io.bound.retain(|s| *s != scratch);
                ProbeEvent::Released
            }
            ProbeAction::Adopt { subnet, ip, mac } => {
                assert!(
                    io.bound.is_empty(),
                    "adopt called while a probe scratch is still bound"
                );
                io.events.push(format!("adopt {} {} {}", subnet, ip.text(), mac));
                ProbeEvent::Adopted(io.adopt_returns)
            }
            ProbeAction::Finish => {
                let r = pass.report();
                return PassReport {
                    attempted: r.attempted.clone(),
                    handed_off: r.handed_off.clone(),
                    skipped_at_budget: r.skipped_at_budget.clone(),
                };
            }
        };
        let stop = io.shutdown();
        let now = io.now();
        let (next, work) = pass.step(event, stop, now);
        pass = next;
        action = work;
    }
}

fn candidate(subnet: &str, pairs: &[(&str, &str)]) -> ProbeCandidate {
    ProbeCandidate {
        subnet: subnet.into(),
        pairs: pairs
            .iter()
            .map(|(ip, mac)| (Ipv4Addr::parse(ip).unwrap(), (*mac).to_string()))
            .collect(),
    }
}

#[test]
fn match_releases_scratch_before_adopt_and_skips_remaining_pairs() {
    let mut io = MockProbeIo::new();
    io.answer("172.31.169.64", "40:cd:3a:03:28:e2");
    let c = candidate(
        "172.31.169.0/24",
        &[
            ("172.31.169.64", "40:cd:3a:03:28:e2"),
            ("172.31.169.65", "aa:bb:cc:dd:ee:02"),
        ],
    );
    let report = run_pass(&mut io, vec![c], CACHE_PROBE_PASS_BUDGET);
    assert_eq!(report.handed_off, vec!["172.31.169.0/24"]);
    // First match wins: the second pair is never resolved, the
    // scratch is released before the hand-off (asserted in adopt).
    let kinds: Vec<&str> = io
        .events
        .iter()
        .map(|e| e.split(' ').next().unwrap())
        .collect();
    assert_eq!(kinds, vec!["bind", "resolve", "release", "adopt"]);
    assert!(io.bound.is_empty());
}

#[test]
fn misses_mismatches_and_failed_flushes_leave_no_adoption() {
    let mut io = MockProbeIo::new();
    // .64 answers with a different MAC (squatter), .65 not at all,
    // .66 can't even be flushed.
    io.answer("172.31.169.64", "de:ad:be:ef:00:01");
    io.answer("172.31.169.66", "FLUSH-FAIL");
    let c = candidate(
        "172.31.169.0/24",
        &[
            ("172.31.169.64", "40:cd:3a:03:28:e2"),
            ("172.31.169.65", "aa:bb:cc:dd:ee:02"),
            ("172.31.169.66", "aa:bb:cc:dd:ee:03"),
        ],
    );
    let report = run_pass(&mut io, vec![c], CACHE_PROBE_PASS_BUDGET);
    assert!(report.handed_off.is_empty());
    assert_eq!(report.attempted, vec!["172.31.169.0/24"]);
    // Every pair was tried, nothing adopted, scratch released.
    assert!(io.events.iter().any(|e| e == "resolve 172.31.169.66"));
    assert!(!io.events.iter().any(|e| e.starts_with("adopt")));
    assert!(io.bound.is_empty());
}

#[test]
fn budget_expiry_releases_scratch_and_records_skips() {
    let mut io = MockProbeIo::new();
    io.resolve_delay = 60;
    let c1 = candidate(
        "172.31.169.0/24",
        &[
            ("172.31.169.64", "aa:bb:cc:dd:ee:01"),
            ("172.31.169.65", "aa:bb:cc:dd:ee:02"),
        ],
    );
    let c2 = candidate("172.31.170.0/24", &[("172.31.170.64", "aa:bb:cc:dd:ee:03")]);
    let report = run_pass(&mut io, vec![c1, c2], 90);
    // Pair 1 resolves at t=60, within the budget, so pair 2 is tried; its
    // resolve ends at t=120, past the deadline, so candidate 2 is skipped.
    assert_eq!(report.attempted, vec!["172.31.169.0/24"]);
    assert_eq!(report.skipped_at_budget, vec!["172.31.170.0/24"]);
    assert!(
        io.bound.is_empty(),
        "budget expiry must release the scratch"
    );
    assert!(!io.events.iter().any(|e| e.starts_with("bind 172.31.170")));
}

#[test]
fn shutdown_mid_pass_stops_promptly_without_orphans() {
    let mut io = MockProbeIo::new();
    // Events: bind(1) resolve(2) → shutdown reads true from then on:
    // the pair loop breaks, the scratch is still released, and the
    // next subnet is never attempted.
    io.shutdown_at_event = Some(2);
    let c1 = candidate(
        "172.31.169.0/24",
        &[
            ("172.31.169.64", "aa:bb:cc:dd:ee:01"),
            ("172.31.169.65", "aa:bb:cc:dd:ee:02"),
        ],
    );
    let c2 = candidate("172.31.170.0/24", &[("172.31.170.64", "aa:bb:cc:dd:ee:03")]);
    let report = run_pass(&mut io, vec![c1, c2], CACHE_PROBE_PASS_BUDGET);
    assert_eq!(report.attempted, vec!["172.31.169.0/24"]);
    assert!(report.skipped_at_budget.is_empty());
    assert!(io.bound.is_empty(), "shutdown must not orphan the scratch");
    assert!(!io.events.iter().any(|e| e.starts_with("bind 172.31.170")));
}

#[test]
fn bind_failure_moves_to_next_subnet() {
    let mut io = MockProbeIo::new();
    io.fail_bind = true;
    let c1 = candidate("172.31.169.0/24", &[("172.31.169.64", "aa:bb:cc:dd:ee:01")]);
    let c2 = candidate("172.31.170.0/24", &[("172.31.170.64", "aa:bb:cc:dd:ee:02")]);
    let report = run_pass(&mut io, vec![c1, c2], CACHE_PROBE_PASS_BUDGET);
    // Both marked attempted (one probe attempt per subnet per
    // session), neither resolved, nothing released or adopted.
    assert_eq!(report.attempted, vec!["172.31.169.0/24", "172.31.170.0/24"]);
    assert!(!io.events.iter().any(|e| e.starts_with("resolve")));
    assert!(!io.events.iter().any(|e| e.starts_with("release")));
    assert!(io.bound.is_empty());
}

#[test]
fn adopt_stop_signal_ends_the_pass() {
    let mut io = MockProbeIo::new();
    io.adopt_returns = false; // shutdown raced the adoption hand-off
    io.answer("172.31.169.64", "aa:bb:cc:dd:ee:01");
    let c1 = candidate("172.31.169.0/24", &[("172.31.169.64", "aa:bb:cc:dd:ee:01")]);
    let c2 = candidate("172.31.170.0/24", &[("172.31.170.64", "aa:bb:cc:dd:ee:02")]);
    let report = run_pass(&mut io, vec![c1, c2], CACHE_PROBE_PASS_BUDGET);
    assert_eq!(report.handed_off, vec!["172.31.169.0/24"]);
    assert!(!io.events.iter().any(|e| e.starts_with("bind 172.31.170")));
}
