//! Adopting a foreign subnet: the addresses to pick from, the run, and its rollback.

use pocketstream_network::adopt_run::{adopt_subnet, AdoptAction, AdoptEvent, AdoptStart};
use pocketstream_network::auto_adopt::{
    already_on_subnet, pick_candidate_ip, pick_scratch, PendingIp, PendingIps,
};
use pocketstream_network::error::AppError;
use pocketstream_network::net::Ipv4Addr;


// ── already_on_subnet ───────────────────────────────────────────

#[test]
fn already_on_subnet_same_24() {
    let device = Ipv4Addr::new(192, 168, 1, 50);
    let ours = vec![Ipv4Addr::new(192, 168, 1, 100)];
    assert!(already_on_subnet(device, &ours));
}

#[test]
fn already_on_subnet_different_third_octet() {
    let device = Ipv4Addr::new(192, 168, 2, 50);
    let ours = vec![Ipv4Addr::new(192, 168, 1, 100)];
    assert!(!already_on_subnet(device, &ours));
}

#[test]
fn already_on_subnet_different_second_octet() {
    let device = Ipv4Addr::new(10, 1, 1, 50);
    let ours = vec![Ipv4Addr::new(10, 2, 1, 50)];
    assert!(!already_on_subnet(device, &ours));
}

#[test]
fn already_on_subnet_empty_ips() {
    let device = Ipv4Addr::new(10, 0, 0, 1);
    assert!(!already_on_subnet(device, &vec![]));
}

#[test]
fn already_on_subnet_multiple_ips_one_matches() {
    let device = Ipv4Addr::new(10, 0, 0, 50);
    let ours = vec![Ipv4Addr::new(192, 168, 1, 1), Ipv4Addr::new(10, 0, 0, 100)];
    assert!(already_on_subnet(device, &ours));
}

#[test]
fn already_on_subnet_exact_same_ip() {
    let device = Ipv4Addr::new(192, 168, 1, 100);
    let ours = vec![Ipv4Addr::new(192, 168, 1, 100)];
    assert!(already_on_subnet(device, &ours));
}

// ── pick_candidate_ip ───────────────────────────────────────────

#[test]
fn pick_candidate_returns_same_subnet() {
    let device = Ipv4Addr::new(192, 168, 5, 10);
    let candidates = pick_candidate_ip(device, &vec![]);
    assert!(!candidates.is_empty());
    for c in &candidates {
        let o = [c.a, c.b, c.c, c.d];
        assert_eq!(o[0], 192);
        assert_eq!(o[1], 168);
        assert_eq!(o[2], 5);
    }
}

#[test]
fn pick_candidate_starts_at_100() {
    let device = Ipv4Addr::new(10, 0, 0, 50);
    let candidates = pick_candidate_ip(device, &vec![]);
    assert_eq!(candidates[0], Ipv4Addr::new(10, 0, 0, 100));
}

#[test]
fn pick_candidate_skips_device_ip() {
    let device = Ipv4Addr::new(10, 0, 0, 100);
    let candidates = pick_candidate_ip(device, &vec![]);
    assert!(!candidates.contains(&Ipv4Addr::new(10, 0, 0, 100)));
}

#[test]
fn pick_candidate_skips_reserved_addresses() {
    let device = Ipv4Addr::new(10, 0, 0, 50);
    let candidates = pick_candidate_ip(device, &vec![]);
    for c in &candidates {
        let last = c.d;
        assert_ne!(last, 0, "Should not pick .0 (network)");
        assert_ne!(last, 255, "Should not pick .255 (broadcast)");
        assert_ne!(last, 1, "Should not pick .1 (gateway)");
    }
}

#[test]
fn pick_candidate_returns_multiple() {
    let device = Ipv4Addr::new(172, 16, 0, 50);
    let candidates = pick_candidate_ip(device, &vec![]);
    assert!(candidates.len() >= 5, "Should return several candidates");
}

#[test]
fn pick_candidate_no_duplicates() {
    let device = Ipv4Addr::new(10, 0, 0, 50);
    let candidates = pick_candidate_ip(device, &vec![]);
    let unique: std::collections::HashSet<_> = candidates.iter().collect();
    assert_eq!(unique.len(), candidates.len());
}

#[test]
fn pick_candidate_skips_used_ip() {
    let device = Ipv4Addr::new(10, 0, 0, 50);
    // A local adapter already holds .100 — candidate should skip it.
    let candidates = pick_candidate_ip(device, &vec![Ipv4Addr::new(10, 0, 0, 100)]);
    assert!(!candidates.contains(&Ipv4Addr::new(10, 0, 0, 100)));
    // Should start with .101 instead.
    assert_eq!(candidates[0], Ipv4Addr::new(10, 0, 0, 101));
}

#[test]
fn pick_candidate_skips_multiple_used_ips() {
    let device = Ipv4Addr::new(10, 0, 0, 50);
    let used = vec![Ipv4Addr::new(10, 0, 0, 100), Ipv4Addr::new(10, 0, 0, 101)];
    let candidates = pick_candidate_ip(device, &used);
    assert!(!candidates.contains(&Ipv4Addr::new(10, 0, 0, 100)));
    assert!(!candidates.contains(&Ipv4Addr::new(10, 0, 0, 101)));
    // Should start with .99.
    assert_eq!(candidates[0], Ipv4Addr::new(10, 0, 0, 99));
}

#[test]
fn pick_candidate_excludes_full_ip_on_this_subnet_only() {
    // A WiFi adapter holds 192.168.5.100 on the SAME /24 we're
    // adopting — that candidate must be excluded (an ARP probe can't
    // see the host's own IP).
    let device = Ipv4Addr::new(192, 168, 5, 10);
    let wifi_ip = Ipv4Addr::new(192, 168, 5, 100);
    let candidates = pick_candidate_ip(device, &vec![wifi_ip]);
    assert!(!candidates.contains(&wifi_ip));
}

#[test]
fn pick_candidate_does_not_block_same_last_octet_on_other_subnet() {
    // A .100 on a DIFFERENT /24 must not block .100 here: full
    // addresses are compared, not last octets.
    let device = Ipv4Addr::new(192, 168, 5, 10);
    let other_subnet_ip = Ipv4Addr::new(10, 0, 0, 100);
    let candidates = pick_candidate_ip(device, &vec![other_subnet_ip]);
    assert!(candidates.contains(&Ipv4Addr::new(192, 168, 5, 100)));
}

// ── pick_scratch (on-link probe) ─────────────────────────────

#[test]
fn pick_scratch_is_on_the_candidate_subnet() {
    let device = Ipv4Addr::new(192, 168, 5, 10);
    let candidates = pick_candidate_ip(device, &vec![]);
    let scratch = pick_scratch(device, &candidates);
    let o = [scratch.a, scratch.b, scratch.c, scratch.d];
    assert_eq!([o[0], o[1], o[2]], [192, 168, 5]);
}

#[test]
fn pick_scratch_avoids_device_and_candidates() {
    let device = Ipv4Addr::new(10, 0, 0, 50);
    let candidates = pick_candidate_ip(device, &vec![]);
    let scratch = pick_scratch(device, &candidates);
    assert_ne!(scratch, device);
    assert!(!candidates.contains(&scratch));
}

// ── adopt_subnet cleanup / cancellation ─────────────────────────────
//
// `FakeOps` holds the simulated adapter state (`bound`) and lets a test say
// which candidates read as in use and which binds and releases fail, so the
// pending list and the rollback run without real addresses.

struct FakeOps {
    bound: Vec<Ipv4Addr>,
    in_use: Vec<Ipv4Addr>,
    fail_add: Vec<Ipv4Addr>,
    fail_remove: Vec<Ipv4Addr>,
}

impl FakeOps {
    fn new() -> Self {
        Self {
            bound: Vec::new(),
            in_use: Vec::new(),
            fail_add: Vec::new(),
            fail_remove: Vec::new(),
        }
    }

    fn bound_ips(&self) -> Vec<Ipv4Addr> {
        self.bound.clone()
    }

    fn remove(&mut self, ip: Ipv4Addr) -> bool {
        if self.fail_remove.contains(&ip) {
            return false;
        }
        self.bound.retain(|b| *b != ip);
        true
    }
}

fn adopt(
    ops: &mut FakeOps,
    device: Ipv4Addr,
    current: &Vec<Ipv4Addr>,
    local: &Vec<Ipv4Addr>,
    pending: &mut PendingIps,
    id: u64,
    shutdown: bool,
) -> Result<Option<Ipv4Addr>, AppError> {
    let mut run = match adopt_subnet("eth", device, current, local, pending, id) {
        AdoptStart::AlreadyOnSubnet => return Ok(None),
        AdoptStart::NoCandidate(e) => return Err(e),
        AdoptStart::Running(run) => run,
    };
    let mut action = run.first_action();
    loop {
        let event = match action {
            AdoptAction::Add { ip } => {
                if ops.fail_add.contains(&ip) {
                    AdoptEvent::AddFailed(AppError::Network(format!(
                        "fake add fail {}",
                        ip.text()
                    )))
                } else {
                    ops.bound.push(ip);
                    AdoptEvent::Added
                }
            }
            AdoptAction::Probe { target, .. } => AdoptEvent::Probed(ops.in_use.contains(&target)),
            AdoptAction::Remove { ip } => {
                if ops.remove(ip) {
                    AdoptEvent::Removed
                } else {
                    AdoptEvent::RemoveFailed
                }
            }
            AdoptAction::AskShutdown => AdoptEvent::Shutdown(shutdown),
            AdoptAction::Finish(r) => return r,
        };
        action = run.step(event, pending);
    }
}

fn reconcile_pending(ops: &mut FakeOps, pending: &mut PendingIps, only: Option<u64>) {
    for entry in pending.reconcile_targets(only) {
        let removed = ops.remove(entry.ip);
        pending.reconciled(&entry, removed);
    }
}

fn candidate_ip() -> Ipv4Addr {
    Ipv4Addr::new(10, 99, 99, 100)
}

fn scratch_ip() -> Ipv4Addr {
    Ipv4Addr::new(10, 99, 99, 254)
}

fn device_ip() -> Ipv4Addr {
    Ipv4Addr::new(10, 99, 99, 50)
}

#[test]
fn adopt_binds_deterministic_candidate_and_registers_pending() {
    let mut ops = FakeOps::new();
    let mut pending = PendingIps::new();
    let got = adopt(&mut ops, device_ip(), &vec![], &vec![], &mut pending, 1, false).unwrap();
    assert_eq!(got, Some(candidate_ip()));
    // Scratch was bound then released; only the final candidate remains.
    assert_eq!(ops.bound_ips(), vec![candidate_ip()]);
    // The final IP is registered as pending until the caller hands over.
    assert_eq!(pending.list.len(), 1);
    assert_eq!(pending.list[0].ip, candidate_ip());
    assert_eq!(pending.list[0].adoption_id, 1);
    // Handover clears the bookkeeping without touching the adapter.
    pending.pending_handover("eth", candidate_ip(), 1);
    assert!(pending.list.is_empty());
    assert_eq!(ops.bound_ips(), vec![candidate_ip()]);
}

#[test]
fn reconcile_removes_unrecorded_final_after_drop() {
    let mut ops = FakeOps::new();
    let mut pending = PendingIps::new();
    let got = adopt(&mut ops, device_ip(), &vec![], &vec![], &mut pending, 7, false).unwrap();
    assert_eq!(got, Some(candidate_ip()));
    // The caller never hands over. Reconcile by id cleans it.
    reconcile_pending(&mut ops, &mut pending, Some(7));
    assert!(ops.bound_ips().is_empty());
    assert!(pending.list.is_empty());
}

#[test]
fn shutdown_before_final_binds_nothing() {
    let mut ops = FakeOps::new();
    let mut pending = PendingIps::new();
    let got = adopt(&mut ops, device_ip(), &vec![], &vec![], &mut pending, 3, true).unwrap();
    assert_eq!(got, None);
    // Scratch was bound + released; no final bind happened.
    assert!(ops.bound_ips().is_empty());
    assert!(pending.list.is_empty());
}

#[test]
fn reconcile_by_id_ignores_other_adoptions_ip() {
    // A leftover from adoption 1 must not be removed by a reconcile scoped to
    // adoption 2, even though the IP is identical.
    let mut ops = FakeOps::new();
    ops.bound.push(candidate_ip());
    let mut pending = PendingIps::new();
    pending.list.push(PendingIp {
        iface: "eth".into(),
        ip: candidate_ip(),
        adoption_id: 1,
    });

    reconcile_pending(&mut ops, &mut pending, Some(2)); // wrong id
    assert_eq!(
        ops.bound_ips(),
        vec![candidate_ip()],
        "an id-2 reconcile must not touch id-1's IP"
    );
    assert_eq!(pending.list.len(), 1);

    reconcile_pending(&mut ops, &mut pending, Some(1)); // owning id
    assert!(ops.bound_ips().is_empty());
    assert!(pending.list.is_empty());
}

#[test]
fn scratch_release_failure_keeps_breadcrumb() {
    // If releasing the scratch fails, its pending entry is kept so a later
    // reconcile retries it; the final IP is still adopted.
    let mut ops = FakeOps::new();
    ops.fail_remove = vec![scratch_ip()];
    let mut pending = PendingIps::new();
    let got = adopt(&mut ops, device_ip(), &vec![], &vec![], &mut pending, 9, false).unwrap();
    assert_eq!(got, Some(candidate_ip()));
    // Both the un-released scratch and the final are still bound...
    let bound = ops.bound_ips();
    assert!(bound.contains(&scratch_ip()), "scratch left bound after failed release");
    assert!(bound.contains(&candidate_ip()));
    // ...and both carry pending breadcrumbs under id 9.
    let ips: Vec<Ipv4Addr> = pending.list.iter().map(|e| e.ip).collect();
    assert!(ips.contains(&scratch_ip()));
    assert!(ips.contains(&candidate_ip()));
}

#[test]
fn candidate_in_use_is_passed_over() {
    let mut ops = FakeOps::new();
    ops.in_use = vec![candidate_ip()];
    let mut pending = PendingIps::new();
    let got = adopt(&mut ops, device_ip(), &vec![], &vec![], &mut pending, 2, false).unwrap();
    assert_eq!(got, Some(Ipv4Addr::new(10, 99, 99, 101)));
}

#[test]
fn no_free_candidate_is_an_error() {
    let mut ops = FakeOps::new();
    ops.in_use = pick_candidate_ip(device_ip(), &vec![]);
    let mut pending = PendingIps::new();
    let got = adopt(&mut ops, device_ip(), &vec![], &vec![], &mut pending, 2, false);
    assert_eq!(
        got.unwrap_err().message(),
        "Could not find available IP on subnet for 10.99.99.50"
    );
    assert!(ops.bound_ips().is_empty());
    assert!(pending.list.is_empty());
}

#[test]
fn every_candidate_held_by_the_host_is_an_error() {
    let mut ops = FakeOps::new();
    let mut pending = PendingIps::new();
    let local = pick_candidate_ip(device_ip(), &vec![]);
    let got = adopt(&mut ops, device_ip(), &vec![], &local, &mut pending, 2, false);
    assert_eq!(
        got.unwrap_err().message(),
        "No candidate IPs available on subnet for 10.99.99.50"
    );
}

#[test]
fn failed_final_bind_is_an_error_and_leaves_nothing_pending() {
    let mut ops = FakeOps::new();
    ops.fail_add = vec![candidate_ip()];
    let mut pending = PendingIps::new();
    let got = adopt(&mut ops, device_ip(), &vec![], &vec![], &mut pending, 4, false);
    assert_eq!(got.unwrap_err().message(), "fake add fail 10.99.99.100");
    assert!(pending.list.is_empty());
    assert!(ops.bound_ips().is_empty());
}

#[test]
fn failed_scratch_bind_still_adopts() {
    let mut ops = FakeOps::new();
    ops.fail_add = vec![scratch_ip()];
    let mut pending = PendingIps::new();
    let got = adopt(&mut ops, device_ip(), &vec![], &vec![], &mut pending, 5, false).unwrap();
    assert_eq!(got, Some(candidate_ip()));
    assert_eq!(ops.bound_ips(), vec![candidate_ip()]);
}

#[test]
fn subnet_of_the_host_needs_no_adoption() {
    let mut ops = FakeOps::new();
    let mut pending = PendingIps::new();
    let current = vec![Ipv4Addr::new(10, 99, 99, 7)];
    let got = adopt(&mut ops, device_ip(), &current, &vec![], &mut pending, 6, false).unwrap();
    assert_eq!(got, None);
    assert!(ops.bound_ips().is_empty());
    assert!(pending.list.is_empty());
}
