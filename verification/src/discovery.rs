//! The decisions of a discovery session: which stale adoptions to unbind, when adoption
//! pauses, which device's subnet to adopt, and what follows an attempt.

use crate::adoptions;
use crate::adoptions::Adoptions;
use crate::auto_adopt;
use crate::auto_adopt::{PendingIps, PendingView};
use crate::dwell;
use crate::dwell::{DwellTracker, DwellVerdict, Heard};
use crate::ghost;
use crate::interface::IpInfo;
use crate::lifecycle;
use crate::net;
use crate::net::{Ipv4Addr, Ipv4Network};
use crate::reaper;
use crate::reaper::{LifecycleInput, ReapVerdict};
use crate::text;
use crate::textmap::{TextMap, TextSet};
use crate::time;
use crate::time::{Duration, Instant};
use vstd::prelude::*;

verus! {

/// The first wait after a failure, in seconds.
pub const COOLDOWN_INITIAL: u64 = 60;

/// The longest wait after a failure, in seconds.
pub const COOLDOWN_MAX: u64 = 600;

/// How long a ghost subnet is left alone, in seconds.
pub const GHOST_SUBNET_RECHECK: u64 = 300;

/// A wait after a failure.
#[derive(Clone, Copy, Debug, PartialEq, Eq, Structural)]
pub struct Cooldown {
    pub retry_at: Instant,
    /// The length of the wait in seconds.
    pub backoff: u64,
}

/// The next wait: twice the last one, between the first and the longest.
pub open spec fn next_backoff(last: Option<Cooldown>) -> u64 {
    match last {
        None => COOLDOWN_INITIAL,
        Some(c) => if 2 * c.backoff > COOLDOWN_MAX {
            COOLDOWN_MAX
        } else {
            (2 * c.backoff) as u64
        },
    }
}

/// The wait of a subnet, if it has one.
pub open spec fn wait_of(m: Map<Seq<char>, Cooldown>, subnet: Seq<char>) -> Option<Cooldown> {
    if m.contains_key(subnet) {
        Some(m[subnet])
    } else {
        None
    }
}

/// A wait of `backoff` seconds from now.
pub open spec fn wait_from(now: Instant, backoff: u64) -> Cooldown {
    Cooldown { retry_at: now.after_spec(time::secs(backoff as int)), backoff }
}

/// Whether the subnet still waits.
pub open spec fn waiting(m: Map<Seq<char>, Cooldown>, subnet: Seq<char>, now: Instant) -> bool {
    m.contains_key(subnet) && now.nanos < m[subnet].retry_at.nanos
}

/// Whether every time that a session reckons with can be represented.
pub open spec fn in_range(now: Instant) -> bool {
    now.nanos + COOLDOWN_MAX * time::NANOS_PER_SEC <= u128::MAX
}

fn still_waiting(m: &TextMap<Cooldown>, subnet: &str, now: Instant) -> (r: bool)
    ensures
        r == waiting(m@, subnet@, now),
{
    match m.get(subnet) {
        Some(c) => now.nanos < c.retry_at.nanos,
        None => false,
    }
}

fn arm_next(m: &mut TextMap<Cooldown>, subnet: &str, now: Instant) -> (r: u64)
    requires
        in_range(now),
    ensures
        r == next_backoff(wait_of(old(m)@, subnet@)),
        final(m)@ == old(m)@.insert(subnet@, wait_from(now, r)),
{
    let backoff: u64 = match m.get(subnet) {
        None => COOLDOWN_INITIAL,
        Some(c) => if c.backoff > COOLDOWN_MAX / 2 {
            COOLDOWN_MAX
        } else {
            c.backoff * 2
        },
    };
    let retry_at = now.after(Duration::from_secs(backoff));
    m.insert(String::from_str(subnet), Cooldown { retry_at, backoff });
    backoff
}

/// What a session remembers of the subnets it has met.
pub struct AdoptLoop {
    /// Subnets that need no adoption.
    pub known: TextSet,
    pub dwell: DwellTracker,
    /// Subnets whose adoption failed.
    pub cooldowns: TextMap<Cooldown>,
    /// Subnets whose removal failed or was held back.
    pub reap_cooldowns: TextMap<Cooldown>,
    /// Adoption keys that do not parse and were reported.
    pub invalid_warned: TextSet,
    /// Ghost subnets, with the time until which they are left alone.
    pub ghost_until: TextMap<Instant>,
}

/// What a session remembers, as text.
#[verifier::ext_equal]
pub struct LoopView {
    pub known: Set<Seq<char>>,
    pub dwell: Seq<Heard>,
    pub cooldowns: Map<Seq<char>, Cooldown>,
    pub reap_cooldowns: Map<Seq<char>, Cooldown>,
    pub invalid_warned: Set<Seq<char>>,
    pub ghost_until: Map<Seq<char>, Instant>,
}

impl View for AdoptLoop {
    type V = LoopView;

    open spec fn view(&self) -> LoopView {
        LoopView {
            known: self.known@,
            dwell: self.dwell@,
            cooldowns: self.cooldowns@,
            reap_cooldowns: self.reap_cooldowns@,
            invalid_warned: self.invalid_warned@,
            ghost_until: self.ghost_until@,
        }
    }
}

/// The subnets of the addresses that parse.
pub open spec fn subnets_of(ips: Seq<IpInfo>) -> Set<Seq<char>> {
    Set::new(
        |k: Seq<char>|
            exists|i: int|
                0 <= i < ips.len() && net::is_dotted((#[trigger] ips[i]).address@) && k
                    == net::subnet_key(net::parsed(ips[i].address@)->0),
    )
}

/// A session that knows nothing but these subnets.
pub open spec fn fresh_loop(known: Set<Seq<char>>) -> LoopView {
    LoopView {
        known,
        dwell: Seq::empty(),
        cooldowns: Map::empty(),
        reap_cooldowns: Map::empty(),
        invalid_warned: Set::empty(),
        ghost_until: Map::empty(),
    }
}

/// What the first look at an adoption says of its removal.
#[derive(Clone, Copy, Debug, PartialEq, Eq, Structural)]
pub enum ReapScreen {
    /// The key does not parse, so the adoption is never removed; `first` where this
    /// has not been reported yet.
    BadKey { first: bool },
    /// The adoption is not stale, or is no link-local one.
    Keep,
    /// It waits after a removal that failed or was held back.
    Cooling,
    /// It may be removed, unless something holds it.
    Due,
}

/// What is known of an adoption before anything that could hold it is read.
pub open spec fn bare_input(
    subnet: Seq<char>,
    last_positive: Option<Duration>,
    session_elapsed: Duration,
) -> LifecycleInput {
    LifecycleInput {
        subnet: net::key_address(subnet),
        last_positive_elapsed: last_positive,
        session_elapsed,
        pinned: false,
        host_rescued: false,
        badge_age: None,
    }
}

/// What the first look at an adoption says of its removal.
pub open spec fn screened(
    v: LoopView,
    subnet: Seq<char>,
    last_positive: Option<Duration>,
    session_elapsed: Duration,
    now: Instant,
) -> ReapScreen {
    if net::key_address(subnet) is None {
        ReapScreen::BadKey { first: !v.invalid_warned.contains(subnet) }
    } else if reaper::verdict(bare_input(subnet, last_positive, session_elapsed))
        != ReapVerdict::Reap {
        ReapScreen::Keep
    } else if waiting(v.reap_cooldowns, subnet, now) {
        ReapScreen::Cooling
    } else {
        ReapScreen::Due
    }
}

/// What to do with an adoption that is due for removal.
#[derive(Clone, Copy, Debug)]
pub enum ReapDecision {
    /// A pinned device or the host's own rescue holds it.
    Held,
    /// Its address must stay bound, for this reason.
    Blocked(&'static str),
    Unbind,
}

/// What to do with an adoption that is due for removal.
pub open spec fn is_reap_decision(
    d: ReapDecision,
    input: LifecycleInput,
    ip: Ipv4Addr,
    adapter_ips: Seq<Seq<char>>,
) -> bool {
    if reaper::verdict(input) != ReapVerdict::Reap {
        d is Held
    } else {
        match lifecycle::unbind_block(net::dotted(ip), adapter_ips) {
            Some(why) => d matches ReapDecision::Blocked(reason) && reason@ == why,
            None => d is Unbind,
        }
    }
}

/// What a session remembers once an adoption is gone: the subnet can be adopted again.
pub open spec fn after_reap(v: LoopView, subnet: Seq<char>) -> LoopView {
    LoopView {
        known: v.known.remove(subnet),
        dwell: v.dwell.filter(dwell::off_subnet(subnet)),
        reap_cooldowns: v.reap_cooldowns.remove(subnet),
        ..v
    }
}

/// What the gates say of a device whose subnet is neither known nor adopted.
#[derive(Clone, Copy, Debug, PartialEq, Eq, Structural)]
pub enum DeviceGate {
    /// The subnet belongs to another network of the host.
    GhostSubnet,
    /// First observation of the device: wait for another one.
    Started,
    /// Still waiting for another one.
    Waiting,
    Adopt,
}

/// Whether a device is worth a look: its subnet is neither known nor adopted.
pub open spec fn worth_a_look(
    v: LoopView,
    ip: Seq<char>,
    adopted: Map<Seq<char>, Ipv4Addr>,
) -> bool {
    net::is_dotted(ip) && {
        let subnet = net::subnet_key(net::parsed(ip)->0);
        !v.known.contains(subnet) && !adopted.contains_key(subnet)
    }
}

/// What a session remembers after the first look at a device: an adopted subnet is
/// known.
pub open spec fn after_look(
    v: LoopView,
    ip: Seq<char>,
    adopted: Map<Seq<char>, Ipv4Addr>,
) -> LoopView {
    if net::is_dotted(ip) && adopted.contains_key(net::subnet_key(net::parsed(ip)->0)) {
        LoopView { known: v.known.insert(net::subnet_key(net::parsed(ip)->0)), ..v }
    } else {
        v
    }
}

/// What a session remembers after the second look at a device: a subnet that the
/// adapter is on is known.
pub open spec fn after_screen(v: LoopView, ip: Ipv4Addr, current_ips: Seq<Ipv4Addr>) -> LoopView {
    if auto_adopt::on_subnet(ip, current_ips) {
        LoopView { known: v.known.insert(net::subnet_key(ip)), ..v }
    } else {
        v
    }
}

/// Whether a device's subnet is foreign and waits for nothing.
pub open spec fn may_proceed(
    v: LoopView,
    ip: Ipv4Addr,
    current_ips: Seq<Ipv4Addr>,
    now: Instant,
) -> bool {
    let subnet = net::subnet_key(ip);
    &&& !auto_adopt::on_subnet(ip, current_ips)
    &&& !waiting(v.cooldowns, subnet, now)
    &&& !(v.ghost_until.contains_key(subnet) && now.nanos < v.ghost_until[subnet].nanos)
}

/// Whether the device's subnet belongs to another network of the host.
pub open spec fn is_ghost(ip: Ipv4Addr, ghosts: Seq<Ipv4Network>) -> bool {
    ghost::ghost_ip(ip, ghosts) || ghost::ghost_key(net::subnet_key(ip), ghosts)
}

/// What the gates say of a device.
pub open spec fn gated(
    v: LoopView,
    ip: Ipv4Addr,
    mac: Seq<char>,
    last_seen: Seq<char>,
    ghosts: Seq<Ipv4Network>,
) -> DeviceGate {
    if is_ghost(ip, ghosts) {
        DeviceGate::GhostSubnet
    } else {
        match dwell::dwell_verdict(v.dwell, net::subnet_key(ip), mac, last_seen) {
            DwellVerdict::Started => DeviceGate::Started,
            DwellVerdict::Waiting => DeviceGate::Waiting,
            DwellVerdict::Mature => DeviceGate::Adopt,
        }
    }
}

/// What a session remembers after the gates.
pub open spec fn after_gate(
    v: LoopView,
    ip: Ipv4Addr,
    mac: Seq<char>,
    last_seen: Seq<char>,
    ghosts: Seq<Ipv4Network>,
    now: Instant,
) -> LoopView {
    if is_ghost(ip, ghosts) {
        LoopView {
            ghost_until: v.ghost_until.insert(
                net::subnet_key(ip),
                now.after_spec(time::secs(GHOST_SUBNET_RECHECK as int)),
            ),
            ..v
        }
    } else {
        LoopView { dwell: dwell::dwell_next(v.dwell, net::subnet_key(ip), mac, last_seen), ..v }
    }
}

/// How an attempt at an adoption ended.
#[derive(Clone, Copy, Debug, PartialEq, Eq, Structural)]
pub enum AdoptOutcome {
    /// It took too long and was dropped.
    TimedOut,
    Adopted(Ipv4Addr),
    /// There was nothing to bind, or the stop came first.
    Nothing,
    Failed,
}

/// One attempt at an adoption.
pub struct Attempt {
    pub iface: String,
    pub subnet: String,
    pub adoption_id: u64,
}

impl Attempt {
    /// The pending entry of one of its addresses.
    pub open spec fn entry(self, ip: Ipv4Addr) -> PendingView {
        PendingView { iface: self.iface@, ip, adoption_id: self.adoption_id }
    }
}

/// What follows an attempt.
#[derive(Clone, Copy, Debug, PartialEq, Eq, Structural)]
pub enum AfterAttempt {
    /// Roll back what the attempt left bound; the next one comes in so many seconds.
    RollBack { retry_in: u64 },
    /// Roll back what the attempt bound, and end the session.
    RollBackAndStop,
    /// The adoption is recorded.
    Recorded(Ipv4Addr),
    /// Go on with the next device.
    GoOn,
    /// End the session.
    Stop,
}

/// What follows an attempt.
pub open spec fn attempted(
    v: LoopView,
    subnet: Seq<char>,
    outcome: AdoptOutcome,
    shutdown: bool,
) -> AfterAttempt {
    match outcome {
        AdoptOutcome::TimedOut | AdoptOutcome::Failed => AfterAttempt::RollBack {
            retry_in: next_backoff(wait_of(v.cooldowns, subnet)),
        },
        AdoptOutcome::Adopted(ip) => if shutdown {
            AfterAttempt::RollBackAndStop
        } else {
            AfterAttempt::Recorded(ip)
        },
        AdoptOutcome::Nothing => if shutdown {
            AfterAttempt::Stop
        } else {
            AfterAttempt::GoOn
        },
    }
}

/// What a session remembers after an attempt.
pub open spec fn after_attempt(
    v: LoopView,
    subnet: Seq<char>,
    outcome: AdoptOutcome,
    shutdown: bool,
    now: Instant,
) -> LoopView {
    let settled = LoopView {
        known: v.known.insert(subnet),
        cooldowns: v.cooldowns.remove(subnet),
        ..v
    };
    match attempted(v, subnet, outcome, shutdown) {
        AfterAttempt::RollBack { retry_in } => LoopView {
            cooldowns: v.cooldowns.insert(subnet, wait_from(now, retry_in)),
            dwell: v.dwell.filter(dwell::off_subnet(subnet)),
            ..v
        },
        AfterAttempt::RollBackAndStop => v,
        AfterAttempt::Stop => settled,
        _ => LoopView { dwell: v.dwell.filter(dwell::off_subnet(subnet)), ..settled },
    }
}

impl AdoptLoop {
    /// A new session on an adapter with these addresses, whose subnets it knows.
    pub fn new(ips: &Vec<IpInfo>) -> (r: AdoptLoop)
        ensures
            r@ == fresh_loop(subnets_of(ips@)),
    {
        let mut known = TextSet::new();
        let mut i: usize = 0;
        while i < ips.len()
            invariant
                i <= ips.len(),
                forall|k: Seq<char>| #[trigger]
                    known@.contains(k) <==> exists|j: int|
                        0 <= j < i && net::is_dotted((#[trigger] ips@[j]).address@) && k
                            == net::subnet_key(net::parsed(ips@[j].address@)->0),
            decreases ips.len() - i,
        {
            if let Some(ip) = Ipv4Addr::parse(ips[i].address.as_str()) {
                let _ = known.insert(net::subnet_key_for(ip));
            }
            i += 1;
        }
        assert(known@ =~= subnets_of(ips@));
        AdoptLoop {
            known,
            dwell: DwellTracker::new(),
            cooldowns: TextMap::new(),
            reap_cooldowns: TextMap::new(),
            invalid_warned: TextSet::new(),
            ghost_until: TextMap::new(),
        }
    }

    /// The first look at an adoption, before anything that could hold it is read.
    pub fn reap_screen(
        &mut self,
        subnet: &str,
        last_positive: Option<Duration>,
        session_elapsed: Duration,
        now: Instant,
    ) -> (r: ReapScreen)
        ensures
            r == screened(old(self)@, subnet@, last_positive, session_elapsed, now),
            final(self)@ == (if r is BadKey {
                LoopView { invalid_warned: old(self)@.invalid_warned.insert(subnet@), ..old(self)@ }
            } else {
                old(self)@
            }),
    {
        let parsed = reaper::parse_subnet_key(subnet);
        if parsed.is_none() {
            let first = self.invalid_warned.insert(String::from_str(subnet));
            return ReapScreen::BadKey { first };
        }
        let input = LifecycleInput {
            subnet: parsed,
            last_positive_elapsed: last_positive,
            session_elapsed,
            pinned: false,
            host_rescued: false,
            badge_age: None,
        };
        if reaper::lifecycle_verdict(&input) != ReapVerdict::Reap {
            ReapScreen::Keep
        } else if still_waiting(&self.reap_cooldowns, subnet, now) {
            ReapScreen::Cooling
        } else {
            ReapScreen::Due
        }
    }

    /// Decides on an adoption that is due, now that everything that could hold it has
    /// been read. A blocked removal is looked at again after the first wait.
    pub fn reap_decide(
        &mut self,
        subnet: &str,
        ip: Ipv4Addr,
        last_positive: Option<Duration>,
        session_elapsed: Duration,
        pinned: bool,
        host_rescued: bool,
        adapter_ips: &Vec<String>,
        now: Instant,
    ) -> (r: ReapDecision)
        requires
            in_range(now),
        ensures
            is_reap_decision(
                r,
                (LifecycleInput {
                    pinned,
                    host_rescued,
                    ..bare_input(subnet@, last_positive, session_elapsed)
                }),
                ip,
                text::views(adapter_ips@),
            ),
            final(self)@ == (if r is Blocked {
                LoopView {
                    reap_cooldowns: old(self)@.reap_cooldowns.insert(
                        subnet@,
                        wait_from(now, COOLDOWN_INITIAL),
                    ),
                    ..old(self)@
                }
            } else {
                old(self)@
            }),
    {
        let input = LifecycleInput {
            subnet: reaper::parse_subnet_key(subnet),
            last_positive_elapsed: last_positive,
            session_elapsed,
            pinned,
            host_rescued,
            badge_age: None,
        };
        if reaper::lifecycle_verdict(&input) != ReapVerdict::Reap {
            return ReapDecision::Held;
        }
        let t = ip.text();
        match lifecycle::unbind_guard_blocks(t.as_str(), adapter_ips) {
            Some(reason) => {
                let wait = Duration::from_secs(COOLDOWN_INITIAL);
                self.reap_cooldowns.insert(
                    String::from_str(subnet),
                    Cooldown { retry_at: now.after(wait), backoff: COOLDOWN_INITIAL },
                );
                ReapDecision::Blocked(reason)
            },
            None => ReapDecision::Unbind,
        }
    }

    /// Takes the end of a removal. Where the address was unbound, the adoption and all
    /// traces of the subnet are forgotten; where it was not, nothing is forgotten and
    /// the next try waits. Gives that wait in seconds.
    pub fn reap_ended(
        &mut self,
        adoptions: &mut Adoptions,
        subnet: &str,
        unbound: bool,
        now: Instant,
    ) -> (r: Option<u64>)
        requires
            in_range(now),
        ensures
            unbound ==> {
                &&& r is None
                &&& final(self)@ == after_reap(old(self)@, subnet@)
                &&& adoptions::forgotten(*old(adoptions), *final(adoptions), subnet@)
            },
            !unbound ==> {
                &&& r == Some(next_backoff(wait_of(old(self)@.reap_cooldowns, subnet@)))
                &&& final(self)@ == (LoopView {
                    reap_cooldowns: old(self)@.reap_cooldowns.insert(
                        subnet@,
                        wait_from(now, r->0),
                    ),
                    ..old(self)@
                })
                &&& *final(adoptions) == *old(adoptions)
            },
    {
        if unbound {
            adoptions.remove_adopted_subnet(subnet);
            let _ = self.known.remove(subnet);
            self.dwell.prune_subnet(subnet);
            let _ = self.reap_cooldowns.remove(subnet);
            None
        } else {
            Some(arm_next(&mut self.reap_cooldowns, subnet, now))
        }
    }

    /// The address of a device whose subnet is neither known nor adopted. An adopted
    /// subnet is known from here on.
    pub fn consider(&mut self, device_ip: &str, adopted: &TextMap<Ipv4Addr>) -> (r: Option<
        Ipv4Addr,
    >)
        ensures
            r == if worth_a_look(old(self)@, device_ip@, adopted@) {
                net::parsed(device_ip@)
            } else {
                None
            },
            final(self)@ == after_look(old(self)@, device_ip@, adopted@),
    {
        let ip = match Ipv4Addr::parse(device_ip) {
            Some(ip) => ip,
            None => {
                return None;
            },
        };
        let subnet = net::subnet_key_for(ip);
        if self.known.contains(subnet.as_str()) {
            assert(self.known@ =~= self.known@.insert(subnet@));
            return None;
        }
        if adopted.contains_key(subnet.as_str()) {
            let _ = self.known.insert(subnet);
            return None;
        }
        Some(ip)
    }

    /// Whether the device's subnet is foreign and waits for nothing. A subnet that the
    /// adapter is on is known from here on.
    pub fn screen(&mut self, ip: Ipv4Addr, current_ips: &Vec<Ipv4Addr>, now: Instant) -> (r: bool)
        ensures
            r == may_proceed(old(self)@, ip, current_ips@, now),
            final(self)@ == after_screen(old(self)@, ip, current_ips@),
    {
        let subnet = net::subnet_key_for(ip);
        if auto_adopt::already_on_subnet(ip, current_ips) {
            let _ = self.known.insert(subnet);
            return false;
        }
        if still_waiting(&self.cooldowns, subnet.as_str(), now) {
            return false;
        }
        match self.ghost_until.get(subnet.as_str()) {
            Some(until) => now.nanos >= until.nanos,
            None => true,
        }
    }

    /// The last gates: the ghost check, then the second observation. A ghost is left
    /// alone for a while, but never known for good.
    pub fn gate(
        &mut self,
        ip: Ipv4Addr,
        mac: &str,
        last_seen: &str,
        ghosts: &Vec<Ipv4Network>,
        now: Instant,
    ) -> (r: DeviceGate)
        requires
            in_range(now),
        ensures
            r == gated(old(self)@, ip, mac@, last_seen@, ghosts@),
            final(self)@ == after_gate(old(self)@, ip, mac@, last_seen@, ghosts@, now),
    {
        let subnet = net::subnet_key_for(ip);
        if ghost::is_structural_ghost_ip(ip, ghosts) || ghost::is_structural_ghost_adoption(
            subnet.as_str(),
            ghosts,
        ) {
            let until = now.after(Duration::from_secs(GHOST_SUBNET_RECHECK));
            self.ghost_until.insert(subnet, until);
            return DeviceGate::GhostSubnet;
        }
        match self.dwell.check(subnet.as_str(), mac, last_seen) {
            DwellVerdict::Started => DeviceGate::Started,
            DwellVerdict::Waiting => DeviceGate::Waiting,
            DwellVerdict::Mature => DeviceGate::Adopt,
        }
    }

    /// Takes the end of an attempt, and says what follows. An adoption is recorded, and
    /// its address is pending no more.
    pub fn attempt_ended(
        &mut self,
        adoptions: &mut Adoptions,
        pending: &mut PendingIps,
        attempt: &Attempt,
        outcome: AdoptOutcome,
        shutdown: bool,
        now: Instant,
        wall_rfc3339: &str,
    ) -> (r: AfterAttempt)
        requires
            in_range(now),
        ensures
            r == attempted(old(self)@, attempt.subnet@, outcome, shutdown),
            final(self)@ == after_attempt(old(self)@, attempt.subnet@, outcome, shutdown, now),
            r matches AfterAttempt::Recorded(ip) ==> final(pending)@ == auto_adopt::dropped(
                old(pending)@,
                attempt.entry(ip),
            ) && adoptions::recorded(
                *old(adoptions),
                *final(adoptions),
                attempt.subnet@,
                ip,
                now,
                wall_rfc3339@,
            ),
            !(r is Recorded) ==> final(pending)@ == old(pending)@ && *final(adoptions) == *old(
                adoptions,
            ),
    {
        let subnet = attempt.subnet.as_str();
        match outcome {
            AdoptOutcome::TimedOut | AdoptOutcome::Failed => {
                let retry_in = arm_next(&mut self.cooldowns, subnet, now);
                self.dwell.prune_subnet(subnet);
                AfterAttempt::RollBack { retry_in }
            },
            AdoptOutcome::Adopted(ip) => {
                if shutdown {
                    return AfterAttempt::RollBackAndStop;
                }
                let _ = self.cooldowns.remove(subnet);
                adoptions.record_adoption(subnet, ip, now, wall_rfc3339);
                pending.pending_handover(attempt.iface.as_str(), ip, attempt.adoption_id);
                let _ = self.known.insert(String::from_str(subnet));
                self.dwell.prune_subnet(subnet);
                AfterAttempt::Recorded(ip)
            },
            AdoptOutcome::Nothing => {
                let _ = self.cooldowns.remove(subnet);
                let _ = self.known.insert(String::from_str(subnet));
                if shutdown {
                    return AfterAttempt::Stop;
                }
                self.dwell.prune_subnet(subnet);
                AfterAttempt::GoOn
            },
        }
    }
}

/// A recorded adoption is not rolled back: none of its entries is pending any more.
pub proof fn law_recorded_address_is_not_pending(
    pending: Seq<PendingView>,
    attempt: Attempt,
    ip: Ipv4Addr,
)
    ensures
        !auto_adopt::dropped(pending, attempt.entry(ip)).contains(attempt.entry(ip)),
{
    let keep = auto_adopt::other_than(attempt.entry(ip));
    let rest = pending.filter(keep);
    if rest.contains(attempt.entry(ip)) {
        let i = rest.index_of(attempt.entry(ip));
        pending.lemma_filter_pred(keep, i);
    }
}

/// The waits of a subnet grow: each is at least as long as the one before it, never
/// longer than the longest, and at least the first one.
pub proof fn law_waits_grow(last: Option<Cooldown>)
    requires
        last matches Some(c) ==> COOLDOWN_INITIAL <= c.backoff <= COOLDOWN_MAX,
    ensures
        COOLDOWN_INITIAL <= next_backoff(last) <= COOLDOWN_MAX,
        last matches Some(c) ==> next_backoff(last) >= c.backoff,
{
}

/// After an attempt that failed, the subnet is left alone until its wait is over, and
/// then has to be observed twice again.
pub proof fn law_failed_subnet_waits(
    v: LoopView,
    ip: Ipv4Addr,
    outcome: AdoptOutcome,
    shutdown: bool,
    now: Instant,
    later: Instant,
    current_ips: Seq<Ipv4Addr>,
    mac: Seq<char>,
    token: Seq<char>,
)
    requires
        outcome is TimedOut || outcome is Failed,
        in_range(now),
    ensures
        ({
            let subnet = net::subnet_key(ip);
            let after = after_attempt(v, subnet, outcome, shutdown, now);
            let wait = next_backoff(wait_of(v.cooldowns, subnet));
            &&& later.nanos < now.nanos + wait * time::NANOS_PER_SEC ==> !may_proceed(
                after,
                ip,
                current_ips,
                later,
            )
            &&& dwell::dwell_verdict(after.dwell, subnet, mac, token) == DwellVerdict::Started
        }),
{
    dwell::law_pruned_subnet_starts_over(v.dwell, net::subnet_key(ip), mac, token);
}

/// A ghost subnet is never adopted, and never known for good: once it is no ghost any
/// more and its time is over, it can be adopted.
pub proof fn law_ghost_is_looked_at_again(
    v: LoopView,
    ip: Ipv4Addr,
    mac: Seq<char>,
    token: Seq<char>,
    ghosts: Seq<Ipv4Network>,
    now: Instant,
)
    requires
        is_ghost(ip, ghosts),
    ensures
        gated(v, ip, mac, token, ghosts) == DeviceGate::GhostSubnet,
        after_gate(v, ip, mac, token, ghosts, now).known == v.known,
        after_gate(v, ip, mac, token, ghosts, now).dwell == v.dwell,
{
}

/// A subnet is adopted only where no other network of the host has it and its device
/// was observed before.
pub proof fn law_adoption_needs_a_second_observation(
    v: LoopView,
    ip: Ipv4Addr,
    mac: Seq<char>,
    token: Seq<char>,
    ghosts: Seq<Ipv4Network>,
)
    requires
        gated(v, ip, mac, token, ghosts) == DeviceGate::Adopt,
    ensures
        !is_ghost(ip, ghosts),
        dwell::held(v.dwell, net::subnet_key(ip), mac) is Some,
        dwell::held(v.dwell, net::subnet_key(ip), mac) != Some(token),
{
}

/// A removed adoption can come back: its subnet is worth a look again, and its device
/// has to be observed twice again.
pub proof fn law_reaped_subnet_can_return(
    v: LoopView,
    ip: Ipv4Addr,
    adopted: Map<Seq<char>, Ipv4Addr>,
    mac: Seq<char>,
    token: Seq<char>,
)
    ensures
        ({
            let subnet = net::subnet_key(ip);
            let after = after_reap(v, subnet);
            &&& worth_a_look(after, net::dotted(ip), adopted.remove(subnet))
            &&& dwell::dwell_verdict(after.dwell, subnet, mac, token) == DwellVerdict::Started
        }),
{
    net::law_parse_of_text(ip);
    dwell::law_pruned_subnet_starts_over(v.dwell, net::subnet_key(ip), mac, token);
}

/// A stop that overtakes an adoption leaves nothing recorded.
pub proof fn law_stop_records_nothing(v: LoopView, subnet: Seq<char>, outcome: AdoptOutcome)
    ensures
        !(attempted(v, subnet, outcome, true) is Recorded),
{
}

/// A device goes on exactly when no address of the adapter is on its /24, its subnet has
/// no wait that is still running, and it is not left alone as a ghost just now. How many
/// addresses the adapter has plays no part.
pub proof fn law_who_goes_on(
    v: LoopView,
    ip: Ipv4Addr,
    current_ips: Seq<Ipv4Addr>,
    now: Instant,
)
    ensures
        may_proceed(v, ip, current_ips, now) <==> {
            let key = net::subnet_key(ip);
            &&& forall|x: Ipv4Addr| #[trigger]
                current_ips.contains(x) ==> x.a != ip.a || x.b != ip.b || x.c != ip.c
            &&& v.cooldowns.contains_key(key) ==> v.cooldowns[key].retry_at.nanos <= now.nanos
            &&& v.ghost_until.contains_key(key) ==> v.ghost_until[key].nanos <= now.nanos
        },
{
    auto_adopt::law_on_subnet(ip, current_ips);
}

/// Only what touches its own subnet can hold a device back: other waits, other ghosts and
/// further addresses of the adapter change nothing.
pub proof fn law_only_its_own_subnet_counts(
    v: LoopView,
    w: LoopView,
    ip: Ipv4Addr,
    current_ips: Seq<Ipv4Addr>,
    more: Seq<Ipv4Addr>,
    now: Instant,
)
    requires
        wait_of(v.cooldowns, net::subnet_key(ip)) == wait_of(w.cooldowns, net::subnet_key(ip)),
        v.ghost_until.contains_key(net::subnet_key(ip)) == w.ghost_until.contains_key(
            net::subnet_key(ip),
        ),
        v.ghost_until.contains_key(net::subnet_key(ip)) ==> v.ghost_until[net::subnet_key(ip)]
            == w.ghost_until[net::subnet_key(ip)],
        forall|x: Ipv4Addr| #[trigger]
            more.contains(x) ==> net::subnet_key(x) != net::subnet_key(ip),
    ensures
        may_proceed(v, ip, current_ips, now) == may_proceed(w, ip, current_ips + more, now),
{
    let all = current_ips + more;
    law_who_goes_on(v, ip, current_ips, now);
    law_who_goes_on(w, ip, all, now);
    assert forall|x: Ipv4Addr|
        #![trigger all.contains(x)]
        #![trigger current_ips.contains(x)]
        #![trigger more.contains(x)]
        all.contains(x) <==> current_ips.contains(x) || more.contains(x) by {
        if current_ips.contains(x) {
            assert(all[current_ips.index_of(x)] == x);
        }
        if more.contains(x) {
            assert(all[current_ips.len() + more.index_of(x)] == x);
        }
        if all.contains(x) {
            let i = all.index_of(x);
            if i < current_ips.len() {
                assert(current_ips[i] == x);
            } else {
                assert(more[i - current_ips.len()] == x);
            }
        }
    }
    assert forall|x: Ipv4Addr| #[trigger] more.contains(x) implies x.a != ip.a || x.b != ip.b
        || x.c != ip.c by {
        net::law_key_is_the_first_three_numbers(x, ip);
    }
}

/// A look at a device teaches a session its subnet where the adapter is on it or it is
/// adopted, and nothing else.
pub proof fn law_looks_teach_only_known_subnets(
    v: LoopView,
    ip: Ipv4Addr,
    current_ips: Seq<Ipv4Addr>,
    adopted: Map<Seq<char>, Ipv4Addr>,
    k: Seq<char>,
)
    ensures
        ({
            let key = net::subnet_key(ip);
            let on = exists|x: Ipv4Addr| #[trigger]
                current_ips.contains(x) && x.a == ip.a && x.b == ip.b && x.c == ip.c;
            let s = after_screen(v, ip, current_ips);
            let l = after_look(v, net::dotted(ip), adopted);
            &&& s.known.contains(k) <==> v.known.contains(k) || (k == key && on)
            &&& s == (LoopView { known: s.known, ..v })
            &&& l.known.contains(k) <==> v.known.contains(k) || (k == key && adopted.contains_key(
                key,
            ))
            &&& l == (LoopView { known: l.known, ..v })
        }),
{
    auto_adopt::law_on_subnet(ip, current_ips);
    net::law_parse_of_text(ip);
}

/// A device is worth a look exactly when its address parses and its subnet is neither
/// known nor adopted.
pub proof fn law_who_is_worth_a_look(
    v: LoopView,
    device: Seq<char>,
    adopted: Map<Seq<char>, Ipv4Addr>,
)
    ensures
        worth_a_look(v, device, adopted) <==> exists|ip: Ipv4Addr|
            device == #[trigger] net::dotted(ip) && !v.known.contains(net::subnet_key(ip))
                && !adopted.contains_key(net::subnet_key(ip)),
{
    assert forall|ip: Ipv4Addr| device == #[trigger] net::dotted(ip) implies net::parsed(device)
        == Some(ip) by {
        net::law_parse_of_text(ip);
    }
    if net::is_dotted(device) {
        let ip = net::parsed(device)->0;
        assert(device == net::dotted(ip));
    }
}

/// A device is a ghost exactly when an address on its /24 lies in a block off the wire.
/// Any other device is adopted on the second observation with another time of hearing.
pub proof fn law_what_the_gates_say(
    v: LoopView,
    ip: Ipv4Addr,
    mac: Seq<char>,
    last_seen: Seq<char>,
    ghosts: Seq<Ipv4Network>,
)
    requires
        forall|i: int| 0 <= i < ghosts.len() ==> (#[trigger] ghosts[i]).bits() <= 32,
    ensures
        ({
            let off_wire = exists|i: int, x: Ipv4Addr|
                0 <= i < ghosts.len() && #[trigger] ghosts[i].has(x) && x.a == ip.a && x.b == ip.b
                    && x.c == ip.c;
            let first = dwell::held(v.dwell, net::subnet_key(ip), mac);
            let g = gated(v, ip, mac, last_seen, ghosts);
            &&& g == DeviceGate::GhostSubnet <==> off_wire
            &&& g == DeviceGate::Started <==> !off_wire && first is None
            &&& g == DeviceGate::Waiting <==> !off_wire && first == Some(last_seen)
            &&& g == DeviceGate::Adopt <==> !off_wire && first is Some && first != Some(last_seen)
        }),
{
    ghost::law_ghost_is_a_shared_address(ip, ghosts);
}

/// A ghost is left alone for five minutes, and only that is noted; of any other device
/// only the observation is noted.
pub proof fn law_what_the_gates_note(
    v: LoopView,
    ip: Ipv4Addr,
    mac: Seq<char>,
    last_seen: Seq<char>,
    ghosts: Seq<Ipv4Network>,
    now: Instant,
    other: Seq<char>,
)
    requires
        in_range(now),
        other != net::subnet_key(ip),
    ensures
        ({
            let key = net::subnet_key(ip);
            let w = after_gate(v, ip, mac, last_seen, ghosts, now);
            if gated(v, ip, mac, last_seen, ghosts) == DeviceGate::GhostSubnet {
                &&& w == (LoopView { ghost_until: w.ghost_until, ..v })
                &&& w.ghost_until.contains_key(key)
                &&& w.ghost_until[key].nanos == now.nanos + 300_000_000_000
                &&& w.ghost_until.contains_key(other) == v.ghost_until.contains_key(other)
                &&& w.ghost_until[other] == v.ghost_until[other]
            } else {
                &&& w == (LoopView { dwell: w.dwell, ..v })
                &&& dwell::held(w.dwell, key, mac) == match dwell::held(v.dwell, key, mac) {
                    Some(t) => Some(t),
                    None => Some(last_seen),
                }
                &&& dwell::held(w.dwell, other, mac) == dwell::held(v.dwell, other, mac)
            }
        }),
{
    let key = net::subnet_key(ip);
    dwell::law_observations_are_apart(v.dwell, key, mac, last_seen, other, mac);
    if dwell::held(v.dwell, key, mac) is None {
        dwell::law_observed_is_held(v.dwell, key, mac, last_seen);
    }
}

/// A camera on a foreign subnet is adopted: a session that does not know its subnet lets
/// it through on the second hearing, however many addresses the adapter has, unless one
/// of them is on the subnet or an adapter off the wire has part of it.
pub proof fn law_foreign_camera_is_adopted(
    known: Set<Seq<char>>,
    ip: Ipv4Addr,
    mac: Seq<char>,
    first: Seq<char>,
    second: Seq<char>,
    current_ips: Seq<Ipv4Addr>,
    adopted: Map<Seq<char>, Ipv4Addr>,
    ghosts: Seq<Ipv4Network>,
    now: Instant,
    later: Instant,
)
    requires
        !known.contains(net::subnet_key(ip)),
        !adopted.contains_key(net::subnet_key(ip)),
        first != second,
        forall|x: Ipv4Addr| #[trigger]
            current_ips.contains(x) ==> x.a != ip.a || x.b != ip.b || x.c != ip.c,
        forall|i: int| 0 <= i < ghosts.len() ==> (#[trigger] ghosts[i]).bits() <= 32,
        forall|i: int, x: Ipv4Addr|
            0 <= i < ghosts.len() && #[trigger] ghosts[i].has(x) ==> x.a != ip.a || x.b != ip.b
                || x.c != ip.c,
    ensures
        ({
            let v = fresh_loop(known);
            let w = after_gate(v, ip, mac, first, ghosts, now);
            &&& worth_a_look(v, net::dotted(ip), adopted)
            &&& may_proceed(v, ip, current_ips, now)
            &&& gated(v, ip, mac, first, ghosts) == DeviceGate::Started
            &&& worth_a_look(w, net::dotted(ip), adopted)
            &&& may_proceed(w, ip, current_ips, later)
            &&& gated(w, ip, mac, second, ghosts) == DeviceGate::Adopt
        }),
{
    let v = fresh_loop(known);
    let w = after_gate(v, ip, mac, first, ghosts, now);
    law_who_is_worth_a_look(v, net::dotted(ip), adopted);
    law_who_is_worth_a_look(w, net::dotted(ip), adopted);
    law_who_goes_on(v, ip, current_ips, now);
    law_who_goes_on(w, ip, current_ips, later);
    law_what_the_gates_say(v, ip, mac, first, ghosts);
    law_what_the_gates_say(w, ip, mac, second, ghosts);
    dwell::law_observed_is_held(v.dwell, net::subnet_key(ip), mac, first);
}

/// A first failure is followed by a wait of a minute, each further one by twice the wait
/// before it, and none is longer than ten minutes.
pub proof fn law_how_long_a_failure_waits(last: Option<Cooldown>)
    ensures
        last is None ==> next_backoff(last) == 60,
        last matches Some(c) ==> next_backoff(last) == if c.backoff <= 300 {
            2 * c.backoff
        } else {
            600
        },
{
}

/// A wait runs for its seconds from now, and for its own subnet alone.
pub proof fn law_a_wait_runs_out(
    m: Map<Seq<char>, Cooldown>,
    subnet: Seq<char>,
    other: Seq<char>,
    now: Instant,
    backoff: u64,
    later: Instant,
)
    requires
        in_range(now),
        backoff <= COOLDOWN_MAX,
        other != subnet,
    ensures
        ({
            let w = m.insert(subnet, wait_from(now, backoff));
            &&& waiting(w, subnet, later) <==> later.nanos < now.nanos + backoff * 1_000_000_000
            &&& wait_of(w, subnet) matches Some(c) && c.backoff == backoff
            &&& waiting(w, other, later) == waiting(m, other, later)
            &&& !waiting(m.remove(subnet), subnet, later)
        }),
{
}

/// How an attempt ends decides what follows: a failure is rolled back and waits, an
/// address is recorded unless the stop came first, and nothing to bind goes on or stops.
pub proof fn law_what_follows_an_attempt(
    v: LoopView,
    subnet: Seq<char>,
    ip: Ipv4Addr,
    shutdown: bool,
)
    ensures
        attempted(v, subnet, AdoptOutcome::Adopted(ip), false) == AfterAttempt::Recorded(ip),
        attempted(v, subnet, AdoptOutcome::Adopted(ip), true) == AfterAttempt::RollBackAndStop,
        attempted(v, subnet, AdoptOutcome::Nothing, false) == AfterAttempt::GoOn,
        attempted(v, subnet, AdoptOutcome::Nothing, true) == AfterAttempt::Stop,
        attempted(v, subnet, AdoptOutcome::Failed, shutdown) == attempted(
            v,
            subnet,
            AdoptOutcome::TimedOut,
            !shutdown,
        ),
        attempted(v, subnet, AdoptOutcome::Failed, shutdown) matches AfterAttempt::RollBack {
            retry_in,
        } && (!v.cooldowns.contains_key(subnet) ==> retry_in == 60) && (v.cooldowns.contains_key(
            subnet,
        ) && v.cooldowns[subnet].backoff <= 300 ==> retry_in == 2 * v.cooldowns[subnet].backoff)
            && retry_in <= 600,
{
}

/// The end of an attempt settles its own subnet: an adopted one is known and waits for
/// nothing, a failed one waits and is not known. Other subnets, ghosts and removals stay
/// as they were.
pub proof fn law_an_attempt_settles_its_own_subnet(
    v: LoopView,
    subnet: Seq<char>,
    outcome: AdoptOutcome,
    shutdown: bool,
    now: Instant,
    other: Seq<char>,
    mac: Seq<char>,
    later: Instant,
)
    requires
        in_range(now),
        other != subnet,
        outcome is Adopted ==> !shutdown,
        v.cooldowns.contains_key(subnet) ==> v.cooldowns[subnet].backoff > 0,
    ensures
        ({
            let w = after_attempt(v, subnet, outcome, shutdown, now);
            &&& if outcome is Failed || outcome is TimedOut {
                &&& w.known == v.known
                &&& waiting(w.cooldowns, subnet, now)
                &&& !waiting(
                    w.cooldowns,
                    subnet,
                    Instant { nanos: (now.nanos + 600_000_000_000) as u128 },
                )
            } else {
                &&& w.known.contains(subnet)
                &&& !w.cooldowns.contains_key(subnet)
                &&& w.known.contains(other) == v.known.contains(other)
            }
            &&& waiting(w.cooldowns, other, later) == waiting(v.cooldowns, other, later)
            &&& wait_of(w.cooldowns, other) == wait_of(v.cooldowns, other)
            &&& dwell::held(w.dwell, other, mac) == dwell::held(v.dwell, other, mac)
            &&& !(outcome is Nothing && shutdown) ==> dwell::held(w.dwell, subnet, mac) is None
            &&& w.reap_cooldowns == v.reap_cooldowns
            &&& w.ghost_until == v.ghost_until
            &&& w.invalid_warned == v.invalid_warned
        }),
{
    dwell::law_observations_are_apart(v.dwell, subnet, mac, mac, other, mac);
    dwell::law_pruned_subnet_starts_over(v.dwell, subnet, mac, mac);
}

/// An adoption is due for removal exactly when its key names a link-local /24, nobody was
/// sighted on it for half an hour or, with no sighting, the session is ten minutes old,
/// and no earlier try holds it off. A key that does not parse is never removed, and is
/// reported once.
pub proof fn law_what_is_due(
    v: LoopView,
    ip: Ipv4Addr,
    bad: Seq<char>,
    last_positive: Option<Duration>,
    session_elapsed: Duration,
    now: Instant,
)
    requires
        forall|x: Ipv4Addr| #[trigger] net::subnet_key(x) != bad,
    ensures
        ({
            let key = net::subnet_key(ip);
            let gone = ip.a == 169 && ip.b == 254 && match last_positive {
                Some(e) => e.nanos >= 1_800_000_000_000,
                None => session_elapsed.nanos >= 600_000_000_000,
            };
            let held = v.reap_cooldowns.contains_key(key) && now.nanos
                < v.reap_cooldowns[key].retry_at.nanos;
            let r = screened(v, key, last_positive, session_elapsed, now);
            &&& r == ReapScreen::Due <==> gone && !held
            &&& r == ReapScreen::Cooling <==> gone && held
            &&& r == ReapScreen::Keep <==> !gone
            &&& screened(v, bad, last_positive, session_elapsed, now) == (ReapScreen::BadKey {
                first: !v.invalid_warned.contains(bad),
            })
        }),
{
    net::law_key_address(ip);
    net::law_only_subnet_keys_are_read(bad);
    if let Some(x) = net::key_address(bad) {
        assert(net::subnet_key(x) == bad);
    }
}

/// An adoption that is due is unbound, unless a pin or the host's rescue holds it, or its
/// address is the adapter's first one.
pub proof fn law_what_is_unbound(
    d: ReapDecision,
    input: LifecycleInput,
    ip: Ipv4Addr,
    adapter_ips: Seq<Seq<char>>,
)
    requires
        is_reap_decision(d, input, ip, adapter_ips),
        reaper::verdict(LifecycleInput { pinned: false, host_rescued: false, ..input })
            == ReapVerdict::Reap,
    ensures
        ({
            let first = adapter_ips.len() > 0 && adapter_ips[0] == net::dotted(ip);
            &&& d is Held <==> input.pinned || input.host_rescued
            &&& d is Blocked <==> !input.pinned && !input.host_rescued && first
            &&& d is Unbind <==> !input.pinned && !input.host_rescued && !first
        }),
{
    lifecycle::law_only_the_first_address_stays(net::dotted(ip), adapter_ips);
}

/// What is known of an adoption at the first look is its key, its sightings and the
/// session, with nothing that holds it.
pub proof fn law_the_first_look_holds_nothing(
    ip: Ipv4Addr,
    last_positive: Option<Duration>,
    session_elapsed: Duration,
)
    ensures
        ({
            let input = bare_input(net::subnet_key(ip), last_positive, session_elapsed);
            &&& input.subnet matches Some(n) && n.a == ip.a && n.b == ip.b && n.c == ip.c
            &&& input.last_positive_elapsed == last_positive
            &&& input.session_elapsed == session_elapsed
            &&& !input.pinned
            &&& !input.host_rescued
        }),
{
    net::law_key_address(ip);
}

/// Forgetting a removed adoption forgets its own subnet alone: what is known, waited for
/// or heard of others stays, and so do the waits after failed adoptions.
pub proof fn law_removal_forgets_its_own_subnet(
    v: LoopView,
    subnet: Seq<char>,
    other: Seq<char>,
    mac: Seq<char>,
)
    requires
        other != subnet,
    ensures
        ({
            let w = after_reap(v, subnet);
            &&& !w.known.contains(subnet)
            &&& w.known.contains(other) == v.known.contains(other)
            &&& dwell::held(w.dwell, subnet, mac) is None
            &&& dwell::held(w.dwell, other, mac) == dwell::held(v.dwell, other, mac)
            &&& !w.reap_cooldowns.contains_key(subnet)
            &&& wait_of(w.reap_cooldowns, other) == wait_of(v.reap_cooldowns, other)
            &&& w.cooldowns == v.cooldowns
            &&& w.ghost_until == v.ghost_until
            &&& w.invalid_warned == v.invalid_warned
        }),
{
    dwell::law_observations_are_apart(v.dwell, subnet, mac, mac, other, mac);
    dwell::law_pruned_subnet_starts_over(v.dwell, subnet, mac, mac);
}

/// A new session knows the /24s of the adapter's addresses and nothing more: no wait, no
/// ghost, no observation.
pub proof fn law_a_session_starts_with_the_adapters_subnets(ips: Seq<IpInfo>, k: Seq<char>)
    ensures
        ({
            let v = fresh_loop(subnets_of(ips));
            &&& v.known.contains(k) <==> exists|i: int, x: Ipv4Addr|
                0 <= i < ips.len() && (#[trigger] ips[i]).address@ == #[trigger] net::dotted(x) && k
                    == net::subnet_key(x)
            &&& v.cooldowns == Map::<Seq<char>, Cooldown>::empty()
            &&& v.reap_cooldowns == Map::<Seq<char>, Cooldown>::empty()
            &&& v.ghost_until == Map::<Seq<char>, Instant>::empty()
            &&& v.dwell.len() == 0
        }),
{
    if subnets_of(ips).contains(k) {
        let i = choose|i: int|
            0 <= i < ips.len() && net::is_dotted((#[trigger] ips[i]).address@) && k
                == net::subnet_key(net::parsed(ips[i].address@)->0);
        let x = net::parsed(ips[i].address@)->0;
        assert(ips[i].address@ == net::dotted(x));
    }
    if exists|i: int, x: Ipv4Addr|
        0 <= i < ips.len() && (#[trigger] ips[i]).address@ == #[trigger] net::dotted(x) && k
            == net::subnet_key(x) {
        let (i, x) = choose|i: int, x: Ipv4Addr|
            0 <= i < ips.len() && (#[trigger] ips[i]).address@ == #[trigger] net::dotted(x) && k
                == net::subnet_key(x);
        net::law_parse_of_text(x);
        assert(net::is_dotted(ips[i].address@));
    }
}

/// What a session remembers is shown as it is.
pub proof fn law_what_a_session_shows(l: AdoptLoop)
    ensures
        l@.known == l.known@,
        l@.dwell == l.dwell@,
        l@.cooldowns == l.cooldowns@,
        l@.reap_cooldowns == l.reap_cooldowns@,
        l@.invalid_warned == l.invalid_warned@,
        l@.ghost_until == l.ghost_until@,
{
}

} // verus!
