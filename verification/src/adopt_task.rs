//! The task of a discovery session that gives stale adoptions up and adopts foreign
//! subnets, step by step.
//!
//! Each tick first looks through the adoptions, which goes on while new ones pause. Then
//! come the devices heard, unless the adapter has a lease. The task asks for one piece
//! of work at a time and is told how it went.

use crate::adoptions;
use crate::adoptions::Adoptions;
use crate::arp::{ArpDevice, ArpView};
use crate::auto_adopt;
use crate::auto_adopt::{PendingIps, PendingView};
use crate::device_registry::{DeviceRegistry, RecordView};
use crate::discovery;
use crate::discovery::{
    AdoptLoop, AdoptOutcome, AfterAttempt, Attempt, DeviceGate, LoopView, ReapDecision, ReapScreen,
};
use crate::dwell;
use crate::interface::IpInfo;
use crate::lifecycle;
use crate::net;
use crate::net::{Ipv4Addr, Ipv4Network};
use crate::reaper;
use crate::reaper::{LifecycleInput, ReapVerdict};
use crate::session;
use crate::session::{DhcpGate, GhostCache};
use crate::text;
use crate::textmap::{TextMap, TextSet};
use crate::time::{Duration, Instant};
use vstd::prelude::*;

verus! {

/// What the task remembers between its steps, but for where it stands.
struct Memory {
    known: AdoptLoop,
    dhcp: DhcpGate,
    ghosts: GhostCache,
    started: Instant,
    iface: String,
}

/// What the task remembers, as text.
#[verifier::ext_equal]
pub struct MemoryView {
    pub known: LoopView,
    pub dhcp: Option<(bool, Instant)>,
    pub ghosts_at: Option<Instant>,
    pub ghosts: Seq<Ipv4Network>,
    pub started: Instant,
    pub iface: Seq<char>,
}

impl View for Memory {
    type V = MemoryView;

    closed spec fn view(&self) -> MemoryView {
        MemoryView {
            known: self.known@,
            dhcp: self.dhcp.cached,
            ghosts_at: self.ghosts.read_at,
            ghosts: self.ghosts.networks@,
            started: self.started,
            iface: self.iface@,
        }
    }
}

/// Where the task stands.
enum Phase {
    Idle,
    /// About to look at adoption `at`.
    Reaping { list: Vec<(String, Ipv4Addr)>, at: usize },
    /// Waiting for what could hold adoption `at`.
    Vetoes {
        list: Vec<(String, Ipv4Addr)>,
        at: usize,
        last: Option<Duration>,
        elapsed: Duration,
    },
    /// Waiting for the address of adoption `at` to be unbound.
    Unbinding { list: Vec<(String, Ipv4Addr)>, at: usize },
    /// Waiting for a reading of the DHCP state.
    Dhcp,
    /// Waiting for the adapter's addresses, one of which may be a lease.
    Leases,
    /// About to look at device `at`.
    Devices { heard: Vec<ArpDevice>, at: usize },
    /// Waiting for the adapter's addresses, for device `at`.
    Addresses { heard: Vec<ArpDevice>, at: usize, ip: Ipv4Addr },
    /// Waiting for the ghost networks, for device `at`.
    Networks { heard: Vec<ArpDevice>, at: usize, ip: Ipv4Addr, current: Vec<Ipv4Addr> },
    /// Waiting for the end of an adoption, for device `at`.
    Adopting { heard: Vec<ArpDevice>, at: usize, attempt: Attempt },
    Over,
}

/// Where the task stands, as text.
pub enum PhaseView {
    Idle,
    Reaping { list: Seq<(Seq<char>, Ipv4Addr)>, at: int },
    Vetoes {
        list: Seq<(Seq<char>, Ipv4Addr)>,
        at: int,
        last: Option<Duration>,
        elapsed: Duration,
    },
    Unbinding { list: Seq<(Seq<char>, Ipv4Addr)>, at: int },
    Dhcp,
    Leases,
    Devices { heard: Seq<ArpView>, at: int },
    Addresses { heard: Seq<ArpView>, at: int, ip: Ipv4Addr },
    Networks { heard: Seq<ArpView>, at: int, ip: Ipv4Addr, current: Seq<Ipv4Addr> },
    Adopting { heard: Seq<ArpView>, at: int, subnet: Seq<char>, iface: Seq<char>, id: u64 },
    Over,
}

spec fn phase_view(p: Phase) -> PhaseView {
    match p {
        Phase::Idle => PhaseView::Idle,
        Phase::Reaping { list, at } => PhaseView::Reaping {
            list: adoptions::targets_view(list@),
            at: at as int,
        },
        Phase::Vetoes { list, at, last, elapsed } => PhaseView::Vetoes {
            list: adoptions::targets_view(list@),
            at: at as int,
            last,
            elapsed,
        },
        Phase::Unbinding { list, at } => PhaseView::Unbinding {
            list: adoptions::targets_view(list@),
            at: at as int,
        },
        Phase::Dhcp => PhaseView::Dhcp,
        Phase::Leases => PhaseView::Leases,
        Phase::Devices { heard: list, at } => PhaseView::Devices { heard: text::views(list@), at: at as int },
        Phase::Addresses { heard: list, at, ip } => PhaseView::Addresses {
            heard: text::views(list@),
            at: at as int,
            ip,
        },
        Phase::Networks { heard: list, at, ip, current } => PhaseView::Networks {
            heard: text::views(list@),
            at: at as int,
            ip,
            current: current@,
        },
        Phase::Adopting { heard: list, at, attempt } => PhaseView::Adopting {
            heard: text::views(list@),
            at: at as int,
            subnet: attempt.subnet@,
            iface: attempt.iface@,
            id: attempt.adoption_id,
        },
        Phase::Over => PhaseView::Over,
    }
}

/// What holds of every phase that the task can be in: the place is one of the list, the
/// device there has the address that the phase is about, and an adoption is one of a
/// subnet that the adapter was not on.
pub open spec fn phase_ok(p: PhaseView) -> bool {
    match p {
        PhaseView::Reaping { list, at } => 0 <= at <= list.len(),
        PhaseView::Vetoes { list, at, .. } => 0 <= at < list.len(),
        PhaseView::Unbinding { list, at } => 0 <= at < list.len(),
        PhaseView::Devices { heard, at } => 0 <= at <= heard.len(),
        PhaseView::Addresses { heard, at, ip } => 0 <= at < heard.len() && net::parsed(
            heard[at].ip,
        ) == Some(ip),
        PhaseView::Networks { heard, at, ip, current } => 0 <= at < heard.len() && net::parsed(
            heard[at].ip,
        ) == Some(ip) && !auto_adopt::on_subnet(ip, current),
        PhaseView::Adopting { heard, at, subnet, .. } => 0 <= at < heard.len() && (net::parsed(
            heard[at].ip,
        ) matches Some(ip) && subnet == net::subnet_key(ip)),
        _ => true,
    }
}

/// The task.
pub struct AdoptTask {
    memory: Memory,
    phase: Phase,
}

/// The task, as text.
#[verifier::ext_equal]
pub struct TaskView {
    pub memory: MemoryView,
    pub phase: PhaseView,
}

impl View for AdoptTask {
    type V = TaskView;

    closed spec fn view(&self) -> TaskView {
        TaskView { memory: self.memory@, phase: phase_view(self.phase) }
    }
}

/// How the work went.
pub enum TaskEvent {
    /// The pause between two ticks is over, or a stop was signalled.
    Tick,
    /// Nothing was to be done.
    Next,
    /// What could hold an adoption: the configured pins, and the adapter's addresses.
    Vetoes { pins: TextSet, ips: Vec<IpInfo> },
    /// Whether the address was unbound.
    Unbound(bool),
    /// The DHCP state, if it could be read.
    Dhcp(Option<bool>),
    /// The adapter's addresses.
    Addresses(Vec<Ipv4Addr>),
    /// The ghost networks.
    Networks(Vec<Ipv4Network>),
    /// How the adoption ended.
    Ended(AdoptOutcome),
}

/// How the work went, as text.
pub enum EventView {
    Tick,
    Next,
    Vetoes { pins: Set<Seq<char>>, ips: Seq<IpInfo> },
    Unbound(bool),
    Dhcp(Option<bool>),
    Addresses(Seq<Ipv4Addr>),
    Networks(Seq<Ipv4Network>),
    Ended(AdoptOutcome),
}

impl View for TaskEvent {
    type V = EventView;

    open spec fn view(&self) -> EventView {
        match self {
            TaskEvent::Tick => EventView::Tick,
            TaskEvent::Next => EventView::Next,
            TaskEvent::Vetoes { pins, ips } => EventView::Vetoes { pins: pins@, ips: ips@ },
            TaskEvent::Unbound(b) => EventView::Unbound(*b),
            TaskEvent::Dhcp(d) => EventView::Dhcp(*d),
            TaskEvent::Addresses(a) => EventView::Addresses(a@),
            TaskEvent::Networks(n) => EventView::Networks(n@),
            TaskEvent::Ended(o) => EventView::Ended(*o),
        }
    }
}

/// Work that the task asks for.
pub enum TaskAction {
    /// Wait for the next tick.
    Wait,
    /// Nothing: go on.
    Proceed,
    /// Read what could hold an adoption.
    ReadVetoes,
    /// Unbind the address.
    Unbind { ip: Ipv4Addr },
    /// The adoption is forgotten: write that to disk, tell of it, and go on.
    Forgotten { subnet: String, ip: Ipv4Addr },
    /// Read the DHCP state.
    ReadDhcp,
    /// Read the adapter's addresses.
    ReadAddresses,
    /// Read the ghost networks.
    ReadNetworks,
    /// Adopt the subnet of a device.
    Adopt { device_ip: Ipv4Addr, current: Vec<Ipv4Addr>, adoption_id: u64 },
    /// Unbind what the adoption left bound, and go on; the next try comes in so many
    /// seconds.
    RollBack { subnet: String, adoption_id: u64, retry_in: u64 },
    /// Unbind what the adoption bound, and end.
    RollBackAndStop { adoption_id: u64 },
    /// The adoption is recorded: write it to disk, tell of it, and go on.
    Announce { subnet: String, ip: Ipv4Addr },
    /// End.
    Stop,
}

/// Work that the task asks for, as text.
pub enum TaskMove {
    Wait,
    Proceed,
    ReadVetoes,
    Unbind { ip: Ipv4Addr },
    Forgotten { subnet: Seq<char>, ip: Ipv4Addr },
    ReadDhcp,
    ReadAddresses,
    ReadNetworks,
    Adopt { device_ip: Ipv4Addr, current: Seq<Ipv4Addr>, adoption_id: u64 },
    RollBack { subnet: Seq<char>, adoption_id: u64, retry_in: u64 },
    RollBackAndStop { adoption_id: u64 },
    Announce { subnet: Seq<char>, ip: Ipv4Addr },
    Stop,
}

impl View for TaskAction {
    type V = TaskMove;

    open spec fn view(&self) -> TaskMove {
        match self {
            TaskAction::Wait => TaskMove::Wait,
            TaskAction::Proceed => TaskMove::Proceed,
            TaskAction::ReadVetoes => TaskMove::ReadVetoes,
            TaskAction::Unbind { ip } => TaskMove::Unbind { ip: *ip },
            TaskAction::Forgotten { subnet, ip } => TaskMove::Forgotten { subnet: subnet@, ip: *ip },
            TaskAction::ReadDhcp => TaskMove::ReadDhcp,
            TaskAction::ReadAddresses => TaskMove::ReadAddresses,
            TaskAction::ReadNetworks => TaskMove::ReadNetworks,
            TaskAction::Adopt { device_ip, current, adoption_id } => TaskMove::Adopt {
                device_ip: *device_ip,
                current: current@,
                adoption_id: *adoption_id,
            },
            TaskAction::RollBack { subnet, adoption_id, retry_in } => TaskMove::RollBack {
                subnet: subnet@,
                adoption_id: *adoption_id,
                retry_in: *retry_in,
            },
            TaskAction::RollBackAndStop { adoption_id } => TaskMove::RollBackAndStop {
                adoption_id: *adoption_id,
            },
            TaskAction::Announce { subnet, ip } => TaskMove::Announce { subnet: subnet@, ip: *ip },
            TaskAction::Stop => TaskMove::Stop,
        }
    }
}

/// What the task sees of the rest of the program.
pub struct World {
    pub adopted: Seq<(Seq<char>, Ipv4Addr)>,
    pub adopted_map: Map<Seq<char>, Ipv4Addr>,
    pub liveness: Map<Seq<char>, Instant>,
    pub pending: Seq<PendingView>,
    pub devices: Seq<ArpView>,
    pub records: Seq<RecordView>,
    pub shutdown: bool,
    pub now: Instant,
    /// The id of the next adoption.
    pub fresh_id: u64,
}

/// The devices heard, in order of arrival.
pub open spec fn devices_heard(m: TextMap<ArpDevice>) -> Seq<ArpView> {
    m.entries().map_values(|e: (Seq<char>, ArpDevice)| e.1@)
}

/// Whether an event is one that the phase waits for.
pub open spec fn fits(p: PhaseView, e: EventView) -> bool {
    match p {
        PhaseView::Idle => e is Tick,
        PhaseView::Reaping { .. } => e is Next,
        PhaseView::Vetoes { .. } => e is Vetoes,
        PhaseView::Unbinding { .. } => e is Unbound,
        PhaseView::Dhcp => e is Dhcp,
        PhaseView::Leases => e is Addresses,
        PhaseView::Devices { .. } => e is Next,
        PhaseView::Addresses { .. } => e is Addresses,
        PhaseView::Networks { .. } => e is Networks,
        PhaseView::Adopting { .. } => e is Ended,
        PhaseView::Over => false,
    }
}

/// On with the devices.
pub open spec fn to_devices(m: MemoryView, w: World) -> (TaskView, TaskMove) {
    (
        TaskView { memory: m, phase: PhaseView::Devices { heard: w.devices, at: 0 } },
        TaskMove::Proceed,
    )
}

/// On with the devices, or first with a look for a lease.
pub open spec fn with_dhcp(m: MemoryView, dhcp: bool, w: World) -> (TaskView, TaskMove) {
    if dhcp {
        (TaskView { memory: m, phase: PhaseView::Leases }, TaskMove::ReadAddresses)
    } else {
        to_devices(m, w)
    }
}

/// The end of the look through the adoptions.
pub open spec fn after_reaping(m: MemoryView, w: World) -> (TaskView, TaskMove) {
    match session::good_reading(m.dhcp, w.now) {
        Some(dhcp) => with_dhcp(m, dhcp, w),
        None => (TaskView { memory: m, phase: PhaseView::Dhcp }, TaskMove::ReadDhcp),
    }
}

/// The first look at adoption `at`.
pub open spec fn look_at_adoption(
    m: MemoryView,
    list: Seq<(Seq<char>, Ipv4Addr)>,
    at: int,
    w: World,
) -> (TaskView, TaskMove) {
    if at >= list.len() {
        after_reaping(m, w)
    } else {
        let subnet = list[at].0;
        let last = adoptions::last_heard(w.liveness, subnet, w.now);
        let elapsed = w.now.since_spec(m.started);
        let next = PhaseView::Reaping { list, at: at + 1 };
        match discovery::screened(m.known, subnet, last, elapsed, w.now) {
            ReapScreen::Due => (
                TaskView { memory: m, phase: PhaseView::Vetoes { list, at, last, elapsed } },
                TaskMove::ReadVetoes,
            ),
            ReapScreen::BadKey { .. } => (
                TaskView {
                    memory: MemoryView {
                        known: LoopView {
                            invalid_warned: m.known.invalid_warned.insert(subnet),
                            ..m.known
                        },
                        ..m
                    },
                    phase: next,
                },
                TaskMove::Proceed,
            ),
            _ => (TaskView { memory: m, phase: next }, TaskMove::Proceed),
        }
    }
}

/// The addresses of adoptions.
pub open spec fn bound_addresses(list: Seq<(Seq<char>, Ipv4Addr)>) -> Seq<Ipv4Addr> {
    list.map_values(|e: (Seq<char>, Ipv4Addr)| e.1)
}

/// The addresses as they are written.
pub open spec fn address_texts(ips: Seq<IpInfo>) -> Seq<Seq<char>> {
    ips.map_values(|i: IpInfo| i.address@)
}

/// The evidence on an adoption, now that everything that could hold it is read.
pub open spec fn full_input(
    subnet: Seq<char>,
    last: Option<Duration>,
    elapsed: Duration,
    list: Seq<(Seq<char>, Ipv4Addr)>,
    pins: Set<Seq<char>>,
    ips: Seq<IpInfo>,
    w: World,
) -> LifecycleInput {
    LifecycleInput {
        pinned: session::holds_pin(w.records, pins, subnet),
        host_rescued: lifecycle::rescued(
            session::addresses_of(ips),
            bound_addresses(list),
            auto_adopt::pending_addresses(w.pending),
        ),
        ..discovery::bare_input(subnet, last, elapsed)
    }
}

/// The decision on adoption `at`.
pub open spec fn decide_on_adoption(
    m: MemoryView,
    list: Seq<(Seq<char>, Ipv4Addr)>,
    at: int,
    last: Option<Duration>,
    elapsed: Duration,
    pins: Set<Seq<char>>,
    ips: Seq<IpInfo>,
    w: World,
) -> (TaskView, TaskMove) {
    let (subnet, ip) = list[at];
    let input = full_input(subnet, last, elapsed, list, pins, ips, w);
    let next = PhaseView::Reaping { list, at: at + 1 };
    if reaper::verdict(input) != ReapVerdict::Reap {
        (TaskView { memory: m, phase: next }, TaskMove::Proceed)
    } else if lifecycle::unbind_block(net::dotted(ip), address_texts(ips)) is Some {
        (
            TaskView {
                memory: MemoryView {
                    known: LoopView {
                        reap_cooldowns: m.known.reap_cooldowns.insert(
                            subnet,
                            discovery::wait_from(w.now, discovery::COOLDOWN_INITIAL),
                        ),
                        ..m.known
                    },
                    ..m
                },
                phase: next,
            },
            TaskMove::Proceed,
        )
    } else {
        (
            TaskView { memory: m, phase: PhaseView::Unbinding { list, at } },
            TaskMove::Unbind { ip },
        )
    }
}

/// The end of a removal.
pub open spec fn end_removal(
    m: MemoryView,
    list: Seq<(Seq<char>, Ipv4Addr)>,
    at: int,
    unbound: bool,
    w: World,
) -> (TaskView, TaskMove) {
    let (subnet, ip) = list[at];
    let next = PhaseView::Reaping { list, at: at + 1 };
    if unbound {
        (
            TaskView {
                memory: MemoryView { known: discovery::after_reap(m.known, subnet), ..m },
                phase: next,
            },
            TaskMove::Forgotten { subnet, ip },
        )
    } else {
        let wait = discovery::next_backoff(discovery::wait_of(m.known.reap_cooldowns, subnet));
        (
            TaskView {
                memory: MemoryView {
                    known: LoopView {
                        reap_cooldowns: m.known.reap_cooldowns.insert(
                            subnet,
                            discovery::wait_from(w.now, wait),
                        ),
                        ..m.known
                    },
                    ..m
                },
                phase: next,
            },
            TaskMove::Proceed,
        )
    }
}

/// The first look at device `at`.
pub open spec fn look_at_device(m: MemoryView, list: Seq<ArpView>, at: int, w: World) -> (
    TaskView,
    TaskMove,
) {
    if w.shutdown {
        (TaskView { memory: m, phase: PhaseView::Over }, TaskMove::Stop)
    } else if at >= list.len() {
        (TaskView { memory: m, phase: PhaseView::Idle }, TaskMove::Wait)
    } else {
        let text = list[at].ip;
        let known = discovery::after_look(m.known, text, w.adopted_map);
        let after = MemoryView { known, ..m };
        if discovery::worth_a_look(m.known, text, w.adopted_map) {
            (
                TaskView {
                    memory: after,
                    phase: PhaseView::Addresses { heard: list, at, ip: net::parsed(text)->0 },
                },
                TaskMove::ReadAddresses,
            )
        } else {
            (
                TaskView { memory: after, phase: PhaseView::Devices { heard: list, at: at + 1 } },
                TaskMove::Proceed,
            )
        }
    }
}

/// The last look at device `at`.
pub open spec fn gate_device(
    m: MemoryView,
    list: Seq<ArpView>,
    at: int,
    ip: Ipv4Addr,
    current: Seq<Ipv4Addr>,
    w: World,
) -> (TaskView, TaskMove) {
    let d = list[at];
    let after = MemoryView {
        known: discovery::after_gate(m.known, ip, d.mac, d.last_seen, m.ghosts, w.now),
        ..m
    };
    if discovery::gated(m.known, ip, d.mac, d.last_seen, m.ghosts) == DeviceGate::Adopt {
        (
            TaskView {
                memory: after,
                phase: PhaseView::Adopting {
                    heard: list,
                    at,
                    subnet: net::subnet_key(ip),
                    iface: m.iface,
                    id: w.fresh_id,
                },
            },
            TaskMove::Adopt { device_ip: ip, current, adoption_id: w.fresh_id },
        )
    } else {
        (
            TaskView { memory: after, phase: PhaseView::Devices { heard: list, at: at + 1 } },
            TaskMove::Proceed,
        )
    }
}

/// The second look at device `at`, with the adapter's addresses.
pub open spec fn screen_device(
    m: MemoryView,
    list: Seq<ArpView>,
    at: int,
    ip: Ipv4Addr,
    current: Seq<Ipv4Addr>,
    w: World,
) -> (TaskView, TaskMove) {
    let after = MemoryView { known: discovery::after_screen(m.known, ip, current), ..m };
    if !discovery::may_proceed(m.known, ip, current, w.now) {
        (
            TaskView { memory: after, phase: PhaseView::Devices { heard: list, at: at + 1 } },
            TaskMove::Proceed,
        )
    } else if session::good_list(m.ghosts_at, w.now) {
        gate_device(after, list, at, ip, current, w)
    } else {
        (
            TaskView { memory: after, phase: PhaseView::Networks { heard: list, at, ip, current } },
            TaskMove::ReadNetworks,
        )
    }
}

/// The end of an adoption.
pub open spec fn end_adoption(
    m: MemoryView,
    list: Seq<ArpView>,
    at: int,
    subnet: Seq<char>,
    id: u64,
    outcome: AdoptOutcome,
    w: World,
) -> (TaskView, TaskMove) {
    let after = MemoryView {
        known: discovery::after_attempt(m.known, subnet, outcome, w.shutdown, w.now),
        ..m
    };
    let next = TaskView { memory: after, phase: PhaseView::Devices { heard: list, at: at + 1 } };
    let over = TaskView { memory: after, phase: PhaseView::Over };
    match discovery::attempted(m.known, subnet, outcome, w.shutdown) {
        AfterAttempt::RollBack { retry_in } => (
            next,
            TaskMove::RollBack { subnet, adoption_id: id, retry_in },
        ),
        AfterAttempt::RollBackAndStop => (over, TaskMove::RollBackAndStop { adoption_id: id }),
        AfterAttempt::Recorded(ip) => (next, TaskMove::Announce { subnet, ip }),
        AfterAttempt::GoOn => (next, TaskMove::Proceed),
        AfterAttempt::Stop => (over, TaskMove::Stop),
    }
}

/// What follows an event: where the task stands then, and the work that it asks for.
pub open spec fn task_next(v: TaskView, e: EventView, w: World) -> (TaskView, TaskMove) {
    let m = v.memory;
    match (v.phase, e) {
        (PhaseView::Idle, EventView::Tick) => if w.shutdown {
            (TaskView { memory: m, phase: PhaseView::Over }, TaskMove::Stop)
        } else {
            look_at_adoption(m, w.adopted, 0, w)
        },
        (PhaseView::Reaping { list, at }, EventView::Next) => look_at_adoption(m, list, at, w),
        (
            PhaseView::Vetoes { list, at, last, elapsed },
            EventView::Vetoes { pins, ips },
        ) => decide_on_adoption(m, list, at, last, elapsed, pins, ips, w),
        (PhaseView::Unbinding { list, at }, EventView::Unbound(unbound)) => end_removal(
            m,
            list,
            at,
            unbound,
            w,
        ),
        (PhaseView::Dhcp, EventView::Dhcp(reading)) => {
            let dhcp = reading == Some(true);
            with_dhcp(MemoryView { dhcp: Some((dhcp, w.now)), ..m }, dhcp, w)
        },
        (PhaseView::Leases, EventView::Addresses(ips)) => if session::has_lease(ips) {
            (TaskView { memory: m, phase: PhaseView::Idle }, TaskMove::Wait)
        } else {
            to_devices(m, w)
        },
        (PhaseView::Devices { heard: list, at }, EventView::Next) => look_at_device(m, list, at, w),
        (PhaseView::Addresses { heard: list, at, ip }, EventView::Addresses(ips)) => screen_device(
            m,
            list,
            at,
            ip,
            ips,
            w,
        ),
        (PhaseView::Networks { heard: list, at, ip, current }, EventView::Networks(nets)) => gate_device(
            MemoryView { ghosts_at: Some(w.now), ghosts: nets, ..m },
            list,
            at,
            ip,
            current,
            w,
        ),
        (PhaseView::Adopting { heard: list, at, subnet, id, .. }, EventView::Ended(outcome)) => end_adoption(
            m,
            list,
            at,
            subnet,
            id,
            outcome,
            w,
        ),
        _ => (v, TaskMove::Stop),
    }
}

fn list_adopted(adopted: &TextMap<Ipv4Addr>) -> (r: Vec<(String, Ipv4Addr)>)
    ensures
        adoptions::targets_view(r@) == adopted.entries(),
{
    let ghost all = adopted.entries();
    let n = adopted.len();
    let mut r: Vec<(String, Ipv4Addr)> = Vec::new();
    let mut i: usize = 0;
    assert(adoptions::targets_view(r@) =~= all.take(0));
    while i < n
        invariant
            i <= n,
            n == all.len(),
            all == adopted.entries(),
            adoptions::targets_view(r@) == all.take(i as int),
        decreases n - i,
    {
        let ghost before = r@;
        let key = adopted.key_at(i).clone();
        let ip = *adopted.value_at(i);
        proof {
            all.lemma_take_succ_push(i as int);
        }
        r.push((key, ip));
        assert(adoptions::targets_view(r@) =~= adoptions::targets_view(before).push((key@, ip)));
        i += 1;
    }
    assert(all.take(i as int) =~= all);
    r
}

fn list_devices(devices: &TextMap<ArpDevice>) -> (r: Vec<ArpDevice>)
    ensures
        text::views(r@) == devices_heard(*devices),
{
    let ghost all = devices_heard(*devices);
    let n = devices.len();
    let mut r: Vec<ArpDevice> = Vec::new();
    let mut i: usize = 0;
    assert(text::views(r@) =~= all.take(0));
    while i < n
        invariant
            i <= n,
            n == devices.entries().len(),
            all == devices_heard(*devices),
            text::views(r@) == all.take(i as int),
        decreases n - i,
    {
        let d = devices.value_at(i).clone();
        proof {
            all.lemma_take_succ_push(i as int);
            assert(all[i as int] == d@);
            text::lemma_views_push(r@, d);
        }
        r.push(d);
        i += 1;
    }
    assert(all.take(i as int) =~= all);
    r
}

fn list_bound(list: &Vec<(String, Ipv4Addr)>) -> (r: Vec<Ipv4Addr>)
    ensures
        r@ == bound_addresses(adoptions::targets_view(list@)),
{
    let ghost all = bound_addresses(adoptions::targets_view(list@));
    let mut r: Vec<Ipv4Addr> = Vec::new();
    let mut i: usize = 0;
    assert(r@ =~= all.take(0));
    while i < list.len()
        invariant
            i <= list.len(),
            all == bound_addresses(adoptions::targets_view(list@)),
            r@ == all.take(i as int),
        decreases list.len() - i,
    {
        proof {
            all.lemma_take_succ_push(i as int);
            assert(all[i as int] == list@[i as int].1);
        }
        r.push(list[i].1);
        i += 1;
    }
    assert(all.take(i as int) =~= all);
    r
}

fn list_texts(ips: &Vec<IpInfo>) -> (r: Vec<String>)
    ensures
        text::views(r@) == address_texts(ips@),
{
    let ghost all = address_texts(ips@);
    let mut r: Vec<String> = Vec::new();
    let mut i: usize = 0;
    assert(text::views(r@) =~= all.take(0));
    while i < ips.len()
        invariant
            i <= ips.len(),
            all == address_texts(ips@),
            text::views(r@) == all.take(i as int),
        decreases ips.len() - i,
    {
        let t = ips[i].address.clone();
        proof {
            all.lemma_take_succ_push(i as int);
            text::lemma_views_push(r@, t);
        }
        r.push(t);
        i += 1;
    }
    assert(all.take(i as int) =~= all);
    r
}

impl AdoptTask {
    #[verifier::type_invariant]
    spec fn valid(self) -> bool {
        phase_ok(phase_view(self.phase))
    }

    /// The task of a session that starts now, on an adapter with these addresses.
    pub fn new(iface: &str, ips: &Vec<IpInfo>, now: Instant) -> (r: AdoptTask)
        ensures
            r@ == (TaskView {
                memory: MemoryView {
                    known: discovery::fresh_loop(discovery::subnets_of(ips@)),
                    dhcp: None,
                    ghosts_at: None,
                    ghosts: Seq::empty(),
                    started: now,
                    iface: iface@,
                },
                phase: PhaseView::Idle,
            }),
    {
        let memory = Memory {
            known: AdoptLoop::new(ips),
            dhcp: DhcpGate::new(),
            ghosts: GhostCache::new(),
            started: now,
            iface: String::from_str(iface),
        };
        assert(memory@.ghosts =~= Seq::empty());
        AdoptTask { memory, phase: Phase::Idle }
    }

    fn devices_next(memory: Memory, devices: &TextMap<ArpDevice>, Ghost(w): Ghost<World>) -> (r: (
        AdoptTask,
        TaskAction,
    ))
        requires
            w.devices == devices_heard(*devices),
        ensures
            r.0@ == to_devices(memory@, w).0,
            r.1@ == to_devices(memory@, w).1,
    {
        let list = list_devices(devices);
        (AdoptTask { memory, phase: Phase::Devices { heard: list, at: 0 } }, TaskAction::Proceed)
    }

    fn dhcp_next(
        memory: Memory,
        dhcp: bool,
        devices: &TextMap<ArpDevice>,
        Ghost(w): Ghost<World>,
    ) -> (r: (AdoptTask, TaskAction))
        requires
            w.devices == devices_heard(*devices),
        ensures
            r.0@ == with_dhcp(memory@, dhcp, w).0,
            r.1@ == with_dhcp(memory@, dhcp, w).1,
    {
        if dhcp {
            (AdoptTask { memory, phase: Phase::Leases }, TaskAction::ReadAddresses)
        } else {
            Self::devices_next(memory, devices, Ghost(w))
        }
    }

    fn adoption_next(
        memory: Memory,
        list: Vec<(String, Ipv4Addr)>,
        at: usize,
        adoptions: &Adoptions,
        devices: &TextMap<ArpDevice>,
        now: Instant,
        Ghost(w): Ghost<World>,
    ) -> (r: (AdoptTask, TaskAction))
        requires
            at <= list@.len(),
            w.devices == devices_heard(*devices),
            w.liveness == adoptions.liveness@,
            w.now == now,
        ensures
            r.0@ == look_at_adoption(memory@, adoptions::targets_view(list@), at as int, w).0,
            r.1@ == look_at_adoption(memory@, adoptions::targets_view(list@), at as int, w).1,
    {
        let mut memory = memory;
        let ghost entries = adoptions::targets_view(list@);
        if at == list.len() {
            return match memory.dhcp.current(now) {
                Some(dhcp) => Self::dhcp_next(memory, dhcp, devices, Ghost(w)),
                None => (AdoptTask { memory, phase: Phase::Dhcp }, TaskAction::ReadDhcp),
            };
        }
        let subnet = &list[at].0;
        assert(entries[at as int].0 == subnet@);
        let last = match adoptions.liveness.get(subnet.as_str()) {
            Some(t) => Some(now.since(*t)),
            None => None,
        };
        let elapsed = now.since(memory.started);
        let screen = memory.known.reap_screen(subnet.as_str(), last, elapsed, now);
        match screen {
            ReapScreen::Due => (
                AdoptTask { memory, phase: Phase::Vetoes { list, at, last, elapsed } },
                TaskAction::ReadVetoes,
            ),
            _ => (
                AdoptTask { memory, phase: Phase::Reaping { list, at: at + 1 } },
                TaskAction::Proceed,
            ),
        }
    }

    fn decision_next(
        memory: Memory,
        list: Vec<(String, Ipv4Addr)>,
        at: usize,
        last: Option<Duration>,
        elapsed: Duration,
        pins: &TextSet,
        ips: &Vec<IpInfo>,
        pending: &PendingIps,
        registry: &DeviceRegistry,
        now: Instant,
        Ghost(w): Ghost<World>,
    ) -> (r: (AdoptTask, TaskAction))
        requires
            at < list@.len(),
            discovery::in_range(now),
            w.pending == pending@,
            w.records == registry@,
            w.now == now,
        ensures
            ({
                let t = decide_on_adoption(
                    memory@,
                    adoptions::targets_view(list@),
                    at as int,
                    last,
                    elapsed,
                    pins@,
                    ips@,
                    w,
                );
                r.0@ == t.0 && r.1@ == t.1
            }),
    {
        let mut memory = memory;
        let ghost entries = adoptions::targets_view(list@);
        let ip = list[at].1;
        assert(entries[at as int] == (list@[at as int].0@, ip));
        let pinned = session::is_subnet_pinned(registry, pins, list[at].0.as_str());
        let current = session::get_interface_ips(ips);
        let bound = list_bound(&list);
        let waiting = pending.addresses();
        let rescued = lifecycle::host_in_apipa_rescue(&current, &bound, &waiting);
        let texts = list_texts(ips);
        let d = memory.known.reap_decide(
            list[at].0.as_str(),
            ip,
            last,
            elapsed,
            pinned,
            rescued,
            &texts,
            now,
        );
        let _len: usize = list.len();
        match d {
            ReapDecision::Unbind => (
                AdoptTask { memory, phase: Phase::Unbinding { list, at } },
                TaskAction::Unbind { ip },
            ),
            _ => (
                AdoptTask { memory, phase: Phase::Reaping { list, at: at + 1 } },
                TaskAction::Proceed,
            ),
        }
    }

    fn removal_next(
        memory: Memory,
        list: Vec<(String, Ipv4Addr)>,
        at: usize,
        unbound: bool,
        adoptions: &mut Adoptions,
        now: Instant,
        Ghost(w): Ghost<World>,
    ) -> (r: (AdoptTask, TaskAction))
        requires
            at < list@.len(),
            discovery::in_range(now),
            w.now == now,
        ensures
            ({
                let entries = adoptions::targets_view(list@);
                let t = end_removal(memory@, entries, at as int, unbound, w);
                &&& r.0@ == t.0
                &&& r.1@ == t.1
                &&& unbound ==> adoptions::forgotten(
                    *old(adoptions),
                    *final(adoptions),
                    entries[at as int].0,
                )
                &&& !unbound ==> *final(adoptions) == *old(adoptions)
            }),
    {
        let mut memory = memory;
        let ghost entries = adoptions::targets_view(list@);
        let ip = list[at].1;
        assert(entries[at as int] == (list@[at as int].0@, ip));
        let subnet = list[at].0.clone();
        let _len: usize = list.len();
        let wait = memory.known.reap_ended(adoptions, subnet.as_str(), unbound, now);
        let task = AdoptTask { memory, phase: Phase::Reaping { list, at: at + 1 } };
        match wait {
            None => (task, TaskAction::Forgotten { subnet, ip }),
            Some(_) => (task, TaskAction::Proceed),
        }
    }

    fn device_next(
        memory: Memory,
        list: Vec<ArpDevice>,
        at: usize,
        adopted: &TextMap<Ipv4Addr>,
        shutdown: bool,
        Ghost(w): Ghost<World>,
    ) -> (r: (AdoptTask, TaskAction))
        requires
            at <= list@.len(),
            w.adopted_map == adopted@,
            w.shutdown == shutdown,
        ensures
            r.0@ == look_at_device(memory@, text::views(list@), at as int, w).0,
            r.1@ == look_at_device(memory@, text::views(list@), at as int, w).1,
    {
        let mut memory = memory;
        if shutdown {
            return (AdoptTask { memory, phase: Phase::Over }, TaskAction::Stop);
        }
        if at == list.len() {
            return (AdoptTask { memory, phase: Phase::Idle }, TaskAction::Wait);
        }
        assert(text::views(list@)[at as int] == list@[at as int]@);
        match memory.known.consider(list[at].ip.as_str(), adopted) {
            Some(ip) => (
                AdoptTask { memory, phase: Phase::Addresses { heard: list, at, ip } },
                TaskAction::ReadAddresses,
            ),
            None => (
                AdoptTask { memory, phase: Phase::Devices { heard: list, at: at + 1 } },
                TaskAction::Proceed,
            ),
        }
    }

    fn gate_next(
        memory: Memory,
        list: Vec<ArpDevice>,
        at: usize,
        ip: Ipv4Addr,
        current: Vec<Ipv4Addr>,
        now: Instant,
        fresh_id: u64,
        Ghost(w): Ghost<World>,
    ) -> (r: (AdoptTask, TaskAction))
        requires
            at < list@.len(),
            net::parsed(list@[at as int].ip@) == Some(ip),
            discovery::in_range(now),
            w.now == now,
            w.fresh_id == fresh_id,
        ensures
            r.0@ == gate_device(memory@, text::views(list@), at as int, ip, current@, w).0,
            r.1@ == gate_device(memory@, text::views(list@), at as int, ip, current@, w).1,
    {
        let mut memory = memory;
        assert(text::views(list@)[at as int] == list@[at as int]@);
        let gate = memory.known.gate(
            ip,
            list[at].mac.as_str(),
            list[at].last_seen.as_str(),
            &memory.ghosts.networks,
            now,
        );
        let _len: usize = list.len();
        match gate {
            DeviceGate::Adopt => {
                let attempt = Attempt {
                    iface: memory.iface.clone(),
                    subnet: net::subnet_key_for(ip),
                    adoption_id: fresh_id,
                };
                (
                    AdoptTask { memory, phase: Phase::Adopting { heard: list, at, attempt } },
                    TaskAction::Adopt { device_ip: ip, current, adoption_id: fresh_id },
                )
            },
            _ => (
                AdoptTask { memory, phase: Phase::Devices { heard: list, at: at + 1 } },
                TaskAction::Proceed,
            ),
        }
    }

    fn screen_next(
        memory: Memory,
        list: Vec<ArpDevice>,
        at: usize,
        ip: Ipv4Addr,
        current: Vec<Ipv4Addr>,
        now: Instant,
        fresh_id: u64,
        Ghost(w): Ghost<World>,
    ) -> (r: (AdoptTask, TaskAction))
        requires
            at < list@.len(),
            net::parsed(list@[at as int].ip@) == Some(ip),
            discovery::in_range(now),
            w.now == now,
            w.fresh_id == fresh_id,
        ensures
            r.0@ == screen_device(memory@, text::views(list@), at as int, ip, current@, w).0,
            r.1@ == screen_device(memory@, text::views(list@), at as int, ip, current@, w).1,
    {
        let mut memory = memory;
        let _len: usize = list.len();
        assert(text::views(list@)[at as int] == list@[at as int]@);
        if !memory.known.screen(ip, &current, now) {
            return (
                AdoptTask { memory, phase: Phase::Devices { heard: list, at: at + 1 } },
                TaskAction::Proceed,
            );
        }
        if memory.ghosts.is_fresh(now) {
            return Self::gate_next(memory, list, at, ip, current, now, fresh_id, Ghost(w));
        }
        (
            AdoptTask { memory, phase: Phase::Networks { heard: list, at, ip, current } },
            TaskAction::ReadNetworks,
        )
    }

    /// Takes note of how the work went and says what to do next. `fresh_id` is the id of
    /// the adoption that this may start.
    pub fn step(
        self,
        event: TaskEvent,
        adoptions: &mut Adoptions,
        pending: &mut PendingIps,
        devices: &TextMap<ArpDevice>,
        registry: &DeviceRegistry,
        shutdown: bool,
        now: Instant,
        wall_rfc3339: &str,
        fresh_id: u64,
    ) -> (r: (AdoptTask, TaskAction))
        requires
            fits(self@.phase, event@),
            discovery::in_range(now),
        ensures
            ({
                let w = world(
                    *old(adoptions),
                    old(pending)@,
                    *devices,
                    registry@,
                    shutdown,
                    now,
                    fresh_id,
                );
                &&& r.0@ == task_next(self@, event@, w).0
                &&& r.1@ == task_next(self@, event@, w).1
                &&& match r.1@ {
                    TaskMove::Forgotten { subnet, .. } => adoptions::forgotten(
                        *old(adoptions),
                        *final(adoptions),
                        subnet,
                    ) && final(pending)@ == old(pending)@,
                    TaskMove::Announce { subnet, ip } => adoptions::recorded(
                        *old(adoptions),
                        *final(adoptions),
                        subnet,
                        ip,
                        now,
                        wall_rfc3339@,
                    ) && final(pending)@ == auto_adopt::dropped(
                        old(pending)@,
                        own_entry(self@.phase, ip),
                    ),
                    _ => *final(adoptions) == *old(adoptions) && final(pending)@ == old(pending)@,
                }
            }),
    {
        proof {
            use_type_invariant(&self);
        }
        let ghost w = world(
            *adoptions,
            pending@,
            *devices,
            registry@,
            shutdown,
            now,
            fresh_id,
        );
        let AdoptTask { memory, phase } = self;
        proof {
            match &phase {
                Phase::Addresses { heard, at, .. } => {
                    assert(text::views(heard@)[*at as int] == heard@[*at as int]@);
                },
                Phase::Networks { heard, at, .. } => {
                    assert(text::views(heard@)[*at as int] == heard@[*at as int]@);
                },
                _ => {},
            }
        }
        match (phase, event) {
            (Phase::Idle, TaskEvent::Tick) => {
                if shutdown {
                    return (AdoptTask { memory, phase: Phase::Over }, TaskAction::Stop);
                }
                let list = list_adopted(&adoptions.adopted);
                Self::adoption_next(memory, list, 0, adoptions, devices, now, Ghost(w))
            },
            (Phase::Reaping { list, at }, TaskEvent::Next) => {
                Self::adoption_next(memory, list, at, adoptions, devices, now, Ghost(w))
            },
            (Phase::Vetoes { list, at, last, elapsed }, TaskEvent::Vetoes { pins, ips }) => {
                Self::decision_next(
                    memory,
                    list,
                    at,
                    last,
                    elapsed,
                    &pins,
                    &ips,
                    pending,
                    registry,
                    now,
                    Ghost(w),
                )
            },
            (Phase::Unbinding { list, at }, TaskEvent::Unbound(unbound)) => {
                Self::removal_next(memory, list, at, unbound, adoptions, now, Ghost(w))
            },
            (Phase::Dhcp, TaskEvent::Dhcp(reading)) => {
                let mut memory = memory;
                let dhcp = memory.dhcp.note(reading, now);
                Self::dhcp_next(memory, dhcp, devices, Ghost(w))
            },
            (Phase::Leases, TaskEvent::Addresses(ips)) => {
                if session::adoption_paused(true, &ips) {
                    (AdoptTask { memory, phase: Phase::Idle }, TaskAction::Wait)
                } else {
                    Self::devices_next(memory, devices, Ghost(w))
                }
            },
            (Phase::Devices { heard: list, at }, TaskEvent::Next) => {
                Self::device_next(memory, list, at, &adoptions.adopted, shutdown, Ghost(w))
            },
            (Phase::Addresses { heard: list, at, ip }, TaskEvent::Addresses(ips)) => {
                Self::screen_next(memory, list, at, ip, ips, now, fresh_id, Ghost(w))
            },
            (Phase::Networks { heard: list, at, ip, current }, TaskEvent::Networks(nets)) => {
                let mut memory = memory;
                memory.ghosts.note(nets, now);
                Self::gate_next(memory, list, at, ip, current, now, fresh_id, Ghost(w))
            },
            (Phase::Adopting { heard: list, at, attempt }, TaskEvent::Ended(outcome)) => {
                let mut memory = memory;
                let _len: usize = list.len();
                let next = memory.known.attempt_ended(
                    adoptions,
                    pending,
                    &attempt,
                    outcome,
                    shutdown,
                    now,
                    wall_rfc3339,
                );
                let adoption_id = attempt.adoption_id;
                let subnet = attempt.subnet;
                match next {
                    AfterAttempt::RollBack { retry_in } => (
                        AdoptTask { memory, phase: Phase::Devices { heard: list, at: at + 1 } },
                        TaskAction::RollBack { subnet, adoption_id, retry_in },
                    ),
                    AfterAttempt::RollBackAndStop => (
                        AdoptTask { memory, phase: Phase::Over },
                        TaskAction::RollBackAndStop { adoption_id },
                    ),
                    AfterAttempt::Recorded(ip) => (
                        AdoptTask { memory, phase: Phase::Devices { heard: list, at: at + 1 } },
                        TaskAction::Announce { subnet, ip },
                    ),
                    AfterAttempt::GoOn => (
                        AdoptTask { memory, phase: Phase::Devices { heard: list, at: at + 1 } },
                        TaskAction::Proceed,
                    ),
                    AfterAttempt::Stop => (
                        AdoptTask { memory, phase: Phase::Over },
                        TaskAction::Stop,
                    ),
                }
            },
            (phase, _) => (AdoptTask { memory, phase }, TaskAction::Stop),
        }
    }
}

/// What the task sees of the rest of the program.
pub open spec fn world(
    a: Adoptions,
    pending: Seq<PendingView>,
    devices: TextMap<ArpDevice>,
    records: Seq<RecordView>,
    shutdown: bool,
    now: Instant,
    fresh_id: u64,
) -> World {
    World {
        adopted: a.adopted.entries(),
        adopted_map: a.adopted@,
        liveness: a.liveness@,
        pending,
        devices: devices_heard(devices),
        records,
        shutdown,
        now,
        fresh_id,
    }
}

/// The pending entry of an address of the adoption under way.
pub open spec fn own_entry(p: PhaseView, ip: Ipv4Addr) -> PendingView {
    PendingView { iface: p->Adopting_iface, ip, adoption_id: p->Adopting_id }
}

/// A phase in which the task is about the devices heard.
pub open spec fn about_devices(p: PhaseView) -> bool {
    p is Devices || p is Addresses || p is Networks || p is Adopting
}

/// New adoptions wait for the lease: the task comes to the devices only after a reading
/// that the adapter is not on DHCP, or with addresses that hold no lease.
pub proof fn law_adoption_waits_while_leased(v: TaskView, e: EventView, w: World)
    requires
        fits(v.phase, e),
        !about_devices(v.phase),
        about_devices(task_next(v, e, w).0.phase),
    ensures
        ({
            let reading = session::good_reading(task_next(v, e, w).0.memory.dhcp, w.now);
            ||| reading == Some(false)
            ||| (v.phase is Leases && !session::has_lease(e->Addresses_0))
        }),
{
}

/// Stale adoptions are given up while new ones pause: a tick begins with the adoptions,
/// whatever the DHCP state.
pub proof fn law_tick_begins_with_the_adoptions(v: TaskView, w: World)
    requires
        v.phase is Idle,
        !w.shutdown,
    ensures
        task_next(v, EventView::Tick, w) == look_at_adoption(v.memory, w.adopted, 0, w),
{
}

/// An address is unbound only where its adoption is link-local and stale, nothing holds
/// it, and the adapter keeps another address.
pub proof fn law_unbound_adoptions_are_stale(v: TaskView, e: EventView, w: World, ip: Ipv4Addr)
    requires
        fits(v.phase, e),
        phase_ok(v.phase),
        task_next(v, e, w).1 == (TaskMove::Unbind { ip }),
    ensures
        v.phase matches PhaseView::Vetoes { list, at, last, elapsed } && (
        e matches EventView::Vetoes { pins, ips } && {
            let (subnet, bound) = list[at];
            &&& ip == bound
            &&& net::key_address(subnet) matches Some(a) && a.link_local()
            &&& !session::holds_pin(w.records, pins, subnet)
            &&& lifecycle::unbind_block(net::dotted(ip), address_texts(ips)) is None
        }),
{
}

/// A stop is heeded: a tick or a look at a device after it ends the task, and an
/// adoption that it overtakes is not recorded.
pub proof fn law_stop_ends_the_task(v: TaskView, e: EventView, w: World)
    requires
        w.shutdown,
        (v.phase is Idle && e is Tick) || (v.phase is Devices && e is Next),
    ensures
        task_next(v, e, w).0.phase is Over,
        task_next(v, e, w).1 is Stop,
{
}

/// The phases that the task can be in lead to such phases alone.
pub proof fn law_phases_stay_sound(v: TaskView, e: EventView, w: World)
    requires
        fits(v.phase, e),
        phase_ok(v.phase),
    ensures
        phase_ok(task_next(v, e, w).0.phase),
{
}

/// An adoption starts only for a device that was observed before, on a subnet that the
/// adapter is not on and that no other network of the host has.
pub proof fn law_adopted_subnets_are_foreign(
    v: TaskView,
    e: EventView,
    w: World,
    device_ip: Ipv4Addr,
    current: Seq<Ipv4Addr>,
    id: u64,
)
    requires
        fits(v.phase, e),
        phase_ok(v.phase),
        task_next(v, e, w).1 == (TaskMove::Adopt { device_ip, current, adoption_id: id }),
    ensures
        ({
            let after = task_next(v, e, w).0;
            &&& !discovery::is_ghost(device_ip, after.memory.ghosts)
            &&& !auto_adopt::on_subnet(device_ip, current)
            &&& after.phase matches PhaseView::Adopting { heard, at, .. } && net::parsed(
                heard[at].ip,
            ) == Some(device_ip) && dwell::held(
                v.memory.known.dwell,
                net::subnet_key(device_ip),
                heard[at].mac,
            ) is Some
        }),
{
}

/// A tick that a stop has not overtaken looks at the adoptions one by one: each that is
/// link-local, was not sighted for half an hour or, with no sighting, is ten minutes into
/// the session, and has no wait running, is asked for what could hold it. The others are
/// passed over, and after the last comes the question of DHCP.
pub proof fn law_each_adoption_is_looked_at(
    v: TaskView,
    w: World,
    list: Seq<(Seq<char>, Ipv4Addr)>,
    at: int,
    x: Ipv4Addr,
)
    requires
        v.phase == (PhaseView::Reaping { list, at }),
        0 <= at <= list.len(),
        at < list.len() ==> list[at].0 == net::subnet_key(x),
    ensures
        ({
            let (next, m) = task_next(v, EventView::Next, w);
            let key = net::subnet_key(x);
            let known = v.memory.known;
            let gone = x.a == 169 && x.b == 254 && if w.liveness.contains_key(key) {
                w.now.nanos >= w.liveness[key].nanos + 1_800_000_000_000
            } else {
                w.now.nanos >= v.memory.started.nanos + 600_000_000_000
            };
            let waits = known.reap_cooldowns.contains_key(key) && w.now.nanos
                < known.reap_cooldowns[key].retry_at.nanos;
            &&& next.memory == v.memory
            &&& at < list.len() && gone && !waits ==> m is ReadVetoes && next.phase
                == (PhaseView::Vetoes {
                list,
                at,
                last: adoptions::last_heard(w.liveness, key, w.now),
                elapsed: w.now.since_spec(v.memory.started),
            })
            &&& at < list.len() && !(gone && !waits) ==> m is Proceed && next.phase
                == (PhaseView::Reaping { list, at: at + 1 })
            &&& at == list.len() ==> match v.memory.dhcp {
                Some((on, t)) if w.now.nanos <= t.nanos + 5_000_000_000 => if on {
                    m is ReadAddresses && next.phase is Leases
                } else {
                    m is Proceed && next.phase == (PhaseView::Devices { heard: w.devices, at: 0 })
                },
                _ => m is ReadDhcp && next.phase is Dhcp,
            }
            &&& m is ReadVetoes <==> at < list.len() && gone && !waits
        }),
{
    if at < list.len() {
        net::law_key_address(x);
        discovery::law_what_is_due(
            v.memory.known,
            x,
            Seq::empty(),
            adoptions::last_heard(w.liveness, net::subnet_key(x), w.now),
            w.now.since_spec(v.memory.started),
            w.now,
        );
    }
}

/// The task goes on to the devices where the adapter is not on DHCP, or is and has no
/// lease; a reading that failed counts as not on DHCP. With a lease it waits.
pub proof fn law_when_the_devices_are_looked_at(
    v: TaskView,
    w: World,
    reading: Option<bool>,
    ips: Seq<Ipv4Addr>,
)
    requires
        v.phase is Dhcp || v.phase is Leases,
    ensures
        ({
            let at_first = PhaseView::Devices { heard: w.devices, at: 0 };
            let dhcp = TaskView { phase: PhaseView::Dhcp, ..v };
            let leases = TaskView { phase: PhaseView::Leases, ..v };
            let leased = exists|x: Ipv4Addr| #[trigger]
                ips.contains(x) && !(x.a == 169 && x.b == 254);
            &&& reading == Some(true) ==> task_next(dhcp, EventView::Dhcp(reading), w).1
                is ReadAddresses && task_next(dhcp, EventView::Dhcp(reading), w).0.phase is Leases
            &&& reading != Some(true) ==> task_next(dhcp, EventView::Dhcp(reading), w).0.phase
                == at_first
            &&& task_next(dhcp, EventView::Dhcp(reading), w).0.memory.dhcp == Some(
                (reading == Some(true), w.now),
            )
            &&& leased ==> task_next(leases, EventView::Addresses(ips), w).1 is Wait && task_next(
                leases,
                EventView::Addresses(ips),
                w,
            ).0.phase is Idle
            &&& !leased ==> task_next(leases, EventView::Addresses(ips), w).0.phase == at_first
        }),
{
    session::law_what_is_a_lease(ips);
}

/// Each device that was heard is looked at in turn. One whose address parses and whose
/// subnet is neither known nor adopted is taken further; the others are passed over, and
/// after the last the task waits for the next tick.
pub proof fn law_each_device_is_looked_at(
    v: TaskView,
    w: World,
    list: Seq<ArpView>,
    at: int,
)
    requires
        v.phase == (PhaseView::Devices { heard: list, at }),
        0 <= at <= list.len(),
        !w.shutdown,
    ensures
        ({
            let (next, m) = task_next(v, EventView::Next, w);
            let foreign = exists|x: Ipv4Addr|
                list[at].ip == #[trigger] net::dotted(x) && !v.memory.known.known.contains(
                    net::subnet_key(x),
                ) && !w.adopted_map.contains_key(net::subnet_key(x));
            &&& at == list.len() ==> m is Wait && next.phase is Idle && next.memory == v.memory
            &&& at < list.len() ==> next.memory == (MemoryView {
                known: discovery::after_look(v.memory.known, list[at].ip, w.adopted_map),
                ..v.memory
            })
            &&& at < list.len() && foreign ==> m is ReadAddresses && (
            next.phase matches PhaseView::Addresses { heard, at: a, ip } && heard == list && a == at
                && net::dotted(ip) == list[at].ip)
            &&& at < list.len() && !foreign ==> m is Proceed && next.phase == (PhaseView::Devices {
                heard: list,
                at: at + 1,
            })
        }),
{
    if at < list.len() {
        discovery::law_who_is_worth_a_look(v.memory.known, list[at].ip, w.adopted_map);
        if net::is_dotted(list[at].ip) {
            assert(net::dotted(net::parsed(list[at].ip)->0) == list[at].ip);
        }
    }
}

/// A device whose subnet the adapter is not on and that waits for nothing goes to the
/// gates, with a fresh list of the networks off the wire. It is adopted exactly when no
/// such network has part of its subnet and it was observed before at another time.
pub proof fn law_a_foreign_device_is_adopted(
    v: TaskView,
    w: World,
    list: Seq<ArpView>,
    at: int,
    ip: Ipv4Addr,
    current: Seq<Ipv4Addr>,
    nets: Seq<Ipv4Network>,
)
    requires
        0 <= at < list.len(),
        forall|i: int| 0 <= i < nets.len() ==> (#[trigger] nets[i]).bits() <= 32,
    ensures
        ({
            let key = net::subnet_key(ip);
            let known = v.memory.known;
            let asked = TaskView {
                phase: PhaseView::Addresses { heard: list, at, ip },
                memory: v.memory,
            };
            let listed = TaskView {
                phase: PhaseView::Networks { heard: list, at, ip, current },
                memory: v.memory,
            };
            let free = {
                &&& forall|x: Ipv4Addr| #[trigger]
                    current.contains(x) ==> x.a != ip.a || x.b != ip.b || x.c != ip.c
                &&& known.cooldowns.contains_key(key) ==> known.cooldowns[key].retry_at.nanos
                    <= w.now.nanos
                &&& known.ghost_until.contains_key(key) ==> known.ghost_until[key].nanos
                    <= w.now.nanos
            };
            let off_wire = exists|i: int, x: Ipv4Addr|
                0 <= i < nets.len() && #[trigger] nets[i].has(x) && x.a == ip.a && x.b == ip.b
                    && x.c == ip.c;
            let first = dwell::held(known.dwell, key, list[at].mac);
            let fresh = v.memory.ghosts_at matches Some(t) && w.now.nanos < t.nanos
                + 30_000_000_000;
            let next_device = PhaseView::Devices { heard: list, at: at + 1 };
            let (n1, m1) = task_next(asked, EventView::Addresses(current), w);
            let (n2, m2) = task_next(listed, EventView::Networks(nets), w);
            &&& !free ==> m1 is Proceed && n1.phase == next_device
            &&& free && !fresh ==> m1 is ReadNetworks && n1.phase == (PhaseView::Networks {
                heard: list,
                at,
                ip,
                current,
            })
            &&& !free || !fresh ==> n1.memory == (MemoryView {
                known: discovery::after_screen(known, ip, current),
                ..v.memory
            })
            &&& n2.memory == (MemoryView {
                known: discovery::after_gate(
                    known,
                    ip,
                    list[at].mac,
                    list[at].last_seen,
                    nets,
                    w.now,
                ),
                ghosts: nets,
                ghosts_at: Some(w.now),
                ..v.memory
            })
            &&& m2 is Adopt <==> !off_wire && first is Some && first != Some(list[at].last_seen)
            &&& m2 matches TaskMove::Adopt { device_ip, current: c, adoption_id } ==> device_ip
                == ip && c == current && adoption_id == w.fresh_id
            &&& m2 is Adopt ==> n2.phase == (PhaseView::Adopting {
                heard: list,
                at,
                subnet: key,
                iface: v.memory.iface,
                id: w.fresh_id,
            })
            &&& m2 is Adopt || (m2 is Proceed && n2.phase == next_device)
            &&& n2.memory.ghosts == nets
            &&& n2.memory.ghosts_at == Some(w.now)
            &&& v.memory.ghosts == nets && free && fresh ==> (m1 is Adopt <==> !off_wire && first is Some && first != Some(
                list[at].last_seen,
            ))
        }),
{
    discovery::law_who_goes_on(v.memory.known, ip, current, w.now);
    auto_adopt::law_on_subnet(ip, current);
    discovery::law_what_the_gates_say(
        v.memory.known,
        ip,
        list[at].mac,
        list[at].last_seen,
        nets,
    );
    discovery::law_what_the_gates_say(
        discovery::after_screen(v.memory.known, ip, current),
        ip,
        list[at].mac,
        list[at].last_seen,
        nets,
    );
}

/// What ends an adoption: a bound address is announced and the next device follows, a
/// failure is rolled back under its own number and waits a minute the first time, and a
/// stop that came first rolls back what was bound and ends the task.
pub proof fn law_how_an_adoption_ends(
    v: TaskView,
    w: World,
    list: Seq<ArpView>,
    at: int,
    subnet: Seq<char>,
    iface: Seq<char>,
    id: u64,
    ip: Ipv4Addr,
)
    requires
        v.phase == (PhaseView::Adopting { heard: list, at, subnet, iface, id }),
    ensures
        ({
            let next = PhaseView::Devices { heard: list, at: at + 1 };
            let bound = task_next(v, EventView::Ended(AdoptOutcome::Adopted(ip)), w);
            let failed = task_next(v, EventView::Ended(AdoptOutcome::Failed), w);
            let late = task_next(v, EventView::Ended(AdoptOutcome::TimedOut), w);
            let nothing = task_next(v, EventView::Ended(AdoptOutcome::Nothing), w);
            &&& !w.shutdown ==> bound.1 == (TaskMove::Announce { subnet, ip }) && bound.0.phase
                == next && bound.0.memory.known.known.contains(subnet)
            &&& w.shutdown ==> bound.1 == (TaskMove::RollBackAndStop { adoption_id: id })
                && bound.0.phase is Over && nothing.1 is Stop && nothing.0.phase is Over
            &&& !w.shutdown ==> nothing.1 is Proceed && nothing.0.phase == next
            &&& bound.0.memory == (MemoryView {
                known: discovery::after_attempt(
                    v.memory.known,
                    subnet,
                    AdoptOutcome::Adopted(ip),
                    w.shutdown,
                    w.now,
                ),
                ..v.memory
            })
            &&& failed.0.memory == (MemoryView {
                known: discovery::after_attempt(
                    v.memory.known,
                    subnet,
                    AdoptOutcome::Failed,
                    w.shutdown,
                    w.now,
                ),
                ..v.memory
            })
            &&& failed.1 == late.1
            &&& failed.0 == late.0
            &&& failed.0.phase == next
            &&& failed.1 matches TaskMove::RollBack { subnet: s, adoption_id, retry_in } && s
                == subnet && adoption_id == id && (!v.memory.known.cooldowns.contains_key(subnet)
                ==> retry_in == 60)
        }),
{
}

/// An adoption that is due is unbound, unless a device that the user keeps is on its
/// subnet, the host lives on link-local addresses alone, or the address is the adapter's
/// first; then the task goes on to the next one.
pub proof fn law_what_is_unbound_in_the_end(
    v: TaskView,
    w: World,
    list: Seq<(Seq<char>, Ipv4Addr)>,
    at: int,
    last: Option<Duration>,
    elapsed: Duration,
    pins: Set<Seq<char>>,
    ips: Seq<IpInfo>,
    x: Ipv4Addr,
)
    requires
        v.phase == (PhaseView::Vetoes { list, at, last, elapsed }),
        0 <= at < list.len(),
        list[at].0 == net::subnet_key(x),
        x.a == 169,
        x.b == 254,
        last matches Some(e) ==> e.nanos >= 1_800_000_000_000,
        last is None ==> elapsed.nanos >= 600_000_000_000,
    ensures
        ({
            let (next, m) = task_next(v, EventView::Vetoes { pins, ips }, w);
            let pinned = session::holds_pin(w.records, pins, net::subnet_key(x));
            let rescued = lifecycle::rescued(
                session::addresses_of(ips),
                bound_addresses(list),
                auto_adopt::pending_addresses(w.pending),
            );
            let first = ips.len() > 0 && ips[0].address@ == net::dotted(list[at].1);
            let passed = PhaseView::Reaping { list, at: at + 1 };
            if pinned || rescued {
                m is Proceed && next.phase == passed && next.memory == v.memory
            } else if first {
                m is Proceed && next.phase == passed && (discovery::in_range(w.now)
                    ==> next.memory.known.reap_cooldowns[list[at].0].retry_at.nanos == w.now.nanos
                    + 60_000_000_000)
            } else {
                m == (TaskMove::Unbind { ip: list[at].1 }) && next.memory == v.memory
                    && next.phase == (PhaseView::Unbinding { list, at })
            }
        }),
{
    net::law_key_address(x);
    let texts = address_texts(ips);
    lifecycle::law_only_the_first_address_stays(net::dotted(list[at].1), texts);
    if ips.len() > 0 {
        assert(texts[0] == ips[0].address@);
    }
}

/// An address that was unbound is forgotten and its subnet can be adopted again; one that
/// was not is tried again after a wait, and nothing of it is forgotten.
pub proof fn law_how_a_removal_ends(
    v: TaskView,
    w: World,
    list: Seq<(Seq<char>, Ipv4Addr)>,
    at: int,
)
    requires
        v.phase == (PhaseView::Unbinding { list, at }),
        0 <= at < list.len(),
        discovery::in_range(w.now),
    ensures
        ({
            let (subnet, ip) = list[at];
            let (n1, m1) = task_next(v, EventView::Unbound(true), w);
            let (n2, m2) = task_next(v, EventView::Unbound(false), w);
            let known = v.memory.known;
            &&& m1 == (TaskMove::Forgotten { subnet, ip })
            &&& !n1.memory.known.known.contains(subnet)
            &&& !n1.memory.known.reap_cooldowns.contains_key(subnet)
            &&& m2 is Proceed
            &&& n2.memory.known.known == known.known
            &&& n2.memory.known.reap_cooldowns.contains_key(subnet)
            &&& !known.reap_cooldowns.contains_key(subnet)
                ==> n2.memory.known.reap_cooldowns[subnet].retry_at.nanos == w.now.nanos
                + 60_000_000_000
            &&& n1.phase == n2.phase
            &&& n1.phase == (PhaseView::Reaping { list, at: at + 1 })
        }),
{
}

/// What the task sees of the world is what it is given: every adoption, every device
/// heard, every pending address.
pub proof fn law_the_addresses_that_are_bound(
    list: Seq<(Seq<char>, Ipv4Addr)>,
    pending: Seq<PendingView>,
    ip: Ipv4Addr,
)
    ensures
        bound_addresses(list).contains(ip) <==> exists|i: int|
            0 <= i < list.len() && (#[trigger] list[i]).1 == ip,
        auto_adopt::pending_addresses(pending).contains(ip) <==> exists|i: int|
            0 <= i < pending.len() && (#[trigger] pending[i]).ip == ip,
{
    let b = bound_addresses(list);
    let p = auto_adopt::pending_addresses(pending);
    if b.contains(ip) {
        assert(list[b.index_of(ip)].1 == ip);
    }
    if exists|i: int| 0 <= i < list.len() && (#[trigger] list[i]).1 == ip {
        let i = choose|i: int| 0 <= i < list.len() && (#[trigger] list[i]).1 == ip;
        assert(b[i] == ip);
    }
    if p.contains(ip) {
        assert(pending[p.index_of(ip)].ip == ip);
    }
    if exists|i: int| 0 <= i < pending.len() && (#[trigger] pending[i]).ip == ip {
        let i = choose|i: int| 0 <= i < pending.len() && (#[trigger] pending[i]).ip == ip;
        assert(p[i] == ip);
    }
}

/// What the task sees of the world is what it is given.
pub proof fn law_the_task_sees_all(
    a: Adoptions,
    pending: Seq<PendingView>,
    devices: TextMap<ArpDevice>,
    records: Seq<RecordView>,
    shutdown: bool,
    now: Instant,
    fresh_id: u64,
    i: int,
)
    ensures
        ({
            let w = world(a, pending, devices, records, shutdown, now, fresh_id);
            &&& w.adopted == a.adopted.entries()
            &&& w.adopted_map == a.adopted@
            &&& w.liveness == a.liveness@
            &&& w.pending == pending
            &&& w.records == records
            &&& w.shutdown == shutdown
            &&& w.now == now
            &&& w.fresh_id == fresh_id
            &&& w.devices.len() == devices.entries().len()
            &&& 0 <= i < w.devices.len() ==> w.devices[i] == devices.entries()[i].1@
        }),
{
}

/// An adoption whose key does not parse is passed over, and noted as reported.
pub proof fn law_a_bad_key_is_passed_over(
    v: TaskView,
    w: World,
    list: Seq<(Seq<char>, Ipv4Addr)>,
    at: int,
)
    requires
        v.phase == (PhaseView::Reaping { list, at }),
        0 <= at < list.len(),
        forall|x: Ipv4Addr| #[trigger] net::subnet_key(x) != list[at].0,
    ensures
        ({
            let (next, m) = task_next(v, EventView::Next, w);
            &&& m is Proceed
            &&& next.phase == (PhaseView::Reaping { list, at: at + 1 })
            &&& next.memory.known.invalid_warned == v.memory.known.invalid_warned.insert(list[at].0)
            &&& next.memory.known.known == v.memory.known.known
            &&& next.memory.known.reap_cooldowns == v.memory.known.reap_cooldowns
        }),
{
    net::law_only_subnet_keys_are_read(list[at].0);
    if let Some(x) = net::key_address(list[at].0) {
        assert(net::subnet_key(x) == list[at].0);
    }
}

/// An adoption under way has its pending entries under its own adapter and number.
pub proof fn law_an_adoption_owns_its_entries(
    heard: Seq<ArpView>,
    at: int,
    subnet: Seq<char>,
    iface: Seq<char>,
    id: u64,
    ip: Ipv4Addr,
)
    ensures
        own_entry(PhaseView::Adopting { heard, at, subnet, iface, id }, ip) == (PendingView {
            iface,
            ip,
            adoption_id: id,
        }),
{
}

} // verus!
