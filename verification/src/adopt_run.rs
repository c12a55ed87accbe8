//! One adoption of a foreign subnet, step by step.
//!
//! The run asks for one piece of work at a time and is told how it went: bind a
//! scratch address, probe the candidates from it, release it, and bind the first
//! candidate that nobody has. Each address is registered as pending before it is
//! bound and struck off once it is known not to be bound, so whatever stops the
//! run leaves a trace of every address it may have left behind.

use crate::auto_adopt;
use crate::auto_adopt::{PendingIps, PendingView};
use crate::error::AppError;
use crate::net;
use crate::net::Ipv4Addr;
use vstd::prelude::*;

verus! {

/// Where an adoption stands.
#[derive(Clone, Copy, Debug, PartialEq, Eq, Structural)]
pub enum Phase {
    /// Waiting for the scratch address to be bound.
    BindScratch,
    /// Waiting for the probe of candidate `at`; `on_link` if the scratch is bound.
    Probe { at: usize, on_link: bool },
    /// Waiting for the scratch address to be released.
    Release { chosen: Option<Ipv4Addr> },
    /// Waiting to hear whether a stop was signalled.
    Gate { candidate: Ipv4Addr },
    /// Waiting for the final address to be bound.
    BindFinal { candidate: Ipv4Addr },
    /// Over.
    Finished,
}

/// Work that the run asks for.
pub enum AdoptAction {
    /// Bind the address with mask 255.255.255.0.
    Add { ip: Ipv4Addr },
    /// Find out whether someone has `target`, asking from `source` if there is one.
    Probe { target: Ipv4Addr, source: Option<Ipv4Addr> },
    /// Unbind the address.
    Remove { ip: Ipv4Addr },
    /// Find out whether a stop was signalled.
    AskShutdown,
    /// Nothing more: the bound address, or nothing if none was to be bound.
    Finish(Result<Option<Ipv4Addr>, AppError>),
}

/// How the work went.
pub enum AdoptEvent {
    Added,
    AddFailed(AppError),
    /// Whether the target is in use; also where that could not be found out.
    Probed(bool),
    Removed,
    RemoveFailed,
    Shutdown(bool),
}

/// An action, with errors as text.
pub enum Move {
    Add { ip: Ipv4Addr },
    Probe { target: Ipv4Addr, source: Option<Ipv4Addr> },
    Remove { ip: Ipv4Addr },
    AskShutdown,
    Finish(Result<Option<Ipv4Addr>, Seq<char>>),
}

impl View for AdoptAction {
    type V = Move;

    open spec fn view(&self) -> Move {
        match self {
            AdoptAction::Add { ip } => Move::Add { ip: *ip },
            AdoptAction::Probe { target, source } => Move::Probe {
                target: *target,
                source: *source,
            },
            AdoptAction::Remove { ip } => Move::Remove { ip: *ip },
            AdoptAction::AskShutdown => Move::AskShutdown,
            AdoptAction::Finish(r) => Move::Finish(
                match r {
                    Ok(x) => Ok(*x),
                    Err(e) => Err(e.text()),
                },
            ),
        }
    }
}

/// One adoption under way.
pub struct AdoptRun {
    pub iface: String,
    pub device_ip: Ipv4Addr,
    pub adoption_id: u64,
    pub candidates: Vec<Ipv4Addr>,
    pub scratch: Ipv4Addr,
    pub phase: Phase,
    /// Whether the scratch address stayed bound because its release failed.
    pub scratch_stuck: bool,
}

/// `No candidate IPs available on subnet for <ip>`.
pub open spec fn no_candidate_text(ip: Ipv4Addr) -> Seq<char> {
    "No candidate IPs available on subnet for "@ + net::dotted(ip)
}

/// `Could not find available IP on subnet for <ip>`.
pub open spec fn none_free_text(ip: Ipv4Addr) -> Seq<char> {
    "Could not find available IP on subnet for "@ + net::dotted(ip)
}

/// What was asked for last, in each phase.
pub open spec fn fits(phase: Phase, event: AdoptEvent) -> bool {
    match phase {
        Phase::BindScratch => event is Added || event is AddFailed,
        Phase::Probe { .. } => event is Probed,
        Phase::Release { .. } => event is Removed || event is RemoveFailed,
        Phase::Gate { .. } => event is Shutdown,
        Phase::BindFinal { .. } => event is Added || event is AddFailed,
        Phase::Finished => false,
    }
}

impl AdoptRun {
    /// The pending entry of one of this run's addresses.
    pub open spec fn entry(self, ip: Ipv4Addr) -> PendingView {
        PendingView { iface: self.iface@, ip, adoption_id: self.adoption_id }
    }

    /// The run is in a phase that it can be in.
    pub open spec fn wf(self) -> bool {
        &&& self.candidates@.len() > 0
        &&& !self.candidates@.contains(self.scratch)
        &&& match self.phase {
            Phase::BindScratch => !self.scratch_stuck,
            Phase::Probe { at, on_link } => at < self.candidates@.len() && !self.scratch_stuck,
            Phase::Release { chosen } => !self.scratch_stuck && (chosen is Some
                ==> self.candidates@.contains(chosen->0)),
            Phase::Gate { candidate } => self.candidates@.contains(candidate),
            Phase::BindFinal { candidate } => self.candidates@.contains(candidate),
            Phase::Finished => true,
        }
    }

    /// The addresses that may be bound while the run waits in its phase.
    pub open spec fn maybe_bound(self) -> Set<Ipv4Addr> {
        let stuck = if self.scratch_stuck {
            set![self.scratch]
        } else {
            Set::empty()
        };
        match self.phase {
            Phase::BindScratch => set![self.scratch],
            Phase::Probe { at, on_link } => if on_link {
                set![self.scratch]
            } else {
                Set::empty()
            },
            Phase::Release { .. } => set![self.scratch],
            Phase::Gate { .. } => stuck,
            Phase::BindFinal { candidate } => stuck.insert(candidate),
            Phase::Finished => stuck,
        }
    }

    /// Every address that may be bound has its pending entry.
    pub open spec fn traced(self, pending: Seq<PendingView>) -> bool {
        forall|ip: Ipv4Addr| #[trigger]
            self.maybe_bound().contains(ip) ==> pending.contains(self.entry(ip))
    }
}

/// The state after the probes: release the scratch if it is bound.
pub open spec fn probed_phase(on_link: bool, chosen: Option<Ipv4Addr>) -> Phase {
    if on_link {
        Phase::Release { chosen }
    } else {
        released_phase(chosen)
    }
}

/// The state after the scratch is dealt with.
pub open spec fn released_phase(chosen: Option<Ipv4Addr>) -> Phase {
    match chosen {
        Some(candidate) => Phase::Gate { candidate },
        None => Phase::Finished,
    }
}

/// The phase that follows.
pub open spec fn next_phase(run: AdoptRun, event: AdoptEvent) -> Phase {
    match run.phase {
        Phase::BindScratch => Phase::Probe { at: 0, on_link: event is Added },
        Phase::Probe { at, on_link } => if !event->Probed_0 {
            probed_phase(on_link, Some(run.candidates@[at as int]))
        } else if at + 1 < run.candidates@.len() {
            Phase::Probe { at: (at + 1) as usize, on_link }
        } else {
            probed_phase(on_link, None)
        },
        Phase::Release { chosen } => released_phase(chosen),
        Phase::Gate { candidate } => if event->Shutdown_0 {
            Phase::Finished
        } else {
            Phase::BindFinal { candidate }
        },
        Phase::BindFinal { .. } => Phase::Finished,
        Phase::Finished => Phase::Finished,
    }
}

/// The pending list that follows: a failed bind and a finished release strike
/// their address off, a final address is registered before its bind.
pub open spec fn next_pending(
    run: AdoptRun,
    event: AdoptEvent,
    pending: Seq<PendingView>,
) -> Seq<PendingView> {
    match (run.phase, event) {
        (Phase::BindScratch, AdoptEvent::AddFailed(_)) => auto_adopt::dropped(
            pending,
            run.entry(run.scratch),
        ),
        (Phase::Release { .. }, AdoptEvent::Removed) => auto_adopt::dropped(
            pending,
            run.entry(run.scratch),
        ),
        (Phase::Gate { candidate }, AdoptEvent::Shutdown(false)) => pending.push(
            run.entry(candidate),
        ),
        (Phase::BindFinal { candidate }, AdoptEvent::AddFailed(_)) => auto_adopt::dropped(
            pending,
            run.entry(candidate),
        ),
        _ => pending,
    }
}

/// The work that follows.
pub open spec fn next_move(run: AdoptRun, event: AdoptEvent) -> Move {
    match next_phase(run, event) {
        Phase::BindScratch => Move::Add { ip: run.scratch },
        Phase::Probe { at, on_link } => Move::Probe {
            target: run.candidates@[at as int],
            source: if on_link {
                Some(run.scratch)
            } else {
                None
            },
        },
        Phase::Release { .. } => Move::Remove { ip: run.scratch },
        Phase::Gate { .. } => Move::AskShutdown,
        Phase::BindFinal { candidate } => Move::Add { ip: candidate },
        Phase::Finished => Move::Finish(
            match (run.phase, event) {
                (Phase::Gate { .. }, _) => Ok(None),
                (Phase::BindFinal { candidate }, AdoptEvent::Added) => Ok(Some(candidate)),
                (Phase::BindFinal { .. }, AdoptEvent::AddFailed(e)) => Err(e.text()),
                _ => Err(none_free_text(run.device_ip)),
            },
        ),
    }
}

/// What an adoption begins with.
pub enum AdoptStart {
    /// The host already has an address on the subnet.
    AlreadyOnSubnet,
    /// Every address to pick from is taken.
    NoCandidate(AppError),
    /// The run, which waits for its scratch address to be bound.
    Running(AdoptRun),
}

/// Starts the adoption of the /24 of `device_ip`. Addresses of any adapter of the
/// host are no candidates: a probe cannot see them.
pub fn adopt_subnet(
    interface_name: &str,
    device_ip: Ipv4Addr,
    current_ips: &Vec<Ipv4Addr>,
    local_ips: &Vec<Ipv4Addr>,
    pending: &mut PendingIps,
    adoption_id: u64,
) -> (r: AdoptStart)
    ensures
        match r {
            AdoptStart::AlreadyOnSubnet => auto_adopt::on_subnet(device_ip, current_ips@)
                && final(pending)@ == old(pending)@,
            AdoptStart::NoCandidate(e) => !auto_adopt::on_subnet(device_ip, current_ips@)
                && auto_adopt::candidates(device_ip, local_ips@ + current_ips@).len() == 0
                && e.text() == no_candidate_text(device_ip) && final(pending)@ == old(pending)@,
            AdoptStart::Running(run) => {
                &&& !auto_adopt::on_subnet(device_ip, current_ips@)
                &&& run.wf()
                &&& run.iface@ == interface_name@
                &&& run.device_ip == device_ip
                &&& run.adoption_id == adoption_id
                &&& run.candidates@ == auto_adopt::candidates(
                    device_ip,
                    local_ips@ + current_ips@,
                )
                &&& run.scratch == auto_adopt::scratch_for(device_ip, run.candidates@)
                &&& run.phase == Phase::BindScratch
                &&& final(pending)@ == old(pending)@.push(run.entry(run.scratch))
                &&& run.traced(final(pending)@)
            },
        },
{
    if auto_adopt::already_on_subnet(device_ip, current_ips) {
        return AdoptStart::AlreadyOnSubnet;
    }
    let mut used: Vec<Ipv4Addr> = Vec::new();
    let mut i: usize = 0;
    while i < local_ips.len()
        invariant
            i <= local_ips.len(),
            used@ == local_ips@.take(i as int),
        decreases local_ips.len() - i,
    {
        proof {
            local_ips@.lemma_take_succ_push(i as int);
        }
        used.push(local_ips[i]);
        i += 1;
    }
    let mut j: usize = 0;
    assert(used@ =~= local_ips@ + current_ips@.take(0));
    while j < current_ips.len()
        invariant
            j <= current_ips.len(),
            used@ == local_ips@ + current_ips@.take(j as int),
        decreases current_ips.len() - j,
    {
        proof {
            current_ips@.lemma_take_succ_push(j as int);
        }
        used.push(current_ips[j]);
        assert(used@ =~= local_ips@ + current_ips@.take(j + 1));
        j += 1;
    }
    assert(used@ =~= local_ips@ + current_ips@);
    let candidates = auto_adopt::pick_candidate_ip(device_ip, &used);
    if candidates.len() == 0 {
        let mut message = String::from_str("No candidate IPs available on subnet for ");
        message.append(device_ip.text().as_str());
        return AdoptStart::NoCandidate(AppError::Network(message));
    }
    let scratch = auto_adopt::pick_scratch(device_ip, &candidates);
    proof {
        auto_adopt::law_scratch_is_free(device_ip, used@);
    }
    pending.pending_insert(interface_name, scratch, adoption_id);
    let run = AdoptRun {
        iface: String::from_str(interface_name),
        device_ip,
        adoption_id,
        candidates,
        scratch,
        phase: Phase::BindScratch,
        scratch_stuck: false,
    };
    proof {
        assert(pending@.last() == run.entry(scratch));
    }
    AdoptStart::Running(run)
}

impl AdoptRun {
    /// The work to begin with: bind the scratch address.
    pub fn first_action(&self) -> (r: AdoptAction)
        ensures
            r@ == (Move::Add { ip: self.scratch }),
    {
        AdoptAction::Add { ip: self.scratch }
    }

    fn probe_action(&self, at: usize, on_link: bool) -> (r: AdoptAction)
        requires
            at < self.candidates@.len(),
        ensures
            r@ == (Move::Probe {
                target: self.candidates@[at as int],
                source: if on_link {
                    Some(self.scratch)
                } else {
                    None
                },
            }),
    {
        AdoptAction::Probe {
            target: self.candidates[at],
            source: if on_link {
                Some(self.scratch)
            } else {
                None
            },
        }
    }

    fn settle(&mut self, chosen: Option<Ipv4Addr>) -> (r: AdoptAction)
        ensures
            *final(self) == (AdoptRun { phase: released_phase(chosen), ..*old(self) }),
            r@ == match chosen {
                Some(_) => Move::AskShutdown,
                None => Move::Finish(Err(none_free_text(old(self).device_ip))),
            },
    {
        match chosen {
            Some(candidate) => {
                self.phase = Phase::Gate { candidate };
                AdoptAction::AskShutdown
            },
            None => {
                self.phase = Phase::Finished;
                let mut message = String::from_str("Could not find available IP on subnet for ");
                message.append(self.device_ip.text().as_str());
                AdoptAction::Finish(Err(AppError::Network(message)))
            },
        }
    }

    /// Takes note of how the work went and says what to do next.
    pub fn step(&mut self, event: AdoptEvent, pending: &mut PendingIps) -> (r: AdoptAction)
        requires
            old(self).wf(),
            fits(old(self).phase, event),
        ensures
            final(self).wf(),
            *final(self) == (AdoptRun {
                phase: next_phase(*old(self), event),
                scratch_stuck: old(self).scratch_stuck || event is RemoveFailed,
                ..*old(self)
            }),
            final(pending)@ == next_pending(*old(self), event, old(pending)@),
            r@ == next_move(*old(self), event),
            old(self).traced(old(pending)@) ==> final(self).traced(final(pending)@),
    {
        let ghost before = *self;
        let ghost list = pending@;
        let action = match self.phase {
            Phase::BindScratch => {
                let on_link = match event {
                    AdoptEvent::Added => true,
                    _ => false,
                };
                if !on_link {
                    pending.pending_remove(self.iface.as_str(), self.scratch, self.adoption_id);
                }
                self.phase = Phase::Probe { at: 0, on_link };
                self.probe_action(0, on_link)
            },
            Phase::Probe { at, on_link } => {
                let in_use = match event {
                    AdoptEvent::Probed(in_use) => in_use,
                    _ => true,
                };
                let n: usize = self.candidates.len();
                if in_use && at + 1 < n {
                    self.phase = Phase::Probe { at: at + 1, on_link };
                    self.probe_action(at + 1, on_link)
                } else {
                    let chosen = if in_use {
                        None
                    } else {
                        assert(self.candidates@.contains(self.candidates@[at as int]));
                        Some(self.candidates[at])
                    };
                    if on_link {
                        self.phase = Phase::Release { chosen };
                        AdoptAction::Remove { ip: self.scratch }
                    } else {
                        self.settle(chosen)
                    }
                }
            },
            Phase::Release { chosen } => {
                match event {
                    AdoptEvent::Removed => {
                        pending.pending_remove(self.iface.as_str(), self.scratch, self.adoption_id);
                    },
                    _ => {
                        self.scratch_stuck = true;
                    },
                }
                self.settle(chosen)
            },
            Phase::Gate { candidate } => {
                let stop = match event {
                    AdoptEvent::Shutdown(stop) => stop,
                    _ => true,
                };
                if stop {
                    self.phase = Phase::Finished;
                    AdoptAction::Finish(Ok(None))
                } else {
                    pending.pending_insert(self.iface.as_str(), candidate, self.adoption_id);
                    self.phase = Phase::BindFinal { candidate };
                    AdoptAction::Add { ip: candidate }
                }
            },
            Phase::BindFinal { candidate } => {
                self.phase = Phase::Finished;
                match event {
                    AdoptEvent::AddFailed(e) => {
                        pending.pending_remove(self.iface.as_str(), candidate, self.adoption_id);
                        AdoptAction::Finish(Err(e))
                    },
                    _ => AdoptAction::Finish(Ok(Some(candidate))),
                }
            },
            Phase::Finished => AdoptAction::Finish(Ok(None)),
        };
        proof {
            if before.traced(list) {
                lemma_traced(before, event, list, *self, pending@);
            }
        }
        action
    }
}

proof fn lemma_traced(
    run: AdoptRun,
    event: AdoptEvent,
    list: Seq<PendingView>,
    next: AdoptRun,
    after: Seq<PendingView>,
)
    requires
        run.wf(),
        fits(run.phase, event),
        run.traced(list),
        next == (AdoptRun {
            phase: next_phase(run, event),
            scratch_stuck: run.scratch_stuck || event is RemoveFailed,
            ..run
        }),
        after == next_pending(run, event, list),
    ensures
        next.traced(after),
{
    assert forall|ip: Ipv4Addr| #[trigger]
        next.maybe_bound().contains(ip) implies after.contains(next.entry(ip)) by {
        assert(next.entry(ip) == run.entry(ip));
        match (run.phase, event) {
            (Phase::BindScratch, AdoptEvent::AddFailed(_)) => {},
            (Phase::Gate { candidate }, AdoptEvent::Shutdown(false)) => {
                assert(after.last() == run.entry(candidate));
                if ip != candidate {
                    assert(run.maybe_bound().contains(ip));
                    let i = list.index_of(run.entry(ip));
                    assert(after[i] == run.entry(ip));
                }
            },
            (Phase::BindFinal { candidate }, AdoptEvent::AddFailed(_)) => {
                assert(run.maybe_bound().contains(ip));
                assert(ip == run.scratch);
                auto_adopt::lemma_dropped(list, run.entry(candidate), run.entry(ip));
            },
            _ => {
                assert(run.maybe_bound().contains(ip));
            },
        }
    }
}

/// How an event and the next action change what the adapter holds: a finished
/// unbind takes its address away, a failed bind leaves it away, and a bind that is
/// asked for may put its address there at once.
pub open spec fn effect(run: AdoptRun, event: AdoptEvent) -> Set<Ipv4Addr> {
    let held = match (run.phase, event) {
        (Phase::BindScratch, AdoptEvent::AddFailed(_)) => run.maybe_bound().remove(run.scratch),
        (Phase::BindFinal { candidate }, AdoptEvent::AddFailed(_)) => run.maybe_bound().remove(
            candidate,
        ),
        (Phase::Release { .. }, AdoptEvent::Removed) => run.maybe_bound().remove(run.scratch),
        _ => run.maybe_bound(),
    };
    match next_move(run, event) {
        Move::Add { ip } => held.insert(ip),
        _ => held,
    }
}

/// The addresses that the run counts as possibly bound are those that its binds
/// and unbinds leave on the adapter; only the address that a finished run reports
/// passes to the caller, whose handover strikes its entry off.
pub proof fn law_run_counts_what_it_binds(run: AdoptRun, event: AdoptEvent, next: AdoptRun)
    requires
        run.wf(),
        fits(run.phase, event),
        next == (AdoptRun {
            phase: next_phase(run, event),
            scratch_stuck: run.scratch_stuck || event is RemoveFailed,
            ..run
        }),
    ensures
        match next_move(run, event) {
            Move::Finish(Ok(Some(ip))) => next.maybe_bound().insert(ip) == effect(run, event),
            _ => next.maybe_bound() == effect(run, event),
        },
{
    match next_move(run, event) {
        Move::Finish(Ok(Some(ip))) => {
            assert(next.maybe_bound().insert(ip) =~= effect(run, event));
        },
        _ => {
            assert(next.maybe_bound() =~= effect(run, event));
        },
    }
}

/// A finished adoption that reports an address leaves that address registered as
/// pending until the caller hands it over.
pub proof fn law_bound_address_is_pending(
    run: AdoptRun,
    event: AdoptEvent,
    pending: Seq<PendingView>,
    ip: Ipv4Addr,
)
    requires
        run.wf(),
        fits(run.phase, event),
        run.traced(pending),
        next_move(run, event) == Move::Finish(Ok(Some(ip))),
    ensures
        next_pending(run, event, pending).contains(run.entry(ip)),
{
    assert(run.maybe_bound().contains(ip));
}

/// A stop that is signalled before the final bind binds nothing more.
pub proof fn law_stop_binds_nothing(run: AdoptRun)
    requires
        run.wf(),
        run.phase is Gate,
    ensures
        next_move(run, AdoptEvent::Shutdown(true)) == Move::Finish(Ok(None)),
        forall|pending: Seq<PendingView>| #[trigger]
            next_pending(run, AdoptEvent::Shutdown(true), pending) == pending,
{
}

/// A run asks the candidates in turn, from the scratch address where that could be bound,
/// and chooses the first that does not answer; where all answer it chooses none.
pub proof fn law_the_first_silent_candidate_is_chosen(
    run: AdoptRun,
    at: usize,
    on_link: bool,
    why: AppError,
)
    requires
        run.wf(),
        run.phase == (Phase::Probe { at, on_link }),
        run.candidates@.len() <= usize::MAX,
    ensures
        ({
            let cs = run.candidates@;
            let start = AdoptRun { phase: Phase::BindScratch, scratch_stuck: false, ..run };
            let silent = AdoptEvent::Probed(false);
            let taken = AdoptEvent::Probed(true);
            &&& next_phase(start, AdoptEvent::Added) == (Phase::Probe { at: 0, on_link: true })
            &&& next_phase(start, AdoptEvent::AddFailed(why)) == (Phase::Probe {
                at: 0,
                on_link: false,
            })
            &&& next_move(start, AdoptEvent::Added) == (Move::Probe {
                target: cs[0],
                source: Some(run.scratch),
            })
            &&& next_move(start, AdoptEvent::AddFailed(why)) == (Move::Probe {
                target: cs[0],
                source: None,
            })
            &&& next_phase(run, silent) == if on_link {
                Phase::Release { chosen: Some(cs[at as int]) }
            } else {
                Phase::Gate { candidate: cs[at as int] }
            }
            &&& at + 1 < cs.len() ==> {
                &&& next_phase(run, taken) == (Phase::Probe { at: (at + 1) as usize, on_link })
                &&& next_move(run, taken) == (Move::Probe {
                    target: cs[at + 1],
                    source: if on_link {
                        Some(run.scratch)
                    } else {
                        None
                    },
                })
            }
            &&& at + 1 == cs.len() && on_link ==> next_phase(run, taken) == (Phase::Release {
                chosen: None,
            })
            &&& at + 1 == cs.len() && !on_link ==> next_move(run, taken) == Move::Finish(
                Err(none_free_text(run.device_ip)),
            )
        }),
{
}

/// A run once the scratch address is bound and the first `n` candidates have answered.
pub open spec fn after_answers(run: AdoptRun, n: int) -> AdoptRun
    decreases n,
{
    if n <= 0 {
        AdoptRun { phase: next_phase(run, AdoptEvent::Added), ..run }
    } else {
        let before = after_answers(run, n - 1);
        AdoptRun { phase: next_phase(before, AdoptEvent::Probed(true)), ..before }
    }
}

/// A run that goes well binds the first candidate nobody answers on: once the scratch
/// address is bound, the candidates before it answer, and the scratch address is
/// released, it asks for a stop, adds that candidate and ends with it.
pub proof fn law_a_run_ends_with_a_free_address(run: AdoptRun, k: int)
    requires
        run.wf(),
        run.phase is BindScratch,
        0 <= k < run.candidates@.len(),
        run.candidates@.len() <= usize::MAX,
    ensures
        ({
            let c = run.candidates@[k];
            let probing = after_answers(run, k);
            let releasing = AdoptRun {
                phase: next_phase(probing, AdoptEvent::Probed(false)),
                ..probing
            };
            let gate = AdoptRun { phase: next_phase(releasing, AdoptEvent::Removed), ..releasing };
            let binding = AdoptRun {
                phase: next_phase(gate, AdoptEvent::Shutdown(false)),
                ..gate
            };
            &&& next_move(probing, AdoptEvent::Probed(false)) == (Move::Remove { ip: run.scratch })
            &&& next_move(releasing, AdoptEvent::Removed) == Move::AskShutdown
            &&& next_move(gate, AdoptEvent::Shutdown(false)) == (Move::Add { ip: c })
            &&& next_move(gate, AdoptEvent::Shutdown(true)) == Move::Finish(Ok(None))
            &&& next_move(binding, AdoptEvent::Added) == Move::Finish(Ok(Some(c)))
        }),
{
    lemma_after_answers(run, k);
}

proof fn lemma_after_answers(run: AdoptRun, n: int)
    requires
        run.phase is BindScratch,
        0 <= n < run.candidates@.len(),
        run.candidates@.len() <= usize::MAX,
    ensures
        after_answers(run, n) == (AdoptRun {
            phase: Phase::Probe { at: n as usize, on_link: true },
            ..run
        }),
    decreases n,
{
    if n > 0 {
        lemma_after_answers(run, n - 1);
    }
}

/// A failed bind ends the run with its reason, and the scratch address is let go whether
/// or not its removal worked.
pub proof fn law_a_failed_bind_ends_the_run(run: AdoptRun, candidate: Ipv4Addr, why: AppError)
    requires
        run.phase == (Phase::BindFinal { candidate }),
    ensures
        next_move(run, AdoptEvent::AddFailed(why)) == Move::Finish(Err(why.text())),
        next_phase(run, AdoptEvent::AddFailed(why)) is Finished,
        ({
            let release = AdoptRun { phase: Phase::Release { chosen: Some(candidate) }, ..run };
            let none = AdoptRun { phase: Phase::Release { chosen: None }, ..run };
            &&& next_phase(release, AdoptEvent::Removed) == next_phase(
                release,
                AdoptEvent::RemoveFailed,
            )
            &&& next_phase(release, AdoptEvent::Removed) == (Phase::Gate { candidate })
            &&& next_move(none, AdoptEvent::Removed) == Move::Finish(
                Err(none_free_text(run.device_ip)),
            )
            &&& next_move(none, AdoptEvent::RemoveFailed) == Move::Finish(
                Err(none_free_text(run.device_ip)),
            )
        }),
{
}

/// What a run has pending: an address is pending from before it is bound until its bind
/// failed or its removal worked. A removal that failed leaves it pending, and no step
/// touches what another adoption has pending.
pub proof fn law_what_is_pending(
    run: AdoptRun,
    event: AdoptEvent,
    pending: Seq<PendingView>,
    e: PendingView,
)
    requires
        run.wf(),
        fits(run.phase, event),
    ensures
        ({
            let after = next_pending(run, event, pending);
            let lets_go = match run.phase {
                Phase::BindScratch => event is AddFailed && e == run.entry(run.scratch),
                Phase::Release { .. } => event is Removed && e == run.entry(run.scratch),
                Phase::BindFinal { candidate } => event is AddFailed && e == run.entry(candidate),
                _ => false,
            };
            let takes = run.phase matches Phase::Gate { candidate } && event == AdoptEvent::Shutdown(
                false,
            ) && e == run.entry(candidate);
            after.contains(e) <==> (pending.contains(e) && !lets_go) || takes
        }),
{
    auto_adopt::law_dropping_spares_the_others(pending, run.entry(run.scratch), e);
    match run.phase {
        Phase::BindFinal { candidate } => {
            auto_adopt::law_dropping_spares_the_others(pending, run.entry(candidate), e);
        },
        Phase::Gate { candidate } => {
            auto_adopt::law_dropping_spares_the_others(pending, run.entry(candidate), e);
        },
        _ => {},
    }
}

} // verus!
