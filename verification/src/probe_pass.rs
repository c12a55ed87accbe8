//! One pass over the subnets of cached devices, step by step.
//!
//! For each subnet the pass asks for a scratch address to be bound, for the cached
//! addresses to be resolved from it, and for it to be released. A device that answers
//! with its cached MAC is handed on to be adopted, always after the release. The pass
//! ends early when a stop is signalled or its time is up.

use crate::auto_adopt;
use crate::cache_probe::{CandidateView, ProbeCandidate};
use crate::net::Ipv4Addr;
use crate::text;
use crate::time::Instant;
use vstd::prelude::*;

verus! {

/// How long a pass may take, in seconds.
pub const CACHE_PROBE_PASS_BUDGET: u64 = 90;

/// What a pass did.
#[derive(Debug)]
pub struct PassReport {
    pub attempted: Vec<String>,
    pub handed_off: Vec<String>,
    /// Left out because the time was up.
    pub skipped_at_budget: Vec<String>,
}

/// Where a pass stands with its current subnet.
enum PassPhase {
    /// Before the first subnet.
    Ready,
    /// Waiting for the scratch address to be bound.
    Binding { scratch: Ipv4Addr },
    /// Waiting for the answer of pair `at`.
    Resolving { scratch: Ipv4Addr, at: usize },
    /// Waiting for the scratch address to be released.
    Releasing { matched: Option<(Ipv4Addr, String)> },
    /// Waiting for the adoption.
    Adopting,
    Over,
}

/// Where a pass stands, with text for strings.
pub enum PhaseView {
    Ready,
    Binding { scratch: Ipv4Addr },
    Resolving { scratch: Ipv4Addr, at: int },
    Releasing { matched: Option<(Ipv4Addr, Seq<char>)> },
    Adopting,
    Over,
}

/// One pass.
pub struct ProbePass {
    candidates: Vec<ProbeCandidate>,
    deadline: Instant,
    /// How many subnets were begun.
    begun: usize,
    phase: PassPhase,
    report: PassReport,
}

/// One pass, with text for strings.
#[verifier::ext_equal]
pub struct PassView {
    pub candidates: Seq<CandidateView>,
    pub deadline: Instant,
    pub begun: int,
    pub phase: PhaseView,
    pub attempted: Seq<Seq<char>>,
    pub handed_off: Seq<Seq<char>>,
    pub skipped: Seq<Seq<char>>,
}

spec fn phase_view(p: PassPhase) -> PhaseView {
    match p {
        PassPhase::Ready => PhaseView::Ready,
        PassPhase::Binding { scratch } => PhaseView::Binding { scratch },
        PassPhase::Resolving { scratch, at } => PhaseView::Resolving { scratch, at: at as int },
        PassPhase::Releasing { matched } => PhaseView::Releasing { matched: match_view(matched) },
        PassPhase::Adopting => PhaseView::Adopting,
        PassPhase::Over => PhaseView::Over,
    }
}

/// A matched address and MAC, as text.
pub open spec fn match_view(m: Option<(Ipv4Addr, String)>) -> Option<(Ipv4Addr, Seq<char>)> {
    match m {
        Some((ip, mac)) => Some((ip, mac@)),
        None => None,
    }
}

impl View for ProbePass {
    type V = PassView;

    closed spec fn view(&self) -> PassView {
        PassView {
            candidates: text::views(self.candidates@),
            deadline: self.deadline,
            begun: self.begun as int,
            phase: phase_view(self.phase),
            attempted: text::views(self.report.attempted@),
            handed_off: text::views(self.report.handed_off@),
            skipped: text::views(self.report.skipped_at_budget@),
        }
    }
}

/// Work that the pass asks for.
#[derive(Debug)]
pub enum ProbeAction {
    Bind { subnet: String, scratch: Ipv4Addr },
    Resolve { target: Ipv4Addr, scratch: Ipv4Addr },
    Release { subnet: String, scratch: Ipv4Addr },
    Adopt { subnet: String, ip: Ipv4Addr, mac: String },
    Finish,
}

/// Work that the pass asks for, with text for strings.
pub enum ProbeMove {
    Bind { subnet: Seq<char>, scratch: Ipv4Addr },
    Resolve { target: Ipv4Addr, scratch: Ipv4Addr },
    Release { subnet: Seq<char>, scratch: Ipv4Addr },
    Adopt { subnet: Seq<char>, ip: Ipv4Addr, mac: Seq<char> },
    Finish,
}

impl View for ProbeAction {
    type V = ProbeMove;

    open spec fn view(&self) -> ProbeMove {
        match self {
            ProbeAction::Bind { subnet, scratch } => ProbeMove::Bind {
                subnet: subnet@,
                scratch: *scratch,
            },
            ProbeAction::Resolve { target, scratch } => ProbeMove::Resolve {
                target: *target,
                scratch: *scratch,
            },
            ProbeAction::Release { subnet, scratch } => ProbeMove::Release {
                subnet: subnet@,
                scratch: *scratch,
            },
            ProbeAction::Adopt { subnet, ip, mac } => ProbeMove::Adopt {
                subnet: subnet@,
                ip: *ip,
                mac: mac@,
            },
            ProbeAction::Finish => ProbeMove::Finish,
        }
    }
}

/// How the work went.
#[derive(Debug)]
pub enum ProbeEvent {
    Begin,
    Bound(bool),
    /// The MAC that answered; nothing if none did, or if it could not be asked for.
    Resolved(Option<String>),
    Released,
    /// Whether to go on after the adoption.
    Adopted(bool),
}

/// How the work went, with text for strings.
pub enum EventView {
    Begin,
    Bound(bool),
    Resolved(Option<Seq<char>>),
    Released,
    Adopted(bool),
}

impl View for ProbeEvent {
    type V = EventView;

    open spec fn view(&self) -> EventView {
        match self {
            ProbeEvent::Begin => EventView::Begin,
            ProbeEvent::Bound(b) => EventView::Bound(*b),
            ProbeEvent::Resolved(Some(s)) => EventView::Resolved(Some(s@)),
            ProbeEvent::Resolved(None) => EventView::Resolved(None),
            ProbeEvent::Released => EventView::Released,
            ProbeEvent::Adopted(b) => EventView::Adopted(*b),
        }
    }
}

/// Whether the event answers what was asked for last.
pub open spec fn answers(phase: PhaseView, event: EventView) -> bool {
    match phase {
        PhaseView::Ready => event is Begin,
        PhaseView::Binding { .. } => event is Bound,
        PhaseView::Resolving { .. } => event is Resolved,
        PhaseView::Releasing { .. } => event is Released,
        PhaseView::Adopting => event is Adopted,
        PhaseView::Over => false,
    }
}

/// The subnets of the candidates.
pub open spec fn subnets(s: Seq<CandidateView>) -> Seq<Seq<char>> {
    s.map_values(|c: CandidateView| c.subnet)
}

/// The addresses of a candidate.
pub open spec fn addresses(c: CandidateView) -> Seq<Ipv4Addr> {
    c.pairs.map_values(|p: (Ipv4Addr, Seq<char>)| p.0)
}

/// The scratch address for a candidate: on its /24, and none of its addresses while one
/// of ten choices is free.
pub open spec fn scratch_of(c: CandidateView) -> Ipv4Addr {
    auto_adopt::scratch_for(c.pairs[0].0, addresses(c))
}

/// The subnet that is being looked at.
pub open spec fn current(v: PassView) -> CandidateView {
    v.candidates[v.begun - 1]
}

/// On to the next subnet; an end if there is none, if a stop was signalled, or if the
/// time is up, which leaves the rest out.
pub open spec fn next_subnet(v: PassView, shutdown: bool, now: Instant) -> (PassView, ProbeMove) {
    if v.begun >= v.candidates.len() || shutdown {
        (PassView { phase: PhaseView::Over, ..v }, ProbeMove::Finish)
    } else if now.nanos >= v.deadline.nanos {
        (
            PassView {
                phase: PhaseView::Over,
                skipped: v.skipped + subnets(v.candidates.skip(v.begun)),
                ..v
            },
            ProbeMove::Finish,
        )
    } else {
        let c = v.candidates[v.begun];
        (
            PassView {
                phase: PhaseView::Binding { scratch: scratch_of(c) },
                begun: v.begun + 1,
                attempted: v.attempted.push(c.subnet),
                ..v
            },
            ProbeMove::Bind { subnet: c.subnet, scratch: scratch_of(c) },
        )
    }
}

/// On to pair `at`; the release if there is none, if a stop was signalled, or if the
/// time is up.
pub open spec fn next_pair(
    v: PassView,
    scratch: Ipv4Addr,
    at: int,
    shutdown: bool,
    now: Instant,
) -> (PassView, ProbeMove) {
    let c = current(v);
    if at >= c.pairs.len() || shutdown || now.nanos >= v.deadline.nanos {
        release_move(v, scratch, None)
    } else {
        (
            PassView { phase: PhaseView::Resolving { scratch, at }, ..v },
            ProbeMove::Resolve { target: c.pairs[at].0, scratch },
        )
    }
}

/// On to the release.
pub open spec fn release_move(
    v: PassView,
    scratch: Ipv4Addr,
    matched: Option<(Ipv4Addr, Seq<char>)>,
) -> (PassView, ProbeMove) {
    (
        PassView { phase: PhaseView::Releasing { matched }, ..v },
        ProbeMove::Release { subnet: current(v).subnet, scratch },
    )
}

/// How a pass goes on.
pub open spec fn pass_next(
    v: PassView,
    event: EventView,
    shutdown: bool,
    now: Instant,
) -> (PassView, ProbeMove) {
    match (v.phase, event) {
        (PhaseView::Binding { scratch }, EventView::Bound(true)) => next_pair(
            v,
            scratch,
            0,
            shutdown,
            now,
        ),
        (PhaseView::Resolving { scratch, at }, EventView::Resolved(answer)) => if answer == Some(
            current(v).pairs[at].1,
        ) {
            release_move(v, scratch, Some(current(v).pairs[at]))
        } else {
            next_pair(v, scratch, at + 1, shutdown, now)
        },
        (PhaseView::Releasing { matched: Some((ip, mac)) }, _) => (
            PassView {
                phase: PhaseView::Adopting,
                handed_off: v.handed_off.push(current(v).subnet),
                ..v
            },
            ProbeMove::Adopt { subnet: current(v).subnet, ip, mac },
        ),
        (PhaseView::Adopting, EventView::Adopted(false)) => (
            PassView { phase: PhaseView::Over, ..v },
            ProbeMove::Finish,
        ),
        _ => next_subnet(v, shutdown, now),
    }
}

/// A pass that can be: its subnets have pairs, those that were begun were attempted in
/// order, and its phase fits.
pub open spec fn pass_ok(v: PassView) -> bool {
    &&& 0 <= v.begun <= v.candidates.len()
    &&& forall|i: int| 0 <= i < v.candidates.len() ==> (#[trigger] v.candidates[i]).pairs.len() > 0
    &&& v.attempted == subnets(v.candidates.take(v.begun))
    &&& v.skipped == subnets(v.candidates.skip(v.begun)) || v.skipped.len() == 0
    &&& v.phase !is Over ==> v.skipped.len() == 0
    &&& v.phase is Ready ==> v.begun == 0
    &&& !(v.phase is Ready || v.phase is Over) ==> v.begun > 0
    &&& match v.phase {
        PhaseView::Binding { scratch } => scratch == scratch_of(current(v)),
        PhaseView::Resolving { scratch, at } => scratch == scratch_of(current(v)) && 0 <= at
            < current(v).pairs.len(),
        PhaseView::Releasing { matched: Some(p) } => current(v).pairs.contains(p),
        _ => true,
    }
}

proof fn lemma_pass_ok(v: PassView, event: EventView, shutdown: bool, now: Instant)
    requires
        pass_ok(v),
        answers(v.phase, event),
    ensures
        pass_ok(pass_next(v, event, shutdown, now).0),
{
    let w = pass_next(v, event, shutdown, now).0;
    if w.begun == v.begun + 1 {
        assert(v.candidates.take(v.begun + 1) =~= v.candidates.take(v.begun).push(
            v.candidates[v.begun],
        ));
        assert(subnets(v.candidates.take(v.begun + 1)) =~= subnets(v.candidates.take(v.begun)).push(
            v.candidates[v.begun].subnet,
        ));
        assert(w.skipped =~= v.skipped);
    }
    if w.skipped != v.skipped {
        assert(w.skipped =~= subnets(v.candidates.skip(v.begun)));
    }
    match (v.phase, event) {
        (PhaseView::Resolving { scratch, at }, EventView::Resolved(answer)) => {
            assert(current(v).pairs.contains(current(v).pairs[at]));
        },
        _ => {},
    }
}

impl ProbePass {
    #[verifier::type_invariant]
    spec fn valid(self) -> bool {
        pass_ok(self@)
    }

    /// A pass over the candidates that has to end by `deadline`.
    pub fn run_pass(candidates: Vec<ProbeCandidate>, deadline: Instant) -> (r: ProbePass)
        requires
            forall|i: int|
                0 <= i < candidates@.len() ==> (#[trigger] candidates@[i]).pairs@.len() > 0,
        ensures
            r@ == (PassView {
                candidates: text::views(candidates@),
                deadline,
                begun: 0,
                phase: PhaseView::Ready,
                attempted: Seq::empty(),
                handed_off: Seq::empty(),
                skipped: Seq::empty(),
            }),
    {
        let ghost cs = text::views(candidates@);
        let report = PassReport {
            attempted: Vec::new(),
            handed_off: Vec::new(),
            skipped_at_budget: Vec::new(),
        };
        proof {
            assert(text::views(report.attempted@) =~= Seq::empty());
            assert(text::views(report.handed_off@) =~= Seq::empty());
            assert(text::views(report.skipped_at_budget@) =~= Seq::empty());
            assert(subnets(cs.take(0)) =~= Seq::empty());
            assert forall|i: int| 0 <= i < cs.len() implies (#[trigger] cs[i]).pairs.len() > 0 by {
                assert(candidates@[i].pairs@.len() > 0);
            }
        }
        ProbePass { candidates, deadline, begun: 0, phase: PassPhase::Ready, report }
    }

    /// The report so far.
    pub fn report(&self) -> (r: &PassReport)
        ensures
            text::views(r.attempted@) == self@.attempted,
            text::views(r.handed_off@) == self@.handed_off,
            text::views(r.skipped_at_budget@) == self@.skipped,
            pass_ok(self@),
    {
        proof {
            use_type_invariant(self);
        }
        &self.report
    }

    /// Takes note of how the work went and says what to do next. `shutdown` says whether
    /// a stop was signalled.
    pub fn step(self, event: ProbeEvent, shutdown: bool, now: Instant) -> (r: (
        ProbePass,
        ProbeAction,
    ))
        requires
            answers(self@.phase, event@),
        ensures
            r.0@ == pass_next(self@, event@, shutdown, now).0,
            r.1@ == pass_next(self@, event@, shutdown, now).1,
    {
        proof {
            use_type_invariant(&self);
            lemma_pass_ok(self@, event@, shutdown, now);
        }
        let ghost v = self@;
        let ghost target = pass_next(v, event@, shutdown, now).0;
        let ProbePass { candidates, deadline, begun, phase, report } = self;
        match (phase, event) {
            (PassPhase::Binding { scratch }, ProbeEvent::Bound(true)) => Self::pair(
                candidates,
                deadline,
                begun,
                report,
                scratch,
                0,
                shutdown,
                now,
            ),
            (PassPhase::Resolving { scratch, at }, ProbeEvent::Resolved(answer)) => {
                let c = &candidates[begun - 1];
                assert(current(v) == c@);
                let hit = match &answer {
                    Some(mac) => text::same(mac.as_str(), c.pairs[at].1.as_str()),
                    None => false,
                };
                assert(current(v).pairs[at as int] == (c.pairs@[at as int].0, c.pairs@[at as int].1@));
                if hit {
                    let matched = Some((c.pairs[at].0, c.pairs[at].1.clone()));
                    let action = ProbeAction::Release { subnet: c.subnet.clone(), scratch };
                    (
                        ProbePass {
                            candidates,
                            deadline,
                            begun,
                            phase: PassPhase::Releasing { matched },
                            report,
                        },
                        action,
                    )
                } else {
                    assert(c.pairs@.len() == current(v).pairs.len());
                    let _len: usize = c.pairs.len();
                    Self::pair(
                        candidates,
                        deadline,
                        begun,
                        report,
                        scratch,
                        at + 1,
                        shutdown,
                        now,
                    )
                }
            },
            (PassPhase::Releasing { matched: Some((ip, mac)) }, _) => {
                let c = &candidates[begun - 1];
                assert(current(v) == c@);
                let mut report = report;
                let subnet = c.subnet.clone();
                proof {
                    text::lemma_views_push(report.handed_off@, subnet);
                }
                report.handed_off.push(subnet.clone());
                assert(text::views(report.handed_off@) =~= v.handed_off.push(subnet@));
                (
                    ProbePass { candidates, deadline, begun, phase: PassPhase::Adopting, report },
                    ProbeAction::Adopt { subnet, ip, mac },
                )
            },
            (PassPhase::Adopting, ProbeEvent::Adopted(false)) => (
                ProbePass { candidates, deadline, begun, phase: PassPhase::Over, report },
                ProbeAction::Finish,
            ),
            _ => Self::subnet(candidates, deadline, begun, report, shutdown, now),
        }
    }

    fn pair(
        candidates: Vec<ProbeCandidate>,
        deadline: Instant,
        begun: usize,
        report: PassReport,
        scratch: Ipv4Addr,
        at: usize,
        shutdown: bool,
        now: Instant,
    ) -> (r: (ProbePass, ProbeAction))
        requires
            0 < begun <= candidates@.len(),
            ({
                let v = PassView {
                    candidates: text::views(candidates@),
                    deadline,
                    begun: begun as int,
                    phase: PhaseView::Ready,
                    attempted: text::views(report.attempted@),
                    handed_off: text::views(report.handed_off@),
                    skipped: text::views(report.skipped_at_budget@),
                };
                pass_ok(next_pair(v, scratch, at as int, shutdown, now).0)
            }),
        ensures
            ({
                let v = PassView {
                    candidates: text::views(candidates@),
                    deadline,
                    begun: begun as int,
                    phase: PhaseView::Ready,
                    attempted: text::views(report.attempted@),
                    handed_off: text::views(report.handed_off@),
                    skipped: text::views(report.skipped_at_budget@),
                };
                let n = next_pair(v, scratch, at as int, shutdown, now);
                r.0@ == n.0 && r.1@ == n.1
            }),
    {
        let c = &candidates[begun - 1];
        assert(text::views(candidates@)[begun - 1] == c@);
        assert(c@.pairs.len() == c.pairs@.len());
        if at >= c.pairs.len() || shutdown || now.nanos >= deadline.nanos {
            let action = ProbeAction::Release { subnet: c.subnet.clone(), scratch };
            (
                ProbePass {
                    candidates,
                    deadline,
                    begun,
                    phase: PassPhase::Releasing { matched: None },
                    report,
                },
                action,
            )
        } else {
            assert(c@.pairs[at as int] == (c.pairs@[at as int].0, c.pairs@[at as int].1@));
            let action = ProbeAction::Resolve { target: c.pairs[at].0, scratch };
            (
                ProbePass {
                    candidates,
                    deadline,
                    begun,
                    phase: PassPhase::Resolving { scratch, at },
                    report,
                },
                action,
            )
        }
    }

    fn subnet(
        candidates: Vec<ProbeCandidate>,
        deadline: Instant,
        begun: usize,
        report: PassReport,
        shutdown: bool,
        now: Instant,
    ) -> (r: (ProbePass, ProbeAction))
        requires
            begun <= candidates@.len(),
            forall|i: int|
                0 <= i < candidates@.len() ==> (#[trigger] text::views(candidates@)[i]).pairs.len()
                    > 0,
            ({
                let v = PassView {
                    candidates: text::views(candidates@),
                    deadline,
                    begun: begun as int,
                    phase: PhaseView::Ready,
                    attempted: text::views(report.attempted@),
                    handed_off: text::views(report.handed_off@),
                    skipped: text::views(report.skipped_at_budget@),
                };
                pass_ok(next_subnet(v, shutdown, now).0)
            }),
        ensures
            ({
                let v = PassView {
                    candidates: text::views(candidates@),
                    deadline,
                    begun: begun as int,
                    phase: PhaseView::Ready,
                    attempted: text::views(report.attempted@),
                    handed_off: text::views(report.handed_off@),
                    skipped: text::views(report.skipped_at_budget@),
                };
                let n = next_subnet(v, shutdown, now);
                r.0@ == n.0 && r.1@ == n.1
            }),
    {
        let ghost cs = text::views(candidates@);
        let mut report = report;
        if begun >= candidates.len() || shutdown {
            return (
                ProbePass { candidates, deadline, begun, phase: PassPhase::Over, report },
                ProbeAction::Finish,
            );
        }
        if now.nanos >= deadline.nanos {
            let ghost rest = subnets(cs.skip(begun as int));
            let ghost start = text::views(report.skipped_at_budget@);
            let ghost attempted = report.attempted;
            let ghost handed_off = report.handed_off;
            let mut i: usize = begun;
            assert(rest.take(0) =~= Seq::empty());
            assert(text::views(report.skipped_at_budget@) =~= start + rest.take(0));
            while i < candidates.len()
                invariant
                    begun <= i <= candidates.len(),
                    cs == text::views(candidates@),
                    rest == subnets(cs.skip(begun as int)),
                    text::views(report.skipped_at_budget@) == start + rest.take(i - begun),
                    report.attempted == attempted,
                    report.handed_off == handed_off,
                decreases candidates.len() - i,
            {
                let s = candidates[i].subnet.clone();
                proof {
                    assert(rest[i - begun] == s@);
                    rest.lemma_take_succ_push(i - begun);
                    text::lemma_views_push(report.skipped_at_budget@, s);
                    assert((start + rest.take(i - begun)).push(s@) =~= start + rest.take(
                        i - begun + 1,
                    ));
                }
                report.skipped_at_budget.push(s);
                i += 1;
            }
            assert(rest.take(i - begun) =~= rest);
            return (
                ProbePass { candidates, deadline, begun, phase: PassPhase::Over, report },
                ProbeAction::Finish,
            );
        }
        let c = &candidates[begun];
        assert(cs[begun as int] == c@);
        let mut ips: Vec<Ipv4Addr> = Vec::new();
        let mut k: usize = 0;
        assert(ips@ =~= addresses(c@).take(0));
        while k < c.pairs.len()
            invariant
                k <= c.pairs.len(),
                ips@ == addresses(c@).take(k as int),
            decreases c.pairs.len() - k,
        {
            proof {
                assert(addresses(c@)[k as int] == c.pairs@[k as int].0);
                addresses(c@).lemma_take_succ_push(k as int);
            }
            ips.push(c.pairs[k].0);
            k += 1;
        }
        assert(addresses(c@).take(k as int) =~= addresses(c@));
        assert(c@.pairs[0] == (c.pairs@[0].0, c.pairs@[0].1@));
        let scratch = auto_adopt::pick_scratch(c.pairs[0].0, &ips);
        assert(scratch == scratch_of(c@));
        let subnet = c.subnet.clone();
        let ghost before = text::views(report.attempted@);
        report.attempted.push(subnet.clone());
        assert(text::views(report.attempted@) =~= before.push(c@.subnet));
        let action = ProbeAction::Bind { subnet, scratch };
        (
            ProbePass {
                candidates,
                deadline,
                begun: begun + 1,
                phase: PassPhase::Binding { scratch },
                report,
            },
            action,
        )
    }
}

/// Whether a scratch address may be bound while the pass waits.
pub open spec fn scratch_out(v: PassView) -> bool {
    v.phase is Binding || v.phase is Resolving || v.phase is Releasing
}

/// A scratch address is bound only when none is, an adoption is asked for only when none
/// is, and the pass ends only when none is; where the bind of one failed nothing is to
/// be released.
pub proof fn law_scratch_is_released_first(
    v: PassView,
    event: EventView,
    shutdown: bool,
    now: Instant,
)
    requires
        pass_ok(v),
        answers(v.phase, event),
    ensures
        ({
            let m = pass_next(v, event, shutdown, now).1;
            let w = pass_next(v, event, shutdown, now).0;
            let held = scratch_out(v) && event != EventView::Bound(false) && event
                != EventView::Released;
            &&& m is Bind || m is Adopt || m is Finish ==> !held
            &&& held ==> m is Resolve || m is Release
            &&& scratch_out(w) <==> held || m is Bind
        }),
{
}

/// Only a device that answered with its cached MAC is handed on.
pub proof fn law_only_matches_are_adopted(
    v: PassView,
    event: EventView,
    shutdown: bool,
    now: Instant,
)
    requires
        pass_ok(v),
        answers(v.phase, event),
    ensures
        ({
            let (w, m) = pass_next(v, event, shutdown, now);
            &&& m matches ProbeMove::Adopt { subnet, ip, mac } ==> subnet == current(v).subnet
                && current(v).pairs.contains((ip, mac)) && v.phase == (PhaseView::Releasing {
                matched: Some((ip, mac)),
            })
            &&& w.phase matches PhaseView::Releasing { matched: Some(p) } ==> event
                == EventView::Resolved(Some(p.1))
        }),
{
}

/// When a pass is over, each subnet was attempted, or was left out because the time was
/// up, or a stop was signalled; the reports list them in order.
pub proof fn law_pass_covers_all(v: PassView, event: EventView, now: Instant)
    requires
        pass_ok(v),
        answers(v.phase, event),
        event != EventView::Adopted(false),
        pass_next(v, event, false, now).0.phase is Over,
    ensures
        ({
            let w = pass_next(v, event, false, now).0;
            w.attempted + w.skipped == subnets(v.candidates)
        }),
{
    let w = pass_next(v, event, false, now).0;
    let all = subnets(v.candidates);
    assert(subnets(v.candidates.take(v.begun)) + subnets(v.candidates.skip(v.begun)) =~= all);
    if v.begun >= v.candidates.len() {
        assert(v.candidates.take(v.begun) =~= v.candidates);
        assert(w.attempted + w.skipped =~= all);
    } else {
        assert(w.skipped =~= subnets(v.candidates.skip(v.begun)));
    }
}

/// While there is time and no stop, each candidate has its turn: its subnet is bound with
/// a scratch address, and noted as attempted. A bind that failed passes on to the next.
pub proof fn law_each_subnet_has_its_turn(v: PassView, event: EventView, now: Instant)
    requires
        v.phase is Ready && event is Begin || v.phase is Binding && event == EventView::Bound(false)
            || v.phase == (PhaseView::Releasing { matched: None }) && event is Released || v.phase
            is Adopting && event == EventView::Adopted(true),
        0 <= v.begun < v.candidates.len(),
        now.nanos < v.deadline.nanos,
    ensures
        ({
            let (w, m) = pass_next(v, event, false, now);
            let c = v.candidates[v.begun];
            &&& m == (ProbeMove::Bind { subnet: c.subnet, scratch: scratch_of(c) })
            &&& w.phase == (PhaseView::Binding { scratch: scratch_of(c) })
            &&& w.candidates == v.candidates
            &&& w.deadline == v.deadline
            &&& w.begun == v.begun + 1
            &&& w.attempted == v.attempted.push(c.subnet)
            &&& w.handed_off == v.handed_off
            &&& w.skipped == v.skipped
        }),
{
}

/// Where the time is up the candidates that had no turn are reported as left out; where a
/// stop came, or an adoption asked to end, the pass ends without that.
pub proof fn law_what_is_left_out(v: PassView, shutdown: bool, now: Instant)
    requires
        v.phase is Ready,
        0 <= v.begun < v.candidates.len(),
        v.skipped.len() == 0,
    ensures
        ({
            let (w, m) = pass_next(v, EventView::Begin, shutdown, now);
            &&& shutdown ==> w.phase is Over && m is Finish && w.skipped.len() == 0
            &&& !shutdown && now.nanos >= v.deadline.nanos ==> w.phase is Over && m is Finish
                && w.skipped.len() == v.candidates.len() - v.begun && forall|i: int|
                0 <= i < w.skipped.len() ==> #[trigger] w.skipped[i] == v.candidates[v.begun
                    + i].subnet
        }),
{
}

/// A bound subnet's cached addresses are asked in turn, each from the scratch address. One
/// that answers with its cached MAC is a match: the scratch address goes, and the device
/// is handed on. Any other answer leads to the next address, and after the last the
/// scratch address goes with no match.
pub proof fn law_a_match_is_handed_on(
    v: PassView,
    scratch: Ipv4Addr,
    at: int,
    answer: Option<Seq<char>>,
    shutdown: bool,
    now: Instant,
)
    requires
        0 < v.begun <= v.candidates.len(),
        v.phase == (PhaseView::Resolving { scratch, at }),
        0 <= at < v.candidates[v.begun - 1].pairs.len(),
    ensures
        ({
            let c = v.candidates[v.begun - 1];
            let (ip, mac) = c.pairs[at];
            let (w, m) = pass_next(v, EventView::Resolved(answer), shutdown, now);
            let release = ProbeMove::Release { subnet: c.subnet, scratch };
            let (w2, m2) = pass_next(w, EventView::Released, shutdown, now);
            &&& answer == Some(mac) ==> {
                &&& m == release
                &&& m2 == (ProbeMove::Adopt { subnet: c.subnet, ip, mac })
                &&& w2.handed_off == v.handed_off.push(c.subnet)
                &&& w2.phase is Adopting
            }
            &&& answer != Some(mac) && at + 1 < c.pairs.len() && !shutdown && now.nanos
                < v.deadline.nanos ==> m == (ProbeMove::Resolve {
                target: c.pairs[at + 1].0,
                scratch,
            }) && w.phase == (PhaseView::Resolving { scratch, at: at + 1 })
            &&& answer != Some(mac) && (at + 1 >= c.pairs.len() || shutdown || now.nanos
                >= v.deadline.nanos) ==> m == release && w.phase == (PhaseView::Releasing {
                matched: None,
            }) && !(m2 is Adopt)
            &&& w.handed_off == v.handed_off
            &&& w.attempted == v.attempted
        }),
{
}

/// The first address of a bound subnet is asked at once.
pub proof fn law_a_bound_subnet_is_asked(v: PassView, scratch: Ipv4Addr, now: Instant)
    requires
        0 < v.begun <= v.candidates.len(),
        v.phase == (PhaseView::Binding { scratch }),
        v.candidates[v.begun - 1].pairs.len() > 0,
        now.nanos < v.deadline.nanos,
    ensures
        ({
            let (w, m) = pass_next(v, EventView::Bound(true), false, now);
            &&& m == (ProbeMove::Resolve {
                target: v.candidates[v.begun - 1].pairs[0].0,
                scratch,
            })
            &&& w.phase == (PhaseView::Resolving { scratch, at: 0 })
        }),
{
}

/// The scratch address of a candidate is on the /24 of its cached addresses, and is none
/// of them where one of the five highest is free.
pub proof fn law_the_scratch_address_is_no_device(c: CandidateView, d: u8)
    requires
        c.pairs.len() > 0,
        250 <= d <= 254,
        forall|i: int| 0 <= i < c.pairs.len() ==> (#[trigger] c.pairs[i]).0.d != d,
    ensures
        ({
            let s = scratch_of(c);
            let first = c.pairs[0].0;
            &&& s.a == first.a && s.b == first.b && s.c == first.c
            &&& forall|i: int| 0 <= i < c.pairs.len() ==> (#[trigger] c.pairs[i]).0.d != s.d
        }),
{
    let taken = addresses(c);
    assert forall|i: int| 0 <= i < taken.len() implies (#[trigger] taken[i]).d != d by {
        assert(taken[i] == c.pairs[i].0);
    }
    assert(c.pairs[0].0.d != d);
    auto_adopt::law_scratch_is_the_highest_free(c.pairs[0].0, taken, d);
    let s = scratch_of(c);
    assert forall|i: int| 0 <= i < c.pairs.len() implies (#[trigger] c.pairs[i]).0.d != s.d by {
        assert(taken[i] == c.pairs[i].0);
        assert(taken[i].d != s.d);
    }
}

} // verus!
