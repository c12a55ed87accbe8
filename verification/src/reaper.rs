//! Lifecycle decisions for adopted subnets.
//!
//! Given the evidence for one adoption, says whether to keep it, to badge it as
//! stale, or to unbind and forget it. Only a subnet inside 169.254.0.0/16 can be
//! removed, by the monotonic clocks of the session alone; wall time feeds the
//! badge and nothing else. User pins and a host that lives on link-local
//! addresses hold a removal back to a badge.

use crate::net::Ipv4Addr;
use crate::net;
use crate::text;
use crate::time::Duration;
use vstd::prelude::*;

verus! {

/// How long after the last sighting of a device this session an unprotected
/// link-local adoption survives, in seconds.
pub const REAP_TTL: u64 = 30 * 60;

/// Grace after discovery start for adoptions without a sighting this session,
/// in seconds.
pub const STARTUP_GRACE: u64 = 10 * 60;

/// Wall-clock age of the last recorded sighting from which an adoption is shown
/// as stale, in seconds.
pub const STALE_BADGE: u64 = 24 * 60 * 60;

/// What the lifecycle check wants done with one adoption.
#[derive(Clone, Copy, Debug, PartialEq, Eq, Structural)]
pub enum ReapVerdict {
    /// Healthy, or its key does not parse.
    Keep,
    /// Stale but not removable: badge only.
    StaleOnly,
    /// Unbind and forget.
    Reap,
}

/// Evidence for one adoption, gathered at decision time.
#[derive(Clone, Copy, Debug)]
pub struct LifecycleInput {
    /// Network address parsed from the subnet key.
    pub subnet: Option<Ipv4Addr>,
    /// Monotonic time since the last positive sighting this session.
    pub last_positive_elapsed: Option<Duration>,
    /// Monotonic time since this discovery session started.
    pub session_elapsed: Duration,
    /// A user-pinned device sits inside this subnet.
    pub pinned: bool,
    /// The host itself has no native address but link-local ones.
    pub host_rescued: bool,
    /// Wall-clock age of the last recorded sighting, or of the adoption.
    pub badge_age: Option<Duration>,
}

/// Reads an adoption key (`a.b.c.0/24`) as its network address; any other text
/// is refused.
pub fn parse_subnet_key(key: &str) -> (r: Option<Ipv4Addr>)
    ensures
        r == net::key_address(key@),
{
    let cs = text::chars_of(key);
    if cs.len() < 3 {
        return None;
    }
    let n: usize = cs.len() - 3;
    if cs[n] != '/' || cs[n + 1] != '2' || cs[n + 2] != '4' {
        proof {
            let t = key@.skip(n as int);
            assert(t[0] == cs@[n as int] && t[1] == cs@[n + 1] && t[2] == cs@[n + 2]);
        }
        return None;
    }
    proof {
        assert(key@.skip(n as int) =~= seq!['/', '2', '4']);
        assert(key@.take(n as int) =~= key@.subrange(0, n as int));
    }
    match Ipv4Addr::parse(key.substring_char(0, n)) {
        Some(ip) => if ip.d == 0 {
            Some(ip)
        } else {
            None
        },
        None => None,
    }
}

/// Whether the session's evidence for a link-local adoption has run out.
pub open spec fn evidence_expired(input: LifecycleInput) -> bool {
    match input.last_positive_elapsed {
        Some(elapsed) => elapsed.reaches_spec(REAP_TTL),
        None => input.session_elapsed.reaches_spec(STARTUP_GRACE),
    }
}

/// Whether the recorded wall time makes an adoption look stale.
pub open spec fn badge_due(input: LifecycleInput) -> bool {
    match input.badge_age {
        Some(age) => age.reaches_spec(STALE_BADGE),
        None => false,
    }
}

/// The lifecycle policy.
pub open spec fn verdict(input: LifecycleInput) -> ReapVerdict {
    match input.subnet {
        None => ReapVerdict::Keep,
        Some(net) => if !net.link_local() {
            if badge_due(input) {
                ReapVerdict::StaleOnly
            } else {
                ReapVerdict::Keep
            }
        } else if !evidence_expired(input) {
            ReapVerdict::Keep
        } else if input.pinned || input.host_rescued {
            ReapVerdict::StaleOnly
        } else {
            ReapVerdict::Reap
        },
    }
}

/// The lifecycle decision for one adoption.
pub fn lifecycle_verdict(input: &LifecycleInput) -> (r: ReapVerdict)
    ensures
        r == verdict(*input),
{
    let net = match input.subnet {
        Some(net) => net,
        None => {
            return ReapVerdict::Keep;
        },
    };
    if !net.is_link_local() {
        return match input.badge_age {
            Some(age) => if age.reaches(STALE_BADGE) {
                ReapVerdict::StaleOnly
            } else {
                ReapVerdict::Keep
            },
            None => ReapVerdict::Keep,
        };
    }
    let ttl_crossed = match input.last_positive_elapsed {
        Some(elapsed) => elapsed.reaches(REAP_TTL),
        None => input.session_elapsed.reaches(STARTUP_GRACE),
    };
    if !ttl_crossed {
        return ReapVerdict::Keep;
    }
    if input.pinned || input.host_rescued {
        return ReapVerdict::StaleOnly;
    }
    ReapVerdict::Reap
}

/// Only a parsed link-local subnet is ever removed.
pub proof fn law_only_link_local_reaps(input: LifecycleInput)
    requires
        verdict(input) == ReapVerdict::Reap,
    ensures
        input.subnet is Some,
        input.subnet->0.link_local(),
{
}

/// Wall time never decides a removal.
pub proof fn law_wall_time_never_removes(x: LifecycleInput, y: LifecycleInput)
    requires
        x.subnet == y.subnet,
        x.last_positive_elapsed == y.last_positive_elapsed,
        x.session_elapsed == y.session_elapsed,
        x.pinned == y.pinned,
        x.host_rescued == y.host_rescued,
    ensures
        verdict(x) == ReapVerdict::Reap <==> verdict(y) == ReapVerdict::Reap,
{
}

/// A pin or a rescued host turns a removal into a badge and changes no other
/// verdict.
pub proof fn law_veto_turns_reap_into_badge(input: LifecycleInput)
    ensures
        ({
            let free = LifecycleInput { pinned: false, host_rescued: false, ..input };
            if input.pinned || input.host_rescued {
                verdict(input) == if verdict(free) == ReapVerdict::Reap {
                    ReapVerdict::StaleOnly
                } else {
                    verdict(free)
                }
            } else {
                verdict(input) == verdict(free)
            }
        }),
{
}

/// A link-local adoption goes once nobody has been sighted on it for half an hour, or,
/// with no sighting this session, once the session is ten minutes old; a pin or a host
/// that lives on link-local addresses keeps it. Nothing else goes.
pub proof fn law_what_is_removed(input: LifecycleInput)
    ensures
        verdict(input) == ReapVerdict::Reap <==> {
            &&& input.subnet matches Some(n) && n.a == 169 && n.b == 254
            &&& !input.pinned
            &&& !input.host_rescued
            &&& input.last_positive_elapsed matches Some(e) ==> e.nanos >= 1_800_000_000_000
            &&& input.last_positive_elapsed is None ==> input.session_elapsed.nanos
                >= 600_000_000_000
        },
{
}

/// A badge is for an adoption off the link-local range whose last recorded sighting is a
/// day old, and for a link-local one that would go but for a pin or a rescued host.
pub proof fn law_what_is_badged(input: LifecycleInput)
    ensures
        verdict(input) == ReapVerdict::StaleOnly <==> (input.subnet matches Some(n) && if n.a == 169
            && n.b == 254 {
            verdict(LifecycleInput { pinned: false, host_rescued: false, ..input })
                == ReapVerdict::Reap && (input.pinned || input.host_rescued)
        } else {
            input.badge_age matches Some(age) && age.nanos >= 86_400_000_000_000
        }),
{
}

/// The age of the session counts only where there was no sighting in it.
pub proof fn law_sighting_outweighs_the_session(x: LifecycleInput, session_elapsed: Duration)
    requires
        x.last_positive_elapsed is Some,
    ensures
        verdict(LifecycleInput { session_elapsed, ..x }) == verdict(x),
{
}

/// Time only takes away: an adoption that is due stays due as its clocks go on.
pub proof fn law_due_stays_due(x: LifecycleInput, y: LifecycleInput)
    requires
        verdict(x) == ReapVerdict::Reap,
        y.subnet == x.subnet,
        y.pinned == x.pinned,
        y.host_rescued == x.host_rescued,
        y.session_elapsed.nanos >= x.session_elapsed.nanos,
        match (x.last_positive_elapsed, y.last_positive_elapsed) {
            (Some(a), Some(b)) => b.nanos >= a.nanos,
            (None, None) => true,
            _ => false,
        },
    ensures
        verdict(y) == ReapVerdict::Reap,
{
}

} // verus!
