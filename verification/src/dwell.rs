//! The wait for a second observation in front of an adoption.
//!
//! A device on a foreign subnet has to be heard twice before the subnet is
//! adopted, so a single stray frame binds nothing.

use crate::text;
use vstd::prelude::*;

verus! {

/// The verdict on one observation.
#[derive(Clone, Copy, Debug, PartialEq, Eq, Structural)]
pub enum DwellVerdict {
    /// First observation of the device on the subnet.
    Started,
    /// Still the same observation.
    Waiting,
    /// A second observation.
    Mature,
}

struct DwellEntry {
    subnet: String,
    mac: String,
    token: String,
}

/// A device that was heard once: its subnet, its MAC, and the observation.
#[verifier::ext_equal]
pub struct Heard {
    pub subnet: Seq<char>,
    pub mac: Seq<char>,
    pub token: Seq<char>,
}

impl View for DwellEntry {
    type V = Heard;

    closed spec fn view(&self) -> Heard {
        Heard { subnet: self.subnet@, mac: self.mac@, token: self.token@ }
    }
}

/// The devices that were heard once, oldest first.
pub struct DwellTracker {
    list: Vec<DwellEntry>,
}

impl View for DwellTracker {
    type V = Seq<Heard>;

    closed spec fn view(&self) -> Seq<Heard> {
        text::views(self.list@)
    }
}

/// The observation held for a device on a subnet.
pub open spec fn held(s: Seq<Heard>, subnet: Seq<char>, mac: Seq<char>) -> Option<Seq<char>>
    decreases s.len(),
{
    if s.len() == 0 {
        None
    } else if s[0].subnet == subnet && s[0].mac == mac {
        Some(s[0].token)
    } else {
        held(s.drop_first(), subnet, mac)
    }
}

/// Being on another subnet.
pub open spec fn off_subnet(subnet: Seq<char>) -> spec_fn(Heard) -> bool {
    |h: Heard| h.subnet != subnet
}

/// The verdict on an observation.
pub open spec fn dwell_verdict(
    s: Seq<Heard>,
    subnet: Seq<char>,
    mac: Seq<char>,
    token: Seq<char>,
) -> DwellVerdict {
    match held(s, subnet, mac) {
        None => DwellVerdict::Started,
        Some(t) => if t == token {
            DwellVerdict::Waiting
        } else {
            DwellVerdict::Mature
        },
    }
}

/// What is held after an observation.
pub open spec fn dwell_next(
    s: Seq<Heard>,
    subnet: Seq<char>,
    mac: Seq<char>,
    token: Seq<char>,
) -> Seq<Heard> {
    if held(s, subnet, mac) is None {
        s.push(Heard { subnet, mac, token })
    } else {
        s
    }
}

impl DwellTracker {
    pub fn new() -> (r: DwellTracker)
        ensures
            r@ == Seq::<Heard>::empty(),
    {
        let r = DwellTracker { list: Vec::new() };
        assert(r@ =~= Seq::<Heard>::empty());
        r
    }

    /// Takes one observation of a device; `token` differs from one accepted frame
    /// to the next.
    pub fn check(&mut self, subnet: &str, mac: &str, token: &str) -> (r: DwellVerdict)
        ensures
            r == dwell_verdict(old(self)@, subnet@, mac@, token@),
            final(self)@ == dwell_next(old(self)@, subnet@, mac@, token@),
    {
        let mut i: usize = 0;
        let ghost all = self@;
        assert(all.skip(0) =~= all);
        while i < self.list.len()
            invariant
                i <= self.list.len(),
                all == self@,
                self@ == old(self)@,
                held(all, subnet@, mac@) == held(all.skip(i as int), subnet@, mac@),
            decreases self.list.len() - i,
        {
            let e = &self.list[i];
            assert(all.skip(i as int)[0] == e@);
            assert(all.skip(i as int).drop_first() =~= all.skip(i + 1));
            if text::same(e.subnet.as_str(), subnet) && text::same(e.mac.as_str(), mac) {
                return if text::same(e.token.as_str(), token) {
                    DwellVerdict::Waiting
                } else {
                    DwellVerdict::Mature
                };
            }
            i += 1;
        }
        let e = DwellEntry {
            subnet: String::from_str(subnet),
            mac: String::from_str(mac),
            token: String::from_str(token),
        };
        proof {
            text::lemma_views_push(self.list@, e);
        }
        self.list.push(e);
        DwellVerdict::Started
    }

    /// Forgets every device on the subnet.
    pub fn prune_subnet(&mut self, subnet: &str)
        ensures
            final(self)@ == old(self)@.filter(off_subnet(subnet@)),
    {
        let ghost keep = off_subnet(subnet@);
        let ghost all = self@;
        let mut kept: Vec<DwellEntry> = Vec::new();
        let mut i: usize = 0;
        assert(text::views(kept@) =~= all.take(0).filter(keep)) by {
            assert(all.take(0) =~= Seq::empty());
            reveal(Seq::filter);
        }
        while i < self.list.len()
            invariant
                i <= self.list.len(),
                all == self@,
                keep == off_subnet(subnet@),
                text::views(kept@) == all.take(i as int).filter(keep),
            decreases self.list.len() - i,
        {
            let x = &self.list[i];
            let copy = DwellEntry {
                subnet: x.subnet.clone(),
                mac: x.mac.clone(),
                token: x.token.clone(),
            };
            proof {
                assert(all[i as int] == self.list@[i as int]@);
                all.lemma_take_succ_push(i as int);
                all.take(i as int).lemma_filter_push(all[i as int], keep);
                text::lemma_views_push(kept@, copy);
            }
            if !text::same(x.subnet.as_str(), subnet) {
                kept.push(copy);
            }
            i += 1;
        }
        assert(all.take(i as int) =~= all);
        self.list = kept;
    }
}

/// A device is let through only at its second observation: the first one starts
/// the wait, a repeat of it keeps waiting, and another one ends it.
pub proof fn law_two_observations(
    s: Seq<Heard>,
    subnet: Seq<char>,
    mac: Seq<char>,
    first: Seq<char>,
    second: Seq<char>,
)
    requires
        held(s, subnet, mac) is None,
    ensures
        dwell_verdict(s, subnet, mac, first) == DwellVerdict::Started,
        dwell_verdict(dwell_next(s, subnet, mac, first), subnet, mac, second) == if first
            == second {
            DwellVerdict::Waiting
        } else {
            DwellVerdict::Mature
        },
{
    lemma_held_push(s, Heard { subnet, mac, token: first });
}

proof fn lemma_held_push(s: Seq<Heard>, h: Heard)
    requires
        held(s, h.subnet, h.mac) is None,
    ensures
        held(s.push(h), h.subnet, h.mac) == Some(h.token),
    decreases s.len(),
{
    if s.len() > 0 {
        lemma_held_push(s.drop_first(), h);
        assert(s.push(h).drop_first() =~= s.drop_first().push(h));
    }
}

/// Once a subnet is pruned, every device on it starts over.
pub proof fn law_pruned_subnet_starts_over(
    s: Seq<Heard>,
    subnet: Seq<char>,
    mac: Seq<char>,
    token: Seq<char>,
)
    ensures
        dwell_verdict(s.filter(off_subnet(subnet)), subnet, mac, token) == DwellVerdict::Started,
{
    let t = s.filter(off_subnet(subnet));
    assert forall|i: int| 0 <= i < t.len() implies (#[trigger] t[i]).subnet != subnet by {
        s.lemma_filter_pred(off_subnet(subnet), i);
    }
    lemma_not_held(t, subnet, mac);
}

proof fn lemma_not_held(t: Seq<Heard>, subnet: Seq<char>, mac: Seq<char>)
    requires
        forall|i: int| 0 <= i < t.len() ==> (#[trigger] t[i]).subnet != subnet,
    ensures
        held(t, subnet, mac) is None,
    decreases t.len(),
{
    if t.len() > 0 {
        assert forall|i: int| 0 <= i < t.drop_first().len() implies (#[trigger] t.drop_first()[i]).subnet
            != subnet by {
            assert(t.drop_first()[i] == t[i + 1]);
        }
        lemma_not_held(t.drop_first(), subnet, mac);
    }
}

/// A device on a subnet counts as observed exactly when some entry has its subnet and
/// MAC, and then the oldest such entry says when.
pub proof fn law_first_observation_is_held(s: Seq<Heard>, subnet: Seq<char>, mac: Seq<char>)
    ensures
        match held(s, subnet, mac) {
            Some(token) => exists|i: int|
                0 <= i < s.len() && #[trigger] s[i] == (Heard { subnet, mac, token }) && forall|
                    j: int,
                |
                    0 <= j < i ==> (#[trigger] s[j]).subnet != subnet || s[j].mac != mac,
            None => forall|i: int|
                0 <= i < s.len() ==> (#[trigger] s[i]).subnet != subnet || s[i].mac != mac,
        },
    decreases s.len(),
{
    if s.len() > 0 {
        let rest = s.drop_first();
        law_first_observation_is_held(rest, subnet, mac);
        if s[0].subnet == subnet && s[0].mac == mac {
            assert(s[0] == (Heard { subnet, mac, token: s[0].token }));
        } else {
            match held(rest, subnet, mac) {
                Some(token) => {
                    let k = choose|i: int|
                        0 <= i < rest.len() && #[trigger] rest[i] == (Heard { subnet, mac, token })
                            && forall|j: int|
                            0 <= j < i ==> (#[trigger] rest[j]).subnet != subnet || rest[j].mac
                                != mac;
                    assert(s[k + 1] == rest[k]);
                    assert forall|j: int| 0 <= j < k + 1 implies (#[trigger] s[j]).subnet != subnet
                        || s[j].mac != mac by {
                        if j > 0 {
                            assert(rest[j - 1] == s[j]);
                        }
                    }
                },
                None => {
                    assert forall|i: int| 0 <= i < s.len() implies (#[trigger] s[i]).subnet
                        != subnet || s[i].mac != mac by {
                        if i > 0 {
                            assert(rest[i - 1] == s[i]);
                        }
                    }
                },
            }
        }
    }
}

/// Observing one device says nothing of another: what is held of any other subnet or MAC
/// stays, and so does what a pruned subnet does not own.
pub proof fn law_observations_are_apart(
    s: Seq<Heard>,
    subnet: Seq<char>,
    mac: Seq<char>,
    token: Seq<char>,
    subnet2: Seq<char>,
    mac2: Seq<char>,
)
    ensures
        subnet2 != subnet || mac2 != mac ==> held(
            dwell_next(s, subnet, mac, token),
            subnet2,
            mac2,
        ) == held(s, subnet2, mac2),
        held(s, subnet, mac) is Some ==> held(dwell_next(s, subnet, mac, token), subnet, mac)
            == held(s, subnet, mac),
        subnet2 != subnet ==> held(s.filter(off_subnet(subnet)), subnet2, mac2) == held(
            s,
            subnet2,
            mac2,
        ),
{
    let e = Heard { subnet, mac, token };
    lemma_held_with_one_more(s, e, subnet2, mac2);
    lemma_held_with_one_more(s, e, subnet, mac);
    if subnet2 != subnet {
        lemma_held_pruned(s, subnet, subnet2, mac2);
    }
}

proof fn lemma_held_with_one_more(s: Seq<Heard>, e: Heard, subnet: Seq<char>, mac: Seq<char>)
    ensures
        held(s.push(e), subnet, mac) == match held(s, subnet, mac) {
            Some(t) => Some(t),
            None => if e.subnet == subnet && e.mac == mac {
                Some(e.token)
            } else {
                None
            },
        },
    decreases s.len(),
{
    let t = s.push(e);
    if s.len() == 0 {
        assert(t.drop_first() =~= Seq::empty());
        assert(t[0] == e);
    } else {
        assert(t.drop_first() =~= s.drop_first().push(e));
        assert(t[0] == s[0]);
        lemma_held_with_one_more(s.drop_first(), e, subnet, mac);
    }
}

proof fn lemma_held_pruned(s: Seq<Heard>, gone: Seq<char>, subnet: Seq<char>, mac: Seq<char>)
    requires
        gone != subnet,
    ensures
        held(s.filter(off_subnet(gone)), subnet, mac) == held(s, subnet, mac),
    decreases s.len(),
{
    reveal(Seq::filter);
    if s.len() > 0 {
        lemma_held_pruned(s.drop_last(), gone, subnet, mac);
        assert(s =~= s.drop_last().push(s.last()));
        lemma_held_with_one_more(s.drop_last(), s.last(), subnet, mac);
        lemma_held_with_one_more(s.drop_last().filter(off_subnet(gone)), s.last(), subnet, mac);
    }
}

/// A device is held with the time of its first observation from that observation on.
pub proof fn law_observed_is_held(
    s: Seq<Heard>,
    subnet: Seq<char>,
    mac: Seq<char>,
    token: Seq<char>,
)
    ensures
        held(dwell_next(s, subnet, mac, token), subnet, mac) == match held(s, subnet, mac) {
            Some(t) => Some(t),
            None => Some(token),
        },
        held(s, subnet, mac) is Some ==> dwell_next(s, subnet, mac, token) == s,
{
    lemma_held_with_one_more(s, Heard { subnet, mac, token }, subnet, mac);
}

} // verus!
