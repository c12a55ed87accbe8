//! Adopting a foreign subnet: picking an address on it, probing that nobody has
//! it, and binding it, with a breadcrumb for every address that may be bound.

use crate::net;
use crate::net::Ipv4Addr;
use crate::text;
use vstd::prelude::*;

verus! {

/// Whether two addresses share a /24.
pub open spec fn same_24(x: Ipv4Addr, y: Ipv4Addr) -> bool {
    x.a == y.a && x.b == y.b && x.c == y.c
}

/// `ip` with its last octet replaced.
pub open spec fn with_last(ip: Ipv4Addr, last: u8) -> Ipv4Addr {
    Ipv4Addr { a: ip.a, b: ip.b, c: ip.c, d: last }
}

/// Whether one of `current_ips` shares the device's /24.
pub open spec fn on_subnet(device_ip: Ipv4Addr, current_ips: Seq<Ipv4Addr>) -> bool {
    exists|i: int| 0 <= i < current_ips.len() && same_24(#[trigger] current_ips[i], device_ip)
}

/// Whether the host already has an address on the device's /24.
pub fn already_on_subnet(device_ip: Ipv4Addr, current_ips: &Vec<Ipv4Addr>) -> (r: bool)
    ensures
        r == on_subnet(device_ip, current_ips@),
{
    let mut i: usize = 0;
    while i < current_ips.len()
        invariant
            i <= current_ips.len(),
            forall|k: int| 0 <= k < i ==> !same_24(#[trigger] current_ips@[k], device_ip),
        decreases current_ips.len() - i,
    {
        let ip = current_ips[i];
        if ip.a == device_ip.a && ip.b == device_ip.b && ip.c == device_ip.c {
            assert(same_24(current_ips@[i as int], device_ip));
            return true;
        }
        i += 1;
    }
    false
}

/// The last octets that an adopted address may have, best first.
pub open spec fn candidate_octets() -> Seq<u8> {
    seq![100u8, 101u8, 99u8, 102u8, 98u8, 103u8, 97u8, 104u8, 96u8, 105u8, 95u8]
}

/// The free addresses of the device's /24 among the first `n` choices, best first.
pub open spec fn candidates_upto(device_ip: Ipv4Addr, used: Seq<Ipv4Addr>, n: int) -> Seq<Ipv4Addr>
    decreases n,
{
    if n <= 0 {
        Seq::empty()
    } else {
        let before = candidates_upto(device_ip, used, n - 1);
        let last = candidate_octets()[n - 1];
        if last != device_ip.d && !used.contains(with_last(device_ip, last)) {
            before.push(with_last(device_ip, last))
        } else {
            before
        }
    }
}

/// The free addresses of the device's /24, best first.
pub open spec fn candidates(device_ip: Ipv4Addr, used: Seq<Ipv4Addr>) -> Seq<Ipv4Addr> {
    candidates_upto(device_ip, used, 11)
}

/// Picks addresses on the device's /24 that neither the device nor this host has.
/// `used_ips` counts by whole addresses, so one on another /24 blocks nothing.
pub fn pick_candidate_ip(device_ip: Ipv4Addr, used_ips: &Vec<Ipv4Addr>) -> (r: Vec<Ipv4Addr>)
    ensures
        r@ == candidates(device_ip, used_ips@),
{
    let starts: [u8; 11] = [100, 101, 99, 102, 98, 103, 97, 104, 96, 105, 95];
    assert(starts@ =~= candidate_octets());
    let mut r: Vec<Ipv4Addr> = Vec::new();
    let mut i: usize = 0;
    while i < 11
        invariant
            i <= 11,
            starts@ == candidate_octets(),
            r@ == candidates_upto(device_ip, used_ips@, i as int),
        decreases 11 - i,
    {
        let last: u8 = starts[i];
        if last != device_ip.d {
            let candidate = Ipv4Addr::new(device_ip.a, device_ip.b, device_ip.c, last);
            if !net::holds(used_ips, candidate) {
                r.push(candidate);
            }
        }
        i += 1;
    }
    r
}

/// A candidate is on the device's /24, is neither the device nor in use by the
/// host, is no reserved address, and is listed once.
pub proof fn law_candidates(device_ip: Ipv4Addr, used: Seq<Ipv4Addr>)
    ensures
        candidates(device_ip, used).no_duplicates(),
        forall|i: int| #![trigger candidates(device_ip, used)[i]]
            0 <= i < candidates(device_ip, used).len() ==> {
            let c = candidates(device_ip, used)[i];
            &&& same_24(c, device_ip)
            &&& c != device_ip
            &&& !used.contains(c)
            &&& 95 <= c.d <= 105
        },
{
    lemma_candidates(device_ip, used, 11);
}

proof fn lemma_candidates(device_ip: Ipv4Addr, used: Seq<Ipv4Addr>, n: int)
    requires
        0 <= n <= 11,
    ensures
        candidates_upto(device_ip, used, n).no_duplicates(),
        forall|i: int| #![trigger candidates_upto(device_ip, used, n)[i]]
            0 <= i < candidates_upto(device_ip, used, n).len() ==> {
            let c = candidates_upto(device_ip, used, n)[i];
            &&& same_24(c, device_ip)
            &&& c != device_ip
            &&& !used.contains(c)
            &&& 95 <= c.d <= 105
            &&& exists|k: int| 0 <= k < n && #[trigger] candidate_octets()[k] == c.d
        },
    decreases n,
{
    if n > 0 {
        lemma_candidates(device_ip, used, n - 1);
        let before = candidates_upto(device_ip, used, n - 1);
        let now = candidates_upto(device_ip, used, n);
        let last = candidate_octets()[n - 1];
        assert forall|i: int| 0 <= i < before.len() implies (#[trigger] before[i]).d != last by {
            let c = before[i];
            let k = choose|k: int| 0 <= k < n - 1 && #[trigger] candidate_octets()[k] == c.d;
            assert(candidate_octets()[k] != last);
        }
        assert forall|i: int| 0 <= i < now.len() implies ({
            let c = #[trigger] now[i];
            &&& same_24(c, device_ip)
            &&& c != device_ip
            &&& !used.contains(c)
            &&& 95 <= c.d <= 105
            &&& exists|k: int| 0 <= k < n && #[trigger] candidate_octets()[k] == c.d
        }) by {
            if i < before.len() {
                assert(now[i] == before[i]);
                let k = choose|k: int|
                    0 <= k < n - 1 && #[trigger] candidate_octets()[k] == before[i].d;
                assert(candidate_octets()[k] == now[i].d);
            } else {
                assert(candidate_octets()[n - 1] == now[i].d);
            }
        }
    }
}

/// The last octets that a scratch address may have, best first.
pub open spec fn scratch_octets() -> Seq<u8> {
    seq![254u8, 253u8, 252u8, 251u8, 250u8, 2u8, 3u8, 4u8, 5u8, 6u8]
}

/// Whether some address of `list` ends in `last`.
pub open spec fn octet_taken(list: Seq<Ipv4Addr>, last: u8) -> bool {
    exists|i: int| 0 <= i < list.len() && (#[trigger] list[i]).d == last
}

/// The first scratch octet from choice `n` on that neither the device nor a
/// candidate has; 254 if there is none.
pub open spec fn scratch_octet(device_ip: Ipv4Addr, taken: Seq<Ipv4Addr>, n: int) -> u8
    decreases 10 - n,
{
    if n >= 10 {
        254u8
    } else if scratch_octets()[n] != device_ip.d && !octet_taken(taken, scratch_octets()[n]) {
        scratch_octets()[n]
    } else {
        scratch_octet(device_ip, taken, n + 1)
    }
}

/// The scratch address on the device's /24.
pub open spec fn scratch_for(device_ip: Ipv4Addr, taken: Seq<Ipv4Addr>) -> Ipv4Addr {
    with_last(device_ip, scratch_octet(device_ip, taken, 0))
}

/// Picks an address on the device's /24 to bind for a moment, so that conflict
/// probes go out on the link: neither the device nor a candidate while one of ten
/// choices is free.
pub fn pick_scratch(device_ip: Ipv4Addr, candidates: &Vec<Ipv4Addr>) -> (r: Ipv4Addr)
    ensures
        r == scratch_for(device_ip, candidates@),
{
    let choices: [u8; 10] = [254, 253, 252, 251, 250, 2, 3, 4, 5, 6];
    assert(choices@ =~= scratch_octets());
    let mut i: usize = 0;
    while i < 10
        invariant
            i <= 10,
            choices@ == scratch_octets(),
            scratch_octet(device_ip, candidates@, 0) == scratch_octet(
                device_ip,
                candidates@,
                i as int,
            ),
        decreases 10 - i,
    {
        let last: u8 = choices[i];
        if last != device_ip.d {
            let mut taken = false;
            let mut j: usize = 0;
            while j < candidates.len()
                invariant
                    j <= candidates.len(),
                    taken == exists|k: int| 0 <= k < j && (#[trigger] candidates@[k]).d == last,
                decreases candidates.len() - j,
            {
                if candidates[j].d == last {
                    taken = true;
                }
                j += 1;
            }
            if !taken {
                return Ipv4Addr::new(device_ip.a, device_ip.b, device_ip.c, last);
            }
        }
        i += 1;
    }
    Ipv4Addr::new(device_ip.a, device_ip.b, device_ip.c, 254)
}

/// The scratch address of an adoption is neither the device nor a candidate.
pub proof fn law_scratch_is_free(device_ip: Ipv4Addr, used: Seq<Ipv4Addr>)
    ensures
        ({
            let cs = candidates(device_ip, used);
            let s = scratch_for(device_ip, cs);
            same_24(s, device_ip) && s != device_ip && !cs.contains(s)
        }),
{
    law_candidates(device_ip, used);
    let cs = candidates(device_ip, used);
    reveal_with_fuel(scratch_octet, 3);
    assert(!octet_taken(cs, 254)) by {
        assert forall|i: int| 0 <= i < cs.len() implies (#[trigger] cs[i]).d != 254 by {}
    }
    assert(!octet_taken(cs, 253)) by {
        assert forall|i: int| 0 <= i < cs.len() implies (#[trigger] cs[i]).d != 253 by {}
    }
    assert(scratch_octets()[0] == 254 && scratch_octets()[1] == 253);
    let s = scratch_for(device_ip, cs);
    if cs.contains(s) {
        let i = cs.index_of(s);
        assert(cs[i].d <= 105);
    }
}

/// An address that an adoption has bound, or is about to bind, and that is not
/// recorded as adopted yet.
#[derive(Debug)]
pub struct PendingIp {
    pub iface: String,
    pub ip: Ipv4Addr,
    pub adoption_id: u64,
}

/// A pending address, with the adapter's name as text.
#[verifier::ext_equal]
pub struct PendingView {
    pub iface: Seq<char>,
    pub ip: Ipv4Addr,
    pub adoption_id: u64,
}

impl View for PendingIp {
    type V = PendingView;

    open spec fn view(&self) -> PendingView {
        PendingView { iface: self.iface@, ip: self.ip, adoption_id: self.adoption_id }
    }
}

impl Clone for PendingIp {
    fn clone(&self) -> (r: PendingIp)
        ensures
            r == *self,
    {
        PendingIp { iface: self.iface.clone(), ip: self.ip, adoption_id: self.adoption_id }
    }
}

/// The pending addresses, oldest first.
pub struct PendingIps {
    pub list: Vec<PendingIp>,
}

impl View for PendingIps {
    type V = Seq<PendingView>;

    open spec fn view(&self) -> Seq<PendingView> {
        text::views(self.list@)
    }
}

/// Being another entry than `e`.
pub open spec fn other_than(e: PendingView) -> spec_fn(PendingView) -> bool {
    |x: PendingView| x != e
}

/// `list` without the entry `e`.
pub open spec fn dropped(list: Seq<PendingView>, e: PendingView) -> Seq<PendingView> {
    list.filter(other_than(e))
}

/// The entries of one adoption, or all of them.
pub open spec fn owned_by(list: Seq<PendingView>, only: Option<u64>) -> Seq<PendingView> {
    list.filter(|x: PendingView| only is None || only == Some(x.adoption_id))
}

/// The addresses of the entries.
pub open spec fn pending_addresses(list: Seq<PendingView>) -> Seq<Ipv4Addr> {
    list.map_values(|x: PendingView| x.ip)
}

impl PendingIps {
    pub fn new() -> (r: PendingIps)
        ensures
            r@ == Seq::<PendingView>::empty(),
    {
        let r = PendingIps { list: Vec::new() };
        assert(r@ =~= Seq::<PendingView>::empty());
        r
    }

    /// The pending addresses.
    pub fn addresses(&self) -> (r: Vec<Ipv4Addr>)
        ensures
            r@ == pending_addresses(self@),
    {
        let ghost all = pending_addresses(self@);
        let mut r: Vec<Ipv4Addr> = Vec::new();
        let mut i: usize = 0;
        assert(r@ =~= all.take(0));
        while i < self.list.len()
            invariant
                i <= self.list.len(),
                all == pending_addresses(self@),
                r@ == all.take(i as int),
            decreases self.list.len() - i,
        {
            proof {
                all.lemma_take_succ_push(i as int);
            }
            r.push(self.list[i].ip);
            i += 1;
        }
        assert(all.take(i as int) =~= all);
        r
    }

    /// Registers an address before it is bound.
    pub fn pending_insert(&mut self, iface: &str, ip: Ipv4Addr, adoption_id: u64)
        ensures
            final(self)@ == old(self)@.push(PendingView { iface: iface@, ip, adoption_id }),
    {
        let e = PendingIp { iface: String::from_str(iface), ip, adoption_id };
        proof {
            text::lemma_views_push(self.list@, e);
        }
        self.list.push(e);
    }

    /// Drops the entry of one address of one adoption.
    pub fn pending_remove(&mut self, iface: &str, ip: Ipv4Addr, adoption_id: u64)
        ensures
            final(self)@ == dropped(
                old(self)@,
                PendingView { iface: iface@, ip, adoption_id },
            ),
    {
        let ghost e = PendingView { iface: iface@, ip, adoption_id };
        let ghost keep = other_than(e);
        let ghost all = self@;
        let mut kept: Vec<PendingIp> = Vec::new();
        let mut i: usize = 0;
        assert(text::views(kept@) =~= all.take(0).filter(keep)) by {
            assert(all.take(0) =~= Seq::empty());
            reveal(Seq::filter);
        }
        while i < self.list.len()
            invariant
                i <= self.list.len(),
                all == self@,
                e == (PendingView { iface: iface@, ip, adoption_id }),
                keep == other_than(e),
                text::views(kept@) == all.take(i as int).filter(keep),
            decreases self.list.len() - i,
        {
            let x = &self.list[i];
            proof {
                assert(all[i as int] == self.list@[i as int]@);
                all.lemma_take_succ_push(i as int);
                all.take(i as int).lemma_filter_push(all[i as int], keep);
                text::lemma_views_push(kept@, *x);
            }
            if !(x.adoption_id == adoption_id && x.ip == ip && text::same(x.iface.as_str(), iface)) {
                kept.push(x.clone());
            }
            i += 1;
        }
        assert(all.take(i as int) =~= all);
        self.list = kept;
    }

    /// Drops the entry of an address that is now recorded as adopted. The address
    /// stays bound.
    pub fn pending_handover(&mut self, iface: &str, ip: Ipv4Addr, adoption_id: u64)
        ensures
            final(self)@ == dropped(
                old(self)@,
                PendingView { iface: iface@, ip, adoption_id },
            ),
    {
        self.pending_remove(iface, ip, adoption_id)
    }

    /// The entries to roll back: those of one adoption, or all of them.
    pub fn reconcile_targets(&self, only: Option<u64>) -> (r: Vec<PendingIp>)
        ensures
            text::views(r@) == owned_by(self@, only),
    {
        let ghost keep = |x: PendingView| only is None || only == Some(x.adoption_id);
        let ghost all = self@;
        let mut r: Vec<PendingIp> = Vec::new();
        let mut i: usize = 0;
        assert(text::views(r@) =~= all.take(0).filter(keep)) by {
            assert(all.take(0) =~= Seq::empty());
            reveal(Seq::filter);
        }
        while i < self.list.len()
            invariant
                i <= self.list.len(),
                all == self@,
                keep == (|x: PendingView| only is None || only == Some(x.adoption_id)),
                text::views(r@) == all.take(i as int).filter(keep),
            decreases self.list.len() - i,
        {
            let x = &self.list[i];
            proof {
                assert(all[i as int] == self.list@[i as int]@);
                all.lemma_take_succ_push(i as int);
                all.take(i as int).lemma_filter_push(all[i as int], keep);
                text::lemma_views_push(r@, *x);
            }
            let mine = match only {
                Some(id) => x.adoption_id == id,
                None => true,
            };
            if mine {
                r.push(x.clone());
            }
            i += 1;
        }
        assert(all.take(i as int) =~= all);
        r
    }

    /// Takes note of one rollback: an address that was removed is forgotten, one
    /// whose removal failed stays for a later attempt.
    pub fn reconciled(&mut self, entry: &PendingIp, removed: bool)
        ensures
            final(self)@ == if removed {
                dropped(old(self)@, entry@)
            } else {
                old(self)@
            },
    {
        if removed {
            self.pending_remove(entry.iface.as_str(), entry.ip, entry.adoption_id);
        }
    }
}

/// The pending list after the rollback of `targets`, the `i`-th of which was
/// removed where `removed[i]` holds.
pub open spec fn rolled_back(
    list: Seq<PendingView>,
    targets: Seq<PendingView>,
    removed: Seq<bool>,
) -> Seq<PendingView>
    decreases targets.len(),
{
    if targets.len() == 0 {
        list
    } else {
        let before = rolled_back(list, targets.drop_last(), removed);
        if removed[targets.len() - 1] {
            dropped(before, targets.last())
        } else {
            before
        }
    }
}

/// Rolling back one adoption touches no entry of another, and keeps every entry
/// whose removal failed.
pub proof fn law_rollback_keeps_the_rest(
    list: Seq<PendingView>,
    only: Option<u64>,
    removed: Seq<bool>,
    e: PendingView,
)
    requires
        removed.len() == owned_by(list, only).len(),
    ensures
        rolled_back(list, owned_by(list, only), removed).contains(e) <==> list.contains(e)
            && !exists|i: int|
            0 <= i < removed.len() && removed[i] && #[trigger] owned_by(list, only)[i] == e,
        only is Some && only != Some(e.adoption_id) ==> (rolled_back(
            list,
            owned_by(list, only),
            removed,
        ).contains(e) <==> list.contains(e)),
{
    let targets = owned_by(list, only);
    lemma_rolled_back(list, targets, removed, e);
    if only is Some && only != Some(e.adoption_id) {
        let keep = |x: PendingView| only is None || only == Some(x.adoption_id);
        assert forall|i: int| 0 <= i < targets.len() implies #[trigger] targets[i] != e by {
            list.lemma_filter_pred(keep, i);
        }
    }
}

proof fn lemma_rolled_back(
    list: Seq<PendingView>,
    targets: Seq<PendingView>,
    removed: Seq<bool>,
    e: PendingView,
)
    requires
        removed.len() >= targets.len(),
    ensures
        rolled_back(list, targets, removed).contains(e) <==> list.contains(e) && !exists|i: int|
            0 <= i < targets.len() && removed[i] && #[trigger] targets[i] == e,
    decreases targets.len(),
{
    if targets.len() > 0 {
        let rest = targets.drop_last();
        lemma_rolled_back(list, rest, removed, e);
        let before = rolled_back(list, rest, removed);
        let last = targets.len() - 1;
        lemma_dropped(before, targets.last(), e);
        if exists|i: int| 0 <= i < rest.len() && removed[i] && #[trigger] rest[i] == e {
            let i = choose|i: int| 0 <= i < rest.len() && removed[i] && #[trigger] rest[i] == e;
            assert(targets[i] == e);
        }
        if exists|i: int| 0 <= i < targets.len() && removed[i] && #[trigger] targets[i] == e {
            let i = choose|i: int|
                0 <= i < targets.len() && removed[i] && #[trigger] targets[i] == e;
            if i < last {
                assert(rest[i] == e);
            }
        }
        if removed[last] && targets.last() == e {
            assert(targets[last] == e);
        }
    }
}

/// An entry other than the dropped one stays.
pub proof fn lemma_dropped(list: Seq<PendingView>, out: PendingView, e: PendingView)
    ensures
        dropped(list, out).contains(e) <==> list.contains(e) && e != out,
{
    let keep = other_than(out);
    if dropped(list, out).contains(e) {
        list.lemma_filter_contains_rev(keep, e);
        let i = dropped(list, out).index_of(e);
        list.lemma_filter_pred(keep, i);
    }
    if list.contains(e) && e != out {
        let i = list.index_of(e);
        list.lemma_filter_contains(keep, i);
    }
}

/// The adapter is on a device's subnet exactly when one of its addresses shares the first
/// three numbers.
pub proof fn law_on_subnet(device_ip: Ipv4Addr, current_ips: Seq<Ipv4Addr>)
    ensures
        on_subnet(device_ip, current_ips) <==> exists|x: Ipv4Addr| #[trigger]
            current_ips.contains(x) && x.a == device_ip.a && x.b == device_ip.b && x.c
                == device_ip.c,
{
    if on_subnet(device_ip, current_ips) {
        let i = choose|i: int|
            0 <= i < current_ips.len() && same_24(#[trigger] current_ips[i], device_ip);
        assert(current_ips.contains(current_ips[i]));
    }
    if exists|x: Ipv4Addr| #[trigger]
        current_ips.contains(x) && x.a == device_ip.a && x.b == device_ip.b && x.c
            == device_ip.c {
        let x = choose|x: Ipv4Addr| #[trigger]
            current_ips.contains(x) && x.a == device_ip.a && x.b == device_ip.b && x.c
                == device_ip.c;
        let i = current_ips.index_of(x);
        assert(same_24(current_ips[i], device_ip));
    }
}

/// Every address of the device's /24 that ends in 95 to 105 is a candidate, but for the
/// device itself and what the host uses; those near 100 come first, and of two equally
/// near ones the higher.
pub proof fn law_every_free_address_is_a_candidate(device_ip: Ipv4Addr, used: Seq<Ipv4Addr>)
    ensures
        forall|x: Ipv4Addr| #[trigger]
            candidates(device_ip, used).contains(x) <==> x.a == device_ip.a && x.b == device_ip.b
                && x.c == device_ip.c && 95 <= x.d <= 105 && x != device_ip && !used.contains(x),
        forall|i: int, j: int|
            #![trigger candidates(device_ip, used)[i], candidates(device_ip, used)[j]]
            0 <= i < j < candidates(device_ip, used).len() ==> {
                let x = candidates(device_ip, used)[i].d - 100;
                let y = candidates(device_ip, used)[j].d - 100;
                x == -y && x > y || -y < x < y || y < x < -y
            },
{
    lemma_candidates_exact(device_ip, used, 11);
    let cs = candidates(device_ip, used);
    assert forall|x: Ipv4Addr| #[trigger] cs.contains(x) <==> x.a == device_ip.a && x.b
        == device_ip.b && x.c == device_ip.c && 95 <= x.d <= 105 && x != device_ip
        && !used.contains(x) by {
        let o = candidate_octets();
        assert(o[0] == 100 && o[1] == 101 && o[2] == 99 && o[3] == 102 && o[4] == 98 && o[5] == 103
            && o[6] == 97 && o[7] == 104 && o[8] == 96 && o[9] == 105 && o[10] == 95);
        if 95 <= x.d <= 105 && same_24(x, device_ip) {
            assert(x == with_last(device_ip, x.d));
        }
    }
}

proof fn lemma_candidates_exact(device_ip: Ipv4Addr, used: Seq<Ipv4Addr>, n: int)
    requires
        0 <= n <= 11,
    ensures
        ({
            let cs = candidates_upto(device_ip, used, n);
            &&& forall|x: Ipv4Addr| #[trigger]
                cs.contains(x) <==> same_24(x, device_ip) && x != device_ip && !used.contains(x)
                    && (exists|k: int| 0 <= k < n && #[trigger] candidate_octets()[k] == x.d)
            &&& forall|i: int, j: int|
                0 <= i < j < cs.len() ==> {
                    let x = (#[trigger] cs[i]).d - 100;
                    let y = (#[trigger] cs[j]).d - 100;
                    x == -y && x > y || -y < x < y || y < x < -y
                }
        }),
    decreases n,
{
    let cs = candidates_upto(device_ip, used, n);
    if n > 0 {
        lemma_candidates_exact(device_ip, used, n - 1);
        let before = candidates_upto(device_ip, used, n - 1);
        let last = candidate_octets()[n - 1];
        let e = with_last(device_ip, last);
        let o = candidate_octets();
        assert(o[0] == 100 && o[1] == 101 && o[2] == 99 && o[3] == 102 && o[4] == 98 && o[5] == 103
            && o[6] == 97 && o[7] == 104 && o[8] == 96 && o[9] == 105 && o[10] == 95);
        assert forall|x: Ipv4Addr| #[trigger] cs.contains(x) <==> same_24(x, device_ip) && x
            != device_ip && !used.contains(x) && (exists|k: int|
            0 <= k < n && #[trigger] candidate_octets()[k] == x.d) by {
            if cs.contains(x) {
                let i = cs.index_of(x);
                if i < before.len() {
                    assert(before[i] == x);
                    assert(before.contains(x));
                } else {
                    assert(x == e);
                    assert(candidate_octets()[n - 1] == x.d);
                }
            }
            if before.contains(x) {
                let i = before.index_of(x);
                assert(cs[i] == x);
            }
            if same_24(x, device_ip) && x.d == last {
                assert(x == e);
                if last != device_ip.d && !used.contains(e) {
                    assert(cs[cs.len() - 1] == e);
                }
            }
        }
        assert forall|i: int, j: int| 0 <= i < j < cs.len() implies {
            let x = (#[trigger] cs[i]).d - 100;
            let y = (#[trigger] cs[j]).d - 100;
            x == -y && x > y || -y < x < y || y < x < -y
        } by {
            assert(cs[i] == before[i]);
            assert(before.contains(before[i]));
            let k = choose|k: int| 0 <= k < n - 1 && #[trigger] candidate_octets()[k] == before[i].d;
            if j < before.len() {
                assert(cs[j] == before[j]);
            } else {
                assert(cs[j] == e);
            }
        }
    } else {
        assert(cs =~= Seq::empty());
    }
}

/// The scratch address ends in 250 to 254 where one of those is neither the device nor
/// taken, the highest of them; the low ones stand in where none is.
pub proof fn law_scratch_is_the_highest_free(device_ip: Ipv4Addr, taken: Seq<Ipv4Addr>, d: u8)
    requires
        250 <= d <= 254,
        d != device_ip.d,
        forall|i: int| 0 <= i < taken.len() ==> (#[trigger] taken[i]).d != d,
    ensures
        ({
            let s = scratch_for(device_ip, taken);
            &&& s.a == device_ip.a && s.b == device_ip.b && s.c == device_ip.c
            &&& d <= s.d <= 254
            &&& s != device_ip
            &&& forall|i: int| 0 <= i < taken.len() ==> (#[trigger] taken[i]).d != s.d
        }),
{
    reveal_with_fuel(scratch_octet, 6);
    let o = scratch_octets();
    assert(o[0] == 254 && o[1] == 253 && o[2] == 252 && o[3] == 251 && o[4] == 250);
    assert(!octet_taken(taken, d));
}

/// Dropping an entry drops that entry alone.
pub proof fn law_dropping_spares_the_others(
    list: Seq<PendingView>,
    e: PendingView,
    other: PendingView,
)
    ensures
        dropped(list, e).contains(other) <==> list.contains(other) && other != e,
        list.push(e).contains(e),
        list.push(e).contains(other) <==> list.contains(other) || other == e,
{
    let keep = other_than(e);
    if dropped(list, e).contains(other) {
        let i = dropped(list, e).index_of(other);
        list.lemma_filter_pred(keep, i);
        list.lemma_filter_contains_rev(keep, other);
    }
    if list.contains(other) && other != e {
        list.lemma_filter_contains(keep, list.index_of(other));
    }
    let p = list.push(e);
    assert(p[list.len() as int] == e);
    if list.contains(other) {
        assert(p[list.index_of(other)] == other);
    }
    if p.contains(other) && other != e {
        assert(list[p.index_of(other)] == other);
    }
}

/// What is to be rolled back of one adoption is every entry with its number, and nothing
/// of another; without a number it is every entry.
pub proof fn law_rollback_targets(list: Seq<PendingView>, only: Option<u64>, e: PendingView)
    ensures
        owned_by(list, only).contains(e) <==> list.contains(e) && (only matches Some(id)
            ==> e.adoption_id == id),
{
    let keep = |x: PendingView| only is None || only == Some(x.adoption_id);
    let r = owned_by(list, only);
    assert(r == list.filter(keep));
    if r.contains(e) {
        let i = r.index_of(e);
        list.lemma_filter_pred(keep, i);
        list.lemma_filter_contains_rev(keep, e);
    }
    if list.contains(e) && keep(e) {
        list.lemma_filter_contains(keep, list.index_of(e));
    }
}

/// A pending entry shows its adapter, its address and its number as they are.
pub proof fn law_what_a_pending_entry_shows(p: PendingIp)
    ensures
        p@.iface == p.iface@,
        p@.ip == p.ip,
        p@.adoption_id == p.adoption_id,
{
}

} // verus!
