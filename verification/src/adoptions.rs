//! The adopted subnets of this host: which addresses are bound for them, which wait to
//! be restored, and what is known of the devices on them.

use crate::config;
use crate::config::AdoptedMeta;
use crate::error::AppError;
use crate::ghost;
use crate::ghost::AdoptionClass;
use crate::interface::IpInfo;
use crate::lifecycle;
use crate::lifecycle::{AdoptedMetaView, MetaFlush};
use crate::net;
use crate::net::{Ipv4Addr, Ipv4Network};
use crate::reaper;
use crate::reaper::ReapVerdict;
use crate::text;
use crate::textmap;
use crate::textmap::{TextMap, TextSet};
use crate::time::{Duration, Instant};
use crate::wall::WallTime;
use vstd::prelude::*;

verus! {

/// The state of all adoptions, by subnet key.
pub struct Adoptions {
    /// The bound addresses.
    pub adopted: TextMap<Ipv4Addr>,
    /// Addresses whose restore failed, kept for the next start.
    pub pending_restore: TextMap<Ipv4Addr>,
    /// When a device was last heard this session.
    pub liveness: TextMap<Instant>,
    pub meta: TextMap<AdoptedMeta>,
}

/// What is shown of all adoptions.
pub struct AdoptionSnapshot {
    pub adopted_subnets: TextMap<String>,
    pub meta: TextMap<AdoptedMetaView>,
}

/// The time since a device was last heard on the subnet.
pub open spec fn last_heard(
    liveness: Map<Seq<char>, Instant>,
    subnet: Seq<char>,
    now: Instant,
) -> Option<Duration> {
    if liveness.contains_key(subnet) {
        Some(now.since_spec(liveness[subnet]))
    } else {
        None
    }
}

/// The value for a key, if there is one.
pub open spec fn lookup<V>(m: Map<Seq<char>, V>, k: Seq<char>) -> Option<V> {
    if m.contains_key(k) {
        Some(m[k])
    } else {
        None
    }
}

/// `v` shows the adoption of `subnet`: its stamps, and stale if the lifecycle check
/// without any veto would not keep it.
pub open spec fn shows(
    v: AdoptedMetaView,
    subnet: Seq<char>,
    a: Adoptions,
    session_elapsed: Duration,
    now: Instant,
    wall: WallTime,
) -> bool {
    let meta = lookup(a.meta@, subnet);
    &&& v.stale == (reaper::verdict(
        lifecycle::free_input(
            subnet,
            last_heard(a.liveness@, subnet, now),
            session_elapsed,
            lifecycle::badge_age_spec(meta, wall),
        ),
    ) != ReapVerdict::Keep)
    &&& match meta {
        Some(m) => v.adopted_at == m.adopted_at && v.last_device_seen == m.last_device_seen,
        None => v.adopted_at is None && v.last_device_seen is None,
    }
}

/// The keys of the entries whose address reads `ip`.
pub open spec fn keys_with_ip(s: Seq<(Seq<char>, Ipv4Addr)>, ip: Seq<char>) -> Seq<Seq<char>> {
    s.filter_map(key_if_ip(ip))
}

/// The key of an entry whose address reads `ip`.
pub open spec fn key_if_ip(ip: Seq<char>) -> spec_fn((Seq<char>, Ipv4Addr)) -> Option<Seq<char>> {
    |e: (Seq<char>, Ipv4Addr)|
        if net::dotted(e.1) == ip {
            Some(e.0)
        } else {
            None
        }
}

/// The state without a subnet: neither its adoption, nor a restore that waits for it,
/// nor what is known of its devices.
pub open spec fn forgotten(before: Adoptions, after: Adoptions, subnet: Seq<char>) -> bool {
    &&& after.adopted@ == before.adopted@.remove(subnet)
    &&& after.pending_restore@ == before.pending_restore@.remove(subnet)
    &&& after.liveness@ == before.liveness@.remove(subnet)
    &&& after.meta@ == before.meta@.remove(subnet)
}

/// The state with a new adoption: its address, its device heard now, and both stamps.
pub open spec fn recorded(
    before: Adoptions,
    after: Adoptions,
    subnet: Seq<char>,
    ip: Ipv4Addr,
    now: Instant,
    wall: Seq<char>,
) -> bool {
    &&& after.adopted@ == before.adopted@.insert(subnet, ip)
    &&& after.pending_restore@ == before.pending_restore@.remove(subnet)
    &&& after.liveness@ == before.liveness@.insert(subnet, now)
    &&& after.meta@.contains_key(subnet)
    &&& after.meta@ == before.meta@.insert(subnet, after.meta@[subnet])
    &&& config::opt_text(after.meta@[subnet].adopted_at) == Some(wall)
    &&& config::opt_text(after.meta@[subnet].last_device_seen) == Some(wall)
}

impl Adoptions {
    /// No adoptions.
    pub fn new() -> (r: Adoptions)
        ensures
            r.adopted@ == Map::<Seq<char>, Ipv4Addr>::empty(),
            r.pending_restore@ == Map::<Seq<char>, Ipv4Addr>::empty(),
            r.liveness@ == Map::<Seq<char>, Instant>::empty(),
            r.meta@ == Map::<Seq<char>, AdoptedMeta>::empty(),
    {
        Adoptions {
            adopted: TextMap::new(),
            pending_restore: TextMap::new(),
            liveness: TextMap::new(),
            meta: TextMap::new(),
        }
    }

    /// What is shown of all adoptions: the bound addresses, and for each subnet its
    /// metadata with its staleness at this moment.
    pub fn adoption_snapshot(
        &self,
        session_elapsed: Duration,
        now: Instant,
        wall: WallTime,
    ) -> (r: AdoptionSnapshot)
        ensures
            lifecycle::as_text(r.adopted_subnets@, self.adopted@),
            r.meta@.dom() == self.adopted@.dom(),
            forall|k: Seq<char>| #[trigger]
                r.meta@.contains_key(k) ==> shows(
                    r.meta@[k],
                    k,
                    *self,
                    session_elapsed,
                    now,
                    wall,
                ),
    {
        let mut texts: TextMap<String> = TextMap::new();
        let mut metas: TextMap<AdoptedMetaView> = TextMap::new();
        let n = self.adopted.len();
        let ghost all = self.adopted.entries();
        let ghost mut model: Map<Seq<char>, Ipv4Addr> = Map::empty();
        let mut i: usize = 0;
        assert(model =~= textmap::map_of(all.take(0)));
        assert(metas@.dom() =~= model.dom());
        while i < n
            invariant
                i <= n,
                n == all.len(),
                all == self.adopted.entries(),
                textmap::distinct_keys(all),
                model == textmap::map_of(all.take(i as int)),
                lifecycle::as_text(texts@, model),
                metas@.dom() == model.dom(),
                forall|k: Seq<char>| #[trigger]
                    metas@.contains_key(k) ==> shows(
                        metas@[k],
                        k,
                        *self,
                        session_elapsed,
                        now,
                        wall,
                    ),
            decreases n - i,
        {
            let key = self.adopted.key_at(i).clone();
            let ip = *self.adopted.value_at(i);
            let meta = self.meta.get(key.as_str());
            let last = match self.liveness.get(key.as_str()) {
                Some(t) => Some(now.since(*t)),
                None => None,
            };
            let view = lifecycle::adoption_meta_view(
                key.as_str(),
                meta,
                last,
                session_elapsed,
                lifecycle::badge_age(meta, wall),
            );
            assert(shows(view, key@, *self, session_elapsed, now, wall));
            proof {
                lifecycle::lemma_map_take(all, i as int);
                model = model.insert(key@, ip);
            }
            texts.insert(key.clone(), ip.text());
            metas.insert(key, view);
            assert(texts@.dom() =~= model.dom());
            assert(metas@.dom() =~= model.dom());
            i += 1;
        }
        assert(all.take(i as int) =~= all);
        AdoptionSnapshot { adopted_subnets: texts, meta: metas }
    }

    /// Records evidence of a device; says whether the metadata is to be written now.
    pub fn note_positive_liveness(
        &mut self,
        ip: Ipv4Addr,
        now: Instant,
        wall_rfc3339: &str,
        flush: &mut MetaFlush,
    ) -> (r: bool)
        ensures
            final(self).adopted == old(self).adopted,
            final(self).pending_restore == old(self).pending_restore,
            !old(self).adopted@.contains_key(net::subnet_key(ip)) ==> !r && *final(flush) == *old(
                flush,
            ) && final(self).liveness@ == old(self).liveness@ && final(self).meta@ == old(
                self,
            ).meta@,
            old(self).adopted@.contains_key(net::subnet_key(ip)) ==> {
                &&& final(self).liveness@ == old(self).liveness@.insert(net::subnet_key(ip), now)
                &&& lifecycle::stamped(
                    old(self).meta@,
                    final(self).meta@,
                    net::subnet_key(ip),
                    wall_rfc3339@,
                )
                &&& r == lifecycle::flush_due(old(flush).last_flush, now)
                &&& final(flush).dirty == !r
                &&& final(flush).last_flush == if r {
                    now
                } else {
                    old(flush).last_flush
                }
            },
    {
        let landed = lifecycle::record_positive_liveness(
            ip,
            &self.adopted,
            &mut self.liveness,
            &mut self.meta,
            now,
            wall_rfc3339,
        );
        if !landed {
            return false;
        }
        lifecycle::meta_dirty_flush_due(flush, now)
    }

    /// Forgets what is known of the devices on these subnets.
    pub fn forget_adoption_tracking(&mut self, subnets: &Vec<String>)
        ensures
            final(self).adopted == old(self).adopted,
            final(self).pending_restore == old(self).pending_restore,
            final(self).liveness@ == old(self).liveness@.remove_keys(
                text::views(subnets@).to_set(),
            ),
            final(self).meta@ == old(self).meta@.remove_keys(text::views(subnets@).to_set()),
    {
        self.liveness.remove_all(subnets);
        self.meta.remove_all(subnets);
    }

    /// The adoptions to write to disk.
    pub fn adopted_config_snapshot(&self) -> (r: TextMap<String>)
        ensures
            lifecycle::as_text(r@, lifecycle::merged_config(self.adopted@, self.pending_restore@)),
    {
        lifecycle::merge_adopted_config(&self.adopted, &self.pending_restore)
    }

    /// Takes an address that the user has claimed out of the adoptions; says whether it
    /// was one.
    pub fn untrack_adopted_ip(&mut self, ip: &str) -> (r: bool)
        ensures
            ({
                let keys = keys_with_ip(old(self).adopted.entries(), ip@);
                &&& r == (keys.len() > 0)
                &&& final(self).adopted@ == old(self).adopted@.remove_keys(keys.to_set())
                &&& final(self).liveness@ == old(self).liveness@.remove_keys(keys.to_set())
                &&& final(self).meta@ == old(self).meta@.remove_keys(keys.to_set())
                &&& final(self).pending_restore == old(self).pending_restore
            }),
    {
        let n = self.adopted.len();
        let ghost all = self.adopted.entries();
        let ghost f = key_if_ip(ip@);
        let mut keys: Vec<String> = Vec::new();
        let mut i: usize = 0;
        assert(all.take(0) =~= Seq::empty());
        assert(text::views(keys@) =~= all.take(0).filter_map(f));
        while i < n
            invariant
                i <= n,
                n == all.len(),
                all == self.adopted.entries(),
                f == key_if_ip(ip@),
                text::views(keys@) == all.take(i as int).filter_map(f),
            decreases n - i,
        {
            proof {
                all.lemma_filter_map_take_succ(f, i as int);
            }
            let addr = self.adopted.value_at(i).text();
            if text::same(addr.as_str(), ip) {
                let key = self.adopted.key_at(i).clone();
                proof {
                    text::lemma_views_push(keys@, key);
                }
                keys.push(key);
            }
            i += 1;
        }
        assert(all.take(i as int) =~= all);
        self.adopted.remove_all(&keys);
        self.forget_adoption_tracking(&keys);
        keys.len() > 0
    }

    /// The address to unbind when the user gives a subnet up; an error where no adapter is
    /// in use, or where the subnet is not adopted.
    pub fn removal_target(&self, interface: Option<&str>, subnet: &str) -> (r: Result<
        Ipv4Addr,
        AppError,
    >)
        ensures
            match r {
                Ok(ip) => interface is Some && self.adopted@.contains_pair(subnet@, ip),
                Err(e) => if interface is None {
                    e.text() == "No interface configured"@
                } else {
                    !self.adopted@.contains_key(subnet@) && e.text() == "Subnet "@ + subnet@
                        + " not adopted"@
                },
            },
    {
        if interface.is_none() {
            return Err(AppError::Network(String::from_str("No interface configured")));
        }
        match self.adopted.get(subnet) {
            Some(ip) => Ok(*ip),
            None => {
                let mut e = String::from_str("Subnet ");
                e.append(subnet);
                e.append(" not adopted");
                Err(AppError::Network(e))
            },
        }
    }

    /// Forgets a subnet whose address is no longer bound: the adoption, a restore that
    /// waits for it, and what is known of its devices.
    pub fn remove_adopted_subnet(&mut self, subnet: &str)
        ensures
            forgotten(*old(self), *final(self), subnet@),
    {
        let _ = self.adopted.remove(subnet);
        let _ = self.pending_restore.remove(subnet);
        let _ = self.liveness.remove(subnet);
        let _ = self.meta.remove(subnet);
    }

    /// Records a new adoption: its address, the device heard on it now, and both stamps.
    /// A restore that waits for the subnet is dropped.
    pub fn record_adoption(&mut self, subnet: &str, ip: Ipv4Addr, now: Instant, wall_rfc3339: &str)
        ensures
            recorded(*old(self), *final(self), subnet@, ip, now, wall_rfc3339@),
    {
        self.adopted.insert(String::from_str(subnet), ip);
        let _ = self.pending_restore.remove(subnet);
        self.liveness.insert(String::from_str(subnet), now);
        self.meta.insert(
            String::from_str(subnet),
            AdoptedMeta {
                adopted_at: Some(String::from_str(wall_rfc3339)),
                last_device_seen: Some(String::from_str(wall_rfc3339)),
            },
        );
    }

    /// Takes the result of a restore: a bound address is an adoption again, another one
    /// waits for the next start. Gives the metadata of a restored adoption.
    pub fn note_restored(&mut self, subnet: &str, ip: Ipv4Addr, bound: bool) -> (r: Option<
        AdoptedMeta,
    >)
        ensures
            bound ==> {
                &&& final(self).adopted@ == old(self).adopted@.insert(subnet@, ip)
                &&& final(self).pending_restore@ == old(self).pending_restore@.remove(subnet@)
                &&& match lookup(old(self).meta@, subnet@) {
                    Some(m) => r == Some(m),
                    None => r matches Some(m) && m.adopted_at is None && m.last_device_seen is None,
                }
            },
            !bound ==> {
                &&& final(self).adopted == old(self).adopted
                &&& final(self).pending_restore@ == old(self).pending_restore@.insert(subnet@, ip)
                &&& r is None
            },
            final(self).liveness == old(self).liveness,
            final(self).meta == old(self).meta,
    {
        if bound {
            self.adopted.insert(String::from_str(subnet), ip);
            let _ = self.pending_restore.remove(subnet);
            match self.meta.get(subnet) {
                Some(m) => Some(m.clone()),
                None => Some(AdoptedMeta::none()),
            }
        } else {
            self.pending_restore.insert(String::from_str(subnet), ip);
            None
        }
    }

    /// The addresses to unbind when the program ends, with their subnets: all but the
    /// adapter's primary one, and but its only one.
    pub fn cleanup_targets(&self, adapter_ips: &Vec<String>) -> (r: Vec<(String, Ipv4Addr)>)
        ensures
            targets_view(r@) == self.adopted.entries().filter(
                may_clean_up(text::views(adapter_ips@)),
            ),
    {
        let n = self.adopted.len();
        let ghost all = self.adopted.entries();
        let ghost ips = text::views(adapter_ips@);
        let ghost keep = may_clean_up(ips);
        let alone = at_most_one(adapter_ips);
        let mut r: Vec<(String, Ipv4Addr)> = Vec::new();
        let mut i: usize = 0;
        assert(targets_view(r@) =~= all.take(0).filter(keep)) by {
            assert(all.take(0) =~= Seq::empty());
            reveal(Seq::filter);
        }
        while i < n
            invariant
                i <= n,
                n == all.len(),
                all == self.adopted.entries(),
                ips == text::views(adapter_ips@),
                keep == may_clean_up(ips),
                alone == (ips.to_set().len() <= 1),
                targets_view(r@) == all.take(i as int).filter(keep),
            decreases n - i,
        {
            let ip = *self.adopted.value_at(i);
            let t = ip.text();
            proof {
                all.lemma_take_succ_push(i as int);
                all.take(i as int).lemma_filter_push(all[i as int], keep);
                if ips.len() > 0 {
                    assert(ips[0] == adapter_ips@[0]@);
                }
            }
            let primary = adapter_ips.len() > 0 && text::same(adapter_ips[0].as_str(), t.as_str());
            let last = alone && text::holds(adapter_ips, t.as_str());
            if !primary && !last {
                let ghost before = r@;
                let key = self.adopted.key_at(i).clone();
                r.push((key, ip));
                assert(targets_view(r@) =~= targets_view(before).push((key@, ip)));
            }
            i += 1;
        }
        assert(all.take(i as int) =~= all);
        r
    }
}

/// Subnets and addresses, with the subnets as text.
pub open spec fn targets_view(s: Seq<(String, Ipv4Addr)>) -> Seq<(Seq<char>, Ipv4Addr)> {
    s.map_values(|e: (String, Ipv4Addr)| (e.0@, e.1))
}

/// May be unbound at the end: neither the adapter's primary address nor its only one.
pub open spec fn may_clean_up(adapter_ips: Seq<Seq<char>>) -> spec_fn((Seq<char>, Ipv4Addr)) -> bool {
    |e: (Seq<char>, Ipv4Addr)|
        {
            let ip = net::dotted(e.1);
            &&& !(adapter_ips.to_set().len() <= 1 && adapter_ips.contains(ip))
            &&& !(adapter_ips.len() > 0 && adapter_ips[0] == ip)
        }
}

/// Whether the list has one distinct text at most.
fn at_most_one(list: &Vec<String>) -> (r: bool)
    ensures
        r == (text::views(list@).to_set().len() <= 1),
{
    let mut set = TextSet::new();
    let ghost all = text::views(list@);
    let mut i: usize = 0;
    assert(set@ =~= all.take(0).to_set());
    while i < list.len()
        invariant
            i <= list.len(),
            all == text::views(list@),
            set@ == all.take(i as int).to_set(),
        decreases list.len() - i,
    {
        let s = list[i].clone();
        proof {
            assert(all[i as int] == s@);
            all.lemma_take_succ_push(i as int);
            all.take(i as int).lemma_push_to_set_commute(s@);
        }
        let _ = set.insert(s);
        i += 1;
    }
    assert(all.take(i as int) =~= all);
    let n = set.len();
    proof {
        set.members().unique_seq_to_set();
    }
    n <= 1
}

/// The end leaves the adapter an address: what may be unbound is neither its primary
/// address nor its only one.
pub proof fn law_cleanup_leaves_an_address(
    e: (Seq<char>, Ipv4Addr),
    adapter_ips: Seq<Seq<char>>,
)
    requires
        may_clean_up(adapter_ips)(e),
        adapter_ips.contains(net::dotted(e.1)),
    ensures
        adapter_ips[0] != net::dotted(e.1),
        exists|i: int| 0 <= i < adapter_ips.len() && #[trigger] adapter_ips[i] != net::dotted(e.1),
{
    let i = adapter_ips.index_of(net::dotted(e.1));
    assert(adapter_ips[i] == net::dotted(e.1));
    assert(adapter_ips[0] != net::dotted(e.1));
}

/// A removed subnet leaves no trace: neither an adoption nor a waiting restore will be
/// written to disk for it.
pub proof fn law_removed_subnet_is_not_written(
    live: Map<Seq<char>, Ipv4Addr>,
    pending: Map<Seq<char>, Ipv4Addr>,
    subnet: Seq<char>,
)
    ensures
        !lifecycle::merged_config(live.remove(subnet), pending.remove(subnet)).contains_key(subnet),
{
}

/// A restore that failed is still written to disk, so the next start tries it again.
pub proof fn law_failed_restore_is_written(
    live: Map<Seq<char>, Ipv4Addr>,
    pending: Map<Seq<char>, Ipv4Addr>,
    subnet: Seq<char>,
    ip: Ipv4Addr,
)
    requires
        !live.contains_key(subnet),
    ensures
        lifecycle::merged_config(live, pending.insert(subnet, ip)).contains_pair(subnet, ip),
{
}

/// The saved adoptions: subnet key and address text.
pub open spec fn saved(m: TextMap<String>) -> Seq<(Seq<char>, Seq<char>)> {
    m.entries().map_values(|e: (Seq<char>, String)| (e.0, e.1@))
}

/// Whether some saved adoption has the address.
pub open spec fn is_saved_ip(s: Seq<(Seq<char>, Seq<char>)>, ip: Seq<char>) -> bool {
    exists|i: int| 0 <= i < s.len() && (#[trigger] s[i]).1 == ip
}

/// The /24 keys that the adapter covers by itself, without the saved adoptions.
pub open spec fn native_keys(ips: Seq<IpInfo>, s: Seq<(Seq<char>, Seq<char>)>) -> Set<Seq<char>> {
    Set::new(
        |k: Seq<char>|
            exists|i: int|
                0 <= i < ips.len() && !is_saved_ip(s, (#[trigger] ips[i]).address@)
                    && net::is_dotted(ips[i].address@) && k == net::subnet_key(
                    net::parsed(ips[i].address@)->0,
                ),
    )
}

/// Whether the adapter has the address.
pub open spec fn on_adapter(ips: Seq<IpInfo>, ip: Seq<char>) -> bool {
    exists|i: int| 0 <= i < ips.len() && (#[trigger] ips[i]).address@ == ip
}

/// The class of a saved adoption.
pub open spec fn saved_class(
    e: (Seq<char>, Seq<char>),
    s: Seq<(Seq<char>, Seq<char>)>,
    ips: Seq<IpInfo>,
    ghosts: Seq<Ipv4Network>,
) -> AdoptionClass {
    ghost::adoption_class(e.0, e.1, native_keys(ips, s), ghosts)
}

/// A saved adoption to keep: its subnet, its address, and whether it is to be bound.
#[derive(Debug)]
pub struct RestoreItem {
    pub subnet: String,
    pub ip: String,
    pub needs_add: bool,
}

/// A saved adoption to keep, as text.
#[verifier::ext_equal]
pub struct RestoreView {
    pub subnet: Seq<char>,
    pub ip: Seq<char>,
    pub needs_add: bool,
}

impl View for RestoreItem {
    type V = RestoreView;

    open spec fn view(&self) -> RestoreView {
        RestoreView { subnet: self.subnet@, ip: self.ip@, needs_add: self.needs_add }
    }
}

/// Why a left-over ghost address stays bound.
#[derive(Clone, Copy, Debug, PartialEq, Eq, Structural)]
pub enum UnbindGuard {
    /// Nothing keeps it.
    Clear,
    /// The adapter would be left with no other address.
    LastAddress,
    /// It is the adapter's primary address.
    Primary,
}

/// A ghost adoption whose address is still bound.
#[derive(Debug)]
pub struct GhostLeftover {
    pub subnet: String,
    pub ip: String,
    pub guard: UnbindGuard,
}

/// A ghost adoption whose address is still bound, as text.
#[verifier::ext_equal]
pub struct LeftoverView {
    pub subnet: Seq<char>,
    pub ip: Seq<char>,
    pub guard: UnbindGuard,
}

impl View for GhostLeftover {
    type V = LeftoverView;

    open spec fn view(&self) -> LeftoverView {
        LeftoverView { subnet: self.subnet@, ip: self.ip@, guard: self.guard }
    }
}

/// What to do with the saved adoptions at startup.
pub struct RestorePlan {
    pub keep: Vec<RestoreItem>,
    /// Something was dropped, so the rest is to be written to disk.
    pub pruned: bool,
    pub leftovers: Vec<GhostLeftover>,
    /// The metadata of the adoptions that are kept.
    pub meta: TextMap<AdoptedMeta>,
}

/// The first address of the adapter that no saved adoption has.
pub open spec fn primary_native(ips: Seq<IpInfo>, s: Seq<(Seq<char>, Seq<char>)>) -> Option<
    Seq<char>,
>
    decreases ips.len(),
{
    if ips.len() == 0 {
        None
    } else if !is_saved_ip(s, ips[0].address@) {
        Some(ips[0].address@)
    } else {
        primary_native(ips.drop_first(), s)
    }
}

/// What keeps a left-over ghost address bound.
pub open spec fn leftover_guard(
    ip: Seq<char>,
    ips: Seq<IpInfo>,
    s: Seq<(Seq<char>, Seq<char>)>,
) -> UnbindGuard {
    if ips.len() < 2 {
        UnbindGuard::LastAddress
    } else if primary_native(ips, s) == Some(ip) {
        UnbindGuard::Primary
    } else {
        UnbindGuard::Clear
    }
}

/// A saved adoption that is kept.
pub open spec fn kept_item(
    s: Seq<(Seq<char>, Seq<char>)>,
    ips: Seq<IpInfo>,
    ghosts: Seq<Ipv4Network>,
) -> spec_fn((Seq<char>, Seq<char>)) -> Option<RestoreView> {
    |e: (Seq<char>, Seq<char>)|
        if saved_class(e, s, ips, ghosts) == AdoptionClass::Keep {
            Some(RestoreView { subnet: e.0, ip: e.1, needs_add: !on_adapter(ips, e.1) })
        } else {
            None
        }
}

/// A saved ghost adoption that is still bound.
pub open spec fn leftover_item(
    s: Seq<(Seq<char>, Seq<char>)>,
    ips: Seq<IpInfo>,
    ghosts: Seq<Ipv4Network>,
) -> spec_fn((Seq<char>, Seq<char>)) -> Option<LeftoverView> {
    |e: (Seq<char>, Seq<char>)|
        if saved_class(e, s, ips, ghosts) == AdoptionClass::PruneGhost && on_adapter(ips, e.1) {
            Some(LeftoverView { subnet: e.0, ip: e.1, guard: leftover_guard(e.1, ips, s) })
        } else {
            None
        }
}

/// The metadata of the subnets in `items`.
pub open spec fn meta_of(m: Map<Seq<char>, AdoptedMeta>, items: Seq<RestoreView>) -> Map<
    Seq<char>,
    AdoptedMeta,
> {
    m.restrict(Set::new(|k: Seq<char>| keeps(items, k)))
}

/// Whether the subnet is kept.
pub open spec fn keeps(items: Seq<RestoreView>, k: Seq<char>) -> bool {
    exists|i: int| 0 <= i < items.len() && (#[trigger] items[i]).subnet == k
}

fn holds_saved_ip(m: &TextMap<String>, ip: &str) -> (r: bool)
    ensures
        r == is_saved_ip(saved(*m), ip@),
{
    let n = m.len();
    let mut i: usize = 0;
    while i < n
        invariant
            i <= n,
            n == m.entries().len(),
            forall|k: int| 0 <= k < i ==> (#[trigger] saved(*m)[k]).1 != ip@,
        decreases n - i,
    {
        if text::same(m.value_at(i).as_str(), ip) {
            assert(saved(*m)[i as int].1 == ip@);
            return true;
        }
        i += 1;
    }
    false
}

fn adapter_has(ips: &Vec<IpInfo>, ip: &str) -> (r: bool)
    ensures
        r == on_adapter(ips@, ip@),
{
    let mut i: usize = 0;
    while i < ips.len()
        invariant
            i <= ips.len(),
            forall|k: int| 0 <= k < i ==> (#[trigger] ips@[k]).address@ != ip@,
        decreases ips.len() - i,
    {
        if text::same(ips[i].address.as_str(), ip) {
            return true;
        }
        i += 1;
    }
    false
}

fn native_subnets(ips: &Vec<IpInfo>, m: &TextMap<String>) -> (r: TextSet)
    ensures
        r@ == native_keys(ips@, saved(*m)),
{
    let ghost s = saved(*m);
    let mut r = TextSet::new();
    let mut i: usize = 0;
    while i < ips.len()
        invariant
            i <= ips.len(),
            s == saved(*m),
            forall|k: Seq<char>| #[trigger]
                r@.contains(k) <==> exists|j: int|
                    0 <= j < i && !is_saved_ip(s, (#[trigger] ips@[j]).address@) && net::is_dotted(
                        ips@[j].address@,
                    ) && k == net::subnet_key(net::parsed(ips@[j].address@)->0),
        decreases ips.len() - i,
    {
        let ip = &ips[i];
        if !holds_saved_ip(m, ip.address.as_str()) {
            if let Some(addr) = Ipv4Addr::parse(ip.address.as_str()) {
                let _ = r.insert(net::subnet_key_for(addr));
            }
        }
        i += 1;
    }
    assert(r@ =~= native_keys(ips@, s));
    r
}

fn first_native(ips: &Vec<IpInfo>, m: &TextMap<String>) -> (r: Option<String>)
    ensures
        config::opt_text(r) == primary_native(ips@, saved(*m)),
{
    let ghost s = saved(*m);
    let ghost all = ips@;
    assert(all.skip(0) =~= all);
    let mut i: usize = 0;
    while i < ips.len()
        invariant
            i <= ips.len(),
            s == saved(*m),
            all == ips@,
            primary_native(all, s) == primary_native(all.skip(i as int), s),
        decreases ips.len() - i,
    {
        assert(all.skip(i as int)[0] == all[i as int]);
        assert(all.skip(i as int).drop_first() =~= all.skip(i + 1));
        if !holds_saved_ip(m, ips[i].address.as_str()) {
            return Some(ips[i].address.clone());
        }
        i += 1;
    }
    None
}

/// Plans the restore of the saved adoptions on an adapter with these addresses. Subnets
/// that the adapter covers by itself, ghosts, and addresses that do not parse are
/// dropped. A ghost that is still bound is listed, with what keeps it from being
/// unbound.
pub fn load_adopted_from_config(
    adopted_subnets: &TextMap<String>,
    adopted_meta: &TextMap<AdoptedMeta>,
    iface_ips: &Vec<IpInfo>,
    ghosts: &Vec<Ipv4Network>,
) -> (r: RestorePlan)
    ensures
        ({
            let s = saved(*adopted_subnets);
            &&& text::views(r.keep@) == s.filter_map(kept_item(s, iface_ips@, ghosts@))
            &&& text::views(r.leftovers@) == s.filter_map(leftover_item(s, iface_ips@, ghosts@))
            &&& r.pruned == exists|i: int|
                0 <= i < s.len() && saved_class(#[trigger] s[i], s, iface_ips@, ghosts@)
                    != AdoptionClass::Keep
            &&& r.meta@ == meta_of(adopted_meta@, text::views(r.keep@))
        }),
{
    let ghost s = saved(*adopted_subnets);
    let ghost fk = kept_item(s, iface_ips@, ghosts@);
    let ghost fl = leftover_item(s, iface_ips@, ghosts@);
    let native = native_subnets(iface_ips, adopted_subnets);
    let primary = first_native(iface_ips, adopted_subnets);
    let mut keep: Vec<RestoreItem> = Vec::new();
    let mut leftovers: Vec<GhostLeftover> = Vec::new();
    let mut pruned = false;
    let mut meta: TextMap<AdoptedMeta> = TextMap::new();
    let n = adopted_subnets.len();
    let mut i: usize = 0;
    proof {
        assert(s.take(0) =~= Seq::empty());
        assert(text::views(keep@) =~= s.take(0).filter_map(fk));
        assert(text::views(leftovers@) =~= s.take(0).filter_map(fl));
        assert(meta@ =~= meta_of(adopted_meta@, text::views(keep@)));
    }
    while i < n
        invariant
            i <= n,
            n == s.len(),
            n == adopted_subnets.entries().len(),
            s == saved(*adopted_subnets),
            fk == kept_item(s, iface_ips@, ghosts@),
            fl == leftover_item(s, iface_ips@, ghosts@),
            native@ == native_keys(iface_ips@, s),
            config::opt_text(primary) == primary_native(iface_ips@, s),
            text::views(keep@) == s.take(i as int).filter_map(fk),
            text::views(leftovers@) == s.take(i as int).filter_map(fl),
            pruned == exists|k: int|
                0 <= k < i && saved_class(#[trigger] s[k], s, iface_ips@, ghosts@)
                    != AdoptionClass::Keep,
            meta@ == meta_of(adopted_meta@, text::views(keep@)),
        decreases n - i,
    {
        let subnet = adopted_subnets.key_at(i);
        let ip = adopted_subnets.value_at(i);
        proof {
            assert(s[i as int] == (subnet@, ip@));
            s.lemma_filter_map_take_succ(fk, i as int);
            s.lemma_filter_map_take_succ(fl, i as int);
        }
        let class = ghost::classify_adoption(subnet.as_str(), ip.as_str(), &native, ghosts);
        assert(class == saved_class(s[i as int], s, iface_ips@, ghosts@));
        match class {
            AdoptionClass::Keep => {
                let item = RestoreItem {
                    subnet: subnet.clone(),
                    ip: ip.clone(),
                    needs_add: !adapter_has(iface_ips, ip.as_str()),
                };
                let ghost before = text::views(keep@);
                let ghost mbefore = meta@;
                proof {
                    text::lemma_views_push(keep@, item);
                }
                keep.push(item);
                if let Some(m) = adopted_meta.get(subnet.as_str()) {
                    meta.insert(subnet.clone(), m.clone());
                }
                proof {
                    let now = text::views(keep@);
                    assert(now == before.push(item@));
                    assert forall|k: Seq<char>| keeps(now, k) <==> keeps(before, k) || k
                        == subnet@ by {
                        if keeps(before, k) {
                            let j = choose|j: int|
                                0 <= j < before.len() && (#[trigger] before[j]).subnet == k;
                            assert(now[j].subnet == k);
                        }
                        if keeps(now, k) {
                            let j = choose|j: int|
                                0 <= j < now.len() && (#[trigger] now[j]).subnet == k;
                            if j < before.len() {
                                assert(before[j].subnet == k);
                            }
                        }
                        if k == subnet@ {
                            assert(now[before.len() as int].subnet == k);
                        }
                    }
                    assert(meta@ =~= meta_of(adopted_meta@, now));
                }
            },
            AdoptionClass::PruneGhost => {
                pruned = true;
                if adapter_has(iface_ips, ip.as_str()) {
                    let is_primary = match &primary {
                        Some(p) => text::same(p.as_str(), ip.as_str()),
                        None => false,
                    };
                    let guard = if iface_ips.len() < 2 {
                        UnbindGuard::LastAddress
                    } else if is_primary {
                        UnbindGuard::Primary
                    } else {
                        UnbindGuard::Clear
                    };
                    let item = GhostLeftover { subnet: subnet.clone(), ip: ip.clone(), guard };
                    proof {
                        text::lemma_views_push(leftovers@, item);
                    }
                    leftovers.push(item);
                }
            },
            _ => {
                pruned = true;
            },
        }
        i += 1;
    }
    assert(s.take(i as int) =~= s);
    RestorePlan { keep, pruned, leftovers, meta }
}

/// An address that a saved adoption put on the adapter does not make its subnet native,
/// so a restart drops no adoption on its own account.
pub proof fn law_saved_addresses_are_not_native(
    ips: Seq<IpInfo>,
    s: Seq<(Seq<char>, Seq<char>)>,
    key: Seq<char>,
)
    requires
        forall|i: int|
            0 <= i < ips.len() && net::is_dotted((#[trigger] ips[i]).address@) && net::subnet_key(
                net::parsed(ips[i].address@)->0,
            ) == key ==> is_saved_ip(s, ips[i].address@),
    ensures
        !native_keys(ips, s).contains(key),
{
}

/// The time since a subnet was last heard of counts from its own entry, and there is none
/// without one.
pub proof fn law_when_a_subnet_was_heard_of(
    liveness: Map<Seq<char>, Instant>,
    subnet: Seq<char>,
    at: Instant,
    now: Instant,
)
    requires
        now.nanos >= at.nanos,
    ensures
        last_heard(liveness.insert(subnet, at), subnet, now) == Some(
            Duration { nanos: (now.nanos - at.nanos) as u128 },
        ),
        last_heard(liveness.remove(subnet), subnet, now) is None,
        forall|other: Seq<char>|
            other != subnet ==> #[trigger] last_heard(liveness.insert(subnet, at), other, now)
                == last_heard(liveness, other, now),
{
}

/// What is shown of an adoption: its recorded times, and the badge where it is link-local
/// and its evidence has run out or it is not and its last record is a day old.
pub proof fn law_what_is_shown_of_an_adoption(
    v: AdoptedMetaView,
    ip: Ipv4Addr,
    a: Adoptions,
    session_elapsed: Duration,
    now: Instant,
    wall: WallTime,
)
    requires
        shows(v, net::subnet_key(ip), a, session_elapsed, now, wall),
    ensures
        ({
            let key = net::subnet_key(ip);
            let age = lifecycle::badge_age_spec(
                if a.meta@.contains_key(key) {
                    Some(a.meta@[key])
                } else {
                    None
                },
                wall,
            );
            &&& v.stale <==> if ip.a == 169 && ip.b == 254 {
                if a.liveness@.contains_key(key) {
                    now.nanos >= a.liveness@[key].nanos + 1_800_000_000_000
                } else {
                    session_elapsed.nanos >= 600_000_000_000
                }
            } else {
                age matches Some(d) && d.nanos >= 86_400_000_000_000
            }
            &&& a.meta@.contains_key(key) ==> v.adopted_at == a.meta@[key].adopted_at
                && v.last_device_seen == a.meta@[key].last_device_seen
            &&& !a.meta@.contains_key(key) ==> v.adopted_at is None && v.last_device_seen is None
        }),
{
    let key = net::subnet_key(ip);
    lifecycle::law_what_is_shown_as_stale(
        ip,
        last_heard(a.liveness@, key, now),
        session_elapsed,
        lifecycle::badge_age_spec(lookup(a.meta@, key), wall),
    );
}

/// The subnets that an address is given up for are those adopted with it, and no other.
pub proof fn law_which_subnets_have_an_address(
    s: Seq<(Seq<char>, Ipv4Addr)>,
    ip: Ipv4Addr,
    k: Seq<char>,
)
    ensures
        keys_with_ip(s, net::dotted(ip)).contains(k) <==> exists|i: int|
            0 <= i < s.len() && #[trigger] s[i] == (k, ip),
{
    let f = key_if_ip(net::dotted(ip));
    text::lemma_filter_mapped(s, f, k);
    if keys_with_ip(s, net::dotted(ip)).contains(k) {
        let i = choose|i: int| 0 <= i < s.len() && f(#[trigger] s[i]) == Some(k);
        net::law_dotted_injective(s[i].1, ip);
        assert(s[i] == (k, ip));
    }
    if exists|i: int| 0 <= i < s.len() && #[trigger] s[i] == (k, ip) {
        let i = choose|i: int| 0 <= i < s.len() && #[trigger] s[i] == (k, ip);
        assert(f(s[i]) == Some(k));
    }
}

/// Forgetting an adoption leaves no trace of its subnet and all of every other.
pub proof fn law_forgetting_leaves_no_trace(
    before: Adoptions,
    after: Adoptions,
    subnet: Seq<char>,
    other: Seq<char>,
)
    requires
        forgotten(before, after, subnet),
        other != subnet,
    ensures
        !after.adopted@.contains_key(subnet),
        !after.pending_restore@.contains_key(subnet),
        !after.liveness@.contains_key(subnet),
        !after.meta@.contains_key(subnet),
        lookup(after.adopted@, other) == lookup(before.adopted@, other),
        lookup(after.pending_restore@, other) == lookup(before.pending_restore@, other),
        lookup(after.liveness@, other) == lookup(before.liveness@, other),
        lookup(after.meta@, other) == lookup(before.meta@, other),
{
}

/// Recording an adoption notes its address, counts it as heard now, dates it, and ends its
/// wait for a restore. Every other subnet stays as it is.
pub proof fn law_recording_notes_one_subnet(
    before: Adoptions,
    after: Adoptions,
    subnet: Seq<char>,
    ip: Ipv4Addr,
    now: Instant,
    wall: Seq<char>,
    other: Seq<char>,
)
    requires
        recorded(before, after, subnet, ip, now, wall),
        other != subnet,
    ensures
        after.adopted@.contains_pair(subnet, ip),
        !after.pending_restore@.contains_key(subnet),
        after.liveness@.contains_pair(subnet, now),
        after.meta@.contains_key(subnet),
        after.meta@[subnet].adopted_at matches Some(t) && t@ == wall,
        after.meta@[subnet].last_device_seen matches Some(t) && t@ == wall,
        lookup(after.adopted@, other) == lookup(before.adopted@, other),
        lookup(after.pending_restore@, other) == lookup(before.pending_restore@, other),
        lookup(after.liveness@, other) == lookup(before.liveness@, other),
        lookup(after.meta@, other) == lookup(before.meta@, other),
{
    assert(lookup(after.meta@, other) == lookup(
        before.meta@.insert(subnet, after.meta@[subnet]),
        other,
    ));
}

/// What is looked up is there or not.
pub proof fn law_lookup(m: Map<Seq<char>, Instant>, k: Seq<char>, v: Instant)
    ensures
        lookup(m, k) == Some(v) <==> m.contains_pair(k, v),
        lookup(m, k) is None <==> !m.contains_key(k),
{
}

/// An adopted address is cleaned up exactly when it is not the adapter's first one.
pub proof fn law_what_is_cleaned_up(e: (Seq<char>, Ipv4Addr), adapter_ips: Seq<Seq<char>>)
    ensures
        may_clean_up(adapter_ips)(e) <==> adapter_ips.len() == 0 || adapter_ips[0] != net::dotted(
            e.1,
        ),
{
    let ip = net::dotted(e.1);
    let set = adapter_ips.to_set();
    if set.len() <= 1 && adapter_ips.contains(ip) {
        assert(set.contains(ip));
        assert(set.contains(adapter_ips[0]));
        adapter_ips.lemma_cardinality_of_set();
        if adapter_ips[0] != ip {
            let rest = set.remove(ip);
            assert(rest.contains(adapter_ips[0]));
            assert(rest.len() == set.len() - 1);
            assert(rest.len() == 0);
            assert(false);
        }
    }
}

/// The adapter's own subnets are those of its addresses that were not saved as adopted.
pub proof fn law_what_the_adapter_has_itself(
    ips: Seq<IpInfo>,
    s: Seq<(Seq<char>, Seq<char>)>,
    k: Seq<char>,
)
    ensures
        native_keys(ips, s).contains(k) <==> exists|i: int, x: Ipv4Addr|
            0 <= i < ips.len() && (#[trigger] ips[i]).address@ == #[trigger] net::dotted(x) && k
                == net::subnet_key(x) && forall|j: int|
                0 <= j < s.len() ==> (#[trigger] s[j]).1 != ips[i].address@,
{
    if native_keys(ips, s).contains(k) {
        let i = choose|i: int|
            0 <= i < ips.len() && !is_saved_ip(s, (#[trigger] ips[i]).address@) && net::is_dotted(
                ips[i].address@,
            ) && k == net::subnet_key(net::parsed(ips[i].address@)->0);
        let x = net::parsed(ips[i].address@)->0;
        assert(ips[i].address@ == net::dotted(x));
    }
    if exists|i: int, x: Ipv4Addr|
        0 <= i < ips.len() && (#[trigger] ips[i]).address@ == #[trigger] net::dotted(x) && k
            == net::subnet_key(x) && forall|j: int|
            0 <= j < s.len() ==> (#[trigger] s[j]).1 != ips[i].address@ {
        let (i, x) = choose|i: int, x: Ipv4Addr|
            0 <= i < ips.len() && (#[trigger] ips[i]).address@ == #[trigger] net::dotted(x) && k
                == net::subnet_key(x) && forall|j: int|
                0 <= j < s.len() ==> (#[trigger] s[j]).1 != ips[i].address@;
        net::law_parse_of_text(x);
        assert(net::is_dotted(ips[i].address@));
        assert(!is_saved_ip(s, ips[i].address@));
    }
}

/// A saved adoption is restored exactly when the adapter has not its subnet by itself, no
/// adapter off the wire has part of it, and its address parses; it is bound again where
/// the adapter does not have the address already.
pub proof fn law_what_is_restored(
    s: Seq<(Seq<char>, Seq<char>)>,
    ips: Seq<IpInfo>,
    ghosts: Seq<Ipv4Network>,
    ip: Ipv4Addr,
    address: Seq<char>,
    needs_add: bool,
)
    requires
        forall|i: int| 0 <= i < ghosts.len() ==> (#[trigger] ghosts[i]).bits() <= 32,
    ensures
        ({
            let key = net::subnet_key(ip);
            let item = RestoreView { subnet: key, ip: address, needs_add };
            s.filter_map(kept_item(s, ips, ghosts)).contains(item) <==> {
                &&& exists|i: int| 0 <= i < s.len() && #[trigger] s[i] == (key, address)
                &&& !native_keys(ips, s).contains(key)
                &&& forall|i: int, x: Ipv4Addr|
                    0 <= i < ghosts.len() && #[trigger] ghosts[i].has(x) ==> x.a != ip.a || x.b
                        != ip.b || x.c != ip.c
                &&& exists|x: Ipv4Addr| net::dotted(x) == address
                &&& needs_add <==> forall|i: int|
                    0 <= i < ips.len() ==> (#[trigger] ips[i]).address@ != address
            }
        }),
{
    let key = net::subnet_key(ip);
    let item = RestoreView { subnet: key, ip: address, needs_add };
    let f = kept_item(s, ips, ghosts);
    text::lemma_filter_mapped(s, f, item);
    ghost::law_saved_adoption(ip, address, native_keys(ips, s), ghosts);
    if s.filter_map(f).contains(item) {
        let i = choose|i: int| 0 <= i < s.len() && f(#[trigger] s[i]) == Some(item);
        assert(s[i] == (key, address));
    }
    if exists|i: int| 0 <= i < s.len() && #[trigger] s[i] == (key, address) {
        let i = choose|i: int| 0 <= i < s.len() && #[trigger] s[i] == (key, address);
        assert(f(s[i]) == Some(item) <==> saved_class(s[i], s, ips, ghosts) == AdoptionClass::Keep
            && needs_add == !on_adapter(ips, address));
    }
}

/// What is left over of a saved adoption is an address that the adapter still has although
/// an adapter off the wire has part of the subnet. It may go, unless it is the adapter's
/// only one or its first that was not saved.
pub proof fn law_what_is_left_over(
    s: Seq<(Seq<char>, Seq<char>)>,
    ips: Seq<IpInfo>,
    ghosts: Seq<Ipv4Network>,
    e: (Seq<char>, Seq<char>),
)
    ensures
        ({
            let guard = if ips.len() < 2 {
                UnbindGuard::LastAddress
            } else if primary_native(ips, s) == Some(e.1) {
                UnbindGuard::Primary
            } else {
                UnbindGuard::Clear
            };
            leftover_item(s, ips, ghosts)(e) == if ghost::adoption_class(
                e.0,
                e.1,
                native_keys(ips, s),
                ghosts,
            ) == AdoptionClass::PruneGhost && exists|i: int|
                0 <= i < ips.len() && (#[trigger] ips[i]).address@ == e.1 {
                Some(LeftoverView { subnet: e.0, ip: e.1, guard })
            } else {
                None
            }
        }),
{
}

/// The first address of the adapter that was not saved as adopted.
pub proof fn law_the_first_native_address(
    ips: Seq<IpInfo>,
    s: Seq<(Seq<char>, Seq<char>)>,
)
    ensures
        match primary_native(ips, s) {
            Some(a) => exists|i: int|
                0 <= i < ips.len() && (#[trigger] ips[i]).address@ == a && !is_saved_ip(s, a)
                    && forall|j: int|
                    0 <= j < i ==> is_saved_ip(s, (#[trigger] ips[j]).address@),
            None => forall|j: int|
                0 <= j < ips.len() ==> is_saved_ip(s, (#[trigger] ips[j]).address@),
        },
    decreases ips.len(),
{
    if ips.len() > 0 {
        let rest = ips.drop_first();
        law_the_first_native_address(rest, s);
        if is_saved_ip(s, ips[0].address@) {
            match primary_native(rest, s) {
                Some(a) => {
                    let i = choose|i: int|
                        0 <= i < rest.len() && (#[trigger] rest[i]).address@ == a && !is_saved_ip(
                            s,
                            a,
                        ) && forall|j: int|
                            0 <= j < i ==> is_saved_ip(s, (#[trigger] rest[j]).address@);
                    assert(ips[i + 1] == rest[i]);
                    assert forall|j: int| 0 <= j < i + 1 implies is_saved_ip(
                        s,
                        (#[trigger] ips[j]).address@,
                    ) by {
                        if j > 0 {
                            assert(rest[j - 1] == ips[j]);
                        }
                    }
                },
                None => {
                    assert forall|j: int| 0 <= j < ips.len() implies is_saved_ip(
                        s,
                        (#[trigger] ips[j]).address@,
                    ) by {
                        if j > 0 {
                            assert(rest[j - 1] == ips[j]);
                        }
                    }
                },
            }
        } else {
            assert(ips[0].address@ == primary_native(ips, s)->0);
        }
    }
}

/// The recorded times are kept for the subnets that are restored, unchanged, and dropped
/// for the others.
pub proof fn law_which_times_are_kept(
    m: Map<Seq<char>, AdoptedMeta>,
    items: Seq<RestoreView>,
    k: Seq<char>,
)
    ensures
        meta_of(m, items).contains_key(k) <==> m.contains_key(k) && exists|i: int|
            0 <= i < items.len() && (#[trigger] items[i]).subnet == k,
        meta_of(m, items).contains_key(k) ==> meta_of(m, items)[k] == m[k],
{
}

/// What is restored and what is left over show all that they hold as it is.
pub proof fn law_what_a_plan_shows(r: RestoreItem, l: GhostLeftover)
    ensures
        r@.subnet == r.subnet@,
        r@.ip == r.ip@,
        r@.needs_add == r.needs_add,
        l@.subnet == l.subnet@,
        l@.ip == l.ip@,
        l@.guard == l.guard,
{
}

} // verus!
