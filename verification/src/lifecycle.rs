//! Bookkeeping of adopted subnets: liveness, display metadata, and the guards in
//! front of an unbind.

use crate::config;
use crate::config::AdoptedMeta;
use crate::interface::IpInfo;
use crate::net;
use crate::net::{Ipv4Addr, Ipv4Network};
use crate::reaper;
use crate::reaper::{LifecycleInput, ReapVerdict};
use crate::text;
use crate::textmap;
use crate::textmap::TextMap;
use crate::time::{Duration, Instant};
use crate::wall::WallTime;
use vstd::prelude::*;

verus! {

/// One adopted subnet's metadata as it is shown.
#[derive(Debug)]
pub struct AdoptedMetaView {
    /// RFC 3339; nothing for entries from before metadata was kept.
    pub adopted_at: Option<String>,
    /// RFC 3339; nothing until a device was seen.
    pub last_device_seen: Option<String>,
    /// Stale by the evidence, whatever pins or a rescued host may hold back.
    pub stale: bool,
}

/// The stamp that an adoption's badge is measured from: the last sighting, or
/// else the adoption itself.
pub open spec fn badge_stamp(meta: Option<AdoptedMeta>) -> Option<Seq<char>> {
    match meta {
        Some(m) => if m.last_device_seen is Some {
            config::opt_text(m.last_device_seen)
        } else {
            config::opt_text(m.adopted_at)
        },
        None => None,
    }
}

/// The wall-clock age that an adoption's badge goes by.
pub open spec fn badge_age_spec(meta: Option<AdoptedMeta>, now: WallTime) -> Option<Duration> {
    match badge_stamp(meta) {
        Some(stamp) => now.age_spec(stamp),
        None => None,
    }
}

/// The age of the last recorded sighting, or of the adoption if no device was
/// seen; nothing if there is nothing to measure, the stamp is unreadable, or it
/// lies ahead.
pub fn badge_age(meta: Option<&AdoptedMeta>, now: WallTime) -> (r: Option<Duration>)
    ensures
        r == badge_age_spec(
            match meta {
                Some(m) => Some(*m),
                None => None,
            },
            now,
        ),
{
    match meta {
        Some(m) => match &m.last_device_seen {
            Some(stamp) => now.age(stamp.as_str()),
            None => match &m.adopted_at {
                Some(stamp) => now.age(stamp.as_str()),
                None => None,
            },
        },
        None => None,
    }
}

/// The lifecycle evidence of an adoption with no veto.
pub open spec fn free_input(
    subnet: Seq<char>,
    last_positive_elapsed: Option<Duration>,
    session_elapsed: Duration,
    badge_age: Option<Duration>,
) -> LifecycleInput {
    LifecycleInput {
        subnet: net::key_address(subnet),
        last_positive_elapsed,
        session_elapsed,
        pinned: false,
        host_rescued: false,
        badge_age,
    }
}

/// What is shown of one adoption. Its badge comes from the same verdict that the
/// removal goes by.
pub fn adoption_meta_view(
    subnet: &str,
    meta: Option<&AdoptedMeta>,
    last_positive_elapsed: Option<Duration>,
    session_elapsed: Duration,
    badge_age: Option<Duration>,
) -> (r: AdoptedMetaView)
    ensures
        r.stale == (reaper::verdict(
            free_input(subnet@, last_positive_elapsed, session_elapsed, badge_age),
        ) != ReapVerdict::Keep),
        match meta {
            Some(m) => r.adopted_at == m.adopted_at && r.last_device_seen == m.last_device_seen,
            None => r.adopted_at is None && r.last_device_seen is None,
        },
{
    let verdict = reaper::lifecycle_verdict(
        &LifecycleInput {
            subnet: reaper::parse_subnet_key(subnet),
            last_positive_elapsed,
            session_elapsed,
            pinned: false,
            host_rescued: false,
            badge_age,
        },
    );
    let stale = verdict != ReapVerdict::Keep;
    match meta {
        Some(m) => AdoptedMetaView {
            adopted_at: config::opt_clone(&m.adopted_at),
            last_device_seen: config::opt_clone(&m.last_device_seen),
            stale,
        },
        None => AdoptedMetaView { adopted_at: None, last_device_seen: None, stale },
    }
}

/// How often metadata alone is written to disk at most, in seconds.
pub const META_FLUSH_INTERVAL: u64 = 300;

/// Whether metadata waits to be written, and when it last was.
pub struct MetaFlush {
    pub dirty: bool,
    pub last_flush: Instant,
}

/// Whether a write is due, given when the last one was.
pub open spec fn flush_due(last_flush: Instant, now: Instant) -> bool {
    now.since_spec(last_flush).reaches_spec(META_FLUSH_INTERVAL)
}

/// Metadata alone is written at most once per interval: after a write at one time, the
/// next is due only an interval later.
pub proof fn law_writes_keep_their_distance(first: Instant, second: Instant)
    requires
        flush_due(first, second),
    ensures
        second.nanos >= first.nanos + META_FLUSH_INTERVAL * crate::time::NANOS_PER_SEC,
{
}

/// Marks the metadata dirty and says whether a write is due, which takes the dirt
/// away and starts the interval over.
pub fn meta_dirty_flush_due(state: &mut MetaFlush, now: Instant) -> (r: bool)
    ensures
        r == flush_due(old(state).last_flush, now),
        final(state).dirty == !r,
        final(state).last_flush == if r {
            now
        } else {
            old(state).last_flush
        },
{
    state.dirty = true;
    if now.since(state.last_flush).reaches(META_FLUSH_INTERVAL) {
        state.dirty = false;
        state.last_flush = now;
        true
    } else {
        false
    }
}

/// Records evidence of a device at `ip`, if its /24 is adopted: the session clock
/// of the subnet is set and its last sighting is stamped.
pub fn record_positive_liveness(
    ip: Ipv4Addr,
    adopted: &TextMap<Ipv4Addr>,
    liveness: &mut TextMap<Instant>,
    meta: &mut TextMap<AdoptedMeta>,
    now: Instant,
    wall_rfc3339: &str,
) -> (r: bool)
    ensures
        r == adopted@.contains_key(net::subnet_key(ip)),
        final(liveness)@ == if r {
            old(liveness)@.insert(net::subnet_key(ip), now)
        } else {
            old(liveness)@
        },
        !r ==> final(meta)@ == old(meta)@,
        r ==> stamped(old(meta)@, final(meta)@, net::subnet_key(ip), wall_rfc3339@),
{
    let subnet = net::subnet_key_for(ip);
    if !adopted.contains_key(subnet.as_str()) {
        return false;
    }
    let adopted_at = match meta.get(subnet.as_str()) {
        Some(m) => config::opt_clone(&m.adopted_at),
        None => None,
    };
    liveness.insert(subnet.clone(), now);
    meta.insert(
        subnet,
        AdoptedMeta { adopted_at, last_device_seen: Some(String::from_str(wall_rfc3339)) },
    );
    true
}

/// `after` is `before` with the last sighting on `key` set to `wall`, and nothing
/// else changed.
pub open spec fn stamped(
    before: Map<Seq<char>, AdoptedMeta>,
    after: Map<Seq<char>, AdoptedMeta>,
    key: Seq<char>,
    wall: Seq<char>,
) -> bool {
    &&& after.contains_key(key)
    &&& after == before.insert(key, after[key])
    &&& config::opt_text(after[key].last_device_seen) == Some(wall)
    &&& after[key].adopted_at == if before.contains_key(key) {
        before[key].adopted_at
    } else {
        None
    }
}

/// An address of the adapter that is neither link-local nor bound by an adoption.
pub open spec fn native_lease(
    ip: Ipv4Addr,
    adopted_ips: Seq<Ipv4Addr>,
    pending_ips: Seq<Ipv4Addr>,
) -> bool {
    !ip.link_local() && !adopted_ips.contains(ip) && !pending_ips.contains(ip)
}

/// No address of the adapter is native: the adopted link-local ones are all the
/// connectivity the host has.
pub open spec fn rescued(
    current_ips: Seq<Ipv4Addr>,
    adopted_ips: Seq<Ipv4Addr>,
    pending_ips: Seq<Ipv4Addr>,
) -> bool {
    forall|i: int|
        0 <= i < current_ips.len() ==> !native_lease(
            #[trigger] current_ips[i],
            adopted_ips,
            pending_ips,
        )
}

/// Whether the host has no native address on the wired adapter.
pub fn host_in_apipa_rescue(
    current_ips: &Vec<Ipv4Addr>,
    adopted_ips: &Vec<Ipv4Addr>,
    pending_ips: &Vec<Ipv4Addr>,
) -> (r: bool)
    ensures
        r == rescued(current_ips@, adopted_ips@, pending_ips@),
{
    let mut i: usize = 0;
    while i < current_ips.len()
        invariant
            i <= current_ips.len(),
            forall|k: int|
                0 <= k < i ==> !native_lease(
                    #[trigger] current_ips@[k],
                    adopted_ips@,
                    pending_ips@,
                ),
        decreases current_ips.len() - i,
    {
        let ip = current_ips[i];
        if !ip.is_link_local() && !net::holds(adopted_ips, ip) && !net::holds(pending_ips, ip) {
            assert(native_lease(current_ips@[i as int], adopted_ips@, pending_ips@));
            return false;
        }
        i += 1;
    }
    true
}

/// Why an address must stay bound.
pub open spec fn unbind_block(ip: Seq<char>, adapter_ips: Seq<Seq<char>>) -> Option<Seq<char>> {
    if adapter_ips.len() > 0 && adapter_ips[0] == ip {
        Some("is the adapter's primary IP"@)
    } else if adapter_ips.len() <= 1 && adapter_ips.contains(ip) {
        Some("would leave the adapter with no other IPv4 address"@)
    } else {
        None
    }
}

/// Why an address must stay bound, if it must: it is the adapter's primary one, or
/// the adapter would be left without an address.
pub fn unbind_guard_blocks(ip: &str, adapter_ips: &Vec<String>) -> (r: Option<&'static str>)
    ensures
        match r {
            Some(reason) => Some(reason@) == unbind_block(ip@, text::views(adapter_ips@)),
            None => unbind_block(ip@, text::views(adapter_ips@)) is None,
        },
{
    if adapter_ips.len() > 0 && text::same(adapter_ips[0].as_str(), ip) {
        return Some("is the adapter's primary IP");
    }
    if adapter_ips.len() <= 1 && text::holds(adapter_ips, ip) {
        return Some("would leave the adapter with no other IPv4 address");
    }
    None
}

/// An adapter never loses its primary address nor its only one.
pub proof fn law_guarded_unbind_leaves_an_address(ip: Seq<char>, adapter_ips: Seq<Seq<char>>)
    requires
        unbind_block(ip, adapter_ips) is None,
        adapter_ips.contains(ip),
    ensures
        adapter_ips.len() >= 2,
        adapter_ips[0] != ip,
{
    let i = adapter_ips.index_of(ip);
    assert(adapter_ips[i] == ip);
}

/// The map to write to disk: the live adoptions, and those that wait to be
/// restored where no live one has their subnet.
pub open spec fn merged_config(
    live: Map<Seq<char>, Ipv4Addr>,
    pending: Map<Seq<char>, Ipv4Addr>,
) -> Map<Seq<char>, Ipv4Addr> {
    pending.union_prefer_right(live)
}

/// `texts` holds the addresses of `map` as text.
pub open spec fn as_text(texts: Map<Seq<char>, String>, map: Map<Seq<char>, Ipv4Addr>) -> bool {
    &&& texts.dom() == map.dom()
    &&& forall|k: Seq<char>| #[trigger]
        texts.contains_key(k) ==> texts[k]@ == net::dotted(map[k])
}

/// The adoptions to write to disk. A live one wins over one that waits to be
/// restored; the latter are kept, so that the next start tries them again.
pub fn merge_adopted_config(live: &TextMap<Ipv4Addr>, pending: &TextMap<Ipv4Addr>) -> (r: TextMap<
    String,
>)
    ensures
        as_text(r@, merged_config(live@, pending@)),
{
    let mut out: TextMap<String> = TextMap::new();
    let ghost mut model: Map<Seq<char>, Ipv4Addr> = Map::empty();
    let n = pending.len();
    let mut i: usize = 0;
    while i < n
        invariant
            i <= n,
            n == pending.entries().len(),
            textmap::distinct_keys(pending.entries()),
            as_text(out@, model),
            model == textmap::map_of(pending.entries().take(i as int)),
        decreases n - i,
    {
        let key = pending.key_at(i).clone();
        let ip = *pending.value_at(i);
        proof {
            lemma_map_take(pending.entries(), i as int);
            model = model.insert(key@, ip);
        }
        let ghost before = out@;
        out.insert(key, ip.text());
        assert(out@.dom() =~= model.dom());
        i += 1;
    }
    assert(pending.entries().take(i as int) =~= pending.entries());
    let m = live.len();
    let mut j: usize = 0;
    assert(model =~= merged_config(textmap::map_of(live.entries().take(0)), pending@));
    while j < m
        invariant
            j <= m,
            m == live.entries().len(),
            textmap::distinct_keys(live.entries()),
            as_text(out@, model),
            model == merged_config(textmap::map_of(live.entries().take(j as int)), pending@),
        decreases m - j,
    {
        let key = live.key_at(j).clone();
        let ip = *live.value_at(j);
        proof {
            lemma_map_take(live.entries(), j as int);
            let before = textmap::map_of(live.entries().take(j as int));
            assert(merged_config(before, pending@).insert(key@, ip) =~= merged_config(
                before.insert(key@, ip),
                pending@,
            ));
            model = model.insert(key@, ip);
        }
        out.insert(key, ip.text());
        assert(out@.dom() =~= model.dom());
        j += 1;
    }
    assert(live.entries().take(j as int) =~= live.entries());
    out
}

/// The map of one entry more.
pub proof fn lemma_map_take<V>(s: Seq<(Seq<char>, V)>, i: int)
    requires
        textmap::distinct_keys(s),
        0 <= i < s.len(),
    ensures
        textmap::map_of(s.take(i + 1)) == textmap::map_of(s.take(i)).insert(s[i].0, s[i].1),
{
    let a = s.take(i);
    let b = s.take(i + 1);
    let target = textmap::map_of(a).insert(s[i].0, s[i].1);
    assert(b[i] == s[i]);
    assert forall|k: Seq<char>| #[trigger]
        textmap::map_of(b).dom().contains(k) == target.dom().contains(k) by {
        if textmap::has_key(b, k) {
            let j = textmap::key_index(b, k);
            assert(0 <= j < b.len() && b[j].0 == k);
            if j < i {
                assert(a[j].0 == k);
            }
        }
        if textmap::has_key(a, k) {
            let j = textmap::key_index(a, k);
            assert(0 <= j < a.len() && a[j].0 == k);
            assert(b[j].0 == k);
        }
        if k == s[i].0 {
            assert(b[i].0 == k);
        }
    }
    assert forall|k: Seq<char>| textmap::map_of(b).dom().contains(k) implies #[trigger] textmap::map_of(
        b,
    )[k] == target[k] by {
        let j = textmap::key_index(b, k);
        assert(0 <= j < b.len() && b[j].0 == k);
        textmap::lemma_entry(b, j);
        if j < i {
            assert(a[j] == b[j]);
            textmap::lemma_entry(a, j);
            assert(s[j].0 != s[i].0);
        }
    }
    assert(textmap::map_of(b) =~= target);
}

/// A waiting restore survives a write that comes from the live adoptions, and a
/// live adoption wins over it.
pub proof fn law_merged_config_loses_nothing(
    live: Map<Seq<char>, Ipv4Addr>,
    pending: Map<Seq<char>, Ipv4Addr>,
    subnet: Seq<char>,
)
    ensures
        live.contains_key(subnet) ==> merged_config(live, pending).contains_pair(
            subnet,
            live[subnet],
        ),
        !live.contains_key(subnet) && pending.contains_key(subnet) ==> merged_config(
            live,
            pending,
        ).contains_pair(subnet, pending[subnet]),
        merged_config(live, pending).contains_key(subnet) ==> live.contains_key(subnet)
            || pending.contains_key(subnet),
{
}

/// Whether the block that `key` denotes holds `target`.
pub open spec fn key_covers(key: Seq<char>, target: Ipv4Addr) -> bool {
    match net::cidr(key) {
        Some((base, bits)) => net::same_block(base, target, bits),
        None => false,
    }
}

/// Whether the network of an adapter's address holds `target`.
pub open spec fn info_covers(info: IpInfo, target: Ipv4Addr) -> bool {
    match net::parsed(info.address@) {
        Some(addr) => info.prefix <= 32 && net::same_block(addr, target, info.prefix),
        None => false,
    }
}

/// The address of the first adoption whose subnet holds `target`.
pub open spec fn adopted_source(
    entries: Seq<(Seq<char>, Ipv4Addr)>,
    target: Ipv4Addr,
) -> Option<Ipv4Addr>
    decreases entries.len(),
{
    if entries.len() == 0 {
        None
    } else if key_covers(entries[0].0, target) {
        Some(entries[0].1)
    } else {
        adopted_source(entries.drop_first(), target)
    }
}

/// The first address of the adapter whose network holds `target`.
pub open spec fn native_source(infos: Seq<IpInfo>, target: Ipv4Addr) -> Option<Ipv4Addr>
    decreases infos.len(),
{
    if infos.len() == 0 {
        None
    } else if info_covers(infos[0], target) {
        net::parsed(infos[0].address@)
    } else {
        native_source(infos.drop_first(), target)
    }
}

/// The wired address to reach `target` from: that of an adoption whose subnet
/// holds it, else one of the adapter's own; nothing if there is no wired route.
/// Keys that do not parse are passed over.
pub fn select_wired_source(
    target: Ipv4Addr,
    adopted: &TextMap<Ipv4Addr>,
    iface_ips: &Vec<IpInfo>,
) -> (r: Option<Ipv4Addr>)
    ensures
        r == match adopted_source(adopted.entries(), target) {
            Some(ip) => Some(ip),
            None => native_source(iface_ips@, target),
        },
{
    let n = adopted.len();
    let ghost all = adopted.entries();
    assert(all.skip(0) =~= all);
    let mut i: usize = 0;
    while i < n
        invariant
            i <= n,
            n == all.len(),
            all == adopted.entries(),
            adopted_source(all, target) == adopted_source(all.skip(i as int), target),
        decreases n - i,
    {
        assert(all.skip(i as int)[0] == all[i as int]);
        assert(all.skip(i as int).drop_first() =~= all.skip(i + 1));
        if let Some(block) = Ipv4Network::parse(adopted.key_at(i).as_str()) {
            if block.contains(target) {
                return Some(*adopted.value_at(i));
            }
        }
        i += 1;
    }
    let ghost infos = iface_ips@;
    assert(infos.skip(0) =~= infos);
    let mut j: usize = 0;
    while j < iface_ips.len()
        invariant
            j <= iface_ips.len(),
            infos == iface_ips@,
            adopted_source(adopted.entries(), target) is None,
            native_source(infos, target) == native_source(infos.skip(j as int), target),
        decreases iface_ips.len() - j,
    {
        assert(infos.skip(j as int)[0] == infos[j as int]);
        assert(infos.skip(j as int).drop_first() =~= infos.skip(j + 1));
        let info = &iface_ips[j];
        if let Some(addr) = Ipv4Addr::parse(info.address.as_str()) {
            if let Some(block) = Ipv4Network::new(addr, info.prefix) {
                if block.contains(target) {
                    return Some(addr);
                }
            }
        }
        j += 1;
    }
    None
}

/// A wired source exists exactly when an adopted subnet or a network of the
/// adapter holds the target, and an adopted one is taken first.
pub proof fn law_wired_source(
    entries: Seq<(Seq<char>, Ipv4Addr)>,
    infos: Seq<IpInfo>,
    target: Ipv4Addr,
)
    ensures
        adopted_source(entries, target) is Some <==> exists|i: int|
            0 <= i < entries.len() && key_covers((#[trigger] entries[i]).0, target),
        adopted_source(entries, target) matches Some(ip) ==> exists|i: int|
            0 <= i < entries.len() && key_covers((#[trigger] entries[i]).0, target)
                && entries[i].1 == ip,
        native_source(infos, target) is Some <==> exists|j: int|
            0 <= j < infos.len() && info_covers(#[trigger] infos[j], target),
{
    lemma_adopted_source(entries, target);
    lemma_native_source(infos, target);
}

proof fn lemma_adopted_source(entries: Seq<(Seq<char>, Ipv4Addr)>, target: Ipv4Addr)
    ensures
        adopted_source(entries, target) is Some <==> exists|i: int|
            0 <= i < entries.len() && key_covers((#[trigger] entries[i]).0, target),
        adopted_source(entries, target) matches Some(ip) ==> exists|i: int|
            0 <= i < entries.len() && key_covers((#[trigger] entries[i]).0, target)
                && entries[i].1 == ip,
    decreases entries.len(),
{
    if entries.len() > 0 {
        let rest = entries.drop_first();
        lemma_adopted_source(rest, target);
        if key_covers(entries[0].0, target) {
        } else {
            if adopted_source(rest, target) is Some {
                let ip = adopted_source(rest, target)->0;
                let i = choose|i: int|
                    0 <= i < rest.len() && key_covers((#[trigger] rest[i]).0, target) && rest[i].1
                        == ip;
                assert(entries[i + 1] == rest[i]);
            }
            if exists|i: int| 0 <= i < entries.len() && key_covers((#[trigger] entries[i]).0, target) {
                let i = choose|i: int|
                    0 <= i < entries.len() && key_covers((#[trigger] entries[i]).0, target);
                assert(rest[i - 1] == entries[i]);
            }
        }
    }
}

proof fn lemma_native_source(infos: Seq<IpInfo>, target: Ipv4Addr)
    ensures
        native_source(infos, target) is Some <==> exists|j: int|
            0 <= j < infos.len() && info_covers(#[trigger] infos[j], target),
    decreases infos.len(),
{
    if infos.len() > 0 {
        let rest = infos.drop_first();
        lemma_native_source(rest, target);
        if !info_covers(infos[0], target) {
            if native_source(rest, target) is Some {
                let j = choose|j: int| 0 <= j < rest.len() && info_covers(#[trigger] rest[j], target);
                assert(infos[j + 1] == rest[j]);
            }
            if exists|j: int| 0 <= j < infos.len() && info_covers(#[trigger] infos[j], target) {
                let j = choose|j: int|
                    0 <= j < infos.len() && info_covers(#[trigger] infos[j], target);
                assert(rest[j - 1] == infos[j]);
            }
        }
    }
}

/// Work that belongs to one discovery session.
#[derive(Clone, Copy, Debug)]
pub struct SweepFence {
    pub generation: u64,
}

/// Whether work of a session is out of date.
pub open spec fn stale(fence: u64, current: u64, active: bool) -> bool {
    !active || fence != current
}

impl SweepFence {
    pub fn new(generation: u64) -> (r: SweepFence)
        ensures
            r.generation == generation,
    {
        SweepFence { generation }
    }

    /// Whether the work is out of date: discovery is stopped, or another session
    /// has begun since.
    pub fn is_stale(&self, current: u64, active: bool) -> (r: bool)
        ensures
            r == stale(self.generation, current, active),
    {
        !active || self.generation != current
    }
}

/// The badge goes by the last recorded sighting, and by the adoption where none is
/// recorded.
pub proof fn law_which_time_the_badge_goes_by(m: AdoptedMeta, seen: String, now: WallTime)
    ensures
        badge_stamp(Some(AdoptedMeta { last_device_seen: Some(seen), ..m })) == Some(seen@),
        badge_stamp(Some(AdoptedMeta { last_device_seen: None, ..m })) == match m.adopted_at {
            Some(at) => Some(at@),
            None => None,
        },
        badge_stamp(None) is None,
        badge_age_spec(Some(AdoptedMeta { last_device_seen: Some(seen), ..m }), now)
            == now.age_spec(seen@),
        badge_age_spec(None, now) is None,
{
}

/// An adoption is shown as stale exactly when it is link-local and its evidence has run
/// out, or when it is not and its last record is a day old.
pub proof fn law_what_is_shown_as_stale(
    ip: Ipv4Addr,
    last_positive_elapsed: Option<Duration>,
    session_elapsed: Duration,
    badge_age: Option<Duration>,
)
    ensures
        reaper::verdict(
            free_input(
                net::subnet_key(ip),
                last_positive_elapsed,
                session_elapsed,
                badge_age,
            ),
        ) != ReapVerdict::Keep <==> if ip.a == 169 && ip.b == 254 {
            match last_positive_elapsed {
                Some(e) => e.nanos >= 1_800_000_000_000,
                None => session_elapsed.nanos >= 600_000_000_000,
            }
        } else {
            badge_age matches Some(age) && age.nanos >= 86_400_000_000_000
        },
{
    net::law_key_address(ip);
}

/// What is known of the adoptions is written once five minutes have passed since the last
/// time, and not before.
pub proof fn law_when_to_write(last_flush: Instant, now: Instant)
    ensures
        flush_due(last_flush, now) <==> now.nanos >= last_flush.nanos + 300_000_000_000,
{
}

/// A sighting stamps its own adoption with its time and leaves the time of adoption and
/// every other entry as they are.
pub proof fn law_a_sighting_stamps_its_own_entry(
    before: Map<Seq<char>, AdoptedMeta>,
    after: Map<Seq<char>, AdoptedMeta>,
    key: Seq<char>,
    wall: Seq<char>,
    other: Seq<char>,
)
    requires
        stamped(before, after, key, wall),
        other != key,
    ensures
        after.contains_key(key),
        after[key].last_device_seen matches Some(t) && t@ == wall,
        before.contains_key(key) ==> after[key].adopted_at == before[key].adopted_at,
        !before.contains_key(key) ==> after[key].adopted_at is None,
        after.contains_key(other) == before.contains_key(other),
        after[other] == before[other],
{
    assert(after[other] == before.insert(key, after[key])[other]);
}

/// The host lives on link-local addresses exactly when each of its addresses is one, or
/// was adopted, or is being adopted.
pub proof fn law_when_the_host_is_rescued(
    current_ips: Seq<Ipv4Addr>,
    adopted_ips: Seq<Ipv4Addr>,
    pending_ips: Seq<Ipv4Addr>,
)
    ensures
        rescued(current_ips, adopted_ips, pending_ips) <==> forall|x: Ipv4Addr| #[trigger]
            current_ips.contains(x) ==> (x.a == 169 && x.b == 254) || adopted_ips.contains(x)
                || pending_ips.contains(x),
{
    if rescued(current_ips, adopted_ips, pending_ips) {
        assert forall|x: Ipv4Addr| #[trigger] current_ips.contains(x) implies (x.a == 169 && x.b
            == 254) || adopted_ips.contains(x) || pending_ips.contains(x) by {
            let i = current_ips.index_of(x);
            assert(!native_lease(current_ips[i], adopted_ips, pending_ips));
        }
    }
    if forall|x: Ipv4Addr| #[trigger]
        current_ips.contains(x) ==> (x.a == 169 && x.b == 254) || adopted_ips.contains(x)
            || pending_ips.contains(x) {
        assert forall|i: int| 0 <= i < current_ips.len() implies !native_lease(
            #[trigger] current_ips[i],
            adopted_ips,
            pending_ips,
        ) by {
            assert(current_ips.contains(current_ips[i]));
        }
    }
}

/// An address stays bound exactly when it is the adapter's first one.
pub proof fn law_only_the_first_address_stays(ip: Seq<char>, adapter_ips: Seq<Seq<char>>)
    ensures
        unbind_block(ip, adapter_ips) is Some <==> adapter_ips.len() > 0 && adapter_ips[0] == ip,
        unbind_block(ip, adapter_ips) matches Some(why) ==> why == "is the adapter's primary IP"@,
{
}

/// What is written for the adoptions is the text of each address under its own key.
pub proof fn law_addresses_are_written_as_text(
    texts: Map<Seq<char>, String>,
    map: Map<Seq<char>, Ipv4Addr>,
    k: Seq<char>,
)
    requires
        as_text(texts, map),
    ensures
        texts.contains_key(k) <==> map.contains_key(k),
        map.contains_key(k) ==> texts[k]@ == net::dotted(map[k]),
        map.contains_key(k) ==> net::parsed(texts[k]@) == Some(map[k]),
{
    assert(texts.dom().contains(k) <==> map.dom().contains(k));
    if map.contains_key(k) {
        net::law_parse_of_text(map[k]);
    }
}

/// An adopted subnet covers the addresses that share its first three numbers, and an
/// adapter's address those in its block.
pub proof fn law_what_an_address_covers(ip: Ipv4Addr, info: IpInfo, own: Ipv4Addr, target: Ipv4Addr)
    requires
        info.address@ == net::dotted(own),
    ensures
        key_covers(net::subnet_key(ip), target) <==> target.a == ip.a && target.b == ip.b && target.c
            == ip.c,
        info_covers(info, target) <==> info.prefix <= 32 && net::same_block(
            own,
            target,
            info.prefix,
        ),
{
    net::law_subnet_key_is_cidr(ip);
    net::law_parse_of_text(own);
    vstd::arithmetic::power2::lemma2_to64();
    assert(net::block_size(24) == 256);
    let base = Ipv4Addr { a: ip.a, b: ip.b, c: ip.c, d: 0 };
    net::lemma_num_parts(base);
    net::lemma_num_parts(target);
}

/// A target is reached from the first adopted subnet that covers it, and else from the
/// first address of the adapter that does.
pub proof fn law_the_first_cover_counts(
    entries: Seq<(Seq<char>, Ipv4Addr)>,
    infos: Seq<IpInfo>,
    target: Ipv4Addr,
    i: int,
)
    ensures
        0 <= i < entries.len() && key_covers(entries[i].0, target) && (forall|j: int|
            0 <= j < i ==> !key_covers((#[trigger] entries[j]).0, target)) ==> adopted_source(
            entries,
            target,
        ) == Some(entries[i].1),
        0 <= i < infos.len() && info_covers(infos[i], target) && (forall|j: int|
            0 <= j < i ==> !info_covers(#[trigger] infos[j], target)) ==> native_source(
            infos,
            target,
        ) == net::parsed(infos[i].address@),
    decreases i,
{
    if i > 0 && entries.len() > 0 {
        assert forall|j: int| 0 <= j < i - 1 && i < entries.len() implies #[trigger] entries.drop_first()[j]
            == entries[j + 1] by {}
        if i < entries.len() {
            assert(entries.drop_first()[i - 1] == entries[i]);
        }
    }
    if i > 0 && infos.len() > 0 {
        assert forall|j: int| 0 <= j < i - 1 && i < infos.len() implies #[trigger] infos.drop_first()[j]
            == infos[j + 1] by {}
        if i < infos.len() {
            assert(infos.drop_first()[i - 1] == infos[i]);
        }
    }
    if i > 0 {
        law_the_first_cover_counts(
            if entries.len() > 0 {
                entries.drop_first()
            } else {
                entries
            },
            if infos.len() > 0 {
                infos.drop_first()
            } else {
                infos
            },
            target,
            i - 1,
        );
    }
}

/// A fence holds for its own session while that runs, and for no other.
pub proof fn law_when_a_fence_is_stale(fence: u64, current: u64, active: bool)
    ensures
        !stale(fence, current, active) <==> active && fence == current,
{
}

/// Any adopted key covers the addresses of the block it names, and a key that names none
/// covers nothing.
pub proof fn law_a_key_covers_its_block(key: Seq<char>, target: Ipv4Addr)
    ensures
        net::cidr(key) matches Some((base, bits)) ==> (key_covers(key, target) <==> base.num()
            / net::block_size(bits as int) == target.num() / net::block_size(bits as int)),
        net::cidr(key) is None ==> !key_covers(key, target),
{
}

} // verus!
