//! From a device that was heard, or stands in the neighbor table, to its record.

use crate::arp;
use crate::arp::{ArpCounters, ArpDevice, ArpView};
use crate::device_registry;
use crate::device_registry::{DeviceRegistry, MergeResult, RecordView};
use crate::ghost;
use crate::lifecycle;
use crate::lifecycle::SweepFence;
use crate::neighbors;
use crate::net;
use crate::net::{Ipv4Addr, Ipv4Network};
use crate::session::DiscoveryState;
use crate::text;
use crate::textmap::TextMap;
use vstd::prelude::*;

verus! {

/// The devices heard so far, by MAC, as text.
pub open spec fn heard(m: TextMap<ArpDevice>) -> Map<Seq<char>, ArpView> {
    m@.map_values(|d: ArpDevice| d@)
}

/// A device seen for the first time, now.
pub open spec fn first_sight(mac: Seq<char>, ip: Ipv4Addr, now: Seq<char>) -> ArpView {
    ArpView {
        mac,
        ip: net::dotted(ip),
        subnet: net::subnet_key(ip),
        first_seen: now,
        last_seen: now,
    }
}

fn new_device(mac: String, ip: Ipv4Addr, now: &str) -> (r: ArpDevice)
    ensures
        r@ == first_sight(mac@, ip, now@),
{
    ArpDevice {
        mac,
        ip: ip.text(),
        subnet: net::subnet_key_for(ip),
        first_seen: String::from_str(now),
        last_seen: String::from_str(now),
    }
}

/// The devices after one was heard: a known one has its address, subnet and time
/// refreshed.
pub open spec fn after_hearing(m: Map<Seq<char>, ArpView>, d: ArpView) -> Map<Seq<char>, ArpView> {
    if m.contains_key(d.mac) {
        m.insert(
            d.mac,
            ArpView { ip: d.ip, subnet: d.subnet, last_seen: d.last_seen, ..m[d.mac] },
        )
    } else {
        m.insert(d.mac, d)
    }
}

/// What came of hearing a device.
pub struct ArpSeen {
    pub device: ArpDevice,
    /// The device was not heard before.
    pub is_new: bool,
    pub merge: MergeResult,
}

/// Takes a frame from a device: counts it, refreshes the devices heard, and merges the
/// device into the records.
pub fn on_arp_seen(
    ip: Ipv4Addr,
    mac: &[u8; 6],
    now: &str,
    devices: &mut TextMap<ArpDevice>,
    registry: &mut DeviceRegistry,
    counters: &mut ArpCounters,
) -> (r: ArpSeen)
    ensures
        r.device@ == first_sight(arp::mac_text(mac@), ip, now@),
        r.is_new == !old(devices)@.contains_key(r.device@.mac),
        heard(*final(devices)) == after_hearing(heard(*old(devices)), r.device@),
        final(registry)@ == device_registry::after_arp(old(registry)@, r.device@),
        r.merge.changed == (final(registry)@ != old(registry)@),
        text::views(r.merge.dropped_macs@) == device_registry::macs(
            old(registry)@.filter(device_registry::is_replaced(r.device@)),
        ),
        final(counters)@ == (arp::Counts {
            frames_seen: arp::plus_one(old(counters)@.frames_seen),
            ..old(counters)@
        }),
{
    counters.note_frame();
    let device = new_device(arp::format_mac(mac), ip, now);
    let ghost before = heard(*devices);
    let entry = match devices.get(device.mac.as_str()) {
        Some(known) => ArpDevice {
            mac: known.mac.clone(),
            ip: device.ip.clone(),
            subnet: device.subnet.clone(),
            first_seen: known.first_seen.clone(),
            last_seen: device.last_seen.clone(),
        },
        None => device.clone(),
    };
    let is_new = !devices.contains_key(device.mac.as_str());
    let ghost ev = entry@;
    devices.insert(device.mac.clone(), entry);
    proof {
        assert(heard(*devices) =~= before.insert(device@.mac, ev));
        if before.contains_key(device@.mac) {
            assert(ev =~= ArpView {
                ip: device@.ip,
                subnet: device@.subnet,
                last_seen: device@.last_seen,
                ..before[device@.mac]
            });
        }
    }
    let merge = registry.merge_arp(&device);
    ArpSeen { device, is_new, merge }
}

/// Whether an entry of the neighbor table is a device that was not heard before: not on
/// a subnet off the wire, not this host, and with a new MAC.
pub open spec fn is_discovery(
    m: Map<Seq<char>, ArpView>,
    e: (Ipv4Addr, Seq<char>),
    excluded: Seq<Ipv4Network>,
    local_ips: Seq<Ipv4Addr>,
) -> bool {
    !ghost::ghost_ip(e.0, excluded) && !local_ips.contains(e.0) && !m.contains_key(e.1)
}

/// The devices heard after the first `n` entries of the table.
pub open spec fn heard_after(
    m: Map<Seq<char>, ArpView>,
    entries: Seq<(Ipv4Addr, Seq<char>)>,
    excluded: Seq<Ipv4Network>,
    local_ips: Seq<Ipv4Addr>,
    now: Seq<char>,
    n: int,
) -> Map<Seq<char>, ArpView>
    decreases n,
{
    if n <= 0 {
        m
    } else {
        let before = heard_after(m, entries, excluded, local_ips, now, n - 1);
        let e = entries[n - 1];
        if is_discovery(before, e, excluded, local_ips) {
            before.insert(e.1, first_sight(e.1, e.0, now))
        } else {
            before
        }
    }
}

/// The devices that the first `n` entries of the table add.
pub open spec fn discoveries(
    m: Map<Seq<char>, ArpView>,
    entries: Seq<(Ipv4Addr, Seq<char>)>,
    excluded: Seq<Ipv4Network>,
    local_ips: Seq<Ipv4Addr>,
    now: Seq<char>,
    n: int,
) -> Seq<ArpView>
    decreases n,
{
    if n <= 0 {
        Seq::empty()
    } else {
        let before = discoveries(m, entries, excluded, local_ips, now, n - 1);
        let e = entries[n - 1];
        if is_discovery(
            heard_after(m, entries, excluded, local_ips, now, n - 1),
            e,
            excluded,
            local_ips,
        ) {
            before.push(first_sight(e.1, e.0, now))
        } else {
            before
        }
    }
}

/// The records after the devices were merged, one by one.
pub open spec fn after_devices(s: Seq<RecordView>, devices: Seq<ArpView>) -> Seq<RecordView>
    decreases devices.len(),
{
    if devices.len() == 0 {
        s
    } else {
        device_registry::after_arp(after_devices(s, devices.drop_last()), devices.last())
    }
}

/// Adds the entries of the neighbor table that were not heard before.
fn collect_new(
    entries: &Vec<(Ipv4Addr, String)>,
    devices: &mut TextMap<ArpDevice>,
    excluded: &Vec<Ipv4Network>,
    local_ips: &Vec<Ipv4Addr>,
    now: &str,
) -> (r: Vec<ArpDevice>)
    ensures
        heard(*final(devices)) == heard_after(
            heard(*old(devices)),
            neighbors::pairs(entries@),
            excluded@,
            local_ips@,
            now@,
            entries@.len() as int,
        ),
        text::views(r@) == discoveries(
            heard(*old(devices)),
            neighbors::pairs(entries@),
            excluded@,
            local_ips@,
            now@,
            entries@.len() as int,
        ),
{
    let ghost start = heard(*devices);
    let ghost list = neighbors::pairs(entries@);
    let mut r: Vec<ArpDevice> = Vec::new();
    let mut i: usize = 0;
    assert(text::views(r@) =~= discoveries(start, list, excluded@, local_ips@, now@, 0));
    while i < entries.len()
        invariant
            i <= entries.len(),
            list == neighbors::pairs(entries@),
            heard(*devices) == heard_after(start, list, excluded@, local_ips@, now@, i as int),
            text::views(r@) == discoveries(start, list, excluded@, local_ips@, now@, i as int),
        decreases entries.len() - i,
    {
        let ip = entries[i].0;
        let mac = &entries[i].1;
        assert(list[i as int] == (ip, mac@));
        let ghost before = heard(*devices);
        if !ghost::is_structural_ghost_ip(ip, excluded) && !net::holds(local_ips, ip)
            && !devices.contains_key(mac.as_str()) {
            let device = new_device(mac.clone(), ip, now);
            let copy = device.clone();
            devices.insert(mac.clone(), copy);
            proof {
                assert(heard(*devices) =~= before.insert(mac@, device@));
                text::lemma_views_push(r@, device);
            }
            r.push(device);
        }
        i += 1;
    }
    r
}

/// A device from the neighbor table, and what merging it did.
pub struct Discovery {
    pub device: ArpDevice,
    pub merge: MergeResult,
}

/// The devices of a list of discoveries.
pub open spec fn found(s: Seq<Discovery>) -> Seq<ArpView> {
    s.map_values(|d: Discovery| d.device@)
}

/// `s[i]` tells what merging device `i` did to the records.
pub open spec fn told(s: Seq<Discovery>, start: Seq<RecordView>, i: int) -> bool {
    let before = after_devices(start, found(s).take(i));
    let after = after_devices(start, found(s).take(i + 1));
    &&& s[i].merge.changed == (after != before)
    &&& text::views(s[i].merge.dropped_macs@) == device_registry::macs(
        before.filter(device_registry::is_replaced(s[i].device@)),
    )
}

/// Takes the neighbor table: entries that were not heard before are added to the devices
/// heard and merged into the records. Entries on a subnet off the wire and addresses of
/// this host are passed over.
pub fn merge_arp_table(
    entries: &Vec<(Ipv4Addr, String)>,
    devices: &mut TextMap<ArpDevice>,
    registry: &mut DeviceRegistry,
    excluded: &Vec<Ipv4Network>,
    local_ips: &Vec<Ipv4Addr>,
    now: &str,
) -> (r: Vec<Discovery>)
    ensures
        heard(*final(devices)) == heard_after(
            heard(*old(devices)),
            neighbors::pairs(entries@),
            excluded@,
            local_ips@,
            now@,
            entries@.len() as int,
        ),
        found(r@) == discoveries(
            heard(*old(devices)),
            neighbors::pairs(entries@),
            excluded@,
            local_ips@,
            now@,
            entries@.len() as int,
        ),
        final(registry)@ == after_devices(old(registry)@, found(r@)),
        forall|i: int| 0 <= i < r@.len() ==> #[trigger] told(r@, old(registry)@, i),
{
    let fresh = collect_new(entries, devices, excluded, local_ips, now);
    let ghost start = registry@;
    let ghost all = text::views(fresh@);
    let mut r: Vec<Discovery> = Vec::new();
    let mut i: usize = 0;
    assert(found(r@) =~= all.take(0));
    while i < fresh.len()
        invariant
            i <= fresh.len(),
            all == text::views(fresh@),
            start == old(registry)@,
            r.len() == i,
            found(r@) == all.take(i as int),
            registry@ == after_devices(start, all.take(i as int)),
            forall|k: int| 0 <= k < r@.len() ==> #[trigger] told(r@, start, k),
        decreases fresh.len() - i,
    {
        let device = fresh[i].clone();
        let ghost before = registry@;
        let ghost list = r@;
        proof {
            assert(all[i as int] == device@);
            assert(all.take(i + 1).drop_last() =~= all.take(i as int));
            assert(all.take(i + 1).last() == device@);
        }
        let merge = registry.merge_arp(&device);
        let d = Discovery { device, merge };
        r.push(d);
        proof {
            assert(found(r@) =~= found(list).push(d.device@));
            assert(found(r@) =~= all.take(i + 1));
            assert forall|k: int| 0 <= k < r@.len() implies #[trigger] told(r@, start, k) by {
                if k < i {
                    assert(told(list, start, k));
                    assert(found(r@).take(k) =~= found(list).take(k));
                    assert(found(r@).take(k + 1) =~= found(list).take(k + 1));
                } else {
                    assert(found(r@).take(k) =~= all.take(i as int));
                    assert(found(r@).take(k + 1) =~= all.take(i + 1));
                }
            }
        }
        i += 1;
    }
    assert(all.take(i as int) =~= all);
    r
}

/// Takes the neighbor table for the work of a session. Where that session is over, nothing
/// is found and nothing changes.
pub fn merge_session_table(
    state: &DiscoveryState,
    fence: &SweepFence,
    entries: &Vec<(Ipv4Addr, String)>,
    devices: &mut TextMap<ArpDevice>,
    registry: &mut DeviceRegistry,
    excluded: &Vec<Ipv4Network>,
    local_ips: &Vec<Ipv4Addr>,
    now: &str,
) -> (r: Vec<Discovery>)
    ensures
        lifecycle::stale(fence.generation, state.generation, state.active) ==> {
            &&& r@.len() == 0
            &&& *final(devices) == *old(devices)
            &&& *final(registry) == *old(registry)
        },
        !lifecycle::stale(fence.generation, state.generation, state.active) ==> {
            &&& heard(*final(devices)) == heard_after(
                heard(*old(devices)),
                neighbors::pairs(entries@),
                excluded@,
                local_ips@,
                now@,
                entries@.len() as int,
            )
            &&& found(r@) == discoveries(
                heard(*old(devices)),
                neighbors::pairs(entries@),
                excluded@,
                local_ips@,
                now@,
                entries@.len() as int,
            )
            &&& final(registry)@ == after_devices(old(registry)@, found(r@))
            &&& forall|i: int| 0 <= i < r@.len() ==> #[trigger] told(r@, old(registry)@, i)
        },
{
    if state.is_over(fence) {
        return Vec::new();
    }
    merge_arp_table(entries, devices, registry, excluded, local_ips, now)
}

/// Whether some merge changed the records, so that the list is to be shown again.
pub fn any_changed(list: &Vec<Discovery>) -> (r: bool)
    ensures
        r == exists|i: int| 0 <= i < list@.len() && (#[trigger] list@[i]).merge.changed,
{
    let mut i: usize = 0;
    while i < list.len()
        invariant
            i <= list.len(),
            forall|k: int| 0 <= k < i ==> !(#[trigger] list@[k]).merge.changed,
        decreases list.len() - i,
    {
        if list[i].merge.changed {
            return true;
        }
        i += 1;
    }
    false
}

/// The neighbor table adds neither this host nor a peer off the wire: every device that
/// it adds comes from an entry at another address on the wire.
pub proof fn law_table_adds_only_peers_on_the_wire(
    m: Map<Seq<char>, ArpView>,
    entries: Seq<(Ipv4Addr, Seq<char>)>,
    excluded: Seq<Ipv4Network>,
    local_ips: Seq<Ipv4Addr>,
    now: Seq<char>,
    n: int,
    i: int,
)
    requires
        0 <= n <= entries.len(),
        0 <= i < discoveries(m, entries, excluded, local_ips, now, n).len(),
    ensures
        exists|k: int|
            0 <= k < n && discoveries(m, entries, excluded, local_ips, now, n)[i] == first_sight(
                (#[trigger] entries[k]).1,
                entries[k].0,
                now,
            ) && !ghost::ghost_ip(entries[k].0, excluded) && !local_ips.contains(entries[k].0),
    decreases n,
{
    if n > 0 {
        let before = discoveries(m, entries, excluded, local_ips, now, n - 1);
        if i < before.len() {
            law_table_adds_only_peers_on_the_wire(
                m,
                entries,
                excluded,
                local_ips,
                now,
                n - 1,
                i,
            );
        } else {
            assert(discoveries(m, entries, excluded, local_ips, now, n)[i] == first_sight(
                entries[n - 1].1,
                entries[n - 1].0,
                now,
            ));
        }
    }
}

/// What is noted of a device: its MAC, its address as text, the /24 of the address, and
/// the time.
pub proof fn law_what_is_noted_of_a_device(mac: Seq<char>, ip: Ipv4Addr, now: Seq<char>)
    ensures
        ({
            let d = first_sight(mac, ip, now);
            &&& d.mac == mac
            &&& net::parsed(d.ip) == Some(ip)
            &&& d.subnet == net::subnet_key(ip)
            &&& d.first_seen == now
            &&& d.last_seen == now
        }),
{
    net::law_parse_of_text(ip);
}

/// Hearing a device notes its address, subnet and time under its MAC. What it was first
/// seen at stays, and so does every other device.
pub proof fn law_hearing_notes_one_device(
    m: Map<Seq<char>, ArpView>,
    d: ArpView,
    other: Seq<char>,
)
    requires
        other != d.mac,
        m.contains_key(d.mac) ==> m[d.mac].mac == d.mac,
    ensures
        ({
            let t = after_hearing(m, d);
            &&& t.contains_key(d.mac)
            &&& t[d.mac].mac == d.mac
            &&& t[d.mac].ip == d.ip
            &&& t[d.mac].subnet == d.subnet
            &&& t[d.mac].last_seen == d.last_seen
            &&& t[d.mac].first_seen == if m.contains_key(d.mac) {
                m[d.mac].first_seen
            } else {
                d.first_seen
            }
            &&& t.contains_key(other) == m.contains_key(other)
            &&& t[other] == m[other]
        }),
{
}

/// The table adds every peer on the wire that was not heard before, once, with the first
/// address that the table gives it, and nobody else: not who lies in a block off the wire
/// or has an address of the host. What was heard before stays.
pub proof fn law_the_table_adds_every_new_peer(
    m: Map<Seq<char>, ArpView>,
    entries: Seq<(Ipv4Addr, Seq<char>)>,
    excluded: Seq<Ipv4Network>,
    local_ips: Seq<Ipv4Addr>,
    now: Seq<char>,
    d: ArpView,
    mac: Seq<char>,
)
    ensures
        ({
            let n = entries.len() as int;
            let t = heard_after(m, entries, excluded, local_ips, now, n);
            let peer = |k: int|
                {
                    &&& forall|i: int|
                        0 <= i < excluded.len() ==> !(#[trigger] excluded[i]).has(entries[k].0)
                    &&& forall|i: int|
                        0 <= i < local_ips.len() ==> #[trigger] local_ips[i] != entries[k].0
                };
            &&& discoveries(m, entries, excluded, local_ips, now, n).contains(d) <==> exists|k: int|
                {
                    &&& 0 <= k < n
                    &&& peer(k)
                    &&& !m.contains_key((#[trigger] entries[k]).1)
                    &&& forall|j: int|
                        0 <= j < k && (#[trigger] entries[j]).1 == entries[k].1 ==> !peer(j)
                    &&& d.mac == entries[k].1
                    &&& d.ip == net::dotted(entries[k].0)
                    &&& d.subnet == net::subnet_key(entries[k].0)
                    &&& d.first_seen == now
                    &&& d.last_seen == now
                }
            &&& t.contains_key(mac) <==> m.contains_key(mac) || exists|k: int|
                0 <= k < n && (#[trigger] entries[k]).1 == mac && peer(k)
            &&& m.contains_key(mac) ==> t[mac] == m[mac]
        }),
{
    let n = entries.len() as int;
    lemma_new_peers(m, entries, excluded, local_ips, now, n, d, mac);
    let peer = |k: int|
        {
            &&& forall|i: int|
                0 <= i < excluded.len() ==> !(#[trigger] excluded[i]).has(entries[k].0)
            &&& forall|i: int| 0 <= i < local_ips.len() ==> #[trigger] local_ips[i] != entries[k].0
        };
    assert forall|k: int| #[trigger] peer(k) == is_peer(entries[k].0, excluded, local_ips) by {}
    let all = discoveries(m, entries, excluded, local_ips, now, n);
    if all.contains(d) {
        let k = choose|k: int|
            0 <= k < n && is_first_peer(entries, excluded, local_ips, k) && !m.contains_key(
                entries[k].1,
            ) && d == first_sight((#[trigger] entries[k]).1, entries[k].0, now);
        assert(peer(k));
        assert forall|j: int| 0 <= j < k && (#[trigger] entries[j]).1 == entries[k].1 implies !peer(
            j,
        ) by {}
    }
    if exists|k: int|
        {
            &&& 0 <= k < n
            &&& peer(k)
            &&& !m.contains_key((#[trigger] entries[k]).1)
            &&& forall|j: int|
                0 <= j < k && (#[trigger] entries[j]).1 == entries[k].1 ==> !peer(j)
            &&& d.mac == entries[k].1
            &&& d.ip == net::dotted(entries[k].0)
            &&& d.subnet == net::subnet_key(entries[k].0)
            &&& d.first_seen == now
            &&& d.last_seen == now
        } {
        let k = choose|k: int|
            {
                &&& 0 <= k < n
                &&& peer(k)
                &&& !m.contains_key((#[trigger] entries[k]).1)
                &&& forall|j: int|
                    0 <= j < k && (#[trigger] entries[j]).1 == entries[k].1 ==> !peer(j)
                &&& d.mac == entries[k].1
                &&& d.ip == net::dotted(entries[k].0)
                &&& d.subnet == net::subnet_key(entries[k].0)
                &&& d.first_seen == now
                &&& d.last_seen == now
            };
        assert(is_peer(entries[k].0, excluded, local_ips));
        assert forall|j: int| 0 <= j < k && (#[trigger] entries[j]).1 == entries[k].1 implies !is_peer(
            entries[j].0,
            excluded,
            local_ips,
        ) by {
            assert(!peer(j));
        }
        assert(d == first_sight(entries[k].1, entries[k].0, now));
    }
    if exists|k: int|
        0 <= k < n && (#[trigger] entries[k]).1 == mac && is_peer(
            entries[k].0,
            excluded,
            local_ips,
        ) {
        let k = choose|k: int|
            0 <= k < n && (#[trigger] entries[k]).1 == mac && is_peer(
                entries[k].0,
                excluded,
                local_ips,
            );
        assert(peer(k));
    }
    if exists|k: int| 0 <= k < n && (#[trigger] entries[k]).1 == mac && peer(k) {
        let k = choose|k: int| 0 <= k < n && (#[trigger] entries[k]).1 == mac && peer(k);
        assert(is_peer(entries[k].0, excluded, local_ips));
    }
}

/// Whether the entry is of a peer on the wire, and the first such entry with its MAC.
spec fn is_first_peer(
    entries: Seq<(Ipv4Addr, Seq<char>)>,
    excluded: Seq<Ipv4Network>,
    local_ips: Seq<Ipv4Addr>,
    k: int,
) -> bool {
    &&& is_peer(entries[k].0, excluded, local_ips)
    &&& forall|j: int|
        0 <= j < k && (#[trigger] entries[j]).1 == entries[k].1 ==> !is_peer(
            entries[j].0,
            excluded,
            local_ips,
        )
}

/// Whether an address lies in no block off the wire and is none of the host's own.
spec fn is_peer(
    ip: Ipv4Addr,
    excluded: Seq<Ipv4Network>,
    local_ips: Seq<Ipv4Addr>,
) -> bool {
    &&& forall|i: int| 0 <= i < excluded.len() ==> !(#[trigger] excluded[i]).has(ip)
    &&& forall|i: int| 0 <= i < local_ips.len() ==> #[trigger] local_ips[i] != ip
}

proof fn lemma_new_peers(
    m: Map<Seq<char>, ArpView>,
    entries: Seq<(Ipv4Addr, Seq<char>)>,
    excluded: Seq<Ipv4Network>,
    local_ips: Seq<Ipv4Addr>,
    now: Seq<char>,
    n: int,
    d: ArpView,
    mac: Seq<char>,
)
    requires
        0 <= n <= entries.len(),
    ensures
        ({
            let t = heard_after(m, entries, excluded, local_ips, now, n);
            &&& discoveries(m, entries, excluded, local_ips, now, n).contains(d) <==> exists|k: int|
                0 <= k < n && is_first_peer(entries, excluded, local_ips, k) && !m.contains_key(
                    entries[k].1,
                ) && d == first_sight((#[trigger] entries[k]).1, entries[k].0, now)
            &&& t.contains_key(mac) <==> m.contains_key(mac) || exists|k: int|
                0 <= k < n && (#[trigger] entries[k]).1 == mac && is_peer(
                    entries[k].0,
                    excluded,
                    local_ips,
                )
            &&& m.contains_key(mac) ==> t[mac] == m[mac]
        }),
    decreases n,
{
    if n > 0 {
        lemma_new_peers(m, entries, excluded, local_ips, now, n - 1, d, mac);
        let e = entries[n - 1];
        lemma_new_peers(m, entries, excluded, local_ips, now, n - 1, d, e.1);
        let before = discoveries(m, entries, excluded, local_ips, now, n - 1);
        let after = discoveries(m, entries, excluded, local_ips, now, n);
        let b = heard_after(m, entries, excluded, local_ips, now, n - 1);
        assert(is_peer(e.0, excluded, local_ips) <==> !ghost::ghost_ip(e.0, excluded)
            && !local_ips.contains(e.0)) by {
            if local_ips.contains(e.0) {
                assert(local_ips[local_ips.index_of(e.0)] == e.0);
            }
            if ghost::ghost_ip(e.0, excluded) {
                let i = choose|i: int| 0 <= i < excluded.len() && (#[trigger] excluded[i]).has(e.0);
                assert(excluded[i].has(e.0));
            }
        }
        let adds = is_discovery(b, e, excluded, local_ips);
        assert(adds <==> is_first_peer(entries, excluded, local_ips, n - 1) && !m.contains_key(
            e.1,
        )) by {
            if is_peer(e.0, excluded, local_ips) && b.contains_key(e.1) && !m.contains_key(e.1) {
                let k = choose|k: int|
                    0 <= k < n - 1 && (#[trigger] entries[k]).1 == e.1 && is_peer(
                        entries[k].0,
                        excluded,
                        local_ips,
                    );
                assert(entries[k].1 == entries[n - 1].1);
            }
        }
        if after.contains(d) {
            let i = after.index_of(d);
            if i < before.len() {
                assert(before[i] == d);
                assert(before.contains(d));
            } else {
                assert(d == first_sight(entries[n - 1].1, entries[n - 1].0, now));
            }
        }
        if before.contains(d) {
            assert(after[before.index_of(d)] == d);
        }
        if adds {
            assert(after[before.len() as int] == first_sight(e.1, e.0, now));
        }
    }
}

/// Devices are merged one after the other: one device gives what its frame gives, and two
/// lists in a row give what the one list of both gives.
pub proof fn law_devices_are_merged_in_turn(
    s: Seq<RecordView>,
    d: ArpView,
    x: Seq<ArpView>,
    y: Seq<ArpView>,
)
    ensures
        after_devices(s, Seq::empty()) == s,
        after_devices(s, seq![d]) == device_registry::after_arp(s, d),
        after_devices(s, x + y) == after_devices(after_devices(s, x), y),
    decreases y.len(),
{
    assert(seq![d].drop_last() =~= Seq::empty());
    assert(after_devices(s, seq![d].drop_last()) == s);
    if y.len() > 0 {
        law_devices_are_merged_in_turn(s, d, x, y.drop_last());
        assert((x + y).drop_last() =~= x + y.drop_last());
        assert((x + y).last() == y.last());
    } else {
        assert(x + y =~= x);
    }
}

/// What is told of each device that the table adds: whether its merge changed the list,
/// and the MACs of the records that it replaced.
pub proof fn law_what_is_told_of_a_merge(
    s: Seq<Discovery>,
    start: Seq<RecordView>,
    i: int,
    mac: Seq<char>,
)
    requires
        0 <= i < s.len(),
        told(s, start, i),
    ensures
        ({
            let before = after_devices(start, found(s).take(i));
            let d = s[i].device@;
            &&& s[i].merge.changed <==> device_registry::after_arp(before, d) != before
            &&& text::views(s[i].merge.dropped_macs@).contains(mac) <==> exists|j: int|
                0 <= j < before.len() && (#[trigger] before[j]).ip == d.ip && before[j].mac == mac
                    && mac != d.mac
        }),
{
    let before = after_devices(start, found(s).take(i));
    let d = s[i].device@;
    assert(found(s).take(i + 1).drop_last() =~= found(s).take(i));
    assert(found(s).take(i + 1).last() == d);
    let other = RecordView {
        mac: d.mac.push('.'),
        ip: d.ip,
        subnet: d.subnet,
        open_ports: Seq::empty(),
        alias: Seq::empty(),
        status: device_registry::DeviceStatus::Live,
        first_seen: d.first_seen,
        last_seen: d.last_seen,
    };
    assert(other.mac != d.mac) by {
        assert(other.mac.len() == d.mac.len() + 1);
    }
    device_registry::law_a_frame_spares_the_others(before, d, other, mac);
}

} // verus!
