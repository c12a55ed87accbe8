//! The one list of device records that the console shows.
//!
//! A record joins what is known of a host: identity, open ports, the user's label,
//! and how reachable it is. No two records share a MAC and no two share an address.

use crate::arp::{ArpDevice, ArpView};
use crate::config;
use crate::config::{AppSettings, CachedDevice, CachedView, ManualNode};
use crate::net;
use crate::net::Ipv4Addr;
use crate::text;
use crate::textmap::TextSet;
use vstd::prelude::*;

verus! {

/// How reachable a device is, as the user sees it.
#[derive(Clone, Copy, Debug, PartialEq, Eq, Structural)]
pub enum DeviceStatus {
    /// Confirmed in the current session.
    Live,
    /// Cached, with a targeted scan under way.
    Verifying,
    /// Cached, and the scan failed.
    Offline,
    /// Cached only, not confirmed this session.
    CachedOnly,
}

/// What is known of one device.
#[derive(Debug)]
pub struct DeviceRecord {
    pub mac: String,
    pub ip: String,
    pub subnet: String,
    pub open_ports: Vec<u16>,
    pub alias: String,
    pub status: DeviceStatus,
    pub first_seen: String,
    pub last_seen: String,
}

/// What is known of one device, as text and numbers.
#[verifier::ext_equal]
pub struct RecordView {
    pub mac: Seq<char>,
    pub ip: Seq<char>,
    pub subnet: Seq<char>,
    pub open_ports: Seq<u16>,
    pub alias: Seq<char>,
    pub status: DeviceStatus,
    pub first_seen: Seq<char>,
    pub last_seen: Seq<char>,
}

impl View for DeviceRecord {
    type V = RecordView;

    open spec fn view(&self) -> RecordView {
        RecordView {
            mac: self.mac@,
            ip: self.ip@,
            subnet: self.subnet@,
            open_ports: self.open_ports@,
            alias: self.alias@,
            status: self.status,
            first_seen: self.first_seen@,
            last_seen: self.last_seen@,
        }
    }
}

impl Clone for DeviceRecord {
    fn clone(&self) -> (r: DeviceRecord)
        ensures
            r@ == self@,
    {
        DeviceRecord {
            mac: self.mac.clone(),
            ip: self.ip.clone(),
            subnet: self.subnet.clone(),
            open_ports: config::copy_ports(&self.open_ports),
            alias: self.alias.clone(),
            status: self.status,
            first_seen: self.first_seen.clone(),
            last_seen: self.last_seen.clone(),
        }
    }
}

/// `manual:`, the start of the key of a pinned node.
pub open spec fn manual_prefix() -> Seq<char> {
    seq!['m', 'a', 'n', 'u', 'a', 'l', ':']
}

/// The addresses that the user configured: every pinned node and the stream target.
pub open spec fn pin_set(settings: AppSettings) -> Set<Seq<char>> {
    let nodes = Set::new(
        |ip: Seq<char>|
            exists|i: int|
                0 <= i < settings.manual_nodes@.len() && (#[trigger] settings.manual_nodes@[i]).ip@
                    == ip,
    );
    if settings.stream.camera_ip@.len() == 0 {
        nodes
    } else {
        nodes.insert(settings.stream.camera_ip@)
    }
}

/// The addresses that the user configured: every pinned node and the stream
/// target, which counts although it may have no label.
pub fn configured_pins(settings: &AppSettings) -> (r: TextSet)
    ensures
        r@ == pin_set(*settings),
{
    let mut pins = TextSet::new();
    let mut i: usize = 0;
    while i < settings.manual_nodes.len()
        invariant
            i <= settings.manual_nodes.len(),
            forall|ip: Seq<char>| #[trigger]
                pins@.contains(ip) <==> exists|k: int|
                    0 <= k < i && (#[trigger] settings.manual_nodes@[k]).ip@ == ip,
        decreases settings.manual_nodes.len() - i,
    {
        let _ = pins.insert(settings.manual_nodes[i].ip.clone());
        i += 1;
    }
    if !settings.stream.camera_ip.as_str().is_empty() {
        let _ = pins.insert(settings.stream.camera_ip.clone());
    }
    assert(pins@ =~= pin_set(*settings));
    pins
}

/// The user means to keep this device: it is a pinned node, has a label, or sits at
/// a configured address.
pub open spec fn pinned(
    key: Seq<char>,
    alias: Seq<char>,
    ip: Seq<char>,
    pins: Set<Seq<char>>,
) -> bool {
    manual_prefix().is_prefix_of(key) || alias.len() > 0 || pins.contains(ip)
}

/// Whether the key is that of a pinned node.
pub fn is_manual_key(key: &str) -> (r: bool)
    ensures
        r == manual_prefix().is_prefix_of(key@),
{
    proof {
        reveal_strlit("manual:");
        assert("manual:"@ =~= manual_prefix());
    }
    text::starts_with(key, "manual:")
}

/// Whether the user means to keep this device.
pub fn is_user_pinned(key: &str, alias: &str, ip: &str, configured_pins: &TextSet) -> (r: bool)
    ensures
        r == pinned(key@, alias@, ip@, configured_pins@),
{
    is_manual_key(key) || !alias.is_empty() || configured_pins.contains(ip)
}

/// What a merge did: whether anything changed, and the MACs of the records that
/// went, for which the cache holds rows too.
#[derive(Debug)]
pub struct MergeResult {
    pub changed: bool,
    pub dropped_macs: Vec<String>,
}

/// The device records, in order of arrival.
pub struct DeviceRegistry {
    devices: Vec<DeviceRecord>,
}

impl View for DeviceRegistry {
    type V = Seq<RecordView>;

    closed spec fn view(&self) -> Seq<RecordView> {
        text::views(self.devices@)
    }
}

/// No two records share a MAC, and no two share an address.
pub open spec fn one_each(s: Seq<RecordView>) -> bool {
    &&& forall|i: int, j: int|
        0 <= i < j < s.len() ==> (#[trigger] s[i]).mac != (#[trigger] s[j]).mac
    &&& forall|i: int, j: int| 0 <= i < j < s.len() ==> (#[trigger] s[i]).ip != (#[trigger] s[j]).ip
}

/// Whether some record has the MAC.
pub open spec fn has_mac(s: Seq<RecordView>, mac: Seq<char>) -> bool {
    exists|i: int| 0 <= i < s.len() && (#[trigger] s[i]).mac == mac
}

/// Whether some record has the address.
pub open spec fn has_ip(s: Seq<RecordView>, ip: Seq<char>) -> bool {
    exists|i: int| 0 <= i < s.len() && (#[trigger] s[i]).ip == ip
}

/// Having another MAC.
pub open spec fn mac_is_not(mac: Seq<char>) -> spec_fn(RecordView) -> bool {
    |r: RecordView| r.mac != mac
}

/// Being discovered, not pinned by hand.
pub open spec fn not_manual() -> spec_fn(RecordView) -> bool {
    |r: RecordView| !manual_prefix().is_prefix_of(r.mac)
}

proof fn lemma_filter_one_each(s: Seq<RecordView>, p: spec_fn(RecordView) -> bool)
    requires
        one_each(s),
    ensures
        one_each(s.filter(p)),
        forall|m: Seq<char>| #[trigger]
            has_mac(s.filter(p), m) <==> exists|i: int|
                0 <= i < s.len() && (#[trigger] s[i]).mac == m && p(s[i]),
        forall|m: Seq<char>| #[trigger]
            has_ip(s.filter(p), m) <==> exists|i: int|
                0 <= i < s.len() && (#[trigger] s[i]).ip == m && p(s[i]),
    decreases s.len(),
{
    reveal(Seq::filter);
    if s.len() > 0 {
        let rest = s.drop_last();
        let last = s.last();
        assert(one_each(rest)) by {
            assert forall|i: int, j: int| 0 <= i < j < rest.len() implies (#[trigger] rest[i]).mac
                != (#[trigger] rest[j]).mac by {
                assert(rest[i] == s[i] && rest[j] == s[j]);
            }
            assert forall|i: int, j: int| 0 <= i < j < rest.len() implies (#[trigger] rest[i]).ip
                != (#[trigger] rest[j]).ip by {
                assert(rest[i] == s[i] && rest[j] == s[j]);
            }
        }
        lemma_filter_one_each(rest, p);
        let f = rest.filter(p);
        let g = s.filter(p);
        assert forall|k: int| 0 <= k < f.len() implies (#[trigger] f[k]).mac != last.mac && f[k].ip
            != last.ip by {
            assert(has_mac(f, f[k].mac));
            assert(has_ip(f, f[k].ip));
            let i = choose|i: int|
                0 <= i < rest.len() && (#[trigger] rest[i]).mac == f[k].mac && p(rest[i]);
            assert(s[i] == rest[i] && s[s.len() - 1] == last);
            let j = choose|j: int|
                0 <= j < rest.len() && (#[trigger] rest[j]).ip == f[k].ip && p(rest[j]);
            assert(s[j] == rest[j]);
        }
        assert(g == if p(last) {
            f.push(last)
        } else {
            f
        });
        assert forall|m: Seq<char>| #[trigger]
            has_mac(g, m) <==> exists|i: int|
                0 <= i < s.len() && (#[trigger] s[i]).mac == m && p(s[i]) by {
            if has_mac(g, m) {
                let k = choose|k: int| 0 <= k < g.len() && (#[trigger] g[k]).mac == m;
                if k < f.len() {
                    assert(f[k].mac == m);
                    assert(has_mac(f, m));
                    let i = choose|i: int|
                        0 <= i < rest.len() && (#[trigger] rest[i]).mac == m && p(rest[i]);
                    assert(s[i].mac == m);
                } else {
                    assert(s[s.len() - 1].mac == m);
                }
            }
            if exists|i: int| 0 <= i < s.len() && (#[trigger] s[i]).mac == m && p(s[i]) {
                let i = choose|i: int| 0 <= i < s.len() && (#[trigger] s[i]).mac == m && p(s[i]);
                if i < rest.len() {
                    assert(rest[i].mac == m);
                    assert(has_mac(f, m));
                    let k = choose|k: int| 0 <= k < f.len() && (#[trigger] f[k]).mac == m;
                    assert(g[k].mac == m);
                } else {
                    assert(g[g.len() - 1].mac == m);
                }
            }
        }
        assert forall|m: Seq<char>| #[trigger]
            has_ip(g, m) <==> exists|i: int|
                0 <= i < s.len() && (#[trigger] s[i]).ip == m && p(s[i]) by {
            if has_ip(g, m) {
                let k = choose|k: int| 0 <= k < g.len() && (#[trigger] g[k]).ip == m;
                if k < f.len() {
                    assert(f[k].ip == m);
                    assert(has_ip(f, m));
                    let i = choose|i: int|
                        0 <= i < rest.len() && (#[trigger] rest[i]).ip == m && p(rest[i]);
                    assert(s[i].ip == m);
                } else {
                    assert(s[s.len() - 1].ip == m);
                }
            }
            if exists|i: int| 0 <= i < s.len() && (#[trigger] s[i]).ip == m && p(s[i]) {
                let i = choose|i: int| 0 <= i < s.len() && (#[trigger] s[i]).ip == m && p(s[i]);
                if i < rest.len() {
                    assert(rest[i].ip == m);
                    assert(has_ip(f, m));
                    let k = choose|k: int| 0 <= k < f.len() && (#[trigger] f[k]).ip == m;
                    assert(g[k].ip == m);
                } else {
                    assert(g[g.len() - 1].ip == m);
                }
            }
        }
    }
}

proof fn lemma_filter_same(s: Seq<RecordView>, p: spec_fn(RecordView) -> bool)
    ensures
        s.filter(p).len() <= s.len(),
        s.filter(p).len() == s.len() <==> (forall|i: int| 0 <= i < s.len() ==> p(#[trigger] s[i])),
        s.filter(p).len() == s.len() ==> s.filter(p) == s,
    decreases s.len(),
{
    reveal(Seq::filter);
    if s.len() > 0 {
        let rest = s.drop_last();
        lemma_filter_same(rest, p);
        if s.filter(p).len() == s.len() {
            assert(p(s.last()));
            assert(s =~= rest.push(s.last()));
            assert forall|i: int| 0 <= i < s.len() implies p(#[trigger] s[i]) by {
                if i < rest.len() {
                    assert(rest[i] == s[i]);
                }
            }
        }
        if forall|i: int| 0 <= i < s.len() ==> p(#[trigger] s[i]) {
            assert forall|i: int| 0 <= i < rest.len() implies p(#[trigger] rest[i]) by {
                assert(rest[i] == s[i]);
            }
            assert(p(s[s.len() - 1]));
        }
    }
}

/// Copies the records that do not have the MAC; says whether one had it.
fn without_mac(list: &Vec<DeviceRecord>, mac: &str) -> (r: Vec<DeviceRecord>)
    ensures
        text::views(r@) == text::views(list@).filter(mac_is_not(mac@)),
{
    let ghost keep = mac_is_not(mac@);
    let ghost all = text::views(list@);
    let mut kept: Vec<DeviceRecord> = Vec::new();
    let mut i: usize = 0;
    assert(text::views(kept@) =~= all.take(0).filter(keep)) by {
        assert(all.take(0) =~= Seq::empty());
        reveal(Seq::filter);
    }
    while i < list.len()
        invariant
            i <= list.len(),
            all == text::views(list@),
            keep == mac_is_not(mac@),
            text::views(kept@) == all.take(i as int).filter(keep),
        decreases list.len() - i,
    {
        let x = &list[i];
        let copy = x.clone();
        proof {
            assert(all[i as int] == list@[i as int]@);
            all.lemma_take_succ_push(i as int);
            all.take(i as int).lemma_filter_push(all[i as int], keep);
            text::lemma_views_push(kept@, copy);
        }
        if !text::same(x.mac.as_str(), mac) {
            kept.push(copy);
        }
        i += 1;
    }
    assert(all.take(i as int) =~= all);
    kept
}

impl DeviceRegistry {
    #[verifier::type_invariant]
    spec fn valid(self) -> bool {
        one_each(self@)
    }

    /// No records.
    pub fn new() -> (r: DeviceRegistry)
        ensures
            r@ == Seq::<RecordView>::empty(),
    {
        let r = DeviceRegistry { devices: Vec::new() };
        assert(r@ =~= Seq::<RecordView>::empty());
        r
    }

    /// How many records there are. No two share a MAC, and no two share an address.
    pub fn len(&self) -> (r: usize)
        ensures
            r == self@.len(),
            one_each(self@),
    {
        proof {
            use_type_invariant(self);
        }
        self.devices.len()
    }

    /// Drops every record; says whether there was one.
    pub fn clear(&mut self) -> (r: bool)
        ensures
            final(self)@ == Seq::<RecordView>::empty(),
            r == (old(self)@.len() > 0),
    {
        let had = self.devices.len() > 0;
        self.devices = Vec::new();
        assert(self@ =~= Seq::<RecordView>::empty());
        had
    }

    /// Drops the record with this MAC; says whether there was one.
    pub fn remove_by_mac(&mut self, mac: &str) -> (r: bool)
        ensures
            final(self)@ == old(self)@.filter(mac_is_not(mac@)),
            r == has_mac(old(self)@, mac@),
    {
        proof {
            use_type_invariant(&*self);
            lemma_filter_one_each(self@, mac_is_not(mac@));
            lemma_filter_same(self@, mac_is_not(mac@));
        }
        let kept = without_mac(&self.devices, mac);
        let r = kept.len() != self.devices.len();
        self.devices = kept;
        r
    }

    /// Drops every pinned node and leaves what was discovered; says whether there
    /// was a pinned one.
    pub fn remove_manual_entries(&mut self) -> (r: bool)
        ensures
            final(self)@ == old(self)@.filter(not_manual()),
            r == (final(self)@.len() != old(self)@.len()),
    {
        proof {
            use_type_invariant(&*self);
            lemma_filter_one_each(self@, not_manual());
        }
        let ghost keep = not_manual();
        let ghost all = self@;
        let mut kept: Vec<DeviceRecord> = Vec::new();
        let mut i: usize = 0;
        assert(text::views(kept@) =~= all.take(0).filter(keep)) by {
            assert(all.take(0) =~= Seq::empty());
            reveal(Seq::filter);
        }
        while i < self.devices.len()
            invariant
                i <= self.devices.len(),
                all == self@,
                keep == not_manual(),
                text::views(kept@) == all.take(i as int).filter(keep),
            decreases self.devices.len() - i,
        {
            let x = &self.devices[i];
            let copy = x.clone();
            proof {
                assert(all[i as int] == self.devices@[i as int]@);
                all.lemma_take_succ_push(i as int);
                all.take(i as int).lemma_filter_push(all[i as int], keep);
                text::lemma_views_push(kept@, copy);
            }
            if !is_manual_key(x.mac.as_str()) {
                kept.push(copy);
            }
            i += 1;
        }
        assert(all.take(i as int) =~= all);
        let r = kept.len() != self.devices.len();
        self.devices = kept;
        r
    }

    /// Drops the record for this MAC; says whether there was one.
    pub fn forget(&mut self, mac: &str) -> (r: bool)
        ensures
            final(self)@ == old(self)@.filter(mac_is_not(mac@)),
            r == has_mac(old(self)@, mac@),
    {
        self.remove_by_mac(mac)
    }
}

/// A record after a scan of its address found `ports` open. Only an open port is
/// evidence that the device is alive.
pub open spec fn scanned(r: RecordView, ports: Seq<u16>) -> RecordView {
    RecordView {
        open_ports: ports,
        status: if ports.len() > 0 {
            DeviceStatus::Live
        } else {
            r.status
        },
        ..r
    }
}

/// The records after a scan of `ip`.
pub open spec fn after_scan(s: Seq<RecordView>, ip: Seq<char>, ports: Seq<u16>) -> Seq<RecordView> {
    s.map_values(
        |r: RecordView|
            if r.ip == ip {
                scanned(r, ports)
            } else {
                r
            },
    )
}

/// The records after the device at `ip` was labelled.
pub open spec fn after_alias(s: Seq<RecordView>, ip: Seq<char>, alias: Seq<char>) -> Seq<RecordView> {
    s.map_values(
        |r: RecordView|
            if r.ip == ip {
                RecordView { alias, ..r }
            } else {
                r
            },
    )
}

/// The records after the device with `mac` got a status.
pub open spec fn after_status(
    s: Seq<RecordView>,
    mac: Seq<char>,
    status: DeviceStatus,
) -> Seq<RecordView> {
    s.map_values(
        |r: RecordView|
            if r.mac == mac {
                RecordView { status, ..r }
            } else {
                r
            },
    )
}

/// Where the record with the address stands.
fn find_ip(list: &Vec<DeviceRecord>, ip: &str) -> (r: Option<usize>)
    ensures
        match r {
            Some(i) => i < list.len() && list@[i as int].ip@ == ip@,
            None => !has_ip(text::views(list@), ip@),
        },
{
    let mut i: usize = 0;
    while i < list.len()
        invariant
            i <= list.len(),
            forall|k: int| 0 <= k < i ==> (#[trigger] text::views(list@)[k]).ip != ip@,
        decreases list.len() - i,
    {
        if text::same(list[i].ip.as_str(), ip) {
            return Some(i);
        }
        i += 1;
    }
    None
}

/// Where the record with the MAC stands.
fn find_mac(list: &Vec<DeviceRecord>, mac: &str) -> (r: Option<usize>)
    ensures
        match r {
            Some(i) => i < list.len() && list@[i as int].mac@ == mac@,
            None => !has_mac(text::views(list@), mac@),
        },
{
    let mut i: usize = 0;
    while i < list.len()
        invariant
            i <= list.len(),
            forall|k: int| 0 <= k < i ==> (#[trigger] text::views(list@)[k]).mac != mac@,
        decreases list.len() - i,
    {
        if text::same(list[i].mac.as_str(), mac) {
            return Some(i);
        }
        i += 1;
    }
    None
}

fn same_ports(a: &Vec<u16>, b: &Vec<u16>) -> (r: bool)
    ensures
        r == (a@ == b@),
{
    if a.len() != b.len() {
        return false;
    }
    let mut i: usize = 0;
    while i < a.len()
        invariant
            a.len() == b.len(),
            i <= a.len(),
            forall|k: int| 0 <= k < i ==> a@[k] == b@[k],
        decreases a.len() - i,
    {
        if a[i] != b[i] {
            return false;
        }
        i += 1;
    }
    assert(a@ =~= b@);
    true
}

proof fn lemma_update_one_each(s: Seq<RecordView>, i: int, r: RecordView)
    requires
        one_each(s),
        0 <= i < s.len(),
        r.mac == s[i].mac,
        r.ip == s[i].ip,
    ensures
        one_each(s.update(i, r)),
{
    let t = s.update(i, r);
    assert forall|j: int, k: int| 0 <= j < k < t.len() implies (#[trigger] t[j]).mac != (
    #[trigger] t[k]).mac by {
        assert(s[j].mac != s[k].mac);
    }
    assert forall|j: int, k: int| 0 <= j < k < t.len() implies (#[trigger] t[j]).ip != (
    #[trigger] t[k]).ip by {
        assert(s[j].ip != s[k].ip);
    }
}

/// Replaces record `i` by one with the same MAC and address.
fn put(list: &mut Vec<DeviceRecord>, i: usize, r: DeviceRecord)
    requires
        i < old(list).len(),
        one_each(text::views(old(list)@)),
        r.mac@ == old(list)@[i as int].mac@,
        r.ip@ == old(list)@[i as int].ip@,
    ensures
        text::views(final(list)@) == text::views(old(list)@).update(i as int, r@),
        one_each(text::views(final(list)@)),
{
    proof {
        lemma_update_one_each(text::views(list@), i as int, r@);
    }
    list[i] = r;
    assert(text::views(list@) =~= text::views(old(list)@).update(i as int, r@));
}

impl DeviceRegistry {
    /// Takes the result of a port scan of `ip`: its record gets the ports, and
    /// becomes live if there are any. Says whether anything changed. An address
    /// without a record is passed over.
    pub fn merge_scan_result(&mut self, ip: &str, open_ports: &Vec<u16>) -> (r: bool)
        ensures
            final(self)@ == after_scan(old(self)@, ip@, open_ports@),
            r == (final(self)@ != old(self)@),
    {
        proof {
            use_type_invariant(&*self);
        }
        let ghost all = self@;
        match find_ip(&self.devices, ip) {
            Some(i) => {
                let x = &self.devices[i];
                assert(all[i as int] == x@);
                let ports_differ = !same_ports(&x.open_ports, open_ports);
                let promote = open_ports.len() > 0 && x.status != DeviceStatus::Live;
                if !ports_differ && !promote {
                    assert(all =~= after_scan(all, ip@, open_ports@)) by {
                        assert forall|k: int| 0 <= k < all.len() implies #[trigger] all[k]
                            == after_scan(all, ip@, open_ports@)[k] by {
                            if k != i {
                                assert(all[k].ip != all[i as int].ip);
                            } else {
                                assert(all[k] =~= scanned(all[k], open_ports@));
                            }
                        }
                    }
                    return false;
                }
                let new = DeviceRecord {
                    mac: x.mac.clone(),
                    ip: x.ip.clone(),
                    subnet: x.subnet.clone(),
                    open_ports: config::copy_ports(open_ports),
                    alias: x.alias.clone(),
                    status: if open_ports.len() > 0 {
                        DeviceStatus::Live
                    } else {
                        x.status
                    },
                    first_seen: x.first_seen.clone(),
                    last_seen: x.last_seen.clone(),
                };
                let ghost nv = new@;
                let mut list: Vec<DeviceRecord> = Vec::new();
                std::mem::swap(&mut list, &mut self.devices);
                put(&mut list, i, new);
                self.devices = list;
                proof {
                    assert(self@[i as int] != all[i as int]);
                    assert(self@ =~= after_scan(all, ip@, open_ports@)) by {
                        assert forall|k: int| 0 <= k < all.len() implies #[trigger] self@[k]
                            == after_scan(all, ip@, open_ports@)[k] by {
                            if k != i {
                                assert(all[k].ip != all[i as int].ip);
                            } else {
                                assert(nv =~= scanned(all[k], open_ports@));
                            }
                        }
                    }
                }
                true
            },
            None => {
                proof {
                    assert(all =~= after_scan(all, ip@, open_ports@)) by {
                        assert forall|k: int| 0 <= k < all.len() implies #[trigger] all[k].ip
                            != ip@ by {
                            assert(!has_ip(all, ip@));
                        }
                    }
                }
                false
            },
        }
    }

    /// Labels the device at `ip`, or takes its label away if `alias` is empty. Says
    /// whether anything changed.
    pub fn set_alias(&mut self, ip: &str, alias: &str) -> (r: bool)
        ensures
            final(self)@ == after_alias(old(self)@, ip@, alias@),
            r == (final(self)@ != old(self)@),
    {
        proof {
            use_type_invariant(&*self);
        }
        let ghost all = self@;
        match find_ip(&self.devices, ip) {
            Some(i) => {
                let x = &self.devices[i];
                assert(all[i as int] == x@);
                if text::same(x.alias.as_str(), alias) {
                    proof {
                        assert(all =~= after_alias(all, ip@, alias@)) by {
                            assert forall|k: int| 0 <= k < all.len() implies #[trigger] all[k]
                                == after_alias(all, ip@, alias@)[k] by {
                                if k != i {
                                    assert(all[k].ip != all[i as int].ip);
                                }
                            }
                        }
                    }
                    return false;
                }
                let mut new = x.clone();
                new.alias = String::from_str(alias);
                let ghost nv = new@;
                let mut list: Vec<DeviceRecord> = Vec::new();
                std::mem::swap(&mut list, &mut self.devices);
                put(&mut list, i, new);
                self.devices = list;
                proof {
                    assert(self@[i as int].alias != all[i as int].alias);
                    assert(self@ =~= after_alias(all, ip@, alias@)) by {
                        assert forall|k: int| 0 <= k < all.len() implies #[trigger] self@[k]
                            == after_alias(all, ip@, alias@)[k] by {
                            if k != i {
                                assert(all[k].ip != all[i as int].ip);
                            } else {
                                assert(nv =~= RecordView { alias: alias@, ..all[k] });
                            }
                        }
                    }
                }
                true
            },
            None => {
                proof {
                    assert(all =~= after_alias(all, ip@, alias@)) by {
                        assert forall|k: int| 0 <= k < all.len() implies #[trigger] all[k].ip
                            != ip@ by {
                            assert(!has_ip(all, ip@));
                        }
                    }
                }
                false
            },
        }
    }

    /// Sets the status of the device with this MAC. Says whether anything changed.
    pub fn set_status(&mut self, mac: &str, status: DeviceStatus) -> (r: bool)
        ensures
            final(self)@ == after_status(old(self)@, mac@, status),
            r == (final(self)@ != old(self)@),
    {
        proof {
            use_type_invariant(&*self);
        }
        let ghost all = self@;
        match find_mac(&self.devices, mac) {
            Some(i) => {
                let x = &self.devices[i];
                assert(all[i as int] == x@);
                if x.status == status {
                    proof {
                        assert(all =~= after_status(all, mac@, status)) by {
                            assert forall|k: int| 0 <= k < all.len() implies #[trigger] all[k]
                                == after_status(all, mac@, status)[k] by {
                                if k != i {
                                    assert(all[k].mac != all[i as int].mac);
                                }
                            }
                        }
                    }
                    return false;
                }
                let mut new = x.clone();
                new.status = status;
                let ghost nv = new@;
                let mut list: Vec<DeviceRecord> = Vec::new();
                std::mem::swap(&mut list, &mut self.devices);
                put(&mut list, i, new);
                self.devices = list;
                proof {
                    assert(self@[i as int].status != all[i as int].status);
                    assert(self@ =~= after_status(all, mac@, status)) by {
                        assert forall|k: int| 0 <= k < all.len() implies #[trigger] self@[k]
                            == after_status(all, mac@, status)[k] by {
                            if k != i {
                                assert(all[k].mac != all[i as int].mac);
                            } else {
                                assert(nv =~= RecordView { status, ..all[k] });
                            }
                        }
                    }
                }
                true
            },
            None => {
                proof {
                    assert(all =~= after_status(all, mac@, status)) by {
                        assert forall|k: int| 0 <= k < all.len() implies #[trigger] all[k].mac
                            != mac@ by {
                            assert(!has_mac(all, mac@));
                        }
                    }
                }
                false
            },
        }
    }

    /// Drops a cached record at `ip` that a scan did not confirm: one that is not
    /// live and that the user has not pinned. Gives back its MAC.
    pub fn evict_phantom(&mut self, ip: &str, configured_pins: &TextSet) -> (r: Option<String>)
        ensures
            match r {
                Some(mac) => {
                    &&& exists|i: int|
                        0 <= i < old(self)@.len() && (#[trigger] old(self)@[i]).mac == mac@
                            && is_phantom(old(self)@[i], ip@, configured_pins@)
                    &&& final(self)@ == old(self)@.filter(mac_is_not(mac@))
                },
                None => {
                    &&& forall|i: int|
                        0 <= i < old(self)@.len() ==> !is_phantom(
                            #[trigger] old(self)@[i],
                            ip@,
                            configured_pins@,
                        )
                    &&& final(self)@ == old(self)@
                },
            },
    {
        proof {
            use_type_invariant(&*self);
        }
        let ghost all = self@;
        match find_ip(&self.devices, ip) {
            Some(i) => {
                let x = &self.devices[i];
                assert(all[i as int] == x@);
                let phantom = x.status != DeviceStatus::Live && !is_user_pinned(
                    x.mac.as_str(),
                    x.alias.as_str(),
                    x.ip.as_str(),
                    configured_pins,
                );
                assert(phantom == is_phantom(all[i as int], ip@, configured_pins@));
                if !phantom {
                    assert forall|k: int| 0 <= k < all.len() implies !is_phantom(
                        #[trigger] all[k],
                        ip@,
                        configured_pins@,
                    ) by {
                        if k != i {
                            assert(all[k].ip != all[i as int].ip);
                        }
                    }
                    return None;
                }
                let mac = x.mac.clone();
                let _ = self.remove_by_mac(mac.as_str());
                Some(mac)
            },
            None => {
                assert forall|k: int| 0 <= k < all.len() implies !is_phantom(
                    #[trigger] all[k],
                    ip@,
                    configured_pins@,
                ) by {
                    assert(!has_ip(all, ip@));
                }
                None
            },
        }
    }

    /// The addresses of the devices that the user means to keep, as far as they
    /// parse.
    pub fn user_pinned_ips(&self, configured_pins: &TextSet) -> (r: Vec<Ipv4Addr>)
        ensures
            r@ == self@.filter_map(pinned_ip(configured_pins@)),
    {
        let ghost f = pinned_ip(configured_pins@);
        let ghost all = self@;
        let mut r: Vec<Ipv4Addr> = Vec::new();
        let mut i: usize = 0;
        assert(r@ =~= all.take(0).filter_map(f)) by {
            assert(all.take(0) =~= Seq::empty());
        }
        while i < self.devices.len()
            invariant
                i <= self.devices.len(),
                all == self@,
                f == pinned_ip(configured_pins@),
                r@ == all.take(i as int).filter_map(f),
            decreases self.devices.len() - i,
        {
            let x = &self.devices[i];
            proof {
                assert(all[i as int] == x@);
                all.lemma_filter_map_take_succ(f, i as int);
            }
            if is_user_pinned(x.mac.as_str(), x.alias.as_str(), x.ip.as_str(), configured_pins) {
                if let Some(ip) = Ipv4Addr::parse(x.ip.as_str()) {
                    r.push(ip);
                }
            }
            i += 1;
        }
        assert(all.take(i as int) =~= all);
        r
    }
}

/// A cached record at `ip` that nothing protects.
pub open spec fn is_phantom(r: RecordView, ip: Seq<char>, pins: Set<Seq<char>>) -> bool {
    r.ip == ip && r.status != DeviceStatus::Live && !pinned(r.mac, r.alias, r.ip, pins)
}

/// The address of a device that the user means to keep.
pub open spec fn pinned_ip(pins: Set<Seq<char>>) -> spec_fn(RecordView) -> Option<Ipv4Addr> {
    |r: RecordView|
        if pinned(r.mac, r.alias, r.ip, pins) {
            net::parsed(r.ip)
        } else {
            None
        }
}

/// A scan that finds no open port makes no device live.
pub proof fn law_empty_scan_promotes_nothing(s: Seq<RecordView>, ip: Seq<char>, i: int)
    requires
        0 <= i < s.len(),
    ensures
        after_scan(s, ip, Seq::empty())[i].status == s[i].status,
{
}

/// A live device is never evicted, nor one that the user has pinned.
pub proof fn law_protected_devices_stay(r: RecordView, ip: Seq<char>, pins: Set<Seq<char>>)
    requires
        r.status == DeviceStatus::Live || pinned(r.mac, r.alias, r.ip, pins),
    ensures
        !is_phantom(r, ip, pins),
{
}

/// A record at the device's address that has another MAC: an identity that the
/// device has replaced.
pub open spec fn is_replaced(d: ArpView) -> spec_fn(RecordView) -> bool {
    |r: RecordView| r.ip == d.ip && r.mac != d.mac
}

/// Any other record.
pub open spec fn is_not_replaced(d: ArpView) -> spec_fn(RecordView) -> bool {
    |r: RecordView| !(r.ip == d.ip && r.mac != d.mac)
}

/// The first label among the records; empty if none has one.
pub open spec fn first_label(s: Seq<RecordView>) -> Seq<char>
    decreases s.len(),
{
    if s.len() == 0 {
        Seq::empty()
    } else if first_label(s.drop_last()).len() > 0 {
        first_label(s.drop_last())
    } else {
        s.last().alias
    }
}

/// A known device after it was heard: address, subnet and time are those of the
/// frame, a cached one becomes live, and one without a label takes over `label`.
pub open spec fn heard_again(r: RecordView, d: ArpView, label: Seq<char>) -> RecordView {
    RecordView {
        ip: d.ip,
        subnet: d.subnet,
        last_seen: d.last_seen,
        status: if r.status == DeviceStatus::CachedOnly {
            DeviceStatus::Live
        } else {
            r.status
        },
        alias: if r.alias.len() == 0 {
            label
        } else {
            r.alias
        },
        ..r
    }
}

/// The record of a device that is heard for the first time.
pub open spec fn heard_first(d: ArpView, label: Seq<char>) -> RecordView {
    RecordView {
        mac: d.mac,
        ip: d.ip,
        subnet: d.subnet,
        open_ports: Seq::empty(),
        alias: label,
        status: DeviceStatus::Live,
        first_seen: d.first_seen,
        last_seen: d.last_seen,
    }
}

/// The records after a device was heard.
pub open spec fn after_arp(s: Seq<RecordView>, d: ArpView) -> Seq<RecordView> {
    let label = first_label(s.filter(is_replaced(d)));
    let rest = s.filter(is_not_replaced(d));
    if has_mac(s, d.mac) {
        rest.map_values(
            |r: RecordView|
                if r.mac == d.mac {
                    heard_again(r, d, label)
                } else {
                    r
                },
        )
    } else {
        rest.push(heard_first(d, label))
    }
}

/// The MACs of the records.
pub open spec fn macs(s: Seq<RecordView>) -> Seq<Seq<char>> {
    s.map_values(|r: RecordView| r.mac)
}

proof fn lemma_push_one_each(s: Seq<RecordView>, r: RecordView)
    requires
        one_each(s),
        !has_mac(s, r.mac),
        !has_ip(s, r.ip),
    ensures
        one_each(s.push(r)),
{
    let t = s.push(r);
    assert forall|j: int, k: int| 0 <= j < k < t.len() implies (#[trigger] t[j]).mac != (
    #[trigger] t[k]).mac by {
        assert(t[j] == s[j]);
        assert(s[j].mac != r.mac);
    }
    assert forall|j: int, k: int| 0 <= j < k < t.len() implies (#[trigger] t[j]).ip != (
    #[trigger] t[k]).ip by {
        assert(t[j] == s[j]);
        assert(s[j].ip != r.ip);
    }
}

proof fn lemma_move_one_each(s: Seq<RecordView>, i: int, r: RecordView)
    requires
        one_each(s),
        0 <= i < s.len(),
        forall|k: int| 0 <= k < s.len() && k != i ==> (#[trigger] s[k]).mac != r.mac,
        forall|k: int| 0 <= k < s.len() && k != i ==> (#[trigger] s[k]).ip != r.ip,
    ensures
        one_each(s.update(i, r)),
{
    let t = s.update(i, r);
    assert forall|j: int, k: int| 0 <= j < k < t.len() implies (#[trigger] t[j]).mac != (
    #[trigger] t[k]).mac by {
        assert(s[j].mac != s[k].mac);
    }
    assert forall|j: int, k: int| 0 <= j < k < t.len() implies (#[trigger] t[j]).ip != (
    #[trigger] t[k]).ip by {
        assert(s[j].ip != s[k].ip);
    }
}

impl DeviceRegistry {
    /// Takes a frame of a device. Records at its address with another MAC go, since
    /// the device has replaced them; their label passes on to a record without one.
    /// Says whether anything changed, and which MACs went.
    pub fn merge_arp(&mut self, device: &ArpDevice) -> (r: MergeResult)
        ensures
            final(self)@ == after_arp(old(self)@, device@),
            text::views(r.dropped_macs@) == macs(old(self)@.filter(is_replaced(device@))),
            r.changed == (final(self)@ != old(self)@),
    {
        proof {
            use_type_invariant(&*self);
        }
        let ghost all = self@;
        let ghost d = device@;
        let ghost gone = is_replaced(d);
        let ghost stay = is_not_replaced(d);
        let mut kept: Vec<DeviceRecord> = Vec::new();
        let mut dropped: Vec<String> = Vec::new();
        let mut label = String::new();
        let mut i: usize = 0;
        proof {
            assert(all.take(0) =~= Seq::empty());
            reveal(Seq::filter);
            assert(text::views(kept@) =~= all.take(0).filter(stay));
            assert(text::views(dropped@) =~= macs(all.take(0).filter(gone)));
        }
        while i < self.devices.len()
            invariant
                i <= self.devices.len(),
                all == self@,
                d == device@,
                gone == is_replaced(d),
                stay == is_not_replaced(d),
                text::views(kept@) == all.take(i as int).filter(stay),
                text::views(dropped@) == macs(all.take(i as int).filter(gone)),
                label@ == first_label(all.take(i as int).filter(gone)),
            decreases self.devices.len() - i,
        {
            let x = &self.devices[i];
            let ghost before = all.take(i as int);
            proof {
                assert(all[i as int] == x@);
                all.lemma_take_succ_push(i as int);
                before.lemma_filter_push(all[i as int], stay);
                before.lemma_filter_push(all[i as int], gone);
            }
            if text::same(x.ip.as_str(), device.ip.as_str()) && !text::same(
                x.mac.as_str(),
                device.mac.as_str(),
            ) {
                let mac = x.mac.clone();
                proof {
                    text::lemma_views_push(dropped@, mac);
                    let f = before.filter(gone);
                    assert(f.push(x@).drop_last() =~= f);
                    assert(macs(f.push(x@)) =~= macs(f).push(x@.mac));
                }
                if label.as_str().is_empty() {
                    label = x.alias.clone();
                }
                dropped.push(mac);
            } else {
                let copy = x.clone();
                proof {
                    text::lemma_views_push(kept@, copy);
                }
                kept.push(copy);
            }
            i += 1;
        }
        assert(all.take(i as int) =~= all);
        let ghost rest = text::views(kept@);
        let ghost lab = label@;
        proof {
            lemma_filter_one_each(all, stay);
            lemma_split_lengths(all, d);
            lemma_filter_same(all, stay);
            assert(has_mac(rest, d.mac) == has_mac(all, d.mac)) by {
                if has_mac(all, d.mac) {
                    let k = choose|k: int| 0 <= k < all.len() && (#[trigger] all[k]).mac == d.mac;
                    assert(stay(all[k]));
                }
            }
            assert forall|k: int| 0 <= k < rest.len() && (#[trigger] rest[k]).mac
                != d.mac implies rest[k].ip != d.ip by {
                all.lemma_filter_pred(stay, k);
            }
        }
        let any_dropped = dropped.len() > 0;
        match find_mac(&kept, device.mac.as_str()) {
            Some(j) => {
                let x = &kept[j];
                assert(rest[j as int] == x@);
                let ghost xv = x@;
                let takes_label = x.alias.as_str().is_empty() && !label.as_str().is_empty();
                let upsert_changed = !text::same(x.ip.as_str(), device.ip.as_str()) || !text::same(
                    x.subnet.as_str(),
                    device.subnet.as_str(),
                ) || !text::same(x.last_seen.as_str(), device.last_seen.as_str()) || x.status
                    == DeviceStatus::CachedOnly || takes_label;
                let new = DeviceRecord {
                    mac: x.mac.clone(),
                    ip: device.ip.clone(),
                    subnet: device.subnet.clone(),
                    open_ports: config::copy_ports(&x.open_ports),
                    alias: if x.alias.as_str().is_empty() {
                        label
                    } else {
                        x.alias.clone()
                    },
                    status: if x.status == DeviceStatus::CachedOnly {
                        DeviceStatus::Live
                    } else {
                        x.status
                    },
                    first_seen: x.first_seen.clone(),
                    last_seen: device.last_seen.clone(),
                };
                let ghost nv = new@;
                proof {
                    assert(nv =~= heard_again(xv, d, lab));
                    if !upsert_changed {
                        assert(xv.alias.len() == 0 ==> lab =~= xv.alias);
                        assert(nv =~= xv);
                    } else {
                        assert(nv != xv);
                    }
                    assert forall|k: int| 0 <= k < rest.len() && k != j implies (
                    #[trigger] rest[k]).mac != nv.mac && rest[k].ip != nv.ip by {
                        assert(rest[k].mac != rest[j as int].mac);
                    }
                    lemma_move_one_each(rest, j as int, nv);
                }
                kept[j] = new;
                proof {
                    let after = text::views(kept@);
                    assert(after =~= rest.update(j as int, nv));
                    assert(after =~= after_arp(all, d)) by {
                        assert forall|k: int| 0 <= k < rest.len() implies #[trigger] after[k]
                            == after_arp(all, d)[k] by {
                            if k != j {
                                assert(rest[k].mac != rest[j as int].mac);
                            }
                        }
                    }
                    if all == after {
                        assert(all.len() == rest.len());
                        assert(!any_dropped);
                        assert(all == rest);
                        assert(after[j as int] == all[j as int]);
                        assert(!upsert_changed);
                    }
                    if !any_dropped && !upsert_changed {
                        assert(rest == all);
                        assert(after =~= all);
                    }
                }
                self.devices = kept;
                MergeResult { changed: upsert_changed || any_dropped, dropped_macs: dropped }
            },
            None => {
                let new = DeviceRecord {
                    mac: device.mac.clone(),
                    ip: device.ip.clone(),
                    subnet: device.subnet.clone(),
                    open_ports: Vec::new(),
                    alias: label,
                    status: DeviceStatus::Live,
                    first_seen: device.first_seen.clone(),
                    last_seen: device.last_seen.clone(),
                };
                let ghost nv = new@;
                proof {
                    assert(nv =~= heard_first(d, lab));
                    assert(!has_ip(rest, d.ip)) by {
                        assert forall|k: int| 0 <= k < rest.len() implies (#[trigger] rest[k]).ip
                            != d.ip by {
                            assert(rest[k].mac != d.mac);
                        }
                    }
                    lemma_push_one_each(rest, nv);
                    text::lemma_views_push(kept@, new);
                }
                kept.push(new);
                self.devices = kept;
                proof {
                    assert(self@ == after_arp(all, d));
                    if self@ == all {
                        assert(self@[self@.len() - 1].mac == d.mac);
                        assert(has_mac(all, d.mac));
                    }
                }
                MergeResult { changed: true, dropped_macs: dropped }
            },
        }
    }
}

proof fn lemma_split_lengths(s: Seq<RecordView>, d: ArpView)
    ensures
        s.filter(is_replaced(d)).len() + s.filter(is_not_replaced(d)).len() == s.len(),
    decreases s.len(),
{
    reveal(Seq::filter);
    if s.len() > 0 {
        lemma_split_lengths(s.drop_last(), d);
    }
}

/// A frame leaves exactly one record at the device's address, and it has the
/// device's MAC.
pub proof fn law_frame_leaves_one_record_at_its_address(s: Seq<RecordView>, d: ArpView, i: int)
    requires
        one_each(s),
        0 <= i < after_arp(s, d).len(),
    ensures
        after_arp(s, d)[i].ip == d.ip <==> after_arp(s, d)[i].mac == d.mac,
        has_mac(after_arp(s, d), d.mac),
{
    let stay = is_not_replaced(d);
    let rest = s.filter(stay);
    lemma_filter_one_each(s, stay);
    if i < rest.len() {
        s.lemma_filter_pred(stay, i);
    }
    if has_mac(s, d.mac) {
        let k = choose|k: int| 0 <= k < s.len() && (#[trigger] s[k]).mac == d.mac;
        assert(stay(s[k]));
        assert(has_mac(rest, d.mac));
        let j = choose|j: int| 0 <= j < rest.len() && (#[trigger] rest[j]).mac == d.mac;
        assert(after_arp(s, d)[j].mac == d.mac);
    } else {
        assert(after_arp(s, d)[rest.len() as int].mac == d.mac);
        if i < rest.len() {
            assert(has_mac(rest, rest[i].mac));
            let k = choose|k: int| 0 <= k < s.len() && (#[trigger] s[k]).mac == rest[i].mac && stay(s[k]);
            assert(s[k].mac != d.mac);
        }
    }
}

/// A device that is heard again with nothing new changes nothing.
pub proof fn law_hearing_twice_changes_nothing(s: Seq<RecordView>, d: ArpView)
    requires
        one_each(s),
    ensures
        after_arp(after_arp(s, d), d) == after_arp(s, d),
{
    let t = after_arp(s, d);
    let rest = s.filter(is_not_replaced(d));
    assert forall|i: int| 0 <= i < t.len() implies !is_replaced(d)(#[trigger] t[i])
        && is_not_replaced(d)(t[i]) by {
        law_frame_leaves_one_record_at_its_address(s, d, i);
    }
    lemma_filter_none(t, is_replaced(d));
    lemma_filter_all(t, is_not_replaced(d));
    let label = first_label(t.filter(is_replaced(d)));
    assert(label =~= Seq::empty());
    if t.len() > 0 {
        law_frame_leaves_one_record_at_its_address(s, d, 0);
    } else if has_mac(s, d.mac) {
        let k = choose|k: int| 0 <= k < s.len() && (#[trigger] s[k]).mac == d.mac;
        s.lemma_filter_contains(is_not_replaced(d), k);
        assert(rest.len() > 0);
    }
    assert forall|i: int| 0 <= i < t.len() && (#[trigger] t[i]).mac == d.mac implies heard_again(
        t[i],
        d,
        label,
    ) == t[i] by {
        law_frame_leaves_one_record_at_its_address(s, d, i);
        if !has_mac(s, d.mac) && i < rest.len() {
            s.lemma_filter_contains_rev(is_not_replaced(d), rest[i]);
            let k = s.index_of(rest[i]);
            assert(s[k].mac == d.mac);
        }
        assert(heard_again(t[i], d, label).alias =~= t[i].alias);
    }
    assert(after_arp(t, d) =~= t);
}

proof fn lemma_filter_all(s: Seq<RecordView>, p: spec_fn(RecordView) -> bool)
    requires
        forall|i: int| 0 <= i < s.len() ==> p(#[trigger] s[i]),
    ensures
        s.filter(p) == s,
    decreases s.len(),
{
    reveal(Seq::filter);
    if s.len() > 0 {
        lemma_filter_all(s.drop_last(), p);
        assert(s.drop_last().push(s.last()) =~= s);
    }
}

proof fn lemma_filter_none(s: Seq<RecordView>, p: spec_fn(RecordView) -> bool)
    requires
        forall|i: int| 0 <= i < s.len() ==> !p(#[trigger] s[i]),
    ensures
        s.filter(p) == Seq::<RecordView>::empty(),
    decreases s.len(),
{
    reveal(Seq::filter);
    if s.len() > 0 {
        lemma_filter_none(s.drop_last(), p);
        assert(!p(s[s.len() - 1]));
    }
}

/// A label that is set again changes nothing, and a forgotten device is gone.
pub proof fn law_repeated_edits_change_nothing(
    s: Seq<RecordView>,
    ip: Seq<char>,
    alias: Seq<char>,
    mac: Seq<char>,
)
    ensures
        after_alias(after_alias(s, ip, alias), ip, alias) == after_alias(s, ip, alias),
        !has_mac(s.filter(mac_is_not(mac)), mac),
{
    assert(after_alias(after_alias(s, ip, alias), ip, alias) =~= after_alias(s, ip, alias));
    let t = s.filter(mac_is_not(mac));
    assert forall|i: int| 0 <= i < t.len() implies (#[trigger] t[i]).mac != mac by {
        s.lemma_filter_pred(mac_is_not(mac), i);
    }
}

/// The label of a replaced record passes on to the device, unless it has its own.
pub proof fn law_label_follows_the_address(s: Seq<RecordView>, d: ArpView, i: int)
    requires
        one_each(s),
        0 <= i < s.len(),
        s[i].ip == d.ip,
        s[i].mac != d.mac,
    ensures
        first_label(s.filter(is_replaced(d))) == s[i].alias,
{
    lemma_only_replaced(s, d, i);
    let f = s.filter(is_replaced(d));
    assert(f.drop_last() =~= Seq::empty());
    assert(first_label(f.drop_last()) =~= Seq::empty());
}

proof fn lemma_none_replaced(s: Seq<RecordView>, d: ArpView)
    requires
        forall|k: int| 0 <= k < s.len() ==> (#[trigger] s[k]).ip != d.ip,
    ensures
        s.filter(is_replaced(d)) == Seq::<RecordView>::empty(),
    decreases s.len(),
{
    reveal(Seq::filter);
    if s.len() > 0 {
        assert forall|k: int| 0 <= k < s.drop_last().len() implies (#[trigger] s.drop_last()[k]).ip
            != d.ip by {
            assert(s.drop_last()[k] == s[k]);
        }
        lemma_none_replaced(s.drop_last(), d);
        assert(s[s.len() - 1].ip != d.ip);
    }
}

proof fn lemma_only_replaced(s: Seq<RecordView>, d: ArpView, i: int)
    requires
        one_each(s),
        0 <= i < s.len(),
        s[i].ip == d.ip,
        s[i].mac != d.mac,
    ensures
        s.filter(is_replaced(d)) == seq![s[i]],
    decreases s.len(),
{
    reveal(Seq::filter);
    let rest = s.drop_last();
    let last = s.last();
    if i == s.len() - 1 {
        assert forall|k: int| 0 <= k < rest.len() implies (#[trigger] rest[k]).ip != d.ip by {
            assert(rest[k] == s[k]);
            assert(s[k].ip != s[i].ip);
        }
        lemma_none_replaced(rest, d);
        assert(s.filter(is_replaced(d)) =~= seq![s[i]]);
    } else {
        assert(one_each(rest)) by {
            assert forall|a: int, b: int| 0 <= a < b < rest.len() implies (#[trigger] rest[a]).mac
                != (#[trigger] rest[b]).mac by {
                assert(rest[a] == s[a] && rest[b] == s[b]);
            }
            assert forall|a: int, b: int| 0 <= a < b < rest.len() implies (#[trigger] rest[a]).ip
                != (#[trigger] rest[b]).ip by {
                assert(rest[a] == s[a] && rest[b] == s[b]);
            }
        }
        assert(rest[i] == s[i]);
        lemma_only_replaced(rest, d, i);
        assert(s[i].ip != s[s.len() - 1].ip);
    }
}

/// A cached row that can be shown: it has a MAC, and its address parses.
pub open spec fn usable(e: CachedView) -> bool {
    e.mac.len() > 0 && net::is_dotted(e.ip)
}

/// Whether some row has the address.
pub open spec fn row_at(rows: Seq<CachedView>, ip: Seq<char>) -> bool {
    exists|i: int| 0 <= i < rows.len() && (#[trigger] rows[i]).ip == ip
}

/// Where the row with the address stands.
pub open spec fn row_index(rows: Seq<CachedView>, ip: Seq<char>) -> int {
    choose|i: int| 0 <= i < rows.len() && (#[trigger] rows[i]).ip == ip
}

/// One row per address: the newest, or the first of the newest ones. With them the
/// MACs of the rows that lost.
pub open spec fn contest(rows: Seq<CachedView>) -> (Seq<CachedView>, Seq<Seq<char>>)
    decreases rows.len(),
{
    if rows.len() == 0 {
        (Seq::empty(), Seq::empty())
    } else {
        let (winners, losers) = contest(rows.drop_last());
        let e = rows.last();
        if !usable(e) {
            (winners, losers)
        } else if !row_at(winners, e.ip) {
            (winners.push(e), losers)
        } else {
            let i = row_index(winners, e.ip);
            if text::precedes(winners[i].last_seen, e.last_seen) {
                (winners.update(i, e), losers.push(winners[i].mac))
            } else {
                (winners, losers.push(e.mac))
            }
        }
    }
}

/// The label that a nameless winner at `ip` takes over: that of the first row at the
/// address that has one and whose MAC lost.
pub open spec fn lost_label(
    rows: Seq<CachedView>,
    losers: Seq<Seq<char>>,
    ip: Seq<char>,
) -> Seq<char>
    decreases rows.len(),
{
    if rows.len() == 0 {
        Seq::empty()
    } else {
        let e = rows[0];
        if e.alias.len() > 0 && e.ip == ip && losers.contains(e.mac) {
            e.alias
        } else {
            lost_label(rows.drop_first(), losers, ip)
        }
    }
}

/// The record of a cached row.
pub open spec fn cached_record(e: CachedView, label: Seq<char>) -> RecordView {
    RecordView {
        mac: e.mac,
        ip: e.ip,
        subnet: e.subnet,
        open_ports: e.open_ports,
        alias: if e.alias.len() == 0 {
            label
        } else {
            e.alias
        },
        status: DeviceStatus::CachedOnly,
        first_seen: e.last_seen,
        last_seen: e.last_seen,
    }
}

/// The records with `r` in place of the one that has its MAC, if there is one.
pub open spec fn with_record(s: Seq<RecordView>, r: RecordView) -> Seq<RecordView> {
    s.filter(mac_is_not(r.mac)).push(r)
}

/// The records of the first `n` winners. Where two winners share a MAC, the later
/// one stays.
pub open spec fn cached_records(
    rows: Seq<CachedView>,
    winners: Seq<CachedView>,
    losers: Seq<Seq<char>>,
    n: int,
) -> Seq<RecordView>
    decreases n,
{
    if n <= 0 {
        Seq::empty()
    } else {
        let e = winners[n - 1];
        with_record(
            cached_records(rows, winners, losers, n - 1),
            cached_record(e, lost_label(rows, losers, e.ip)),
        )
    }
}

/// The records that the cache gives.
pub open spec fn hydrated(rows: Seq<CachedView>) -> Seq<RecordView> {
    let (winners, losers) = contest(rows);
    cached_records(rows, winners, losers, winners.len() as int)
}

/// No two rows share an address.
pub open spec fn one_row_each(rows: Seq<CachedView>) -> bool {
    forall|i: int, j: int| 0 <= i < j < rows.len() ==> (#[trigger] rows[i]).ip != (
    #[trigger] rows[j]).ip
}

proof fn lemma_row_index(rows: Seq<CachedView>, i: int)
    requires
        one_row_each(rows),
        0 <= i < rows.len(),
    ensures
        row_at(rows, rows[i].ip),
        row_index(rows, rows[i].ip) == i,
{
    let j = row_index(rows, rows[i].ip);
    assert(0 <= j < rows.len() && rows[j].ip == rows[i].ip);
}

proof fn lemma_contest(rows: Seq<CachedView>)
    ensures
        one_row_each(contest(rows).0),
        forall|i: int| 0 <= i < contest(rows).0.len() ==> usable(#[trigger] contest(rows).0[i]),
    decreases rows.len(),
{
    if rows.len() > 0 {
        lemma_contest(rows.drop_last());
        let (winners, losers) = contest(rows.drop_last());
        let e = rows.last();
        if usable(e) {
            if !row_at(winners, e.ip) {
                let t = winners.push(e);
                assert forall|i: int, j: int| 0 <= i < j < t.len() implies (#[trigger] t[i]).ip != (
                #[trigger] t[j]).ip by {
                    assert(t[i] == winners[i]);
                    if j < winners.len() {
                        assert(t[j] == winners[j]);
                    }
                }
            } else {
                let k = row_index(winners, e.ip);
                assert(0 <= k < winners.len() && winners[k].ip == e.ip);
                let t = winners.update(k, e);
                assert forall|i: int, j: int| 0 <= i < j < t.len() implies (#[trigger] t[i]).ip != (
                #[trigger] t[j]).ip by {
                    assert(winners[i].ip != winners[j].ip);
                }
            }
        }
    }
}

/// Of the usable cached rows at one address the newest stays: each usable row has a
/// winner at its address that is not older, every winner is one of the rows, and no
/// two winners share an address.
pub proof fn law_newest_cached_row_wins(rows: Seq<CachedView>, i: int)
    requires
        0 <= i < rows.len(),
        usable(rows[i]),
    ensures
        one_row_each(contest(rows).0),
        exists|k: int|
            0 <= k < contest(rows).0.len() && (#[trigger] contest(rows).0[k]).ip == rows[i].ip
                && !text::precedes(contest(rows).0[k].last_seen, rows[i].last_seen),
        forall|k: int|
            0 <= k < contest(rows).0.len() ==> rows.contains(#[trigger] contest(rows).0[k]),
    decreases rows.len(),
{
    lemma_contest(rows);
    lemma_winners_are_rows(rows);
    let rest = rows.drop_last();
    lemma_contest(rest);
    let (winners, losers) = contest(rest);
    let now = contest(rows).0;
    let e = rows.last();
    if i < rest.len() {
        assert(rest[i] == rows[i]);
        law_newest_cached_row_wins(rest, i);
        let k = choose|k: int|
            0 <= k < winners.len() && (#[trigger] winners[k]).ip == rows[i].ip && !text::precedes(
                winners[k].last_seen,
                rows[i].last_seen,
            );
        if usable(e) && row_at(winners, e.ip) {
            let m = row_index(winners, e.ip);
            assert(0 <= m < winners.len() && winners[m].ip == e.ip);
            if text::precedes(winners[m].last_seen, e.last_seen) && m == k {
                if text::precedes(e.last_seen, rows[i].last_seen) {
                    text::lemma_precedes_transitive(
                        winners[m].last_seen,
                        e.last_seen,
                        rows[i].last_seen,
                    );
                }
            }
        }
        assert(now[k].ip == rows[i].ip);
    } else {
        text::lemma_precedes_irreflexive(e.last_seen);
        if !row_at(winners, e.ip) {
            assert(now[winners.len() as int] == e);
        } else {
            let m = row_index(winners, e.ip);
            assert(0 <= m < winners.len() && winners[m].ip == e.ip);
            assert(now[m].ip == e.ip);
        }
    }
}

proof fn lemma_winners_are_rows(rows: Seq<CachedView>)
    ensures
        forall|k: int|
            0 <= k < contest(rows).0.len() ==> rows.contains(#[trigger] contest(rows).0[k]),
    decreases rows.len(),
{
    if rows.len() > 0 {
        let rest = rows.drop_last();
        lemma_winners_are_rows(rest);
        let winners = contest(rest).0;
        let now = contest(rows).0;
        assert forall|k: int| 0 <= k < now.len() implies rows.contains(#[trigger] now[k]) by {
            if k < winners.len() && now[k] == winners[k] {
                assert(rest.contains(winners[k]));
                let j = rest.index_of(winners[k]);
                assert(rows[j] == now[k]);
            } else {
                assert(rows[rows.len() - 1] == now[k]);
            }
        }
    }
}

fn find_row(list: &Vec<CachedDevice>, ip: &str) -> (r: Option<usize>)
    ensures
        match r {
            Some(i) => i < list.len() && list@[i as int].ip@ == ip@,
            None => !row_at(text::views(list@), ip@),
        },
{
    let mut i: usize = 0;
    while i < list.len()
        invariant
            i <= list.len(),
            forall|k: int| 0 <= k < i ==> (#[trigger] text::views(list@)[k]).ip != ip@,
        decreases list.len() - i,
    {
        if text::same(list[i].ip.as_str(), ip) {
            return Some(i);
        }
        i += 1;
    }
    None
}

fn run_contest(cached: &Vec<CachedDevice>) -> (r: (Vec<CachedDevice>, Vec<String>))
    ensures
        text::views(r.0@) == contest(text::views(cached@)).0,
        text::views(r.1@) == contest(text::views(cached@)).1,
{
    let ghost rows = text::views(cached@);
    let mut winners: Vec<CachedDevice> = Vec::new();
    let mut losers: Vec<String> = Vec::new();
    let mut i: usize = 0;
    assert(text::views(winners@) =~= contest(rows.take(0)).0);
    assert(text::views(losers@) =~= contest(rows.take(0)).1);
    while i < cached.len()
        invariant
            i <= cached.len(),
            rows == text::views(cached@),
            text::views(winners@) == contest(rows.take(i as int)).0,
            text::views(losers@) == contest(rows.take(i as int)).1,
        decreases cached.len() - i,
    {
        let e = &cached[i];
        let ghost w = text::views(winners@);
        proof {
            assert(rows.take(i + 1).drop_last() =~= rows.take(i as int));
            assert(rows.take(i + 1).last() == e@);
            lemma_contest(rows.take(i as int));
        }
        if !e.mac.as_str().is_empty() && Ipv4Addr::parse(e.ip.as_str()).is_some() {
            let copy = e.clone();
            match find_row(&winners, e.ip.as_str()) {
                None => {
                    proof {
                        text::lemma_views_push(winners@, copy);
                    }
                    winners.push(copy);
                },
                Some(k) => {
                    let x = &winners[k];
                    proof {
                        assert(w[k as int] == x@);
                        lemma_row_index(w, k as int);
                    }
                    if text::is_before(x.last_seen.as_str(), e.last_seen.as_str()) {
                        let mac = x.mac.clone();
                        proof {
                            text::lemma_views_push(losers@, mac);
                        }
                        losers.push(mac);
                        winners[k] = copy;
                        assert(text::views(winners@) =~= w.update(k as int, e@));
                    } else {
                        let mac = e.mac.clone();
                        proof {
                            text::lemma_views_push(losers@, mac);
                        }
                        losers.push(mac);
                    }
                },
            }
        }
        i += 1;
    }
    assert(rows.take(i as int) =~= rows);
    (winners, losers)
}

fn find_lost_label(cached: &Vec<CachedDevice>, losers: &Vec<String>, ip: &str) -> (r: String)
    ensures
        r@ == lost_label(text::views(cached@), text::views(losers@), ip@),
{
    let ghost rows = text::views(cached@);
    let ghost lost = text::views(losers@);
    assert(rows.skip(0) =~= rows);
    let mut i: usize = 0;
    while i < cached.len()
        invariant
            i <= cached.len(),
            rows == text::views(cached@),
            lost == text::views(losers@),
            lost_label(rows, lost, ip@) == lost_label(rows.skip(i as int), lost, ip@),
        decreases cached.len() - i,
    {
        let e = &cached[i];
        assert(rows.skip(i as int)[0] == e@);
        assert(rows.skip(i as int).drop_first() =~= rows.skip(i + 1));
        if !e.alias.as_str().is_empty() && text::same(e.ip.as_str(), ip) && text::holds(
            losers,
            e.mac.as_str(),
        ) {
            return e.alias.clone();
        }
        i += 1;
    }
    String::new()
}

/// Puts `r` into the list, in place of the record with its MAC if there is one.
fn put_record(list: Vec<DeviceRecord>, r: DeviceRecord) -> (out: Vec<DeviceRecord>)
    requires
        one_each(text::views(list@)),
        forall|k: int|
            0 <= k < list.len() && (#[trigger] text::views(list@)[k]).ip == r.ip@
                ==> text::views(list@)[k].mac == r.mac@,
    ensures
        text::views(out@) == with_record(text::views(list@), r@),
        one_each(text::views(out@)),
{
    let ghost all = text::views(list@);
    let ghost keep = mac_is_not(r.mac@);
    let mut out = without_mac(&list, r.mac.as_str());
    proof {
        let f = all.filter(keep);
        lemma_filter_one_each(all, keep);
        assert(!has_mac(f, r.mac@)) by {
            if has_mac(f, r.mac@) {
                let i = choose|i: int|
                    0 <= i < all.len() && (#[trigger] all[i]).mac == r.mac@ && keep(all[i]);
            }
        }
        assert(!has_ip(f, r.ip@)) by {
            if has_ip(f, r.ip@) {
                let i = choose|i: int|
                    0 <= i < all.len() && (#[trigger] all[i]).ip == r.ip@ && keep(all[i]);
                assert(all[i].mac == r.mac@);
            }
        }
        lemma_push_one_each(f, r@);
        text::lemma_views_push(out@, r);
    }
    out.push(r);
    out
}

proof fn lemma_cached_records_ips(
    rows: Seq<CachedView>,
    winners: Seq<CachedView>,
    losers: Seq<Seq<char>>,
    n: int,
)
    requires
        0 <= n <= winners.len(),
    ensures
        forall|k: int| #![trigger cached_records(rows, winners, losers, n)[k]]
            0 <= k < cached_records(rows, winners, losers, n).len() ==> exists|i: int|
                0 <= i < n && (#[trigger] winners[i]).ip == cached_records(
                    rows,
                    winners,
                    losers,
                    n,
                )[k].ip,
    decreases n,
{
    if n > 0 {
        lemma_cached_records_ips(rows, winners, losers, n - 1);
        let before = cached_records(rows, winners, losers, n - 1);
        let e = winners[n - 1];
        let r = cached_record(e, lost_label(rows, losers, e.ip));
        let keep = mac_is_not(r.mac);
        let f = before.filter(keep);
        let now = cached_records(rows, winners, losers, n);
        assert forall|k: int| 0 <= k < now.len() implies exists|i: int|
            0 <= i < n && (#[trigger] winners[i]).ip == #[trigger] now[k].ip by {
            if k < f.len() {
                assert(now[k] == f[k]);
                assert(f.contains(f[k]));
                before.lemma_filter_contains_rev(keep, f[k]);
                let j = before.index_of(f[k]);
                assert(before[j] == f[k]);
                let i = choose|i: int| 0 <= i < n - 1 && (#[trigger] winners[i]).ip == before[j].ip;
                assert(winners[i].ip == now[k].ip);
            } else {
                assert(winners[n - 1].ip == now[k].ip);
            }
        }
    }
}

impl DeviceRegistry {
    /// Fills the registry from the cache, unless it has records already. Rows without
    /// a MAC or with an address that does not parse are passed over. Of the rows at
    /// one address the newest stays, and takes over the label of a row that lost if
    /// it has none. Says whether anything came of it, and which MACs lost.
    pub fn hydrate_from_cache(&mut self, cached: &Vec<CachedDevice>) -> (r: MergeResult)
        ensures
            old(self)@.len() > 0 ==> final(self)@ == old(self)@ && !r.changed
                && r.dropped_macs@.len() == 0,
            old(self)@.len() == 0 ==> {
                &&& final(self)@ == hydrated(text::views(cached@))
                &&& text::views(r.dropped_macs@) == contest(text::views(cached@)).1
                &&& r.changed == (final(self)@.len() > 0 || r.dropped_macs@.len() > 0)
            },
    {
        if self.devices.len() > 0 {
            return MergeResult { changed: false, dropped_macs: Vec::new() };
        }
        let ghost rows = text::views(cached@);
        let (winners, losers) = run_contest(cached);
        let ghost w = text::views(winners@);
        let ghost l = text::views(losers@);
        proof {
            lemma_contest(rows);
        }
        let mut list: Vec<DeviceRecord> = Vec::new();
        let mut i: usize = 0;
        assert(text::views(list@) =~= cached_records(rows, w, l, 0));
        while i < winners.len()
            invariant
                i <= winners.len(),
                rows == text::views(cached@),
                w == text::views(winners@),
                l == text::views(losers@),
                one_row_each(w),
                one_each(text::views(list@)),
                text::views(list@) == cached_records(rows, w, l, i as int),
            decreases winners.len() - i,
        {
            let e = &winners[i];
            assert(w[i as int] == e@);
            let alias = if e.alias.as_str().is_empty() {
                find_lost_label(cached, &losers, e.ip.as_str())
            } else {
                e.alias.clone()
            };
            let new = DeviceRecord {
                mac: e.mac.clone(),
                ip: e.ip.clone(),
                subnet: e.subnet.clone(),
                open_ports: config::copy_ports(&e.open_ports),
                alias,
                status: DeviceStatus::CachedOnly,
                first_seen: e.last_seen.clone(),
                last_seen: e.last_seen.clone(),
            };
            proof {
                assert(new@ =~= cached_record(e@, lost_label(rows, l, e@.ip)));
                lemma_cached_records_ips(rows, w, l, i as int);
                let cur = text::views(list@);
                assert forall|k: int| 0 <= k < cur.len() implies (#[trigger] cur[k]).ip
                    != new.ip@ by {
                    let j = choose|j: int| 0 <= j < i && (#[trigger] w[j]).ip == cur[k].ip;
                    assert(w[j].ip != w[i as int].ip);
                }
            }
            list = put_record(list, new);
            i += 1;
        }
        let changed = list.len() > 0 || losers.len() > 0;
        self.devices = list;
        MergeResult { changed, dropped_macs: losers }
    }
}

/// The /24 key of an address; that of 0.0.0.0 if the text is no address.
pub open spec fn subnet_of_text(ip: Seq<char>) -> Seq<char> {
    match net::parsed(ip) {
        Some(addr) => net::subnet_key(addr),
        None => net::subnet_key(Ipv4Addr { a: 0, b: 0, c: 0, d: 0 }),
    }
}

/// The /24 key of an address; `0.0.0.0/24` if the text is no address.
pub fn subnet_for(ip: &str) -> (r: String)
    ensures
        r@ == subnet_of_text(ip@),
{
    match Ipv4Addr::parse(ip) {
        Some(addr) => net::subnet_key_for(addr),
        None => net::subnet_key_for(Ipv4Addr::new(0, 0, 0, 0)),
    }
}

/// The record of a node that the user pinned at an address without a record.
pub open spec fn manual_record(ip: Seq<char>, alias: Seq<char>, now: Seq<char>) -> RecordView {
    RecordView {
        mac: manual_prefix() + ip,
        ip,
        subnet: subnet_of_text(ip),
        open_ports: Seq::empty(),
        alias,
        status: DeviceStatus::Live,
        first_seen: now,
        last_seen: now,
    }
}

/// The records after one pinned node: a record at its address takes over its label,
/// otherwise it gets a record of its own.
pub open spec fn after_node(
    s: Seq<RecordView>,
    ip: Seq<char>,
    alias: Seq<char>,
    now: Seq<char>,
) -> Seq<RecordView> {
    if has_ip(s, ip) {
        s.map_values(
            |r: RecordView|
                if r.ip == ip {
                    RecordView { alias, subnet: subnet_of_text(ip), ..r }
                } else {
                    r
                },
        )
    } else {
        with_record(s, manual_record(ip, alias, now))
    }
}

/// The records after the pinned nodes, one by one.
pub open spec fn after_nodes(
    s: Seq<RecordView>,
    nodes: Seq<ManualNode>,
    now: Seq<char>,
) -> Seq<RecordView>
    decreases nodes.len(),
{
    if nodes.len() == 0 {
        s
    } else {
        after_node(
            after_nodes(s, nodes.drop_last(), now),
            nodes.last().ip@,
            nodes.last().alias@,
            now,
        )
    }
}

/// Whether one of the pinned nodes changed the records.
pub open spec fn nodes_change(s: Seq<RecordView>, nodes: Seq<ManualNode>, now: Seq<char>) -> bool
    decreases nodes.len(),
{
    nodes.len() > 0 && (nodes_change(s, nodes.drop_last(), now) || after_nodes(s, nodes, now)
        != after_nodes(s, nodes.drop_last(), now))
}

impl DeviceRegistry {
    fn add_node(&mut self, node: &ManualNode, now: &str) -> (r: bool)
        ensures
            final(self)@ == after_node(old(self)@, node.ip@, node.alias@, now@),
            r == (final(self)@ != old(self)@),
    {
        proof {
            use_type_invariant(&*self);
        }
        let ghost all = self@;
        let subnet = subnet_for(node.ip.as_str());
        let ghost sub = subnet@;
        match find_ip(&self.devices, node.ip.as_str()) {
            Some(i) => {
                let x = &self.devices[i];
                assert(all[i as int] == x@);
                assert(has_ip(all, node.ip@));
                let ghost target = after_node(all, node.ip@, node.alias@, now@);
                if text::same(x.alias.as_str(), node.alias.as_str()) && text::same(
                    x.subnet.as_str(),
                    subnet.as_str(),
                ) {
                    proof {
                        assert(all =~= target) by {
                            assert forall|k: int| 0 <= k < all.len() implies #[trigger] all[k]
                                == target[k] by {
                                if k != i {
                                    assert(all[k].ip != all[i as int].ip);
                                }
                            }
                        }
                    }
                    return false;
                }
                let mut new = x.clone();
                new.alias = node.alias.clone();
                new.subnet = subnet;
                let ghost nv = new@;
                let mut list: Vec<DeviceRecord> = Vec::new();
                std::mem::swap(&mut list, &mut self.devices);
                put(&mut list, i, new);
                self.devices = list;
                proof {
                    assert(self@[i as int] != all[i as int]);
                    assert(self@ =~= target) by {
                        assert forall|k: int| 0 <= k < all.len() implies #[trigger] self@[k]
                            == target[k] by {
                            if k != i {
                                assert(all[k].ip != all[i as int].ip);
                            } else {
                                assert(nv =~= RecordView {
                                    alias: node.alias@,
                                    subnet: sub,
                                    ..all[k]
                                });
                            }
                        }
                    }
                }
                true
            },
            None => {
                let mut key = String::from_str("manual:");
                proof {
                    reveal_strlit("manual:");
                    assert("manual:"@ =~= manual_prefix());
                }
                key.append(node.ip.as_str());
                let new = DeviceRecord {
                    mac: key,
                    ip: node.ip.clone(),
                    subnet,
                    open_ports: Vec::new(),
                    alias: node.alias.clone(),
                    status: DeviceStatus::Live,
                    first_seen: String::from_str(now),
                    last_seen: String::from_str(now),
                };
                let ghost nv = new@;
                proof {
                    assert(nv =~= manual_record(node.ip@, node.alias@, now@));
                    assert forall|k: int| 0 <= k < all.len() implies (#[trigger] all[k]).ip
                        != nv.ip by {
                        assert(!has_ip(all, node.ip@));
                    }
                }
                let mut list: Vec<DeviceRecord> = Vec::new();
                std::mem::swap(&mut list, &mut self.devices);
                self.devices = put_record(list, new);
                proof {
                    assert(self@[self@.len() - 1].ip == node.ip@);
                    assert(has_ip(self@, node.ip@));
                }
                true
            },
        }
    }

    /// Fills in the nodes that the user pinned by address. A node at an address that
    /// has a record labels that record; another one gets a record under the key
    /// `manual:` and its address, first seen at `now`. Says whether anything changed.
    pub fn hydrate_manual_nodes(&mut self, nodes: &Vec<ManualNode>, now: &str) -> (r: bool)
        ensures
            final(self)@ == after_nodes(old(self)@, nodes@, now@),
            r == nodes_change(old(self)@, nodes@, now@),
    {
        let ghost start = self@;
        let mut changed = false;
        let mut i: usize = 0;
        while i < nodes.len()
            invariant
                i <= nodes.len(),
                start == old(self)@,
                self@ == after_nodes(start, nodes@.take(i as int), now@),
                changed == nodes_change(start, nodes@.take(i as int), now@),
            decreases nodes.len() - i,
        {
            assert(nodes@.take(i + 1).drop_last() =~= nodes@.take(i as int));
            assert(nodes@.take(i + 1).last() == nodes@[i as int]);
            if self.add_node(&nodes[i], now) {
                changed = true;
            }
            i += 1;
        }
        assert(nodes@.take(i as int) =~= nodes@);
        changed
    }
}

/// Pinning twice changes nothing the second time.
pub proof fn law_pinning_is_idempotent(
    s: Seq<RecordView>,
    ip: Seq<char>,
    alias: Seq<char>,
    now: Seq<char>,
    later: Seq<char>,
)
    ensures
        after_node(after_node(s, ip, alias, now), ip, alias, later) == after_node(
            s,
            ip,
            alias,
            now,
        ),
{
    let once = after_node(s, ip, alias, now);
    let twice = after_node(once, ip, alias, later);
    if has_ip(s, ip) {
        let k = choose|k: int| 0 <= k < s.len() && (#[trigger] s[k]).ip == ip;
        assert(once[k].ip == ip);
        assert(twice =~= once);
    } else {
        let r = manual_record(ip, alias, now);
        let keep = mac_is_not(r.mac);
        let f = s.filter(keep);
        assert(once[f.len() as int] == r);
        assert forall|k: int| 0 <= k < f.len() implies (#[trigger] f[k]).ip != ip by {
            assert(f.contains(f[k]));
            s.lemma_filter_contains_rev(keep, f[k]);
            let j = s.index_of(f[k]);
            assert(s[j].ip != ip);
        }
        assert(twice =~= once);
    }
}

/// Whether address text `a` comes before `b`: by number where both parse, by
/// characters otherwise.
pub open spec fn ip_text_before(a: Seq<char>, b: Seq<char>) -> bool {
    match (net::parsed(a), net::parsed(b)) {
        (Some(x), Some(y)) => x.num() < y.num(),
        _ => text::precedes(a, b),
    }
}

/// Whether address text `a` comes before `b`.
pub fn compare_ips(a: &str, b: &str) -> (r: bool)
    ensures
        r == ip_text_before(a@, b@),
{
    match (Ipv4Addr::parse(a), Ipv4Addr::parse(b)) {
        (Some(x), Some(y)) => x.is_below(&y),
        _ => text::is_before(a, b),
    }
}

/// The order of the list: by subnet, and by address within a subnet.
pub open spec fn listed_before(a: RecordView, b: RecordView) -> bool {
    text::precedes(a.subnet, b.subnet) || (a.subnet == b.subnet && ip_text_before(a.ip, b.ip))
}

fn is_listed_before(a: &DeviceRecord, b: &DeviceRecord) -> (r: bool)
    ensures
        r == listed_before(a@, b@),
{
    text::is_before(a.subnet.as_str(), b.subnet.as_str()) || (text::same(
        a.subnet.as_str(),
        b.subnet.as_str(),
    ) && compare_ips(a.ip.as_str(), b.ip.as_str()))
}

proof fn lemma_listed_asymmetric(a: RecordView, b: RecordView)
    requires
        listed_before(a, b),
    ensures
        !listed_before(b, a),
{
    if text::precedes(a.subnet, b.subnet) {
        if text::precedes(b.subnet, a.subnet) {
            text::lemma_precedes_transitive(a.subnet, b.subnet, a.subnet);
        }
        text::lemma_precedes_irreflexive(a.subnet);
    } else {
        text::lemma_precedes_irreflexive(a.subnet);
        if text::precedes(a.ip, b.ip) && text::precedes(b.ip, a.ip) {
            text::lemma_precedes_transitive(a.ip, b.ip, a.ip);
            text::lemma_precedes_irreflexive(a.ip);
        }
    }
}

/// No record stands right behind one that it should come before.
pub open spec fn in_steps(s: Seq<RecordView>) -> bool {
    forall|i: int| 0 < i < s.len() ==> !listed_before(#[trigger] s[i], s[i - 1])
}

fn insert_listed(list: &mut Vec<DeviceRecord>, x: DeviceRecord)
    requires
        in_steps(text::views(old(list)@)),
    ensures
        in_steps(text::views(final(list)@)),
        text::views(final(list)@).to_multiset() == text::views(old(list)@).to_multiset().insert(x@),
{
    let ghost s = text::views(list@);
    let ghost xv = x@;
    let mut j: usize = list.len();
    while j > 0 && is_listed_before(&x, &list[j - 1])
        invariant
            j <= list.len(),
            s == text::views(list@),
            xv == x@,
            j < list.len() ==> listed_before(xv, s[j as int]),
        decreases j,
    {
        j -= 1;
    }
    proof {
        if j > 0 {
            assert(s[j - 1] == list@[j - 1]@);
        }
    }
    list.insert(j, x);
    proof {
        let t = text::views(list@);
        assert(t =~= s.insert(j as int, xv));
        vstd::seq_lib::to_multiset_insert(s, j as int, xv);
        assert forall|i: int| 0 < i < t.len() implies !listed_before(#[trigger] t[i], t[i - 1]) by {
            if i < j {
                assert(t[i] == s[i] && t[i - 1] == s[i - 1]);
            } else if i == j {
                assert(t[i - 1] == s[j - 1]);
            } else if i == j + 1 {
                assert(t[i] == s[j as int] && t[i - 1] == xv);
                lemma_listed_asymmetric(xv, s[j as int]);
            } else {
                assert(t[i] == s[i - 1] && t[i - 1] == s[i - 2]);
            }
        }
    }
}

impl DeviceRegistry {
    /// All records, by subnet and then by address.
    pub fn snapshot(&self) -> (r: Vec<DeviceRecord>)
        ensures
            text::views(r@).to_multiset() == self@.to_multiset(),
            in_steps(text::views(r@)),
    {
        let ghost all = self@;
        let mut list: Vec<DeviceRecord> = Vec::new();
        let mut i: usize = 0;
        assert(text::views(list@) =~= all.take(0));
        while i < self.devices.len()
            invariant
                i <= self.devices.len(),
                all == self@,
                in_steps(text::views(list@)),
                text::views(list@).to_multiset() == all.take(i as int).to_multiset(),
            decreases self.devices.len() - i,
        {
            let copy = self.devices[i].clone();
            proof {
                assert(all[i as int] == copy@);
                all.lemma_take_succ_push(i as int);
                vstd::seq_lib::to_multiset_build(all.take(i as int), copy@);
            }
            insert_listed(&mut list, copy);
            i += 1;
        }
        assert(all.take(i as int) =~= all);
        list
    }
}

/// A list without a step down is sorted by subnet; it is sorted by subnet and
/// address throughout where all its addresses parse.
pub proof fn law_steps_are_sorted(s: Seq<RecordView>, i: int, j: int)
    requires
        in_steps(s),
        0 <= i < j < s.len(),
    ensures
        !text::precedes(s[j].subnet, s[i].subnet),
        (forall|k: int| 0 <= k < s.len() ==> net::is_dotted((#[trigger] s[k]).ip))
            ==> !listed_before(s[j], s[i]),
    decreases j - i,
{
    if i + 1 < j {
        law_steps_are_sorted(s, i, j - 1);
    } else {
        text::lemma_precedes_irreflexive(s[i].subnet);
    }
    let (a, m, b) = (s[i], s[j - 1], s[j]);
    assert(!listed_before(s[j], s[j - 1]));
    text::lemma_precedes_total(a.subnet, m.subnet);
    text::lemma_precedes_total(m.subnet, b.subnet);
    text::lemma_precedes_irreflexive(m.subnet);
    text::lemma_precedes_irreflexive(a.subnet);
    if text::precedes(b.subnet, a.subnet) {
        if text::precedes(a.subnet, m.subnet) {
            text::lemma_precedes_transitive(b.subnet, a.subnet, m.subnet);
        }
        assert(false);
    }
    if forall|k: int| 0 <= k < s.len() ==> net::is_dotted((#[trigger] s[k]).ip) {
        if a.subnet == b.subnet {
            assert(m.subnet == a.subnet) by {
                if text::precedes(a.subnet, m.subnet) {
                    assert(text::precedes(b.subnet, m.subnet));
                }
            }
            assert(net::is_dotted(s[i].ip) && net::is_dotted(s[j - 1].ip) && net::is_dotted(
                s[j].ip,
            ));
        }
    }
}

/// The labels that only one device may have.
#[derive(Clone, Copy, Debug, PartialEq, Eq, Structural)]
pub enum Role {
    Cam,
    Ptu,
}

/// The label of a role.
pub open spec fn role_label(role: Role) -> Seq<char> {
    match role {
        Role::Cam => seq!['C', 'A', 'M'],
        Role::Ptu => seq!['P', 'T', 'U'],
    }
}

/// Where the first record with the label stands.
pub open spec fn first_labelled(s: Seq<RecordView>, label: Seq<char>) -> Option<int>
    decreases s.len(),
{
    if s.len() == 0 {
        None
    } else {
        match first_labelled(s.drop_last(), label) {
            Some(i) => Some(i),
            None => if s.last().alias == label {
                Some(s.len() - 1)
            } else {
                None
            },
        }
    }
}

/// The address of the device that keeps the label: the preferred one if it has the
/// label, else the first that has it.
pub open spec fn role_keeper(
    s: Seq<RecordView>,
    label: Seq<char>,
    preferred: Option<Seq<char>>,
) -> Option<Seq<char>> {
    if preferred is Some && exists|i: int|
        0 <= i < s.len() && (#[trigger] s[i]).ip == preferred->0 && s[i].alias == label {
        preferred
    } else {
        match first_labelled(s, label) {
            Some(i) => Some(s[i].ip),
            None => None,
        }
    }
}

/// Losing the label: a record that has it and is not the keeper.
pub open spec fn demotes(r: RecordView, label: Seq<char>, keeper: Option<Seq<char>>) -> bool {
    r.alias == label && keeper != Some(r.ip)
}

/// The records with the label taken from all but one.
pub open spec fn after_role(
    s: Seq<RecordView>,
    label: Seq<char>,
    preferred: Option<Seq<char>>,
) -> Seq<RecordView> {
    let keeper = role_keeper(s, label, preferred);
    s.map_values(
        |r: RecordView|
            if demotes(r, label, keeper) {
                RecordView { alias: Seq::empty(), ..r }
            } else {
                r
            },
    )
}

/// The address of a record that loses the label.
pub open spec fn demoted_ip(label: Seq<char>, keeper: Option<Seq<char>>) -> spec_fn(
    RecordView,
) -> Option<Seq<char>> {
    |r: RecordView|
        if demotes(r, label, keeper) {
            Some(r.ip)
        } else {
            None
        }
}

/// The addresses of the records that lose the label, in order.
pub open spec fn role_demotions(
    s: Seq<RecordView>,
    label: Seq<char>,
    preferred: Option<Seq<char>>,
) -> Seq<Seq<char>> {
    s.filter_map(demoted_ip(label, role_keeper(s, label, preferred)))
}

impl DeviceRegistry {
    /// Takes the label from all records but one: the preferred address keeps it if
    /// it has it, else the first record that has it.
    fn normalize_role(&mut self, label: &str, preferred: Option<&str>) -> (r: Vec<String>)
        requires
            label@.len() > 0,
        ensures
            final(self)@ == after_role(old(self)@, label@, opt_view(preferred)),
            text::views(r@) == role_demotions(old(self)@, label@, opt_view(preferred)),
    {
        proof {
            use_type_invariant(&*self);
        }
        let ghost all = self@;
        let ghost want = opt_view(preferred);
        let mut preferred_holds = false;
        let mut first: Option<usize> = None;
        let mut i: usize = 0;
        while i < self.devices.len()
            invariant
                i <= self.devices.len(),
                all == self@,
                want == opt_view(preferred),
                preferred_holds <==> want is Some && exists|k: int|
                    0 <= k < i && (#[trigger] all[k]).ip == want->0 && all[k].alias == label@,
                match first {
                    Some(k) => k < i && first_labelled(all.take(i as int), label@) == Some(k as int),
                    None => first_labelled(all.take(i as int), label@) is None,
                },
            decreases self.devices.len() - i,
        {
            let x = &self.devices[i];
            proof {
                assert(all[i as int] == x@);
                assert(all.take(i + 1).drop_last() =~= all.take(i as int));
                assert(all.take(i + 1).last() == x@);
            }
            if text::same(x.alias.as_str(), label) {
                if first.is_none() {
                    first = Some(i);
                }
                if let Some(p) = preferred {
                    if text::same(x.ip.as_str(), p) {
                        assert(all[i as int].ip == want->0);
                        preferred_holds = true;
                    }
                }
            }
            i += 1;
        }
        assert(all.take(i as int) =~= all);
        let keeper: Option<String> = match preferred {
            Some(p) if preferred_holds => Some(String::from_str(p)),
            _ => match first {
                Some(k) => Some(self.devices[k].ip.clone()),
                None => None,
            },
        };
        let ghost keep = role_keeper(all, label@, want);
        assert(config::opt_text(keeper) == keep);
        let ghost f = demoted_ip(label@, keep);
        let ghost target = after_role(all, label@, want);
        let mut list: Vec<DeviceRecord> = Vec::new();
        let mut demoted: Vec<String> = Vec::new();
        let mut j: usize = 0;
        assert(all.take(0) =~= Seq::empty());
        assert(text::views(demoted@) =~= all.take(0).filter_map(f));
        assert(text::views(list@) =~= target.take(0));
        while j < self.devices.len()
            invariant
                j <= self.devices.len(),
                all == self@,
                target == after_role(all, label@, want),
                keep == role_keeper(all, label@, want),
                config::opt_text(keeper) == keep,
                f == demoted_ip(label@, keep),
                text::views(demoted@) == all.take(j as int).filter_map(f),
                text::views(list@) == target.take(j as int),
            decreases self.devices.len() - j,
        {
            let x = &self.devices[j];
            proof {
                assert(all[j as int] == x@);
                all.lemma_filter_map_take_succ(f, j as int);
                target.lemma_take_succ_push(j as int);
            }
            let mut copy = x.clone();
            let kept = match &keeper {
                Some(ip) => text::same(ip.as_str(), x.ip.as_str()),
                None => false,
            };
            if text::same(x.alias.as_str(), label) && !kept {
                copy.alias = String::new();
                let ip = x.ip.clone();
                proof {
                    text::lemma_views_push(demoted@, ip);
                }
                demoted.push(ip);
            }
            proof {
                assert(copy@ =~= target[j as int]);
                text::lemma_views_push(list@, copy);
            }
            list.push(copy);
            j += 1;
        }
        proof {
            assert(all.take(j as int) =~= all);
            assert(target.take(j as int) =~= target);
            lemma_relabelled_one_each(all, target);
        }
        self.devices = list;
        demoted
    }

    /// Repairs the labels so that one device at most is the camera and one at most
    /// the pan-tilt unit; the camera's label stays with the configured camera if that
    /// has it. Gives back the addresses of the devices that lost a label.
    pub fn normalize_role_duplicates(&mut self, camera_ip: Option<&str>) -> (r: Vec<String>)
        ensures
            final(self)@ == after_role(
                after_role(old(self)@, role_label(Role::Cam), opt_view(camera_ip)),
                role_label(Role::Ptu),
                None,
            ),
            text::views(r@) == role_demotions(
                old(self)@,
                role_label(Role::Cam),
                opt_view(camera_ip),
            ) + role_demotions(
                after_role(old(self)@, role_label(Role::Cam), opt_view(camera_ip)),
                role_label(Role::Ptu),
                None,
            ),
    {
        proof {
            reveal_strlit("CAM");
            reveal_strlit("PTU");
            assert("CAM"@ =~= role_label(Role::Cam));
            assert("PTU"@ =~= role_label(Role::Ptu));
        }
        let mut r = self.normalize_role("CAM", camera_ip);
        let mut more = self.normalize_role("PTU", None);
        let ghost a = r@;
        let ghost b = more@;
        r.append(&mut more);
        assert(text::views(r@) =~= text::views(a) + text::views(b));
        r
    }
}

/// The text of an optional string slice.
pub open spec fn opt_view(o: Option<&str>) -> Option<Seq<char>> {
    match o {
        Some(s) => Some(s@),
        None => None,
    }
}

proof fn lemma_relabelled_one_each(s: Seq<RecordView>, t: Seq<RecordView>)
    requires
        one_each(s),
        t.len() == s.len(),
        forall|i: int| 0 <= i < s.len() ==> (#[trigger] t[i]).mac == s[i].mac && t[i].ip == s[i].ip,
    ensures
        one_each(t),
{
    assert forall|j: int, k: int| 0 <= j < k < t.len() implies (#[trigger] t[j]).mac != (
    #[trigger] t[k]).mac by {
        assert(s[j].mac != s[k].mac);
    }
    assert forall|j: int, k: int| 0 <= j < k < t.len() implies (#[trigger] t[j]).ip != (
    #[trigger] t[k]).ip by {
        assert(s[j].ip != s[k].ip);
    }
}

/// After the repair two records with the camera's label are one and the same, and so
/// are two with that of the pan-tilt unit.
pub proof fn law_one_holder_per_role(
    s: Seq<RecordView>,
    camera_ip: Option<Seq<char>>,
    role: Role,
    i: int,
    j: int,
)
    requires
        one_each(s),
        0 <= i < s.len(),
        0 <= j < s.len(),
        ({
            let t = after_role(
                after_role(s, role_label(Role::Cam), camera_ip),
                role_label(Role::Ptu),
                None,
            );
            t[i].alias == role_label(role) && t[j].alias == role_label(role)
        }),
    ensures
        i == j,
{
    let cam = role_label(Role::Cam);
    let ptu = role_label(Role::Ptu);
    let m = after_role(s, cam, camera_ip);
    let t = after_role(m, ptu, None);
    lemma_after_role(s, cam, camera_ip, i);
    lemma_after_role(s, cam, camera_ip, j);
    lemma_after_role(m, ptu, None, i);
    lemma_after_role(m, ptu, None, j);
    lemma_relabelled_one_each(s, m);
    match role {
        Role::Cam => {
            assert(s[i].ip == s[j].ip);
        },
        Role::Ptu => {
            assert(m[i].ip == m[j].ip);
        },
    }
}

/// A record that has the label after a repair had it before, and is the keeper; a record
/// with another label keeps that.
proof fn lemma_after_role(
    s: Seq<RecordView>,
    label: Seq<char>,
    preferred: Option<Seq<char>>,
    i: int,
)
    requires
        0 <= i < s.len(),
        label.len() > 0,
    ensures
        ({
            let t = after_role(s, label, preferred);
            &&& t.len() == s.len()
            &&& t[i].alias == label ==> s[i].alias == label && role_keeper(s, label, preferred)
                == Some(s[i].ip)
            &&& t[i].alias.len() > 0 ==> s[i].alias == t[i].alias
        }),
{
}

/// How long changes are gathered before the list is shown again, in milliseconds.
pub const EMIT_COALESCE_WINDOW: u64 = 150;

/// Whether the list is about to be shown again.
pub struct EmitWindow {
    pub dirty: bool,
}

impl EmitWindow {
    pub fn new() -> (r: EmitWindow)
        ensures
            !r.dirty,
    {
        EmitWindow { dirty: false }
    }

    /// The list changed. Says whether this opens a window, at whose end the list is to
    /// be shown; a change within a window opens none.
    pub fn poke(&mut self) -> (r: bool)
        ensures
            r == !old(self).dirty,
            final(self).dirty,
    {
        let opens = !self.dirty;
        self.dirty = true;
        opens
    }

    /// The window is over, and the list is about to be read: a change from here on opens
    /// another one.
    pub fn close(&mut self)
        ensures
            !final(self).dirty,
    {
        self.dirty = false;
    }
}

/// After a frame of a device the record with its MAC has the address, the subnet and the
/// time of the frame. A device that was known keeps its ports, the time it was first seen
/// and its label, and is live where it was only cached; a new one is live and has no
/// ports. One without a label has that of the record it replaces.
pub proof fn law_a_frame_is_what_is_listed(s: Seq<RecordView>, d: ArpView, i: int)
    requires
        one_each(s),
        0 <= i < after_arp(s, d).len(),
        after_arp(s, d)[i].mac == d.mac,
    ensures
        ({
            let r = after_arp(s, d)[i];
            &&& r.ip == d.ip
            &&& r.subnet == d.subnet
            &&& r.last_seen == d.last_seen
            &&& forall|j: int|
                0 <= j < s.len() && (#[trigger] s[j]).mac == d.mac ==> {
                    &&& r.open_ports == s[j].open_ports
                    &&& r.first_seen == s[j].first_seen
                    &&& s[j].alias.len() > 0 ==> r.alias == s[j].alias
                    &&& r.status == if s[j].status == DeviceStatus::CachedOnly {
                        DeviceStatus::Live
                    } else {
                        s[j].status
                    }
                }
            &&& (forall|j: int| 0 <= j < s.len() ==> (#[trigger] s[j]).mac != d.mac) ==> {
                &&& r.open_ports.len() == 0
                &&& r.first_seen == d.first_seen
                &&& r.status == DeviceStatus::Live
            }
            &&& (forall|j: int|
                0 <= j < s.len() && (#[trigger] s[j]).mac == d.mac ==> s[j].alias.len() == 0) ==> {
                &&& forall|j: int|
                    0 <= j < s.len() && (#[trigger] s[j]).ip == d.ip && s[j].mac != d.mac ==> r.alias
                        == s[j].alias
                &&& (forall|j: int|
                    0 <= j < s.len() ==> (#[trigger] s[j]).ip != d.ip || s[j].mac == d.mac)
                    ==> r.alias.len() == 0
            }
        }),
{
    let stay = is_not_replaced(d);
    let rest = s.filter(stay);
    let t = after_arp(s, d);
    let r = t[i];
    let label = first_label(s.filter(is_replaced(d)));
    assert forall|j: int| 0 <= j < s.len() && (#[trigger] s[j]).ip == d.ip && s[j].mac
        != d.mac implies label == s[j].alias by {
        law_label_follows_the_address(s, d, j);
    }
    if forall|j: int| 0 <= j < s.len() ==> (#[trigger] s[j]).ip != d.ip || s[j].mac == d.mac {
        assert forall|j: int| 0 <= j < s.len() implies !is_replaced(d)(#[trigger] s[j]) by {}
        lemma_filter_none(s, is_replaced(d));
    }
    if has_mac(s, d.mac) {
        let x = rest[i];
        assert(r == heard_again(x, d, label));
        assert(rest.contains(x));
        text::lemma_filtered(s, stay, x);
        let k = s.index_of(x);
        assert(s[k].mac == d.mac);
        assert forall|j: int| 0 <= j < s.len() && (#[trigger] s[j]).mac == d.mac implies j == k by {
            if j < k {
                assert(s[j].mac != s[k].mac);
            } else if k < j {
                assert(s[k].mac != s[j].mac);
            }
        }
    } else {
        if i < rest.len() {
            assert(rest.contains(rest[i]));
            text::lemma_filtered(s, stay, rest[i]);
            let k = s.index_of(rest[i]);
            assert(s[k].mac == d.mac);
        }
        assert(r == heard_first(d, label));
    }
}

/// A frame changes nothing of any other device: each stays as it is, but for the one that
/// had the device's address, which goes and is reported by its MAC. Nothing else comes.
pub proof fn law_a_frame_spares_the_others(
    s: Seq<RecordView>,
    d: ArpView,
    r: RecordView,
    mac: Seq<char>,
)
    requires
        r.mac != d.mac,
    ensures
        after_arp(s, d).contains(r) <==> s.contains(r) && r.ip != d.ip,
        macs(s.filter(is_replaced(d))).contains(mac) <==> exists|j: int|
            0 <= j < s.len() && (#[trigger] s[j]).ip == d.ip && s[j].mac == mac && mac != d.mac,
{
    let stay = is_not_replaced(d);
    let rest = s.filter(stay);
    let t = after_arp(s, d);
    text::lemma_filtered(s, stay, r);
    if t.contains(r) {
        let i = t.index_of(r);
        if i < rest.len() {
            assert(rest[i].mac == r.mac);
            assert(rest[i] == r);
        }
        assert(rest.contains(r));
    }
    if rest.contains(r) {
        let i = rest.index_of(r);
        assert(t[i] == r);
    }
    let gone = s.filter(is_replaced(d));
    if macs(gone).contains(mac) {
        let i = macs(gone).index_of(mac);
        assert(gone[i].mac == mac);
        assert(gone.contains(gone[i]));
        text::lemma_filtered(s, is_replaced(d), gone[i]);
        let j = s.index_of(gone[i]);
        assert(s[j].ip == d.ip);
    }
    if exists|j: int|
        0 <= j < s.len() && (#[trigger] s[j]).ip == d.ip && s[j].mac == mac && mac != d.mac {
        let j = choose|j: int|
            0 <= j < s.len() && (#[trigger] s[j]).ip == d.ip && s[j].mac == mac && mac != d.mac;
        text::lemma_filtered(s, is_replaced(d), s[j]);
        let i = gone.index_of(s[j]);
        assert(macs(gone)[i] == mac);
    }
}

/// A scan, a label and a status each touch the one record they are about, and only what
/// they say of it: a scan its ports, and its status where a port is open.
pub proof fn law_edits_touch_one_record(
    s: Seq<RecordView>,
    ip: Seq<char>,
    mac: Seq<char>,
    ports: Seq<u16>,
    alias: Seq<char>,
    status: DeviceStatus,
    i: int,
)
    requires
        0 <= i < s.len(),
    ensures
        ({
            let a = after_scan(s, ip, ports);
            let b = after_alias(s, ip, alias);
            let c = after_status(s, mac, status);
            &&& a.len() == s.len() && b.len() == s.len() && c.len() == s.len()
            &&& s[i].ip != ip ==> a[i] == s[i] && b[i] == s[i]
            &&& s[i].mac != mac ==> c[i] == s[i]
            &&& s[i].ip == ip ==> {
                &&& a[i].open_ports == ports
                &&& a[i].status == if ports.len() > 0 {
                    DeviceStatus::Live
                } else {
                    s[i].status
                }
                &&& a[i] == (RecordView { open_ports: ports, status: a[i].status, ..s[i] })
                &&& b[i].alias == alias
                &&& b[i] == (RecordView { alias, ..s[i] })
            }
            &&& s[i].mac == mac ==> c[i].status == status && c[i] == (RecordView {
                status,
                ..s[i]
            })
        }),
{
}

/// Forgetting a device drops the records with its MAC and no other, and leaving manual
/// mode drops the pinned nodes and no other.
pub proof fn law_forgetting_spares_the_others(
    s: Seq<RecordView>,
    mac: Seq<char>,
    r: RecordView,
)
    ensures
        s.filter(mac_is_not(mac)).contains(r) <==> s.contains(r) && r.mac != mac,
        s.filter(not_manual()).contains(r) <==> s.contains(r) && !(r.mac.len() >= 7 && r.mac.take(7)
            == "manual:"@),
{
    text::lemma_filtered(s, mac_is_not(mac), r);
    text::lemma_filtered(s, not_manual(), r);
    reveal_strlit("manual:");
    assert("manual:"@ =~= manual_prefix());
    if r.mac.len() >= 7 {
        assert(r.mac.take(7) =~= r.mac.subrange(0, 7));
    }
}

/// What the user means to keep: pinned nodes, devices with a label, and what sits at an
/// address that is a node's or the stream's.
pub proof fn law_what_the_user_keeps(
    settings: AppSettings,
    key: Seq<char>,
    alias: Seq<char>,
    ip: Seq<char>,
)
    ensures
        pinned(key, alias, ip, pin_set(settings)) <==> {
            ||| key.len() >= 7 && key.take(7) == "manual:"@
            ||| alias.len() > 0
            ||| exists|i: int|
                0 <= i < settings.manual_nodes@.len() && (#[trigger] settings.manual_nodes@[i]).ip@
                    == ip
            ||| ip.len() > 0 && settings.stream.camera_ip@ == ip
        },
{
    reveal_strlit("manual:");
    assert("manual:"@ =~= manual_prefix());
    if key.len() >= 7 {
        assert(key.take(7) =~= key.subrange(0, 7));
    }
}

/// A record at a scanned address goes exactly when it is not live, has no label, is no
/// pinned node and sits at no configured address.
pub proof fn law_what_a_scan_evicts(
    r: RecordView,
    ip: Seq<char>,
    pins: Set<Seq<char>>,
)
    ensures
        is_phantom(r, ip, pins) <==> {
            &&& r.ip == ip
            &&& r.status != DeviceStatus::Live
            &&& r.alias.len() == 0
            &&& !pins.contains(ip)
            &&& !manual_prefix().is_prefix_of(r.mac)
        },
{
}

/// The addresses that pins protect are those of the records that the user keeps.
pub proof fn law_pinned_addresses(s: Seq<RecordView>, pins: Set<Seq<char>>, ip: Ipv4Addr)
    ensures
        s.filter_map(pinned_ip(pins)).contains(ip) <==> exists|i: int|
            0 <= i < s.len() && (#[trigger] s[i]).ip == net::dotted(ip) && pinned(
                s[i].mac,
                s[i].alias,
                s[i].ip,
                pins,
            ),
{
    let f = pinned_ip(pins);
    text::lemma_filter_mapped(s, f, ip);
    net::law_parse_of_text(ip);
    if exists|i: int| 0 <= i < s.len() && f(#[trigger] s[i]) == Some(ip) {
        let i = choose|i: int| 0 <= i < s.len() && f(#[trigger] s[i]) == Some(ip);
        assert(net::dotted(ip) == s[i].ip);
    }
    if exists|i: int|
        0 <= i < s.len() && (#[trigger] s[i]).ip == net::dotted(ip) && pinned(
            s[i].mac,
            s[i].alias,
            s[i].ip,
            pins,
        ) {
        let i = choose|i: int|
            0 <= i < s.len() && (#[trigger] s[i]).ip == net::dotted(ip) && pinned(
                s[i].mac,
                s[i].alias,
                s[i].ip,
                pins,
            );
        assert(f(s[i]) == Some(ip));
    }
}

/// A pinned node is listed once: a record at its address takes the label and the subnet
/// and keeps all else, and without one there is a live record under the node's own key.
/// Records at other addresses stay as they are.
pub proof fn law_a_pinned_node_is_listed(
    s: Seq<RecordView>,
    ip: Seq<char>,
    alias: Seq<char>,
    now: Seq<char>,
    r: RecordView,
)
    ensures
        ({
            let t = after_node(s, ip, alias, now);
            let key = "manual:"@ + ip;
            let subnet = match net::parsed(ip) {
                Some(x) => net::subnet_key(x),
                None => net::subnet_key(Ipv4Addr { a: 0, b: 0, c: 0, d: 0 }),
            };
            let known = exists|i: int| 0 <= i < s.len() && (#[trigger] s[i]).ip == ip;
            &&& t.contains(r) && r.ip == ip ==> r.alias == alias && r.subnet == subnet
            &&& known ==> t.len() == s.len() && forall|i: int|
                0 <= i < s.len() ==> #[trigger] t[i] == if s[i].ip == ip {
                    RecordView { alias, subnet, ..s[i] }
                } else {
                    s[i]
                }
            &&& !known ==> t.len() > 0 && t.last() == (RecordView {
                mac: key,
                ip,
                subnet,
                open_ports: Seq::empty(),
                alias,
                status: DeviceStatus::Live,
                first_seen: now,
                last_seen: now,
            })
            &&& r.ip != ip && r.mac != key ==> (t.contains(r) <==> s.contains(r))
        }),
{
    reveal_strlit("manual:");
    assert("manual:"@ =~= manual_prefix());
    let t = after_node(s, ip, alias, now);
    if has_ip(s, ip) {
        if t.contains(r) {
            let i = t.index_of(r);
            assert(s[i].ip == r.ip);
            if r.ip != ip {
                assert(s[i] == r);
            }
        }
        if s.contains(r) && r.ip != ip {
            assert(t[s.index_of(r)] == r);
        }
    } else {
        let m = manual_record(ip, alias, now);
        let f = s.filter(mac_is_not(m.mac));
        text::lemma_filtered(s, mac_is_not(m.mac), r);
        assert(t == f.push(m));
        assert(t.last() == m);
        if t.contains(r) {
            let i = t.index_of(r);
            if i < f.len() {
                assert(f[i] == r);
                assert(f.contains(r));
                let j = s.index_of(r);
                assert(s[j].ip == r.ip);
            }
        }
        if f.contains(r) {
            assert(t[f.index_of(r)] == r);
        }
    }
}

/// Of the records with a role's label the preferred one keeps it, and where that has it
/// not, the first in the list. The others lose it and are reported; nothing else changes.
pub proof fn law_who_keeps_a_role(
    s: Seq<RecordView>,
    label: Seq<char>,
    preferred: Option<Seq<char>>,
    i: int,
)
    requires
        one_each(s),
        label.len() > 0,
        0 <= i < s.len(),
    ensures
        ({
            let t = after_role(s, label, preferred);
            let chosen = preferred matches Some(p) && exists|k: int|
                0 <= k < s.len() && (#[trigger] s[k]).ip == p && s[k].alias == label;
            let keeps = if chosen {
                preferred == Some(s[i].ip)
            } else {
                forall|k: int| 0 <= k < i ==> (#[trigger] s[k]).alias != label
            };
            &&& t.len() == s.len()
            &&& t[i] == if s[i].alias == label && !keeps {
                RecordView { alias: Seq::empty(), ..s[i] }
            } else {
                s[i]
            }
            &&& role_demotions(s, label, preferred).contains(s[i].ip) <==> s[i].alias == label
                && !keeps
        }),
{
    lemma_first_labelled(s, label);
    let keeper = role_keeper(s, label, preferred);
    let f = demoted_ip(label, keeper);
    text::lemma_filter_mapped(s, f, s[i].ip);
    assert forall|k: int| 0 <= k < s.len() && (#[trigger] s[k]).ip == s[i].ip implies k == i by {
        if k < i {
            assert(s[k].ip != s[i].ip);
        } else if i < k {
            assert(s[i].ip != s[k].ip);
        }
    }
    if role_demotions(s, label, preferred).contains(s[i].ip) {
        let k = choose|k: int| 0 <= k < s.len() && f(#[trigger] s[k]) == Some(s[i].ip);
        assert(s[k].ip == s[i].ip);
        assert(demotes(s[i], label, keeper));
    }
    if demotes(s[i], label, keeper) {
        assert(f(s[i]) == Some(s[i].ip));
    }
    match first_labelled(s, label) {
        Some(m) => {
            assert(s[m].alias == label);
            if m != i {
                assert(s[m].ip != s[i].ip);
            }
        },
        None => {},
    }
}

proof fn lemma_first_labelled(s: Seq<RecordView>, label: Seq<char>)
    ensures
        match first_labelled(s, label) {
            Some(i) => 0 <= i < s.len() && s[i].alias == label && forall|k: int|
                0 <= k < i ==> (#[trigger] s[k]).alias != label,
            None => forall|k: int| 0 <= k < s.len() ==> (#[trigger] s[k]).alias != label,
        },
    decreases s.len(),
{
    if s.len() > 0 {
        let rest = s.drop_last();
        lemma_first_labelled(rest, label);
        match first_labelled(rest, label) {
            Some(i) => {
                assert(rest[i] == s[i]);
                assert forall|k: int| 0 <= k < i implies (#[trigger] s[k]).alias != label by {
                    assert(rest[k] == s[k]);
                }
            },
            None => {
                assert forall|k: int| 0 <= k < s.len() - 1 implies (#[trigger] s[k]).alias
                    != label by {
                    assert(rest[k] == s[k]);
                }
            },
        }
    }
}

/// The roles are the camera and the pan-tilt unit, by these labels.
pub proof fn law_role_labels()
    ensures
        role_label(Role::Cam) == "CAM"@,
        role_label(Role::Ptu) == "PTU"@,
{
    reveal_strlit("CAM");
    reveal_strlit("PTU");
    assert(role_label(Role::Cam) =~= "CAM"@);
    assert(role_label(Role::Ptu) =~= "PTU"@);
}

/// The list is ordered by subnet, and on one subnet by address as a number.
pub proof fn law_how_the_list_is_ordered(a: RecordView, b: RecordView, x: Ipv4Addr, y: Ipv4Addr)
    requires
        a.ip == net::dotted(x),
        b.ip == net::dotted(y),
    ensures
        a.subnet == b.subnet ==> (listed_before(a, b) <==> x.num() < y.num()),
        a.subnet != b.subnet ==> (listed_before(a, b) <==> text::precedes(a.subnet, b.subnet)),
{
    net::law_parse_of_text(x);
    net::law_parse_of_text(y);
    text::lemma_precedes_irreflexive(a.subnet);
}

/// Of the usable cached rows at an address the newest wins, of equally new ones the first.
/// A row is usable exactly when it has a MAC and its address parses; every other usable
/// row loses and is reported by its MAC.
pub proof fn law_which_cached_row_wins(rows: Seq<CachedView>, i: int)
    requires
        0 <= i < rows.len(),
    ensures
        ({
            let (winners, losers) = contest(rows);
            let good = |j: int|
                rows[j].mac.len() > 0 && exists|x: Ipv4Addr| net::dotted(x) == rows[j].ip;
            let wins = good(i) && forall|j: int|
                0 <= j < rows.len() && (#[trigger] rows[j]).ip == rows[i].ip && good(j) ==> if j
                    < i {
                    text::precedes(rows[j].last_seen, rows[i].last_seen)
                } else {
                    !text::precedes(rows[i].last_seen, rows[j].last_seen)
                };
            &&& wins ==> winners.contains(rows[i])
            &&& good(i) && !wins ==> losers.contains(rows[i].mac)
            &&& forall|k: int|
                0 <= k < winners.len() ==> rows.contains(#[trigger] winners[k])
            &&& forall|k: int, m: int|
                0 <= k < m < winners.len() ==> (#[trigger] winners[k]).ip != (
                #[trigger] winners[m]).ip
            &&& forall|k: int|
                0 <= k < losers.len() ==> exists|j: int|
                    0 <= j < rows.len() && (#[trigger] rows[j]).mac == #[trigger] losers[k] && good(
                        j,
                    )
        }),
{
    lemma_contest_exact(rows, rows.len() as int);
    lemma_contest(rows);
    lemma_winners_are_rows(rows);
    assert(rows.take(rows.len() as int) =~= rows);
    let (winners, losers) = contest(rows);
    let good = |j: int|
        rows[j].mac.len() > 0 && exists|x: Ipv4Addr| net::dotted(x) == rows[j].ip;
    assert forall|j: int| #[trigger] good(j) == usable(rows[j]) by {}
    assert(beats_all(rows, i, rows.len() as int) <==> forall|j: int|
        0 <= j < rows.len() && (#[trigger] rows[j]).ip == rows[i].ip && good(j) ==> if j < i {
            text::precedes(rows[j].last_seen, rows[i].last_seen)
        } else {
            !text::precedes(rows[i].last_seen, rows[j].last_seen)
        }) by {
        assert forall|j: int| 0 <= j < rows.len() implies good(j) == usable(#[trigger] rows[j]) by {}
    }
    assert forall|k: int| 0 <= k < losers.len() implies exists|j: int|
        0 <= j < rows.len() && (#[trigger] rows[j]).mac == #[trigger] losers[k] && good(j) by {
        let j = choose|j: int|
            0 <= j < rows.len() && (#[trigger] rows[j]).mac == losers[k] && usable(rows[j]);
        assert(good(j));
    }
    if usable(rows[i]) && beats_all(rows, i, rows.len() as int) {
        law_newest_cached_row_wins(rows, i);
        let k = choose|k: int|
            0 <= k < winners.len() && (#[trigger] winners[k]).ip == rows[i].ip && !text::precedes(
                winners[k].last_seen,
                rows[i].last_seen,
            );
        let j = choose|j: int|
            0 <= j < rows.len() && #[trigger] rows[j] == winners[k] && usable(rows[j])
                && beats_all(rows, j, rows.len() as int);
        text::lemma_precedes_irreflexive(rows[i].last_seen);
        if j < i {
            assert(text::precedes(rows[j].last_seen, rows[i].last_seen));
        } else if i < j {
            assert(text::precedes(rows[i].last_seen, rows[j].last_seen));
        }
        assert(i == j);
    }
}

/// Whether row `i` is newer than every usable earlier row at its address, and as new as
/// every later one, among the first `n` rows.
spec fn beats_all(rows: Seq<CachedView>, i: int, n: int) -> bool {
    forall|j: int|
        0 <= j < n && (#[trigger] rows[j]).ip == rows[i].ip && usable(rows[j]) ==> if j < i {
            text::precedes(rows[j].last_seen, rows[i].last_seen)
        } else {
            !text::precedes(rows[i].last_seen, rows[j].last_seen)
        }
}

#[verifier::spinoff_prover]
#[verifier::rlimit(60)]
proof fn lemma_contest_exact(rows: Seq<CachedView>, n: int)
    requires
        0 <= n <= rows.len(),
    ensures
        ({
            let (winners, losers) = contest(rows.take(n));
            &&& forall|k: int|
                0 <= k < winners.len() ==> exists|j: int|
                    0 <= j < n && #[trigger] rows[j] == #[trigger] winners[k] && usable(rows[j])
                        && beats_all(rows, j, n)
            &&& forall|k: int|
                0 <= k < losers.len() ==> exists|j: int|
                    0 <= j < n && (#[trigger] rows[j]).mac == #[trigger] losers[k] && usable(rows[j])
            &&& forall|j: int|
                0 <= j < n && usable(#[trigger] rows[j]) && !beats_all(rows, j, n)
                    ==> losers.contains(rows[j].mac)
        }),
    decreases n,
{
    if n > 0 {
        let m = n - 1;
        lemma_contest_exact(rows, m);
        assert(rows.take(n).drop_last() =~= rows.take(m));
        assert(rows.take(n).last() == rows[m]);
        let (w, l) = contest(rows.take(m));
        let (winners, losers) = contest(rows.take(n));
        let e = rows[m];
        lemma_contest(rows.take(m));
        text::lemma_precedes_irreflexive(e.last_seen);
        if usable(e) {
            assert forall|j: int| 0 <= j < m && usable(#[trigger] rows[j]) && rows[j].ip
                == e.ip implies exists|k: int|
                0 <= k < w.len() && (#[trigger] w[k]).ip == e.ip && !text::precedes(
                    w[k].last_seen,
                    rows[j].last_seen,
                ) by {
                assert(rows.take(m)[j] == rows[j]);
                law_newest_cached_row_wins(rows.take(m), j);
            }
        }
        assert forall|k: int| 0 <= k < winners.len() implies exists|j: int|
            0 <= j < n && #[trigger] rows[j] == #[trigger] winners[k] && usable(rows[j])
                && beats_all(rows, j, n) by {
            if k < w.len() && winners[k] == w[k] && !(usable(e) && e.ip == w[k].ip && text::precedes(
                w[k].last_seen,
                e.last_seen,
            )) {
                let j = choose|j: int|
                    0 <= j < m && #[trigger] rows[j] == w[k] && usable(rows[j]) && beats_all(
                        rows,
                        j,
                        m,
                    );
                assert(beats_all(rows, j, n));
            } else {
                if usable(e) && row_at(w, e.ip) {
                    let q = row_index(w, e.ip);
                    assert(0 <= q < w.len() && w[q].ip == e.ip);
                    if k < w.len() && w[k].ip == e.ip {
                        lemma_row_index(w, k);
                    }
                    assert(k == q);
                }
                assert(winners[k] == e);
                assert forall|j: int| 0 <= j < n && (#[trigger] rows[j]).ip == e.ip && usable(
                    rows[j],
                ) implies if j < m {
                    text::precedes(rows[j].last_seen, e.last_seen)
                } else {
                    !text::precedes(e.last_seen, rows[j].last_seen)
                } by {
                    if j < m {
                        let q = choose|q: int|
                            0 <= q < w.len() && (#[trigger] w[q]).ip == e.ip && !text::precedes(
                                w[q].last_seen,
                                rows[j].last_seen,
                            );
                        lemma_row_index(w, q);
                        assert(row_at(w, e.ip));
                        assert(text::precedes(w[q].last_seen, e.last_seen));
                        text::lemma_precedes_total(w[q].last_seen, rows[j].last_seen);
                        if text::precedes(rows[j].last_seen, w[q].last_seen) {
                            text::lemma_precedes_transitive(
                                rows[j].last_seen,
                                w[q].last_seen,
                                e.last_seen,
                            );
                        }
                    }
                }
                assert(beats_all(rows, m, n));
                assert(rows[m] == winners[k]);
            }
        }
        assert forall|k: int| 0 <= k < losers.len() implies exists|j: int|
            0 <= j < n && (#[trigger] rows[j]).mac == #[trigger] losers[k] && usable(rows[j]) by {
            if k < l.len() {
                assert(losers[k] == l[k]);
                let j = choose|j: int|
                    0 <= j < m && (#[trigger] rows[j]).mac == l[k] && usable(rows[j]);
                assert(rows[j].mac == losers[k]);
            } else {
                let q = row_index(w, e.ip);
                assert(0 <= q < w.len() && w[q].ip == e.ip);
                if text::precedes(w[q].last_seen, e.last_seen) {
                    let j = choose|j: int|
                        0 <= j < m && #[trigger] rows[j] == w[q] && usable(rows[j]) && beats_all(
                            rows,
                            j,
                            m,
                        );
                    assert(rows[j].mac == losers[k]);
                } else {
                    assert(rows[m].mac == losers[k]);
                }
            }
        }
        assert forall|j: int| 0 <= j < n && usable(#[trigger] rows[j]) && !beats_all(
            rows,
            j,
            n,
        ) implies losers.contains(rows[j].mac) by {
            assert(forall|k: int| 0 <= k < l.len() ==> #[trigger] losers[k] == l[k]);
            if j < m && !beats_all(rows, j, m) {
                let k = l.index_of(rows[j].mac);
                assert(losers[k] == rows[j].mac);
            } else if j < m {
                // The new row is at its address and newer.
                assert(usable(e) && e.ip == rows[j].ip && text::precedes(
                    rows[j].last_seen,
                    e.last_seen,
                ));
                let q = choose|q: int|
                    0 <= q < w.len() && (#[trigger] w[q]).ip == e.ip && !text::precedes(
                        w[q].last_seen,
                        rows[j].last_seen,
                    );
                lemma_row_index(w, q);
                let p = choose|p: int|
                    0 <= p < m && #[trigger] rows[p] == w[q] && usable(rows[p]) && beats_all(
                        rows,
                        p,
                        m,
                    );
                if p < j {
                    assert(text::precedes(rows[p].last_seen, rows[j].last_seen));
                } else if j < p {
                    assert(text::precedes(rows[j].last_seen, rows[p].last_seen));
                    assert(!text::precedes(rows[j].last_seen, rows[p].last_seen));
                }
                assert(p == j);
                assert(losers[l.len() as int] == rows[j].mac);
            } else {
                // An earlier row at its address is as new.
                let p = choose|p: int|
                    0 <= p < n && (#[trigger] rows[p]).ip == e.ip && usable(rows[p]) && !(if p < m {
                        text::precedes(rows[p].last_seen, e.last_seen)
                    } else {
                        !text::precedes(e.last_seen, rows[p].last_seen)
                    });
                assert(p < m);
                let q = choose|q: int|
                    0 <= q < w.len() && (#[trigger] w[q]).ip == e.ip && !text::precedes(
                        w[q].last_seen,
                        rows[p].last_seen,
                    );
                lemma_row_index(w, q);
                if text::precedes(w[q].last_seen, e.last_seen) {
                    text::lemma_precedes_total(w[q].last_seen, rows[p].last_seen);
                    if text::precedes(rows[p].last_seen, w[q].last_seen) {
                        text::lemma_precedes_transitive(
                            rows[p].last_seen,
                            w[q].last_seen,
                            e.last_seen,
                        );
                    }
                }
                assert(losers[l.len() as int] == e.mac);
            }
        }
    }
}

/// What a winning cached row gives: a record with its MAC, address, subnet and ports,
/// that is cached only and was seen when the row was. It has the row's label, or without
/// one the first label among the rows that lost at its address.
pub proof fn law_what_a_cached_row_gives(rows: Seq<CachedView>, k: int)
    requires
        0 <= k < contest(rows).0.len(),
        forall|i: int, j: int|
            0 <= i < j < contest(rows).0.len() ==> (#[trigger] contest(rows).0[i]).mac != (
            #[trigger] contest(rows).0[j]).mac,
    ensures
        ({
            let (winners, losers) = contest(rows);
            let e = winners[k];
            let r = hydrated(rows)[k];
            &&& hydrated(rows).len() == winners.len()
            &&& r.mac == e.mac
            &&& r.ip == e.ip
            &&& r.subnet == e.subnet
            &&& r.open_ports == e.open_ports
            &&& r.status == DeviceStatus::CachedOnly
            &&& r.first_seen == e.last_seen
            &&& r.last_seen == e.last_seen
            &&& e.alias.len() > 0 ==> r.alias == e.alias
            &&& e.alias.len() == 0 ==> {
                ||| exists|j: int|
                    0 <= j < rows.len() && (#[trigger] rows[j]).alias == r.alias && r.alias.len() > 0
                        && rows[j].ip == e.ip && losers.contains(rows[j].mac) && forall|h: int|
                        0 <= h < j ==> (#[trigger] rows[h]).alias.len() == 0 || rows[h].ip != e.ip
                            || !losers.contains(rows[h].mac)
                ||| r.alias.len() == 0 && forall|h: int|
                    0 <= h < rows.len() ==> (#[trigger] rows[h]).alias.len() == 0 || rows[h].ip
                        != e.ip || !losers.contains(rows[h].mac)
            }
        }),
{
    let (winners, losers) = contest(rows);
    lemma_records_of_winners(rows, winners, losers, winners.len() as int);
    lemma_lost_label(rows, losers, winners[k].ip);
}

/// Every record that the cache gives comes from a row with a MAC and an address that
/// parses, and no other row with a MAC at its address is newer.
pub proof fn law_cached_records_come_from_rows(rows: Seq<CachedView>, i: int)
    requires
        0 <= i < hydrated(rows).len(),
    ensures
        ({
            let r = hydrated(rows)[i];
            &&& r.status == DeviceStatus::CachedOnly
            &&& exists|j: int|
                0 <= j < rows.len() && (#[trigger] rows[j]).mac == r.mac && rows[j].ip == r.ip
                    && rows[j].subnet == r.subnet && rows[j].open_ports == r.open_ports
                    && rows[j].last_seen == r.last_seen && r.first_seen == r.last_seen && (
                rows[j].alias.len() > 0 ==> r.alias == rows[j].alias)
            &&& r.mac.len() > 0
            &&& exists|x: Ipv4Addr| net::dotted(x) == r.ip
            &&& forall|h: int|
                0 <= h < rows.len() && (#[trigger] rows[h]).ip == r.ip && rows[h].mac.len() > 0
                    ==> !text::precedes(r.last_seen, rows[h].last_seen)
        }),
{
    let (winners, losers) = contest(rows);
    lemma_records_from_winners(rows, winners, losers, winners.len() as int);
    let r = hydrated(rows)[i];
    let k = choose|k: int|
        0 <= k < winners.len() && r == #[trigger] cached_record(
            winners[k],
            lost_label(rows, losers, winners[k].ip),
        );
    lemma_contest_exact(rows, rows.len() as int);
    assert(rows.take(rows.len() as int) =~= rows);
    let w = winners[k];
    let j = choose|j: int|
        0 <= j < rows.len() && #[trigger] rows[j] == w && usable(rows[j]) && beats_all(
            rows,
            j,
            rows.len() as int,
        );
    assert(rows[j].mac == r.mac);
    assert forall|h: int| 0 <= h < rows.len() && (#[trigger] rows[h]).ip == r.ip
        && rows[h].mac.len() > 0 implies !text::precedes(r.last_seen, rows[h].last_seen) by {
        assert(usable(rows[h]));
        if h < j && text::precedes(rows[j].last_seen, rows[h].last_seen) {
            text::lemma_precedes_transitive(
                rows[h].last_seen,
                rows[j].last_seen,
                rows[h].last_seen,
            );
            text::lemma_precedes_irreflexive(rows[h].last_seen);
        }
    }
}

proof fn lemma_records_from_winners(
    rows: Seq<CachedView>,
    winners: Seq<CachedView>,
    losers: Seq<Seq<char>>,
    n: int,
)
    requires
        0 <= n <= winners.len(),
    ensures
        ({
            let t = cached_records(rows, winners, losers, n);
            forall|i: int|
                0 <= i < t.len() ==> exists|k: int|
                    0 <= k < n && #[trigger] t[i] == #[trigger] cached_record(
                        winners[k],
                        lost_label(rows, losers, winners[k].ip),
                    )
        }),
    decreases n,
{
    if n > 0 {
        lemma_records_from_winners(rows, winners, losers, n - 1);
        let before = cached_records(rows, winners, losers, n - 1);
        let e = winners[n - 1];
        let r = cached_record(e, lost_label(rows, losers, e.ip));
        let f = before.filter(mac_is_not(r.mac));
        let t = cached_records(rows, winners, losers, n);
        assert forall|i: int| 0 <= i < t.len() implies exists|k: int|
            0 <= k < n && #[trigger] t[i] == #[trigger] cached_record(
                winners[k],
                lost_label(rows, losers, winners[k].ip),
            ) by {
            if i < f.len() {
                assert(t[i] == f[i]);
                assert(f.contains(f[i]));
                text::lemma_filtered(before, mac_is_not(r.mac), f[i]);
                let j = before.index_of(f[i]);
                let k = choose|k: int|
                    0 <= k < n - 1 && before[j] == #[trigger] cached_record(
                        winners[k],
                        lost_label(rows, losers, winners[k].ip),
                    );
                assert(t[i] == cached_record(winners[k], lost_label(rows, losers, winners[k].ip)));
            } else {
                assert(t[i] == r);
                assert(t[i] == cached_record(
                    winners[n - 1],
                    lost_label(rows, losers, winners[n - 1].ip),
                ));
            }
        }
    }
}

proof fn lemma_records_of_winners(
    rows: Seq<CachedView>,
    winners: Seq<CachedView>,
    losers: Seq<Seq<char>>,
    n: int,
)
    requires
        0 <= n <= winners.len(),
        forall|i: int, j: int|
            0 <= i < j < winners.len() ==> (#[trigger] winners[i]).mac != (
            #[trigger] winners[j]).mac,
    ensures
        cached_records(rows, winners, losers, n).len() == n,
        forall|k: int| #![trigger cached_records(rows, winners, losers, n)[k]]
            0 <= k < n ==> cached_records(rows, winners, losers, n)[k] == cached_record(
                winners[k],
                lost_label(rows, losers, winners[k].ip),
            ),
    decreases n,
{
    if n > 0 {
        lemma_records_of_winners(rows, winners, losers, n - 1);
        let before = cached_records(rows, winners, losers, n - 1);
        let mac = winners[n - 1].mac;
        assert forall|i: int| 0 <= i < before.len() implies mac_is_not(mac)(#[trigger] before[i]) by {
            assert(winners[i].mac != winners[n - 1].mac);
        }
        lemma_filter_all(before, mac_is_not(mac));
    }
}

proof fn lemma_lost_label(rows: Seq<CachedView>, losers: Seq<Seq<char>>, ip: Seq<char>)
    ensures
        ({
            let label = lost_label(rows, losers, ip);
            ||| exists|j: int|
                0 <= j < rows.len() && (#[trigger] rows[j]).alias == label && label.len() > 0
                    && rows[j].ip == ip && losers.contains(rows[j].mac) && forall|h: int|
                    0 <= h < j ==> (#[trigger] rows[h]).alias.len() == 0 || rows[h].ip != ip
                        || !losers.contains(rows[h].mac)
            ||| label.len() == 0 && forall|h: int|
                0 <= h < rows.len() ==> (#[trigger] rows[h]).alias.len() == 0 || rows[h].ip != ip
                    || !losers.contains(rows[h].mac)
        }),
    decreases rows.len(),
{
    if rows.len() > 0 {
        let rest = rows.drop_first();
        lemma_lost_label(rest, losers, ip);
        let label = lost_label(rows, losers, ip);
        let e = rows[0];
        if e.alias.len() > 0 && e.ip == ip && losers.contains(e.mac) {
            assert(rows[0].alias == label);
        } else if label.len() > 0 {
            let j = choose|j: int|
                0 <= j < rest.len() && (#[trigger] rest[j]).alias == label && label.len() > 0
                    && rest[j].ip == ip && losers.contains(rest[j].mac) && forall|h: int|
                    0 <= h < j ==> (#[trigger] rest[h]).alias.len() == 0 || rest[h].ip != ip
                        || !losers.contains(rest[h].mac);
            assert(rows[j + 1] == rest[j]);
            assert forall|h: int| 0 <= h < j + 1 implies (#[trigger] rows[h]).alias.len() == 0
                || rows[h].ip != ip || !losers.contains(rows[h].mac) by {
                if h > 0 {
                    assert(rest[h - 1] == rows[h]);
                }
            }
        } else {
            assert forall|h: int| 0 <= h < rows.len() implies (#[trigger] rows[h]).alias.len() == 0
                || rows[h].ip != ip || !losers.contains(rows[h].mac) by {
                if h > 0 {
                    assert(rest[h - 1] == rows[h]);
                }
            }
        }
    }
}

/// Pinned nodes are taken in one after the other, and a report of no change means that
/// the list is as it was after each of them.
pub proof fn law_nodes_are_taken_in_turn(
    s: Seq<RecordView>,
    nodes: Seq<ManualNode>,
    node: ManualNode,
    now: Seq<char>,
)
    ensures
        after_nodes(s, Seq::empty(), now) == s,
        after_nodes(s, nodes.push(node), now) == after_node(
            after_nodes(s, nodes, now),
            node.ip@,
            node.alias@,
            now,
        ),
        !nodes_change(s, Seq::empty(), now),
        nodes_change(s, nodes.push(node), now) <==> nodes_change(s, nodes, now) || after_nodes(
            s,
            nodes.push(node),
            now,
        ) != after_nodes(s, nodes, now),
        !nodes_change(s, nodes, now) ==> after_nodes(s, nodes, now) == s,
    decreases nodes.len(),
{
    assert(nodes.push(node).drop_last() =~= nodes);
    if nodes.len() > 0 {
        law_nodes_are_taken_in_turn(s, nodes.drop_last(), node, now);
    }
}

/// A record shows all that is known of a device as it is.
pub proof fn law_what_a_record_shows(r: DeviceRecord)
    ensures
        r@.mac == r.mac@,
        r@.ip == r.ip@,
        r@.subnet == r.subnet@,
        r@.open_ports == r.open_ports@,
        r@.alias == r.alias@,
        r@.status == r.status,
        r@.first_seen == r.first_seen@,
        r@.last_seen == r.last_seen@,
{
}

/// A frame keeps the order of the list: a known device keeps its place, and a new one
/// comes last.
pub proof fn law_a_frame_keeps_the_order(s: Seq<RecordView>, d: ArpView)
    requires
        forall|i: int| 0 <= i < s.len() ==> (#[trigger] s[i]).ip != d.ip || s[i].mac == d.mac,
    ensures
        has_mac(s, d.mac) ==> macs(after_arp(s, d)) == macs(s),
        !has_mac(s, d.mac) ==> macs(after_arp(s, d)) == macs(s).push(d.mac),
{
    assert forall|i: int| 0 <= i < s.len() implies is_not_replaced(d)(#[trigger] s[i]) by {}
    lemma_filter_all(s, is_not_replaced(d));
    if has_mac(s, d.mac) {
        assert(macs(after_arp(s, d)) =~= macs(s));
    } else {
        assert(macs(after_arp(s, d)) =~= macs(s).push(d.mac));
    }
}

} // verus!
