//! What frames a discovery session: the adapter it may run on, the pauses while the
//! adapter is leased, the watch on the capture, the sweeps, the registry's start and
//! the change of the network mode.

use crate::arp;
use crate::auto_adopt;
use crate::config;
use crate::config::{CachedDevice, CachedView, ManualNode, NetworkMode};
use crate::device_registry;
use crate::device_registry::{DeviceRecord, DeviceRegistry, RecordView};
use crate::error::AppError;
use crate::ghost;
use crate::ghost::CacheReject;
use crate::interface;
use crate::interface::{InterfaceInfo, IpInfo};
use crate::lifecycle;
use crate::lifecycle::SweepFence;
use crate::net;
use crate::net::{Ipv4Addr, Ipv4Network};
use crate::pktmon::CaptureMode;
use crate::text;
use crate::textmap::TextSet;
use crate::time;
use crate::time::{Duration, Instant};
use vstd::prelude::*;

verus! {

/// Why discovery may not run on an adapter.
pub open spec fn not_wired_message(name: Seq<char>) -> Seq<char> {
    "'"@ + name
        + "' is not an up, wired Ethernet adapter — ARP discovery only runs on the wired camera port"@
}

/// Checks that discovery may run on the adapter: it has to be a camera port that is up.
pub fn check_wired(info: &InterfaceInfo, name: &str) -> (r: Result<(), AppError>)
    ensures
        r is Ok <==> interface::wired_ethernet(*info),
        r matches Err(e) ==> e.text() == not_wired_message(name@),
{
    if interface::is_wired_ethernet(info) {
        return Ok(());
    }
    let mut e = String::from_str("'");
    e.append(name);
    e.append(
        "' is not an up, wired Ethernet adapter — ARP discovery only runs on the wired camera port",
    );
    Err(AppError::Network(e))
}

/// Being the separator between the bytes of a MAC.
pub open spec fn is_mac_sep(c: char) -> bool {
    c == ':' || c == '-'
}

/// The parts of a text between its separators.
pub open spec fn mac_parts(s: Seq<char>) -> Seq<Seq<char>>
    decreases s.len(),
{
    if s.len() == 0 {
        seq![Seq::<char>::empty()]
    } else {
        let before = mac_parts(s.drop_last());
        if is_mac_sep(s.last()) {
            before.push(Seq::<char>::empty())
        } else {
            before.drop_last().push(before.last().push(s.last()))
        }
    }
}

/// The value of a hexadecimal digit.
pub open spec fn hex_digit_value(c: char) -> Option<int> {
    if '0' <= c <= '9' {
        Some(c as int - '0' as int)
    } else if 'a' <= c <= 'f' {
        Some(c as int - 'a' as int + 10)
    } else if 'A' <= c <= 'F' {
        Some(c as int - 'A' as int + 10)
    } else {
        None
    }
}

/// A part of a MAC as a byte: two hexadecimal digits, and nothing else.
pub open spec fn hex_byte(s: Seq<char>) -> Option<u8> {
    if s.len() == 2 {
        match (hex_digit_value(s[0]), hex_digit_value(s[1])) {
            (Some(hi), Some(lo)) => Some((hi * 16 + lo) as u8),
            _ => None,
        }
    } else {
        None
    }
}

/// Whether the separators of a text are all of one kind.
pub open spec fn one_separator(s: Seq<char>) -> bool {
    forall|i: int, j: int|
        0 <= i < s.len() && 0 <= j < s.len() && is_mac_sep(s[i]) && is_mac_sep(s[j]) ==> s[i]
            == s[j]
}

/// The six bytes of a MAC in one of its two forms: between colons, or between hyphens.
pub open spec fn mac_bytes(s: Seq<char>) -> Option<Seq<u8>> {
    let parts = mac_parts(s);
    if one_separator(s) && parts.len() == 6 && (forall|i: int|
        0 <= i < 6 ==> hex_byte(#[trigger] parts[i]) is Some) {
        Some(Seq::new(6, |i: int| hex_byte(parts[i])->0))
    } else {
        None
    }
}

/// A list of characters, as their texts.
pub open spec fn char_views(s: Seq<Vec<char>>) -> Seq<Seq<char>> {
    s.map_values(|v: Vec<char>| v@)
}

fn split_mac(cs: &Vec<char>) -> (r: Vec<Vec<char>>)
    ensures
        char_views(r@) == mac_parts(cs@),
{
    let mut done: Vec<Vec<char>> = Vec::new();
    let mut part: Vec<char> = Vec::new();
    let mut i: usize = 0;
    assert(char_views(done@).push(part@) =~= mac_parts(cs@.take(0)));
    while i < cs.len()
        invariant
            i <= cs.len(),
            char_views(done@).push(part@) == mac_parts(cs@.take(i as int)),
        decreases cs.len() - i,
    {
        let c = cs[i];
        let ghost before = char_views(done@).push(part@);
        assert(cs@.take(i + 1).drop_last() =~= cs@.take(i as int));
        assert(cs@.take(i + 1).last() == c);
        if c == ':' || c == '-' {
            let ghost was = done@;
            let ghost p = part@;
            done.push(part);
            part = Vec::new();
            assert(char_views(done@) =~= char_views(was).push(p));
            assert(part@ =~= Seq::<char>::empty());
        } else {
            assert(before.drop_last() =~= char_views(done@));
            part.push(c);
        }
        i += 1;
    }
    assert(cs@.take(i as int) =~= cs@);
    let ghost was = done@;
    let ghost p = part@;
    done.push(part);
    assert(char_views(done@) =~= char_views(was).push(p));
    done
}

fn digit_of(c: char) -> (r: Option<u32>)
    ensures
        match r {
            Some(d) => hex_digit_value(c) == Some(d as int) && d < 16,
            None => hex_digit_value(c) is None,
        },
{
    if '0' <= c && c <= '9' {
        Some(c as u32 - '0' as u32)
    } else if 'a' <= c && c <= 'f' {
        Some(c as u32 - 'a' as u32 + 10)
    } else if 'A' <= c && c <= 'F' {
        Some(c as u32 - 'A' as u32 + 10)
    } else {
        None
    }
}

fn read_hex_byte(p: &Vec<char>) -> (r: Option<u8>)
    ensures
        r == hex_byte(p@),
{
    if p.len() != 2 {
        return None;
    }
    match (digit_of(p[0]), digit_of(p[1])) {
        (Some(hi), Some(lo)) => Some((hi * 16 + lo) as u8),
        _ => None,
    }
}

fn has_one_separator(cs: &Vec<char>) -> (r: bool)
    ensures
        r == one_separator(cs@),
{
    let mut colon: Option<usize> = None;
    let mut hyphen: Option<usize> = None;
    let mut i: usize = 0;
    while i < cs.len()
        invariant
            i <= cs.len(),
            match colon {
                Some(k) => k < i && cs@[k as int] == ':',
                None => forall|k: int| 0 <= k < i ==> cs@[k] != ':',
            },
            match hyphen {
                Some(k) => k < i && cs@[k as int] == '-',
                None => forall|k: int| 0 <= k < i ==> cs@[k] != '-',
            },
        decreases cs.len() - i,
    {
        if cs[i] == ':' {
            colon = Some(i);
        } else if cs[i] == '-' {
            hyphen = Some(i);
        }
        i += 1;
    }
    match (colon, hyphen) {
        (Some(c), Some(h)) => {
            assert(is_mac_sep(cs@[c as int]) && is_mac_sep(cs@[h as int]));
            false
        },
        _ => true,
    }
}

/// Reads a MAC: six times two hexadecimal digits, between colons or between hyphens. Any
/// other text is none.
pub fn parse_mac_bytes(mac: &str) -> (r: Option<[u8; 6]>)
    ensures
        match r {
            Some(b) => mac_bytes(mac@) == Some(b@),
            None => mac_bytes(mac@) is None,
        },
{
    let cs = text::chars_of(mac);
    let parts = split_mac(&cs);
    let ghost all = mac_parts(mac@);
    if !has_one_separator(&cs) || parts.len() != 6 {
        return None;
    }
    let mut out: [u8; 6] = [0u8; 6];
    let mut i: usize = 0;
    while i < 6
        invariant
            i <= 6,
            parts.len() == 6,
            one_separator(mac@),
            all == mac_parts(mac@),
            all == char_views(parts@),
            forall|k: int| 0 <= k < i ==> hex_byte(#[trigger] all[k]) == Some(out@[k]),
        decreases 6 - i,
    {
        assert(all[i as int] == parts@[i as int]@);
        match read_hex_byte(&parts[i]) {
            Some(b) => {
                out[i] = b;
            },
            None => {
                return None;
            },
        }
        i += 1;
    }
    assert(out@ =~= mac_bytes(mac@)->0);
    Some(out)
}

proof fn lemma_hex_of_byte(b: u8)
    ensures
        hex_byte(text::low_hex2(b)) == Some(b),
        forall|i: int| 0 <= i < 2 ==> !is_mac_sep(#[trigger] text::low_hex2(b)[i]),
{
    let s = text::low_hex2(b);
    let hi = b as int / 16;
    let lo = b as int % 16;
    assert(s.len() == 2 && s[0] == text::low_hex_digit(hi) && s[1] == text::low_hex_digit(lo));
    assert(hex_digit_value(s[0]) == Some(hi));
    assert(hex_digit_value(s[1]) == Some(lo));
    assert(hi * 16 + lo == b);
}

/// The parts of a text that goes on with a byte, after its last separator.
proof fn lemma_parts_with_byte(s: Seq<char>, b: u8)
    requires
        mac_parts(s).len() > 0,
        mac_parts(s).last().len() == 0,
    ensures
        mac_parts(s + text::low_hex2(b)) == mac_parts(s).drop_last().push(text::low_hex2(b)),
{
    lemma_hex_of_byte(b);
    let h = text::low_hex2(b);
    let one = s.push(h[0]);
    let two = one.push(h[1]);
    assert(s + h =~= two);
    assert(one.drop_last() =~= s);
    assert(two.drop_last() =~= one);
    let p = mac_parts(s);
    assert(mac_parts(one) == p.drop_last().push(p.last().push(h[0])));
    assert(mac_parts(one).drop_last() =~= p.drop_last());
    assert(p.last().push(h[0]).push(h[1]) =~= h);
}

/// The parts of a text that goes on with a separator.
proof fn lemma_parts_with_sep(s: Seq<char>)
    ensures
        mac_parts(s + seq![':']) == mac_parts(s).push(Seq::<char>::empty()),
{
    assert((s + seq![':']).drop_last() =~= s);
    assert((s + seq![':']).last() == ':');
}

/// A MAC that is written is read back.
pub proof fn law_mac_reads_back(m: Seq<u8>)
    requires
        m.len() == 6,
    ensures
        mac_bytes(arp::mac_text(m)) == Some(m),
{
    let e = Seq::<char>::empty();
    let h = |i: int| text::low_hex2(m[i]);
    assert(mac_parts(e) =~= seq![e]);
    let s0 = e + h(0);
    lemma_parts_with_byte(e, m[0]);
    assert(s0 =~= h(0));
    lemma_parts_with_sep(s0);
    let t0 = s0 + seq![':'];
    lemma_parts_with_byte(t0, m[1]);
    let s1 = t0 + h(1);
    lemma_parts_with_sep(s1);
    let t1 = s1 + seq![':'];
    lemma_parts_with_byte(t1, m[2]);
    let s2 = t1 + h(2);
    lemma_parts_with_sep(s2);
    let t2 = s2 + seq![':'];
    lemma_parts_with_byte(t2, m[3]);
    let s3 = t2 + h(3);
    lemma_parts_with_sep(s3);
    let t3 = s3 + seq![':'];
    lemma_parts_with_byte(t3, m[4]);
    let s4 = t3 + h(4);
    lemma_parts_with_sep(s4);
    let t4 = s4 + seq![':'];
    lemma_parts_with_byte(t4, m[5]);
    let s5 = t4 + h(5);
    assert(s5 =~= arp::mac_text(m));
    assert forall|i: int| 0 <= i < s5.len() && is_mac_sep(#[trigger] s5[i]) implies s5[i] == ':' by {
        lemma_hex_of_byte(m[i / 3]);
        if i % 3 < 2 {
            assert(s5[i] == text::low_hex2(m[i / 3])[i % 3]);
        }
    }
    let p = mac_parts(s5);
    assert(p =~= seq![h(0), h(1), h(2), h(3), h(4), h(5)]);
    assert forall|i: int| 0 <= i < 6 implies hex_byte(#[trigger] p[i]) == Some(m[i]) by {
        lemma_hex_of_byte(m[i]);
    }
    assert(mac_bytes(s5)->0 =~= m);
}

/// The addresses that parse.
pub open spec fn addresses_of(ips: Seq<IpInfo>) -> Seq<Ipv4Addr> {
    ips.filter_map(|ip: IpInfo| net::parsed(ip.address@))
}

/// The addresses of an adapter that parse.
pub fn get_interface_ips(ips: &Vec<IpInfo>) -> (r: Vec<Ipv4Addr>)
    ensures
        r@ == addresses_of(ips@),
{
    let ghost f = |ip: IpInfo| net::parsed(ip.address@);
    let ghost all = ips@;
    let mut r: Vec<Ipv4Addr> = Vec::new();
    let mut i: usize = 0;
    assert(all.take(0) =~= Seq::empty());
    assert(r@ =~= all.take(0).filter_map(f));
    while i < ips.len()
        invariant
            i <= ips.len(),
            all == ips@,
            f == (|ip: IpInfo| net::parsed(ip.address@)),
            r@ == all.take(i as int).filter_map(f),
        decreases ips.len() - i,
    {
        proof {
            all.lemma_filter_map_take_succ(f, i as int);
        }
        if let Some(ip) = Ipv4Addr::parse(ips[i].address.as_str()) {
            r.push(ip);
        }
        i += 1;
    }
    assert(all.take(i as int) =~= all);
    r
}

/// The hosts of the address's /24, each with the address as its source.
pub open spec fn swept(source: Seq<char>) -> Seq<(Seq<char>, Ipv4Addr)> {
    match net::parsed(source) {
        Some(ip) => Seq::new(
            254,
            |i: int| (source, auto_adopt::with_last(ip, (i + 1) as u8)),
        ),
        None => Seq::empty(),
    }
}

/// The pings of a sweep: for each address in turn, all hosts of its /24.
pub open spec fn sweep(ips: Seq<Seq<char>>) -> Seq<(Seq<char>, Ipv4Addr)>
    decreases ips.len(),
{
    if ips.len() == 0 {
        Seq::empty()
    } else {
        sweep(ips.drop_last()) + swept(ips.last())
    }
}

/// Sources and targets, as text.
pub open spec fn ping_views(s: Seq<(String, Ipv4Addr)>) -> Seq<(Seq<char>, Ipv4Addr)> {
    s.map_values(|e: (String, Ipv4Addr)| (e.0@, e.1))
}

/// The pings that make the hosts on the adapter's subnets answer: for each address that
/// parses, the hosts 1 to 254 of its /24, sent from that address.
pub fn ping_sweep_subnets(interface_ips: &Vec<String>) -> (r: Vec<(String, Ipv4Addr)>)
    ensures
        ping_views(r@) == sweep(text::views(interface_ips@)),
{
    let ghost all = text::views(interface_ips@);
    let mut r: Vec<(String, Ipv4Addr)> = Vec::new();
    let mut i: usize = 0;
    assert(all.take(0) =~= Seq::empty());
    assert(ping_views(r@) =~= sweep(all.take(0)));
    while i < interface_ips.len()
        invariant
            i <= interface_ips.len(),
            all == text::views(interface_ips@),
            ping_views(r@) == sweep(all.take(i as int)),
        decreases interface_ips.len() - i,
    {
        let source = &interface_ips[i];
        let ghost start = ping_views(r@);
        proof {
            assert(all.take(i + 1).drop_last() =~= all.take(i as int));
            assert(all.take(i + 1).last() == source@);
        }
        match Ipv4Addr::parse(source.as_str()) {
            Some(ip) => {
                let ghost hosts = swept(source@);
                let mut last: u8 = 1;
                assert(ping_views(r@) =~= start + hosts.take(0));
                while last < 255
                    invariant
                        1 <= last <= 255,
                        hosts == swept(source@),
                        net::parsed(source@) == Some(ip),
                        ping_views(r@) == start + hosts.take(last - 1),
                    decreases 255 - last,
                {
                    let ghost before = r@;
                    let target = Ipv4Addr::new(ip.a, ip.b, ip.c, last);
                    r.push((source.clone(), target));
                    proof {
                        hosts.lemma_take_succ_push(last - 1);
                        assert(hosts[last - 1] == (source@, target));
                        assert(ping_views(r@) =~= ping_views(before).push((source@, target)));
                        assert(ping_views(r@) =~= start + hosts.take(last as int));
                    }
                    last += 1;
                }
                assert(hosts.take(last - 1) =~= hosts);
            },
            None => {
                assert(ping_views(r@) =~= start + swept(source@));
            },
        }
        i += 1;
    }
    assert(all.take(i as int) =~= all);
    r
}

/// The pauses before the sweeps of a subnet that was just adopted, in milliseconds. A new
/// address is not usable at once, and devices miss a first call.
pub open spec fn sweep_delays() -> Seq<u64> {
    seq![1500u64, 5000, 12000]
}

/// The pause before a sweep of a subnet that was just adopted, by the number of sweeps
/// before it; nothing where there is none left, or where the session is over.
pub fn sweep_delay(pass: usize, session_over: bool) -> (r: Option<u64>)
    ensures
        r == if !session_over && pass < sweep_delays().len() {
            Some(sweep_delays()[pass as int])
        } else {
            None
        },
{
    if session_over {
        None
    } else if pass == 0 {
        Some(1500)
    } else if pass == 1 {
        Some(5000)
    } else if pass == 2 {
        Some(12000)
    } else {
        None
    }
}

/// The subnets that are being scanned.
pub struct ActiveScans {
    subnets: TextSet,
}

impl View for ActiveScans {
    type V = Set<Seq<char>>;

    closed spec fn view(&self) -> Set<Seq<char>> {
        self.subnets@
    }
}

impl ActiveScans {
    pub fn new() -> (r: ActiveScans)
        ensures
            r@ == Set::<Seq<char>>::empty(),
    {
        ActiveScans { subnets: TextSet::new() }
    }

    /// Marks the subnet as being scanned; refused where it is already.
    pub fn begin(&mut self, subnet: &str) -> (r: Result<(), AppError>)
        ensures
            r is Ok <==> !old(self)@.contains(subnet@),
            r matches Err(e) ==> e.text() == "Scan already in progress for "@ + subnet@,
            final(self)@ == old(self)@.insert(subnet@),
    {
        if self.subnets.insert(String::from_str(subnet)) {
            return Ok(());
        }
        let mut e = String::from_str("Scan already in progress for ");
        e.append(subnet);
        Err(AppError::Network(e))
    }

    /// The scan of the subnet is over.
    pub fn finish(&mut self, subnet: &str)
        ensures
            final(self)@ == old(self)@.remove(subnet@),
    {
        let _ = self.subnets.remove(subnet);
    }

    /// Whether the subnet is being scanned.
    pub fn contains(&self, subnet: &str) -> (r: bool)
        ensures
            r == self@.contains(subnet@),
    {
        self.subnets.contains(subnet)
    }
}

/// Whether some pinned device lies in the subnet: one of the registry, or one that is
/// only configured.
pub open spec fn holds_pin(
    records: Seq<RecordView>,
    pins: Set<Seq<char>>,
    subnet: Seq<char>,
) -> bool {
    ||| exists|i: int|
        0 <= i < pinned_addresses(records, pins).len() && net::subnet_key(
            #[trigger] pinned_addresses(records, pins)[i],
        ) == subnet
    ||| exists|p: Seq<char>|
        #[trigger] pins.contains(p) && net::is_dotted(p) && net::subnet_key(net::parsed(p)->0)
            == subnet
}

/// The addresses of the pinned records.
pub open spec fn pinned_addresses(records: Seq<RecordView>, pins: Set<Seq<char>>) -> Seq<Ipv4Addr> {
    records.filter_map(device_registry::pinned_ip(pins))
}

/// Whether a pinned device lies in the subnet.
pub fn is_subnet_pinned(registry: &DeviceRegistry, pins: &TextSet, subnet: &str) -> (r: bool)
    ensures
        r == holds_pin(registry@, pins@, subnet@),
{
    let ips = registry.user_pinned_ips(pins);
    let mut i: usize = 0;
    while i < ips.len()
        invariant
            i <= ips.len(),
            ips@ == pinned_addresses(registry@, pins@),
            forall|k: int| 0 <= k < i ==> net::subnet_key(#[trigger] ips@[k]) != subnet@,
        decreases ips.len() - i,
    {
        let key = net::subnet_key_for(ips[i]);
        if text::same(key.as_str(), subnet) {
            assert(net::subnet_key(pinned_addresses(registry@, pins@)[i as int]) == subnet@);
            return true;
        }
        i += 1;
    }
    let n: usize = pins.len();
    let mut j: usize = 0;
    while j < n
        invariant
            j <= n,
            n == pins.members().len(),
            pins.members().to_set() == pins@,
            forall|k: int|
                0 <= k < j && net::is_dotted(#[trigger] pins.members()[k]) ==> net::subnet_key(
                    net::parsed(pins.members()[k])->0,
                ) != subnet@,
        decreases n - j,
    {
        let p = pins.at(j);
        if let Some(ip) = Ipv4Addr::parse(p.as_str()) {
            let key = net::subnet_key_for(ip);
            if text::same(key.as_str(), subnet) {
                return true;
            }
        }
        j += 1;
    }
    proof {
        assert forall|p: Seq<char>| #[trigger]
            pins@.contains(p) && net::is_dotted(p) implies net::subnet_key(net::parsed(p)->0)
            != subnet@ by {
            assert(pins.members().to_set().contains(p));
            let k = pins.members().index_of(p);
            assert(pins.members()[k] == p);
        }
    }
    false
}

/// How long a reading of the DHCP state is good for, in seconds.
pub const DHCP_CACHE_TTL: u64 = 5;

/// A reading, while it is good.
pub open spec fn good_reading(cached: Option<(bool, Instant)>, now: Instant) -> Option<bool> {
    match cached {
        Some((dhcp, at)) => if now.since_spec(at).nanos <= DHCP_CACHE_TTL * time::NANOS_PER_SEC {
            Some(dhcp)
        } else {
            None
        },
        None => None,
    }
}

/// The last reading of the adapter's DHCP state.
pub struct DhcpGate {
    pub cached: Option<(bool, Instant)>,
}

impl DhcpGate {
    pub fn new() -> (r: DhcpGate)
        ensures
            r.cached is None,
    {
        DhcpGate { cached: None }
    }

    /// The last reading, while it is good.
    pub fn current(&self, now: Instant) -> (r: Option<bool>)
        ensures
            r == good_reading(self.cached, now),
    {
        match self.cached {
            Some((dhcp, at)) => if now.since(at).nanos <= DHCP_CACHE_TTL as u128
                * time::NANOS_PER_SEC {
                Some(dhcp)
            } else {
                None
            },
            None => None,
        }
    }

    /// Takes a new reading. One that failed counts as static, so that adoption goes on,
    /// and is kept as long as another one.
    pub fn note(&mut self, reading: Option<bool>, now: Instant) -> (r: bool)
        ensures
            r == (reading == Some(true)),
            final(self).cached == Some((r, now)),
    {
        let dhcp = match reading {
            Some(d) => d,
            None => false,
        };
        self.cached = Some((dhcp, now));
        dhcp
    }
}

/// Whether the adapter has an address that is not link-local.
pub open spec fn has_lease(current_ips: Seq<Ipv4Addr>) -> bool {
    exists|i: int| 0 <= i < current_ips.len() && !(#[trigger] current_ips[i]).link_local()
}

/// Whether adoption pauses: the adapter is on DHCP and has a lease. Without a lease
/// adoption is the only way to a connection, and goes on.
pub fn adoption_paused(is_dhcp: bool, current_ips: &Vec<Ipv4Addr>) -> (r: bool)
    ensures
        r == (is_dhcp && has_lease(current_ips@)),
{
    if !is_dhcp {
        return false;
    }
    let mut i: usize = 0;
    while i < current_ips.len()
        invariant
            i <= current_ips.len(),
            is_dhcp,
            forall|k: int| 0 <= k < i ==> (#[trigger] current_ips@[k]).link_local(),
        decreases current_ips.len() - i,
    {
        if !current_ips[i].is_link_local() {
            assert(!current_ips@[i as int].link_local());
            return true;
        }
        i += 1;
    }
    false
}

/// How long a list of ghost networks is good for, in seconds.
pub const GHOST_NETS_TTL: u64 = 30;

/// Whether a list of that age is still good.
pub open spec fn good_list(read_at: Option<Instant>, now: Instant) -> bool {
    match read_at {
        Some(at) => !now.since_spec(at).reaches_spec(GHOST_NETS_TTL),
        None => false,
    }
}

/// The last list of ghost networks.
pub struct GhostCache {
    pub read_at: Option<Instant>,
    pub networks: Vec<Ipv4Network>,
}

impl GhostCache {
    pub fn new() -> (r: GhostCache)
        ensures
            r.read_at is None,
            r.networks@.len() == 0,
    {
        GhostCache { read_at: None, networks: Vec::new() }
    }

    /// Whether the list is still good.
    pub fn is_fresh(&self, now: Instant) -> (r: bool)
        ensures
            r == good_list(self.read_at, now),
    {
        match self.read_at {
            Some(at) => !now.since(at).reaches(GHOST_NETS_TTL),
            None => false,
        }
    }

    /// Takes a new list.
    pub fn note(&mut self, networks: Vec<Ipv4Network>, now: Instant)
        ensures
            final(self).read_at == Some(now),
            final(self).networks == networks,
    {
        self.read_at = Some(now);
        self.networks = networks;
    }
}

/// How long a capture that was started has to deliver a frame, in seconds.
pub const WATCH_WINDOW: u64 = 10;

/// The pause between two looks at the capture, in seconds.
pub const WATCH_POLL: u64 = 2;

/// How long a degraded capture is watched, in seconds.
pub const WATCH_MAX: u64 = 300;

/// What follows a window in which the capture delivered nothing.
#[derive(Clone, Copy, Debug, PartialEq, Eq, Structural)]
pub enum LadderStep {
    /// Start the capture again, scoped like this.
    Restart(CaptureMode),
    /// Tell the user: starting again did not help.
    Degraded,
}

/// What follows a quiet window after so many restarts.
pub open spec fn ladder(restarts: u8) -> LadderStep {
    if restarts == 0 {
        LadderStep::Restart(CaptureMode::PreferScoped)
    } else if restarts == 1 {
        LadderStep::Restart(CaptureMode::ForcedUnscoped)
    } else {
        LadderStep::Degraded
    }
}

/// What follows a quiet window: the capture is started again as it was, then without its
/// scope, and only then is discovery degraded.
pub fn after_quiet(restarts: u8) -> (r: LadderStep)
    ensures
        r == ladder(restarts),
{
    if restarts == 0 {
        LadderStep::Restart(CaptureMode::PreferScoped)
    } else if restarts == 1 {
        LadderStep::Restart(CaptureMode::ForcedUnscoped)
    } else {
        LadderStep::Degraded
    }
}

/// Discovery is reported degraded only after the capture was started again and then
/// started again without its scope.
pub proof fn law_degraded_comes_last(restarts: u8)
    ensures
        ladder(restarts) is Degraded <==> restarts >= 2,
        ladder(0) == LadderStep::Restart(CaptureMode::PreferScoped),
        ladder(1) == LadderStep::Restart(CaptureMode::ForcedUnscoped),
{
}

/// Watches whether the capture delivers frames.
pub struct Watchdog {
    pub baseline: u64,
    /// How often the capture was started again.
    pub restarts: u8,
    /// Seconds since discovery was found degraded.
    pub waited: u64,
}

/// What a look at a quiet capture says.
#[derive(Clone, Copy, Debug, PartialEq, Eq, Structural)]
pub enum WatchStep {
    Recovered,
    Watching,
    GaveUp,
}

impl Watchdog {
    /// Watches from this many frames on.
    pub fn new(baseline: u64) -> (r: Watchdog)
        ensures
            r.baseline == baseline,
            r.restarts == 0,
            r.waited == 0,
    {
        Watchdog { baseline, restarts: 0, waited: 0 }
    }

    /// The end of a window: nothing where a frame came, else the next step, which counts
    /// where it is a restart.
    pub fn window_over(&mut self, frames_seen: u64) -> (r: Option<LadderStep>)
        ensures
            r == if frames_seen > old(self).baseline {
                None
            } else {
                Some(ladder(old(self).restarts))
            },
            *final(self) == (Watchdog {
                restarts: if r matches Some(LadderStep::Restart(_)) {
                    (old(self).restarts + 1) as u8
                } else {
                    old(self).restarts
                },
                ..*old(self)
            }),
    {
        if frames_seen > self.baseline {
            return None;
        }
        let step = after_quiet(self.restarts);
        if let LadderStep::Restart(_) = step {
            self.restarts = self.restarts + 1;
        }
        Some(step)
    }

    /// Another look at a quiet capture, one pause later.
    pub fn poll(&mut self, frames_seen: u64) -> (r: WatchStep)
        requires
            old(self).waited < WATCH_MAX,
        ensures
            final(self).baseline == old(self).baseline,
            final(self).restarts == old(self).restarts,
            final(self).waited == old(self).waited + WATCH_POLL,
            r == if frames_seen > old(self).baseline {
                WatchStep::Recovered
            } else if final(self).waited < WATCH_MAX {
                WatchStep::Watching
            } else {
                WatchStep::GaveUp
            },
    {
        self.waited = self.waited + WATCH_POLL;
        if frames_seen > self.baseline {
            WatchStep::Recovered
        } else if self.waited < WATCH_MAX {
            WatchStep::Watching
        } else {
            WatchStep::GaveUp
        }
    }
}

/// Takes a new reading of the host's addresses. An empty one is a failed reading, and
/// keeps the last.
pub fn refresh_local(local: &mut Vec<Ipv4Addr>, fresh: Vec<Ipv4Addr>)
    ensures
        final(local)@ == if fresh@.len() > 0 {
            fresh@
        } else {
            old(local)@
        },
{
    if fresh.len() > 0 {
        *local = fresh;
    }
}

/// A camera port that is up and has an address.
pub open spec fn is_camera_port(i: InterfaceInfo) -> bool {
    interface::wired_ethernet(i) && i.ips@.len() > 0
}

/// The place of the first camera port that is up and has an address.
pub fn camera_port(list: &Vec<InterfaceInfo>) -> (r: Option<usize>)
    ensures
        match r {
            Some(i) => i < list@.len() && is_camera_port(list@[i as int]) && forall|k: int|
                0 <= k < i ==> !is_camera_port(#[trigger] list@[k]),
            None => forall|k: int| 0 <= k < list@.len() ==> !is_camera_port(#[trigger] list@[k]),
        },
{
    let mut i: usize = 0;
    while i < list.len()
        invariant
            i <= list.len(),
            forall|k: int| 0 <= k < i ==> !is_camera_port(#[trigger] list@[k]),
        decreases list.len() - i,
    {
        if interface::is_wired_ethernet(&list[i]) && list[i].ips.len() > 0 {
            return Some(i);
        }
        i += 1;
    }
    None
}

/// What a change of the network mode asks for.
#[derive(Clone, Copy, Debug, PartialEq, Eq, Structural)]
pub enum ModeChange {
    /// Nothing changes.
    Same,
    /// Pin what was found, stop discovery, and list the pinned nodes alone.
    EnterManual,
    /// List the cached devices again, and start discovery again.
    LeaveManual,
    /// Only the reachability checks start over.
    Restart,
}

/// What a change of the network mode asks for.
pub fn mode_change(old_mode: NetworkMode, new_mode: NetworkMode) -> (r: ModeChange)
    ensures
        r == if old_mode == new_mode {
            ModeChange::Same
        } else if new_mode == NetworkMode::StaticManual {
            ModeChange::EnterManual
        } else if old_mode == NetworkMode::StaticManual {
            ModeChange::LeaveManual
        } else {
            ModeChange::Restart
        },
{
    if old_mode == new_mode {
        ModeChange::Same
    } else if new_mode == NetworkMode::StaticManual {
        ModeChange::EnterManual
    } else if old_mode == NetworkMode::StaticManual {
        ModeChange::LeaveManual
    } else {
        ModeChange::Restart
    }
}

/// Nodes as text: address and label.
pub open spec fn node_views(s: Seq<ManualNode>) -> Seq<(Seq<char>, Seq<char>)> {
    s.map_values(|n: ManualNode| (n.ip@, n.alias@))
}

/// The node that a record becomes when the user goes manual: a device that was really
/// found and has an open port.
pub open spec fn pin_of(r: RecordView) -> Option<(Seq<char>, Seq<char>)> {
    if device_registry::manual_prefix().is_prefix_of(r.mac) || r.open_ports.len() == 0 {
        None
    } else {
        Some((r.ip, r.alias))
    }
}

/// The nodes to pin when the user goes manual.
pub fn nodes_to_pin(snapshot: &Vec<DeviceRecord>) -> (r: Vec<ManualNode>)
    ensures
        node_views(r@) == text::views(snapshot@).filter_map(|x: RecordView| pin_of(x)),
{
    let ghost f = |x: RecordView| pin_of(x);
    let ghost all = text::views(snapshot@);
    let mut r: Vec<ManualNode> = Vec::new();
    let mut i: usize = 0;
    assert(all.take(0) =~= Seq::empty());
    assert(node_views(r@) =~= all.take(0).filter_map(f));
    while i < snapshot.len()
        invariant
            i <= snapshot.len(),
            all == text::views(snapshot@),
            f == (|x: RecordView| pin_of(x)),
            node_views(r@) == all.take(i as int).filter_map(f),
        decreases snapshot.len() - i,
    {
        let x = &snapshot[i];
        proof {
            assert(all[i as int] == x@);
            all.lemma_filter_map_take_succ(f, i as int);
        }
        if !device_registry::is_manual_key(x.mac.as_str()) && x.open_ports.len() > 0 {
            let ghost before = r@;
            let node = ManualNode { ip: x.ip.clone(), alias: x.alias.clone() };
            r.push(node);
            assert(node_views(r@) =~= node_views(before).push((x.ip@, x.alias@)));
        }
        i += 1;
    }
    assert(all.take(i as int) =~= all);
    r
}

/// The first record at an address.
pub open spec fn first_at(s: Seq<RecordView>, ip: Seq<char>) -> Option<RecordView>
    decreases s.len(),
{
    if s.len() == 0 {
        None
    } else if s[0].ip == ip {
        Some(s[0])
    } else {
        first_at(s.drop_first(), ip)
    }
}

/// A changed label to write to disk: to the pinned node at the address, and with the
/// whole row to the cache if the cache holds such devices.
pub struct AliasWrite {
    pub row: Option<CachedDevice>,
    pub ip: String,
    pub alias: String,
}

/// A changed label to write to disk, as text.
#[verifier::ext_equal]
pub struct AliasView {
    pub row: Option<CachedView>,
    pub ip: Seq<char>,
    pub alias: Seq<char>,
}

impl View for AliasWrite {
    type V = AliasView;

    open spec fn view(&self) -> AliasView {
        AliasView {
            row: match self.row {
                Some(d) => Some(d@),
                None => None,
            },
            ip: self.ip@,
            alias: self.alias@,
        }
    }
}

/// The row that the cache holds of a record: only devices with an open port are cached.
pub open spec fn cache_row(r: RecordView) -> Option<CachedView> {
    if r.open_ports.len() > 0 {
        Some(
            CachedView {
                mac: r.mac,
                ip: r.ip,
                subnet: r.subnet,
                open_ports: r.open_ports,
                alias: r.alias,
                last_seen: r.last_seen,
            },
        )
    } else {
        None
    }
}

/// What to write for a changed label at an address.
pub open spec fn alias_write(s: Seq<RecordView>) -> spec_fn(Seq<char>) -> Option<AliasView> {
    |ip: Seq<char>|
        match first_at(s, ip) {
            Some(r) => Some(AliasView { row: cache_row(r), ip, alias: r.alias }),
            None => None,
        }
}

fn find_at(snapshot: &Vec<DeviceRecord>, ip: &str) -> (r: Option<usize>)
    ensures
        match r {
            Some(i) => i < snapshot@.len() && first_at(text::views(snapshot@), ip@) == Some(
                snapshot@[i as int]@,
            ) && snapshot@[i as int].ip@ == ip@,
            None => first_at(text::views(snapshot@), ip@) is None,
        },
{
    let ghost all = text::views(snapshot@);
    let mut i: usize = 0;
    assert(all.skip(0) =~= all);
    while i < snapshot.len()
        invariant
            i <= snapshot.len(),
            all == text::views(snapshot@),
            first_at(all, ip@) == first_at(all.skip(i as int), ip@),
        decreases snapshot.len() - i,
    {
        assert(all.skip(i as int)[0] == snapshot@[i as int]@);
        assert(all.skip(i as int).drop_first() =~= all.skip(i + 1));
        if text::same(snapshot[i].ip.as_str(), ip) {
            return Some(i);
        }
        i += 1;
    }
    None
}

/// What to write to disk for labels that changed at these addresses. An address without
/// a record is passed over.
pub fn persist_alias_writethrough(snapshot: &Vec<DeviceRecord>, ips: &Vec<String>) -> (r: Vec<
    AliasWrite,
>)
    ensures
        text::views(r@) == text::views(ips@).filter_map(alias_write(text::views(snapshot@))),
{
    let ghost f = alias_write(text::views(snapshot@));
    let ghost all = text::views(ips@);
    let mut r: Vec<AliasWrite> = Vec::new();
    let mut i: usize = 0;
    assert(all.take(0) =~= Seq::empty());
    assert(text::views(r@) =~= all.take(0).filter_map(f));
    while i < ips.len()
        invariant
            i <= ips.len(),
            all == text::views(ips@),
            f == alias_write(text::views(snapshot@)),
            text::views(r@) == all.take(i as int).filter_map(f),
        decreases ips.len() - i,
    {
        let ip = &ips[i];
        proof {
            assert(all[i as int] == ip@);
            all.lemma_filter_map_take_succ(f, i as int);
        }
        if let Some(at) = find_at(snapshot, ip.as_str()) {
            let x = &snapshot[at];
            let row = if x.open_ports.len() > 0 {
                Some(
                    CachedDevice {
                        mac: x.mac.clone(),
                        ip: x.ip.clone(),
                        subnet: x.subnet.clone(),
                        open_ports: config::copy_ports(&x.open_ports),
                        alias: x.alias.clone(),
                        last_seen: x.last_seen.clone(),
                    },
                )
            } else {
                None
            };
            let w = AliasWrite { row, ip: ip.clone(), alias: x.alias.clone() };
            proof {
                text::lemma_views_push(r@, w);
            }
            r.push(w);
        }
        i += 1;
    }
    assert(all.take(i as int) =~= all);
    r
}

/// What came of filling the registry at the start.
pub struct HydrateReport {
    /// The cached rows to drop from disk: those turned away, then those that lost their
    /// address to a newer one.
    pub evict: Vec<String>,
    /// The addresses whose label changed.
    pub demoted: Vec<String>,
    pub changed: bool,
}

/// The MACs of rows that were turned away.
pub open spec fn reject_macs(s: Seq<(CachedView, CacheReject)>) -> Seq<Seq<char>> {
    s.map_values(|e: (CachedView, CacheReject)| e.0.mac)
}

/// The records after a repair of the labels.
pub open spec fn roles_repaired(s: Seq<RecordView>, camera_ip: Seq<char>) -> Seq<RecordView> {
    device_registry::after_role(
        device_registry::after_role(
            s,
            device_registry::role_label(device_registry::Role::Cam),
            Some(camera_ip),
        ),
        device_registry::role_label(device_registry::Role::Ptu),
        None,
    )
}

/// The addresses that lose a label in a repair.
pub open spec fn roles_demoted(s: Seq<RecordView>, camera_ip: Seq<char>) -> Seq<Seq<char>> {
    device_registry::role_demotions(
        s,
        device_registry::role_label(device_registry::Role::Cam),
        Some(camera_ip),
    ) + device_registry::role_demotions(
        device_registry::after_role(
            s,
            device_registry::role_label(device_registry::Role::Cam),
            Some(camera_ip),
        ),
        device_registry::role_label(device_registry::Role::Ptu),
        None,
    )
}

/// Fills the registry from the cache: rows in ghost subnets or at the host's own
/// addresses are turned away, then the labels are repaired.
pub fn hydrate_device_registry(
    registry: &mut DeviceRegistry,
    cached: &Vec<CachedDevice>,
    ghosts: &Vec<Ipv4Network>,
    local_ips: &Vec<Ipv4Addr>,
    camera_ip: &str,
) -> (r: HydrateReport)
    ensures
        ({
            let rows = text::views(cached@);
            let allowed = rows.filter(ghost::let_in(ghosts@, local_ips@));
            let rejected = reject_macs(rows.filter_map(ghost::turned_away(ghosts@, local_ips@)));
            let empty = old(registry)@.len() == 0;
            let filled = if empty {
                device_registry::hydrated(allowed)
            } else {
                old(registry)@
            };
            let lost = if empty {
                device_registry::contest(allowed).1
            } else {
                Seq::<Seq<char>>::empty()
            };
            &&& final(registry)@ == roles_repaired(filled, camera_ip@)
            &&& text::views(r.evict@) == rejected + lost
            &&& text::views(r.demoted@) == roles_demoted(filled, camera_ip@)
            &&& r.changed == (empty && (filled.len() > 0 || lost.len() > 0))
        }),
{
    let (allowed, rejected) = ghost::partition_cached(cached, ghosts, local_ips);
    let result = registry.hydrate_from_cache(&allowed);
    let mut evict: Vec<String> = Vec::new();
    let ghost macs = reject_macs(ghost::rejects(rejected@));
    let mut i: usize = 0;
    assert(text::views(evict@) =~= macs.take(0));
    while i < rejected.len()
        invariant
            i <= rejected.len(),
            macs == reject_macs(ghost::rejects(rejected@)),
            text::views(evict@) == macs.take(i as int),
        decreases rejected.len() - i,
    {
        let mac = rejected[i].0.mac.clone();
        proof {
            assert(macs[i as int] == mac@);
            macs.lemma_take_succ_push(i as int);
            text::lemma_views_push(evict@, mac);
        }
        evict.push(mac);
        i += 1;
    }
    assert(macs.take(i as int) =~= macs);
    let ghost lost = text::views(result.dropped_macs@);
    let mut j: usize = 0;
    assert(text::views(evict@) =~= macs + lost.take(0));
    while j < result.dropped_macs.len()
        invariant
            j <= result.dropped_macs.len(),
            lost == text::views(result.dropped_macs@),
            text::views(evict@) == macs + lost.take(j as int),
        decreases result.dropped_macs.len() - j,
    {
        let mac = result.dropped_macs[j].clone();
        proof {
            assert(lost[j as int] == mac@);
            lost.lemma_take_succ_push(j as int);
            text::lemma_views_push(evict@, mac);
            assert((macs + lost.take(j as int)).push(mac@) =~= macs + lost.take(j + 1));
        }
        evict.push(mac);
        j += 1;
    }
    assert(lost.take(j as int) =~= lost);
    proof {
        if old(registry)@.len() > 0 {
            assert(lost =~= Seq::<Seq<char>>::empty());
        }
    }
    let demoted = registry.normalize_role_duplicates(Some(camera_ip));
    HydrateReport { evict, demoted, changed: result.changed }
}

/// Fills in the nodes that the user pinned, then repairs the labels. Gives back the
/// addresses whose label changed, and whether the list is to be shown again.
pub fn hydrate_manual_nodes(
    registry: &mut DeviceRegistry,
    nodes: &Vec<ManualNode>,
    now: &str,
    camera_ip: &str,
) -> (r: (Vec<String>, bool))
    ensures
        nodes@.len() == 0 ==> final(registry)@ == old(registry)@ && r.0@.len() == 0 && !r.1,
        nodes@.len() > 0 ==> {
            let filled = device_registry::after_nodes(old(registry)@, nodes@, now@);
            &&& final(registry)@ == roles_repaired(filled, camera_ip@)
            &&& text::views(r.0@) == roles_demoted(filled, camera_ip@)
            &&& r.1 == (device_registry::nodes_change(old(registry)@, nodes@, now@) || r.0@.len()
                > 0)
        },
{
    if nodes.len() == 0 {
        return (Vec::new(), false);
    }
    let hydrated = registry.hydrate_manual_nodes(nodes, now);
    let demoted = registry.normalize_role_duplicates(Some(camera_ip));
    let show = hydrated || demoted.len() > 0;
    (demoted, show)
}

/// Going manual lists the pinned nodes alone: what was found is pinned, forgotten, and
/// filled in again from the pins.
pub fn enter_manual(
    registry: &mut DeviceRegistry,
    nodes: &Vec<ManualNode>,
    now: &str,
    camera_ip: &str,
) -> (r: (Vec<String>, bool))
    ensures
        ({
            let filled = device_registry::after_nodes(Seq::empty(), nodes@, now@);
            &&& nodes@.len() == 0 ==> final(registry)@.len() == 0 && r.0@.len() == 0 && !r.1
            &&& nodes@.len() > 0 ==> final(registry)@ == roles_repaired(filled, camera_ip@)
                && text::views(r.0@) == roles_demoted(filled, camera_ip@) && r.1 == (
            device_registry::nodes_change(Seq::empty(), nodes@, now@) || r.0@.len() > 0)
        }),
{
    let _ = registry.clear();
    hydrate_manual_nodes(registry, nodes, now, camera_ip)
}

/// Manual mode lists the pinned nodes alone: every record is the user's, and is at the
/// address of a pinned node.
pub proof fn law_manual_mode_lists_pins_alone(
    nodes: Seq<ManualNode>,
    now: Seq<char>,
    camera_ip: Seq<char>,
    i: int,
)
    requires
        0 <= i < roles_repaired(
            device_registry::after_nodes(Seq::empty(), nodes, now),
            camera_ip,
        ).len(),
    ensures
        ({
            let r = roles_repaired(
                device_registry::after_nodes(Seq::empty(), nodes, now),
                camera_ip,
            )[i];
            &&& r.mac == device_registry::manual_prefix() + r.ip
            &&& exists|k: int| 0 <= k < nodes.len() && (#[trigger] nodes[k]).ip@ == r.ip
        }),
{
    lemma_pins_alone(nodes, now, i);
}

proof fn lemma_pins_alone(nodes: Seq<ManualNode>, now: Seq<char>, i: int)
    requires
        0 <= i < device_registry::after_nodes(Seq::empty(), nodes, now).len(),
    ensures
        ({
            let r = device_registry::after_nodes(Seq::empty(), nodes, now)[i];
            &&& r.mac == device_registry::manual_prefix() + r.ip
            &&& exists|k: int| 0 <= k < nodes.len() && (#[trigger] nodes[k]).ip@ == r.ip
        }),
    decreases nodes.len(),
{
    if nodes.len() > 0 {
        let rest = nodes.drop_last();
        let before = device_registry::after_nodes(Seq::empty(), rest, now);
        let node = nodes.last();
        let after = device_registry::after_nodes(Seq::empty(), nodes, now);
        let r = after[i];
        if device_registry::has_ip(before, node.ip@) {
            lemma_pins_alone(rest, now, i);
            let k = choose|k: int| 0 <= k < rest.len() && (#[trigger] rest[k]).ip@ == before[i].ip;
            assert(nodes[k].ip@ == r.ip);
        } else {
            let keep = device_registry::mac_is_not(device_registry::manual_prefix() + node.ip@);
            let f = before.filter(keep);
            if i < f.len() {
                assert(f.contains(f[i]));
                before.lemma_filter_contains_rev(keep, f[i]);
                let j = before.index_of(f[i]);
                lemma_pins_alone(rest, now, j);
                let k = choose|k: int|
                    0 <= k < rest.len() && (#[trigger] rest[k]).ip@ == before[j].ip;
                assert(nodes[k].ip@ == r.ip);
            } else {
                assert(nodes[nodes.len() - 1].ip@ == r.ip);
            }
        }
    }
}

/// Which discovery session runs, if one does.
pub struct DiscoveryState {
    pub generation: u64,
    pub active: bool,
    pub started: Option<Instant>,
}

impl DiscoveryState {
    /// No session has run yet.
    pub fn new() -> (r: DiscoveryState)
        ensures
            r.generation == 0,
            !r.active,
            r.started is None,
    {
        DiscoveryState { generation: 0, active: false, started: None }
    }

    /// A new session begins. Gives the fence by which its work can tell that it is over.
    pub fn start(&mut self, now: Instant) -> (r: SweepFence)
        requires
            old(self).generation < u64::MAX,
        ensures
            final(self).generation == old(self).generation + 1,
            final(self).active,
            final(self).started == Some(now),
            r.generation == final(self).generation,
    {
        self.generation = self.generation + 1;
        self.active = true;
        self.started = Some(now);
        SweepFence::new(self.generation)
    }

    /// The session is over.
    pub fn stop(&mut self)
        ensures
            final(self).generation == old(self).generation,
            !final(self).active,
            final(self).started is None,
    {
        self.active = false;
        self.started = None;
    }

    /// How long the session has run; zero where none runs.
    pub fn session_elapsed(&self, now: Instant) -> (r: Duration)
        ensures
            r == match self.started {
                Some(t) => now.since_spec(t),
                None => Duration { nanos: 0 },
            },
    {
        match self.started {
            Some(t) => now.since(t),
            None => Duration { nanos: 0 },
        }
    }

    /// Whether the work behind a fence belongs to a session that is over.
    pub fn is_over(&self, fence: &SweepFence) -> (r: bool)
        ensures
            r == lifecycle::stale(fence.generation, self.generation, self.active),
    {
        fence.is_stale(self.generation, self.active)
    }
}

/// The work of a session is cut off by its stop and by the start of the next one, and by
/// nothing before.
pub proof fn law_fence_holds_for_its_session(fence: u64, current: u64, active: bool)
    ensures
        !lifecycle::stale(fence, fence, true),
        lifecycle::stale(fence, current, false),
        fence < current ==> lifecycle::stale(fence, current, active),
{
}

/// How a MAC is spelled plays no part: with colons or dashes, in small letters or
/// capitals, it reads as the same bytes.
pub proof fn law_spellings_of_a_mac_read_alike(x: Seq<char>, y: Seq<char>)
    requires
        x.len() == y.len(),
        one_separator(x) == one_separator(y),
        forall|i: int|
            0 <= i < x.len() ==> if is_mac_sep(#[trigger] x[i]) {
                is_mac_sep(y[i])
            } else {
                !is_mac_sep(y[i]) && text::ascii_low(x[i]) == text::ascii_low(y[i])
            },
    ensures
        mac_bytes(x) == mac_bytes(y),
{
    lemma_parts_alike(x, y);
    let (p, q) = (mac_parts(x), mac_parts(y));
    assert forall|i: int| 0 <= i < p.len() implies hex_byte(#[trigger] p[i]) == hex_byte(q[i]) by {
        if p[i].len() == 2 {
            assert(text::ascii_low(p[i][0]) == text::ascii_low(q[i][0]));
            assert(text::ascii_low(p[i][1]) == text::ascii_low(q[i][1]));
            lemma_hex_alike(p[i][0], q[i][0]);
            lemma_hex_alike(p[i][1], q[i][1]);
        }
    }
    if mac_bytes(x) is Some {
        assert forall|i: int| 0 <= i < 6 implies hex_byte(#[trigger] q[i]) is Some by {
            assert(hex_byte(p[i]) is Some);
        }
        assert(mac_bytes(x)->0 =~= mac_bytes(y)->0);
    }
    if mac_bytes(y) is Some {
        assert forall|i: int| 0 <= i < 6 implies hex_byte(#[trigger] p[i]) is Some by {
            assert(hex_byte(q[i]) is Some);
        }
    }
}

proof fn lemma_hex_alike(a: char, b: char)
    requires
        text::ascii_low(a) == text::ascii_low(b),
    ensures
        hex_digit_value(a) == hex_digit_value(b),
{
}

proof fn lemma_parts_alike(x: Seq<char>, y: Seq<char>)
    requires
        x.len() == y.len(),
        forall|i: int|
            0 <= i < x.len() ==> if is_mac_sep(#[trigger] x[i]) {
                is_mac_sep(y[i])
            } else {
                !is_mac_sep(y[i]) && text::ascii_low(x[i]) == text::ascii_low(y[i])
            },
    ensures
        mac_parts(x).len() == mac_parts(y).len(),
        mac_parts(x).len() > 0,
        forall|i: int|
            0 <= i < mac_parts(x).len() ==> (#[trigger] mac_parts(x)[i]).len() == mac_parts(
                y,
            )[i].len(),
        forall|i: int, k: int|
            0 <= i < mac_parts(x).len() && 0 <= k < mac_parts(x)[i].len() ==> text::ascii_low(
                #[trigger] mac_parts(x)[i][k],
            ) == text::ascii_low(mac_parts(y)[i][k]),
    decreases x.len(),
{
    if x.len() > 0 {
        let (a, b) = (x.drop_last(), y.drop_last());
        assert forall|i: int| 0 <= i < a.len() implies if is_mac_sep(#[trigger] a[i]) {
            is_mac_sep(b[i])
        } else {
            !is_mac_sep(b[i]) && text::ascii_low(a[i]) == text::ascii_low(b[i])
        } by {
            assert(a[i] == x[i]);
        }
        lemma_parts_alike(a, b);
        let (p, q) = (mac_parts(a), mac_parts(b));
        let last = x.len() - 1;
        assert(x[last] == x.last() && y[last] == y.last());
        let (r, s) = (mac_parts(x), mac_parts(y));
        assert forall|i: int, k: int| 0 <= i < r.len() && 0 <= k < r[i].len() implies text::ascii_low(
            #[trigger] r[i][k],
        ) == text::ascii_low(s[i][k]) by {
            if is_mac_sep(x.last()) {
                assert(i < p.len());
                assert(r[i] == p[i] && s[i] == q[i]);
                assert(text::ascii_low(p[i][k]) == text::ascii_low(q[i][k]));
            } else if i < p.len() - 1 {
                assert(r[i] == p[i] && s[i] == q[i]);
                assert(text::ascii_low(p[i][k]) == text::ascii_low(q[i][k]));
            } else {
                assert(i == p.len() - 1);
                if k < p[i].len() {
                    assert(text::ascii_low(p[i][k]) == text::ascii_low(q[i][k]));
                }
            }
        }
        assert forall|i: int| 0 <= i < r.len() implies (#[trigger] r[i]).len() == s[i].len() by {
            if i < p.len() {
                assert(p[i].len() == q[i].len());
            }
        }
    }
}

/// The adapter's addresses are those that parse, in order, and no other.
pub proof fn law_which_addresses_an_adapter_has(ips: Seq<IpInfo>, x: Ipv4Addr)
    ensures
        addresses_of(ips).contains(x) <==> exists|i: int|
            0 <= i < ips.len() && (#[trigger] ips[i]).address@ == net::dotted(x),
{
    let f = |ip: IpInfo| net::parsed(ip.address@);
    assert(addresses_of(ips) == ips.filter_map(f));
    text::lemma_filter_mapped(ips, f, x);
    net::law_parse_of_text(x);
    if addresses_of(ips).contains(x) {
        let i = choose|i: int| 0 <= i < ips.len() && f(#[trigger] ips[i]) == Some(x);
        assert(ips[i].address@ == net::dotted(x));
    }
    if exists|i: int| 0 <= i < ips.len() && (#[trigger] ips[i]).address@ == net::dotted(x) {
        let i = choose|i: int| 0 <= i < ips.len() && (#[trigger] ips[i]).address@ == net::dotted(x);
        assert(f(ips[i]) == Some(x));
    }
}

/// A sweep pings, from each address, every host of its /24 that ends in 1 to 254.
pub proof fn law_whom_a_sweep_pings(
    ips: Seq<Seq<char>>,
    source: Seq<char>,
    own: Ipv4Addr,
    target: Ipv4Addr,
)
    requires
        source == net::dotted(own),
    ensures
        sweep(ips).contains((source, target)) <==> ips.contains(source) && target.a == own.a
            && target.b == own.b && target.c == own.c && 1 <= target.d <= 254,
    decreases ips.len(),
{
    net::law_parse_of_text(own);
    let e = (source, target);
    let here = swept(source);
    if target.a == own.a && target.b == own.b && target.c == own.c && 1 <= target.d <= 254 {
        assert(here[target.d - 1] == e);
    }
    if ips.len() > 0 {
        let rest = ips.drop_last();
        law_whom_a_sweep_pings(rest, source, own, target);
        let (x, y) = (sweep(rest), swept(ips.last()));
        assert(sweep(ips) == x + y);
        if x.contains(e) {
            assert((x + y)[x.index_of(e)] == e);
        }
        if y.contains(e) {
            assert((x + y)[x.len() + y.index_of(e)] == e);
        }
        if (x + y).contains(e) {
            let i = (x + y).index_of(e);
            if i < x.len() {
                assert(x[i] == e);
            } else {
                assert(y[i - x.len()] == e);
                assert(ips.last() == source);
            }
        }
        if rest.contains(source) {
            assert(ips[rest.index_of(source)] == source);
        }
        if ips.contains(source) && !rest.contains(source) {
            let i = ips.index_of(source);
            if i < rest.len() {
                assert(rest[i] == source);
            }
            assert(ips.last() == source);
        }
        if ips.last() == source {
            assert(ips[ips.len() - 1] == source);
        }
    }
}

/// An adopted subnet is swept after a second and a half, five seconds and twelve seconds.
pub proof fn law_when_an_adopted_subnet_is_swept()
    ensures
        sweep_delays().len() == 3,
        sweep_delays()[0] == 1500,
        sweep_delays()[1] == 5000,
        sweep_delays()[2] == 12000,
{
}

/// A subnet holds a pin exactly when a device that the user keeps, or a configured
/// address, is on it.
pub proof fn law_when_a_subnet_holds_a_pin(
    records: Seq<RecordView>,
    pins: Set<Seq<char>>,
    subnet: Seq<char>,
)
    ensures
        holds_pin(records, pins, subnet) <==> {
            ||| exists|i: int, x: Ipv4Addr|
                0 <= i < records.len() && (#[trigger] records[i]).ip == #[trigger] net::dotted(x)
                    && net::subnet_key(x) == subnet && device_registry::pinned(
                    records[i].mac,
                    records[i].alias,
                    records[i].ip,
                    pins,
                )
            ||| exists|x: Ipv4Addr| #[trigger]
                pins.contains(net::dotted(x)) && net::subnet_key(x) == subnet
        },
{
    let all = pinned_addresses(records, pins);
    if exists|i: int| 0 <= i < all.len() && net::subnet_key(#[trigger] all[i]) == subnet {
        let i = choose|i: int| 0 <= i < all.len() && net::subnet_key(#[trigger] all[i]) == subnet;
        let x = all[i];
        assert(all.contains(x));
        device_registry::law_pinned_addresses(records, pins, x);
        let k = choose|k: int|
            0 <= k < records.len() && (#[trigger] records[k]).ip == net::dotted(x)
                && device_registry::pinned(
                records[k].mac,
                records[k].alias,
                records[k].ip,
                pins,
            );
        assert(records[k].ip == net::dotted(x));
    }
    if exists|p: Seq<char>|
        #[trigger] pins.contains(p) && net::is_dotted(p) && net::subnet_key(net::parsed(p)->0)
            == subnet {
        let p = choose|p: Seq<char>|
            #[trigger] pins.contains(p) && net::is_dotted(p) && net::subnet_key(net::parsed(p)->0)
                == subnet;
        let x = net::parsed(p)->0;
        assert(net::dotted(x) == p);
        assert(pins.contains(net::dotted(x)));
    }
    if exists|i: int, x: Ipv4Addr|
        0 <= i < records.len() && (#[trigger] records[i]).ip == #[trigger] net::dotted(x)
            && net::subnet_key(x) == subnet && device_registry::pinned(
            records[i].mac,
            records[i].alias,
            records[i].ip,
            pins,
        ) {
        let (i, x) = choose|i: int, x: Ipv4Addr|
            0 <= i < records.len() && (#[trigger] records[i]).ip == #[trigger] net::dotted(x)
                && net::subnet_key(x) == subnet && device_registry::pinned(
                records[i].mac,
                records[i].alias,
                records[i].ip,
                pins,
            );
        device_registry::law_pinned_addresses(records, pins, x);
        let k = all.index_of(x);
        assert(net::subnet_key(all[k]) == subnet);
    }
    if exists|x: Ipv4Addr| #[trigger] pins.contains(net::dotted(x)) && net::subnet_key(x) == subnet {
        let x = choose|x: Ipv4Addr| #[trigger]
            pins.contains(net::dotted(x)) && net::subnet_key(x) == subnet;
        net::law_parse_of_text(x);
        assert(net::is_dotted(net::dotted(x)));
    }
}

/// A reading of the DHCP state is good for five seconds, a list of the networks off the
/// wire for thirty.
pub proof fn law_how_long_readings_are_good(dhcp: bool, at: Instant, now: Instant)
    ensures
        good_reading(Some((dhcp, at)), now) == if now.nanos <= at.nanos + 5_000_000_000 {
            Some(dhcp)
        } else {
            None
        },
        good_reading(None, now) is None,
        good_list(Some(at), now) <==> now.nanos < at.nanos + 30_000_000_000,
        !good_list(None, now),
{
}

/// An adapter has a lease exactly when one of its addresses is not link-local.
pub proof fn law_what_is_a_lease(current_ips: Seq<Ipv4Addr>)
    ensures
        has_lease(current_ips) <==> exists|x: Ipv4Addr| #[trigger]
            current_ips.contains(x) && !(x.a == 169 && x.b == 254),
{
    if has_lease(current_ips) {
        let i = choose|i: int|
            0 <= i < current_ips.len() && !(#[trigger] current_ips[i]).link_local();
        assert(current_ips.contains(current_ips[i]));
    }
    if exists|x: Ipv4Addr| #[trigger]
        current_ips.contains(x) && !(x.a == 169 && x.b == 254) {
        let x = choose|x: Ipv4Addr| #[trigger]
            current_ips.contains(x) && !(x.a == 169 && x.b == 254);
        let i = current_ips.index_of(x);
        assert(!current_ips[i].link_local());
    }
}

/// The camera port is an Ethernet adapter that is up, is no VPN and no virtual one, and
/// has an address.
pub proof fn law_what_is_the_camera_port(i: InterfaceInfo)
    ensures
        is_camera_port(i) <==> i.is_up && i.is_ethernet && !i.is_vpn && !i.is_virtual && i.ips@.len()
            >= 1,
{
}

/// A device is pinned on the way to manual mode exactly when it was discovered and has an
/// open port; it is pinned with its address and label.
pub proof fn law_which_devices_are_pinned(r: RecordView)
    ensures
        pin_of(r) == if r.open_ports.len() > 0 && !(r.mac.len() >= 7 && r.mac.take(7) == "manual:"@) {
            Some((r.ip, r.alias))
        } else {
            None
        },
{
    reveal_strlit("manual:");
    assert("manual:"@ =~= device_registry::manual_prefix());
    if r.mac.len() >= 7 {
        assert(r.mac.take(7) =~= r.mac.subrange(0, 7));
    }
}

/// What is written for a relabelled address: the label of the first record there, with a
/// cache row of the record where it has an open port. Nothing is written for an address
/// without a record.
pub proof fn law_what_is_written_for_a_label(s: Seq<RecordView>, ip: Seq<char>)
    ensures
        match alias_write(s)(ip) {
            Some(w) => exists|i: int|
                #![trigger s[i]]
                {
                    &&& 0 <= i < s.len()
                    &&& s[i].ip == ip
                    &&& forall|j: int| 0 <= j < i ==> (#[trigger] s[j]).ip != ip
                    &&& w.ip == ip
                    &&& w.alias == s[i].alias
                    &&& w.row is Some <==> s[i].open_ports.len() > 0
                    &&& w.row matches Some(row) ==> {
                        &&& row.mac == s[i].mac
                        &&& row.ip == ip
                        &&& row.subnet == s[i].subnet
                        &&& row.open_ports == s[i].open_ports
                        &&& row.alias == s[i].alias
                        &&& row.last_seen == s[i].last_seen
                    }
                },
            None => forall|i: int| 0 <= i < s.len() ==> (#[trigger] s[i]).ip != ip,
        },
{
    lemma_first_at(s, ip);
}

proof fn lemma_first_at(s: Seq<RecordView>, ip: Seq<char>)
    ensures
        match first_at(s, ip) {
            Some(r) => exists|i: int|
                0 <= i < s.len() && #[trigger] s[i] == r && r.ip == ip && forall|j: int|
                    0 <= j < i ==> (#[trigger] s[j]).ip != ip,
            None => forall|i: int| 0 <= i < s.len() ==> (#[trigger] s[i]).ip != ip,
        },
    decreases s.len(),
{
    if s.len() > 0 {
        let rest = s.drop_first();
        lemma_first_at(rest, ip);
        if s[0].ip != ip {
            match first_at(rest, ip) {
                Some(r) => {
                    let i = choose|i: int|
                        0 <= i < rest.len() && #[trigger] rest[i] == r && r.ip == ip && forall|
                            j: int,
                        |
                            0 <= j < i ==> (#[trigger] rest[j]).ip != ip;
                    assert(s[i + 1] == r);
                    assert forall|j: int| 0 <= j < i + 1 implies (#[trigger] s[j]).ip != ip by {
                        if j > 0 {
                            assert(rest[j - 1] == s[j]);
                        }
                    }
                },
                None => {
                    assert forall|i: int| 0 <= i < s.len() implies (#[trigger] s[i]).ip != ip by {
                        if i > 0 {
                            assert(rest[i - 1] == s[i]);
                        }
                    }
                },
            }
        } else {
            assert(s[0] == first_at(s, ip)->0);
        }
    }
}

/// The repair of the roles takes labels away and changes nothing else. A record loses its
/// label exactly when that is a role's and another record keeps the role: the one at the
/// stream's address for the camera, and else the first in the list.
pub proof fn law_the_repair_takes_double_roles_away(
    s: Seq<RecordView>,
    camera_ip: Seq<char>,
    i: int,
)
    requires
        device_registry::one_each(s),
        0 <= i < s.len(),
    ensures
        ({
            let t = roles_repaired(s, camera_ip);
            let cam = seq!['C', 'A', 'M'];
            let ptu = seq!['P', 'T', 'U'];
            let chosen = exists|k: int|
                0 <= k < s.len() && (#[trigger] s[k]).ip == camera_ip && s[k].alias == cam;
            let keeps = if s[i].alias == cam && chosen {
                s[i].ip == camera_ip
            } else {
                s[i].alias == cam || s[i].alias == ptu ==> forall|k: int|
                    0 <= k < i ==> (#[trigger] s[k]).alias != s[i].alias
            };
            &&& t.len() == s.len()
            &&& t[i] == (RecordView {
                alias: if keeps {
                    s[i].alias
                } else {
                    Seq::empty()
                },
                ..s[i]
            })
            &&& roles_demoted(s, camera_ip).contains(s[i].ip) <==> !keeps
        }),
{
    let cam = device_registry::role_label(device_registry::Role::Cam);
    let ptu = device_registry::role_label(device_registry::Role::Ptu);
    assert(cam =~= seq!['C', 'A', 'M']);
    assert(ptu =~= seq!['P', 'T', 'U']);
    assert(cam[0] != ptu[0]);
    let m = device_registry::after_role(s, cam, Some(camera_ip));
    assert forall|k: int| 0 <= k < s.len() implies (#[trigger] m[k]).mac == s[k].mac && m[k].ip
        == s[k].ip && (m[k].alias == ptu <==> s[k].alias == ptu) by {
        device_registry::law_who_keeps_a_role(s, cam, Some(camera_ip), k);
        assert(Seq::<char>::empty() != ptu) by {
            assert(ptu.len() == 3);
        }
    }
    assert(m.len() == s.len()) by {
        device_registry::law_who_keeps_a_role(s, cam, Some(camera_ip), i);
    }
    assert forall|j: int, k: int| 0 <= j < k < m.len() implies (#[trigger] m[j]).mac != (
    #[trigger] m[k]).mac by {
        assert(s[j].mac != s[k].mac);
    }
    assert forall|j: int, k: int| 0 <= j < k < m.len() implies (#[trigger] m[j]).ip != (
    #[trigger] m[k]).ip by {
        assert(s[j].ip != s[k].ip);
    }
    device_registry::law_who_keeps_a_role(s, cam, Some(camera_ip), i);
    device_registry::law_who_keeps_a_role(m, ptu, None, i);
    let x = device_registry::role_demotions(s, cam, Some(camera_ip));
    let y = device_registry::role_demotions(m, ptu, None);
    let all = roles_demoted(s, camera_ip);
    assert(all == x + y);
    let ip = s[i].ip;
    if x.contains(ip) {
        assert(all[x.index_of(ip)] == ip);
    }
    if y.contains(ip) {
        assert(all[x.len() + y.index_of(ip)] == ip);
    }
    if all.contains(ip) {
        let k = all.index_of(ip);
        if k < x.len() {
            assert(x[k] == ip);
        } else {
            assert(y[k - x.len()] == ip);
        }
    }
    assert((forall|k: int| 0 <= k < i ==> (#[trigger] m[k]).alias != ptu) <==> (forall|k: int|
        0 <= k < i ==> (#[trigger] s[k]).alias != ptu)) by {
        assert forall|k: int| 0 <= k < i implies ((#[trigger] m[k]).alias == ptu <==> s[k].alias
            == ptu) by {}
        if forall|k: int| 0 <= k < i ==> (#[trigger] m[k]).alias != ptu {
            assert forall|k: int| 0 <= k < i implies (#[trigger] s[k]).alias != ptu by {
                assert(m[k].alias != ptu);
            }
        }
    }
}

/// The MACs that are dropped from the cache are those of the rows that were turned away.
pub proof fn law_whose_rows_are_dropped(s: Seq<(CachedView, CacheReject)>, mac: Seq<char>)
    ensures
        reject_macs(s).contains(mac) <==> exists|i: int|
            0 <= i < s.len() && (#[trigger] s[i]).0.mac == mac,
{
    if reject_macs(s).contains(mac) {
        let i = reject_macs(s).index_of(mac);
        assert(s[i].0.mac == mac);
    }
    if exists|i: int| 0 <= i < s.len() && (#[trigger] s[i]).0.mac == mac {
        let i = choose|i: int| 0 <= i < s.len() && (#[trigger] s[i]).0.mac == mac;
        assert(reject_macs(s)[i] == mac);
    }
}

/// In manual mode every pinned node is listed: live, under its own key, on the subnet of
/// its address, and with its label, where no later node has the same address.
pub proof fn law_manual_mode_lists_every_pin(nodes: Seq<ManualNode>, now: Seq<char>, i: int)
    requires
        0 <= i < nodes.len(),
        forall|j: int| i < j < nodes.len() ==> (#[trigger] nodes[j]).ip@ != nodes[i].ip@,
    ensures
        exists|k: int|
            #![trigger device_registry::after_nodes(Seq::empty(), nodes, now)[k]]
            {
                let t = device_registry::after_nodes(Seq::empty(), nodes, now);
                &&& 0 <= k < t.len()
                &&& t[k].ip == nodes[i].ip@
                &&& t[k].alias == nodes[i].alias@
                &&& t[k].mac == "manual:"@ + nodes[i].ip@
                &&& t[k].open_ports.len() == 0
                &&& t[k].status == device_registry::DeviceStatus::Live
            },
    decreases nodes.len(),
{
    let rest = nodes.drop_last();
    let last = nodes.last();
    let before = device_registry::after_nodes(Seq::empty(), rest, now);
    let t = device_registry::after_nodes(Seq::empty(), nodes, now);
    reveal_strlit("manual:");
    assert("manual:"@ =~= device_registry::manual_prefix());
    lemma_pins_are_live(rest, now);
    if i < rest.len() {
        assert forall|j: int| i < j < rest.len() implies (#[trigger] rest[j]).ip@ != rest[i].ip@ by {
            assert(nodes[j].ip@ != nodes[i].ip@);
        }
        law_manual_mode_lists_every_pin(rest, now, i);
        let b = choose|b: int|
            #![trigger device_registry::after_nodes(Seq::empty(), rest, now)[b]]
            {
                let u = device_registry::after_nodes(Seq::empty(), rest, now);
                &&& 0 <= b < u.len()
                &&& u[b].ip == rest[i].ip@
                &&& u[b].alias == rest[i].alias@
                &&& u[b].mac == "manual:"@ + rest[i].ip@
                &&& u[b].open_ports.len() == 0
                &&& u[b].status == device_registry::DeviceStatus::Live
            };
        let r = before[b];
        assert(nodes[nodes.len() - 1].ip@ != nodes[i].ip@);
        assert(r.mac != "manual:"@ + last.ip@) by {
            if r.mac == "manual:"@ + last.ip@ {
                assert(r.mac.skip(7) =~= r.ip);
                assert(("manual:"@ + last.ip@).skip(7) =~= last.ip@);
            }
        }
        assert(before.contains(r));
        device_registry::law_a_pinned_node_is_listed(before, last.ip@, last.alias@, now, r);
        assert(t.contains(r));
        let k = t.index_of(r);
        assert(t[k] == r);
    } else {
        device_registry::law_a_pinned_node_is_listed(
            before,
            last.ip@,
            last.alias@,
            now,
            t.last(),
        );
        if device_registry::has_ip(before, last.ip@) {
            let k = choose|k: int| 0 <= k < before.len() && (#[trigger] before[k]).ip == last.ip@;
            lemma_pins_alone(rest, now, k);
            assert(t[k].ip == last.ip@);
            assert(t[k].alias == last.alias@);
        } else {
            let k = t.len() - 1;
            assert(t[k] == t.last());
        }
    }
}

proof fn lemma_pins_are_live(nodes: Seq<ManualNode>, now: Seq<char>)
    ensures
        forall|k: int|
            #![trigger device_registry::after_nodes(Seq::empty(), nodes, now)[k]]
            0 <= k < device_registry::after_nodes(Seq::empty(), nodes, now).len() ==> {
                let r = device_registry::after_nodes(Seq::empty(), nodes, now)[k];
                r.status == device_registry::DeviceStatus::Live && r.open_ports.len() == 0
            },
    decreases nodes.len(),
{
    if nodes.len() > 0 {
        let rest = nodes.drop_last();
        let last = nodes.last();
        lemma_pins_are_live(rest, now);
        let before = device_registry::after_nodes(Seq::empty(), rest, now);
        let t = device_registry::after_nodes(Seq::empty(), nodes, now);
        assert forall|k: int| 0 <= k < t.len() implies (#[trigger] t[k]).status
            == device_registry::DeviceStatus::Live && t[k].open_ports.len() == 0 by {
            if device_registry::has_ip(before, last.ip@) {
                assert(before[k].status == device_registry::DeviceStatus::Live);
            } else {
                let keep = device_registry::mac_is_not(
                    device_registry::manual_prefix() + last.ip@,
                );
                let f = before.filter(keep);
                if k < f.len() {
                    assert(f.contains(f[k]));
                    text::lemma_filtered(before, keep, f[k]);
                    let b = before.index_of(f[k]);
                    assert(before[b].status == device_registry::DeviceStatus::Live);
                }
            }
        }
    }
}

/// How long the watch on a capture waits: windows of ten seconds, then a look every two
/// seconds for five minutes.
pub proof fn law_the_times_of_the_watch()
    ensures
        WATCH_WINDOW == 10,
        WATCH_POLL == 2,
        WATCH_MAX == 300,
{
}

/// What is to be written shows its row, address and label as they are.
pub proof fn law_what_a_write_shows(w: AliasWrite)
    ensures
        w@.ip == w.ip@,
        w@.alias == w.alias@,
        w@.row is Some <==> w.row is Some,
        w.row matches Some(d) ==> w@.row == Some(d@),
{
}

} // verus!
