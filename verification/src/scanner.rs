//! Scanning a subnet for hosts: which are asked, and what is made of the answers.

use crate::error::AppError;
use crate::ip_config;
use crate::net;
use crate::net::{Ipv4Addr, Ipv4Network};
use crate::text;
use vstd::prelude::*;

verus! {

/// What the scan says of one host.
#[derive(Debug)]
pub struct ScanResult {
    pub ip: String,
    pub reachable: bool,
    /// The ports that were found open.
    pub open_ports: Vec<u16>,
}

/// What the scan says of one host, as text and numbers.
#[verifier::ext_equal]
pub struct ScanView {
    pub ip: Seq<char>,
    pub reachable: bool,
    pub open_ports: Seq<u16>,
}

impl View for ScanResult {
    type V = ScanView;

    open spec fn view(&self) -> ScanView {
        ScanView { ip: self.ip@, reachable: self.reachable, open_ports: self.open_ports@ }
    }
}

/// The largest number of addresses that one scan goes through.
pub const MAX_SCAN_ADDRESSES: u64 = 4096;

/// The ports that are tried on every host.
pub fn probe_ports() -> (r: Vec<u16>)
    ensures
        r@ == seq![22u16, 80, 443, 554, 8080, 8554, 8899],
{
    let r: Vec<u16> = vec![22, 80, 443, 554, 8080, 8554, 8899];
    assert(r@ =~= seq![22u16, 80, 443, 554, 8080, 8554, 8899]);
    r
}

/// How many addresses a prefix length leaves; one where it is too long.
pub open spec fn addresses(prefix: u8) -> int {
    if prefix <= 32 {
        net::block_size(prefix as int)
    } else {
        1
    }
}

/// Why a subnet is too large.
pub open spec fn too_large(prefix: u8) -> Seq<char> {
    "Subnet /"@ + text::dec(prefix as nat) + " has "@ + text::dec(addresses(prefix) as nat)
        + " addresses — too large to scan (limit "@ + text::dec(4096)
        + " ≈ /20). Narrow the range; /16 and wider are rejected to avoid a multi-minute scan."@
}

/// Refuses a subnet that is too large to scan.
pub fn check_scan_size(prefix: u8) -> (r: Result<(), AppError>)
    ensures
        r is Ok <==> addresses(prefix) <= MAX_SCAN_ADDRESSES,
        r matches Err(e) ==> e.text() == too_large(prefix),
{
    let count: u64 = if prefix <= 32 {
        ip_config::block_size_of(prefix)
    } else {
        1
    };
    if count <= MAX_SCAN_ADDRESSES {
        return Ok(());
    }
    let mut e = String::from_str("Subnet /");
    text::push_dec(&mut e, prefix as u64);
    e.append(" has ");
    text::push_dec(&mut e, count);
    e.append(" addresses — too large to scan (limit ");
    text::push_dec(&mut e, MAX_SCAN_ADDRESSES);
    e.append(
        " ≈ /20). Narrow the range; /16 and wider are rejected to avoid a multi-minute scan.",
    );
    Err(AppError::Network(e))
}

/// Whether an address of a block is that of a host: all are where the prefix is longer
/// than 30, and else all but the lowest and the highest.
pub open spec fn scannable(host: Ipv4Addr, network: Ipv4Network) -> bool {
    network.bits() > 30 || (host.num() != network.first() && host.num() != network.last())
}

/// Whether an address of a block is that of a host.
pub fn is_scannable(host: &Ipv4Addr, network: &Ipv4Network) -> (r: bool)
    ensures
        r == scannable(*host, *network),
{
    if network.prefix() > 30 {
        return true;
    }
    let n = host.to_num();
    n != network.network().to_num() && n != network.broadcast().to_num()
}

/// The number of a block's first host.
pub open spec fn first_host(network: Ipv4Network) -> int {
    if network.bits() > 30 {
        network.first()
    } else {
        network.first() + 1
    }
}

/// How many hosts a block has.
pub open spec fn host_count(network: Ipv4Network) -> int {
    if network.bits() > 30 {
        net::block_size(network.bits() as int)
    } else {
        net::block_size(network.bits() as int) - 2
    }
}

/// The hosts of a block, from the lowest address up.
pub open spec fn hosts(network: Ipv4Network) -> Seq<Ipv4Addr> {
    Seq::new(host_count(network) as nat, |i: int| net::address(first_host(network) + i))
}

/// Why a subnet is not scanned.
pub open spec fn scan_fault(subnet: Seq<char>) -> Option<Seq<char>> {
    match net::cidr(subnet) {
        None => Some("Invalid subnet: "@ + net::cidr_fault(subnet)),
        Some((_, prefix)) => if addresses(prefix) > MAX_SCAN_ADDRESSES {
            Some(too_large(prefix))
        } else {
            None
        },
    }
}

/// The hosts to ask in a scan of a subnet, from the lowest address up. An error where
/// the text is no subnet or the subnet is too large.
pub fn scan_hosts(subnet: &str) -> (r: Result<Vec<Ipv4Addr>, AppError>)
    ensures
        match r {
            Ok(list) => scan_fault(subnet@) is None && exists|n: Ipv4Network|
                net::cidr(subnet@) == Some((#[trigger] n.base(), n.bits())) && list@ == hosts(n),
            Err(e) => scan_fault(subnet@) == Some(e.text()),
        },
{
    let network = match Ipv4Network::read(subnet) {
        Ok(n) => n,
        Err(why) => {
            let mut e = String::from_str("Invalid subnet: ");
            e.append(why.as_str());
            return Err(AppError::Network(e));
        },
    };
    match check_scan_size(network.prefix()) {
        Ok(_) => {},
        Err(e) => {
            return Err(e);
        },
    }
    let bits = network.prefix();
    let lowest = network.network().to_num();
    let highest = network.broadcast().to_num();
    let size = ip_config::block_size_of(bits);
    let ghost all = hosts(network);
    let mut list: Vec<Ipv4Addr> = Vec::new();
    let mut i: u64 = 0;
    let ghost mut taken: int = 0;
    proof {
        lemma_small_blocks(bits);
        assert(list@ =~= all.take(0));
    }
    while i < size
        invariant
            i <= size,
            size == net::block_size(bits as int),
            bits == network.bits(),
            bits <= 32,
            bits <= 30 ==> size >= 4,
            lowest == network.first(),
            highest == network.last(),
            highest == lowest + size - 1,
            all == hosts(network),
            0 <= taken <= all.len(),
            taken == if bits > 30 {
                i as int
            } else if i == 0 {
                0
            } else if i == size {
                size - 2
            } else {
                i - 1
            },
            list@ == all.take(taken),
        decreases size - i,
    {
        let host = Ipv4Addr::from_num(lowest + i as u32);
        if is_scannable(&host, &network) {
            proof {
                net::lemma_address_of_num(host);
                assert(all[taken] == host);
                all.lemma_take_succ_push(taken);
                taken = taken + 1;
            }
            list.push(host);
        }
        i += 1;
    }
    assert(all.take(taken) =~= all);
    Ok(list)
}

proof fn lemma_small_blocks(bits: u8)
    requires
        bits <= 32,
    ensures
        bits <= 30 ==> net::block_size(bits as int) >= 4,
        net::block_size(bits as int) >= 1,
{
    vstd::arithmetic::power2::lemma2_to64();
    vstd::arithmetic::power2::lemma_pow2_pos((32 - bits) as nat);
    if bits < 30 {
        vstd::arithmetic::power2::lemma_pow2_strictly_increases(2, (32 - bits) as nat);
    }
}

/// Ascending numbers.
pub open spec fn ascending(s: Seq<u16>) -> bool {
    forall|i: int, j: int| 0 <= i < j < s.len() ==> s[i] <= s[j]
}

/// Sorts port numbers.
pub fn sort_ports(ports: Vec<u16>) -> (r: Vec<u16>)
    ensures
        ascending(r@),
        r@.to_multiset() == ports@.to_multiset(),
{
    let mut r: Vec<u16> = Vec::new();
    let mut i: usize = 0;
    assert(r@ =~= ports@.take(0));
    while i < ports.len()
        invariant
            i <= ports.len(),
            ascending(r@),
            r@.to_multiset() == ports@.take(i as int).to_multiset(),
        decreases ports.len() - i,
    {
        let p = ports[i];
        let mut at: usize = r.len();
        while at > 0 && r[at - 1] > p
            invariant
                at <= r.len(),
                ascending(r@),
                forall|k: int| at <= k < r@.len() ==> r@[k] > p,
            decreases at,
        {
            at -= 1;
        }
        let ghost before = r@;
        proof {
            ports@.lemma_take_succ_push(i as int);
        }
        r.insert(at, p);
        proof {
            vstd::seq_lib::to_multiset_insert(before, at as int, p);
            vstd::seq_lib::to_multiset_build(ports@.take(i as int), p);
            assert(r@ == before.insert(at as int, p));
        }
        i += 1;
    }
    assert(ports@.take(i as int) =~= ports@);
    r
}

/// A result that says what was found at a host: these ports, in ascending order, and
/// reachable if there is one.
pub open spec fn tells(v: ScanView, ip: Ipv4Addr, open: Seq<u16>) -> bool {
    &&& v.ip == net::dotted(ip)
    &&& v.reachable == (open.len() > 0)
    &&& ascending(v.open_ports)
    &&& v.open_ports.to_multiset() == open.to_multiset()
}

/// The result for a host where these ports took a connection, in whatever order.
pub fn probe_result(ip: Ipv4Addr, open: Vec<u16>) -> (r: ScanResult)
    ensures
        tells(r@, ip, open@),
{
    let reachable = open.len() > 0;
    ScanResult { ip: ip.text(), reachable, open_ports: sort_ports(open) }
}

/// A host that took a connection.
pub open spec fn took() -> spec_fn((Ipv4Addr, Vec<u16>)) -> bool {
    |e: (Ipv4Addr, Vec<u16>)| e.1@.len() > 0
}

/// Ascending by address.
pub open spec fn by_address(s: Seq<(Ipv4Addr, Vec<u16>)>) -> bool {
    forall|i: int, j: int| 0 <= i < j < s.len() ==> (#[trigger] s[i]).0.num() <= (
    #[trigger] s[j]).0.num()
}

fn sort_found(found: Vec<(Ipv4Addr, Vec<u16>)>) -> (r: Vec<(Ipv4Addr, Vec<u16>)>)
    ensures
        by_address(r@),
        r@.to_multiset() == found@.filter(took()).to_multiset(),
{
    let ghost all = found@;
    let ghost keep = took();
    let mut r: Vec<(Ipv4Addr, Vec<u16>)> = Vec::new();
    let mut rest = found;
    let mut i: usize = rest.len();
    proof {
        assert(all.skip(all.len() as int) =~= Seq::empty());
        reveal(Seq::filter);
        assert(all.skip(all.len() as int).filter(keep) =~= Seq::empty());
        assert(r@ =~= Seq::empty());
        assert(rest@ =~= all.take(i as int));
    }
    while i > 0
        invariant
            i == rest.len(),
            i <= all.len(),
            keep == took(),
            rest@ == all.take(i as int),
            by_address(r@),
            r@.to_multiset() == all.skip(i as int).filter(keep).to_multiset(),
        decreases i,
    {
        i -= 1;
        let ghost was = rest@;
        let e = match rest.pop() {
            Some(e) => e,
            None => {
                return r;
            },
        };
        proof {
            assert(e == all[i as int]);
            assert(rest@ =~= all.take(i as int));
            assert(all.skip(i as int) =~= seq![e] + all.skip(i + 1));
            lemma_filter_front(e, all.skip(i + 1), keep);
        }
        if e.1.len() > 0 {
            let mut at: usize = 0;
            let len: usize = r.len();
            while at < len && r[at].0.to_num() < e.0.to_num()
                invariant
                    at <= len,
                    len == r.len(),
                    by_address(r@),
                    forall|k: int| 0 <= k < at ==> (#[trigger] r@[k]).0.num() < e.0.num(),
                decreases len - at,
            {
                at += 1;
            }
            let ghost before = r@;
            let ghost f = all.skip(i + 1).filter(keep);
            r.insert(at, e);
            proof {
                vstd::seq_lib::to_multiset_insert(before, at as int, e);
                vstd::seq_lib::to_multiset_insert(f, 0, e);
                assert(r@ == before.insert(at as int, e));
                assert(f.insert(0, e) =~= seq![e] + f);
            }
        }
    }
    assert(all.skip(0) =~= all);
    r
}

proof fn lemma_filter_front(
    e: (Ipv4Addr, Vec<u16>),
    s: Seq<(Ipv4Addr, Vec<u16>)>,
    keep: spec_fn((Ipv4Addr, Vec<u16>)) -> bool,
)
    ensures
        (seq![e] + s).filter(keep) == if keep(e) {
            seq![e] + s.filter(keep)
        } else {
            s.filter(keep)
        },
    decreases s.len(),
{
    reveal(Seq::filter);
    let t = seq![e] + s;
    if s.len() == 0 {
        assert(t.drop_last() =~= Seq::empty());
        assert(s =~= Seq::empty());
        assert(t.drop_last().filter(keep) =~= Seq::empty());
        assert(t.last() == e);
        assert(t.filter(keep) =~= if keep(e) {
            seq![e]
        } else {
            Seq::empty()
        });
        assert(seq![e] + s.filter(keep) =~= seq![e]);
    } else {
        assert(t.drop_last() =~= seq![e] + s.drop_last());
        assert(t.last() == s.last());
        lemma_filter_front(e, s.drop_last(), keep);
        let f = s.drop_last().filter(keep);
        assert((seq![e] + f).push(s.last()) =~= seq![e] + f.push(s.last()));
    }
}

/// The results of a scan: the hosts that took a connection, by address.
pub fn scan_results(found: Vec<(Ipv4Addr, Vec<u16>)>) -> (r: Vec<ScanResult>)
    ensures
        exists|order: Seq<(Ipv4Addr, Vec<u16>)>|
            {
                &&& #[trigger] by_address(order)
                &&& order.to_multiset() == found@.filter(took()).to_multiset()
                &&& r@.len() == order.len()
                &&& forall|i: int|
                    0 <= i < order.len() ==> tells((#[trigger] r@[i])@, order[i].0, order[i].1@)
            },
{
    let sorted = sort_found(found);
    let ghost order = sorted@;
    let mut rest = sorted;
    let mut back: Vec<ScanResult> = Vec::new();
    let mut r: Vec<ScanResult> = Vec::new();
    let mut i: usize = rest.len();
    assert(rest@ =~= order.take(i as int));
    while i > 0
        invariant
            i == rest.len(),
            i <= order.len(),
            rest@ == order.take(i as int),
            back@.len() == order.len() - i,
            forall|k: int|
                0 <= k < back@.len() ==> tells(
                    (#[trigger] back@[k])@,
                    order[order.len() - 1 - k].0,
                    order[order.len() - 1 - k].1@,
                ),
        decreases i,
    {
        i -= 1;
        match rest.pop() {
            Some((ip, open)) => {
                proof {
                    assert(order[i as int] == (ip, open));
                    assert(rest@ =~= order.take(i as int));
                }
                back.push(probe_result(ip, open));
            },
            None => {},
        }
    }
    let mut n: usize = back.len();
    let ghost backward = back@;
    assert(back@ =~= backward.take(n as int));
    while n > 0
        invariant
            n == back.len(),
            n <= order.len(),
            backward.len() == order.len(),
            back@ == backward.take(n as int),
            forall|k: int|
                0 <= k < backward.len() ==> tells(
                    (#[trigger] backward[k])@,
                    order[order.len() - 1 - k].0,
                    order[order.len() - 1 - k].1@,
                ),
            r@.len() == order.len() - n,
            forall|k: int|
                0 <= k < r@.len() ==> tells((#[trigger] r@[k])@, order[k].0, order[k].1@),
        decreases n,
    {
        n -= 1;
        match back.pop() {
            Some(x) => {
                proof {
                    assert(x == backward[n as int]);
                    assert(back@ =~= backward.take(n as int));
                }
                r.push(x);
            },
            None => {},
        }
    }
    assert(by_address(order));
    r
}

/// A subnet of two addresses, or of one, has no reserved ones: all are scanned.
pub proof fn law_point_to_point_is_scanned_whole(host: Ipv4Addr, network: Ipv4Network)
    requires
        network.bits() > 30,
    ensures
        scannable(host, network),
        host_count(network) == net::block_size(network.bits() as int),
{
}

/// A scan asks exactly the block's addresses that are those of hosts, each once.
pub proof fn law_scan_asks_every_host(network: Ipv4Network, host: Ipv4Addr)
    requires
        network.bits() <= 32,
    ensures
        hosts(network).contains(host) <==> network.has(host) && scannable(host, network),
        hosts(network).no_duplicates(),
{
    lemma_small_blocks(network.bits());
    net::law_block_bounds(network);
    let s = hosts(network);
    if network.has(host) && scannable(host, network) {
        let i = host.num() - first_host(network);
        net::lemma_address_of_num(host);
        assert(s[i] == host);
    }
    assert forall|i: int| 0 <= i < s.len() implies (#[trigger] s[i]).num() == first_host(network)
        + i by {
        net::lemma_num_of_address(first_host(network) + i);
    }
    if s.contains(host) {
        let i = s.index_of(host);
        assert(s[i] == host);
    }
    assert forall|i: int, j: int| 0 <= i < s.len() && 0 <= j < s.len() && i != j implies s[i]
        != s[j] by {
        assert(s[i].num() != s[j].num());
    }
}

/// A scan is refused exactly when the text names no block, or one of more than 4096
/// addresses: a prefix of 19 or less.
pub proof fn law_what_is_too_large_to_scan(subnet: Seq<char>, ip: Ipv4Addr, prefix: u8)
    requires
        net::cidr(subnet) == Some((ip, prefix)),
        prefix <= 32,
    ensures
        scan_fault(subnet) is None <==> prefix >= 20,
        scan_fault(subnet) matches Some(why) ==> why == too_large(prefix),
        addresses(prefix) == vstd::arithmetic::power2::pow2((32 - prefix) as nat),
{
    vstd::arithmetic::power2::lemma2_to64();
    assert(net::block_size(20) == 4096);
    if prefix > 20 {
        vstd::arithmetic::power2::lemma_pow2_strictly_increases((32 - prefix) as nat, 12);
    } else if prefix < 20 {
        vstd::arithmetic::power2::lemma_pow2_strictly_increases(12, (32 - prefix) as nat);
    }
}

/// In a block with a network and a broadcast address these two are not scanned, and every
/// other address is.
pub proof fn law_which_hosts_are_scanned(host: Ipv4Addr, network: Ipv4Network)
    requires
        network.bits() <= 30,
    ensures
        scannable(host, network) <==> host.num() != network.first() && host.num()
            != network.last(),
{
}

/// The hosts are asked in ascending order, without a gap.
pub proof fn law_hosts_follow_each_other(network: Ipv4Network, i: int)
    requires
        network.bits() <= 32,
        0 <= i < hosts(network).len(),
    ensures
        hosts(network)[i].num() == hosts(network)[0].num() + i,
        hosts(network)[0].num() == if network.bits() > 30 {
            network.first()
        } else {
            network.first() + 1
        },
{
    lemma_small_blocks(network.bits());
    net::law_block_bounds(network);
    net::lemma_num_of_address(first_host(network) + i);
    net::lemma_num_of_address(first_host(network));
}

/// A host is listed exactly when a port took the connection; it is then reachable, and
/// has these ports.
pub proof fn law_what_a_probe_tells(
    v: ScanView,
    ip: Ipv4Addr,
    open: Seq<u16>,
    e: (Ipv4Addr, Vec<u16>),
    port: u16,
)
    requires
        tells(v, ip, open),
    ensures
        net::parsed(v.ip) == Some(ip),
        v.reachable <==> open.len() > 0,
        v.open_ports.len() == open.len(),
        v.open_ports.contains(port) <==> open.contains(port),
        forall|i: int, j: int|
            0 <= i < j < v.open_ports.len() ==> #[trigger] v.open_ports[i]
                <= #[trigger] v.open_ports[j],
        took()(e) <==> e.1@.len() > 0,
{
    net::law_parse_of_text(ip);
    v.open_ports.to_multiset_ensures();
    open.to_multiset_ensures();
    assert(v.open_ports.to_multiset().count(port) == open.to_multiset().count(port));
}

/// A result shows its address, whether it was reached, and its ports as they are.
pub proof fn law_what_a_result_shows(r: ScanResult)
    ensures
        r@.ip == r.ip@,
        r@.reachable == r.reachable,
        r@.open_ports == r.open_ports@,
{
}

/// The results come in ascending order of their addresses as numbers.
pub proof fn law_results_come_by_address(s: Seq<(Ipv4Addr, Vec<u16>)>)
    ensures
        by_address(s) <==> forall|i: int, j: int|
            0 <= i < j < s.len() ==> !((#[trigger] s[j]).0.num() < (#[trigger] s[i]).0.num()),
{
}

} // verus!
