//! Ghost subnets: those that belong to an adapter that is up and is not the
//! wired camera port.
//!
//! Discovery, adoption, restore and cache hydration turn them away, so that only
//! peers on the wire become nodes.

use crate::config::{CachedDevice, CachedView};
use crate::interface;
use crate::interface::{InterfaceInfo, IpInfo};
use crate::net;
use crate::net::{Ipv4Addr, Ipv4Network};
use crate::text;
use crate::textmap::TextSet;
use vstd::prelude::*;

verus! {

/// A block by its address and prefix length.
pub open spec fn block_id(n: Ipv4Network) -> (Ipv4Addr, u8) {
    (n.base(), n.bits())
}

/// The block that an adapter's address lies in, written with its lowest address.
pub open spec fn owned_block(ip: IpInfo) -> Option<(Ipv4Addr, u8)> {
    match net::parsed(ip.address@) {
        Some(addr) if ip.prefix <= 32 => Some(
            (
                net::address(
                    addr.num() / net::block_size(ip.prefix as int) * net::block_size(
                        ip.prefix as int,
                    ),
                ),
                ip.prefix,
            ),
        ),
        _ => None,
    }
}

/// The block that an adapter's address lies in; nothing if the address or the
/// prefix length is no good.
fn ip_to_network(ip: &IpInfo) -> (r: Option<Ipv4Network>)
    ensures
        match (r, owned_block(*ip)) {
            (Some(n), Some(id)) => block_id(n) == id,
            (None, None) => true,
            _ => false,
        },
{
    let addr = match Ipv4Addr::parse(ip.address.as_str()) {
        Some(addr) => addr,
        None => {
            return None;
        },
    };
    let block = match Ipv4Network::new(addr, ip.prefix) {
        Some(block) => block,
        None => {
            return None;
        },
    };
    let low = block.network();
    proof {
        net::law_block_bounds(block);
        net::law_num_injective(low, net::address(block.first()));
    }
    Ipv4Network::new(low, ip.prefix)
}

/// The blocks of an adapter's addresses, in order.
pub open spec fn owned_blocks(ips: Seq<IpInfo>) -> Seq<(Ipv4Addr, u8)> {
    ips.filter_map(|ip: IpInfo| owned_block(ip))
}

/// The blocks of the wired camera ports, in order.
pub open spec fn wired_blocks(ifaces: Seq<InterfaceInfo>) -> Seq<(Ipv4Addr, u8)>
    decreases ifaces.len(),
{
    if ifaces.len() == 0 {
        Seq::empty()
    } else {
        let before = wired_blocks(ifaces.drop_last());
        if interface::wired_ethernet(ifaces.last()) {
            before + owned_blocks(ifaces.last().ips@)
        } else {
            before
        }
    }
}

/// The blocks of the adapters that are up and no wired camera port, in order.
pub open spec fn unwired_blocks(ifaces: Seq<InterfaceInfo>) -> Seq<(Ipv4Addr, u8)>
    decreases ifaces.len(),
{
    if ifaces.len() == 0 {
        Seq::empty()
    } else {
        let before = unwired_blocks(ifaces.drop_last());
        if ifaces.last().is_up && !interface::wired_ethernet(ifaces.last()) {
            before + owned_blocks(ifaces.last().ips@)
        } else {
            before
        }
    }
}

/// The members of `list` outside `barred`, each at its first place only.
pub open spec fn first_places(
    list: Seq<(Ipv4Addr, u8)>,
    barred: Seq<(Ipv4Addr, u8)>,
) -> Seq<(Ipv4Addr, u8)>
    decreases list.len(),
{
    if list.len() == 0 {
        Seq::empty()
    } else {
        let before = first_places(list.drop_last(), barred);
        if barred.contains(list.last()) || before.contains(list.last()) {
            before
        } else {
            before.push(list.last())
        }
    }
}

/// The ids of a list of blocks.
pub open spec fn block_ids(s: Seq<Ipv4Network>) -> Seq<(Ipv4Addr, u8)> {
    s.map_values(|n: Ipv4Network| block_id(n))
}

fn holds_block(list: &Vec<Ipv4Network>, n: &Ipv4Network) -> (r: bool)
    ensures
        r == block_ids(list@).contains(block_id(*n)),
{
    let mut i: usize = 0;
    while i < list.len()
        invariant
            i <= list.len(),
            forall|k: int| 0 <= k < i ==> block_ids(list@)[k] != block_id(*n),
        decreases list.len() - i,
    {
        if list[i].same(n) {
            assert(block_ids(list@)[i as int] == block_id(*n));
            return true;
        }
        i += 1;
    }
    false
}

fn push_owned(ips: &Vec<IpInfo>, out: &mut Vec<Ipv4Network>)
    ensures
        block_ids(final(out)@) == block_ids(old(out)@) + owned_blocks(ips@),
{
    let ghost start = block_ids(out@);
    let ghost f = |ip: IpInfo| owned_block(ip);
    let mut i: usize = 0;
    assert(ips@.take(0) =~= Seq::<IpInfo>::empty());
    while i < ips.len()
        invariant
            i <= ips.len(),
            f == (|ip: IpInfo| owned_block(ip)),
            block_ids(out@) == start + ips@.take(i as int).filter_map(f),
        decreases ips.len() - i,
    {
        proof {
            ips@.lemma_filter_map_take_succ(f, i as int);
        }
        let ghost before = out@;
        if let Some(n) = ip_to_network(&ips[i]) {
            out.push(n);
            assert(block_ids(out@) =~= block_ids(before).push(block_id(n)));
        }
        i += 1;
    }
    assert(ips@.take(i as int) =~= ips@);
}

/// The blocks that belong to adapters that are up and no wired camera port,
/// without those that a wired camera port also has.
pub fn non_wired_networks_of(ifaces: &Vec<InterfaceInfo>) -> (r: Vec<Ipv4Network>)
    ensures
        block_ids(r@) == first_places(unwired_blocks(ifaces@), wired_blocks(ifaces@)),
{
    let mut wired: Vec<Ipv4Network> = Vec::new();
    let mut others: Vec<Ipv4Network> = Vec::new();
    let mut i: usize = 0;
    assert(block_ids(wired@) =~= wired_blocks(ifaces@.take(0)));
    assert(block_ids(others@) =~= unwired_blocks(ifaces@.take(0)));
    while i < ifaces.len()
        invariant
            i <= ifaces.len(),
            block_ids(wired@) == wired_blocks(ifaces@.take(i as int)),
            block_ids(others@) == unwired_blocks(ifaces@.take(i as int)),
        decreases ifaces.len() - i,
    {
        assert(ifaces@.take(i + 1).drop_last() =~= ifaces@.take(i as int));
        assert(ifaces@.take(i + 1).last() == ifaces@[i as int]);
        let iface = &ifaces[i];
        if interface::is_wired_ethernet(iface) {
            push_owned(&iface.ips, &mut wired);
        } else if iface.is_up {
            push_owned(&iface.ips, &mut others);
        }
        i += 1;
    }
    assert(ifaces@.take(i as int) =~= ifaces@);
    let mut excluded: Vec<Ipv4Network> = Vec::new();
    let ghost all = block_ids(others@);
    let ghost barred = block_ids(wired@);
    assert(block_ids(excluded@) =~= first_places(all.take(0), barred));
    let mut j: usize = 0;
    while j < others.len()
        invariant
            j <= others.len(),
            all == block_ids(others@),
            barred == block_ids(wired@),
            block_ids(excluded@) == first_places(all.take(j as int), barred),
        decreases others.len() - j,
    {
        assert(all.take(j + 1).drop_last() =~= all.take(j as int));
        assert(all.take(j + 1).last() == block_id(others@[j as int]));
        let n = others[j];
        let ghost before = excluded@;
        if !holds_block(&wired, &n) && !holds_block(&excluded, &n) {
            excluded.push(n);
            assert(block_ids(excluded@) =~= block_ids(before).push(block_id(n)));
        }
        j += 1;
    }
    assert(all.take(j as int) =~= all);
    excluded
}

/// Every block of an unwired adapter that is up is a ghost, unless a wired camera
/// port has the same block; nothing else is a ghost, and none is listed twice.
pub proof fn law_ghosts_are_the_unwired_rest(ifaces: Seq<InterfaceInfo>, id: (Ipv4Addr, u8))
    ensures
        first_places(unwired_blocks(ifaces), wired_blocks(ifaces)).no_duplicates(),
        first_places(unwired_blocks(ifaces), wired_blocks(ifaces)).contains(id)
            <==> unwired_blocks(ifaces).contains(id) && !wired_blocks(ifaces).contains(id),
        unwired_blocks(ifaces).contains(id) <==> exists|i: int, j: int|
            #![trigger ifaces[i].ips@[j]]
            0 <= i < ifaces.len() && 0 <= j < ifaces[i].ips@.len() && ifaces[i].is_up
                && !interface::wired_ethernet(ifaces[i]) && owned_block(ifaces[i].ips@[j]) == Some(
                id,
            ),
        wired_blocks(ifaces).contains(id) <==> exists|i: int, j: int|
            #![trigger ifaces[i].ips@[j]]
            0 <= i < ifaces.len() && 0 <= j < ifaces[i].ips@.len() && interface::wired_ethernet(
                ifaces[i],
            ) && owned_block(ifaces[i].ips@[j]) == Some(id),
{
    lemma_first_places(unwired_blocks(ifaces), wired_blocks(ifaces), id);
    lemma_unwired(ifaces, id);
    lemma_wired(ifaces, id);
}

proof fn lemma_first_places(
    list: Seq<(Ipv4Addr, u8)>,
    barred: Seq<(Ipv4Addr, u8)>,
    id: (Ipv4Addr, u8),
)
    ensures
        first_places(list, barred).no_duplicates(),
        first_places(list, barred).contains(id) <==> list.contains(id) && !barred.contains(id),
    decreases list.len(),
{
    if list.len() > 0 {
        let last = list.last();
        let before = first_places(list.drop_last(), barred);
        lemma_first_places(list.drop_last(), barred, id);
        lemma_first_places(list.drop_last(), barred, last);
        assert(list =~= list.drop_last().push(last));
        assert(list.contains(id) <==> list.drop_last().contains(id) || id == last) by {
            if list.contains(id) {
                let i = list.index_of(id);
                if i < list.len() - 1 {
                    assert(list.drop_last()[i] == id);
                }
            }
            if list.drop_last().contains(id) {
                let i = list.drop_last().index_of(id);
                assert(list[i] == id);
            }
            if id == last {
                assert(list[list.len() - 1] == id);
            }
        }
        let after = first_places(list, barred);
        if !(barred.contains(last) || before.contains(last)) {
            assert(after == before.push(last));
            assert(after[after.len() - 1] == last);
            if before.contains(id) {
                let i = before.index_of(id);
                assert(after[i] == id);
            }
            if after.contains(id) {
                let i = after.index_of(id);
                if i < before.len() {
                    assert(before[i] == id);
                }
            }
        }
    }
}

proof fn lemma_owned(ips: Seq<IpInfo>, id: (Ipv4Addr, u8))
    ensures
        owned_blocks(ips).contains(id) <==> exists|j: int|
            0 <= j < ips.len() && owned_block(#[trigger] ips[j]) == Some(id),
    decreases ips.len(),
{
    let f = |ip: IpInfo| owned_block(ip);
    if ips.len() > 0 {
        let rest = ips.drop_last();
        lemma_owned(rest, id);
        ips.lemma_filter_map_take_succ(f, ips.len() - 1);
        assert(ips.take(ips.len() - 1) =~= rest);
        assert(ips.take(ips.len() as int) =~= ips);
        let here = match owned_block(ips.last()) {
            Some(x) => seq![x],
            None => Seq::empty(),
        };
        assert(owned_blocks(ips) =~= owned_blocks(rest) + here);
        lemma_append_contains(owned_blocks(rest), here, id);
        if owned_block(ips.last()) == Some(id) {
            assert(here[0] == id);
            assert(owned_block(ips[ips.len() - 1]) == Some(id));
        }
        if exists|j: int| 0 <= j < rest.len() && owned_block(#[trigger] rest[j]) == Some(id) {
            let j = choose|j: int| 0 <= j < rest.len() && owned_block(#[trigger] rest[j]) == Some(
                id,
            );
            assert(owned_block(ips[j]) == Some(id));
        }
        if exists|j: int| 0 <= j < ips.len() && owned_block(#[trigger] ips[j]) == Some(id) {
            let j = choose|j: int| 0 <= j < ips.len() && owned_block(#[trigger] ips[j]) == Some(id);
            if j < rest.len() {
                assert(owned_block(rest[j]) == Some(id));
            }
        }
    } else {
        assert(owned_blocks(ips) =~= Seq::empty());
    }
}

proof fn lemma_unwired(ifaces: Seq<InterfaceInfo>, id: (Ipv4Addr, u8))
    ensures
        unwired_blocks(ifaces).contains(id) <==> exists|i: int, j: int|
            #![trigger ifaces[i].ips@[j]]
            0 <= i < ifaces.len() && 0 <= j < ifaces[i].ips@.len() && ifaces[i].is_up
                && !interface::wired_ethernet(ifaces[i]) && owned_block(ifaces[i].ips@[j]) == Some(
                id,
            ),
    decreases ifaces.len(),
{
    if ifaces.len() > 0 {
        let rest = ifaces.drop_last();
        let last = ifaces.last();
        lemma_unwired(rest, id);
        lemma_owned(last.ips@, id);
        let before = unwired_blocks(rest);
        let here = owned_blocks(last.ips@);
        lemma_append_contains(before, here, id);
        if before.contains(id) {
            let (i, j) = choose|i: int, j: int|
                #![trigger rest[i].ips@[j]]
                0 <= i < rest.len() && 0 <= j < rest[i].ips@.len() && rest[i].is_up
                    && !interface::wired_ethernet(rest[i]) && owned_block(rest[i].ips@[j]) == Some(
                    id,
                );
            assert(owned_block(ifaces[i].ips@[j]) == Some(id));
        }
        if here.contains(id) && last.is_up && !interface::wired_ethernet(last) {
            let j = choose|j: int| 0 <= j < last.ips@.len() && owned_block(#[trigger] last.ips@[j])
                == Some(id);
            let i = ifaces.len() - 1;
            assert(owned_block(ifaces[i].ips@[j]) == Some(id));
        }
        if exists|i: int, j: int|
            #![trigger ifaces[i].ips@[j]]
            0 <= i < ifaces.len() && 0 <= j < ifaces[i].ips@.len() && ifaces[i].is_up
                && !interface::wired_ethernet(ifaces[i]) && owned_block(ifaces[i].ips@[j]) == Some(
                id,
            ) {
            let (i, j) = choose|i: int, j: int|
                #![trigger ifaces[i].ips@[j]]
                0 <= i < ifaces.len() && 0 <= j < ifaces[i].ips@.len() && ifaces[i].is_up
                    && !interface::wired_ethernet(ifaces[i]) && owned_block(ifaces[i].ips@[j])
                    == Some(id);
            if i < rest.len() {
                assert(owned_block(rest[i].ips@[j]) == Some(id));
            } else {
                assert(owned_block(last.ips@[j]) == Some(id));
            }
        }
    }
}

proof fn lemma_wired(ifaces: Seq<InterfaceInfo>, id: (Ipv4Addr, u8))
    ensures
        wired_blocks(ifaces).contains(id) <==> exists|i: int, j: int|
            #![trigger ifaces[i].ips@[j]]
            0 <= i < ifaces.len() && 0 <= j < ifaces[i].ips@.len() && interface::wired_ethernet(
                ifaces[i],
            ) && owned_block(ifaces[i].ips@[j]) == Some(id),
    decreases ifaces.len(),
{
    if ifaces.len() > 0 {
        let rest = ifaces.drop_last();
        let last = ifaces.last();
        lemma_wired(rest, id);
        lemma_owned(last.ips@, id);
        let before = wired_blocks(rest);
        let here = owned_blocks(last.ips@);
        lemma_append_contains(before, here, id);
        if before.contains(id) {
            let (i, j) = choose|i: int, j: int|
                #![trigger rest[i].ips@[j]]
                0 <= i < rest.len() && 0 <= j < rest[i].ips@.len() && interface::wired_ethernet(
                    rest[i],
                ) && owned_block(rest[i].ips@[j]) == Some(id);
            assert(owned_block(ifaces[i].ips@[j]) == Some(id));
        }
        if here.contains(id) && interface::wired_ethernet(last) {
            let j = choose|j: int| 0 <= j < last.ips@.len() && owned_block(#[trigger] last.ips@[j])
                == Some(id);
            let i = ifaces.len() - 1;
            assert(owned_block(ifaces[i].ips@[j]) == Some(id));
        }
        if exists|i: int, j: int|
            #![trigger ifaces[i].ips@[j]]
            0 <= i < ifaces.len() && 0 <= j < ifaces[i].ips@.len() && interface::wired_ethernet(
                ifaces[i],
            ) && owned_block(ifaces[i].ips@[j]) == Some(id) {
            let (i, j) = choose|i: int, j: int|
                #![trigger ifaces[i].ips@[j]]
                0 <= i < ifaces.len() && 0 <= j < ifaces[i].ips@.len() && interface::wired_ethernet(
                    ifaces[i],
                ) && owned_block(ifaces[i].ips@[j]) == Some(id);
            if i < rest.len() {
                assert(owned_block(rest[i].ips@[j]) == Some(id));
            } else {
                assert(owned_block(last.ips@[j]) == Some(id));
            }
        }
    }
}

proof fn lemma_append_contains(
    x: Seq<(Ipv4Addr, u8)>,
    y: Seq<(Ipv4Addr, u8)>,
    id: (Ipv4Addr, u8),
)
    ensures
        (x + y).contains(id) <==> x.contains(id) || y.contains(id),
{
    if x.contains(id) {
        let i = x.index_of(id);
        assert((x + y)[i] == id);
    }
    if y.contains(id) {
        let i = y.index_of(id);
        assert((x + y)[x.len() + i] == id);
    }
    if (x + y).contains(id) {
        let i = (x + y).index_of(id);
        if i < x.len() {
            assert(x[i] == id);
        } else {
            assert(y[i - x.len()] == id);
        }
    }
}

/// Whether some block of `networks` holds `ip`.
pub open spec fn ghost_ip(ip: Ipv4Addr, networks: Seq<Ipv4Network>) -> bool {
    exists|i: int| 0 <= i < networks.len() && (#[trigger] networks[i]).has(ip)
}

/// Whether the address lies in a ghost subnet.
pub fn is_structural_ghost_ip(ip: Ipv4Addr, networks: &Vec<Ipv4Network>) -> (r: bool)
    ensures
        r == ghost_ip(ip, networks@),
{
    let mut i: usize = 0;
    while i < networks.len()
        invariant
            i <= networks.len(),
            forall|k: int| 0 <= k < i ==> !(#[trigger] networks@[k]).has(ip),
        decreases networks.len() - i,
    {
        if networks[i].contains(ip) {
            return true;
        }
        i += 1;
    }
    false
}

/// Whether the block `id` holds the lowest address of `n`, or the other way round.
pub open spec fn touches(id: (Ipv4Addr, u8), n: Ipv4Network) -> bool {
    let size = net::block_size(id.1 as int);
    n.has(net::address(id.0.num() / size * size)) || net::same_block(
        id.0,
        net::address(n.first()),
        id.1,
    )
}

/// Whether an adoption key names a block that touches one of `networks`.
pub open spec fn ghost_key(key: Seq<char>, networks: Seq<Ipv4Network>) -> bool {
    match net::cidr(key) {
        Some(id) => exists|i: int| 0 <= i < networks.len() && touches(id, #[trigger] networks[i]),
        None => false,
    }
}

/// Whether an adoption key overlaps a ghost subnet. A key that is no CIDR
/// notation overlaps nothing.
pub fn is_structural_ghost_adoption(subnet_key: &str, networks: &Vec<Ipv4Network>) -> (r: bool)
    ensures
        r == ghost_key(subnet_key@, networks@),
{
    let key_net = match Ipv4Network::parse(subnet_key) {
        Some(n) => n,
        None => {
            return false;
        },
    };
    let low = key_net.network();
    let ghost id = block_id(key_net);
    let _ = key_net.prefix();
    proof {
        net::law_block_bounds(key_net);
        net::law_num_injective(low, net::address(key_net.first()));
    }
    let mut i: usize = 0;
    while i < networks.len()
        invariant
            i <= networks.len(),
            id == block_id(key_net),
            net::cidr(subnet_key@) == Some(id),
            low == net::address(key_net.first()),
            forall|k: int| 0 <= k < i ==> !touches(id, #[trigger] networks@[k]),
        decreases networks.len() - i,
    {
        let n = networks[i];
        let _ = n.prefix();
        let other = n.network();
        proof {
            net::law_block_bounds(n);
            net::law_num_injective(other, net::address(n.first()));
        }
        if n.contains(low) || key_net.contains(other) {
            assert(touches(id, networks@[i as int]));
            return true;
        }
        i += 1;
    }
    false
}

/// An adoption key made from an address is a ghost exactly when its /24 shares an
/// address with a ghost subnet.
pub proof fn law_ghost_key_is_overlap(ip: Ipv4Addr, block: Ipv4Network, n: Ipv4Network)
    requires
        block_id(block) == (Ipv4Addr { a: ip.a, b: ip.b, c: ip.c, d: 0 }, 24u8),
        n.bits() <= 32,
    ensures
        ghost_key(net::subnet_key(ip), seq![n]) <==> exists|x: Ipv4Addr| block.has(x) && n.has(x),
{
    net::law_subnet_key_is_cidr(ip);
    net::law_blocks_overlap(block, n);
    let id = block_id(block);
    let nets = seq![n];
    assert(nets[0] == n);
    assert(touches(id, n) <==> block.has(net::address(n.first())) || n.has(
        net::address(block.first()),
    ));
    if touches(id, n) {
        assert(touches(id, nets[0]));
    }
}

/// What to do with a saved adoption at startup.
#[derive(Clone, Copy, Debug, PartialEq, Eq, Structural)]
pub enum AdoptionClass {
    /// Bind again and keep.
    Keep,
    /// The wired adapter covers this subnet by itself: drop it.
    PruneNative,
    /// The subnet belongs to an adapter off the wire: drop it.
    PruneGhost,
    /// The saved address does not parse: drop it.
    PruneInvalid,
}

/// The class of a saved adoption: native coverage first, then a ghost, then an
/// address that does not parse.
pub open spec fn adoption_class(
    key: Seq<char>,
    ip: Seq<char>,
    native: Set<Seq<char>>,
    ghosts: Seq<Ipv4Network>,
) -> AdoptionClass {
    if native.contains(key) {
        AdoptionClass::PruneNative
    } else if ghost_key(key, ghosts) {
        AdoptionClass::PruneGhost
    } else if !net::is_dotted(ip) {
        AdoptionClass::PruneInvalid
    } else {
        AdoptionClass::Keep
    }
}

/// What to do with a saved adoption at startup.
pub fn classify_adoption(
    subnet_key: &str,
    ip_str: &str,
    native_subnets: &TextSet,
    ghosts: &Vec<Ipv4Network>,
) -> (r: AdoptionClass)
    ensures
        r == adoption_class(subnet_key@, ip_str@, native_subnets@, ghosts@),
{
    if native_subnets.contains(subnet_key) {
        AdoptionClass::PruneNative
    } else if is_structural_ghost_adoption(subnet_key, ghosts) {
        AdoptionClass::PruneGhost
    } else if Ipv4Addr::parse(ip_str).is_none() {
        AdoptionClass::PruneInvalid
    } else {
        AdoptionClass::Keep
    }
}

/// A foreign subnet with a good address is kept: one that the wired adapter does
/// not cover and that touches no ghost.
pub proof fn law_foreign_adoption_is_kept(
    key: Seq<char>,
    ip: Ipv4Addr,
    native: Set<Seq<char>>,
    ghosts: Seq<Ipv4Network>,
)
    ensures
        adoption_class(key, net::dotted(ip), native, ghosts) == AdoptionClass::Keep
            <==> !native.contains(key) && !ghost_key(key, ghosts),
{
    assert(net::is_dotted(net::dotted(ip)));
}

/// Why a cached device is turned away.
#[derive(Clone, Copy, Debug, PartialEq, Eq, Structural)]
pub enum CacheReject {
    /// It lies in a ghost subnet.
    NonWiredSubnet,
    /// It sits at an address of this host.
    HostOwnedIp,
}

/// Why a cached row is turned away, if it is. A row whose address does not parse
/// is not judged.
pub open spec fn cache_reject(
    ip: Seq<char>,
    ghosts: Seq<Ipv4Network>,
    local_ips: Seq<Ipv4Addr>,
) -> Option<CacheReject> {
    match net::parsed(ip) {
        Some(addr) => if ghost_ip(addr, ghosts) {
            Some(CacheReject::NonWiredSubnet)
        } else if local_ips.contains(addr) {
            Some(CacheReject::HostOwnedIp)
        } else {
            None
        },
        None => None,
    }
}

/// Why a cached device is turned away, if it is.
pub fn cache_reject_of(
    device: &CachedDevice,
    ghosts: &Vec<Ipv4Network>,
    local_ips: &Vec<Ipv4Addr>,
) -> (r: Option<CacheReject>)
    ensures
        r == cache_reject(device.ip@, ghosts@, local_ips@),
{
    match Ipv4Addr::parse(device.ip.as_str()) {
        Some(addr) => if is_structural_ghost_ip(addr, ghosts) {
            Some(CacheReject::NonWiredSubnet)
        } else if net::holds(local_ips, addr) {
            Some(CacheReject::HostOwnedIp)
        } else {
            None
        },
        None => None,
    }
}

/// Being a cached row that is not turned away.
pub open spec fn let_in(ghosts: Seq<Ipv4Network>, local_ips: Seq<Ipv4Addr>) -> spec_fn(
    CachedView,
) -> bool {
    |d: CachedView| cache_reject(d.ip, ghosts, local_ips) is None
}

/// A cached row that is turned away, with the reason.
pub open spec fn turned_away(ghosts: Seq<Ipv4Network>, local_ips: Seq<Ipv4Addr>) -> spec_fn(
    CachedView,
) -> Option<(CachedView, CacheReject)> {
    |d: CachedView|
        match cache_reject(d.ip, ghosts, local_ips) {
            Some(why) => Some((d, why)),
            None => None,
        }
}

/// Rows with reasons, as text.
pub open spec fn rejects(s: Seq<(CachedDevice, CacheReject)>) -> Seq<(CachedView, CacheReject)> {
    s.map_values(|e: (CachedDevice, CacheReject)| (e.0@, e.1))
}

/// Parts the cached rows in those that are let in and those that are turned away,
/// each in their order.
pub fn partition_cached(
    cached: &Vec<CachedDevice>,
    ghosts: &Vec<Ipv4Network>,
    local_ips: &Vec<Ipv4Addr>,
) -> (r: (Vec<CachedDevice>, Vec<(CachedDevice, CacheReject)>))
    ensures
        text::views(r.0@) == text::views(cached@).filter(let_in(ghosts@, local_ips@)),
        rejects(r.1@) == text::views(cached@).filter_map(turned_away(ghosts@, local_ips@)),
{
    let ghost all = text::views(cached@);
    let ghost keep = let_in(ghosts@, local_ips@);
    let ghost away = turned_away(ghosts@, local_ips@);
    let mut allowed: Vec<CachedDevice> = Vec::new();
    let mut rejected: Vec<(CachedDevice, CacheReject)> = Vec::new();
    let mut i: usize = 0;
    proof {
        assert(all.take(0) =~= Seq::empty());
        reveal(Seq::filter);
        assert(text::views(allowed@) =~= all.take(0).filter(keep));
        assert(rejects(rejected@) =~= all.take(0).filter_map(away));
    }
    while i < cached.len()
        invariant
            i <= cached.len(),
            all == text::views(cached@),
            keep == let_in(ghosts@, local_ips@),
            away == turned_away(ghosts@, local_ips@),
            text::views(allowed@) == all.take(i as int).filter(keep),
            rejects(rejected@) == all.take(i as int).filter_map(away),
        decreases cached.len() - i,
    {
        let copy = cached[i].clone();
        proof {
            assert(all[i as int] == copy@);
            all.lemma_take_succ_push(i as int);
            all.take(i as int).lemma_filter_push(all[i as int], keep);
            all.lemma_filter_map_take_succ(away, i as int);
        }
        match cache_reject_of(&cached[i], ghosts, local_ips) {
            None => {
                proof {
                    text::lemma_views_push(allowed@, copy);
                }
                allowed.push(copy);
            },
            Some(why) => {
                let ghost before = rejected@;
                let ghost row = copy@;
                rejected.push((copy, why));
                assert(rejects(rejected@) =~= rejects(before).push((row, why)));
            },
        }
        i += 1;
    }
    assert(all.take(i as int) =~= all);
    (allowed, rejected)
}

/// A cached device that is neither in a ghost network nor at an address of the host is
/// kept, whether it is on the network or not.
pub proof fn law_foreign_row_is_kept(
    rows: Seq<CachedView>,
    i: int,
    ghosts: Seq<Ipv4Network>,
    local_ips: Seq<Ipv4Addr>,
)
    requires
        0 <= i < rows.len(),
        net::parsed(rows[i].ip) matches Some(ip) ==> !ghost_ip(ip, ghosts) && !local_ips.contains(
            ip,
        ),
    ensures
        rows.filter(let_in(ghosts, local_ips)).contains(rows[i]),
{
    rows.lemma_filter_contains(let_in(ghosts, local_ips), i);
}

/// Where nothing is known of the host's networks and addresses, no row is turned away.
pub proof fn law_nothing_known_rejects_nothing(ip: Seq<char>)
    ensures
        cache_reject(ip, Seq::empty(), Seq::empty()) is None,
{
}

/// The /24 of an address is a ghost exactly when some address on it lies in a block of
/// an adapter off the wire. A block that shares nothing with the /24 plays no part.
pub proof fn law_ghost_is_a_shared_address(ip: Ipv4Addr, networks: Seq<Ipv4Network>)
    requires
        forall|i: int| 0 <= i < networks.len() ==> (#[trigger] networks[i]).bits() <= 32,
    ensures
        ghost_ip(ip, networks) || ghost_key(net::subnet_key(ip), networks) <==> exists|
            i: int,
            x: Ipv4Addr,
        |
            0 <= i < networks.len() && #[trigger] networks[i].has(x) && x.a == ip.a && x.b == ip.b
                && x.c == ip.c,
{
    let base = Ipv4Addr { a: ip.a, b: ip.b, c: ip.c, d: 0 };
    let id = (base, 24u8);
    net::law_subnet_key_is_cidr(ip);
    if ghost_ip(ip, networks) {
        let i = choose|i: int| 0 <= i < networks.len() && (#[trigger] networks[i]).has(ip);
        assert(networks[i].has(ip));
    }
    if ghost_key(net::subnet_key(ip), networks) {
        let i = choose|i: int| 0 <= i < networks.len() && touches(id, #[trigger] networks[i]);
        lemma_touches_24(base, networks[i]);
        let x = choose|x: Ipv4Addr| #[trigger]
            networks[i].has(x) && x.a == base.a && x.b == base.b && x.c == base.c;
        assert(networks[i].has(x));
    }
    if exists|i: int, x: Ipv4Addr|
        0 <= i < networks.len() && #[trigger] networks[i].has(x) && x.a == ip.a && x.b == ip.b
            && x.c == ip.c {
        let (i, x) = choose|i: int, x: Ipv4Addr|
            0 <= i < networks.len() && #[trigger] networks[i].has(x) && x.a == ip.a && x.b == ip.b
                && x.c == ip.c;
        lemma_touches_24(base, networks[i]);
        assert(touches(id, networks[i]));
    }
}

proof fn lemma_touches_24(base: Ipv4Addr, n: Ipv4Network)
    requires
        base.d == 0,
        n.bits() <= 32,
    ensures
        touches((base, 24u8), n) <==> exists|x: Ipv4Addr| #[trigger]
            n.has(x) && x.a == base.a && x.b == base.b && x.c == base.c,
{
    vstd::arithmetic::power2::lemma2_to64();
    assert(net::block_size(24) == 256);
    net::law_block_bounds(n);
    let low = net::address(n.first());
    net::lemma_num_parts(low);
    net::lemma_num_parts(base);
    assert(base.num() / 256 * 256 == base.num());
    net::lemma_address_of_num(base);
    if n.has(base) {
        assert(touches((base, 24u8), n));
    }
    if net::same_block(base, low, 24) {
        assert(n.has(low) && low.a == base.a && low.b == base.b && low.c == base.c);
    }
    if exists|x: Ipv4Addr| #[trigger]
        n.has(x) && x.a == base.a && x.b == base.b && x.c == base.c {
        let x = choose|x: Ipv4Addr| #[trigger]
            n.has(x) && x.a == base.a && x.b == base.b && x.c == base.c;
        if n.first() <= base.num() {
            assert(n.has(base));
        } else {
            net::lemma_num_parts(x);
            assert(base.num() < low.num() <= x.num());
            assert(low.num() / 256 == base.num() / 256);
            assert(net::same_block(base, low, 24));
        }
    }
}

/// A saved adoption is bound again exactly when its key is none of the adapter's own, its
/// block shares nothing with an adapter off the wire, and its address parses; where it is
/// dropped, its own coverage is the first reason and a bad address the last.
pub proof fn law_saved_adoption(
    ip: Ipv4Addr,
    saved: Seq<char>,
    native: Set<Seq<char>>,
    ghosts: Seq<Ipv4Network>,
)
    requires
        forall|i: int| 0 <= i < ghosts.len() ==> (#[trigger] ghosts[i]).bits() <= 32,
    ensures
        ({
            let key = net::subnet_key(ip);
            let shared = exists|i: int, x: Ipv4Addr|
                0 <= i < ghosts.len() && #[trigger] ghosts[i].has(x) && x.a == ip.a && x.b == ip.b
                    && x.c == ip.c;
            let good = exists|x: Ipv4Addr| net::dotted(x) == saved;
            let class = adoption_class(key, saved, native, ghosts);
            &&& class == AdoptionClass::PruneNative <==> native.contains(key)
            &&& class == AdoptionClass::PruneGhost <==> !native.contains(key) && shared
            &&& class == AdoptionClass::PruneInvalid <==> !native.contains(key) && !shared && !good
            &&& class == AdoptionClass::Keep <==> !native.contains(key) && !shared && good
        }),
{
    law_ghost_is_a_shared_address(ip, ghosts);
    if ghost_ip(ip, ghosts) {
        let i = choose|i: int| 0 <= i < ghosts.len() && (#[trigger] ghosts[i]).has(ip);
        let base = Ipv4Addr { a: ip.a, b: ip.b, c: ip.c, d: 0 };
        net::law_subnet_key_is_cidr(ip);
        lemma_touches_24(base, ghosts[i]);
        assert(touches((base, 24u8), ghosts[i]));
    }
}

/// A cached row is turned away exactly when its address parses and lies in a block off
/// the wire or is one of the host's own; whatever else the row says plays no part.
pub proof fn law_cached_row_is_judged_by_its_address(
    ip: Seq<char>,
    ghosts: Seq<Ipv4Network>,
    local_ips: Seq<Ipv4Addr>,
)
    ensures
        cache_reject(ip, ghosts, local_ips) == Some(CacheReject::NonWiredSubnet) <==> exists|
            x: Ipv4Addr,
            i: int,
        |
            net::dotted(x) == ip && 0 <= i < ghosts.len() && #[trigger] ghosts[i].has(x),
        cache_reject(ip, ghosts, local_ips) == Some(CacheReject::HostOwnedIp) <==> exists|
            x: Ipv4Addr,
        |
            net::dotted(x) == ip && #[trigger] local_ips.contains(x) && forall|i: int|
                0 <= i < ghosts.len() ==> !(#[trigger] ghosts[i]).has(x),
{
    if net::is_dotted(ip) {
        let a = net::parsed(ip)->0;
        assert(net::dotted(a) == ip);
        assert forall|x: Ipv4Addr| net::dotted(x) == ip implies x == a by {
            net::law_dotted_injective(x, a);
        }
        if ghost_ip(a, ghosts) {
            let i = choose|i: int| 0 <= i < ghosts.len() && (#[trigger] ghosts[i]).has(a);
            assert(ghosts[i].has(a));
        }
        if local_ips.contains(a) && !ghost_ip(a, ghosts) {
            assert(local_ips.contains(a));
        }
    }
}

/// The two parts of a cache are all of it: a row is let in or turned away, never both,
/// and rows with one address share their fate.
pub proof fn law_rows_with_one_address_share_their_fate(
    x: CachedView,
    y: CachedView,
    ghosts: Seq<Ipv4Network>,
    local_ips: Seq<Ipv4Addr>,
)
    requires
        x.ip == y.ip,
    ensures
        let_in(ghosts, local_ips)(x) == let_in(ghosts, local_ips)(y),
        let_in(ghosts, local_ips)(x) <==> turned_away(ghosts, local_ips)(x) is None,
        turned_away(ghosts, local_ips)(x) matches Some((row, why)) ==> row == x
            && turned_away(ghosts, local_ips)(y) == Some((y, why)),
{
}

/// The block that an address of an adapter stands for: the block of its prefix
/// that holds the address, by its lowest address.
pub proof fn law_owned_block_holds_the_address(ip: IpInfo, x: Ipv4Addr)
    requires
        net::dotted(x) == ip.address@,
    ensures
        ip.prefix <= 32 <==> owned_block(ip) is Some,
        owned_block(ip) matches Some((low, bits)) ==> {
            &&& bits == ip.prefix
            &&& net::same_block(low, x, bits)
            &&& low.num() <= x.num()
            &&& low.num() % net::block_size(bits as int) == 0
        },
{
    net::law_parse_of_text(x);
    if ip.prefix <= 32 {
        net::lemma_lowest(x, ip.prefix);
    }
}

/// Any adoption key is a ghost exactly when it names a block that shares an address with
/// a block off the wire.
pub proof fn law_any_ghost_key_is_overlap(
    key: Seq<char>,
    base: Ipv4Addr,
    bits: u8,
    networks: Seq<Ipv4Network>,
)
    requires
        net::cidr(key) == Some((base, bits)),
        bits <= 32,
        forall|i: int| 0 <= i < networks.len() ==> (#[trigger] networks[i]).bits() <= 32,
    ensures
        ghost_key(key, networks) <==> exists|i: int, x: Ipv4Addr|
            0 <= i < networks.len() && #[trigger] networks[i].has(x) && net::same_block(
                base,
                x,
                bits,
            ),
{
    if ghost_key(key, networks) {
        let i = choose|i: int|
            0 <= i < networks.len() && touches((base, bits), #[trigger] networks[i]);
        net::lemma_blocks_touch(base, bits, networks[i]);
        let x = choose|x: Ipv4Addr| net::same_block(base, x, bits) && #[trigger] networks[i].has(x);
        assert(networks[i].has(x));
    }
    if exists|i: int, x: Ipv4Addr|
        0 <= i < networks.len() && #[trigger] networks[i].has(x) && net::same_block(base, x, bits) {
        let (i, x) = choose|i: int, x: Ipv4Addr|
            0 <= i < networks.len() && #[trigger] networks[i].has(x) && net::same_block(
                base,
                x,
                bits,
            );
        net::lemma_blocks_touch(base, bits, networks[i]);
        assert(touches((base, bits), networks[i]));
    }
}

/// A key that names no block is no ghost.
pub proof fn law_other_keys_are_no_ghosts(key: Seq<char>, networks: Seq<Ipv4Network>)
    requires
        net::cidr(key) is None,
    ensures
        !ghost_key(key, networks),
{
}

/// Each saved adoption has one class: the adapter's own subnet first, then a ghost, then
/// an address that does not parse; what is left is kept.
pub proof fn law_class_of_a_saved_adoption(
    key: Seq<char>,
    saved: Seq<char>,
    native: Set<Seq<char>>,
    ghosts: Seq<Ipv4Network>,
)
    ensures
        ({
            let good = exists|x: Ipv4Addr| net::dotted(x) == saved;
            let class = adoption_class(key, saved, native, ghosts);
            &&& class == AdoptionClass::PruneNative <==> native.contains(key)
            &&& class == AdoptionClass::PruneGhost <==> !native.contains(key) && ghost_key(
                key,
                ghosts,
            )
            &&& class == AdoptionClass::Keep <==> !native.contains(key) && !ghost_key(key, ghosts)
                && good
        }),
{
}

/// What is turned away and what is off the wire is listed as it is, in order.
pub proof fn law_lists_show_each_entry(
    away: Seq<(CachedDevice, CacheReject)>,
    nets: Seq<Ipv4Network>,
    i: int,
)
    ensures
        rejects(away).len() == away.len(),
        0 <= i < away.len() ==> rejects(away)[i] == (away[i].0@, away[i].1),
        block_ids(nets).len() == nets.len(),
        0 <= i < nets.len() ==> block_ids(nets)[i] == (nets[i].base(), nets[i].bits()),
{
}

} // verus!
