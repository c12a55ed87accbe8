//! Looking for cached devices on foreign subnets.
//!
//! Early in a session each foreign subnet of a cached device is bound for a moment, and
//! its cached addresses are asked for their MAC. A device that answers with the MAC it
//! has in the cache is handed on to be adopted at once.

use crate::config::{CachedDevice, CachedView};
use crate::ghost;
use crate::neighbors;
use crate::net;
use crate::net::{Ipv4Addr, Ipv4Network};
use crate::text;
use crate::textmap::TextSet;
use vstd::prelude::*;

verus! {

/// A subnet to look at, with the cached addresses and MACs on it.
pub struct ProbeCandidate {
    /// The /24 key of the addresses.
    pub subnet: String,
    /// In ascending order, none twice.
    pub pairs: Vec<(Ipv4Addr, String)>,
}

/// A subnet to look at, with text for strings.
#[verifier::ext_equal]
pub struct CandidateView {
    pub subnet: Seq<char>,
    pub pairs: Seq<(Ipv4Addr, Seq<char>)>,
}

impl View for ProbeCandidate {
    type V = CandidateView;

    open spec fn view(&self) -> CandidateView {
        CandidateView { subnet: self.subnet@, pairs: neighbors::pairs(self.pairs@) }
    }
}

/// The order of cached pairs: by address, and by MAC at one address.
pub open spec fn pair_before(x: (Ipv4Addr, Seq<char>), y: (Ipv4Addr, Seq<char>)) -> bool {
    x.0.num() < y.0.num() || (x.0 == y.0 && text::precedes(x.1, y.1))
}

/// Pairs in ascending order, none twice.
pub open spec fn ascending_pairs(s: Seq<(Ipv4Addr, Seq<char>)>) -> bool {
    forall|i: int, j: int| 0 <= i < j < s.len() ==> pair_before(#[trigger] s[i], #[trigger] s[j])
}

/// Candidates in ascending order of their subnets, none twice, each with its own pairs.
pub open spec fn ascending(s: Seq<CandidateView>) -> bool {
    &&& forall|i: int, j: int|
        0 <= i < j < s.len() ==> text::precedes((#[trigger] s[i]).subnet, (#[trigger] s[j]).subnet)
    &&& forall|i: int|
        0 <= i < s.len() ==> (#[trigger] s[i]).pairs.len() > 0 && ascending_pairs(s[i].pairs)
    &&& forall|i: int, k: int|
        0 <= i < s.len() && 0 <= k < s[i].pairs.len() ==> s[i].subnet == net::subnet_key(
            (#[trigger] s[i].pairs[k]).0,
        )
}

/// Whether the pair is one of the candidates'.
pub open spec fn offered(s: Seq<CandidateView>, p: (Ipv4Addr, Seq<char>)) -> bool {
    exists|i: int| 0 <= i < s.len() && (#[trigger] s[i]).pairs.contains(p)
}

/// The address and MAC of a cached row that is worth a look: both are good, and its /24
/// is not taken, nor a ghost.
pub open spec fn cached_pair(
    e: CachedView,
    native: Set<Seq<char>>,
    adopted: Set<Seq<char>>,
    pending: Set<Seq<char>>,
    ghosts: Seq<Ipv4Network>,
    attempted: Set<Seq<char>>,
) -> Option<(Ipv4Addr, Seq<char>)> {
    let mac = neighbors::common_mac(e.mac);
    match net::parsed(e.ip) {
        Some(ip) => {
            let key = net::subnet_key(ip);
            if neighbors::is_placeholder(mac) || native.contains(key) || adopted.contains(key)
                || pending.contains(key) || attempted.contains(key) || ghost::ghost_ip(ip, ghosts)
                || ghost::ghost_key(key, ghosts) {
                None
            } else {
                Some((ip, mac))
            }
        },
        None => None,
    }
}

proof fn lemma_pair_order(
    x: (Ipv4Addr, Seq<char>),
    y: (Ipv4Addr, Seq<char>),
    z: (Ipv4Addr, Seq<char>),
)
    ensures
        !pair_before(x, x),
        pair_before(x, y) && pair_before(y, z) ==> pair_before(x, z),
        pair_before(x, y) || pair_before(y, x) || x == y,
{
    text::lemma_precedes_irreflexive(x.1);
    text::lemma_precedes_total(x.1, y.1);
    if text::precedes(x.1, y.1) && text::precedes(y.1, z.1) {
        text::lemma_precedes_transitive(x.1, y.1, z.1);
    }
    if x.0.num() == y.0.num() {
        net::law_num_injective(x.0, y.0);
    }
}

fn insert_pair(list: &mut Vec<(Ipv4Addr, String)>, ip: Ipv4Addr, mac: String)
    requires
        ascending_pairs(neighbors::pairs(old(list)@)),
    ensures
        ascending_pairs(neighbors::pairs(final(list)@)),
        neighbors::pairs(final(list)@).len() > 0,
        forall|p: (Ipv4Addr, Seq<char>)| #[trigger]
            neighbors::pairs(final(list)@).contains(p) <==> neighbors::pairs(old(list)@).contains(p)
                || p == (ip, mac@),
{
    let ghost s = neighbors::pairs(list@);
    let ghost x = (ip, mac@);
    let mut j: usize = 0;
    while j < list.len() && (list[j].0.is_below(&ip) || (list[j].0 == ip && text::is_before(
        list[j].1.as_str(),
        mac.as_str(),
    )))
        invariant
            j <= list.len(),
            s == neighbors::pairs(list@),
            x == (ip, mac@),
            forall|k: int| 0 <= k < j ==> pair_before(#[trigger] s[k], x),
        decreases list.len() - j,
    {
        assert(s[j as int] == (list@[j as int].0, list@[j as int].1@));
        j += 1;
    }
    if j < list.len() {
        assert(s[j as int] == (list@[j as int].0, list@[j as int].1@));
        if list[j].0 == ip && text::same(list[j].1.as_str(), mac.as_str()) {
            assert(s[j as int] == x);
            return;
        }
    }
    list.insert(j, (ip, mac));
    proof {
        let t = neighbors::pairs(list@);
        assert(t =~= s.insert(j as int, x));
        assert(t[j as int] == x);
        if j < s.len() {
            lemma_pair_order(x, s[j as int], x);
            assert(pair_before(x, s[j as int]));
        }
        assert forall|a: int, b: int| 0 <= a < b < t.len() implies pair_before(
            #[trigger] t[a],
            #[trigger] t[b],
        ) by {
            if a < j && b == j {
                assert(t[a] == s[a]);
            } else if a == j && b > j {
                assert(t[b] == s[b - 1]);
                if b - 1 > j {
                    lemma_pair_order(x, s[j as int], s[b - 1]);
                }
            } else {
                let a2 = if a < j {
                    a
                } else {
                    a - 1
                };
                let b2 = if b < j {
                    b
                } else {
                    b - 1
                };
                assert(t[a] == s[a2] && t[b] == s[b2]);
            }
        }
        assert forall|p: (Ipv4Addr, Seq<char>)| #[trigger] t.contains(p) <==> s.contains(p) || p
            == x by {
            if t.contains(p) {
                let i = t.index_of(p);
                if i < j {
                    assert(s[i] == p);
                } else if i > j {
                    assert(s[i - 1] == p);
                }
            }
            if s.contains(p) {
                let i = s.index_of(p);
                assert(t[if i < j {
                    i
                } else {
                    i + 1
                }] == p);
            }
        }
    }
}

/// Puts a pair under the candidate of its /24.
fn insert_offer(list: &mut Vec<ProbeCandidate>, ip: Ipv4Addr, mac: String)
    requires
        ascending(text::views(old(list)@)),
    ensures
        ascending(text::views(final(list)@)),
        forall|p: (Ipv4Addr, Seq<char>)| #[trigger]
            offered(text::views(final(list)@), p) <==> offered(text::views(old(list)@), p) || p == (
                ip,
                mac@,
            ),
{
    let subnet = net::subnet_key_for(ip);
    let ghost s = text::views(list@);
    let ghost x = (ip, mac@);
    let ghost key = subnet@;
    let mut j: usize = 0;
    while j < list.len() && text::is_before(list[j].subnet.as_str(), subnet.as_str())
        invariant
            j <= list.len(),
            s == text::views(list@),
            key == subnet@,
            forall|k: int| 0 <= k < j ==> text::precedes((#[trigger] s[k]).subnet, key),
        decreases list.len() - j,
    {
        assert(s[j as int] == list@[j as int]@);
        j += 1;
    }
    if j < list.len() && text::same(list[j].subnet.as_str(), subnet.as_str()) {
        assert(s[j as int] == list@[j as int]@);
        assert(ascending_pairs(s[j as int].pairs));
        let mut pairs = copy_pairs(&list[j].pairs);
        insert_pair(&mut pairs, ip, mac);
        let c = ProbeCandidate { subnet, pairs };
        let ghost cv = c@;
        list[j] = c;
        proof {
            let t = text::views(list@);
            assert(t =~= s.update(j as int, cv));
            lemma_updated(s, j as int, cv, x);
        }
        return;
    }
    let mut pairs: Vec<(Ipv4Addr, String)> = Vec::new();
    proof {
        neighbors::lemma_pairs_push(pairs@, (ip, mac));
        assert(neighbors::pairs(pairs@) =~= Seq::empty());
    }
    pairs.push((ip, mac));
    let c = ProbeCandidate { subnet, pairs };
    let ghost cv = c@;
    assert(cv.pairs =~= seq![x]);
    list.insert(j, c);
    proof {
        let t = text::views(list@);
        assert(t =~= s.insert(j as int, cv));
        if j < s.len() {
            text::lemma_precedes_total(s[j as int].subnet, key);
            assert(s[j as int] == old(list)@[j as int]@);
        }
        lemma_inserted(s, j as int, cv, x);
    }
}

proof fn lemma_updated(s: Seq<CandidateView>, j: int, c: CandidateView, x: (Ipv4Addr, Seq<char>))
    requires
        ascending(s),
        0 <= j < s.len(),
        c.subnet == s[j].subnet,
        c.subnet == net::subnet_key(x.0),
        c.pairs.len() > 0,
        ascending_pairs(c.pairs),
        forall|p: (Ipv4Addr, Seq<char>)| #[trigger]
            c.pairs.contains(p) <==> s[j].pairs.contains(p) || p == x,
    ensures
        ascending(s.update(j, c)),
        forall|p: (Ipv4Addr, Seq<char>)| #[trigger]
            offered(s.update(j, c), p) <==> offered(s, p) || p == x,
{
    let t = s.update(j, c);
    assert forall|a: int, b: int| 0 <= a < b < t.len() implies text::precedes(
        (#[trigger] t[a]).subnet,
        (#[trigger] t[b]).subnet,
    ) by {
        assert(text::precedes(s[a].subnet, s[b].subnet));
    }
    assert forall|i: int, k: int| 0 <= i < t.len() && 0 <= k < t[i].pairs.len() implies t[i].subnet
        == net::subnet_key((#[trigger] t[i].pairs[k]).0) by {
        if i == j {
            let p = c.pairs[k];
            assert(c.pairs.contains(p));
            if s[j].pairs.contains(p) {
                let m = s[j].pairs.index_of(p);
                assert(s[j].pairs[m] == p);
            }
        } else {
            assert(t[i] == s[i]);
        }
    }
    assert forall|p: (Ipv4Addr, Seq<char>)| #[trigger] offered(t, p) <==> offered(s, p) || p
        == x by {
        if offered(t, p) {
            let i = choose|i: int| 0 <= i < t.len() && (#[trigger] t[i]).pairs.contains(p);
            assert(s[i].pairs.contains(p) || p == x);
        }
        if offered(s, p) {
            let i = choose|i: int| 0 <= i < s.len() && (#[trigger] s[i]).pairs.contains(p);
            assert(t[i].pairs.contains(p));
        }
        if p == x {
            assert(t[j].pairs.contains(p));
        }
    }
}

proof fn lemma_inserted(s: Seq<CandidateView>, j: int, c: CandidateView, x: (Ipv4Addr, Seq<char>))
    requires
        ascending(s),
        0 <= j <= s.len(),
        c.subnet == net::subnet_key(x.0),
        c.pairs == seq![x],
        forall|k: int| 0 <= k < j ==> text::precedes((#[trigger] s[k]).subnet, c.subnet),
        j < s.len() ==> text::precedes(c.subnet, s[j].subnet),
    ensures
        ascending(s.insert(j, c)),
        forall|p: (Ipv4Addr, Seq<char>)| #[trigger]
            offered(s.insert(j, c), p) <==> offered(s, p) || p == x,
{
    let t = s.insert(j, c);
    assert(t[j] == c);
    assert(c.pairs[0] == x);
    assert forall|a: int, b: int| 0 <= a < b < t.len() implies text::precedes(
        (#[trigger] t[a]).subnet,
        (#[trigger] t[b]).subnet,
    ) by {
        if a < j && b == j {
            assert(t[a] == s[a]);
        } else if a == j && b > j {
            assert(t[b] == s[b - 1]);
            if b - 1 > j {
                assert(text::precedes(s[j].subnet, s[b - 1].subnet));
                text::lemma_precedes_transitive(c.subnet, s[j].subnet, s[b - 1].subnet);
            }
        } else {
            let a2 = if a < j {
                a
            } else {
                a - 1
            };
            let b2 = if b < j {
                b
            } else {
                b - 1
            };
            assert(t[a] == s[a2] && t[b] == s[b2]);
        }
    }
    assert forall|i: int| 0 <= i < t.len() implies (#[trigger] t[i]).pairs.len() > 0
        && ascending_pairs(t[i].pairs) by {
        if i < j {
            assert(t[i] == s[i]);
        } else if i > j {
            assert(t[i] == s[i - 1]);
        }
    }
    assert forall|i: int, k: int| 0 <= i < t.len() && 0 <= k < t[i].pairs.len() implies t[i].subnet
        == net::subnet_key((#[trigger] t[i].pairs[k]).0) by {
        if i < j {
            assert(t[i] == s[i]);
            assert(s[i].pairs[k] == t[i].pairs[k]);
        } else if i > j {
            assert(t[i] == s[i - 1]);
            assert(s[i - 1].pairs[k] == t[i].pairs[k]);
        }
    }
    assert forall|p: (Ipv4Addr, Seq<char>)| #[trigger] offered(t, p) <==> offered(s, p) || p
        == x by {
        if offered(t, p) {
            let i = choose|i: int| 0 <= i < t.len() && (#[trigger] t[i]).pairs.contains(p);
            if i < j {
                assert(s[i].pairs.contains(p));
            } else if i > j {
                assert(s[i - 1].pairs.contains(p));
            }
        }
        if offered(s, p) {
            let i = choose|i: int| 0 <= i < s.len() && (#[trigger] s[i]).pairs.contains(p);
            let i2 = if i < j {
                i
            } else {
                i + 1
            };
            assert(t[i2] == s[i]);
            assert(t[i2].pairs.contains(p));
        }
        if p == x {
            assert(t[j].pairs.contains(p));
        }
    }
}

fn copy_pairs(list: &Vec<(Ipv4Addr, String)>) -> (r: Vec<(Ipv4Addr, String)>)
    ensures
        neighbors::pairs(r@) == neighbors::pairs(list@),
{
    let ghost all = neighbors::pairs(list@);
    let mut r: Vec<(Ipv4Addr, String)> = Vec::new();
    let mut i: usize = 0;
    assert(neighbors::pairs(r@) =~= all.take(0));
    while i < list.len()
        invariant
            i <= list.len(),
            all == neighbors::pairs(list@),
            neighbors::pairs(r@) == all.take(i as int),
        decreases list.len() - i,
    {
        let e = (list[i].0, list[i].1.clone());
        proof {
            all.lemma_take_succ_push(i as int);
            neighbors::lemma_pairs_push(r@, e);
        }
        r.push(e);
        i += 1;
    }
    assert(all.take(i as int) =~= all);
    r
}

/// The subnets to look at, from the device cache. Their /24 comes from the cached
/// addresses. Rows without a good MAC or address are passed over, and so are subnets
/// that the adapter has, that are adopted, that wait to be restored, that belong to an
/// adapter off the wire, and that were looked at before.
pub fn derive_candidates(
    cached: &Vec<CachedDevice>,
    native_subnets: &TextSet,
    adopted: &TextSet,
    pending_restore: &TextSet,
    ghost_nets: &Vec<Ipv4Network>,
    attempted: &TextSet,
) -> (r: Vec<ProbeCandidate>)
    ensures
        ascending(text::views(r@)),
        forall|p: (Ipv4Addr, Seq<char>)| #[trigger]
            offered(text::views(r@), p) <==> exists|i: int|
                0 <= i < cached@.len() && cached_pair(
                    (#[trigger] cached@[i])@,
                    native_subnets@,
                    adopted@,
                    pending_restore@,
                    ghost_nets@,
                    attempted@,
                ) == Some(p),
{
    let mut r: Vec<ProbeCandidate> = Vec::new();
    let mut i: usize = 0;
    while i < cached.len()
        invariant
            i <= cached.len(),
            ascending(text::views(r@)),
            forall|p: (Ipv4Addr, Seq<char>)| #[trigger]
                offered(text::views(r@), p) <==> exists|k: int|
                    0 <= k < i && cached_pair(
                        (#[trigger] cached@[k])@,
                        native_subnets@,
                        adopted@,
                        pending_restore@,
                        ghost_nets@,
                        attempted@,
                    ) == Some(p),
        decreases cached.len() - i,
    {
        let row = &cached[i];
        let ghost before = text::views(r@);
        let ghost this = cached_pair(
            row@,
            native_subnets@,
            adopted@,
            pending_restore@,
            ghost_nets@,
            attempted@,
        );
        let found: Option<(Ipv4Addr, String)> = match (
            neighbors::normalize_mac(row.mac.as_str()),
            Ipv4Addr::parse(row.ip.as_str()),
        ) {
            (Some(mac), Some(ip)) => {
                let subnet = net::subnet_key_for(ip);
                if native_subnets.contains(subnet.as_str()) || adopted.contains(subnet.as_str())
                    || pending_restore.contains(subnet.as_str()) || attempted.contains(
                    subnet.as_str(),
                ) || ghost::is_structural_ghost_ip(ip, ghost_nets)
                    || ghost::is_structural_ghost_adoption(subnet.as_str(), ghost_nets) {
                    None
                } else {
                    Some((ip, mac))
                }
            },
            _ => None,
        };
        assert(this == match found {
            Some(e) => Some((e.0, e.1@)),
            None => None,
        });
        if let Some((ip, mac)) = found {
            insert_offer(&mut r, ip, mac);
        }
        proof {
            assert forall|p: (Ipv4Addr, Seq<char>)| #[trigger]
                offered(text::views(r@), p) <==> exists|k: int|
                    0 <= k < i + 1 && cached_pair(
                        (#[trigger] cached@[k])@,
                        native_subnets@,
                        adopted@,
                        pending_restore@,
                        ghost_nets@,
                        attempted@,
                    ) == Some(p) by {
                assert(offered(text::views(r@), p) <==> offered(before, p) || this == Some(p));
                if this == Some(p) {
                    assert(cached_pair(
                        cached@[i as int]@,
                        native_subnets@,
                        adopted@,
                        pending_restore@,
                        ghost_nets@,
                        attempted@,
                    ) == Some(p));
                }
            }
        }
        i += 1;
    }
    r
}

/// A cached row is worth a look exactly when its address parses, its MAC in the common
/// form is a device's, its /24 is in none of the four sets, and no address of the /24
/// lies in a block off the wire; it is looked for at its address with that MAC.
pub proof fn law_which_rows_are_worth_a_look(
    e: CachedView,
    native: Set<Seq<char>>,
    adopted: Set<Seq<char>>,
    pending: Set<Seq<char>>,
    ghosts: Seq<Ipv4Network>,
    attempted: Set<Seq<char>>,
    ip: Ipv4Addr,
    mac: Seq<char>,
)
    requires
        forall|i: int| 0 <= i < ghosts.len() ==> (#[trigger] ghosts[i]).bits() <= 32,
    ensures
        cached_pair(e, native, adopted, pending, ghosts, attempted) == Some((ip, mac)) <==> {
            let key = net::subnet_key(ip);
            &&& e.ip == net::dotted(ip)
            &&& mac == text::lowercase(
                e.mac.map_values(
                    |c: char|
                        if c == '-' {
                            ':'
                        } else {
                            c
                        },
                ),
            )
            &&& !neighbors::is_placeholder(mac)
            &&& !native.contains(key) && !adopted.contains(key) && !pending.contains(key)
                && !attempted.contains(key)
            &&& forall|i: int, x: Ipv4Addr|
                0 <= i < ghosts.len() && #[trigger] ghosts[i].has(x) ==> x.a != ip.a || x.b != ip.b
                    || x.c != ip.c
        },
{
    let colons = e.mac.map_values(
        |c: char|
            if c == '-' {
                ':'
            } else {
                c
            },
    );
    assert(colons =~= text::replaced(e.mac, '-', ':'));
    net::law_parse_of_text(ip);
    ghost::law_ghost_is_a_shared_address(ip, ghosts);
    if net::parsed(e.ip) == Some(ip) {
        assert(net::dotted(ip) == e.ip);
    }
}

/// Only the MAC and the address of a cached row count: its label, ports, stored subnet
/// and time play no part.
pub proof fn law_labels_play_no_part(
    x: CachedView,
    y: CachedView,
    native: Set<Seq<char>>,
    adopted: Set<Seq<char>>,
    pending: Set<Seq<char>>,
    ghosts: Seq<Ipv4Network>,
    attempted: Set<Seq<char>>,
)
    requires
        x.mac == y.mac,
        x.ip == y.ip,
    ensures
        cached_pair(x, native, adopted, pending, ghosts, attempted) == cached_pair(
            y,
            native,
            adopted,
            pending,
            ghosts,
            attempted,
        ),
{
}

/// Every row that is worth a look is offered under the one candidate of its /24, and all
/// that is offered comes from such a row.
pub proof fn law_every_such_row_is_offered(
    list: Seq<CandidateView>,
    rows: Seq<CachedView>,
    native: Set<Seq<char>>,
    adopted: Set<Seq<char>>,
    pending: Set<Seq<char>>,
    ghosts: Seq<Ipv4Network>,
    attempted: Set<Seq<char>>,
    r: int,
    ip: Ipv4Addr,
)
    requires
        ascending(list),
        forall|p: (Ipv4Addr, Seq<char>)| #[trigger]
            offered(list, p) <==> exists|i: int|
                0 <= i < rows.len() && cached_pair(
                    #[trigger] rows[i],
                    native,
                    adopted,
                    pending,
                    ghosts,
                    attempted,
                ) == Some(p),
        forall|i: int| 0 <= i < ghosts.len() ==> (#[trigger] ghosts[i]).bits() <= 32,
        0 <= r < rows.len(),
        rows[r].ip == net::dotted(ip),
        !neighbors::is_placeholder(neighbors::common_mac(rows[r].mac)),
        !native.contains(net::subnet_key(ip)),
        !adopted.contains(net::subnet_key(ip)),
        !pending.contains(net::subnet_key(ip)),
        !attempted.contains(net::subnet_key(ip)),
        forall|i: int, x: Ipv4Addr|
            0 <= i < ghosts.len() && #[trigger] ghosts[i].has(x) ==> x.a != ip.a || x.b != ip.b
                || x.c != ip.c,
    ensures
        exists|j: int|
            0 <= j < list.len() && (#[trigger] list[j]).subnet == net::subnet_key(ip)
                && list[j].pairs.contains((ip, neighbors::common_mac(rows[r].mac))),
        forall|j: int, k: int|
            0 <= j < list.len() && 0 <= k < list.len() && (#[trigger] list[j]).subnet == (
            #[trigger] list[k]).subnet ==> j == k,
        forall|j: int, k: int|
            0 <= j < list.len() && 0 <= k < list[j].pairs.len() ==> exists|i: int|
                0 <= i < rows.len() && (#[trigger] rows[i]).ip == net::dotted(
                    (#[trigger] list[j].pairs[k]).0,
                ) && neighbors::common_mac(rows[i].mac) == list[j].pairs[k].1,
{
    let mac = neighbors::common_mac(rows[r].mac);
    let p = (ip, mac);
    net::law_parse_of_text(ip);
    ghost::law_ghost_is_a_shared_address(ip, ghosts);
    assert(cached_pair(rows[r], native, adopted, pending, ghosts, attempted) == Some(p));
    assert(offered(list, p));
    let j = choose|j: int| 0 <= j < list.len() && (#[trigger] list[j]).pairs.contains(p);
    let k = list[j].pairs.index_of(p);
    assert(list[j].pairs[k] == p);
    assert(list[j].subnet == net::subnet_key(list[j].pairs[k].0));
    assert forall|j: int, k: int|
        0 <= j < list.len() && 0 <= k < list.len() && (#[trigger] list[j]).subnet == (
        #[trigger] list[k]).subnet implies j == k by {
        if j < k {
            text::lemma_precedes_irreflexive(list[j].subnet);
        } else if k < j {
            text::lemma_precedes_irreflexive(list[j].subnet);
        }
    }
    assert forall|j: int, k: int| 0 <= j < list.len() && 0 <= k < list[j].pairs.len() implies exists|
        i: int,
    |
        0 <= i < rows.len() && (#[trigger] rows[i]).ip == net::dotted(
            (#[trigger] list[j].pairs[k]).0,
        ) && neighbors::common_mac(rows[i].mac) == list[j].pairs[k].1 by {
        let q = list[j].pairs[k];
        assert(list[j].pairs.contains(q));
        assert(offered(list, q));
        let i = choose|i: int|
            0 <= i < rows.len() && cached_pair(
                #[trigger] rows[i],
                native,
                adopted,
                pending,
                ghosts,
                attempted,
            ) == Some(q);
        assert(rows[i].ip == net::dotted(q.0));
    }
}

/// The candidates come in the order of their subnets, and the addresses of each in
/// ascending order, with one address's MACs in the order of their texts.
pub proof fn law_candidates_come_in_order(list: Seq<CandidateView>, i: int, j: int, k: int, m: int)
    requires
        ascending(list),
        0 <= i < j < list.len(),
        0 <= k < m < list[i].pairs.len(),
    ensures
        text::precedes(list[i].subnet, list[j].subnet),
        list[i].pairs[k].0.num() <= list[i].pairs[m].0.num(),
        list[i].pairs[k].0 == list[i].pairs[m].0 ==> text::precedes(
            list[i].pairs[k].1,
            list[i].pairs[m].1,
        ),
        list[i].subnet == net::subnet_key(list[i].pairs[k].0),
{
    assert(ascending_pairs(list[i].pairs));
    assert(pair_before(list[i].pairs[k], list[i].pairs[m]));
}

/// A candidate shows its subnet and its pairs.
pub proof fn law_what_a_candidate_shows(c: ProbeCandidate, i: int)
    ensures
        c@.subnet == c.subnet@,
        c@.pairs.len() == c.pairs@.len(),
        0 <= i < c.pairs@.len() ==> c@.pairs[i] == (c.pairs@[i].0, c.pairs@[i].1@),
{
}

} // verus!
