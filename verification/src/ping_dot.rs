//! The reachability checks of the listed devices.

use crate::device_registry::{DeviceRecord, RecordView};
use crate::net;
use crate::net::Ipv4Addr;
use crate::text;
use vstd::prelude::*;

verus! {

/// Whether the output of a ping shows an echo reply: only that carries the token, in
/// any language.
pub fn is_echo_reply(stdout: &str) -> (r: bool)
    ensures
        r == text::occurs("TTL="@, stdout@),
{
    text::contains(stdout, "TTL=")
}

/// The address of a record, if it parses.
pub open spec fn ping_target() -> spec_fn(RecordView) -> Option<Seq<char>> {
    |r: RecordView|
        if net::is_dotted(r.ip) {
            Some(r.ip)
        } else {
            None
        }
}

/// The addresses to ping: those of the records that parse.
pub fn ping_targets(snapshot: &Vec<DeviceRecord>) -> (r: Vec<String>)
    ensures
        text::views(r@) == text::views(snapshot@).filter_map(ping_target()),
{
    let ghost f = ping_target();
    let ghost all = text::views(snapshot@);
    let mut r: Vec<String> = Vec::new();
    let mut i: usize = 0;
    assert(all.take(0) =~= Seq::empty());
    assert(text::views(r@) =~= all.take(0).filter_map(f));
    while i < snapshot.len()
        invariant
            i <= snapshot.len(),
            f == ping_target(),
            all == text::views(snapshot@),
            text::views(r@) == all.take(i as int).filter_map(f),
        decreases snapshot.len() - i,
    {
        let ip = &snapshot[i].ip;
        proof {
            assert(all[i as int] == snapshot@[i as int]@);
            all.lemma_filter_map_take_succ(f, i as int);
        }
        if Ipv4Addr::parse(ip.as_str()).is_some() {
            let copy = ip.clone();
            proof {
                text::lemma_views_push(r@, copy);
            }
            r.push(copy);
        }
        i += 1;
    }
    assert(all.take(i as int) =~= all);
    r
}

/// Every listed device whose address parses is pinged at that address, and nothing else.
pub proof fn law_whom_to_ping(s: Seq<RecordView>, ip: Seq<char>)
    ensures
        s.filter_map(ping_target()).contains(ip) <==> exists|i: int|
            0 <= i < s.len() && (#[trigger] s[i]).ip == ip && exists|x: net::Ipv4Addr|
                net::dotted(x) == ip,
{
    let f = ping_target();
    text::lemma_filter_mapped(s, f, ip);
    if s.filter_map(f).contains(ip) {
        let i = choose|i: int| 0 <= i < s.len() && f(#[trigger] s[i]) == Some(ip);
        assert(s[i].ip == ip);
    }
    if exists|i: int|
        0 <= i < s.len() && (#[trigger] s[i]).ip == ip && exists|x: net::Ipv4Addr|
            net::dotted(x) == ip {
        let i = choose|i: int|
            0 <= i < s.len() && (#[trigger] s[i]).ip == ip && exists|x: net::Ipv4Addr|
                net::dotted(x) == ip;
        assert(f(s[i]) == Some(ip));
    }
}

} // verus!
