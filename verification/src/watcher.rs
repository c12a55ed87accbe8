//! What is shown of the camera port when the adapters change.

use crate::interface;
use crate::interface::{InterfaceInfo, InterfaceView};
use crate::text;
use vstd::prelude::*;

verus! {

/// Built like a camera port, and with an address.
pub open spec fn addressed_port(i: InterfaceInfo) -> bool {
    interface::wired_physical(i) && i.ips@.len() > 0
}

/// The place of the adapter to show: the first camera port with an address, or else the
/// first camera port, with or without a link.
pub fn pick(list: &Vec<InterfaceInfo>) -> (r: Option<usize>)
    ensures
        match r {
            Some(i) => i < list@.len() && interface::wired_physical(list@[i as int]) && if exists|
                k: int,
            |
                0 <= k < list@.len() && addressed_port(#[trigger] list@[k]) {
                addressed_port(list@[i as int]) && forall|k: int|
                    0 <= k < i ==> !addressed_port(#[trigger] list@[k])
            } else {
                forall|k: int| 0 <= k < i ==> !interface::wired_physical(#[trigger] list@[k])
            },
            None => forall|k: int|
                0 <= k < list@.len() ==> !interface::wired_physical(#[trigger] list@[k]),
        },
{
    let mut first: Option<usize> = None;
    let mut i: usize = 0;
    while i < list.len()
        invariant
            i <= list.len(),
            forall|k: int| 0 <= k < i ==> !addressed_port(#[trigger] list@[k]),
            match first {
                Some(f) => f < i && interface::wired_physical(list@[f as int]) && forall|k: int|
                    0 <= k < f ==> !interface::wired_physical(#[trigger] list@[k]),
                None => forall|k: int|
                    0 <= k < i ==> !interface::wired_physical(#[trigger] list@[k]),
            },
        decreases list.len() - i,
    {
        if interface::is_wired_physical(&list[i]) {
            if list[i].ips.len() > 0 {
                assert(addressed_port(list@[i as int]));
                return Some(i);
            }
            if first.is_none() {
                first = Some(i);
            }
        }
        i += 1;
    }
    first
}

/// What stands for the camera port where there is none.
pub open spec fn no_port() -> InterfaceView {
    InterfaceView {
        name: Seq::empty(),
        display_name: Seq::empty(),
        ips: Seq::empty(),
        mac: Seq::empty(),
        is_up: false,
        is_ethernet: true,
        is_wifi: false,
        is_vpn: false,
        is_virtual: false,
    }
}

/// The adapter to show; an empty one that is down where there is no camera port.
pub fn shown_adapter(list: Vec<InterfaceInfo>) -> (r: InterfaceInfo)
    ensures
        (forall|k: int| 0 <= k < list@.len() ==> !interface::wired_physical(#[trigger] list@[k]))
            ==> r@ == no_port(),
        (exists|k: int| 0 <= k < list@.len() && interface::wired_physical(#[trigger] list@[k]))
            ==> exists|i: int|
            0 <= i < list@.len() && #[trigger] list@[i] == r && interface::wired_physical(r) && if (
            exists|k: int| 0 <= k < list@.len() && addressed_port(#[trigger] list@[k])) {
                addressed_port(r) && forall|k: int|
                    0 <= k < i ==> !addressed_port(#[trigger] list@[k])
            } else {
                forall|k: int| 0 <= k < i ==> !interface::wired_physical(#[trigger] list@[k])
            },
{
    let ghost all = list@;
    match pick(&list) {
        Some(i) => {
            let mut list = list;
            let r = list.remove(i);
            assert(all[i as int] == r);
            r
        },
        None => {
            let ips: Vec<interface::IpInfo> = Vec::new();
            assert(text::views(ips@) =~= Seq::empty());
            InterfaceInfo {
                name: String::new(),
                display_name: String::new(),
                ips,
                mac: String::new(),
                is_up: false,
                is_ethernet: true,
                is_wifi: false,
                is_vpn: false,
                is_virtual: false,
            }
        },
    }
}

/// A port with an address is an Ethernet adapter, no VPN and no virtual one, that has an
/// address; whether it is up plays no part.
pub proof fn law_what_is_an_addressed_port(i: InterfaceInfo)
    ensures
        addressed_port(i) <==> i.is_ethernet && !i.is_vpn && !i.is_virtual && i.ips@.len() >= 1,
{
}

/// Without a port what is shown is an Ethernet adapter that is down, with no name, MAC or
/// address.
pub proof fn law_what_is_shown_without_a_port()
    ensures
        no_port().is_ethernet,
        !no_port().is_up,
        !no_port().is_wifi && !no_port().is_vpn && !no_port().is_virtual,
        no_port().name.len() == 0 && no_port().display_name.len() == 0,
        no_port().mac.len() == 0 && no_port().ips.len() == 0,
{
}

} // verus!
