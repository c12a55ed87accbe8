//! What the console keeps between runs, as far as the network logic reads it.

use crate::textmap::TextMap;
use vstd::prelude::*;

verus! {

/// The text in an optional string.
pub open spec fn opt_text(o: Option<String>) -> Option<Seq<char>> {
    match o {
        Some(s) => Some(s@),
        None => None,
    }
}

/// A copy of an optional string.
pub fn opt_clone(o: &Option<String>) -> (r: Option<String>)
    ensures
        r == *o,
{
    match o {
        Some(s) => Some(s.clone()),
        None => None,
    }
}

/// How the wired port gets its addresses.
#[derive(Clone, Copy, Debug, PartialEq, Eq, Structural)]
pub enum NetworkMode {
    /// Static addressing; devices are discovered.
    StaticAuto,
    /// Static addressing; only the user's pinned nodes are shown.
    StaticManual,
    /// Addresses from a DHCP server; devices are discovered.
    Dhcp,
}

/// One row of the device cache.
#[derive(Debug)]
pub struct CachedDevice {
    pub mac: String,
    pub ip: String,
    pub subnet: String,
    pub open_ports: Vec<u16>,
    pub alias: String,
    pub last_seen: String,
}

/// One row of the device cache, as text.
#[verifier::ext_equal]
pub struct CachedView {
    pub mac: Seq<char>,
    pub ip: Seq<char>,
    pub subnet: Seq<char>,
    pub open_ports: Seq<u16>,
    pub alias: Seq<char>,
    pub last_seen: Seq<char>,
}

impl View for CachedDevice {
    type V = CachedView;

    open spec fn view(&self) -> CachedView {
        CachedView {
            mac: self.mac@,
            ip: self.ip@,
            subnet: self.subnet@,
            open_ports: self.open_ports@,
            alias: self.alias@,
            last_seen: self.last_seen@,
        }
    }
}

impl Clone for CachedDevice {
    fn clone(&self) -> (r: CachedDevice)
        ensures
            r@ == self@,
    {
        CachedDevice {
            mac: self.mac.clone(),
            ip: self.ip.clone(),
            subnet: self.subnet.clone(),
            open_ports: copy_ports(&self.open_ports),
            alias: self.alias.clone(),
            last_seen: self.last_seen.clone(),
        }
    }
}

/// A copy of a port list.
pub fn copy_ports(ports: &Vec<u16>) -> (r: Vec<u16>)
    ensures
        r@ == ports@,
{
    let mut r: Vec<u16> = Vec::new();
    let mut i: usize = 0;
    while i < ports.len()
        invariant
            i <= ports.len(),
            r@ == ports@.take(i as int),
        decreases ports.len() - i,
    {
        proof {
            ports@.lemma_take_succ_push(i as int);
        }
        r.push(ports[i]);
        i += 1;
    }
    assert(ports@.take(i as int) =~= ports@);
    r
}

/// A node that the user pinned by address.
#[derive(Debug)]
pub struct ManualNode {
    pub ip: String,
    pub alias: String,
}

/// When a subnet was adopted and when a device was last seen on it (RFC 3339).
#[derive(Debug)]
pub struct AdoptedMeta {
    pub adopted_at: Option<String>,
    pub last_device_seen: Option<String>,
}

impl AdoptedMeta {
    /// Nothing recorded.
    pub fn none() -> (r: AdoptedMeta)
        ensures
            r.adopted_at is None,
            r.last_device_seen is None,
    {
        AdoptedMeta { adopted_at: None, last_device_seen: None }
    }
}

impl Clone for AdoptedMeta {
    fn clone(&self) -> (r: AdoptedMeta)
        ensures
            r == *self,
    {
        AdoptedMeta {
            adopted_at: opt_clone(&self.adopted_at),
            last_device_seen: opt_clone(&self.last_device_seen),
        }
    }
}

/// Settings of the video stream.
#[derive(Debug)]
pub struct StreamSettings {
    /// The camera that is streamed; empty if none was picked.
    pub camera_ip: String,
}

/// The settings that the network logic reads.
pub struct AppSettings {
    pub manual_nodes: Vec<ManualNode>,
    pub stream: StreamSettings,
    /// Adopted subnet to the address bound on it.
    pub adopted_subnets: TextMap<String>,
    pub adopted_meta: TextMap<AdoptedMeta>,
}

impl Default for AppSettings {
    /// Nothing configured.
    fn default() -> (r: AppSettings)
        ensures
            r.manual_nodes@.len() == 0,
            r.stream.camera_ip@.len() == 0,
            r.adopted_subnets@ == Map::<Seq<char>, String>::empty(),
            r.adopted_meta@ == Map::<Seq<char>, AdoptedMeta>::empty(),
    {
        AppSettings {
            manual_nodes: Vec::new(),
            stream: StreamSettings { camera_ip: String::new() },
            adopted_subnets: TextMap::new(),
            adopted_meta: TextMap::new(),
        }
    }
}

/// A cached row shows all that it holds as it is.
pub proof fn law_what_a_cached_row_shows(d: CachedDevice)
    ensures
        d@.mac == d.mac@,
        d@.ip == d.ip@,
        d@.subnet == d.subnet@,
        d@.open_ports == d.open_ports@,
        d@.alias == d.alias@,
        d@.last_seen == d.last_seen@,
{
}

} // verus!
