//! Network adapters: what they are called, what they hold, and which of them can
//! be the wired camera port.

use crate::command::CommandEnd;
use crate::config;
use crate::error::AppError;
use crate::json;
use crate::json::{Json, JsonView};
use crate::net;
use crate::net::{Ipv4Addr, Ipv4Network};
use crate::text;
use crate::textmap::TextMap;
use crate::time::Instant;
use vstd::prelude::*;

verus! {

/// An address on an adapter.
#[derive(Debug)]
pub struct IpInfo {
    pub address: String,
    pub prefix: u8,
    pub subnet: String,
}

impl Clone for IpInfo {
    fn clone(&self) -> (r: IpInfo)
        ensures
            r == *self,
    {
        IpInfo {
            address: self.address.clone(),
            prefix: self.prefix,
            subnet: self.subnet.clone(),
        }
    }
}

/// An address on an adapter, as text.
#[verifier::ext_equal]
pub struct IpView {
    pub address: Seq<char>,
    pub prefix: u8,
    pub subnet: Seq<char>,
}

impl View for IpInfo {
    type V = IpView;

    open spec fn view(&self) -> IpView {
        IpView { address: self.address@, prefix: self.prefix, subnet: self.subnet@ }
    }
}

/// A network adapter.
#[derive(Debug)]
pub struct InterfaceInfo {
    pub name: String,
    pub display_name: String,
    pub ips: Vec<IpInfo>,
    pub mac: String,
    pub is_up: bool,
    pub is_ethernet: bool,
    pub is_wifi: bool,
    pub is_vpn: bool,
    /// The system reports the adapter as virtual: a virtual switch, a host
    /// adapter of a virtual machine, or a tunnel.
    pub is_virtual: bool,
}

/// A network adapter, as text.
#[verifier::ext_equal]
pub struct InterfaceView {
    pub name: Seq<char>,
    pub display_name: Seq<char>,
    pub ips: Seq<IpView>,
    pub mac: Seq<char>,
    pub is_up: bool,
    pub is_ethernet: bool,
    pub is_wifi: bool,
    pub is_vpn: bool,
    pub is_virtual: bool,
}

impl View for InterfaceInfo {
    type V = InterfaceView;

    open spec fn view(&self) -> InterfaceView {
        InterfaceView {
            name: self.name@,
            display_name: self.display_name@,
            ips: text::views(self.ips@),
            mac: self.mac@,
            is_up: self.is_up,
            is_ethernet: self.is_ethernet,
            is_wifi: self.is_wifi,
            is_vpn: self.is_vpn,
            is_virtual: self.is_virtual,
        }
    }
}

/// Ethernet media, and neither VPN nor virtual.
pub open spec fn wired_physical(i: InterfaceInfo) -> bool {
    i.is_ethernet && !i.is_vpn && !i.is_virtual
}

/// A wired physical adapter with a link.
pub open spec fn wired_ethernet(i: InterfaceInfo) -> bool {
    i.is_up && wired_physical(i)
}

/// Whether the adapter is built like a camera port, whatever its link state.
pub fn is_wired_physical(i: &InterfaceInfo) -> (r: bool)
    ensures
        r == wired_physical(*i),
{
    i.is_ethernet && !i.is_vpn && !i.is_virtual
}

/// Whether the adapter is a camera port that is up.
pub fn is_wired_ethernet(i: &InterfaceInfo) -> (r: bool)
    ensures
        r == wired_ethernet(*i),
{
    i.is_up && is_wired_physical(i)
}

/// The words by which an adapter's description gives away a VPN.
pub open spec fn vpn_keywords() -> Seq<Seq<char>> {
    seq![
        "vpn"@,
        "tunnel"@,
        "tap-windows"@,
        "tap0"@,
        "wintun"@,
        "wireguard"@,
        "tailscale"@,
        "zerotier"@,
        "anyconnect"@,
        "fortinet"@,
        "pangp"@,
        "softether"@,
        "openvpn"@,
        "nordlynx"@,
    ]
}

/// Whether a description in small letters speaks of a VPN.
pub fn names_vpn(lower: &str) -> (r: bool)
    ensures
        r == text::any_occurs(vpn_keywords(), lower@),
{
    let words: [&str; 14] = [
        "vpn",
        "tunnel",
        "tap-windows",
        "tap0",
        "wintun",
        "wireguard",
        "tailscale",
        "zerotier",
        "anyconnect",
        "fortinet",
        "pangp",
        "softether",
        "openvpn",
        "nordlynx",
    ];
    let mut i: usize = 0;
    while i < 14
        invariant
            i <= 14,
            forall|k: int| 0 <= k < 14 ==> (#[trigger] words@[k])@ == vpn_keywords()[k],
            forall|k: int| 0 <= k < i ==> !text::occurs(#[trigger] vpn_keywords()[k], lower@),
        decreases 14 - i,
    {
        assert(words@[i as int]@ == vpn_keywords()[i as int]);
        if text::contains(lower, words[i]) {
            return true;
        }
        i += 1;
    }
    false
}

/// Whether an adapter's description speaks of a VPN, in whatever case.
pub fn is_vpn_adapter(description: &str) -> (r: bool)
    ensures
        r == text::any_occurs(vpn_keywords(), text::lowercase(description@)),
{
    let lower = text::to_lower(description);
    names_vpn(lower.as_str())
}

/// The values in the output of an adapter query: none in blank output, the items of an
/// array, and any other value by itself. The message if the output is not JSON.
pub open spec fn adapter_values(stdout: Seq<char>) -> Result<Seq<JsonView>, Seq<char>> {
    let t = text::trimmed(stdout);
    if t.len() == 0 {
        Ok(Seq::empty())
    } else {
        let read = if t[0] == '[' {
            json::read_array_text(stdout)
        } else {
            match json::read_text(stdout) {
                Ok(v) => Ok(seq![v]),
                Err(m) => Err(m),
            }
        };
        match read {
            Ok(s) => Ok(s),
            Err(m) => Err("Failed to parse adapter JSON: "@ + m),
        }
    }
}

/// Reads the output of an adapter query.
pub fn parse_adapter_json(stdout: &str) -> (r: Result<Vec<Json>, AppError>)
    ensures
        match (r, adapter_values(stdout@)) {
            (Ok(v), Ok(s)) => text::views(v@) == s,
            (Err(e), Err(m)) => e.text() == m,
            _ => false,
        },
{
    let t = text::trim(stdout);
    if t.is_empty() {
        let r: Vec<Json> = Vec::new();
        assert(text::views(r@) =~= Seq::empty());
        return Ok(r);
    }
    let read = if t.get_char(0) == '[' {
        json::read_array(stdout)
    } else {
        match json::read(stdout) {
            Ok(v) => {
                let mut one: Vec<Json> = Vec::new();
                proof {
                    text::lemma_views_push(one@, v);
                }
                one.push(v);
                assert(text::views(one@) =~= seq![v@]);
                Ok(one)
            },
            Err(e) => Err(e),
        }
    };
    match read {
        Ok(v) => Ok(v),
        Err(e) => {
            let mut m = String::from_str("Failed to parse adapter JSON: ");
            m.append(e.as_str());
            Err(AppError::Network(m))
        },
    }
}

/// Whether a medium's number stands for a wireless one.
pub open spec fn wireless_number(n: u64) -> bool {
    n == 1 || n == 8 || n == 9 || n == 10 || n == 12 || n == 13 || n == 20
}

/// Whether the physical medium is wireless: by its number, unless that is zero or
/// missing, and else by its name.
pub open spec fn wireless_medium(ndis: Option<u64>, name: Seq<char>) -> bool {
    match ndis {
        Some(n) if n != 0 => wireless_number(n),
        _ => text::occurs("802.11"@, text::ascii_lower(name)) || text::occurs(
            "wireless"@,
            text::ascii_lower(name),
        ),
    }
}

/// Whether the physical medium is wireless, whatever the logical one says.
pub fn physical_medium_is_wireless(ndis: Option<u64>, physical_media_type: &str) -> (r: bool)
    ensures
        r == wireless_medium(ndis, physical_media_type@),
{
    if let Some(n) = ndis {
        if n != 0 {
            return n == 1 || n == 8 || n == 9 || n == 10 || n == 12 || n == 13 || n == 20;
        }
    }
    let s = text::to_ascii_lower(physical_media_type);
    text::contains(s.as_str(), "802.11") || text::contains(s.as_str(), "wireless")
}

/// The lowest address of the block that an address lies in.
pub open spec fn lowest_text(ip: Ipv4Addr, prefix: u8) -> Seq<char> {
    let size = net::block_size(prefix as int);
    net::dotted(net::address(ip.num() / size * size))
}

/// The block that an address lies in, in CIDR notation.
pub open spec fn block_text(ip: Ipv4Addr, prefix: u8) -> Seq<char> {
    lowest_text(ip, prefix) + "/"@ + text::dec(prefix as nat)
}

/// The lowest address of the block that `ipnetwork` puts an address of either family in,
/// as it is printed; nothing where the text is no address or the prefix is too long.
pub uninterp spec fn lowest_of(addr: Seq<char>, prefix: u8) -> Option<Seq<char>>;

/// `ipnetwork::IpNetwork::network` of `ipnetwork::IpNetwork::new` on a parsed address. The
/// result is named by `lowest_of`; of an IPv4 address it is known in full.
#[verifier::external_body]
fn lowest_address(addr: &str, prefix: u8) -> (r: Option<String>)
    ensures
        config::opt_text(r) == lowest_of(addr@, prefix),
        net::parsed(addr@) matches Some(ip) ==> config::opt_text(r) == if prefix <= 32 {
            Some(lowest_text(ip, prefix))
        } else {
            None
        },
{
    let net = ipnetwork::IpNetwork::new(addr.parse().ok()?, prefix).ok()?;
    Some(net.network().to_string())
}

/// The block of an address of either family, in CIDR notation, if there is one.
pub open spec fn network_of(addr: Seq<char>, prefix: u8) -> Option<Seq<char>> {
    match lowest_of(addr, prefix) {
        Some(lowest) => Some(lowest + "/"@ + text::dec(prefix as nat)),
        None => None,
    }
}

/// An address in an adapter's listing: nothing without an address, or with one that is
/// in no block. A missing prefix counts as 24, and only the low byte of it counts.
pub open spec fn listed_ip() -> spec_fn(JsonView) -> Option<IpView> {
    |v: JsonView|
        match json::string_in(json::member(v, "Address"@)) {
            Some(address) => {
                let prefix = listed_prefix(v);
                match network_of(address, prefix) {
                    Some(subnet) => Some(IpView { address, prefix, subnet }),
                    None => None,
                }
            },
            None => None,
        }
}

/// The prefix length in an adapter's listing.
pub open spec fn listed_prefix(v: JsonView) -> u8 {
    match json::number_in(json::member(v, "PrefixLength"@)) {
        Some(n) => (n % 256) as u8,
        None => 24,
    }
}

/// The entries of an adapter's address list, which a single entry may stand for.
pub open spec fn ip_entries(a: JsonView) -> Seq<JsonView> {
    match json::member(a, "IPs"@) {
        JsonView::Array(s) => s,
        JsonView::Object(s) => seq![JsonView::Object(s)],
        _ => Seq::empty(),
    }
}

/// The string of a member; empty if it has none.
pub open spec fn text_or_empty(a: JsonView, key: Seq<char>) -> Seq<char> {
    match json::string_in(json::member(a, key)) {
        Some(s) => s,
        None => Seq::empty(),
    }
}

/// The adapter that a value of an adapter query describes.
pub open spec fn adapter(a: JsonView, force_vpn: bool) -> InterfaceView {
    let name = text_or_empty(a, "Name"@);
    let media = text_or_empty(a, "MediaType"@);
    let wireless = wireless_medium(
        json::number_in(json::member(a, "NdisPhysicalMedium"@)),
        text_or_empty(a, "PhysicalMediaType"@),
    );
    InterfaceView {
        name,
        display_name: name,
        ips: ip_entries(a).filter_map(listed_ip()),
        mac: text::replaced(text_or_empty(a, "MacAddress"@), '-', ':'),
        is_up: text::ascii_lower(text_or_empty(a, "Status"@)) == "up"@,
        is_ethernet: text::occurs("802.3"@, media) && !wireless,
        is_wifi: text::occurs("802.11"@, media) || wireless,
        is_vpn: force_vpn || text::any_occurs(
            vpn_keywords(),
            text::lowercase(text_or_empty(a, "Description"@)),
        ),
        is_virtual: json::bool_in(json::member(a, "Virtual"@)) == Some(true),
    }
}

fn text_of<'a>(a: &'a Json, key: &str) -> (r: &'a str)
    ensures
        r@ == text_or_empty(a@, key@),
{
    match a.text_of(key) {
        Some(s) => s,
        None => {
            proof {
                reveal_strlit("");
                assert(""@ =~= Seq::empty());
            }
            ""
        },
    }
}

/// An address with its block, if both are good.
pub fn ip_info(address: &str, prefix: u8) -> (r: Option<IpInfo>)
    ensures
        match (r, network_of(address@, prefix)) {
            (Some(i), Some(subnet)) => i@ == (IpView { address: address@, prefix, subnet }),
            (None, None) => true,
            _ => false,
        },
        net::parsed(address@) matches Some(ip) ==> match r {
            Some(i) => prefix <= 32 && i@ == (IpView {
                address: address@,
                prefix,
                subnet: block_text(ip, prefix),
            }),
            None => prefix > 32,
        },
{
    match lowest_address(address, prefix) {
        Some(lowest) => {
            let mut subnet = lowest;
            subnet.append("/");
            text::push_dec(&mut subnet, prefix as u64);
            Some(IpInfo { address: String::from_str(address), prefix, subnet })
        },
        None => None,
    }
}

fn push_listed_ip(v: &Json, out: &mut Vec<IpInfo>)
    ensures
        text::views(final(out)@) == match listed_ip()(v@) {
            Some(i) => text::views(old(out)@).push(i),
            None => text::views(old(out)@),
        },
{
    let address = match v.text_of("Address") {
        Some(s) => s,
        None => {
            return ;
        },
    };
    let prefix: u8 = match v.number_of("PrefixLength") {
        Some(n) => (n % 256) as u8,
        None => 24,
    };
    if let Some(i) = ip_info(address, prefix) {
        proof {
            text::lemma_views_push(out@, i);
        }
        out.push(i);
    }
}

fn listed_ips(a: &Json) -> (r: Vec<IpInfo>)
    ensures
        text::views(r@) == ip_entries(a@).filter_map(listed_ip()),
{
    let mut out: Vec<IpInfo> = Vec::new();
    let ghost f = listed_ip();
    let ghost all = ip_entries(a@);
    assert(text::views(out@) =~= Seq::empty());
    match a.get("IPs") {
        Some(Json::Array(v)) => {
            let mut i: usize = 0;
            assert(all.take(0) =~= Seq::empty());
            assert(text::views(out@) =~= all.take(0).filter_map(f));
            while i < v.len()
                invariant
                    i <= v.len(),
                    f == listed_ip(),
                    all == ip_entries(a@),
                    all.len() == v@.len(),
                    forall|k: int| 0 <= k < v@.len() ==> #[trigger] all[k] == v@[k]@,
                    text::views(out@) == all.take(i as int).filter_map(f),
                decreases v.len() - i,
            {
                proof {
                    all.lemma_filter_map_take_succ(f, i as int);
                    assert(all[i as int] == v@[i as int]@);
                }
                push_listed_ip(&v[i], &mut out);
                i += 1;
            }
            assert(all.take(i as int) =~= all);
        },
        Some(one) => {
            if let Json::Object(_) = one {
                push_listed_ip(one, &mut out);
                proof {
                    assert(all =~= seq![one@]);
                    assert(all.take(0) =~= Seq::empty());
                    assert(all.take(1) =~= all);
                    all.lemma_filter_map_take_succ(f, 0);
                }
            } else {
                assert(all.take(0) =~= all);
            }
        },
        None => {},
    }
    out
}

/// Reads one value of an adapter query. With `force_vpn` the adapter is a VPN whatever
/// its description says.
pub fn parse_adapter(a: &Json, force_vpn: bool) -> (r: InterfaceInfo)
    ensures
        r@ == adapter(a@, force_vpn),
{
    let name = text_of(a, "Name");
    let media = text_of(a, "MediaType");
    let wireless = physical_medium_is_wireless(
        a.number_of("NdisPhysicalMedium"),
        text_of(a, "PhysicalMediaType"),
    );
    proof {
        reveal_strlit("Up");
        reveal_strlit("up");
        assert(text::ascii_lower("Up"@) =~= "up"@);
    }
    InterfaceInfo {
        name: String::from_str(name),
        display_name: String::from_str(name),
        ips: listed_ips(a),
        mac: text::replace_char(text_of(a, "MacAddress"), '-', ':'),
        is_up: text::same_ignoring_case(text_of(a, "Status"), "Up"),
        is_ethernet: text::contains(media, "802.3") && !wireless,
        is_wifi: text::contains(media, "802.11") || wireless,
        is_vpn: force_vpn || is_vpn_adapter(text_of(a, "Description")),
        is_virtual: match a.bool_of("Virtual") {
            Some(b) => b,
            None => false,
        },
    }
}

/// An adapter whose physical medium is wireless is no camera port, whatever its logical
/// medium says.
pub proof fn law_wireless_is_not_wired(a: JsonView, force_vpn: bool, i: InterfaceInfo)
    requires
        i@ == adapter(a, force_vpn),
        wireless_medium(
            json::number_in(json::member(a, "NdisPhysicalMedium"@)),
            text_or_empty(a, "PhysicalMediaType"@),
        ),
    ensures
        !wired_physical(i),
        i.is_wifi,
{
    assert(i@.is_ethernet == i.is_ethernet);
    assert(i@.is_wifi == i.is_wifi);
}

/// An adapter that is a VPN by its description or by the caller's word is no camera
/// port.
pub proof fn law_vpn_is_not_wired(a: JsonView, force_vpn: bool, i: InterfaceInfo)
    requires
        i@ == adapter(a, force_vpn),
        force_vpn || text::any_occurs(
            vpn_keywords(),
            text::lowercase(text_or_empty(a, "Description"@)),
        ),
    ensures
        !wired_physical(i),
{
    assert(i@.is_vpn == i.is_vpn);
}

/// The adapters that the output of a query lists.
pub open spec fn adapters_in(stdout: Seq<char>) -> Result<Seq<InterfaceView>, Seq<char>> {
    match adapter_values(stdout) {
        Ok(s) => Ok(s.map_values(|a: JsonView| adapter(a, false))),
        Err(m) => Err(m),
    }
}

/// The adapters that the output of a query lists: physical ones, or all, as was asked.
pub fn list_adapters(stdout: &str) -> (r: Result<Vec<InterfaceInfo>, AppError>)
    ensures
        match (r, adapters_in(stdout@)) {
            (Ok(v), Ok(s)) => text::views(v@) == s,
            (Err(e), Err(m)) => e.text() == m,
            _ => false,
        },
{
    let values = match parse_adapter_json(stdout) {
        Ok(v) => v,
        Err(e) => {
            return Err(e);
        },
    };
    let ghost f = |a: JsonView| adapter(a, false);
    let ghost all = text::views(values@).map_values(f);
    let mut r: Vec<InterfaceInfo> = Vec::new();
    let mut i: usize = 0;
    assert(text::views(r@) =~= all.take(0));
    while i < values.len()
        invariant
            i <= values.len(),
            f == (|a: JsonView| adapter(a, false)),
            all == text::views(values@).map_values(f),
            text::views(r@) == all.take(i as int),
        decreases values.len() - i,
    {
        let x = parse_adapter(&values[i], false);
        proof {
            assert(all[i as int] == x@);
            all.lemma_take_succ_push(i as int);
            text::lemma_views_push(r@, x);
        }
        r.push(x);
        i += 1;
    }
    assert(all.take(i as int) =~= all);
    Ok(r)
}

/// A virtual adapter that is a VPN by its description.
pub open spec fn vpn_in() -> spec_fn(JsonView) -> Option<InterfaceView> {
    |a: JsonView|
        if text::any_occurs(
            vpn_keywords(),
            text::lowercase(text_or_empty(a, "Description"@)),
        ) {
            Some(adapter(a, true))
        } else {
            None
        }
}

/// The VPN adapters among the virtual ones that the output of a query lists.
pub fn list_vpn(stdout: &str) -> (r: Result<Vec<InterfaceInfo>, AppError>)
    ensures
        match (r, adapter_values(stdout@)) {
            (Ok(v), Ok(s)) => text::views(v@) == s.filter_map(vpn_in()),
            (Err(e), Err(m)) => e.text() == m,
            _ => false,
        },
{
    let values = match parse_adapter_json(stdout) {
        Ok(v) => v,
        Err(e) => {
            return Err(e);
        },
    };
    let ghost f = vpn_in();
    let ghost all = text::views(values@);
    let mut r: Vec<InterfaceInfo> = Vec::new();
    let mut i: usize = 0;
    assert(all.take(0) =~= Seq::empty());
    assert(text::views(r@) =~= all.take(0).filter_map(f));
    while i < values.len()
        invariant
            i <= values.len(),
            f == vpn_in(),
            all == text::views(values@),
            text::views(r@) == all.take(i as int).filter_map(f),
        decreases values.len() - i,
    {
        let a = &values[i];
        proof {
            assert(all[i as int] == a@);
            all.lemma_filter_map_take_succ(f, i as int);
        }
        if is_vpn_adapter(text_of(a, "Description")) {
            let x = parse_adapter(a, true);
            proof {
                text::lemma_views_push(r@, x);
            }
            r.push(x);
        }
        i += 1;
    }
    assert(all.take(i as int) =~= all);
    Ok(r)
}

/// The script of an adapter query with a condition on the adapters.
pub open spec fn query_text(filter: Seq<char>) -> Seq<char> {
    "Get-NetAdapter | Where-Object { ($_.Status -eq 'Up' -or $_.Status -eq 'Disconnected') -and "@
        + filter
        + r#" } | ForEach-Object {
            $adapter = $_
            $ips = @(Get-NetIPAddress -InterfaceIndex $_.ifIndex -AddressFamily IPv4 -ErrorAction SilentlyContinue)
            [PSCustomObject]@{
                Name = $adapter.Name
                Description = $adapter.InterfaceDescription
                MacAddress = $adapter.MacAddress
                MediaType = $adapter.MediaType
                PhysicalMediaType = [string]$adapter.PhysicalMediaType
                NdisPhysicalMedium = $adapter.NdisPhysicalMedium
                Status = $adapter.Status
                Virtual = $adapter.Virtual
                IPs = @($ips | ForEach-Object {
                    [PSCustomObject]@{
                        Address = $_.IPAddress
                        PrefixLength = $_.PrefixLength
                    }
                })
            }
        } | ConvertTo-Json -Depth 3 -Compress"#@
}

/// The script that lists the adapters that are up or without a link and meet a
/// condition.
pub fn adapter_query(filter: &str) -> (r: String)
    ensures
        r@ == query_text(filter@),
{
    let mut r = String::from_str(
        "Get-NetAdapter | Where-Object { ($_.Status -eq 'Up' -or $_.Status -eq 'Disconnected') -and ",
    );
    r.append(filter);
    r.append(
        r#" } | ForEach-Object {
            $adapter = $_
            $ips = @(Get-NetIPAddress -InterfaceIndex $_.ifIndex -AddressFamily IPv4 -ErrorAction SilentlyContinue)
            [PSCustomObject]@{
                Name = $adapter.Name
                Description = $adapter.InterfaceDescription
                MacAddress = $adapter.MacAddress
                MediaType = $adapter.MediaType
                PhysicalMediaType = [string]$adapter.PhysicalMediaType
                NdisPhysicalMedium = $adapter.NdisPhysicalMedium
                Status = $adapter.Status
                Virtual = $adapter.Virtual
                IPs = @($ips | ForEach-Object {
                    [PSCustomObject]@{
                        Address = $_.IPAddress
                        PrefixLength = $_.PrefixLength
                    }
                })
            }
        } | ConvertTo-Json -Depth 3 -Compress"#,
    );
    r
}

/// The failure of an adapter query, if it failed.
pub open spec fn query_failure(end: CommandEnd) -> Option<Seq<char>> {
    match end {
        CommandEnd::NotRun(e) => Some("Failed to run PowerShell: "@ + e@),
        CommandEnd::TimedOut => Some(
            "Adapter enumeration timed out after 10s (PowerShell/WMI may be hung)"@,
        ),
        CommandEnd::Ended(out) => if out.success {
            None
        } else {
            Some(
                "Adapter enumeration failed (exit "@ + text::signed_dec(
                    (match out.code {
                        Some(c) => c,
                        None => -1i32,
                    }) as int,
                ) + "): "@ + text::trimmed(out.stderr@),
            )
        },
    }
}

/// The output of an adapter query; an error if it failed, so that a failure is not
/// taken for an empty list.
pub fn query_output(end: CommandEnd) -> (r: Result<String, AppError>)
    ensures
        match r {
            Ok(stdout) => query_failure(end) is None && (end matches CommandEnd::Ended(out)
                && stdout == out.stdout),
            Err(e) => query_failure(end) == Some(e.text()),
        },
{
    match end {
        CommandEnd::NotRun(e) => {
            let mut m = String::from_str("Failed to run PowerShell: ");
            m.append(e.as_str());
            Err(AppError::Network(m))
        },
        CommandEnd::TimedOut => Err(
            AppError::Network(
                String::from_str(
                    "Adapter enumeration timed out after 10s (PowerShell/WMI may be hung)",
                ),
            ),
        ),
        CommandEnd::Ended(out) => {
            if out.success {
                return Ok(out.stdout);
            }
            let mut m = String::from_str("Adapter enumeration failed (exit ");
            let c: i32 = match out.code {
                Some(c) => c,
                None => -1i32,
            };
            text::push_signed(&mut m, c);
            m.append("): ");
            m.append(text::trim(out.stderr.as_str()));
            Err(AppError::Network(m))
        },
    }
}

/// The last output that was logged, and how many like it were held back since.
pub open spec fn log_view(last: Option<(String, u64)>) -> Option<(Seq<char>, u64)> {
    match last {
        Some((s, n)) => Some((s@, n)),
        None => None,
    }
}

/// Whether to log the output of an adapter query, with the number of like ones that
/// were held back since the last; nothing where it is like the last one.
pub fn enumeration_log_action(last: &mut Option<(String, u64)>, current: &str) -> (r: Option<u64>)
    requires
        log_view(*old(last)) matches Some((s, n)) ==> n < u64::MAX,
    ensures
        match log_view(*old(last)) {
            Some((s, n)) => if s == current@ {
                r is None && log_view(*final(last)) == Some((s, (n + 1) as u64))
            } else {
                r == Some(n) && log_view(*final(last)) == Some((current@, 0u64))
            },
            None => r == Some(0u64) && log_view(*final(last)) == Some((current@, 0u64)),
        },
{
    let mut was: Option<(String, u64)> = None;
    std::mem::swap(last, &mut was);
    match was {
        Some((s, n)) => if text::same(s.as_str(), current) {
            *last = Some((s, n + 1));
            None
        } else {
            *last = Some((String::from_str(current), 0));
            Some(n)
        },
        None => {
            *last = Some((String::from_str(current), 0));
            Some(0)
        },
    }
}

/// An adapter as the system's own interface reports it, without a query.
pub struct RawAdapter {
    pub name: String,
    pub mac: Option<String>,
    pub is_up: bool,
    pub is_loopback: bool,
    /// The IPv4 addresses with their prefix lengths.
    pub ips: Vec<(Ipv4Addr, u8)>,
}

/// An address of the host: its block, or the address itself where the prefix is too
/// long.
pub open spec fn own_ip(e: (Ipv4Addr, u8)) -> IpView {
    IpView {
        address: net::dotted(e.0),
        prefix: e.1,
        subnet: if e.1 <= 32 {
            block_text(e.0, e.1)
        } else {
            net::dotted(e.0) + "/"@ + text::dec(e.1 as nat)
        },
    }
}

/// An address of the host.
pub fn own_address(addr: Ipv4Addr, prefix: u8) -> (r: IpInfo)
    ensures
        r@ == own_ip((addr, prefix)),
{
    let base = match Ipv4Network::new(addr, prefix) {
        Some(n) => {
            let lowest = n.network();
            proof {
                net::lemma_address_of_num(lowest);
            }
            lowest
        },
        None => addr,
    };
    let mut subnet = base.text();
    subnet.append("/");
    text::push_dec(&mut subnet, prefix as u64);
    IpInfo { address: addr.text(), prefix, subnet }
}

/// The addresses of the host.
pub fn own_addresses(ips: &Vec<(Ipv4Addr, u8)>) -> (r: Vec<IpInfo>)
    ensures
        text::views(r@) == ips@.map_values(|e: (Ipv4Addr, u8)| own_ip(e)),
{
    let ghost all = ips@.map_values(|e: (Ipv4Addr, u8)| own_ip(e));
    let mut r: Vec<IpInfo> = Vec::new();
    let mut i: usize = 0;
    assert(text::views(r@) =~= all.take(0));
    while i < ips.len()
        invariant
            i <= ips.len(),
            all == ips@.map_values(|e: (Ipv4Addr, u8)| own_ip(e)),
            text::views(r@) == all.take(i as int),
        decreases ips.len() - i,
    {
        let x = own_address(ips[i].0, ips[i].1);
        proof {
            assert(all[i as int] == x@);
            all.lemma_take_succ_push(i as int);
            text::lemma_views_push(r@, x);
        }
        r.push(x);
        i += 1;
    }
    assert(all.take(i as int) =~= all);
    r
}

/// Whether a name in small letters is that of a tunnel.
pub open spec fn tunnel_name(lower: Seq<char>) -> bool {
    "tun"@.is_prefix_of(lower) || "tap"@.is_prefix_of(lower) || "wg"@.is_prefix_of(lower)
        || text::occurs("tailscale"@, lower)
}

/// The adapter that the system's own interface reports; its kind shows in its name.
pub open spec fn named_adapter(raw: RawAdapter, lower: Seq<char>) -> InterfaceView {
    InterfaceView {
        name: raw.name@,
        display_name: raw.name@,
        ips: raw.ips@.map_values(|e: (Ipv4Addr, u8)| own_ip(e)),
        mac: match raw.mac {
            Some(m) => m@,
            None => Seq::empty(),
        },
        is_up: raw.is_up,
        is_ethernet: "eth"@.is_prefix_of(lower) || "en"@.is_prefix_of(lower),
        is_wifi: "wl"@.is_prefix_of(lower),
        is_vpn: tunnel_name(lower),
        is_virtual: tunnel_name(lower),
    }
}

/// The adapter that the system's own interface reports, given its name in small
/// letters.
pub fn adapter_of_raw(raw: &RawAdapter, lower: &str) -> (r: InterfaceInfo)
    ensures
        r@ == named_adapter(*raw, lower@),
{
    let tunnel = text::starts_with(lower, "tun") || text::starts_with(lower, "tap")
        || text::starts_with(lower, "wg") || text::contains(lower, "tailscale");
    let mac = match &raw.mac {
        Some(m) => m.clone(),
        None => String::new(),
    };
    InterfaceInfo {
        name: raw.name.clone(),
        display_name: raw.name.clone(),
        ips: own_addresses(&raw.ips),
        mac,
        is_up: raw.is_up,
        is_ethernet: text::starts_with(lower, "eth") || text::starts_with(lower, "en"),
        is_wifi: text::starts_with(lower, "wl"),
        is_vpn: tunnel,
        is_virtual: tunnel,
    }
}

/// An adapter that is not the loopback.
pub open spec fn outward() -> spec_fn(RawAdapter) -> Option<InterfaceView> {
    |raw: RawAdapter|
        if raw.is_loopback {
            None
        } else {
            Some(named_adapter(raw, text::lowercase(raw.name@)))
        }
}

/// The adapters that the system's own interface reports, but for the loopback.
pub fn adapters_of_raw(raw: &Vec<RawAdapter>) -> (r: Vec<InterfaceInfo>)
    ensures
        text::views(r@) == raw@.filter_map(outward()),
{
    let ghost f = outward();
    let ghost all = raw@;
    let mut r: Vec<InterfaceInfo> = Vec::new();
    let mut i: usize = 0;
    assert(all.take(0) =~= Seq::empty());
    assert(text::views(r@) =~= all.take(0).filter_map(f));
    while i < raw.len()
        invariant
            i <= raw.len(),
            f == outward(),
            all == raw@,
            text::views(r@) == all.take(i as int).filter_map(f),
        decreases raw.len() - i,
    {
        proof {
            all.lemma_filter_map_take_succ(f, i as int);
        }
        if !raw[i].is_loopback {
            let lower = text::to_lower(raw[i].name.as_str());
            let x = adapter_of_raw(&raw[i], lower.as_str());
            proof {
                text::lemma_views_push(r@, x);
            }
            r.push(x);
        }
        i += 1;
    }
    assert(all.take(i as int) =~= all);
    r
}

/// The MAC in the first six bytes of a hardware address; empty where it is shorter.
pub open spec fn hardware_mac(bytes: Seq<u8>, length: u32) -> Seq<char> {
    if length >= 6 {
        text::low_hex2(bytes[0]) + ":"@ + text::low_hex2(bytes[1]) + ":"@ + text::low_hex2(
            bytes[2],
        ) + ":"@ + text::low_hex2(bytes[3]) + ":"@ + text::low_hex2(bytes[4]) + ":"@
            + text::low_hex2(bytes[5])
    } else {
        Seq::empty()
    }
}

/// The MAC in a hardware address of which `length` bytes count.
pub fn mac_of_hardware(bytes: &[u8; 8], length: u32) -> (r: String)
    ensures
        r@ == hardware_mac(bytes@, length),
{
    let mut r = String::new();
    if length < 6 {
        return r;
    }
    text::push_low_hex2(&mut r, bytes[0]);
    let mut i: usize = 1;
    while i < 6
        invariant
            1 <= i <= 6,
            r@ == mac_upto(bytes@, i as int),
        decreases 6 - i,
    {
        r.append(":");
        text::push_low_hex2(&mut r, bytes[i]);
        i += 1;
    }
    proof {
        reveal_with_fuel(mac_upto, 6);
    }
    r
}

spec fn mac_upto(bytes: Seq<u8>, n: int) -> Seq<char>
    decreases n,
{
    if n <= 1 {
        text::low_hex2(bytes[0])
    } else {
        mac_upto(bytes, n - 1) + ":"@ + text::low_hex2(bytes[n - 1])
    }
}

/// An adapter's state without a query.
pub struct LocalAdapter {
    pub mac: Option<String>,
    pub is_up: bool,
    pub ips: Vec<IpInfo>,
}

/// Whether the adapter has the MAC, in whatever case.
pub open spec fn has_mac(a: LocalAdapter, mac: Seq<char>) -> bool {
    a.mac matches Some(m) && text::lowercase(m@) == text::lowercase(mac)
}

/// The state and the addresses of the first adapter with a MAC.
pub fn quick_status_by_mac(adapters: &Vec<LocalAdapter>, mac: &str) -> (r: Option<
    (bool, Vec<IpInfo>),
>)
    ensures
        match r {
            Some((up, ips)) => exists|i: int|
                0 <= i < adapters@.len() && has_mac(#[trigger] adapters@[i], mac@) && up
                    == adapters@[i].is_up && text::views(ips@) == text::views(adapters@[i].ips@)
                    && forall|k: int| 0 <= k < i ==> !has_mac(#[trigger] adapters@[k], mac@),
            None => forall|k: int|
                0 <= k < adapters@.len() ==> !has_mac(#[trigger] adapters@[k], mac@),
        },
{
    let target = text::to_lower(mac);
    let mut i: usize = 0;
    while i < adapters.len()
        invariant
            i <= adapters.len(),
            target@ == text::lowercase(mac@),
            forall|k: int| 0 <= k < i ==> !has_mac(#[trigger] adapters@[k], mac@),
        decreases adapters.len() - i,
    {
        let hit = match &adapters[i].mac {
            Some(m) => {
                let lower = text::to_lower(m.as_str());
                text::same(lower.as_str(), target.as_str())
            },
            None => false,
        };
        if hit {
            assert(has_mac(adapters@[i as int], mac@));
            return Some((adapters[i].is_up, copy_ips(&adapters[i].ips)));
        }
        i += 1;
    }
    None
}

/// A copy of an address list.
pub fn copy_ips(ips: &Vec<IpInfo>) -> (r: Vec<IpInfo>)
    ensures
        r@ == ips@,
{
    let mut r: Vec<IpInfo> = Vec::new();
    let mut i: usize = 0;
    assert(r@ =~= ips@.take(0));
    while i < ips.len()
        invariant
            i <= ips.len(),
            r@ == ips@.take(i as int),
        decreases ips.len() - i,
    {
        proof {
            ips@.lemma_take_succ_push(i as int);
        }
        r.push(ips[i].clone());
        i += 1;
    }
    assert(ips@.take(i as int) =~= ips@);
    r
}

/// The addresses of all adapters that parse, in order.
pub open spec fn local_addresses(adapters: Seq<LocalAdapter>) -> Seq<Ipv4Addr>
    decreases adapters.len(),
{
    if adapters.len() == 0 {
        Seq::empty()
    } else {
        local_addresses(adapters.drop_last()) + adapters.last().ips@.filter_map(
            address_in(),
        )
    }
}

/// The address, if it parses.
pub open spec fn address_in() -> spec_fn(IpInfo) -> Option<Ipv4Addr> {
    |i: IpInfo| net::parsed(i.address@)
}

/// Every IPv4 address of the host.
pub fn all_local_ipv4(adapters: &Vec<LocalAdapter>) -> (r: Vec<Ipv4Addr>)
    ensures
        r@ == local_addresses(adapters@),
{
    let ghost f = address_in();
    let ghost all = adapters@;
    let mut r: Vec<Ipv4Addr> = Vec::new();
    let mut i: usize = 0;
    assert(all.take(0) =~= Seq::empty());
    assert(r@ =~= local_addresses(all.take(0)));
    while i < adapters.len()
        invariant
            i <= adapters.len(),
            f == address_in(),
            all == adapters@,
            r@ == local_addresses(all.take(i as int)),
        decreases adapters.len() - i,
    {
        let ips = &adapters[i].ips;
        let ghost start = r@;
        let mut j: usize = 0;
        proof {
            assert(all.take(i + 1).drop_last() =~= all.take(i as int));
            assert(all.take(i + 1).last() == all[i as int]);
            assert(ips@.take(0) =~= Seq::empty());
            assert(r@ =~= start + ips@.take(0).filter_map(f));
        }
        while j < ips.len()
            invariant
                j <= ips.len(),
                f == address_in(),
                r@ == start + ips@.take(j as int).filter_map(f),
            decreases ips.len() - j,
        {
            proof {
                ips@.lemma_filter_map_take_succ(f, j as int);
            }
            if let Some(ip) = Ipv4Addr::parse(ips[j].address.as_str()) {
                r.push(ip);
                assert(r@ =~= start + ips@.take(j + 1).filter_map(f));
            }
            j += 1;
        }
        assert(ips@.take(j as int) =~= ips@);
        i += 1;
    }
    assert(all.take(i as int) =~= all);
    r
}

/// Whether some adapter of the list has the name.
pub open spec fn is_listed(list: Seq<InterfaceInfo>, name: Seq<char>) -> bool {
    exists|i: int| 0 <= i < list.len() && (#[trigger] list[i]).name@ == name
}

fn find_name(list: &Vec<InterfaceInfo>, name: &str) -> (r: Option<usize>)
    ensures
        match r {
            Some(i) => i < list@.len() && list@[i as int].name@ == name@ && forall|k: int|
                0 <= k < i ==> (#[trigger] list@[k]).name@ != name@,
            None => !is_listed(list@, name@),
        },
{
    let mut i: usize = 0;
    while i < list.len()
        invariant
            i <= list.len(),
            forall|k: int| 0 <= k < i ==> (#[trigger] list@[k]).name@ != name@,
        decreases list.len() - i,
    {
        if text::same(list[i].name.as_str(), name) {
            return Some(i);
        }
        i += 1;
    }
    None
}

/// The first adapter of the list with a name.
pub fn get_by_name(list: Vec<InterfaceInfo>, name: &str) -> (r: Result<InterfaceInfo, AppError>)
    ensures
        match r {
            Ok(found) => exists|i: int|
                0 <= i < list@.len() && #[trigger] list@[i] == found && found.name@ == name@
                    && forall|k: int| 0 <= k < i ==> (#[trigger] list@[k]).name@ != name@,
            Err(e) => !is_listed(list@, name@) && e.text() == "Interface '"@ + name@
                + "' not found"@,
        },
{
    let ghost all = list@;
    match find_name(&list, name) {
        Some(i) => {
            let mut list = list;
            let found = list.remove(i);
            assert(all[i as int] == found);
            Ok(found)
        },
        None => {
            let mut e = String::from_str("Interface '");
            e.append(name);
            e.append("' not found");
            Err(AppError::Network(e))
        },
    }
}

/// How long a name that was found counts as known, in seconds.
pub const VALIDATION_TTL: u64 = 30;

/// The names that were found lately.
pub struct ValidatedNames {
    names: TextMap<Instant>,
}

impl View for ValidatedNames {
    type V = Map<Seq<char>, Instant>;

    closed spec fn view(&self) -> Map<Seq<char>, Instant> {
        self.names@
    }
}

/// Whether the name was found lately.
pub open spec fn found_lately(m: Map<Seq<char>, Instant>, name: Seq<char>, now: Instant) -> bool {
    m.contains_key(name) && !now.since_spec(m[name]).reaches_spec(VALIDATION_TTL)
}

impl ValidatedNames {
    pub fn new() -> (r: ValidatedNames)
        ensures
            r@ == Map::<Seq<char>, Instant>::empty(),
    {
        ValidatedNames { names: TextMap::new() }
    }

    /// Whether the name was found lately, so that the adapters need not be listed.
    pub fn recently_validated(&self, name: &str, now: Instant) -> (r: bool)
        ensures
            r == found_lately(self@, name@, now),
    {
        match self.names.get(name) {
            Some(t) => !now.since(*t).reaches(VALIDATION_TTL),
            None => false,
        }
    }

    /// Remembers that the name was found.
    pub fn remember_validated(&mut self, name: &str, now: Instant)
        ensures
            final(self)@ == old(self)@.insert(name@, now),
    {
        self.names.insert(String::from_str(name), now);
    }

    /// Checks that the name is that of an adapter: one that was found lately, or one of
    /// the list.
    pub fn validate_interface_name(
        &mut self,
        name: &str,
        known: &Vec<InterfaceInfo>,
        now: Instant,
    ) -> (r: Result<(), AppError>)
        ensures
            r is Ok <==> found_lately(old(self)@, name@, now) || is_listed(known@, name@),
            r matches Err(e) ==> e.text() == "Unknown network interface: "@ + name@,
            final(self)@ == if !found_lately(old(self)@, name@, now) && is_listed(known@, name@) {
                old(self)@.insert(name@, now)
            } else {
                old(self)@
            },
    {
        if self.recently_validated(name, now) {
            return Ok(());
        }
        match find_name(known, name) {
            Some(_) => {
                self.remember_validated(name, now);
                Ok(())
            },
            None => {
                let mut e = String::from_str("Unknown network interface: ");
                e.append(name);
                Err(AppError::Network(e))
            },
        }
    }
}

/// A wired port is an Ethernet adapter that is neither a VPN nor virtual; a wired adapter
/// in use is up, too.
pub proof fn law_what_is_wired(i: InterfaceInfo)
    ensures
        wired_physical(i) <==> i.is_ethernet && !i.is_vpn && !i.is_virtual,
        wired_ethernet(i) <==> i.is_up && i.is_ethernet && !i.is_vpn && !i.is_virtual,
{
}

/// The names that mark a VPN.
pub proof fn law_which_names_mark_a_vpn()
    ensures
        vpn_keywords() == seq![
            "vpn"@, "tunnel"@, "tap-windows"@, "tap0"@, "wintun"@, "wireguard"@, "tailscale"@,
            "zerotier"@, "anyconnect"@, "fortinet"@, "pangp"@, "softether"@, "openvpn"@, "nordlynx"@,
        ],
{
}

/// The driver's number for the medium decides where it gives one; only without a number,
/// or with zero, does the name of the medium count, whatever its case.
pub proof fn law_when_a_medium_is_wireless(n: u64, x: Seq<char>, y: Seq<char>)
    requires
        text::ascii_lower(x) == text::ascii_lower(y),
    ensures
        n != 0 ==> (wireless_medium(Some(n), x) <==> n == 1 || n == 8 || n == 9 || n == 10 || n == 12
            || n == 13 || n == 20),
        n != 0 ==> forall|z: Seq<char>| #[trigger]
            wireless_medium(Some(n), z) == wireless_medium(Some(n), x),
        wireless_medium(Some(0), x) == wireless_medium(None, y),
        wireless_medium(None, x) <==> text::occurs("802.11"@, text::ascii_lower(x))
            || text::occurs("wireless"@, text::ascii_lower(x)),
{
}

/// An address in a listing has the listed text and the low byte of the listed prefix, or
/// 24 without one; its subnet is the block that holds it.
pub proof fn law_what_a_listed_address_says(v: JsonView, address: Seq<char>, n: u64)
    requires
        json::member(v, "Address"@) == JsonView::Text(address),
    ensures
        ({
            let r = listed_ip()(v);
            let prefix: u8 = match json::member(v, "PrefixLength"@) {
                JsonView::Number(Some(n)) => (n % 256) as u8,
                _ => 24,
            };
            &&& r is Some <==> lowest_of(address, prefix) is Some
            &&& r matches Some(i) ==> {
                &&& i.address == address
                &&& i.prefix == prefix
                &&& i.subnet == lowest_of(address, prefix)->0 + "/"@ + text::dec(prefix as nat)
            }
        }),
{
}

/// Without the text of an address nothing is listed.
pub proof fn law_no_address_no_entry(v: JsonView)
    requires
        !(json::member(v, "Address"@) is Text),
    ensures
        listed_ip()(v) is None,
{
}

/// What an adapter's listing says of it: each answer comes from its own member, and no
/// other member changes it.
pub proof fn law_what_an_adapters_listing_says(a: JsonView, force_vpn: bool)
    ensures
        ({
            let i = adapter(a, force_vpn);
            let wireless = wireless_medium(
                match json::member(a, "NdisPhysicalMedium"@) {
                    JsonView::Number(n) => n,
                    _ => None,
                },
                text_or_empty(a, "PhysicalMediaType"@),
            );
            &&& i.name == text_or_empty(a, "Name"@)
            &&& i.display_name == i.name
            &&& i.mac.len() == text_or_empty(a, "MacAddress"@).len()
            &&& forall|k: int|
                0 <= k < i.mac.len() ==> #[trigger] i.mac[k] == if text_or_empty(
                    a,
                    "MacAddress"@,
                )[k] == '-' {
                    ':'
                } else {
                    text_or_empty(a, "MacAddress"@)[k]
                }
            &&& i.is_up <==> text::ascii_lower(text_or_empty(a, "Status"@)) == "up"@
            &&& i.is_ethernet <==> text::occurs("802.3"@, text_or_empty(a, "MediaType"@))
                && !wireless
            &&& i.is_wifi <==> text::occurs("802.11"@, text_or_empty(a, "MediaType"@)) || wireless
            &&& i.is_virtual <==> json::member(a, "Virtual"@) == JsonView::Bool(true)
            &&& force_vpn ==> i.is_vpn
            &&& !force_vpn ==> (i.is_vpn <==> exists|k: int|
                0 <= k < vpn_keywords().len() && text::occurs(
                    #[trigger] vpn_keywords()[k],
                    text::lowercase(text_or_empty(a, "Description"@)),
                ))
            &&& force_vpn ==> i == (InterfaceView { is_vpn: true, ..adapter(a, false) })
        }),
{
}

/// The addresses of an adapter are the listed ones that are good: a list of them, or one
/// alone.
pub proof fn law_which_addresses_are_listed(a: JsonView, ip: IpView, s: Seq<JsonView>)
    requires
        json::member(a, "IPs"@) == JsonView::Array(s),
    ensures
        adapter(a, false).ips.contains(ip) <==> exists|i: int|
            0 <= i < s.len() && listed_ip()(#[trigger] s[i]) == Some(ip),
{
    text::lemma_filter_mapped(s, listed_ip(), ip);
}

/// A single address may stand without a list; without any there is none.
pub proof fn law_one_address_needs_no_list(a: JsonView, o: Seq<(Seq<char>, JsonView)>)
    ensures
        json::member(a, "IPs"@) == JsonView::Object(o) ==> ip_entries(a) == seq![
            JsonView::Object(o),
        ],
        json::member(a, "IPs"@) is Null ==> ip_entries(a).len() == 0,
{
}

/// A listed adapter is a VPN one exactly when its description names one; it is then
/// listed as such.
pub proof fn law_which_adapters_are_vpns(a: JsonView)
    ensures
        vpn_in()(a) is Some <==> adapter(a, false).is_vpn,
        vpn_in()(a) matches Some(i) ==> i.is_vpn && i.name == text_or_empty(a, "Name"@),
{
}

/// An empty answer lists no adapter, and every value of an answer that reads is one.
pub proof fn law_each_value_is_an_adapter(stdout: Seq<char>, s: Seq<JsonView>, i: int)
    ensures
        text::trimmed(stdout).len() == 0 ==> (adapters_in(stdout) matches Ok(v) && v.len() == 0),
        adapter_values(stdout) == Ok::<Seq<JsonView>, Seq<char>>(s) && 0 <= i < s.len() ==> (
        adapters_in(stdout) matches Ok(v) && v.len() == s.len() && v[i] == adapter(s[i], false)),
{
}

/// A query fails exactly when it was not run, ran out of time, or ended without success.
pub proof fn law_when_a_query_fails(end: CommandEnd)
    ensures
        query_failure(end) is None <==> (end matches CommandEnd::Ended(out) && out.success),
{
}

/// An address of the host has its text, its prefix, and the block that holds it.
pub proof fn law_what_an_own_address_says(ip: Ipv4Addr, prefix: u8)
    requires
        prefix <= 32,
    ensures
        ({
            let i = own_ip((ip, prefix));
            let low = net::address(
                ip.num() / net::block_size(prefix as int) * net::block_size(prefix as int),
            );
            &&& net::parsed(i.address) == Some(ip)
            &&& i.prefix == prefix
            &&& i.subnet == net::dotted(low) + "/"@ + text::dec(prefix as nat)
            &&& net::same_block(low, ip, prefix)
            &&& low.num() <= ip.num()
        }),
{
    net::law_parse_of_text(ip);
    net::lemma_lowest(ip, prefix);
}

/// By its name an adapter is Ethernet, wireless or a tunnel; a tunnel counts as a VPN and
/// as virtual.
pub proof fn law_what_a_name_says(raw: RawAdapter, lower: Seq<char>)
    ensures
        ({
            let i = named_adapter(raw, lower);
            let tunnel = "tun"@.is_prefix_of(lower) || "tap"@.is_prefix_of(lower)
                || "wg"@.is_prefix_of(lower) || text::occurs("tailscale"@, lower);
            &&& i.name == raw.name@ && i.display_name == raw.name@
            &&& i.is_up == raw.is_up
            &&& i.is_ethernet <==> "eth"@.is_prefix_of(lower) || "en"@.is_prefix_of(lower)
            &&& i.is_wifi <==> "wl"@.is_prefix_of(lower)
            &&& i.is_vpn <==> tunnel
            &&& i.is_virtual <==> tunnel
            &&& i.mac == match raw.mac {
                Some(m) => m@,
                None => Seq::empty(),
            }
            &&& i.ips.len() == raw.ips@.len()
            &&& forall|k: int| 0 <= k < i.ips.len() ==> #[trigger] i.ips[k] == own_ip(raw.ips@[k])
            &&& raw.is_loopback <==> outward()(raw) is None
            &&& !raw.is_loopback ==> outward()(raw) == Some(
                named_adapter(raw, text::lowercase(raw.name@)),
            )
        }),
{
}

/// A hardware address is written as any MAC; one that is too short is left out.
pub proof fn law_hardware_macs_are_written_alike(bytes: Seq<u8>, length: u32)
    requires
        bytes.len() == 8,
    ensures
        length >= 6 ==> hardware_mac(bytes, length) == crate::arp::mac_text(bytes.take(6)),
        length < 6 ==> hardware_mac(bytes, length).len() == 0,
{
    reveal_strlit(":");
    assert(":"@ =~= seq![':']);
    if length >= 6 {
        assert(hardware_mac(bytes, length) =~= crate::arp::mac_text(bytes.take(6)));
    }
}

/// The host's addresses are all that parse, of all its adapters.
pub proof fn law_which_addresses_the_host_has(adapters: Seq<LocalAdapter>, x: Ipv4Addr)
    ensures
        local_addresses(adapters).contains(x) <==> exists|i: int, j: int|
            #![trigger adapters[i].ips@[j]]
            0 <= i < adapters.len() && 0 <= j < adapters[i].ips@.len() && adapters[i].ips@[j].address@
                == net::dotted(x),
    decreases adapters.len(),
{
    if adapters.len() > 0 {
        let rest = adapters.drop_last();
        let last = adapters.last();
        let n = adapters.len() - 1;
        law_which_addresses_the_host_has(rest, x);
        let (a, b) = (local_addresses(rest), last.ips@.filter_map(address_in()));
        let all = local_addresses(adapters);
        assert(all == a + b);
        text::lemma_filter_mapped(last.ips@, address_in(), x);
        net::law_parse_of_text(x);
        if a.contains(x) {
            assert(all[a.index_of(x)] == x);
            let (i, j) = choose|i: int, j: int|
                #![trigger rest[i].ips@[j]]
                0 <= i < rest.len() && 0 <= j < rest[i].ips@.len() && rest[i].ips@[j].address@
                    == net::dotted(x);
            assert(adapters[i].ips@[j].address@ == net::dotted(x));
        }
        if b.contains(x) {
            assert(all[a.len() + b.index_of(x)] == x);
            let j = choose|j: int|
                0 <= j < last.ips@.len() && address_in()(#[trigger] last.ips@[j]) == Some(x);
            assert(adapters[n].ips@[j].address@ == net::dotted(x));
        }
        if all.contains(x) {
            let k = all.index_of(x);
            if k < a.len() {
                assert(a[k] == x);
            } else {
                assert(b[k - a.len()] == x);
            }
        }
        if exists|i: int, j: int|
            #![trigger adapters[i].ips@[j]]
            0 <= i < adapters.len() && 0 <= j < adapters[i].ips@.len()
                && adapters[i].ips@[j].address@ == net::dotted(x) {
            let (i, j) = choose|i: int, j: int|
                #![trigger adapters[i].ips@[j]]
                0 <= i < adapters.len() && 0 <= j < adapters[i].ips@.len()
                    && adapters[i].ips@[j].address@ == net::dotted(x);
            if i < rest.len() {
                assert(rest[i].ips@[j].address@ == net::dotted(x));
            } else {
                assert(address_in()(last.ips@[j]) == Some(x));
            }
        }
    }
}

/// A name that was found stays good for thirty seconds.
pub proof fn law_how_long_a_name_is_good(
    m: Map<Seq<char>, Instant>,
    name: Seq<char>,
    at: Instant,
    now: Instant,
)
    ensures
        found_lately(m.insert(name, at), name, now) <==> now.nanos < at.nanos + 30_000_000_000,
        !m.contains_key(name) ==> !found_lately(m, name, now),
        forall|other: Seq<char>|
            other != name ==> #[trigger] found_lately(m.insert(name, at), other, now)
                == found_lately(m, other, now),
{
}

/// A local adapter is found by its MAC in any case.
pub proof fn law_when_a_mac_is_the_adapters(a: LocalAdapter, mac: Seq<char>)
    ensures
        has_mac(a, mac) <==> (a.mac matches Some(m) && text::lowercase(m@) == text::lowercase(mac)),
        a.mac is None ==> !has_mac(a, mac),
{
}

/// An adapter is listed exactly when one has its name.
pub proof fn law_when_a_name_is_listed(list: Seq<InterfaceInfo>, name: Seq<char>)
    ensures
        is_listed(list, name) <==> exists|i: InterfaceInfo| #[trigger]
            list.contains(i) && i.name@ == name,
{
    if is_listed(list, name) {
        let i = choose|i: int| 0 <= i < list.len() && (#[trigger] list[i]).name@ == name;
        assert(list.contains(list[i]));
    }
    if exists|i: InterfaceInfo| #[trigger] list.contains(i) && i.name@ == name {
        let i = choose|i: InterfaceInfo| #[trigger] list.contains(i) && i.name@ == name;
        assert(list[list.index_of(i)].name@ == name);
    }
}

/// An address and an adapter show all that they hold as it is.
pub proof fn law_what_an_adapter_shows(i: InterfaceInfo, ip: IpInfo, k: int)
    ensures
        ip@.address == ip.address@,
        ip@.prefix == ip.prefix,
        ip@.subnet == ip.subnet@,
        i@.name == i.name@,
        i@.display_name == i.display_name@,
        i@.mac == i.mac@,
        i@.is_up == i.is_up,
        i@.is_ethernet == i.is_ethernet,
        i@.is_wifi == i.is_wifi,
        i@.is_vpn == i.is_vpn,
        i@.is_virtual == i.is_virtual,
        i@.ips.len() == i.ips@.len(),
        0 <= k < i.ips@.len() ==> i@.ips[k] == i.ips@[k]@,
{
}

/// A text in a listing is the member's own, and empty where that is no text.
pub proof fn law_texts_of_a_listing(a: JsonView, key: Seq<char>)
    ensures
        json::member(a, key) matches JsonView::Text(s) ==> text_or_empty(a, key) == s,
        !(json::member(a, key) is Text) ==> text_or_empty(a, key).len() == 0,
{
}

/// An answer that starts with a bracket is read as a list, any other as one adapter; what
/// does not read is an error.
pub proof fn law_how_an_answer_is_read(stdout: Seq<char>)
    requires
        text::trimmed(stdout).len() > 0,
    ensures
        text::trimmed(stdout)[0] == '[' ==> match json::read_array_text(stdout) {
            Ok(s) => adapter_values(stdout) == Ok::<Seq<JsonView>, Seq<char>>(s),
            Err(_) => adapter_values(stdout) is Err,
        },
        text::trimmed(stdout)[0] != '[' ==> match json::read_text(stdout) {
            Ok(v) => adapter_values(stdout) == Ok::<Seq<JsonView>, Seq<char>>(seq![v]),
            Err(_) => adapter_values(stdout) is Err,
        },
{
}

} // verus!
