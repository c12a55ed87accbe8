//! Setting the addresses of an adapter: what is checked, what is kept, and the commands.

use crate::command;
use crate::command::{CommandEnd, CommandOutput};
use crate::error::AppError;
use crate::interface::IpInfo;
use crate::net;
use crate::net::Ipv4Addr;
use crate::text;
use vstd::arithmetic::power2::pow2;
use vstd::prelude::*;

verus! {

/// Checks that a text is an IPv4 address.
pub fn validate_ip(ip: &str) -> (r: Result<(), AppError>)
    ensures
        r is Ok <==> net::is_dotted(ip@),
        r matches Err(e) ==> e.text() == "Invalid IP address: "@ + ip@,
{
    match Ipv4Addr::parse(ip) {
        Some(_) => Ok(()),
        None => {
            let mut e = String::from_str("Invalid IP address: ");
            e.append(ip);
            Err(AppError::Network(e))
        },
    }
}

/// The first of the texts that is no IPv4 address.
pub open spec fn first_bad(texts: Seq<Seq<char>>) -> Option<Seq<char>>
    decreases texts.len(),
{
    if texts.len() == 0 {
        None
    } else if !net::is_dotted(texts[0]) {
        Some(texts[0])
    } else {
        first_bad(texts.drop_first())
    }
}

/// The texts to check before an address is set.
pub open spec fn static_texts(ip: Seq<char>, mask: Seq<char>, gateway: Option<&str>) -> Seq<
    Seq<char>,
> {
    match gateway {
        Some(g) => seq![ip, mask, g@],
        None => seq![ip, mask],
    }
}

/// Checks the address, the mask and the gateway, in this order.
pub fn check_static(ip: &str, mask: &str, gateway: Option<&str>) -> (r: Result<(), AppError>)
    ensures
        match (r, first_bad(static_texts(ip@, mask@, gateway))) {
            (Ok(_), None) => true,
            (Err(e), Some(t)) => e.text() == "Invalid IP address: "@ + t,
            _ => false,
        },
{
    let ghost texts = static_texts(ip@, mask@, gateway);
    proof {
        reveal_with_fuel(first_bad, 4);
        assert(texts[0] == ip@);
        assert(texts.drop_first()[0] == mask@);
        if gateway is Some {
            assert(texts.drop_first().drop_first()[0] == (gateway->0)@);
        }
    }
    match validate_ip(ip) {
        Ok(_) => {},
        Err(e) => {
            return Err(e);
        },
    }
    match validate_ip(mask) {
        Ok(_) => {},
        Err(e) => {
            return Err(e);
        },
    }
    match gateway {
        Some(g) => validate_ip(g),
        None => Ok(()),
    }
}

/// How many ones the binary digits of a number hold.
pub open spec fn ones(n: nat) -> nat
    decreases n,
{
    if n == 0 {
        0
    } else {
        n % 2 + ones(n / 2)
    }
}

proof fn lemma_ones_bound(n: nat, k: nat)
    requires
        n < pow2(k),
    ensures
        ones(n) <= k,
    decreases k,
{
    vstd::arithmetic::power2::lemma_pow2_pos(k);
    if k == 0 {
        vstd::arithmetic::power2::lemma2_to64();
    } else if n > 0 {
        vstd::arithmetic::power2::lemma_pow2_unfold(k);
        assert(n / 2 < pow2((k - 1) as nat));
        lemma_ones_bound(n / 2, (k - 1) as nat);
    }
}

/// The prefix length of a mask: the number of its ones.
pub fn mask_to_prefix(mask: &str) -> (r: Result<u8, AppError>)
    ensures
        match (r, net::parsed(mask@)) {
            (Ok(p), Some(ip)) => p == ones(ip.num() as nat) && p <= 32,
            (Err(e), None) => e.text() == "Invalid subnet mask: "@ + mask@,
            _ => false,
        },
{
    let ip = match Ipv4Addr::parse(mask) {
        Some(ip) => ip,
        None => {
            let mut e = String::from_str("Invalid subnet mask: ");
            e.append(mask);
            return Err(AppError::Network(e));
        },
    };
    let mut rest: u32 = ip.to_num();
    let mut count: u8 = 0;
    let ghost all = ip.num() as nat;
    proof {
        vstd::arithmetic::power2::lemma2_to64();
        lemma_ones_bound(all, 32);
    }
    while rest > 0
        invariant
            count + ones(rest as nat) == ones(all),
            ones(all) <= 32,
        decreases rest,
    {
        if rest % 2 == 1 {
            count = count + 1;
        }
        rest = rest / 2;
    }
    Ok(count)
}

/// The size of a block with a prefix length.
pub fn block_size_of(prefix: u8) -> (r: u64)
    requires
        prefix <= 32,
    ensures
        r == net::block_size(prefix as int),
        1 <= r <= 0x1_0000_0000,
{
    let mut size: u64 = 1;
    let mut i: u8 = 32;
    proof {
        vstd::arithmetic::power2::lemma2_to64();
    }
    while i > prefix
        invariant
            prefix <= i <= 32,
            size == pow2((32 - i) as nat),
        decreases i,
    {
        proof {
            vstd::arithmetic::power2::lemma_pow2_unfold((33 - i) as nat);
            vstd::arithmetic::power2::lemma2_to64();
            if i < 32 {
                vstd::arithmetic::power2::lemma_pow2_strictly_increases((32 - i) as nat, 32);
            }
        }
        size = size * 2;
        i = i - 1;
    }
    proof {
        vstd::arithmetic::power2::lemma2_to64();
        vstd::arithmetic::power2::lemma_pow2_pos((32 - prefix) as nat);
        if prefix > 0 {
            vstd::arithmetic::power2::lemma_pow2_strictly_increases((32 - prefix) as nat, 32);
        }
    }
    size
}

/// The mask of a prefix length, as a number: ones in front of zeros. A length over 32
/// counts as 32.
pub open spec fn mask_number(prefix: u8) -> int {
    0x1_0000_0000 - net::block_size(
        if prefix > 32 {
            32
        } else {
            prefix as int
        },
    )
}

/// The mask of a prefix length, in dotted form.
pub fn prefix_to_mask(prefix: u8) -> (r: String)
    ensures
        r@ == net::dotted(net::address(mask_number(prefix))),
{
    let p: u8 = if prefix > 32 {
        32
    } else {
        prefix
    };
    let size = block_size_of(p);
    let n: u64 = 0x1_0000_0000 - size;
    let ip = Ipv4Addr::from_num(n as u32);
    proof {
        net::lemma_address_of_num(ip);
    }
    ip.text()
}

proof fn lemma_ones_scaled(n: nat, k: nat)
    ensures
        ones(n * pow2(k)) == ones(n),
    decreases k,
{
    if k == 0 {
        vstd::arithmetic::power2::lemma2_to64();
    } else {
        vstd::arithmetic::power2::lemma_pow2_unfold(k);
        vstd::arithmetic::power2::lemma_pow2_pos((k - 1) as nat);
        let h = n * pow2((k - 1) as nat);
        assert(n * pow2(k) == 2 * h) by (nonlinear_arith)
            requires
                pow2(k) == 2 * pow2((k - 1) as nat),
                h == n * pow2((k - 1) as nat),
        ;
        assert(ones(2 * h) == ones(h)) by {
            if h > 0 {
                assert((2 * h) % 2 == 0 && (2 * h) / 2 == h);
            }
        }
        lemma_ones_scaled(n, (k - 1) as nat);
    }
}

proof fn lemma_ones_full(p: nat)
    ensures
        pow2(p) >= 1,
        ones((pow2(p) - 1) as nat) == p,
    decreases p,
{
    vstd::arithmetic::power2::lemma_pow2_pos(p);
    if p == 0 {
        vstd::arithmetic::power2::lemma2_to64();
    } else {
        vstd::arithmetic::power2::lemma_pow2_unfold(p);
        lemma_ones_full((p - 1) as nat);
        let m = (pow2((p - 1) as nat) - 1) as nat;
        assert((pow2(p) - 1) as nat == 2 * m + 1);
        assert((2 * m + 1) % 2 == 1 && (2 * m + 1) / 2 == m);
    }
}

/// A prefix length comes back from its mask.
pub proof fn law_mask_gives_its_prefix(prefix: u8)
    requires
        prefix <= 32,
    ensures
        ones(mask_number(prefix) as nat) == prefix,
        net::parsed(net::dotted(net::address(mask_number(prefix)))) matches Some(ip) && ip.num()
            == mask_number(prefix),
{
    let p = prefix as nat;
    let k = (32 - prefix) as nat;
    vstd::arithmetic::power2::lemma2_to64();
    vstd::arithmetic::power2::lemma_pow2_adds(p, k);
    lemma_ones_full(p);
    lemma_ones_scaled((pow2(p) - 1) as nat, k);
    let full = (pow2(p) - 1) as nat;
    assert(full * pow2(k) == pow2(p) * pow2(k) - pow2(k)) by (nonlinear_arith)
        requires
            full == pow2(p) - 1,
    ;
    vstd::arithmetic::power2::lemma_pow2_pos(k);
    net::law_parse_of_text(net::address(mask_number(prefix)));
    net::lemma_num_of_address(mask_number(prefix));
}

/// Whether an address that is on the adapter has to come back after the primary one is
/// set: it is one of those to keep, and not the new primary one.
pub open spec fn comes_back(ip: Seq<char>, preserve: Seq<Ipv4Addr>) -> spec_fn(IpInfo) -> bool {
    |s: IpInfo|
        s.address@ != ip && (net::parsed(s.address@) matches Some(a) && preserve.contains(a))
}

/// The addresses to add again after the primary one is set, which drops them all.
pub fn to_restore(ips: &Vec<IpInfo>, ip: &str, preserve: &Vec<Ipv4Addr>) -> (r: Vec<IpInfo>)
    ensures
        r@ == ips@.filter(comes_back(ip@, preserve@)),
{
    let ghost all = ips@;
    let ghost keep = comes_back(ip@, preserve@);
    let mut r: Vec<IpInfo> = Vec::new();
    let mut i: usize = 0;
    assert(r@ =~= all.take(0).filter(keep)) by {
        assert(all.take(0) =~= Seq::empty());
        reveal(Seq::filter);
    }
    while i < ips.len()
        invariant
            i <= ips.len(),
            all == ips@,
            keep == comes_back(ip@, preserve@),
            r@ == all.take(i as int).filter(keep),
        decreases ips.len() - i,
    {
        proof {
            all.lemma_take_succ_push(i as int);
            all.take(i as int).lemma_filter_push(all[i as int], keep);
        }
        if !text::same(ips[i].address.as_str(), ip) {
            if let Some(a) = Ipv4Addr::parse(ips[i].address.as_str()) {
                if net::holds(preserve, a) {
                    r.push(ips[i].clone());
                }
            }
        }
        i += 1;
    }
    assert(all.take(i as int) =~= all);
    r
}

/// The arguments that set an adapter's primary address.
pub fn set_address_args(interface: &str, ip: &str, mask: &str, gateway: Option<&str>) -> (r: Vec<
    String,
>)
    ensures
        text::views(r@) == seq![
            "interface"@,
            "ip"@,
            "set"@,
            "address"@,
            interface@,
            "static"@,
            ip@,
            mask@,
        ] + (match gateway {
            Some(g) => seq![g@],
            None => Seq::<Seq<char>>::empty(),
        }),
{
    let mut r: Vec<String> = Vec::new();
    assert(text::views(r@) =~= Seq::<Seq<char>>::empty());
    text::push_word(&mut r, "interface");
    text::push_word(&mut r, "ip");
    text::push_word(&mut r, "set");
    text::push_word(&mut r, "address");
    text::push_word(&mut r, interface);
    text::push_word(&mut r, "static");
    text::push_word(&mut r, ip);
    text::push_word(&mut r, mask);
    if let Some(g) = gateway {
        text::push_word(&mut r, g);
    }
    r
}

fn name_word(interface: &str) -> (r: String)
    ensures
        r@ == "name="@ + interface@,
{
    let mut r = String::from_str("name=");
    r.append(interface);
    r
}

/// The arguments that add an address to an adapter with a fixed one.
pub fn add_address_args(interface: &str, ip: &str, mask: &str) -> (r: Vec<String>)
    ensures
        text::views(r@) == seq![
            "interface"@,
            "ip"@,
            "add"@,
            "address"@,
            "name="@ + interface@,
            ip@,
            mask@,
        ],
{
    let mut r: Vec<String> = Vec::new();
    assert(text::views(r@) =~= Seq::<Seq<char>>::empty());
    text::push_word(&mut r, "interface");
    text::push_word(&mut r, "ip");
    text::push_word(&mut r, "add");
    text::push_word(&mut r, "address");
    text::push_word(&mut r, name_word(interface).as_str());
    text::push_word(&mut r, ip);
    text::push_word(&mut r, mask);
    r
}

/// The arguments that take an address off an adapter.
pub fn delete_address_args(interface: &str, ip: &str) -> (r: Vec<String>)
    ensures
        text::views(r@) == seq![
            "interface"@,
            "ip"@,
            "delete"@,
            "address"@,
            "name="@ + interface@,
            ip@,
        ],
{
    let mut r: Vec<String> = Vec::new();
    assert(text::views(r@) =~= Seq::<Seq<char>>::empty());
    text::push_word(&mut r, "interface");
    text::push_word(&mut r, "ip");
    text::push_word(&mut r, "delete");
    text::push_word(&mut r, "address");
    text::push_word(&mut r, name_word(interface).as_str());
    text::push_word(&mut r, ip);
    r
}

/// An address with a prefix length.
pub fn cidr_text(ip: &str, prefix: u8) -> (r: String)
    ensures
        r@ == ip@ + "/"@ + text::dec(prefix as nat),
{
    let mut r = String::from_str(ip);
    r.append("/");
    text::push_dec(&mut r, prefix as u64);
    r
}

/// The script that adds an address to an adapter, whether that is on DHCP or not.
pub fn new_address_script(interface: &str, ip: &str, prefix: u8) -> (r: String)
    ensures
        r@ == "New-NetIPAddress -InterfaceAlias '"@ + text::quoted(interface@) + "' -IPAddress '"@
            + ip@ + "' -PrefixLength "@ + text::dec(prefix as nat)
            + " -ErrorAction Stop | Out-Null"@,
{
    let mut r = String::from_str("New-NetIPAddress -InterfaceAlias '");
    r.append(text::double_quotes(interface).as_str());
    r.append("' -IPAddress '");
    r.append(ip);
    r.append("' -PrefixLength ");
    text::push_dec(&mut r, prefix as u64);
    r.append(" -ErrorAction Stop | Out-Null");
    r
}

/// Checks an address to add, and gives its prefix length.
pub fn check_secondary(ip: &str, mask: &str) -> (r: Result<u8, AppError>)
    ensures
        match r {
            Ok(p) => net::is_dotted(ip@) && net::is_dotted(mask@) && p == ones(
                (net::parsed(mask@)->0).num() as nat,
            ),
            Err(e) => e.text() == "Invalid IP address: "@ + (if !net::is_dotted(ip@) {
                ip@
            } else {
                mask@
            }) && !(net::is_dotted(ip@) && net::is_dotted(mask@)),
        },
{
    match validate_ip(ip) {
        Ok(_) => {},
        Err(e) => {
            return Err(e);
        },
    }
    match validate_ip(mask) {
        Ok(_) => {},
        Err(e) => {
            return Err(e);
        },
    }
    mask_to_prefix(mask)
}

/// The script that puts an adapter on DHCP: the fixed addresses and the fixed default
/// route go, the name servers are reset, and the lease is renewed.
pub open spec fn dhcp_text(interface: Seq<char>) -> Seq<char> {
    "$alias='"@ + text::quoted(interface)
        + "'; Get-NetIPAddress -InterfaceAlias $alias -AddressFamily IPv4 -PrefixOrigin Manual -ErrorAction SilentlyContinue | Remove-NetIPAddress -Confirm:$false -ErrorAction SilentlyContinue; Remove-NetRoute -InterfaceAlias $alias -AddressFamily IPv4 -DestinationPrefix 0.0.0.0/0 -Confirm:$false -ErrorAction SilentlyContinue; Set-NetIPInterface -InterfaceAlias $alias -Dhcp Enabled; Set-DnsClientServerAddress -InterfaceAlias $alias -ResetServerAddresses; ipconfig /renew $alias | Out-Null"@
}

/// The script that puts an adapter on DHCP.
pub fn dhcp_script(interface: &str) -> (r: String)
    ensures
        r@ == dhcp_text(interface@),
{
    let mut r = String::from_str("$alias='");
    r.append(text::double_quotes(interface).as_str());
    r.append(
        "'; Get-NetIPAddress -InterfaceAlias $alias -AddressFamily IPv4 -PrefixOrigin Manual -ErrorAction SilentlyContinue | Remove-NetIPAddress -Confirm:$false -ErrorAction SilentlyContinue; Remove-NetRoute -InterfaceAlias $alias -AddressFamily IPv4 -DestinationPrefix 0.0.0.0/0 -Confirm:$false -ErrorAction SilentlyContinue; Set-NetIPInterface -InterfaceAlias $alias -Dhcp Enabled; Set-DnsClientServerAddress -InterfaceAlias $alias -ResetServerAddresses; ipconfig /renew $alias | Out-Null",
    );
    r
}

/// The script that puts an adapter on DHCP with more rights.
pub fn elevated_dhcp_script(interface: &str) -> (r: String)
    ensures
        r@ == command::elevated(dhcp_text(interface@)),
{
    command::elevated_script(dhcp_script(interface).as_str())
}

/// The inner script of an elevated run reaches the inner shell as it is.
pub proof fn law_elevated_script_is_passed_on(interface: Seq<char>)
    ensures
        text::unquoted(text::quoted(dhcp_text(interface))) == Some(dhcp_text(interface)),
{
    text::law_quoting_reads_back(dhcp_text(interface));
}

/// What came of putting an adapter on DHCP with more rights.
pub fn dhcp_result(end: CommandEnd) -> (r: Result<(), AppError>)
    ensures
        match (
            r,
            command::step_failure(
                end,
                "DHCP toggle timed out after 60s"@,
                "Failed to launch elevation: "@,
                "DHCP toggle failed (UAC may have been declined): "@,
            ),
        ) {
            (Ok(_), None) => true,
            (Err(e), Some(m)) => e.text() == m,
            _ => false,
        },
{
    command::step_result(
        end,
        "DHCP toggle timed out after 60s",
        "Failed to launch elevation: ",
        "DHCP toggle failed (UAC may have been declined): ",
    )
}

/// The script that reads an adapter's DHCP state.
pub fn dhcp_state_script(interface: &str) -> (r: String)
    ensures
        r@ == "(Get-NetIPInterface -InterfaceAlias '"@ + text::quoted(interface@)
            + "' -AddressFamily IPv4).Dhcp"@,
{
    let mut r = String::from_str("(Get-NetIPInterface -InterfaceAlias '");
    r.append(text::double_quotes(interface).as_str());
    r.append("' -AddressFamily IPv4).Dhcp");
    r
}

/// Whether the answer, in small letters, says that DHCP is on.
pub fn says_enabled(lower: &str) -> (r: bool)
    ensures
        r == (lower@ == "enabled"@),
{
    text::same(lower, "enabled")
}

/// Whether an adapter is on DHCP, by the answer of the system.
pub fn dhcp_state(run: Result<CommandOutput, String>) -> (r: Result<bool, AppError>)
    ensures
        match run {
            Err(why) => r matches Err(e) && e.text() == "Failed to read DHCP state: "@ + why@,
            Ok(out) => if out.success {
                r matches Ok(on) && on == (text::lowercase(text::trimmed(out.stdout@))
                    == "enabled"@)
            } else {
                r matches Err(e) && e.text() == "Get-NetIPInterface failed: "@ + text::trimmed(
                    out.stderr@,
                )
            },
        },
{
    match run {
        Err(why) => {
            let mut e = String::from_str("Failed to read DHCP state: ");
            e.append(why.as_str());
            Err(AppError::Network(e))
        },
        Ok(out) => {
            if !out.success {
                let mut e = String::from_str("Get-NetIPInterface failed: ");
                e.append(text::trim(out.stderr.as_str()));
                return Err(AppError::Network(e));
            }
            let lower = text::to_lower(text::trim(out.stdout.as_str()));
            Ok(says_enabled(lower.as_str()))
        },
    }
}

/// One run of a command.
pub struct Run {
    pub args: Vec<String>,
    /// Whether its failure fails the whole.
    pub required: bool,
}

/// Runs, as text.
pub open spec fn run_views(s: Seq<Run>) -> Seq<(Seq<Seq<char>>, bool)> {
    s.map_values(|r: Run| (text::views(r.args@), r.required))
}

fn push_run(out: &mut Vec<Run>, args: Vec<String>, required: bool)
    ensures
        run_views(final(out)@) == run_views(old(out)@).push((text::views(args@), required)),
{
    let ghost before = out@;
    out.push(Run { args, required });
    assert(run_views(out@) =~= run_views(before).push((text::views(args@), required)));
}

/// The runs of `ip` that set an adapter's only address: drop all, add it, bring the link
/// up, and with a gateway add the default route, which may be there already. An error
/// where the mask is none.
pub fn set_address_runs(interface: &str, ip: &str, mask: &str, gateway: Option<&str>) -> (r: Result<
    Vec<Run>,
    AppError,
>)
    ensures
        match (r, net::parsed(mask@)) {
            (Ok(v), Some(m)) => run_views(v@) == seq![
                (seq!["addr"@, "flush"@, "dev"@, interface@], true),
                (
                    seq![
                        "addr"@,
                        "add"@,
                        ip@ + "/"@ + text::dec(ones(m.num() as nat)),
                        "dev"@,
                        interface@,
                    ],
                    true,
                ),
                (seq!["link"@, "set"@, interface@, "up"@], true),
            ] + (match gateway {
                Some(g) => seq![
                    (seq!["route"@, "add"@, "default"@, "via"@, g@, "dev"@, interface@], false),
                ],
                None => Seq::<(Seq<Seq<char>>, bool)>::empty(),
            }),
            (Err(e), None) => e.text() == "Invalid subnet mask: "@ + mask@,
            _ => false,
        },
{
    let prefix = match mask_to_prefix(mask) {
        Ok(p) => p,
        Err(e) => {
            return Err(e);
        },
    };
    let mut r: Vec<Run> = Vec::new();
    assert(run_views(r@) =~= Seq::<(Seq<Seq<char>>, bool)>::empty());
    let mut flush: Vec<String> = Vec::new();
    assert(text::views(flush@) =~= Seq::<Seq<char>>::empty());
    text::push_word(&mut flush, "addr");
    text::push_word(&mut flush, "flush");
    text::push_word(&mut flush, "dev");
    text::push_word(&mut flush, interface);
    assert(text::views(flush@) =~= seq!["addr"@, "flush"@, "dev"@, interface@]);
    push_run(&mut r, flush, true);
    let mut set: Vec<String> = Vec::new();
    assert(text::views(set@) =~= Seq::<Seq<char>>::empty());
    text::push_word(&mut set, "addr");
    text::push_word(&mut set, "add");
    text::push_word(&mut set, cidr_text(ip, prefix).as_str());
    text::push_word(&mut set, "dev");
    text::push_word(&mut set, interface);
    assert(text::views(set@) =~= seq![
        "addr"@,
        "add"@,
        ip@ + "/"@ + text::dec(prefix as nat),
        "dev"@,
        interface@,
    ]);
    push_run(&mut r, set, true);
    let mut up: Vec<String> = Vec::new();
    assert(text::views(up@) =~= Seq::<Seq<char>>::empty());
    text::push_word(&mut up, "link");
    text::push_word(&mut up, "set");
    text::push_word(&mut up, interface);
    text::push_word(&mut up, "up");
    assert(text::views(up@) =~= seq!["link"@, "set"@, interface@, "up"@]);
    push_run(&mut r, up, true);
    if let Some(g) = gateway {
        let mut route: Vec<String> = Vec::new();
        assert(text::views(route@) =~= Seq::<Seq<char>>::empty());
        text::push_word(&mut route, "route");
        text::push_word(&mut route, "add");
        text::push_word(&mut route, "default");
        text::push_word(&mut route, "via");
        text::push_word(&mut route, g);
        text::push_word(&mut route, "dev");
        text::push_word(&mut route, interface);
        assert(text::views(route@) =~= seq![
            "route"@,
            "add"@,
            "default"@,
            "via"@,
            g@,
            "dev"@,
            interface@,
        ]);
        push_run(&mut r, route, false);
    }
    Ok(r)
}

/// The first text that is no address is the one that is reported; there is none exactly
/// when all are addresses.
pub proof fn law_which_text_is_reported(texts: Seq<Seq<char>>)
    ensures
        match first_bad(texts) {
            Some(t) => exists|i: int|
                0 <= i < texts.len() && #[trigger] texts[i] == t && !net::is_dotted(t) && forall|
                    j: int,
                |
                    0 <= j < i ==> net::is_dotted(#[trigger] texts[j]),
            None => forall|j: int| 0 <= j < texts.len() ==> net::is_dotted(#[trigger] texts[j]),
        },
    decreases texts.len(),
{
    if texts.len() > 0 {
        let rest = texts.drop_first();
        law_which_text_is_reported(rest);
        if net::is_dotted(texts[0]) {
            match first_bad(rest) {
                Some(t) => {
                    let i = choose|i: int|
                        0 <= i < rest.len() && #[trigger] rest[i] == t && !net::is_dotted(t)
                            && forall|j: int| 0 <= j < i ==> net::is_dotted(#[trigger] rest[j]);
                    assert(texts[i + 1] == t);
                    assert forall|j: int| 0 <= j < i + 1 implies net::is_dotted(
                        #[trigger] texts[j],
                    ) by {
                        if j > 0 {
                            assert(rest[j - 1] == texts[j]);
                        }
                    }
                },
                None => {
                    assert forall|j: int| 0 <= j < texts.len() implies net::is_dotted(
                        #[trigger] texts[j],
                    ) by {
                        if j > 0 {
                            assert(rest[j - 1] == texts[j]);
                        }
                    }
                },
            }
        } else {
            assert(texts[0] == first_bad(texts)->0);
        }
    }
}

/// The address, the mask and the gateway are checked, where there is one.
pub proof fn law_what_is_checked(ip: Seq<char>, mask: Seq<char>, gateway: Option<&str>)
    ensures
        ({
            let t = static_texts(ip, mask, gateway);
            &&& t[0] == ip && t[1] == mask
            &&& gateway matches Some(g) ==> t.len() == 3 && t[2] == g@
            &&& gateway is None ==> t.len() == 2
        }),
{
}

/// A mask and its block make up all addresses; a prefix above 32 counts as 32.
pub proof fn law_a_mask_leaves_its_block(prefix: u8)
    ensures
        prefix <= 32 ==> mask_number(prefix) + vstd::arithmetic::power2::pow2((32 - prefix) as nat)
            == 0x1_0000_0000,
        prefix > 32 ==> mask_number(prefix) == 0xffff_ffff,
        mask_number(24) == 0xffff_ff00,
        mask_number(16) == 0xffff_0000,
        mask_number(8) == 0xff00_0000,
{
    vstd::arithmetic::power2::lemma2_to64();
    assert(net::block_size(32) == 1);
    assert(net::block_size(24) == 0x100);
    assert(net::block_size(16) == 0x1_0000);
    assert(net::block_size(8) == 0x100_0000);
}

/// After the primary address was set, the addresses that were adopted come back, but for
/// the new primary one; no other does.
pub proof fn law_which_addresses_come_back(
    ips: Seq<IpInfo>,
    ip: Seq<char>,
    preserve: Seq<Ipv4Addr>,
    x: IpInfo,
)
    ensures
        ips.filter(comes_back(ip, preserve)).contains(x) <==> ips.contains(x) && x.address@ != ip
            && exists|a: Ipv4Addr| #[trigger] net::dotted(a) == x.address@ && preserve.contains(a),
{
    text::lemma_filtered(ips, comes_back(ip, preserve), x);
    if net::is_dotted(x.address@) {
        let a = net::parsed(x.address@)->0;
        assert(net::dotted(a) == x.address@);
    }
    assert forall|a: Ipv4Addr| #[trigger] net::dotted(a) == x.address@ implies net::parsed(
        x.address@,
    ) == Some(a) by {
        net::law_parse_of_text(a);
    }
}

/// The prefix of a mask is the number of its ones, wherever they stand.
pub proof fn law_ones_are_counted(n: nat)
    ensures
        ones(0) == 0,
        ones(2 * n) == ones(n),
        ones(2 * n + 1) == ones(n) + 1,
{
    assert((2 * n) as nat % 2 == 0 && (2 * n) as nat / 2 == n);
    assert((2 * n + 1) as nat % 2 == 1 && (2 * n + 1) as nat / 2 == n);
    if n == 0 {
        assert(ones(0) == 0);
    }
}

} // verus!
