//! The system's table of neighbors: asking for it and reading the answer.

use crate::config;
use crate::json;
use crate::json::{Json, JsonView};
use crate::net;
use crate::net::Ipv4Addr;
use crate::text;
use vstd::prelude::*;

verus! {

/// Not the MAC of a device: nothing, the broadcast MAC, or all zeros.
pub open spec fn is_placeholder(mac: Seq<char>) -> bool {
    mac.len() == 0 || mac == "ff:ff:ff:ff:ff:ff"@ || mac == "00:00:00:00:00:00"@
}

/// A MAC in the common form: dashes become colons, and capitals small letters.
pub open spec fn common_mac(raw: Seq<char>) -> Seq<char> {
    text::lowercase(text::replaced(raw, '-', ':'))
}

/// The MAC, unless it is a placeholder.
pub fn unless_placeholder(mac: String) -> (r: Option<String>)
    ensures
        r == if is_placeholder(mac@) {
            None
        } else {
            Some(mac)
        },
{
    if mac.as_str().is_empty() || text::same(mac.as_str(), "ff:ff:ff:ff:ff:ff") || text::same(
        mac.as_str(),
        "00:00:00:00:00:00",
    ) {
        None
    } else {
        Some(mac)
    }
}

/// A MAC in the common form; nothing for a placeholder.
pub fn normalize_mac(raw: &str) -> (r: Option<String>)
    ensures
        config::opt_text(r) == if is_placeholder(common_mac(raw@)) {
            None
        } else {
            Some(common_mac(raw@))
        },
{
    let colons = text::replace_char(raw, '-', ':');
    unless_placeholder(text::to_lower(colons.as_str()))
}

/// Whether a neighbor was resolved by asking, as a number or by name.
pub open spec fn state_is_dynamic(state: JsonView) -> bool {
    match json::number_in(state) {
        Some(n) => 2 <= n <= 5,
        None => match json::string_in(state) {
            Some(s) => {
                let t = text::ascii_lower(s);
                t == "probe"@ || t == "delay"@ || t == "stale"@ || t == "reachable"@
            },
            None => false,
        },
    }
}

/// Whether a neighbor was resolved by asking: probe, delay, stale or reachable.
pub fn neighbor_state_is_dynamic(state: &Json) -> (r: bool)
    ensures
        r == state_is_dynamic(state@),
{
    if let Some(n) = state.as_u64() {
        return 2 <= n && n <= 5;
    }
    if let Some(s) = state.as_str() {
        let t = text::to_ascii_lower(s);
        return text::same(t.as_str(), "probe") || text::same(t.as_str(), "delay") || text::same(
            t.as_str(),
            "stale",
        ) || text::same(t.as_str(), "reachable");
    }
    false
}

/// The address and MAC in a row of the table, if the neighbor was resolved by asking and
/// both are good.
pub open spec fn neighbor() -> spec_fn(JsonView) -> Option<(Ipv4Addr, Seq<char>)> {
    |row: JsonView|
        if !state_is_dynamic(json::member(row, "State"@)) {
            None
        } else {
            match (
                json::string_in(json::member(row, "IPAddress"@)),
                json::string_in(json::member(row, "LinkLayerAddress"@)),
            ) {
                (Some(ip), Some(raw)) => match net::parsed(ip) {
                    Some(addr) => if is_placeholder(common_mac(raw)) {
                        None
                    } else {
                        Some((addr, common_mac(raw)))
                    },
                    None => None,
                },
                _ => None,
            }
        }
}

/// Pairs of an address and a MAC, with the MAC as text.
pub open spec fn pairs(s: Seq<(Ipv4Addr, String)>) -> Seq<(Ipv4Addr, Seq<char>)> {
    s.map_values(|e: (Ipv4Addr, String)| (e.0, e.1@))
}

/// The pairs of a longer list.
pub proof fn lemma_pairs_push(s: Seq<(Ipv4Addr, String)>, e: (Ipv4Addr, String))
    ensures
        pairs(s.push(e)) == pairs(s).push((e.0, e.1@)),
{
    assert(pairs(s.push(e)) =~= pairs(s).push((e.0, e.1@)));
}

fn read_neighbor(row: &Json) -> (r: Option<(Ipv4Addr, String)>)
    ensures
        neighbor()(row@) == match r {
            Some(e) => Some((e.0, e.1@)),
            None => None,
        },
{
    let dynamic = match row.get("State") {
        Some(state) => neighbor_state_is_dynamic(state),
        None => false,
    };
    if !dynamic {
        return None;
    }
    let ip = match row.text_of("IPAddress") {
        Some(s) => match Ipv4Addr::parse(s) {
            Some(ip) => ip,
            None => {
                return None;
            },
        },
        None => {
            return None;
        },
    };
    match row.text_of("LinkLayerAddress") {
        Some(raw) => match normalize_mac(raw) {
            Some(mac) => Some((ip, mac)),
            None => None,
        },
        None => None,
    }
}

/// The neighbors in the rows of the table.
pub fn neighbors_of(rows: &Vec<Json>) -> (r: Vec<(Ipv4Addr, String)>)
    ensures
        pairs(r@) == text::views(rows@).filter_map(neighbor()),
{
    let ghost all = text::views(rows@);
    let ghost f = neighbor();
    let mut r: Vec<(Ipv4Addr, String)> = Vec::new();
    let mut i: usize = 0;
    assert(all.take(0) =~= Seq::empty());
    assert(pairs(r@) =~= all.take(0).filter_map(f));
    while i < rows.len()
        invariant
            i <= rows.len(),
            all == text::views(rows@),
            f == neighbor(),
            pairs(r@) == all.take(i as int).filter_map(f),
        decreases rows.len() - i,
    {
        proof {
            assert(all[i as int] == rows@[i as int]@);
            all.lemma_filter_map_take_succ(f, i as int);
        }
        if let Some(e) = read_neighbor(&rows[i]) {
            proof {
                lemma_pairs_push(r@, e);
            }
            r.push(e);
        }
        i += 1;
    }
    assert(all.take(i as int) =~= all);
    r
}

/// The rows of a listing: none for a blank text, the items of an array, or the one
/// value of any other text. What cannot be read has no rows.
pub open spec fn listing(stdout: Seq<char>) -> Seq<JsonView> {
    let t = text::trimmed(stdout);
    if t.len() == 0 {
        Seq::empty()
    } else if t[0] == '[' {
        match json::read_array_text(t) {
            Ok(v) => v,
            Err(_) => Seq::empty(),
        }
    } else {
        match json::read_text(t) {
            Ok(v) => seq![v],
            Err(_) => Seq::empty(),
        }
    }
}

fn read_listing(stdout: &str) -> (r: Vec<Json>)
    ensures
        text::views(r@) == listing(stdout@),
{
    let t = text::trim(stdout);
    let mut r: Vec<Json> = Vec::new();
    assert(text::views(r@) =~= Seq::empty());
    if t.is_empty() {
        return r;
    }
    if t.get_char(0) == '[' {
        match json::read_array(t) {
            Ok(v) => v,
            Err(_) => r,
        }
    } else {
        match json::read(t) {
            Ok(v) => {
                proof {
                    text::lemma_views_push(r@, v);
                }
                r.push(v);
                assert(text::views(r@) =~= seq![v@]);
                r
            },
            Err(_) => r,
        }
    }
}

/// Reads the table of neighbors as the system prints it: those that were resolved by
/// asking.
pub fn parse_neighbors_json(stdout: &str) -> (r: Vec<(Ipv4Addr, String)>)
    ensures
        pairs(r@) == listing(stdout@).filter_map(neighbor()),
{
    let rows = read_listing(stdout);
    neighbors_of(&rows)
}

/// The MAC of the first entry for the address.
pub open spec fn mac_at(s: Seq<(Ipv4Addr, Seq<char>)>, ip: Ipv4Addr) -> Option<Seq<char>>
    decreases s.len(),
{
    if s.len() == 0 {
        None
    } else if s[0].0 == ip {
        Some(s[0].1)
    } else {
        mac_at(s.drop_first(), ip)
    }
}

/// The MAC that the table has for an address.
pub fn resolved_mac(entries: &Vec<(Ipv4Addr, String)>, target: Ipv4Addr) -> (r: Option<String>)
    ensures
        config::opt_text(r) == mac_at(pairs(entries@), target),
{
    let ghost all = pairs(entries@);
    assert(all.skip(0) =~= all);
    let mut i: usize = 0;
    while i < entries.len()
        invariant
            i <= entries.len(),
            all == pairs(entries@),
            mac_at(all, target) == mac_at(all.skip(i as int), target),
        decreases entries.len() - i,
    {
        assert(all.skip(i as int)[0] == (entries@[i as int].0, entries@[i as int].1@));
        assert(all.skip(i as int).drop_first() =~= all.skip(i + 1));
        if entries[i].0 == target {
            return Some(entries[i].1.clone());
        }
        i += 1;
    }
    None
}

/// The script that lists the neighbors of the adapter that has an address.
pub fn table_script(interface_ip: &str) -> (r: String)
    ensures
        r@ == "$idx=(Get-NetIPAddress -IPAddress '"@ + text::quoted(interface_ip@)
            + "' -AddressFamily IPv4 -ErrorAction SilentlyContinue | Select-Object -First 1).InterfaceIndex; if ($null -ne $idx) { Get-NetNeighbor -AddressFamily IPv4 -InterfaceIndex $idx -ErrorAction SilentlyContinue | Select-Object IPAddress,LinkLayerAddress,State | ConvertTo-Json -Compress }"@,
{
    let mut r = String::from_str("$idx=(Get-NetIPAddress -IPAddress '");
    r.append(text::double_quotes(interface_ip).as_str());
    r.append(
        "' -AddressFamily IPv4 -ErrorAction SilentlyContinue | Select-Object -First 1).InterfaceIndex; if ($null -ne $idx) { Get-NetNeighbor -AddressFamily IPv4 -InterfaceIndex $idx -ErrorAction SilentlyContinue | Select-Object IPAddress,LinkLayerAddress,State | ConvertTo-Json -Compress }",
    );
    r
}

/// The script that lists the neighbors at one address.
pub fn target_script(target: Ipv4Addr) -> (r: String)
    ensures
        r@ == "Get-NetNeighbor -AddressFamily IPv4 -IPAddress '"@ + net::dotted(target)
            + "' -ErrorAction SilentlyContinue | Select-Object IPAddress,LinkLayerAddress,State | ConvertTo-Json -Compress"@,
{
    let mut r = String::from_str("Get-NetNeighbor -AddressFamily IPv4 -IPAddress '");
    r.append(target.text().as_str());
    r.append(
        "' -ErrorAction SilentlyContinue | Select-Object IPAddress,LinkLayerAddress,State | ConvertTo-Json -Compress",
    );
    r
}

/// The arguments of one ping, sent from a source if there is one.
pub fn ping_args(target: Ipv4Addr, source: Option<Ipv4Addr>, timeout_ms: u64) -> (r: Vec<String>)
    ensures
        text::views(r@) == seq!["-n"@, "1"@, "-w"@, text::dec(timeout_ms as nat)] + (match source {
            Some(s) => seq!["-S"@, net::dotted(s)],
            None => Seq::<Seq<char>>::empty(),
        }) + seq![net::dotted(target)],
{
    let mut r: Vec<String> = Vec::new();
    assert(text::views(r@) =~= Seq::<Seq<char>>::empty());
    text::push_word(&mut r, "-n");
    text::push_word(&mut r, "1");
    text::push_word(&mut r, "-w");
    let mut wait = String::new();
    text::push_dec(&mut wait, timeout_ms);
    assert(wait@ =~= text::dec(timeout_ms as nat));
    text::push_word(&mut r, wait.as_str());
    if let Some(s) = source {
        text::push_word(&mut r, "-S");
        text::push_word(&mut r, s.text().as_str());
    }
    text::push_word(&mut r, target.text().as_str());
    r
}

/// Whether an address is in use, by the neighbors that were resolved at it.
pub fn in_use(entries: &Vec<(Ipv4Addr, String)>) -> (r: bool)
    ensures
        r == (entries@.len() > 0),
{
    entries.len() > 0
}

/// A MAC is no device's exactly when it is empty, all ones or all zeros.
pub proof fn law_placeholders(mac: Seq<char>)
    ensures
        is_placeholder(mac) <==> mac == Seq::<char>::empty() || mac == seq![
            'f', 'f', ':', 'f', 'f', ':', 'f', 'f', ':', 'f', 'f', ':', 'f', 'f', ':', 'f', 'f',
        ] || mac == seq![
            '0', '0', ':', '0', '0', ':', '0', '0', ':', '0', '0', ':', '0', '0', ':', '0', '0',
        ],
{
    reveal_strlit("ff:ff:ff:ff:ff:ff");
    reveal_strlit("00:00:00:00:00:00");
    assert("ff:ff:ff:ff:ff:ff"@ =~= seq![
        'f', 'f', ':', 'f', 'f', ':', 'f', 'f', ':', 'f', 'f', ':', 'f', 'f', ':', 'f', 'f',
    ]);
    assert("00:00:00:00:00:00"@ =~= seq![
        '0', '0', ':', '0', '0', ':', '0', '0', ':', '0', '0', ':', '0', '0', ':', '0', '0',
    ]);
    if mac.len() == 0 {
        assert(mac =~= Seq::<char>::empty());
    }
}

/// Two spellings of a MAC that differ in dashes and colons alone have one common form.
pub proof fn law_dashes_and_colons_are_alike(x: Seq<char>, y: Seq<char>)
    requires
        x.len() == y.len(),
        forall|i: int|
            0 <= i < x.len() ==> #[trigger] x[i] == y[i] || ((x[i] == '-' || x[i] == ':') && (y[i]
                == '-' || y[i] == ':')),
    ensures
        common_mac(x) == common_mac(y),
        forall|i: int| 0 <= i < x.len() && x[i] != '-' ==> text::replaced(x, '-', ':')[i] == x[i],
{
    assert(text::replaced(x, '-', ':') =~= text::replaced(y, '-', ':'));
}

/// A neighbor counts by its state: 2 to 5 as a number, or one of four words in any case.
pub proof fn law_states_that_count(n: u64, s: Seq<char>, t: Seq<char>)
    requires
        text::ascii_lower(s) == text::ascii_lower(t),
    ensures
        state_is_dynamic(JsonView::Number(Some(n))) <==> n == 2 || n == 3 || n == 4 || n == 5,
        state_is_dynamic(JsonView::Text(s)) == state_is_dynamic(JsonView::Text(t)),
        state_is_dynamic(JsonView::Text("Reachable"@)),
        state_is_dynamic(JsonView::Text("Stale"@)),
        state_is_dynamic(JsonView::Text("Delay"@)),
        state_is_dynamic(JsonView::Text("Probe"@)),
        !state_is_dynamic(JsonView::Text("Permanent"@)),
        !state_is_dynamic(JsonView::Text("Unreachable"@)),
        !state_is_dynamic(JsonView::Text("Incomplete"@)),
        !state_is_dynamic(JsonView::Null),
{
    reveal_strlit("probe");
    reveal_strlit("delay");
    reveal_strlit("stale");
    reveal_strlit("reachable");
    reveal_strlit("Probe");
    reveal_strlit("Delay");
    reveal_strlit("Stale");
    reveal_strlit("Reachable");
    reveal_strlit("Permanent");
    reveal_strlit("Unreachable");
    reveal_strlit("Incomplete");
    assert(text::ascii_lower("Probe"@) =~= "probe"@);
    assert(text::ascii_lower("Delay"@) =~= "delay"@);
    assert(text::ascii_lower("Stale"@) =~= "stale"@);
    assert(text::ascii_lower("Reachable"@) =~= "reachable"@);
    assert(text::ascii_lower("Permanent"@)[0] == 'p');
    assert(text::ascii_lower("Permanent"@).len() == 9);
    assert(text::ascii_lower("Unreachable"@).len() == 11);
    assert(text::ascii_lower("Incomplete"@).len() == 10);
}

/// A row of the table is a neighbor exactly when its state counts, its address parses and
/// its MAC is a device's; it is listed with that address and the common form of the MAC.
pub proof fn law_what_a_row_says(row: JsonView, ip: Ipv4Addr, mac: Seq<char>)
    ensures
        neighbor()(row) == Some((ip, mac)) <==> {
            &&& state_is_dynamic(json::member(row, "State"@))
            &&& json::member(row, "IPAddress"@) == JsonView::Text(net::dotted(ip))
            &&& exists|raw: Seq<char>|
                json::member(row, "LinkLayerAddress"@) == JsonView::Text(raw) && mac
                    == #[trigger] common_mac(raw)
            &&& !is_placeholder(mac)
        },
{
    net::law_parse_of_text(ip);
    if neighbor()(row) == Some((ip, mac)) {
        let t = json::string_in(json::member(row, "IPAddress"@))->0;
        assert(net::dotted(net::parsed(t)->0) == t);
        let raw = json::string_in(json::member(row, "LinkLayerAddress"@))->0;
        assert(mac == common_mac(raw));
    }
}

/// The MAC of an address is that of the first entry with this address.
pub proof fn law_first_entry_answers(s: Seq<(Ipv4Addr, Seq<char>)>, ip: Ipv4Addr)
    ensures
        match mac_at(s, ip) {
            Some(mac) => exists|i: int|
                0 <= i < s.len() && #[trigger] s[i] == (ip, mac) && forall|j: int|
                    0 <= j < i ==> (#[trigger] s[j]).0 != ip,
            None => forall|i: int| 0 <= i < s.len() ==> (#[trigger] s[i]).0 != ip,
        },
    decreases s.len(),
{
    if s.len() > 0 {
        let rest = s.drop_first();
        law_first_entry_answers(rest, ip);
        if s[0].0 == ip {
            assert(s[0] == (ip, s[0].1));
        } else {
            match mac_at(rest, ip) {
                Some(mac) => {
                    let k = choose|i: int|
                        0 <= i < rest.len() && #[trigger] rest[i] == (ip, mac) && forall|j: int|
                            0 <= j < i ==> (#[trigger] rest[j]).0 != ip;
                    assert(s[k + 1] == rest[k]);
                    assert forall|j: int| 0 <= j < k + 1 implies (#[trigger] s[j]).0 != ip by {
                        if j > 0 {
                            assert(rest[j - 1] == s[j]);
                        }
                    }
                },
                None => {
                    assert forall|i: int| 0 <= i < s.len() implies (#[trigger] s[i]).0 != ip by {
                        if i > 0 {
                            assert(rest[i - 1] == s[i]);
                        }
                    }
                },
            }
        }
    }
}

/// A blank answer lists no neighbor; an answer that does not read lists none either.
pub proof fn law_what_an_answer_lists(stdout: Seq<char>)
    ensures
        ({
            let t = text::trimmed(stdout);
            &&& t.len() == 0 ==> listing(stdout).len() == 0
            &&& t.len() > 0 && t[0] == '[' ==> match json::read_array_text(t) {
                Ok(v) => listing(stdout) == v,
                Err(_) => listing(stdout).len() == 0,
            }
            &&& t.len() > 0 && t[0] != '[' ==> match json::read_text(t) {
                Ok(v) => listing(stdout).len() == 1 && listing(stdout)[0] == v,
                Err(_) => listing(stdout).len() == 0,
            }
        }),
{
}

} // verus!
