//! IPv4 addresses and CIDR blocks.

use crate::text;
use vstd::prelude::*;

verus! {

/// An IPv4 address.
#[derive(Clone, Copy, Debug, PartialEq, Eq, Structural, Hash)]
pub struct Ipv4Addr {
    pub a: u8,
    pub b: u8,
    pub c: u8,
    pub d: u8,
}

/// Dotted-quad text: four decimal numbers without leading zeros, joined by dots.
pub open spec fn dotted(ip: Ipv4Addr) -> Seq<char> {
    text::dec(ip.a as nat) + seq!['.'] + text::dec(ip.b as nat) + seq!['.'] + text::dec(ip.c as nat) + seq!['.']
        + text::dec(ip.d as nat)
}

/// Whether `s` is the text of some address.
pub open spec fn is_dotted(s: Seq<char>) -> bool {
    exists|ip: Ipv4Addr| dotted(ip) == s
}

/// The address that `s` is the text of, if it is one.
pub open spec fn parsed(s: Seq<char>) -> Option<Ipv4Addr> {
    if is_dotted(s) {
        Some(choose|ip: Ipv4Addr| dotted(ip) == s)
    } else {
        None
    }
}

/// Being a decimal digit.
pub open spec fn is_digit(c: char) -> bool {
    '0' <= c <= '9'
}

proof fn lemma_dec_octet(v: u8)
    ensures
        v < 10 ==> text::dec(v as nat) == seq![text::digit(v as int)],
        10 <= v < 100 ==> text::dec(v as nat) == seq![text::digit(v as int / 10), text::digit(v as int % 10)],
        100 <= v ==> text::dec(v as nat) == seq![
            text::digit(v as int / 100),
            text::digit(v as int / 10 % 10),
            text::digit(v as int % 10),
        ],
{
    reveal_with_fuel(text::dec, 4);
    if v < 10 {
    } else if v < 100 {
        assert(text::dec(v as nat) =~= seq![text::digit(v as int / 10), text::digit(v as int % 10)]);
    } else {
        assert(v as nat / 10 / 10 == v as nat / 100);
        assert(text::dec(v as nat) =~= seq![
            text::digit(v as int / 100),
            text::digit(v as int / 10 % 10),
            text::digit(v as int % 10),
        ]);
    }
}

/// The run of digits of `s` that starts at `i` ends at `j`.
spec fn run(s: Seq<char>, i: int, j: int) -> bool {
    &&& 0 <= i <= j <= s.len()
    &&& forall|k: int| i <= k < j ==> is_digit(#[trigger] s[k])
    &&& j == s.len() || !is_digit(s[j])
}

/// Reads the run of digits at `i` as an octet.
fn octet_at(s: &Vec<char>, i: usize) -> (r: Option<(u8, usize)>)
    requires
        i <= s.len(),
    ensures
        match r {
            Some((v, j)) => run(s@, i as int, j as int) && s@.subrange(i as int, j as int) == text::dec(
                v as nat,
            ),
            None => forall|j: int, v: u8|
                run(s@, i as int, j) ==> #[trigger] s@.subrange(i as int, j) != #[trigger] text::dec(
                    v as nat,
                ),
        },
{
    let mut j: usize = i;
    while j < s.len() && '0' <= s[j] && s[j] <= '9'
        invariant
            i <= j <= s.len(),
            forall|k: int| i <= k < j ==> is_digit(#[trigger] s@[k]),
        decreases s.len() - j,
    {
        j += 1;
    }
    let ghost part = s@.subrange(i as int, j as int);
    assert forall|j2: int| run(s@, i as int, j2) implies j2 == j by {
        if j2 < j {
            assert(is_digit(s@[j2]));
        }
        if j < j2 {
            assert(is_digit(s@[j as int]));
        }
    }
    assert forall|v: u8| #[trigger] text::dec(v as nat) == part implies {
        &&& 1 <= part.len() <= 3
        &&& part.len() == 1 ==> v == (part[0] as int - 48)
        &&& part.len() == 2 ==> v == (part[0] as int - 48) * 10 + (part[1] as int - 48) && v >= 10
        &&& part.len() == 3 ==> v == (part[0] as int - 48) * 100 + (part[1] as int - 48) * 10 + (
        part[2] as int - 48) && v >= 100
    } by {
        lemma_dec_octet(v);
    }
    let n: usize = j - i;
    if n == 0 || n > 3 {
        return None;
    }
    assert(is_digit(s@[i as int]));
    let mut v: u32 = s[i] as u32 - 48;
    if n >= 2 {
        assert(is_digit(s@[i + 1]));
        v = v * 10 + (s[i + 1] as u32 - 48);
    }
    if n == 3 {
        assert(is_digit(s@[i + 2]));
        v = v * 10 + (s[i + 2] as u32 - 48);
    }
    if v > 255 || (n == 2 && v < 10) || (n == 3 && v < 100) {
        return None;
    }
    proof {
        lemma_dec_octet(v as u8);
        assert(part =~= text::dec(v as nat));
    }
    Some((v as u8, j))
}

proof fn lemma_dec_run(s: Seq<char>, i: int, v: u8)
    requires
        0 <= i,
        i + text::dec(v as nat).len() <= s.len(),
        s.subrange(i, i + text::dec(v as nat).len()) == text::dec(v as nat),
        i + text::dec(v as nat).len() == s.len() || !is_digit(s[i + text::dec(v as nat).len()]),
    ensures
        run(s, i, i + text::dec(v as nat).len()),
{
    lemma_dec_octet(v);
    let n = text::dec(v as nat).len();
    assert forall|k: int| i <= k < i + n implies is_digit(#[trigger] s[k]) by {
        assert(s[k] == s.subrange(i, i + n)[k - i]);
    }
}

proof fn lemma_run_unique(s: Seq<char>, i: int, j: int, k: int)
    requires
        run(s, i, j),
        run(s, i, k),
    ensures
        j == k,
{
    if j < k {
        assert(is_digit(s[j]));
    }
    if k < j {
        assert(is_digit(s[k]));
    }
}

/// Two octets with the same text are the same octet.
proof fn lemma_dec_octet_injective(v: u8, w: u8)
    requires
        text::dec(v as nat) == text::dec(w as nat),
    ensures
        v == w,
{
    lemma_dec_octet(v);
    lemma_dec_octet(w);
    let s = text::dec(v as nat);
    if s.len() == 1 {
        assert(s[0] == text::digit(v as int) && s[0] == text::digit(w as int));
    } else if s.len() == 2 {
        assert(s[0] == text::digit(v as int / 10) && s[0] == text::digit(w as int / 10));
        assert(s[1] == text::digit(v as int % 10) && s[1] == text::digit(w as int % 10));
    } else {
        assert(s[0] == text::digit(v as int / 100) && s[0] == text::digit(w as int / 100));
        assert(s[1] == text::digit(v as int / 10 % 10) && s[1] == text::digit(w as int / 10 % 10));
        assert(s[2] == text::digit(v as int % 10) && s[2] == text::digit(w as int % 10));
    }
}

/// Where the four parts of an address stand in its text.
proof fn lemma_dotted_parts(ip: Ipv4Addr)
    ensures
        ({
            let s = dotted(ip);
            let p = text::dec(ip.a as nat).len() as int;
            let q = p + 1 + text::dec(ip.b as nat).len();
            let r = q + 1 + text::dec(ip.c as nat).len();
            let t = r + 1 + text::dec(ip.d as nat).len();
            &&& s.len() == t
            &&& run(s, 0, p) && s.subrange(0, p) == text::dec(ip.a as nat) && s[p] == '.'
            &&& run(s, p + 1, q) && s.subrange(p + 1, q) == text::dec(ip.b as nat) && s[q] == '.'
            &&& run(s, q + 1, r) && s.subrange(q + 1, r) == text::dec(ip.c as nat) && s[r] == '.'
            &&& run(s, r + 1, t) && s.subrange(r + 1, t) == text::dec(ip.d as nat)
        }),
{
    let s = dotted(ip);
    let p = text::dec(ip.a as nat).len() as int;
    let q = p + 1 + text::dec(ip.b as nat).len();
    let r = q + 1 + text::dec(ip.c as nat).len();
    let t = r + 1 + text::dec(ip.d as nat).len();
    assert(s.subrange(0, p) =~= text::dec(ip.a as nat));
    assert(s.subrange(p + 1, q) =~= text::dec(ip.b as nat));
    assert(s.subrange(q + 1, r) =~= text::dec(ip.c as nat));
    assert(s.subrange(r + 1, t) =~= text::dec(ip.d as nat));
    lemma_dec_run(s, 0, ip.a);
    lemma_dec_run(s, p + 1, ip.b);
    lemma_dec_run(s, q + 1, ip.c);
    lemma_dec_run(s, r + 1, ip.d);
}

/// Different addresses have different texts.
pub proof fn law_dotted_injective(x: Ipv4Addr, y: Ipv4Addr)
    requires
        dotted(x) == dotted(y),
    ensures
        x == y,
{
    let s = dotted(x);
    lemma_dotted_parts(x);
    lemma_dotted_parts(y);
    lemma_run_unique(s, 0, text::dec(x.a as nat).len() as int, text::dec(y.a as nat).len() as int);
    let p = text::dec(x.a as nat).len() as int;
    lemma_run_unique(s, p + 1, p + 1 + text::dec(x.b as nat).len(), p + 1 + text::dec(y.b as nat).len());
    let q = p + 1 + text::dec(x.b as nat).len();
    lemma_run_unique(s, q + 1, q + 1 + text::dec(x.c as nat).len(), q + 1 + text::dec(y.c as nat).len());
    lemma_dec_octet_injective(x.a, y.a);
    lemma_dec_octet_injective(x.b, y.b);
    lemma_dec_octet_injective(x.c, y.c);
    lemma_dec_octet_injective(x.d, y.d);
}

/// Formatting an address and parsing the text gives the address back.
pub proof fn law_parse_of_text(ip: Ipv4Addr)
    ensures
        parsed(dotted(ip)) == Some(ip),
{
    let s = dotted(ip);
    assert(is_dotted(s));
    let found = choose|x: Ipv4Addr| dotted(x) == s;
    law_dotted_injective(found, ip);
}

impl Ipv4Addr {
    pub fn new(a: u8, b: u8, c: u8, d: u8) -> (r: Ipv4Addr)
        ensures
            r == (Ipv4Addr { a, b, c, d }),
    {
        Ipv4Addr { a, b, c, d }
    }

    /// The address as a number, the first octet the most significant.
    pub open spec fn num(self) -> int {
        self.a * 0x1000000 + self.b * 0x10000 + self.c * 0x100 + self.d
    }

    /// The address with the number `n`.
    pub fn from_num(n: u32) -> (r: Ipv4Addr)
        ensures
            r == address(n as int),
            r.num() == n,
    {
        proof {
            lemma_address(n as int);
        }
        Ipv4Addr {
            a: (n / 0x1000000) as u8,
            b: (n / 0x10000 % 0x100) as u8,
            c: (n / 0x100 % 0x100) as u8,
            d: (n % 0x100) as u8,
        }
    }

    /// The number of the address.
    pub fn to_num(&self) -> (r: u32)
        ensures
            r == self.num(),
    {
        self.a as u32 * 0x1000000 + self.b as u32 * 0x10000 + self.c as u32 * 0x100 + self.d as u32
    }

    /// Whether the address comes before `other`, by number.
    pub fn is_below(&self, other: &Ipv4Addr) -> (r: bool)
        ensures
            r == (self.num() < other.num()),
    {
        self.a < other.a || (self.a == other.a && (self.b < other.b || (self.b == other.b && (
        self.c < other.c || (self.c == other.c && self.d < other.d)))))
    }

    /// Dotted-quad text.
    pub fn text(&self) -> (r: String)
        ensures
            r@ == dotted(*self),
    {
        let mut r = String::new();
        text::push_dec(&mut r, self.a as u64);
        r.push('.');
        text::push_dec(&mut r, self.b as u64);
        r.push('.');
        text::push_dec(&mut r, self.c as u64);
        r.push('.');
        text::push_dec(&mut r, self.d as u64);
        assert(r@ =~= dotted(*self));
        r
    }

    /// Reads dotted-quad text; anything else is refused.
    pub fn parse(s: &str) -> (r: Option<Ipv4Addr>)
        ensures
            r == parsed(s@),
    {
        let cs = text::chars_of(s);
        let r = Self::parse_chars(&cs);
        proof {
            match r {
                Some(ip) => {
                    law_parse_of_text(ip);
                },
                None => {
                    assert(!is_dotted(s@));
                },
            }
        }
        r
    }

    fn parse_chars(s: &Vec<char>) -> (r: Option<Ipv4Addr>)
        ensures
            match r {
                Some(ip) => dotted(ip) == s@,
                None => forall|ip: Ipv4Addr| #[trigger] dotted(ip) != s@,
            },
    {
        proof {
            assert forall|ip: Ipv4Addr| #[trigger] dotted(ip) == s@ implies {
                let p = text::dec(ip.a as nat).len() as int;
                let q = p + 1 + text::dec(ip.b as nat).len();
                let r = q + 1 + text::dec(ip.c as nat).len();
                let t = r + 1 + text::dec(ip.d as nat).len();
                &&& s@.len() == t
                &&& run(s@, 0, p) && s@.subrange(0, p) == text::dec(ip.a as nat) && s@[p] == '.'
                &&& run(s@, p + 1, q) && s@.subrange(p + 1, q) == text::dec(ip.b as nat) && s@[q] == '.'
                &&& run(s@, q + 1, r) && s@.subrange(q + 1, r) == text::dec(ip.c as nat) && s@[r] == '.'
                &&& run(s@, r + 1, t) && s@.subrange(r + 1, t) == text::dec(ip.d as nat)
            } by {
                lemma_dotted_parts(ip);
            }
        }
        let (a, p) = match octet_at(s, 0) {
            Some(x) => x,
            None => {
                return None;
            },
        };
        assert forall|ip: Ipv4Addr| #[trigger] dotted(ip) == s@ implies text::dec(ip.a as nat).len()
            == p by {
            lemma_run_unique(s@, 0, p as int, text::dec(ip.a as nat).len() as int);
        }
        if p >= s.len() || s[p] != '.' {
            return None;
        }
        let (b, q) = match octet_at(s, p + 1) {
            Some(x) => x,
            None => {
                return None;
            },
        };
        assert forall|ip: Ipv4Addr| #[trigger] dotted(ip) == s@ implies p + 1 + text::dec(
            ip.b as nat,
        ).len() == q by {
            lemma_run_unique(s@, p + 1, q as int, p + 1 + text::dec(ip.b as nat).len());
        }
        if q >= s.len() || s[q] != '.' {
            return None;
        }
        let (c, r) = match octet_at(s, q + 1) {
            Some(x) => x,
            None => {
                return None;
            },
        };
        assert forall|ip: Ipv4Addr| #[trigger] dotted(ip) == s@ implies q + 1 + text::dec(
            ip.c as nat,
        ).len() == r by {
            lemma_run_unique(s@, q + 1, r as int, q + 1 + text::dec(ip.c as nat).len());
        }
        if r >= s.len() || s[r] != '.' {
            return None;
        }
        let (d, t) = match octet_at(s, r + 1) {
            Some(x) => x,
            None => {
                return None;
            },
        };
        assert forall|ip: Ipv4Addr| #[trigger] dotted(ip) == s@ implies r + 1 + text::dec(
            ip.d as nat,
        ).len() == t by {
            lemma_run_unique(s@, r + 1, t as int, r + 1 + text::dec(ip.d as nat).len());
        }
        if t != s.len() {
            return None;
        }
        let ip = Ipv4Addr { a, b, c, d };
        assert(dotted(ip) =~= s@);
        Some(ip)
    }

    /// Whether the address is link-local (169.254.0.0/16).
    pub open spec fn link_local(self) -> bool {
        self.a == 169 && self.b == 254
    }

    /// Whether the address is link-local (169.254.0.0/16).
    pub fn is_link_local(&self) -> (r: bool)
        ensures
            r == self.link_local(),
    {
        self.a == 169 && self.b == 254
    }
}

/// How many addresses share a block of the given prefix length.
pub open spec fn block_size(prefix: int) -> int {
    vstd::arithmetic::power2::pow2((32 - prefix) as nat) as int
}

/// Whether two addresses agree on their first `prefix` bits.
pub open spec fn same_block(x: Ipv4Addr, y: Ipv4Addr, prefix: u8) -> bool {
    x.num() / block_size(prefix as int) == y.num() / block_size(prefix as int)
}

/// A digit string as a number.
pub open spec fn digits_value(s: Seq<char>) -> nat
    decreases s.len(),
{
    if s.len() == 0 {
        0
    } else {
        digits_value(s.drop_last()) * 10 + (s.last() as int - 48) as nat
    }
}

/// Being digits alone.
pub open spec fn all_digits(s: Seq<char>) -> bool {
    forall|i: int| 0 <= i < s.len() ==> is_digit(#[trigger] s[i])
}

/// A prefix length: an optional plus sign, then digits, at most 32 in value.
pub open spec fn prefix_text(s: Seq<char>) -> Option<u8> {
    let ds = if s.len() > 0 && s[0] == '+' {
        s.drop_first()
    } else {
        s
    };
    if ds.len() > 0 && all_digits(ds) && digits_value(ds) <= 32 {
        Some(digits_value(ds) as u8)
    } else {
        None
    }
}

/// The prefix length of a netmask: `p` one bits, then zero bits only.
pub open spec fn mask_bits(mask: Ipv4Addr) -> Option<u8> {
    if exists|p: u8| is_mask(mask, p) {
        Some(choose|p: u8| is_mask(mask, p))
    } else {
        None
    }
}

/// Whether `mask` is `p` one bits followed by zero bits.
pub open spec fn is_mask(mask: Ipv4Addr, p: u8) -> bool {
    p <= 32 && mask.num() == 0x1_0000_0000 - block_size(p as int)
}

/// CIDR notation: an address alone, or an address, one slash, and a prefix
/// length or a netmask. Host bits may be set.
pub open spec fn cidr(s: Seq<char>) -> Option<(Ipv4Addr, u8)> {
    let cut = s.index_of_first('/');
    match cut {
        None => match parsed(s) {
            Some(ip) => Some((ip, 32u8)),
            None => None,
        },
        Some(i) => {
            let tail = s.skip(i + 1);
            let bits = match parsed(tail) {
                Some(mask) => mask_bits(mask),
                None => prefix_text(tail),
            };
            match (parsed(s.take(i)), bits) {
                (Some(ip), Some(p)) if !tail.contains('/') => Some((ip, p)),
                _ => None,
            }
        },
    }
}

/// Why a text is no CIDR notation: more than one slash, no address before it, or no
/// prefix length behind it.
pub open spec fn cidr_fault(s: Seq<char>) -> Seq<char> {
    let (head, tail) = match s.index_of_first('/') {
        Some(i) => (s.take(i), s.skip(i + 1)),
        None => (s, Seq::empty()),
    };
    if tail.contains('/') {
        "invalid cidr format: CIDR must contain a single '/': "@ + s
    } else if !is_dotted(head) {
        "invalid address: "@ + head
    } else {
        "invalid prefix"@
    }
}

/// `str::parse` into `ipnetwork::Ipv4Network`: text in CIDR notation gives the
/// written address and the prefix length, any other text an error, whose message is
/// given back.
#[verifier::external_body]
fn read_cidr(s: &str) -> (r: Result<(Ipv4Addr, u8), String>)
    ensures
        match r {
            Ok(x) => cidr(s@) == Some(x),
            Err(e) => cidr(s@) is None && e@ == cidr_fault(s@),
        },
{
    match s.parse::<ipnetwork::Ipv4Network>() {
        Ok(net) => {
            let [a, b, c, d] = net.ip().octets();
            Ok((Ipv4Addr { a, b, c, d }, net.prefix()))
        },
        Err(e) => Err(e.to_string()),
    }
}

/// `ipnetwork::Ipv4Network::contains`: whether `ip` agrees with `base` on the
/// first `prefix` bits.
#[verifier::external_body]
fn block_contains(base: Ipv4Addr, prefix: u8, ip: Ipv4Addr) -> (r: bool)
    requires
        prefix <= 32,
    ensures
        r == same_block(base, ip, prefix),
{
    let net = ipnetwork::Ipv4Network::new([base.a, base.b, base.c, base.d].into(), prefix);
    net.unwrap().contains([ip.a, ip.b, ip.c, ip.d].into())
}

/// `ipnetwork::Ipv4Network::network`: the lowest address of the block.
#[verifier::external_body]
fn block_network(base: Ipv4Addr, prefix: u8) -> (r: Ipv4Addr)
    requires
        prefix <= 32,
    ensures
        r.num() == base.num() / block_size(prefix as int) * block_size(prefix as int),
{
    let net = ipnetwork::Ipv4Network::new([base.a, base.b, base.c, base.d].into(), prefix);
    let [a, b, c, d] = net.unwrap().network().octets();
    Ipv4Addr { a, b, c, d }
}

/// `ipnetwork::Ipv4Network::broadcast`: the highest address of the block.
#[verifier::external_body]
fn block_broadcast(base: Ipv4Addr, prefix: u8) -> (r: Ipv4Addr)
    requires
        prefix <= 32,
    ensures
        r.num() == base.num() / block_size(prefix as int) * block_size(prefix as int) + block_size(
            prefix as int,
        ) - 1,
{
    let net = ipnetwork::Ipv4Network::new([base.a, base.b, base.c, base.d].into(), prefix);
    let [a, b, c, d] = net.unwrap().broadcast().octets();
    Ipv4Addr { a, b, c, d }
}

/// Two addresses with the same number are the same address.
pub proof fn law_num_injective(x: Ipv4Addr, y: Ipv4Addr)
    requires
        x.num() == y.num(),
    ensures
        x == y,
{
    lemma_num_parts(x);
    lemma_num_parts(y);
}

/// The first numbers of an address are the quotients of its number.
pub proof fn lemma_num_parts(x: Ipv4Addr)
    ensures
        x.num() / 0x1000000 == x.a,
        x.num() / 0x10000 == x.a * 0x100 + x.b,
        x.num() / 0x100 == x.a * 0x10000 + x.b * 0x100 + x.c,
        0 <= x.num() < 0x1_0000_0000,
{
    let n = x.num();
    let p = x.b * 0x10000 + x.c * 0x100 + x.d;
    let q = x.c * 0x100 + x.d;
    let r = x.d as int;
    assert(n == x.a * 0x1000000 + p && 0 <= p < 0x1000000);
    assert(n == (x.a * 0x100 + x.b) * 0x10000 + q && 0 <= q < 0x10000);
    assert(n == (x.a * 0x10000 + x.b * 0x100 + x.c) * 0x100 + r && 0 <= r < 0x100);
    vstd::arithmetic::div_mod::lemma_fundamental_div_mod_converse(n, 0x1000000, x.a as int, p);
    vstd::arithmetic::div_mod::lemma_fundamental_div_mod_converse(
        n,
        0x10000,
        x.a * 0x100 + x.b,
        q,
    );
    vstd::arithmetic::div_mod::lemma_fundamental_div_mod_converse(
        n,
        0x100,
        x.a * 0x10000 + x.b * 0x100 + x.c,
        r,
    );
}

/// The address with number `n`.
pub open spec fn address(n: int) -> Ipv4Addr {
    Ipv4Addr {
        a: (n / 0x1000000) as u8,
        b: (n / 0x10000 % 0x100) as u8,
        c: (n / 0x100 % 0x100) as u8,
        d: (n % 0x100) as u8,
    }
}

/// An address is told by its number.
pub proof fn lemma_address_of_num(ip: Ipv4Addr)
    ensures
        address(ip.num()) == ip,
{
    let n = ip.num();
    lemma_num_parts(ip);
    vstd::arithmetic::div_mod::lemma_fundamental_div_mod_converse(
        n / 0x10000,
        0x100,
        ip.a as int,
        ip.b as int,
    );
    vstd::arithmetic::div_mod::lemma_fundamental_div_mod_converse(
        n / 0x100,
        0x100,
        ip.a * 0x100 + ip.b,
        ip.c as int,
    );
    vstd::arithmetic::div_mod::lemma_fundamental_div_mod_converse(
        n,
        0x100,
        ip.a * 0x10000 + ip.b * 0x100 + ip.c,
        ip.d as int,
    );
}

/// A number is that of its address.
pub proof fn lemma_num_of_address(n: int)
    requires
        0 <= n < 0x1_0000_0000,
    ensures
        address(n).num() == n,
{
    lemma_address(n);
}

/// The block of addresses that agree with an address on its first bits.
#[derive(Clone, Copy, Debug, PartialEq, Eq, Structural)]
pub struct Ipv4Network {
    addr: Ipv4Addr,
    prefix: u8,
}

impl Ipv4Network {
    #[verifier::type_invariant]
    spec fn valid(self) -> bool {
        self.prefix <= 32
    }

    /// The address the block was written with.
    pub closed spec fn base(self) -> Ipv4Addr {
        self.addr
    }

    /// The prefix length.
    pub closed spec fn bits(self) -> u8 {
        self.prefix
    }

    /// Whether the block holds `ip`.
    pub open spec fn has(self, ip: Ipv4Addr) -> bool {
        same_block(self.base(), ip, self.bits())
    }

    /// The block's lowest address, as a number.
    pub open spec fn first(self) -> int {
        self.base().num() / block_size(self.bits() as int) * block_size(self.bits() as int)
    }

    /// The block's highest address, as a number.
    pub open spec fn last(self) -> int {
        self.first() + block_size(self.bits() as int) - 1
    }

    /// A block from any address in it; prefix lengths over 32 are refused.
    pub fn new(addr: Ipv4Addr, prefix: u8) -> (r: Option<Ipv4Network>)
        ensures
            r is Some <==> prefix <= 32,
            r matches Some(net) ==> net.base() == addr && net.bits() == prefix,
    {
        if prefix <= 32 {
            Some(Ipv4Network { addr, prefix })
        } else {
            None
        }
    }

    /// Reads CIDR notation.
    pub fn parse(s: &str) -> (r: Option<Ipv4Network>)
        ensures
            match (r, cidr(s@)) {
                (Some(net), Some((ip, p))) => net.base() == ip && net.bits() == p,
                (None, None) => true,
                _ => false,
            },
    {
        match Self::read(s) {
            Ok(net) => Some(net),
            Err(_) => None,
        }
    }

    /// Reads CIDR notation; says what is wrong with any other text.
    pub fn read(s: &str) -> (r: Result<Ipv4Network, String>)
        ensures
            match r {
                Ok(net) => cidr(s@) == Some((net.base(), net.bits())),
                Err(e) => cidr(s@) is None && e@ == cidr_fault(s@),
            },
    {
        match read_cidr(s) {
            Ok((addr, prefix)) => {
                proof {
                    lemma_cidr_bits(s@);
                }
                Ok(Ipv4Network { addr, prefix })
            },
            Err(e) => Err(e),
        }
    }

    /// The prefix length.
    pub fn prefix(&self) -> (r: u8)
        ensures
            r == self.bits(),
            r <= 32,
    {
        proof {
            use_type_invariant(self);
        }
        self.prefix
    }

    /// Whether two blocks were written alike.
    pub fn same(&self, other: &Ipv4Network) -> (r: bool)
        ensures
            r == (self.base() == other.base() && self.bits() == other.bits()),
    {
        self.addr == other.addr && self.prefix == other.prefix
    }

    /// Whether the block holds `ip`.
    pub fn contains(&self, ip: Ipv4Addr) -> (r: bool)
        ensures
            r == self.has(ip),
    {
        proof {
            use_type_invariant(self);
        }
        block_contains(self.addr, self.prefix, ip)
    }

    /// The lowest address of the block.
    pub fn network(&self) -> (r: Ipv4Addr)
        ensures
            r.num() == self.first(),
    {
        proof {
            use_type_invariant(self);
        }
        block_network(self.addr, self.prefix)
    }

    /// The highest address of the block.
    pub fn broadcast(&self) -> (r: Ipv4Addr)
        ensures
            r.num() == self.last(),
    {
        proof {
            use_type_invariant(self);
        }
        block_broadcast(self.addr, self.prefix)
    }
}

proof fn lemma_cidr_bits(s: Seq<char>)
    ensures
        cidr(s) matches Some((_, p)) ==> p <= 32,
{
}

proof fn lemma_size(p: int)
    requires
        0 <= p <= 32,
    ensures
        1 <= block_size(p) <= 0x1_0000_0000,
{
    vstd::arithmetic::power2::lemma_pow2_pos((32 - p) as nat);
    vstd::arithmetic::power2::lemma2_to64();
    if p > 0 {
        vstd::arithmetic::power2::lemma_pow2_strictly_increases((32 - p) as nat, 32);
    }
}

proof fn lemma_nested_sizes(p: int, q: int)
    requires
        0 <= p <= q <= 32,
    ensures
        block_size(p) == block_size(q) * vstd::arithmetic::power2::pow2((q - p) as nat),
        vstd::arithmetic::power2::pow2((q - p) as nat) >= 1,
{
    vstd::arithmetic::power2::lemma_pow2_adds((32 - q) as nat, (q - p) as nat);
    vstd::arithmetic::power2::lemma_pow2_pos((q - p) as nat);
}

proof fn lemma_round_down(x: int, s: int, k: int)
    requires
        0 <= x,
        s >= 1,
        k >= 1,
    ensures
        (x / s * s) / (s * k) == x / (s * k),
        (x / s * s) / s == x / s,
        0 <= x / s * s <= x < x / s * s + s,
{
    vstd::arithmetic::div_mod::lemma_fundamental_div_mod(x, s);
    vstd::arithmetic::div_mod::lemma_mod_bound(x, s);
    let q = x / s;
    vstd::arithmetic::mul::lemma_mul_is_commutative(q, s);
    vstd::arithmetic::div_mod::lemma_div_pos_is_pos(x, s);
    vstd::arithmetic::mul::lemma_mul_nonnegative(q, s);
    vstd::arithmetic::div_mod::lemma_div_multiples_vanish(q, s);
    vstd::arithmetic::div_mod::lemma_div_denominator(q * s, s, k);
    vstd::arithmetic::div_mod::lemma_div_denominator(x, s, k);
}

proof fn lemma_address(n: int)
    requires
        0 <= n < 0x1_0000_0000,
    ensures
        address(n).num() == n,
{
    let a = n / 0x1000000;
    let b = n / 0x10000 % 0x100;
    let c = n / 0x100 % 0x100;
    let d = n % 0x100;
    assert(0 <= a < 0x100 && 0 <= b < 0x100 && 0 <= c < 0x100 && 0 <= d < 0x100);
    assert(n == n / 0x100 * 0x100 + d);
    assert(n / 0x100 / 0x100 == n / 0x10000);
    assert(n / 0x10000 / 0x100 == n / 0x1000000);
}

/// The lowest and highest address of a block are addresses, and lie in it.
pub proof fn law_block_bounds(net: Ipv4Network)
    requires
        net.bits() <= 32,
    ensures
        0 <= net.first() <= net.last() < 0x1_0000_0000,
        address(net.first()).num() == net.first(),
        address(net.last()).num() == net.last(),
        net.has(address(net.first())),
        net.has(address(net.last())),
        forall|ip: Ipv4Addr| #[trigger] net.has(ip) <==> net.first() <= ip.num() <= net.last(),
{
    let s = block_size(net.bits() as int);
    let x = net.base().num();
    lemma_size(net.bits() as int);
    lemma_num_parts(net.base());
    lemma_nested_sizes(0, net.bits() as int);
    let k = vstd::arithmetic::power2::pow2(net.bits() as nat) as int;
    lemma_round_down(x, s, k);
    vstd::arithmetic::power2::lemma2_to64();
    assert(block_size(0) == 0x1_0000_0000);
    let q = x / s;
    assert(q * s + s <= k * s) by (nonlinear_arith)
        requires
            q * s <= x,
            x < s * k,
            s >= 1,
    ;
    vstd::arithmetic::mul::lemma_mul_is_commutative(k, s);
    lemma_address(net.first());
    lemma_address(net.last());
    assert forall|ip: Ipv4Addr| #[trigger] net.has(ip) <==> net.first() <= ip.num()
        <= net.last() by {
        let y = ip.num();
        lemma_num_parts(ip);
        lemma_round_down(y, s, 1);
        if net.first() <= y <= net.last() {
            vstd::arithmetic::div_mod::lemma_fundamental_div_mod_converse(y, s, q, y - q * s);
        }
    }
}

/// Two blocks share an address exactly when one holds the other's lowest address.
pub proof fn law_blocks_overlap(x: Ipv4Network, y: Ipv4Network)
    requires
        x.bits() <= 32,
        y.bits() <= 32,
    ensures
        (exists|ip: Ipv4Addr| x.has(ip) && y.has(ip)) <==> x.has(address(y.first())) || y.has(
            address(x.first()),
        ),
{
    law_block_bounds(x);
    law_block_bounds(y);
    if x.has(address(y.first())) {
        assert(y.has(address(y.first())));
    }
    if y.has(address(x.first())) {
        assert(x.has(address(x.first())));
    }
    if exists|ip: Ipv4Addr| x.has(ip) && y.has(ip) {
        let ip = choose|ip: Ipv4Addr| x.has(ip) && y.has(ip);
        if x.first() <= y.first() {
            assert(x.first() <= y.first() <= ip.num() <= x.last());
            assert(x.has(address(y.first())));
        } else {
            assert(y.has(address(x.first())));
        }
    }
}

/// The key of the /24 that `ip` lies in: its network address, then `/24`.
pub open spec fn subnet_key(ip: Ipv4Addr) -> Seq<char> {
    dotted(Ipv4Addr { a: ip.a, b: ip.b, c: ip.c, d: 0 }) + seq!['/', '2', '4']
}

/// The key of the /24 that `ip` lies in.
pub fn subnet_key_for(ip: Ipv4Addr) -> (r: String)
    ensures
        r@ == subnet_key(ip),
{
    let mut r = Ipv4Addr { a: ip.a, b: ip.b, c: ip.c, d: 0 }.text();
    r.push('/');
    r.push('2');
    r.push('4');
    assert(r@ =~= subnet_key(ip));
    r
}

/// The key of the /24 is CIDR notation for that /24.
pub proof fn law_subnet_key_is_cidr(ip: Ipv4Addr)
    ensures
        cidr(subnet_key(ip)) == Some((Ipv4Addr { a: ip.a, b: ip.b, c: ip.c, d: 0 }, 24u8)),
{
    let base = Ipv4Addr { a: ip.a, b: ip.b, c: ip.c, d: 0 };
    let s = subnet_key(ip);
    let n = dotted(base).len() as int;
    let tail = seq!['2', '4'];
    lemma_no_slash(base);
    s.index_of_first_ensures('/');
    assert(s[n] == '/');
    let i = s.index_of_first('/').unwrap();
    assert(i == n) by {
        if i < n {
            assert(s[i] == dotted(base)[i]);
        }
    }
    assert(s.take(n) =~= dotted(base));
    assert(s.skip(n + 1) =~= tail);
    law_parse_of_text(base);
    assert(parsed(tail) is None) by {
        if is_dotted(tail) {
            let x = choose|x: Ipv4Addr| dotted(x) == tail;
            lemma_dotted_parts(x);
            assert(tail[text::dec(x.a as nat).len() as int] == '.');
        }
    }
    assert(tail.drop_last().drop_last() =~= Seq::<char>::empty());
    reveal_with_fuel(digits_value, 3);
    assert(digits_value(tail) == 24);
    assert(all_digits(tail));
    assert(prefix_text(tail) == Some(24u8));
    assert(!tail.contains('/'));
}

proof fn lemma_no_slash(ip: Ipv4Addr)
    ensures
        forall|i: int| 0 <= i < dotted(ip).len() ==> #[trigger] dotted(ip)[i] != '/',
{
    lemma_dec_octet(ip.a);
    lemma_dec_octet(ip.b);
    lemma_dec_octet(ip.c);
    lemma_dec_octet(ip.d);
}

/// The network address in an adoption key: dotted-quad text that ends in zero, then
/// `/24`.
pub open spec fn key_address(key: Seq<char>) -> Option<Ipv4Addr> {
    let n = key.len() - 3;
    if n >= 0 && key.skip(n) == seq!['/', '2', '4'] {
        match parsed(key.take(n)) {
            Some(ip) => if ip.d == 0 {
                Some(ip)
            } else {
                None
            },
            None => None,
        }
    } else {
        None
    }
}

/// The key of a /24 reads back as its network address.
pub proof fn law_key_address(ip: Ipv4Addr)
    ensures
        key_address(subnet_key(ip)) == Some(Ipv4Addr { a: ip.a, b: ip.b, c: ip.c, d: 0 }),
{
    let base = Ipv4Addr { a: ip.a, b: ip.b, c: ip.c, d: 0 };
    let s = subnet_key(ip);
    assert(s.skip(s.len() - 3) =~= seq!['/', '2', '4']);
    assert(s.take(s.len() - 3) =~= dotted(base));
    law_parse_of_text(base);
}

/// A text is read as an adoption key exactly where it is the key of a /24.
pub proof fn law_only_subnet_keys_are_read(key: Seq<char>)
    ensures
        key_address(key) matches Some(ip) ==> ip.d == 0 && subnet_key(ip) == key,
        (exists|ip: Ipv4Addr| #[trigger] subnet_key(ip) == key) ==> key_address(key) is Some,
{
    if let Some(ip) = key_address(key) {
        let n = key.len() - 3;
        assert(key =~= key.take(n) + key.skip(n));
        assert(dotted(ip) == key.take(n));
        assert(subnet_key(ip) =~= dotted(ip) + seq!['/', '2', '4']);
    }
    if exists|ip: Ipv4Addr| #[trigger] subnet_key(ip) == key {
        let ip = choose|ip: Ipv4Addr| #[trigger] subnet_key(ip) == key;
        law_key_address(ip);
    }
}

/// Whether `ip` is in the list.
pub fn holds(list: &Vec<Ipv4Addr>, ip: Ipv4Addr) -> (r: bool)
    ensures
        r == list@.contains(ip),
{
    let mut i: usize = 0;
    while i < list.len()
        invariant
            i <= list.len(),
            forall|k: int| 0 <= k < i ==> list@[k] != ip,
        decreases list.len() - i,
    {
        if list[i] == ip {
            return true;
        }
        i += 1;
    }
    false
}

/// The lowest address of a block lies in it.
pub proof fn lemma_lowest(ip: Ipv4Addr, prefix: u8)
    requires
        prefix <= 32,
    ensures
        ({
            let size = block_size(prefix as int);
            let low = address(ip.num() / size * size);
            &&& low.num() == ip.num() / size * size
            &&& low.num() <= ip.num()
            &&& low.num() % size == 0
            &&& same_block(low, ip, prefix)
        }),
{
    let s = block_size(prefix as int);
    let x = ip.num();
    lemma_size(prefix as int);
    lemma_num_parts(ip);
    lemma_round_down(x, s, 1);
    lemma_address(x / s * s);
    vstd::arithmetic::div_mod::lemma_mod_multiples_basic(x / s, s);
}

/// Two addresses have one subnet key exactly when their first three numbers agree.
pub proof fn law_key_is_the_first_three_numbers(x: Ipv4Addr, y: Ipv4Addr)
    ensures
        subnet_key(x) == subnet_key(y) <==> x.a == y.a && x.b == y.b && x.c == y.c,
{
    law_key_address(x);
    law_key_address(y);
}

/// A block with a prefix of 24 holds the addresses that share its first three numbers,
/// one with 16 those that share the first two, one with 32 its own address alone, and
/// one with 0 every address.
pub proof fn law_common_prefixes(net: Ipv4Network, ip: Ipv4Addr)
    ensures
        net.bits() == 24 ==> (net.has(ip) <==> net.base().a == ip.a && net.base().b == ip.b
            && net.base().c == ip.c),
        net.bits() == 16 ==> (net.has(ip) <==> net.base().a == ip.a && net.base().b == ip.b),
        net.bits() == 32 ==> (net.has(ip) <==> net.base() == ip),
        net.bits() == 0 ==> net.has(ip),
{
    vstd::arithmetic::power2::lemma2_to64();
    vstd::arithmetic::power2::lemma2_to64_rest();
    let x = net.base();
    assert(block_size(24) == 256);
    assert(block_size(16) == 0x10000);
    assert(block_size(32) == 1);
    assert(block_size(0) == 0x1_0000_0000);
    lemma_num_parts(x);
    lemma_num_parts(ip);
    if x.num() == ip.num() {
        law_num_injective(x, ip);
    }
}

/// Whether an address is link-local is a matter of its first two numbers.
pub proof fn law_link_local_range(ip: Ipv4Addr)
    ensures
        ip.link_local() <==> 0xa9fe_0000 <= ip.num() <= 0xa9fe_ffff,
{
}

/// A number that is written is all digits, and has that value.
pub proof fn lemma_dec_digits(n: nat)
    ensures
        text::dec(n).len() > 0,
        all_digits(text::dec(n)),
        digits_value(text::dec(n)) == n,
    decreases n,
{
    let s = text::dec(n);
    if n < 10 {
        assert(s.drop_last() =~= Seq::empty());
        assert(digits_value(s.drop_last()) == 0);
    } else {
        lemma_dec_digits(n / 10);
        assert(s.drop_last() =~= text::dec(n / 10));
        assert forall|i: int| 0 <= i < s.len() implies is_digit(#[trigger] s[i]) by {
            if i < s.len() - 1 {
                assert(s[i] == text::dec(n / 10)[i]);
            }
        }
    }
}

/// A block that is written is read back: an address and a prefix up to 32, and an address
/// alone as a block of its own. A larger prefix is refused.
pub proof fn law_cidr_reads_back(ip: Ipv4Addr, prefix: u8)
    ensures
        cidr(dotted(ip) + seq!['/'] + text::dec(prefix as nat)) == if prefix <= 32 {
            Some((ip, prefix))
        } else {
            None
        },
        cidr(dotted(ip)) == Some((ip, 32u8)),
{
    let tail = text::dec(prefix as nat);
    let s = dotted(ip) + seq!['/'] + tail;
    let n = dotted(ip).len() as int;
    lemma_no_slash(ip);
    lemma_dec_digits(prefix as nat);
    law_parse_of_text(ip);
    s.index_of_first_ensures('/');
    assert(s[n] == '/');
    let i = s.index_of_first('/').unwrap();
    assert(i == n) by {
        if i < n {
            assert(s[i] == dotted(ip)[i]);
        }
    }
    assert(s.take(n) =~= dotted(ip));
    assert(s.skip(n + 1) =~= tail);
    assert(parsed(tail) is None) by {
        if is_dotted(tail) {
            let x = choose|x: Ipv4Addr| dotted(x) == tail;
            lemma_dotted_parts(x);
            assert(tail[text::dec(x.a as nat).len() as int] == '.');
        }
    }
    assert(is_digit(tail[0]));
    assert(!tail.contains('/')) by {
        if tail.contains('/') {
            let k = tail.index_of('/');
            assert(is_digit(tail[k]));
        }
    }
    dotted(ip).index_of_first_ensures('/');
    assert(!dotted(ip).contains('/')) by {
        if dotted(ip).contains('/') {
            let k = dotted(ip).index_of('/');
            assert(dotted(ip)[k] != '/');
        }
    }
}

/// Two blocks share an address exactly when the lowest of one lies in the other.
pub proof fn lemma_blocks_touch(base: Ipv4Addr, bits: u8, n: Ipv4Network)
    requires
        bits <= 32,
        n.bits() <= 32,
    ensures
        ({
            let size = block_size(bits as int);
            n.has(address(base.num() / size * size)) || same_block(base, address(n.first()), bits)
        }) <==> exists|x: Ipv4Addr| same_block(base, x, bits) && #[trigger] n.has(x),
{
    let b = Ipv4Network { addr: base, prefix: bits };
    law_blocks_overlap(b, n);
    if exists|ip: Ipv4Addr| b.has(ip) && n.has(ip) {
        let ip = choose|ip: Ipv4Addr| b.has(ip) && n.has(ip);
        assert(same_block(base, ip, bits) && n.has(ip));
    }
    if exists|x: Ipv4Addr| same_block(base, x, bits) && #[trigger] n.has(x) {
        let x = choose|x: Ipv4Addr| same_block(base, x, bits) && #[trigger] n.has(x);
        assert(b.has(x) && n.has(x));
    }
}

/// A block may be written with its mask, too.
pub proof fn law_masks_read_back(ip: Ipv4Addr, mask: Ipv4Addr, prefix: u8)
    requires
        prefix <= 32,
        mask.num() + vstd::arithmetic::power2::pow2((32 - prefix) as nat) == 0x1_0000_0000,
    ensures
        cidr(dotted(ip) + seq!['/'] + dotted(mask)) == Some((ip, prefix)),
{
    let tail = dotted(mask);
    let s = dotted(ip) + seq!['/'] + tail;
    let n = dotted(ip).len() as int;
    lemma_no_slash(ip);
    lemma_no_slash(mask);
    law_parse_of_text(ip);
    law_parse_of_text(mask);
    s.index_of_first_ensures('/');
    assert(s[n] == '/');
    let i = s.index_of_first('/').unwrap();
    assert(i == n) by {
        if i < n {
            assert(s[i] == dotted(ip)[i]);
        }
    }
    assert(s.take(n) =~= dotted(ip));
    assert(s.skip(n + 1) =~= tail);
    assert(!tail.contains('/')) by {
        if tail.contains('/') {
            let k = tail.index_of('/');
            assert(tail[k] != '/');
        }
    }
    assert(is_mask(mask, prefix));
    let p = choose|p: u8| is_mask(mask, p);
    assert(is_mask(mask, p));
    if p < prefix {
        vstd::arithmetic::power2::lemma_pow2_strictly_increases(
            (32 - prefix) as nat,
            (32 - p) as nat,
        );
    } else if prefix < p {
        vstd::arithmetic::power2::lemma_pow2_strictly_increases(
            (32 - p) as nat,
            (32 - prefix) as nat,
        );
    }
    assert(p == prefix);
}

} // verus!
