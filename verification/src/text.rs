//! Text as sequences of characters: comparison, search, and number formatting.

use vstd::prelude::*;

verus! {

/// The views of a sequence's items, in order.
pub open spec fn views<T: View>(s: Seq<T>) -> Seq<T::V> {
    s.map_values(|t: T| t@)
}

/// The views of a longer list.
pub proof fn lemma_views_push<T: View>(s: Seq<T>, t: T)
    ensures
        views(s.push(t)) == views(s).push(t@),
{
    assert(views(s.push(t)) =~= views(s).push(t@));
}

/// `String::push` appends one character at the end of the string.
pub assume_specification[ String::push ](s: &mut String, c: char)
    ensures
        final(s)@ == old(s)@.push(c),
;

/// The characters of `s`, in order.
pub fn chars_of(s: &str) -> (r: Vec<char>)
    ensures
        r@ == s@,
{
    let mut r: Vec<char> = Vec::new();
    for c in it: s.chars()
        invariant
            it.seq() == s@,
            r@ == s@.take(it.index() as int),
    {
        proof {
            assert(s@.take(it.index() as int + 1) =~= s@.take(it.index() as int).push(c));
        }
        r.push(c);
    }
    proof {
        assert(s@.take(s@.len() as int) =~= s@);
    }
    r
}

/// Whether two texts are equal.
pub fn same(a: &str, b: &str) -> (r: bool)
    ensures
        r == (a@ == b@),
{
    let x = chars_of(a);
    let y = chars_of(b);
    if x.len() != y.len() {
        return false;
    }
    let mut i: usize = 0;
    while i < x.len()
        invariant
            x@ == a@,
            y@ == b@,
            x.len() == y.len(),
            i <= x.len(),
            forall|k: int| 0 <= k < i ==> x@[k] == y@[k],
        decreases x.len() - i,
    {
        if x[i] != y[i] {
            assert(a@[i as int] != b@[i as int]);
            return false;
        }
        i += 1;
    }
    assert(a@ =~= b@);
    true
}

/// Whether `s` begins with `prefix`.
pub fn starts_with(s: &str, prefix: &str) -> (r: bool)
    ensures
        r == prefix@.is_prefix_of(s@),
{
    let x = chars_of(s);
    let p = chars_of(prefix);
    if p.len() > x.len() {
        return false;
    }
    let mut i: usize = 0;
    while i < p.len()
        invariant
            x@ == s@,
            p@ == prefix@,
            p.len() <= x.len(),
            i <= p.len(),
            forall|k: int| 0 <= k < i ==> x@[k] == p@[k],
        decreases p.len() - i,
    {
        if x[i] != p[i] {
            assert(s@.take(prefix@.len() as int)[i as int] != prefix@[i as int]);
            return false;
        }
        i += 1;
    }
    assert(prefix@ =~= s@.subrange(0, prefix@.len() as int));
    true
}

/// Whether `needle` stands somewhere in `hay`.
pub open spec fn occurs(needle: Seq<char>, hay: Seq<char>) -> bool {
    exists|i: int| occurs_at(needle, hay, i)
}

/// Whether `needle` stands in `hay` from position `i` on.
pub open spec fn occurs_at(needle: Seq<char>, hay: Seq<char>, i: int) -> bool {
    &&& 0 <= i
    &&& i + needle.len() <= hay.len()
    &&& hay.subrange(i, i + needle.len()) == needle
}

/// Whether `hay` contains `needle`.
pub fn contains(hay: &str, needle: &str) -> (r: bool)
    ensures
        r == occurs(needle@, hay@),
{
    let h = chars_of(hay);
    let n = chars_of(needle);
    if n.len() > h.len() {
        return false;
    }
    let last: usize = h.len() - n.len();
    let mut i: usize = 0;
    while i <= last
        invariant
            h@ == hay@,
            n@ == needle@,
            n.len() <= h.len(),
            last == h.len() - n.len(),
            i <= last + 1,
            forall|k: int| 0 <= k < i ==> !occurs_at(needle@, hay@, k),
        decreases last + 1 - i,
    {
        let mut j: usize = 0;
        while j < n.len() && h[i + j] == n[j]
            invariant
                h@ == hay@,
                n@ == needle@,
                n.len() <= h.len(),
                last == h.len() - n.len(),
                i <= last,
                j <= n.len(),
                forall|k: int| 0 <= k < j ==> h@[i + k] == n@[k],
            decreases n.len() - j,
        {
            j += 1;
        }
        if j == n.len() {
            assert(hay@.subrange(i as int, i + needle@.len()) =~= needle@);
            assert(occurs_at(needle@, hay@, i as int));
            return true;
        }
        assert(hay@.subrange(i as int, i + needle@.len())[j as int] != needle@[j as int]);
        if i == last {
            assert forall|k: int| !occurs_at(needle@, hay@, k) by {}
            return false;
        }
        i += 1;
    }
    false
}

/// Lexicographic order by code point.
pub open spec fn precedes(a: Seq<char>, b: Seq<char>) -> bool
    decreases a.len(),
{
    if b.len() == 0 {
        false
    } else if a.len() == 0 {
        true
    } else if a[0] != b[0] {
        a[0] < b[0]
    } else {
        precedes(a.drop_first(), b.drop_first())
    }
}

proof fn lemma_precedes_same_prefix(a: Seq<char>, b: Seq<char>, n: int)
    requires
        0 <= n <= a.len(),
        n <= b.len(),
        forall|k: int| 0 <= k < n ==> a[k] == b[k],
    ensures
        precedes(a, b) == precedes(a.skip(n), b.skip(n)),
    decreases n,
{
    if n == 0 {
        assert(a.skip(0) =~= a);
        assert(b.skip(0) =~= b);
    } else {
        lemma_precedes_same_prefix(a.drop_first(), b.drop_first(), n - 1);
        assert(a.drop_first().skip(n - 1) =~= a.skip(n));
        assert(b.drop_first().skip(n - 1) =~= b.skip(n));
    }
}

/// Whether `a` comes before `b` in lexicographic order by code point.
pub fn is_before(a: &str, b: &str) -> (r: bool)
    ensures
        r == precedes(a@, b@),
{
    let x = chars_of(a);
    let y = chars_of(b);
    let mut i: usize = 0;
    while i < x.len() && i < y.len() && x[i] == y[i]
        invariant
            x@ == a@,
            y@ == b@,
            i <= x.len(),
            i <= y.len(),
            forall|k: int| 0 <= k < i ==> x@[k] == y@[k],
        decreases x.len() - i,
    {
        i += 1;
    }
    proof {
        lemma_precedes_same_prefix(a@, b@, i as int);
    }
    if i == y.len() {
        false
    } else if i == x.len() {
        true
    } else {
        x[i] < y[i]
    }
}

/// `precedes` is irreflexive.
pub proof fn lemma_precedes_irreflexive(a: Seq<char>)
    ensures
        !precedes(a, a),
    decreases a.len(),
{
    if a.len() > 0 {
        lemma_precedes_irreflexive(a.drop_first());
    }
}

/// `precedes` is transitive.
pub proof fn lemma_precedes_transitive(a: Seq<char>, b: Seq<char>, c: Seq<char>)
    requires
        precedes(a, b),
        precedes(b, c),
    ensures
        precedes(a, c),
    decreases a.len(),
{
    if a.len() > 0 && a[0] == b[0] && b[0] == c[0] {
        lemma_precedes_transitive(a.drop_first(), b.drop_first(), c.drop_first());
    }
}

/// Of two different texts one comes before the other.
pub proof fn lemma_precedes_total(a: Seq<char>, b: Seq<char>)
    ensures
        precedes(a, b) || precedes(b, a) || a == b,
    decreases a.len(),
{
    if a.len() > 0 && b.len() > 0 && a[0] == b[0] {
        lemma_precedes_total(a.drop_first(), b.drop_first());
        if a.drop_first() == b.drop_first() {
            assert(a =~= seq![a[0]] + a.drop_first());
            assert(b =~= seq![b[0]] + b.drop_first());
        }
    } else if a.len() == 0 && b.len() == 0 {
        assert(a =~= b);
    }
}

/// The decimal digit for `d`.
pub open spec fn digit(d: int) -> char {
    (48 + d) as char
}

/// `n` in decimal, without leading zeros.
pub open spec fn dec(n: nat) -> Seq<char>
    decreases n,
{
    if n < 10 {
        seq![digit(n as int)]
    } else {
        dec(n / 10).push(digit((n % 10) as int))
    }
}

/// Appends `n` in decimal.
pub fn push_dec(out: &mut String, n: u64)
    ensures
        final(out)@ == old(out)@ + dec(n as nat),
    decreases n,
{
    if n >= 10 {
        push_dec(out, n / 10);
    }
    let d: u8 = (n % 10) as u8;
    out.push((48u8 + d) as char);
    proof {
        assert(out@ =~= old(out)@ + dec(n as nat));
    }
}

/// The upper-case hexadecimal digit for `d`.
pub open spec fn hex_digit(d: int) -> char {
    if d < 10 {
        (48 + d) as char
    } else {
        (55 + d) as char
    }
}

fn hex_digit_of(d: u8) -> (c: char)
    requires
        d < 16,
    ensures
        c == hex_digit(d as int),
{
    if d < 10 {
        (48u8 + d) as char
    } else {
        (55u8 + d) as char
    }
}

/// A byte as two upper-case hexadecimal digits.
pub open spec fn hex2(b: u8) -> Seq<char> {
    seq![hex_digit(b as int / 16), hex_digit(b as int % 16)]
}

/// Appends a byte as two upper-case hexadecimal digits.
pub fn push_hex2(out: &mut String, b: u8)
    ensures
        final(out)@ == old(out)@ + hex2(b),
{
    out.push(hex_digit_of(b / 16));
    out.push(hex_digit_of(b % 16));
    assert(out@ =~= old(out)@ + hex2(b));
}

/// A 32-bit word as eight upper-case hexadecimal digits.
pub open spec fn hex8(w: u32) -> Seq<char> {
    hex2((w as int / 0x1000000) as u8) + hex2((w as int / 0x10000 % 0x100) as u8) + hex2(
        (w as int / 0x100 % 0x100) as u8,
    ) + hex2((w as int % 0x100) as u8)
}

/// Appends a 32-bit word as eight upper-case hexadecimal digits.
pub fn push_hex8(out: &mut String, w: u32)
    ensures
        final(out)@ == old(out)@ + hex8(w),
{
    push_hex2(out, (w / 0x1000000) as u8);
    push_hex2(out, (w / 0x10000 % 0x100) as u8);
    push_hex2(out, (w / 0x100 % 0x100) as u8);
    push_hex2(out, (w % 0x100) as u8);
    assert(out@ =~= old(out)@ + hex8(w));
}

/// Whether a text is in the list.
pub fn holds(list: &Vec<String>, s: &str) -> (r: bool)
    ensures
        r == views(list@).contains(s@),
{
    let mut i: usize = 0;
    while i < list.len()
        invariant
            i <= list.len(),
            forall|k: int| 0 <= k < i ==> views(list@)[k] != s@,
        decreases list.len() - i,
    {
        if same(list[i].as_str(), s) {
            assert(views(list@)[i as int] == s@);
            return true;
        }
        i += 1;
    }
    false
}

/// The lower-case hexadecimal digit for `d`.
pub open spec fn low_hex_digit(d: int) -> char {
    if d < 10 {
        (48 + d) as char
    } else {
        (87 + d) as char
    }
}

/// A byte as two lower-case hexadecimal digits.
pub open spec fn low_hex2(b: u8) -> Seq<char> {
    seq![low_hex_digit(b as int / 16), low_hex_digit(b as int % 16)]
}

fn low_hex_digit_of(d: u8) -> (c: char)
    requires
        d < 16,
    ensures
        c == low_hex_digit(d as int),
{
    if d < 10 {
        (48u8 + d) as char
    } else {
        (87u8 + d) as char
    }
}

/// Appends a byte as two lower-case hexadecimal digits.
pub fn push_low_hex2(out: &mut String, b: u8)
    ensures
        final(out)@ == old(out)@ + low_hex2(b),
{
    out.push(low_hex_digit_of(b / 16));
    out.push(low_hex_digit_of(b % 16));
    assert(out@ =~= old(out)@ + low_hex2(b));
}

/// `c`, or `to` if it is `from`.
pub open spec fn swapped(c: char, from: char, to: char) -> char {
    if c == from {
        to
    } else {
        c
    }
}

/// The text with every `from` replaced by `to`.
pub open spec fn replaced(s: Seq<char>, from: char, to: char) -> Seq<char> {
    s.map_values(|c: char| swapped(c, from, to))
}

/// The text with every `from` replaced by `to`.
pub fn replace_char(s: &str, from: char, to: char) -> (r: String)
    ensures
        r@ == replaced(s@, from, to),
{
    let cs = chars_of(s);
    let mut r = String::new();
    let mut i: usize = 0;
    assert(r@ =~= replaced(s@, from, to).take(0));
    while i < cs.len()
        invariant
            cs@ == s@,
            i <= cs.len(),
            r@ == replaced(s@, from, to).take(i as int),
        decreases cs.len() - i,
    {
        proof {
            replaced(s@, from, to).lemma_take_succ_push(i as int);
        }
        let c = cs[i];
        r.push(
            if c == from {
                to
            } else {
                c
            },
        );
        i += 1;
    }
    assert(replaced(s@, from, to).take(i as int) =~= replaced(s@, from, to));
    r
}

/// The lower-case letter for an ASCII capital; any other character as it is.
pub open spec fn ascii_low(c: char) -> char {
    if 'A' <= c <= 'Z' {
        (c as int + 32) as char
    } else {
        c
    }
}

/// The text with its ASCII capitals in lower case.
pub open spec fn ascii_lower(s: Seq<char>) -> Seq<char> {
    s.map_values(|c: char| ascii_low(c))
}

fn ascii_low_of(c: char) -> (r: char)
    ensures
        r == ascii_low(c),
{
    if 'A' <= c && c <= 'Z' {
        let n: u32 = c as u32;
        (n as u8 + 32u8) as char
    } else {
        c
    }
}

/// The text with its ASCII capitals in lower case.
pub fn to_ascii_lower(s: &str) -> (r: String)
    ensures
        r@ == ascii_lower(s@),
{
    let cs = chars_of(s);
    let mut r = String::new();
    let mut i: usize = 0;
    assert(r@ =~= ascii_lower(s@).take(0));
    while i < cs.len()
        invariant
            cs@ == s@,
            i <= cs.len(),
            r@ == ascii_lower(s@).take(i as int),
        decreases cs.len() - i,
    {
        proof {
            ascii_lower(s@).lemma_take_succ_push(i as int);
        }
        r.push(ascii_low_of(cs[i]));
        i += 1;
    }
    assert(ascii_lower(s@).take(i as int) =~= ascii_lower(s@));
    r
}

/// What `str::to_lowercase` makes of a text.
pub uninterp spec fn lowercase(s: Seq<char>) -> Seq<char>;

/// Being a text of ASCII characters alone.
pub open spec fn is_ascii(s: Seq<char>) -> bool {
    forall|i: int| 0 <= i < s.len() ==> (#[trigger] s[i]) as u32 <= 127
}

/// `str::to_lowercase`: the text in lower case by the rules of Unicode, named by
/// `lowercase`. Of ASCII characters only the capital letters change.
#[verifier::external_body]
pub(crate) fn to_lower(s: &str) -> (r: String)
    ensures
        r@ == lowercase(s@),
        is_ascii(s@) ==> r@ == ascii_lower(s@),
{
    s.to_lowercase()
}

/// Unicode white space.
pub open spec fn is_space(c: char) -> bool {
    ||| '\u{9}' <= c <= '\u{d}'
    ||| c == ' '
    ||| c == '\u{85}'
    ||| c == '\u{a0}'
    ||| c == '\u{1680}'
    ||| '\u{2000}' <= c <= '\u{200a}'
    ||| c == '\u{2028}'
    ||| c == '\u{2029}'
    ||| c == '\u{202f}'
    ||| c == '\u{205f}'
    ||| c == '\u{3000}'
}

fn space(c: char) -> (r: bool)
    ensures
        r == is_space(c),
{
    ('\u{9}' <= c && c <= '\u{d}') || c == ' ' || c == '\u{85}' || c == '\u{a0}' || c == '\u{1680}'
        || ('\u{2000}' <= c && c <= '\u{200a}') || c == '\u{2028}' || c == '\u{2029}' || c
        == '\u{202f}' || c == '\u{205f}' || c == '\u{3000}'
}

/// Where the first character that is no space stands; the length if there is none.
pub open spec fn ink_start(s: Seq<char>) -> int
    decreases s.len(),
{
    if s.len() == 0 || !is_space(s[0]) {
        0
    } else {
        1 + ink_start(s.drop_first())
    }
}

/// Where the text ends without its trailing spaces.
pub open spec fn ink_end(s: Seq<char>) -> int
    decreases s.len(),
{
    if s.len() == 0 || !is_space(s.last()) {
        s.len() as int
    } else {
        ink_end(s.drop_last())
    }
}

/// The text without leading and trailing spaces.
pub open spec fn trimmed(s: Seq<char>) -> Seq<char> {
    let t = s.skip(ink_start(s));
    t.take(ink_end(t))
}

/// The text without leading and trailing spaces.
pub fn trim(s: &str) -> (r: &str)
    ensures
        r@ == trimmed(s@),
{
    let cs = chars_of(s);
    let mut i: usize = 0;
    assert(s@.skip(0) =~= s@);
    while i < cs.len() && space(cs[i])
        invariant
            cs@ == s@,
            i <= cs.len(),
            ink_start(s@) == i + ink_start(s@.skip(i as int)),
        decreases cs.len() - i,
    {
        assert(s@.skip(i as int)[0] == cs@[i as int]);
        assert(s@.skip(i as int).drop_first() =~= s@.skip(i + 1));
        i += 1;
    }
    proof {
        if i < cs.len() {
            assert(s@.skip(i as int)[0] == cs@[i as int]);
        }
    }
    let ghost t = s@.skip(i as int);
    let mut j: usize = cs.len();
    assert(t.take(t.len() as int) =~= t);
    while j > i && space(cs[j - 1])
        invariant
            cs@ == s@,
            i <= j <= cs.len(),
            t == s@.skip(i as int),
            ink_end(t) == ink_end(t.take(j - i)),
        decreases j,
    {
        assert(t.take(j - i).last() == cs@[j - 1]);
        assert(t.take(j - i).drop_last() =~= t.take(j - i - 1));
        j -= 1;
    }
    proof {
        if j > i {
            assert(t.take(j - i).last() == cs@[j - 1]);
        }
        assert(s@.subrange(i as int, j as int) =~= trimmed(s@));
    }
    s.substring_char(i, j)
}

/// Whether two texts are equal but for the case of ASCII letters.
pub fn same_ignoring_case(a: &str, b: &str) -> (r: bool)
    ensures
        r == (ascii_lower(a@) == ascii_lower(b@)),
{
    let x = to_ascii_lower(a);
    let y = to_ascii_lower(b);
    same(x.as_str(), y.as_str())
}

/// Whether one of the words stands somewhere in the text.
pub open spec fn any_occurs(words: Seq<Seq<char>>, hay: Seq<char>) -> bool {
    exists|i: int| 0 <= i < words.len() && occurs(#[trigger] words[i], hay)
}

/// `n` in upper-case hexadecimal, without leading zeros.
pub open spec fn hex(n: nat) -> Seq<char>
    decreases n,
{
    if n < 16 {
        seq![hex_digit(n as int)]
    } else {
        hex(n / 16).push(hex_digit((n % 16) as int))
    }
}

/// Appends `n` in upper-case hexadecimal.
pub fn push_hex(out: &mut String, n: u64)
    ensures
        final(out)@ == old(out)@ + hex(n as nat),
    decreases n,
{
    if n >= 16 {
        push_hex(out, n / 16);
    }
    out.push(hex_digit_of((n % 16) as u8));
    proof {
        assert(out@ =~= old(out)@ + hex(n as nat));
    }
}

/// The text with every single quote doubled.
pub open spec fn quoted(s: Seq<char>) -> Seq<char>
    decreases s.len(),
{
    if s.len() == 0 {
        Seq::empty()
    } else if s.last() == '\'' {
        quoted(s.drop_last()).push('\'').push('\'')
    } else {
        quoted(s.drop_last()).push(s.last())
    }
}

/// The text with every single quote doubled, as a shell string literal holds it.
pub fn double_quotes(s: &str) -> (r: String)
    ensures
        r@ == quoted(s@),
{
    let cs = chars_of(s);
    let mut r = String::new();
    let mut i: usize = 0;
    while i < cs.len()
        invariant
            cs@ == s@,
            i <= cs.len(),
            r@ == quoted(s@.take(i as int)),
        decreases cs.len() - i,
    {
        assert(s@.take(i + 1).drop_last() =~= s@.take(i as int));
        assert(s@.take(i + 1).last() == cs@[i as int]);
        let c = cs[i];
        if c == '\'' {
            r.push('\'');
        }
        r.push(c);
        i += 1;
    }
    assert(s@.take(i as int) =~= s@);
    r
}

/// What a shell reads in a literal between single quotes: each pair of quotes is one
/// quote, and a single one ends the literal.
pub open spec fn unquoted(s: Seq<char>) -> Option<Seq<char>>
    decreases s.len(),
{
    if s.len() == 0 {
        Some(Seq::empty())
    } else if s.last() != '\'' {
        match unquoted(s.drop_last()) {
            Some(t) => Some(t.push(s.last())),
            None => None,
        }
    } else if s.len() >= 2 && s[s.len() - 2] == '\'' {
        match unquoted(s.take(s.len() - 2)) {
            Some(t) => Some(t.push('\'')),
            None => None,
        }
    } else {
        None
    }
}

/// A text whose quotes were doubled reads back as it was.
pub proof fn law_quoting_reads_back(s: Seq<char>)
    ensures
        unquoted(quoted(s)) == Some(s),
    decreases s.len(),
{
    if s.len() > 0 {
        let rest = s.drop_last();
        law_quoting_reads_back(rest);
        let q = quoted(s);
        if s.last() == '\'' {
            assert(q.take(q.len() - 2) =~= quoted(rest));
        } else {
            assert(q.drop_last() =~= quoted(rest));
        }
        assert(s =~= rest.push(s.last()));
    } else {
        assert(s =~= Seq::empty());
    }
}

/// `n` in decimal, with a minus sign where it is negative.
pub open spec fn signed_dec(n: int) -> Seq<char> {
    if n < 0 {
        "-"@ + dec((-n) as nat)
    } else {
        dec(n as nat)
    }
}

/// Appends `n` in decimal, with a minus sign where it is negative.
pub fn push_signed(out: &mut String, n: i32)
    ensures
        final(out)@ == old(out)@ + signed_dec(n as int),
{
    if n < 0 {
        out.append("-");
        let m: i64 = -(n as i64);
        push_dec(out, m as u64);
        assert(out@ =~= old(out)@ + signed_dec(n as int));
    } else {
        push_dec(out, n as u64);
    }
}

/// Appends a word to a list.
pub fn push_word(out: &mut Vec<String>, word: &str)
    ensures
        views(final(out)@) == views(old(out)@).push(word@),
{
    let w = String::from_str(word);
    proof {
        lemma_views_push(out@, w);
    }
    out.push(w);
}

/// What a filter keeps.
pub proof fn lemma_filtered<A>(s: Seq<A>, p: spec_fn(A) -> bool, x: A)
    ensures
        s.filter(p).contains(x) <==> s.contains(x) && p(x),
{
    if s.filter(p).contains(x) {
        s.lemma_filter_pred(p, s.filter(p).index_of(x));
        s.lemma_filter_contains_rev(p, x);
    }
    if s.contains(x) && p(x) {
        s.lemma_filter_contains(p, s.index_of(x));
    }
}

/// What a filter that maps gives.
pub proof fn lemma_filter_mapped<A, B>(s: Seq<A>, f: spec_fn(A) -> Option<B>, y: B)
    ensures
        s.filter_map(f).contains(y) <==> exists|i: int|
            0 <= i < s.len() && f(#[trigger] s[i]) == Some(y),
    decreases s.len(),
{
    reveal(Seq::filter_map);
    if s.len() > 0 {
        let rest = s.drop_last();
        lemma_filter_mapped(rest, f, y);
        let a = rest.filter_map(f);
        let b = s.filter_map(f);
        if b.contains(y) {
            let i = b.index_of(y);
            if i < a.len() {
                assert(a[i] == y);
                let j = choose|j: int| 0 <= j < rest.len() && f(#[trigger] rest[j]) == Some(y);
                assert(s[j] == rest[j]);
            } else {
                assert(f(s[s.len() - 1]) == Some(y));
            }
        }
        if exists|i: int| 0 <= i < s.len() && f(#[trigger] s[i]) == Some(y) {
            let i = choose|i: int| 0 <= i < s.len() && f(#[trigger] s[i]) == Some(y);
            if i < rest.len() {
                assert(rest[i] == s[i]);
                assert(a.contains(y));
                assert(b[a.index_of(y)] == y);
            } else {
                assert(b[a.len() as int] == y);
            }
        }
    }
}

/// A text comes before another exactly when it is a proper start of it, or has the lower
/// character where the two first differ.
pub proof fn law_texts_differ_at_one_place(a: Seq<char>, b: Seq<char>)
    ensures
        precedes(a, b) <==> exists|n: int|
            #![trigger a.take(n)]
            0 <= n <= a.len() && n < b.len() && a.take(n) == b.take(n) && (n == a.len() || a[n]
                < b[n]),
    decreases a.len(),
{
    if a.len() > 0 && b.len() > 0 && a[0] == b[0] {
        let (x, y) = (a.drop_first(), b.drop_first());
        law_texts_differ_at_one_place(x, y);
        if precedes(x, y) {
            let n = choose|n: int|
                #![trigger x.take(n)]
                0 <= n <= x.len() && n < y.len() && x.take(n) == y.take(n) && (n == x.len() || x[n]
                    < y[n]);
            assert(a.take(n + 1) =~= seq![a[0]] + x.take(n));
            assert(b.take(n + 1) =~= seq![b[0]] + y.take(n));
        }
        if exists|n: int|
            #![trigger a.take(n)]
            0 <= n <= a.len() && n < b.len() && a.take(n) == b.take(n) && (n == a.len() || a[n]
                < b[n]) {
            let n = choose|n: int|
                #![trigger a.take(n)]
                0 <= n <= a.len() && n < b.len() && a.take(n) == b.take(n) && (n == a.len() || a[n]
                    < b[n]);
            assert(n > 0);
            assert(x.take(n - 1) =~= a.take(n).drop_first());
            assert(y.take(n - 1) =~= b.take(n).drop_first());
        }
    } else if a.len() == 0 {
        assert(a.take(0) =~= b.take(0));
    } else if b.len() > 0 {
        if a[0] < b[0] {
            assert(a.take(0) =~= b.take(0));
        }
        if exists|n: int|
            #![trigger a.take(n)]
            0 <= n <= a.len() && n < b.len() && a.take(n) == b.take(n) && (n == a.len() || a[n]
                < b[n]) {
            let n = choose|n: int|
                #![trigger a.take(n)]
                0 <= n <= a.len() && n < b.len() && a.take(n) == b.take(n) && (n == a.len() || a[n]
                    < b[n]);
            if n > 0 {
                assert(a.take(n)[0] == a[0] && b.take(n)[0] == b[0]);
            }
        }
    }
}

/// Trimming takes the blanks off both ends and nothing else.
pub proof fn law_trimming_takes_the_blanks(s: Seq<char>)
    ensures
        exists|i: int, j: int|
            #![trigger s.subrange(i, j)]
            {
                &&& 0 <= i <= j <= s.len()
                &&& trimmed(s) == s.subrange(i, j)
                &&& forall|k: int| 0 <= k < i ==> is_space(#[trigger] s[k])
                &&& forall|k: int| j <= k < s.len() ==> is_space(#[trigger] s[k])
                &&& i < j ==> !is_space(s[i]) && !is_space(s[j - 1])
            },
{
    lemma_ink_start(s);
    let i = ink_start(s);
    let t = s.skip(i);
    lemma_ink_end(t);
    let j = i + ink_end(t);
    assert(trimmed(s) =~= s.subrange(i, j));
    assert forall|k: int| j <= k < s.len() implies is_space(#[trigger] s[k]) by {
        assert(t[k - i] == s[k]);
    }
    if i < j {
        assert(t[j - 1 - i] == s[j - 1]);
    }
}

proof fn lemma_ink_start(s: Seq<char>)
    ensures
        0 <= ink_start(s) <= s.len(),
        forall|k: int| 0 <= k < ink_start(s) ==> is_space(#[trigger] s[k]),
        ink_start(s) < s.len() ==> !is_space(s[ink_start(s)]),
    decreases s.len(),
{
    if s.len() > 0 && is_space(s[0]) {
        let rest = s.drop_first();
        lemma_ink_start(rest);
        assert forall|k: int| 0 <= k < ink_start(s) implies is_space(#[trigger] s[k]) by {
            if k > 0 {
                assert(rest[k - 1] == s[k]);
            }
        }
        if ink_start(s) < s.len() {
            assert(rest[ink_start(rest)] == s[ink_start(s)]);
        }
    }
}

proof fn lemma_ink_end(s: Seq<char>)
    ensures
        0 <= ink_end(s) <= s.len(),
        forall|k: int| ink_end(s) <= k < s.len() ==> is_space(#[trigger] s[k]),
        ink_end(s) > 0 ==> !is_space(s[ink_end(s) - 1]),
    decreases s.len(),
{
    if s.len() > 0 && is_space(s.last()) {
        let rest = s.drop_last();
        lemma_ink_end(rest);
        assert forall|k: int| ink_end(s) <= k < s.len() implies is_space(#[trigger] s[k]) by {
            if k < rest.len() {
                assert(rest[k] == s[k]);
            }
        }
        if ink_end(s) > 0 {
            assert(rest[ink_end(s) - 1] == s[ink_end(s) - 1]);
        }
    }
}

/// Lowering ASCII and swapping a character change each character by itself.
pub proof fn law_each_character_by_itself(s: Seq<char>, from: char, to: char, i: int)
    requires
        0 <= i < s.len(),
    ensures
        ascii_lower(s).len() == s.len(),
        replaced(s, from, to).len() == s.len(),
        ascii_lower(s)[i] as int == if 'A' <= s[i] <= 'Z' {
            s[i] as int + 32
        } else {
            s[i] as int
        },
        s[i] == from ==> replaced(s, from, to)[i] == to,
        s[i] != from ==> replaced(s, from, to)[i] == s[i],
{
}

/// A text holds one of the words exactly when one stands in it somewhere.
pub proof fn law_a_word_stands_somewhere(words: Seq<Seq<char>>, hay: Seq<char>)
    ensures
        any_occurs(words, hay) <==> exists|i: int, at: int|
            #![trigger words[i], hay.skip(at)]
            0 <= i < words.len() && 0 <= at <= hay.len() && words[i].is_prefix_of(hay.skip(at)),
{
    if any_occurs(words, hay) {
        let i = choose|i: int| 0 <= i < words.len() && occurs(#[trigger] words[i], hay);
        let w = words[i];
        let at = choose|at: int| occurs_at(w, hay, at);
        assert(hay.skip(at).subrange(0, w.len() as int) =~= hay.subrange(at, at + w.len()));
        assert(words[i].is_prefix_of(hay.skip(at)));
    }
    if exists|i: int, at: int|
        #![trigger words[i], hay.skip(at)]
        0 <= i < words.len() && 0 <= at <= hay.len() && words[i].is_prefix_of(hay.skip(at)) {
        let (i, at) = choose|i: int, at: int|
            #![trigger words[i], hay.skip(at)]
            0 <= i < words.len() && 0 <= at <= hay.len() && words[i].is_prefix_of(hay.skip(at));
        let w = words[i];
        assert(hay.subrange(at, at + w.len()) =~= hay.skip(at).subrange(0, w.len() as int));
        assert(occurs_at(w, hay, at));
        assert(occurs(words[i], hay));
    }
}

/// Of the ASCII characters the blank and those from tab to carriage return are blanks, and
/// no character that can be seen is.
pub proof fn law_which_characters_are_blank(c: char)
    ensures
        c <= '\u{7f}' ==> (is_space(c) <==> c == ' ' || c == '\t' || c == '\n' || c == '\u{b}' || c
            == '\u{c}' || c == '\r'),
{
}

} // verus!
