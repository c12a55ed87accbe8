//! The firewall rules of the video server: one that lets its port in, and the block
//! rules that the system makes up.

use crate::net;
use crate::text;
use vstd::prelude::*;

verus! {

/// What to do about the rule that lets the port in.
#[derive(Clone, Copy, Debug, PartialEq, Eq, Structural)]
pub enum RuleAction {
    /// It is there: set its port.
    Update,
    /// It is not there: make it.
    Create,
    /// It is not known whether it is there: leave it, since a second one of the same
    /// name could come of it.
    Leave,
}

/// The digits after an optional plus sign.
pub open spec fn plain_digits(s: Seq<char>) -> Seq<char> {
    if s.len() > 0 && s[0] == '+' {
        s.skip(1)
    } else {
        s
    }
}

/// A count: digits, after an optional plus sign, whose value fits in 32 bits.
pub open spec fn count_in(s: Seq<char>) -> Option<u32> {
    let digits = plain_digits(s);
    if digits.len() > 0 && net::all_digits(digits) && net::digits_value(digits) <= u32::MAX {
        Some(net::digits_value(digits) as u32)
    } else {
        None
    }
}

proof fn lemma_digits(s: Seq<char>, n: int)
    requires
        0 <= n <= s.len(),
    ensures
        net::digits_value(s.take(n)) <= net::digits_value(s) || !net::all_digits(s),
    decreases s.len(),
{
    if n == s.len() {
        assert(s.take(n) =~= s);
    } else {
        assert(s.drop_last().take(n) =~= s.take(n));
        lemma_digits(s.drop_last(), n);
        if net::all_digits(s) {
            assert forall|i: int| 0 <= i < s.drop_last().len() implies net::is_digit(
                #[trigger] s.drop_last()[i],
            ) by {
                assert(s.drop_last()[i] == s[i]);
            }
            assert(net::is_digit(s.last()));
            assert(net::digits_value(s) >= net::digits_value(s.drop_last()));
        }
    }
}

/// Reads a count.
pub fn read_count(s: &str) -> (r: Option<u32>)
    ensures
        r == count_in(s@),
{
    let cs = text::chars_of(s);
    let n: usize = cs.len();
    let start: usize = if n > 0 && cs[0] == '+' {
        1
    } else {
        0
    };
    let ghost digits = plain_digits(s@);
    assert(digits =~= cs@.skip(start as int));
    if start == n {
        return None;
    }
    let mut value: u64 = 0;
    let mut i: usize = start;
    assert(digits.take(0) =~= Seq::empty());
    while i < n
        invariant
            n == cs.len(),
            start <= i <= n,
            cs@ == s@,
            digits == plain_digits(s@),
            digits == cs@.skip(start as int),
            value <= u32::MAX,
            value == net::digits_value(digits.take(i - start)),
            forall|k: int| 0 <= k < i - start ==> net::is_digit(#[trigger] digits[k]),
        decreases n - i,
    {
        let ghost k = i - start;
        let c = cs[i];
        assert(digits[k] == c);
        assert(digits.take(k + 1).drop_last() =~= digits.take(k));
        assert(digits.take(k + 1).last() == c);
        if !('0' <= c && c <= '9') {
            assert(!net::is_digit(digits[k]));
            return None;
        }
        value = value * 10 + (c as u64 - '0' as u64);
        if value > u32::MAX as u64 {
            proof {
                lemma_digits(digits, k + 1);
            }
            return None;
        }
        i += 1;
    }
    assert(digits.take(i - start) =~= digits);
    Some(value as u32)
}

/// What to do about the rule, by the answer to the question how many there are: only
/// the answer of a run that succeeded counts.
pub fn rule_action(answer: Option<&str>) -> (r: RuleAction)
    ensures
        r == match answer {
            Some(stdout) => match count_in(text::trimmed(stdout@)) {
                Some(n) => if n > 0 {
                    RuleAction::Update
                } else {
                    RuleAction::Create
                },
                None => RuleAction::Leave,
            },
            None => RuleAction::Leave,
        },
{
    match answer {
        Some(stdout) => match read_count(text::trim(stdout)) {
            Some(n) => if n > 0 {
                RuleAction::Update
            } else {
                RuleAction::Create
            },
            None => RuleAction::Leave,
        },
        None => RuleAction::Leave,
    }
}

/// The script that counts the rules.
pub fn count_rules_script() -> (r: String)
    ensures
        r@
            == "Get-NetFirewallRule -DisplayName 'PocketStream RTSP Server' -ErrorAction SilentlyContinue | Measure-Object | Select-Object -ExpandProperty Count"@,
{
    String::from_str(
        "Get-NetFirewallRule -DisplayName 'PocketStream RTSP Server' -ErrorAction SilentlyContinue | Measure-Object | Select-Object -ExpandProperty Count",
    )
}

/// The script that sets the rule's port.
pub fn update_rule_script(port: u16) -> (r: String)
    ensures
        r@ == "Set-NetFirewallRule -DisplayName 'PocketStream RTSP Server' -LocalPort "@
            + text::dec(port as nat),
{
    let mut r = String::from_str(
        "Set-NetFirewallRule -DisplayName 'PocketStream RTSP Server' -LocalPort ",
    );
    text::push_dec(&mut r, port as u64);
    r
}

/// The script that makes the rule.
pub fn create_rule_script(port: u16) -> (r: String)
    ensures
        r@
            == "New-NetFirewallRule -DisplayName 'PocketStream RTSP Server' -Direction Inbound -Protocol TCP -LocalPort "@
            + text::dec(port as nat) + " -Action Allow -Profile Any | Out-Null"@,
{
    let mut r = String::from_str(
        "New-NetFirewallRule -DisplayName 'PocketStream RTSP Server' -Direction Inbound -Protocol TCP -LocalPort ",
    );
    text::push_dec(&mut r, port as u64);
    r.append(" -Action Allow -Profile Any | Out-Null");
    r
}

/// The script that drops the block rules that the system made up for a program.
pub open spec fn unblock_text(exe: Seq<char>) -> Seq<char> {
    r#"Get-NetFirewallRule -Direction Inbound -Action Block -Enabled True -ErrorAction SilentlyContinue |
           Where-Object { $_.DisplayName -like 'Query User*' } |
           Get-NetFirewallApplicationFilter -ErrorAction SilentlyContinue |
           Where-Object { $_.Program -eq '"#@
        + text::quoted(exe) + r#"' } |
           ForEach-Object {
               Remove-NetFirewallRule -Name $_.InstanceID -ErrorAction SilentlyContinue
           }"#@
}

/// The script that drops the block rules that the system made up for a program.
pub fn unblock_script(exe: &str) -> (r: String)
    ensures
        r@ == unblock_text(exe@),
{
    let mut r = String::from_str(
        r#"Get-NetFirewallRule -Direction Inbound -Action Block -Enabled True -ErrorAction SilentlyContinue |
           Where-Object { $_.DisplayName -like 'Query User*' } |
           Get-NetFirewallApplicationFilter -ErrorAction SilentlyContinue |
           Where-Object { $_.Program -eq '"#,
    );
    r.append(text::double_quotes(exe).as_str());
    r.append(
        r#"' } |
           ForEach-Object {
               Remove-NetFirewallRule -Name $_.InstanceID -ErrorAction SilentlyContinue
           }"#,
    );
    r
}

/// A count that is written is read back, with or without a plus sign.
pub proof fn law_counts_read_back(n: u32)
    ensures
        count_in(text::dec(n as nat)) == Some(n),
        count_in(seq!['+'] + text::dec(n as nat)) == Some(n),
        count_in(Seq::empty()) is None,
{
    let s = text::dec(n as nat);
    net::lemma_dec_digits(n as nat);
    assert(net::is_digit(s[0]));
    assert((seq!['+'] + s).skip(1) =~= s);
}

} // verus!
