//! Numbers and durations as text.
use vstd::prelude::*;
use vstd::string::*;

verus! {

/// The decimal digit of a number below ten.
pub open spec fn digit(d: int) -> char {
    (0x30 + d) as char
}

/// The decimal digits of `n`, without leading zeros.
pub open spec fn decimal(n: nat) -> Seq<char>
    decreases n,
{
    if n < 10 {
        seq![digit(n as int)]
    } else {
        decimal(n / 10).push(digit((n % 10) as int))
    }
}

/// The number that a run of decimal digits stands for.
spec fn decimal_value(digits: Seq<char>) -> int
    decreases digits.len(),
{
    if digits.len() == 0 {
        0
    } else {
        10 * decimal_value(digits.drop_last()) + (digits.last() as int - 0x30)
    }
}

proof fn lemma_decimal_value(n: nat)
    ensures
        decimal_value(decimal(n)) == n,
    decreases n,
{
    reveal_with_fuel(decimal_value, 2);
    if n < 10 {
        assert(decimal(n).drop_last() =~= Seq::<char>::empty());
    } else {
        lemma_decimal_value(n / 10);
        assert(decimal(n).drop_last() =~= decimal(n / 10));
    }
}

/// Different numbers have different digits.
pub proof fn law_decimal_distinct(a: nat, b: nat)
    requires
        decimal(a) == decimal(b),
    ensures
        a == b,
{
    lemma_decimal_value(a);
    lemma_decimal_value(b);
}

/// The text of the decimal digit `d`.
fn digit_text(d: u64) -> (text: &'static str)
    requires
        d < 10,
    ensures
        text@ == seq![digit(d as int)],
{
    proof {
        reveal_strlit("0");
        reveal_strlit("1");
        reveal_strlit("2");
        reveal_strlit("3");
        reveal_strlit("4");
        reveal_strlit("5");
        reveal_strlit("6");
        reveal_strlit("7");
        reveal_strlit("8");
        reveal_strlit("9");
    }
    if d == 0 {
        "0"
    } else if d == 1 {
        "1"
    } else if d == 2 {
        "2"
    } else if d == 3 {
        "3"
    } else if d == 4 {
        "4"
    } else if d == 5 {
        "5"
    } else if d == 6 {
        "6"
    } else if d == 7 {
        "7"
    } else if d == 8 {
        "8"
    } else {
        "9"
    }
}

/// Appends the decimal digits of `n`.
pub fn push_decimal(out: &mut String, n: u64)
    ensures
        final(out)@ == old(out)@ + decimal(n as nat),
    decreases n,
{
    if n >= 10 {
        push_decimal(out, n / 10);
    }
    out.append(digit_text(n % 10));
}

/// A duration as hours, minutes and seconds, from the first of these that is not zero on.
pub open spec fn duration_text(secs: u64) -> Seq<char> {
    let h = (secs / 3600) as nat;
    let m = (secs % 3600 / 60) as nat;
    let s = (secs % 60) as nat;
    if h > 0 {
        decimal(h) + "h "@ + decimal(m) + "m "@ + decimal(s) + "s"@
    } else if m > 0 {
        decimal(m) + "m "@ + decimal(s) + "s"@
    } else {
        decimal(s) + "s"@
    }
}

/// A duration as hours, minutes and seconds, from the first of these that is not zero on, such as
/// `1h 0m 5s`.
pub fn format_duration(secs: u64) -> (text: String)
    ensures
        text@ == duration_text(secs),
{
    let h: u64 = secs / 3600;
    let m: u64 = (secs % 3600) / 60;
    let s: u64 = secs % 60;
    let mut text = String::new();
    if h > 0 {
        push_decimal(&mut text, h);
        text.append("h ");
    }
    if h > 0 || m > 0 {
        push_decimal(&mut text, m);
        text.append("m ");
    }
    push_decimal(&mut text, s);
    text.append("s");
    text
}

/// A number below ten is one digit, and a number with a further digit behind it has the digits of
/// the number, followed by that digit.
pub proof fn law_decimal_digits(n: nat, d: nat)
    requires
        d < 10,
    ensures
        decimal(d).len() == 1,
        decimal(d)[0] as int == '0' as int + d,
        n > 0 ==> decimal(10 * n + d) == decimal(n) + decimal(d),
{
    if n > 0 {
        assert((10 * n + d) / 10 == n && (10 * n + d) % 10 == d);
        assert(decimal(n).push(digit(d as int)) =~= decimal(n) + decimal(d));
    }
}

/// Hours, minutes and seconds are told each with its letter, hours only where there are any, and
/// minutes only where there are any or there are hours.
pub proof fn law_duration_spelled(h: u64, m: u64, s: u64)
    requires
        m < 60,
        s < 60,
        h * 3600 + m * 60 + s <= u64::MAX,
    ensures
        ({
            let text = duration_text((h * 3600 + m * 60 + s) as u64);
            let hours = decimal(h as nat) + seq!['h', ' '];
            let minutes = decimal(m as nat) + seq!['m', ' '];
            let seconds = decimal(s as nat) + seq!['s'];
            &&& h > 0 ==> text == hours + minutes + seconds
            &&& h == 0 && m > 0 ==> text == minutes + seconds
            &&& h == 0 && m == 0 ==> text == seconds
        }),
{
    let secs = (h * 3600 + m * 60 + s) as u64;
    reveal_strlit("h ");
    reveal_strlit("m ");
    reveal_strlit("s");
    assert(secs / 3600 == h && secs % 3600 == m * 60 + s);
    assert(secs % 3600 / 60 == m && secs % 60 == s);
    assert("h "@ =~= seq!['h', ' '] && "m "@ =~= seq!['m', ' '] && "s"@ =~= seq!['s']);
    let hours = decimal(h as nat) + seq!['h', ' '];
    let minutes = decimal(m as nat) + seq!['m', ' '];
    let seconds = decimal(s as nat) + seq!['s'];
    if h > 0 {
        assert(duration_text(secs) =~= hours + minutes + seconds);
    } else if m > 0 {
        assert(duration_text(secs) =~= minutes + seconds);
    } else {
        assert(duration_text(secs) =~= seconds);
    }
}

} // verus!
