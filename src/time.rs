//! Display of arrival offsets (seconds past midnight) as "H:MM".

use vstd::prelude::*;

verus! {

/// The character of a decimal digit.
pub open spec fn digit_char(d: int) -> char {
    if d == 0 {
        '0'
    } else if d == 1 {
        '1'
    } else if d == 2 {
        '2'
    } else if d == 3 {
        '3'
    } else if d == 4 {
        '4'
    } else if d == 5 {
        '5'
    } else if d == 6 {
        '6'
    } else if d == 7 {
        '7'
    } else if d == 8 {
        '8'
    } else {
        '9'
    }
}

/// The value of a digit character (0 for any other character).
pub open spec fn digit_value(c: char) -> int {
    if c == '1' {
        1
    } else if c == '2' {
        2
    } else if c == '3' {
        3
    } else if c == '4' {
        4
    } else if c == '5' {
        5
    } else if c == '6' {
        6
    } else if c == '7' {
        7
    } else if c == '8' {
        8
    } else if c == '9' {
        9
    } else {
        0
    }
}

/// Decimal text of `n`, without leading zeros.
pub open spec fn decimal(n: nat) -> Seq<char>
    decreases n,
{
    if n < 10 {
        seq![digit_char(n as int)]
    } else {
        decimal(n / 10).push(digit_char((n % 10) as int))
    }
}

/// Value of a run of decimal digits.
pub open spec fn parse_decimal(s: Seq<char>) -> int
    decreases s.len(),
{
    if s.len() == 0 {
        0
    } else {
        parse_decimal(s.drop_last()) * 10 + digit_value(s.last())
    }
}

/// "H:MM" for an offset in seconds: whole hours unpadded, minutes in two digits.
pub open spec fn time_text(seconds: nat) -> Seq<char> {
    let minutes: int = ((seconds / 60) % 60) as int;
    let hours: nat = (seconds / 60) / 60;
    decimal(hours) + seq![':', digit_char(minutes / 10), digit_char(minutes % 10)]
}

/// Reads "H:MM" back as a number of seconds (hours * 3600 + minutes * 60).
pub open spec fn parse_time_text(s: Seq<char>) -> int {
    let k = s.len() - 3;
    parse_decimal(s.subrange(0, k)) * 3600 + (digit_value(s[k + 1]) * 10 + digit_value(s[k + 2]))
        * 60
}

proof fn lemma_digit_round_trip(d: int)
    requires
        0 <= d < 10,
    ensures
        digit_value(digit_char(d)) == d,
{
}

proof fn lemma_decimal_round_trip(n: nat)
    ensures
        parse_decimal(decimal(n)) == n,
        decimal(n).len() >= 1,
    decreases n,
{
    if n < 10 {
        lemma_digit_round_trip(n as int);
        assert(decimal(n).drop_last() =~= Seq::<char>::empty());
        assert(parse_decimal(Seq::<char>::empty()) == 0);
        assert(parse_decimal(decimal(n)) == parse_decimal(decimal(n).drop_last()) * 10
            + digit_value(decimal(n).last()));
    } else {
        lemma_decimal_round_trip(n / 10);
        lemma_digit_round_trip((n % 10) as int);
        assert(decimal(n).drop_last() =~= decimal(n / 10));
        assert(parse_decimal(decimal(n)) == parse_decimal(decimal(n).drop_last()) * 10
            + digit_value(decimal(n).last()));
        assert(n == (n / 10) * 10 + n % 10);
    }
}

/// Formatting an offset and reading it back gives the offset rounded down to
/// the whole minute.
pub proof fn lemma_time_text_round_trip(seconds: nat)
    ensures
        parse_time_text(time_text(seconds)) == seconds - seconds % 60,
{
    let minutes: int = ((seconds / 60) % 60) as int;
    let hours: nat = (seconds / 60) / 60;
    let t = time_text(seconds);
    lemma_decimal_round_trip(hours);
    let k: int = decimal(hours).len() as int;
    assert(t.subrange(0, k) =~= decimal(hours));
    lemma_digit_round_trip(minutes / 10);
    lemma_digit_round_trip(minutes % 10);
    assert(t[k + 1] == digit_char(minutes / 10));
    assert(t[k + 2] == digit_char(minutes % 10));
    assert((minutes / 10) * 10 + minutes % 10 == minutes);
    let q: int = (seconds / 60) as int;
    assert(q == hours * 60 + minutes);
    assert(seconds == q * 60 + seconds % 60);
    assert(hours * 3600 + minutes * 60 == q * 60) by (nonlinear_arith)
        requires
            q == hours * 60 + minutes,
    ;
}

/// A one-character string holding the digit `d`.
fn digit_str(d: u32) -> (r: &'static str)
    requires
        d < 10,
    ensures
        r@ == seq![digit_char(d as int)],
{
    proof {
        reveal_strlit("0");
        reveal_strlit("1");
        reveal_strlit("2");
        reveal_strlit("3");
        reveal_strlit("4");
        reveal_strlit("5");
        reveal_strlit("6");
        reveal_strlit("7");
        reveal_strlit("8");
        reveal_strlit("9");
    }
    if d == 0 {
        "0"
    } else if d == 1 {
        "1"
    } else if d == 2 {
        "2"
    } else if d == 3 {
        "3"
    } else if d == 4 {
        "4"
    } else if d == 5 {
        "5"
    } else if d == 6 {
        "6"
    } else if d == 7 {
        "7"
    } else if d == 8 {
        "8"
    } else {
        "9"
    }
}

/// Appends the decimal text of `n` to `s`.
pub fn push_decimal(s: &mut String, n: u32)
    ensures
        final(s)@ == old(s)@ + decimal(n as nat),
    decreases n,
{
    if n >= 10 {
        push_decimal(s, n / 10);
        s.append(digit_str(n % 10));
        assert(decimal(n as nat) == decimal((n / 10) as nat).push(digit_char((n % 10) as int)));
    } else {
        s.append(digit_str(n));
    }
}

/// Appends `n` in exactly two digits (leading zero below ten).
pub fn push_two_digits(s: &mut String, n: u32)
    requires
        n < 100,
    ensures
        final(s)@ == old(s)@ + seq![digit_char((n / 10) as int), digit_char((n % 10) as int)],
{
    s.append(digit_str(n / 10));
    s.append(digit_str(n % 10));
}

/// Formats an arrival offset in seconds past midnight as "H:MM"; hours may
/// exceed 23 for service running past midnight.
pub fn format_time(seconds: u32) -> (r: String)
    ensures
        r@ == time_text(seconds as nat),
{
    let total_minutes = seconds / 60;
    let hours = total_minutes / 60;
    let minutes = total_minutes % 60;
    let mut r = String::new();
    push_decimal(&mut r, hours);
    proof {
        reveal_strlit(":");
    }
    r.append(":");
    push_two_digits(&mut r, minutes);
    r
}

} // verus!

verus! {

/// "YYYY-MM-DD" for a date with a four-digit year.
pub open spec fn date_text(year: nat, month: nat, day: nat) -> Seq<char> {
    seq![
        digit_char((year / 1000) as int),
        digit_char(((year / 100) % 10) as int),
        digit_char(((year / 10) % 10) as int),
        digit_char((year % 10) as int),
        '-',
        digit_char((month / 10) as int),
        digit_char((month % 10) as int),
        '-',
        digit_char((day / 10) as int),
        digit_char((day % 10) as int),
    ]
}

/// Formats a date as "YYYY-MM-DD".
pub fn format_date(year: u32, month: u32, day: u32) -> (r: String)
    requires
        year <= 9999,
        month < 100,
        day < 100,
    ensures
        r@ == date_text(year as nat, month as nat, day as nat),
{
    let mut r = String::new();
    push_two_digits(&mut r, year / 100);
    push_two_digits(&mut r, year % 100);
    proof {
        reveal_strlit("-");
    }
    r.append("-");
    push_two_digits(&mut r, month);
    r.append("-");
    push_two_digits(&mut r, day);
    assert(((year / 100) / 10) == year / 1000);
    assert(((year / 100) % 10) == (year / 100) % 10);
    assert(((year % 100) / 10) == (year / 10) % 10);
    assert(((year % 100) % 10) == year % 10);
    assert(r@ =~= date_text(year as nat, month as nat, day as nat));
    r
}

} // verus!
