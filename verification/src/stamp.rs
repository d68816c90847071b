//! The update time stamp written into the playlists, in the form
//! "YYYY-MM-DD hh:mm:ss".
use vstd::prelude::*;

use crate::text::push_char;

verus! {

/// The decimal digit character of a value below 10.
pub open spec fn digit_char(d: nat) -> char {
    (48 + d) as char
}

/// The decimal digits of `n`, without leading zeros ("0" for zero).
pub open spec fn decimal_digits(n: nat) -> Seq<char>
    decreases n,
{
    if n < 10 {
        seq![digit_char(n)]
    } else {
        decimal_digits(n / 10).push(digit_char(n % 10))
    }
}

/// `n` in decimal, zero-padded to two digits.
pub open spec fn pad2(n: nat) -> Seq<char> {
    if n < 10 {
        seq!['0'] + decimal_digits(n)
    } else {
        decimal_digits(n)
    }
}

/// `n` in decimal, zero-padded to four digits.
pub open spec fn pad4(n: nat) -> Seq<char> {
    (if n < 1000 {
        seq!['0']
    } else {
        Seq::empty()
    }) + (if n < 100 {
        seq!['0']
    } else {
        Seq::empty()
    }) + (if n < 10 {
        seq!['0']
    } else {
        Seq::empty()
    }) + decimal_digits(n)
}

/// A year as the "%Y" format writes it: four digits for years 0 to 9999,
/// otherwise a sign and at least four digits.
pub open spec fn year_text(y: int) -> Seq<char> {
    if 0 <= y <= 9999 {
        pad4(y as nat)
    } else if y > 9999 {
        seq!['+'] + pad4(y as nat)
    } else {
        seq!['-'] + pad4((-y) as nat)
    }
}

/// The time stamp "YYYY-MM-DD hh:mm:ss" of a date and time.
pub open spec fn timestamp_text(year: int, month: nat, day: nat, hour: nat, minute: nat, second: nat) -> Seq<
    char,
> {
    year_text(year) + seq!['-'] + pad2(month) + seq!['-'] + pad2(day) + seq![' '] + pad2(hour)
        + seq![':'] + pad2(minute) + seq![':'] + pad2(second)
}

fn push_digit(s: &mut String, d: u64)
    requires
        d < 10,
    ensures
        final(s)@ == old(s)@.push(digit_char(d as nat)),
{
    let c = ((48 + d) as u8) as char;
    push_char(s, c);
}

/// Appends the decimal digits of `n`.
fn push_decimal(s: &mut String, n: u64)
    ensures
        final(s)@ == old(s)@ + decimal_digits(n as nat),
    decreases n,
{
    if n >= 10 {
        push_decimal(s, n / 10);
        let ghost mid = s@;
        push_digit(s, n % 10);
        assert(s@ == mid.push(digit_char((n % 10) as nat)));
        assert(s@ =~= old(s)@ + decimal_digits(n as nat));
    } else {
        push_digit(s, n);
        assert(s@ =~= old(s)@ + decimal_digits(n as nat));
    }
}

fn push_pad2(s: &mut String, n: u64)
    ensures
        final(s)@ == old(s)@ + pad2(n as nat),
{
    if n < 10 {
        push_char(s, '0');
    }
    let ghost mid = s@;
    push_decimal(s, n);
    assert(s@ =~= old(s)@ + pad2(n as nat));
}

fn push_pad4(s: &mut String, n: u64)
    ensures
        final(s)@ == old(s)@ + pad4(n as nat),
{
    let ghost start = s@;
    if n < 1000 {
        push_char(s, '0');
    }
    if n < 100 {
        push_char(s, '0');
    }
    if n < 10 {
        push_char(s, '0');
    }
    push_decimal(s, n);
    assert(s@ =~= start + pad4(n as nat));
}

/// The time stamp "YYYY-MM-DD hh:mm:ss" of a date and time, as the
/// "%Y-%m-%d %H:%M:%S" format writes it.  The two-digit fields are below 100
/// (a leap second shows as 60).
pub fn format_timestamp(
    year: i32,
    month: u32,
    day: u32,
    hour: u32,
    minute: u32,
    second: u32,
) -> (r: String)
    requires
        month < 100,
        day < 100,
        hour < 100,
        minute < 100,
        second < 100,
    ensures
        r@ == timestamp_text(year as int, month as nat, day as nat, hour as nat, minute as nat, second as nat),
{
    let mut s = String::new();
    if 0 <= year && year <= 9999 {
        push_pad4(&mut s, year as u64);
    } else if year > 9999 {
        push_char(&mut s, '+');
        push_pad4(&mut s, year as u64);
    } else {
        push_char(&mut s, '-');
        let a: i64 = -(year as i64);
        push_pad4(&mut s, a as u64);
    }
    let ghost y = s@;
    push_char(&mut s, '-');
    push_pad2(&mut s, month as u64);
    push_char(&mut s, '-');
    push_pad2(&mut s, day as u64);
    push_char(&mut s, ' ');
    push_pad2(&mut s, hour as u64);
    push_char(&mut s, ':');
    push_pad2(&mut s, minute as u64);
    push_char(&mut s, ':');
    push_pad2(&mut s, second as u64);
    assert(y =~= year_text(year as int));
    assert(s@ =~= timestamp_text(
        year as int,
        month as nat,
        day as nat,
        hour as nat,
        minute as nat,
        second as nat,
    ));
    s
}

} // verus!
