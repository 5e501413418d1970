//! Calendar arithmetic for the automatic `Date` header: the proleptic
//! Gregorian date of a day count from 1970-01-01, and the RFC 1123 writing
//! of an instant.
use vstd::prelude::*;

use crate::text::{decimal_int, fmt_i64, fmt_pad2, pad2, string_of};

verus! {

pub open spec fn is_leap(y: int) -> bool {
    y % 4 == 0 && (y % 100 != 0 || y % 400 == 0)
}

pub open spec fn year_len(y: int) -> int {
    if is_leap(y) {
        366
    } else {
        365
    }
}

pub open spec fn month_len(y: int, m: int) -> int {
    if m == 2 {
        if is_leap(y) {
            29
        } else {
            28
        }
    } else if m == 4 || m == 6 || m == 9 || m == 11 {
        30
    } else {
        31
    }
}

/// Whether `(y, m, d)` names a day of the proleptic Gregorian calendar.
pub open spec fn valid_date(y: int, m: int, d: int) -> bool {
    1 <= m <= 12 && 1 <= d <= month_len(y, m)
}

/// The days of year `y` before the first of month `m`.
pub open spec fn days_before_month(y: int, m: int) -> int {
    let common: int = if m == 1 {
        0
    } else if m == 2 {
        31
    } else if m == 3 {
        59
    } else if m == 4 {
        90
    } else if m == 5 {
        120
    } else if m == 6 {
        151
    } else if m == 7 {
        181
    } else if m == 8 {
        212
    } else if m == 9 {
        243
    } else if m == 10 {
        273
    } else if m == 11 {
        304
    } else {
        334
    };
    if m > 2 && is_leap(y) {
        common + 1
    } else {
        common
    }
}

/// The days from 0000-01-01 to the first day of year `y`: 365 for each year
/// and one more for each leap year between.
pub open spec fn days_before_year(y: int) -> int {
    365 * y + (y + 3) / 4 - (y + 99) / 100 + (y + 399) / 400
}

/// The number of the day `(y, m, d)`, counted from 1970-01-01 as day 0.
pub open spec fn day_number(y: int, m: int, d: int) -> int {
    days_before_year(y) + days_before_month(y, m) + d - 1 - days_before_year(1970)
}

/// The day count of years is the sum of their lengths: each year is as long
/// as the calendar says.
pub proof fn lemma_year_length(y: int)
    ensures
        days_before_year(y + 1) - days_before_year(y) == year_len(y),
{
    lemma_step4(y);
    lemma_step100(y);
    lemma_step400(y);
    lemma_divides(y);
    assert(days_before_year(y + 1) - days_before_year(y) == 365 + ((y + 4) / 4 - (y + 3) / 4) - (
    (y + 100) / 100 - (y + 99) / 100) + ((y + 400) / 400 - (y + 399) / 400));
}

proof fn lemma_divides(y: int)
    ensures
        y % 400 == 0 ==> y % 100 == 0,
        y % 100 == 0 ==> y % 4 == 0,
{
    if y % 400 == 0 {
        assert(y == 400 * (y / 400));
        assert(y == 100 * (4 * (y / 400)));
    }
    if y % 100 == 0 {
        assert(y == 100 * (y / 100));
        assert(y == 4 * (25 * (y / 100)));
    }
}

proof fn lemma_step4(y: int)
    ensures
        (y + 4) / 4 - (y + 3) / 4 == (if y % 4 == 0 { 1int } else { 0int }),
{
}

proof fn lemma_step100(y: int)
    ensures
        (y + 100) / 100 - (y + 99) / 100 == (if y % 100 == 0 { 1int } else { 0int }),
{
}

proof fn lemma_step400(y: int)
    ensures
        (y + 400) / 400 - (y + 399) / 400 == (if y % 400 == 0 { 1int } else { 0int }),
{
}


proof fn lemma_era_start(e: int)
    ensures
        days_before_year(400 * e) == 146097 * e,
{
}

/// Each month follows the one before it.
proof fn lemma_month_step(y: int, m: int)
    requires
        1 <= m < 12,
    ensures
        days_before_month(y, m + 1) == days_before_month(y, m) + month_len(y, m),
{
}

/// A day of a year lies within that year.
proof fn lemma_within_year(y: int, m: int, d: int)
    requires
        valid_date(y, m, d),
    ensures
        0 <= days_before_month(y, m) + d - 1 < year_len(y),
{
}

proof fn lemma_years_increase(a: int, b: int)
    requires
        a <= b,
    ensures
        days_before_year(a) <= days_before_year(b),
    decreases b - a,
{
    if a < b {
        lemma_years_increase(a, b - 1);
        lemma_year_length(b - 1);
    }
}

proof fn lemma_months_increase(y: int, a: int, b: int)
    requires
        1 <= a <= b <= 12,
    ensures
        days_before_month(y, a) + month_len(y, a) <= days_before_month(y, b) || a == b,
    decreases b - a,
{
    if a < b {
        lemma_month_step(y, a);
        if a + 1 < b {
            lemma_months_increase(y, a + 1, b);
            lemma_month_step(y, a + 1);
        }
    }
}

/// Different days of the calendar have different numbers.
pub proof fn lemma_day_number_injective(y1: int, m1: int, d1: int, y2: int, m2: int, d2: int)
    requires
        valid_date(y1, m1, d1),
        valid_date(y2, m2, d2),
        day_number(y1, m1, d1) == day_number(y2, m2, d2),
    ensures
        y1 == y2 && m1 == m2 && d1 == d2,
{
    lemma_within_year(y1, m1, d1);
    lemma_within_year(y2, m2, d2);
    if y1 < y2 {
        lemma_year_length(y1);
        lemma_years_increase(y1 + 1, y2);
    } else if y2 < y1 {
        lemma_year_length(y2);
        lemma_years_increase(y2 + 1, y1);
    } else if m1 < m2 {
        lemma_months_increase(y1, m1, m2);
    } else if m2 < m1 {
        lemma_months_increase(y1, m2, m1);
    }
}

/// The calendar date of day `days`, counted from 1970-01-01 as day 0.
pub open spec fn civil(days: int) -> (int, int, int) {
    choose|t: (int, int, int)| valid_date(t.0, t.1, t.2) && day_number(t.0, t.1, t.2) == days
}

proof fn lemma_divides_negated(y: int)
    ensures
        (y % 4 == 0) == ((-y) % 4 == 0),
        (y % 100 == 0) == ((-y) % 100 == 0),
        (y % 400 == 0) == ((-y) % 400 == 0),
{
}

fn leap(y: i128) -> (r: bool)
    requires
        -0x1_0000_0000_0000_0000_0000 < y < 0x1_0000_0000_0000_0000_0000,
    ensures
        r == is_leap(y as int),
{
    let m: i128 = if y >= 0 { y } else { -y };
    proof {
        lemma_divides_negated(y as int);
    }
    m % 4 == 0 && (m % 100 != 0 || m % 400 == 0)
}

fn year_length(y: i128) -> (r: i128)
    requires
        -0x1_0000_0000_0000_0000_0000 < y < 0x1_0000_0000_0000_0000_0000,
    ensures
        r == year_len(y as int),
{
    if leap(y) {
        366
    } else {
        365
    }
}

fn month_length(y: i128, m: i128) -> (r: i128)
    requires
        1 <= m <= 12,
        -0x1_0000_0000_0000_0000_0000 < y < 0x1_0000_0000_0000_0000_0000,
    ensures
        r == month_len(y as int, m as int),
{
    if m == 2 {
        if leap(y) {
            29
        } else {
            28
        }
    } else if m == 4 || m == 6 || m == 9 || m == 11 {
        30
    } else {
        31
    }
}

/// Floor division by the length of a 400-year era.
fn era_of(a: i128) -> (q: i128)
    requires
        -0x1_0000_0000_0000_0000_0000 < a < 0x1_0000_0000_0000_0000_0000,
    ensures
        q == a / 146097,
{
    if a >= 0 {
        a / 146097
    } else {
        (a - 146096) / 146097
    }
}

/// The calendar date (year, month, day) of day `days` from 1970-01-01.
pub fn civil_from_days(days: i64) -> (r: (i64, i64, i64))
    ensures
        valid_date(r.0 as int, r.1 as int, r.2 as int),
        day_number(r.0 as int, r.1 as int, r.2 as int) == days,
        (r.0 as int, r.1 as int, r.2 as int) == civil(days as int),
{
    let day0: i128 = days as i128 + 719528;
    let era = era_of(day0);
    let mut rem: i128 = day0 - era * 146097;
    let mut y: i128 = era * 400;
    proof {
        assert(days_before_year(1970) == 719528);
        lemma_era_start(era as int);
    }
    while rem >= year_length(y)
        invariant
            0 <= rem,
            era * 400 <= y <= era * 400 + 400,
            day0 == days_before_year(y as int) + rem,
            era == day0 / 146097,
            -0x1_0000_0000_0000_0000 < day0 < 0x1_0000_0000_0000_0000,
            -0x1_0000_0000_0000_0000 < era < 0x1_0000_0000_0000_0000,
        decreases rem,
    {
        proof {
            lemma_year_length(y as int);
            if y == era * 400 + 400 {
                lemma_era_start(era + 1);
            }
        }
        rem = rem - year_length(y);
        y = y + 1;
    }
    let ghost in_year = rem;
    let mut m: i128 = 1;
    while rem >= month_length(y, m)
        invariant
            1 <= m <= 12,
            0 <= rem,
            in_year == days_before_month(y as int, m as int) + rem,
            in_year < year_len(y as int),
            -0x1_0000_0000_0000_0000_0000 < y < 0x1_0000_0000_0000_0000_0000,
        decreases 12 - m,
    {
        proof {
            if m == 12 {
                assert(days_before_month(y as int, 12) + month_len(y as int, 12) == year_len(
                    y as int,
                ));
            }
            lemma_month_step(y as int, m as int);
        }
        rem = rem - month_length(y, m);
        m = m + 1;
    }
    let r = (y as i64, m as i64, (rem + 1) as i64);
    proof {
        assert(valid_date(r.0 as int, r.1 as int, r.2 as int));
        let t = civil(days as int);
        assert(valid_date(r.0 as int, r.1 as int, r.2 as int) && day_number(
            r.0 as int,
            r.1 as int,
            r.2 as int,
        ) == days);
        lemma_day_number_injective(t.0, t.1, t.2, r.0 as int, r.1 as int, r.2 as int);
    }
    r
}

/// The English abbreviation of the weekday `w` days after a Thursday, as
/// 1970-01-01 was one.
pub open spec fn weekday_name(w: int) -> Seq<char> {
    if w == 0 {
        seq!['T', 'h', 'u']
    } else if w == 1 {
        seq!['F', 'r', 'i']
    } else if w == 2 {
        seq!['S', 'a', 't']
    } else if w == 3 {
        seq!['S', 'u', 'n']
    } else if w == 4 {
        seq!['M', 'o', 'n']
    } else if w == 5 {
        seq!['T', 'u', 'e']
    } else {
        seq!['W', 'e', 'd']
    }
}

/// The English abbreviation of month `m`.
pub open spec fn month_name(m: int) -> Seq<char> {
    if m == 1 {
        seq!['J', 'a', 'n']
    } else if m == 2 {
        seq!['F', 'e', 'b']
    } else if m == 3 {
        seq!['M', 'a', 'r']
    } else if m == 4 {
        seq!['A', 'p', 'r']
    } else if m == 5 {
        seq!['M', 'a', 'y']
    } else if m == 6 {
        seq!['J', 'u', 'n']
    } else if m == 7 {
        seq!['J', 'u', 'l']
    } else if m == 8 {
        seq!['A', 'u', 'g']
    } else if m == 9 {
        seq!['S', 'e', 'p']
    } else if m == 10 {
        seq!['O', 'c', 't']
    } else if m == 11 {
        seq!['N', 'o', 'v']
    } else {
        seq!['D', 'e', 'c']
    }
}

/// The RFC 1123 writing of the instant `secs` seconds after 1970-01-01
/// 00:00:00 UTC, such as `Thu, 01 Jan 1970 00:00:00 GMT`.
pub open spec fn http_date_text(secs: int) -> Seq<char> {
    let days = secs / 86400;
    let sod = secs % 86400;
    let date = civil(days);
    weekday_name(days % 7) + seq![',', ' '] + pad2(date.2 as nat) + seq![' '] + month_name(
        date.1,
    ) + seq![' '] + decimal_int(date.0) + seq![' '] + pad2((sod / 3600) as nat) + seq![':']
        + pad2(((sod % 3600) / 60) as nat) + seq![':'] + pad2((sod % 60) as nat) + seq![
        ' ',
        'G',
        'M',
        'T',
    ]
}

fn weekday_chars(w: i128) -> (r: Vec<char>)
    ensures
        r@ == weekday_name(w as int),
{
    let r = if w == 0 {
        vec!['T', 'h', 'u']
    } else if w == 1 {
        vec!['F', 'r', 'i']
    } else if w == 2 {
        vec!['S', 'a', 't']
    } else if w == 3 {
        vec!['S', 'u', 'n']
    } else if w == 4 {
        vec!['M', 'o', 'n']
    } else if w == 5 {
        vec!['T', 'u', 'e']
    } else {
        vec!['W', 'e', 'd']
    };
    assert(r@ =~= weekday_name(w as int));
    r
}

fn month_chars(m: i64) -> (r: Vec<char>)
    ensures
        r@ == month_name(m as int),
{
    let r = if m == 1 {
        vec!['J', 'a', 'n']
    } else if m == 2 {
        vec!['F', 'e', 'b']
    } else if m == 3 {
        vec!['M', 'a', 'r']
    } else if m == 4 {
        vec!['A', 'p', 'r']
    } else if m == 5 {
        vec!['M', 'a', 'y']
    } else if m == 6 {
        vec!['J', 'u', 'n']
    } else if m == 7 {
        vec!['J', 'u', 'l']
    } else if m == 8 {
        vec!['A', 'u', 'g']
    } else if m == 9 {
        vec!['S', 'e', 'p']
    } else if m == 10 {
        vec!['O', 'c', 't']
    } else if m == 11 {
        vec!['N', 'o', 'v']
    } else {
        vec!['D', 'e', 'c']
    };
    assert(r@ =~= month_name(m as int));
    r
}

/// A minimal RFC 1123 date, used for the automatic `Date` header, of the
/// instant `secs` seconds after the Unix epoch.
pub fn http_date(secs: i64) -> (r: String)
    ensures
        r@ == http_date_text(secs as int),
{
    let s: i128 = secs as i128;
    let days: i128 = if s >= 0 {
        s / 86400
    } else {
        (s - 86399) / 86400
    };
    let sod: i128 = s - days * 86400;
    let weeks: i128 = if days >= 0 {
        days / 7
    } else {
        (days - 6) / 7
    };
    let w: i128 = days - weeks * 7;
    assert(days == secs / 86400);
    assert(sod == secs % 86400);
    assert(w == days % 7);
    let date = civil_from_days(days as i64);
    let mut out: Vec<char> = weekday_chars(w);
    out.push(',');
    out.push(' ');
    out.extend_from_slice(fmt_pad2(date.2 as u64).as_slice());
    out.push(' ');
    out.extend_from_slice(month_chars(date.1).as_slice());
    out.push(' ');
    out.extend_from_slice(fmt_i64(date.0).as_slice());
    out.push(' ');
    out.extend_from_slice(fmt_pad2((sod / 3600) as u64).as_slice());
    out.push(':');
    out.extend_from_slice(fmt_pad2(((sod % 3600) / 60) as u64).as_slice());
    out.push(':');
    out.extend_from_slice(fmt_pad2((sod % 60) as u64).as_slice());
    out.push(' ');
    out.push('G');
    out.push('M');
    out.push('T');
    assert(out@ =~= http_date_text(secs as int));
    string_of(out.as_slice())
}

/// The English abbreviations of the months, January first.
pub open spec fn month_abbreviations() -> Seq<Seq<char>> {
    seq![
        seq!['J', 'a', 'n'],
        seq!['F', 'e', 'b'],
        seq!['M', 'a', 'r'],
        seq!['A', 'p', 'r'],
        seq!['M', 'a', 'y'],
        seq!['J', 'u', 'n'],
        seq!['J', 'u', 'l'],
        seq!['A', 'u', 'g'],
        seq!['S', 'e', 'p'],
        seq!['O', 'c', 't'],
        seq!['N', 'o', 'v'],
        seq!['D', 'e', 'c'],
    ]
}

/// The month written in the date of an instant is the standard English
/// abbreviation of its calendar month: month `m` is the `m`-th of Jan, Feb,
/// Mar, Apr, May, Jun, Jul, Aug, Sep, Oct, Nov, Dec (so 2024-07-01 is written
/// with `Jul`). It stands after the weekday, a comma, a space, the two-digit
/// day and a space.
pub proof fn lemma_date_month(secs: int, y: int, m: int, d: int)
    requires
        valid_date(y, m, d),
        day_number(y, m, d) == secs / 86400,
    ensures
        http_date_text(secs).subrange(8, 11) == month_abbreviations()[m - 1],
{
    let days = secs / 86400;
    let witness: (int, int, int) = (y, m, d);
    assert(valid_date(witness.0, witness.1, witness.2) && day_number(witness.0, witness.1, witness.2)
        == days);
    let t = civil(days);
    assert(valid_date(t.0, t.1, t.2) && day_number(t.0, t.1, t.2) == days);
    lemma_day_number_injective(t.0, t.1, t.2, y, m, d);
    assert(d <= 31);
    let p = pad2(d as nat);
    if d >= 10 {
        assert(crate::text::decimal((d / 10) as nat).len() == 1);
        assert(p.len() == 2);
    }
    assert(p.len() == 2);
    let w = weekday_name(days % 7);
    assert(w.len() == 3);
    let mo = month_name(m);
    assert(mo == month_abbreviations()[m - 1]);
    let text = http_date_text(secs);
    assert(text[8] == mo[0] && text[9] == mo[1] && text[10] == mo[2]);
    assert(text.subrange(8, 11) =~= mo);
}

} // verus!
