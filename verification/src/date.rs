use vstd::prelude::*;

use crate::grammar::{is_date_chars, is_date_text_spec};
use crate::num::{digit_of, digit_val};
use crate::text::{chars_to_string, str_chars};

verus! {

/// Gregorian leap years.
pub open spec fn is_leap_year(y: int) -> bool {
    y % 4 == 0 && (y % 100 != 0 || y % 400 == 0)
}

/// Days in a month of the proleptic Gregorian calendar.
pub open spec fn days_in_month(m: int, y: int) -> int {
    if m == 2 {
        if is_leap_year(y) {
            29
        } else {
            28
        }
    } else if m == 4 || m == 6 || m == 9 || m == 11 {
        30
    } else {
        31
    }
}

/// The day value of a `DD/MM/YYYY` string.
pub open spec fn date_day(s: Seq<char>) -> int {
    digit_val(s[0]) * 10 + digit_val(s[1])
}

/// The month value of a `DD/MM/YYYY` string.
pub open spec fn date_month(s: Seq<char>) -> int {
    digit_val(s[3]) * 10 + digit_val(s[4])
}

/// The year value of a `DD/MM/YYYY` string.
pub open spec fn date_year(s: Seq<char>) -> int {
    digit_val(s[6]) * 1000 + digit_val(s[7]) * 100 + digit_val(s[8]) * 10 + digit_val(s[9])
}

/// Whether a `DD/MM/YYYY` string names a valid calendar date.
pub open spec fn is_valid_date(s: Seq<char>) -> bool {
    &&& 1 <= date_month(s) <= 12
    &&& 1 <= date_day(s) <= days_in_month(date_month(s), date_year(s))
}

/// The timestamp rendering of a date string: midnight UTC of that calendar
/// date, `YYYY-MM-DDT00:00:00+00:00`.
pub open spec fn iso_of_date(s: Seq<char>) -> Seq<char> {
    seq![s[6], s[7], s[8], s[9], '-', s[3], s[4], '-', s[0], s[1], 'T', '0', '0', ':', '0', '0',
        ':', '0', '0', '+', '0', '0', ':', '0', '0']
}

/// What date normalization yields: the midnight-UTC timestamp when the
/// string is a strict `DD/MM/YYYY` rendering of a valid calendar date, and
/// nothing otherwise.
pub open spec fn date_iso_spec(s: Seq<char>) -> Option<Seq<char>> {
    if is_date_text_spec(s) && is_valid_date(s) {
        Some(iso_of_date(s))
    } else {
        None
    }
}

/// Normalizes a strict `DD/MM/YYYY` date into an ISO-8601 timestamp at
/// midnight UTC; rejects malformed strings and invalid calendar dates.
pub fn parse_date_to_iso(s: &str) -> (r: Option<String>)
    ensures
        r is Some <==> date_iso_spec(s@) is Some,
        r matches Some(iso) ==> date_iso_spec(s@) == Some(iso@),
{
    let v = str_chars(s);
    if !is_date_chars(&v) {
        return None;
    }
    let day = digit_of(v[0]) * 10 + digit_of(v[1]);
    let month = digit_of(v[3]) * 10 + digit_of(v[4]);
    let year = digit_of(v[6]) * 1000 + digit_of(v[7]) * 100 + digit_of(v[8]) * 10 + digit_of(v[9]);
    if month < 1 || month > 12 {
        return None;
    }
    let leap: bool = year % 4 == 0 && (year % 100 != 0 || year % 400 == 0);
    let dim: u32 = if month == 2 {
        if leap {
            29
        } else {
            28
        }
    } else if month == 4 || month == 6 || month == 9 || month == 11 {
        30
    } else {
        31
    };
    if day < 1 || day > dim {
        return None;
    }
    let mut out: Vec<char> = Vec::new();
    out.push(v[6]);
    out.push(v[7]);
    out.push(v[8]);
    out.push(v[9]);
    out.push('-');
    out.push(v[3]);
    out.push(v[4]);
    out.push('-');
    out.push(v[0]);
    out.push(v[1]);
    out.push('T');
    out.push('0');
    out.push('0');
    out.push(':');
    out.push('0');
    out.push('0');
    out.push(':');
    out.push('0');
    out.push('0');
    out.push('+');
    out.push('0');
    out.push('0');
    out.push(':');
    out.push('0');
    out.push('0');
    proof {
        assert(out@ =~= iso_of_date(s@));
    }
    Some(chars_to_string(&out))
}

} // verus!
