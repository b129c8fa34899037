//! Calendar dates as plain values: validity of a year/month/day triple in
//! the proleptic Gregorian calendar, and parsing of the two fixed-width
//! text forms the system reads (`YYYY-MM-DD` dates, `HH:MM:SS` times).

use crate::numfmt::digit_val;
use crate::numfmt::is_digit_char;
use vstd::prelude::*;

verus! {

pub open spec fn is_leap_year(y: int) -> bool {
    y % 4 == 0 && (y % 100 != 0 || y % 400 == 0)
}

pub open spec fn days_in_month(y: int, m: int) -> int {
    if m == 1 {
        31
    } else if m == 2 {
        if is_leap_year(y) {
            29
        } else {
            28
        }
    } else if m == 3 {
        31
    } else if m == 4 {
        30
    } else if m == 5 {
        31
    } else if m == 6 {
        30
    } else if m == 7 {
        31
    } else if m == 8 {
        31
    } else if m == 9 {
        30
    } else if m == 10 {
        31
    } else if m == 11 {
        30
    } else {
        31
    }
}

pub open spec fn valid_ymd(y: int, m: int, d: int) -> bool {
    1 <= m <= 12 && 1 <= d <= days_in_month(y, m)
}

/// The date a ten-character `YYYY-MM-DD` sequence denotes, before any
/// calendar validity check.
pub open spec fn parse_ymd_spec(s: Seq<char>) -> Option<(int, int, int)> {
    if s.len() == 10 && is_digit_char(s[0]) && is_digit_char(s[1]) && is_digit_char(s[2])
        && is_digit_char(s[3]) && s[4] == '-' && is_digit_char(s[5]) && is_digit_char(s[6]) && s[7]
        == '-' && is_digit_char(s[8]) && is_digit_char(s[9]) {
        Some(
            (
                digit_val(s[0]) * 1000 + digit_val(s[1]) * 100 + digit_val(s[2]) * 10 + digit_val(
                    s[3],
                ),
                digit_val(s[5]) * 10 + digit_val(s[6]),
                digit_val(s[8]) * 10 + digit_val(s[9]),
            ),
        )
    } else {
        None
    }
}

/// The time of day an eight-character `HH:MM:SS` sequence denotes, before
/// any range check.
pub open spec fn parse_hms_spec(s: Seq<char>) -> Option<(int, int, int)> {
    if s.len() == 8 && is_digit_char(s[0]) && is_digit_char(s[1]) && s[2] == ':' && is_digit_char(
        s[3],
    ) && is_digit_char(s[4]) && s[5] == ':' && is_digit_char(s[6]) && is_digit_char(s[7]) {
        Some(
            (
                digit_val(s[0]) * 10 + digit_val(s[1]),
                digit_val(s[3]) * 10 + digit_val(s[4]),
                digit_val(s[6]) * 10 + digit_val(s[7]),
            ),
        )
    } else {
        None
    }
}

fn digit_at(s: &Vec<char>, i: usize) -> (r: Option<u32>)
    requires
        i < s@.len(),
    ensures
        match r {
            Some(v) => is_digit_char(s@[i as int]) && v == digit_val(s@[i as int]) && v < 10,
            None => !is_digit_char(s@[i as int]),
        },
{
    let code = s[i] as u32;
    if 48 <= code && code <= 57 {
        Some(code - 48)
    } else {
        None
    }
}

/// Reads a fixed-width `YYYY-MM-DD` date; the values are not yet checked
/// against the calendar.
pub fn parse_ymd(s: &Vec<char>) -> (r: Option<(i32, u32, u32)>)
    ensures
        match r {
            Some((y, m, d)) => parse_ymd_spec(s@) == Some((y as int, m as int, d as int)) && 0 <= y
                <= 9999 && m <= 99 && d <= 99,
            None => parse_ymd_spec(s@) is None,
        },
{
    if s.len() != 10 {
        return None;
    }
    if !(s[4] == '-' && s[7] == '-') {
        return None;
    }
    let d0 = match digit_at(s, 0) {
        Some(v) => v,
        None => {
            return None;
        },
    };
    let d1 = match digit_at(s, 1) {
        Some(v) => v,
        None => {
            return None;
        },
    };
    let d2 = match digit_at(s, 2) {
        Some(v) => v,
        None => {
            return None;
        },
    };
    let d3 = match digit_at(s, 3) {
        Some(v) => v,
        None => {
            return None;
        },
    };
    let d5 = match digit_at(s, 5) {
        Some(v) => v,
        None => {
            return None;
        },
    };
    let d6 = match digit_at(s, 6) {
        Some(v) => v,
        None => {
            return None;
        },
    };
    let d8 = match digit_at(s, 8) {
        Some(v) => v,
        None => {
            return None;
        },
    };
    let d9 = match digit_at(s, 9) {
        Some(v) => v,
        None => {
            return None;
        },
    };
    let y = d0 * 1000 + d1 * 100 + d2 * 10 + d3;
    let m = d5 * 10 + d6;
    let d = d8 * 10 + d9;
    Some((y as i32, m, d))
}

/// Reads a fixed-width `HH:MM:SS` time of day; the values are not yet
/// range-checked.
pub fn parse_hms(s: &Vec<char>) -> (r: Option<(u32, u32, u32)>)
    ensures
        match r {
            Some((h, m, sec)) => parse_hms_spec(s@) == Some((h as int, m as int, sec as int)) && h
                <= 99 && m <= 99 && sec <= 99,
            None => parse_hms_spec(s@) is None,
        },
{
    if s.len() != 8 {
        return None;
    }
    if !(s[2] == ':' && s[5] == ':') {
        return None;
    }
    let d0 = match digit_at(s, 0) {
        Some(v) => v,
        None => {
            return None;
        },
    };
    let d1 = match digit_at(s, 1) {
        Some(v) => v,
        None => {
            return None;
        },
    };
    let d3 = match digit_at(s, 3) {
        Some(v) => v,
        None => {
            return None;
        },
    };
    let d4 = match digit_at(s, 4) {
        Some(v) => v,
        None => {
            return None;
        },
    };
    let d6 = match digit_at(s, 6) {
        Some(v) => v,
        None => {
            return None;
        },
    };
    let d7 = match digit_at(s, 7) {
        Some(v) => v,
        None => {
            return None;
        },
    };
    Some((d0 * 10 + d1, d3 * 10 + d4, d6 * 10 + d7))
}

} // verus!
