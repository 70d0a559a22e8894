//! Timestamps as unix seconds, and the canonical log-time format
//! "DD/Mon/YYYY:HH:MM:SS +ZZZZ" that convicting matches must carry.

use vstd::prelude::*;

use crate::ip::{all_digits, digits_val, is_digit, lemma_digits_val_nonneg};

verus! {

/// Relies on time::OffsetDateTime::now_utc, read as unix seconds:
/// nothing can be promised of the clock.
#[verifier::external_body]
pub fn now_unix() -> i64 {
    time::OffsetDateTime::now_utc().unix_timestamp()
}

pub open spec fn is_leap(y: int) -> bool {
    y % 4 == 0 && (y % 100 != 0 || y % 400 == 0)
}

pub open spec fn days_in_month(y: int, m: int) -> int {
    if m == 2 {
        if is_leap(y) {
            29
        } else {
            28
        }
    } else if m == 4 || m == 6 || m == 9 || m == 11 {
        30
    } else {
        31
    }
}

/// Days of year `y` that lie before month `m`.
pub open spec fn days_before_month(y: int, m: int) -> int
    decreases m,
{
    if m <= 1 {
        0
    } else {
        days_before_month(y, m - 1) + days_in_month(y, m - 1)
    }
}

/// Days from the first of year one up to the first of year `y`.
pub open spec fn days_before_year(y: int) -> int {
    365 * (y - 1) + (y - 1) / 4 - (y - 1) / 100 + (y - 1) / 400
}

/// Days from the unix epoch to the given calendar day; the epoch lies
/// 719162 days after the first of year one.
pub open spec fn days_from_epoch(y: int, m: int, d: int) -> int {
    days_before_year(y) + days_before_month(y, m) + (d - 1) - 719162
}

/// The instant of a calendar date, time of day and offset, in unix seconds.
pub open spec fn spec_timestamp(
    y: int,
    m: int,
    d: int,
    h: int,
    mi: int,
    s: int,
    off: int,
) -> int {
    days_from_epoch(y, m, d) * 86400 + h * 3600 + mi * 60 + s - off
}

/// The month a three-letter abbreviation names, or zero.
pub open spec fn month_num(s: Seq<char>) -> int {
    if s == seq!['J', 'a', 'n'] { 1 }
    else if s == seq!['F', 'e', 'b'] { 2 }
    else if s == seq!['M', 'a', 'r'] { 3 }
    else if s == seq!['A', 'p', 'r'] { 4 }
    else if s == seq!['M', 'a', 'y'] { 5 }
    else if s == seq!['J', 'u', 'n'] { 6 }
    else if s == seq!['J', 'u', 'l'] { 7 }
    else if s == seq!['A', 'u', 'g'] { 8 }
    else if s == seq!['S', 'e', 'p'] { 9 }
    else if s == seq!['O', 'c', 't'] { 10 }
    else if s == seq!['N', 'o', 'v'] { 11 }
    else if s == seq!['D', 'e', 'c'] { 12 }
    else { 0 }
}

pub open spec fn two_digits(s: Seq<char>, at: int) -> int {
    digits_val(s.subrange(at, at + 2))
}

pub open spec fn four_digits(s: Seq<char>, at: int) -> int {
    digits_val(s.subrange(at, at + 4))
}

pub open spec fn digits_at(s: Seq<char>, at: int, n: int) -> bool {
    all_digits(s.subrange(at, at + n))
}

/// The shape of the canonical log time: "DD/Mon/YYYY:HH:MM:SS +ZZZZ".
pub open spec fn spec_time_shape(s: Seq<char>) -> bool {
    &&& s.len() == 26
    &&& digits_at(s, 0, 2)
    &&& s[2] == '/'
    &&& month_num(s.subrange(3, 6)) >= 1
    &&& s[6] == '/'
    &&& digits_at(s, 7, 4)
    &&& s[11] == ':'
    &&& digits_at(s, 12, 2)
    &&& s[14] == ':'
    &&& digits_at(s, 15, 2)
    &&& s[17] == ':'
    &&& digits_at(s, 18, 2)
    &&& s[20] == ' '
    &&& (s[21] == '+' || s[21] == '-')
    &&& digits_at(s, 22, 4)
}

/// The offset in seconds that the "+ZZZZ" part stands for.
pub open spec fn spec_time_offset(s: Seq<char>) -> int {
    let hh = four_digits(s, 22) / 100;
    let mm = four_digits(s, 22) % 100;
    let mag = hh * 3600 + mm * 60;
    if s[21] == '-' {
        -mag
    } else {
        mag
    }
}

/// The field values in range: a real calendar day of year one or later,
/// a time of day, and an offset below one day.
pub open spec fn spec_time_fields_ok(s: Seq<char>) -> bool {
    let y = four_digits(s, 7);
    let m = month_num(s.subrange(3, 6));
    let d = two_digits(s, 0);
    &&& y >= 1
    &&& 1 <= d <= days_in_month(y, m)
    &&& two_digits(s, 12) <= 23
    &&& two_digits(s, 15) <= 59
    &&& two_digits(s, 18) <= 59
    &&& four_digits(s, 22) / 100 <= 23
    &&& four_digits(s, 22) % 100 <= 59
}

/// The canonical log-time format, parsed to unix seconds.
pub open spec fn spec_parse_log_time(s: Seq<char>) -> Option<int> {
    if spec_time_shape(s) && spec_time_fields_ok(s) {
        Some(
            spec_timestamp(
                four_digits(s, 7),
                month_num(s.subrange(3, 6)),
                two_digits(s, 0),
                two_digits(s, 12),
                two_digits(s, 15),
                two_digits(s, 18),
                spec_time_offset(s),
            ),
        )
    } else {
        None
    }
}

fn is_digit_exec(c: char) -> (r: bool)
    ensures
        r == is_digit(c),
{
    let u = c as u32;
    48 <= u && u <= 57
}

/// The value of `n` digits at `lo`, if all are digits.
#[verifier::loop_isolation(false)]
fn digits_val_exec(chars: &Vec<char>, lo: usize, n: usize) -> (r: Option<u32>)
    requires
        lo + n <= chars@.len(),
        1 <= n <= 4,
    ensures
        ({
            let seg = chars@.subrange(lo as int, lo + n);
            match r {
                Some(v) => all_digits(seg) && v == digits_val(seg) && v <= 9999,
                None => !all_digits(seg),
            }
        }),
{
    let ghost seg = chars@.subrange(lo as int, lo + n);
    let len = chars.len();
    assert(lo + n <= len);
    let mut i: usize = 0;
    let mut val: u32 = 0;
    while i < n
        invariant
            i <= n,
            all_digits(seg.subrange(0, i as int)),
            val == digits_val(seg.subrange(0, i as int)),
            val <= (if i == 0 { 0int } else if i == 1 { 9int } else if i == 2 { 99int } else if i
                == 3 { 999int } else { 9999int }),
        decreases n - i,
    {
        let c = chars[lo + i];
        if !is_digit_exec(c) {
            assert(!is_digit(seg[i as int]));
            return None;
        }
        proof {
            lemma_digits_val_nonneg(seg.subrange(0, i as int));
        }
        let d = c as u32 - 48;
        assert(d == crate::ip::digit_of(seg[i as int]));
        let ghost pre = seg.subrange(0, i as int);
        val = val * 10 + d;
        i = i + 1;
        proof {
            let cur = seg.subrange(0, i as int);
            assert(cur.drop_last() =~= pre);
            assert(cur.last() == seg[i - 1]);
            assert(all_digits(cur));
        }
    }
    assert(seg.subrange(0, n as int) =~= seg);
    Some(val)
}

/// The month number of the three letters at `lo`, or zero.
fn month_of(chars: &Vec<char>, lo: usize) -> (m: u8)
    requires
        lo + 3 <= chars@.len(),
    ensures
        m == month_num(chars@.subrange(lo as int, lo + 3)),
        m <= 12,
{
    let ghost seg = chars@.subrange(lo as int, lo + 3);
    let len = chars.len();
    assert(lo + 3 <= len);
    let a = chars[lo];
    let b = chars[lo + 1];
    let c = chars[lo + 2];
    assert(seg[0] == a && seg[1] == b && seg[2] == c);
    if a == 'J' && b == 'a' && c == 'n' {
        assert(seg =~= seq!['J', 'a', 'n']);
        1
    } else if a == 'F' && b == 'e' && c == 'b' {
        assert(seg =~= seq!['F', 'e', 'b']);
        2
    } else if a == 'M' && b == 'a' && c == 'r' {
        assert(seg =~= seq!['M', 'a', 'r']);
        3
    } else if a == 'A' && b == 'p' && c == 'r' {
        assert(seg =~= seq!['A', 'p', 'r']);
        4
    } else if a == 'M' && b == 'a' && c == 'y' {
        assert(seg =~= seq!['M', 'a', 'y']);
        5
    } else if a == 'J' && b == 'u' && c == 'n' {
        assert(seg =~= seq!['J', 'u', 'n']);
        6
    } else if a == 'J' && b == 'u' && c == 'l' {
        assert(seg =~= seq!['J', 'u', 'l']);
        7
    } else if a == 'A' && b == 'u' && c == 'g' {
        assert(seg =~= seq!['A', 'u', 'g']);
        8
    } else if a == 'S' && b == 'e' && c == 'p' {
        assert(seg =~= seq!['S', 'e', 'p']);
        9
    } else if a == 'O' && b == 'c' && c == 't' {
        assert(seg =~= seq!['O', 'c', 't']);
        10
    } else if a == 'N' && b == 'o' && c == 'v' {
        assert(seg =~= seq!['N', 'o', 'v']);
        11
    } else if a == 'D' && b == 'e' && c == 'c' {
        assert(seg =~= seq!['D', 'e', 'c']);
        12
    } else {
        assert(seg.len() == 3);
        0
    }
}

fn is_leap_exec(y: u32) -> (r: bool)
    ensures
        r == is_leap(y as int),
{
    y % 4 == 0 && (y % 100 != 0 || y % 400 == 0)
}

fn days_in_month_exec(y: u32, m: u8) -> (r: u8)
    ensures
        r == days_in_month(y as int, m as int),
        28 <= r <= 31,
{
    if m == 2 {
        if is_leap_exec(y) {
            29
        } else {
            28
        }
    } else if m == 4 || m == 6 || m == 9 || m == 11 {
        30
    } else {
        31
    }
}

#[verifier::loop_isolation(false)]
fn days_before_month_exec(y: u32, m: u8) -> (r: u32)
    requires
        1 <= m <= 12,
    ensures
        r == days_before_month(y as int, m as int),
        r <= 366,
{
    let mut acc: u32 = 0;
    let mut i: u8 = 1;
    while i < m
        invariant
            1 <= i <= m,
            acc == days_before_month(y as int, i as int),
            acc <= 31 * (i - 1),
        decreases m - i,
    {
        acc = acc + days_in_month_exec(y, i) as u32;
        i = i + 1;
    }
    acc
}

fn days_before_year_exec(y: u32) -> (r: i64)
    requires
        1 <= y <= 9999,
    ensures
        r == days_before_year(y as int),
        0 <= r <= 3652059,
{
    let p = (y - 1) as i64;
    365 * p + p / 4 - p / 100 + p / 400
}

/// Parses the canonical log-time format to unix seconds.
pub fn parse_log_time(t: &str) -> (r: Option<i64>)
    ensures
        match r {
            Some(v) => spec_parse_log_time(t@) == Some(v as int),
            None => spec_parse_log_time(t@) is None,
        },
{
    let chars = crate::strutil::chars_vec(t);
    let ghost s = t@;
    if chars.len() != 26 {
        return None;
    }
    if !(chars[2] == '/' && chars[6] == '/' && chars[11] == ':' && chars[14] == ':' && chars[17]
        == ':' && chars[20] == ' ') {
        return None;
    }
    let sign = chars[21];
    if !(sign == '+' || sign == '-') {
        return None;
    }
    let d = match digits_val_exec(&chars, 0, 2) {
        Some(v) => v,
        None => {
            return None;
        },
    };
    let m = month_of(&chars, 3);
    if m == 0 {
        return None;
    }
    let y = match digits_val_exec(&chars, 7, 4) {
        Some(v) => v,
        None => {
            return None;
        },
    };
    let h = match digits_val_exec(&chars, 12, 2) {
        Some(v) => v,
        None => {
            return None;
        },
    };
    let mi = match digits_val_exec(&chars, 15, 2) {
        Some(v) => v,
        None => {
            return None;
        },
    };
    let sec = match digits_val_exec(&chars, 18, 2) {
        Some(v) => v,
        None => {
            return None;
        },
    };
    let oz = match digits_val_exec(&chars, 22, 4) {
        Some(v) => v,
        None => {
            return None;
        },
    };
    assert(spec_time_shape(s));
    if y == 0 {
        return None;
    }
    if d == 0 || d > days_in_month_exec(y, m) as u32 {
        return None;
    }
    if h > 23 || mi > 59 || sec > 59 {
        return None;
    }
    let ohh = oz / 100;
    let omm = oz % 100;
    if ohh > 23 || omm > 59 {
        return None;
    }
    assert(spec_time_fields_ok(s));
    let days: i64 = days_before_year_exec(y) + days_before_month_exec(y, m) as i64 + (d as i64 - 1)
        - 719162;
    assert(days == days_from_epoch(y as int, m as int, d as int));
    let mag: i64 = (ohh as i64) * 3600 + (omm as i64) * 60;
    let off: i64 = if sign == '-' {
        -mag
    } else {
        mag
    };
    assert(off == spec_time_offset(s));
    let ts: i64 = days * 86400 + (h as i64) * 3600 + (mi as i64) * 60 + (sec as i64) - off;
    assert(ts == spec_timestamp(
        y as int,
        m as int,
        d as int,
        h as int,
        mi as int,
        sec as int,
        off as int,
    ));
    Some(ts)
}

} // verus!
