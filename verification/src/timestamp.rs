use vstd::prelude::*;

use crate::error::Error;

verus! {

/// Whether a year of the proleptic Gregorian calendar is a leap year.
pub open spec fn spec_is_leap(y: int) -> bool {
    y % 4 == 0 && (y % 100 != 0 || y % 400 == 0)
}

pub open spec fn spec_days_in_year(y: int) -> int {
    if spec_is_leap(y) {
        366
    } else {
        365
    }
}

pub open spec fn spec_days_in_month(y: int, m: int) -> int {
    if m == 1 || m == 3 || m == 5 || m == 7 || m == 8 || m == 10 || m == 12 {
        31
    } else if m == 4 || m == 6 || m == 9 || m == 11 {
        30
    } else if spec_is_leap(y) {
        29
    } else {
        28
    }
}

/// Days from the epoch to the start of year `y`.
pub open spec fn spec_days_before_year(y: int) -> int
    decreases y,
{
    if y <= 1970 {
        0
    } else {
        spec_days_before_year(y - 1) + spec_days_in_year(y - 1)
    }
}

/// Days from the start of year `y` to the start of month `m`.
pub open spec fn spec_days_before_month(y: int, m: int) -> int
    decreases m,
{
    if m <= 1 {
        0
    } else {
        spec_days_before_month(y, m - 1) + spec_days_in_month(y, m - 1)
    }
}

/// The epoch second of a date and time of day.
pub open spec fn spec_epoch(y: int, m: int, d: int, h: int, mi: int, s: int) -> int {
    (spec_days_before_year(y) + spec_days_before_month(y, m) + (d - 1)) * 86400 + h * 3600 + mi
        * 60 + s
}

/// A representable date and time: a year the nine-thousands at the latest,
/// a real calendar day, and a time of day.
pub open spec fn spec_valid_datetime(y: int, m: int, d: int, h: int, mi: int, s: int) -> bool {
    &&& 1970 <= y <= 9999
    &&& 1 <= m <= 12
    &&& 1 <= d <= spec_days_in_month(y, m)
    &&& 0 <= h < 24
    &&& 0 <= mi < 60
    &&& 0 <= s < 60
}

/// The value of a decimal digit character, or a negative marker for any
/// other character.
pub open spec fn spec_digit_val(c: char) -> int {
    if c == '0' {
        0
    } else if c == '1' {
        1
    } else if c == '2' {
        2
    } else if c == '3' {
        3
    } else if c == '4' {
        4
    } else if c == '5' {
        5
    } else if c == '6' {
        6
    } else if c == '7' {
        7
    } else if c == '8' {
        8
    } else if c == '9' {
        9
    } else {
        -1
    }
}

/// The two-digit number at position `i`.
pub open spec fn spec_num2(s: Seq<char>, i: int) -> int {
    10 * spec_digit_val(s[i]) + spec_digit_val(s[i + 1])
}

/// The four-digit number at position `i`.
pub open spec fn spec_num4(s: Seq<char>, i: int) -> int {
    1000 * spec_digit_val(s[i]) + 100 * spec_digit_val(s[i + 1]) + 10 * spec_digit_val(s[i + 2])
        + spec_digit_val(s[i + 3])
}

/// Whether a string is a well-formed timestamp `yyyy-mm-ddThh:mm:ss`
/// denoting a representable date and time.
pub open spec fn spec_ts_format_ok(s: Seq<char>) -> bool {
    &&& s.len() == 19
    &&& s[4] == '-' && s[7] == '-' && s[10] == 'T' && s[13] == ':' && s[16] == ':'
    &&& spec_digit_val(s[0]) >= 0 && spec_digit_val(s[1]) >= 0 && spec_digit_val(s[2]) >= 0
        && spec_digit_val(s[3]) >= 0
    &&& spec_digit_val(s[5]) >= 0 && spec_digit_val(s[6]) >= 0
    &&& spec_digit_val(s[8]) >= 0 && spec_digit_val(s[9]) >= 0
    &&& spec_digit_val(s[11]) >= 0 && spec_digit_val(s[12]) >= 0
    &&& spec_digit_val(s[14]) >= 0 && spec_digit_val(s[15]) >= 0
    &&& spec_digit_val(s[17]) >= 0 && spec_digit_val(s[18]) >= 0
    &&& spec_valid_datetime(
        spec_num4(s, 0),
        spec_num2(s, 5),
        spec_num2(s, 8),
        spec_num2(s, 11),
        spec_num2(s, 14),
        spec_num2(s, 17),
    )
}

/// The epoch second a well-formed timestamp string denotes.
pub open spec fn spec_epoch_of(s: Seq<char>) -> int {
    spec_epoch(
        spec_num4(s, 0),
        spec_num2(s, 5),
        spec_num2(s, 8),
        spec_num2(s, 11),
        spec_num2(s, 14),
        spec_num2(s, 17),
    )
}

fn digit_val(c: char) -> (r: Option<i64>)
    ensures
        match r {
            Some(v) => spec_digit_val(c) == v && 0 <= v <= 9,
            None => spec_digit_val(c) < 0,
        },
{
    match c {
        '0' => Some(0),
        '1' => Some(1),
        '2' => Some(2),
        '3' => Some(3),
        '4' => Some(4),
        '5' => Some(5),
        '6' => Some(6),
        '7' => Some(7),
        '8' => Some(8),
        '9' => Some(9),
        _ => None,
    }
}

fn num2(s: &str, i: usize) -> (r: Result<i64, Error>)
    requires
        i <= 20,
        i + 2 <= s@.len(),
    ensures
        match r {
            Ok(v) => spec_digit_val(s@[i as int]) >= 0 && spec_digit_val(s@[i + 1]) >= 0 && v
                == spec_num2(s@, i as int) && 0 <= v <= 99,
            Err(e) => (spec_digit_val(s@[i as int]) < 0 || spec_digit_val(s@[i + 1]) < 0) && e
                == Error::ValueError,
        },
{
    let a = match digit_val(s.get_char(i)) {
        Some(v) => v,
        None => return Err(Error::ValueError),
    };
    let b = match digit_val(s.get_char(i + 1)) {
        Some(v) => v,
        None => return Err(Error::ValueError),
    };
    Ok(10 * a + b)
}

fn num4(s: &str, i: usize) -> (r: Result<i64, Error>)
    requires
        i <= 20,
        i + 4 <= s@.len(),
    ensures
        match r {
            Ok(v) => spec_digit_val(s@[i as int]) >= 0 && spec_digit_val(s@[i + 1]) >= 0
                && spec_digit_val(s@[i + 2]) >= 0 && spec_digit_val(s@[i + 3]) >= 0 && v
                == spec_num4(s@, i as int) && 0 <= v <= 9999,
            Err(e) => (spec_digit_val(s@[i as int]) < 0 || spec_digit_val(s@[i + 1]) < 0
                || spec_digit_val(s@[i + 2]) < 0 || spec_digit_val(s@[i + 3]) < 0) && e
                == Error::ValueError,
        },
{
    let a = match digit_val(s.get_char(i)) {
        Some(v) => v,
        None => return Err(Error::ValueError),
    };
    let b = match digit_val(s.get_char(i + 1)) {
        Some(v) => v,
        None => return Err(Error::ValueError),
    };
    let c = match digit_val(s.get_char(i + 2)) {
        Some(v) => v,
        None => return Err(Error::ValueError),
    };
    let d = match digit_val(s.get_char(i + 3)) {
        Some(v) => v,
        None => return Err(Error::ValueError),
    };
    Ok(1000 * a + 100 * b + 10 * c + d)
}

fn is_leap(y: i64) -> (r: bool)
    requires
        y >= 0,
    ensures
        r == spec_is_leap(y as int),
{
    y % 4 == 0 && (y % 100 != 0 || y % 400 == 0)
}

fn days_in_month(y: i64, m: i64) -> (r: i64)
    requires
        y >= 0,
    ensures
        r == spec_days_in_month(y as int, m as int),
        28 <= r <= 31,
{
    if m == 1 || m == 3 || m == 5 || m == 7 || m == 8 || m == 10 || m == 12 {
        31
    } else if m == 4 || m == 6 || m == 9 || m == 11 {
        30
    } else if is_leap(y) {
        29
    } else {
        28
    }
}

fn days_in_year(y: i64) -> (r: i64)
    requires
        y >= 0,
    ensures
        r == spec_days_in_year(y as int),
        365 <= r <= 366,
{
    if is_leap(y) {
        366
    } else {
        365
    }
}

/// Days before the start of year `y`, by walking the years up from the
/// epoch.
fn days_before_year(y: i64) -> (r: i64)
    requires
        1970 <= y <= 10000,
    ensures
        r == spec_days_before_year(y as int),
        0 <= r <= 366 * (y - 1970),
{
    let mut cur: i64 = 1970;
    let mut acc: i64 = 0;
    while cur < y
        invariant
            1970 <= cur <= y <= 10000,
            acc == spec_days_before_year(cur as int),
            0 <= acc <= 366 * (cur - 1970),
        decreases y - cur,
    {
        acc = acc + days_in_year(cur);
        cur = cur + 1;
    }
    acc
}

/// Days before the start of month `m` within year `y`.
fn days_before_month(y: i64, m: i64) -> (r: i64)
    requires
        y >= 0,
        1 <= m <= 13,
    ensures
        r == spec_days_before_month(y as int, m as int),
        0 <= r <= 372,
{
    let mut cur: i64 = 1;
    let mut acc: i64 = 0;
    while cur < m
        invariant
            y >= 0,
            1 <= cur <= m <= 13,
            acc == spec_days_before_month(y as int, cur as int),
            0 <= acc <= 31 * (cur - 1),
        decreases m - cur,
    {
        acc = acc + days_in_month(y, cur);
        cur = cur + 1;
    }
    acc
}

/// The months of a year sum to its length.
proof fn lemma_months_sum(y: int)
    ensures
        spec_days_before_month(y, 13) == spec_days_in_year(y),
{
    reveal_with_fuel(spec_days_before_month, 14);
}

/// Parse a timestamp written `yyyy-mm-ddThh:mm:ss` into its epoch second.
/// A string of the wrong shape, or denoting no real calendar date or time
/// of day, is a value error.
pub fn parse_timestamp(ts: &str) -> (r: Result<i64, Error>)
    ensures
        match r {
            Ok(v) => spec_ts_format_ok(ts@) && v == spec_epoch_of(ts@),
            Err(e) => !spec_ts_format_ok(ts@) && e == Error::ValueError,
        },
{
    if ts.unicode_len() != 19 {
        return Err(Error::ValueError);
    }
    if ts.get_char(4) != '-' || ts.get_char(7) != '-' || ts.get_char(10) != 'T' || ts.get_char(13)
        != ':' || ts.get_char(16) != ':' {
        return Err(Error::ValueError);
    }
    let y = num4(ts, 0)?;
    let m = num2(ts, 5)?;
    let d = num2(ts, 8)?;
    let h = num2(ts, 11)?;
    let mi = num2(ts, 14)?;
    let sec = num2(ts, 17)?;
    if y < 1970 || m < 1 || m > 12 || d < 1 || h > 23 || mi > 59 || sec > 59 {
        return Err(Error::ValueError);
    }
    if d > days_in_month(y, m) {
        return Err(Error::ValueError);
    }
    let days = days_before_year(y) + days_before_month(y, m) + (d - 1);
    Ok(days * 86400 + h * 3600 + mi * 60 + sec)
}

/// Break an epoch second into its date and time-of-day fields. An instant
/// past the representable years is a value error.
fn civil_of(ts: i64) -> (r: Result<(i64, i64, i64, i64, i64, i64), Error>)
    requires
        ts >= 0,
    ensures
        match r {
            Ok(f) => spec_valid_datetime(
                f.0 as int,
                f.1 as int,
                f.2 as int,
                f.3 as int,
                f.4 as int,
                f.5 as int,
            ) && spec_epoch(
                f.0 as int,
                f.1 as int,
                f.2 as int,
                f.3 as int,
                f.4 as int,
                f.5 as int,
            ) == ts,
            Err(e) => e == Error::ValueError && ts > spec_epoch(9999, 12, 31, 23, 59, 59),
        },
{
    let days = ts / 86400;
    let rem = ts % 86400;
    let h = rem / 3600;
    let mi = (rem % 3600) / 60;
    let sec = rem % 60;
    proof {
        assert(rem == h * 3600 + mi * 60 + sec) by (nonlinear_arith)
            requires
                rem == ts % 86400,
                h == rem / 3600,
                mi == (rem % 3600) / 60,
                sec == rem % 60,
                0 <= rem < 86400,
        ;
        assert(ts == days * 86400 + rem);
        assert(0 <= h < 24 && 0 <= mi < 60 && 0 <= sec < 60) by (nonlinear_arith)
            requires
                h == rem / 3600,
                mi == (rem % 3600) / 60,
                sec == rem % 60,
                0 <= rem < 86400,
        ;
    }
    let mut y: i64 = 1970;
    let mut acc: i64 = 0;
    while y < 9999 && days - acc >= days_in_year(y)
        invariant
            1970 <= y <= 9999,
            acc == spec_days_before_year(y as int),
            0 <= acc <= days,
            days <= ts,
        decreases 9999 - y,
    {
        acc = acc + days_in_year(y);
        y = y + 1;
    }
    if days - acc >= days_in_year(y) {
        proof {
            lemma_months_sum(9999);
            assert(spec_days_before_month(9999, 13) == spec_days_before_month(9999, 12) + 31);
            assert(spec_days_before_year(10000) == spec_days_before_year(9999)
                + spec_days_in_year(9999));
            assert(days >= spec_days_before_year(10000));
            assert(spec_epoch(9999, 12, 31, 23, 59, 59) == spec_days_before_year(10000) * 86400
                - 1) by {
                assert((spec_days_before_year(9999) + spec_days_before_month(9999, 12) + 30)
                    == spec_days_before_year(10000) - 1);
                assert((spec_days_before_year(10000) - 1) * 86400 + 23 * 3600 + 59 * 60 + 59
                    == spec_days_before_year(10000) * 86400 - 1) by (nonlinear_arith);
            }
            assert(ts >= days * 86400);
            assert(ts >= spec_days_before_year(10000) * 86400) by (nonlinear_arith)
                requires
                    ts >= days * 86400,
                    days >= spec_days_before_year(10000),
            ;
        }
        return Err(Error::ValueError);
    }
    let day_of_year = days - acc;
    let mut m: i64 = 1;
    let mut macc: i64 = 0;
    while m < 12 && day_of_year - macc >= days_in_month(y, m)
        invariant
            1 <= m <= 12,
            y >= 1970,
            macc == spec_days_before_month(y as int, m as int),
            0 <= macc <= day_of_year,
        decreases 12 - m,
    {
        macc = macc + days_in_month(y, m);
        m = m + 1;
    }
    proof {
        if m == 12 {
            lemma_months_sum(y as int);
        }
    }
    let d = day_of_year - macc + 1;
    Ok((y, m, d, h, mi, sec))
}

fn push_two_digits(out: &mut String, n: i64)
    requires
        0 <= n <= 99,
    ensures
        final(out)@ == old(out)@ + seq![
            crate::rawblock::spec_digit_char(n as int / 10),
            crate::rawblock::spec_digit_char(n as int % 10),
        ],
        spec_digit_val(final(out)@[final(out)@.len() - 2]) == n / 10,
        spec_digit_val(final(out)@[final(out)@.len() - 1]) == n % 10,
{
    out.append(digit_str2(n / 10));
    out.append(digit_str2(n % 10));
    proof {
        lemma_digit_chars_invert(n as int / 10);
        lemma_digit_chars_invert(n as int % 10);
    }
}

fn digit_str2(d: i64) -> (r: &'static str)
    requires
        0 <= d <= 9,
    ensures
        r@ == seq![crate::rawblock::spec_digit_char(d as int)],
{
    proof {
        reveal_strlit("0");
        reveal_strlit("1");
        reveal_strlit("2");
        reveal_strlit("3");
        reveal_strlit("4");
        reveal_strlit("5");
        reveal_strlit("6");
        reveal_strlit("7");
        reveal_strlit("8");
        reveal_strlit("9");
    }
    match d {
        0 => "0",
        1 => "1",
        2 => "2",
        3 => "3",
        4 => "4",
        5 => "5",
        6 => "6",
        7 => "7",
        8 => "8",
        _ => "9",
    }
}

/// Reading back the digit character of a value gives the value.
proof fn lemma_digit_chars_invert(d: int)
    requires
        0 <= d <= 9,
    ensures
        spec_digit_val(crate::rawblock::spec_digit_char(d)) == d,
{
}

/// Write an epoch second as `yyyy-mm-ddThh:mm:ss`. The result parses back
/// to the same instant; an instant before the epoch or past the
/// representable years is a value error.
pub fn timestamp_string(ts: i64) -> (r: Result<String, Error>)
    ensures
        match r {
            Ok(s) => spec_ts_format_ok(s@) && spec_epoch_of(s@) == ts,
            Err(e) => e == Error::ValueError && (ts < 0 || ts > spec_epoch(
                9999,
                12,
                31,
                23,
                59,
                59,
            )),
        },
{
    if ts < 0 {
        return Err(Error::ValueError);
    }
    let (y, m, d, h, mi, sec) = civil_of(ts)?;
    let mut out = String::new();
    push_four_digits(&mut out, y);
    out.append("-");
    push_two_digits(&mut out, m);
    out.append("-");
    push_two_digits(&mut out, d);
    out.append("T");
    push_two_digits(&mut out, h);
    out.append(":");
    push_two_digits(&mut out, mi);
    out.append(":");
    push_two_digits(&mut out, sec);
    proof {
        reveal_strlit("-");
        reveal_strlit("T");
        reveal_strlit(":");
        lemma_digit_chars_invert(y as int / 1000);
        lemma_digit_chars_invert((y as int / 100) % 10);
        lemma_digit_chars_invert((y as int / 10) % 10);
        lemma_digit_chars_invert(y as int % 10);
        assert(spec_num4(out@, 0) == y) by {
            assert(1000 * (y as int / 1000) + 100 * ((y as int / 100) % 10) + 10 * ((y as int
                / 10) % 10) + y as int % 10 == y) by (nonlinear_arith)
                requires
                    0 <= y <= 9999,
            ;
        }
        assert(spec_num2(out@, 5) == m) by {
            assert(10 * (m as int / 10) + m as int % 10 == m);
        }
        assert(spec_num2(out@, 8) == d);
        assert(spec_num2(out@, 11) == h);
        assert(spec_num2(out@, 14) == mi);
        assert(spec_num2(out@, 17) == sec);
    }
    Ok(out)
}

fn push_four_digits(out: &mut String, n: i64)
    requires
        0 <= n <= 9999,
    ensures
        final(out)@ == old(out)@ + seq![
            crate::rawblock::spec_digit_char(n as int / 1000),
            crate::rawblock::spec_digit_char((n as int / 100) % 10),
            crate::rawblock::spec_digit_char((n as int / 10) % 10),
            crate::rawblock::spec_digit_char(n as int % 10),
        ],
{
    out.append(digit_str2(n / 1000));
    out.append(digit_str2((n / 100) % 10));
    out.append(digit_str2((n / 10) % 10));
    out.append(digit_str2(n % 10));
}

/// Write the date part of an epoch second as `yyyy-mm-dd`.
pub fn date_string(ts: i64) -> (r: Result<String, Error>)
    ensures
        match r {
            Ok(s) => {
                &&& s@.len() == 10
                &&& s@[4] == '-' && s@[7] == '-'
                &&& spec_valid_datetime(
                    spec_num4(s@, 0),
                    spec_num2(s@, 5),
                    spec_num2(s@, 8),
                    0,
                    0,
                    0,
                )
                &&& spec_epoch(spec_num4(s@, 0), spec_num2(s@, 5), spec_num2(s@, 8), 0, 0, 0)
                    <= ts < spec_epoch(spec_num4(s@, 0), spec_num2(s@, 5), spec_num2(s@, 8), 24, 0, 0)
            },
            Err(e) => e == Error::ValueError && (ts < 0 || ts > spec_epoch(
                9999,
                12,
                31,
                23,
                59,
                59,
            )),
        },
{
    if ts < 0 {
        return Err(Error::ValueError);
    }
    let (y, m, d, h, mi, sec) = civil_of(ts)?;
    let mut out = String::new();
    push_four_digits(&mut out, y);
    out.append("-");
    push_two_digits(&mut out, m);
    out.append("-");
    push_two_digits(&mut out, d);
    proof {
        reveal_strlit("-");
        lemma_digit_chars_invert(y as int / 1000);
        lemma_digit_chars_invert((y as int / 100) % 10);
        lemma_digit_chars_invert((y as int / 10) % 10);
        lemma_digit_chars_invert(y as int % 10);
        assert(spec_num4(out@, 0) == y) by {
            assert(1000 * (y as int / 1000) + 100 * ((y as int / 100) % 10) + 10 * ((y as int
                / 10) % 10) + y as int % 10 == y) by (nonlinear_arith)
                requires
                    0 <= y <= 9999,
            ;
        }
        assert(spec_num2(out@, 5) == m);
        assert(spec_num2(out@, 8) == d);
        assert(h * 3600 + mi * 60 + sec < 24 * 3600);
    }
    Ok(out)
}

} // verus!
