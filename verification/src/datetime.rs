//! Reading deadlines: ISO-8601-like timestamps to seconds since the epoch.
use vstd::prelude::*;
use vstd::string::*;
use vstd::utf8::encode_utf8;
use crate::digits::{decimal_chars, decimal_digits};
use crate::text::{string_from_chars, 
    chars_of, find_first, find_last, first_index, last_index, split_chars, split_on, sub_chars,
    trim_bounds, trim_chars,
};

verus! {

/// Whether `c` is an ASCII digit.
pub open spec fn is_digit(c: char) -> bool {
    48 <= c as u32 <= 57
}

/// The value of a string of ASCII digits.
pub open spec fn digits_value(s: Seq<char>) -> int
    decreases s.len(),
{
    if s.len() == 0 {
        0
    } else {
        digits_value(s.drop_last()) * 10 + (s.last() as u32 - 48)
    }
}

/// Whether every character is an ASCII digit.
pub open spec fn all_digits(s: Seq<char>) -> bool {
    forall|k: int| 0 <= k < s.len() ==> is_digit(#[trigger] s[k])
}

/// Whether the text starts with a minus sign.
pub open spec fn has_minus(s: Seq<char>) -> bool {
    s.len() > 0 && s[0] == '-'
}

/// The text after an optional leading sign.
pub open spec fn unsigned_part(s: Seq<char>) -> Seq<char> {
    if s.len() > 0 && (s[0] == '-' || s[0] == '+') {
        s.drop_first()
    } else {
        s
    }
}

/// What `str::parse::<i64>` gives: an optional `+` or `-`, then one or more
/// ASCII digits, and a value within `i64`; anything else is an error.
pub open spec fn parse_i64_spec(s: Seq<char>) -> Option<i64> {
    let body = unsigned_part(s);
    let v = if has_minus(s) {
        -digits_value(body)
    } else {
        digits_value(body)
    };
    if body.len() == 0 || !all_digits(body) || v < i64::MIN || v > i64::MAX {
        None
    } else {
        Some(v as i64)
    }
}

proof fn lemma_digits_value_grows(s: Seq<char>, i: int)
    requires
        0 <= i <= s.len(),
        all_digits(s),
    ensures
        0 <= digits_value(s.take(i)) <= digits_value(s),
    decreases s.len(),
{
    if s.len() > 0 {
        if i < s.len() {
            lemma_digits_value_grows(s.drop_last(), i);
            assert(s.drop_last().take(i) =~= s.take(i));
        } else {
            assert(s.take(i) =~= s);
            lemma_digits_value_grows(s.drop_last(), i - 1);
            assert(s.drop_last().take(i - 1) =~= s.drop_last());
        }
    }
}

/// Parses a decimal integer as `str::parse::<i64>` does.
pub fn parse_i64(s: &Vec<char>) -> (r: Option<i64>)
    ensures
        r == parse_i64_spec(s@),
{
    let n = s.len();
    let negative = n > 0 && s[0] == '-';
    let signed = n > 0 && (s[0] == '-' || s[0] == '+');
    let start: usize = if signed {
        1
    } else {
        0
    };
    let ghost body = unsigned_part(s@);
    assert(body =~= s@.subrange(start as int, n as int));
    assert(negative == has_minus(s@));
    if start == n {
        return None;
    }
    let limit: u128 = 0x8000_0000_0000_0000;
    let mut magnitude: u128 = 0;
    let mut i: usize = start;
    assert(body.take(0) =~= Seq::<char>::empty());
    while i < n
        invariant
            start <= i <= n,
            n == s.len(),
            body == s@.subrange(start as int, n as int),
            body == unsigned_part(s@),
            magnitude as int == digits_value(body.take(i - start)),
            magnitude <= limit,
            limit == 0x8000_0000_0000_0000u128,
            forall|k: int| 0 <= k < i - start ==> is_digit(#[trigger] body[k]),
        decreases n - i,
    {
        let c = s[i];
        let code = c as u32;
        if code < 48 || code > 57 {
            assert(body[i - start] == c);
            assert(!all_digits(body));
            return None;
        }
        let d = (code - 48) as u128;
        magnitude = magnitude * 10 + d;
        assert(body.take(i - start + 1).drop_last() =~= body.take(i - start));
        assert(body.take(i - start + 1).last() == c);
        i = i + 1;
        if magnitude > limit {
            proof {
                if all_digits(body) {
                    lemma_digits_value_grows(body, i - start);
                }
            }
            return None;
        }
    }
    assert(body.take(n - start) =~= body);
    assert(all_digits(body));
    if negative {
        if magnitude == limit {
            Some(i64::MIN)
        } else {
            Some(-(magnitude as i64))
        }
    } else {
        if magnitude == limit {
            None
        } else {
            Some(magnitude as i64)
        }
    }
}

/// Division rounding toward zero, as Rust's integer `/` does.
pub open spec fn trunc_div(x: int, d: int) -> int {
    if x >= 0 {
        x / d
    } else {
        -((-x) / d)
    }
}

/// Seconds since 1970-01-01T00:00:00 of a calendar date and time, by the
/// Julian day number (all divisions round toward zero).
pub open spec fn epoch_seconds(year: int, month: int, day: int, hour: int, minute: int, second: int) -> int {
    let a = trunc_div(14 - month, 12);
    let y = year + 4800 - a;
    let m = month + 12 * a - 3;
    let jdn = day + trunc_div(153 * m + 2, 5) + 365 * y + trunc_div(y, 4) - trunc_div(y, 100)
        + trunc_div(y, 400) - 32045;
    (jdn - 2440588) * 86400 + hour * 3600 + minute * 60 + second
}

/// The date-time part of a trimmed timestamp: before the last `Z`, else
/// before the first `+`, else before the last `-` when that `-` lies more
/// than 10 bytes in, else all of it.
pub open spec fn datetime_body(t: Seq<char>) -> Seq<char> {
    match last_index(t, 'Z') {
        Some(k) => t.take(k),
        None => match first_index(t, '+') {
            Some(k) => t.take(k),
            None => match last_index(t, '-') {
                Some(k) => if encode_utf8(t.take(k)).len() > 10 {
                    t.take(k)
                } else {
                    t
                },
                None => t,
            },
        },
    }
}

/// The seconds a timestamp such as `2030-01-05T12:00:00Z` denotes, or
/// `None` when it cannot be read: the date-time part must be at least 19
/// bytes long, hold exactly one `T`, a date of three `-`-separated
/// integers and a time of at least two `:`-separated integers (the third, if
/// any, is the seconds; further fields are ignored).
pub open spec fn parse_iso_spec(iso: Seq<char>) -> Option<int> {
    let body = datetime_body(trim_chars(iso));
    let parts = split_on(body, 'T');
    if encode_utf8(body).len() < 19 || parts.len() != 2 {
        None
    } else {
        let date = split_on(parts[0], '-');
        let time = split_on(parts[1], ':');
        if date.len() != 3 || time.len() < 2 {
            None
        } else {
            let second = if time.len() >= 3 {
                parse_i64_spec(time[2])
            } else {
                Some(0i64)
            };
            match (
                parse_i64_spec(date[0]),
                parse_i64_spec(date[1]),
                parse_i64_spec(date[2]),
                parse_i64_spec(time[0]),
                parse_i64_spec(time[1]),
                second,
            ) {
                (Some(y), Some(mo), Some(d), Some(h), Some(mi), Some(s)) => Some(
                    epoch_seconds(y as int, mo as int, d as int, h as int, mi as int, s as int),
                ),
                _ => None,
            }
        }
    }
}

/// The length of the UTF-8 encoding, as `str::len` gives it.
fn byte_len(s: &str) -> (n: usize)
    ensures
        n == encode_utf8(s@).len(),
{
    broadcast use vstd::slice::group_slice_axioms;

    s.as_bytes().len()
}

fn div_toward_zero(x: i128, d: i128) -> (r: i128)
    requires
        d > 0,
        x > i128::MIN,
    ensures
        r == trunc_div(x as int, d as int),
{
    if x >= 0 {
        x / d
    } else {
        -((-x) / d)
    }
}

/// Computes [`epoch_seconds`] exactly.
pub fn epoch_seconds_of(year: i64, month: i64, day: i64, hour: i64, minute: i64, second: i64) -> (r:
    i128)
    ensures
        r == epoch_seconds(
            year as int,
            month as int,
            day as int,
            hour as int,
            minute as int,
            second as int,
        ),
{
    let year = year as i128;
    let month = month as i128;
    let a = div_toward_zero(14 - month, 12);
    let y = year + 4800 - a;
    let m = month + 12 * a - 3;
    let jdn = day as i128 + div_toward_zero(153 * m + 2, 5) + 365 * y + div_toward_zero(y, 4)
        - div_toward_zero(y, 100) + div_toward_zero(y, 400) - 32045;
    (jdn - 2440588) * 86400 + hour as i128 * 3600 + minute as i128 * 60 + second as i128
}

/// Reads a deadline timestamp as seconds since the epoch (see
/// [`parse_iso_spec`]). Where a field is so large that the arithmetic would
/// leave `i64`, the exact value is still returned.
pub fn parse_iso_to_secs(iso: &str) -> (r: Result<i128, ()>)
    ensures
        match r {
            Ok(v) => parse_iso_spec(iso@) == Some(v as int),
            Err(_) => parse_iso_spec(iso@) == None::<int>,
        },
{
    let chars = chars_of(iso);
    let (lo, hi) = trim_bounds(&chars);
    let t = sub_chars(&chars, lo, hi);
    let cut: usize = match find_last(&t, 'Z') {
        Some(k) => k,
        None => match find_first(&t, '+') {
            Some(k) => k,
            None => match find_last(&t, '-') {
                Some(k) => {
                    let prefix = iso.substring_char(lo, lo + k);
                    assert(prefix@ =~= t@.take(k as int));
                    if byte_len(prefix) > 10 {
                        k
                    } else {
                        t.len()
                    }
                },
                None => t.len(),
            },
        },
    };
    let body = sub_chars(&t, 0, cut);
    assert(body@ =~= datetime_body(trim_chars(iso@))) by {
        assert(t@.take(t@.len() as int) =~= t@);
    }
    let whole = iso.substring_char(lo, lo + cut);
    assert(whole@ =~= body@);
    if byte_len(whole) < 19 {
        return Err(());
    }
    let parts = split_chars(&body, 'T');
    if parts.len() != 2 {
        return Err(());
    }
    let date = split_chars(&parts[0], '-');
    let time = split_chars(&parts[1], ':');
    if date.len() != 3 || time.len() < 2 {
        return Err(());
    }
    let year = parse_i64(&date[0]);
    let month = parse_i64(&date[1]);
    let day = parse_i64(&date[2]);
    let hour = parse_i64(&time[0]);
    let minute = parse_i64(&time[1]);
    let second = if time.len() >= 3 {
        parse_i64(&time[2])
    } else {
        Some(0)
    };
    match (year, month, day, hour, minute, second) {
        (Some(y), Some(mo), Some(d), Some(h), Some(mi), Some(s)) => Ok(
            epoch_seconds_of(y, mo, d, h, mi, s),
        ),
        _ => Err(()),
    }
}

/// The calendar date (year, month, day) of a day counted from 1970-01-01,
/// by the era-based civil-from-days conversion (proleptic Gregorian).
pub open spec fn civil_from_days(days: nat) -> (int, int, int) {
    let z = days + 719468;
    let era = z / 146097;
    let doe = z % 146097;
    let yoe = (doe - doe / 1460 + doe / 36524 - doe / 146096) / 365;
    let y = yoe + era * 400;
    let doy = doe - (365 * yoe + yoe / 4 - yoe / 100);
    let mp = (5 * doy + 2) / 153;
    let d = doy - (153 * mp + 2) / 5 + 1;
    let m = if mp < 10 {
        mp + 3
    } else {
        mp - 9
    };
    (if m <= 2 {
        y + 1
    } else {
        y
    }, m, d)
}

/// `v` in decimal, left-padded with zeros to at least `width` digits.
pub open spec fn padded(v: nat, width: nat) -> Seq<char> {
    let digits = decimal_chars(v);
    if digits.len() < width {
        Seq::new((width - digits.len()) as nat, |k: int| '0') + digits
    } else {
        digits
    }
}

/// The timestamp `YYYY-MM-DDTHH:MM:SSZ` of `secs` seconds after the epoch.
pub open spec fn iso_text(secs: nat) -> Seq<char> {
    let (y, m, d) = civil_from_days(secs / 86400);
    let rest = secs % 86400;
    padded(y as nat, 4) + seq!['-'] + padded(m as nat, 2) + seq!['-'] + padded(d as nat, 2)
        + seq!['T'] + padded(rest / 3600, 2) + seq![':'] + padded(rest % 3600 / 60, 2) + seq![':']
        + padded(rest % 60, 2) + seq!['Z']
}

fn padded_digits(v: u64, width: usize) -> (r: Vec<char>)
    ensures
        r@ == padded(v as nat, width as nat),
{
    let mut digits = decimal_digits(v);
    if digits.len() >= width {
        return digits;
    }
    let mut r: Vec<char> = Vec::new();
    let fill = width - digits.len();
    let mut k: usize = 0;
    while k < fill
        invariant
            k <= fill,
            r@ == Seq::new(k as nat, |j: int| '0'),
        decreases fill - k,
    {
        r.push('0');
        assert(r@ =~= Seq::new((k + 1) as nat, |j: int| '0'));
        k = k + 1;
    }
    r.append(&mut digits);
    r
}

fn civil_of(days: u64) -> (r: (u64, u64, u64))
    requires
        days <= u64::MAX / 86400,
    ensures
        (r.0 as int, r.1 as int, r.2 as int) == civil_from_days(days as nat),
{
    let z = days + 719468;
    let era = z / 146097;
    let doe = z % 146097;
    assert(era <= z);
    let yoe = (doe - doe / 1460 + doe / 36524 - doe / 146096) / 365;
    let y = yoe + era * 400;
    let doy = doe - (365 * yoe + yoe / 4 - yoe / 100);
    let mp = (5 * doy + 2) / 153;
    let d = doy - (153 * mp + 2) / 5 + 1;
    let m = if mp < 10 {
        mp + 3
    } else {
        mp - 9
    };
    let year = if m <= 2 {
        y + 1
    } else {
        y
    };
    (year, m, d)
}

/// Writes `secs` seconds after the epoch as `YYYY-MM-DDTHH:MM:SSZ`, the form
/// deadlines are stored in.
pub fn iso_timestamp(secs: u64) -> (t: String)
    ensures
        t@ == iso_text(secs as nat),
{
    let (y, m, d) = civil_of(secs / 86400);
    let rest = secs % 86400;
    let mut chars = padded_digits(y, 4);
    chars.push('-');
    let mut part = padded_digits(m, 2);
    chars.append(&mut part);
    chars.push('-');
    let mut part = padded_digits(d, 2);
    chars.append(&mut part);
    chars.push('T');
    let mut part = padded_digits(rest / 3600, 2);
    chars.append(&mut part);
    chars.push(':');
    let mut part = padded_digits(rest % 3600 / 60, 2);
    chars.append(&mut part);
    chars.push(':');
    let mut part = padded_digits(rest % 60, 2);
    chars.append(&mut part);
    chars.push('Z');
    string_from_chars(&chars)
}

} // verus!
