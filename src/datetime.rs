//! Calendar dates and RFC 3339 date-times.
use vstd::prelude::*;

use crate::error::Error;
use crate::number::{all_digits, digits_value, has_byte, contains_byte};

verus! {

/// A calendar date; a negative year counts back before year zero.
#[derive(Debug, Clone, Copy, PartialEq, Eq, Structural)]
pub struct Date {
    pub year: i32,
    pub month: u8,
    pub day: u8,
}

/// A date and time of day with its offset from UTC.
#[derive(Debug, Clone, Copy, PartialEq, Eq, Structural)]
pub struct DateTime {
    pub year: i32,
    pub month: u8,
    pub day: u8,
    pub hour: u8,
    pub min: u8,
    pub sec: u8,
    pub nanos: u32,
    pub offset_positive: bool,
    pub offset_hours: u8,
    pub offset_mins: u8,
}

/// What `time`'s RFC 3339 parser yields for the text held by the bytes, or
/// `None` where it refuses it.
pub uninterp spec fn rfc3339_of(s: Seq<u8>) -> Option<DateTime>;

/// Relies on `time::OffsetDateTime::parse` with the `Rfc3339` description:
/// strict RFC 3339 parsing, a function of the text alone.
#[verifier::external_body]
fn parse_rfc3339(b: &[u8]) -> (r: Option<DateTime>)
    ensures
        r == rfc3339_of(b@),
{
    let s = core::str::from_utf8(b).ok()?;
    let dt = time::OffsetDateTime::parse(s, &time::format_description::well_known::Rfc3339).ok()?;
    let off = dt.offset();
    Some(DateTime {
        year: dt.year(),
        month: dt.month() as u8,
        day: dt.day(),
        hour: dt.hour(),
        min: dt.minute(),
        sec: dt.second(),
        nanos: dt.nanosecond(),
        offset_positive: !off.is_negative(),
        offset_hours: off.whole_hours().unsigned_abs(),
        offset_mins: off.minutes_past_hour().unsigned_abs(),
    })
}

/// Parses an RFC 3339 date-time such as `2020-01-02T12:54:00-05:00`.
pub fn datetime_from_bytes(s: &[u8]) -> (r: Result<DateTime, Error>)
    ensures
        r == match rfc3339_of(s@) {
            Some(dt) => Ok(dt),
            None => Err(Error::InvalidDateTime),
        },
{
    match parse_rfc3339(s) {
        Some(dt) => Ok(dt),
        None => Err(Error::InvalidDateTime),
    }
}

/// Index of the first `b` in `s` at or after `from`, or `s.len()`.
pub open spec fn find_from(s: Seq<u8>, b: u8, from: int) -> int
    decreases s.len() - from,
{
    if from >= s.len() {
        s.len() as int
    } else if s[from] == b {
        from
    } else {
        find_from(s, b, from + 1)
    }
}

proof fn lemma_find_from_bounds(s: Seq<u8>, b: u8, from: int)
    requires
        0 <= from,
    ensures
        from <= find_from(s, b, from) <= s.len() || (from > s.len() && find_from(s, b, from)
            == s.len()),
    decreases s.len() - from,
{
    if from < s.len() && s[from] != b {
        lemma_find_from_bounds(s, b, from + 1);
    }
}

fn find_byte(s: &[u8], b: u8, from: usize) -> (r: usize)
    ensures
        r == find_from(s@, b, from as int),
        from <= s@.len() ==> from <= r <= s@.len(),
        from > s@.len() ==> r == s@.len(),
{
    let mut i = from;
    if i >= s.len() {
        return s.len();
    }
    while i < s.len()
        invariant
            from <= i <= s@.len(),
            find_from(s@, b, i as int) == find_from(s@, b, from as int),
        decreases s@.len() - i,
    {
        if s[i] == b {
            return i;
        }
        i = i + 1;
    }
    i
}

pub open spec fn is_leap(year_magnitude: int) -> bool {
    year_magnitude % 4 == 0 && (year_magnitude % 100 != 0 || year_magnitude % 400 == 0)
}

pub open spec fn days_in_month(year_magnitude: int, month: int) -> int {
    if month == 2 {
        if is_leap(year_magnitude) {
            29
        } else {
            28
        }
    } else if month == 4 || month == 6 || month == 9 || month == 11 {
        30
    } else {
        31
    }
}

/// A field of decimal digits, or `None` where it holds anything else.
pub open spec fn field_value(f: Seq<u8>) -> Option<int> {
    if all_digits(f, 10) {
        Some(digits_value(f, 10))
    } else {
        None
    }
}

/// How a date reads: an optional `-`, then year, month and day separated by
/// `-`, each of decimal digits (leading zeros allowed), naming a real day.
pub open spec fn date_of(s: Seq<u8>) -> Result<Date, Error> {
    let b: int = if s.len() > 0 && s[0] == 0x2d {
        1
    } else {
        0
    };
    let i1 = find_from(s, 0x2d, b);
    let i2 = find_from(s, 0x2d, i1 + 1);
    let i3 = find_from(s, 0x2d, i2 + 1);
    if i1 == b {
        Err(Error::MissingYearInDate)
    } else if i1 >= s.len() || i2 == i1 + 1 {
        Err(Error::MissingMonthInDate)
    } else if i2 >= s.len() || i3 == i2 + 1 {
        Err(Error::MissingDayInDate)
    } else if i3 < s.len() {
        Err(Error::InvalidDate)
    } else {
        match (
            field_value(s.subrange(b, i1)),
            field_value(s.subrange(i1 + 1, i2)),
            field_value(s.subrange(i2 + 1, i3)),
        ) {
            (Some(y), Some(m), Some(d)) => if y <= i32::MAX && 1 <= m <= 12 && 1 <= d
                <= days_in_month(y, m) {
                Ok(Date { year: (if b == 1 { -y } else { y }) as i32, month: m as u8, day: d as u8 })
            } else {
                Err(Error::InvalidDate)
            },
            _ => Err(Error::InvalidDate),
        }
    }
}

fn field(s: &[u8], start: usize, end: usize) -> (r: Option<u64>)
    requires
        start <= end <= s@.len(),
    ensures
        ({
            let f = s@.subrange(start as int, end as int);
            match field_value(f) {
                Some(v) => if v <= u64::MAX { r == Some(v as u64) } else { r is None },
                None => r is None,
            }
        }),
{
    if start < end && s[start] == 0x2b {
        assert(!all_digits(s@.subrange(start as int, end as int), 10)) by {
            assert(s@.subrange(start as int, end as int)[0] == s@[start as int]);
            assert(crate::number::digit_value(s@.subrange(start as int, end as int)[0]) == 16);
        }
        return None;
    }
    let r = crate::number::parse_unsigned_radix(s, start, end, 10);
    proof {
        let f = s@.subrange(start as int, end as int);
        assert(f.len() > 0 ==> f[0] == s@[start as int]);
    }
    r
}

/// Parses a date such as `2020-01-02`.
pub fn date_from_bytes(s: &[u8]) -> (r: Result<Date, Error>)
    ensures
        r == date_of(s@),
{
    let n = s.len();
    let b: usize = if n > 0 && s[0] == 0x2d {
        1
    } else {
        0
    };
    let i1 = find_byte(s, 0x2d, b);
    if i1 == b {
        return Err(Error::MissingYearInDate);
    }
    if i1 >= n {
        return Err(Error::MissingMonthInDate);
    }
    let i2 = find_byte(s, 0x2d, i1 + 1);
    if i2 == i1 + 1 {
        return Err(Error::MissingMonthInDate);
    }
    if i2 >= n {
        return Err(Error::MissingDayInDate);
    }
    let i3 = find_byte(s, 0x2d, i2 + 1);
    if i3 == i2 + 1 {
        return Err(Error::MissingDayInDate);
    }
    if i3 < n {
        return Err(Error::InvalidDate);
    }
    let y = field(s, b, i1);
    let m = field(s, i1 + 1, i2);
    let d = field(s, i2 + 1, i3);
    proof {
        crate::number::lemma_field_nonneg(s@.subrange(b as int, i1 as int));
        crate::number::lemma_field_nonneg(s@.subrange(i1 + 1, i2 as int));
        crate::number::lemma_field_nonneg(s@.subrange(i2 + 1, i3 as int));
    }
    match (y, m, d) {
        (Some(y), Some(m), Some(d)) => {
            if y <= i32::MAX as u64 && 1 <= m && m <= 12 && 1 <= d {
                let leap = y % 4 == 0 && (y % 100 != 0 || y % 400 == 0);
                let dim: u64 = if m == 2 {
                    if leap {
                        29
                    } else {
                        28
                    }
                } else if m == 4 || m == 6 || m == 9 || m == 11 {
                    30
                } else {
                    31
                };
                if d <= dim {
                    let year: i32 = if b == 1 {
                        -(y as i32)
                    } else {
                        y as i32
                    };
                    Ok(Date { year, month: m as u8, day: d as u8 })
                } else {
                    Err(Error::InvalidDate)
                }
            } else {
                Err(Error::InvalidDate)
            }
        },
        _ => Err(Error::InvalidDate),
    }
}

} // verus!
