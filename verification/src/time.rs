//! Instants and the database tick clock.
//!
//! Instants are nanoseconds since the Unix epoch (UTC), signed 64 bits. The
//! client wire protocol writes instants as `YYYY-MM-DD HH:MM:SS` in UTC;
//! [`parse_datetime`] turns that text into an instant using the proleptic
//! Gregorian calendar.

use vstd::prelude::*;
use vstd::string::StrSliceExecFns;

verus! {

/// True for leap years of the proleptic Gregorian calendar.
pub open spec fn is_leap_year(y: int) -> bool {
    y % 4 == 0 && (y % 100 != 0 || y % 400 == 0)
}

/// The number of days in a year.
pub open spec fn days_in_year(y: int) -> int {
    if is_leap_year(y) {
        366
    } else {
        365
    }
}

/// The number of days in a month.
pub open spec fn days_in_month(y: int, m: int) -> int {
    if m == 2 {
        if is_leap_year(y) {
            29
        } else {
            28
        }
    } else if m == 4 || m == 6 || m == 9 || m == 11 {
        30
    } else {
        31
    }
}

/// Days from the first day of year 1 to the first day of the given year.
pub open spec fn days_before_year(y: int) -> int
    decreases y,
{
    if y <= 1 {
        0
    } else {
        days_before_year(y - 1) + days_in_year(y - 1)
    }
}

/// Days from the first day of the year to the first day of the given month.
pub open spec fn days_before_month(y: int, m: int) -> int
    decreases m,
{
    if m <= 1 {
        0
    } else {
        days_before_month(y, m - 1) + days_in_month(y, m - 1)
    }
}

/// Days from the first day of year 1 to the given date.
pub open spec fn civil_days(y: int, m: int, d: int) -> int {
    days_before_year(y) + days_before_month(y, m) + d - 1
}

/// Seconds from the Unix epoch to the given UTC date and time.
pub open spec fn datetime_seconds(y: int, m: int, d: int, h: int, mi: int, s: int) -> int {
    (civil_days(y, m, d) - civil_days(1970, 1, 1)) * 86400 + h * 3600 + mi * 60 + s
}

/// True when the fields form a valid calendar date and time of day.
pub open spec fn valid_datetime(y: int, m: int, d: int, h: int, mi: int, s: int) -> bool {
    &&& 1 <= y <= 9999
    &&& 1 <= m <= 12
    &&& 1 <= d <= days_in_month(y, m)
    &&& 0 <= h < 24
    &&& 0 <= mi < 60
    &&& 0 <= s < 60
}

/// The value of a decimal digit character.
pub open spec fn digit(c: char) -> int {
    c as int - 48
}

/// True for decimal digit characters.
pub open spec fn is_digit(c: char) -> bool {
    '0' <= c && c <= '9'
}

/// True when the text has the shape `YYYY-MM-DD HH:MM:SS`.
pub open spec fn datetime_shape(t: Seq<char>) -> bool {
    &&& t.len() == 19
    &&& is_digit(t[0]) && is_digit(t[1]) && is_digit(t[2]) && is_digit(t[3])
    &&& t[4] == '-'
    &&& is_digit(t[5]) && is_digit(t[6])
    &&& t[7] == '-'
    &&& is_digit(t[8]) && is_digit(t[9])
    &&& t[10] == ' '
    &&& is_digit(t[11]) && is_digit(t[12])
    &&& t[13] == ':'
    &&& is_digit(t[14]) && is_digit(t[15])
    &&& t[16] == ':'
    &&& is_digit(t[17]) && is_digit(t[18])
}

/// The year field of a well-shaped text.
pub open spec fn field_year(t: Seq<char>) -> int {
    digit(t[0]) * 1000 + digit(t[1]) * 100 + digit(t[2]) * 10 + digit(t[3])
}

/// A two-digit field of a well-shaped text, starting at the given position.
pub open spec fn field2(t: Seq<char>, at: int) -> int {
    digit(t[at]) * 10 + digit(t[at + 1])
}

/// The instant written by a text, in nanoseconds since the epoch: the text
/// must have the shape `YYYY-MM-DD HH:MM:SS`, name a valid date and time, and
/// denote an instant representable in signed 64-bit nanoseconds.
pub open spec fn parse_dt(t: Seq<char>) -> Option<i64> {
    if datetime_shape(t) && valid_datetime(
        field_year(t),
        field2(t, 5),
        field2(t, 8),
        field2(t, 11),
        field2(t, 14),
        field2(t, 17),
    ) {
        let secs = datetime_seconds(
            field_year(t),
            field2(t, 5),
            field2(t, 8),
            field2(t, 11),
            field2(t, 14),
            field2(t, 17),
        );
        if -9_223_372_036 <= secs <= 9_223_372_036 {
            Some((secs * 1_000_000_000) as i64)
        } else {
            None
        }
    } else {
        None
    }
}

/// Days before a year are bounded by 366 days per elapsed year.
pub proof fn lemma_days_before_year_bound(y: int)
    requires
        1 <= y,
    ensures
        0 <= days_before_year(y) <= 366 * (y - 1),
    decreases y,
{
    if y > 1 {
        lemma_days_before_year_bound(y - 1);
    }
}

/// Days before a month are bounded by 31 days per elapsed month.
pub proof fn lemma_days_before_month_bound(y: int, m: int)
    requires
        1 <= m <= 13,
    ensures
        0 <= days_before_month(y, m) <= 31 * (m - 1),
    decreases m,
{
    if m > 1 {
        lemma_days_before_month_bound(y, m - 1);
    }
}

/// Count the days from the first day of year 1 to the first day of a year.
fn days_before_year_exec(y: u32) -> (r: u32)
    requires
        1 <= y <= 9999,
    ensures
        r == days_before_year(y as int),
{
    let mut acc: u32 = 0;
    let mut cur: u32 = 1;
    proof {
        lemma_days_before_year_bound(y as int);
    }
    while cur < y
        invariant
            1 <= cur <= y <= 9999,
            acc == days_before_year(cur as int),
            0 <= acc <= 366 * (cur - 1),
        decreases y - cur,
    {
        proof {
            lemma_days_before_year_bound(cur as int);
        }
        let leap = (cur % 4 == 0 && (cur % 100 != 0 || cur % 400 == 0));
        acc = acc + (if leap {
            366
        } else {
            365
        });
        cur = cur + 1;
    }
    acc
}

/// Count the days from the first day of a year to the first day of a month.
fn days_before_month_exec(y: u32, m: u32) -> (r: u32)
    requires
        1 <= m <= 12,
    ensures
        r == days_before_month(y as int, m as int),
{
    let mut acc: u32 = 0;
    let mut cur: u32 = 1;
    proof {
        lemma_days_before_month_bound(y as int, m as int);
    }
    while cur < m
        invariant
            1 <= cur <= m <= 12,
            acc == days_before_month(y as int, cur as int),
            0 <= acc <= 31 * (cur - 1),
        decreases m - cur,
    {
        acc = acc + days_in_month_exec(y, cur);
        cur = cur + 1;
    }
    acc
}

/// The number of days in a month.
fn days_in_month_exec(y: u32, m: u32) -> (r: u32)
    requires
        1 <= m <= 12,
    ensures
        r == days_in_month(y as int, m as int),
        28 <= r <= 31,
{
    if m == 2 {
        if y % 4 == 0 && (y % 100 != 0 || y % 400 == 0) {
            29
        } else {
            28
        }
    } else if m == 4 || m == 6 || m == 9 || m == 11 {
        30
    } else {
        31
    }
}

/// Read a decimal digit character.
fn digit_exec(c: char) -> (r: Option<u32>)
    ensures
        r is Some <==> is_digit(c),
        r is Some ==> r.unwrap() == digit(c) && r.unwrap() <= 9,
{
    let v = c as u32;
    if 48 <= v && v <= 57 {
        Some(v - 48)
    } else {
        None
    }
}

/// Parse a UTC date and time written as `YYYY-MM-DD HH:MM:SS` into an instant
/// in nanoseconds since the Unix epoch. Fails exactly when the text does not
/// have that shape, does not name a valid date and time, or denotes an
/// instant outside the signed 64-bit nanosecond range.
pub fn parse_datetime(text: &str) -> (r: Result<i64, ()>)
    ensures
        r is Ok <==> parse_dt(text@) is Some,
        r is Ok ==> r.unwrap() == parse_dt(text@).unwrap(),
{
    if text.unicode_len() != 19 {
        return Err(());
    }
    // Separators.
    if text.get_char(4) != '-' || text.get_char(7) != '-' || text.get_char(10) != ' '
        || text.get_char(13) != ':' || text.get_char(16) != ':' {
        return Err(());
    }
    let d0 = digit_exec(text.get_char(0));
    let d1 = digit_exec(text.get_char(1));
    let d2 = digit_exec(text.get_char(2));
    let d3 = digit_exec(text.get_char(3));
    let m0 = digit_exec(text.get_char(5));
    let m1 = digit_exec(text.get_char(6));
    let dd0 = digit_exec(text.get_char(8));
    let dd1 = digit_exec(text.get_char(9));
    let h0 = digit_exec(text.get_char(11));
    let h1 = digit_exec(text.get_char(12));
    let mi0 = digit_exec(text.get_char(14));
    let mi1 = digit_exec(text.get_char(15));
    let s0 = digit_exec(text.get_char(17));
    let s1 = digit_exec(text.get_char(18));
    let (y, m, d, h, mi, s) = match (d0, d1, d2, d3, m0, m1, dd0, dd1, h0, h1, mi0, mi1, s0, s1) {
        (
            Some(a),
            Some(b),
            Some(c),
            Some(d),
            Some(e),
            Some(f),
            Some(g),
            Some(h_),
            Some(i),
            Some(j),
            Some(k),
            Some(l),
            Some(m_),
            Some(n),
        ) => (
            a * 1000 + b * 100 + c * 10 + d,
            e * 10 + f,
            g * 10 + h_,
            i * 10 + j,
            k * 10 + l,
            m_ * 10 + n,
        ),
        _ => {
            return Err(());
        },
    };
    if y < 1 || m < 1 || m > 12 || d < 1 || d > days_in_month_exec(y, m) || h > 23 || mi > 59
        || s > 59 {
        return Err(());
    }
    proof {
        lemma_days_before_year_bound(y as int);
        lemma_days_before_month_bound(y as int, m as int);
        lemma_days_before_year_bound(1970);
        lemma_days_before_month_bound(1970, 1);
    }
    let days = days_before_year_exec(y) + days_before_month_exec(y, m) + d - 1;
    let epoch_days = days_before_year_exec(1970);
    let secs: i64 = ((days as i64) - (epoch_days as i64)) * 86400 + (h as i64) * 3600 + (mi
        as i64) * 60 + (s as i64);
    if secs < -9_223_372_036 || secs > 9_223_372_036 {
        return Err(());
    }
    Ok(secs * 1_000_000_000)
}

/// A clock pacing the database loop at a configured number of ticks per
/// second.
pub struct Clock {
    pub framerate: u16,
}

impl Clock {
    /// Create a new clock, ticking at the given framerate (in ticks per
    /// second).
    pub fn with_framerate(framerate: u16) -> (r: Self)
        ensures
            r.framerate == framerate,
    {
        Clock { framerate }
    }

    /// The length of one tick, in nanoseconds: the caller sleeps for what is
    /// left of it after the work of the tick.
    pub fn tick_nanos(&self) -> (r: u32)
        requires
            self.framerate >= 1,
        ensures
            r == 1_000_000_000u32 / self.framerate as u32,
    {
        1_000_000_000u32 / (self.framerate as u32)
    }
}

/// Relies on chrono's Utc::now: the current UTC instant in nanoseconds since
/// the Unix epoch. Nothing is assumed of the value: time moves on its own.
#[verifier::external_body]
pub fn now_nanos() -> i64 {
    chrono::Utc::now().timestamp_nanos_opt().unwrap_or(i64::MAX)
}

} // verus!
