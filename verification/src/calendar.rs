//! The Gregorian calendar in UTC, and the timestamps of the ledger.
//!
//! Days are numbered from 1970-01-01. Timestamps have the form
//! `YYYY-MM-DDTHH:MM:SSZ`.

use crate::decimal;
use crate::text;
use vstd::prelude::*;
use vstd::slice::*;

verus! {

// ---------------------------------------------------------------------------
// Years, months, days
// ---------------------------------------------------------------------------

/// Leap years.
pub open spec fn leap(y: int) -> bool {
    y % 4 == 0 && (y % 100 != 0 || y % 400 == 0)
}

/// The number of days in a year.
pub open spec fn year_length(y: int) -> int {
    if leap(y) {
        366
    } else {
        365
    }
}

/// The number of days in a month.
pub open spec fn month_length(y: int, m: int) -> int {
    if m == 2 {
        if leap(y) {
            29
        } else {
            28
        }
    } else if m == 4 || m == 6 || m == 9 || m == 11 {
        30
    } else {
        31
    }
}

/// The number of the first day of a year.
pub open spec fn year_start(y: int) -> int
    decreases
            if y >= 1970 {
                y - 1970
            } else {
                1970 - y
            },
{
    if y == 1970 {
        0
    } else if y > 1970 {
        year_start(y - 1) + year_length(y - 1)
    } else {
        year_start(y + 1) - year_length(y)
    }
}

/// The number of days in a year before a month.
pub open spec fn month_start(y: int, m: int) -> int
    decreases m,
{
    if m <= 1 {
        0
    } else {
        month_start(y, m - 1) + month_length(y, m - 1)
    }
}

/// A date of the calendar.
pub open spec fn valid_date(y: int, m: int, d: int) -> bool {
    1 <= m <= 12 && 1 <= d <= month_length(y, m)
}

/// The number of a day.
pub open spec fn day_number(y: int, m: int, d: int) -> int {
    year_start(y) + month_start(y, m) + d - 1
}

/// A date.
pub struct DateView {
    pub year: int,
    pub month: int,
    pub day: int,
}

/// The date of a numbered day.
pub open spec fn is_date_of(c: DateView, z: int) -> bool {
    valid_date(c.year, c.month, c.day) && day_number(c.year, c.month, c.day) == z
}

/// The date of the day with number `z`.
pub open spec fn date_of(z: int) -> DateView {
    choose|c: DateView| is_date_of(c, z)
}

/// The day that year, month and day stand for if years are counted from March
/// and the months of such a year follow the pattern 31-30-31-30-31. On dates
/// of the calendar this is the number of the day; it goes on beyond them.
pub open spec fn march_count(y: int, m: int, d: int) -> int {
    let year = if m <= 2 {
        y - 1
    } else {
        y
    };
    let month = if m > 2 {
        m - 3
    } else {
        m + 9
    };
    365 * year + year / 4 - year / 100 + year / 400 + (153 * month + 2) / 5 + d - 1 - 719_468
}

/// The first day of a year in closed form.
proof fn lemma_year_start(y: int)
    ensures
        year_start(y) == 365 * y + (y - 1) / 4 - (y - 1) / 100 + (y - 1) / 400 - 719_527,
    decreases
            if y >= 1970 {
                y - 1970
            } else {
                1970 - y
            },
{
    if y > 1970 {
        lemma_year_start(y - 1);
        lemma_leap(y - 1);
    } else if y < 1970 {
        lemma_year_start(y + 1);
        lemma_leap(y);
    }
}

/// A leap year adds one to the count of leap years.
proof fn lemma_leap(y: int)
    ensures
        y / 4 - y / 100 + y / 400 == (y - 1) / 4 - (y - 1) / 100 + (y - 1) / 400 + if leap(y) {
            1int
        } else {
            0
        },
{
    assert(y % 400 == 0 ==> y % 100 == 0);
    assert(y % 100 == 0 ==> y % 4 == 0);
}

/// The days before a month.
proof fn lemma_month_start(y: int, m: int)
    requires
        1 <= m <= 13,
    ensures
        m == 1 ==> month_start(y, m) == 0,
        m == 2 ==> month_start(y, m) == 31,
        m >= 3 ==> month_start(y, m) == (153 * (m - 3) + 2) / 5 + 59 + if leap(y) {
            1int
        } else {
            0
        },
{
    reveal_with_fuel(month_start, 14);
}

/// On dates of the calendar, counting from March gives the number of the day.
pub proof fn law_march_count(y: int, m: int, d: int)
    requires
        1 <= m <= 12,
    ensures
        march_count(y, m, d) == day_number(y, m, d),
{
    lemma_year_start(y);
    lemma_leap(y);
    lemma_month_start(y, m);
}

/// Years follow one another.
proof fn lemma_year_order(a: int, b: int)
    requires
        a <= b,
    ensures
        year_start(a) + 365 * (b - a) <= year_start(b),
    decreases b - a,
{
    if a < b {
        lemma_year_order(a, b - 1);
        lemma_year_step(b - 1);
    }
}

proof fn lemma_year_step(y: int)
    ensures
        year_start(y + 1) == year_start(y) + year_length(y),
{
}

/// Months follow one another.
proof fn lemma_month_order(y: int, a: int, b: int)
    requires
        1 <= a < b <= 13,
    ensures
        month_start(y, a) + month_length(y, a) <= month_start(y, b),
    decreases b - a,
{
    if a + 1 < b {
        lemma_month_order(y, a, b - 1);
    }
}

/// A date lies within its year.
proof fn lemma_within_year(y: int, m: int, d: int)
    requires
        valid_date(y, m, d),
    ensures
        year_start(y) <= day_number(y, m, d) < year_start(y + 1),
{
    lemma_month_start(y, m);
    lemma_month_start(y, 13);
    lemma_month_order(y, m, 13);
    lemma_year_step(y);
}

/// Different dates have different numbers, and later dates greater ones.
pub proof fn law_dates_in_order(a: DateView, b: DateView)
    requires
        valid_date(a.year, a.month, a.day),
        valid_date(b.year, b.month, b.day),
    ensures
        day_number(a.year, a.month, a.day) < day_number(b.year, b.month, b.day) <==> {
            ||| a.year < b.year
            ||| a.year == b.year && a.month < b.month
            ||| a.year == b.year && a.month == b.month && a.day < b.day
        },
        day_number(a.year, a.month, a.day) == day_number(b.year, b.month, b.day) <==> a == b,
{
    lemma_within_year(a.year, a.month, a.day);
    lemma_within_year(b.year, b.month, b.day);
    if a.year < b.year {
        lemma_year_order(a.year + 1, b.year);
    } else if b.year < a.year {
        lemma_year_order(b.year + 1, a.year);
    } else if a.month < b.month {
        lemma_month_order(a.year, a.month, b.month);
    } else if b.month < a.month {
        lemma_month_order(a.year, b.month, a.month);
    }
}

/// The date of a numbered day, once known, is the one.
proof fn lemma_date_of(c: DateView, z: int)
    requires
        is_date_of(c, z),
    ensures
        date_of(z) == c,
{
    law_dates_in_order(c, date_of(z));
}

// ---------------------------------------------------------------------------
// Conversions
// ---------------------------------------------------------------------------

/// The era of 400 years that a year is in, and the year within it.
fn split_years(year: i64) -> (r: (i64, i64))
    requires
        -2_000_000_000_000_000 <= year <= 2_000_000_000_000_000,
    ensures
        year == 400 * r.0 + r.1,
        0 <= r.1 < 400,
{
    let era: i64 = if year >= 0 {
        year / 400
    } else {
        (year - 399) / 400
    };
    assert(era == (year as int) / 400);
    (era, year - era * 400)
}

/// The era of 400 years that a day is in, and the day within it.
fn split_days(s: i64) -> (r: (i64, i64))
    requires
        -2_000_000_000_000_000 <= s <= 2_000_000_000_000_000,
    ensures
        s == 146_097 * r.0 + r.1,
        0 <= r.1 < 146_097,
{
    let era: i64 = if s >= 0 {
        s / 146_097
    } else {
        (s - 146_096) / 146_097
    };
    assert(era == (s as int) / 146_097);
    (era, s - era * 146_097)
}

/// The leap years before a year, by eras.
proof fn lemma_era(year: int, era: int, yoe: int)
    requires
        year == 400 * era + yoe,
        0 <= yoe < 400,
    ensures
        year / 4 == 100 * era + yoe / 4,
        year / 100 == 4 * era + yoe / 100,
        year / 400 == era,
{
}

/// The day that a date stands for. On dates of the calendar this is the
/// number of the day; months and days out of range count on.
pub fn days_from_civil(y: i64, m: i64, d: i64) -> (r: i64)
    requires
        -1_000_000_000_000_000 <= y <= 1_000_000_000_000_000,
        -9 <= m <= 1_000_000_000_000_000,
        -1_000_000_000_000_000 <= d <= 1_000_000_000_000_000,
    ensures
        r == march_count(y as int, m as int, d as int),
        1 <= m <= 12 ==> r == day_number(y as int, m as int, d as int),
{
    let year: i64 = if m <= 2 {
        y - 1
    } else {
        y
    };
    let (era, yoe) = split_years(year);
    proof {
        lemma_era(year as int, era as int, yoe as int);
    }
    let month: i64 = if m > 2 {
        m - 3
    } else {
        m + 9
    };
    let doy: i64 = (153 * month + 2) / 5 + d - 1;
    let doe: i64 = yoe * 365 + yoe / 4 - yoe / 100 + doy;
    proof {
        if 1 <= m <= 12 {
            law_march_count(y as int, m as int, d as int);
        }
    }
    era * 146_097 + doe - 719_468
}

/// The year within an era of 400 years, counted from March, of a day within
/// the era.
proof fn lemma_year_of_era(doe: int, yoe: int)
    requires
        0 <= doe < 146_097,
        yoe == (doe - doe / 1_460 + doe / 36_524 - doe / 146_096) / 365,
    ensures
        0 <= yoe < 400,
        0 <= doe - (365 * yoe + yoe / 4 - yoe / 100) <= 365,
        doe - (365 * yoe + yoe / 4 - yoe / 100) == 365 ==> leap(yoe + 1),
{
    let c = doe / 36_524;
    let q = (doe - 36_524 * c) / 1_461;
    let r = doe - 36_524 * c - 1_461 * q;
    assert(0 <= c <= 4);
    assert(c == 4 ==> doe == 146_096);
    assert(0 <= q <= 24);
    assert(0 <= r < 1_461);
    // Every 1460 days up to `doe`, against the years of 1461 days.
    let a = doe / 1_460;
    assert(a == 25 * c + (24 * c + 1_461 * q + r) / 1_460);
    assert(25 * c + q <= a <= 25 * c + q + 1);
    assert(a == 25 * c + q + 1 <==> 24 * c + q + r >= 1_460);
    if c == 4 {
        assert(yoe == 399);
    } else {
        assert(doe / 146_096 == 0);
        let k = if 24 * c + q + r >= 1_460 {
            1int
        } else {
            0
        };
        assert(doe - a + c == 36_500 * c + 1_460 * q + r - k);
        let t = (r - k) / 365;
        assert(yoe == 100 * c + 4 * q + t);
        assert(0 <= t <= 3) by {
            assert(r - k <= 1_459);
        }
        assert(r - k >= 0);
        assert(yoe / 100 == c);
        assert(yoe / 4 == 25 * c + q);
        let doy = doe - (365 * yoe + yoe / 4 - yoe / 100);
        assert(doy == r - 365 * t);
        if doy == 365 {
            assert(t == 3);
            assert(k == 1);
            assert(r == 1_460);
            assert(q < 24);
            assert((yoe + 1) % 4 == 0);
            assert((yoe + 1) % 100 != 0);
        }
    }
}

/// The month and day of a day of a year counted from March.
proof fn lemma_month_of_year(doy: int, mp: int)
    requires
        0 <= doy <= 365,
        mp == (5 * doy + 2) / 153,
    ensures
        0 <= mp <= 11,
        1 <= doy - (153 * mp + 2) / 5 + 1,
        mp == 0 || mp == 2 || mp == 4 || mp == 5 || mp == 7 || mp == 9 || mp == 10 ==> doy - (153
            * mp + 2) / 5 + 1 <= 31,
        mp == 1 || mp == 3 || mp == 6 || mp == 8 ==> doy - (153 * mp + 2) / 5 + 1 <= 30,
        mp == 11 ==> doy - (153 * mp + 2) / 5 + 1 <= 29,
        mp == 11 && doy < 365 ==> doy - (153 * mp + 2) / 5 + 1 <= 28,
{
}

/// Leap years repeat every 400 years.
proof fn lemma_leap_era(yoe: int, era: int)
    ensures
        leap(yoe + 400 * era) == leap(yoe),
{
}

/// The parts put together are the date of the day.
proof fn lemma_civil(
    z: int,
    era: int,
    doe: int,
    yoe: int,
    doy: int,
    mp: int,
    c: DateView,
)
    requires
        z + 719_468 == 146_097 * era + doe,
        0 <= doe < 146_097,
        yoe == (doe - doe / 1_460 + doe / 36_524 - doe / 146_096) / 365,
        doy == doe - (365 * yoe + yoe / 4 - yoe / 100),
        mp == (5 * doy + 2) / 153,
        c.day == doy - (153 * mp + 2) / 5 + 1,
        c.month == if mp < 10 {
            mp + 3
        } else {
            mp - 9
        },
        c.year == yoe + 400 * era + if c.month <= 2 {
            1int
        } else {
            0
        },
    ensures
        is_date_of(c, z),
{
    lemma_year_of_era(doe, yoe);
    lemma_month_of_year(doy, mp);
    let y = yoe + 400 * era;
    lemma_era(y, era, yoe);
    assert(march_count(c.year, c.month, c.day) == z);
    law_march_count(c.year, c.month, c.day);
    lemma_leap_era(yoe + 1, era);
}

/// The date of the day with the given number.
pub fn civil_from_days(z: i64) -> (r: (i64, u32, u32))
    requires
        -1_000_000_000_000_000 <= z <= 1_000_000_000_000_000,
    ensures
        is_date_of(
            (DateView { year: r.0 as int, month: r.1 as int, day: r.2 as int }),
            z as int,
        ),
        date_of(z as int) == (DateView {
            year: r.0 as int,
            month: r.1 as int,
            day: r.2 as int,
        }),
        z >= 0 ==> r.0 >= 1970,
{
    let s: i64 = z + 719_468;
    let (era, day) = split_days(s);
    let doe: u64 = day as u64;
    let yoe: u64 = (doe - doe / 1_460 + doe / 36_524 - doe / 146_096) / 365;
    proof {
        lemma_year_of_era(doe as int, yoe as int);
    }
    let y: i64 = yoe as i64 + era * 400;
    let doy: u64 = doe - (365 * yoe + yoe / 4 - yoe / 100);
    let mp: u64 = (5 * doy + 2) / 153;
    proof {
        lemma_month_of_year(doy as int, mp as int);
    }
    let d: u32 = (doy - (153 * mp + 2) / 5 + 1) as u32;
    let m: u32 = (if mp < 10 {
        mp + 3
    } else {
        mp - 9
    }) as u32;
    let year: i64 = if m <= 2 {
        y + 1
    } else {
        y
    };
    proof {
        let c = DateView { year: year as int, month: m as int, day: d as int };
        lemma_civil(z as int, era as int, doe as int, yoe as int, doy as int, mp as int, c);
        lemma_date_of(c, z as int);
        if z >= 0 && year < 1970 {
            lemma_within_year(c.year, c.month, c.day);
            lemma_year_order(c.year + 1, 1970);
        }
    }
    (year, m, d)
}

/// Every day has a date, and the two conversions undo one another: the date
/// of a day's number is the date it came from.
pub proof fn law_dates_and_numbers(c: DateView)
    requires
        valid_date(c.year, c.month, c.day),
    ensures
        date_of(day_number(c.year, c.month, c.day)) == c,
{
    lemma_date_of(c, day_number(c.year, c.month, c.day));
}

// ---------------------------------------------------------------------------
// Timestamps
// ---------------------------------------------------------------------------

/// The date part, `YYYY-MM-DD`.
pub open spec fn date_text(c: DateView) -> Seq<char> {
    decimal::padded(c.year as nat, 4) + (seq!['-'] + (decimal::padded(c.month as nat, 2) + (seq![
        '-',
    ] + decimal::padded(c.day as nat, 2))))
}

/// The time part, `HH:MM:SS`.
pub open spec fn time_text(t: nat) -> Seq<char> {
    decimal::padded(t / 3_600, 2) + (seq![':'] + (decimal::padded(t % 3_600 / 60, 2) + (seq![':']
        + decimal::padded(t % 60, 2))))
}

/// The timestamp of a second, counted from the start of 1970.
pub open spec fn iso_text(secs: nat) -> Seq<char> {
    date_text(date_of((secs / 86_400) as int)) + (seq!['T'] + (time_text(secs % 86_400) + seq!['Z']))
}

/// The day of a second as text.
pub open spec fn day_text(secs: nat) -> Seq<char> {
    iso_text(secs).take(10)
}

/// The first second of the year 10000.
pub open spec fn five_digit_years() -> nat {
    253_402_300_800
}

/// The separators of a timestamp stand in their places.
pub open spec fn iso_separators(s: Seq<char>) -> bool {
    &&& s.len() == 20
    &&& s[4] == '-' && s[7] == '-'
    &&& s[10] == 'T'
    &&& s[13] == ':' && s[16] == ':'
    &&& s[19] == 'Z'
}

/// The second that a timestamp `YYYY-MM-DDTHH:MM:SSZ` stands for, counted from
/// the start of 1970; `None` for text of another form and for times before
/// that. Parts that are out of range count on.
pub open spec fn read_iso(s: Seq<char>) -> Option<u64> {
    if iso_separators(s) {
        match (
            decimal::read_digits(s.subrange(0, 4)),
            decimal::read_digits(s.subrange(5, 7)),
            decimal::read_digits(s.subrange(8, 10)),
            decimal::read_digits(s.subrange(11, 13)),
            decimal::read_digits(s.subrange(14, 16)),
            decimal::read_digits(s.subrange(17, 19)),
        ) {
            (Some(y), Some(m), Some(d), Some(hour), Some(min), Some(sec)) => {
                let secs = march_count(y as int, m as int, d as int) * 86_400 + hour * 3_600 + min
                    * 60 + sec;
                if secs >= 0 {
                    Some(secs as u64)
                } else {
                    None
                }
            },
            _ => None,
        }
    } else {
        None
    }
}

fn date_string(y: u64, m: u32, d: u32) -> (r: String)
    ensures
        r@ == date_text(DateView { year: y as int, month: m as int, day: d as int }),
{
    let mut r: String = decimal::padded_of(y, 4);
    r.push('-');
    text::push_str(&mut r, decimal::padded_of(m as u64, 2).as_str());
    r.push('-');
    text::push_str(&mut r, decimal::padded_of(d as u64, 2).as_str());
    assert(r@ =~= date_text(DateView { year: y as int, month: m as int, day: d as int }));
    r
}

fn time_string(time: u64) -> (r: String)
    ensures
        r@ == time_text(time as nat),
{
    let mut r: String = decimal::padded_of(time / 3_600, 2);
    r.push(':');
    text::push_str(&mut r, decimal::padded_of(time % 3_600 / 60, 2).as_str());
    r.push(':');
    text::push_str(&mut r, decimal::padded_of(time % 60, 2).as_str());
    assert(r@ =~= time_text(time as nat));
    r
}

/// The timestamp of a second, given as seconds since the start of 1970.
pub fn current_iso8601(secs: u64) -> (r: String)
    ensures
        r@ == iso_text(secs as nat),
{
    let days: i64 = (secs / 86_400) as i64;
    let (y, m, d) = civil_from_days(days);
    let mut r: String = date_string(y as u64, m, d);
    r.push('T');
    text::push_str(&mut r, time_string(secs % 86_400).as_str());
    r.push('Z');
    assert(r@ =~= iso_text(secs as nat));
    r
}

/// The day of a second as text, the first ten characters of its timestamp.
pub fn current_day(secs: u64) -> (r: String)
    ensures
        r@ == day_text(secs as nat),
{
    let ts: String = current_iso8601(secs);
    let cs: Vec<char> = text::chars_of(ts.as_str());
    proof {
        let c = date_of((secs / 86_400) as int);
        decimal::lemma_padded_reads_back(c.year as nat, 4);
        decimal::lemma_padded_reads_back(c.month as nat, 2);
        decimal::lemma_padded_reads_back(c.day as nat, 2);
        assert(cs@.len() >= 10);
    }
    let r: String = text::string_of(slice_subrange(cs.as_slice(), 0, 10));
    assert(r@ =~= day_text(secs as nat));
    r
}

/// Whether `s` has the shape `YYYY-MM-DD`, digits and hyphens.
pub open spec fn date_shape(s: Seq<char>) -> bool {
    &&& s.len() == 10
    &&& s[4] == '-' && s[7] == '-'
    &&& forall|i: int| 0 <= i < 10 && i != 4 && i != 7 ==> decimal::is_digit(#[trigger] s[i])
}

/// The date that leads a subject, perhaps behind one `[`. A date further on is
/// no filing date, nor is a longer run of digits.
pub open spec fn leading_date(s: Seq<char>) -> Option<Seq<char>> {
    let t = text::trim_start(s);
    let c = if t.len() > 0 && t[0] == '[' {
        t.skip(1)
    } else {
        t
    };
    if c.len() >= 10 && date_shape(c.take(10)) && !(c.len() > 10 && decimal::is_digit(c[10])) {
        Some(c.take(10))
    } else {
        None
    }
}

/// Whether `s` has the shape `YYYY-MM-DD`.
pub fn has_date_shape(s: &[char]) -> (r: bool)
    ensures
        r == date_shape(s@),
{
    if s.len() != 10 {
        return false;
    }
    if s[4] != '-' || s[7] != '-' {
        return false;
    }
    let mut i: usize = 0;
    while i < 10
        invariant
            s@.len() == 10,
            0 <= i <= 10,
            forall|j: int| 0 <= j < i && j != 4 && j != 7 ==> decimal::is_digit(#[trigger] s@[j]),
        decreases 10 - i,
    {
        if i != 4 && i != 7 && !decimal::char_is_digit(s[i]) {
            return false;
        }
        i = i + 1;
    }
    true
}

/// The date that leads a subject.
pub fn extract_leading_iso_date(s: &str) -> (r: Option<String>)
    ensures
        match leading_date(s@) {
            Some(d) => r matches Some(t) && t@ == d,
            None => r is None,
        },
{
    let cs: Vec<char> = text::chars_of(s);
    let t: &[char] = text::trimmed_start(cs.as_slice());
    let n: usize = t.len();
    let c: &[char] = if n > 0 && t[0] == '[' {
        slice_subrange(t, 1, n)
    } else {
        t
    };
    assert(n > 0 && t@[0] == '[' ==> c@ =~= t@.skip(1));
    if c.len() < 10 {
        return None;
    }
    let w: &[char] = slice_subrange(c, 0, 10);
    assert(w@ =~= c@.take(10));
    if has_date_shape(w) && !(c.len() > 10 && decimal::char_is_digit(c[10])) {
        Some(text::string_of(w))
    } else {
        None
    }
}

fn part(s: &[char], from: usize, to: usize) -> (r: &[char])
    requires
        from <= to <= s@.len(),
    ensures
        r@ == s@.subrange(from as int, to as int),
{
    slice_subrange(s, from, to)
}

/// Four-digit years are not far from 1970.
proof fn lemma_march_bound(y: int, m: int, d: int)
    requires
        0 <= y <= 9_999,
        0 <= m <= 99,
        0 <= d <= 99,
    ensures
        -10_000_000 < march_count(y, m, d) < 10_000_000,
{
}

/// The second of a date and a time of day; `None` before 1970.
fn seconds(year: u64, month: u64, day: u64, hour: u64, min: u64, sec: u64) -> (r: Option<u64>)
    requires
        year <= 9_999,
        month <= 99,
        day <= 99,
        hour <= 99,
        min <= 99,
        sec <= 99,
    ensures
        ({
            let secs = march_count(year as int, month as int, day as int) * 86_400 + hour * 3_600
                + min * 60 + sec;
            r == if secs >= 0 {
                Some(secs as u64)
            } else {
                None
            }
        }),
{
    let days: i64 = days_from_civil(year as i64, month as i64, day as i64);
    proof {
        lemma_march_bound(year as int, month as int, day as int);
    }
    let total: i64 = days * 86_400 + (hour * 3_600 + min * 60 + sec) as i64;
    if total >= 0 {
        Some(total as u64)
    } else {
        None
    }
}

/// The second that a timestamp `YYYY-MM-DDTHH:MM:SSZ` stands for; `None` if it
/// is malformed or before 1970.
pub fn parse_iso8601_secs(s: &str) -> (r: Option<u64>)
    ensures
        r == read_iso(s@),
{
    let cs: Vec<char> = text::chars_of(s);
    let c: &[char] = cs.as_slice();
    if c.len() != 20 || c[4] != '-' || c[7] != '-' || c[10] != 'T' || c[13] != ':' || c[16] != ':'
        || c[19] != 'Z' {
        return None;
    }
    let year: u64 = match decimal::parse_short(part(c, 0, 4)) {
        Some(n) => n,
        None => return None,
    };
    let month: u64 = match decimal::parse_short(part(c, 5, 7)) {
        Some(n) => n,
        None => return None,
    };
    let day: u64 = match decimal::parse_short(part(c, 8, 10)) {
        Some(n) => n,
        None => return None,
    };
    let hour: u64 = match decimal::parse_short(part(c, 11, 13)) {
        Some(n) => n,
        None => return None,
    };
    let min: u64 = match decimal::parse_short(part(c, 14, 16)) {
        Some(n) => n,
        None => return None,
    };
    let sec: u64 = match decimal::parse_short(part(c, 17, 19)) {
        Some(n) => n,
        None => return None,
    };
    seconds(year, month, day, hour, min, sec)
}

// ---------------------------------------------------------------------------
// What timestamps promise
// ---------------------------------------------------------------------------

/// Seconds before the year 10000 fall into years of four digits.
proof fn lemma_date_bounds(secs: nat)
    requires
        secs < five_digit_years(),
    ensures
        ({
            let c = date_of((secs / 86_400) as int);
            &&& is_date_of(c, (secs / 86_400) as int)
            &&& 1970 <= c.year <= 9_999
            &&& 1 <= c.month <= 12
            &&& 1 <= c.day <= 31
        }),
{
    let z = (secs / 86_400) as int;
    lemma_every_day(z);
    let c = date_of(z);
    lemma_within_year(c.year, c.month, c.day);
    lemma_year_start(10_000);
    if c.year >= 10_000 {
        lemma_year_order(10_000, c.year);
    }
    if c.year < 1970 {
        lemma_year_order(c.year + 1, 1970);
    }
}

/// Every day has a date.
proof fn lemma_every_day(z: int)
    ensures
        is_date_of(date_of(z), z),
{
    let s = z + 719_468;
    let era = s / 146_097;
    let doe = s % 146_097;
    let yoe = (doe - doe / 1_460 + doe / 36_524 - doe / 146_096) / 365;
    let doy = doe - (365 * yoe + yoe / 4 - yoe / 100);
    let mp = (5 * doy + 2) / 153;
    let month = if mp < 10 {
        mp + 3
    } else {
        mp - 9
    };
    let c = DateView {
        year: yoe + 400 * era + if month <= 2 {
            1int
        } else {
            0
        },
        month,
        day: doy - (153 * mp + 2) / 5 + 1,
    };
    lemma_civil(z, era, doe, yoe, doy, mp, c);
}

/// Where the parts of a timestamp stand.
proof fn lemma_iso_parts(secs: nat)
    requires
        secs < five_digit_years(),
    ensures
        ({
            let s = iso_text(secs);
            let c = date_of((secs / 86_400) as int);
            let t = secs % 86_400;
            &&& s.len() == 20
            &&& s.subrange(0, 4) == decimal::padded(c.year as nat, 4)
            &&& s.subrange(5, 7) == decimal::padded(c.month as nat, 2)
            &&& s.subrange(8, 10) == decimal::padded(c.day as nat, 2)
            &&& s.subrange(11, 13) == decimal::padded(t / 3_600, 2)
            &&& s.subrange(14, 16) == decimal::padded(t % 3_600 / 60, 2)
            &&& s.subrange(17, 19) == decimal::padded(t % 60, 2)
            &&& iso_separators(s)
            &&& s.take(10) == date_text(c)
        }),
{
    let c = date_of((secs / 86_400) as int);
    let t = secs % 86_400;
    lemma_date_bounds(secs);
    decimal::lemma_padded_width(c.year as nat);
    decimal::lemma_padded_width(c.month as nat);
    decimal::lemma_padded_width(c.day as nat);
    decimal::lemma_padded_width(t / 3_600);
    decimal::lemma_padded_width(t % 3_600 / 60);
    decimal::lemma_padded_width(t % 60);
    let s = iso_text(secs);
    let dt = date_text(c);
    let tt = time_text(t);
    assert(dt.len() == 10);
    assert(tt.len() == 8);
    assert(s.subrange(0, 4) =~= decimal::padded(c.year as nat, 4));
    assert(s.subrange(5, 7) =~= decimal::padded(c.month as nat, 2));
    assert(s.subrange(8, 10) =~= decimal::padded(c.day as nat, 2));
    assert(s.subrange(11, 13) =~= decimal::padded(t / 3_600, 2));
    assert(s.subrange(14, 16) =~= decimal::padded(t % 3_600 / 60, 2));
    assert(s.subrange(17, 19) =~= decimal::padded(t % 60, 2));
    assert(s.take(10) =~= dt);
}

/// Hours, minutes and seconds put together.
proof fn lemma_time_parts(secs: nat)
    ensures
        (secs / 86_400) * 86_400 + (secs % 86_400 / 3_600) * 3_600 + (secs % 86_400 % 3_600 / 60)
            * 60 + secs % 86_400 % 60 == secs,
{
}

/// A timestamp whose parts are read has the second that they stand for.
proof fn lemma_read_parts(s: Seq<char>, c: DateView, days: int, hour: nat, min: nat, sec: nat)
    requires
        iso_separators(s),
        c.year >= 0 && c.month >= 0 && c.day >= 0,
        decimal::read_digits(s.subrange(0, 4)) == Some(c.year as nat),
        decimal::read_digits(s.subrange(5, 7)) == Some(c.month as nat),
        decimal::read_digits(s.subrange(8, 10)) == Some(c.day as nat),
        decimal::read_digits(s.subrange(11, 13)) == Some(hour),
        decimal::read_digits(s.subrange(14, 16)) == Some(min),
        decimal::read_digits(s.subrange(17, 19)) == Some(sec),
        march_count(c.year, c.month, c.day) == days,
        days >= 0,
    ensures
        read_iso(s) == Some((days * 86_400 + hour * 3_600 + min * 60 + sec) as u64),
{
}

/// A timestamp reads back as the second it was made of, up to the end of the
/// year 9999.
#[verifier::rlimit(30)]
pub proof fn law_iso_reads_back(secs: u64)
    requires
        secs < five_digit_years(),
    ensures
        read_iso(iso_text(secs as nat)) == Some(secs),
{
    let c = date_of((secs / 86_400) as int);
    let t = (secs % 86_400) as nat;
    lemma_iso_parts(secs as nat);
    lemma_date_bounds(secs as nat);
    decimal::lemma_padded_reads_back(c.year as nat, 4);
    decimal::lemma_padded_reads_back(c.month as nat, 2);
    decimal::lemma_padded_reads_back(c.day as nat, 2);
    decimal::lemma_padded_reads_back(t / 3_600, 2);
    decimal::lemma_padded_reads_back(t % 3_600 / 60, 2);
    decimal::lemma_padded_reads_back(t % 60, 2);
    let days = (secs / 86_400) as int;
    assert(march_count(c.year, c.month, c.day) == days) by {
        law_march_count(c.year, c.month, c.day);
    }
    lemma_time_parts(secs as nat);
    lemma_read_parts(iso_text(secs as nat), c, days, t / 3_600, t % 3_600 / 60, t % 60);
}

/// Numbers written in the same places are in the order of their values.
proof fn lemma_padded_order(m: nat, n: nat, w: nat)
    requires
        decimal::padded(m, w).len() == w,
        decimal::padded(n, w).len() == w,
    ensures
        text::before(decimal::padded(m, w), decimal::padded(n, w)) <==> m < n,
        decimal::padded(m, w) == decimal::padded(n, w) <==> m == n,
{
    decimal::lemma_padded_reads_back(m, w);
    decimal::lemma_padded_reads_back(n, w);
    decimal::lemma_digits_order(decimal::padded(m, w), decimal::padded(n, w));
}

/// Two numbers and what follows them, in order.
proof fn lemma_step_order(m: nat, n: nat, w: nat, sep: char, x: Seq<char>, y: Seq<char>)
    requires
        decimal::padded(m, w).len() == w,
        decimal::padded(n, w).len() == w,
    ensures
        text::before(
            decimal::padded(m, w) + (seq![sep] + x),
            decimal::padded(n, w) + (seq![sep] + y),
        ) <==> m < n || (m == n && text::before(x, y)),
        decimal::padded(m, w) + (seq![sep] + x) == decimal::padded(n, w) + (seq![sep] + y) <==> m
            == n && x == y,
{
    let a = decimal::padded(m, w);
    let b = decimal::padded(n, w);
    lemma_padded_order(m, n, w);
    text::lemma_before_concat(a, b, seq![sep] + x, seq![sep] + y);
    text::lemma_before_concat(seq![sep], seq![sep], x, y);
    text::lemma_before_irreflexive(seq![sep]);
    let l = a + (seq![sep] + x);
    let r = b + (seq![sep] + y);
    if l == r {
        assert(l.take(w as int) =~= a);
        assert(r.take(w as int) =~= b);
        assert(l.skip(w as int + 1) =~= x);
        assert(r.skip(w as int + 1) =~= y);
    }
}

/// Dates as text are in the order of the calendar.
proof fn lemma_date_text_order(a: DateView, b: DateView)
    requires
        0 <= a.year <= 9_999,
        valid_date(a.year, a.month, a.day),
        0 <= b.year <= 9_999,
        valid_date(b.year, b.month, b.day),
    ensures
        text::before(date_text(a), date_text(b)) <==> day_number(a.year, a.month, a.day)
            < day_number(b.year, b.month, b.day),
        date_text(a) == date_text(b) <==> a == b,
{
    decimal::lemma_padded_width(a.year as nat);
    decimal::lemma_padded_width(a.month as nat);
    decimal::lemma_padded_width(a.day as nat);
    decimal::lemma_padded_width(b.year as nat);
    decimal::lemma_padded_width(b.month as nat);
    decimal::lemma_padded_width(b.day as nat);
    let ad = decimal::padded(a.day as nat, 2);
    let bd = decimal::padded(b.day as nat, 2);
    lemma_padded_order(a.day as nat, b.day as nat, 2);
    lemma_step_order(a.month as nat, b.month as nat, 2, '-', ad, bd);
    let am = decimal::padded(a.month as nat, 2) + (seq!['-'] + ad);
    let bm = decimal::padded(b.month as nat, 2) + (seq!['-'] + bd);
    lemma_step_order(a.year as nat, b.year as nat, 4, '-', am, bm);
    law_dates_in_order(a, b);
}

/// Times of day as text are in order.
proof fn lemma_time_text_order(s: nat, t: nat)
    requires
        s < 86_400,
        t < 86_400,
    ensures
        text::before(time_text(s), time_text(t)) <==> s < t,
        time_text(s) == time_text(t) <==> s == t,
        time_text(s).len() == 8,
{
    decimal::lemma_padded_width(s / 3_600);
    decimal::lemma_padded_width(s % 3_600 / 60);
    decimal::lemma_padded_width(s % 60);
    decimal::lemma_padded_width(t / 3_600);
    decimal::lemma_padded_width(t % 3_600 / 60);
    decimal::lemma_padded_width(t % 60);
    let x = decimal::padded(s % 60, 2);
    let y = decimal::padded(t % 60, 2);
    lemma_padded_order(s % 60, t % 60, 2);
    lemma_step_order(s % 3_600 / 60, t % 3_600 / 60, 2, ':', x, y);
    let p = decimal::padded(s % 3_600 / 60, 2) + (seq![':'] + x);
    let q = decimal::padded(t % 3_600 / 60, 2) + (seq![':'] + y);
    lemma_step_order(s / 3_600, t / 3_600, 2, ':', p, q);
}

/// Timestamps as text are in the order of time, and so are their days, up to
/// the end of the year 9999.
pub proof fn law_iso_order(a: nat, b: nat)
    requires
        a < five_digit_years(),
        b < five_digit_years(),
    ensures
        text::before(iso_text(a), iso_text(b)) <==> a < b,
        text::before(day_text(a), day_text(b)) <==> a / 86_400 < b / 86_400,
{
    let c = date_of((a / 86_400) as int);
    let d = date_of((b / 86_400) as int);
    lemma_date_bounds(a);
    lemma_date_bounds(b);
    lemma_iso_parts(a);
    lemma_iso_parts(b);
    lemma_date_text_order(c, d);
    lemma_time_text_order(a % 86_400, b % 86_400);
    let ta = time_text(a % 86_400);
    let tb = time_text(b % 86_400);
    text::lemma_before_concat(
        date_text(c),
        date_text(d),
        seq!['T'] + (ta + seq!['Z']),
        seq!['T'] + (tb + seq!['Z']),
    );
    text::lemma_before_concat(seq!['T'], seq!['T'], ta + seq!['Z'], tb + seq!['Z']);
    text::lemma_before_irreflexive(seq!['T']);
    text::lemma_before_concat(ta, tb, seq!['Z'], seq!['Z']);
    text::lemma_before_irreflexive(seq!['Z']);
}

/// The calendar repeats after 400 years of 146097 days, and it starts on
/// 1970-01-01.
pub proof fn law_gregorian_cycle(y: int)
    ensures
        year_start(y + 400) == year_start(y) + 146_097,
        day_number(1970, 1, 1) == 0,
{
    lemma_year_start(y);
    lemma_year_start(y + 400);
    assert((y + 399) / 4 == (y - 1) / 4 + 100);
    assert((y + 399) / 100 == (y - 1) / 100 + 4);
    assert((y + 399) / 400 == (y - 1) / 400 + 1);
    lemma_month_start(1970, 1);
}

/// A year is made up of its months; it has one day more in every fourth year,
/// but not in a hundredth that is no four hundredth.
pub proof fn law_leap_years(y: int)
    ensures
        year_start(y + 1) == year_start(y) + month_start(y, 13),
        y % 4 != 0 ==> month_start(y, 13) == 365,
        y % 4 == 0 && y % 100 != 0 ==> month_start(y, 13) == 366,
        y % 100 == 0 && y % 400 != 0 ==> month_start(y, 13) == 365,
        y % 400 == 0 ==> month_start(y, 13) == 366,
{
    lemma_month_start(y, 13);
    lemma_year_step(y);
    assert(y % 400 == 0 ==> y % 100 == 0);
    assert(y % 100 == 0 ==> y % 4 == 0);
}

/// A date is four digits, two and two with hyphens between, and nothing else
/// has its shape.
pub proof fn law_date_shapes(y: nat, m: nat, d: nat, s: Seq<char>)
    requires
        y < 10_000,
        m < 100,
        d < 100,
    ensures
        date_shape(
            decimal::padded(y, 4) + seq!['-'] + decimal::padded(m, 2) + seq!['-'] + decimal::padded(
                d,
                2,
            ),
        ),
        date_shape(s) ==> s.len() == 10 && s[4] == '-' && s[7] == '-' && decimal::all_digits(
            s.subrange(0, 4),
        ) && decimal::all_digits(s.subrange(5, 7)) && decimal::all_digits(s.subrange(8, 10)),
{
    decimal::lemma_padded_width(y);
    decimal::lemma_padded_width(m);
    decimal::lemma_padded_width(d);
    decimal::lemma_padded_reads_back(y, 4);
    decimal::lemma_padded_reads_back(m, 2);
    decimal::lemma_padded_reads_back(d, 2);
    let a = decimal::padded(y, 4);
    let b = decimal::padded(m, 2);
    let c = decimal::padded(d, 2);
    let t = a + seq!['-'] + b + seq!['-'] + c;
    assert forall|i: int| 0 <= i < 10 && i != 4 && i != 7 implies decimal::is_digit(
        #[trigger] t[i],
    ) by {
        if i < 4 {
            assert(t[i] == a[i]);
        } else if i < 7 {
            assert(t[i] == b[i - 5]);
        } else {
            assert(t[i] == c[i - 8]);
        }
    }
    if date_shape(s) {
        assert forall|i: int| 0 <= i < 4 implies decimal::is_digit(
            #[trigger] s.subrange(0, 4)[i],
        ) by {
            assert(decimal::is_digit(s[i]));
        }
        assert forall|i: int| 0 <= i < 2 implies decimal::is_digit(
            #[trigger] s.subrange(5, 7)[i],
        ) by {
            assert(decimal::is_digit(s[5 + i]));
        }
        assert forall|i: int| 0 <= i < 2 implies decimal::is_digit(
            #[trigger] s.subrange(8, 10)[i],
        ) by {
            assert(decimal::is_digit(s[8 + i]));
        }
    }
}

/// A time of day behind a date.
pub open spec fn at_time(date: Seq<char>, hour: nat, min: nat, sec: nat) -> Seq<char> {
    date + seq!['T'] + decimal::padded(hour, 2) + seq![':'] + decimal::padded(min, 2) + seq![':']
        + decimal::padded(sec, 2) + seq!['Z']
}

/// Hours, minutes and seconds count from the start of their day, also where
/// they go beyond it.
pub proof fn law_times_of_day(date: Seq<char>, hour: nat, min: nat, sec: nat)
    requires
        date_shape(date),
        hour < 100,
        min < 100,
        sec < 100,
    ensures
        read_iso(at_time(date, 0, 0, 0)) matches Some(start) ==> read_iso(
            at_time(date, hour, min, sec),
        ) matches Some(t) && t == start + hour * 3_600 + min * 60 + sec,
{
    lemma_at_time(date, 0, 0, 0);
    lemma_at_time(date, hour, min, sec);
    let y = decimal::digits_value(date.subrange(0, 4));
    let m = decimal::digits_value(date.subrange(5, 7));
    let d = decimal::digits_value(date.subrange(8, 10));
    lemma_digits_bound(date.subrange(0, 4));
    lemma_digits_bound(date.subrange(5, 7));
    lemma_digits_bound(date.subrange(8, 10));
    lemma_march_bound(y as int, m as int, d as int);
}

proof fn lemma_digits_bound(s: Seq<char>)
    requires
        decimal::all_digits(s),
        s.len() == 4 || s.len() == 2,
    ensures
        s.len() == 4 ==> decimal::digits_value(s) <= 9_999,
        s.len() == 2 ==> decimal::digits_value(s) <= 99,
{
    reveal_with_fuel(decimal::digits_value, 5);
    assert forall|i: int| 0 <= i < s.len() implies decimal::digit_value(#[trigger] s[i]) <= 9 by {
        assert(decimal::is_digit(s[i]));
    }
}

/// The parts of a date with a time.
proof fn lemma_at_time(date: Seq<char>, hour: nat, min: nat, sec: nat)
    requires
        date_shape(date),
        hour < 100,
        min < 100,
        sec < 100,
    ensures
        ({
            let s = at_time(date, hour, min, sec);
            &&& iso_separators(s)
            &&& s.subrange(0, 4) == date.subrange(0, 4)
            &&& s.subrange(5, 7) == date.subrange(5, 7)
            &&& s.subrange(8, 10) == date.subrange(8, 10)
            &&& decimal::read_digits(s.subrange(0, 4)) is Some
            &&& decimal::read_digits(s.subrange(5, 7)) is Some
            &&& decimal::read_digits(s.subrange(8, 10)) is Some
            &&& decimal::read_digits(s.subrange(11, 13)) == Some(hour)
            &&& decimal::read_digits(s.subrange(14, 16)) == Some(min)
            &&& decimal::read_digits(s.subrange(17, 19)) == Some(sec)
            &&& decimal::all_digits(date.subrange(0, 4))
            &&& decimal::all_digits(date.subrange(5, 7))
            &&& decimal::all_digits(date.subrange(8, 10))
        }),
{
    let s = at_time(date, hour, min, sec);
    law_date_shapes(0, 0, 0, date);
    decimal::lemma_padded_width(hour);
    decimal::lemma_padded_width(min);
    decimal::lemma_padded_width(sec);
    decimal::lemma_padded_reads_back(hour, 2);
    decimal::lemma_padded_reads_back(min, 2);
    decimal::lemma_padded_reads_back(sec, 2);
    assert(s.len() == 20);
    assert(s.subrange(0, 4) =~= date.subrange(0, 4));
    assert(s.subrange(5, 7) =~= date.subrange(5, 7));
    assert(s.subrange(8, 10) =~= date.subrange(8, 10));
    assert(s.subrange(11, 13) =~= decimal::padded(hour, 2));
    assert(s.subrange(14, 16) =~= decimal::padded(min, 2));
    assert(s.subrange(17, 19) =~= decimal::padded(sec, 2));
    assert(s[4] == date[4] && s[7] == date[7]);
}

/// Only text of the form `YYYY-MM-DDTHH:MM:SSZ` is read as a timestamp.
pub proof fn law_only_timestamps_are_read(s: Seq<char>)
    ensures
        read_iso(s) is Some ==> {
            &&& s.len() == 20
            &&& s[4] == '-' && s[7] == '-' && s[10] == 'T' && s[13] == ':' && s[16] == ':' && s[19]
                == 'Z'
            &&& decimal::all_digits(s.subrange(0, 4))
            &&& decimal::all_digits(s.subrange(5, 7))
            &&& decimal::all_digits(s.subrange(8, 10))
            &&& decimal::all_digits(s.subrange(11, 13))
            &&& decimal::all_digits(s.subrange(14, 16))
            &&& decimal::all_digits(s.subrange(17, 19))
        },
{
}

/// A timestamp is its day, the time within it, and separators; seconds of the
/// same day, and no others, have the same day.
pub proof fn law_days(a: nat, b: nat)
    requires
        a < five_digit_years(),
        b < five_digit_years(),
    ensures
        day_text(a) == day_text(b) <==> a / 86_400 == b / 86_400,
        iso_text(a).len() == 20,
        iso_text(a).take(10) == day_text(a),
        iso_text(a)[10] == 'T',
        iso_text(a)[19] == 'Z',
        a % 86_400 == b % 86_400 ==> iso_text(a).skip(10) == iso_text(b).skip(10),
{
    law_iso_order(a, b);
    law_iso_order(b, a);
    text::lemma_before_irreflexive(day_text(a));
    text::lemma_before_total(day_text(a), day_text(b));
    lemma_iso_parts(a);
    lemma_iso_parts(b);
    let c = date_of((a / 86_400) as int);
    let d = date_of((b / 86_400) as int);
    assert(iso_text(a).skip(10) =~= seq!['T'] + (time_text(a % 86_400) + seq!['Z']));
    assert(iso_text(b).skip(10) =~= seq!['T'] + (time_text(b % 86_400) + seq!['Z']));
}

/// The first second of a day, written out from its date.
pub proof fn law_midnight(day: nat)
    requires
        day < five_digit_years(),
    ensures
        day_text(day) + "T00:00:00Z"@ == iso_text(day / 86_400 * 86_400),
        day / 86_400 * 86_400 <= day,
{
    let m = day / 86_400 * 86_400;
    assert(m <= day && m / 86_400 == day / 86_400 && m % 86_400 == 0) by (nonlinear_arith)
        requires
            m == day / 86_400 * 86_400,
    ;
    lemma_iso_parts(day);
    lemma_iso_parts(m);
    reveal_strlit("T00:00:00Z");
    reveal_with_fuel(decimal::decimal, 2);
    assert(decimal::padded(0, 2) =~= seq!['0', '0']);
    assert(time_text(0) =~= seq!['0', '0', ':', '0', '0', ':', '0', '0']);
    assert(seq!['T'] + (time_text(0) + seq!['Z']) =~= "T00:00:00Z"@);
    assert(day_text(day) == date_text(date_of((m / 86_400) as int)));
}

/// A date as text holds digits and hyphens only.
pub proof fn lemma_date_shape(s: Seq<char>)
    requires
        date_shape(s),
    ensures
        forall|i: int| 0 <= i < s.len() ==> decimal::is_digit(#[trigger] s[i]) || s[i] == '-',
{
}

/// The day of a second has the shape of a date, up to the end of the year
/// 9999.
pub proof fn law_day_shape(secs: nat)
    requires
        secs < five_digit_years(),
    ensures
        date_shape(day_text(secs)),
{
    let s = iso_text(secs);
    let d = day_text(secs);
    let c = date_of((secs / 86_400) as int);
    lemma_iso_parts(secs);
    decimal::lemma_padded_reads_back(c.year as nat, 4);
    decimal::lemma_padded_reads_back(c.month as nat, 2);
    decimal::lemma_padded_reads_back(c.day as nat, 2);
    assert forall|i: int| 0 <= i < 10 && i != 4 && i != 7 implies decimal::is_digit(
        #[trigger] d[i],
    ) by {
        assert(d[i] == s[i]);
        if i < 4 {
            assert(s[i] == s.subrange(0, 4)[i]);
        } else if i < 7 {
            assert(s[i] == s.subrange(5, 7)[i - 5]);
        } else {
            assert(s[i] == s.subrange(8, 10)[i - 8]);
        }
    }
}

} // verus!
