//! What day it is, with no calendar crate.
//!
//! Every generative call answers a question asked today and has to be told
//! which day that is. The civil calendar is stated here from its own rules
//! (leap years, month lengths); the conversion is proved against them.
use vstd::prelude::*;
use vstd::string::*;
use crate::numeral::{decimal, decimal_chars, left_padded, pad_left};
use crate::text::{from_chars, push_range, to_chars};

verus! {

/// Seconds in a day. Unix time has no leap seconds, so this is exact.
pub const SECS_PER_DAY: u64 = 86_400;

/// The Gregorian leap-year rule.
pub open spec fn is_leap(y: int) -> bool {
    y % 4 == 0 && (y % 100 != 0 || y % 400 == 0)
}

pub open spec fn month_length(y: int, m: int) -> int {
    if m == 2 {
        if is_leap(y) {
            29
        } else {
            28
        }
    } else if m == 4 || m == 6 || m == 9 || m == 11 {
        30
    } else {
        31
    }
}

/// Days from the first of January to the first of month `m`.
pub open spec fn days_before_month(y: int, m: int) -> int
    decreases m,
{
    if m <= 1 {
        0
    } else {
        days_before_month(y, m - 1) + month_length(y, m - 1)
    }
}

/// Days from 0001-01-01 to the first of January of year `y`.
pub open spec fn days_before_year(y: int) -> int {
    365 * (y - 1) + (y - 1) / 4 - (y - 1) / 100 + (y - 1) / 400
}

/// A day of the proleptic Gregorian calendar.
pub open spec fn is_date(y: int, m: int, d: int) -> bool {
    1 <= m <= 12 && 1 <= d <= month_length(y, m)
}

/// The number of days from 1970-01-01 to this date.
pub open spec fn day_number(y: int, m: int, d: int) -> int {
    days_before_year(y) + days_before_month(y, m) + (d - 1) - 719_162
}

proof fn lemma_months(y: int)
    ensures
        days_before_month(y, 1) == 0,
        days_before_month(y, 2) == 31,
        days_before_month(y, 3) == 31 + month_length(y, 2),
        days_before_month(y, 4) == 62 + month_length(y, 2),
        days_before_month(y, 5) == 92 + month_length(y, 2),
        days_before_month(y, 6) == 123 + month_length(y, 2),
        days_before_month(y, 7) == 153 + month_length(y, 2),
        days_before_month(y, 8) == 184 + month_length(y, 2),
        days_before_month(y, 9) == 215 + month_length(y, 2),
        days_before_month(y, 10) == 245 + month_length(y, 2),
        days_before_month(y, 11) == 276 + month_length(y, 2),
        days_before_month(y, 12) == 306 + month_length(y, 2),
{
    reveal_with_fuel(days_before_month, 13);
}

/// Day of the era on which March-based year `yoe` of the era starts.
spec fn era_start(yoe: int) -> int {
    365 * yoe + yoe / 4 - yoe / 100
}

spec fn year_of_era(doe: int) -> int {
    (doe - doe / 1460 + doe / 36_524 - doe / 146_096) / 365
}

proof fn lemma_year_of_era(doe: int)
    requires
        0 <= doe <= 146_096,
    ensures
        0 <= year_of_era(doe) <= 399,
        era_start(year_of_era(doe)) <= doe,
        doe - era_start(year_of_era(doe)) <= 365,
        doe - era_start(year_of_era(doe)) == 365 ==> (year_of_era(doe) + 1) % 4 == 0 && ((
        year_of_era(doe) + 1) % 100 != 0 || (year_of_era(doe) + 1) % 400 == 0),
{
    let yoe = year_of_era(doe);
    // Split the era into centuries, a century into four-year cycles.
    let c = doe / 36_524;
    let q = doe / 1460;
    let z = doe / 146_096;
    assert(0 <= c <= 4);
    assert(0 <= q <= 100);
    assert(0 <= z <= 1);
}

/// A year is 365 days long, 366 when it is a leap year.
pub proof fn lemma_year_length(y: int)
    ensures
        days_before_year(y + 1) == days_before_year(y) + 365 + (if is_leap(y) {
            1int
        } else {
            0
        }),
{
    assert((y - 1) / 4 == y / 4 - (if y % 4 == 0 { 1int } else { 0 }));
    assert((y - 1) / 100 == y / 100 - (if y % 100 == 0 { 1int } else { 0 }));
    assert((y - 1) / 400 == y / 400 - (if y % 400 == 0 { 1int } else { 0 }));
    assert(y % 400 == 0 ==> y % 100 == 0);
    assert(y % 100 == 0 ==> y % 4 == 0);
}

#[verifier::spinoff_prover]
proof fn lemma_year_starts(era: int, yoe: int)
    requires
        0 <= yoe <= 399,
    ensures
        days_before_year(400 * era + yoe + 1) == 146_097 * era + era_start(yoe),
        is_leap(400 * era + yoe + 1) == is_leap(yoe + 1),
{
    let y = 400 * era + yoe;
    assert(y / 4 == 100 * era + yoe / 4);
    assert(y / 100 == 4 * era + yoe / 100);
    assert(y / 400 == era);
    assert((y + 1) % 4 == (yoe + 1) % 4);
    assert((y + 1) % 100 == (yoe + 1) % 100);
    assert((y + 1) % 400 == (yoe + 1) % 400);
}

/// The days of a March-based year, month by month.
proof fn lemma_day_of_year(year: int, y: int, doy: int, mp: int, m: int, d: int)
    requires
        0 <= doy <= 365,
        doy == 365 ==> is_leap(y + 1),
        mp == (5 * doy + 2) / 153,
        d == doy - (153 * mp + 2) / 5 + 1,
        m == if mp < 10 { mp + 3 } else { mp - 9 },
        year == if m <= 2 { y + 1 } else { y },
    ensures
        is_date(year, m, d),
        m > 2 ==> days_before_month(year, m) + d - 1 == month_length(y, 2) + 31 + doy,
        m <= 2 ==> days_before_month(year, m) + d - 1 == doy - 306,
{
    lemma_months(year);
    assert(0 <= mp <= 11);
}

/// The civil date that is `days` days after 1970-01-01 (before it when negative).
///
/// Counts in 400-year eras that start on the first of March, so the leap day is
/// the last of its year.
pub fn civil_from_days(days: i64) -> (r: (i64, u32, u32))
    requires
        days <= i64::MAX - 719_468,
    ensures
        is_date(r.0 as int, r.1 as int, r.2 as int),
        day_number(r.0 as int, r.1 as int, r.2 as int) == days,
{
    let z: i64 = days + 719_468;
    let era: i64 = if z >= 0 {
        z / 146_097
    } else {
        -((146_096 - z) / 146_097)
    };
    let doe: i64 = z - era * 146_097;
    assert(0 <= doe <= 146_096);
    let yoe: i64 = (doe - doe / 1460 + doe / 36_524 - doe / 146_096) / 365;
    proof {
        lemma_year_of_era(doe as int);
    }
    let y: i64 = yoe + era * 400;
    let doy: i64 = doe - (365 * yoe + yoe / 4 - yoe / 100);
    let mp: i64 = (5 * doy + 2) / 153;
    let d: i64 = doy - (153 * mp + 2) / 5 + 1;
    let m: i64 = if mp < 10 {
        mp + 3
    } else {
        mp - 9
    };
    let year: i64 = if m <= 2 {
        y + 1
    } else {
        y
    };
    proof {
        lemma_year_starts(era as int, yoe as int);
        lemma_year_length(y as int);
        lemma_day_of_year(year as int, y as int, doy as int, mp as int, m as int, d as int);
    }
    (year, m as u32, d as u32)
}

/// A later date has a greater day number, so no two dates share one.
pub proof fn law_day_numbers_follow_the_calendar(
    y1: int,
    m1: int,
    d1: int,
    y2: int,
    m2: int,
    d2: int,
)
    requires
        is_date(y1, m1, d1),
        is_date(y2, m2, d2),
    ensures
        (y1 < y2 || (y1 == y2 && (m1 < m2 || (m1 == m2 && d1 < d2)))) ==> day_number(y1, m1, d1)
            < day_number(y2, m2, d2),
        day_number(y1, m1, d1) == day_number(y2, m2, d2) ==> y1 == y2 && m1 == m2 && d1 == d2,
{
    lemma_months(y1);
    lemma_months(y2);
    lemma_year_length(y1);
    lemma_year_length(y2);
    if y1 < y2 {
        lemma_years_grow(y1 + 1, y2);
    }
    if y2 < y1 {
        lemma_years_grow(y2 + 1, y1);
    }
}

proof fn lemma_years_grow(y1: int, y2: int)
    requires
        y1 <= y2,
    ensures
        days_before_year(y1) <= days_before_year(y2),
    decreases y2 - y1,
{
    if y1 < y2 {
        lemma_years_grow(y1, y2 - 1);
        lemma_year_length(y2 - 1);
    }
}

/// The day after a date is the next day of its month, or the first of the next
/// month, or the first of January of the next year.
pub proof fn law_days_are_consecutive(y: int, m: int, d: int)
    requires
        is_date(y, m, d),
    ensures
        d < month_length(y, m) ==> day_number(y, m, d + 1) == day_number(y, m, d) + 1,
        d == month_length(y, m) && m < 12 ==> day_number(y, m + 1, 1) == day_number(y, m, d) + 1,
        m == 12 && d == 31 ==> day_number(y + 1, 1, 1) == day_number(y, m, d) + 1,
{
    lemma_months(y);
    lemma_months(y + 1);
    lemma_year_length(y);
}

// ------------------------------------------------------------ formatting --

/// `YYYY-MM-DD`; a year before year zero takes its minus sign out of the four
/// places.
pub open spec fn civil_text(y: int, m: nat, d: nat) -> Seq<char> {
    let year = if y < 0 {
        seq!['-'] + pad_left(decimal((-y) as nat), 3, '0')
    } else {
        pad_left(decimal(y as nat), 4, '0')
    };
    year + seq!['-'] + pad_left(decimal(m), 2, '0') + seq!['-'] + pad_left(decimal(d), 2, '0')
}

/// Append `n` in base ten, in at least `width` places.
pub fn push_padded(out: &mut Vec<char>, n: u128, width: usize)
    ensures
        final(out)@ == old(out)@ + pad_left(decimal(n as nat), width as nat, '0'),
{
    let digits = decimal_chars(n);
    let padded = left_padded(&digits, width, '0');
    push_range(out, &padded, 0, padded.len());
    assert(padded@.subrange(0, padded@.len() as int) =~= padded@);
}

/// Render a `(year, month, day)` triple as `YYYY-MM-DD`.
pub fn format_civil(date: (i64, u32, u32)) -> (r: String)
    ensures
        r@ == civil_text(date.0 as int, date.1 as nat, date.2 as nat),
{
    let mut out: Vec<char> = Vec::new();
    if date.0 < 0 {
        out.push('-');
        push_padded(&mut out, (-(date.0 as i128)) as u128, 3);
    } else {
        push_padded(&mut out, date.0 as u128, 4);
    }
    out.push('-');
    push_padded(&mut out, date.1 as u128, 2);
    out.push('-');
    push_padded(&mut out, date.2 as u128, 2);
    assert(out@ =~= civil_text(date.0 as int, date.1 as nat, date.2 as nat));
    from_chars(&out)
}

/// `text` is the date of the day that holds second `secs` of Unix time.
pub open spec fn is_date_of(secs: u64, text: Seq<char>) -> bool {
    exists|y: int, m: int, d: int|
        #![trigger civil_text(y, m as nat, d as nat)]
        {
            &&& is_date(y, m, d)
            &&& day_number(y, m, d) == secs as int / 86_400
            &&& text == civil_text(y, m as nat, d as nat)
        }
}

/// The date of the day that holds second `secs` of Unix time.
pub fn date_of(secs: u64) -> (r: String)
    ensures
        is_date_of(secs, r@),
{
    let date = civil_from_days((secs / SECS_PER_DAY) as i64);
    let text = format_civil(date);
    proof {
        let (y, m, d) = (date.0 as int, date.1 as int, date.2 as int);
        assert(is_date(y, m, d));
        assert(day_number(y, m, d) == secs as int / 86_400);
        assert(text@ == civil_text(y, m as nat, d as nat));
    }
    text
}

/// `SystemTime::now().duration_since(UNIX_EPOCH)`: whole seconds since the Unix
/// epoch and the nanoseconds of the running second, or nothing for a clock set
/// before the epoch. What the clock says is left open; the nanoseconds are fewer
/// than a second's.
#[verifier::external_body]
pub(crate) fn since_epoch() -> (r: Option<(u64, u32)>)
    ensures
        r matches Some(t) ==> t.1 < 1_000_000_000,
{
    std::time::SystemTime::now().duration_since(std::time::UNIX_EPOCH).ok().map(
        |d| (d.as_secs(), d.subsec_nanos()),
    )
}

pub open spec fn seconds_of(reading: Option<(u64, u32)>) -> u64 {
    match reading {
        Some(t) => t.0,
        None => 0,
    }
}

/// The whole seconds of a reading of the clock; 0 for a clock set before the epoch.
pub fn whole_seconds(reading: Option<(u64, u32)>) -> (r: u64)
    ensures
        r == seconds_of(reading),
{
    match reading {
        Some(t) => t.0,
        None => 0,
    }
}

/// The clock in whole seconds of Unix time; 0 for a clock set before the epoch.
pub fn unix_now() -> (r: u64)
    ensures
        exists|reading: Option<(u64, u32)>| r == seconds_of(reading),
{
    let reading = since_epoch();
    let secs: u64 = whole_seconds(reading);
    assert(secs == seconds_of(reading));
    secs
}

/// Today's date in UTC as `YYYY-MM-DD`.
///
/// A clock set before the epoch reads as day 0, which is obviously wrong rather
/// than subtly wrong.
pub fn today_utc() -> (r: String)
    ensures
        exists|secs: u64| is_date_of(secs, r@),
{
    let secs: u64 = unix_now();
    date_of(secs)
}

/// `HH:MM:SS`, for a second of a day.
pub open spec fn time_text(rem: int) -> Seq<char> {
    pad_left(decimal((rem / 3600) as nat), 2, '0') + seq![':'] + pad_left(
        decimal((rem % 3600 / 60) as nat),
        2,
        '0',
    ) + seq![':'] + pad_left(decimal((rem % 60) as nat), 2, '0')
}

/// `text` is second `secs` of Unix time as `YYYY-MM-DDTHH:MM:SSZ`.
pub open spec fn is_instant_of(secs: u64, text: Seq<char>) -> bool {
    exists|day: Seq<char>| #[trigger]
        is_date_of(secs, day) && text == day + seq!['T'] + time_text(secs as int % 86_400)
            + seq!['Z']
}

/// Second `secs` of Unix time as `YYYY-MM-DDTHH:MM:SSZ`.
pub open spec fn instant_text(secs: u64) -> Seq<char> {
    choose|text: Seq<char>| is_instant_of(secs, text)
}

/// An instant is written in one way only.
pub proof fn law_an_instant_has_one_text(secs: u64, a: Seq<char>, b: Seq<char>)
    requires
        is_instant_of(secs, a),
        is_instant_of(secs, b),
    ensures
        a == b,
{
    let da = choose|day: Seq<char>| #[trigger]
        is_date_of(secs, day) && a == day + seq!['T'] + time_text(secs as int % 86_400) + seq!['Z'];
    let db = choose|day: Seq<char>| #[trigger]
        is_date_of(secs, day) && b == day + seq!['T'] + time_text(secs as int % 86_400) + seq!['Z'];
    let (y1, m1, d1) = choose|y: int, m: int, d: int|
        #![trigger civil_text(y, m as nat, d as nat)]
        is_date(y, m, d) && day_number(y, m, d) == secs as int / 86_400 && da == civil_text(
            y,
            m as nat,
            d as nat,
        );
    let (y2, m2, d2) = choose|y: int, m: int, d: int|
        #![trigger civil_text(y, m as nat, d as nat)]
        is_date(y, m, d) && day_number(y, m, d) == secs as int / 86_400 && db == civil_text(
            y,
            m as nat,
            d as nat,
        );
    law_day_numbers_follow_the_calendar(y1, m1, d1, y2, m2, d2);
}

/// A Unix timestamp as `YYYY-MM-DDTHH:MM:SSZ`.
pub fn rfc3339(secs: u64) -> (r: String)
    ensures
        is_instant_of(secs, r@),
        r@ == instant_text(secs),
{
    let day = date_of(secs);
    let rem: u64 = secs % SECS_PER_DAY;
    let mut out = to_chars(day.as_str());
    out.push('T');
    push_padded(&mut out, (rem / 3600) as u128, 2);
    out.push(':');
    push_padded(&mut out, (rem % 3600 / 60) as u128, 2);
    out.push(':');
    push_padded(&mut out, (rem % 60) as u128, 2);
    out.push('Z');
    assert(out@ =~= day@ + seq!['T'] + time_text(secs as int % 86_400) + seq!['Z']);
    proof {
        assert(is_instant_of(secs, out@));
        law_an_instant_has_one_text(secs, out@, instant_text(secs));
    }
    from_chars(&out)
}

/// The clock as `YYYY-MM-DDTHH:MM:SSZ`.
pub fn now_rfc3339() -> (r: String)
    ensures
        exists|secs: u64| is_instant_of(secs, r@),
{
    let secs: u64 = unix_now();
    rfc3339(secs)
}

} // verus!
