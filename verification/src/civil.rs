//! ISO-8601 UTC timestamps with millisecond precision
//! (`2026-06-28T15:45:00.750Z`) from a count of milliseconds since the Unix
//! epoch, over the proleptic Gregorian calendar.
//!
//! The day number is turned into a civil date with Howard Hinnant's
//! `civil_from_days` algorithm; its result is proved to be the one valid
//! calendar date whose day count is the given one.

use vstd::prelude::*;
use crate::text::{decimal, push_char, push_decimal};

verus! {

/// Whether `y` is a leap year of the Gregorian calendar.
pub open spec fn is_leap(y: int) -> bool {
    y % 4 == 0 && (y % 100 != 0 || y % 400 == 0)
}

/// The number of days of month `m` (1 to 12) of year `y`.
pub open spec fn days_in_month(y: int, m: int) -> int {
    if m == 2 {
        if is_leap(y) {
            29
        } else {
            28
        }
    } else if m == 4 || m == 6 || m == 9 || m == 11 {
        30
    } else {
        31
    }
}

/// The days of year `y` before the first of month `m` (1 to 12).
pub open spec fn days_before_month(y: int, m: int) -> int {
    let base: int = if m == 1 {
        0
    } else if m == 2 {
        31
    } else if m == 3 {
        59
    } else if m == 4 {
        90
    } else if m == 5 {
        120
    } else if m == 6 {
        151
    } else if m == 7 {
        181
    } else if m == 8 {
        212
    } else if m == 9 {
        243
    } else if m == 10 {
        273
    } else if m == 11 {
        304
    } else {
        334
    };
    if m > 2 && is_leap(y) {
        base + 1
    } else {
        base
    }
}

/// The number of leap years from year 1 up to and excluding `y` (a count
/// that keeps its step property for every integer `y`).
pub open spec fn leaps_before(y: int) -> int {
    (y - 1) / 4 - (y - 1) / 100 + (y - 1) / 400
}

/// The number of days from 1970-01-01 to the date `y-m-d` (negative before).
pub open spec fn days_from_civil(y: int, m: int, d: int) -> int {
    365 * (y - 1970) + leaps_before(y) - leaps_before(1970) + days_before_month(y, m) + d - 1
}

/// Whether `y-m-d` is a calendar date.
pub open spec fn valid_date(y: int, m: int, d: int) -> bool {
    1 <= m <= 12 && 1 <= d <= days_in_month(y, m)
}

/// The `n` zero characters.
pub open spec fn zeros(n: int) -> Seq<char> {
    Seq::new(if n > 0 { n as nat } else { 0 }, |i: int| '0')
}

/// The decimal rendering of `n` left-padded with zeros to `width` characters.
pub open spec fn zero_pad(n: nat, width: int) -> Seq<char> {
    zeros(width - decimal(n).len()) + decimal(n)
}

/// A year rendered at least four characters wide, zero-padded after the sign.
pub open spec fn year_text(y: int) -> Seq<char> {
    if y < 0 {
        seq!['-'] + zero_pad((-y) as nat, 3)
    } else {
        zero_pad(y as nat, 4)
    }
}

/// The timestamp text of a date and time of day.
pub open spec fn timestamp_text(y: int, mo: int, d: int, h: int, mi: int, s: int, ms: int) -> Seq<char> {
    year_text(y) + seq!['-'] + zero_pad(mo as nat, 2) + seq!['-'] + zero_pad(d as nat, 2) + seq!['T'] + zero_pad(
        h as nat,
        2,
    ) + seq![':'] + zero_pad(mi as nat, 2) + seq![':'] + zero_pad(s as nat, 2) + seq!['.'] + zero_pad(ms as nat, 3)
        + seq!['Z']
}

/// The ISO-8601 text of the instant `t` milliseconds after the epoch: the
/// calendar date of its day, and its time of day.
pub open spec fn iso_text_of(t: int, text: Seq<char>) -> bool {
    let days = t / 86_400_000;
    let ms_of_day = t % 86_400_000;
    exists|y: int, m: int, d: int|
        #![trigger days_from_civil(y, m, d)]
        valid_date(y, m, d) && days_from_civil(y, m, d) == days && text == timestamp_text(
            y,
            m,
            d,
            ms_of_day / 3_600_000,
            ms_of_day % 3_600_000 / 60_000,
            ms_of_day % 60_000 / 1000,
            ms_of_day % 1000,
        )
}

/// The start of year-of-era `yoe` within its 400-year era, counted in days
/// from the era's first March 1st.
spec fn march_year_start(yoe: int) -> int {
    365 * yoe + yoe / 4 - yoe / 100
}

/// Hinnant's estimate of the year of era is the year whose span holds the day.
proof fn lemma_year_of_era(doe: int)
    requires
        0 <= doe <= 146096,
    ensures
        ({
            let yoe = (doe - doe / 1460 + doe / 36524 - doe / 146096) / 365;
            &&& 0 <= yoe <= 399
            &&& march_year_start(yoe) <= doe
            &&& doe < 365 * (yoe + 1) + (yoe + 1) / 4 - (yoe + 1) / 100 + (yoe + 1) / 400
        }),
{
}

/// The start of a March-based year, counted in days from 0000-03-01.
spec fn march_days(y: int) -> int {
    365 * y + y / 4 - y / 100 + y / 400
}

/// A March-based year starts its era's day count at the start of its year of
/// era.
proof fn lemma_era_start(era: int, yoe: int)
    requires
        0 <= yoe <= 399,
    ensures
        march_days(yoe + 400 * era) == era * 146097 + march_year_start(yoe),
{
}

/// The day of a March-based year splits into a month (0 for March) and a day
/// of month, the month starting `(153 * mp + 2) / 5` days into the year.
proof fn lemma_month_of_day(doy: int)
    requires
        0 <= doy <= 365,
    ensures
        ({
            let mp = (5 * doy + 2) / 153;
            let d = doy - (153 * mp + 2) / 5 + 1;
            &&& 0 <= mp <= 11
            &&& 1 <= d
            &&& mp == 0 ==> d <= 31 && (153 * mp + 2) / 5 == 0
            &&& mp == 1 ==> d <= 30 && (153 * mp + 2) / 5 == 31
            &&& mp == 2 ==> d <= 31 && (153 * mp + 2) / 5 == 61
            &&& mp == 3 ==> d <= 30 && (153 * mp + 2) / 5 == 92
            &&& mp == 4 ==> d <= 31 && (153 * mp + 2) / 5 == 122
            &&& mp == 5 ==> d <= 31 && (153 * mp + 2) / 5 == 153
            &&& mp == 6 ==> d <= 30 && (153 * mp + 2) / 5 == 184
            &&& mp == 7 ==> d <= 31 && (153 * mp + 2) / 5 == 214
            &&& mp == 8 ==> d <= 30 && (153 * mp + 2) / 5 == 245
            &&& mp == 9 ==> d <= 31 && (153 * mp + 2) / 5 == 275
            &&& mp == 10 ==> d <= 31 && (153 * mp + 2) / 5 == 306
            &&& mp == 11 ==> d == doy - 336 && (153 * mp + 2) / 5 == 337
        }),
{
}

/// The last day of a March-based year of era falls on day 365 only when the
/// following calendar year is a leap year.
proof fn lemma_year_length(era: int, doe: int)
    requires
        0 <= doe <= 146096,
    ensures
        ({
            let yoe = (doe - doe / 1460 + doe / 36524 - doe / 146096) / 365;
            let doy = doe - march_year_start(yoe);
            &&& 0 <= doy <= 365
            &&& doy == 365 ==> is_leap(yoe + era * 400 + 1)
        }),
{
    lemma_year_of_era(doe);
    let yoe = (doe - doe / 1460 + doe / 36524 - doe / 146096) / 365;
    let y1 = yoe + era * 400 + 1;
    vstd::arithmetic::div_mod::lemma_mod_multiples_vanish(era, yoe + 1, 400);
    vstd::arithmetic::div_mod::lemma_mod_multiples_vanish(4 * era, yoe + 1, 100);
    vstd::arithmetic::div_mod::lemma_mod_multiples_vanish(100 * era, yoe + 1, 4);
    assert(y1 == 400 * era + (yoe + 1));
    assert(y1 == 100 * (4 * era) + (yoe + 1));
    assert(y1 == 4 * (100 * era) + (yoe + 1));
    assert(y1 % 4 == (yoe + 1) % 4);
    assert(y1 % 100 == (yoe + 1) % 100);
    assert(y1 % 400 == (yoe + 1) % 400);
}

/// The day count of a date, read in its March-based year.
proof fn lemma_days_from_march(yy: int, mp: int, d: int)
    requires
        0 <= mp <= 11,
    ensures
        ({
            let m = if mp < 10 { mp + 3 } else { mp - 9 };
            let y = yy + if m <= 2 { 1int } else { 0int };
            days_from_civil(y, m, d) == march_days(yy) + (153 * mp + 2) / 5 + d - 1 - 719468
        }),
{
    let m = if mp < 10 { mp + 3 } else { mp - 9 };
    if m > 2 {
        assert(leaps_before(yy) + if is_leap(yy) { 1int } else { 0int } == yy / 4 - yy / 100 + yy / 400);
        assert((153 * mp + 2) / 5 + 59 + (if is_leap(yy) { 1int } else { 0int }) == days_before_month(yy, m)) by {
            lemma_month_offsets(mp);
        }
    } else {
        assert(leaps_before(yy + 1) == yy / 4 - yy / 100 + yy / 400);
        lemma_month_offsets(mp);
    }
}

/// The month offsets of a March-based year.
proof fn lemma_month_offsets(mp: int)
    requires
        0 <= mp <= 11,
    ensures
        mp == 0 ==> (153 * mp + 2) / 5 == 0,
        mp == 1 ==> (153 * mp + 2) / 5 == 31,
        mp == 2 ==> (153 * mp + 2) / 5 == 61,
        mp == 3 ==> (153 * mp + 2) / 5 == 92,
        mp == 4 ==> (153 * mp + 2) / 5 == 122,
        mp == 5 ==> (153 * mp + 2) / 5 == 153,
        mp == 6 ==> (153 * mp + 2) / 5 == 184,
        mp == 7 ==> (153 * mp + 2) / 5 == 214,
        mp == 8 ==> (153 * mp + 2) / 5 == 245,
        mp == 9 ==> (153 * mp + 2) / 5 == 275,
        mp == 10 ==> (153 * mp + 2) / 5 == 306,
        mp == 11 ==> (153 * mp + 2) / 5 == 337,
{
}

/// The date the algorithm reads off a day of era is a calendar date and
/// counts back to that day.
proof fn lemma_civil_from_day_of_era(era: int, doe: int)
    requires
        0 <= doe <= 146096,
    ensures
        ({
            let yoe = (doe - doe / 1460 + doe / 36524 - doe / 146096) / 365;
            let doy = doe - march_year_start(yoe);
            let mp = (5 * doy + 2) / 153;
            let d = doy - (153 * mp + 2) / 5 + 1;
            let m = if mp < 10 { mp + 3 } else { mp - 9 };
            let y = yoe + era * 400 + if m <= 2 { 1int } else { 0int };
            &&& valid_date(y, m, d)
            &&& days_from_civil(y, m, d) == era * 146097 + doe - 719468
        }),
{
    lemma_year_of_era(doe);
    lemma_year_length(era, doe);
    let yoe = (doe - doe / 1460 + doe / 36524 - doe / 146096) / 365;
    let doy = doe - march_year_start(yoe);
    lemma_month_of_day(doy);
    let mp = (5 * doy + 2) / 153;
    let d = doy - (153 * mp + 2) / 5 + 1;
    let yy = yoe + era * 400;
    lemma_era_start(era, yoe);
    assert(yoe + 400 * era == yy);
    lemma_days_from_march(yy, mp, d);
}

/// The civil date of the day `days` after 1970-01-01.
fn civil_from_days(days: i64) -> (r: (i64, i64, i64))
    requires
        -200_000_000_000 <= days <= 200_000_000_000,
    ensures
        valid_date(r.0 as int, r.1 as int, r.2 as int),
        days_from_civil(r.0 as int, r.1 as int, r.2 as int) == days,
{
    // Shift by whole eras so that every division below is of a non-negative
    // number.
    let z: i64 = days + 719_468 + 146_097 * 2_000_000;
    let era_shifted: i64 = z / 146_097;
    let doe: i64 = z - era_shifted * 146_097;
    let era: i64 = era_shifted - 2_000_000;
    let yoe: i64 = (doe - doe / 1460 + doe / 36_524 - doe / 146_096) / 365;
    let doy: i64 = doe - (365 * yoe + yoe / 4 - yoe / 100);
    let mp: i64 = (5 * doy + 2) / 153;
    let d: i64 = doy - (153 * mp + 2) / 5 + 1;
    let m: i64 = if mp < 10 { mp + 3 } else { mp - 9 };
    let y: i64 = yoe + era * 400 + if m <= 2 { 1 } else { 0 };
    proof {
        lemma_year_of_era(doe as int);
        lemma_civil_from_day_of_era(era as int, doe as int);
    }
    (y, m, d)
}

/// The length of the decimal rendering of small numbers.
proof fn lemma_decimal_width(n: nat)
    ensures
        n < 10 ==> decimal(n).len() == 1,
        10 <= n < 100 ==> decimal(n).len() == 2,
        100 <= n < 1000 ==> decimal(n).len() == 3,
        1000 <= n ==> decimal(n).len() >= 4,
    decreases n,
{
    if n >= 10 {
        lemma_decimal_width(n / 10);
    }
}

/// Append `n` zero-padded to `width` (at most four) characters.
fn push_padded(s: &mut String, n: u64, width: usize)
    requires
        1 <= width <= 4,
    ensures
        final(s)@ == old(s)@ + zero_pad(n as nat, width as int),
{
    proof {
        lemma_decimal_width(n as nat);
    }
    let ghost before = s@;
    let mut z: usize = 0;
    if width >= 4 && n < 1000 {
        push_char(s, '0');
        z = z + 1;
    }
    if width >= 3 && n < 100 {
        push_char(s, '0');
        z = z + 1;
    }
    if width >= 2 && n < 10 {
        push_char(s, '0');
        z = z + 1;
    }
    proof {
        assert(s@ =~= before + zeros(z as int));
        assert(zeros(z as int) =~= zeros(width - decimal(n as nat).len()));
    }
    push_decimal(s, n);
    proof {
        assert(s@ =~= before + zero_pad(n as nat, width as int));
    }
}

/// Append a separator character.
fn push_sep(s: &mut String, c: char)
    ensures
        final(s)@ == old(s)@ + seq![c],
{
    push_char(s, c);
    assert(old(s)@.push(c) =~= old(s)@ + seq![c]);
}

/// The ISO-8601 UTC timestamp, with millisecond precision, of the instant
/// `total_millis` milliseconds after 1970-01-01T00:00:00Z.
pub fn iso8601_millis(total_millis: i64) -> (r: String)
    ensures
        iso_text_of(total_millis as int, r@),
{
    // Shift by whole days so that the divisions are of non-negative numbers.
    let shifted: i128 = total_millis as i128 + 86_400_000i128 * 110_000_000_000i128;
    let days: i64 = (shifted / 86_400_000 - 110_000_000_000) as i64;
    let ms_of_day: u64 = (shifted % 86_400_000) as u64;
    proof {
        assert(days == total_millis as int / 86_400_000);
        assert(ms_of_day == total_millis as int % 86_400_000);
    }
    let (y, m, d) = civil_from_days(days);
    let hour = ms_of_day / 3_600_000;
    let minute = ms_of_day % 3_600_000 / 60_000;
    let second = ms_of_day % 60_000 / 1000;
    let millis = ms_of_day % 1000;
    let mut out = String::new();
    if y < 0 {
        push_sep(&mut out, '-');
        push_padded(&mut out, (-y) as u64, 3);
    } else {
        push_padded(&mut out, y as u64, 4);
    }
    push_sep(&mut out, '-');
    push_padded(&mut out, m as u64, 2);
    push_sep(&mut out, '-');
    push_padded(&mut out, d as u64, 2);
    push_sep(&mut out, 'T');
    push_padded(&mut out, hour, 2);
    push_sep(&mut out, ':');
    push_padded(&mut out, minute, 2);
    push_sep(&mut out, ':');
    push_padded(&mut out, second, 2);
    push_sep(&mut out, '.');
    push_padded(&mut out, millis, 3);
    push_sep(&mut out, 'Z');
    proof {
        assert(out@ =~= timestamp_text(
            y as int,
            m as int,
            d as int,
            hour as int,
            minute as int,
            second as int,
            millis as int,
        ));
        assert(valid_date(y as int, m as int, d as int) && days_from_civil(y as int, m as int, d as int) == days);
    }
    out
}

/// Within a year, a valid date's day count from the year's start lies inside
/// the year.
proof fn lemma_day_of_year_bounds(y: int, m: int, d: int)
    requires
        valid_date(y, m, d),
    ensures
        0 <= days_before_month(y, m) + d - 1,
        days_before_month(y, m) + d - 1 < 365 + if is_leap(y) { 1int } else { 0int },
{
}

/// Within a year, distinct valid dates have distinct day counts.
proof fn lemma_same_year_injective(y: int, m1: int, d1: int, m2: int, d2: int)
    requires
        valid_date(y, m1, d1),
        valid_date(y, m2, d2),
        days_before_month(y, m1) + d1 == days_before_month(y, m2) + d2,
    ensures
        m1 == m2 && d1 == d2,
{
}

/// The days before a later year are at least the days before an earlier one
/// plus that year's length.
proof fn lemma_years_ordered(a: int, b: int)
    requires
        a < b,
    ensures
        days_from_civil(a, 1, 1) + 365 + (if is_leap(a) { 1int } else { 0int }) <= days_from_civil(b, 1, 1),
    decreases b - a,
{
    lemma_next_year(a);
    if b > a + 1 {
        lemma_years_ordered(a + 1, b);
    }
}

/// A year's first day follows the previous year's first day by that year's
/// length.
proof fn lemma_next_year(a: int)
    ensures
        days_from_civil(a + 1, 1, 1) == days_from_civil(a, 1, 1) + 365 + if is_leap(a) { 1int } else { 0int },
{
    lemma_step4(a);
    lemma_step100(a);
    lemma_step400(a);
    vstd::arithmetic::div_mod::lemma_mod_multiples_vanish(4 * (a / 400), a % 400, 100);
    vstd::arithmetic::div_mod::lemma_mod_multiples_vanish(25 * (a / 100), a % 100, 4);
    vstd::arithmetic::div_mod::lemma_fundamental_div_mod(a, 400);
    vstd::arithmetic::div_mod::lemma_fundamental_div_mod(a, 100);
    assert(a % 400 == 0 ==> a % 100 == 0);
    assert(a % 100 == 0 ==> a % 4 == 0);
    assert(days_before_month(a + 1, 1) == 0 && days_before_month(a, 1) == 0);
    assert(leaps_before(a + 1) - leaps_before(a) == if is_leap(a) { 1int } else { 0int });
}

proof fn lemma_step4(a: int)
    ensures
        a / 4 - (a - 1) / 4 == if a % 4 == 0 { 1int } else { 0int },
{
}

proof fn lemma_step100(a: int)
    ensures
        a / 100 - (a - 1) / 100 == if a % 100 == 0 { 1int } else { 0int },
{
}

proof fn lemma_step400(a: int)
    ensures
        a / 400 - (a - 1) / 400 == if a % 400 == 0 { 1int } else { 0int },
{
}

/// Distinct calendar dates have distinct day counts, so the date a timestamp
/// renders is the one date of its day.
pub proof fn law_civil_date_unique(y1: int, m1: int, d1: int, y2: int, m2: int, d2: int)
    requires
        valid_date(y1, m1, d1),
        valid_date(y2, m2, d2),
        days_from_civil(y1, m1, d1) == days_from_civil(y2, m2, d2),
    ensures
        y1 == y2 && m1 == m2 && d1 == d2,
{
    lemma_day_of_year_bounds(y1, m1, d1);
    lemma_day_of_year_bounds(y2, m2, d2);
    if y1 < y2 {
        lemma_years_ordered(y1, y2);
    } else if y2 < y1 {
        lemma_years_ordered(y2, y1);
    } else {
        lemma_same_year_injective(y1, m1, d1, m2, d2);
    }
}

} // verus!
