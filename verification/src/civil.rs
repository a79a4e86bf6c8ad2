//! The civil calendar: the proleptic Gregorian date of a day number.

use crate::text;
use vstd::prelude::*;
use vstd::string::StringExecFns;

verus! {

/// A date: the year, the month from 1 and the day of the month from 1.
pub struct Date {
    pub year: int,
    pub month: int,
    pub day: int,
}

/// The years with a 29 February.
pub open spec fn is_leap(year: int) -> bool {
    year % 4 == 0 && (year % 100 != 0 || year % 400 == 0)
}

/// How many days a month has.
pub open spec fn month_days(year: int, month: int) -> int {
    if month == 2 {
        if is_leap(year) {
            29
        } else {
            28
        }
    } else if month == 4 || month == 6 || month == 9 || month == 11 {
        30
    } else {
        31
    }
}

/// A date that the calendar has.
pub open spec fn is_date(t: Date) -> bool {
    1 <= t.month <= 12 && 1 <= t.day <= month_days(t.year, t.month)
}

/// How many days of a year come before a month.
pub open spec fn days_before_month(year: int, month: int) -> int
    decreases month,
{
    if month <= 1 {
        0
    } else {
        days_before_month(year, month - 1) + month_days(year, month - 1)
    }
}

/// The first day of a year, counted from the first day of year 0.
pub open spec fn year_start(year: int) -> int {
    365 * year + (year + 3) / 4 - (year + 99) / 100 + (year + 399) / 400
}

/// A date as a count of days from 1970-01-01.
pub open spec fn day_number(t: Date) -> int {
    year_start(t.year) - year_start(1970) + days_before_month(t.year, t.month) + t.day - 1
}

/// Every year is as long as its months are together: a year with a 29 February has 366
/// days, and any other has 365.
pub proof fn law_year_length(year: int)
    ensures
        year_start(year + 1) - year_start(year) == days_before_month(year, 13),
        days_before_month(year, 13) == (if is_leap(year) {
            366int
        } else {
            365
        }),
{
    reveal_with_fuel(days_before_month, 14);
}

/// The date of a day, counted from 1970-01-01.
pub open spec fn date_of(day: int) -> Date {
    choose|t: Date| is_date(t) && #[trigger] day_number(t) == day
}

/// The first day of March of a year, counted from the first of March of year 0.
spec fn march_start(year: int) -> int {
    365 * year + year / 4 - year / 100 + year / 400
}

/// How many days come before a month of a year that starts in March.
spec fn march_offset(mp: int) -> int {
    (153 * mp + 2) / 5
}

/// The year within a span of four centuries that a day falls in, where years start in
/// March.
proof fn lemma_year_of_era(doe: int)
    requires
        0 <= doe <= 146_096,
    ensures
        ({
            let yoe = (doe - doe / 1460 + doe / 36_524 - doe / 146_096) / 365;
            &&& 0 <= yoe <= 399
            &&& march_start(yoe) <= doe < march_start(yoe + 1)
        }),
{
}

/// The date of a day, by counting years from March: the day that leap years add is then
/// the last of the year.
spec fn computed(day: int) -> Date {
    let z = day + 719_468;
    let era = z / 146_097;
    let doe = z % 146_097;
    let yoe = (doe - doe / 1460 + doe / 36_524 - doe / 146_096) / 365;
    let doy = doe - march_start(yoe);
    let mp = (5 * doy + 2) / 153;
    let month = if mp < 10 {
        mp + 3
    } else {
        mp - 9
    };
    Date {
        year: yoe + era * 400 + (if month <= 2 {
            1int
        } else {
            0
        }),
        month,
        day: doy - march_offset(mp) + 1,
    }
}

/// The month that a day of a year falls in, where the year starts in March.
proof fn lemma_month_of_year(doy: int)
    requires
        0 <= doy <= 365,
    ensures
        ({
            let mp = (5 * doy + 2) / 153;
            &&& 0 <= mp <= 11
            &&& march_offset(mp) <= doy
            &&& mp < 11 ==> doy < march_offset(mp + 1)
        }),
{
}

/// The months from March to January are as long as their offsets are apart.
proof fn lemma_march_months(year: int, mp: int)
    requires
        0 <= mp <= 10,
    ensures
        mp < 10 ==> march_offset(mp + 1) - march_offset(mp) == month_days(year, mp + 3),
        mp == 10 ==> march_offset(11) - march_offset(10) == month_days(year, 1),
{
}

/// The days of a year before a month from March on.
proof fn lemma_before_march_month(year: int, mp: int)
    requires
        0 <= mp <= 9,
    ensures
        days_before_month(year, mp + 3) == march_offset(mp) + (if is_leap(year) {
            60int
        } else {
            59
        }),
    decreases mp,
{
    if mp == 0 {
        reveal_with_fuel(days_before_month, 3);
    } else {
        lemma_before_march_month(year, mp - 1);
        lemma_march_months(year, mp - 1);
    }
}

/// How the years that start in March lie to the others: the first of March of year 0 is
/// its sixtieth day, and 306 days are left from then on.
proof fn lemma_march_start(y: int)
    ensures
        year_start(y + 1) == march_start(y) + 366,
        march_start(y + 1) - march_start(y) == (if is_leap(y + 1) {
            366int
        } else {
            365
        }),
{
}

/// Four centuries later everything is the same.
proof fn lemma_era(yoe: int, era: int)
    ensures
        march_start(yoe + era * 400) == march_start(yoe) + era * 146_097,
        is_leap(yoe + era * 400) == is_leap(yoe),
{
    let y = yoe + era * 400;
    assert(y / 4 == yoe / 4 + era * 100);
    assert(y / 100 == yoe / 100 + era * 4);
    assert(y / 400 == yoe / 400 + era);
}

/// Counting years from March finds the date.
proof fn lemma_computed(day: int)
    ensures
        is_date(computed(day)),
        day_number(computed(day)) == day,
{
    let z = day + 719_468;
    let era = z / 146_097;
    let doe = z % 146_097;
    let yoe = (doe - doe / 1460 + doe / 36_524 - doe / 146_096) / 365;
    let doy = doe - march_start(yoe);
    let mp = (5 * doy + 2) / 153;
    let y = yoe + era * 400;
    lemma_year_of_era(doe);
    lemma_era(yoe, era);
    lemma_era(yoe + 1, era);
    lemma_march_start(y);
    lemma_march_start(yoe);
    law_year_length(y);
    lemma_month_of_year(doy);
    assert(day == march_start(y) + doy - 719_468);
    assert(year_start(1970) == 719_528);
    if mp < 10 {
        lemma_march_months(y, mp);
        lemma_before_march_month(y, mp);
    } else {
        if mp == 10 {
            lemma_march_months(y + 1, mp);
        }
        reveal_with_fuel(days_before_month, 3);
    }
}

/// An earlier date has a smaller number.
pub proof fn law_dates_in_order(a: Date, b: Date)
    requires
        is_date(a),
        is_date(b),
        a.year < b.year || (a.year == b.year && (a.month < b.month || (a.month == b.month && a.day
            < b.day))),
    ensures
        day_number(a) < day_number(b),
{
    if a.year < b.year {
        law_year_length(a.year);
        lemma_later_year(a.year + 1, b.year);
        lemma_later_month(a.year, a.month + 1, 13);
        lemma_later_month(b.year, 1, b.month);
    } else if a.month < b.month {
        lemma_later_month(a.year, a.month + 1, b.month);
    }
}

/// A later year starts later.
proof fn lemma_later_year(a: int, b: int)
    requires
        a <= b,
    ensures
        year_start(a) <= year_start(b),
{
}

/// A later month starts later.
proof fn lemma_later_month(year: int, a: int, b: int)
    requires
        1 <= a <= b,
    ensures
        days_before_month(year, a) <= days_before_month(year, b),
    decreases b - a,
{
    if a < b {
        lemma_later_month(year, a, b - 1);
    }
}

/// Every day has one date, and it is the date whose number is that day.
pub proof fn law_every_day_has_one_date(day: int)
    ensures
        is_date(date_of(day)),
        day_number(date_of(day)) == day,
        forall|t: Date| is_date(t) && #[trigger] day_number(t) == day ==> t == date_of(day),
{
    lemma_computed(day);
    let c = date_of(day);
    assert(is_date(c) && day_number(c) == day);
    assert forall|t: Date| is_date(t) && #[trigger] day_number(t) == day implies t == c by {
        if t != c {
            if t.year < c.year || (t.year == c.year && (t.month < c.month || (t.month == c.month
                && t.day < c.day))) {
                law_dates_in_order(t, c);
            } else {
                law_dates_in_order(c, t);
            }
        }
    }
}

/// How many seconds a day has.
pub const DAY_SECONDS: i64 = 86_400;

/// The day that a number of seconds from the start of 1970 falls in.
pub open spec fn day_of(secs: int) -> int {
    secs / (DAY_SECONDS as int)
}

/// A date as `YYYY-MM-DD`.
pub open spec fn date_text(t: Date) -> Seq<char> {
    text::padded(t.year, 4) + seq!['-'] + text::padded(t.month, 2) + seq!['-'] + text::padded(
        t.day,
        2,
    )
}

/// The date, as `YYYY-MM-DD`, of a number of seconds from the start of 1970.
pub fn fmt_date(secs: i64) -> (s: String)
    ensures
        s@ == date_text(date_of(day_of(secs as int))),
{
    let days: i64 = secs.checked_div_euclid(DAY_SECONDS).unwrap_or(0);
    let ghost day = day_of(secs as int);
    assert(days == day);
    let z: i64 = days + 719_468;
    let era: i64 = z.checked_div_euclid(146_097).unwrap_or(0);
    let doe: u64 = (z - era * 146_097) as u64;
    proof {
        lemma_year_of_era(doe as int);
    }
    let yoe: u64 = (doe - doe / 1460 + doe / 36_524 - doe / 146_096) / 365;
    let doy: u64 = doe - (365 * yoe + yoe / 4 - yoe / 100);
    let mp: u64 = (5 * doy + 2) / 153;
    let d: u64 = doy - (153 * mp + 2) / 5 + 1;
    let m: u64 = if mp < 10 {
        mp + 3
    } else {
        mp - 9
    };
    let y: i64 = yoe as i64 + era * 400 + (if m <= 2 {
        1
    } else {
        0
    });
    proof {
        lemma_computed(day);
        law_every_day_has_one_date(day);
        assert(computed(day) == Date { year: y as int, month: m as int, day: d as int });
    }
    let mut s = text::padded_text(y, 4);
    s.push('-');
    s.append(text::padded_text(m as i64, 2).as_str());
    s.push('-');
    s.append(text::padded_text(d as i64, 2).as_str());
    assert(s@ == date_text(date_of(day)));
    s
}

} // verus!
