//! Civil dates.

use vstd::prelude::*;

use crate::text;

verus! {

/// Whether a year of the Gregorian calendar has a leap day.
pub open spec fn is_leap(year: int) -> bool {
    year % 4 == 0 && (year % 100 != 0 || year % 400 == 0)
}

/// The number of days from 1 March of the year zero to 1 March of `year`.
pub open spec fn days_to_march(year: int) -> int {
    365 * year + year / 4 - year / 100 + year / 400
}

/// The number of days from 1 March to the first of the `m`-th month after it.
pub open spec fn days_to_month(m: int) -> int {
    (153 * m + 2) / 5
}

/// The number of days from the Unix epoch to a date.
pub open spec fn days_from_civil(year: int, month: int, day: int) -> int {
    let y = if month <= 2 {
        year - 1
    } else {
        year
    };
    let m = if month <= 2 {
        month + 9
    } else {
        month - 3
    };
    days_to_march(y) + days_to_month(m) + (day - 1) - 719_468
}

/// The number of days of a month.
pub open spec fn month_length(year: int, month: int) -> int {
    if month == 2 {
        if is_leap(year) {
            29
        } else {
            28
        }
    } else if month == 4 || month == 6 || month == 9 || month == 11 {
        30
    } else {
        31
    }
}

/// Whether a date is one of the calendar.
pub open spec fn is_date(year: int, month: int, day: int) -> bool {
    1 <= month <= 12 && 1 <= day <= month_length(year, month)
}

/// The year of a 400-year era that day `doe` of the era falls in, where years
/// begin in March.
proof fn lemma_year_of_era(doe: u32)
    by (bit_vector)
    requires
        doe < 146_097,
    ensures
        ({
            let yoe = ((doe - doe / 1_460 + doe / 36_524 - doe / 146_096) as u32) / 365;
            &&& doe / 1_460 <= doe
            &&& doe - doe / 1_460 + doe / 36_524 >= doe / 146_096
            &&& yoe < 400
            &&& yoe * 365 + yoe / 4 - yoe / 100 <= doe
            &&& doe - (yoe * 365 + yoe / 4 - yoe / 100) <= 365
            &&& doe - (yoe * 365 + yoe / 4 - yoe / 100) == 365 ==> ((yoe + 1) % 4 == 0 && ((yoe
                + 1) % 100 != 0 || (yoe + 1) % 400 == 0))
        }),
{
}

/// The month and the day of the month that day `doy` of a year falls in, where
/// years begin in March.
proof fn lemma_month_of_year(doy: u32)
    by (bit_vector)
    requires
        doy <= 365,
    ensures
        ({
            let mp = ((doy * 5 + 2) as u32) / 153;
            let start = ((mp * 153 + 2) as u32) / 5;
            &&& mp <= 11
            &&& start <= doy
            &&& (mp == 0 || mp == 2 || mp == 4 || mp == 5 || mp == 7 || mp == 9 || mp == 10)
                ==> doy - start < 31
            &&& (mp == 1 || mp == 3 || mp == 6 || mp == 8) ==> doy - start < 30
            &&& mp == 11 ==> doy - start < 29
            &&& mp == 11 && doy - start == 28 ==> doy == 365
        }),
{
}

/// Whole eras of 400 years can be split off.
proof fn lemma_split_era(yoe: int, era: int)
    requires
        0 <= yoe < 400,
        0 <= era,
    ensures
        days_to_march(yoe + 400 * era) == 365 * yoe + yoe / 4 - yoe / 100 + 146_097 * era,
        is_leap(yoe + 1 + 400 * era) == is_leap(yoe + 1),
{
    let y = yoe + 400 * era;
    assert(y / 4 == yoe / 4 + 100 * era);
    assert(y / 100 == yoe / 100 + 4 * era);
    assert(y / 400 == era);
    assert((y + 1) % 4 == (yoe + 1) % 4);
    assert((y + 1) % 100 == (yoe + 1) % 100);
    assert((y + 1) % 400 == (yoe + 1) % 400);
}

/// The date of a day; nothing where the sum of the days overflows.
pub fn civil_from_days(days_since_epoch: u64) -> (date: Option<(u64, u64, u64)>)
    ensures
        date is None <==> days_since_epoch + 719_468 > u64::MAX,
        date matches Some(d) ==> {
            &&& is_date(d.0 as int, d.1 as int, d.2 as int)
            &&& days_from_civil(d.0 as int, d.1 as int, d.2 as int) == days_since_epoch
        },
{
    if days_since_epoch > u64::MAX - 719_468 {
        return None;
    }
    let z: u64 = days_since_epoch + 719_468;
    let era: u64 = z / 146_097;
    let doe: u32 = (z % 146_097) as u32;
    proof {
        lemma_year_of_era(doe);
    }
    let yoe: u32 = (doe - doe / 1_460 + doe / 36_524 - doe / 146_096) / 365;
    let doy: u32 = doe - (yoe * 365 + yoe / 4 - yoe / 100);
    proof {
        lemma_month_of_year(doy);
    }
    let mp: u32 = (doy * 5 + 2) / 153;
    let day: u32 = doy - (mp * 153 + 2) / 5 + 1;
    let month: u32 = if mp < 10 {
        mp + 3
    } else {
        mp - 9
    };
    let base: u64 = yoe as u64 + era * 400;
    let year: u64 = if month <= 2 {
        base + 1
    } else {
        base
    };
    proof {
        lemma_split_era(yoe as int, era as int);
        assert(z == era * 146_097 + doe);
    }
    Some((year, month as u64, day as u64))
}

/// A month later is as many days later as the month has.
pub proof fn months_have_their_length(m: int)
    requires
        0 <= m < 11,
    ensures
        days_to_month(m + 1) - days_to_month(m) == month_length(
            1,
            if m < 10 {
                m + 3
            } else {
                m - 9
            },
        ),
{
}

/// A year later is 365 days later, and one more where the year holds a leap
/// day.
pub proof fn years_have_their_length(year: int)
    requires
        0 <= year,
    ensures
        days_to_march(year + 1) - days_to_march(year) == if is_leap(year + 1) {
            366int
        } else {
            365int
        },
{
}

/// Two dates of the same day are the same date.
pub proof fn a_day_has_one_date(a: (int, int, int), b: (int, int, int))
    requires
        is_date(a.0, a.1, a.2),
        is_date(b.0, b.1, b.2),
        0 < a.0,
        0 < b.0,
        days_from_civil(a.0, a.1, a.2) == days_from_civil(b.0, b.1, b.2),
    ensures
        a == b,
{
    let (ya, ma) = if a.1 <= 2 {
        (a.0 - 1, a.1 + 9)
    } else {
        (a.0, a.1 - 3)
    };
    let (yb, mb) = if b.1 <= 2 {
        (b.0 - 1, b.1 + 9)
    } else {
        (b.0, b.1 - 3)
    };
    lemma_day_of_year(a.0, a.1, a.2);
    lemma_day_of_year(b.0, b.1, b.2);
    if ya < yb {
        lemma_years_grow(ya + 1, yb);
        years_have_their_length(ya);
    } else if yb < ya {
        lemma_years_grow(yb + 1, ya);
        years_have_their_length(yb);
    } else if ma < mb {
        lemma_months_grow(ma + 1, mb);
        months_have_their_length(ma);
    } else if mb < ma {
        lemma_months_grow(mb + 1, ma);
        months_have_their_length(mb);
    }
}

/// A date falls into its March-based year.
proof fn lemma_day_of_year(year: int, month: int, day: int)
    requires
        is_date(year, month, day),
        0 < year,
    ensures
        ({
            let y = if month <= 2 {
                year - 1
            } else {
                year
            };
            let m = if month <= 2 {
                month + 9
            } else {
                month - 3
            };
            &&& 0 <= m <= 11
            &&& 0 <= days_to_month(m) + (day - 1) < if is_leap(y + 1) {
                366int
            } else {
                365int
            }
        }),
{
}

proof fn lemma_years_grow(a: int, b: int)
    requires
        0 <= a <= b,
    ensures
        days_to_march(a) <= days_to_march(b),
    decreases b - a,
{
    if a < b {
        lemma_years_grow(a, b - 1);
        years_have_their_length(b - 1);
    }
}

proof fn lemma_months_grow(a: int, b: int)
    requires
        0 <= a <= b <= 11,
    ensures
        days_to_month(a) <= days_to_month(b),
{
}

/// The text of an instant, to the second: `YYYY-MM-DDTHH:MM:SSZ`.
pub open spec fn civil_text(year: int, month: int, day: int, secs_of_day: int) -> Seq<char> {
    text::four_digits(year as nat) + "-"@ + text::two_digits(month) + "-"@ + text::two_digits(day)
        + "T"@ + text::two_digits(secs_of_day / 3_600) + ":"@ + text::two_digits(
        secs_of_day / 60 % 60,
    ) + ":"@ + text::two_digits(secs_of_day % 60) + "Z"@
}

/// Whether a text renders an instant given in Unix seconds.
pub open spec fn renders(rendered: Seq<char>, unix_secs: u64) -> bool {
    exists|year: int, month: int, day: int|
        {
            &&& #[trigger] is_date(year, month, day)
            &&& 0 < year
            &&& days_from_civil(year, month, day) == unix_secs / 86_400
            &&& rendered == civil_text(year, month, day, (unix_secs % 86_400) as int)
        }
}

/// An instant is rendered by one text only.
pub proof fn an_instant_has_one_text(a: Seq<char>, b: Seq<char>, unix_secs: u64)
    requires
        renders(a, unix_secs),
        renders(b, unix_secs),
    ensures
        a == b,
{
    let days = unix_secs / 86_400;
    let secs = (unix_secs % 86_400) as int;
    let (y1, m1, d1) = choose|year: int, month: int, day: int|
        {
            &&& #[trigger] is_date(year, month, day)
            &&& 0 < year
            &&& days_from_civil(year, month, day) == days
            &&& a == civil_text(year, month, day, secs)
        };
    let (y2, m2, d2) = choose|year: int, month: int, day: int|
        {
            &&& #[trigger] is_date(year, month, day)
            &&& 0 < year
            &&& days_from_civil(year, month, day) == days
            &&& b == civil_text(year, month, day, secs)
        };
    a_day_has_one_date((y1, m1, d1), (y2, m2, d2));
}

/// The text of an instant given in Unix seconds. The date arithmetic never
/// overflows for one.
pub fn format_rfc3339(unix_secs: u64) -> (out: Option<String>)
    ensures
        out is Some,
        renders(out->0@, unix_secs),
{
    let secs_of_day: u64 = unix_secs % 86_400;
    match civil_from_days(unix_secs / 86_400) {
        Some((year, month, day)) => {
            let mut out = String::new();
            text::push_four_digits(&mut out, year);
            assert(out@ =~= text::four_digits(year as nat));
            text::push_text(&mut out, "-");
            text::push_two_digits(&mut out, month);
            text::push_text(&mut out, "-");
            text::push_two_digits(&mut out, day);
            text::push_text(&mut out, "T");
            text::push_two_digits(&mut out, secs_of_day / 3_600);
            text::push_text(&mut out, ":");
            text::push_two_digits(&mut out, secs_of_day / 60 % 60);
            text::push_text(&mut out, ":");
            text::push_two_digits(&mut out, secs_of_day % 60);
            text::push_text(&mut out, "Z");
            proof {
                assert(out@ == civil_text(
                    year as int,
                    month as int,
                    day as int,
                    secs_of_day as int,
                ));
                assert(is_date(year as int, month as int, day as int));
                if year == 0 {
                    assert(days_from_civil(0, month as int, day as int) < 0);
                }
            }
            Some(out)
        },
        None => None,
    }
}

/// The text of an instant given in Unix seconds.
pub fn rfc3339_at(unix_secs: u64) -> (out: String)
    ensures
        renders(out@, unix_secs),
{
    match format_rfc3339(unix_secs) {
        Some(out) => out,
        None => {
            let mut out = String::from_str("<unix:");
            text::push_decimal(&mut out, unix_secs as u128);
            text::push_text(&mut out, ">");
            out
        },
    }
}

/// The day after a date is the next of its month, or the first of the next
/// month, or the first of the next year; and the first day is that of 1970.
pub proof fn days_follow_each_other(year: int, month: int, day: int)
    requires
        is_date(year, month, day),
        0 < year,
    ensures
        day < month_length(year, month) ==> days_from_civil(year, month, day + 1)
            == days_from_civil(year, month, day) + 1,
        day == month_length(year, month) && month < 12 ==> days_from_civil(year, month + 1, 1)
            == days_from_civil(year, month, day) + 1,
        day == month_length(year, month) && month == 12 ==> days_from_civil(year + 1, 1, 1)
            == days_from_civil(year, month, day) + 1,
        days_from_civil(1970, 1, 1) == 0,
{
    years_have_their_length(year - 1);
}

/// A year is a leap year where four divides it, but of the full centuries only
/// those that four hundred divides. Its months have thirty-one days, but for
/// four with thirty and February.
pub proof fn months_and_leap_years(century: int, year: int, month: int)
    requires
        1 <= month <= 12,
    ensures
        is_leap(400 * century),
        !is_leap(400 * century + 100) && !is_leap(400 * century + 200) && !is_leap(
            400 * century + 300,
        ),
        year % 100 != 0 ==> (is_leap(year) <==> year % 4 == 0),
        month == 2 ==> month_length(year, month) == if is_leap(year) {
            29int
        } else {
            28
        },
        month == 4 || month == 6 || month == 9 || month == 11 ==> month_length(year, month) == 30,
        month == 1 || month == 3 || month == 5 || month == 7 || month == 8 || month == 10 || month
            == 12 ==> month_length(year, month) == 31,
{
}

/// An instant is told as its date and its time of day in hours, minutes and
/// seconds.
pub proof fn an_instant_tells_date_and_time(
    year: int,
    month: int,
    day: int,
    hours: int,
    minutes: int,
    seconds: int,
)
    requires
        0 <= hours < 24,
        0 <= minutes < 60,
        0 <= seconds < 60,
    ensures
        civil_text(year, month, day, hours * 3_600 + minutes * 60 + seconds) == text::four_digits(
            year as nat,
        ) + "-"@ + text::two_digits(month) + "-"@ + text::two_digits(day) + "T"@
            + text::two_digits(hours) + ":"@ + text::two_digits(minutes) + ":"@
            + text::two_digits(seconds) + "Z"@,
{
    lemma_time_of_day(hours, minutes, seconds);
}

proof fn lemma_time_of_day(hours: int, minutes: int, seconds: int)
    requires
        0 <= hours < 24,
        0 <= minutes < 60,
        0 <= seconds < 60,
    ensures
        (hours * 3_600 + minutes * 60 + seconds) / 3_600 == hours,
        (hours * 3_600 + minutes * 60 + seconds) / 60 % 60 == minutes,
        (hours * 3_600 + minutes * 60 + seconds) % 60 == seconds,
{
    let secs = hours * 3_600 + minutes * 60 + seconds;
    assert(secs / 60 == hours * 60 + minutes);
}

} // verus!
