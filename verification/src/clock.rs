//! Points in time as text.

use vstd::prelude::*;
use vstd::string::*;
use crate::text::{dec_padded, dec_u64_padded};

verus! {

/// Whether a year has a 29th of February.
pub open spec fn is_leap(y: nat) -> bool {
    y % 4 == 0 && (y % 100 != 0 || y % 400 == 0)
}

/// The number of days in a year.
pub open spec fn days_in_year(y: nat) -> nat {
    if is_leap(y) {
        366
    } else {
        365
    }
}

/// The number of days in a month, counted from one.
pub open spec fn days_in_month(y: nat, m: nat) -> nat {
    if m == 2 {
        if is_leap(y) {
            29
        } else {
            28
        }
    } else if m == 4 || m == 6 || m == 9 || m == 11 {
        30
    } else {
        31
    }
}

/// The number of days from the start of 1970 to the start of a year.
pub open spec fn days_before_year(y: nat) -> nat
    decreases y,
{
    if y <= 1970 {
        0
    } else {
        days_before_year((y - 1) as nat) + days_in_year((y - 1) as nat)
    }
}

/// The number of days from the start of a year to the start of a month.
pub open spec fn days_before_month(y: nat, m: nat) -> nat
    decreases m,
{
    if m <= 1 {
        0
    } else {
        days_before_month(y, (m - 1) as nat) + days_in_month(y, (m - 1) as nat)
    }
}

/// A point in time.
pub struct Moment {
    pub year: nat,
    pub month: nat,
    pub day: nat,
    pub hour: nat,
    pub minute: nat,
    pub second: nat,
}

/// Whether the parts of a point in time are within their bounds.
pub open spec fn is_moment(t: Moment) -> bool {
    &&& 1970 <= t.year
    &&& 1 <= t.month <= 12
    &&& 1 <= t.day <= days_in_month(t.year, t.month)
    &&& t.hour < 24
    &&& t.minute < 60
    &&& t.second < 60
}

/// The days from the start of 1970 to a day.
pub open spec fn days_to(t: Moment) -> nat {
    (days_before_year(t.year) + days_before_month(t.year, t.month) + t.day - 1) as nat
}

/// The seconds from the start of 1970 to a point in time.
pub open spec fn seconds_to(t: Moment) -> nat {
    86400 * days_to(t) + 3600 * t.hour + 60 * t.minute + t.second
}

/// A point in time as text.
pub open spec fn moment_text(t: Moment) -> Seq<char> {
    dec_padded(t.year, 4) + "-"@ + dec_padded(t.month, 2) + "-"@ + dec_padded(t.day, 2) + "T"@
        + dec_padded(t.hour, 2) + ":"@ + dec_padded(t.minute, 2) + ":"@ + dec_padded(t.second, 2)
        + "Z"@
}

proof fn lemma_days_before_year(y: nat)
    requires
        y >= 1970,
    ensures
        days_before_year(y) == 365 * y + (y + 3) / 4 - (y + 99) / 100 + (y + 399) / 400 - 719528,
    decreases y,
{
    if y > 1970 {
        lemma_days_before_year((y - 1) as nat);
        let p = (y - 1) as nat;
        assert((p + 4) / 4 == (p + 3) / 4 + (if p % 4 == 0 {
            1int
        } else {
            0int
        }));
        assert((p + 100) / 100 == (p + 99) / 100 + (if p % 100 == 0 {
            1int
        } else {
            0int
        }));
        assert((p + 400) / 400 == (p + 399) / 400 + (if p % 400 == 0 {
            1int
        } else {
            0int
        }));
        assert(p % 400 == 0 ==> p % 100 == 0);
        assert(p % 100 == 0 ==> p % 4 == 0);
    }
}

proof fn lemma_days_before_month(y: nat)
    ensures
        days_before_month(y, 1) == 0,
        days_before_month(y, 2) == 31,
        days_before_month(y, 3) == 59 + (days_in_year(y) - 365),
        days_before_month(y, 4) == 90 + (days_in_year(y) - 365),
        days_before_month(y, 5) == 120 + (days_in_year(y) - 365),
        days_before_month(y, 6) == 151 + (days_in_year(y) - 365),
        days_before_month(y, 7) == 181 + (days_in_year(y) - 365),
        days_before_month(y, 8) == 212 + (days_in_year(y) - 365),
        days_before_month(y, 9) == 243 + (days_in_year(y) - 365),
        days_before_month(y, 10) == 273 + (days_in_year(y) - 365),
        days_before_month(y, 11) == 304 + (days_in_year(y) - 365),
        days_before_month(y, 12) == 334 + (days_in_year(y) - 365),
{
    reveal_with_fuel(days_before_month, 13);
}

/// Within 400 years: the year, counted from March, that a day falls in.
proof fn lemma_year_of_era(doe: int, yoe: int)
    requires
        0 <= doe < 146097,
        yoe == (doe - doe / 1460 + doe / 36524 - doe / 146096) / 365,
    ensures
        0 <= yoe < 400,
        365 * yoe + yoe / 4 - yoe / 100 <= doe,
        doe < 365 * (yoe + 1) + (yoe + 1) / 4 - (yoe + 1) / 100 + (yoe + 1) / 400,
{
    let c = doe / 36524;
    assert(0 <= c <= 4);
    if c == 4 {
        assert(doe == 146096);
        assert(yoe == 399);
    } else {
        let r = doe - 36524 * c;
        assert(0 <= r < 36524);
        lemma_year_of_century(c, r);
    }
}

proof fn lemma_year_of_century(c: int, r: int)
    requires
        0 <= c < 4,
        0 <= r < 36524,
    ensures
        ({
            let doe = 36524 * c + r;
            let yoe = (doe - doe / 1460 + doe / 36524 - doe / 146096) / 365;
            &&& 0 <= yoe < 400
            &&& 365 * yoe + yoe / 4 - yoe / 100 <= doe
            &&& doe < 365 * (yoe + 1) + (yoe + 1) / 4 - (yoe + 1) / 100 + (yoe + 1) / 400
        }),
{
    let doe = 36524 * c + r;
    let t = (24 * c + r) / 1460;
    assert(doe / 1460 == 25 * c + t);
    assert(doe / 36524 == c);
    assert(doe / 146096 == 0);
    let y = (r - t) / 365;
    let yoe = (doe - doe / 1460 + doe / 36524 - doe / 146096) / 365;
    assert(yoe == 100 * c + y);
    assert(0 <= y < 100);
    assert(yoe / 4 == 25 * c + y / 4);
    assert(yoe / 100 == c);
    assert(365 * y + y / 4 <= r);
    assert(r < 365 * (y + 1) + (y + 1) / 4);
}

/// The start of March of a year, in days from the start of 1970.
proof fn lemma_march(y: nat)
    requires
        y >= 1970,
    ensures
        days_before_year(y) + days_before_month(y, 3) == 365 * y + y / 4 - y / 100 + y / 400 - 719468,
{
    lemma_days_before_year(y);
    lemma_days_before_month(y);
    assert((y + 3) / 4 == y / 4 + (if y % 4 == 0 {
        0int
    } else {
        1int
    }));
    assert((y + 99) / 100 == y / 100 + (if y % 100 == 0 {
        0int
    } else {
        1int
    }));
    assert((y + 399) / 400 == y / 400 + (if y % 400 == 0 {
        0int
    } else {
        1int
    }));
    assert(y % 400 == 0 ==> y % 100 == 0);
    assert(y % 100 == 0 ==> y % 4 == 0);
}

/// The date of a day, from the year (counted from March) and the day in it.
proof fn lemma_date(days: nat, y: nat, doy: int, month: int, day: int, year: nat)
    requires
        days + 719468 == 365 * y + y / 4 - y / 100 + y / 400 + doy,
        0 <= doy < 365 + (y + 1) / 4 - y / 4 - ((y + 1) / 100 - y / 100) + ((y + 1) / 400 - y / 400),
        ({
            let mp = (5 * doy + 2) / 153;
            &&& day == doy - (153 * mp + 2) / 5 + 1
            &&& month == (if mp < 10 {
                mp + 3
            } else {
                mp - 9
            })
            &&& year == (if month <= 2 {
                y + 1
            } else {
                y
            })
        }),
    ensures
        year >= 1970,
        1 <= month <= 12,
        1 <= day <= days_in_month(year, month as nat),
        days == days_before_year(year) + days_before_month(year, month as nat) + day - 1,
{
    let mp = (5 * doy + 2) / 153;
    let next = y + 1;
    assert(next / 4 == y / 4 + (if next % 4 == 0 {
        1int
    } else {
        0int
    }));
    assert(next / 100 == y / 100 + (if next % 100 == 0 {
        1int
    } else {
        0int
    }));
    assert(next / 400 == y / 400 + (if next % 400 == 0 {
        1int
    } else {
        0int
    }));
    assert(next % 400 == 0 ==> next % 100 == 0);
    assert(next % 100 == 0 ==> next % 4 == 0);
    assert(doy < days_in_year(next));
    assert(0 <= mp <= 11);
    assert(year >= 1970);
    lemma_days_before_month(year);
    if mp < 10 {
        lemma_march(y);
    } else {
        lemma_days_before_year(next);
        assert(days_before_year(next) == 365 * y + y / 4 - y / 100 + y / 400 - 719468 + 306) by {
            assert((next + 3) / 4 == y / 4 + 1);
            assert((next + 99) / 100 == y / 100 + 1);
            assert((next + 399) / 400 == y / 400 + 1);
        }
    }
}

/// Convert a Unix timestamp (seconds since 1970-01-01) into an ISO-8601 UTC string,
/// "YYYY-MM-DDTHH:MM:SSZ".
pub fn format_iso8601_utc(unix_secs: u64) -> (r: String)
    ensures
        exists|t: Moment| #[trigger]
            is_moment(t) && seconds_to(t) == unix_secs && r@ == moment_text(t),
{
    let days: u64 = unix_secs / 86_400;
    let time_of_day: u64 = unix_secs % 86_400;
    let hour: u64 = time_of_day / 3600;
    let minute: u64 = (time_of_day % 3600) / 60;
    let second: u64 = time_of_day % 60;
    // Days from the first of March of the year zero.
    let shifted: u64 = days + 719_468;
    let era: u64 = shifted / 146_097;
    let doe: u64 = shifted - era * 146_097;
    let yoe: u64 = (doe - doe / 1460 + doe / 36524 - doe / 146_096) / 365;
    proof {
        lemma_year_of_era(doe as int, yoe as int);
    }
    let y: u64 = yoe + era * 400;
    let doy: u64 = doe - (365 * yoe + yoe / 4 - yoe / 100);
    proof {
        assert(y / 4 == 100 * era + yoe / 4);
        assert(y / 100 == 4 * era + yoe / 100);
        assert(y / 400 == era);
        assert((y + 1) as int / 4 == 100 * era + (yoe + 1) as int / 4);
        assert((y + 1) as int / 100 == 4 * era + (yoe + 1) as int / 100);
        assert((y + 1) as int / 400 == era + (yoe + 1) as int / 400);
        assert(doy <= 366);
    }
    let mp: u64 = (5 * doy + 2) / 153;
    let d: u64 = doy - (153 * mp + 2) / 5 + 1;
    let m: u64 = if mp < 10 {
        mp + 3
    } else {
        mp - 9
    };
    let year: u64 = if m <= 2 {
        y + 1
    } else {
        y
    };
    proof {
        lemma_date(days as nat, y as nat, doy as int, m as int, d as int, year as nat);
        let t = Moment {
            year: year as nat,
            month: m as nat,
            day: d as nat,
            hour: hour as nat,
            minute: minute as nat,
            second: second as nat,
        };
        assert(is_moment(t));
        assert(days_to(t) == days);
        assert(seconds_to(t) == unix_secs);
    }
    let mut text: String = dec_u64_padded(year, 4);
    let month_text: String = dec_u64_padded(m, 2);
    let day_text: String = dec_u64_padded(d, 2);
    let hour_text: String = dec_u64_padded(hour, 2);
    let minute_text: String = dec_u64_padded(minute, 2);
    let second_text: String = dec_u64_padded(second, 2);
    text.append("-");
    text.append(month_text.as_str());
    text.append("-");
    text.append(day_text.as_str());
    text.append("T");
    text.append(hour_text.as_str());
    text.append(":");
    text.append(minute_text.as_str());
    text.append(":");
    text.append(second_text.as_str());
    text.append("Z");
    text
}

proof fn lemma_years_ordered(a: nat, b: nat)
    requires
        1970 <= a < b,
    ensures
        days_before_year(a) + days_in_year(a) <= days_before_year(b),
    decreases b,
{
    if a + 1 < b {
        lemma_years_ordered(a, (b - 1) as nat);
    }
}

proof fn lemma_month_within_year(y: nat, m: nat)
    requires
        1 <= m <= 12,
    ensures
        days_before_month(y, m) + days_in_month(y, m) <= days_in_year(y),
{
    lemma_days_before_month(y);
}

proof fn lemma_months_ordered(y: nat, a: nat, b: nat)
    requires
        1 <= a < b,
    ensures
        days_before_month(y, a) + days_in_month(y, a) <= days_before_month(y, b),
    decreases b,
{
    if a + 1 < b {
        lemma_months_ordered(y, a, (b - 1) as nat);
    }
}

proof fn lemma_days_ordered(a: Moment, b: Moment)
    requires
        is_moment(a),
        is_moment(b),
        a.year < b.year || (a.year == b.year && a.month < b.month) || (a.year == b.year && a.month
            == b.month && a.day < b.day),
    ensures
        days_to(a) < days_to(b),
{
    if a.year < b.year {
        lemma_years_ordered(a.year, b.year);
        lemma_month_within_year(a.year, a.month);
    } else if a.month < b.month {
        lemma_months_ordered(a.year, a.month, b.month);
    }
}

/// No two points in time have the same number of seconds, so that the text of a
/// timestamp is determined.
pub proof fn law_one_moment(a: Moment, b: Moment)
    requires
        is_moment(a),
        is_moment(b),
        seconds_to(a) == seconds_to(b),
    ensures
        a == b,
{
    assert(days_to(a) == days_to(b)) by {
        assert(days_to(a) == seconds_to(a) / 86400);
        assert(days_to(b) == seconds_to(b) / 86400);
    }
    if a.year < b.year || (a.year == b.year && a.month < b.month) || (a.year == b.year && a.month
        == b.month && a.day < b.day) {
        lemma_days_ordered(a, b);
    }
    if b.year < a.year || (b.year == a.year && b.month < a.month) || (b.year == a.year && b.month
        == a.month && b.day < a.day) {
        lemma_days_ordered(b, a);
    }
}

} // verus!
