//! Wall-clock helpers: epoch seconds, a day-wrapped `HH:MM:SS` label, and a
//! proleptic-Gregorian calendar-year computation on epoch day counts.

use vstd::prelude::*;
use vstd::arithmetic::div_mod::{
    lemma_div_is_ordered, lemma_fundamental_div_mod, lemma_hoist_over_denominator,
    lemma_mod_multiples_vanish,
};
use vstd::string::StringExecFns;

verus! {

/// The character that renders a single decimal digit.
pub open spec fn digit_char(d: int) -> char {
    if d == 0 {
        '0'
    } else if d == 1 {
        '1'
    } else if d == 2 {
        '2'
    } else if d == 3 {
        '3'
    } else if d == 4 {
        '4'
    } else if d == 5 {
        '5'
    } else if d == 6 {
        '6'
    } else if d == 7 {
        '7'
    } else if d == 8 {
        '8'
    } else {
        '9'
    }
}

/// A value below 100 rendered as exactly two zero-padded digits.
pub open spec fn two_digits(n: int) -> Seq<char> {
    seq![digit_char(n / 10), digit_char(n % 10)]
}

/// The `HH:MM:SS` label of an instant, wrapped at the day boundary.
pub open spec fn clock_label_spec(s: int) -> Seq<char> {
    let t = s % 86400;
    two_digits(t / 3600) + seq![':'] + two_digits((t % 3600) / 60) + seq![':'] + two_digits(t % 60)
}

/// The label depends only on the position inside the day: shifting the
/// instant by any whole number of days leaves it unchanged.
pub proof fn lemma_clock_label_day_periodic(s: int, k: int)
    ensures
        clock_label_spec(s + 86400 * k) == clock_label_spec(s),
{
    lemma_mod_multiples_vanish(k, s, 86400);
}

/// A one-character string slice for a decimal digit.
pub(crate) fn digit_str(d: u64) -> (r: &'static str)
    requires
        d < 10,
    ensures
        r@ == seq![digit_char(d as int)],
{
    proof {
        reveal_strlit("0");
        reveal_strlit("1");
        reveal_strlit("2");
        reveal_strlit("3");
        reveal_strlit("4");
        reveal_strlit("5");
        reveal_strlit("6");
        reveal_strlit("7");
        reveal_strlit("8");
        reveal_strlit("9");
    }
    let r = if d == 0 {
        "0"
    } else if d == 1 {
        "1"
    } else if d == 2 {
        "2"
    } else if d == 3 {
        "3"
    } else if d == 4 {
        "4"
    } else if d == 5 {
        "5"
    } else if d == 6 {
        "6"
    } else if d == 7 {
        "7"
    } else if d == 8 {
        "8"
    } else {
        "9"
    };
    proof {
        assert(r@ =~= seq![digit_char(d as int)]);
    }
    r
}

/// Appends a value below 100 as two zero-padded digits.
fn push_two_digits(out: &mut String, n: u64)
    requires
        n < 100,
    ensures
        final(out)@ == old(out)@ + two_digits(n as int),
{
    out.append(digit_str(n / 10));
    out.append(digit_str(n % 10));
}

/// The day-wrapped `HH:MM:SS` rendering of an epoch-seconds instant.
pub fn clock_label_from_unix(unix_seconds: u64) -> (r: String)
    ensures
        r@ == clock_label_spec(unix_seconds as int),
{
    let seconds_today = unix_seconds % 86400;
    let hour = seconds_today / 3600;
    let minute = (seconds_today % 3600) / 60;
    let second = seconds_today % 60;
    proof {
        reveal_strlit(":");
    }
    let mut out = String::new();
    push_two_digits(&mut out, hour);
    out.append(":");
    push_two_digits(&mut out, minute);
    out.append(":");
    push_two_digits(&mut out, second);
    proof {
        assert(out@ =~= clock_label_spec(unix_seconds as int));
    }
    out
}

/// Whether a proleptic-Gregorian year is a leap year.
pub open spec fn is_leap_year(y: int) -> bool {
    (y % 4 == 0 && y % 100 != 0) || y % 400 == 0
}

/// Days from the start of year 0 to the start of year `y` in the proleptic
/// Gregorian calendar (negative for years before 0).
pub open spec fn days_before_year(y: int) -> int {
    365 * y + (y + 3) / 4 - (y + 99) / 100 + (y + 399) / 400
}

/// Days from the start of a 400-year era (a March 1 of a year divisible by
/// 400) to March 1 of year-of-era `yoe`.
pub open spec fn year_start_of_era(yoe: int) -> int {
    365 * yoe + yoe / 4 - yoe / 100
}

/// A year is 365 days long, or 366 in a leap year.
pub proof fn lemma_days_before_year_step(y: int)
    ensures
        days_before_year(y + 1) == days_before_year(y) + 365 + (if is_leap_year(y) {
            1int
        } else {
            0int
        }),
{
    lemma_hoist_over_denominator(y + 3, 0, 4);
    lemma_hoist_over_denominator(y + 99, 0, 100);
    lemma_hoist_over_denominator(y + 399, 0, 400);
}

/// Later years never start on an earlier day.
pub proof fn lemma_days_before_year_increases(y1: int, y2: int)
    requires
        y1 <= y2,
    ensures
        days_before_year(y1) <= days_before_year(y2),
{
    lemma_div_is_ordered(y1 + 3, y2 + 3, 4);
    lemma_div_is_ordered(y1 + 399, y2 + 399, 400);
    lemma_div_is_ordered(y2 + 99, y1 + 99 + 100 * (y2 - y1), 100);
    lemma_hoist_over_denominator(y1 + 99, y2 - y1, 100);
}

/// The era/year-of-era decomposition agrees with the absolute calendar:
/// March 1 of year `400 * era + yoe` is day
/// `60 + 146_097 * era + year_start_of_era(yoe)` counted from the start of
/// year 0 (which falls 60 days before its own March 1, year 0 being leap).
pub proof fn lemma_era_glue(era: int, yoe: int)
    requires
        0 <= yoe <= 399,
    ensures
        days_before_year(400 * era + yoe) + 59 + (if is_leap_year(400 * era + yoe) {
            1int
        } else {
            0int
        }) == 60 + 146_097 * era + year_start_of_era(yoe),
{
    let y = 400 * era + yoe;
    assert((y + 3) / 4 == 100 * era + (yoe + 3) / 4) by {
        lemma_hoist_over_denominator(yoe + 3, 100 * era, 4);
        assert(yoe + 3 + 100 * era * 4 == 400 * era + yoe + 3);
    }
    assert((y + 99) / 100 == 4 * era + (yoe + 99) / 100) by {
        lemma_hoist_over_denominator(yoe + 99, 4 * era, 100);
        assert(yoe + 99 + 4 * era * 100 == 400 * era + yoe + 99);
    }
    assert((y + 399) / 400 == era + (yoe + 399) / 400) by {
        lemma_hoist_over_denominator(yoe + 399, era, 400);
    }
    assert(y % 4 == yoe % 4) by {
        lemma_mod_multiples_vanish(100 * era, yoe, 4);
        assert(4 * (100 * era) + yoe == 400 * era + yoe);
    }
    assert(y % 100 == yoe % 100) by {
        lemma_mod_multiples_vanish(4 * era, yoe, 100);
        assert(100 * (4 * era) + yoe == 400 * era + yoe);
    }
    assert(y % 400 == yoe % 400) by {
        lemma_mod_multiples_vanish(era, yoe, 400);
    }
}

/// The correction terms of the civil-date algorithm pick the right year of
/// the era: `doe` lies inside the March-based year they select.
pub proof fn lemma_yoe_bounds(doe: int)
    requires
        0 <= doe <= 146_096,
    ensures
        ({
            let yoe = (doe - doe / 1_460 + doe / 36_524 - doe / 146_096) / 365;
            &&& 0 <= yoe <= 399
            &&& year_start_of_era(yoe) <= doe
            &&& doe <= year_start_of_era(yoe) + 365
        }),
{
}

/// Whether epoch day `d` (days since 1970-01-01) falls inside calendar year
/// `y`: the year starts no later than the day and ends after it.
pub open spec fn year_contains_day(y: int, d: int) -> bool {
    days_before_year(y) <= d + 719_528 < days_before_year(y + 1)
}

/// The calendar year that contains the given count of whole days since
/// 1970-01-01 (negative for days before it), by the civil-date algorithm:
/// the returned year starts no later than the day and ends after it.
pub fn year_from_unix_days(days_since_epoch: i64) -> (year: i32)
    requires
        -780_000_000_000 <= days_since_epoch <= 780_000_000_000,
    ensures
        year_contains_day(year as int, days_since_epoch as int),
{
    let z: i64 = days_since_epoch + 719_468;
    let era: i64 = z.checked_div_euclid(146_097).unwrap();
    proof {
        lemma_fundamental_div_mod(z as int, 146_097);
    }
    let doe: u64 = (z - era * 146_097) as u64;
    proof {
        lemma_yoe_bounds(doe as int);
    }
    let q1: u64 = doe / 1_460;
    let q2: u64 = doe / 36_524;
    let q3: u64 = doe / 146_096;
    let yoe: u64 = (doe - q1 + q2 - q3) / 365;
    let start: u64 = 365 * yoe + yoe / 4 - yoe / 100;
    let doy: u64 = doe - start;
    let mp: u64 = (5 * doy + 2) / 153;
    let month: u64 = if mp < 10 {
        mp + 3
    } else {
        mp - 9
    };
    let mut year: i64 = yoe as i64 + era * 400;
    if month <= 2 {
        year = year + 1;
    }
    proof {
        let m = 400 * (era as int) + yoe as int;
        lemma_era_glue(era as int, yoe as int);
        lemma_days_before_year_step(m);
        lemma_days_before_year_step(m + 1);
    }
    year as i32
}

/// The calendar year of the current wall-clock time: the year of some
/// nonnegative epoch-day count, hence never before 1970.
pub fn current_year() -> (year: i32)
    ensures
        1970 <= year,
        exists|d: int| 0 <= d && #[trigger] year_contains_day(year as int, d),
{
    let now = unix_now_secs();
    let days_u: u64 = now / 86_400;
    let days: i64 = if days_u > 780_000_000_000 {
        780_000_000_000
    } else {
        days_u as i64
    };
    let year = year_from_unix_days(days);
    proof {
        if year < 1970 {
            lemma_days_before_year_increases(year as int + 1, 1970);
            assert(days_before_year(1970) == 719_528);
            assert(false);
        }
        assert(0 <= days as int && year_contains_day(year as int, days as int));
    }
    year
}

/// Current wall-clock time as whole epoch seconds; a clock that reads as
/// earlier than the epoch yields zero rather than an error.
///
/// Relies on `std::time::SystemTime::now` and `duration_since(UNIX_EPOCH)`:
/// the result is whatever the system clock reports, so nothing is promised
/// about the value.
#[verifier::external_body]
pub fn unix_now_secs() -> u64 {
    std::time::SystemTime::now()
        .duration_since(std::time::UNIX_EPOCH)
        .unwrap_or_default()
        .as_secs()
}

} // verus!
