//! Log time stamps: seconds since the Unix epoch shown as the civil date and
//! time eight hours east of UTC, `YYYY-MM-DD hh:mm:ss`.

use vstd::prelude::*;
use crate::text;
use crate::text::{push_char, push_dec};

verus! {

/// Leap years of the Gregorian calendar.
pub open spec fn is_leap(y: int) -> bool {
    (y % 4 == 0 && y % 100 != 0) || y % 400 == 0
}

/// Days in year `y`.
pub open spec fn year_len(y: int) -> int {
    if is_leap(y) {
        366
    } else {
        365
    }
}

/// Days in month `m` (0 for January) of year `y`.
pub open spec fn month_len(y: int, m: int) -> int {
    if m == 1 {
        if is_leap(y) {
            29
        } else {
            28
        }
    } else if m == 3 || m == 5 || m == 8 || m == 10 {
        30
    } else {
        31
    }
}

/// The months have the lengths of the Gregorian calendar: 31 days in
/// January, March, May, July, August, October and December, 30 in April,
/// June, September and November, and February 29 days in years divisible by
/// 4 but not by 100, or by 400, else 28; a year has 366 days exactly when
/// February has 29.
pub proof fn lemma_gregorian_months(y: int)
    ensures
        month_len(y, 0) == 31,
        month_len(y, 1) == (if (y % 4 == 0 && y % 100 != 0) || y % 400 == 0 {
            29int
        } else {
            28int
        }),
        month_len(y, 2) == 31,
        month_len(y, 3) == 30,
        month_len(y, 4) == 31,
        month_len(y, 5) == 30,
        month_len(y, 6) == 31,
        month_len(y, 7) == 31,
        month_len(y, 8) == 30,
        month_len(y, 9) == 31,
        month_len(y, 10) == 30,
        month_len(y, 11) == 31,
        year_len(y) == 337 + month_len(y, 1),
{
}

/// Counting `d` days forward from January 1 of year `y`: the year reached
/// and the day within it.
pub open spec fn year_of(d: int, y: int) -> (int, int)
    decreases d,
{
    if d < year_len(y) {
        (y, d)
    } else {
        year_of(d - year_len(y), y + 1)
    }
}

/// Counting `d` days forward from the first of month `m`: the month reached
/// (0 for January) and the day within it.
pub open spec fn month_of(d: int, y: int, m: int) -> (int, int)
    decreases 12 - m,
{
    if m < 12 && d >= month_len(y, m) {
        month_of(d - month_len(y, m), y, m + 1)
    } else {
        (m, d)
    }
}

/// Rust's `/` on integers: rounds toward zero.
pub open spec fn tdiv(a: int, b: int) -> int {
    if a >= 0 {
        a / b
    } else {
        -((-a) / b)
    }
}

/// Rust's `%` on integers: takes the sign of `a`.
pub open spec fn trem(a: int, b: int) -> int {
    a - b * tdiv(a, b)
}

/// `{:0w}` of a signed value: the sign, then zeros up to width `w` in all.
pub open spec fn pad(v: int, w: nat) -> Seq<char> {
    if v < 0 {
        seq!['-'] + zeros((w - 1 - text::dec((-v) as nat).len()) as int) + text::dec((-v) as nat)
    } else {
        zeros(w - text::dec(v as nat).len()) + text::dec(v as nat)
    }
}

/// `n` zero digits (none when `n <= 0`).
pub open spec fn zeros(n: int) -> Seq<char>
    decreases n,
{
    if n <= 0 {
        seq![]
    } else {
        zeros(n - 1).push('0')
    }
}

/// The shifted clock value: seconds since the epoch plus eight hours, with
/// the wrap-around of 64-bit signed arithmetic.
pub open spec fn local_secs(secs: u64) -> int {
    (secs as i64).wrapping_add(28800i64) as int
}

/// The text of the stamp for `secs` seconds since the epoch.
pub open spec fn stamp_text(secs: u64) -> Seq<char> {
    let s = local_secs(secs);
    let days = tdiv(s, 86400);
    let tod = trem(s, 86400);
    let (y, dy) = year_of(days, 1970);
    let (m, d) = month_of(dy, y, 0);
    pad(y, 4) + seq!['-'] + pad(m + 1, 2) + seq!['-'] + pad(d + 1, 2) + seq![' '] + pad(
        tdiv(tod, 3600),
        2,
    ) + seq![':'] + pad(tdiv(trem(tod, 3600), 60), 2) + seq![':'] + pad(trem(tod, 60), 2)
}

/// Appends `{:0w}` of `v`.
fn push_pad(s: &mut String, v: i64, w: u64)
    requires
        v > i64::MIN,
        1 <= w <= 4,
    ensures
        final(s)@ == old(s)@ + pad(v as int, w as nat),
{
    let ghost s0 = s@;
    let mag: u64 = if v < 0 {
        (-v) as u64
    } else {
        v as u64
    };
    let digits = text::dec_u64(mag);
    let width: u64 = if v < 0 {
        w - 1
    } else {
        w
    };
    if v < 0 {
        push_char(s, '-');
    }
    let ghost s1 = s@;
    let dl: u64 = digits.len() as u64;
    let npad: u64 = if dl < width {
        width - dl
    } else {
        0
    };
    let mut k: u64 = 0;
    proof {
        assert(zeros(0) =~= Seq::<char>::empty());
    }
    while k < npad
        invariant
            k <= npad,
            npad <= 4,
            s@ == s1 + zeros(k as int),
        decreases npad - k,
    {
        push_char(s, '0');
        proof {
            assert(zeros(k + 1) == zeros(k as int).push('0'));
        }
        k += 1;
    }
    proof {
        assert(zeros(width - digits.len()) == zeros(npad as int)) by {
            if dl >= width {
                assert(zeros(width - digits.len()) =~= Seq::<char>::empty());
                assert(zeros(0) =~= Seq::<char>::empty());
            }
        }
    }
    text::push_chars(s, &digits);
    proof {
        if v < 0 {
            assert(s@ =~= s0 + pad(v as int, w as nat));
        } else {
            assert(s@ =~= s0 + pad(v as int, w as nat));
        }
    }
}

/// Whether `y` is a leap year.
fn leap(y: i64) -> (r: bool)
    requires
        y >= 0,
    ensures
        r == is_leap(y as int),
{
    (y % 4 == 0 && y % 100 != 0) || y % 400 == 0
}

/// The shifted clock value split into whole days and the seconds of the
/// day, both rounded toward zero.
fn day_and_time(secs: u64) -> (r: (i64, i64))
    ensures
        r.0 == tdiv(local_secs(secs), 86400),
        r.1 == trem(local_secs(secs), 86400),
        r.0 <= i64::MAX / 86400,
        r.0 >= i64::MIN / 86400,
        -86400 < r.1 < 86400,
        r.0 < 0 ==> r.1 <= 0,
        r.1 < 0 ==> r.0 <= 0,
{
    let base: i64 = secs as i64;
    let s: i64 = base.wrapping_add(28800);
    if s >= 0 {
        (s / 86400, s % 86400)
    } else {
        let mag: i128 = -(s as i128);
        let q: i64 = (mag / 86400) as i64;
        let r: i64 = (mag % 86400) as i64;
        (-q, -r)
    }
}

/// Counting `days` days forward from 1970-01-01: the year and the day in it.
fn civil_year(days: i64) -> (r: (i64, i64))
    requires
        days <= i64::MAX / 86400,
    ensures
        (r.0 as int, r.1 as int) == year_of(days as int, 1970),
        r.0 >= 1970,
        r.0 <= 1970 + i64::MAX / 86400,
        r.1 <= days,
        r.1 < year_len(r.0 as int),
{
    let mut y: i64 = 1970;
    let mut d: i64 = days;
    while d >= 0 && d >= year_days(y)
        invariant
            y >= 1970,
            d >= 0 ==> y - 1970 <= days - d,
            d < 0 ==> y == 1970,
            d <= days,
            days <= i64::MAX / 86400,
            year_of(days as int, 1970) == year_of(d as int, y as int),
        decreases d,
    {
        d -= year_days(y);
        y += 1;
    }
    (y, d)
}

/// Counting `d` days forward from January 1 of `y`: the month (0 for
/// January) and the day in it.
fn civil_month(y: i64, d: i64) -> (r: (i64, i64))
    requires
        y >= 1970,
        d < year_len(y as int),
    ensures
        (r.0 as int, r.1 as int) == month_of(d as int, y as int, 0),
        0 <= r.0 < 12,
        r.1 <= d,
{
    let mut m: i64 = 0;
    let mut dd: i64 = d;
    while m < 12 && dd >= month_days(y, m)
        invariant
            0 <= m <= 12,
            y >= 1970,
            dd <= d,
            d < year_len(y as int),
            m == 12 ==> dd < 0,
            dd >= 0 ==> dd + days_before_month(y as int, m as int) == d,
            dd < 0 ==> m == 0,
            month_of(d as int, y as int, 0) == month_of(dd as int, y as int, m as int),
        decreases 12 - m,
    {
        proof {
            lemma_months_sum(y as int);
        }
        dd -= month_days(y, m);
        m += 1;
    }
    (m, dd)
}

/// Days in the months before month `m` of year `y`.
pub open spec fn days_before_month(y: int, m: int) -> int
    decreases m,
{
    if m <= 0 {
        0
    } else {
        days_before_month(y, m - 1) + month_len(y, m - 1)
    }
}

pub proof fn lemma_months_sum(y: int)
    ensures
        days_before_month(y, 12) == year_len(y),
{
    reveal_with_fuel(days_before_month, 13);
}

/// The stamp for `secs` seconds since the epoch (`YYYY-MM-DD hh:mm:ss`, eight
/// hours east of UTC).
pub fn stamp_at(secs: u64) -> (r: String)
    ensures
        r@ == stamp_text(secs),
{
    let (days, tod) = day_and_time(secs);
    let (y, dy) = civil_year(days);
    let (m, d) = civil_month(y, dy);
    let mut out = String::new();
    push_pad(&mut out, y, 4);
    push_char(&mut out, '-');
    push_pad(&mut out, m + 1, 2);
    push_char(&mut out, '-');
    push_pad(&mut out, d + 1, 2);
    push_char(&mut out, ' ');
    push_pad(&mut out, tod / 3600, 2);
    push_char(&mut out, ':');
    push_pad(&mut out, (tod % 3600) / 60, 2);
    push_char(&mut out, ':');
    push_pad(&mut out, tod % 60, 2);
    out
}

/// Days in year `y`.
fn year_days(y: i64) -> (r: i64)
    requires
        y >= 0,
    ensures
        r == year_len(y as int),
{
    if leap(y) {
        366
    } else {
        365
    }
}

/// Days in month `m` of year `y`.
fn month_days(y: i64, m: i64) -> (r: i64)
    requires
        y >= 0,
        0 <= m < 12,
    ensures
        r == month_len(y as int, m as int),
{
    if m == 1 {
        if leap(y) {
            29
        } else {
            28
        }
    } else if m == 3 || m == 5 || m == 8 || m == 10 {
        30
    } else {
        31
    }
}

/// Seconds since the Unix epoch now (`SystemTime::now`), 0 before the epoch.
#[verifier::external_body]
fn clock_secs() -> (r: u64) {
    std::time::SystemTime::now().duration_since(std::time::UNIX_EPOCH).map(|d| d.as_secs()).unwrap_or(0)
}

/// `now_stamp`: the stamp of the current time.
pub fn now_stamp() -> (r: String)
    ensures
        exists|t: u64| r@ == stamp_text(t),
{
    let t = clock_secs();
    stamp_at(t)
}

// ---------------------------------------------------------------------------
// The printed date is the calendar date
// ---------------------------------------------------------------------------

/// Days from 1970-01-01 to January 1 of year `y`.
pub open spec fn days_before_year(y: int) -> int
    decreases y - 1970,
{
    if y <= 1970 {
        0
    } else {
        days_before_year(y - 1) + year_len(y - 1)
    }
}

proof fn lemma_year_of(d: int, y: int)
    requires
        d >= 0,
        y >= 1970,
    ensures
        year_of(d, y).0 >= y,
        0 <= year_of(d, y).1 < year_len(year_of(d, y).0),
        days_before_year(year_of(d, y).0) + year_of(d, y).1 == days_before_year(y) + d,
    decreases d,
{
    if d >= year_len(y) {
        lemma_year_of(d - year_len(y), y + 1);
    }
}

proof fn lemma_month_of(d: int, y: int, m: int)
    requires
        d >= 0,
        0 <= m <= 12,
        days_before_month(y, m) + d < year_len(y),
    ensures
        0 <= month_of(d, y, m).0 < 12,
        0 <= month_of(d, y, m).1 < month_len(y, month_of(d, y, m).0),
        days_before_month(y, month_of(d, y, m).0) + month_of(d, y, m).1 == days_before_month(y, m)
            + d,
    decreases 12 - m,
{
    lemma_months_sum(y);
    if m < 12 && d >= month_len(y, m) {
        lemma_month_of(d - month_len(y, m), y, m + 1);
    }
}

/// For a clock reading at or after the epoch (in the shifted zone), the
/// printed year, month and day are the civil date that many whole days after
/// 1970-01-01: the days of the years and months before it plus the day of
/// the month add up to the day count, and month and day are in range; the
/// printed hours, minutes and seconds are the time of day.
pub proof fn lemma_stamp_is_calendar_date(secs: u64)
    requires
        local_secs(secs) >= 0,
    ensures
        ({
            let s = local_secs(secs);
            let days = s / 86400;
            let (y, dy) = year_of(days, 1970);
            let (m, d) = month_of(dy, y, 0);
            &&& y >= 1970
            &&& 0 <= m < 12
            &&& 0 <= d < month_len(y, m)
            &&& days_before_year(y) + days_before_month(y, m) + d == days
            &&& tdiv(s, 86400) == days
            &&& trem(s, 86400) == s % 86400
        }),
{
    let s = local_secs(secs);
    let days = s / 86400;
    lemma_year_of(days, 1970);
    let (y, dy) = year_of(days, 1970);
    lemma_month_of(dy, y, 0);
}

} // verus!
