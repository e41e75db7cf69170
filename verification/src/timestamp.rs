//! The opt-in generation timestamp, formatted by hand to avoid a date/time
//! dependency for a strictly opt-in feature. The clock is read by the
//! caller; this module turns seconds since the Unix epoch into text.

use vstd::prelude::*;

use crate::text::{decimal, push_char, push_str};

verus! {

/// The civil date of day `z` (days since 1970-01-01) in the proleptic
/// Gregorian calendar, as Howard Hinnant's `civil_from_days` computes it
/// with floor division: eras of 400 years (146 097 days) starting on
/// 0000-03-01, years inside an era starting on March 1st.
pub open spec fn spec_civil(z: int) -> (int, int, int) {
    let z = z + 719468;
    let era = z / 146097;
    let doe = z - era * 146097;
    let yoe = (doe - doe / 1460 + doe / 36524 - doe / 146096) / 365;
    let y = yoe + era * 400;
    let doy = doe - (365 * yoe + yoe / 4 - yoe / 100);
    let mp = (5 * doy + 2) / 153;
    let d = doy - (153 * mp + 2) / 5 + 1;
    let m = if mp < 10 {
        mp + 3
    } else {
        mp - 9
    };
    (if m <= 2 {
        y + 1
    } else {
        y
    }, m, d)
}

/// `z / 146_097`, rounded down, for any `z`.
fn floor_era(z: i64) -> (r: i64)
    ensures
        r as int == (z as int) / 146097,
{
    if z >= 0 {
        z / 146_097
    } else {
        let w: i64 = -(z + 1);
        let q: i64 = w / 146_097;
        proof {
            let r = (w as int) % 146097;
            vstd::arithmetic::div_mod::lemma_fundamental_div_mod(w as int, 146097);
            assert(z as int == (-(q as int) - 1) * 146097 + (146096 - r)) by (nonlinear_arith)
                requires
                    w as int == (q as int) * 146097 + r,
                    z as int == -(w as int) - 1,
            ;
            vstd::arithmetic::div_mod::lemma_fundamental_div_mod_converse(
                z as int,
                146097,
                -(q as int) - 1,
                146096 - r,
            );
        }
        -q - 1
    }
}

/// Howard Hinnant's `civil_from_days`, for a Unix day number: year, month
/// (1–12) and day of month (1–31).
pub fn civil_from_days(z: i64) -> (r: (i64, u32, u32))
    requires
        z <= i64::MAX - 719_468,
    ensures
        (r.0 as int, r.1 as int, r.2 as int) == spec_civil(z as int),
        days_from_civil(r.0 as int, r.1 as int, r.2 as int) == z,
        1 <= r.1 <= 12,
        1 <= r.2 <= 31,
{
    proof {
        civil_dates_count_days_from_the_epoch(z as int);
    }
    let z = z + 719_468;
    let era = floor_era(z);
    let doe: i64 = z - era * 146_097;
    proof {
        vstd::arithmetic::div_mod::lemma_fundamental_div_mod(z as int, 146097);
    }
    assert(0 <= doe < 146_097);
    let yoe: i64 = (doe - doe / 1460 + doe / 36_524 - doe / 146_096) / 365;
    assert(0 <= yoe <= 399) by (nonlinear_arith)
        requires
            0 <= doe < 146_097,
            yoe == (doe - doe / 1460 + doe / 36_524 - doe / 146_096) / 365,
    ;
    let y: i64 = yoe + era * 400;
    let doy: i64 = doe - (365 * yoe + yoe / 4 - yoe / 100);
    assert(0 <= doy <= 365) by (nonlinear_arith)
        requires
            0 <= doe < 146_097,
            yoe == (doe - doe / 1460 + doe / 36_524 - doe / 146_096) / 365,
            doy == doe - (365 * yoe + yoe / 4 - yoe / 100),
    ;
    let mp: i64 = (5 * doy + 2) / 153;
    assert(0 <= mp <= 11);
    let d: i64 = doy - (153 * mp + 2) / 5 + 1;
    assert(1 <= d <= 31) by (nonlinear_arith)
        requires
            0 <= doy <= 365,
            mp == (5 * doy + 2) / 153,
            d == doy - (153 * mp + 2) / 5 + 1,
    ;
    let m: i64 = if mp < 10 {
        mp + 3
    } else {
        mp - 9
    };
    let year = if m <= 2 {
        y + 1
    } else {
        y
    };
    (year, m as u32, d as u32)
}

/// `n` in decimal, zero-padded on the left to at least `width` digits.
pub open spec fn padded(n: nat, width: nat) -> Seq<char> {
    let digits = decimal(n);
    if digits.len() < width {
        Seq::new((width - digits.len()) as nat, |i: int| '0') + digits
    } else {
        digits
    }
}

/// The generation stamp for `seconds` after the Unix epoch.
pub open spec fn spec_timestamp(seconds: nat) -> Seq<char> {
    let days = seconds / 86400;
    let time = seconds % 86400;
    let (y, m, d) = spec_civil(days as int);
    "Generated "@ + padded(y as nat, 4) + "-"@ + padded(m as nat, 2) + "-"@ + padded(d as nat, 2)
        + " "@ + padded(time / 3600, 2) + ":"@ + padded((time % 3600) / 60, 2) + ":"@ + padded(
        time % 60,
        2,
    ) + " UTC"@
}

fn push_padded(out: &mut String, n: u64, width: usize)
    ensures
        final(out)@ == old(out)@ + padded(n as nat, width as nat),
{
    let digits = crate::text::decimal_text(n);
    let len = digits.as_str().unicode_len();
    let ghost start = out@;
    if len < width {
        let mut k: usize = 0;
        while k < width - len
            invariant
                k <= width - len,
                len == decimal(n as nat).len(),
                len < width,
                out@ == start + Seq::new(k as nat, |i: int| '0'),
            decreases width - len - k,
        {
            push_char(out, '0');
            assert(Seq::new((k + 1) as nat, |i: int| '0') =~= Seq::new(k as nat, |i: int| '0').push('0'));
            k = k + 1;
        }
    }
    push_str(out, digits.as_str());
}

/// "Generated YYYY-MM-DD hh:mm:ss UTC" for `seconds` after the Unix epoch.
pub fn timestamp(seconds: u64) -> (r: String)
    ensures
        r@ == spec_timestamp(seconds as nat),
{
    let days = seconds / 86_400;
    let time_of_day = seconds % 86_400;
    let (year, month, day) = civil_from_days(days as i64);
    proof {
        let z = days as int + 719468;
        vstd::arithmetic::div_mod::lemma_fundamental_div_mod(z, 146097);
    }
    assert(year >= 0) by (nonlinear_arith)
        requires
            (year as int, month as int, day as int) == spec_civil(days as int),
            days >= 0,
    ;
    let mut out = String::from_str("Generated ");
    push_padded(&mut out, year as u64, 4);
    push_str(&mut out, "-");
    push_padded(&mut out, month as u64, 2);
    push_str(&mut out, "-");
    push_padded(&mut out, day as u64, 2);
    push_str(&mut out, " ");
    push_padded(&mut out, time_of_day / 3600, 2);
    push_str(&mut out, ":");
    push_padded(&mut out, (time_of_day % 3600) / 60, 2);
    push_str(&mut out, ":");
    push_padded(&mut out, time_of_day % 60, 2);
    push_str(&mut out, " UTC");
    out
}

/// Whether `y` is a leap year of the proleptic Gregorian calendar.
pub open spec fn is_leap(y: int) -> bool {
    y % 4 == 0 && (y % 100 != 0 || y % 400 == 0)
}

/// The number of days of month `m` (1–12) of year `y`.
pub open spec fn days_in_month(y: int, m: int) -> int {
    if m == 2 {
        if is_leap(y) {
            29
        } else {
            28
        }
    } else if m == 4 || m == 6 || m == 9 || m == 11 {
        30
    } else {
        31
    }
}

/// The days of year `y` before the first of month `m`.
pub open spec fn days_before_month(y: int, m: int) -> int
    decreases m,
{
    if m <= 1 {
        0
    } else {
        days_before_month(y, m - 1) + days_in_month(y, m - 1)
    }
}

/// The leap years before year `y`, counted from a fixed origin; only
/// differences of it matter.
pub open spec fn leaps_before(y: int) -> int {
    (y - 1) / 4 - (y - 1) / 100 + (y - 1) / 400
}

/// The day number of `y-m-d` counted from 1970-01-01: whole years of 365
/// days, one more per leap year in between, then the months and days.
pub open spec fn days_from_civil(y: int, m: int, d: int) -> int {
    365 * (y - 1970) + (leaps_before(y) - leaps_before(1970)) + days_before_month(y, m) + d - 1
}

/// From March 1st, the first day of month `mp` (0 = March … 11 = February).
proof fn lemma_march_offsets(y: int, m: int)
    requires
        1 <= m <= 12,
    ensures
        m >= 3 ==> days_before_month(y, m) == 59 + (if is_leap(y) { 1int } else { 0 }) + (153 * (m - 3) + 2) / 5,
        m <= 2 ==> days_before_month(y, m) == (153 * (m + 9) + 2) / 5 - 306,
{
    reveal_with_fuel(days_before_month, 13);
}

/// A year is leap exactly when it adds one to the count of leap years.
proof fn lemma_leap_step(y: int)
    ensures
        leaps_before(y + 1) - leaps_before(y) == if is_leap(y) { 1int } else { 0 },
{
    let q4 = y / 4;
    let q100 = y / 100;
    let q400 = y / 400;
    assert(y % 100 == 0 ==> y % 4 == 0);
    assert(y % 400 == 0 ==> y % 100 == 0);
}

/// The leap years before March of year `400 * era + yoe + 1`.
proof fn lemma_leaps_in_eras(era: int, yoe: int)
    requires
        0 <= yoe <= 399,
    ensures
        leaps_before(400 * era + yoe + 1) == 97 * era + yoe / 4 - yoe / 100,
{
    assert((400 * era + yoe) / 4 == 100 * era + yoe / 4);
    assert((400 * era + yoe) / 100 == 4 * era + yoe / 100);
    assert((400 * era + yoe) / 400 == era);
}

/// The date [`spec_civil`] gives for day `z` is a real month and day, and
/// names day `z`: counting the days from 1970-01-01 to it gives `z` back.
pub proof fn civil_dates_count_days_from_the_epoch(z: int)
    ensures
        ({
            let (y, m, d) = spec_civil(z);
            1 <= m <= 12 && 1 <= d <= 31 && days_from_civil(y, m, d) == z
        }),
{
    let n = z + 719468;
    let era = n / 146097;
    let doe = n - era * 146097;
    vstd::arithmetic::div_mod::lemma_fundamental_div_mod(n, 146097);
    assert(0 <= doe < 146097);
    let yoe = (doe - doe / 1460 + doe / 36524 - doe / 146096) / 365;
    assert(0 <= yoe <= 399) by (nonlinear_arith)
        requires
            0 <= doe < 146_097,
            yoe == (doe - doe / 1460 + doe / 36_524 - doe / 146_096) / 365,
    ;
    let doy = doe - (365 * yoe + yoe / 4 - yoe / 100);
    assert(0 <= doy <= 365) by (nonlinear_arith)
        requires
            0 <= doe < 146_097,
            yoe == (doe - doe / 1460 + doe / 36_524 - doe / 146_096) / 365,
            doy == doe - (365 * yoe + yoe / 4 - yoe / 100),
    ;
    let mp = (5 * doy + 2) / 153;
    assert(0 <= mp <= 11);
    let d = doy - (153 * mp + 2) / 5 + 1;
    assert(1 <= d <= 31) by (nonlinear_arith)
        requires
            0 <= doy <= 365,
            mp == (5 * doy + 2) / 153,
            d == doy - (153 * mp + 2) / 5 + 1,
    ;
    let m = if mp < 10 {
        mp + 3
    } else {
        mp - 9
    };
    let ym = yoe + era * 400;
    let y = if m <= 2 {
        ym + 1
    } else {
        ym
    };
    assert(spec_civil(z) == (y, m, d));
    lemma_march_offsets(y, m);
    lemma_leap_step(y);
    lemma_leaps_in_eras(era, yoe);
    assert(leaps_before(1970) == 477);
    if m <= 2 {
        assert(ym + 1 == 400 * era + yoe + 1);
    } else {
        assert(y + 1 == 400 * era + yoe + 1);
    }
}

} // verus!
