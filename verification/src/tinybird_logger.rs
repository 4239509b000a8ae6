//! Request-log rows for the Tinybird shipper: the row a completed request
//! makes, its UTC timestamp, and the calendar arithmetic behind it.

use vstd::prelude::*;
use vstd::arithmetic::div_mod::lemma_fundamental_div_mod_converse;

use crate::clock::unix_time_ms;
use crate::text::{padded, padded_string, push_char, push_str, str_len};

verus! {

// ---------------------------------------------------------------------------
// The proleptic Gregorian calendar
// ---------------------------------------------------------------------------

pub open spec fn is_leap(y: int) -> bool {
    (y % 4 == 0 && y % 100 != 0) || y % 400 == 0
}

pub open spec fn days_in_month(y: int, m: int) -> int {
    if m == 2 {
        if is_leap(y) {
            29
        } else {
            28
        }
    } else if m == 4 || m == 6 || m == 9 || m == 11 {
        30
    } else {
        31
    }
}

/// A date of the calendar: a month of the year, a day of the month.
pub open spec fn valid_date(y: int, m: int, d: int) -> bool {
    1 <= m <= 12 && 1 <= d <= days_in_month(y, m)
}

/// Days from 0000-03-01 to `y`-03-01: 365 a year, and a leap day in each
/// year divisible by 4 but not by 100, or by 400, after it.
pub open spec fn days_to_march(y: int) -> int {
    365 * y + y / 4 - y / 100 + y / 400
}

/// Days from March 1 to the first of month `mp` counted from March
/// (0 is March, 11 is February).
pub open spec fn days_before_month(mp: int) -> int {
    if mp == 0 {
        0
    } else if mp == 1 {
        31
    } else if mp == 2 {
        61
    } else if mp == 3 {
        92
    } else if mp == 4 {
        122
    } else if mp == 5 {
        153
    } else if mp == 6 {
        184
    } else if mp == 7 {
        214
    } else if mp == 8 {
        245
    } else if mp == 9 {
        275
    } else if mp == 10 {
        306
    } else {
        337
    }
}

/// Days from 1970-01-01 to the date `y`-`m`-`d`. A year is counted from
/// March, so that February, with its leap day, ends it.
pub open spec fn days_from_civil(y: int, m: int, d: int) -> int {
    let my = if m <= 2 {
        y - 1
    } else {
        y
    };
    let mp = if m > 2 {
        m - 3
    } else {
        m + 9
    };
    days_to_march(my) + days_before_month(mp) + d - 1 - 719468
}

/// `(y, m, d)` is the date `z` days after 1970-01-01.
pub open spec fn is_civil_date(z: int, y: int, m: int, d: int) -> bool {
    valid_date(y, m, d) && days_from_civil(y, m, d) == z
}

proof fn lemma_year_of_era(doe: u32)
    requires
        doe < 146097,
    ensures
        ({
            let yoe = (doe - doe / 1460 + doe / 36524 - doe / 146096) / 365;
            &&& yoe < 400
            &&& 365 * yoe + yoe / 4 - yoe / 100 <= doe
            &&& doe < 365 * (yoe + 1) + (yoe + 1) / 4 - (yoe + 1) / 100 + (yoe + 1) / 400
        }),
{
    assert({
        let yoe = (doe - doe / 1460 + doe / 36524 - doe / 146096) / 365;
        &&& yoe < 400
        &&& 365 * yoe + yoe / 4 - yoe / 100 <= doe
        &&& doe < 365 * (yoe + 1) + (yoe + 1) / 4 - (yoe + 1) / 100 + (yoe + 1) / 400
    }) by (bit_vector)
        requires
            doe < 146097,
    ;
}

proof fn lemma_year_length(yoe: u32)
    requires
        yoe < 400,
    ensures
        365 * (yoe + 1) + (yoe + 1) / 4 - (yoe + 1) / 100 + (yoe + 1) / 400 - (365 * yoe + yoe / 4
            - yoe / 100) == (if ((yoe + 1) % 4 == 0 && (yoe + 1) % 100 != 0) || (yoe + 1) % 400
            == 0 {
            366int
        } else {
            365int
        }),
{
    assert(365 * (yoe + 1) + (yoe + 1) / 4 - (yoe + 1) / 100 + (yoe + 1) / 400 - (365 * yoe + yoe
        / 4 - yoe / 100) == (if ((yoe + 1) % 4 == 0 && (yoe + 1) % 100 != 0) || (yoe + 1) % 400
        == 0 {
        366int
    } else {
        365int
    })) by (bit_vector)
        requires
            yoe < 400,
    ;
}

proof fn lemma_month_of_year(doy: u32)
    requires
        doy < 366,
    ensures
        (5 * doy + 2) / 153 < 12,
        (153 * ((5 * doy + 2) / 153) + 2) / 5 <= doy,
        (5 * doy + 2) / 153 < 11 ==> doy < (153 * ((5 * doy + 2) / 153 + 1) + 2) / 5,
{
    assert({
        let mp = (5 * doy + 2) / 153;
        &&& mp < 12
        &&& (153 * mp + 2) / 5 <= doy
        &&& mp < 11 ==> doy < (153 * (mp + 1) + 2) / 5
    }) by (bit_vector)
        requires
            doy < 366,
    ;
}

proof fn lemma_days_before_month(mp: int)
    requires
        0 <= mp < 12,
    ensures
        days_before_month(mp) == (153 * mp + 2) / 5,
        mp < 11 ==> days_before_month(mp + 1) == (153 * (mp + 1) + 2) / 5,
{
}

/// Shifting a year by whole 400-year cycles shifts its day count by whole
/// cycles of 146097 days, and keeps whether it is a leap year.
proof fn lemma_era_shift(yoe: int, era: int)
    requires
        0 <= yoe < 400,
    ensures
        days_to_march(yoe + 400 * era) == 365 * yoe + yoe / 4 - yoe / 100 + 146097 * era,
        is_leap(yoe + 1 + 400 * era) == (((yoe + 1) % 4 == 0 && (yoe + 1) % 100 != 0) || (yoe + 1)
            % 400 == 0),
{
    let y = yoe + 400 * era;
    lemma_fundamental_div_mod_converse(y, 4, yoe / 4 + 100 * era, yoe % 4);
    lemma_fundamental_div_mod_converse(y, 100, yoe / 100 + 4 * era, yoe % 100);
    lemma_fundamental_div_mod_converse(y, 400, era, yoe);
    let y1 = y + 1;
    lemma_fundamental_div_mod_converse(y1, 4, (yoe + 1) / 4 + 100 * era, (yoe + 1) % 4);
    lemma_fundamental_div_mod_converse(y1, 100, (yoe + 1) / 100 + 4 * era, (yoe + 1) % 100);
    lemma_fundamental_div_mod_converse(y1, 400, (yoe + 1) / 400 + era, (yoe + 1) % 400);
}

proof fn lemma_civil_date(z: int, era: int, doe: u32, yoe: u32, doy: u32, mp: u32, d: u32, m: u32, year: int)
    requires
        doe == z + 719_468 - era * 146_097,
        doe < 146_097,
        yoe == (doe - doe / 1460 + doe / 36_524 - doe / 146_096) / 365,
        doy == doe - (365 * yoe + yoe / 4 - yoe / 100),
        mp == (5 * doy + 2) / 153,
        d == doy - (153 * mp + 2) / 5 + 1,
        m == (if mp < 10 {
            mp + 3
        } else {
            mp - 9
        }),
        year == (if m <= 2 {
            yoe + 400 * era + 1
        } else {
            yoe + 400 * era
        }),
    ensures
        is_civil_date(z, year, m as int, d as int),
{
    lemma_year_of_era(doe);
    lemma_year_length(yoe);
    lemma_month_of_year(doy);
    lemma_days_before_month(mp as int);
    lemma_era_shift(yoe as int, era);
    assert(days_from_civil(year, m as int, d as int) == z);
    assert(valid_date(year, m as int, d as int));
}

proof fn lemma_floor_era(zp: int, era: int)
    requires
        zp >= 0 ==> era == zp / 146_097,
        zp < 0 ==> era == -((-zp + 146_096) / 146_097),
    ensures
        0 <= zp - era * 146_097 < 146_097,
{
    if zp < 0 {
        let mag = -zp;
        let q = (mag + 146_096) / 146_097;
        assert(0 <= zp - era * 146_097 < 146_097) by (nonlinear_arith)
            requires
                mag == -zp,
                mag > 0,
                q == (mag + 146_096) / 146_097,
                era == -q,
        ;
    } else {
        assert(0 <= zp - era * 146_097 < 146_097) by (nonlinear_arith)
            requires
                zp >= 0,
                era == zp / 146_097,
        ;
    }
}

/// Howard Hinnant's algorithm: the date `z` days after 1970-01-01, its
/// year truncated to `i32` as the row's type holds it.
pub fn civil_from_days(z: i64) -> (r: (i32, u32, u32))
    requires
        z <= i64::MAX - 719_468,
    ensures
        exists|y: int|
            r.0 == #[verifier::truncate] (y as i32) && #[trigger] is_civil_date(
                z as int,
                y,
                r.1 as int,
                r.2 as int,
            ),
{
    let zp: i64 = z + 719_468;
    let era: i64 = if zp >= 0 {
        zp / 146_097
    } else {
        let mag: u64 = (0i128 - zp as i128) as u64;
        let q: u64 = (mag + 146_096) / 146_097;
        0 - (q as i64)
    };
    proof {
        lemma_floor_era(zp as int, era as int);
    }
    let doe: u32 = (zp - era * 146_097) as u32;
    proof {
        lemma_year_of_era(doe);
    }
    let yoe: u32 = (doe - doe / 1460 + doe / 36_524 - doe / 146_096) / 365;
    let doy: u32 = doe - (365 * yoe + yoe / 4 - yoe / 100);
    proof {
        lemma_month_of_year(doy);
    }
    let mp: u32 = (5 * doy + 2) / 153;
    let d: u32 = doy - (153 * mp + 2) / 5 + 1;
    let m: u32 = if mp < 10 {
        mp + 3
    } else {
        mp - 9
    };
    let y: i64 = yoe as i64 + era * 400;
    let year: i64 = if m <= 2 {
        y + 1
    } else {
        y
    };
    proof {
        lemma_civil_date(z as int, era as int, doe, yoe, doy, mp, d, m, year as int);
    }
    let yr: i32 = #[verifier::truncate] (year as i32);
    proof {
        assert(yr == #[verifier::truncate] ((year as int) as i32));
        assert(is_civil_date(z as int, year as int, m as int, d as int));
        assert(exists|y: int|
            yr == #[verifier::truncate] (y as i32) && #[trigger] is_civil_date(
                z as int,
                y,
                m as int,
                d as int,
            ));
    }
    let r = (yr, m, d);
    proof {
        assert(is_civil_date(z as int, year as int, r.1 as int, r.2 as int));
        assert(r.0 == #[verifier::truncate] ((year as int) as i32));
    }
    r
}

proof fn lemma_days_to_march_shift(x: int, e: int)
    requires
        0 <= x,
    ensures
        days_to_march(x + 400 * e) == days_to_march(x) + 146097 * e,
{
    let y = x + 400 * e;
    lemma_fundamental_div_mod_converse(y, 4, x / 4 + 100 * e, x % 4);
    lemma_fundamental_div_mod_converse(y, 100, x / 100 + 4 * e, x % 100);
    lemma_fundamental_div_mod_converse(y, 400, x / 400 + e, x % 400);
}

/// A year counted from March is 366 days long when the February that ends
/// it has a leap day, else 365.
proof fn lemma_march_year_length(a: int)
    ensures
        days_to_march(a + 1) - days_to_march(a) == (if is_leap(a + 1) {
            366int
        } else {
            365int
        }),
{
    let yoe = a % 400;
    let era = a / 400;
    lemma_fundamental_div_mod_converse(a, 400, era, yoe);
    lemma_days_to_march_shift(yoe, era);
    lemma_days_to_march_shift(yoe + 1, era);
    lemma_era_shift(yoe, era);
    lemma_year_length(yoe as u32);
    assert(a + 1 == (yoe + 1) + 400 * era);
}

proof fn lemma_days_to_march_grows(a: int, b: int)
    requires
        a <= b,
    ensures
        days_to_march(a) + 365 * (b - a) <= days_to_march(b),
    decreases b - a,
{
    if a < b {
        lemma_days_to_march_grows(a, b - 1);
        lemma_march_year_length(b - 1);
    }
}

/// Where a valid date falls in its year counted from March: its year, its
/// month counted from March, and its day of that year.
proof fn lemma_date_in_year(y: int, m: int, d: int)
    requires
        valid_date(y, m, d),
    ensures
        ({
            let my = if m <= 2 {
                y - 1
            } else {
                y
            };
            let mp = if m > 2 {
                m - 3
            } else {
                m + 9
            };
            let off = days_before_month(mp) + d - 1;
            &&& 0 <= off
            &&& off < days_to_march(my + 1) - days_to_march(my)
            &&& days_from_civil(y, m, d) + 719468 == days_to_march(my) + off
        }),
{
    let my = if m <= 2 {
        y - 1
    } else {
        y
    };
    lemma_march_year_length(my);
}

/// A day count names one date: two valid dates with the same count are
/// the same date.
pub proof fn law_one_date_per_day(z: int, y1: int, m1: int, d1: int, y2: int, m2: int, d2: int)
    requires
        is_civil_date(z, y1, m1, d1),
        is_civil_date(z, y2, m2, d2),
    ensures
        y1 == y2 && m1 == m2 && d1 == d2,
{
    lemma_date_in_year(y1, m1, d1);
    lemma_date_in_year(y2, m2, d2);
    let my1 = if m1 <= 2 {
        y1 - 1
    } else {
        y1
    };
    let my2 = if m2 <= 2 {
        y2 - 1
    } else {
        y2
    };
    if my1 < my2 {
        lemma_days_to_march_grows(my1 + 1, my2);
    } else if my2 < my1 {
        lemma_days_to_march_grows(my2 + 1, my1);
    }
    assert(my1 == my2);
}

/// Reading a date back from its day count gives the date: for a valid date
/// whose year fits in `i32`, `civil_from_days` of its count returns it.
pub proof fn law_civil_from_days_inverts_days_from_civil(y: int, m: int, d: int, r: (i32, u32, u32))
    requires
        valid_date(y, m, d),
        i32::MIN <= y <= i32::MAX,
        exists|y2: int|
            r.0 == #[verifier::truncate] (y2 as i32) && #[trigger] is_civil_date(
                days_from_civil(y, m, d),
                y2,
                r.1 as int,
                r.2 as int,
            ),
    ensures
        r.0 == y && r.1 == m && r.2 == d,
{
    let y2 = choose|y2: int|
        r.0 == #[verifier::truncate] (y2 as i32) && #[trigger] is_civil_date(
            days_from_civil(y, m, d),
            y2,
            r.1 as int,
            r.2 as int,
        );
    law_one_date_per_day(days_from_civil(y, m, d), y, m, d, y2, r.1 as int, r.2 as int);
}

// ---------------------------------------------------------------------------
// Timestamps
// ---------------------------------------------------------------------------

/// Seconds since the epoch as a UTC date and time of day: the date's year
/// truncated to `i32`, its month and day, then hour, minute and second.
pub fn secs_to_ymd_hms(secs: u64) -> (r: (i32, u32, u32, u32, u32, u32))
    ensures
        exists|y: int|
            r.0 == #[verifier::truncate] (y as i32) && #[trigger] is_civil_date(
                (secs / 86_400) as int,
                y,
                r.1 as int,
                r.2 as int,
            ),
        r.3 == (secs % 86_400) / 3600,
        r.4 == (secs % 3600) / 60,
        r.5 == secs % 60,
{
    let days: i64 = (secs / 86_400) as i64;
    let rem = secs % 86_400;
    let hour = (rem / 3600) as u32;
    let minute = ((rem % 3600) / 60) as u32;
    let second = (rem % 60) as u32;
    proof {
        assert((secs % 86_400) % 3600 == secs % 3600) by (nonlinear_arith);
        assert((secs % 86_400) % 60 == secs % 60) by (nonlinear_arith);
    }
    let (year, month, day) = civil_from_days(days);
    let ghost y = choose|y: int|
        year == #[verifier::truncate] (y as i32) && #[trigger] is_civil_date(
            days as int,
            y,
            month as int,
            day as int,
        );
    let r = (year, month, day, hour, minute, second);
    proof {
        assert(is_civil_date((secs / 86_400) as int, y, r.1 as int, r.2 as int));
        assert(r.0 == #[verifier::truncate] (y as i32));
    }
    r
}

/// `v` zero-padded to `width` characters as `{:0width}` writes an integer:
/// a minus sign first when negative, counted in the width.
pub open spec fn padded_signed(v: int, width: nat) -> Seq<char> {
    if v < 0 {
        seq!['-'] + padded((-v) as nat, if width > 0 {
            (width - 1) as nat
        } else {
            0
        })
    } else {
        padded(v as nat, width)
    }
}

/// An ISO-8601 UTC timestamp with milliseconds, as the request log writes
/// it: `YYYY-MM-DDTHH:MM:SS.mmmZ`.
pub open spec fn iso_text(
    year: i32,
    month: u32,
    day: u32,
    hour: u32,
    minute: u32,
    second: u32,
    millis: u32,
) -> Seq<char> {
    padded_signed(year as int, 4) + seq!['-'] + padded(month as nat, 2) + seq!['-'] + padded(
        day as nat,
        2,
    ) + seq!['T'] + padded(hour as nat, 2) + seq![':'] + padded(minute as nat, 2) + seq![':']
        + padded(second as nat, 2) + seq!['.'] + padded(millis as nat, 3) + seq!['Z']
}

fn padded_signed_string(v: i32, width: usize) -> (s: String)
    requires
        width >= 1,
    ensures
        s@ == padded_signed(v as int, width as nat),
{
    if v < 0 {
        let mag: u64 = (0i64 - v as i64) as u64;
        let mut s = String::new();
        push_char(&mut s, '-');
        let p = padded_string(mag, width - 1);
        push_str(&mut s, p.as_str());
        proof {
            assert(s@ =~= padded_signed(v as int, width as nat));
        }
        s
    } else {
        padded_string(v as u64, width)
    }
}

/// Append `sep` and `n` zero-padded to `width` digits.
fn push_field(s: &mut String, sep: char, n: u32, width: usize)
    ensures
        final(s)@ == old(s)@ + seq![sep] + padded(n as nat, width as nat),
{
    push_char(s, sep);
    let p = padded_string(n as u64, width);
    push_str(s, p.as_str());
    proof {
        assert(final(s)@ =~= old(s)@ + seq![sep] + padded(n as nat, width as nat));
    }
}

/// The timestamp of a date and time, as text.
pub fn iso_timestamp(
    year: i32,
    month: u32,
    day: u32,
    hour: u32,
    minute: u32,
    second: u32,
    millis: u32,
) -> (s: String)
    ensures
        s@ == iso_text(year, month, day, hour, minute, second, millis),
{
    let mut s = padded_signed_string(year, 4);
    push_field(&mut s, '-', month, 2);
    push_field(&mut s, '-', day, 2);
    push_field(&mut s, 'T', hour, 2);
    push_field(&mut s, ':', minute, 2);
    push_field(&mut s, ':', second, 2);
    push_field(&mut s, '.', millis, 3);
    push_char(&mut s, 'Z');
    s
}

/// The timestamp of `ms` milliseconds after the epoch.
pub open spec fn iso_of_ms(ms: u64, t: Seq<char>) -> bool {
    exists|r: (i32, u32, u32, u32, u32, u32)|
        {
            &&& #[trigger] iso_text(r.0, r.1, r.2, r.3, r.4, r.5, (ms % 1000) as u32) == t
            &&& exists|y: int|
                r.0 == #[verifier::truncate] (y as i32) && #[trigger] is_civil_date(
                    ((ms / 1000) / 86_400) as int,
                    y,
                    r.1 as int,
                    r.2 as int,
                )
            &&& r.3 == ((ms / 1000) % 86_400) / 3600
            &&& r.4 == ((ms / 1000) % 3600) / 60
            &&& r.5 == (ms / 1000) % 60
        }
}

/// The timestamp of milliseconds since the epoch.
pub fn iso_of_epoch_ms(ms: u64) -> (s: String)
    ensures
        iso_of_ms(ms, s@),
{
    let secs = ms / 1000;
    let millis = (ms % 1000) as u32;
    let r = secs_to_ymd_hms(secs);
    let s = iso_timestamp(r.0, r.1, r.2, r.3, r.4, r.5, millis);
    proof {
        assert(iso_text(r.0, r.1, r.2, r.3, r.4, r.5, (ms % 1000) as u32) == s@);
    }
    s
}

/// The timestamp of now, to the millisecond, UTC.
pub fn iso_now_ms() -> (s: String)
    ensures
        exists|ms: u64| iso_of_ms(ms, s@),
{
    let ms = unix_time_ms();
    iso_of_epoch_ms(ms)
}

// ---------------------------------------------------------------------------
// Rows and settings
// ---------------------------------------------------------------------------

/// One request-log row. Field names match the Tinybird `request_log`
/// datasource schema.
pub struct RequestLogEvent {
    pub timestamp: String,
    pub project_id: String,
    pub deployment_id: String,
    pub path: String,
    pub method: String,
    pub status: u16,
    pub cpu_ms: u32,
    pub bytes_in: u32,
    pub bytes_out: u32,
    pub region: String,
    pub error: String,
}

/// The shipper's settings. None of them: the shipper is off.
pub struct ResolvedConfig {
    pub host: String,
    pub token: String,
    pub project_id: String,
    pub deployment_id: String,
    pub region: String,
    pub datasource: String,
}

pub open spec fn opt_text(o: Option<&str>) -> Option<Seq<char>> {
    match o {
        Some(s) => Some(s@),
        None => None,
    }
}

pub open spec fn or_default(o: Option<Seq<char>>, d: Seq<char>) -> Seq<char> {
    match o {
        Some(s) => s,
        None => d,
    }
}

fn text_or(o: Option<&str>, d: &str) -> (s: String)
    ensures
        s@ == or_default(opt_text(o), d@),
{
    match o {
        Some(v) => String::from_str(v),
        None => String::from_str(d),
    }
}

impl ResolvedConfig {
    /// The settings from the values of `PYLON_TINYBIRD_TOKEN`,
    /// `PYLON_PROJECT_ID`, `PYLON_TINYBIRD_HOST`, `PYLON_DEPLOYMENT_ID`,
    /// `PYLON_REGION`, `FLY_REGION` and `PYLON_TINYBIRD_DATASOURCE` (None:
    /// unset). The shipper is off without a token or a project id; the
    /// region is `PYLON_REGION`, else `FLY_REGION`, else empty.
    pub fn from_values(
        token: Option<&str>,
        project_id: Option<&str>,
        host: Option<&str>,
        deployment_id: Option<&str>,
        region: Option<&str>,
        fly_region: Option<&str>,
        datasource: Option<&str>,
    ) -> (r: Option<ResolvedConfig>)
        ensures
            r is Some <==> (match (token, project_id) {
                (Some(t), Some(p)) => t@.len() > 0 && p@.len() > 0,
                _ => false,
            }),
            r matches Some(c) ==> {
                &&& Some(c.token@) == opt_text(token)
                &&& Some(c.project_id@) == opt_text(project_id)
                &&& c.host@ == or_default(opt_text(host), "https://api.tinybird.co"@)
                &&& c.deployment_id@ == or_default(opt_text(deployment_id), ""@)
                &&& c.region@ == or_default(
                    opt_text(region),
                    or_default(opt_text(fly_region), ""@),
                )
                &&& c.datasource@ == or_default(opt_text(datasource), "request_log"@)
            },
    {
        let token = match token {
            Some(t) => t,
            None => {
                return None;
            },
        };
        if str_len(token) == 0 {
            proof {
                crate::text::lemma_text_len_empty(token@);
            }
            return None;
        }
        let project_id = match project_id {
            Some(p) => p,
            None => {
                return None;
            },
        };
        if str_len(project_id) == 0 {
            proof {
                crate::text::lemma_text_len_empty(project_id@);
            }
            return None;
        }
        proof {
            crate::text::lemma_text_len_empty(token@);
            crate::text::lemma_text_len_empty(project_id@);
        }
        let region = match region {
            Some(r) => String::from_str(r),
            None => text_or(fly_region, ""),
        };
        Some(ResolvedConfig {
            host: text_or(host, "https://api.tinybird.co"),
            token: String::from_str(token),
            project_id: String::from_str(project_id),
            deployment_id: text_or(deployment_id, ""),
            region,
            datasource: text_or(datasource, "request_log"),
        })
    }

    /// Where a batch goes: `{host}/v0/events?name={datasource}`.
    pub fn events_url(&self) -> (u: String)
        ensures
            u@ == self.host@ + "/v0/events?name="@ + self.datasource@,
    {
        let mut u = self.host.clone();
        push_str(&mut u, "/v0/events?name=");
        push_str(&mut u, self.datasource.as_str());
        u
    }

    /// The `Authorization` value a batch carries: `Bearer {token}`.
    pub fn auth_header(&self) -> (a: String)
        ensures
            a@ == "Bearer "@ + self.token@,
    {
        let mut a = String::from_str("Bearer ");
        push_str(&mut a, self.token.as_str());
        a
    }
}

/// Rows a batch holds before it is sent.
pub const BATCH_MAX: usize = 100;
/// How long a row waits for others before its batch is sent.
pub const FLUSH_INTERVAL_MS: u64 = 2_000;
/// How long the shipper waits for a row when it holds none.
pub const IDLE_WAIT_MS: u64 = 60_000;

/// How long the shipper waits for the next row: a minute when it holds
/// none, else what is left of the flush interval since the last flush.
pub fn flush_wait_ms(pending: usize, since_flush_ms: u64) -> (w: u64)
    ensures
        w == (if pending == 0 {
            IDLE_WAIT_MS as int
        } else if since_flush_ms >= FLUSH_INTERVAL_MS {
            0
        } else {
            FLUSH_INTERVAL_MS - since_flush_ms
        }),
{
    if pending == 0 {
        IDLE_WAIT_MS
    } else if since_flush_ms >= FLUSH_INTERVAL_MS {
        0
    } else {
        FLUSH_INTERVAL_MS - since_flush_ms
    }
}

/// A batch is sent once it holds [`BATCH_MAX`] rows.
pub fn batch_full(pending: usize) -> (b: bool)
    ensures
        b == (pending >= BATCH_MAX),
{
    pending >= BATCH_MAX
}

/// The fields stamped on every row of this process.
pub struct TinybirdLogger {
    project_id: String,
    deployment_id: String,
    region: String,
}

impl TinybirdLogger {
    pub closed spec fn project_id(&self) -> Seq<char> {
        self.project_id@
    }

    pub closed spec fn deployment_id(&self) -> Seq<char> {
        self.deployment_id@
    }

    pub closed spec fn region(&self) -> Seq<char> {
        self.region@
    }

    /// The logger for a shipper with these settings.
    pub fn new(cfg: &ResolvedConfig) -> (l: TinybirdLogger)
        ensures
            l.project_id() == cfg.project_id@,
            l.deployment_id() == cfg.deployment_id@,
            l.region() == cfg.region@,
    {
        TinybirdLogger {
            project_id: cfg.project_id.clone(),
            deployment_id: cfg.deployment_id.clone(),
            region: cfg.region.clone(),
        }
    }

    /// The row a completed request makes, stamped now.
    pub fn record(
        &self,
        method: &str,
        path: &str,
        status: u16,
        cpu_ms: u32,
        bytes_in: u32,
        bytes_out: u32,
        error: &str,
    ) -> (e: RequestLogEvent)
        ensures
            exists|ms: u64| iso_of_ms(ms, e.timestamp@),
            e.project_id@ == self.project_id(),
            e.deployment_id@ == self.deployment_id(),
            e.region@ == self.region(),
            e.path@ == path@,
            e.method@ == method@,
            e.status == status,
            e.cpu_ms == cpu_ms,
            e.bytes_in == bytes_in,
            e.bytes_out == bytes_out,
            e.error@ == error@,
    {
        let timestamp = iso_now_ms();
        let ghost ms = choose|ms: u64| iso_of_ms(ms, timestamp@);
        let e = RequestLogEvent {
            timestamp,
            project_id: self.project_id.clone(),
            deployment_id: self.deployment_id.clone(),
            path: String::from_str(path),
            method: String::from_str(method),
            status,
            cpu_ms,
            bytes_in,
            bytes_out,
            region: self.region.clone(),
            error: String::from_str(error),
        };
        proof {
            assert(iso_of_ms(ms, e.timestamp@));
        }
        e
    }
}

} // verus!
