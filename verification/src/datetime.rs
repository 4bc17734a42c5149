//! Dates and times over epoch seconds (UTC, proleptic Gregorian calendar).
//!
//! A timestamp is ISO-8601 text or epoch seconds; a trailing `Z` or zone offset is
//! accepted on input and ignored.
use vstd::arithmetic::div_mod::{lemma_fundamental_div_mod, lemma_fundamental_div_mod_converse};
use vstd::prelude::*;
use crate::text::{
    from_chars, i64_of_text, lower_chars, lower_text, padded_int, parse_i64, push_padded,
    slice_chars, spells, to_chars, trim_chars, trimmed,
};

verus! {

/// Whether a year has a 29th of February.
pub open spec fn leap(y: int) -> bool {
    y % 4 == 0 && (y % 100 != 0 || y % 400 == 0)
}

/// The length of a month.
pub open spec fn month_length(y: int, m: int) -> int {
    if m == 2 {
        if leap(y) {
            29
        } else {
            28
        }
    } else if m == 4 || m == 6 || m == 9 || m == 11 {
        30
    } else {
        31
    }
}

/// Whether `(y, m, d)` is a day of the calendar.
pub open spec fn valid_date(y: int, m: int, d: int) -> bool {
    1 <= m <= 12 && 1 <= d <= month_length(y, m)
}

/// Days of a year before its month `m`.
pub open spec fn days_before_month(y: int, m: int) -> int {
    let shift = if m > 2 && leap(y) {
        1int
    } else {
        0int
    };
    shift + (if m <= 1 {
        0int
    } else if m == 2 {
        31
    } else if m == 3 {
        59
    } else if m == 4 {
        90
    } else if m == 5 {
        120
    } else if m == 6 {
        151
    } else if m == 7 {
        181
    } else if m == 8 {
        212
    } else if m == 9 {
        243
    } else if m == 10 {
        273
    } else if m == 11 {
        304
    } else {
        334
    })
}

/// Days before the first of January of year `y`, from the epoch.
pub open spec fn days_before_year(y: int) -> int {
    let p = y - 1;
    365 * p + p / 4 - p / 100 + p / 400 - 719162
}

/// Days from the epoch to a date: whole years, whole months, days.
pub open spec fn day_number(y: int, m: int, d: int) -> int {
    days_before_year(y) + days_before_month(y, m) + (d - 1)
}

proof fn lemma_floor(a: int, b: int, q: int, k: int)
    requires
        b > 1,
        a < 0,
        q == -(a + 1) / b,
        k == -(a + 1) % b,
    ensures
        a / b == -q - 1,
        a % b == b - 1 - k,
{
    lemma_fundamental_div_mod(-(a + 1), b);
    assert(a == (-q - 1) * b + (b - 1 - k)) by (nonlinear_arith)
        requires
            -(a + 1) == b * q + k,
    ;
    lemma_fundamental_div_mod_converse(a, b, -q - 1, b - 1 - k);
}

fn floor_div(a: i128, b: i128) -> (r: i128)
    requires
        b > 1,
    ensures
        r == a as int / b as int,
{
    if a >= 0 {
        a / b
    } else {
        let n: i128 = -(a + 1);
        let q: i128 = n / b;
        proof {
            lemma_floor(a as int, b as int, q as int, n as int % b as int);
        }
        -q - 1
    }
}

fn floor_rem(a: i128, b: i128) -> (r: i128)
    requires
        b > 1,
    ensures
        r == a as int % b as int,
{
    if a >= 0 {
        a % b
    } else {
        let n: i128 = -(a + 1);
        let k: i128 = n % b;
        proof {
            lemma_floor(a as int, b as int, n as int / b as int, k as int);
        }
        b - 1 - k
    }
}

fn count_days(y: i64, m: i64, d: i64) -> (r: i128)
    requires
        1 <= m <= 12,
    ensures
        r == day_number(y as int, m as int, d as int),
        -4_000_000_000_000_000_000_000 <= r <= 4_000_000_000_000_000_000_000,
{
    let y0: i128 = if m <= 2 {
        y as i128 - 1
    } else {
        y as i128
    };
    let era: i128 = floor_div(y0, 400);
    let yoe: i128 = y0 - era * 400;
    let mp: i128 = if m > 2 {
        m as i128 - 3
    } else {
        m as i128 + 9
    };
    let doy: i128 = (153 * mp + 2) / 5 + d as i128 - 1;
    let doe: i128 = yoe * 365 + yoe / 4 - yoe / 100 + doy;
    proof {
        lemma_eras(y0 as int, era as int, yoe as int);
        lemma_march(y as int, m as int, y0 as int, mp as int);
    }
    era * 146097 + doe - 719468
}

/// Days since the epoch for a civil date.
pub fn days_from_civil(y: i64, m: i64, d: i64) -> (r: i64)
    requires
        1 <= m <= 12,
        i64::MIN <= day_number(y as int, m as int, d as int) <= i64::MAX,
    ensures
        r == day_number(y as int, m as int, d as int),
{
    count_days(y, m, d) as i64
}

/// Days before March of the year `y0` counted from the era start, against the
/// count by whole years.
proof fn lemma_eras(y0: int, era: int, yoe: int)
    requires
        era == y0 / 400,
        yoe == y0 - era * 400,
    ensures
        0 <= yoe < 400,
        era * 146097 + yoe * 365 + yoe / 4 - yoe / 100 == 365 * y0 + y0 / 4 - y0 / 100 + y0 / 400,
{
    assert(y0 / 4 == era * 100 + yoe / 4);
    assert(y0 / 100 == era * 4 + yoe / 100);
}

/// A year counted from March, against the same year counted from January.
proof fn lemma_march(y: int, m: int, y0: int, mp: int)
    requires
        1 <= m <= 12,
        y0 == (if m <= 2 {
            y - 1
        } else {
            y
        }),
        mp == (if m > 2 {
            m - 3
        } else {
            m + 9
        }),
    ensures
        365 * y0 + y0 / 4 - y0 / 100 + y0 / 400 + (153 * mp + 2) / 5 - 719468 == days_before_year(y)
            + days_before_month(y, m),
{
    lemma_leap_step(y);
}

/// Consecutive integers against a multiple.
proof fn lemma_div_step(y: int, k: int)
    requires
        k > 1,
    ensures
        y / k - (y - 1) / k == (if y % k == 0 {
            1int
        } else {
            0int
        }),
{
    lemma_fundamental_div_mod(y, k);
    let (q, r) = (y / k, y % k);
    if r == 0 {
        assert(y - 1 == (q - 1) * k + (k - 1)) by (nonlinear_arith)
            requires
                y == k * q,
        ;
        lemma_fundamental_div_mod_converse(y - 1, k, q - 1, k - 1);
    } else {
        assert(y - 1 == q * k + (r - 1)) by (nonlinear_arith)
            requires
                y == k * q + r,
        ;
        lemma_fundamental_div_mod_converse(y - 1, k, q, r - 1);
    }
}

/// The leap days up to a year, one year at a time.
proof fn lemma_leap_step(y: int)
    ensures
        y / 4 - (y - 1) / 4 - (y / 100 - (y - 1) / 100) + (y / 400 - (y - 1) / 400) == (if leap(y) {
            1int
        } else {
            0int
        }),
{
    lemma_div_step(y, 4);
    lemma_div_step(y, 100);
    lemma_div_step(y, 400);
    lemma_fundamental_div_mod(y, 400);
    lemma_fundamental_div_mod(y, 100);
    if y % 400 == 0 {
        lemma_fundamental_div_mod_converse(y, 100, 4 * (y / 400), 0);
    }
    if y % 100 == 0 {
        lemma_fundamental_div_mod_converse(y, 4, 25 * (y / 100), 0);
    }
}

// ---- from day numbers back to dates ------------------------------------------------

/// Later dates have larger day numbers.
proof fn lemma_dates_ordered(y: int, m: int, d: int, y2: int, m2: int, d2: int)
    requires
        valid_date(y, m, d),
        valid_date(y2, m2, d2),
        y < y2 || (y == y2 && (m < m2 || (m == m2 && d < d2))),
    ensures
        day_number(y, m, d) < day_number(y2, m2, d2),
{
    if y < y2 {
        lemma_year_end(y, m, d);
        lemma_years_ordered(y + 1, y2);
    }
}

proof fn lemma_year_end(y: int, m: int, d: int)
    requires
        valid_date(y, m, d),
    ensures
        day_number(y, m, d) < days_before_year(y + 1),
{
    lemma_leap_step(y);
}

proof fn lemma_years_ordered(a: int, b: int)
    requires
        a <= b,
    ensures
        days_before_year(a) <= days_before_year(b),
    decreases b - a,
{
    if a < b {
        lemma_years_ordered(a, b - 1);
        lemma_leap_step(b - 1);
    }
}

/// The date of a day number.
pub open spec fn civil(z: int) -> (int, int, int) {
    choose|c: (int, int, int)| valid_date(c.0, c.1, c.2) && day_number(c.0, c.1, c.2) == z
}

proof fn lemma_civil(y: int, m: int, d: int)
    requires
        valid_date(y, m, d),
    ensures
        civil(day_number(y, m, d)) == (y, m, d),
{
    let z = day_number(y, m, d);
    let c = (y, m, d);
    assert(valid_date(c.0, c.1, c.2) && day_number(c.0, c.1, c.2) == z);
    let g = civil(z);
    assert(valid_date(g.0, g.1, g.2) && day_number(g.0, g.1, g.2) == z);
    if g.0 < y || (g.0 == y && (g.1 < m || (g.1 == m && g.2 < d))) {
        lemma_dates_ordered(g.0, g.1, g.2, y, m, d);
    } else if g != c {
        lemma_dates_ordered(y, m, d, g.0, g.1, g.2);
    }
}

/// Dates and day numbers are the same thing: every day number is that of exactly
/// one calendar day, and every calendar day comes back from its day number.
pub proof fn law_civil_inverse(y: int, m: int, d: int, z: int)
    ensures
        valid_date(y, m, d) ==> civil(day_number(y, m, d)) == (y, m, d),
        ({
            let c = civil(z);
            valid_date(c.0, c.1, c.2) && day_number(c.0, c.1, c.2) == z
        }),
{
    if valid_date(y, m, d) {
        lemma_civil(y, m, d);
    }
    let (a, b, c) = split_days(z);
    lemma_split_days(z);
    lemma_civil(a, b, c);
}

/// Where in its four-century era a day lies, counted in years from March.
spec fn era_year(doe: int) -> (int, int) {
    let c = if doe / 36524 > 3 {
        3
    } else {
        doe / 36524
    };
    let r = doe - c * 36524;
    let q = r / 1461;
    let r2 = r - q * 1461;
    let n = if r2 / 365 > 3 {
        3
    } else {
        r2 / 365
    };
    (100 * c + 4 * q + n, r2 - 365 * n)
}

spec fn split_days(z: int) -> (int, int, int) {
    let z0 = z + 719468;
    let era = z0 / 146097;
    let (yoe, doy) = era_year(z0 % 146097);
    let mp = (5 * doy + 2) / 153;
    let d = doy - (153 * mp + 2) / 5 + 1;
    let m = if mp < 10 {
        mp + 3
    } else {
        mp - 9
    };
    let y = yoe + era * 400;
    (if m <= 2 {
        y + 1
    } else {
        y
    }, m, d)
}

proof fn lemma_era_year(doe: int)
    requires
        0 <= doe < 146097,
    ensures
        ({
            let (yoe, doy) = era_year(doe);
            &&& 0 <= yoe < 400
            &&& 0 <= doy <= 365
            &&& doy == 365 ==> (yoe + 1) % 4 == 0 && ((yoe + 1) % 100 != 0 || yoe + 1 == 400)
            &&& doe == 365 * yoe + yoe / 4 - yoe / 100 + doy
        }),
{
    let c = if doe / 36524 > 3 {
        3
    } else {
        doe / 36524
    };
    let r = doe - c * 36524;
    assert(0 <= c <= 3);
    assert(0 <= r <= 36524);
    assert(c < 3 ==> r < 36524);
    let q = r / 1461;
    let r2 = r - q * 1461;
    assert(0 <= q <= 24);
    assert(0 <= r2 < 1461);
    let n = if r2 / 365 > 3 {
        3
    } else {
        r2 / 365
    };
    assert(0 <= n <= 3);
    let yoe = 100 * c + 4 * q + n;
    assert(yoe / 4 == 25 * c + q);
    assert(yoe / 100 == c);
    let doy = r2 - 365 * n;
    assert(0 <= doy <= 365);
    if doy == 365 {
        assert(n == 3);
        assert((yoe + 1) % 4 == 0);
        if (yoe + 1) % 100 == 0 {
            assert(4 * q + 4 == 100) by {
                assert(yoe + 1 == 100 * c + (4 * q + 4));
            }
            assert(q == 24);
            assert(r == 36524);
            assert(c == 3);
        }
    }
}

proof fn lemma_split_days(z: int)
    ensures
        ({
            let (y, m, d) = split_days(z);
            valid_date(y, m, d) && day_number(y, m, d) == z
        }),
{
    let z0 = z + 719468;
    let era = z0 / 146097;
    let doe = z0 % 146097;
    lemma_fundamental_div_mod(z0, 146097);
    lemma_era_year(doe);
    let (yoe, doy) = era_year(doe);
    let mp = (5 * doy + 2) / 153;
    let d = doy - (153 * mp + 2) / 5 + 1;
    let m = if mp < 10 {
        mp + 3
    } else {
        mp - 9
    };
    let y0 = yoe + era * 400;
    let y = if m <= 2 {
        y0 + 1
    } else {
        y0
    };
    assert(0 <= mp <= 11);
    lemma_fundamental_div_mod_converse(y0, 400, era, yoe);
    lemma_eras(y0, era, yoe);
    lemma_march(y, m, y0, mp);
    assert(day_number(y, m, d) == z);
    assert(1 <= d <= 31);
    if doy == 365 {
        lemma_leap_from_era(y0, era, yoe);
    }
}

proof fn lemma_leap_from_era(y0: int, era: int, yoe: int)
    requires
        y0 == yoe + era * 400,
        0 <= yoe < 400,
        (yoe + 1) % 4 == 0,
        (yoe + 1) % 100 != 0 || yoe + 1 == 400,
    ensures
        leap(y0 + 1),
{
    let k = yoe + 1;
    lemma_fundamental_div_mod(k, 4);
    lemma_fundamental_div_mod(k, 100);
    lemma_fundamental_div_mod_converse(y0 + 1, 4, k / 4 + era * 100, 0);
    lemma_fundamental_div_mod_converse(y0 + 1, 100, k / 100 + era * 4, k % 100);
    if k == 400 {
        lemma_fundamental_div_mod_converse(y0 + 1, 400, era + 1, 0);
    }
}

/// The date of a day number.
pub fn civil_from_days(z: i64) -> (r: (i64, i64, i64))
    ensures
        valid_date(r.0 as int, r.1 as int, r.2 as int),
        day_number(r.0 as int, r.1 as int, r.2 as int) == z,
        (r.0 as int, r.1 as int, r.2 as int) == civil(z as int),
        -26_000_000_000_000_000 < r.0 < 26_000_000_000_000_000,
        -200_000_000_000_000 <= z <= 200_000_000_000_000 ==> -600_000_000_000 < r.0
            < 600_000_000_000,
{
    let z0: i128 = z as i128 + 719468;
    let era: i128 = floor_div(z0, 146097);
    let doe: i128 = floor_rem(z0, 146097);
    let c: i128 = if doe / 36524 > 3 {
        3
    } else {
        doe / 36524
    };
    let left: i128 = doe - c * 36524;
    let q: i128 = left / 1461;
    let r2: i128 = left - q * 1461;
    let n: i128 = if r2 / 365 > 3 {
        3
    } else {
        r2 / 365
    };
    let yoe: i128 = 100 * c + 4 * q + n;
    let doy: i128 = r2 - 365 * n;
    let mp: i128 = (5 * doy + 2) / 153;
    let d: i128 = doy - (153 * mp + 2) / 5 + 1;
    let m: i128 = if mp < 10 {
        mp + 3
    } else {
        mp - 9
    };
    let y0: i128 = yoe + era * 400;
    let y: i128 = if m <= 2 {
        y0 + 1
    } else {
        y0
    };
    proof {
        lemma_era_year(doe as int);
        assert((yoe as int, doy as int) == era_year(doe as int));
        lemma_split_days(z as int);
        assert((y as int, m as int, d as int) == split_days(z as int));
        lemma_civil(y as int, m as int, d as int);
    }
    (y as i64, m as i64, d as i64)
}

/// Broken-down time: year, month, day, hour, minute, second.
pub open spec fn clock(e: int) -> (int, int, int, int, int, int) {
    let c = civil(e / 86400);
    let t = e % 86400;
    (c.0, c.1, c.2, t / 3600, (t % 3600) / 60, t % 60)
}

pub open spec fn parts_view(p: (i64, i64, i64, i64, i64, i64)) -> (int, int, int, int, int, int) {
    (p.0 as int, p.1 as int, p.2 as int, p.3 as int, p.4 as int, p.5 as int)
}

/// Broken-down UTC time: `(year, month, day, hour, min, sec)`.
pub fn parts(epoch: i64) -> (r: (i64, i64, i64, i64, i64, i64))
    ensures
        parts_view(r) == clock(epoch as int),
        valid_date(r.0 as int, r.1 as int, r.2 as int),
        0 <= r.3 < 24,
        0 <= r.4 < 60,
        0 <= r.5 < 60,
        -600_000_000_000 < r.0 < 600_000_000_000,
        day_number(r.0 as int, r.1 as int, r.2 as int) * 86400 + r.3 * 3600 + r.4 * 60 + r.5 == epoch,
{
    let days: i64 = floor_div(epoch as i128, 86400) as i64;
    let rem: i64 = floor_rem(epoch as i128, 86400) as i64;
    proof {
        lemma_fundamental_div_mod(epoch as int, 86400);
    }
    let (y, m, d) = civil_from_days(days);
    (y, m, d, rem / 3600, (rem % 3600) / 60, rem % 60)
}

// ---- text to time -----------------------------------------------------------------

/// The first place from `i` on that holds one of two characters.
pub open spec fn first_of(s: Seq<char>, a: char, b: char, i: int) -> int
    decreases s.len() - i,
{
    if i >= s.len() {
        s.len() as int
    } else if s[i] == a || s[i] == b {
        i
    } else {
        first_of(s, a, b, i + 1)
    }
}

/// What stands before the first of two characters.
pub open spec fn before(s: Seq<char>, a: char, b: char) -> Seq<char> {
    s.take(first_of(s, a, b, 0))
}

/// The `k`-th field of `s` cut at a separator.
pub open spec fn field(s: Seq<char>, sep: char, k: nat) -> Option<Seq<char>>
    decreases k,
{
    let i = first_of(s, sep, sep, 0);
    if k == 0 {
        Some(before(s, sep, sep))
    } else if i < s.len() {
        field(s.skip(i + 1), sep, (k - 1) as nat)
    } else {
        None
    }
}

pub open spec fn drop_trailing(s: Seq<char>, c: char) -> Seq<char>
    decreases s.len(),
{
    if s.len() > 0 && s.last() == c {
        drop_trailing(s.drop_last(), c)
    } else {
        s
    }
}

/// The number in an optional field, absent ones counting as zero.
pub open spec fn field_num(f: Option<Seq<char>>) -> Option<i64> {
    match f {
        Some(t) => i64_of_text(t),
        None => Some(0),
    }
}

/// The seconds of a time of day: zone and fraction cut off, then `H[:M[:S]]`.
pub open spec fn time_secs(t: Seq<char>) -> Option<int> {
    let a = before(drop_trailing(t, 'Z'), '+', 'Z');
    let b = before(a, '-', '-');
    let c = before(b, '.', '.');
    let hh = match field(c, ':', 0) {
        Some(x) => i64_of_text(trimmed(x)),
        None => None,
    };
    match (hh, field_num(field(c, ':', 1)), field_num(field(c, ':', 2))) {
        (Some(h), Some(m), Some(s)) => Some(h * 3600 + m * 60 + s),
        _ => None,
    }
}

/// The seconds of a calendar date `Y-M-D`.
pub open spec fn date_secs(t: Seq<char>) -> Option<int> {
    match (field(t, '-', 0), field(t, '-', 1), field(t, '-', 2)) {
        (Some(a), Some(b), Some(c)) => match (i64_of_text(a), i64_of_text(b), i64_of_text(c)) {
            (Some(y), Some(m), Some(d)) => if 1 <= m <= 12 && 1 <= d <= 31 {
                Some(day_number(y as int, m as int, d as int) * 86400)
            } else {
                None
            },
            _ => None,
        },
        _ => None,
    }
}

/// The epoch seconds that a date, or a date and a time, denote.
pub open spec fn epoch_of_text(s: Seq<char>) -> Option<int> {
    let t = trimmed(s);
    let i = first_of(t, 'T', ' ', 0);
    if i < t.len() {
        match (date_secs(t.take(i)), time_secs(t.skip(i + 1))) {
            (Some(a), Some(b)) => Some(a + b),
            _ => None,
        }
    } else {
        date_secs(t)
    }
}

fn find_of(s: &[char], a: char, b: char) -> (r: usize)
    ensures
        r == first_of(s@, a, b, 0),
        r <= s.len(),
        r < s.len() ==> s@[r as int] == a || s@[r as int] == b,
{
    let mut i: usize = 0;
    while i < s.len()
        invariant
            i <= s.len(),
            first_of(s@, a, b, i as int) == first_of(s@, a, b, 0),
        decreases s.len() - i,
    {
        if s[i] == a || s[i] == b {
            return i;
        }
        i += 1;
    }
    i
}

fn cut_before(s: &[char], a: char, b: char) -> (r: Vec<char>)
    ensures
        r@ == before(s@, a, b),
{
    let i = find_of(s, a, b);
    let r = slice_chars(s, 0, i);
    assert(r@ =~= before(s@, a, b));
    r
}

fn field_at(s: &[char], sep: char, k: usize) -> (r: Option<Vec<char>>)
    ensures
        match r {
            Some(v) => field(s@, sep, k as nat) == Some(v@),
            None => field(s@, sep, k as nat) is None,
        },
    decreases k,
{
    let i = find_of(s, sep, sep);
    if k == 0 {
        Some(cut_before(s, sep, sep))
    } else if i < s.len() {
        let rest = slice_chars(s, i + 1, s.len());
        assert(rest@ =~= s@.skip(i + 1));
        field_at(&rest, sep, k - 1)
    } else {
        None
    }
}

fn field_value(s: &[char], k: usize) -> (r: Option<i64>)
    ensures
        r == field_num(field(s@, ':', k as nat)),
{
    match field_at(s, ':', k) {
        Some(t) => parse_i64(&t),
        None => Some(0),
    }
}

fn without_trailing(s: &[char], c: char) -> (r: Vec<char>)
    ensures
        r@ == drop_trailing(s@, c),
{
    let mut n: usize = s.len();
    assert(s@.take(n as int) =~= s@);
    while n > 0 && s[n - 1] == c
        invariant
            n <= s.len(),
            drop_trailing(s@.take(n as int), c) == drop_trailing(s@, c),
        decreases n,
    {
        assert(s@.take(n as int).drop_last() =~= s@.take(n - 1));
        n -= 1;
    }
    let r = slice_chars(s, 0, n);
    assert(r@ =~= s@.take(n as int));
    r
}

fn seconds_of_time(t: &[char]) -> (r: Option<i128>)
    ensures
        match r {
            Some(n) => time_secs(t@) == Some(n as int) && -100_000_000_000_000_000_000_000 < n
                < 100_000_000_000_000_000_000_000,
            None => time_secs(t@) is None,
        },
{
    let z = without_trailing(t, 'Z');
    let a = cut_before(&z, '+', 'Z');
    let b = cut_before(&a, '-', '-');
    let c = cut_before(&b, '.', '.');
    let hh: Option<i64> = match field_at(&c, ':', 0) {
        Some(x) => {
            let x2 = trim_chars(&x);
            parse_i64(&x2)
        },
        None => None,
    };
    match (hh, field_value(&c, 1), field_value(&c, 2)) {
        (Some(h), Some(m), Some(s)) => Some(h as i128 * 3600 + m as i128 * 60 + s as i128),
        _ => None,
    }
}

fn seconds_of_date(t: &[char]) -> (r: Option<i128>)
    ensures
        match r {
            Some(n) => date_secs(t@) == Some(n as int) && -1_000_000_000_000_000_000_000_000_000 < n
                < 1_000_000_000_000_000_000_000_000_000,
            None => date_secs(t@) is None,
        },
{
    match (field_at(t, '-', 0), field_at(t, '-', 1), field_at(t, '-', 2)) {
        (Some(a), Some(b), Some(c)) => match (parse_i64(&a), parse_i64(&b), parse_i64(&c)) {
            (Some(y), Some(m), Some(d)) => if 1 <= m && m <= 12 && 1 <= d && d <= 31 {
                Some(count_days(y, m, d) * 86400)
            } else {
                None
            },
            _ => None,
        },
        _ => None,
    }
}

/// Parse `YYYY-MM-DD[ T]HH:MM:SS[.fff][Z|±HH:MM]`, or a bare date, to epoch
/// seconds. `None` when malformed, or when the second count leaves the range of
/// `i64`.
pub fn parse_epoch_secs(s: &str) -> (r: Option<i64>)
    ensures
        match epoch_of_text(s@) {
            Some(n) => if i64::MIN <= n <= i64::MAX {
                r == Some(n as i64)
            } else {
                r is None
            },
            None => r is None,
        },
{
    let cs = to_chars(s);
    let t = trim_chars(&cs);
    let i = find_of(&t, 'T', ' ');
    let total: Option<i128> = if i < t.len() {
        let date = slice_chars(&t, 0, i);
        let time = slice_chars(&t, i + 1, t.len());
        assert(date@ =~= t@.take(i as int));
        assert(time@ =~= t@.skip(i + 1));
        match (seconds_of_date(&date), seconds_of_time(&time)) {
            (Some(a), Some(b)) => Some(a + b),
            _ => None,
        }
    } else {
        seconds_of_date(&t)
    };
    match total {
        Some(n) => if i64::MIN as i128 <= n && n <= i64::MAX as i128 {
            Some(n as i64)
        } else {
            None
        },
        None => None,
    }
}

// ---- time to text -----------------------------------------------------------------

pub open spec fn date_text(e: int) -> Seq<char> {
    let p = clock(e);
    padded_int(p.0, 4).push('-') + padded_int(p.1, 2).push('-') + padded_int(p.2, 2)
}

pub open spec fn time_text(e: int) -> Seq<char> {
    let p = clock(e);
    padded_int(p.3, 2).push(':') + padded_int(p.4, 2).push(':') + padded_int(p.5, 2)
}

pub open spec fn timestamp_text(e: int) -> Seq<char> {
    date_text(e).push(' ') + time_text(e)
}

fn push_date(out: &mut Vec<char>, epoch: i64)
    ensures
        final(out)@ == old(out)@ + date_text(epoch as int),
{
    let p = parts(epoch);
    push_padded(out, p.0, 4);
    out.push('-');
    push_padded(out, p.1, 2);
    out.push('-');
    push_padded(out, p.2, 2);
    assert(out@ =~= old(out)@ + date_text(epoch as int));
}

fn push_time(out: &mut Vec<char>, epoch: i64)
    ensures
        final(out)@ == old(out)@ + time_text(epoch as int),
{
    let p = parts(epoch);
    push_padded(out, p.3, 2);
    out.push(':');
    push_padded(out, p.4, 2);
    out.push(':');
    push_padded(out, p.5, 2);
    assert(out@ =~= old(out)@ + time_text(epoch as int));
}

/// Format epoch seconds as `YYYY-MM-DD HH:MM:SS`.
pub fn format_timestamp(epoch: i64) -> (r: String)
    ensures
        r@ == timestamp_text(epoch as int),
{
    let mut out: Vec<char> = Vec::new();
    push_date(&mut out, epoch);
    out.push(' ');
    push_time(&mut out, epoch);
    assert(out@ =~= timestamp_text(epoch as int));
    from_chars(&out)
}

/// Format epoch seconds as `YYYY-MM-DD`.
pub fn format_date(epoch: i64) -> (r: String)
    ensures
        r@ == date_text(epoch as int),
{
    let mut out: Vec<char> = Vec::new();
    push_date(&mut out, epoch);
    assert(out@ =~= date_text(epoch as int));
    from_chars(&out)
}

/// Format epoch seconds as `HH:MM:SS`.
pub fn format_time(epoch: i64) -> (r: String)
    ensures
        r@ == time_text(epoch as int),
{
    let mut out: Vec<char> = Vec::new();
    push_time(&mut out, epoch);
    assert(out@ =~= time_text(epoch as int));
    from_chars(&out)
}

/// `SystemTime::elapsed` of `UNIX_EPOCH`, the time from then to now, in whole seconds;
/// nothing for a clock set before the epoch. Nothing is claimed of which second it is.
#[verifier::external_body]
fn std_epoch_secs() -> (r: Option<u64>) {
    match std::time::UNIX_EPOCH.elapsed() {
        Ok(d) => Some(d.as_secs()),
        Err(_) => None,
    }
}

/// What a reading of the clock counts as: its seconds, or zero without one.
pub open spec fn clock_reading(secs: Option<u64>) -> i64 {
    match secs {
        Some(n) => n as i64,
        None => 0,
    }
}

pub fn read_clock(secs: Option<u64>) -> (r: i64)
    ensures
        r == clock_reading(secs),
{
    match secs {
        Some(n) => n as i64,
        None => 0,
    }
}

/// Seconds since the epoch on the wall clock.
pub fn now_epoch() -> (r: i64)
    ensures
        exists|secs: Option<u64>| r == #[trigger] clock_reading(secs),
{
    read_clock(std_epoch_secs())
}

// ---- derived fields -----------------------------------------------------------------

/// Day of the week, Sunday zero: the epoch was a Thursday.
pub open spec fn weekday(e: int) -> int {
    (e / 86400 + 4) % 7
}

/// Day of the week, Sunday = 0 to Saturday = 6.
pub fn day_of_week(epoch: i64) -> (r: i64)
    ensures
        r == weekday(epoch as int),
{
    let days: i128 = floor_div(epoch as i128, 86400);
    floor_rem(days + 4, 7) as i64
}

/// Day of the year, from one.
pub open spec fn yearday(e: int) -> int {
    e / 86400 - day_number(clock(e).0, 1, 1) + 1
}

/// Day of the year, from one.
pub fn day_of_year(epoch: i64) -> (r: i64)
    ensures
        r == yearday(epoch as int),
        1 <= r <= 366,
{
    let p = parts(epoch);
    let days: i128 = floor_div(epoch as i128, 86400);
    proof {
        lemma_leap_step(p.0 as int);
        lemma_fundamental_div_mod(epoch as int, 86400);
    }
    (days - count_days(p.0, 1, 1) + 1) as i64
}

/// The units a time can be cut to.
#[derive(Clone, Copy, Debug, PartialEq, Eq, Structural)]
pub enum TimeUnit {
    Year,
    Quarter,
    Month,
    Week,
    Day,
    Hour,
    Minute,
    Second,
}

/// The unit an (already lower-cased) name stands for.
pub open spec fn unit_named(s: Seq<char>) -> Option<TimeUnit> {
    if s == "year"@ {
        Some(TimeUnit::Year)
    } else if s == "quarter"@ {
        Some(TimeUnit::Quarter)
    } else if s == "month"@ {
        Some(TimeUnit::Month)
    } else if s == "week"@ {
        Some(TimeUnit::Week)
    } else if s == "day"@ {
        Some(TimeUnit::Day)
    } else if s == "hour"@ {
        Some(TimeUnit::Hour)
    } else if s == "minute"@ {
        Some(TimeUnit::Minute)
    } else if s == "second"@ {
        Some(TimeUnit::Second)
    } else {
        None
    }
}

/// The first second of the unit that contains `e`; weeks start on Monday.
pub open spec fn unit_start(u: TimeUnit, e: int) -> int {
    let p = clock(e);
    match u {
        TimeUnit::Year => day_number(p.0, 1, 1) * 86400,
        TimeUnit::Quarter => day_number(p.0, ((p.1 - 1) / 3) * 3 + 1, 1) * 86400,
        TimeUnit::Month => day_number(p.0, p.1, 1) * 86400,
        TimeUnit::Week => (e / 86400 - (e / 86400 + 3) % 7) * 86400,
        TimeUnit::Day => e - e % 86400,
        TimeUnit::Hour => e - e % 3600,
        TimeUnit::Minute => e - e % 60,
        TimeUnit::Second => e,
    }
}

fn unit_of(s: &[char]) -> (r: Option<TimeUnit>)
    ensures
        r == unit_named(s@),
{
    if spells(s, "year") {
        Some(TimeUnit::Year)
    } else if spells(s, "quarter") {
        Some(TimeUnit::Quarter)
    } else if spells(s, "month") {
        Some(TimeUnit::Month)
    } else if spells(s, "week") {
        Some(TimeUnit::Week)
    } else if spells(s, "day") {
        Some(TimeUnit::Day)
    } else if spells(s, "hour") {
        Some(TimeUnit::Hour)
    } else if spells(s, "minute") {
        Some(TimeUnit::Minute)
    } else if spells(s, "second") {
        Some(TimeUnit::Second)
    } else {
        None
    }
}

/// Cut epoch seconds to the start of a unit; `None` for an unknown unit, and when
/// the start of the unit lies before the first second of `i64`.
pub fn date_trunc(unit: &str, epoch: i64) -> (r: Option<i64>)
    ensures
        match unit_named(lower_text(unit@)) {
            Some(u) => if unit_start(u, epoch as int) >= i64::MIN {
                r == Some(unit_start(u, epoch as int) as i64)
            } else {
                r is None
            },
            None => r is None,
        },
{
    let name = lower_chars(unit);
    let u = match unit_of(&name) {
        Some(u) => u,
        None => {
            return None;
        },
    };
    let p = parts(epoch);
    let e: i128 = epoch as i128;
    let days: i128 = floor_div(e, 86400);
    proof {
        lemma_unit_start(u, epoch as int);
    }
    let start: i128 = match u {
        TimeUnit::Year => count_days(p.0, 1, 1) * 86400,
        TimeUnit::Quarter => count_days(p.0, ((p.1 - 1) / 3) * 3 + 1, 1) * 86400,
        TimeUnit::Month => count_days(p.0, p.1, 1) * 86400,
        TimeUnit::Week => (days - floor_rem(days + 3, 7)) * 86400,
        TimeUnit::Day => e - floor_rem(e, 86400),
        TimeUnit::Hour => e - floor_rem(e, 3600),
        TimeUnit::Minute => e - floor_rem(e, 60),
        TimeUnit::Second => e,
    };
    if start >= i64::MIN as i128 {
        Some(start as i64)
    } else {
        None
    }
}

proof fn lemma_unit_start(u: TimeUnit, e: int)
    ensures
        unit_start(u, e) <= e,
{
    let p = clock(e);
    law_civil_inverse(0, 0, 0, e / 86400);
    lemma_fundamental_div_mod(e, 86400);
    lemma_fundamental_div_mod(e, 3600);
    lemma_fundamental_div_mod(e, 60);
    match u {
        TimeUnit::Quarter => {
            let q = ((p.1 - 1) / 3) * 3 + 1;
            if q < p.1 {
                lemma_dates_ordered(p.0, q, 1, p.0, p.1, p.2);
            }
        },
        TimeUnit::Year => {
            if p.1 > 1 {
                lemma_dates_ordered(p.0, 1, 1, p.0, p.1, p.2);
            }
        },
        _ => {},
    }
}

/// Cutting to a unit never moves a time forward, and cutting twice is cutting
/// once.
pub proof fn law_trunc(u: TimeUnit, e: int)
    ensures
        unit_start(u, e) <= e,
        unit_start(u, unit_start(u, e)) == unit_start(u, e),
{
    lemma_unit_start(u, e);
    let p = clock(e);
    law_civil_inverse(0, 0, 0, e / 86400);
    let s = unit_start(u, e);
    match u {
        TimeUnit::Year => {
            lemma_midnight(day_number(p.0, 1, 1));
            lemma_civil(p.0, 1, 1);
        },
        TimeUnit::Quarter => {
            let q = ((p.1 - 1) / 3) * 3 + 1;
            lemma_midnight(day_number(p.0, q, 1));
            lemma_civil(p.0, q, 1);
        },
        TimeUnit::Month => {
            lemma_midnight(day_number(p.0, p.1, 1));
            lemma_civil(p.0, p.1, 1);
        },
        TimeUnit::Week => {
            let d = e / 86400;
            let m = d - (d + 3) % 7;
            lemma_midnight(m);
            lemma_fundamental_div_mod(d + 3, 7);
            lemma_fundamental_div_mod_converse(m + 3, 7, (d + 3) / 7, 0);
        },
        TimeUnit::Day => {
            lemma_fundamental_div_mod(e, 86400);
            lemma_fundamental_div_mod_converse(s, 86400, e / 86400, 0);
        },
        TimeUnit::Hour => {
            lemma_fundamental_div_mod(e, 3600);
            lemma_fundamental_div_mod_converse(s, 3600, e / 3600, 0);
        },
        TimeUnit::Minute => {
            lemma_fundamental_div_mod(e, 60);
            lemma_fundamental_div_mod_converse(s, 60, e / 60, 0);
        },
        TimeUnit::Second => {},
    }
}

proof fn lemma_midnight(d: int)
    ensures
        (d * 86400) / 86400 == d,
        (d * 86400) % 86400 == 0,
{
    lemma_fundamental_div_mod_converse(d * 86400, 86400, d, 0);
}

} // verus!
