//! Dates of the proleptic Gregorian calendar, counted in days, and timestamps made of them.

use crate::number::{
    all_digits, digit, is_digit, only_digits_are_read, padded, parse_i64, show_padded, signed,
    unsigned, value_of,
};
use crate::split::{
    cut, fields, lemma_fields_first, lemma_index_is, lemma_index_of, split, split_once,
};
use crate::text::{chars_of, lemma_trail_is, only, strip_back, texts, trim_end_char};
use vstd::arithmetic::div_mod::{lemma_mod_multiples_vanish, lemma_small_mod};
use vstd::prelude::*;

verus! {

/// Days from 1970-01-01 to day `d` of month `m` of year `y`. A year begins in March here, so
/// that the leap day is its last; `m` counts from January.
pub open spec fn civil_days(y: int, m: int, d: int) -> int {
    let y1 = if m <= 2 {
        y - 1
    } else {
        y
    };
    let era = y1 / 400;
    let yoe = y1 - era * 400;
    let mp = (m + 9) % 12;
    let doy = (153 * mp + 2) / 5 + d - 1;
    let doe = yoe * 365 + yoe / 4 - yoe / 100 + doy;
    era * 146097 + doe - 719468
}

/// Whether a year has a leap day.
pub open spec fn leap(y: int) -> bool {
    y % 4 == 0 && (y % 100 != 0 || y % 400 == 0)
}

/// Days in a month.
pub open spec fn month_len(y: int, m: int) -> int {
    if m == 2 {
        if leap(y) {
            29
        } else {
            28
        }
    } else if m == 4 || m == 6 || m == 9 || m == 11 {
        30
    } else {
        31
    }
}

/// Whether there is such a day.
pub open spec fn is_date(y: int, m: int, d: int) -> bool {
    1 <= m <= 12 && 1 <= d <= month_len(y, m)
}

/// The epoch is day zero.
pub proof fn epoch_is_day_zero()
    ensures
        civil_days(1970, 1, 1) == 0,
{
}

/// The day after any date has the next number: within a month, across months and across years.
pub proof fn next_day_counts_one(y: int, m: int, d: int)
    requires
        is_date(y, m, d),
    ensures
        d < month_len(y, m) ==> civil_days(y, m, d + 1) == civil_days(y, m, d) + 1,
        d == month_len(y, m) && m < 12 ==> civil_days(y, m + 1, 1) == civil_days(y, m, d) + 1,
        d == month_len(y, m) && m == 12 ==> civil_days(y + 1, 1, 1) == civil_days(y, m, d) + 1,
{
    if d == month_len(y, m) && m == 2 {
        lemma_leap_steps(y);
    }
}

/// How the count of leap years moves from the year before `y` to `y`.
proof fn lemma_leap_steps(y: int)
    ensures
        ({
            let a = y - 1;
            let e0 = a / 400;
            let r0 = a - e0 * 400;
            let e1 = y / 400;
            let r1 = y - e1 * 400;
            e1 * 146097 + r1 * 365 + r1 / 4 - r1 / 100 == e0 * 146097 + r0 * 365 + r0 / 4 - r0 / 100
                + 365 + if leap(y) {
                1int
            } else {
                0int
            }
        }),
{
    let e1 = y / 400;
    let r1 = y % 400;
    assert(y == 400 * e1 + r1);
    lemma_year_mod(e1, r1);
    if r1 == 0 {
        assert((y - 1) / 400 == e1 - 1);
    } else {
        assert((y - 1) / 400 == e1);
        lemma_quarter_steps(r1);
    }
}

proof fn lemma_year_mod(e: int, r: int)
    requires
        0 <= r < 400,
    ensures
        (400 * e + r) % 4 == r % 4,
        (400 * e + r) % 100 == r % 100,
        (400 * e + r) % 400 == r,
{
    lemma_mod_multiples_vanish(100 * e, r, 4);
    lemma_mod_multiples_vanish(4 * e, r, 100);
    lemma_mod_multiples_vanish(e, r, 400);
    lemma_small_mod(r as nat, 400);
}

proof fn lemma_quarter_steps(r: int)
    requires
        1 <= r < 400,
    ensures
        r / 4 - (r - 1) / 4 == if r % 4 == 0 {
            1int
        } else {
            0int
        },
        r / 100 - (r - 1) / 100 == if r % 100 == 0 {
            1int
        } else {
            0int
        },
{
}

/// The date of a day number, by the same March-based count.
pub open spec fn civil_date(z: int) -> (int, int, int) {
    let z1 = z + 719468;
    let era = z1 / 146097;
    let doe = z1 - era * 146097;
    let yoe = (doe - doe / 1460 + doe / 36524 - doe / 146096) / 365;
    let y = yoe + era * 400;
    let doy = doe - (365 * yoe + yoe / 4 - yoe / 100);
    let mp = (5 * doy + 2) / 153;
    let d = doy - (153 * mp + 2) / 5 + 1;
    let m = if mp < 10 {
        mp + 3
    } else {
        mp - 9
    };
    (
        if m <= 2 {
            y + 1
        } else {
            y
        },
        m,
        d,
    )
}

/// Where in its 400 years a day falls, and which day of its year it is, are found again.
proof fn lemma_year_found(yoe: int, doy: int)
    requires
        0 <= yoe < 400,
        0 <= doy <= 365,
        doy == 365 ==> leap(yoe + 1),
    ensures
        ({
            let doe = yoe * 365 + yoe / 4 - yoe / 100 + doy;
            &&& 0 <= doe < 146097
            &&& (doe - doe / 1460 + doe / 36524 - doe / 146096) / 365 == yoe
        }),
{
    let c = yoe / 100;
    let x = yoe % 100;
    let q = x / 4;
    let r = x % 4;
    assert(yoe == 100 * c + 4 * q + r);
    assert(yoe / 4 == 25 * c + q);
    let doe = yoe * 365 + yoe / 4 - yoe / 100 + doy;
    assert(doe == 36524 * c + 1461 * q + 365 * r + doy);
    assert(0 <= c <= 3 && 0 <= q <= 24 && 0 <= r <= 3);
    if doy == 365 {
        assert(r == 3);
        assert(q < 24 || c == 3);
    }
}

/// The month and the day in it are found again from the day of a March-based year.
proof fn lemma_month_found(mp: int, d: int)
    requires
        0 <= mp <= 11,
        1 <= d <= 31,
        mp == 1 || mp == 3 || mp == 6 || mp == 8 ==> d <= 30,
        mp == 11 ==> d <= 29,
    ensures
        ({
            let doy = (153 * mp + 2) / 5 + d - 1;
            &&& 0 <= doy <= 365
            &&& doy == 365 ==> mp == 11 && d == 29
            &&& (5 * doy + 2) / 153 == mp
        }),
{
}

/// The date of a date's day number is that date.
pub proof fn date_of_its_number(y: int, m: int, d: int)
    requires
        is_date(y, m, d),
    ensures
        civil_date(civil_days(y, m, d)) == (y, m, d),
{
    let y1 = if m <= 2 {
        y - 1
    } else {
        y
    };
    let era = y1 / 400;
    let yoe = y1 - era * 400;
    let mp = (m + 9) % 12;
    let doy = (153 * mp + 2) / 5 + d - 1;
    let doe = yoe * 365 + yoe / 4 - yoe / 100 + doy;
    assert(yoe == y1 % 400);
    lemma_month_found(mp, d);
    if doy == 365 {
        assert(leap(y) && y == 400 * era + yoe + 1);
        if yoe + 1 == 400 {
        } else {
            lemma_year_mod(era, yoe + 1);
        }
        assert(leap(yoe + 1));
    }
    lemma_year_found(yoe, doy);
    let z1 = civil_days(y, m, d) + 719468;
    assert(z1 == era * 146097 + doe);
    assert(z1 / 146097 == era);
}

/// Every day of 400 years is a day of one of their years.
proof fn lemma_year_split(doe: int) -> (r: (int, int))
    requires
        0 <= doe < 146097,
    ensures
        0 <= r.0 < 400,
        0 <= r.1 <= 365,
        r.1 == 365 ==> leap(r.0 + 1),
        doe == r.0 * 365 + r.0 / 4 - r.0 / 100 + r.1,
{
    let c = if doe == 146096 {
        3
    } else {
        doe / 36524
    };
    let x = doe - 36524 * c;
    assert(0 <= c <= 3 && 0 <= x <= 36524 && (x == 36524 ==> c == 3));
    let q = x / 1461;
    let x2 = x - 1461 * q;
    assert(0 <= q <= 24 && 0 <= x2 <= 1460);
    let r = if x2 == 1460 {
        3
    } else {
        x2 / 365
    };
    let doy = x2 - 365 * r;
    let yoe = 100 * c + 4 * q + r;
    assert(0 <= r <= 3);
    assert(yoe / 4 == 25 * c + q);
    assert(yoe / 100 == c);
    if doy == 365 {
        assert(yoe + 1 == 100 * c + 4 * q + 4);
        assert(q < 24 || c == 3);
        if q == 24 {
            assert(yoe + 1 == 400);
        } else {
            assert((yoe + 1) % 4 == 0);
            assert((yoe + 1) % 100 == 4 * q + 4);
        }
    }
    (yoe, doy)
}

/// The number of a number's date is that number, and the date exists.
pub proof fn number_of_its_date(z: int)
    ensures
        ({
            let (y, m, d) = civil_date(z);
            is_date(y, m, d) && civil_days(y, m, d) == z
        }),
{
    let z1 = z + 719468;
    let era = z1 / 146097;
    let doe = z1 - era * 146097;
    let (yoe, doy) = lemma_year_split(doe);
    lemma_year_found(yoe, doy);
    let mp = (5 * doy + 2) / 153;
    let d = doy - (153 * mp + 2) / 5 + 1;
    let y1 = yoe + era * 400;
    assert(y1 / 400 == era);
    assert(0 <= mp <= 11);
    let m = if mp < 10 {
        mp + 3
    } else {
        mp - 9
    };
    let y = if m <= 2 {
        y1 + 1
    } else {
        y1
    };
    assert(civil_date(z) == (y, m, d));
    assert((m + 9) % 12 == mp);
    assert(1 <= d <= 31);
    if m == 2 {
        assert(d <= 29);
        if d == 29 {
            assert(doy == 365);
            assert(y == 400 * era + (yoe + 1));
            if yoe + 1 == 400 {
                assert(y == 400 * (era + 1));
                lemma_year_mod(era + 1, 0);
            } else {
                lemma_year_mod(era, yoe + 1);
            }
            assert(leap(y));
        }
    }
}

/// `a / b` rounded towards negative infinity.
fn floor_div(a: i64, b: i64) -> (q: i64)
    requires
        b > 0,
    ensures
        q == a as int / b as int,
        i64::MIN <= q <= i64::MAX,
{
    if a >= 0 {
        a / b
    } else {
        let n: i64 = -(a + 1);
        let q: i64 = -(n / b) - 1;
        proof {
            let k = n as int / b as int;
            assert(b as int * k <= n < b as int * k + b) by {
                vstd::arithmetic::div_mod::lemma_fundamental_div_mod(n as int, b as int);
            }
            assert(b as int * (k + 1) == b as int * k + b) by (nonlinear_arith);
            assert((-k - 1) * b as int == -(b as int * (k + 1))) by (nonlinear_arith);
            vstd::arithmetic::div_mod::lemma_fundamental_div_mod_converse(
                a as int,
                b as int,
                -k - 1,
                b as int * (k + 1) + a,
            );
        }
        q
    }
}

/// Days from 1970-01-01 to a date.
pub fn days_from_civil(y: i64, m: i64, d: i64) -> (r: i128)
    requires
        m >= -9,
    ensures
        r == civil_days(y as int, m as int, d as int),
{
    let y1: i128 = if m <= 2 {
        y as i128 - 1
    } else {
        y as i128
    };
    let era: i128 = if y1 >= 0 {
        y1 / 400
    } else {
        -((-(y1 + 1)) / 400) - 1
    };
    assert(era == y1 as int / 400);
    let yoe: i128 = y1 - era * 400;
    let mp: i128 = (m as i128 + 9) % 12;
    let doy: i128 = (153 * mp + 2) / 5 + d as i128 - 1;
    let doe: i128 = yoe * 365 + yoe / 4 - yoe / 100 + doy;
    era * 146097 + doe - 719468
}

/// The date of a day number.
pub fn civil_from_days(z: i64) -> (r: (i64, i64, i64))
    requires
        z <= i64::MAX - 719468,
    ensures
        (r.0 as int, r.1 as int, r.2 as int) == civil_date(z as int),
        is_date(r.0 as int, r.1 as int, r.2 as int),
{
    proof {
        number_of_its_date(z as int);
    }
    let z1: i64 = z + 719468;
    let era: i64 = floor_div(z1, 146097);
    let doe: i64 = (z1 as i128 - era as i128 * 146097) as i64;
    proof {
        let (a, b) = lemma_year_split(doe as int);
        lemma_year_found(a, b);
    }
    let yoe: i64 = (doe - doe / 1460 + doe / 36524 - doe / 146096) / 365;
    let y: i64 = yoe + era * 400;
    let doy: i64 = doe - (365 * yoe + yoe / 4 - yoe / 100);
    let mp: i64 = (5 * doy + 2) / 153;
    let d: i64 = doy - (153 * mp + 2) / 5 + 1;
    let m: i64 = if mp < 10 {
        mp + 3
    } else {
        mp - 9
    };
    (
        if m <= 2 {
            y + 1
        } else {
            y
        },
        m,
        d,
    )
}

/// A year with at least four characters, the minus sign counted.
pub open spec fn year_text(y: int) -> Seq<char> {
    if y < 0 {
        seq!['-'] + padded((-y) as nat, 3)
    } else {
        padded(y as nat, 4)
    }
}

/// A timestamp in milliseconds as `YYYY-MM-DD HH:MM`, in UTC.
pub open spec fn stamp_text(ms: int) -> Seq<char> {
    let secs = ms / 1000;
    let rem = secs % 86400;
    let (y, m, d) = civil_date(secs / 86400);
    year_text(y) + seq!['-'] + padded(m as nat, 2) + seq!['-'] + padded(d as nat, 2) + seq![' ']
        + padded((rem / 3600) as nat, 2) + seq![':'] + padded(((rem % 3600) / 60) as nat, 2)
}

/// A timestamp in milliseconds as `YYYY-MM-DD HH:MM`, in UTC.
pub fn fmt_ts(ms: i64) -> (r: String)
    ensures
        r@ == stamp_text(ms as int),
{
    let secs: i64 = floor_div(ms, 1000);
    let days: i64 = floor_div(secs, 86400);
    let rem: i64 = (secs as i128 - days as i128 * 86400) as i64;
    assert(rem == secs as int % 86400);
    let (y, m, d): (i64, i64, i64) = civil_from_days(days);
    let mut out: String = String::new();
    if y < 0 {
        out.push('-');
        out.append(show_padded((-(y as i128)) as u64, 3).as_str());
    } else {
        out.append(show_padded(y as u64, 4).as_str());
    }
    assert(out@ =~= year_text(y as int));
    out.push('-');
    out.append(show_padded(m as u64, 2).as_str());
    out.push('-');
    out.append(show_padded(d as u64, 2).as_str());
    out.push(' ');
    out.append(show_padded((rem / 3600) as u64, 2).as_str());
    out.push(':');
    out.append(show_padded(((rem % 3600) / 60) as u64, 2).as_str());
    assert(out@ =~= stamp_text(ms as int));
    out
}

// ---------------------------------------------------------------- reading timestamps

/// The decimal digits of `s`, in order.
pub open spec fn digits_only(s: Seq<char>) -> Seq<char>
    decreases s.len(),
{
    if s.len() == 0 {
        seq![]
    } else if is_digit(s.last()) {
        digits_only(s.drop_last()).push(s.last())
    } else {
        digits_only(s.drop_last())
    }
}

/// The digit at `i`; zero past the end.
pub open spec fn digit_at(s: Seq<char>, i: int) -> int {
    if i < s.len() {
        digit(s[i]) as int
    } else {
        0
    }
}

/// Milliseconds of a fraction: its first three digits, filled up with zeros.
pub open spec fn millis(frac: Seq<char>) -> int {
    let f = digits_only(frac);
    digit_at(f, 0) * 100 + digit_at(f, 1) * 10 + digit_at(f, 2)
}

/// The field `i`, read as an integer.
pub open spec fn int_field(f: Seq<Seq<char>>, i: int) -> Option<int> {
    if i < f.len() {
        signed(f[i])
    } else {
        None
    }
}

/// Milliseconds since the epoch of `YYYY-MM-DDTHH:MM[:SS[.fff]]Z`.
pub open spec fn iso_ms(s: Seq<char>) -> Option<int> {
    match cut(s, 'T') {
        None => None,
        Some((date, rest)) => {
            let time = strip_back(rest, only('Z'));
            let (hms, frac) = match cut(time, '.') {
                Some(p) => p,
                None => (time, seq![]),
            };
            let dp = fields(date, '-');
            let tp = fields(hms, ':');
            let se = if tp.len() > 2 {
                int_field(tp, 2)
            } else {
                Some(0int)
            };
            match (
                int_field(dp, 0),
                int_field(dp, 1),
                int_field(dp, 2),
                int_field(tp, 0),
                int_field(tp, 1),
                se,
            ) {
                (Some(y), Some(mo), Some(d), Some(h), Some(mi), Some(se)) => Some(
                    (((civil_days(y, mo, d) * 24 + h) * 60 + mi) * 60 + se) * 1000 + millis(frac),
                ),
                _ => None,
            }
        },
    }
}

/// Milliseconds since the epoch where they fit in 64 bits.
pub open spec fn iso_stamp(s: Seq<char>) -> Option<i64> {
    match iso_ms(s) {
        Some(t) => if i64::MIN <= t <= i64::MAX {
            Some(t as i64)
        } else {
            None
        },
        None => None,
    }
}

/// A field of a date is cut out between minus signs, so it holds none and is not negative.
proof fn lemma_field_has_no(s: Seq<char>, c: char, i: int)
    requires
        0 <= i < fields(s, c).len(),
    ensures
        !fields(s, c)[i].contains(c),
    decreases s.len(),
{
    let k = crate::split::index_of(s, c);
    lemma_index_of(s, c);
    if k < s.len() {
        if i > 0 {
            lemma_field_has_no(s.skip(k + 1), c, i - 1);
            assert(fields(s, c)[i] == fields(s.skip(k + 1), c)[i - 1]);
        } else {
            assert(fields(s, c)[0] == s.take(k));
        }
    }
}

/// The field `i`, read as an integer.
fn read_field(v: &Vec<String>, i: usize) -> (r: Option<i64>)
    ensures
        match r {
            Some(n) => int_field(texts(v@), i as int) == Some(n as int),
            None => int_field(texts(v@), i as int) is None,
        },
{
    if i < v.len() {
        parse_i64(v[i].as_str())
    } else {
        None
    }
}

/// Milliseconds of a fraction of a second.
fn read_millis(frac: &str) -> (r: i64)
    ensures
        r == millis(frac@),
        0 <= r <= 999,
{
    let cs: Vec<char> = chars_of(frac);
    let mut f: Vec<char> = Vec::new();
    let mut i: usize = 0;
    while i < cs.len()
        invariant
            i <= cs@.len(),
            cs@ == frac@,
            f@ == digits_only(frac@.take(i as int)),
            forall|k: int| 0 <= k < f@.len() ==> is_digit(#[trigger] f@[k]),
        decreases cs@.len() - i,
    {
        if '0' <= cs[i] && cs[i] <= '9' {
            f.push(cs[i]);
        }
        i += 1;
        assert(frac@.take(i as int).drop_last() =~= frac@.take(i - 1));
    }
    assert(frac@.take(frac@.len() as int) =~= frac@);
    let a: i64 = if f.len() > 0 {
        assert(is_digit(f@[0]));
        (f[0] as u32 - 48) as i64
    } else {
        0
    };
    let b: i64 = if f.len() > 1 {
        assert(is_digit(f@[1]));
        (f[1] as u32 - 48) as i64
    } else {
        0
    };
    let c: i64 = if f.len() > 2 {
        assert(is_digit(f@[2]));
        (f[2] as u32 - 48) as i64
    } else {
        0
    };
    a * 100 + b * 10 + c
}

/// Milliseconds since the epoch of a timestamp `YYYY-MM-DDTHH:MM[:SS[.fff]]Z`, read as UTC;
/// nothing where it is not one, or where the count does not fit.
pub fn iso8601_to_unix_ms(s: &str) -> (r: Option<i64>)
    ensures
        r == iso_stamp(s@),
{
    let (date, rest): (String, String) = match split_once(s, 'T') {
        Some(p) => p,
        None => {
            return None;
        },
    };
    let time: String = trim_end_char(rest.as_str(), 'Z');
    let (hms, frac): (String, String) = match split_once(time.as_str(), '.') {
        Some(p) => p,
        None => (time, String::new()),
    };
    let dp: Vec<String> = split(date.as_str(), '-');
    let tp: Vec<String> = split(hms.as_str(), ':');
    let se: Option<i64> = if tp.len() > 2 {
        read_field(&tp, 2)
    } else {
        Some(0)
    };
    match (
        read_field(&dp, 0),
        read_field(&dp, 1),
        read_field(&dp, 2),
        read_field(&tp, 0),
        read_field(&tp, 1),
        se,
    ) {
        (Some(y), Some(mo), Some(d), Some(h), Some(mi), Some(se)) => {
            proof {
                lemma_field_has_no(date@, '-', 1);
                let f = texts(dp@)[1];
                if mo < 0 {
                    assert(f[0] == '-');
                    assert(f.contains('-'));
                }
            }
            let days: i128 = days_from_civil(y, mo, d);
            let t: i128 = (((days * 24 + h as i128) * 60 + mi as i128) * 60 + se as i128) * 1000
                + read_millis(frac.as_str()) as i128;
            if (i64::MIN as i128) <= t && t <= (i64::MAX as i128) {
                Some(t as i64)
            } else {
                None
            }
        },
        _ => None,
    }
}

// ---------------------------------------------------------------- how a time is told

/// A time is shown by its date and its hour and minute, each with all its digits.
pub proof fn time_is_shown_by_its_date(y: int, m: int, d: int, h: int, mi: int, se: int, ms: int)
    requires
        is_date(y, m, d),
        0 <= h < 24,
        0 <= mi < 60,
        0 <= se < 60,
        0 <= ms < 1000,
    ensures
        stamp_text((((civil_days(y, m, d) * 24 + h) * 60 + mi) * 60 + se) * 1000 + ms) == year_text(y) + seq![
            '-',
        ] + padded(m as nat, 2) + seq!['-'] + padded(d as nat, 2) + seq![' '] + padded(h as nat, 2) + seq![
            ':',
        ] + padded(mi as nat, 2),
{
    let days = civil_days(y, m, d);
    date_of_its_number(y, m, d);
    let secs = ((days * 24 + h) * 60 + mi) * 60 + se;
    assert((secs * 1000 + ms) / 1000 == secs);
    let rem = h * 3600 + mi * 60 + se;
    assert(secs == days * 86400 + rem);
    assert(0 <= rem < 86400);
    assert(secs / 86400 == days);
    assert(secs % 86400 == rem);
    assert(rem / 3600 == h);
    assert((rem % 3600) / 60 == mi);
}

/// A time that is written with its date, hour, minute, second and thousandths is that time; without
/// thousandths it is a whole second.
pub proof fn written_time_is_read(
    year: Seq<char>,
    month: Seq<char>,
    day: Seq<char>,
    hour: Seq<char>,
    minute: Seq<char>,
    second: Seq<char>,
    frac: Seq<char>,
)
    requires
        all_digits(year) && value_of(year) <= 0x7fff_ffff_ffff_ffff,
        all_digits(month) && value_of(month) <= 0x7fff_ffff_ffff_ffff,
        all_digits(day) && value_of(day) <= 0x7fff_ffff_ffff_ffff,
        all_digits(hour) && value_of(hour) <= 0x7fff_ffff_ffff_ffff,
        all_digits(minute) && value_of(minute) <= 0x7fff_ffff_ffff_ffff,
        all_digits(second) && value_of(second) <= 0x7fff_ffff_ffff_ffff,
        all_digits(frac) && frac.len() == 3,
    ensures
        ({
            let date = year.push('-') + (month.push('-') + day);
            let time = hour.push(':') + (minute.push(':') + second);
            let at = (((civil_days(
                value_of(year) as int,
                value_of(month) as int,
                value_of(day) as int,
            ) * 24 + value_of(hour)) * 60 + value_of(minute)) * 60 + value_of(second)) * 1000;
            &&& iso_ms(date.push('T') + (time.push('.') + frac).push('Z')) == Some(at + value_of(frac))
            &&& iso_ms(date.push('T') + time.push('Z')) == Some(at)
        }),
{
    let date = year.push('-') + (month.push('-') + day);
    let time = hour.push(':') + (minute.push(':') + second);
    lemma_digits_lack(year);
    lemma_digits_lack(month);
    lemma_digits_lack(day);
    lemma_digits_lack(hour);
    lemma_digits_lack(minute);
    lemma_digits_lack(second);
    lemma_digits_lack(frac);
    lemma_fields_first(year, month.push('-') + day, '-');
    lemma_fields_first(month, day, '-');
    lemma_fields_first(day, day, '-');
    assert(fields(date, '-') =~= seq![year, month, day]);
    lemma_fields_first(hour, minute.push(':') + second, ':');
    lemma_fields_first(minute, second, ':');
    lemma_fields_first(second, second, ':');
    assert(fields(time, ':') =~= seq![hour, minute, second]);
    only_digits_are_read(year, 0x7fff_ffff_ffff_ffff, 0);
    only_digits_are_read(month, 0x7fff_ffff_ffff_ffff, 0);
    only_digits_are_read(day, 0x7fff_ffff_ffff_ffff, 0);
    only_digits_are_read(hour, 0x7fff_ffff_ffff_ffff, 0);
    only_digits_are_read(minute, 0x7fff_ffff_ffff_ffff, 0);
    only_digits_are_read(second, 0x7fff_ffff_ffff_ffff, 0);
    lemma_cut_behind(date, (time.push('.') + frac).push('Z'), 'T');
    lemma_cut_behind(date, time.push('Z'), 'T');
    lemma_no_zulu(time.push('.') + frac);
    lemma_no_zulu(time);
    lemma_cut_behind(time, frac, '.');
    lemma_no_cut(time, '.');
    lemma_three_digits(frac);
    assert(digits_only(Seq::<char>::empty()).len() == 0);
}

proof fn lemma_digits_lack(s: Seq<char>)
    requires
        all_digits(s),
    ensures
        !s.contains('-'),
        !s.contains(':'),
        !s.contains('T'),
        !s.contains('.'),
        !s.contains('Z'),
        s[0] != '-',
{
    assert forall|c: char| #[trigger] s.contains(c) implies is_digit(c) by {
        let k = choose|k: int| 0 <= k < s.len() && s[k] == c;
        assert(is_digit(s[k]));
    }
    assert(is_digit(s[0]));
}

/// Whether each character is a digit or one of those that part dates and hours.
spec fn stamp_like(s: Seq<char>, dot: bool) -> bool {
    forall|k: int|
        0 <= k < s.len() ==> is_digit(#[trigger] s[k]) || s[k] == '-' || s[k] == ':' || (dot && s[k] == '.')
}

proof fn lemma_cut_behind(a: Seq<char>, b: Seq<char>, c: char)
    requires
        stamp_like(a, false),
        c == 'T' || c == '.',
    ensures
        cut(a.push(c) + b, c) == Some((a, b)),
{
    let s = a.push(c) + b;
    assert forall|k: int| 0 <= k < a.len() implies #[trigger] s[k] != c by {
        assert(s[k] == a[k]);
    }
    lemma_index_is(s, c, a.len() as int);
    assert(s.take(a.len() as int) =~= a);
    assert(s.skip(a.len() as int + 1) =~= b);
}

proof fn lemma_no_cut(a: Seq<char>, c: char)
    requires
        stamp_like(a, false),
        c == '.',
    ensures
        cut(a, c) is None,
{
    lemma_index_is(a, c, a.len() as int);
}

proof fn lemma_no_zulu(a: Seq<char>)
    requires
        stamp_like(a, true),
        a.len() > 0,
    ensures
        strip_back(a.push('Z'), only('Z')) == a,
{
    let s = a.push('Z');
    assert(s[s.len() - 2] == a[a.len() - 1]);
    lemma_trail_is(s, only('Z'), 1);
    assert(strip_back(s, only('Z')) =~= a);
}

proof fn lemma_three_digits(f: Seq<char>)
    requires
        all_digits(f),
        f.len() == 3,
    ensures
        millis(f) == value_of(f),
{
    reveal_with_fuel(digits_only, 4);
    reveal_with_fuel(value_of, 4);
    let g = f.drop_last();
    let h = g.drop_last();
    assert(h.drop_last() =~= Seq::<char>::empty());
    assert(f[0] == h[0] && f[1] == g[1]);
    assert(digits_only(h) =~= h);
    assert(digits_only(g) =~= g);
    assert(digits_only(f) =~= f);
}

} // verus!
