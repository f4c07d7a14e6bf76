// MIT License
//
// Copyright (c) 2018 James Bates
//
// Permission is hereby granted, free of charge, to any person obtaining a copy
// of this software and associated documentation files (the "Software"), to deal
// in the Software without restriction, including without limitation the rights
// to use, copy, modify, merge, publish, distribute, sublicense, and/or sell
// copies of the Software, and to permit persons to whom the Software is
// furnished to do so, subject to the following conditions:
//
// The above copyright notice and this permission notice shall be included in all
// copies or substantial portions of the Software.
//
// THE SOFTWARE IS PROVIDED "AS IS", WITHOUT WARRANTY OF ANY KIND, EXPRESS OR
// IMPLIED, INCLUDING BUT NOT LIMITED TO THE WARRANTIES OF MERCHANTABILITY,
// FITNESS FOR A PARTICULAR PURPOSE AND NONINFRINGEMENT. IN NO EVENT SHALL THE
// AUTHORS OR COPYRIGHT HOLDERS BE LIABLE FOR ANY CLAIM, DAMAGES OR OTHER
// LIABILITY, WHETHER IN AN ACTION OF CONTRACT, TORT OR OTHERWISE, ARISING FROM,
// OUT OF OR IN CONNECTION WITH THE SOFTWARE OR THE USE OR OTHER DEALINGS IN THE
// SOFTWARE.

//! The `date` header line, formatted from a count of seconds since the Unix epoch.

use crate::bytes;
use vstd::prelude::*;
use vstd::string::*;
use vstd::utf8::*;

verus! {

/// The length of a `date` header line with its line ending.
pub const DATE_LEN: usize = 37;

const SECS_PER_MIN: i64 = 60;

const SECS_PER_HOUR: i64 = 3600;

const SECS_PER_DAY: i64 = 86400;

/// The day number of 2000-03-01, the first day of a 400 year cycle of March-based years.
const LEAPOCH: i64 = 11017;

const DAYS_PER_400Y: i64 = 146097;

const DAYS_PER_100Y: i64 = 36524;

const DAYS_PER_4Y: i64 = 1461;

/// A date of the proleptic Gregorian calendar.
pub struct CivilDate {
    pub year: int,
    pub month: int,
    pub day: int,
}

pub open spec fn is_leap_year(year: int) -> bool {
    year % 4 == 0 && (year % 100 != 0 || year % 400 == 0)
}

pub open spec fn days_in_month(year: int, month: int) -> int {
    if month == 2 {
        if is_leap_year(year) {
            29
        } else {
            28
        }
    } else if month == 4 || month == 6 || month == 9 || month == 11 {
        30
    } else {
        31
    }
}

/// The days of the year before the first of `month`.
pub open spec fn days_before_month(year: int, month: int) -> int
    decreases month,
{
    if month <= 1 {
        0
    } else {
        days_before_month(year, month - 1) + days_in_month(year, month - 1)
    }
}

/// The leap years from year 1 through `year`, counted backwards below it.
pub open spec fn leap_years_through(year: int) -> int {
    year / 4 - year / 100 + year / 400
}

/// The days from 1970-01-01 to the first of January of `year`.
pub open spec fn days_before_year(year: int) -> int {
    365 * (year - 1970) + leap_years_through(year - 1) - leap_years_through(1969)
}

impl CivilDate {
    pub open spec fn valid(self) -> bool {
        &&& 1 <= self.month <= 12
        &&& 1 <= self.day <= days_in_month(self.year, self.month)
    }

    /// The days from 1970-01-01 to this date.
    pub open spec fn day_number(self) -> int {
        days_before_year(self.year) + days_before_month(self.year, self.month) + self.day - 1
    }

    /// The day after this one.
    pub open spec fn next(self) -> CivilDate {
        if self.day < days_in_month(self.year, self.month) {
            CivilDate { day: self.day + 1, ..self }
        } else if self.month < 12 {
            CivilDate { month: self.month + 1, day: 1, ..self }
        } else {
            CivilDate { year: self.year + 1, month: 1, day: 1 }
        }
    }
}

/// The date that is `days` days after 1970-01-01.
pub open spec fn civil_date(days: int) -> CivilDate {
    choose|c: CivilDate| c.valid() && #[trigger] c.day_number() == days
}

/// The day of the week, from 0 for Monday on; day 0 is a Thursday.
pub open spec fn weekday(days: int) -> int {
    (days + 3) % 7
}

pub open spec fn weekday_name(weekday: int) -> Seq<u8> {
    bytes::ascii("MonTueWedThuFriSatSun"@).subrange(3 * weekday, 3 * weekday + 3)
}

pub open spec fn month_name(month: int) -> Seq<u8> {
    bytes::ascii("JanFebMarAprMayJunJulAugSepOctNovDec"@).subrange(3 * (month - 1), 3 * month)
}

/// The digit `v`, or the character that many places after `0`.
pub open spec fn digit(v: int) -> u8 {
    (0x30 + v) as u8
}

pub open spec fn two_digits(v: int) -> Seq<u8> {
    seq![digit(v / 10), digit(v % 10)]
}

/// Four places; the first one passes `9` for a value of 10000 or more.
pub open spec fn four_digits(v: int) -> Seq<u8> {
    seq![digit(v / 1000), digit(v / 100 % 10), digit(v / 10 % 10), digit(v % 10)]
}

/// `date: Www, DD Mmm YYYY hh:mm:ss GMT` and CRLF, for the second `secs_of_day` of day number
/// `days`, whose date is `c`. The year is taken modulo 65536.
pub open spec fn date_line_of(c: CivilDate, days: int, secs_of_day: int) -> Seq<u8> {
    bytes::ascii("date: "@) + weekday_name(weekday(days)) + bytes::ascii(", "@) + two_digits(c.day)
        + bytes::ascii(" "@) + month_name(c.month) + bytes::ascii(" "@) + four_digits(c.year % 65536)
        + bytes::ascii(" "@) + two_digits(secs_of_day / 3600) + bytes::ascii(":"@)
        + two_digits(secs_of_day / 60 % 60) + bytes::ascii(":"@) + two_digits(secs_of_day % 60)
        + bytes::ascii(" GMT\r\n"@)
}

/// The `date` header line of the second `secs` after the Unix epoch.
pub open spec fn date_line(secs: int) -> Seq<u8> {
    date_line_of(civil_date(secs / 86400), secs / 86400, secs % 86400)
}

/// A year has 366 days if it is a leap year, else 365.
pub proof fn law_year_length(year: int)
    ensures
        days_before_year(year + 1) - days_before_year(year) == if is_leap_year(year) {
            366int
        } else {
            365int
        },
        days_before_month(year, 12) + days_in_month(year, 12) == days_before_year(year + 1) - days_before_year(year),
{
    lemma_leap_years_step(year);
    lemma_days_before_months(year);
}

proof fn lemma_leap_years_step(year: int)
    ensures
        leap_years_through(year) - leap_years_through(year - 1) == if is_leap_year(year) {
            1int
        } else {
            0int
        },
{
}

proof fn lemma_days_before_months(year: int)
    ensures
        ({
            let leap: int = if is_leap_year(year) {
                1
            } else {
                0
            };
            &&& days_before_month(year, 1) == 0
            &&& days_before_month(year, 2) == 31
            &&& days_before_month(year, 3) == 59 + leap
            &&& days_before_month(year, 4) == 90 + leap
            &&& days_before_month(year, 5) == 120 + leap
            &&& days_before_month(year, 6) == 151 + leap
            &&& days_before_month(year, 7) == 181 + leap
            &&& days_before_month(year, 8) == 212 + leap
            &&& days_before_month(year, 9) == 243 + leap
            &&& days_before_month(year, 10) == 273 + leap
            &&& days_before_month(year, 11) == 304 + leap
            &&& days_before_month(year, 12) == 334 + leap
        }),
{
    reveal_with_fuel(days_before_month, 13);
}

proof fn lemma_days_before_year_monotonic(a: int, b: int)
    requires
        a <= b,
    ensures
        days_before_year(a) <= days_before_year(b),
    decreases b - a,
{
    if a < b {
        lemma_days_before_year_monotonic(a, b - 1);
        law_year_length(b - 1);
    }
}

proof fn lemma_day_within_year(c: CivilDate)
    requires
        c.valid(),
    ensures
        days_before_year(c.year) <= c.day_number() < days_before_year(c.year + 1),
{
    lemma_days_before_months(c.year);
    law_year_length(c.year);
}

/// A day number has one date: two dates with the same day number are the same.
pub proof fn law_date_unique(a: CivilDate, b: CivilDate)
    requires
        a.valid(),
        b.valid(),
        a.day_number() == b.day_number(),
    ensures
        a == b,
{
    lemma_day_within_year(a);
    lemma_day_within_year(b);
    if a.year < b.year {
        lemma_days_before_year_monotonic(a.year + 1, b.year);
    } else if b.year < a.year {
        lemma_days_before_year_monotonic(b.year + 1, a.year);
    }
    lemma_days_before_months(a.year);
}

/// The day numbers of successive dates are successive.
pub proof fn law_next_date(c: CivilDate)
    requires
        c.valid(),
    ensures
        c.next().valid(),
        c.next().day_number() == c.day_number() + 1,
{
    lemma_days_before_months(c.year);
    lemma_days_before_months(c.year + 1);
    law_year_length(c.year);
}

/// Where a day count since 2000-03-01 falls: the March-based year that it is in and the day of
/// that year.
proof fn lemma_cycles(days: int, qc: int, c: int, q: int, y: int, rem: int)
    requires
        days == 146097 * qc + 36524 * c + 1461 * q + 365 * y + rem,
        0 <= c <= 3,
        0 <= q <= 24,
        0 <= y <= 3,
        0 <= rem <= 365,
        rem == 365 ==> y == 3 && (q == 24 ==> c == 3),
    ensures
        ({
            let year = 2000 + y + 4 * q + 100 * c + 400 * qc;
            &&& days + 11017 == days_before_year(year) + days_before_month(year, 3) + rem
            &&& rem == 365 ==> is_leap_year(year + 1)
        }),
{
    let year = 2000 + y + 4 * q + 100 * c + 400 * qc;
    lemma_days_before_months(year);
    lemma_leap_years_step(year);
    lemma_quotient(year, 4, 500 + q + 25 * c + 100 * qc, y);
    lemma_quotient(year, 100, 20 + c + 4 * qc, y + 4 * q);
    lemma_quotient(year, 400, 5 + qc, y + 4 * q + 100 * c);
    assert(leap_years_through(year) == 485 + q + 24 * c + 97 * qc);
    if rem == 365 {
        if q < 24 {
            lemma_quotient(year + 1, 4, 501 + q + 25 * c + 100 * qc, 0);
            lemma_quotient(year + 1, 100, 20 + c + 4 * qc, 4 * q + 4);
        } else {
            lemma_quotient(year + 1, 4, 600 + 100 * qc, 0);
            lemma_quotient(year + 1, 400, 6 + qc, 0);
        }
    }
}

proof fn lemma_quotient(n: int, d: int, q: int, r: int)
    requires
        n == q * d + r,
        0 <= r < d,
    ensures
        n / d == q,
        n % d == r,
{
    vstd::arithmetic::div_mod::lemma_fundamental_div_mod_converse(n, d, q, r);
}

/// The days of a March-based year before its month number `index`, March being number 0.
spec fn days_before_index(index: int) -> int {
    if index <= 0 {
        0
    } else if index == 1 {
        31
    } else if index == 2 {
        61
    } else if index == 3 {
        92
    } else if index == 4 {
        122
    } else if index == 5 {
        153
    } else if index == 6 {
        184
    } else if index == 7 {
        214
    } else if index == 8 {
        245
    } else if index == 9 {
        275
    } else if index == 10 {
        306
    } else if index == 11 {
        337
    } else {
        366
    }
}

/// Day `rd` of month number `index` of the March-based year `year` as a date.
spec fn march_based(year: int, index: int, rd: int) -> CivilDate {
    if index < 10 {
        CivilDate { year, month: index + 3, day: rd + 1 }
    } else {
        CivilDate { year: year + 1, month: index - 9, day: rd + 1 }
    }
}

proof fn lemma_march_based(year: int, index: int, rd: int)
    requires
        0 <= index < 12,
        0 <= rd < days_before_index(index + 1) - days_before_index(index),
        days_before_index(index) + rd == 365 ==> is_leap_year(year + 1),
    ensures
        march_based(year, index, rd).valid(),
        march_based(year, index, rd).day_number() == days_before_year(year) + days_before_month(year, 3)
            + days_before_index(index) + rd,
{
    lemma_days_before_months(year);
    lemma_days_before_months(year + 1);
    law_year_length(year);
}

/// Every day number has a date.
pub proof fn law_date_exists(days: int)
    ensures
        civil_date(days).valid(),
        civil_date(days).day_number() == days,
{
    let d = days - 11017;
    let qc = d / 146097;
    let r1 = d % 146097;
    let c = if r1 / 36524 == 4 {
        3
    } else {
        r1 / 36524
    };
    let r2 = r1 - 36524 * c;
    let q = r2 / 1461;
    let r3 = r2 - 1461 * q;
    let y = if r3 / 365 == 4 {
        3
    } else {
        r3 / 365
    };
    let rem = r3 - 365 * y;
    lemma_cycles(d, qc, c, q, y, rem);
    let index = choose|index: int|
        0 <= index < 12 && #[trigger] days_before_index(index) <= rem < days_before_index(index + 1);
    assert(exists|index: int|
        0 <= index < 12 && #[trigger] days_before_index(index) <= rem < days_before_index(index + 1)) by {
        if rem < 31 {
            assert(days_before_index(0) <= rem);
        } else if rem < 61 {
            assert(days_before_index(1) <= rem);
        } else if rem < 92 {
            assert(days_before_index(2) <= rem);
        } else if rem < 122 {
            assert(days_before_index(3) <= rem);
        } else if rem < 153 {
            assert(days_before_index(4) <= rem);
        } else if rem < 184 {
            assert(days_before_index(5) <= rem);
        } else if rem < 214 {
            assert(days_before_index(6) <= rem);
        } else if rem < 245 {
            assert(days_before_index(7) <= rem);
        } else if rem < 275 {
            assert(days_before_index(8) <= rem);
        } else if rem < 306 {
            assert(days_before_index(9) <= rem);
        } else if rem < 337 {
            assert(days_before_index(10) <= rem);
        } else {
            assert(days_before_index(11) <= rem);
        }
    }
    let year = 2000 + y + 4 * q + 100 * c + 400 * qc;
    lemma_march_based(year, index, rem - days_before_index(index));
    assert(march_based(year, index, rem - days_before_index(index)).day_number() == days);
}

/// `civil_date` gives back the date that a day number was taken of.
pub proof fn law_civil_date_inverse(c: CivilDate)
    requires
        c.valid(),
    ensures
        civil_date(c.day_number()) == c,
{
    law_date_exists(c.day_number());
    law_date_unique(civil_date(c.day_number()), c);
}

/// The Euclidean quotient and remainder.
fn divmod_i64(n: i64, d: i64) -> (r: (i64, i64))
    requires
        d != 0,
        !(n == i64::MIN && d == -1),
    ensures
        r.0 == n as int / d as int,
        r.1 == n as int % d as int,
{
    proof {
        lemma_quotient_in_range(n as int, d as int);
    }
    match (n.checked_div_euclid(d), n.checked_rem_euclid(d)) {
        (Some(q), Some(r)) => (q, r),
        _ => (0, 0),
    }
}

proof fn lemma_quotient_in_range(n: int, d: int)
    requires
        d != 0,
    ensures
        -n <= n / d <= n || n <= n / d <= -n,
        0 <= n % d,
        n % d < d || n % d < -d,
        d != -1 && n < -1 ==> n / d < -n,
{
    vstd::arithmetic::div_mod::lemma_fundamental_div_mod(n, d);
    let q = n / d;
    let r = n % d;
    assert(0 <= r && (r < d || r < -d)) by (nonlinear_arith)
        requires
            d != 0,
            r == n % d,
    ;
    if d > 0 {
        assert((n >= 0 ==> 0 <= q <= n) && (n < 0 ==> n <= q < 0)) by (nonlinear_arith)
            requires
                d > 0,
                n == d * q + r,
                0 <= r < d,
        ;
    } else {
        let e = -d;
        assert(d * q == -(e * q)) by (nonlinear_arith)
            requires
                e == -d,
        ;
        assert((n >= 0 ==> -n <= q <= 0) && (n < 0 ==> 0 < q <= -n) && (e > 1 && n < -1 ==> q < -n))
            by (nonlinear_arith)
            requires
                e > 0,
                n == -(e * q) + r,
                0 <= r < e,
        ;
    }
}

/// `buf` with `part` written over it from index `at` on.
pub open spec fn overwrite(buf: Seq<u8>, at: int, part: Seq<u8>) -> Seq<u8> {
    Seq::new(
        buf.len(),
        |i: int|
            if at <= i < at + part.len() {
                part[i - at]
            } else {
                buf[i]
            },
    )
}

/// Writes `v` at `at`, two places.
fn write_2d(buf: &mut [u8; DATE_LEN], at: usize, v: u8)
    requires
        at + 2 <= DATE_LEN,
    ensures
        final(buf)@ == overwrite(old(buf)@, at as int, two_digits(v as int)),
{
    buf[at] = 0x30 + v / 10;
    buf[at + 1] = 0x30 + v % 10;
    assert(buf@ =~= overwrite(old(buf)@, at as int, two_digits(v as int)));
}

/// Writes `v` at `at`, four places.
fn write_4d(buf: &mut [u8; DATE_LEN], at: usize, v: u16)
    requires
        at + 4 <= DATE_LEN,
    ensures
        final(buf)@ == overwrite(old(buf)@, at as int, four_digits(v as int)),
{
    buf[at] = 0x30 + (v / 1000) as u8;
    buf[at + 1] = 0x30 + (v / 100 % 10) as u8;
    buf[at + 2] = 0x30 + (v / 10 % 10) as u8;
    buf[at + 3] = 0x30 + (v % 10) as u8;
    assert(buf@ =~= overwrite(old(buf)@, at as int, four_digits(v as int)));
}

/// A `date` header line whose fields are yet to be written.
const HEADER_TEMPLATE: [u8; DATE_LEN] = [
    'd' as u8, 'a' as u8, 't' as u8, 'e' as u8, ':' as u8, ' ' as u8,
    'M' as u8, 'o' as u8, 'n' as u8, ',' as u8, ' ' as u8,
    '0' as u8, '0' as u8, ' ' as u8,
    'J' as u8, 'a' as u8, 'n' as u8, ' ' as u8,
    '0' as u8, '0' as u8, '0' as u8, '0' as u8, ' ' as u8,
    '0' as u8, '0' as u8, ':' as u8,
    '0' as u8, '0' as u8, ':' as u8,
    '0' as u8, '0' as u8,
    ' ' as u8, 'G' as u8, 'M' as u8, 'T' as u8, '\r' as u8, '\n' as u8,
];

const MONTHS: [i64; 12] = [31, 30, 31, 30, 31, 31, 30, 31, 30, 31, 31, 29];

/// Writes the three bytes of `name` at `at`.
fn write_name(buf: &mut [u8; DATE_LEN], at: usize, name: &[u8])
    requires
        at + 3 <= DATE_LEN,
        name@.len() == 3,
    ensures
        final(buf)@ == overwrite(old(buf)@, at as int, name@),
{
    buf[at] = name[0];
    buf[at + 1] = name[1];
    buf[at + 2] = name[2];
    assert(buf@ =~= overwrite(old(buf)@, at as int, name@));
}

/// The month number of a March-based year and the day of that month, from 0 on, in which day
/// `remdays` of the year falls.
fn month_of_day(remdays: i64) -> (r: (usize, i64))
    requires
        0 <= remdays <= 365,
    ensures
        r.0 < 12,
        0 <= r.1 < days_before_index(r.0 + 1) - days_before_index(r.0 as int),
        days_before_index(r.0 as int) + r.1 == remdays,
{
    let mut index: usize = 0;
    let mut rd: i64 = remdays;
    while index < 12
        invariant
            index <= 12,
            0 <= rd,
            remdays <= 365,
            days_before_index(index as int) + rd == remdays,
        decreases 12 - index,
    {
        let length: i64 = MONTHS[index];
        assert(length == days_before_index(index + 1) - days_before_index(index as int));
        if rd < length {
            return (index, rd);
        }
        rd = rd - length;
        index = index + 1;
    }
    (0, 0)
}

/// `buf` with the fields of a `date` header line written over it.
pub open spec fn with_fields(buf: Seq<u8>, weekday: int, c: CivilDate, hour: int, min: int, sec: int) -> Seq<u8> {
    let b1 = overwrite(buf, 6, weekday_name(weekday));
    let b2 = overwrite(b1, 11, two_digits(c.day));
    let b3 = overwrite(b2, 14, month_name(c.month));
    let b4 = overwrite(b3, 18, four_digits(c.year % 65536));
    let b5 = overwrite(b4, 23, two_digits(hour));
    let b6 = overwrite(b5, 26, two_digits(min));
    overwrite(b6, 29, two_digits(sec))
}

/// The March-based year that a day falls in, counted from 2000-03-01, and the day of that year.
fn year_of_day(days_total: i64) -> (r: (i64, i64))
    requires
        -200_000_000_000_000 <= days_total <= 200_000_000_000_000,
    ensures
        -1_000_000_000_000 <= r.0 <= 1_000_000_000_000,
        0 <= r.1 <= 365,
        r.1 == 365 ==> is_leap_year(r.0 + 1),
        days_total + LEAPOCH == days_before_year(r.0 as int) + days_before_month(r.0 as int, 3) + r.1,
{
    let (qc_cycles, r1) = divmod_i64(days_total, DAYS_PER_400Y);
    let mut remdays: i64 = r1;

    let mut c_cycles: i64 = remdays / DAYS_PER_100Y;
    if c_cycles == 4 {
        c_cycles = c_cycles - 1;
    }
    remdays = remdays - c_cycles * DAYS_PER_100Y;

    let mut q_cycles: i64 = remdays / DAYS_PER_4Y;
    if q_cycles == 25 {
        q_cycles = q_cycles - 1;
    }
    remdays = remdays - q_cycles * DAYS_PER_4Y;

    let mut remyears: i64 = remdays / 365;
    if remyears == 4 {
        remyears = remyears - 1;
    }
    remdays = remdays - remyears * 365;

    proof {
        lemma_cycles(
            days_total as int,
            qc_cycles as int,
            c_cycles as int,
            q_cycles as int,
            remyears as int,
            remdays as int,
        );
    }
    (2000 + remyears + 4 * q_cycles + 100 * c_cycles + 400 * qc_cycles, remdays)
}

/// The year, month and day of the month of a day number.
fn date_of_day(days: i64) -> (r: (i64, usize, u8))
    requires
        -110_000_000_000_000 <= days <= 110_000_000_000_000,
    ensures
        civil_date(days as int) == (CivilDate { year: r.0 as int, month: r.1 as int, day: r.2 as int }),
        1 <= r.1 <= 12,
        r.2 <= 31,
{
    let (march_year, remdays) = year_of_day(days - LEAPOCH);
    let (mon_idx, rd) = month_of_day(remdays);
    proof {
        lemma_march_based(march_year as int, mon_idx as int, rd as int);
        law_civil_date_inverse(march_based(march_year as int, mon_idx as int, rd as int));
    }
    let mday: u8 = (rd + 1) as u8;
    let mon: usize = mon_idx + 3;
    if mon > 12 {
        (march_year + 1, mon - 12, mday)
    } else {
        (march_year, mon, mday)
    }
}

/// Writes the fields of a `date` header line; `weekday` is 0 for Monday.
fn write_fields(buf: &mut [u8; DATE_LEN], weekday: usize, date: (i64, usize, u8), time: (u8, u8, u8))
    requires
        weekday < 7,
        1 <= date.1 <= 12,
    ensures
        final(buf)@ == with_fields(
            old(buf)@,
            weekday as int,
            (CivilDate { year: date.0 as int, month: date.1 as int, day: date.2 as int }),
            time.0 as int,
            time.1 as int,
            time.2 as int,
        ),
{
    let names: &[u8] = "MonTueWedThuFriSatSun".as_bytes();
    let months: &[u8] = "JanFebMarAprMayJunJulAugSepOctNovDec".as_bytes();
    proof {
        reveal_strlit("MonTueWedThuFriSatSun");
        reveal_strlit("JanFebMarAprMayJunJulAugSepOctNovDec");
        bytes::lemma_ascii_bytes("MonTueWedThuFriSatSun");
        bytes::lemma_ascii_bytes("JanFebMarAprMayJunJulAugSepOctNovDec");
    }
    let woff: usize = weekday * 3;
    let moff: usize = (date.1 - 1) * 3;
    // the low sixteen bits of the year
    let year: u16 = divmod_i64(date.0, 65536).1 as u16;
    let name: &[u8] = &names[woff..woff + 3];
    let month: &[u8] = &months[moff..moff + 3];
    assert(name@ == weekday_name(weekday as int));
    assert(month@ == month_name(date.1 as int));
    write_name(buf, 6, name);
    write_2d(buf, 11, date.2);
    write_name(buf, 14, month);
    write_4d(buf, 18, year);
    write_2d(buf, 23, time.0);
    write_2d(buf, 26, time.1);
    write_2d(buf, 29, time.2);
}

/// The day of the week of a day number, from 0 for Monday on.
fn weekday_of_day(days: i64) -> (r: usize)
    requires
        -110_000_000_000_000 <= days <= 110_000_000_000_000,
    ensures
        r == weekday(days as int),
        r < 7,
{
    let mut wday: i64 = divmod_i64(3 + (days - LEAPOCH), 7).1;
    if wday <= 0 {
        wday = wday + 7;
    }
    wday as usize - 1
}

/// The hour, minute and second of a second of the day.
fn time_of_day(secs_of_day: i64) -> (r: (u8, u8, u8))
    requires
        0 <= secs_of_day < SECS_PER_DAY,
    ensures
        r.0 == secs_of_day / 3600,
        r.1 == secs_of_day as int / 60 % 60,
        r.2 == secs_of_day as int % 60,
{
    let (hour, rem) = divmod_i64(secs_of_day, SECS_PER_HOUR);
    let (min, sec) = divmod_i64(rem, SECS_PER_MIN);
    (hour as u8, min as u8, sec as u8)
}

/// `buf` with the fields of the `date` header line of the second `secs` written over it.
pub open spec fn with_date(buf: Seq<u8>, secs: int) -> Seq<u8> {
    with_fields(
        buf,
        weekday(secs / 86400),
        civil_date(secs / 86400),
        secs % 86400 / 3600,
        secs % 86400 / 60 % 60,
        secs % 86400 % 60,
    )
}

/// Whether a field of a `date` header line covers index `i`.
pub open spec fn in_field(i: int) -> bool {
    ||| 6 <= i < 9
    ||| 11 <= i < 13
    ||| 14 <= i < 17
    ||| 18 <= i < 22
    ||| 23 <= i < 25
    ||| 26 <= i < 28
    ||| 29 <= i < 31
}

/// Formatting keeps the bytes outside of the fields, and those inside depend on the second alone.
pub proof fn law_only_fields_are_written(buf0: Seq<u8>, buf1: Seq<u8>, secs: int)
    requires
        buf0.len() == DATE_LEN,
        buf1.len() == DATE_LEN,
    ensures
        with_date(buf0, secs).len() == DATE_LEN,
        forall|i: int| 0 <= i < DATE_LEN && !in_field(i) ==> #[trigger] with_date(buf0, secs)[i] == buf0[i],
        forall|i: int|
            0 <= i < DATE_LEN && in_field(i) ==> #[trigger] with_date(buf0, secs)[i] == with_date(buf1, secs)[i],
{
    reveal_strlit("MonTueWedThuFriSatSun");
    reveal_strlit("JanFebMarAprMayJunJulAugSepOctNovDec");
    law_date_exists(secs / 86400);
    assert(weekday_name(weekday(secs / 86400)).len() == 3);
    assert(month_name(civil_date(secs / 86400).month).len() == 3);
}

/// Writes the fields of the `date` header line of the second `secs_since_epoch`.
pub fn format_http_date(buf: &mut [u8; DATE_LEN], secs_since_epoch: i64)
    ensures
        final(buf)@ == with_date(old(buf)@, secs_since_epoch as int),
{
    let (days, secs_of_day) = divmod_i64(secs_since_epoch, SECS_PER_DAY);
    let date = date_of_day(days);
    let weekday = weekday_of_day(days);
    let time = time_of_day(secs_of_day);
    write_fields(buf, weekday, date, time);
}

/// The fields written over the template make the whole line.
proof fn lemma_template(c: CivilDate, days: int, secs_of_day: int)
    requires
        1 <= c.month <= 12,
    ensures
        with_fields(
            HEADER_TEMPLATE@,
            weekday(days),
            c,
            secs_of_day / 3600,
            secs_of_day / 60 % 60,
            secs_of_day % 60,
        ) == date_line_of(c, days, secs_of_day),
{
    reveal_strlit("MonTueWedThuFriSatSun");
    reveal_strlit("JanFebMarAprMayJunJulAugSepOctNovDec");
    reveal_strlit("date: ");
    reveal_strlit(", ");
    reveal_strlit(" ");
    reveal_strlit(":");
    reveal_strlit(" GMT\r\n");
    assert(with_fields(
        HEADER_TEMPLATE@,
        weekday(days),
        c,
        secs_of_day / 3600,
        secs_of_day / 60 % 60,
        secs_of_day % 60,
    ) =~= date_line_of(c, days, secs_of_day));
}

/// The `date` header line of the second `seconds` after the Unix epoch.
pub fn get_date_from_secs(seconds: i64) -> (r: [u8; DATE_LEN])
    ensures
        r@ == date_line(seconds as int),
        forall|c: CivilDate|
            c.valid() && #[trigger] c.day_number() == seconds as int / 86400 ==> r@ == date_line_of(
                c,
                seconds as int / 86400,
                seconds as int % 86400,
            ),
{
    let mut buf: [u8; DATE_LEN] = HEADER_TEMPLATE;
    format_http_date(&mut buf, seconds);
    proof {
        let days = seconds as int / 86400;
        law_date_exists(days);
        lemma_template(civil_date(days), days, seconds as int % 86400);
        assert forall|c: CivilDate| c.valid() && #[trigger] c.day_number() == days implies c == civil_date(days) by {
            law_date_unique(c, civil_date(days));
        }
    }
    buf
}

/// The line that was formatted last, and the second that it is the line of.
pub struct DateCache {
    buf: [u8; DATE_LEN],
    last_sec: i64,
}

impl DateCache {
    /// The second whose line is held; the least `i64` where none is held yet.
    pub closed spec fn last_sec(&self) -> i64 {
        self.last_sec
    }

    pub closed spec fn line(&self) -> Seq<u8> {
        self.buf@
    }

    #[verifier::type_invariant]
    spec fn holds_its_second(&self) -> bool {
        self.last_sec != i64::MIN ==> self.buf@ == date_line(self.last_sec as int)
    }

    /// A cache that holds no line yet.
    pub fn new() -> (r: DateCache)
        ensures
            r.last_sec() == i64::MIN,
            r.line() == bytes::ascii("date: Mon, 00 Jan 0000 00:00:00 GMT\r\n"@),
    {
        proof {
            reveal_strlit("date: Mon, 00 Jan 0000 00:00:00 GMT\r\n");
            assert(HEADER_TEMPLATE@ =~= bytes::ascii("date: Mon, 00 Jan 0000 00:00:00 GMT\r\n"@));
        }
        DateCache { buf: HEADER_TEMPLATE, last_sec: i64::MIN }
    }

    /// The line of the second `now`, formatted only where it is not the one held.
    pub fn line_at(&mut self, now: i64) -> (r: [u8; DATE_LEN])
        ensures
            final(self).last_sec() == now,
            final(self).line() == r@,
            now != i64::MIN ==> r@ == date_line(now as int),
            old(self).last_sec() == now ==> *final(self) == *old(self),
            old(self).last_sec() != now ==> r@ == date_line(now as int),
    {
        proof {
            use_type_invariant(&*self);
        }
        if self.last_sec != now {
            let buf = get_date_from_secs(now);
            *self = DateCache { buf, last_sec: now };
        }
        self.buf
    }
}

/// The current second by two clocks: the coarse one, or, where that one could not be read, the plain
/// one.
pub open spec fn current_second(coarse: Option<i64>, plain: i64) -> i64 {
    match coarse {
        Some(secs) => secs,
        None => plain,
    }
}

/// What follows a try to read the coarse clock.
#[derive(Debug, Clone, Copy, PartialEq, Eq, Structural)]
pub enum ClockStep {
    /// This is the current second; no other clock is read.
    Known(i64),
    /// Read the plain clock.
    ReadPlain,
}

/// Decides whether the plain clock is read: only where the coarse one, which is the cheaper one to
/// read, could not be.
pub fn after_coarse(coarse: Option<i64>) -> (r: ClockStep)
    ensures
        r == match coarse {
            Some(secs) => ClockStep::Known(secs),
            None => ClockStep::ReadPlain,
        },
{
    match coarse {
        Some(secs) => ClockStep::Known(secs),
        None => ClockStep::ReadPlain,
    }
}

/// Decides on the current second by the readings of the two clocks; `plain` counts only where the
/// coarse clock could not be read.
pub fn now_unix_sec(coarse: Option<i64>, plain: i64) -> (r: i64)
    ensures
        r == current_second(coarse, plain),
{
    match after_coarse(coarse) {
        ClockStep::Known(secs) => secs,
        ClockStep::ReadPlain => plain,
    }
}

/// The `date` header line of the current second, by the readings of the two clocks; `cache` is left
/// holding it.
pub fn get_date_now(cache: &mut DateCache, coarse: Option<i64>, plain: i64) -> (r: [u8; DATE_LEN])
    ensures
        final(cache).last_sec() == current_second(coarse, plain),
        final(cache).line() == r@,
        current_second(coarse, plain) != i64::MIN ==> r@ == date_line(current_second(coarse, plain) as int),
        old(cache).last_sec() == current_second(coarse, plain) ==> *final(cache) == *old(cache),
        old(cache).last_sec() != current_second(coarse, plain) ==> r@ == date_line(
            current_second(coarse, plain) as int,
        ),
{
    cache.line_at(now_unix_sec(coarse, plain))
}

/// The `date` header line of the current second, by the readings of the two clocks.
pub fn get_date_now_uncached(coarse: Option<i64>, plain: i64) -> (r: [u8; DATE_LEN])
    ensures
        r@ == date_line(current_second(coarse, plain) as int),
{
    get_date_from_secs(now_unix_sec(coarse, plain))
}

} // verus!
