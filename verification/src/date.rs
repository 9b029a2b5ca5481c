//! Calendar dates in the proleptic Gregorian calendar, modelled by their
//! day number: the count of days since the first representable day.

use vstd::prelude::*;

verus! {

/// A calendar date, limited to the four-digit years that a `YYYY-MM-DD`
/// log header can express.
#[derive(Clone, Copy, PartialEq, Eq, Structural, Debug)]
pub struct Date {
    pub year: u32,
    pub month: u32,
    pub day: u32,
}

pub open spec fn spec_is_leap_year(y: int) -> bool {
    (y % 4 == 0 && y % 100 != 0) || y % 400 == 0
}

pub open spec fn spec_days_in_month(y: int, m: int) -> int {
    if m == 2 {
        if spec_is_leap_year(y) { 29 } else { 28 }
    } else if m == 4 || m == 6 || m == 9 || m == 11 {
        30
    } else {
        31
    }
}

/// Days of year `y` that precede the first day of month `m`.
pub open spec fn spec_days_before_month(y: int, m: int) -> int
    decreases m,
{
    if m <= 1 { 0 } else { spec_days_before_month(y, m - 1) + spec_days_in_month(y, m - 1) }
}

pub open spec fn spec_days_in_year(y: int) -> int {
    spec_days_before_month(y, 13)
}

/// Days that precede the first day of year `y`, counting from year 1.
pub open spec fn spec_days_before_year(y: int) -> int
    decreases y,
{
    if y <= 1 { 0 } else { spec_days_before_year(y - 1) + spec_days_in_year(y - 1) }
}

/// The mathematical model of a date: days since 0001-01-01.
pub open spec fn spec_day_number(d: Date) -> int {
    spec_days_before_year(d.year as int) + spec_days_before_month(d.year as int, d.month as int)
        + d.day - 1
}

pub open spec fn spec_min_date() -> Date {
    Date { year: 1, month: 1, day: 1 }
}

pub open spec fn spec_max_date() -> Date {
    Date { year: 9999, month: 12, day: 31 }
}

impl Date {
    pub open spec fn valid(self) -> bool {
        &&& 1 <= self.year <= 9999
        &&& 1 <= self.month <= 12
        &&& 1 <= self.day <= spec_days_in_month(self.year as int, self.month as int)
    }
}

pub proof fn lemma_days_in_year(y: int)
    ensures
        spec_days_in_year(y) == if spec_is_leap_year(y) { 366int } else { 365int },
{
    reveal_with_fuel(spec_days_before_month, 14);
}

pub proof fn lemma_days_before_month_monotone(y: int, m1: int, m2: int)
    requires
        m1 <= m2,
    ensures
        spec_days_before_month(y, m1) <= spec_days_before_month(y, m2),
    decreases m2 - m1,
{
    if m1 < m2 {
        lemma_days_before_month_monotone(y, m1, m2 - 1);
    }
}

pub proof fn lemma_days_before_year_monotone(y1: int, y2: int)
    requires
        y1 <= y2,
    ensures
        spec_days_before_year(y1) <= spec_days_before_year(y2),
    decreases y2 - y1,
{
    if y1 < y2 {
        lemma_days_before_year_monotone(y1, y2 - 1);
        lemma_days_before_month_monotone(y2 - 1, 1, 13);
    }
}

/// Every valid date's day number lies between the day numbers of the
/// extreme representable dates.
pub proof fn lemma_day_number_bounds(d: Date)
    requires
        d.valid(),
    ensures
        0 <= spec_day_number(d),
        spec_day_number(d) <= spec_day_number(spec_max_date()),
{
    let y = d.year as int;
    let m = d.month as int;
    lemma_days_before_year_monotone(1, y);
    lemma_days_before_month_monotone(y, 1, m);
    // Within its year, a date stays short of the year's length.
    lemma_days_before_month_monotone(y, m + 1, 13);
    assert(spec_days_before_month(y, m + 1)
        == spec_days_before_month(y, m) + spec_days_in_month(y, m));
    assert(spec_day_number(d) < spec_days_before_year(y) + spec_days_in_year(y));
    assert(spec_days_before_year(y + 1) == spec_days_before_year(y) + spec_days_in_year(y));
    lemma_days_before_year_monotone(y + 1, 10000);
    assert(spec_days_before_year(10000) == spec_days_before_year(9999) + spec_days_in_year(9999));
    lemma_days_in_year(9999);
    assert(spec_days_before_month(9999, 13)
        == spec_days_before_month(9999, 12) + spec_days_in_month(9999, 12));
    assert(spec_day_number(spec_max_date())
        == spec_days_before_year(9999) + spec_days_before_month(9999, 12) + 30);
}

/// From the second year on, at least one whole year of days has passed.
pub proof fn lemma_day_number_lower(d: Date)
    requires
        d.valid(),
        d.year >= 2,
    ensures
        spec_day_number(d) >= 365,
{
    lemma_days_before_year_monotone(2, d.year as int);
    lemma_days_in_year(1);
    assert(spec_days_before_year(2) == spec_days_before_year(1) + spec_days_in_year(1));
    assert(spec_days_before_year(1) == 0);
    lemma_days_before_month_monotone(d.year as int, 1, d.month as int);
}

/// A date's day number never leaves the span of its own year.
pub proof fn lemma_day_number_within_year(d: Date)
    requires
        d.valid(),
    ensures
        spec_days_before_year(d.year as int) <= spec_day_number(d),
        spec_day_number(d) < spec_days_before_year(d.year as int + 1),
{
    let y = d.year as int;
    let m = d.month as int;
    lemma_days_before_month_monotone(y, 1, m);
    lemma_days_before_month_monotone(y, m + 1, 13);
    assert(spec_days_before_month(y, m + 1)
        == spec_days_before_month(y, m) + spec_days_in_month(y, m));
    assert(spec_days_before_year(y + 1) == spec_days_before_year(y) + spec_days_in_year(y));
}

/// Two valid dates with the same day number are the same date: a day
/// number, together with validity, pins a date completely.
pub proof fn lemma_day_number_injective(d1: Date, d2: Date)
    requires
        d1.valid(),
        d2.valid(),
        spec_day_number(d1) == spec_day_number(d2),
    ensures
        d1 == d2,
{
    lemma_day_number_within_year(d1);
    lemma_day_number_within_year(d2);
    if d1.year < d2.year {
        lemma_days_before_year_monotone(d1.year as int + 1, d2.year as int);
        assert(false);
    }
    if d2.year < d1.year {
        lemma_days_before_year_monotone(d2.year as int + 1, d1.year as int);
        assert(false);
    }
    let y = d1.year as int;
    if d1.month < d2.month {
        lemma_days_before_month_monotone(y, d1.month as int + 1, d2.month as int);
        assert(spec_days_before_month(y, d1.month as int + 1)
            == spec_days_before_month(y, d1.month as int)
                + spec_days_in_month(y, d1.month as int));
        assert(false);
    }
    if d2.month < d1.month {
        lemma_days_before_month_monotone(y, d2.month as int + 1, d1.month as int);
        assert(spec_days_before_month(y, d2.month as int + 1)
            == spec_days_before_month(y, d2.month as int)
                + spec_days_in_month(y, d2.month as int));
        assert(false);
    }
}

pub fn is_leap_year(y: u32) -> (r: bool)
    ensures
        r == spec_is_leap_year(y as int),
{
    (y % 4 == 0 && y % 100 != 0) || y % 400 == 0
}

pub fn days_in_month(y: u32, m: u32) -> (r: u32)
    ensures
        r as int == spec_days_in_month(y as int, m as int),
        28 <= r <= 31,
{
    if m == 2 {
        if is_leap_year(y) { 29 } else { 28 }
    } else if m == 4 || m == 6 || m == 9 || m == 11 {
        30
    } else {
        31
    }
}

pub fn days_in_year(y: u32) -> (r: u32)
    ensures
        r as int == spec_days_in_year(y as int),
        365 <= r <= 366,
{
    proof {
        lemma_days_in_year(y as int);
    }
    if is_leap_year(y) { 366 } else { 365 }
}

/// Computes the date's day number by summing whole years, then whole
/// months, then the day of month.
pub fn day_number(d: &Date) -> (r: u32)
    requires
        d.valid(),
    ensures
        r as int == spec_day_number(*d),
{
    let mut acc: u32 = 0;
    let mut y: u32 = 1;
    while y < d.year
        invariant
            1 <= y <= d.year <= 9999,
            acc as int == spec_days_before_year(y as int),
            acc <= 366 * (y - 1),
        decreases d.year - y,
    {
        let diy = days_in_year(y);
        acc = acc + diy;
        y = y + 1;
    }
    let mut m: u32 = 1;
    while m < d.month
        invariant
            1 <= m <= d.month <= 12,
            d.valid(),
            acc as int == spec_days_before_year(d.year as int)
                + spec_days_before_month(d.year as int, m as int),
            acc <= 366 * 9998 + 31 * (m - 1),
        decreases d.month - m,
    {
        let dim = days_in_month(d.year, m);
        acc = acc + dim;
        m = m + 1;
    }
    acc + (d.day - 1)
}

pub open spec fn spec_date_le(a: Date, b: Date) -> bool {
    spec_day_number(a) <= spec_day_number(b)
}

pub fn date_le(a: &Date, b: &Date) -> (r: bool)
    requires
        a.valid(),
        b.valid(),
    ensures
        r == spec_date_le(*a, *b),
{
    day_number(a) <= day_number(b)
}

pub fn min_date() -> (r: Date)
    ensures
        r == spec_min_date(),
        r.valid(),
        spec_day_number(r) == 0,
{
    Date { year: 1, month: 1, day: 1 }
}

pub fn max_date() -> (r: Date)
    ensures
        r == spec_max_date(),
        r.valid(),
{
    Date { year: 9999, month: 12, day: 31 }
}

/// The day after `d`; the caller keeps the result inside the
/// representable years.
pub fn next_day(d: &Date) -> (r: Date)
    requires
        d.valid(),
        *d != spec_max_date(),
    ensures
        r.valid(),
        spec_day_number(r) == spec_day_number(*d) + 1,
{
    let y = d.year;
    let m = d.month;
    if d.day < days_in_month(y, m) {
        Date { year: y, month: m, day: d.day + 1 }
    } else if m < 12 {
        proof {
            assert(spec_days_before_month(y as int, m as int + 1)
                == spec_days_before_month(y as int, m as int)
                    + spec_days_in_month(y as int, m as int));
        }
        Date { year: y, month: m + 1, day: 1 }
    } else {
        proof {
            assert(spec_days_before_year(y as int + 1)
                == spec_days_before_year(y as int) + spec_days_in_year(y as int));
            assert(spec_days_before_month(y as int, 13)
                == spec_days_before_month(y as int, 12) + 31);
        }
        Date { year: y + 1, month: 1, day: 1 }
    }
}

/// The day before `d`; `d` may not be the first representable day.
pub fn prev_day(d: &Date) -> (r: Date)
    requires
        d.valid(),
        *d != spec_min_date(),
    ensures
        r.valid(),
        spec_day_number(r) == spec_day_number(*d) - 1,
{
    let y = d.year;
    let m = d.month;
    if d.day > 1 {
        Date { year: y, month: m, day: d.day - 1 }
    } else if m > 1 {
        let dim = days_in_month(y, m - 1);
        proof {
            assert(spec_days_before_month(y as int, m as int)
                == spec_days_before_month(y as int, m as int - 1)
                    + spec_days_in_month(y as int, m as int - 1));
        }
        Date { year: y, month: m - 1, day: dim }
    } else {
        proof {
            assert(spec_days_before_year(y as int)
                == spec_days_before_year(y as int - 1) + spec_days_in_year(y as int - 1));
            assert(spec_days_before_month(y as int - 1, 13)
                == spec_days_before_month(y as int - 1, 12) + 31);
        }
        Date { year: y - 1, month: 12, day: 31 }
    }
}

pub fn add_days(d: &Date, n: u32) -> (r: Date)
    requires
        d.valid(),
        spec_day_number(*d) + n <= spec_day_number(spec_max_date()),
    ensures
        r.valid(),
        spec_day_number(r) == spec_day_number(*d) + n,
{
    let mut cur: Date = *d;
    let mut k: u32 = 0;
    while k < n
        invariant
            k <= n,
            cur.valid(),
            spec_day_number(cur) == spec_day_number(*d) + k,
            spec_day_number(*d) + n <= spec_day_number(spec_max_date()),
        decreases n - k,
    {
        proof {
            if cur == spec_max_date() {
                assert(spec_day_number(cur) < spec_day_number(spec_max_date()));
            }
        }
        cur = next_day(&cur);
        k = k + 1;
    }
    cur
}

pub fn sub_days(d: &Date, n: u32) -> (r: Date)
    requires
        d.valid(),
        n <= spec_day_number(*d),
    ensures
        r.valid(),
        spec_day_number(r) == spec_day_number(*d) - n,
{
    let mut cur: Date = *d;
    let mut k: u32 = 0;
    while k < n
        invariant
            k <= n,
            cur.valid(),
            spec_day_number(cur) == spec_day_number(*d) - k,
            n <= spec_day_number(*d),
        decreases n - k,
    {
        proof {
            if cur == spec_min_date() {
                assert(spec_day_number(cur) == 0);
            }
        }
        cur = prev_day(&cur);
        k = k + 1;
    }
    cur
}

/// Days since Monday: day one of year 1 is a Monday in the proleptic
/// Gregorian calendar, so the day number modulo 7 counts from Monday.
pub open spec fn spec_weekday(d: Date) -> int {
    spec_day_number(d) % 7
}

pub fn weekday(d: &Date) -> (r: u32)
    requires
        d.valid(),
    ensures
        r as int == spec_weekday(*d),
        r <= 6,
{
    proof {
        lemma_day_number_bounds(*d);
    }
    day_number(d) % 7
}

pub open spec fn is_digit(b: u8) -> bool {
    48 <= b <= 57
}

/// The ten bytes of a zero-padded `YYYY-MM-DD` header for `d`.
pub open spec fn spec_date_bytes(d: Date) -> Seq<u8> {
    let y = d.year as int;
    let m = d.month as int;
    let dy = d.day as int;
    seq![
        (48 + y / 1000) as u8,
        (48 + (y / 100) % 10) as u8,
        (48 + (y / 10) % 10) as u8,
        (48 + y % 10) as u8,
        45u8,
        (48 + m / 10) as u8,
        (48 + m % 10) as u8,
        45u8,
        (48 + dy / 10) as u8,
        (48 + dy % 10) as u8,
    ]
}

/// A line parses as a date header exactly when it is ten bytes of the
/// shape `YYYY-MM-DD` naming a valid date.
pub open spec fn spec_parse_date(s: Seq<u8>) -> Option<Date> {
    if s.len() == 10 && is_digit(s[0]) && is_digit(s[1]) && is_digit(s[2]) && is_digit(s[3])
        && s[4] == 45 && is_digit(s[5]) && is_digit(s[6]) && s[7] == 45 && is_digit(s[8])
        && is_digit(s[9]) {
        let y = (s[0] - 48) * 1000 + (s[1] - 48) * 100 + (s[2] - 48) * 10 + (s[3] - 48);
        let m = (s[5] - 48) * 10 + (s[6] - 48);
        let dy = (s[8] - 48) * 10 + (s[9] - 48);
        let d = Date { year: y as u32, month: m as u32, day: dy as u32 };
        if d.valid() {
            Some(d)
        } else {
            None
        }
    } else {
        None
    }
}

pub fn format_date(d: &Date) -> (r: Vec<u8>)
    requires
        d.valid(),
    ensures
        r@ == spec_date_bytes(*d),
{
    let mut v: Vec<u8> = Vec::new();
    v.push((48 + d.year / 1000) as u8);
    v.push((48 + (d.year / 100) % 10) as u8);
    v.push((48 + (d.year / 10) % 10) as u8);
    v.push((48 + d.year % 10) as u8);
    v.push(45);
    v.push((48 + d.month / 10) as u8);
    v.push((48 + d.month % 10) as u8);
    v.push(45);
    v.push((48 + d.day / 10) as u8);
    v.push((48 + d.day % 10) as u8);
    proof {
        assert(v@ =~= spec_date_bytes(*d));
    }
    v
}

pub fn parse_date(line: &Vec<u8>) -> (r: Option<Date>)
    ensures
        r == spec_parse_date(line@),
        match r {
            Some(d) => d.valid(),
            None => true,
        },
{
    if line.len() != 10 {
        return None;
    }
    let b0 = line[0];
    let b1 = line[1];
    let b2 = line[2];
    let b3 = line[3];
    let b5 = line[5];
    let b6 = line[6];
    let b8 = line[8];
    let b9 = line[9];
    if !(48 <= b0 && b0 <= 57 && 48 <= b1 && b1 <= 57 && 48 <= b2 && b2 <= 57 && 48 <= b3
        && b3 <= 57 && line[4] == 45 && 48 <= b5 && b5 <= 57 && 48 <= b6 && b6 <= 57
        && line[7] == 45 && 48 <= b8 && b8 <= 57 && 48 <= b9 && b9 <= 57) {
        return None;
    }
    let y: u32 = (b0 - 48) as u32 * 1000 + (b1 - 48) as u32 * 100 + (b2 - 48) as u32 * 10 + (b3
        - 48) as u32;
    let m: u32 = (b5 - 48) as u32 * 10 + (b6 - 48) as u32;
    let dy: u32 = (b8 - 48) as u32 * 10 + (b9 - 48) as u32;
    if 1 <= y && 1 <= m && m <= 12 && 1 <= dy && dy <= days_in_month(y, m) {
        Some(Date { year: y, month: m, day: dy })
    } else {
        None
    }
}

/// No header byte is a newline, so a header always stays on one line.
pub proof fn lemma_date_bytes_no_newline(d: Date)
    requires
        d.valid(),
    ensures
        forall|k: int| 0 <= k < spec_date_bytes(d).len() ==> spec_date_bytes(d)[k] != 10,
{
    let b = spec_date_bytes(d);
    assert forall|k: int| 0 <= k < b.len() implies b[k] != 10 by {
        assert(0 <= d.year as int / 1000 <= 9);
        assert(0 <= d.month as int / 10 <= 9);
        assert(0 <= d.day as int / 10 <= 9);
    }
}

/// Formatting then parsing gives the date back: headers written by the
/// log writer are recognised by the scanner, as the same date.
pub proof fn lemma_date_round_trip(d: Date)
    requires
        d.valid(),
    ensures
        spec_parse_date(spec_date_bytes(d)) == Some(d),
{
    let b = spec_date_bytes(d);
    let y = d.year as int;
    assert(y / 100 == (y / 1000) * 10 + (y / 100) % 10) by {
        vstd::arithmetic::div_mod::lemma_div_denominator(y, 100, 10);
        assert(y / 100 == ((y / 100) / 10) * 10 + (y / 100) % 10);
    }
    assert(y / 10 == (y / 100) * 10 + (y / 10) % 10) by {
        vstd::arithmetic::div_mod::lemma_div_denominator(y, 10, 10);
        assert(y / 10 == ((y / 10) / 10) * 10 + (y / 10) % 10);
    }
    assert(y == (y / 10) * 10 + y % 10);
    assert((b[0] - 48) * 1000 + (b[1] - 48) * 100 + (b[2] - 48) * 10 + (b[3] - 48) == y);
    assert((b[5] - 48) * 10 + (b[6] - 48) == d.month as int);
    assert((b[8] - 48) * 10 + (b[9] - 48) == d.day as int);
}

} // verus!
