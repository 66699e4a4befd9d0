//! Calendar dates and day numbers.
//!
//! Day numbers count from 1 January of the year 1, which has the number zero;
//! the proleptic Gregorian calendar is used throughout.
use chrono::{Datelike, Duration, NaiveDate};
use vstd::prelude::*;

verus! {

/// The years that dates can have.
pub const FIRST_YEAR: i32 = -262143;

pub const LAST_YEAR: i32 = 262142;

/// The day number of 1 January 1970.
pub const EPOCH_DAY: i64 = 719162;

/// A date of the calendar.
#[derive(Clone, Copy, PartialEq, Eq, Structural, Debug)]
pub struct Date {
    pub year: i32,
    pub month: u32,
    pub day: u32,
}

pub open spec fn is_leap(year: int) -> bool {
    year % 4 == 0 && (year % 100 != 0 || year % 400 == 0)
}

pub open spec fn days_in_month(year: int, month: int) -> int {
    if month == 2 {
        if is_leap(year) {
            29
        } else {
            28
        }
    } else if month == 4 || month == 6 || month == 9 || month == 11 {
        30
    } else {
        31
    }
}

/// The days of the year before its month `month`.
pub open spec fn days_before_month(year: int, month: int) -> int
    decreases month,
{
    if month <= 1 {
        0
    } else {
        days_before_month(year, month - 1) + days_in_month(year, month - 1)
    }
}

/// The days before 1 January of the year.
pub open spec fn days_before_year(year: int) -> int {
    let p = year - 1;
    365 * p + p / 4 - p / 100 + p / 400
}

/// The day number of the first day that there is, and of the last.
pub open spec fn first_day() -> int {
    days_before_year(FIRST_YEAR as int)
}

pub open spec fn last_day() -> int {
    days_before_year(LAST_YEAR + 1) - 1
}

impl Date {
    /// The date exists.
    pub open spec fn valid(self) -> bool {
        &&& FIRST_YEAR <= self.year <= LAST_YEAR
        &&& 1 <= self.month <= 12
        &&& 1 <= self.day <= days_in_month(self.year as int, self.month as int)
    }

    /// The days from 1 January of the year 1 to the date.
    pub open spec fn day_number(self) -> int {
        days_before_year(self.year as int) + days_before_month(
            self.year as int,
            self.month as int,
        ) + self.day - 1
    }

    /// The date as year, month and day, parted by hyphens. A year outside 0 to
    /// 9999 carries its sign.
    pub open spec fn text(self) -> Seq<char> {
        let year = if 0 <= self.year <= 9999 {
            crate::text::zero_padded(self.year as nat, 4)
        } else {
            let digits = vstd::math::abs(self.year as int);
            let sign = if self.year < 0 {
                '-'
            } else {
                '+'
            };
            seq![sign] + (if digits <= 9999 {
                crate::text::zero_padded(digits, 4)
            } else {
                crate::text::decimal(digits)
            })
        };
        year + seq!['-'] + crate::text::zero_padded(self.month as nat, 2) + seq!['-']
            + crate::text::zero_padded(self.day as nat, 2)
    }
}

/// The date with the day number `n`.
pub open spec fn date_at(n: int) -> Date {
    choose|date: Date| date.valid() && date.day_number() == n
}

/// `NaiveDate::from_ymd_opt` finds the date of a year, month and day exactly
/// where it exists and its year is within the range of `NaiveDate`.
#[verifier::external_body]
fn calendar_date(year: i32, month: u32, day: u32) -> (r: Option<Date>)
    ensures
        r == (if (Date { year, month, day }).valid() {
            Some(Date { year, month, day })
        } else {
            None
        }),
{
    NaiveDate::from_ymd_opt(year, month, day).map(
        |d| Date { year: d.year(), month: d.month(), day: d.day() },
    )
}

/// `NaiveDate - NaiveDate`, in whole days (`TimeDelta::num_days`), is the
/// difference of the two day numbers.
#[verifier::external_body]
fn days_from_to(from: Date, to: Date) -> (r: i64)
    requires
        from.valid(),
        to.valid(),
    ensures
        r == to.day_number() - from.day_number(),
{
    let a = NaiveDate::from_ymd_opt(from.year, from.month, from.day).expect("date exists");
    let b = NaiveDate::from_ymd_opt(to.year, to.month, to.day).expect("date exists");
    (b - a).num_days()
}

/// `NaiveDate + TimeDelta::days(n)` is the date whose day number is `n` higher.
/// It panics where that date is out of range.
#[verifier::external_body]
fn days_later(date: Date, days: i64) -> (r: Date)
    requires
        date.valid(),
        first_day() <= date.day_number() + days <= last_day(),
    ensures
        r.valid(),
        r.day_number() == date.day_number() + days,
{
    let a = NaiveDate::from_ymd_opt(date.year, date.month, date.day).expect("date exists");
    let d = a + Duration::days(days);
    Date { year: d.year(), month: d.month(), day: d.day() }
}

/// `NaiveDate` displays as year, month and day with hyphens between them: the
/// year in four digits, with a sign outside 0 to 9999, month and day in two.
#[verifier::external_body]
fn displayed(date: Date) -> (r: String)
    requires
        date.valid(),
    ensures
        r@ == date.text(),
{
    let a = NaiveDate::from_ymd_opt(date.year, date.month, date.day).expect("date exists");
    a.to_string()
}

fn first_of_january(year: i32) -> (r: Date)
    requires
        FIRST_YEAR <= year <= LAST_YEAR,
    ensures
        r.valid(),
        r == (Date { year, month: 1, day: 1 }),
        r.day_number() == days_before_year(year as int),
{
    proof {
        reveal_with_fuel(days_before_month, 2);
    }
    calendar_date(year, 1, 1).unwrap()
}

/// The day number of a date.
pub fn date_to_ce(date: Date) -> (days: i64)
    requires
        date.valid(),
    ensures
        days == date.day_number(),
{
    let zero_date = first_of_january(1);
    days_from_to(zero_date, date)
}

/// The date with the given day number: what `date_to_ce` was taken of.
pub fn ce_to_date(days: i64) -> (date: Date)
    requires
        first_day() <= days <= last_day(),
    ensures
        date.valid(),
        date.day_number() == days,
        date == date_at(days as int),
{
    let zero_date = first_of_january(1);
    let date = days_later(zero_date, days);
    proof {
        law_day_number_identifies_date(date);
    }
    date
}

/// The date that lies `days` days after 1 January 1970.
pub fn ordinal_to_date(days: i64) -> (date: Date)
    requires
        first_day() <= EPOCH_DAY + days <= last_day(),
    ensures
        date.valid(),
        date.day_number() == EPOCH_DAY + days,
        date == date_at(EPOCH_DAY + days),
{
    let epoch = first_of_january(1970);
    let date = days_later(epoch, days);
    proof {
        law_day_number_identifies_date(date);
    }
    date
}

/// Whether there is a date with the given day number.
pub fn has_date(days: i64) -> (r: bool)
    ensures
        r == (first_day() <= days <= last_day()),
{
    let first = first_of_january(FIRST_YEAR);
    let last = Date { year: LAST_YEAR, month: 12, day: 31 };
    proof {
        reveal_with_fuel(days_before_month, 13);
    }
    date_to_ce(first) <= days && days <= date_to_ce(last)
}

/// The text of a date that is given in days after 1 January 1970.
pub fn epoch_day_text(days: i32) -> (r: String)
    requires
        first_day() <= EPOCH_DAY + days <= last_day(),
    ensures
        r@ == date_at(EPOCH_DAY + days).text(),
{
    displayed(ordinal_to_date(days as i64))
}

/// The time column of a column of dates: the day number of each date, where
/// there is one.
pub fn time_column(dates: &Vec<Option<i32>>) -> (times: Vec<Option<i64>>)
    requires
        forall|i: int|
            0 <= i < dates@.len() ==> ((#[trigger] dates@[i]) matches Some(d) ==> first_day()
                <= EPOCH_DAY + d <= last_day()),
    ensures
        times@ == Seq::new(
            dates@.len(),
            |i: int|
                match dates@[i] {
                    Some(d) => Some((EPOCH_DAY + d) as i64),
                    None => None,
                },
        ),
        forall|i: int|
            0 <= i < dates@.len() ==> match ((#[trigger] times@[i]), dates@[i]) {
                (Some(t), Some(d)) => t - d == 719162,
                (None, None) => true,
                _ => false,
            },
{
    let mut times: Vec<Option<i64>> = Vec::new();
    let mut i: usize = 0;
    while i < dates.len()
        invariant
            forall|i: int|
                0 <= i < dates@.len() ==> ((#[trigger] dates@[i]) matches Some(d) ==> first_day()
                    <= EPOCH_DAY + d <= last_day()),
            i <= dates@.len(),
            times@.len() == i,
            forall|k: int|
                0 <= k < i ==> #[trigger] times@[k] == (match dates@[k] {
                    Some(d) => Some((EPOCH_DAY + d) as i64),
                    None => None,
                }),
        decreases dates@.len() - i,
    {
        match dates[i] {
            Some(d) => times.push(Some(date_to_ce(ordinal_to_date(d as i64)))),
            None => times.push(None),
        }
        i += 1;
    }
    times
}

proof fn lemma_month(year: int, month: int)
    requires
        1 <= month <= 12,
    ensures
        0 <= days_before_month(year, month),
        days_before_month(year, month) + days_in_month(year, month) <= (if is_leap(year) {
            366int
        } else {
            365int
        }),
{
    reveal_with_fuel(days_before_month, 13);
}

proof fn lemma_months_ascend(year: int, a: int, b: int)
    requires
        1 <= a < b <= 12,
    ensures
        days_before_month(year, a) + days_in_month(year, a) <= days_before_month(year, b),
    decreases b - a,
{
    if a + 1 < b {
        lemma_months_ascend(year, a, b - 1);
    }
}

proof fn lemma_quotient_step(y: int, d: int)
    requires
        d > 0,
    ensures
        y / d - (y - 1) / d == (if y % d == 0 {
            1int
        } else {
            0int
        }),
{
    vstd::arithmetic::div_mod::lemma_fundamental_div_mod(y, d);
    vstd::arithmetic::div_mod::lemma_mod_bound(y, d);
    let q = y / d;
    let r = y % d;
    if r == 0 {
        assert((y - 1) == (q - 1) * d + (d - 1)) by (nonlinear_arith)
            requires
                y == d * q + r,
                r == 0,
        ;
        vstd::arithmetic::div_mod::lemma_fundamental_div_mod_converse(y - 1, d, q - 1, d - 1);
    } else {
        assert((y - 1) == q * d + (r - 1)) by (nonlinear_arith)
            requires
                y == d * q + r,
        ;
        vstd::arithmetic::div_mod::lemma_fundamental_div_mod_converse(y - 1, d, q, r - 1);
    }
}

proof fn lemma_year(y: int)
    ensures
        days_before_year(y + 1) == days_before_year(y) + (if is_leap(y) {
            366int
        } else {
            365int
        }),
{
    lemma_quotient_step(y, 4);
    lemma_quotient_step(y, 100);
    lemma_quotient_step(y, 400);
    assert(y % 400 == 0 ==> y % 100 == 0);
    assert(y % 100 == 0 ==> y % 4 == 0);
}

proof fn lemma_years_ascend(a: int, b: int)
    requires
        a < b,
    ensures
        days_before_year(a) + (if is_leap(a) {
            366int
        } else {
            365int
        }) <= days_before_year(b),
    decreases b - a,
{
    if a + 1 < b {
        lemma_years_ascend(a, b - 1);
        lemma_year(b - 1);
    } else {
        lemma_year(a);
    }
}

/// A later date has a higher day number.
pub proof fn law_day_numbers_ascend(a: Date, b: Date)
    requires
        a.valid(),
        b.valid(),
        a.year < b.year || (a.year == b.year && (a.month < b.month || (a.month == b.month && a.day
            < b.day))),
    ensures
        a.day_number() < b.day_number(),
{
    lemma_month(a.year as int, a.month as int);
    lemma_month(b.year as int, b.month as int);
    if a.year < b.year {
        lemma_years_ascend(a.year as int, b.year as int);
    } else if a.month < b.month {
        lemma_months_ascend(a.year as int, a.month as int, b.month as int);
    }
}

proof fn lemma_same_day_number(a: Date, b: Date)
    requires
        a.valid(),
        b.valid(),
        a.day_number() == b.day_number(),
    ensures
        a == b,
{
    if a.year < b.year || (a.year == b.year && (a.month < b.month || (a.month == b.month && a.day
        < b.day))) {
        law_day_numbers_ascend(a, b);
    }
    if b.year < a.year || (b.year == a.year && (b.month < a.month || (b.month == a.month && b.day
        < a.day))) {
        law_day_numbers_ascend(b, a);
    }
}

/// A day number belongs to one date only, so that the conversion of a date to
/// its day number and back gives the date again.
pub proof fn law_day_number_identifies_date(date: Date)
    requires
        date.valid(),
    ensures
        date_at(date.day_number()) == date,
{
    lemma_same_day_number(date, date_at(date.day_number()));
}

/// Every date has a day number within the range of the conversions.
pub proof fn law_day_number_in_range(a: Date)
    requires
        a.valid(),
    ensures
        first_day() <= a.day_number() <= last_day(),
{
    lemma_month(a.year as int, a.month as int);
    if FIRST_YEAR < a.year {
        lemma_years_ascend(FIRST_YEAR as int, a.year as int);
    }
    lemma_years_ascend(a.year as int, LAST_YEAR + 1);
}

/// The day number of a date is one that can be turned back, and turning it back
/// gives the date again.
pub proof fn law_ce_round_trip(date: Date)
    requires
        date.valid(),
    ensures
        first_day() <= date.day_number() <= last_day(),
        date_at(date.day_number()) == date,
{
    law_day_number_in_range(date);
    law_day_number_identifies_date(date);
}

/// Every day number in range has a date, whose day number it is.
pub proof fn law_every_day_has_a_date(n: int)
    requires
        first_day() <= n <= last_day(),
    ensures
        date_at(n).valid(),
        date_at(n).day_number() == n,
{
    let year = lemma_year_of(n, FIRST_YEAR as int);
    lemma_year(year);
    reveal_with_fuel(days_before_month, 13);
    let month = lemma_month_of(year, n - days_before_year(year), 1);
    let day = n - days_before_year(year) - days_before_month(year, month) + 1;
    let date = Date { year: year as i32, month: month as u32, day: day as u32 };
    assert(date.valid() && date.day_number() == n);
}

proof fn lemma_year_of(n: int, from: int) -> (year: int)
    requires
        FIRST_YEAR <= from <= LAST_YEAR,
        days_before_year(from) <= n <= last_day(),
    ensures
        from <= year <= LAST_YEAR,
        days_before_year(year) <= n < days_before_year(year + 1),
    decreases LAST_YEAR - from,
{
    if n < days_before_year(from + 1) {
        from
    } else {
        lemma_year_of(n, from + 1)
    }
}

proof fn lemma_month_of(year: int, day: int, from: int) -> (month: int)
    requires
        1 <= from <= 12,
        days_before_month(year, from) <= day < days_before_month(year, 12) + days_in_month(year, 12),
    ensures
        from <= month <= 12,
        days_before_month(year, month) <= day < days_before_month(year, month) + days_in_month(
            year,
            month,
        ),
    decreases 12 - from,
{
    if day < days_before_month(year, from) + days_in_month(year, from) {
        from
    } else {
        lemma_month_of(year, day, from + 1)
    }
}

/// 1 January 1970 has the day number of the epoch, and 1 January of the year 1
/// the number zero.
pub proof fn law_epoch()
    ensures
        (Date { year: 1970, month: 1, day: 1 }).day_number() == EPOCH_DAY,
        (Date { year: 1, month: 1, day: 1 }).day_number() == 0,
{
    reveal_with_fuel(days_before_month, 2);
}

/// The day after a date has the next number: it is the next day of the month,
/// or the first of the next month where the month is over, or the first of
/// January where the year is. February has 29 days in every fourth year but
/// for those of the centuries that 400 does not divide, and 28 else.
pub proof fn law_next_day(a: Date, b: Date)
    requires
        a.valid(),
        b.valid(),
        b.day_number() == a.day_number() + 1,
    ensures
        ({
            let length = if a.month == 2 {
                if a.year as int % 400 == 0 || (a.year as int % 4 == 0 && a.year as int % 100
                    != 0) {
                    29int
                } else {
                    28
                }
            } else if a.month == 4 || a.month == 6 || a.month == 9 || a.month == 11 {
                30
            } else {
                31
            };
            &&& a.day < length ==> b == (Date { day: (a.day + 1) as u32, ..a })
            &&& a.day == length && a.month < 12 ==> b == (Date {
                year: a.year,
                month: (a.month + 1) as u32,
                day: 1,
            })
            &&& a.day == length && a.month == 12 ==> b == (Date {
                year: (a.year + 1) as i32,
                month: 1,
                day: 1,
            })
            &&& a.day <= length
        }),
{
    let year = a.year as int;
    let month = a.month as int;
    assert(year % 400 == 0 ==> year % 100 == 0 && year % 4 == 0);
    if a.day < days_in_month(year, month) {
        let next = Date { day: (a.day + 1) as u32, ..a };
        lemma_same_day_number(next, b);
    } else if a.month < 12 {
        let next = Date { year: a.year, month: (a.month + 1) as u32, day: 1 };
        assert(next.valid());
        assert(days_before_month(year, month + 1) == days_before_month(year, month)
            + days_in_month(year, month));
        lemma_same_day_number(next, b);
    } else {
        reveal_with_fuel(days_before_month, 13);
        lemma_year(year);
        if a.year < LAST_YEAR {
            let next = Date { year: (a.year + 1) as i32, month: 1, day: 1 };
            lemma_same_day_number(next, b);
        } else {
            law_day_number_in_range(b);
        }
    }
}

/// The text of a date of the years 0 to 9999 has ten characters, and its year,
/// month and day read back from their places.
pub proof fn law_date_text_reads_back(date: Date)
    requires
        date.valid(),
        0 <= date.year <= 9999,
    ensures
        ({
            let s = date.text();
            &&& s.len() == 10
            &&& s[4] == '-'
            &&& s[7] == '-'
            &&& crate::text::value_of(s.subrange(0, 4)) == date.year
            &&& crate::text::value_of(s.subrange(5, 7)) == date.month
            &&& crate::text::value_of(s.subrange(8, 10)) == date.day
        }),
{
    let s = date.text();
    let y = crate::text::zero_padded(date.year as nat, 4);
    let m = crate::text::zero_padded(date.month as nat, 2);
    let d = crate::text::zero_padded(date.day as nat, 2);
    crate::text::law_padded_reads_back(date.year as nat, 4);
    crate::text::law_padded_reads_back(date.month as nat, 2);
    crate::text::law_padded_reads_back(date.day as nat, 2);
    reveal_with_fuel(vstd::arithmetic::power::pow, 5);
    assert(s.subrange(0, 4) =~= y);
    assert(s.subrange(5, 7) =~= m);
    assert(s.subrange(8, 10) =~= d);
}

} // verus!
