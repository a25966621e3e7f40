//! Calendar dates and the weeks they fall in.
//!
//! A [`Date`] is a day of the proleptic Gregorian calendar, held as its day
//! number: 1 is January 1 of year 1, a Monday, and consecutive days have
//! consecutive numbers. Weeks run from Monday to Sunday. Everything that
//! relates a day number to text or to year, month and day is computed by
//! `chrono`; the arithmetic of weeks is proved here.

use chrono::format::ParseError;
use chrono::{Datelike, Days, NaiveDate};
use crate::format::digit_char;
use vstd::prelude::*;

verus! {

/// Day number of the earliest day `chrono::NaiveDate` can hold.
pub const EARLIEST_DAY: i32 = -95_746_129;

/// Day number of the first Monday that `chrono::NaiveDate` can hold. No
/// [`Date`] is earlier, so that every date has the Monday of its week.
pub const FIRST_DAY: i32 = -95_746_125;

/// Day number of the last day that `chrono::NaiveDate` can hold.
pub const LAST_DAY: i32 = 95_745_399;

/// Position of day `day` within its week: 0 for Monday up to 6 for Sunday.
pub open spec fn weekday_index(day: int) -> int {
    (day - 1) % 7
}

/// Day number of the Monday that starts the week containing day `day`.
pub open spec fn week_start_day(day: int) -> int {
    day - weekday_index(day)
}

/// Whether `day` is the number of a day that a [`Date`] can hold.
pub open spec fn is_date_day(day: int) -> bool {
    FIRST_DAY <= day <= LAST_DAY
}

/// The day number that `chrono` reads from `text` under the format
/// `%Y-%m-%d`, or `None` where it reads no date.
pub uninterp spec fn iso_day_number(text: Seq<char>) -> Option<int>;

/// The day number of the calendar date `year`-`month`-`day` according to
/// `chrono`, or `None` where there is no such date.
pub uninterp spec fn civil_day_number(year: int, month: int, day: int) -> Option<int>;

/// The year in which day `day` falls according to `chrono`.
pub uninterp spec fn civil_year(day: int) -> int;

/// The month (1 to 12) in which day `day` falls according to `chrono`.
pub uninterp spec fn civil_month(day: int) -> int;

/// The day of the month (1 to 31) of day `day` according to `chrono`.
pub uninterp spec fn civil_day(day: int) -> int;

/// The text `chrono` prints for day `day` (`YYYY-MM-DD` for the years 0 to
/// 9999).
pub uninterp spec fn iso_text(day: int) -> Seq<char>;

/// The two decimal digits of `n`, with a leading zero; `n` is below 100.
pub open spec fn two_digits(n: int) -> Seq<char> {
    seq![digit_char(n / 10), digit_char(n % 10)]
}

/// `year`-`month`-`day` written `YYYY-MM-DD`, each number in full with
/// leading zeros; `year` is from 0 to 9999.
pub open spec fn date_text(year: int, month: int, day: int) -> Seq<char> {
    two_digits(year / 100) + two_digits(year % 100) + seq!['-'] + two_digits(month) + seq!['-']
        + two_digits(day)
}

/// Whether `text` is `year`-`month`-`day` written `YYYY-MM-DD`, with a
/// year from 0 to 9999, a month from 1 to 12 and a day from 1 to 31.
pub open spec fn is_date_text(text: Seq<char>, year: int, month: int, day: int) -> bool {
    0 <= year <= 9999 && 1 <= month <= 12 && 1 <= day <= 31 && text == date_text(year, month, day)
}

#[verifier::external_type_specification]
#[verifier::external_body]
pub struct ExParseError(ParseError);

/// `NaiveDate::parse_from_str` with the format `%Y-%m-%d`, followed by
/// `Datelike::num_days_from_ce`. Trusted: the outcome depends on the text
/// alone; a date that was read lies within the range of `NaiveDate`; and a
/// text written `YYYY-MM-DD` is read as the date of that year, month and
/// day, if there is one.
#[verifier::external_body]
fn parse_iso_day_number(text: &str) -> (r: Result<i32, ParseError>)
    ensures
        match r {
            Ok(n) => iso_day_number(text@) == Some(n as int) && EARLIEST_DAY <= n <= LAST_DAY
                && forall|year: int, month: int, day: int| #[trigger]
                is_date_text(text@, year, month, day) ==> civil_day_number(year, month, day)
                    == Some(n as int),
            Err(_) => iso_day_number(text@) is None && forall|year: int, month: int, day: int|
             #[trigger]
                is_date_text(text@, year, month, day) ==> civil_day_number(year, month, day)
                    is None,
        },
{
    match NaiveDate::parse_from_str(text, "%Y-%m-%d") {
        Ok(date) => Ok(date.num_days_from_ce()),
        Err(error) => Err(error),
    }
}

/// `NaiveDate::from_ymd_opt`, followed by `Datelike::num_days_from_ce`.
/// Trusted: the outcome depends on the three numbers alone; a date that
/// exists lies within the range of `NaiveDate`; and its year, month and day
/// are the numbers it was made from.
#[verifier::external_body]
fn ymd_day_number(year: i32, month: u32, day: u32) -> (r: Option<i32>)
    ensures
        match r {
            Some(n) => civil_day_number(year as int, month as int, day as int) == Some(n as int)
                && EARLIEST_DAY <= n <= LAST_DAY && civil_year(n as int) == year && civil_month(
                n as int,
            ) == month && civil_day(n as int) == day,
            None => civil_day_number(year as int, month as int, day as int) is None,
        },
{
    match NaiveDate::from_ymd_opt(year, month, day) {
        Some(date) => Some(date.num_days_from_ce()),
        None => None,
    }
}

/// `Datelike::weekday` of the date with day number `day`, as
/// `Weekday::num_days_from_monday`. Trusted: day 1 is a Monday and the
/// weekdays follow one another day by day, so the number is `(day - 1) mod 7`.
#[verifier::external_body]
fn weekday_number(day: i32) -> (r: u32)
    requires
        EARLIEST_DAY <= day <= LAST_DAY,
    ensures
        r as int == weekday_index(day as int),
{
    NaiveDate::from_num_days_from_ce_opt(day).unwrap().weekday().num_days_from_monday()
}

/// `NaiveDate::checked_sub_days` on the date with day number `day`. Trusted:
/// going back `count` days lowers the day number by `count`.
#[verifier::external_body]
fn days_before(day: i32, count: u32) -> (r: i32)
    requires
        EARLIEST_DAY <= day - count,
        day <= LAST_DAY,
    ensures
        r as int == day - count,
{
    NaiveDate::from_num_days_from_ce_opt(day).unwrap().checked_sub_days(
        Days::new(count.into()),
    ).unwrap().num_days_from_ce()
}

/// `Datelike::year` of the date with day number `day`. Trusted: it is the
/// year of every year, month and day of which `day` is the date.
#[verifier::external_body]
fn year_of_day(day: i32) -> (r: i32)
    requires
        EARLIEST_DAY <= day <= LAST_DAY,
    ensures
        r as int == civil_year(day as int),
        forall|year: int, month: int, of_month: int|
            #[trigger] civil_day_number(year, month, of_month) == Some(day as int) ==> r == year,
{
    NaiveDate::from_num_days_from_ce_opt(day).unwrap().year()
}

/// `Datelike::month` of the date with day number `day`. Trusted: it lies
/// between 1 and 12 and is the month of every year, month and day of which
/// `day` is the date.
#[verifier::external_body]
fn month_of_day(day: i32) -> (r: u32)
    requires
        EARLIEST_DAY <= day <= LAST_DAY,
    ensures
        r as int == civil_month(day as int),
        1 <= r <= 12,
        forall|year: int, month: int, of_month: int|
            #[trigger] civil_day_number(year, month, of_month) == Some(day as int) ==> r == month,
{
    NaiveDate::from_num_days_from_ce_opt(day).unwrap().month()
}

/// `Datelike::day` of the date with day number `day`. Trusted: it lies
/// between 1 and 31 and is the day of every year, month and day of which
/// `day` is the date.
#[verifier::external_body]
fn day_of_month(day: i32) -> (r: u32)
    requires
        EARLIEST_DAY <= day <= LAST_DAY,
    ensures
        r as int == civil_day(day as int),
        1 <= r <= 31,
        forall|year: int, month: int, of_month: int|
            #[trigger] civil_day_number(year, month, of_month) == Some(day as int) ==> r
                == of_month,
{
    NaiveDate::from_num_days_from_ce_opt(day).unwrap().day()
}

/// The `Display` text of the `NaiveDate` with day number `day`. Trusted:
/// for a year from 0 to 9999 it is the year in four digits, the month in
/// two and the day in two, with `-` between them.
#[verifier::external_body]
fn day_text(day: i32) -> (r: String)
    requires
        EARLIEST_DAY <= day <= LAST_DAY,
    ensures
        r@ == iso_text(day as int),
        0 <= civil_year(day as int) <= 9999 ==> r@ == date_text(
            civil_year(day as int),
            civil_month(day as int),
            civil_day(day as int),
        ),
{
    NaiveDate::from_num_days_from_ce_opt(day).unwrap().to_string()
}

/// A day of the week.
#[derive(Clone, Copy, Debug, PartialEq, Eq, Structural, Hash)]
pub enum Weekday {
    Mon,
    Tue,
    Wed,
    Thu,
    Fri,
    Sat,
    Sun,
}

impl Weekday {
    /// Days since Monday: 0 for Monday up to 6 for Sunday.
    pub open spec fn index(self) -> int {
        match self {
            Weekday::Mon => 0,
            Weekday::Tue => 1,
            Weekday::Wed => 2,
            Weekday::Thu => 3,
            Weekday::Fri => 4,
            Weekday::Sat => 5,
            Weekday::Sun => 6,
        }
    }

    /// Days since Monday: 0 for Monday up to 6 for Sunday.
    pub fn num_days_from_monday(&self) -> (n: u32)
        ensures
            n as int == self.index(),
    {
        match self {
            Weekday::Mon => 0,
            Weekday::Tue => 1,
            Weekday::Wed => 2,
            Weekday::Thu => 3,
            Weekday::Fri => 4,
            Weekday::Sat => 5,
            Weekday::Sun => 6,
        }
    }
}

/// A text that is not a date this library can hold.
#[derive(Debug)]
pub struct DateError {
    /// The offending text, as it was given.
    pub value: String,
}

impl DateError {
    /// The sentence that names the offending text.
    pub open spec fn message_text(value: Seq<char>) -> Seq<char> {
        "failed to parse date '"@ + value + "'"@
    }

    /// A description of the failure that quotes the offending text.
    pub fn message(&self) -> (text: String)
        ensures
            text@ == Self::message_text(self.value@),
    {
        let mut text = String::from_str("failed to parse date '");
        text.append(self.value.as_str());
        text.append("'");
        text
    }
}

/// A calendar day between the first Monday and the last day that
/// `chrono::NaiveDate` can hold. Its view is its day number.
#[derive(Clone, Copy, Debug, PartialEq, Eq, Structural, PartialOrd, Ord, Hash)]
pub struct Date {
    day: i32,
}

impl View for Date {
    type V = int;

    closed spec fn view(&self) -> int {
        self.day as int
    }
}

impl Date {
    #[verifier::type_invariant]
    spec fn in_range(self) -> bool {
        is_date_day(self.day as int)
    }

    /// The date read from `text` under this library's rules: the date that
    /// `chrono` reads, unless it is earlier than the first Monday.
    pub open spec fn parsed(text: Seq<char>) -> Option<int> {
        match iso_day_number(text) {
            Some(n) => if is_date_day(n) {
                Some(n)
            } else {
                None
            },
            None => None,
        }
    }

    /// The day number of `year`-`month`-`day`, where that is a date this
    /// library can hold.
    pub open spec fn of_ymd(year: int, month: int, day: int) -> Option<int> {
        match civil_day_number(year, month, day) {
            Some(n) => if is_date_day(n) {
                Some(n)
            } else {
                None
            },
            None => None,
        }
    }

    /// The date with day number `day`, if there is one.
    pub fn from_num_days_from_ce_opt(day: i32) -> (r: Option<Date>)
        ensures
            match r {
                Some(d) => d@ == day && is_date_day(day as int),
                None => !is_date_day(day as int),
            },
    {
        if FIRST_DAY <= day && day <= LAST_DAY {
            Some(Date { day })
        } else {
            None
        }
    }

    /// The date `year`-`month`-`day`, if it exists and can be held.
    pub fn from_ymd_opt(year: i32, month: u32, day: u32) -> (r: Option<Date>)
        ensures
            match r {
                Some(d) => Self::of_ymd(year as int, month as int, day as int) == Some(d@)
                    && civil_year(d@) == year && civil_month(d@) == month && civil_day(d@) == day,
                None => Self::of_ymd(year as int, month as int, day as int) is None,
            },
    {
        match ymd_day_number(year, month, day) {
            Some(n) => Self::from_num_days_from_ce_opt(n),
            None => None,
        }
    }

    /// The number of this day, counting January 1 of year 1 as day 1.
    pub fn num_days_from_ce(&self) -> (n: i32)
        ensures
            n as int == self@,
            is_date_day(n as int),
    {
        proof {
            use_type_invariant(self);
        }
        self.day
    }

    /// The day of the week.
    pub fn weekday(&self) -> (w: Weekday)
        ensures
            w.index() == weekday_index(self@),
    {
        proof {
            use_type_invariant(self);
        }
        let n = weekday_number(self.day);
        if n == 0 {
            Weekday::Mon
        } else if n == 1 {
            Weekday::Tue
        } else if n == 2 {
            Weekday::Wed
        } else if n == 3 {
            Weekday::Thu
        } else if n == 4 {
            Weekday::Fri
        } else if n == 5 {
            Weekday::Sat
        } else {
            Weekday::Sun
        }
    }

    /// The Monday of the week that contains this date.
    pub fn week_start(&self) -> (monday: Date)
        ensures
            monday@ == week_start_day(self@),
            monday@ <= self@ < monday@ + 7,
            weekday_index(monday@) == 0,
            week_start_day(monday@) == monday@,
            weekday_index(self@) == 0 ==> monday == *self,
    {
        proof {
            use_type_invariant(self);
            lemma_week_start_in_range(self.day as int);
        }
        let back = weekday_number(self.day);
        Date { day: days_before(self.day, back) }
    }

    /// The year of this date.
    pub fn year(&self) -> (y: i32)
        ensures
            y as int == civil_year(self@),
            forall|year: int, month: int, day: int|
                #[trigger] civil_day_number(year, month, day) == Some(self@) ==> y == year,
    {
        proof {
            use_type_invariant(self);
        }
        year_of_day(self.day)
    }

    /// The month of this date, from 1 to 12.
    pub fn month(&self) -> (m: u32)
        ensures
            m as int == civil_month(self@),
            1 <= m <= 12,
            forall|year: int, month: int, day: int|
                #[trigger] civil_day_number(year, month, day) == Some(self@) ==> m == month,
    {
        proof {
            use_type_invariant(self);
        }
        month_of_day(self.day)
    }

    /// The day of the month of this date, from 1 to 31.
    pub fn day(&self) -> (d: u32)
        ensures
            d as int == civil_day(self@),
            1 <= d <= 31,
            forall|year: int, month: int, day: int|
                #[trigger] civil_day_number(year, month, day) == Some(self@) ==> d == day,
    {
        proof {
            use_type_invariant(self);
        }
        day_of_month(self.day)
    }

    /// This date as text, `YYYY-MM-DD` for the years 0 to 9999.
    pub fn to_iso_string(&self) -> (text: String)
        ensures
            text@ == iso_text(self@),
            0 <= civil_year(self@) <= 9999 ==> text@ == date_text(
                civil_year(self@),
                civil_month(self@),
                civil_day(self@),
            ),
    {
        proof {
            use_type_invariant(self);
        }
        day_text(self.day)
    }
}

/// Reads a date written as `YYYY-MM-DD`. Fails, quoting the text, exactly
/// where the text holds no date that this library can hold. A text that is
/// a year, a month and a day written in full is read as the date of that
/// year, month and day.
pub fn parse_date(date_str: &str) -> (r: Result<Date, DateError>)
    ensures
        match r {
            Ok(d) => Date::parsed(date_str@) == Some(d@) && forall|year: int, month: int, day: int|
             #[trigger]
                is_date_text(date_str@, year, month, day) ==> civil_day_number(year, month, day)
                    == Some(d@),
            Err(e) => Date::parsed(date_str@) is None && e.value@ == date_str@ && forall|
                year: int,
                month: int,
                day: int,
            | #[trigger]
                is_date_text(date_str@, year, month, day) ==> Date::of_ymd(year, month, day)
                    is None,
        },
{
    match parse_iso_day_number(date_str) {
        Ok(n) => match Date::from_num_days_from_ce_opt(n) {
            Some(d) => Ok(d),
            None => Err(DateError { value: String::from_str(date_str) }),
        },
        Err(_) => Err(DateError { value: String::from_str(date_str) }),
    }
}

/// The Monday of the week that contains `date`: at most six days before
/// `date`, and `date` itself where that is a Monday. The Monday of a Monday's
/// week is that Monday, so taking the start of the week twice is taking it
/// once.
pub fn get_week_start(date: Date) -> (monday: Date)
    ensures
        monday@ == week_start_day(date@),
        monday@ <= date@ < monday@ + 7,
        weekday_index(monday@) == 0,
        week_start_day(monday@) == monday@,
        weekday_index(date@) == 0 ==> monday == date,
{
    date.week_start()
}

/// The start of a week is a Monday, at most six days back, and the start of
/// its own week; a Monday starts its own week.
pub proof fn lemma_week_start(day: int)
    ensures
        week_start_day(day) <= day < week_start_day(day) + 7,
        weekday_index(week_start_day(day)) == 0,
        week_start_day(week_start_day(day)) == week_start_day(day),
        weekday_index(day) == 0 ==> week_start_day(day) == day,
        0 <= weekday_index(day) < 7,
{
}

/// The Monday of a date's week is itself a day that a date can hold.
pub proof fn lemma_week_start_in_range(day: int)
    requires
        is_date_day(day),
    ensures
        is_date_day(week_start_day(day)),
{
    assert(weekday_index(FIRST_DAY as int) == 0);
}

} // verus!
