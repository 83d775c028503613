use vstd::prelude::*;
use crate::text::{
    chars_of, int_in_range, lemma_digits_of_len, lemma_padded, padded, parse_int, partition,
    push_char, push_padded, split_first, lemma_split_first, is_digit,
};

verus! {

/// Year `y` of the Gregorian calendar has a 29th of February.
pub open spec fn is_leap(y: int) -> bool {
    y % 4 == 0 && (y % 100 != 0 || y % 400 == 0)
}

/// The number of days of month `m` (1 to 12), in a leap year or not.
pub open spec fn month_length(m: int, leap: bool) -> int {
    if m == 2 {
        if leap {
            29
        } else {
            28
        }
    } else if m == 4 || m == 6 || m == 9 || m == 11 {
        30
    } else {
        31
    }
}

/// The number of days of month `m` (1 to 12) in year `y`.
pub open spec fn days_in(y: int, m: int) -> int {
    month_length(m, is_leap(y))
}

/// `(y, m, d)` names a day of the calendar, with a year that fits in an `i32`.
pub open spec fn valid_ymd(y: int, m: int, d: int) -> bool {
    i32::MIN <= y <= i32::MAX && 1 <= m <= 12 && 1 <= d <= days_in(y, m)
}

/// The day after `(y, m, d)`.
pub open spec fn next_ymd(t: (int, int, int)) -> (int, int, int) {
    let (y, m, d) = t;
    if d == days_in(y, m) {
        if m == 12 {
            (y + 1, 1, 1)
        } else {
            (y, m + 1, 1)
        }
    } else {
        (y, m, d + 1)
    }
}

/// The day before `(y, m, d)`.
pub open spec fn prev_ymd(t: (int, int, int)) -> (int, int, int) {
    let (y, m, d) = t;
    if d == 1 {
        if m == 1 {
            (y - 1, 12, 31)
        } else {
            (y, m - 1, days_in(y, m - 1))
        }
    } else {
        (y, m, d - 1)
    }
}

/// A year of the Gregorian calendar.
#[derive(Clone, Copy, Debug, PartialEq, Eq, Structural, PartialOrd, Ord, Hash)]
pub struct Year {
    year: i32,
}

/// A month of the year.
#[derive(Clone, Copy, Debug, PartialEq, Eq, Structural, PartialOrd, Ord, Hash)]
pub enum Month {
    January,
    February,
    March,
    April,
    May,
    June,
    July,
    August,
    September,
    October,
    November,
    December,
}

/// A month of a given year.
#[derive(Clone, Copy, Debug, PartialEq, Eq, Structural, PartialOrd, Ord, Hash)]
pub struct YearMonth {
    year: Year,
    month: Month,
}

/// A day of the calendar: the day always exists in its month.
#[derive(Clone, Copy, Debug, PartialEq, Eq, Structural, PartialOrd, Ord, Hash)]
pub struct Date {
    year: Year,
    month: Month,
    day: u8,
}

impl Date {
    #[verifier::type_invariant]
    spec fn inv(self) -> bool {
        1 <= self.day <= days_in(self.year@, self.month.number())
    }
}

impl View for Year {
    type V = int;

    closed spec fn view(&self) -> int {
        self.year as int
    }
}

impl View for YearMonth {
    type V = (int, int);

    closed spec fn view(&self) -> (int, int) {
        (self.year@, self.month.number())
    }
}

impl View for Date {
    type V = (int, int, int);

    closed spec fn view(&self) -> (int, int, int) {
        (self.year@, self.month.number(), self.day as int)
    }
}

impl Month {
    /// The month's number, January being 1.
    pub open spec fn number(self) -> int {
        match self {
            Month::January => 1,
            Month::February => 2,
            Month::March => 3,
            Month::April => 4,
            Month::May => 5,
            Month::June => 6,
            Month::July => 7,
            Month::August => 8,
            Month::September => 9,
            Month::October => 10,
            Month::November => 11,
            Month::December => 12,
        }
    }

    pub fn new(month: u8) -> (r: Result<Month, InvalidMonthNumber>)
        ensures
            1 <= month <= 12 <==> r is Ok,
            r matches Ok(m) ==> m.number() == month,
            r matches Err(e) ==> e.number == month,
    {
        match month {
            1 => Ok(Month::January),
            2 => Ok(Month::February),
            3 => Ok(Month::March),
            4 => Ok(Month::April),
            5 => Ok(Month::May),
            6 => Ok(Month::June),
            7 => Ok(Month::July),
            8 => Ok(Month::August),
            9 => Ok(Month::September),
            10 => Ok(Month::October),
            11 => Ok(Month::November),
            12 => Ok(Month::December),
            number => Err(InvalidMonthNumber { number }),
        }
    }

    pub fn as_number(self) -> (r: u8)
        ensures
            r == self.number(),
    {
        match self {
            Month::January => 1,
            Month::February => 2,
            Month::March => 3,
            Month::April => 4,
            Month::May => 5,
            Month::June => 6,
            Month::July => 7,
            Month::August => 8,
            Month::September => 9,
            Month::October => 10,
            Month::November => 11,
            Month::December => 12,
        }
    }

    /// The month after this one; January after December.
    pub fn wrapping_next(self) -> (r: Month)
        ensures
            r.number() == if self.number() == 12 {
                1
            } else {
                self.number() + 1
            },
    {
        match self {
            Month::January => Month::February,
            Month::February => Month::March,
            Month::March => Month::April,
            Month::April => Month::May,
            Month::May => Month::June,
            Month::June => Month::July,
            Month::July => Month::August,
            Month::August => Month::September,
            Month::September => Month::October,
            Month::October => Month::November,
            Month::November => Month::December,
            Month::December => Month::January,
        }
    }

    /// The month before this one; December before January.
    pub fn wrapping_prev(self) -> (r: Month)
        ensures
            r.number() == if self.number() == 1 {
                12
            } else {
                self.number() - 1
            },
    {
        match self {
            Month::January => Month::December,
            Month::February => Month::January,
            Month::March => Month::February,
            Month::April => Month::March,
            Month::May => Month::April,
            Month::June => Month::May,
            Month::July => Month::June,
            Month::August => Month::July,
            Month::September => Month::August,
            Month::October => Month::September,
            Month::November => Month::October,
            Month::December => Month::November,
        }
    }
}

pub proof fn lemma_month_injective(a: Month, b: Month)
    ensures
        a.number() == b.number() ==> a == b,
{
}

impl Year {
    pub fn new(year: i32) -> (r: Year)
        ensures
            r@ == year,
    {
        Year { year }
    }

    pub fn as_number(self) -> (r: i32)
        ensures
            r == self@,
    {
        self.year
    }

    pub fn has_leap_day(self) -> (r: bool)
        ensures
            r == is_leap(self@),
    {
        let y = self.year;
        y % 4 == 0 && (y % 100 != 0 || y % 400 == 0)
    }

    pub fn next(self) -> (r: Year)
        requires
            self@ < i32::MAX,
        ensures
            r@ == self@ + 1,
    {
        Year::new(self.year + 1)
    }

    pub fn prev(self) -> (r: Year)
        requires
            self@ > i32::MIN,
        ensures
            r@ == self@ - 1,
    {
        Year::new(self.year - 1)
    }

    pub fn with_month(self, month: Month) -> (r: YearMonth)
        ensures
            r@ == (self@, month.number()),
    {
        YearMonth::new(self, month)
    }

    pub fn first_month(self) -> (r: YearMonth)
        ensures
            r@ == (self@, 1int),
    {
        self.with_month(Month::January)
    }

    pub fn last_month(self) -> (r: YearMonth)
        ensures
            r@ == (self@, 12int),
    {
        self.with_month(Month::December)
    }

    /// The first of January of this year.
    pub fn first_day(self) -> (r: Date)
        ensures
            r@ == (self@, 1int, 1int),
    {
        Date { year: self, month: Month::January, day: 1 }
    }

    /// The 31st of December of this year.
    pub fn last_day(self) -> (r: Date)
        ensures
            r@ == (self@, 12int, 31int),
    {
        Date { year: self, month: Month::December, day: 31 }
    }
}

impl YearMonth {
    pub fn new(year: Year, month: Month) -> (r: YearMonth)
        ensures
            r@ == (year@, month.number()),
    {
        YearMonth { year, month }
    }

    pub fn year(self) -> (r: Year)
        ensures
            r@ == self@.0,
    {
        self.year
    }

    pub fn month(self) -> (r: Month)
        ensures
            r.number() == self@.1,
    {
        self.month
    }

    /// The number of days in this month.
    pub fn total_days(self) -> (r: u8)
        ensures
            r == days_in(self@.0, self@.1),
    {
        match self.month {
            Month::January => 31,
            Month::February => if self.year.has_leap_day() {
                29
            } else {
                28
            },
            Month::March => 31,
            Month::April => 30,
            Month::May => 31,
            Month::June => 30,
            Month::July => 31,
            Month::August => 31,
            Month::September => 30,
            Month::October => 31,
            Month::November => 30,
            Month::December => 31,
        }
    }

    /// The month after this one.
    pub fn next(self) -> (r: YearMonth)
        requires
            self@.1 < 12 || self@.0 < i32::MAX,
        ensures
            r@ == if self@.1 == 12 {
                (self@.0 + 1, 1int)
            } else {
                (self@.0, self@.1 + 1)
            },
    {
        if self.month == Month::December {
            YearMonth::new(self.year.next(), Month::January)
        } else {
            YearMonth::new(self.year, self.month.wrapping_next())
        }
    }

    /// The month before this one.
    pub fn prev(self) -> (r: YearMonth)
        requires
            self@.1 > 1 || self@.0 > i32::MIN,
        ensures
            r@ == if self@.1 == 1 {
                (self@.0 - 1, 12int)
            } else {
                (self@.0, self@.1 - 1)
            },
    {
        if self.month == Month::January {
            YearMonth::new(self.year.prev(), Month::December)
        } else {
            YearMonth::new(self.year, self.month.wrapping_prev())
        }
    }

    /// The given day of this month, where the month has it.
    pub fn with_day(self, day: u8) -> (r: Result<Date, InvalidDayForMonth>)
        ensures
            r is Ok <==> 1 <= day <= days_in(self@.0, self@.1),
            r matches Ok(d) ==> d@ == (self@.0, self@.1, day as int),
            r matches Err(e) ==> e.year@ == self@.0 && e.month.number() == self@.1 && e.day
                == day,
    {
        InvalidDayForMonth::check(self.year, self.month, day)?;
        Ok(Date { year: self.year, month: self.month, day })
    }

    pub fn first_day(self) -> (r: Date)
        ensures
            r@ == (self@.0, self@.1, 1int),
    {
        Date { year: self.year, month: self.month, day: 1 }
    }

    pub fn last_day(self) -> (r: Date)
        ensures
            r@ == (self@.0, self@.1, days_in(self@.0, self@.1)),
    {
        Date { year: self.year, month: self.month, day: self.total_days() }
    }
}

impl Date {
    pub fn new(year: i32, month: u8, day: u8) -> (r: Result<Date, InvalidDate>)
        ensures
            r is Ok <==> valid_ymd(year as int, month as int, day as int),
            r matches Ok(d) ==> d@ == (year as int, month as int, day as int),
            r matches Err(e) ==> date_error(e, year as int, month as int, day as int),
    {
        let month = match Month::new(month) {
            Ok(m) => m,
            Err(e) => return Err(InvalidDate::InvalidMonthNumber(e)),
        };
        match YearMonth::new(Year::new(year), month).with_day(day) {
            Ok(d) => Ok(d),
            Err(e) => Err(InvalidDate::InvalidDayForMonth(e)),
        }
    }

    pub fn year(self) -> (r: Year)
        ensures
            r@ == self@.0,
    {
        self.year
    }

    pub fn month(self) -> (r: Month)
        ensures
            r.number() == self@.1,
    {
        self.month
    }

    /// The day of the month; every date names a day of the calendar.
    pub fn day(self) -> (r: u8)
        ensures
            r == self@.2,
            valid_ymd(self@.0, self@.1, self@.2),
    {
        proof {
            use_type_invariant(&self);
        }
        self.day
    }

    pub fn year_month(self) -> (r: YearMonth)
        ensures
            r@ == (self@.0, self@.1),
    {
        YearMonth::new(self.year, self.month)
    }
}

/// `e` is the error for the numbers `(y, m, d)`, which name no day: a month outside 1 to 12
/// with its number, or else the year, month and day of a day that the month does not have.
pub open spec fn date_error(e: InvalidDate, y: int, m: int, d: int) -> bool {
    match e {
        InvalidDate::InvalidMonthNumber(x) => !(1 <= m <= 12) && x.number == m,
        InvalidDate::InvalidDayForMonth(x) => 1 <= m <= 12 && x.year@ == y && x.month.number()
            == m && x.day == d,
    }
}

/// The year, month and day that `s` writes as `Y-M-D`, each part read as an `i32`: split at
/// the first two `-`.
pub open spec fn ledger_date_fields(s: Seq<char>) -> Option<(int, int, int)> {
    match split_first(s, '-') {
        Some((y, rest)) => match split_first(rest, '-') {
            Some((m, d)) => match (
                int_in_range(y, true, i32::MIN as int, i32::MAX as int),
                int_in_range(m, true, i32::MIN as int, i32::MAX as int),
                int_in_range(d, true, i32::MIN as int, i32::MAX as int),
            ) {
                (Some(a), Some(b), Some(c)) => Some((a, b, c)),
                _ => None,
            },
            None => None,
        },
        None => None,
    }
}

/// The year, month and day that `s` writes as `Y-M-D`: split at the first two `-`, each part
/// an integer that fits the field (`i16`, `u8`, `u8`).
pub open spec fn date_fields(s: Seq<char>) -> Option<(int, int, int)> {
    match split_first(s, '-') {
        Some((y, rest)) => match split_first(rest, '-') {
            Some((m, d)) => match (
                int_in_range(y, true, i16::MIN as int, i16::MAX as int),
                int_in_range(m, false, 0, 255),
                int_in_range(d, false, 0, 255),
            ) {
                (Some(a), Some(b), Some(c)) => Some((a, b, c)),
                _ => None,
            },
            None => None,
        },
        None => None,
    }
}

/// The text of a year: at least four digits, or a minus sign and at least three.
pub open spec fn year_text(y: int) -> Seq<char> {
    if y < 0 {
        seq!['-'] + padded((-y) as nat, 3)
    } else {
        padded(y as nat, 4)
    }
}

/// The text `YYYY-MM-DD` of a date.
pub open spec fn date_text(t: (int, int, int)) -> Seq<char> {
    year_text(t.0) + seq!['-'] + padded(t.1 as nat, 2) + seq!['-'] + padded(t.2 as nat, 2)
}

impl Date {

    /// The day after this one.
    pub fn next(self) -> (r: Date)
        requires
            self@ != (i32::MAX as int, 12int, 31int),
        ensures
            r@ == next_ymd(self@),
    {
        proof {
            use_type_invariant(&self);
        }
        let ym = self.year_month();
        if self.day == ym.total_days() {
            ym.next().first_day()
        } else {
            Date { year: self.year, month: self.month, day: self.day + 1 }
        }
    }

    /// The day before this one.
    pub fn prev(self) -> (r: Date)
        requires
            self@ != (i32::MIN as int, 1int, 1int),
        ensures
            r@ == prev_ymd(self@),
    {
        proof {
            use_type_invariant(&self);
        }
        if self.day == 1 {
            self.year_month().prev().last_day()
        } else {
            Date { year: self.year, month: self.month, day: self.day - 1 }
        }
    }

    /// Reads a date written `YYYY-MM-DD`.
    pub fn from_str(data: &str) -> (r: Result<Date, DateParseError>)
        ensures
            match date_fields(data@) {
                None => match r {
                    Err(DateParseError::InvalidDateSyntax(e)) => e.data@ == data@,
                    _ => false,
                },
                Some(t) => if valid_ymd(t.0, t.1, t.2) {
                    match r {
                        Ok(d) => d@ == t,
                        _ => false,
                    }
                } else {
                    match r {
                        Err(DateParseError::InvalidDate(e)) => date_error(e, t.0, t.1, t.2),
                        _ => false,
                    }
                },
            },
    {
        let s = chars_of(data);
        let fields = match partition(&s, '-') {
            Some((y, rest)) => match partition(&rest, '-') {
                Some((m, d)) => {
                    let year = parse_int(&y, true, -32768, 32767);
                    let month = parse_int(&m, false, 0, 255);
                    let day = parse_int(&d, false, 0, 255);
                    match (year, month, day) {
                        (Some(a), Some(b), Some(c)) => Some((a as i32, b as u8, c as u8)),
                        _ => None,
                    }
                },
                None => None,
            },
            None => None,
        };
        match fields {
            Some((y, m, d)) => match Date::new(y, m, d) {
                Ok(date) => Ok(date),
                Err(e) => Err(DateParseError::InvalidDate(e)),
            },
            None => Err(DateParseError::InvalidDateSyntax(InvalidDateSyntax { data: data.to_owned() })),
        }
    }

    /// The text `YYYY-MM-DD` of this date; a year before 0 reads `-YYY`.
    pub fn to_string(&self) -> (r: String)
        ensures
            r@ == date_text(self@),
    {
        proof {
            use_type_invariant(self);
        }
        let mut out = String::new();
        if self.year.year < 0 {
            push_char(&mut out, '-');
            push_padded(&mut out, (0 - self.year.year as i64) as u32, 3);
        } else {
            push_padded(&mut out, self.year.year as u32, 4);
        }
        push_char(&mut out, '-');
        push_padded(&mut out, self.month.as_number() as u32, 2);
        push_char(&mut out, '-');
        push_padded(&mut out, self.day as u32, 2);
        assert(out@ =~= date_text(self@));
        out
    }
}

/// Year `year` has a 29th of February.
pub fn is_leap_year(year: i32) -> (r: bool)
    ensures
        r == is_leap(year as int),
{
    year % 4 == 0 && (year % 100 != 0 || year % 400 == 0)
}

/// The number of days of month `month` (1 to 12), in a leap year or not.
pub fn days_in_month(month: i32, leap_year: bool) -> (r: i32)
    requires
        1 <= month <= 12,
    ensures
        r == month_length(month as int, leap_year),
{
    match month {
        1 => 31,
        2 => if leap_year {
            29
        } else {
            28
        },
        3 => 31,
        4 => 30,
        5 => 31,
        6 => 30,
        7 => 31,
        8 => 31,
        9 => 30,
        10 => 31,
        11 => 30,
        _ => 31,
    }
}

impl Date {
    /// The date with these numbers, where they name a day of the calendar.
    pub fn from_parts(year: i32, month: i32, day: i32) -> (r: Result<Date, ()>)
        ensures
            r is Ok <==> 1 <= month <= 12 && 1 <= day <= days_in(year as int, month as int),
            r matches Ok(d) ==> d@ == (year as int, month as int, day as int),
    {
        if month < 1 || month > 12 || day < 1 || day > 31 {
            return Err(());
        }
        match Date::new(year, month as u8, day as u8) {
            Ok(d) => Ok(d),
            Err(_) => Err(()),
        }
    }

    /// Reads a date written `Y-M-D`, each part an `i32`, telling only whether it is one.
    pub fn parse_from_str(data: &str) -> (r: Result<Date, ()>)
        ensures
            match ledger_date_fields(data@) {
                Some(t) => if 1 <= t.1 <= 12 && 1 <= t.2 <= days_in(t.0, t.1) {
                    match r {
                        Ok(d) => d@ == t,
                        _ => false,
                    }
                } else {
                    r is Err
                },
                None => r is Err,
            },
    {
        let s = chars_of(data);
        match partition(&s, '-') {
            Some((y, rest)) => match partition(&rest, '-') {
                Some((m, d)) => {
                    let year = parse_int(&y, true, -0x8000_0000, 0x7fff_ffff);
                    let month = parse_int(&m, true, -0x8000_0000, 0x7fff_ffff);
                    let day = parse_int(&d, true, -0x8000_0000, 0x7fff_ffff);
                    match (year, month, day) {
                        (Some(a), Some(b), Some(c)) => Date::from_parts(a as i32, b as i32, c as i32),
                        _ => Err(()),
                    }
                },
                None => Err(()),
            },
            None => Err(()),
        }
    }

    /// The year of this date has a 29th of February.
    pub fn is_leap_year(self) -> (r: bool)
        ensures
            r == is_leap(self@.0),
    {
        self.year.has_leap_day()
    }

    /// The last day of this date's month.
    pub fn last_day_of_month(self) -> (r: Date)
        ensures
            r@ == (self@.0, self@.1, days_in(self@.0, self@.1)),
    {
        self.year_month().last_day()
    }

    /// The last day of this date's year.
    pub fn last_day_of_year(self) -> (r: Date)
        ensures
            r@ == (self@.0, 12int, 31int),
    {
        self.year.last_day()
    }

    /// The first day of the month after this date's.
    pub fn first_day_next_month(self) -> (r: Date)
        requires
            self@.1 < 12 || self@.0 < i32::MAX,
        ensures
            r@ == if self@.1 == 12 {
                (self@.0 + 1, 1int, 1int)
            } else {
                (self@.0, self@.1 + 1, 1int)
            },
    {
        self.year_month().next().first_day()
    }

    /// The first day of the year after this date's.
    pub fn first_day_next_year(self) -> (r: Date)
        requires
            self@.0 < i32::MAX,
        ensures
            r@ == (self@.0 + 1, 1int, 1int),
    {
        self.year.next().first_day()
    }

    /// The day after this one.
    pub fn next_day(self) -> (r: Date)
        requires
            self@ != (i32::MAX as int, 12int, 31int),
        ensures
            r@ == next_ymd(self@),
    {
        self.next()
    }
}

/// Two dates with the same year, month and day are equal.
pub proof fn lemma_date_view_injective(a: Date, b: Date)
    ensures
        a@ == b@ ==> a == b,
{
    lemma_month_injective(a.month, b.month);
}

/// The day after a date, and then the day before that, is the date itself; likewise the other
/// way round. Both hold of every date but the last (or first) one that a year of `i32` can hold.
pub proof fn lemma_next_prev(t: (int, int, int))
    requires
        valid_ymd(t.0, t.1, t.2),
    ensures
        t != (i32::MAX as int, 12int, 31int) ==> valid_ymd(next_ymd(t).0, next_ymd(t).1, next_ymd(t).2)
            && prev_ymd(next_ymd(t)) == t,
        t != (i32::MIN as int, 1int, 1int) ==> valid_ymd(prev_ymd(t).0, prev_ymd(t).1, prev_ymd(t).2)
            && next_ymd(prev_ymd(t)) == t,
{
}

/// A date of a year from 0 on, written as text and read back, is the same date: as a ledger
/// date always, and as a calendar text where the year fits the `i16` that it reads.
pub proof fn lemma_date_text_round_trip(t: (int, int, int))
    requires
        valid_ymd(t.0, t.1, t.2),
        t.0 >= 0,
    ensures
        ledger_date_fields(date_text(t)) == Some(t),
        t.0 <= i16::MAX ==> date_fields(date_text(t)) == Some(t),
{
    let y = year_text(t.0);
    let m = padded(t.1 as nat, 2);
    let d = padded(t.2 as nat, 2);
    lemma_padded(t.0 as nat, 4);
    lemma_padded(t.1 as nat, 2);
    lemma_padded(t.2 as nat, 2);
    lemma_digits_of_len(t.1 as nat);
    lemma_digits_of_len(t.2 as nat);
    let s = date_text(t);
    let rest = m + seq!['-'] + d;
    assert(s =~= y + seq!['-'] + rest);
    assert(y[0] != '-' && y[0] != '+') by {
        assert(is_digit(y[0]));
    }
    assert(crate::text::is_first(s, '-', y.len() as int)) by {
        assert forall|j: int| 0 <= j < y.len() implies s[j] != '-' by {
            assert(s[j] == y[j]);
            assert(is_digit(y[j]));
        }
    }
    lemma_split_first(s, '-', y.len() as int);
    assert(s.take(y.len() as int) =~= y);
    assert(s.skip(y.len() as int + 1) =~= rest);
    assert(crate::text::is_first(rest, '-', m.len() as int)) by {
        assert forall|j: int| 0 <= j < m.len() implies rest[j] != '-' by {
            assert(rest[j] == m[j]);
            assert(is_digit(m[j]));
        }
    }
    lemma_split_first(rest, '-', m.len() as int);
    assert(rest.take(m.len() as int) =~= m);
    assert(rest.skip(m.len() as int + 1) =~= d);
    assert(m[0] != '-' && m[0] != '+') by {
        assert(is_digit(m[0]));
    }
    assert(d[0] != '-' && d[0] != '+') by {
        assert(is_digit(d[0]));
    }
}

/// The reasons that a text is not a date.
#[derive(Clone, Debug, PartialEq, Eq)]
pub enum DateParseError {
    InvalidDateSyntax(InvalidDateSyntax),
    InvalidDate(InvalidDate),
}

/// The text does not have the shape `YYYY-MM-DD`.
#[derive(Clone, Debug, PartialEq, Eq)]
pub struct InvalidDateSyntax {
    pub data: String,
}

/// Numbers that name no day of the calendar.
#[derive(Clone, Debug, PartialEq, Eq)]
pub enum InvalidDate {
    InvalidMonthNumber(InvalidMonthNumber),
    InvalidDayForMonth(InvalidDayForMonth),
}

/// A month number outside 1 to 12.
#[derive(Clone, Debug, PartialEq, Eq)]
pub struct InvalidMonthNumber {
    pub number: u8,
}

/// A day that the month does not have.
#[derive(Clone, Debug, PartialEq, Eq)]
pub struct InvalidDayForMonth {
    pub year: Year,
    pub month: Month,
    pub day: u8,
}

impl InvalidDayForMonth {
    pub fn check(year: Year, month: Month, day: u8) -> (r: Result<(), InvalidDayForMonth>)
        ensures
            r is Ok <==> 1 <= day <= days_in(year@, month.number()),
            r matches Err(e) ==> e.year == year && e.month == month && e.day == day,
    {
        if day < 1 || day > YearMonth::new(year, month).total_days() {
            Err(InvalidDayForMonth { year, month, day })
        } else {
            Ok(())
        }
    }
}

} // verus!
