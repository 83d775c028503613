use vstd::prelude::*;
use crate::date::{Date, InvalidDate, Month, Year, YearMonth, days_in, next_ymd, valid_ymd};
use crate::text::{chars_of, int_in_range, parse_int, partition, split_first};

verus! {

/// A year, a month of a year, or a day: a period of the calendar.
#[derive(Clone, Copy, Debug, PartialEq, Eq, Structural)]
pub enum PartialDate {
    Year(Year),
    YearMonth(YearMonth),
    YearMonthDay(Date),
}

/// The reasons that a text is not a period.
#[derive(Clone, Debug, PartialEq, Eq)]
pub enum ParsePartialDateError {
    InvalidSyntax(InvalidPartialDateSyntax),
    InvalidDate(InvalidDate),
}

/// A part of the text is not a number of its field.
#[derive(Clone, Debug, PartialEq, Eq)]
pub struct InvalidPartialDateSyntax {}

impl InvalidPartialDateSyntax {
    pub fn new() -> (r: InvalidPartialDateSyntax) {
        InvalidPartialDateSyntax {  }
    }
}

/// The year, month and day parts of `Y[-M[-D]]`: split at the first two `-`.
pub open spec fn period_parts(s: Seq<char>) -> (Seq<char>, Option<Seq<char>>, Option<Seq<char>>) {
    match split_first(s, '-') {
        None => (s, None, None),
        Some((y, r)) => match split_first(r, '-') {
            None => (y, Some(r), None),
            Some((m, d)) => (y, Some(m), Some(d)),
        },
    }
}

/// The numbers of a period `Y[-M[-D]]`, read in order; `Err(true)` where a part is no number of
/// its field, `Err(false)` where the numbers name no month or day.
pub open spec fn period_value(s: Seq<char>) -> Result<(int, Option<int>, Option<int>), bool> {
    let (y, m, d) = period_parts(s);
    match int_in_range(y, true, i16::MIN as int, i16::MAX as int) {
        None => Err(true),
        Some(yv) => match m {
            None => Ok((yv, None, None)),
            Some(m) => match int_in_range(m, false, 0, 255) {
                None => Err(true),
                Some(mv) => if !(1 <= mv <= 12) {
                    Err(false)
                } else {
                    match d {
                        None => Ok((yv, Some(mv), None)),
                        Some(d) => match int_in_range(d, false, 0, 255) {
                            None => Err(true),
                            Some(dv) => if valid_ymd(yv, mv, dv) {
                                Ok((yv, Some(mv), Some(dv)))
                            } else {
                                Err(false)
                            },
                        },
                    }
                },
            },
        },
    }
}

impl PartialDate {
    /// The first day of the period.
    pub open spec fn start(self) -> (int, int, int) {
        match self {
            PartialDate::Year(y) => (y@, 1, 1),
            PartialDate::YearMonth(m) => (m@.0, m@.1, 1),
            PartialDate::YearMonthDay(d) => d@,
        }
    }

    /// The last day of the period.
    pub open spec fn end(self) -> (int, int, int) {
        match self {
            PartialDate::Year(y) => (y@, 12, 31),
            PartialDate::YearMonth(m) => (m@.0, m@.1, days_in(m@.0, m@.1)),
            PartialDate::YearMonthDay(d) => d@,
        }
    }

    /// Reads a period written `YYYY`, `YYYY-MM` or `YYYY-MM-DD`.
    pub fn from_str(data: &str) -> (r: Result<PartialDate, ParsePartialDateError>)
        ensures
            match period_value(data@) {
                Err(true) => r matches Err(ParsePartialDateError::InvalidSyntax(_)),
                Err(false) => r matches Err(ParsePartialDateError::InvalidDate(_)),
                Ok((y, None, _)) => match r {
                    Ok(PartialDate::Year(x)) => x@ == y,
                    _ => false,
                },
                Ok((y, Some(m), None)) => match r {
                    Ok(PartialDate::YearMonth(x)) => x@ == (y, m),
                    _ => false,
                },
                Ok((y, Some(m), Some(d))) => match r {
                    Ok(PartialDate::YearMonthDay(x)) => x@ == (y, m, d),
                    _ => false,
                },
            },
    {
        let s = chars_of(data);
        let (year, rest) = match partition(&s, '-') {
            Some((y, r)) => (y, Some(r)),
            None => (s, None),
        };
        let (month, day) = match rest {
            None => (None, None),
            Some(r) => match partition(&r, '-') {
                Some((m, d)) => (Some(m), Some(d)),
                None => (Some(r), None),
            },
        };
        let year = match parse_int(&year, true, -32768, 32767) {
            Some(y) => Year::new(y as i32),
            None => return Err(ParsePartialDateError::InvalidSyntax(InvalidPartialDateSyntax::new())),
        };
        let month = match month {
            None => return Ok(PartialDate::Year(year)),
            Some(m) => match parse_int(&m, false, 0, 255) {
                Some(m) => m as u8,
                None => return Err(
                    ParsePartialDateError::InvalidSyntax(InvalidPartialDateSyntax::new()),
                ),
            },
        };
        let month = match Month::new(month) {
            Ok(m) => m,
            Err(e) => return Err(
                ParsePartialDateError::InvalidDate(InvalidDate::InvalidMonthNumber(e)),
            ),
        };
        let day = match day {
            None => return Ok(PartialDate::YearMonth(YearMonth::new(year, month))),
            Some(d) => match parse_int(&d, false, 0, 255) {
                Some(d) => d as u8,
                None => return Err(
                    ParsePartialDateError::InvalidSyntax(InvalidPartialDateSyntax::new()),
                ),
            },
        };
        match YearMonth::new(year, month).with_day(day) {
            Ok(d) => Ok(PartialDate::YearMonthDay(d)),
            Err(e) => Err(ParsePartialDateError::InvalidDate(InvalidDate::InvalidDayForMonth(e))),
        }
    }

    /// The first day of the period.
    pub fn as_start_date(self) -> (r: Date)
        ensures
            r@ == self.start(),
    {
        match self {
            PartialDate::Year(x) => x.first_day(),
            PartialDate::YearMonth(x) => x.first_day(),
            PartialDate::YearMonthDay(x) => x,
        }
    }

    /// The last day of the period.
    pub fn as_end_date(self) -> (r: Date)
        ensures
            r@ == self.end(),
    {
        match self {
            PartialDate::Year(x) => x.last_day(),
            PartialDate::YearMonth(x) => x.last_day(),
            PartialDate::YearMonthDay(x) => x,
        }
    }

    /// The period as the days from its first day up to, not including, the day after its last.
    pub fn as_range(self) -> (r: std::ops::Range<Date>)
        requires
            self.end().0 < i32::MAX || self.end().1 < 12,
        ensures
            r.start@ == self.start(),
            r.end@ == next_ymd(self.end()),
    {
        match self {
            PartialDate::Year(x) => std::ops::Range { start: x.first_day(), end: x.next().first_day() },
            PartialDate::YearMonth(x) => std::ops::Range {
                start: x.first_day(),
                end: x.next().first_day(),
            },
            PartialDate::YearMonthDay(x) => std::ops::Range { start: x, end: x.next() },
        }
    }
}

} // verus!
