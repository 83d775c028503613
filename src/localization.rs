use vstd::prelude::*;
use crate::date::{Date, Month, year_text};
use crate::text::{digits_of, push_char, push_digits, push_padded, push_str};

verus! {

/// The names of the months in the language of an invoice.
#[derive(Clone, Debug, PartialEq, Eq)]
pub struct DateLocalization {
    pub january: String,
    pub february: String,
    pub march: String,
    pub april: String,
    pub may: String,
    pub june: String,
    pub july: String,
    pub august: String,
    pub september: String,
    pub october: String,
    pub november: String,
    pub december: String,
}

/// The name of month number `m` in `l`.
pub open spec fn month_name(l: DateLocalization, m: int) -> Seq<char> {
    if m == 1 {
        l.january@
    } else if m == 2 {
        l.february@
    } else if m == 3 {
        l.march@
    } else if m == 4 {
        l.april@
    } else if m == 5 {
        l.may@
    } else if m == 6 {
        l.june@
    } else if m == 7 {
        l.july@
    } else if m == 8 {
        l.august@
    } else if m == 9 {
        l.september@
    } else if m == 10 {
        l.october@
    } else if m == 11 {
        l.november@
    } else {
        l.december@
    }
}

/// A date as `DAY MONTH YEAR`, with the month's name from `l`.
pub open spec fn long_date_text(l: DateLocalization, t: (int, int, int)) -> Seq<char> {
    digits_of(t.2 as nat) + seq![' '] + month_name(l, t.1) + seq![' '] + year_text(t.0)
}

/// The name of `month` in `localization`.
pub fn format_month(month: Month, localization: &DateLocalization) -> (r: &String)
    ensures
        r@ == month_name(*localization, month.number()),
{
    match month {
        Month::January => &localization.january,
        Month::February => &localization.february,
        Month::March => &localization.march,
        Month::April => &localization.april,
        Month::May => &localization.may,
        Month::June => &localization.june,
        Month::July => &localization.july,
        Month::August => &localization.august,
        Month::September => &localization.september,
        Month::October => &localization.october,
        Month::November => &localization.november,
        Month::December => &localization.december,
    }
}

/// `date` as `DAY MONTH YEAR`, such as `7 maart 2020`.
pub fn format_date(date: Date, localization: &DateLocalization) -> (r: String)
    ensures
        r@ == long_date_text(*localization, date@),
{
    let month = format_month(date.month(), localization);
    let mut out = String::new();
    push_digits(&mut out, date.day() as u32);
    push_char(&mut out, ' ');
    push_str(&mut out, month.as_str());
    push_char(&mut out, ' ');
    let y = date.year().as_number();
    if y < 0 {
        push_char(&mut out, '-');
        push_padded(&mut out, (0 - y as i64) as u32, 3);
    } else {
        push_padded(&mut out, y as u32, 4);
    }
    assert(out@ =~= long_date_text(*localization, date@));
    out
}

} // verus!
